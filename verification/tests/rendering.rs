use blog_core::models::blog::render_all;
use blog_core::models::blog::Blog;
use blog_core::transform::render;
use blog_core::transform::render_line;

#[test]
fn h3_line_keeps_following_text() {
    assert_eq!(render("### Title"), "<h3> Title</h3>");
}

#[test]
fn h3_wins_over_shorter_header_sigils() {
    assert_eq!(render("###Title"), "<h3>Title</h3>");
}

#[test]
fn h2_line() {
    assert_eq!(render("##Sub"), "<h2>Sub</h2>");
}

#[test]
fn h2_strips_a_single_leading_occurrence() {
    assert_eq!(render("## ## still bold"), "<h2> ## still bold</h2>");
}

#[test]
fn h1_line() {
    assert_eq!(render("#Header"), "<h1>Header</h1>");
}

#[test]
fn bold_line() {
    assert_eq!(render("**bold**"), "<strong>bold</strong>");
}

#[test]
fn italic_line() {
    assert_eq!(render("*lean*"), "<i>lean</i>");
}

#[test]
fn strikethrough_line() {
    assert_eq!(render("~~gone~~"), "<s>gone</s>");
}

#[test]
fn rule_line_keeps_trailing_text() {
    assert_eq!(render("---rest"), "<hr>rest");
    assert_eq!(render("---"), "<hr>");
}

#[test]
fn plain_line_passes_through() {
    assert_eq!(render("plain line"), "plain line");
}

#[test]
fn lines_are_joined_with_br() {
    assert_eq!(render("a\r\nb"), "a<br>b");
    assert_eq!(render("#a\r\n**b**\r\nc"), "<h1>a</h1><br><strong>b</strong><br>c");
}

#[test]
fn empty_input_stays_empty() {
    assert_eq!(render(""), "");
    assert_eq!(render("\r\n"), "<br>");
}

#[test]
fn sigil_only_lines_never_panic() {
    assert_eq!(render("**"), "<i></i>");
    assert_eq!(render("***"), "<i>*</i>");
    assert_eq!(render("*"), "*");
    assert_eq!(render("~~"), "~~");
    assert_eq!(render("~"), "~");
}

#[test]
fn rendering_is_idempotent_on_plain_lines() {
    let once = render("plain line");
    assert_eq!(render(&once), once);
    let bold_once = render_line("**bold**");
    assert_eq!(render_line(&bold_once), bold_once);
}

#[test]
fn rendered_blog_keeps_every_other_field() {
    let blog = Blog::new(
        "A title".to_string(),
        "author@example.com".to_string(),
        "#Heading\r\nbody".to_string(),
        "12/3/23".to_string(),
    );
    let shown = blog.rendered();
    assert_eq!(shown.title, "A title");
    assert_eq!(shown.email, "author@example.com");
    assert_eq!(shown.publish_date, "12/3/23");
    assert_eq!(shown.content, "<h1>Heading</h1><br>body");
    assert_eq!(blog.content, "#Heading\r\nbody");
}

#[test]
fn render_all_renders_each_post() {
    let blogs = vec![
        Blog::new("t1".to_string(), "e1".to_string(), "*a*".to_string(), "d1".to_string()),
        Blog::new("t2".to_string(), "e2".to_string(), "plain".to_string(), "d2".to_string()),
    ];
    let shown = render_all(&blogs);
    assert_eq!(shown.len(), 2);
    assert_eq!(shown[0].content, "<i>a</i>");
    assert_eq!(shown[1].content, "plain");
    assert_eq!(shown[0].title, "t1");
    assert_eq!(shown[1].email, "e2");
}
