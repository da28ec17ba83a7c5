use vstd::prelude::*;

verus! {

// ---------------------------------------------------------------------------
// Specification: one line of the markup dialect, rewritten as HTML.
// ---------------------------------------------------------------------------

/// True when `p` is a prefix of `s`.
pub open spec fn has_prefix(s: Seq<char>, p: Seq<char>) -> bool {
    p.len() <= s.len() && s.subrange(0, p.len() as int) == p
}

/// True when `p` is a suffix of `s`.
pub open spec fn has_suffix(s: Seq<char>, p: Seq<char>) -> bool {
    p.len() <= s.len() && s.subrange(s.len() - p.len(), s.len() as int) == p
}

/// One line rewritten by the first matching rule.  Rules are ordered so that
/// a longer sigil is never shadowed by a shorter prefix of itself, header
/// rules strip a single leading occurrence of the sigil only, and the
/// wrap-around rules apply only when the two markers cannot overlap.
pub open spec fn spec_render_line(l: Seq<char>) -> Seq<char> {
    let n = l.len() as int;
    if has_prefix(l, "###"@) {
        "<h3>"@ + l.subrange(3, n) + "</h3>"@
    } else if has_prefix(l, "##"@) {
        "<h2>"@ + l.subrange(2, n) + "</h2>"@
    } else if has_prefix(l, "#"@) {
        "<h1>"@ + l.subrange(1, n) + "</h1>"@
    } else if n >= 4 && has_prefix(l, "**"@) && has_suffix(l, "**"@) {
        "<strong>"@ + l.subrange(2, n - 2) + "</strong>"@
    } else if n >= 2 && has_prefix(l, "*"@) && has_suffix(l, "*"@) {
        "<i>"@ + l.subrange(1, n - 1) + "</i>"@
    } else if n >= 4 && has_prefix(l, "~~"@) && has_suffix(l, "~~"@) {
        "<s>"@ + l.subrange(2, n - 2) + "</s>"@
    } else if has_prefix(l, "---"@) {
        "<hr>"@ + l.subrange(3, n)
    } else {
        l
    }
}

/// A line no rule applies to: it passes through the renderer unchanged.
pub open spec fn line_is_plain(l: Seq<char>) -> bool {
    let n = l.len() as int;
    &&& !has_prefix(l, "###"@)
    &&& !has_prefix(l, "##"@)
    &&& !has_prefix(l, "#"@)
    &&& !(n >= 4 && has_prefix(l, "**"@) && has_suffix(l, "**"@))
    &&& !(n >= 2 && has_prefix(l, "*"@) && has_suffix(l, "*"@))
    &&& !(n >= 4 && has_prefix(l, "~~"@) && has_suffix(l, "~~"@))
    &&& !has_prefix(l, "---"@)
}

/// Rendering is the identity on plain lines; rendering such a line twice is
/// the same as rendering it once.
pub proof fn lemma_plain_line_unchanged(l: Seq<char>)
    requires
        line_is_plain(l),
    ensures
        spec_render_line(l) == l,
        spec_render_line(spec_render_line(l)) == spec_render_line(l),
{
}

// ---------------------------------------------------------------------------
// Specification: the whole body, lines split on "\r\n", joined with "<br>".
// ---------------------------------------------------------------------------

/// A carriage-return/line-feed pair starts at index `i` of `s`.
pub open spec fn crlf_at(s: Seq<char>, i: int) -> bool {
    0 <= i && i + 1 < s.len() && s[i] == '\r' && s[i + 1] == '\n'
}

/// The index of the first carriage-return/line-feed pair of `s`, if any.
pub open spec fn find_crlf(s: Seq<char>) -> Option<int>
    decreases s.len(),
{
    if s.len() < 2 {
        None
    } else if s[0] == '\r' && s[1] == '\n' {
        Some(0int)
    } else {
        match find_crlf(s.subrange(1, s.len() as int)) {
            None => None,
            Some(j) => Some(j + 1),
        }
    }
}

proof fn lemma_find_crlf_bounds(s: Seq<char>)
    ensures
        match find_crlf(s) {
            Some(i) => 0 <= i && i + 2 <= s.len() && crlf_at(s, i),
            None => true,
        },
    decreases s.len(),
{
    if s.len() < 2 {
    } else if s[0] == '\r' && s[1] == '\n' {
    } else {
        lemma_find_crlf_bounds(s.subrange(1, s.len() as int));
    }
}

proof fn lemma_find_crlf_here(s: Seq<char>, i: int)
    requires
        crlf_at(s, i),
        forall|k: int| 0 <= k < i ==> !crlf_at(s, k),
    ensures
        find_crlf(s) == Some(i),
    decreases s.len(),
{
    if i == 0 {
    } else {
        assert(!crlf_at(s, 0));
        let t = s.subrange(1, s.len() as int);
        assert(crlf_at(t, i - 1));
        assert forall|k: int| 0 <= k < i - 1 implies !crlf_at(t, k) by {
            assert(!crlf_at(s, k + 1));
        }
        lemma_find_crlf_here(t, i - 1);
    }
}

proof fn lemma_find_crlf_absent(s: Seq<char>)
    requires
        forall|k: int| !crlf_at(s, k),
    ensures
        find_crlf(s) is None,
    decreases s.len(),
{
    if s.len() < 2 {
    } else {
        assert(!crlf_at(s, 0));
        let t = s.subrange(1, s.len() as int);
        assert forall|k: int| !crlf_at(t, k) by {
            if 0 <= k && k + 1 < t.len() {
                assert(!crlf_at(s, k + 1));
            }
        }
        lemma_find_crlf_absent(t);
    }
}

/// The rendered form of a whole raw body: each line rewritten by
/// [`spec_render_line`], lines joined with the `<br>` marker.
pub open spec fn spec_render(s: Seq<char>) -> Seq<char>
    decreases s.len(),
    via spec_render_decreases
{
    match find_crlf(s) {
        None => spec_render_line(s),
        Some(i) => spec_render_line(s.subrange(0, i)) + "<br>"@ + spec_render(
            s.subrange(i + 2, s.len() as int),
        ),
    }
}

#[via_fn]
proof fn spec_render_decreases(s: Seq<char>) {
    lemma_find_crlf_bounds(s);
}

// ---------------------------------------------------------------------------
// Executable renderer.
// ---------------------------------------------------------------------------

/// Whether `p` begins the string `s`.
fn str_has_prefix(s: &str, p: &str) -> (b: bool)
    ensures
        b == has_prefix(s@, p@),
{
    let n = s.unicode_len();
    let m = p.unicode_len();
    if m > n {
        return false;
    }
    let mut i: usize = 0;
    while i < m
        invariant
            i <= m <= n,
            n == s@.len(),
            m == p@.len(),
            forall|j: int| 0 <= j < i ==> s@[j] == p@[j],
        decreases m - i,
    {
        if s.get_char(i) != p.get_char(i) {
            assert(!has_prefix(s@, p@)) by {
                assert(s@.subrange(0, m as int)[i as int] == s@[i as int]);
            }
            return false;
        }
        i += 1;
    }
    assert(s@.subrange(0, m as int) =~= p@);
    true
}

/// Whether `p` ends the string `s`.
fn str_has_suffix(s: &str, p: &str) -> (b: bool)
    ensures
        b == has_suffix(s@, p@),
{
    let n = s.unicode_len();
    let m = p.unicode_len();
    if m > n {
        return false;
    }
    let off = n - m;
    let mut i: usize = 0;
    while i < m
        invariant
            i <= m <= n,
            n == s@.len(),
            m == p@.len(),
            off == n - m,
            forall|j: int| 0 <= j < i ==> s@[off + j] == p@[j],
        decreases m - i,
    {
        if s.get_char(off + i) != p.get_char(i) {
            assert(!has_suffix(s@, p@)) by {
                assert(s@.subrange(off as int, n as int)[i as int] == s@[off + i]);
            }
            return false;
        }
        i += 1;
    }
    assert(s@.subrange(off as int, n as int) =~= p@);
    true
}

/// `open`, then the characters of `line` from `from` to `to`, then `close`.
fn wrap_slice(line: &str, from: usize, to: usize, open: &str, close: &str) -> (r: String)
    requires
        from <= to <= line@.len(),
    ensures
        r@ == open@ + line@.subrange(from as int, to as int) + close@,
{
    let mid = line.substring_char(from, to);
    open.to_owned().concat(mid).concat(close)
}

/// One line of markup rewritten as an HTML fragment.  Total: every line,
/// including the empty line and lines shorter than any sigil, produces an
/// output line.
pub fn render_line(line: &str) -> (r: String)
    ensures
        r@ == spec_render_line(line@),
{
    let n = line.unicode_len();
    if str_has_prefix(line, "###") {
        proof {
            reveal_strlit("###");
        }
        wrap_slice(line, 3, n, "<h3>", "</h3>")
    } else if str_has_prefix(line, "##") {
        proof {
            reveal_strlit("##");
        }
        wrap_slice(line, 2, n, "<h2>", "</h2>")
    } else if str_has_prefix(line, "#") {
        proof {
            reveal_strlit("#");
        }
        wrap_slice(line, 1, n, "<h1>", "</h1>")
    } else if n >= 4 && str_has_prefix(line, "**") && str_has_suffix(line, "**") {
        wrap_slice(line, 2, n - 2, "<strong>", "</strong>")
    } else if n >= 2 && str_has_prefix(line, "*") && str_has_suffix(line, "*") {
        wrap_slice(line, 1, n - 1, "<i>", "</i>")
    } else if n >= 4 && str_has_prefix(line, "~~") && str_has_suffix(line, "~~") {
        wrap_slice(line, 2, n - 2, "<s>", "</s>")
    } else if str_has_prefix(line, "---") {
        proof {
            reveal_strlit("---");
            reveal_strlit("");
        }
        wrap_slice(line, 3, n, "<hr>", "")
    } else {
        line.to_owned()
    }
}

/// The first carriage-return/line-feed pair of `s`, as an index.
fn find_crlf_exec(s: &str) -> (r: Option<usize>)
    ensures
        match r {
            Some(i) => find_crlf(s@) == Some(i as int),
            None => find_crlf(s@) is None,
        },
{
    let n = s.unicode_len();
    if n < 2 {
        proof {
            lemma_find_crlf_absent(s@);
        }
        return None;
    }
    let mut i: usize = 0;
    while i + 1 < n
        invariant
            n == s@.len(),
            2 <= n,
            i + 1 <= n,
            forall|k: int| 0 <= k < i ==> !crlf_at(s@, k),
        decreases n - i,
    {
        if s.get_char(i) == '\r' && s.get_char(i + 1) == '\n' {
            proof {
                lemma_find_crlf_here(s@, i as int);
            }
            return Some(i);
        }
        i += 1;
    }
    proof {
        assert forall|k: int| !crlf_at(s@, k) by {
            if 0 <= k && k + 1 < s@.len() {
                assert(k < i);
            }
        }
        lemma_find_crlf_absent(s@);
    }
    None
}

/// The Content Transformer: a single-pass, line-oriented rewrite of a raw
/// post body into an HTML fragment.  Lines are separated by a literal
/// carriage-return/line-feed pair in the input and joined with `<br>` in the
/// output; each line is rewritten independently by [`render_line`].  The
/// transformation is a total, deterministic function of the raw body.
pub fn render(s: &str) -> (r: String)
    ensures
        r@ == spec_render(s@),
    decreases s@.len(),
{
    let n = s.unicode_len();
    match find_crlf_exec(s) {
        None => render_line(s),
        Some(i) => {
            proof {
                lemma_find_crlf_bounds(s@);
            }
            let head = render_line(s.substring_char(0, i));
            let tail = render(s.substring_char(i + 2, n));
            head.concat("<br>").concat(tail.as_str())
        },
    }
}

} // verus!
