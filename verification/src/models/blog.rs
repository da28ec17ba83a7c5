use vstd::prelude::*;

use crate::transform::render;
use crate::transform::spec_render;

verus! {

/// A stored post: title, author email, raw body and publish date.  The body
/// is stored verbatim as authored; its rendered HTML form is recomputed on
/// every read and never persisted.
#[derive(Debug, Clone)]
pub struct Blog {
    pub title: String,
    pub email: String,
    pub content: String,
    pub publish_date: String,
}

impl Blog {
    pub fn new(title: String, email: String, content: String, publish_date: String) -> (b: Blog)
        ensures
            b.title == title,
            b.email == email,
            b.content == content,
            b.publish_date == publish_date,
    {
        Blog { title, email, content, publish_date }
    }

    /// A copy of this post whose body is replaced by its rendered HTML form.
    pub fn rendered(&self) -> (b: Blog)
        ensures
            b.title == self.title,
            b.email == self.email,
            b.publish_date == self.publish_date,
            b.content@ == spec_render(self.content@),
    {
        Blog {
            title: self.title.clone(),
            email: self.email.clone(),
            content: render(self.content.as_str()),
            publish_date: self.publish_date.clone(),
        }
    }
}

/// Every post of a listing, rendered for display; raw bodies are left as
/// they were.
pub fn render_all(blogs: &Vec<Blog>) -> (r: Vec<Blog>)
    ensures
        r@.len() == blogs@.len(),
        forall|i: int|
            0 <= i < blogs@.len() ==> {
                &&& #[trigger] r@[i].title == blogs@[i].title
                &&& r@[i].email == blogs@[i].email
                &&& r@[i].publish_date == blogs@[i].publish_date
                &&& r@[i].content@ == spec_render(blogs@[i].content@)
            },
{
    let mut out: Vec<Blog> = Vec::new();
    let mut k: usize = 0;
    while k < blogs.len()
        invariant
            k <= blogs@.len(),
            out@.len() == k as int,
            forall|i: int|
                0 <= i < k ==> {
                    &&& #[trigger] out@[i].title == blogs@[i].title
                    &&& out@[i].email == blogs@[i].email
                    &&& out@[i].publish_date == blogs@[i].publish_date
                    &&& out@[i].content@ == spec_render(blogs@[i].content@)
                },
        decreases blogs@.len() - k,
    {
        out.push(blogs[k].rendered());
        k += 1;
    }
    out
}

} // verus!
