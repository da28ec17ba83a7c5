use vstd::prelude::*;

use crate::models::blog::Blog;

verus! {

/// A marker for a page response with no data of its own.
#[derive(Debug, Clone)]
pub struct PagePackage {}

/// A page showing a single post.
#[derive(Debug)]
pub struct BlogPage {
    pub blog_page: Blog,
}

/// A page showing every post.
#[derive(Debug)]
pub struct AllPages {
    pub blog_pages: Vec<Blog>,
}

} // verus!
