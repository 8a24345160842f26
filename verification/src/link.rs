//! The stored record: a URL together with the display title it was enriched
//! with, and the mathematical view of such a record.

use vstd::prelude::*;

verus! {

/// Mathematical view of a stored link: the characters of its URL and title.
pub ghost struct LinkV {
    pub url: Seq<char>,
    pub title: Seq<char>,
}

/// One stored bookmark: a URL and the page title it was enriched with.
/// The title may be empty; identity is purely positional in the store.
pub struct Link {
    pub url: String,
    pub title: String,
}

impl View for Link {
    type V = LinkV;

    open spec fn view(&self) -> LinkV {
        LinkV { url: self.url@, title: self.title@ }
    }
}

impl Link {
    pub fn new(url: String, title: String) -> (r: Link)
        ensures
            r@ == (LinkV { url: url@, title: title@ }),
    {
        Link { url, title }
    }
}

impl Clone for Link {
    fn clone(&self) -> (r: Link)
        ensures
            r == *self,
    {
        Link { url: self.url.clone(), title: self.title.clone() }
    }
}

/// The view of a whole store: the links' views, oldest first.
pub open spec fn store_view(s: Seq<Link>) -> Seq<LinkV> {
    s.map_values(|l: Link| l@)
}

} // verus!
