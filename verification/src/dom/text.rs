//! The Text node: document content that is neither a tag nor a comment.

use vstd::prelude::*;

verus! {

/// A leaf node holding plain document text.
/// If `<h1>section</h1>`, then `section`.
#[derive(Debug, PartialEq)]
pub struct Text {
    text: String,
}

impl View for Text {
    type V = Seq<char>;

    closed spec fn view(&self) -> Seq<char> {
        self.text@
    }
}

impl Clone for Text {
    fn clone(&self) -> (r: Self)
        ensures
            r == *self,
    {
        Text { text: self.text.clone() }
    }
}

impl Text {
    /// Create a new Text node holding `text`.
    pub fn new(text: String) -> (r: Text)
        ensures
            r@ == text@,
    {
        Text { text }
    }

    /// Returns the text.
    /// If `<h1>section</h1>`, then returns `section`.
    pub fn get_text(&self) -> (r: &str)
        ensures
            r@ == self@,
    {
        self.text.as_str()
    }
}

} // verus!
