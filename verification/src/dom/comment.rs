//! The Comment node: content between comment delimiters.

use vstd::prelude::*;

verus! {

/// A leaf node holding the interior of a comment tag.
/// grammar: `<!-- comment -->`
#[derive(Debug, PartialEq)]
pub struct Comment {
    comment: String,
}

impl View for Comment {
    type V = Seq<char>;

    closed spec fn view(&self) -> Seq<char> {
        self.comment@
    }
}

impl Clone for Comment {
    fn clone(&self) -> (r: Self)
        ensures
            r == *self,
    {
        Comment { comment: self.comment.clone() }
    }
}

impl Comment {
    /// Create a new Comment node holding `comment`.
    /// If `<!-- hello -->`, then `comment` is ` hello `.
    pub fn new(comment: String) -> (r: Comment)
        ensures
            r@ == comment@,
    {
        Comment { comment }
    }

    /// Returns the comment's content.
    /// If `<!-- hello -->`, then returns ` hello `.
    pub fn get_comment(&self) -> (r: &str)
        ensures
            r@ == self@,
    {
        self.comment.as_str()
    }
}

} // verus!
