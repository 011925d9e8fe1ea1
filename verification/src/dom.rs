//! The tree of typed nodes that a parse produces, and the "sufficient
//! condition" relation used to compare a pattern node against a candidate.

pub mod comment;
pub mod tag;
pub mod text;

pub use comment::Comment;
pub use tag::Tag;
pub use text::Text;

use vstd::prelude::*;

use crate::dom::tag::{spec_tag_implies, TagV};
use crate::strutil::{contains_chars, is_substring, str_chars};

verus! {

/// The variant of a node.
#[derive(Debug, PartialEq, Eq, Structural, Clone, Copy)]
pub enum DomType {
    Tag,
    Text,
    Comment,
}

/// The mathematical content of a node: its variant, the payload of the
/// variant when it has been set, and its ordered children when it has any.
pub ghost struct DomV {
    pub dom_type: DomType,
    pub tag: Option<TagV>,
    pub text: Option<Seq<char>>,
    pub comment: Option<Seq<char>>,
    pub children: Option<Seq<DomV>>,
}

/// A node of the parsed document tree. Every non-root node is owned by
/// exactly one parent; Text and Comment nodes are always leaves.
#[derive(Debug, PartialEq)]
pub struct Dom {
    /// The variant of this node.
    pub dom_type: DomType,
    tag: Option<Tag>,
    text: Option<Text>,
    comment: Option<Comment>,
    children: Option<Vec<Dom>>,
}

/// The view of a node: the variant, the payloads' views, and the children's
/// views in order.
pub closed spec fn dom_view(d: Dom) -> DomV
    decreases d,
{
    DomV {
        dom_type: d.dom_type,
        tag: match d.tag {
            Some(t) => Some(t@),
            None => None,
        },
        text: match d.text {
            Some(t) => Some(t@),
            None => None,
        },
        comment: match d.comment {
            Some(c) => Some(c@),
            None => None,
        },
        children: match d.children {
            Some(v) => Some(doms_view_rec(v@)),
            None => None,
        },
    }
}

/// The views of a sequence of nodes, one by one.
spec fn doms_view_rec(s: Seq<Dom>) -> Seq<DomV>
    decreases s,
{
    if s.len() == 0 {
        Seq::empty()
    } else {
        seq![dom_view(s[0])] + doms_view_rec(s.subrange(1, s.len() as int))
    }
}

proof fn lemma_doms_view_rec(s: Seq<Dom>)
    ensures
        doms_view_rec(s).len() == s.len(),
        forall|i: int| 0 <= i < s.len() ==> doms_view_rec(s)[i] == dom_view(s[i]),
        doms_view_rec(s) =~= doms_view(s),
    decreases s.len(),
{
    if s.len() > 0 {
        lemma_doms_view_rec(s.subrange(1, s.len() as int));
    }
}

impl View for Dom {
    type V = DomV;

    closed spec fn view(&self) -> DomV {
        dom_view(*self)
    }
}

/// The views of a sequence of nodes, kept in order.
pub open spec fn doms_view(s: Seq<Dom>) -> Seq<DomV> {
    Seq::new(s.len(), |i: int| s[i]@)
}

/// The children of a node, reading absent children as none at all.
pub open spec fn child_seq(d: DomV) -> Seq<DomV> {
    match d.children {
        Some(s) => s,
        None => Seq::empty(),
    }
}

/// A node's variant payload is set, here and in every descendant. Every tree
/// the parser builds satisfies this.
pub open spec fn dom_wf(d: DomV) -> bool
    decreases d,
{
    &&& (d.dom_type is Tag ==> d.tag is Some)
    &&& (d.dom_type is Text ==> d.text is Some)
    &&& (d.dom_type is Comment ==> d.comment is Some)
    &&& (forall|i: int|
        0 <= i < child_seq(d).len() ==> dom_wf(#[trigger] child_seq(d)[i]))
}

/// The sufficient-condition relation between two single nodes, children
/// ignored: the variants are equal, both payloads are set, and the pattern's
/// payload matches the candidate's (tags by name and attributes, text and
/// comments by substring containment).
pub open spec fn spec_node_implies(p: DomV, q: DomV) -> bool {
    &&& q.dom_type == p.dom_type
    &&& match q.dom_type {
        DomType::Tag => q.tag is Some && p.tag is Some && spec_tag_implies(
            p.tag->Some_0,
            q.tag->Some_0,
        ),
        DomType::Text => q.text is Some && p.text is Some && is_substring(
            p.text->Some_0,
            q.text->Some_0,
        ),
        DomType::Comment => q.comment is Some && p.comment is Some && is_substring(
            p.comment->Some_0,
            q.comment->Some_0,
        ),
    }
}

/// The sufficient-condition relation over whole trees: the roots are related
/// by `spec_node_implies`, and every child of the pattern finds at least one
/// related child of the candidate. The match is unordered and not bijective:
/// one candidate child may satisfy several pattern children.
pub open spec fn spec_tree_implies(p: DomV, q: DomV) -> bool
    decreases p, 0int,
{
    &&& spec_node_implies(p, q)
    &&& match p.children {
        None => true,
        Some(pcs) => match q.children {
            None => false,
            Some(qcs) => forall|i: int|
                0 <= i < pcs.len() ==> has_matching_child(#[trigger] pcs[i], qcs),
        },
    }
}

/// Some member of `qcs` is implied, as a whole tree, by the pattern `p`.
pub open spec fn has_matching_child(p: DomV, qcs: Seq<DomV>) -> bool
    decreases p, 1int,
{
    exists|j: int| 0 <= j < qcs.len() && spec_tree_implies(p, #[trigger] qcs[j])
}

impl Clone for Dom {
    #[verifier::loop_isolation(false)]
    fn clone(&self) -> (r: Self)
        ensures
            r@ == self@,
        decreases *self,
    {
        let children: Option<Vec<Dom>> = match &self.children {
            None => None,
            Some(v) => {
                let mut c: Vec<Dom> = Vec::new();
                let mut i: usize = 0;
                while i < v.len()
                    invariant
                        i <= v.len(),
                        doms_view(c@) =~= doms_view(v@).take(i as int),
                    decreases v@.len() - i,
                {
                    proof {
                        assert(v@[i as int] == self.children->Some_0@[i as int]);
                        assert(decreases_to!(*self => self.children->Some_0@[i as int]));
                    }
                    c.push(v[i].clone());
                    proof {
                        assert(doms_view(c@) =~= doms_view(v@).take(i + 1));
                    }
                    i = i + 1;
                }
                proof {
                    assert(doms_view(c@) =~= doms_view(self.children->Some_0@));
                }
                Some(c)
            },
        };
        let r = Dom {
            dom_type: self.dom_type,
            tag: match &self.tag {
                Some(t) => Some(t.clone()),
                None => None,
            },
            text: match &self.text {
                Some(t) => Some(t.clone()),
                None => None,
            },
            comment: match &self.comment {
                Some(c) => Some(c.clone()),
                None => None,
            },
            children,
        };
        proof {
            if r.children is Some {
                lemma_doms_view_rec(r.children->Some_0@);
                lemma_doms_view_rec(self.children->Some_0@);
                assert(r@.children->Some_0 =~= self@.children->Some_0);
            }
            assert(r@ == self@);
        }
        r
    }
}

impl Dom {
    /// Create a new node of the given variant, with no payload and no
    /// children.
    pub fn new(dom_type: DomType) -> (r: Dom)
        ensures
            r@ == (DomV { dom_type, tag: None, text: None, comment: None, children: None }),
    {
        Dom { dom_type, tag: None, text: None, comment: None, children: None }
    }

    /// Create the synthetic root node: a Tag node named `root`, without
    /// attributes, that wraps every top-level fragment of a document.
    pub fn new_root() -> (r: Dom)
        ensures
            r@ == (DomV {
                dom_type: DomType::Tag,
                tag: Some(
                    TagV { name: "root"@, attrs: None, terminated: false, terminator: false },
                ),
                text: None,
                comment: None,
                children: None,
            }),
    {
        let tag = Tag::new("root");
        let mut dom = Dom::new(DomType::Tag);
        dom.set_tag(tag);
        dom
    }

    /// The name of this node's variant.
    pub fn domtype_str(&self) -> (r: String)
        ensures
            r@ == match self@.dom_type {
                DomType::Tag => "Tag"@,
                DomType::Text => "Text"@,
                DomType::Comment => "Comment"@,
            },
    {
        match self.dom_type {
            DomType::Tag => "Tag".to_owned(),
            DomType::Text => "Text".to_owned(),
            DomType::Comment => "Comment".to_owned(),
        }
    }

    /// Set the Tag payload; only a Tag-variant node can hold one.
    pub fn set_tag(&mut self, tag: Tag)
        requires
            old(self)@.dom_type is Tag,
        ensures
            final(self)@ == (DomV { tag: Some(tag@), ..old(self)@ }),
    {
        self.tag = Some(tag);
    }

    /// Returns the Tag payload, or `None` if it was never set.
    pub fn get_tag(&self) -> (r: Option<&Tag>)
        ensures
            match r {
                Some(t) => self@.tag == Some(t@),
                None => self@.tag is None,
            },
    {
        self.tag.as_ref()
    }

    /// Set the Text payload; only a Text-variant node can hold one.
    pub fn set_text(&mut self, text: Text)
        requires
            old(self)@.dom_type is Text,
        ensures
            final(self)@ == (DomV { text: Some(text@), ..old(self)@ }),
    {
        self.text = Some(text);
    }

    /// Returns the Text payload, or `None` if it was never set.
    pub fn get_text(&self) -> (r: Option<&Text>)
        ensures
            match r {
                Some(t) => self@.text == Some(t@),
                None => self@.text is None,
            },
    {
        self.text.as_ref()
    }

    /// Set the Comment payload; only a Comment-variant node can hold one.
    pub fn set_comment(&mut self, comment: Comment)
        requires
            old(self)@.dom_type is Comment,
        ensures
            final(self)@ == (DomV { comment: Some(comment@), ..old(self)@ }),
    {
        self.comment = Some(comment);
    }

    /// Returns the Comment payload, or `None` if it was never set.
    pub fn get_comment(&self) -> (r: Option<&Comment>)
        ensures
            match r {
                Some(c) => self@.comment == Some(c@),
                None => self@.comment is None,
            },
    {
        self.comment.as_ref()
    }

    /// Append a child node, creating the child list if the node had none.
    pub fn add_child(&mut self, dom: Dom)
        ensures
            final(self)@ == (DomV {
                children: Some(child_seq(old(self)@).push(dom@)),
                ..old(self)@
            }),
    {
        let ghost dv = dom@;
        match &mut self.children {
            Some(children) => {
                children.push(dom);
                proof {
                    lemma_doms_view_rec(self.children->Some_0@);
                    lemma_doms_view_rec(old(self).children->Some_0@);
                    assert(self@.children->Some_0 =~= child_seq(old(self)@).push(dv));
                    assert(self@ == (DomV {
                        children: Some(child_seq(old(self)@).push(dv)),
                        ..old(self)@
                    }));
                }
            },
            None => {
                let mut children: Vec<Dom> = Vec::new();
                children.push(dom);
                self.children = Some(children);
                proof {
                    lemma_doms_view_rec(self.children->Some_0@);
                    assert(self@.children->Some_0 =~= child_seq(old(self)@).push(dv));
                    assert(self@ == (DomV {
                        children: Some(child_seq(old(self)@).push(dv)),
                        ..old(self)@
                    }));
                }
            },
        }
    }

    /// Returns the child list, or `None` when the node has no children.
    pub fn get_children(&self) -> (r: Option<&Vec<Dom>>)
        ensures
            match r {
                Some(v) => self@.children == Some(doms_view(v@)),
                None => self@.children is None,
            },
    {
        proof {
            if self.children is Some {
                lemma_doms_view_rec(self.children->Some_0@);
                assert(self@.children->Some_0 =~= doms_view(self.children->Some_0@));
            }
        }
        self.children.as_ref()
    }

    /// Returns true if p is a sufficient condition for q, comparing the two
    /// nodes alone: `p => q`.
    pub fn p_implies_q(p: &Dom, q: &Dom) -> (r: bool)
        ensures
            r == spec_node_implies(p@, q@),
    {
        if q.dom_type != p.dom_type {
            return false;
        }
        match q.dom_type {
            DomType::Tag => {
                if let Some(q_tag) = q.get_tag() {
                    if let Some(p_tag) = p.get_tag() {
                        return crate::dom::tag::satisfy_sufficient_condition(p_tag, q_tag);
                    }
                }
            },
            DomType::Text => {
                if let Some(q_text) = q.get_text() {
                    if let Some(p_text) = p.get_text() {
                        let p_chars = str_chars(p_text.get_text());
                        let q_chars = str_chars(q_text.get_text());
                        return contains_chars(&p_chars, &q_chars);
                    }
                }
            },
            DomType::Comment => {
                if let Some(q_comment) = q.get_comment() {
                    if let Some(p_comment) = p.get_comment() {
                        let p_chars = str_chars(p_comment.get_comment());
                        let q_chars = str_chars(q_comment.get_comment());
                        return contains_chars(&p_chars, &q_chars);
                    }
                }
            },
        }
        false
    }

    /// Returns true if p is a sufficient condition for q, comparing the
    /// entire trees: `p => q`.
    #[verifier::loop_isolation(false)]
    pub fn p_implies_q_tree(p: &Dom, q: &Dom) -> (r: bool)
        ensures
            r == spec_tree_implies(p@, q@),
        decreases p@, 0int,
    {
        if !Dom::p_implies_q(p, q) {
            return false;
        }
        let p_children = match p.get_children() {
            None => {
                return true;
            },
            Some(v) => v,
        };
        let q_children = match q.get_children() {
            None => {
                return false;
            },
            Some(v) => v,
        };
        let ghost pcs = p@.children->Some_0;
        let ghost qcs = q@.children->Some_0;
        let mut i: usize = 0;
        while i < p_children.len()
            invariant
                i <= p_children.len(),
                forall|ii: int| 0 <= ii < i ==> has_matching_child(#[trigger] pcs[ii], qcs),
            decreases p_children.len() - i,
        {
            proof {
                assert(pcs[i as int] == p_children@[i as int]@);
                assert(decreases_to!(p@ => p@.children->Some_0[i as int]));
            }
            // If no child of q is implied by this child of p.
            if !Dom::child_match(&p_children[i], q_children) {
                return false;
            }
            i = i + 1;
        }
        true
    }

    /// Returns true if some member of `q_children` is implied, as a whole
    /// tree, by the pattern `p_child`.
    #[verifier::loop_isolation(false)]
    fn child_match(p_child: &Dom, q_children: &Vec<Dom>) -> (r: bool)
        ensures
            r == has_matching_child(p_child@, doms_view(q_children@)),
        decreases p_child@, 1int,
    {
        let ghost qcs = doms_view(q_children@);
        let mut j: usize = 0;
        while j < q_children.len()
            invariant
                j <= q_children.len(),
                forall|jj: int|
                    0 <= jj < j ==> !spec_tree_implies(p_child@, #[trigger] qcs[jj]),
            decreases q_children.len() - j,
        {
            if Dom::p_implies_q_tree(p_child, &q_children[j]) {
                proof {
                    assert(spec_tree_implies(p_child@, qcs[j as int]));
                }
                return true;
            }
            j = j + 1;
        }
        proof {
            assert(!has_matching_child(p_child@, qcs));
        }
        false
    }
}

/// The display text of the tree under `d`, one line per node, each line
/// opened by `ind` and children indented two spaces further: tags with their
/// attributes, text and comment leaves with newlines escaped. A node without
/// the payload of its variant shows nothing.
pub closed spec fn spec_dump(d: Dom, ind: Seq<char>) -> Seq<char>
    decreases d,
{
    match d.tag {
        Some(t) => ind + crate::dom::tag::spec_tag_dump(t) + seq!['\n'] + (match d.children {
            Some(v) => spec_dump_seq(v@, ind + seq![' ', ' ']),
            None => Seq::empty(),
        }),
        None => match d.text {
            Some(t) => ind + "TEXT: \""@ + crate::strutil::spec_escape_nl(t@) + seq!['"', '\n'],
            None => match d.comment {
                Some(c) => ind + "<!--\""@ + crate::strutil::spec_escape_nl(c@) + "\"-->"@
                    + seq!['\n'],
                None => Seq::empty(),
            },
        },
    }
}

/// The display texts of a sequence of sibling trees, one after the other.
spec fn spec_dump_seq(s: Seq<Dom>, ind: Seq<char>) -> Seq<char>
    decreases s,
{
    if s.len() == 0 {
        Seq::empty()
    } else {
        spec_dump_seq(s.subrange(0, s.len() - 1), ind) + spec_dump(s.last(), ind)
    }
}

/// Appends the display text of the tree under `dom` to `out`, each line
/// opened by `indent`.
#[verifier::loop_isolation(false)]
pub(crate) fn dump_tree_text(out: &mut String, dom: &Dom, indent: &str)
    ensures
        final(out)@ == old(out)@ + spec_dump(*dom, indent@),
    decreases dom@,
{
    proof {
        reveal_strlit("TEXT: \"");
        reveal_strlit("\"\n");
        reveal_strlit("<!--\"");
        reveal_strlit("\"-->");
        reveal_strlit("\n");
        reveal_strlit("  ");
    }
    if let Some(tag) = &dom.tag {
        out.append(indent);
        tag.dump_into(out);
        out.append("\n");
        proof {
            assert(out@ =~= old(out)@ + (indent@ + crate::dom::tag::spec_tag_dump(*tag)
                + seq!['\n']));
        }
        if let Some(children) = &dom.children {
            let mut deeper = indent.to_owned();
            deeper.append("  ");
            proof {
                assert(deeper@ =~= indent@ + seq![' ', ' ']);
                lemma_doms_view_rec(children@);
            }
            let ghost pre = out@;
            let ghost cs = children@;
            let mut i: usize = 0;
            while i < children.len()
                invariant
                    i <= children.len(),
                    out@ =~= pre + spec_dump_seq(cs.take(i as int), deeper@),
                decreases children.len() - i,
            {
                proof {
                    assert(dom@.children->Some_0[i as int] == children@[i as int]@);
                    assert(decreases_to!(dom@ => dom@.children->Some_0[i as int]));
                }
                dump_tree_text(out, &children[i], deeper.as_str());
                proof {
                    assert(cs.take(i + 1).subrange(0, i as int) =~= cs.take(i as int));
                    assert(cs.take(i + 1).last() == cs[i as int]);
                    assert(out@ =~= pre + spec_dump_seq(cs.take(i + 1), deeper@));
                }
                i = i + 1;
            }
            proof {
                assert(cs.take(cs.len() as int) =~= cs);
            }
        }
    } else if let Some(text) = &dom.text {
        out.append(indent);
        out.append("TEXT: \"");
        crate::strutil::append_escaped(out, text.get_text());
        out.append("\"\n");
        proof {
            assert(out@ =~= old(out)@ + spec_dump(*dom, indent@));
        }
    } else if let Some(comment) = &dom.comment {
        out.append(indent);
        out.append("<!--\"");
        crate::strutil::append_escaped(out, comment.get_comment());
        out.append("\"-->");
        out.append("\n");
        proof {
            assert(out@ =~= old(out)@ + spec_dump(*dom, indent@));
        }
    }
}

/// Every well-formed tree satisfies its own pattern: the sufficient-condition
/// relation over whole trees is reflexive.
pub proof fn lemma_tree_implies_reflexive(d: DomV)
    requires
        dom_wf(d),
    ensures
        spec_tree_implies(d, d),
    decreases d,
{
    if d.dom_type is Tag {
        crate::dom::tag::lemma_sufficient_condition_reflexive(d.tag->Some_0);
    }
    if d.dom_type is Text {
        lemma_substring_reflexive(d.text->Some_0);
    }
    if d.dom_type is Comment {
        lemma_substring_reflexive(d.comment->Some_0);
    }
    match d.children {
        None => {
        },
        Some(cs) => {
            assert forall|i: int| 0 <= i < cs.len() implies has_matching_child(
                #[trigger] cs[i],
                cs,
            ) by {
                assert(child_seq(d)[i] == cs[i]);
                lemma_tree_implies_reflexive(cs[i]);
                assert(spec_tree_implies(cs[i], cs[i]));
            }
        },
    }
}

/// Every character sequence contains itself.
proof fn lemma_substring_reflexive(s: Seq<char>)
    ensures
        is_substring(s, s),
{
    assert(s.subrange(0, 0 + s.len() as int) =~= s);
}

/// An extra attribute that the pattern does not mention, set on a matched
/// node's tag, never breaks a whole-tree match.
pub proof fn lemma_tree_implies_attr_monotone(p: DomV, q: DomV, k: Seq<char>, v: Seq<char>)
    requires
        spec_tree_implies(p, q),
        q.tag is Some,
        p.tag is Some ==> !crate::dom::tag::tag_attrs_map(p.tag->Some_0).dom().contains(k),
    ensures
        spec_tree_implies(
            p,
            DomV {
                tag: Some(
                    TagV {
                        attrs: Some(
                            crate::dom::tag::tag_attrs_map(q.tag->Some_0).insert(k, v),
                        ),
                        ..q.tag->Some_0
                    },
                ),
                ..q
            },
        ),
{
    if q.dom_type is Tag {
        crate::dom::tag::lemma_extra_attr_monotone(p.tag->Some_0, q.tag->Some_0, k, v);
    }
}

/// An extra child appended to a matched node never breaks a whole-tree
/// match: every child of the pattern keeps its counterpart.
pub proof fn lemma_tree_implies_child_monotone(p: DomV, q: DomV, c: DomV)
    requires
        spec_tree_implies(p, q),
    ensures
        spec_tree_implies(p, DomV { children: Some(child_seq(q).push(c)), ..q }),
{
    let q2 = DomV { children: Some(child_seq(q).push(c)), ..q };
    match p.children {
        None => {
        },
        Some(pcs) => {
            let qcs = q.children->Some_0;
            assert forall|i: int| 0 <= i < pcs.len() implies has_matching_child(
                #[trigger] pcs[i],
                q2.children->Some_0,
            ) by {
                assert(has_matching_child(pcs[i], qcs));
                let j = choose|j: int|
                    0 <= j < qcs.len() && spec_tree_implies(pcs[i], #[trigger] qcs[j]);
                assert(q2.children->Some_0[j] == qcs[j]);
                assert(spec_tree_implies(pcs[i], q2.children->Some_0[j]));
            }
        },
    }
}

} // verus!
