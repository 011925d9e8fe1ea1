//! The query engine: flat extraction queries and the structural subtree
//! search, all built on the sufficient-condition relation.

use vstd::prelude::*;

use crate::dom::tag::{satisfy_sufficient_condition, spec_tag_implies, tag_attrs_map, Tag, TagV};
use crate::dom::{child_seq, doms_view, spec_tree_implies, Dom, DomType, DomV};
use crate::parser::spec_with_children;
use crate::strutil::str_eq;

verus! {

/// The views of a sequence of tags, kept in order.
pub open spec fn tags_view(s: Seq<Tag>) -> Seq<TagV> {
    Seq::new(s.len(), |i: int| s[i]@)
}

/// The views of a sequence of strings, kept in order.
pub open spec fn strs_view(s: Seq<String>) -> Seq<Seq<char>> {
    Seq::new(s.len(), |i: int| s[i]@)
}

/// Every tag of the tree under `d`, in pre-order, that the pattern `needle`
/// is a sufficient condition for. A node without a tag payload is skipped
/// together with its descendants.
pub open spec fn spec_collect_tags(d: DomV, needle: TagV) -> Seq<TagV>
    decreases d, 0int,
{
    match d.tag {
        None => Seq::empty(),
        Some(t) => {
            let here: Seq<TagV> = if spec_tag_implies(needle, t) {
                seq![t]
            } else {
                Seq::empty()
            };
            match d.children {
                None => here,
                Some(cs) => here + spec_collect_tags_seq(cs, needle),
            }
        },
    }
}

/// The tags collected over a sequence of sibling trees, left to right.
pub open spec fn spec_collect_tags_seq(s: Seq<DomV>, needle: TagV) -> Seq<TagV>
    decreases s, 1int,
{
    if s.len() == 0 {
        Seq::empty()
    } else {
        spec_collect_tags_seq(s.subrange(0, s.len() - 1), needle) + spec_collect_tags(
            s.last(),
            needle,
        )
    }
}

/// Every tag of the tree under `d`, in pre-order, whose name equals `name`.
pub open spec fn spec_collect_named(d: DomV, name: Seq<char>) -> Seq<TagV>
    decreases d, 0int,
{
    match d.tag {
        None => Seq::empty(),
        Some(t) => {
            let here: Seq<TagV> = if t.name == name {
                seq![t]
            } else {
                Seq::empty()
            };
            match d.children {
                None => here,
                Some(cs) => here + spec_collect_named_seq(cs, name),
            }
        },
    }
}

/// The named tags collected over a sequence of sibling trees, left to right.
pub open spec fn spec_collect_named_seq(s: Seq<DomV>, name: Seq<char>) -> Seq<TagV>
    decreases s, 1int,
{
    if s.len() == 0 {
        Seq::empty()
    } else {
        spec_collect_named_seq(s.subrange(0, s.len() - 1), name) + spec_collect_named(
            s.last(),
            name,
        )
    }
}

/// The text payloads among `s`, in order.
pub open spec fn spec_direct_texts(s: Seq<DomV>) -> Seq<Seq<char>>
    decreases s,
{
    if s.len() == 0 {
        Seq::empty()
    } else {
        spec_direct_texts(s.subrange(0, s.len() - 1)) + (match s.last().text {
            Some(x) => seq![x],
            None => Seq::empty(),
        })
    }
}

/// The text of every direct Text child of every tag of the tree under `d`
/// that the pattern `needle` is a sufficient condition for, in document
/// order.
pub open spec fn spec_collect_texts(d: DomV, needle: TagV) -> Seq<Seq<char>>
    decreases d, 0int,
{
    match d.tag {
        None => Seq::empty(),
        Some(t) => {
            let here: Seq<Seq<char>> = if spec_tag_implies(needle, t) {
                spec_direct_texts(child_seq(d))
            } else {
                Seq::empty()
            };
            match d.children {
                None => here,
                Some(cs) => here + spec_collect_texts_seq(cs, needle),
            }
        },
    }
}

/// The texts collected over a sequence of sibling trees, left to right.
pub open spec fn spec_collect_texts_seq(s: Seq<DomV>, needle: TagV) -> Seq<Seq<char>>
    decreases s, 1int,
{
    if s.len() == 0 {
        Seq::empty()
    } else {
        spec_collect_texts_seq(s.subrange(0, s.len() - 1), needle) + spec_collect_texts(
            s.last(),
            needle,
        )
    }
}

/// The value of the attribute `attr` on every tag of the tree under `d` that
/// carries it, in pre-order: a parent's value comes before its children's,
/// and a child's before its following siblings'.
pub open spec fn spec_collect_attr(d: DomV, attr: Seq<char>) -> Seq<Seq<char>>
    decreases d, 0int,
{
    let here: Seq<Seq<char>> = match d.tag {
        Some(t) => if tag_attrs_map(t).dom().contains(attr) {
            seq![tag_attrs_map(t)[attr]]
        } else {
            Seq::empty()
        },
        None => Seq::empty(),
    };
    match d.children {
        None => here,
        Some(cs) => here + spec_collect_attr_seq(cs, attr),
    }
}

/// The attribute values collected over a sequence of sibling trees, left to
/// right.
pub open spec fn spec_collect_attr_seq(s: Seq<DomV>, attr: Seq<char>) -> Seq<Seq<char>>
    decreases s, 1int,
{
    if s.len() == 0 {
        Seq::empty()
    } else {
        spec_collect_attr_seq(s.subrange(0, s.len() - 1), attr) + spec_collect_attr(
            s.last(),
            attr,
        )
    }
}

/// The maximal matches of the pattern tree `needle` inside the tree under
/// `d`, in document order: a node that the pattern implies as a whole tree is
/// taken in full, and nothing below it is searched again; below any other
/// node the search goes on.
pub open spec fn spec_search_dom(d: DomV, needle: DomV) -> Seq<DomV>
    decreases d, 0int,
{
    if spec_tree_implies(needle, d) {
        seq![d]
    } else {
        match d.children {
            None => Seq::empty(),
            Some(cs) => spec_search_dom_seq(cs, needle),
        }
    }
}

/// The matches collected over a sequence of sibling trees, left to right.
pub open spec fn spec_search_dom_seq(s: Seq<DomV>, needle: DomV) -> Seq<DomV>
    decreases s, 1int,
{
    if s.len() == 0 {
        Seq::empty()
    } else {
        spec_search_dom_seq(s.subrange(0, s.len() - 1), needle) + spec_search_dom(
            s.last(),
            needle,
        )
    }
}

/// Returns a copy of every tag of the tree for which the `needle` pattern is
/// a sufficient condition, in pre-order; `None` when nothing matches.
pub fn search_tag(dom: &Dom, needle: &Tag) -> (r: Option<Vec<Tag>>)
    ensures
        r is Some <==> spec_collect_tags(dom@, needle@).len() > 0,
        r is Some ==> tags_view(r->Some_0@) == spec_collect_tags(dom@, needle@),
{
    let mut res: Vec<Tag> = Vec::new();
    proof {
        assert(tags_view(res@) =~= Seq::<TagV>::empty());
    }
    search_tag_exe(&mut res, dom, needle);
    proof {
        assert(Seq::<TagV>::empty() + spec_collect_tags(dom@, needle@) =~= spec_collect_tags(
            dom@,
            needle@,
        ));
    }
    if res.is_empty() {
        return None;
    }
    Some(res)
}

#[verifier::loop_isolation(false)]
fn search_tag_exe(res: &mut Vec<Tag>, dom: &Dom, needle: &Tag)
    ensures
        tags_view(final(res)@) =~= tags_view(old(res)@) + spec_collect_tags(dom@, needle@),
    decreases dom@,
{
    let tag = match dom.get_tag() {
        Some(t) => t,
        None => {
            return ;
        },
    };
    if satisfy_sufficient_condition(needle, tag) {
        res.push(tag.clone());
        proof {
            assert(tags_view(res@) =~= tags_view(old(res)@).push(dom@.tag->Some_0));
        }
    }
    let ghost mid = tags_view(res@);
    let ghost here: Seq<TagV> = if spec_tag_implies(needle@, dom@.tag->Some_0) {
        seq![dom@.tag->Some_0]
    } else {
        Seq::empty()
    };
    proof {
        assert(mid =~= tags_view(old(res)@) + here);
    }
    let children = match dom.get_children() {
        Some(c) => c,
        None => {
            return ;
        },
    };
    let ghost cs = dom@.children->Some_0;
    let mut i: usize = 0;
    while i < children.len()
        invariant
            i <= children.len(),
            tags_view(res@) =~= mid + spec_collect_tags_seq(cs.take(i as int), needle@),
        decreases children.len() - i,
    {
        proof {
            assert(cs[i as int] == children@[i as int]@);
            assert(decreases_to!(dom@ => dom@.children->Some_0[i as int]));
        }
        search_tag_exe(res, &children[i], needle);
        proof {
            assert(cs.take(i + 1).subrange(0, i as int) =~= cs.take(i as int));
            assert(cs.take(i + 1).last() == cs[i as int]);
            assert(tags_view(res@) =~= mid + spec_collect_tags_seq(cs.take(i + 1), needle@));
        }
        i = i + 1;
    }
    proof {
        assert(cs.take(children@.len() as int) =~= cs);
        assert(tags_view(res@) =~= tags_view(old(res)@) + (here + spec_collect_tags_seq(
            cs,
            needle@,
        )));
    }
}

/// Returns a copy of every tag of the tree whose name equals `name` exactly,
/// in pre-order; `None` when nothing matches.
pub fn search_tag_from_name(dom: &Dom, name: &str) -> (r: Option<Vec<Tag>>)
    ensures
        r is Some <==> spec_collect_named(dom@, name@).len() > 0,
        r is Some ==> tags_view(r->Some_0@) == spec_collect_named(dom@, name@),
{
    let mut res: Vec<Tag> = Vec::new();
    proof {
        assert(tags_view(res@) =~= Seq::<TagV>::empty());
    }
    search_tag_from_name_exe(&mut res, dom, name);
    proof {
        assert(Seq::<TagV>::empty() + spec_collect_named(dom@, name@) =~= spec_collect_named(
            dom@,
            name@,
        ));
    }
    if res.is_empty() {
        return None;
    }
    Some(res)
}

#[verifier::loop_isolation(false)]
fn search_tag_from_name_exe(res: &mut Vec<Tag>, dom: &Dom, name: &str)
    ensures
        tags_view(final(res)@) =~= tags_view(old(res)@) + spec_collect_named(dom@, name@),
    decreases dom@,
{
    let tag = match dom.get_tag() {
        Some(t) => t,
        None => {
            return ;
        },
    };
    if str_eq(name, tag.get_name()) {
        res.push(tag.clone());
        proof {
            assert(tags_view(res@) =~= tags_view(old(res)@).push(dom@.tag->Some_0));
        }
    }
    let ghost mid = tags_view(res@);
    let ghost here: Seq<TagV> = if dom@.tag->Some_0.name == name@ {
        seq![dom@.tag->Some_0]
    } else {
        Seq::empty()
    };
    proof {
        assert(mid =~= tags_view(old(res)@) + here);
    }
    let children = match dom.get_children() {
        Some(c) => c,
        None => {
            return ;
        },
    };
    let ghost cs = dom@.children->Some_0;
    let mut i: usize = 0;
    while i < children.len()
        invariant
            i <= children.len(),
            tags_view(res@) =~= mid + spec_collect_named_seq(cs.take(i as int), name@),
        decreases children.len() - i,
    {
        proof {
            assert(cs[i as int] == children@[i as int]@);
            assert(decreases_to!(dom@ => dom@.children->Some_0[i as int]));
        }
        search_tag_from_name_exe(res, &children[i], name);
        proof {
            assert(cs.take(i + 1).subrange(0, i as int) =~= cs.take(i as int));
            assert(cs.take(i + 1).last() == cs[i as int]);
            assert(tags_view(res@) =~= mid + spec_collect_named_seq(cs.take(i + 1), name@));
        }
        i = i + 1;
    }
    proof {
        assert(cs.take(children@.len() as int) =~= cs);
        assert(tags_view(res@) =~= tags_view(old(res)@) + (here + spec_collect_named_seq(
            cs,
            name@,
        )));
    }
}

/// Returns the text of every direct Text child of every tag that the
/// `needle` pattern is a sufficient condition for, in document order; `None`
/// when nothing is collected.
pub fn search_text_from_tag_children(dom: &Dom, needle: &Tag) -> (r: Option<Vec<String>>)
    ensures
        r is Some <==> spec_collect_texts(dom@, needle@).len() > 0,
        r is Some ==> strs_view(r->Some_0@) == spec_collect_texts(dom@, needle@),
{
    let mut res: Vec<String> = Vec::new();
    proof {
        assert(strs_view(res@) =~= Seq::<Seq<char>>::empty());
    }
    search_text_from_tag_children_exe(&mut res, dom, needle);
    proof {
        assert(Seq::<Seq<char>>::empty() + spec_collect_texts(dom@, needle@)
            =~= spec_collect_texts(dom@, needle@));
    }
    if res.is_empty() {
        return None;
    }
    Some(res)
}

#[verifier::loop_isolation(false)]
fn search_text_from_tag_children_exe(res: &mut Vec<String>, dom: &Dom, needle: &Tag)
    ensures
        strs_view(final(res)@) =~= strs_view(old(res)@) + spec_collect_texts(dom@, needle@),
    decreases dom@,
{
    let tag = match dom.get_tag() {
        Some(t) => t,
        None => {
            return ;
        },
    };
    let ghost cs = child_seq(dom@);
    if satisfy_sufficient_condition(needle, tag) {
        if let Some(children) = dom.get_children() {
            let mut i: usize = 0;
            while i < children.len()
                invariant
                    i <= children.len(),
                    strs_view(res@) =~= strs_view(old(res)@) + spec_direct_texts(
                        cs.take(i as int),
                    ),
                decreases children.len() - i,
            {
                proof {
                    assert(cs[i as int] == children@[i as int]@);
                    assert(cs.take(i + 1).subrange(0, i as int) =~= cs.take(i as int));
                    assert(cs.take(i + 1).last() == cs[i as int]);
                }
                if let Some(text) = children[i].get_text() {
                    let ghost before = strs_view(res@);
                    res.push(text.get_text().to_owned());
                    proof {
                        assert(strs_view(res@) =~= before.push(cs[i as int].text->Some_0));
                    }
                }
                proof {
                    assert(strs_view(res@) =~= strs_view(old(res)@) + spec_direct_texts(
                        cs.take(i + 1),
                    ));
                }
                i = i + 1;
            }
            proof {
                assert(cs.take(children@.len() as int) =~= cs);
            }
        }
    }
    let ghost mid = strs_view(res@);
    let ghost here: Seq<Seq<char>> = if spec_tag_implies(needle@, dom@.tag->Some_0) {
        spec_direct_texts(cs)
    } else {
        Seq::empty()
    };
    proof {
        assert(mid =~= strs_view(old(res)@) + here);
    }
    let children = match dom.get_children() {
        Some(c) => c,
        None => {
            return ;
        },
    };
    let mut i: usize = 0;
    while i < children.len()
        invariant
            i <= children.len(),
            strs_view(res@) =~= mid + spec_collect_texts_seq(cs.take(i as int), needle@),
        decreases children.len() - i,
    {
        proof {
            assert(cs[i as int] == children@[i as int]@);
            assert(decreases_to!(dom@ => dom@.children->Some_0[i as int]));
        }
        search_text_from_tag_children_exe(res, &children[i], needle);
        proof {
            assert(cs.take(i + 1).subrange(0, i as int) =~= cs.take(i as int));
            assert(cs.take(i + 1).last() == cs[i as int]);
            assert(strs_view(res@) =~= mid + spec_collect_texts_seq(cs.take(i + 1), needle@));
        }
        i = i + 1;
    }
    proof {
        assert(cs.take(children@.len() as int) =~= cs);
        assert(strs_view(res@) =~= strs_view(old(res)@) + (here + spec_collect_texts_seq(
            cs,
            needle@,
        )));
    }
}

/// Returns the value of the attribute `attr` on every tag of the tree that
/// carries it, in pre-order; `None` when no tag carries it.
pub fn search_attr(dom: &Dom, attr: &str) -> (r: Option<Vec<String>>)
    ensures
        r is Some <==> spec_collect_attr(dom@, attr@).len() > 0,
        r is Some ==> strs_view(r->Some_0@) == spec_collect_attr(dom@, attr@),
{
    let mut res: Vec<String> = Vec::new();
    proof {
        assert(strs_view(res@) =~= Seq::<Seq<char>>::empty());
    }
    search_attr_exe(&mut res, dom, attr);
    proof {
        assert(Seq::<Seq<char>>::empty() + spec_collect_attr(dom@, attr@) =~= spec_collect_attr(
            dom@,
            attr@,
        ));
    }
    if res.is_empty() {
        return None;
    }
    Some(res)
}

#[verifier::loop_isolation(false)]
fn search_attr_exe(res: &mut Vec<String>, dom: &Dom, attr: &str)
    ensures
        strs_view(final(res)@) =~= strs_view(old(res)@) + spec_collect_attr(dom@, attr@),
    decreases dom@,
{
    if let Some(tag) = dom.get_tag() {
        if let Some(value) = tag.get_attr(attr) {
            res.push(value);
        }
    }
    let ghost mid = strs_view(res@);
    let ghost here: Seq<Seq<char>> = match dom@.tag {
        Some(t) => if tag_attrs_map(t).dom().contains(attr@) {
            seq![tag_attrs_map(t)[attr@]]
        } else {
            Seq::empty()
        },
        None => Seq::empty(),
    };
    proof {
        assert(mid =~= strs_view(old(res)@) + here);
    }
    let children = match dom.get_children() {
        Some(c) => c,
        None => {
            return ;
        },
    };
    let ghost cs = dom@.children->Some_0;
    let mut i: usize = 0;
    while i < children.len()
        invariant
            i <= children.len(),
            strs_view(res@) =~= mid + spec_collect_attr_seq(cs.take(i as int), attr@),
        decreases children.len() - i,
    {
        proof {
            assert(cs[i as int] == children@[i as int]@);
            assert(decreases_to!(dom@ => dom@.children->Some_0[i as int]));
        }
        search_attr_exe(res, &children[i], attr);
        proof {
            assert(cs.take(i + 1).subrange(0, i as int) =~= cs.take(i as int));
            assert(cs.take(i + 1).last() == cs[i as int]);
            assert(strs_view(res@) =~= mid + spec_collect_attr_seq(cs.take(i + 1), attr@));
        }
        i = i + 1;
    }
    proof {
        assert(cs.take(children@.len() as int) =~= cs);
        assert(strs_view(res@) =~= strs_view(old(res)@) + (here + spec_collect_attr_seq(
            cs,
            attr@,
        )));
    }
}

/// Returns the maximal matches of the pattern tree `needle` inside the tree,
/// in document order, each cloned in full and gathered as the children of a
/// synthetic result root; `None` when nothing matches.
pub fn search_dom(dom: &Dom, needle: &Dom) -> (r: Option<Dom>)
    ensures
        r is Some <==> spec_search_dom(dom@, needle@).len() > 0,
        r is Some ==> r->Some_0@ == (DomV {
            dom_type: DomType::Tag,
            tag: Some(TagV { name: "root"@, attrs: None, terminated: false, terminator: false }),
            text: None,
            comment: None,
            children: Some(spec_search_dom(dom@, needle@)),
        }),
{
    let mut res = Dom::new_root();
    search_dom_exe(&mut res, dom, needle);
    let found = match res.get_children() {
        Some(_) => true,
        None => false,
    };
    if found {
        Some(res)
    } else {
        None
    }
}

/// Queries are idempotent: any two results that `search_tag` may return for
/// the same tree and pattern are deep-equal — one is `Some` exactly when the
/// other is, and they hold the same tags in the same order. The same holds of
/// every other query, since each one's contract equates its result with a
/// function of the tree and pattern views alone.
pub proof fn lemma_search_tag_deterministic(
    d: DomV,
    needle: TagV,
    r1: Option<Seq<TagV>>,
    r2: Option<Seq<TagV>>,
)
    requires
        r1 is Some <==> spec_collect_tags(d, needle).len() > 0,
        r1 is Some ==> r1->Some_0 == spec_collect_tags(d, needle),
        r2 is Some <==> spec_collect_tags(d, needle).len() > 0,
        r2 is Some ==> r2->Some_0 == spec_collect_tags(d, needle),
    ensures
        r1 == r2,
{
    if r1 is Some {
        assert(r1->Some_0 == r2->Some_0);
    }
}

impl Dom {
    /// Parses `needle` as a pattern document, strips its synthetic root, and
    /// returns the maximal structural matches of its first top-level node
    /// against this tree, in document order. Returns `None` when the pattern
    /// does not parse, holds no node, or matches nothing.
    #[verifier::loop_isolation(false)]
    pub fn search(&self, needle: &str) -> (r: Option<Vec<Dom>>)
        ensures
            ({
                match crate::parser::spec_parse(needle@) {
                    Err(_) => r is None,
                    Ok(nroot) => match nroot.children {
                        None => r is None,
                        Some(kids) => (r is Some <==> spec_search_dom(self@, kids[0]).len() > 0)
                            && (r is Some ==> doms_view(r->Some_0@) == spec_search_dom(
                            self@,
                            kids[0],
                        )),
                    },
                }
            }),
    {
        let needle_dom = match crate::parser::parse(needle) {
            Ok(d) => d,
            Err(_) => {
                return None;
            },
        };
        let children = match needle_dom.get_children() {
            Some(c) => c,
            None => {
                return None;
            },
        };
        // a parsed tree only has a child list when it holds a child
        let first = &children[0];
        let root = match search_dom(self, first) {
            Some(root) => root,
            None => {
                return None;
            },
        };
        let matched = root.get_children().unwrap();
        let mut out: Vec<Dom> = Vec::new();
        let mut i: usize = 0;
        while i < matched.len()
            invariant
                i <= matched.len(),
                doms_view(out@) =~= doms_view(matched@).take(i as int),
            decreases matched.len() - i,
        {
            out.push(matched[i].clone());
            proof {
                assert(doms_view(out@) =~= doms_view(matched@).take(i + 1));
            }
            i = i + 1;
        }
        proof {
            assert(doms_view(out@) =~= doms_view(matched@));
        }
        Some(out)
    }
}

#[verifier::loop_isolation(false)]
fn search_dom_exe(res: &mut Dom, dom: &Dom, needle: &Dom)
    ensures
        final(res)@ == spec_with_children(old(res)@, spec_search_dom(dom@, needle@)),
    decreases dom@,
{
    if Dom::p_implies_q(needle, dom) {
        if Dom::p_implies_q_tree(needle, dom) {
            res.add_child(dom.clone());
            proof {
                assert(child_seq(old(res)@).push(dom@) =~= child_seq(old(res)@) + seq![dom@]);
            }
            return ;
        }
    }
    let children = match dom.get_children() {
        Some(c) => c,
        None => {
            return ;
        },
    };
    let ghost cs = dom@.children->Some_0;
    let mut i: usize = 0;
    while i < children.len()
        invariant
            i <= children.len(),
            res@ == spec_with_children(old(res)@, spec_search_dom_seq(cs.take(i as int), needle@)),
        decreases children.len() - i,
    {
        proof {
            assert(cs[i as int] == children@[i as int]@);
            assert(decreases_to!(dom@ => dom@.children->Some_0[i as int]));
        }
        let ghost sofar = spec_search_dom_seq(cs.take(i as int), needle@);
        search_dom_exe(res, &children[i], needle);
        proof {
            assert(cs.take(i + 1).subrange(0, i as int) =~= cs.take(i as int));
            assert(cs.take(i + 1).last() == cs[i as int]);
            let found = spec_search_dom(cs[i as int], needle@);
            if found.len() > 0 {
                assert(child_seq(spec_with_children(old(res)@, sofar)) + found =~= child_seq(
                    old(res)@,
                ) + (sofar + found));
            } else {
                assert(sofar + found =~= sofar);
            }
            assert(res@ == spec_with_children(
                old(res)@,
                spec_search_dom_seq(cs.take(i + 1), needle@),
            ));
        }
        i = i + 1;
    }
    proof {
        assert(cs.take(children@.len() as int) =~= cs);
    }
}

} // verus!
