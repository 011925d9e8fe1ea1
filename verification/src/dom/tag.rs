//! The Tag node and the "sufficient condition" relation between two tags.
//!
//! grammar: `<[/]name [attr[="value"]] [/]>`

use vstd::prelude::*;

verus! {

use vstd::pervasive::VecAdditionalExecFns;

/// The attribute mapping of a tag: string keys to string values, keys unique,
/// insertion order kept only for display purposes. Matching treats it as an
/// unordered map.
#[derive(Debug, PartialEq)]
pub struct AttrMap {
    pairs: Vec<(String, String)>,
}

/// The mathematical content of an attribute list: the map built by inserting
/// each pair in order.
pub closed spec fn pairs_to_map(s: Seq<(String, String)>) -> Map<Seq<char>, Seq<char>>
    decreases s.len(),
{
    if s.len() == 0 {
        Map::empty()
    } else {
        pairs_to_map(s.drop_last()).insert(s.last().0@, s.last().1@)
    }
}

/// The key of the pair at position `i`.
pub open spec fn key_at(s: Seq<(String, String)>, i: int) -> Seq<char> {
    s[i].0@
}

/// Some pair of `s` holds the key `k`.
pub open spec fn has_key(s: Seq<(String, String)>, k: Seq<char>) -> bool {
    exists|i: int| 0 <= i < s.len() && #[trigger] key_at(s, i) == k
}

/// No two pairs share a key.
pub open spec fn unique_keys(s: Seq<(String, String)>) -> bool {
    forall|i: int, j: int|
        0 <= i < j < s.len() ==> #[trigger] key_at(s, i) != #[trigger] key_at(s, j)
}

proof fn lemma_ptm_dom(s: Seq<(String, String)>)
    ensures
        forall|k: Seq<char>| #[trigger] pairs_to_map(s).dom().contains(k) <==> has_key(s, k),
    decreases s.len(),
{
    if s.len() > 0 {
        let t = s.drop_last();
        lemma_ptm_dom(t);
        assert forall|k: Seq<char>| #[trigger]
            pairs_to_map(s).dom().contains(k) implies has_key(s, k) by {
            if k == s.last().0@ {
                assert(key_at(s, s.len() - 1) == k);
            } else {
                assert(pairs_to_map(t).dom().contains(k));
                let i = choose|i: int| 0 <= i < t.len() && #[trigger] key_at(t, i) == k;
                assert(key_at(s, i) == k);
            }
        }
        assert forall|k: Seq<char>| has_key(s, k) implies #[trigger] pairs_to_map(
            s,
        ).dom().contains(k) by {
            let i = choose|i: int| 0 <= i < s.len() && #[trigger] key_at(s, i) == k;
            if i < s.len() - 1 {
                assert(key_at(t, i) == k);
                assert(has_key(t, k));
            }
        }
    }
}

proof fn lemma_unique_drop_last(s: Seq<(String, String)>)
    requires
        unique_keys(s),
        s.len() > 0,
    ensures
        unique_keys(s.drop_last()),
{
    let t = s.drop_last();
    assert forall|i: int, j: int| 0 <= i < j < t.len() implies #[trigger] key_at(t, i)
        != #[trigger] key_at(t, j) by {
        assert(key_at(s, i) != key_at(s, j));
    }
}

proof fn lemma_ptm_index(s: Seq<(String, String)>, i: int)
    requires
        unique_keys(s),
        0 <= i < s.len(),
    ensures
        pairs_to_map(s).dom().contains(s[i].0@),
        pairs_to_map(s)[s[i].0@] == s[i].1@,
    decreases s.len(),
{
    lemma_ptm_dom(s);
    assert(key_at(s, i) == s[i].0@);
    if i < s.len() - 1 {
        lemma_unique_drop_last(s);
        lemma_ptm_index(s.drop_last(), i);
        assert(s.drop_last()[i] == s[i]);
        assert(key_at(s, i) != key_at(s, s.len() - 1));
    }
}

/// Updating the value of the pair that already holds a key is, at the map
/// level, an insert of that key.
proof fn lemma_ptm_update(s: Seq<(String, String)>, i: int, p: (String, String))
    requires
        unique_keys(s),
        0 <= i < s.len(),
        s[i].0@ == p.0@,
    ensures
        pairs_to_map(s.update(i, p)) =~= pairs_to_map(s).insert(p.0@, p.1@),
        unique_keys(s.update(i, p)),
    decreases s.len(),
{
    let u = s.update(i, p);
    assert forall|j: int, l: int| 0 <= j < l < u.len() implies #[trigger] key_at(u, j)
        != #[trigger] key_at(u, l) by {
        assert(key_at(s, j) != key_at(s, l));
        assert(key_at(u, j) == if j == i {
            p.0@
        } else {
            key_at(s, j)
        });
        assert(key_at(u, l) == if l == i {
            p.0@
        } else {
            key_at(s, l)
        });
        assert(key_at(s, i) == p.0@);
    }
    if i == s.len() - 1 {
        assert(u.drop_last() =~= s.drop_last());
        assert(u.last() == p);
    } else {
        lemma_unique_drop_last(s);
        assert(u.drop_last() =~= s.drop_last().update(i, p));
        lemma_ptm_update(s.drop_last(), i, p);
        assert(u.last() == s.last());
        // the final inserts commute because the keys differ
        assert(key_at(s, i) != key_at(s, s.len() - 1));
        assert(s.drop_last()[i] == s[i]);
        assert(pairs_to_map(u) =~= pairs_to_map(s.drop_last()).insert(p.0@, p.1@).insert(
            s.last().0@,
            s.last().1@,
        ));
    }
}

/// Removing the pair that holds a key is, at the map level, a remove of that
/// key.
proof fn lemma_ptm_remove(s: Seq<(String, String)>, i: int)
    requires
        unique_keys(s),
        0 <= i < s.len(),
    ensures
        pairs_to_map(s.remove(i)) =~= pairs_to_map(s).remove(s[i].0@),
        unique_keys(s.remove(i)),
    decreases s.len(),
{
    let u = s.remove(i);
    lemma_ptm_dom(s);
    assert forall|j: int, l: int| 0 <= j < l < u.len() implies #[trigger] key_at(u, j)
        != #[trigger] key_at(u, l) by {
        if l < i {
            assert(key_at(s, j) != key_at(s, l));
        } else if j < i {
            assert(key_at(s, j) != key_at(s, l + 1));
        } else {
            assert(key_at(s, j + 1) != key_at(s, l + 1));
        }
    }
    if i == s.len() - 1 {
        assert(u =~= s.drop_last());
        lemma_ptm_dom(s.drop_last());
        assert forall|j: int| 0 <= j < s.drop_last().len() implies #[trigger] key_at(
            s.drop_last(),
            j,
        ) != s[i].0@ by {
            assert(key_at(s, j) != key_at(s, i));
        }
        assert(!has_key(s.drop_last(), s[i].0@));
        assert(!pairs_to_map(s.drop_last()).dom().contains(s[i].0@));
    } else {
        lemma_unique_drop_last(s);
        assert(s.drop_last()[i] == s[i]);
        lemma_ptm_remove(s.drop_last(), i);
        assert(u.drop_last() =~= s.drop_last().remove(i));
        assert(u.last() == s.last());
        assert(key_at(s, i) != key_at(s, s.len() - 1));
    }
}

impl View for AttrMap {
    type V = Map<Seq<char>, Seq<char>>;

    closed spec fn view(&self) -> Map<Seq<char>, Seq<char>> {
        pairs_to_map(self.pairs@)
    }
}

impl Clone for AttrMap {
    fn clone(&self) -> (r: Self)
        ensures
            r@ == self@,
    {
        proof {
            use_type_invariant(self);
        }
        let mut pairs: Vec<(String, String)> = Vec::new();
        let mut i: usize = 0;
        while i < self.pairs.len()
            invariant
                i <= self.pairs.len(),
                pairs@ =~= self.pairs@.take(i as int),
            decreases self.pairs.len() - i,
        {
            let p = &self.pairs[i];
            pairs.push((p.0.clone(), p.1.clone()));
            i = i + 1;
        }
        proof {
            assert(pairs@ =~= self.pairs@);
        }
        AttrMap { pairs }
    }
}

impl AttrMap {
    #[verifier::type_invariant]
    spec fn wf(self) -> bool {
        unique_keys(self.pairs@)
    }

    /// The pairs of the mapping in insertion order; only display-oriented
    /// callers depend on the order.
    pub closed spec fn spec_pairs(self) -> Seq<(String, String)> {
        self.pairs@
    }

    /// Create an empty attribute mapping.
    pub fn new() -> (r: AttrMap)
        ensures
            r@ == Map::<Seq<char>, Seq<char>>::empty(),
            r.spec_pairs().len() == 0,
    {
        AttrMap { pairs: Vec::new() }
    }

    /// The number of attributes held.
    pub fn len(&self) -> (r: usize)
        ensures
            r == self.spec_pairs().len(),
            r == 0 ==> self@ == Map::<Seq<char>, Seq<char>>::empty(),
    {
        proof {
            use_type_invariant(self);
        }
        self.pairs.len()
    }

    /// The pair at position `i`, in insertion order; only display-oriented
    /// callers walk the pairs this way.
    pub fn pair(&self, i: usize) -> (r: &(String, String))
        requires
            i < self.spec_pairs().len(),
        ensures
            *r == self.spec_pairs()[i as int],
    {
        &self.pairs[i]
    }

    /// The position of `key` among the pairs, if present.
    fn find_key(&self, key: &String) -> (r: Option<usize>)
        ensures
            match r {
                Some(i) => i < self.spec_pairs().len() && self.spec_pairs()[i as int].0@ == key@,
                None => !self@.dom().contains(key@),
            },
    {
        proof {
            use_type_invariant(self);
            lemma_ptm_dom(self.pairs@);
        }
        let mut i: usize = 0;
        while i < self.pairs.len()
            invariant
                i <= self.pairs.len(),
                forall|j: int| 0 <= j < i ==> #[trigger] key_at(self.pairs@, j) != key@,
            decreases self.pairs.len() - i,
        {
            if self.pairs[i].0 == *key {
                proof {
                    assert(key_at(self.pairs@, i as int) == key@);
                }
                return Some(i);
            }
            i = i + 1;
        }
        proof {
            assert(!has_key(self.pairs@, key@));
        }
        None
    }

    /// Insert `key` with `value`, replacing the value of a key already
    /// present.
    pub fn insert(&mut self, key: String, value: String)
        ensures
            final(self)@ == old(self)@.insert(key@, value@),
    {
        proof {
            use_type_invariant(&*self);
        }
        let ghost kv = key@;
        let ghost vv = value@;
        let found = self.find_key(&key);
        let ghost oldpairs = self.pairs@;
        let mut pairs: Vec<(String, String)> = Vec::new();
        std::mem::swap(&mut pairs, &mut self.pairs);
        match found {
            Some(i) => {
                proof {
                    lemma_ptm_update(oldpairs, i as int, (key, value));
                }
                pairs.set(i, (key, value));
            },
            None => {
                pairs.push((key, value));
                proof {
                    lemma_ptm_dom(oldpairs);
                    assert(pairs@.drop_last() =~= oldpairs);
                    let u = pairs@;
                    assert forall|j: int, l: int| 0 <= j < l < u.len() implies #[trigger] key_at(
                        u,
                        j,
                    ) != #[trigger] key_at(u, l) by {
                        if l < u.len() - 1 {
                            assert(key_at(oldpairs, j) != key_at(oldpairs, l));
                        } else {
                            assert(key_at(oldpairs, j) == key_at(u, j));
                            assert(key_at(u, l) == kv);
                            assert(!has_key(oldpairs, kv));
                        }
                    }
                }
            },
        }
        self.pairs = pairs;
        proof {
            assert(self@ =~= old(self)@.insert(kv, vv));
        }
    }

    /// Look the value of `key` up.
    pub fn get(&self, key: &String) -> (r: Option<&String>)
        ensures
            match r {
                Some(v) => self@.dom().contains(key@) && v@ == self@[key@],
                None => !self@.dom().contains(key@),
            },
    {
        proof {
            use_type_invariant(self);
        }
        match self.find_key(key) {
            Some(i) => {
                proof {
                    lemma_ptm_index(self.pairs@, i as int);
                }
                Some(&self.pairs[i].1)
            },
            None => None,
        }
    }

    /// Remove `key`; returns its value when it was present.
    pub fn remove(&mut self, key: &String) -> (r: Option<String>)
        ensures
            final(self)@ == old(self)@.remove(key@),
            r is Some <==> old(self)@.dom().contains(key@),
    {
        proof {
            use_type_invariant(&*self);
        }
        let found = self.find_key(key);
        let ghost oldpairs = self.pairs@;
        match found {
            Some(i) => {
                proof {
                    lemma_ptm_index(oldpairs, i as int);
                    lemma_ptm_remove(oldpairs, i as int);
                }
                let mut pairs: Vec<(String, String)> = Vec::new();
                std::mem::swap(&mut pairs, &mut self.pairs);
                let p = pairs.remove(i);
                self.pairs = pairs;
                proof {
                    assert(self@ =~= old(self)@.remove(key@));
                }
                Some(p.1)
            },
            None => {
                proof {
                    lemma_ptm_dom(oldpairs);
                    assert(self@ =~= old(self)@.remove(key@));
                }
                None
            },
        }
    }
}

/// The mathematical content of a tag: its name, its attribute mapping if it
/// has one, and the two flags of the surface syntax.
pub ghost struct TagV {
    pub name: Seq<char>,
    pub attrs: Option<Map<Seq<char>, Seq<char>>>,
    pub terminated: bool,
    pub terminator: bool,
}

/// The attribute mapping of a tag, reading an absent mapping as empty.
pub open spec fn tag_attrs_map(t: TagV) -> Map<Seq<char>, Seq<char>> {
    match t.attrs {
        Some(m) => m,
        None => Map::empty(),
    }
}

/// The sufficient-condition relation between a pattern tag `p` and a
/// candidate tag `q`: the names are equal, and every attribute of `p` is
/// present on `q`, with an empty pattern value accepting any candidate value.
/// `q` may hold additional attributes.
pub open spec fn spec_tag_implies(p: TagV, q: TagV) -> bool {
    &&& p.name == q.name
    &&& forall|k: Seq<char>| #[trigger]
        tag_attrs_map(p).dom().contains(k) ==> tag_attrs_map(q).dom().contains(k) && (
        tag_attrs_map(p)[k].len() == 0 || tag_attrs_map(p)[k] == tag_attrs_map(q)[k])
}

/// A node element of the parsed document.
/// grammar: `<[/]name [attr[="value"]] [/]>`
#[derive(Debug, PartialEq)]
pub struct Tag {
    name: String,
    attrs: Option<AttrMap>,
    terminated: bool,
    terminator: bool,
}

impl View for Tag {
    type V = TagV;

    closed spec fn view(&self) -> TagV {
        TagV {
            name: self.name@,
            attrs: match self.attrs {
                Some(m) => Some(m@),
                None => None,
            },
            terminated: self.terminated,
            terminator: self.terminator,
        }
    }
}

impl Clone for Tag {
    fn clone(&self) -> (r: Self)
        ensures
            r@ == self@,
    {
        Tag {
            name: self.name.clone(),
            attrs: match &self.attrs {
                Some(m) => Some(m.clone()),
                None => None,
            },
            terminated: self.terminated,
            terminator: self.terminator,
        }
    }
}

impl Tag {
    /// Create a new tag without attributes.
    ///
    /// # Arguments
    /// * `name` - If `<h1 class="section1">`, then `h1`.
    pub fn new(name: &str) -> (r: Tag)
        ensures
            r@ == (TagV { name: name@, attrs: None, terminated: false, terminator: false }),
    {
        Tag { name: name.to_owned(), attrs: None, terminated: false, terminator: false }
    }

    /// Returns the tag name.
    /// If `<li class="item">`, then `li`.
    pub fn get_name(&self) -> (r: &str)
        ensures
            r@ == self@.name,
    {
        self.name.as_str()
    }

    /// Replace the whole attribute mapping.
    pub fn set_attrs(&mut self, attrs: AttrMap)
        ensures
            final(self)@ == (TagV { attrs: Some(attrs@), ..old(self)@ }),
    {
        self.attrs = Some(attrs);
    }

    /// Returns the attribute mapping, or `None` if the tag never had one.
    pub fn get_attrs(&self) -> (r: Option<&AttrMap>)
        ensures
            match r {
                Some(m) => self@.attrs == Some(m@),
                None => self@.attrs is None,
            },
    {
        self.attrs.as_ref()
    }

    /// Set one attribute, creating the mapping if the tag had none.
    pub fn set_attr(&mut self, attr: &str, value: &str)
        ensures
            final(self)@ == (TagV {
                attrs: Some(tag_attrs_map(old(self)@).insert(attr@, value@)),
                ..old(self)@
            }),
    {
        match &mut self.attrs {
            Some(attrs) => {
                attrs.insert(attr.to_owned(), value.to_owned());
            },
            None => {
                let mut attrs = AttrMap::new();
                attrs.insert(attr.to_owned(), value.to_owned());
                self.attrs = Some(attrs);
                proof {
                    assert(tag_attrs_map(old(self)@) =~= Map::<Seq<char>, Seq<char>>::empty());
                }
            },
        }
    }

    /// Returns the value of the attribute `attr`, or `None` when absent.
    pub fn get_attr(&self, attr: &str) -> (r: Option<String>)
        ensures
            match r {
                Some(v) => tag_attrs_map(self@).dom().contains(attr@) && v@ == tag_attrs_map(
                    self@,
                )[attr@],
                None => !tag_attrs_map(self@).dom().contains(attr@),
            },
    {
        match &self.attrs {
            Some(attrs) => match attrs.get(&attr.to_owned()) {
                Some(v) => Some(v.clone()),
                None => None,
            },
            None => None,
        }
    }

    /// Set the self-closed flag, for tags written `<name ... />`.
    pub fn set_terminated(&mut self, b: bool)
        ensures
            final(self)@ == (TagV { terminated: b, ..old(self)@ }),
    {
        self.terminated = b;
    }

    /// Returns true for a self-closed tag such as `<area/>`.
    pub fn is_terminated(&self) -> (r: bool)
        ensures
            r == self@.terminated,
    {
        self.terminated
    }

    /// Set the closing-marker flag, for tags written `</name>`.
    pub fn set_terminator(&mut self, b: bool)
        ensures
            final(self)@ == (TagV { terminator: b, ..old(self)@ }),
    {
        self.terminator = b;
    }

    /// Returns true for a closing marker such as `</h1>`.
    pub fn is_terminator(&self) -> (r: bool)
        ensures
            r == self@.terminator,
    {
        self.terminator
    }
}

/// The display text of an attribute list: one ` key="value"` piece per pair,
/// in insertion order.
pub open spec fn spec_pairs_dump(s: Seq<(String, String)>) -> Seq<char>
    decreases s.len(),
{
    if s.len() == 0 {
        Seq::empty()
    } else {
        spec_pairs_dump(s.subrange(0, s.len() - 1)) + seq![' '] + s.last().0@ + seq!['=', '"']
            + s.last().1@ + seq!['"']
    }
}

/// The display text of a tag: its name and its attributes between `<` and
/// `>`.
pub closed spec fn spec_tag_dump(t: Tag) -> Seq<char> {
    seq!['<'] + t.name@ + (match t.attrs {
        Some(m) => spec_pairs_dump(m.pairs@),
        None => Seq::empty(),
    }) + seq!['>']
}

impl Tag {
    /// Appends the tag's display text to `out`.
    #[verifier::loop_isolation(false)]
    pub(crate) fn dump_into(&self, out: &mut String)
        ensures
            final(out)@ == old(out)@ + spec_tag_dump(*self),
    {
        proof {
            reveal_strlit("<");
            reveal_strlit(">");
            reveal_strlit(" ");
            reveal_strlit("=\"");
            reveal_strlit("\"");
        }
        out.append("<");
        out.append(self.name.as_str());
        proof {
            assert(out@ =~= old(out)@ + seq!['<'] + self.name@);
        }
        if let Some(attrs) = &self.attrs {
            let ghost pre = out@;
            let ghost ps = attrs.pairs@;
            let n = attrs.len();
            let mut i: usize = 0;
            while i < n
                invariant
                    i <= n,
                    n == ps.len(),
                    out@ =~= pre + spec_pairs_dump(ps.take(i as int)),
                decreases n - i,
            {
                let p = attrs.pair(i);
                out.append(" ");
                out.append(p.0.as_str());
                out.append("=\"");
                out.append(p.1.as_str());
                out.append("\"");
                proof {
                    assert(ps.take(i + 1).subrange(0, i as int) =~= ps.take(i as int));
                    assert(ps.take(i + 1).last() == ps[i as int]);
                    assert(out@ =~= pre + spec_pairs_dump(ps.take(i + 1)));
                }
                i = i + 1;
            }
            proof {
                assert(ps.take(ps.len() as int) =~= ps);
            }
        }
        out.append(">");
        proof {
            assert(out@ =~= old(out)@ + spec_tag_dump(*self));
        }
    }
}

/// Returns true if p is a sufficient condition for q: `p => q`.
pub fn satisfy_sufficient_condition(p: &Tag, q: &Tag) -> (r: bool)
    ensures
        r == spec_tag_implies(p@, q@),
{
    if !(p.name == q.name) {
        return false;
    }
    let pa = match &p.attrs {
        None => {
            return true;
        },
        Some(pa) => pa,
    };
    proof {
        use_type_invariant(pa);
        lemma_ptm_dom(pa.pairs@);
    }
    let ghost pm = tag_attrs_map(p@);
    let ghost qm = tag_attrs_map(q@);
    let mut i: usize = 0;
    while i < pa.pairs.len()
        invariant
            unique_keys(pa.pairs@),
            pm == pairs_to_map(pa.pairs@),
            pm == tag_attrs_map(p@),
            qm == tag_attrs_map(q@),
            q@.attrs is Some == q.attrs is Some,
            q.attrs is Some ==> qm == q.attrs->0@,
            i <= pa.pairs.len(),
            forall|j: int|
                0 <= j < i ==> qm.dom().contains(#[trigger] key_at(pa.pairs@, j)) && (pm[key_at(
                    pa.pairs@,
                    j,
                )].len() == 0 || pm[key_at(pa.pairs@, j)] == qm[key_at(pa.pairs@, j)]),
        decreases pa.pairs.len() - i,
    {
        let ghost k = key_at(pa.pairs@, i as int);
        proof {
            lemma_ptm_index(pa.pairs@, i as int);
        }
        let qv = match &q.attrs {
            Some(qa) => qa.get(&pa.pairs[i].0),
            None => None,
        };
        match qv {
            None => {
                proof {
                    assert(pm.dom().contains(k));
                    assert(!qm.dom().contains(k));
                }
                return false;
            },
            Some(qval) => {
                let pval = &pa.pairs[i].1;
                if !pval.as_str().is_empty() && !(*pval == *qval) {
                    proof {
                        assert(pm[k] == pa.pairs@[i as int].1@);
                        assert(qm[k] == qval@);
                    }
                    return false;
                }
            },
        }
        i = i + 1;
    }
    proof {
        lemma_ptm_dom(pa.pairs@);
        assert forall|k: Seq<char>| #[trigger]
            tag_attrs_map(p@).dom().contains(k) implies tag_attrs_map(q@).dom().contains(k) && (
        tag_attrs_map(p@)[k].len() == 0 || tag_attrs_map(p@)[k] == tag_attrs_map(q@)[k]) by {
            assert(has_key(pa.pairs@, k));
            let j = choose|j: int| 0 <= j < pa.pairs@.len() && #[trigger] key_at(pa.pairs@, j) == k;
            assert(qm.dom().contains(key_at(pa.pairs@, j)));
        }
    }
    true
}

/// The sufficient-condition relation is reflexive: every concrete tag
/// satisfies itself as a pattern, whatever its name and attributes.
pub proof fn lemma_sufficient_condition_reflexive(t: TagV)
    ensures
        spec_tag_implies(t, t),
{
}

/// The wildcard rule: when the pattern `p` carries attribute `k` with an
/// empty value, a match requires `k` to be present on the candidate, but the
/// candidate's value at `k` never decides the match: two candidates that
/// differ only in that value match alike.
pub proof fn lemma_wildcard_attr(p: TagV, q: TagV, k: Seq<char>, v1: Seq<char>, v2: Seq<char>)
    requires
        tag_attrs_map(p).dom().contains(k),
        tag_attrs_map(p)[k].len() == 0,
    ensures
        spec_tag_implies(p, q) ==> tag_attrs_map(q).dom().contains(k),
        spec_tag_implies(p, TagV { attrs: Some(tag_attrs_map(q).insert(k, v1)), ..q })
            == spec_tag_implies(p, TagV { attrs: Some(tag_attrs_map(q).insert(k, v2)), ..q }),
{
    let q1 = TagV { attrs: Some(tag_attrs_map(q).insert(k, v1)), ..q };
    let q2 = TagV { attrs: Some(tag_attrs_map(q).insert(k, v2)), ..q };
    assert forall|k2: Seq<char>| #[trigger] tag_attrs_map(p).dom().contains(k2) implies (
    tag_attrs_map(q1).dom().contains(k2) && (tag_attrs_map(p)[k2].len() == 0 || tag_attrs_map(
        p,
    )[k2] == tag_attrs_map(q1)[k2])) == (tag_attrs_map(q2).dom().contains(k2) && (tag_attrs_map(
        p,
    )[k2].len() == 0 || tag_attrs_map(p)[k2] == tag_attrs_map(q2)[k2])) by {
        if k2 != k {
            assert(tag_attrs_map(q1).dom().contains(k2) == tag_attrs_map(q2).dom().contains(k2));
            if tag_attrs_map(q1).dom().contains(k2) {
                assert(tag_attrs_map(q1)[k2] == tag_attrs_map(q2)[k2]);
            }
        }
    }
}

/// Monotonicity: adding an attribute that the pattern does not mention never
/// breaks a match.
pub proof fn lemma_extra_attr_monotone(p: TagV, q: TagV, k: Seq<char>, v: Seq<char>)
    requires
        spec_tag_implies(p, q),
        !tag_attrs_map(p).dom().contains(k),
    ensures
        spec_tag_implies(p, TagV { attrs: Some(tag_attrs_map(q).insert(k, v)), ..q }),
{
}

} // verus!
