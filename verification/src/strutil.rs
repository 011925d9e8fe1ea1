//! Character-sequence helpers shared by the parser and the search engine:
//! conversions between `&str`/`String` and `Vec<char>`, and substring
//! containment.

use vstd::prelude::*;

verus! {

/// Characters skipped by the cursor's whitespace-skipping advance.
pub open spec fn is_skippable(c: char) -> bool {
    c == ' ' || c == '\n'
}

/// Characters trimmed from the end of the input buffer before parsing:
/// deliberately the four ASCII whitespace characters alone, the ones this
/// markup grammar itself treats as blank; rarer Unicode whitespace at the end
/// of a document is kept.
pub open spec fn is_trim_char(c: char) -> bool {
    c == ' ' || c == '\n' || c == '\t' || c == '\r'
}

/// `s` with its trailing whitespace removed.
pub open spec fn spec_trim_end(s: Seq<char>) -> Seq<char>
    decreases s.len(),
{
    if s.len() > 0 && is_trim_char(s.last()) {
        spec_trim_end(s.drop_last())
    } else {
        s
    }
}

/// `needle` occurs contiguously somewhere inside `hay`.
pub open spec fn is_substring(needle: Seq<char>, hay: Seq<char>) -> bool {
    exists|i: int|
        0 <= i && i + needle.len() <= hay.len() && #[trigger] hay.subrange(i, i + needle.len())
            == needle
}

/// Relies on std's `String::push`: appends the character to the end of the
/// string.
#[verifier::external_body]
pub(crate) fn push_char(s: &mut String, c: char)
    ensures
        final(s)@ == old(s)@.push(c),
{
    s.push(c);
}

/// Builds the string holding exactly the characters of `v`, in order.
pub(crate) fn chars_to_string(v: &Vec<char>) -> (r: String)
    ensures
        r@ == v@,
{
    let mut r = String::new();
    let mut i: usize = 0;
    while i < v.len()
        invariant
            i <= v.len(),
            r@ == v@.take(i as int),
        decreases v.len() - i,
    {
        push_char(&mut r, v[i]);
        i = i + 1;
        proof {
            assert(v@.take(i as int) =~= v@.take(i - 1).push(v@[i - 1]));
        }
    }
    proof {
        assert(v@.take(v@.len() as int) =~= v@);
    }
    r
}

/// `s` with every newline written out as the two characters `\` `n`.
pub open spec fn spec_escape_nl(s: Seq<char>) -> Seq<char>
    decreases s.len(),
{
    if s.len() == 0 {
        Seq::empty()
    } else {
        spec_escape_nl(s.subrange(0, s.len() - 1)) + (if s.last() == '\n' {
            seq!['\\', 'n']
        } else {
            seq![s.last()]
        })
    }
}

/// Appends `s` to `out` with every newline escaped, so that the appended text
/// stays on one line.
#[verifier::loop_isolation(false)]
pub(crate) fn append_escaped(out: &mut String, s: &str)
    ensures
        final(out)@ == old(out)@ + spec_escape_nl(s@),
{
    let cs = str_chars(s);
    let mut i: usize = 0;
    while i < cs.len()
        invariant
            i <= cs.len(),
            out@ =~= old(out)@ + spec_escape_nl(cs@.take(i as int)),
        decreases cs.len() - i,
    {
        let c = cs[i];
        if c == '\n' {
            push_char(out, '\\');
            push_char(out, 'n');
        } else {
            push_char(out, c);
        }
        proof {
            assert(cs@.take(i + 1).subrange(0, i as int) =~= cs@.take(i as int));
            assert(cs@.take(i + 1).last() == cs@[i as int]);
            assert(out@ =~= old(out)@ + spec_escape_nl(cs@.take(i + 1)));
        }
        i = i + 1;
    }
    proof {
        assert(cs@.take(cs@.len() as int) =~= cs@);
    }
}

/// Decides whether two strings hold the same characters.
pub(crate) fn str_eq(a: &str, b: &str) -> (r: bool)
    ensures
        r == (a@ == b@),
{
    let a2 = a.to_owned();
    let b2 = b.to_owned();
    a2 == b2
}

/// Relies on std's `str::chars`: yields the string's characters in order;
/// collecting them gives a vector whose contents are the string's view.
#[verifier::external_body]
pub(crate) fn str_chars(s: &str) -> (r: Vec<char>)
    ensures
        r@ == s@,
{
    s.chars().collect()
}

/// Decides whether `needle` occurs at position `start` of `hay`.
#[verifier::loop_isolation(false)]
pub(crate) fn matches_at(needle: &Vec<char>, hay: &Vec<char>, start: usize) -> (r: bool)
    requires
        start + needle@.len() <= hay@.len(),
    ensures
        r == (hay@.subrange(start as int, start + needle@.len()) == needle@),
{
    proof {
        assert(hay@.len() == hay.len());
        assert(needle@.len() == needle.len());
    }
    let mut j: usize = 0;
    while j < needle.len()
        invariant
            start + needle@.len() <= hay@.len(),
            j <= needle.len(),
            hay@.subrange(start as int, start + j) == needle@.take(j as int),
        decreases needle.len() - j,
    {
        if hay[start + j] != needle[j] {
            proof {
                assert(hay@.subrange(start as int, start + needle@.len())[j as int] == hay@[start
                    + j]);
            }
            return false;
        }
        proof {
            assert(hay@.subrange(start as int, start + j + 1) =~= hay@.subrange(
                start as int,
                start + j,
            ).push(hay@[start + j]));
            assert(needle@.take(j + 1) =~= needle@.take(j as int).push(needle@[j as int]));
        }
        j = j + 1;
    }
    proof {
        assert(needle@.take(needle@.len() as int) =~= needle@);
    }
    true
}

/// Decides substring containment of `needle` in `hay`.
#[verifier::loop_isolation(false)]
pub(crate) fn contains_chars(needle: &Vec<char>, hay: &Vec<char>) -> (r: bool)
    ensures
        r == is_substring(needle@, hay@),
{
    if needle.len() > hay.len() {
        return false;
    }
    if needle.len() == 0 {
        proof {
            assert(hay@.subrange(0, 0 + needle@.len() as int) =~= needle@);
            assert(is_substring(needle@, hay@));
        }
        return true;
    }
    let mut start: usize = 0;
    while start <= hay.len() - needle.len()
        invariant
            needle.len() <= hay.len(),
            start <= hay.len(),
            forall|i: int|
                0 <= i < start ==> #[trigger] hay@.subrange(i, i + needle@.len()) != needle@,
        decreases hay.len() - start,
    {
        if matches_at(needle, hay, start) {
            assert(is_substring(needle@, hay@));
            return true;
        }
        start = start + 1;
    }
    false
}

} // verus!
