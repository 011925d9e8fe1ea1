//! The scanning cursor: a character-addressable read cursor over the input
//! buffer, with bounded forward search and whitespace-skipping advance. The
//! cursor always stays on a valid index of the buffer, and the buffer is
//! never empty and never ends in whitespace.

use vstd::prelude::*;

use crate::parser::ParseError;
use crate::strutil::{chars_to_string, is_skippable, is_trim_char, matches_at, spec_trim_end,
    str_chars};

verus! {

/// The cursor position `c` clamped to the last valid index of `s`.
pub open spec fn spec_clamp(s: Seq<char>, c: int) -> int {
    if c >= s.len() {
        s.len() - 1
    } else {
        c
    }
}

/// The cursor position after one plain advance: one to the right, except at
/// the last index, where it stays.
pub open spec fn spec_next(s: Seq<char>, c: int) -> int {
    if c >= s.len() - 1 {
        c
    } else {
        c + 1
    }
}

/// The first position at or after `i` that does not hold a space or newline
/// (or the end of `s`).
pub open spec fn spec_skip_ws(s: Seq<char>, i: int) -> int
    decreases s.len() - i,
{
    if 0 <= i < s.len() && is_skippable(s[i]) {
        spec_skip_ws(s, i + 1)
    } else {
        i
    }
}

/// The cursor position after a whitespace-skipping advance: one to the right
/// and then past any spaces and newlines, except at the last index, where it
/// stays.
pub open spec fn spec_next_char(s: Seq<char>, c: int) -> int {
    if c >= s.len() - 1 {
        c
    } else {
        spec_skip_ws(s, c + 1)
    }
}

/// The first position at or after `c` holding the character `ch`, if any.
pub open spec fn spec_find(s: Seq<char>, c: int, ch: char) -> Option<int>
    decreases s.len() - c,
{
    if !(0 <= c < s.len()) {
        None
    } else if s[c] == ch {
        Some(c)
    } else {
        spec_find(s, c + 1, ch)
    }
}

/// `pat` occurs at position `i` of `s`.
pub open spec fn spec_match_at(s: Seq<char>, i: int, pat: Seq<char>) -> bool {
    0 <= i && i + pat.len() <= s.len() && s.subrange(i, i + pat.len() as int) == pat
}

/// The first position at or after `c` where `pat` occurs, if any.
pub open spec fn spec_find_str(s: Seq<char>, c: int, pat: Seq<char>) -> Option<int>
    decreases s.len() - c + 1,
{
    if !(0 <= c && c + pat.len() <= s.len()) {
        None
    } else if spec_match_at(s, c, pat) {
        Some(c)
    } else {
        spec_find_str(s, c + 1, pat)
    }
}

/// The lowercase form of an ASCII letter, as a code point; any other
/// character is left as it is.
pub open spec fn spec_lower(c: char) -> int {
    if 'A' <= c && c <= 'Z' {
        c as int + 32
    } else {
        c as int
    }
}

/// `pat` occurs at position `i` of `s`, comparing ASCII letters without
/// regard to case.
pub open spec fn spec_match_at_insensitive(s: Seq<char>, i: int, pat: Seq<char>) -> bool {
    0 <= i && i + pat.len() <= s.len() && forall|j: int|
        0 <= j < pat.len() ==> spec_lower(s[i + j]) == #[trigger] spec_lower(pat[j])
}

/// The slice of `s` between `b` (inclusive) and `e` (exclusive): the
/// extraction fails when the range is empty or inverted, or when it reaches
/// past the end of `s`.
pub open spec fn spec_get_string(s: Seq<char>, b: int, e: int) -> Result<Seq<char>, ParseError> {
    if e <= b || s.len() < e || b < 0 {
        Err(ParseError::InvalidSlice)
    } else {
        Ok(s.subrange(b, e))
    }
}

/// The scanning cursor over the input buffer.
#[derive(Debug)]
pub struct Input {
    input: Vec<char>,
    cursor: usize,
}

impl View for Input {
    type V = Seq<char>;

    closed spec fn view(&self) -> Seq<char> {
        self.input@
    }
}

impl Input {
    /// The cursor's position.
    pub closed spec fn spec_cursor(self) -> int {
        self.cursor as int
    }

    /// The cursor's well-formedness: the buffer is non-empty and does not end
    /// in a space or newline, and the cursor is on a valid index. The
    /// constructor establishes this and every operation preserves it.
    pub closed spec fn inv(self) -> bool {
        &&& self.input@.len() >= 1
        &&& self.cursor < self.input@.len()
        &&& !is_skippable(self.input@[self.input@.len() - 1])
    }

    /// The facts that well-formedness gives every caller.
    pub proof fn lemma_inv(self)
        requires
            self.inv(),
        ensures
            self@.len() >= 1,
            self@.len() <= usize::MAX,
            0 <= self.spec_cursor() < self@.len(),
            !is_skippable(self@[self@.len() - 1]),
    {
        assert(self@.len() == self.input.len());
    }

    /// Create a cursor over `input`, with its trailing whitespace trimmed
    /// (space, newline, tab and carriage return; see `is_trim_char`).
    /// Fails with `EmptyInput` when nothing remains after trimming.
    #[verifier::loop_isolation(false)]
    pub fn new(input: &str) -> (r: Result<Input, ParseError>)
        ensures
            r is Err <==> spec_trim_end(input@).len() == 0,
            r is Err ==> r->Err_0 == ParseError::EmptyInput,
            r is Ok ==> r->Ok_0@ == spec_trim_end(input@) && r->Ok_0.spec_cursor() == 0
                && r->Ok_0.inv(),
    {
        let mut v = str_chars(input);
        loop
            invariant
                spec_trim_end(v@) == spec_trim_end(input@),
            decreases v@.len(),
        {
            let n = v.len();
            if n == 0 {
                break;
            }
            let c = v[n - 1];
            if !(c == ' ' || c == '\n' || c == '\t' || c == '\r') {
                break;
            }
            proof {
                assert(is_trim_char(v@[v@.len() - 1]));
            }
            let _popped = v.pop();
        }
        proof {
            assert(spec_trim_end(v@) == v@);
        }
        if v.len() == 0 {
            return Err(ParseError::EmptyInput);
        }
        Ok(Input { input: v, cursor: 0 })
    }

    /// The number of characters in the buffer.
    pub(crate) fn buf_len(&self) -> (r: usize)
        ensures
            r == self@.len(),
    {
        self.input.len()
    }

    /// The buffer's characters, as a fresh vector.
    #[verifier::loop_isolation(false)]
    pub fn get_input(&self) -> (r: Vec<char>)
        ensures
            r@ == self@,
    {
        let mut v: Vec<char> = Vec::new();
        let mut i: usize = 0;
        while i < self.input.len()
            invariant
                i <= self.input.len(),
                v@ =~= self.input@.take(i as int),
            decreases self.input.len() - i,
        {
            v.push(self.input[i]);
            proof {
                assert(v@ =~= self.input@.take(i + 1));
            }
            i = i + 1;
        }
        proof {
            assert(v@ =~= self.input@);
        }
        v
    }

    /// Move the cursor to `cursor`, clamped to the last valid index.
    pub fn set_cursor(&mut self, cursor: usize)
        requires
            old(self).inv(),
        ensures
            final(self).inv(),
            final(self)@ == old(self)@,
            final(self).spec_cursor() == spec_clamp(old(self)@, cursor as int),
    {
        if self.input.len() <= cursor {
            self.cursor = self.input.len() - 1;
            return ;
        }
        self.cursor = cursor;
    }

    /// The cursor's position.
    pub fn get_cursor(&self) -> (r: usize)
        ensures
            r == self.spec_cursor(),
    {
        self.cursor
    }

    /// Move the cursor to the next character; at the last index it stays.
    pub fn next(&mut self)
        requires
            old(self).inv(),
        ensures
            final(self).inv(),
            final(self)@ == old(self)@,
            final(self).spec_cursor() == spec_next(old(self)@, old(self).spec_cursor()),
    {
        if self.input.len() - 1 <= self.cursor {
            return ;
        }
        self.cursor = self.cursor + 1;
    }

    /// Move the cursor to the next character and then past any run of spaces
    /// and newlines; at the last index it stays.
    #[verifier::loop_isolation(false)]
    pub fn next_char(&mut self)
        requires
            old(self).inv(),
        ensures
            final(self).inv(),
            final(self)@ == old(self)@,
            final(self).spec_cursor() == spec_next_char(old(self)@, old(self).spec_cursor()),
    {
        if self.input.len() - 1 <= self.cursor {
            return ;
        }
        self.cursor = self.cursor + 1;
        let ghost s = self.input@;
        let ghost bgn = self.cursor as int;
        loop
            invariant
                self@ == s,
                bgn <= self.cursor <= s.len(),
                spec_skip_ws(s, bgn) == spec_skip_ws(s, self.cursor as int),
                forall|k: int| bgn <= k < self.cursor ==> is_skippable(s[k]),
            decreases s.len() - self.cursor,
        {
            if self.cursor >= self.input.len() {
                break;
            }
            let c = self.input[self.cursor];
            if !(c == ' ' || c == '\n') {
                break;
            }
            self.cursor = self.cursor + 1;
        }
        proof {
            if self.cursor == s.len() {
                assert(is_skippable(s[s.len() - 1]));
                assert(false);
            }
            assert(spec_skip_ws(s, self.cursor as int) == self.cursor as int);
        }
    }

    /// Returns true if the cursor has reached the last index of the buffer.
    pub fn is_end(&mut self) -> (r: bool)
        requires
            old(self).inv(),
        ensures
            *final(self) == *old(self),
            r == (old(self).spec_cursor() == old(self)@.len() - 1),
    {
        if self.cursor == self.input.len() - 1 {
            return true;
        }
        false
    }

    /// Returns true if the character at the cursor equals `exp`.
    pub fn expect(&self, exp: char) -> (r: bool)
        requires
            self.inv(),
        ensures
            r == (self@[self.spec_cursor()] == exp),
    {
        if self.input[self.cursor] == exp {
            return true;
        } else {
            return false;
        }
    }

    /// Returns true if the text at the cursor starts with `exp`.
    pub fn expect_str(&self, exp: &str) -> (r: bool)
        requires
            self.inv(),
        ensures
            r == spec_match_at(self@, self.spec_cursor(), exp@),
    {
        let exp = str_chars(exp);
        if self.input.len() - self.cursor < exp.len() {
            return false;
        }
        matches_at(&exp, &self.input, self.cursor)
    }

    /// Returns true if the text at the cursor starts with `exp`, comparing
    /// ASCII letters without regard to case.
    #[verifier::loop_isolation(false)]
    pub fn expect_str_insensitive(&self, exp: &str) -> (r: bool)
        requires
            self.inv(),
        ensures
            r == spec_match_at_insensitive(self@, self.spec_cursor(), exp@),
    {
        let exp = str_chars(exp);
        if self.input.len() - self.cursor < exp.len() {
            return false;
        }
        let mut j: usize = 0;
        while j < exp.len()
            invariant
                j <= exp.len(),
                forall|k: int|
                    0 <= k < j ==> spec_lower(self@[self.spec_cursor() + k]) == #[trigger] spec_lower(
                        exp@[k],
                    ),
            decreases exp.len() - j,
        {
            let a = lower(self.input[self.cursor + j]);
            let b = lower(exp[j]);
            if a != b {
                return false;
            }
            j = j + 1;
        }
        true
    }

    /// The position of the next occurrence of `needle` at or after the
    /// cursor, if any.
    #[verifier::loop_isolation(false)]
    pub fn find(&mut self, needle: char) -> (r: Option<usize>)
        requires
            old(self).inv(),
        ensures
            *final(self) == *old(self),
            r is Some <==> spec_find(old(self)@, old(self).spec_cursor(), needle) is Some,
            r is Some ==> r->Some_0 as int == spec_find(
                old(self)@,
                old(self).spec_cursor(),
                needle,
            )->Some_0,
    {
        let ghost s = self.input@;
        let ghost c0 = self.cursor as int;
        let mut i: usize = self.cursor;
        while i < self.input.len()
            invariant
                c0 <= i <= s.len(),
                spec_find(s, c0, needle) == spec_find(s, i as int, needle),
            decreases s.len() - i,
        {
            if self.input[i] == needle {
                return Some(i);
            }
            i = i + 1;
        }
        None
    }

    /// The position of the next occurrence of the string `needle` at or
    /// after the cursor, if any.
    #[verifier::loop_isolation(false)]
    pub fn find_str(&mut self, needle: &str) -> (r: Option<usize>)
        requires
            old(self).inv(),
            needle@.len() >= 1,
        ensures
            *final(self) == *old(self),
            r is Some <==> spec_find_str(old(self)@, old(self).spec_cursor(), needle@) is Some,
            r is Some ==> r->Some_0 as int == spec_find_str(
                old(self)@,
                old(self).spec_cursor(),
                needle@,
            )->Some_0,
    {
        let needle = str_chars(needle);
        let ghost s = self.input@;
        let ghost pat = needle@;
        let ghost c0 = self.cursor as int;
        if self.input.len() < needle.len() || self.input.len() - needle.len() < self.cursor {
            return None;
        }
        let mut i: usize = self.cursor;
        while i <= self.input.len() - needle.len()
            invariant
                c0 <= i,
                i <= s.len() - pat.len() + 1,
                spec_find_str(s, c0, pat) == spec_find_str(s, i as int, pat),
            decreases s.len() - i,
        {
            if matches_at(&needle, &self.input, i) {
                proof {
                    assert(spec_match_at(s, i as int, pat));
                }
                return Some(i);
            }
            i = i + 1;
        }
        None
    }

    /// The character at position `cursor` of the buffer, or `InvalidSlice`
    /// when out of range.
    pub fn get_char(&self, cursor: usize) -> (r: Result<char, ParseError>)
        ensures
            self@.len() <= cursor ==> r == Err::<char, ParseError>(ParseError::InvalidSlice),
            cursor < self@.len() ==> r == Ok::<char, ParseError>(self@[cursor as int]),
    {
        if self.input.len() <= cursor {
            return Err(ParseError::InvalidSlice);
        }
        Ok(self.input[cursor])
    }

    /// The text from `bgn` (inclusive) to `end` (exclusive) as a string. The
    /// extraction fails when the range is empty or inverted, or when it
    /// reaches past the end of the buffer.
    #[verifier::loop_isolation(false)]
    pub fn get_string(&self, bgn: usize, end: usize) -> (r: Result<String, ParseError>)
        ensures
            r is Ok <==> spec_get_string(self@, bgn as int, end as int) is Ok,
            r is Ok ==> r->Ok_0@ == spec_get_string(self@, bgn as int, end as int)->Ok_0,
            r is Err ==> r->Err_0 == spec_get_string(self@, bgn as int, end as int)->Err_0,
    {
        if end <= bgn {
            return Err(ParseError::InvalidSlice);
        }
        if self.input.len() < end {
            return Err(ParseError::InvalidSlice);
        }
        let mut v: Vec<char> = Vec::new();
        let mut i: usize = bgn;
        while i < end
            invariant
                bgn <= i <= end,
                v@ == self@.subrange(bgn as int, i as int),
            decreases end - i,
        {
            v.push(self.input[i]);
            proof {
                assert(v@ =~= self@.subrange(bgn as int, i + 1));
            }
            i = i + 1;
        }
        Ok(chars_to_string(&v))
    }
}

/// The lowercase form of an ASCII letter, as a code point; any other
/// character is handed back as it is.
fn lower(c: char) -> (r: u32)
    ensures
        r as int == spec_lower(c),
{
    let u = c as u32;
    if 65 <= u && u <= 90 {
        u + 32
    } else {
        u
    }
}

} // verus!
