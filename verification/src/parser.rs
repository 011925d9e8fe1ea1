//! The parsing engine: a scanning cursor over the input text, a lexical
//! segmenter that emits flat tag/text/comment fragments, and a tree reducer
//! that folds the fragments into a nested tree.

pub mod input;

use vstd::prelude::*;

use crate::dom::comment::Comment;
use crate::dom::tag::{AttrMap, Tag, TagV};
use crate::dom::text::Text;
use crate::dom::{child_seq, dom_wf, doms_view, Dom, DomType, DomV};
use crate::parser::input::{Input, spec_clamp, spec_find, spec_find_str, spec_get_string,
    spec_match_at, spec_next, spec_next_char, spec_skip_ws};
use crate::strutil::str_eq;
use std::io::Write;

verus! {

/// The ways a parse can fail. Every error is fatal to the whole parse: no
/// partial tree is returned.
#[derive(Debug, PartialEq, Eq, Structural, Clone, Copy)]
pub enum ParseError {
    /// The input text was empty (or nothing but trailing whitespace).
    EmptyInput,
    /// No closing `>` was found for an opened tag.
    UnterminatedTag,
    /// No closing `-->` was found for a comment.
    UnterminatedComment,
    /// The opening quote of an attribute value was never closed.
    UnterminatedAttributeValue,
    /// A substring extraction was empty, inverted, or out of range.
    InvalidSlice,
}

/// A flat tag fragment holding `t`.
pub open spec fn frag_tag(t: TagV) -> DomV {
    DomV { dom_type: DomType::Tag, tag: Some(t), text: None, comment: None, children: None }
}

/// A flat text fragment holding `x`.
pub open spec fn frag_text(x: Seq<char>) -> DomV {
    DomV { dom_type: DomType::Text, tag: None, text: Some(x), comment: None, children: None }
}

/// A flat comment fragment holding `x`.
pub open spec fn frag_comment(x: Seq<char>) -> DomV {
    DomV { dom_type: DomType::Comment, tag: None, text: None, comment: Some(x), children: None }
}

/// Bounds of the whitespace skip: it never moves left, and never past the end.
pub proof fn lemma_skip_ws_bounds(s: Seq<char>, i: int)
    ensures
        spec_skip_ws(s, i) >= i,
        i <= s.len() ==> spec_skip_ws(s, i) <= s.len(),
    decreases s.len() - i,
{
    if 0 <= i < s.len() && crate::strutil::is_skippable(s[i]) {
        lemma_skip_ws_bounds(s, i + 1);
    }
}

/// Bounds of the forward character search: a found position lies between the
/// start of the search and the end of the buffer, holds the character, and is
/// the first such; when nothing is found, no position at or after the start
/// holds the character.
pub proof fn lemma_find_bounds(s: Seq<char>, c: int, ch: char)
    requires
        0 <= c,
    ensures
        spec_find(s, c, ch) is Some ==> c <= spec_find(s, c, ch)->Some_0 < s.len() && s[spec_find(
            s,
            c,
            ch,
        )->Some_0] == ch,
        spec_find(s, c, ch) is Some ==> forall|k: int|
            c <= k < spec_find(s, c, ch)->Some_0 ==> s[k] != ch,
        spec_find(s, c, ch) is None ==> forall|k: int| c <= k < s.len() ==> s[k] != ch,
    decreases s.len() - c,
{
    if 0 <= c < s.len() && s[c] != ch {
        lemma_find_bounds(s, c + 1, ch);
    }
}

/// Bounds of the forward string search, in the same shape as the character
/// search.
pub proof fn lemma_find_str_bounds(s: Seq<char>, c: int, pat: Seq<char>)
    requires
        0 <= c,
    ensures
        spec_find_str(s, c, pat) is Some ==> c <= spec_find_str(s, c, pat)->Some_0
            && spec_find_str(s, c, pat)->Some_0 + pat.len() <= s.len() && spec_match_at(
            s,
            spec_find_str(s, c, pat)->Some_0,
            pat,
        ),
        spec_find_str(s, c, pat) is Some ==> forall|k: int|
            c <= k < spec_find_str(s, c, pat)->Some_0 ==> !spec_match_at(s, k, pat),
        spec_find_str(s, c, pat) is None ==> forall|k: int| c <= k ==> !spec_match_at(s, k, pat),
    decreases s.len() - c + 1,
{
    if 0 <= c && c + pat.len() <= s.len() && !spec_match_at(s, c, pat) {
        lemma_find_str_bounds(s, c + 1, pat);
    }
}

/// The value of a tag attribute, read at the cursor `cur`, which stands on
/// the opening quote `dlmt`: the text up to the matching quote, which becomes
/// the new cursor position. Fails when the quote is never closed.
pub open spec fn spec_parse_attr_value(s: Seq<char>, cur: int, dlmt: char) -> Result<
    (Seq<char>, int),
    ParseError,
> {
    let c1 = spec_next(s, cur);
    match spec_find(s, c1, dlmt) {
        None => Err(ParseError::UnterminatedAttributeValue),
        Some(e) => if c1 == e {
            Ok((Seq::empty(), e))
        } else {
            match spec_get_string(s, c1, e) {
                Ok(v) => Ok((v, e)),
                Err(err) => Err(err),
            }
        },
    }
}

/// One pass of the attribute-list reader, beginning at `cur` with the
/// attributes collected so far in `m`: reads an attribute name (ended by `=`,
/// space, or the tag end, and possibly empty), then a quoted value if `=`
/// followed by a quote appears before the tag end, and repeats until the
/// closing `>`. The returned cursor stands just after the `>`. Fails if and
/// only if an opening quote is never closed.
pub open spec fn spec_parse_attrs(
    s: Seq<char>,
    cur: int,
    tag_end: int,
    m: Map<Seq<char>, Seq<char>>,
) -> Result<(Map<Seq<char>, Seq<char>>, int), ParseError>
    decreases s.len() - cur,
{
    if !(0 <= cur < s.len() && 0 <= tag_end < s.len()) {
        Err(ParseError::InvalidSlice)
    } else if s[cur] == '>' {
        Ok((m, spec_next(s, cur)))
    } else {
        let e1 = spec_find(s, cur, '=');
        let ae1 = if e1 is Some && e1->Some_0 < tag_end {
            e1->Some_0
        } else {
            tag_end
        };
        let sp = spec_find(s, cur, ' ');
        let attr_end = if sp is Some && sp->Some_0 < ae1 {
            sp->Some_0
        } else {
            ae1
        };
        let name = if attr_end <= cur {
            Seq::empty()
        } else {
            s.subrange(cur, attr_end)
        };
        let vc = if attr_end != tag_end {
            match spec_find(s, attr_end, '=') {
                Some(e2) => if e2 < tag_end {
                    let c3 = spec_next_char(s, e2);
                    if 0 <= c3 < s.len() && s[c3] == '"' {
                        spec_parse_attr_value(s, c3, '"')
                    } else if 0 <= c3 < s.len() && s[c3] == '\'' {
                        spec_parse_attr_value(s, c3, '\'')
                    } else {
                        Ok((Seq::empty(), c3))
                    }
                } else {
                    Ok((Seq::empty(), attr_end))
                },
                None => Ok((Seq::empty(), attr_end)),
            }
        } else {
            Ok((Seq::empty(), attr_end))
        };
        match vc {
            Err(err) => Err(err),
            Ok((value, cur2)) => {
                let m2 = m.insert(name, value);
                if 0 <= cur2 < s.len() && s[cur2] == '>' {
                    Ok((m2, spec_next(s, cur2)))
                } else {
                    spec_parse_attrs(
                        s,
                        spec_clamp_range(spec_next_char(s, cur2), cur + 1, s.len() as int),
                        tag_end,
                        m2,
                    )
                }
            },
        }
    }
}

/// The name of a tag, read at the cursor `cur`, which stands on the first
/// character of the name: the text up to the first space or the closing `>`;
/// any attributes after the name are then read too. The returned cursor
/// stands just after the `>`. Fails with `UnterminatedTag` when no `>`
/// follows.
pub open spec fn spec_parse_tag_name(s: Seq<char>, cur: int, terminator: bool) -> Result<
    (TagV, int),
    ParseError,
> {
    match spec_find(s, cur, '>') {
        None => Err(ParseError::UnterminatedTag),
        Some(tag_end) => {
            let sp = spec_find(s, cur, ' ');
            let name_end = if sp is Some && sp->Some_0 < tag_end {
                sp->Some_0
            } else {
                tag_end
            };
            let name = if name_end <= cur {
                Seq::empty()
            } else {
                s.subrange(cur, name_end)
            };
            if s[name_end] == '>' {
                Ok(
                    (
                        TagV { name, attrs: None, terminated: false, terminator },
                        spec_next(s, name_end),
                    ),
                )
            } else {
                let c2 = spec_next_char(s, name_end);
                if 0 <= c2 < s.len() && s[c2] == '>' {
                    Ok(
                        (
                            TagV { name, attrs: None, terminated: false, terminator },
                            spec_next(s, c2),
                        ),
                    )
                } else {
                    match spec_find(s, c2, '>') {
                        None => Err(ParseError::UnterminatedTag),
                        Some(te) => match spec_parse_attrs(s, c2, te, Map::empty()) {
                            Err(err) => Err(err),
                            Ok((mm, cur3)) => Ok(
                                (
                                    TagV {
                                        name,
                                        attrs: Some(mm.remove("/"@)),
                                        terminated: mm.dom().contains("/"@),
                                        terminator,
                                    },
                                    cur3,
                                ),
                            ),
                        },
                    }
                }
            }
        },
    }
}

/// A whole tag fragment, read at the cursor `cur`, which stands on the `<`:
/// a leading `/` marks a closing marker, then the name and the attributes
/// follow.
pub open spec fn spec_parse_tag(s: Seq<char>, cur: int) -> Result<(DomV, int), ParseError> {
    let c1 = spec_next(s, cur);
    let terminator = 0 <= c1 < s.len() && s[c1] == '/';
    let c2 = if terminator {
        spec_next(s, c1)
    } else {
        c1
    };
    match spec_parse_tag_name(s, c2, terminator) {
        Err(err) => Err(err),
        Ok((t, c3)) => Ok((frag_tag(t), c3)),
    }
}

/// A comment fragment, read at the cursor `cur`, which stands on the `<` of
/// `<!--`: the interior text strictly between the opener and the first
/// following `-->`, the empty interior included. The returned cursor stands
/// just after the `-->`, clamped to the last index. Fails with
/// `UnterminatedComment` if and only if the closing `-->` is missing.
pub open spec fn spec_parse_comment(s: Seq<char>, cur: int) -> Result<(DomV, int), ParseError> {
    match spec_find_str(s, cur, "-->"@) {
        None => Err(ParseError::UnterminatedComment),
        Some(t) => {
            let interior = if t <= cur + 4 {
                Seq::empty()
            } else {
                s.subrange(cur + 4, t)
            };
            Ok((frag_comment(interior), spec_clamp(s, t + 3)))
        },
    }
}

/// A text fragment, read at the cursor `cur`: the text up to the next `<`,
/// or to the end of the buffer when no `<` follows. The returned position is
/// that `<`, or the buffer's length when the text ran to the end.
pub open spec fn spec_parse_text(s: Seq<char>, cur: int) -> (DomV, int) {
    match spec_find(s, cur, '<') {
        Some(c) => (frag_text(s.subrange(cur, c)), c),
        None => (frag_text(s.subrange(cur, s.len() as int)), s.len() as int),
    }
}

/// The body of a script tag as one text fragment, read at the cursor `cur`:
/// everything up to (and not including) the literal `</script`, kept
/// verbatim. Fails with `UnterminatedTag` when `</script` never follows.
pub open spec fn spec_parse_text_script(s: Seq<char>, cur: int) -> Result<(DomV, int), ParseError> {
    match spec_find_str(s, cur, "</script"@) {
        None => Err(ParseError::UnterminatedTag),
        Some(c) => Ok((frag_text(s.subrange(cur, c)), c)),
    }
}

/// The attribute reader's final position never leaves the buffer, and never
/// lands before both the entry cursor and the tag end.
pub proof fn lemma_parse_attrs_bounds(
    s: Seq<char>,
    cur: int,
    tag_end: int,
    m: Map<Seq<char>, Seq<char>>,
)
    requires
        0 <= cur,
    ensures
        spec_parse_attrs(s, cur, tag_end, m) is Ok ==> spec_parse_attrs(
            s,
            cur,
            tag_end,
            m,
        )->Ok_0.1 <= s.len() && (cur <= spec_parse_attrs(s, cur, tag_end, m)->Ok_0.1 || tag_end
            <= spec_parse_attrs(s, cur, tag_end, m)->Ok_0.1),
    decreases s.len() - cur,
{
    if 0 <= cur < s.len() && 0 <= tag_end < s.len() && s[cur] != '>' {
        lemma_find_bounds(s, cur, '=');
        lemma_find_bounds(s, cur, ' ');
        let e1 = spec_find(s, cur, '=');
        let ae1 = if e1 is Some && e1->Some_0 < tag_end {
            e1->Some_0
        } else {
            tag_end
        };
        let sp = spec_find(s, cur, ' ');
        let attr_end = if sp is Some && sp->Some_0 < ae1 {
            sp->Some_0
        } else {
            ae1
        };
        let name = if attr_end <= cur {
            Seq::empty()
        } else {
            s.subrange(cur, attr_end)
        };
        let vc: Result<(Seq<char>, int), ParseError> = if attr_end != tag_end {
            match spec_find(s, attr_end, '=') {
                Some(e2) => if e2 < tag_end {
                    let c3 = spec_next_char(s, e2);
                    if 0 <= c3 < s.len() && s[c3] == '"' {
                        spec_parse_attr_value(s, c3, '"')
                    } else if 0 <= c3 < s.len() && s[c3] == '\'' {
                        spec_parse_attr_value(s, c3, '\'')
                    } else {
                        Ok((Seq::empty(), c3))
                    }
                } else {
                    Ok((Seq::empty(), attr_end))
                },
                None => Ok((Seq::empty(), attr_end)),
            }
        } else {
            Ok((Seq::empty(), attr_end))
        };
        if 0 <= attr_end {
            lemma_find_bounds(s, attr_end, '=');
            match spec_find(s, attr_end, '=') {
                Some(e2) => {
                    if e2 < tag_end {
                        lemma_skip_ws_bounds(s, e2 + 1);
                        let c3 = spec_next_char(s, e2);
                        lemma_find_bounds(s, spec_next(s, c3), '"');
                        lemma_find_bounds(s, spec_next(s, c3), '\'');
                    }
                },
                None => {
                },
            }
        }
        match vc {
            Ok(vcur) => {
                let cur2 = vcur.1;
                lemma_skip_ws_bounds(s, cur2 + 1);
                lemma_parse_attrs_bounds(
                    s,
                    spec_clamp_range(spec_next_char(s, cur2), cur + 1, s.len() as int),
                    tag_end,
                    m.insert(name, vcur.0),
                );
            },
            Err(_) => {
            },
        }
    }
}

/// The tag-name reader never moves the cursor backward or past the end.
pub proof fn lemma_parse_tag_name_bounds(s: Seq<char>, cur: int, terminator: bool)
    requires
        0 <= cur,
    ensures
        spec_parse_tag_name(s, cur, terminator) is Ok ==> cur <= spec_parse_tag_name(
            s,
            cur,
            terminator,
        )->Ok_0.1 <= s.len(),
{
    lemma_find_bounds(s, cur, '>');
    lemma_find_bounds(s, cur, ' ');
    match spec_find(s, cur, '>') {
        None => {
        },
        Some(tag_end) => {
            let sp = spec_find(s, cur, ' ');
            let name_end = if sp is Some && sp->Some_0 < tag_end {
                sp->Some_0
            } else {
                tag_end
            };
            lemma_skip_ws_bounds(s, name_end + 1);
            let c2 = spec_next_char(s, name_end);
            if 0 <= c2 {
                lemma_find_bounds(s, c2, '>');
                match spec_find(s, c2, '>') {
                    None => {
                    },
                    Some(te) => {
                        lemma_parse_attrs_bounds(s, c2, te, Map::empty());
                    },
                }
            }
        },
    }
}

/// The tag reader moves the cursor at least one plain advance forward, never
/// past the end.
pub proof fn lemma_parse_tag_bounds(s: Seq<char>, cur: int)
    requires
        0 <= cur,
    ensures
        spec_parse_tag(s, cur) is Ok ==> spec_next(s, cur) <= spec_parse_tag(
            s,
            cur,
        )->Ok_0.1 <= s.len(),
{
    let c1 = spec_next(s, cur);
    let terminator = 0 <= c1 < s.len() && s[c1] == '/';
    let c2 = if terminator {
        spec_next(s, c1)
    } else {
        c1
    };
    lemma_parse_tag_name_bounds(s, c2, terminator);
}

/// The comment reader moves the cursor strictly forward when it does not
/// start on the last index, and never past the last index.
pub proof fn lemma_parse_comment_bounds(s: Seq<char>, cur: int)
    requires
        0 <= cur < s.len() - 1,
    ensures
        spec_parse_comment(s, cur) is Ok ==> cur < spec_parse_comment(s, cur)->Ok_0.1 < s.len(),
{
    lemma_find_str_bounds(s, cur, "-->"@);
}

/// The text reader moves the position forward, never past the buffer's
/// length, and strictly forward when it does not stand on a `<`.
pub proof fn lemma_parse_text_bounds(s: Seq<char>, cur: int)
    requires
        0 <= cur <= s.len(),
    ensures
        cur <= spec_parse_text(s, cur).1 <= s.len(),
        cur < s.len() && s[cur] != '<' ==> cur < spec_parse_text(s, cur).1,
{
    lemma_find_bounds(s, cur, '<');
}

/// The script-body reader never moves the position backward or past the
/// buffer's length, and moves it strictly forward when the cursor does not
/// stand on a `<`.
pub proof fn lemma_parse_text_script_bounds(s: Seq<char>, cur: int)
    requires
        0 <= cur,
    ensures
        spec_parse_text_script(s, cur) is Ok ==> cur <= spec_parse_text_script(
            s,
            cur,
        )->Ok_0.1 <= s.len(),
        spec_parse_text_script(s, cur) is Ok && cur < s.len() && s[cur] != '<'
            ==> cur < spec_parse_text_script(s, cur)->Ok_0.1,
{
    lemma_find_str_bounds(s, cur, "</script"@);
    proof_strlit_facts();
    match spec_find_str(s, cur, "</script"@) {
        Some(t) => {
            assert(s.subrange(t, t + "</script"@.len() as int)[0] == s[t]);
        },
        None => {
        },
    }
}

/// The lexical segmenter from the cursor `cur` on, with the fragments read so
/// far in `acc`: repeatedly reads a comment, a tag (followed, for an opening
/// `script` tag, by its verbatim body), or a text run, until the cursor
/// reaches the last index of the buffer. Because the scan stops there, a
/// lone character standing at the last index after a fragment that ended just
/// before it is not scanned; a text run entered earlier, though, carries
/// through to the very end of the buffer.
pub open spec fn spec_lex_loop(s: Seq<char>, cur: int, acc: Seq<DomV>) -> Result<
    Seq<DomV>,
    ParseError,
>
    decreases s.len() - cur,
    via spec_lex_loop_decreases
{
    if !(0 <= cur <= s.len()) {
        Err(ParseError::InvalidSlice)
    } else if cur >= s.len() - 1 {
        Ok(acc)
    } else if spec_match_at(s, cur, "<!--"@) {
        match spec_parse_comment(s, cur) {
            Err(err) => Err(err),
            Ok((d, c2)) => spec_lex_loop(s, c2, acc.push(d)),
        }
    } else if s[cur] == '<' {
        match spec_parse_tag(s, cur) {
            Err(err) => Err(err),
            Ok((d, c2)) => {
                if d.tag->Some_0.name == "script"@ && !d.tag->Some_0.terminator && 0 <= c2 < s.len()
                    && s[c2] != '<' {
                    match spec_parse_text_script(s, c2) {
                        Err(err) => Err(err),
                        Ok((t, c3)) => spec_lex_loop(s, c3, acc.push(d).push(t)),
                    }
                } else {
                    spec_lex_loop(s, c2, acc.push(d))
                }
            },
        }
    } else {
        let c1 = if s[cur] == ' ' || s[cur] == '\n' {
            spec_next_char(s, cur)
        } else {
            cur
        };
        if !(0 <= c1 < s.len() && s[c1] == '<') {
            let dt = spec_parse_text(s, c1);
            spec_lex_loop(s, dt.1, acc.push(dt.0))
        } else {
            spec_lex_loop(s, c1, acc)
        }
    }
}

#[via_fn]
proof fn spec_lex_loop_decreases(s: Seq<char>, cur: int, acc: Seq<DomV>) {
    if 0 <= cur < s.len() - 1 {
        if spec_match_at(s, cur, "<!--"@) {
            lemma_parse_comment_bounds(s, cur);
        } else if s[cur] == '<' {
            lemma_parse_tag_bounds(s, cur);
            match spec_parse_tag(s, cur) {
                Ok((d, c2)) => {
                    lemma_parse_text_script_bounds(s, c2);
                },
                Err(_) => {
                },
            }
        } else {
            lemma_skip_ws_bounds(s, cur + 1);
            let c1 = if s[cur] == ' ' || s[cur] == '\n' {
                spec_next_char(s, cur)
            } else {
                cur
            };
            if 0 <= c1 <= s.len() {
                lemma_parse_text_bounds(s, c1);
            }
        }
    }
}

/// The lexical segmenter over a whole (trimmed) buffer: fragments are read
/// from the first `<` on; a buffer without any `<` holds no fragments.
pub open spec fn spec_lex(s: Seq<char>) -> Result<Seq<DomV>, ParseError> {
    match spec_find(s, 0, '<') {
        None => Ok(Seq::empty()),
        Some(c0) => spec_lex_loop(s, c0, Seq::empty()),
    }
}

/// The fragment is a tag fragment with its payload set.
pub open spec fn frag_is_tag(d: DomV) -> bool {
    d.tag is Some
}

/// The fragment is a closing marker, `</name>`.
pub open spec fn frag_is_terminator(d: DomV) -> bool {
    frag_is_tag(d) && d.tag->Some_0.terminator
}

/// The fragment is an opening tag that is not self-closed.
pub open spec fn frag_is_open_tag(d: DomV) -> bool {
    frag_is_tag(d) && !d.tag->Some_0.terminator && !d.tag->Some_0.terminated
}

/// The position of the first closing marker named `name` among the
/// fragments, if any.
pub open spec fn spec_terminator_idx(fr: Seq<DomV>, name: Seq<char>) -> Option<int>
    decreases fr.len(),
{
    if fr.len() == 0 {
        None
    } else if frag_is_terminator(fr[0]) && fr[0].tag->Some_0.name == name {
        Some(0)
    } else {
        match spec_terminator_idx(fr.drop_first(), name) {
            Some(i) => Some(i + 1),
            None => None,
        }
    }
}

/// `x` clamped into the range `lo ..= hi`.
pub open spec fn spec_clamp_range(x: int, lo: int, hi: int) -> int {
    if x < lo {
        lo
    } else if x > hi {
        hi
    } else {
        x
    }
}

/// The node `d` with the children `kids` appended; a node acquires a child
/// list only when at least one child is appended.
pub open spec fn spec_with_children(d: DomV, kids: Seq<DomV>) -> DomV {
    if kids.len() > 0 {
        DomV { children: Some(child_seq(d) + kids), ..d }
    } else {
        d
    }
}

/// The tree reducer over a fragment sequence: the children built for the
/// current parent, and the number of fragments consumed. The first fragment,
/// when it is a closing marker, ends the pass and is consumed. An opening tag
/// whose closing marker appears later in the sequence receives as children a
/// whole nested pass over the following fragments: that pass ends at the
/// first closing marker it meets, whatever its name. An opening tag whose
/// closing marker is missing, or adjacent, stays childless; in the adjacent
/// case the marker is consumed and dropped. Text, comment, self-closed and
/// leftover fragments are appended as they come.
pub open spec fn spec_reduce(fr: Seq<DomV>) -> (Seq<DomV>, int)
    decreases fr.len(),
{
    if fr.len() == 0 {
        (Seq::empty(), 0)
    } else {
        let d = fr[0];
        let rest0 = fr.drop_first();
        if frag_is_terminator(d) {
            (Seq::empty(), 1)
        } else {
            let du: (DomV, int) = if frag_is_open_tag(d) {
                match spec_terminator_idx(rest0, d.tag->Some_0.name) {
                    None => (d, 0),
                    Some(k) => if k == 0 {
                        (d, 1)
                    } else {
                        let inner = spec_reduce(rest0);
                        (
                            spec_with_children(d, inner.0),
                            spec_clamp_range(inner.1, 0, rest0.len() as int),
                        )
                    },
                }
            } else {
                (d, 0)
            };
            let used = spec_clamp_range(du.1, 0, rest0.len() as int);
            let restn = rest0.skip(used);
            let outer = spec_reduce(restn);
            let c2 = spec_clamp_range(outer.1, 0, restn.len() as int);
            (seq![du.0] + outer.0, 1 + used + c2)
        }
    }
}

/// The reducer consumes a prefix of its fragments: the count lies between 0
/// and the sequence's length.
pub proof fn lemma_reduce_count(fr: Seq<DomV>)
    ensures
        0 <= spec_reduce(fr).1 <= fr.len(),
    decreases fr.len(),
{
    if fr.len() > 0 {
        let d = fr[0];
        let rest0 = fr.drop_first();
        if !frag_is_terminator(d) {
            lemma_reduce_count(rest0);
            let du: (DomV, int) = if frag_is_open_tag(d) {
                match spec_terminator_idx(rest0, d.tag->Some_0.name) {
                    None => (d, 0),
                    Some(k) => if k == 0 {
                        (d, 1)
                    } else {
                        let inner = spec_reduce(rest0);
                        (
                            spec_with_children(d, inner.0),
                            spec_clamp_range(inner.1, 0, rest0.len() as int),
                        )
                    },
                }
            } else {
                (d, 0)
            };
            let used = spec_clamp_range(du.1, 0, rest0.len() as int);
            lemma_reduce_count(rest0.skip(used));
        }
    }
}

/// Returns the value of a tag attribute. The cursor stands on the opening
/// quote `dlmt`; it is left on the closing quote.
fn parse_tag_attr_value(input: &mut Input, dlmt: char) -> (r: Result<String, ParseError>)
    requires
        old(input).inv(),
    ensures
        final(input).inv(),
        final(input)@ == old(input)@,
        ({
            let sp = spec_parse_attr_value(old(input)@, old(input).spec_cursor(), dlmt);
            match r {
                Ok(v) => sp is Ok && v@ == sp->Ok_0.0 && final(input).spec_cursor() == sp->Ok_0.1,
                Err(e) => sp is Err && e == sp->Err_0,
            }
        }),
{
    input.next();  // move cursor to after the quote
    let value_bgn = input.get_cursor();
    proof {
        input.lemma_inv();
        lemma_find_bounds(input@, input.spec_cursor(), dlmt);
    }
    let value_end = match input.find(dlmt) {
        Some(cursor) => cursor,
        None => {
            return Err(ParseError::UnterminatedAttributeValue);
        },
    };
    if value_bgn == value_end {
        // the value is empty; the cursor already stands on the closing quote
        return Ok(String::new());
    }
    input.set_cursor(value_end);
    input.get_string(value_bgn, value_end)
}

/// Parses the attribute list of a tag. The cursor stands on the first
/// character of the first attribute name; it is left just after the closing
/// `>`. An attribute literally named `/` is removed and instead marks the tag
/// self-closed.
#[verifier::rlimit(100)]
fn parse_tag_attr(input: &mut Input, tag: Tag) -> (r: Result<Tag, ParseError>)
    requires
        old(input).inv(),
    ensures
        final(input).inv(),
        final(input)@ == old(input)@,
        ({
            let s = old(input)@;
            let c0 = old(input).spec_cursor();
            match spec_find(s, c0, '>') {
                None => r == Err::<Tag, ParseError>(ParseError::UnterminatedTag),
                Some(te) => match spec_parse_attrs(s, c0, te, Map::empty()) {
                    Err(err) => r == Err::<Tag, ParseError>(err),
                    Ok((m, cur2)) => r is Ok && final(input).spec_cursor() == cur2 && r->Ok_0@
                        == (TagV {
                        attrs: Some(m.remove("/"@)),
                        terminated: tag@.terminated || m.dom().contains("/"@),
                        ..tag@
                    }),
                },
            }
        }),
{
    let ghost s = input@;
    let ghost c0 = input.spec_cursor();
    proof {
        input.lemma_inv();
        lemma_find_bounds(s, c0, '>');
    }
    // the end position of the tag
    let tag_end = match input.find('>') {
        Some(cursor) => cursor,
        None => {
            return Err(ParseError::UnterminatedTag);
        },
    };
    let mut attr_map = AttrMap::new();
    let ghost target = spec_parse_attrs(s, c0, tag_end as int, Map::empty());
    // collect the attributes and their values; a closing `/` is an attribute
    // too, removed below
    loop
        invariant_except_break
            target == spec_parse_attrs(s, input.spec_cursor(), tag_end as int, attr_map@),
        invariant
            input.inv(),
            input@ == s,
            s == old(input)@,
            c0 == old(input).spec_cursor(),
            0 <= c0,
            0 <= input.spec_cursor() < s.len(),
            0 <= tag_end < s.len(),
            spec_find(s, c0, '>') == Some(tag_end as int),
            target == spec_parse_attrs(s, c0, tag_end as int, Map::empty()),
        ensures
            input.inv(),
            input@ == s,
            target == Ok::<(Map<Seq<char>, Seq<char>>, int), ParseError>(
                (attr_map@, input.spec_cursor()),
            ),
        decreases s.len() - input.spec_cursor(),
    {
        let ghost cur_it = input.spec_cursor();
        let ghost m_it = attr_map@;
        if input.expect('>') {
            input.next();
            break ;
        }
        let attr_bgn = input.get_cursor();
        let mut attr_end = tag_end;
        proof {
            lemma_find_bounds(s, cur_it, '=');
            lemma_find_bounds(s, cur_it, ' ');
        }
        // an `=` inside the tag ends the attribute name
        if let Some(cursor) = input.find('=') {
            if cursor < tag_end {
                attr_end = cursor;
            }
        }
        // a space before the `=` ends the attribute name instead
        if let Some(cursor) = input.find(' ') {
            if cursor < attr_end {
                attr_end = cursor;
            }
        }
        input.set_cursor(attr_end);
        let attr_name = if attr_end <= attr_bgn {
            // the attribute name is empty, as in `<a =1>`
            String::new()
        } else {
            match input.get_string(attr_bgn, attr_end) {
                Ok(n) => n,
                Err(e) => {
                    return Err(e);
                },
            }
        };
        // the value, when `=` and an opening quote follow before the tag end
        let mut value = String::new();
        if input.get_cursor() != tag_end {
            proof {
                lemma_find_bounds(s, attr_end as int, '=');
            }
            if let Some(cursor) = input.find('=') {
                if cursor < tag_end {
                    input.set_cursor(cursor);
                    input.next_char();
                    proof {
                        lemma_skip_ws_bounds(s, cursor + 1);
                        input.lemma_inv();
                        lemma_find_bounds(s, spec_next(s, input.spec_cursor()), '"');
                        lemma_find_bounds(s, spec_next(s, input.spec_cursor()), '\'');
                    }
                    if input.expect('"') {
                        match parse_tag_attr_value(input, '"') {
                            Ok(v) => {
                                value = v;
                            },
                            Err(e) => {
                                return Err(e);
                            },
                        }
                    } else if input.expect('\'') {
                        match parse_tag_attr_value(input, '\'') {
                            Ok(v) => {
                                value = v;
                            },
                            Err(e) => {
                                return Err(e);
                            },
                        }
                    }
                }
            }
        }
        attr_map.insert(attr_name, value);
        proof {
            input.lemma_inv();
        }
        if input.expect('>') {
            input.next();
            break ;
        }
        proof {
            lemma_find_bounds(s, c0, '>');
            lemma_skip_ws_bounds(s, input.spec_cursor() + 1);
            assert(cur_it <= input.spec_cursor());
            assert(cur_it + 1 <= spec_next_char(s, input.spec_cursor()) <= s.len());
        }
        input.next_char();
        proof {
            input.lemma_inv();
        }
    }
    // a `/` among the attributes marks the tag self-closed
    let mut tag = tag;
    let slash = "/".to_owned();
    if let Some(_removed) = attr_map.remove(&slash) {
        tag.set_terminated(true);
    }
    tag.set_attrs(attr_map);
    Ok(tag)
}

/// Parses the tag name and whatever follows it inside the tag. The cursor
/// stands on the first character of the name; it is left just after the
/// closing `>`.
fn parse_tag_name(input: &mut Input, terminator: bool) -> (r: Result<Tag, ParseError>)
    requires
        old(input).inv(),
    ensures
        final(input).inv(),
        final(input)@ == old(input)@,
        ({
            let sp = spec_parse_tag_name(old(input)@, old(input).spec_cursor(), terminator);
            match r {
                Ok(t) => sp is Ok && t@ == sp->Ok_0.0 && final(input).spec_cursor() == sp->Ok_0.1,
                Err(e) => sp is Err && e == sp->Err_0,
            }
        }),
{
    let ghost s = input@;
    let ghost c0 = input.spec_cursor();
    proof {
        input.lemma_inv();
        lemma_find_bounds(s, c0, '>');
        lemma_find_bounds(s, c0, ' ');
    }
    // the start position of the tag name
    let name_bgn = input.get_cursor();
    // the end position of the tag
    let tag_end = match input.find('>') {
        Some(cursor) => cursor,
        None => {
            return Err(ParseError::UnterminatedTag);
        },
    };
    let mut name_end = tag_end;
    // a space inside the tag ends the tag name
    if let Some(cursor) = input.find(' ') {
        if cursor < tag_end {
            name_end = cursor;
        }
    }
    input.set_cursor(name_end);
    let name = if name_bgn == name_end {
        // the name is empty, as in a bare `<>`
        String::new()
    } else {
        match input.get_string(name_bgn, name_end) {
            Ok(n) => n,
            Err(e) => {
                return Err(e);
            },
        }
    };
    let mut tag = Tag::new(name.as_str());
    tag.set_terminator(terminator);
    if input.expect('>') {
        input.next();  // move cursor to after the '>'
        return Ok(tag);
    }
    input.next_char();
    proof {
        lemma_skip_ws_bounds(s, name_end + 1);
        input.lemma_inv();
    }
    // spaces may stand just before the '>'
    if input.expect('>') {
        input.next();
        return Ok(tag);
    }
    parse_tag_attr(input, tag)
}

/// Parses one whole tag. The cursor stands on the `<`; it is left just after
/// the closing `>`.
fn parse_tag(input: &mut Input) -> (r: Result<Dom, ParseError>)
    requires
        old(input).inv(),
    ensures
        final(input).inv(),
        final(input)@ == old(input)@,
        ({
            let sp = spec_parse_tag(old(input)@, old(input).spec_cursor());
            match r {
                Ok(d) => sp is Ok && d@ == sp->Ok_0.0 && final(input).spec_cursor() == sp->Ok_0.1,
                Err(e) => sp is Err && e == sp->Err_0,
            }
        }),
{
    input.next();  // move cursor to after the '<'
    proof {
        input.lemma_inv();
    }
    let mut terminator = false;
    if input.expect('/') {
        input.next();  // move cursor to after the '/'
        terminator = true;
    }
    let tag = match parse_tag_name(input, terminator) {
        Ok(t) => t,
        Err(e) => {
            return Err(e);
        },
    };
    let mut dom = Dom::new(DomType::Tag);
    dom.set_tag(tag);
    Ok(dom)
}

/// Parses one comment. The cursor stands on the `<` of `<!--`; it is left
/// just after the closing `-->`, clamped to the last index.
fn parse_comment(input: &mut Input) -> (r: Result<Dom, ParseError>)
    requires
        old(input).inv(),
        spec_match_at(old(input)@, old(input).spec_cursor(), "<!--"@),
    ensures
        final(input).inv(),
        final(input)@ == old(input)@,
        ({
            let sp = spec_parse_comment(old(input)@, old(input).spec_cursor());
            match r {
                Ok(d) => sp is Ok && d@ == sp->Ok_0.0 && final(input).spec_cursor() == sp->Ok_0.1,
                Err(e) => sp is Err && e == sp->Err_0,
            }
        }),
{
    proof {
        input.lemma_inv();
        lemma_find_str_bounds(input@, input.spec_cursor(), "-->"@);
        reveal_strlit("<!--");
        reveal_strlit("-->");
    }
    // the position just after the "<!--"
    let bgn = input.get_cursor() + 4;
    let cursor = match input.find_str("-->") {
        Some(cursor) => cursor,
        None => {
            return Err(ParseError::UnterminatedComment);
        },
    };
    input.set_cursor(cursor + 3);  // move cursor after the "-->"
    let text = if cursor <= bgn {
        // the interior is empty, as in an empty comment
        String::new()
    } else {
        match input.get_string(bgn, cursor) {
            Ok(t) => t,
            Err(e) => {
                return Err(e);
            },
        }
    };
    let comment = Comment::new(text);
    let mut dom = Dom::new(DomType::Comment);
    dom.set_comment(comment);
    Ok(dom)
}

/// Parses one text run: everything up to the next `<`, or to the end of the
/// buffer when no `<` follows. The cursor is left on that `<`, or clamped to
/// the last index when the text ran to the end.
fn parse_text(input: &mut Input) -> (r: Dom)
    requires
        old(input).inv(),
    ensures
        final(input).inv(),
        final(input)@ == old(input)@,
        r@ == spec_parse_text(old(input)@, old(input).spec_cursor()).0,
        final(input).spec_cursor() == spec_clamp(
            old(input)@,
            spec_parse_text(old(input)@, old(input).spec_cursor()).1,
        ),
{
    proof {
        input.lemma_inv();
        lemma_find_bounds(input@, input.spec_cursor(), '<');
    }
    let bgn = input.get_cursor();
    let end: usize = match input.find('<') {
        Some(cursor) => {
            input.set_cursor(cursor);
            cursor
        },
        None => {
            let n = input.buf_len();
            input.set_cursor(n);
            n
        },
    };
    let text = if bgn == end {
        proof {
            assert(Seq::<char>::empty() =~= old(input)@.subrange(bgn as int, end as int));
        }
        String::new()
    } else {
        match input.get_string(bgn, end) {
            Ok(t) => t,
            Err(_) => String::new(),
        }
    };
    let mut dom = Dom::new(DomType::Text);
    dom.set_text(Text::new(text));
    dom
}

/// Captures the code of a script tag verbatim, as one text run up to (and
/// not including) the literal `</script`.
fn parse_text_script(input: &mut Input) -> (r: Result<Dom, ParseError>)
    requires
        old(input).inv(),
    ensures
        final(input).inv(),
        final(input)@ == old(input)@,
        ({
            let sp = spec_parse_text_script(old(input)@, old(input).spec_cursor());
            match r {
                Ok(d) => sp is Ok && d@ == sp->Ok_0.0 && final(input).spec_cursor() == sp->Ok_0.1,
                Err(e) => sp is Err && e == sp->Err_0,
            }
        }),
{
    proof {
        input.lemma_inv();
        lemma_find_str_bounds(input@, input.spec_cursor(), "</script"@);
        reveal_strlit("</script");
    }
    let bgn = input.get_cursor();
    let end = match input.find_str("</script") {
        Some(cursor) => {
            input.set_cursor(cursor);
            cursor
        },
        None => {
            return Err(ParseError::UnterminatedTag);
        },
    };
    let text = if bgn == end {
        proof {
            assert(Seq::<char>::empty() =~= old(input)@.subrange(bgn as int, end as int));
        }
        String::new()
    } else {
        match input.get_string(bgn, end) {
            Ok(t) => t,
            Err(_) => String::new(),
        }
    };
    let mut dom = Dom::new(DomType::Text);
    dom.set_text(Text::new(text));
    Ok(dom)
}

/// Runs the lexical segmenter over the whole buffer and returns the flat,
/// ordered fragment sequence.
fn create_dom_vec(input: &mut Input) -> (r: Result<Vec<Dom>, ParseError>)
    requires
        old(input).inv(),
    ensures
        final(input).inv(),
        final(input)@ == old(input)@,
        ({
            let sp = match spec_find(old(input)@, old(input).spec_cursor(), '<') {
                None => Ok::<Seq<DomV>, ParseError>(Seq::empty()),
                Some(c0) => spec_lex_loop(old(input)@, c0, Seq::empty()),
            };
            match r {
                Ok(v) => sp is Ok && doms_view(v@) == sp->Ok_0 && (forall|i: int|
                    0 <= i < v@.len() ==> dom_wf(#[trigger] v@[i]@)),
                Err(e) => sp is Err && e == sp->Err_0,
            }
        }),
{
    let ghost s = input@;
    let mut dom_vec: Vec<Dom> = Vec::new();
    proof {
        input.lemma_inv();
        lemma_find_bounds(s, input.spec_cursor(), '<');
    }
    // move the cursor to the first '<'; a buffer without one has no fragments
    match input.find('<') {
        Some(cursor) => {
            input.set_cursor(cursor);
        },
        None => {
            return Ok(dom_vec);
        },
    }
    let ghost c0 = input.spec_cursor();
    let ghost target = spec_lex_loop(s, c0, Seq::empty());
    proof {
        assert(doms_view(dom_vec@) =~= Seq::<DomV>::empty());
    }
    loop
        invariant_except_break
            target == spec_lex_loop(s, input.spec_cursor(), doms_view(dom_vec@)),
        invariant
            input.inv(),
            input@ == s,
            s == old(input)@,
            0 <= input.spec_cursor() < s.len(),
            target == ({
                let spf = match spec_find(old(input)@, old(input).spec_cursor(), '<') {
                    None => Ok::<Seq<DomV>, ParseError>(Seq::empty()),
                    Some(cc) => spec_lex_loop(old(input)@, cc, Seq::empty()),
                };
                spf
            }),
            forall|i: int| 0 <= i < dom_vec@.len() ==> dom_wf(#[trigger] dom_vec@[i]@),
        ensures
            input.inv(),
            input@ == s,
            target == Ok::<Seq<DomV>, ParseError>(doms_view(dom_vec@)),
            forall|i: int| 0 <= i < dom_vec@.len() ==> dom_wf(#[trigger] dom_vec@[i]@),
        decreases s.len() - input.spec_cursor(),
    {
        let ghost cur_it = input.spec_cursor();
        let ghost acc_it = doms_view(dom_vec@);
        if input.is_end() {
            break ;
        }
        if input.expect_str("<!--") {
            // a comment
            proof {
                lemma_parse_comment_bounds(s, cur_it);
            }
            match parse_comment(input) {
                Ok(dom) => {
                    dom_vec.push(dom);
                    proof {
                        input.lemma_inv();
                        assert(doms_view(dom_vec@) =~= acc_it.push(dom_vec@.last()@));
                    }
                },
                Err(e) => {
                    return Err(e);
                },
            }
        } else if input.expect('<') {
            // a tag
            proof {
                lemma_parse_tag_bounds(s, cur_it);
            }
            match parse_tag(input) {
                Ok(dom) => {
                    // an opening script tag swallows its body verbatim
                    let mut is_bgn_script = false;
                    let tag = dom.get_tag().unwrap();
                    if str_eq(tag.get_name(), "script") && !tag.is_terminator() {
                        is_bgn_script = true;
                    }
                    dom_vec.push(dom);
                    proof {
                        assert(doms_view(dom_vec@) =~= acc_it.push(dom_vec@.last()@));
                        input.lemma_inv();
                    }
                    if is_bgn_script && !input.expect('<') {
                        let ghost acc_it2 = doms_view(dom_vec@);
                        proof {
                            lemma_parse_text_script_bounds(s, input.spec_cursor());
                        }
                        match parse_text_script(input) {
                            Ok(dom) => {
                                dom_vec.push(dom);
                                proof {
                                    input.lemma_inv();
                                    assert(doms_view(dom_vec@) =~= acc_it2.push(
                                        dom_vec@.last()@,
                                    ));
                                }
                            },
                            Err(e) => {
                                return Err(e);
                            },
                        }
                    }
                },
                Err(e) => {
                    return Err(e);
                },
            }
        } else {
            if input.expect(' ') || input.expect('\n') {
                proof {
                    lemma_skip_ws_bounds(s, cur_it + 1);
                }
                input.next_char();  // skip the run of spaces and newlines
                proof {
                    input.lemma_inv();
                }
            }
            if !input.expect('<') {
                // a text run
                proof {
                    lemma_parse_text_bounds(s, input.spec_cursor());
                }
                let ghost cpre = input.spec_cursor();
                let dom = parse_text(input);
                dom_vec.push(dom);
                proof {
                    input.lemma_inv();
                    assert(doms_view(dom_vec@) =~= acc_it.push(dom_vec@.last()@));
                    let dt = spec_parse_text(s, cpre);
                    if dt.1 >= s.len() {
                        // the text ran to the end of the buffer; the cursor is
                        // clamped to the last index, where the scan stops
                        assert(spec_lex_loop(s, dt.1, acc_it.push(dt.0)) == spec_lex_loop(
                            s,
                            s.len() - 1,
                            acc_it.push(dt.0),
                        ));
                    }
                }
            }
        }
    }
    Ok(dom_vec)
}

/// The fragment at a position is a closing marker with the given name.
pub open spec fn is_term_named(d: DomV, name: Seq<char>) -> bool {
    frag_is_terminator(d) && d.tag->Some_0.name == name
}

/// The position the terminator search returns is the first closing marker
/// with the given name, if one exists at all.
pub proof fn lemma_terminator_idx(fr: Seq<DomV>, name: Seq<char>)
    ensures
        spec_terminator_idx(fr, name) is Some ==> 0 <= spec_terminator_idx(fr, name)->Some_0
            < fr.len() && is_term_named(fr[spec_terminator_idx(fr, name)->Some_0], name),
        spec_terminator_idx(fr, name) is Some ==> forall|j: int|
            0 <= j < spec_terminator_idx(fr, name)->Some_0 ==> !is_term_named(#[trigger] fr[j], name),
        spec_terminator_idx(fr, name) is None ==> forall|j: int|
            0 <= j < fr.len() ==> !is_term_named(#[trigger] fr[j], name),
    decreases fr.len(),
{
    if fr.len() > 0 && !is_term_named(fr[0], name) {
        let t = fr.drop_first();
        lemma_terminator_idx(t, name);
        match spec_terminator_idx(t, name) {
            Some(i) => {
                assert(t[i] == fr[i + 1]);
                assert forall|j: int| 0 <= j < i + 1 implies !is_term_named(
                    #[trigger] fr[j],
                    name,
                ) by {
                    if j > 0 {
                        assert(t[j - 1] == fr[j]);
                        assert(!is_term_named(t[j - 1], name));
                    }
                }
            },
            None => {
                assert forall|j: int| 0 <= j < fr.len() implies !is_term_named(
                    #[trigger] fr[j],
                    name,
                ) by {
                    if j > 0 {
                        assert(t[j - 1] == fr[j]);
                        assert(!is_term_named(t[j - 1], name));
                    }
                }
            },
        }
    }
}

/// Finds the first closing marker paired with `starter` among the fragments
/// and returns its position.
#[verifier::loop_isolation(false)]
fn search_terminator(dom_vec: &mut Vec<Dom>, starter: &Tag) -> (r: Option<usize>)
    ensures
        *final(dom_vec) == *old(dom_vec),
        r is Some <==> spec_terminator_idx(doms_view(old(dom_vec)@), starter@.name) is Some,
        r is Some ==> r->Some_0 as int == spec_terminator_idx(
            doms_view(old(dom_vec)@),
            starter@.name,
        )->Some_0,
{
    let ghost fr = doms_view(dom_vec@);
    let ghost name = starter@.name;
    proof {
        lemma_terminator_idx(fr, name);
    }
    let mut i: usize = 0;
    while i < dom_vec.len()
        invariant
            i <= dom_vec.len(),
            forall|j: int| 0 <= j < i ==> !is_term_named(#[trigger] fr[j], name),
        decreases dom_vec.len() - i,
    {
        let dom = &dom_vec[i];
        if let Some(tag) = dom.get_tag() {
            if tag.is_terminator() {
                if str_eq(starter.get_name(), tag.get_name()) {
                    proof {
                        assert(is_term_named(fr[i as int], name));
                        if spec_terminator_idx(fr, name) is None {
                            assert(false);
                        }
                    }
                    return Some(i);
                }
            }
        }
        i = i + 1;
    }
    proof {
        if spec_terminator_idx(fr, name) is Some {
            let k = spec_terminator_idx(fr, name)->Some_0;
            assert(!is_term_named(fr[k], name));
        }
    }
    None
}

/// Folds the fragment sequence into the children of `parent`: every fragment
/// up to the first closing marker of this pass is appended in encounter
/// order, and an opening tag whose paired closing marker appears later in the
/// sequence receives the fragments after it, reduced recursively, as its own
/// children.
#[verifier::rlimit(100)]
fn create_dom_tree(dom_vec: &mut Vec<Dom>, parent: &mut Dom)
    ensures
        doms_view(final(dom_vec)@) == doms_view(old(dom_vec)@).skip(
            spec_reduce(doms_view(old(dom_vec)@)).1,
        ),
        final(parent)@ == spec_with_children(
            old(parent)@,
            spec_reduce(doms_view(old(dom_vec)@)).0,
        ),
    decreases old(dom_vec)@.len(),
{
    let ghost orig = doms_view(dom_vec@);
    let ghost mut consumed: int = 0;
    let ghost mut added: Seq<DomV> = Seq::empty();
    proof {
        lemma_reduce_count(orig);
        assert(orig.skip(0) =~= orig);
    }
    loop
        invariant_except_break
            0 <= consumed <= orig.len(),
            doms_view(dom_vec@) =~= orig.skip(consumed),
            spec_reduce(orig).0 == added + spec_reduce(orig.skip(consumed)).0,
            spec_reduce(orig).1 == consumed + spec_reduce(orig.skip(consumed)).1,
            parent@ == spec_with_children(old(parent)@, added),
        invariant
            orig == doms_view(old(dom_vec)@),
            0 <= spec_reduce(orig).1 <= orig.len(),
        ensures
            doms_view(dom_vec@) =~= orig.skip(spec_reduce(orig).1),
            parent@ == spec_with_children(old(parent)@, spec_reduce(orig).0),
        decreases dom_vec@.len(),
    {
        if dom_vec.len() == 0 {
            proof {
                assert(spec_reduce(orig.skip(consumed)).0 =~= Seq::<DomV>::empty());
                assert(added + spec_reduce(orig.skip(consumed)).0 =~= added);
            }
            break ;
        }
        let ghost remaining = orig.skip(consumed);
        let ghost d_v = remaining[0];
        let ghost rest0 = remaining.drop_first();
        proof {
            lemma_reduce_count(remaining);
            lemma_reduce_count(rest0);
            assert(doms_view(dom_vec@)[0] == dom_vec@[0]@);
        }
        let mut dom = dom_vec.remove(0);
        proof {
            assert(dom@ == d_v);
            assert(doms_view(dom_vec@) =~= rest0);
            assert(rest0 =~= orig.skip(consumed + 1));
        }
        let (is_tag, is_term, is_termd) = match dom.get_tag() {
            Some(tag) => (true, tag.is_terminator(), tag.is_terminated()),
            None => (false, false, false),
        };
        if is_tag && is_term {
            // a closing marker ends this pass; it is consumed and dropped
            proof {
                consumed = consumed + 1;
            }
            return ;
        }
        let ghost mut used: int = 0;
        if is_tag && !is_termd {
            // an opening tag that is not self-closed: look for its closing
            // marker among the remaining fragments
            let starter_idx = {
                let tag = dom.get_tag().unwrap();
                search_terminator(dom_vec, tag)
            };
            match starter_idx {
                Some(terminator_idx) => {
                    if terminator_idx == 0 {
                        // an adjacent closing marker: the tag stays
                        // childless and the marker is dropped
                        let _closer = dom_vec.remove(0);
                        proof {
                            used = 1;
                            assert(doms_view(dom_vec@) =~= rest0.skip(1));
                        }
                    } else {
                        // the fragments between the opener and its marker
                        // become the opener's children
                        proof {
                            lemma_reduce_count(rest0);
                        }
                        create_dom_tree(dom_vec, &mut dom);
                        proof {
                            used = spec_clamp_range(spec_reduce(rest0).1, 0, rest0.len() as int);
                            assert(used == spec_reduce(rest0).1);
                        }
                    }
                },
                None => {
                },
            }
        }
        let ghost du_0 = dom@;
        parent.add_child(dom);
        proof {
            let inner_restn = rest0.skip(used);
            lemma_reduce_count(inner_restn);
            assert(spec_reduce(remaining).0 == seq![du_0] + spec_reduce(inner_restn).0);
            assert(spec_reduce(remaining).1 == 1 + used + spec_reduce(inner_restn).1);
            added = added.push(du_0);
            consumed = consumed + 1 + used;
            assert(orig.skip(consumed) =~= inner_restn);
            assert(added + spec_reduce(orig.skip(consumed)).0 =~= (added.drop_last() + (seq![du_0]
                + spec_reduce(inner_restn).0)));
            assert(child_seq(parent@) =~= child_seq(spec_with_children(old(parent)@, added.drop_last())).push(du_0));
            assert(child_seq(old(parent)@) + added =~= (child_seq(old(parent)@)
                + added.drop_last()).push(du_0));
            assert(parent@ == spec_with_children(old(parent)@, added));
        }
    }
}

/// Every fragment of the sequence is flat (no children) and carries the
/// payload of its variant.
pub open spec fn frags_flat(fr: Seq<DomV>) -> bool {
    forall|i: int| 0 <= i < fr.len() ==> (#[trigger] fr[i]).children is None && dom_wf(fr[i])
}

/// No self-closed tag anywhere in the tree under `d` has children.
pub open spec fn terminated_childless(d: DomV) -> bool
    decreases d,
{
    &&& ((d.tag is Some && d.tag->Some_0.terminated) ==> d.children is None)
    &&& (forall|i: int|
        0 <= i < child_seq(d).len() ==> terminated_childless(#[trigger] child_seq(d)[i]))
}

/// The reducer never gives children to a self-closed tag, wherever it stands
/// among the fragments, and it keeps every node well formed.
pub proof fn lemma_reduce_childless_wf(fr: Seq<DomV>)
    requires
        frags_flat(fr),
    ensures
        forall|i: int|
            0 <= i < spec_reduce(fr).0.len() ==> terminated_childless(
                #[trigger] spec_reduce(fr).0[i],
            ) && dom_wf(spec_reduce(fr).0[i]),
    decreases fr.len(),
{
    if fr.len() > 0 {
        let d = fr[0];
        let rest0 = fr.drop_first();
        assert(frags_flat(rest0)) by {
            assert(forall|i: int| 0 <= i < rest0.len() ==> #[trigger] rest0[i] == fr[i + 1]);
        }
        if !frag_is_terminator(d) {
            lemma_reduce_count(rest0);
            lemma_reduce_childless_wf(rest0);
            let du: (DomV, int) = if frag_is_open_tag(d) {
                match spec_terminator_idx(rest0, d.tag->Some_0.name) {
                    None => (d, 0),
                    Some(k) => if k == 0 {
                        (d, 1)
                    } else {
                        let inner = spec_reduce(rest0);
                        (
                            spec_with_children(d, inner.0),
                            spec_clamp_range(inner.1, 0, rest0.len() as int),
                        )
                    },
                }
            } else {
                (d, 0)
            };
            assert(terminated_childless(du.0) && dom_wf(du.0)) by {
                assert(child_seq(d) =~= Seq::<DomV>::empty());
                if du.0 != d {
                    let kids = spec_reduce(rest0).0;
                    if kids.len() > 0 {
                        assert(child_seq(du.0) =~= kids);
                    }
                }
            }
            let used = spec_clamp_range(du.1, 0, rest0.len() as int);
            let restn = rest0.skip(used);
            assert(frags_flat(restn)) by {
                assert(forall|i: int|
                    0 <= i < restn.len() ==> #[trigger] restn[i] == rest0[i + used]);
            }
            lemma_reduce_childless_wf(restn);
            lemma_reduce_count(restn);
            assert forall|i: int| 0 <= i < spec_reduce(fr).0.len() implies terminated_childless(
                #[trigger] spec_reduce(fr).0[i],
            ) && dom_wf(spec_reduce(fr).0[i]) by {
                if i == 0 {
                    assert(spec_reduce(fr).0[0] == du.0);
                } else {
                    assert(spec_reduce(fr).0[i] == spec_reduce(restn).0[i - 1]);
                }
            }
        }
    }
}

/// The node `d` with its children stripped: what declaration order is judged
/// by.
pub open spec fn shell(d: DomV) -> DomV {
    DomV { children: None, ..d }
}

/// The nodes of `s`, each with its children stripped.
pub open spec fn shells(s: Seq<DomV>) -> Seq<DomV> {
    Seq::new(s.len(), |i: int| shell(s[i]))
}

/// `a` appears inside `b` in order (not necessarily contiguously).
pub open spec fn is_subseq_of(a: Seq<DomV>, b: Seq<DomV>) -> bool
    decreases a.len() + b.len(),
{
    if a.len() == 0 {
        true
    } else if b.len() == 0 {
        false
    } else if a[0] == b[0] {
        is_subseq_of(a.drop_first(), b.drop_first())
    } else {
        is_subseq_of(a, b.drop_first())
    }
}

proof fn lemma_subseq_drop_a(a: Seq<DomV>, c: Seq<DomV>)
    requires
        a.len() > 0,
        is_subseq_of(a, c),
    ensures
        is_subseq_of(a.drop_first(), c),
    decreases a.len() + c.len(),
{
    if c.len() > 0 {
        if a[0] == c[0] {
            if a.len() > 1 {
                lemma_subseq_drop_a(a.drop_first(), c.drop_first());
                lemma_subseq_widen(a.drop_first().drop_first(), c);
            }
        } else {
            lemma_subseq_drop_a(a, c.drop_first());
            lemma_subseq_widen(a.drop_first(), c);
        }
    }
}

proof fn lemma_subseq_widen(x: Seq<DomV>, c: Seq<DomV>)
    requires
        c.len() > 0,
        is_subseq_of(x, c.drop_first()),
    ensures
        is_subseq_of(x, c),
    decreases x.len() + c.len(),
{
    if x.len() > 0 {
        if x[0] == c[0] {
            lemma_subseq_drop_a(x, c.drop_first());
        }
    }
}

proof fn lemma_subseq_skip(a: Seq<DomV>, b: Seq<DomV>, k: int)
    requires
        0 <= k <= b.len(),
        is_subseq_of(a, b.skip(k)),
    ensures
        is_subseq_of(a, b),
    decreases k,
{
    if k > 0 {
        assert(b.skip(k) =~= b.drop_first().skip(k - 1));
        lemma_subseq_skip(a, b.drop_first(), k - 1);
        lemma_subseq_widen(a, b);
    } else {
        assert(b.skip(0) =~= b);
    }
}

/// Sibling order equals declaration order: the nodes one reducer pass
/// appends to a parent, stripped of their children, form a subsequence of
/// the fragment sequence, which the segmenter emits in source order. Since
/// every child list of the tree is built by one such pass, every node's
/// children keep the order in which their fragments stood in the source.
pub proof fn lemma_reduce_sibling_order(fr: Seq<DomV>)
    ensures
        is_subseq_of(shells(spec_reduce(fr).0), shells(fr)),
    decreases fr.len(),
{
    if fr.len() == 0 {
        assert(shells(spec_reduce(fr).0) =~= Seq::<DomV>::empty());
    } else {
        let d = fr[0];
        let rest0 = fr.drop_first();
        if frag_is_terminator(d) {
            assert(shells(spec_reduce(fr).0) =~= Seq::<DomV>::empty());
        } else {
            lemma_reduce_count(rest0);
            let du: (DomV, int) = if frag_is_open_tag(d) {
                match spec_terminator_idx(rest0, d.tag->Some_0.name) {
                    None => (d, 0),
                    Some(k) => if k == 0 {
                        (d, 1)
                    } else {
                        let inner = spec_reduce(rest0);
                        (
                            spec_with_children(d, inner.0),
                            spec_clamp_range(inner.1, 0, rest0.len() as int),
                        )
                    },
                }
            } else {
                (d, 0)
            };
            let used = spec_clamp_range(du.1, 0, rest0.len() as int);
            let restn = rest0.skip(used);
            lemma_reduce_sibling_order(restn);
            lemma_reduce_count(restn);
            let outer = spec_reduce(restn).0;
            assert(shell(du.0) == shell(d));
            assert(shells(restn) =~= shells(rest0).skip(used));
            lemma_subseq_skip(shells(outer), shells(rest0), used);
            let res = spec_reduce(fr).0;
            assert(res == seq![du.0] + outer);
            assert(shells(res)[0] == shell(d) && shells(fr)[0] == shell(d));
            assert(shells(res).drop_first() =~= shells(outer));
            assert(shells(fr).drop_first() =~= shells(rest0));
        }
    }
}

/// A `script`-named opening tag captures its body verbatim: when the next
/// character is not `<` and the literal `</script` occurs later, the
/// segmenter emits the whole text between them, `<` and `>` characters
/// included, as one fragment, and goes on from the `</script`.
pub proof fn lemma_script_body_verbatim(s: Seq<char>, cur: int, acc: Seq<DomV>)
    requires
        0 <= cur < s.len() - 1,
        !spec_match_at(s, cur, "<!--"@),
        s[cur] == '<',
        spec_parse_tag(s, cur) is Ok,
        spec_parse_tag(s, cur)->Ok_0.0.tag->Some_0.name == "script"@,
        !spec_parse_tag(s, cur)->Ok_0.0.tag->Some_0.terminator,
        0 <= spec_parse_tag(s, cur)->Ok_0.1 < s.len(),
        s[spec_parse_tag(s, cur)->Ok_0.1] != '<',
        spec_find_str(s, spec_parse_tag(s, cur)->Ok_0.1, "</script"@) is Some,
    ensures
        ({
            let d = spec_parse_tag(s, cur)->Ok_0.0;
            let c2 = spec_parse_tag(s, cur)->Ok_0.1;
            let t = spec_find_str(s, c2, "</script"@)->Some_0;
            spec_lex_loop(s, cur, acc) == spec_lex_loop(
                s,
                t,
                acc.push(d).push(frag_text(s.subrange(c2, t))),
            )
        }),
{
    let d = spec_parse_tag(s, cur)->Ok_0.0;
    let c2 = spec_parse_tag(s, cur)->Ok_0.1;
    let t = spec_find_str(s, c2, "</script"@)->Some_0;
    lemma_find_str_bounds(s, c2, "</script"@);
    proof_strlit_facts();
    assert(t + "</script"@.len() <= s.len());
    assert(spec_match_at(s, t, "</script"@));
    assert(s[t] == '<') by {
        assert(s.subrange(t, t + "</script"@.len() as int)[0] == s[t]);
    }
    assert(t > c2);
    assert(spec_parse_text_script(s, c2) == Ok::<(DomV, int), ParseError>(
        (frag_text(s.subrange(c2, t)), t),
    ));
}

/// The lengths of the string literals the segmenter searches for.
proof fn proof_strlit_facts()
    ensures
        "<!--"@.len() == 4,
        "-->"@.len() == 3,
        "</script"@.len() == 8,
        "</script"@[0] == '<',
{
    reveal_strlit("<!--");
    reveal_strlit("-->");
    reveal_strlit("</script");
}

/// The attribute reader fails only with `UnterminatedAttributeValue`, as
/// long as it is given a real tag end (a `>` inside the buffer) and a buffer
/// that does not end in a space or newline.
proof fn lemma_attrs_no_slice_err(s: Seq<char>, cur: int, tag_end: int, m: Map<Seq<char>, Seq<char>>)
    requires
        0 <= cur < s.len(),
        0 <= tag_end < s.len(),
        s[tag_end] == '>',
        !crate::strutil::is_skippable(s[s.len() - 1]),
    ensures
        spec_parse_attrs(s, cur, tag_end, m) is Err ==> spec_parse_attrs(s, cur, tag_end, m)->Err_0
            == ParseError::UnterminatedAttributeValue,
    decreases s.len() - cur,
{
    if s[cur] != '>' {
        lemma_find_bounds(s, cur, '=');
        lemma_find_bounds(s, cur, ' ');
        let e1 = spec_find(s, cur, '=');
        let ae1 = if e1 is Some && e1->Some_0 < tag_end {
            e1->Some_0
        } else {
            tag_end
        };
        let sp = spec_find(s, cur, ' ');
        let attr_end = if sp is Some && sp->Some_0 < ae1 {
            sp->Some_0
        } else {
            ae1
        };
        let name = if attr_end <= cur {
            Seq::empty()
        } else {
            s.subrange(cur, attr_end)
        };
        let vc: Result<(Seq<char>, int), ParseError> = if attr_end != tag_end {
            match spec_find(s, attr_end, '=') {
                Some(e2) => if e2 < tag_end {
                    let c3 = spec_next_char(s, e2);
                    if 0 <= c3 < s.len() && s[c3] == '"' {
                        spec_parse_attr_value(s, c3, '"')
                    } else if 0 <= c3 < s.len() && s[c3] == '\'' {
                        spec_parse_attr_value(s, c3, '\'')
                    } else {
                        Ok((Seq::empty(), c3))
                    }
                } else {
                    Ok((Seq::empty(), attr_end))
                },
                None => Ok((Seq::empty(), attr_end)),
            }
        } else {
            Ok((Seq::empty(), attr_end))
        };
        lemma_find_bounds(s, attr_end, '=');
        match spec_find(s, attr_end, '=') {
            Some(e2) => {
                if e2 < tag_end {
                    lemma_skip_ws_bounds(s, e2 + 1);
                    lemma_skip_ws_past_end(s, e2 + 1);
                    let c3 = spec_next_char(s, e2);
                    lemma_find_bounds(s, spec_next(s, c3), '"');
                    lemma_find_bounds(s, spec_next(s, c3), '\'');
                }
            },
            None => {
            },
        }
        match vc {
            Ok(vcur) => {
                let cur2 = vcur.1;
                if !(0 <= cur2 < s.len() && s[cur2] == '>') {
                    assert(cur2 <= s.len() - 1);
                    lemma_skip_ws_bounds(s, cur2 + 1);
                    if cur2 + 1 <= s.len() - 1 {
                        lemma_skip_ws_past_end(s, cur2 + 1);
                    }
                    assert(spec_next_char(s, cur2) <= s.len() - 1);
                    let nxt = spec_clamp_range(spec_next_char(s, cur2), cur + 1, s.len() as int);
                    assert(nxt < s.len());
                    lemma_attrs_no_slice_err(s, nxt, tag_end, m.insert(name, vcur.0));
                }
            },
            Err(_) => {
            },
        }
    }
}

/// In a buffer that does not end in a space or newline, the whitespace skip
/// never leaves the buffer.
proof fn lemma_skip_ws_past_end(s: Seq<char>, i: int)
    requires
        s.len() > 0,
        !crate::strutil::is_skippable(s[s.len() - 1]),
        i <= s.len() - 1,
    ensures
        spec_skip_ws(s, i) <= s.len() - 1,
    decreases s.len() - i,
{
    if 0 <= i < s.len() && crate::strutil::is_skippable(s[i]) {
        lemma_skip_ws_past_end(s, i + 1);
    }
}

/// The tag reader fails only with `UnterminatedTag` or
/// `UnterminatedAttributeValue`, in a buffer that does not end in a space or
/// newline.
proof fn lemma_tag_no_slice_err(s: Seq<char>, cur: int)
    requires
        0 <= cur,
        s.len() > 0,
        !crate::strutil::is_skippable(s[s.len() - 1]),
    ensures
        spec_parse_tag(s, cur) is Err ==> spec_parse_tag(s, cur)->Err_0
            != ParseError::InvalidSlice,
{
    let c1 = spec_next(s, cur);
    let terminator = 0 <= c1 < s.len() && s[c1] == '/';
    let c2 = if terminator {
        spec_next(s, c1)
    } else {
        c1
    };
    lemma_find_bounds(s, c2, '>');
    lemma_find_bounds(s, c2, ' ');
    match spec_find(s, c2, '>') {
        None => {
        },
        Some(tag_end) => {
            let sp = spec_find(s, c2, ' ');
            let name_end = if sp is Some && sp->Some_0 < tag_end {
                sp->Some_0
            } else {
                tag_end
            };
            if s[name_end] != '>' {
                lemma_skip_ws_bounds(s, name_end + 1);
                lemma_skip_ws_past_end(s, name_end + 1);
                let c3 = spec_next_char(s, name_end);
                lemma_find_bounds(s, c3, '>');
                match spec_find(s, c3, '>') {
                    None => {
                    },
                    Some(te) => {
                        lemma_attrs_no_slice_err(s, c3, te, Map::empty());
                    },
                }
            }
        },
    }
}

/// The lexical segmenter fails only with the taxonomy's unterminated-input
/// errors, never with the slice guard.
proof fn lemma_lex_no_slice_err(s: Seq<char>, cur: int, acc: Seq<DomV>)
    requires
        0 <= cur <= s.len(),
        s.len() > 0,
        !crate::strutil::is_skippable(s[s.len() - 1]),
    ensures
        spec_lex_loop(s, cur, acc) is Err ==> spec_lex_loop(s, cur, acc)->Err_0
            != ParseError::InvalidSlice,
    decreases s.len() - cur,
{
    if 0 <= cur < s.len() - 1 {
        if spec_match_at(s, cur, "<!--"@) {
            lemma_parse_comment_bounds(s, cur);
            match spec_parse_comment(s, cur) {
                Ok((d, c2)) => {
                    lemma_lex_no_slice_err(s, c2, acc.push(d));
                },
                Err(_) => {
                },
            }
        } else if s[cur] == '<' {
            lemma_parse_tag_bounds(s, cur);
            lemma_tag_no_slice_err(s, cur);
            match spec_parse_tag(s, cur) {
                Ok((d, c2)) => {
                    lemma_parse_text_script_bounds(s, c2);
                    if d.tag->Some_0.name == "script"@ && !d.tag->Some_0.terminator && 0 <= c2
                        < s.len() && s[c2] != '<' {
                        match spec_parse_text_script(s, c2) {
                            Ok((t, c3)) => {
                                lemma_lex_no_slice_err(s, c3, acc.push(d).push(t));
                            },
                            Err(_) => {
                            },
                        }
                    } else {
                        lemma_lex_no_slice_err(s, c2, acc.push(d));
                    }
                },
                Err(_) => {
                },
            }
        } else {
            lemma_skip_ws_bounds(s, cur + 1);
            let c1 = if s[cur] == ' ' || s[cur] == '\n' {
                spec_next_char(s, cur)
            } else {
                cur
            };
            if !(0 <= c1 < s.len() && s[c1] == '<') {
                lemma_parse_text_bounds(s, c1);
                let dt = spec_parse_text(s, c1);
                lemma_lex_no_slice_err(s, dt.1, acc.push(dt.0));
            } else {
                lemma_lex_no_slice_err(s, c1, acc);
            }
        }
    }
}

/// The error taxonomy of a parse: a failed parse reports an empty input, a
/// tag without its closing `>`, a comment without its `-->`, an attribute
/// value whose quote is never closed, or a script body without its
/// `</script` (reported as an unterminated tag). The internal slice guard
/// `InvalidSlice` never surfaces from a parse.
pub proof fn lemma_parse_error_taxonomy(doc: Seq<char>)
    ensures
        spec_parse(doc) is Err ==> spec_parse(doc)->Err_0 != ParseError::InvalidSlice,
{
    let t = crate::strutil::spec_trim_end(doc);
    if t.len() > 0 {
        lemma_trim_end_last(doc);
        lemma_find_bounds(t, 0, '<');
        match spec_find(t, 0, '<') {
            None => {
            },
            Some(c0) => {
                lemma_lex_no_slice_err(t, c0, Seq::empty());
            },
        }
    }
}

/// A non-empty trimmed buffer does not end in a space or newline.
proof fn lemma_trim_end_last(doc: Seq<char>)
    requires
        crate::strutil::spec_trim_end(doc).len() > 0,
    ensures
        !crate::strutil::is_skippable(
            crate::strutil::spec_trim_end(doc)[crate::strutil::spec_trim_end(doc).len() - 1],
        ),
    decreases doc.len(),
{
    if doc.len() > 0 && crate::strutil::is_trim_char(doc.last()) {
        lemma_trim_end_last(doc.drop_last());
    }
}

/// Every fragment the segmenter emits is flat: a childless node carrying the
/// payload of its variant.
pub proof fn lemma_lex_flat(s: Seq<char>, cur: int, acc: Seq<DomV>)
    requires
        frags_flat(acc),
    ensures
        spec_lex_loop(s, cur, acc) is Ok ==> frags_flat(spec_lex_loop(s, cur, acc)->Ok_0),
    decreases s.len() - cur,
{
    if 0 <= cur < s.len() - 1 {
        if spec_match_at(s, cur, "<!--"@) {
            lemma_parse_comment_bounds(s, cur);
            match spec_parse_comment(s, cur) {
                Ok((d, c2)) => {
                    assert(frags_flat(acc.push(d))) by {
                        assert(forall|i: int| 0 <= i < acc.len() ==> acc.push(d)[i] == acc[i]);
                    }
                    lemma_lex_flat(s, c2, acc.push(d));
                },
                Err(_) => {
                },
            }
        } else if s[cur] == '<' {
            lemma_parse_tag_bounds(s, cur);
            match spec_parse_tag(s, cur) {
                Ok((d, c2)) => {
                    assert(frags_flat(acc.push(d))) by {
                        assert(forall|i: int| 0 <= i < acc.len() ==> acc.push(d)[i] == acc[i]);
                    }
                    if d.tag->Some_0.name == "script"@ && !d.tag->Some_0.terminator && 0 <= c2
                        < s.len() && s[c2] != '<' {
                        lemma_parse_text_script_bounds(s, c2);
                        match spec_parse_text_script(s, c2) {
                            Ok((t, c3)) => {
                                assert(frags_flat(acc.push(d).push(t))) by {
                                    assert(forall|i: int|
                                        0 <= i < acc.push(d).len() ==> acc.push(d).push(t)[i]
                                            == acc.push(d)[i]);
                                }
                                lemma_lex_flat(s, c3, acc.push(d).push(t));
                            },
                            Err(_) => {
                            },
                        }
                    } else {
                        lemma_lex_flat(s, c2, acc.push(d));
                    }
                },
                Err(_) => {
                },
            }
        } else {
            lemma_skip_ws_bounds(s, cur + 1);
            let c1 = if s[cur] == ' ' || s[cur] == '\n' {
                spec_next_char(s, cur)
            } else {
                cur
            };
            if !(0 <= c1 < s.len() && s[c1] == '<') {
                lemma_parse_text_bounds(s, c1);
                let dt = spec_parse_text(s, c1);
                assert(frags_flat(acc.push(dt.0))) by {
                    assert(forall|i: int| 0 <= i < acc.len() ==> acc.push(dt.0)[i] == acc[i]);
                }
                lemma_lex_flat(s, dt.1, acc.push(dt.0));
            } else {
                lemma_lex_flat(s, c1, acc);
            }
        }
    }
}

/// A parsed tree is well formed throughout, and no self-closed tag anywhere
/// in it has children, whatever stood around it in the source.
pub proof fn lemma_parse_childless_wf(doc: Seq<char>)
    requires
        spec_parse(doc) is Ok,
    ensures
        dom_wf(spec_parse(doc)->Ok_0),
        terminated_childless(spec_parse(doc)->Ok_0),
{
    let t = crate::strutil::spec_trim_end(doc);
    let frags = spec_lex(t)->Ok_0;
    assert(frags_flat(Seq::<DomV>::empty()));
    match spec_find(t, 0, '<') {
        None => {
            assert(frags_flat(frags));
        },
        Some(c0) => {
            lemma_lex_flat(t, c0, Seq::empty());
        },
    }
    lemma_reduce_childless_wf(frags);
    let root = spec_parse(doc)->Ok_0;
    let kids = spec_reduce(frags).0;
    assert forall|i: int| 0 <= i < child_seq(root).len() implies dom_wf(
        #[trigger] child_seq(root)[i],
    ) && terminated_childless(child_seq(root)[i]) by {
        assert(child_seq(root)[i] == kids[i]);
    }
}

/// Sibling order in a parsed tree equals declaration order in the source:
/// the root's children, stripped of their own children, form a subsequence
/// of the fragment sequence, which the segmenter emits in source order; the
/// same holds below, since every child list is built by one reducer pass.
pub proof fn lemma_parse_sibling_order(doc: Seq<char>)
    requires
        spec_parse(doc) is Ok,
    ensures
        is_subseq_of(
            shells(child_seq(spec_parse(doc)->Ok_0)),
            shells(spec_lex(crate::strutil::spec_trim_end(doc))->Ok_0),
        ),
{
    let t = crate::strutil::spec_trim_end(doc);
    let frags = spec_lex(t)->Ok_0;
    lemma_reduce_sibling_order(frags);
    let root = spec_parse(doc)->Ok_0;
    assert(child_seq(root) =~= spec_reduce(frags).0);
}

/// The whole parse of a document: the text is trimmed of trailing
/// whitespace, segmented into fragments, and reduced into the children of a
/// synthetic root node named `root`.
pub open spec fn spec_parse(doc: Seq<char>) -> Result<DomV, ParseError> {
    let t = crate::strutil::spec_trim_end(doc);
    if t.len() == 0 {
        Err(ParseError::EmptyInput)
    } else {
        match spec_lex(t) {
            Err(err) => Err(err),
            Ok(frags) => {
                let kids = spec_reduce(frags).0;
                Ok(
                    DomV {
                        dom_type: DomType::Tag,
                        tag: Some(
                            TagV {
                                name: "root"@,
                                attrs: None,
                                terminated: false,
                                terminator: false,
                            },
                        ),
                        text: None,
                        comment: None,
                        children: if kids.len() > 0 {
                            Some(kids)
                        } else {
                            None
                        },
                    },
                )
            },
        }
    }
}


/// Parses the tag document and returns the tree of nodes, wrapped in a
/// synthetic root node named `root`.
///
/// # Errors
/// * `EmptyInput` when nothing remains after trimming trailing whitespace.
/// * `UnterminatedTag` when a tag has no closing `>`, or a script body never
///   reaches its `</script`.
/// * `UnterminatedComment` when a `<!--` has no following `-->`.
/// * `UnterminatedAttributeValue` when the opening quote of an attribute
///   value is never closed.
///
/// `InvalidSlice`, the guard of the cursor's own slice extraction, never
/// comes out of a parse: see `lemma_parse_error_taxonomy`.
pub fn parse(doc: &str) -> (r: Result<Dom, ParseError>)
    ensures
        r is Ok <==> spec_parse(doc@) is Ok,
        r is Ok ==> r->Ok_0@ == spec_parse(doc@)->Ok_0,
        r is Ok ==> dom_wf(r->Ok_0@),
        r is Err ==> r->Err_0 == spec_parse(doc@)->Err_0,
{
    let mut input = match Input::new(doc) {
        Ok(i) => i,
        Err(e) => {
            return Err(e);
        },
    };
    let mut dom_vec = match create_dom_vec(&mut input) {
        Ok(v) => v,
        Err(e) => {
            return Err(e);
        },
    };
    let ghost frags = doms_view(dom_vec@);
    let mut root_dom = Dom::new_root();
    create_dom_tree(&mut dom_vec, &mut root_dom);
    proof {
        let kids = spec_reduce(frags).0;
        if kids.len() > 0 {
            assert(Seq::<DomV>::empty() + kids =~= kids);
        }
        assert(root_dom@ == spec_parse(doc@)->Ok_0);
        lemma_parse_childless_wf(doc@);
    }
    Ok(root_dom)
}


/// Relies on std's `io::stdout` and the `write!` macro: sends the string to
/// standard output; a failed write is ignored, as a print would.
#[verifier::external_body]
fn write_stdout(s: &str) {
    let _ = write!(std::io::stdout(), "{}", s);
}

/// Output the tree under `dom` on standard output, in a human-readable,
/// indented form: one line per node, tags with their attributes, text and
/// comment leaves with newlines escaped. A debugging aid consuming the
/// finished tree.
pub fn print_dom_tree(dom: &Dom)
    ensures
        true,
{
    let mut out = String::new();
    crate::dom::dump_tree_text(&mut out, dom, "");
    write_stdout(out.as_str());
}

} // verus!
