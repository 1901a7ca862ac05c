//! The attribute tokenizer: splits the attribute text of one opening tag
//! into key/value pairs.
//!
//! Between tokens, runs of whitespace are skipped. A key is a run of ASCII
//! letters immediately followed by `=`; the `=` is consumed but not stored.
//! A value is a double quote, one or more characters up to the next double
//! quote, and that quote; it is stored verbatim, quotes included. Each key
//! token must be followed by another token, whose whole matched slice is
//! taken as the key's value whatever kind it classifies as; duplicate keys
//! overwrite earlier ones, left to right.

use vstd::prelude::*;
use crate::dom::{upsert, AttrMap};
use crate::errors::ParseError;
use crate::scan::{
    ascii_letter, find_char, is_ascii_letter, is_ws_char, lemma_find_char,
    lemma_find_char_is_none, lemma_find_char_is_some, lemma_letter_end, lemma_letter_end_is,
    lemma_ws_end, lemma_ws_end_is, letter_end, scan_find_char, scan_letter_end, scan_ws_end,
    vec_subrange, ws_end,
};

verus! {

/// The two kinds of attribute token.
#[derive(Debug, Clone, Copy, PartialEq, Eq, Structural)]
pub enum AttributeToken {
    Key,
    Value,
}

/// The token starting at position `i` of `s`, with the position just past
/// it; `None` when no token pattern matches there.
pub open spec fn attr_token_at(s: Seq<char>, i: int) -> Option<(AttributeToken, int)> {
    if is_ascii_letter(s[i]) {
        let e = letter_end(s, i);
        if e < s.len() && s[e] == '=' {
            Some((AttributeToken::Key, e + 1))
        } else {
            None
        }
    } else if s[i] == '"' {
        match find_char(s, i + 1, '"') {
            Some(q) => if q > i + 1 {
                Some((AttributeToken::Value, q + 1))
            } else {
                None
            },
            None => None,
        }
    } else {
        None
    }
}

/// The pairs stored after reading the attribute text of `s` from `i` on,
/// starting from the pairs in `acc`; an error when the text does not have
/// the key/value shape.
pub open spec fn attr_parse_from(
    s: Seq<char>,
    i: int,
    acc: Seq<(Seq<char>, Seq<char>)>,
) -> Result<Seq<(Seq<char>, Seq<char>)>, ParseError>
    decreases s.len() - i when 0 <= i <= s.len()
    via attr_parse_from_decreases
{
    let w = ws_end(s, i);
    if w == s.len() {
        Ok(acc)
    } else {
        match attr_token_at(s, w) {
            Some((AttributeToken::Key, e)) => {
                let k = s.subrange(w, e - 1);
                let w2 = ws_end(s, e);
                if w2 == s.len() {
                    Err(ParseError::MalformedAttributeError)
                } else {
                    match attr_token_at(s, w2) {
                        Some((t2, e2)) => attr_parse_from(s, e2, upsert(acc, k, s.subrange(w2, e2))),
                        None => Err(ParseError::MalformedAttributeError),
                    }
                }
            },
            _ => Err(ParseError::MalformedAttributeError),
        }
    }
}

#[via_fn]
proof fn attr_parse_from_decreases(s: Seq<char>, i: int, acc: Seq<(Seq<char>, Seq<char>)>) {
    lemma_ws_end(s, i);
    let w = ws_end(s, i);
    if w < s.len() {
        lemma_attr_token_at(s, w);
        match attr_token_at(s, w) {
            Some((AttributeToken::Key, e)) => {
                lemma_ws_end(s, e);
                let w2 = ws_end(s, e);
                if w2 < s.len() {
                    lemma_attr_token_at(s, w2);
                }
            },
            _ => {},
        }
    }
}

/// A token starting at `i` ends past `i` and within `s`.
pub proof fn lemma_attr_token_at(s: Seq<char>, i: int)
    requires
        0 <= i < s.len(),
    ensures
        match attr_token_at(s, i) {
            Some((t, e)) => i < e <= s.len(),
            None => true,
        },
{
    if is_ascii_letter(s[i]) {
        lemma_letter_end(s, i);
    } else if s[i] == '"' {
        lemma_find_char(s, i + 1, '"');
    }
}

/// Attribute parsing keeps keys unique: starting from unique-keyed pairs,
/// every successful parse returns unique-keyed pairs.
pub proof fn lemma_attr_parse_unique(s: Seq<char>, i: int, acc: Seq<(Seq<char>, Seq<char>)>)
    requires
        0 <= i <= s.len(),
        crate::dom::attr_keys_unique(acc),
    ensures
        match attr_parse_from(s, i, acc) {
            Ok(pairs) => crate::dom::attr_keys_unique(pairs),
            Err(e) => true,
        },
    decreases s.len() - i,
{
    lemma_ws_end(s, i);
    let w = ws_end(s, i);
    if w < s.len() {
        lemma_attr_token_at(s, w);
        match attr_token_at(s, w) {
            Some((t, e)) => {
                if t == AttributeToken::Key {
                    let k = s.subrange(w, e - 1);
                    lemma_ws_end(s, e);
                    let w2 = ws_end(s, e);
                    if w2 < s.len() {
                        lemma_attr_token_at(s, w2);
                        match attr_token_at(s, w2) {
                            Some((t2, e2)) => {
                                crate::dom::lemma_upsert(acc, k, s.subrange(w2, e2));
                                lemma_attr_parse_unique(s, e2, crate::dom::upsert(
                                    acc,
                                    k,
                                    s.subrange(w2, e2),
                                ));
                            },
                            None => {},
                        }
                    }
                }
            },
            None => {},
        }
    }
}

/// Token classification reads only the suffix at hand: equal suffixes carry
/// the same token, shifted.
pub proof fn lemma_attr_token_shift(s1: Seq<char>, w1: int, s2: Seq<char>, w2: int)
    requires
        0 <= w1 < s1.len(),
        0 <= w2 < s2.len(),
        s1.skip(w1) == s2.skip(w2),
    ensures
        attr_token_at(s2, w2) == (match attr_token_at(s1, w1) {
            Some((t, e)) => Some((t, e - w1 + w2)),
            None => None,
        }),
        match attr_token_at(s1, w1) {
            Some((t, e)) => w1 < e <= s1.len() && s1.subrange(w1, e) == s2.subrange(
                w2,
                e - w1 + w2,
            ),
            None => true,
        },
{
    assert(s1.len() - w1 == s2.len() - w2) by {
        assert(s1.skip(w1).len() == s1.len() - w1);
        assert(s2.skip(w2).len() == s2.len() - w2);
        assert(s1.skip(w1).len() == s2.skip(w2).len());
    }
    assert forall|k: int| w1 <= k < s1.len() implies #[trigger] s1[k] == s2[k - w1 + w2] by {
        assert(s1.skip(w1)[k - w1] == s1[k]);
        assert(s2.skip(w2)[k - w1] == s2[k - w1 + w2]);
    }
    assert forall|k: int| w2 <= k < s2.len() implies #[trigger] s2[k] == s1[k - w2 + w1] by {
        assert(s1.skip(w1)[k - w2] == s1[k - w2 + w1]);
        assert(s2.skip(w2)[k - w2] == s2[k]);
    }
    lemma_attr_token_at(s1, w1);
    assert(s2[w2] == s1[w1]);
    if is_ascii_letter(s1[w1]) {
        lemma_letter_end(s1, w1);
        let e1 = letter_end(s1, w1);
        lemma_letter_end_is(s2, w2, e1 - w1 + w2);
        if e1 < s1.len() && s1[e1] == '=' {
            assert(s2[e1 - w1 + w2] == s1[e1]);
            assert(s1.subrange(w1, e1 + 1) =~= s2.subrange(w2, e1 + 1 - w1 + w2));
        }
    } else if s1[w1] == '"' {
        lemma_find_char(s1, w1 + 1, '"');
        match find_char(s1, w1 + 1, '"') {
            Some(q1) => {
                lemma_find_char_is_some(s2, w2 + 1, '"', q1 - w1 + w2);
                if q1 > w1 + 1 {
                    assert(s1.subrange(w1, q1 + 1) =~= s2.subrange(w2, q1 + 1 - w1 + w2));
                }
            },
            None => {
                lemma_find_char_is_none(s2, w2 + 1, '"');
            },
        }
    }
}

/// Attribute parsing reads only the suffix at hand: equal suffixes parse to
/// the same pairs.
#[verifier::rlimit(50)]
pub proof fn lemma_attr_parse_shift(
    s1: Seq<char>,
    i1: int,
    s2: Seq<char>,
    i2: int,
    acc: Seq<(Seq<char>, Seq<char>)>,
)
    requires
        0 <= i1 <= s1.len(),
        0 <= i2 <= s2.len(),
        s1.skip(i1) == s2.skip(i2),
    ensures
        attr_parse_from(s1, i1, acc) == attr_parse_from(s2, i2, acc),
    decreases s1.len() - i1,
{
    assert(s1.len() - i1 == s2.len() - i2) by {
        assert(s1.skip(i1).len() == s1.len() - i1);
        assert(s2.skip(i2).len() == s2.len() - i2);
        assert(s1.skip(i1).len() == s2.skip(i2).len());
    }
    assert forall|k: int| i1 <= k < s1.len() implies #[trigger] s1[k] == s2[k - i1 + i2] by {
        assert(s1.skip(i1)[k - i1] == s1[k]);
        assert(s2.skip(i2)[k - i1] == s2[k - i1 + i2]);
    }
    assert forall|k: int| i2 <= k < s2.len() implies #[trigger] s2[k] == s1[k - i2 + i1] by {
        assert(s1.skip(i1)[k - i2] == s1[k - i2 + i1]);
        assert(s2.skip(i2)[k - i2] == s2[k]);
    }
    lemma_ws_end(s1, i1);
    let w1 = ws_end(s1, i1);
    let w2 = w1 - i1 + i2;
    lemma_ws_end_is(s2, i2, w2);
    if w1 == s1.len() {
    } else {
        assert(s1.skip(w1) =~= s2.skip(w2));
        lemma_attr_token_shift(s1, w1, s2, w2);
        match attr_token_at(s1, w1) {
            Some((t, e1)) => {
                if t == AttributeToken::Key {
                    let e2 = e1 - w1 + w2;
                    let k1 = s1.subrange(w1, e1 - 1);
                    assert(k1 =~= s2.subrange(w2, e2 - 1));
                    lemma_ws_end(s1, e1);
                    let v1 = ws_end(s1, e1);
                    let v2 = v1 - e1 + e2;
                    lemma_ws_end_is(s2, e2, v2);
                    if v1 == s1.len() {
                    } else {
                        assert(s1.skip(v1) =~= s2.skip(v2));
                        lemma_attr_token_shift(s1, v1, s2, v2);
                        match attr_token_at(s1, v1) {
                            Some((t2, f1)) => {
                                let f2 = f1 - v1 + v2;
                                assert(s1.subrange(v1, f1) =~= s2.subrange(v2, f2));
                                assert(s1.skip(f1) =~= s2.skip(f2));
                                lemma_attr_parse_shift(
                                    s1,
                                    f1,
                                    s2,
                                    f2,
                                    upsert(acc, k1, s1.subrange(v1, f1)),
                                );
                            },
                            None => {},
                        }
                    }
                }
            },
            None => {},
        }
    }
}

/// All-whitespace text before the first token does not affect attribute
/// parsing.
pub proof fn lemma_attr_parse_ws_prefix(
    w: Seq<char>,
    r: Seq<char>,
    acc: Seq<(Seq<char>, Seq<char>)>,
)
    requires
        forall|k: int| 0 <= k < w.len() ==> is_ws_char(w[k]),
    ensures
        attr_parse_from(w + r, 0, acc) == attr_parse_from(r, 0, acc),
{
    let s = w + r;
    assert(s.skip(w.len() as int) =~= r.skip(0));
    lemma_attr_parse_shift(s, w.len() as int, r, 0, acc);
    lemma_ws_end(s, w.len() as int);
    lemma_ws_end_is(s, 0, ws_end(s, w.len() as int));
    assert(attr_parse_from(s, 0, acc) == attr_parse_from(s, w.len() as int, acc));
}

/// Classifies the token starting at `i`, returning its kind and the
/// position just past it.
pub fn attr_next(s: &Vec<char>, i: usize) -> (r: Option<(AttributeToken, usize)>)
    requires
        i < s@.len(),
    ensures
        match r {
            Some((t, e)) => attr_token_at(s@, i as int) == Some((t, e as int)) && i < e
                <= s@.len(),
            None => attr_token_at(s@, i as int) is None,
        },
{
    proof {
        lemma_attr_token_at(s@, i as int);
        assert(s@.len() <= usize::MAX) by {
            assert(s.len() == s@.len());
        }
    }
    if ascii_letter(s[i]) {
        let e = scan_letter_end(s, i);
        if e < s.len() && s[e] == '=' {
            Some((AttributeToken::Key, e + 1))
        } else {
            None
        }
    } else if s[i] == '"' {
        match scan_find_char(s, i + 1, '"') {
            Some(q) => if q > i + 1 {
                Some((AttributeToken::Value, q + 1))
            } else {
                None
            },
            None => None,
        }
    } else {
        None
    }
}

/// Reads the attribute text of `s` from `start` on and builds the attribute
/// mapping, duplicate keys overwritten left to right.
pub fn parse_attributes(s: &Vec<char>, start: usize) -> (r: Result<AttrMap, ParseError>)
    requires
        start <= s@.len(),
    ensures
        match r {
            Ok(m) => attr_parse_from(s@, start as int, Seq::empty()) == Ok::<
                Seq<(Seq<char>, Seq<char>)>,
                ParseError,
            >(m@) && m.wf(),
            Err(e) => attr_parse_from(s@, start as int, Seq::empty()) == Err::<
                Seq<(Seq<char>, Seq<char>)>,
                ParseError,
            >(e),
        },
{
    let mut m = AttrMap::new();
    let mut i: usize = start;
    loop
        invariant
            start <= i <= s@.len(),
            m.wf(),
            attr_parse_from(s@, start as int, Seq::empty()) == attr_parse_from(s@, i as int, m@),
        decreases s@.len() - i,
    {
        let w = scan_ws_end(s, i);
        if w == s.len() {
            return Ok(m);
        }
        match attr_next(s, w) {
            Some((AttributeToken::Key, e)) => {
                let key = vec_subrange(s, w, e - 1);
                let w2 = scan_ws_end(s, e);
                if w2 == s.len() {
                    return Err(ParseError::MalformedAttributeError);
                }
                match attr_next(s, w2) {
                    Some((_, e2)) => {
                        let value = vec_subrange(s, w2, e2);
                        let ghost old_m = m@;
                        m.insert(key, value);
                        proof {
                            assert(attr_parse_from(s@, i as int, old_m) == attr_parse_from(
                                s@,
                                e2 as int,
                                m@,
                            ));
                        }
                        i = e2;
                    },
                    None => {
                        return Err(ParseError::MalformedAttributeError);
                    },
                }
            },
            _ => {
                return Err(ParseError::MalformedAttributeError);
            },
        }
    }
}

} // verus!
