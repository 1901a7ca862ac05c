//! The element extractor and the top-level tokenizer.
//!
//! The top-level tokenizer scans the input left to right and classifies each
//! maximal match, in strict priority order, as a closing tag `</...>`, a
//! self-closing tag `<.../>`, an opening tag `<...>`, or a text run free of
//! `<` and `>`. Every tag token carries its element, extracted from the text
//! between the delimiters: the tag name is the first whitespace-delimited
//! run, and what follows it is handed to the attribute tokenizer.

use vstd::prelude::*;
use crate::attr::{attr_parse_from, lemma_attr_parse_unique, parse_attributes};
use crate::dom::{attr_keys_unique, element_v_wf, Element, ElementV, Text};
use crate::errors::ParseError;
use crate::scan::{
    find_char, is_ws_char, lemma_find_char, lemma_name_end, lemma_name_end_is, lemma_text_end,
    lemma_ws_end, lemma_ws_end_is, name_end, no_slash, scan_find_char, scan_has_slash,
    scan_name_end, scan_text_end, scan_ws_end, text_end, vec_subrange, ws_end,
};

verus! {

/// The element named by a tag's inner text `s`: the name is the first
/// whitespace-delimited run, the rest is attribute text. Fails when the text
/// holds no name at all.
pub open spec fn extract_spec(s: Seq<char>) -> Result<ElementV, ParseError> {
    let w = ws_end(s, 0);
    if w >= s.len() {
        Err(ParseError::MalformedTagError)
    } else {
        let n = name_end(s, w);
        match attr_parse_from(s, n, Seq::empty()) {
            Ok(pairs) => Ok(ElementV { tag_name: s.subrange(w, n), attributes: pairs }),
            Err(e) => Err(e),
        }
    }
}

/// Extracts the element named by the text of `s` between `lo` (inclusive)
/// and `hi` (exclusive), a tag's text with the delimiters already shed.
pub fn parse_element(s: &Vec<char>, lo: usize, hi: usize) -> (r: Result<Element, ParseError>)
    requires
        lo <= hi <= s@.len(),
    ensures
        match r {
            Ok(e) => extract_spec(s@.subrange(lo as int, hi as int)) == Ok::<
                ElementV,
                ParseError,
            >(e@) && attr_keys_unique(e@.attributes),
            Err(pe) => extract_spec(s@.subrange(lo as int, hi as int)) == Err::<
                ElementV,
                ParseError,
            >(pe),
        },
{
    let inner = vec_subrange(s, lo, hi);
    let w = scan_ws_end(&inner, 0);
    if w == inner.len() {
        return Err(ParseError::MalformedTagError);
    }
    let n = scan_name_end(&inner, w);
    let tag_name = vec_subrange(&inner, w, n);
    match parse_attributes(&inner, n) {
        Ok(m) => Ok(Element { tag_name, attributes: m }),
        Err(e) => Err(e),
    }
}

/// Every extracted element is well formed: its tag name is non-empty and
/// its attribute keys are unique.
pub proof fn lemma_extract_wf(s: Seq<char>)
    ensures
        match extract_spec(s) {
            Ok(e) => element_v_wf(e),
            Err(pe) => true,
        },
{
    lemma_ws_end(s, 0);
    let w = ws_end(s, 0);
    if w < s.len() {
        lemma_name_end(s, w);
        lemma_attr_parse_unique(s, name_end(s, w), Seq::empty());
    }
}

/// A tag's inner text extracts to its name and the parse of what follows
/// the whitespace after the name, whatever whitespace stands around them.
pub proof fn lemma_extract_form(w0: Seq<char>, name: Seq<char>, w1: Seq<char>, rest: Seq<char>)
    requires
        forall|k: int| 0 <= k < w0.len() ==> is_ws_char(w0[k]),
        forall|k: int| 0 <= k < w1.len() ==> is_ws_char(w1[k]),
        name.len() > 0,
        forall|k: int| 0 <= k < name.len() ==> !is_ws_char(name[k]),
        w1.len() > 0 || rest.len() == 0 || is_ws_char(rest[0]),
    ensures
        extract_spec(w0 + name + w1 + rest) == (match attr_parse_from(rest, 0, Seq::empty()) {
            Ok(pairs) => Ok::<ElementV, ParseError>(
                ElementV { tag_name: name, attributes: pairs },
            ),
            Err(e) => Err::<ElementV, ParseError>(e),
        }),
{
    let s = w0 + name + w1 + rest;
    let n0 = w0.len() + name.len();
    assert forall|k: int| 0 <= k < w0.len() implies #[trigger] s[k] == w0[k] by {}
    assert forall|k: int| w0.len() <= k < n0 implies #[trigger] s[k] == name[k - w0.len()] by {}
    lemma_ws_end_is(s, 0, w0.len() as int);
    if n0 < s.len() {
        if w1.len() > 0 {
            assert(s[n0 as int] == w1[0]);
        } else {
            assert(s[n0 as int] == rest[0]);
        }
    }
    lemma_name_end_is(s, w0.len() as int, n0 as int);
    assert(s.subrange(w0.len() as int, n0 as int) =~= name);
    assert(s.skip(n0 as int) =~= (w1 + rest).skip(0));
    crate::attr::lemma_attr_parse_shift(s, n0 as int, w1 + rest, 0, Seq::empty());
    crate::attr::lemma_attr_parse_ws_prefix(w1, rest, Seq::empty());
}

/// Law: parsing a tag's inner text is insensitive to superficial whitespace
/// beyond what separates the tag name from the attributes — the leading run
/// and the run after the name may change freely.
pub proof fn lemma_extract_ws_insensitive(
    w0: Seq<char>,
    name: Seq<char>,
    w1: Seq<char>,
    w0b: Seq<char>,
    w1b: Seq<char>,
    rest: Seq<char>,
)
    requires
        forall|k: int| 0 <= k < w0.len() ==> is_ws_char(w0[k]),
        forall|k: int| 0 <= k < w1.len() ==> is_ws_char(w1[k]),
        forall|k: int| 0 <= k < w0b.len() ==> is_ws_char(w0b[k]),
        forall|k: int| 0 <= k < w1b.len() ==> is_ws_char(w1b[k]),
        name.len() > 0,
        forall|k: int| 0 <= k < name.len() ==> !is_ws_char(name[k]),
        w1.len() > 0 || rest.len() == 0 || is_ws_char(rest[0]),
        w1b.len() > 0 || rest.len() == 0 || is_ws_char(rest[0]),
    ensures
        extract_spec(w0 + name + w1 + rest) == extract_spec(w0b + name + w1b + rest),
{
    lemma_extract_form(w0, name, w1, rest);
    lemma_extract_form(w0b, name, w1b, rest);
}

/// Every element a token carries is well formed.
pub proof fn lemma_next_token_wf(s: Seq<char>, i: int)
    requires
        0 <= i <= s.len(),
    ensures
        match next_token_spec(s, i) {
            Ok(Some((t, j))) => match t {
                TokenV::OpenTagEnd(e) => element_v_wf(e),
                TokenV::CloseTag(e) => element_v_wf(e),
                TokenV::OpenTagStart(e) => element_v_wf(e),
                TokenV::Text(d) => true,
            },
            _ => true,
        },
{
    if i < s.len() && s[i] == '<' {
        lemma_find_char(s, i + 1, '>');
        match find_char(s, i + 1, '>') {
            Some(j) => {
                if i + 1 < j && s[i + 1] == '/' && i + 2 < j {
                    lemma_extract_wf(s.subrange(i + 2, j));
                } else if i + 2 < j && s[j - 1] == '/' {
                    lemma_extract_wf(s.subrange(i + 1, j - 1));
                } else if i + 1 < j && no_slash(s, i + 1, j) {
                    lemma_extract_wf(s.subrange(i + 1, j));
                }
            },
            None => {},
        }
    }
}

/// A top-level token: a closing tag, a self-closing tag, an opening tag, or
/// a text run. Tag tokens carry their extracted element; a text token
/// carries the matched run itself.
#[derive(Debug, PartialEq)]
pub enum TopLevelToken {
    OpenTagEnd(Element),
    CloseTag(Element),
    OpenTagStart(Element),
    Text(Text),
}

/// Model of a top-level token.
#[verifier::ext_equal]
pub enum TokenV {
    OpenTagEnd(ElementV),
    CloseTag(ElementV),
    OpenTagStart(ElementV),
    Text(Seq<char>),
}

impl View for TopLevelToken {
    type V = TokenV;

    open spec fn view(&self) -> TokenV {
        match self {
            TopLevelToken::OpenTagEnd(e) => TokenV::OpenTagEnd(e@),
            TopLevelToken::CloseTag(e) => TokenV::CloseTag(e@),
            TopLevelToken::OpenTagStart(e) => TokenV::OpenTagStart(e@),
            TopLevelToken::Text(t) => TokenV::Text(t.data@),
        }
    }
}

/// The token whose match starts at position `i` of `s`, with the position
/// just past the match:
///
/// - `Ok(None)`: the end of the input.
/// - at `<`, the text up to the next `>` is a tag; it is a closing tag when
///   it starts with `</` (checked first), a self-closing tag when it ends
///   with `/>`, and an opening tag when it holds no `/`, each with non-empty
///   inner text; anything else at `<`, or a missing `>`, fails.
/// - a bare `>` fails.
/// - anything else starts a maximal run of text free of `<` and `>`.
pub open spec fn next_token_spec(s: Seq<char>, i: int) -> Result<
    Option<(TokenV, int)>,
    ParseError,
> {
    if i >= s.len() {
        Ok(None)
    } else if s[i] == '<' {
        match find_char(s, i + 1, '>') {
            None => Err(ParseError::TokenizeError),
            Some(j) => {
                if i + 1 < j && s[i + 1] == '/' && i + 2 < j {
                    match extract_spec(s.subrange(i + 2, j)) {
                        Ok(e) => Ok(Some((TokenV::OpenTagEnd(e), j + 1))),
                        Err(pe) => Err(pe),
                    }
                } else if i + 2 < j && s[j - 1] == '/' {
                    match extract_spec(s.subrange(i + 1, j - 1)) {
                        Ok(e) => Ok(Some((TokenV::CloseTag(e), j + 1))),
                        Err(pe) => Err(pe),
                    }
                } else if i + 1 < j && no_slash(s, i + 1, j) {
                    match extract_spec(s.subrange(i + 1, j)) {
                        Ok(e) => Ok(Some((TokenV::OpenTagStart(e), j + 1))),
                        Err(pe) => Err(pe),
                    }
                } else {
                    Err(ParseError::TokenizeError)
                }
            },
        }
    } else if s[i] == '>' {
        Err(ParseError::TokenizeError)
    } else {
        Ok(Some((TokenV::Text(s.subrange(i, text_end(s, i))), text_end(s, i))))
    }
}

/// A matched token ends past `i` and within `s`.
pub proof fn lemma_next_token_bounds(s: Seq<char>, i: int)
    requires
        0 <= i <= s.len(),
    ensures
        match next_token_spec(s, i) {
            Ok(Some((t, j))) => i < j <= s.len(),
            _ => true,
        },
{
    if i < s.len() {
        if s[i] == '<' {
            lemma_find_char(s, i + 1, '>');
        } else if s[i] != '>' {
            lemma_text_end(s, i);
        }
    }
}

/// Matches the token starting at position `i`, returning it with the
/// position just past its match.
pub fn next_token(s: &Vec<char>, i: usize) -> (r: Result<
    Option<(TopLevelToken, usize)>,
    ParseError,
>)
    requires
        i <= s@.len(),
    ensures
        match r {
            Ok(None) => next_token_spec(s@, i as int) == Ok::<Option<(TokenV, int)>, ParseError>(
                None,
            ),
            Ok(Some((t, j))) => next_token_spec(s@, i as int) == Ok::<
                Option<(TokenV, int)>,
                ParseError,
            >(Some((t@, j as int))) && i < j <= s@.len(),
            Err(e) => next_token_spec(s@, i as int) == Err::<Option<(TokenV, int)>, ParseError>(e),
        },
{
    proof {
        lemma_next_token_bounds(s@, i as int);
    }
    if i == s.len() {
        return Ok(None);
    }
    if s[i] == '<' {
        match scan_find_char(s, i + 1, '>') {
            None => Err(ParseError::TokenizeError),
            Some(j) => {
                if i + 1 < j && s[i + 1] == '/' && i + 2 < j {
                    match parse_element(s, i + 2, j) {
                        Ok(e) => Ok(Some((TopLevelToken::OpenTagEnd(e), j + 1))),
                        Err(pe) => Err(pe),
                    }
                } else if i + 2 < j && s[j - 1] == '/' {
                    match parse_element(s, i + 1, j - 1) {
                        Ok(e) => Ok(Some((TopLevelToken::CloseTag(e), j + 1))),
                        Err(pe) => Err(pe),
                    }
                } else if i + 1 < j && !scan_has_slash(s, i + 1, j) {
                    match parse_element(s, i + 1, j) {
                        Ok(e) => Ok(Some((TopLevelToken::OpenTagStart(e), j + 1))),
                        Err(pe) => Err(pe),
                    }
                } else {
                    Err(ParseError::TokenizeError)
                }
            },
        }
    } else if s[i] == '>' {
        Err(ParseError::TokenizeError)
    } else {
        let e = scan_text_end(s, i);
        let data = vec_subrange(s, i, e);
        Ok(Some((TopLevelToken::Text(Text { data }), e)))
    }
}

} // verus!
