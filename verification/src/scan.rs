//! Character classes and left-to-right scanning primitives shared by the
//! tokenizers: maximal runs of a class, and the first occurrence of a
//! delimiter character.

use vstd::prelude::*;

verus! {

/// Whitespace as the tokenizers treat it: space, tab, newline, form feed.
pub open spec fn is_ws_char(c: char) -> bool {
    c == ' ' || c == '\t' || c == '\n' || c == '\u{c}'
}

/// An ASCII letter, the only characters an attribute key may contain.
pub open spec fn is_ascii_letter(c: char) -> bool {
    ('a' as u32) <= (c as u32) && (c as u32) <= ('z' as u32)
        || ('A' as u32) <= (c as u32) && (c as u32) <= ('Z' as u32)
}

/// A character that may stand in a top-level text run: anything but a tag
/// delimiter.
pub open spec fn is_text_char(c: char) -> bool {
    c != '<' && c != '>'
}

/// End of the maximal whitespace run starting at `i`.
pub open spec fn ws_end(s: Seq<char>, i: int) -> int
    decreases s.len() - i when 0 <= i <= s.len()
{
    if i >= s.len() {
        i
    } else if is_ws_char(s[i]) {
        ws_end(s, i + 1)
    } else {
        i
    }
}

/// End of the maximal non-whitespace run starting at `i`.
pub open spec fn name_end(s: Seq<char>, i: int) -> int
    decreases s.len() - i when 0 <= i <= s.len()
{
    if i >= s.len() {
        i
    } else if !is_ws_char(s[i]) {
        name_end(s, i + 1)
    } else {
        i
    }
}

/// End of the maximal ASCII-letter run starting at `i`.
pub open spec fn letter_end(s: Seq<char>, i: int) -> int
    decreases s.len() - i when 0 <= i <= s.len()
{
    if i >= s.len() {
        i
    } else if is_ascii_letter(s[i]) {
        letter_end(s, i + 1)
    } else {
        i
    }
}

/// End of the maximal text run starting at `i`.
pub open spec fn text_end(s: Seq<char>, i: int) -> int
    decreases s.len() - i when 0 <= i <= s.len()
{
    if i >= s.len() {
        i
    } else if is_text_char(s[i]) {
        text_end(s, i + 1)
    } else {
        i
    }
}

/// Position of the first occurrence of `c` at or after `i`, if any.
pub open spec fn find_char(s: Seq<char>, i: int, c: char) -> Option<int>
    decreases s.len() - i when 0 <= i <= s.len()
{
    if i >= s.len() {
        None
    } else if s[i] == c {
        Some(i)
    } else {
        find_char(s, i + 1, c)
    }
}

/// No `/` occurs in `s` between `lo` (inclusive) and `hi` (exclusive).
pub open spec fn no_slash(s: Seq<char>, lo: int, hi: int) -> bool {
    forall|k: int| lo <= k < hi ==> s[k] != '/'
}

pub proof fn lemma_ws_end(s: Seq<char>, i: int)
    requires
        0 <= i <= s.len(),
    ensures
        i <= ws_end(s, i) <= s.len(),
        forall|k: int| i <= k < ws_end(s, i) ==> is_ws_char(s[k]),
        ws_end(s, i) < s.len() ==> !is_ws_char(s[ws_end(s, i)]),
    decreases s.len() - i,
{
    if i < s.len() && is_ws_char(s[i]) {
        lemma_ws_end(s, i + 1);
    }
}

pub proof fn lemma_ws_end_is(s: Seq<char>, i: int, j: int)
    requires
        0 <= i <= j <= s.len(),
        forall|k: int| i <= k < j ==> is_ws_char(s[k]),
        j < s.len() ==> !is_ws_char(s[j]),
    ensures
        ws_end(s, i) == j,
    decreases j - i,
{
    if i < j {
        lemma_ws_end_is(s, i + 1, j);
    }
}

pub proof fn lemma_name_end(s: Seq<char>, i: int)
    requires
        0 <= i <= s.len(),
    ensures
        i <= name_end(s, i) <= s.len(),
        i < s.len() && !is_ws_char(s[i]) ==> name_end(s, i) > i,
    decreases s.len() - i,
{
    if i < s.len() && !is_ws_char(s[i]) {
        lemma_name_end(s, i + 1);
    }
}

pub proof fn lemma_name_end_is(s: Seq<char>, i: int, j: int)
    requires
        0 <= i <= j <= s.len(),
        forall|k: int| i <= k < j ==> !is_ws_char(s[k]),
        j < s.len() ==> is_ws_char(s[j]),
    ensures
        name_end(s, i) == j,
    decreases j - i,
{
    if i < j {
        lemma_name_end_is(s, i + 1, j);
    }
}

pub proof fn lemma_letter_end(s: Seq<char>, i: int)
    requires
        0 <= i <= s.len(),
    ensures
        i <= letter_end(s, i) <= s.len(),
        forall|k: int| i <= k < letter_end(s, i) ==> is_ascii_letter(s[k]),
        letter_end(s, i) < s.len() ==> !is_ascii_letter(s[letter_end(s, i)]),
    decreases s.len() - i,
{
    if i < s.len() && is_ascii_letter(s[i]) {
        lemma_letter_end(s, i + 1);
    }
}

pub proof fn lemma_letter_end_is(s: Seq<char>, i: int, j: int)
    requires
        0 <= i <= j <= s.len(),
        forall|k: int| i <= k < j ==> is_ascii_letter(s[k]),
        j < s.len() ==> !is_ascii_letter(s[j]),
    ensures
        letter_end(s, i) == j,
    decreases j - i,
{
    if i < j {
        lemma_letter_end_is(s, i + 1, j);
    }
}

pub proof fn lemma_text_end(s: Seq<char>, i: int)
    requires
        0 <= i <= s.len(),
    ensures
        i <= text_end(s, i) <= s.len(),
        forall|k: int| i <= k < text_end(s, i) ==> is_text_char(s[k]),
        text_end(s, i) < s.len() ==> !is_text_char(s[text_end(s, i)]),
    decreases s.len() - i,
{
    if i < s.len() && is_text_char(s[i]) {
        lemma_text_end(s, i + 1);
    }
}

pub proof fn lemma_text_end_is(s: Seq<char>, i: int, j: int)
    requires
        0 <= i <= j <= s.len(),
        forall|k: int| i <= k < j ==> is_text_char(s[k]),
        j < s.len() ==> !is_text_char(s[j]),
    ensures
        text_end(s, i) == j,
    decreases j - i,
{
    if i < j {
        lemma_text_end_is(s, i + 1, j);
    }
}

pub proof fn lemma_find_char(s: Seq<char>, i: int, c: char)
    requires
        0 <= i <= s.len(),
    ensures
        match find_char(s, i, c) {
            Some(j) => i <= j < s.len() && s[j] == c && (forall|k: int|
                i <= k < j ==> s[k] != c),
            None => forall|k: int| i <= k < s.len() ==> s[k] != c,
        },
    decreases s.len() - i,
{
    if i < s.len() && s[i] != c {
        lemma_find_char(s, i + 1, c);
    }
}

pub proof fn lemma_find_char_is_some(s: Seq<char>, i: int, c: char, j: int)
    requires
        0 <= i <= j < s.len(),
        s[j] == c,
        forall|k: int| i <= k < j ==> s[k] != c,
    ensures
        find_char(s, i, c) == Some(j),
    decreases j - i,
{
    if i < j {
        lemma_find_char_is_some(s, i + 1, c, j);
    }
}

pub proof fn lemma_find_char_is_none(s: Seq<char>, i: int, c: char)
    requires
        0 <= i <= s.len(),
        forall|k: int| i <= k < s.len() ==> s[k] != c,
    ensures
        find_char(s, i, c) is None,
    decreases s.len() - i,
{
    if i < s.len() {
        lemma_find_char_is_none(s, i + 1, c);
    }
}

/// Executable test for the whitespace class.
pub fn ws_char(c: char) -> (r: bool)
    ensures
        r == is_ws_char(c),
{
    c == ' ' || c == '\t' || c == '\n' || c == '\u{c}'
}

/// Executable test for the ASCII-letter class.
pub fn ascii_letter(c: char) -> (r: bool)
    ensures
        r == is_ascii_letter(c),
{
    let u = c as u32;
    ('a' as u32) <= u && u <= ('z' as u32) || ('A' as u32) <= u && u <= ('Z' as u32)
}

/// Executable test for the text class.
pub fn text_char(c: char) -> (r: bool)
    ensures
        r == is_text_char(c),
{
    c != '<' && c != '>'
}

/// Scans to the end of the maximal whitespace run starting at `i`.
pub fn scan_ws_end(s: &Vec<char>, i: usize) -> (r: usize)
    requires
        i <= s@.len(),
    ensures
        i <= r <= s@.len(),
        r as int == ws_end(s@, i as int),
{
    let mut j: usize = i;
    while j < s.len() && ws_char(s[j])
        invariant
            i <= j <= s@.len(),
            forall|k: int| i <= k < j ==> is_ws_char(s@[k]),
        decreases s@.len() - j,
    {
        j = j + 1;
    }
    proof {
        lemma_ws_end_is(s@, i as int, j as int);
    }
    j
}

/// Scans to the end of the maximal non-whitespace run starting at `i`.
pub fn scan_name_end(s: &Vec<char>, i: usize) -> (r: usize)
    requires
        i <= s@.len(),
    ensures
        i <= r <= s@.len(),
        r as int == name_end(s@, i as int),
{
    let mut j: usize = i;
    while j < s.len() && !ws_char(s[j])
        invariant
            i <= j <= s@.len(),
            forall|k: int| i <= k < j ==> !is_ws_char(s@[k]),
        decreases s@.len() - j,
    {
        j = j + 1;
    }
    proof {
        lemma_name_end_is(s@, i as int, j as int);
    }
    j
}

/// Scans to the end of the maximal ASCII-letter run starting at `i`.
pub fn scan_letter_end(s: &Vec<char>, i: usize) -> (r: usize)
    requires
        i <= s@.len(),
    ensures
        i <= r <= s@.len(),
        r as int == letter_end(s@, i as int),
{
    let mut j: usize = i;
    while j < s.len() && ascii_letter(s[j])
        invariant
            i <= j <= s@.len(),
            forall|k: int| i <= k < j ==> is_ascii_letter(s@[k]),
        decreases s@.len() - j,
    {
        j = j + 1;
    }
    proof {
        lemma_letter_end_is(s@, i as int, j as int);
    }
    j
}

/// Scans to the end of the maximal text run starting at `i`.
pub fn scan_text_end(s: &Vec<char>, i: usize) -> (r: usize)
    requires
        i <= s@.len(),
    ensures
        i <= r <= s@.len(),
        r as int == text_end(s@, i as int),
{
    let mut j: usize = i;
    while j < s.len() && text_char(s[j])
        invariant
            i <= j <= s@.len(),
            forall|k: int| i <= k < j ==> is_text_char(s@[k]),
        decreases s@.len() - j,
    {
        j = j + 1;
    }
    proof {
        lemma_text_end_is(s@, i as int, j as int);
    }
    j
}

/// Finds the first occurrence of `c` at or after `i`.
pub fn scan_find_char(s: &Vec<char>, i: usize, c: char) -> (r: Option<usize>)
    requires
        i <= s@.len(),
    ensures
        match r {
            Some(j) => i <= j < s@.len() && find_char(s@, i as int, c) == Some(j as int),
            None => find_char(s@, i as int, c) is None,
        },
{
    let mut j: usize = i;
    while j < s.len()
        invariant
            i <= j <= s@.len(),
            forall|k: int| i <= k < j ==> s@[k] != c,
        decreases s@.len() - j,
    {
        if s[j] == c {
            proof {
                lemma_find_char_is_some(s@, i as int, c, j as int);
            }
            return Some(j);
        }
        j = j + 1;
    }
    proof {
        lemma_find_char_is_none(s@, i as int, c);
    }
    None
}

/// Decides whether `s` holds a `/` between `lo` (inclusive) and `hi`
/// (exclusive).
pub fn scan_has_slash(s: &Vec<char>, lo: usize, hi: usize) -> (r: bool)
    requires
        lo <= hi <= s@.len(),
    ensures
        r == !no_slash(s@, lo as int, hi as int),
{
    let mut j: usize = lo;
    while j < hi
        invariant
            lo <= j <= hi <= s@.len(),
            forall|k: int| lo <= k < j ==> s@[k] != '/',
        decreases hi - j,
    {
        if s[j] == '/' {
            return true;
        }
        j = j + 1;
    }
    false
}

/// Copies the characters of `s` between `lo` (inclusive) and `hi`
/// (exclusive) into a fresh vector.
pub fn vec_subrange(s: &Vec<char>, lo: usize, hi: usize) -> (r: Vec<char>)
    requires
        lo <= hi <= s@.len(),
    ensures
        r@ == s@.subrange(lo as int, hi as int),
{
    let mut r: Vec<char> = Vec::new();
    let mut j: usize = lo;
    while j < hi
        invariant
            lo <= j <= hi <= s@.len(),
            r@ =~= s@.subrange(lo as int, j as int),
        decreases hi - j,
    {
        r.push(s[j]);
        j = j + 1;
    }
    proof {
        assert(r@ =~= s@.subrange(lo as int, hi as int));
    }
    r
}

/// Appends the characters of `src` to `dst`.
pub fn push_all(dst: &mut Vec<char>, src: &Vec<char>)
    ensures
        final(dst)@ == old(dst)@ + src@,
{
    let ghost base = dst@;
    let mut j: usize = 0;
    while j < src.len()
        invariant
            j <= src@.len(),
            dst@ =~= base + src@.subrange(0, j as int),
        decreases src@.len() - j,
    {
        dst.push(src[j]);
        j = j + 1;
    }
    proof {
        assert(dst@ =~= base + src@);
    }
}

/// Compares two character vectors for equality of their contents.
pub fn chars_eq(a: &Vec<char>, b: &Vec<char>) -> (r: bool)
    ensures
        r <==> a@ == b@,
{
    if a.len() != b.len() {
        proof {
            assert(a@.len() != b@.len());
        }
        return false;
    }
    let mut j: usize = 0;
    while j < a.len()
        invariant
            a@.len() == b@.len(),
            j <= a@.len(),
            forall|k: int| 0 <= k < j ==> a@[k] == b@[k],
        decreases a@.len() - j,
    {
        if a[j] != b[j] {
            return false;
        }
        j = j + 1;
    }
    proof {
        assert(a@ =~= b@);
    }
    true
}

} // verus!
