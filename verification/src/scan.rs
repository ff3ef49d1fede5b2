//! Library scanning and media-filename parsing.
//!
//! A library scan lists a remote's files and keeps the media files among
//! them; a filename parser then guesses title, year, season and episode
//! from the common release naming conventions. Running the listing tool is
//! the caller's I/O; this module works on the listed entries and the
//! filename text.

use vstd::prelude::*;
use vstd::slice::{slice_subrange, slice_to_vec};

use crate::bytes::{
    ascii_lower, ascii_upper, index_of_last, lemma_index_of_last_props, split_fields_spec,
    trailing_run,
};
use crate::bytes::{ascii_upper_byte, find_last_byte, split_fields};
use crate::config::RcloneListItem;
use crate::encode::{DIGIT_0, DIGIT_9, DOT, HYPHEN, SLASH, SPACE, UNDERSCORE};

verus! {

/// ASCII `S`.
pub const UPPER_S: u8 = 0x53;

/// ASCII `s`.
pub const LOWER_S: u8 = 0x73;

/// ASCII `E`.
pub const UPPER_E: u8 = 0x45;

/// ASCII `e`.
pub const LOWER_E: u8 = 0x65;

/// ASCII `X`.
pub const UPPER_X: u8 = 0x58;

/// ASCII `x`.
pub const LOWER_X: u8 = 0x78;

/// An ASCII digit.
pub open spec fn is_digit(b: u8) -> bool {
    DIGIT_0 <= b && b <= DIGIT_9
}

fn is_digit_byte(b: u8) -> (r: bool)
    ensures
        r == is_digit(b),
{
    DIGIT_0 <= b && b <= DIGIT_9
}

/// The length of the maximal digit run starting at `i`.
pub open spec fn digit_run(s: Seq<u8>, i: int) -> int
    decreases s.len() - i,
{
    if i < 0 || i >= s.len() || !is_digit(s[i]) {
        0
    } else {
        1 + digit_run(s, i + 1)
    }
}

/// What `digit_run` means: digits throughout it, no digit right after it.
pub proof fn lemma_digit_run_props(s: Seq<u8>, i: int)
    requires
        0 <= i <= s.len(),
    ensures
        0 <= digit_run(s, i) <= s.len() - i,
        forall|j: int| i <= j < i + digit_run(s, i) ==> is_digit(s[j]),
        i + digit_run(s, i) < s.len() ==> !is_digit(s[i + digit_run(s, i)]),
    decreases s.len() - i,
{
    if i < s.len() && is_digit(s[i]) {
        lemma_digit_run_props(s, i + 1);
    }
}

/// The length of the maximal digit run starting at `i`.
pub fn digit_run_len(s: &[u8], i: usize) -> (r: usize)
    requires
        i <= s@.len(),
    ensures
        r == digit_run(s@, i as int),
{
    proof {
        lemma_digit_run_props(s@, i as int);
    }
    let mut k: usize = i;
    while k < s.len() && is_digit_byte(s[k])
        invariant
            i <= k <= s@.len(),
            forall|j: int| i <= j < k ==> is_digit(s@[j]),
            k - i <= digit_run(s@, i as int),
        decreases s@.len() - k,
    {
        k = k + 1;
        proof {
            if k - i > digit_run(s@, i as int) {
                lemma_digit_run_props(s@, i as int);
                assert(is_digit(s@[i + digit_run(s@, i as int)]));
                assert(false);
            }
        }
    }
    proof {
        lemma_digit_run_props(s@, i as int);
        if k - i < digit_run(s@, i as int) {
            assert(is_digit(s@[k as int]));
        }
    }
    k - i
}

/// The value of a string of ASCII digits.
pub open spec fn digits_value(s: Seq<u8>) -> int
    decreases s.len(),
{
    if s.len() == 0 {
        0
    } else {
        digits_value(s.drop_last()) * 10 + (s.last() - DIGIT_0)
    }
}

/// The value of four digits read as a year.
pub open spec fn year_value(s: Seq<u8>, i: int) -> int
    recommends
        0 <= i,
        i + 4 <= s.len(),
{
    (s[i] - DIGIT_0) * 1000 + (s[i + 1] - DIGIT_0) * 100 + (s[i + 2] - DIGIT_0) * 10 + (s[i + 3]
        - DIGIT_0)
}

/// A plausible release year stands at `i`: four digits reading 1900 to
/// 2099, with no digit directly before or after them.
pub open spec fn year_at(s: Seq<u8>, i: int) -> bool {
    &&& 0 <= i
    &&& i + 4 <= s.len()
    &&& is_digit(s[i])
    &&& is_digit(s[i + 1])
    &&& is_digit(s[i + 2])
    &&& is_digit(s[i + 3])
    &&& 1900 <= year_value(s, i) <= 2099
    &&& (i == 0 || !is_digit(s[i - 1]))
    &&& (i + 4 == s.len() || !is_digit(s[i + 4]))
}

/// The first position from `i` where a plausible year stands.
pub open spec fn first_year_from(s: Seq<u8>, i: int) -> Option<int>
    decreases s.len() - i,
{
    if i > s.len() - 4 {
        None
    } else if year_at(s, i) {
        Some(i)
    } else {
        first_year_from(s, i + 1)
    }
}

/// What `first_year_from` means, searching from the start: the named
/// position carries a year and no earlier one does; `None` means none does.
pub proof fn lemma_first_year_props(s: Seq<u8>, i: int)
    requires
        0 <= i,
    ensures
        match first_year_from(s, i) {
            Some(k) => i <= k && year_at(s, k) && (forall|j: int| i <= j < k ==> !year_at(s, j)),
            None => forall|j: int| i <= j ==> !year_at(s, j),
        },
    decreases s.len() - i,
{
    if i > s.len() - 4 {
        assert forall|j: int| i <= j implies !year_at(s, j) by {
            if year_at(s, j) {
                assert(j + 4 <= s.len());
            }
        }
    } else if !year_at(s, i) {
        lemma_first_year_props(s, i + 1);
    }
}

/// A year match: where it starts and what it reads.
pub struct YearMatch {
    /// The position of the first digit.
    pub start: usize,
    /// The year's value.
    pub year: u32,
}

/// Find the first plausible release year in a filename stem: four digits
/// reading 1900 to 2099 that no further digit touches.
pub fn find_year(text: &[u8]) -> (r: Option<YearMatch>)
    ensures
        match r {
            Some(m) => first_year_from(text@, 0) == Some(m.start as int) && m.year == year_value(
                text@,
                m.start as int,
            ),
            None => first_year_from(text@, 0) is None,
        },
{
    proof {
        lemma_first_year_props(text@, 0);
    }
    if text.len() < 4 {
        return None;
    }
    let mut i: usize = 0;
    while i <= text.len() - 4
        invariant
            text@.len() >= 4,
            i <= text@.len(),
            forall|j: int| 0 <= j < i ==> !year_at(text@, j),
        decreases text@.len() - i,
    {
        let d0 = text[i];
        let d1 = text[i + 1];
        let d2 = text[i + 2];
        let d3 = text[i + 3];
        if is_digit_byte(d0) && is_digit_byte(d1) && is_digit_byte(d2) && is_digit_byte(d3) {
            let year: u32 = (d0 - DIGIT_0) as u32 * 1000 + (d1 - DIGIT_0) as u32 * 100 + (d2
                - DIGIT_0) as u32 * 10 + (d3 - DIGIT_0) as u32;
            if 1900 <= year && year <= 2099 {
                let before_ok = i == 0 || !is_digit_byte(text[i - 1]);
                let after_ok = i + 4 == text.len() || !is_digit_byte(text[i + 4]);
                if before_ok && after_ok {
                    proof {
                        assert(year_at(text@, i as int));
                        lemma_first_year_unique(text@, i as int);
                    }
                    return Some(YearMatch { start: i, year });
                }
            }
        }
        proof {
            assert(!year_at(text@, i as int));
        }
        i = i + 1;
    }
    proof {
        lemma_first_year_props(text@, 0);
        if first_year_from(text@, 0) is Some {
            let k = first_year_from(text@, 0)->Some_0;
            assert(year_at(text@, k));
            assert(k + 4 <= text@.len());
            assert(false);
        }
    }
    None
}

/// A year position with none before it is the first.
proof fn lemma_first_year_unique(s: Seq<u8>, i: int)
    requires
        0 <= i,
        year_at(s, i),
        forall|j: int| 0 <= j < i ==> !year_at(s, j),
    ensures
        first_year_from(s, 0) == Some(i),
    decreases i,
{
    lemma_first_year_unique_from(s, 0, i);
}

/// A year position with none between `from` and it is the first from `from`.
proof fn lemma_first_year_unique_from(s: Seq<u8>, from: int, i: int)
    requires
        0 <= from <= i,
        year_at(s, i),
        forall|j: int| from <= j < i ==> !year_at(s, j),
    ensures
        first_year_from(s, from) == Some(i),
    decreases i - from,
{
    assert(i + 4 <= s.len());
    if from < i {
        lemma_first_year_unique_from(s, from + 1, i);
    }
}

/// A season-episode mark of the form `SxxEyy` stands at `i`, as the scan
/// recognises it: an `S`, one or two digits, an `E` with at least two more
/// bytes behind it, one or two digits; the digit runs are maximal, and the
/// scan never looks within five bytes of the end.
pub open spec fn sxe_at(s: Seq<u8>, i: int) -> bool {
    let a = digit_run(s, i + 1);
    let b = digit_run(s, i + 2 + a);
    &&& 0 <= i
    &&& i < s.len() - 5
    &&& (s[i] == UPPER_S || s[i] == LOWER_S)
    &&& 1 <= a <= 2
    &&& s.len() - (i + 1 + a) >= 3
    &&& (s[i + 1 + a] == UPPER_E || s[i + 1 + a] == LOWER_E)
    &&& 1 <= b <= 2
}

/// A season-episode mark of the form `NxNN` stands at `i`: one or two
/// digits, an `x`, one or two digits, the digit runs maximal; the scan
/// never looks within three bytes of the end.
pub open spec fn nxn_at(s: Seq<u8>, i: int) -> bool {
    let a = digit_run(s, i);
    let b = digit_run(s, i + a + 1);
    &&& 0 <= i
    &&& i < s.len() - 3
    &&& is_digit(s[i])
    &&& a <= 2
    &&& i + a < s.len()
    &&& (s[i + a] == UPPER_X || s[i + a] == LOWER_X)
    &&& 1 <= b <= 2
}

/// The first position from `i` where an `SxxEyy` mark stands.
pub open spec fn first_sxe_from(s: Seq<u8>, i: int) -> Option<int>
    decreases s.len() - i,
{
    if i >= s.len() - 5 {
        None
    } else if sxe_at(s, i) {
        Some(i)
    } else {
        first_sxe_from(s, i + 1)
    }
}

/// The first position from `i` where an `NxNN` mark stands.
pub open spec fn first_nxn_from(s: Seq<u8>, i: int) -> Option<int>
    decreases s.len() - i,
{
    if i >= s.len() - 3 {
        None
    } else if nxn_at(s, i) {
        Some(i)
    } else {
        first_nxn_from(s, i + 1)
    }
}

/// What `first_sxe_from` means: the named position carries a mark and no
/// earlier one does; `None` means none does.
pub proof fn lemma_first_sxe_props(s: Seq<u8>, i: int)
    requires
        0 <= i,
    ensures
        match first_sxe_from(s, i) {
            Some(k) => i <= k && sxe_at(s, k) && (forall|j: int| i <= j < k ==> !sxe_at(s, j)),
            None => forall|j: int| i <= j ==> !sxe_at(s, j),
        },
    decreases s.len() - i,
{
    if i >= s.len() - 5 {
        assert forall|j: int| i <= j implies !sxe_at(s, j) by {
            if sxe_at(s, j) {
                assert(j < s.len() - 5);
            }
        }
    } else if !sxe_at(s, i) {
        lemma_first_sxe_props(s, i + 1);
    }
}

/// What `first_nxn_from` means.
pub proof fn lemma_first_nxn_props(s: Seq<u8>, i: int)
    requires
        0 <= i,
    ensures
        match first_nxn_from(s, i) {
            Some(k) => i <= k && nxn_at(s, k) && (forall|j: int| i <= j < k ==> !nxn_at(s, j)),
            None => forall|j: int| i <= j ==> !nxn_at(s, j),
        },
    decreases s.len() - i,
{
    if i >= s.len() - 3 {
        assert forall|j: int| i <= j implies !nxn_at(s, j) by {
            if nxn_at(s, j) {
                assert(j < s.len() - 3);
            }
        }
    } else if !nxn_at(s, i) {
        lemma_first_nxn_props(s, i + 1);
    }
}

proof fn lemma_first_sxe_unique_from(s: Seq<u8>, from: int, i: int)
    requires
        0 <= from <= i,
        sxe_at(s, i),
        forall|j: int| from <= j < i ==> !sxe_at(s, j),
    ensures
        first_sxe_from(s, from) == Some(i),
    decreases i - from,
{
    assert(i < s.len() - 5);
    if from < i {
        lemma_first_sxe_unique_from(s, from + 1, i);
    }
}

proof fn lemma_first_nxn_unique_from(s: Seq<u8>, from: int, i: int)
    requires
        0 <= from <= i,
        nxn_at(s, i),
        forall|j: int| from <= j < i ==> !nxn_at(s, j),
    ensures
        first_nxn_from(s, from) == Some(i),
    decreases i - from,
{
    assert(i < s.len() - 3);
    if from < i {
        lemma_first_nxn_unique_from(s, from + 1, i);
    }
}

/// One match of a season-episode mark: where it starts and its two digit
/// groups, season first.
pub struct RegexMatch {
    /// The mark's first byte.
    pub start: usize,
    /// The season digits.
    pub group1: Vec<u8>,
    /// The episode digits.
    pub group2: Vec<u8>,
}

/// Find the first `SxxEyy` mark.
fn find_sxe(text: &[u8]) -> (r: Option<RegexMatch>)
    ensures
        match r {
            Some(m) => {
                let i = m.start as int;
                let a = digit_run(text@, i + 1);
                let b = digit_run(text@, i + 2 + a);
                &&& first_sxe_from(text@, 0) == Some(i)
                &&& m.group1@ == text@.subrange(i + 1, i + 1 + a)
                &&& m.group2@ == text@.subrange(i + 2 + a, i + 2 + a + b)
            },
            None => first_sxe_from(text@, 0) is None,
        },
{
    if text.len() < 6 {
        proof {
            lemma_first_sxe_props(text@, 0);
            if first_sxe_from(text@, 0) is Some {
                let k = first_sxe_from(text@, 0)->Some_0;
                assert(sxe_at(text@, k));
            }
        }
        return None;
    }
    let bound = text.len() - 5;
    let mut i: usize = 0;
    while i < bound
        invariant
            text@.len() >= 6,
            bound == text@.len() - 5,
            i <= bound,
            forall|j: int| 0 <= j < i ==> !sxe_at(text@, j),
        decreases bound - i,
    {
        let c = text[i];
        if c == UPPER_S || c == LOWER_S {
            proof {
                lemma_digit_run_props(text@, i + 1);
            }
            let a = digit_run_len(text, i + 1);
            if 1 <= a && a <= 2 && text.len() - (i + 1 + a) >= 3 {
                let e = text[i + 1 + a];
                if e == UPPER_E || e == LOWER_E {
                    proof {
                        lemma_digit_run_props(text@, i + 2 + a);
                    }
                    let b = digit_run_len(text, i + 2 + a);
                    if 1 <= b && b <= 2 {
                        proof {
                            assert(sxe_at(text@, i as int));
                            lemma_first_sxe_unique_from(text@, 0, i as int);
                        }
                        let group1 = slice_to_vec(slice_subrange(text, i + 1, i + 1 + a));
                        let group2 = slice_to_vec(
                            slice_subrange(text, i + 2 + a, i + 2 + a + b),
                        );
                        return Some(RegexMatch { start: i, group1, group2 });
                    }
                }
            }
            proof {
                assert(!sxe_at(text@, i as int));
            }
        } else {
            proof {
                assert(!sxe_at(text@, i as int));
            }
        }
        i = i + 1;
    }
    proof {
        lemma_first_sxe_props(text@, 0);
        if first_sxe_from(text@, 0) is Some {
            let k = first_sxe_from(text@, 0)->Some_0;
            assert(sxe_at(text@, k));
            assert(k < text@.len() - 5);
            assert(false);
        }
    }
    None
}

/// Find the first `NxNN` mark.
fn find_nxn(text: &[u8]) -> (r: Option<RegexMatch>)
    ensures
        match r {
            Some(m) => {
                let i = m.start as int;
                let a = digit_run(text@, i);
                let b = digit_run(text@, i + a + 1);
                &&& first_nxn_from(text@, 0) == Some(i)
                &&& m.group1@ == text@.subrange(i, i + a)
                &&& m.group2@ == text@.subrange(i + a + 1, i + a + 1 + b)
            },
            None => first_nxn_from(text@, 0) is None,
        },
{
    if text.len() < 4 {
        proof {
            lemma_first_nxn_props(text@, 0);
            if first_nxn_from(text@, 0) is Some {
                let k = first_nxn_from(text@, 0)->Some_0;
                assert(nxn_at(text@, k));
            }
        }
        return None;
    }
    let bound = text.len() - 3;
    let mut i: usize = 0;
    while i < bound
        invariant
            text@.len() >= 4,
            bound == text@.len() - 3,
            i <= bound,
            forall|j: int| 0 <= j < i ==> !nxn_at(text@, j),
        decreases bound - i,
    {
        if is_digit_byte(text[i]) {
            proof {
                lemma_digit_run_props(text@, i as int);
            }
            let a = digit_run_len(text, i);
            if a <= 2 && i + a < text.len() {
                let x = text[i + a];
                if x == UPPER_X || x == LOWER_X {
                    proof {
                        lemma_digit_run_props(text@, i + a + 1);
                    }
                    let b = digit_run_len(text, i + a + 1);
                    if 1 <= b && b <= 2 {
                        proof {
                            assert(nxn_at(text@, i as int));
                            lemma_first_nxn_unique_from(text@, 0, i as int);
                        }
                        let group1 = slice_to_vec(slice_subrange(text, i, i + a));
                        let group2 = slice_to_vec(
                            slice_subrange(text, i + a + 1, i + a + 1 + b),
                        );
                        return Some(RegexMatch { start: i, group1, group2 });
                    }
                }
            }
            proof {
                assert(!nxn_at(text@, i as int));
            }
        } else {
            proof {
                assert(!nxn_at(text@, i as int));
            }
        }
        i = i + 1;
    }
    proof {
        lemma_first_nxn_props(text@, 0);
        if first_nxn_from(text@, 0) is Some {
            let k = first_nxn_from(text@, 0)->Some_0;
            assert(nxn_at(text@, k));
            assert(k < text@.len() - 3);
            assert(false);
        }
    }
    None
}

/// The bytes of `[Ss]`, the marker that tells the two supported patterns
/// apart.
pub open spec fn sxe_pattern_marker() -> Seq<u8> {
    seq![0x5Bu8, 0x53, 0x73, 0x5D]
}

/// A pattern string asking for the `SxxEyy` form rather than `NxNN`.
pub open spec fn is_sxe_pattern(p: Seq<u8>) -> bool {
    crate::bytes::contains_seq(p, sxe_pattern_marker())
}

/// Match one of the two supported season-episode patterns against a
/// filename stem: a pattern containing `[Ss]` asks for the `SxxEyy` form,
/// any other for `NxNN`. The match is the first in the text, with the
/// season and episode digit groups.
pub fn simple_regex_match(text: &[u8], pattern: &[u8]) -> (r: Option<RegexMatch>)
    ensures
        is_sxe_pattern(pattern@) ==> match r {
            Some(m) => {
                let i = m.start as int;
                let a = digit_run(text@, i + 1);
                let b = digit_run(text@, i + 2 + a);
                &&& first_sxe_from(text@, 0) == Some(i)
                &&& m.group1@ == text@.subrange(i + 1, i + 1 + a)
                &&& m.group2@ == text@.subrange(i + 2 + a, i + 2 + a + b)
            },
            None => first_sxe_from(text@, 0) is None,
        },
        !is_sxe_pattern(pattern@) ==> match r {
            Some(m) => {
                let i = m.start as int;
                let a = digit_run(text@, i);
                let b = digit_run(text@, i + a + 1);
                &&& first_nxn_from(text@, 0) == Some(i)
                &&& m.group1@ == text@.subrange(i, i + a)
                &&& m.group2@ == text@.subrange(i + a + 1, i + a + 1 + b)
            },
            None => first_nxn_from(text@, 0) is None,
        },
{
    let mut marker: Vec<u8> = Vec::new();
    marker.push(0x5B);
    marker.push(0x53);
    marker.push(0x73);
    marker.push(0x5D);
    proof {
        assert(marker@ =~= sxe_pattern_marker());
    }
    if crate::bytes::contains_bytes(pattern, marker.as_slice()) {
        find_sxe(text)
    } else {
        find_nxn(text)
    }
}

/// What title normalisation does to one byte: the separators `.`, `_` and
/// `-` become spaces, everything else stays.
pub open spec fn norm_byte(b: u8) -> u8 {
    if b == DOT || b == UNDERSCORE || b == HYPHEN {
        SPACE
    } else {
        b
    }
}

/// A word with its first byte raised to ASCII upper case.
pub open spec fn cap_word(w: Seq<u8>) -> Seq<u8> {
    if w.len() == 0 {
        w
    } else {
        seq![ascii_upper(w[0])] + w.drop_first()
    }
}

/// Words capitalised and joined with single spaces.
pub open spec fn join_cap_words(ws: Seq<Seq<u8>>) -> Seq<u8>
    decreases ws.len(),
{
    if ws.len() == 0 {
        Seq::empty()
    } else if ws.len() == 1 {
        cap_word(ws[0])
    } else {
        cap_word(ws[0]) + seq![SPACE] + join_cap_words(ws.drop_first())
    }
}

/// Joining distributes over appending one word at the end.
proof fn lemma_join_cap_words_snoc(ws: Seq<Seq<u8>>, w: Seq<u8>)
    ensures
        join_cap_words(ws.push(w)) == if ws.len() == 0 {
            cap_word(w)
        } else {
            join_cap_words(ws) + seq![SPACE] + cap_word(w)
        },
    decreases ws.len(),
{
    if ws.len() == 0 {
        assert(ws.push(w).len() == 1);
        assert(ws.push(w)[0] == w);
    } else {
        assert(ws.push(w).drop_first() =~= ws.drop_first().push(w));
        lemma_join_cap_words_snoc(ws.drop_first(), w);
        if ws.len() == 1 {
            assert(ws.drop_first().len() == 0);
            assert(join_cap_words(ws.push(w)) =~= join_cap_words(ws) + seq![SPACE] + cap_word(w));
        } else {
            assert(join_cap_words(ws.push(w)) =~= join_cap_words(ws) + seq![SPACE] + cap_word(w));
        }
    }
}

/// The cleaned form of a raw title: separators become spaces, the
/// whitespace-separated words are capitalised and joined with single
/// spaces.
pub open spec fn clean_title_spec(raw: Seq<u8>) -> Seq<u8> {
    join_cap_words(split_fields_spec(raw.map_values(|b: u8| norm_byte(b))))
}

/// Clean a raw title: `.`, `_` and `-` become spaces, every
/// whitespace-separated word starts with an ASCII capital, and single
/// spaces join the words.
pub fn clean_title(raw: &[u8]) -> (r: Vec<u8>)
    ensures
        r@ == clean_title_spec(raw@),
{
    let ghost normed = raw@.map_values(|b: u8| norm_byte(b));
    let mut normalized: Vec<u8> = Vec::new();
    let mut i: usize = 0;
    proof {
        assert(normalized@ =~= raw@.take(0).map_values(|b: u8| norm_byte(b)));
    }
    while i < raw.len()
        invariant
            i <= raw@.len(),
            normalized@ == raw@.take(i as int).map_values(|b: u8| norm_byte(b)),
        decreases raw@.len() - i,
    {
        let b = raw[i];
        if b == DOT || b == UNDERSCORE || b == HYPHEN {
            normalized.push(SPACE);
        } else {
            normalized.push(b);
        }
        proof {
            assert(normalized@ =~= raw@.take(i + 1).map_values(|b: u8| norm_byte(b)));
        }
        i = i + 1;
    }
    proof {
        assert(raw@.take(raw@.len() as int) =~= raw@);
        assert(normalized@ =~= normed);
    }
    let words = split_fields(normalized.as_slice());
    let ghost ws = split_fields_spec(normed);
    proof {
        assert(words.deep_view() == ws);
    }
    let mut out: Vec<u8> = Vec::new();
    let mut k: usize = 0;
    proof {
        assert(out@ =~= join_cap_words(ws.take(0)));
    }
    while k < words.len()
        invariant
            ws == split_fields_spec(normed),
            words.deep_view() == ws,
            k <= words@.len(),
            words@.len() == ws.len(),
            out@ == join_cap_words(ws.take(k as int)),
        decreases words@.len() - k,
    {
        let w = &words[k];
        proof {
            assert(words.deep_view()[k as int] == words@[k as int].deep_view());
            assert(w@ =~= ws[k as int]);
        }
        if k > 0 {
            out.push(SPACE);
        }
        if w.len() > 0 {
            out.push(ascii_upper_byte(w[0]));
            let mut tail = slice_to_vec(slice_subrange(w.as_slice(), 1, w.len()));
            out.append(&mut tail);
            proof {
                assert(w@.subrange(1, w@.len() as int) =~= w@.drop_first());
            }
        }
        proof {
            lemma_join_cap_words_snoc(ws.take(k as int), ws[k as int]);
            assert(ws.take(k as int).push(ws[k as int]) =~= ws.take(k + 1));
            assert(cap_word(ws[k as int]) =~= (if ws[k as int].len() == 0 {
                ws[k as int]
            } else {
                seq![ascii_upper(ws[k as int][0])] + ws[k as int].drop_first()
            }));
            assert(out@ =~= join_cap_words(ws.take(k + 1)));
        }
        k = k + 1;
    }
    proof {
        assert(ws.take(ws.len() as int) =~= ws);
    }
    out
}

/// The stem of a filename: everything before the last dot, or nothing when
/// there is no dot.
pub open spec fn stem_of(f: Seq<u8>) -> Seq<u8> {
    match index_of_last(f, DOT) {
        Some(i) => f.take(i),
        None => Seq::empty(),
    }
}

/// What a filename parse found: a cleaned title with either a year or a
/// season and episode, where the name gave one.
pub struct ParsedTitle {
    /// The cleaned title text.
    pub title: Vec<u8>,
    /// The release year, when a plausible one stands in the name.
    pub year: Option<u32>,
    /// The season number of an episode name.
    pub season: Option<u32>,
    /// The episode number of an episode name.
    pub episode: Option<u32>,
    /// Whether the name reads as a series episode.
    pub is_episode: bool,
}

/// What `parse_media_filename` returns on a given stem.
pub open spec fn parsed_title_ok(r: ParsedTitle, stem: Seq<u8>) -> bool {
    match first_sxe_from(stem, 0) {
        Some(i) => {
            let a = digit_run(stem, i + 1);
            let b = digit_run(stem, i + 2 + a);
            &&& r.is_episode == true
            &&& r.year is None
            &&& r.season == Some(digits_value(stem.subrange(i + 1, i + 1 + a)) as u32)
            &&& r.episode == Some(digits_value(stem.subrange(i + 2 + a, i + 2 + a + b)) as u32)
            &&& r.title@ == clean_title_spec(stem.take(i))
        },
        None => match first_nxn_from(stem, 0) {
            Some(i) => {
                let a = digit_run(stem, i);
                let b = digit_run(stem, i + a + 1);
                &&& r.is_episode == true
                &&& r.year is None
                &&& r.season == Some(digits_value(stem.subrange(i, i + a)) as u32)
                &&& r.episode == Some(digits_value(stem.subrange(i + a + 1, i + a + 1 + b)) as u32)
                &&& r.title@ == clean_title_spec(stem.take(i))
            },
            None => match first_year_from(stem, 0) {
                Some(i) => {
                    &&& r.is_episode == false
                    &&& r.year == Some(year_value(stem, i) as u32)
                    &&& r.season is None
                    &&& r.episode is None
                    &&& r.title@ == clean_title_spec(stem.take(i))
                },
                None => {
                    &&& r.is_episode == false
                    &&& r.year is None
                    &&& r.season is None
                    &&& r.episode is None
                    &&& r.title@ == clean_title_spec(stem)
                },
            },
        },
    }
}

/// The value of one or two ASCII digits.
fn parse_digits_u32(d: &[u8]) -> (r: u32)
    requires
        1 <= d@.len() <= 2,
        forall|j: int| 0 <= j < d@.len() ==> is_digit(d@[j]),
    ensures
        r == digits_value(d@),
{
    proof {
        assert(digits_value(Seq::<u8>::empty()) == 0);
    }
    if d.len() == 1 {
        proof {
            assert(d@.drop_last() =~= Seq::<u8>::empty());
            assert(digits_value(d@) == digits_value(Seq::<u8>::empty()) * 10 + (d@.last()
                - DIGIT_0));
        }
        (d[0] - DIGIT_0) as u32
    } else {
        proof {
            let one = seq![d@[0]];
            assert(d@.drop_last() =~= one);
            assert(one.drop_last() =~= Seq::<u8>::empty());
            assert(one.last() == d@[0]);
            assert(digits_value(one) == digits_value(Seq::<u8>::empty()) * 10 + (one.last()
                - DIGIT_0));
            assert(d@.last() == d@[1]);
            assert(digits_value(d@) == digits_value(one) * 10 + (d@[1] - DIGIT_0));
        }
        (d[0] - DIGIT_0) as u32 * 10 + (d[1] - DIGIT_0) as u32
    }
}

/// Parse a media filename into a cleaned title with season and episode or
/// a year: the extension is cut, an `SxxEyy` mark is looked for first, a
/// `NxNN` mark second, a plausible year third, and what stands before the
/// mark becomes the title.
pub fn parse_media_filename(filename: &[u8]) -> (r: ParsedTitle)
    ensures
        parsed_title_ok(r, stem_of(filename@)),
{
    let stem_vec: Vec<u8> = match find_last_byte(filename, DOT) {
        Some(i) => {
            proof {
                lemma_index_of_last_props(filename@, DOT);
            }
            slice_to_vec(slice_subrange(filename, 0, i))
        },
        None => Vec::new(),
    };
    proof {
        assert(stem_vec@ =~= stem_of(filename@));
    }
    let stem = stem_vec.as_slice();
    match find_sxe(stem) {
        Some(m) => {
            proof {
                lemma_first_sxe_props(stem@, 0);
                lemma_digit_run_props(stem@, m.start + 1);
                lemma_digit_run_props(stem@, m.start + 2 + digit_run(stem@, m.start + 1));
            }
            let season = parse_digits_u32(m.group1.as_slice());
            let episode = parse_digits_u32(m.group2.as_slice());
            let title = clean_title(slice_subrange(stem, 0, m.start));
            proof {
                assert(stem@.subrange(0, m.start as int) =~= stem@.take(m.start as int));
            }
            ParsedTitle {
                title,
                year: None,
                season: Some(season),
                episode: Some(episode),
                is_episode: true,
            }
        },
        None => match find_nxn(stem) {
            Some(m) => {
                proof {
                    lemma_first_nxn_props(stem@, 0);
                    lemma_digit_run_props(stem@, m.start as int);
                    lemma_digit_run_props(stem@, m.start + digit_run(stem@, m.start as int) + 1);
                }
                let season = parse_digits_u32(m.group1.as_slice());
                let episode = parse_digits_u32(m.group2.as_slice());
                let title = clean_title(slice_subrange(stem, 0, m.start));
                proof {
                    assert(stem@.subrange(0, m.start as int) =~= stem@.take(m.start as int));
                }
                ParsedTitle {
                    title,
                    year: None,
                    season: Some(season),
                    episode: Some(episode),
                    is_episode: true,
                }
            },
            None => match find_year(stem) {
                Some(m) => {
                    proof {
                        lemma_first_year_props(stem@, 0);
                    }
                    let title = clean_title(slice_subrange(stem, 0, m.start));
                    proof {
                        assert(stem@.subrange(0, m.start as int) =~= stem@.take(m.start as int));
                    }
                    ParsedTitle {
                        title,
                        year: Some(m.year),
                        season: None,
                        episode: None,
                        is_episode: false,
                    }
                },
                None => {
                    let title = clean_title(stem);
                    ParsedTitle {
                        title,
                        year: None,
                        season: None,
                        episode: None,
                        is_episode: false,
                    }
                },
            },
        },
    }
}

/// A file discovered by a scan, not yet known to the library.
pub struct DiscoveredFile {
    /// The file's full remote path below the scanned root.
    pub remote_path: Vec<u8>,
    /// The file's base name.
    pub filename: Vec<u8>,
    /// The file's size in bytes.
    pub size: i64,
    /// Always false: directories are never discovered.
    pub is_dir: bool,
    /// The listing's MIME type for the file, when it knows one.
    pub mime_type: Option<Vec<u8>>,
}

/// What one scan of a library found.
pub struct LibraryScanResult {
    /// The scanned library's identifier, handed back unchanged.
    pub library_id: Vec<u8>,
    /// The media files that were not yet known.
    pub new_files: Vec<DiscoveredFile>,
    /// The known paths the scan no longer found.
    pub removed_paths: Vec<Vec<u8>>,
    /// How many distinct media paths the scan found in all.
    pub total_found: usize,
    /// Always empty: a failed listing never reaches the scan.
    pub errors: Vec<Vec<u8>>,
}

/// The lower-cased extension of a name: what stands after the last dot, or
/// the whole name when it has none.
pub open spec fn ext_of(name: Seq<u8>) -> Seq<u8> {
    match index_of_last(name, DOT) {
        Some(i) => name.skip(i + 1).map_values(|b: u8| ascii_lower(b)),
        None => name.map_values(|b: u8| ascii_lower(b)),
    }
}

/// The file extensions the scan keeps: video, audio, books and audiobooks.
pub open spec fn is_media_ext(e: Seq<u8>) -> bool {
    ||| e == seq![0x6Du8, 0x6B, 0x76]  // mkv
    ||| e == seq![0x6Du8, 0x70, 0x34]  // mp4
    ||| e == seq![0x61u8, 0x76, 0x69]  // avi
    ||| e == seq![0x6Du8, 0x6F, 0x76]  // mov
    ||| e == seq![0x77u8, 0x6D, 0x76]  // wmv
    ||| e == seq![0x6Du8, 0x34, 0x76]  // m4v
    ||| e == seq![0x74u8, 0x73]  // ts
    ||| e == seq![0x77u8, 0x65, 0x62, 0x6D]  // webm
    ||| e == seq![0x6Du8, 0x70, 0x33]  // mp3
    ||| e == seq![0x66u8, 0x6C, 0x61, 0x63]  // flac
    ||| e == seq![0x61u8, 0x61, 0x63]  // aac
    ||| e == seq![0x6Fu8, 0x67, 0x67]  // ogg
    ||| e == seq![0x6Du8, 0x34, 0x61]  // m4a
    ||| e == seq![0x77u8, 0x61, 0x76]  // wav
    ||| e == seq![0x6Fu8, 0x70, 0x75, 0x73]  // opus
    ||| e == seq![0x65u8, 0x70, 0x75, 0x62]  // epub
    ||| e == seq![0x70u8, 0x64, 0x66]  // pdf
    ||| e == seq![0x6Du8, 0x34, 0x62]  // m4b
    ||| e == seq![0x61u8, 0x61, 0x78]  // aax
}

/// A listed entry the scan keeps: a file whose extension is a media one.
pub open spec fn media_file(it: RcloneListItem) -> bool {
    !it.is_dir && is_media_ext(ext_of(it.name@))
}

/// A scanned root stripped of trailing slashes.
pub open spec fn trim_end_slashes(s: Seq<u8>) -> Seq<u8> {
    s.take(s.len() - trailing_run(s, SLASH))
}

/// The full remote path of a listed entry below the scanned root.
pub open spec fn full_path_of(root: Seq<u8>, it: RcloneListItem) -> Seq<u8> {
    trim_end_slashes(root) + seq![SLASH] + it.path@
}

/// The distinct media paths a scan finds, in listing order.
pub open spec fn found_fold(root: Seq<u8>, items: Seq<RcloneListItem>, acc: Seq<Seq<u8>>) -> Seq<
    Seq<u8>,
>
    decreases items.len(),
{
    if items.len() == 0 {
        acc
    } else {
        let acc2 = if media_file(items[0]) && !acc.contains(full_path_of(root, items[0])) {
            acc.push(full_path_of(root, items[0]))
        } else {
            acc
        };
        found_fold(root, items.drop_first(), acc2)
    }
}

/// What one discovered file carries: path, name, size and MIME type.
pub open spec fn file_entry(f: DiscoveredFile) -> (Seq<u8>, Seq<u8>, i64, Option<Seq<u8>>) {
    (f.remote_path@, f.filename@, f.size, f.mime_type.deep_view())
}

/// The entries of a sequence of discovered files.
pub open spec fn file_entries(fs: Seq<DiscoveredFile>) -> Seq<
    (Seq<u8>, Seq<u8>, i64, Option<Seq<u8>>),
>
    decreases fs.len(),
{
    if fs.len() == 0 {
        Seq::empty()
    } else {
        seq![file_entry(fs[0])] + file_entries(fs.drop_first())
    }
}

/// `file_entries` keeps the length.
pub proof fn lemma_file_entries_len(fs: Seq<DiscoveredFile>)
    ensures
        file_entries(fs).len() == fs.len(),
    decreases fs.len(),
{
    if fs.len() > 0 {
        lemma_file_entries_len(fs.drop_first());
    }
}

/// `file_entries` read pointwise.
pub proof fn lemma_file_entries_index(fs: Seq<DiscoveredFile>, k: int)
    requires
        0 <= k < fs.len(),
    ensures
        file_entries(fs).len() == fs.len(),
        file_entries(fs)[k] == file_entry(fs[k]),
    decreases fs.len(),
{
    lemma_file_entries_len(fs);
    if k > 0 {
        lemma_file_entries_index(fs.drop_first(), k - 1);
    }
}

/// Appending one file appends its entry.
proof fn lemma_file_entries_snoc(fs0: Seq<DiscoveredFile>, fs1: Seq<DiscoveredFile>)
    requires
        fs1.len() == fs0.len() + 1,
        forall|k: int| 0 <= k < fs0.len() ==> fs1[k] == fs0[k],
    ensures
        file_entries(fs1) == file_entries(fs0).push(file_entry(fs1.last())),
    decreases fs0.len(),
{
    if fs0.len() == 0 {
        assert(fs1.len() == 1);
        assert(fs1.last() == fs1[0]);
        assert(fs1.drop_first() =~= Seq::<DiscoveredFile>::empty());
        assert(file_entries(fs1) == seq![file_entry(fs1[0])] + file_entries(fs1.drop_first()));
        assert(file_entries(fs1) =~= file_entries(fs0).push(file_entry(fs1.last())));
    } else {
        assert(fs1[0] == fs0[0]);
        assert forall|k: int|
            0 <= k < fs0.drop_first().len() implies fs1.drop_first()[k] == fs0.drop_first()[k] by {
            assert(fs1[k + 1] == fs0[k + 1]);
        }
        lemma_file_entries_snoc(fs0.drop_first(), fs1.drop_first());
        assert(fs1.drop_first().last() == fs1.last());
        lemma_file_entries_len(fs0.drop_first());
        assert(file_entries(fs1) == seq![file_entry(fs1[0])] + file_entries(fs1.drop_first()));
        assert(file_entries(fs0) == seq![file_entry(fs0[0])] + file_entries(fs0.drop_first()));
        assert(file_entries(fs1) =~= file_entries(fs0).push(file_entry(fs1.last())));
    }
}

/// The new files a scan reports: each kept entry whose full path is not
/// yet known, in listing order, one entry per listed item.
pub open spec fn new_file_entries(
    root: Seq<u8>,
    items: Seq<RcloneListItem>,
    known: Seq<Seq<u8>>,
) -> Seq<(Seq<u8>, Seq<u8>, i64, Option<Seq<u8>>)>
    decreases items.len(),
{
    if items.len() == 0 {
        Seq::empty()
    } else {
        (if media_file(items[0]) && !known.contains(full_path_of(root, items[0])) {
            seq![
                (
                    full_path_of(root, items[0]),
                    items[0].name@,
                    items[0].size,
                    items[0].mime_type.deep_view(),
                ),
            ]
        } else {
            Seq::empty()
        }) + new_file_entries(root, items.drop_first(), known)
    }
}

/// The known paths a scan no longer finds: each known path outside the
/// found set, first occurrences only, in their known order.
pub open spec fn removed_fold(known: Seq<Seq<u8>>, found: Seq<Seq<u8>>, acc: Seq<Seq<u8>>) -> Seq<
    Seq<u8>,
>
    decreases known.len(),
{
    if known.len() == 0 {
        acc
    } else {
        let acc2 = if !found.contains(known[0]) && !acc.contains(known[0]) {
            acc.push(known[0])
        } else {
            acc
        };
        removed_fold(known.drop_first(), found, acc2)
    }
}

fn eq_bytes2(e: &[u8], a: u8, b: u8) -> (r: bool)
    ensures
        r == (e@ == seq![a, b]),
{
    if e.len() == 2 && e[0] == a && e[1] == b {
        proof {
            assert(e@ =~= seq![a, b]);
        }
        true
    } else {
        proof {
            if e@ == seq![a, b] {
                assert(e@.len() == 2 && e@[0] == a && e@[1] == b);
            }
        }
        false
    }
}

fn eq_bytes3(e: &[u8], a: u8, b: u8, c: u8) -> (r: bool)
    ensures
        r == (e@ == seq![a, b, c]),
{
    if e.len() == 3 && e[0] == a && e[1] == b && e[2] == c {
        proof {
            assert(e@ =~= seq![a, b, c]);
        }
        true
    } else {
        proof {
            if e@ == seq![a, b, c] {
                assert(e@.len() == 3 && e@[0] == a && e@[1] == b && e@[2] == c);
            }
        }
        false
    }
}

fn eq_bytes4(e: &[u8], a: u8, b: u8, c: u8, d: u8) -> (r: bool)
    ensures
        r == (e@ == seq![a, b, c, d]),
{
    if e.len() == 4 && e[0] == a && e[1] == b && e[2] == c && e[3] == d {
        proof {
            assert(e@ =~= seq![a, b, c, d]);
        }
        true
    } else {
        proof {
            if e@ == seq![a, b, c, d] {
                assert(e@.len() == 4 && e@[0] == a && e@[1] == b && e@[2] == c && e@[3] == d);
            }
        }
        false
    }
}

/// Whether an already lower-cased extension is a media one.
fn is_media_ext_bytes(e: &[u8]) -> (r: bool)
    ensures
        r == is_media_ext(e@),
{
    eq_bytes3(e, 0x6D, 0x6B, 0x76) || eq_bytes3(e, 0x6D, 0x70, 0x34) || eq_bytes3(
        e,
        0x61,
        0x76,
        0x69,
    ) || eq_bytes3(e, 0x6D, 0x6F, 0x76) || eq_bytes3(e, 0x77, 0x6D, 0x76) || eq_bytes3(
        e,
        0x6D,
        0x34,
        0x76,
    ) || eq_bytes2(e, 0x74, 0x73) || eq_bytes4(e, 0x77, 0x65, 0x62, 0x6D) || eq_bytes3(
        e,
        0x6D,
        0x70,
        0x33,
    ) || eq_bytes4(e, 0x66, 0x6C, 0x61, 0x63) || eq_bytes3(e, 0x61, 0x61, 0x63) || eq_bytes3(
        e,
        0x6F,
        0x67,
        0x67,
    ) || eq_bytes3(e, 0x6D, 0x34, 0x61) || eq_bytes3(e, 0x77, 0x61, 0x76) || eq_bytes4(
        e,
        0x6F,
        0x70,
        0x75,
        0x73,
    ) || eq_bytes4(e, 0x65, 0x70, 0x75, 0x62) || eq_bytes3(e, 0x70, 0x64, 0x66) || eq_bytes3(
        e,
        0x6D,
        0x34,
        0x62,
    ) || eq_bytes3(e, 0x61, 0x61, 0x78)
}

/// The lower-cased extension of a file name.
fn lower_ext(name: &[u8]) -> (r: Vec<u8>)
    ensures
        r@ == ext_of(name@),
{
    let n = name.len();
    let tail: &[u8] = match find_last_byte(name, DOT) {
        Some(i) => {
            proof {
                lemma_index_of_last_props(name@, DOT);
                assert(i < n);
            }
            slice_subrange(name, i + 1, n)
        },
        None => name,
    };
    let ghost t = tail@;
    let mut out: Vec<u8> = Vec::new();
    let mut i: usize = 0;
    proof {
        assert(out@ =~= t.take(0).map_values(|b: u8| ascii_lower(b)));
    }
    while i < tail.len()
        invariant
            t == tail@,
            i <= t.len(),
            out@ == t.take(i as int).map_values(|b: u8| ascii_lower(b)),
        decreases t.len() - i,
    {
        out.push(crate::bytes::ascii_lower_byte(tail[i]));
        proof {
            assert(out@ =~= t.take(i + 1).map_values(|b: u8| ascii_lower(b)));
        }
        i = i + 1;
    }
    proof {
        assert(t.take(t.len() as int) =~= t);
        match index_of_last(name@, DOT) {
            Some(k) => {
                assert(t =~= name@.skip(k + 1));
            },
            None => {
                assert(t =~= name@);
            },
        }
    }
    out
}

/// Whether a byte string stands in a list of byte strings.
fn contains_path(v: &Vec<Vec<u8>>, x: &[u8]) -> (r: bool)
    ensures
        r == v.deep_view().contains(x@),
{
    let mut i: usize = 0;
    while i < v.len()
        invariant
            i <= v@.len(),
            forall|j: int| 0 <= j < i ==> v.deep_view()[j] != x@,
        decreases v@.len() - i,
    {
        let e = &v[i];
        proof {
            assert(v.deep_view()[i as int] == v@[i as int].deep_view());
            assert(v@[i as int].deep_view() =~= e@);
        }
        if crate::bytes::slice_eq(e.as_slice(), x) {
            proof {
                assert(v.deep_view()[i as int] == x@);
                assert(v.deep_view().contains(x@));
            }
            return true;
        }
        i = i + 1;
    }
    proof {
        if v.deep_view().contains(x@) {
            let j = choose|j: int| 0 <= j < v.deep_view().len() && v.deep_view()[j] == x@;
            assert(v.deep_view()[j] != x@);
        }
    }
    false
}

/// Scan a remote listing for a library: keep the media files, report those
/// whose paths the library does not know yet as new, and report the known
/// paths the listing no longer holds as removed.
pub fn scan_library_files(
    remote_path: &[u8],
    items: &Vec<RcloneListItem>,
    library_id: Vec<u8>,
    known_paths: &Vec<Vec<u8>>,
) -> (r: LibraryScanResult)
    ensures
        ({
            let found = found_fold(remote_path@, items@, Seq::empty());
            let known = known_paths.deep_view();
            &&& r.library_id@ == library_id@
            &&& r.errors@.len() == 0
            &&& r.total_found == found.len()
            &&& file_entries(r.new_files@) == new_file_entries(remote_path@, items@, known)
            &&& r.new_files@.len() == new_file_entries(remote_path@, items@, known).len()
            &&& (forall|k: int|
                0 <= k < r.new_files@.len() ==> file_entry(#[trigger] r.new_files@[k])
                    == new_file_entries(remote_path@, items@, known)[k])
            &&& (forall|k: int| 0 <= k < r.new_files@.len() ==> r.new_files@[k].is_dir == false)
            &&& r.removed_paths.deep_view() == removed_fold(known, found, Seq::empty())
        }),
{
    let ghost root = remote_path@;
    let ghost known = known_paths.deep_view();
    proof {
        crate::bytes::lemma_trailing_run_props(remote_path@, SLASH);
    }
    let tr = crate::bytes::trailing_run_len(remote_path, SLASH);
    let root_trimmed = slice_subrange(remote_path, 0, remote_path.len() - tr);
    proof {
        assert(root_trimmed@ =~= trim_end_slashes(root));
    }
    let mut found: Vec<Vec<u8>> = Vec::new();
    let mut new_files: Vec<DiscoveredFile> = Vec::new();
    let mut i: usize = 0;
    proof {
        assert(items@.skip(0) =~= items@);
        lemma_file_entries_len(new_files@);
        assert(file_entries(new_files@) =~= Seq::<
            (Seq<u8>, Seq<u8>, i64, Option<Seq<u8>>),
        >::empty());
        assert(found.deep_view() =~= Seq::<Seq<u8>>::empty());
    }
    while i < items.len()
        invariant
            root == remote_path@,
            known == known_paths.deep_view(),
            i <= items@.len(),
            found_fold(root, items@.skip(i as int), found.deep_view()) == found_fold(
                root,
                items@,
                Seq::empty(),
            ),
            file_entries(new_files@) + new_file_entries(root, items@.skip(i as int), known)
                == new_file_entries(root, items@, known),
            forall|k: int| 0 <= k < new_files@.len() ==> new_files@[k].is_dir == false,
            root_trimmed@ == trim_end_slashes(root),
        decreases items@.len() - i,
    {
        let ghost pending = items@.skip(i as int);
        proof {
            assert(pending[0] == items@[i as int]);
            assert(pending.drop_first() =~= items@.skip(i + 1));
        }
        let it = &items[i];
        let ghost found0 = found.deep_view();
        if !it.is_dir {
            let ext = lower_ext(it.name.as_slice());
            if is_media_ext_bytes(ext.as_slice()) {
                proof {
                    assert(media_file(items@[i as int]));
                }
                let mut fp = slice_to_vec(root_trimmed);
                fp.push(SLASH);
                let mut p = slice_to_vec(it.path.as_slice());
                fp.append(&mut p);
                proof {
                    assert(fp@ =~= full_path_of(root, items@[i as int]));
                }
                if !contains_path(&found, fp.as_slice()) {
                    let fp2 = slice_to_vec(fp.as_slice());
                    let ghost foundpre = found.deep_view();
                    found.push(fp2);
                    proof {
                        assert forall|k: int| 0 <= k < found.deep_view().len() implies found
                            .deep_view()[k] == foundpre.push(fp@)[k] by {
                            if k < foundpre.len() {
                                assert(found@[k] == found@.drop_last()[k]);
                            } else {
                                assert(found@[k].deep_view() =~= fp@);
                            }
                        }
                        assert(found.deep_view() =~= foundpre.push(fp@));
                    }
                }
                if !contains_path(known_paths, fp.as_slice()) {
                    let filename = slice_to_vec(it.name.as_slice());
                    let mime: Option<Vec<u8>> = match &it.mime_type {
                        Some(m) => Some(slice_to_vec(m.as_slice())),
                        None => None,
                    };
                    let ghost nf0 = new_files@;
                    let entry = DiscoveredFile {
                        remote_path: fp,
                        filename,
                        size: it.size,
                        is_dir: false,
                        mime_type: mime,
                    };
                    proof {
                        assert(entry.mime_type.deep_view() =~~= items@[i as int].mime_type.deep_view());
                        assert(file_entry(entry) == (
                            full_path_of(root, items@[i as int]),
                            items@[i as int].name@,
                            items@[i as int].size,
                            items@[i as int].mime_type.deep_view(),
                        ));
                    }
                    new_files.push(entry);
                    proof {
                        lemma_file_entries_snoc(nf0, new_files@);
                    }
                }
            } else {
                proof {
                    assert(!media_file(items@[i as int]));
                }
            }
        } else {
            proof {
                assert(!media_file(items@[i as int]));
            }
        }
        proof {
            assert(found_fold(root, items@.skip(i + 1), found.deep_view()) == found_fold(
                root,
                items@,
                Seq::empty(),
            ));
            assert(file_entries(new_files@) + new_file_entries(root, items@.skip(i + 1), known)
                =~= new_file_entries(root, items@, known));
        }
        i = i + 1;
    }
    proof {
        assert(items@.skip(items@.len() as int) =~= Seq::<RcloneListItem>::empty());
        assert(file_entries(new_files@) + Seq::<
            (Seq<u8>, Seq<u8>, i64, Option<Seq<u8>>),
        >::empty() =~= file_entries(new_files@));
        lemma_file_entries_len(new_files@);
        assert forall|k: int|
            0 <= k < new_files@.len() implies file_entry(#[trigger] new_files@[k])
            == file_entries(new_files@)[k] by {
            lemma_file_entries_index(new_files@, k);
        }
    }
    let ghost found_final = found.deep_view();
    let total_found = found.len();
    proof {
        assert(found_final.len() == found@.len());
    }
    let mut removed: Vec<Vec<u8>> = Vec::new();
    let mut j: usize = 0;
    proof {
        assert(known.skip(0) =~= known);
        assert(removed.deep_view() =~= Seq::<Seq<u8>>::empty());
    }
    while j < known_paths.len()
        invariant
            known == known_paths.deep_view(),
            found_final == found.deep_view(),
            j <= known_paths@.len(),
            known.len() == known_paths@.len(),
            removed_fold(known.skip(j as int), found_final, removed.deep_view()) == removed_fold(
                known,
                found_final,
                Seq::empty(),
            ),
        decreases known_paths@.len() - j,
    {
        let ghost pending = known.skip(j as int);
        proof {
            assert(pending[0] == known[j as int]);
            assert(pending.drop_first() =~= known.skip(j + 1));
        }
        let kp = &known_paths[j];
        proof {
            assert(known_paths.deep_view()[j as int] == known_paths@[j as int].deep_view());
            assert(kp@ =~= known[j as int]);
        }
        if !contains_path(&found, kp.as_slice()) && !contains_path(&removed, kp.as_slice()) {
            let kp2 = slice_to_vec(kp.as_slice());
            let ghost rem0 = removed.deep_view();
            removed.push(kp2);
            proof {
                assert forall|k: int| 0 <= k < removed.deep_view().len() implies removed
                    .deep_view()[k] == rem0.push(known[j as int])[k] by {
                    if k < rem0.len() {
                        assert(removed@[k] == removed@.drop_last()[k]);
                    } else {
                        assert(removed@[k].deep_view() =~= known[j as int]);
                    }
                }
                assert(removed.deep_view() =~= rem0.push(known[j as int]));
            }
        }
        proof {
            assert(removed_fold(known.skip(j + 1), found_final, removed.deep_view())
                == removed_fold(known, found_final, Seq::empty()));
        }
        j = j + 1;
    }
    proof {
        assert(known.skip(known.len() as int) =~= Seq::<Seq<u8>>::empty());
    }
    LibraryScanResult { library_id, new_files, removed_paths: removed, total_found, errors: Vec::new() }
}

/// The hash step of one byte: multiply by 33 and add, both wrapping.
pub open spec fn djb2_step(h: u64, b: u8) -> u64 {
    vstd::wrapping::u64_specs::wrapping_add(
        vstd::wrapping::u64_specs::wrapping_mul(h, 33),
        b as u64,
    )
}

/// The hash of a byte string, folded left to right from the seed 5381.
pub open spec fn djb2_acc(s: Seq<u8>, h: u64) -> u64
    decreases s.len(),
{
    if s.len() == 0 {
        h
    } else {
        djb2_acc(s.drop_first(), djb2_step(h, s[0]))
    }
}

/// The ASCII code of the lower-case hexadecimal digit for a value below 16.
pub open spec fn hex_lower(n: int) -> u8
    recommends
        0 <= n < 16,
{
    if n < 10 {
        (DIGIT_0 + n) as u8
    } else {
        (0x61 + (n - 10)) as u8
    }
}

/// A number written as `digits` lower-case hexadecimal digits, most
/// significant first, leading zeroes kept.
pub open spec fn hex_fixed(n: int, digits: int) -> Seq<u8>
    decreases digits,
{
    if digits <= 0 {
        Seq::empty()
    } else {
        hex_fixed(n / 16, digits - 1) + seq![hex_lower(n % 16)]
    }
}

fn push_hex_fixed(out: &mut Vec<u8>, n: u64, digits: u8)
    ensures
        final(out)@ == old(out)@ + hex_fixed(n as int, digits as int),
    decreases digits,
{
    if digits == 0 {
        proof {
            assert(out@ =~= old(out)@ + hex_fixed(n as int, 0));
        }
    } else {
        push_hex_fixed(out, n / 16, digits - 1);
        let d = (n % 16) as u8;
        if d < 10 {
            out.push(DIGIT_0 + d);
        } else {
            out.push(0x61 + (d - 10));
        }
        proof {
            assert(out@ =~= old(out)@ + hex_fixed(n as int, digits as int));
        }
    }
}

/// The stable identifier of a media item: the 16-digit lower-case
/// hexadecimal form of the remote path's 64-bit fold hash.
pub fn hash_remote_path(remote_path: &[u8]) -> (r: Vec<u8>)
    ensures
        r@ == hex_fixed(djb2_acc(remote_path@, 5381) as int, 16),
{
    let mut hash: u64 = 5381;
    let mut i: usize = 0;
    proof {
        assert(remote_path@.skip(0) =~= remote_path@);
    }
    while i < remote_path.len()
        invariant
            i <= remote_path@.len(),
            djb2_acc(remote_path@.skip(i as int), hash) == djb2_acc(remote_path@, 5381),
        decreases remote_path@.len() - i,
    {
        let ghost pend = remote_path@.skip(i as int);
        proof {
            assert(pend[0] == remote_path@[i as int]);
            assert(pend.drop_first() =~= remote_path@.skip(i + 1));
        }
        hash = hash.wrapping_mul(33).wrapping_add(remote_path[i] as u64);
        i = i + 1;
    }
    proof {
        assert(remote_path@.skip(remote_path@.len() as int) =~= Seq::<u8>::empty());
    }
    let mut out: Vec<u8> = Vec::new();
    push_hex_fixed(&mut out, hash, 16);
    proof {
        assert(out@ =~= hex_fixed(djb2_acc(remote_path@, 5381) as int, 16));
    }
    out
}

} // verus!
