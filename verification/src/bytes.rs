//! Byte-string utilities.
//!
//! The parsers of this library work on UTF-8 bytes. This module holds the
//! shared primitives: finding a byte, measuring runs to trim, ASCII case
//! handling, substring search, and splitting into lines and
//! whitespace-separated fields.

use vstd::prelude::*;
use vstd::slice::{slice_subrange, slice_to_vec};

verus! {

/// ASCII line feed.
pub const LF: u8 = 0x0A;

/// ASCII carriage return.
pub const CR: u8 = 0x0D;

/// ASCII horizontal tab.
pub const TAB: u8 = 0x09;

/// ASCII vertical tab.
pub const VTAB: u8 = 0x0B;

/// ASCII form feed.
pub const FEED: u8 = 0x0C;

/// ASCII `:`.
pub const COLON: u8 = 0x3A;

/// ASCII `=`.
pub const EQ_SIGN: u8 = 0x3D;

/// ASCII whitespace.
pub open spec fn is_ws(b: u8) -> bool {
    b == crate::encode::SPACE || b == TAB || b == LF || b == CR || b == VTAB || b == FEED
}

/// Whether a byte is ASCII whitespace.
pub fn is_ws_byte(b: u8) -> (r: bool)
    ensures
        r == is_ws(b),
{
    b == crate::encode::SPACE || b == TAB || b == LF || b == CR || b == VTAB || b == FEED
}

/// The position of the first occurrence of a byte, if any.
pub open spec fn index_of_first(s: Seq<u8>, b: u8) -> Option<int>
    decreases s.len(),
{
    if s.len() == 0 {
        None
    } else if s[0] == b {
        Some(0)
    } else {
        match index_of_first(s.drop_first(), b) {
            Some(i) => Some(i + 1),
            None => None,
        }
    }
}

/// What `index_of_first` means: the named position holds the byte and no
/// earlier one does; `None` means the byte does not occur.
pub proof fn lemma_index_of_first_props(s: Seq<u8>, b: u8)
    ensures
        match index_of_first(s, b) {
            Some(i) => 0 <= i < s.len() && s[i] == b && (forall|j: int| 0 <= j < i ==> s[j] != b),
            None => forall|j: int| 0 <= j < s.len() ==> s[j] != b,
        },
    decreases s.len(),
{
    if s.len() > 0 && s[0] != b {
        lemma_index_of_first_props(s.drop_first(), b);
        match index_of_first(s.drop_first(), b) {
            Some(i) => {
                assert(forall|j: int| 0 <= j < i ==> s.drop_first()[j] != b);
                assert forall|j: int| 0 <= j < i + 1 implies s[j] != b by {
                    if j > 0 {
                        assert(s.drop_first()[j - 1] != b);
                    }
                }
            },
            None => {
                assert forall|j: int| 0 <= j < s.len() implies s[j] != b by {
                    if j > 0 {
                        assert(s.drop_first()[j - 1] != b);
                    }
                }
            },
        }
    }
}

/// A position holding the byte with none before it is the first occurrence.
pub proof fn lemma_index_of_first_unique(s: Seq<u8>, b: u8, i: int)
    requires
        0 <= i < s.len(),
        s[i] == b,
        forall|j: int| 0 <= j < i ==> s[j] != b,
    ensures
        index_of_first(s, b) == Some(i),
    decreases s.len(),
{
    if s[0] != b {
        assert(s.drop_first()[i - 1] == b);
        assert(forall|j: int| 0 <= j < i - 1 ==> s.drop_first()[j] == s[j + 1]);
        lemma_index_of_first_unique(s.drop_first(), b, i - 1);
    }
}

/// Find the first occurrence of a byte.
pub fn find_byte(s: &[u8], b: u8) -> (r: Option<usize>)
    ensures
        match r {
            Some(i) => index_of_first(s@, b) == Some(i as int),
            None => index_of_first(s@, b) is None,
        },
{
    let mut k: usize = 0;
    while k < s.len()
        invariant
            k <= s@.len(),
            forall|j: int| 0 <= j < k ==> s@[j] != b,
        decreases s@.len() - k,
    {
        if s[k] == b {
            proof {
                lemma_index_of_first_unique(s@, b, k as int);
            }
            return Some(k);
        }
        k = k + 1;
    }
    proof {
        lemma_index_of_first_props(s@, b);
    }
    None
}

/// How many copies of a byte the string starts with.
pub open spec fn leading_run(s: Seq<u8>, b: u8) -> int
    decreases s.len(),
{
    if s.len() == 0 || s[0] != b {
        0
    } else {
        1 + leading_run(s.drop_first(), b)
    }
}

/// What `leading_run` means: every byte before it matches and the byte at
/// it, if any, does not.
pub proof fn lemma_leading_run_props(s: Seq<u8>, b: u8)
    ensures
        0 <= leading_run(s, b) <= s.len(),
        forall|j: int| 0 <= j < leading_run(s, b) ==> s[j] == b,
        leading_run(s, b) < s.len() ==> s[leading_run(s, b)] != b,
    decreases s.len(),
{
    if s.len() > 0 && s[0] == b {
        lemma_leading_run_props(s.drop_first(), b);
        let r = leading_run(s, b);
        assert forall|j: int| 0 <= j < r implies s[j] == b by {
            if j > 0 {
                assert(s.drop_first()[j - 1] == b);
            }
        }
    }
}

/// The length of the leading run of a byte — what is cut when trimming it
/// from the start.
pub fn leading_run_len(s: &[u8], b: u8) -> (r: usize)
    ensures
        r == leading_run(s@, b),
{
    proof {
        lemma_leading_run_props(s@, b);
    }
    let mut k: usize = 0;
    while k < s.len() && s[k] == b
        invariant
            k <= s@.len(),
            forall|j: int| 0 <= j < k ==> s@[j] == b,
            k <= leading_run(s@, b),
        decreases s@.len() - k,
    {
        k = k + 1;
        proof {
            if k > leading_run(s@, b) {
                lemma_leading_run_props(s@, b);
                assert(s@[leading_run(s@, b)] == b);
                assert(false);
            }
        }
    }
    proof {
        lemma_leading_run_props(s@, b);
        if k < leading_run(s@, b) {
            assert(s@[k as int] == b);
        }
    }
    k
}

/// How many copies of a byte the string ends with.
pub open spec fn trailing_run(s: Seq<u8>, b: u8) -> int
    decreases s.len(),
{
    if s.len() == 0 || s.last() != b {
        0
    } else {
        1 + trailing_run(s.drop_last(), b)
    }
}

/// What `trailing_run` means: every byte after `len - run` matches and the
/// byte before, if any, does not.
pub proof fn lemma_trailing_run_props(s: Seq<u8>, b: u8)
    ensures
        0 <= trailing_run(s, b) <= s.len(),
        forall|j: int| s.len() - trailing_run(s, b) <= j < s.len() ==> s[j] == b,
        trailing_run(s, b) < s.len() ==> s[s.len() - trailing_run(s, b) - 1] != b,
    decreases s.len(),
{
    if s.len() > 0 && s.last() == b {
        lemma_trailing_run_props(s.drop_last(), b);
        assert forall|j: int| s.len() - trailing_run(s, b) <= j < s.len() implies s[j] == b by {
            if j < s.len() - 1 {
                assert(s.drop_last()[j] == b);
            }
        }
    }
}

/// The length of the trailing run of a byte — what is cut when trimming it
/// from the end.
pub fn trailing_run_len(s: &[u8], b: u8) -> (r: usize)
    ensures
        r == trailing_run(s@, b),
{
    proof {
        lemma_trailing_run_props(s@, b);
    }
    let mut k: usize = 0;
    while k < s.len() && s[s.len() - 1 - k] == b
        invariant
            k <= s@.len(),
            forall|j: int| s@.len() - k <= j < s@.len() ==> s@[j] == b,
            k <= trailing_run(s@, b),
        decreases s@.len() - k,
    {
        k = k + 1;
        proof {
            if k > trailing_run(s@, b) {
                lemma_trailing_run_props(s@, b);
                assert(s@[s@.len() - trailing_run(s@, b) - 1] == b);
                assert(false);
            }
        }
    }
    proof {
        lemma_trailing_run_props(s@, b);
        if k < trailing_run(s@, b) {
            assert(s@[s@.len() - 1 - k] == b);
        }
    }
    k
}

/// How many whitespace bytes the string starts with.
pub open spec fn leading_ws_run(s: Seq<u8>) -> int
    decreases s.len(),
{
    if s.len() == 0 || !is_ws(s[0]) {
        0
    } else {
        1 + leading_ws_run(s.drop_first())
    }
}

/// What `leading_ws_run` means.
pub proof fn lemma_leading_ws_run_props(s: Seq<u8>)
    ensures
        0 <= leading_ws_run(s) <= s.len(),
        forall|j: int| 0 <= j < leading_ws_run(s) ==> is_ws(s[j]),
        leading_ws_run(s) < s.len() ==> !is_ws(s[leading_ws_run(s)]),
    decreases s.len(),
{
    if s.len() > 0 && is_ws(s[0]) {
        lemma_leading_ws_run_props(s.drop_first());
        assert forall|j: int| 0 <= j < leading_ws_run(s) implies is_ws(s[j]) by {
            if j > 0 {
                assert(is_ws(s.drop_first()[j - 1]));
            }
        }
    }
}

/// How many whitespace bytes the string ends with.
pub open spec fn trailing_ws_run(s: Seq<u8>) -> int
    decreases s.len(),
{
    if s.len() == 0 || !is_ws(s.last()) {
        0
    } else {
        1 + trailing_ws_run(s.drop_last())
    }
}

/// What `trailing_ws_run` means.
pub proof fn lemma_trailing_ws_run_props(s: Seq<u8>)
    ensures
        0 <= trailing_ws_run(s) <= s.len(),
        forall|j: int| s.len() - trailing_ws_run(s) <= j < s.len() ==> is_ws(s[j]),
        trailing_ws_run(s) < s.len() ==> !is_ws(s[s.len() - trailing_ws_run(s) - 1]),
    decreases s.len(),
{
    if s.len() > 0 && is_ws(s.last()) {
        lemma_trailing_ws_run_props(s.drop_last());
        assert forall|j: int| s.len() - trailing_ws_run(s) <= j < s.len() implies is_ws(s[j]) by {
            if j < s.len() - 1 {
                assert(is_ws(s.drop_last()[j]));
            }
        }
    }
}

/// A byte string stripped of leading and trailing ASCII whitespace.
pub open spec fn trim_ws_spec(s: Seq<u8>) -> Seq<u8> {
    if leading_ws_run(s) + trailing_ws_run(s) >= s.len() {
        Seq::empty()
    } else {
        s.subrange(leading_ws_run(s), s.len() - trailing_ws_run(s))
    }
}

/// Trim leading and trailing ASCII whitespace.
pub fn trim_ws(s: &[u8]) -> (r: Vec<u8>)
    ensures
        r@ == trim_ws_spec(s@),
{
    proof {
        lemma_leading_ws_run_props(s@);
        lemma_trailing_ws_run_props(s@);
    }
    let mut l: usize = 0;
    while l < s.len() && is_ws_byte(s[l])
        invariant
            l <= s@.len(),
            forall|j: int| 0 <= j < l ==> is_ws(s@[j]),
            l <= leading_ws_run(s@),
        decreases s@.len() - l,
    {
        l = l + 1;
        proof {
            if l > leading_ws_run(s@) {
                lemma_leading_ws_run_props(s@);
                assert(!is_ws(s@[leading_ws_run(s@)]));
                assert(false);
            }
        }
    }
    proof {
        lemma_leading_ws_run_props(s@);
        if l < leading_ws_run(s@) {
            assert(!is_ws(s@[l as int]));
        }
    }
    let mut t: usize = 0;
    while t < s.len() && is_ws_byte(s[s.len() - 1 - t])
        invariant
            t <= s@.len(),
            forall|j: int| s@.len() - t <= j < s@.len() ==> is_ws(s@[j]),
            t <= trailing_ws_run(s@),
        decreases s@.len() - t,
    {
        t = t + 1;
        proof {
            if t > trailing_ws_run(s@) {
                lemma_trailing_ws_run_props(s@);
                assert(!is_ws(s@[s@.len() - trailing_ws_run(s@) - 1]));
                assert(false);
            }
        }
    }
    proof {
        lemma_trailing_ws_run_props(s@);
        if t < trailing_ws_run(s@) {
            assert(!is_ws(s@[s@.len() - 1 - t]));
        }
    }
    if l >= s.len() - t {
        let r: Vec<u8> = Vec::new();
        proof {
            assert(r@ =~= trim_ws_spec(s@));
        }
        r
    } else {
        slice_to_vec(slice_subrange(s, l, s.len() - t))
    }
}

/// ASCII lower case of one byte.
pub open spec fn ascii_lower(b: u8) -> u8 {
    if crate::encode::UPPER_A <= b && b <= crate::encode::UPPER_Z {
        (b + 0x20) as u8
    } else {
        b
    }
}

/// Lower one byte to ASCII lower case.
pub fn ascii_lower_byte(b: u8) -> (r: u8)
    ensures
        r == ascii_lower(b),
{
    if crate::encode::UPPER_A <= b && b <= crate::encode::UPPER_Z {
        b + 0x20
    } else {
        b
    }
}

/// ASCII upper case of one byte.
pub open spec fn ascii_upper(b: u8) -> u8 {
    if crate::encode::LOWER_A <= b && b <= crate::encode::LOWER_Z {
        (b - 0x20) as u8
    } else {
        b
    }
}

/// Raise one byte to ASCII upper case.
pub fn ascii_upper_byte(b: u8) -> (r: u8)
    ensures
        r == ascii_upper(b),
{
    if crate::encode::LOWER_A <= b && b <= crate::encode::LOWER_Z {
        b - 0x20
    } else {
        b
    }
}

/// The position of the last occurrence of a byte, if any.
pub open spec fn index_of_last(s: Seq<u8>, b: u8) -> Option<int>
    decreases s.len(),
{
    if s.len() == 0 {
        None
    } else if s.last() == b {
        Some(s.len() - 1)
    } else {
        index_of_last(s.drop_last(), b)
    }
}

/// What `index_of_last` means: the named position holds the byte and no
/// later one does; `None` means the byte does not occur.
pub proof fn lemma_index_of_last_props(s: Seq<u8>, b: u8)
    ensures
        match index_of_last(s, b) {
            Some(i) => 0 <= i < s.len() && s[i] == b && (forall|j: int|
                i < j < s.len() ==> s[j] != b),
            None => forall|j: int| 0 <= j < s.len() ==> s[j] != b,
        },
    decreases s.len(),
{
    if s.len() > 0 && s.last() != b {
        lemma_index_of_last_props(s.drop_last(), b);
        match index_of_last(s.drop_last(), b) {
            Some(i) => {
                assert(s[i] == s.drop_last()[i]);
                assert forall|j: int| i < j < s.len() implies s[j] != b by {
                    if j < s.len() - 1 {
                        assert(s.drop_last()[j] != b);
                    }
                }
            },
            None => {
                assert forall|j: int| 0 <= j < s.len() implies s[j] != b by {
                    if j < s.len() - 1 {
                        assert(s.drop_last()[j] != b);
                    }
                }
            },
        }
    }
}

/// A position holding the byte with none after it is the last occurrence.
pub proof fn lemma_index_of_last_unique(s: Seq<u8>, b: u8, i: int)
    requires
        0 <= i < s.len(),
        s[i] == b,
        forall|j: int| i < j < s.len() ==> s[j] != b,
    ensures
        index_of_last(s, b) == Some(i),
    decreases s.len(),
{
    if s.last() != b {
        assert(s.drop_last()[i] == b);
        assert(forall|j: int| i < j < s.drop_last().len() ==> s.drop_last()[j] == s[j]);
        lemma_index_of_last_unique(s.drop_last(), b, i);
    }
}

/// Find the last occurrence of a byte.
pub fn find_last_byte(s: &[u8], b: u8) -> (r: Option<usize>)
    ensures
        match r {
            Some(i) => index_of_last(s@, b) == Some(i as int),
            None => index_of_last(s@, b) is None,
        },
{
    let mut k: usize = s.len();
    while k > 0
        invariant
            k <= s@.len(),
            forall|j: int| k <= j < s@.len() ==> s@[j] != b,
        decreases k,
    {
        k = k - 1;
        if s[k] == b {
            proof {
                lemma_index_of_last_unique(s@, b, k as int);
            }
            return Some(k);
        }
    }
    proof {
        lemma_index_of_last_props(s@, b);
    }
    None
}

/// Two byte strings are equal up to ASCII case.
pub open spec fn seq_ieq(a: Seq<u8>, b: Seq<u8>) -> bool {
    a.len() == b.len() && forall|i: int| 0 <= i < a.len() ==> ascii_lower(a[i]) == ascii_lower(b[i])
}

/// Compare two byte strings ignoring ASCII case.
pub fn eq_ignore_ascii_case(a: &[u8], b: &[u8]) -> (r: bool)
    ensures
        r == seq_ieq(a@, b@),
{
    if a.len() != b.len() {
        return false;
    }
    let mut i: usize = 0;
    while i < a.len()
        invariant
            a@.len() == b@.len(),
            i <= a@.len(),
            forall|j: int| 0 <= j < i ==> ascii_lower(a@[j]) == ascii_lower(b@[j]),
        decreases a@.len() - i,
    {
        if ascii_lower_byte(a[i]) != ascii_lower_byte(b[i]) {
            return false;
        }
        i = i + 1;
    }
    true
}

/// One line as `str::lines` yields it: a trailing carriage return dropped.
pub open spec fn strip_cr(s: Seq<u8>) -> Seq<u8> {
    if s.len() > 0 && s.last() == CR {
        s.drop_last()
    } else {
        s
    }
}

/// Split into lines: a line feed ends a line and is consumed, a carriage
/// return before it is dropped, and a final line feed closes the last line
/// rather than opening an empty one — as `str::lines` splits.
pub open spec fn split_lines_spec(s: Seq<u8>) -> Seq<Seq<u8>>
    decreases s.len(),
    via split_lines_spec_decreases
{
    if s.len() == 0 {
        Seq::empty()
    } else {
        match index_of_first(s, LF) {
            Some(i) => seq![strip_cr(s.take(i))] + split_lines_spec(s.skip(i + 1)),
            None => seq![strip_cr(s)],
        }
    }
}

#[via_fn]
proof fn split_lines_spec_decreases(s: Seq<u8>) {
    lemma_index_of_first_props(s, LF);
}

fn strip_cr_vec(s: &[u8]) -> (r: Vec<u8>)
    ensures
        r@ == strip_cr(s@),
{
    if s.len() > 0 && s[s.len() - 1] == CR {
        let r = slice_to_vec(slice_subrange(s, 0, s.len() - 1));
        proof {
            assert(s@.subrange(0, s@.len() - 1) =~= s@.drop_last());
        }
        r
    } else {
        slice_to_vec(s)
    }
}

/// Split a byte string into its lines.
pub fn split_lines(s: &[u8]) -> (r: Vec<Vec<u8>>)
    ensures
        r.deep_view() == split_lines_spec(s@),
    decreases s@.len(),
{
    let mut r: Vec<Vec<u8>> = Vec::new();
    if s.len() == 0 {
        proof {
            assert(r.deep_view() =~= split_lines_spec(s@));
        }
        return r;
    }
    match find_byte(s, LF) {
        Some(i) => {
            proof {
                lemma_index_of_first_props(s@, LF);
            }
            let head = strip_cr_vec(slice_subrange(s, 0, i));
            let mut tail = split_lines(slice_subrange(s, i + 1, s.len()));
            proof {
                assert(s@.subrange(0, i as int) =~= s@.take(i as int));
                assert(s@.subrange(i + 1, s@.len() as int) =~= s@.skip(i + 1));
            }
            let ghost tail0 = tail@;
            let ghost tail_dv = tail.deep_view();
            r.push(head);
            r.append(&mut tail);
            proof {
                let spec = split_lines_spec(s@);
                assert(r@ =~= seq![head] + tail0);
                assert forall|k: int| 0 <= k < r@.len() implies r@[k].deep_view() =~= spec[k] by {
                    if k == 0 {
                        assert(r@[k] == head);
                    } else {
                        assert(r@[k] == tail0[k - 1]);
                        assert(tail_dv[k - 1] == tail0[k - 1].deep_view());
                        assert(spec[k] == split_lines_spec(s@.skip(i + 1))[k - 1]);
                    }
                }
                assert(r.deep_view() =~= spec);
            }
        },
        None => {
            let line = strip_cr_vec(s);
            r.push(line);
            proof {
                assert(r@[0].deep_view() =~= strip_cr(s@));
                assert(r.deep_view() =~= split_lines_spec(s@));
            }
        },
    }
    r
}

/// Split at every occurrence of a byte, as `str::split` does: empty pieces
/// between, before and after separators stay, and an empty string is one
/// empty piece.
pub open spec fn split_on_byte_spec(s: Seq<u8>, b: u8) -> Seq<Seq<u8>>
    decreases s.len(),
    via split_on_byte_spec_decreases
{
    match index_of_first(s, b) {
        Some(i) => seq![s.take(i)] + split_on_byte_spec(s.skip(i + 1), b),
        None => seq![s],
    }
}

#[via_fn]
proof fn split_on_byte_spec_decreases(s: Seq<u8>, b: u8) {
    lemma_index_of_first_props(s, b);
}

/// Split a byte string at every occurrence of a byte.
pub fn split_on_byte(s: &[u8], b: u8) -> (r: Vec<Vec<u8>>)
    ensures
        r.deep_view() == split_on_byte_spec(s@, b),
    decreases s@.len(),
{
    let mut r: Vec<Vec<u8>> = Vec::new();
    let n = s.len();
    match find_byte(s, b) {
        Some(i) => {
            proof {
                lemma_index_of_first_props(s@, b);
                assert(i < n);
            }
            let head = slice_to_vec(slice_subrange(s, 0, i));
            let mut tail = split_on_byte(slice_subrange(s, i + 1, n), b);
            proof {
                assert(s@.subrange(0, i as int) =~= s@.take(i as int));
                assert(s@.subrange(i + 1, s@.len() as int) =~= s@.skip(i + 1));
            }
            let ghost tail0 = tail@;
            let ghost tail_dv = tail.deep_view();
            r.push(head);
            r.append(&mut tail);
            proof {
                let spec = split_on_byte_spec(s@, b);
                assert(r@ =~= seq![head] + tail0);
                assert forall|k: int| 0 <= k < r@.len() implies r@[k].deep_view() =~= spec[k] by {
                    if k == 0 {
                        assert(r@[k] == head);
                    } else {
                        assert(r@[k] == tail0[k - 1]);
                        assert(tail_dv[k - 1] == tail0[k - 1].deep_view());
                        assert(spec[k] == split_on_byte_spec(s@.skip(i + 1), b)[k - 1]);
                    }
                }
                assert(r.deep_view() =~= spec);
            }
        },
        None => {
            let piece = slice_to_vec(s);
            r.push(piece);
            proof {
                assert(r@[0].deep_view() =~= s@);
                assert(r.deep_view() =~= split_on_byte_spec(s@, b));
            }
        },
    }
    r
}

/// The length of the leading run of non-whitespace bytes: the first field
/// of a line, when the line does not start with whitespace.
pub open spec fn token_run(s: Seq<u8>) -> int
    decreases s.len(),
{
    if s.len() == 0 || is_ws(s[0]) {
        0
    } else {
        1 + token_run(s.drop_first())
    }
}

/// What `token_run` means: no whitespace before it, whitespace at it if
/// anything is.
pub proof fn lemma_token_run_props(s: Seq<u8>)
    ensures
        0 <= token_run(s) <= s.len(),
        forall|j: int| 0 <= j < token_run(s) ==> !is_ws(s[j]),
        token_run(s) < s.len() ==> is_ws(s[token_run(s)]),
        s.len() > 0 && !is_ws(s[0]) ==> token_run(s) >= 1,
    decreases s.len(),
{
    if s.len() > 0 && !is_ws(s[0]) {
        lemma_token_run_props(s.drop_first());
        assert forall|j: int| 0 <= j < token_run(s) implies !is_ws(s[j]) by {
            if j > 0 {
                assert(!is_ws(s.drop_first()[j - 1]));
            }
        }
    }
}

/// Split a byte string at runs of whitespace, as `str::split_whitespace`
/// does: leading, trailing and repeated whitespace yields no empty fields.
pub open spec fn split_fields_spec(s: Seq<u8>) -> Seq<Seq<u8>>
    decreases s.len(),
    via split_fields_spec_decreases
{
    if s.len() == 0 {
        Seq::empty()
    } else if is_ws(s[0]) {
        split_fields_spec(s.drop_first())
    } else {
        seq![s.take(token_run(s))] + split_fields_spec(s.skip(token_run(s)))
    }
}

#[via_fn]
proof fn split_fields_spec_decreases(s: Seq<u8>) {
    lemma_token_run_props(s);
}

fn token_run_len(s: &[u8]) -> (r: usize)
    ensures
        r == token_run(s@),
{
    proof {
        lemma_token_run_props(s@);
    }
    let mut k: usize = 0;
    while k < s.len() && !is_ws_byte(s[k])
        invariant
            k <= s@.len(),
            forall|j: int| 0 <= j < k ==> !is_ws(s@[j]),
            k <= token_run(s@),
        decreases s@.len() - k,
    {
        k = k + 1;
        proof {
            if k > token_run(s@) {
                lemma_token_run_props(s@);
                assert(!is_ws(s@[token_run(s@)]));
                assert(false);
            }
        }
    }
    proof {
        lemma_token_run_props(s@);
        if k < token_run(s@) {
            assert(!is_ws(s@[k as int]));
        }
    }
    k
}

/// Split a byte string into its whitespace-separated fields.
pub fn split_fields(s: &[u8]) -> (r: Vec<Vec<u8>>)
    ensures
        r.deep_view() == split_fields_spec(s@),
    decreases s@.len(),
{
    let mut r: Vec<Vec<u8>> = Vec::new();
    if s.len() == 0 {
        proof {
            assert(r.deep_view() =~= split_fields_spec(s@));
        }
        return r;
    }
    if is_ws_byte(s[0]) {
        let r = split_fields(slice_subrange(s, 1, s.len()));
        proof {
            assert(s@.subrange(1, s@.len() as int) =~= s@.drop_first());
        }
        return r;
    }
    proof {
        lemma_token_run_props(s@);
    }
    let k = token_run_len(s);
    let head = slice_to_vec(slice_subrange(s, 0, k));
    let mut tail = split_fields(slice_subrange(s, k, s.len()));
    proof {
        assert(s@.subrange(0, k as int) =~= s@.take(k as int));
        assert(s@.subrange(k as int, s@.len() as int) =~= s@.skip(k as int));
    }
    let ghost tail0 = tail@;
    let ghost tail_dv = tail.deep_view();
    r.push(head);
    r.append(&mut tail);
    proof {
        let spec = split_fields_spec(s@);
        assert(r@ =~= seq![head] + tail0);
        assert forall|k2: int| 0 <= k2 < r@.len() implies r@[k2].deep_view() =~= spec[k2] by {
            if k2 == 0 {
                assert(r@[k2] == head);
            } else {
                assert(r@[k2] == tail0[k2 - 1]);
                assert(tail_dv[k2 - 1] == tail0[k2 - 1].deep_view());
                assert(spec[k2] == split_fields_spec(s@.skip(token_run(s@)))[k2 - 1]);
            }
        }
        assert(r.deep_view() =~= spec);
    }
    r
}

/// The needle occurs at position `i` of the haystack.
pub open spec fn matches_at(s: Seq<u8>, needle: Seq<u8>, i: int) -> bool {
    0 <= i && i + needle.len() <= s.len() && s.subrange(i, i + needle.len()) == needle
}

/// The needle occurs somewhere in the haystack.
pub open spec fn contains_seq(s: Seq<u8>, needle: Seq<u8>) -> bool {
    exists|i: int| matches_at(s, needle, i)
}

/// Compare two byte strings.
pub fn slice_eq(a: &[u8], b: &[u8]) -> (r: bool)
    ensures
        r == (a@ == b@),
{
    if a.len() != b.len() {
        proof {
            assert(a@.len() != b@.len());
        }
        return false;
    }
    let mut i: usize = 0;
    while i < a.len()
        invariant
            a@.len() == b@.len(),
            i <= a@.len(),
            forall|j: int| 0 <= j < i ==> a@[j] == b@[j],
        decreases a@.len() - i,
    {
        if a[i] != b[i] {
            return false;
        }
        i = i + 1;
    }
    proof {
        assert(a@ =~= b@);
    }
    true
}

/// Substring search: whether the needle occurs anywhere in the haystack.
pub fn contains_bytes(s: &[u8], needle: &[u8]) -> (r: bool)
    ensures
        r == contains_seq(s@, needle@),
{
    if needle.len() > s.len() {
        proof {
            assert(!contains_seq(s@, needle@));
        }
        return false;
    }
    if needle.len() == 0 {
        proof {
            assert(s@.subrange(0, 0) =~= needle@);
            assert(matches_at(s@, needle@, 0));
        }
        return true;
    }
    let n = needle.len();
    let m = s.len();
    let last = m - n;
    let mut i: usize = 0;
    while i <= last
        invariant
            n == needle@.len(),
            m == s@.len(),
            1 <= n <= m,
            last == m - n,
            i <= last + 1,
            forall|j: int| 0 <= j < i ==> !matches_at(s@, needle@, j),
        decreases last + 1 - i,
    {
        let window = slice_subrange(s, i, i + n);
        if slice_eq(window, needle) {
            proof {
                assert(matches_at(s@, needle@, i as int));
            }
            return true;
        }
        i = i + 1;
    }
    proof {
        assert forall|j: int| !matches_at(s@, needle@, j) by {
            if matches_at(s@, needle@, j) {
                assert(0 <= j <= s@.len() - needle@.len());
            }
        }
    }
    false
}

} // verus!
