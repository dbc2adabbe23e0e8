//! Extraction of the eight-digit date embedded in a snapshot filename.
//!
//! Two phases, first match wins: the leftmost run of eight consecutive
//! ASCII digits, accepted when year, month and day lie in range; otherwise
//! the legacy form, the text between the last `_` and the last `.` of the
//! name, accepted under the same conditions. A name that passes neither
//! phase carries no date.

use vstd::prelude::*;

verus! {

/// Whether `b` is an ASCII digit.
pub open spec fn is_digit(b: u8) -> bool {
    48 <= b <= 57
}

/// Whether eight consecutive ASCII digits stand at position `i` of `s`.
pub open spec fn digits8_at(s: Seq<u8>, i: int) -> bool {
    0 <= i && i + 8 <= s.len() && (forall|k: int| i <= k < i + 8 ==> is_digit(#[trigger] s[k]))
}

/// The number written by the two digits at `i` and `i + 1`.
pub open spec fn d2(s: Seq<u8>, i: int) -> int {
    (s[i] - 48) * 10 + (s[i + 1] - 48)
}

/// The number written by the four digits starting at `i`.
pub open spec fn d4(s: Seq<u8>, i: int) -> int {
    d2(s, i) * 100 + d2(s, i + 2)
}

/// Whether an eight-digit text names a year in [2020, 2100], a month in
/// [1, 12] and a day in [1, 31]; no further calendar check is made.
pub open spec fn date_range_ok(d: Seq<u8>) -> bool {
    2020 <= d4(d, 0) <= 2100 && 1 <= d2(d, 4) <= 12 && 1 <= d2(d, 6) <= 31
}

/// The position of the leftmost eight-digit run at or after `i`.
pub open spec fn sp_first_run8_from(s: Seq<u8>, i: int) -> Option<int>
    decreases s.len() - i,
{
    if i + 8 > s.len() {
        None
    } else if digits8_at(s, i) {
        Some(i)
    } else {
        sp_first_run8_from(s, i + 1)
    }
}

/// The last position of byte `b` in `s`.
pub open spec fn sp_last_ix(s: Seq<u8>, b: u8) -> Option<int>
    decreases s.len(),
{
    if s.len() == 0 {
        None
    } else if s[s.len() - 1] == b {
        Some(s.len() - 1)
    } else {
        sp_last_ix(s.drop_last(), b)
    }
}

/// The legacy date of a filename: the text between the last `_` and the
/// last `.`, accepted only when it is exactly eight digits in range.
/// A name whose last `.` comes before its last `_` carries no legacy date.
pub open spec fn sp_legacy_date(s: Seq<u8>) -> Option<Seq<u8>> {
    match (sp_last_ix(s, 95), sp_last_ix(s, 46)) {
        (Some(u), Some(d)) => if d == u + 9 && digits8_at(s, u + 1) && date_range_ok(
            s.subrange(u + 1, d),
        ) {
            Some(s.subrange(u + 1, d))
        } else {
            None
        },
        _ => None,
    }
}

/// The date a filename carries: the leftmost eight-digit run when it is in
/// range, else the legacy form, else none.
pub open spec fn sp_extract_date(s: Seq<u8>) -> Option<Seq<u8>> {
    match sp_first_run8_from(s, 0) {
        Some(i) => if date_range_ok(s.subrange(i, i + 8)) {
            Some(s.subrange(i, i + 8))
        } else {
            sp_legacy_date(s)
        },
        None => sp_legacy_date(s),
    }
}

/// A date in range embedded as the leftmost eight-digit run is what
/// extraction returns.
pub proof fn lemma_extract_date_embedded(s: Seq<u8>, p: int)
    requires
        digits8_at(s, p),
        date_range_ok(s.subrange(p, p + 8)),
        forall|q: int| 0 <= q < p ==> !digits8_at(s, q),
    ensures
        sp_extract_date(s) == Some(s.subrange(p, p + 8)),
{
    lemma_first_run8_reaches(s, 0, p);
}

proof fn lemma_first_run8_reaches(s: Seq<u8>, i: int, p: int)
    requires
        0 <= i <= p,
        digits8_at(s, p),
        forall|q: int| i <= q < p ==> !digits8_at(s, q),
    ensures
        sp_first_run8_from(s, i) == Some(p),
    decreases p - i,
{
    if i < p {
        lemma_first_run8_reaches(s, i + 1, p);
    }
}

/// When no eight-digit run in range stands anywhere in the name, no date
/// is extracted.
pub proof fn lemma_extract_date_absent(s: Seq<u8>)
    requires
        forall|q: int|
            !(#[trigger] digits8_at(s, q) && date_range_ok(s.subrange(q, q + 8))),
    ensures
        sp_extract_date(s) is None,
{
    match sp_first_run8_from(s, 0) {
        Some(i) => {
            lemma_first_run8_finds(s, 0);
        },
        None => {},
    }
    match sp_legacy_date(s) {
        Some(d) => {
            let u = sp_last_ix(s, 95).unwrap();
            assert(!(digits8_at(s, u + 1) && date_range_ok(s.subrange(u + 1, u + 9))));
        },
        None => {},
    }
}

/// A found run is indeed a digit run, with its eight bytes in bounds.
pub proof fn lemma_first_run8_finds(s: Seq<u8>, i: int)
    requires
        0 <= i,
        sp_first_run8_from(s, i) is Some,
    ensures
        digits8_at(s, sp_first_run8_from(s, i).unwrap()),
    decreases s.len() - i,
{
    if i + 8 <= s.len() && !digits8_at(s, i) {
        lemma_first_run8_finds(s, i + 1);
    }
}

/// The last position of a byte lies inside the string.
pub proof fn lemma_last_ix_bound(s: Seq<u8>, b: u8)
    requires
        sp_last_ix(s, b) is Some,
    ensures
        0 <= sp_last_ix(s, b).unwrap() < s.len(),
    decreases s.len(),
{
    if s.len() > 0 && s[s.len() - 1] != b {
        lemma_last_ix_bound(s.drop_last(), b);
    }
}

/// Whether every byte of `s[a..b]` is an ASCII digit.
#[verifier::loop_isolation(false)]
fn digits_in_range(s: &Vec<u8>, a: usize, b: usize) -> (r: bool)
    requires
        a <= b <= s@.len(),
    ensures
        r == forall|k: int| a <= k < b ==> is_digit(#[trigger] s@[k]),
{
    let mut k: usize = a;
    while k < b
        invariant
            a <= k <= b,
            forall|q: int| a <= q < k ==> is_digit(#[trigger] s@[q]),
        decreases b - k,
    {
        let c = s[k];
        if c < 48 || c > 57 {
            return false;
        }
        k = k + 1;
    }
    true
}

/// Whether the eight digits at `i` name a date in range.
fn date_ok_at(s: &Vec<u8>, i: usize) -> (r: bool)
    requires
        digits8_at(s@, i as int),
    ensures
        r == date_range_ok(s@.subrange(i as int, i as int + 8)),
{
    let n = s.len();
    assert(i + 8 <= n);
    proof {
        let sub = s@.subrange(i as int, i as int + 8);
        assert(sub[0] == s@[i as int] && sub[1] == s@[i + 1] && sub[2] == s@[i + 2] && sub[3]
            == s@[i + 3]);
        assert(sub[4] == s@[i + 4] && sub[5] == s@[i + 5] && sub[6] == s@[i + 6] && sub[7]
            == s@[i + 7]);
        assert forall|k: int| i <= k < i + 8 implies is_digit(s@[k]) by {
            assert(digits8_at(s@, i as int));
        }
    }
    let year: u32 = (((s[i] - 48) as u32) * 1000) + (((s[i + 1] - 48) as u32) * 100) + (((s[i
        + 2] - 48) as u32) * 10) + ((s[i + 3] - 48) as u32);
    let month: u32 = (((s[i + 4] - 48) as u32) * 10) + ((s[i + 5] - 48) as u32);
    let day: u32 = (((s[i + 6] - 48) as u32) * 10) + ((s[i + 7] - 48) as u32);
    2020 <= year && year <= 2100 && 1 <= month && month <= 12 && 1 <= day && day <= 31
}

/// The last position of byte `b` in `s`.
#[verifier::loop_isolation(false)]
fn rfind_byte(s: &Vec<u8>, b: u8) -> (r: Option<usize>)
    ensures
        match r {
            Some(i) => sp_last_ix(s@, b) == Some(i as int) && i < s@.len(),
            None => sp_last_ix(s@, b) is None,
        },
{
    let mut i: usize = s.len();
    proof {
        assert(s@.take(s@.len() as int) =~= s@);
    }
    while i > 0
        invariant
            i <= s@.len(),
            sp_last_ix(s@, b) == sp_last_ix(s@.take(i as int), b),
        decreases i,
    {
        proof {
            assert(s@.take(i as int).drop_last() =~= s@.take(i - 1));
            assert(s@.take(i as int)[i - 1] == s@[i - 1]);
        }
        if s[i - 1] == b {
            return Some(i - 1);
        }
        i = i - 1;
    }
    None
}

/// The position of the leftmost eight-digit run of the name, if any.
#[verifier::loop_isolation(false)]
fn find_first_run8(f: &Vec<u8>) -> (r: Option<usize>)
    ensures
        match r {
            Some(i) => sp_first_run8_from(f@, 0) == Some(i as int) && digits8_at(f@, i as int),
            None => sp_first_run8_from(f@, 0) is None,
        },
{
    if f.len() < 8 {
        return None;
    }
    let mut i: usize = 0;
    while i <= f.len() - 8
        invariant
            8 <= f@.len(),
            i <= f@.len() - 8 + 1,
            sp_first_run8_from(f@, 0) == sp_first_run8_from(f@, i as int),
        decreases f@.len() - i,
    {
        if digits_in_range(f, i, i + 8) {
            return Some(i);
        }
        i = i + 1;
    }
    None
}

/// The date embedded in a snapshot filename, or `None` when the name
/// carries none.
pub fn extract_date(f: &Vec<u8>) -> (r: Option<Vec<u8>>)
    ensures
        match r {
            Some(d) => sp_extract_date(f@) == Some(d@),
            None => sp_extract_date(f@) is None,
        },
{
    let n = f.len();
    match find_first_run8(f) {
        Some(i) => {
            assert(i + 8 <= n);
            if date_ok_at(f, i) {
                return Some(crate::bytes::sub_bytes(f, i, i + 8));
            }
        },
        None => {},
    }
    legacy_date(f)
}

/// The legacy date of a filename: exactly eight digits in range between
/// the last `_` and the last `.`.
#[verifier::loop_isolation(false)]
fn legacy_date(f: &Vec<u8>) -> (r: Option<Vec<u8>>)
    ensures
        match r {
            Some(d) => sp_legacy_date(f@) == Some(d@),
            None => sp_legacy_date(f@) is None,
        },
{
    let u = match rfind_byte(f, 95) {
        Some(u) => u,
        None => {
            return None;
        },
    };
    let d = match rfind_byte(f, 46) {
        Some(d) => d,
        None => {
            return None;
        },
    };
    if d <= u || d - u != 9 {
        return None;
    }
    if !digits_in_range(f, u + 1, d) {
        return None;
    }
    if !date_ok_at(f, u + 1) {
        return None;
    }
    Some(crate::bytes::sub_bytes(f, u + 1, d))
}

} // verus!
