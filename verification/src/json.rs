//! The JSON documents of the engine: a tagged value, a parser over bytes,
//! and a pretty-printer with two-space indentation.
//!
//! Numbers and the contents of strings are kept as the raw bytes of the
//! document: escape sequences are checked but not decoded, and numbers are
//! never converted, so printing a parsed document reproduces its tokens
//! exactly. Object entries keep their parsed order.

use vstd::prelude::*;
use crate::bytes::match_at;
use crate::datecode::is_digit;

verus! {

broadcast use {
    vstd::std_specs::vec::axiom_vec_index_decreases,
    vstd::std_specs::vec::axiom_vec_decreases_to_view,
    vstd::seq::axiom_seq_index_decreases,
};

/// A JSON document: the executable value.
pub enum Json {
    Null,
    Bool(bool),
    /// A number, as the raw bytes of its token.
    Num(Vec<u8>),
    /// A string, as the raw bytes between its quotes, escapes kept.
    Text(Vec<u8>),
    Arr(Vec<Json>),
    /// An object, as entries of raw key bytes and value, in parsed order.
    Obj(Vec<(Vec<u8>, Json)>),
}

/// A JSON document: the mathematical value that contracts speak of.
pub enum JsonV {
    Null,
    Bool(bool),
    Num(Seq<u8>),
    Text(Seq<u8>),
    Arr(Seq<JsonV>),
    Obj(Seq<(Seq<u8>, JsonV)>),
}

impl Json {
    /// The mathematical value of a document.
    pub open spec fn v(self) -> JsonV
        decreases self,
    {
        match self {
            Json::Null => JsonV::Null,
            Json::Bool(b) => JsonV::Bool(b),
            Json::Num(r) => JsonV::Num(r@),
            Json::Text(t) => JsonV::Text(t@),
            Json::Arr(elems) => JsonV::Arr(jviews(elems@)),
            Json::Obj(entries) => JsonV::Obj(eviews(entries@)),
        }
    }
}

/// The mathematical values of a sequence of documents.
pub open spec fn jviews(elems: Seq<Json>) -> Seq<JsonV>
    decreases elems,
{
    Seq::new(
        elems.len(),
        |i: int|
            if 0 <= i < elems.len() {
                elems[i].v()
            } else {
                JsonV::Null
            },
    )
}

/// The mathematical values of a sequence of object entries.
pub open spec fn eviews(entries: Seq<(Vec<u8>, Json)>) -> Seq<(Seq<u8>, JsonV)>
    decreases entries,
{
    Seq::new(
        entries.len(),
        |i: int|
            if 0 <= i < entries.len() {
                (entries[i].0@, entries[i].1.v())
            } else {
                (Seq::empty(), JsonV::Null)
            },
    )
}

/// Whether `b` is JSON whitespace.
pub open spec fn is_ws(b: u8) -> bool {
    b == 32 || b == 9 || b == 10 || b == 13
}

/// Scans the inside of a string from `k`: accepted when every escape is
/// complete and no bare quote occurs before the end.
pub open spec fn str_wf_from(t: Seq<u8>, k: int) -> bool
    decreases t.len() - k,
{
    if k < 0 || k >= t.len() {
        k <= t.len()
    } else if t[k] == 92 {
        k + 1 < t.len() && str_wf_from(t, k + 2)
    } else if t[k] == 34 {
        false
    } else {
        str_wf_from(t, k + 1)
    }
}

/// Whether `t` can stand between the quotes of a JSON string.
pub open spec fn str_wf(t: Seq<u8>) -> bool {
    str_wf_from(t, 0)
}

/// The end of the digit run starting at `i`.
pub open spec fn sp_digits_end(s: Seq<u8>, i: int) -> int
    decreases s.len() - i,
{
    if 0 <= i < s.len() && is_digit(s[i]) {
        sp_digits_end(s, i + 1)
    } else {
        i
    }
}

/// The end of the number token starting at `i`, or -1 when no valid
/// number starts there: optional minus, digits, optional fraction,
/// optional exponent.
pub open spec fn sp_num_end(s: Seq<u8>, i: int) -> int {
    let p = if 0 <= i < s.len() && s[i] == 45 {
        i + 1
    } else {
        i
    };
    if 0 <= p < s.len() && is_digit(s[p]) {
        let q = sp_digits_end(s, p);
        let q2 = if q < s.len() && s[q] == 46 && q + 1 < s.len() && is_digit(s[q + 1]) {
            sp_digits_end(s, q + 1)
        } else {
            q
        };
        if q2 < s.len() && (s[q2] == 101 || s[q2] == 69) {
            let r0 = if q2 + 1 < s.len() && (s[q2 + 1] == 43 || s[q2 + 1] == 45) {
                q2 + 2
            } else {
                q2 + 1
            };
            if r0 < s.len() && is_digit(s[r0]) {
                sp_digits_end(s, r0)
            } else {
                -1
            }
        } else {
            q2
        }
    } else {
        -1
    }
}

/// Whether `t` is exactly one valid number token.
pub open spec fn num_wf(t: Seq<u8>) -> bool {
    t.len() > 0 && sp_num_end(t, 0) == t.len()
}

/// Whether a document is well formed: every number is one number token
/// and every string body and key scans cleanly.
pub open spec fn json_wf(v: JsonV) -> bool
    decreases v,
{
    match v {
        JsonV::Null => true,
        JsonV::Bool(_) => true,
        JsonV::Num(r) => num_wf(r),
        JsonV::Text(t) => str_wf(t),
        JsonV::Arr(elems) => forall|i: int|
            0 <= i < elems.len() ==> json_wf(#[trigger] elems[i]),
        JsonV::Obj(entries) => forall|i: int|
            0 <= i < entries.len() ==> str_wf((#[trigger] entries[i]).0) && json_wf(
                entries[i].1,
            ),
    }
}

/// Two spaces for each indentation level.
pub open spec fn sp_indent(n: nat) -> Seq<u8> {
    Seq::new(2 * n, |i: int| 32u8)
}

/// The pretty text of a document at indentation level `ind`: two-space
/// indents, one element or member per line, `: ` after each key, empty
/// arrays and objects on one line.
pub open spec fn sp_pretty(v: JsonV, ind: nat) -> Seq<u8>
    decreases v, 0int,
{
    match v {
        JsonV::Null => seq![110u8, 117u8, 108u8, 108u8],
        JsonV::Bool(b) => if b {
            seq![116u8, 114u8, 117u8, 101u8]
        } else {
            seq![102u8, 97u8, 108u8, 115u8, 101u8]
        },
        JsonV::Num(r) => r,
        JsonV::Text(t) => seq![34u8] + t + seq![34u8],
        JsonV::Arr(elems) => if elems.len() == 0 {
            seq![91u8, 93u8]
        } else {
            seq![91u8, 10u8] + sp_arr_items(elems, 0, ind + 1) + sp_indent(ind) + seq![93u8]
        },
        JsonV::Obj(entries) => if entries.len() == 0 {
            seq![123u8, 125u8]
        } else {
            seq![123u8, 10u8] + sp_obj_items(entries, 0, ind + 1) + sp_indent(ind) + seq![
                125u8,
            ]
        },
    }
}

/// The pretty lines of the elements of an array from position `k` on.
pub open spec fn sp_arr_items(elems: Seq<JsonV>, k: int, ind: nat) -> Seq<u8>
    decreases elems, elems.len() - k,
{
    if 0 <= k < elems.len() {
        let head = sp_indent(ind) + sp_pretty(elems[k], ind);
        if k == elems.len() - 1 {
            head + seq![10u8]
        } else {
            head + seq![44u8, 10u8] + sp_arr_items(elems, k + 1, ind)
        }
    } else {
        Seq::empty()
    }
}

/// The pretty text of one object member.
pub open spec fn sp_member(e: (Seq<u8>, JsonV), ind: nat) -> Seq<u8>
    decreases e, 0int,
{
    seq![34u8] + e.0 + seq![34u8, 58u8, 32u8] + sp_pretty(e.1, ind)
}

/// The pretty lines of the members of an object from position `k` on.
pub open spec fn sp_obj_items(entries: Seq<(Seq<u8>, JsonV)>, k: int, ind: nat) -> Seq<u8>
    decreases entries, entries.len() - k,
{
    if 0 <= k < entries.len() {
        let head = sp_indent(ind) + sp_member(entries[k], ind);
        if k == entries.len() - 1 {
            head + seq![10u8]
        } else {
            head + seq![44u8, 10u8] + sp_obj_items(entries, k + 1, ind)
        }
    } else {
        Seq::empty()
    }
}

/// The bytes of `null`.
pub open spec fn lit_null() -> Seq<u8> {
    seq![110u8, 117u8, 108u8, 108u8]
}

/// The bytes of `true`.
pub open spec fn lit_true() -> Seq<u8> {
    seq![116u8, 114u8, 117u8, 101u8]
}

/// The bytes of `false`.
pub open spec fn lit_false() -> Seq<u8> {
    seq![102u8, 97u8, 108u8, 115u8, 101u8]
}

/// `x`, held inside `[lo, hi]`; the parser's positions only ever move
/// forward and never pass the end of the text, so in its equations this
/// is the identity.
pub open spec fn sp_clamp(x: int, lo: int, hi: int) -> int {
    if x < lo {
        lo
    } else if x > hi {
        hi
    } else {
        x
    }
}

/// The end of the whitespace run starting at `i`.
pub open spec fn sp_ws_end(s: Seq<u8>, i: int) -> int
    decreases s.len() - i,
{
    if 0 <= i < s.len() && is_ws(s[i]) {
        sp_ws_end(s, i + 1)
    } else {
        i
    }
}

/// The closing quote of a string whose body starts at `i`, or -1 when the
/// text ends inside the string or inside an escape.
pub open spec fn sp_str_end(s: Seq<u8>, i: int) -> int
    decreases s.len() - i,
{
    if i < 0 || i >= s.len() {
        -1
    } else if s[i] == 34 {
        i
    } else if s[i] == 92 {
        if i + 1 < s.len() {
            sp_str_end(s, i + 2)
        } else {
            -1
        }
    } else {
        sp_str_end(s, i + 1)
    }
}

/// The value starting at position `i`, with the position after it; `i`
/// must stand on the value's first byte.
pub open spec fn sp_parse_value(s: Seq<u8>, i: int) -> Option<(JsonV, int)>
    decreases s.len() - i, 2int,
{
    if !(0 <= i < s.len()) {
        None
    } else if s[i] == 110 {
        if match_at(s, i, lit_null()) {
            Some((JsonV::Null, i + 4))
        } else {
            None
        }
    } else if s[i] == 116 {
        if match_at(s, i, lit_true()) {
            Some((JsonV::Bool(true), i + 4))
        } else {
            None
        }
    } else if s[i] == 102 {
        if match_at(s, i, lit_false()) {
            Some((JsonV::Bool(false), i + 5))
        } else {
            None
        }
    } else if s[i] == 34 {
        let e = sp_str_end(s, i + 1);
        if e >= 0 {
            Some((JsonV::Text(s.subrange(i + 1, e)), e + 1))
        } else {
            None
        }
    } else if s[i] == 45 || is_digit(s[i]) {
        let e = sp_num_end(s, i);
        if e > i {
            Some((JsonV::Num(s.subrange(i, e)), e))
        } else {
            None
        }
    } else if s[i] == 91 {
        let w = sp_clamp(sp_ws_end(s, i + 1), i + 1, s.len() as int);
        if w < s.len() && s[w] == 93 {
            Some((JsonV::Arr(Seq::empty()), w + 1))
        } else {
            match sp_parse_items(s, i + 1) {
                Some((elems, j)) => Some((JsonV::Arr(elems), j)),
                None => None,
            }
        }
    } else if s[i] == 123 {
        let w = sp_clamp(sp_ws_end(s, i + 1), i + 1, s.len() as int);
        if w < s.len() && s[w] == 125 {
            Some((JsonV::Obj(Seq::empty()), w + 1))
        } else {
            match sp_parse_members(s, i + 1) {
                Some((entries, j)) => Some((JsonV::Obj(entries), j)),
                None => None,
            }
        }
    } else {
        None
    }
}

/// The elements of a non-empty array from position `i` on, up to and
/// including the closing bracket.
pub open spec fn sp_parse_items(s: Seq<u8>, i: int) -> Option<(Seq<JsonV>, int)>
    decreases s.len() - i, 3int,
{
    if !(0 <= i <= s.len()) {
        None
    } else {
        let w = sp_clamp(sp_ws_end(s, i), i, s.len() as int);
        match sp_parse_value(s, w) {
            Some((v, j0)) => {
                let j = sp_clamp(j0, w + 1, s.len() as int);
                let w2 = sp_clamp(sp_ws_end(s, j), j, s.len() as int);
                if w2 < s.len() && s[w2] == 44 {
                    match sp_parse_items(s, w2 + 1) {
                        Some((rest, j3)) => Some((seq![v] + rest, j3)),
                        None => None,
                    }
                } else if w2 < s.len() && s[w2] == 93 {
                    Some((seq![v], w2 + 1))
                } else {
                    None
                }
            },
            None => None,
        }
    }
}

/// The members of a non-empty object from position `i` on, up to and
/// including the closing brace.
pub open spec fn sp_parse_members(s: Seq<u8>, i: int) -> Option<(Seq<(Seq<u8>, JsonV)>, int)>
    decreases s.len() - i, 3int,
{
    if !(0 <= i <= s.len()) {
        None
    } else {
        let w = sp_clamp(sp_ws_end(s, i), i, s.len() as int);
        if w < s.len() && s[w] == 34 {
            let e = sp_str_end(s, w + 1);
            if e >= 0 {
                let key = s.subrange(w + 1, e);
                let ec = sp_clamp(e + 1, w + 2, s.len() as int);
                let w2 = sp_clamp(sp_ws_end(s, ec), ec, s.len() as int);
                if w2 < s.len() && s[w2] == 58 {
                    let w3 = sp_clamp(sp_ws_end(s, w2 + 1), w2 + 1, s.len() as int);
                    match sp_parse_value(s, w3) {
                        Some((v, j0)) => {
                            let j = sp_clamp(j0, w3 + 1, s.len() as int);
                            let w4 = sp_clamp(sp_ws_end(s, j), j, s.len() as int);
                            if w4 < s.len() && s[w4] == 44 {
                                match sp_parse_members(s, w4 + 1) {
                                    Some((rest, j5)) => Some((seq![(key, v)] + rest, j5)),
                                    None => None,
                                }
                            } else if w4 < s.len() && s[w4] == 125 {
                                Some((seq![(key, v)], w4 + 1))
                            } else {
                                None
                            }
                        },
                        None => None,
                    }
                } else {
                    None
                }
            } else {
                None
            }
        } else {
            None
        }
    }
}

/// The document a whole text holds: one value between optional
/// whitespace, nothing after it.
pub open spec fn sp_parse(s: Seq<u8>) -> Option<JsonV> {
    let w = sp_clamp(sp_ws_end(s, 0), 0, s.len() as int);
    match sp_parse_value(s, w) {
        Some((v, j)) => {
            let w2 = sp_clamp(sp_ws_end(s, j), j, s.len() as int);
            if w2 == s.len() {
                Some(v)
            } else {
                None
            }
        },
        None => None,
    }
}

/// Digit runs end inside the text.
pub proof fn lemma_digits_end_bounds(s: Seq<u8>, i: int)
    requires
        0 <= i <= s.len(),
    ensures
        i <= sp_digits_end(s, i) <= s.len(),
    decreases s.len() - i,
{
    if i < s.len() && is_digit(s[i]) {
        lemma_digits_end_bounds(s, i + 1);
    }
}

/// Whether `b` is an ASCII digit.
fn is_digit_b(b: u8) -> (r: bool)
    ensures
        r == is_digit(b),
{
    48 <= b && b <= 57
}

/// The end of the whitespace run starting at `i`.
#[verifier::loop_isolation(false)]
fn ws_end(s: &Vec<u8>, i: usize) -> (r: usize)
    requires
        i <= s@.len(),
    ensures
        i <= r <= s@.len(),
        r as int == sp_ws_end(s@, i as int),
{
    let mut k: usize = i;
    while k < s.len() && (s[k] == 32 || s[k] == 9 || s[k] == 10 || s[k] == 13)
        invariant
            i <= k <= s@.len(),
            sp_ws_end(s@, i as int) == sp_ws_end(s@, k as int),
        decreases s@.len() - k,
    {
        k = k + 1;
    }
    k
}

/// The end of the digit run starting at `i`.
#[verifier::loop_isolation(false)]
fn digits_end(s: &Vec<u8>, i: usize) -> (r: usize)
    requires
        i <= s@.len(),
    ensures
        i <= r <= s@.len(),
        r as int == sp_digits_end(s@, i as int),
{
    let mut k: usize = i;
    while k < s.len() && 48 <= s[k] && s[k] <= 57
        invariant
            i <= k <= s@.len(),
            sp_digits_end(s@, i as int) == sp_digits_end(s@, k as int),
        decreases s@.len() - k,
    {
        k = k + 1;
    }
    k
}

/// The end of the number token starting at `i`, or `None` when no valid
/// number starts there.
fn num_end(s: &Vec<u8>, i: usize) -> (r: Option<usize>)
    requires
        i <= s@.len(),
    ensures
        match r {
            Some(e) => i < e <= s@.len() && sp_num_end(s@, i as int) == e as int,
            None => sp_num_end(s@, i as int) == -1,
        },
{
    let n = s.len();
    let p = if i < n && s[i] == 45 {
        i + 1
    } else {
        i
    };
    if p < n && is_digit_b(s[p]) {
        let q = digits_end(s, p);
        proof {
            lemma_digits_end_bounds(s@, p + 1);
        }
        let q2 = if q < n && s[q] == 46 && q + 1 < n && is_digit_b(s[q + 1]) {
            digits_end(s, q + 1)
        } else {
            q
        };
        if q2 < n && (s[q2] == 101 || s[q2] == 69) {
            let r0 = if q2 + 1 < n && (s[q2 + 1] == 43 || s[q2 + 1] == 45) {
                q2 + 2
            } else {
                q2 + 1
            };
            if r0 < n && is_digit_b(s[r0]) {
                Some(digits_end(s, r0))
            } else {
                None
            }
        } else {
            Some(q2)
        }
    } else {
        None
    }
}

/// The closing quote of a string whose body starts at `i`, or `None`.
#[verifier::loop_isolation(false)]
fn str_end(s: &Vec<u8>, i: usize) -> (r: Option<usize>)
    requires
        i <= s@.len(),
    ensures
        match r {
            Some(e) => i <= e < s@.len() && s@[e as int] == 34 && sp_str_end(s@, i as int)
                == e as int,
            None => sp_str_end(s@, i as int) == -1,
        },
{
    let mut k: usize = i;
    while k < s.len()
        invariant
            i <= k <= s@.len(),
            sp_str_end(s@, i as int) == sp_str_end(s@, k as int),
        decreases s@.len() - k,
    {
        let c = s[k];
        if c == 34 {
            return Some(k);
        }
        if c == 92 {
            if k + 1 < s.len() {
                k = k + 2;
            } else {
                return None;
            }
        } else {
            k = k + 1;
        }
    }
    None
}

/// The bytes of `null`.
fn lit_null_vec() -> (r: Vec<u8>)
    ensures
        r@ == lit_null(),
{
    let mut v: Vec<u8> = Vec::new();
    v.push(110);
    v.push(117);
    v.push(108);
    v.push(108);
    proof {
        assert(v@ =~= lit_null());
    }
    v
}

/// The bytes of `true`.
fn lit_true_vec() -> (r: Vec<u8>)
    ensures
        r@ == lit_true(),
{
    let mut v: Vec<u8> = Vec::new();
    v.push(116);
    v.push(114);
    v.push(117);
    v.push(101);
    proof {
        assert(v@ =~= lit_true());
    }
    v
}

/// The bytes of `false`.
fn lit_false_vec() -> (r: Vec<u8>)
    ensures
        r@ == lit_false(),
{
    let mut v: Vec<u8> = Vec::new();
    v.push(102);
    v.push(97);
    v.push(108);
    v.push(115);
    v.push(101);
    proof {
        assert(v@ =~= lit_false());
    }
    v
}

/// The value starting at position `i` of the text.
fn parse_value(s: &Vec<u8>, i: usize) -> (r: Option<(Json, usize)>)
    requires
        i <= s@.len(),
    ensures
        ({
            match (r, sp_parse_value(s@, i as int)) {
                (Some((d, j2)), Some((v, j))) => d.v() == v && j2 as int == j && i < j2
                    <= s@.len(),
                (None, None) => true,
                _ => false,
            }
        }),
    decreases s@.len() - i, 2int,
{
    let n = s.len();
    if i >= n {
        return None;
    }
    let c = s[i];
    if c == 110 {
        let lit = lit_null_vec();
        if crate::bytes::is_match_at(s, i, &lit) {
            Some((Json::Null, i + 4))
        } else {
            None
        }
    } else if c == 116 {
        let lit = lit_true_vec();
        if crate::bytes::is_match_at(s, i, &lit) {
            Some((Json::Bool(true), i + 4))
        } else {
            None
        }
    } else if c == 102 {
        let lit = lit_false_vec();
        if crate::bytes::is_match_at(s, i, &lit) {
            Some((Json::Bool(false), i + 5))
        } else {
            None
        }
    } else if c == 34 {
        match str_end(s, i + 1) {
            Some(e) => {
                let t = crate::bytes::sub_bytes(s, i + 1, e);
                Some((Json::Text(t), e + 1))
            },
            None => None,
        }
    } else if c == 45 || (48 <= c && c <= 57) {
        match num_end(s, i) {
            Some(e) => {
                let raw = crate::bytes::sub_bytes(s, i, e);
                Some((Json::Num(raw), e))
            },
            None => None,
        }
    } else if c == 91 {
        let w = ws_end(s, i + 1);
        if w < n && s[w] == 93 {
            let empty: Vec<Json> = Vec::new();
            proof {
                assert(jviews(empty@) =~= Seq::<JsonV>::empty());
            }
            Some((Json::Arr(empty), w + 1))
        } else {
            match parse_items(s, i + 1) {
                Some((elems, j)) => Some((Json::Arr(elems), j)),
                None => None,
            }
        }
    } else if c == 123 {
        let w = ws_end(s, i + 1);
        if w < n && s[w] == 125 {
            let empty: Vec<(Vec<u8>, Json)> = Vec::new();
            proof {
                assert(eviews(empty@) =~= Seq::<(Seq<u8>, JsonV)>::empty());
            }
            Some((Json::Obj(empty), w + 1))
        } else {
            match parse_members(s, i + 1) {
                Some((entries, j)) => Some((Json::Obj(entries), j)),
                None => None,
            }
        }
    } else {
        None
    }
}

/// The elements of a non-empty array from position `i` on.
fn parse_items(s: &Vec<u8>, i: usize) -> (r: Option<(Vec<Json>, usize)>)
    requires
        i <= s@.len(),
    ensures
        ({
            match (r, sp_parse_items(s@, i as int)) {
                (Some((ev, j2)), Some((es, j))) => jviews(ev@) == es && j2 as int == j && i
                    < j2 <= s@.len(),
                (None, None) => true,
                _ => false,
            }
        }),
    decreases s@.len() - i, 3int,
{
    let w = ws_end(s, i);
    match parse_value(s, w) {
        Some((v, j)) => {
            let w2 = ws_end(s, j);
            if w2 < s.len() && s[w2] == 44 {
                match parse_items(s, w2 + 1) {
                    Some((mut rest, j3)) => {
                        let ghost pre = rest@;
                        rest.insert(0, v);
                        proof {
                            assert(jviews(rest@) =~= seq![v.v()] + jviews(pre));
                        }
                        Some((rest, j3))
                    },
                    None => None,
                }
            } else if w2 < s.len() && s[w2] == 93 {
                let mut one: Vec<Json> = Vec::new();
                one.push(v);
                proof {
                    assert(jviews(one@) =~= seq![v.v()]);
                }
                Some((one, w2 + 1))
            } else {
                None
            }
        },
        None => None,
    }
}

/// The members of a non-empty object from position `i` on.
fn parse_members(s: &Vec<u8>, i: usize) -> (r: Option<(Vec<(Vec<u8>, Json)>, usize)>)
    requires
        i <= s@.len(),
    ensures
        ({
            match (r, sp_parse_members(s@, i as int)) {
                (Some((ev, j2)), Some((es, j))) => eviews(ev@) == es && j2 as int == j && i
                    < j2 <= s@.len(),
                (None, None) => true,
                _ => false,
            }
        }),
    decreases s@.len() - i, 3int,
{
    let w = ws_end(s, i);
    if !(w < s.len() && s[w] == 34) {
        return None;
    }
    let e = match str_end(s, w + 1) {
        Some(e) => e,
        None => {
            return None;
        },
    };
    let key = crate::bytes::sub_bytes(s, w + 1, e);
    let w2 = ws_end(s, e + 1);
    if !(w2 < s.len() && s[w2] == 58) {
        return None;
    }
    let w3 = ws_end(s, w2 + 1);
    match parse_value(s, w3) {
        Some((v, j)) => {
            let w4 = ws_end(s, j);
            if w4 < s.len() && s[w4] == 44 {
                match parse_members(s, w4 + 1) {
                    Some((mut rest, j5)) => {
                        let ghost pre = rest@;
                        let ghost kv = key@;
                        let ghost vv = v.v();
                        rest.insert(0, (key, v));
                        proof {
                            assert(eviews(rest@) =~= seq![(kv, vv)] + eviews(pre));
                        }
                        Some((rest, j5))
                    },
                    None => None,
                }
            } else if w4 < s.len() && s[w4] == 125 {
                let ghost kv = key@;
                let ghost vv = v.v();
                let mut one: Vec<(Vec<u8>, Json)> = Vec::new();
                one.push((key, v));
                proof {
                    assert(eviews(one@) =~= seq![(kv, vv)]);
                }
                Some((one, w4 + 1))
            } else {
                None
            }
        },
        None => None,
    }
}

/// The document a whole text holds, or `None` when the text is not one
/// JSON value between optional whitespace.
pub fn parse_json(s: &Vec<u8>) -> (r: Option<Json>)
    ensures
        ({
            match (r, sp_parse(s@)) {
                (Some(d), Some(v)) => d.v() == v,
                (None, None) => true,
                _ => false,
            }
        }),
{
    let w = ws_end(s, 0);
    match parse_value(s, w) {
        Some((d, j)) => {
            let w2 = ws_end(s, j);
            if w2 == s.len() {
                Some(d)
            } else {
                None
            }
        },
        None => None,
    }
}

/// Writes the pretty text of `v` after what `out` already holds; `pad`
/// is the current indentation.
#[verifier::loop_isolation(false)]
#[verifier::rlimit(100)]
fn write_pretty(out: &mut Vec<u8>, v: &Json, pad: &Vec<u8>, Ghost(ind): Ghost<nat>)
    requires
        pad@ == sp_indent(ind),
    ensures
        final(out)@ == old(out)@ + sp_pretty(v.v(), ind),
    decreases v,
{
    match v {
        Json::Null => {
            out.push(110);
            out.push(117);
            out.push(108);
            out.push(108);
            proof {
                assert(out@ =~= old(out)@ + sp_pretty(v.v(), ind));
            }
        },
        Json::Bool(b) => {
            if *b {
                out.push(116);
                out.push(114);
                out.push(117);
                out.push(101);
            } else {
                out.push(102);
                out.push(97);
                out.push(108);
                out.push(115);
                out.push(101);
            }
            proof {
                assert(out@ =~= old(out)@ + sp_pretty(v.v(), ind));
            }
        },
        Json::Num(raw) => {
            crate::bytes::push_all(out, raw);
        },
        Json::Text(t) => {
            out.push(34);
            crate::bytes::push_all(out, t);
            out.push(34);
            proof {
                assert(out@ =~= old(out)@ + sp_pretty(v.v(), ind));
            }
        },
        Json::Arr(elems) => {
            if elems.len() == 0 {
                out.push(91);
                out.push(93);
                proof {
                    assert(out@ =~= old(out)@ + sp_pretty(v.v(), ind));
                }
            } else {
                out.push(91);
                out.push(10);
                let mut pad2 = crate::bytes::copy_bytes(pad);
                pad2.push(32);
                pad2.push(32);
                proof {
                    assert(pad2@ =~= sp_indent(ind + 1));
                }
                let ghost es = jviews(elems@);
                let ghost base = out@;
                let mut k: usize = 0;
                while k < elems.len()
                    invariant
                        k <= elems@.len(),
                        elems@.len() > 0,
                        pad2@ == sp_indent(ind + 1),
                        es == jviews(elems@),
                        out@ + sp_arr_items(es, k as int, ind + 1) == base + sp_arr_items(
                            es,
                            0,
                            ind + 1,
                        ),
                    decreases elems@.len() - k,
                {
                    let ghost pre = out@;
                    crate::bytes::push_all(out, &pad2);
                    write_pretty(out, &elems[k], &pad2, Ghost(ind + 1));
                    if k + 1 < elems.len() {
                        out.push(44);
                    }
                    out.push(10);
                    proof {
                        assert(es[k as int] == elems@[k as int].v());
                        if k + 1 < elems@.len() {
                            assert(out@ =~= pre + (sp_indent(ind + 1) + sp_pretty(
                                es[k as int],
                                ind + 1,
                            ) + seq![44u8, 10u8]));
                        } else {
                            assert(out@ =~= pre + (sp_indent(ind + 1) + sp_pretty(
                                es[k as int],
                                ind + 1,
                            ) + seq![10u8]));
                            assert(sp_arr_items(es, k + 1, ind + 1) =~= Seq::<u8>::empty());
                        }
                        assert(out@ + sp_arr_items(es, k + 1, ind + 1) =~= pre + sp_arr_items(
                            es,
                            k as int,
                            ind + 1,
                        ));
                    }
                    k = k + 1;
                }
                crate::bytes::push_all(out, pad);
                out.push(93);
                proof {
                    assert(sp_arr_items(es, elems@.len() as int, ind + 1)
                        =~= Seq::<u8>::empty());
                    assert(base + sp_arr_items(es, 0, ind + 1) + sp_indent(ind) + seq![93u8]
                        =~= old(out)@ + sp_pretty(v.v(), ind));
                    assert(out@ =~= base + sp_arr_items(es, 0, ind + 1) + sp_indent(ind)
                        + seq![93u8]);
                }
            }
        },
        Json::Obj(entries) => {
            if entries.len() == 0 {
                out.push(123);
                out.push(125);
                proof {
                    assert(out@ =~= old(out)@ + sp_pretty(v.v(), ind));
                }
            } else {
                out.push(123);
                out.push(10);
                let mut pad2 = crate::bytes::copy_bytes(pad);
                pad2.push(32);
                pad2.push(32);
                proof {
                    assert(pad2@ =~= sp_indent(ind + 1));
                }
                let ghost es = eviews(entries@);
                let ghost base = out@;
                let mut k: usize = 0;
                while k < entries.len()
                    invariant
                        k <= entries@.len(),
                        entries@.len() > 0,
                        pad2@ == sp_indent(ind + 1),
                        es == eviews(entries@),
                        out@ + sp_obj_items(es, k as int, ind + 1) == base + sp_obj_items(
                            es,
                            0,
                            ind + 1,
                        ),
                    decreases entries@.len() - k,
                {
                    let ghost pre = out@;
                    crate::bytes::push_all(out, &pad2);
                    out.push(34);
                    crate::bytes::push_all(out, &entries[k].0);
                    out.push(34);
                    out.push(58);
                    out.push(32);
                    write_pretty(out, &entries[k].1, &pad2, Ghost(ind + 1));
                    if k + 1 < entries.len() {
                        out.push(44);
                    }
                    out.push(10);
                    proof {
                        let ghost ke = entries@[k as int];
                        assert(es[k as int] == (ke.0@, ke.1.v()));
                        if k + 1 < entries@.len() {
                            assert(out@ =~= pre + (sp_indent(ind + 1) + sp_member(
                                es[k as int],
                                ind + 1,
                            ) + seq![44u8, 10u8]));
                        } else {
                            assert(out@ =~= pre + (sp_indent(ind + 1) + sp_member(
                                es[k as int],
                                ind + 1,
                            ) + seq![10u8]));
                            assert(sp_obj_items(es, k + 1, ind + 1) =~= Seq::<u8>::empty());
                        }
                        assert(out@ + sp_obj_items(es, k + 1, ind + 1) =~= pre + sp_obj_items(
                            es,
                            k as int,
                            ind + 1,
                        ));
                    }
                    k = k + 1;
                }
                crate::bytes::push_all(out, pad);
                out.push(125);
                proof {
                    assert(sp_obj_items(es, entries@.len() as int, ind + 1)
                        =~= Seq::<u8>::empty());
                    assert(base + sp_obj_items(es, 0, ind + 1) + sp_indent(ind) + seq![125u8]
                        =~= old(out)@ + sp_pretty(v.v(), ind));
                    assert(out@ =~= base + sp_obj_items(es, 0, ind + 1) + sp_indent(ind)
                        + seq![125u8]);
                }
            }
        },
    }
}

/// The pretty text of a document: two-space indents, one element or
/// member per line.
pub fn pretty_json(v: &Json) -> (r: Vec<u8>)
    ensures
        r@ == sp_pretty(v.v(), 0),
{
    let mut out: Vec<u8> = Vec::new();
    let pad: Vec<u8> = Vec::new();
    proof {
        assert(pad@ =~= sp_indent(0));
    }
    write_pretty(&mut out, v, &pad, Ghost(0));
    proof {
        assert(out@ =~= sp_pretty(v.v(), 0));
    }
    out
}

/// Whether `content` is one valid JSON document.
pub fn validate_json(content: &Vec<u8>) -> (r: bool)
    ensures
        r == (sp_parse(content@) is Some),
{
    parse_json(content).is_some()
}

/// Checks `content` and returns the pretty text of its value; fails when
/// the content does not parse.
pub fn format_json(content: &Vec<u8>) -> (r: Result<Vec<u8>, crate::ConfigError>)
    ensures
        match r {
            Ok(out) => sp_parse(content@) is Some && out@ == sp_pretty(
                sp_parse(content@).unwrap(),
                0,
            ),
            Err(e) => e == crate::ConfigError::InvalidJson && sp_parse(content@) is None,
        },
{
    match parse_json(content) {
        Some(d) => Ok(pretty_json(&d)),
        None => Err(crate::ConfigError::InvalidJson),
    }
}

} // verus!
