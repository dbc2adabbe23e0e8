//! The laws of the JSON codec, chiefly: parsing the pretty text of a
//! well-formed document gives back exactly that document. This is what
//! makes a write-then-read round trip lossless.

use vstd::prelude::*;
use crate::datecode::is_digit;
use crate::json::{
    JsonV, is_ws, str_wf, str_wf_from, num_wf, json_wf, sp_ws_end, sp_str_end, sp_digits_end,
    sp_num_end, sp_parse_value, sp_parse_items, sp_parse_members, sp_parse, sp_pretty,
    sp_arr_items, sp_member, sp_obj_items, sp_indent, sp_clamp, lit_null, lit_true, lit_false,
};

verus! {

broadcast use {
    vstd::std_specs::vec::axiom_vec_index_decreases,
    vstd::std_specs::vec::axiom_vec_decreases_to_view,
    vstd::seq::axiom_seq_index_decreases,
};

/// Whether position `e` of `s` can follow a printed value: the end of the
/// text, a comma, or a line break.
pub open spec fn is_term(s: Seq<u8>, e: int) -> bool {
    e == s.len() || (0 <= e < s.len() && (s[e] == 44 || s[e] == 10))
}

/// The bytes of `t` stand in `s` at position `i`.
pub open spec fn lies_at(s: Seq<u8>, i: int, t: Seq<u8>) -> bool {
    0 <= i && i + t.len() <= s.len() && s.subrange(i, i + t.len() as int) == t
}

/// Each byte of an embedded segment equals the segment's byte.
pub proof fn lemma_lies_at_byte(s: Seq<u8>, i: int, t: Seq<u8>, k: int)
    requires
        lies_at(s, i, t),
        0 <= k < t.len(),
    ensures
        s[i + k] == t[k],
{
    assert(s.subrange(i, i + t.len() as int)[k] == t[k]);
}

/// A part of an embedded segment is itself embedded.
pub proof fn lemma_lies_at_part(s: Seq<u8>, i: int, t: Seq<u8>, a: int, b: int)
    requires
        lies_at(s, i, t),
        0 <= a <= b <= t.len(),
    ensures
        lies_at(s, i + a, t.subrange(a, b)),
{
    assert forall|k: int| 0 <= k < b - a implies s[i + a + k] == t.subrange(a, b)[k] by {
        lemma_lies_at_byte(s, i, t, a + k);
    }
    assert(s.subrange(i + a, i + b) =~= t.subrange(a, b));
}

/// A whitespace run followed by a non-whitespace byte (or the end) is
/// exactly what the whitespace scan skips.
pub proof fn lemma_ws_run(s: Seq<u8>, i: int, j: int)
    requires
        0 <= i <= j <= s.len(),
        forall|k: int| i <= k < j ==> is_ws(#[trigger] s[k]),
        j == s.len() || !is_ws(s[j]),
    ensures
        sp_ws_end(s, i) == j,
    decreases j - i,
{
    if i < j {
        lemma_ws_run(s, i + 1, j);
    }
}

/// A digit run followed by a non-digit byte (or the end) is exactly what
/// the digit scan consumes.
pub proof fn lemma_digits_run(s: Seq<u8>, i: int, j: int)
    requires
        0 <= i <= j <= s.len(),
        forall|k: int| i <= k < j ==> is_digit(#[trigger] s[k]),
        j == s.len() || !is_digit(s[j]),
    ensures
        sp_digits_end(s, i) == j,
    decreases j - i,
{
    if i < j {
        lemma_digits_run(s, i + 1, j);
    }
}

/// What the digit scan consumes is digits, and it stops at the end or at
/// a non-digit byte.
pub proof fn lemma_digits_props(s: Seq<u8>, i: int)
    requires
        0 <= i <= s.len(),
    ensures
        i <= sp_digits_end(s, i) <= s.len(),
        forall|k: int| i <= k < sp_digits_end(s, i) ==> is_digit(#[trigger] s[k]),
        sp_digits_end(s, i) == s.len() || !is_digit(s[sp_digits_end(s, i)]),
    decreases s.len() - i,
{
    if i < s.len() && is_digit(s[i]) {
        lemma_digits_props(s, i + 1);
    }
}

/// A found closing quote lies inside the text and is a quote.
pub proof fn lemma_str_end_props(s: Seq<u8>, i: int)
    requires
        0 <= i,
        sp_str_end(s, i) >= 0,
    ensures
        i <= sp_str_end(s, i) < s.len(),
        s[sp_str_end(s, i)] == 34,
    decreases s.len() - i,
{
    if i < s.len() && s[i] != 34 {
        if s[i] == 92 {
            lemma_str_end_props(s, i + 2);
        } else {
            lemma_str_end_props(s, i + 1);
        }
    }
}

proof fn lemma_str_scan_from(s: Seq<u8>, i: int, t: Seq<u8>, k: int)
    requires
        lies_at(s, i, t),
        i + t.len() < s.len(),
        s[i + t.len()] == 34,
        str_wf_from(t, k),
        0 <= k <= t.len(),
    ensures
        sp_str_end(s, i + k) == i + t.len(),
    decreases t.len() - k,
{
    if k == t.len() {
    } else {
        lemma_lies_at_byte(s, i, t, k);
        if t[k] == 92 {
            lemma_str_scan_from(s, i, t, k + 2);
        } else {
            lemma_str_scan_from(s, i, t, k + 1);
        }
    }
}

/// A well-formed string body embedded before a quote is exactly what the
/// string scan consumes.
pub proof fn lemma_str_scan(s: Seq<u8>, i: int, t: Seq<u8>)
    requires
        lies_at(s, i, t),
        i + t.len() < s.len(),
        s[i + t.len()] == 34,
        str_wf(t),
    ensures
        sp_str_end(s, i) == i + t.len(),
{
    lemma_str_scan_from(s, i, t, 0);
}

proof fn lemma_str_wf_shift(t: Seq<u8>, k: int, m: int)
    requires
        0 <= k <= t.len(),
        0 <= m,
    ensures
        str_wf_from(t, k + m) == str_wf_from(t.skip(k), m),
    decreases t.len() - (k + m),
{
    if k + m < t.len() {
        assert(t.skip(k)[m] == t[k + m]);
        if t[k + m] == 92 {
            if k + m + 1 < t.len() {
                lemma_str_wf_shift(t, k, m + 2);
            }
        } else if t[k + m] != 34 {
            lemma_str_wf_shift(t, k, m + 1);
        }
    }
}

/// What the string scan consumed is a well-formed string body.
pub proof fn lemma_str_scanned_wf(s: Seq<u8>, i: int)
    requires
        0 <= i,
        sp_str_end(s, i) >= 0,
    ensures
        str_wf(s.subrange(i, sp_str_end(s, i))),
    decreases s.len() - i,
{
    lemma_str_end_props(s, i);
    let e = sp_str_end(s, i);
    let t = s.subrange(i, e);
    if s[i] == 34 {
        assert(t =~= Seq::<u8>::empty());
    } else if s[i] == 92 {
        lemma_str_end_props(s, i + 2);
        lemma_str_scanned_wf(s, i + 2);
        assert(t.skip(2) =~= s.subrange(i + 2, e));
        lemma_str_wf_shift(t, 2, 0);
        assert(t[0] == 92 && t[1] == s[i + 1]);
        assert(str_wf_from(t, 2) == str_wf(t.skip(2)));
    } else {
        lemma_str_end_props(s, i + 1);
        lemma_str_scanned_wf(s, i + 1);
        assert(t.skip(1) =~= s.subrange(i + 1, e));
        lemma_str_wf_shift(t, 1, 0);
        assert(t[0] == s[i] && t[0] != 34 && t[0] != 92);
        assert(str_wf_from(t, 1) == str_wf(t.skip(1)));
    }
}

/// A well-formed number token embedded before a terminator is exactly
/// what the number scan consumes.
#[verifier::rlimit(60)]
pub proof fn lemma_num_scan(s: Seq<u8>, i: int, t: Seq<u8>)
    requires
        lies_at(s, i, t),
        num_wf(t),
        is_term(s, i + t.len()),
    ensures
        sp_num_end(s, i) == i + t.len(),
{
    let n = t.len() as int;
    let e = i + n;
    assert forall|k: int| 0 <= k < n implies s[i + k] == t[k] by {
        lemma_lies_at_byte(s, i, t, k);
    }
    let pt = if t[0] == 45 {
        1int
    } else {
        0int
    };
    let qt = sp_digits_end(t, pt);
    lemma_digits_props(t, pt);
    assert forall|k: int| i + pt <= k < i + qt implies is_digit(#[trigger] s[k]) by {
        assert(s[k] == t[k - i]);
    }
    assert(i + qt == s.len() || !is_digit(s[i + qt])) by {
        if qt < n {
            assert(s[i + qt] == t[qt]);
        }
    }
    lemma_digits_run(s, i + pt, i + qt);
    let ft = qt < n && t[qt] == 46 && qt + 1 < n && is_digit(t[qt + 1]);
    let q2t = if ft {
        sp_digits_end(t, qt + 1)
    } else {
        qt
    };
    if ft {
        lemma_digits_props(t, qt + 1);
        assert forall|k: int| i + qt + 1 <= k < i + q2t implies is_digit(#[trigger] s[k]) by {
            assert(s[k] == t[k - i]);
        }
        assert(i + q2t == s.len() || !is_digit(s[i + q2t])) by {
            if q2t < n {
                assert(s[i + q2t] == t[q2t]);
            }
        }
        lemma_digits_run(s, i + qt + 1, i + q2t);
    }
    let et = q2t < n && (t[q2t] == 101 || t[q2t] == 69);
    if et {
        let r0t = if q2t + 1 < n && (t[q2t + 1] == 43 || t[q2t + 1] == 45) {
            q2t + 2
        } else {
            q2t + 1
        };
        lemma_digits_props(t, r0t);
        if r0t < n && is_digit(t[r0t]) {
            assert forall|k: int| i + r0t <= k < i + n implies is_digit(#[trigger] s[k]) by {
                assert(s[k] == t[k - i]);
            }
            lemma_digits_run(s, i + r0t, i + n);
        }
    }
}

/// What the number scan consumed is a well-formed number token.
#[verifier::rlimit(60)]
pub proof fn lemma_num_scanned_wf(s: Seq<u8>, i: int)
    requires
        0 <= i <= s.len(),
        sp_num_end(s, i) >= 0,
    ensures
        i < sp_num_end(s, i) <= s.len(),
        num_wf(s.subrange(i, sp_num_end(s, i))),
{
    let e = sp_num_end(s, i);
    let p = if 0 <= i < s.len() && s[i] == 45 {
        i + 1
    } else {
        i
    };
    let q = sp_digits_end(s, p);
    lemma_digits_props(s, p);
    let fs = q < s.len() && s[q] == 46 && q + 1 < s.len() && is_digit(s[q + 1]);
    let q2 = if fs {
        sp_digits_end(s, q + 1)
    } else {
        q
    };
    if fs {
        lemma_digits_props(s, q + 1);
    }
    let es = q2 < s.len() && (s[q2] == 101 || s[q2] == 69);
    if es {
        let r0 = if q2 + 1 < s.len() && (s[q2 + 1] == 43 || s[q2 + 1] == 45) {
            q2 + 2
        } else {
            q2 + 1
        };
        lemma_digits_props(s, r0);
        assert(e == sp_digits_end(s, r0));
        let t = s.subrange(i, e);
        assert forall|k: int| 0 <= k < e - i implies t[k] == s[i + k] by {}
        lemma_digits_run(t, p - i, q - i);
        if fs {
            lemma_digits_run(t, q + 1 - i, q2 - i);
        }
        lemma_digits_run(t, r0 - i, e - i);
        assert(sp_num_end(t, 0) == t.len());
    } else {
        assert(e == q2);
        let t = s.subrange(i, e);
        assert forall|k: int| 0 <= k < e - i implies t[k] == s[i + k] by {}
        lemma_digits_run(t, p - i, q - i);
        if fs {
            lemma_digits_run(t, q + 1 - i, q2 - i);
        }
        assert(sp_num_end(t, 0) == t.len());
    }
}

/// Every document the parser yields is well formed.
pub proof fn lemma_parse_value_wf(s: Seq<u8>, i: int)
    ensures
        match sp_parse_value(s, i) {
            Some(pr) => json_wf(pr.0),
            None => true,
        },
    decreases s.len() - i, 2int,
{
    if 0 <= i < s.len() {
        let c = s[i];
        if c == 34 {
            if sp_str_end(s, i + 1) >= 0 {
                lemma_str_scanned_wf(s, i + 1);
            }
        } else if c == 45 || is_digit(c) {
            if sp_num_end(s, i) > i {
                lemma_num_scanned_wf(s, i);
            }
        } else if c == 91 {
            let w = sp_clamp(sp_ws_end(s, i + 1), i + 1, s.len() as int);
            if !(w < s.len() && s[w] == 93) {
                lemma_parse_items_wf(s, i + 1);
            }
        } else if c == 123 {
            let w = sp_clamp(sp_ws_end(s, i + 1), i + 1, s.len() as int);
            if !(w < s.len() && s[w] == 125) {
                lemma_parse_members_wf(s, i + 1);
            }
        }
    }
}

proof fn lemma_parse_items_wf(s: Seq<u8>, i: int)
    ensures
        match sp_parse_items(s, i) {
            Some(pr) => forall|k: int| 0 <= k < pr.0.len() ==> json_wf(#[trigger] pr.0[k]),
            None => true,
        },
    decreases s.len() - i, 3int,
{
    if 0 <= i <= s.len() {
        let w = sp_clamp(sp_ws_end(s, i), i, s.len() as int);
        lemma_parse_value_wf(s, w);
        match sp_parse_value(s, w) {
            Some((v, j0)) => {
                let j = sp_clamp(j0, w + 1, s.len() as int);
                let w2 = sp_clamp(sp_ws_end(s, j), j, s.len() as int);
                if w2 < s.len() && s[w2] == 44 {
                    lemma_parse_items_wf(s, w2 + 1);
                }
            },
            None => {},
        }
    }
}

proof fn lemma_parse_members_wf(s: Seq<u8>, i: int)
    ensures
        match sp_parse_members(s, i) {
            Some(pr) => forall|k: int|
                0 <= k < pr.0.len() ==> str_wf((#[trigger] pr.0[k]).0) && json_wf(pr.0[k].1),
            None => true,
        },
    decreases s.len() - i, 3int,
{
    if 0 <= i <= s.len() {
        let w = sp_clamp(sp_ws_end(s, i), i, s.len() as int);
        if w < s.len() && s[w] == 34 {
            let e = sp_str_end(s, w + 1);
            if e >= 0 {
                lemma_str_scanned_wf(s, w + 1);
                let ec = sp_clamp(e + 1, w + 2, s.len() as int);
                let w2 = sp_clamp(sp_ws_end(s, ec), ec, s.len() as int);
                if w2 < s.len() && s[w2] == 58 {
                    let w3 = sp_clamp(sp_ws_end(s, w2 + 1), w2 + 1, s.len() as int);
                    lemma_parse_value_wf(s, w3);
                    match sp_parse_value(s, w3) {
                        Some((v, j0)) => {
                            let j = sp_clamp(j0, w3 + 1, s.len() as int);
                            let w4 = sp_clamp(sp_ws_end(s, j), j, s.len() as int);
                            if w4 < s.len() && s[w4] == 44 {
                                lemma_parse_members_wf(s, w4 + 1);
                            }
                        },
                        None => {},
                    }
                }
            }
        }
    }
}

/// A parsed whole text is a well-formed document.
pub proof fn lemma_parse_wf(s: Seq<u8>)
    ensures
        match sp_parse(s) {
            Some(v) => json_wf(v),
            None => true,
        },
{
    let w = sp_clamp(sp_ws_end(s, 0), 0, s.len() as int);
    lemma_parse_value_wf(s, w);
}

/// The pretty text of a document is non-empty, and its first byte names
/// the kind of the value: it is one of `n t f " - 0-9 [ {`.
pub proof fn lemma_pretty_head(v: JsonV, ind: nat)
    requires
        json_wf(v),
    ensures
        sp_pretty(v, ind).len() > 0,
        ({
            let h = sp_pretty(v, ind)[0];
            h == 110 || h == 116 || h == 102 || h == 34 || h == 45 || is_digit(h) || h == 91
                || h == 123
        }),
{
    match v {
        JsonV::Num(r) => {
            assert(r.len() > 0);
            if r[0] != 45 {
                assert(is_digit(r[0]));
            }
        },
        _ => {},
    }
}

/// The pretty text of a well-formed value, embedded before a comma, a
/// line break or the end, parses back to exactly that value.
#[verifier::rlimit(100)]
pub proof fn lemma_value_at(s: Seq<u8>, i: int, v: JsonV, ind: nat)
    requires
        json_wf(v),
        lies_at(s, i, sp_pretty(v, ind)),
        is_term(s, i + sp_pretty(v, ind).len()),
    ensures
        sp_parse_value(s, i) == Some((v, i + sp_pretty(v, ind).len() as int)),
    decreases v, 2int,
{
    let p = sp_pretty(v, ind);
    lemma_pretty_head(v, ind);
    lemma_lies_at_byte(s, i, p, 0);
    match v {
        JsonV::Null => {
            assert(p =~= lit_null());
        },
        JsonV::Bool(b) => {
            if b {
                assert(p =~= lit_true());
            } else {
                assert(p =~= lit_false());
            }
        },
        JsonV::Num(raw) => {
            lemma_num_scan(s, i, raw);
            assert(s.subrange(i, i + raw.len() as int) == raw);
        },
        JsonV::Text(t) => {
            lemma_lies_at_part(s, i, p, 1, 1 + t.len() as int);
            assert(p.subrange(1, 1 + t.len() as int) =~= t);
            lemma_lies_at_byte(s, i, p, 1 + t.len() as int);
            lemma_str_scan(s, i + 1, t);
            assert(s.subrange(i + 1, i + 1 + t.len() as int) == t);
        },
        JsonV::Arr(elems) => {
            if elems.len() == 0 {
                lemma_lies_at_byte(s, i, p, 1);
                assert(sp_ws_end(s, i + 1) == i + 1) by {
                    assert(!is_ws(93));
                }
                assert(elems =~= Seq::<JsonV>::empty());
            } else {
                lemma_value_at_arr(s, i, elems, ind);
            }
        },
        JsonV::Obj(entries) => {
            if entries.len() == 0 {
                lemma_lies_at_byte(s, i, p, 1);
                assert(sp_ws_end(s, i + 1) == i + 1) by {
                    assert(!is_ws(125));
                }
                assert(entries =~= Seq::<(Seq<u8>, JsonV)>::empty());
            } else {
                lemma_value_at_obj(s, i, entries, ind);
            }
        },
    }
}

#[verifier::rlimit(100)]
proof fn lemma_value_at_arr(s: Seq<u8>, i: int, elems: Seq<JsonV>, ind: nat)
    requires
        json_wf(JsonV::Arr(elems)),
        elems.len() > 0,
        lies_at(s, i, sp_pretty(JsonV::Arr(elems), ind)),
        is_term(s, i + sp_pretty(JsonV::Arr(elems), ind).len()),
    ensures
        sp_parse_value(s, i) == Some(
            (JsonV::Arr(elems), i + sp_pretty(JsonV::Arr(elems), ind).len() as int),
        ),
    decreases JsonV::Arr(elems), 1int,
{
    let v = JsonV::Arr(elems);
    let p = sp_pretty(v, ind);
    lemma_lies_at_byte(s, i, p, 0);
    {

                let ind2 = (ind + 1) as nat;
                let items = sp_arr_items(elems, 0, ind2);
                let head = sp_indent(ind2) + sp_pretty(elems[0], ind2);
                assert(items == if 0 == elems.len() - 1 {
                    head + seq![10u8]
                } else {
                    head + seq![44u8, 10u8] + sp_arr_items(elems, 1, ind2)
                });
                assert(p == seq![91u8, 10u8] + items + sp_indent(ind) + seq![93u8]);
                let h = i + 2 + 2 * (ind2 as int);
                lemma_pretty_head(elems[0], ind2);
                assert forall|m: int| i + 1 <= m < h implies is_ws(#[trigger] s[m]) by {
                    lemma_lies_at_byte(s, i, p, m - i);
                    if m > i + 1 {
                        assert(p[m - i] == items[m - i - 2]);
                        assert(items[m - i - 2] == sp_indent(ind2)[m - i - 2]);
                    }
                }
                assert(s[h] == sp_pretty(elems[0], ind2)[0]) by {
                    lemma_lies_at_byte(s, i, p, h - i);
                    assert(p[h - i] == items[2 * (ind2 as int)]);
                    assert(items[2 * (ind2 as int)] == sp_pretty(elems[0], ind2)[0]);
                }
                assert(!is_ws(s[h]) && s[h] != 93);
                lemma_ws_run(s, i + 1, h);
                lemma_lies_at_part(s, i, p, 2, 2 + items.len() as int);
                assert(p.subrange(2, 2 + items.len() as int) =~= items);
                lemma_lies_at_part(s, i, p, 2 + items.len() as int, 2 + items.len() + 2 * (ind as int));
                assert(p.subrange(2 + items.len() as int, 2 + items.len() + 2 * (ind as int)) =~= sp_indent(
                    ind,
                ));
                let b = i + 2 + items.len() + 2 * (ind as int);
                lemma_lies_at_byte(s, i, p, 2 + items.len() + 2 * (ind as int));
                assert(s[b] == 93);
                lemma_lies_at_byte(s, i, p, 1);
                lemma_items_at(s, i + 1, elems, 0, ind);
                assert(elems.skip(0) =~= elems);
    }
}

#[verifier::rlimit(100)]
proof fn lemma_value_at_obj(s: Seq<u8>, i: int, entries: Seq<(Seq<u8>, JsonV)>, ind: nat)
    requires
        json_wf(JsonV::Obj(entries)),
        entries.len() > 0,
        lies_at(s, i, sp_pretty(JsonV::Obj(entries), ind)),
        is_term(s, i + sp_pretty(JsonV::Obj(entries), ind).len()),
    ensures
        sp_parse_value(s, i) == Some(
            (JsonV::Obj(entries), i + sp_pretty(JsonV::Obj(entries), ind).len() as int),
        ),
    decreases JsonV::Obj(entries), 1int,
{
    let v = JsonV::Obj(entries);
    let p = sp_pretty(v, ind);
    lemma_lies_at_byte(s, i, p, 0);
    {

                let ind2 = (ind + 1) as nat;
                let items = sp_obj_items(entries, 0, ind2);
                let head = sp_indent(ind2) + sp_member(entries[0], ind2);
                assert(items == if 0 == entries.len() - 1 {
                    head + seq![10u8]
                } else {
                    head + seq![44u8, 10u8] + sp_obj_items(entries, 1, ind2)
                });
                assert(p == seq![123u8, 10u8] + items + sp_indent(ind) + seq![125u8]);
                let h = i + 2 + 2 * (ind2 as int);
                assert forall|m: int| i + 1 <= m < h implies is_ws(#[trigger] s[m]) by {
                    lemma_lies_at_byte(s, i, p, m - i);
                    if m > i + 1 {
                        assert(p[m - i] == items[m - i - 2]);
                        assert(items[m - i - 2] == sp_indent(ind2)[m - i - 2]);
                    }
                }
                assert(s[h] == sp_member(entries[0], ind2)[0]) by {
                    lemma_lies_at_byte(s, i, p, h - i);
                    assert(p[h - i] == items[2 * (ind2 as int)]);
                    assert(items[2 * (ind2 as int)] == sp_member(entries[0], ind2)[0]);
                }
                assert(s[h] == 34);
                lemma_ws_run(s, i + 1, h);
                lemma_lies_at_part(s, i, p, 2, 2 + items.len() as int);
                assert(p.subrange(2, 2 + items.len() as int) =~= items);
                lemma_lies_at_part(s, i, p, 2 + items.len() as int, 2 + items.len() + 2 * (ind as int));
                assert(p.subrange(2 + items.len() as int, 2 + items.len() + 2 * (ind as int)) =~= sp_indent(
                    ind,
                ));
                let b = i + 2 + items.len() + 2 * (ind as int);
                lemma_lies_at_byte(s, i, p, 2 + items.len() + 2 * (ind as int));
                assert(s[b] == 125);
                lemma_lies_at_byte(s, i, p, 1);
                lemma_members_at(s, i + 1, entries, 0, ind);
                assert(entries.skip(0) =~= entries);
    }
}

/// From a line break before them on, the printed elements `k` and later
/// of an array, closed by its bracket line, parse to exactly those
/// elements.
#[verifier::rlimit(100)]
proof fn lemma_items_at(s: Seq<u8>, p: int, elems: Seq<JsonV>, k: int, pind: nat)
    requires
        0 <= k < elems.len(),
        forall|m: int| 0 <= m < elems.len() ==> json_wf(#[trigger] elems[m]),
        0 <= p < s.len(),
        s[p] == 10,
        lies_at(s, p + 1, sp_arr_items(elems, k, (pind + 1) as nat)),
        lies_at(
            s,
            p + 1 + sp_arr_items(elems, k, (pind + 1) as nat).len(),
            sp_indent(pind),
        ),
        p + 1 + sp_arr_items(elems, k, (pind + 1) as nat).len() + 2 * (pind as int) < s.len(),
        s[p + 1 + sp_arr_items(elems, k, (pind + 1) as nat).len() + 2 * (pind as int)] == 93,
        is_term(s, p + 2 + sp_arr_items(elems, k, (pind + 1) as nat).len() + 2 * (pind as int)),
    ensures
        sp_parse_items(s, p) == Some(
            (
                elems.skip(k),
                p + 2 + sp_arr_items(elems, k, (pind + 1) as nat).len() + 2 * (pind as int),
            ),
        ),
    decreases elems, elems.len() - k,
{
    let ind2 = (pind + 1) as nat;
    let items = sp_arr_items(elems, k, ind2);
    let b = p + 1 + items.len() + 2 * (pind as int);
    let ev = elems[k];
    let pl = sp_pretty(ev, ind2).len() as int;
    let head = sp_indent(ind2) + sp_pretty(ev, ind2);
    let last = k == elems.len() - 1;
    assert(items == if last {
        head + seq![10u8]
    } else {
        head + seq![44u8, 10u8] + sp_arr_items(elems, k + 1, ind2)
    });
    lemma_pretty_head(ev, ind2);
    let h = p + 1 + 2 * (ind2 as int);
    assert forall|m: int| p <= m < h implies is_ws(#[trigger] s[m]) by {
        if m > p {
            lemma_lies_at_byte(s, p + 1, items, m - p - 1);
            assert(items[m - p - 1] == sp_indent(ind2)[m - p - 1]);
        }
    }
    assert(s[h] == sp_pretty(ev, ind2)[0]) by {
        lemma_lies_at_byte(s, p + 1, items, 2 * (ind2 as int));
        assert(items[2 * (ind2 as int)] == sp_pretty(ev, ind2)[0]);
    }
    assert(!is_ws(s[h]));
    lemma_ws_run(s, p, h);
    lemma_lies_at_part(s, p + 1, items, 2 * (ind2 as int), 2 * (ind2 as int) + pl);
    assert(items.subrange(2 * (ind2 as int), 2 * (ind2 as int) + pl) =~= sp_pretty(ev, ind2));
    let j = h + pl;
    assert(s[j] == items[2 * (ind2 as int) + pl]) by {
        lemma_lies_at_byte(s, p + 1, items, 2 * (ind2 as int) + pl);
    }
    if last {
        assert(s[j] == 10);
        assert(is_term(s, j));
        lemma_value_at(s, h, ev, ind2);
        assert(sp_parse_value(s, h) == Some((ev, j)));
        assert forall|m: int| j <= m < b implies is_ws(#[trigger] s[m]) by {
            if m > j {
                lemma_lies_at_byte(s, p + 1 + items.len(), sp_indent(pind), m - j - 1);
            }
        }
        assert(!is_ws(93));
        lemma_ws_run(s, j, b);
        assert(elems.skip(k) =~= seq![ev]);
        assert(sp_parse_items(s, p) == Some((seq![ev], b + 1)));
    } else {
        assert(s[j] == 44);
        assert(is_term(s, j));
        lemma_value_at(s, h, ev, ind2);
        assert(sp_parse_value(s, h) == Some((ev, j)));
        assert(sp_ws_end(s, j) == j) by {
            assert(!is_ws(44));
        }
        let rest = sp_arr_items(elems, k + 1, ind2);
        assert(s[j + 1] == 10) by {
            lemma_lies_at_byte(s, p + 1, items, 2 * (ind2 as int) + pl + 1);
        }
        assert(items.subrange(2 * (ind2 as int) + pl + 2, items.len() as int) =~= rest);
        lemma_lies_at_part(s, p + 1, items, 2 * (ind2 as int) + pl + 2, items.len() as int);
        assert(p + 1 + items.len() == j + 2 + rest.len());
        lemma_items_at(s, j + 1, elems, k + 1, pind);
        assert(sp_parse_items(s, j + 1) == Some((elems.skip(k + 1), b + 1)));
        assert(elems.skip(k) =~= seq![ev] + elems.skip(k + 1));
        assert(sp_parse_items(s, p) == Some((elems.skip(k), b + 1)));
    }
}

/// From a line break before them on, the printed members `k` and later
/// of an object, closed by its brace line, parse to exactly those
/// members.
#[verifier::rlimit(100)]
proof fn lemma_members_at(s: Seq<u8>, p: int, entries: Seq<(Seq<u8>, JsonV)>, k: int, pind: nat)
    requires
        0 <= k < entries.len(),
        forall|m: int|
            0 <= m < entries.len() ==> str_wf((#[trigger] entries[m]).0) && json_wf(
                entries[m].1,
            ),
        0 <= p < s.len(),
        s[p] == 10,
        lies_at(s, p + 1, sp_obj_items(entries, k, (pind + 1) as nat)),
        lies_at(
            s,
            p + 1 + sp_obj_items(entries, k, (pind + 1) as nat).len(),
            sp_indent(pind),
        ),
        p + 1 + sp_obj_items(entries, k, (pind + 1) as nat).len() + 2 * (pind as int) < s.len(),
        s[p + 1 + sp_obj_items(entries, k, (pind + 1) as nat).len() + 2 * (pind as int)] == 125,
        is_term(s, p + 2 + sp_obj_items(entries, k, (pind + 1) as nat).len() + 2 * (pind as int)),
    ensures
        sp_parse_members(s, p) == Some(
            (
                entries.skip(k),
                p + 2 + sp_obj_items(entries, k, (pind + 1) as nat).len() + 2 * (pind as int),
            ),
        ),
    decreases entries, entries.len() - k,
{
    let ind2 = (pind + 1) as nat;
    let items = sp_obj_items(entries, k, ind2);
    let b = p + 1 + items.len() + 2 * (pind as int);
    let ent = entries[k];
    let key = ent.0;
    let ev = ent.1;
    let kl = key.len() as int;
    let pl = sp_pretty(ev, ind2).len() as int;
    let mem = sp_member(ent, ind2);
    let head = sp_indent(ind2) + mem;
    let last = k == entries.len() - 1;
    assert(items == if last {
        head + seq![10u8]
    } else {
        head + seq![44u8, 10u8] + sp_obj_items(entries, k + 1, ind2)
    });
    assert(mem == seq![34u8] + key + seq![34u8, 58u8, 32u8] + sp_pretty(ev, ind2));
    assert(mem.len() == kl + 4 + pl);
    lemma_pretty_head(ev, ind2);
    let h = p + 1 + 2 * (ind2 as int);
    assert forall|m: int| p <= m < h implies is_ws(#[trigger] s[m]) by {
        if m > p {
            lemma_lies_at_byte(s, p + 1, items, m - p - 1);
            assert(items[m - p - 1] == sp_indent(ind2)[m - p - 1]);
        }
    }
    assert forall|m: int| 0 <= m < mem.len() implies s[h + m] == mem[m] by {
        lemma_lies_at_byte(s, p + 1, items, 2 * (ind2 as int) + m);
        assert(items[2 * (ind2 as int) + m] == mem[m]);
    }
    assert(s[h + 0] == mem[0]);
    assert(s[h] == 34);
    assert(!is_ws(34));
    lemma_ws_run(s, p, h);
    assert forall|m: int| 0 <= m < kl implies s[h + 1 + m] == key[m] by {
        assert(mem[1 + m] == key[m]);
    }
    assert(s.subrange(h + 1, h + 1 + kl) =~= key);
    assert(s[h + 1 + kl] == 34 && s[h + 2 + kl] == 58 && s[h + 3 + kl] == 32) by {
        assert(mem[1 + kl] == 34 && mem[2 + kl] == 58 && mem[3 + kl] == 32);
    }
    lemma_str_scan(s, h + 1, key);
    let e = h + 1 + kl;
    assert(sp_str_end(s, h + 1) == e);
    assert(sp_ws_end(s, e + 1) == e + 1) by {
        assert(!is_ws(58));
    }
    let vh = h + kl + 4;
    assert(s[vh] == sp_pretty(ev, ind2)[0]) by {
        assert(mem[kl + 4] == sp_pretty(ev, ind2)[0]);
    }
    assert(!is_ws(s[vh]));
    lemma_ws_run(s, e + 2, vh);
    assert(s.subrange(vh, vh + pl) =~= sp_pretty(ev, ind2)) by {
        assert forall|m: int| 0 <= m < pl implies s[vh + m] == sp_pretty(ev, ind2)[m] by {
            assert(mem[kl + 4 + m] == sp_pretty(ev, ind2)[m]);
        }
    }
    let j = vh + pl;
    assert(s[j] == items[2 * (ind2 as int) + mem.len() as int]) by {
        lemma_lies_at_byte(s, p + 1, items, 2 * (ind2 as int) + mem.len() as int);
    }
    if last {
        assert(s[j] == 10);
        assert(is_term(s, j));
        lemma_value_at(s, vh, ev, ind2);
        assert(sp_parse_value(s, vh) == Some((ev, j)));
        assert forall|m: int| j <= m < b implies is_ws(#[trigger] s[m]) by {
            if m > j {
                lemma_lies_at_byte(s, p + 1 + items.len(), sp_indent(pind), m - j - 1);
            }
        }
        assert(!is_ws(125));
        lemma_ws_run(s, j, b);
        assert(entries.skip(k) =~= seq![ent]);
        assert(sp_parse_members(s, p) == Some((seq![(key, ev)], b + 1)));
    } else {
        assert(s[j] == 44);
        assert(is_term(s, j));
        lemma_value_at(s, vh, ev, ind2);
        assert(sp_parse_value(s, vh) == Some((ev, j)));
        assert(sp_ws_end(s, j) == j) by {
            assert(!is_ws(44));
        }
        let rest = sp_obj_items(entries, k + 1, ind2);
        assert(s[j + 1] == 10) by {
            lemma_lies_at_byte(s, p + 1, items, 2 * (ind2 as int) + mem.len() + 1);
        }
        assert(items.subrange(2 * (ind2 as int) + mem.len() + 2, items.len() as int) =~= rest);
        lemma_lies_at_part(s, p + 1, items, 2 * (ind2 as int) + mem.len() + 2, items.len() as int);
        assert(p + 1 + items.len() == j + 2 + rest.len());
        lemma_members_at(s, j + 1, entries, k + 1, pind);
        assert(sp_parse_members(s, j + 1) == Some((entries.skip(k + 1), b + 1)));
        assert(entries.skip(k) =~= seq![(key, ev)] + entries.skip(k + 1));
        assert(sp_parse_members(s, p) == Some((entries.skip(k), b + 1)));
    }
}

/// A string body without quotes and backslashes is well formed.
pub proof fn lemma_plain_str_wf(t: Seq<u8>)
    requires
        forall|k: int| 0 <= k < t.len() ==> #[trigger] t[k] != 34 && t[k] != 92,
    ensures
        str_wf(t),
{
    lemma_plain_str_wf_from(t, 0);
}

proof fn lemma_plain_str_wf_from(t: Seq<u8>, k: int)
    requires
        0 <= k <= t.len(),
        forall|m: int| 0 <= m < t.len() ==> #[trigger] t[m] != 34 && t[m] != 92,
    ensures
        str_wf_from(t, k),
    decreases t.len() - k,
{
    if k < t.len() {
        lemma_plain_str_wf_from(t, k + 1);
    }
}

/// A non-empty run of digits alone is a well-formed number token.
pub proof fn lemma_digits_num_wf(t: Seq<u8>)
    requires
        t.len() > 0,
        forall|k: int| 0 <= k < t.len() ==> is_digit(#[trigger] t[k]),
    ensures
        num_wf(t),
{
    lemma_digits_run(t, 0, t.len() as int);
}

/// Two well-formed string bodies joined are a well-formed string body.
pub proof fn lemma_str_wf_concat(u: Seq<u8>, w: Seq<u8>)
    requires
        str_wf(u),
        str_wf(w),
    ensures
        str_wf(u + w),
    decreases u.len(),
{
    if u.len() == 0 {
        assert(u + w =~= w);
    } else if u[0] == 92 {
        assert((u + w)[0] == 92 && (u + w)[1] == u[1]);
        lemma_str_wf_shift(u, 2, 0);
        lemma_str_wf_concat(u.skip(2), w);
        lemma_str_wf_shift(u + w, 2, 0);
        assert((u + w).skip(2) =~= u.skip(2) + w);
    } else {
        assert((u + w)[0] == u[0]);
        lemma_str_wf_shift(u, 1, 0);
        lemma_str_wf_concat(u.skip(1), w);
        lemma_str_wf_shift(u + w, 1, 0);
        assert((u + w).skip(1) =~= u.skip(1) + w);
    }
}

/// The string scan steps through a run of bytes that are neither quotes
/// nor backslashes.
proof fn lemma_str_wf_ordinary_run(t: Seq<u8>, k: int, m: int)
    requires
        0 <= k <= m <= t.len(),
        str_wf_from(t, k),
        forall|j: int| k <= j < m ==> #[trigger] t[j] != 34 && t[j] != 92,
    ensures
        str_wf_from(t, m),
    decreases m - k,
{
    if k < m {
        lemma_str_wf_ordinary_run(t, k + 1, m);
    }
}

/// Whether a server name is quiet inside string bodies: it holds no
/// quote and no backslash, so replacing it cannot break escaping.
pub open spec fn name_clean(n: Seq<u8>) -> bool {
    forall|k: int| 0 <= k < n.len() ==> #[trigger] n[k] != 34 && n[k] != 92
}

/// Replacing one clean, non-empty name by another keeps a string body
/// well formed.
pub proof fn lemma_replace_str_wf(t: Seq<u8>, pat: Seq<u8>, rep: Seq<u8>)
    requires
        str_wf(t),
        pat.len() >= 1,
        rep.len() >= 1,
        name_clean(pat),
        name_clean(rep),
    ensures
        str_wf(crate::bytes::sp_replace(t, pat, rep)),
    decreases t.len(),
{
    let pl = pat.len() as int;
    if t.len() == 0 {
    } else if crate::bytes::match_at(t, 0, pat) {
        assert forall|j: int| 0 <= j < pl implies #[trigger] t[j] != 34 && t[j] != 92 by {
            assert(t.subrange(0, pl)[j] == t[j]);
        }
        lemma_str_wf_ordinary_run(t, 0, pl);
        lemma_str_wf_shift(t, pl, 0);
        lemma_replace_str_wf(t.skip(pl), pat, rep);
        lemma_plain_str_wf(rep);
        lemma_str_wf_concat(rep, crate::bytes::sp_replace(t.skip(pl), pat, rep));
    } else if t[0] == 92 {
        let t1 = t.skip(1);
        lemma_str_wf_shift(t, 2, 0);
        assert(t1[0] == t[1]);
        if crate::bytes::match_at(t1, 0, pat) {
            assert forall|j: int| 2 <= j < 1 + pl implies #[trigger] t[j] != 34 && t[j]
                != 92 by {
                assert(t1.subrange(0, pl)[j - 1] == t1[j - 1]);
                assert(t1[j - 1] == t[j]);
            }
            lemma_str_wf_ordinary_run(t, 2, 1 + pl);
            lemma_str_wf_shift(t, 1 + pl, 0);
            assert(t1.skip(pl) =~= t.skip(1 + pl));
            lemma_replace_str_wf(t.skip(1 + pl), pat, rep);
            let x = crate::bytes::sp_replace(t.skip(1 + pl), pat, rep);
            let head = seq![92u8] + rep;
            assert(str_wf(head)) by {
                lemma_plain_str_wf(rep);
                lemma_str_wf_shift(head, 2, 0);
                assert(head.skip(2) =~= rep.skip(1));
                lemma_str_wf_shift(rep, 1, 0);
            }
            lemma_str_wf_concat(head, x);
            assert(crate::bytes::sp_replace(t, pat, rep) == seq![92u8] + crate::bytes::sp_replace(
                t1,
                pat,
                rep,
            ));
            assert(crate::bytes::sp_replace(t1, pat, rep) == rep + crate::bytes::sp_replace(
                t1.skip(pl),
                pat,
                rep,
            ));
            assert(crate::bytes::sp_replace(t, pat, rep) =~= head + x);
        } else {
            lemma_replace_str_wf(t.skip(2), pat, rep);
            let x = crate::bytes::sp_replace(t.skip(2), pat, rep);
            let head = seq![92u8, t[1]];
            assert(str_wf(head)) by {
                lemma_str_wf_shift(head, 2, 0);
                assert(head.skip(2) =~= Seq::<u8>::empty());
            }
            lemma_str_wf_concat(head, x);
            assert(t1.skip(1) =~= t.skip(2));
            assert(crate::bytes::sp_replace(t, pat, rep) == seq![92u8] + crate::bytes::sp_replace(
                t1,
                pat,
                rep,
            ));
            assert(crate::bytes::sp_replace(t1, pat, rep) == seq![t1[0]]
                + crate::bytes::sp_replace(t1.skip(1), pat, rep));
            assert(crate::bytes::sp_replace(t, pat, rep) =~= head + x);
        }
    } else {
        lemma_str_wf_shift(t, 1, 0);
        lemma_replace_str_wf(t.skip(1), pat, rep);
        let x = crate::bytes::sp_replace(t.skip(1), pat, rep);
        let head = seq![t[0]];
        assert(str_wf(head)) by {
            lemma_str_wf_shift(head, 1, 0);
            assert(head.skip(1) =~= Seq::<u8>::empty());
        }
        lemma_str_wf_concat(head, x);
        assert(crate::bytes::sp_replace(t, pat, rep) == seq![t[0]] + crate::bytes::sp_replace(
            t.skip(1),
            pat,
            rep,
        ));
        assert(crate::bytes::sp_replace(t, pat, rep) =~= head + x);
    }
}

/// Rewriting names keeps a document well formed, for clean non-empty
/// names: numbers and keys are untouched, and each string body survives
/// the replacement.
pub proof fn lemma_rewrite_wf(v: JsonV, pat: Seq<u8>, rep: Seq<u8>)
    requires
        json_wf(v),
        pat.len() >= 1,
        rep.len() >= 1,
        name_clean(pat),
        name_clean(rep),
    ensures
        json_wf(crate::rewrite::sp_rewrite(v, pat, rep)),
    decreases v,
{
    let out = crate::rewrite::sp_rewrite(v, pat, rep);
    match v {
        JsonV::Text(t) => {
            lemma_replace_str_wf(t, pat, rep);
        },
        JsonV::Arr(es) => {
            assert forall|i: int| 0 <= i < out->Arr_0.len() implies json_wf(
                #[trigger] out->Arr_0[i],
            ) by {
                lemma_rewrite_wf(es[i], pat, rep);
            }
        },
        JsonV::Obj(en) => {
            assert forall|i: int|
                0 <= i < out->Obj_0.len() implies str_wf((#[trigger] out->Obj_0[i]).0)
                && json_wf(out->Obj_0[i].1) by {
                lemma_rewrite_wf(en[i].1, pat, rep);
            }
        },
        _ => {},
    }
}

/// Round trip: the pretty text of a well-formed document parses back to
/// exactly that document.
pub proof fn lemma_parse_pretty(v: JsonV)
    requires
        json_wf(v),
    ensures
        sp_parse(sp_pretty(v, 0)) == Some(v),
{
    let s = sp_pretty(v, 0);
    assert(s.subrange(0, s.len() as int) =~= s);
    assert(lies_at(s, 0, s));
    lemma_pretty_head(v, 0);
    assert(!is_ws(s[0]));
    assert(sp_ws_end(s, 0) == 0);
    lemma_value_at(s, 0, v, 0);
    assert(sp_ws_end(s, s.len() as int) == s.len());
}

/// Write then read: storing content stores the pretty text of its
/// document, and that text parses to the same document as the content.
pub proof fn lemma_write_read_round_trip(c: Seq<u8>)
    requires
        sp_parse(c) is Some,
    ensures
        sp_parse(sp_pretty(sp_parse(c).unwrap(), 0)) == sp_parse(c),
{
    lemma_parse_wf(c);
    lemma_parse_pretty(sp_parse(c).unwrap());
}

} // verus!
