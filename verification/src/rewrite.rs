//! Rewriting of server-name references inside a configuration document:
//! every string value that mentions the old name has each occurrence
//! replaced by the new name. Key names and all other scalars stay as
//! they are, and the document's shape is untouched.

use vstd::prelude::*;
use crate::bytes::{sp_replace, has_match, unbordered, lemma_replace_undo};
use crate::json::{Json, JsonV, jviews, eviews};

verus! {

broadcast use {
    vstd::std_specs::vec::axiom_vec_index_decreases,
    vstd::std_specs::vec::axiom_vec_decreases_to_view,
    vstd::seq::axiom_seq_index_decreases,
};

/// The document with every occurrence of `pat` inside a string value
/// replaced by `rep`.
pub open spec fn sp_rewrite(v: JsonV, pat: Seq<u8>, rep: Seq<u8>) -> JsonV
    decreases v,
{
    match v {
        JsonV::Null => JsonV::Null,
        JsonV::Bool(b) => JsonV::Bool(b),
        JsonV::Num(r) => JsonV::Num(r),
        JsonV::Text(t) => JsonV::Text(sp_replace(t, pat, rep)),
        JsonV::Arr(es) => JsonV::Arr(
            Seq::new(
                es.len(),
                |i: int|
                    if 0 <= i < es.len() {
                        sp_rewrite(es[i], pat, rep)
                    } else {
                        JsonV::Null
                    },
            ),
        ),
        JsonV::Obj(en) => JsonV::Obj(
            Seq::new(
                en.len(),
                |i: int|
                    if 0 <= i < en.len() {
                        (en[i].0, sp_rewrite(en[i].1, pat, rep))
                    } else {
                        (Seq::empty(), JsonV::Null)
                    },
            ),
        ),
    }
}

/// The document with every occurrence of `pat` inside a string value
/// replaced by `rep`.
#[verifier::loop_isolation(false)]
pub fn rewrite_refs(v: &Json, pat: &Vec<u8>, rep: &Vec<u8>) -> (r: Json)
    ensures
        r.v() == sp_rewrite(v.v(), pat@, rep@),
    decreases v,
{
    match v {
        Json::Null => Json::Null,
        Json::Bool(b) => Json::Bool(*b),
        Json::Num(raw) => Json::Num(crate::bytes::copy_bytes(raw)),
        Json::Text(t) => Json::Text(crate::bytes::replace_bytes(t, pat, rep)),
        Json::Arr(es) => {
            let mut out: Vec<Json> = Vec::new();
            let mut k: usize = 0;
            while k < es.len()
                invariant
                    k <= es@.len(),
                    out@.len() == k,
                    forall|i: int|
                        0 <= i < k ==> (#[trigger] out@[i]).v() == sp_rewrite(
                            es@[i].v(),
                            pat@,
                            rep@,
                        ),
                decreases es@.len() - k,
            {
                proof {
                    assert(*es == v->Arr_0);
                    assert(decreases_to!(*v => v->Arr_0));
                    assert(decreases_to!(*es => es@));
                    assert(decreases_to!(es@ => es@[k as int]));
                }
                let c = rewrite_refs(&es[k], pat, rep);
                out.push(c);
                k = k + 1;
            }
            proof {
                lemma_arr_views(es@, out@, pat@, rep@);
            }
            Json::Arr(out)
        },
        Json::Obj(en) => {
            let mut out: Vec<(Vec<u8>, Json)> = Vec::new();
            let mut k: usize = 0;
            while k < en.len()
                invariant
                    k <= en@.len(),
                    out@.len() == k,
                    forall|i: int|
                        0 <= i < k ==> (#[trigger] out@[i]).0@ == en@[i].0@ && out@[i].1.v()
                            == sp_rewrite(en@[i].1.v(), pat@, rep@),
                decreases en@.len() - k,
            {
                let key = crate::bytes::copy_bytes(&en[k].0);
                proof {
                    assert(*en == v->Obj_0);
                    assert(decreases_to!(*v => v->Obj_0));
                    assert(decreases_to!(*en => en@));
                    assert(decreases_to!(en@ => en@[k as int]));
                    assert(decreases_to!(en@[k as int] => en@[k as int].1));
                }
                let c = rewrite_refs(&en[k].1, pat, rep);
                out.push((key, c));
                k = k + 1;
            }
            proof {
                lemma_obj_views(en@, out@, pat@, rep@);
            }
            Json::Obj(out)
        },
    }
}

proof fn lemma_arr_views(es: Seq<Json>, out: Seq<Json>, pat: Seq<u8>, rep: Seq<u8>)
    requires
        out.len() == es.len(),
        forall|i: int|
            0 <= i < out.len() ==> (#[trigger] out[i]).v() == sp_rewrite(es[i].v(), pat, rep),
    ensures
        JsonV::Arr(jviews(out)) == sp_rewrite(JsonV::Arr(jviews(es)), pat, rep),
{
    let lhs = jviews(out);
    let target = sp_rewrite(JsonV::Arr(jviews(es)), pat, rep);
    assert(lhs =~= target->Arr_0);
}

proof fn lemma_obj_views(
    en: Seq<(Vec<u8>, Json)>,
    out: Seq<(Vec<u8>, Json)>,
    pat: Seq<u8>,
    rep: Seq<u8>,
)
    requires
        out.len() == en.len(),
        forall|i: int|
            0 <= i < out.len() ==> (#[trigger] out[i]).0@ == en[i].0@ && out[i].1.v()
                == sp_rewrite(en[i].1.v(), pat, rep),
    ensures
        JsonV::Obj(eviews(out)) == sp_rewrite(JsonV::Obj(eviews(en)), pat, rep),
{
    let lhs = eviews(out);
    let target = sp_rewrite(JsonV::Obj(eviews(en)), pat, rep);
    assert(lhs =~= target->Obj_0);
}

/// Whether replacing `pat` by `rep` and then `rep` by `pat` gives every
/// string value of the document back unchanged.
pub open spec fn undo_ok(v: JsonV, pat: Seq<u8>, rep: Seq<u8>) -> bool
    decreases v,
{
    match v {
        JsonV::Text(t) => sp_replace(sp_replace(t, pat, rep), rep, pat) == t,
        JsonV::Arr(es) => forall|i: int| 0 <= i < es.len() ==> undo_ok(#[trigger] es[i], pat, rep),
        JsonV::Obj(en) => forall|i: int|
            0 <= i < en.len() ==> undo_ok((#[trigger] en[i]).1, pat, rep),
        _ => true,
    }
}

/// A copy is a structural clone under renaming: when each string value
/// survives the name swap and back, rewriting the rewritten document
/// with the names exchanged is the original document.
pub proof fn lemma_rewrite_roundtrip(v: JsonV, pat: Seq<u8>, rep: Seq<u8>)
    requires
        undo_ok(v, pat, rep),
    ensures
        sp_rewrite(sp_rewrite(v, pat, rep), rep, pat) == v,
    decreases v,
{
    match v {
        JsonV::Arr(es) => {
            assert forall|i: int| 0 <= i < es.len() implies sp_rewrite(
                sp_rewrite(#[trigger] es[i], pat, rep),
                rep,
                pat,
            ) == es[i] by {
                lemma_rewrite_roundtrip(es[i], pat, rep);
            }
            let back = sp_rewrite(sp_rewrite(v, pat, rep), rep, pat);
            assert(back->Arr_0 =~= es);
        },
        JsonV::Obj(en) => {
            assert forall|i: int| 0 <= i < en.len() implies sp_rewrite(
                sp_rewrite((#[trigger] en[i]).1, pat, rep),
                rep,
                pat,
            ) == en[i].1 by {
                lemma_rewrite_roundtrip(en[i].1, pat, rep);
            }
            let back = sp_rewrite(sp_rewrite(v, pat, rep), rep, pat);
            assert(back->Obj_0 =~= en);
        },
        _ => {},
    }
}

/// Whether no string value of the document mentions the new name.
pub open spec fn target_absent(v: JsonV, rep: Seq<u8>) -> bool
    decreases v,
{
    match v {
        JsonV::Text(t) => !has_match(t, rep),
        JsonV::Arr(es) => forall|i: int|
            0 <= i < es.len() ==> target_absent(#[trigger] es[i], rep),
        JsonV::Obj(en) => forall|i: int|
            0 <= i < en.len() ==> target_absent((#[trigger] en[i]).1, rep),
        _ => true,
    }
}

proof fn lemma_target_absent_undo(v: JsonV, pat: Seq<u8>, rep: Seq<u8>)
    requires
        pat.len() >= 1,
        rep.len() >= 1,
        unbordered(rep),
        target_absent(v, rep),
    ensures
        undo_ok(v, pat, rep),
    decreases v,
{
    match v {
        JsonV::Text(t) => {
            lemma_replace_undo(t, pat, rep);
        },
        JsonV::Arr(es) => {
            assert forall|i: int| 0 <= i < es.len() implies undo_ok(
                #[trigger] es[i],
                pat,
                rep,
            ) by {
                lemma_target_absent_undo(es[i], pat, rep);
            }
        },
        JsonV::Obj(en) => {
            assert forall|i: int| 0 <= i < en.len() implies undo_ok(
                (#[trigger] en[i]).1,
                pat,
                rep,
            ) by {
                lemma_target_absent_undo(en[i].1, pat, rep);
            }
        },
        _ => {},
    }
}

/// A copy is a structural clone under renaming: whenever the new name is
/// non-empty, has no border, and appears nowhere in the source document,
/// rewriting the copied document with the names exchanged yields exactly
/// the source document.
pub proof fn lemma_copy_roundtrip(v: JsonV, pat: Seq<u8>, rep: Seq<u8>)
    requires
        pat.len() >= 1,
        rep.len() >= 1,
        unbordered(rep),
        target_absent(v, rep),
    ensures
        sp_rewrite(sp_rewrite(v, pat, rep), rep, pat) == v,
{
    lemma_target_absent_undo(v, pat, rep);
    lemma_rewrite_roundtrip(v, pat, rep);
}

} // verus!
