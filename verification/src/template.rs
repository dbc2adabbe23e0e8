//! The template tiers that seed a new server's first snapshot: the
//! personal template, the shared default, and the built-in minimal
//! template, probed in that order. The built-in fallback also hands back
//! content to materialize at the personal location, so later calls find
//! a personal template and settle.

use vstd::prelude::*;
use crate::json::{Json, JsonV, json_wf, sp_parse, sp_pretty, eviews};
use crate::ConfigError;

verus! {

/// The bytes of the key `defaultCompanyId`.
pub open spec fn key_default_company_id() -> Seq<u8> {
    seq![100u8, 101, 102, 97, 117, 108, 116, 67, 111, 109, 112, 97, 110, 121, 73, 100]
}

/// The bytes of the key `multiCompany`.
pub open spec fn key_multi_company() -> Seq<u8> {
    seq![109u8, 117, 108, 116, 105, 67, 111, 109, 112, 97, 110, 121]
}

/// The bytes of the key `useIPPermit`.
pub open spec fn key_use_ip_permit() -> Seq<u8> {
    seq![117u8, 115, 101, 73, 80, 80, 101, 114, 109, 105, 116]
}

/// The bytes of the key `checkPushToken`.
pub open spec fn key_check_push_token() -> Seq<u8> {
    seq![99u8, 104, 101, 99, 107, 80, 117, 115, 104, 84, 111, 107, 101, 110]
}

/// The bytes of the key `logoutAfter`.
pub open spec fn key_logout_after() -> Seq<u8> {
    seq![108u8, 111, 103, 111, 117, 116, 65, 102, 116, 101, 114]
}

fn key_default_company_id_vec() -> (r: Vec<u8>)
    ensures
        r@ == key_default_company_id(),
{
    let mut v: Vec<u8> = Vec::new();
    v.push(100);
    v.push(101);
    v.push(102);
    v.push(97);
    v.push(117);
    v.push(108);
    v.push(116);
    v.push(67);
    v.push(111);
    v.push(109);
    v.push(112);
    v.push(97);
    v.push(110);
    v.push(121);
    v.push(73);
    v.push(100);
    proof {
        assert(v@ =~= key_default_company_id());
    }
    v
}

fn key_multi_company_vec() -> (r: Vec<u8>)
    ensures
        r@ == key_multi_company(),
{
    let mut v: Vec<u8> = Vec::new();
    v.push(109);
    v.push(117);
    v.push(108);
    v.push(116);
    v.push(105);
    v.push(67);
    v.push(111);
    v.push(109);
    v.push(112);
    v.push(97);
    v.push(110);
    v.push(121);
    proof {
        assert(v@ =~= key_multi_company());
    }
    v
}

fn key_use_ip_permit_vec() -> (r: Vec<u8>)
    ensures
        r@ == key_use_ip_permit(),
{
    let mut v: Vec<u8> = Vec::new();
    v.push(117);
    v.push(115);
    v.push(101);
    v.push(73);
    v.push(80);
    v.push(80);
    v.push(101);
    v.push(114);
    v.push(109);
    v.push(105);
    v.push(116);
    proof {
        assert(v@ =~= key_use_ip_permit());
    }
    v
}

fn key_check_push_token_vec() -> (r: Vec<u8>)
    ensures
        r@ == key_check_push_token(),
{
    let mut v: Vec<u8> = Vec::new();
    v.push(99);
    v.push(104);
    v.push(101);
    v.push(99);
    v.push(107);
    v.push(80);
    v.push(117);
    v.push(115);
    v.push(104);
    v.push(84);
    v.push(111);
    v.push(107);
    v.push(101);
    v.push(110);
    proof {
        assert(v@ =~= key_check_push_token());
    }
    v
}

fn key_logout_after_vec() -> (r: Vec<u8>)
    ensures
        r@ == key_logout_after(),
{
    let mut v: Vec<u8> = Vec::new();
    v.push(108);
    v.push(111);
    v.push(103);
    v.push(111);
    v.push(117);
    v.push(116);
    v.push(65);
    v.push(102);
    v.push(116);
    v.push(101);
    v.push(114);
    proof {
        assert(v@ =~= key_logout_after());
    }
    v
}

/// The built-in minimal template as a document: an empty default company,
/// multi-company, IP permit off, push-token checking on, and a fourteen
/// day logout.
pub open spec fn spec_minimal_json() -> JsonV {
    JsonV::Obj(
        seq![
            (key_default_company_id(), JsonV::Text(Seq::empty())),
            (key_multi_company(), JsonV::Bool(false)),
            (key_use_ip_permit(), JsonV::Bool(false)),
            (key_check_push_token(), JsonV::Bool(true)),
            (key_logout_after(), JsonV::Num(seq![49u8, 52u8])),
        ],
    )
}

/// The text of the built-in minimal template: its document, printed.
pub open spec fn spec_minimal_template() -> Seq<u8> {
    sp_pretty(spec_minimal_json(), 0)
}

/// The minimal template is a well-formed document, so its text parses
/// back to it.
pub proof fn lemma_minimal_wf()
    ensures
        json_wf(spec_minimal_json()),
        sp_parse(spec_minimal_template()) == Some(spec_minimal_json()),
{
    let en = spec_minimal_json()->Obj_0;
    assert forall|i: int| 0 <= i < en.len() implies crate::json::str_wf((#[trigger] en[i]).0)
        && json_wf(en[i].1) by {
        crate::json_laws::lemma_plain_str_wf(en[i].0);
        if i == 4 {
            crate::json_laws::lemma_digits_num_wf(seq![49u8, 52u8]);
        }
    }
    crate::json_laws::lemma_parse_pretty(spec_minimal_json());
}

/// The built-in minimal template as a document.
fn minimal_json() -> (r: Json)
    ensures
        r.v() == spec_minimal_json(),
{
    let mut en: Vec<(Vec<u8>, Json)> = Vec::new();
    en.push((key_default_company_id_vec(), Json::Text(Vec::new())));
    en.push((key_multi_company_vec(), Json::Bool(false)));
    en.push((key_use_ip_permit_vec(), Json::Bool(false)));
    en.push((key_check_push_token_vec(), Json::Bool(true)));
    let mut fourteen: Vec<u8> = Vec::new();
    fourteen.push(49);
    fourteen.push(52);
    proof {
        assert(fourteen@ =~= seq![49u8, 52u8]);
    }
    en.push((key_logout_after_vec(), Json::Num(fourteen)));
    proof {
        assert(eviews(en@) =~= spec_minimal_json()->Obj_0);
    }
    Json::Obj(en)
}

/// The text of the built-in minimal template.
pub fn get_minimal_template() -> (r: Vec<u8>)
    ensures
        r@ == spec_minimal_template(),
{
    let d = minimal_json();
    crate::json::pretty_json(&d)
}

/// The view of an optional byte string.
pub open spec fn opt_view(o: Option<&Vec<u8>>) -> Option<Seq<u8>> {
    match o {
        Some(v) => Some(v@),
        None => None,
    }
}

/// What template resolution yields from the two file tiers: the content
/// to use, and the content to materialize at the personal location when
/// the built-in fallback was taken.
pub open spec fn spec_resolve(personal: Option<Seq<u8>>, shared: Option<Seq<u8>>) -> (
    Seq<u8>,
    Option<Seq<u8>>,
) {
    if personal is Some && sp_parse(personal.unwrap()) is Some {
        (personal.unwrap(), None)
    } else if shared is Some && sp_parse(shared.unwrap()) is Some {
        (shared.unwrap(), None)
    } else {
        (spec_minimal_template(), Some(spec_minimal_template()))
    }
}

/// Whatever the tiers hold, the resolved content parses.
pub proof fn lemma_resolve_parses(personal: Option<Seq<u8>>, shared: Option<Seq<u8>>)
    ensures
        sp_parse(spec_resolve(personal, shared).0) is Some,
{
    lemma_minimal_wf();
}

/// Template resolution settles after its first materialization: a call
/// that hands back content to write returns that same content, and a
/// later call that finds it as the personal template returns it again
/// and writes nothing.
pub proof fn lemma_resolve_idempotent(
    personal: Option<Seq<u8>>,
    shared: Option<Seq<u8>>,
    shared2: Option<Seq<u8>>,
)
    ensures
        ({
            let (c, w) = spec_resolve(personal, shared);
            w is Some ==> w == Some(c) && spec_resolve(Some(c), shared2) == (
                c,
                None::<Seq<u8>>,
            )
        }),
{
    lemma_minimal_wf();
}

/// The template content to seed a new server with, from the contents of
/// the personal and shared template files: the first tier that holds
/// valid JSON, else the built-in minimal template, which is then also
/// returned for materialization at the personal location.
pub fn resolve_template(personal: Option<&Vec<u8>>, shared: Option<&Vec<u8>>) -> (r: (
    Vec<u8>,
    Option<Vec<u8>>,
))
    ensures
        ({
            let (c, w) = spec_resolve(opt_view(personal), opt_view(shared));
            r.0@ == c && (match (r.1, w) {
                (Some(a), Some(b)) => a@ == b,
                (None, None) => true,
                _ => false,
            })
        }),
{
    match personal {
        Some(p) => {
            if crate::json::validate_json(p) {
                return (crate::bytes::copy_bytes(p), None);
            }
        },
        None => {},
    }
    match shared {
        Some(sh) => {
            if crate::json::validate_json(sh) {
                return (crate::bytes::copy_bytes(sh), None);
            }
        },
        None => {},
    }
    let m = get_minimal_template();
    let m2 = get_minimal_template();
    (m, Some(m2))
}

} // verus!
