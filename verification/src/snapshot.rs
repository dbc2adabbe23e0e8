//! Ordering of a server's snapshot files by recency.
//!
//! A candidate is any filename ending in `.json`. Candidates are ordered by
//! their embedded date, newest first, a file without a date counting as the
//! sentinel date `00000000`; files with equal dates are ordered by the full
//! filename, lexicographically descending, which puts same-day saves with a
//! time suffix before the plain daily file.

use vstd::prelude::*;
use crate::bytes::{lex_le, sp_ends_with, lemma_lex_total, lemma_lex_trans, lemma_lex_antisym};
use crate::datecode::sp_extract_date;
use crate::ConfigError;

verus! {

/// The bytes of the suffix `.json`.
pub open spec fn json_suffix() -> Seq<u8> {
    seq![46u8, 106u8, 115u8, 111u8, 110u8]
}

/// Whether a filename names a snapshot: it ends in `.json` and has a stem.
pub open spec fn is_snapshot_name(f: Seq<u8>) -> bool {
    f.len() >= 6 && sp_ends_with(f, json_suffix())
}

/// The snapshot-name test as a value, for filtering listings.
pub open spec fn snap_name_pred() -> spec_fn(Seq<u8>) -> bool {
    |f: Seq<u8>| is_snapshot_name(f)
}

/// The sentinel date of a file without one.
pub open spec fn zero_date() -> Seq<u8> {
    seq![48u8, 48u8, 48u8, 48u8, 48u8, 48u8, 48u8, 48u8]
}

/// The eight-digit date a file sorts under.
pub open spec fn date_key(f: Seq<u8>) -> Seq<u8> {
    match sp_extract_date(f) {
        Some(d) => d,
        None => zero_date(),
    }
}

/// The full sort key: the date, then the whole filename as tie-break.
pub open spec fn order_key(f: Seq<u8>) -> Seq<u8> {
    date_key(f) + f
}

/// Whether snapshot `a` comes no later than snapshot `b`, newest first:
/// descending date, then descending filename.
pub open spec fn snap_le(a: Seq<u8>, b: Seq<u8>) -> bool {
    lex_le(order_key(b), order_key(a))
}

/// The dates of valid filenames have eight bytes, so the sort key splits
/// back into date and filename; equal keys mean equal filenames.
pub proof fn lemma_order_key_inj(a: Seq<u8>, b: Seq<u8>)
    requires
        order_key(a) == order_key(b),
    ensures
        a == b,
{
    lemma_date_key_len(a);
    lemma_date_key_len(b);
    assert(a =~= order_key(a).skip(8));
    assert(b =~= order_key(b).skip(8));
}

proof fn lemma_date_key_len(f: Seq<u8>)
    ensures
        date_key(f).len() == 8,
{
    match sp_extract_date(f) {
        Some(d) => {
            lemma_extract_len(f);
        },
        None => {},
    }
}

proof fn lemma_extract_len(f: Seq<u8>)
    requires
        sp_extract_date(f) is Some,
    ensures
        sp_extract_date(f).unwrap().len() == 8,
{
    match crate::datecode::sp_first_run8_from(f, 0) {
        Some(i) => {
            crate::datecode::lemma_first_run8_finds(f, 0);
            if !crate::datecode::date_range_ok(f.subrange(i, i + 8)) {
                lemma_legacy_len(f);
            }
        },
        None => {
            lemma_legacy_len(f);
        },
    }
}

proof fn lemma_legacy_len(f: Seq<u8>)
    requires
        crate::datecode::sp_legacy_date(f) is Some,
    ensures
        crate::datecode::sp_legacy_date(f).unwrap().len() == 8,
{
    crate::datecode::lemma_last_ix_bound(f, 46);
}

/// The snapshot order is total.
pub proof fn lemma_snap_total(a: Seq<u8>, b: Seq<u8>)
    ensures
        snap_le(a, b) || snap_le(b, a),
{
    lemma_lex_total(order_key(b), order_key(a));
}

/// The snapshot order is transitive.
pub proof fn lemma_snap_trans(a: Seq<u8>, b: Seq<u8>, c: Seq<u8>)
    requires
        snap_le(a, b),
        snap_le(b, c),
    ensures
        snap_le(a, c),
{
    lemma_lex_trans(order_key(c), order_key(b), order_key(a));
}

/// Snapshots ordered both ways are the same file.
pub proof fn lemma_snap_antisym(a: Seq<u8>, b: Seq<u8>)
    requires
        snap_le(a, b),
        snap_le(b, a),
    ensures
        a == b,
{
    lemma_lex_antisym(order_key(b), order_key(a));
    lemma_order_key_inj(a, b);
}

/// Whether `a` comes no later than `b` in the snapshot order.
pub fn snap_le_exec(a: &Vec<u8>, b: &Vec<u8>) -> (r: bool)
    ensures
        r == snap_le(a@, b@),
{
    let ka = order_key_exec(a);
    let kb = order_key_exec(b);
    lex_le_exec(&kb, &ka)
}

/// The sort key of a filename: its date, or `00000000`, then the name.
fn order_key_exec(f: &Vec<u8>) -> (r: Vec<u8>)
    ensures
        r@ == order_key(f@),
{
    let mut key: Vec<u8> = match crate::datecode::extract_date(f) {
        Some(d) => d,
        None => {
            let mut z: Vec<u8> = Vec::new();
            let mut k: usize = 0;
            while k < 8
                invariant
                    k <= 8,
                    z@ =~= zero_date().take(k as int),
                decreases 8 - k,
            {
                z.push(48);
                proof {
                    assert(z@ =~= zero_date().take(k + 1));
                }
                k = k + 1;
            }
            proof {
                assert(z@ =~= zero_date());
            }
            z
        },
    };
    crate::bytes::push_all(&mut key, f);
    key
}

/// Whether `a` is lexicographically no greater than `b`.
#[verifier::loop_isolation(false)]
pub fn lex_le_exec(a: &Vec<u8>, b: &Vec<u8>) -> (r: bool)
    ensures
        r == lex_le(a@, b@),
{
    let mut i: usize = 0;
    while i < a.len() && i < b.len() && a[i] == b[i]
        invariant
            i <= a@.len(),
            i <= b@.len(),
            forall|k: int| 0 <= k < i ==> a@[k] == b@[k],
        decreases a@.len() - i,
    {
        i = i + 1;
    }
    proof {
        lemma_lex_common_prefix(a@, b@, i as int);
    }
    if i == a.len() {
        true
    } else if i == b.len() {
        false
    } else {
        proof {
            assert(a@.skip(i as int)[0] == a@[i as int]);
            assert(b@.skip(i as int)[0] == b@[i as int]);
        }
        a[i] < b[i]
    }
}

/// Dropping an equal prefix does not change the lexicographic comparison.
proof fn lemma_lex_common_prefix(a: Seq<u8>, b: Seq<u8>, i: int)
    requires
        0 <= i <= a.len(),
        i <= b.len(),
        forall|k: int| 0 <= k < i ==> a[k] == b[k],
    ensures
        lex_le(a, b) == lex_le(a.skip(i), b.skip(i)),
    decreases i,
{
    if i == 0 {
        assert(a.skip(0) =~= a);
        assert(b.skip(0) =~= b);
    } else {
        assert(a.len() > 0 && b.len() > 0 && a[0] == b[0]);
        assert(a.drop_first() =~= a.skip(1));
        assert(b.drop_first() =~= b.skip(1));
        assert forall|k: int| 0 <= k < i - 1 implies a.skip(1)[k] == b.skip(1)[k] by {
            assert(a.skip(1)[k] == a[k + 1]);
            assert(b.skip(1)[k] == b[k + 1]);
        }
        lemma_lex_common_prefix(a.skip(1), b.skip(1), i - 1);
        assert(a.skip(1).skip(i - 1) =~= a.skip(i));
        assert(b.skip(1).skip(i - 1) =~= b.skip(i));
    }
}

/// The views of a sequence of byte vectors.
pub open spec fn views(s: Seq<Vec<u8>>) -> Seq<Seq<u8>> {
    s.map_values(|v: Vec<u8>| v@)
}

/// Whether a sequence of filenames is ordered newest first.
pub open spec fn snap_sorted(s: Seq<Seq<u8>>) -> bool {
    forall|i: int, j: int| 0 <= i < j < s.len() ==> snap_le(#[trigger] s[i], #[trigger] s[j])
}

/// Two orderings of the same files agree: the snapshot order admits one
/// sorted arrangement only, so repeated listings of an unchanged folder
/// come back identical.
pub proof fn lemma_snap_sorted_unique(s1: Seq<Seq<u8>>, s2: Seq<Seq<u8>>)
    requires
        snap_sorted(s1),
        snap_sorted(s2),
        s1.to_multiset() == s2.to_multiset(),
    ensures
        s1 == s2,
    decreases s1.len(),
{
    broadcast use vstd::seq_lib::group_to_multiset_ensures;

    assert(s1.to_multiset().len() == s1.len());
    assert(s2.to_multiset().len() == s2.len());
    if s1.len() == 0 {
        assert(s1 =~= s2);
    } else {
        assert(s2.len() == s1.len());
        assert(s1.to_multiset().contains(s1[0]));
        assert(s2.to_multiset().contains(s1[0]));
        let j = choose|j: int| 0 <= j < s2.len() && s2[j] == s1[0];
        assert(s1.to_multiset().contains(s2[0]));
        let k = choose|k: int| 0 <= k < s1.len() && s1[k] == s2[0];
        if j > 0 {
            assert(snap_le(s2[0], s2[j]));
        }
        if k > 0 {
            assert(snap_le(s1[0], s1[k]));
        }
        lemma_snap_total(s1[0], s2[0]);
        if j == 0 || k == 0 {
            assert(s1[0] == s2[0]);
        } else {
            lemma_snap_antisym(s1[0], s2[0]);
        }
        assert(s1[0] == s2[0]);
        let t1 = s1.drop_first();
        let t2 = s2.drop_first();
        assert(s1 =~= seq![s1[0]] + t1);
        assert(s2 =~= seq![s2[0]] + t2);
        assert(t1 =~= s1.remove(0));
        assert(t2 =~= s2.remove(0));
        assert(t1.to_multiset() =~= t2.to_multiset());
        assert forall|i: int, jj: int| 0 <= i < jj < t1.len() implies snap_le(
            #[trigger] t1[i],
            #[trigger] t1[jj],
        ) by {
            assert(t1[i] == s1[i + 1]);
            assert(t1[jj] == s1[jj + 1]);
        }
        assert forall|i: int, jj: int| 0 <= i < jj < t2.len() implies snap_le(
            #[trigger] t2[i],
            #[trigger] t2[jj],
        ) by {
            assert(t2[i] == s2[i + 1]);
            assert(t2[jj] == s2[jj + 1]);
        }
        lemma_snap_sorted_unique(t1, t2);
        assert(s1 =~= s2);
    }
}

/// The snapshot filenames among `files`, newest first.
pub fn list_snapshots(files: &Vec<Vec<u8>>) -> (r: Vec<Vec<u8>>)
    ensures
        views(r@).to_multiset() == views(files@).filter(snap_name_pred())
            .to_multiset(),
        snap_sorted(views(r@)),
{
    let kept = keep_snapshot_names(files);
    sort_snapshots(kept)
}

/// The filenames among `files` that name snapshots, in input order.
#[verifier::loop_isolation(false)]
fn keep_snapshot_names(files: &Vec<Vec<u8>>) -> (r: Vec<Vec<u8>>)
    ensures
        views(r@) == views(files@).filter(snap_name_pred()),
{
    let suffix = json_suffix_exec();
    let mut out: Vec<Vec<u8>> = Vec::new();
    let mut i: usize = 0;
    proof {
        reveal(Seq::filter);
        assert(views(files@).take(0) =~= Seq::<Seq<u8>>::empty());
        assert(views(out@) =~= Seq::<Seq<u8>>::empty().filter(snap_name_pred()));
    }
    while i < files.len()
        invariant
            i <= files@.len(),
            suffix@ == json_suffix(),
            views(out@) == views(files@).take(i as int).filter(snap_name_pred()),
        decreases files@.len() - i,
    {
        let ghost pre = views(out@);
        let ghost taken = views(files@).take(i as int);
        let ghost taken1 = views(files@).take(i + 1);
        proof {
            assert(taken1.drop_last() =~= taken);
            assert(taken1.last() == files@[i as int]@);
        }
        let f = &files[i];
        if f.len() >= 6 && crate::bytes::ends_with(f, &suffix) {
            let c = crate::bytes::copy_bytes(f);
            out.push(c);
            proof {
                reveal(Seq::filter);
                assert(is_snapshot_name(taken1.last()));
                assert(snap_name_pred()(taken1.last()));
                assert(taken1.filter(snap_name_pred()) == taken.filter(snap_name_pred()).push(
                    f@,
                ));
                assert(views(out@) =~= pre.push(f@));
            }
        } else {
            proof {
                reveal(Seq::filter);
                assert(!snap_name_pred()(taken1.last()));
                assert(taken1.filter(snap_name_pred()) == taken.filter(snap_name_pred()));
            }
        }
        i = i + 1;
    }
    proof {
        assert(views(files@).take(files@.len() as int) =~= views(files@));
    }
    out
}

/// The bytes of `.json`.
fn json_suffix_exec() -> (r: Vec<u8>)
    ensures
        r@ == json_suffix(),
{
    let mut s: Vec<u8> = Vec::new();
    s.push(46);
    s.push(106);
    s.push(115);
    s.push(111);
    s.push(110);
    proof {
        assert(s@ =~= json_suffix());
    }
    s
}

/// Sorts filenames newest first under the snapshot order.
#[verifier::loop_isolation(false)]
pub fn sort_snapshots(v: Vec<Vec<u8>>) -> (r: Vec<Vec<u8>>)
    ensures
        views(r@).to_multiset() == views(v@).to_multiset(),
        snap_sorted(views(r@)),
{
    broadcast use vstd::seq_lib::group_to_multiset_ensures;

    let mut rem = v;
    let mut out: Vec<Vec<u8>> = Vec::new();
    proof {
        assert(views(out@) =~= Seq::<Seq<u8>>::empty());
        assert(views(out@).to_multiset().add(views(rem@).to_multiset()) =~= views(
            v@,
        ).to_multiset());
    }
    while rem.len() > 0
        invariant
            views(out@).to_multiset().add(views(rem@).to_multiset()) == views(v@).to_multiset(),
            snap_sorted(views(out@)),
            forall|i: int, j: int|
                0 <= i < views(out@).len() && 0 <= j < views(rem@).len() ==> snap_le(
                    #[trigger] views(out@)[i],
                    #[trigger] views(rem@)[j],
                ),
        decreases rem@.len(),
    {
        let m = index_of_newest(&rem);
        let ghost old_rem = views(rem@);
        let ghost old_out = views(out@);
        let x = rem.remove(m);
        out.push(x);
        proof {
            assert(views(rem@) =~= old_rem.remove(m as int));
            assert(views(out@) =~= old_out.push(x@));
            assert(old_rem.remove(m as int).to_multiset() =~= old_rem.to_multiset().remove(
                old_rem[m as int],
            ));
            assert(old_out.push(x@).to_multiset() =~= old_out.to_multiset().insert(x@));
            assert(views(out@).to_multiset().add(views(rem@).to_multiset()) =~= views(
                v@,
            ).to_multiset());
            assert forall|i: int, j: int|
                0 <= i < views(out@).len() && 0 <= j < views(rem@).len() implies snap_le(
                #[trigger] views(out@)[i],
                #[trigger] views(rem@)[j],
            ) by {
                let jj = if j < m { j } else { j + 1 };
                assert(views(rem@)[j] == old_rem[jj]);
                if i < old_out.len() {
                    assert(views(out@)[i] == old_out[i]);
                } else {
                    assert(views(out@)[i] == x@);
                }
            }
            assert forall|i: int, j: int|
                0 <= i < j < views(out@).len() implies snap_le(
                #[trigger] views(out@)[i],
                #[trigger] views(out@)[j],
            ) by {
                if j < old_out.len() {
                    assert(views(out@)[i] == old_out[i]);
                    assert(views(out@)[j] == old_out[j]);
                } else {
                    assert(views(out@)[j] == x@);
                    assert(views(out@)[i] == old_out[i]);
                    assert(snap_le(old_out[i], old_rem[m as int]));
                }
            }
        }
    }
    proof {
        assert(views(rem@).to_multiset().len() == 0);
        assert(views(out@).to_multiset() =~= views(v@).to_multiset());
    }
    out
}

/// The position of the newest file of a non-empty listing.
#[verifier::loop_isolation(false)]
fn index_of_newest(v: &Vec<Vec<u8>>) -> (m: usize)
    requires
        v@.len() > 0,
    ensures
        m < v@.len(),
        forall|j: int| 0 <= j < v@.len() ==> snap_le(v@[m as int]@, #[trigger] v@[j]@),
{
    let mut m: usize = 0;
    let mut j: usize = 1;
    proof {
        lemma_snap_total(v@[0]@, v@[0]@);
    }
    while j < v.len()
        invariant
            m < j <= v@.len(),
            forall|k: int| 0 <= k < j ==> snap_le(v@[m as int]@, #[trigger] v@[k]@),
        decreases v@.len() - j,
    {
        if !snap_le_exec(&v[m], &v[j]) {
            proof {
                lemma_snap_total(v@[m as int]@, v@[j as int]@);
            }
            let ghost old_m = m as int;
            m = j;
            proof {
                assert forall|k: int| 0 <= k < j + 1 implies snap_le(
                    v@[m as int]@,
                    #[trigger] v@[k]@,
                ) by {
                    if k < j {
                        lemma_snap_trans(v@[m as int]@, v@[old_m]@, v@[k]@);
                    } else {
                        lemma_snap_total(v@[m as int]@, v@[m as int]@);
                    }
                }
            }
        }
        j = j + 1;
    }
    m
}

/// The date of a snapshot name written `YYYY-MM-DD`, or empty when the
/// name carries no date.
pub open spec fn sp_norm_date(f: Seq<u8>) -> Seq<u8> {
    match sp_extract_date(f) {
        Some(d) => d.subrange(0, 4) + seq![45u8] + d.subrange(4, 6) + seq![45u8] + d.subrange(
            6,
            8,
        ),
        None => Seq::empty(),
    }
}

/// The date of a snapshot name written `YYYY-MM-DD`, or empty.
pub fn norm_date(f: &Vec<u8>) -> (r: Vec<u8>)
    ensures
        r@ == sp_norm_date(f@),
{
    match crate::datecode::extract_date(f) {
        Some(d) => {
            proof {
                lemma_extract_len(f@);
            }
            let mut out = crate::bytes::sub_bytes(&d, 0, 4);
            out.push(45);
            let mid = crate::bytes::sub_bytes(&d, 4, 6);
            crate::bytes::push_all(&mut out, &mid);
            out.push(45);
            let tail = crate::bytes::sub_bytes(&d, 6, 8);
            crate::bytes::push_all(&mut out, &tail);
            proof {
                assert(out@ =~= sp_norm_date(f@));
            }
            out
        },
        None => Vec::new(),
    }
}

/// The newest snapshot of a listing: its filename, its date written
/// `YYYY-MM-DD` (empty when the winner carries no date), and the number of
/// snapshot files; fails when the listing holds no snapshot file.
pub fn latest_snapshot(files: &Vec<Vec<u8>>) -> (r: Result<(Vec<u8>, Vec<u8>, usize), ConfigError>)
    ensures
        ({
            let snaps = views(files@).filter(snap_name_pred());
            match r {
                Ok((name, norm, count)) => snaps.len() > 0 && snaps.contains(name@) && count
                    == snaps.len() && norm@ == sp_norm_date(name@) && (forall|g: Seq<u8>|
                    snaps.contains(g) ==> snap_le(name@, g)),
                Err(e) => e == ConfigError::NoSnapshots && snaps.len() == 0,
            }
        }),
{
    broadcast use vstd::seq_lib::group_to_multiset_ensures;

    let sorted = list_snapshots(files);
    let ghost snaps = views(files@).filter(snap_name_pred());
    proof {
        assert(views(sorted@).to_multiset().len() == views(sorted@).len());
        assert(snaps.to_multiset().len() == snaps.len());
    }
    if sorted.len() == 0 {
        return Err(ConfigError::NoSnapshots);
    }
    let name = &sorted[0];
    let norm = norm_date(name);
    let count = sorted.len();
    proof {
        assert(views(sorted@)[0] == name@);
        assert(snaps.to_multiset().contains(name@)) by {
            assert(views(sorted@).contains(views(sorted@)[0]));
        }
        assert(snaps.contains(name@));
        assert forall|g: Seq<u8>| snaps.contains(g) implies snap_le(name@, g) by {
            assert(snaps.to_multiset().contains(g));
            assert(views(sorted@).contains(g));
            let j = choose|j: int| 0 <= j < views(sorted@).len() && views(sorted@)[j] == g;
            if j > 0 {
                assert(snap_le(views(sorted@)[0], views(sorted@)[j]));
            } else {
                lemma_snap_total(name@, name@);
            }
        }
    }
    Ok((crate::bytes::copy_bytes(name), norm, count))
}

} // verus!
