//! The stateful operations of the engine, as decisions over directory
//! listings and file contents: naming a save, seeding a new server,
//! duplicating a history under a new name, soft-deleting, and listing
//! servers. The surrounding application lists directories, reads and
//! writes files, and hands the plain values in.

use vstd::prelude::*;
use crate::bytes::{lex_le, sp_replace, sp_ends_with, lemma_lex_total, lemma_lex_trans};
use crate::snapshot::{views, json_suffix, is_snapshot_name};
use crate::json::{sp_parse, sp_pretty};
use crate::rewrite::sp_rewrite;
use crate::template::{spec_resolve, spec_minimal_template, opt_view};
use crate::ConfigError;

verus! {

/// `<name>_<date>.json`: the daily snapshot filename.
pub open spec fn spec_snapshot_filename(name: Seq<u8>, date: Seq<u8>) -> Seq<u8> {
    name + seq![95u8] + date + json_suffix()
}

/// `<name>_<date>_<time>.json`: the filename of a disambiguated
/// same-day save.
pub open spec fn spec_timed_filename(name: Seq<u8>, date: Seq<u8>, time: Seq<u8>) -> Seq<u8> {
    name + seq![95u8] + date + seq![95u8] + time + json_suffix()
}

/// `<name>_<date>.json`.
pub fn snapshot_filename(name: &Vec<u8>, date: &Vec<u8>) -> (r: Vec<u8>)
    ensures
        r@ == spec_snapshot_filename(name@, date@),
{
    let mut out = crate::bytes::copy_bytes(name);
    out.push(95);
    crate::bytes::push_all(&mut out, date);
    out.push(46);
    out.push(106);
    out.push(115);
    out.push(111);
    out.push(110);
    proof {
        assert(out@ =~= spec_snapshot_filename(name@, date@));
    }
    out
}

/// `<name>_<date>_<time>.json`.
pub fn timed_filename(name: &Vec<u8>, date: &Vec<u8>, time: &Vec<u8>) -> (r: Vec<u8>)
    ensures
        r@ == spec_timed_filename(name@, date@, time@),
{
    let mut out = crate::bytes::copy_bytes(name);
    out.push(95);
    crate::bytes::push_all(&mut out, date);
    out.push(95);
    crate::bytes::push_all(&mut out, time);
    out.push(46);
    out.push(106);
    out.push(115);
    out.push(111);
    out.push(110);
    proof {
        assert(out@ =~= spec_timed_filename(name@, date@, time@));
    }
    out
}

/// Whether a listing holds a filename.
#[verifier::loop_isolation(false)]
fn contains_name(list: &Vec<Vec<u8>>, x: &Vec<u8>) -> (r: bool)
    ensures
        r == views(list@).contains(x@),
{
    let mut i: usize = 0;
    while i < list.len()
        invariant
            i <= list@.len(),
            forall|k: int| 0 <= k < i ==> views(list@)[k] != x@,
        decreases list@.len() - i,
    {
        if crate::bytes::bytes_eq(&list[i], x) {
            proof {
                assert(views(list@)[i as int] == x@);
            }
            return true;
        }
        i = i + 1;
    }
    proof {
        if views(list@).contains(x@) {
            let k = choose|k: int| 0 <= k < views(list@).len() && views(list@)[k] == x@;
        }
    }
    false
}

/// The filename a save uses: the daily name, or, when the daily file
/// already exists in the listing, the time-suffixed name, so that a
/// save never silently overwrites the day's earlier snapshot.
pub open spec fn spec_save_filename(
    existing: Seq<Seq<u8>>,
    name: Seq<u8>,
    date: Seq<u8>,
    time: Seq<u8>,
) -> Seq<u8> {
    if existing.contains(spec_snapshot_filename(name, date)) {
        spec_timed_filename(name, date, time)
    } else {
        spec_snapshot_filename(name, date)
    }
}

/// The filename a save of `name` on `date` at `time` uses, given the
/// server folder's current listing.
pub fn choose_save_filename(
    existing: &Vec<Vec<u8>>,
    name: &Vec<u8>,
    date: &Vec<u8>,
    time: &Vec<u8>,
) -> (r: Vec<u8>)
    ensures
        r@ == spec_save_filename(views(existing@), name@, date@, time@),
{
    let base = snapshot_filename(name, date);
    if contains_name(existing, &base) {
        timed_filename(name, date, time)
    } else {
        base
    }
}

/// Two same-day saves make two distinct files: the first creates the
/// daily file, and the second, finding it, takes the time-suffixed name.
pub proof fn lemma_save_twice_distinct(
    existing: Seq<Seq<u8>>,
    name: Seq<u8>,
    date: Seq<u8>,
    time: Seq<u8>,
    time2: Seq<u8>,
)
    requires
        !existing.contains(spec_snapshot_filename(name, date)),
        time2.len() > 0,
    ensures
        ({
            let f1 = spec_save_filename(existing, name, date, time);
            let f2 = spec_save_filename(existing.push(f1), name, date, time2);
            f1 != f2
        }),
{
    let base = spec_snapshot_filename(name, date);
    assert(existing.push(base)[existing.len() as int] == base);
    assert(existing.push(base).contains(base));
    assert(spec_timed_filename(name, date, time2).len() > base.len());
}

/// The save of new content for a server: checks the content, picks the
/// filename under the collision rule, and returns the filename and the
/// pretty text to write; fails exactly when the content is not JSON.
pub fn save_config(
    existing: &Vec<Vec<u8>>,
    name: &Vec<u8>,
    content: &Vec<u8>,
    date: &Vec<u8>,
    time: &Vec<u8>,
) -> (r: Result<(Vec<u8>, Vec<u8>), ConfigError>)
    ensures
        match r {
            Ok((fname, text)) => sp_parse(content@) is Some && fname@ == spec_save_filename(
                views(existing@),
                name@,
                date@,
                time@,
            ) && text@ == sp_pretty(sp_parse(content@).unwrap(), 0),
            Err(e) => e == ConfigError::InvalidJson && sp_parse(content@) is None,
        },
{
    let text = match crate::json::format_json(content) {
        Ok(t) => t,
        Err(e) => {
            return Err(e);
        },
    };
    Ok((choose_save_filename(existing, name, date, time), text))
}

/// The save of new content, dated by the wall clock.
pub fn save_config_now(existing: &Vec<Vec<u8>>, name: &Vec<u8>, content: &Vec<u8>) -> (r: Result<
    (Vec<u8>, Vec<u8>),
    ConfigError,
>)
    ensures
        match r {
            Ok((fname, text)) => sp_parse(content@) is Some && text@ == sp_pretty(
                sp_parse(content@).unwrap(),
                0,
            ) && (exists|d: Seq<u8>, t: Seq<u8>|
                fname@ == spec_save_filename(views(existing@), name@, d, t) && t.len() > 0),
            Err(e) => e == ConfigError::InvalidJson && sp_parse(content@) is None,
        },
{
    let date = crate::clock::today_yyyymmdd();
    let time = crate::clock::now_hhmmss();
    let r = save_config(existing, name, content, &date, &time);
    proof {
        if r is Ok {
            let d = date@;
            let t = time@;
            assert(r.unwrap().0@ == spec_save_filename(views(existing@), name@, d, t) && t.len()
                > 0);
        }
    }
    r
}

/// The first snapshot of a new server: its filename for the given date,
/// the seed content (the resolved template, or the built-in minimal
/// template when templates were declined), and the content to
/// materialize at the personal template location, if any.
pub fn create_server_content(
    name: &Vec<u8>,
    date: &Vec<u8>,
    use_template: bool,
    personal: Option<&Vec<u8>>,
    shared: Option<&Vec<u8>>,
) -> (r: (Vec<u8>, Vec<u8>, Option<Vec<u8>>))
    ensures
        r.0@ == spec_snapshot_filename(name@, date@),
        use_template ==> ({
            let (c, w) = spec_resolve(opt_view(personal), opt_view(shared));
            r.1@ == c && (match (r.2, w) {
                (Some(a), Some(b)) => a@ == b,
                (None, None) => true,
                _ => false,
            })
        }),
        !use_template ==> r.1@ == spec_minimal_template() && r.2 is None,
        sp_parse(r.1@) is Some,
{
    let fname = snapshot_filename(name, date);
    if use_template {
        let (content, write_back) = crate::template::resolve_template(personal, shared);
        proof {
            crate::template::lemma_resolve_parses(opt_view(personal), opt_view(shared));
        }
        (fname, content, write_back)
    } else {
        let content = crate::template::get_minimal_template();
        proof {
            crate::template::lemma_minimal_wf();
        }
        (fname, content, None)
    }
}

/// The first snapshot of a new server, dated by the wall clock.
pub fn create_server_now(
    name: &Vec<u8>,
    use_template: bool,
    personal: Option<&Vec<u8>>,
    shared: Option<&Vec<u8>>,
) -> (r: (Vec<u8>, Vec<u8>, Option<Vec<u8>>))
    ensures
        (exists|d: Seq<u8>| r.0@ == spec_snapshot_filename(name@, d)),
        use_template ==> ({
            let (c, w) = spec_resolve(opt_view(personal), opt_view(shared));
            r.1@ == c && (match (r.2, w) {
                (Some(a), Some(b)) => a@ == b,
                (None, None) => true,
                _ => false,
            })
        }),
        !use_template ==> r.1@ == spec_minimal_template() && r.2 is None,
        sp_parse(r.1@) is Some,
{
    let date = crate::clock::today_yyyymmdd();
    let r = create_server_content(name, &date, use_template, personal, shared);
    proof {
        assert(r.0@ == spec_snapshot_filename(name@, date@));
    }
    r
}

/// The preconditions of a copy: the source server must exist and the
/// target must not, so a copy never merges into existing history.
pub fn copy_precheck(source_exists: bool, target_exists: bool) -> (r: Result<(), ConfigError>)
    ensures
        match r {
            Ok(()) => source_exists && !target_exists,
            Err(e) => (e == ConfigError::SourceMissing && !source_exists) || (e
                == ConfigError::TargetExists && source_exists && target_exists),
        },
{
    if !source_exists {
        Err(ConfigError::SourceMissing)
    } else if target_exists {
        Err(ConfigError::TargetExists)
    } else {
        Ok(())
    }
}

/// What a copy makes of one source file: the filename with every
/// occurrence of the source name replaced by the target name, and, for
/// a snapshot file holding valid JSON, the pretty text of its document
/// with every string value rewritten; any other file's bytes unchanged.
pub open spec fn spec_copy_entry(
    fname: Seq<u8>,
    content: Seq<u8>,
    src: Seq<u8>,
    tgt: Seq<u8>,
) -> (Seq<u8>, Seq<u8>) {
    (
        sp_replace(fname, src, tgt),
        if is_snapshot_name(fname) && sp_parse(content) is Some {
            sp_pretty(sp_rewrite(sp_parse(content).unwrap(), src, tgt), 0)
        } else {
            content
        },
    )
}

/// A copied snapshot is a structural clone under renaming: the target
/// file parses, and rewriting its document with the names exchanged back
/// yields exactly the source file's document. It holds whenever both
/// names are non-empty and hold no quote or backslash, the new name has
/// no border, and the new name appears nowhere in the source document.
pub proof fn lemma_copy_file_roundtrip(
    fname: Seq<u8>,
    content: Seq<u8>,
    src: Seq<u8>,
    tgt: Seq<u8>,
)
    requires
        is_snapshot_name(fname),
        sp_parse(content) is Some,
        src.len() >= 1,
        tgt.len() >= 1,
        crate::json_laws::name_clean(src),
        crate::json_laws::name_clean(tgt),
        crate::bytes::unbordered(tgt),
        crate::rewrite::target_absent(sp_parse(content).unwrap(), tgt),
    ensures
        ({
            let v = sp_parse(content).unwrap();
            let out = spec_copy_entry(fname, content, src, tgt).1;
            sp_parse(out) == Some(sp_rewrite(v, src, tgt)) && sp_rewrite(
                sp_rewrite(v, src, tgt),
                tgt,
                src,
            ) == v
        }),
{
    let v = sp_parse(content).unwrap();
    crate::json_laws::lemma_parse_wf(content);
    crate::json_laws::lemma_rewrite_wf(v, src, tgt);
    crate::json_laws::lemma_parse_pretty(sp_rewrite(v, src, tgt));
    crate::rewrite::lemma_copy_roundtrip(v, src, tgt);
}

/// A file whose name does not mention the source server keeps its name
/// through a copy.
pub proof fn lemma_copy_keeps_unrelated_name(
    fname: Seq<u8>,
    content: Seq<u8>,
    src: Seq<u8>,
    tgt: Seq<u8>,
)
    requires
        !crate::bytes::has_match(fname, src),
    ensures
        spec_copy_entry(fname, content, src, tgt).0 == fname,
{
    crate::bytes::lemma_replace_absent(fname, src, tgt);
}

/// One file of a copy: the renamed filename and the rewritten content.
pub fn copy_entry(fname: &Vec<u8>, content: &Vec<u8>, src: &Vec<u8>, tgt: &Vec<u8>) -> (r: (
    Vec<u8>,
    Vec<u8>,
))
    ensures
        (r.0@, r.1@) == spec_copy_entry(fname@, content@, src@, tgt@),
{
    let new_name = crate::bytes::replace_bytes(fname, src, tgt);
    let suffix = json_suffix_vec();
    let is_snap = fname.len() >= 6 && crate::bytes::ends_with(fname, &suffix);
    if is_snap {
        match crate::json::parse_json(content) {
            Some(d) => {
                let rewritten = crate::rewrite::rewrite_refs(&d, src, tgt);
                let text = crate::json::pretty_json(&rewritten);
                return (new_name, text);
            },
            None => {},
        }
    }
    (new_name, crate::bytes::copy_bytes(content))
}

/// The bytes of `.json`.
fn json_suffix_vec() -> (r: Vec<u8>)
    ensures
        r@ == json_suffix(),
{
    let mut s: Vec<u8> = Vec::new();
    s.push(46);
    s.push(106);
    s.push(115);
    s.push(111);
    s.push(110);
    proof {
        assert(s@ =~= json_suffix());
    }
    s
}

/// A whole copy, over the source folder's files as pairs of filename
/// and content: checks the preconditions, then renames and rewrites
/// every file; the count of copied files is the length of the result.
#[verifier::loop_isolation(false)]
pub fn copy_server(
    source_exists: bool,
    target_exists: bool,
    files: &Vec<(Vec<u8>, Vec<u8>)>,
    src: &Vec<u8>,
    tgt: &Vec<u8>,
) -> (r: Result<Vec<(Vec<u8>, Vec<u8>)>, ConfigError>)
    ensures
        match r {
            Ok(out) => source_exists && !target_exists && out@.len() == files@.len() && (forall|
                i: int,
            |
                0 <= i < files@.len() ==> ((#[trigger] out@[i]).0@, out@[i].1@)
                    == spec_copy_entry(files@[i].0@, files@[i].1@, src@, tgt@)),
            Err(e) => (e == ConfigError::SourceMissing && !source_exists) || (e
                == ConfigError::TargetExists && source_exists && target_exists),
        },
{
    match copy_precheck(source_exists, target_exists) {
        Ok(()) => {},
        Err(e) => {
            return Err(e);
        },
    }
    let mut out: Vec<(Vec<u8>, Vec<u8>)> = Vec::new();
    let mut i: usize = 0;
    while i < files.len()
        invariant
            i <= files@.len(),
            out@.len() == i,
            forall|k: int|
                0 <= k < i ==> ((#[trigger] out@[k]).0@, out@[k].1@) == spec_copy_entry(
                    files@[k].0@,
                    files@[k].1@,
                    src@,
                    tgt@,
                ),
        decreases files@.len() - i,
    {
        let e = copy_entry(&files[i].0, &files[i].1, src, tgt);
        out.push(e);
        i = i + 1;
    }
    Ok(out)
}

/// `<name>.deleted.<stamp>`: where a soft delete moves a server folder.
pub open spec fn spec_deleted_folder_name(name: Seq<u8>, stamp: Seq<u8>) -> Seq<u8> {
    name + seq![46u8, 100u8, 101u8, 108u8, 101u8, 116u8, 101u8, 100u8, 46u8] + stamp
}

/// `<name>.deleted.<stamp>`.
pub fn deleted_folder_name(name: &Vec<u8>, stamp: &Vec<u8>) -> (r: Vec<u8>)
    ensures
        r@ == spec_deleted_folder_name(name@, stamp@),
{
    let mut out = crate::bytes::copy_bytes(name);
    out.push(46);
    out.push(100);
    out.push(101);
    out.push(108);
    out.push(101);
    out.push(116);
    out.push(101);
    out.push(100);
    out.push(46);
    crate::bytes::push_all(&mut out, stamp);
    proof {
        assert(out@ =~= spec_deleted_folder_name(name@, stamp@));
    }
    out
}

/// `<name>.deleted.<date>_<time>`, stamped by the wall clock.
pub fn deleted_folder_name_now(name: &Vec<u8>) -> (r: Vec<u8>)
    ensures
        exists|st: Seq<u8>| r@ == spec_deleted_folder_name(name@, st),
{
    let date = crate::clock::today_yyyymmdd();
    let mut stamp = date;
    stamp.push(95);
    let time = crate::clock::now_hhmmss();
    crate::bytes::push_all(&mut stamp, &time);
    let r = deleted_folder_name(name, &stamp);
    proof {
        assert(r@ == spec_deleted_folder_name(name@, stamp@));
    }
    r
}

/// A new log entry on top of the existing log text, separated by a
/// line break.
pub fn prepend_log_entry(entry: &Vec<u8>, existing: &Vec<u8>) -> (r: Vec<u8>)
    ensures
        r@ == entry@ + seq![10u8] + existing@,
{
    let mut out = crate::bytes::copy_bytes(entry);
    out.push(10);
    crate::bytes::push_all(&mut out, existing);
    proof {
        assert(out@ =~= entry@ + seq![10u8] + existing@);
    }
    out
}

/// The names of the directory entries of the root, as viewed sequences.
pub open spec fn entry_names(s: Seq<(Vec<u8>, bool)>) -> Seq<Seq<u8>> {
    s.map_values(|e: (Vec<u8>, bool)| e.0@)
}

/// Whether a root directory entry names a server: a directory whose
/// name does not end in `.json`.
pub open spec fn is_server_entry(e: (Seq<u8>, bool)) -> bool {
    e.1 && !sp_ends_with(e.0, json_suffix())
}

/// The viewed entries of the root listing.
pub open spec fn entry_views(s: Seq<(Vec<u8>, bool)>) -> Seq<(Seq<u8>, bool)> {
    s.map_values(|e: (Vec<u8>, bool)| (e.0@, e.1))
}

/// The name of a viewed entry, as a value.
pub open spec fn name_of_entry() -> spec_fn((Seq<u8>, bool)) -> Seq<u8> {
    |e: (Seq<u8>, bool)| e.0
}

/// The server-entry test as a value.
pub open spec fn server_entry_pred() -> spec_fn((Seq<u8>, bool)) -> bool {
    |e: (Seq<u8>, bool)| is_server_entry(e)
}

/// Whether a sequence of names is in ascending name order.
pub open spec fn names_sorted(s: Seq<Seq<u8>>) -> bool {
    forall|i: int, j: int| 0 <= i < j < s.len() ==> lex_le(#[trigger] s[i], #[trigger] s[j])
}

/// Two name-sorted arrangements of the same names agree: the name order
/// admits one sorted arrangement only, so repeated listings of an
/// unchanged root come back identical.
pub proof fn lemma_names_sorted_unique(s1: Seq<Seq<u8>>, s2: Seq<Seq<u8>>)
    requires
        names_sorted(s1),
        names_sorted(s2),
        s1.to_multiset() == s2.to_multiset(),
    ensures
        s1 == s2,
    decreases s1.len(),
{
    broadcast use vstd::seq_lib::group_to_multiset_ensures;

    assert(s1.to_multiset().len() == s1.len());
    assert(s2.to_multiset().len() == s2.len());
    if s1.len() == 0 {
        assert(s1 =~= s2);
    } else {
        assert(s2.len() == s1.len());
        assert(s1.to_multiset().contains(s1[0]));
        assert(s2.to_multiset().contains(s1[0]));
        let j = choose|j: int| 0 <= j < s2.len() && s2[j] == s1[0];
        assert(s1.to_multiset().contains(s2[0]));
        let k = choose|k: int| 0 <= k < s1.len() && s1[k] == s2[0];
        if j > 0 {
            assert(lex_le(s2[0], s2[j]));
        }
        if k > 0 {
            assert(lex_le(s1[0], s1[k]));
        }
        lemma_lex_total(s1[0], s2[0]);
        if j == 0 || k == 0 {
            assert(s1[0] == s2[0]);
        } else {
            crate::bytes::lemma_lex_antisym(s1[0], s2[0]);
        }
        assert(s1[0] == s2[0]);
        let t1 = s1.drop_first();
        let t2 = s2.drop_first();
        assert(t1 =~= s1.remove(0));
        assert(t2 =~= s2.remove(0));
        assert(t1.to_multiset() =~= t2.to_multiset());
        assert forall|i: int, jj: int| 0 <= i < jj < t1.len() implies lex_le(
            #[trigger] t1[i],
            #[trigger] t1[jj],
        ) by {
            assert(t1[i] == s1[i + 1]);
            assert(t1[jj] == s1[jj + 1]);
        }
        assert forall|i: int, jj: int| 0 <= i < jj < t2.len() implies lex_le(
            #[trigger] t2[i],
            #[trigger] t2[jj],
        ) by {
            assert(t2[i] == s2[i + 1]);
            assert(t2[jj] == s2[jj + 1]);
        }
        lemma_names_sorted_unique(t1, t2);
        assert(s1 =~= seq![s1[0]] + t1);
        assert(s2 =~= seq![s2[0]] + t2);
    }
}

/// The servers under the root: each directory entry that is a folder
/// not named like a JSON file, name-sorted ascending.
pub fn list_servers(entries: &Vec<(Vec<u8>, bool)>) -> (r: Vec<Vec<u8>>)
    ensures
        views(r@).to_multiset() == entry_views(entries@).filter(server_entry_pred()).map_values(
            name_of_entry(),
        ).to_multiset(),
        names_sorted(views(r@)),
{
    let suffix = json_suffix_vec();
    let mut kept: Vec<Vec<u8>> = Vec::new();
    let mut i: usize = 0;
    proof {
        reveal(Seq::filter);
        assert(entry_views(entries@).take(0) =~= Seq::<(Seq<u8>, bool)>::empty());
        assert(views(kept@) =~= Seq::<(Seq<u8>, bool)>::empty().filter(
            server_entry_pred(),
        ).map_values(name_of_entry()));
    }
    while i < entries.len()
        invariant
            i <= entries@.len(),
            suffix@ == json_suffix(),
            views(kept@) == entry_views(entries@).take(i as int).filter(
                server_entry_pred(),
            ).map_values(name_of_entry()),
        decreases entries@.len() - i,
    {
        let ghost pre = views(kept@);
        let ghost taken = entry_views(entries@).take(i as int);
        let ghost taken1 = entry_views(entries@).take(i + 1);
        proof {
            reveal(Seq::filter);
            assert(taken1.drop_last() =~= taken);
            assert(taken1.last() == (entries@[i as int].0@, entries@[i as int].1));
        }
        let is_dir = entries[i].1;
        if is_dir && !crate::bytes::ends_with(&entries[i].0, &suffix) {
            let c = crate::bytes::copy_bytes(&entries[i].0);
            kept.push(c);
            proof {
                assert(server_entry_pred()(taken1.last()));
                assert(taken1.filter(server_entry_pred()) == taken.filter(
                    server_entry_pred(),
                ).push(taken1.last()));
                assert(views(kept@) =~= pre.push(c@));
                assert(views(kept@) =~= taken1.filter(server_entry_pred()).map_values(
                    name_of_entry(),
                ));
            }
        } else {
            proof {
                assert(!server_entry_pred()(taken1.last()));
                assert(taken1.filter(server_entry_pred()) == taken.filter(server_entry_pred()));
            }
        }
        i = i + 1;
    }
    proof {
        assert(entry_views(entries@).take(entries@.len() as int) =~= entry_views(entries@));
    }
    sort_names(kept)
}

/// Sorts names ascending in lexicographic order.
#[verifier::loop_isolation(false)]
pub fn sort_names(v: Vec<Vec<u8>>) -> (r: Vec<Vec<u8>>)
    ensures
        views(r@).to_multiset() == views(v@).to_multiset(),
        names_sorted(views(r@)),
{
    broadcast use vstd::seq_lib::group_to_multiset_ensures;

    let mut rem = v;
    let mut out: Vec<Vec<u8>> = Vec::new();
    proof {
        assert(views(out@) =~= Seq::<Seq<u8>>::empty());
        assert(views(out@).to_multiset().add(views(rem@).to_multiset()) =~= views(
            v@,
        ).to_multiset());
    }
    while rem.len() > 0
        invariant
            views(out@).to_multiset().add(views(rem@).to_multiset()) == views(v@).to_multiset(),
            names_sorted(views(out@)),
            forall|i: int, j: int|
                0 <= i < views(out@).len() && 0 <= j < views(rem@).len() ==> lex_le(
                    #[trigger] views(out@)[i],
                    #[trigger] views(rem@)[j],
                ),
        decreases rem@.len(),
    {
        let m = index_of_least(&rem);
        let ghost old_rem = views(rem@);
        let ghost old_out = views(out@);
        let x = rem.remove(m);
        out.push(x);
        proof {
            assert(views(rem@) =~= old_rem.remove(m as int));
            assert(views(out@) =~= old_out.push(x@));
            assert(old_rem.remove(m as int).to_multiset() =~= old_rem.to_multiset().remove(
                old_rem[m as int],
            ));
            assert(old_out.push(x@).to_multiset() =~= old_out.to_multiset().insert(x@));
            assert(views(out@).to_multiset().add(views(rem@).to_multiset()) =~= views(
                v@,
            ).to_multiset());
            assert forall|i: int, j: int|
                0 <= i < views(out@).len() && 0 <= j < views(rem@).len() implies lex_le(
                #[trigger] views(out@)[i],
                #[trigger] views(rem@)[j],
            ) by {
                let jj = if j < m {
                    j
                } else {
                    j + 1
                };
                assert(views(rem@)[j] == old_rem[jj]);
                if i < old_out.len() {
                    assert(views(out@)[i] == old_out[i]);
                } else {
                    assert(views(out@)[i] == x@);
                }
            }
            assert forall|i: int, j: int|
                0 <= i < j < views(out@).len() implies lex_le(
                #[trigger] views(out@)[i],
                #[trigger] views(out@)[j],
            ) by {
                if j < old_out.len() {
                    assert(views(out@)[i] == old_out[i]);
                    assert(views(out@)[j] == old_out[j]);
                } else {
                    assert(views(out@)[j] == x@);
                    assert(views(out@)[i] == old_out[i]);
                    assert(lex_le(old_out[i], old_rem[m as int]));
                }
            }
        }
    }
    proof {
        assert(views(rem@).to_multiset().len() == 0);
        assert(views(out@).to_multiset() =~= views(v@).to_multiset());
    }
    out
}

/// The position of the lexicographically least name of a non-empty
/// listing.
#[verifier::loop_isolation(false)]
fn index_of_least(v: &Vec<Vec<u8>>) -> (m: usize)
    requires
        v@.len() > 0,
    ensures
        m < v@.len(),
        forall|j: int| 0 <= j < v@.len() ==> lex_le(v@[m as int]@, #[trigger] v@[j]@),
{
    let mut m: usize = 0;
    let mut j: usize = 1;
    proof {
        lemma_lex_total(v@[0]@, v@[0]@);
    }
    while j < v.len()
        invariant
            m < j <= v@.len(),
            forall|k: int| 0 <= k < j ==> lex_le(v@[m as int]@, #[trigger] v@[k]@),
        decreases v@.len() - j,
    {
        if !crate::snapshot::lex_le_exec(&v[m], &v[j]) {
            proof {
                lemma_lex_total(v@[m as int]@, v@[j as int]@);
            }
            let ghost old_m = m as int;
            m = j;
            proof {
                assert forall|k: int| 0 <= k < j + 1 implies lex_le(
                    v@[m as int]@,
                    #[trigger] v@[k]@,
                ) by {
                    if k < j {
                        lemma_lex_trans(v@[m as int]@, v@[old_m]@, v@[k]@);
                    } else {
                        lemma_lex_total(v@[m as int]@, v@[m as int]@);
                    }
                }
            }
        }
        j = j + 1;
    }
    m
}

} // verus!
