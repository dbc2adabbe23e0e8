//! Byte-string utilities shared by the whole engine: lexicographic order,
//! substring matching, and left-to-right substring replacement.

use vstd::prelude::*;

verus! {

/// Lexicographic order on byte strings: `a` is no greater than `b`.
pub open spec fn lex_le(a: Seq<u8>, b: Seq<u8>) -> bool
    decreases a.len(),
{
    if a.len() == 0 {
        true
    } else if b.len() == 0 {
        false
    } else if a[0] < b[0] {
        true
    } else if a[0] > b[0] {
        false
    } else {
        lex_le(a.drop_first(), b.drop_first())
    }
}

/// Any two byte strings are ordered one way or the other.
pub proof fn lemma_lex_total(a: Seq<u8>, b: Seq<u8>)
    ensures
        lex_le(a, b) || lex_le(b, a),
    decreases a.len(),
{
    if a.len() != 0 && b.len() != 0 && a[0] == b[0] {
        lemma_lex_total(a.drop_first(), b.drop_first());
    }
}

/// Byte strings ordered both ways are equal.
pub proof fn lemma_lex_antisym(a: Seq<u8>, b: Seq<u8>)
    requires
        lex_le(a, b),
        lex_le(b, a),
    ensures
        a == b,
    decreases a.len(),
{
    if a.len() == 0 {
        assert(b.len() == 0);
        assert(a =~= b);
    } else {
        lemma_lex_antisym(a.drop_first(), b.drop_first());
        assert(a.len() == b.len());
        assert forall|i: int| 0 <= i < a.len() implies a[i] == b[i] by {
            if i > 0 {
                assert(a[i] == a.drop_first()[i - 1]);
                assert(b[i] == b.drop_first()[i - 1]);
            }
        }
        assert(a =~= b);
    }
}

/// Lexicographic order is transitive.
pub proof fn lemma_lex_trans(a: Seq<u8>, b: Seq<u8>, c: Seq<u8>)
    requires
        lex_le(a, b),
        lex_le(b, c),
    ensures
        lex_le(a, c),
    decreases a.len(),
{
    if a.len() != 0 && b.len() != 0 && c.len() != 0 && a[0] == b[0] && b[0] == c[0] {
        lemma_lex_trans(a.drop_first(), b.drop_first(), c.drop_first());
    }
}

/// Whether `pat` occurs in `s` starting at position `i`.
pub open spec fn match_at(s: Seq<u8>, i: int, pat: Seq<u8>) -> bool {
    0 <= i && i + pat.len() <= s.len() && s.subrange(i, i + pat.len() as int) == pat
}

/// Whether `pat` occurs anywhere in `s`.
pub open spec fn has_match(s: Seq<u8>, pat: Seq<u8>) -> bool {
    exists|i: int| match_at(s, i, pat)
}

/// Whether `s` ends with the suffix `suf`.
pub open spec fn sp_ends_with(s: Seq<u8>, suf: Seq<u8>) -> bool {
    s.len() >= suf.len() && s.subrange(s.len() - suf.len(), s.len() as int) == suf
}

/// Every occurrence of `pat` in `s` replaced by `rep`, scanning left to
/// right without overlap; an empty `pat` leaves `s` unchanged.
pub open spec fn sp_replace(s: Seq<u8>, pat: Seq<u8>, rep: Seq<u8>) -> Seq<u8>
    decreases s.len(),
{
    if pat.len() == 0 || s.len() == 0 {
        s
    } else if match_at(s, 0, pat) {
        rep + sp_replace(s.skip(pat.len() as int), pat, rep)
    } else {
        seq![s[0]] + sp_replace(s.skip(1), pat, rep)
    }
}

/// Replacing a pattern that never occurs changes nothing.
pub proof fn lemma_replace_absent(s: Seq<u8>, pat: Seq<u8>, rep: Seq<u8>)
    requires
        !has_match(s, pat),
    ensures
        sp_replace(s, pat, rep) == s,
    decreases s.len(),
{
    if pat.len() == 0 || s.len() == 0 {
    } else {
        assert(!match_at(s, 0, pat));
        assert forall|i: int| !match_at(s.skip(1), i, pat) by {
            if match_at(s.skip(1), i, pat) {
                assert(s.subrange(i + 1, i + 1 + pat.len()) =~= s.skip(1).subrange(
                    i,
                    i + pat.len(),
                ));
                assert(match_at(s, i + 1, pat));
            }
        }
        lemma_replace_absent(s.skip(1), pat, rep);
        assert(sp_replace(s, pat, rep) =~= s);
    }
}

/// Whether `b` has no border: no non-empty proper prefix of `b` is also
/// a suffix of `b`, so two occurrences of `b` can never overlap.
pub open spec fn unbordered(b: Seq<u8>) -> bool {
    forall|k: int|
        1 <= k < b.len() ==> b.subrange(0, k) != #[trigger] b.subrange(b.len() - k, b.len() as int)
}

/// An occurrence inside a tail is an occurrence of the whole.
pub proof fn lemma_match_in_skip(s: Seq<u8>, n: int, pat: Seq<u8>, i: int)
    requires
        0 <= n <= s.len(),
        match_at(s.skip(n), i, pat),
    ensures
        match_at(s, n + i, pat),
{
    assert(s.subrange(n + i, n + i + pat.len()) =~= s.skip(n).subrange(i, i + pat.len()));
}

/// A pattern absent from a string is absent from every tail of it.
pub proof fn lemma_absent_in_skip(s: Seq<u8>, n: int, pat: Seq<u8>)
    requires
        0 <= n <= s.len(),
        !has_match(s, pat),
    ensures
        !has_match(s.skip(n), pat),
{
    assert forall|i: int| !match_at(s.skip(n), i, pat) by {
        if match_at(s.skip(n), i, pat) {
            lemma_match_in_skip(s, n, pat, i);
        }
    }
}

/// When a tail of `rep` is a prefix of a replaced text, the same tail is
/// a prefix of the original text: `rep` is unbordered and absent, so no
/// stray copy of it can begin inside the replacement's output.
proof fn lemma_undo_prefix(x: Seq<u8>, pat: Seq<u8>, rep: Seq<u8>, j: int)
    requires
        pat.len() >= 1,
        1 <= j < rep.len(),
        !has_match(x, rep),
        unbordered(rep),
        match_at(sp_replace(x, pat, rep), 0, rep.skip(j)),
    ensures
        match_at(x, 0, rep.skip(j)),
    decreases x.len(),
{
    let f = sp_replace(x, pat, rep);
    let tail = rep.skip(j);
    let ln = tail.len() as int;
    if x.len() == 0 {
        assert(f.len() == 0);
    } else if match_at(x, 0, pat) {
        assert(f == rep + sp_replace(x.skip(pat.len() as int), pat, rep));
        assert(rep.subrange(0, ln) =~= f.subrange(0, ln));
        assert(rep.subrange(0, ln) == rep.subrange(rep.len() - ln, rep.len() as int)) by {
            assert(tail =~= rep.subrange(rep.len() - ln, rep.len() as int));
        }
        assert(false);
    } else {
        assert(f == seq![x[0]] + sp_replace(x.skip(1), pat, rep));
        assert(tail[0] == f[0] && f[0] == x[0]) by {
            assert(f.subrange(0, ln)[0] == tail[0]);
        }
        if j + 1 == rep.len() {
            assert(x.subrange(0, 1) =~= tail);
        } else {
            let f2 = sp_replace(x.skip(1), pat, rep);
            assert(match_at(f2, 0, rep.skip(j + 1))) by {
                assert forall|k: int| 0 <= k < ln - 1 implies #[trigger] f2.subrange(
                    0,
                    ln - 1,
                )[k] == rep.skip(j + 1)[k] by {
                    assert(f.subrange(0, ln)[k + 1] == tail[k + 1]);
                    assert(f[k + 1] == f2[k]);
                    assert(tail[k + 1] == rep.skip(j + 1)[k]);
                }
                assert(f2.subrange(0, ln - 1) =~= rep.skip(j + 1));
            }
            lemma_absent_in_skip(x, 1, rep);
            lemma_undo_prefix(x.skip(1), pat, rep, j + 1);
            assert forall|k: int| 0 <= k < ln implies #[trigger] x.subrange(0, ln)[k]
                == tail[k] by {
                if k > 0 {
                    assert(x.skip(1).subrange(0, ln - 1)[k - 1] == rep.skip(j + 1)[k - 1]);
                    assert(tail[k] == rep.skip(j + 1)[k - 1]);
                }
            }
            assert(x.subrange(0, ln) =~= tail);
        }
    }
}

/// Replacing `pat` by `rep` and then `rep` by `pat` gives the text back,
/// whenever `rep` does not occur in the text and has no border.
pub proof fn lemma_replace_undo(s: Seq<u8>, pat: Seq<u8>, rep: Seq<u8>)
    requires
        pat.len() >= 1,
        rep.len() >= 1,
        !has_match(s, rep),
        unbordered(rep),
    ensures
        sp_replace(sp_replace(s, pat, rep), rep, pat) == s,
    decreases s.len(),
{
    let f = sp_replace(s, pat, rep);
    if s.len() == 0 {
    } else if match_at(s, 0, pat) {
        let srest = s.skip(pat.len() as int);
        assert(f == rep + sp_replace(srest, pat, rep));
        lemma_absent_in_skip(s, pat.len() as int, rep);
        lemma_replace_undo(srest, pat, rep);
        assert(match_at(f, 0, rep)) by {
            assert(f.subrange(0, rep.len() as int) =~= rep);
        }
        assert(f.skip(rep.len() as int) =~= sp_replace(srest, pat, rep));
        assert(sp_replace(f, rep, pat) == pat + sp_replace(sp_replace(srest, pat, rep), rep, pat));
        assert(pat + srest =~= s);
    } else {
        let srest = s.skip(1);
        assert(f == seq![s[0]] + sp_replace(srest, pat, rep));
        lemma_absent_in_skip(s, 1, rep);
        lemma_replace_undo(srest, pat, rep);
        assert(!match_at(f, 0, rep)) by {
            if match_at(f, 0, rep) {
                if rep.len() == 1 {
                    assert(s.subrange(0, 1) =~= rep) by {
                        assert(f.subrange(0, 1)[0] == rep[0]);
                    }
                    assert(match_at(s, 0, rep));
                } else {
                    let f2 = sp_replace(srest, pat, rep);
                    assert(match_at(f2, 0, rep.skip(1))) by {
                        assert forall|k: int| 0 <= k < rep.len() - 1 implies #[trigger] f2.subrange(
                            0,
                            rep.len() - 1,
                        )[k] == rep.skip(1)[k] by {
                            assert(f.subrange(0, rep.len() as int)[k + 1] == rep[k + 1]);
                            assert(f[k + 1] == f2[k]);
                        }
                        assert(f2.subrange(0, rep.len() - 1) =~= rep.skip(1));
                    }
                    lemma_undo_prefix(srest, pat, rep, 1);
                    assert forall|k: int| 0 <= k < rep.len() implies #[trigger] s.subrange(
                        0,
                        rep.len() as int,
                    )[k] == rep[k] by {
                        if k == 0 {
                            assert(f.subrange(0, rep.len() as int)[0] == rep[0]);
                        } else {
                            assert(srest.subrange(0, rep.len() - 1)[k - 1] == rep.skip(1)[k
                                - 1]);
                        }
                    }
                    assert(s.subrange(0, rep.len() as int) =~= rep);
                    assert(match_at(s, 0, rep));
                }
            }
        }
        assert(f.len() > 0);
        assert(sp_replace(f, rep, pat) == seq![f[0]] + sp_replace(f.skip(1), rep, pat));
        assert(f.skip(1) =~= sp_replace(srest, pat, rep));
        assert(seq![f[0]] + srest =~= s);
    }
}

/// Appends all of `src` to `dst`.
pub fn push_all(dst: &mut Vec<u8>, src: &Vec<u8>)
    ensures
        final(dst)@ == old(dst)@ + src@,
{
    let mut k: usize = 0;
    while k < src.len()
        invariant
            k <= src.len(),
            dst@ == old(dst)@ + src@.take(k as int),
        decreases src.len() - k,
    {
        dst.push(src[k]);
        proof {
            assert(dst@ =~= old(dst)@ + src@.take(k + 1));
        }
        k = k + 1;
    }
    proof {
        assert(dst@ =~= old(dst)@ + src@);
    }
}

/// A fresh copy of a byte string.
pub fn copy_bytes(src: &Vec<u8>) -> (r: Vec<u8>)
    ensures
        r@ == src@,
{
    let mut out: Vec<u8> = Vec::new();
    push_all(&mut out, src);
    proof {
        assert(out@ =~= src@);
    }
    out
}

/// A fresh copy of `s[a..b]`.
#[verifier::loop_isolation(false)]
pub fn sub_bytes(s: &Vec<u8>, a: usize, b: usize) -> (r: Vec<u8>)
    requires
        a <= b <= s@.len(),
    ensures
        r@ == s@.subrange(a as int, b as int),
{
    let mut out: Vec<u8> = Vec::new();
    let mut k: usize = a;
    while k < b
        invariant
            a <= k <= b,
            out@ == s@.subrange(a as int, k as int),
        decreases b - k,
    {
        out.push(s[k]);
        proof {
            assert(out@ =~= s@.subrange(a as int, k + 1));
        }
        k = k + 1;
    }
    out
}

/// Whether `pat` occurs in `s` at position `i`.
#[verifier::loop_isolation(false)]
pub fn is_match_at(s: &Vec<u8>, i: usize, pat: &Vec<u8>) -> (r: bool)
    requires
        i <= s@.len(),
    ensures
        r == match_at(s@, i as int, pat@),
{
    if pat.len() > s.len() - i {
        return false;
    }
    let mut j: usize = 0;
    while j < pat.len()
        invariant
            j <= pat@.len(),
            i + pat@.len() <= s@.len(),
            forall|k: int| 0 <= k < j ==> s@[i + k] == pat@[k],
        decreases pat.len() - j,
    {
        if s[i + j] != pat[j] {
            assert(s@.subrange(i as int, i + pat@.len()) != pat@) by {
                assert(s@.subrange(i as int, i + pat@.len())[j as int] != pat@[j as int]);
            }
            return false;
        }
        j = j + 1;
    }
    proof {
        assert(s@.subrange(i as int, i + pat@.len()) =~= pat@);
    }
    true
}

/// Whether two byte strings hold the same bytes.
pub fn bytes_eq(a: &Vec<u8>, b: &Vec<u8>) -> (r: bool)
    ensures
        r == (a@ == b@),
{
    if a.len() != b.len() {
        return false;
    }
    let r = is_match_at(a, 0, b);
    proof {
        assert(a@.subrange(0, b@.len() as int) =~= a@);
    }
    r
}

/// Whether `s` ends with `suf`.
pub fn ends_with(s: &Vec<u8>, suf: &Vec<u8>) -> (r: bool)
    ensures
        r == sp_ends_with(s@, suf@),
{
    if suf.len() > s.len() {
        return false;
    }
    is_match_at(s, s.len() - suf.len(), suf)
}

/// Whether `pat` occurs anywhere in `s`.
pub fn contains_bytes(s: &Vec<u8>, pat: &Vec<u8>) -> (r: bool)
    ensures
        r == has_match(s@, pat@),
{
    if pat.len() > s.len() {
        return false;
    }
    if pat.len() == 0 {
        proof {
            assert(match_at(s@, 0, pat@)) by {
                assert(s@.subrange(0, 0) =~= pat@);
            }
        }
        return true;
    }
    let mut i: usize = 0;
    while i <= s.len() - pat.len()
        invariant
            1 <= pat@.len() <= s@.len(),
            i <= s@.len() - pat@.len() + 1,
            forall|k: int| 0 <= k < i ==> !match_at(s@, k, pat@),
        decreases s.len() - i,
    {
        if is_match_at(s, i, pat) {
            return true;
        }
        i = i + 1;
    }
    proof {
        assert forall|k: int| !match_at(s@, k, pat@) by {
            if match_at(s@, k, pat@) {
                assert(0 <= k <= s@.len() - pat@.len());
            }
        }
    }
    false
}

/// Every occurrence of `pat` in `s` replaced by `rep`, scanning left to
/// right; with an empty `pat` the input comes back unchanged.
pub fn replace_bytes(s: &Vec<u8>, pat: &Vec<u8>, rep: &Vec<u8>) -> (r: Vec<u8>)
    ensures
        r@ == sp_replace(s@, pat@, rep@),
{
    if pat.len() == 0 {
        return copy_bytes(s);
    }
    let mut out: Vec<u8> = Vec::new();
    let mut i: usize = 0;
    proof {
        assert(s@.skip(0) =~= s@);
        assert(out@ + sp_replace(s@, pat@, rep@) =~= sp_replace(s@, pat@, rep@));
    }
    while i < s.len()
        invariant
            i <= s@.len(),
            pat@.len() >= 1,
            sp_replace(s@, pat@, rep@) == out@ + sp_replace(s@.skip(i as int), pat@, rep@),
        decreases s.len() - i,
    {
        let ghost pre = out@;
        if is_match_at(s, i, pat) {
            push_all(&mut out, rep);
            proof {
                let tail = s@.skip(i as int);
                assert(tail.subrange(0, pat@.len() as int) =~= s@.subrange(
                    i as int,
                    i + pat@.len(),
                ));
                assert(match_at(tail, 0, pat@));
                assert(tail.skip(pat@.len() as int) =~= s@.skip(i + pat@.len()));
                assert(sp_replace(tail, pat@, rep@) == rep@ + sp_replace(
                    s@.skip(i + pat@.len()),
                    pat@,
                    rep@,
                ));
                assert(pre + sp_replace(tail, pat@, rep@) =~= (pre + rep@) + sp_replace(
                    s@.skip(i + pat@.len()),
                    pat@,
                    rep@,
                ));
            }
            i = i + pat.len();
        } else {
            out.push(s[i]);
            proof {
                let tail = s@.skip(i as int);
                assert(tail.len() != 0);
                if match_at(tail, 0, pat@) {
                    assert(s@.subrange(i as int, i + pat@.len()) =~= tail.subrange(
                        0,
                        pat@.len() as int,
                    ));
                    assert(match_at(s@, i as int, pat@));
                }
                assert(!match_at(tail, 0, pat@));
                assert(tail.skip(1) =~= s@.skip(i + 1));
                assert(sp_replace(tail, pat@, rep@) == seq![tail[0]] + sp_replace(
                    s@.skip(i + 1),
                    pat@,
                    rep@,
                ));
                assert(pre + sp_replace(tail, pat@, rep@) =~= (pre + seq![s@[i as int]])
                    + sp_replace(s@.skip(i + 1), pat@, rep@));
                assert(out@ =~= pre + seq![s@[i as int]]);
            }
            i = i + 1;
        }
    }
    proof {
        assert(s@.skip(i as int) =~= Seq::<u8>::empty());
        assert(sp_replace(Seq::<u8>::empty(), pat@, rep@) == Seq::<u8>::empty());
        assert(out@ + Seq::<u8>::empty() =~= out@);
    }
    out
}

} // verus!
