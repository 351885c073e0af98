//! Literal token substitution over byte buffers.
//!
//! A replacement table is an ordered sequence of `(token, value)` pairs.
//! Substitution is a single left-to-right fold: each pair is applied to the
//! cumulative result of the earlier pairs, and within one pair every
//! occurrence of the token is replaced left to right, non-overlapping.

use vstd::prelude::*;

use crate::bytes::copy_bytes;

verus! {

/// Every occurrence of `pat` in `s` replaced by `val`, scanning left to
/// right without overlap. An empty `pat` leaves `s` unchanged.
pub open spec fn replace_all(s: Seq<u8>, pat: Seq<u8>, val: Seq<u8>) -> Seq<u8>
    decreases s.len(),
{
    if pat.len() == 0 || s.len() < pat.len() {
        s
    } else if s.take(pat.len() as int) == pat {
        val + replace_all(s.skip(pat.len() as int), pat, val)
    } else {
        seq![s[0]] + replace_all(s.skip(1), pat, val)
    }
}

/// The left fold of `replace_all` over an ordered replacement table.
pub open spec fn apply_table(s: Seq<u8>, table: Seq<(Seq<u8>, Seq<u8>)>) -> Seq<u8>
    decreases table.len(),
{
    if table.len() == 0 {
        s
    } else {
        apply_table(replace_all(s, table[0].0, table[0].1), table.skip(1))
    }
}

/// The token `pat` occurs in `s` starting at position `i`.
pub open spec fn occurs_at(s: Seq<u8>, pat: Seq<u8>, i: int) -> bool {
    0 <= i && i + pat.len() <= s.len() && s.subrange(i, i + pat.len() as int) == pat
}

/// A token that occurs nowhere in `s` leaves `s` unchanged.
pub proof fn lemma_no_token_no_change(s: Seq<u8>, pat: Seq<u8>, val: Seq<u8>)
    requires
        forall|i: int| !occurs_at(s, pat, i),
        pat.len() > 0,
    ensures
        replace_all(s, pat, val) == s,
    decreases s.len(),
{
    if s.len() < pat.len() {
    } else {
        assert(!occurs_at(s, pat, 0));
        assert(s.take(pat.len() as int) =~= s.subrange(0, pat.len() as int));
        assert forall|i: int| !occurs_at(s.skip(1), pat, i) by {
            assert(!occurs_at(s, pat, i + 1));
            if 0 <= i && i + pat.len() <= s.skip(1).len() {
                assert(s.skip(1).subrange(i, i + pat.len() as int) =~= s.subrange(
                    i + 1,
                    i + 1 + pat.len() as int,
                ));
            }
        }
        lemma_no_token_no_change(s.skip(1), pat, val);
        assert(seq![s[0]] + s.skip(1) =~= s);
    }
}

/// A replacement table none of whose tokens occurs anywhere in `s` leaves
/// `s` unchanged.
pub proof fn lemma_no_tokens_no_change(s: Seq<u8>, table: Seq<(Seq<u8>, Seq<u8>)>)
    requires
        forall|k: int| 0 <= k < table.len() ==> (#[trigger] table[k].0).len() > 0,
        forall|k: int, i: int| 0 <= k < table.len() ==> !occurs_at(s, table[k].0, i),
    ensures
        apply_table(s, table) == s,
    decreases table.len(),
{
    if table.len() == 0 {
    } else {
        lemma_no_token_no_change(s, table[0].0, table[0].1);
        assert forall|k: int| 0 <= k < table.skip(1).len() implies (#[trigger] table.skip(
            1,
        )[k].0).len() > 0 by {
            assert(table.skip(1)[k] == table[k + 1]);
        }
        assert forall|k: int, i: int| 0 <= k < table.skip(1).len() implies !occurs_at(
            s,
            table.skip(1)[k].0,
            i,
        ) by {
            assert(table.skip(1)[k] == table[k + 1]);
            assert(!occurs_at(s, table[k + 1].0, i));
        }
        lemma_no_tokens_no_change(s, table.skip(1));
    }
}

fn matches_at(s: &[u8], i: usize, pat: &[u8]) -> (r: bool)
    requires
        i + pat@.len() <= s@.len(),
    ensures
        r == (s@.subrange(i as int, i as int + pat@.len() as int) == pat@),
{
    let n = s.len();
    let plen = pat.len();
    let mut j: usize = 0;
    while j < plen
        invariant
            j <= plen,
            plen == pat@.len(),
            n == s@.len(),
            i + plen <= n,
            forall|k: int| 0 <= k < j ==> s@[i + k] == pat@[k],
        decreases plen - j,
    {
        if s[i + j] != pat[j] {
            proof {
                assert(s@.subrange(i as int, i as int + plen as int)[j as int] != pat@[j as int]);
            }
            return false;
        }
        j = j + 1;
    }
    proof {
        assert(s@.subrange(i as int, i as int + plen as int) =~= pat@);
    }
    true
}

/// Replaces every occurrence of `pat` in `s` by `val`, left to right,
/// non-overlapping; an empty `pat` returns `s` unchanged.
pub fn replace_all_bytes(s: &[u8], pat: &[u8], val: &[u8]) -> (r: Vec<u8>)
    ensures
        r@ == replace_all(s@, pat@, val@),
{
    let n = s.len();
    let plen = pat.len();
    if plen == 0 {
        return copy_bytes(s);
    }
    let mut out: Vec<u8> = Vec::new();
    let mut i: usize = 0;
    proof {
        assert(s@.skip(0) =~= s@);
    }
    while i < n
        invariant
            i <= n,
            n == s@.len(),
            plen == pat@.len(),
            plen > 0,
            replace_all(s@, pat@, val@) == out@ + replace_all(s@.skip(i as int), pat@, val@),
        decreases n - i,
    {
        let ghost rest = s@.skip(i as int);
        if plen <= n - i && matches_at(s, i, pat) {
            proof {
                assert(rest.take(plen as int) =~= s@.subrange(i as int, i as int + plen as int));
                assert(rest.skip(plen as int) =~= s@.skip(i as int + plen as int));
                assert(replace_all(rest, pat@, val@) == val@ + replace_all(
                    s@.skip(i as int + plen as int),
                    pat@,
                    val@,
                ));
            }
            let ghost out0 = out@;
            let mut j: usize = 0;
            let vlen = val.len();
            while j < vlen
                invariant
                    j <= vlen,
                    vlen == val@.len(),
                    out@ == out0 + val@.take(j as int),
                decreases vlen - j,
            {
                out.push(val[j]);
                proof {
                    assert(out0 + val@.take(j + 1) =~= (out0 + val@.take(j as int)).push(
                        val@[j as int],
                    ));
                }
                j = j + 1;
            }
            proof {
                assert(val@.take(vlen as int) =~= val@);
                assert(out@ + replace_all(s@.skip(i as int + plen as int), pat@, val@) =~= (out0
                    + val@) + replace_all(s@.skip(i as int + plen as int), pat@, val@));
            }
            i = i + plen;
        } else {
            proof {
                if plen <= n - i {
                    assert(rest.take(plen as int) =~= s@.subrange(
                        i as int,
                        i as int + plen as int,
                    ));
                    assert(rest.skip(1) =~= s@.skip(i + 1));
                    assert(replace_all(rest, pat@, val@) == seq![s@[i as int]] + replace_all(
                        s@.skip(i + 1),
                        pat@,
                        val@,
                    ));
                } else {
                    assert(replace_all(rest, pat@, val@) == rest);
                    assert(s@.skip(i + 1).len() < plen);
                    assert(replace_all(s@.skip(i + 1), pat@, val@) == s@.skip(i + 1));
                    assert(rest =~= seq![s@[i as int]] + s@.skip(i + 1));
                }
            }
            let ghost out0 = out@;
            let b = s[i];
            out.push(b);
            proof {
                assert(out@ + replace_all(s@.skip(i + 1), pat@, val@) =~= out0 + (seq![
                    s@[i as int],
                ] + replace_all(s@.skip(i + 1), pat@, val@)));
            }
            i = i + 1;
        }
    }
    proof {
        assert(s@.skip(n as int) =~= Seq::<u8>::empty());
        assert(out@ + Seq::<u8>::empty() =~= out@);
    }
    out
}

/// Applies the whole replacement table to `s` as a left fold: each pair is
/// applied to the result of the earlier pairs.
pub fn apply_replacements(s: &[u8], table: &Vec<(Vec<u8>, Vec<u8>)>) -> (r: Vec<u8>)
    ensures
        r@ == apply_table(s@, table.deep_view()),
{
    let ghost tv = table.deep_view();
    let mut cur = copy_bytes(s);
    let n = table.len();
    let mut k: usize = 0;
    proof {
        assert(tv.skip(0) =~= tv);
    }
    while k < n
        invariant
            k <= n,
            n == table@.len(),
            tv == table.deep_view(),
            tv.len() == n,
            apply_table(s@, tv) == apply_table(cur@, tv.skip(k as int)),
        decreases n - k,
    {
        let pair = &table[k];
        proof {
            assert(tv.skip(k as int)[0] == tv[k as int]);
            assert(tv[k as int] == (table@[k as int].0@, table@[k as int].1@));
            assert(tv.skip(k as int).skip(1) =~= tv.skip(k + 1));
        }
        let next = replace_all_bytes(cur.as_slice(), pair.0.as_slice(), pair.1.as_slice());
        proof {
            assert(apply_table(cur@, tv.skip(k as int)) == apply_table(next@, tv.skip(k + 1)));
        }
        cur = next;
        k = k + 1;
    }
    proof {
        assert(tv.skip(n as int) =~= Seq::<(Seq<u8>, Seq<u8>)>::empty());
    }
    cur
}

} // verus!
