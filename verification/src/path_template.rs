//! Rewriting of slash-delimited relative paths.
//!
//! A path is split on `/`. A segment that is exactly the reserved package
//! placeholder expands into one directory component per dot-separated piece
//! of the package value; every other segment undergoes ordinary literal
//! token substitution and stays a single component. A segment that merely
//! contains the placeholder alongside other characters is deliberately not
//! expanded — only an exact whole-segment match triggers the directory
//! chain. This asymmetry is intentional and must be preserved.

use vstd::prelude::*;

use crate::bytes::{bytes_eq, copy_bytes, copy_range};
use crate::substitute::{apply_replacements, apply_table};

verus! {

/// The path separator byte, `/`.
pub const SLASH: u8 = 47;

/// The package component separator byte, `.`.
pub const DOT: u8 = 46;

/// The reserved package placeholder, the byte string `${PACKAGE}`.
pub open spec fn package_token() -> Seq<u8> {
    seq![36u8, 123u8, 80u8, 65u8, 67u8, 75u8, 65u8, 71u8, 69u8, 125u8]
}

/// The package placeholder `${PACKAGE}` as a byte vector.
pub fn package_token_bytes() -> (r: Vec<u8>)
    ensures
        r@ == package_token(),
{
    let mut v: Vec<u8> = Vec::new();
    v.push(36);
    v.push(123);
    v.push(80);
    v.push(65);
    v.push(67);
    v.push(75);
    v.push(65);
    v.push(71);
    v.push(69);
    v.push(125);
    proof {
        assert(v@ =~= package_token());
    }
    v
}

/// Index of the first occurrence of `sep` in `s`, or `s.len()` if absent.
pub open spec fn first_sep(s: Seq<u8>, sep: u8) -> nat
    decreases s.len(),
{
    if s.len() == 0 {
        0
    } else if s[0] == sep {
        0
    } else {
        1 + first_sep(s.skip(1), sep)
    }
}

/// `s` split on `sep`: the list of (possibly empty) chunks between
/// separators. A string without `sep` yields itself as the one chunk.
pub open spec fn spec_split(s: Seq<u8>, sep: u8) -> Seq<Seq<u8>>
    decreases s.len(),
{
    let k = first_sep(s, sep);
    if k >= s.len() {
        seq![s]
    } else {
        seq![s.take(k as int)] + spec_split(s.skip(k as int + 1), sep)
    }
}

pub(crate) proof fn lemma_first_sep_is(s: Seq<u8>, sep: u8, k: nat)
    requires
        k <= s.len(),
        forall|j: int| 0 <= j < k ==> s[j] != sep,
        k < s.len() ==> s[k as int] == sep,
    ensures
        first_sep(s, sep) == k,
    decreases s.len(),
{
    if s.len() == 0 {
    } else if s[0] == sep {
        assert(k == 0);
    } else {
        assert(k > 0);
        assert forall|j: int| 0 <= j < k - 1 implies s.skip(1)[j] != sep by {
            assert(s.skip(1)[j] == s[j + 1]);
        }
        if k - 1 < s.skip(1).len() {
            assert(s.skip(1)[k - 1] == s[k as int]);
        }
        lemma_first_sep_is(s.skip(1), sep, (k - 1) as nat);
    }
}

pub(crate) fn find_sep_from(s: &[u8], from: usize, sep: u8) -> (k: usize)
    requires
        from <= s@.len(),
    ensures
        from <= k <= s@.len(),
        forall|j: int| from <= j < k ==> s@[j] != sep,
        k < s@.len() ==> s@[k as int] == sep,
{
    let n = s.len();
    let mut k = from;
    while k < n
        invariant
            from <= k <= n,
            n == s@.len(),
            forall|j: int| from <= j < k ==> s@[j] != sep,
        decreases n - k,
    {
        if s[k] == sep {
            return k;
        }
        k = k + 1;
    }
    k
}

/// Splits `s` on the separator byte, keeping empty chunks, as `spec_split`
/// describes.
pub fn split_bytes(s: &[u8], sep: u8) -> (r: Vec<Vec<u8>>)
    ensures
        r.deep_view() == spec_split(s@, sep),
{
    let n = s.len();
    let mut out: Vec<Vec<u8>> = Vec::new();
    let mut pos: usize = 0;
    let mut done = false;
    proof {
        assert(s@.skip(0) =~= s@);
        assert(out.deep_view() + spec_split(s@, sep) =~= spec_split(s@, sep));
    }
    while !done
        invariant
            n == s@.len(),
            pos <= n,
            !done ==> spec_split(s@, sep) == out.deep_view() + spec_split(s@.skip(pos as int), sep),
            done ==> out.deep_view() == spec_split(s@, sep),
        decreases n - pos + (if done {
            0int
        } else {
            1int
        }),
    {
        let k = find_sep_from(s, pos, sep);
        let ghost rest = s@.skip(pos as int);
        proof {
            assert forall|j: int| 0 <= j < k - pos implies rest[j] != sep by {
                assert(rest[j] == s@[pos + j]);
            }
            if k < n {
                assert(rest[k - pos] == s@[k as int]);
            }
            lemma_first_sep_is(rest, sep, (k - pos) as nat);
        }
        let part = copy_range(s, pos, k);
        let ghost out0 = out.deep_view();
        let ghost vprev = out;
        let ghost partg = part;
        out.push(part);
        proof {
            crate::bytes::lemma_deep_view_push(vprev, out, partg);
            assert(out.deep_view() =~= out0 + seq![s@.subrange(pos as int, k as int)]);
        }
        if k == n {
            proof {
                assert(rest =~= s@.subrange(pos as int, k as int));
                assert(spec_split(rest, sep) == seq![rest]);
                assert(out0 + seq![rest] =~= out0 + spec_split(rest, sep));
            }
            done = true;
        } else {
            proof {
                assert(rest.take(k - pos) =~= s@.subrange(pos as int, k as int));
                assert(rest.skip(k - pos + 1) =~= s@.skip(k + 1));
                assert(spec_split(rest, sep) == seq![rest.take(k - pos)] + spec_split(
                    s@.skip(k + 1),
                    sep,
                ));
                assert(out0 + spec_split(rest, sep) =~= (out0 + seq![rest.take(k - pos)])
                    + spec_split(s@.skip(k + 1), sep));
            }
            pos = k + 1;
        }
    }
    out
}

/// What one path segment becomes: the dot-pieces of the package value for
/// an exact placeholder match, otherwise the literally substituted segment
/// as a single component.
pub open spec fn spec_expand_segment(
    part: Seq<u8>,
    table: Seq<(Seq<u8>, Seq<u8>)>,
    pkg: Seq<u8>,
) -> Seq<Seq<u8>> {
    if part == package_token() {
        spec_split(pkg, DOT)
    } else {
        seq![apply_table(part, table)]
    }
}

/// The concatenation of the expansions of all segments, in order.
pub open spec fn spec_expand_parts(
    parts: Seq<Seq<u8>>,
    table: Seq<(Seq<u8>, Seq<u8>)>,
    pkg: Seq<u8>,
) -> Seq<Seq<u8>>
    decreases parts.len(),
{
    if parts.len() == 0 {
        Seq::empty()
    } else {
        spec_expand_segment(parts[0], table, pkg) + spec_expand_parts(parts.skip(1), table, pkg)
    }
}

/// The full path rewrite: split on `/`, expand each segment, concatenate.
pub open spec fn spec_template_path(
    path: Seq<u8>,
    table: Seq<(Seq<u8>, Seq<u8>)>,
    pkg: Seq<u8>,
) -> Seq<Seq<u8>> {
    spec_expand_parts(spec_split(path, SLASH), table, pkg)
}

/// Segment expansion distributes over concatenation of segment lists.
pub proof fn lemma_expand_parts_concat(
    a: Seq<Seq<u8>>,
    b: Seq<Seq<u8>>,
    table: Seq<(Seq<u8>, Seq<u8>)>,
    pkg: Seq<u8>,
)
    ensures
        spec_expand_parts(a + b, table, pkg) == spec_expand_parts(a, table, pkg)
            + spec_expand_parts(b, table, pkg),
    decreases a.len(),
{
    if a.len() == 0 {
        assert(a + b =~= b);
        assert(spec_expand_parts(a, table, pkg) + spec_expand_parts(b, table, pkg)
            =~= spec_expand_parts(b, table, pkg));
    } else {
        assert((a + b)[0] == a[0]);
        assert((a + b).skip(1) =~= a.skip(1) + b);
        lemma_expand_parts_concat(a.skip(1), b, table, pkg);
        assert(spec_expand_segment(a[0], table, pkg) + (spec_expand_parts(a.skip(1), table, pkg)
            + spec_expand_parts(b, table, pkg)) =~= (spec_expand_segment(a[0], table, pkg)
            + spec_expand_parts(a.skip(1), table, pkg)) + spec_expand_parts(b, table, pkg));
    }
}

/// A single segment expands exactly to its own expansion.
pub proof fn lemma_expand_single(part: Seq<u8>, table: Seq<(Seq<u8>, Seq<u8>)>, pkg: Seq<u8>)
    ensures
        spec_expand_parts(seq![part], table, pkg) == spec_expand_segment(part, table, pkg),
{
    assert(seq![part].skip(1) =~= Seq::<Seq<u8>>::empty());
    assert(spec_expand_parts(Seq::<Seq<u8>>::empty(), table, pkg) == Seq::<Seq<u8>>::empty());
    assert(spec_expand_segment(part, table, pkg) + Seq::<Seq<u8>>::empty()
        =~= spec_expand_segment(part, table, pkg));
}

/// A path segment that is exactly the package placeholder expands into one
/// path component per dot-separated piece of the package value, in order,
/// with the surrounding segments expanded around it.
pub proof fn lemma_package_segment_expands(
    before: Seq<Seq<u8>>,
    after: Seq<Seq<u8>>,
    table: Seq<(Seq<u8>, Seq<u8>)>,
    pkg: Seq<u8>,
)
    ensures
        spec_expand_parts(before + seq![package_token()] + after, table, pkg)
            == spec_expand_parts(before, table, pkg) + spec_split(pkg, DOT) + spec_expand_parts(
            after,
            table,
            pkg,
        ),
{
    lemma_expand_parts_concat(before + seq![package_token()], after, table, pkg);
    lemma_expand_parts_concat(before, seq![package_token()], table, pkg);
    lemma_expand_single(package_token(), table, pkg);
}

/// A path one of whose slash-separated segments is exactly the package
/// placeholder is rewritten with that segment expanded into the dot-pieces
/// of the package value, in order, between the expansions of the
/// surrounding segments.
pub proof fn lemma_package_path_expands(
    path: Seq<u8>,
    i: int,
    table: Seq<(Seq<u8>, Seq<u8>)>,
    pkg: Seq<u8>,
)
    requires
        0 <= i < spec_split(path, SLASH).len(),
        spec_split(path, SLASH)[i] == package_token(),
    ensures
        spec_template_path(path, table, pkg) == spec_expand_parts(
            spec_split(path, SLASH).take(i),
            table,
            pkg,
        ) + spec_split(pkg, DOT) + spec_expand_parts(spec_split(path, SLASH).skip(i + 1), table, pkg),
{
    let parts = spec_split(path, SLASH);
    assert(parts =~= parts.take(i) + seq![parts[i]] + parts.skip(i + 1));
    lemma_package_segment_expands(parts.take(i), parts.skip(i + 1), table, pkg);
}

/// A segment that merely contains the placeholder alongside other
/// characters — or no placeholder at all — undergoes literal substitution
/// only and stays one single component: dots in the substituted value are
/// never turned into separators.
pub proof fn lemma_partial_token_stays_single(
    part: Seq<u8>,
    table: Seq<(Seq<u8>, Seq<u8>)>,
    pkg: Seq<u8>,
)
    requires
        part != package_token(),
    ensures
        spec_expand_segment(part, table, pkg) == seq![apply_table(part, table)],
        spec_expand_segment(part, table, pkg).len() == 1,
{
}

/// Rewrites a slash-delimited relative path into its destination path
/// components: an exact package-placeholder segment becomes the dot-pieces
/// of `package_val`, every other segment is substituted literally.
pub fn replace_package_in_path(
    path_str: &[u8],
    replacements: &Vec<(Vec<u8>, Vec<u8>)>,
    package_val: &[u8],
) -> (r: Vec<Vec<u8>>)
    ensures
        r.deep_view() == spec_template_path(path_str@, replacements.deep_view(), package_val@),
{
    let ghost tv = replacements.deep_view();
    let ghost pkg = package_val@;
    let parts = split_bytes(path_str, SLASH);
    let ghost parts_v = parts.deep_view();
    let token = package_token_bytes();
    let mut out: Vec<Vec<u8>> = Vec::new();
    let np = parts.len();
    let mut p: usize = 0;
    proof {
        assert(parts_v.take(0) =~= Seq::<Seq<u8>>::empty());
        assert(out.deep_view() =~= spec_expand_parts(parts_v.take(0), tv, pkg));
    }
    while p < np
        invariant
            np == parts@.len(),
            parts_v == parts.deep_view(),
            tv == replacements.deep_view(),
            pkg == package_val@,
            token@ == package_token(),
            p <= np,
            out.deep_view() == spec_expand_parts(parts_v.take(p as int), tv, pkg),
        decreases np - p,
    {
        let ghost cur = parts_v[p as int];
        proof {
            assert(parts_v.take(p + 1) =~= parts_v.take(p as int) + seq![cur]);
            lemma_expand_parts_concat(parts_v.take(p as int), seq![cur], tv, pkg);
            lemma_expand_single(cur, tv, pkg);
        }
        let part = &parts[p];
        proof {
            assert(part.deep_view() == parts_v[p as int]);
            assert(part.deep_view() =~= part@);
        }
        let ghost out0 = out.deep_view();
        if bytes_eq(part.as_slice(), token.as_slice()) {
            let segs = split_bytes(package_val, DOT);
            let ghost segs_v = segs.deep_view();
            proof {
                assert(spec_expand_segment(cur, tv, pkg) =~= segs_v);
            }
            let ns = segs.len();
            let mut q: usize = 0;
            proof {
                assert(out.deep_view() =~= out0 + segs_v.take(0));
            }
            while q < ns
                invariant
                    ns == segs@.len(),
                    segs_v == segs.deep_view(),
                    q <= ns,
                    out.deep_view() == out0 + segs_v.take(q as int),
                decreases ns - q,
            {
                let seg = copy_bytes(segs[q].as_slice());
                let ghost segg = seg;
                let ghost vprev = out;
                proof {
                    crate::bytes::lemma_u8_deep_view(segs@[q as int]);
                    assert(segs_v[q as int] == segs@[q as int].deep_view());
                    assert(seg@ == segs_v[q as int]);
                    assert(segs_v.take(q + 1) =~= segs_v.take(q as int).push(segs_v[q as int]));
                }
                out.push(seg);
                proof {
                    crate::bytes::lemma_deep_view_push(vprev, out, segg);
                    assert(out.deep_view() =~= out0 + segs_v.take(q + 1));
                }
                q = q + 1;
            }
            proof {
                assert(segs_v.take(ns as int) =~= segs_v);
            }
        } else {
            let rep = apply_replacements(part.as_slice(), replacements);
            let ghost repg = rep;
            let ghost vprev = out;
            out.push(rep);
            proof {
                crate::bytes::lemma_deep_view_push(vprev, out, repg);
                assert(out.deep_view() =~= out0 + seq![apply_table(cur, tv)]);
            }
        }
        p = p + 1;
    }
    proof {
        assert(parts_v.take(np as int) =~= parts_v);
    }
    out
}

} // verus!
