//! The segmenter: a trusted view of a buffer as its grapheme clusters, and
//! the spec-level geometry (byte offsets, line numbers, columns) of the
//! cluster boundaries that every cursor operation is specified against.

use unicode_segmentation::UnicodeSegmentation;
use vstd::prelude::*;

verus! {

use vstd::string::StringSliceAdditionalSpecFns;
use vstd::utf8::{encode_utf8, valid_utf8};

/// The extended grapheme clusters of a character sequence, each given as the
/// UTF-8 bytes of one cluster.  Which clusters a text has is decided by the
/// Unicode segmentation rules; the library leaves this function
/// uninterpreted and takes the facts it needs from `split_graphemes`.
pub uninterp spec fn grapheme_split(s: Seq<char>) -> Seq<Seq<u8>>;

/// A cluster is a line break exactly when it is the single byte `\n`.
/// (A `\r\n` pair forms one two-byte cluster and is not a line break here,
/// matching a comparison of the cluster against the string `"\n"`.)
pub open spec fn is_line_break(c: Seq<u8>) -> bool {
    c.len() == 1 && c[0] == 10u8
}

/// The bytes of clusters `i..` laid end to end.
pub open spec fn concat_from(cs: Seq<Seq<u8>>, i: int) -> Seq<u8>
    decreases cs.len() - i,
{
    if i < 0 || i >= cs.len() {
        Seq::empty()
    } else {
        cs[i] + concat_from(cs, i + 1)
    }
}

/// All bytes of the clusters laid end to end: the buffer itself.
pub open spec fn cluster_bytes(cs: Seq<Seq<u8>>) -> Seq<u8> {
    concat_from(cs, 0)
}

/// Byte offset of the boundary before cluster `i`.
pub open spec fn offset_at(cs: Seq<Seq<u8>>, i: int) -> int
    decreases i,
{
    if i <= 0 {
        0
    } else {
        offset_at(cs, i - 1) + cs[i - 1].len()
    }
}

/// Line number at the boundary before cluster `i`: line breaks strictly
/// before that boundary.
pub open spec fn line_at(cs: Seq<Seq<u8>>, i: int) -> int
    decreases i,
{
    if i <= 0 {
        0
    } else {
        line_at(cs, i - 1) + if is_line_break(cs[i - 1]) {
            1int
        } else {
            0int
        }
    }
}

/// Column at the boundary before cluster `i`: bytes since the most recent
/// line break, or since the start of the buffer.
pub open spec fn col_at(cs: Seq<Seq<u8>>, i: int) -> int
    decreases i,
{
    if i <= 0 {
        0
    } else if is_line_break(cs[i - 1]) {
        0
    } else {
        col_at(cs, i - 1) + cs[i - 1].len()
    }
}

/// Every cluster is non-empty and is itself valid UTF-8.
pub open spec fn wf_clusters(cs: Seq<Seq<u8>>) -> bool {
    forall|i: int| 0 <= i < cs.len() ==> (#[trigger] cs[i]).len() > 0 && valid_utf8(cs[i])
}

/// Relies on `unicode_segmentation::UnicodeSegmentation::graphemes(s, true)`,
/// which yields the extended grapheme clusters of `s`: non-empty sub-slices
/// of `s`, in order, whose concatenation is `s` itself.  The last clause is
/// the machine limit: the clusters partition a string that is in memory, so
/// their total byte length is its length, a `usize`.
#[verifier::external_body]
pub(crate) fn split_graphemes(s: &str) -> (r: Vec<Vec<u8>>)
    ensures
        r.deep_view() == grapheme_split(s@),
        cluster_bytes(r.deep_view()) == encode_utf8(s@),
        wf_clusters(r.deep_view()),
        cluster_bytes(r.deep_view()).len() <= usize::MAX,
{
    UnicodeSegmentation::graphemes(s, true).map(|g| g.as_bytes().to_vec()).collect()
}

/// `deep_view` of a vector of byte vectors indexes to the view of the inner
/// vector.
pub proof fn lemma_deep_view_index(v: &Vec<Vec<u8>>, i: int)
    requires
        0 <= i < v@.len(),
    ensures
        v.deep_view().len() == v@.len(),
        v.deep_view()[i] == v@[i]@,
{
    assert(v@[i].deep_view() =~= v@[i]@);
}

/// `deep_view` keeps the length.
pub proof fn lemma_deep_view_len(v: &Vec<Vec<u8>>)
    ensures
        v.deep_view().len() == v@.len(),
{
}

/// Boundary offsets never decrease.
pub proof fn lemma_offset_monotone(cs: Seq<Seq<u8>>, a: int, b: int)
    requires
        0 <= a <= b,
    ensures
        offset_at(cs, a) <= offset_at(cs, b),
    decreases b,
{
    if a < b {
        lemma_offset_monotone(cs, a, b - 1);
    }
}

/// With non-empty clusters, boundary offsets strictly increase, so each
/// boundary offset belongs to exactly one boundary.
pub proof fn lemma_offset_strict(cs: Seq<Seq<u8>>, a: int, b: int)
    requires
        wf_clusters(cs),
        0 <= a < b <= cs.len(),
    ensures
        offset_at(cs, a) < offset_at(cs, b),
    decreases b,
{
    if a < b - 1 {
        lemma_offset_strict(cs, a, b - 1);
    }
}

/// The bytes from boundary `i` on are exactly the total minus the first `i`
/// boundaries' worth.
pub proof fn lemma_concat_from_len(cs: Seq<Seq<u8>>, i: int)
    requires
        0 <= i <= cs.len(),
    ensures
        concat_from(cs, i).len() == offset_at(cs, cs.len() as int) - offset_at(cs, i),
    decreases cs.len() - i,
{
    if i < cs.len() {
        lemma_concat_from_len(cs, i + 1);
    }
}

/// The whole byte sequence is as long as the final boundary offset.
pub proof fn lemma_cluster_bytes_len(cs: Seq<Seq<u8>>)
    ensures
        cluster_bytes(cs).len() == offset_at(cs, cs.len() as int),
{
    lemma_concat_from_len(cs, 0);
}

/// The bytes from boundary `i` on are the suffix of the whole byte sequence
/// that starts at that boundary's offset.
pub proof fn lemma_concat_from_suffix(cs: Seq<Seq<u8>>, i: int)
    requires
        0 <= i <= cs.len(),
    ensures
        concat_from(cs, i) =~= cluster_bytes(cs).subrange(
            offset_at(cs, i),
            cluster_bytes(cs).len() as int,
        ),
    decreases i,
{
    lemma_cluster_bytes_len(cs);
    lemma_concat_from_len(cs, i);
    lemma_offset_monotone(cs, 0, i);
    if i > 0 {
        lemma_concat_from_suffix(cs, i - 1);
        lemma_concat_from_len(cs, i - 1);
        let bytes = cluster_bytes(cs);
        let prev = concat_from(cs, i - 1);
        let cur = concat_from(cs, i);
        let cl = cs[i - 1].len() as int;
        let offp = offset_at(cs, i - 1);
        lemma_offset_monotone(cs, 0, i - 1);
        lemma_offset_monotone(cs, i - 1, cs.len() as int);
        let tail = bytes.subrange(offp, bytes.len() as int);
        assert(prev == cs[i - 1] + cur);
        assert(offset_at(cs, i) == offp + cl);
        assert forall|k: int| 0 <= k < cur.len() implies cur[k] == bytes[offset_at(cs, i) + k] by {
            assert((cs[i - 1] + cur)[cl + k] == cur[k]);
            assert(prev[cl + k] == tail[cl + k]);
            assert(tail[cl + k] == bytes[offp + (cl + k)]);
        }
    }
}

/// Cluster `i` occupies the bytes between its two boundary offsets.
pub proof fn lemma_cluster_at(cs: Seq<Seq<u8>>, i: int)
    requires
        0 <= i < cs.len(),
    ensures
        cs[i] =~= cluster_bytes(cs).subrange(offset_at(cs, i), offset_at(cs, i + 1)),
{
    lemma_concat_from_suffix(cs, i);
    lemma_concat_from_len(cs, i);
    lemma_concat_from_len(cs, i + 1);
    lemma_cluster_bytes_len(cs);
    lemma_offset_monotone(cs, 0, i);
    lemma_offset_monotone(cs, i + 1, cs.len() as int);
}

/// Every cluster boundary is a character boundary of the buffer, so slicing
/// the buffer at a boundary offset never splits a multi-byte character.
pub proof fn lemma_boundary_is_char_boundary(cs: Seq<Seq<u8>>, i: int)
    requires
        wf_clusters(cs),
        valid_utf8(cluster_bytes(cs)),
        0 <= i <= cs.len(),
    ensures
        vstd::utf8::is_char_boundary(cluster_bytes(cs), offset_at(cs, i)),
{
    let bytes = cluster_bytes(cs);
    lemma_cluster_bytes_len(cs);
    lemma_offset_monotone(cs, 0, i);
    lemma_offset_monotone(cs, i, cs.len() as int);
    if i == cs.len() {
        vstd::utf8::is_char_boundary_start_end_of_seq(bytes);
    } else if offset_at(cs, i) == 0 {
        vstd::utf8::is_char_boundary_start_end_of_seq(bytes);
    } else {
        lemma_offset_strict(cs, i, cs.len() as int);
        lemma_cluster_at(cs, i);
        assert(cs[i].len() > 0);
        let off = offset_at(cs, i);
        let off2 = offset_at(cs, i + 1);
        lemma_offset_monotone(cs, i, i + 1);
        lemma_offset_monotone(cs, i + 1, cs.len() as int);
        assert(cs[i].len() == bytes.subrange(off, off2).len());
        assert(cs[i][0] == bytes.subrange(off, off2)[0]);
        assert(bytes.subrange(off, off2)[0] == bytes[off + 0]);
        assert(bytes[off] == cs[i][0]);
        vstd::utf8::is_char_boundary_iff_not_is_continuation_byte(cs[i], 0);
        vstd::utf8::is_char_boundary_iff_not_is_continuation_byte(bytes, offset_at(cs, i));
    }
}

/// Line numbers never decrease along the boundaries.
pub proof fn lemma_line_monotone(cs: Seq<Seq<u8>>, a: int, b: int)
    requires
        0 <= a <= b,
    ensures
        line_at(cs, a) <= line_at(cs, b),
    decreases b,
{
    if a < b {
        lemma_line_monotone(cs, a, b - 1);
    }
}

/// Within a run free of line breaks the column grows with the offset.
pub proof fn lemma_col_within_run(cs: Seq<Seq<u8>>, a: int, b: int)
    requires
        0 <= a <= b,
        forall|k: int| a <= k < b ==> !is_line_break(cs[k]),
    ensures
        col_at(cs, b) == col_at(cs, a) + offset_at(cs, b) - offset_at(cs, a),
    decreases b - a,
{
    if a < b {
        lemma_col_within_run(cs, a, b - 1);
    }
}

/// A column never reaches past the byte offset of its boundary.
pub proof fn lemma_col_le_offset(cs: Seq<Seq<u8>>, i: int)
    ensures
        0 <= col_at(cs, i),
        col_at(cs, i) <= offset_at(cs, i),
    decreases i,
{
    if i > 0 {
        lemma_col_le_offset(cs, i - 1);
    }
}

/// A line number never reaches past the number of clusters before it.
pub proof fn lemma_line_le_index(cs: Seq<Seq<u8>>, i: int)
    ensures
        0 <= line_at(cs, i),
        line_at(cs, i) <= i || i < 0,
    decreases i,
{
    if i > 0 {
        lemma_line_le_index(cs, i - 1);
    }
}

/// A character boundary of the buffer is one of its suffix as well, measured
/// from where the suffix starts.
pub proof fn lemma_suffix_char_boundary(bytes: Seq<u8>, z: int, w: int)
    requires
        valid_utf8(bytes),
        vstd::utf8::is_char_boundary(bytes, z),
        vstd::utf8::is_char_boundary(bytes, z + w),
        0 <= z,
        0 <= w,
        z + w <= bytes.len(),
    ensures
        vstd::utf8::is_char_boundary(bytes.subrange(z, bytes.len() as int), w),
{
    let suffix = bytes.subrange(z, bytes.len() as int);
    vstd::utf8::valid_utf8_split(bytes, z);
    if w == 0 {
        vstd::utf8::is_char_boundary_start_end_of_seq(suffix);
    } else if z + w == bytes.len() {
        vstd::utf8::is_char_boundary_start_end_of_seq(suffix);
    } else {
        assert(suffix[w] == bytes[z + w]);
        vstd::utf8::is_char_boundary_iff_not_is_continuation_byte(bytes, z + w);
        vstd::utf8::is_char_boundary_iff_not_is_continuation_byte(suffix, w);
    }
}

/// The first boundary at or after `a` that carries a line break, or the end
/// of the buffer when no break follows: the end of the content run at `a`.
pub open spec fn run_end(cs: Seq<Seq<u8>>, a: int) -> int
    decreases cs.len() - a,
{
    if a < 0 || a >= cs.len() {
        cs.len() as int
    } else if is_line_break(cs[a]) {
        a
    } else {
        run_end(cs, a + 1)
    }
}

/// `run_end` stays between `a` and the end of the buffer, moves strictly
/// past `a` when `a` holds no break, and skips no break on the way.
pub proof fn lemma_run_end_bounds(cs: Seq<Seq<u8>>, a: int)
    requires
        0 <= a <= cs.len(),
    ensures
        a <= run_end(cs, a) <= cs.len(),
        a < cs.len() && !is_line_break(cs[a]) ==> a < run_end(cs, a),
        forall|k: int| a <= k < run_end(cs, a) ==> !is_line_break(cs[k]),
        run_end(cs, a) < cs.len() ==> is_line_break(cs[run_end(cs, a)]),
    decreases cs.len() - a,
{
    if a < cs.len() && !is_line_break(cs[a]) {
        lemma_run_end_bounds(cs, a + 1);
    }
}

/// The line blocks of the clusters from boundary `a` on: each block is
/// either a single line-break cluster or the bytes of a maximal run of
/// non-break clusters.
pub open spec fn line_blocks_from(cs: Seq<Seq<u8>>, a: int) -> Seq<Seq<u8>>
    decreases cs.len() - a,
    when 0 <= a <= cs.len()
    via line_blocks_from_decreases
{
    if a >= cs.len() {
        Seq::empty()
    } else if is_line_break(cs[a]) {
        seq![cs[a]] + line_blocks_from(cs, a + 1)
    } else {
        seq![cluster_bytes(cs).subrange(offset_at(cs, a), offset_at(cs, run_end(cs, a)))]
            + line_blocks_from(cs, run_end(cs, a))
    }
}

#[via_fn]
proof fn line_blocks_from_decreases(cs: Seq<Seq<u8>>, a: int) {
    if 0 <= a < cs.len() && !is_line_break(cs[a]) {
        lemma_run_end_bounds(cs, a);
    }
}

/// Walk the boundaries from the start and report the one whose byte offset
/// is `z`, if any.
pub(crate) fn locate(cs: &Vec<Vec<u8>>, z: usize) -> (r: Option<usize>)
    requires
        offset_at(cs.deep_view(), cs.deep_view().len() as int) <= usize::MAX,
    ensures
        match r {
            Some(i) => i <= cs.deep_view().len() && z == offset_at(cs.deep_view(), i as int),
            None => forall|i: int|
                0 <= i <= cs.deep_view().len() ==> z != offset_at(cs.deep_view(), i),
        },
{
    let ghost gcs = cs.deep_view();
    proof {
        lemma_deep_view_len(cs);
    }
    let n = cs.len();
    let mut i: usize = 0;
    let mut off: usize = 0;
    while i < n
        invariant
            gcs == cs.deep_view(),
            gcs.len() == cs@.len(),
            n == cs@.len(),
            0 <= i <= n,
            off == offset_at(gcs, i as int),
            offset_at(gcs, gcs.len() as int) <= usize::MAX,
            forall|j: int| 0 <= j < i ==> z != offset_at(gcs, j),
        decreases n - i,
    {
        if off == z {
            return Some(i);
        }
        if off > z {
            proof {
                assert forall|j: int| 0 <= j <= gcs.len() implies z != offset_at(gcs, j) by {
                    if j >= i {
                        lemma_offset_monotone(gcs, i as int, j);
                    }
                }
            }
            return None;
        }
        proof {
            lemma_deep_view_index(cs, i as int);
            lemma_offset_monotone(gcs, i as int + 1, gcs.len() as int);
        }
        off = off + cs[i].len();
        i = i + 1;
    }
    if off == z {
        Some(i)
    } else {
        proof {
            assert forall|j: int| 0 <= j <= gcs.len() implies z != offset_at(gcs, j) by {
                lemma_offset_monotone(gcs, j, gcs.len() as int);
            }
        }
        None
    }
}

/// Rebuild the column of boundary `k` by scanning back to the start of its
/// line.
pub(crate) fn col_of_boundary(cs: &Vec<Vec<u8>>, k: usize) -> (r: usize)
    requires
        k <= cs.deep_view().len(),
        offset_at(cs.deep_view(), cs.deep_view().len() as int) <= usize::MAX,
    ensures
        r as int == col_at(cs.deep_view(), k as int),
{
    let ghost gcs = cs.deep_view();
    proof {
        lemma_deep_view_len(cs);
    }
    let mut j = k;
    let mut w: usize = 0;
    while j > 0
        invariant
            gcs == cs.deep_view(),
            gcs.len() == cs@.len(),
            0 <= j <= k <= cs@.len(),
            offset_at(gcs, gcs.len() as int) <= usize::MAX,
            w as int == offset_at(gcs, k as int) - offset_at(gcs, j as int),
            forall|q: int| j <= q < k ==> !is_line_break(gcs[q]),
        ensures
            0 <= j <= k,
            w as int == offset_at(gcs, k as int) - offset_at(gcs, j as int),
            forall|q: int| j <= q < k ==> !is_line_break(gcs[q]),
            j == 0 || is_line_break(gcs[j as int - 1]),
        decreases j,
    {
        proof {
            lemma_deep_view_index(cs, j as int - 1);
            lemma_offset_monotone(gcs, 0, j as int - 1);
            lemma_offset_monotone(gcs, j as int - 1, k as int);
            lemma_offset_monotone(gcs, k as int, gcs.len() as int);
        }
        let c = &cs[j - 1];
        if c.len() == 1 && c[0] == 10u8 {
            break;
        }
        w = w + c.len();
        j = j - 1;
    }
    proof {
        lemma_col_within_run(gcs, j as int, k as int);
        assert(col_at(gcs, j as int) == 0);
    }
    w
}

/// Rebuild the column, line and byte offset of boundary `j` by one pass over
/// the clusters before it.
pub(crate) fn pos_components(cs: &Vec<Vec<u8>>, j: usize) -> (r: (usize, usize, usize))
    requires
        j <= cs.deep_view().len(),
        offset_at(cs.deep_view(), cs.deep_view().len() as int) <= usize::MAX,
    ensures
        r.0 == col_at(cs.deep_view(), j as int),
        r.1 == line_at(cs.deep_view(), j as int),
        r.2 == offset_at(cs.deep_view(), j as int),
{
    let ghost gcs = cs.deep_view();
    proof {
        lemma_deep_view_len(cs);
    }
    let mut k: usize = 0;
    let mut x: usize = 0;
    let mut y: usize = 0;
    let mut z: usize = 0;
    while k < j
        invariant
            gcs == cs.deep_view(),
            gcs.len() == cs@.len(),
            j <= cs@.len(),
            0 <= k <= j,
            x == col_at(gcs, k as int),
            y == line_at(gcs, k as int),
            z == offset_at(gcs, k as int),
            offset_at(gcs, gcs.len() as int) <= usize::MAX,
        decreases j - k,
    {
        proof {
            lemma_deep_view_index(cs, k as int);
            lemma_offset_monotone(gcs, k as int + 1, gcs.len() as int);
            lemma_col_le_offset(gcs, k as int + 1);
            lemma_line_le_index(gcs, k as int + 1);
        }
        let c = &cs[k];
        let len = c.len();
        z = z + len;
        if len == 1 && c[0] == 10u8 {
            y = y + 1;
            x = 0;
        } else {
            x = x + len;
        }
        k = k + 1;
    }
    (x, y, z)
}

/// Split a buffer into its line blocks, in order: each element is either a
/// single line-break cluster or a maximal run of non-break clusters.  An
/// empty buffer gives no blocks.
pub fn split_line_bounds<'a>(buffer: &'a str) -> (r: Vec<&'a str>)
    ensures
        r@.map_values(|t: &'a str| t.spec_bytes()) == line_blocks_from(grapheme_split(buffer@), 0),
{
    let cs = split_graphemes(buffer);
    let ghost gcs = cs.deep_view();
    let ghost bytes = cluster_bytes(gcs);
    proof {
        lemma_cluster_bytes_len(gcs);
        lemma_deep_view_len(&cs);
        vstd::utf8::encode_utf8_valid_utf8(buffer@);
    }
    let n = cs.len();
    let mut out: Vec<&'a str> = Vec::new();
    let mut a: usize = 0;
    let mut rest: &'a str = buffer;
    proof {
        assert(rest.spec_bytes() =~= bytes.subrange(0, bytes.len() as int));
    }
    while a < n
        invariant
            gcs == cs.deep_view(),
            gcs.len() == cs@.len(),
            n == cs@.len(),
            bytes == cluster_bytes(gcs),
            bytes == encode_utf8(buffer@),
            bytes.len() <= usize::MAX,
            wf_clusters(gcs),
            valid_utf8(bytes),
            0 <= a <= n,
            rest.spec_bytes() == bytes.subrange(offset_at(gcs, a as int), bytes.len() as int),
            line_blocks_from(gcs, 0) == out@.map_values(|t: &'a str| t.spec_bytes())
                + line_blocks_from(gcs, a as int),
        decreases n - a,
    {
        let ghost ga = a as int;
        proof {
            lemma_deep_view_index(&cs, ga);
            lemma_offset_monotone(gcs, 0, ga);
            lemma_offset_monotone(gcs, ga, gcs.len() as int);
        }
        let c = &cs[a];
        let mut e: usize;
        let mut blen: usize;
        if c.len() == 1 && c[0] == 10u8 {
            e = a + 1;
            blen = 1;
            proof {
                lemma_offset_monotone(gcs, ga + 1, gcs.len() as int);
                assert(blen as int == offset_at(gcs, ga + 1) - offset_at(gcs, ga));
            }
        } else {
            let mut k = a;
            blen = 0;
            while k < n
                invariant
                    gcs == cs.deep_view(),
                    gcs.len() == cs@.len(),
                    n == cs@.len(),
                    bytes == cluster_bytes(gcs),
                    bytes.len() <= usize::MAX,
                    ga == a as int,
                    a <= k <= n,
                    run_end(gcs, ga) == run_end(gcs, k as int),
                    blen as int == offset_at(gcs, k as int) - offset_at(gcs, ga),
                ensures
                    ga == a as int,
                    a <= k <= n,
                    run_end(gcs, ga) == run_end(gcs, k as int),
                    blen as int == offset_at(gcs, k as int) - offset_at(gcs, ga),
                    k == n || is_line_break(gcs[k as int]),
                decreases n - k,
            {
                proof {
                    lemma_deep_view_index(&cs, k as int);
                    lemma_cluster_bytes_len(gcs);
                    lemma_offset_monotone(gcs, 0, ga);
                    lemma_offset_monotone(gcs, ga, k as int);
                    lemma_offset_monotone(gcs, k as int + 1, gcs.len() as int);
                }
                let ck = &cs[k];
                if ck.len() == 1 && ck[0] == 10u8 {
                    break;
                }
                blen = blen + ck.len();
                k = k + 1;
            }
            e = k;
            proof {
                assert(run_end(gcs, e as int) == e as int || e as int == gcs.len());
                assert(run_end(gcs, ga) == e as int);
            }
        }
        let ghost ge = e as int;
        proof {
            lemma_offset_monotone(gcs, ga, ge);
            lemma_offset_monotone(gcs, ge, gcs.len() as int);
            lemma_boundary_is_char_boundary(gcs, ga);
            lemma_boundary_is_char_boundary(gcs, ge);
            lemma_suffix_char_boundary(bytes, offset_at(gcs, ga), blen as int);
        }
        let taken = rest.split_at(blen);
        let block = taken.0;
        let rest2 = taken.1;
        proof {
            let za = offset_at(gcs, ga);
            let ze = offset_at(gcs, ge);
            assert(block.spec_bytes() =~= rest.spec_bytes().subrange(0, blen as int));
            assert forall|q: int| 0 <= q < blen as int implies block.spec_bytes()[q] == bytes[za
                + q] by {
                assert(block.spec_bytes()[q] == rest.spec_bytes()[q]);
            }
            assert(block.spec_bytes() =~= bytes.subrange(za, ze));
            assert(rest2.spec_bytes() =~= rest.spec_bytes().subrange(
                blen as int,
                rest.spec_bytes().len() as int,
            ));
            assert forall|q: int| 0 <= q < rest2.spec_bytes().len() implies rest2.spec_bytes()[q]
                == bytes[ze + q] by {
                assert(rest2.spec_bytes()[q] == rest.spec_bytes()[blen + q]);
            }
            assert(rest2.spec_bytes() =~= bytes.subrange(ze, bytes.len() as int));
        }
        let ghost old_out = out@;
        out.push(block);
        proof {
            if is_line_break(gcs[ga]) {
                lemma_cluster_at(gcs, ga);
                assert(block.spec_bytes() == gcs[ga]);
            }
            assert(line_blocks_from(gcs, ga) == seq![block.spec_bytes()] + line_blocks_from(
                gcs,
                ge,
            ));
            assert(out@.map_values(|t: &'a str| t.spec_bytes()) =~= old_out.map_values(
                |t: &'a str| t.spec_bytes(),
            ) + seq![block.spec_bytes()]);
            assert(line_blocks_from(gcs, 0) =~= out@.map_values(|t: &'a str| t.spec_bytes())
                + line_blocks_from(gcs, ge));
        }
        rest = rest2;
        a = e;
    }
    proof {
        assert(line_blocks_from(gcs, n as int) =~= Seq::<Seq<u8>>::empty());
        assert(out@.map_values(|t: &'a str| t.spec_bytes()) =~= line_blocks_from(gcs, 0));
    }
    out
}

} // verus!
