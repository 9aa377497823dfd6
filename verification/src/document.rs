//! A restartable, bidirectional walk over the line blocks of a buffer: each
//! step yields either a single line-break cluster or a maximal run of
//! non-break clusters, from the front or from the back of a shrinking span.

use vstd::prelude::*;

verus! {

use crate::cursor::line_start;
use crate::unicode::{
    cluster_bytes, grapheme_split, is_line_break, lemma_boundary_is_char_boundary,
    lemma_cluster_at, lemma_cluster_bytes_len, lemma_deep_view_index, lemma_deep_view_len,
    lemma_offset_monotone, lemma_offset_strict, lemma_suffix_char_boundary, locate, offset_at,
    run_end, split_graphemes, wf_clusters,
};
use vstd::string::StringSliceAdditionalSpecFns;
use vstd::utf8::{encode_utf8, valid_utf8};

/// A span of a buffer, walked line block by line block from either end.
/// Both ends of the span always rest on cluster boundaries.
pub struct ULineBounds<'a> {
    source: &'a str,
    start: usize,
    end: usize,
}

impl<'a> View for ULineBounds<'a> {
    type V = (Seq<char>, int, int);

    /// The buffer's characters and the cluster indices of the two ends of
    /// the remaining span.
    closed spec fn view(&self) -> (Seq<char>, int, int) {
        let cs = grapheme_split(self.source@);
        (
            self.source@,
            choose|i: int| 0 <= i <= cs.len() && self.start == offset_at(cs, i),
            choose|i: int| 0 <= i <= cs.len() && self.end == offset_at(cs, i),
        )
    }
}

impl<'a> ULineBounds<'a> {
    #[verifier::type_invariant]
    closed spec fn inv(self) -> bool {
        let cs = grapheme_split(self.source@);
        let bytes = cluster_bytes(cs);
        &&& wf_clusters(cs)
        &&& bytes == encode_utf8(self.source@)
        &&& bytes.len() <= usize::MAX
        &&& exists|i: int| 0 <= i <= cs.len() && self.start == offset_at(cs, i)
        &&& exists|i: int| 0 <= i <= cs.len() && self.end == offset_at(cs, i)
        &&& self.start <= self.end
    }

    /// A walk over the whole buffer: the span is everything.
    pub fn new(source: &'a str) -> (r: Self)
        ensures
            r@.0 == source@,
            r@.1 == 0,
            r@.2 == grapheme_split(source@).len(),
    {
        let cs = split_graphemes(source);
        let ghost gcs = cs.deep_view();
        proof {
            lemma_cluster_bytes_len(gcs);
        }
        let end = source.len();
        proof {
            assert(offset_at(gcs, 0) == 0);
            assert(end as int == offset_at(gcs, gcs.len() as int));
        }
        let r = ULineBounds { source, start: 0, end };
        proof {
            let i0 = choose|i: int| 0 <= i <= gcs.len() && r.start == offset_at(gcs, i);
            crate::cursor::lemma_boundary_unique(gcs, i0, 0);
            let i1 = choose|i: int| 0 <= i <= gcs.len() && r.end == offset_at(gcs, i);
            crate::cursor::lemma_boundary_unique(gcs, i1, gcs.len() as int);
        }
        r
    }

    /// The next line block from the front of the span: a line-break cluster
    /// alone, or the bytes of the content run from the front to the next
    /// break (or to the back of the span); `None` once the span is empty.
    pub fn next(&mut self) -> (r: Option<&'a str>)
        ensures
            final(self)@.0 == old(self)@.0,
            final(self)@.2 == old(self)@.2,
            ({
                let cs = grapheme_split(old(self)@.0);
                let a = old(self)@.1;
                let b = old(self)@.2;
                match r {
                    None => a >= b && final(self)@.1 == a,
                    Some(t) => a < b && if is_line_break(cs[a]) {
                        t.spec_bytes() == cs[a] && final(self)@.1 == a + 1
                    } else {
                        let e = if run_end(cs, a) <= b {
                            run_end(cs, a)
                        } else {
                            b
                        };
                        t.spec_bytes() == cluster_bytes(cs).subrange(
                            offset_at(cs, a),
                            offset_at(cs, e),
                        ) && final(self)@.1 == e
                    },
                }
            }),
    {
        proof {
            use_type_invariant(&*self);
        }
        let cs = split_graphemes(self.source);
        let ghost gcs = cs.deep_view();
        let ghost bytes = cluster_bytes(gcs);
        proof {
            lemma_cluster_bytes_len(gcs);
            lemma_deep_view_len(&cs);
            vstd::utf8::encode_utf8_valid_utf8(self.source@);
        }
        let a = locate(&cs, self.start).unwrap();
        let b = locate(&cs, self.end).unwrap();
        proof {
            let ca = choose|i: int| 0 <= i <= gcs.len() && self.start == offset_at(gcs, i);
            crate::cursor::lemma_boundary_unique(gcs, ca, a as int);
            let cb = choose|i: int| 0 <= i <= gcs.len() && self.end == offset_at(gcs, i);
            crate::cursor::lemma_boundary_unique(gcs, cb, b as int);
            if a as int > b as int {
                lemma_offset_strict(gcs, b as int, a as int);
            }
        }
        if self.start >= self.end {
            proof {
                if (a as int) < (b as int) {
                    lemma_offset_strict(gcs, a as int, b as int);
                }
            }
            return None;
        }
        proof {
            assert(a != b);
            lemma_deep_view_index(&cs, a as int);
            lemma_offset_monotone(gcs, 0, a as int);
            lemma_offset_monotone(gcs, a as int, b as int);
            lemma_offset_monotone(gcs, b as int, gcs.len() as int);
        }
        let ghost ga = a as int;
        let ghost gb = b as int;
        let c = &cs[a];
        let e: usize;
        let mut blen: usize;
        if c.len() == 1 && c[0] == 10u8 {
            e = a + 1;
            blen = 1;
            proof {
                lemma_offset_monotone(gcs, ga + 1, gcs.len() as int);
                lemma_cluster_at(gcs, ga);
            }
        } else {
            let mut k = a;
            blen = 0;
            while k < b
                invariant
                    gcs == cs.deep_view(),
                    gcs.len() == cs@.len(),
                    bytes == cluster_bytes(gcs),
                    bytes.len() <= usize::MAX,
                    ga == a as int,
                    gb == b as int,
                    b <= cs@.len(),
                    a <= k <= b,
                    run_end(gcs, ga) == run_end(gcs, k as int),
                    blen as int == offset_at(gcs, k as int) - offset_at(gcs, ga),
                ensures
                    ga == a as int,
                    gb == b as int,
                    a <= k <= b,
                    run_end(gcs, ga) == run_end(gcs, k as int),
                    blen as int == offset_at(gcs, k as int) - offset_at(gcs, ga),
                    k == b || is_line_break(gcs[k as int]),
                decreases b - k,
            {
                proof {
                    lemma_deep_view_index(&cs, k as int);
                    lemma_cluster_bytes_len(gcs);
                    lemma_offset_monotone(gcs, 0, ga);
                    lemma_offset_monotone(gcs, ga, k as int);
                    lemma_offset_monotone(gcs, k as int + 1, gcs.len() as int);
                }
                let ck = &cs[k];
                if ck.len() == 1 && ck[0] == 10u8 {
                    break;
                }
                blen = blen + ck.len();
                k = k + 1;
            }
            e = k;
            proof {
                crate::unicode::lemma_run_end_bounds(gcs, gb);
                assert(e as int == if run_end(gcs, ga) <= gb {
                    run_end(gcs, ga)
                } else {
                    gb
                });
            }
        }
        let ghost ge = e as int;
        proof {
            lemma_offset_monotone(gcs, ga, ge);
            lemma_offset_monotone(gcs, ge, gcs.len() as int);
            lemma_boundary_is_char_boundary(gcs, ga);
            lemma_boundary_is_char_boundary(gcs, ge);
            lemma_suffix_char_boundary(bytes, offset_at(gcs, ga), blen as int);
        }
        let halves = self.source.split_at(self.start);
        let rest = halves.1;
        let taken = rest.split_at(blen);
        let block = taken.0;
        proof {
            let za = offset_at(gcs, ga);
            let ze = offset_at(gcs, ge);
            assert(rest.spec_bytes() =~= bytes.subrange(za, bytes.len() as int));
            assert(block.spec_bytes() =~= rest.spec_bytes().subrange(0, blen as int));
            assert forall|q: int| 0 <= q < blen as int implies block.spec_bytes()[q] == bytes[za
                + q] by {
                assert(block.spec_bytes()[q] == rest.spec_bytes()[q]);
            }
            assert(block.spec_bytes() =~= bytes.subrange(za, ze));
            if is_line_break(gcs[ga]) {
                assert(block.spec_bytes() == gcs[ga]);
            }
        }
        proof {
            lemma_offset_monotone(gcs, ge, gb);
            assert(0 <= ge <= gcs.len() && (self.start + blen) as int == offset_at(gcs, ge));
        }
        self.start = self.start + blen;
        proof {
            let cn = choose|i: int| 0 <= i <= gcs.len() && self.start == offset_at(gcs, i);
            crate::cursor::lemma_boundary_unique(gcs, cn, ge);
            let cb2 = choose|i: int| 0 <= i <= gcs.len() && self.end == offset_at(gcs, i);
            crate::cursor::lemma_boundary_unique(gcs, cb2, gb);
        }
        Some(block)
    }
}

impl<'a> ULineBounds<'a> {
    /// The next line block from the back of the span: a line-break cluster
    /// alone, or the bytes of the content run from the previous break (or
    /// the front of the span) to the back; `None` once the span is empty.
    pub fn next_back(&mut self) -> (r: Option<&'a str>)
        ensures
            final(self)@.0 == old(self)@.0,
            final(self)@.1 == old(self)@.1,
            ({
                let cs = grapheme_split(old(self)@.0);
                let a = old(self)@.1;
                let b = old(self)@.2;
                match r {
                    None => a >= b && final(self)@.2 == b,
                    Some(t) => a < b && if is_line_break(cs[b - 1]) {
                        t.spec_bytes() == cs[b - 1] && final(self)@.2 == b - 1
                    } else {
                        let p = if line_start(cs, b) >= a {
                            line_start(cs, b)
                        } else {
                            a
                        };
                        t.spec_bytes() == cluster_bytes(cs).subrange(
                            offset_at(cs, p),
                            offset_at(cs, b),
                        ) && final(self)@.2 == p
                    },
                }
            }),
    {
        proof {
            use_type_invariant(&*self);
        }
        let cs = split_graphemes(self.source);
        let ghost gcs = cs.deep_view();
        let ghost bytes = cluster_bytes(gcs);
        proof {
            lemma_cluster_bytes_len(gcs);
            lemma_deep_view_len(&cs);
            vstd::utf8::encode_utf8_valid_utf8(self.source@);
        }
        let a = locate(&cs, self.start).unwrap();
        let b = locate(&cs, self.end).unwrap();
        proof {
            let ca = choose|i: int| 0 <= i <= gcs.len() && self.start == offset_at(gcs, i);
            crate::cursor::lemma_boundary_unique(gcs, ca, a as int);
            let cb = choose|i: int| 0 <= i <= gcs.len() && self.end == offset_at(gcs, i);
            crate::cursor::lemma_boundary_unique(gcs, cb, b as int);
            if a as int > b as int {
                lemma_offset_strict(gcs, b as int, a as int);
            }
        }
        if self.start >= self.end {
            proof {
                if (a as int) < (b as int) {
                    lemma_offset_strict(gcs, a as int, b as int);
                }
            }
            return None;
        }
        proof {
            assert(a != b);
            lemma_deep_view_index(&cs, b as int - 1);
            lemma_offset_monotone(gcs, 0, a as int);
            lemma_offset_monotone(gcs, a as int, b as int - 1);
            lemma_offset_monotone(gcs, b as int, gcs.len() as int);
        }
        let ghost ga = a as int;
        let ghost gb = b as int;
        let c = &cs[b - 1];
        let p: usize;
        let mut blen: usize;
        if c.len() == 1 && c[0] == 10u8 {
            p = b - 1;
            blen = 1;
            proof {
                lemma_cluster_at(gcs, gb - 1);
            }
        } else {
            let mut k = b;
            blen = 0;
            while k > a
                invariant
                    gcs == cs.deep_view(),
                    gcs.len() == cs@.len(),
                    bytes == cluster_bytes(gcs),
                    bytes.len() <= usize::MAX,
                    ga == a as int,
                    gb == b as int,
                    b <= cs@.len(),
                    a <= k <= b,
                    line_start(gcs, gb) == line_start(gcs, k as int),
                    blen as int == offset_at(gcs, gb) - offset_at(gcs, k as int),
                ensures
                    ga == a as int,
                    gb == b as int,
                    a <= k <= b,
                    line_start(gcs, gb) == line_start(gcs, k as int),
                    blen as int == offset_at(gcs, gb) - offset_at(gcs, k as int),
                    k == a || is_line_break(gcs[k as int - 1]),
                decreases k,
            {
                proof {
                    lemma_deep_view_index(&cs, k as int - 1);
                    lemma_cluster_bytes_len(gcs);
                    lemma_offset_monotone(gcs, 0, k as int - 1);
                    lemma_offset_monotone(gcs, gb, gcs.len() as int);
                    lemma_offset_monotone(gcs, k as int - 1, gb);
                }
                let ck = &cs[k - 1];
                if ck.len() == 1 && ck[0] == 10u8 {
                    break;
                }
                blen = blen + ck.len();
                k = k - 1;
            }
            p = k;
            proof {
                crate::cursor::lemma_line_start_bounds(gcs, k as int);
                assert(p as int == if line_start(gcs, gb) >= ga {
                    line_start(gcs, gb)
                } else {
                    ga
                });
            }
        }
        let ghost gp = p as int;
        proof {
            lemma_offset_monotone(gcs, ga, gp);
            lemma_offset_monotone(gcs, gp, gb);
            lemma_boundary_is_char_boundary(gcs, gp);
            lemma_boundary_is_char_boundary(gcs, gb);
            lemma_suffix_char_boundary(bytes, offset_at(gcs, gp), blen as int);
            assert(blen as int == offset_at(gcs, gb) - offset_at(gcs, gp));
        }
        let off_p = self.end - blen;
        let halves = self.source.split_at(off_p);
        let rest = halves.1;
        let taken = rest.split_at(blen);
        let block = taken.0;
        proof {
            let zp = offset_at(gcs, gp);
            let zb = offset_at(gcs, gb);
            assert(rest.spec_bytes() =~= bytes.subrange(zp, bytes.len() as int));
            assert(block.spec_bytes() =~= rest.spec_bytes().subrange(0, blen as int));
            assert forall|q: int| 0 <= q < blen as int implies block.spec_bytes()[q] == bytes[zp
                + q] by {
                assert(block.spec_bytes()[q] == rest.spec_bytes()[q]);
            }
            assert(block.spec_bytes() =~= bytes.subrange(zp, zb));
            if is_line_break(gcs[gb - 1]) {
                assert(block.spec_bytes() == gcs[gb - 1]);
            }
            assert(0 <= gp <= gcs.len() && (self.end - blen) as int == offset_at(gcs, gp));
        }
        self.end = self.end - blen;
        proof {
            let cn = choose|i: int| 0 <= i <= gcs.len() && self.end == offset_at(gcs, i);
            crate::cursor::lemma_boundary_unique(gcs, cn, gp);
            let ca2 = choose|i: int| 0 <= i <= gcs.len() && self.start == offset_at(gcs, i);
            crate::cursor::lemma_boundary_unique(gcs, ca2, ga);
        }
        Some(block)
    }
}

} // verus!
