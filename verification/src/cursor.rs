//! The cursor: an immutable position value over a borrowed buffer, moving by
//! grapheme clusters or by lines in either direction.

use vstd::prelude::*;

verus! {

use crate::unicode::{
    col_at, col_of_boundary, grapheme_split, is_line_break, lemma_boundary_is_char_boundary,
    lemma_cluster_at, lemma_cluster_bytes_len, lemma_col_le_offset, lemma_col_within_run,
    lemma_deep_view_index, lemma_deep_view_len, lemma_line_monotone, lemma_offset_monotone,
    lemma_offset_strict, lemma_suffix_char_boundary, line_at, locate, offset_at, pos_components,
    split_graphemes, wf_clusters,
};
use vstd::string::StringSliceAdditionalSpecFns;

/// A position in a buffer: column `x`, line `y` and byte offset `z`, all
/// zero-based.  The offset is the authoritative coordinate; the column and
/// line are derived views of it.
#[derive(Debug, Clone, Copy, PartialEq, Eq, Structural)]
pub struct Cursor(pub(crate) usize, pub(crate) usize, pub(crate) usize);

impl View for Cursor {
    type V = (int, int, int);

    closed spec fn view(&self) -> (int, int, int) {
        (self.0 as int, self.1 as int, self.2 as int)
    }
}

/// The column, line and byte offset of cluster boundary `i`.
pub open spec fn position_at(cs: Seq<Seq<u8>>, i: int) -> (int, int, int) {
    (col_at(cs, i), line_at(cs, i), offset_at(cs, i))
}

impl Cursor {
    /// The column: bytes since the most recent line break before `z`.
    pub fn x(&self) -> (r: usize)
        ensures
            r as int == self@.0,
    {
        self.0
    }

    /// The line: line-break clusters strictly before `z`.
    pub fn y(&self) -> (r: usize)
        ensures
            r as int == self@.1,
    {
        self.1
    }

    /// The byte offset into the buffer.
    pub fn z(&self) -> (r: usize)
        ensures
            r as int == self@.2,
    {
        self.2
    }

    /// The position stands exactly on cluster boundary `i` of `cs`, with
    /// column and line both agreeing with the offset.
    pub open spec fn valid_at(self, cs: Seq<Seq<u8>>, i: int) -> bool {
        &&& 0 <= i <= cs.len()
        &&& self@ == position_at(cs, i)
    }

    /// The position is consistent with some cluster boundary of `cs`.
    pub open spec fn valid_for(self, cs: Seq<Seq<u8>>) -> bool {
        exists|i: int| self.valid_at(cs, i)
    }

    /// The byte offset alone stands on some cluster boundary of `cs`.
    pub open spec fn at_boundary(self, cs: Seq<Seq<u8>>) -> bool {
        exists|i: int| 0 <= i <= cs.len() && self@.2 == offset_at(cs, i)
    }

    /// Line and offset agree with boundary `i`; the column is free (for the
    /// line moves it is only the sticky-column budget).
    pub open spec fn row_valid_at(self, cs: Seq<Seq<u8>>, i: int) -> bool {
        &&& 0 <= i <= cs.len()
        &&& self@.1 == line_at(cs, i)
        &&& self@.2 == offset_at(cs, i)
    }

    /// The position's line and offset are consistent with some boundary.
    pub open spec fn row_valid_for(self, cs: Seq<Seq<u8>>) -> bool {
        exists|i: int| self.row_valid_at(cs, i)
    }

    /// The boundary the position's byte offset stands on.
    pub open spec fn index_in(self, cs: Seq<Seq<u8>>) -> int {
        choose|i: int| 0 <= i <= cs.len() && self@.2 == offset_at(cs, i)
    }
}

impl Default for Cursor {
    /// The origin: the start of the buffer, which is a valid position of
    /// every buffer.
    fn default() -> (r: Self)
        ensures
            r@ == (0int, 0int, 0int),
    {
        Cursor(0, 0, 0)
    }
}

impl From<(usize, usize, usize)> for Cursor {
    fn from(t: (usize, usize, usize)) -> (r: Self) {
        Cursor(t.0, t.1, t.2)
    }
}

impl vstd::std_specs::convert::FromSpecImpl<(usize, usize, usize)> for Cursor {
    open spec fn obeys_from_spec() -> bool {
        true
    }

    closed spec fn from_spec(t: (usize, usize, usize)) -> Cursor {
        Cursor(t.0, t.1, t.2)
    }
}

/// A cursor built from a triple carries the triple over unchanged.
pub proof fn lemma_from_triple(t: (usize, usize, usize))
    ensures
        (<Cursor as vstd::std_specs::convert::FromSpec<(usize, usize, usize)>>::from_spec(t))@
            == (t.0 as int, t.1 as int, t.2 as int),
{
}

/// With non-empty clusters no two boundaries share a byte offset.
pub proof fn lemma_boundary_unique(cs: Seq<Seq<u8>>, a: int, b: int)
    requires
        wf_clusters(cs),
        0 <= a <= cs.len(),
        0 <= b <= cs.len(),
        offset_at(cs, a) == offset_at(cs, b),
    ensures
        a == b,
{
    if a < b {
        lemma_offset_strict(cs, a, b);
    }
    if b < a {
        lemma_offset_strict(cs, b, a);
    }
}

/// Where a forward move by `count` clusters ends: `count` boundaries on,
/// clamped at the end of the buffer, and then once more if that landed on a
/// line break, so a rest position is never on a break.
pub open spec fn forward_target(cs: Seq<Seq<u8>>, i: int, count: int) -> int {
    let j = if i + count <= cs.len() {
        i + count
    } else {
        cs.len() as int
    };
    if j < cs.len() && is_line_break(cs[j]) {
        j + 1
    } else {
        j
    }
}

impl Cursor {
    /// Move forward by up to `count` grapheme clusters, clamped at the end
    /// of the buffer; a move that comes to rest on a line-break cluster
    /// steps over it, so the result is the start of the following line.
    pub fn forward_graphemes(&self, input: &str, count: usize) -> (r: Cursor)
        requires
            self.valid_for(grapheme_split(input@)),
        ensures
            ({
                let cs = grapheme_split(input@);
                let j = forward_target(cs, self.index_in(cs), count as int);
                r@ == position_at(cs, j) && r.valid_at(cs, j)
            }),
    {
        let cs = split_graphemes(input);
        let ghost gcs = cs.deep_view();
        proof {
            lemma_cluster_bytes_len(gcs);
            lemma_deep_view_len(&cs);
        }
        let i = locate(&cs, self.2).unwrap();
        proof {
            let w = choose|w: int| self.valid_at(gcs, w);
            lemma_boundary_unique(gcs, w, i as int);
            lemma_boundary_unique(gcs, self.index_in(gcs), i as int);
        }
        let n = cs.len();
        let rem = n - i;
        let take = if count < rem {
            count
        } else {
            rem
        };
        let j0 = i + take;
        let mut j = j0;
        if j0 < n {
            proof {
                lemma_deep_view_index(&cs, j0 as int);
            }
            let c = &cs[j0];
            if c.len() == 1 && c[0] == 10u8 {
                j = j0 + 1;
            }
        }
        proof {
            assert(j as int == forward_target(gcs, i as int, count as int));
        }
        let mut x = self.0;
        let mut y = self.1;
        let mut z = self.2;
        let mut k = i;
        while k < j
            invariant
                gcs == cs.deep_view(),
                gcs.len() == cs@.len(),
                k <= j <= cs@.len(),
                offset_at(gcs, gcs.len() as int) <= usize::MAX,
                x == col_at(gcs, k as int),
                y == line_at(gcs, k as int),
                z == offset_at(gcs, k as int),
            decreases j - k,
        {
            proof {
                lemma_deep_view_index(&cs, k as int);
                lemma_offset_monotone(gcs, k as int + 1, gcs.len() as int);
                crate::unicode::lemma_col_le_offset(gcs, k as int + 1);
                crate::unicode::lemma_line_le_index(gcs, k as int + 1);
            }
            let c = &cs[k];
            let len = c.len();
            z = z + len;
            if len == 1 && c[0] == 10u8 {
                y = y + 1;
                x = 0;
            } else {
                x = x + len;
            }
            k = k + 1;
        }
        Cursor(x, y, z)
    }
}

/// Where a backward move by `count` clusters ends.  Each cluster before the
/// position is stepped over in turn, clamped at the start of the buffer; a
/// line-break cluster is stepped over but does not count towards `count`,
/// so the move always comes to rest on the first non-break cluster it can
/// reach, never on a line break.  This is the one settled resolution of the
/// backward tie-break, applied uniformly.
pub open spec fn backward_target(cs: Seq<Seq<u8>>, i: int, count: int) -> int
    decreases i,
{
    if i <= 0 || count <= 0 {
        i
    } else if is_line_break(cs[i - 1]) {
        backward_target(cs, i - 1, count)
    } else {
        backward_target(cs, i - 1, count - 1)
    }
}

impl Cursor {
    /// Move backward by up to `count` grapheme clusters, clamped at the
    /// start of the buffer.  A line-break cluster crossed on the way is
    /// stepped over without counting, and after crossing one the column is
    /// recomputed from the start of the line the move comes to rest in.
    pub fn backward_graphemes(&self, input: &str, count: usize) -> (r: Cursor)
        requires
            self.valid_for(grapheme_split(input@)),
        ensures
            ({
                let cs = grapheme_split(input@);
                let j = backward_target(cs, self.index_in(cs), count as int);
                r@ == position_at(cs, j) && r.valid_at(cs, j)
            }),
    {
        let cs = split_graphemes(input);
        let ghost gcs = cs.deep_view();
        proof {
            lemma_cluster_bytes_len(gcs);
            lemma_deep_view_len(&cs);
        }
        let i = locate(&cs, self.2).unwrap();
        proof {
            let w = choose|w: int| self.valid_at(gcs, w);
            lemma_boundary_unique(gcs, w, i as int);
            lemma_boundary_unique(gcs, self.index_in(gcs), i as int);
        }
        let mut k = i;
        let mut counted: usize = 0;
        let mut y = self.1;
        let mut z = self.2;
        let mut dx: usize = 0;
        let mut crossed = false;
        while counted < count && k > 0
            invariant
                gcs == cs.deep_view(),
                gcs.len() == cs@.len(),
                0 <= k <= i as int <= gcs.len(),
                counted <= count,
                offset_at(gcs, gcs.len() as int) <= usize::MAX,
                self.valid_at(gcs, i as int),
                backward_target(gcs, i as int, count as int) == backward_target(
                    gcs,
                    k as int,
                    count as int - counted as int,
                ),
                y == line_at(gcs, k as int),
                z == offset_at(gcs, k as int),
                crossed == (line_at(gcs, k as int) < line_at(gcs, i as int)),
                dx as int <= offset_at(gcs, i as int) - offset_at(gcs, k as int),
                !crossed ==> dx as int == offset_at(gcs, i as int) - offset_at(gcs, k as int),
                !crossed ==> forall|q: int| k <= q < i ==> !is_line_break(gcs[q]),
            decreases k,
        {
            proof {
                lemma_deep_view_index(&cs, k as int - 1);
                lemma_offset_monotone(gcs, 0, k as int - 1);
                lemma_offset_monotone(gcs, i as int, gcs.len() as int);
                lemma_offset_monotone(gcs, k as int - 1, i as int);
                crate::unicode::lemma_line_le_index(gcs, k as int - 1);
                lemma_line_monotone(gcs, k as int, i as int);
            }
            let c = &cs[k - 1];
            let len = c.len();
            if len == 1 && c[0] == 10u8 {
                k = k - 1;
                z = z - len;
                y = y - 1;
                crossed = true;
            } else {
                k = k - 1;
                z = z - len;
                dx = dx + len;
                counted = counted + 1;
            }
        }
        let x: usize;
        if crossed {
            x = col_of_boundary(&cs, k);
        } else {
            proof {
                lemma_col_within_run(gcs, k as int, i as int);
                crate::unicode::lemma_col_le_offset(gcs, k as int);
            }
            x = self.0 - dx;
        }
        Cursor(x, y, z)
    }

    /// The grapheme cluster the position rests on, or the empty string when
    /// the position is parked one past the end of the buffer.
    pub fn current<'a>(&self, buffer: &'a str) -> (r: &'a str)
        requires
            self.at_boundary(grapheme_split(buffer@)),
        ensures
            ({
                let cs = grapheme_split(buffer@);
                let i = self.index_in(cs);
                if i < cs.len() {
                    r.spec_bytes() == cs[i]
                } else {
                    r@ == Seq::<char>::empty()
                }
            }),
    {
        let cs = split_graphemes(buffer);
        let ghost gcs = cs.deep_view();
        proof {
            lemma_cluster_bytes_len(gcs);
            lemma_deep_view_len(&cs);
        }
        let i = locate(&cs, self.2).unwrap();
        proof {
            lemma_boundary_unique(gcs, self.index_in(gcs), i as int);
        }
        if i == cs.len() {
            let r = "";
            proof {
                reveal_strlit("");
            }
            r
        } else {
            proof {
                lemma_deep_view_index(&cs, i as int);
                vstd::utf8::encode_utf8_valid_utf8(buffer@);
                lemma_boundary_is_char_boundary(gcs, i as int);
                lemma_boundary_is_char_boundary(gcs, i as int + 1);
                lemma_offset_monotone(gcs, i as int, i as int + 1);
                lemma_offset_monotone(gcs, i as int + 1, gcs.len() as int);
                lemma_suffix_char_boundary(
                    crate::unicode::cluster_bytes(gcs),
                    offset_at(gcs, i as int),
                    gcs[i as int].len() as int,
                );
                lemma_cluster_at(gcs, i as int);
            }
            let len = cs[i].len();
            let (_, rest) = buffer.split_at(self.2);
            let (g, _) = rest.split_at(len);
            proof {
                let bytes = crate::unicode::cluster_bytes(gcs);
                let z = offset_at(gcs, i as int);
                let l = gcs[i as int].len() as int;
                assert(rest.spec_bytes() =~= bytes.subrange(z, bytes.len() as int));
                assert(g.spec_bytes() =~= rest.spec_bytes().subrange(0, l));
                assert forall|q: int| 0 <= q < l implies g.spec_bytes()[q] == bytes[z + q] by {
                    assert(g.spec_bytes()[q] == rest.spec_bytes()[q]);
                }
                assert(g.spec_bytes() =~= bytes.subrange(z, z + l));
                assert(g.spec_bytes() =~= gcs[i as int]);
            }
            g
        }
    }

    /// `current`, for any position: `None` when the byte offset does not
    /// stand on a cluster boundary of the buffer.
    pub fn try_current<'a>(&self, buffer: &'a str) -> (r: Option<&'a str>)
        ensures
            ({
                let cs = grapheme_split(buffer@);
                match r {
                    Some(g) => {
                        let i = self.index_in(cs);
                        self.at_boundary(cs) && if i < cs.len() {
                            g.spec_bytes() == cs[i]
                        } else {
                            g@ == Seq::<char>::empty()
                        }
                    },
                    None => !self.at_boundary(cs),
                }
            }),
    {
        let cs = split_graphemes(buffer);
        let ghost gcs = cs.deep_view();
        proof {
            lemma_cluster_bytes_len(gcs);
            lemma_deep_view_len(&cs);
        }
        match locate(&cs, self.2) {
            Some(_) => Some(self.current(buffer)),
            None => None,
        }
    }
}

/// The boundary at the start of the line that boundary `i` lies in.
pub open spec fn line_start(cs: Seq<Seq<u8>>, i: int) -> int
    decreases i,
{
    if i <= 0 {
        0
    } else if is_line_break(cs[i - 1]) {
        i
    } else {
        line_start(cs, i - 1)
    }
}

/// The boundary just past the next line break at or after `i`: the start of
/// the following line, or the end of the buffer when no break follows.
pub open spec fn next_line(cs: Seq<Seq<u8>>, i: int) -> int
    decreases cs.len() - i,
{
    if i < 0 || i >= cs.len() {
        cs.len() as int
    } else if is_line_break(cs[i]) {
        i + 1
    } else {
        next_line(cs, i + 1)
    }
}

/// The start of the line `n` lines below the line of boundary `i`, clamped
/// at the end of the buffer.
pub open spec fn lines_down(cs: Seq<Seq<u8>>, i: int, n: int) -> int
    decreases n,
{
    if n <= 0 {
        i
    } else {
        lines_down(cs, next_line(cs, i), n - 1)
    }
}

/// The start of the line above the line of boundary `i`, or the start of
/// the buffer when `i` is already in the first line.
pub open spec fn line_up(cs: Seq<Seq<u8>>, i: int) -> int {
    let s = line_start(cs, i);
    if s == 0 {
        0
    } else {
        line_start(cs, s - 1)
    }
}

/// The start of the line `n` lines above the line of boundary `i`, clamped
/// at the start of the buffer.
pub open spec fn lines_up(cs: Seq<Seq<u8>>, i: int, n: int) -> int
    decreases n,
{
    if n <= 0 {
        i
    } else {
        lines_up(cs, line_up(cs, i), n - 1)
    }
}

/// From `i`, step over whole clusters while each fits in the remaining byte
/// budget, stopping early at a line break or the end of the buffer: the
/// sticky-column walk.  The result never moves the column past the budget.
pub open spec fn sticky_target(cs: Seq<Seq<u8>>, i: int, budget: int) -> int
    decreases cs.len() - i,
{
    if 0 <= i < cs.len() && !is_line_break(cs[i]) && cs[i].len() <= budget {
        sticky_target(cs, i + 1, budget - cs[i].len())
    } else {
        i
    }
}

/// `line_start` stays between the start of the buffer and `i`.
pub proof fn lemma_line_start_bounds(cs: Seq<Seq<u8>>, i: int)
    requires
        0 <= i,
    ensures
        0 <= line_start(cs, i) <= i,
    decreases i,
{
    if i > 0 && !is_line_break(cs[i - 1]) {
        lemma_line_start_bounds(cs, i - 1);
    }
}

/// `next_line` stays between `i` and the end of the buffer.
pub proof fn lemma_next_line_bounds(cs: Seq<Seq<u8>>, i: int)
    requires
        0 <= i <= cs.len(),
    ensures
        i <= next_line(cs, i) <= cs.len(),
    decreases cs.len() - i,
{
    if i < cs.len() && !is_line_break(cs[i]) {
        lemma_next_line_bounds(cs, i + 1);
    }
}

/// Scan for the start of the following line.
fn next_line_exec(cs: &Vec<Vec<u8>>, start: usize) -> (r: usize)
    requires
        start <= cs.deep_view().len(),
    ensures
        r as int == next_line(cs.deep_view(), start as int),
        start <= r <= cs.deep_view().len(),
{
    let ghost gcs = cs.deep_view();
    proof {
        lemma_deep_view_len(cs);
    }
    let n = cs.len();
    let mut k = start;
    while k < n
        invariant
            gcs == cs.deep_view(),
            gcs.len() == cs@.len(),
            n == cs@.len(),
            start <= k <= n,
            next_line(gcs, start as int) == next_line(gcs, k as int),
        decreases n - k,
    {
        proof {
            lemma_deep_view_index(cs, k as int);
        }
        let c = &cs[k];
        if c.len() == 1 && c[0] == 10u8 {
            return k + 1;
        }
        k = k + 1;
    }
    k
}

/// Scan for the start of the line that `start` lies in.
fn line_start_exec(cs: &Vec<Vec<u8>>, start: usize) -> (r: usize)
    requires
        start <= cs.deep_view().len(),
    ensures
        r as int == line_start(cs.deep_view(), start as int),
        r <= start,
{
    let ghost gcs = cs.deep_view();
    proof {
        lemma_deep_view_len(cs);
    }
    let mut k = start;
    while k > 0
        invariant
            gcs == cs.deep_view(),
            gcs.len() == cs@.len(),
            0 <= k <= start <= cs@.len(),
            line_start(gcs, start as int) == line_start(gcs, k as int),
        decreases k,
    {
        proof {
            lemma_deep_view_index(cs, k as int - 1);
        }
        let c = &cs[k - 1];
        if c.len() == 1 && c[0] == 10u8 {
            return k;
        }
        k = k - 1;
    }
    k
}

/// Walk the sticky-column budget forward within a line.
fn sticky_exec(cs: &Vec<Vec<u8>>, start: usize, budget: usize) -> (r: usize)
    requires
        start <= cs.deep_view().len(),
    ensures
        r as int == sticky_target(cs.deep_view(), start as int, budget as int),
        start <= r <= cs.deep_view().len(),
{
    let ghost gcs = cs.deep_view();
    proof {
        lemma_deep_view_len(cs);
    }
    let n = cs.len();
    let mut k = start;
    let mut b = budget;
    while k < n
        invariant
            gcs == cs.deep_view(),
            gcs.len() == cs@.len(),
            n == cs@.len(),
            start <= k <= n,
            sticky_target(gcs, start as int, budget as int) == sticky_target(
                gcs,
                k as int,
                b as int,
            ),
        decreases n - k,
    {
        proof {
            lemma_deep_view_index(cs, k as int);
        }
        let c = &cs[k];
        let len = c.len();
        if len == 1 && c[0] == 10u8 {
            return k;
        }
        if len > b {
            return k;
        }
        b = b - len;
        k = k + 1;
    }
    k
}

impl Cursor {
    /// Move down by `count` lines: land at the start of the target line,
    /// then re-apply up to the original column's worth of whole clusters
    /// within that line (the sticky column), stopping early at a line break
    /// or the end of the buffer.  A move past the last line clamps at the
    /// end of the buffer; a move by zero lines is the identity.
    pub fn forward_lines(&self, buffer: &str, count: usize) -> (r: Cursor)
        requires
            self.row_valid_for(grapheme_split(buffer@)),
        ensures
            count == 0 ==> r == *self,
            count > 0 ==> ({
                let cs = grapheme_split(buffer@);
                let k = sticky_target(cs, lines_down(cs, self.index_in(cs), count as int), self@.0);
                r@ == position_at(cs, k) && r.valid_at(cs, k)
            }),
    {
        if count == 0 {
            return *self;
        }
        let cs = split_graphemes(buffer);
        let ghost gcs = cs.deep_view();
        proof {
            lemma_cluster_bytes_len(gcs);
            lemma_deep_view_len(&cs);
        }
        let i = locate(&cs, self.2).unwrap();
        proof {
            let w = choose|w: int| self.row_valid_at(gcs, w);
            lemma_boundary_unique(gcs, w, i as int);
            lemma_boundary_unique(gcs, self.index_in(gcs), i as int);
        }
        let mut k = i;
        let mut done: usize = 0;
        while done < count
            invariant
                gcs == cs.deep_view(),
                gcs.len() == cs@.len(),
                0 <= k <= gcs.len(),
                done <= count,
                lines_down(gcs, i as int, count as int) == lines_down(
                    gcs,
                    k as int,
                    count as int - done as int,
                ),
            decreases count - done,
        {
            k = next_line_exec(&cs, k);
            done = done + 1;
        }
        let k2 = sticky_exec(&cs, k, self.0);
        let p = pos_components(&cs, k2);
        Cursor(p.0, p.1, p.2)
    }

    /// Move up by `count` lines: land at the start of the target line, then
    /// re-apply up to the original column's worth of whole clusters within
    /// that line (the sticky column).  A move past the first line clamps at
    /// the start of the buffer; a move by zero lines is the identity.
    pub fn backward_lines(&self, buffer: &str, count: usize) -> (r: Cursor)
        requires
            self.row_valid_for(grapheme_split(buffer@)),
        ensures
            count == 0 ==> r == *self,
            count > 0 ==> ({
                let cs = grapheme_split(buffer@);
                let k = sticky_target(cs, lines_up(cs, self.index_in(cs), count as int), self@.0);
                r@ == position_at(cs, k) && r.valid_at(cs, k)
            }),
    {
        if count == 0 {
            return *self;
        }
        let cs = split_graphemes(buffer);
        let ghost gcs = cs.deep_view();
        proof {
            lemma_cluster_bytes_len(gcs);
            lemma_deep_view_len(&cs);
        }
        let i = locate(&cs, self.2).unwrap();
        proof {
            let w = choose|w: int| self.row_valid_at(gcs, w);
            lemma_boundary_unique(gcs, w, i as int);
            lemma_boundary_unique(gcs, self.index_in(gcs), i as int);
        }
        let mut k = i;
        let mut done: usize = 0;
        while done < count
            invariant
                gcs == cs.deep_view(),
                gcs.len() == cs@.len(),
                0 <= k <= gcs.len(),
                done <= count,
                lines_up(gcs, i as int, count as int) == lines_up(
                    gcs,
                    k as int,
                    count as int - done as int,
                ),
            decreases count - done,
        {
            let s = line_start_exec(&cs, k);
            if s == 0 {
                k = 0;
            } else {
                k = line_start_exec(&cs, s - 1);
            }
            done = done + 1;
        }
        let k2 = sticky_exec(&cs, k, self.0);
        let p = pos_components(&cs, k2);
        Cursor(p.0, p.1, p.2)
    }
}

/// The unit a navigation request moves by.  Stepping by words or sentences
/// is accepted and leaves the position unchanged.
#[derive(Debug, Clone, Copy, PartialEq, Eq, Structural)]
pub enum Lense {
    Graphemes,
    Words,
    Sentences,
    Lines,
}

impl Default for Lense {
    /// Navigation is by grapheme clusters unless asked otherwise.
    fn default() -> (r: Self)
        ensures
            r == Lense::Graphemes,
    {
        Lense::Graphemes
    }
}

/// The direction a navigation request moves in.
#[derive(Debug, Clone, Copy, PartialEq, Eq, Structural)]
pub enum Direction {
    Forward,
    Backward,
}

impl Cursor {
    /// One navigation request: move by `count` of the given unit in the
    /// given direction.  The position is first checked against the buffer:
    /// a grapheme move needs the full triple consistent with a cluster
    /// boundary, a line move needs line and offset consistent (the column
    /// is the sticky budget), and a request that fails the check returns
    /// `None` with no movement.  Word and sentence requests leave the
    /// position unchanged.
    pub fn step(&self, buffer: &str, direction: Direction, lense: Lense, count: usize) -> (r:
        Option<Cursor>)
        ensures
            ({
                let cs = grapheme_split(buffer@);
                match lense {
                    Lense::Words | Lense::Sentences => r == Some(*self),
                    Lense::Graphemes => match r {
                        Some(c) => {
                            let i = self.index_in(cs);
                            let j = match direction {
                                Direction::Forward => forward_target(cs, i, count as int),
                                Direction::Backward => backward_target(cs, i, count as int),
                            };
                            self.valid_for(cs) && c@ == position_at(cs, j) && c.valid_for(cs)
                        },
                        None => !self.valid_for(cs),
                    },
                    Lense::Lines => match r {
                        Some(c) => {
                            let i = self.index_in(cs);
                            let k = match direction {
                                Direction::Forward => sticky_target(
                                    cs,
                                    lines_down(cs, i, count as int),
                                    self@.0,
                                ),
                                Direction::Backward => sticky_target(
                                    cs,
                                    lines_up(cs, i, count as int),
                                    self@.0,
                                ),
                            };
                            self.row_valid_for(cs) && if count == 0 {
                                c == *self
                            } else {
                                c@ == position_at(cs, k) && c.valid_for(cs)
                            }
                        },
                        None => !self.row_valid_for(cs),
                    },
                }
            }),
    {
        match lense {
            Lense::Words | Lense::Sentences => {
                return Some(*self);
            },
            _ => {},
        }
        let cs = split_graphemes(buffer);
        let ghost gcs = cs.deep_view();
        proof {
            lemma_cluster_bytes_len(gcs);
            lemma_deep_view_len(&cs);
        }
        let i = match locate(&cs, self.2) {
            Some(i) => i,
            None => {
                return None;
            },
        };
        proof {
            lemma_boundary_unique(gcs, self.index_in(gcs), i as int);
        }
        let p = pos_components(&cs, i);
        match lense {
            Lense::Graphemes => {
                if p.0 == self.0 && p.1 == self.1 {
                    proof {
                        assert(self.valid_at(gcs, i as int));
                    }
                    match direction {
                        Direction::Forward => Some(self.forward_graphemes(buffer, count)),
                        Direction::Backward => Some(self.backward_graphemes(buffer, count)),
                    }
                } else {
                    proof {
                        assert forall|w: int| !self.valid_at(gcs, w) by {
                            if 0 <= w <= gcs.len() && self@.2 == offset_at(gcs, w) {
                                lemma_boundary_unique(gcs, w, i as int);
                            }
                        }
                    }
                    None
                }
            },
            _ => {
                if p.1 == self.1 {
                    proof {
                        assert(self.row_valid_at(gcs, i as int));
                    }
                    match direction {
                        Direction::Forward => Some(self.forward_lines(buffer, count)),
                        Direction::Backward => Some(self.backward_lines(buffer, count)),
                    }
                } else {
                    proof {
                        assert forall|w: int| !self.row_valid_at(gcs, w) by {
                            if 0 <= w <= gcs.len() && self@.2 == offset_at(gcs, w) {
                                lemma_boundary_unique(gcs, w, i as int);
                            }
                        }
                    }
                    None
                }
            },
        }
    }
}

/// A backward move over clusters none of which is a line break undoes a
/// forward move of the same count.
proof fn lemma_backward_over_run(cs: Seq<Seq<u8>>, i: int, m: int)
    requires
        0 <= i,
        0 <= m,
        i + m <= cs.len(),
        forall|k: int| i <= k < i + m ==> !is_line_break(cs[k]),
    ensures
        backward_target(cs, i + m, m) == i,
    decreases m,
{
    if m > 0 {
        lemma_backward_over_run(cs, i, m - 1);
    }
}

/// Round-trip law: a forward move by `n` whole clusters none of which is a
/// line break is exactly undone by a backward move by `n` — also when the
/// forward move comes to rest on a break and skips it, since the backward
/// move re-crosses that break without counting it.  (Only a break among the
/// `n` counted clusters ends the symmetry: the forward move counts it, the
/// backward move does not.)
pub proof fn lemma_round_trip(cs: Seq<Seq<u8>>, i: int, n: int)
    requires
        0 <= i,
        0 < n,
        i + n <= cs.len(),
        forall|k: int| i <= k < i + n ==> !is_line_break(cs[k]),
    ensures
        backward_target(cs, forward_target(cs, i, n), n) == i,
{
    lemma_backward_over_run(cs, i, n);
    if i + n < cs.len() && is_line_break(cs[i + n]) {
        assert(forward_target(cs, i, n) == i + n + 1);
        assert(backward_target(cs, i + n + 1, n) == backward_target(cs, i + n, n));
    }
}

/// Boundary invariant law: the byte offset of any position that stands on a
/// cluster boundary lies within the buffer's bytes and on a character
/// boundary, so slicing the buffer before the offset never splits a
/// multi-byte character.
pub proof fn lemma_boundary_invariant(c: Cursor, cs: Seq<Seq<u8>>)
    requires
        wf_clusters(cs),
        vstd::utf8::valid_utf8(crate::unicode::cluster_bytes(cs)),
        c.at_boundary(cs),
    ensures
        0 <= c@.2 <= crate::unicode::cluster_bytes(cs).len(),
        vstd::utf8::is_char_boundary(crate::unicode::cluster_bytes(cs), c@.2),
{
    let i = choose|i: int| 0 <= i <= cs.len() && c@.2 == offset_at(cs, i);
    lemma_cluster_bytes_len(cs);
    lemma_offset_monotone(cs, 0, i);
    lemma_offset_monotone(cs, i, cs.len() as int);
    lemma_boundary_is_char_boundary(cs, i);
}

/// Clamp idempotence law: a forward move by a count at least as large as
/// the remaining clusters parks the position at the end of the buffer, and
/// a second such move from there stays put.
pub proof fn lemma_clamp_idempotent(cs: Seq<Seq<u8>>, i: int, count: int)
    requires
        0 <= i <= cs.len(),
        count >= cs.len() - i,
    ensures
        forward_target(cs, i, count) == cs.len(),
        forward_target(cs, forward_target(cs, i, count), count) == forward_target(cs, i, count),
{
}

/// The column of a position at the start of its line is zero.
pub proof fn lemma_column_zero_at_line_start(cs: Seq<Seq<u8>>, i: int)
    requires
        0 <= i,
        line_start(cs, i) == i,
    ensures
        col_at(cs, i) == 0,
{
    if i > 0 && !is_line_break(cs[i - 1]) {
        lemma_line_start_bounds(cs, i - 1);
    }
}

/// No cluster between the start of a line and a boundary in that line is a
/// line break.
proof fn lemma_line_start_no_break(cs: Seq<Seq<u8>>, i: int)
    requires
        0 <= i,
    ensures
        0 <= line_start(cs, i) <= i,
        forall|k: int| line_start(cs, i) <= k < i ==> !is_line_break(cs[k]),
    decreases i,
{
    if i > 0 && !is_line_break(cs[i - 1]) {
        lemma_line_start_no_break(cs, i - 1);
    }
}

/// A line's start is the start of the buffer or stands right after a break.
proof fn lemma_line_start_break(cs: Seq<Seq<u8>>, i: int)
    requires
        0 <= i,
    ensures
        line_start(cs, i) == 0 || is_line_break(cs[line_start(cs, i) - 1]),
    decreases i,
{
    if i > 0 && !is_line_break(cs[i - 1]) {
        lemma_line_start_break(cs, i - 1);
    }
}

/// Boundaries with no line break between them share their line's start.
proof fn lemma_line_start_stable(cs: Seq<Seq<u8>>, a: int, b: int)
    requires
        0 <= a <= b,
        forall|k: int| a <= k < b ==> !is_line_break(cs[k]),
    ensures
        line_start(cs, b) == line_start(cs, a),
    decreases b - a,
{
    if a < b {
        lemma_line_start_stable(cs, a, b - 1);
    }
}

/// Between a boundary and the start of the next line only the last cluster,
/// if any, is a line break.
proof fn lemma_next_line_no_break(cs: Seq<Seq<u8>>, i: int)
    requires
        0 <= i <= cs.len(),
    ensures
        forall|k: int|
            i <= k < next_line(cs, i) && is_line_break(cs[k]) ==> k == next_line(cs, i) - 1,
    decreases cs.len() - i,
{
    if i < cs.len() && !is_line_break(cs[i]) {
        lemma_next_line_no_break(cs, i + 1);
    }
}

/// What the sticky walk guarantees: it stays in its line, never spends more
/// than its budget, and stops only at the end of the buffer, at a line
/// break, or because the next whole cluster would not fit.
proof fn lemma_sticky_shape(cs: Seq<Seq<u8>>, s: int, b: int)
    requires
        0 <= s <= cs.len(),
        0 <= b,
    ensures
        ({
            let t = sticky_target(cs, s, b);
            &&& s <= t <= cs.len()
            &&& forall|k: int| s <= k < t ==> !is_line_break(cs[k])
            &&& col_at(cs, t) - col_at(cs, s) <= b
            &&& (col_at(cs, t) - col_at(cs, s) < b ==> t == cs.len() || is_line_break(cs[t])
                || col_at(cs, t) - col_at(cs, s) + cs[t].len() > b)
        }),
    decreases cs.len() - s,
{
    if 0 <= s < cs.len() && !is_line_break(cs[s]) && cs[s].len() <= b {
        lemma_sticky_shape(cs, s + 1, b - cs[s].len() as int);
        assert(col_at(cs, s + 1) == col_at(cs, s) + cs[s].len());
    }
}

/// A sticky walk whose budget is the distance to a boundary in the same
/// line stops exactly on that boundary.
proof fn lemma_sticky_exact(cs: Seq<Seq<u8>>, s: int, i: int)
    requires
        wf_clusters(cs),
        0 <= s <= i <= cs.len(),
        forall|k: int| s <= k < i ==> !is_line_break(cs[k]),
    ensures
        sticky_target(cs, s, col_at(cs, i) - col_at(cs, s)) == i,
    decreases i - s,
{
    if s == i {
        if 0 <= s < cs.len() && !is_line_break(cs[s]) {
            assert(cs[s].len() > 0);
        }
    } else {
        assert(col_at(cs, s + 1) == col_at(cs, s) + cs[s].len());
        lemma_col_within_run(cs, s + 1, i);
        lemma_offset_monotone(cs, s + 1, i);
        lemma_sticky_exact(cs, s + 1, i);
    }
}

/// Sticky column law: let a position stand on boundary `i` with column `x`,
/// and let a line follow its line.  Moving down one line (land at that
/// line's start, sticky-walk up to `x`) reaches a column no greater than
/// `x`; when it reaches `x` exactly, moving up one line with the new column
/// as budget restores boundary `i` exactly; and when it falls short of `x`
/// the walk down was stopped by the end of the buffer, a line break, or a
/// next cluster that would overshoot `x`.
pub proof fn lemma_sticky_column(cs: Seq<Seq<u8>>, i: int)
    requires
        wf_clusters(cs),
        0 <= i < cs.len(),
        is_line_break(cs[next_line(cs, i) - 1]),
    ensures
        ({
            let x = col_at(cs, i);
            let h = next_line(cs, i);
            let down = sticky_target(cs, h, x);
            let up = sticky_target(cs, lines_up(cs, down, 1), col_at(cs, down));
            &&& col_at(cs, down) <= x
            &&& (col_at(cs, down) == x ==> up == i)
            &&& (col_at(cs, down) < x ==> down == cs.len() || is_line_break(cs[down])
                || col_at(cs, down) + cs[down].len() > x)
        }),
{
    let x = col_at(cs, i);
    let h = next_line(cs, i);
    let down = sticky_target(cs, h, x);
    lemma_col_le_offset(cs, i);
    lemma_next_line_bounds(cs, i);
    assert(col_at(cs, h) == 0);
    lemma_sticky_shape(cs, h, x);
    assert(h >= i + 1) by {
        if !is_line_break(cs[i]) {
            lemma_next_line_bounds(cs, i + 1);
        }
    }
    if col_at(cs, down) == x {
        lemma_line_start_no_break(cs, i);
        lemma_next_line_no_break(cs, i);
        let s0 = line_start(cs, i);
        assert forall|k: int| s0 <= k < h - 1 implies !is_line_break(cs[k]) by {
            if k < i {
            } else {
                assert(i <= k < next_line(cs, i));
            }
        }
        lemma_line_start_stable(cs, s0, h - 1);
        lemma_line_start_break(cs, i);
        assert(line_start(cs, s0) == s0);
        assert(line_start(cs, h - 1) == s0);
        lemma_line_start_stable(cs, h, down);
        assert(line_start(cs, down) == line_start(cs, h));
        assert(line_start(cs, h) == h);
        reveal_with_fuel(lines_up, 3);
        assert(lines_up(cs, down, 1) == line_up(cs, down));
        assert(line_up(cs, down) == s0);
        assert(col_at(cs, s0) == 0);
        lemma_sticky_exact(cs, s0, i);
    }
}

} // verus!

