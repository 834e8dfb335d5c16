//! The boundary scanner: a flood fill over one horizontal band of the
//! image that evaluates the kernel only near iteration-count
//! discontinuities and fills the uniform interior from the left.
//!
//! Every pixel the scanner evaluates is proved to hold the exact
//! silent-mode kernel value; after the final fill-forward pass every
//! pixel either holds its exact value or copies its left neighbour, and
//! every pixel on the band's border holds its exact value.  The finished
//! grid also carries a flood-fill closure certificate (`band_grid_ok`):
//! the set of cells the scan queued covers the whole border, is exact,
//! and is closed under count discontinuities and their corners, so the
//! scan never stops on a discontinuity it has reached.

use vstd::prelude::*;

verus! {

use std::collections::VecDeque;

use crate::mandelbrot::Mandelbrot;
use vstd::arithmetic::div_mod::lemma_div_is_ordered;
use vstd::arithmetic::div_mod::lemma_div_multiples_vanish;
use vstd::arithmetic::div_mod::lemma_fundamental_div_mod;
use vstd::arithmetic::div_mod::lemma_fundamental_div_mod_converse;
use vstd::arithmetic::div_mod::lemma_mod_bound;
use vstd::pervasive::VecAdditionalExecFns;

/// Number of `false` entries in a sequence of flags.
pub open spec fn count_false(s: Seq<bool>) -> int
    decreases s.len(),
{
    if s.len() == 0 {
        0
    } else {
        count_false(s.drop_last()) + if s.last() {
            0int
        } else {
            1int
        }
    }
}

proof fn lemma_count_false_nonneg(s: Seq<bool>)
    ensures
        count_false(s) >= 0,
    decreases s.len(),
{
    if s.len() > 0 {
        lemma_count_false_nonneg(s.drop_last());
    }
}

proof fn lemma_count_false_update(s: Seq<bool>, i: int)
    requires
        0 <= i < s.len(),
        !s[i],
    ensures
        count_false(s.update(i, true)) == count_false(s) - 1,
    decreases s.len(),
{
    let t = s.update(i, true);
    if i == s.len() - 1 {
        assert(t.drop_last() =~= s.drop_last());
    } else {
        lemma_count_false_update(s.drop_last(), i);
        assert(t.drop_last() =~= s.drop_last().update(i, true));
        assert(t.last() == s.last());
    }
}

/// A vector of `n` copies of one value.
fn filled<T: Copy>(n: usize, value: T) -> (r: Vec<T>)
    ensures
        r@.len() == n,
        forall|i: int| 0 <= i < n ==> r@[i] == value,
{
    let mut r: Vec<T> = Vec::new();
    let mut i: usize = 0;
    while i < n
        invariant
            i <= n,
            r@.len() == i,
            forall|j: int| 0 <= j < i ==> r@[j] == value,
        decreases n - i,
    {
        r.push(value);
        i = i + 1;
    }
    r
}

/// A pixel of row `yy`, column `xx` lies inside the band `[s, e)`.
proof fn lemma_cell_in_band(yy: int, xx: int, s: int, e: int, ww: int)
    requires
        0 <= s <= yy < e,
        0 <= xx < ww,
    ensures
        s * ww <= yy * ww + xx < e * ww,
{
    assert(s * ww <= yy * ww + xx) by (nonlinear_arith)
        requires
            0 <= s <= yy,
            0 <= xx,
            ww > 0,
    ;
    assert(yy * ww + xx < e * ww) by (nonlinear_arith)
        requires
            yy < e,
            xx < ww,
            ww > 0,
    ;
}

/// Local band coordinates agree with global ones.
proof fn lemma_local_global(g: int, s: int, ww: int)
    requires
        ww > 0,
        0 <= s,
        s * ww <= g,
    ensures
        (g - s * ww) % ww == g % ww,
        (g - s * ww) / ww == g / ww - s,
{
    let li = g - s * ww;
    lemma_fundamental_div_mod(li, ww);
    lemma_mod_bound(li, ww);
    assert(g == (li / ww + s) * ww + li % ww) by (nonlinear_arith)
        requires
            li == g - s * ww,
            li == ww * (li / ww) + li % ww,
    ;
    lemma_fundamental_div_mod_converse(g, ww, li / ww + s, li % ww);
}

/// The exact silent-mode kernel value of local cell `li` of the band of
/// `m` that starts at image row `start`.
pub open spec fn band_exact(m: Mandelbrot, start: int, li: int) -> usize {
    m.spec_count_at(li % m.spec_width(), start + li / m.spec_width())
}

/// Local cell `q` is an in-band 4-neighbour of `p` whose exact count
/// differs from `p`'s: the discontinuities the scan must chase.
pub open spec fn differing_neighbor(m: Mandelbrot, start: int, end: int, p: int, q: int) -> bool {
    let w = m.spec_width();
    let size = (end - start) * w;
    &&& 0 <= p < size
    &&& 0 <= q < size
    &&& ((q == p - 1 && p % w != 0) || (q == p + 1 && p % w != w - 1) || q == p - w || q == p
        + w)
    &&& band_exact(m, start, q) != band_exact(m, start, p)
}

/// Local cell `d` is an in-band diagonal neighbour of `p` next to an
/// orthogonal neighbour whose count differs from `p`'s: the corner
/// propagation that keeps one-pixel boundaries from leaking.
pub open spec fn corner_trigger(m: Mandelbrot, start: int, end: int, p: int, d: int) -> bool {
    let w = m.spec_width();
    let size = (end - start) * w;
    &&& 0 <= p < size
    &&& 0 <= d < size
    &&& {
        ||| (d == p - w - 1 && p % w != 0 && p - w >= 0 && (differing_neighbor(m, start, end, p, p
            - 1) || differing_neighbor(m, start, end, p, p - w)))
        ||| (d == p - w + 1 && p % w != w - 1 && p - w >= 0 && (differing_neighbor(
            m,
            start,
            end,
            p,
            p + 1,
        ) || differing_neighbor(m, start, end, p, p - w)))
        ||| (d == p + w - 1 && p % w != 0 && p + w < size && (differing_neighbor(m, start, end, p, p
            - 1) || differing_neighbor(m, start, end, p, p + w)))
        ||| (d == p + w + 1 && p % w != w - 1 && p + w < size && (differing_neighbor(
            m,
            start,
            end,
            p,
            p + 1,
        ) || differing_neighbor(m, start, end, p, p + w)))
    }
}

/// A flood-fill closure certificate for a finished count grid: a set of
/// cells that covers the whole band border, holds exact kernel values,
/// and is closed under count discontinuities and their corners — the
/// scan never stops on a discontinuity it has reached.
pub open spec fn scan_closed(
    m: Mandelbrot,
    start: int,
    end: int,
    data: Seq<usize>,
    l: Seq<bool>,
) -> bool {
    let w = m.spec_width();
    let size = (end - start) * w;
    &&& l.len() == size
    &&& data.len() == size
    &&& (forall|li: int|
        0 <= li < size && (li % w == 0 || li % w == w - 1 || li / w == 0 || li / w == end - start
            - 1) ==> #[trigger] l[li])
    &&& (forall|li: int|
        0 <= li < size ==> (#[trigger] l[li] ==> data[li] == band_exact(m, start, li)))
    &&& (forall|p: int, q: int|
        #[trigger] differing_neighbor(m, start, end, p, q) && l[p] ==> l[q])
    &&& (forall|p: int, d: int| #[trigger] corner_trigger(m, start, end, p, d) && l[p] ==> l[d])
}

/// What the scanner guarantees of its finished grid: some flood-fill
/// closure certificate exists for it, and every cell either holds its
/// exact count or copies its left neighbour.
pub open spec fn band_grid_ok(m: Mandelbrot, start: int, end: int, data: Seq<usize>) -> bool {
    &&& data.len() == (end - start) * m.spec_width()
    &&& (exists|l: Seq<bool>| scan_closed(m, start, end, data, l))
    &&& (forall|li: int|
        0 <= li < data.len() ==> #[trigger] data[li] == band_exact(m, start, li) || (li >= 1
            && data[li] == data[li - 1]))
}

/// The per-band working set: memoized iteration counts, the queued and
/// loaded flags, and the pending-pixel queue of global indices.
pub struct BoundaryScanner<'a> {
    pub mandelbrot: &'a Mandelbrot,
    pub start: usize,
    pub end: usize,
    pub data: Vec<usize>,
    pub queued: Vec<bool>,
    pub loaded: Vec<bool>,
    pub queue: VecDeque<usize>,
}

impl<'a> BoundaryScanner<'a> {
    pub open spec fn w(&self) -> int {
        self.mandelbrot.spec_width()
    }

    pub open spec fn size(&self) -> int {
        (self.end - self.start) * self.w()
    }

    /// A global pixel index belonging to this band.
    pub open spec fn in_band(&self, g: int) -> bool {
        self.start * self.w() <= g < self.end * self.w()
    }

    /// Column of a local index.
    pub open spec fn lx(&self, li: int) -> int {
        li % self.w()
    }

    /// Image row of a local index.
    pub open spec fn ly(&self, li: int) -> int {
        self.start + li / self.w()
    }

    /// The exact silent-mode kernel value of the pixel at a local index.
    pub open spec fn exact(&self, li: int) -> usize {
        self.mandelbrot.spec_count_at(self.lx(li), self.ly(li))
    }

    /// A pixel on one of the band's four border edges.
    pub open spec fn border(&self, li: int) -> bool {
        self.lx(li) == 0 || self.lx(li) == self.w() - 1 || self.ly(li) == self.start || self.ly(
            li,
        ) == self.end - 1
    }

    pub open spec fn wf(&self) -> bool {
        &&& self.mandelbrot.wf()
        &&& self.start < self.end
        &&& self.end <= self.mandelbrot.spec_height()
        &&& self.data.len() == self.size()
        &&& self.queued.len() == self.size()
        &&& self.loaded.len() == self.size()
        &&& forall|j: int|
            0 <= j < self.queue@.len() ==> self.in_band(#[trigger] self.queue@[j] as int)
    }

    /// Every pixel marked loaded holds its exact kernel value.
    pub open spec fn loaded_exact(&self) -> bool {
        forall|li: int|
            0 <= li < self.size() ==> (#[trigger] self.loaded@[li] ==> self.data@[li] == self.exact(
                li,
            ))
    }

    /// The band, the viewport and the tuning are those of `other`.
    pub open spec fn same_band(&self, other: &Self) -> bool {
        &&& self.mandelbrot == other.mandelbrot
        &&& self.start == other.start
        &&& self.end == other.end
    }

    /// The global index of local cell `li` is still waiting in the queue.
    pub open spec fn pending(&self, li: int) -> bool {
        exists|j: int|
            0 <= j < self.queue@.len() && #[trigger] self.queue@[j] as int == self.start
                * self.w() + li
    }

    pub fn new(mandelbrot: &'a Mandelbrot, start: usize, end: usize) -> (r: Self)
        requires
            mandelbrot.wf(),
            start < end,
            end <= mandelbrot.spec_height(),
        ensures
            r.wf(),
            r.loaded_exact(),
            r.mandelbrot == mandelbrot,
            r.start == start,
            r.end == end,
            r.queue@.len() == 0,
            forall|li: int| 0 <= li < r.size() ==> !r.loaded@[li],
            forall|li: int| 0 <= li < r.size() ==> !r.queued@[li],
            forall|li: int| 0 <= li < r.size() ==> r.data@[li] == 0,
    {
        let width = mandelbrot.width();
        let height = end - start;
        proof {
            assert(height * width <= 4096 * 4096 && height * width == (end - start)
                * mandelbrot.spec_width()) by (nonlinear_arith)
                requires
                    height == end - start,
                    width == mandelbrot.spec_width(),
                    0 < height <= 4096,
                    0 < width <= 4096,
            ;
        }
        let size = height * width;
        let queue_size = (width + height) * 2;
        BoundaryScanner {
            mandelbrot,
            start,
            end,
            data: filled(size, 0usize),
            queued: filled(size, false),
            loaded: filled(size, false),
            queue: VecDeque::with_capacity(queue_size),
        }
    }

    /// The band-local index of a global pixel index.
    fn local_index(&self, index: usize) -> (r: usize)
        requires
            self.wf(),
            self.in_band(index as int),
        ensures
            r == index - self.start * self.w(),
            r < self.size(),
    {
        let w = self.mandelbrot.width();
        proof {
            assert(self.start * self.w() <= 4096 * 4096 && (self.end - self.start) * self.w()
                <= 4096 * 4096) by (nonlinear_arith)
                requires
                    0 <= self.start < self.end <= 4096,
                    0 < self.w() <= 4096,
            ;
            assert(index - self.start * self.w() < (self.end - self.start) * self.w())
                by (nonlinear_arith)
                requires
                    index < self.end * self.w(),
            ;
        }
        index - self.start * w
    }

    /// Queues a pixel for scanning unless it is already pending.
    fn add_queue(&mut self, index: usize)
        requires
            old(self).wf(),
            old(self).in_band(index as int),
        ensures
            final(self).wf(),
            final(self).same_band(old(self)),
            final(self).data == old(self).data,
            final(self).loaded == old(self).loaded,
            final(self).queued@.len() == old(self).queued@.len(),
            forall|li: int|
                0 <= li < final(self).size() ==> (old(self).queued@[li] ==> #[trigger] final(self).queued@[li]),
            final(self).queued@[index - final(self).start * final(self).w()],
            final(self).queue@.len() >= old(self).queue@.len(),
            forall|j: int| 0 <= j < old(self).queue@.len() ==> final(self).queue@[j] == old(self).queue@[j],
            final(self).queue@.len() + count_false(final(self).queued@) == old(self).queue@.len() + count_false(
                old(self).queued@,
            ),
            old(self).queued@[index - old(self).start * old(self).w()] ==> *final(self) == *old(
                self,
            ),
            !old(self).queued@[index - old(self).start * old(self).w()] ==> final(self).queued@
                == old(self).queued@.update(index - old(self).start * old(self).w(), true)
                && final(self).queue@ == old(self).queue@.push(index),
            forall|li: int| old(self).pending(li) ==> #[trigger] final(self).pending(li),
            forall|li: int|
                0 <= li < final(self).size() && !old(self).queued@[li] && #[trigger] final(self).queued@[li]
                    ==> final(self).pending(li),
    {
        let ghost pre = *self;
        let li = self.local_index(index);
        if self.queued[li] {
            return ;
        }
        proof {
            lemma_count_false_update(self.queued@, li as int);
        }
        self.queued.set(li, true);
        self.queue.push_back(index);
        proof {
            assert forall|lj: int| pre.pending(lj) implies self.pending(lj) by {
                let j = choose|j: int|
                    0 <= j < pre.queue@.len() && pre.queue@[j] as int == pre.start * pre.w() + lj;
                assert(self.queue@[j] == pre.queue@[j]);
            }
            assert forall|lj: int|
                0 <= lj < self.size() && !pre.queued@[lj] && #[trigger] self.queued@[lj] implies self.pending(
                lj,
            ) by {
                assert(lj == li as int);
                assert(self.queue@[self.queue@.len() - 1] == index);
                assert(index as int == self.start * self.w() + li);
            }
        }
    }

    /// The memoized silent-mode kernel value of a pixel, evaluating it on
    /// first use.
    fn load(&mut self, index: usize) -> (r: usize)
        requires
            old(self).wf(),
            old(self).loaded_exact(),
            old(self).in_band(index as int),
        ensures
            final(self).wf(),
            final(self).loaded_exact(),
            final(self).same_band(old(self)),
            final(self).queued == old(self).queued,
            final(self).queue == old(self).queue,
            r == final(self).exact(index - final(self).start * final(self).w()),
            final(self).loaded@[index - final(self).start * final(self).w()],
            final(self).loaded@.len() == old(self).loaded@.len(),
            final(self).data@.len() == old(self).data@.len(),
            forall|lj: int|
                0 <= lj < final(self).size() && lj != index - final(self).start * final(self).w() ==> final(self).loaded@[lj]
                    == old(self).loaded@[lj] && final(self).data@[lj] == old(self).data@[lj],
            forall|lj: int|
                0 <= lj < final(self).size() ==> (old(self).loaded@[lj] ==> #[trigger] final(self).loaded@[lj]
                    && final(self).data@[lj] == old(self).data@[lj]),
    {
        let li = self.local_index(index);
        proof {
            let w = self.w();
            lemma_mod_bound(index as int, w);
            lemma_fundamental_div_mod(index as int, w);
            lemma_div_multiples_vanish(self.start as int, w);
            lemma_div_is_ordered(self.start as int * w, index as int, w);
            assert(self.start as int * w == w * self.start as int) by (nonlinear_arith);
            assert(self.end as int * w == w * self.end as int) by (nonlinear_arith);
            vstd::arithmetic::div_mod::lemma_multiply_divide_lt(index as int, w, self.end as int);
            lemma_local_global(index as int, self.start as int, w);
        }
        if self.loaded[li] {
            return self.data[li];
        }
        let w = self.mandelbrot.width();
        let x = index % w;
        let y = index / w;
        let result = self.mandelbrot.count_at(x, y);
        self.loaded.set(li, true);
        self.data.set(li, result);
        result
    }

    /// Queues the neighbours the scan's comparisons selected: each
    /// differing in-band 4-neighbour, and each diagonal corner next to a
    /// found discontinuity — and nothing else.
    #[verifier::rlimit(100)]
    #[verifier::spinoff_prover]
    fn enqueue_neighbors(
        &mut self,
        index: usize,
        ll: bool,
        rr: bool,
        uu: bool,
        dd: bool,
        l: bool,
        r: bool,
        u: bool,
        d: bool,
    )
        requires
            old(self).wf(),
            old(self).in_band(index as int),
            ll == ((index as int - old(self).start * old(self).w()) % old(self).w() != 0),
            rr == ((index as int - old(self).start * old(self).w()) % old(self).w() != old(
                self,
            ).w() - 1),
            uu == (index as int - old(self).start * old(self).w() - old(self).w() >= 0),
            dd == (index as int - old(self).start * old(self).w() + old(self).w() < old(
                self,
            ).size()),
            l == differing_neighbor(
                *old(self).mandelbrot,
                old(self).start as int,
                old(self).end as int,
                index as int - old(self).start * old(self).w(),
                index as int - old(self).start * old(self).w() - 1,
            ),
            r == differing_neighbor(
                *old(self).mandelbrot,
                old(self).start as int,
                old(self).end as int,
                index as int - old(self).start * old(self).w(),
                index as int - old(self).start * old(self).w() + 1,
            ),
            u == differing_neighbor(
                *old(self).mandelbrot,
                old(self).start as int,
                old(self).end as int,
                index as int - old(self).start * old(self).w(),
                index as int - old(self).start * old(self).w() - old(self).w(),
            ),
            d == differing_neighbor(
                *old(self).mandelbrot,
                old(self).start as int,
                old(self).end as int,
                index as int - old(self).start * old(self).w(),
                index as int - old(self).start * old(self).w() + old(self).w(),
            ),
        ensures
            final(self).wf(),
            final(self).same_band(old(self)),
            final(self).data == old(self).data,
            final(self).loaded == old(self).loaded,
            final(self).queued@.len() == old(self).queued@.len(),
            forall|li: int|
                0 <= li < final(self).size() ==> (old(self).queued@[li] ==> #[trigger] final(self).queued@[li]),
            forall|j: int|
                0 <= j < old(self).queue@.len() ==> final(self).queue@[j] == old(self).queue@[j],
            final(self).queue@.len() >= old(self).queue@.len(),
            final(self).queue@.len() + count_false(final(self).queued@) == old(self).queue@.len()
                + count_false(old(self).queued@),
            forall|q: int|
                #[trigger] differing_neighbor(
                    *old(self).mandelbrot,
                    old(self).start as int,
                    old(self).end as int,
                    index as int - old(self).start * old(self).w(),
                    q,
                ) ==> final(self).queued@[q],
            forall|c: int|
                #[trigger] corner_trigger(
                    *old(self).mandelbrot,
                    old(self).start as int,
                    old(self).end as int,
                    index as int - old(self).start * old(self).w(),
                    c,
                ) ==> final(self).queued@[c],
            forall|li: int|
                0 <= li < final(self).size() && !old(self).queued@[li] && #[trigger] final(self).queued@[li]
                    ==> differing_neighbor(
                    *old(self).mandelbrot,
                    old(self).start as int,
                    old(self).end as int,
                    index as int - old(self).start * old(self).w(),
                    li,
                ) || corner_trigger(
                    *old(self).mandelbrot,
                    old(self).start as int,
                    old(self).end as int,
                    index as int - old(self).start * old(self).w(),
                    li,
                ),
            forall|j: int|
                old(self).queue@.len() <= j < final(self).queue@.len()
                    ==> !old(self).queued@[#[trigger] final(self).queue@[j] as int - old(
                    self,
                ).start * old(self).w()],
            forall|li: int| old(self).pending(li) ==> #[trigger] final(self).pending(li),
            forall|li: int|
                0 <= li < final(self).size() && !old(self).queued@[li] && #[trigger] final(self).queued@[li]
                    ==> final(self).pending(li),
    {
        let w = self.mandelbrot.width();
        let ghost m0 = *self.mandelbrot;
        let ghost s0 = self.start as int;
        let ghost e0 = self.end as int;
        let ghost ww = self.w();
        let ghost lp = index as int - s0 * ww;
        let ghost size = (e0 - s0) * ww;
        let ghost q0 = self.queued@;
        let ghost len0 = self.queue@.len() as int;
        proof {
            lemma_mod_bound(lp, ww);
            lemma_fundamental_div_mod(lp, ww);
            assert(0 <= lp < size) by (nonlinear_arith)
                requires
                    s0 * ww <= index as int,
                    (index as int) < e0 * ww,
                    lp == index as int - s0 * ww,
                    size == (e0 - s0) * ww,
            ;
            assert(lp % ww != ww - 1 ==> lp + 1 < size) by (nonlinear_arith)
                requires
                    lp == ww * (lp / ww) + lp % ww,
                    0 <= lp % ww < ww,
                    0 <= lp < size,
                    size == (e0 - s0) * ww,
                    ww > 0,
            ;
            assert(lp % ww != ww - 1 && lp + ww < size ==> lp + ww + 1 < size)
                by (nonlinear_arith)
                requires
                    lp == ww * (lp / ww) + lp % ww,
                    0 <= lp % ww < ww,
                    0 <= lp < size,
                    size == (e0 - s0) * ww,
                    ww > 0,
            ;
            assert(lp % ww != 0 && lp - ww >= 0 ==> lp - ww - 1 >= 0) by (nonlinear_arith)
                requires
                    lp == ww * (lp / ww) + lp % ww,
                    0 <= lp % ww < ww,
                    ww > 0,
            ;
            assert(s0 * ww + size == e0 * ww) by (nonlinear_arith)
                requires
                    size == (e0 - s0) * ww,
            ;
            assert(2 <= ww <= 4096);
            assert(e0 * ww <= 4096 * 4096) by (nonlinear_arith)
                requires
                    0 < e0 <= 4096,
                    0 < ww <= 4096,
            ;
        }
        if l {
            self.add_queue(index - 1);
        }
        proof {
            assert(forall|li: int|
                0 <= li < self.size() && !q0[li] && #[trigger] self.queued@[li] ==> (li == lp - 1
                    && l));
        }
        if r {
            self.add_queue(index + 1);
        }
        proof {
            assert(forall|li: int|
                0 <= li < self.size() && !q0[li] && #[trigger] self.queued@[li] ==> (li == lp - 1
                    && l) || (li == lp + 1 && r));
        }
        if u {
            self.add_queue(index - w);
        }
        proof {
            assert(forall|li: int|
                0 <= li < self.size() && !q0[li] && #[trigger] self.queued@[li] ==> (li == lp - 1
                    && l) || (li == lp + 1 && r) || (li == lp - ww && u));
        }
        if d {
            self.add_queue(index + w);
        }
        proof {
            assert(forall|li: int|
                0 <= li < self.size() && !q0[li] && #[trigger] self.queued@[li] ==> (li == lp - 1
                    && l) || (li == lp + 1 && r) || (li == lp - ww && u) || (li == lp + ww && d));
        }
        if (uu && ll) && (l || u) {
            self.add_queue(index - w - 1);
        }
        proof {
            assert(forall|li: int|
                0 <= li < self.size() && !q0[li] && #[trigger] self.queued@[li] ==> (li == lp - 1
                    && l) || (li == lp + 1 && r) || (li == lp - ww && u) || (li == lp + ww && d)
                    || (li == lp - ww - 1 && (uu && ll) && (l || u)));
        }
        if (uu && rr) && (r || u) {
            self.add_queue(index - w + 1);
        }
        proof {
            assert(forall|li: int|
                0 <= li < self.size() && !q0[li] && #[trigger] self.queued@[li] ==> (li == lp - 1
                    && l) || (li == lp + 1 && r) || (li == lp - ww && u) || (li == lp + ww && d)
                    || (li == lp - ww - 1 && (uu && ll) && (l || u)) || (li == lp - ww + 1 && (uu
                    && rr) && (r || u)));
        }
        if (dd && ll) && (l || d) {
            self.add_queue(index + w - 1);
        }
        let ghost q7 = self.queued@;
        proof {
            assert(forall|li: int|
                0 <= li < self.size() && !q0[li] && #[trigger] self.queued@[li] ==> (li == lp - 1
                    && l) || (li == lp + 1 && r) || (li == lp - ww && u) || (li == lp + ww && d)
                    || (li == lp - ww - 1 && (uu && ll) && (l || u)) || (li == lp - ww + 1 && (uu
                    && rr) && (r || u)) || (li == lp + ww - 1 && (dd && ll) && (l || d)));
        }
        if (dd && rr) && (r || d) {
            self.add_queue(index + w + 1);
        }
        proof {
            assert forall|li: int|
                0 <= li < self.size() && !q0[li] && #[trigger] self.queued@[li] implies (li == lp
                - 1 && l) || (li == lp + 1 && r) || (li == lp - ww && u) || (li == lp + ww && d)
                || (li == lp - ww - 1 && (uu && ll) && (l || u)) || (li == lp - ww + 1 && (uu
                && rr) && (r || u)) || (li == lp + ww - 1 && (dd && ll) && (l || d)) || (li == lp
                + ww + 1 && (dd && rr) && (r || d)) by {
                if q7[li] {
                } else {
                    assert(li == lp + ww + 1 && (dd && rr) && (r || d));
                }
            }
            // every selected target is justified, and every justified
            // target was selected
            assert forall|q: int| #[trigger] differing_neighbor(m0, s0, e0, lp, q) implies self.queued@[q] by {
                if q == lp - 1 && lp % ww != 0 {
                    assert(l);
                    assert(self.queued@[lp - 1]);
                } else if q == lp + 1 && lp % ww != ww - 1 {
                    assert(r);
                    assert(self.queued@[lp + 1]);
                } else if q == lp - ww {
                    assert(u);
                    assert(self.queued@[lp - ww]);
                } else {
                    assert(q == lp + ww);
                    assert(d);
                    assert(self.queued@[lp + ww]);
                }
            }
            assert forall|c: int| #[trigger] corner_trigger(m0, s0, e0, lp, c) implies self.queued@[c] by {
                if c == lp - ww - 1 && lp % ww != 0 && lp - ww >= 0 {
                    assert(l || u);
                    assert(self.queued@[lp - ww - 1]);
                } else if c == lp - ww + 1 && lp % ww != ww - 1 && lp - ww >= 0 {
                    assert(r || u);
                    assert(self.queued@[lp - ww + 1]);
                } else if c == lp + ww - 1 && lp % ww != 0 && lp + ww < size {
                    assert(l || d);
                    assert(self.queued@[lp + ww - 1]);
                } else {
                    assert(c == lp + ww + 1 && lp % ww != ww - 1 && lp + ww < size);
                    assert(r || d);
                    assert(self.queued@[lp + ww + 1]);
                }
            }
            assert(l ==> differing_neighbor(m0, s0, e0, lp, lp - 1));
            assert(r ==> differing_neighbor(m0, s0, e0, lp, lp + 1));
            assert(u ==> differing_neighbor(m0, s0, e0, lp, lp - ww));
            assert(d ==> differing_neighbor(m0, s0, e0, lp, lp + ww));
            assert((uu && ll) && (l || u) ==> corner_trigger(m0, s0, e0, lp, lp - ww - 1));
            assert((uu && rr) && (r || u) ==> corner_trigger(m0, s0, e0, lp, lp - ww + 1));
            assert((dd && ll) && (l || d) ==> corner_trigger(m0, s0, e0, lp, lp + ww - 1));
            assert((dd && rr) && (r || d) ==> corner_trigger(m0, s0, e0, lp, lp + ww + 1));
        }
    }

    /// Scans one pixel: loads it and its in-band 4-neighbours, queues any
    /// neighbour whose value differs, and queues the diagonal corners
    /// adjacent to a found discontinuity.
    #[verifier::rlimit(100)]
    #[verifier::spinoff_prover]
    fn scan(&mut self, index: usize)
        requires
            old(self).wf(),
            old(self).loaded_exact(),
            old(self).in_band(index as int),
        ensures
            final(self).wf(),
            final(self).loaded_exact(),
            final(self).same_band(old(self)),
            forall|lj: int|
                0 <= lj < final(self).size() ==> (old(self).loaded@[lj] ==> #[trigger] final(self).loaded@[lj]
                    && final(self).data@[lj] == old(self).data@[lj]),
            final(self).queue@.len() + count_false(final(self).queued@) == old(self).queue@.len() + count_false(
                old(self).queued@,
            ),
            forall|li: int|
                0 <= li < final(self).size() ==> (old(self).queued@[li] ==> #[trigger] final(self).queued@[li]),
            forall|j: int| 0 <= j < old(self).queue@.len() ==> final(self).queue@[j] == old(self).queue@[j],
            final(self).queue@.len() >= old(self).queue@.len(),
            final(self).loaded@[index - old(self).start * old(self).w()],
            // every differing in-band 4-neighbour of the scanned pixel is queued afterward
            forall|q: int|
                #[trigger] differing_neighbor(
                    *old(self).mandelbrot,
                    old(self).start as int,
                    old(self).end as int,
                    index - old(self).start * old(self).w(),
                    q,
                ) ==> final(self).queued@[q],
            // corner propagation: a diagonal next to a found discontinuity is queued
            forall|d: int|
                #[trigger] corner_trigger(
                    *old(self).mandelbrot,
                    old(self).start as int,
                    old(self).end as int,
                    index - old(self).start * old(self).w(),
                    d,
                ) ==> final(self).queued@[d],
            // and nothing else is newly queued
            forall|li: int|
                0 <= li < final(self).size() && !old(self).queued@[li] && #[trigger] final(self).queued@[li]
                    ==> differing_neighbor(
                    *old(self).mandelbrot,
                    old(self).start as int,
                    old(self).end as int,
                    index - old(self).start * old(self).w(),
                    li,
                ) || corner_trigger(
                    *old(self).mandelbrot,
                    old(self).start as int,
                    old(self).end as int,
                    index - old(self).start * old(self).w(),
                    li,
                ),
            // pixels pushed onto the queue were not queued before the call
            forall|j: int|
                old(self).queue@.len() <= j < final(self).queue@.len()
                    ==> !old(self).queued@[#[trigger] final(self).queue@[j] as int - old(
                    self,
                ).start * old(self).w()],
            forall|li: int| old(self).pending(li) ==> #[trigger] final(self).pending(li),
            forall|li: int|
                0 <= li < final(self).size() && !old(self).queued@[li] && #[trigger] final(self).queued@[li]
                    ==> final(self).pending(li),
    {
        let w = self.mandelbrot.width();
        let x = index % w;
        let y = index / w;
        proof {
            let ww = self.w();
            lemma_mod_bound(index as int, ww);
            lemma_fundamental_div_mod(index as int, ww);
            lemma_div_multiples_vanish(self.start as int, ww);
            lemma_div_is_ordered(self.start as int * ww, index as int, ww);
            assert(self.start as int * ww == ww * self.start as int) by (nonlinear_arith);
            assert(self.end as int * ww == ww * self.end as int) by (nonlinear_arith);
            vstd::arithmetic::div_mod::lemma_multiply_divide_lt(index as int, ww, self.end as int);
            assert(self.end as int * ww <= 4096 * 4096) by (nonlinear_arith)
                requires
                    0 < self.end as int <= 4096,
                    0 < ww <= 4096,
            ;
            lemma_local_global(index as int, self.start as int, ww);
            // the local cell and its row/column against the band
            let lp = index as int - self.start as int * ww;
            assert(lp % ww == index as int % ww);
            assert(lp / ww == index as int / ww - self.start as int);
            lemma_fundamental_div_mod(lp, ww);
            assert(lp < (self.end - self.start) as int * ww) by (nonlinear_arith)
                requires
                    (index as int) < (self.end as int) * ww,
                    lp == index as int - self.start as int * ww,
            ;
        }
        let ghost gy = index as int / self.w();
        let ghost gx = index as int % self.w();
        proof {
            assert(index as int == gy * self.w() + gx) by (nonlinear_arith)
                requires
                    index as int == self.w() * gy + gx,
            ;
        }
        let center = self.load(index);
        let ll = x > 0;
        let rr = x + 1 < w;
        let uu = y > self.start;
        let dd = y + 1 < self.end;
        proof {
            let ww = self.w();
            if ll {
                lemma_cell_in_band(gy, gx - 1, self.start as int, self.end as int, ww);
                assert(index as int - 1 == gy * ww + (gx - 1));
            }
            if rr {
                lemma_cell_in_band(gy, gx + 1, self.start as int, self.end as int, ww);
                assert(index as int + 1 == gy * ww + (gx + 1));
            }
            if uu {
                lemma_cell_in_band(gy - 1, gx, self.start as int, self.end as int, ww);
                assert(index as int - ww == (gy - 1) * ww + gx) by (nonlinear_arith)
                    requires
                        index as int == gy * ww + gx,
                ;
            }
            if dd {
                lemma_cell_in_band(gy + 1, gx, self.start as int, self.end as int, ww);
                assert(index as int + ww == (gy + 1) * ww + gx) by (nonlinear_arith)
                    requires
                        index as int == gy * ww + gx,
                ;
            }
            if uu && ll {
                lemma_cell_in_band(gy - 1, gx - 1, self.start as int, self.end as int, ww);
                assert(index as int - ww - 1 == (gy - 1) * ww + (gx - 1)) by (nonlinear_arith)
                    requires
                        index as int == gy * ww + gx,
                ;
            }
            if uu && rr {
                lemma_cell_in_band(gy - 1, gx + 1, self.start as int, self.end as int, ww);
                assert(index as int - ww + 1 == (gy - 1) * ww + (gx + 1)) by (nonlinear_arith)
                    requires
                        index as int == gy * ww + gx,
                ;
            }
            if dd && ll {
                lemma_cell_in_band(gy + 1, gx - 1, self.start as int, self.end as int, ww);
                assert(index as int + ww - 1 == (gy + 1) * ww + (gx - 1)) by (nonlinear_arith)
                    requires
                        index as int == gy * ww + gx,
                ;
            }
            if dd && rr {
                lemma_cell_in_band(gy + 1, gx + 1, self.start as int, self.end as int, ww);
                assert(index as int + ww + 1 == (gy + 1) * ww + (gx + 1)) by (nonlinear_arith)
                    requires
                        index as int == gy * ww + gx,
                ;
            }
        }
        let l = if ll {
            self.load(index - 1) != center
        } else {
            false
        };
        let r = if rr {
            self.load(index + 1) != center
        } else {
            false
        };
        let u = if uu {
            self.load(index - w) != center
        } else {
            false
        };
        let d = if dd {
            self.load(index + w) != center
        } else {
            false
        };
        proof {
            let m0 = *self.mandelbrot;
            let s0 = self.start as int;
            let e0 = self.end as int;
            let ww = self.w();
            let lp = index as int - s0 * ww;
            let size = (e0 - s0) * ww;
            assert(lp % ww == gx && lp / ww == gy - s0);
            assert(0 <= lp < size) by (nonlinear_arith)
                requires
                    s0 * ww <= index as int,
                    (index as int) < e0 * ww,
                    lp == index as int - s0 * ww,
                    size == (e0 - s0) * ww,
            ;
            assert(lp == ww * (lp / ww) + lp % ww);
            assert(ll == (lp % ww != 0));
            assert(rr == (lp % ww != ww - 1));
            assert(uu == (lp - ww >= 0)) by (nonlinear_arith)
                requires
                    lp == ww * (gy - s0) + lp % ww,
                    0 <= lp % ww < ww,
                    uu == (gy > s0),
                    gy >= s0,
                    ww > 0,
            ;
            assert(dd == (lp + ww < size)) by (nonlinear_arith)
                requires
                    lp == ww * (gy - s0) + lp % ww,
                    0 <= lp % ww < ww,
                    dd == (gy + 1 < e0),
                    size == (e0 - s0) * ww,
                    s0 <= gy && gy < e0,
                    ww > 0,
            ;
            assert(lp % ww != ww - 1 ==> lp + 1 < size) by (nonlinear_arith)
                requires
                    lp == ww * (lp / ww) + lp % ww,
                    0 <= lp % ww < ww,
                    0 <= lp < size,
                    size == (e0 - s0) * ww,
                    ww > 0,
            ;
            assert(l == differing_neighbor(m0, s0, e0, lp, lp - 1));
            assert(r == differing_neighbor(m0, s0, e0, lp, lp + 1));
            assert(u == differing_neighbor(m0, s0, e0, lp, lp - ww));
            assert(d == differing_neighbor(m0, s0, e0, lp, lp + ww));
        }
        self.enqueue_neighbors(index, ll, rr, uu, dd, l, r, u, d);
    }

    /// Runs the whole band on a freshly built scanner: seeds and
    /// evaluates the border, drains the scan queue, then fills
    /// never-evaluated interior pixels from their left neighbour (and
    /// only from the left).  The finished grid carries a flood-fill
    /// closure certificate: the set of queued cells covers the border,
    /// holds exact values, and is closed under count discontinuities.
    #[verifier::rlimit(100)]
    #[verifier::spinoff_prover]
    pub fn run(&mut self)
        requires
            old(self).wf(),
            old(self).loaded_exact(),
            old(self).queue@.len() == 0,
            forall|li: int| 0 <= li < old(self).size() ==> !old(self).queued@[li],
        ensures
            final(self).wf(),
            final(self).same_band(old(self)),
            final(self).data@.len() == final(self).size(),
            forall|li: int|
                0 <= li < final(self).size() && final(self).border(li) ==> final(self).data@[li]
                    == final(self).exact(li),
            forall|li: int|
                0 <= li < final(self).size() ==> final(self).data@[li] == final(self).exact(li) || (
                li >= 1 && final(self).data@[li] == final(self).data@[li - 1]),
            band_grid_ok(
                *final(self).mandelbrot,
                final(self).start as int,
                final(self).end as int,
                final(self).data@,
            ),
    {
        let w = self.mandelbrot.width();
        proof {
            assert(self.end as int * self.w() <= 4096 * 4096 && self.start as int * self.w()
                <= 4096 * 4096 && self.size() <= 4096 * 4096) by (nonlinear_arith)
                requires
                    0 <= (self.start as int) && (self.start as int) < (self.end as int) && (self.end as int) <= 4096,
                    0 < self.w() <= 4096,
                    self.size() == (self.end - self.start) * self.w(),
            ;
        }
        // Seed and evaluate the left and right columns of every row.
        let mut y = self.start;
        while y < self.end
            invariant
                self.wf(),
                self.loaded_exact(),
                self.same_band(old(self)),
                w == self.w(),
                self.start <= y <= self.end,
                forall|li: int|
                    0 <= li < self.size() && (self.lx(li) == 0 || self.lx(li) == self.w() - 1)
                        && self.ly(li) < y ==> #[trigger] self.loaded@[li],
                forall|li: int|
                    0 <= li < self.size() && (self.lx(li) == 0 || self.lx(li) == self.w() - 1)
                        && self.ly(li) < y ==> #[trigger] self.queued@[li],
                forall|li: int|
                    0 <= li < self.size() && #[trigger] self.queued@[li] ==> self.pending(li),
            decreases self.end - y,
        {
            proof {
                lemma_cell_in_band(y as int, 0, self.start as int, self.end as int, self.w());
                lemma_cell_in_band(
                    y as int,
                    self.w() - 1,
                    self.start as int,
                    self.end as int,
                    self.w(),
                );
                assert(y as int * self.w() <= 4096 * 4096 && self.start as int * self.w() <= y
                    as int * self.w()) by (nonlinear_arith)
                    requires
                        0 <= (self.start as int) && (self.start as int) <= (y as int) && (y as int) <= 4096,
                        0 < self.w() <= 4096,
                ;
            }
            self.add_queue(y * w);
            self.load(y * w);
            self.add_queue(y * w + (w - 1));
            self.load(y * w + (w - 1));
            proof {
                let ww = self.w();
                let s0 = self.start as int;
                assert forall|li: int|
                    0 <= li < self.size() && (self.lx(li) == 0 || self.lx(li) == ww - 1)
                        && self.ly(li) < y + 1 implies #[trigger] self.loaded@[li] by {
                    if self.ly(li) == y as int {
                        lemma_fundamental_div_mod(li, ww);
                        assert(li == ww * (y as int - s0) + self.lx(li));
                        assert(ww * (y as int - s0) == y as int * ww - s0 * ww)
                            by (nonlinear_arith);
                        if self.lx(li) == 0 {
                            assert(li == y as int * ww - s0 * ww);
                        } else {
                            assert(li == y as int * ww + (ww - 1) - s0 * ww);
                        }
                    }
                }
                assert forall|li: int|
                    0 <= li < self.size() && (self.lx(li) == 0 || self.lx(li) == ww - 1)
                        && self.ly(li) < y + 1 implies #[trigger] self.queued@[li] by {
                    if self.ly(li) == y as int {
                        lemma_fundamental_div_mod(li, ww);
                        assert(li == ww * (y as int - s0) + self.lx(li));
                        assert(ww * (y as int - s0) == y as int * ww - s0 * ww)
                            by (nonlinear_arith);
                        if self.lx(li) == 0 {
                            assert(li == y as int * ww - s0 * ww);
                        } else {
                            assert(li == y as int * ww + (ww - 1) - s0 * ww);
                        }
                    }
                }
            }
            y = y + 1;
        }
        proof {
            let ww = self.w();
            assert forall|li: int| 0 <= li < self.size() implies self.ly(li) < self.end as int by {
                assert(self.size() == ww * (self.end as int - self.start as int))
                    by (nonlinear_arith)
                    requires
                        self.size() == (self.end - self.start) * ww,
                ;
                vstd::arithmetic::div_mod::lemma_multiply_divide_lt(
                    li,
                    ww,
                    self.end as int - self.start as int,
                );
            }
        }
        // Seed and evaluate the top and bottom rows.
        let mut x: usize = 1;
        while x < w - 1
            invariant
                self.wf(),
                self.loaded_exact(),
                self.same_band(old(self)),
                w == self.w(),
                1 <= x <= self.w() - 1,
                forall|li: int|
                    0 <= li < self.size() && (self.lx(li) == 0 || self.lx(li) == self.w() - 1)
                        ==> #[trigger] self.loaded@[li],
                forall|li: int|
                    0 <= li < self.size() && (self.lx(li) == 0 || self.lx(li) == self.w() - 1)
                        ==> #[trigger] self.queued@[li],
                forall|li: int|
                    0 <= li < self.size() && (self.ly(li) == self.start || self.ly(li) == self.end
                        - 1) && self.lx(li) < x ==> #[trigger] self.loaded@[li],
                forall|li: int|
                    0 <= li < self.size() && (self.ly(li) == self.start || self.ly(li) == self.end
                        - 1) && self.lx(li) < x ==> #[trigger] self.queued@[li],
                forall|li: int|
                    0 <= li < self.size() && #[trigger] self.queued@[li] ==> self.pending(li),
            decreases self.w() - 1 - x,
        {
            proof {
                lemma_cell_in_band(
                    self.start as int,
                    x as int,
                    self.start as int,
                    self.end as int,
                    self.w(),
                );
                lemma_cell_in_band(
                    self.end as int - 1,
                    x as int,
                    self.start as int,
                    self.end as int,
                    self.w(),
                );
                assert((self.end as int - 1) * self.w() == self.end as int * self.w() - self.w())
                    by (nonlinear_arith);
                assert(2 <= self.w() <= 4096);
                assert(self.start as int * self.w() <= 4096 * 4096 && self.end as int * self.w()
                    <= 4096 * 4096) by (nonlinear_arith)
                    requires
                        0 <= (self.start as int) && (self.start as int) < (self.end as int) && (
                        self.end as int) <= 4096,
                        0 < self.w() <= 4096,
                ;
            }
            self.add_queue(self.start * w + x);
            self.load(self.start * w + x);
            self.add_queue((self.end - 1) * w + x);
            self.load((self.end - 1) * w + x);
            proof {
                let ww = self.w();
                let s0 = self.start as int;
                let e0 = self.end as int;
                assert forall|li: int|
                    0 <= li < self.size() && (self.ly(li) == s0 || self.ly(li) == e0 - 1)
                        && self.lx(li) < x + 1 implies #[trigger] self.loaded@[li] by {
                    if self.lx(li) == x as int {
                        lemma_fundamental_div_mod(li, ww);
                        if self.ly(li) == s0 {
                            assert(li == ww * 0 + x as int);
                            assert(li == s0 as int * ww + x - s0 * ww) by (nonlinear_arith)
                                requires
                                    li == x as int,
                            ;
                        } else {
                            assert(li == ww * (e0 - 1 - s0) + x);
                            assert(ww * (e0 - 1 - s0) == (e0 - 1) * ww - s0 * ww)
                                by (nonlinear_arith);
                        }
                    }
                }
                assert forall|li: int|
                    0 <= li < self.size() && (self.ly(li) == s0 || self.ly(li) == e0 - 1)
                        && self.lx(li) < x + 1 implies #[trigger] self.queued@[li] by {
                    if self.lx(li) == x as int {
                        lemma_fundamental_div_mod(li, ww);
                        if self.ly(li) == s0 {
                            assert(li == ww * 0 + x as int);
                            assert(li == s0 as int * ww + x - s0 * ww) by (nonlinear_arith)
                                requires
                                    li == x as int,
                            ;
                        } else {
                            assert(li == ww * (e0 - 1 - s0) + x);
                            assert(ww * (e0 - 1 - s0) == (e0 - 1) * ww - s0 * ww)
                                by (nonlinear_arith);
                        }
                    }
                }
            }
            x = x + 1;
        }
        proof {
            let ww = self.w();
            assert forall|li: int| 0 <= li < self.size() && self.border(li) implies self.loaded@[li]
                && self.data@[li] == self.exact(li) && self.queued@[li] by {
                lemma_mod_bound(li, ww);
            }
        }
        // Drain the queue: scan every pending pixel, tracking the
        // scanned set so the closure certificate can be assembled.
        let ghost m0 = *self.mandelbrot;
        let ghost s0 = self.start as int;
        let ghost e0 = self.end as int;
        let ghost size0 = self.size();
        let ghost mut scanned: Seq<bool> = Seq::new(size0 as nat, |i: int| false);
        loop
            invariant
                self.wf(),
                self.loaded_exact(),
                self.same_band(old(self)),
                w == self.w(),
                m0 == *self.mandelbrot,
                s0 == self.start as int,
                e0 == self.end as int,
                size0 == self.size(),
                scanned.len() == size0,
                forall|li: int|
                    0 <= li < size0 && self.border(li) ==> #[trigger] self.queued@[li],
                forall|li: int| 0 <= li < size0 && #[trigger] scanned[li] ==> self.loaded@[li],
                forall|p: int, q: int|
                    #[trigger] differing_neighbor(m0, s0, e0, p, q) && 0 <= p < size0 && scanned[p]
                        ==> self.queued@[q],
                forall|p: int, c: int|
                    #[trigger] corner_trigger(m0, s0, e0, p, c) && 0 <= p < size0 && scanned[p]
                        ==> self.queued@[c],
                forall|li: int|
                    0 <= li < size0 && #[trigger] self.queued@[li] ==> scanned[li] || self.pending(
                        li,
                    ),
            ensures
                self.wf(),
                self.loaded_exact(),
                self.same_band(old(self)),
                w == self.w(),
                m0 == *self.mandelbrot,
                s0 == self.start as int,
                e0 == self.end as int,
                size0 == self.size(),
                scanned.len() == size0,
                self.queue@.len() == 0,
                forall|li: int|
                    0 <= li < size0 && self.border(li) ==> #[trigger] self.queued@[li],
                forall|li: int| 0 <= li < size0 && #[trigger] scanned[li] ==> self.loaded@[li],
                forall|p: int, q: int|
                    #[trigger] differing_neighbor(m0, s0, e0, p, q) && 0 <= p < size0 && scanned[p]
                        ==> self.queued@[q],
                forall|p: int, c: int|
                    #[trigger] corner_trigger(m0, s0, e0, p, c) && 0 <= p < size0 && scanned[p]
                        ==> self.queued@[c],
                forall|li: int| 0 <= li < size0 && #[trigger] self.queued@[li] ==> scanned[li],
            decreases self.queue@.len() + count_false(self.queued@),
        {
            proof {
                lemma_count_false_nonneg(self.queued@);
            }
            let ghost pre_top = *self;
            let next = self.queue.pop_front();
            match next {
                None => {
                    proof {
                        assert(self.queue@.len() == 0);
                        assert forall|li: int|
                            0 <= li < size0 && #[trigger] self.queued@[li] implies scanned[li] by {
                            assert(!self.pending(li));
                        }
                    }
                    break ;
                },
                Some(index) => {
                    let ghost post_pop = *self;
                    let ghost lp = index as int - s0 * m0.spec_width();
                    self.scan(index);
                    proof {
                        scanned = scanned.update(lp, true);
                        assert(0 <= lp < size0) by (nonlinear_arith)
                            requires
                                s0 * m0.spec_width() <= index as int,
                                (index as int) < e0 * m0.spec_width(),
                                lp == index as int - s0 * m0.spec_width(),
                                size0 == (e0 - s0) * m0.spec_width(),
                        ;
                        assert forall|li: int|
                            0 <= li < size0 && #[trigger] scanned[li] implies self.loaded@[li] by {
                            if li != lp {
                                assert(post_pop.loaded@[li]);
                            }
                        }
                        assert forall|li: int|
                            0 <= li < size0 && #[trigger] self.queued@[li] implies scanned[li]
                            || self.pending(li) by {
                            if post_pop.queued@[li] {
                                if pre_top.pending(li) {
                                    let j = choose|j: int|
                                        0 <= j < pre_top.queue@.len() && pre_top.queue@[j] as int
                                            == pre_top.start * pre_top.w() + li;
                                    if j == 0 {
                                        assert(li == lp);
                                    } else {
                                        assert(post_pop.queue@[j - 1] == pre_top.queue@[j]);
                                        assert(self.queue@[j - 1] == post_pop.queue@[j - 1]);
                                        assert(self.pending(li));
                                    }
                                }
                            }
                        }
                        assert(index as int - post_pop.start * post_pop.w() == lp);
                        assert(*post_pop.mandelbrot == m0);
                        assert(post_pop.start as int == s0 && post_pop.end as int == e0);
                        assert forall|p: int, q: int|
                            #[trigger] differing_neighbor(m0, s0, e0, p, q) && 0 <= p < size0
                            && scanned[p] implies self.queued@[q] by {
                            if p != lp {
                                assert(post_pop.queued@[q]);
                            } else {
                                assert(differing_neighbor(
                                    *post_pop.mandelbrot,
                                    post_pop.start as int,
                                    post_pop.end as int,
                                    index as int - post_pop.start * post_pop.w(),
                                    q,
                                ));
                            }
                        }
                        assert forall|p: int, c: int|
                            #[trigger] corner_trigger(m0, s0, e0, p, c) && 0 <= p < size0
                            && scanned[p] implies self.queued@[c] by {
                            if p != lp {
                                assert(post_pop.queued@[c]);
                            } else {
                                assert(corner_trigger(
                                    *post_pop.mandelbrot,
                                    post_pop.start as int,
                                    post_pop.end as int,
                                    index as int - post_pop.start * post_pop.w(),
                                    c,
                                ));
                            }
                        }
                    }
                },
            }
        }
        // With the queue empty, every queued cell was scanned, so the
        // queued set is a closure certificate for the grid.
        proof {
            assert forall|li: int|
                0 <= li < size0 && #[trigger] self.queued@[li] implies self.loaded@[li]
                && self.data@[li] == self.exact(li) by {
                assert(scanned[li]);
            }
            assert forall|li: int|
                0 <= li < size0 && self.border(li) implies #[trigger] self.loaded@[li]
                && self.data@[li] == self.exact(li) by {
                assert(self.queued@[li]);
            }
            assert forall|li: int|
                0 <= li < size0 && (li % m0.spec_width() == 0 || li % m0.spec_width()
                    == m0.spec_width() - 1 || li / m0.spec_width() == 0 || li / m0.spec_width()
                    == e0 - s0 - 1) implies #[trigger] self.queued@[li] by {
                assert(self.border(li));
            }
            assert(scan_closed(m0, s0, e0, self.data@, self.queued@));
        }
        // Fill-forward: an unevaluated pixel takes its evaluated left
        // neighbour's value.
        proof {
            let ww = self.w();
            assert(self.start as int * ww + 1 <= self.end as int * ww - 1) by (nonlinear_arith)
                requires
                    0 <= (self.start as int) && (self.start as int) < (self.end as int),
                    2 <= ww,
            ;
            lemma_fundamental_div_mod_converse(0, ww, 0, 0);
            assert(self.lx(0) == 0);
            assert(self.size() >= 2) by (nonlinear_arith)
                requires
                    self.size() == (self.end - self.start) * self.w(),
                    0 <= (self.start as int) && (self.start as int) < (self.end as int),
                    2 <= self.w(),
            ;
            assert(self.border(0));
            assert(self.loaded@[0]);
            assert(self.data@[0] == self.exact(0));
            assert(self.end as int * ww <= 4096 * 4096 && self.start as int * ww <= 4096 * 4096)
                by (nonlinear_arith)
                requires
                    0 <= (self.start as int) && (self.start as int) < (self.end as int) && (
                    self.end as int) <= 4096,
                    0 < ww <= 4096,
            ;
        }
        let mut index = self.start * w;
        while index < self.end * w - 1
            invariant
                self.wf(),
                self.same_band(old(self)),
                w == self.w(),
                self.start * self.w() <= index <= self.end * self.w() - 1,
                self.end * self.w() <= 4096 * 4096,
                2 <= self.size(),
                m0 == *self.mandelbrot,
                s0 == self.start as int,
                e0 == self.end as int,
                size0 == self.size(),
                forall|li: int|
                    0 <= li < size0 && #[trigger] self.queued@[li] ==> self.loaded@[li]
                        && self.data@[li] == self.exact(li),
                forall|li: int|
                    0 <= li < size0 && self.border(li) ==> #[trigger] self.queued@[li],
                forall|p: int, q: int|
                    #[trigger] differing_neighbor(m0, s0, e0, p, q) && 0 <= p < size0
                        && self.queued@[p] ==> self.queued@[q],
                forall|p: int, c: int|
                    #[trigger] corner_trigger(m0, s0, e0, p, c) && 0 <= p < size0
                        && self.queued@[p] ==> self.queued@[c],
                forall|lj: int|
                    0 <= lj <= index - self.start * self.w() ==> #[trigger] self.loaded@[lj],
                forall|lj: int|
                    index - self.start * self.w() < lj < self.size() ==> (
                    #[trigger] self.loaded@[lj] ==> self.data@[lj] == self.exact(lj)),
                forall|lj: int|
                    0 <= lj <= index - self.start * self.w() ==> ((#[trigger] self.data@[lj])
                        == self.exact(lj) || (lj >= 1 && self.data@[lj] == self.data@[lj - 1])),
                forall|lj: int|
                    0 <= lj < self.size() && self.border(lj) ==> #[trigger] self.loaded@[lj]
                        && self.data@[lj] == self.exact(lj),
            decreases self.end * self.w() - 1 - index,
        {
            let li = self.local_index(index);
            proof {
                assert(index as int - self.start as int * self.w() < self.size() - 1)
                    by (nonlinear_arith)
                    requires
                        (index as int) < (self.end as int) * self.w() - 1,
                        self.size() == (self.end - self.start) * self.w(),
                ;
            }
            if self.loaded[li] && !self.loaded[li + 1] {
                proof {
                    assert(!self.queued@[li as int + 1]);
                    assert(!self.border(li as int + 1));
                }
                let ghost before = *self;
                let v = self.data[li];
                self.data.set(li + 1, v);
                self.loaded.set(li + 1, true);
                proof {
                    assert forall|lj: int|
                        0 <= lj < self.size() && self.border(lj) implies #[trigger] self.loaded@[lj]
                        && self.data@[lj] == self.exact(lj) by {
                        assert(self.mandelbrot == before.mandelbrot && self.start == before.start
                            && self.end == before.end);
                        assert(self.size() == before.size());
                        assert(self.border(lj) == before.border(lj));
                        assert(!before.border(li as int + 1));
                        assert(lj != li as int + 1);
                        assert(0 <= lj < before.size() && before.border(lj));
                        assert(before.loaded@[lj]);
                        assert(before.data@[lj] == before.exact(lj));
                        assert(self.exact(lj) == before.exact(lj));
                    }
                }
            }
            index = index + 1;
        }
        proof {
            assert(self.end as int * self.w() - 1 - self.start as int * self.w() == self.size()
                - 1) by (nonlinear_arith)
                requires
                    self.size() == (self.end - self.start) * self.w(),
            ;
            assert forall|li: int|
                0 <= li < self.size() && self.border(li) implies self.data@[li] == self.exact(
                li,
            ) by {
                assert(self.loaded@[li]);
            }
            assert forall|li: int|
                0 <= li < size0 && (li % m0.spec_width() == 0 || li % m0.spec_width()
                    == m0.spec_width() - 1 || li / m0.spec_width() == 0 || li / m0.spec_width()
                    == e0 - s0 - 1) implies #[trigger] self.queued@[li] by {
                assert(self.border(li));
            }
            assert(scan_closed(m0, s0, e0, self.data@, self.queued@));
            assert(band_grid_ok(m0, s0, e0, self.data@));
        }
    }
}

} // verus!
