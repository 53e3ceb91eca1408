use vstd::arithmetic::div_mod::lemma_fundamental_div_mod_converse;
use vstd::prelude::*;

use crate::guess::Guess;

verus! {

broadcast use vstd::std_specs::vec::axiom_spec_len;

/// Bounds and uniqueness of the three-dimensional linearization
/// `i * nw * np + w * np + p` on the grid `[0, np) x [0, nw) x [0, ni)`.
proof fn lemma_grid3_bound(np: int, nw: int, ni: int, p: int, w: int, i: int) by (nonlinear_arith)
    requires
        0 <= p < np,
        0 <= w < nw,
        0 <= i < ni,
    ensures
        0 <= i * nw,
        i * nw <= i * nw * np,
        0 <= w * np,
        0 <= i * nw * np + w * np + p < np * nw * ni,
{
}

/// The linearization `i * nw * np + w * np + p` is injective on the grid:
/// two triples with the same image are the same triple.
proof fn lemma_grid3_unique(
    np: int,
    nw: int,
    p1: int,
    w1: int,
    i1: int,
    p2: int,
    w2: int,
    i2: int,
)
    requires
        0 <= p1 < np,
        0 <= w1 < nw,
        0 <= i1,
        0 <= p2 < np,
        0 <= w2 < nw,
        0 <= i2,
        i1 * nw * np + w1 * np + p1 == i2 * nw * np + w2 * np + p2,
    ensures
        p1 == p2,
        w1 == w2,
        i1 == i2,
{
    let s = i1 * nw * np + w1 * np + p1;
    assert(s == (i1 * nw + w1) * np + p1 && s == (i2 * nw + w2) * np + p2)
        by (nonlinear_arith)
        requires
            s == i1 * nw * np + w1 * np + p1,
            s == i2 * nw * np + w2 * np + p2,
    ;
    assert(0 <= i1 * nw + w1 && 0 <= i2 * nw + w2) by (nonlinear_arith)
        requires
            0 <= w1,
            0 <= i1,
            0 <= nw,
            0 <= w2,
            0 <= i2,
    ;
    lemma_fundamental_div_mod_converse(s, np, i1 * nw + w1, p1);
    lemma_fundamental_div_mod_converse(s, np, i2 * nw + w2, p2);
    let q = i1 * nw + w1;
    lemma_fundamental_div_mod_converse(q, nw, i1, w1);
    lemma_fundamental_div_mod_converse(q, nw, i2, w2);
}

/// Bounds of the two-dimensional linearization `i * nw + w` on the grid
/// `[0, nw) x [0, ni)`.
proof fn lemma_grid2_bound(nw: int, ni: int, w: int, i: int) by (nonlinear_arith)
    requires
        0 <= w < nw,
        0 <= i < ni,
    ensures
        0 <= i * nw,
        0 <= i * nw + w < nw * ni,
{
}

/// The linearization `i * nw + w` is injective on the grid.
proof fn lemma_grid2_unique(nw: int, w1: int, i1: int, w2: int, i2: int)
    requires
        0 <= w1 < nw,
        0 <= i1,
        0 <= w2 < nw,
        0 <= i2,
        i1 * nw + w1 == i2 * nw + w2,
    ensures
        w1 == w2,
        i1 == i2,
{
    let s = i1 * nw + w1;
    lemma_fundamental_div_mod_converse(s, nw, i1, w1);
    lemma_fundamental_div_mod_converse(s, nw, i2, w2);
}

/// Per-(parameter, walker, iteration) sample history of an ensemble
/// sampler: one 64-bit sample word per triple, kept in one contiguous
/// buffer of length `nparams * nwalkers * niterations`, pre-sized at
/// construction and never resized.
///
/// A triple maps to the buffer through the fixed linearization
/// `iteration * nwalkers * nparams + walker * nparams + param`: all
/// parameters of one walker at one iteration are contiguous, then
/// walkers, then iterations.
#[derive(Debug, Default)]
pub struct Chain {
    pub data: Vec<u64>,
    pub nparams: usize,
    pub nwalkers: usize,
    pub niterations: usize,
}

impl View for Chain {
    type V = Seq<u64>;

    open spec fn view(&self) -> Seq<u64> {
        self.data@
    }
}

impl Chain {
    /// The backing buffer holds exactly one slot per (parameter, walker,
    /// iteration) triple.
    pub open spec fn wf(self) -> bool {
        self@.len() == (self.nparams as int) * (self.nwalkers as int) * (self.niterations as int)
    }

    /// The triple lies within the declared shape.
    pub open spec fn valid(self, p: int, w: int, i: int) -> bool {
        &&& 0 <= p < self.nparams
        &&& 0 <= w < self.nwalkers
        &&& 0 <= i < self.niterations
    }

    /// The fixed linearization of a triple into the backing buffer.
    pub open spec fn slot(self, p: int, w: int, i: int) -> int {
        i * (self.nwalkers as int) * (self.nparams as int) + w * (self.nparams as int) + p
    }

    /// Builds a chain of the given shape with every cell zero.
    pub fn new(nparams: usize, nwalkers: usize, niterations: usize) -> (chain: Chain)
        requires
            nparams * nwalkers <= usize::MAX,
            nparams * nwalkers * niterations <= usize::MAX,
        ensures
            chain.nparams == nparams,
            chain.nwalkers == nwalkers,
            chain.niterations == niterations,
            chain.wf(),
            forall|k: int| 0 <= k < chain@.len() ==> chain@[k] == 0u64,
    {
        let len = nparams * nwalkers * niterations;
        let data = vec![0u64; len];
        assert forall|k: int| 0 <= k < data@.len() implies data@[k] == 0u64 by {
            assert(cloned(0u64, data@[k]));
        }
        Chain { data, nparams, nwalkers, niterations }
    }

    /// Linear slot of a triple; always in range for a well-formed chain.
    pub fn index(&self, param_idx: usize, walker_idx: usize, iteration_idx: usize) -> (idx: usize)
        requires
            self.wf(),
            param_idx < self.nparams,
            walker_idx < self.nwalkers,
            iteration_idx < self.niterations,
        ensures
            idx == self.slot(param_idx as int, walker_idx as int, iteration_idx as int),
            idx < self@.len(),
    {
        proof {
            assert(self.data.len() == self.data@.len());
            lemma_grid3_bound(
                self.nparams as int,
                self.nwalkers as int,
                self.niterations as int,
                param_idx as int,
                walker_idx as int,
                iteration_idx as int,
            );
        }
        (iteration_idx * self.nwalkers * self.nparams) + (walker_idx * self.nparams) + param_idx
    }

    /// Reads the cell of one triple.
    pub fn get(&self, param_idx: usize, walker_idx: usize, iteration_idx: usize) -> (value: u64)
        requires
            self.wf(),
            param_idx < self.nparams,
            walker_idx < self.nwalkers,
            iteration_idx < self.niterations,
        ensures
            value == self@[self.slot(param_idx as int, walker_idx as int, iteration_idx as int)],
    {
        let idx = self.index(param_idx, walker_idx, iteration_idx);
        self.data[idx]
    }

    /// Writes one cell; every other slot of the buffer is untouched.
    pub fn set(&mut self, param_idx: usize, walker_idx: usize, iteration_idx: usize, value: u64)
        requires
            old(self).wf(),
            param_idx < old(self).nparams,
            walker_idx < old(self).nwalkers,
            iteration_idx < old(self).niterations,
        ensures
            final(self).nparams == old(self).nparams,
            final(self).nwalkers == old(self).nwalkers,
            final(self).niterations == old(self).niterations,
            final(self).wf(),
            final(self)@ == old(self)@.update(
                old(self).slot(param_idx as int, walker_idx as int, iteration_idx as int),
                value,
            ),
    {
        let idx = self.index(param_idx, walker_idx, iteration_idx);
        self.data[idx] = value;
    }

    /// Writes a full parameter vector for one walker at one iteration, as
    /// one cell write per parameter index in ascending order: the buffer
    /// becomes exactly `chain_after_sets`, so `newdata[p]` lands in the
    /// cell of parameter `p`. Cells of every other (walker, iteration)
    /// pair are untouched.
    pub fn set_params(&mut self, walker_idx: usize, iteration_idx: usize, newdata: &[u64])
        requires
            old(self).wf(),
            walker_idx < old(self).nwalkers,
            iteration_idx < old(self).niterations,
            newdata@.len() == old(self).nparams,
        ensures
            final(self).nparams == old(self).nparams,
            final(self).nwalkers == old(self).nwalkers,
            final(self).niterations == old(self).niterations,
            final(self).wf(),
            final(self)@ == chain_after_sets(
                *old(self),
                walker_idx as int,
                iteration_idx as int,
                newdata@,
                old(self).nparams as int,
            ),
            forall|p: int|
                0 <= p < old(self).nparams ==> final(self)@[old(self).slot(
                    p,
                    walker_idx as int,
                    iteration_idx as int,
                )] == newdata@[p],
            forall|p: int, w: int, i: int|
                old(self).valid(p, w, i) && !(w == walker_idx as int && i == iteration_idx as int)
                    ==> final(self)@[old(self).slot(p, w, i)] == old(self)@[old(self).slot(p, w, i)],
    {
        let ghost orig = *self;
        let mut p: usize = 0;
        while p < newdata.len()
            invariant
                self.wf(),
                self.nparams == orig.nparams,
                self.nwalkers == orig.nwalkers,
                self.niterations == orig.niterations,
                walker_idx < orig.nwalkers,
                iteration_idx < orig.niterations,
                newdata@.len() == orig.nparams,
                p <= newdata@.len(),
                self@.len() == orig@.len(),
                self@ == chain_after_sets(
                    orig,
                    walker_idx as int,
                    iteration_idx as int,
                    newdata@,
                    p as int,
                ),
                forall|q: int|
                    0 <= q < p ==> self@[orig.slot(q, walker_idx as int, iteration_idx as int)]
                        == newdata@[q],
                forall|q: int|
                    p <= q < orig.nparams ==> self@[orig.slot(
                        q,
                        walker_idx as int,
                        iteration_idx as int,
                    )] == orig@[orig.slot(q, walker_idx as int, iteration_idx as int)],
                forall|q: int, w: int, i: int|
                    orig.valid(q, w, i) && !(w == walker_idx as int && i == iteration_idx as int)
                        ==> self@[orig.slot(q, w, i)] == orig@[orig.slot(q, w, i)],
            decreases newdata@.len() - p,
        {
            let ghost prev = *self;
            let value = newdata[p];
            self.set(p, walker_idx, iteration_idx, value);
            proof {
                let wq = walker_idx as int;
                let iq = iteration_idx as int;
                let s0 = orig.slot(p as int, wq, iq);
                lemma_chain_slot_in_range(orig, p as int, wq, iq);
                assert(self@ == prev@.update(s0, value));
                assert(chain_after_sets(orig, wq, iq, newdata@, p + 1) == chain_after_sets(
                    orig,
                    wq,
                    iq,
                    newdata@,
                    p as int,
                ).update(s0, newdata@[p as int]));
                assert(self@ == chain_after_sets(orig, wq, iq, newdata@, p + 1));
                assert forall|q: int|
                    0 <= q < p + 1 implies self@[orig.slot(q, wq, iq)] == newdata@[q] by {
                    lemma_chain_slot_in_range(orig, q, wq, iq);
                    if q < p {
                        if orig.slot(q, wq, iq) == s0 {
                            lemma_chain_slot_injective(orig, q, wq, iq, p as int, wq, iq);
                        }
                        assert(self@[orig.slot(q, wq, iq)] == prev@.update(s0, value)[orig.slot(
                            q,
                            wq,
                            iq,
                        )]);
                    } else {
                        assert(self@[s0] == prev@.update(s0, value)[s0]);
                    }
                }
                assert forall|q: int|
                    p + 1 <= q < orig.nparams implies self@[orig.slot(q, wq, iq)] == orig@[orig.slot(
                    q,
                    wq,
                    iq,
                )] by {
                    lemma_chain_slot_in_range(orig, q, wq, iq);
                    if orig.slot(q, wq, iq) == s0 {
                        lemma_chain_slot_injective(orig, q, wq, iq, p as int, wq, iq);
                    }
                    assert(self@[orig.slot(q, wq, iq)] == prev@.update(s0, value)[orig.slot(
                        q,
                        wq,
                        iq,
                    )]);
                }
                assert forall|q: int, w: int, i: int|
                    orig.valid(q, w, i) && !(w == wq && i == iq) implies self@[orig.slot(q, w, i)]
                    == orig@[orig.slot(q, w, i)] by {
                    lemma_chain_slot_in_range(orig, q, w, i);
                    if orig.slot(q, w, i) == s0 {
                        lemma_chain_slot_injective(orig, q, w, i, p as int, wq, iq);
                    }
                    assert(self@[orig.slot(q, w, i)] == prev@.update(s0, value)[orig.slot(
                        q,
                        w,
                        i,
                    )]);
                }
            }
            p = p + 1;
        }
    }

    /// Flattens the whole history into one parameter vector per
    /// (iteration, walker) pair, iterations ascending as the outer order
    /// and walkers ascending within each iteration: entry `k` holds the
    /// vector of walker `k % nwalkers` at iteration `k / nwalkers`.
    pub fn flatchain(&self) -> (out: Vec<Guess>)
        requires
            self.wf(),
            self.niterations * self.nwalkers <= usize::MAX,
        ensures
            out@.len() == (self.niterations as int) * (self.nwalkers as int),
            forall|k: int|
                0 <= k < out@.len() ==> (#[trigger] out@[k]).values@.len() == self.nparams,
            forall|k: int, p: int|
                0 <= k < out@.len() && 0 <= p < self.nparams ==> #[trigger] out@[k].values@[p]
                    == self@[self.slot(
                    p,
                    k % (self.nwalkers as int),
                    k / (self.nwalkers as int),
                )],
    {
        let cap = self.niterations * self.nwalkers;
        let mut out: Vec<Guess> = Vec::with_capacity(cap);
        let mut iter: usize = 0;
        while iter < self.niterations
            invariant
                self.wf(),
                iter <= self.niterations,
                out@.len() == iter * (self.nwalkers as int),
                forall|k: int|
                    0 <= k < out@.len() ==> (#[trigger] out@[k]).values@.len() == self.nparams,
                forall|k: int, p: int|
                    0 <= k < out@.len() && 0 <= p < self.nparams ==> #[trigger] out@[k].values@[p]
                        == self@[self.slot(
                        p,
                        k % (self.nwalkers as int),
                        k / (self.nwalkers as int),
                    )],
            decreases self.niterations - iter,
        {
            let mut walker: usize = 0;
            while walker < self.nwalkers
                invariant
                    self.wf(),
                    iter < self.niterations,
                    walker <= self.nwalkers,
                    out@.len() == iter * (self.nwalkers as int) + walker,
                    forall|k: int|
                        0 <= k < out@.len() ==> (#[trigger] out@[k]).values@.len() == self.nparams,
                    forall|k: int, p: int|
                        0 <= k < out@.len() && 0 <= p < self.nparams ==> #[trigger] out@[k].values@[p]
                            == self@[self.slot(
                            p,
                            k % (self.nwalkers as int),
                            k / (self.nwalkers as int),
                        )],
                decreases self.nwalkers - walker,
            {
                let mut values: Vec<u64> = Vec::with_capacity(self.nparams);
                let mut q: usize = 0;
                while q < self.nparams
                    invariant
                        self.wf(),
                        iter < self.niterations,
                        walker < self.nwalkers,
                        q <= self.nparams,
                        values@.len() == q,
                        forall|p: int|
                            0 <= p < q ==> values@[p] == self@[self.slot(
                                p,
                                walker as int,
                                iter as int,
                            )],
                    decreases self.nparams - q,
                {
                    let v = self.get(q, walker, iter);
                    values.push(v);
                    q = q + 1;
                }
                proof {
                    let k0 = iter * (self.nwalkers as int) + walker;
                    lemma_fundamental_div_mod_converse(
                        k0,
                        self.nwalkers as int,
                        iter as int,
                        walker as int,
                    );
                }
                out.push(Guess { values });
                walker = walker + 1;
            }
            proof {
                assert((iter + 1) * (self.nwalkers as int) == iter * (self.nwalkers as int)
                    + self.nwalkers) by (nonlinear_arith);
            }
            iter = iter + 1;
        }
        out
    }
}

/// The buffer that `n` ascending single-cell writes leave behind: starting
/// from the buffer of `c`, for each parameter index `q` below `n` in turn,
/// `vals[q]` is written into the cell of (`q`, `w`, `i`).
pub open spec fn chain_after_sets(c: Chain, w: int, i: int, vals: Seq<u64>, n: int) -> Seq<u64>
    decreases n,
{
    if n <= 0 {
        c@
    } else {
        chain_after_sets(c, w, i, vals, n - 1).update(c.slot(n - 1, w, i), vals[n - 1])
    }
}

/// Law: the ascending single-cell writes of `vals[0..n]` into walker `w` at
/// iteration `i` leave `vals[p]` in the cell of each written parameter `p`
/// and every other valid cell as it was — so a bulk write is equivalent to
/// its per-cell writes in ascending order.
pub proof fn lemma_chain_after_sets(c: Chain, w: int, i: int, vals: Seq<u64>, n: int)
    requires
        c.wf(),
        0 <= w < c.nwalkers,
        0 <= i < c.niterations,
        vals.len() == c.nparams,
        0 <= n <= c.nparams,
    ensures
        chain_after_sets(c, w, i, vals, n).len() == c@.len(),
        forall|p: int|
            0 <= p < n ==> chain_after_sets(c, w, i, vals, n)[#[trigger] c.slot(p, w, i)]
                == vals[p],
        forall|p: int, w2: int, i2: int|
            c.valid(p, w2, i2) && (n <= p || w2 != w || i2 != i) ==> chain_after_sets(
                c,
                w,
                i,
                vals,
                n,
            )[#[trigger] c.slot(p, w2, i2)] == c@[c.slot(p, w2, i2)],
    decreases n,
{
    if n > 0 {
        lemma_chain_after_sets(c, w, i, vals, n - 1);
        lemma_chain_slot_in_range(c, n - 1, w, i);
        let prev = chain_after_sets(c, w, i, vals, n - 1);
        let cur = chain_after_sets(c, w, i, vals, n);
        let s0 = c.slot(n - 1, w, i);
        assert(cur == prev.update(s0, vals[n - 1]));
        assert forall|p: int| 0 <= p < n implies cur[#[trigger] c.slot(p, w, i)] == vals[p] by {
            lemma_chain_slot_in_range(c, p, w, i);
            if p < n - 1 {
                if c.slot(p, w, i) == s0 {
                    lemma_chain_slot_injective(c, p, w, i, n - 1, w, i);
                }
                assert(cur[c.slot(p, w, i)] == prev.update(s0, vals[n - 1])[c.slot(p, w, i)]);
            } else {
                assert(cur[s0] == prev.update(s0, vals[n - 1])[s0]);
            }
        }
        assert forall|p: int, w2: int, i2: int|
            c.valid(p, w2, i2) && (n <= p || w2 != w || i2 != i) implies cur[#[trigger] c.slot(
            p,
            w2,
            i2,
        )] == c@[c.slot(p, w2, i2)] by {
            lemma_chain_slot_in_range(c, p, w2, i2);
            if c.slot(p, w2, i2) == s0 {
                lemma_chain_slot_injective(c, p, w2, i2, n - 1, w, i);
            }
            assert(cur[c.slot(p, w2, i2)] == prev.update(s0, vals[n - 1])[c.slot(p, w2, i2)]);
        }
    }
}

/// Per-(walker, iteration) log-probability history of an ensemble sampler:
/// one 64-bit sample word per pair, kept in one contiguous buffer of length
/// `nwalkers * niterations`, pre-sized at construction and never resized.
///
/// A pair maps to the buffer through the fixed linearization
/// `iteration * nwalkers + walker`: the values of one iteration are
/// contiguous, walkers ascending, then iterations.
#[derive(Debug, Default)]
pub struct ProbStore {
    pub data: Vec<u64>,
    pub nwalkers: usize,
    pub niterations: usize,
}

impl View for ProbStore {
    type V = Seq<u64>;

    open spec fn view(&self) -> Seq<u64> {
        self.data@
    }
}

impl ProbStore {
    /// The backing buffer holds exactly one slot per (walker, iteration)
    /// pair.
    pub open spec fn wf(self) -> bool {
        self@.len() == (self.nwalkers as int) * (self.niterations as int)
    }

    /// The pair lies within the declared shape.
    pub open spec fn valid(self, w: int, i: int) -> bool {
        &&& 0 <= w < self.nwalkers
        &&& 0 <= i < self.niterations
    }

    /// The fixed linearization of a pair into the backing buffer.
    pub open spec fn slot(self, w: int, i: int) -> int {
        i * (self.nwalkers as int) + w
    }

    /// Builds a store of the given shape with every cell zero.
    pub fn new(nwalkers: usize, niterations: usize) -> (store: ProbStore)
        requires
            nwalkers * niterations <= usize::MAX,
        ensures
            store.nwalkers == nwalkers,
            store.niterations == niterations,
            store.wf(),
            forall|k: int| 0 <= k < store@.len() ==> store@[k] == 0u64,
    {
        let len = nwalkers * niterations;
        let data = vec![0u64; len];
        assert forall|k: int| 0 <= k < data@.len() implies data@[k] == 0u64 by {
            assert(cloned(0u64, data@[k]));
        }
        ProbStore { data, nwalkers, niterations }
    }

    /// Linear slot of a pair; always in range for a well-formed store.
    pub fn index(&self, walker_idx: usize, iteration_idx: usize) -> (idx: usize)
        requires
            self.wf(),
            walker_idx < self.nwalkers,
            iteration_idx < self.niterations,
        ensures
            idx == self.slot(walker_idx as int, iteration_idx as int),
            idx < self@.len(),
    {
        proof {
            assert(self.data.len() == self.data@.len());
            lemma_grid2_bound(
                self.nwalkers as int,
                self.niterations as int,
                walker_idx as int,
                iteration_idx as int,
            );
        }
        (iteration_idx * self.nwalkers) + walker_idx
    }

    /// Reads the cell of one pair.
    pub fn get(&self, walker_idx: usize, iteration_idx: usize) -> (value: u64)
        requires
            self.wf(),
            walker_idx < self.nwalkers,
            iteration_idx < self.niterations,
        ensures
            value == self@[self.slot(walker_idx as int, iteration_idx as int)],
    {
        let idx = self.index(walker_idx, iteration_idx);
        self.data[idx]
    }

    /// Writes one cell; every other slot of the buffer is untouched.
    pub fn set(&mut self, walker_idx: usize, iteration_idx: usize, value: u64)
        requires
            old(self).wf(),
            walker_idx < old(self).nwalkers,
            iteration_idx < old(self).niterations,
        ensures
            final(self).nwalkers == old(self).nwalkers,
            final(self).niterations == old(self).niterations,
            final(self).wf(),
            final(self)@ == old(self)@.update(
                old(self).slot(walker_idx as int, iteration_idx as int),
                value,
            ),
    {
        let idx = self.index(walker_idx, iteration_idx);
        self.data[idx] = value;
    }

    /// Writes one value per walker for one iteration, as one cell write per
    /// walker index in ascending order: the buffer becomes exactly
    /// `prob_after_sets`, so `newdata[w]` lands in the cell of walker `w`.
    /// Cells of every other iteration are untouched.
    pub fn set_probs(&mut self, iteration_idx: usize, newdata: &[u64])
        requires
            old(self).wf(),
            iteration_idx < old(self).niterations,
            newdata@.len() == old(self).nwalkers,
        ensures
            final(self).nwalkers == old(self).nwalkers,
            final(self).niterations == old(self).niterations,
            final(self).wf(),
            final(self)@ == prob_after_sets(
                *old(self),
                iteration_idx as int,
                newdata@,
                old(self).nwalkers as int,
            ),
            forall|w: int|
                0 <= w < old(self).nwalkers ==> final(self)@[old(self).slot(
                    w,
                    iteration_idx as int,
                )] == newdata@[w],
            forall|w: int, i: int|
                old(self).valid(w, i) && i != iteration_idx as int ==> final(self)@[old(self).slot(
                    w,
                    i,
                )] == old(self)@[old(self).slot(w, i)],
    {
        let ghost orig = *self;
        let mut w: usize = 0;
        while w < newdata.len()
            invariant
                self.wf(),
                self.nwalkers == orig.nwalkers,
                self.niterations == orig.niterations,
                iteration_idx < orig.niterations,
                newdata@.len() == orig.nwalkers,
                w <= newdata@.len(),
                self@.len() == orig@.len(),
                self@ == prob_after_sets(orig, iteration_idx as int, newdata@, w as int),
                forall|v: int|
                    0 <= v < w ==> self@[orig.slot(v, iteration_idx as int)] == newdata@[v],
                forall|v: int|
                    w <= v < orig.nwalkers ==> self@[orig.slot(v, iteration_idx as int)]
                        == orig@[orig.slot(v, iteration_idx as int)],
                forall|v: int, i: int|
                    orig.valid(v, i) && i != iteration_idx as int ==> self@[orig.slot(v, i)]
                        == orig@[orig.slot(v, i)],
            decreases newdata@.len() - w,
        {
            let ghost prev = *self;
            let value = newdata[w];
            self.set(w, iteration_idx, value);
            proof {
                let iq = iteration_idx as int;
                let s0 = orig.slot(w as int, iq);
                lemma_prob_slot_in_range(orig, w as int, iq);
                assert(self@ == prev@.update(s0, value));
                assert(prob_after_sets(orig, iq, newdata@, w + 1) == prob_after_sets(
                    orig,
                    iq,
                    newdata@,
                    w as int,
                ).update(s0, newdata@[w as int]));
                assert(self@ == prob_after_sets(orig, iq, newdata@, w + 1));
                assert forall|v: int|
                    0 <= v < w + 1 implies self@[orig.slot(v, iq)] == newdata@[v] by {
                    lemma_prob_slot_in_range(orig, v, iq);
                    if v < w {
                        if orig.slot(v, iq) == s0 {
                            lemma_prob_slot_injective(orig, v, iq, w as int, iq);
                        }
                        assert(self@[orig.slot(v, iq)] == prev@.update(s0, value)[orig.slot(
                            v,
                            iq,
                        )]);
                    } else {
                        assert(self@[s0] == prev@.update(s0, value)[s0]);
                    }
                }
                assert forall|v: int|
                    w + 1 <= v < orig.nwalkers implies self@[orig.slot(v, iq)] == orig@[orig.slot(
                    v,
                    iq,
                )] by {
                    lemma_prob_slot_in_range(orig, v, iq);
                    if orig.slot(v, iq) == s0 {
                        lemma_prob_slot_injective(orig, v, iq, w as int, iq);
                    }
                    assert(self@[orig.slot(v, iq)] == prev@.update(s0, value)[orig.slot(v, iq)]);
                }
                assert forall|v: int, i: int|
                    orig.valid(v, i) && i != iq implies self@[orig.slot(v, i)] == orig@[orig.slot(
                    v,
                    i,
                )] by {
                    lemma_prob_slot_in_range(orig, v, i);
                    if orig.slot(v, i) == s0 {
                        lemma_prob_slot_injective(orig, v, i, w as int, iq);
                    }
                    assert(self@[orig.slot(v, i)] == prev@.update(s0, value)[orig.slot(v, i)]);
                }
            }
            w = w + 1;
        }
    }

    /// Flattens the whole history into one value per (iteration, walker)
    /// pair, iterations ascending as the outer order and walkers ascending
    /// within each iteration: entry `k` holds the value of walker
    /// `k % nwalkers` at iteration `k / nwalkers`.
    pub fn flatprob(&self) -> (out: Vec<u64>)
        requires
            self.wf(),
            self.niterations * self.nwalkers <= usize::MAX,
        ensures
            out@.len() == (self.niterations as int) * (self.nwalkers as int),
            forall|k: int|
                0 <= k < out@.len() ==> #[trigger] out@[k] == self@[self.slot(
                    k % (self.nwalkers as int),
                    k / (self.nwalkers as int),
                )],
    {
        let cap = self.niterations * self.nwalkers;
        let mut out: Vec<u64> = Vec::with_capacity(cap);
        let mut iter: usize = 0;
        while iter < self.niterations
            invariant
                self.wf(),
                iter <= self.niterations,
                out@.len() == iter * (self.nwalkers as int),
                forall|k: int|
                    0 <= k < out@.len() ==> #[trigger] out@[k] == self@[self.slot(
                        k % (self.nwalkers as int),
                        k / (self.nwalkers as int),
                    )],
            decreases self.niterations - iter,
        {
            let mut walker: usize = 0;
            while walker < self.nwalkers
                invariant
                    self.wf(),
                    iter < self.niterations,
                    walker <= self.nwalkers,
                    out@.len() == iter * (self.nwalkers as int) + walker,
                    forall|k: int|
                        0 <= k < out@.len() ==> #[trigger] out@[k] == self@[self.slot(
                            k % (self.nwalkers as int),
                            k / (self.nwalkers as int),
                        )],
                decreases self.nwalkers - walker,
            {
                let v = self.get(walker, iter);
                proof {
                    let k0 = iter * (self.nwalkers as int) + walker;
                    lemma_fundamental_div_mod_converse(
                        k0,
                        self.nwalkers as int,
                        iter as int,
                        walker as int,
                    );
                }
                out.push(v);
                walker = walker + 1;
            }
            proof {
                assert((iter + 1) * (self.nwalkers as int) == iter * (self.nwalkers as int)
                    + self.nwalkers) by (nonlinear_arith);
            }
            iter = iter + 1;
        }
        out
    }
}

/// The buffer that `n` ascending single-cell writes leave behind: starting
/// from the buffer of `s`, for each walker index `v` below `n` in turn,
/// `vals[v]` is written into the cell of (`v`, `i`).
pub open spec fn prob_after_sets(s: ProbStore, i: int, vals: Seq<u64>, n: int) -> Seq<u64>
    decreases n,
{
    if n <= 0 {
        s@
    } else {
        prob_after_sets(s, i, vals, n - 1).update(s.slot(n - 1, i), vals[n - 1])
    }
}

/// Law: the ascending single-cell writes of `vals[0..n]` into iteration `i`
/// leave `vals[w]` in the cell of each written walker `w` and every other
/// valid cell as it was — so a bulk write is equivalent to its per-cell
/// writes in ascending order.
pub proof fn lemma_prob_after_sets(s: ProbStore, i: int, vals: Seq<u64>, n: int)
    requires
        s.wf(),
        0 <= i < s.niterations,
        vals.len() == s.nwalkers,
        0 <= n <= s.nwalkers,
    ensures
        prob_after_sets(s, i, vals, n).len() == s@.len(),
        forall|w: int|
            0 <= w < n ==> prob_after_sets(s, i, vals, n)[#[trigger] s.slot(w, i)] == vals[w],
        forall|w: int, i2: int|
            s.valid(w, i2) && (n <= w || i2 != i) ==> prob_after_sets(s, i, vals, n)[
                #[trigger] s.slot(w, i2)
            ] == s@[s.slot(w, i2)],
    decreases n,
{
    if n > 0 {
        lemma_prob_after_sets(s, i, vals, n - 1);
        lemma_prob_slot_in_range(s, n - 1, i);
        let prev = prob_after_sets(s, i, vals, n - 1);
        let cur = prob_after_sets(s, i, vals, n);
        let s0 = s.slot(n - 1, i);
        assert(cur == prev.update(s0, vals[n - 1]));
        assert forall|w: int| 0 <= w < n implies cur[#[trigger] s.slot(w, i)] == vals[w] by {
            lemma_prob_slot_in_range(s, w, i);
            if w < n - 1 {
                if s.slot(w, i) == s0 {
                    lemma_prob_slot_injective(s, w, i, n - 1, i);
                }
                assert(cur[s.slot(w, i)] == prev.update(s0, vals[n - 1])[s.slot(w, i)]);
            } else {
                assert(cur[s0] == prev.update(s0, vals[n - 1])[s0]);
            }
        }
        assert forall|w: int, i2: int|
            s.valid(w, i2) && (n <= w || i2 != i) implies cur[#[trigger] s.slot(w, i2)]
            == s@[s.slot(w, i2)] by {
            lemma_prob_slot_in_range(s, w, i2);
            if s.slot(w, i2) == s0 {
                lemma_prob_slot_injective(s, w, i2, n - 1, i);
            }
            assert(cur[s.slot(w, i2)] == prev.update(s0, vals[n - 1])[s.slot(w, i2)]);
        }
    }
}

/// Law: a probability store's linearization maps every valid pair into the
/// buffer, `0 <= slot(w, i) < nwalkers * niterations`.
pub proof fn lemma_prob_slot_in_range(s: ProbStore, w: int, i: int)
    requires
        s.valid(w, i),
    ensures
        0 <= s.slot(w, i) < (s.nwalkers as int) * (s.niterations as int),
{
    lemma_grid2_bound(s.nwalkers as int, s.niterations as int, w, i);
}

/// Law: a probability store's linearization is injective — distinct valid
/// pairs occupy distinct slots.
pub proof fn lemma_prob_slot_injective(s: ProbStore, w1: int, i1: int, w2: int, i2: int)
    requires
        s.valid(w1, i1),
        s.valid(w2, i2),
        s.slot(w1, i1) == s.slot(w2, i2),
    ensures
        w1 == w2,
        i1 == i2,
{
    lemma_grid2_unique(s.nwalkers as int, w1, i1, w2, i2);
}

/// Law: writing one cell of a probability store and reading it back yields
/// the written word, while every other valid cell reads as it did before
/// the write.
pub proof fn lemma_prob_write_read(
    s: ProbStore,
    w: int,
    i: int,
    value: u64,
    w2: int,
    i2: int,
)
    requires
        s.wf(),
        s.valid(w, i),
        s.valid(w2, i2),
    ensures
        s@.update(s.slot(w, i), value)[s.slot(w, i)] == value,
        (w2, i2) != (w, i) ==> s@.update(s.slot(w, i), value)[s.slot(w2, i2)] == s@[s.slot(
            w2,
            i2,
        )],
{
    lemma_prob_slot_in_range(s, w, i);
    lemma_prob_slot_in_range(s, w2, i2);
    if (w2, i2) != (w, i) && s.slot(w2, i2) == s.slot(w, i) {
        lemma_prob_slot_injective(s, w, i, w2, i2);
    }
}

/// Law: a chain's linearization maps every valid triple into the buffer,
/// `0 <= slot(p, w, i) < nparams * nwalkers * niterations`.
pub proof fn lemma_chain_slot_in_range(c: Chain, p: int, w: int, i: int)
    requires
        c.valid(p, w, i),
    ensures
        0 <= c.slot(p, w, i) < (c.nparams as int) * (c.nwalkers as int) * (c.niterations as int),
{
    lemma_grid3_bound(c.nparams as int, c.nwalkers as int, c.niterations as int, p, w, i);
}

/// Law: a chain's linearization is injective — distinct valid triples
/// occupy distinct slots.
pub proof fn lemma_chain_slot_injective(
    c: Chain,
    p1: int,
    w1: int,
    i1: int,
    p2: int,
    w2: int,
    i2: int,
)
    requires
        c.valid(p1, w1, i1),
        c.valid(p2, w2, i2),
        c.slot(p1, w1, i1) == c.slot(p2, w2, i2),
    ensures
        p1 == p2,
        w1 == w2,
        i1 == i2,
{
    lemma_grid3_unique(c.nparams as int, c.nwalkers as int, p1, w1, i1, p2, w2, i2);
}

/// Law: writing one cell of a chain and reading it back yields the written
/// word, while every other valid cell reads as it did before the write.
pub proof fn lemma_chain_write_read(
    c: Chain,
    p: int,
    w: int,
    i: int,
    value: u64,
    p2: int,
    w2: int,
    i2: int,
)
    requires
        c.wf(),
        c.valid(p, w, i),
        c.valid(p2, w2, i2),
    ensures
        c@.update(c.slot(p, w, i), value)[c.slot(p, w, i)] == value,
        (p2, w2, i2) != (p, w, i) ==> c@.update(c.slot(p, w, i), value)[c.slot(p2, w2, i2)]
            == c@[c.slot(p2, w2, i2)],
{
    lemma_chain_slot_in_range(c, p, w, i);
    lemma_chain_slot_in_range(c, p2, w2, i2);
    if (p2, w2, i2) != (p, w, i) && c.slot(p2, w2, i2) == c.slot(p, w, i) {
        lemma_chain_slot_injective(c, p, w, i, p2, w2, i2);
    }
}


} // verus!
