//! Fixed-dimension embedding vectors in fixed-point form.
//!
//! The external embedding model hands back unit-norm vectors of floats; the
//! library stores each component as a signed fixed-point integer (scale
//! `COMP_LIMIT`), so that distance ranking is exact integer arithmetic.
//! A `Cosine` ranking orders by descending inner product, which for
//! unit-norm vectors is the cosine ordering; `Euclidean` orders by
//! ascending squared distance.

use vstd::prelude::*;

use crate::Error;

verus! {

/// Largest magnitude of a fixed-point component (the scale of 1.0).
pub const COMP_LIMIT: i64 = 0x100000;

/// `COMP_LIMIT * COMP_LIMIT`: bound on one product of two components.
pub const COMP_LIMIT_SQ: i64 = 0x10000000000;

/// Largest embedding dimension the store accepts.
pub const DIM_LIMIT: usize = 4096;

/// Offset that turns a (possibly negative) inner product into a
/// non-negative ascending rank distance; larger than `DIM_LIMIT *
/// COMP_LIMIT_SQ`, the largest magnitude an inner product can reach.
pub const DOT_SHIFT: i64 = 0x20000000000000;

/// The distance ordering used by similarity search; a deployment-time
/// configuration choice, never stored per record.
#[derive(Clone, Copy, Debug, PartialEq, Eq, Structural)]
pub enum Metric {
    /// Ascending `DOT_SHIFT - <a, b>`: cosine ordering for unit-norm vectors.
    Cosine,
    /// Ascending squared Euclidean distance.
    Euclidean,
}

/// All components within the fixed-point range.
pub open spec fn bounded_comps(s: Seq<i64>) -> bool {
    forall|i: int| 0 <= i < s.len() ==> -COMP_LIMIT <= #[trigger] s[i] <= COMP_LIMIT
}

/// An embedding vector whose components are all within the fixed-point
/// range and whose dimension is at most `DIM_LIMIT`.
#[derive(Debug)]
pub struct Embedding {
    comps: Vec<i64>,
}

impl View for Embedding {
    type V = Seq<i64>;

    closed spec fn view(&self) -> Seq<i64> {
        self.comps@
    }
}

impl Embedding {
    pub open spec fn wf(&self) -> bool {
        self@.len() <= DIM_LIMIT && bounded_comps(self@)
    }

    /// Accepts exactly the component vectors that are in range; anything
    /// else is a malformed provider value.
    pub fn new(comps: Vec<i64>) -> (r: Result<Embedding, Error>)
        ensures
            match r {
                Ok(e) => e@ == comps@ && e.wf(),
                Err(er) => er == Error::Protocol && !(comps@.len() <= DIM_LIMIT
                    && bounded_comps(comps@)),
            },
    {
        if comps.len() > DIM_LIMIT {
            return Err(Error::Protocol);
        }
        let mut i: usize = 0;
        while i < comps.len()
            invariant
                0 <= i <= comps@.len(),
                forall|k: int| 0 <= k < i ==> -COMP_LIMIT <= #[trigger] comps@[k] <= COMP_LIMIT,
            decreases comps@.len() - i,
        {
            let c = comps[i];
            if c < -COMP_LIMIT || c > COMP_LIMIT {
                return Err(Error::Protocol);
            }
            i = i + 1;
        }
        Ok(Embedding { comps })
    }

    pub fn dim(&self) -> (n: usize)
        ensures
            n == self@.len(),
    {
        self.comps.len()
    }

    pub fn comp(&self, i: usize) -> (c: i64)
        requires
            i < self@.len(),
        ensures
            c == self@[i as int],
    {
        self.comps[i]
    }

    /// Hands the component vector over.
    pub fn into_comps(self) -> (v: Vec<i64>)
        ensures
            v@ == self@,
    {
        self.comps
    }

    /// A value-equal copy of the component vector.
    pub fn clone_comps(&self) -> (v: Vec<i64>)
        ensures
            v@ == self@,
    {
        let mut v: Vec<i64> = Vec::new();
        let mut i: usize = 0;
        while i < self.comps.len()
            invariant
                0 <= i <= self.comps@.len(),
                v@ =~= self.comps@.take(i as int),
            decreases self.comps@.len() - i,
        {
            v.push(self.comps[i]);
            proof {
                assert(v@ =~= self.comps@.take(i as int + 1));
            }
            i = i + 1;
        }
        proof {
            assert(self.comps@.take(self.comps@.len() as int) =~= self.comps@);
        }
        v
    }
}

/// Inner product of the first `n` components.
pub open spec fn dot_prefix(a: Seq<i64>, b: Seq<i64>, n: int) -> int
    decreases n,
{
    if n <= 0 {
        0
    } else {
        dot_prefix(a, b, n - 1) + a[n - 1] * b[n - 1]
    }
}

/// Squared Euclidean distance over the first `n` components.
pub open spec fn sq_dist_prefix(a: Seq<i64>, b: Seq<i64>, n: int) -> int
    decreases n,
{
    if n <= 0 {
        0
    } else {
        sq_dist_prefix(a, b, n - 1) + (a[n - 1] - b[n - 1]) * (a[n - 1] - b[n - 1])
    }
}

/// The rank distance of record embedding `e` from query `q`: records are
/// returned in ascending order of this value.
pub open spec fn spec_rank_distance(metric: Metric, q: Seq<i64>, e: Seq<i64>) -> int {
    match metric {
        Metric::Cosine => DOT_SHIFT - dot_prefix(q, e, q.len() as int),
        Metric::Euclidean => sq_dist_prefix(q, e, q.len() as int),
    }
}

pub proof fn lemma_dot_prefix_bound(a: Seq<i64>, b: Seq<i64>, n: int)
    requires
        bounded_comps(a),
        bounded_comps(b),
        0 <= n <= a.len(),
        n <= b.len(),
    ensures
        -(n * COMP_LIMIT_SQ) <= dot_prefix(a, b, n) <= n * COMP_LIMIT_SQ,
    decreases n,
{
    if n > 0 {
        lemma_dot_prefix_bound(a, b, n - 1);
        let x = a[n - 1];
        let y = b[n - 1];
        assert(-COMP_LIMIT_SQ <= x * y <= COMP_LIMIT_SQ) by (nonlinear_arith)
            requires
                -COMP_LIMIT <= x <= COMP_LIMIT,
                -COMP_LIMIT <= y <= COMP_LIMIT,
        ;
    }
}

pub proof fn lemma_sq_dist_prefix_bound(a: Seq<i64>, b: Seq<i64>, n: int)
    requires
        bounded_comps(a),
        bounded_comps(b),
        0 <= n <= a.len(),
        n <= b.len(),
    ensures
        0 <= sq_dist_prefix(a, b, n) <= n * (4 * COMP_LIMIT_SQ),
    decreases n,
{
    if n > 0 {
        lemma_sq_dist_prefix_bound(a, b, n - 1);
        let d = a[n - 1] - b[n - 1];
        assert(0 <= d * d <= 4 * COMP_LIMIT_SQ) by (nonlinear_arith)
            requires
                -2 * COMP_LIMIT <= d <= 2 * COMP_LIMIT,
        ;
    }
}

/// A rank distance is always in `[0, u64::MAX]`, so it fits the sort key.
pub proof fn lemma_rank_distance_bound(metric: Metric, q: Seq<i64>, e: Seq<i64>)
    requires
        bounded_comps(q),
        bounded_comps(e),
        q.len() <= DIM_LIMIT,
        q.len() == e.len(),
    ensures
        0 <= spec_rank_distance(metric, q, e) <= u64::MAX,
{
    let n = q.len() as int;
    match metric {
        Metric::Cosine => {
            lemma_dot_prefix_bound(q, e, n);
            assert(n * COMP_LIMIT_SQ <= 4096 * COMP_LIMIT_SQ) by (nonlinear_arith)
                requires
                    0 <= n <= 4096,
            ;
        },
        Metric::Euclidean => {
            lemma_sq_dist_prefix_bound(q, e, n);
            assert(n * (4 * COMP_LIMIT_SQ) <= 4096 * (4 * COMP_LIMIT_SQ)) by (nonlinear_arith)
                requires
                    0 <= n <= 4096,
            ;
        },
    }
}

/// Computes the rank distance of a stored component vector from a query.
pub fn rank_distance(metric: Metric, q: &Embedding, e: &Vec<i64>) -> (d: u64)
    requires
        q.wf(),
        bounded_comps(e@),
        q@.len() == e@.len(),
    ensures
        d as int == spec_rank_distance(metric, q@, e@),
{
    let n = q.dim();
    match metric {
        Metric::Cosine => {
            let mut acc: i64 = 0;
            let mut i: usize = 0;
            while i < n
                invariant
                    q.wf(),
                    bounded_comps(e@),
                    q@.len() == e@.len(),
                    n == q@.len(),
                    0 <= i <= n,
                    acc == dot_prefix(q@, e@, i as int),
                    -(i as int * COMP_LIMIT_SQ) <= acc as int <= i as int * COMP_LIMIT_SQ,
                decreases n - i,
            {
                let x = q.comp(i);
                let y = e[i];
                proof {
                    assert(-COMP_LIMIT_SQ <= x * y <= COMP_LIMIT_SQ) by (nonlinear_arith)
                        requires
                            -COMP_LIMIT <= x <= COMP_LIMIT,
                            -COMP_LIMIT <= y <= COMP_LIMIT,
                    ;
                }
                acc = acc + x * y;
                i = i + 1;
            }
            (DOT_SHIFT - acc) as u64
        },
        Metric::Euclidean => {
            let mut acc: i64 = 0;
            let mut i: usize = 0;
            while i < n
                invariant
                    q.wf(),
                    bounded_comps(e@),
                    q@.len() == e@.len(),
                    n == q@.len(),
                    0 <= i <= n,
                    acc == sq_dist_prefix(q@, e@, i as int),
                    0 <= acc as int <= i as int * (4 * COMP_LIMIT_SQ),
                decreases n - i,
            {
                let x = q.comp(i);
                let y = e[i];
                let d = x - y;
                proof {
                    assert(0 <= d * d <= 4 * COMP_LIMIT_SQ) by (nonlinear_arith)
                        requires
                            -2 * COMP_LIMIT <= d <= 2 * COMP_LIMIT,
                    ;
                    let ii = i as int;
                    assert((ii + 1) * (4 * COMP_LIMIT_SQ) == ii * (4 * COMP_LIMIT_SQ) + 4
                        * COMP_LIMIT_SQ) by (nonlinear_arith);
                    assert(ii * (4 * COMP_LIMIT_SQ) <= 4096 * (4 * COMP_LIMIT_SQ))
                        by (nonlinear_arith)
                        requires
                            0 <= ii <= 4096,
                    ;
                }
                acc = acc + d * d;
                i = i + 1;
            }
            acc as u64
        },
    }
}

} // verus!
