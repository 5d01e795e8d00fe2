//! The embedding gateway: single-flight discipline and response checking.
//!
//! The external embedding provider is one shared, resource-constrained
//! endpoint. `FlightGuard` is the request-serialization component: a
//! bounded concurrency queue (capacity one for the provider) that admits
//! callers in arrival order. A caller enqueues for a ticket, begins when
//! its ticket is served and a slot is free, and releases the slot as soon
//! as its request is submitted — before the response body is parsed, so
//! slow parsing never holds up the next submission.
//!
//! `check_embeddings_response` turns the provider's status and decoded
//! body into checked vectors or the exact error the taxonomy owes.

use vstd::prelude::*;

use crate::bytes::dup_comps;
use crate::embedding::{bounded_comps, Embedding, DIM_LIMIT};
use crate::Error;

verus! {

/// Mathematical value of the serialization guard.
#[verifier::ext_equal]
pub struct GuardView {
    pub capacity: nat,
    pub in_flight: nat,
    pub next_ticket: u64,
    pub now_serving: u64,
}

impl GuardView {
    pub open spec fn wf(self) -> bool {
        &&& 1 <= self.capacity
        &&& self.in_flight <= self.capacity
        &&& self.now_serving <= self.next_ticket
    }
}

/// A bounded concurrency-of-`capacity` work queue with FIFO admission.
pub struct FlightGuard {
    capacity: usize,
    in_flight: usize,
    next_ticket: u64,
    now_serving: u64,
}

impl View for FlightGuard {
    type V = GuardView;

    closed spec fn view(&self) -> GuardView {
        GuardView {
            capacity: self.capacity as nat,
            in_flight: self.in_flight as nat,
            next_ticket: self.next_ticket,
            now_serving: self.now_serving,
        }
    }
}

impl FlightGuard {
    /// A fresh guard; the provider deployment uses capacity one.
    pub fn new(capacity: usize) -> (g: FlightGuard)
        requires
            1 <= capacity,
        ensures
            g@ == (GuardView {
                capacity: capacity as nat,
                in_flight: 0,
                next_ticket: 0,
                now_serving: 0,
            }),
            g@.wf(),
    {
        FlightGuard { capacity, in_flight: 0, next_ticket: 0, now_serving: 0 }
    }

    /// Joins the queue and takes the next arrival-order ticket.
    pub fn enqueue(&mut self) -> (t: u64)
        requires
            old(self)@.wf(),
            old(self)@.next_ticket < u64::MAX,
        ensures
            final(self)@.wf(),
            t == old(self)@.next_ticket,
            final(self)@ == (GuardView {
                next_ticket: (old(self)@.next_ticket + 1) as u64,
                ..old(self)@
            }),
    {
        let t = self.next_ticket;
        self.next_ticket = t + 1;
        t
    }

    /// Admits the holder of `ticket` exactly when it is its turn and a
    /// slot is free; queued callers are therefore served in arrival order.
    pub fn try_begin(&mut self, ticket: u64) -> (ok: bool)
        requires
            old(self)@.wf(),
            ticket < old(self)@.next_ticket,
        ensures
            final(self)@.wf(),
            ok == (ticket == old(self)@.now_serving && old(self)@.in_flight
                < old(self)@.capacity),
            ok ==> final(self)@ == (GuardView {
                in_flight: (old(self)@.in_flight + 1) as nat,
                now_serving: (old(self)@.now_serving + 1) as u64,
                ..old(self)@
            }),
            !ok ==> final(self)@ == old(self)@,
    {
        if ticket == self.now_serving && self.in_flight < self.capacity {
            self.in_flight = self.in_flight + 1;
            self.now_serving = self.now_serving + 1;
            true
        } else {
            false
        }
    }

    /// Releases the slot: the request was submitted (the response body may
    /// still be getting parsed — that no longer blocks anyone).
    pub fn finish(&mut self)
        requires
            old(self)@.wf(),
            old(self)@.in_flight > 0,
        ensures
            final(self)@.wf(),
            final(self)@ == (GuardView {
                in_flight: (old(self)@.in_flight - 1) as nat,
                ..old(self)@
            }),
    {
        self.in_flight = self.in_flight - 1;
    }

    pub fn in_flight(&self) -> (n: usize)
        ensures
            n == self@.in_flight,
    {
        self.in_flight
    }

    pub fn capacity(&self) -> (n: usize)
        ensures
            n == self@.capacity,
    {
        self.capacity
    }
}

/// Law: the guard never admits more requests than its capacity; with the
/// provider's capacity of one, at most one request is ever in flight.
pub proof fn lemma_single_flight(g: GuardView)
    requires
        g.wf(),
    ensures
        g.in_flight <= g.capacity,
        g.capacity == 1 ==> g.in_flight <= 1,
{
}

/// Every vector has the configured dimension and in-range components.
pub open spec fn good_vectors(vs: Seq<Seq<i64>>, dim: nat) -> bool {
    forall|i: int|
        0 <= i < vs.len() ==> (#[trigger] vs[i]).len() == dim && bounded_comps(vs[i])
}

/// The views of an optional decoded body.
pub open spec fn spec_body(body: Option<Vec<Vec<i64>>>) -> Option<Seq<Seq<i64>>> {
    match body {
        None => None,
        Some(v) => Some(v.deep_view()),
    }
}

/// The outcome the response checker owes: non-success status is a provider
/// failure; a body that would not decode is a protocol failure; zero
/// vectors for a non-empty request is an empty result; wrong arity, wrong
/// dimension or an out-of-range component is a protocol failure; otherwise
/// the vectors, one per input, in input order.
pub open spec fn spec_check_embeddings(
    dim: nat,
    n_inputs: nat,
    status: u16,
    body: Option<Seq<Seq<i64>>>,
) -> Result<Seq<Seq<i64>>, Error> {
    if !(200 <= status < 300) {
        Err(Error::Provider)
    } else {
        match body {
            None => Err(Error::Protocol),
            Some(vs) => if vs.len() == 0 && n_inputs > 0 {
                Err(Error::EmptyResult)
            } else if vs.len() != n_inputs {
                Err(Error::Protocol)
            } else if !good_vectors(vs, dim) {
                Err(Error::Protocol)
            } else {
                Ok(vs)
            },
        }
    }
}

/// One checked batch response: one in-range vector of the configured
/// dimension per input.
#[derive(Debug)]
pub struct EmbeddingsResponse {
    embeddings: Vec<Embedding>,
}

impl View for EmbeddingsResponse {
    type V = Seq<Seq<i64>>;

    closed spec fn view(&self) -> Seq<Seq<i64>> {
        self.embeddings@.map_values(|e: Embedding| e@)
    }
}

impl EmbeddingsResponse {
    /// The vector of a one-blob or one-text request; `EmptyResult` exactly
    /// when the checked batch is empty.
    pub fn get_one(self) -> (r: Result<Embedding, Error>)
        ensures
            match r {
                Ok(e) => self@.len() > 0 && e@ == self@[0],
                Err(er) => er == Error::EmptyResult && self@.len() == 0,
            },
    {
        let mut batch = self.embeddings;
        if batch.len() == 0 {
            Err(Error::EmptyResult)
        } else {
            let e = batch.remove(0);
            Ok(e)
        }
    }

    /// How many vectors the batch holds.
    pub fn len(&self) -> (n: usize)
        ensures
            n == self@.len(),
    {
        self.embeddings.len()
    }
}

/// Checks one provider response against the request it answers. `dim` is
/// the configured model dimension, `n_inputs` how many blobs or texts were
/// sent, `status` the HTTP status, `body` the decoded vector list (`None`
/// when the body did not decode).
pub fn check_embeddings_response(
    dim: usize,
    n_inputs: usize,
    status: u16,
    body: Option<Vec<Vec<i64>>>,
) -> (r: Result<EmbeddingsResponse, Error>)
    requires
        dim <= DIM_LIMIT,
    ensures
        (match (r, spec_check_embeddings(dim as nat, n_inputs as nat, status, spec_body(body))) {
            (Ok(resp), Ok(vs)) => resp@ == vs,
            (Err(e1), Err(e2)) => e1 == e2,
            _ => false,
        }),
{
    if status < 200 || status >= 300 {
        return Err(Error::Provider);
    }
    let vecs = match body {
        None => {
            return Err(Error::Protocol);
        },
        Some(v) => v,
    };
    let ghost bv = vecs.deep_view();
    if vecs.len() == 0 && n_inputs > 0 {
        return Err(Error::EmptyResult);
    }
    if vecs.len() != n_inputs {
        return Err(Error::Protocol);
    }
    let n = vecs.len();
    let mut out: Vec<Embedding> = Vec::new();
    let mut i: usize = 0;
    while i < n
        invariant
            0 <= i <= n,
            n == bv.len(),
            n == vecs@.len(),
            bv == vecs.deep_view(),
            out@.map_values(|e: Embedding| e@) =~= bv.take(i as int),
            forall|k: int| 0 <= k < i ==> (#[trigger] bv[k]).len() == dim && bounded_comps(bv[k]),
        decreases n - i,
    {
        let v = &vecs[i];
        proof {
            assert(bv[i as int] =~= v@);
        }
        if v.len() != dim {
            proof {
                assert(bv[i as int].len() != dim);
            }
            return Err(Error::Protocol);
        }
        let copy = dup_comps(v);
        match Embedding::new(copy) {
            Ok(e) => {
                out.push(e);
                proof {
                    assert(out@.map_values(|e: Embedding| e@) =~= bv.take(i as int + 1));
                }
            },
            Err(_) => {
                proof {
                    assert(!bounded_comps(bv[i as int]));
                }
                return Err(Error::Protocol);
            },
        }
        i = i + 1;
    }
    let resp = EmbeddingsResponse { embeddings: out };
    proof {
        assert(bv.take(n as int) =~= bv);
        assert(resp@ == bv);
        assert(good_vectors(bv, dim as nat));
    }
    Ok(resp)
}

} // verus!
