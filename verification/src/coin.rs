use vstd::prelude::*;

use crate::codec::{be64, push_u64_be, u64_be};
use crate::digest::Digest;
use crate::error::Error;
use crate::hasher::{blake3_of, hash_bytes, push_digest_bytes};
use crate::lemma_seq_add_assoc;

verus! {

/// How many rejection-sampling attempts a single drawn value may take
/// before the last candidate is reduced modulo the bound.
pub const DRAW_ATTEMPTS: u64 = 64;

/// The digest expanded from the coin state for draw-call counter `ctr`,
/// output index `j` and attempt `t`: the hash of the state followed by the
/// three big-endian encoded integers.
pub open spec fn draw_block(state: Seq<u8>, ctr: u64, j: u64, t: u64) -> Seq<u8> {
    blake3_of(state + u64_be(ctr) + u64_be(j) + u64_be(t))
}

/// The largest multiple of `ub` that fits the 64-bit candidate range;
/// candidates at or above it are rejected so that reduction modulo `ub`
/// stays unbiased for bounds that do not divide the range.
pub open spec fn accept_limit(ub: nat) -> nat
    recommends
        ub >= 1,
{
    ((u64::MAX as nat) - ((u64::MAX as nat) % ub)) as nat
}

/// The value in `[0, ub)` sampled for output `j` of draw call `ctr`,
/// starting from attempt `t`: the first 64-bit candidate below the accept
/// limit is reduced modulo `ub`; after `DRAW_ATTEMPTS` rejections (an all
/// but impossible event) the final candidate is reduced regardless.
pub open spec fn sample_from(state: Seq<u8>, ctr: u64, j: u64, ub: nat, t: u64) -> nat
    recommends
        ub >= 1,
    decreases DRAW_ATTEMPTS - t,
{
    let v = be64(draw_block(state, ctr, j, t));
    if t + 1 >= DRAW_ATTEMPTS || v < accept_limit(ub) {
        v % ub
    } else {
        sample_from(state, ctr, j, ub, (t + 1) as u64)
    }
}

/// The value in `[0, ub)` sampled for output `j` of draw call `ctr`.
pub open spec fn sample(state: Seq<u8>, ctr: u64, j: u64, ub: nat) -> nat {
    sample_from(state, ctr, j, ub, 0)
}

/// Sampled values stay below the bound.
pub proof fn lemma_sample_from_lt(state: Seq<u8>, ctr: u64, j: u64, ub: nat, t: u64)
    requires
        ub >= 1,
    ensures
        sample_from(state, ctr, j, ub, t) < ub,
    decreases DRAW_ATTEMPTS - t,
{
    let v = be64(draw_block(state, ctr, j, t));
    if !(t + 1 >= DRAW_ATTEMPTS || v < accept_limit(ub)) {
        lemma_sample_from_lt(state, ctr, j, ub, (t + 1) as u64);
    }
}

/// A deterministic pseudorandom source seeded once, from which prover and
/// verifier independently derive an identical sequence of query indices.
///
/// The state is a running digest plus a draw-call counter; drawing advances
/// the counter, and `reseed` replaces the digest and resets the counter.
/// There is no hidden entropy: every output is a function of the seed and
/// the sequence of calls alone.
pub struct RandomCoin {
    state: Digest,
    counter: u64,
    capacity: usize,
}

impl RandomCoin {
    /// The running seed digest.
    pub closed spec fn state(self) -> Seq<u8> {
        self.state@
    }

    /// The number of draw calls made since seeding or the last reseed.
    pub closed spec fn counter(self) -> u64 {
        self.counter
    }

    /// The per-call draw capacity this coin was configured with.
    pub closed spec fn capacity(self) -> usize {
        self.capacity
    }

    /// A coin is usable when its per-call capacity is positive.
    pub open spec fn wf(self) -> bool {
        self.capacity() >= 1
    }

    /// Initializes a coin whose state is the hash of the caller-supplied
    /// seed bytes; `capacity` bounds how many values one draw call may
    /// produce.
    pub fn new(seed: &[u8], capacity: usize) -> (c: RandomCoin)
        requires
            capacity >= 1,
        ensures
            c.state() == blake3_of(seed@),
            c.counter() == 0,
            c.capacity() == capacity,
            c.wf(),
    {
        RandomCoin { state: hash_bytes(seed), counter: 0, capacity }
    }

    /// Returns the per-call draw capacity.
    pub fn draw_capacity(&self) -> (c: usize)
        ensures
            c == self.capacity(),
    {
        self.capacity
    }

    /// Injects fresh entropy: the state becomes the hash of the old state
    /// followed by `entropy`, and the draw counter restarts.
    pub fn reseed(&mut self, entropy: &Digest)
        ensures
            final(self).state() == blake3_of(old(self).state() + entropy@),
            final(self).counter() == 0,
            final(self).capacity() == old(self).capacity(),
    {
        let next = crate::hasher::hash_pair(&self.state, entropy);
        self.state = next;
        self.counter = 0;
    }

    /// Deterministically expands the coin state into `count` values in
    /// `[0, upper_bound)`; fails with `DrawBatchTooLarge` when `count`
    /// exceeds the per-call capacity, leaving the coin untouched.
    ///
    /// The bound must be positive — `[0, 0)` holds no value to draw — and
    /// the draw-call counter must have room to advance.
    pub fn draw_integers(&mut self, count: usize, upper_bound: usize) -> (r: Result<
        Vec<usize>,
        Error,
    >)
        requires
            upper_bound >= 1,
            old(self).counter() < u64::MAX,
        ensures
            match r {
                Ok(v) => {
                    &&& count <= old(self).capacity()
                    &&& v@.len() == count
                    &&& forall|k: int|
                        0 <= k < count ==> (#[trigger] v@[k]) < upper_bound && v@[k] as nat
                            == sample(
                            old(self).state(),
                            (old(self).counter() + 1) as u64,
                            k as u64,
                            upper_bound as nat,
                        )
                    &&& final(self).state() == old(self).state()
                    &&& final(self).counter() == old(self).counter() + 1
                    &&& final(self).capacity() == old(self).capacity()
                },
                Err(e) => {
                    &&& e == Error::DrawBatchTooLarge
                    &&& count > old(self).capacity()
                    &&& *final(self) == *old(self)
                },
            },
    {
        if count > self.capacity {
            return Err(Error::DrawBatchTooLarge);
        }
        self.counter = self.counter + 1;
        let ctr = self.counter;
        let mut out: Vec<usize> = Vec::new();
        let mut k: usize = 0;
        while k < count
            invariant
                k <= count,
                upper_bound >= 1,
                out@.len() == k,
                forall|i: int|
                    0 <= i < k ==> (#[trigger] out@[i]) < upper_bound && out@[i] as nat == sample(
                        self.state@,
                        ctr,
                        i as u64,
                        upper_bound as nat,
                    ),
            decreases count - k,
        {
            let v = draw_value(&self.state, ctr, k as u64, upper_bound as u64);
            out.push(v as usize);
            k = k + 1;
        }
        Ok(out)
    }
}

/// Computes one sampled value: candidates are drawn as the leading eight
/// big-endian bytes of successive attempt digests, rejected while they fall
/// in the biased tail of the 64-bit range.
fn draw_value(state: &Digest, ctr: u64, j: u64, ub: u64) -> (r: u64)
    requires
        ub >= 1,
    ensures
        r < ub,
        r as nat == sample(state@, ctr, j, ub as nat),
{
    let lim: u64 = u64::MAX - (u64::MAX % ub);
    let mut t: u64 = 0;
    loop
        invariant
            t < DRAW_ATTEMPTS,
            ub >= 1,
            lim as nat == accept_limit(ub as nat),
            sample(state@, ctr, j, ub as nat) == sample_from(state@, ctr, j, ub as nat, t),
        decreases DRAW_ATTEMPTS - t,
    {
        let d = draw_digest(state, ctr, j, t);
        let v = crate::codec::read_u64_be(d.bytes.as_slice(), 0);
        proof {
            crate::codec::lemma_be64_prefix(d@.subrange(0, 8), draw_block(state@, ctr, j, t));
        }
        if t + 1 >= DRAW_ATTEMPTS || v < lim {
            return v % ub;
        }
        t = t + 1;
    }
}

/// A sequence of `usize` values as mathematical naturals.
pub open spec fn nats_of(s: Seq<usize>) -> Seq<nat> {
    s.map_values(|x: usize| x as nat)
}

/// The coin state after reseeding with the digest of chunk counter `chunk`.
pub open spec fn reseed_state(state: Seq<u8>, chunk: u64) -> Seq<u8> {
    blake3_of(state + blake3_of(u64_be(chunk)))
}

/// The values produced by one draw call of `count` values made with
/// draw-call counter `ctr`.
pub open spec fn chunk_draw(state: Seq<u8>, ctr: u64, count: nat, ub: nat) -> Seq<nat> {
    Seq::new(count, |j: int| sample(state, ctr, j as u64, ub))
}

/// The full sequence of query indices produced for a request of
/// `remaining` values: chunks of at most `cap` values, each drawn in one
/// call, with a reseed by the monotonically increasing chunk counter
/// before every draw after the first.
pub open spec fn batch_seq(
    state: Seq<u8>,
    ctr: u64,
    remaining: nat,
    ub: nat,
    cap: nat,
    chunk: u64,
) -> Seq<nat>
    recommends
        cap >= 1,
        ub >= 1,
        ctr < u64::MAX,
    decreases remaining,
{
    if remaining == 0 || cap == 0 {
        Seq::empty()
    } else if remaining <= cap {
        chunk_draw(state, (ctr + 1) as u64, remaining, ub)
    } else {
        chunk_draw(state, (ctr + 1) as u64, cap, ub) + batch_seq(
            reseed_state(state, chunk),
            0,
            (remaining - cap) as nat,
            ub,
            cap,
            (chunk + 1) as u64,
        )
    }
}

/// Mapping to naturals distributes over concatenation.
pub proof fn lemma_nats_of_append(a: Seq<usize>, b: Seq<usize>)
    ensures
        nats_of(a + b) == nats_of(a) + nats_of(b),
{
    assert(nats_of(a + b) =~= nats_of(a) + nats_of(b));
}


/// The coin state left behind after drawing a whole query batch: unchanged
/// for a single chunk, else the state after the final chunk's reseed.
pub open spec fn batch_final_state(state: Seq<u8>, remaining: nat, cap: nat, chunk: u64) -> Seq<u8>
    recommends
        cap >= 1,
    decreases remaining,
{
    if remaining <= cap || cap == 0 {
        state
    } else {
        batch_final_state(reseed_state(state, chunk), (remaining - cap) as nat, cap, (chunk
            + 1) as u64)
    }
}

/// Composes coin draws into a query set of arbitrary size: draws
/// `min(capacity, remaining)` indices per call and, before every call
/// after the first, reseeds the coin with the hash of a monotonically
/// increasing chunk counter (starting at 1), so that prover and verifier
/// reconstruct the same set with no communication.
///
/// Duplicates across chunks are permitted and not removed; the result has
/// exactly `total_count` elements.
#[verifier::rlimit(60)]
pub fn draw_query_batch(coin: &mut RandomCoin, total_count: usize, upper_bound: usize) -> (r: Vec<
    usize,
>)
    requires
        old(coin).wf(),
        upper_bound >= 1,
        old(coin).counter() < u64::MAX,
    ensures
        r@.len() == total_count,
        forall|i: int| 0 <= i < r@.len() ==> (#[trigger] r@[i]) < upper_bound,
        nats_of(r@) == batch_seq(
            old(coin).state(),
            old(coin).counter(),
            total_count as nat,
            upper_bound as nat,
            old(coin).capacity() as nat,
            1,
        ),
        final(coin).capacity() == old(coin).capacity(),
        final(coin).state() == batch_final_state(
            old(coin).state(),
            total_count as nat,
            old(coin).capacity() as nat,
            1,
        ),
        total_count == 0 ==> *final(coin) == *old(coin),
        0 < total_count <= old(coin).capacity() ==> final(coin).counter() == old(coin).counter()
            + 1,
        total_count > old(coin).capacity() ==> final(coin).counter() == 1,
{
    let ghost total = total_count as nat;
    let ghost ub = upper_bound as nat;
    let cap = coin.draw_capacity();
    let mut out: Vec<usize> = Vec::new();
    if total_count == 0 {
        proof {
            assert(nats_of(out@) =~= batch_seq(
                old(coin).state(),
                old(coin).counter(),
                total,
                ub,
                cap as nat,
                1,
            ));
        }
        return out;
    }
    let mut remaining: usize = total_count;
    let mut chunk: u64 = 1;
    while remaining > 0
        invariant
            coin.capacity() == cap,
            cap >= 1,
            upper_bound >= 1,
            ub == upper_bound as nat,
            total == total_count as nat,
            remaining <= total_count,
            out@.len() == total_count - remaining,
            forall|i: int| 0 <= i < out@.len() ==> (#[trigger] out@[i]) < upper_bound,
            nats_of(out@) + batch_seq(
                coin.state(),
                coin.counter(),
                remaining as nat,
                ub,
                cap as nat,
                chunk,
            ) == batch_seq(old(coin).state(), old(coin).counter(), total, ub, cap as nat, 1),
            batch_final_state(coin.state(), remaining as nat, cap as nat, chunk)
                == batch_final_state(old(coin).state(), total, cap as nat, 1),
            remaining > 0 ==> total_count - remaining == (chunk - 1) * cap,
            remaining > 0 ==> chunk >= 1,
            remaining > 0 ==> ((chunk == 1 && coin.counter() == old(coin).counter() && coin.state()
                == old(coin).state()) || (chunk > 1 && coin.counter() == 0)),
            old(coin).counter() < u64::MAX,
            remaining == 0 ==> ((total_count <= cap && coin.counter() == old(coin).counter() + 1
                && coin.state() == old(coin).state()) || (total_count > cap && coin.counter()
                == 1)),
        decreases remaining,
    {
        let k: usize = if remaining < cap {
            remaining
        } else {
            cap
        };
        let ghost pre_state = coin.state();
        let ghost pre_ctr = coin.counter();
        let ghost pre_out = out@;
        let ghost pre_rem = remaining as nat;
        let ghost pre_chunk = chunk;
        let mut chunk_vals = match coin.draw_integers(k, upper_bound) {
            Ok(v) => v,
            Err(_) => {
                proof {
                    assert(false);
                }
                vstd::pervasive::unreached()
            },
        };
        let ghost cv = chunk_vals@;
        out.append(&mut chunk_vals);
        remaining = remaining - k;
        if remaining > 0 {
            proof {
                assert(chunk <= chunk * cap) by (nonlinear_arith)
                    requires
                        cap >= 1,
                        chunk >= 0,
                ;
                assert(chunk * cap == (chunk - 1) * cap + cap) by (nonlinear_arith);
            }
            let mut seed_bytes: Vec<u8> = Vec::new();
            push_u64_be(&mut seed_bytes, chunk);
            let entropy = hash_bytes(seed_bytes.as_slice());
            proof {
                assert(seed_bytes@ =~= u64_be(chunk));
            }
            coin.reseed(&entropy);
            chunk = chunk + 1;
        } else {
            proof {
                if chunk > 1 {
                    assert((chunk - 1) * cap >= cap) by (nonlinear_arith)
                        requires
                            chunk >= 2,
                            cap >= 1,
                    ;
                } else {
                    assert((chunk - 1) * cap == 0) by (nonlinear_arith)
                        requires
                            chunk == 1,
                    ;
                }
            }
        }
        proof {
            assert(nats_of(cv) =~= chunk_draw(pre_state, (pre_ctr + 1) as u64, k as nat, ub));
            lemma_nats_of_append(pre_out, cv);
            if pre_rem > cap as nat {
                let suffix = batch_seq(
                    reseed_state(pre_state, pre_chunk),
                    0,
                    (pre_rem - cap) as nat,
                    ub,
                    cap as nat,
                    (pre_chunk + 1) as u64,
                );
                assert(batch_seq(pre_state, pre_ctr, pre_rem, ub, cap as nat, pre_chunk)
                    == chunk_draw(pre_state, (pre_ctr + 1) as u64, k as nat, ub) + suffix);
                lemma_seq_add_assoc(nats_of(pre_out), nats_of(cv), suffix);
            } else {
                assert(batch_seq(pre_state, pre_ctr, pre_rem, ub, cap as nat, pre_chunk)
                    == chunk_draw(pre_state, (pre_ctr + 1) as u64, k as nat, ub));
                assert(nats_of(pre_out) + nats_of(cv) + batch_seq(
                    coin.state(),
                    coin.counter(),
                    remaining as nat,
                    ub,
                    cap as nat,
                    chunk,
                ) =~= nats_of(pre_out) + nats_of(cv));
            }
        }
    }
    out
}

/// Hashes the coin state together with the draw-call counter, output index
/// and attempt number into a fresh digest.
fn draw_digest(state: &Digest, ctr: u64, j: u64, t: u64) -> (r: Digest)
    ensures
        r@ == draw_block(state@, ctr, j, t),
{
    let mut buf: Vec<u8> = Vec::new();
    push_digest_bytes(&mut buf, state);
    push_u64_be(&mut buf, ctr);
    push_u64_be(&mut buf, j);
    push_u64_be(&mut buf, t);
    hash_bytes(buf.as_slice())
}

} // verus!
