//! Deterministic pseudo-random stream and an in-place shuffle.
//!
//! The level generator must produce the same layout for the same seed (the
//! level index), so the stream is a pure function of the seed: a counter
//! advanced by a fixed odd increment whose output is scrambled by two
//! multiply-xorshift rounds. The shuffle is a backwards swap pass driven by
//! the stream; its exact result is stated as a spec function, which is what
//! makes the generator's determinism provable.

use vstd::prelude::*;

verus! {

/// Odd increment of the stream's counter.
pub const STREAM_INCREMENT: u64 = 0x9E37_79B9_7F4A_7C15;

/// First multiplier of the output scrambler.
pub const MIX_MULTIPLIER_A: u64 = 0xBF58_476D_1CE4_E5B9;

/// Second multiplier of the output scrambler.
pub const MIX_MULTIPLIER_B: u64 = 0x94D0_49BB_1331_11EB;

/// The stream counter after one draw.
pub open spec fn next_state(s: u64) -> u64 {
    s.wrapping_add(STREAM_INCREMENT)
}

/// The scrambled output for a counter value.
pub open spec fn mix(s: u64) -> u64 {
    let z1 = (s ^ (s >> 30)).wrapping_mul(MIX_MULTIPLIER_A);
    let z2 = (z1 ^ (z1 >> 27)).wrapping_mul(MIX_MULTIPLIER_B);
    z2 ^ (z2 >> 31)
}

/// A deterministic pseudo-random number stream, seeded from the level
/// index. Equal seeds give equal streams.
pub struct LevelRng {
    pub state: u64,
}

impl LevelRng {
    pub fn from_seed(seed: u64) -> (r: LevelRng)
        ensures
            r.state == seed,
    {
        LevelRng { state: seed }
    }

    /// Draw the next value of the stream.
    pub fn next_u64(&mut self) -> (r: u64)
        ensures
            final(self).state == next_state(old(self).state),
            r == mix(final(self).state),
    {
        self.state = self.state.wrapping_add(STREAM_INCREMENT);
        let s = self.state;
        let z1 = (s ^ (s >> 30)).wrapping_mul(MIX_MULTIPLIER_A);
        let z2 = (z1 ^ (z1 >> 27)).wrapping_mul(MIX_MULTIPLIER_B);
        z2 ^ (z2 >> 31)
    }

    /// Draw a value below `bound`.
    pub fn next_below(&mut self, bound: u64) -> (r: u64)
        requires
            bound > 0,
        ensures
            final(self).state == next_state(old(self).state),
            r == mix(final(self).state) % bound,
            r < bound,
    {
        let x = self.next_u64();
        x % bound
    }
}

/// The sequence with the elements at `i` and `j` exchanged.
pub open spec fn swap_at<T>(s: Seq<T>, i: int, j: int) -> Seq<T> {
    s.update(i, s[j]).update(j, s[i])
}

/// The shuffle's remaining work: positions `i` down to `1`, each exchanged
/// with a stream-chosen position at or below it.
pub open spec fn shuffle_step<T>(s: Seq<T>, st: u64, i: int) -> Seq<T>
    decreases i,
{
    if i < 1 {
        s
    } else {
        let st2 = next_state(st);
        let j = (mix(st2) % ((i + 1) as u64)) as int;
        shuffle_step(swap_at(s, i, j), st2, i - 1)
    }
}

/// The stream counter after the shuffle's remaining `i` draws.
pub open spec fn shuffle_state(st: u64, i: int) -> u64
    decreases i,
{
    if i < 1 {
        st
    } else {
        shuffle_state(next_state(st), i - 1)
    }
}

/// The exact result of shuffling `s` with a stream at counter `st`.
pub open spec fn spec_shuffle<T>(s: Seq<T>, st: u64) -> Seq<T> {
    shuffle_step(s, st, s.len() - 1)
}

/// Exchange two elements of a vector.
pub fn vec_swap<T>(v: &mut Vec<T>, i: usize, j: usize)
    requires
        i < old(v).len(),
        j < old(v).len(),
    ensures
        final(v)@ == swap_at(old(v)@, i as int, j as int),
{
    if i == j {
        proof {
            assert(v@ =~= swap_at(old(v)@, i as int, j as int));
        }
        return ;
    }
    let (lo, hi) = if i < j {
        (i, j)
    } else {
        (j, i)
    };
    let e_hi = v.remove(hi);
    let e_lo = v.remove(lo);
    v.insert(lo, e_hi);
    v.insert(hi, e_lo);
    proof {
        assert(v@ =~= swap_at(old(v)@, i as int, j as int));
    }
}

/// Shuffle a vector in place, consuming `len - 1` draws of the stream. The
/// result and the stream's new counter are exact functions of the input and
/// the old counter.
pub fn shuffle<T>(v: &mut Vec<T>, rng: &mut LevelRng)
    ensures
        final(v)@ == spec_shuffle(old(v)@, old(rng).state),
        final(rng).state == shuffle_state(old(rng).state, old(v)@.len() - 1),
        final(v)@.len() == old(v)@.len(),
{
    let mut i: usize = v.len();
    while i > 1
        invariant
            i <= v@.len(),
            v@.len() == old(v)@.len(),
            shuffle_step(v@, rng.state, i - 1) == spec_shuffle(old(v)@, old(rng).state),
            shuffle_state(rng.state, i - 1) == shuffle_state(old(rng).state, old(v)@.len() - 1),
        decreases i,
    {
        i = i - 1;
        let ghost v0 = v@;
        let ghost st0 = rng.state;
        let j64 = rng.next_below((i as u64) + 1);
        let j = j64 as usize;
        proof {
            assert((i as u64) + 1 == ((i as int) + 1) as u64);
            assert(j64 < (i as u64) + 1);
        }
        vec_swap(v, i, j);
        proof {
            assert(shuffle_step(v0, st0, i as int) == shuffle_step(
                swap_at(v0, i as int, j as int),
                next_state(st0),
                i as int - 1,
            ));
        }
    }
}

/// The shuffle's remaining work never changes the length.
pub proof fn lemma_shuffle_step_len<T>(s: Seq<T>, st: u64, i: int)
    requires
        i < s.len(),
        i < u64::MAX,
    ensures
        shuffle_step(s, st, i).len() == s.len(),
    decreases i,
{
    if i >= 1 {
        let st2 = next_state(st);
        let j = (mix(st2) % ((i + 1) as u64)) as int;
        lemma_shuffle_step_len(swap_at(s, i, j), st2, i - 1);
    }
}

/// A property that holds of every element still holds of every element
/// after the shuffle's remaining work: it only rearranges them.
pub proof fn lemma_shuffle_step_pointwise<T>(s: Seq<T>, st: u64, i: int, p: spec_fn(T) -> bool)
    requires
        i < s.len(),
        i < u64::MAX,
        forall|k: int| 0 <= k < s.len() ==> p(#[trigger] s[k]),
    ensures
        forall|k: int| 0 <= k < s.len() ==> p(#[trigger] shuffle_step(s, st, i)[k]),
    decreases i,
{
    if i >= 1 {
        let st2 = next_state(st);
        let j = (mix(st2) % ((i + 1) as u64)) as int;
        let sw = swap_at(s, i, j);
        assert(0 <= j <= i);
        assert(sw.len() == s.len());
        assert forall|k: int| 0 <= k < sw.len() implies p(#[trigger] sw[k]) by {
            if k == j {
                assert(sw[k] == s[i]);
            } else if k == i {
                assert(sw[k] == s[j]);
            } else {
                assert(sw[k] == s[k]);
            }
        }
        lemma_shuffle_step_pointwise(sw, st2, i - 1, p);
        assert(shuffle_step(s, st, i) == shuffle_step(sw, st2, i - 1));
    } else {
        lemma_shuffle_step_len(s, st, i);
    }
}

} // verus!
