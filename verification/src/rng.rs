//! Seeded random number generator for deterministic generation.

use rand::Rng as RandRng;
use rand::SeedableRng;
use rand_chacha::ChaCha8Rng;
use vstd::prelude::*;

verus! {

/// What the ChaCha8 stream of `seed` (`ChaCha8Rng::seed_from_u64`) gives
/// for `rand::Rng::gen::<u64>()` at word position `pos`: the value and the
/// word position after it. rand_core documents that a seeded generator
/// gives the same sequence on every run and machine.
pub uninterp spec fn chacha_u64_at(seed: u64, pos: u128) -> (u64, u128);

/// What `rand::Rng::gen_range(min..max)` gives for `i32` on the ChaCha8
/// stream of `seed` at word position `pos`: the value and the word
/// position after it.
pub uninterp spec fn chacha_i32_in(seed: u64, pos: u128, min: i32, max: i32) -> (i32, u128);

/// What `rand::Rng::gen_range(min..max)` gives for `usize` on the ChaCha8
/// stream of `seed` at word position `pos`, on a machine whose `usize` has
/// `bits` bits (rand draws a word of that size): the value and the word
/// position after it.
pub uninterp spec fn chacha_usize_in(seed: u64, pos: u128, min: usize, max: usize, bits: u32) -> (usize, u128);

/// `rand::Rng::gen::<u64>()` on `ChaCha8Rng::seed_from_u64(seed)` moved to
/// word position `pos` (`set_word_pos`); returns the value and
/// `get_word_pos` after the draw. The result is named by
/// [`chacha_u64_at`]; any value can come out.
#[verifier::external_body]
fn chacha_u64(seed: u64, pos: u128) -> (r: (u64, u128))
    ensures
        r == chacha_u64_at(seed, pos),
{
    let mut g = ChaCha8Rng::seed_from_u64(seed);
    g.set_word_pos(pos);
    let v = g.gen::<u64>();
    (v, g.get_word_pos())
}

/// `rand::Rng::gen_range(min..max)` for `i32` on `ChaCha8Rng::seed_from_u64(seed)`
/// moved to word position `pos`; returns the value, which lies in
/// `[min, max)`, and `get_word_pos` after the draw. It panics on an empty
/// range, which `requires` rules out.
#[verifier::external_body]
fn chacha_i32(seed: u64, pos: u128, min: i32, max: i32) -> (r: (i32, u128))
    requires
        min < max,
    ensures
        r == chacha_i32_in(seed, pos, min, max),
        min <= r.0 < max,
{
    let mut g = ChaCha8Rng::seed_from_u64(seed);
    g.set_word_pos(pos);
    let v = g.gen_range(min..max);
    (v, g.get_word_pos())
}

/// `rand::Rng::gen_range(min..max)` for `usize` on `ChaCha8Rng::seed_from_u64(seed)`
/// moved to word position `pos`; returns the value, which lies in
/// `[min, max)`, and `get_word_pos` after the draw. It panics on an empty
/// range, which `requires` rules out.
#[verifier::external_body]
fn chacha_usize(seed: u64, pos: u128, min: usize, max: usize) -> (r: (usize, u128))
    requires
        min < max,
    ensures
        r == chacha_usize_in(seed, pos, min, max, usize::BITS),
        min <= r.0 < max,
{
    let mut g = ChaCha8Rng::seed_from_u64(seed);
    g.set_word_pos(pos);
    let v = g.gen_range(min..max);
    (v, g.get_word_pos())
}

/// `<[T]>::swap` (core): exchanges the entries at `i` and `j`; it panics
/// on an index out of range, which `requires` rules out.
#[verifier::external_body]
fn swap_entries<T>(s: &mut [T], i: usize, j: usize)
    requires
        i < old(s)@.len(),
        j < old(s)@.len(),
    ensures
        final(s)@ == old(s)@.update(i as int, old(s)@[j as int]).update(j as int, old(s)@[i as int]),
{
    s.swap(i, j);
}

/// `a` lists the entries of `b` in some order: entry `k` of `a` is entry
/// `p[k]` of `b` for a one-to-one `p`.
pub open spec fn is_permutation_of<T>(a: Seq<T>, b: Seq<T>) -> bool {
    &&& a.len() == b.len()
    &&& exists|p: Seq<int>|
        #![trigger p.len()]
        p.len() == a.len() && (forall|k: int| 0 <= k < a.len() ==> 0 <= #[trigger] p[k] < b.len() && a[k] == b[p[k]])
            && (forall|k1: int, k2: int| 0 <= k1 < k2 < a.len() ==> #[trigger] p[k1] != #[trigger] p[k2])
}

/// Seeded RNG over the ChaCha8 stream of its seed: the seed and the word
/// position in the stream fix every draw to come, so identical seeds give
/// identical draws.
#[derive(Debug, Clone, Copy)]
pub struct Rng {
    seed: u64,
    pos: u128,
}

/// The `u64` drawn at word position `pos` of the stream of `seed`.
pub open spec fn u64_at(seed: u64, pos: u128) -> u64 {
    chacha_u64_at(seed, pos).0
}

/// The word position after drawing a `u64` at `pos`.
pub open spec fn after_u64(seed: u64, pos: u128) -> u128 {
    chacha_u64_at(seed, pos).1
}

/// The word position after `k` `u64` draws from `pos`.
pub open spec fn u64_pos(seed: u64, pos: u128, k: nat) -> u128
    decreases k,
{
    if k == 0 {
        pos
    } else {
        after_u64(seed, u64_pos(seed, pos, (k - 1) as nat))
    }
}

/// Draw `k` (from zero) of a run of `u64` draws starting at `pos`.
pub open spec fn u64_draw(seed: u64, pos: u128, k: nat) -> u64 {
    u64_at(seed, u64_pos(seed, pos, k))
}

/// Fisher-Yates from the back over the first `i` entries of `s`: entry
/// `i - 1` is swapped with the entry the stream of `seed` draws in
/// `0..i` at word position `pos`, then the first `i - 1` entries are
/// shuffled on. Gives the entries and the word position after the draws.
pub open spec fn shuffled<T>(s: Seq<T>, seed: u64, pos: u128, i: nat) -> (Seq<T>, u128)
    decreases i,
{
    if i <= 1 {
        (s, pos)
    } else {
        let d = chacha_usize_in(seed, pos, 0, i as usize, usize::BITS);
        let j = d.0 as int;
        let k = i - 1;
        shuffled(s.update(k, s[j]).update(j, s[k]), seed, d.1, k as nat)
    }
}

/// Whether a `u64` draw `v` falls below the chance `threshold`: its top 53
/// bits, the ones a uniform float in `[0, 1)` is built from, are below it.
pub open spec fn below(v: u64, threshold: u64) -> bool {
    (v >> 11u64) < threshold
}

/// Half of the `u64` range: a draw below it has probability one half.
pub const HALF_U64: u64 = 0x8000_0000_0000_0000u64;

/// Chances are written as multiples of `1 / CHANCE_ONE` (that is, of
/// `2^-53`): a chance of `c` stands for the probability `c / 2^53`, and
/// [`Rng::chance_below`] with threshold `c` comes out `true` with exactly
/// that probability.
pub const CHANCE_ONE: u64 = 0x20_0000_0000_0000u64;

impl Rng {
    /// The seed of the stream.
    pub closed spec fn seed_of(&self) -> u64 {
        self.seed
    }

    /// The word position of the next draw.
    pub closed spec fn pos_of(&self) -> u128 {
        self.pos
    }

    /// Creates a new RNG from the given seed, at the start of its stream.
    pub fn new(seed: u64) -> (r: Rng)
        ensures
            r.seed_of() == seed,
            r.pos_of() == 0,
    {
        Rng { seed, pos: 0 }
    }

    /// The seed of the stream.
    pub fn seed(&self) -> (r: u64)
        ensures
            r == self.seed_of(),
    {
        self.seed
    }

    /// The word position of the next draw.
    pub fn word_pos(&self) -> (r: u128)
        ensures
            r == self.pos_of(),
    {
        self.pos
    }

    /// Moves to word position `pos` of the same stream (for draws of other
    /// types, made on a generator moved to [`Self::word_pos`]).
    pub fn set_word_pos(&mut self, pos: u128)
        ensures
            final(self).seed_of() == old(self).seed_of(),
            final(self).pos_of() == pos,
    {
        self.pos = pos;
    }

    /// A random `i32` in `[min, max)`: the stream's `gen_range` draw.
    pub fn range(&mut self, min: i32, max: i32) -> (r: i32)
        requires
            min < max,
        ensures
            min <= r < max,
            (r, final(self).pos_of()) == chacha_i32_in(old(self).seed_of(), old(self).pos_of(), min, max),
            final(self).seed_of() == old(self).seed_of(),
    {
        let (v, p) = chacha_i32(self.seed, self.pos, min, max);
        self.pos = p;
        v
    }

    /// A random `usize` in `[min, max)`: the stream's `gen_range` draw.
    pub fn range_usize(&mut self, min: usize, max: usize) -> (r: usize)
        requires
            min < max,
        ensures
            min <= r < max,
            (r, final(self).pos_of()) == chacha_usize_in(
                old(self).seed_of(),
                old(self).pos_of(),
                min,
                max,
                usize::BITS,
            ),
            final(self).seed_of() == old(self).seed_of(),
    {
        let (v, p) = chacha_usize(self.seed, self.pos, min, max);
        self.pos = p;
        v
    }

    /// The next `u64` of the stream.
    pub fn next_u64(&mut self) -> (r: u64)
        ensures
            r == u64_at(old(self).seed_of(), old(self).pos_of()),
            final(self).pos_of() == after_u64(old(self).seed_of(), old(self).pos_of()),
            final(self).seed_of() == old(self).seed_of(),
    {
        let (v, p) = chacha_u64(self.seed, self.pos);
        self.pos = p;
        v
    }

    /// `true` with probability one half: the next `u64` is below half its
    /// range. The draw is the one a uniform float in `[0, 1)` is built
    /// from, so this agrees with `random() < 0.5`.
    pub fn coin(&mut self) -> (r: bool)
        ensures
            r == (u64_at(old(self).seed_of(), old(self).pos_of()) < HALF_U64),
            final(self).pos_of() == after_u64(old(self).seed_of(), old(self).pos_of()),
            final(self).seed_of() == old(self).seed_of(),
    {
        self.next_u64() < HALF_U64
    }

    /// A random element of `items` (the stream's `gen_range(0..len)` draw
    /// picks the index), or `None`, without a draw, when it is empty.
    pub fn pick<'a, T>(&mut self, items: &'a [T]) -> (r: Option<&'a T>)
        ensures
            items@.len() == 0 <==> r.is_none(),
            r matches Some(v) ==> exists|i: int| 0 <= i < items@.len() && *v == items@[i],
            r matches Some(v) ==> *v == items@[chacha_usize_in(
                old(self).seed_of(),
                old(self).pos_of(),
                0,
                items@.len() as usize,
                usize::BITS,
            ).0 as int],
            items@.len() > 0 ==> final(self).pos_of() == chacha_usize_in(
                old(self).seed_of(),
                old(self).pos_of(),
                0,
                items@.len() as usize,
                usize::BITS,
            ).1,
            items@.len() == 0 ==> final(self).pos_of() == old(self).pos_of(),
            final(self).seed_of() == old(self).seed_of(),
    {
        if items.len() == 0 {
            None
        } else {
            let i = self.range_usize(0, items.len());
            Some(&items[i])
        }
    }

    /// `true` when the top 53 bits of the next draw are below `threshold`
    /// ([`below`]): the draw a uniform float in `[0, 1)` is built from, so
    /// this agrees with `random() < p` for `threshold` the least integer not
    /// below `p * 2^53`, and comes out `true` with probability
    /// `threshold / 2^53` (capped at one).
    pub fn chance_below(&mut self, threshold: u64) -> (r: bool)
        ensures
            r == below(u64_at(old(self).seed_of(), old(self).pos_of()), threshold),
            final(self).pos_of() == after_u64(old(self).seed_of(), old(self).pos_of()),
            final(self).seed_of() == old(self).seed_of(),
            threshold == 0 ==> !r,
            threshold >= CHANCE_ONE ==> r,
    {
        let v = self.next_u64();
        proof {
            assert((v >> 11u64) < 0x20_0000_0000_0000u64) by (bit_vector);
        }
        (v >> 11) < threshold
    }

    /// Shuffles `slice` in place (Fisher-Yates, from the back).
    pub fn shuffle<T>(&mut self, slice: &mut [T])
        ensures
            (final(slice)@, final(self).pos_of()) == shuffled(
                old(slice)@,
                old(self).seed_of(),
                old(self).pos_of(),
                old(slice)@.len(),
            ),
            final(self).seed_of() == old(self).seed_of(),
            is_permutation_of(final(slice)@, old(slice)@),
            forall|m: int| 0 <= m < old(slice)@.len() ==> final(slice)@.contains(#[trigger] old(slice)@[m]),
    {
        let n = slice.len();
        let ghost s0 = slice@;
        let ghost mut p: Seq<int> = Seq::new(n as nat, |k: int| k);
        let ghost mut q: Seq<int> = Seq::new(n as nat, |k: int| k);
        let ghost seed0 = self.seed;
        let ghost pos0 = self.pos;
        let mut i = n;
        proof {
            assert(n == s0.len());
        }
        while i > 1
            invariant
                self.seed == seed0,
                shuffled(slice@, self.seed, self.pos, i as nat) == shuffled(s0, seed0, pos0, n as nat),
                i <= n,
                n == s0.len(),
                slice@.len() == n,
                p.len() == n,
                forall|k: int| 0 <= k < n ==> 0 <= #[trigger] p[k] < n && slice@[k] == s0[p[k]],
                forall|k1: int, k2: int| 0 <= k1 < k2 < n ==> #[trigger] p[k1] != #[trigger] p[k2],
                q.len() == n,
                forall|m: int| 0 <= m < n ==> 0 <= #[trigger] q[m] < n && p[q[m]] == m,
                forall|k: int| 0 <= k < n ==> q[#[trigger] p[k]] == k,
            decreases i,
        {
            let ghost sl0 = slice@;
            let ghost ps0 = self.pos;
            i = i - 1;
            let j = self.range_usize(0, i + 1);
            swap_entries(slice, i, j);
            proof {
                assert(shuffled(sl0, seed0, ps0, (i + 1) as nat) == shuffled(slice@, seed0, self.pos, i as nat));
                let pn = p.update(i as int, p[j as int]).update(j as int, p[i as int]);
                assert forall|k1: int, k2: int| 0 <= k1 < k2 < n implies #[trigger] pn[k1] != #[trigger] pn[k2] by {
                    let a = if k1 == j { i as int } else if k1 == i { j as int } else { k1 };
                    let b = if k2 == j { i as int } else if k2 == i { j as int } else { k2 };
                    assert(pn[k1] == p[a] && pn[k2] == p[b]);
                }
                let q2 = q.update(p[i as int], j as int).update(p[j as int], i as int);
                assert forall|m: int| 0 <= m < n implies 0 <= #[trigger] q2[m] < n && pn[q2[m]] == m by {
                    if m == p[j as int] {
                    } else if m == p[i as int] {
                    } else {
                        assert(q[m] != i && q[m] != j);
                    }
                }
                assert forall|k: int| 0 <= k < n implies q2[#[trigger] pn[k]] == k by {
                    if k == i {
                    } else if k == j {
                    } else {
                        assert(pn[k] == p[k]);
                        assert(p[k] != p[i as int] && p[k] != p[j as int]);
                    }
                }
                p = pn;
                q = q2;
            }
        }
        proof {
            assert(slice@.len() == s0.len());
            assert forall|m: int| 0 <= m < s0.len() implies slice@.contains(#[trigger] s0[m]) by {
                assert(slice@[q[m]] == s0[p[q[m]]]);
            }
        }
    }
}

} // verus!
