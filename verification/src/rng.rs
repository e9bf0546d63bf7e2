//! Deterministic pseudo-random number generation behind a trait.
//!
//! The kernel core never seeds a generator from entropy: it takes a
//! [`KernelRng`] and is handed either a hardware generator or the deterministic
//! [`SimRng`] of the simulation harness. Same seed, same stream, every run, so a
//! failure found under simulation reproduces exactly.
//!
//! A generator is modelled by its transitions: [`KernelRng::steps`] relates a
//! generator, a word that it may hand out, and the generator after that. What is
//! proved of code that draws from any generator is stated over the words drawn,
//! [`draws`]. For [`SimRng`] the transition is a function of the state.
use vstd::prelude::*;

verus! {

/// A source of pseudo-random `u64` words.
///
/// The one required method is [`next_u64`](KernelRng::next_u64); the bounded
/// helpers are provided in terms of it.
pub trait KernelRng {
    /// The generator may hand out `word` and then be `post`. Of a generator that
    /// says no more about itself, any word may come.
    open spec fn steps(&self, word: u64, post: &Self) -> bool {
        true
    }

    /// Returns the next pseudo-random 64-bit word and advances the generator.
    fn next_u64(&mut self) -> (word: u64)
        ensures
            old(self).steps(word, final(self)),
    ;

    /// Returns a pseudo-random value in `[0, bound)`, or `0` if `bound` is `0`.
    ///
    /// It is [`map_below`] of exactly one word.
    fn below(&mut self, bound: u64) -> (r: u64)
        ensures
            exists|word: u64| #[trigger]
                old(self).steps(word, final(self)) && r == scaled(word, bound),
            bound >= 1 ==> r < bound,
            bound == 0 ==> r == 0,
    {
        let word: u64 = self.next_u64();
        map_below(word, bound)
    }

    /// Returns a pseudo-random boolean: the low bit of exactly one word.
    fn next_bool(&mut self) -> (b: bool)
        ensures
            exists|word: u64| #[trigger]
                old(self).steps(word, final(self)) && b == low_bit(word) && b == (word % 2 == 1),
    {
        let word: u64 = self.next_u64();
        assert((word & 1 == 1) == (word % 2 == 1)) by (bit_vector);
        word & 1 == 1
    }
}

/// The low bit of `word`.
pub open spec fn low_bit(word: u64) -> bool {
    word % 2 == 1
}

/// `word` read as a fraction of `2^64` and scaled by `bound`, rounded down.
pub open spec fn scaled(word: u64, bound: u64) -> u64 {
    ((word as int * bound as int) / 0x1_0000_0000_0000_0000) as u64
}

/// The scaled word lies below the bound, for every word and every bound.
pub proof fn scaled_is_in_range(word: u64, bound: u64)
    ensures
        0 <= (word as int * bound as int) / 0x1_0000_0000_0000_0000 <= bound,
        scaled(word, bound) as int == (word as int * bound as int) / 0x1_0000_0000_0000_0000,
        bound >= 1 ==> scaled(word, bound) < bound,
        bound == 0 ==> scaled(word, bound) == 0,
{
    assert(0 <= word as int * bound as int <= 0xffff_ffff_ffff_ffff * bound as int)
        by (nonlinear_arith)
        requires
            word <= 0xffff_ffff_ffff_ffff,
    ;
}

/// Maps a uniform 64-bit word `x` into `[0, bound)`: the high 64 bits of the
/// 128-bit product, which are `floor(x * bound / 2^64)`.
#[inline]
#[must_use]
pub fn map_below(x: u64, bound: u64) -> (r: u64)
    ensures
        r == scaled(x, bound),
        bound >= 1 ==> r < bound,
        bound == 0 ==> r == 0,
{
    proof {
        scaled_is_in_range(x, bound);
        assert(0 <= x as int * bound as int <= 0xffff_ffff_ffff_ffff * 0xffff_ffff_ffff_ffff)
            by (nonlinear_arith)
            requires
                x <= 0xffff_ffff_ffff_ffff,
                bound <= 0xffff_ffff_ffff_ffff,
        ;
    }
    let product: u128 = x as u128 * bound as u128;
    assert(product >> 64 == product / 0x1_0000_0000_0000_0000) by (bit_vector);
    (product >> 64) as u64
}

/// A bound is met everywhere and fairly: every value below it comes of some word, a
/// larger word never gives a smaller value, and a value comes of the words between it
/// and the next, each read as a fraction of the whole range.
pub proof fn scaled_reaches_every_value(bound: u64, value: u64) -> (word: u64)
    requires
        value < bound,
    ensures
        scaled(word, bound) == value,
        forall|w: u64| #[trigger] scaled(w, bound) < value <==> w < word,
{
    let range: int = 0x1_0000_0000_0000_0000;
    let b = bound as int;
    let v = value as int;
    let least = (v * range + (b - 1)) / b;
    assert(v * range <= least * b <= v * range + (b - 1)) by {
        vstd::arithmetic::div_mod::lemma_fundamental_div_mod(v * range + (b - 1), b);
        vstd::arithmetic::div_mod::lemma_mod_bound(v * range + (b - 1), b);
        vstd::arithmetic::mul::lemma_mul_is_commutative(b, least);
    }
    assert(v * range <= (b - 1) * range) by (nonlinear_arith)
        requires
            v <= b - 1,
            range > 0,
    ;
    assert((b - 1) * range + (b - 1) < range * b) by (nonlinear_arith)
        requires
            1 <= b <= range,
    ;
    assert(0 <= least) by (nonlinear_arith)
        requires
            0 <= v * range <= least * b,
            b >= 1,
    ;
    assert(least < range) by (nonlinear_arith)
        requires
            least * b < range * b,
            b >= 1,
    ;
    let word = least as u64;
    scaled_is_in_range(word, bound);
    assert(v * range <= word as int * b < (v + 1) * range);
    assert(scaled(word, bound) == value);
    assert forall|w: u64| #[trigger] scaled(w, bound) < value <==> w < word by {
        scaled_is_in_range(w, bound);
        if w < word {
            assert(w as int * b <= (least - 1) * b) by (nonlinear_arith)
                requires
                    w as int <= least - 1,
                    b >= 1,
            ;
            assert((least - 1) * b == least * b - b) by (nonlinear_arith);
        } else {
            assert(w as int * b >= least * b) by (nonlinear_arith)
                requires
                    w as int >= least,
                    b >= 1,
            ;
        }
    }
    word
}

/// Neighbouring words give opposite booleans, so that either comes of half of them.
pub proof fn booleans_alternate(word: u64)
    requires
        word < u64::MAX,
    ensures
        low_bit((word + 1) as u64) == !low_bit(word),
        !low_bit(0),
{
}

/// `states` is what a generator goes through while it hands out `words`.
pub open spec fn path<R: KernelRng>(states: Seq<R>, words: Seq<u64>) -> bool {
    &&& states.len() == words.len() + 1
    &&& forall|i: int| 0 <= i < words.len() ==> states[i].steps(#[trigger] words[i], &states[i + 1])
}

/// Starting from `pre`, the generator may hand out `words` in order and then be
/// `post`.
pub open spec fn draws<R: KernelRng>(pre: R, words: Seq<u64>, post: R) -> bool {
    exists|states: Seq<R>| #[trigger]
        path(states, words) && states.first() == pre && states.last() == post
}

/// One more word drawn.
pub proof fn lemma_draw_one_more<R: KernelRng>(pre: R, words: Seq<u64>, mid: R, word: u64, post: R)
    requires
        draws(pre, words, mid),
        mid.steps(word, &post),
    ensures
        draws(pre, words.push(word), post),
{
    let states = choose|states: Seq<R>| #[trigger]
        path(states, words) && states.first() == pre && states.last() == mid;
    let more = states.push(post);
    assert forall|i: int| 0 <= i < words.push(word).len() implies more[i].steps(
        #[trigger] words.push(word)[i],
        &more[i + 1],
    ) by {
        if i < words.len() {
            assert(states[i].steps(words[i], &states[i + 1]));
        }
    }
    assert(path(more, words.push(word)));
}

/// Some words drawn, and then some more.
pub proof fn lemma_draws_concat<R: KernelRng>(
    pre: R,
    words: Seq<u64>,
    mid: R,
    more: Seq<u64>,
    post: R,
)
    requires
        draws(pre, words, mid),
        draws(mid, more, post),
    ensures
        draws(pre, words + more, post),
{
    let s = choose|s: Seq<R>| #[trigger]
        path(s, words) && s.first() == pre && s.last() == mid;
    let t = choose|t: Seq<R>| #[trigger] path(t, more) && t.first() == mid && t.last() == post;
    let states = s + t.drop_first();
    assert forall|i: int| 0 <= i < (words + more).len() implies states[i].steps(
        #[trigger] (words + more)[i],
        &states[i + 1],
    ) by {
        if i < words.len() {
            assert(s[i].steps(words[i], &s[i + 1]));
        } else {
            let j = i - words.len();
            assert(t[j].steps(more[j], &t[j + 1]));
        }
    }
    assert(path(states, words + more));
}

/// A single word drawn.
pub proof fn lemma_draw_first<R: KernelRng>(pre: R, word: u64, post: R)
    requires
        pre.steps(word, &post),
    ensures
        draws(pre, seq![word], post),
{
    assert(path(seq![pre], Seq::<u64>::empty()));
    assert(draws(pre, Seq::<u64>::empty(), pre));
    lemma_draw_one_more(pre, Seq::<u64>::empty(), pre, word, post);
    assert(Seq::<u64>::empty().push(word) =~= seq![word]);
}

/// A small, fast, deterministic generator (`SplitMix64`).
///
/// Each step adds a fixed odd constant to the one-word state and runs the result
/// through a fixed bit-mixing finaliser; all arithmetic is modulo `2^64`.
///
/// Not `Copy`: a generator is a moving cursor over its stream, and an accidental
/// copy would silently replay the same words.
#[derive(Clone, Debug)]
pub struct SimRng {
    state: u64,
}

/// The golden-ratio odd increment.
pub const INCREMENT: u64 = 0x9E37_79B9_7F4A_7C15;

/// The first mixing multiplier.
pub const MIX_A: u64 = 0xBF58_476D_1CE4_E5B9;

/// The second mixing multiplier.
pub const MIX_B: u64 = 0x94D0_49BB_1331_11EB;

/// The `SplitMix64` finaliser.
pub open spec fn mixed(state: u64) -> u64 {
    let a = (state ^ (state >> 30)).wrapping_mul(MIX_A);
    let b = (a ^ (a >> 27)).wrapping_mul(MIX_B);
    b ^ (b >> 31)
}

impl View for SimRng {
    type V = u64;

    /// The state word.
    closed spec fn view(&self) -> u64 {
        self.state
    }
}

impl SimRng {
    /// Creates a generator seeded with `seed`.
    ///
    /// The seed fully determines the stream. Any seed (including `0`) is valid.
    #[must_use]
    pub fn new(seed: u64) -> (rng: Self)
        ensures
            rng@ == seed,
    {
        SimRng { state: seed }
    }
}

impl KernelRng for SimRng {
    open spec fn steps(&self, word: u64, post: &Self) -> bool {
        post@ == self@.wrapping_add(INCREMENT) && word == mixed(post@)
    }

    fn next_u64(&mut self) -> (word: u64)
        ensures
            final(self)@ == old(self)@.wrapping_add(INCREMENT),
            word == mixed(final(self)@),
    {
        self.state = self.state.wrapping_add(INCREMENT);
        let mut z: u64 = self.state;
        z = (z ^ (z >> 30)).wrapping_mul(MIX_A);
        z = (z ^ (z >> 27)).wrapping_mul(MIX_B);
        z ^ (z >> 31)
    }
}

/// The state after `n` words, starting from the state `seed`.
pub open spec fn sim_state(seed: u64, n: nat) -> u64
    decreases n,
{
    if n == 0 {
        seed
    } else {
        sim_state(seed, (n - 1) as nat).wrapping_add(INCREMENT)
    }
}

/// The first `n` words that the seed `seed` yields.
pub open spec fn sim_stream(seed: u64, n: nat) -> Seq<u64> {
    Seq::new(n, |i: int| mixed(sim_state(seed, (i + 1) as nat)))
}

/// The states of a generator are an arithmetic progression modulo `2^64`: after so many
/// words the seed has grown by so many increments.
pub proof fn states_are_a_progression(seed: u64, n: nat)
    ensures
        sim_state(seed, n) as int == (seed + n * 0x9E37_79B9_7F4A_7C15) % 0x1_0000_0000_0000_0000,
    decreases n,
{
    if n > 0 {
        states_are_a_progression(seed, (n - 1) as nat);
        let before = seed + (n - 1) * 0x9E37_79B9_7F4A_7C15;
        assert(before + 0x9E37_79B9_7F4A_7C15 == seed + n * 0x9E37_79B9_7F4A_7C15)
            by (nonlinear_arith)
            requires
                before == seed + (n - 1) * 0x9E37_79B9_7F4A_7C15,
        ;
        vstd::arithmetic::div_mod::lemma_add_mod_noop(
            before,
            0x9E37_79B9_7F4A_7C15,
            0x1_0000_0000_0000_0000,
        );
    }
}

/// The finaliser in arithmetic: three times the word is combined bit by bit with its own
/// quotient by a power of two, and between them it is multiplied by one of two odd
/// constants, modulo `2^64`.
pub proof fn finaliser_mixes_in_five_steps(state: u64, a: u64, b: u64)
    requires
        a as int == ((state ^ (state / 0x4000_0000)) * 0xBF58_476D_1CE4_E5B9)
            % 0x1_0000_0000_0000_0000,
        b as int == ((a ^ (a / 0x800_0000)) * 0x94D0_49BB_1331_11EB) % 0x1_0000_0000_0000_0000,
    ensures
        mixed(state) == b ^ (b / 0x8000_0000),
{
    assert(state >> 30 == state / 0x4000_0000) by (bit_vector);
    assert(a >> 27 == a / 0x800_0000) by (bit_vector);
    assert(b >> 31 == b / 0x8000_0000) by (bit_vector);
}

/// The finaliser loses nothing: different states give different words.
pub proof fn finaliser_is_injective(x: u64, y: u64)
    requires
        mixed(x) == mixed(y),
    ensures
        x == y,
{
    let x0 = x ^ (x >> 30);
    let y0 = y ^ (y >> 30);
    let x1 = x0.wrapping_mul(MIX_A);
    let y1 = y0.wrapping_mul(MIX_A);
    let x2 = x1 ^ (x1 >> 27);
    let y2 = y1 ^ (y1 >> 27);
    let x3 = x2.wrapping_mul(MIX_B);
    let y3 = y2.wrapping_mul(MIX_B);
    assert(x3 == y3) by (bit_vector)
        requires
            x3 ^ (x3 >> 31) == y3 ^ (y3 >> 31),
    ;
    lemma_factor_cancels(x2, y2, MIX_B as int, 0x3196_42B2_D24D_8EC3);
    assert(x1 == y1) by (bit_vector)
        requires
            x1 ^ (x1 >> 27) == y1 ^ (y1 >> 27),
    ;
    lemma_factor_cancels(x0, y0, MIX_A as int, 0x96DE_1B17_3F11_9089);
    assert(x == y) by (bit_vector)
        requires
            x ^ (x >> 30) == y ^ (y >> 30),
    ;
}

/// A factor with an inverse modulo `2^64` cancels.
proof fn lemma_factor_cancels(x: u64, y: u64, factor: int, inverse: int)
    requires
        (factor * inverse) % 0x1_0000_0000_0000_0000 == 1,
        (x * factor) % 0x1_0000_0000_0000_0000 == (y * factor) % 0x1_0000_0000_0000_0000,
    ensures
        x == y,
{
    lemma_factor_undone(x, factor, inverse);
    lemma_factor_undone(y, factor, inverse);
}

/// Multiplying by the inverse of a factor modulo `2^64` undoes it.
proof fn lemma_factor_undone(x: u64, factor: int, inverse: int)
    requires
        (factor * inverse) % 0x1_0000_0000_0000_0000 == 1,
    ensures
        x == (((x * factor) % 0x1_0000_0000_0000_0000) * inverse) % 0x1_0000_0000_0000_0000,
{
    let range: int = 0x1_0000_0000_0000_0000;
    vstd::arithmetic::div_mod::lemma_mul_mod_noop_left(x * factor, inverse, range);
    vstd::arithmetic::mul::lemma_mul_is_associative(x as int, factor, inverse);
    vstd::arithmetic::div_mod::lemma_mul_mod_noop_right(x as int, factor * inverse, range);
    vstd::arithmetic::div_mod::lemma_small_mod(x as nat, range as nat);
}

/// A `SimRng` is a pure function of its seed: whatever it hands out is the
/// stream of the state it started from.
pub proof fn sim_draws_are_the_stream(pre: SimRng, words: Seq<u64>, post: SimRng)
    requires
        draws(pre, words, post),
    ensures
        words == sim_stream(pre@, words.len()),
        post@ == sim_state(pre@, words.len()),
{
    let states = choose|states: Seq<SimRng>| #[trigger]
        path(states, words) && states.first() == pre && states.last() == post;
    lemma_sim_path(states, words, words.len() as int);
    assert forall|i: int| 0 <= i < words.len() implies words[i] == sim_stream(
        pre@,
        words.len(),
    )[i] by {
        lemma_sim_path(states, words, i);
        assert(states[i].steps(words[i], &states[i + 1]));
    }
    assert(words =~= sim_stream(pre@, words.len()));
}

/// The states along a path are those of the stream.
proof fn lemma_sim_path(states: Seq<SimRng>, words: Seq<u64>, k: int)
    requires
        path(states, words),
        0 <= k <= words.len(),
    ensures
        states[k]@ == sim_state(states[0]@, k as nat),
    decreases k,
{
    if k > 0 {
        lemma_sim_path(states, words, k - 1);
        assert(states[k - 1].steps(words[k - 1], &states[k - 1 + 1]));
    }
}

/// Two generators with the same seed yield identical streams, and are in the
/// same state after equally many words.
pub proof fn same_seed_same_stream(
    a: SimRng,
    a_words: Seq<u64>,
    a_post: SimRng,
    b: SimRng,
    b_words: Seq<u64>,
    b_post: SimRng,
)
    requires
        a@ == b@,
        draws(a, a_words, a_post),
        draws(b, b_words, b_post),
        a_words.len() == b_words.len(),
    ensures
        a_words == b_words,
        a_post@ == b_post@,
        a_post == b_post,
{
    sim_draws_are_the_stream(a, a_words, a_post);
    sim_draws_are_the_stream(b, b_words, b_post);
}

} // verus!
