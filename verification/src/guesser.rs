//! The entropy engine: for every untried character it enumerates all reveal
//! outcomes, weighs them by how many candidates they keep, and suggests the
//! character with the greatest expected information. Information is measured
//! in fixed-point bits (units of 2^-16 of a bit), by a deterministic binary
//! logarithm computed with integer arithmetic alone.

use vstd::arithmetic::div_mod::lemma_div_is_ordered;
use vstd::arithmetic::div_mod::lemma_div_multiples_vanish;
use vstd::arithmetic::div_mod::lemma_multiply_divide_lt;
use vstd::arithmetic::mul::lemma_mul_inequality;
use vstd::arithmetic::mul::lemma_mul_strict_upper_bound;
use vstd::arithmetic::power2::lemma2_to64;
use vstd::arithmetic::power2::lemma_pow2_adds;
use vstd::arithmetic::power2::lemma_pow2_pos;
use vstd::arithmetic::power2::lemma_pow2_strictly_increases;
use vstd::arithmetic::power2::pow2;
use vstd::prelude::*;

use crate::game::{
    char_positions, idx_in, lemma_char_positions_props, lemma_unknowns_of_props, overlay_at,
    overlay_exec, unknowns_of, ActiveState, GuessState, Letter, WrongGuesses,
};
use crate::words::{
    consistent_words, copy_word, lemma_filter_with_guess_shrinks, lemma_word_deep_view,
    sorted_strict, WordSpace,
};

verus! {

/// How often `b` can be doubled before the ratio `a / b` drops below two:
/// the integer part of the binary logarithm of `a / b`.
pub open spec fn log2_int_steps(a: nat, b: nat) -> nat
    decreases a - b,
{
    if b < 1 || a < 2 * b {
        0
    } else {
        1 + log2_int_steps(a, 2 * b)
    }
}

/// The first `n` fractional bits of the binary logarithm of `a / b`, for a
/// ratio in `[1, 2)`: the ratio is renormalized to the denominator 2^32 (a
/// deterministic truncation) and squared; each squaring yields one bit.
pub open spec fn frac_bits(a: nat, b: nat, n: nat) -> nat
    decreases n,
{
    if n == 0 || b < 1 {
        0
    } else {
        let na = (a * 0x1_0000_0000) / b;
        let sq = na * na;
        if sq >= 0x2_0000_0000_0000_0000 {
            pow2((n - 1) as nat) + frac_bits(sq, 0x2_0000_0000_0000_0000, (n - 1) as nat)
        } else {
            frac_bits(sq, 0x1_0000_0000_0000_0000, (n - 1) as nat)
        }
    }
}

/// The binary logarithm of `a / b` in units of 2^-16, to sixteen fractional
/// bits, by the fixed truncating rule of `frac_bits`. This deterministic
/// integer rule is the library's measure of information.
pub open spec fn log2_fixed(a: nat, b: nat) -> nat {
    log2_int_steps(a, b) * 0x10000 + frac_bits(a, b * pow2(log2_int_steps(a, b)), 16)
}

/// Doubling `b` once per counted step keeps it within `a`, and one more
/// doubling overshoots: the counted steps are exactly the integer part.
proof fn lemma_int_steps_bounds(a: nat, b: nat)
    requires
        1 <= b <= a,
    ensures
        b * pow2(log2_int_steps(a, b)) <= a,
        a < 2 * (b * pow2(log2_int_steps(a, b))),
    decreases a - b,
{
    lemma2_to64();
    if a < 2 * b {
        assert(log2_int_steps(a, b) == 0);
        assert(b * pow2(0) == b);
    } else {
        lemma_int_steps_bounds(a, 2 * b);
        let s = log2_int_steps(a, 2 * b);
        lemma_pow2_adds(1, s);
        assert((2 * b) * pow2(s) == b * (pow2(1) * pow2(s))) by {
            vstd::arithmetic::mul::lemma_mul_is_associative(2, b as int, pow2(s) as int);
            vstd::arithmetic::mul::lemma_mul_is_associative(b as int, 2, pow2(s) as int);
        }
        assert(b * pow2(log2_int_steps(a, b)) == (2 * b) * pow2(s));
    }
}

/// The fractional bits always fit below `pow2(n)`.
proof fn lemma_frac_bits_bound(a: nat, b: nat, n: nat)
    ensures
        frac_bits(a, b, n) < pow2(n),
    decreases n,
{
    lemma_pow2_pos(n);
    if n == 0 || b < 1 {
        lemma2_to64();
    } else {
        let na = (a * 0x1_0000_0000) / b;
        let sq = na * na;
        lemma_frac_bits_bound(sq, 0x2_0000_0000_0000_0000, (n - 1) as nat);
        lemma_frac_bits_bound(sq, 0x1_0000_0000_0000_0000, (n - 1) as nat);
        lemma_pow2_adds((n - 1) as nat, 1);
        lemma2_to64();
    }
}

/// For any total below 2^64 the fixed-point logarithm stays below 0x400000
/// (64 whole bits): the counted steps stay at or below 63.
pub proof fn lemma_log2_fixed_bound(a: nat, b: nat)
    requires
        1 <= b <= a < 0x1_0000_0000_0000_0000,
    ensures
        log2_fixed(a, b) < 0x400000,
        log2_int_steps(a, b) <= 63,
{
    lemma2_to64();
    lemma_int_steps_bounds(a, b);
    let s = log2_int_steps(a, b);
    lemma_pow2_pos(s);
    lemma_mul_inequality(1, b as int, pow2(s) as int);
    assert(pow2(s) <= b * pow2(s));
    if s > 63 {
        if s > 64 {
            lemma_pow2_strictly_increases(64, s);
        }
        assert(pow2(s) >= pow2(64));
        assert(b * pow2(s) <= a);
        assert(false);
    }
    lemma_frac_bits_bound(a, b * pow2(s), 16);
    assert(frac_bits(a, b * pow2(s), 16) < 0x10000);
    lemma_mul_inequality(s as int, 63, 0x10000);
}

/// A ratio of one carries no information: the fixed-point logarithm of
/// `n / n` is exactly zero.
pub proof fn lemma_log2_fixed_self(n: nat)
    requires
        n >= 1,
    ensures
        log2_fixed(n, n) == 0,
{
    lemma2_to64();
    assert(log2_int_steps(n, n) == 0);
    assert(n * pow2(0) == n);
    lemma_frac_bits_self(n, 16);
}

/// With an exact ratio of one, every squaring yields the bit zero.
proof fn lemma_frac_bits_self(a: nat, n: nat)
    requires
        a >= 1,
    ensures
        frac_bits(a, a, n) == 0,
    decreases n,
{
    lemma2_to64();
    if n != 0 {
        lemma_div_multiples_vanish(0x1_0000_0000, a as int);
        assert((a * 0x1_0000_0000) / a == 0x1_0000_0000);
        let sq: nat = 0x1_0000_0000_0000_0000;
        lemma_frac_bits_self(sq, (n - 1) as nat);
    }
}

/// 2 to the power `e`, executable.
pub fn pow2_exec(e: u64) -> (r: u64)
    requires
        e < 64,
    ensures
        r as nat == pow2(e as nat),
{
    proof {
        lemma2_to64();
    }
    let mut r: u64 = 1;
    let mut j: u64 = 0;
    while j < e
        invariant
            j <= e < 64,
            r as nat == pow2(j as nat),
        decreases e - j,
    {
        proof {
            lemma2_to64();
            vstd::arithmetic::power2::lemma2_to64_rest();
            if (j as nat) < 63 {
                lemma_pow2_strictly_increases(j as nat, 63);
            }
            lemma_pow2_adds(j as nat, 1);
        }
        r = 2 * r;
        j = j + 1;
    }
    r
}

/// The fixed-point binary logarithm of `total / count`, in units of 2^-16,
/// computed with integer arithmetic alone.
pub fn log2_fixed_exec(total: usize, count: usize) -> (r: u64)
    requires
        1 <= count <= total,
    ensures
        r as nat == log2_fixed(total as nat, count as nat),
        r < 0x400000,
{
    let mut a: u128 = total as u128;
    let mut b: u128 = count as u128;
    let mut steps: u64 = 0;
    proof {
        lemma2_to64();
        assert(b as nat == (count as nat) * pow2(0));
    }
    while a >= 2 * b
        invariant
            1 <= b <= a,
            a == total as u128,
            count <= total,
            1 <= count,
            b as nat == (count as nat) * pow2(steps as nat),
            steps <= 64,
            log2_int_steps(total as nat, count as nat) == steps as nat + log2_int_steps(
                a as nat,
                b as nat,
            ),
        decreases a - b,
    {
        proof {
            lemma2_to64();
            assert(log2_int_steps(a as nat, b as nat) == 1 + log2_int_steps(
                a as nat,
                2 * (b as nat),
            ));
            lemma_pow2_adds(steps as nat, 1);
            assert(2 * ((count as nat) * pow2(steps as nat)) == (count as nat) * pow2(
                steps as nat + 1,
            )) by {
                vstd::arithmetic::mul::lemma_mul_is_associative(
                    2,
                    count as int,
                    pow2(steps as nat) as int,
                );
                vstd::arithmetic::mul::lemma_mul_is_associative(
                    count as int,
                    2,
                    pow2(steps as nat) as int,
                );
            }
            lemma_pow2_pos(steps as nat + 1);
            lemma_mul_inequality(1, count as int, pow2(steps as nat + 1) as int);
            if steps as nat + 1 > 64 {
                lemma_pow2_strictly_increases(64, steps as nat + 1);
                assert(false);
            }
        }
        b = 2 * b;
        steps = steps + 1;
    }
    proof {
        lemma2_to64();
        assert(log2_int_steps(a as nat, b as nat) == 0);
        lemma_pow2_pos(steps as nat);
        lemma_mul_inequality(1, count as int, pow2(steps as nat) as int);
        if steps > 63 {
            if steps > 64 {
                lemma_pow2_strictly_increases(64, steps as nat);
            }
            assert(pow2(steps as nat) >= pow2(64));
            assert(false);
        }
    }
    let mut acc: u64 = steps * 0x10000;
    let mut i: u64 = 0;
    proof {
        lemma2_to64();
        assert(acc as nat + pow2((16 - i) as nat) <= 0x400000);
        assert(log2_fixed(total as nat, count as nat) == acc as nat + frac_bits(
            a as nat,
            b as nat,
            16,
        ));
    }
    while i < 16
        invariant
            i <= 16,
            1 <= b <= a < 2 * b,
            a <= 0x4_0000_0000_0000_0000,
            b <= 0x2_0000_0000_0000_0000,
            acc as nat + pow2((16 - i) as nat) <= 0x400000,
            log2_fixed(total as nat, count as nat) == acc as nat + frac_bits(
                a as nat,
                b as nat,
                (16 - i) as nat,
            ),
        decreases 16 - i,
    {
        proof {
            lemma2_to64();
            // the normalized numerator lies in [2^32, 2^33)
            lemma_div_multiples_vanish(0x1_0000_0000, b as int);
            lemma_div_is_ordered(
                (b as int) * 0x1_0000_0000,
                (a as int) * 0x1_0000_0000,
                b as int,
            );
            lemma_mul_inequality(b as int, a as int, 0x1_0000_0000);
            assert((b as int) * 0x1_0000_0000 == 0x1_0000_0000 * (b as int));
            lemma_multiply_divide_lt((a as int) * 0x1_0000_0000, b as int, 0x2_0000_0000);
            assert((a as int) * 0x1_0000_0000 < (b as int) * 0x2_0000_0000) by {
                lemma_mul_strict_upper_bound(a as int, 2 * (b as int), 0x1_0000_0000, 0x1_0000_0001);
                assert((a as int) * 0x1_0000_0000 < (2 * (b as int)) * 0x1_0000_0000);
                vstd::arithmetic::mul::lemma_mul_is_associative(2, b as int, 0x1_0000_0000);
            }
        }
        let na: u128 = (a * 0x1_0000_0000) / b;
        proof {
            assert(0x1_0000_0000 <= na < 0x2_0000_0000);
            lemma_mul_inequality(0x1_0000_0000, na as int, na as int);
            lemma_mul_inequality(0x1_0000_0000, na as int, 0x1_0000_0000);
            lemma_mul_strict_upper_bound(na as int, 0x2_0000_0000, na as int, 0x2_0000_0000);
        }
        let sq: u128 = na * na;
        proof {
            assert(0x1_0000_0000_0000_0000 <= sq < 0x4_0000_0000_0000_0000);
            lemma_pow2_adds((15 - i) as nat, 1);
        }
        let w = pow2_exec(15 - i);
        if sq >= 0x2_0000_0000_0000_0000 {
            proof {
                assert(frac_bits(a as nat, b as nat, (16 - i) as nat) == pow2((15 - i) as nat)
                    + frac_bits(sq as nat, 0x2_0000_0000_0000_0000, (15 - i) as nat));
            }
            acc = acc + w;
            a = sq;
            b = 0x2_0000_0000_0000_0000;
        } else {
            proof {
                assert(frac_bits(a as nat, b as nat, (16 - i) as nat) == frac_bits(
                    sq as nat,
                    0x1_0000_0000_0000_0000,
                    (15 - i) as nat,
                ));
            }
            a = sq;
            b = 0x1_0000_0000_0000_0000;
        }
        i = i + 1;
    }
    proof {
        lemma2_to64();
        assert(frac_bits(a as nat, b as nat, 0) == 0);
    }
    acc
}

/// Whether bit `j` of `mask` is set.
pub open spec fn mask_bit(mask: nat, j: nat) -> bool {
    (mask / pow2(j)) % 2 == 1
}

/// The unknown positions that `mask` selects: those whose bit is set, in the
/// order they appear in the unknown-index list.
pub open spec fn mask_indices(u_list: Seq<usize>, mask: nat) -> Seq<usize>
    decreases u_list.len(),
{
    if u_list.len() == 0 {
        Seq::empty()
    } else if mask_bit(mask, (u_list.len() - 1) as nat) {
        mask_indices(u_list.drop_last(), mask).push(u_list.last())
    } else {
        mask_indices(u_list.drop_last(), mask)
    }
}

/// Every position a mask selects comes from the unknown-index list.
pub proof fn lemma_mask_indices_from(u_list: Seq<usize>, mask: nat)
    ensures
        forall|t: int|
            0 <= t < mask_indices(u_list, mask).len() ==> u_list.contains(
                #[trigger] mask_indices(u_list, mask)[t],
            ),
    decreases u_list.len(),
{
    if u_list.len() > 0 {
        lemma_mask_indices_from(u_list.drop_last(), mask);
        let m = mask_indices(u_list, mask);
        let dm = mask_indices(u_list.drop_last(), mask);
        assert forall|t: int| 0 <= t < m.len() implies u_list.contains(#[trigger] m[t]) by {
            if t < dm.len() {
                assert(dm[t] == m[t]);
                assert(u_list.drop_last().contains(dm[t]));
                let j = choose|j: int|
                    0 <= j < u_list.drop_last().len() && u_list.drop_last()[j] == dm[t];
                assert(u_list[j] == dm[t]);
            } else {
                assert(m[t] == u_list.last());
            }
        }
    }
}

/// Turn a mask into the index list of the positions it selects.
pub fn mask_to_indices(u_list: &Vec<usize>, mask: u64) -> (r: Vec<usize>)
    ensures
        r@ == mask_indices(u_list@, mask as nat),
{
    let mut r: Vec<usize> = Vec::new();
    let mut mm: u64 = mask;
    let mut j: usize = 0;
    proof {
        lemma2_to64();
        assert(u_list@.take(0) =~= Seq::<usize>::empty());
    }
    while j < u_list.len()
        invariant
            j <= u_list@.len(),
            mm as nat == (mask as nat) / pow2(j as nat),
            r@ == mask_indices(u_list@.take(j as int), mask as nat),
        decreases u_list@.len() - j,
    {
        proof {
            assert(u_list@.take(j as int + 1).drop_last() =~= u_list@.take(j as int));
            assert(u_list@.take(j as int + 1).last() == u_list@[j as int]);
            assert(mask_bit(mask as nat, j as nat) == (mm % 2 == 1));
            lemma_pow2_adds(j as nat, 1);
            lemma_pow2_pos(j as nat);
            vstd::arithmetic::div_mod::lemma_div_denominator(
                mask as int,
                pow2(j as nat) as int,
                2,
            );
            lemma2_to64();
        }
        if mm % 2 == 1 {
            r.push(u_list[j]);
        }
        mm = mm / 2;
        j = j + 1;
    }
    proof {
        assert(u_list@.take(u_list@.len() as int) =~= u_list@);
    }
    r
}

/// How many held candidates the outcome `mask` keeps for the guess `c`: mask
/// zero is the "absent" outcome, where `c` joins the wrong set; a nonzero
/// mask reveals `c` at the unknown positions it selects.
pub open spec fn outcome_count(
    words: Seq<Seq<char>>,
    pattern: Seq<Letter>,
    wrong: Seq<char>,
    c: char,
    u_list: Seq<usize>,
    mask: nat,
) -> nat {
    if mask == 0 {
        consistent_words(words, pattern, wrong.push(c)).len()
    } else {
        consistent_words(words, overlay_at(pattern, c, mask_indices(u_list, mask)), wrong).len()
    }
}

/// One outcome's contribution to the expected information, scaled by the
/// candidate total: an outcome keeping no candidate (or every candidate)
/// contributes exactly zero.
pub open spec fn outcome_term(total: nat, count: nat) -> nat {
    if count == 0 {
        0
    } else {
        count * log2_fixed(total, count)
    }
}

/// The contributions of all outcomes with mask below `m`, summed.
pub open spec fn score_upto(
    words: Seq<Seq<char>>,
    pattern: Seq<Letter>,
    wrong: Seq<char>,
    c: char,
    u_list: Seq<usize>,
    m: nat,
) -> nat
    decreases m,
{
    if m == 0 {
        0
    } else {
        score_upto(words, pattern, wrong, c, u_list, (m - 1) as nat) + outcome_term(
            words.len(),
            outcome_count(words, pattern, wrong, c, u_list, (m - 1) as nat),
        )
    }
}

/// The expected-information score of guessing `c`, summed over all `2^u`
/// reveal outcomes and scaled by the candidate total: dividing by the total
/// gives the expected information in fixed-point bits.
pub open spec fn guess_score(
    words: Seq<Seq<char>>,
    pattern: Seq<Letter>,
    wrong: Seq<char>,
    c: char,
    u_list: Seq<usize>,
) -> nat {
    score_upto(words, pattern, wrong, c, u_list, pow2(u_list.len()))
}

/// Count the candidates one reveal outcome would keep.
pub(crate) fn outcome_count_exec(
    space: &WordSpace,
    state: &ActiveState,
    c: char,
    u_list: &Vec<usize>,
    mask: u64,
) -> (n: usize)
    requires
        forall|t: int| 0 <= t < u_list@.len() ==> u_list@[t] < state.guess.0@.len(),
    ensures
        n as nat == outcome_count(
            space.words.deep_view(),
            state.guess.0@,
            state.wrong.0@,
            c,
            u_list@,
            mask as nat,
        ),
        n <= space.words@.len(),
{
    proof {
        lemma_filter_with_guess_shrinks(
            space.words.deep_view(),
            state.guess.0@,
            state.wrong.0@.push(c),
        );
    }
    if mask == 0 {
        let mut wrong_plus = copy_word(&state.wrong.0);
        wrong_plus.push(c);
        let hyp = ActiveState {
            guess: GuessState(crate::game::copy_letters(&state.guess.0)),
            wrong: WrongGuesses(wrong_plus),
            lives: None,
        };
        space.matching_state_count(&hyp)
    } else {
        let idxs = mask_to_indices(u_list, mask);
        proof {
            lemma_mask_indices_from(u_list@, mask as nat);
            assert forall|t: int|
                0 <= t < idxs@.len() implies idxs@[t] < state.guess.0@.len() by {
                assert(u_list@.contains(idxs@[t]));
                let j = choose|j: int| 0 <= j < u_list@.len() && u_list@[j] == idxs@[t];
            }
        }
        let overlaid = overlay_exec(&state.guess.0, c, &idxs);
        let hyp = ActiveState {
            guess: GuessState(overlaid),
            wrong: WrongGuesses(copy_word(&state.wrong.0)),
            lives: None,
        };
        proof {
            lemma_filter_with_guess_shrinks(
                space.words.deep_view(),
                hyp.guess.0@,
                hyp.wrong.0@,
            );
        }
        space.matching_state_count(&hyp)
    }
}

/// Sum the contributions of all `2^u` outcomes for the guess `c`.
fn score_for_char(space: &WordSpace, state: &ActiveState, c: char, u_list: &Vec<usize>) -> (s:
    u128)
    requires
        u_list@.len() < 32,
        forall|t: int| 0 <= t < u_list@.len() ==> u_list@[t] < state.guess.0@.len(),
    ensures
        s as nat == guess_score(
            space.words.deep_view(),
            state.guess.0@,
            state.wrong.0@,
            c,
            u_list@,
        ),
{
    let total = space.words.len();
    let bound = pow2_exec(u_list.len() as u64);
    proof {
        lemma2_to64();
        if (u_list@.len() as nat) < 32 {
            lemma_pow2_strictly_increases(u_list@.len() as nat, 32);
        }
        assert(bound <= 0x1_0000_0000);
    }
    let mut s: u128 = 0;
    let mut mask: u64 = 0;
    while mask < bound
        invariant
            bound as nat == pow2(u_list@.len() as nat),
            bound <= 0x1_0000_0000,
            mask <= bound,
            total == space.words@.len(),
            forall|t: int| 0 <= t < u_list@.len() ==> u_list@[t] < state.guess.0@.len(),
            s as nat == score_upto(
                space.words.deep_view(),
                state.guess.0@,
                state.wrong.0@,
                c,
                u_list@,
                mask as nat,
            ),
            s as int <= (mask as int) * 0x40_0000_0000_0000_0000_0000,
        decreases bound - mask,
    {
        let cnt = outcome_count_exec(space, state, c, u_list, mask);
        let ghost pre = s as nat;
        if cnt > 0 {
            let lg = log2_fixed_exec(total, cnt);
            proof {
                lemma_log2_fixed_bound(total as nat, cnt as nat);
                vstd::arithmetic::mul::lemma_mul_upper_bound(
                    cnt as int,
                    0xFFFF_FFFF_FFFF_FFFF,
                    lg as int,
                    0x400000,
                );
                assert((cnt as int) * (lg as int) <= 0x40_0000_0000_0000_0000_0000);
            }
            s = s + (cnt as u128) * (lg as u128);
        }
        proof {
            assert(score_upto(
                space.words.deep_view(),
                state.guess.0@,
                state.wrong.0@,
                c,
                u_list@,
                mask as nat + 1,
            ) == pre + outcome_term(space.words.deep_view().len(), cnt as nat));
            if cnt == 0 {
                assert(outcome_term(space.words.deep_view().len(), 0) == 0);
            }
        }
        mask = mask + 1;
    }
    s
}

/// The characters of `pool` still worth guessing: not confirmed absent and
/// not already shown in the pattern.
pub open spec fn viable_chars(pool: Seq<char>, pattern: Seq<Letter>, wrong: Seq<char>) -> Seq<
    char,
> {
    pool.filter(|ch: char| !wrong.contains(ch) && !pattern.contains(Letter::Character(ch)))
}

/// An empty pool keeps no viable character.
pub proof fn lemma_viable_chars_empty(pattern: Seq<Letter>, wrong: Seq<char>)
    ensures
        viable_chars(Seq::<char>::empty(), pattern, wrong) == Seq::<char>::empty(),
{
    reveal(Seq::filter);
    assert(viable_chars(Seq::<char>::empty(), pattern, wrong) =~= Seq::<char>::empty());
}

/// Extending the pool by one character keeps it exactly when it is viable.
pub proof fn lemma_viable_chars_push(
    pool: Seq<char>,
    x: char,
    pattern: Seq<Letter>,
    wrong: Seq<char>,
)
    ensures
        viable_chars(pool.push(x), pattern, wrong) == if !wrong.contains(x) && !pattern.contains(
            Letter::Character(x),
        ) {
            viable_chars(pool, pattern, wrong).push(x)
        } else {
            viable_chars(pool, pattern, wrong)
        },
{
    reveal(Seq::filter);
    assert((pool.push(x)).drop_last() =~= pool);
}

/// Every viable character comes from the pool and is indeed still viable;
/// and every still-viable pool character is kept.
pub proof fn lemma_viable_chars_membership(
    pool: Seq<char>,
    pattern: Seq<Letter>,
    wrong: Seq<char>,
)
    ensures
        forall|t: int|
            0 <= t < viable_chars(pool, pattern, wrong).len() ==> {
                let ch = #[trigger] viable_chars(pool, pattern, wrong)[t];
                pool.contains(ch) && !wrong.contains(ch) && !pattern.contains(
                    Letter::Character(ch),
                )
            },
        forall|ch: char|
            pool.contains(ch) && !wrong.contains(ch) && !pattern.contains(Letter::Character(ch))
                ==> viable_chars(pool, pattern, wrong).contains(ch),
    decreases pool.len(),
{
    if pool.len() == 0 {
        lemma_viable_chars_empty(pattern, wrong);
        assert(pool =~= Seq::<char>::empty());
    } else {
        let dl = pool.drop_last();
        lemma_viable_chars_membership(dl, pattern, wrong);
        assert(dl.push(pool.last()) =~= pool);
        lemma_viable_chars_push(dl, pool.last(), pattern, wrong);
        let v = viable_chars(pool, pattern, wrong);
        let dv = viable_chars(dl, pattern, wrong);
        assert forall|t: int|
            0 <= t < v.len() implies {
            let ch = #[trigger] v[t];
            pool.contains(ch) && !wrong.contains(ch) && !pattern.contains(Letter::Character(ch))
        } by {
            if t < dv.len() {
                assert(v[t] == dv[t]);
                assert(dl.contains(dv[t]));
                let j = choose|j: int| 0 <= j < dl.len() && dl[j] == dv[t];
                assert(pool[j] == dv[t]);
            } else {
                assert(v[t] == pool.last());
                assert(pool.contains(pool.last()));
            }
        }
        assert forall|ch: char|
            pool.contains(ch) && !wrong.contains(ch) && !pattern.contains(
                Letter::Character(ch),
            ) implies v.contains(ch) by {
            let j = choose|j: int| 0 <= j < pool.len() && pool[j] == ch;
            if j < dl.len() {
                assert(dl[j] == ch);
                assert(dl.contains(ch));
                assert(dv.contains(ch));
                let t = choose|t: int| 0 <= t < dv.len() && dv[t] == ch;
                assert(v[t] == ch);
            } else {
                assert(pool.last() == ch);
                assert(v.last() == ch);
            }
        }
    }
}

/// Filtering a sorted pool keeps it sorted.
pub proof fn lemma_viable_chars_sorted(pool: Seq<char>, pattern: Seq<Letter>, wrong: Seq<char>)
    requires
        sorted_strict(pool),
    ensures
        sorted_strict(viable_chars(pool, pattern, wrong)),
    decreases pool.len(),
{
    if pool.len() == 0 {
        lemma_viable_chars_empty(pattern, wrong);
        assert(pool =~= Seq::<char>::empty());
    } else {
        let dl = pool.drop_last();
        assert(sorted_strict(dl));
        lemma_viable_chars_sorted(dl, pattern, wrong);
        lemma_viable_chars_membership(dl, pattern, wrong);
        assert(dl.push(pool.last()) =~= pool);
        lemma_viable_chars_push(dl, pool.last(), pattern, wrong);
        let v = viable_chars(pool, pattern, wrong);
        let dv = viable_chars(dl, pattern, wrong);
        assert forall|a: int, b: int|
            0 <= a < b < v.len() implies (v[a] as int) < (v[b] as int) by {
            if b < dv.len() {
                assert(v[a] == dv[a] && v[b] == dv[b]);
            } else if b == dv.len() && v.len() == dv.len() + 1 {
                assert(v[b] == pool.last());
                assert(dl.contains(dv[a]));
                let j = choose|j: int| 0 <= j < dl.len() && dl[j] == dv[a];
                assert(pool[j] == dv[a]);
                assert((pool[j] as int) < (pool[pool.len() - 1] as int));
            }
        }
    }
}

/// The viable pool never grows past the pool itself.
pub proof fn lemma_viable_chars_len(pool: Seq<char>, pattern: Seq<Letter>, wrong: Seq<char>)
    ensures
        viable_chars(pool, pattern, wrong).len() <= pool.len(),
    decreases pool.len(),
{
    if pool.len() == 0 {
        lemma_viable_chars_empty(pattern, wrong);
        assert(pool =~= Seq::<char>::empty());
    } else {
        lemma_viable_chars_len(pool.drop_last(), pattern, wrong);
        assert(pool.drop_last().push(pool.last()) =~= pool);
        lemma_viable_chars_push(pool.drop_last(), pool.last(), pattern, wrong);
    }
}

/// A pool holding a character that is no longer viable shrinks strictly when
/// filtered.
pub proof fn lemma_viable_chars_strict(
    pool: Seq<char>,
    pattern: Seq<Letter>,
    wrong: Seq<char>,
    x: char,
)
    requires
        pool.contains(x),
        wrong.contains(x) || pattern.contains(Letter::Character(x)),
    ensures
        viable_chars(pool, pattern, wrong).len() < pool.len(),
    decreases pool.len(),
{
    if pool.len() == 0 {
        let j = choose|j: int| 0 <= j < pool.len() && pool[j] == x;
    } else {
        let dl = pool.drop_last();
        assert(dl.push(pool.last()) =~= pool);
        lemma_viable_chars_push(dl, pool.last(), pattern, wrong);
        if pool.last() == x {
            lemma_viable_chars_len(dl, pattern, wrong);
        } else {
            let j = choose|j: int| 0 <= j < pool.len() && pool[j] == x;
            assert(j < dl.len());
            assert(dl[j] == x);
            assert(dl.contains(x));
            lemma_viable_chars_strict(dl, pattern, wrong, x);
        }
    }
}

/// A suggested move.
pub enum Guess {
    /// Guess this character; `info` is its expected information in units of
    /// 2^-16 of a bit.
    Char { char: char, info: u64 },
    /// A single candidate is left: it must be the secret word.
    Word(Vec<char>),
    /// No candidate is consistent with what is known.
    Unknown,
}

/// The entropy-driven guess selector: a candidate space and a pool of
/// untried characters, kept in increasing code-point order so that ties are
/// broken deterministically towards the smallest code point.
pub struct Guesser {
    pub word_space: WordSpace,
    pub possible_guesses: Vec<char>,
}

impl Guesser {
    /// A selector over the given candidate space, with the given character
    /// pool (sorted, as `unique_chars` yields it).
    pub fn new(word_space: WordSpace, possible_guesses: Vec<char>) -> (g: Self)
        ensures
            g.word_space == word_space,
            g.possible_guesses == possible_guesses,
    {
        Guesser { word_space, possible_guesses }
    }

    /// Shrink the pool to the characters still worth guessing under `state`.
    fn filter_guesses(&mut self, state: &ActiveState)
        ensures
            final(self).word_space == old(self).word_space,
            final(self).possible_guesses@ == viable_chars(
                old(self).possible_guesses@,
                state.guess.0@,
                state.wrong.0@,
            ),
    {
        let mut out: Vec<char> = Vec::new();
        let mut k: usize = 0;
        proof {
            lemma_viable_chars_empty(state.guess.0@, state.wrong.0@);
            assert(self.possible_guesses@.take(0) =~= Seq::<char>::empty());
        }
        while k < self.possible_guesses.len()
            invariant
                k <= self.possible_guesses@.len(),
                out@ == viable_chars(
                    self.possible_guesses@.take(k as int),
                    state.guess.0@,
                    state.wrong.0@,
                ),
            decreases self.possible_guesses@.len() - k,
        {
            let ch = self.possible_guesses[k];
            proof {
                lemma_viable_chars_push(
                    self.possible_guesses@.take(k as int),
                    ch,
                    state.guess.0@,
                    state.wrong.0@,
                );
                assert(self.possible_guesses@.take(k as int).push(ch)
                    =~= self.possible_guesses@.take(k as int + 1));
            }
            if !state.wrong.contains(ch) && !state.guess.has_character(ch) {
                out.push(ch);
            }
            k = k + 1;
        }
        proof {
            assert(self.possible_guesses@.take(self.possible_guesses@.len() as int)
                =~= self.possible_guesses@);
        }
        self.possible_guesses = out;
    }

    /// How many pool characters are still viable under `state`.
    pub fn viable_guess_count(&self, state: &ActiveState) -> (n: usize)
        ensures
            n as nat == viable_chars(
                self.possible_guesses@,
                state.guess.0@,
                state.wrong.0@,
            ).len(),
    {
        let mut n: usize = 0;
        let mut k: usize = 0;
        proof {
            lemma_viable_chars_empty(state.guess.0@, state.wrong.0@);
            assert(self.possible_guesses@.take(0) =~= Seq::<char>::empty());
        }
        while k < self.possible_guesses.len()
            invariant
                k <= self.possible_guesses@.len(),
                n <= k,
                n as nat == viable_chars(
                    self.possible_guesses@.take(k as int),
                    state.guess.0@,
                    state.wrong.0@,
                ).len(),
            decreases self.possible_guesses@.len() - k,
        {
            let ch = self.possible_guesses[k];
            proof {
                lemma_viable_chars_push(
                    self.possible_guesses@.take(k as int),
                    ch,
                    state.guess.0@,
                    state.wrong.0@,
                );
                assert(self.possible_guesses@.take(k as int).push(ch)
                    =~= self.possible_guesses@.take(k as int + 1));
            }
            if !state.wrong.contains(ch) && !state.guess.has_character(ch) {
                n = n + 1;
            }
            k = k + 1;
        }
        proof {
            assert(self.possible_guesses@.take(self.possible_guesses@.len() as int)
                =~= self.possible_guesses@);
        }
        n
    }

    /// One turn of the selector: filter the candidate space with the fresh
    /// snapshot, then either report the outcome (no candidate, or exactly
    /// one) or suggest the character of greatest expected information, ties
    /// going to the smallest code point. A suggested character is never one
    /// already in the pattern or in the wrong set.
    pub fn guess(&mut self, state: &ActiveState) -> (g: Guess)
        requires
            state.guess.0@.len() < 32,
            sorted_strict(old(self).possible_guesses@),
            consistent_words(
                old(self).word_space.words.deep_view(),
                state.guess.0@,
                state.wrong.0@,
            ).len() >= 2 ==> viable_chars(
                old(self).possible_guesses@,
                state.guess.0@,
                state.wrong.0@,
            ).len() > 0,
        ensures
            ({
                let filtered = consistent_words(
                    old(self).word_space.words.deep_view(),
                    state.guess.0@,
                    state.wrong.0@,
                );
                let viable = viable_chars(
                    old(self).possible_guesses@,
                    state.guess.0@,
                    state.wrong.0@,
                );
                let u_list = crate::game::unknowns_of(state.guess.0@);
                &&& final(self).word_space.words.deep_view() == filtered
                &&& (filtered.len() < 2 ==> final(self).possible_guesses
                    == old(self).possible_guesses)
                &&& ((g is Unknown) <==> filtered.len() == 0)
                &&& ((g is Word) <==> filtered.len() == 1)
                &&& (g matches Guess::Word(w) ==> w@ == filtered[0])
                &&& (filtered.len() >= 2 ==> g is Char)
                &&& (g matches Guess::Char { char: c, info } ==> {
                    &&& final(self).possible_guesses@ == viable
                    &&& sorted_strict(final(self).possible_guesses@)
                    &&& viable.contains(c)
                    &&& !state.wrong.0@.contains(c)
                    &&& !state.guess.0@.contains(Letter::Character(c))
                    &&& forall|d: char|
                        viable.contains(d) ==> guess_score(filtered, state.guess.0@, state.wrong.0@, d, u_list)
                            <= guess_score(filtered, state.guess.0@, state.wrong.0@, c, u_list)
                    &&& forall|d: char|
                        viable.contains(d) && guess_score(filtered, state.guess.0@, state.wrong.0@, d, u_list)
                            == guess_score(filtered, state.guess.0@, state.wrong.0@, c, u_list)
                            ==> c as int <= d as int
                    &&& info as nat == guess_score(filtered, state.guess.0@, state.wrong.0@, c, u_list)
                        / filtered.len()
                })
            }),
    {
        self.word_space.filter_with_guess(state);
        let n = self.word_space.word_count();
        if n == 0 {
            return Guess::Unknown;
        }
        if n == 1 {
            let w = copy_word(&self.word_space.words[0]);
            proof {
                lemma_word_deep_view(self.word_space.words@[0]);
            }
            return Guess::Word(w);
        }
        self.filter_guesses(state);
        proof {
            lemma_viable_chars_sorted(
                old(self).possible_guesses@,
                state.guess.0@,
                state.wrong.0@,
            );
            lemma_viable_chars_membership(
                old(self).possible_guesses@,
                state.guess.0@,
                state.wrong.0@,
            );
            crate::game::lemma_unknowns_of_props(state.guess.0@);
        }
        let indices = state.guess.unknown_indices();
        let ghost filtered = self.word_space.words.deep_view();
        let ghost viable = self.possible_guesses@;
        let mut best_char: char = self.possible_guesses[0];
        let mut best_score: u128 = score_for_char(&self.word_space, state, best_char, &indices);
        let ghost mut best_j: int = 0;
        let mut k: usize = 1;
        while k < self.possible_guesses.len()
            invariant
                1 <= k <= self.possible_guesses@.len(),
                self.possible_guesses@ == viable,
                self.word_space.words.deep_view() == filtered,
                sorted_strict(viable),
                state.guess.0@.len() < 32,
                indices@ == crate::game::unknowns_of(state.guess.0@),
                indices@.len() < 32,
                forall|t: int| 0 <= t < indices@.len() ==> indices@[t] < state.guess.0@.len(),
                0 <= best_j < k,
                viable[best_j] == best_char,
                viable.contains(best_char),
                best_score as nat == guess_score(
                    filtered,
                    state.guess.0@,
                    state.wrong.0@,
                    best_char,
                    indices@,
                ),
                forall|j: int|
                    0 <= j < k ==> guess_score(
                        filtered,
                        state.guess.0@,
                        state.wrong.0@,
                        #[trigger] viable[j],
                        indices@,
                    ) <= best_score as nat,
                forall|j: int|
                    0 <= j < k && guess_score(
                        filtered,
                        state.guess.0@,
                        state.wrong.0@,
                        #[trigger] viable[j],
                        indices@,
                    ) == best_score as nat ==> best_char as int <= viable[j] as int,
            decreases self.possible_guesses@.len() - k,
        {
            let ch = self.possible_guesses[k];
            let sc = score_for_char(&self.word_space, state, ch, &indices);
            if sc > best_score {
                best_char = ch;
                best_score = sc;
                proof {
                    best_j = k as int;
                    assert(viable.contains(viable[k as int]));
                }
            }
            k = k + 1;
        }
        proof {
            assert forall|d: char|
                viable.contains(d) implies guess_score(
                filtered,
                state.guess.0@,
                state.wrong.0@,
                d,
                indices@,
            ) <= best_score as nat by {
                let j = choose|j: int| 0 <= j < viable.len() && viable[j] == d;
            }
            assert forall|d: char|
                viable.contains(d) && guess_score(
                    filtered,
                    state.guess.0@,
                    state.wrong.0@,
                    d,
                    indices@,
                ) == best_score as nat implies best_char as int <= d as int by {
                let j = choose|j: int| 0 <= j < viable.len() && viable[j] == d;
            }
        }
        proof {
            score_division_bound(filtered, state.guess.0@, state.wrong.0@, best_char, indices@);
        }
        let info = compute_info(best_score, n);
        Guess::Char { char: best_char, info }
    }
}

/// The expected information of the best guess: its summed score divided by
/// the candidate total.
fn compute_info(score: u128, total: usize) -> (r: u64)
    requires
        total >= 1,
        score <= 0x8000_0000 * ((total as u128) * 0x400000),
    ensures
        r as nat == (score as nat) / (total as nat),
{
    proof {
        vstd::arithmetic::div_mod::lemma_div_is_ordered(
            score as int,
            0x8000_0000 * ((total as int) * 0x400000),
            total as int,
        );
        vstd::arithmetic::div_mod::lemma_div_multiples_vanish(
            0x8000_0000int * 0x400000,
            total as int,
        );
        assert((total as int) * (0x8000_0000 * 0x400000) == 0x8000_0000 * ((total as int)
            * 0x400000)) by {
            vstd::arithmetic::mul::lemma_mul_is_associative(
                0x8000_0000,
                total as int,
                0x400000,
            );
            vstd::arithmetic::mul::lemma_mul_is_commutative(
                total as int,
                0x8000_0000int * 0x400000,
            );
        }
    }
    (score / (total as u128)) as u64
}

/// The summed score stays below `2^u * total * 0x400000`, so the divided
/// expected information fits comfortably in 64 bits.
proof fn score_division_bound(
    words: Seq<Seq<char>>,
    pattern: Seq<Letter>,
    wrong: Seq<char>,
    c: char,
    u_list: Seq<usize>,
)
    requires
        u_list.len() < 32,
        words.len() < 0x1_0000_0000_0000_0000,
    ensures
        guess_score(words, pattern, wrong, c, u_list) <= 0x8000_0000 * (words.len() * 0x400000),
{
    lemma2_to64();
    if u_list.len() < 32 {
        lemma_pow2_strictly_increases(u_list.len(), 32);
    }
    score_upto_bound(words, pattern, wrong, c, u_list, pow2(u_list.len()));
    lemma_mul_inequality(
        pow2(u_list.len()) as int,
        0x8000_0000,
        (words.len() * 0x400000) as int,
    );
}

/// Each outcome contributes at most `total * 0x400000` to the summed score.
proof fn score_upto_bound(
    words: Seq<Seq<char>>,
    pattern: Seq<Letter>,
    wrong: Seq<char>,
    c: char,
    u_list: Seq<usize>,
    m: nat,
)
    requires
        words.len() < 0x1_0000_0000_0000_0000,
    ensures
        score_upto(words, pattern, wrong, c, u_list, m) <= m * (words.len() * 0x400000),
    decreases m,
{
    if m > 0 {
        score_upto_bound(words, pattern, wrong, c, u_list, (m - 1) as nat);
        let cnt = outcome_count(words, pattern, wrong, c, u_list, (m - 1) as nat);
        let total = words.len();
        assert(outcome_term(total, cnt) <= total * 0x400000) by {
            if cnt > 0 {
                outcome_count_within(words, pattern, wrong, c, u_list, (m - 1) as nat);
                lemma_log2_fixed_bound(total, cnt);
                lemma_mul_inequality(cnt as int, total as int, log2_fixed(total, cnt) as int);
                lemma_mul_inequality(log2_fixed(total, cnt) as int, 0x400000, total as int);
                vstd::arithmetic::mul::lemma_mul_is_commutative(
                    log2_fixed(total, cnt) as int,
                    total as int,
                );
                vstd::arithmetic::mul::lemma_mul_is_commutative(0x400000, total as int);
            }
        }
        vstd::arithmetic::mul::lemma_mul_is_distributive_add_other_way(
            (words.len() * 0x400000) as int,
            m as int - 1,
            1,
        );
    }
}

/// Every outcome keeps at most the whole candidate set.
proof fn outcome_count_within(
    words: Seq<Seq<char>>,
    pattern: Seq<Letter>,
    wrong: Seq<char>,
    c: char,
    u_list: Seq<usize>,
    mask: nat,
)
    ensures
        outcome_count(words, pattern, wrong, c, u_list, mask) <= words.len(),
{
    if mask == 0 {
        lemma_filter_with_guess_shrinks(words, pattern, wrong.push(c));
    } else {
        lemma_filter_with_guess_shrinks(
            words,
            overlay_at(pattern, c, mask_indices(u_list, mask)),
            wrong,
        );
    }
}


/// The candidate counts of the outcomes with mask below `m`, summed.
pub open spec fn outcome_count_sum(
    words: Seq<Seq<char>>,
    pattern: Seq<Letter>,
    wrong: Seq<char>,
    c: char,
    u_list: Seq<usize>,
    m: nat,
) -> nat
    decreases m,
{
    if m == 0 {
        0
    } else {
        outcome_count_sum(words, pattern, wrong, c, u_list, (m - 1) as nat) + outcome_count(
            words,
            pattern,
            wrong,
            c,
            u_list,
            (m - 1) as nat,
        )
    }
}

/// Whether the outcome `mask` keeps the single word `w`.
pub open spec fn outcome_matches(
    w: Seq<char>,
    pattern: Seq<Letter>,
    wrong: Seq<char>,
    c: char,
    u_list: Seq<usize>,
    mask: nat,
) -> bool {
    if mask == 0 {
        crate::game::spec_matches(w, pattern, wrong.push(c))
    } else {
        crate::game::spec_matches(w, overlay_at(pattern, c, mask_indices(u_list, mask)), wrong)
    }
}

/// How many outcomes with mask below `m` keep the word `w`.
pub open spec fn matching_outcomes(
    w: Seq<char>,
    pattern: Seq<Letter>,
    wrong: Seq<char>,
    c: char,
    u_list: Seq<usize>,
    m: nat,
) -> nat
    decreases m,
{
    if m == 0 {
        0
    } else {
        matching_outcomes(w, pattern, wrong, c, u_list, (m - 1) as nat) + if outcome_matches(
            w,
            pattern,
            wrong,
            c,
            u_list,
            (m - 1) as nat,
        ) {
            1nat
        } else {
            0nat
        }
    }
}

proof fn lemma_sum_empty(pattern: Seq<Letter>, wrong: Seq<char>, c: char, u_list: Seq<usize>, m: nat)
    ensures
        outcome_count_sum(Seq::<Seq<char>>::empty(), pattern, wrong, c, u_list, m) == 0,
    decreases m,
{
    if m > 0 {
        lemma_sum_empty(pattern, wrong, c, u_list, (m - 1) as nat);
        let mask = (m - 1) as nat;
        if mask == 0 {
            crate::words::lemma_consistent_words_empty(pattern, wrong.push(c));
        } else {
            crate::words::lemma_consistent_words_empty(
                overlay_at(pattern, c, mask_indices(u_list, mask)),
                wrong,
            );
        }
    }
}

proof fn lemma_sum_push(
    words: Seq<Seq<char>>,
    w: Seq<char>,
    pattern: Seq<Letter>,
    wrong: Seq<char>,
    c: char,
    u_list: Seq<usize>,
    m: nat,
)
    ensures
        outcome_count_sum(words.push(w), pattern, wrong, c, u_list, m) == outcome_count_sum(
            words,
            pattern,
            wrong,
            c,
            u_list,
            m,
        ) + matching_outcomes(w, pattern, wrong, c, u_list, m),
    decreases m,
{
    if m > 0 {
        lemma_sum_push(words, w, pattern, wrong, c, u_list, (m - 1) as nat);
        let mask = (m - 1) as nat;
        if mask == 0 {
            crate::words::lemma_consistent_words_push(words, w, pattern, wrong.push(c));
        } else {
            crate::words::lemma_consistent_words_push(
                words,
                w,
                overlay_at(pattern, c, mask_indices(u_list, mask)),
                wrong,
            );
        }
    }
}

/// Bit `i` of `pow2(j)` is set exactly when `i == j`.
proof fn lemma_pow2_bit(j: nat, i: nat)
    ensures
        mask_bit(pow2(j), i) <==> i == j,
{
    lemma2_to64();
    lemma_pow2_pos(i);
    lemma_pow2_pos(j);
    if i == j {
        lemma_div_multiples_vanish(1, pow2(j) as int);
        assert(pow2(j) as int * 1 == pow2(j) as int);
        assert(pow2(j) as int / pow2(j) as int == 1);
    } else if i < j {
        lemma_pow2_adds(i, (j - i) as nat);
        lemma_div_multiples_vanish(pow2((j - i) as nat) as int, pow2(i) as int);
        assert(pow2(j) as int == pow2(i) as int * pow2((j - i) as nat) as int);
        assert(pow2(j) as int / pow2(i) as int == pow2((j - i) as nat) as int);
        lemma_pow2_adds((j - i - 1) as nat, 1);
        vstd::arithmetic::div_mod::lemma_mod_multiples_basic(
            pow2((j - i - 1) as nat) as int,
            2,
        );
        assert(pow2((j - i) as nat) as int == pow2((j - i - 1) as nat) as int * 2);
        assert(pow2((j - i) as nat) as int % 2 == 0);
    } else {
        lemma_pow2_strictly_increases(j, i);
        vstd::arithmetic::div_mod::lemma_basic_div(pow2(j) as int, pow2(i) as int);
    }
}

/// A mask below `pow2(len)` with no set bit below `len` is zero.
proof fn lemma_no_bits_zero(m: nat, len: nat)
    requires
        m < pow2(len),
        forall|i: nat| i < len ==> !(#[trigger] mask_bit(m, i)),
    ensures
        m == 0,
    decreases len,
{
    lemma2_to64();
    if len > 0 {
        let top = (len - 1) as nat;
        lemma_pow2_pos(top);
        lemma_pow2_adds(top, 1);
        lemma_multiply_divide_lt(m as int, pow2(top) as int, 2);
        let q = m / pow2(top);
        vstd::arithmetic::div_mod::lemma_small_mod(q, 2);
        assert(!mask_bit(m, top));
        assert(q == 0);
        vstd::arithmetic::div_mod::lemma_fundamental_div_mod(m as int, pow2(top) as int);
        vstd::arithmetic::div_mod::lemma_mod_bound(m as int, pow2(top) as int);
        assert(m < pow2(top));
        lemma_no_bits_zero(m, top);
    }
}

/// A mask below `pow2(len)` whose only set bit below `len` is `j` is exactly
/// `pow2(j)`.
proof fn lemma_single_bit(m: nat, j: nat, len: nat)
    requires
        m < pow2(len),
        j < len,
        mask_bit(m, j),
        forall|i: nat| i < len && i != j ==> !(#[trigger] mask_bit(m, i)),
    ensures
        m == pow2(j),
    decreases len,
{
    lemma2_to64();
    let top = (len - 1) as nat;
    lemma_pow2_pos(top);
    lemma_pow2_adds(top, 1);
    lemma_multiply_divide_lt(m as int, pow2(top) as int, 2);
    let q = m / pow2(top);
    vstd::arithmetic::div_mod::lemma_small_mod(q, 2);
    vstd::arithmetic::div_mod::lemma_fundamental_div_mod(m as int, pow2(top) as int);
    vstd::arithmetic::div_mod::lemma_mod_bound(m as int, pow2(top) as int);
    if j == top {
        assert(q == 1);
        assert(m as int == pow2(top) as int * q + (m as int) % (pow2(top) as int));
        assert(pow2(top) as int * 1 == pow2(top) as int);
        let r = (m - pow2(top)) as nat;
        assert(m == pow2(top) + r);
        assert(r < pow2(top));
        assert forall|i: nat| i < top implies !(#[trigger] mask_bit(r, i)) by {
            lemma_pow2_pos(i);
            let d = pow2(i) as int;
            vstd::arithmetic::div_mod::lemma_fundamental_div_mod(r as int, d);
            vstd::arithmetic::div_mod::lemma_mod_bound(r as int, d);
            lemma_pow2_adds(i, (top - i) as nat);
            assert(pow2(top) as int == d * pow2((top - i) as nat) as int);
            let qq = pow2((top - i) as nat) as int + (r as int) / d;
            assert(m as int == qq * d + (r as int) % d) by {
                assert(r as int == d * ((r as int) / d) + (r as int) % d);
                vstd::arithmetic::mul::lemma_mul_is_distributive_add_other_way(
                    d,
                    pow2((top - i) as nat) as int,
                    (r as int) / d,
                );
                assert(qq * d == pow2((top - i) as nat) as int * d + ((r as int) / d) * d);
                vstd::arithmetic::mul::lemma_mul_is_commutative(pow2((top - i) as nat) as int, d);
                vstd::arithmetic::mul::lemma_mul_is_commutative((r as int) / d, d);
                assert(pow2(top) as int == d * pow2((top - i) as nat) as int);
            }
            vstd::arithmetic::div_mod::lemma_fundamental_div_mod_converse_div(
                m as int,
                d,
                qq,
                (r as int) % d,
            );
            assert((m as int) / d == qq);
            lemma_pow2_adds((top - i - 1) as nat, 1);
            vstd::arithmetic::div_mod::lemma_add_mod_noop(
                pow2((top - i) as nat) as int,
                (r as int) / d,
                2,
            );
            vstd::arithmetic::div_mod::lemma_mod_multiples_basic(
                pow2((top - i - 1) as nat) as int,
                2,
            );
            assert(pow2((top - i) as nat) as int % 2 == 0);
            vstd::arithmetic::div_mod::lemma_mod_bound((r as int) / d, 2);
            vstd::arithmetic::div_mod::lemma_small_mod((((r as int) / d) % 2) as nat, 2);
            assert(qq % 2 == ((r as int) / d) % 2);
            assert(!mask_bit(m, i));
        }
        lemma_no_bits_zero(r, top);
        assert(m == pow2(top));
    } else {
        assert(!mask_bit(m, top));
        assert(q == 0);
        assert(m < pow2(top));
        lemma_single_bit(m, j, top);
    }
}

/// With no set bit below the list's length, no position is selected.
proof fn lemma_mask_indices_none(u_list: Seq<usize>, m: nat)
    requires
        forall|i: nat| i < u_list.len() ==> !(#[trigger] mask_bit(m, i)),
    ensures
        mask_indices(u_list, m) == Seq::<usize>::empty(),
    decreases u_list.len(),
{
    if u_list.len() > 0 {
        lemma_mask_indices_none(u_list.drop_last(), m);
        assert(!mask_bit(m, (u_list.len() - 1) as nat));
    }
}

/// A set bit selects its position.
proof fn lemma_mask_indices_has(u_list: Seq<usize>, m: nat, i: int)
    requires
        0 <= i < u_list.len(),
        mask_bit(m, i as nat),
    ensures
        mask_indices(u_list, m).contains(u_list[i]),
    decreases u_list.len(),
{
    let mi = mask_indices(u_list, m);
    if i == u_list.len() - 1 {
        assert(mi.last() == u_list[i]);
    } else {
        lemma_mask_indices_has(u_list.drop_last(), m, i);
        let dm = mask_indices(u_list.drop_last(), m);
        let t = choose|t: int| 0 <= t < dm.len() && dm[t] == u_list.drop_last()[i];
        assert(u_list.drop_last()[i] == u_list[i]);
        assert(mi[t] == u_list[i]);
    }
}

/// The single-bit mask selects exactly its one position.
proof fn lemma_mask_indices_single(u_list: Seq<usize>, j: int)
    requires
        0 <= j < u_list.len(),
    ensures
        mask_indices(u_list, pow2(j as nat)) == seq![u_list[j]],
    decreases u_list.len(),
{
    let top = u_list.len() - 1;
    lemma_pow2_bit(j as nat, top as nat);
    if j == top {
        assert forall|i: nat| i < u_list.drop_last().len() implies !(#[trigger] mask_bit(
            pow2(j as nat),
            i,
        )) by {
            lemma_pow2_bit(j as nat, i);
        }
        lemma_mask_indices_none(u_list.drop_last(), pow2(j as nat));
        assert(mask_indices(u_list, pow2(j as nat)) =~= seq![u_list[j]]);
    } else {
        lemma_mask_indices_single(u_list.drop_last(), j);
        assert(u_list.drop_last()[j] == u_list[j]);
    }
}

/// Every candidate that matches the snapshot is kept by exactly one outcome,
/// provided the guessed character is not already revealed and the candidate
/// holds it at most once.
pub proof fn lemma_word_matches_one_outcome(
    w: Seq<char>,
    pattern: Seq<Letter>,
    wrong: Seq<char>,
    c: char,
    u_list: Seq<usize>,
)
    requires
        pattern.len() <= usize::MAX,
        u_list == unknowns_of(pattern),
        crate::game::spec_matches(w, pattern, wrong),
        !pattern.contains(Letter::Character(c)),
        char_positions(w, c).len() <= 1,
    ensures
        exists|ms: nat|
            ms < pow2(u_list.len()) && #[trigger] outcome_matches(w, pattern, wrong, c, u_list, ms)
                && (forall|mask: nat|
                mask < pow2(u_list.len()) ==> (outcome_matches(w, pattern, wrong, c, u_list, mask)
                    <==> mask == ms)),
{
    lemma_unknowns_of_props(pattern);
    lemma_char_positions_props(w, c);
    let cp = char_positions(w, c);
    lemma_pow2_pos(u_list.len());
    if cp.len() == 0 {
        assert(!w.contains(c));
        let ms: nat = 0;
        assert(outcome_matches(w, pattern, wrong, c, u_list, ms)) by {
            assert forall|i: int| 0 <= i < w.len() implies !wrong.push(c).contains(
                #[trigger] w[i],
            ) by {
                if wrong.push(c).contains(w[i]) {
                    let t = choose|t: int|
                        0 <= t < wrong.push(c).len() && wrong.push(c)[t] == w[i];
                    if t < wrong.len() {
                        assert(wrong.contains(w[i]));
                    } else {
                        assert(w[i] == c);
                        assert(w.contains(c));
                    }
                }
            }
        }
        assert forall|mask: nat|
            mask < pow2(u_list.len()) && mask != 0 implies !outcome_matches(
            w,
            pattern,
            wrong,
            c,
            u_list,
            mask,
        ) by {
            if forall|i: nat| i < u_list.len() ==> !(#[trigger] mask_bit(mask, i)) {
                lemma_no_bits_zero(mask, u_list.len());
            } else {
                let i = choose|i: nat| i < u_list.len() && #[trigger] mask_bit(mask, i);
                lemma_mask_indices_has(u_list, mask, i as int);
                let q = u_list[i as int];
                if outcome_matches(w, pattern, wrong, c, u_list, mask) {
                    let mi = mask_indices(u_list, mask);
                    let t = choose|t: int| 0 <= t < mi.len() && mi[t] == q;
                    assert(idx_in(mi, q as int));
                    assert(overlay_at(pattern, c, mi)[q as int] == Letter::Character(c));
                    assert(w[q as int] == c);
                    assert(cp.contains(q));
                }
            }
        }
        assert(outcome_matches(w, pattern, wrong, c, u_list, ms) && ms < pow2(u_list.len()) && (
        forall|mask: nat|
            mask < pow2(u_list.len()) ==> (outcome_matches(w, pattern, wrong, c, u_list, mask)
                <==> mask == ms)));
    } else {
        let p = cp[0];
        assert(w[p as int] == c);
        assert(pattern[p as int] == Letter::Unknown) by {
            if pattern[p as int] == Letter::Character(w[p as int]) {
                assert(pattern.contains(Letter::Character(c)));
            }
        }
        assert(u_list.contains(p));
        let j = choose|j: int| 0 <= j < u_list.len() && u_list[j] == p;
        let ms = pow2(j as nat);
        lemma_pow2_strictly_increases(j as nat, u_list.len());
        lemma_pow2_pos(j as nat);
        lemma_mask_indices_single(u_list, j);
        assert(outcome_matches(w, pattern, wrong, c, u_list, ms)) by {
            let mi = mask_indices(u_list, ms);
            assert(mi == seq![p]);
            let ov = overlay_at(pattern, c, mi);
            assert forall|q: int|
                0 <= q < w.len() implies (#[trigger] ov[q] == Letter::Unknown || ov[q]
                == Letter::Character(w[q])) by {
                if idx_in(mi, q) {
                    let t = choose|t: int| 0 <= t < mi.len() && mi[t] as int == q;
                    assert(t == 0);
                    assert(q == p as int);
                    assert(ov[q] == Letter::Character(c));
                }
            }
        }
        assert forall|mask: nat|
            mask < pow2(u_list.len()) && mask != ms implies !outcome_matches(
            w,
            pattern,
            wrong,
            c,
            u_list,
            mask,
        ) by {
            if mask == 0 {
                assert(wrong.push(c)[wrong.len() as int] == c);
                assert(wrong.push(c).contains(w[p as int]));
            } else {
                if outcome_matches(w, pattern, wrong, c, u_list, mask) {
                    if exists|i: nat|
                        i < u_list.len() && i != j as nat && #[trigger] mask_bit(mask, i) {
                        let i = choose|i: nat|
                            i < u_list.len() && i != j as nat && #[trigger] mask_bit(mask, i);
                        lemma_mask_indices_has(u_list, mask, i as int);
                        let q = u_list[i as int];
                        let mi = mask_indices(u_list, mask);
                        let t = choose|t: int| 0 <= t < mi.len() && mi[t] == q;
                        assert(idx_in(mi, q as int));
                        assert(overlay_at(pattern, c, mi)[q as int] == Letter::Character(c));
                        assert(w[q as int] == c);
                        assert(cp.contains(q));
                        let tq = choose|tq: int| 0 <= tq < cp.len() && cp[tq] == q;
                        assert(tq == 0);
                        assert(q == p);
                        assert(u_list[i as int] == u_list[j]);
                        assert(false);
                    } else {
                        if mask_bit(mask, j as nat) {
                            lemma_single_bit(mask, j as nat, u_list.len());
                            assert(false);
                        } else {
                            assert forall|i: nat|
                                i < u_list.len() implies !(#[trigger] mask_bit(mask, i)) by {
                                if i != j as nat && mask_bit(mask, i) {
                                    assert(exists|i2: nat|
                                        i2 < u_list.len() && i2 != j as nat && #[trigger] mask_bit(
                                            mask,
                                            i2,
                                        ));
                                }
                            }
                            lemma_no_bits_zero(mask, u_list.len());
                            assert(false);
                        }
                    }
                }
            }
        }
        assert(outcome_matches(w, pattern, wrong, c, u_list, ms) && ms < pow2(u_list.len()) && (
        forall|mask: nat|
            mask < pow2(u_list.len()) ==> (outcome_matches(w, pattern, wrong, c, u_list, mask)
                <==> mask == ms)));
    }
}

/// A nonzero mask below `pow2(len)` selects at least one position.
pub proof fn lemma_mask_indices_empty_zero(u_list: Seq<usize>, m: nat)
    requires
        mask_indices(u_list, m) == Seq::<usize>::empty(),
        m < pow2(u_list.len()),
    ensures
        m == 0,
{
    if m != 0 {
        assert forall|i: nat| i < u_list.len() implies !(#[trigger] mask_bit(m, i)) by {
            if mask_bit(m, i) {
                lemma_mask_indices_has(u_list, m, i as int);
                let t = choose|t: int|
                    0 <= t < mask_indices(u_list, m).len() && mask_indices(u_list, m)[t]
                        == u_list[i as int];
            }
        }
        lemma_no_bits_zero(m, u_list.len());
    }
}

/// Every candidate that matches the snapshot is kept by at least one of the
/// outcomes, provided the guessed character is not already revealed.
pub proof fn lemma_word_matches_some_outcome(
    w: Seq<char>,
    pattern: Seq<Letter>,
    wrong: Seq<char>,
    c: char,
    u_list: Seq<usize>,
)
    requires
        pattern.len() <= usize::MAX,
        u_list == unknowns_of(pattern),
        crate::game::spec_matches(w, pattern, wrong),
        !pattern.contains(Letter::Character(c)),
    ensures
        exists|m: nat|
            m < pow2(u_list.len()) && #[trigger] outcome_matches(w, pattern, wrong, c, u_list, m),
{
    lemma_unknowns_of_props(pattern);
    lemma_char_positions_props(w, c);
    let cp = char_positions(w, c);
    lemma_pow2_pos(u_list.len());
    if cp.len() == 0 {
        assert(!w.contains(c));
        assert(outcome_matches(w, pattern, wrong, c, u_list, 0)) by {
            assert forall|i: int| 0 <= i < w.len() implies !wrong.push(c).contains(
                #[trigger] w[i],
            ) by {
                if wrong.push(c).contains(w[i]) {
                    let t = choose|t: int|
                        0 <= t < wrong.push(c).len() && wrong.push(c)[t] == w[i];
                    if t < wrong.len() {
                        assert(wrong.contains(w[i]));
                    } else {
                        assert(w[i] == c);
                        assert(w.contains(c));
                    }
                }
            }
        }
    } else {
        let p = cp[0];
        assert(w[p as int] == c);
        assert(pattern[p as int] == Letter::Unknown) by {
            if pattern[p as int] == Letter::Character(w[p as int]) {
                assert(pattern.contains(Letter::Character(c)));
            }
        }
        assert(u_list.contains(p));
        let j = choose|j: int| 0 <= j < u_list.len() && u_list[j] == p;
        let ms = pow2(j as nat);
        lemma_pow2_strictly_increases(j as nat, u_list.len());
        lemma_pow2_pos(j as nat);
        lemma_mask_indices_single(u_list, j);
        assert(outcome_matches(w, pattern, wrong, c, u_list, ms)) by {
            let mi = mask_indices(u_list, ms);
            assert(mi == seq![p]);
            let ov = overlay_at(pattern, c, mi);
            assert forall|q: int|
                0 <= q < w.len() implies (#[trigger] ov[q] == Letter::Unknown || ov[q]
                == Letter::Character(w[q])) by {
                if idx_in(mi, q) {
                    let t = choose|t: int| 0 <= t < mi.len() && mi[t] as int == q;
                    assert(t == 0);
                    assert(q == p as int);
                    assert(ov[q] == Letter::Character(c));
                }
            }
        }
    }
}

proof fn lemma_matching_outcomes_delta(
    w: Seq<char>,
    pattern: Seq<Letter>,
    wrong: Seq<char>,
    c: char,
    u_list: Seq<usize>,
    ms: nat,
    m: nat,
)
    requires
        forall|mask: nat|
            mask < m ==> (#[trigger] outcome_matches(w, pattern, wrong, c, u_list, mask) <==> mask
                == ms),
    ensures
        matching_outcomes(w, pattern, wrong, c, u_list, m) == if ms < m {
            1nat
        } else {
            0nat
        },
    decreases m,
{
    if m > 0 {
        lemma_matching_outcomes_delta(w, pattern, wrong, c, u_list, ms, (m - 1) as nat);
    }
}

/// The reveal outcomes of one guess partition the candidate set: when every
/// held word matches the snapshot, the guessed character is not already
/// revealed, and no held word holds it more than once, the outcome counts
/// sum to the whole space — equivalently, the matching fractions of all
/// `2^u` outcomes sum to exactly one.
pub proof fn lemma_outcomes_partition(
    words: Seq<Seq<char>>,
    pattern: Seq<Letter>,
    wrong: Seq<char>,
    c: char,
)
    requires
        pattern.len() <= usize::MAX,
        forall|t: int|
            0 <= t < words.len() ==> crate::game::spec_matches(
                #[trigger] words[t],
                pattern,
                wrong,
            ),
        !pattern.contains(Letter::Character(c)),
        forall|t: int| 0 <= t < words.len() ==> char_positions(#[trigger] words[t], c).len() <= 1,
    ensures
        outcome_count_sum(
            words,
            pattern,
            wrong,
            c,
            unknowns_of(pattern),
            pow2(unknowns_of(pattern).len()),
        ) == words.len(),
    decreases words.len(),
{
    let u_list = unknowns_of(pattern);
    let m = pow2(u_list.len());
    if words.len() == 0 {
        assert(words =~= Seq::<Seq<char>>::empty());
        lemma_sum_empty(pattern, wrong, c, u_list, m);
    } else {
        let dl = words.drop_last();
        let w = words.last();
        lemma_outcomes_partition(dl, pattern, wrong, c);
        assert(dl.push(w) =~= words);
        lemma_sum_push(dl, w, pattern, wrong, c, u_list, m);
        lemma_word_matches_one_outcome(w, pattern, wrong, c, u_list);
        let ms = choose|ms: nat|
            ms < pow2(u_list.len()) && #[trigger] outcome_matches(
                w,
                pattern,
                wrong,
                c,
                u_list,
                ms,
            ) && (forall|mask: nat|
                mask < pow2(u_list.len()) ==> (outcome_matches(w, pattern, wrong, c, u_list, mask)
                    <==> mask == ms));
        lemma_matching_outcomes_delta(w, pattern, wrong, c, u_list, ms, m);
    }
}

} // verus!
