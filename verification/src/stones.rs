//! Engraved stones that change on each blink: a zero becomes a one, a number
//! with an even count of digits splits into its two halves, and anything else
//! is multiplied by 2024.
use vstd::prelude::*;
use std::collections::HashMap;

verus! {

broadcast use vstd::std_specs::hash::group_hash_axioms;

/// Ten to the `k`.
pub open spec fn pow10(k: nat) -> int
    decreases k,
{
    if k == 0 {
        1
    } else {
        10 * pow10((k - 1) as nat)
    }
}

/// How many decimal digits `n` has; one for values below ten.
pub open spec fn digit_count(n: int) -> nat
    decreases n,
{
    if n < 10 {
        1
    } else {
        1 + digit_count(n / 10)
    }
}

pub proof fn lemma_pow10_pos(k: nat)
    ensures
        pow10(k) >= 1,
    decreases k,
{
    if k > 0 {
        lemma_pow10_pos((k - 1) as nat);
    }
}

pub proof fn lemma_pow10_monotone(a: nat, b: nat)
    requires
        a <= b,
    ensures
        pow10(a) <= pow10(b),
    decreases b,
{
    if a < b {
        lemma_pow10_monotone(a, (b - 1) as nat);
        lemma_pow10_pos((b - 1) as nat);
    }
}

pub proof fn lemma_pow10_gt(k: nat)
    ensures
        pow10(k) > k,
    decreases k,
{
    if k > 0 {
        lemma_pow10_gt((k - 1) as nat);
    }
}

/// A positive number lies between the powers of ten that its digit count
/// names.
pub proof fn lemma_digit_count_bounds(n: int)
    requires
        n >= 1,
    ensures
        digit_count(n) >= 1,
        pow10((digit_count(n) - 1) as nat) <= n < pow10(digit_count(n)),
    decreases n,
{
    if n < 10 {
    } else {
        lemma_digit_count_bounds(n / 10);
        let d = digit_count(n / 10);
        assert(10 * (n / 10) <= n && n < 10 * (n / 10) + 10) by (nonlinear_arith)
            requires
                n >= 10,
        ;
        assert(10 * pow10((d - 1) as nat) <= 10 * (n / 10)) by (nonlinear_arith)
            requires
                pow10((d - 1) as nat) <= n / 10,
        ;
        assert(10 * (n / 10) + 10 <= 10 * pow10(d)) by (nonlinear_arith)
            requires
                n / 10 < pow10(d),
        ;
    }
}

/// No value a machine word can hold has more than twenty digits.
pub proof fn lemma_digit_count_le_20(n: int)
    requires
        0 <= n <= u64::MAX,
    ensures
        digit_count(n) <= 20,
{
    if n >= 1 {
        lemma_digit_count_bounds(n);
        if digit_count(n) > 20 {
            lemma_pow10_monotone(20, (digit_count(n) - 1) as nat);
            assert(pow10(20) > u64::MAX) by {
                reveal_with_fuel(pow10, 21);
            }
        }
    }
}

/// One blink of a single stone: `0` becomes `1`; an even digit count splits
/// the stone into its upper and lower halves; otherwise the stone is
/// multiplied by 2024.
pub fn transition_stone(num: &usize) -> (r: Vec<usize>)
    requires
        *num == 0 || digit_count(*num as int) % 2 == 0 || (*num) * 2024 <= usize::MAX,
    ensures
        *num == 0 ==> r@ == seq![1usize],
        *num != 0 && digit_count(*num as int) % 2 == 1 ==> r@ == seq![((*num) * 2024) as usize],
        *num != 0 && digit_count(*num as int) % 2 == 0 ==> r@ == seq![
            ((*num as int) / pow10((digit_count(*num as int) / 2) as nat)) as usize,
            ((*num as int) % pow10((digit_count(*num as int) / 2) as nat)) as usize,
        ],
        r@ == transition_spec(*num),
{
    let n = *num;
    if n == 0 {
        let mut v: Vec<usize> = Vec::new();
        v.push(1);
        proof {
            assert(v@ =~= seq![1usize]);
        }
        return v;
    }
    proof {
        lemma_digit_count_bounds(n as int);
    }
    let mut d: usize = 0;
    let mut t: usize = n;
    while t >= 10
        invariant
            t >= 1,
            digit_count(n as int) == d + digit_count(t as int),
            (t as int) * pow10(d as nat) <= n as int,
        decreases t,
    {
        proof {
            lemma_pow10_pos(d as nat);
            assert((t as int / 10) * (10 * pow10(d as nat)) <= (t as int) * pow10(d as nat))
                by (nonlinear_arith)
                requires
                    t >= 10,
                    pow10(d as nat) >= 1,
            ;
            assert(d + 1 <= (t as int) * pow10(d as nat)) by {
                lemma_pow10_gt(d as nat);
                assert((t as int) * pow10(d as nat) >= 2 * pow10(d as nat)) by (nonlinear_arith)
                    requires
                        t >= 2,
                        pow10(d as nat) >= 1,
                ;
            }
        }
        t = t / 10;
        d = d + 1;
    }
    proof {
        lemma_pow10_gt(d as nat);
        assert(pow10(d as nat) <= n as int) by (nonlinear_arith)
            requires
                t >= 1,
                (t as int) * pow10(d as nat) <= n as int,
        ;
    }
    let digits = d + 1;
    proof {
        assert(digit_count(t as int) == 1);
        assert(digits == digit_count(n as int));
    }
    if digits % 2 == 1 {
        let mut v: Vec<usize> = Vec::new();
        v.push(n * 2024);
        proof {
            assert(v@ =~= seq![(n * 2024) as usize]);
        }
        return v;
    }
    let half = digits / 2;
    let mut divisor: usize = 1;
    let mut j: usize = 0;
    while j < half
        invariant
            0 <= j <= half,
            half <= digits - 1,
            digits == digit_count(n as int),
            n >= 1,
            divisor as int == pow10(j as nat),
        decreases half - j,
    {
        proof {
            lemma_pow10_monotone((j + 1) as nat, (digits - 1) as nat);
            lemma_digit_count_bounds(n as int);
        }
        divisor = divisor * 10;
        j = j + 1;
    }
    proof {
        lemma_pow10_pos(half as nat);
    }
    let q = n / divisor;
    let rem = n % divisor;
    let mut v: Vec<usize> = Vec::new();
    v.push(q);
    v.push(rem);
    proof {
        lemma_pow10_pos(half as nat);
        assert(v@ =~= seq![
            ((n as int) / pow10((digit_count(n as int) / 2) as nat)) as usize,
            ((n as int) % pow10((digit_count(n as int) / 2) as nat)) as usize,
        ]);
    }
    v
}


/// What one blink turns a stone into.
pub open spec fn transition_spec(n: usize) -> Seq<usize> {
    if n == 0 {
        seq![1usize]
    } else if digit_count(n as int) % 2 == 1 {
        seq![((n as int) * 2024) as usize]
    } else {
        seq![
            ((n as int) / pow10((digit_count(n as int) / 2) as nat)) as usize,
            ((n as int) % pow10((digit_count(n as int) / 2) as nat)) as usize,
        ]
    }
}

/// The stone's own blink will not overflow a machine word.
pub open spec fn stone_ok(stone: usize) -> bool {
    stone == 0 || digit_count(stone as int) % 2 == 0 || stone * 2024 <= usize::MAX
}

/// Every blink of this stone over `n` rounds stays within machine range.
pub open spec fn ok_for(stone: usize, n: nat) -> bool
    decreases n, 0int,
{
    if n == 0 {
        true
    } else {
        stone_ok(stone) && all_ok(transition_spec(stone), (n - 1) as nat)
    }
}

/// Every blink of every listed stone over `n` rounds stays within machine
/// range.
pub open spec fn all_ok(stones: Seq<usize>, n: nat) -> bool
    decreases n, stones.len(),
{
    if stones.len() == 0 {
        true
    } else {
        ok_for(stones[0], n) && all_ok(stones.drop_first(), n)
    }
}

/// How many stones one stone becomes after `n` blinks.
pub open spec fn stone_count(stone: usize, n: nat) -> int
    decreases n, 0int,
{
    if n == 0 {
        1
    } else {
        stones_count(transition_spec(stone), (n - 1) as nat)
    }
}

/// How many stones the whole row becomes after `n` blinks.
pub open spec fn stones_count(stones: Seq<usize>, n: nat) -> int
    decreases n, stones.len(),
{
    if stones.len() == 0 {
        0
    } else {
        stone_count(stones[0], n) + stones_count(stones.drop_first(), n)
    }
}

proof fn lemma_stone_count_pos(stone: usize, n: nat)
    ensures
        stone_count(stone, n) >= 1,
    decreases n, 0int,
{
    if n > 0 {
        assert(transition_spec(stone).len() >= 1);
        lemma_stone_count_pos(transition_spec(stone)[0], (n - 1) as nat);
        lemma_stones_count_nonneg(transition_spec(stone).drop_first(), (n - 1) as nat);
        assert(stones_count(transition_spec(stone), (n - 1) as nat) == stone_count(
            transition_spec(stone)[0],
            (n - 1) as nat,
        ) + stones_count(transition_spec(stone).drop_first(), (n - 1) as nat));
    }
}

proof fn lemma_stones_count_nonneg(stones: Seq<usize>, n: nat)
    ensures
        stones_count(stones, n) >= 0,
    decreases n, stones.len(),
{
    if stones.len() > 0 {
        lemma_stone_count_pos(stones[0], n);
        lemma_stones_count_nonneg(stones.drop_first(), n);
    }
}

/// A row of stones that never blinks again is just counted.
proof fn lemma_stones_count_zero(stones: Seq<usize>)
    ensures
        stones_count(stones, 0) == stones.len(),
    decreases stones.len(),
{
    if stones.len() > 0 {
        assert(stone_count(stones[0], 0) == 1);
        lemma_stones_count_zero(stones.drop_last());
        assert(stones.drop_last().len() == stones.len() - 1);
        lemma_stones_count_zero(stones.drop_first());
    }
}

/// Safety of a row reaches each of its stones.
proof fn lemma_all_ok_index(stones: Seq<usize>, n: nat, i: int)
    requires
        all_ok(stones, n),
        0 <= i < stones.len(),
    ensures
        ok_for(stones[i], n),
    decreases stones.len(),
{
    if i > 0 {
        lemma_all_ok_index(stones.drop_first(), n, i - 1);
    }
}

/// The stored tally under `k` is the count that `k` describes: the key packs
/// a stone in its upper and a blink count in its lower machine word.
pub open spec fn atlas_entry_ok(m: Map<u128, usize>, k: u128) -> bool {
    k / 18446744073709551616 <= usize::MAX && m[k] as int == stone_count(
        (k / 18446744073709551616) as usize,
        ((k % 18446744073709551616) as usize) as nat,
    )
}

/// Every stored tally is the count its key describes.
pub open spec fn atlas_ok(m: Map<u128, usize>) -> bool {
    forall|k: u128| m.dom().contains(k) ==> #[trigger] atlas_entry_ok(m, k)
}

/// Counts the stones the row becomes after the given number of blinks,
/// memoising per-stone tallies in the atlas.
pub fn solve(
    sequence: &Vec<usize>,
    remaining_iters: usize,
    atlas: &mut HashMap<u128, usize>,
) -> (res: usize)
    requires
        all_ok(sequence@, remaining_iters as nat),
        stones_count(sequence@, remaining_iters as nat) <= usize::MAX,
        atlas_ok(old(atlas)@),
    ensures
        atlas_ok(final(atlas)@),
        forall|k: u128|
            #[trigger] old(atlas)@.dom().contains(k) ==> final(atlas)@.dom().contains(k)
                && final(atlas)@[k] == old(atlas)@[k],
        res == stones_count(sequence@, remaining_iters as nat),
    decreases remaining_iters,
{
    let n = remaining_iters;
    if n == 0 {
        proof {
            lemma_stones_count_zero(sequence@);
        }
        return sequence.len();
    }
    let mut res: usize = 0;
    let mut i: usize = 0;
    proof {
        assert(sequence@.skip(0) =~= sequence@);
        lemma_stones_count_nonneg(sequence@, n as nat);
    }
    while i < sequence.len()
        invariant
            0 <= i <= sequence@.len(),
            0 < n,
            n == remaining_iters,
            all_ok(sequence@, n as nat),
            atlas_ok(atlas@),
            forall|k: u128|
                #[trigger] old(atlas)@.dom().contains(k) ==> atlas@.dom().contains(k)
                    && atlas@[k] == old(atlas)@[k],
            res >= 0,
            stones_count(sequence@, n as nat) == res + stones_count(
                sequence@.skip(i as int),
                n as nat,
            ),
            stones_count(sequence@, n as nat) <= usize::MAX,
        decreases sequence@.len() - i,
    {
        let ghost rest = sequence@.skip(i as int);
        proof {
            assert(rest[0] == sequence@[i as int]);
            assert(rest.drop_first() =~= sequence@.skip(i + 1));
            lemma_all_ok_index(sequence@, n as nat, i as int);
            lemma_stones_count_nonneg(sequence@.skip(i + 1), n as nat);
            lemma_stone_count_pos(sequence@[i as int], n as nat);
            assert(stones_count(rest, n as nat) == stone_count(rest[0], n as nat) + stones_count(
                rest.drop_first(),
                n as nat,
            ));
        }
        let stone = sequence[i];
        let key: u128 = (stone as u128) * 18446744073709551616 + (n as u128);
        proof {
            assert(key / 18446744073709551616 == stone as u128 && key % 18446744073709551616 == (
            n as u128));
        }
        let cached = match atlas.get(&key) {
            Some(count) => Some(*count),
            None => None,
        };
        match cached {
            Some(count) => {
                proof {
                    assert(atlas@.dom().contains(key));
                    assert(atlas_entry_ok(atlas@, key));
                    assert(count as int == stone_count(stone, n as nat));
                }
                res = res + count;
            },
            None => {
                let transitioned = transition_stone(&stone);
                proof {
                    assert(ok_for(stone, n as nat));
                    assert(transitioned@ == transition_spec(stone));
                    assert(stones_count(transitioned@, (n - 1) as nat) == stone_count(
                        stone,
                        n as nat,
                    ));
                }
                let ghost before_call = atlas@;
                let count = solve(&transitioned, n - 1, atlas);
                let ghost mid = atlas@;
                proof {
                    assert(count as int == stone_count(stone, n as nat));
                    assert(!before_call.dom().contains(key));
                }
                atlas.insert(key, count);
                proof {
                    assert(atlas_ok(atlas@)) by {
                        assert forall|k: u128| atlas@.dom().contains(k) implies #[trigger] atlas_entry_ok(
                            atlas@,
                            k,
                        ) by {
                            if k == key {
                                assert(atlas@[k] == count);
                                assert((key / 18446744073709551616) as usize == stone);
                                assert(((key % 18446744073709551616) as usize) == n);
                            } else {
                                assert(mid.dom().contains(k));
                                assert(atlas_entry_ok(mid, k));
                                assert(atlas@[k] == mid[k]);
                            }
                        }
                    }
                    assert forall|k: u128| old(atlas)@.dom().contains(k) implies atlas@.dom().contains(
                        k,
                    ) && atlas@[k] == old(atlas)@[k] by {
                        assert(before_call.dom().contains(k) && before_call[k] == old(atlas)@[k]);
                        assert(mid.dom().contains(k) && mid[k] == before_call[k]);
                        assert(k != key);
                    }
                }
                res = res + count;
            },
        }
        i = i + 1;
    }
    proof {
        assert(sequence@.skip(sequence@.len() as int) =~= Seq::<usize>::empty());
    }
    res
}

} // verus!
