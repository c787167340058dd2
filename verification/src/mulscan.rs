//! A corrupted memory dump: scattered through the noise are `mul(x,y)`
//! products and `do()` / `don't()` switches.  One pass sums every product;
//! the other honours the switches and sums only the enabled products.
use vstd::prelude::*;

verus! {

/// One recognisable instruction in the dump.
#[derive(Clone, Copy, PartialEq, Eq, Structural, Debug)]
pub enum Instruction {
    Enable,
    Disable,
    Mul(u64, u64),
}

/// What the scan of a memory dump yields: its instruction stream, in text
/// order.
pub uninterp spec fn instructions_of(s: Seq<char>) -> Seq<Instruction>;

/// Relies on regex's captures_iter with the fixed pattern
/// `mul\(([0-9]{1,3}),([0-9]{1,3})\)|(do\(\))|(don't\(\))`: the stream depends
/// on the text alone, matches do not overlap so there are at most as many as
/// characters, and each multiplier has one to three ASCII digits, so parsing
/// a captured group cannot fault.
#[verifier::external_body]
fn scan_instructions(s: &str) -> (r: Vec<Instruction>)
    ensures
        r@ == instructions_of(s@),
        r@.len() <= s@.len(),
        forall|i: int|
            0 <= i < r@.len() ==> match #[trigger] r@[i] {
                Instruction::Mul(x, y) => x <= 999 && y <= 999,
                _ => true,
            },
{
    let re = regex::Regex::new(r"mul\(([0-9]{1,3}),([0-9]{1,3})\)|(do\(\))|(don't\(\))").unwrap();
    let mut out = Vec::new();
    for c in re.captures_iter(s) {
        if let (Some(x), Some(y)) = (c.get(1), c.get(2)) {
            out.push(Instruction::Mul(
                x.as_str().parse().unwrap(),
                y.as_str().parse().unwrap(),
            ));
        } else if c.get(3).is_some() {
            out.push(Instruction::Enable);
        } else {
            out.push(Instruction::Disable);
        }
    }
    out
}

/// The sum of every product in the first `n` instructions, switches ignored.
pub open spec fn mul_prefix(instrs: Seq<Instruction>, n: int) -> int
    decreases n,
{
    if n <= 0 {
        0
    } else {
        mul_prefix(instrs, n - 1) + match instrs[n - 1] {
            Instruction::Mul(x, y) => x * y,
            _ => 0,
        }
    }
}

/// The sum of the enabled products of the stream, starting in the given
/// switch state: `do()` enables, `don't()` disables, and a product counts
/// only while enabled.
pub open spec fn enabled_sum(instrs: Seq<Instruction>, enabled: bool) -> int
    decreases instrs.len(),
{
    if instrs.len() == 0 {
        0
    } else {
        match instrs[0] {
            Instruction::Enable => enabled_sum(instrs.drop_first(), true),
            Instruction::Disable => enabled_sum(instrs.drop_first(), false),
            Instruction::Mul(x, y) => (if enabled {
                x * y
            } else {
                0int
            }) + enabled_sum(instrs.drop_first(), enabled),
        }
    }
}

proof fn lemma_mul_prefix_bound(instrs: Seq<Instruction>, n: int)
    requires
        0 <= n <= instrs.len(),
        forall|i: int|
            0 <= i < instrs.len() ==> match #[trigger] instrs[i] {
                Instruction::Mul(x, y) => x <= 999 && y <= 999,
                _ => true,
            },
    ensures
        0 <= mul_prefix(instrs, n) <= n * 1000000,
    decreases n,
{
    if n > 0 {
        lemma_mul_prefix_bound(instrs, n - 1);
        match instrs[n - 1] {
            Instruction::Mul(x, y) => {
                assert(x * y <= 1000000) by (nonlinear_arith)
                    requires
                        0 <= x <= 999,
                        0 <= y <= 999,
                ;
            },
            _ => {},
        }
    }
}

/// Sums every product in the dump, switches ignored.
pub fn solve1(input: &str) -> (sum: usize)
    requires
        input@.len() * 1000000 <= usize::MAX,
    ensures
        sum == mul_prefix(instructions_of(input@), instructions_of(input@).len() as int),
{
    let instrs = scan_instructions(input);
    let mut sum: usize = 0;
    let mut i: usize = 0;
    while i < instrs.len()
        invariant
            0 <= i <= instrs@.len(),
            instrs@ == instructions_of(input@),
            instrs@.len() <= input@.len(),
            input@.len() * 1000000 <= usize::MAX,
            forall|t: int|
                0 <= t < instrs@.len() ==> match #[trigger] instrs@[t] {
                    Instruction::Mul(x, y) => x <= 999 && y <= 999,
                    _ => true,
                },
            sum == mul_prefix(instrs@, i as int),
        decreases instrs@.len() - i,
    {
        proof {
            lemma_mul_prefix_bound(instrs@, i + 1);
            assert((i + 1) * 1000000 <= input@.len() * 1000000) by (nonlinear_arith)
                requires
                    0 <= i + 1 <= input@.len(),
            ;
            lemma_mul_prefix_bound(instrs@, i as int);
        }
        match instrs[i] {
            Instruction::Mul(x, y) => {
                proof {
                    assert(x * y <= 1000000) by (nonlinear_arith)
                        requires
                            0 <= x <= 999,
                            0 <= y <= 999,
                    ;
                }
                sum = sum + (x as usize) * (y as usize);
            },
            _ => {},
        }
        i = i + 1;
    }
    sum
}

proof fn lemma_enabled_sum_bound(instrs: Seq<Instruction>, enabled: bool)
    requires
        forall|i: int|
            0 <= i < instrs.len() ==> match #[trigger] instrs[i] {
                Instruction::Mul(x, y) => x <= 999 && y <= 999,
                _ => true,
            },
    ensures
        0 <= enabled_sum(instrs, enabled) <= instrs.len() * 1000000,
    decreases instrs.len(),
{
    if instrs.len() > 0 {
        lemma_enabled_sum_bound(instrs.drop_first(), true);
        lemma_enabled_sum_bound(instrs.drop_first(), false);
        match instrs[0] {
            Instruction::Mul(x, y) => {
                assert(x * y <= 1000000) by (nonlinear_arith)
                    requires
                        0 <= x <= 999,
                        0 <= y <= 999,
                ;
            },
            _ => {},
        }
    }
}

/// Sums only the products that stand while multiplication is enabled; the
/// dump starts enabled.
pub fn solve2(input: &str) -> (sum: usize)
    requires
        input@.len() * 1000000 <= usize::MAX,
    ensures
        sum == enabled_sum(instructions_of(input@), true),
{
    let instrs = scan_instructions(input);
    let mut sum: usize = 0;
    let mut enabled = true;
    let mut i: usize = 0;
    proof {
        assert(instrs@.skip(0) =~= instrs@);
        lemma_enabled_sum_bound(instrs@, true);
    }
    while i < instrs.len()
        invariant
            0 <= i <= instrs@.len(),
            instrs@ == instructions_of(input@),
            instrs@.len() <= input@.len(),
            input@.len() * 1000000 <= usize::MAX,
            forall|t: int|
                0 <= t < instrs@.len() ==> match #[trigger] instrs@[t] {
                    Instruction::Mul(x, y) => x <= 999 && y <= 999,
                    _ => true,
                },
            enabled_sum(instrs@, true) == sum + enabled_sum(instrs@.skip(i as int), enabled),
            sum >= 0,
            sum + enabled_sum(instrs@.skip(i as int), enabled) <= instrs@.len() * 1000000,
        decreases instrs@.len() - i,
    {
        let ghost rest = instrs@.skip(i as int);
        proof {
            assert(rest[0] == instrs@[i as int]);
            assert(rest.drop_first() =~= instrs@.skip(i + 1));
            assert forall|t: int|
                0 <= t < instrs@.skip(i + 1).len() implies match #[trigger] instrs@.skip(
                i + 1,
            )[t] {
                Instruction::Mul(x, y) => x <= 999 && y <= 999,
                _ => true,
            } by {
                assert(instrs@.skip(i + 1)[t] == instrs@[t + i + 1]);
            }
            lemma_enabled_sum_bound(instrs@.skip(i + 1), true);
            lemma_enabled_sum_bound(instrs@.skip(i + 1), false);
        }
        match instrs[i] {
            Instruction::Enable => {
                enabled = true;
            },
            Instruction::Disable => {
                enabled = false;
            },
            Instruction::Mul(x, y) => {
                if enabled {
                    proof {
                        assert(x * y <= 1000000) by (nonlinear_arith)
                            requires
                                0 <= x <= 999,
                                0 <= y <= 999,
                        ;
                    }
                    sum = sum + (x as usize) * (y as usize);
                }
            },
        }
        i = i + 1;
    }
    proof {
        assert(instrs@.skip(instrs@.len() as int) =~= Seq::<Instruction>::empty());
    }
    sum
}

} // verus!
