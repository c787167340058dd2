//! Claw machines: two buttons move the claw by fixed integer vectors and the
//! prize sits at a target point.  A machine is solved by Cramer's rule; a
//! solvable machine costs three tokens per A press plus one per B press.
use vstd::prelude::*;

verus! {

/// Rust's truncating integer division: the quotient of the absolute values,
/// with the sign of the exact quotient.
pub open spec fn tdiv(a: int, b: int) -> int {
    if (a >= 0) == (b >= 0) {
        abs_of(a) / abs_of(b)
    } else {
        -(abs_of(a) / abs_of(b))
    }
}

/// Rust's remainder: what truncating division leaves over.
pub open spec fn tmod(a: int, b: int) -> int {
    a - tdiv(a, b) * b
}

pub open spec fn abs_of(a: int) -> int {
    if a >= 0 {
        a
    } else {
        -a
    }
}

/// Truncating division on machine integers.
fn div_trunc(a: i64, b: i64) -> (r: i64)
    requires
        b != 0,
        a > i64::MIN,
        b > i64::MIN,
    ensures
        r == tdiv(a as int, b as int),
{
    let ua: u64 = if a >= 0 {
        a as u64
    } else {
        (-a) as u64
    };
    let ub: u64 = if b >= 0 {
        b as u64
    } else {
        (-b) as u64
    };
    let q = ua / ub;
    if (a >= 0) == (b >= 0) {
        q as i64
    } else {
        -(q as i64)
    }
}

/// Rust's remainder on machine integers.
fn mod_trunc(a: i64, b: i64) -> (r: i64)
    requires
        b != 0,
        a > i64::MIN,
        b > i64::MIN,
    ensures
        r == tmod(a as int, b as int),
{
    let q = div_trunc(a, b);
    proof {
        assert(abs_of(a as int) / abs_of(b as int) <= abs_of(a as int)) by (nonlinear_arith)
            requires
                abs_of(a as int) >= 0,
                abs_of(b as int) >= 1,
        ;
        assert(tdiv(a as int, b as int) * (b as int) == a - tmod(a as int, b as int));
        assert(0 <= abs_of(a as int) - abs_of(a as int) / abs_of(b as int) * abs_of(b as int)
            < abs_of(b as int)) by (nonlinear_arith)
            requires
                abs_of(a as int) >= 0,
                abs_of(b as int) >= 1,
        ;
        assert(tdiv(a as int, b as int) * (b as int) == (if a >= 0 {
            abs_of(a as int) / abs_of(b as int) * abs_of(b as int)
        } else {
            -(abs_of(a as int) / abs_of(b as int) * abs_of(b as int))
        })) by (nonlinear_arith);
    }
    a - q * b
}

#[derive(Clone, Copy, Debug)]
pub struct Machine {
    pub button_a: (i64, i64),
    pub button_b: (i64, i64),
    pub prize: (i64, i64),
}

/// The determinant of the two button vectors.
pub open spec fn det_of(m: Machine) -> int {
    m.button_a.0 * m.button_b.1 - m.button_b.0 * m.button_a.1
}

/// Numerator of the A-press count under Cramer's rule.
pub open spec fn a_num(m: Machine) -> int {
    m.button_b.1 * m.prize.0 - m.button_b.0 * m.prize.1
}

/// Numerator of the B-press count under Cramer's rule.
pub open spec fn b_num(m: Machine) -> int {
    -m.button_a.1 * m.prize.0 + m.button_a.0 * m.prize.1
}

/// The machine's coordinates are small enough for the token arithmetic.
pub open spec fn machine_in_range(m: Machine) -> bool {
    &&& 0 <= m.button_a.0 <= 10000
    &&& 0 <= m.button_a.1 <= 10000
    &&& 0 <= m.button_b.0 <= 10000
    &&& 0 <= m.button_b.1 <= 10000
    &&& 0 <= m.prize.0 <= 100000000000000
    &&& 0 <= m.prize.1 <= 100000000000000
}

/// The token cost reported for a machine: three per A press plus one per B
/// press when both counts divide out exactly, and zero otherwise.
pub open spec fn tokens_of(m: Machine) -> int {
    if tmod(a_num(m), det_of(m)) != 0 || tmod(b_num(m), det_of(m)) != 0 {
        0
    } else {
        tdiv(a_num(m), det_of(m)) * 3 + tdiv(b_num(m), det_of(m))
    }
}

/// Total token cost over a list of machines.
pub open spec fn tokens_sum(ms: Seq<Machine>) -> int
    decreases ms.len(),
{
    if ms.len() == 0 {
        0
    } else {
        tokens_sum(ms.drop_last()) + tokens_of(ms.last())
    }
}

impl Machine {
    /// Tokens to win this machine's prize, or zero when the press counts do
    /// not come out whole.
    pub fn solve(&self) -> (tokens: i64)
        requires
            machine_in_range(*self),
            det_of(*self) != 0,
        ensures
            tokens == tokens_of(*self),
    {
        proof {
            let m = *self;
            assert(0 <= m.button_a.0 * m.button_b.1 <= 100000000) by (nonlinear_arith)
                requires
                    0 <= m.button_a.0 <= 10000,
                    0 <= m.button_b.1 <= 10000,
            ;
            assert(0 <= m.button_b.0 * m.button_a.1 <= 100000000) by (nonlinear_arith)
                requires
                    0 <= m.button_b.0 <= 10000,
                    0 <= m.button_a.1 <= 10000,
            ;
            lemma_num_bounds(m);
        }
        let det = self.button_a.0 * self.button_b.1 - self.button_b.0 * self.button_a.1;
        let a = self.button_b.1 * self.prize.0 - self.button_b.0 * self.prize.1;
        let b = -self.button_a.1 * self.prize.0 + self.button_a.0 * self.prize.1;
        if mod_trunc(a, det) != 0 || mod_trunc(b, det) != 0 {
            return 0;
        }
        let qa = div_trunc(a, det);
        let qb = div_trunc(b, det);
        proof {
            lemma_quotient_bound(a as int, det as int);
            lemma_quotient_bound(b as int, det as int);
        }
        qa * 3 + qb
    }
}

/// The Cramer numerators of an in-range machine are bounded.
proof fn lemma_num_bounds(m: Machine)
    requires
        machine_in_range(m),
    ensures
        abs_of(a_num(m)) <= 2000000000000000000,
        abs_of(b_num(m)) <= 2000000000000000000,
        0 <= m.button_b.1 * m.prize.0 <= 1000000000000000000,
        0 <= m.button_b.0 * m.prize.1 <= 1000000000000000000,
        0 <= m.button_a.1 * m.prize.0 <= 1000000000000000000,
        0 <= m.button_a.0 * m.prize.1 <= 1000000000000000000,
{
    assert(0 <= m.button_b.1 * m.prize.0 <= 1000000000000000000) by (nonlinear_arith)
        requires
            0 <= m.button_b.1 <= 10000,
            0 <= m.prize.0 <= 100000000000000,
    ;
    assert(0 <= m.button_b.0 * m.prize.1 <= 1000000000000000000) by (nonlinear_arith)
        requires
            0 <= m.button_b.0 <= 10000,
            0 <= m.prize.1 <= 100000000000000,
    ;
    assert(0 <= m.button_a.1 * m.prize.0 <= 1000000000000000000) by (nonlinear_arith)
        requires
            0 <= m.button_a.1 <= 10000,
            0 <= m.prize.0 <= 100000000000000,
    ;
    assert(0 <= m.button_a.0 * m.prize.1 <= 1000000000000000000) by (nonlinear_arith)
        requires
            0 <= m.button_a.0 <= 10000,
            0 <= m.prize.1 <= 100000000000000,
    ;
    assert(-m.button_a.1 * m.prize.0 == -(m.button_a.1 * m.prize.0)) by (nonlinear_arith);
}

/// A truncated quotient is no larger in magnitude than its dividend.
proof fn lemma_quotient_bound(a: int, b: int)
    requires
        b != 0,
    ensures
        abs_of(tdiv(a, b)) <= abs_of(a),
{
    assert(abs_of(a) / abs_of(b) <= abs_of(a)) by (nonlinear_arith)
        requires
            abs_of(a) >= 0,
            abs_of(b) >= 1,
    ;
}

/// Sums the token cost of every machine.
pub fn solve1(machines: &Vec<Machine>) -> (total: i64)
    requires
        forall|k: int|
            0 <= k < machines@.len() ==> machine_in_range(#[trigger] machines@[k]) && det_of(
                machines@[k],
            ) != 0,
        forall|k: int|
            0 <= k <= machines@.len() ==> -9000000000000000000 <= tokens_sum(
                #[trigger] machines@.take(k),
            ) <= 9000000000000000000,
    ensures
        total == tokens_sum(machines@),
{
    let mut total: i64 = 0;
    let mut i: usize = 0;
    while i < machines.len()
        invariant
            0 <= i <= machines@.len(),
            total == tokens_sum(machines@.take(i as int)),
            forall|k: int|
                0 <= k < machines@.len() ==> machine_in_range(#[trigger] machines@[k]) && det_of(
                    machines@[k],
                ) != 0,
            forall|k: int|
                0 <= k <= machines@.len() ==> -9000000000000000000 <= tokens_sum(
                    #[trigger] machines@.take(k),
                ) <= 9000000000000000000,
        decreases machines@.len() - i,
    {
        proof {
            assert(machines@.take(i + 1).drop_last() =~= machines@.take(i as int));
            assert(machines@.take(i + 1).last() == machines@[i as int]);
            lemma_tokens_bound(machines@[i as int]);
        }
        let t = machines[i].solve();
        total = total + t;
        i = i + 1;
    }
    proof {
        assert(machines@.take(machines@.len() as int) =~= machines@);
    }
    total
}

/// A single machine in range costs at most a bounded number of tokens.
proof fn lemma_tokens_bound(m: Machine)
    requires
        machine_in_range(m),
        det_of(m) != 0,
    ensures
        abs_of(tokens_of(m)) <= 8000000000000000000,
{
    lemma_num_bounds(m);
    lemma_quotient_bound(a_num(m), det_of(m));
    lemma_quotient_bound(b_num(m), det_of(m));
}

/// Sums the token cost after moving every prize far out by the fixed offset.
pub fn solve2(machines: &Vec<Machine>) -> (total: i64)
    requires
        forall|k: int|
            0 <= k < machines@.len() ==> machine_in_range(#[trigger] machines@[k]) && det_of(
                machines@[k],
            ) != 0 && machines@[k].prize.0 <= 90000000000000 && machines@[k].prize.1
                <= 90000000000000,
        forall|k: int|
            0 <= k <= machines@.len() ==> -9000000000000000000 <= tokens_sum(
                #[trigger] far_machines(machines@).take(k),
            ) <= 9000000000000000000,
    ensures
        total == tokens_sum(far_machines(machines@)),
{
    let mut modified: Vec<Machine> = Vec::new();
    let mut i: usize = 0;
    while i < machines.len()
        invariant
            0 <= i <= machines@.len(),
            modified@.len() == i,
            forall|k: int|
                0 <= k < machines@.len() ==> machine_in_range(#[trigger] machines@[k]) && det_of(
                    machines@[k],
                ) != 0 && machines@[k].prize.0 <= 90000000000000 && machines@[k].prize.1
                    <= 90000000000000,
            forall|k: int| 0 <= k < i ==> modified@[k] == far_machine(#[trigger] machines@[k]),
        decreases machines@.len() - i,
    {
        let m = machines[i];
        modified.push(
            Machine {
                button_a: m.button_a,
                button_b: m.button_b,
                prize: (m.prize.0 + 10000000000000, m.prize.1 + 10000000000000),
            },
        );
        i = i + 1;
    }
    proof {
        assert(modified@ =~= far_machines(machines@));
    }
    solve1(&modified)
}

/// Every machine with its prize pushed out by the fixed offset.
pub open spec fn far_machines(ms: Seq<Machine>) -> Seq<Machine> {
    ms.map_values(|m: Machine| far_machine(m))
}

/// The same machine with its prize pushed out by the fixed offset on both
/// axes.
pub open spec fn far_machine(m: Machine) -> Machine {
    Machine {
        button_a: m.button_a,
        button_b: m.button_b,
        prize: ((m.prize.0 + 10000000000000) as i64, (m.prize.1 + 10000000000000) as i64),
    }
}

} // verus!
