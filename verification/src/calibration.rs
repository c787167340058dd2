//! Calibration equations: a target and a row of operands, combined strictly
//! left to right with addition, multiplication, or digit concatenation.  A
//! breadth-first search looks for an operator assignment that reaches the
//! target.
use vstd::prelude::*;

verus! {

use crate::stones::pow10;
use crate::stones::digit_count;
use crate::stones::lemma_pow10_pos;
use crate::stones::lemma_pow10_monotone;

#[derive(Clone, Copy, PartialEq, Eq, Structural, Debug)]
pub enum Operation {
    Add,
    Multiply,
    Concatenate,
}

/// What one operator yields: a sum, a product, or the digits of `b` appended
/// to the digits of `a`.
pub open spec fn apply_spec(op: Operation, a: int, b: int) -> int {
    match op {
        Operation::Add => a + b,
        Operation::Multiply => a * b,
        Operation::Concatenate => a * pow10(digit_count(b)) + b,
    }
}

impl Operation {
    /// Combine two values with this operator.
    pub fn apply(&self, a: u64, b: u64) -> (r: u64)
        requires
            apply_spec(*self, a as int, b as int) <= u64::MAX,
        ensures
            r == apply_spec(*self, a as int, b as int),
    {
        match self {
            Operation::Add => a + b,
            Operation::Multiply => {
                proof {
                    assert(a * b >= 0) by (nonlinear_arith)
                        requires
                            a >= 0,
                            b >= 0,
                    ;
                }
                a * b
            },
            Operation::Concatenate => {
                let r = concat_values(a, b);
                r
            },
        }
    }
}

/// Appends the decimal digits of `b` to those of `a`.
fn concat_values(a: u64, b: u64) -> (r: u64)
    requires
        a * pow10(digit_count(b as int)) + b <= u64::MAX,
    ensures
        r == a * pow10(digit_count(b as int)) + b,
{
    proof {
        crate::stones::lemma_digit_count_le_20(b as int);
    }
    let mut d: u64 = 1;
    let mut t: u64 = b;
    while t >= 10
        invariant
            t >= 0,
            digit_count(b as int) == d - 1 + digit_count(t as int),
            d >= 1,
            d <= digit_count(b as int),
            digit_count(b as int) <= 20,
        decreases t,
    {
        t = t / 10;
        d = d + 1;
    }
    proof {
        assert(digit_count(t as int) == 1);
        assert(d == digit_count(b as int));
    }
    let ghost dc = digit_count(b as int);
    let mut acc: u64 = a;
    let mut j: u64 = 0;
    while j < d
        invariant
            0 <= j <= d,
            d == dc,
            acc == a * pow10(j as nat),
            a * pow10(dc) + b <= u64::MAX,
            b >= 0,
        decreases d - j,
    {
        proof {
            lemma_pow10_monotone((j + 1) as nat, dc as nat);
            lemma_pow10_pos((j + 1) as nat);
            assert(a * pow10((j + 1) as nat) <= a * pow10(dc as nat)) by (nonlinear_arith)
                requires
                    a >= 0,
                    pow10((j + 1) as nat) <= pow10(dc as nat),
            ;
            assert(acc * 10 == a * pow10((j + 1) as nat)) by (nonlinear_arith)
                requires
                    acc == a * pow10(j as nat),
                    pow10((j + 1) as nat) == 10 * pow10(j as nat),
            ;
        }
        acc = acc * 10;
        j = j + 1;
    }
    acc + b
}

/// The value of the expression over the first `n` operands, folded left to
/// right.
pub open spec fn eval_prefix(operands: Seq<u64>, ops: Seq<Operation>, n: int) -> int
    decreases n,
{
    if n <= 1 {
        operands[0] as int
    } else {
        apply_spec(ops[n - 2], eval_prefix(operands, ops, n - 1), operands[n - 1] as int)
    }
}

/// Every intermediate value of the left-to-right fold fits a `u64`.
pub open spec fn eval_in_range(operands: Seq<u64>, ops: Seq<Operation>, n: int) -> bool {
    forall|k: int| 1 <= k <= n ==> 0 <= #[trigger] eval_prefix(operands, ops, k) <= u64::MAX
}

/// An expression: operands and the operators standing between them.
#[derive(Debug)]
pub struct Expression {
    pub operands: Vec<u64>,
    pub operators: Vec<Operation>,
}

/// The shape of a meaningful expression: one more operand than operators.
pub open spec fn wf_expr(e: Expression) -> bool {
    e.operands@.len() == e.operators@.len() + 1 && e.operands@.len() >= 1
}

impl Expression {
    /// The expression's value, folding the operators strictly left to right.
    pub fn calculate(&self) -> (r: u64)
        requires
            wf_expr(*self),
            eval_in_range(self.operands@, self.operators@, self.operands@.len() as int),
        ensures
            r == eval_prefix(self.operands@, self.operators@, self.operands@.len() as int),
    {
        let mut res: u64 = self.operands[0];
        let mut i: usize = 1;
        while i < self.operands.len()
            invariant
                1 <= i <= self.operands@.len(),
                wf_expr(*self),
                eval_in_range(self.operands@, self.operators@, self.operands@.len() as int),
                res == eval_prefix(self.operands@, self.operators@, i as int),
            decreases self.operands@.len() - i,
        {
            proof {
                assert(0 <= eval_prefix(self.operands@, self.operators@, i + 1) <= u64::MAX);
                assert(0 <= eval_prefix(self.operands@, self.operators@, i as int) <= u64::MAX);
            }
            res = self.operators[i - 1].apply(res, self.operands[i]);
            i = i + 1;
        }
        res
    }

    /// Searches for an operator assignment over a prefix of the operands
    /// whose value is exactly the target, extending one operand at a time and
    /// never extending a prefix whose value already exceeds the target.  A
    /// hit is always a genuine equation; the search gives no promise when it
    /// returns nothing.
    pub fn from(operands: &Vec<u64>, target: u64, possible_operators: &Vec<Operation>) -> (r:
        Option<Expression>)
        requires
            operands@.len() >= 1,
        ensures
            match r {
                Some(e) => found_equation(e, operands@, possible_operators@, target),
                None => true,
            },
            operands@[0] == target ==> r is Some,
    {
        let mut first: Vec<u64> = Vec::new();
        first.push(operands[0]);
        let expression = Expression { operands: first, operators: Vec::new() };
        proof {
            assert(expression.operands@ =~= operands@.take(1));
        }
        search_from(operands, target, possible_operators, expression)
    }
}

/// The expression is a genuine equation: a prefix of the operands, operators
/// from the allowed set, every intermediate value in machine range, and the
/// target as its value.
pub open spec fn found_equation(
    e: Expression,
    operands: Seq<u64>,
    possible: Seq<Operation>,
    target: u64,
) -> bool {
    &&& wf_expr(e)
    &&& e.operands@.len() <= operands.len()
    &&& e.operands@ == operands.take(e.operands@.len() as int)
    &&& forall|k: int| 0 <= k < e.operators@.len() ==> possible.contains(#[trigger] e.operators@[k])
    &&& eval_in_range(e.operands@, e.operators@, e.operands@.len() as int)
    &&& eval_prefix(e.operands@, e.operators@, e.operands@.len() as int) == target
}

/// Extends the given prefix expression depth first until its value hits the
/// target or every continuation is exhausted.
fn search_from(
    operands: &Vec<u64>,
    target: u64,
    possible_operators: &Vec<Operation>,
    expr: Expression,
) -> (r: Option<Expression>)
    requires
        operands@.len() >= 1,
        wf_expr(expr),
        expr.operands@.len() <= operands@.len(),
        expr.operands@ == operands@.take(expr.operands@.len() as int),
        forall|k: int|
            0 <= k < expr.operators@.len() ==> possible_operators@.contains(
                #[trigger] expr.operators@[k],
            ),
        eval_in_range(expr.operands@, expr.operators@, expr.operands@.len() as int),
    ensures
        match r {
            Some(e) => found_equation(e, operands@, possible_operators@, target),
            None => true,
        },
        eval_prefix(expr.operands@, expr.operators@, expr.operands@.len() as int) == target
            ==> r is Some,
    decreases operands@.len() - expr.operands@.len(),
{
    let value = expr.calculate();
    if value == target {
        return Some(expr);
    }
    if value > target || expr.operands.len() == operands.len() {
        return None;
    }
    let next_operand = operands[expr.operands.len()];
    let mut op_idx: usize = 0;
    while op_idx < possible_operators.len()
        invariant
            operands@.len() >= 1,
            wf_expr(expr),
            expr.operands@.len() < operands@.len(),
            expr.operands@ == operands@.take(expr.operands@.len() as int),
            forall|k: int|
                0 <= k < expr.operators@.len() ==> possible_operators@.contains(
                    #[trigger] expr.operators@[k],
                ),
            eval_in_range(expr.operands@, expr.operators@, expr.operands@.len() as int),
            next_operand == operands@[expr.operands@.len() as int],
            op_idx <= possible_operators@.len(),
        decreases possible_operators@.len() - op_idx,
    {
        let op = possible_operators[op_idx];
        let prev = expr.calculate();
        match apply_checked(op, prev, next_operand) {
            Some(_) => {
                let mut candidate_operands = expr.operands.clone();
                candidate_operands.push(next_operand);
                let mut candidate_operators = expr.operators.clone();
                candidate_operators.push(op);
                let proposed = Expression {
                    operands: candidate_operands,
                    operators: candidate_operators,
                };
                proof {
                    let n = proposed.operands@.len() as int;
                    assert(proposed.operands@ =~= operands@.take(n));
                    assert(proposed.operands@.take(n - 1) =~= expr.operands@);
                    assert forall|k: int| 1 <= k <= n implies 0 <= #[trigger] eval_prefix(
                        proposed.operands@,
                        proposed.operators@,
                        k,
                    ) <= u64::MAX by {
                        lemma_eval_prefix_push(expr.operands@, expr.operators@, next_operand, op, k);
                        if k < n {
                            assert(0 <= eval_prefix(expr.operands@, expr.operators@, k) <= u64::MAX);
                        }
                    }
                }
                let hit = search_from(operands, target, possible_operators, proposed);
                match hit {
                    Some(e) => {
                        return Some(e);
                    },
                    None => {},
                }
            },
            None => {},
        }
        op_idx = op_idx + 1;
    }
    None
}

/// Extending an expression with one operator and operand keeps every earlier
/// intermediate value and appends the applied one.
proof fn lemma_eval_prefix_push(
    operands: Seq<u64>,
    ops: Seq<Operation>,
    operand: u64,
    op: Operation,
    k: int,
)
    requires
        operands.len() == ops.len() + 1,
        1 <= k <= operands.len() + 1,
    ensures
        k <= operands.len() ==> eval_prefix(operands.push(operand), ops.push(op), k)
            == eval_prefix(operands, ops, k),
        k == operands.len() + 1 ==> eval_prefix(operands.push(operand), ops.push(op), k)
            == apply_spec(op, eval_prefix(operands, ops, k - 1), operand as int),
    decreases k,
{
    if k > 1 {
        lemma_eval_prefix_push(operands, ops, operand, op, k - 1);
    }
}

/// Combines two values with the operator, or reports that the result would
/// not fit a `u64`.
fn apply_checked(op: Operation, a: u64, b: u64) -> (r: Option<u64>)
    ensures
        match r {
            Some(v) => v == apply_spec(op, a as int, b as int) && apply_spec(
                op,
                a as int,
                b as int,
            ) <= u64::MAX,
            None => apply_spec(op, a as int, b as int) > u64::MAX,
        },
{
    match op {
        Operation::Add => a.checked_add(b),
        Operation::Multiply => {
            proof {
                assert(a * b >= 0) by (nonlinear_arith)
                    requires
                        a >= 0,
                        b >= 0,
                ;
            }
            a.checked_mul(b)
        },
        Operation::Concatenate => {
            proof {
                crate::stones::lemma_digit_count_le_20(b as int);
            }
            let mut d: u64 = 1;
            let mut t: u64 = b;
            while t >= 10
                invariant
                    t >= 0,
                    digit_count(b as int) == d - 1 + digit_count(t as int),
                    d >= 1,
                    d <= digit_count(b as int),
                    digit_count(b as int) <= 20,
                decreases t,
            {
                t = t / 10;
                d = d + 1;
            }
            proof {
                assert(digit_count(t as int) == 1);
                assert(d == digit_count(b as int));
            }
            let ghost dc = digit_count(b as int);
            let mut acc: u64 = a;
            let mut j: u64 = 0;
            while j < d
                invariant
                    0 <= j <= d,
                    d == dc,
                    dc == digit_count(b as int),
                    op == Operation::Concatenate,
                    acc == a * pow10(j as nat),
                    b >= 0,
                decreases d - j,
            {
                proof {
                    lemma_pow10_pos(j as nat);
                    assert(acc * 10 == a * pow10((j + 1) as nat)) by (nonlinear_arith)
                        requires
                            acc == a * pow10(j as nat),
                            pow10((j + 1) as nat) == 10 * pow10(j as nat),
                    ;
                    if a * pow10((j + 1) as nat) > u64::MAX {
                        lemma_pow10_monotone((j + 1) as nat, dc as nat);
                        assert(a * pow10((j + 1) as nat) <= a * pow10(dc)) by (nonlinear_arith)
                            requires
                                a >= 0,
                                pow10((j + 1) as nat) <= pow10(dc),
                        ;
                    }
                }
                match acc.checked_mul(10) {
                    Some(next) => {
                        acc = next;
                    },
                    None => {
                        proof {
                            assert(a * pow10((j + 1) as nat) > u64::MAX);
                            lemma_pow10_monotone((j + 1) as nat, dc as nat);
                            assert(a * pow10((j + 1) as nat) <= a * pow10(dc)) by (nonlinear_arith)
                                requires
                                    a >= 0,
                                    pow10((j + 1) as nat) <= pow10(dc),
                            ;
                            assert(op == Operation::Concatenate);
                            assert(dc == digit_count(b as int));
                            assert(apply_spec(op, a as int, b as int) == a * pow10(dc) + b);
                        }
                        return None;
                    },
                }
                j = j + 1;
            }
            acc.checked_add(b)
        },
    }
}

/// The total of the targets whose equation some operator assignment satisfies.
pub open spec fn solved_sum(
    operand_rows: Seq<Seq<u64>>,
    targets: Seq<u64>,
    solved: Seq<bool>,
    n: int,
) -> int
    decreases n,
{
    if n <= 0 {
        0
    } else {
        solved_sum(operand_rows, targets, solved, n - 1) + if solved[n - 1] {
            targets[n - 1] as int
        } else {
            0int
        }
    }
}

/// Tries every equation in turn and sums the targets of the equations the
/// search solves: for some set of per-row outcomes, each solved row has a
/// genuine operator assignment reaching its target, and the total is the sum
/// of the solved targets.
pub fn solve(operands: &Vec<Vec<u64>>, targets: &Vec<u64>, possible_operators: &Vec<Operation>) -> (sum: u64)
    requires
        operands@.len() == targets@.len(),
        forall|k: int| 0 <= k < operands@.len() ==> (#[trigger] operands@[k])@.len() >= 1,
        targets@.len() <= 100000,
        forall|k: int| 0 <= k < targets@.len() ==> #[trigger] targets@[k] <= 100000000000000,
    ensures
        exists|flags: Seq<bool>|
            {
                &&& #[trigger] flags.len() == operands@.len()
                &&& sum == solved_sum(
                    operands@.map_values(|v: Vec<u64>| v@),
                    targets@,
                    flags,
                    operands@.len() as int,
                )
                &&& forall|k: int|
                    0 <= k < flags.len() && #[trigger] flags[k] ==> exists|e: Expression|
                        {
                            &&& wf_expr(e)
                            &&& e.operands@ == operands@[k]@.take(e.operands@.len() as int)
                            &&& eval_in_range(e.operands@, e.operators@, e.operands@.len() as int)
                            &&& eval_prefix(e.operands@, e.operators@, e.operands@.len() as int)
                                == targets@[k]
                        }
            },
{
    let mut sum: u64 = 0;
    let mut solved: Vec<bool> = Vec::new();
    let mut i: usize = 0;
    while i < operands.len()
        invariant
            operands@.len() == targets@.len(),
            forall|k: int| 0 <= k < operands@.len() ==> (#[trigger] operands@[k])@.len() >= 1,
            targets@.len() <= 100000,
            forall|k: int| 0 <= k < targets@.len() ==> #[trigger] targets@[k] <= 100000000000000,
            0 <= i <= operands@.len(),
            solved@.len() == i,
            sum == solved_sum(
                operands@.map_values(|v: Vec<u64>| v@),
                targets@,
                solved@,
                i as int,
            ),
            sum <= i * 100000000000000,
            forall|k: int|
                0 <= k < solved@.len() && #[trigger] solved@[k] ==> exists|e: Expression|
                    {
                        &&& wf_expr(e)
                        &&& e.operands@ == operands@[k]@.take(e.operands@.len() as int)
                        &&& eval_in_range(e.operands@, e.operators@, e.operands@.len() as int)
                        &&& eval_prefix(e.operands@, e.operators@, e.operands@.len() as int)
                            == targets@[k]
                    },
        decreases operands@.len() - i,
    {
        let row = &operands[i];
        let target = targets[i];
        let found = Expression::from(row, target, possible_operators);
        let ghost pre_solved = solved@;
        let ghost rows = operands@.map_values(|v: Vec<u64>| v@);
        match found {
            Some(e) => {
                proof {
                    assert(rows[i as int] == operands@[i as int]@);
                    assert((i + 1) * 100000000000000 == i * 100000000000000 + 100000000000000);
                }
                solved.push(true);
                sum = sum + target;
            },
            None => {
                solved.push(false);
            },
        }
        proof {
            assert forall|k: int| 0 <= k <= i implies solved_sum(rows, targets@, solved@, k)
                == solved_sum(rows, targets@, pre_solved, k) by {
                lemma_solved_sum_same(rows, targets@, solved@, pre_solved, k);
            }
            assert(i * 100000000000000 <= operands@.len() * 100000000000000) by (nonlinear_arith)
                requires
                    0 <= i <= operands@.len(),
            ;
        }
        i = i + 1;
    }
    proof {
        let flags = solved@;
        assert(flags.len() == operands@.len());
    }
    sum
}

/// Prefix sums agree when the outcome flags agree on the prefix.
proof fn lemma_solved_sum_same(
    rows: Seq<Seq<u64>>,
    targets: Seq<u64>,
    s1: Seq<bool>,
    s2: Seq<bool>,
    n: int,
)
    requires
        0 <= n,
        n <= s1.len(),
        n <= s2.len(),
        forall|k: int| 0 <= k < n ==> s1[k] == s2[k],
    ensures
        solved_sum(rows, targets, s1, n) == solved_sum(rows, targets, s2, n),
    decreases n,
{
    if n > 0 {
        lemma_solved_sum_same(rows, targets, s1, s2, n - 1);
    }
}

} // verus!
