//! Two columns of location ids: their total distance once both are sorted and
//! paired off, and a similarity score that weights each left entry by how
//! often it appears on the right.
use vstd::prelude::*;
use vstd::multiset::Multiset;

verus! {

broadcast use vstd::seq_lib::group_to_multiset_ensures;

#[verifier::external_type_specification]
#[verifier::external_body]
#[verifier::reject_recursive_types(T)]
#[verifier::reject_recursive_types(N)]
#[verifier::reject_recursive_types(S)]
pub struct ExCounter<T, N, S>(counter::Counter<T, N, S>);

/// What the counter holds: each item with its tally, as a multiset.
pub uninterp spec fn counter_counts(
    c: counter::Counter<usize, usize, std::collections::hash_map::RandomState>,
) -> Multiset<usize>;

/// Relies on counter's FromIterator: collecting counts each item's
/// occurrences.
#[verifier::external_body]
fn counter_from(v: &Vec<usize>) -> (c: counter::Counter<usize, usize>)
    ensures
        counter_counts(c) == v@.to_multiset(),
{
    v.iter().cloned().collect()
}

/// Relies on counter's Index: the tally of the key, zero when absent.
#[verifier::external_body]
fn count_of(c: &counter::Counter<usize, usize>, k: usize) -> (n: usize)
    ensures
        n == counter_counts(*c).count(k),
{
    c[&k]
}

/// Relies on slice::sort: sorts in place in ascending order, keeping the
/// elements.
#[verifier::external_body]
fn sort_values(v: &mut Vec<usize>)
    ensures
        final(v)@.len() == old(v)@.len(),
        sorted_ascending(final(v)@),
        final(v)@.to_multiset() == old(v)@.to_multiset(),
{
    v.sort();
}

pub open spec fn sorted_ascending(s: Seq<usize>) -> bool {
    forall|i: int, j: int| 0 <= i < j < s.len() ==> #[trigger] s[i] <= #[trigger] s[j]
}

/// The total of the column's entries.
pub open spec fn sum_of(s: Seq<usize>) -> int
    decreases s.len(),
{
    if s.len() == 0 {
        0
    } else {
        sum_of(s.drop_last()) + s.last()
    }
}

/// Taking one entry out takes exactly its value out of the total.
proof fn lemma_sum_of_remove(s: Seq<usize>, i: int)
    requires
        0 <= i < s.len(),
    ensures
        sum_of(s) == sum_of(s.remove(i)) + s[i],
    decreases s.len(),
{
    if i == s.len() - 1 {
        assert(s.remove(i) =~= s.drop_last());
    } else {
        assert(s.remove(i).drop_last() =~= s.drop_last().remove(i));
        lemma_sum_of_remove(s.drop_last(), i);
        assert(s.remove(i).last() == s.last());
    }
}

/// Columns holding the same entries have the same total: sorting does not
/// change a sum.
proof fn lemma_sum_of_multiset(s1: Seq<usize>, s2: Seq<usize>)
    requires
        s1.to_multiset() == s2.to_multiset(),
    ensures
        sum_of(s1) == sum_of(s2),
    decreases s1.len(),
{
    if s1.len() == 0 {
        if s2.len() > 0 {
            assert(s2.to_multiset().count(s2[0]) > 0);
            assert(s1.to_multiset().count(s2[0]) == 0) by {
                if s1.contains(s2[0]) {
                    let w = choose|i: int| 0 <= i < s1.len() && s1[i] == s2[0];
                    assert(false);
                }
            }
        }
    } else {
        let x = s1.last();
        assert(s1.contains(x)) by {
            assert(s1[s1.len() - 1] == x);
        }
        assert(s2.to_multiset().count(x) > 0);
        assert(s2.contains(x));
        let w = choose|i: int| 0 <= i < s2.len() && s2[i] == x;
        assert(s1 =~= s1.drop_last().push(x));
        assert(s1.to_multiset() == s1.drop_last().push(x).to_multiset());
        assert(s1.drop_last().to_multiset() =~= s2.remove(w).to_multiset()) by {
            assert(s1.drop_last().push(x).to_multiset() =~= s1.drop_last().to_multiset().insert(
                x,
            ));
            assert(s2.remove(w).to_multiset() == s2.to_multiset().remove(x));
            assert forall|y: usize|
                s1.drop_last().to_multiset().count(y) == s2.remove(w).to_multiset().count(y) by {
                assert(s1.drop_last().to_multiset().insert(x).count(y) == s2.to_multiset().count(
                    y,
                ));
            }
        }
        lemma_sum_of_multiset(s1.drop_last(), s2.remove(w));
        lemma_sum_of_remove(s2, w);
    }
}

/// Pairing never outruns the entries: the distance over the first `n` pairs
/// is at most the total of what they hold.
proof fn lemma_distance_prefix_bound(s1: Seq<usize>, s2: Seq<usize>, n: int)
    requires
        0 <= n,
        n <= s1.len(),
        n <= s2.len(),
    ensures
        0 <= distance_prefix(s1, s2, n),
        distance_prefix(s1, s2, n) <= sum_of(s1.take(n)) + sum_of(s2.take(n)),
    decreases n,
{
    if n > 0 {
        lemma_distance_prefix_bound(s1, s2, n - 1);
        assert(s1.take(n).drop_last() =~= s1.take(n - 1));
        assert(s2.take(n).drop_last() =~= s2.take(n - 1));
        assert(s1.take(n).last() == s1[n - 1]);
        assert(s2.take(n).last() == s2[n - 1]);
    }
}

/// A longer prefix of a column holds at least as much.
proof fn lemma_sum_take_monotone(s: Seq<usize>, n: int, m: int)
    requires
        0 <= n <= m <= s.len(),
    ensures
        sum_of(s.take(n)) <= sum_of(s.take(m)),
    decreases m - n,
{
    if n < m {
        lemma_sum_take_monotone(s, n, m - 1);
        assert(s.take(m).drop_last() =~= s.take(m - 1));
    }
}

/// Total distance of the first `n` pairs of the two columns.
pub open spec fn distance_prefix(s1: Seq<usize>, s2: Seq<usize>, n: int) -> int
    decreases n,
{
    if n <= 0 {
        0
    } else {
        distance_prefix(s1, s2, n - 1) + abs_diff(s1[n - 1] as int, s2[n - 1] as int)
    }
}

pub open spec fn abs_diff(a: int, b: int) -> int {
    if a >= b {
        a - b
    } else {
        b - a
    }
}

pub open spec fn min_len(s1: Seq<usize>, s2: Seq<usize>) -> int {
    if s1.len() <= s2.len() {
        s1.len() as int
    } else {
        s2.len() as int
    }
}

/// Pairs the two columns in ascending order and sums the distances of the
/// pairs.
pub fn solve1(v1: Vec<usize>, v2: Vec<usize>) -> (total: usize)
    requires
        sum_of(v1@) + sum_of(v2@) <= usize::MAX,
    ensures
        exists|s1: Seq<usize>, s2: Seq<usize>|
            {
                &&& #[trigger] sorted_ascending(s1)
                &&& #[trigger] sorted_ascending(s2)
                &&& s1.to_multiset() == v1@.to_multiset()
                &&& s2.to_multiset() == v2@.to_multiset()
                &&& s1.len() == v1@.len()
                &&& s2.len() == v2@.len()
                &&& total == distance_prefix(s1, s2, min_len(s1, s2))
            },
{
    let mut v1 = v1;
    let mut v2 = v2;
    let ghost orig1 = v1@;
    let ghost orig2 = v2@;
    sort_values(&mut v1);
    sort_values(&mut v2);
    proof {
        lemma_sum_of_multiset(v1@, orig1);
        lemma_sum_of_multiset(v2@, orig2);
    }
    let n = if v1.len() <= v2.len() {
        v1.len()
    } else {
        v2.len()
    };
    let mut total: usize = 0;
    let mut i: usize = 0;
    while i < n
        invariant
            0 <= i <= n,
            n == min_len(v1@, v2@),
            n <= v1@.len() && n <= v2@.len(),
            sum_of(v1@) + sum_of(v2@) <= usize::MAX,
            total == distance_prefix(v1@, v2@, i as int),
        decreases n - i,
    {
        let a = v1[i];
        let b = v2[i];
        let d = if a >= b {
            a - b
        } else {
            b - a
        };
        proof {
            lemma_distance_prefix_bound(v1@, v2@, i + 1);
            lemma_distance_prefix_bound(v1@, v2@, i as int);
            lemma_sum_take_monotone(v1@, i + 1, v1@.len() as int);
            lemma_sum_take_monotone(v2@, i + 1, v2@.len() as int);
            assert(v1@.take(v1@.len() as int) =~= v1@);
            assert(v2@.take(v2@.len() as int) =~= v2@);
        }
        total = total + d;
        i = i + 1;
    }
    total
}

/// The similarity total of the first `n` left entries: each is weighted by
/// its tally on the right.
pub open spec fn similarity_prefix(s1: Seq<usize>, counts: Multiset<usize>, n: int) -> int
    decreases n,
{
    if n <= 0 {
        0
    } else {
        similarity_prefix(s1, counts, n - 1) + s1[n - 1] * counts.count(s1[n - 1])
    }
}

/// The similarity score of the two columns.
pub open spec fn similarity(s1: Seq<usize>, s2: Seq<usize>) -> int {
    similarity_prefix(s1, s2.to_multiset(), s1.len() as int)
}

/// Every summand of the similarity score is a product of tallies, so the
/// partial sums grow towards the total.
proof fn lemma_similarity_prefix_monotone(s1: Seq<usize>, counts: Multiset<usize>, n: int, m: int)
    requires
        0 <= n <= m,
    ensures
        similarity_prefix(s1, counts, n) <= similarity_prefix(s1, counts, m),
    decreases m - n,
{
    if n < m {
        lemma_similarity_prefix_monotone(s1, counts, n, m - 1);
        assert(s1[m - 1] * counts.count(s1[m - 1]) >= 0) by (nonlinear_arith)
            requires
                s1[m - 1] >= 0,
                counts.count(s1[m - 1]) >= 0,
        ;
    }
}

/// Sums, over the left column, each entry times its tally in the right
/// column.
pub fn solve2(v1: &Vec<usize>, v2: &Vec<usize>) -> (answer: usize)
    requires
        similarity(v1@, v2@) <= usize::MAX,
    ensures
        answer == similarity(v1@, v2@),
{
    let counts = counter_from(v2);
    let mut answer: usize = 0;
    let mut i: usize = 0;
    while i < v1.len()
        invariant
            0 <= i <= v1@.len(),
            counter_counts(counts) == v2@.to_multiset(),
            similarity(v1@, v2@) <= usize::MAX,
            answer == similarity_prefix(v1@, v2@.to_multiset(), i as int),
        decreases v1@.len() - i,
    {
        let x = v1[i];
        let c = count_of(&counts, x);
        proof {
            lemma_similarity_prefix_monotone(v1@, v2@.to_multiset(), i + 1, v1@.len() as int);
            lemma_similarity_prefix_monotone(v1@, v2@.to_multiset(), 0, i as int);
            assert(similarity_prefix(v1@, v2@.to_multiset(), i + 1) == answer + x * (
            v2@.to_multiset().count(x) as int));
        }
        answer = answer + x * c;
        i = i + 1;
    }
    answer
}

} // verus!
