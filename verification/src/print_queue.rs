//! Page-ordering rules and update sequences: each rule `a|b` demands that
//! when both pages appear in an update, `a` is printed before `b`.
use vstd::prelude::*;
use std::collections::HashMap;
use vstd::string::StringSliceAdditionalSpecFns;

verus! {

broadcast use vstd::std_specs::hash::group_hash_axioms;

/// The rule table that a rule list builds: each page maps to the pages that
/// must precede it, in first-seen order, each recorded once.
pub open spec fn requirements_of(rules: Seq<(usize, usize)>) -> Map<usize, Seq<usize>>
    decreases rules.len(),
{
    if rules.len() == 0 {
        Map::empty()
    } else {
        let m = requirements_of(rules.drop_last());
        let prereq = rules.last().0;
        let page = rules.last().1;
        let old_list = if m.contains_key(page) {
            m[page]
        } else {
            Seq::empty()
        };
        m.insert(
            page,
            if old_list.contains(prereq) {
                old_list
            } else {
                old_list.push(prereq)
            },
        )
    }
}

/// Each page's prerequisite list records an entry at most once.
pub proof fn lemma_requirements_distinct(rules: Seq<(usize, usize)>, page: usize)
    requires
        requirements_of(rules).dom().contains(page),
    ensures
        forall|i: int, j: int|
            0 <= i < j < requirements_of(rules)[page].len() ==> requirements_of(rules)[page][i]
                != requirements_of(rules)[page][j],
    decreases rules.len(),
{
    if rules.len() > 0 {
        let m = requirements_of(rules.drop_last());
        let prereq = rules.last().0;
        let pg = rules.last().1;
        if pg == page {
            let old_list = if m.contains_key(page) {
                m[page]
            } else {
                Seq::<usize>::empty()
            };
            if m.dom().contains(page) {
                lemma_requirements_distinct(rules.drop_last(), page);
            }
            if !old_list.contains(prereq) {
                assert forall|i: int, j: int|
                    0 <= i < j < old_list.push(prereq).len() implies old_list.push(prereq)[i]
                    != old_list.push(prereq)[j] by {
                    if j == old_list.len() {
                        assert(old_list[i] != prereq);
                    }
                }
            }
        } else {
            lemma_requirements_distinct(rules.drop_last(), page);
            assert(requirements_of(rules)[page] == m[page]);
        }
    }
}

/// A page's recorded predecessors are exactly the first components of the
/// rules that name it: membership in the table matches the rule list.
pub proof fn lemma_requirements_membership(rules: Seq<(usize, usize)>, prereq: usize, page: usize)
    ensures
        (requirements_of(rules).dom().contains(page) && requirements_of(rules)[page].contains(
            prereq,
        )) <==> rules.contains((prereq, page)),
    decreases rules.len(),
{
    if rules.len() == 0 {
        assert(!rules.contains((prereq, page))) by {
            if rules.contains((prereq, page)) {
                let w = choose|i: int| 0 <= i < rules.len() && rules[i] == (prereq, page);
                assert(false);
            }
        }
    } else {
        lemma_requirements_membership(rules.drop_last(), prereq, page);
        let prior = rules.drop_last();
        let m = requirements_of(prior);
        let p0 = rules.last().0;
        let g0 = rules.last().1;
        assert(rules.contains((prereq, page)) <==> (prior.contains((prereq, page)) || rules.last()
            == (prereq, page))) by {
            if rules.contains((prereq, page)) {
                let w = choose|i: int| 0 <= i < rules.len() && rules[i] == (prereq, page);
                if w < rules.len() - 1 {
                    assert(prior[w] == (prereq, page));
                }
            }
            if prior.contains((prereq, page)) {
                let w = choose|i: int| 0 <= i < prior.len() && prior[i] == (prereq, page);
                assert(rules[w] == (prereq, page));
            }
            if rules.last() == (prereq, page) {
                assert(rules[rules.len() - 1] == (prereq, page));
            }
        }
        let old_list = if m.contains_key(g0) {
            m[g0]
        } else {
            Seq::<usize>::empty()
        };
        let new_list = if old_list.contains(p0) {
            old_list
        } else {
            old_list.push(p0)
        };
        if g0 == page {
            assert(new_list.contains(prereq) <==> (old_list.contains(prereq) || prereq == p0)) by {
                if old_list.contains(prereq) {
                    let w = choose|i: int| 0 <= i < old_list.len() && old_list[i] == prereq;
                    assert(new_list[w] == prereq);
                }
                if prereq == p0 {
                    if old_list.contains(p0) {
                    } else {
                        assert(new_list[new_list.len() - 1] == p0);
                    }
                }
                if new_list.contains(prereq) {
                    let w = choose|i: int| 0 <= i < new_list.len() && new_list[i] == prereq;
                    if w < old_list.len() {
                        assert(old_list[w] == prereq);
                    }
                }
            }
            assert(old_list.contains(prereq) <==> (m.dom().contains(page) && m[page].contains(
                prereq,
            ))) by {
                if !m.dom().contains(page) {
                    if old_list.contains(prereq) {
                        let w = choose|i: int|
                            0 <= i < old_list.len() && old_list[i] == prereq;
                        assert(false);
                    }
                }
            }
        } else {
            assert(requirements_of(rules)[page] == m[page]);
        }
    }
}

/// Folds the rule list into a table from page to its required predecessors,
/// recording each predecessor once, as a set of rules would.
pub fn build_requirements(rules: &Vec<(usize, usize)>) -> (r: HashMap<usize, Vec<usize>>)
    ensures
        r@.dom() == requirements_of(rules@).dom(),
        forall|k: usize|
            r@.dom().contains(k) ==> (#[trigger] r@[k])@ == requirements_of(rules@)[k],
        forall|k: usize, i: int, j: int|
            r@.dom().contains(k) && 0 <= i < j < r@[k]@.len() ==> (#[trigger] r@[k]@[i]) != (
            #[trigger] r@[k]@[j]),
{
    let mut requirements: HashMap<usize, Vec<usize>> = HashMap::new();
    let mut i: usize = 0;
    while i < rules.len()
        invariant
            0 <= i <= rules@.len(),
            requirements@.dom() == requirements_of(rules@.take(i as int)).dom(),
            forall|k: usize|
                requirements@.dom().contains(k) ==> (#[trigger] requirements@[k])@
                    == requirements_of(rules@.take(i as int))[k],
        decreases rules@.len() - i,
    {
        let (prereq, page) = rules[i];
        proof {
            assert(rules@[i as int] == (prereq, page));
            assert(rules@.take(i + 1).drop_last() =~= rules@.take(i as int));
            assert(rules@.take(i + 1).last() == rules@[i as int]);
        }
        let ghost pre_map = requirements_of(rules@.take(i as int));
        match requirements.get(&page) {
            Some(page_prereqs) => {
                if contains_value(page_prereqs, 0, page_prereqs.len(), prereq) {
                    proof {
                        assert((requirements@[page])@.contains(prereq));
                    }
                } else {
                    proof {
                        assert(!(requirements@[page])@.contains(prereq));
                    }
                    let mut updated = page_prereqs.clone();
                    updated.push(prereq);
                    requirements.insert(page, updated);
                }
            },
            None => {
                let mut fresh: Vec<usize> = Vec::new();
                fresh.push(prereq);
                requirements.insert(page, fresh);
                proof {
                    assert(fresh@ =~= Seq::<usize>::empty().push(prereq));
                }
            },
        }
        proof {
            let post_map = requirements_of(rules@.take(i + 1));
            assert(requirements@.dom() =~= post_map.dom());
        }
        i = i + 1;
    }
    proof {
        assert(rules@.take(rules@.len() as int) =~= rules@);
        assert forall|k: usize, i: int, j: int|
            requirements@.dom().contains(k) && 0 <= i < j < requirements@[k]@.len() implies (
        #[trigger] requirements@[k]@[i]) != (#[trigger] requirements@[k]@[j]) by {
            lemma_requirements_distinct(rules@, k);
        }
    }
    requirements
}

/// Page `p` stands somewhere before position `i` of the update.
pub open spec fn appears_before(pages: Seq<usize>, i: int, p: usize) -> bool {
    exists|t: int| 0 <= t < i && pages[t] == p
}

/// The update respects the rules: whenever a required predecessor of a page
/// occurs anywhere in the update, it occurs before that page.
pub open spec fn valid_seq(pages: Seq<usize>, req: Map<usize, Vec<usize>>) -> bool {
    forall|i: int, j: int|
        0 <= i < pages.len() && req.dom().contains(pages[i]) && 0 <= j
            < req[pages[i]]@.len() && pages.contains(#[trigger] req[pages[i]]@[j])
            ==> appears_before(pages, i, req[pages[i]]@[j])
}

/// Whether some position of `[from, to)` holds the value.
fn contains_value(pages: &Vec<usize>, from: usize, to: usize, x: usize) -> (r: bool)
    requires
        from <= to,
        to <= pages@.len(),
    ensures
        r == exists|t: int| from <= t < to && pages@[t] == x,
{
    let mut t: usize = from;
    while t < to
        invariant
            from <= t <= to,
            to <= pages@.len(),
            forall|u: int| from <= u < t ==> pages@[u] != x,
        decreases to - t,
    {
        if pages[t] == x {
            return true;
        }
        t = t + 1;
    }
    false
}

/// Checks one update against the rule table.
pub fn is_valid(seq: &Vec<usize>, requirements: &HashMap<usize, Vec<usize>>) -> (r: bool)
    ensures
        r == valid_seq(seq@, requirements@),
{
    let mut i: usize = 0;
    while i < seq.len()
        invariant
            0 <= i <= seq@.len(),
            forall|ii: int, j: int|
                0 <= ii < i && requirements@.dom().contains(seq@[ii]) && 0 <= j
                    < requirements@[seq@[ii]]@.len() && seq@.contains(
                    #[trigger] requirements@[seq@[ii]]@[j],
                ) ==> appears_before(seq@, ii, requirements@[seq@[ii]]@[j]),
        decreases seq@.len() - i,
    {
        let page = seq[i];
        match requirements.get(&page) {
            Some(prereqs) => {
                let mut j: usize = 0;
                while j < prereqs.len()
                    invariant
                        0 <= i < seq@.len(),
                        page == seq@[i as int],
                        requirements@.dom().contains(page),
                        prereqs@ == requirements@[page]@,
                        0 <= j <= prereqs@.len(),
                        forall|jj: int|
                            0 <= jj < j && seq@.contains(#[trigger] prereqs@[jj])
                                ==> appears_before(seq@, i as int, prereqs@[jj]),
                    decreases prereqs@.len() - j,
                {
                    let p = prereqs[j];
                    if contains_value(seq, 0, seq.len(), p) {
                        if !contains_value(seq, 0, i, p) {
                            proof {
                                assert(!appears_before(seq@, i as int, prereqs@[j as int]));
                                assert(seq@.contains(prereqs@[j as int])) by {
                                    let w = choose|t: int|
                                        0 <= t < seq@.len() && seq@[t] == prereqs@[j as int];
                                    assert(seq@[w] == prereqs@[j as int]);
                                }
                                assert(!valid_seq(seq@, requirements@));
                            }
                            return false;
                        }
                    }
                    j = j + 1;
                }
            },
            None => {},
        }
        i = i + 1;
    }
    true
}


/// The rows of the update list as plain sequences.
pub open spec fn updates_view(seqs: Seq<Vec<usize>>) -> Seq<Seq<usize>> {
    seqs.map_values(|v: Vec<usize>| v@)
}

/// The sum of the middle pages of the valid updates among the first `n`.
pub open spec fn middle_sum(seqs: Seq<Seq<usize>>, req: Map<usize, Vec<usize>>, n: int) -> int
    decreases n,
{
    if n <= 0 {
        0
    } else {
        middle_sum(seqs, req, n - 1) + if valid_seq(seqs[n - 1], req) {
            seqs[n - 1][(seqs[n - 1].len() / 2) as int] as int
        } else {
            0int
        }
    }
}

/// Every summand of the middle-page total is a page number, so the partial
/// sums grow towards the total.
proof fn lemma_middle_sum_monotone(
    seqs: Seq<Seq<usize>>,
    req: Map<usize, Vec<usize>>,
    n: int,
    m: int,
)
    requires
        0 <= n <= m,
    ensures
        middle_sum(seqs, req, n) <= middle_sum(seqs, req, m),
    decreases m - n,
{
    if n < m {
        lemma_middle_sum_monotone(seqs, req, n, m - 1);
    }
}

/// Sums the middle page of every update that respects the rules.
pub fn solve1(seqs: &Vec<Vec<usize>>, requirements: &HashMap<usize, Vec<usize>>) -> (total: usize)
    requires
        forall|k: int| 0 <= k < seqs@.len() ==> (#[trigger] seqs@[k])@.len() >= 1,
        middle_sum(updates_view(seqs@), requirements@, seqs@.len() as int) <= usize::MAX,
    ensures
        total == middle_sum(updates_view(seqs@), requirements@, seqs@.len() as int),
{
    let ghost view = updates_view(seqs@);
    let mut total: usize = 0;
    let mut i: usize = 0;
    while i < seqs.len()
        invariant
            0 <= i <= seqs@.len(),
            view == updates_view(seqs@),
            forall|k: int| 0 <= k < seqs@.len() ==> (#[trigger] seqs@[k])@.len() >= 1,
            middle_sum(view, requirements@, seqs@.len() as int) <= usize::MAX,
            total == middle_sum(view, requirements@, i as int),
        decreases seqs@.len() - i,
    {
        proof {
            assert(view[i as int] == seqs@[i as int]@);
            lemma_middle_sum_monotone(view, requirements@, i + 1, view.len() as int);
            lemma_middle_sum_monotone(view, requirements@, 0, i as int);
        }
        let row = &seqs[i];
        if is_valid(row, requirements) {
            total = total + row[row.len() / 2];
        }
        i = i + 1;
    }
    total
}


/// An ASCII decimal digit.
pub open spec fn digit_byte(b: u8) -> bool {
    48 <= b <= 57
}

/// A nonempty run of decimal digits.
pub open spec fn all_digits(s: Seq<u8>) -> bool {
    s.len() >= 1 && forall|k: int| 0 <= k < s.len() ==> digit_byte(#[trigger] s[k])
}

/// The number the digit run spells.
pub open spec fn num_of(s: Seq<u8>) -> int
    decreases s.len(),
{
    if s.len() == 0 {
        0
    } else {
        num_of(s.drop_last()) * 10 + (s.last() - 48)
    }
}

proof fn lemma_num_of_nonneg(s: Seq<u8>)
    requires
        forall|k: int| 0 <= k < s.len() ==> digit_byte(#[trigger] s[k]),
    ensures
        num_of(s) >= 0,
    decreases s.len(),
{
    if s.len() > 0 {
        lemma_num_of_nonneg(s.drop_last());
    }
}

/// A longer digit prefix spells at least as large a number.
proof fn lemma_num_of_prefix(s: Seq<u8>, n: int, m: int)
    requires
        forall|k: int| 0 <= k < s.len() ==> digit_byte(#[trigger] s[k]),
        0 <= n <= m <= s.len(),
    ensures
        num_of(s.subrange(0, n)) <= num_of(s.subrange(0, m)),
    decreases m - n,
{
    if n < m {
        lemma_num_of_prefix(s, n, m - 1);
        let a = s.subrange(0, m - 1);
        let b = s.subrange(0, m);
        assert(b.drop_last() =~= a);
        lemma_num_of_nonneg(a);
        assert(num_of(b) == num_of(a) * 10 + (b.last() - 48));
    }
}

/// Reads the decimal number spelt by `bytes[from, to)`.
fn parse_number(bytes: &[u8], from: usize, to: usize) -> (n: usize)
    requires
        from < to <= bytes@.len(),
        forall|k: int| from <= k < to ==> digit_byte(#[trigger] bytes@[k]),
        num_of(bytes@.subrange(from as int, to as int)) <= usize::MAX,
    ensures
        n == num_of(bytes@.subrange(from as int, to as int)),
{
    let ghost whole = bytes@.subrange(from as int, to as int);
    let mut n: usize = 0;
    let mut i: usize = from;
    proof {
        assert(whole.subrange(0, 0) =~= bytes@.subrange(from as int, from as int));
    }
    while i < to
        invariant
            from <= i <= to,
            to <= bytes@.len(),
            whole == bytes@.subrange(from as int, to as int),
            forall|k: int| from <= k < to ==> digit_byte(#[trigger] bytes@[k]),
            num_of(whole) <= usize::MAX,
            n == num_of(whole.subrange(0, i - from)),
        decreases to - i,
    {
        proof {
            assert(forall|k: int| 0 <= k < whole.len() ==> digit_byte(#[trigger] whole[k]));
            lemma_num_of_prefix(whole, i - from + 1, whole.len() as int);
            assert(whole.subrange(0, whole.len() as int) =~= whole);
            assert(whole.subrange(0, i - from + 1).drop_last() =~= whole.subrange(0, i - from));
            assert(whole.subrange(0, i - from + 1).last() == whole[i - from]);
            assert(whole[i - from] == bytes@[i as int]);
            lemma_num_of_nonneg(whole.subrange(0, i - from));
        }
        let d = bytes[i];
        n = n * 10 + ((d - 48) as usize);
        i = i + 1;
    }
    proof {
        assert(whole.subrange(0, whole.len() as int) =~= whole);
    }
    n
}

/// Reads a rule `a|b` into the pair `(a, b)`.
pub fn parse_rule(rule: &str) -> (r: (usize, usize))
    requires
        rule_shape(rule.spec_bytes()),
    ensures
        r == rule_value(rule.spec_bytes()),
{
    let bytes = rule.as_bytes();
    proof {
        assert(bytes@.subrange(0, bytes@.len() as int) =~= rule.spec_bytes());
    }
    parse_rule_range(bytes, 0, bytes.len())
}

/// The first comma of the run, or its length when it has none.
pub open spec fn first_comma(s: Seq<u8>) -> int
    decreases s.len(),
{
    if s.len() == 0 {
        0
    } else if s[0] == 44 {
        0
    } else {
        1 + first_comma(s.drop_first())
    }
}

proof fn lemma_first_comma(s: Seq<u8>)
    ensures
        0 <= first_comma(s) <= s.len(),
        first_comma(s) < s.len() ==> s[first_comma(s)] == 44,
        forall|k: int| 0 <= k < first_comma(s) ==> s[k] != 44,
    decreases s.len(),
{
    if s.len() > 0 && s[0] != 44 {
        lemma_first_comma(s.drop_first());
        assert forall|k: int| 0 <= k < first_comma(s) implies s[k] != 44 by {
            if k > 0 {
                assert(s.drop_first()[k - 1] != 44);
            }
        }
    }
}

/// The run is a comma-separated list of digit runs, each fitting a machine
/// word.
pub open spec fn csv_shape(s: Seq<u8>) -> bool
    decreases s.len(),
    via csv_shape_decreases
{
    let k = first_comma(s);
    &&& all_digits(s.take(k))
    &&& num_of(s.take(k)) <= usize::MAX
    &&& (k == s.len() || csv_shape(s.skip(k + 1)))
}

#[via_fn]
proof fn csv_shape_decreases(s: Seq<u8>) {
    lemma_first_comma(s);
}

/// The numbers the comma-separated list spells, in order.
pub open spec fn csv_values(s: Seq<u8>) -> Seq<usize>
    decreases s.len(),
    via csv_values_decreases
{
    let k = first_comma(s);
    seq![num_of(s.take(k)) as usize] + (if k == s.len() {
        Seq::empty()
    } else {
        csv_values(s.skip(k + 1))
    })
}

#[via_fn]
proof fn csv_values_decreases(s: Seq<u8>) {
    lemma_first_comma(s);
}

/// Reads an update `a,b,c,...` into its page list.
pub fn parse_seq(seq_text: &str) -> (r: Vec<usize>)
    requires
        csv_shape(seq_text.spec_bytes()),
    ensures
        r@ == csv_values(seq_text.spec_bytes()),
{
    let bytes = seq_text.as_bytes();
    proof {
        assert(bytes@.subrange(0, bytes@.len() as int) =~= seq_text.spec_bytes());
    }
    parse_seq_range(bytes, 0, bytes.len())
}

/// The first pipe of the run, or its length when it has none.
pub open spec fn first_pipe(s: Seq<u8>) -> int
    decreases s.len(),
{
    if s.len() == 0 {
        0
    } else if s[0] == 124 {
        0
    } else {
        1 + first_pipe(s.drop_first())
    }
}

proof fn lemma_first_pipe(s: Seq<u8>)
    ensures
        0 <= first_pipe(s) <= s.len(),
        first_pipe(s) < s.len() ==> s[first_pipe(s)] == 124,
        forall|k: int| 0 <= k < first_pipe(s) ==> s[k] != 124,
    decreases s.len(),
{
    if s.len() > 0 && s[0] != 124 {
        lemma_first_pipe(s.drop_first());
        assert forall|k: int| 0 <= k < first_pipe(s) implies s[k] != 124 by {
            if k > 0 {
                assert(s.drop_first()[k - 1] != 124);
            }
        }
    }
}

/// The run is a rule: digits, one pipe, digits, both numbers in machine
/// range.
pub open spec fn rule_shape(s: Seq<u8>) -> bool {
    let k = first_pipe(s);
    &&& k < s.len()
    &&& all_digits(s.take(k))
    &&& all_digits(s.skip(k + 1))
    &&& num_of(s.take(k)) <= usize::MAX
    &&& num_of(s.skip(k + 1)) <= usize::MAX
}

/// The pair of numbers the rule spells.
pub open spec fn rule_value(s: Seq<u8>) -> (usize, usize) {
    let k = first_pipe(s);
    (num_of(s.take(k)) as usize, num_of(s.skip(k + 1)) as usize)
}

/// Reads the rule spelt by `bytes[from, to)`.
fn parse_rule_range(bytes: &[u8], from: usize, to: usize) -> (r: (usize, usize))
    requires
        from <= to <= bytes@.len(),
        rule_shape(bytes@.subrange(from as int, to as int)),
    ensures
        r == rule_value(bytes@.subrange(from as int, to as int)),
{
    let ghost sub = bytes@.subrange(from as int, to as int);
    proof {
        lemma_first_pipe(sub);
    }
    let mut sep: usize = from;
    while sep < to && bytes[sep] != 124
        invariant
            from <= sep <= to,
            to <= bytes@.len(),
            sub == bytes@.subrange(from as int, to as int),
            forall|t: int| from <= t < sep ==> bytes@[t] != 124,
            sep - from <= first_pipe(sub),
        decreases to - sep,
    {
        proof {
            lemma_first_pipe(sub);
            assert(sub[sep - from] == bytes@[sep as int]);
        }
        sep = sep + 1;
    }
    proof {
        assert(sep - from == first_pipe(sub)) by {
            if sep - from < first_pipe(sub) {
                lemma_first_pipe(sub);
                if sep < to {
                    assert(sub[sep - from] == bytes@[sep as int]);
                    assert(sub[sep - from] != 124);
                    assert(false);
                } else {
                    assert(false);
                }
            }
        }
        assert(sub.take(sep - from) =~= bytes@.subrange(from as int, sep as int));
        assert(sub.skip(sep - from + 1) =~= bytes@.subrange(sep + 1, to as int));
        assert forall|t: int| from <= t < sep implies digit_byte(#[trigger] bytes@[t]) by {
            assert(sub.take(sep - from)[t - from] == bytes@[t]);
        }
        assert forall|t: int| sep + 1 <= t < to implies digit_byte(#[trigger] bytes@[t]) by {
            assert(sub.skip(sep - from + 1)[t - (sep + 1)] == bytes@[t]);
        }
        assert(sub.take(sep - from).len() >= 1 && sub.skip(sep - from + 1).len() >= 1);
    }
    let a = parse_number(bytes, from, sep);
    let b = parse_number(bytes, sep + 1, to);
    (a, b)
}

/// Reads the page list spelt by `bytes[from, to)`.
fn parse_seq_range(bytes: &[u8], from: usize, to: usize) -> (r: Vec<usize>)
    requires
        from <= to <= bytes@.len(),
        csv_shape(bytes@.subrange(from as int, to as int)),
    ensures
        r@ == csv_values(bytes@.subrange(from as int, to as int)),
{
    let mut r: Vec<usize> = Vec::new();
    let mut pos: usize = from;
    let mut done = false;
    proof {
        assert(bytes@.subrange(from as int, to as int).skip(0) =~= bytes@.subrange(
            from as int,
            to as int,
        ));
    }
    while !done
        invariant
            from <= pos <= to,
            to <= bytes@.len(),
            csv_shape(bytes@.subrange(from as int, to as int)),
            !done ==> csv_shape(bytes@.subrange(pos as int, to as int)),
            !done ==> csv_values(bytes@.subrange(from as int, to as int)) == r@ + csv_values(
                bytes@.subrange(pos as int, to as int),
            ),
            done ==> csv_values(bytes@.subrange(from as int, to as int)) == r@,
        decreases to - pos + (if done {
            0int
        } else {
            1int
        }),
    {
        let ghost rest = bytes@.subrange(pos as int, to as int);
        proof {
            lemma_first_comma(rest);
        }
        let mut k: usize = pos;
        while k < to && bytes[k] != 44
            invariant
                pos <= k <= to,
                to <= bytes@.len(),
                rest == bytes@.subrange(pos as int, to as int),
                forall|t: int| pos <= t < k ==> bytes@[t] != 44,
                k - pos <= first_comma(rest),
            decreases to - k,
        {
            proof {
                lemma_first_comma(rest);
                assert(rest[k - pos] == bytes@[k as int]);
            }
            k = k + 1;
        }
        proof {
            assert(k - pos == first_comma(rest)) by {
                if k - pos < first_comma(rest) {
                    lemma_first_comma(rest);
                    if k < to {
                        assert(rest[k - pos] == bytes@[k as int]);
                        assert(rest[k - pos] != 44);
                        assert(false);
                    } else {
                        assert(false);
                    }
                }
            }
            assert(rest.take(k - pos) =~= bytes@.subrange(pos as int, k as int));
            assert(all_digits(rest.take(k - pos)));
            assert forall|t: int| pos <= t < k implies digit_byte(#[trigger] bytes@[t]) by {
                assert(rest.take(k - pos)[t - pos] == bytes@[t]);
            }
            assert(pos < k) by {
                assert(rest.take(k - pos).len() >= 1);
            }
            assert(bytes@.subrange(pos as int, k as int) =~= rest.take(k - pos));
        }
        let value = parse_number(bytes, pos, k);
        proof {
            assert(value == num_of(rest.take(k - pos)));
        }
        r.push(value);
        proof {
            assert(csv_values(rest) == seq![num_of(rest.take(k - pos)) as usize] + (if k - pos
                == rest.len() {
                Seq::<usize>::empty()
            } else {
                csv_values(rest.skip(k - pos + 1))
            }));
        }
        if k == to {
            proof {
                assert(k - pos == rest.len());
                assert(csv_values(rest) =~= seq![value]);
                assert(csv_values(bytes@.subrange(from as int, to as int)) =~= r@);
            }
            done = true;
        } else {
            proof {
                assert(rest.skip(k - pos + 1) =~= bytes@.subrange(k + 1, to as int));
                assert(r@ + csv_values(bytes@.subrange(k + 1, to as int)) =~= csv_values(
                    bytes@.subrange(from as int, to as int),
                ));
            }
            pos = k + 1;
        }
    }
    r
}

/// The first line break of the run, or its length when it has none.
pub open spec fn first_nl(s: Seq<u8>) -> int
    decreases s.len(),
{
    if s.len() == 0 {
        0
    } else if s[0] == 10 {
        0
    } else {
        1 + first_nl(s.drop_first())
    }
}

proof fn lemma_first_nl(s: Seq<u8>)
    ensures
        0 <= first_nl(s) <= s.len(),
        first_nl(s) < s.len() ==> s[first_nl(s)] == 10,
        forall|k: int| 0 <= k < first_nl(s) ==> s[k] != 10,
    decreases s.len(),
{
    if s.len() > 0 && s[0] != 10 {
        lemma_first_nl(s.drop_first());
        assert forall|k: int| 0 <= k < first_nl(s) implies s[k] != 10 by {
            if k > 0 {
                assert(s.drop_first()[k - 1] != 10);
            }
        }
    }
}

/// Every line of the text is readable in its section: while rules are being
/// read a nonempty line is a rule, afterwards it is a page list, and an empty
/// line ends the rules section.
pub open spec fn input_shape(s: Seq<u8>, reading_rules: bool) -> bool
    decreases s.len(),
    via input_shape_decreases
{
    let k = first_nl(s);
    let line = s.take(k);
    let line_ok = line.len() == 0 || (if reading_rules {
        rule_shape(line)
    } else {
        csv_shape(line)
    });
    let next_reading = if line.len() == 0 {
        false
    } else {
        reading_rules
    };
    line_ok && (k == s.len() || input_shape(s.skip(k + 1), next_reading))
}

#[via_fn]
proof fn input_shape_decreases(s: Seq<u8>, reading_rules: bool) {
    lemma_first_nl(s);
}

/// The rules and page lists the text spells, read line by line.
pub open spec fn parse_lines(s: Seq<u8>, reading_rules: bool) -> (
    Seq<(usize, usize)>,
    Seq<Seq<usize>>,
)
    decreases s.len(),
    via parse_lines_decreases
{
    let k = first_nl(s);
    let line = s.take(k);
    let next_reading = if line.len() == 0 {
        false
    } else {
        reading_rules
    };
    let rest = if k == s.len() {
        (Seq::<(usize, usize)>::empty(), Seq::<Seq<usize>>::empty())
    } else {
        parse_lines(s.skip(k + 1), next_reading)
    };
    if line.len() == 0 {
        rest
    } else if reading_rules {
        (seq![rule_value(line)] + rest.0, rest.1)
    } else {
        (rest.0, seq![csv_values(line)] + rest.1)
    }
}

#[via_fn]
proof fn parse_lines_decreases(s: Seq<u8>, reading_rules: bool) {
    lemma_first_nl(s);
}

/// Splits the text into its ordering rules and its updates: rules come
/// first, an empty line switches sections, and every later line is an
/// update.
pub fn parse_input(input: &str) -> (r: (Vec<(usize, usize)>, Vec<Vec<usize>>))
    requires
        input_shape(input.spec_bytes(), true),
    ensures
        r.0@ == parse_lines(input.spec_bytes(), true).0,
        r.1@.map_values(|v: Vec<usize>| v@) == parse_lines(input.spec_bytes(), true).1,
{
    let bytes = input.as_bytes();
    let ghost s = input.spec_bytes();
    let mut rules: Vec<(usize, usize)> = Vec::new();
    let mut seqs: Vec<Vec<usize>> = Vec::new();
    let mut reading_rules = true;
    let mut pos: usize = 0;
    let mut done = false;
    proof {
        assert(s.skip(0) =~= s);
        assert(seqs@.map_values(|v: Vec<usize>| v@) =~= Seq::<Seq<usize>>::empty());
    }
    while !done
        invariant
            0 <= pos <= bytes@.len(),
            bytes@ == s,
            !done ==> input_shape(s.skip(pos as int), reading_rules),
            !done ==> parse_lines(s, true).0 == rules@ + parse_lines(
                s.skip(pos as int),
                reading_rules,
            ).0,
            !done ==> parse_lines(s, true).1 == seqs@.map_values(|v: Vec<usize>| v@)
                + parse_lines(s.skip(pos as int), reading_rules).1,
            done ==> parse_lines(s, true).0 == rules@,
            done ==> parse_lines(s, true).1 == seqs@.map_values(|v: Vec<usize>| v@),
        decreases bytes@.len() - pos + (if done {
            0int
        } else {
            1int
        }),
    {
        let ghost rest = s.skip(pos as int);
        proof {
            lemma_first_nl(rest);
        }
        let mut k: usize = pos;
        while k < bytes.len() && bytes[k] != 10
            invariant
                pos <= k <= bytes@.len(),
                bytes@ == s,
                rest == s.skip(pos as int),
                forall|t: int| pos <= t < k ==> s[t] != 10,
                k - pos <= first_nl(rest),
            decreases bytes@.len() - k,
        {
            proof {
                lemma_first_nl(rest);
                assert(rest[k - pos] == s[k as int]);
            }
            k = k + 1;
        }
        proof {
            assert(k - pos == first_nl(rest)) by {
                if k - pos < first_nl(rest) {
                    lemma_first_nl(rest);
                    if k < bytes@.len() {
                        assert(rest[k - pos] == s[k as int]);
                        assert(rest[k - pos] != 10);
                        assert(false);
                    } else {
                        assert(false);
                    }
                }
            }
            assert(rest.take(k - pos) =~= s.subrange(pos as int, k as int));
        }
        let ghost pre_rules = rules@;
        let ghost pre_seqs = seqs@.map_values(|v: Vec<usize>| v@);
        if k == pos {
            reading_rules = false;
        } else if reading_rules {
            let rule = parse_rule_range(bytes, pos, k);
            rules.push(rule);
            proof {
                assert(rule == rule_value(rest.take(k - pos)));
                assert(rules@ =~= pre_rules.push(rule));
            }
        } else {
            let one_seq = parse_seq_range(bytes, pos, k);
            proof {
                assert(one_seq@ == csv_values(rest.take(k - pos)));
            }
            seqs.push(one_seq);
            proof {
                assert(seqs@.map_values(|v: Vec<usize>| v@) =~= pre_seqs.push(one_seq@));
            }
        }
        if k == bytes.len() {
            proof {
                assert(k - pos == rest.len());
                assert(parse_lines(s, true).0 =~= rules@);
                assert(parse_lines(s, true).1 =~= seqs@.map_values(|v: Vec<usize>| v@));
            }
            done = true;
        } else {
            proof {
                assert(rest.skip(k - pos + 1) =~= s.skip(k + 1));
                assert(parse_lines(s, true).0 =~= rules@ + parse_lines(
                    s.skip(k + 1),
                    reading_rules,
                ).0);
                assert(parse_lines(s, true).1 =~= seqs@.map_values(|v: Vec<usize>| v@)
                    + parse_lines(s.skip(k + 1), reading_rules).1);
            }
            pos = k + 1;
        }
    }
    (rules, seqs)
}

} // verus!
