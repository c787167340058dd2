//! Disk-block compaction: a fixed-length medium of blocks, each free or
//! holding a file id, rearranged in place by two relocation policies, and
//! reduced to a positional checksum once a policy has run.
use vstd::prelude::*;
use vstd::multiset::Multiset;

verus! {

broadcast use vstd::multiset::group_multiset_axioms;

/// One addressable unit of the medium: free, or occupied by a file id.
#[derive(Clone, Copy, PartialEq, Eq, Structural, Debug)]
pub enum Block {
    File(usize),
    Empty,
}

pub open spec fn is_file(b: Block) -> bool {
    match b {
        Block::File(_) => true,
        Block::Empty => false,
    }
}

pub open spec fn file_id(b: Block) -> usize
    recommends
        is_file(b),
{
    match b {
        Block::File(id) => id,
        Block::Empty => 0,
    }
}

/// The checksum contribution of position `i` holding block `b`.
pub open spec fn term_of(i: int, b: Block) -> int {
    match b {
        Block::File(id) => i * id,
        Block::Empty => 0,
    }
}

/// Sum of `position * file_id` over the occupied positions below `n`.
pub open spec fn checksum_prefix(s: Seq<Block>, n: int) -> int
    decreases n,
{
    if n <= 0 {
        0
    } else {
        checksum_prefix(s, n - 1) + term_of(n - 1, s[n - 1])
    }
}

/// Sum of `position * file_id` over every occupied position of the store.
pub open spec fn checksum_of(s: Seq<Block>) -> int {
    checksum_prefix(s, s.len() as int)
}

proof fn lemma_checksum_prefix_monotone(s: Seq<Block>, n: int, m: int)
    requires
        0 <= n <= m,
    ensures
        checksum_prefix(s, n) <= checksum_prefix(s, m),
    decreases m - n,
{
    if n < m {
        lemma_checksum_prefix_monotone(s, n, m - 1);
        assert(term_of(m - 1, s[m - 1]) >= 0);
    }
}

/// Every file id of the store is small enough that any rearrangement of its
/// blocks has a checksum that a `usize` can hold.
pub open spec fn fits(s: Seq<Block>) -> bool {
    forall|k: int|
        0 <= k < s.len() && is_file(#[trigger] s[k]) ==> (file_id(s[k]) + 1) * s.len() * s.len()
            <= usize::MAX
}

proof fn lemma_checksum_prefix_fits(s: Seq<Block>, n: int)
    requires
        fits(s),
        0 <= n <= s.len(),
    ensures
        checksum_prefix(s, n) * s.len() <= n * usize::MAX,
    decreases n,
{
    if n > 0 {
        lemma_checksum_prefix_fits(s, n - 1);
        let len = s.len() as int;
        match s[n - 1] {
            Block::File(id) => {
                assert(is_file(s[n - 1]) && file_id(s[n - 1]) == id);
                assert((id + 1) * len * len <= usize::MAX);
                assert((n - 1) * id * len <= id * len * len) by (nonlinear_arith)
                    requires
                        1 <= n <= len,
                        id >= 0,
                ;
                assert(id * len * len <= (id + 1) * len * len - len * len) by (nonlinear_arith);
                assert(term_of(n - 1, s[n - 1]) * len <= usize::MAX) by {
                    assert(len * len >= 0) by (nonlinear_arith);
                }
                assert((checksum_prefix(s, n - 1) + term_of(n - 1, s[n - 1])) * len
                    == checksum_prefix(s, n - 1) * len + term_of(n - 1, s[n - 1]) * len)
                    by (nonlinear_arith);
            },
            Block::Empty => {
                assert((checksum_prefix(s, n - 1) + 0) * len == checksum_prefix(s, n - 1) * len);
            },
        }
    }
}

/// A store whose ids meet `fits` has a checksum that a `usize` can hold.
pub proof fn lemma_checksum_fits(s: Seq<Block>)
    requires
        fits(s),
    ensures
        0 <= checksum_of(s) <= usize::MAX,
{
    let len = s.len() as int;
    lemma_checksum_prefix_monotone(s, 0, len);
    if len > 0 {
        lemma_checksum_prefix_fits(s, len);
        assert(checksum_of(s) * len <= len * usize::MAX);
        assert(checksum_of(s) <= usize::MAX) by (nonlinear_arith)
            requires
                len >= 1,
                checksum_of(s) * len <= len * usize::MAX,
        ;
    }
}

/// The multiset contribution of one block: its file id, or nothing.
pub open spec fn ids_of_block(b: Block) -> Multiset<usize> {
    match b {
        Block::File(id) => Multiset::empty().insert(id),
        Block::Empty => Multiset::empty(),
    }
}

/// The multiset of file ids held by the store, one occurrence per occupied
/// block.
pub open spec fn ids_of(s: Seq<Block>) -> Multiset<usize>
    decreases s.len(),
{
    if s.len() == 0 {
        Multiset::empty()
    } else {
        ids_of(s.drop_last()).add(ids_of_block(s.last()))
    }
}

proof fn lemma_multiset_cancel(a: Multiset<usize>, b: Multiset<usize>, c: Multiset<usize>)
    requires
        a.add(c) == b.add(c),
    ensures
        a == b,
{
    assert forall|x: usize| a.count(x) == b.count(x) by {
        assert(a.add(c).count(x) == a.count(x) + c.count(x));
        assert(b.add(c).count(x) == b.count(x) + c.count(x));
        assert(a.add(c).count(x) == b.add(c).count(x));
    }
    assert(a =~= b);
}

/// Overwriting one position trades that position's contribution for the new
/// block's contribution.
proof fn lemma_ids_of_update(s: Seq<Block>, i: int, b: Block)
    requires
        0 <= i < s.len(),
    ensures
        ids_of(s.update(i, b)).add(ids_of_block(s[i])) == ids_of(s).add(ids_of_block(b)),
    decreases s.len(),
{
    let t = s.update(i, b);
    if i == s.len() - 1 {
        assert(t.drop_last() =~= s.drop_last());
        assert(ids_of(t).add(ids_of_block(s[i])) =~= ids_of(s).add(ids_of_block(b)));
    } else {
        let sdl = s.drop_last();
        assert(t.drop_last() =~= sdl.update(i, b));
        lemma_ids_of_update(sdl, i, b);
        assert(t.last() == s.last());
        assert(sdl[i] == s[i]);
        let ta = ids_of(t.drop_last());
        let sa = ids_of(sdl);
        let ul = ids_of_block(s.last());
        let ui = ids_of_block(s[i]);
        let ub = ids_of_block(b);
        assert(ids_of(t) == ta.add(ul));
        assert(ids_of(s) == sa.add(ul));
        assert(ta.add(ui) == sa.add(ub));
        assert forall|x: usize|
            ids_of(t).add(ui).count(x) == ids_of(s).add(ub).count(x) by {
            assert(ids_of(t).add(ui).count(x) == ids_of(t).count(x) + ui.count(x));
            assert(ta.add(ul).count(x) == ta.count(x) + ul.count(x));
            assert(ids_of(s).add(ub).count(x) == ids_of(s).count(x) + ub.count(x));
            assert(sa.add(ul).count(x) == sa.count(x) + ul.count(x));
            assert(ta.add(ui).count(x) == ta.count(x) + ui.count(x));
            assert(sa.add(ub).count(x) == sa.count(x) + ub.count(x));
        }
        assert(ids_of(t).add(ids_of_block(s[i])) =~= ids_of(s).add(ids_of_block(b)));
    }
}

/// An id is counted by `ids_of` exactly when some block holds it.
proof fn lemma_ids_of_contains(s: Seq<Block>, id: usize)
    ensures
        ids_of(s).count(id) > 0 <==> exists|k: int| 0 <= k < s.len() && s[k] == Block::File(id),
    decreases s.len(),
{
    if s.len() > 0 {
        lemma_ids_of_contains(s.drop_last(), id);
        if s.last() == Block::File(id) {
            assert(s[s.len() - 1] == Block::File(id));
        } else {
            if exists|k: int| 0 <= k < s.len() && s[k] == Block::File(id) {
                let k = choose|k: int| 0 <= k < s.len() && s[k] == Block::File(id);
                assert(s.drop_last()[k] == Block::File(id));
            }
        }
    }
}

/// The index of the leftmost free block, or the length when none is free.
pub open spec fn first_empty_spec(s: Seq<Block>) -> int
    decreases s.len(),
{
    if s.len() == 0 {
        0
    } else if s[0] == Block::Empty {
        0
    } else {
        1 + first_empty_spec(s.drop_first())
    }
}

proof fn lemma_first_empty_spec(s: Seq<Block>)
    ensures
        0 <= first_empty_spec(s) <= s.len(),
        first_empty_spec(s) < s.len() ==> s[first_empty_spec(s)] == Block::Empty,
        forall|k: int| 0 <= k < first_empty_spec(s) ==> s[k] != Block::Empty,
    decreases s.len(),
{
    if s.len() > 0 && s[0] != Block::Empty {
        lemma_first_empty_spec(s.drop_first());
        assert forall|k: int| 0 <= k < first_empty_spec(s) implies s[k] != Block::Empty by {
            if k > 0 {
                assert(s.drop_first()[k - 1] != Block::Empty);
            }
        }
    }
}

/// One past the index of the rightmost occupied block, or zero when none is.
pub open spec fn last_file_spec(s: Seq<Block>) -> int
    decreases s.len(),
{
    if s.len() == 0 {
        0
    } else if is_file(s.last()) {
        s.len() as int
    } else {
        last_file_spec(s.drop_last())
    }
}

proof fn lemma_last_file_spec(s: Seq<Block>)
    ensures
        0 <= last_file_spec(s) <= s.len(),
        last_file_spec(s) > 0 ==> is_file(s[last_file_spec(s) - 1]),
        forall|k: int| last_file_spec(s) <= k < s.len() ==> !is_file(s[k]),
    decreases s.len(),
{
    if s.len() > 0 && !is_file(s.last()) {
        lemma_last_file_spec(s.drop_last());
        assert forall|k: int| last_file_spec(s) <= k < s.len() implies !is_file(s[k]) by {
            if k < s.len() - 1 {
                assert(s.drop_last()[k] == s[k]);
            }
        }
    }
}

/// How far the rightmost occupied block stands beyond the leftmost free one;
/// zero once the store is packed.
pub open spec fn unpacked_span(s: Seq<Block>) -> int {
    if last_file_spec(s) - 1 > first_empty_spec(s) {
        last_file_spec(s) - 1 - first_empty_spec(s)
    } else {
        0
    }
}

/// No free block stands before an occupied one.
pub open spec fn packed(s: Seq<Block>) -> bool {
    forall|i: int, j: int|
        0 <= i < j < s.len() && s[i] == Block::Empty ==> s[j] == Block::Empty
}

/// The position of the leftmost free block, if the store has one.
fn first_empty(blocks: &Vec<Block>) -> (r: Option<usize>)
    ensures
        match r {
            Some(i) => i < blocks@.len() && blocks@[i as int] == Block::Empty && forall|k: int|
                0 <= k < i ==> blocks@[k] != Block::Empty,
            None => forall|k: int| 0 <= k < blocks@.len() ==> blocks@[k] != Block::Empty,
        },
{
    let mut i: usize = 0;
    while i < blocks.len()
        invariant
            0 <= i <= blocks@.len(),
            forall|k: int| 0 <= k < i ==> blocks@[k] != Block::Empty,
        decreases blocks@.len() - i,
    {
        if matches!(blocks[i], Block::Empty) {
            return Some(i);
        }
        i = i + 1;
    }
    None
}

/// The position of the rightmost occupied block, if the store has one.
fn last_file(blocks: &Vec<Block>) -> (r: Option<usize>)
    ensures
        match r {
            Some(i) => i < blocks@.len() && is_file(blocks@[i as int]) && forall|k: int|
                i < k < blocks@.len() ==> !is_file(blocks@[k]),
            None => forall|k: int| 0 <= k < blocks@.len() ==> !is_file(blocks@[k]),
        },
{
    let mut i: usize = blocks.len();
    while i > 0
        invariant
            0 <= i <= blocks@.len(),
            forall|k: int| i <= k < blocks@.len() ==> !is_file(blocks@[k]),
        decreases i,
    {
        i = i - 1;
        if matches!(blocks[i], Block::File(_)) {
            return Some(i);
        }
    }
    None
}

/// One swap of the two-pointer pass: the leftmost free block changes places
/// with the rightmost occupied one, which still stands to its right.
pub open spec fn unit_swap(pre: Seq<Block>, post: Seq<Block>) -> bool {
    let l = first_empty_spec(pre);
    let r = last_file_spec(pre) - 1;
    &&& l < r
    &&& r < pre.len()
    &&& post == pre.update(l, pre[r]).update(r, pre[l])
}

/// The two-pointer pass is finished: the leftmost free block stands at or
/// beyond the rightmost occupied one.
pub open spec fn unit_done(s: Seq<Block>) -> bool {
    first_empty_spec(s) >= last_file_spec(s) - 1
}

/// A block-granularity run: consecutive stores are joined by single swaps of
/// the two-pointer pass.
pub open spec fn unit_run(stores: Seq<Seq<Block>>) -> bool {
    &&& stores.len() >= 1
    &&& forall|i: int| 0 <= i < stores.len() - 1 ==> #[trigger] unit_swap(stores[i], stores[i + 1])
}

/// Block-granularity relocation: repeatedly swap the leftmost free block with
/// the rightmost occupied one until no occupied block can still move left.
/// The final store is pinned: it is reached from the input by the (unique)
/// chain of such swaps, run until the two scans meet.
pub fn defragment_block(blocks: &mut Vec<Block>)
    ensures
        final(blocks)@.len() == old(blocks)@.len(),
        ids_of(final(blocks)@) == ids_of(old(blocks)@),
        packed(final(blocks)@),
        unit_done(final(blocks)@),
        exists|stores: Seq<Seq<Block>>|
            #[trigger] unit_run(stores) && stores.first() == old(blocks)@ && stores.last()
                == final(blocks)@,
{
    let ghost mut stores: Seq<Seq<Block>> = seq![old(blocks)@];
    loop
        invariant
            blocks@.len() == old(blocks)@.len(),
            ids_of(blocks@) == ids_of(old(blocks)@),
            unit_run(stores),
            stores.first() == old(blocks)@,
            stores.last() == blocks@,
        ensures
            blocks@.len() == old(blocks)@.len(),
            ids_of(blocks@) == ids_of(old(blocks)@),
            packed(blocks@),
            unit_done(blocks@),
            unit_run(stores),
            stores.first() == old(blocks)@,
            stores.last() == blocks@,
        decreases unpacked_span(blocks@),
    {
        proof {
            lemma_first_empty_spec(blocks@);
            lemma_last_file_spec(blocks@);
        }
        let ghost pre = blocks@;
        let le = first_empty(blocks);
        let rf = last_file(blocks);
        match (le, rf) {
            (Some(left), Some(right)) => {
                proof {
                    assert(first_empty_spec(pre) == left) by {
                        lemma_first_empty_spec(pre);
                    }
                    assert(last_file_spec(pre) == right + 1) by {
                        lemma_last_file_spec(pre);
                    }
                }
                if left >= right {
                    proof {
                        assert forall|i: int, j: int|
                            0 <= i < j < blocks@.len() && blocks@[i] == Block::Empty
                        implies blocks@[j] == Block::Empty by {
                            assert(i >= left);
                            assert(!is_file(blocks@[j]));
                        }
                        assert(unit_done(blocks@));
                    }
                    break ;
                }
                let b_left = blocks[left];
                let b_right = blocks[right];
                blocks.set(left, b_right);
                blocks.set(right, b_left);
                proof {
                    let mid = pre.update(left as int, b_right);
                    lemma_ids_of_update(pre, left as int, b_right);
                    lemma_ids_of_update(mid, right as int, b_left);
                    assert(mid[right as int] == b_right);
                    lemma_multiset_cancel(
                        ids_of(blocks@),
                        ids_of(pre),
                        ids_of_block(b_right),
                    );
                    assert(unit_swap(pre, blocks@));
                    let ghost pre_stores = stores;
                    stores = stores.push(blocks@);
                    assert forall|i: int| 0 <= i < stores.len() - 1 implies #[trigger] unit_swap(
                        stores[i],
                        stores[i + 1],
                    ) by {
                        if i < pre_stores.len() - 1 {
                            assert(stores[i] == pre_stores[i] && stores[i + 1] == pre_stores[i
                                + 1]);
                        } else {
                            assert(stores[i] == pre && stores[i + 1] == blocks@);
                        }
                    }
                    assert(stores.first() == pre_stores.first());
                    // The swap pushes the leftmost free block rightward and the
                    // rightmost occupied block leftward, so the span shrinks.
                    lemma_first_empty_spec(blocks@);
                    lemma_last_file_spec(blocks@);
                    let fe = first_empty_spec(blocks@);
                    let lf = last_file_spec(blocks@);
                    assert forall|k: int| 0 <= k <= left implies blocks@[k] != Block::Empty by {
                        if k < left {
                            assert(blocks@[k] == pre[k]);
                        }
                    }
                    assert(fe > left);
                    assert forall|k: int| right <= k < blocks@.len() implies !is_file(blocks@[k]) by {
                        if k > right {
                            assert(blocks@[k] == pre[k]);
                        }
                    }
                    assert(lf <= right);
                    assert(unpacked_span(blocks@) < unpacked_span(pre));
                }
            },
            _ => {
                proof {
                    assert forall|i: int, j: int|
                        0 <= i < j < blocks@.len() && blocks@[i] == Block::Empty
                    implies blocks@[j] == Block::Empty by {
                        if le is None {
                        } else {
                            assert(!is_file(blocks@[j]));
                        }
                    }
                    if le is None {
                        assert(first_empty_spec(blocks@) == blocks@.len());
                    } else {
                        assert(last_file_spec(blocks@) == 0);
                    }
                    assert(unit_done(blocks@));
                }
                break ;
            },
        }
    }
    proof {
        assert(unit_run(stores) && stores.first() == old(blocks)@ && stores.last() == blocks@);
    }
}

/// Reduces a finished store to the sum of `position * file_id` over every
/// occupied block.
pub fn checksum(blocks: &Vec<Block>) -> (sum: usize)
    requires
        checksum_of(blocks@) <= usize::MAX,
    ensures
        sum == checksum_of(blocks@),
{
    let mut sum: usize = 0;
    let mut i: usize = 0;
    while i < blocks.len()
        invariant
            0 <= i <= blocks@.len(),
            sum == checksum_prefix(blocks@, i as int),
            checksum_of(blocks@) <= usize::MAX,
        decreases blocks@.len() - i,
    {
        proof {
            lemma_checksum_prefix_monotone(blocks@, i + 1, blocks@.len() as int);
            lemma_checksum_prefix_monotone(blocks@, 0, i as int);
        }
        match blocks[i] {
            Block::File(id) => {
                sum = sum + i * id;
            },
            Block::Empty => {},
        }
        i = i + 1;
    }
    sum
}



/// A maximal run of equal blocks, as the index reports it: an occupied run
/// carries its file id, start, length and eligibility hint; a free run
/// carries its start and length.
#[derive(Clone, Copy, PartialEq, Eq, Structural, Debug)]
pub enum Sector {
    File(usize, usize, usize, bool),
    Empty(usize, usize),
}

pub open spec fn sec_start(sec: Sector) -> usize {
    match sec {
        Sector::File(_, st, _, _) => st,
        Sector::Empty(st, _) => st,
    }
}

pub open spec fn sec_len(sec: Sector) -> usize {
    match sec {
        Sector::File(_, _, l, _) => l,
        Sector::Empty(_, l) => l,
    }
}

pub open spec fn sec_end(sec: Sector) -> int {
    sec_start(sec) + sec_len(sec)
}

/// The block repeated over the sector's whole range.
pub open spec fn sec_block(sec: Sector) -> Block {
    match sec {
        Sector::File(id, _, _, _) => Block::File(id),
        Sector::Empty(_, _) => Block::Empty,
    }
}

pub open spec fn sec_is_empty(sec: Sector) -> bool {
    sec_block(sec) == Block::Empty
}

pub open spec fn sec_eligible(sec: Sector) -> bool {
    match sec {
        Sector::File(_, _, _, e) => e,
        Sector::Empty(_, _) => false,
    }
}

/// The sector stands for a nonempty range of the store holding one repeated
/// block.
pub open spec fn sector_matches(s: Seq<Block>, sec: Sector) -> bool {
    &&& sec_end(sec) <= s.len()
    &&& sec_len(sec) >= 1
    &&& forall|k: int| sec_start(sec) <= k < sec_end(sec) ==> s[k] == sec_block(sec)
}

/// The sectors partition the store: they stand in position order, cover every
/// index exactly once, and adjacent sectors never repeat a block (maximality).
pub open spec fn covers(s: Seq<Block>, secs: Seq<Sector>) -> bool {
    &&& (s.len() == 0 <==> secs.len() == 0)
    &&& secs.len() > 0 ==> sec_start(secs[0]) == 0 && sec_end(secs[secs.len() - 1]) == s.len()
    &&& forall|i: int| 0 <= i < secs.len() ==> sector_matches(s, #[trigger] secs[i])
    &&& forall|i: int| 0 <= i < secs.len() - 1 ==> sec_end(#[trigger] secs[i]) == sec_start(secs[i + 1])
    &&& forall|i: int| 0 <= i < secs.len() - 1 ==> sec_block(#[trigger] secs[i]) != sec_block(secs[i + 1])
}

/// An occupied sector's hint is set exactly when some free sector before it in
/// scan order is at least as long as it.
pub open spec fn eligible_ok(secs: Seq<Sector>) -> bool {
    forall|i: int|
        0 <= i < secs.len() && !sec_is_empty(#[trigger] secs[i]) ==> (sec_eligible(secs[i])
            <==> exists|j: int|
            0 <= j < i && sec_is_empty(#[trigger] secs[j]) && sec_len(secs[j]) >= sec_len(secs[i]))
}

/// The well-formed sector index of a store: a maximal-run partition with
/// correct eligibility hints.
pub open spec fn wf_sectors(s: Seq<Block>, secs: Seq<Sector>) -> bool {
    covers(s, secs) && eligible_ok(secs)
}

/// Rebuilds the sector index from the store in one left-to-right scan,
/// tracking the longest free run seen so far to mark eligibility.
pub fn build_sectors(blocks: &Vec<Block>) -> (sectors: Vec<Sector>)
    ensures
        wf_sectors(blocks@, sectors@),
{
    let mut sectors: Vec<Sector> = Vec::new();
    let mut i: usize = 0;
    let mut max_free: usize = 0;
    while i < blocks.len()
        invariant
            0 <= i <= blocks@.len(),
            i == 0 <==> sectors@.len() == 0,
            sectors@.len() > 0 ==> sec_start(sectors@[0]) == 0 && sec_end(
                sectors@[sectors@.len() - 1],
            ) == i,
            forall|t: int| 0 <= t < sectors@.len() ==> sector_matches(blocks@, #[trigger] sectors@[t]),
            forall|t: int|
                0 <= t < sectors@.len() - 1 ==> sec_end(#[trigger] sectors@[t]) == sec_start(
                    sectors@[t + 1],
                ),
            forall|t: int|
                0 <= t < sectors@.len() - 1 ==> sec_block(#[trigger] sectors@[t]) != sec_block(
                    sectors@[t + 1],
                ),
            sectors@.len() > 0 && i < blocks@.len() ==> sec_block(sectors@[sectors@.len() - 1])
                != blocks@[i as int],
            eligible_ok(sectors@),
            max_free <= i,
            forall|t: int|
                0 <= t < sectors@.len() && sec_is_empty(#[trigger] sectors@[t]) ==> sec_len(
                    sectors@[t],
                ) <= max_free,
            max_free > 0 ==> exists|t: int|
                0 <= t < sectors@.len() && sec_is_empty(#[trigger] sectors@[t]) && sec_len(
                    sectors@[t],
                ) == max_free,
        decreases blocks@.len() - i,
    {
        let run_start = i;
        let b = blocks[i];
        i = i + 1;
        while i < blocks.len() && blocks[i] == b
            invariant
                0 <= run_start < i <= blocks@.len(),
                b == blocks@[run_start as int],
                forall|k: int| run_start <= k < i ==> blocks@[k] == b,
            decreases blocks@.len() - i,
        {
            i = i + 1;
        }
        let run_len = i - run_start;
        let ghost prev = sectors@;
        let sec = match b {
            Block::File(id) => Sector::File(id, run_start, run_len, max_free >= run_len),
            Block::Empty => Sector::Empty(run_start, run_len),
        };
        sectors.push(sec);
        let ghost old_max = max_free;
        if matches!(b, Block::Empty) && max_free < run_len {
            max_free = run_len;
        }
        proof {
            assert(sectors@ == prev.push(sec));
            if max_free > 0 {
                if max_free == old_max {
                    let w = choose|u: int|
                        0 <= u < prev.len() && sec_is_empty(#[trigger] prev[u]) && sec_len(prev[u])
                            == old_max;
                    assert(sectors@[w] == prev[w]);
                } else {
                    assert(sec_is_empty(sec) && sec_len(sec) == max_free);
                    assert(sectors@[prev.len() as int] == sec);
                }
            }
            assert(sectors@[sectors@.len() - 1] == sec);
            assert(sec_block(sec) == b);
            assert(sector_matches(blocks@, sec));
            assert forall|t: int|
                0 <= t < sectors@.len() && !sec_is_empty(#[trigger] sectors@[t]) implies (
            sec_eligible(sectors@[t]) <==> exists|j: int|
                0 <= j < t && sec_is_empty(#[trigger] sectors@[j]) && sec_len(sectors@[j])
                    >= sec_len(sectors@[t])) by {
                if t < prev.len() {
                    assert(sectors@[t] == prev[t]);
                    assert(sec_eligible(prev[t]) <==> exists|j: int|
                        0 <= j < t && sec_is_empty(#[trigger] prev[j]) && sec_len(prev[j])
                            >= sec_len(prev[t]));
                    if sec_eligible(sectors@[t]) {
                        let j = choose|j: int|
                            0 <= j < t && sec_is_empty(#[trigger] prev[j]) && sec_len(prev[j])
                                >= sec_len(prev[t]);
                        assert(sectors@[j] == prev[j]);
                    } else {
                        if exists|j: int|
                            0 <= j < t && sec_is_empty(#[trigger] sectors@[j]) && sec_len(
                                sectors@[j],
                            ) >= sec_len(sectors@[t]) {
                            let j = choose|j: int|
                                0 <= j < t && sec_is_empty(#[trigger] sectors@[j]) && sec_len(
                                    sectors@[j],
                                ) >= sec_len(sectors@[t]);
                            assert(prev[j] == sectors@[j]);
                        }
                    }
                } else {
                    assert(sectors@[t] == sec);
                    match b {
                        Block::File(id) => {
                            if sec_eligible(sec) {
                                let ghost w = choose|u: int|
                                    0 <= u < prev.len() && sec_is_empty(#[trigger] prev[u])
                                        && sec_len(prev[u]) == max_free;
                                assert(sectors@[w] == prev[w]);
                            } else {
                                if exists|j: int|
                                    0 <= j < t && sec_is_empty(#[trigger] sectors@[j]) && sec_len(
                                        sectors@[j],
                                    ) >= sec_len(sectors@[t]) {
                                    let j = choose|j: int|
                                        0 <= j < t && sec_is_empty(#[trigger] sectors@[j])
                                            && sec_len(sectors@[j]) >= sec_len(sectors@[t]);
                                    assert(prev[j] == sectors@[j]);
                                }
                            }
                        },
                        Block::Empty => {},
                    }
                }
            }
        }
    }
    sectors
}


/// Sectors stand in position order: an earlier sector ends at or before a
/// later one starts.
proof fn lemma_sector_order(s: Seq<Block>, secs: Seq<Sector>, a: int, b: int)
    requires
        covers(s, secs),
        0 <= a < b < secs.len(),
    ensures
        sec_end(secs[a]) <= sec_start(secs[b]),
    decreases b - a,
{
    if a + 1 == b {
    } else {
        lemma_sector_order(s, secs, a + 1, b);
    }
}

/// An occupied sector that the whole-file policy may still consider: its id is
/// below the last considered id and its eligibility hint is set.
pub open spec fn is_candidate(sec: Sector, last_id: usize) -> bool {
    match sec {
        Sector::File(id, _, _, e) => id < last_id && e,
        Sector::Empty(_, _) => false,
    }
}

/// `j` points at the rightmost sector still worth considering.
pub open spec fn rightmost_candidate(secs: Seq<Sector>, last_id: usize, j: int) -> bool {
    &&& 0 <= j < secs.len()
    &&& is_candidate(secs[j], last_id)
    &&& forall|t: int| j < t < secs.len() ==> !is_candidate(#[trigger] secs[t], last_id)
}

/// A free sector that can hold the file of sector `j` and lies strictly
/// before it.
pub open spec fn is_fit(secs: Seq<Sector>, j: int, t: int) -> bool {
    &&& 0 <= t < secs.len()
    &&& sec_is_empty(secs[t])
    &&& sec_start(secs[t]) < sec_start(secs[j])
    &&& sec_len(secs[t]) >= sec_len(secs[j])
}

/// `t` points at the leftmost free sector that fits the file of sector `j`.
pub open spec fn first_fit(secs: Seq<Sector>, j: int, t: int) -> bool {
    is_fit(secs, j, t) && forall|u: int| 0 <= u < t ==> !is_fit(secs, j, u)
}

/// The store after relocating the run `[fs, fs + fl)` of file `id` to start
/// `ts`: the target range is occupied by `id`, the source range is freed, and
/// every other block is untouched.
pub open spec fn moved(pre: Seq<Block>, post: Seq<Block>, fs: usize, fl: usize, ts: usize, id: usize) -> bool {
    &&& post.len() == pre.len()
    &&& forall|k: int|
        0 <= k < pre.len() ==> post[k] == (if ts <= k < ts + fl {
            Block::File(id)
        } else if fs <= k < fs + fl {
            Block::Empty
        } else {
            pre[k]
        })
}

/// What one relocation step did, read against a well-formed sector index of
/// the starting store: the rightmost sector still worth considering holds file
/// `fid`; if some free sector before it fits, the file moved to the leftmost
/// such run, else the store is unchanged.
pub open spec fn step_describes(pre: Seq<Block>, post: Seq<Block>, secs: Seq<Sector>, last_id: usize, fid: usize) -> bool {
    exists|j: int|
        {
            &&& #[trigger] rightmost_candidate(secs, last_id, j)
            &&& sec_block(secs[j]) == Block::File(fid)
            &&& if exists|t: int| is_fit(secs, j, t) {
                exists|t: int|
                    #[trigger] first_fit(secs, j, t) && moved(
                        pre,
                        post,
                        sec_start(secs[j]),
                        sec_len(secs[j]),
                        sec_start(secs[t]),
                        fid,
                    )
            } else {
                post == pre
            }
        }
}

/// The rightmost sector still worth considering, scanned from the end.
fn find_candidate(sectors: &Vec<Sector>, last_id: usize) -> (r: Option<usize>)
    ensures
        match r {
            Some(j) => j < sectors@.len() && rightmost_candidate(sectors@, last_id, j as int),
            None => forall|t: int|
                0 <= t < sectors@.len() ==> !is_candidate(#[trigger] sectors@[t], last_id),
        },
{
    let mut i: usize = sectors.len();
    while i > 0
        invariant
            0 <= i <= sectors@.len(),
            forall|t: int| i <= t < sectors@.len() ==> !is_candidate(#[trigger] sectors@[t], last_id),
        decreases i,
    {
        i = i - 1;
        match sectors[i] {
            Sector::File(id, _, _, e) => {
                if e && id < last_id {
                    return Some(i);
                }
            },
            Sector::Empty(_, _) => {},
        }
    }
    None
}

/// The leftmost free sector that lies before `fstart` and is at least `flen`
/// long, scanned from the start.
fn find_target(sectors: &Vec<Sector>, fstart: usize, flen: usize) -> (r: Option<usize>)
    ensures
        match r {
            Some(t) => t < sectors@.len() && sec_is_empty(sectors@[t as int]) && sec_start(
                sectors@[t as int],
            ) < fstart && sec_len(sectors@[t as int]) >= flen && forall|u: int|
                0 <= u < t ==> !(sec_is_empty(#[trigger] sectors@[u]) && sec_start(sectors@[u])
                    < fstart && sec_len(sectors@[u]) >= flen),
            None => forall|u: int|
                0 <= u < sectors@.len() ==> !(sec_is_empty(#[trigger] sectors@[u]) && sec_start(
                    sectors@[u],
                ) < fstart && sec_len(sectors@[u]) >= flen),
        },
{
    let mut i: usize = 0;
    while i < sectors.len()
        invariant
            0 <= i <= sectors@.len(),
            forall|u: int|
                0 <= u < i ==> !(sec_is_empty(#[trigger] sectors@[u]) && sec_start(sectors@[u])
                    < fstart && sec_len(sectors@[u]) >= flen),
        decreases sectors@.len() - i,
    {
        match sectors[i] {
            Sector::Empty(st, l) => {
                if st < fstart && l >= flen {
                    return Some(i);
                }
            },
            Sector::File(_, _, _, _) => {},
        }
        i = i + 1;
    }
    None
}

/// Carries out one accepted move: overwrites the target free run with the
/// file's id and frees the source run.  The two runs are disjoint, the target
/// lies wholly before the source, and every other block is untouched.
fn relocate(blocks: &mut Vec<Block>, fid: usize, fstart: usize, flen: usize, estart: usize)
    requires
        estart + flen <= fstart,
        fstart + flen <= old(blocks)@.len(),
        forall|m: int| fstart <= m < fstart + flen ==> old(blocks)@[m] == Block::File(fid),
        forall|m: int| estart <= m < estart + flen ==> old(blocks)@[m] == Block::Empty,
    ensures
        final(blocks)@.len() == old(blocks)@.len(),
        moved(old(blocks)@, final(blocks)@, fstart, flen, estart, fid),
        ids_of(final(blocks)@) == ids_of(old(blocks)@),
{
    let ghost pre = blocks@;
    let n = blocks.len();
    proof {
        assert(pre.len() == n);
    }
    let mut k: usize = 0;
    while k < flen
        invariant
            0 <= k <= flen,
            estart + flen <= fstart,
            fstart + flen <= pre.len(),
            pre.len() <= usize::MAX,
            blocks@.len() == pre.len(),
            forall|m: int|
                0 <= m < pre.len() && !(estart <= m < estart + k) ==> blocks@[m] == pre[m],
            forall|m: int| estart <= m < estart + k ==> blocks@[m] == Block::File(fid),
            forall|m: int| estart <= m < estart + flen ==> pre[m] == Block::Empty,
            forall|x: usize|
                ids_of(blocks@).count(x) == ids_of(pre).count(x) + (if x == fid {
                    k as int
                } else {
                    0
                }),
        decreases flen - k,
    {
        let ghost cur = blocks@;
        blocks.set(estart + k, Block::File(fid));
        proof {
            assert(estart + k < pre.len());
            assert(pre[estart + k] == Block::Empty);
            assert(cur[estart + k] == pre[estart + k]);
            lemma_ids_of_update(cur, estart + k, Block::File(fid));
            assert forall|x: usize|
                ids_of(blocks@).count(x) == ids_of(pre).count(x) + (if x == fid {
                    k + 1
                } else {
                    0
                }) by {
                assert(ids_of(blocks@).add(ids_of_block(Block::Empty)).count(x) == ids_of(
                    cur,
                ).add(ids_of_block(Block::File(fid))).count(x));
                assert(ids_of(blocks@).add(ids_of_block(Block::Empty)).count(x) == ids_of(
                    blocks@,
                ).count(x) + ids_of_block(Block::Empty).count(x));
                assert(ids_of(cur).add(ids_of_block(Block::File(fid))).count(x) == ids_of(
                    cur,
                ).count(x) + ids_of_block(Block::File(fid)).count(x));
            }
        }
        k = k + 1;
    }
    let ghost mid = blocks@;
    proof {
        assert forall|q: int| fstart <= q < fstart + flen implies mid[q] == Block::File(fid) by {
            assert(mid[q] == pre[q]);
        }
    }
    let mut m: usize = 0;
    while m < flen
        invariant
            0 <= m <= flen,
            estart + flen <= fstart,
            fstart + flen <= pre.len(),
            pre.len() <= usize::MAX,
            blocks@.len() == pre.len(),
            mid.len() == pre.len(),
            forall|q: int|
                0 <= q < pre.len() && !(fstart <= q < fstart + m) ==> blocks@[q] == mid[q],
            forall|q: int| fstart <= q < fstart + m ==> blocks@[q] == Block::Empty,
            forall|q: int| fstart <= q < fstart + flen ==> mid[q] == Block::File(fid),
            forall|x: usize|
                ids_of(mid).count(x) == ids_of(blocks@).count(x) + (if x == fid {
                    m as int
                } else {
                    0
                }),
        decreases flen - m,
    {
        let ghost cur = blocks@;
        blocks.set(fstart + m, Block::Empty);
        proof {
            assert(fstart + m < pre.len());
            assert(mid[fstart + m] == Block::File(fid));
            assert(cur[fstart + m] == mid[fstart + m]);
            lemma_ids_of_update(cur, fstart + m, Block::Empty);
            assert forall|x: usize|
                ids_of(mid).count(x) == ids_of(blocks@).count(x) + (if x == fid {
                    m + 1
                } else {
                    0
                }) by {
                assert(ids_of(blocks@).add(ids_of_block(Block::File(fid))).count(x) == ids_of(
                    cur,
                ).add(ids_of_block(Block::Empty)).count(x));
                assert(ids_of(blocks@).add(ids_of_block(Block::File(fid))).count(x) == ids_of(
                    blocks@,
                ).count(x) + ids_of_block(Block::File(fid)).count(x));
                assert(ids_of(cur).add(ids_of_block(Block::Empty)).count(x) == ids_of(
                    cur,
                ).count(x) + ids_of_block(Block::Empty).count(x));
            }
        }
        m = m + 1;
    }
    proof {
        assert forall|x: usize| ids_of(blocks@).count(x) == ids_of(pre).count(x) by {
            assert(ids_of(mid).count(x) == ids_of(blocks@).count(x) + (if x == fid {
                flen as int
            } else {
                0
            }));
            assert(ids_of(mid).count(x) == ids_of(pre).count(x) + (if x == fid {
                flen as int
            } else {
                0
            }));
        }
        assert(ids_of(blocks@) =~= ids_of(pre));
        assert forall|q: int| 0 <= q < pre.len() implies blocks@[q] == (if estart <= q < estart
            + flen {
            Block::File(fid)
        } else if fstart <= q < fstart + flen {
            Block::Empty
        } else {
            pre[q]
        }) by {
            if estart <= q < estart + flen {
                assert(mid[q] == Block::File(fid));
                assert(blocks@[q] == mid[q]);
            } else if fstart <= q < fstart + flen {
            } else {
                assert(mid[q] == pre[q]);
                assert(blocks@[q] == mid[q]);
            }
        }
    }
}

/// One round of the whole-file policy: rebuild the index, take the rightmost
/// sector still worth considering, and relocate its file into the leftmost
/// fitting free run before it, if any fits.  Returns the id considered, or
/// `None` when no sector is worth considering and the store is untouched.
pub fn defragment_file_step(blocks: &mut Vec<Block>, last_id: usize) -> (considered: Option<usize>)
    ensures
        final(blocks)@.len() == old(blocks)@.len(),
        ids_of(final(blocks)@) == ids_of(old(blocks)@),
        match considered {
            Some(fid) => fid < last_id && exists|secs: Seq<Sector>|
                #[trigger] wf_sectors(old(blocks)@, secs) && step_describes(
                    old(blocks)@,
                    final(blocks)@,
                    secs,
                    last_id,
                    fid,
                ),
            None => final(blocks)@ == old(blocks)@ && exists|secs: Seq<Sector>|
                #[trigger] wf_sectors(old(blocks)@, secs) && forall|t: int|
                    0 <= t < secs.len() ==> !is_candidate(#[trigger] secs[t], last_id),
        },
        forall|k: int|
            0 <= k < old(blocks)@.len() && final(blocks)@[k] != old(blocks)@[k] ==> (
            considered matches Some(fid) && ((old(blocks)@[k] == Block::Empty && final(blocks)@[k]
                == Block::File(fid)) || (old(blocks)@[k] == Block::File(fid) && final(blocks)@[k]
                == Block::Empty))),
        forall|k: int|
            0 <= k < old(blocks)@.len() && is_file(#[trigger] old(blocks)@[k]) && file_id(
                old(blocks)@[k],
            ) >= last_id ==> final(blocks)@[k] == old(blocks)@[k],
{
    let ghost pre = blocks@;
    let sectors = build_sectors(blocks);
    let cand = find_candidate(&sectors, last_id);
    match cand {
        None => {
            proof {
                assert(wf_sectors(pre, sectors@));
            }
            None
        },
        Some(j) => {
            let (fid, fstart, flen) = match sectors[j] {
                Sector::File(id, st, l, _) => (id, st, l),
                Sector::Empty(_, _) => (0, 0, 0),
            };
            proof {
                assert(sec_block(sectors@[j as int]) == Block::File(fid));
                assert(sector_matches(pre, sectors@[j as int]));
            }
            let target = find_target(&sectors, fstart, flen);
            match target {
                Some(t) => {
                    let (estart, elen) = match sectors[t] {
                        Sector::Empty(st, l) => (st, l),
                        Sector::File(_, _, _, _) => (0, 0),
                    };
                    proof {
                        assert(sector_matches(pre, sectors@[t as int]));
                        // The fitting free run lies wholly before the file:
                        // sectors are position-ordered and disjoint.
                        if t < j {
                            lemma_sector_order(pre, sectors@, t as int, j as int);
                        } else {
                            lemma_sector_order(pre, sectors@, j as int, t as int);
                            assert(false);
                        }
                        assert(estart + flen <= fstart);
                        assert(first_fit(sectors@, j as int, t as int));
                        assert forall|m: int| fstart <= m < fstart + flen implies pre[m]
                            == Block::File(fid) by {}
                        assert forall|m: int| estart <= m < estart + flen implies pre[m]
                            == Block::Empty by {}
                    }
                    relocate(blocks, fid, fstart, flen, estart);
                    proof {
                        assert(moved(pre, blocks@, fstart, flen, estart, fid));
                        assert(step_describes(pre, blocks@, sectors@, last_id, fid)) by {
                            assert(rightmost_candidate(sectors@, last_id, j as int));
                            assert(first_fit(sectors@, j as int, t as int));
                        }
                        assert(wf_sectors(pre, sectors@));
                    }
                    Some(fid)
                },
                None => {
                    proof {
                        assert(wf_sectors(pre, sectors@));
                        assert forall|u: int| 0 <= u < sectors@.len() implies !is_fit(
                            sectors@,
                            j as int,
                            u,
                        ) by {
                            assert(sec_start(sectors@[j as int]) == fstart);
                            assert(sec_len(sectors@[j as int]) == flen);
                        }
                        assert(step_describes(pre, blocks@, sectors@, last_id, fid)) by {
                            assert(rightmost_candidate(sectors@, last_id, j as int));
                        }
                    }
                    Some(fid)
                },
            }
        },
    }
}

/// No sector of the index is still worth considering below the given id.
pub open spec fn no_candidate_below(secs: Seq<Sector>, last_id: usize) -> bool {
    forall|t: int| 0 <= t < secs.len() ==> !is_candidate(#[trigger] secs[t], last_id)
}

/// How one relocation round may touch cells: every changed cell flips
/// between free and the considered id, and cells of ids at or above the
/// round's bound are untouched.
pub open spec fn step_frame(pre: Seq<Block>, post: Seq<Block>, last_id: usize, fid: usize) -> bool {
    &&& post.len() == pre.len()
    &&& forall|k: int|
        0 <= k < pre.len() && post[k] != pre[k] ==> ((pre[k] == Block::Empty && post[k]
            == Block::File(fid)) || (pre[k] == Block::File(fid) && post[k] == Block::Empty))
    &&& forall|k: int|
        0 <= k < pre.len() && is_file(#[trigger] pre[k]) && file_id(pre[k]) >= last_id ==> post[k]
            == pre[k]
}

/// One link of a compaction run: a file below the bound was considered, the
/// round acted on it as the step description says, and the frame holds.
pub open spec fn linked_step(pre: Seq<Block>, post: Seq<Block>, bound: usize, fid: usize) -> bool {
    &&& fid < bound
    &&& step_frame(pre, post, bound, fid)
    &&& exists|secs: Seq<Sector>|
        #[trigger] wf_sectors(pre, secs) && step_describes(pre, post, secs, bound, fid)
}

/// The bound under which round `i` of a run chooses its file: every id at
/// first, then only ids below the previously considered one.
pub open spec fn run_bound(ids: Seq<usize>, i: int) -> usize {
    if i == 0 {
        usize::MAX
    } else {
        ids[i - 1]
    }
}

/// The bound left once a run has considered all of `ids`.
pub open spec fn final_bound(ids: Seq<usize>) -> usize {
    if ids.len() == 0 {
        usize::MAX
    } else {
        ids.last()
    }
}

/// A whole-file compaction run: consecutive stores are joined by relocation
/// rounds whose considered ids strictly descend.
pub open spec fn compaction_run(stores: Seq<Seq<Block>>, ids: Seq<usize>) -> bool {
    &&& stores.len() == ids.len() + 1
    &&& forall|i: int|
        0 <= i < ids.len() ==> #[trigger] linked_step(
            stores[i],
            stores[i + 1],
            run_bound(ids, i),
            ids[i],
        )
}

/// The considered ids of a run strictly descend, so later ids never exceed
/// earlier ones.
pub proof fn lemma_run_ids_descend(stores: Seq<Seq<Block>>, ids: Seq<usize>, a: int, b: int)
    requires
        compaction_run(stores, ids),
        0 <= a <= b < ids.len(),
    ensures
        ids[b] <= ids[a],
    decreases b - a,
{
    if a < b {
        lemma_run_ids_descend(stores, ids, a, b - 1);
        let i = b;
        assert(linked_step(stores[i], stores[i + 1], run_bound(ids, i), ids[i]));
    }
}

/// Every store of a run has the length of the first.
pub proof fn lemma_run_same_len(stores: Seq<Seq<Block>>, ids: Seq<usize>, a: int)
    requires
        compaction_run(stores, ids),
        0 <= a < stores.len(),
    ensures
        stores[a].len() == stores[0].len(),
    decreases a,
{
    if a > 0 {
        lemma_run_same_len(stores, ids, a - 1);
        let i = a - 1;
        assert(linked_step(stores[i], stores[i + 1], run_bound(ids, i), ids[i]));
        assert(stores[i + 1] == stores[a]);
    }
}

/// Id-order law: once round `i` of a run has considered its file, no later
/// round ever writes a block holding a strictly higher id.
pub proof fn lemma_run_spares_higher_ids(
    stores: Seq<Seq<Block>>,
    ids: Seq<usize>,
    i: int,
    j: int,
    k: int,
)
    requires
        compaction_run(stores, ids),
        0 <= i < ids.len(),
        i < j <= ids.len(),
        0 <= k < stores[i + 1].len(),
        is_file(stores[i + 1][k]),
        file_id(stores[i + 1][k]) > ids[i],
    ensures
        stores[j][k] == stores[i + 1][k],
    decreases j,
{
    if j > i + 1 {
        lemma_run_spares_higher_ids(stores, ids, i, j - 1, k);
        lemma_run_ids_descend(stores, ids, i, j - 2);
        lemma_run_same_len(stores, ids, i + 1);
        lemma_run_same_len(stores, ids, j - 1);
        let t = j - 1;
        assert(linked_step(stores[t], stores[t + 1], run_bound(ids, t), ids[t]));
        assert(stores[t + 1] == stores[j]);
        assert(is_file(stores[t][k]) && file_id(stores[t][k]) >= run_bound(ids, t));
    }
}

/// Whole-file relocation: consider each file once, in strictly descending
/// file-id order, moving it into the leftmost fitting free run before it.
/// Terminates because the last considered id strictly decreases.  The final
/// store is pinned: it is reached from the input by a compaction run, and
/// when the run stops no file below its last considered id is still worth
/// considering.
pub fn defragment_file(blocks: &mut Vec<Block>)
    ensures
        final(blocks)@.len() == old(blocks)@.len(),
        ids_of(final(blocks)@) == ids_of(old(blocks)@),
        exists|stores: Seq<Seq<Block>>, ids: Seq<usize>|
            {
                &&& #[trigger] compaction_run(stores, ids)
                &&& stores.first() == old(blocks)@
                &&& stores.last() == final(blocks)@
                &&& exists|secs: Seq<Sector>|
                    #[trigger] wf_sectors(final(blocks)@, secs) && no_candidate_below(
                        secs,
                        final_bound(ids),
                    )
            },
{
    let mut last_id: usize = usize::MAX;
    let ghost mut stores: Seq<Seq<Block>> = seq![old(blocks)@];
    let ghost mut considered: Seq<usize> = Seq::empty();
    loop
        invariant
            blocks@.len() == old(blocks)@.len(),
            ids_of(blocks@) == ids_of(old(blocks)@),
            compaction_run(stores, considered),
            stores.first() == old(blocks)@,
            stores.last() == blocks@,
            last_id == final_bound(considered),
        ensures
            blocks@.len() == old(blocks)@.len(),
            ids_of(blocks@) == ids_of(old(blocks)@),
            compaction_run(stores, considered),
            stores.first() == old(blocks)@,
            stores.last() == blocks@,
            exists|secs: Seq<Sector>|
                #[trigger] wf_sectors(blocks@, secs) && no_candidate_below(
                    secs,
                    final_bound(considered),
                ),
        decreases last_id,
    {
        let ghost pre = blocks@;
        match defragment_file_step(blocks, last_id) {
            Some(fid) => {
                proof {
                    let w = choose|secs: Seq<Sector>|
                        #[trigger] wf_sectors(pre, secs) && step_describes(
                            pre,
                            blocks@,
                            secs,
                            last_id,
                            fid,
                        );
                    assert(wf_sectors(pre, w) && step_describes(pre, blocks@, w, last_id, fid));
                    assert(step_frame(pre, blocks@, last_id, fid));
                    assert(linked_step(pre, blocks@, last_id, fid));
                    let pre_stores = stores;
                    let pre_ids = considered;
                    stores = stores.push(blocks@);
                    considered = considered.push(fid);
                    assert forall|i: int| 0 <= i < considered.len() implies #[trigger] linked_step(
                        stores[i],
                        stores[i + 1],
                        run_bound(considered, i),
                        considered[i],
                    ) by {
                        if i < pre_ids.len() {
                            assert(stores[i] == pre_stores[i]);
                            assert(stores[i + 1] == pre_stores[i + 1]);
                            assert(considered[i] == pre_ids[i]);
                            assert(linked_step(
                                pre_stores[i],
                                pre_stores[i + 1],
                                run_bound(pre_ids, i),
                                pre_ids[i],
                            ));
                            assert(run_bound(considered, i) == run_bound(pre_ids, i));
                        } else {
                            assert(stores[i] == pre && stores[i + 1] == blocks@);
                            assert(considered[i] == fid);
                            assert(run_bound(considered, i) == last_id);
                        }
                    }
                    assert(stores.first() == pre_stores.first());
                    assert(stores.last() == blocks@);
                }
                last_id = fid;
            },
            None => {
                proof {
                    let secs = choose|secs: Seq<Sector>|
                        #[trigger] wf_sectors(pre, secs) && forall|t: int|
                            0 <= t < secs.len() ==> !is_candidate(#[trigger] secs[t], last_id);
                    assert(blocks@ == pre);
                    assert(no_candidate_below(secs, last_id));
                    assert(wf_sectors(blocks@, secs) && no_candidate_below(
                        secs,
                        final_bound(considered),
                    ));
                }
                break ;
            },
        }
    }
    proof {
        assert(compaction_run(stores, considered) && stores.first() == old(blocks)@
            && stores.last() == blocks@);
    }
}


/// ASCII digit test for the run-length input notation.
pub open spec fn is_digit(c: u8) -> bool {
    48 <= c <= 57
}

/// The store described by the run-length digit string from position `pos`
/// onward, with `next_id` the id of the next file run.  Digits at even
/// positions are file lengths, digits at odd positions are free lengths, and
/// any other character only advances the position.
pub open spec fn expand(digits: Seq<u8>, pos: int, next_id: int) -> Seq<Block>
    decreases digits.len(),
{
    if digits.len() == 0 {
        Seq::empty()
    } else {
        let c = digits[0];
        let rest = digits.drop_first();
        if !is_digit(c) {
            expand(rest, pos + 1, next_id)
        } else if pos % 2 == 0 {
            Seq::new((c - 48) as nat, |i: int| Block::File(next_id as usize)) + expand(
                rest,
                pos + 1,
                next_id + 1,
            )
        } else {
            Seq::new((c - 48) as nat, |i: int| Block::Empty) + expand(rest, pos + 1, next_id)
        }
    }
}

/// Expands the run-length notation into the initial store: digits alternate
/// file length and free length, and file ids count up from zero in encounter
/// order.
pub fn decode(digits: &Vec<u8>) -> (blocks: Vec<Block>)
    ensures
        blocks@ == expand(digits@, 0, 0),
{
    let mut blocks: Vec<Block> = Vec::new();
    let mut file_id: usize = 0;
    let mut i: usize = 0;
    proof {
        assert(digits@.skip(0) =~= digits@);
        assert(Seq::<Block>::empty() + expand(digits@, 0, 0) =~= expand(digits@, 0, 0));
    }
    while i < digits.len()
        invariant
            0 <= i <= digits@.len(),
            file_id <= (i + 1) / 2,
            expand(digits@, 0, 0) == blocks@ + expand(digits@.skip(i as int), i as int, file_id as int),
        decreases digits@.len() - i,
    {
        let ghost gpre = blocks@;
        let ghost gid = file_id as int;
        let c = digits[i];
        proof {
            assert(digits@.skip(i as int)[0] == digits@[i as int]);
            assert(digits@.skip(i as int).drop_first() =~= digits@.skip(i + 1));
        }
        if c >= 48 && c <= 57 {
            let d = (c - 48) as usize;
            if i % 2 == 0 {
                let mut r: usize = 0;
                while r < d
                    invariant
                        0 <= r <= d,
                        blocks@ == gpre + Seq::new(r as nat, |q: int| Block::File(file_id)),
                        file_id == gid,
                    decreases d - r,
                {
                    blocks.push(Block::File(file_id));
                    proof {
                        assert(blocks@ =~= gpre + Seq::new((r + 1) as nat, |q: int| Block::File(file_id)));
                    }
                    r = r + 1;
                }
                file_id = file_id + 1;
                proof {
                    assert(Seq::new(d as nat, |q: int| Block::File(gid as usize)) =~= Seq::new(
                        d as nat,
                        |q: int| Block::File((gid as usize) as usize),
                    ));
                    assert(expand(digits@.skip(i as int), i as int, gid) == Seq::new(
                        d as nat,
                        |q: int| Block::File(gid as usize),
                    ) + expand(digits@.skip(i + 1), i + 1, gid + 1));
                    assert(gpre + (Seq::new(d as nat, |q: int| Block::File(gid as usize)) + expand(
                        digits@.skip(i + 1),
                        i + 1,
                        gid + 1,
                    )) =~= (gpre + Seq::new(d as nat, |q: int| Block::File(gid as usize))) + expand(
                        digits@.skip(i + 1),
                        i + 1,
                        gid + 1,
                    ));
                    assert(blocks@ =~= gpre + Seq::new(d as nat, |q: int| Block::File(gid as usize)));
                }
            } else {
                let mut r: usize = 0;
                while r < d
                    invariant
                        0 <= r <= d,
                        blocks@ == gpre + Seq::new(r as nat, |q: int| Block::Empty),
                    decreases d - r,
                {
                    blocks.push(Block::Empty);
                    proof {
                        assert(blocks@ =~= gpre + Seq::new((r + 1) as nat, |q: int| Block::Empty));
                    }
                    r = r + 1;
                }
                proof {
                    assert(expand(digits@.skip(i as int), i as int, gid) == Seq::new(d as nat, |q: int| Block::Empty)
                        + expand(digits@.skip(i + 1), i + 1, gid));
                    assert(gpre + (Seq::new(d as nat, |q: int| Block::Empty) + expand(
                        digits@.skip(i + 1),
                        i + 1,
                        gid,
                    )) =~= (gpre + Seq::new(d as nat, |q: int| Block::Empty)) + expand(
                        digits@.skip(i + 1),
                        i + 1,
                        gid,
                    ));
                }
            }
        } else {
            proof {
                assert(expand(digits@.skip(i as int), i as int, gid) == expand(
                    digits@.skip(i + 1),
                    i + 1,
                    gid,
                ));
            }
        }
        i = i + 1;
    }
    proof {
        assert(digits@.skip(digits@.len() as int) =~= Seq::<u8>::empty());
        assert(blocks@ + Seq::<Block>::empty() =~= blocks@);
    }
    blocks
}

/// Runs the block-granularity policy over a fresh copy of the store and
/// reports its checksum; the compacted store is pinned by the swap run that
/// produced it.
pub fn solve1(blocks: &mut Vec<Block>) -> (answer: usize)
    requires
        fits(old(blocks)@),
    ensures
        final(blocks)@.len() == old(blocks)@.len(),
        ids_of(final(blocks)@) == ids_of(old(blocks)@),
        packed(final(blocks)@),
        unit_done(final(blocks)@),
        exists|stores: Seq<Seq<Block>>|
            #[trigger] unit_run(stores) && stores.first() == old(blocks)@ && stores.last()
                == final(blocks)@,
        answer == checksum_of(final(blocks)@),
{
    defragment_block(blocks);
    proof {
        let w = choose|stores: Seq<Seq<Block>>|
            #[trigger] unit_run(stores) && stores.first() == old(blocks)@ && stores.last()
                == blocks@;
        assert(unit_run(w) && w.first() == old(blocks)@ && w.last() == blocks@);
        lemma_fits_preserved(old(blocks)@, blocks@);
        lemma_checksum_fits(blocks@);
    }
    checksum(blocks)
}

/// Runs the whole-file policy over a fresh copy of the store and reports its
/// checksum; the compacted store is pinned by the run that produced it.
pub fn solve2(blocks: &mut Vec<Block>) -> (answer: usize)
    requires
        fits(old(blocks)@),
    ensures
        final(blocks)@.len() == old(blocks)@.len(),
        ids_of(final(blocks)@) == ids_of(old(blocks)@),
        exists|stores: Seq<Seq<Block>>, ids: Seq<usize>|
            {
                &&& #[trigger] compaction_run(stores, ids)
                &&& stores.first() == old(blocks)@
                &&& stores.last() == final(blocks)@
                &&& exists|secs: Seq<Sector>|
                    #[trigger] wf_sectors(final(blocks)@, secs) && no_candidate_below(
                        secs,
                        final_bound(ids),
                    )
            },
        answer == checksum_of(final(blocks)@),
{
    defragment_file(blocks);
    proof {
        let (ws, wi) = choose|stores: Seq<Seq<Block>>, ids: Seq<usize>|
            {
                &&& #[trigger] compaction_run(stores, ids)
                &&& stores.first() == old(blocks)@
                &&& stores.last() == blocks@
                &&& exists|secs: Seq<Sector>|
                    #[trigger] wf_sectors(blocks@, secs) && no_candidate_below(
                        secs,
                        final_bound(ids),
                    )
            };
        assert(compaction_run(ws, wi) && ws.first() == old(blocks)@ && ws.last() == blocks@);
        lemma_fits_preserved(old(blocks)@, blocks@);
        lemma_checksum_fits(blocks@);
    }
    checksum(blocks)
}

/// A store rearranged without growing or gaining new ids still meets `fits`.
proof fn lemma_fits_preserved(pre: Seq<Block>, post: Seq<Block>)
    requires
        fits(pre),
        post.len() == pre.len(),
        ids_of(post) == ids_of(pre),
    ensures
        fits(post),
{
    assert forall|k: int|
        0 <= k < post.len() && is_file(#[trigger] post[k]) implies (file_id(post[k]) + 1)
        * post.len() * post.len() <= usize::MAX by {
        let id = file_id(post[k]);
        assert(post[k] == Block::File(id));
        lemma_ids_of_contains(post, id);
        lemma_ids_of_contains(pre, id);
        let w = choose|w: int| 0 <= w < pre.len() && pre[w] == Block::File(id);
        assert(is_file(pre[w]));
    }
}


/// The number of occupied blocks of the store.
pub open spec fn occupied_count(s: Seq<Block>) -> nat {
    ids_of(s).len()
}

/// Some sector of the index contains position `idx`.
pub open spec fn covered_at(secs: Seq<Sector>, idx: int) -> bool {
    exists|i: int| 0 <= i < secs.len() && sec_start(#[trigger] secs[i]) <= idx < sec_end(secs[i])
}

proof fn lemma_prefix_covered(s: Seq<Block>, secs: Seq<Sector>, b: int, idx: int)
    requires
        covers(s, secs),
        0 < b <= secs.len(),
        0 <= idx < sec_end(secs[b - 1]),
    ensures
        exists|i: int|
            0 <= i < b && sec_start(#[trigger] secs[i]) <= idx < sec_end(secs[i]),
    decreases b,
{
    if idx >= sec_start(secs[b - 1]) {
        assert(sec_start(secs[b - 1]) <= idx < sec_end(secs[b - 1]));
    } else {
        assert(b >= 2) by {
            if b == 1 {
                assert(sec_start(secs[0]) == 0);
            }
        }
        assert(sec_end(secs[b - 2]) == sec_start(secs[b - 1]));
        lemma_prefix_covered(s, secs, b - 1, idx);
    }
}

/// Coverage law: a well-formed sector index covers every index of the store
/// exactly once — each index falls in some sector, and in only one.
pub proof fn lemma_sector_coverage(s: Seq<Block>, secs: Seq<Sector>)
    requires
        wf_sectors(s, secs),
    ensures
        forall|idx: int| 0 <= idx < s.len() ==> #[trigger] covered_at(secs, idx),
        forall|i: int, j: int|
            0 <= i < j < secs.len() ==> sec_end(#[trigger] secs[i]) <= sec_start(
                #[trigger] secs[j],
            ),
{
    assert forall|idx: int| 0 <= idx < s.len() implies #[trigger] covered_at(secs, idx) by {
        assert(secs.len() > 0);
        assert(sec_end(secs[secs.len() - 1]) == s.len());
        lemma_prefix_covered(s, secs, secs.len() as int, idx);
    }
    assert forall|i: int, j: int| 0 <= i < j < secs.len() implies sec_end(#[trigger] secs[i])
        <= sec_start(#[trigger] secs[j]) by {
        lemma_sector_order(s, secs, i, j);
    }
}

/// Checksum idempotence law: the checksum is a pure reduction of the store,
/// so any two runs over the same finished store return the same value.
pub proof fn lemma_checksum_idempotent(s: Seq<Block>, r1: int, r2: int)
    requires
        r1 == checksum_of(s),
        r2 == checksum_of(s),
    ensures
        r1 == r2,
{
}

/// Packing law: in a packed store there is no pair `i < j` with `i` free and
/// `j` occupied.
pub proof fn lemma_packed_no_file_after_free(s: Seq<Block>)
    requires
        packed(s),
    ensures
        forall|i: int, j: int|
            0 <= i < j < s.len() ==> !(s[i] == Block::Empty && is_file(s[j])),
{
}

/// Some block of the store holds file `id`.
pub open spec fn has_file(s: Seq<Block>, id: usize) -> bool {
    exists|k: int| 0 <= k < s.len() && s[k] == Block::File(id)
}

/// Conservation law: rearrangements that keep the id multiset keep the number
/// of occupied blocks and the multiset of file ids present.
pub proof fn lemma_conservation(pre: Seq<Block>, post: Seq<Block>)
    requires
        ids_of(post) == ids_of(pre),
    ensures
        occupied_count(post) == occupied_count(pre),
        forall|id: usize| #[trigger] has_file(post, id) <==> has_file(pre, id),
{
    assert forall|id: usize| #[trigger] has_file(post, id) <==> has_file(pre, id) by {
        lemma_ids_of_contains(post, id);
        lemma_ids_of_contains(pre, id);
    }
}

} // verus!
