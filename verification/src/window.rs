//! Pagination of a block range into fixed-size query windows.

use crate::join::{concat, lemma_concat_contains};
use vstd::prelude::*;

verus! {

/// Number of blocks by which one window's lower edge lies above the previous one's.
pub const BLOCK_STEP: u64 = 100_000;

/// One log query's block range; both edges are part of the query.
#[derive(Clone, Copy, Debug, PartialEq, Eq, Structural)]
pub struct BlockWindow {
    pub from_block: u64,
    pub to_block: u64,
}

impl BlockWindow {
    /// Whether the query of this window asks for `block`.
    pub open spec fn contains(self, block: int) -> bool {
        self.from_block <= block <= self.to_block
    }

    /// Whether this window is the one that answers for `block`: every block has one
    /// such window, though a block on a shared edge is asked for by two.
    pub open spec fn owns(self, block: int) -> bool {
        self.from_block <= block < self.to_block
    }
}

/// How many windows the range from `creation_block` up to `current_block` takes:
/// one for each lower edge `creation_block + i * BLOCK_STEP` that is not above
/// `current_block`, so none where the range is empty and one where it is a single block.
pub open spec fn window_count(creation_block: u64, current_block: u64) -> nat {
    if creation_block > current_block {
        0
    } else {
        ((current_block - creation_block) / (BLOCK_STEP as int) + 1) as nat
    }
}

/// The lower edge of the `i`-th window above `creation_block`.
pub open spec fn lower_edge(creation_block: u64, i: int) -> int {
    creation_block + i * BLOCK_STEP
}

/// The upper edge of the `i`-th window above `creation_block`: the lower edge of the
/// next.
pub open spec fn upper_edge(creation_block: u64, i: int) -> int {
    creation_block + (i + 1) * BLOCK_STEP
}

/// The `i`-th window above `creation_block`.
pub open spec fn window_at(creation_block: u64, i: int) -> BlockWindow {
    BlockWindow {
        from_block: lower_edge(creation_block, i) as u64,
        to_block: upper_edge(creation_block, i) as u64,
    }
}

/// The windows of a range, lowest first.
pub open spec fn windows_of(creation_block: u64, current_block: u64) -> Seq<BlockWindow> {
    Seq::new(window_count(creation_block, current_block), |i: int| window_at(creation_block, i))
}

/// Splits the blocks from `creation_block` to `current_block` into windows of
/// `BLOCK_STEP` blocks, lowest first. The upper edge of the last window may lie
/// above `current_block`.
pub fn block_windows(creation_block: u64, current_block: u64) -> (windows: Vec<BlockWindow>)
    requires
        current_block <= u64::MAX - BLOCK_STEP,
    ensures
        windows@ == windows_of(creation_block, current_block),
{
    let mut windows: Vec<BlockWindow> = Vec::new();
    let mut from_block: u64 = creation_block;
    while from_block <= current_block
        invariant
            current_block <= u64::MAX - BLOCK_STEP,
            creation_block <= from_block,
            from_block == creation_block + windows.len() * BLOCK_STEP,
            windows.len() <= window_count(creation_block, current_block),
            creation_block <= current_block ==> from_block <= current_block + BLOCK_STEP,
            windows@ == Seq::new(windows.len() as nat, |i: int| window_at(creation_block, i)),
        decreases current_block + BLOCK_STEP - from_block,
    {
        let window = BlockWindow { from_block, to_block: from_block + BLOCK_STEP };
        assert(window == window_at(creation_block, windows.len() as int));
        windows.push(window);
        from_block = from_block + BLOCK_STEP;
        assert(windows@ =~= Seq::new(windows.len() as nat, |i: int| window_at(creation_block, i)));
    }
    assert(windows.len() == window_count(creation_block, current_block));
    windows
}

/// The index of the window that owns `block`.
pub open spec fn owner_index(creation_block: u64, block: int) -> int {
    (block - creation_block) / (BLOCK_STEP as int)
}

/// Where the clock of blocks leaves room for the last upper edge, the windows that
/// `block_windows` returns have the edges of `lower_edge` and `upper_edge`.
pub proof fn lemma_window_edges(creation_block: u64, current_block: u64, i: int)
    requires
        current_block <= u64::MAX - BLOCK_STEP,
        0 <= i < window_count(creation_block, current_block),
    ensures
        windows_of(creation_block, current_block)[i].from_block == lower_edge(creation_block, i),
        windows_of(creation_block, current_block)[i].to_block == upper_edge(creation_block, i),
        forall|block: int|
            #[trigger] windows_of(creation_block, current_block)[i].contains(block)
                <==> lower_edge(creation_block, i) <= block <= upper_edge(creation_block, i),
        forall|block: int|
            #[trigger] windows_of(creation_block, current_block)[i].owns(block) <==> lower_edge(
                creation_block,
                i,
            ) <= block < upper_edge(creation_block, i),
{
}

/// Every window starts inside the range, spans `BLOCK_STEP` blocks, and starts where
/// the one before it ends.
pub proof fn lemma_windows_stay_in_range(creation_block: u64, current_block: u64, i: int)
    requires
        0 <= i < window_count(creation_block, current_block),
    ensures
        creation_block <= lower_edge(creation_block, i) <= current_block,
        upper_edge(creation_block, i) == lower_edge(creation_block, i) + BLOCK_STEP,
        i > 0 ==> lower_edge(creation_block, i) == upper_edge(creation_block, i - 1),
{
}

/// A range that is not empty has a window, its first starts at the creation block,
/// and its last reaches above the current block.
pub proof fn lemma_windows_reach(creation_block: u64, current_block: u64)
    requires
        creation_block <= current_block,
    ensures
        window_count(creation_block, current_block) >= 1,
        lower_edge(creation_block, 0) == creation_block,
        upper_edge(creation_block, window_count(creation_block, current_block) - 1)
            > current_block,
{
}

/// Each block of the range is owned by exactly one window, and that window's query
/// asks for it.
pub proof fn lemma_block_has_one_owner(creation_block: u64, current_block: u64, block: int)
    requires
        creation_block <= block <= current_block,
    ensures
        0 <= owner_index(creation_block, block) < window_count(creation_block, current_block),
        lower_edge(creation_block, owner_index(creation_block, block)) <= block < upper_edge(
            creation_block,
            owner_index(creation_block, block),
        ),
        forall|i: int|
            0 <= i < window_count(creation_block, current_block) && (#[trigger] lower_edge(
                creation_block,
                i,
            )) <= block < upper_edge(creation_block, i) ==> i == owner_index(
                creation_block,
                block,
            ),
{
}

/// A creation event on the chain: the block that holds it and the pool it decodes to.
pub struct CreationLog<T> {
    pub block: u64,
    pub pool: T,
}

/// The pools whose creation events lie in the blocks from `from` to `to`, both
/// included.
pub open spec fn pools_between<T>(logs: Seq<CreationLog<T>>, from: int, to: int) -> Set<T> {
    Set::new(
        |pool: T|
            exists|i: int|
                0 <= i < logs.len() && from <= (#[trigger] logs[i]).block <= to && logs[i].pool
                    == pool,
    )
}

/// Partition equivalence: where each window's query is answered with the pools of
/// the events in its blocks, and the chain holds no event above the current block,
/// the windows together find the pools that one query over the whole range finds.
pub proof fn lemma_partition_equivalence<T>(
    logs: Seq<CreationLog<T>>,
    creation_block: u64,
    current_block: u64,
    answers: Seq<Seq<T>>,
)
    requires
        forall|i: int| 0 <= i < logs.len() ==> (#[trigger] logs[i]).block <= current_block,
        answers.len() == window_count(creation_block, current_block),
        forall|k: int|
            0 <= k < answers.len() ==> (#[trigger] answers[k]).to_set() == pools_between(
                logs,
                lower_edge(creation_block, k),
                upper_edge(creation_block, k),
            ),
    ensures
        concat(answers).to_set() == pools_between(
            logs,
            creation_block as int,
            current_block as int,
        ),
{
    let whole = pools_between(logs, creation_block as int, current_block as int);
    assert forall|pool: T| concat(answers).contains(pool) <==> whole.contains(pool) by {
        lemma_concat_contains(answers, pool);
        if concat(answers).contains(pool) {
            let k = choose|k: int| 0 <= k < answers.len() && (#[trigger] answers[k]).contains(pool);
            assert(answers[k].to_set().contains(pool));
            let i = choose|i: int|
                0 <= i < logs.len() && lower_edge(creation_block, k) <= (#[trigger] logs[i]).block
                    <= upper_edge(creation_block, k) && logs[i].pool == pool;
            lemma_windows_stay_in_range(creation_block, current_block, k);
            assert(creation_block <= logs[i].block <= current_block);
        }
        if whole.contains(pool) {
            let i = choose|i: int|
                0 <= i < logs.len() && creation_block <= (#[trigger] logs[i]).block
                    <= current_block && logs[i].pool == pool;
            let k = owner_index(creation_block, logs[i].block as int);
            lemma_block_has_one_owner(creation_block, current_block, logs[i].block as int);
            assert(pools_between(
                logs,
                lower_edge(creation_block, k),
                upper_edge(creation_block, k),
            ).contains(pool));
            assert(answers[k].to_set().contains(pool));
            assert(answers[k].contains(pool));
        }
    }
    assert(concat(answers).to_set() =~= whole);
}

} // verus!
