//! What holds of every ingestion, in whatever order the blocks come.
use crate::block::CompactedBlock;
use crate::block_source::BitcoinBlockFullBreakdown;
use crate::ingestion::{
    IngestionAction, IngestionView, ORDINAL_COMPUTING_HEIGHT, WRITES_PER_FLUSH,
};
use crate::{block_source, ingestion};
use vstd::prelude::*;

verus! {

/// Whether the blocks that were `processed`, of those that `arrived`, are those
/// from `start` on, without a gap, and the others are kept back.
pub open spec fn is_sequential<T>(
    view: IngestionView<T>,
    start: u64,
    arrived: Map<u64, T>,
    processed: Seq<T>,
) -> bool {
    &&& view.cursor == start + processed.len()
    &&& view.cursor <= u64::MAX
    &&& forall|height: u64|
        start <= height < view.cursor ==> #[trigger] arrived.dom().contains(height)
    &&& forall|k: int|
        0 <= k < processed.len() ==> arrived[(start + k) as u64] == #[trigger] processed[k]
    &&& forall|height: u64| #[trigger]
        view.inbox.dom().contains(height) <==> arrived.dom().contains(height) && height
            >= view.cursor
    &&& forall|height: u64|
        view.inbox.dom().contains(height) ==> #[trigger] view.inbox[height] == arrived[height]
    &&& forall|height: u64| #[trigger]
        arrived.dom().contains(height) ==> start <= height < u64::MAX
    &&& view.phase !is Draining ==> !arrived.dom().contains(view.cursor as u64)
}

/// An ingestion starts with nothing arrived and nothing processed.
pub proof fn law_ingestion_starts_sequential<T>(start: u64, end: u64)
    ensures
        is_sequential(
            IngestionView::<T>::start(start, end),
            start,
            Map::empty(),
            Seq::empty(),
        ),
{
}

/// A block that comes keeps the ingestion sequential.
pub proof fn law_receiving_keeps_sequential<T>(
    view: IngestionView<T>,
    start: u64,
    arrived: Map<u64, T>,
    processed: Seq<T>,
    height: u64,
    block: T,
)
    requires
        is_sequential(view, start, arrived, processed),
        view.phase is Receiving,
        ORDINAL_COMPUTING_HEIGHT < start <= height < u64::MAX,
        !arrived.dom().contains(height),
    ensures
        is_sequential(
            view.received(height, block),
            start,
            arrived.insert(height, block),
            processed,
        ),
{
    let after = view.received(height, block);
    let now = arrived.insert(height, block);
    if height < view.cursor {
        assert(processed[height - start] == arrived[height]);
    }
    assert forall|k: int| 0 <= k < processed.len() implies now[(start + k) as u64]
        == #[trigger] processed[k] by {
        assert(arrived[(start + k) as u64] == processed[k]);
        assert(arrived.dom().contains((start + k) as u64));
    }
    assert forall|other: u64| #[trigger] after.inbox.dom().contains(other) <==> now.dom().contains(
        other,
    ) && other >= after.cursor by {
        assert(view.inbox.dom().contains(other) <==> arrived.dom().contains(other) && other
            >= view.cursor);
    }
    assert forall|other: u64| after.inbox.dom().contains(other) implies
        #[trigger] after.inbox[other] == now[other] by {
        if other != height {
            assert(view.inbox.dom().contains(other));
            assert(view.inbox[other] == arrived[other]);
        }
    }
    assert forall|other: u64| #[trigger] now.dom().contains(other) implies start <= other
        < u64::MAX by {
        assert(other == height || arrived.dom().contains(other));
    }
}

/// What is done next keeps the ingestion sequential.
pub proof fn law_action_keeps_sequential<T>(
    view: IngestionView<T>,
    start: u64,
    arrived: Map<u64, T>,
    processed: Seq<T>,
)
    requires
        is_sequential(view, start, arrived, processed),
    ensures
        is_sequential(
            view.after_action(),
            start,
            arrived,
            match view.action() {
                IngestionAction::Process(block) => processed.push(block),
                _ => processed,
            },
        ),
{
    if view.can_process() {
        let at = view.cursor as u64;
        let after = view.after_action();
        let now = processed.push(view.inbox[at]);
        assert(arrived.dom().contains(at));
        assert forall|k: int| 0 <= k < now.len() implies arrived[(start + k) as u64]
            == #[trigger] now[k] by {
            if k < processed.len() {
                assert(arrived[(start + k) as u64] == processed[k]);
            }
        }
        assert forall|height: u64| #[trigger] after.inbox.dom().contains(
            height,
        ) <==> arrived.dom().contains(height) && height >= after.cursor by {
            assert(view.inbox.dom().contains(height) <==> arrived.dom().contains(height) && height
                >= view.cursor);
        }
        assert forall|height: u64| after.inbox.dom().contains(height) implies
            #[trigger] after.inbox[height] == arrived[height] by {
            assert(view.inbox.dom().contains(height));
            assert(view.inbox[height] == arrived[height]);
        }
    } else if view.phase is Draining {
        assert(!view.inbox.dom().contains(view.cursor as u64));
    }
}

/// All that can be processed, is: while a block is waited for, the first one
/// that was not processed has not arrived.
pub proof fn law_waits_for_the_next_block_only<T>(
    view: IngestionView<T>,
    start: u64,
    arrived: Map<u64, T>,
    processed: Seq<T>,
)
    requires
        is_sequential(view, start, arrived, processed),
        view.phase is Receiving,
    ensures
        !arrived.dom().contains((start + processed.len()) as u64),
{
}

/// What is processed, and the state when a block is waited for again.
pub open spec fn settle<T>(view: IngestionView<T>) -> (Seq<T>, IngestionView<T>)
    decreases u64::MAX + 1 - view.cursor,
{
    if view.can_process() && view.cursor <= u64::MAX {
        let (rest, end) = settle(view.after_action());
        (seq![view.inbox[view.cursor as u64]] + rest, end)
    } else {
        (Seq::empty(), view.after_action())
    }
}

/// What is processed when blocks come in the given order, and the state in the end.
pub open spec fn ingest<T>(view: IngestionView<T>, arrivals: Seq<(u64, T)>) -> (
    Seq<T>,
    IngestionView<T>,
)
    decreases arrivals.len(),
{
    if arrivals.len() == 0 {
        (Seq::empty(), view)
    } else {
        let (before, waiting) = ingest(view, arrivals.drop_last());
        let (more, end) = settle(waiting.received(arrivals.last().0, arrivals.last().1));
        (before + more, end)
    }
}

/// The blocks that came, by height.
pub open spec fn arrived_in<T>(arrivals: Seq<(u64, T)>) -> Map<u64, T>
    decreases arrivals.len(),
{
    if arrivals.len() == 0 {
        Map::empty()
    } else {
        arrived_in(arrivals.drop_last()).insert(arrivals.last().0, arrivals.last().1)
    }
}

proof fn lemma_settle<T>(
    view: IngestionView<T>,
    start: u64,
    arrived: Map<u64, T>,
    processed: Seq<T>,
)
    requires
        is_sequential(view, start, arrived, processed),
    ensures
        is_sequential(settle(view).1, start, arrived, processed + settle(view).0),
        settle(view).1.phase is Receiving,
        settle(view).1.blocks_stored == view.blocks_stored,
    decreases u64::MAX + 1 - view.cursor,
{
    law_action_keeps_sequential(view, start, arrived, processed);
    if view.can_process() {
        let block = view.inbox[view.cursor as u64];
        let rest = settle(view.after_action()).0;
        lemma_settle(view.after_action(), start, arrived, processed.push(block));
        assert(processed.push(block) + rest =~= processed + (seq![block] + rest));
    } else {
        assert(processed + Seq::<T>::empty() =~= processed);
    }
}

proof fn lemma_arrived<T>(arrivals: Seq<(u64, T)>, height: u64)
    requires
        forall|i: int, j: int|
            0 <= i < j < arrivals.len() ==> (#[trigger] arrivals[i]).0 != (
            #[trigger] arrivals[j]).0,
    ensures
        arrived_in(arrivals).dom().contains(height) <==> exists|j: int|
            0 <= j < arrivals.len() && (#[trigger] arrivals[j]).0 == height,
        forall|j: int|
            0 <= j < arrivals.len() && (#[trigger] arrivals[j]).0 == height ==> arrived_in(
                arrivals,
            )[height] == arrivals[j].1,
    decreases arrivals.len(),
{
    if arrivals.len() > 0 {
        let front = arrivals.drop_last();
        assert forall|i: int, j: int| 0 <= i < j < front.len() implies (#[trigger] front[i]).0 != (
        #[trigger] front[j]).0 by {
            assert(arrivals[i].0 != arrivals[j].0);
        }
        lemma_arrived(front, height);
        let last = arrivals.len() - 1;
        assert(arrivals[last] == arrivals.last());
        if exists|j: int| 0 <= j < arrivals.len() && (#[trigger] arrivals[j]).0 == height {
            let j = choose|j: int| 0 <= j < arrivals.len() && (#[trigger] arrivals[j]).0 == height;
            if j < last {
                assert(front[j].0 == height);
            }
        }
        if arrived_in(front).dom().contains(height) {
            let j = choose|j: int| 0 <= j < front.len() && (#[trigger] front[j]).0 == height;
            assert(arrivals[j].0 == height);
        }
        assert forall|j: int| 0 <= j < arrivals.len() && (
        #[trigger] arrivals[j]).0 == height implies arrived_in(arrivals)[height]
            == arrivals[j].1 by {
            if j < last {
                assert(front[j].0 == height);
                assert(arrivals[j].0 != arrivals[last].0);
            }
        }
    }
}

proof fn lemma_ingest<T>(start: u64, end: u64, arrivals: Seq<(u64, T)>)
    requires
        ORDINAL_COMPUTING_HEIGHT < start <= end < u64::MAX,
        forall|j: int|
            0 <= j < arrivals.len() ==> start <= (#[trigger] arrivals[j]).0 <= end,
        forall|i: int, j: int|
            0 <= i < j < arrivals.len() ==> (#[trigger] arrivals[i]).0 != (
            #[trigger] arrivals[j]).0,
    ensures
        ({
            let (processed, view) = ingest(IngestionView::<T>::start(start, end), arrivals);
            &&& is_sequential(view, start, arrived_in(arrivals), processed)
            &&& view.phase is Receiving
            &&& view.blocks_stored == arrivals.len()
        }),
    decreases arrivals.len(),
{
    if arrivals.len() > 0 {
        let front = arrivals.drop_last();
        let (height, block) = arrivals.last();
        assert forall|j: int| 0 <= j < front.len() implies start <= (#[trigger] front[j]).0
            <= end by {
            assert(start <= arrivals[j].0 <= end);
        }
        assert forall|i: int, j: int| 0 <= i < j < front.len() implies (#[trigger] front[i]).0 != (
        #[trigger] front[j]).0 by {
            assert(arrivals[i].0 != arrivals[j].0);
        }
        lemma_ingest(start, end, front);
        lemma_arrived(front, height);
        let (before, waiting) = ingest(IngestionView::<T>::start(start, end), front);
        let last = arrivals.len() - 1;
        assert(arrivals[last] == arrivals.last());
        if arrived_in(front).dom().contains(height) {
            let j = choose|j: int| 0 <= j < front.len() && (#[trigger] front[j]).0 == height;
            assert(arrivals[j].0 != arrivals[last].0);
        }
        law_receiving_keeps_sequential(
            waiting,
            start,
            arrived_in(front),
            before,
            height,
            block,
        );
        lemma_settle(
            waiting.received(height, block),
            start,
            arrived_in(arrivals),
            before,
        );
    } else {
        law_ingestion_starts_sequential::<T>(start, end);
    }
}

/// Above the height at which inscriptions are looked for, the blocks of a range
/// are processed one after the other, each once, from the first to the last,
/// in whatever order they come.
pub proof fn law_blocks_are_processed_in_order<T>(
    start: u64,
    end: u64,
    arrivals: Seq<(u64, T)>,
    j: int,
)
    requires
        ORDINAL_COMPUTING_HEIGHT < start <= end < u64::MAX,
        forall|i: int|
            0 <= i < arrivals.len() ==> start <= (#[trigger] arrivals[i]).0 <= end,
        forall|i: int, k: int|
            0 <= i < k < arrivals.len() ==> (#[trigger] arrivals[i]).0 != (
            #[trigger] arrivals[k]).0,
        forall|height: u64|
            start <= height <= end ==> #[trigger] arrived_in(arrivals).dom().contains(height),
        0 <= j < arrivals.len(),
    ensures
        ({
            let processed = ingest(IngestionView::<T>::start(start, end), arrivals).0;
            &&& processed.len() == end - start + 1
            &&& processed[arrivals[j].0 - start] == arrivals[j].1
        }),
{
    let (processed, view) = ingest(IngestionView::<T>::start(start, end), arrivals);
    lemma_ingest(start, end, arrivals);
    let arrived = arrived_in(arrivals);
    law_waits_for_the_next_block_only(view, start, arrived, processed);
    assert(view.cursor > end) by {
        if view.cursor <= end {
            assert(arrived.dom().contains(view.cursor as u64));
        }
    }
    if processed.len() > end - start + 1 {
        let k = end - start + 1;
        let past = (start + k) as u64;
        assert(arrived[(start + k) as u64] == processed[k]);
        assert(arrived.dom().contains(past));
        lemma_arrived(arrivals, past);
        let i = choose|i: int| 0 <= i < arrivals.len() && (#[trigger] arrivals[i]).0 == past;
        assert(start <= arrivals[i].0 <= end);
    }
    let height = arrivals[j].0;
    lemma_arrived(arrivals, height);
    assert(arrived[height] == arrivals[j].1);
    assert(arrived[(start + (height - start)) as u64] == processed[height - start]);
}

/// An ingestion that starts above height 0, but not above the height at which
/// inscriptions are looked for, processes no block: the one it would begin
/// with is only stored.
pub proof fn law_low_start_processes_nothing<T>(view: IngestionView<T>, height: u64, block: T)
    requires
        0 < view.cursor <= ORDINAL_COMPUTING_HEIGHT,
        forall|other: u64| #[trigger]
            view.inbox.dom().contains(other) ==> other > ORDINAL_COMPUTING_HEIGHT,
    ensures
        view.action() !is Process,
        view.after_action().cursor == view.cursor,
        view.after_action().inbox == view.inbox,
        view.received(height, block).cursor == view.cursor,
        forall|other: u64| #[trigger]
            view.received(height, block).inbox.dom().contains(other) ==> other
                > ORDINAL_COMPUTING_HEIGHT,
{
}

/// An ingestion that starts at height 0 begins to process with the first
/// block that comes from above the height at which inscriptions are looked for.
pub proof fn law_open_start_takes_the_first_block<T>(
    view: IngestionView<T>,
    height: u64,
    block: T,
)
    requires
        view.cursor == 0,
        height > ORDINAL_COMPUTING_HEIGHT,
    ensures
        view.received(height, block).action() == IngestionAction::Process(block),
{
}

/// The ingestion is complete when all of its blocks are stored, and not before.
pub proof fn law_completes_when_all_are_stored<T>(view: IngestionView<T>)
    requires
        view.phase !is Receiving,
        !view.can_process(),
    ensures
        view.action() is Complete <==> view.blocks_stored == view.number_of_blocks_to_process,
        view.after_action().phase is Receiving,
{
}

/// The database is never left with more than a fixed number of insertions that
/// were not flushed, until all blocks are stored.
pub proof fn law_insertions_are_flushed<T>(view: IngestionView<T>)
    requires
        view.wf(),
        view.phase is Receiving,
        view.blocks_stored < view.number_of_blocks_to_process,
    ensures
        view.num_writes < WRITES_PER_FLUSH,
{
}

/// What is said when a block was received and nothing more can be processed.
pub open spec fn settled_action<T>(view: IngestionView<T>) -> IngestionAction<T>
    decreases u64::MAX + 1 - view.cursor,
{
    if view.can_process() && view.cursor <= u64::MAX {
        settled_action(view.after_action())
    } else {
        view.action()
    }
}

/// Whether counts and heights are in their bounds when a block is waited for,
/// after `count` blocks of a range.
spec fn is_waiting<T>(view: IngestionView<T>, start: u64, end: u64, count: nat) -> bool {
    &&& view.phase is Receiving
    &&& is_counting(view, start, end, count)
    &&& count < end - start + 1 ==> view.num_writes == count % 5000
}

spec fn is_counting<T>(view: IngestionView<T>, start: u64, end: u64, count: nat) -> bool {
    &&& view.number_of_blocks_to_process == end - start + 1
    &&& view.blocks_stored == count
    &&& view.cursor <= u64::MAX
    &&& forall|height: u64| #[trigger] view.inbox.dom().contains(height) ==> height < u64::MAX
}

proof fn lemma_settle_counts<T>(view: IngestionView<T>, start: u64, end: u64, count: nat)
    requires
        is_counting(view, start, end, count),
        view.phase !is Receiving,
        0 < count <= end - start + 1,
        view.num_writes == (count - 1) % 5000 + 1,
    ensures
        is_waiting(settle(view).1, start, end, count),
        settled_action(view) is Complete <==> count == end - start + 1,
        settled_action(view) is Flush <==> count < end - start + 1 && count % 5000 == 0,
        settled_action(view) is Receive <==> count < end - start + 1 && count % 5000 != 0,
    decreases u64::MAX + 1 - view.cursor,
{
    if view.can_process() {
        let after = view.after_action();
        assert(view.cursor < u64::MAX);
        assert forall|height: u64| #[trigger] after.inbox.dom().contains(height) implies height
            < u64::MAX by {
            assert(view.inbox.dom().contains(height));
        }
        lemma_settle_counts(after, start, end, count);
    } else {
        assert((count - 1) % 5000 + 1 == 5000 <==> count % 5000 == 0);
    }
}

proof fn lemma_received_counts<T>(
    view: IngestionView<T>,
    start: u64,
    end: u64,
    count: nat,
    height: u64,
    block: T,
)
    requires
        is_waiting(view, start, end, count),
        count < end - start + 1,
        height < u64::MAX,
    ensures
        is_counting(view.received(height, block), start, end, count + 1),
        view.received(height, block).phase !is Receiving,
        view.received(height, block).num_writes == count % 5000 + 1,
{
    let after = view.received(height, block);
    assert forall|other: u64| #[trigger] after.inbox.dom().contains(other) implies other
        < u64::MAX by {
        assert(other == height || view.inbox.dom().contains(other));
    }
}

proof fn lemma_ingest_counts<T>(start: u64, end: u64, arrivals: Seq<(u64, T)>)
    requires
        start <= end,
        arrivals.len() <= end - start + 1,
        forall|j: int| 0 <= j < arrivals.len() ==> (#[trigger] arrivals[j]).0 < u64::MAX,
    ensures
        is_waiting(
            ingest(IngestionView::<T>::start(start, end), arrivals).1,
            start,
            end,
            arrivals.len(),
        ),
    decreases arrivals.len(),
{
    if arrivals.len() > 0 {
        let front = arrivals.drop_last();
        let count = front.len();
        let (height, block) = arrivals.last();
        assert(arrivals[arrivals.len() - 1] == arrivals.last());
        assert forall|j: int| 0 <= j < front.len() implies (#[trigger] front[j]).0 < u64::MAX by {
            assert(arrivals[j].0 < u64::MAX);
        }
        lemma_ingest_counts(start, end, front);
        let waiting = ingest(IngestionView::<T>::start(start, end), front).1;
        lemma_received_counts(waiting, start, end, count, height, block);
        lemma_settle_counts(waiting.received(height, block), start, end, count + 1);
    }
}

/// An ingestion of the blocks from `start` to `end` is complete when as many
/// blocks came as there are heights from `start` to `end`, and not before; of
/// the others, every five thousandth makes it flush the database, and after
/// all others it waits for the next.
pub proof fn law_complete_after_as_many_blocks_as_heights<T>(
    start: u64,
    end: u64,
    arrivals: Seq<(u64, T)>,
    height: u64,
    block: T,
)
    requires
        start <= end,
        arrivals.len() <= end - start,
        height < u64::MAX,
        forall|j: int| 0 <= j < arrivals.len() ==> (#[trigger] arrivals[j]).0 < u64::MAX,
    ensures
        ({
            let waiting = ingest(IngestionView::<T>::start(start, end), arrivals).1;
            let action = settled_action(waiting.received(height, block));
            let came = arrivals.len() + 1;
            &&& action is Complete <==> came == end - start + 1
            &&& action is Flush <==> came != end - start + 1 && came % 5000 == 0
            &&& action is Receive <==> came != end - start + 1 && came % 5000 != 0
        }),
{
    lemma_ingest_counts(start, end, arrivals);
    let waiting = ingest(IngestionView::<T>::start(start, end), arrivals).1;
    lemma_received_counts(waiting, start, end, arrivals.len(), height, block);
    lemma_settle_counts(waiting.received(height, block), start, end, arrivals.len() + 1);
}

/// Until as many blocks came as there are heights, the next one is taken, and then none.
pub proof fn law_blocks_are_taken_until_complete<T>(
    start: u64,
    end: u64,
    arrivals: Seq<(u64, T)>,
)
    requires
        start <= end,
        arrivals.len() <= end - start + 1,
        forall|j: int| 0 <= j < arrivals.len() ==> (#[trigger] arrivals[j]).0 < u64::MAX,
    ensures
        ({
            let waiting = ingest(IngestionView::<T>::start(start, end), arrivals).1;
            &&& waiting.phase is Receiving
            &&& waiting.blocks_stored < waiting.number_of_blocks_to_process <==> arrivals.len()
                < end - start + 1
        }),
{
    lemma_ingest_counts(start, end, arrivals);
}

/// The blocks that came from above the height at which inscriptions are looked for, by height.
spec fn high_arrivals<T>(arrivals: Seq<(u64, T)>) -> Map<u64, T>
    decreases arrivals.len(),
{
    if arrivals.len() == 0 {
        Map::empty()
    } else if arrivals.last().0 > 765_000 {
        high_arrivals(arrivals.drop_last()).insert(arrivals.last().0, arrivals.last().1)
    } else {
        high_arrivals(arrivals.drop_last())
    }
}

spec fn is_following<T>(
    view: IngestionView<T>,
    first: u64,
    arrived: Map<u64, T>,
    processed: Seq<T>,
) -> bool {
    &&& first > 0
    &&& view.cursor == first + processed.len()
    &&& view.cursor <= u64::MAX
    &&& forall|height: u64|
        first <= height < view.cursor ==> #[trigger] arrived.dom().contains(height)
    &&& forall|k: int|
        0 <= k < processed.len() ==> arrived[(first + k) as u64] == #[trigger] processed[k]
    &&& forall|height: u64| #[trigger]
        view.inbox.dom().contains(height) <==> arrived.dom().contains(height) && !(first <= height
            < view.cursor)
    &&& forall|height: u64|
        view.inbox.dom().contains(height) ==> #[trigger] view.inbox[height] == arrived[height]
    &&& forall|height: u64| #[trigger] arrived.dom().contains(height) ==> height < u64::MAX
    &&& view.phase !is Draining ==> !arrived.dom().contains(view.cursor as u64)
}

proof fn lemma_following_action<T>(
    view: IngestionView<T>,
    first: u64,
    arrived: Map<u64, T>,
    processed: Seq<T>,
)
    requires
        is_following(view, first, arrived, processed),
    ensures
        view.can_process() ==> is_following(
            view.after_action(),
            first,
            arrived,
            processed.push(view.inbox[view.cursor as u64]),
        ),
        !view.can_process() ==> is_following(view.after_action(), first, arrived, processed),
{
    let after = view.after_action();
    let at = view.cursor as u64;
    if view.can_process() {
        let now = processed.push(view.inbox[at]);
        assert(arrived.dom().contains(at));
        assert forall|k: int| 0 <= k < now.len() implies arrived[(first + k) as u64]
            == #[trigger] now[k] by {
            if k < processed.len() {
                assert(arrived[(first + k) as u64] == processed[k]);
            }
        }
        assert forall|height: u64| #[trigger] after.inbox.dom().contains(
            height,
        ) <==> arrived.dom().contains(height) && !(first <= height < after.cursor) by {
            assert(view.inbox.dom().contains(height) <==> arrived.dom().contains(height) && !(first
                <= height < view.cursor));
        }
        assert forall|height: u64| after.inbox.dom().contains(height) implies
            #[trigger] after.inbox[height] == arrived[height] by {
            assert(view.inbox.dom().contains(height));
            assert(view.inbox[height] == arrived[height]);
        }
    } else if view.phase is Draining {
        assert(!view.inbox.dom().contains(at));
    }
}

proof fn lemma_following_settle<T>(
    view: IngestionView<T>,
    first: u64,
    arrived: Map<u64, T>,
    processed: Seq<T>,
)
    requires
        is_following(view, first, arrived, processed),
    ensures
        is_following(settle(view).1, first, arrived, processed + settle(view).0),
        settle(view).1.phase is Receiving,
    decreases u64::MAX + 1 - view.cursor,
{
    lemma_following_action(view, first, arrived, processed);
    if view.can_process() {
        let block = view.inbox[view.cursor as u64];
        let rest = settle(view.after_action()).0;
        lemma_following_settle(view.after_action(), first, arrived, processed.push(block));
        assert(processed.push(block) + rest =~= processed + (seq![block] + rest));
    } else {
        assert(processed + Seq::<T>::empty() =~= processed);
    }
}

proof fn lemma_following_received<T>(
    view: IngestionView<T>,
    first: u64,
    arrived: Map<u64, T>,
    processed: Seq<T>,
    height: u64,
    block: T,
)
    requires
        is_following(view, first, arrived, processed),
        view.phase is Receiving,
        height < u64::MAX,
        height > 765_000 ==> !arrived.dom().contains(height),
    ensures
        height > 765_000 ==> is_following(
            view.received(height, block),
            first,
            arrived.insert(height, block),
            processed,
        ),
        height <= 765_000 ==> is_following(
            view.received(height, block),
            first,
            arrived,
            processed,
        ),
{
    if height > 765_000 {
        let after = view.received(height, block);
        let now = arrived.insert(height, block);
        assert forall|other: u64| first <= other < after.cursor implies
            #[trigger] now.dom().contains(other) by {
            assert(arrived.dom().contains(other));
        }
        assert forall|k: int| 0 <= k < processed.len() implies now[(first + k) as u64]
            == #[trigger] processed[k] by {
            assert(arrived[(first + k) as u64] == processed[k]);
            assert(arrived.dom().contains((first + k) as u64));
        }
        assert forall|other: u64| #[trigger] after.inbox.dom().contains(
            other,
        ) <==> now.dom().contains(other) && !(first <= other < after.cursor) by {
            assert(view.inbox.dom().contains(other) <==> arrived.dom().contains(other) && !(first
                <= other < view.cursor));
            if first <= height < view.cursor {
                assert(arrived.dom().contains(height));
            }
        }
        assert forall|other: u64| after.inbox.dom().contains(other) implies
            #[trigger] after.inbox[other] == now[other] by {
            if other != height {
                assert(view.inbox.dom().contains(other));
                assert(view.inbox[other] == arrived[other]);
            }
        }
        assert forall|other: u64| #[trigger] now.dom().contains(other) implies other
            < u64::MAX by {
            assert(other == height || arrived.dom().contains(other));
        }
    }
}

proof fn lemma_high_arrivals<T>(arrivals: Seq<(u64, T)>, height: u64)
    requires
        forall|i: int, j: int|
            0 <= i < j < arrivals.len() ==> (#[trigger] arrivals[i]).0 != (
            #[trigger] arrivals[j]).0,
    ensures
        high_arrivals(arrivals).dom().contains(height) <==> height > 765_000 && exists|j: int|
            0 <= j < arrivals.len() && (#[trigger] arrivals[j]).0 == height,
        forall|j: int|
            0 <= j < arrivals.len() && (#[trigger] arrivals[j]).0 == height && height > 765_000
                ==> high_arrivals(arrivals)[height] == arrivals[j].1,
    decreases arrivals.len(),
{
    if arrivals.len() > 0 {
        let front = arrivals.drop_last();
        let last = arrivals.len() - 1;
        assert(arrivals[last] == arrivals.last());
        assert forall|i: int, j: int| 0 <= i < j < front.len() implies (#[trigger] front[i]).0 != (
        #[trigger] front[j]).0 by {
            assert(arrivals[i].0 != arrivals[j].0);
        }
        lemma_high_arrivals(front, height);
        if exists|j: int| 0 <= j < arrivals.len() && (#[trigger] arrivals[j]).0 == height {
            let j = choose|j: int| 0 <= j < arrivals.len() && (#[trigger] arrivals[j]).0 == height;
            if j < last {
                assert(front[j].0 == height);
            }
        }
        if high_arrivals(front).dom().contains(height) {
            let j = choose|j: int| 0 <= j < front.len() && (#[trigger] front[j]).0 == height;
            assert(arrivals[j].0 == height);
        }
        assert forall|j: int|
            0 <= j < arrivals.len() && (#[trigger] arrivals[j]).0 == height && height
                > 765_000 implies high_arrivals(arrivals)[height] == arrivals[j].1 by {
            if j < last {
                assert(front[j].0 == height);
                assert(arrivals[j].0 != arrivals[last].0);
            }
        }
    }
}

/// The height at which processing begins: the start of the range, or, in a
/// range from 0, the first height above 765000 that comes.
spec fn first_height<T>(start: u64, arrivals: Seq<(u64, T)>) -> u64
    decreases arrivals.len(),
{
    if start > 0 || arrivals.len() == 0 {
        start
    } else {
        let before = first_height(start, arrivals.drop_last());
        if before > 0 || arrivals.last().0 <= 765_000 {
            before
        } else {
            arrivals.last().0
        }
    }
}

proof fn lemma_following_ingest<T>(start: u64, end: u64, arrivals: Seq<(u64, T)>)
    requires
        start <= end,
        forall|j: int| 0 <= j < arrivals.len() ==> (#[trigger] arrivals[j]).0 < u64::MAX,
        forall|i: int, j: int|
            0 <= i < j < arrivals.len() ==> (#[trigger] arrivals[i]).0 != (
            #[trigger] arrivals[j]).0,
    ensures
        ({
            let (processed, view) = ingest(IngestionView::<T>::start(start, end), arrivals);
            let first = first_height(start, arrivals);
            &&& view.phase is Receiving
            &&& first > 0 ==> is_following(view, first, high_arrivals(arrivals), processed)
            &&& first == 0 ==> {
                &&& view.cursor == 0
                &&& processed.len() == 0
                &&& view.inbox == Map::<u64, T>::empty()
                &&& high_arrivals(arrivals) == Map::<u64, T>::empty()
            }
        }),
    decreases arrivals.len(),
{
    if arrivals.len() > 0 {
        let front = arrivals.drop_last();
        let (height, block) = arrivals.last();
        let last = arrivals.len() - 1;
        assert(arrivals[last] == arrivals.last());
        assert forall|j: int| 0 <= j < front.len() implies (#[trigger] front[j]).0 < u64::MAX by {
            assert(arrivals[j].0 < u64::MAX);
        }
        assert forall|i: int, j: int| 0 <= i < j < front.len() implies (#[trigger] front[i]).0 != (
        #[trigger] front[j]).0 by {
            assert(arrivals[i].0 != arrivals[j].0);
        }
        lemma_following_ingest(start, end, front);
        lemma_high_arrivals(front, height);
        if high_arrivals(front).dom().contains(height) {
            let j = choose|j: int| 0 <= j < front.len() && (#[trigger] front[j]).0 == height;
            assert(arrivals[j].0 != arrivals[last].0);
        }
        let (before, waiting) = ingest(IngestionView::<T>::start(start, end), front);
        let first = first_height(start, front);
        let after = waiting.received(height, block);
        if first > 0 {
            lemma_following_received(
                waiting,
                first,
                high_arrivals(front),
                before,
                height,
                block,
            );
            lemma_following_settle(after, first, high_arrivals(arrivals), before);
        } else if height > 765_000 {
            let arrived = high_arrivals(arrivals);
            assert(before =~= Seq::empty());
            assert(after.inbox =~= arrived);
            assert(is_following(after, height, arrived, before));
            lemma_following_settle(after, height, arrived, before);
        } else {
            assert(!after.can_process());
            assert(before + settle(after).0 =~= before);
        }
    } else if start > 0 {
        assert(is_following(
            IngestionView::<T>::start(start, end),
            start,
            Map::empty(),
            Seq::empty(),
        ));
    }
}

proof fn lemma_first_height<T>(start: u64, arrivals: Seq<(u64, T)>, m: int)
    requires
        start == 0,
        0 <= m < arrivals.len(),
        arrivals[m].0 > 765_000,
        forall|j: int| 0 <= j < m ==> (#[trigger] arrivals[j]).0 <= 765_000,
    ensures
        first_height(start, arrivals) == arrivals[m].0,
    decreases arrivals.len(),
{
    let front = arrivals.drop_last();
    if m < front.len() {
        assert forall|j: int| 0 <= j < m implies (#[trigger] front[j]).0 <= 765_000 by {
            assert(arrivals[j].0 <= 765_000);
        }
        lemma_first_height(start, front, m);
    } else {
        lemma_no_first_height(start, front);
    }
}

proof fn lemma_no_first_height<T>(start: u64, arrivals: Seq<(u64, T)>)
    requires
        start == 0,
        forall|j: int| 0 <= j < arrivals.len() ==> (#[trigger] arrivals[j]).0 <= 765_000,
    ensures
        first_height(start, arrivals) == 0,
    decreases arrivals.len(),
{
    if arrivals.len() > 0 {
        let front = arrivals.drop_last();
        assert forall|j: int| 0 <= j < front.len() implies (#[trigger] front[j]).0 <= 765_000 by {
            assert(arrivals[j].0 <= 765_000);
        }
        assert(arrivals[arrivals.len() - 1].0 <= 765_000);
        lemma_no_first_height(start, front);
    }
}

proof fn lemma_processed<T>(start: u64, end: u64, arrivals: Seq<(u64, T)>, k: int)
    requires
        start <= end,
        first_height(start, arrivals) > 0,
        forall|j: int| 0 <= j < arrivals.len() ==> (#[trigger] arrivals[j]).0 < u64::MAX,
        forall|i: int, j: int|
            0 <= i < j < arrivals.len() ==> (#[trigger] arrivals[i]).0 != (
            #[trigger] arrivals[j]).0,
    ensures
        ({
            let first = first_height(start, arrivals);
            let processed = ingest(IngestionView::<T>::start(start, end), arrivals).0;
            &&& 0 <= k < processed.len() ==> first + k > 765_000 && exists|j: int|
                0 <= j < arrivals.len() && (#[trigger] arrivals[j]).0 == first + k
                    && arrivals[j].1 == processed[k]
            &&& forall|j: int|
                0 <= j < arrivals.len() && (#[trigger] arrivals[j]).0 > 765_000 ==> arrivals[j].0
                    != first + processed.len()
        }),
{
    let first = first_height(start, arrivals);
    let (processed, view) = ingest(IngestionView::<T>::start(start, end), arrivals);
    let high = high_arrivals(arrivals);
    lemma_following_ingest(start, end, arrivals);
    if 0 <= k < processed.len() {
        let height = (first + k) as u64;
        assert(high[(first + k) as u64] == processed[k]);
        assert(high.dom().contains(height));
        lemma_high_arrivals(arrivals, height);
        let j = choose|j: int| 0 <= j < arrivals.len() && (#[trigger] arrivals[j]).0 == height;
        assert(arrivals[j].1 == processed[k]);
    }
    assert forall|j: int| 0 <= j < arrivals.len() && (
    #[trigger] arrivals[j]).0 > 765_000 implies arrivals[j].0 != first + processed.len() by {
        lemma_high_arrivals(arrivals, arrivals[j].0);
        assert(!high.dom().contains(view.cursor as u64));
    }
}

/// In whatever order blocks of different heights come, those are processed that
/// continue the range from its start without a gap, one height after the other,
/// each with what came for its height, and no block at or below 765000. The
/// first one that is not processed has not come.
pub proof fn law_blocks_continue_the_range<T>(
    start: u64,
    end: u64,
    arrivals: Seq<(u64, T)>,
    k: int,
)
    requires
        0 < start <= end,
        forall|j: int| 0 <= j < arrivals.len() ==> (#[trigger] arrivals[j]).0 < u64::MAX,
        forall|i: int, j: int|
            0 <= i < j < arrivals.len() ==> (#[trigger] arrivals[i]).0 != (
            #[trigger] arrivals[j]).0,
    ensures
        ({
            let processed = ingest(IngestionView::<T>::start(start, end), arrivals).0;
            &&& 0 <= k < processed.len() ==> start + k > 765_000 && exists|j: int|
                0 <= j < arrivals.len() && (#[trigger] arrivals[j]).0 == start + k
                    && arrivals[j].1 == processed[k]
            &&& forall|j: int|
                0 <= j < arrivals.len() && (#[trigger] arrivals[j]).0 > 765_000 ==> arrivals[j].0
                    != start + processed.len()
        }),
{
    lemma_processed(start, end, arrivals, k);
}

/// The same of a range that starts at 0, which the first block from above 765000 opens.
pub proof fn law_blocks_continue_the_first<T>(
    end: u64,
    arrivals: Seq<(u64, T)>,
    m: int,
    k: int,
)
    requires
        0 <= m < arrivals.len(),
        arrivals[m].0 > 765_000,
        forall|j: int| 0 <= j < m ==> (#[trigger] arrivals[j]).0 <= 765_000,
        forall|j: int| 0 <= j < arrivals.len() ==> (#[trigger] arrivals[j]).0 < u64::MAX,
        forall|i: int, j: int|
            0 <= i < j < arrivals.len() ==> (#[trigger] arrivals[i]).0 != (
            #[trigger] arrivals[j]).0,
    ensures
        ({
            let processed = ingest(IngestionView::<T>::start(0, end), arrivals).0;
            &&& 0 <= k < processed.len() ==> exists|j: int|
                0 <= j < arrivals.len() && (#[trigger] arrivals[j]).0 == arrivals[m].0 + k
                    && arrivals[j].1 == processed[k]
            &&& forall|j: int|
                0 <= j < arrivals.len() && (#[trigger] arrivals[j]).0 > 765_000 ==> arrivals[j].0
                    != arrivals[m].0 + processed.len()
        }),
{
    lemma_first_height(0, arrivals, m);
    lemma_processed(0, end, arrivals, k);
}

/// Without a block from above 765000, a range that starts at 0 processes nothing.
pub proof fn law_low_blocks_are_only_stored<T>(end: u64, arrivals: Seq<(u64, T)>)
    requires
        forall|j: int| 0 <= j < arrivals.len() ==> (#[trigger] arrivals[j]).0 <= 765_000,
        forall|i: int, j: int|
            0 <= i < j < arrivals.len() ==> (#[trigger] arrivals[i]).0 != (
            #[trigger] arrivals[j]).0,
    ensures
        ingest(IngestionView::<T>::start(0, end), arrivals).0.len() == 0,
{
    lemma_no_first_height(0, arrivals);
    assert forall|j: int| 0 <= j < arrivals.len() implies (#[trigger] arrivals[j]).0
        < u64::MAX by {
    }
    lemma_following_ingest(0, end, arrivals);
}

/// A range of blocks can be ingested just when it is not empty and its blocks can be counted.
pub proof fn law_ranges_that_can_be_ingested(start: u64, end: u64)
    ensures
        ingestion::is_block_range(start, end) <==> 1 <= end - start + 1 <= u64::MAX,
{
}

/// A downloaded block is stored under its own height, in its compacted form;
/// heights that differ by a multiple of 2 to the power of 32 are the same.
pub proof fn law_compressed_block_keeps_its_height(
    block: &BitcoinBlockFullBreakdown,
    r: Option<(u32, CompactedBlock)>,
)
    requires
        call_ensures(ingestion::compress_block, (block,), r),
    ensures
        r is Some <==> block_source::full_block_compactable(*block),
        r matches Some((height, compacted)) ==> {
            &&& block.height <= u32::MAX ==> height == block.height
            &&& (block.height - height) % 0x1_0000_0000 == 0
            &&& compacted@ == block_source::full_block(*block)
        },
{
}

/// Downloads and compactions are waited for from height 765000 on.
pub proof fn law_high_blocks_are_waited_for(block_height: u64, r: bool)
    requires
        call_ensures(ingestion::is_waited_for, (block_height,), r),
    ensures
        r <==> block_height >= 765_000,
{
}

} // verus!
