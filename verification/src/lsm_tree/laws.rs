//! What the changes of a writer mean for the list and for its readers.

use crate::lsm_tree::skip_list_layer::{
    drawn, found, pointer_count, readers_leave_the_writer_alone, running_readers_are_counted,
    with_erased, with_inserted, with_replaced, writers_stand_in_their_list, PendingCommit,
    SkipListLayer, SkipListLayerIter, SkipListLayerIterMut,
};
use crate::lsm_tree::types::{
    lemma_lower_bound, lemma_lower_bound_sorted, lower_bound, sorted, start_of, Bound, Item, Key,
};
use crate::math::{
    lemma_pow2_grows, log2, log2_bounds, pow2, single_precision_is_close,
    small_logarithms_are_exact,
};
use vstd::prelude::*;

verus! {

/// A layer with a writer's iterator.
pub struct State<K, V> {
    pub layer: SkipListLayer<K, V>,
    pub iter: SkipListLayerIterMut,
}

/// What can happen between the start of a writer and its commit.
pub enum Step<K, V> {
    /// The writer inserts an item before the current one.
    Insert(Item<K, V>),
    /// The writer erases the current item.
    Erase,
    /// The writer moves to the next item.
    Advance,
    /// Readers start, or end.
    Readers,
}

/// A list, cut in two where a writer stands.
pub struct Split<K, V> {
    pub left: Seq<Item<K, V>>,
    pub right: Seq<Item<K, V>>,
}

impl<K, V> Split<K, V> {
    /// The whole list.
    pub open spec fn whole(self) -> Seq<Item<K, V>> {
        self.left + self.right
    }

    /// What a step makes of the list.
    pub open spec fn then_step(self, step: Step<K, V>) -> Self {
        match step {
            Step::Insert(item) => Split { left: self.left.push(item), ..self },
            Step::Erase => if self.right.len() > 0 {
                Split { right: self.right.drop_first(), ..self }
            } else {
                self
            },
            Step::Advance => if self.right.len() > 0 {
                Split { left: self.left.push(self.right[0]), right: self.right.drop_first() }
            } else {
                self
            },
            Step::Readers => self,
        }
    }

    /// What steps make of the list.
    pub open spec fn then_steps(self, steps: Seq<Step<K, V>>) -> Self
        decreases steps.len(),
    {
        if steps.len() == 0 {
            self
        } else {
            self.then_steps(steps.drop_last()).then_step(steps.last())
        }
    }

    /// The step inserts an item, or erases one that is there.
    pub open spec fn changes(self, step: Step<K, V>) -> bool {
        step is Insert || (step is Erase && self.right.len() > 0)
    }

    /// The step at a place inserts an item, or erases one that is there then.
    pub open spec fn changes_at(self, steps: Seq<Step<K, V>>, i: int) -> bool {
        self.then_steps(steps.take(i)).changes(steps[i])
    }

    /// One of the steps inserts an item, or erases one that is there.
    pub open spec fn any_changes(self, steps: Seq<Step<K, V>>) -> bool {
        exists|i: int| 0 <= i < steps.len() && #[trigger] self.changes_at(steps, i)
    }
}

impl<K, V> State<K, V> {
    /// The writer's list, cut in two where it stands.
    pub open spec fn split(self) -> Split<K, V> {
        let items = self.iter.items(self.layer);
        let at = self.iter.position() as int;
        Split { left: items.take(at), right: items.skip(at) }
    }
}

/// The step leads from one state to the next.
pub open spec fn leads<K, V: Clone>(step: Step<K, V>, from: State<K, V>, to: State<K, V>) -> bool {
    match step {
        Step::Insert(item) => to.iter.after_insert(to.layer, from.iter, from.layer, item),
        Step::Erase => to.iter.after_erase(to.layer, from.iter, from.layer),
        Step::Advance => to.iter.after_advance(to.layer, from.iter, from.layer),
        Step::Readers => to.iter == from.iter && to.layer.wf() && to.layer.same_list(from.layer),
    }
}

/// The steps lead from each state to the next.
pub open spec fn lead_through<K, V: Clone>(
    steps: Seq<Step<K, V>>,
    states: Seq<State<K, V>>,
) -> bool {
    &&& states.len() == steps.len() + 1
    &&& forall|i: int|
        0 <= i < steps.len() ==> leads(#[trigger] steps[i], states[i], states[i + 1])
}

/// `copy` is `item`, or holds a clone of its value.
pub open spec fn copied<K, V: Clone>(item: Item<K, V>, copy: Item<K, V>) -> bool {
    item.key == copy.key && (item.value == copy.value || vstd::pervasive::cloned(
        item.value,
        copy.value,
    ))
}

/// Each item of `copies` is the one of `items` in the same place, or holds a clone of its value.
pub open spec fn all_copied<K, V: Clone>(items: Seq<Item<K, V>>, copies: Seq<Item<K, V>>) -> bool {
    &&& items.len() == copies.len()
    &&& forall|i: int| 0 <= i < items.len() ==> copied(items[i], #[trigger] copies[i])
}

/// A clone is what it was cloned from.
pub open spec fn clones_are_equal<V: Clone>() -> bool {
    forall|a: V, b: V| #[trigger] vstd::pervasive::cloned(a, b) ==> a == b
}

/// What one step does to the writer's list, and leaves as it was for readers.
proof fn lemma_step<K, V: Clone>(
    step: Step<K, V>,
    from: State<K, V>,
    to: State<K, V>,
    split: Split<K, V>,
)
    requires
        from.iter.wf(from.layer),
        leads(step, from, to),
        all_copied(split.left, from.split().left),
        split.right == from.split().right,
    ensures
        to.iter.wf(to.layer),
        to.layer.wf(),
        to.layer@ == from.layer@,
        to.layer.item_heights() == from.layer.item_heights(),
        to.layer.epoch() == from.layer.epoch(),
        all_copied(split.then_step(step).left, to.split().left),
        split.then_step(step).right == to.split().right,
        to.iter.changed() <==> from.iter.changed() || split.changes(step),
        !to.iter.changed() ==> to.iter.items(to.layer) == from.iter.items(from.layer),
        !to.iter.changed() ==> split.then_step(step).whole() == split.whole(),
{
    writers_stand_in_their_list(from.layer, from.iter);
    let at = from.iter.position() as int;
    let items = from.iter.items(from.layer);
    let next = split.then_step(step);
    if step is Readers {
        let pending: PendingCommit = arbitrary();
        readers_leave_the_writer_alone(to.layer, from.layer, to.iter, pending);
    }
    writers_stand_in_their_list(to.layer, to.iter);
    let left = to.split().left;
    assert(next.left.len() == left.len());
    assert forall|i: int| 0 <= i < left.len() implies copied(next.left[i], #[trigger] left[i]) by {
        if i < at {
            assert(left[i] == from.split().left[i]);
            assert(copied(split.left[i], from.split().left[i]));
        } else if step is Advance {
            assert(split.right[0] == items[at]);
        }
    }
    assert(next.right =~= to.split().right);
    if step is Advance && split.right.len() > 0 {
        assert(next.whole() =~= split.whole());
    }
}

/// A change is one of the last step, or of a step before it.
proof fn lemma_any_changes<K, V>(split: Split<K, V>, steps: Seq<Step<K, V>>)
    requires
        steps.len() > 0,
    ensures
        split.any_changes(steps) <==> split.any_changes(steps.drop_last()) || split.then_steps(
            steps.drop_last(),
        ).changes(steps.last()),
{
    let n = steps.len() - 1;
    let fewer = steps.drop_last();
    assert(steps.take(n) =~= fewer);
    assert forall|i: int| 0 <= i < n implies #[trigger] split.changes_at(fewer, i)
        == split.changes_at(steps, i) by {
        assert(fewer.take(i) =~= steps.take(i));
    }
    if split.any_changes(steps) {
        let i = choose|i: int| 0 <= i < steps.len() && #[trigger] split.changes_at(steps, i);
        assert(i < n ==> split.changes_at(fewer, i));
    }
    if split.any_changes(fewer) {
        let i = choose|i: int| 0 <= i < fewer.len() && #[trigger] split.changes_at(fewer, i);
        assert(split.changes_at(steps, i));
    } else if split.then_steps(fewer).changes(steps.last()) {
        assert(split.changes_at(steps, n));
    }
}

/// What steps do to the writer's list, and leave as it was for readers.
proof fn lemma_steps<K, V: Clone>(steps: Seq<Step<K, V>>, states: Seq<State<K, V>>)
    requires
        lead_through(steps, states),
        states[0].iter.wf(states[0].layer),
        !states[0].iter.changed(),
    ensures
        ({
            let first = states[0];
            let last = states.last();
            let end = first.split().then_steps(steps);
            &&& last.iter.wf(last.layer)
            &&& last.layer.wf()
            &&& last.layer@ == first.layer@
            &&& last.layer.item_heights() == first.layer.item_heights()
            &&& last.layer.epoch() == first.layer.epoch()
            &&& all_copied(end.left, last.split().left)
            &&& end.right == last.split().right
            &&& last.iter.changed() <==> first.split().any_changes(steps)
            &&& !last.iter.changed() ==> last.iter.items(last.layer) == first.iter.items(
                first.layer,
            )
            &&& !last.iter.changed() ==> end.whole() == first.split().whole()
        }),
    decreases steps.len(),
{
    let first = states[0];
    writers_stand_in_their_list(first.layer, first.iter);
    if steps.len() > 0 {
        let n = steps.len() - 1;
        let fewer = steps.drop_last();
        let fewer_states = states.drop_last();
        assert forall|i: int| 0 <= i < fewer.len() implies leads(
            #[trigger] fewer[i],
            fewer_states[i],
            fewer_states[i + 1],
        ) by {
            assert(fewer[i] == steps[i]);
        }
        lemma_steps(fewer, fewer_states);
        assert(leads(steps[n], states[n], states[n + 1]));
        let before = first.split().then_steps(fewer);
        lemma_step(steps.last(), states[n], states[n + 1], before);
        lemma_any_changes(first.split(), steps);
    }
}

/// The changes of a writer are seen all at once. A writer starts on a list, and then any mix of
/// insertions, erasures and moves follows, while readers start and end. Until the commit, a
/// reader that starts finds the list as it was; after it, the writer's list: what stands to the
/// left and to the right of the writer, where an item that the writer moved past after its first
/// change holds a clone of the value. A commit without changes changes nothing.
pub proof fn changes_are_seen_at_once<K, V: Clone>(
    steps: Seq<Step<K, V>>,
    states: Seq<State<K, V>>,
    committed: SkipListLayer<K, V>,
    pending: Option<PendingCommit>,
)
    requires
        lead_through(steps, states),
        states[0].iter.wf(states[0].layer),
        !states[0].iter.changed(),
        states[0].iter.items(states[0].layer) == states[0].layer@,
        committed.after_commit(states.last().layer, states.last().iter, pending),
    ensures
        ({
            let list = states[0].layer@;
            let end = states[0].split().then_steps(steps);
            &&& states[0].split().whole() == list
            &&& forall|i: int|
                0 <= i < states.len() ==> (#[trigger] states[i]).layer.wf() && states[i].layer@
                    == list && states[i].layer.epoch() == states[0].layer.epoch()
            &&& all_copied(end.whole(), committed@)
            &&& clones_are_equal::<V>() ==> committed@ == end.whole()
            &&& pending is Some <==> states[0].split().any_changes(steps)
            &&& pending is Some ==> committed.epoch() != states[0].layer.epoch()
            &&& pending is None ==> committed@ == list && end.whole() == list && committed.idle()
                && committed.keeps_readers(states.last().layer)
        }),
{
    let first = states[0];
    let last = states.last();
    writers_stand_in_their_list(first.layer, first.iter);
    assert(first.split().whole() =~= first.layer@);
    assert forall|i: int| 0 <= i < states.len() implies (#[trigger] states[i]).layer.wf()
        && states[i].layer@ == first.layer@ && states[i].layer.epoch() == first.layer.epoch() by {
        let few = steps.take(i);
        let few_states = states.take(i + 1);
        assert forall|j: int| 0 <= j < few.len() implies leads(
            #[trigger] few[j],
            few_states[j],
            few_states[j + 1],
        ) by {
            assert(few[j] == steps[j]);
        }
        lemma_steps(few, few_states);
    }
    lemma_steps(steps, states);
    writers_stand_in_their_list(last.layer, last.iter);
    let end = first.split().then_steps(steps);
    let list = end.whole();
    assert(committed@ =~= last.split().whole());
    assert forall|i: int| 0 <= i < list.len() implies copied(list[i], #[trigger] committed@[i]) by {
        if i < end.left.len() {
            assert(last.split().left[i] == committed@[i]);
            assert(copied(end.left[i], last.split().left[i]));
        } else {
            assert(last.split().right[i - end.left.len()] == committed@[i]);
        }
    }
    if clones_are_equal::<V>() {
        assert forall|i: int| 0 <= i < list.len() implies list[i] == #[trigger] committed@[i] by {
            assert(copied(list[i], committed@[i]));
        }
        assert(committed@ =~= list);
    }
}

/// The nodes that a commit takes out of the list outlive the readers that began before it: while
/// one of them runs, its epoch is not empty, so the commit cannot be finished and the nodes wait.
pub proof fn erased_nodes_outlive_readers<K, V>(
    before: SkipListLayer<K, V>,
    writer: SkipListLayerIterMut,
    committed: SkipListLayer<K, V>,
    pending: PendingCommit,
    later: SkipListLayer<K, V>,
    reader: SkipListLayerIter,
    running: SkipListLayerIter,
)
    requires
        writer.wf(before),
        committed.after_commit(before, writer, Some(pending)),
        later.wf(),
        later.same_list(committed),
        reader.valid(before),
        running.valid(later),
        running.epoch() == reader.epoch(),
    ensures
        reader.valid(committed),
        pending.valid(later),
        later.reader_count(pending.epoch()) > 0,
        later.waiting() == committed.waiting(),
{
    writers_stand_in_their_list(before, writer);
    running_readers_are_counted(before, reader);
    running_readers_are_counted(later, running);
    assert(committed.committed_for(before, writer.start(), reader));
    readers_leave_the_writer_alone(later, committed, writer, pending);
}

// -- Keys and places --

/// Integers are ordered by their size.
pub proof fn integers_are_ordered(a: i32, b: i32, x: u64, y: u64)
    ensures
        a.before(b) <==> a < b,
        x.before(y) <==> x < y,
{
}

/// On a sorted list, no key comes before one that stands to its left. A key is found just when an
/// item has it. An iteration from a key starts at the first item whose key does not come before it,
/// and one without a key at the first item.
pub proof fn keys_are_found<K: Key, V>(items: Seq<Item<K, V>>, key: K)
    ensures
        sorted(items) <==> forall|i: int, j: int|
            #![trigger items[i], items[j]]
            0 <= i < j < items.len() ==> !items[j].key.before(items[i].key),
        sorted(items) ==> (found(items, key) <==> exists|i: int|
            0 <= i < items.len() && (#[trigger] items[i]).key == key),
        start_of(items, Bound::Unbounded) == 0,
        start_of(items, Bound::Included(&key)) <= items.len(),
        forall|i: int|
            0 <= i < start_of(items, Bound::Included(&key)) ==> (
            #[trigger] items[i]).key.before(key),
        sorted(items) ==> forall|i: int|
            start_of(items, Bound::Included(&key)) <= i < items.len() ==> !(
            #[trigger] items[i]).key.before(key),
{
    lemma_lower_bound(items, key);
    let at = lower_bound(items, key) as int;
    K::before_is_irreflexive(key);
    if sorted(items) {
        lemma_lower_bound_sorted(items, key);
        if found(items, key) {
            assert(items[at].key == key);
        }
        if exists|i: int| 0 <= i < items.len() && (#[trigger] items[i]).key == key {
            let i = choose|i: int| 0 <= i < items.len() && (#[trigger] items[i]).key == key;
            assert(i >= at) by {
                if i < at {
                    assert(items[i].key.before(key));
                }
            }
            if i > at {
                assert(!items[i].key.before(items[at].key));
                assert(!items[at].key.before(key));
                K::before_is_total(items[at].key, key);
            }
        }
    }
}

/// An item that is inserted into a sorted list stands after all smaller keys and before all others,
/// those with the same key among them; the others stay, in their order.
pub proof fn item_is_inserted<K: Key, V>(items: Seq<Item<K, V>>, item: Item<K, V>, at: int)
    requires
        sorted(items),
        0 <= at <= items.len(),
        forall|i: int| 0 <= i < at ==> (#[trigger] items[i]).key.before(item.key),
        forall|i: int| at <= i < items.len() ==> !(#[trigger] items[i]).key.before(item.key),
    ensures
        with_inserted(items, item) == items.insert(at, item),
{
    lemma_place(items, item.key, at);
}

proof fn lemma_place<K: Key, V>(items: Seq<Item<K, V>>, key: K, at: int)
    requires
        0 <= at <= items.len(),
        forall|i: int| 0 <= i < at ==> (#[trigger] items[i]).key.before(key),
        at < items.len() ==> !items[at].key.before(key),
    ensures
        lower_bound(items, key) == at,
{
    lemma_lower_bound(items, key);
    let n = lower_bound(items, key) as int;
    if n < at {
        assert(items[n].key.before(key));
    } else if at < n {
        assert(items[at].key.before(key));
    }
}

/// An item takes the place of the first one with the same key; if there is none, it is inserted.
/// The others stay, in their order.
pub proof fn item_is_replaced<K: Key, V>(items: Seq<Item<K, V>>, item: Item<K, V>, at: int)
    requires
        sorted(items),
        0 <= at < items.len(),
        items[at].key == item.key,
        forall|i: int| 0 <= i < at ==> (#[trigger] items[i]).key != item.key,
    ensures
        with_replaced(items, item) == items.update(at, item),
        with_erased(items, item.key) == items.remove(at),
{
    K::before_is_irreflexive(item.key);
    assert forall|i: int| 0 <= i < at implies (#[trigger] items[i]).key.before(item.key) by {
        assert(!items[at].key.before(items[i].key));
        K::before_is_total(items[i].key, item.key);
    }
    lemma_place(items, item.key, at);
}

/// A key that no item has is inserted where a replacement is asked for, and nothing is erased.
pub proof fn missing_keys_are_inserted<K: Key, V>(items: Seq<Item<K, V>>, item: Item<K, V>)
    requires
        forall|i: int| 0 <= i < items.len() ==> (#[trigger] items[i]).key != item.key,
    ensures
        with_replaced(items, item) == with_inserted(items, item),
        with_erased(items, item.key) == items,
{
    lemma_lower_bound(items, item.key);
}

// -- Readers --

/// A reader that runs while a commit is made goes on: one that stood at the first change or after
/// it reads what it would have read, and one before it reads the new list from where it stands.
/// Without changes, every reader goes on as before.
pub proof fn readers_go_on<K, V>(
    before: SkipListLayer<K, V>,
    writer: SkipListLayerIterMut,
    committed: SkipListLayer<K, V>,
    pending: Option<PendingCommit>,
    reader: SkipListLayerIter,
)
    requires
        committed.after_commit(before, writer, pending),
        reader.valid(before),
    ensures
        ({
            let place = before@.len() - reader.remaining(before).len();
            &&& reader.valid(committed)
            &&& pending is None || place >= writer.start() ==> reader.remaining(committed)
                == reader.remaining(before)
            &&& pending is Some && place < writer.start() ==> reader.remaining(committed)
                == committed@.skip(place)
        }),
{
    if pending is Some {
        assert(committed.committed_for(before, writer.start(), reader));
    } else {
        assert(committed.undisturbed(before, reader));
    }
}

/// As long as a writer has not committed, nothing changes for readers: the list is the same, each
/// of them goes on, and as many are counted in each epoch.
pub proof fn readers_are_kept<K, V>(
    layer: SkipListLayer<K, V>,
    other: SkipListLayer<K, V>,
    reader: SkipListLayerIter,
    epoch: nat,
)
    requires
        layer.keeps_readers(other),
    ensures
        layer@ == other@,
        layer.item_heights() == other.item_heights(),
        layer.epoch() == other.epoch(),
        layer.level_count() == other.level_count(),
        layer.reader_count(epoch) == other.reader_count(epoch),
        reader.valid(other) ==> reader.valid(layer) && reader.remaining(layer) == reader.remaining(
            other,
        ),
{
    assert(layer.undisturbed(other, reader));
    assert(layer.reader_count(epoch) == other.reader_count(epoch));
}

/// A commit with changes switches the epoch, so that no reader that comes is counted with those
/// that were there. The nodes of the old list from the first change up to the writer wait to be
/// freed, as many as were taken out of the list.
pub proof fn commit_switches_epoch<K, V>(
    before: SkipListLayer<K, V>,
    writer: SkipListLayerIterMut,
    committed: SkipListLayer<K, V>,
    pending: PendingCommit,
    epoch: nat,
)
    requires
        committed.after_commit(before, writer, Some(pending)),
    ensures
        committed.wf(),
        committed.committing(),
        pending.valid(committed),
        pending.epoch() == before.epoch(),
        committed.epoch() + before.epoch() == 1,
        committed.reader_count(committed.epoch()) == 0,
        committed.reader_count(epoch) == before.reader_count(epoch),
        committed.level_count() == before.level_count(),
        committed.item_heights() == writer.item_heights(before),
        committed.waiting() == before@.len() - writer.start() - (committed@.len()
            - writer.position()),
{
    assert(committed.reader_count(epoch) == before.reader_count(epoch));
}

// -- What a writer does --

/// An insertion puts the item where the writer stands and moves the writer past it; an erasure
/// takes away the item where the writer stands, if there is one; a move goes past it and leaves the
/// list as it is, or puts a clone in its place once there are changes. The first change stays where
/// it was made, and readers notice nothing.
pub proof fn writers_change_one_item<K, V: Clone>(
    from: State<K, V>,
    to: State<K, V>,
    item: Item<K, V>,
)
    ensures
        ({
            let at = from.iter.position() as int;
            let items = from.iter.items(from.layer);
            let after = to.iter.items(to.layer);
            &&& to.iter.after_insert(to.layer, from.iter, from.layer, item) ==> after
                == items.insert(at, item) && to.iter.position() == at + 1 && to.iter.changed()
                && to.layer@ == from.layer@
            &&& to.iter.after_erase(to.layer, from.iter, from.layer) && at < items.len() ==> after
                == items.remove(at) && to.iter.position() == at && to.iter.changed() && to.layer@
                == from.layer@
            &&& to.iter.after_erase(to.layer, from.iter, from.layer) && at >= items.len()
                ==> after == items && to.iter.position() == at && to.iter.changed()
                == from.iter.changed()
            &&& to.iter.after_advance(to.layer, from.iter, from.layer) && at < items.len()
                ==> to.iter.position() == at + 1 && after.len() == items.len() && (forall|i: int|
                0 <= i < items.len() && i != at ==> #[trigger] after[i] == items[i])
                && after[at].key == items[at].key && (after[at].value == items[at].value
                || vstd::pervasive::cloned(items[at].value, after[at].value)) && to.layer@
                == from.layer@
            &&& to.iter.after_advance(to.layer, from.iter, from.layer) && at >= items.len()
                ==> to.iter.position() == at && after == items
            &&& to.iter.after_advance(to.layer, from.iter, from.layer) && !from.iter.changed()
                ==> after == items && !to.iter.changed() && to.iter.start() == to.iter.position()
            &&& to.iter.after_advance(to.layer, from.iter, from.layer) && from.iter.changed()
                ==> to.iter.changed() && to.iter.start() == from.iter.start()
            &&& to.iter.after_insert(to.layer, from.iter, from.layer, item) || to.iter.after_erase(
                to.layer,
                from.iter,
                from.layer,
            ) ==> to.iter.start() == from.iter.start()
            &&& to.iter.after_erase(to.layer, from.iter, from.layer) ==> to.iter.item_heights(
                to.layer,
            ) == if at < items.len() {
                from.iter.item_heights(from.layer).remove(at)
            } else {
                from.iter.item_heights(from.layer)
            }
            &&& to.iter.after_insert(to.layer, from.iter, from.layer, item) || to.iter.after_erase(
                to.layer,
                from.iter,
                from.layer,
            ) || to.iter.after_advance(to.layer, from.iter, from.layer) ==> to.iter.wf(to.layer)
                && to.layer.keeps_readers(from.layer)
        }),
{
}

// -- Heights --

/// Every number of levels from one to all can be drawn, and no other.
pub proof fn heights_that_are_drawn(max: nat, height: nat)
    requires
        max > 0,
    ensures
        drawn(max, height) <==> 1 <= height <= max,
{
    if 1 <= height <= max {
        if height == max {
            lemma_pow2_grows(1, max);
            assert(pow2(1) == 2) by {
                reveal_with_fuel(pow2, 2);
            }
            small_logarithms_are_exact(0);
            assert(pointer_count(max, 0) == max);
        } else {
            let k = (max - height) as nat;
            single_precision_is_close(1, 1, k);
            lemma_pow2_grows(k, (max - 1) as nat);
            assert(pow2(max) == 2 * pow2((max - 1) as nat));
            lemma_pow2_grows(1, (max - 1) as nat);
            assert(pow2(1) == 2) by {
                reveal_with_fuel(pow2, 2);
            }
            assert(pointer_count(max, pow2(k)) == height);
        }
    }
}

/// Each level has half the nodes of the one below: of the numbers that are drawn, those below
/// `2^(max - height + 1)` give a node that is as high as `height`. A smaller number never gives a
/// lower node.
pub proof fn heights_halve(max: nat, draw: nat, height: nat, less: nat)
    requires
        draw > 0,
        2 <= height <= max,
        0 < less <= draw,
    ensures
        draw < 0x1f_ffff ==> (pointer_count(max, draw) >= height <==> draw < pow2(
            (max - height + 1) as nat,
        )),
        pointer_count(max, less) >= pointer_count(max, draw),
        1 <= pointer_count(max, draw) <= max,
{
    single_precision_is_close(less, draw, 0);
    if draw < 0x1f_ffff {
        small_logarithms_are_exact(draw);
        log2_bounds(draw);
        let l = log2(draw);
        let e = (max - height + 1) as nat;
        if l < e {
            lemma_pow2_grows(l + 1, e);
        } else {
            lemma_pow2_grows(e, l);
        }
    }
}

} // verus!
