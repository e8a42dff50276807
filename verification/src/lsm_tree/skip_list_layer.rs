//! A skip list that one writer can change while readers walk over it.
//!
//! The writer builds a chain of new nodes beside the list and splices it in when it commits. The
//! nodes that the commit takes out stay where they are until the readers that might still be on
//! them are gone: readers are counted in two epochs, and a commit moves new readers to the other
//! epoch.

use crate::lsm_tree::levels::{
    elem, last_of, lemma_tall_add, lemma_tall_agree, lemma_tall_all, lemma_tall_contains,
    lemma_tall_first, lemma_tall_no_duplicates, lemma_tall_push, tall,
};
use crate::lsm_tree::types::{
    lemma_lower_bound, lemma_lower_bound_sorted, lower_bound, sorted, start_of, Bound, Item,
    ItemRef, Key,
};
use crate::math::{lemma_pow2_grows, pow2, single_log2, single_precision_log2};
use crate::random::draw_below;
use vstd::prelude::*;

verus! {

/// The pointers of a node, or of the head of the list. The pointer at index 0 belongs to the chain
/// that holds every node.
pub struct PointerList {
    list: Vec<Option<usize>>,
}

impl PointerList {
    pub closed spec fn view(&self) -> Seq<Option<usize>> {
        self.list@
    }

    /// Creates a list of `count` pointers that point nowhere.
    pub fn new(count: usize) -> (result: Self)
        ensures
            result@.len() == count,
            forall|i: int| 0 <= i < count ==> result@[i] is None,
    {
        let mut list: Vec<Option<usize>> = Vec::new();
        for i in 0..count
            invariant
                list@.len() == i,
                forall|j: int| 0 <= j < i ==> list@[j] is None,
        {
            list.push(None);
        }
        PointerList { list }
    }

    pub fn len(&self) -> (result: usize)
        ensures
            result == self@.len(),
    {
        self.list.len()
    }

    /// The pointer at the given index.
    pub fn get(&self, index: usize) -> (result: Option<usize>)
        requires
            index < self@.len(),
        ensures
            result == self@[index as int],
    {
        self.list[index]
    }

    /// Sets the pointer at the given index.
    pub fn set(&mut self, index: usize, node: Option<usize>)
        requires
            index < old(self)@.len(),
        ensures
            final(self)@ == old(self)@.update(index as int, node),
    {
        self.list[index] = node;
    }
}

/// A node of the list.
pub struct SkipListNode<K, V> {
    item: Item<K, V>,
    pointers: PointerList,
}

/// The counts of the readers in each of the two epochs.
pub struct ReadCounts {
    /// The epoch that new readers join.
    epoch: usize,
    /// How many readers are in each epoch.
    counts: [u16; 2],
}

impl ReadCounts {
    /// Makes the counts without readers.
    fn new() -> (result: Self)
        ensures
            result.epoch == 0,
            result.counts@ == seq![0u16, 0u16],
    {
        let result = ReadCounts { epoch: 0, counts: [0, 0] };
        assert(result.counts@ =~= seq![0u16, 0u16]);
        result
    }
}

/// What the layer is doing.
pub enum Phase {
    /// There is no writer.
    Idle,
    /// A writer has an iterator.
    Writing,
    /// The writer waits for the readers of the past epoch.
    Committing,
}

/// What is known of a layer besides what it stores.
pub struct LayerModel {
    /// The nodes that can be reached at each level.
    pub levels: Seq<Seq<usize>>,
    /// The nodes that were taken out and that readers might still be on.
    pub dying: Seq<usize>,
    /// The node that follows those.
    pub dying_next: Option<usize>,
    pub phase: Phase,
    /// The readers, each with its epoch.
    pub readers: Map<nat, nat>,
    /// No reader has this name, or a greater one.
    pub next_reader: nat,
}

/// A skip list.
pub struct SkipListLayer<K, V> {
    /// The nodes, each at its slot.
    nodes: Vec<Option<SkipListNode<K, V>>>,
    /// The empty slots.
    free: Vec<usize>,
    /// The head of the list.
    pointers: PointerList,
    read_counts: ReadCounts,
    model: Ghost<LayerModel>,
}

/// The slot at `index`, as the start of a link.
spec fn src(s: Seq<usize>, index: int) -> Option<usize> {
    elem(s, index)
}

/// The readers of the given epoch.
spec fn readers_in(readers: Map<nat, nat>, epoch: nat) -> Set<nat> {
    readers.dom().filter(|id: nat| readers[id] == epoch)
}

impl<K, V> SkipListLayer<K, V> {
    spec fn alive(self, n: usize) -> bool {
        n < self.nodes@.len() && self.nodes@[n as int] is Some
    }

    spec fn node(self, n: usize) -> SkipListNode<K, V> {
        self.nodes@[n as int]->0
    }

    spec fn heights(self) -> Seq<nat> {
        Seq::new(
            self.nodes@.len(),
            |i: int|
                match self.nodes@[i] {
                    Some(node) => node.pointers@.len(),
                    None => 0,
                },
        )
    }

    /// Can a link at `level` start at `at`? Nothing stands for the head of the list.
    spec fn has_link(self, at: Option<usize>, level: int) -> bool {
        match at {
            None => 0 <= level < self.pointers@.len(),
            Some(n) => self.alive(n) && 0 <= level < self.node(n).pointers@.len(),
        }
    }

    spec fn next(self, at: Option<usize>, level: int) -> Option<usize> {
        match at {
            None => self.pointers@[level],
            Some(n) => self.node(n).pointers@[level],
        }
    }

    spec fn items_of(self, s: Seq<usize>) -> Seq<Item<K, V>> {
        Seq::new(s.len(), |i: int| self.node(s[i]).item)
    }

    spec fn heights_of(self, s: Seq<usize>) -> Seq<nat> {
        Seq::new(s.len(), |i: int| self.node(s[i]).pointers@.len())
    }

    /// On how many levels each item of the list is linked.
    pub closed spec fn item_heights(self) -> Seq<nat> {
        self.heights_of(self.chain())
    }

    /// Following the links from the head visits exactly `s`.
    spec fn linked(self, level: int, s: Seq<usize>) -> bool {
        forall|j: int| -1 <= j < s.len() ==> self.next(#[trigger] src(s, j), level) == elem(s, j + 1)
    }

    /// Following the links from the first slot of `s` visits `s` and leads to `to`.
    spec fn tail_linked(self, level: int, s: Seq<usize>, to: Option<usize>) -> bool {
        forall|j: int|
            0 <= j < s.len() ==> self.next(#[trigger] src(s, j), level) == if j + 1 < s.len() {
                Some(s[j + 1])
            } else {
                to
            }
    }

    /// Every slot of `s` holds a node that reaches `level`.
    spec fn all_reach(self, s: Seq<usize>, level: int) -> bool {
        forall|j: int| 0 <= j < s.len() ==> self.has_link(Some(#[trigger] s[j]), level)
    }

    spec fn levels(self) -> Seq<Seq<usize>> {
        self.model@.levels
    }

    spec fn chain(self) -> Seq<usize> {
        self.model@.levels[0]
    }

    spec fn slots_wf(self) -> bool {
        &&& 0 < self.pointers@.len() == self.levels().len()
        &&& forall|n: usize| #[trigger]
            self.alive(n) ==> 1 <= self.node(n).pointers@.len() <= self.pointers@.len()
        &&& self.free@.no_duplicates()
        &&& forall|k: int|
            0 <= k < self.free@.len() ==> (#[trigger] self.free@[k]) < self.nodes@.len()
                && self.nodes@[self.free@[k] as int] is None
        &&& forall|n: usize|
            n < self.nodes@.len() && !(#[trigger] self.alive(n)) ==> self.free@.contains(n)
    }

    spec fn level_wf(self, level: int) -> bool {
        let s = self.levels()[level];
        &&& self.linked(level, s)
        &&& s.no_duplicates()
        &&& self.all_reach(s, level)
        &&& level > 0 ==> forall|j: int|
            0 <= j < s.len() ==> self.levels()[level - 1].contains(#[trigger] s[j])
    }

    spec fn levels_wf(self) -> bool {
        forall|level: int| 0 <= level < self.levels().len() ==> #[trigger] self.level_wf(level)
    }

    spec fn dying_wf(self) -> bool {
        let dying = self.model@.dying;
        let dying_next = self.model@.dying_next;
        &&& self.tail_linked(0, dying, dying_next)
        &&& dying.no_duplicates()
        &&& self.all_reach(dying, 0)
        &&& forall|j: int| 0 <= j < dying.len() ==> !self.chain().contains(#[trigger] dying[j])
        &&& dying_next is Some ==> self.chain().contains(dying_next->0)
    }

    spec fn readers_wf(self) -> bool {
        let readers = self.model@.readers;
        &&& readers.dom().finite()
        &&& forall|id: nat| #[trigger] readers.dom().contains(id) ==> id < self.model@.next_reader
        &&& self.read_counts.epoch <= 1
        &&& readers_in(readers, 0).len() == self.read_counts.counts@[0]
        &&& readers_in(readers, 1).len() == self.read_counts.counts@[1]
        &&& self.model@.phase !is Committing ==> self.read_counts.counts@[1
            - self.read_counts.epoch as int] == 0
    }

    /// Each level holds exactly the nodes that are high enough, and every node is in the list or
    /// dying.
    spec fn settled(self) -> bool {
        &&& forall|level: int|
            0 <= level < self.levels().len() ==> #[trigger] self.levels()[level] == tall(
                self.heights(),
                self.chain(),
                level,
            )
        &&& forall|n: usize| #[trigger]
            self.alive(n) ==> self.chain().contains(n) || self.model@.dying.contains(n)
    }

    /// The layer's invariant.
    pub closed spec fn wf(self) -> bool {
        &&& self.slots_wf()
        &&& self.levels_wf()
        &&& self.dying_wf()
        &&& self.readers_wf()
        &&& self.model@.phase !is Committing ==> self.model@.dying.len() == 0
        &&& self.model@.phase !is Writing ==> self.settled()
    }

    /// There is no writer.
    pub closed spec fn idle(self) -> bool {
        self.model@.phase is Idle
    }

    /// A writer has an iterator.
    pub closed spec fn writing(self) -> bool {
        self.model@.phase is Writing
    }

    /// A commit waits for readers.
    pub closed spec fn committing(self) -> bool {
        self.model@.phase is Committing
    }

    /// The epoch that new readers join.
    pub closed spec fn epoch(self) -> nat {
        self.read_counts.epoch as nat
    }

    /// The number of readers in an epoch.
    pub closed spec fn reader_count(self, epoch: nat) -> nat {
        readers_in(self.model@.readers, epoch).len()
    }

    /// The number of nodes that are out of the list and not freed yet.
    pub closed spec fn waiting(self) -> nat {
        self.model@.dying.len()
    }

    /// The number of levels.
    pub closed spec fn level_count(self) -> nat {
        self.pointers@.len()
    }

    /// The items in the list, as a reader that starts now finds them.
    pub closed spec fn view(&self) -> Seq<Item<K, V>> {
        self.items_of(self.chain())
    }

    /// The nodes that a reader on `at` has still to visit.
    spec fn tail_from(self, at: Option<usize>) -> Seq<usize> {
        match at {
            None => Seq::empty(),
            Some(n) => if self.chain().contains(n) {
                self.chain().skip(self.chain().index_of(n))
            } else {
                self.model@.dying.skip(self.model@.dying.index_of(n))
                    + match self.model@.dying_next {
                    None => Seq::empty(),
                    Some(m) => self.chain().skip(self.chain().index_of(m)),
                }
            },
        }
    }

    /// Everything but the links is the same in both layers.
    spec fn same_shape(self, other: Self) -> bool {
        &&& self.nodes@.len() == other.nodes@.len()
        &&& self.free == other.free
        &&& self.pointers@.len() == other.pointers@.len()
        &&& self.read_counts == other.read_counts
        &&& self.model == other.model
        &&& self.heights() == other.heights()
        &&& forall|n: usize| #[trigger] self.alive(n) == other.alive(n)
        &&& forall|n: usize| #[trigger]
            self.alive(n) ==> self.node(n).item == other.node(n).item && self.node(
                n,
            ).pointers@.len() == other.node(n).pointers@.len()
        &&& forall|r: Option<usize>, i: int|
            #![trigger self.has_link(r, i)]
            #![trigger other.has_link(r, i)]
            self.has_link(r, i) == other.has_link(r, i)
    }

    /// Everything but the one link is the same in both layers.
    spec fn same_but(self, other: Self, at: Option<usize>, level: int) -> bool {
        &&& self.same_shape(other)
        &&& forall|r: Option<usize>, i: int|
            #![trigger self.next(r, i)]
            #![trigger other.has_link(r, i)]
            (r != at || i != level) && other.has_link(r, i) ==> self.next(r, i) == other.next(r, i)
    }

    /// Reads a link.
    fn pointer(&self, at: Option<usize>, level: usize) -> (result: Option<usize>)
        requires
            self.has_link(at, level as int),
        ensures
            result == self.next(at, level as int),
    {
        match at {
            None => self.pointers.get(level),
            Some(n) => match &self.nodes[n] {
                Some(node) => node.pointers.get(level),
                None => None,
            },
        }
    }

    /// Changes a link.
    fn set_pointer(&mut self, at: Option<usize>, level: usize, to: Option<usize>)
        requires
            old(self).has_link(at, level as int),
        ensures
            final(self).same_but(*old(self), at, level as int),
            final(self).next(at, level as int) == to,
    {
        match at {
            None => {
                self.pointers.set(level, to);
            },
            Some(n) => {
                match &mut self.nodes[n] {
                    Some(node) => {
                        node.pointers.set(level, to);
                    },
                    None => {},
                }
            },
        }
        assert(self.heights() =~= old(self).heights());
    }
}

/// The number of pointers of a node for a number that was drawn from below `2^max - 1`: each
/// number of pointers is half as likely as the one before it.
pub open spec fn pointer_count(max: nat, draw: nat) -> nat {
    let l = single_log2(draw);
    if l < max - 1 {
        (max - l) as nat
    } else {
        1
    }
}

/// Some draw gives a node this height: one below `2^max - 1`, where `max` levels are there.
pub open spec fn drawn(max: nat, height: nat) -> bool {
    exists|draw: nat| draw + 1 < pow2(max) && height == #[trigger] pointer_count(max, draw)
}

/// Computes the number of pointers of a node.
pub fn pointer_count_for(max: usize, draw: u32) -> (result: usize)
    requires
        max > 0,
    ensures
        result == pointer_count(max as nat, draw as nat),
        1 <= result <= max,
{
    let l: usize = single_precision_log2(draw as usize);
    if l < max - 1 {
        max - l
    } else {
        1
    }
}

impl<K, V> SkipListLayer<K, V> {
    /// Creates an empty list with levels enough for about `max_item_count` items.
    pub fn new(max_item_count: usize) -> (result: Self)
        ensures
            result.wf(),
            result.idle(),
            result@ == Seq::<Item<K, V>>::empty(),
            result.level_count() == single_log2(max_item_count as nat) + 1,
            result.reader_count(0) == 0,
            result.reader_count(1) == 0,
            result.epoch() == 0,
    {
        let count: usize = single_precision_log2(max_item_count) + 1;
        let result = SkipListLayer {
            nodes: Vec::new(),
            free: Vec::new(),
            pointers: PointerList::new(count),
            read_counts: ReadCounts::new(),
            model: Ghost(
                LayerModel {
                    levels: Seq::new(count as nat, |i: int| Seq::<usize>::empty()),
                    dying: Seq::empty(),
                    dying_next: None,
                    phase: Phase::Idle,
                    readers: Map::empty(),
                    next_reader: 0,
                },
            ),
        };
        proof {
            assert(readers_in(result.model@.readers, 0) =~= Set::empty());
            assert(readers_in(result.model@.readers, 1) =~= Set::empty());
            assert forall|level: int| 0 <= level < result.levels().len() implies #[trigger]
                result.level_wf(level) by {
                let s = result.levels()[level];
                assert forall|j: int| -1 <= j < s.len() implies result.next(
                    #[trigger] src(s, j),
                    level,
                ) == elem(s, j + 1) by {
                    assert(src(s, j) is None);
                }
            }
            assert(result@ =~= Seq::empty());
        }
        result
    }

    /// The nodes other than `n` are the same in both layers.
    spec fn same_but_node(self, other: Self, n: usize) -> bool {
        &&& self.pointers == other.pointers
        &&& self.read_counts == other.read_counts
        &&& self.model == other.model
        &&& self.nodes@.len() >= other.nodes@.len()
        &&& forall|m: usize|
            m != n ==> #[trigger] self.alive(m) == other.alive(m) && (self.alive(m) ==> self.node(m)
                == other.node(m))
    }

    /// Puts a node with `pointer_count` pointers into an empty slot.
    fn alloc_node(&mut self, item: Item<K, V>, pointer_count: usize) -> (result: usize)
        requires
            old(self).slots_wf(),
            1 <= pointer_count <= old(self).pointers@.len(),
        ensures
            final(self).slots_wf(),
            final(self).same_but_node(*old(self), result),
            !old(self).alive(result),
            final(self).alive(result),
            final(self).node(result).item == item,
            final(self).node(result).pointers@.len() == pointer_count,
    {
        let node = SkipListNode { item, pointers: PointerList::new(pointer_count) };
        match self.free.pop() {
            Some(n) => {
                self.nodes[n] = Some(node);
                proof {
                    let before = old(self).free@;
                    assert(before[before.len() - 1] == n);
                    assert forall|m: usize|
                        m < self.nodes@.len() && !(#[trigger] self.alive(
                            m,
                        )) implies self.free@.contains(m) by {
                        assert(!old(self).alive(m));
                        let k = choose|k: int| 0 <= k < before.len() && before[k] == m;
                        assert(self.free@[k] == m);
                    }
                    assert forall|m: usize| #[trigger] self.alive(m) implies 1 <= self.node(
                        m,
                    ).pointers@.len() <= self.pointers@.len() by {
                        assert(m != n ==> old(self).alive(m));
                    }
                    assert forall|k: int| 0 <= k < self.free@.len() implies (
                    #[trigger] self.free@[k]) < self.nodes@.len() && self.nodes@[self.free@[k] as int] is None by {
                        assert(self.free@[k] == before[k]);
                    }
                }
                n
            },
            None => {
                let n: usize = self.nodes.len();
                self.nodes.push(Some(node));
                proof {
                    assert forall|m: usize| #[trigger] self.alive(m) implies 1 <= self.node(
                        m,
                    ).pointers@.len() <= self.pointers@.len() by {
                        assert(m != n ==> old(self).alive(m));
                    }
                    assert forall|m: usize|
                        m < self.nodes@.len() && !(#[trigger] self.alive(
                            m,
                        )) implies self.free@.contains(m) by {
                        assert(!old(self).alive(m));
                    }
                }
                n
            },
        }
    }

    /// Empties a slot and returns the node that followed.
    fn free_node(&mut self, n: usize) -> (result: Option<usize>)
        requires
            old(self).slots_wf(),
            old(self).alive(n),
        ensures
            final(self).slots_wf(),
            final(self).same_but_node(*old(self), n),
            !final(self).alive(n),
            result == old(self).next(Some(n), 0),
    {
        let result = self.pointer(Some(n), 0);
        self.nodes[n] = None;
        self.free.push(n);
        proof {
            assert forall|m: usize| #[trigger] self.alive(m) implies 1 <= self.node(
                        m,
                    ).pointers@.len() <= self.pointers@.len() by {
                        assert(m != n ==> old(self).alive(m));
                    }
            let before = old(self).free@;
            assert forall|m: usize|
                m < self.nodes@.len() && !(#[trigger] self.alive(m)) implies self.free@.contains(
                m,
            ) by {
                if m == n {
                    assert(self.free@[before.len() as int] == n);
                } else {
                    assert(!old(self).alive(m));
                    let k = choose|k: int| 0 <= k < before.len() && before[k] == m;
                    assert(self.free@[k] == m);
                }
            }
            assert forall|k: int| 0 <= k < self.free@.len() implies (
            #[trigger] self.free@[k]) < self.nodes@.len() && self.nodes@[self.free@[k] as int] is None by {
                if k < before.len() {
                    assert(self.free@[k] == before[k]);
                }
            }
        }
        result
    }
}

// -- SkipListLayerIter --

/// A reader's place in the list.
pub struct SkipListLayerIter {
    /// The epoch that the reader is counted in.
    epoch: usize,
    /// The current node.
    node: Option<usize>,
    /// The reader's name.
    id: Ghost<nat>,
}

impl SkipListLayerIter {
    /// The reader is one of the layer's, and its place can be read.
    pub closed spec fn valid<K, V>(self, layer: SkipListLayer<K, V>) -> bool {
        &&& layer.model@.readers.dom().contains(self.id@)
        &&& layer.model@.readers[self.id@] == self.epoch
        &&& self.epoch <= 1
        &&& match self.node {
            None => true,
            Some(n) => {
                ||| layer.chain().contains(n)
                ||| {
                    &&& layer.committing()
                    &&& self.epoch != layer.epoch()
                    &&& layer.model@.dying.contains(n)
                }
            },
        }
    }

    /// The items that the reader has still to read, the current one first.
    pub closed spec fn remaining<K, V>(self, layer: SkipListLayer<K, V>) -> Seq<Item<K, V>> {
        layer.items_of(layer.tail_from(self.node))
    }

    /// The reader's name.
    pub closed spec fn id(self) -> nat {
        self.id@
    }

    /// The epoch that the reader is counted in.
    pub closed spec fn epoch(self) -> nat {
        self.epoch as nat
    }
}

impl<K, V> SkipListLayer<K, V> {
    /// Both layers hold the same list and the same writer; their readers may differ.
    pub closed spec fn same_list(self, other: Self) -> bool {
        &&& self.nodes == other.nodes
        &&& self.free == other.free
        &&& self.pointers == other.pointers
        &&& self.read_counts.epoch == other.read_counts.epoch
        &&& self.model@.levels == other.model@.levels
        &&& self.model@.dying == other.model@.dying
        &&& self.model@.dying_next == other.model@.dying_next
        &&& self.model@.phase == other.model@.phase
    }

    /// The reader `iter` reads the same in both layers.
    pub open spec fn undisturbed(self, old_layer: Self, iter: SkipListLayerIter) -> bool {
        iter.valid(old_layer) ==> iter.valid(self) && iter.remaining(self) == iter.remaining(
            old_layer,
        )
    }

    /// What a reader sees when it goes on from a node.
    proof fn lemma_tail_step(self, n: usize)
        requires
            self.wf(),
            self.chain().contains(n) || self.model@.dying.contains(n),
        ensures
            self.has_link(Some(n), 0),
            self.tail_from(Some(n)) == seq![n] + self.tail_from(self.next(Some(n), 0)),
            self.next(Some(n), 0) is Some ==> self.chain().contains(self.next(Some(n), 0)->0) || (
            !self.chain().contains(n) && self.model@.dying.contains(self.next(Some(n), 0)->0)),
    {
        let chain = self.chain();
        let dying = self.model@.dying;
        assert(self.level_wf(0));
        if chain.contains(n) {
            let k = chain.index_of(n);
            assert(chain[k] == n);
            assert(src(chain, k) == Some(n));
            let next = self.next(Some(n), 0);
            assert(next == elem(chain, k + 1));
            if k + 1 < chain.len() {
                assert(chain[k + 1] == next->0);
                assert(chain.index_of(next->0) == k + 1);
                assert(chain.skip(k) =~= seq![n] + chain.skip(k + 1));
            } else {
                assert(chain.skip(k) =~= seq![n]);
                assert(seq![n] + Seq::<usize>::empty() =~= seq![n]);
            }
        } else {
            let k = dying.index_of(n);
            assert(dying[k] == n);
            assert(src(dying, k) == Some(n));
            let next = self.next(Some(n), 0);
            if k + 1 < dying.len() {
                assert(dying[k + 1] == next->0);
                assert(dying.index_of(next->0) == k + 1);
                assert(!chain.contains(dying[k + 1]));
                let rest = match self.model@.dying_next {
                    None => Seq::empty(),
                    Some(m) => chain.skip(chain.index_of(m)),
                };
                assert(dying.skip(k) + rest =~= seq![n] + (dying.skip(k + 1) + rest));
            } else {
                assert(next == self.model@.dying_next);
                let rest = match self.model@.dying_next {
                    None => Seq::empty(),
                    Some(m) => chain.skip(chain.index_of(m)),
                };
                assert(dying.skip(k) + rest =~= seq![n] + rest);
            }
        }
    }

    proof fn lemma_items_cons(self, n: usize, rest: Seq<usize>)
        ensures
            self.items_of(seq![n] + rest) == seq![self.node(n).item] + self.items_of(rest),
    {
        let all = seq![n] + rest;
        assert forall|i: int| 0 <= i < all.len() implies self.items_of(all)[i] == (seq![
            self.node(n).item,
        ] + self.items_of(rest))[i] by {
            if i > 0 {
                assert(all[i] == rest[i - 1]);
            }
        }
        assert(self.items_of(all) =~= seq![self.node(n).item] + self.items_of(rest));
    }

    /// Borrows the reader's current item.
    pub fn get(&self, iter: &SkipListLayerIter) -> (result: Option<ItemRef<'_, K, V>>)
        requires
            self.wf(),
            iter.valid(*self),
        ensures
            result is Some <==> iter.remaining(*self).len() > 0,
            result is Some ==> result->0.item() == iter.remaining(*self)[0],
    {
        match iter.node {
            None => None,
            Some(n) => {
                proof {
                    self.lemma_tail_step(n);
                }
                match &self.nodes[n] {
                    Some(node) => Some(node.item.as_item_ref()),
                    None => None,
                }
            },
        }
    }

    /// Moves the reader to the next item; does nothing at the end.
    pub fn advance(&self, iter: &mut SkipListLayerIter)
        requires
            self.wf(),
            old(iter).valid(*self),
        ensures
            final(iter).valid(*self),
            final(iter).id() == old(iter).id(),
            final(iter).epoch() == old(iter).epoch(),
            final(iter).remaining(*self) == if old(iter).remaining(*self).len() > 0 {
                old(iter).remaining(*self).drop_first()
            } else {
                old(iter).remaining(*self)
            },
    {
        match iter.node {
            None => {},
            Some(n) => {
                proof {
                    self.lemma_tail_step(n);
                    let rest = self.tail_from(self.next(Some(n), 0));
                    self.lemma_items_cons(n, rest);
                    assert((seq![self.node(n).item] + self.items_of(rest)).drop_first()
                        =~= self.items_of(rest));
                }
                iter.node = self.pointer(Some(n), 0);
            },
        }
    }

    /// Ends a reader. Tells whether it was the last one that a commit waits for.
    pub fn release(&mut self, iter: SkipListLayerIter) -> (result: bool)
        requires
            old(self).wf(),
            iter.valid(*old(self)),
        ensures
            final(self).wf(),
            final(self).same_list(*old(self)),
            final(self)@ == old(self)@,
            final(self).item_heights() == old(self).item_heights(),
            final(self).reader_count(iter.epoch()) == old(self).reader_count(iter.epoch()) - 1,
            forall|e: nat|
                e != iter.epoch() ==> #[trigger] final(self).reader_count(e)
                    == old(self).reader_count(e),
            result <==> iter.epoch() != old(self).epoch() && final(self).reader_count(iter.epoch())
                == 0,
            forall|r: SkipListLayerIter|
                r.id() != iter.id() ==> #[trigger] final(self).undisturbed(*old(self), r),
            forall|r: SkipListLayerIter|
                r.id() == iter.id() ==> !(#[trigger] r.valid(*final(self))),
    {
        let epoch: usize = iter.epoch;
        let ghost readers = self.model@.readers;
        let ghost after = readers.remove(iter.id@);
        proof {
            let set = readers_in(readers, epoch as nat);
            assert(set.contains(iter.id@));
            assert(readers_in(after, epoch as nat) =~= set.remove(iter.id@));
            assert forall|e: nat| e != epoch implies #[trigger] readers_in(after, e) == readers_in(
                readers,
                e,
            ) by {
                assert(readers_in(after, e) =~= readers_in(readers, e));
            }
        }
        let left: u16 = self.read_counts.counts[epoch] - 1;
        self.read_counts.counts[epoch] = left;
        self.model = Ghost(LayerModel { readers: after, ..self.model@ });
        proof {
            assert(self.levels_wf()) by {
                assert forall|level: int| 0 <= level < self.levels().len() implies #[trigger]
                    self.level_wf(level) by {
                    assert(old(self).level_wf(level));
                }
            }
            assert(self.heights() =~= old(self).heights());
            assert(forall|n: usize| self.alive(n) == old(self).alive(n));
            assert forall|r: SkipListLayerIter| r.id() != iter.id() implies #[trigger]
                self.undisturbed(*old(self), r) by {
                assert(self.items_of(self.tail_from(r.node)) =~= old(self).items_of(
                    old(self).tail_from(r.node),
                ));
            }
            assert(self@ =~= old(self)@);
            assert(self.item_heights() =~= old(self).item_heights());
        }
        left == 0 && self.read_counts.epoch != epoch
    }
}

impl<K: Key, V> SkipListLayer<K, V> {
    /// Finds the last node before `key` by going down the levels. Nothing stands for the head.
    fn find(&self, key: &K) -> (result: Option<usize>)
        requires
            self.wf(),
        ensures
            result is Some ==> self.chain().contains(result->0),
            sorted(self@) ==> result == last_of(
                self.chain().take(lower_bound(self@, *key) as int),
            ) && lower_bound(self@, *key) <= self.chain().len(),
    {
        let mut index: usize = self.pointers.len() - 1;
        let mut at: Option<usize> = None;
        let ghost mut pos: int = -1;
        assert(src(self.levels()[index as int], -1) is None);
        loop
            invariant
                self.wf(),
                index < self.levels().len(),
                -1 <= pos < self.levels()[index as int].len(),
                at == src(self.levels()[index as int], pos),
                at is Some ==> self.node(at->0).item.key.before(*key),
            ensures
                index == 0,
                -1 <= pos < self.chain().len(),
                at == elem(self.chain(), pos),
                at is Some ==> self.node(at->0).item.key.before(*key),
                pos + 1 < self.chain().len() ==> !self.node(
                    self.chain()[pos + 1],
                ).item.key.before(*key),
            decreases index, self.levels()[index as int].len() - pos,
        {
            assert(self.level_wf(index as int));
            let ghost level = self.levels()[index as int];
            assert(at is Some ==> self.has_link(Some(level[pos]), index as int));
            let next = self.pointer(at, index);
            assert(next == elem(level, pos + 1));
            let mut go_on = false;
            if let Some(n) = next {
                assert(self.has_link(Some(level[pos + 1]), index as int));
                match &self.nodes[n] {
                    Some(node) => {
                        go_on = node.item.key.is_before(key);
                    },
                    None => {},
                }
            }
            if go_on {
                at = next;
                proof {
                    pos = pos + 1;
                }
            } else if index == 0 {
                break ;
            } else {
                index = index - 1;
                proof {
                    let below = self.levels()[index as int];
                    if at is None {
                        pos = -1;
                        assert(src(below, -1) is None);
                    } else {
                        assert(below.contains(level[pos]));
                        pos = below.index_of(at->0);
                    }
                }
            }
        }
        proof {
            if sorted(self@) {
                let items = self@;
                lemma_lower_bound(items, *key);
                lemma_lower_bound_sorted(items, *key);
                let lb = lower_bound(items, *key) as int;
                if pos >= 0 {
                    assert(items[pos].key.before(*key));
                }
                if pos + 1 < items.len() {
                    assert(!items[pos + 1].key.before(*key));
                }
                assert(pos + 1 == lb);
                assert(last_of(self.chain().take(lb)) == elem(self.chain(), pos));
            }
        }
        at
    }

    /// The number of readers in the epoch that new readers join.
    pub fn readers(&self) -> (result: u16)
        requires
            self.wf(),
        ensures
            result == self.reader_count(self.epoch()),
    {
        self.read_counts.counts[self.read_counts.epoch]
    }

    /// Starts a reader.
    pub fn seek(&mut self, bound: Bound<'_, K>) -> (result: SkipListLayerIter)
        requires
            old(self).wf(),
            bound !is Excluded,
            old(self).reader_count(old(self).epoch()) < u16::MAX,
        ensures
            final(self).wf(),
            final(self).same_list(*old(self)),
            final(self)@ == old(self)@,
            final(self).item_heights() == old(self).item_heights(),
            result.valid(*final(self)),
            result.epoch() == old(self).epoch(),
            bound is Unbounded || sorted(old(self)@) ==> result.remaining(*final(self))
                == old(self)@.skip(start_of(old(self)@, bound) as int),
            final(self).reader_count(old(self).epoch()) == old(self).reader_count(
                old(self).epoch(),
            ) + 1,
            forall|e: nat|
                e != old(self).epoch() ==> #[trigger] final(self).reader_count(e)
                    == old(self).reader_count(e),
            forall|r: SkipListLayerIter|
                r.valid(*old(self)) ==> r.id() != result.id()
                    && #[trigger] final(self).undisturbed(*old(self), r),
    {
        let epoch: usize = self.read_counts.epoch;
        let ghost id = self.model@.next_reader;
        let ghost readers = self.model@.readers;
        let ghost after = readers.insert(id, epoch as nat);
        proof {
            let set = readers_in(readers, epoch as nat);
            assert(!set.contains(id));
            assert(readers_in(after, epoch as nat) =~= set.insert(id));
            assert forall|e: nat| e != epoch implies #[trigger] readers_in(after, e) == readers_in(
                readers,
                e,
            ) by {
                assert(readers_in(after, e) =~= readers_in(readers, e));
            }
        }
        let count: u16 = self.read_counts.counts[epoch] + 1;
        self.read_counts.counts[epoch] = count;
        self.model = Ghost(LayerModel { readers: after, next_reader: id + 1, ..self.model@ });
        proof {
            assert(self.levels_wf()) by {
                assert forall|level: int| 0 <= level < self.levels().len() implies #[trigger]
                    self.level_wf(level) by {
                    assert(old(self).level_wf(level));
                }
            }
            assert(self.heights() =~= old(self).heights());
            assert(forall|n: usize| self.alive(n) == old(self).alive(n));
            assert forall|r: SkipListLayerIter| #[trigger] self.undisturbed(*old(self), r) by {
                assert(self.items_of(self.tail_from(r.node)) =~= old(self).items_of(
                    old(self).tail_from(r.node),
                ));
            }
            assert(self@ =~= old(self)@);
            assert(self.item_heights() =~= old(self).item_heights());
        }
        let before = match bound {
            Bound::Included(key) => self.find(key),
            _ => None,
        };
        assert(self.level_wf(0));
        let ghost chain = self.chain();
        proof {
            match before {
                None => {
                    assert(src(chain, -1) is None);
                },
                Some(n) => {
                    let k = chain.index_of(n);
                    assert(src(chain, k) == Some(n));
                    assert(self.has_link(Some(chain[k]), 0));
                },
            }
        }
        let node = self.pointer(before, 0);
        proof {
            if bound is Unbounded || sorted(self@) {
                let start = start_of(self@, bound) as int;
                assert(last_of(chain.take(start)) == before);
                assert(src(chain, start - 1) == before);
                assert(node == elem(chain, start));
                if start < chain.len() {
                    assert(chain.index_of(chain[start]) == start);
                }
                assert(self.items_of(self.tail_from(node)) =~= self@.skip(start));
            }
        }
        SkipListLayerIter { epoch, node, id: Ghost(id) }
    }
}

// -- SkipListLayerIterMut --

/// What is known of a writer's iterator besides what it stores.
pub struct CursorModel {
    /// The nodes before the place of the first change.
    pub before: Seq<usize>,
    /// The new nodes.
    pub inserted: Seq<usize>,
    /// The nodes from the current one on.
    pub after: Seq<usize>,
    /// The erased nodes that can still be reached at each level.
    pub stale: Seq<Seq<usize>>,
}

/// A writer's place in the list, with the changes that it has not committed.
pub struct SkipListLayerIterMut {
    /// The nodes that precede the current one at every level, so that their pointers can be
    /// updated. Nothing stands for the head of the list.
    prev_pointers: Vec<Option<usize>>,
    /// A copy of `prev_pointers` from the time of the first change: where the commit splices.
    insertion_point: Option<Vec<Option<usize>>>,
    /// The nodes that the commit splices in.
    insertion_nodes: PointerList,
    model: Ghost<CursorModel>,
}

impl<K, V> SkipListLayer<K, V> {
    /// The state of one level while there is a writer. A reader sees `before`, `stale` and `after`;
    /// the new nodes hang beside them.
    spec fn level_state(
        self,
        level: int,
        visible: Seq<usize>,
        before: Seq<usize>,
        stale: Seq<usize>,
        inserted: Seq<usize>,
        after: Seq<usize>,
        prev: Option<usize>,
        first: Option<usize>,
    ) -> bool {
        &&& visible == before + stale + after
        &&& self.linked(level, visible)
        &&& self.tail_linked(level, inserted, elem(after, 0))
        &&& first == elem(inserted, 0)
        &&& prev == last_of(
            if inserted.len() > 0 {
                inserted
            } else {
                before + stale
            },
        )
        &&& level > 0 && inserted.len() == 0 ==> stale.len() == 0
    }

    /// Where the previous pointer points.
    proof fn lemma_prev(
        self,
        level: int,
        visible: Seq<usize>,
        before: Seq<usize>,
        stale: Seq<usize>,
        inserted: Seq<usize>,
        after: Seq<usize>,
        prev: Option<usize>,
        first: Option<usize>,
    )
        requires
            self.level_state(level, visible, before, stale, inserted, after, prev, first),
            self.all_reach(visible, level),
            self.all_reach(inserted, level),
            self.has_link(None, level),
        ensures
            self.has_link(prev, level),
            self.next(prev, level) == elem(after, 0),
    {
        if inserted.len() > 0 {
            let k = inserted.len() - 1;
            assert(src(inserted, k) == Some(inserted[k]));
        } else {
            let k = (before + stale).len() - 1;
            assert(src(visible, k) == prev);
            assert(elem(visible, k + 1) == elem(after, 0));
            if k >= 0 {
                assert(visible[k] == (before + stale)[k]);
            }
        }
    }

    /// The state of a level depends on that level's links alone.
    proof fn lemma_state_frame(
        self,
        other: Self,
        level: int,
        visible: Seq<usize>,
        before: Seq<usize>,
        stale: Seq<usize>,
        inserted: Seq<usize>,
        after: Seq<usize>,
        prev: Option<usize>,
        first: Option<usize>,
    )
        requires
            other.level_state(level, visible, before, stale, inserted, after, prev, first),
            other.all_reach(visible, level),
            other.all_reach(inserted, level),
            other.has_link(None, level),
            forall|r: Option<usize>| #[trigger]
                other.has_link(r, level) ==> self.next(r, level) == other.next(r, level),
        ensures
            self.level_state(level, visible, before, stale, inserted, after, prev, first),
    {
        assert forall|j: int| -1 <= j < visible.len() implies self.next(
            #[trigger] src(visible, j),
            level,
        ) == elem(visible, j + 1) by {
            if j >= 0 {
                assert(other.has_link(Some(visible[j]), level));
            } else {
                assert(other.has_link(None, level));
            }
        }
        assert forall|j: int| 0 <= j < inserted.len() implies self.next(
            #[trigger] src(inserted, j),
            level,
        ) == if j + 1 < inserted.len() {
            Some(inserted[j + 1])
        } else {
            elem(after, 0)
        } by {
            assert(other.has_link(Some(inserted[j]), level));
        }
    }

    /// One level of an insertion: `n` goes to the end of the new nodes.
    proof fn lemma_insert_level(
        self,
        other: Self,
        n: usize,
        level: int,
        visible: Seq<usize>,
        before: Seq<usize>,
        stale: Seq<usize>,
        inserted: Seq<usize>,
        after: Seq<usize>,
        prev: Option<usize>,
        first: Option<usize>,
    )
        requires
            other.level_state(level, visible, before, stale, inserted, after, prev, first),
            other.all_reach(visible, level),
            other.all_reach(inserted, level),
            other.has_link(None, level),
            inserted.no_duplicates(),
            !visible.contains(n),
            !inserted.contains(n),
            forall|j: int| 0 <= j < inserted.len() ==> !visible.contains(#[trigger] inserted[j]),
            forall|r: Option<usize>| #[trigger]
                other.has_link(r, level) && r != Some(n) && (inserted.len() > 0 ==> r != prev)
                    ==> self.next(r, level) == other.next(r, level),
            self.next(Some(n), level) == elem(after, 0),
            inserted.len() > 0 ==> self.next(prev, level) == Some(n),
        ensures
            self.level_state(
                level,
                visible,
                before,
                stale,
                inserted.push(n),
                after,
                Some(n),
                if inserted.len() > 0 {
                    first
                } else {
                    Some(n)
                },
            ),
    {
        let grown = inserted.push(n);
        assert forall|j: int| -1 <= j < visible.len() implies self.next(
            #[trigger] src(visible, j),
            level,
        ) == elem(visible, j + 1) by {
            if j >= 0 {
                assert(other.has_link(Some(visible[j]), level));
                assert(visible.contains(visible[j]));
                if inserted.len() > 0 {
                    assert(prev == Some(inserted[inserted.len() - 1]));
                }
            } else {
                assert(other.has_link(None, level));
            }
        }
        assert forall|j: int| 0 <= j < grown.len() implies self.next(
            #[trigger] src(grown, j),
            level,
        ) == if j + 1 < grown.len() {
            Some(grown[j + 1])
        } else {
            elem(after, 0)
        } by {
            if j < inserted.len() {
                assert(src(inserted, j) == Some(inserted[j]));
                assert(other.has_link(Some(inserted[j]), level));
                assert(inserted.contains(inserted[j]));
            }
        }
        assert(grown[grown.len() - 1] == n);
    }

    /// One level of an erasure: the first of `after` goes.
    proof fn lemma_erase_level(
        self,
        other: Self,
        level: int,
        visible: Seq<usize>,
        before: Seq<usize>,
        stale: Seq<usize>,
        inserted: Seq<usize>,
        after: Seq<usize>,
        prev: Option<usize>,
        first: Option<usize>,
    )
        requires
            other.level_state(level, visible, before, stale, inserted, after, prev, first),
            other.all_reach(visible, level),
            other.all_reach(inserted, level),
            other.has_link(None, level),
            after.len() > 0,
            visible.no_duplicates(),
            inserted.no_duplicates(),
            forall|j: int| 0 <= j < inserted.len() ==> !visible.contains(#[trigger] inserted[j]),
            forall|r: Option<usize>| #[trigger]
                other.has_link(r, level) && ((level == 0 && inserted.len() == 0) || r != prev)
                    ==> self.next(r, level) == other.next(r, level),
            !(level == 0 && inserted.len() == 0) ==> self.next(prev, level) == other.next(
                Some(after[0]),
                level,
            ),
        ensures
            level == 0 && inserted.len() == 0 ==> self.level_state(
                level,
                visible,
                before,
                stale.push(after[0]),
                inserted,
                after.drop_first(),
                Some(after[0]),
                first,
            ),
            inserted.len() > 0 ==> self.level_state(
                level,
                visible,
                before,
                stale.push(after[0]),
                inserted,
                after.drop_first(),
                prev,
                first,
            ),
            level > 0 && inserted.len() == 0 ==> self.level_state(
                level,
                before + after.drop_first(),
                before,
                stale,
                inserted,
                after.drop_first(),
                prev,
                first,
            ),
    {
        let x = after[0];
        let rest = after.drop_first();
        let at = (before + stale).len() as int;
        assert(visible[at] == x);
        assert(src(visible, at) == Some(x));
        assert(elem(visible, at + 1) == elem(rest, 0));
        assert(visible =~= before + stale.push(x) + rest);
        if level == 0 || inserted.len() > 0 {
            assert forall|j: int| -1 <= j < visible.len() implies self.next(
                #[trigger] src(visible, j),
                level,
            ) == elem(visible, j + 1) by {
                if j >= 0 {
                    assert(other.has_link(Some(visible[j]), level));
                    assert(visible.contains(visible[j]));
                    if inserted.len() > 0 {
                        assert(prev == Some(inserted[inserted.len() - 1]));
                    }
                } else {
                    assert(other.has_link(None, level));
                }
            }
            assert forall|j: int| 0 <= j < inserted.len() implies self.next(
                #[trigger] src(inserted, j),
                level,
            ) == if j + 1 < inserted.len() {
                Some(inserted[j + 1])
            } else {
                elem(rest, 0)
            } by {
                assert(other.has_link(Some(inserted[j]), level));
                assert(prev == Some(inserted[inserted.len() - 1]));
            }
            assert((before + stale.push(x))[at] == x);
        } else {
            let seen = before + rest;
            assert(stale =~= Seq::empty());
            assert(before + stale =~= before);
            assert(before + stale + rest =~= seen);
            assert(at == before.len());
            assert(src(visible, at - 1) == prev);
            assert forall|j: int| -1 <= j < seen.len() implies self.next(
                #[trigger] src(seen, j),
                level,
            ) == elem(seen, j + 1) by {
                if j < before.len() - 1 {
                    assert(src(visible, j) == src(seen, j));
                    if j >= 0 {
                        assert(other.has_link(Some(visible[j]), level));
                        assert(visible[j] != visible[at - 1]);
                    } else {
                        assert(other.has_link(None, level));
                    }
                } else if j == before.len() - 1 {
                    assert(src(seen, j) == prev);
                } else {
                    assert(src(visible, j + 1) == src(seen, j));
                    assert(other.has_link(Some(visible[j + 1]), level));
                    if at > 0 {
                        assert(visible[j + 1] != visible[at - 1]);
                    }
                }
            }
        }
    }
}

/// Copies pointers.
fn copy_pointers(list: &Vec<Option<usize>>) -> (result: Vec<Option<usize>>)
    ensures
        result@ == list@,
{
    let mut result: Vec<Option<usize>> = Vec::new();
    for i in 0..list.len()
        invariant
            result@ == list@.take(i as int),
    {
        result.push(list[i]);
        assert(list@.take(i as int).push(list@[i as int]) =~= list@.take(i + 1));
    }
    assert(list@.take(list@.len() as int) =~= list@);
    result
}

impl SkipListLayerIterMut {
    spec fn before(self) -> Seq<usize> {
        self.model@.before
    }

    spec fn inserted(self) -> Seq<usize> {
        self.model@.inserted
    }

    spec fn after(self) -> Seq<usize> {
        self.model@.after
    }

    spec fn stale(self) -> Seq<Seq<usize>> {
        self.model@.stale
    }

    /// The state of a level, with `inserted` for the new nodes on it.
    spec fn state_with<K, V>(
        self,
        layer: SkipListLayer<K, V>,
        level: int,
        inserted: Seq<usize>,
    ) -> bool {
        layer.level_state(
            level,
            layer.levels()[level],
            tall(layer.heights(), self.before(), level),
            self.stale()[level],
            inserted,
            tall(layer.heights(), self.after(), level),
            self.prev_pointers@[level],
            self.insertion_nodes@[level],
        )
    }

    spec fn level_ok<K, V>(self, layer: SkipListLayer<K, V>, level: int) -> bool {
        self.state_with(layer, level, tall(layer.heights(), self.inserted(), level))
    }

    spec fn lengths_ok<K, V>(self, layer: SkipListLayer<K, V>) -> bool {
        &&& self.prev_pointers@.len() == layer.levels().len()
        &&& self.insertion_nodes@.len() == layer.levels().len()
        &&& self.stale().len() == layer.levels().len()
    }

    spec fn nodes_ok<K, V>(self, layer: SkipListLayer<K, V>) -> bool {
        &&& layer.chain() == self.before() + self.stale()[0] + self.after()
        &&& self.inserted().no_duplicates()
        &&& forall|j: int|
            0 <= j < self.inserted().len() ==> !layer.chain().contains(
                #[trigger] self.inserted()[j],
            )
        &&& forall|n: usize| #[trigger]
            layer.alive(n) <==> layer.chain().contains(n) || self.inserted().contains(n)
    }

    spec fn insertion_point_ok<K, V>(self, layer: SkipListLayer<K, V>) -> bool {
        match self.insertion_point {
            None => {
                &&& self.inserted().len() == 0
                &&& forall|level: int|
                    0 <= level < self.stale().len() ==> (#[trigger] self.stale()[level]).len() == 0
            },
            Some(point) => {
                &&& point@.len() == layer.levels().len()
                &&& forall|level: int|
                    0 <= level < point@.len() ==> #[trigger] point@[level] == last_of(
                        tall(layer.heights(), self.before(), level),
                    )
            },
        }
    }

    /// The iterator belongs to the layer, and both are as they should be.
    pub closed spec fn wf<K, V>(self, layer: SkipListLayer<K, V>) -> bool {
        &&& layer.wf()
        &&& layer.writing()
        &&& self.lengths_ok(layer)
        &&& self.nodes_ok(layer)
        &&& self.insertion_point_ok(layer)
        &&& forall|level: int|
            0 <= level < layer.levels().len() ==> #[trigger] self.level_ok(layer, level)
    }

    /// The list as it will be once the changes are committed.
    pub closed spec fn items<K, V>(self, layer: SkipListLayer<K, V>) -> Seq<Item<K, V>> {
        layer.items_of(self.before() + self.inserted() + self.after())
    }

    /// On how many levels each item of that list is linked.
    pub closed spec fn item_heights<K, V>(self, layer: SkipListLayer<K, V>) -> Seq<nat> {
        layer.heights_of(self.before() + self.inserted() + self.after())
    }

    /// The iterator's place in that list.
    pub closed spec fn position(self) -> nat {
        self.before().len() + self.inserted().len()
    }

    /// Where the first change was made; the iterator's own place before that.
    pub closed spec fn start(self) -> nat {
        self.before().len()
    }

    /// There are changes to commit.
    pub closed spec fn changed(self) -> bool {
        self.insertion_point is Some
    }

    /// An insertion of `item` led here from another layer and iterator.
    pub open spec fn after_insert<K, V>(
        self,
        layer: SkipListLayer<K, V>,
        old_iter: Self,
        old_layer: SkipListLayer<K, V>,
        item: Item<K, V>,
    ) -> bool {
        &&& self.wf(layer)
        &&& self.items(layer) == old_iter.items(old_layer).insert(
            old_iter.position() as int,
            item,
        )
        &&& self.position() == old_iter.position() + 1
        &&& self.start() == old_iter.start()
        &&& self.changed()
        &&& layer.keeps_readers(old_layer)
    }

    /// An erasure of the current item led here from another layer and iterator.
    pub open spec fn after_erase<K, V>(
        self,
        layer: SkipListLayer<K, V>,
        old_iter: Self,
        old_layer: SkipListLayer<K, V>,
    ) -> bool {
        let at = old_iter.position() as int;
        let items = old_iter.items(old_layer);
        let heights = old_iter.item_heights(old_layer);
        &&& self.wf(layer)
        &&& self.items(layer) == if at < items.len() {
            items.remove(at)
        } else {
            items
        }
        &&& self.item_heights(layer) == if at < items.len() {
            heights.remove(at)
        } else {
            heights
        }
        &&& self.position() == old_iter.position()
        &&& self.start() == old_iter.start()
        &&& self.changed() <==> old_iter.changed() || at < items.len()
        &&& layer.keeps_readers(old_layer)
    }

    /// A move to the next item led here from another layer and iterator. Once there are changes,
    /// a clone of the item takes its place.
    pub open spec fn after_advance<K, V: Clone>(
        self,
        layer: SkipListLayer<K, V>,
        old_iter: Self,
        old_layer: SkipListLayer<K, V>,
    ) -> bool {
        let at = old_iter.position() as int;
        let items = old_iter.items(old_layer);
        let copies = old_iter.changed() && at < items.len();
        &&& self.wf(layer)
        &&& self.items(layer).len() == items.len()
        &&& self.items(layer) == if copies {
            items.update(at, self.items(layer)[at])
        } else {
            items
        }
        &&& copies ==> self.items(layer)[at].key == items[at].key && vstd::pervasive::cloned(
            items[at].value,
            self.items(layer)[at].value,
        )
        &&& self.position() == if at < items.len() {
            at + 1
        } else {
            at
        }
        &&& self.start() == if old_iter.changed() {
            old_iter.start()
        } else {
            self.position()
        }
        &&& self.changed() == old_iter.changed()
        &&& layer.keeps_readers(old_layer)
    }

    /// The nodes of a level are all in the list.
    proof fn lemma_subset<K, V>(layer: SkipListLayer<K, V>, level: int)
        requires
            layer.levels_wf(),
            0 <= level < layer.levels().len(),
        ensures
            forall|n: usize| #[trigger]
                layer.levels()[level].contains(n) ==> layer.chain().contains(n),
        decreases level,
    {
        if level > 0 {
            Self::lemma_subset(layer, level - 1);
            assert(layer.level_wf(level));
            let s = layer.levels()[level];
            assert forall|n: usize| #[trigger] s.contains(n) implies layer.chain().contains(n) by {
                let j = choose|j: int| 0 <= j < s.len() && s[j] == n;
                assert(layer.levels()[level - 1].contains(s[j]));
            }
        }
    }

    /// The nodes among `s` that are high enough reach the level.
    proof fn lemma_tall_reach<K, V>(layer: SkipListLayer<K, V>, s: Seq<usize>, level: int)
        requires
            0 <= level,
            forall|n: usize| #[trigger] s.contains(n) ==> layer.alive(n),
        ensures
            layer.all_reach(tall(layer.heights(), s, level), level),
    {
        let t = tall(layer.heights(), s, level);
        lemma_tall_contains(layer.heights(), s, level);
        assert forall|j: int| 0 <= j < t.len() implies layer.has_link(
            Some(#[trigger] t[j]),
            level,
        ) by {
            assert(t.contains(t[j]));
            assert(s.contains(t[j]));
            assert(layer.alive(t[j]));
        }
    }

    /// What holds at a level.
    proof fn lemma_level<K, V>(self, layer: SkipListLayer<K, V>, level: int)
        requires
            self.wf(layer),
            0 <= level < layer.levels().len(),
        ensures
            layer.all_reach(layer.levels()[level], level),
            layer.levels()[level].no_duplicates(),
            layer.all_reach(tall(layer.heights(), self.inserted(), level), level),
            tall(layer.heights(), self.inserted(), level).no_duplicates(),
            forall|j: int|
                0 <= j < tall(layer.heights(), self.inserted(), level).len()
                    ==> !layer.levels()[level].contains(
                    #[trigger] tall(layer.heights(), self.inserted(), level)[j],
                ),
            layer.has_link(None, level),
            layer.has_link(self.prev_pointers@[level], level),
            layer.next(self.prev_pointers@[level], level) == elem(
                tall(layer.heights(), self.after(), level),
                0,
            ),
            self.level_ok(layer, level),
    {
        let h = layer.heights();
        let ins = tall(h, self.inserted(), level);
        assert(layer.level_wf(level));
        assert(self.level_ok(layer, level));
        lemma_tall_contains(h, self.inserted(), level);
        lemma_tall_no_duplicates(h, self.inserted(), level);
        Self::lemma_subset(layer, level);
        Self::lemma_tall_reach(layer, self.inserted(), level);
        assert forall|j: int| 0 <= j < ins.len() implies !layer.levels()[level].contains(
            #[trigger] ins[j],
        ) by {
            assert(ins.contains(ins[j]));
            let k = choose|k: int|
                0 <= k < self.inserted().len() && self.inserted()[k] == ins[j];
            assert(!layer.chain().contains(self.inserted()[k]));
        }
        layer.lemma_prev(
            level,
            layer.levels()[level],
            tall(h, self.before(), level),
            self.stale()[level],
            ins,
            tall(h, self.after(), level),
            self.prev_pointers@[level],
            self.insertion_nodes@[level],
        );
    }

    /// The first of the remaining nodes, at the bottom level.
    proof fn lemma_bottom<K, V>(self, layer: SkipListLayer<K, V>)
        requires
            self.wf(layer),
        ensures
            tall(layer.heights(), self.before(), 0) == self.before(),
            tall(layer.heights(), self.after(), 0) == self.after(),
            tall(layer.heights(), self.inserted(), 0) == self.inserted(),
            forall|n: usize| #[trigger] self.before().contains(n) ==> layer.alive(n),
            forall|n: usize| #[trigger] self.after().contains(n) ==> layer.alive(n),
            forall|n: usize| #[trigger] self.inserted().contains(n) ==> layer.alive(n),
    {
        let chain = layer.chain();
        assert forall|n: usize| #[trigger] self.before().contains(n) implies layer.alive(n) by {
            let j = choose|j: int| 0 <= j < self.before().len() && self.before()[j] == n;
            assert(chain[j] == n);
        }
        assert forall|n: usize| #[trigger] self.after().contains(n) implies layer.alive(n) by {
            let j = choose|j: int| 0 <= j < self.after().len() && self.after()[j] == n;
            assert(chain[(self.before() + self.stale()[0]).len() + j] == n);
        }
        assert forall|j: int| 0 <= j < self.before().len() implies layer.heights()[
        #[trigger] self.before()[j] as int] > 0 by {
            assert(self.before().contains(self.before()[j]));
            assert(layer.alive(self.before()[j]));
        }
        assert forall|j: int| 0 <= j < self.after().len() implies layer.heights()[
        #[trigger] self.after()[j] as int] > 0 by {
            assert(self.after().contains(self.after()[j]));
            assert(layer.alive(self.after()[j]));
        }
        assert forall|j: int| 0 <= j < self.inserted().len() implies layer.heights()[
        #[trigger] self.inserted()[j] as int] > 0 by {
            assert(self.inserted().contains(self.inserted()[j]));
            assert(layer.alive(self.inserted()[j]));
        }
        lemma_tall_all(layer.heights(), self.before(), 0);
        lemma_tall_all(layer.heights(), self.after(), 0);
        lemma_tall_all(layer.heights(), self.inserted(), 0);
    }

    /// Borrows the current item.
    pub fn get<'a, K, V>(&self, layer: &'a SkipListLayer<K, V>) -> (result: Option<
        ItemRef<'a, K, V>,
    >)
        requires
            self.wf(*layer),
        ensures
            result is Some <==> self.position() < self.items(*layer).len(),
            result is Some ==> result->0.item() == self.items(*layer)[self.position() as int],
    {
        proof {
            self.lemma_level(*layer, 0);
            self.lemma_bottom(*layer);
            if self.after().len() > 0 {
                assert(self.after().contains(self.after()[0]));
                assert((self.before() + self.inserted() + self.after())[self.position() as int]
                    == self.after()[0]);
            }
        }
        match layer.pointer(self.prev_pointers[0], 0) {
            None => None,
            Some(n) => match &layer.nodes[n] {
                Some(node) => Some(node.item.as_item_ref()),
                None => None,
            },
        }
    }
}

impl<K, V> SkipListLayer<K, V> {
    /// Readers see the same list in both layers, and go on unhindered.
    pub open spec fn keeps_readers(self, other: Self) -> bool {
        &&& self@ == other@
        &&& self.item_heights() == other.item_heights()
        &&& self.epoch() == other.epoch()
        &&& self.level_count() == other.level_count()
        &&& forall|e: nat| #[trigger] self.reader_count(e) == other.reader_count(e)
        &&& forall|r: SkipListLayerIter| #[trigger] self.undisturbed(other, r)
    }

    proof fn lemma_keeps_transitive(self, middle: Self, other: Self)
        requires
            self.keeps_readers(middle),
            middle.keeps_readers(other),
        ensures
            self.keeps_readers(other),
    {
        assert forall|r: SkipListLayerIter| #[trigger] self.undisturbed(other, r) by {
            assert(middle.undisturbed(other, r));
            assert(self.undisturbed(middle, r));
        }
        assert forall|e: nat| #[trigger] self.reader_count(e) == other.reader_count(e) by {
            assert(middle.reader_count(e) == other.reader_count(e));
        }
    }

    proof fn lemma_keeps_readers(self, other: Self)
        requires
            other.wf(),
            self.chain() == other.chain(),
            self.pointers@.len() == other.pointers@.len(),
            self.model@.dying == other.model@.dying,
            self.model@.dying_next == other.model@.dying_next,
            self.committing() == other.committing(),
            self.model@.readers == other.model@.readers,
            self.read_counts == other.read_counts,
            forall|n: usize| #[trigger]
                other.alive(n) ==> self.alive(n) && self.node(n).item == other.node(n).item
                    && self.node(n).pointers@.len() == other.node(n).pointers@.len(),
        ensures
            self.keeps_readers(other),
    {
        let chain = other.chain();
        assert(other.level_wf(0));
        assert forall|j: int| 0 <= j < chain.len() implies self.node(#[trigger] chain[j]).item
            == other.node(chain[j]).item && self.node(chain[j]).pointers@.len() == other.node(
            chain[j],
        ).pointers@.len() by {
            assert(other.has_link(Some(chain[j]), 0));
            assert(other.alive(chain[j]));
        }
        assert(self@ =~= other@);
        assert(self.item_heights() =~= other.item_heights());
        assert forall|r: SkipListLayerIter| #[trigger] self.undisturbed(other, r) by {
            if r.valid(other) {
                let t = other.tail_from(r.node);
                assert(self.tail_from(r.node) == t);
                let dying = other.model@.dying;
                assert forall|j: int| 0 <= j < t.len() implies self.node(#[trigger] t[j]).item
                    == other.node(t[j]).item by {
                    other.lemma_tail_alive(r.node, j);
                    assert(other.alive(t[j]));
                }
                assert(self.items_of(t) =~= other.items_of(t));
            }
        }
    }

    /// What a reader has still to visit is there.
    proof fn lemma_tail_alive(self, at: Option<usize>, j: int)
        requires
            self.wf(),
            at is Some ==> self.chain().contains(at->0) || self.model@.dying.contains(at->0),
            0 <= j < self.tail_from(at).len(),
        ensures
            self.alive(self.tail_from(at)[j]),
            self.chain().contains(self.tail_from(at)[j]) || self.model@.dying.contains(
                self.tail_from(at)[j],
            ),
    {
        let t = self.tail_from(at);
        let chain = self.chain();
        let dying = self.model@.dying;
        assert(self.level_wf(0));
        let n = at->0;
        if chain.contains(n) {
            let k = chain.index_of(n);
            assert(t[j] == chain[k + j]);
            assert(self.has_link(Some(chain[k + j]), 0));
        } else {
            let k = dying.index_of(n);
            let first = dying.skip(k);
            if j < first.len() {
                assert(t[j] == dying[k + j]);
                assert(self.has_link(Some(dying[k + j]), 0));
            } else {
                let m = self.model@.dying_next->0;
                let i = chain.index_of(m);
                assert(t[j] == chain[i + j - first.len()]);
                assert(self.has_link(Some(chain[i + j - first.len()]), 0));
            }
        }
    }
}

impl SkipListLayerIterMut {
    /// The state of a level in the middle of an insertion of `n`, when the levels below `done` are
    /// done.
    spec fn inserting<K, V>(
        self,
        layer: SkipListLayer<K, V>,
        level: int,
        n: usize,
        done: int,
    ) -> bool {
        let ins = tall(layer.heights(), self.inserted(), level);
        self.state_with(
            layer,
            level,
            if level < done {
                ins.push(n)
            } else {
                ins
            },
        )
    }

    /// What an insertion needs to know of the nodes at a level.
    spec fn ready<K, V>(self, layer: SkipListLayer<K, V>, level: int, n: usize) -> bool {
        let ins = tall(layer.heights(), self.inserted(), level);
        let visible = layer.levels()[level];
        &&& layer.all_reach(visible, level)
        &&& layer.all_reach(ins, level)
        &&& ins.no_duplicates()
        &&& !visible.contains(n)
        &&& !ins.contains(n)
        &&& forall|j: int| 0 <= j < ins.len() ==> !visible.contains(#[trigger] ins[j])
        &&& layer.has_link(None, level)
    }

    /// A new node does not touch the levels.
    proof fn lemma_alloc<K, V>(
        self,
        layer: SkipListLayer<K, V>,
        other: SkipListLayer<K, V>,
        n: usize,
        level: int,
    )
        requires
            self.wf(other),
            layer.same_but_node(other, n),
            !other.alive(n),
            layer.alive(n),
            0 <= level < other.levels().len(),
        ensures
            self.inserting(layer, level, n, 0),
            self.ready(layer, level, n),
            tall(layer.heights(), self.before(), level) == tall(
                other.heights(),
                self.before(),
                level,
            ),
            tall(layer.heights(), self.inserted(), level) == tall(
                other.heights(),
                self.inserted(),
                level,
            ),
            tall(layer.heights(), self.after(), level) == tall(
                other.heights(),
                self.after(),
                level,
            ),
    {
        self.lemma_level(other, level);
        self.lemma_bottom(other);
        let h1 = layer.heights();
        let h0 = other.heights();
        assert forall|j: int| 0 <= j < self.before().len() implies h1[#[trigger] self.before()[j] as int]
            == h0[self.before()[j] as int] by {
            assert(self.before().contains(self.before()[j]));
            assert(layer.alive(self.before()[j]));
        }
        assert forall|j: int| 0 <= j < self.inserted().len() implies h1[#[trigger] self.inserted()[j] as int]
            == h0[self.inserted()[j] as int] by {
            assert(self.inserted().contains(self.inserted()[j]));
            assert(layer.alive(self.inserted()[j]));
        }
        assert forall|j: int| 0 <= j < self.after().len() implies h1[#[trigger] self.after()[j] as int]
            == h0[self.after()[j] as int] by {
            assert(self.after().contains(self.after()[j]));
            assert(layer.alive(self.after()[j]));
        }
        lemma_tall_agree(h1, h0, self.before(), level);
        lemma_tall_agree(h1, h0, self.inserted(), level);
        lemma_tall_agree(h1, h0, self.after(), level);
        let ins = tall(h0, self.inserted(), level);
        let visible = other.levels()[level];
        assert forall|r: Option<usize>| #[trigger] other.has_link(r, level) implies layer.next(
            r,
            level,
        ) == other.next(r, level) by {
            if r is Some {
                assert(layer.alive(r->0));
            }
        }
        layer.lemma_state_frame(
            other,
            level,
            visible,
            tall(h0, self.before(), level),
            self.stale()[level],
            ins,
            tall(h0, self.after(), level),
            self.prev_pointers@[level],
            self.insertion_nodes@[level],
        );
        assert forall|j: int| 0 <= j < visible.len() implies layer.has_link(
            Some(#[trigger] visible[j]),
            level,
        ) by {
            assert(other.has_link(Some(visible[j]), level));
            assert(layer.alive(visible[j]));
        }
        assert forall|j: int| 0 <= j < ins.len() implies layer.has_link(
            Some(#[trigger] ins[j]),
            level,
        ) by {
            assert(other.has_link(Some(ins[j]), level));
            assert(layer.alive(ins[j]));
        }
        if visible.contains(n) {
            let j = choose|j: int| 0 <= j < visible.len() && visible[j] == n;
            assert(other.has_link(Some(visible[j]), level));
        }
        if ins.contains(n) {
            let j = choose|j: int| 0 <= j < ins.len() && ins[j] == n;
            assert(other.has_link(Some(ins[j]), level));
        }
    }

    /// Inserts an item before the current one, with a node height that follows from `draw`.
    #[verifier::rlimit(40)]
    pub fn insert_with_draw<K, V>(
        &mut self,
        layer: &mut SkipListLayer<K, V>,
        item: Item<K, V>,
        draw: u32,
    )
        requires
            old(self).wf(*old(layer)),
        ensures
            final(self).after_insert(*final(layer), *old(self), *old(layer), item),
            final(self).item_heights(*final(layer)) == old(self).item_heights(*old(layer)).insert(
                old(self).position() as int,
                pointer_count(old(layer).level_count(), draw as nat),
            ),
    {
        let ghost cursor = *self;
        let ghost layer0 = *layer;
        let count: usize = pointer_count_for(layer.pointers.len(), draw);
        let n = layer.alloc_node(item, count);
        let ghost layer1 = *layer;
        let ghost h = layer1.heights();
        proof {
            self.lemma_bottom(layer0);
            assert forall|level: int| 0 <= level < layer.levels().len() implies #[trigger]
                self.ready(*layer, level, n) by {
                self.lemma_alloc(*layer, layer0, n, level);
            }
        }
        if self.insertion_point.is_none() {
            self.insertion_point = Some(copy_pointers(&self.prev_pointers));
        }
        let ghost point = self.insertion_point->0@;
        proof {
            assert forall|level: int| 0 <= level < layer.levels().len() implies #[trigger]
                self.inserting(*layer, level, n, 0) by {
                cursor.lemma_alloc(*layer, layer0, n, level);
                assert(cursor.inserting(*layer, level, n, 0));
            }
        }
        let mut i: usize = 0;
        while i < count
            invariant
                i <= count,
                count == layer1.node(n).pointers@.len(),
                count <= layer1.levels().len(),
                layer1.alive(n),
                layer1.slots_wf(),
                layer.same_shape(layer1),
                h == layer1.heights(),
                self.model == cursor.model,
                self.insertion_point->0@ == point,
                self.insertion_point is Some,
                self.prev_pointers@.len() == layer1.levels().len(),
                self.insertion_nodes@.len() == layer1.levels().len(),
                forall|level: int|
                    0 <= level < layer1.levels().len() ==> #[trigger] self.inserting(
                        *layer,
                        level,
                        n,
                        i as int,
                    ),
                forall|level: int|
                    0 <= level < layer1.levels().len() ==> #[trigger] cursor.ready(
                        layer1,
                        level,
                        n,
                    ),
            decreases count - i,
        {
            let ghost here = *self;
            let ghost layer2 = *layer;
            let ghost ins = tall(h, cursor.inserted(), i as int);
            let ghost visible = layer1.levels()[i as int];
            let ghost bef = tall(h, cursor.before(), i as int);
            let ghost aft = tall(h, cursor.after(), i as int);
            let ghost stale = cursor.stale()[i as int];
            proof {
                assert(self.inserting(*layer, i as int, n, i as int));
                assert(cursor.ready(layer1, i as int, n));
                assert(layer2.all_reach(visible, i as int));
                assert(layer2.all_reach(ins, i as int));
                assert(layer2.has_link(None, i as int));
                layer2.lemma_prev(
                    i as int,
                    visible,
                    bef,
                    stale,
                    ins,
                    aft,
                    self.prev_pointers@[i as int],
                    self.insertion_nodes@[i as int],
                );
                assert(layer2.has_link(Some(n), i as int)) by {
                    assert(layer2.alive(n));
                }
            }
            let prev = self.prev_pointers[i];
            let next = layer.pointer(prev, i);
            layer.set_pointer(Some(n), i, next);
            let first = self.insertion_nodes.get(i);
            if first.is_none() {
                self.insertion_nodes.set(i, Some(n));
            } else {
                assert(layer.has_link(prev, i as int));
                layer.set_pointer(prev, i, Some(n));
            }
            self.prev_pointers[i] = Some(n);
            proof {
                if ins.len() > 0 {
                    assert(prev == Some(ins[ins.len() - 1]));
                    assert(ins.contains(ins[ins.len() - 1]));
                }
                layer.lemma_insert_level(
                    layer2,
                    n,
                    i as int,
                    visible,
                    bef,
                    stale,
                    ins,
                    aft,
                    prev,
                    first,
                );
                assert forall|level: int| 0 <= level < layer1.levels().len() implies #[trigger]
                    self.inserting(*layer, level, n, i + 1) by {
                    if level != i {
                        assert(here.inserting(layer2, level, n, i as int));
                        assert(cursor.ready(layer1, level, n));
                        let ins2 = tall(h, cursor.inserted(), level);
                        let ins3 = if level < i {
                            ins2.push(n)
                        } else {
                            ins2
                        };
                        assert(layer2.all_reach(ins3, level)) by {
                            assert forall|j: int| 0 <= j < ins3.len() implies layer2.has_link(
                                Some(#[trigger] ins3[j]),
                                level,
                            ) by {
                                if j < ins2.len() {
                                    assert(layer1.has_link(Some(ins2[j]), level));
                                } else {
                                    assert(layer2.alive(n));
                                }
                            }
                        }
                        assert(layer2.all_reach(layer1.levels()[level], level));
                        assert(layer2.has_link(None, level));
                        layer.lemma_state_frame(
                            layer2,
                            level,
                            layer1.levels()[level],
                            tall(h, cursor.before(), level),
                            cursor.stale()[level],
                            ins3,
                            tall(h, cursor.after(), level),
                            here.prev_pointers@[level],
                            here.insertion_nodes@[level],
                        );
                    }
                }
            }
            i = i + 1;
        }
        self.model = Ghost(
            CursorModel { inserted: cursor.inserted().push(n), ..cursor.model@ },
        );
        proof {
            let grown = cursor.inserted().push(n);
            assert forall|level: int| 0 <= level < layer.levels().len() implies #[trigger]
                self.level_ok(*layer, level) by {
                lemma_tall_push(h, cursor.inserted(), n, level);
                assert(layer1.alive(n));
                assert(h[n as int] == count);
                let mid = SkipListLayerIterMut { model: cursor.model, ..*self };
                assert(mid.inserting(*layer, level, n, count as int));
            }
            assert forall|level: int| 0 <= level < layer.levels().len() implies #[trigger]
                layer.level_wf(level) by {
                assert(layer0.level_wf(level));
                assert(self.level_ok(*layer, level));
                assert(cursor.ready(layer1, level, n));
                assert(layer.all_reach(layer1.levels()[level], level));
            }
            assert forall|m: usize| #[trigger] layer.alive(m) <==> layer.chain().contains(m)
                || grown.contains(m) by {
                assert(layer.alive(m) == layer1.alive(m));
                assert(grown[grown.len() - 1] == n);
                if m != n {
                    assert(layer1.alive(m) == layer0.alive(m));
                    if cursor.inserted().contains(m) {
                        let j = choose|j: int|
                            0 <= j < cursor.inserted().len() && cursor.inserted()[j] == m;
                        assert(grown[j] == m);
                    }
                    if grown.contains(m) {
                        let j = choose|j: int| 0 <= j < grown.len() && grown[j] == m;
                        assert(cursor.inserted()[j] == m);
                    }
                }
            }
            assert(!layer0.chain().contains(n)) by {
                assert(!layer0.alive(n));
            }
            assert(!cursor.inserted().contains(n)) by {
                assert(!layer0.alive(n));
            }
            assert forall|j: int| 0 <= j < grown.len() implies !layer.chain().contains(
                #[trigger] grown[j],
            ) by {
                if j < cursor.inserted().len() {
                    assert(grown[j] == cursor.inserted()[j]);
                }
            }
            assert(grown.no_duplicates()) by {
                assert forall|a: int, b: int|
                    0 <= a < grown.len() && 0 <= b < grown.len() && a != b implies grown[a]
                    != grown[b] by {
                    if a < cursor.inserted().len() {
                        assert(cursor.inserted().contains(cursor.inserted()[a]));
                    }
                    if b < cursor.inserted().len() {
                        assert(cursor.inserted().contains(cursor.inserted()[b]));
                    }
                }
            }
            assert(self.nodes_ok(*layer));
            assert(self.insertion_point_ok(*layer)) by {
                assert forall|level: int| 0 <= level < point.len() implies #[trigger] point[level]
                    == last_of(tall(h, self.before(), level)) by {
                    cursor.lemma_alloc(layer1, layer0, n, level);
                    if cursor.insertion_point is None {
                        assert(cursor.level_ok(layer0, level));
                        assert(cursor.stale()[level] =~= Seq::empty());
                        let b = tall(layer0.heights(), cursor.before(), level);
                        assert(b + cursor.stale()[level] =~= b);
                        assert(tall(layer0.heights(), cursor.inserted(), level).len() == 0);
                    }
                }
            }
            assert(layer.slots_wf()) by {
                assert forall|m: usize| #[trigger] layer.alive(m) implies 1 <= layer.node(
                    m,
                ).pointers@.len() <= layer.pointers@.len() by {
                    assert(layer1.alive(m));
                }
                assert forall|m: usize|
                    m < layer.nodes@.len() && !(#[trigger] layer.alive(
                        m,
                    )) implies layer.free@.contains(m) by {
                    assert(!layer1.alive(m));
                }
                assert forall|k: int| 0 <= k < layer.free@.len() implies (
                #[trigger] layer.free@[k]) < layer.nodes@.len() && layer.nodes@[layer.free@[k] as int] is None by {
                    let m = layer1.free@[k];
                    assert(!layer1.alive(m));
                    assert(!layer.alive(m));
                }
            }
            assert forall|m: usize| #[trigger] layer0.alive(m) implies layer.alive(m)
                && layer.node(m).item == layer0.node(m).item && layer.node(m).pointers@.len()
                == layer0.node(m).pointers@.len() by {
                assert(layer1.alive(m));
                assert(layer.alive(m));
            }
            layer.lemma_keeps_readers(layer0);
            let list0 = cursor.before() + cursor.inserted() + cursor.after();
            let list1 = self.before() + grown + self.after();
            let at = cursor.position() as int;
            assert(list1 =~= list0.insert(at, n));
            let items1 = self.items(*layer);
            let items0 = cursor.items(layer0);
            let heights1 = self.item_heights(*layer);
            let heights0 = cursor.item_heights(layer0);
            assert forall|k: int|
                #![trigger items1[k]]
                #![trigger heights1[k]]
                0 <= k < items1.len() implies items1[k] == items0.insert(at, item)[k]
                && heights1[k] == heights0.insert(at, count as nat)[k] by {
                if k == at {
                    assert(layer1.alive(n) && layer.alive(n));
                } else {
                    let k0 = if k < at {
                        k
                    } else {
                        k - 1
                    };
                    assert(list1[k] == list0[k0]);
                    cursor.lemma_list_alive(layer0, k0);
                    assert(layer0.alive(list0[k0]));
                }
            }
            assert(items1 =~= items0.insert(at, item));
            assert(heights1 =~= heights0.insert(at, count as nat));
        }
    }

    /// The nodes of the future list are there.
    proof fn lemma_list_alive<K, V>(self, layer: SkipListLayer<K, V>, k: int)
        requires
            self.wf(layer),
            0 <= k < (self.before() + self.inserted() + self.after()).len(),
        ensures
            layer.alive((self.before() + self.inserted() + self.after())[k]),
    {
        self.lemma_bottom(layer);
        let b = self.before().len();
        let m = b + self.inserted().len();
        if k < b {
            assert(self.before().contains(self.before()[k]));
        } else if k < m {
            assert(self.inserted().contains(self.inserted()[k - b]));
        } else {
            assert(self.after().contains(self.after()[k - m]));
        }
    }
}

impl SkipListLayerIterMut {
    /// An erased node stays reachable at the bottom, and where new nodes will replace it.
    spec fn stays<K, V>(self, layer: SkipListLayer<K, V>, level: int) -> bool {
        level == 0 || tall(layer.heights(), self.inserted(), level).len() > 0
    }

    /// The nodes of a level once the current node is erased.
    spec fn erased_level<K, V>(self, layer: SkipListLayer<K, V>, level: int) -> Seq<usize> {
        let x = self.after()[0];
        if level < layer.heights()[x as int] && !self.stays(layer, level) {
            tall(layer.heights(), self.before(), level) + tall(
                layer.heights(),
                self.after().drop_first(),
                level,
            )
        } else {
            layer.levels()[level]
        }
    }

    /// The stale nodes of a level once the current node is erased.
    spec fn erased_stale<K, V>(self, layer: SkipListLayer<K, V>, level: int) -> Seq<usize> {
        let x = self.after()[0];
        if level < layer.heights()[x as int] && self.stays(layer, level) {
            self.stale()[level].push(x)
        } else {
            self.stale()[level]
        }
    }

    /// The state of a level in the middle of an erasure, when the levels below `done` are done.
    /// `layer0` is the layer before the erasure.
    spec fn erasing<K, V>(
        self,
        layer: SkipListLayer<K, V>,
        layer0: SkipListLayer<K, V>,
        level: int,
        done: int,
    ) -> bool {
        let h = layer0.heights();
        layer.level_state(
            level,
            if level < done {
                self.erased_level(layer0, level)
            } else {
                layer0.levels()[level]
            },
            tall(h, self.before(), level),
            if level < done {
                self.erased_stale(layer0, level)
            } else {
                self.stale()[level]
            },
            tall(h, self.inserted(), level),
            if level < done {
                tall(h, self.after().drop_first(), level)
            } else {
                tall(h, self.after(), level)
            },
            self.prev_pointers@[level],
            self.insertion_nodes@[level],
        )
    }

    /// The levels hold together once the current node is erased.
    proof fn lemma_erased_levels<K, V>(self, layer: SkipListLayer<K, V>, level: int)
        requires
            self.wf(layer),
            0 <= level < layer.levels().len(),
            self.after().len() > 0,
        ensures
            self.erased_level(layer, level).no_duplicates(),
            layer.all_reach(self.erased_level(layer, level), level),
            level > 0 ==> forall|j: int|
                0 <= j < self.erased_level(layer, level).len() ==> self.erased_level(
                    layer,
                    level - 1,
                ).contains(#[trigger] self.erased_level(layer, level)[j]),
    {
        let h = layer.heights();
        let x = self.after()[0];
        let s = layer.levels()[level];
        let t = self.erased_level(layer, level);
        self.lemma_level(layer, level);
        self.lemma_bottom(layer);
        assert(layer.level_wf(level));
        assert(self.after().contains(x));
        assert(layer.alive(x));
        lemma_tall_first(h, self.after(), level);
        let bef = tall(h, self.before(), level);
        let aft = tall(h, self.after().drop_first(), level);
        if t != s {
            assert(self.stale()[level] =~= Seq::empty());
            assert(s =~= bef + (seq![x] + aft));
            assert(t =~= bef + aft);
            assert forall|j: int| 0 <= j < t.len() implies #[trigger] t[j] == s[if j < bef.len() {
                j
            } else {
                j + 1
            }] by {}
            assert(s[bef.len() as int] == x);
            assert(!t.contains(x));
        }
        assert forall|j: int| 0 <= j < t.len() implies layer.has_link(
            Some(#[trigger] t[j]),
            level,
        ) by {
            if t != s {
                let k = if j < bef.len() {
                    j
                } else {
                    j + 1
                };
                assert(layer.has_link(Some(s[k]), level));
            }
        }
        if level > 0 {
            self.lemma_level(layer, level - 1);
            lemma_tall_first(h, self.after(), level - 1);
            lemma_tall_contains(h, self.inserted(), level);
            lemma_tall_contains(h, self.inserted(), level - 1);
            let below = layer.levels()[level - 1];
            let t2 = self.erased_level(layer, level - 1);
            let bef2 = tall(h, self.before(), level - 1);
            let aft2 = tall(h, self.after().drop_first(), level - 1);
            assert forall|j: int| 0 <= j < t.len() implies t2.contains(#[trigger] t[j]) by {
                let k = if t != s && j >= bef.len() {
                    j + 1
                } else {
                    j
                };
                assert(t[j] == s[k]);
                assert(below.contains(s[k]));
                assert(layer.has_link(Some(s[k]), level));
                if t2 != below {
                    assert(self.stale()[level - 1] =~= Seq::empty());
                    assert(below =~= bef2 + (seq![x] + aft2));
                    if t[j] == x {
                        // A node that reaches this level reaches the one below, so new nodes
                        // here would be new nodes there.
                        let ins = tall(h, self.inserted(), level);
                        if ins.len() > 0 {
                            assert(ins.contains(ins[0]));
                            assert(tall(h, self.inserted(), level - 1).contains(ins[0]));
                        }
                        assert(t.contains(x));
                    }
                    let m = choose|m: int| 0 <= m < below.len() && below[m] == t[j];
                    if m < bef2.len() {
                        assert(t2[m] == t[j]);
                    } else {
                        assert(m != bef2.len());
                        assert(t2[m - 1] == t[j]);
                    }
                }
            }
        }
    }

    /// Erases the current item; does nothing at the end of the list.
    #[verifier::rlimit(40)]
    pub fn erase<K, V>(&mut self, layer: &mut SkipListLayer<K, V>)
        requires
            old(self).wf(*old(layer)),
        ensures
            final(self).after_erase(*final(layer), *old(self), *old(layer)),
    {
        let ghost cursor = *self;
        let ghost layer0 = *layer;
        let ghost h = layer0.heights();
        proof {
            self.lemma_level(layer0, 0);
            self.lemma_bottom(layer0);
        }
        let prev = self.prev_pointers[0];
        let x: usize = match layer.pointer(prev, 0) {
            None => {
                proof {
                    layer.lemma_keeps_readers(layer0);
                }
                return ;
            },
            Some(x) => x,
        };
        assert(x == self.after()[0]);
        assert(self.after().contains(x));
        assert(layer.alive(x));
        let height: usize = match &layer.nodes[x] {
            Some(node) => node.pointers.len(),
            None => 0,
        };
        assert(height == h[x as int]);
        if self.insertion_point.is_none() {
            self.insertion_point = Some(copy_pointers(&self.prev_pointers));
        }
        let ghost point = self.insertion_point->0@;
        let first = self.insertion_nodes.get(0);
        if first.is_none() {
            self.prev_pointers[0] = Some(x);
        } else {
            let next = layer.pointer(Some(x), 0);
            layer.set_pointer(prev, 0, next);
        }
        proof {
            layer.lemma_erase_level(
                layer0,
                0,
                layer0.levels()[0],
                tall(h, cursor.before(), 0),
                cursor.stale()[0],
                tall(h, cursor.inserted(), 0),
                tall(h, cursor.after(), 0),
                cursor.prev_pointers@[0],
                cursor.insertion_nodes@[0],
            );
            lemma_tall_first(h, cursor.after(), 0);
            assert((seq![x] + tall(h, cursor.after().drop_first(), 0)).drop_first() =~= tall(
                h,
                cursor.after().drop_first(),
                0,
            ));
            assert forall|level: int| 0 <= level < layer0.levels().len() implies #[trigger]
                self.erasing(*layer, layer0, level, 1) by {
                if level > 0 {
                    cursor.lemma_level(layer0, level);
                    layer.lemma_state_frame(
                        layer0,
                        level,
                        layer0.levels()[level],
                        tall(h, cursor.before(), level),
                        cursor.stale()[level],
                        tall(h, cursor.inserted(), level),
                        tall(h, cursor.after(), level),
                        cursor.prev_pointers@[level],
                        cursor.insertion_nodes@[level],
                    );
                }
            }
        }
        let mut i: usize = 1;
        while i < height
            invariant
                1 <= i <= height,
                height == h[x as int],
                height == layer0.node(x).pointers@.len(),
                h == layer0.heights(),
                layer0.alive(x),
                cursor.wf(layer0),
                cursor.after().len() > 0,
                x == cursor.after()[0],
                layer.same_shape(layer0),
                self.model == cursor.model,
                self.insertion_point is Some,
                self.insertion_point->0@ == point,
                self.prev_pointers@.len() == layer0.levels().len(),
                self.insertion_nodes@ == cursor.insertion_nodes@,
                forall|level: int|
                    1 <= level < layer0.levels().len() ==> #[trigger] self.prev_pointers@[level]
                        == cursor.prev_pointers@[level],
                forall|level: int|
                    0 <= level < layer0.levels().len() ==> #[trigger] self.erasing(
                        *layer,
                        layer0,
                        level,
                        i as int,
                    ),
                forall|r: Option<usize>, k: int|
                    k >= i && #[trigger] layer0.has_link(r, k) ==> layer.next(r, k) == layer0.next(
                        r,
                        k,
                    ),
            decreases height - i,
        {
            let ghost layer2 = *layer;
            let ghost ins = tall(h, cursor.inserted(), i as int);
            let ghost visible = layer0.levels()[i as int];
            let ghost bef = tall(h, cursor.before(), i as int);
            let ghost aft = tall(h, cursor.after(), i as int);
            let ghost stale = cursor.stale()[i as int];
            proof {
                assert(self.erasing(*layer, layer0, i as int, i as int));
                cursor.lemma_level(layer0, i as int);
                assert(layer2.all_reach(visible, i as int));
                assert(layer2.all_reach(ins, i as int));
                assert(layer2.has_link(None, i as int));
                assert(layer2.alive(x));
                assert(layer2.has_link(Some(x), i as int));
                assert(self.prev_pointers@[i as int] == cursor.prev_pointers@[i as int]);
                lemma_tall_first(h, cursor.after(), i as int);
                assert((seq![x] + tall(h, cursor.after().drop_first(), i as int)).drop_first()
                    =~= tall(h, cursor.after().drop_first(), i as int));
            }
            let prev = self.prev_pointers[i];
            let next = layer.pointer(Some(x), i);
            layer.set_pointer(prev, i, next);
            proof {
                layer.lemma_erase_level(
                    layer2,
                    i as int,
                    visible,
                    bef,
                    stale,
                    ins,
                    aft,
                    prev,
                    self.insertion_nodes@[i as int],
                );
                assert forall|level: int| 0 <= level < layer0.levels().len() implies #[trigger]
                    self.erasing(*layer, layer0, level, i + 1) by {
                    if level != i {
                        assert(self.erasing(layer2, layer0, level, i as int));
                        cursor.lemma_level(layer0, level);
                        cursor.lemma_erased_levels(layer0, level);
                        let seen = if level < i {
                            cursor.erased_level(layer0, level)
                        } else {
                            layer0.levels()[level]
                        };
                        assert(layer2.all_reach(seen, level)) by {
                            assert(layer0.all_reach(seen, level));
                        }
                        assert(layer2.all_reach(tall(h, cursor.inserted(), level), level)) by {
                            assert(layer0.all_reach(tall(h, cursor.inserted(), level), level));
                        }
                        assert(layer2.has_link(None, level));
                        layer.lemma_state_frame(
                            layer2,
                            level,
                            seen,
                            tall(h, cursor.before(), level),
                            if level < i {
                                cursor.erased_stale(layer0, level)
                            } else {
                                cursor.stale()[level]
                            },
                            tall(h, cursor.inserted(), level),
                            if level < i {
                                tall(h, cursor.after().drop_first(), level)
                            } else {
                                tall(h, cursor.after(), level)
                            },
                            self.prev_pointers@[level],
                            self.insertion_nodes@[level],
                        );
                    }
                }
            }
            i = i + 1;
        }
        let ghost count = layer0.levels().len();
        let ghost levels = Seq::new(count, |level: int| cursor.erased_level(layer0, level));
        let ghost stale = Seq::new(count, |level: int| cursor.erased_stale(layer0, level));
        let ghost layer2 = *layer;
        let ghost here = *self;
        layer.model = Ghost(LayerModel { levels, ..layer0.model@ });
        self.model = Ghost(
            CursorModel { after: cursor.after().drop_first(), stale, ..cursor.model@ },
        );
        proof {
            let rest = cursor.after().drop_first();
            assert(layer.heights() =~= h);
            assert forall|level: int| 0 <= level < count implies #[trigger] self.level_ok(
                *layer,
                level,
            ) by {
                assert(here.erasing(layer2, layer0, level, height as int));
                lemma_tall_first(h, cursor.after(), level);
                let all = layer2.level_state(
                    level,
                    levels[level],
                    tall(h, cursor.before(), level),
                    stale[level],
                    tall(h, cursor.inserted(), level),
                    tall(h, rest, level),
                    self.prev_pointers@[level],
                    self.insertion_nodes@[level],
                );
                assert(all);
                assert(layer.linked(level, levels[level])) by {
                    assert forall|j: int| -1 <= j < levels[level].len() implies layer.next(
                        #[trigger] src(levels[level], j),
                        level,
                    ) == elem(levels[level], j + 1) by {
                        assert(layer2.next(src(levels[level], j), level) == elem(
                            levels[level],
                            j + 1,
                        ));
                    }
                }
                let ins = tall(h, cursor.inserted(), level);
                assert(layer.tail_linked(level, ins, elem(tall(h, rest, level), 0))) by {
                    assert forall|j: int| 0 <= j < ins.len() implies layer.next(
                        #[trigger] src(ins, j),
                        level,
                    ) == if j + 1 < ins.len() {
                        Some(ins[j + 1])
                    } else {
                        elem(tall(h, rest, level), 0)
                    } by {
                        assert(layer2.next(src(ins, j), level) == layer.next(
                            src(ins, j),
                            level,
                        ));
                    }
                }
            }
            assert forall|m: usize| #[trigger] layer.alive(m) == layer0.alive(m) by {
                assert(layer2.alive(m) == layer0.alive(m));
            }
            assert forall|r: Option<usize>, k: int| #[trigger] layer.has_link(r, k)
                == layer0.has_link(r, k) by {
                assert(layer2.has_link(r, k) == layer0.has_link(r, k));
            }
            assert forall|level: int| 0 <= level < count implies #[trigger] layer.level_wf(
                level,
            ) by {
                cursor.lemma_erased_levels(layer0, level);
                assert(self.level_ok(*layer, level));
                assert(layer0.all_reach(levels[level], level));
                assert(layer.all_reach(levels[level], level));
            }
            assert(layer.chain() == layer0.chain());
            assert(layer.chain() =~= self.before() + self.stale()[0] + self.after());
            assert(self.nodes_ok(*layer)) by {
                assert forall|m: usize| #[trigger] layer.alive(m) <==> layer.chain().contains(m)
                    || self.inserted().contains(m) by {
                    assert(layer0.alive(m) <==> layer0.chain().contains(m)
                        || cursor.inserted().contains(m));
                }
            }
            assert(self.insertion_point_ok(*layer)) by {
                assert forall|level: int| 0 <= level < point.len() implies #[trigger] point[level]
                    == last_of(tall(h, self.before(), level)) by {
                    if cursor.insertion_point is None {
                        assert(cursor.level_ok(layer0, level));
                        assert(cursor.stale()[level] =~= Seq::empty());
                        let b = tall(h, cursor.before(), level);
                        assert(b + cursor.stale()[level] =~= b);
                        assert(tall(h, cursor.inserted(), level).len() == 0);
                    }
                }
            }
            assert(layer.slots_wf()) by {
                assert forall|m: usize| #[trigger] layer.alive(m) implies 1 <= layer.node(
                    m,
                ).pointers@.len() <= layer.pointers@.len() by {
                    assert(layer2.alive(m));
                    assert(layer0.alive(m));
                }
                assert forall|m: usize|
                    m < layer.nodes@.len() && !(#[trigger] layer.alive(
                        m,
                    )) implies layer.free@.contains(m) by {
                    assert(!layer0.alive(m));
                }
                assert forall|k: int| 0 <= k < layer.free@.len() implies (
                #[trigger] layer.free@[k]) < layer.nodes@.len() && layer.nodes@[layer.free@[k] as int] is None by {
                    let m = layer0.free@[k];
                    assert(!layer0.alive(m));
                    assert(!layer.alive(m));
                }
            }
            assert forall|m: usize| #[trigger] layer0.alive(m) implies layer.alive(m)
                && layer.node(m).item == layer0.node(m).item && layer.node(m).pointers@.len()
                == layer0.node(m).pointers@.len() by {
                assert(layer2.alive(m));
                assert(layer.alive(m));
            }
            layer.lemma_keeps_readers(layer0);
            let list0 = cursor.before() + cursor.inserted() + cursor.after();
            let list1 = self.before() + self.inserted() + self.after();
            let at = cursor.position() as int;
            assert(list1 =~= list0.remove(at));
            let items1 = self.items(*layer);
            let items0 = cursor.items(layer0);
            let heights1 = self.item_heights(*layer);
            let heights0 = cursor.item_heights(layer0);
            assert forall|k: int|
                #![trigger items1[k]]
                #![trigger heights1[k]]
                0 <= k < items1.len() implies items1[k] == items0.remove(at)[k] && heights1[k]
                == heights0.remove(at)[k] by {
                let k0 = if k < at {
                    k
                } else {
                    k + 1
                };
                assert(list1[k] == list0[k0]);
                cursor.lemma_list_alive(layer0, k0);
                assert(layer0.alive(list0[k0]));
            }
            assert(items1 =~= items0.remove(at));
            assert(heights1 =~= heights0.remove(at));
        }
    }
}

impl<K: Key, V: Clone> SkipListLayer<K, V> {
    /// Moves the writer's iterator to the next item. Once there are changes, the current item is
    /// copied into the chain of new nodes.
    pub fn advance_mut(&mut self, iter: &mut SkipListLayerIterMut)
        requires
            old(iter).wf(*old(self)),
            old(self).level_count() < 32,
        ensures
            final(iter).after_advance(*final(self), *old(iter), *old(self)),
            old(iter).position() >= old(iter).items(*old(self)).len() || !old(iter).changed()
                ==> final(iter).item_heights(*final(self)) == old(iter).item_heights(*old(self)),
            old(iter).position() < old(iter).items(*old(self)).len() && old(iter).changed() ==> {
                let at = old(iter).position() as int;
                exists|height: nat| #[trigger]
                    drawn(old(self).level_count(), height) && final(iter).item_heights(*final(self))
                        == old(iter).item_heights(*old(self)).update(at, height)
            },
    {
        if iter.insertion_point.is_some() {
            let copy = match iter.get(self) {
                Some(item) => Some(item.cloned()),
                None => None,
            };
            match copy {
                Some(item) => {
                    let ghost items = iter.items(*self);
                    let ghost heights = iter.item_heights(*self);
                    let ghost at = iter.position() as int;
                    iter.insert(self, item);
                    let ghost grown = iter.items(*self);
                    let ghost height = choose|height: nat| #[trigger]
                        drawn(self.level_count(), height) && iter.item_heights(*self)
                            == heights.insert(at, height);
                    let ghost middle = *self;
                    iter.erase(self);
                    proof {
                        self.lemma_keeps_transitive(middle, *old(self));
                    }
                    assert(grown == items.insert(at, item));
                    assert(grown.remove(at + 1) =~= items.update(at, item));
                    assert(iter.items(*self)[at] == item);
                    assert(heights.insert(at, height).remove(at + 1) =~= heights.update(at, height));
                },
                None => {
                    proof {
                        self.lemma_keeps_readers(*self);
                    }
                },
            }
        } else {
            iter.step(self);
            proof {
                self.lemma_keeps_readers(*self);
            }
        }
    }
}

impl SkipListLayerIterMut {
    /// Inserts an item before the current one. The height of its node is drawn at random.
    pub fn insert<K, V>(&mut self, layer: &mut SkipListLayer<K, V>, item: Item<K, V>)
        requires
            old(self).wf(*old(layer)),
            old(layer).level_count() < 32,
        ensures
            final(self).after_insert(*final(layer), *old(self), *old(layer), item),
            exists|height: nat| #[trigger]
                drawn(old(layer).level_count(), height) && final(self).item_heights(*final(layer))
                    == old(self).item_heights(*old(layer)).insert(
                    old(self).position() as int,
                    height,
                ),
    {
        let max: usize = layer.pointers.len();
        let mut bound: u32 = 1;
        let mut i: usize = 1;
        assert(pow2(1) == 2) by {
            reveal_with_fuel(pow2, 2);
        }
        while i < max
            invariant
                i <= max < 32 || (i == 1 && max == 0),
                bound + 1 == pow2(i as nat),
            decreases max - i,
        {
            proof {
                lemma_pow2_grows((i + 1) as nat, 31);
                assert(pow2(31) == 0x8000_0000) by {
                    reveal_with_fuel(pow2, 32);
                }
                assert(pow2((i + 1) as nat) == 2 * pow2(i as nat));
            }
            bound = 2 * bound + 1;
            i = i + 1;
        }
        let draw: u32 = draw_below(bound as u128) as u32;
        self.insert_with_draw(layer, item, draw);
        assert(drawn(max as nat, pointer_count(max as nat, draw as nat)));
    }

    /// Moves to the next item when there are no changes.
    fn step<K, V>(&mut self, layer: &SkipListLayer<K, V>)
        requires
            old(self).wf(*layer),
            !old(self).changed(),
        ensures
            final(self).wf(*layer),
            !final(self).changed(),
            final(self).start() == final(self).position(),
            final(self).items(*layer) == old(self).items(*layer),
            final(self).item_heights(*layer) == old(self).item_heights(*layer),
            final(self).position() == if old(self).position() < old(self).items(*layer).len() {
                old(self).position() + 1
            } else {
                old(self).position()
            },
    {
        let ghost cursor = *self;
        let ghost h = layer.heights();
        proof {
            self.lemma_level(*layer, 0);
            self.lemma_bottom(*layer);
        }
        let x: usize = match layer.pointer(self.prev_pointers[0], 0) {
            None => {
                return ;
            },
            Some(x) => x,
        };
        assert(x == self.after()[0]);
        assert(self.after().contains(x));
        assert(layer.alive(x));
        let height: usize = match &layer.nodes[x] {
            Some(node) => node.pointers.len(),
            None => 0,
        };
        assert(height == h[x as int]);
        let mut i: usize = 0;
        while i < height
            invariant
                i <= height,
                height <= self.prev_pointers@.len(),
                self.prev_pointers@.len() == cursor.prev_pointers@.len(),
                self.insertion_nodes == cursor.insertion_nodes,
                self.insertion_point == cursor.insertion_point,
                self.model == cursor.model,
                forall|level: int|
                    0 <= level < self.prev_pointers@.len() ==> #[trigger] self.prev_pointers@[level]
                        == if level < i {
                        Some(x)
                    } else {
                        cursor.prev_pointers@[level]
                    },
            decreases height - i,
        {
            self.prev_pointers[i] = Some(x);
            i = i + 1;
        }
        self.model = Ghost(
            CursorModel {
                before: cursor.before().push(x),
                after: cursor.after().drop_first(),
                ..cursor.model@
            },
        );
        proof {
            let before = cursor.before().push(x);
            let after = cursor.after().drop_first();
            assert forall|level: int| 0 <= level < layer.levels().len() implies #[trigger]
                self.level_ok(*layer, level) by {
                cursor.lemma_level(*layer, level);
                assert(cursor.level_ok(*layer, level));
                lemma_tall_push(h, cursor.before(), x, level);
                lemma_tall_first(h, cursor.after(), level);
                let b = tall(h, cursor.before(), level);
                let a = tall(h, after, level);
                let none = cursor.stale()[level];
                assert(none =~= Seq::empty());
                assert(tall(h, cursor.inserted(), level).len() == 0);
                if level < height {
                    assert(b + none + (seq![x] + a) =~= b.push(x) + none + a);
                    assert(b.push(x) + none =~= b.push(x));
                }
            }
            assert(cursor.stale()[0] =~= Seq::empty());
            assert(layer.chain() =~= self.before() + self.stale()[0] + self.after());
            let list0 = cursor.before() + cursor.inserted() + cursor.after();
            assert(cursor.inserted() =~= Seq::empty());
            assert(before + self.inserted() + after =~= list0);
            assert(self.insertion_point_ok(*layer)) by {
                assert(self.stale() == cursor.stale());
            }
        }
    }
}

impl<K: Key, V> SkipListLayer<K, V> {
    /// How a key splits a level of a sorted list.
    proof fn lemma_split(self, level: int, key: K)
        requires
            self.wf(),
            self.model@.phase !is Writing,
            sorted(self@),
            0 <= level < self.levels().len(),
        ensures
            ({
                let lb = lower_bound(self@, key) as int;
                let before = tall(self.heights(), self.chain().take(lb), level);
                let after = tall(self.heights(), self.chain().skip(lb), level);
                &&& lb <= self.chain().len()
                &&& self.levels()[level] == before + after
                &&& forall|j: int|
                    0 <= j < before.len() ==> self.node(
                        #[trigger] before[j],
                    ).item.key.before(key)
                &&& forall|j: int|
                    0 <= j < after.len() ==> !self.node(#[trigger] after[j]).item.key.before(key)
            }),
    {
        let items = self@;
        let h = self.heights();
        let chain = self.chain();
        lemma_lower_bound(items, key);
        lemma_lower_bound_sorted(items, key);
        let lb = lower_bound(items, key) as int;
        let left = chain.take(lb);
        let right = chain.skip(lb);
        lemma_tall_add(h, left, right, level);
        assert(left + right =~= chain);
        assert(self.levels()[level] == tall(h, chain, level));
        lemma_tall_contains(h, left, level);
        lemma_tall_contains(h, right, level);
        let before = tall(h, left, level);
        let after = tall(h, right, level);
        assert forall|j: int| 0 <= j < before.len() implies self.node(
            #[trigger] before[j],
        ).item.key.before(key) by {
            assert(before.contains(before[j]));
            let k = choose|k: int| 0 <= k < left.len() && left[k] == before[j];
            assert(items[k].key.before(key));
        }
        assert forall|j: int| 0 <= j < after.len() implies !self.node(
            #[trigger] after[j],
        ).item.key.before(key) by {
            assert(after.contains(after[j]));
            let k = choose|k: int| 0 <= k < right.len() && right[k] == after[j];
            assert(!items[lb + k].key.before(key));
        }
    }

    /// Finds the last node before `key` at every level. Nothing stands for the head.
    fn find_all(&self, key: &K) -> (result: Vec<Option<usize>>)
        requires
            self.wf(),
            self.idle(),
            sorted(self@),
        ensures
            result@.len() == self.levels().len(),
            forall|level: int|
                0 <= level < result@.len() ==> #[trigger] result@[level] == last_of(
                    tall(
                        self.heights(),
                        self.chain().take(lower_bound(self@, *key) as int),
                        level,
                    ),
                ),
    {
        let len: usize = self.pointers.len();
        let ghost h = self.heights();
        let ghost left = self.chain().take(lower_bound(self@, *key) as int);
        let mut result: Vec<Option<usize>> = Vec::new();
        let mut k: usize = 0;
        while k < len
            invariant
                k <= len,
                result@.len() == k,
            decreases len - k,
        {
            result.push(None);
            k = k + 1;
        }
        let mut index: usize = len - 1;
        let mut at: Option<usize> = None;
        let ghost mut pos: int = -1;
        assert(src(self.levels()[index as int], -1) is None);
        loop
            invariant
                self.wf(),
                self.idle(),
                sorted(self@),
                h == self.heights(),
                left == self.chain().take(lower_bound(self@, *key) as int),
                result@.len() == self.levels().len(),
                index < self.levels().len(),
                -1 <= pos < self.levels()[index as int].len(),
                at == src(self.levels()[index as int], pos),
                at is Some ==> self.node(at->0).item.key.before(*key),
                forall|level: int|
                    index < level < result@.len() ==> #[trigger] result@[level] == last_of(
                        tall(h, left, level),
                    ),
            ensures
                result@.len() == self.levels().len(),
                forall|level: int|
                    0 <= level < result@.len() ==> #[trigger] result@[level] == last_of(
                        tall(h, left, level),
                    ),
            decreases index, self.levels()[index as int].len() - pos,
        {
            assert(self.level_wf(index as int));
            let ghost level = self.levels()[index as int];
            assert(at is Some ==> self.has_link(Some(level[pos]), index as int));
            let next = self.pointer(at, index);
            assert(next == elem(level, pos + 1));
            let mut go_on = false;
            if let Some(n) = next {
                assert(self.has_link(Some(level[pos + 1]), index as int));
                match &self.nodes[n] {
                    Some(node) => {
                        go_on = node.item.key.is_before(key);
                    },
                    None => {},
                }
            }
            if go_on {
                at = next;
                proof {
                    pos = pos + 1;
                }
            } else {
                proof {
                    self.lemma_split(index as int, *key);
                    let lb = lower_bound(self@, *key) as int;
                    let b = tall(h, left, index as int);
                    let a = tall(h, self.chain().skip(lb), index as int);
                    if pos >= b.len() {
                        assert(level[pos] == a[pos - b.len()]);
                    }
                    if pos + 1 < b.len() {
                        assert(level[pos + 1] == b[pos + 1]);
                    }
                    assert(pos + 1 == b.len());
                    if pos >= 0 {
                        assert(level[pos] == b[pos]);
                    }
                }
                result.set(index, at);
                if index == 0 {
                    break ;
                }
                index = index - 1;
                proof {
                    let below = self.levels()[index as int];
                    if at is None {
                        pos = -1;
                        assert(src(below, -1) is None);
                    } else {
                        assert(below.contains(level[pos]));
                        pos = below.index_of(at->0);
                    }
                }
            }
        }
        result
    }

    /// Starts a writer.
    pub fn iter_mut(&mut self, bound: Bound<'_, K>) -> (result: SkipListLayerIterMut)
        requires
            old(self).wf(),
            old(self).idle(),
            bound !is Excluded,
            bound is Included ==> sorted(old(self)@),
        ensures
            final(self).wf(),
            result.wf(*final(self)),
            result.items(*final(self)) == old(self)@,
            result.item_heights(*final(self)) == old(self).item_heights(),
            result.position() == start_of(old(self)@, bound),
            result.start() == result.position(),
            !result.changed(),
            final(self).keeps_readers(*old(self)),
    {
        let len: usize = self.pointers.len();
        let ghost h = self.heights();
        let ghost at = start_of(self@, bound) as int;
        let ghost chain = self.chain();
        let ghost before = chain.take(at);
        let ghost after = chain.skip(at);
        let prev_pointers = match bound {
            Bound::Included(key) => self.find_all(key),
            _ => {
                let mut list: Vec<Option<usize>> = Vec::new();
                let mut k: usize = 0;
                while k < len
                    invariant
                        k <= len,
                        list@.len() == k,
                        forall|j: int| 0 <= j < k ==> #[trigger] list@[j] is None,
                    decreases len - k,
                {
                    list.push(None);
                    k = k + 1;
                }
                proof {
                    assert(before =~= Seq::empty());
                }
                list
            },
        };
        proof {
            match bound {
                Bound::Included(key) => {
                    lemma_lower_bound(self@, *key);
                },
                _ => {},
            }
        }
        let ghost old_self = *self;
        self.model = Ghost(LayerModel { phase: Phase::Writing, ..self.model@ });
        let result = SkipListLayerIterMut {
            prev_pointers,
            insertion_point: None,
            insertion_nodes: PointerList::new(len),
            model: Ghost(
                CursorModel {
                    before,
                    inserted: Seq::empty(),
                    after,
                    stale: Seq::new(len as nat, |i: int| Seq::<usize>::empty()),
                },
            ),
        };
        proof {
            assert(self.heights() =~= h);
            assert(forall|n: usize| #[trigger] self.alive(n) == old_self.alive(n));
            assert(before + after =~= chain);
            assert forall|level: int| 0 <= level < self.levels().len() implies #[trigger]
                self.level_wf(level) by {
                assert(old_self.level_wf(level));
            }
            assert forall|n: usize| #[trigger] self.alive(n) <==> chain.contains(n)
                || result.inserted().contains(n) by {
                assert(old_self.alive(n) == self.alive(n));
                if chain.contains(n) {
                    assert(old_self.level_wf(0));
                    let j = choose|j: int| 0 <= j < chain.len() && chain[j] == n;
                    assert(old_self.has_link(Some(chain[j]), 0));
                }
            }
            assert(before + result.stale()[0] + after =~= chain);
            assert forall|level: int| 0 <= level < self.levels().len() implies #[trigger]
                result.level_ok(*self, level) by {
                assert(self.level_wf(level));
                lemma_tall_add(h, before, after, level);
                let b = tall(h, before, level);
                let a = tall(h, after, level);
                assert(b + Seq::empty() + a =~= b + a);
                assert(b + Seq::<usize>::empty() =~= b);
                assert(old_self.levels()[level] == tall(h, chain, level));
            }
            self.lemma_keeps_readers(old_self);
            assert(before + Seq::empty() + after =~= chain);
            assert(result.items(*self) =~= old_self@);
            assert(result.item_heights(*self) =~= old_self.item_heights());
        }
        result
    }
}

/// A commit that waits for the readers of the past epoch before it frees the erased nodes.
pub struct PendingCommit {
    /// The past epoch.
    epoch: usize,
    /// The first node to free.
    first: Option<usize>,
    /// The node at which to stop.
    end: Option<usize>,
}

impl PendingCommit {
    /// The layer waits for this commit.
    pub closed spec fn valid<K, V>(self, layer: SkipListLayer<K, V>) -> bool {
        &&& layer.committing()
        &&& self.epoch + layer.epoch() == 1
        &&& self.end == layer.model@.dying_next
        &&& self.first == if layer.model@.dying.len() > 0 {
            elem(layer.model@.dying, 0)
        } else {
            self.end
        }
    }

    /// The past epoch.
    pub closed spec fn epoch(self) -> nat {
        self.epoch as nat
    }
}

impl<K, V> SkipListLayer<K, V> {
    /// What a commit means for a reader: one that had passed the first change, or stood at it,
    /// reads on as if nothing had happened; one before it reads the new list from where it is.
    pub open spec fn committed_for(
        self,
        old_layer: Self,
        start: nat,
        iter: SkipListLayerIter,
    ) -> bool {
        iter.valid(old_layer) ==> {
            let place = old_layer@.len() - iter.remaining(old_layer).len();
            &&& iter.valid(self)
            &&& place >= start ==> iter.remaining(self) == iter.remaining(old_layer)
            &&& place < start ==> iter.remaining(self) == self@.skip(place)
        }
    }

    /// A commit of the writer `iter`, which returned `pending`, led here from another layer. With
    /// changes, the epoch is switched and the nodes of the old list from the first change up to
    /// the writer wait to be freed; without, nothing happens.
    pub open spec fn after_commit(
        self,
        old_layer: Self,
        iter: SkipListLayerIterMut,
        pending: Option<PendingCommit>,
    ) -> bool {
        &&& self.wf()
        &&& self@ == iter.items(old_layer)
        &&& self.item_heights() == iter.item_heights(old_layer)
        &&& self.level_count() == old_layer.level_count()
        &&& pending is Some <==> iter.changed()
        &&& pending is None ==> self.idle() && self.keeps_readers(old_layer)
        &&& pending is Some ==> {
            &&& pending->0.valid(self)
            &&& pending->0.epoch() == old_layer.epoch()
            &&& self.committing()
            &&& self.epoch() == 1 - old_layer.epoch()
            &&& self.reader_count(self.epoch()) == 0
            &&& self.waiting() + iter.start() + self@.len() == old_layer@.len() + iter.position()
            &&& forall|e: nat| #[trigger] self.reader_count(e) == old_layer.reader_count(e)
            &&& forall|r: SkipListLayerIter| #[trigger]
                self.committed_for(old_layer, iter.start(), r)
        }
    }

    /// One level of a commit.
    proof fn lemma_commit_level(
        self,
        other: Self,
        level: int,
        visible: Seq<usize>,
        before: Seq<usize>,
        stale: Seq<usize>,
        inserted: Seq<usize>,
        after: Seq<usize>,
        prev: Option<usize>,
        first: Option<usize>,
    )
        requires
            other.level_state(level, visible, before, stale, inserted, after, prev, first),
            other.all_reach(visible, level),
            other.all_reach(inserted, level),
            other.has_link(None, level),
            visible.no_duplicates(),
            forall|j: int| 0 <= j < inserted.len() ==> !visible.contains(#[trigger] inserted[j]),
            forall|r: Option<usize>| #[trigger]
                other.has_link(r, level) && r != last_of(before) ==> self.next(r, level)
                    == other.next(r, level),
            self.next(last_of(before), level) == if inserted.len() > 0 {
                elem(inserted, 0)
            } else {
                elem(after, 0)
            },
        ensures
            self.linked(level, before + inserted + after),
    {
        let s = before + inserted + after;
        let b = before.len() as int;
        let m = b + inserted.len();
        assert forall|j: int| -1 <= j < s.len() implies self.next(#[trigger] src(s, j), level)
            == elem(s, j + 1) by {
            if j < b - 1 {
                assert(src(visible, j) == src(s, j));
                if j >= 0 {
                    assert(other.has_link(Some(visible[j]), level));
                    assert(visible[j] != visible[b - 1]);
                } else {
                    assert(other.has_link(None, level));
                }
                assert(elem(visible, j + 1) == elem(s, j + 1));
            } else if j == b - 1 {
                assert(src(s, j) == last_of(before));
            } else if j < m {
                assert(src(inserted, j - b) == src(s, j));
                assert(other.has_link(Some(inserted[j - b]), level));
                if b > 0 {
                    assert(visible.contains(visible[b - 1]));
                    assert(!visible.contains(inserted[j - b]));
                }
            } else {
                let k = j - m + b + stale.len();
                assert(src(visible, k) == src(s, j));
                assert(other.has_link(Some(visible[k]), level));
                if b > 0 {
                    assert(visible[k] != visible[b - 1]);
                }
                assert(elem(visible, k + 1) == elem(s, j + 1));
            }
        }
    }

    /// When there is no reader in the past epoch, no reader is in it.
    proof fn lemma_reader_epoch(self, iter: SkipListLayerIter)
        requires
            self.wf(),
            iter.valid(self),
            self.read_counts.counts@[1 - self.read_counts.epoch as int] == 0,
        ensures
            iter.epoch() == self.epoch(),
    {
        if iter.epoch() != self.epoch() {
            let set = readers_in(self.model@.readers, iter.epoch());
            assert(set.contains(iter.id@));
            assert(set.len() == 0);
        }
    }

    /// Splices the changes of a writer into the list. Returns what is left to do once the readers
    /// of the past epoch are gone, or nothing when there were no changes.
    #[verifier::rlimit(60)]
    pub fn commit(&mut self, iter: SkipListLayerIterMut) -> (result: Option<PendingCommit>)
        requires
            iter.wf(*old(self)),
        ensures
            final(self).after_commit(*old(self), iter, result),
    {
        let ghost layer0 = *self;
        let ghost h = layer0.heights();
        proof {
            iter.lemma_bottom(layer0);
            iter.lemma_level(layer0, 0);
        }
        let ghost b = iter.before();
        let ghost ins = iter.inserted();
        let ghost a = iter.after();
        let ghost chain = b + ins + a;
        let point = match &iter.insertion_point {
            None => {
                self.model = Ghost(LayerModel { phase: Phase::Idle, ..self.model@ });
                proof {
                    self.lemma_commit_nothing(layer0, iter);
                }
                return None;
            },
            Some(point) => point,
        };
        assert(point@[0] == last_of(tall(h, b, 0)));
        proof {
            if b.len() > 0 {
                assert(layer0.chain()[b.len() - 1] == b[b.len() - 1]);
                assert(layer0.has_link(Some(layer0.chain()[b.len() - 1]), 0));
            }
        }
        let maybe_erase = self.pointer(point[0], 0);
        let end = self.pointer(iter.prev_pointers[0], 0);
        proof {
            assert(src(layer0.chain(), b.len() - 1) == point@[0]);
            assert(maybe_erase == elem(layer0.chain(), b.len() as int));
        }
        if iter.insertion_nodes.get(0).is_none() {
            self.set_pointer(point[0], 0, end);
            proof {
                assert(ins.len() == 0);
                assert forall|level: int|
                    0 <= level < layer0.levels().len() implies #[trigger] iter.spliced(
                    *self,
                    layer0,
                    level,
                ) by {
                    iter.lemma_level(layer0, level);
                    iter.lemma_point(layer0, level);
                    assert(tall(h, ins, level).len() == 0);
                }
            }
        } else {
            let count: usize = iter.insertion_nodes.len();
            let mut i: usize = 0;
            while i < count
                invariant
                    i <= count,
                    count == layer0.levels().len(),
                    iter.wf(layer0),
                    iter.insertion_point == Some(*point),
                    h == layer0.heights(),
                    ins == iter.inserted(),
                    ins.len() > 0,
                    tall(h, ins, 0) == ins,
                    self.same_shape(layer0),
                    forall|level: int| 0 <= level < i ==> #[trigger] iter.spliced(*self, layer0, level),
                    forall|r: Option<usize>, k: int|
                        k >= i && #[trigger] layer0.has_link(r, k) ==> self.next(r, k)
                            == layer0.next(r, k),
                decreases count - i,
            {
                let ghost before = *self;
                proof {
                    iter.lemma_level(layer0, i as int);
                    iter.lemma_point(layer0, i as int);
                    assert(point@[i as int] == last_of(tall(h, iter.before(), i as int)));
                }
                let node = iter.insertion_nodes.get(i);
                if node.is_some() {
                    assert(self.has_link(point@[i as int], i as int));
                    self.set_pointer(point[i], i, node);
                }
                proof {
                    assert forall|level: int| 0 <= level < i + 1 implies #[trigger] iter.spliced(
                        *self,
                        layer0,
                        level,
                    ) by {
                        iter.lemma_point(layer0, level);
                        if level < i {
                            assert(iter.spliced(before, layer0, level));
                            assert forall|r: Option<usize>|
                                #[trigger] layer0.has_link(r, level) && r != last_of(
                                    tall(h, iter.before(), level),
                                ) implies self.next(r, level) == layer0.next(r, level) by {
                                assert(before.has_link(r, level));
                            }
                            assert(before.has_link(
                                last_of(tall(h, iter.before(), level)),
                                level,
                            ));
                        }
                    }
                    assert forall|r: Option<usize>, k: int|
                        k >= i + 1 && #[trigger] layer0.has_link(r, k) implies self.next(r, k)
                        == layer0.next(r, k) by {
                        assert(before.has_link(r, k));
                    }
                }
                i = i + 1;
            }
        }
        let ghost layer1 = *self;
        let epoch: usize = self.read_counts.epoch;
        self.read_counts.epoch = 1 - epoch;
        let ghost levels = Seq::new(layer0.levels().len(), |level: int| tall(h, chain, level));
        self.model = Ghost(
            LayerModel {
                levels,
                dying: iter.stale()[0],
                dying_next: elem(a, 0),
                phase: Phase::Committing,
                ..layer0.model@
            },
        );
        proof {
            self.lemma_committed(layer1, layer0, iter);
        }
        Some(PendingCommit { epoch, first: maybe_erase, end })
    }
}

impl SkipListLayerIterMut {
    /// The links of a level are those after a commit.
    spec fn spliced<K, V>(
        self,
        layer: SkipListLayer<K, V>,
        layer0: SkipListLayer<K, V>,
        level: int,
    ) -> bool {
        let h = layer0.heights();
        let point = last_of(tall(h, self.before(), level));
        let ins = tall(h, self.inserted(), level);
        let aft = tall(h, self.after(), level);
        &&& forall|r: Option<usize>| #[trigger]
            layer0.has_link(r, level) && r != point ==> layer.next(r, level) == layer0.next(
                r,
                level,
            )
        &&& layer.next(point, level) == if ins.len() > 0 {
            elem(ins, 0)
        } else {
            elem(aft, 0)
        }
    }

    /// The link at which a commit splices.
    proof fn lemma_point<K, V>(self, layer: SkipListLayer<K, V>, level: int)
        requires
            self.wf(layer),
            0 <= level < layer.levels().len(),
        ensures
            layer.has_link(last_of(tall(layer.heights(), self.before(), level)), level),
            level > 0 && tall(layer.heights(), self.inserted(), level).len() == 0 ==> layer.next(
                last_of(tall(layer.heights(), self.before(), level)),
                level,
            ) == elem(tall(layer.heights(), self.after(), level), 0),
    {
        self.lemma_level(layer, level);
        let b = tall(layer.heights(), self.before(), level);
        let a = tall(layer.heights(), self.after(), level);
        let visible = layer.levels()[level];
        assert(layer.level_wf(level));
        assert(src(visible, b.len() - 1) == last_of(b));
        if b.len() > 0 {
            assert(layer.has_link(Some(visible[b.len() - 1]), level));
        }
        if level > 0 && tall(layer.heights(), self.inserted(), level).len() == 0 {
            assert(elem(visible, b.len() as int) == elem(a, 0));
        }
    }
}

impl<K, V> SkipListLayer<K, V> {
    /// A writer without changes leaves the list as it was.
    proof fn lemma_commit_nothing(self, layer0: Self, iter: SkipListLayerIterMut)
        requires
            iter.wf(layer0),
            !iter.changed(),
            self == (SkipListLayer {
                model: Ghost(LayerModel { phase: Phase::Idle, ..layer0.model@ }),
                ..layer0
            }),
        ensures
            self.wf(),
            self.idle(),
            self@ == iter.items(layer0),
            self.item_heights() == iter.item_heights(layer0),
            self.keeps_readers(layer0),
    {
        let h = layer0.heights();
        let b = iter.before();
        let a = iter.after();
        assert(self.heights() =~= h);
        assert(forall|n: usize| #[trigger] self.alive(n) == layer0.alive(n));
        assert(iter.inserted() =~= Seq::empty());
        assert(iter.stale()[0] =~= Seq::empty());
        assert(b + iter.stale()[0] + a =~= b + a);
        assert(b + iter.inserted() + a =~= b + a);
        assert forall|level: int| 0 <= level < self.levels().len() implies #[trigger]
            self.level_wf(level) by {
            assert(layer0.level_wf(level));
        }
        assert forall|level: int| 0 <= level < self.levels().len() implies #[trigger]
            self.levels()[level] == tall(h, self.chain(), level) by {
            assert(iter.level_ok(layer0, level));
            assert(iter.stale()[level] =~= Seq::empty());
            lemma_tall_add(h, b, a, level);
            assert(tall(h, b, level) + iter.stale()[level] + tall(h, a, level) =~= tall(
                h,
                b,
                level,
            ) + tall(h, a, level));
        }
        self.lemma_keeps_readers(layer0);
        assert(self@ =~= iter.items(layer0));
        assert(self.item_heights() =~= iter.item_heights(layer0));
    }

    /// The list after a commit.
    #[verifier::rlimit(60)]
    proof fn lemma_committed(self, layer1: Self, layer0: Self, iter: SkipListLayerIterMut)
        requires
            iter.wf(layer0),
            iter.changed(),
            layer1.same_shape(layer0),
            forall|level: int|
                0 <= level < layer0.levels().len() ==> #[trigger] iter.spliced(
                    layer1,
                    layer0,
                    level,
                ),
            self.nodes == layer1.nodes,
            self.free == layer1.free,
            self.pointers == layer1.pointers,
            self.read_counts.counts == layer0.read_counts.counts,
            self.read_counts.epoch == 1 - layer0.read_counts.epoch,
            self.model@ == (LayerModel {
                levels: Seq::new(
                    layer0.levels().len(),
                    |level: int|
                        tall(
                            layer0.heights(),
                            iter.before() + iter.inserted() + iter.after(),
                            level,
                        ),
                ),
                dying: iter.stale()[0],
                dying_next: elem(iter.after(), 0),
                phase: Phase::Committing,
                ..layer0.model@
            }),
        ensures
            self.wf(),
            self@ == iter.items(layer0),
            self.item_heights() == iter.item_heights(layer0),
            self.reader_count(self.epoch()) == 0,
            self.waiting() + iter.start() + self@.len() == layer0@.len() + iter.position(),
            forall|e: nat| #[trigger] self.reader_count(e) == layer0.reader_count(e),
            forall|r: SkipListLayerIter| #[trigger]
                self.committed_for(layer0, iter.start(), r),
    {
        let h = layer0.heights();
        let b = iter.before();
        let ins = iter.inserted();
        let a = iter.after();
        let dying = iter.stale()[0];
        let chain = b + ins + a;
        let old_chain = layer0.chain();
        let count = layer0.levels().len();
        assert(self.heights() =~= layer1.heights());
        assert forall|n: usize| #[trigger] self.alive(n) == layer0.alive(n) by {
            assert(layer1.alive(n) == layer0.alive(n));
        }
        assert forall|r: Option<usize>, k: int| #[trigger] self.has_link(r, k) == layer0.has_link(
            r,
            k,
        ) by {
            assert(layer1.has_link(r, k) == layer0.has_link(r, k));
        }
        iter.lemma_bottom(layer0);
        iter.lemma_level(layer0, 0);
        assert(layer0.level_wf(0));
        assert(old_chain =~= b + dying + a);
        // The new chain has no node twice.
        assert forall|i: int, j: int|
            0 <= i < chain.len() && 0 <= j < chain.len() && i != j implies chain[i] != chain[j] by {
            let bl = b.len() as int;
            let il = ins.len() as int;
            let oi = if i < bl {
                i
            } else {
                i - il + dying.len()
            };
            let oj = if j < bl {
                j
            } else {
                j - il + dying.len()
            };
            let in_i = bl <= i < bl + il;
            let in_j = bl <= j < bl + il;
            if in_i && in_j {
                assert(ins[i - bl] != ins[j - bl]);
            } else if in_i {
                assert(old_chain[oj] == chain[j]);
                assert(!old_chain.contains(ins[i - bl]));
            } else if in_j {
                assert(old_chain[oi] == chain[i]);
                assert(!old_chain.contains(ins[j - bl]));
            } else {
                assert(old_chain[oi] == chain[i]);
                assert(old_chain[oj] == chain[j]);
            }
        }
        assert forall|j: int| 0 <= j < chain.len() implies layer0.alive(#[trigger] chain[j]) by {
            iter.lemma_list_alive(layer0, j);
        }
        assert forall|n: usize| #[trigger] chain.contains(n) implies layer0.alive(n) by {}
        assert forall|j: int| 0 <= j < chain.len() implies h[#[trigger] chain[j] as int] > 0 by {
            assert(layer0.alive(chain[j]));
        }
        lemma_tall_all(h, chain, 0);
        assert(self.chain() == chain);
        assert forall|level: int| 0 <= level < count implies #[trigger] self.level_wf(level) by {
            iter.lemma_level(layer0, level);
            assert(layer0.level_wf(level));
            assert(iter.spliced(layer1, layer0, level));
            let bef = tall(h, b, level);
            let new = tall(h, ins, level);
            let aft = tall(h, a, level);
            lemma_tall_add(h, b + ins, a, level);
            lemma_tall_add(h, b, ins, level);
            let s = bef + new + aft;
            assert(self.levels()[level] == s);
            layer1.lemma_commit_level(
                layer0,
                level,
                layer0.levels()[level],
                bef,
                iter.stale()[level],
                new,
                aft,
                iter.prev_pointers@[level],
                iter.insertion_nodes@[level],
            );
            assert(self.linked(level, s)) by {
                assert forall|j: int| -1 <= j < s.len() implies self.next(
                    #[trigger] src(s, j),
                    level,
                ) == elem(s, j + 1) by {
                    assert(layer1.next(src(s, j), level) == elem(s, j + 1));
                }
            }
            lemma_tall_no_duplicates(h, chain, level);
            SkipListLayerIterMut::lemma_tall_reach(layer0, chain, level);
            assert(self.all_reach(s, level));
            if level > 0 {
                lemma_tall_contains(h, chain, level);
                lemma_tall_contains(h, chain, level - 1);
                assert forall|j: int| 0 <= j < s.len() implies self.levels()[level - 1].contains(
                    #[trigger] s[j],
                ) by {
                    assert(s.contains(s[j]));
                }
            }
        }
        // The erased nodes still lead to the rest of the list.
        assert forall|j: int| 0 <= j < dying.len() implies self.has_link(
            Some(#[trigger] dying[j]),
            0,
        ) && !chain.contains(dying[j]) && self.next(src(dying, j), 0) == if j + 1 < dying.len() {
            Some(dying[j + 1])
        } else {
            elem(a, 0)
        } by {
            let k = b.len() + j;
            assert(old_chain[k] == dying[j]);
            assert(layer0.has_link(Some(old_chain[k]), 0));
            assert(src(old_chain, k) == Some(dying[j]));
            assert(iter.spliced(layer1, layer0, 0));
            if b.len() > 0 {
                assert(old_chain[b.len() - 1] == b[b.len() - 1]);
            }
            assert(elem(old_chain, k + 1) == if j + 1 < dying.len() {
                Some(dying[j + 1])
            } else {
                elem(a, 0)
            });
            assert(layer1.next(Some(dying[j]), 0) == layer0.next(Some(dying[j]), 0));
            if chain.contains(dying[j]) {
                let i = choose|i: int| 0 <= i < chain.len() && chain[i] == dying[j];
                let bl = b.len() as int;
                let il = ins.len() as int;
                if i < bl {
                    assert(old_chain[i] == chain[i]);
                } else if i < bl + il {
                    assert(old_chain.contains(old_chain[k]));
                    assert(!old_chain.contains(ins[i - bl]));
                } else {
                    assert(old_chain[i - il + dying.len()] == chain[i]);
                }
            }
        }
        assert(self.dying_wf()) by {
            assert forall|i: int, j: int|
                0 <= i < dying.len() && 0 <= j < dying.len() && i != j implies dying[i]
                != dying[j] by {
                assert(old_chain[b.len() + i] == dying[i]);
                assert(old_chain[b.len() + j] == dying[j]);
            }
            if a.len() > 0 {
                assert(chain[(b + ins).len() as int] == a[0]);
            }
            assert forall|j: int| 0 <= j < dying.len() implies self.next(
                #[trigger] src(dying, j),
                0,
            ) == if j + 1 < dying.len() {
                Some(dying[j + 1])
            } else {
                elem(a, 0)
            } by {
                assert(self.has_link(Some(dying[j]), 0));
            }
        }
        assert(self.settled()) by {
            assert forall|n: usize| #[trigger] self.alive(n) implies chain.contains(n)
                || dying.contains(n) by {
                if ins.contains(n) {
                    let j = choose|j: int| 0 <= j < ins.len() && ins[j] == n;
                    assert(chain[b.len() + j] == n);
                } else {
                    assert(layer0.alive(n));
                    let j = choose|j: int| 0 <= j < old_chain.len() && old_chain[j] == n;
                    let bl = b.len() as int;
                    if j < bl {
                        assert(chain[j] == n);
                    } else if j < bl + dying.len() {
                        assert(dying[j - bl] == n);
                    } else {
                        assert(chain[j - dying.len() + ins.len()] == n);
                    }
                }
            }
        }
        assert(self.slots_wf()) by {
            assert forall|m: usize| #[trigger] self.alive(m) implies 1 <= self.node(
                m,
            ).pointers@.len() <= self.pointers@.len() by {
                assert(layer1.alive(m));
                assert(layer0.alive(m));
            }
            assert forall|m: usize|
                m < self.nodes@.len() && !(#[trigger] self.alive(m)) implies self.free@.contains(
                m,
            ) by {
                assert(!layer0.alive(m));
            }
            assert forall|k: int| 0 <= k < self.free@.len() implies (
            #[trigger] self.free@[k]) < self.nodes@.len() && self.nodes@[self.free@[k] as int] is None by {
                let m = layer0.free@[k];
                assert(!layer0.alive(m));
                assert(!self.alive(m));
            }
        }
        assert forall|n: usize| #[trigger] layer0.alive(n) implies self.node(n).item
            == layer0.node(n).item && self.node(n).pointers@.len() == layer0.node(n).pointers@.len() by {
            assert(layer1.alive(n));
        }
        assert(self@ =~= iter.items(layer0));
        assert(self.item_heights() =~= iter.item_heights(layer0));
        assert(self.wf());
        assert forall|r: SkipListLayerIter| #[trigger]
            self.committed_for(layer0, iter.start(), r) by {
            if r.valid(layer0) {
                layer0.lemma_reader_epoch(r);
                self.lemma_committed_reader(layer0, iter, r);
            }
        }
    }

    /// What a reader sees after a commit.
    proof fn lemma_committed_reader(
        self,
        layer0: Self,
        iter: SkipListLayerIterMut,
        r: SkipListLayerIter,
    )
        requires
            iter.wf(layer0),
            self.wf(),
            self.committing(),
            r.valid(layer0),
            r.epoch() != self.epoch(),
            self.model@.readers == layer0.model@.readers,
            self.chain() == iter.before() + iter.inserted() + iter.after(),
            self.model@.dying == iter.stale()[0],
            self.model@.dying_next == elem(iter.after(), 0),
            forall|n: usize| #[trigger]
                layer0.alive(n) ==> self.node(n).item == layer0.node(n).item,
        ensures
            self.committed_for(layer0, iter.start(), r),
    {
        let b = iter.before();
        let ins = iter.inserted();
        let a = iter.after();
        let dying = iter.stale()[0];
        let chain = self.chain();
        let old_chain = layer0.chain();
        assert(layer0.level_wf(0));
        assert(self.level_wf(0));
        match r.node {
            None => {
                assert(self.items_of(Seq::empty()) =~= layer0.items_of(Seq::empty()));
            },
            Some(n) => {
                let k = old_chain.index_of(n);
                assert(old_chain[k] == n);
                let t0 = layer0.tail_from(r.node);
                let t1 = self.tail_from(r.node);
                assert(t0 == old_chain.skip(k));
                if k < b.len() {
                    assert(chain[k] == n);
                    assert(chain.index_of(n) == k);
                    assert(self.items_of(t1) =~= self@.skip(k));
                } else {
                    if k < b.len() + dying.len() {
                        let j = k - b.len();
                        assert(dying[j] == n);
                        assert(!chain.contains(dying[j]));
                        assert(dying.index_of(n) == j);
                        if a.len() > 0 {
                            let m = (b + ins).len() as int;
                            assert(chain[m] == a[0]);
                            assert(chain.index_of(a[0]) == m);
                            assert(chain.skip(m) =~= a);
                            assert(t1 =~= t0);
                        } else {
                            assert(t1 =~= t0);
                        }
                    } else {
                        let m = k - dying.len() + ins.len();
                        assert(chain[m] == n);
                        assert(chain.index_of(n) == m);
                        assert(t1 =~= t0);
                    }
                    assert forall|i: int| 0 <= i < t0.len() implies self.node(#[trigger] t0[i]).item
                        == layer0.node(t0[i]).item by {
                        assert(t0[i] == old_chain[k + i]);
                        assert(layer0.has_link(Some(old_chain[k + i]), 0));
                        assert(layer0.alive(t0[i]));
                    }
                    assert(self.items_of(t1) =~= layer0.items_of(t0));
                }
            },
        }
    }

    /// Tries to finish a commit: frees the erased nodes when the readers of the past epoch are
    /// gone. Tells whether it did.
    pub fn poll_commit(&mut self, pending: &PendingCommit) -> (result: bool)
        requires
            old(self).wf(),
            pending.valid(*old(self)),
        ensures
            result <==> old(self).reader_count(pending.epoch()) == 0,
            final(self).wf(),
            final(self).keeps_readers(*old(self)),
            result ==> final(self).idle() && final(self).waiting() == 0,
            !result ==> *final(self) == *old(self),
    {
        let ghost layer0 = *self;
        if self.read_counts.counts[pending.epoch] != 0 {
            proof {
                self.lemma_keeps_readers(*self);
            }
            return false;
        }
        let ghost dying = layer0.model@.dying;
        let ghost chain = layer0.chain();
        let ghost mut done: int = 0;
        let mut next = pending.first;
        proof {
            assert(layer0.level_wf(0));
        }
        loop
            invariant
                layer0.wf(),
                pending.valid(layer0),
                dying == layer0.model@.dying,
                chain == layer0.chain(),
                0 <= done <= dying.len(),
                next == if done < dying.len() {
                    Some(dying[done])
                } else {
                    pending.end
                },
                self.slots_wf(),
                self.pointers == layer0.pointers,
                self.read_counts == layer0.read_counts,
                self.model == layer0.model,
                forall|n: usize| #[trigger]
                    self.alive(n) <==> layer0.alive(n) && !dying.take(done).contains(n),
                forall|n: usize| #[trigger] self.alive(n) ==> self.node(n) == layer0.node(n),
            ensures
                done == dying.len(),
            decreases dying.len() - done,
        {
            let n: usize = match next {
                Some(n) => n,
                None => {
                    break ;
                },
            };
            proof {
                if done < dying.len() {
                    assert(!chain.contains(dying[done]));
                }
            }
            if let Some(end) = pending.end {
                if n == end {
                    break ;
                }
            }
            proof {
                assert(layer0.has_link(Some(dying[done]), 0));
                if dying.take(done).contains(n) {
                    let i = choose|i: int| 0 <= i < done && dying.take(done)[i] == n;
                    assert(dying[i] == dying[done]);
                }
                assert(self.alive(n));
                assert(src(dying, done) == Some(n));
                assert(layer0.next(Some(n), 0) == layer0.next(src(dying, done), 0));
            }
            let ghost before = *self;
            next = self.free_node(n);
            proof {
                let t0 = dying.take(done);
                let t1 = dying.take(done + 1);
                assert forall|m: usize| #[trigger]
                    self.alive(m) <==> layer0.alive(m) && !t1.contains(m) by {
                    if m == n {
                        assert(t1[done] == n);
                    } else {
                        assert(self.alive(m) == before.alive(m));
                        if t0.contains(m) {
                            let i = choose|i: int| 0 <= i < t0.len() && t0[i] == m;
                            assert(t1[i] == m);
                        }
                        if t1.contains(m) {
                            let i = choose|i: int| 0 <= i < t1.len() && t1[i] == m;
                            assert(t0[i] == m);
                        }
                    }
                }
                done = done + 1;
            }
        }
        assert(dying.take(done) =~= dying);
        let ghost layer1 = *self;
        self.model = Ghost(
            LayerModel {
                dying: Seq::empty(),
                dying_next: None,
                phase: Phase::Idle,
                ..layer0.model@
            },
        );
        proof {
            assert(forall|n: usize| #[trigger] self.alive(n) == layer1.alive(n));
            self.lemma_freed(layer0);
        }
        true
    }
}

impl<K, V> SkipListLayer<K, V> {
    /// The layer once the erased nodes are freed.
    proof fn lemma_freed(self, layer0: Self)
        requires
            layer0.wf(),
            layer0.committing(),
            layer0.read_counts.counts@[1 - layer0.read_counts.epoch as int] == 0,
            self.slots_wf(),
            self.pointers == layer0.pointers,
            self.read_counts == layer0.read_counts,
            self.model@ == (LayerModel {
                dying: Seq::empty(),
                dying_next: None,
                phase: Phase::Idle,
                ..layer0.model@
            }),
            forall|n: usize| #[trigger]
                self.alive(n) <==> layer0.alive(n) && !layer0.model@.dying.contains(n),
            forall|n: usize| #[trigger] self.alive(n) ==> self.node(n) == layer0.node(n),
        ensures
            self.wf(),
            self.idle(),
            self.keeps_readers(layer0),
    {
        let chain = layer0.chain();
        let dying = layer0.model@.dying;
        assert(layer0.level_wf(0));
        assert forall|n: usize| #[trigger] chain.contains(n) implies self.alive(n) by {
            let j = choose|j: int| 0 <= j < chain.len() && chain[j] == n;
            assert(layer0.has_link(Some(chain[j]), 0));
            assert(layer0.alive(n));
            if dying.contains(n) {
                let i = choose|i: int| 0 <= i < dying.len() && dying[i] == n;
                assert(!chain.contains(dying[i]));
            }
        }
        assert forall|j: int| 0 <= j < chain.len() implies self.heights()[#[trigger] chain[j] as int]
            == layer0.heights()[chain[j] as int] by {
            assert(chain.contains(chain[j]));
            assert(self.alive(chain[j]));
            assert(layer0.alive(chain[j]));
        }
        assert forall|level: int| 0 <= level < self.levels().len() implies #[trigger]
            self.level_wf(level) by {
            assert(layer0.level_wf(level));
            SkipListLayerIterMut::lemma_subset(layer0, level);
            let s = self.levels()[level];
            assert forall|j: int| 0 <= j < s.len() implies self.has_link(
                Some(#[trigger] s[j]),
                level,
            ) by {
                assert(s.contains(s[j]));
                assert(self.alive(s[j]));
                assert(layer0.has_link(Some(s[j]), level));
            }
            assert forall|j: int| -1 <= j < s.len() implies self.next(#[trigger] src(s, j), level)
                == elem(s, j + 1) by {
                if j >= 0 {
                    assert(s.contains(s[j]));
                    assert(self.alive(s[j]));
                }
                assert(layer0.next(src(s, j), level) == elem(s, j + 1));
            }
        }
        assert forall|level: int| 0 <= level < self.levels().len() implies #[trigger]
            self.levels()[level] == tall(self.heights(), chain, level) by {
            lemma_tall_agree(self.heights(), layer0.heights(), chain, level);
            assert(layer0.levels()[level] == tall(layer0.heights(), chain, level));
        }
        assert(self@ =~= layer0@ && self.item_heights() =~= layer0.item_heights()) by {
            assert forall|j: int| 0 <= j < chain.len() implies self.node(#[trigger] chain[j])
                == layer0.node(chain[j]) by {
                assert(chain.contains(chain[j]));
                assert(self.alive(chain[j]));
            }
        }
        assert forall|r: SkipListLayerIter| #[trigger] self.undisturbed(layer0, r) by {
            if r.valid(layer0) {
                layer0.lemma_reader_epoch(r);
                let t = self.tail_from(r.node);
                assert(t == layer0.tail_from(r.node));
                assert forall|j: int| 0 <= j < t.len() implies self.node(#[trigger] t[j]).item
                    == layer0.node(t[j]).item by {
                    let k = chain.index_of(r.node->0);
                    assert(t[j] == chain[k + j]);
                    assert(chain.contains(chain[k + j]));
                    assert(self.alive(t[j]));
                }
                assert(self.items_of(t) =~= layer0.items_of(t));
            }
        }
    }
}

// -- The operations of a layer --

/// The place where a key is erased or replaced, if it is in the list.
pub open spec fn found<K: Key, V>(items: Seq<Item<K, V>>, key: K) -> bool {
    let at = lower_bound(items, key) as int;
    at < items.len() && items[at].key == key
}

/// The list with an item added, before those with the same key.
pub open spec fn with_inserted<K: Key, V>(items: Seq<Item<K, V>>, item: Item<K, V>) -> Seq<
    Item<K, V>,
> {
    items.insert(lower_bound(items, item.key) as int, item)
}

/// The list with an item in place of the first one with the same key, or added.
pub open spec fn with_replaced<K: Key, V>(items: Seq<Item<K, V>>, item: Item<K, V>) -> Seq<
    Item<K, V>,
> {
    let at = lower_bound(items, item.key) as int;
    if found(items, item.key) {
        items.update(at, item)
    } else {
        items.insert(at, item)
    }
}

/// The list without the first item with the given key.
pub open spec fn with_erased<K: Key, V>(items: Seq<Item<K, V>>, key: K) -> Seq<Item<K, V>> {
    if found(items, key) {
        items.remove(lower_bound(items, key) as int)
    } else {
        items
    }
}

/// The three operations keep the list sorted.
pub proof fn operations_keep_order<K: Key, V>(items: Seq<Item<K, V>>, item: Item<K, V>)
    requires
        sorted(items),
    ensures
        sorted(with_inserted(items, item)),
        sorted(with_replaced(items, item)),
        sorted(with_erased(items, item.key)),
{
    let key = item.key;
    let at = lower_bound(items, key) as int;
    lemma_lower_bound(items, key);
    lemma_lower_bound_sorted(items, key);
    let one = with_inserted(items, item);
    assert forall|i: int, j: int|
        #![trigger one[i], one[j]]
        0 <= i < j < one.len() implies !one[j].key.before(one[i].key) by {
        let oi = if i < at {
            i
        } else {
            i - 1
        };
        let oj = if j < at {
            j
        } else {
            j - 1
        };
        if i == at {
            assert(one[j] == items[j - 1]);
        } else if j == at {
            assert(one[i] == items[i]);
            if key.before(items[i].key) {
                K::before_is_transitive(key, items[i].key, key);
                K::before_is_irreflexive(key);
            }
        } else {
            assert(one[i] == items[oi]);
            assert(one[j] == items[oj]);
        }
    }
    let two = with_replaced(items, item);
    if found(items, key) {
        assert forall|i: int, j: int|
            #![trigger two[i], two[j]]
            0 <= i < j < two.len() implies !two[j].key.before(two[i].key) by {
            assert(two[i].key == items[i].key);
            assert(two[j].key == items[j].key);
        }
        let three = with_erased(items, key);
        assert forall|i: int, j: int|
            #![trigger three[i], three[j]]
            0 <= i < j < three.len() implies !three[j].key.before(three[i].key) by {
            let oi = if i < at {
                i
            } else {
                i + 1
            };
            let oj = if j < at {
                j
            } else {
                j + 1
            };
            assert(three[i] == items[oi]);
            assert(three[j] == items[oj]);
        }
    }
}

impl<K: Key, V> SkipListLayer<K, V> {
    /// Inserts the given item. The commit that is returned has still to be finished.
    pub fn insert(&mut self, item: Item<K, V>) -> (result: Option<PendingCommit>)
        requires
            old(self).wf(),
            old(self).idle(),
            sorted(old(self)@),
            old(self).level_count() < 32,
        ensures
            final(self).wf(),
            final(self)@ == with_inserted(old(self)@, item),
            exists|height: nat| #[trigger]
                drawn(old(self).level_count(), height) && final(self).item_heights()
                    == old(self).item_heights().insert(
                    lower_bound(old(self)@, item.key) as int,
                    height,
                ),
            sorted(final(self)@),
            final(self).level_count() == old(self).level_count(),
            result is Some,
            result->0.valid(*final(self)),
            result->0.epoch() == old(self).epoch(),
            final(self).committing(),
            final(self).epoch() == 1 - old(self).epoch(),
            final(self).reader_count(final(self).epoch()) == 0,
            forall|e: nat| #[trigger] final(self).reader_count(e) == old(self).reader_count(e),
            forall|r: SkipListLayerIter| #[trigger]
                final(self).committed_for(
                    *old(self),
                    lower_bound(old(self)@, item.key),
                    r,
                ),
    {
        proof {
            operations_keep_order(self@, item);
        }
        let ghost layer0 = *self;
        let mut iter = self.iter_mut(Bound::Included(&item.key));
        let ghost layer1 = *self;
        let ghost start = iter.start();
        iter.insert(self, item);
        proof {
            self.lemma_keeps_transitive(layer1, layer0);
        }
        let ghost layer2 = *self;
        let result = self.commit(iter);
        proof {
            assert forall|r: SkipListLayerIter| #[trigger]
                self.committed_for(layer0, lower_bound(layer0@, item.key), r) by {
                assert(layer2.undisturbed(layer0, r));
                assert(self.committed_for(layer2, start, r));
            }
        }
        result
    }
}

impl<K: Key, V> SkipListLayer<K, V> {
    /// Replaces the item with the same key, or inserts the item. The commit that is returned has
    /// still to be finished.
    pub fn replace_or_insert(&mut self, item: Item<K, V>) -> (result: Option<PendingCommit>)
        requires
            old(self).wf(),
            old(self).idle(),
            sorted(old(self)@),
            old(self).level_count() < 32,
        ensures
            final(self).wf(),
            final(self)@ == with_replaced(old(self)@, item),
            exists|height: nat| #[trigger]
                drawn(old(self).level_count(), height) && final(self).item_heights() == if found(
                    old(self)@,
                    item.key,
                ) {
                    old(self).item_heights().update(
                        lower_bound(old(self)@, item.key) as int,
                        height,
                    )
                } else {
                    old(self).item_heights().insert(
                        lower_bound(old(self)@, item.key) as int,
                        height,
                    )
                },
            sorted(final(self)@),
            final(self).level_count() == old(self).level_count(),
            result is Some,
            result->0.valid(*final(self)),
            result->0.epoch() == old(self).epoch(),
            final(self).committing(),
            final(self).epoch() == 1 - old(self).epoch(),
            final(self).reader_count(final(self).epoch()) == 0,
            forall|e: nat| #[trigger] final(self).reader_count(e) == old(self).reader_count(e),
            forall|r: SkipListLayerIter| #[trigger]
                final(self).committed_for(
                    *old(self),
                    lower_bound(old(self)@, item.key),
                    r,
                ),
    {
        let ghost items = self@;
        proof {
            operations_keep_order(items, item);
            lemma_lower_bound(items, item.key);
        }
        let ghost layer0 = *self;
        let mut iter = self.iter_mut(Bound::Included(&item.key));
        let ghost layer1 = *self;
        let ghost start = iter.start();
        let same = match iter.get(self) {
            Some(found_item) => found_item.key.is_same(&item.key),
            None => false,
        };
        if same {
            iter.erase(self);
            proof {
                self.lemma_keeps_transitive(layer1, layer0);
            }
        }
        let ghost layer2 = *self;
        iter.insert(self, item);
        proof {
            self.lemma_keeps_transitive(layer2, layer0);
            let at = lower_bound(items, item.key) as int;
            if same {
                assert(items.remove(at).insert(at, item) =~= items.update(at, item));
                let heights = layer0.item_heights();
                assert(heights.len() == items.len());
                assert forall|height: nat| #[trigger]
                    heights.remove(at).insert(at, height) == heights.update(at, height) by {
                    assert(heights.remove(at).insert(at, height) =~= heights.update(at, height));
                }
            }
        }
        let ghost layer3 = *self;
        let result = self.commit(iter);
        proof {
            assert forall|r: SkipListLayerIter| #[trigger]
                self.committed_for(layer0, lower_bound(layer0@, item.key), r) by {
                assert(layer3.undisturbed(layer0, r));
                assert(self.committed_for(layer3, start, r));
            }
        }
        result
    }

    /// Erases the given item, by its key. Does nothing if the item doesn't exist; otherwise the
    /// commit that is returned has still to be finished.
    pub fn erase(&mut self, item: ItemRef<'_, K, V>) -> (result: Option<PendingCommit>)
        requires
            old(self).wf(),
            old(self).idle(),
            sorted(old(self)@),
        ensures
            final(self).wf(),
            final(self)@ == with_erased(old(self)@, *item.key),
            found(old(self)@, *item.key) ==> final(self).item_heights()
                == old(self).item_heights().remove(lower_bound(old(self)@, *item.key) as int),
            sorted(final(self)@),
            final(self).level_count() == old(self).level_count(),
            result is Some <==> found(old(self)@, *item.key),
            result is None ==> final(self).idle() && final(self).keeps_readers(*old(self)),
            result is Some ==> {
                &&& result->0.valid(*final(self))
                &&& result->0.epoch() == old(self).epoch()
                &&& final(self).committing()
                &&& final(self).epoch() == 1 - old(self).epoch()
                &&& final(self).reader_count(final(self).epoch()) == 0
            },
            forall|e: nat| #[trigger] final(self).reader_count(e) == old(self).reader_count(e),
            result is Some ==> forall|r: SkipListLayerIter| #[trigger]
                final(self).committed_for(*old(self), lower_bound(old(self)@, *item.key), r),
    {
        let ghost items = self@;
        proof {
            lemma_lower_bound(items, *item.key);
            if found(items, *item.key) {
                operations_keep_order(items, items[lower_bound(items, *item.key) as int]);
            }
        }
        let key = item.key;
        let ghost layer0 = *self;
        let mut iter = self.iter_mut(Bound::Included(key));
        let ghost layer1 = *self;
        let ghost start = iter.start();
        let same = match iter.get(self) {
            Some(found_item) => found_item.key.is_same(key),
            None => false,
        };
        if same {
            iter.erase(self);
            proof {
                self.lemma_keeps_transitive(layer1, layer0);
            }
        }
        let ghost layer2 = *self;
        let result = self.commit(iter);
        proof {
            if same {
                assert forall|r: SkipListLayerIter| #[trigger]
                    self.committed_for(layer0, lower_bound(layer0@, *key), r) by {
                    assert(layer2.undisturbed(layer0, r));
                    assert(self.committed_for(layer2, start, r));
                }
            } else {
                self.lemma_keeps_transitive(layer2, layer0);
            }
        }
        result
    }
}

/// A sequence that holds every slot below `n` once has `n` slots.
proof fn lemma_slot_count(s: Seq<usize>, n: nat)
    requires
        s.no_duplicates(),
        forall|i: usize| i < n ==> #[trigger] s.contains(i),
        forall|j: int| 0 <= j < s.len() ==> (#[trigger] s[j]) < n,
        n <= usize::MAX,
    ensures
        s.len() == n,
    decreases n,
{
    if n == 0 {
        if s.len() > 0 {
            assert(s[0] < n);
        }
    } else {
        let last = (n - 1) as usize;
        assert(s.contains(last));
        let k = s.index_of(last);
        let rest = s.remove(k);
        assert forall|j: int| 0 <= j < rest.len() implies (#[trigger] rest[j]) < n - 1 by {
            let i = if j < k {
                j
            } else {
                j + 1
            };
            assert(rest[j] == s[i]);
            assert(s[i] != s[k]);
        }
        assert forall|i: usize| i < n - 1 implies #[trigger] rest.contains(i) by {
            let m = s.index_of(i);
            assert(s.contains(i));
            if m < k {
                assert(rest[m] == i);
            } else {
                assert(rest[m - 1] == i);
            }
        }
        assert(rest.no_duplicates()) by {
            assert forall|a: int, b: int|
                0 <= a < rest.len() && 0 <= b < rest.len() && a != b implies rest[a] != rest[b] by {
                let i = if a < k {
                    a
                } else {
                    a + 1
                };
                let j = if b < k {
                    b
                } else {
                    b + 1
                };
                assert(s[i] != s[j]);
            }
        }
        lemma_slot_count(rest, (n - 1) as nat);
    }
}

impl<K, V> SkipListLayer<K, V> {
    /// The number of nodes that are allocated. Without a writer's iterator, those are the nodes of
    /// the list and the ones that wait to be freed; without a commit that waits, those of the list
    /// alone.
    pub fn allocated(&self) -> (result: usize)
        requires
            self.wf(),
            !self.writing(),
        ensures
            result == self@.len() + self.waiting(),
            self.idle() ==> result == self@.len(),
    {
        let slots: usize = self.nodes.len();
        proof {
            let dying = self.model@.dying;
            let all = self.free@ + self.chain() + dying;
            let n = slots as nat;
            let f = self.free@.len() as int;
            let c = f + self.chain().len();
            assert(self.level_wf(0));
            assert forall|j: int| f <= j < all.len() implies self.alive(#[trigger] all[j]) by {
                if j < c {
                    assert(self.has_link(Some(self.chain()[j - f]), 0));
                } else {
                    assert(self.has_link(Some(dying[j - c]), 0));
                }
            }
            assert forall|j: int| 0 <= j < f implies !self.alive(#[trigger] all[j]) by {
                assert(all[j] == self.free@[j]);
            }
            assert forall|i: usize| i < n implies #[trigger] all.contains(i) by {
                if !self.alive(i) {
                    assert(self.free@.contains(i));
                    assert(all[self.free@.index_of(i)] == i);
                } else if self.chain().contains(i) {
                    assert(all[f + self.chain().index_of(i)] == i);
                } else {
                    assert(all[c + dying.index_of(i)] == i);
                }
            }
            assert(all.no_duplicates()) by {
                assert forall|a: int, b: int|
                    0 <= a < b < all.len() implies all[a] != all[b] by {
                    if f <= a < c && c <= b {
                        assert(all[b] == dying[b - c]);
                        assert(self.chain()[a - f] == all[a]);
                        assert(self.chain().contains(all[a]));
                    }
                }
            }
            assert forall|j: int| 0 <= j < all.len() implies (#[trigger] all[j]) < n by {
                if j < f {
                    assert(all[j] == self.free@[j]);
                } else {
                    assert(self.alive(all[j]));
                }
            }
            lemma_slot_count(all, n);
        }
        slots - self.free.len()
    }
}

// -- Laws --

/// Every item of a list has a node of its own, which is linked on one level at least and on no
/// more levels than there are.
pub proof fn items_have_heights<K, V>(layer: SkipListLayer<K, V>)
    requires
        layer.wf(),
    ensures
        layer.item_heights().len() == layer@.len(),
        forall|i: int|
            0 <= i < layer@.len() ==> 1 <= #[trigger] layer.item_heights()[i] <= layer.level_count(),
{
    assert(layer.level_wf(0));
    assert forall|i: int| 0 <= i < layer@.len() implies 1 <= #[trigger] layer.item_heights()[i]
        <= layer.level_count() by {
        assert(layer.has_link(Some(layer.chain()[i]), 0));
        assert(layer.alive(layer.chain()[i]));
    }
}

/// A writer's iterator stands in the list that it will commit, and its layer is as it should be.
pub proof fn writers_stand_in_their_list<K, V>(
    layer: SkipListLayer<K, V>,
    iter: SkipListLayerIterMut,
)
    requires
        iter.wf(layer),
    ensures
        layer.wf(),
        layer.writing(),
        !layer.committing(),
        iter.start() <= iter.position() <= iter.items(layer).len(),
        iter.item_heights(layer).len() == iter.items(layer).len(),
{
}

/// A reader that runs is counted in its epoch. Unless a commit waits, that is the epoch that new
/// readers join.
pub proof fn running_readers_are_counted<K, V>(layer: SkipListLayer<K, V>, iter: SkipListLayerIter)
    requires
        layer.wf(),
        iter.valid(layer),
    ensures
        layer.reader_count(iter.epoch()) > 0,
        !layer.committing() ==> iter.epoch() == layer.epoch(),
{
    let set = readers_in(layer.model@.readers, iter.epoch());
    assert(set.contains(iter.id@));
    if set.len() == 0 {
        assert(set =~= Set::empty());
    }
    if !layer.committing() {
        layer.lemma_reader_epoch(iter);
    }
}

/// Readers that come and go do not touch a writer's iterator or a commit that waits.
pub proof fn readers_leave_the_writer_alone<K, V>(
    layer: SkipListLayer<K, V>,
    other: SkipListLayer<K, V>,
    iter: SkipListLayerIterMut,
    pending: PendingCommit,
)
    requires
        layer.wf(),
        layer.same_list(other),
    ensures
        iter.wf(other) ==> iter.wf(layer) && iter.items(layer) == iter.items(other)
            && iter.item_heights(layer) == iter.item_heights(other),
        pending.valid(other) ==> pending.valid(layer),
        layer.idle() == other.idle(),
        layer.waiting() == other.waiting(),
        layer@ == other@,
        layer.item_heights() == other.item_heights(),
        layer.epoch() == other.epoch(),
        layer.level_count() == other.level_count(),
{
    assert(layer@ =~= other@);
    assert(layer.item_heights() =~= other.item_heights());
    if iter.wf(other) {
        assert(layer.heights() =~= other.heights());
        assert(forall|n: usize| #[trigger] layer.alive(n) == other.alive(n));
        assert(iter.items(layer) =~= iter.items(other));
        assert(iter.item_heights(layer) =~= iter.item_heights(other));
        assert forall|level: int| 0 <= level < layer.levels().len() implies #[trigger]
            iter.level_ok(layer, level) by {
            assert(iter.level_ok(other, level));
            assert(layer.level_wf(level));
            let ins = tall(other.heights(), iter.inserted(), level);
            let to = elem(tall(other.heights(), iter.after(), level), 0);
            assert forall|j: int| 0 <= j < ins.len() implies layer.next(
                #[trigger] src(ins, j),
                level,
            ) == if j + 1 < ins.len() {
                Some(ins[j + 1])
            } else {
                to
            } by {
                assert(other.next(src(ins, j), level) == layer.next(src(ins, j), level));
            }
        }
    }
}

/// A search for the key of an inserted item finds that item.
pub proof fn inserted_is_found<K: Key, V>(items: Seq<Item<K, V>>, item: Item<K, V>)
    requires
        sorted(items),
    ensures
        ({
            let at = lower_bound(items, item.key);
            &&& lower_bound(with_inserted(items, item), item.key) == at
            &&& with_inserted(items, item)[at as int] == item
            &&& lower_bound(with_replaced(items, item), item.key) == at
            &&& with_replaced(items, item)[at as int] == item
        }),
{
    let at = lower_bound(items, item.key);
    lemma_lower_bound(items, item.key);
    K::before_is_irreflexive(item.key);
    lemma_lower_bound_is(with_inserted(items, item), item.key, at);
    lemma_lower_bound_is(with_replaced(items, item), item.key, at);
}

/// A place with smaller keys before it and no smaller key at it is the lower bound.
proof fn lemma_lower_bound_is<K: Key, V>(items: Seq<Item<K, V>>, key: K, at: nat)
    requires
        at <= items.len(),
        forall|i: int| 0 <= i < at ==> #[trigger] items[i].key.before(key),
        at < items.len() ==> !items[at as int].key.before(key),
    ensures
        lower_bound(items, key) == at,
    decreases items.len(),
{
    if at > 0 {
        let rest = items.drop_first();
        assert(items[0].key.before(key));
        assert forall|i: int| 0 <= i < at - 1 implies #[trigger] rest[i].key.before(key) by {
            assert(items[i + 1].key.before(key));
        }
        lemma_lower_bound_is(rest, key, (at - 1) as nat);
    }
}

/// Erasing the key of an item that was just inserted gives the list back.
pub proof fn erase_undoes_insert<K: Key, V>(items: Seq<Item<K, V>>, item: Item<K, V>)
    requires
        sorted(items),
    ensures
        with_erased(with_inserted(items, item), item.key) == items,
{
    inserted_is_found(items, item);
    lemma_lower_bound(items, item.key);
    let at = lower_bound(items, item.key) as int;
    assert(items.insert(at, item).remove(at) =~= items);
}

/// Of two replacements for one key the second one stays.
pub proof fn the_last_replacement_stays<K: Key, V>(
    items: Seq<Item<K, V>>,
    first: Item<K, V>,
    second: Item<K, V>,
)
    requires
        sorted(items),
        first.key == second.key,
    ensures
        with_replaced(with_replaced(items, first), second) == with_replaced(items, second),
{
    inserted_is_found(items, first);
    lemma_lower_bound(items, first.key);
    let at = lower_bound(items, first.key) as int;
    if found(items, first.key) {
        assert(items.update(at, first).update(at, second) =~= items.update(at, second));
    } else {
        assert(items.insert(at, first).update(at, second) =~= items.insert(at, second));
    }
}

/// No two items have the same key.
pub open spec fn keys_differ<K: Key, V>(items: Seq<Item<K, V>>) -> bool {
    forall|i: int, j: int|
        #![trigger items[i], items[j]]
        0 <= i < j < items.len() ==> items[i].key != items[j].key
}

/// Replacing or erasing never makes two items with the same key.
pub proof fn replacing_keeps_keys_apart<K: Key, V>(items: Seq<Item<K, V>>, item: Item<K, V>)
    requires
        sorted(items),
        keys_differ(items),
    ensures
        keys_differ(with_replaced(items, item)),
        keys_differ(with_erased(items, item.key)),
        !found(with_erased(items, item.key), item.key),
{
    let key = item.key;
    let at = lower_bound(items, key) as int;
    lemma_lower_bound(items, key);
    lemma_lower_bound_sorted(items, key);
    K::before_is_irreflexive(key);
    let two = with_replaced(items, item);
    let three = with_erased(items, key);
    if found(items, key) {
        assert forall|i: int, j: int|
            #![trigger two[i], two[j]]
            0 <= i < j < two.len() implies two[i].key != two[j].key by {
            assert(two[i].key == items[i].key && two[j].key == items[j].key);
        }
        assert forall|i: int, j: int|
            #![trigger three[i], three[j]]
            0 <= i < j < three.len() implies three[i].key != three[j].key by {
            let oi = if i < at {
                i
            } else {
                i + 1
            };
            let oj = if j < at {
                j
            } else {
                j + 1
            };
            assert(three[i] == items[oi] && three[j] == items[oj]);
        }
        lemma_lower_bound(three, key);
        let m = lower_bound(three, key) as int;
        if found(three, key) {
            let om = if m < at {
                m
            } else {
                m + 1
            };
            assert(three[m] == items[om]);
            assert(items[at].key == items[om].key);
        }
    } else {
        assert forall|i: int, j: int|
            #![trigger two[i], two[j]]
            0 <= i < j < two.len() implies two[i].key != two[j].key by {
            if i == at {
                // The key at the lower bound comes after `key`, and so do those that follow.
                assert(two[j] == items[j - 1]);
                if items[j - 1].key == key {
                    if j - 1 > at {
                        K::before_is_total(items[at].key, key);
                        assert(key.before(items[at].key));
                        assert(!items[j - 1].key.before(items[at].key));
                    }
                }
            } else if j == at {
                assert(two[i] == items[i]);
            } else {
                let oi = if i < at {
                    i
                } else {
                    i - 1
                };
                let oj = if j < at {
                    j
                } else {
                    j - 1
                };
                assert(two[i] == items[oi] && two[j] == items[oj]);
            }
        }
    }
}

} // verus!
