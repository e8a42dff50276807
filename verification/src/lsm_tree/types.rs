//! Keys, items and bounds of the layers of the tree.

use vstd::prelude::*;

verus! {

/// A key of the tree: a value with a strict total order.
pub trait Key: Sized {
    /// Does `self` come strictly before `other`?
    spec fn before(self, other: Self) -> bool;

    /// No key comes before itself.
    proof fn before_is_irreflexive(x: Self)
        ensures
            !x.before(x),
    ;

    /// The order is transitive.
    proof fn before_is_transitive(x: Self, y: Self, z: Self)
        requires
            x.before(y),
            y.before(z),
        ensures
            x.before(z),
    ;

    /// Two different keys are ordered one way or the other.
    proof fn before_is_total(x: Self, y: Self)
        ensures
            x == y || x.before(y) || y.before(x),
    ;

    /// Tests whether `self` comes strictly before `other`.
    fn is_before(&self, other: &Self) -> (result: bool)
        ensures
            result == self.before(*other),
    ;

    /// Tests whether the two keys are the same.
    fn is_same(&self, other: &Self) -> (result: bool)
        ensures
            result == (*self == *other),
    ;

    /// Makes a second copy of the key.
    fn duplicate(&self) -> (result: Self)
        ensures
            result == *self,
    ;
}

impl Key for i32 {
    open spec fn before(self, other: Self) -> bool {
        self < other
    }

    proof fn before_is_irreflexive(x: Self) {
    }

    proof fn before_is_transitive(x: Self, y: Self, z: Self) {
    }

    proof fn before_is_total(x: Self, y: Self) {
    }

    fn is_before(&self, other: &Self) -> (result: bool) {
        *self < *other
    }

    fn is_same(&self, other: &Self) -> (result: bool) {
        *self == *other
    }

    fn duplicate(&self) -> (result: Self) {
        *self
    }
}

impl Key for u64 {
    open spec fn before(self, other: Self) -> bool {
        self < other
    }

    proof fn before_is_irreflexive(x: Self) {
    }

    proof fn before_is_transitive(x: Self, y: Self, z: Self) {
    }

    proof fn before_is_total(x: Self, y: Self) {
    }

    fn is_before(&self, other: &Self) -> (result: bool) {
        *self < *other
    }

    fn is_same(&self, other: &Self) -> (result: bool) {
        *self == *other
    }

    fn duplicate(&self) -> (result: Self) {
        *self
    }
}

/// A key together with its value.
#[derive(Clone, Debug, PartialEq, Eq)]
pub struct Item<K, V> {
    pub key: K,
    pub value: V,
}

impl<K, V> Item<K, V> {
    /// Creates an item.
    pub fn new(key: K, value: V) -> (result: Self)
        ensures
            result.key == key,
            result.value == value,
    {
        Item { key, value }
    }

    /// Borrows the key and the value.
    pub fn as_item_ref(&self) -> (result: ItemRef<'_, K, V>)
        ensures
            *result.key == self.key,
            *result.value == self.value,
    {
        ItemRef { key: &self.key, value: &self.value }
    }
}

/// An item that is borrowed from a layer.
#[derive(Debug)]
pub struct ItemRef<'a, K, V> {
    pub key: &'a K,
    pub value: &'a V,
}

impl<'a, K, V> ItemRef<'a, K, V> {
    /// The item that is referred to.
    pub open spec fn item(self) -> Item<K, V> {
        Item { key: *self.key, value: *self.value }
    }
}

impl<'a, K: Key, V: Clone> ItemRef<'a, K, V> {
    /// Copies the item out of the layer.
    pub fn cloned(&self) -> (result: Item<K, V>)
        ensures
            result.key == *self.key,
            vstd::pervasive::cloned(*self.value, result.value),
    {
        Item { key: self.key.duplicate(), value: self.value.clone() }
    }
}

/// Where an iteration starts.
pub enum Bound<'a, K> {
    /// At the first item.
    Unbounded,
    /// At the first item whose key does not come before the given one.
    Included(&'a K),
    /// At the first item whose key comes after the given one; no layer supports this.
    Excluded(&'a K),
}

/// The keys never decrease along the list.
pub open spec fn sorted<K: Key, V>(items: Seq<Item<K, V>>) -> bool {
    forall|i: int, j: int|
        #![trigger items[i], items[j]]
        0 <= i < j < items.len() ==> !items[j].key.before(items[i].key)
}

/// The number of leading items whose key comes before `key`: on a sorted list, the place of the
/// first item that does not.
pub open spec fn lower_bound<K: Key, V>(items: Seq<Item<K, V>>, key: K) -> nat
    decreases items.len(),
{
    if items.len() == 0 || !items[0].key.before(key) {
        0
    } else {
        1 + lower_bound(items.drop_first(), key)
    }
}

/// The place at which an iteration from `bound` starts.
pub open spec fn start_of<K: Key, V>(items: Seq<Item<K, V>>, bound: Bound<'_, K>) -> nat {
    match bound {
        Bound::Unbounded => 0,
        Bound::Included(key) => lower_bound(items, *key),
        Bound::Excluded(_) => arbitrary(),
    }
}

/// Before the lower bound every key comes before `key`, and the key at it does not.
pub proof fn lemma_lower_bound<K: Key, V>(items: Seq<Item<K, V>>, key: K)
    ensures
        lower_bound(items, key) <= items.len(),
        forall|i: int| 0 <= i < lower_bound(items, key) ==> #[trigger] items[i].key.before(key),
        lower_bound(items, key) < items.len() ==> !items[lower_bound(
            items,
            key,
        ) as int].key.before(key),
    decreases items.len(),
{
    if items.len() != 0 && items[0].key.before(key) {
        let rest = items.drop_first();
        lemma_lower_bound(rest, key);
        assert forall|i: int| 0 <= i < lower_bound(items, key) implies #[trigger] items[
            i
        ].key.before(key) by {
            if i > 0 {
                assert(items[i] == rest[i - 1]);
            }
        }
    }
}

/// On a sorted list no key from the lower bound on comes before `key`.
pub proof fn lemma_lower_bound_sorted<K: Key, V>(items: Seq<Item<K, V>>, key: K)
    requires
        sorted(items),
    ensures
        forall|i: int|
            lower_bound(items, key) <= i < items.len() ==> !(#[trigger] items[i]).key.before(key),
{
    lemma_lower_bound(items, key);
    let n = lower_bound(items, key) as int;
    assert forall|i: int| n <= i < items.len() implies !(#[trigger] items[i]).key.before(key) by {
        if n < i && items[i].key.before(key) {
            K::before_is_total(items[n].key, key);
            if items[n].key != key {
                K::before_is_transitive(items[i].key, key, items[n].key);
            }
            assert(!items[i].key.before(items[n].key));
        }
    }
}

} // verus!
