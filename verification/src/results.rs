//! The set of matched addresses, ordered by address and backed by a B+ tree.
use crate::types::ValueType;
use vstd::prelude::*;

verus! {

/// An address at which a value was found, with the value's type.
#[derive(Debug, Clone, Copy, PartialEq, Eq, Structural)]
pub struct ValuePair {
    pub addr: u64,
    pub value_type: ValueType,
}

impl ValuePair {
    pub fn new(addr: u64, value_type: ValueType) -> (pair: ValuePair)
        ensures
            pair.addr == addr,
            pair.value_type == value_type,
    {
        ValuePair { addr, value_type }
    }
}

impl From<(u64, ValueType)> for ValuePair {
    fn from(tuple: (u64, ValueType)) -> (pair: ValuePair) {
        ValuePair::new(tuple.0, tuple.1)
    }
}

impl vstd::std_specs::convert::FromSpecImpl<(u64, ValueType)> for ValuePair {
    open spec fn obeys_from_spec() -> bool {
        true
    }

    open spec fn from_spec(tuple: (u64, ValueType)) -> ValuePair {
        ValuePair { addr: tuple.0, value_type: tuple.1 }
    }
}

/// `bplustree::GenericBPlusTree`, the tree that holds the pairs. Nothing
/// of its inside is known here.
#[verifier::external_type_specification]
#[verifier::external_body]
#[verifier::reject_recursive_types(K)]
#[verifier::reject_recursive_types(V)]
pub struct ExGenericBPlusTree<K, V, const IC: usize, const LC: usize>(
    bplustree::GenericBPlusTree<K, V, IC, LC>,
);

/// `bplustree::iter::RawSharedIter`, the cursor that walks the entries of
/// a tree. Nothing of its inside is known here.
#[verifier::external_type_specification]
#[verifier::external_body]
#[verifier::reject_recursive_types(K)]
#[verifier::reject_recursive_types(V)]
pub struct ExRawSharedIter<'t, K, V, const IC: usize, const LC: usize>(
    bplustree::iter::RawSharedIter<'t, K, V, IC, LC>,
);

/// The entries that a tree holds: for each key its value.
pub uninterp spec fn tree_entries(tree: bplustree::BPlusTree<u64, i32>) -> Map<u64, i32>;

/// The entries of the tree that a cursor walks.
pub uninterp spec fn cursor_source(cursor: bplustree::iter::RawSharedIter<'_, u64, i32, 128, 256>) -> Map<u64, i32>;

/// The entries that a cursor has yet to hand out, in the order in which it
/// will.
pub uninterp spec fn cursor_pending(cursor: bplustree::iter::RawSharedIter<'_, u64, i32, 128, 256>) -> Seq<(u64, i32)>;

/// A map without entries.
pub open spec fn no_entries() -> Map<u64, i32> {
    Map::empty()
}

/// Whether `listing` holds the entries of `entries`, each once, by
/// ascending key.
pub open spec fn lists_ascending(listing: Seq<(u64, i32)>, entries: Map<u64, i32>) -> bool {
    &&& forall|i: int, j: int|
        0 <= i < j < listing.len() ==> (#[trigger] listing[i]).0 < (#[trigger] listing[j]).0
    &&& forall|i: int|
        0 <= i < listing.len() ==> entries.contains_key((#[trigger] listing[i]).0)
            && entries[listing[i].0] == listing[i].1
    &&& forall|key: u64| #[trigger]
        entries.contains_key(key) ==> exists|i: int|
            0 <= i < listing.len() && (#[trigger] listing[i]).0 == key
}

/// `bplustree::GenericBPlusTree::new`: the new tree holds no entry.
#[verifier::external_body]
fn tree_new() -> (tree: bplustree::BPlusTree<u64, i32>)
    ensures
        tree_entries(tree) == no_entries(),
{
    bplustree::BPlusTree::new()
}

/// `bplustree::GenericBPlusTree::insert`: the key holds the new value
/// afterwards, whether or not it held one before, and all other entries
/// stay; the value that the key held before is returned. The tree is taken
/// by exclusive reference, so that no other holder changes it meanwhile.
#[verifier::external_body]
fn tree_insert(tree: &mut bplustree::BPlusTree<u64, i32>, key: u64, value: i32) -> (previous:
    Option<i32>)
    ensures
        tree_entries(*final(tree)) == tree_entries(*old(tree)).insert(key, value),
        previous == (if tree_entries(*old(tree)).contains_key(key) {
            Some(tree_entries(*old(tree))[key])
        } else {
            None
        }),
{
    tree.insert(key, value)
}

/// `bplustree::GenericBPlusTree::lookup`, with a function that copies the
/// value: the value that the key holds, if it holds one.
#[verifier::external_body]
fn tree_lookup(tree: &bplustree::BPlusTree<u64, i32>, key: u64) -> (value: Option<i32>)
    ensures
        value == (if tree_entries(*tree).contains_key(key) {
            Some(tree_entries(*tree)[key])
        } else {
            None
        }),
{
    tree.lookup(&key, |v| *v)
}

/// `bplustree::GenericBPlusTree::len`: the number of entries, which the
/// tree counts by walking them.
#[verifier::external_body]
fn tree_len(tree: &bplustree::BPlusTree<u64, i32>) -> (n: usize)
    ensures
        n == tree_entries(*tree).dom().len(),
{
    tree.len()
}

/// `bplustree::GenericBPlusTree::raw_iter`: a cursor over the tree's
/// entries. Until it is positioned, nothing is claimed of what it hands
/// out.
#[verifier::external_body]
fn tree_cursor<'t>(tree: &'t bplustree::BPlusTree<u64, i32>) -> (cursor:
    bplustree::iter::RawSharedIter<'t, u64, i32, 128, 256>)
    ensures
        cursor_source(cursor) == tree_entries(*tree),
{
    tree.raw_iter()
}

/// `bplustree::iter::RawSharedIter::seek_to_first`: afterwards the cursor
/// has all entries of its tree to hand out, by ascending key.
#[verifier::external_body]
fn cursor_seek_to_first(cursor: &mut bplustree::iter::RawSharedIter<'_, u64, i32, 128, 256>)
    ensures
        cursor_source(*final(cursor)) == cursor_source(*old(cursor)),
        lists_ascending(cursor_pending(*final(cursor)), cursor_source(*old(cursor))),
{
    cursor.seek_to_first()
}

/// `bplustree::iter::RawSharedIter::next`: hands out the first entry that
/// is pending, if there is one, and moves behind it.
#[verifier::external_body]
fn cursor_next(cursor: &mut bplustree::iter::RawSharedIter<'_, u64, i32, 128, 256>) -> (entry:
    Option<(u64, i32)>)
    ensures
        cursor_source(*final(cursor)) == cursor_source(*old(cursor)),
        entry == (if cursor_pending(*old(cursor)).len() > 0 {
            Some(cursor_pending(*old(cursor))[0])
        } else {
            None
        }),
        cursor_pending(*final(cursor)) == (if cursor_pending(*old(cursor)).len() > 0 {
            cursor_pending(*old(cursor)).skip(1)
        } else {
            cursor_pending(*old(cursor))
        }),
{
    cursor.next().map(|(key, value)| (*key, *value))
}

/// The map that results from inserting the pairs one after the other: a
/// later pair replaces the type that an earlier one gave to its address.
pub open spec fn insert_all(found: Map<u64, ValueType>, pairs: Seq<ValuePair>) -> Map<
    u64,
    ValueType,
>
    decreases pairs.len(),
{
    if pairs.len() == 0 {
        found
    } else {
        insert_all(found, pairs.drop_last()).insert(pairs.last().addr, pairs.last().value_type)
    }
}

/// Whether `listing` holds the pairs of `found`, each address once, by
/// ascending address.
pub open spec fn lists_pairs(listing: Seq<ValuePair>, found: Map<u64, ValueType>) -> bool {
    &&& forall|i: int, j: int|
        0 <= i < j < listing.len() ==> (#[trigger] listing[i]).addr < (#[trigger] listing[j]).addr
    &&& forall|i: int|
        0 <= i < listing.len() ==> found.contains_key((#[trigger] listing[i]).addr)
            && found[listing[i].addr] == listing[i].value_type
    &&& forall|addr: u64| #[trigger]
        found.contains_key(addr) ==> exists|i: int|
            0 <= i < listing.len() && (#[trigger] listing[i]).addr == addr
}

/// Whether one of the pairs has the address.
pub open spec fn has_addr(pairs: Seq<ValuePair>, addr: u64) -> bool {
    exists|i: int| 0 <= i < pairs.len() && (#[trigger] pairs[i]).addr == addr
}

/// Inserting pairs adds their addresses to those already there.
pub proof fn lemma_insert_all_dom(found: Map<u64, ValueType>, pairs: Seq<ValuePair>, addr: u64)
    ensures
        insert_all(found, pairs).contains_key(addr) <==> (found.contains_key(addr) || has_addr(
            pairs,
            addr,
        )),
    decreases pairs.len(),
{
    if pairs.len() > 0 {
        let front = pairs.drop_last();
        let last = pairs.last();
        lemma_insert_all_dom(found, front, addr);
        if has_addr(front, addr) {
            let i = choose|i: int| 0 <= i < front.len() && (#[trigger] front[i]).addr == addr;
            assert(pairs[i] == front[i]);
        }
        if addr == last.addr {
            assert(pairs[pairs.len() - 1].addr == addr);
        }
        if has_addr(pairs, addr) {
            let i = choose|i: int| 0 <= i < pairs.len() && (#[trigger] pairs[i]).addr == addr;
            if i < front.len() {
                assert(front[i] == pairs[i]);
            }
        }
    }
}

/// Inserting two runs of pairs one after the other is inserting their
/// concatenation.
pub proof fn lemma_insert_all_concat(
    found: Map<u64, ValueType>,
    first: Seq<ValuePair>,
    second: Seq<ValuePair>,
)
    ensures
        insert_all(insert_all(found, first), second) == insert_all(found, first + second),
    decreases second.len(),
{
    if second.len() == 0 {
        assert(first + second =~= first);
    } else {
        lemma_insert_all_concat(found, first, second.drop_last());
        assert((first + second).drop_last() =~= first + second.drop_last());
        assert((first + second).last() == second.last());
    }
}

/// The set of matched addresses with the type of the value found at each,
/// ordered by address. An address is held once.
pub struct ValuePairSet {
    /// The tree that holds the pairs; a set that never held a pair has
    /// none.
    tree: Option<bplustree::BPlusTree<u64, i32>>,
}

impl View for ValuePairSet {
    type V = Map<u64, ValueType>;

    closed spec fn view(&self) -> Map<u64, ValueType> {
        Map::new(
            |addr: u64| self.entries().contains_key(addr),
            |addr: u64| ValueType::spec_from_id(self.entries()[addr] as int).unwrap(),
        )
    }
}

impl ValuePairSet {
    /// For each address the id of the type found there.
    closed spec fn entries(&self) -> Map<u64, i32> {
        match self.tree {
            Some(tree) => tree_entries(tree),
            None => no_entries(),
        }
    }

    #[verifier::type_invariant]
    spec fn inv(self) -> bool {
        &&& self.entries().dom().finite()
        &&& forall|addr: u64| #[trigger]
            self.entries().contains_key(addr) ==> 0 <= self.entries()[addr] <= 5
    }

    /// A set without addresses.
    pub fn new() -> (set: ValuePairSet)
        ensures
            set@ == Map::<u64, ValueType>::empty(),
    {
        let set = ValuePairSet { tree: None };
        assert(set@ =~= Map::<u64, ValueType>::empty());
        set
    }

    /// Puts the pair into the set. An address that the set already holds
    /// takes the type of the new pair. Returns whether the address is new
    /// to the set.
    pub fn insert(&mut self, pair: ValuePair) -> (fresh: bool)
        ensures
            final(self)@ == old(self)@.insert(pair.addr, pair.value_type),
            fresh == !old(self)@.contains_key(pair.addr),
    {
        proof {
            use_type_invariant(&*self);
        }
        let mut taken = ValuePairSet::new();
        core::mem::swap(self, &mut taken);
        let ValuePairSet { tree } = taken;
        let mut tree = match tree {
            Some(tree) => tree,
            None => tree_new(),
        };
        let previous = tree_insert(&mut tree, pair.addr, pair.value_type.to_id());
        *self = ValuePairSet { tree: Some(tree) };
        assert(final(self)@ =~= old(self)@.insert(pair.addr, pair.value_type));
        previous.is_none()
    }

    /// The number of addresses in the set.
    pub fn len(&self) -> (n: usize)
        ensures
            n == self@.dom().len(),
            self@.dom().finite(),
    {
        proof {
            use_type_invariant(self);
            assert(self@.dom() =~= self.entries().dom());
        }
        match &self.tree {
            Some(tree) => tree_len(tree),
            None => 0,
        }
    }

    pub fn is_empty(&self) -> (empty: bool)
        ensures
            empty == (self@.dom().len() == 0),
            empty == (self@ == Map::<u64, ValueType>::empty()),
    {
        let n = self.len();
        proof {
            if n == 0 {
                assert(self@.dom() =~= Set::empty());
                assert(self@ =~= Map::<u64, ValueType>::empty());
            }
        }
        n == 0
    }

    /// The type found at `addr`, if the set holds the address.
    pub fn get(&self, addr: u64) -> (found: Option<ValueType>)
        ensures
            found == (if self@.contains_key(addr) {
                Some(self@[addr])
            } else {
                None
            }),
    {
        proof {
            use_type_invariant(self);
        }
        match &self.tree {
            Some(tree) => match tree_lookup(tree, addr) {
                Some(id) => ValueType::from_id(id),
                None => None,
            },
            None => None,
        }
    }

    pub fn contains(&self, addr: u64) -> (held: bool)
        ensures
            held == self@.contains_key(addr),
    {
        self.get(addr).is_some()
    }

    /// The pairs of the set by ascending address.
    pub fn to_vec(&self) -> (pairs: Vec<ValuePair>)
        ensures
            lists_pairs(pairs@, self@),
    {
        proof {
            use_type_invariant(self);
        }
        let mut pairs: Vec<ValuePair> = Vec::new();
        let tree = match &self.tree {
            Some(tree) => tree,
            None => {
                return pairs;
            },
        };
        let mut cursor = tree_cursor(tree);
        cursor_seek_to_first(&mut cursor);
        let ghost entries = tree_entries(*tree);
        let ghost all = cursor_pending(cursor);
        loop
            invariant
                entries == tree_entries(*tree),
                cursor_source(cursor) == entries,
                lists_ascending(all, entries),
                forall|addr: u64| #[trigger] entries.contains_key(addr) ==> 0 <= entries[addr] <= 5,
                pairs@.len() + cursor_pending(cursor).len() == all.len(),
                cursor_pending(cursor) == all.skip(pairs@.len() as int),
                forall|i: int|
                    0 <= i < pairs@.len() ==> (#[trigger] pairs@[i]).addr == all[i].0
                        && ValueType::spec_from_id(all[i].1 as int) == Some(pairs@[i].value_type),
            ensures
                cursor_pending(cursor).len() == 0,
            decreases cursor_pending(cursor).len(),
        {
            match cursor_next(&mut cursor) {
                None => {
                    break ;
                },
                Some((addr, id)) => {
                    proof {
                        let at = pairs@.len() as int;
                        assert(all.skip(at)[0] == all[at]);
                        assert(entries.contains_key(all[at].0));
                        assert(all.skip(at).skip(1) =~= all.skip(at + 1));
                    }
                    match ValueType::from_id(id) {
                        Some(value_type) => {
                            pairs.push(ValuePair::new(addr, value_type));
                        },
                        None => {
                            assert(false);
                        },
                    }
                },
            }
        }
        proof {
            assert(pairs@.len() == all.len());
            assert forall|addr: u64| #[trigger] self@.contains_key(addr) implies exists|i: int|
                0 <= i < pairs@.len() && (#[trigger] pairs@[i]).addr == addr by {
                assert(entries.contains_key(addr));
                let i = choose|i: int| 0 <= i < all.len() && (#[trigger] all[i]).0 == addr;
                assert(pairs@[i].addr == addr);
            }
            assert forall|i: int| 0 <= i < pairs@.len() implies self@.contains_key(
                (#[trigger] pairs@[i]).addr,
            ) && self@[pairs@[i].addr] == pairs@[i].value_type by {
                assert(entries.contains_key(all[i].0));
            }
            assert forall|i: int, j: int| 0 <= i < j < pairs@.len() implies (#[trigger] pairs@[i]).addr
                < (#[trigger] pairs@[j]).addr by {
                assert(all[i].0 < all[j].0);
            }
        }
        pairs
    }

    /// Puts every pair of `pairs` into the set, one after the other.
    pub fn insert_batch(&mut self, pairs: &Vec<ValuePair>)
        ensures
            final(self)@ == insert_all(old(self)@, pairs@),
    {
        let mut i: usize = 0;
        while i < pairs.len()
            invariant
                0 <= i <= pairs@.len(),
                self@ == insert_all(old(self)@, pairs@.take(i as int)),
            decreases pairs@.len() - i,
        {
            let _ = self.insert(pairs[i]);
            proof {
                assert(pairs@.take(i as int + 1).drop_last() =~= pairs@.take(i as int));
            }
            i += 1;
        }
        proof {
            assert(pairs@.take(pairs@.len() as int) =~= pairs@);
        }
    }
}

} // verus!
