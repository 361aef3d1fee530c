//! A small map kept as a log of writes, the latest write of a key winning.
use vstd::prelude::*;
use crate::identifier::{ClientId, PortId};
use crate::types::Height;

verus! {

/// A key that can be compared by its view.
pub trait LookupKey: View + Sized {
    fn same_key(&self, other: &Self) -> (r: bool)
        ensures
            r == (self@ == other@),
    ;
}

impl LookupKey for u64 {
    fn same_key(&self, other: &u64) -> (r: bool) {
        *self == *other
    }
}

impl LookupKey for PortId {
    fn same_key(&self, other: &PortId) -> (r: bool) {
        self.id.equals(&other.id)
    }
}

/// A client together with a height of its counterparty chain.
pub struct ClientHeightKey {
    pub client_id: ClientId,
    pub height: Height,
}

impl View for ClientHeightKey {
    type V = (Seq<char>, Height);

    open spec fn view(&self) -> (Seq<char>, Height) {
        (self.client_id@, self.height)
    }
}

impl LookupKey for ClientHeightKey {
    fn same_key(&self, other: &ClientHeightKey) -> (r: bool) {
        self.height == other.height && self.client_id.id.equals(&other.client_id.id)
    }
}

/// The map that a log of writes leaves.
pub open spec fn log_map<K: View, V>(items: Seq<(K, V)>) -> Map<K::V, V>
    decreases items.len(),
{
    if items.len() == 0 {
        Map::empty()
    } else {
        log_map(items.drop_last()).insert(items.last().0@, items.last().1)
    }
}

pub struct KeyedLog<K, V> {
    items: Vec<(K, V)>,
}

impl<K: LookupKey, V> View for KeyedLog<K, V> {
    type V = Map<K::V, V>;

    closed spec fn view(&self) -> Map<K::V, V> {
        log_map(self.items@)
    }
}

proof fn lemma_log_map_suffix<K: View, V>(items: Seq<(K, V)>, i: int, k: K::V)
    requires
        0 <= i <= items.len(),
        forall|j: int| i <= j < items.len() ==> (#[trigger] items[j]).0@ != k,
    ensures
        log_map(items).contains_key(k) == log_map(items.subrange(0, i)).contains_key(k),
        log_map(items)[k] == log_map(items.subrange(0, i))[k],
    decreases items.len() - i,
{
    if i < items.len() {
        let init = items.drop_last();
        assert(items.last() == items[items.len() - 1]);
        lemma_log_map_suffix(init, i, k);
        assert(init.subrange(0, i) =~= items.subrange(0, i));
    } else {
        assert(items.subrange(0, i) =~= items);
    }
}

impl<K: LookupKey, V> KeyedLog<K, V> {
    pub fn new() -> (r: Self)
        ensures
            r@ == Map::<K::V, V>::empty(),
    {
        KeyedLog { items: Vec::new() }
    }

    pub fn insert(&mut self, k: K, v: V)
        ensures
            final(self)@ == old(self)@.insert(k@, v),
    {
        let ghost kv = k@;
        self.items.push((k, v));
        assert(self.items@.drop_last() =~= old(self).items@);
    }

    pub fn get(&self, k: &K) -> (r: Option<&V>)
        ensures
            match r {
                Some(v) => self@.contains_key(k@) && *v == self@[k@],
                None => !self@.contains_key(k@),
            },
    {
        let mut i: usize = self.items.len();
        while i > 0
            invariant
                i <= self.items@.len(),
                forall|j: int| i <= j < self.items@.len() ==> (#[trigger] self.items@[j]).0@ != k@,
            decreases i,
        {
            if self.items[i - 1].0.same_key(k) {
                proof {
                    lemma_log_map_suffix(self.items@, i as int, k@);
                    let pre = self.items@.subrange(0, i as int);
                    assert(pre.last() == self.items@[i - 1]);
                }
                return Some(&self.items[i - 1].1);
            }
            i = i - 1;
        }
        proof {
            lemma_log_map_suffix(self.items@, 0, k@);
            assert(self.items@.subrange(0, 0) =~= Seq::<(K, V)>::empty());
        }
        None
    }
}

} // verus!
