//! The commitment store: a key/value store addressed by path text, with the
//! height of the latest committed state.
use vstd::prelude::*;
use vstd::hash_map::StringHashMap;
use crate::identifier::ConnectionId;
use crate::segments::seg_views;
use crate::types::{ChannelEnd, ChannelEndModel, ConnectionEnd, ConnectionEndModel, ids_view};

verus! {

/// The mathematical value of a stored record.
pub ghost enum StoredValue {
    ClientType(Seq<char>),
    ClientState(Seq<u8>),
    ConsensusState(Seq<u8>),
    ConnectionIds(Seq<Seq<char>>),
    Connection(ConnectionEndModel),
    Channel(ChannelEndModel),
    Sequence(u64),
    Commitment(Seq<u8>),
    Receipt,
    Acknowledgement(Seq<u8>),
}

/// A record of the commitment store. Client and consensus states are
/// opaque payloads of their client type.
pub enum StoreValue {
    ClientType(String),
    ClientState(Vec<u8>),
    ConsensusState(Vec<u8>),
    ConnectionIds(Vec<ConnectionId>),
    Connection(ConnectionEnd),
    Channel(ChannelEnd),
    Sequence(u64),
    Commitment(Vec<u8>),
    Receipt,
    Acknowledgement(Vec<u8>),
}

impl View for StoreValue {
    type V = StoredValue;

    open spec fn view(&self) -> StoredValue {
        match self {
            StoreValue::ClientType(t) => StoredValue::ClientType(t@),
            StoreValue::ClientState(b) => StoredValue::ClientState(b@),
            StoreValue::ConsensusState(b) => StoredValue::ConsensusState(b@),
            StoreValue::ConnectionIds(v) => StoredValue::ConnectionIds(ids_view(v@)),
            StoreValue::Connection(c) => StoredValue::Connection(c@),
            StoreValue::Channel(c) => StoredValue::Channel(c@),
            StoreValue::Sequence(n) => StoredValue::Sequence(*n),
            StoreValue::Commitment(b) => StoredValue::Commitment(b@),
            StoreValue::Receipt => StoredValue::Receipt,
            StoreValue::Acknowledgement(b) => StoredValue::Acknowledgement(b@),
        }
    }
}

/// `key` lies under `prefix`: the empty prefix covers every key; otherwise
/// the key is the prefix itself or continues it after a `/`.
pub open spec fn under_prefix(key: Seq<char>, prefix: Seq<char>) -> bool {
    ||| prefix.len() == 0
    ||| key == prefix
    ||| (key.len() > prefix.len() && key.subrange(0, prefix.len() as int) == prefix
        && key[prefix.len() as int] == '/')
}

pub fn is_under_prefix(key: &str, prefix: &str) -> (r: bool)
    ensures
        r == under_prefix(key@, prefix@),
{
    let n = prefix.unicode_len();
    let k = key.unicode_len();
    if n == 0 {
        return true;
    }
    if k < n {
        return false;
    }
    let mut i: usize = 0;
    while i < n
        invariant
            n == prefix@.len(),
            k == key@.len(),
            n <= k,
            i <= n,
            forall|j: int| 0 <= j < i ==> key@[j] == prefix@[j],
        decreases n - i,
    {
        if key.get_char(i) != prefix.get_char(i) {
            assert(key@.subrange(0, n as int)[i as int] != prefix@[i as int]);
            return false;
        }
        i = i + 1;
    }
    assert(key@.subrange(0, n as int) =~= prefix@);
    if k == n {
        assert(key@ =~= prefix@);
        true
    } else {
        key.get_char(n) == '/'
    }
}

/// The keys of `v`, all distinct.
pub open spec fn distinct_keys(v: Seq<String>) -> bool {
    forall|i: int, j: int| 0 <= i < j < v.len() ==> v[i]@ != v[j]@
}

/// A height-addressed key/value store of protocol records. Reads observe the
/// latest state, writes included.
pub trait IbcStore: Sized {
    /// The records, by key.
    spec fn entries(&self) -> Map<Seq<char>, StoredValue>;

    /// The height of the latest committed state.
    spec fn height(&self) -> u64;

    /// The store's own consistency condition.
    spec fn inv(&self) -> bool;

    fn get(&self, key: &str) -> (r: Option<&StoreValue>)
        requires
            self.inv(),
        ensures
            match r {
                Some(v) => self.entries().contains_key(key@) && v@ == self.entries()[key@],
                None => !self.entries().contains_key(key@),
            },
    ;

    fn set(&mut self, key: String, value: StoreValue)
        requires
            old(self).inv(),
        ensures
            final(self).inv(),
            final(self).entries() == old(self).entries().insert(key@, value@),
            final(self).height() == old(self).height(),
    ;

    fn remove(&mut self, key: &str)
        requires
            old(self).inv(),
        ensures
            final(self).inv(),
            final(self).entries() == old(self).entries().remove(key@),
            final(self).height() == old(self).height(),
    ;

    /// Every key under `prefix`, each once.
    fn keys_with_prefix(&self, prefix: &str) -> (r: Vec<String>)
        requires
            self.inv(),
        ensures
            distinct_keys(r@),
            forall|k: Seq<char>| #[trigger]
                seg_views(r@).contains(k) ==> self.entries().contains_key(k) && under_prefix(
                    k,
                    prefix@,
                ),
            forall|k: Seq<char>|
                self.entries().contains_key(k) && #[trigger] under_prefix(k, prefix@) ==> seg_views(
                    r@,
                ).contains(k),
    ;

    fn current_height(&self) -> (r: u64)
        requires
            self.inv(),
        ensures
            r == self.height(),
    ;

    fn set_height(&mut self, height: u64)
        requires
            old(self).inv(),
        ensures
            final(self).inv(),
            final(self).entries() == old(self).entries(),
            final(self).height() == height,
    ;
}

/// An in-memory commitment store; keys are listed in the order they were
/// first written.
pub struct MemStore {
    map: StringHashMap<StoreValue>,
    keys: Vec<String>,
    height: u64,
}

impl MemStore {
    /// An empty store at height `height`.
    pub fn new(height: u64) -> (r: MemStore)
        ensures
            r.inv(),
            r.entries() == Map::<Seq<char>, StoredValue>::empty(),
            r.height() == height,
    {
        let r = MemStore { map: StringHashMap::new(), keys: Vec::new(), height };
        assert(r.entries() =~= Map::<Seq<char>, StoredValue>::empty());
        r
    }

    fn index_of(&self, key: &str) -> (r: Option<usize>)
        ensures
            match r {
                Some(i) => i < self.keys@.len() && self.keys@[i as int]@ == key@,
                None => forall|i: int| 0 <= i < self.keys@.len() ==> self.keys@[i]@ != key@,
            },
    {
        let mut i: usize = 0;
        while i < self.keys.len()
            invariant
                i <= self.keys@.len(),
                forall|j: int| 0 <= j < i ==> self.keys@[j]@ != key@,
            decreases self.keys@.len() - i,
        {
            if crate::segments::text_eq(self.keys[i].as_str(), key) {
                return Some(i);
            }
            i = i + 1;
        }
        None
    }
}

impl IbcStore for MemStore {
    closed spec fn entries(&self) -> Map<Seq<char>, StoredValue> {
        Map::new(|k: Seq<char>| self.map@.contains_key(k), |k: Seq<char>| self.map@[k]@)
    }

    closed spec fn height(&self) -> u64 {
        self.height
    }

    closed spec fn inv(&self) -> bool {
        &&& distinct_keys(self.keys@)
        &&& forall|i: int| 0 <= i < self.keys@.len() ==> self.map@.contains_key(#[trigger] self.keys@[i]@)
        &&& forall|k: Seq<char>| #[trigger] self.map@.contains_key(k) ==> seg_views(self.keys@).contains(k)
    }

    fn get(&self, key: &str) -> (r: Option<&StoreValue>) {
        self.map.get(key)
    }

    fn set(&mut self, key: String, value: StoreValue) {
        let ghost k = key@;
        let ghost v = value@;
        let ghost old_entries = self.entries();
        if self.map.contains_key(key.as_str()) {
            self.map.insert(key, value);
            proof {
                assert forall|i: int| 0 <= i < self.keys@.len() implies self.map@.contains_key(
                    #[trigger] self.keys@[i]@,
                ) by {
                    assert(old(self).map@.contains_key(self.keys@[i]@));
                }
                assert forall|kk: Seq<char>| #[trigger] self.map@.contains_key(kk) implies seg_views(
                    self.keys@,
                ).contains(kk) by {
                    if kk != k {
                        assert(old(self).map@.contains_key(kk));
                    }
                }
            }
        } else {
            let copy = key.clone();
            self.map.insert(key, value);
            let ghost old_keys = self.keys@;
            self.keys.push(copy);
            proof {
                assert(seg_views(self.keys@) =~= seg_views(old_keys).push(k));
                assert forall|i: int, j: int| 0 <= i < j < self.keys@.len() implies self.keys@[i]@
                    != self.keys@[j]@ by {
                    if j == old_keys.len() {
                        assert(old(self).map@.contains_key(old_keys[i]@));
                    }
                }
                assert forall|i: int| 0 <= i < self.keys@.len() implies self.map@.contains_key(
                    #[trigger] self.keys@[i]@,
                ) by {
                    if i < old_keys.len() {
                        assert(old(self).map@.contains_key(old_keys[i]@));
                    }
                }
                assert forall|kk: Seq<char>| #[trigger] self.map@.contains_key(kk) implies seg_views(
                    self.keys@,
                ).contains(kk) by {
                    if kk != k {
                        assert(old(self).map@.contains_key(kk));
                        let i = choose|i: int| 0 <= i < old_keys.len() && seg_views(old_keys)[i] == kk;
                        assert(seg_views(self.keys@)[i] == kk);
                    } else {
                        assert(seg_views(self.keys@)[old_keys.len() as int] == kk);
                    }
                }
            }
        }
        assert(self.entries() =~= old_entries.insert(k, v));
    }

    fn remove(&mut self, key: &str) {
        let ghost old_entries = self.entries();
        self.map.remove(key);
        match self.index_of(key) {
            Some(i) => {
                let ghost old_keys = self.keys@;
                self.keys.remove(i);
                proof {
                    assert(self.keys@ =~= old_keys.subrange(0, i as int) + old_keys.subrange(
                        i + 1,
                        old_keys.len() as int,
                    ));
                    assert forall|a: int, b: int| 0 <= a < b < self.keys@.len() implies self.keys@[a]@
                        != self.keys@[b]@ by {
                        let a0 = if a < i { a } else { a + 1 };
                        let b0 = if b < i { b } else { b + 1 };
                        assert(self.keys@[a] == old_keys[a0]);
                        assert(self.keys@[b] == old_keys[b0]);
                    }
                    assert forall|a: int| 0 <= a < self.keys@.len() implies self.map@.contains_key(
                        #[trigger] self.keys@[a]@,
                    ) by {
                        let a0 = if a < i { a } else { a + 1 };
                        assert(self.keys@[a] == old_keys[a0]);
                        assert(old_keys[a0]@ != key@);
                        assert(old(self).map@.contains_key(old_keys[a0]@));
                    }
                    assert forall|kk: Seq<char>| #[trigger] self.map@.contains_key(kk) implies seg_views(
                        self.keys@,
                    ).contains(kk) by {
                        assert(old(self).map@.contains_key(kk));
                        let j = choose|j: int| 0 <= j < old_keys.len() && seg_views(old_keys)[j] == kk;
                        assert(j != i);
                        let j1 = if j < i { j } else { j - 1 };
                        assert(self.keys@[j1] == old_keys[j]);
                        assert(seg_views(self.keys@)[j1] == kk);
                    }
                }
            },
            None => {
                proof {
                    assert forall|a: int| 0 <= a < self.keys@.len() implies self.map@.contains_key(
                        #[trigger] self.keys@[a]@,
                    ) by {
                        assert(old(self).map@.contains_key(self.keys@[a]@));
                    }
                    assert forall|kk: Seq<char>| #[trigger] self.map@.contains_key(kk) implies seg_views(
                        self.keys@,
                    ).contains(kk) by {
                        assert(old(self).map@.contains_key(kk));
                    }
                }
            },
        }
        assert(self.entries() =~= old_entries.remove(key@));
    }

    fn keys_with_prefix(&self, prefix: &str) -> (r: Vec<String>) {
        let mut out: Vec<String> = Vec::new();
        let mut i: usize = 0;
        while i < self.keys.len()
            invariant
                i <= self.keys@.len(),
                distinct_keys(self.keys@),
                distinct_keys(out@),
                forall|a: int| 0 <= a < out@.len() ==> exists|b: int| 0 <= b < i && #[trigger] out@[a]@ == self.keys@[b]@,
                forall|k: Seq<char>|
                    seg_views(out@).contains(k) <==> (exists|b: int| 0 <= b < i && self.keys@[b]@ == k)
                        && under_prefix(k, prefix@),
            decreases self.keys@.len() - i,
        {
            if is_under_prefix(self.keys[i].as_str(), prefix) {
                let ghost prev = out@;
                out.push(self.keys[i].clone());
                proof {
                    assert(seg_views(out@) =~= seg_views(prev).push(self.keys@[i as int]@));
                    assert forall|a: int, b: int| 0 <= a < b < out@.len() implies out@[a]@ != out@[b]@ by {
                        if b == prev.len() {
                            let c = choose|c: int| 0 <= c < i && #[trigger] prev[a]@ == self.keys@[c]@;
                        }
                    }
                    assert forall|k: Seq<char>|
                        seg_views(out@).contains(k) <==> (exists|b: int| 0 <= b < i + 1 && self.keys@[b]@ == k)
                            && under_prefix(k, prefix@) by {
                        if seg_views(out@).contains(k) {
                            let a = choose|a: int| 0 <= a < out@.len() && seg_views(out@)[a] == k;
                            if a < prev.len() {
                                assert(seg_views(prev)[a] == k);
                            }
                        }
                        if (exists|b: int| 0 <= b < i + 1 && self.keys@[b]@ == k) && under_prefix(k, prefix@) {
                            let b = choose|b: int| 0 <= b < i + 1 && self.keys@[b]@ == k;
                            if b < i {
                                let a = choose|a: int| 0 <= a < prev.len() && seg_views(prev)[a] == k;
                                assert(seg_views(out@)[a] == k);
                            } else {
                                assert(seg_views(out@)[prev.len() as int] == k);
                            }
                        }
                    }
                }
            } else {
                proof {
                    assert forall|k: Seq<char>|
                        seg_views(out@).contains(k) <==> (exists|b: int| 0 <= b < i + 1 && self.keys@[b]@ == k)
                            && under_prefix(k, prefix@) by {
                        if (exists|b: int| 0 <= b < i + 1 && self.keys@[b]@ == k) && under_prefix(k, prefix@) {
                            let b = choose|b: int| 0 <= b < i + 1 && self.keys@[b]@ == k;
                            assert(b < i);
                        }
                    }
                }
            }
            i = i + 1;
        }
        proof {
            assert forall|k: Seq<char>|
                seg_views(out@).contains(k) <==> (self.entries().contains_key(k) && under_prefix(
                    k,
                    prefix@,
                )) by {
                if self.map@.contains_key(k) {
                    let b = choose|b: int| 0 <= b < self.keys@.len() && seg_views(self.keys@)[b] == k;
                    assert(self.keys@[b]@ == k);
                }
                if exists|b: int| 0 <= b < self.keys@.len() && self.keys@[b]@ == k {
                    let b = choose|b: int| 0 <= b < self.keys@.len() && self.keys@[b]@ == k;
                    assert(self.map@.contains_key(self.keys@[b]@));
                }
            }
        }
        out
    }

    fn current_height(&self) -> (r: u64) {
        self.height
    }

    fn set_height(&mut self, height: u64) {
        self.height = height;
        proof {
            assert forall|a: int| 0 <= a < self.keys@.len() implies self.map@.contains_key(
                #[trigger] self.keys@[a]@,
            ) by {
                assert(old(self).map@.contains_key(self.keys@[a]@));
            }
            assert forall|kk: Seq<char>| #[trigger] self.map@.contains_key(kk) implies seg_views(
                self.keys@,
            ).contains(kk) by {
                assert(old(self).map@.contains_key(kk));
            }
        }
        assert(self.entries() =~= old(self).entries());
    }
}

} // verus!
