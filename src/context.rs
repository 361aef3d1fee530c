//! The host context: protocol state over the commitment store, plus the
//! volatile bookkeeping that the host keeps in memory.
use vstd::prelude::*;
use crate::identifier::{ChannelId, ClientId, ConnectionId, ModuleId, PortId};
use crate::keyed_log::{ClientHeightKey, KeyedLog};
use crate::path::{
    ClientConsensusStatePath, PacketPath, Path, PathKind, PathModel, decode_path, path_kind,
    path_segments, path_text, path_valid, lemma_path_round_trip, lemma_decode_path_sound, path_views,
    join_text,
};
use crate::router::IbcRouter;
use crate::segments::{join, seg_views};
use crate::store::{IbcStore, StoreValue, StoredValue, under_prefix};
use crate::types::{ChannelEnd, ConnectionEnd, Height, height_lt, ids_view};

verus! {

/// Whether a record of value `v` may stand at path `p`.
pub open spec fn value_fits(p: PathModel, v: StoredValue) -> bool {
    match p {
        PathModel::ClientType(..) => v is ClientType,
        PathModel::ClientState(..) => v is ClientState,
        PathModel::ClientConsensusState(..) => v is ConsensusState,
        PathModel::ClientConnections(..) => v is ConnectionIds,
        PathModel::Connections(..) => v is Connection,
        PathModel::Ports(..) => false,
        PathModel::ChannelEnds(..) => v is Channel,
        PathModel::SeqSends(..) => v is Sequence,
        PathModel::SeqRecvs(..) => v is Sequence,
        PathModel::SeqAcks(..) => v is Sequence,
        PathModel::Commitments(..) => v is Commitment,
        PathModel::Acks(..) => v is Acknowledgement,
        PathModel::Receipts(..) => v is Receipt,
    }
}

/// Every key of the store is the text of a path, and holds a record of the
/// kind that the path locates.
pub open spec fn store_wf(entries: Map<Seq<char>, StoredValue>) -> bool {
    forall|k: Seq<char>| #[trigger]
        entries.contains_key(k) ==> decode_path(k) is Some && value_fits(
            decode_path(k)->0,
            entries[k],
        )
}

/// The record at path `p`, if any.
pub open spec fn entry_at(entries: Map<Seq<char>, StoredValue>, p: PathModel) -> Option<
    StoredValue,
> {
    if entries.contains_key(path_text(p)) {
        Some(entries[path_text(p)])
    } else {
        None
    }
}

/// The mathematical state of the host context.
pub ghost struct HostModel {
    pub entries: Map<Seq<char>, StoredValue>,
    pub height: u64,
    pub client_counter: u64,
    pub connection_counter: u64,
    pub channel_counter: u64,
    pub port_modules: Map<Seq<char>, Seq<char>>,
    pub processed_times: Map<(Seq<char>, Height), u64>,
    pub processed_heights: Map<(Seq<char>, Height), Height>,
    pub host_consensus_states: Map<u64, Seq<u8>>,
    pub routes: Seq<Seq<char>>,
}

/// Why a read or write of the host context failed.
#[derive(Debug, Clone, Copy, PartialEq, Eq, Structural)]
pub enum ContextError {
    ClientNotFound,
    ConsensusStateNotFound,
    MissingHostConsensusState,
    ConnectionNotFound,
    ChannelNotFound,
    UnknownPort,
    PortAlreadyBound,
    SequenceNotFound,
    PacketCommitmentNotFound,
    PacketReceiptNotFound,
    PacketAcknowledgementNotFound,
    ProcessedTimeNotFound,
    ProcessedHeightNotFound,
    CounterOverflow,
}

/// The host chain's state machine for clients, connections, channels and
/// packets, over a commitment store `S`.
pub struct IbcImpl<S: IbcStore> {
    store: S,
    router: IbcRouter,
    client_counter: u64,
    channel_counter: u64,
    conn_counter: u64,
    port_to_module_map: KeyedLog<PortId, ModuleId>,
    client_processed_times: KeyedLog<ClientHeightKey, u64>,
    client_processed_heights: KeyedLog<ClientHeightKey, Height>,
    consensus_states: KeyedLog<u64, Vec<u8>>,
}

impl<S: IbcStore> View for IbcImpl<S> {
    type V = HostModel;

    closed spec fn view(&self) -> HostModel {
        HostModel {
            entries: self.store.entries(),
            height: self.store.height(),
            client_counter: self.client_counter,
            connection_counter: self.conn_counter,
            channel_counter: self.channel_counter,
            port_modules: self.port_to_module_map@.map_values(|m: ModuleId| m@),
            processed_times: self.client_processed_times@,
            processed_heights: self.client_processed_heights@,
            host_consensus_states: self.consensus_states@.map_values(|b: Vec<u8>| b@),
            routes: self.router@,
        }
    }
}

pub fn copy_bytes(b: &Vec<u8>) -> (r: Vec<u8>)
    ensures
        r@ == b@,
{
    let mut out: Vec<u8> = Vec::new();
    let mut i: usize = 0;
    while i < b.len()
        invariant
            i <= b@.len(),
            out@ == b@.subrange(0, i as int),
        decreases b@.len() - i,
    {
        out.push(b[i]);
        assert(out@ =~= b@.subrange(0, i + 1));
        i = i + 1;
    }
    assert(b@.subrange(0, b@.len() as int) =~= b@);
    out
}

/// A path's text lies under the text of each leading part of its segments.
pub proof fn lemma_path_under_family(p: PathModel, k: int)
    requires
        1 <= k <= path_segments(p).len(),
    ensures
        under_prefix(path_text(p), join(path_segments(p).subrange(0, k))),
{
    lemma_join_under(path_segments(p), k);
}

proof fn lemma_join_under(segs: Seq<Seq<char>>, k: int)
    requires
        1 <= k <= segs.len(),
    ensures
        under_prefix(join(segs), join(segs.subrange(0, k))),
    decreases segs.len(),
{
    if k == segs.len() {
        assert(segs.subrange(0, k) =~= segs);
    } else {
        let init = segs.drop_last();
        lemma_join_under(init, k);
        assert(init.subrange(0, k) =~= segs.subrange(0, k));
        let pre = join(segs.subrange(0, k));
        let a = join(init);
        let full = join(segs);
        assert(full == a + seq!['/'] + segs.last());
        if pre.len() > 0 {
            if a == pre {
                assert(full.subrange(0, pre.len() as int) =~= pre);
                assert(full[pre.len() as int] == '/');
            } else {
                assert(full.subrange(0, pre.len() as int) =~= a.subrange(0, pre.len() as int));
                assert(full[pre.len() as int] == a[pre.len() as int]);
            }
        }
    }
}

impl<S: IbcStore> IbcImpl<S> {
    /// The context's consistency condition: the store's own, and the shape of
    /// every stored record.
    pub closed spec fn wf(&self) -> bool {
        self.store.inv() && store_wf(self.store.entries())
    }

    /// A context over an empty store, with all counters at zero; `None` when
    /// the store already holds records.
    pub fn new(store: S, router: IbcRouter) -> (r: Option<IbcImpl<S>>)
        requires
            store.inv(),
        ensures
            r is Some <==> store.entries() == Map::<Seq<char>, StoredValue>::empty(),
            r matches Some(ctx) ==> ctx.wf() && ctx@ == (HostModel {
                entries: store.entries(),
                height: store.height(),
                client_counter: 0,
                connection_counter: 0,
                channel_counter: 0,
                port_modules: Map::empty(),
                processed_times: Map::empty(),
                processed_heights: Map::empty(),
                host_consensus_states: Map::empty(),
                routes: router@,
            }),
    {
        proof {
            reveal_strlit("");
        }
        let keys = store.keys_with_prefix("");
        if keys.len() != 0 {
            proof {
                assert(seg_views(keys@).contains(seg_views(keys@)[0]));
            }
            return None;
        }
        proof {
            assert forall|k: Seq<char>| !store.entries().contains_key(k) by {
                if store.entries().contains_key(k) {
                    assert(under_prefix(k, ""@));
                    assert(seg_views(keys@).contains(k));
                }
            }
            assert(store.entries() =~= Map::<Seq<char>, StoredValue>::empty());
        }
        let ctx = IbcImpl {
            store,
            router,
            client_counter: 0,
            channel_counter: 0,
            conn_counter: 0,
            port_to_module_map: KeyedLog::new(),
            client_processed_times: KeyedLog::new(),
            client_processed_heights: KeyedLog::new(),
            consensus_states: KeyedLog::new(),
        };
        assert(ctx@.port_modules =~= Map::empty());
        assert(ctx@.host_consensus_states =~= Map::empty());
        Some(ctx)
    }

    /// Whether `v` may stand at path `p`.
    fn fits(p: &Path, v: &StoreValue) -> (r: bool)
        ensures
            r == value_fits(p@, v@),
    {
        match (p, v) {
            (Path::ClientType(..), StoreValue::ClientType(..)) => true,
            (Path::ClientState(..), StoreValue::ClientState(..)) => true,
            (Path::ClientConsensusState(..), StoreValue::ConsensusState(..)) => true,
            (Path::ClientConnections(..), StoreValue::ConnectionIds(..)) => true,
            (Path::Connections(..), StoreValue::Connection(..)) => true,
            (Path::ChannelEnds(..), StoreValue::Channel(..)) => true,
            (Path::SeqSends(..), StoreValue::Sequence(..)) => true,
            (Path::SeqRecvs(..), StoreValue::Sequence(..)) => true,
            (Path::SeqAcks(..), StoreValue::Sequence(..)) => true,
            (Path::Commitments(..), StoreValue::Commitment(..)) => true,
            (Path::Acks(..), StoreValue::Acknowledgement(..)) => true,
            (Path::Receipts(..), StoreValue::Receipt) => true,
            _ => false,
        }
    }

    /// Reopens a store that already holds records, with the counters that the
    /// node persisted; `None` when some key is not the text of a path or
    /// holds a record of another kind than its path locates.
    pub fn restore(
        store: S,
        router: IbcRouter,
        client_counter: u64,
        connection_counter: u64,
        channel_counter: u64,
    ) -> (r: Option<IbcImpl<S>>)
        requires
            store.inv(),
        ensures
            r is Some <==> store_wf(store.entries()),
            r matches Some(ctx) ==> ctx.wf() && ctx@ == (HostModel {
                entries: store.entries(),
                height: store.height(),
                client_counter,
                connection_counter,
                channel_counter,
                port_modules: Map::empty(),
                processed_times: Map::empty(),
                processed_heights: Map::empty(),
                host_consensus_states: Map::empty(),
                routes: router@,
            }),
    {
        proof {
            reveal_strlit("");
        }
        let keys = store.keys_with_prefix("");
        let mut i: usize = 0;
        while i < keys.len()
            invariant
                store.inv(),
                i <= keys@.len(),
                forall|k: Seq<char>| #[trigger]
                    seg_views(keys@).contains(k) ==> store.entries().contains_key(k),
                forall|k: Seq<char>|
                    store.entries().contains_key(k) && #[trigger] under_prefix(k, ""@)
                        ==> seg_views(keys@).contains(k),
                forall|a: int|
                    0 <= a < i ==> decode_path(#[trigger] keys@[a]@) is Some && value_fits(
                        decode_path(keys@[a]@)->0,
                        store.entries()[keys@[a]@],
                    ),
            decreases keys@.len() - i,
        {
            proof {
                assert(seg_views(keys@)[i as int] == keys@[i as int]@);
                assert(seg_views(keys@).contains(keys@[i as int]@));
            }
            let p = match Path::from_text(keys[i].as_str()) {
                Ok(p) => p,
                Err(_) => {
                    return None;
                },
            };
            match store.get(keys[i].as_str()) {
                Some(v) => {
                    if !Self::fits(&p, v) {
                        return None;
                    }
                },
                None => {
                    return None;
                },
            }
            i = i + 1;
        }
        proof {
            assert forall|k: Seq<char>| #[trigger]
                store.entries().contains_key(k) implies decode_path(k) is Some && value_fits(
                decode_path(k)->0,
                store.entries()[k],
            ) by {
                assert(under_prefix(k, ""@));
                assert(seg_views(keys@).contains(k));
                let a = choose|a: int| 0 <= a < keys@.len() && seg_views(keys@)[a] == k;
                assert(keys@[a]@ == k);
            }
        }
        let ctx = IbcImpl {
            store,
            router,
            client_counter,
            channel_counter,
            conn_counter: connection_counter,
            port_to_module_map: KeyedLog::new(),
            client_processed_times: KeyedLog::new(),
            client_processed_heights: KeyedLog::new(),
            consensus_states: KeyedLog::new(),
        };
        assert(ctx@.port_modules =~= Map::empty());
        assert(ctx@.host_consensus_states =~= Map::empty());
        Some(ctx)
    }

    /// The record stored at `path`.
    fn lookup(&self, path: Path) -> (r: Option<&StoreValue>)
        requires
            self.wf(),
        ensures
            path_valid(path@),
            match r {
                Some(v) => entry_at(self@.entries, path@) == Some(v@) && value_fits(path@, v@),
                None => entry_at(self@.entries, path@) is None,
            },
    {
        let key = path.to_text();
        let r = self.store.get(key.as_str());
        proof {
            lemma_path_round_trip(path@);
            if r is Some {
                assert(self.store.entries().contains_key(path_text(path@)));
            }
        }
        r
    }

    /// Writes `value` at `path`.
    fn put(&mut self, path: Path, value: StoreValue)
        requires
            old(self).wf(),
            value_fits(path@, value@),
        ensures
            final(self).wf(),
            final(self)@ == (HostModel {
                entries: old(self)@.entries.insert(path_text(path@), value@),
                ..old(self)@
            }),
    {
        let key = path.to_text();
        proof {
            lemma_path_round_trip(path@);
        }
        self.store.set(key, value);
        proof {
            let e = self.store.entries();
            assert forall|k: Seq<char>| #[trigger] e.contains_key(k) implies decode_path(k) is Some
                && value_fits(decode_path(k)->0, e[k]) by {
                if k != path_text(path@) {
                    assert(old(self).store.entries().contains_key(k));
                }
            }
        }
    }

    /// Removes the record at `path`.
    fn erase(&mut self, path: Path)
        requires
            old(self).wf(),
        ensures
            final(self).wf(),
            final(self)@ == (HostModel {
                entries: old(self)@.entries.remove(path_text(path@)),
                ..old(self)@
            }),
    {
        let key = path.to_text();
        self.store.remove(key.as_str());
        proof {
            let e = self.store.entries();
            assert forall|k: Seq<char>| #[trigger] e.contains_key(k) implies decode_path(k) is Some
                && value_fits(decode_path(k)->0, e[k]) by {
                assert(old(self).store.entries().contains_key(k));
            }
        }
    }

    /// The stored paths of kind `kind` whose text lies under `prefix`, each
    /// once.
    pub fn stored_paths(&self, prefix: &str, kind: PathKind) -> (r: Vec<Path>)
        requires
            self.wf(),
        ensures
            forall|i: int, j: int| 0 <= i < j < r@.len() ==> r@[i]@ != r@[j]@,
            forall|i: int| 0 <= i < r@.len() ==> path_valid(#[trigger] r@[i]@),
            forall|q: PathModel|
                path_views(r@).contains(q) <==> (path_valid(q) && path_kind(q) == kind
                    && self@.entries.contains_key(path_text(q)) && under_prefix(
                    path_text(q),
                    prefix@,
                )),
    {
        let keys = self.store.keys_with_prefix(prefix);
        let mut out: Vec<Path> = Vec::new();
        let mut i: usize = 0;
        while i < keys.len()
            invariant
                self.wf(),
                i <= keys@.len(),
                crate::store::distinct_keys(keys@),
                forall|k: Seq<char>| #[trigger]
                    seg_views(keys@).contains(k) ==> self.store.entries().contains_key(k) && under_prefix(
                        k,
                        prefix@,
                    ),
                forall|k: Seq<char>|
                    self.store.entries().contains_key(k) && #[trigger] under_prefix(k, prefix@)
                        ==> seg_views(keys@).contains(k),
                forall|a: int| 0 <= a < out@.len() ==> path_valid(#[trigger] out@[a]@),
                forall|a: int|
                    0 <= a < out@.len() ==> exists|b: int|
                        0 <= b < i && path_text(#[trigger] out@[a]@) == keys@[b]@,
                forall|a: int, c: int| 0 <= a < c < out@.len() ==> out@[a]@ != out@[c]@,
                forall|q: PathModel|
                    path_views(out@).contains(q) <==> (path_valid(q) && path_kind(q)
                        == kind && exists|b: int| 0 <= b < i && keys@[b]@ == path_text(q)),
            decreases keys@.len() - i,
        {
            let decoded = Path::from_text(keys[i].as_str());
            match decoded {
                Ok(p) => {
                    if p.kind() == kind {
                        let ghost prev = out@;
                        let ghost pv = p@;
                        out.push(p);
                        proof {
                            assert(path_views(out@) =~= path_views(prev).push(pv));
                            assert(out@[prev.len() as int]@ == pv);
                            assert forall|a: int|
                                0 <= a < out@.len() implies exists|b: int|
                                    0 <= b < i + 1 && path_text(#[trigger] out@[a]@) == keys@[b]@ by {
                                if a < prev.len() {
                                    assert(out@[a] == prev[a]);
                                } else {
                                    assert(path_text(out@[a]@) == keys@[i as int]@);
                                }
                            }
                            assert forall|a: int, c: int| 0 <= a < c < out@.len() implies out@[a]@
                                != out@[c]@ by {
                                if c == prev.len() {
                                    assert(out@[a] == prev[a]);
                                    let b = choose|b: int| 0 <= b < i && path_text(prev[a]@) == keys@[b]@;
                                }
                            }
                            assert forall|q: PathModel|
                                path_views(out@).contains(q) <==> (path_valid(q)
                                    && path_kind(q) == kind && exists|b: int|
                                    0 <= b < i + 1 && keys@[b]@ == path_text(q)) by {
                                if path_views(out@).contains(q) {
                                    let a = choose|a: int| 0 <= a < out@.len() && path_views(out@)[a] == q;
                                    if a < prev.len() {
                                        assert(path_views(prev)[a] == q);
                                    }
                                }
                                if path_valid(q) && path_kind(q) == kind && exists|b: int|
                                    0 <= b < i + 1 && keys@[b]@ == path_text(q) {
                                    let b = choose|b: int| 0 <= b < i + 1 && keys@[b]@ == path_text(q);
                                    if b < i {
                                        let a = choose|a: int| 0 <= a < prev.len() && path_views(prev)[a] == q;
                                        assert(path_views(out@)[a] == q);
                                    } else {
                                        crate::path::lemma_path_text_injective(q, pv);
                                        assert(path_views(out@)[prev.len() as int] == q);
                                    }
                                }
                            }
                        }
                    } else {
                        proof {
                            assert forall|q: PathModel|
                                path_views(out@).contains(q) <==> (path_valid(q)
                                    && path_kind(q) == kind && exists|b: int|
                                    0 <= b < i + 1 && keys@[b]@ == path_text(q)) by {
                                if path_valid(q) && path_kind(q) == kind && exists|b: int|
                                    0 <= b < i + 1 && keys@[b]@ == path_text(q) {
                                    let b = choose|b: int| 0 <= b < i + 1 && keys@[b]@ == path_text(q);
                                    if b == i {
                                        crate::path::lemma_path_text_injective(q, p@);
                                    }
                                }
                            }
                            assert forall|a: int|
                                0 <= a < out@.len() implies exists|b: int|
                                    0 <= b < i + 1 && path_text(#[trigger] out@[a]@) == keys@[b]@ by {
                                let b = choose|b: int| 0 <= b < i && path_text(out@[a]@) == keys@[b]@;
                            }
                        }
                    }
                },
                Err(_) => {
                    proof {
                        assert forall|q: PathModel|
                            path_views(out@).contains(q) <==> (path_valid(q) && path_kind(q)
                                == kind && exists|b: int| 0 <= b < i + 1 && keys@[b]@ == path_text(q)) by {
                            if path_valid(q) && path_kind(q) == kind && exists|b: int|
                                0 <= b < i + 1 && keys@[b]@ == path_text(q) {
                                let b = choose|b: int| 0 <= b < i + 1 && keys@[b]@ == path_text(q);
                            }
                        }
                        assert forall|a: int|
                            0 <= a < out@.len() implies exists|b: int|
                                0 <= b < i + 1 && path_text(#[trigger] out@[a]@) == keys@[b]@ by {
                            let b = choose|b: int| 0 <= b < i && path_text(out@[a]@) == keys@[b]@;
                        }
                    }
                },
            }
            i = i + 1;
        }
        proof {
            assert forall|q: PathModel|
                path_views(out@).contains(q) <==> (path_valid(q) && path_kind(q) == kind
                    && self@.entries.contains_key(path_text(q)) && under_prefix(
                    path_text(q),
                    prefix@,
                )) by {
                if path_valid(q) && path_kind(q) == kind && exists|b: int|
                    0 <= b < keys@.len() && keys@[b]@ == path_text(q) {
                    let b = choose|b: int| 0 <= b < keys@.len() && keys@[b]@ == path_text(q);
                    assert(seg_views(keys@)[b] == path_text(q));
                    assert(seg_views(keys@).contains(path_text(q)));
                }
                if path_valid(q) && path_kind(q) == kind && self@.entries.contains_key(path_text(q))
                    && under_prefix(path_text(q), prefix@) {
                    assert(seg_views(keys@).contains(path_text(q)));
                    let b = choose|b: int| 0 <= b < keys@.len() && seg_views(keys@)[b] == path_text(q);
                    assert(keys@[b]@ == path_text(q));
                }
            }
        }
        out
    }
}

/// The consensus-state path of `client` at height `h`.
pub open spec fn consensus_path(client: Seq<char>, h: Height) -> PathModel {
    PathModel::ClientConsensusState(client, h.revision_number, h.revision_height)
}

/// The client connections recorded for `client`, or none.
pub open spec fn connections_of(entries: Map<Seq<char>, StoredValue>, client: Seq<char>) -> Seq<
    Seq<char>,
> {
    match entry_at(entries, PathModel::ClientConnections(client)) {
        Some(StoredValue::ConnectionIds(ids)) => ids,
        _ => Seq::empty(),
    }
}

/// The least height of `hs` strictly above `h`.
fn least_above(hs: &Vec<Height>, h: Height) -> (r: Option<Height>)
    ensures
        match r {
            Some(m) => hs@.contains(m) && height_lt(h, m) && forall|x: Height|
                hs@.contains(x) && height_lt(h, x) ==> !height_lt(x, m),
            None => forall|x: Height| hs@.contains(x) ==> !height_lt(h, x),
        },
{
    let mut best: Option<Height> = None;
    let mut i: usize = 0;
    while i < hs.len()
        invariant
            i <= hs@.len(),
            match best {
                Some(m) => hs@.contains(m) && height_lt(h, m) && forall|j: int|
                    0 <= j < i && height_lt(h, #[trigger] hs@[j]) ==> !height_lt(hs@[j], m),
                None => forall|j: int| 0 <= j < i ==> !height_lt(h, #[trigger] hs@[j]),
            },
        decreases hs@.len() - i,
    {
        let x = hs[i];
        if h.lt(&x) {
            match best {
                None => {
                    best = Some(x);
                },
                Some(m) => {
                    if x.lt(&m) {
                        best = Some(x);
                    }
                },
            }
        }
        i = i + 1;
    }
    best
}

/// The greatest height of `hs` strictly below `h`.
fn greatest_below(hs: &Vec<Height>, h: Height) -> (r: Option<Height>)
    ensures
        match r {
            Some(m) => hs@.contains(m) && height_lt(m, h) && forall|x: Height|
                hs@.contains(x) && height_lt(x, h) ==> !height_lt(m, x),
            None => forall|x: Height| hs@.contains(x) ==> !height_lt(x, h),
        },
{
    let mut best: Option<Height> = None;
    let mut i: usize = 0;
    while i < hs.len()
        invariant
            i <= hs@.len(),
            match best {
                Some(m) => hs@.contains(m) && height_lt(m, h) && forall|j: int|
                    0 <= j < i && height_lt(#[trigger] hs@[j], h) ==> !height_lt(m, hs@[j]),
                None => forall|j: int| 0 <= j < i ==> !height_lt(#[trigger] hs@[j], h),
            },
        decreases hs@.len() - i,
    {
        let x = hs[i];
        if x.lt(&h) {
            match best {
                None => {
                    best = Some(x);
                },
                Some(m) => {
                    if m.lt(&x) {
                        best = Some(x);
                    }
                },
            }
        }
        i = i + 1;
    }
    best
}

impl<S: IbcStore> IbcImpl<S> {
    /// The text `clients/{client}/consensusStates`.
    fn consensus_prefix(client_id: &ClientId) -> (r: String)
        ensures
            r@ == join(seq!["clients"@, client_id@, "consensusStates"@]),
            crate::identifier::is_valid_identifier(client_id@),
    {
        let mut rest: Vec<&str> = Vec::new();
        rest.push(client_id.as_str());
        rest.push("consensusStates");
        let r = join_text("clients", &rest);
        assert(seq!["clients"@] + rest@.map_values(|x: &str| x@) =~= seq![
            "clients"@,
            client_id@,
            "consensusStates"@,
        ]);
        r
    }

    /// The heights at which `client_id` has a consensus state, each once.
    pub fn consensus_heights(&self, client_id: &ClientId) -> (r: Vec<Height>)
        requires
            self.wf(),
        ensures
            forall|i: int, j: int| 0 <= i < j < r@.len() ==> r@[i] != r@[j],
            forall|h: Height|
                r@.contains(h) <==> entry_at(self@.entries, consensus_path(client_id@, h)) is Some,
    {
        let prefix = Self::consensus_prefix(client_id);
        let paths = self.stored_paths(prefix.as_str(), PathKind::ClientConsensusState);
        let mut out: Vec<Height> = Vec::new();
        let mut i: usize = 0;
        while i < paths.len()
            invariant
                i <= paths@.len(),
                forall|a: int, b: int| 0 <= a < b < out@.len() ==> out@[a] != out@[b],
                forall|a: int, b: int| 0 <= a < b < paths@.len() ==> paths@[a]@ != paths@[b]@,
                forall|h: Height|
                    out@.contains(h) <==> exists|a: int|
                        0 <= a < i && #[trigger] paths@[a]@ == consensus_path(client_id@, h),
            decreases paths@.len() - i,
        {
            match &paths[i] {
                Path::ClientConsensusState(cp) => {
                    if cp.client_id.id.equals(&client_id.id) {
                        let h = Height { revision_number: cp.epoch, revision_height: cp.height };
                        let ghost prev = out@;
                        proof {
                            assert(paths@[i as int]@ == consensus_path(client_id@, h));
                            assert forall|a: int| 0 <= a < prev.len() implies prev[a] != h by {
                                assert(prev.contains(prev[a]));
                                let b = choose|b: int|
                                    0 <= b < i && #[trigger] paths@[b]@ == consensus_path(client_id@, prev[a]);
                            }
                        }
                        out.push(h);
                        proof {
                            assert forall|x: Height|
                                out@.contains(x) <==> exists|a: int|
                                    0 <= a < i + 1 && #[trigger] paths@[a]@ == consensus_path(client_id@, x) by {
                                if out@.contains(x) {
                                    let a = choose|a: int| 0 <= a < out@.len() && out@[a] == x;
                                    if a < prev.len() {
                                        assert(prev.contains(x));
                                    }
                                }
                                if exists|a: int|
                                    0 <= a < i + 1 && #[trigger] paths@[a]@ == consensus_path(client_id@, x) {
                                    let a = choose|a: int|
                                        0 <= a < i + 1 && #[trigger] paths@[a]@ == consensus_path(client_id@, x);
                                    if a < i {
                                        assert(prev.contains(x));
                                        let c = choose|c: int| 0 <= c < prev.len() && prev[c] == x;
                                        assert(out@[c] == x);
                                    } else {
                                        assert(out@[prev.len() as int] == x);
                                    }
                                }
                            }
                        }
                    }
                },
                _ => {},
            }
            i = i + 1;
        }
        proof {
            assert forall|h: Height|
                out@.contains(h) <==> entry_at(self@.entries, consensus_path(client_id@, h)) is Some by {
                let q = consensus_path(client_id@, h);
                if entry_at(self@.entries, q) is Some {
                    lemma_path_under_family(q, 3);
                    assert(path_segments(q).subrange(0, 3) =~= seq![
                        "clients"@,
                        client_id@,
                        "consensusStates"@,
                    ]);
                    assert(path_valid(q));
                    assert(under_prefix(path_text(q), prefix@));
                    assert(path_views(paths@).contains(q));
                    let a = choose|a: int| 0 <= a < paths@.len() && path_views(paths@)[a] == q;
                    assert(paths@[a]@ == q);
                }
                if out@.contains(h) {
                    let a = choose|a: int| 0 <= a < i && #[trigger] paths@[a]@ == consensus_path(client_id@, h);
                    assert(path_views(paths@)[a] == q);
                    assert(path_views(paths@).contains(q));
                }
            }
        }
        out
    }

    /// The consensus state of `client_id` at the least recorded height
    /// strictly above `height`, if any.
    pub fn next_consensus_state(&self, client_id: &ClientId, height: Height) -> (r: Option<Vec<u8>>)
        requires
            self.wf(),
        ensures
            match r {
                Some(cs) => exists|h: Height|
                    height_lt(height, h) && entry_at(self@.entries, consensus_path(client_id@, h))
                        == Some(StoredValue::ConsensusState(cs@)) && forall|x: Height|
                        height_lt(height, x) && height_lt(x, h) ==> entry_at(
                            self@.entries,
                            consensus_path(client_id@, x),
                        ) is None,
                None => forall|h: Height|
                    height_lt(height, h) ==> entry_at(
                        self@.entries,
                        consensus_path(client_id@, h),
                    ) is None,
            },
    {
        let hs = self.consensus_heights(client_id);
        match least_above(&hs, height) {
            None => None,
            Some(m) => {
                match self.consensus_state(client_id, m) {
                    Ok(cs) => Some(cs),
                    Err(_) => None,
                }
            },
        }
    }

    /// The consensus state of `client_id` at the greatest recorded height
    /// strictly below `height`, if any.
    pub fn prev_consensus_state(&self, client_id: &ClientId, height: Height) -> (r: Option<Vec<u8>>)
        requires
            self.wf(),
        ensures
            match r {
                Some(cs) => exists|h: Height|
                    height_lt(h, height) && entry_at(self@.entries, consensus_path(client_id@, h))
                        == Some(StoredValue::ConsensusState(cs@)) && forall|x: Height|
                        height_lt(h, x) && height_lt(x, height) ==> entry_at(
                            self@.entries,
                            consensus_path(client_id@, x),
                        ) is None,
                None => forall|h: Height|
                    height_lt(h, height) ==> entry_at(
                        self@.entries,
                        consensus_path(client_id@, h),
                    ) is None,
            },
    {
        let hs = self.consensus_heights(client_id);
        match greatest_below(&hs, height) {
            None => None,
            Some(m) => {
                match self.consensus_state(client_id, m) {
                    Ok(cs) => Some(cs),
                    Err(_) => None,
                }
            },
        }
    }

    /// The client type recorded for `client_id`.
    pub fn client_type(&self, client_id: &ClientId) -> (r: Result<String, ContextError>)
        requires
            self.wf(),
        ensures
            match r {
                Ok(t) => entry_at(self@.entries, PathModel::ClientType(client_id@)) == Some(
                    StoredValue::ClientType(t@),
                ),
                Err(e) => e == ContextError::ClientNotFound && entry_at(
                    self@.entries,
                    PathModel::ClientType(client_id@),
                ) is None,
            },
    {
        match self.lookup(Path::ClientType(client_id.copy())) {
            Some(StoreValue::ClientType(t)) => Ok(t.clone()),
            _ => Err(ContextError::ClientNotFound),
        }
    }

    /// The client state recorded for `client_id`.
    pub fn client_state(&self, client_id: &ClientId) -> (r: Result<Vec<u8>, ContextError>)
        requires
            self.wf(),
        ensures
            match r {
                Ok(cs) => entry_at(self@.entries, PathModel::ClientState(client_id@)) == Some(
                    StoredValue::ClientState(cs@),
                ),
                Err(e) => e == ContextError::ClientNotFound && entry_at(
                    self@.entries,
                    PathModel::ClientState(client_id@),
                ) is None,
            },
    {
        match self.lookup(Path::ClientState(client_id.copy())) {
            Some(StoreValue::ClientState(b)) => Ok(copy_bytes(b)),
            _ => Err(ContextError::ClientNotFound),
        }
    }

    /// The consensus state that `client_id` recorded at `height`.
    pub fn consensus_state(&self, client_id: &ClientId, height: Height) -> (r: Result<
        Vec<u8>,
        ContextError,
    >)
        requires
            self.wf(),
        ensures
            match r {
                Ok(cs) => entry_at(self@.entries, consensus_path(client_id@, height)) == Some(
                    StoredValue::ConsensusState(cs@),
                ),
                Err(e) => e == ContextError::ConsensusStateNotFound && entry_at(
                    self@.entries,
                    consensus_path(client_id@, height),
                ) is None,
            },
    {
        let path = Path::ClientConsensusState(
            ClientConsensusStatePath {
                client_id: client_id.copy(),
                epoch: height.revision_number,
                height: height.revision_height,
            },
        );
        match self.lookup(path) {
            Some(StoreValue::ConsensusState(b)) => Ok(copy_bytes(b)),
            _ => Err(ContextError::ConsensusStateNotFound),
        }
    }

    /// The height of this chain: revision 0 at the store's current height.
    pub fn host_height(&self) -> (r: Height)
        requires
            self.wf(),
        ensures
            r == (Height { revision_number: 0, revision_height: self@.height }),
    {
        Height { revision_number: 0, revision_height: self.store.current_height() }
    }

    /// This chain's own consensus state at `height`, from the in-memory cache.
    pub fn host_consensus_state(&self, height: Height) -> (r: Result<Vec<u8>, ContextError>)
        ensures
            match r {
                Ok(cs) => self@.host_consensus_states.contains_key(height.revision_height)
                    && cs@ == self@.host_consensus_states[height.revision_height],
                Err(e) => e == ContextError::MissingHostConsensusState
                    && !self@.host_consensus_states.contains_key(height.revision_height),
            },
    {
        match self.consensus_states.get(&height.revision_height) {
            Some(b) => Ok(copy_bytes(b)),
            None => Err(ContextError::MissingHostConsensusState),
        }
    }

    /// This chain's consensus state at the height after the current one.
    pub fn pending_host_consensus_state(&self) -> (r: Result<Vec<u8>, ContextError>)
        requires
            self.wf(),
        ensures
            match r {
                Ok(cs) => self@.height < u64::MAX && self@.host_consensus_states.contains_key(
                    (self@.height + 1) as u64,
                ) && cs@ == self@.host_consensus_states[(self@.height + 1) as u64],
                Err(e) => e == ContextError::MissingHostConsensusState && (self@.height
                    == u64::MAX || !self@.host_consensus_states.contains_key(
                    (self@.height + 1) as u64,
                )),
            },
    {
        let h = self.host_height();
        if h.revision_height == u64::MAX {
            return Err(ContextError::MissingHostConsensusState);
        }
        self.host_consensus_state(Height { revision_number: 0, revision_height: h.revision_height + 1 })
    }

    /// Records this chain's own consensus state at revision height `height`.
    pub fn store_host_consensus_state(&mut self, height: u64, consensus_state: Vec<u8>)
        requires
            old(self).wf(),
        ensures
            final(self).wf(),
            final(self)@ == (HostModel {
                host_consensus_states: old(self)@.host_consensus_states.insert(
                    height,
                    consensus_state@,
                ),
                ..old(self)@
            }),
    {
        let ghost b = consensus_state@;
        self.consensus_states.insert(height, consensus_state);
        assert(self@.host_consensus_states =~= old(self)@.host_consensus_states.insert(height, b));
    }

    /// Sets the store's current height, as the node commits a block.
    pub fn set_host_height(&mut self, height: u64)
        requires
            old(self).wf(),
        ensures
            final(self).wf(),
            final(self)@ == (HostModel { height, ..old(self)@ }),
    {
        self.store.set_height(height);
    }

    pub fn client_counter(&self) -> (r: u64)
        ensures
            r == self@.client_counter,
    {
        self.client_counter
    }

    pub fn connection_counter(&self) -> (r: u64)
        ensures
            r == self@.connection_counter,
    {
        self.conn_counter
    }

    pub fn channel_counter(&self) -> (r: u64)
        ensures
            r == self@.channel_counter,
    {
        self.channel_counter
    }

    pub fn store_client_type(&mut self, client_id: &ClientId, client_type: String)
        requires
            old(self).wf(),
        ensures
            final(self).wf(),
            final(self)@ == (HostModel {
                entries: old(self)@.entries.insert(
                    path_text(PathModel::ClientType(client_id@)),
                    StoredValue::ClientType(client_type@),
                ),
                ..old(self)@
            }),
    {
        self.put(Path::ClientType(client_id.copy()), StoreValue::ClientType(client_type));
    }

    pub fn store_client_state(&mut self, client_id: &ClientId, client_state: Vec<u8>)
        requires
            old(self).wf(),
        ensures
            final(self).wf(),
            final(self)@ == (HostModel {
                entries: old(self)@.entries.insert(
                    path_text(PathModel::ClientState(client_id@)),
                    StoredValue::ClientState(client_state@),
                ),
                ..old(self)@
            }),
    {
        self.put(Path::ClientState(client_id.copy()), StoreValue::ClientState(client_state));
    }

    pub fn store_consensus_state(
        &mut self,
        client_id: &ClientId,
        height: Height,
        consensus_state: Vec<u8>,
    )
        requires
            old(self).wf(),
        ensures
            final(self).wf(),
            final(self)@ == (HostModel {
                entries: old(self)@.entries.insert(
                    path_text(consensus_path(client_id@, height)),
                    StoredValue::ConsensusState(consensus_state@),
                ),
                ..old(self)@
            }),
    {
        let path = Path::ClientConsensusState(
            ClientConsensusStatePath {
                client_id: client_id.copy(),
                epoch: height.revision_number,
                height: height.revision_height,
            },
        );
        self.put(path, StoreValue::ConsensusState(consensus_state));
    }

    /// Adds one to the client counter; fails, changing nothing, at the
    /// counter's limit.
    pub fn increase_client_counter(&mut self) -> (r: Result<(), ContextError>)
        requires
            old(self).wf(),
        ensures
            final(self).wf(),
            r is Ok <==> old(self)@.client_counter < u64::MAX,
            r is Ok ==> final(self)@ == (HostModel {
                client_counter: (old(self)@.client_counter + 1) as u64,
                ..old(self)@
            }),
            r matches Err(e) ==> e == ContextError::CounterOverflow && final(self)@ == old(self)@,
    {
        if self.client_counter == u64::MAX {
            return Err(ContextError::CounterOverflow);
        }
        self.client_counter = self.client_counter + 1;
        Ok(())
    }

    /// Records when `client_id` was updated to `height`, in host time.
    pub fn store_update_time(&mut self, client_id: &ClientId, height: Height, timestamp: u64)
        requires
            old(self).wf(),
        ensures
            final(self).wf(),
            final(self)@ == (HostModel {
                processed_times: old(self)@.processed_times.insert((client_id@, height), timestamp),
                ..old(self)@
            }),
    {
        let key = ClientHeightKey { client_id: client_id.copy(), height };
        self.client_processed_times.insert(key, timestamp);
    }

    /// Records at which host height `client_id` was updated to `height`.
    pub fn store_update_height(&mut self, client_id: &ClientId, height: Height, host_height: Height)
        requires
            old(self).wf(),
        ensures
            final(self).wf(),
            final(self)@ == (HostModel {
                processed_heights: old(self)@.processed_heights.insert(
                    (client_id@, height),
                    host_height,
                ),
                ..old(self)@
            }),
    {
        let key = ClientHeightKey { client_id: client_id.copy(), height };
        self.client_processed_heights.insert(key, host_height);
    }

    /// The host time at which `client_id` was updated to `height`.
    pub fn client_update_time(&self, client_id: &ClientId, height: Height) -> (r: Result<
        u64,
        ContextError,
    >)
        ensures
            match r {
                Ok(t) => self@.processed_times.contains_key((client_id@, height))
                    && t == self@.processed_times[(client_id@, height)],
                Err(e) => e == ContextError::ProcessedTimeNotFound
                    && !self@.processed_times.contains_key((client_id@, height)),
            },
    {
        let key = ClientHeightKey { client_id: client_id.copy(), height };
        match self.client_processed_times.get(&key) {
            Some(t) => Ok(*t),
            None => Err(ContextError::ProcessedTimeNotFound),
        }
    }

    /// The host height at which `client_id` was updated to `height`.
    pub fn client_update_height(&self, client_id: &ClientId, height: Height) -> (r: Result<
        Height,
        ContextError,
    >)
        ensures
            match r {
                Ok(h) => self@.processed_heights.contains_key((client_id@, height))
                    && h == self@.processed_heights[(client_id@, height)],
                Err(e) => e == ContextError::ProcessedHeightNotFound
                    && !self@.processed_heights.contains_key((client_id@, height)),
            },
    {
        let key = ClientHeightKey { client_id: client_id.copy(), height };
        match self.client_processed_heights.get(&key) {
            Some(h) => Ok(*h),
            None => Err(ContextError::ProcessedHeightNotFound),
        }
    }
}

pub open spec fn commitment_path(port: Seq<char>, channel: Seq<char>, sequence: u64) -> PathModel {
    PathModel::Commitments(port, channel, sequence)
}

pub open spec fn receipt_path(port: Seq<char>, channel: Seq<char>, sequence: u64) -> PathModel {
    PathModel::Receipts(port, channel, sequence)
}

pub open spec fn ack_path(port: Seq<char>, channel: Seq<char>, sequence: u64) -> PathModel {
    PathModel::Acks(port, channel, sequence)
}

fn packet(port_id: &PortId, channel_id: &ChannelId, sequence: u64) -> (r: PacketPath)
    ensures
        r.port_id@ == port_id@,
        r.channel_id@ == channel_id@,
        r.sequence == sequence,
{
    PacketPath { port_id: port_id.copy(), channel_id: channel_id.copy(), sequence }
}

impl<S: IbcStore> IbcImpl<S> {
    pub fn store_connection(&mut self, connection_id: &ConnectionId, connection_end: &ConnectionEnd)
        requires
            old(self).wf(),
        ensures
            final(self).wf(),
            final(self)@ == (HostModel {
                entries: old(self)@.entries.insert(
                    path_text(PathModel::Connections(connection_id@)),
                    StoredValue::Connection(connection_end@),
                ),
                ..old(self)@
            }),
    {
        self.put(
            Path::Connections(connection_id.copy()),
            StoreValue::Connection(connection_end.copy()),
        );
    }

    /// Appends `connection_id` to the connections recorded for `client_id`.
    pub fn store_connection_to_client(&mut self, connection_id: &ConnectionId, client_id: &ClientId)
        requires
            old(self).wf(),
        ensures
            final(self).wf(),
            final(self)@ == (HostModel {
                entries: old(self)@.entries.insert(
                    path_text(PathModel::ClientConnections(client_id@)),
                    StoredValue::ConnectionIds(
                        connections_of(old(self)@.entries, client_id@).push(connection_id@),
                    ),
                ),
                ..old(self)@
            }),
    {
        let mut ids: Vec<ConnectionId> = match self.lookup(Path::ClientConnections(client_id.copy())) {
            Some(StoreValue::ConnectionIds(v)) => crate::types::copy_connection_ids(v),
            _ => Vec::new(),
        };
        let ghost before = ids_view(ids@);
        assert(before =~= connections_of(old(self)@.entries, client_id@));
        ids.push(connection_id.copy());
        assert(ids_view(ids@) =~= before.push(connection_id@));
        self.put(Path::ClientConnections(client_id.copy()), StoreValue::ConnectionIds(ids));
    }

    /// Adds one to the connection counter; fails, changing nothing, at the
    /// counter's limit.
    pub fn increase_connection_counter(&mut self) -> (r: Result<(), ContextError>)
        requires
            old(self).wf(),
        ensures
            final(self).wf(),
            r is Ok <==> old(self)@.connection_counter < u64::MAX,
            r is Ok ==> final(self)@ == (HostModel {
                connection_counter: (old(self)@.connection_counter + 1) as u64,
                ..old(self)@
            }),
            r matches Err(e) ==> e == ContextError::CounterOverflow && final(self)@ == old(self)@,
    {
        if self.conn_counter == u64::MAX {
            return Err(ContextError::CounterOverflow);
        }
        self.conn_counter = self.conn_counter + 1;
        Ok(())
    }

    pub fn connection_end(&self, connection_id: &ConnectionId) -> (r: Result<
        ConnectionEnd,
        ContextError,
    >)
        requires
            self.wf(),
        ensures
            match r {
                Ok(c) => entry_at(self@.entries, PathModel::Connections(connection_id@)) == Some(
                    StoredValue::Connection(c@),
                ),
                Err(e) => e == ContextError::ConnectionNotFound && entry_at(
                    self@.entries,
                    PathModel::Connections(connection_id@),
                ) is None,
            },
    {
        match self.lookup(Path::Connections(connection_id.copy())) {
            Some(StoreValue::Connection(c)) => Ok(c.copy()),
            _ => Err(ContextError::ConnectionNotFound),
        }
    }

    /// The connections recorded for `client_id`; none when nothing is recorded.
    pub fn client_connections(&self, client_id: &ClientId) -> (r: Vec<ConnectionId>)
        requires
            self.wf(),
        ensures
            ids_view(r@) == connections_of(self@.entries, client_id@),
    {
        match self.lookup(Path::ClientConnections(client_id.copy())) {
            Some(StoreValue::ConnectionIds(v)) => crate::types::copy_connection_ids(v),
            _ => {
                let r: Vec<ConnectionId> = Vec::new();
                assert(ids_view(r@) =~= Seq::<Seq<char>>::empty());
                r
            },
        }
    }

    pub fn host_current_height(&self) -> (r: Height)
        requires
            self.wf(),
        ensures
            r == (Height { revision_number: 0, revision_height: self@.height }),
    {
        self.host_height()
    }

    /// The oldest height of this chain that proofs may refer to.
    pub fn host_oldest_height(&self) -> (r: Height)
        ensures
            r == (Height { revision_number: 0, revision_height: 1 }),
    {
        Height { revision_number: 0, revision_height: 1 }
    }

    /// The prefix under which this chain commits its state: the bytes of `ibc`.
    pub fn commitment_prefix(&self) -> (r: Vec<u8>)
        ensures
            r@ == seq![105u8, 98u8, 99u8],
    {
        let mut r: Vec<u8> = Vec::new();
        r.push(105u8);
        r.push(98u8);
        r.push(99u8);
        r
    }

    /// The consensus state that `client_id` recorded at `height`, as the
    /// connection handshake reads it.
    pub fn client_consensus_state(&self, client_id: &ClientId, height: Height) -> (r: Result<
        Vec<u8>,
        ContextError,
    >)
        requires
            self.wf(),
        ensures
            match r {
                Ok(cs) => entry_at(self@.entries, consensus_path(client_id@, height)) == Some(
                    StoredValue::ConsensusState(cs@),
                ),
                Err(e) => e == ContextError::ConsensusStateNotFound && entry_at(
                    self@.entries,
                    consensus_path(client_id@, height),
                ) is None,
            },
    {
        self.consensus_state(client_id, height)
    }

    /// Binds `port_id` to the module `module_id`; a port is bound once.
    pub fn bind_port(&mut self, port_id: &PortId, module_id: ModuleId) -> (r: Result<
        (),
        ContextError,
    >)
        requires
            old(self).wf(),
        ensures
            final(self).wf(),
            r is Ok <==> !old(self)@.port_modules.contains_key(port_id@),
            r is Ok ==> final(self)@ == (HostModel {
                port_modules: old(self)@.port_modules.insert(port_id@, module_id@),
                ..old(self)@
            }),
            r matches Err(e) ==> e == ContextError::PortAlreadyBound && final(self)@ == old(self)@,
    {
        if self.port_to_module_map.get(port_id).is_some() {
            return Err(ContextError::PortAlreadyBound);
        }
        let ghost m = module_id;
        self.port_to_module_map.insert(port_id.copy(), module_id);
        assert(self@.port_modules =~= old(self)@.port_modules.insert(port_id@, m@));
        Ok(())
    }

    /// The module bound to `port_id`.
    pub fn lookup_module_by_port(&self, port_id: &PortId) -> (r: Result<ModuleId, ContextError>)
        ensures
            match r {
                Ok(m) => self@.port_modules.contains_key(port_id@) && m@
                    == self@.port_modules[port_id@],
                Err(e) => e == ContextError::UnknownPort && !self@.port_modules.contains_key(
                    port_id@,
                ),
            },
    {
        match self.port_to_module_map.get(port_id) {
            Some(m) => Ok(m.copy()),
            None => Err(ContextError::UnknownPort),
        }
    }

    /// Marks the packet `(port_id, channel_id, sequence)` as in flight.
    pub fn store_packet_commitment(
        &mut self,
        port_id: &PortId,
        channel_id: &ChannelId,
        sequence: u64,
        commitment: Vec<u8>,
    )
        requires
            old(self).wf(),
        ensures
            final(self).wf(),
            final(self)@ == (HostModel {
                entries: old(self)@.entries.insert(
                    path_text(commitment_path(port_id@, channel_id@, sequence)),
                    StoredValue::Commitment(commitment@),
                ),
                ..old(self)@
            }),
    {
        self.put(
            Path::Commitments(packet(port_id, channel_id, sequence)),
            StoreValue::Commitment(commitment),
        );
    }

    /// Removes the in-flight mark of a packet.
    pub fn delete_packet_commitment(&mut self, port_id: &PortId, channel_id: &ChannelId, sequence: u64)
        requires
            old(self).wf(),
        ensures
            final(self).wf(),
            final(self)@ == (HostModel {
                entries: old(self)@.entries.remove(
                    path_text(commitment_path(port_id@, channel_id@, sequence)),
                ),
                ..old(self)@
            }),
    {
        self.erase(Path::Commitments(packet(port_id, channel_id, sequence)));
    }

    /// Records that a packet was received; recording it again changes nothing.
    pub fn store_packet_receipt(&mut self, port_id: &PortId, channel_id: &ChannelId, sequence: u64)
        requires
            old(self).wf(),
        ensures
            final(self).wf(),
            final(self)@ == (HostModel {
                entries: old(self)@.entries.insert(
                    path_text(receipt_path(port_id@, channel_id@, sequence)),
                    StoredValue::Receipt,
                ),
                ..old(self)@
            }),
    {
        self.put(Path::Receipts(packet(port_id, channel_id, sequence)), StoreValue::Receipt);
    }

    pub fn store_packet_acknowledgement(
        &mut self,
        port_id: &PortId,
        channel_id: &ChannelId,
        sequence: u64,
        ack_commitment: Vec<u8>,
    )
        requires
            old(self).wf(),
        ensures
            final(self).wf(),
            final(self)@ == (HostModel {
                entries: old(self)@.entries.insert(
                    path_text(ack_path(port_id@, channel_id@, sequence)),
                    StoredValue::Acknowledgement(ack_commitment@),
                ),
                ..old(self)@
            }),
    {
        self.put(
            Path::Acks(packet(port_id, channel_id, sequence)),
            StoreValue::Acknowledgement(ack_commitment),
        );
    }

    /// Deletes an acknowledgement by storing an empty one in its place.
    pub fn delete_packet_acknowledgement(
        &mut self,
        port_id: &PortId,
        channel_id: &ChannelId,
        sequence: u64,
    )
        requires
            old(self).wf(),
        ensures
            final(self).wf(),
            final(self)@ == (HostModel {
                entries: old(self)@.entries.insert(
                    path_text(ack_path(port_id@, channel_id@, sequence)),
                    StoredValue::Acknowledgement(Seq::empty()),
                ),
                ..old(self)@
            }),
    {
        let empty: Vec<u8> = Vec::new();
        self.store_packet_acknowledgement(port_id, channel_id, sequence, empty);
    }

    /// The channels of a connection are found by scanning channel ends, so
    /// nothing is recorded here.
    pub fn store_connection_channels(
        &mut self,
        connection_id: &ConnectionId,
        port_id: &PortId,
        channel_id: &ChannelId,
    )
        ensures
            final(self)@ == old(self)@,
    {
    }

    pub fn store_channel(&mut self, port_id: &PortId, channel_id: &ChannelId, channel_end: &ChannelEnd)
        requires
            old(self).wf(),
        ensures
            final(self).wf(),
            final(self)@ == (HostModel {
                entries: old(self)@.entries.insert(
                    path_text(PathModel::ChannelEnds(port_id@, channel_id@)),
                    StoredValue::Channel(channel_end@),
                ),
                ..old(self)@
            }),
    {
        self.put(
            Path::ChannelEnds(port_id.copy(), channel_id.copy()),
            StoreValue::Channel(channel_end.copy()),
        );
    }

    pub fn store_next_sequence_send(&mut self, port_id: &PortId, channel_id: &ChannelId, seq: u64)
        requires
            old(self).wf(),
        ensures
            final(self).wf(),
            final(self)@ == (HostModel {
                entries: old(self)@.entries.insert(
                    path_text(PathModel::SeqSends(port_id@, channel_id@)),
                    StoredValue::Sequence(seq),
                ),
                ..old(self)@
            }),
    {
        self.put(Path::SeqSends(port_id.copy(), channel_id.copy()), StoreValue::Sequence(seq));
    }

    pub fn store_next_sequence_recv(&mut self, port_id: &PortId, channel_id: &ChannelId, seq: u64)
        requires
            old(self).wf(),
        ensures
            final(self).wf(),
            final(self)@ == (HostModel {
                entries: old(self)@.entries.insert(
                    path_text(PathModel::SeqRecvs(port_id@, channel_id@)),
                    StoredValue::Sequence(seq),
                ),
                ..old(self)@
            }),
    {
        self.put(Path::SeqRecvs(port_id.copy(), channel_id.copy()), StoreValue::Sequence(seq));
    }

    pub fn store_next_sequence_ack(&mut self, port_id: &PortId, channel_id: &ChannelId, seq: u64)
        requires
            old(self).wf(),
        ensures
            final(self).wf(),
            final(self)@ == (HostModel {
                entries: old(self)@.entries.insert(
                    path_text(PathModel::SeqAcks(port_id@, channel_id@)),
                    StoredValue::Sequence(seq),
                ),
                ..old(self)@
            }),
    {
        self.put(Path::SeqAcks(port_id.copy(), channel_id.copy()), StoreValue::Sequence(seq));
    }

    /// Adds one to the channel counter; fails, changing nothing, at the
    /// counter's limit.
    pub fn increase_channel_counter(&mut self) -> (r: Result<(), ContextError>)
        requires
            old(self).wf(),
        ensures
            final(self).wf(),
            r is Ok <==> old(self)@.channel_counter < u64::MAX,
            r is Ok ==> final(self)@ == (HostModel {
                channel_counter: (old(self)@.channel_counter + 1) as u64,
                ..old(self)@
            }),
            r matches Err(e) ==> e == ContextError::CounterOverflow && final(self)@ == old(self)@,
    {
        if self.channel_counter == u64::MAX {
            return Err(ContextError::CounterOverflow);
        }
        self.channel_counter = self.channel_counter + 1;
        Ok(())
    }

    pub fn channel_end(&self, port_id: &PortId, channel_id: &ChannelId) -> (r: Result<
        ChannelEnd,
        ContextError,
    >)
        requires
            self.wf(),
        ensures
            match r {
                Ok(c) => entry_at(self@.entries, PathModel::ChannelEnds(port_id@, channel_id@))
                    == Some(StoredValue::Channel(c@)),
                Err(e) => e == ContextError::ChannelNotFound && entry_at(
                    self@.entries,
                    PathModel::ChannelEnds(port_id@, channel_id@),
                ) is None,
            },
    {
        match self.lookup(Path::ChannelEnds(port_id.copy(), channel_id.copy())) {
            Some(StoreValue::Channel(c)) => Ok(c.copy()),
            _ => Err(ContextError::ChannelNotFound),
        }
    }

    fn sequence_at(&self, path: Path) -> (r: Result<u64, ContextError>)
        requires
            self.wf(),
            path@ is SeqSends || path@ is SeqRecvs || path@ is SeqAcks,
        ensures
            match r {
                Ok(n) => entry_at(self@.entries, path@) == Some(StoredValue::Sequence(n)),
                Err(e) => e == ContextError::SequenceNotFound && entry_at(self@.entries, path@) is None,
            },
    {
        match self.lookup(path) {
            Some(StoreValue::Sequence(n)) => Ok(*n),
            _ => Err(ContextError::SequenceNotFound),
        }
    }

    pub fn get_next_sequence_send(&self, port_id: &PortId, channel_id: &ChannelId) -> (r: Result<
        u64,
        ContextError,
    >)
        requires
            self.wf(),
        ensures
            match r {
                Ok(n) => entry_at(self@.entries, PathModel::SeqSends(port_id@, channel_id@))
                    == Some(StoredValue::Sequence(n)),
                Err(e) => e == ContextError::SequenceNotFound && entry_at(
                    self@.entries,
                    PathModel::SeqSends(port_id@, channel_id@),
                ) is None,
            },
    {
        self.sequence_at(Path::SeqSends(port_id.copy(), channel_id.copy()))
    }

    pub fn get_next_sequence_recv(&self, port_id: &PortId, channel_id: &ChannelId) -> (r: Result<
        u64,
        ContextError,
    >)
        requires
            self.wf(),
        ensures
            match r {
                Ok(n) => entry_at(self@.entries, PathModel::SeqRecvs(port_id@, channel_id@))
                    == Some(StoredValue::Sequence(n)),
                Err(e) => e == ContextError::SequenceNotFound && entry_at(
                    self@.entries,
                    PathModel::SeqRecvs(port_id@, channel_id@),
                ) is None,
            },
    {
        self.sequence_at(Path::SeqRecvs(port_id.copy(), channel_id.copy()))
    }

    pub fn get_next_sequence_ack(&self, port_id: &PortId, channel_id: &ChannelId) -> (r: Result<
        u64,
        ContextError,
    >)
        requires
            self.wf(),
        ensures
            match r {
                Ok(n) => entry_at(self@.entries, PathModel::SeqAcks(port_id@, channel_id@))
                    == Some(StoredValue::Sequence(n)),
                Err(e) => e == ContextError::SequenceNotFound && entry_at(
                    self@.entries,
                    PathModel::SeqAcks(port_id@, channel_id@),
                ) is None,
            },
    {
        self.sequence_at(Path::SeqAcks(port_id.copy(), channel_id.copy()))
    }

    /// The commitment of a packet in flight.
    pub fn get_packet_commitment(
        &self,
        port_id: &PortId,
        channel_id: &ChannelId,
        sequence: u64,
    ) -> (r: Result<Vec<u8>, ContextError>)
        requires
            self.wf(),
        ensures
            match r {
                Ok(c) => entry_at(self@.entries, commitment_path(port_id@, channel_id@, sequence))
                    == Some(StoredValue::Commitment(c@)),
                Err(e) => e == ContextError::PacketCommitmentNotFound && entry_at(
                    self@.entries,
                    commitment_path(port_id@, channel_id@, sequence),
                ) is None,
            },
    {
        match self.lookup(Path::Commitments(packet(port_id, channel_id, sequence))) {
            Some(StoreValue::Commitment(c)) => Ok(copy_bytes(c)),
            _ => Err(ContextError::PacketCommitmentNotFound),
        }
    }

    /// Whether a receipt of the packet is recorded.
    pub fn get_packet_receipt(&self, port_id: &PortId, channel_id: &ChannelId, sequence: u64) -> (r:
        Result<(), ContextError>)
        requires
            self.wf(),
        ensures
            r is Ok <==> entry_at(self@.entries, receipt_path(port_id@, channel_id@, sequence))
                == Some(StoredValue::Receipt),
            r matches Err(e) ==> e == ContextError::PacketReceiptNotFound && entry_at(
                self@.entries,
                receipt_path(port_id@, channel_id@, sequence),
            ) is None,
    {
        match self.lookup(Path::Receipts(packet(port_id, channel_id, sequence))) {
            Some(StoreValue::Receipt) => Ok(()),
            _ => Err(ContextError::PacketReceiptNotFound),
        }
    }

    /// The acknowledgement commitment of a received packet.
    pub fn get_packet_acknowledgement(
        &self,
        port_id: &PortId,
        channel_id: &ChannelId,
        sequence: u64,
    ) -> (r: Result<Vec<u8>, ContextError>)
        requires
            self.wf(),
        ensures
            match r {
                Ok(c) => entry_at(self@.entries, ack_path(port_id@, channel_id@, sequence))
                    == Some(StoredValue::Acknowledgement(c@)),
                Err(e) => e == ContextError::PacketAcknowledgementNotFound && entry_at(
                    self@.entries,
                    ack_path(port_id@, channel_id@, sequence),
                ) is None,
            },
    {
        match self.lookup(Path::Acks(packet(port_id, channel_id, sequence))) {
            Some(StoreValue::Acknowledgement(c)) => Ok(copy_bytes(c)),
            _ => Err(ContextError::PacketAcknowledgementNotFound),
        }
    }

    pub fn router(&self) -> (r: &IbcRouter)
        ensures
            r@ == self@.routes,
    {
        &self.router
    }

    /// Registers an application module with the router.
    pub fn add_route(&mut self, module_id: ModuleId) -> (r: bool)
        requires
            old(self).wf(),
        ensures
            final(self).wf(),
            r == !old(self)@.routes.contains(module_id@),
            final(self)@ == (HostModel {
                routes: if r {
                    old(self)@.routes.push(module_id@)
                } else {
                    old(self)@.routes
                },
                ..old(self)@
            }),
    {
        self.router.add_route(module_id)
    }
}

} // verus!
