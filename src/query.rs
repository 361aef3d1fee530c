//! Read-only queries over the host context: clients, connections, channels
//! and packets.
use vstd::prelude::*;
use crate::context::{
    IbcImpl, entry_at, consensus_path, commitment_path, receipt_path, ack_path, connections_of,
    lemma_path_under_family,
};
use crate::identifier::{ChannelId, ClientId, ConnectionId, PortId, identifier_error, is_valid_identifier};
use crate::path::{Path, PathKind, PathModel, join_text, path_segments, path_text, path_valid, path_views};
use crate::segments::join;
use crate::store::{IbcStore, StoredValue, under_prefix};
use crate::types::{ChannelEnd, ChannelEndModel, ConnectionEnd, ConnectionEndModel, Height, ids_view};

verus! {

/// Why a query or message was refused.
#[derive(Debug, Clone, Copy, PartialEq, Eq, Structural)]
pub enum ServiceError {
    /// An identifier in the request is malformed.
    InvalidArgument,
    /// An entity that the request needs is absent.
    NotFound,
    /// The store failed to produce data that it lists.
    DataLoss,
    /// An internal limit was reached.
    Internal,
    /// The operation is declared but not provided.
    NotImplemented,
}

/// The height reported with query results: revision 0 at the store's height.
pub open spec fn reported_height(height: u64) -> Height {
    Height { revision_number: 0, revision_height: height }
}

pub ghost struct PacketStateModel {
    pub port_id: Seq<char>,
    pub channel_id: Seq<char>,
    pub sequence: u64,
    pub data: Seq<u8>,
}

/// A packet record of a channel: a commitment or an acknowledgement.
pub struct PacketState {
    pub port_id: PortId,
    pub channel_id: ChannelId,
    pub sequence: u64,
    pub data: Vec<u8>,
}

impl View for PacketState {
    type V = PacketStateModel;

    open spec fn view(&self) -> PacketStateModel {
        PacketStateModel {
            port_id: self.port_id@,
            channel_id: self.channel_id@,
            sequence: self.sequence,
            data: self.data@,
        }
    }
}

pub open spec fn packet_state_views(v: Seq<PacketState>) -> Seq<PacketStateModel> {
    v.map_values(|p: PacketState| p@)
}

pub struct QueryPacketCommitmentsResponse {
    pub commitments: Vec<PacketState>,
    pub height: Height,
}

pub struct QueryPacketAcknowledgementsResponse {
    pub acknowledgements: Vec<PacketState>,
    pub height: Height,
}

/// The path of a packet's commitment, or of its acknowledgement.
pub open spec fn packet_record_path(acks: bool, port: Seq<char>, channel: Seq<char>, sequence: u64) -> PathModel {
    if acks {
        ack_path(port, channel, sequence)
    } else {
        commitment_path(port, channel, sequence)
    }
}

pub open spec fn packet_record_value(acks: bool, data: Seq<u8>) -> StoredValue {
    if acks {
        StoredValue::Acknowledgement(data)
    } else {
        StoredValue::Commitment(data)
    }
}

/// A packet record with non-empty bytes `data` is stored; an empty one
/// counts as deleted.
pub open spec fn live_packet_record(
    entries: Map<Seq<char>, StoredValue>,
    acks: bool,
    port: Seq<char>,
    channel: Seq<char>,
    sequence: u64,
    data: Seq<u8>,
) -> bool {
    entry_at(entries, packet_record_path(acks, port, channel, sequence)) == Some(
        packet_record_value(acks, data),
    ) && data.len() > 0
}

/// `r` lists, each once, the live packet records of `(port, channel)`.
pub open spec fn packet_states_listed(
    entries: Map<Seq<char>, StoredValue>,
    acks: bool,
    port: Seq<char>,
    channel: Seq<char>,
    r: Seq<PacketStateModel>,
) -> bool {
    &&& r.no_duplicates()
    &&& forall|x: PacketStateModel|
        r.contains(x) <==> (x.port_id == port && x.channel_id == channel && live_packet_record(
            entries,
            acks,
            port,
            channel,
            x.sequence,
            x.data,
        ))
}

/// `r` lists, each once, the packets of `(port, channel)` still in flight.
pub open spec fn commitments_listed(
    entries: Map<Seq<char>, StoredValue>,
    port: Seq<char>,
    channel: Seq<char>,
    r: Seq<PacketStateModel>,
) -> bool {
    packet_states_listed(entries, false, port, channel, r)
}

/// `r` lists, each once, the live acknowledgements of `(port, channel)`.
pub open spec fn acknowledgements_listed(
    entries: Map<Seq<char>, StoredValue>,
    port: Seq<char>,
    channel: Seq<char>,
    r: Seq<PacketStateModel>,
) -> bool {
    packet_states_listed(entries, true, port, channel, r)
}

fn parse_port_channel(port_id: &str, channel_id: &str) -> (r: Result<(PortId, ChannelId), ServiceError>)
    ensures
        match r {
            Ok((p, c)) => p@ == port_id@ && c@ == channel_id@ && identifier_error(port_id@) is None
                && identifier_error(channel_id@) is None,
            Err(e) => e == ServiceError::InvalidArgument && (identifier_error(port_id@) is Some
                || identifier_error(channel_id@) is Some),
        },
{
    let port = match PortId::from_str(port_id) {
        Ok(p) => p,
        Err(_) => {
            return Err(ServiceError::InvalidArgument);
        },
    };
    let channel = match ChannelId::from_str(channel_id) {
        Ok(c) => c,
        Err(_) => {
            return Err(ServiceError::InvalidArgument);
        },
    };
    Ok((port, channel))
}

/// The sequence of `p`, when it is a record of the given family for
/// `(port, channel)`.
fn record_sequence(p: &Path, acks: bool, port: &PortId, channel: &ChannelId) -> (r: Option<u64>)
    ensures
        match r {
            Some(s) => p@ == packet_record_path(acks, port@, channel@, s),
            None => forall|s: u64| p@ != packet_record_path(acks, port@, channel@, s),
        },
{
    match p {
        Path::Commitments(pp) => {
            if !acks && pp.port_id.id.equals(&port.id) && pp.channel_id.id.equals(&channel.id) {
                Some(pp.sequence)
            } else {
                None
            }
        },
        Path::Acks(pp) => {
            if acks && pp.port_id.id.equals(&port.id) && pp.channel_id.id.equals(&channel.id) {
                Some(pp.sequence)
            } else {
                None
            }
        },
        _ => None,
    }
}

/// The bytes of a packet's commitment, or of its acknowledgement.
fn record_data<S: IbcStore>(
    ctx: &IbcImpl<S>,
    acks: bool,
    port: &PortId,
    channel: &ChannelId,
    sequence: u64,
) -> (r: Option<Vec<u8>>)
    requires
        ctx.wf(),
    ensures
        match r {
            Some(d) => entry_at(ctx@.entries, packet_record_path(acks, port@, channel@, sequence))
                == Some(packet_record_value(acks, d@)),
            None => forall|d: Seq<u8>|
                entry_at(ctx@.entries, packet_record_path(acks, port@, channel@, sequence)) != Some(
                    #[trigger] packet_record_value(acks, d),
                ),
        },
{
    if acks {
        match ctx.get_packet_acknowledgement(port, channel, sequence) {
            Ok(d) => Some(d),
            Err(_) => None,
        }
    } else {
        match ctx.get_packet_commitment(port, channel, sequence) {
            Ok(d) => Some(d),
            Err(_) => None,
        }
    }
}

/// The live packet records of `(port, channel)`.
fn packet_states<S: IbcStore>(ctx: &IbcImpl<S>, acks: bool, port: &PortId, channel: &ChannelId) -> (r:
    Vec<PacketState>)
    requires
        ctx.wf(),
        crate::identifier::is_valid_identifier(port@),
        crate::identifier::is_valid_identifier(channel@),
    ensures
        packet_states_listed(ctx@.entries, acks, port@, channel@, packet_state_views(r@)),
{
    let family = if acks {
        "acks"
    } else {
        "commitments"
    };
    let kind = if acks {
        PathKind::Acks
    } else {
        PathKind::Commitments
    };
    let mut rest: Vec<&str> = Vec::new();
    rest.push("ports");
    let prefix = join_text(family, &rest);
    proof {
        assert(seq![family@] + rest@.map_values(|x: &str| x@) =~= seq![family@, "ports"@]);
    }
    let paths = ctx.stored_paths(prefix.as_str(), kind);
    let ghost e = ctx@.entries;
    let ghost pv = port@;
    let ghost cv = channel@;
    let mut out: Vec<PacketState> = Vec::new();
    let mut i: usize = 0;
    while i < paths.len()
        invariant
            ctx.wf(),
            e == ctx@.entries,
            pv == port@,
            cv == channel@,
            i <= paths@.len(),
            forall|a: int, b: int| 0 <= a < b < paths@.len() ==> paths@[a]@ != paths@[b]@,
            packet_state_views(out@).no_duplicates(),
            forall|x: PacketStateModel|
                packet_state_views(out@).contains(x) <==> (x.port_id == pv && x.channel_id == cv
                    && live_packet_record(e, acks, pv, cv, x.sequence, x.data) && exists|a: int|
                    0 <= a < i && #[trigger] paths@[a]@ == packet_record_path(
                        acks,
                        pv,
                        cv,
                        x.sequence,
                    )),
        decreases paths@.len() - i,
    {
        let found = record_sequence(&paths[i], acks, port, channel);
        let ghost prev = packet_state_views(out@);
        match found {
            Some(sequence) => {
                let data = record_data(ctx, acks, port, channel, sequence);
                match data {
                    Some(d) => {
                        if d.len() > 0 {
                            let st = PacketState {
                                port_id: port.copy(),
                                channel_id: channel.copy(),
                                sequence,
                                data: d,
                            };
                            let ghost sv = st@;
                            out.push(st);
                            proof {
                                assert(packet_state_views(out@) =~= prev.push(sv));
                                assert(!prev.contains(sv)) by {
                                    if prev.contains(sv) {
                                        let a = choose|a: int|
                                            0 <= a < i && #[trigger] paths@[a]@ == packet_record_path(
                                                acks,
                                                pv,
                                                cv,
                                                sequence,
                                            );
                                    }
                                }
                                assert forall|x: PacketStateModel|
                                    packet_state_views(out@).contains(x) <==> (x.port_id == pv
                                        && x.channel_id == cv && live_packet_record(
                                        e,
                                        acks,
                                        pv,
                                        cv,
                                        x.sequence,
                                        x.data,
                                    ) && exists|a: int|
                                        0 <= a < i + 1 && #[trigger] paths@[a]@
                                            == packet_record_path(acks, pv, cv, x.sequence)) by {
                                    if packet_state_views(out@).contains(x) && x != sv {
                                        let a = choose|a: int|
                                            0 <= a < out@.len() && packet_state_views(out@)[a] == x;
                                        assert(prev[a] == x);
                                        assert(prev.contains(x));
                                    }
                                    if x.port_id == pv && x.channel_id == cv && live_packet_record(
                                        e,
                                        acks,
                                        pv,
                                        cv,
                                        x.sequence,
                                        x.data,
                                    ) && exists|a: int|
                                        0 <= a < i + 1 && #[trigger] paths@[a]@
                                            == packet_record_path(acks, pv, cv, x.sequence) {
                                        let a = choose|a: int|
                                            0 <= a < i + 1 && #[trigger] paths@[a]@
                                                == packet_record_path(acks, pv, cv, x.sequence);
                                        if a == i {
                                            assert(x.sequence == sequence);
                                            assert(packet_record_value(acks, x.data) == packet_record_value(acks, sv.data));
                                            assert(x.data == sv.data);
                                            assert(x == sv);
                                            assert(packet_state_views(out@)[prev.len() as int] == x);
                                        } else {
                                            assert(prev.contains(x));
                                            let c = choose|c: int| 0 <= c < prev.len() && prev[c] == x;
                                            assert(packet_state_views(out@)[c] == x);
                                        }
                                    }
                                }
                            }
                        } else {
                            proof {
                                assert forall|x: PacketStateModel|
                                    packet_state_views(out@).contains(x) <==> (x.port_id == pv
                                        && x.channel_id == cv && live_packet_record(
                                        e,
                                        acks,
                                        pv,
                                        cv,
                                        x.sequence,
                                        x.data,
                                    ) && exists|a: int|
                                        0 <= a < i + 1 && #[trigger] paths@[a]@
                                            == packet_record_path(acks, pv, cv, x.sequence)) by {
                                    if x.port_id == pv && x.channel_id == cv && live_packet_record(
                                        e,
                                        acks,
                                        pv,
                                        cv,
                                        x.sequence,
                                        x.data,
                                    ) && exists|a: int|
                                        0 <= a < i + 1 && #[trigger] paths@[a]@
                                            == packet_record_path(acks, pv, cv, x.sequence) {
                                        let a = choose|a: int|
                                            0 <= a < i + 1 && #[trigger] paths@[a]@
                                                == packet_record_path(acks, pv, cv, x.sequence);
                                        if a == i {
                                            assert(x.sequence == sequence);
                                        }
                                    }
                                }
                            }
                        }
                    },
                    None => {
                        proof {
                            assert forall|x: PacketStateModel|
                                packet_state_views(out@).contains(x) <==> (x.port_id == pv
                                    && x.channel_id == cv && live_packet_record(
                                    e,
                                    acks,
                                    pv,
                                    cv,
                                    x.sequence,
                                    x.data,
                                ) && exists|a: int|
                                    0 <= a < i + 1 && #[trigger] paths@[a]@
                                        == packet_record_path(acks, pv, cv, x.sequence)) by {
                                if x.port_id == pv && x.channel_id == cv && live_packet_record(
                                    e,
                                    acks,
                                    pv,
                                    cv,
                                    x.sequence,
                                    x.data,
                                ) && exists|a: int|
                                    0 <= a < i + 1 && #[trigger] paths@[a]@
                                        == packet_record_path(acks, pv, cv, x.sequence) {
                                    let a = choose|a: int|
                                        0 <= a < i + 1 && #[trigger] paths@[a]@
                                            == packet_record_path(acks, pv, cv, x.sequence);
                                    if a == i {
                                        assert(x.sequence == sequence);
                                        assert(entry_at(e, packet_record_path(acks, pv, cv, sequence)) != Some(packet_record_value(acks, x.data)));
                                    }
                                }
                            }
                        }
                    },
                }
            },
            None => {
                proof {
                    assert forall|x: PacketStateModel|
                        packet_state_views(out@).contains(x) <==> (x.port_id == pv && x.channel_id
                            == cv && live_packet_record(e, acks, pv, cv, x.sequence, x.data)
                            && exists|a: int|
                            0 <= a < i + 1 && #[trigger] paths@[a]@ == packet_record_path(
                                acks,
                                pv,
                                cv,
                                x.sequence,
                            )) by {
                        if x.port_id == pv && x.channel_id == cv && live_packet_record(
                            e,
                            acks,
                            pv,
                            cv,
                            x.sequence,
                            x.data,
                        ) && exists|a: int|
                            0 <= a < i + 1 && #[trigger] paths@[a]@ == packet_record_path(
                                acks,
                                pv,
                                cv,
                                x.sequence,
                            ) {
                            let a = choose|a: int|
                                0 <= a < i + 1 && #[trigger] paths@[a]@ == packet_record_path(
                                    acks,
                                    pv,
                                    cv,
                                    x.sequence,
                                );
                            if a == i {
                                assert(paths@[i as int]@ != packet_record_path(acks, pv, cv, x.sequence));
                            }
                        }
                    }
                }
            },
        }
        i = i + 1;
    }
    proof {
        assert forall|x: PacketStateModel|
            packet_state_views(out@).contains(x) <==> (x.port_id == pv && x.channel_id == cv
                && live_packet_record(e, acks, pv, cv, x.sequence, x.data)) by {
            if x.port_id == pv && x.channel_id == cv && live_packet_record(
                e,
                acks,
                pv,
                cv,
                x.sequence,
                x.data,
            ) {
                let q = packet_record_path(acks, pv, cv, x.sequence);
                lemma_path_under_family(q, 2);
                assert(path_segments(q).subrange(0, 2) =~= seq![family@, "ports"@]);
                assert(path_valid(q));
                assert(path_views(paths@).contains(q));
                let a = choose|a: int| 0 <= a < paths@.len() && path_views(paths@)[a] == q;
                assert(paths@[a]@ == q);
            }
        }
    }
    out
}

/// The packets of a channel that are still in flight, with the current
/// height.
pub fn packet_commitments<S: IbcStore>(ctx: &IbcImpl<S>, port_id: &str, channel_id: &str) -> (r:
    Result<QueryPacketCommitmentsResponse, ServiceError>)
    requires
        ctx.wf(),
    ensures
        match r {
            Ok(resp) => identifier_error(port_id@) is None && identifier_error(channel_id@) is None
                && resp.height == reported_height(ctx@.height) && commitments_listed(
                ctx@.entries,
                port_id@,
                channel_id@,
                packet_state_views(resp.commitments@),
            ),
            Err(e) => e == ServiceError::InvalidArgument && (identifier_error(port_id@) is Some
                || identifier_error(channel_id@) is Some),
        },
{
    let (port, channel) = parse_port_channel(port_id, channel_id)?;
    let commitments = packet_states(ctx, false, &port, &channel);
    Ok(QueryPacketCommitmentsResponse { commitments, height: ctx.host_height() })
}

/// The live acknowledgements of a channel, with the current height.
pub fn packet_acknowledgements<S: IbcStore>(
    ctx: &IbcImpl<S>,
    port_id: &str,
    channel_id: &str,
) -> (r: Result<QueryPacketAcknowledgementsResponse, ServiceError>)
    requires
        ctx.wf(),
    ensures
        match r {
            Ok(resp) => identifier_error(port_id@) is None && identifier_error(channel_id@) is None
                && resp.height == reported_height(ctx@.height) && acknowledgements_listed(
                ctx@.entries,
                port_id@,
                channel_id@,
                packet_state_views(resp.acknowledgements@),
            ),
            Err(e) => e == ServiceError::InvalidArgument && (identifier_error(port_id@) is Some
                || identifier_error(channel_id@) is Some),
        },
{
    let (port, channel) = parse_port_channel(port_id, channel_id)?;
    let acknowledgements = packet_states(ctx, true, &port, &channel);
    Ok(QueryPacketAcknowledgementsResponse { acknowledgements, height: ctx.host_height() })
}

pub ghost struct IdentifiedChannelModel {
    pub port_id: Seq<char>,
    pub channel_id: Seq<char>,
    pub channel_end: ChannelEndModel,
}

/// A channel end with the port and channel that identify it.
pub struct IdentifiedChannelEnd {
    pub port_id: PortId,
    pub channel_id: ChannelId,
    pub channel_end: ChannelEnd,
}

impl View for IdentifiedChannelEnd {
    type V = IdentifiedChannelModel;

    open spec fn view(&self) -> IdentifiedChannelModel {
        IdentifiedChannelModel {
            port_id: self.port_id@,
            channel_id: self.channel_id@,
            channel_end: self.channel_end@,
        }
    }
}

pub open spec fn channel_views(v: Seq<IdentifiedChannelEnd>) -> Seq<IdentifiedChannelModel> {
    v.map_values(|c: IdentifiedChannelEnd| c@)
}

pub struct QueryChannelsResponse {
    pub channels: Vec<IdentifiedChannelEnd>,
    pub height: Height,
}

pub struct QueryConnectionChannelsResponse {
    pub channels: Vec<IdentifiedChannelEnd>,
    pub height: Height,
}

/// The channel end runs over the connection `conn` first, when a
/// connection is given.
pub open spec fn hop_matches(end: ChannelEndModel, conn: Option<Seq<char>>) -> bool {
    match conn {
        Some(c) => end.connection_hops.len() > 0 && end.connection_hops[0] == c,
        None => true,
    }
}

/// `r` lists, each once, the stored channel ends whose first hop is `conn`
/// (all of them when `conn` is `None`).
pub open spec fn channels_listed(
    entries: Map<Seq<char>, StoredValue>,
    conn: Option<Seq<char>>,
    r: Seq<IdentifiedChannelModel>,
) -> bool {
    &&& r.no_duplicates()
    &&& forall|x: IdentifiedChannelModel|
        r.contains(x) <==> (is_valid_identifier(x.port_id) && is_valid_identifier(x.channel_id)
            && entry_at(entries, PathModel::ChannelEnds(x.port_id, x.channel_id)) == Some(
            StoredValue::Channel(x.channel_end),
        ) && hop_matches(x.channel_end, conn))
}

fn channel_path_ids(p: &Path) -> (r: Option<(PortId, ChannelId)>)
    ensures
        match r {
            Some((port, chan)) => p@ == PathModel::ChannelEnds(port@, chan@),
            None => !(p@ is ChannelEnds),
        },
{
    match p {
        Path::ChannelEnds(port, chan) => Some((port.copy(), chan.copy())),
        _ => None,
    }
}

fn matches_hop(end: &ChannelEnd, conn: Option<&ConnectionId>) -> (r: bool)
    ensures
        r == hop_matches(
            end@,
            match conn {
                Some(c) => Some(c@),
                None => None,
            },
        ),
{
    match conn {
        Some(c) => end.first_hop_is(c),
        None => true,
    }
}

/// The stored channel ends, or those whose first hop is `conn`.
fn identified_channels<S: IbcStore>(ctx: &IbcImpl<S>, conn: Option<&ConnectionId>) -> (r: Vec<
    IdentifiedChannelEnd,
>)
    requires
        ctx.wf(),
    ensures
        channels_listed(
            ctx@.entries,
            match conn {
                Some(c) => Some(c@),
                None => None,
            },
            channel_views(r@),
        ),
{
    let ghost cv: Option<Seq<char>> = match conn {
        Some(c) => Some(c@),
        None => None,
    };
    let mut rest: Vec<&str> = Vec::new();
    rest.push("ports");
    let prefix = join_text("channelEnds", &rest);
    proof {
        assert(seq!["channelEnds"@] + rest@.map_values(|x: &str| x@) =~= seq![
            "channelEnds"@,
            "ports"@,
        ]);
    }
    let paths = ctx.stored_paths(prefix.as_str(), PathKind::ChannelEnds);
    let ghost e = ctx@.entries;
    let mut out: Vec<IdentifiedChannelEnd> = Vec::new();
    let mut i: usize = 0;
    while i < paths.len()
        invariant
            ctx.wf(),
            e == ctx@.entries,
            cv == (match conn {
                Some(c) => Some(c@),
                None => None,
            }),
            i <= paths@.len(),
            forall|a: int, b: int| 0 <= a < b < paths@.len() ==> paths@[a]@ != paths@[b]@,
            forall|a: int| 0 <= a < paths@.len() ==> path_valid(#[trigger] paths@[a]@),
            channel_views(out@).no_duplicates(),
            forall|x: IdentifiedChannelModel|
                channel_views(out@).contains(x) <==> (entry_at(
                    e,
                    PathModel::ChannelEnds(x.port_id, x.channel_id),
                ) == Some(StoredValue::Channel(x.channel_end)) && hop_matches(x.channel_end, cv)
                    && exists|a: int|
                    0 <= a < i && #[trigger] paths@[a]@ == PathModel::ChannelEnds(
                        x.port_id,
                        x.channel_id,
                    )),
        decreases paths@.len() - i,
    {
        let ghost prev = channel_views(out@);
        match channel_path_ids(&paths[i]) {
            Some((port, chan)) => {
                match ctx.channel_end(&port, &chan) {
                    Ok(end) => {
                        if matches_hop(&end, conn) {
                            let item = IdentifiedChannelEnd {
                                port_id: port,
                                channel_id: chan,
                                channel_end: end,
                            };
                            let ghost iv = item@;
                            out.push(item);
                            proof {
                                assert(channel_views(out@) =~= prev.push(iv));
                                assert(!prev.contains(iv)) by {
                                    if prev.contains(iv) {
                                        let a = choose|a: int|
                                            0 <= a < i && #[trigger] paths@[a]@
                                                == PathModel::ChannelEnds(iv.port_id, iv.channel_id);
                                    }
                                }
                                assert forall|x: IdentifiedChannelModel|
                                    channel_views(out@).contains(x) <==> (entry_at(
                                        e,
                                        PathModel::ChannelEnds(x.port_id, x.channel_id),
                                    ) == Some(StoredValue::Channel(x.channel_end)) && hop_matches(
                                        x.channel_end,
                                        cv,
                                    ) && exists|a: int|
                                        0 <= a < i + 1 && #[trigger] paths@[a]@
                                            == PathModel::ChannelEnds(x.port_id, x.channel_id)) by {
                                    if channel_views(out@).contains(x) && x != iv {
                                        let a = choose|a: int|
                                            0 <= a < out@.len() && channel_views(out@)[a] == x;
                                        assert(prev[a] == x);
                                        assert(prev.contains(x));
                                    }
                                    if entry_at(e, PathModel::ChannelEnds(x.port_id, x.channel_id))
                                        == Some(StoredValue::Channel(x.channel_end)) && hop_matches(
                                        x.channel_end,
                                        cv,
                                    ) && exists|a: int|
                                        0 <= a < i + 1 && #[trigger] paths@[a]@
                                            == PathModel::ChannelEnds(x.port_id, x.channel_id) {
                                        let a = choose|a: int|
                                            0 <= a < i + 1 && #[trigger] paths@[a]@
                                                == PathModel::ChannelEnds(x.port_id, x.channel_id);
                                        if a == i {
                                            assert(x == iv);
                                            assert(channel_views(out@)[prev.len() as int] == x);
                                        } else {
                                            assert(prev.contains(x));
                                            let c = choose|c: int| 0 <= c < prev.len() && prev[c] == x;
                                            assert(channel_views(out@)[c] == x);
                                        }
                                    }
                                }
                            }
                        } else {
                            proof {
                                assert forall|x: IdentifiedChannelModel|
                                    channel_views(out@).contains(x) <==> (entry_at(
                                        e,
                                        PathModel::ChannelEnds(x.port_id, x.channel_id),
                                    ) == Some(StoredValue::Channel(x.channel_end)) && hop_matches(
                                        x.channel_end,
                                        cv,
                                    ) && exists|a: int|
                                        0 <= a < i + 1 && #[trigger] paths@[a]@
                                            == PathModel::ChannelEnds(x.port_id, x.channel_id)) by {
                                    if entry_at(e, PathModel::ChannelEnds(x.port_id, x.channel_id))
                                        == Some(StoredValue::Channel(x.channel_end)) && hop_matches(
                                        x.channel_end,
                                        cv,
                                    ) && exists|a: int|
                                        0 <= a < i + 1 && #[trigger] paths@[a]@
                                            == PathModel::ChannelEnds(x.port_id, x.channel_id) {
                                        let a = choose|a: int|
                                            0 <= a < i + 1 && #[trigger] paths@[a]@
                                                == PathModel::ChannelEnds(x.port_id, x.channel_id);
                                        if a == i {
                                            assert(x.channel_end == end@);
                                        }
                                    }
                                }
                            }
                        }
                    },
                    Err(_) => {
                        proof {
                            assert(path_views(paths@)[i as int] == paths@[i as int]@);
                            assert(path_views(paths@).contains(paths@[i as int]@));
                        }
                    },
                }
            },
            None => {
                proof {
                    assert forall|x: IdentifiedChannelModel|
                        channel_views(out@).contains(x) <==> (entry_at(
                            e,
                            PathModel::ChannelEnds(x.port_id, x.channel_id),
                        ) == Some(StoredValue::Channel(x.channel_end)) && hop_matches(
                            x.channel_end,
                            cv,
                        ) && exists|a: int|
                            0 <= a < i + 1 && #[trigger] paths@[a]@ == PathModel::ChannelEnds(
                                x.port_id,
                                x.channel_id,
                            )) by {
                        if exists|a: int|
                            0 <= a < i + 1 && #[trigger] paths@[a]@ == PathModel::ChannelEnds(
                                x.port_id,
                                x.channel_id,
                            ) {
                            let a = choose|a: int|
                                0 <= a < i + 1 && #[trigger] paths@[a]@ == PathModel::ChannelEnds(
                                    x.port_id,
                                    x.channel_id,
                                );
                        }
                    }
                }
            },
        }
        i = i + 1;
    }
    proof {
        assert forall|x: IdentifiedChannelModel|
            channel_views(out@).contains(x) <==> (is_valid_identifier(x.port_id)
                && is_valid_identifier(x.channel_id) && entry_at(
                e,
                PathModel::ChannelEnds(x.port_id, x.channel_id),
            ) == Some(StoredValue::Channel(x.channel_end)) && hop_matches(x.channel_end, cv)) by {
            if channel_views(out@).contains(x) {
                let a = choose|a: int|
                    0 <= a < i && #[trigger] paths@[a]@ == PathModel::ChannelEnds(
                        x.port_id,
                        x.channel_id,
                    );
                assert(path_valid(paths@[a]@));
            }
            if is_valid_identifier(x.port_id) && is_valid_identifier(x.channel_id) && entry_at(
                e,
                PathModel::ChannelEnds(x.port_id, x.channel_id),
            ) == Some(StoredValue::Channel(x.channel_end)) {
                let q = PathModel::ChannelEnds(x.port_id, x.channel_id);
                lemma_path_under_family(q, 2);
                assert(path_segments(q).subrange(0, 2) =~= seq!["channelEnds"@, "ports"@]);
                assert(path_valid(q));
                assert(under_prefix(path_text(q), prefix@));
                assert(e.contains_key(path_text(q)));
                assert(path_views(paths@).contains(q));
                let a = choose|a: int| 0 <= a < paths@.len() && path_views(paths@)[a] == q;
                assert(paths@[a]@ == q);
            }
        }
    }
    out
}

/// Every channel end of this chain, with the current height.
pub fn channels<S: IbcStore>(ctx: &IbcImpl<S>) -> (r: QueryChannelsResponse)
    requires
        ctx.wf(),
    ensures
        r.height == reported_height(ctx@.height),
        channels_listed(ctx@.entries, None, channel_views(r.channels@)),
{
    let channels = identified_channels(ctx, None);
    QueryChannelsResponse { channels, height: ctx.host_height() }
}

/// The channel ends whose first connection hop is `connection_id`, with
/// the current height.
pub fn connection_channels<S: IbcStore>(ctx: &IbcImpl<S>, connection_id: &str) -> (r: Result<
    QueryConnectionChannelsResponse,
    ServiceError,
>)
    requires
        ctx.wf(),
    ensures
        match r {
            Ok(resp) => identifier_error(connection_id@) is None && resp.height == reported_height(
                ctx@.height,
            ) && channels_listed(ctx@.entries, Some(connection_id@), channel_views(resp.channels@)),
            Err(e) => e == ServiceError::InvalidArgument && identifier_error(connection_id@) is Some,
        },
{
    let conn = match ConnectionId::from_str(connection_id) {
        Ok(c) => c,
        Err(_) => {
            return Err(ServiceError::InvalidArgument);
        },
    };
    let channels = identified_channels(ctx, Some(&conn));
    Ok(QueryConnectionChannelsResponse { channels, height: ctx.host_height() })
}

/// The channel end of `(port_id, channel_id)`, if stored.
pub fn channel<S: IbcStore>(ctx: &IbcImpl<S>, port_id: &str, channel_id: &str) -> (r: Result<
    Option<ChannelEnd>,
    ServiceError,
>)
    requires
        ctx.wf(),
    ensures
        match r {
            Ok(found) => identifier_error(port_id@) is None && identifier_error(channel_id@) is None
                && match found {
                Some(end) => entry_at(ctx@.entries, PathModel::ChannelEnds(port_id@, channel_id@))
                    == Some(StoredValue::Channel(end@)),
                None => entry_at(ctx@.entries, PathModel::ChannelEnds(port_id@, channel_id@)) is None,
            },
            Err(e) => e == ServiceError::InvalidArgument && (identifier_error(port_id@) is Some
                || identifier_error(channel_id@) is Some),
        },
{
    let (port, chan) = parse_port_channel(port_id, channel_id)?;
    match ctx.channel_end(&port, &chan) {
        Ok(end) => Ok(Some(end)),
        Err(_) => Ok(None),
    }
}

pub ghost struct IdentifiedClientStateModel {
    pub client_id: Seq<char>,
    pub client_state: Seq<u8>,
}

/// A client state with the client that it belongs to.
pub struct IdentifiedClientState {
    pub client_id: ClientId,
    pub client_state: Vec<u8>,
}

impl View for IdentifiedClientState {
    type V = IdentifiedClientStateModel;

    open spec fn view(&self) -> IdentifiedClientStateModel {
        IdentifiedClientStateModel { client_id: self.client_id@, client_state: self.client_state@ }
    }
}

pub open spec fn client_state_views(v: Seq<IdentifiedClientState>) -> Seq<IdentifiedClientStateModel> {
    v.map_values(|c: IdentifiedClientState| c@)
}

/// `r` lists, each once, every stored client state with its identifier.
pub open spec fn client_states_listed(entries: Map<Seq<char>, StoredValue>, r: Seq<IdentifiedClientStateModel>) -> bool {
    &&& r.no_duplicates()
    &&& forall|x: IdentifiedClientStateModel|
        r.contains(x) <==> (is_valid_identifier(x.client_id) && entry_at(
            entries,
            PathModel::ClientState(x.client_id),
        ) == Some(StoredValue::ClientState(x.client_state)))
}

fn client_state_path_id(p: &Path) -> (r: Option<ClientId>)
    ensures
        match r {
            Some(id) => p@ == PathModel::ClientState(id@),
            None => !(p@ is ClientState),
        },
{
    match p {
        Path::ClientState(id) => Some(id.copy()),
        _ => None,
    }
}

fn identified_client_states<S: IbcStore>(ctx: &IbcImpl<S>) -> (r: Vec<IdentifiedClientState>)
    requires
        ctx.wf(),
    ensures
        client_states_listed(ctx@.entries, client_state_views(r@)),
{
    let rest: Vec<&str> = Vec::new();
    let prefix = join_text("clients", &rest);
    proof {
        assert(seq!["clients"@] + rest@.map_values(|x: &str| x@) =~= seq!["clients"@]);
    }
    let paths = ctx.stored_paths(prefix.as_str(), PathKind::ClientState);
    let ghost e = ctx@.entries;
    let mut out: Vec<IdentifiedClientState> = Vec::new();
    let mut i: usize = 0;
    while i < paths.len()
        invariant
            ctx.wf(),
            e == ctx@.entries,
            i <= paths@.len(),
            forall|a: int, b: int| 0 <= a < b < paths@.len() ==> paths@[a]@ != paths@[b]@,
            forall|a: int| 0 <= a < paths@.len() ==> path_valid(#[trigger] paths@[a]@),
            client_state_views(out@).no_duplicates(),
            forall|x: IdentifiedClientStateModel|
                client_state_views(out@).contains(x) <==> (entry_at(e, PathModel::ClientState(x.client_id))
                    == Some(StoredValue::ClientState(x.client_state)) && exists|a: int|
                    0 <= a < i && #[trigger] paths@[a]@ == PathModel::ClientState(x.client_id)),
        decreases paths@.len() - i,
    {
        let ghost prev = client_state_views(out@);
        match client_state_path_id(&paths[i]) {
            Some(id) => {
                match ctx.client_state(&id) {
                    Ok(v) => {
                        let item = IdentifiedClientState { client_id: id, client_state: v };
                        let ghost iv = item@;
                        out.push(item);
                        proof {
                            assert(client_state_views(out@) =~= prev.push(iv));
                            assert(!prev.contains(iv)) by {
                                if prev.contains(iv) {
                                    let a = choose|a: int|
                                        0 <= a < i && #[trigger] paths@[a]@ == PathModel::ClientState(
                                            iv.client_id,
                                        );
                                }
                            }
                            assert forall|x: IdentifiedClientStateModel|
                                client_state_views(out@).contains(x) <==> (entry_at(
                                    e,
                                    PathModel::ClientState(x.client_id),
                                ) == Some(StoredValue::ClientState(x.client_state)) && exists|a: int|
                                    0 <= a < i + 1 && #[trigger] paths@[a]@ == PathModel::ClientState(
                                        x.client_id,
                                    )) by {
                                if client_state_views(out@).contains(x) && x != iv {
                                    let a = choose|a: int| 0 <= a < out@.len() && client_state_views(out@)[a] == x;
                                    assert(prev[a] == x);
                                    assert(prev.contains(x));
                                }
                                if entry_at(e, PathModel::ClientState(x.client_id)) == Some(
                                    StoredValue::ClientState(x.client_state),
                                ) && exists|a: int|
                                    0 <= a < i + 1 && #[trigger] paths@[a]@ == PathModel::ClientState(
                                        x.client_id,
                                    ) {
                                    let a = choose|a: int|
                                        0 <= a < i + 1 && #[trigger] paths@[a]@ == PathModel::ClientState(
                                            x.client_id,
                                        );
                                    if a == i {
                                        assert(x == iv);
                                        assert(client_state_views(out@)[prev.len() as int] == x);
                                    } else {
                                        assert(prev.contains(x));
                                        let c = choose|c: int| 0 <= c < prev.len() && prev[c] == x;
                                        assert(client_state_views(out@)[c] == x);
                                    }
                                }
                            }
                        }
                    },
                    Err(_) => {
                        proof {
                            assert(path_views(paths@)[i as int] == paths@[i as int]@);
                            assert(path_views(paths@).contains(paths@[i as int]@));
                        }
                    },
                }
            },
            None => {
                proof {
                    assert forall|x: IdentifiedClientStateModel|
                        client_state_views(out@).contains(x) <==> (entry_at(e, PathModel::ClientState(x.client_id))
                            == Some(StoredValue::ClientState(x.client_state)) && exists|a: int|
                            0 <= a < i + 1 && #[trigger] paths@[a]@ == PathModel::ClientState(
                                x.client_id,
                            )) by {
                        if exists|a: int|
                            0 <= a < i + 1 && #[trigger] paths@[a]@ == PathModel::ClientState(
                                x.client_id,
                            ) {
                            let a = choose|a: int|
                                0 <= a < i + 1 && #[trigger] paths@[a]@ == PathModel::ClientState(
                                    x.client_id,
                                );
                        }
                    }
                }
            },
        }
        i = i + 1;
    }
    proof {
        assert forall|x: IdentifiedClientStateModel|
            client_state_views(out@).contains(x) <==> (is_valid_identifier(x.client_id) && entry_at(
                e,
                PathModel::ClientState(x.client_id),
            ) == Some(StoredValue::ClientState(x.client_state))) by {
            if client_state_views(out@).contains(x) {
                let a = choose|a: int|
                    0 <= a < i && #[trigger] paths@[a]@ == PathModel::ClientState(x.client_id);
                assert(path_valid(paths@[a]@));
            }
            if is_valid_identifier(x.client_id) && entry_at(e, PathModel::ClientState(x.client_id)) == Some(
                StoredValue::ClientState(x.client_state),
            ) {
                let q = PathModel::ClientState(x.client_id);
                lemma_path_under_family(q, 1);
                assert(path_segments(q).subrange(0, 1) =~= seq!["clients"@]);
                assert(path_valid(q));
                assert(under_prefix(path_text(q), prefix@));
                assert(e.contains_key(path_text(q)));
                assert(path_views(paths@).contains(q));
                let a = choose|a: int| 0 <= a < paths@.len() && path_views(paths@)[a] == q;
                assert(paths@[a]@ == q);
            }
        }
    }
    out
}

pub ghost struct IdentifiedConnectionModel {
    pub connection_id: Seq<char>,
    pub connection_end: ConnectionEndModel,
}

/// A connection end with its identifier.
pub struct IdentifiedConnectionEnd {
    pub connection_id: ConnectionId,
    pub connection_end: ConnectionEnd,
}

impl View for IdentifiedConnectionEnd {
    type V = IdentifiedConnectionModel;

    open spec fn view(&self) -> IdentifiedConnectionModel {
        IdentifiedConnectionModel { connection_id: self.connection_id@, connection_end: self.connection_end@ }
    }
}

pub open spec fn connection_views(v: Seq<IdentifiedConnectionEnd>) -> Seq<IdentifiedConnectionModel> {
    v.map_values(|c: IdentifiedConnectionEnd| c@)
}

/// `r` lists, each once, every stored connection end with its identifier.
pub open spec fn connections_listed(entries: Map<Seq<char>, StoredValue>, r: Seq<IdentifiedConnectionModel>) -> bool {
    &&& r.no_duplicates()
    &&& forall|x: IdentifiedConnectionModel|
        r.contains(x) <==> (is_valid_identifier(x.connection_id) && entry_at(
            entries,
            PathModel::Connections(x.connection_id),
        ) == Some(StoredValue::Connection(x.connection_end)))
}

fn connection_path_id(p: &Path) -> (r: Option<ConnectionId>)
    ensures
        match r {
            Some(id) => p@ == PathModel::Connections(id@),
            None => !(p@ is Connections),
        },
{
    match p {
        Path::Connections(id) => Some(id.copy()),
        _ => None,
    }
}

fn identified_connections<S: IbcStore>(ctx: &IbcImpl<S>) -> (r: Vec<IdentifiedConnectionEnd>)
    requires
        ctx.wf(),
    ensures
        connections_listed(ctx@.entries, connection_views(r@)),
{
    let rest: Vec<&str> = Vec::new();
    let prefix = join_text("connections", &rest);
    proof {
        assert(seq!["connections"@] + rest@.map_values(|x: &str| x@) =~= seq!["connections"@]);
    }
    let paths = ctx.stored_paths(prefix.as_str(), PathKind::Connections);
    let ghost e = ctx@.entries;
    let mut out: Vec<IdentifiedConnectionEnd> = Vec::new();
    let mut i: usize = 0;
    while i < paths.len()
        invariant
            ctx.wf(),
            e == ctx@.entries,
            i <= paths@.len(),
            forall|a: int, b: int| 0 <= a < b < paths@.len() ==> paths@[a]@ != paths@[b]@,
            forall|a: int| 0 <= a < paths@.len() ==> path_valid(#[trigger] paths@[a]@),
            connection_views(out@).no_duplicates(),
            forall|x: IdentifiedConnectionModel|
                connection_views(out@).contains(x) <==> (entry_at(e, PathModel::Connections(x.connection_id))
                    == Some(StoredValue::Connection(x.connection_end)) && exists|a: int|
                    0 <= a < i && #[trigger] paths@[a]@ == PathModel::Connections(x.connection_id)),
        decreases paths@.len() - i,
    {
        let ghost prev = connection_views(out@);
        match connection_path_id(&paths[i]) {
            Some(id) => {
                match ctx.connection_end(&id) {
                    Ok(v) => {
                        let item = IdentifiedConnectionEnd { connection_id: id, connection_end: v };
                        let ghost iv = item@;
                        out.push(item);
                        proof {
                            assert(connection_views(out@) =~= prev.push(iv));
                            assert(!prev.contains(iv)) by {
                                if prev.contains(iv) {
                                    let a = choose|a: int|
                                        0 <= a < i && #[trigger] paths@[a]@ == PathModel::Connections(
                                            iv.connection_id,
                                        );
                                }
                            }
                            assert forall|x: IdentifiedConnectionModel|
                                connection_views(out@).contains(x) <==> (entry_at(
                                    e,
                                    PathModel::Connections(x.connection_id),
                                ) == Some(StoredValue::Connection(x.connection_end)) && exists|a: int|
                                    0 <= a < i + 1 && #[trigger] paths@[a]@ == PathModel::Connections(
                                        x.connection_id,
                                    )) by {
                                if connection_views(out@).contains(x) && x != iv {
                                    let a = choose|a: int| 0 <= a < out@.len() && connection_views(out@)[a] == x;
                                    assert(prev[a] == x);
                                    assert(prev.contains(x));
                                }
                                if entry_at(e, PathModel::Connections(x.connection_id)) == Some(
                                    StoredValue::Connection(x.connection_end),
                                ) && exists|a: int|
                                    0 <= a < i + 1 && #[trigger] paths@[a]@ == PathModel::Connections(
                                        x.connection_id,
                                    ) {
                                    let a = choose|a: int|
                                        0 <= a < i + 1 && #[trigger] paths@[a]@ == PathModel::Connections(
                                            x.connection_id,
                                        );
                                    if a == i {
                                        assert(x == iv);
                                        assert(connection_views(out@)[prev.len() as int] == x);
                                    } else {
                                        assert(prev.contains(x));
                                        let c = choose|c: int| 0 <= c < prev.len() && prev[c] == x;
                                        assert(connection_views(out@)[c] == x);
                                    }
                                }
                            }
                        }
                    },
                    Err(_) => {
                        proof {
                            assert(path_views(paths@)[i as int] == paths@[i as int]@);
                            assert(path_views(paths@).contains(paths@[i as int]@));
                        }
                    },
                }
            },
            None => {
                proof {
                    assert forall|x: IdentifiedConnectionModel|
                        connection_views(out@).contains(x) <==> (entry_at(e, PathModel::Connections(x.connection_id))
                            == Some(StoredValue::Connection(x.connection_end)) && exists|a: int|
                            0 <= a < i + 1 && #[trigger] paths@[a]@ == PathModel::Connections(
                                x.connection_id,
                            )) by {
                        if exists|a: int|
                            0 <= a < i + 1 && #[trigger] paths@[a]@ == PathModel::Connections(
                                x.connection_id,
                            ) {
                            let a = choose|a: int|
                                0 <= a < i + 1 && #[trigger] paths@[a]@ == PathModel::Connections(
                                    x.connection_id,
                                );
                        }
                    }
                }
            },
        }
        i = i + 1;
    }
    proof {
        assert forall|x: IdentifiedConnectionModel|
            connection_views(out@).contains(x) <==> (is_valid_identifier(x.connection_id) && entry_at(
                e,
                PathModel::Connections(x.connection_id),
            ) == Some(StoredValue::Connection(x.connection_end))) by {
            if connection_views(out@).contains(x) {
                let a = choose|a: int|
                    0 <= a < i && #[trigger] paths@[a]@ == PathModel::Connections(x.connection_id);
                assert(path_valid(paths@[a]@));
            }
            if is_valid_identifier(x.connection_id) && entry_at(e, PathModel::Connections(x.connection_id)) == Some(
                StoredValue::Connection(x.connection_end),
            ) {
                let q = PathModel::Connections(x.connection_id);
                lemma_path_under_family(q, 1);
                assert(path_segments(q).subrange(0, 1) =~= seq!["connections"@]);
                assert(path_valid(q));
                assert(under_prefix(path_text(q), prefix@));
                assert(e.contains_key(path_text(q)));
                assert(path_views(paths@).contains(q));
                let a = choose|a: int| 0 <= a < paths@.len() && path_views(paths@)[a] == q;
                assert(paths@[a]@ == q);
            }
        }
    }
    out
}

pub struct QueryClientStatesResponse {
    pub client_states: Vec<IdentifiedClientState>,
}

/// Every client state of this chain.
pub fn client_states<S: IbcStore>(ctx: &IbcImpl<S>) -> (r: QueryClientStatesResponse)
    requires
        ctx.wf(),
    ensures
        client_states_listed(ctx@.entries, client_state_views(r.client_states@)),
{
    QueryClientStatesResponse { client_states: identified_client_states(ctx) }
}

pub struct QueryConnectionsResponse {
    pub connections: Vec<IdentifiedConnectionEnd>,
}

/// Every connection end of this chain.
pub fn connections<S: IbcStore>(ctx: &IbcImpl<S>) -> (r: QueryConnectionsResponse)
    requires
        ctx.wf(),
    ensures
        connections_listed(ctx@.entries, connection_views(r.connections@)),
{
    QueryConnectionsResponse { connections: identified_connections(ctx) }
}

/// The connection end of `connection_id`, if stored.
pub fn connection<S: IbcStore>(ctx: &IbcImpl<S>, connection_id: &str) -> (r: Result<
    Option<ConnectionEnd>,
    ServiceError,
>)
    requires
        ctx.wf(),
    ensures
        match r {
            Ok(found) => identifier_error(connection_id@) is None && match found {
                Some(end) => entry_at(ctx@.entries, PathModel::Connections(connection_id@)) == Some(
                    StoredValue::Connection(end@),
                ),
                None => entry_at(ctx@.entries, PathModel::Connections(connection_id@)) is None,
            },
            Err(e) => e == ServiceError::InvalidArgument && identifier_error(connection_id@) is Some,
        },
{
    let conn = match ConnectionId::from_str(connection_id) {
        Ok(c) => c,
        Err(_) => {
            return Err(ServiceError::InvalidArgument);
        },
    };
    match ctx.connection_end(&conn) {
        Ok(end) => Ok(Some(end)),
        Err(_) => Ok(None),
    }
}

/// The connections recorded for `client_id`; none when nothing is recorded.
pub fn client_connections<S: IbcStore>(ctx: &IbcImpl<S>, client_id: &str) -> (r: Result<
    Vec<ConnectionId>,
    ServiceError,
>)
    requires
        ctx.wf(),
    ensures
        match r {
            Ok(ids) => identifier_error(client_id@) is None && ids_view(ids@) == connections_of(
                ctx@.entries,
                client_id@,
            ),
            Err(e) => e == ServiceError::InvalidArgument && identifier_error(client_id@) is Some,
        },
{
    let client = match ClientId::from_str(client_id) {
        Ok(c) => c,
        Err(_) => {
            return Err(ServiceError::InvalidArgument);
        },
    };
    Ok(ctx.client_connections(&client))
}

pub ghost struct ConsensusStateWithHeightModel {
    pub height: Height,
    pub consensus_state: Seq<u8>,
}

/// A consensus state with the height at which it was recorded.
pub struct ConsensusStateWithHeight {
    pub height: Height,
    pub consensus_state: Vec<u8>,
}

impl View for ConsensusStateWithHeight {
    type V = ConsensusStateWithHeightModel;

    open spec fn view(&self) -> ConsensusStateWithHeightModel {
        ConsensusStateWithHeightModel { height: self.height, consensus_state: self.consensus_state@ }
    }
}

pub open spec fn consensus_state_views(v: Seq<ConsensusStateWithHeight>) -> Seq<
    ConsensusStateWithHeightModel,
> {
    v.map_values(|c: ConsensusStateWithHeight| c@)
}

/// `r` lists, each once, the consensus states recorded by `client`.
pub open spec fn consensus_states_listed(
    entries: Map<Seq<char>, StoredValue>,
    client: Seq<char>,
    r: Seq<ConsensusStateWithHeightModel>,
) -> bool {
    &&& r.no_duplicates()
    &&& forall|x: ConsensusStateWithHeightModel|
        r.contains(x) <==> entry_at(entries, consensus_path(client, x.height)) == Some(
            StoredValue::ConsensusState(x.consensus_state),
        )
}

pub struct QueryConsensusStatesResponse {
    pub consensus_states: Vec<ConsensusStateWithHeight>,
}

/// Every consensus state that `client_id` recorded, with its height.
pub fn consensus_states<S: IbcStore>(ctx: &IbcImpl<S>, client_id: &str) -> (r: Result<
    QueryConsensusStatesResponse,
    ServiceError,
>)
    requires
        ctx.wf(),
    ensures
        match r {
            Ok(resp) => identifier_error(client_id@) is None && consensus_states_listed(
                ctx@.entries,
                client_id@,
                consensus_state_views(resp.consensus_states@),
            ),
            Err(e) => e == ServiceError::InvalidArgument && identifier_error(client_id@) is Some,
        },
{
    let client = match ClientId::from_str(client_id) {
        Ok(c) => c,
        Err(_) => {
            return Err(ServiceError::InvalidArgument);
        },
    };
    let hs = ctx.consensus_heights(&client);
    let ghost e = ctx@.entries;
    let ghost c = client@;
    let mut out: Vec<ConsensusStateWithHeight> = Vec::new();
    let mut i: usize = 0;
    while i < hs.len()
        invariant
            ctx.wf(),
            e == ctx@.entries,
            c == client@,
            i <= hs@.len(),
            forall|a: int, b: int| 0 <= a < b < hs@.len() ==> hs@[a] != hs@[b],
            forall|h: Height| hs@.contains(h) <==> entry_at(e, consensus_path(c, h)) is Some,
            consensus_state_views(out@).no_duplicates(),
            forall|x: ConsensusStateWithHeightModel|
                consensus_state_views(out@).contains(x) <==> (entry_at(e, consensus_path(c, x.height))
                    == Some(StoredValue::ConsensusState(x.consensus_state)) && exists|a: int|
                    0 <= a < i && #[trigger] hs@[a] == x.height),
        decreases hs@.len() - i,
    {
        let h = hs[i];
        let ghost prev = consensus_state_views(out@);
        proof {
            assert(hs@.contains(h));
        }
        match ctx.consensus_state(&client, h) {
            Ok(cs) => {
                let item = ConsensusStateWithHeight { height: h, consensus_state: cs };
                let ghost iv = item@;
                out.push(item);
                proof {
                    assert(consensus_state_views(out@) =~= prev.push(iv));
                    assert(!prev.contains(iv)) by {
                        if prev.contains(iv) {
                            let a = choose|a: int| 0 <= a < i && #[trigger] hs@[a] == iv.height;
                        }
                    }
                    assert forall|x: ConsensusStateWithHeightModel|
                        consensus_state_views(out@).contains(x) <==> (entry_at(
                            e,
                            consensus_path(c, x.height),
                        ) == Some(StoredValue::ConsensusState(x.consensus_state)) && exists|a: int|
                            0 <= a < i + 1 && #[trigger] hs@[a] == x.height) by {
                        if consensus_state_views(out@).contains(x) && x != iv {
                            let a = choose|a: int|
                                0 <= a < out@.len() && consensus_state_views(out@)[a] == x;
                            assert(prev[a] == x);
                            assert(prev.contains(x));
                        }
                        if entry_at(e, consensus_path(c, x.height)) == Some(
                            StoredValue::ConsensusState(x.consensus_state),
                        ) && exists|a: int| 0 <= a < i + 1 && #[trigger] hs@[a] == x.height {
                            let a = choose|a: int| 0 <= a < i + 1 && #[trigger] hs@[a] == x.height;
                            if a == i {
                                assert(x == iv);
                                assert(consensus_state_views(out@)[prev.len() as int] == x);
                            } else {
                                assert(prev.contains(x));
                                let k = choose|k: int| 0 <= k < prev.len() && prev[k] == x;
                                assert(consensus_state_views(out@)[k] == x);
                            }
                        }
                    }
                }
            },
            Err(_) => {},
        }
        i = i + 1;
    }
    proof {
        assert forall|x: ConsensusStateWithHeightModel|
            consensus_state_views(out@).contains(x) <==> entry_at(e, consensus_path(c, x.height))
                == Some(StoredValue::ConsensusState(x.consensus_state)) by {
            if entry_at(e, consensus_path(c, x.height)) == Some(
                StoredValue::ConsensusState(x.consensus_state),
            ) {
                assert(hs@.contains(x.height));
                let a = choose|a: int| 0 <= a < hs@.len() && hs@[a] == x.height;
            }
        }
    }
    Ok(QueryConsensusStatesResponse { consensus_states: out })
}

/// A receipt of packet `sequence` of `(port, channel)` is recorded.
pub open spec fn receipt_recorded(
    entries: Map<Seq<char>, StoredValue>,
    port: Seq<char>,
    channel: Seq<char>,
    sequence: u64,
) -> bool {
    entry_at(entries, receipt_path(port, channel, sequence)) is Some
}

/// Packet `sequence` of `(port, channel)` has a non-empty commitment: it was
/// sent and its acknowledgement has not come back.
pub open spec fn commitment_pending(
    entries: Map<Seq<char>, StoredValue>,
    port: Seq<char>,
    channel: Seq<char>,
    sequence: u64,
) -> bool {
    match entry_at(entries, commitment_path(port, channel, sequence)) {
        Some(StoredValue::Commitment(d)) => d.len() > 0,
        _ => false,
    }
}

/// The sequences, in the order given, of packets not yet received.
pub open spec fn unreceived_packets_of(
    entries: Map<Seq<char>, StoredValue>,
    port: Seq<char>,
    channel: Seq<char>,
    sequences: Seq<u64>,
) -> Seq<u64> {
    sequences.filter(|s: u64| !receipt_recorded(entries, port, channel, s))
}

/// The sequences, in the order given, of packets whose acknowledgement has
/// not been received.
pub open spec fn unreceived_acks_of(
    entries: Map<Seq<char>, StoredValue>,
    port: Seq<char>,
    channel: Seq<char>,
    sequences: Seq<u64>,
) -> Seq<u64> {
    sequences.filter(|s: u64| commitment_pending(entries, port, channel, s))
}

pub struct QueryUnreceivedResponse {
    pub sequences: Vec<u64>,
    pub height: Height,
}

fn filter_sequences<S: IbcStore>(
    ctx: &IbcImpl<S>,
    acks: bool,
    port: &PortId,
    channel: &ChannelId,
    sequences: &Vec<u64>,
) -> (r: Vec<u64>)
    requires
        ctx.wf(),
    ensures
        r@ == (if acks {
            unreceived_acks_of(ctx@.entries, port@, channel@, sequences@)
        } else {
            unreceived_packets_of(ctx@.entries, port@, channel@, sequences@)
        }),
{
    let ghost e = ctx@.entries;
    let ghost pred = if acks {
        |s: u64| commitment_pending(e, port@, channel@, s)
    } else {
        |s: u64| !receipt_recorded(e, port@, channel@, s)
    };
    let mut out: Vec<u64> = Vec::new();
    let mut i: usize = 0;
    proof {
        reveal(Seq::filter);
        assert(sequences@.subrange(0, 0) =~= Seq::<u64>::empty());
    }
    while i < sequences.len()
        invariant
            ctx.wf(),
            e == ctx@.entries,
            i <= sequences@.len(),
            pred == (if acks {
                |s: u64| commitment_pending(e, port@, channel@, s)
            } else {
                |s: u64| !receipt_recorded(e, port@, channel@, s)
            }),
            out@ == sequences@.subrange(0, i as int).filter(pred),
        decreases sequences@.len() - i,
    {
        let s = sequences[i];
        let keep = if acks {
            match ctx.get_packet_commitment(port, channel, s) {
                Ok(d) => d.len() > 0,
                Err(_) => false,
            }
        } else {
            ctx.get_packet_receipt(port, channel, s).is_err()
        };
        assert(keep == pred(s));
        proof {
            reveal(Seq::filter);
            let next = sequences@.subrange(0, i + 1);
            assert(next.drop_last() =~= sequences@.subrange(0, i as int));
            assert(next.last() == s);
        }
        if keep {
            out.push(s);
        }
        i = i + 1;
    }
    proof {
        assert(sequences@.subrange(0, sequences@.len() as int) =~= sequences@);
    }
    out
}

/// Of `sequences`, those of packets that `(port_id, channel_id)` has not
/// received, with the current height.
pub fn unreceived_packets<S: IbcStore>(
    ctx: &IbcImpl<S>,
    port_id: &str,
    channel_id: &str,
    sequences: Vec<u64>,
) -> (r: Result<QueryUnreceivedResponse, ServiceError>)
    requires
        ctx.wf(),
    ensures
        match r {
            Ok(resp) => identifier_error(port_id@) is None && identifier_error(channel_id@) is None
                && resp.height == reported_height(ctx@.height) && resp.sequences@
                == unreceived_packets_of(ctx@.entries, port_id@, channel_id@, sequences@),
            Err(e) => e == ServiceError::InvalidArgument && (identifier_error(port_id@) is Some
                || identifier_error(channel_id@) is Some),
        },
{
    let (port, channel) = parse_port_channel(port_id, channel_id)?;
    let unreceived = filter_sequences(ctx, false, &port, &channel, &sequences);
    Ok(QueryUnreceivedResponse { sequences: unreceived, height: ctx.host_height() })
}

/// Of `sequences`, those of packets sent on `(port_id, channel_id)` whose
/// acknowledgement has not come back, with the current height.
pub fn unreceived_acks<S: IbcStore>(
    ctx: &IbcImpl<S>,
    port_id: &str,
    channel_id: &str,
    sequences: Vec<u64>,
) -> (r: Result<QueryUnreceivedResponse, ServiceError>)
    requires
        ctx.wf(),
    ensures
        match r {
            Ok(resp) => identifier_error(port_id@) is None && identifier_error(channel_id@) is None
                && resp.height == reported_height(ctx@.height) && resp.sequences@
                == unreceived_acks_of(ctx@.entries, port_id@, channel_id@, sequences@),
            Err(e) => e == ServiceError::InvalidArgument && (identifier_error(port_id@) is Some
                || identifier_error(channel_id@) is Some),
        },
{
    let (port, channel) = parse_port_channel(port_id, channel_id)?;
    let unreceived = filter_sequences(ctx, true, &port, &channel, &sequences);
    Ok(QueryUnreceivedResponse { sequences: unreceived, height: ctx.host_height() })
}

proof fn lemma_filter_single(s: u64, pred: spec_fn(u64) -> bool)
    ensures
        seq![s].filter(pred) == (if pred(s) {
            seq![s]
        } else {
            Seq::<u64>::empty()
        }),
{
    reveal(Seq::filter);
    assert(seq![s].drop_last() =~= Seq::<u64>::empty());
    assert(Seq::<u64>::empty().filter(pred) =~= Seq::<u64>::empty());
    assert(Seq::<u64>::empty().push(s) =~= seq![s]);
}

/// Once a packet's commitment is stored with non-empty bytes, the packet is
/// reported as awaiting its acknowledgement; once the commitment is deleted,
/// it is not.
pub proof fn lemma_unreceived_ack_lifecycle(
    entries: Map<Seq<char>, StoredValue>,
    port: Seq<char>,
    channel: Seq<char>,
    sequence: u64,
    data: Seq<u8>,
)
    requires
        data.len() > 0,
    ensures
        unreceived_acks_of(
            entries.insert(
                path_text(commitment_path(port, channel, sequence)),
                StoredValue::Commitment(data),
            ),
            port,
            channel,
            seq![sequence],
        ) == seq![sequence],
        unreceived_acks_of(
            entries.remove(path_text(commitment_path(port, channel, sequence))),
            port,
            channel,
            seq![sequence],
        ) == Seq::<u64>::empty(),
{
    let key = path_text(commitment_path(port, channel, sequence));
    let sent = entries.insert(key, StoredValue::Commitment(data));
    let acked = entries.remove(key);
    lemma_filter_single(sequence, |s: u64| commitment_pending(sent, port, channel, s));
    lemma_filter_single(sequence, |s: u64| commitment_pending(acked, port, channel, s));
}

/// Before a packet's receipt is recorded the packet is reported as not
/// received; after, it is not; and recording the receipt again leaves the
/// store as it was.
pub proof fn lemma_unreceived_packet_lifecycle(
    entries: Map<Seq<char>, StoredValue>,
    port: Seq<char>,
    channel: Seq<char>,
    sequence: u64,
)
    requires
        !receipt_recorded(entries, port, channel, sequence),
    ensures
        unreceived_packets_of(entries, port, channel, seq![sequence]) == seq![sequence],
        unreceived_packets_of(
            entries.insert(path_text(receipt_path(port, channel, sequence)), StoredValue::Receipt),
            port,
            channel,
            seq![sequence],
        ) == Seq::<u64>::empty(),
        entries.insert(
            path_text(receipt_path(port, channel, sequence)),
            StoredValue::Receipt,
        ).insert(path_text(receipt_path(port, channel, sequence)), StoredValue::Receipt)
            == entries.insert(path_text(receipt_path(port, channel, sequence)), StoredValue::Receipt),
{
    let key = path_text(receipt_path(port, channel, sequence));
    let received = entries.insert(key, StoredValue::Receipt);
    lemma_filter_single(sequence, |s: u64| !receipt_recorded(entries, port, channel, s));
    lemma_filter_single(sequence, |s: u64| !receipt_recorded(received, port, channel, s));
    assert(received.insert(key, StoredValue::Receipt) =~= received);
}

/// Two listings of the in-flight packets of a channel over the same store
/// hold the same records.
pub proof fn lemma_packet_commitments_stable(
    entries: Map<Seq<char>, StoredValue>,
    port: Seq<char>,
    channel: Seq<char>,
    first: Seq<PacketStateModel>,
    second: Seq<PacketStateModel>,
)
    requires
        commitments_listed(entries, port, channel, first),
        commitments_listed(entries, port, channel, second),
    ensures
        first.to_set() == second.to_set(),
        first.len() == second.len(),
{
    assert(first.to_set() =~= second.to_set());
    first.unique_seq_to_set();
    second.unique_seq_to_set();
}

} // verus!
