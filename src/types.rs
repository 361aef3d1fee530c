//! Connection ends, channel ends and heights.
use vstd::prelude::*;
use crate::identifier::{ChannelId, ClientId, ConnectionId, PortId};

verus! {

/// A point in a chain's history.
#[derive(Debug, Clone, Copy, PartialEq, Eq, Structural)]
pub struct Height {
    pub revision_number: u64,
    pub revision_height: u64,
}

/// `a` comes strictly before `b`: by revision number, then by height.
pub open spec fn height_lt(a: Height, b: Height) -> bool {
    a.revision_number < b.revision_number || (a.revision_number == b.revision_number
        && a.revision_height < b.revision_height)
}

impl Height {
    pub fn new(revision_number: u64, revision_height: u64) -> (r: Height)
        ensures
            r.revision_number == revision_number,
            r.revision_height == revision_height,
    {
        Height { revision_number, revision_height }
    }

    /// Whether `self` comes strictly before `other`.
    pub fn lt(&self, other: &Height) -> (r: bool)
        ensures
            r == height_lt(*self, *other),
    {
        self.revision_number < other.revision_number || (self.revision_number
            == other.revision_number && self.revision_height < other.revision_height)
    }
}

/// Handshake state of a connection or channel end.
#[derive(Debug, Clone, Copy, PartialEq, Eq, Structural)]
pub enum State {
    Uninitialized,
    Init,
    TryOpen,
    Open,
    Closed,
}

/// Delivery order of a channel.
#[derive(Debug, Clone, Copy, PartialEq, Eq, Structural)]
pub enum Order {
    Unordered,
    Ordered,
}

pub open spec fn opt_id_view(o: Option<ConnectionId>) -> Option<Seq<char>> {
    match o {
        Some(c) => Some(c@),
        None => None,
    }
}

pub open spec fn opt_channel_view(o: Option<ChannelId>) -> Option<Seq<char>> {
    match o {
        Some(c) => Some(c@),
        None => None,
    }
}

pub open spec fn ids_view(v: Seq<ConnectionId>) -> Seq<Seq<char>> {
    v.map_values(|c: ConnectionId| c@)
}

pub ghost struct ConnectionEndModel {
    pub state: State,
    pub client_id: Seq<char>,
    pub counterparty_client_id: Seq<char>,
    pub counterparty_connection_id: Option<Seq<char>>,
    pub version: Seq<char>,
    pub delay_period: u64,
}

/// One side of a connection: its client, the counterparty's, and the
/// negotiated parameters.
pub struct ConnectionEnd {
    pub state: State,
    pub client_id: ClientId,
    pub counterparty_client_id: ClientId,
    pub counterparty_connection_id: Option<ConnectionId>,
    pub version: String,
    pub delay_period: u64,
}

impl View for ConnectionEnd {
    type V = ConnectionEndModel;

    open spec fn view(&self) -> ConnectionEndModel {
        ConnectionEndModel {
            state: self.state,
            client_id: self.client_id@,
            counterparty_client_id: self.counterparty_client_id@,
            counterparty_connection_id: opt_id_view(self.counterparty_connection_id),
            version: self.version@,
            delay_period: self.delay_period,
        }
    }
}

pub fn copy_connection_id_opt(o: &Option<ConnectionId>) -> (r: Option<ConnectionId>)
    ensures
        opt_id_view(r) == opt_id_view(*o),
{
    match o {
        Some(c) => Some(c.copy()),
        None => None,
    }
}

pub fn copy_connection_ids(v: &Vec<ConnectionId>) -> (r: Vec<ConnectionId>)
    ensures
        ids_view(r@) == ids_view(v@),
{
    let mut out: Vec<ConnectionId> = Vec::new();
    let mut i: usize = 0;
    while i < v.len()
        invariant
            i <= v@.len(),
            ids_view(out@) == ids_view(v@).subrange(0, i as int),
        decreases v@.len() - i,
    {
        let c = v[i].copy();
        let ghost prev = out@;
        out.push(c);
        assert(ids_view(out@) =~= ids_view(prev).push(c@));
        assert(ids_view(out@) =~= ids_view(v@).subrange(0, i + 1));
        i = i + 1;
    }
    assert(ids_view(v@).subrange(0, v@.len() as int) =~= ids_view(v@));
    out
}

impl ConnectionEnd {
    pub fn copy(&self) -> (r: ConnectionEnd)
        ensures
            r@ == self@,
    {
        ConnectionEnd {
            state: self.state,
            client_id: self.client_id.copy(),
            counterparty_client_id: self.counterparty_client_id.copy(),
            counterparty_connection_id: copy_connection_id_opt(&self.counterparty_connection_id),
            version: self.version.clone(),
            delay_period: self.delay_period,
        }
    }
}

pub ghost struct ChannelEndModel {
    pub state: State,
    pub ordering: Order,
    pub counterparty_port_id: Seq<char>,
    pub counterparty_channel_id: Option<Seq<char>>,
    pub connection_hops: Seq<Seq<char>>,
    pub version: Seq<char>,
}

/// One side of a channel: its counterparty and the connections it runs over.
pub struct ChannelEnd {
    pub state: State,
    pub ordering: Order,
    pub counterparty_port_id: PortId,
    pub counterparty_channel_id: Option<ChannelId>,
    pub connection_hops: Vec<ConnectionId>,
    pub version: String,
}

impl View for ChannelEnd {
    type V = ChannelEndModel;

    open spec fn view(&self) -> ChannelEndModel {
        ChannelEndModel {
            state: self.state,
            ordering: self.ordering,
            counterparty_port_id: self.counterparty_port_id@,
            counterparty_channel_id: opt_channel_view(self.counterparty_channel_id),
            connection_hops: ids_view(self.connection_hops@),
            version: self.version@,
        }
    }
}

impl ChannelEnd {
    pub fn copy(&self) -> (r: ChannelEnd)
        ensures
            r@ == self@,
    {
        let cp = match &self.counterparty_channel_id {
            Some(c) => Some(c.copy()),
            None => None,
        };
        ChannelEnd {
            state: self.state,
            ordering: self.ordering,
            counterparty_port_id: self.counterparty_port_id.copy(),
            counterparty_channel_id: cp,
            connection_hops: copy_connection_ids(&self.connection_hops),
            version: self.version.clone(),
        }
    }

    /// Whether the first connection hop of this channel is `conn`.
    pub fn first_hop_is(&self, conn: &ConnectionId) -> (r: bool)
        ensures
            r == (self@.connection_hops.len() > 0 && self@.connection_hops[0] == conn@),
    {
        if self.connection_hops.len() == 0 {
            false
        } else {
            self.connection_hops[0].id.equals(&conn.id)
        }
    }
}

} // verus!
