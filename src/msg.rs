//! The message service: validates inbound client messages and applies the
//! resulting state transition to the host context.
use vstd::prelude::*;
use crate::context::{HostModel, IbcImpl, consensus_path};
use crate::decimal::{decimal, is_digit, lemma_decimal_canonical};
use crate::identifier::{ClientId, client_id_text, identifier_error};
use crate::path::{PathModel, path_text};
use crate::query::ServiceError;
use crate::store::{IbcStore, StoredValue};
use crate::types::Height;

verus! {

/// A request to register a light client of type `client_type`, with its
/// initial client state and the consensus state at `latest_height`.
pub struct MsgCreateClient {
    pub client_type: String,
    pub client_state: Vec<u8>,
    pub consensus_state: Vec<u8>,
    pub latest_height: Height,
}

/// The event emitted when a client is created.
pub struct CreateClientEvent {
    pub client_id: ClientId,
    pub client_type: String,
    pub consensus_height: Height,
}

/// The state after creating client `id` from `msg` in state `old`, at host
/// time `timestamp`.
pub open spec fn created_client(
    old: HostModel,
    id: Seq<char>,
    client_type: Seq<char>,
    client_state: Seq<u8>,
    consensus_state: Seq<u8>,
    height: Height,
    timestamp: u64,
) -> HostModel {
    HostModel {
        entries: old.entries.insert(
            path_text(PathModel::ClientType(id)),
            StoredValue::ClientType(client_type),
        ).insert(path_text(PathModel::ClientState(id)), StoredValue::ClientState(client_state)).insert(
            path_text(consensus_path(id, height)),
            StoredValue::ConsensusState(consensus_state),
        ),
        client_counter: (old.client_counter + 1) as u64,
        processed_times: old.processed_times.insert((id, height), timestamp),
        processed_heights: old.processed_heights.insert(
            (id, height),
            Height { revision_number: 0, revision_height: old.height },
        ),
        ..old
    }
}

/// Handles client messages against the host context it owns.
pub struct IbcClientMsgService<S: IbcStore> {
    ctx: IbcImpl<S>,
}

impl<S: IbcStore> View for IbcClientMsgService<S> {
    type V = HostModel;

    closed spec fn view(&self) -> HostModel {
        self.ctx@
    }
}

impl<S: IbcStore> IbcClientMsgService<S> {
    pub closed spec fn wf(&self) -> bool {
        self.ctx.wf()
    }

    pub fn new(ctx: IbcImpl<S>) -> (r: IbcClientMsgService<S>)
        requires
            ctx.wf(),
        ensures
            r.wf(),
            r@ == ctx@,
    {
        IbcClientMsgService { ctx }
    }

    /// The host context, for reading.
    pub fn context(&self) -> (r: &IbcImpl<S>)
        requires
            self.wf(),
        ensures
            r.wf(),
            r@ == self@,
    {
        &self.ctx
    }

    /// Creates a client: allocates the identifier `{client_type}-{counter}`,
    /// stores the client type, client state and consensus state, advances the
    /// client counter, records when and at which host height the client was
    /// processed, and returns the creation event. On failure nothing changes.
    pub fn create_client(&mut self, msg: MsgCreateClient, host_timestamp: u64) -> (r: Result<
        CreateClientEvent,
        ServiceError,
    >)
        requires
            old(self).wf(),
        ensures
            final(self).wf(),
            match r {
                Ok(ev) => identifier_error(
                    client_id_text(msg.client_type@, old(self)@.client_counter as nat),
                ) is None && old(self)@.client_counter < u64::MAX && ev.client_id@ == client_id_text(
                    msg.client_type@,
                    old(self)@.client_counter as nat,
                ) && ev.client_type@ == msg.client_type@ && ev.consensus_height == msg.latest_height
                    && final(self)@ == created_client(
                    old(self)@,
                    ev.client_id@,
                    msg.client_type@,
                    msg.client_state@,
                    msg.consensus_state@,
                    msg.latest_height,
                    host_timestamp,
                ),
                Err(e) => final(self)@ == old(self)@ && ((e == ServiceError::InvalidArgument
                    && identifier_error(
                    client_id_text(msg.client_type@, old(self)@.client_counter as nat),
                ) is Some) || (e == ServiceError::Internal && identifier_error(
                    client_id_text(msg.client_type@, old(self)@.client_counter as nat),
                ) is None && old(self)@.client_counter == u64::MAX)),
            },
    {
        let counter = self.ctx.client_counter();
        let client_id = match ClientId::new(msg.client_type.as_str(), counter) {
            Ok(id) => id,
            Err(_) => {
                return Err(ServiceError::InvalidArgument);
            },
        };
        if counter == u64::MAX {
            return Err(ServiceError::Internal);
        }
        let processed_height = self.ctx.host_height();
        let height = msg.latest_height;
        let client_type = msg.client_type.clone();
        self.ctx.store_client_type(&client_id, msg.client_type);
        self.ctx.store_client_state(&client_id, msg.client_state);
        self.ctx.store_consensus_state(&client_id, height, msg.consensus_state);
        let _ = self.ctx.increase_client_counter();
        self.ctx.store_update_time(&client_id, height, host_timestamp);
        self.ctx.store_update_height(&client_id, height, processed_height);
        Ok(CreateClientEvent { client_id, client_type, consensus_height: height })
    }

    /// Updating a client is not provided.
    pub fn update_client(&mut self) -> (r: Result<(), ServiceError>)
        ensures
            r == Err::<(), ServiceError>(ServiceError::NotImplemented),
            final(self)@ == old(self)@,
    {
        Err(ServiceError::NotImplemented)
    }

    /// Upgrading a client is not provided.
    pub fn upgrade_client(&mut self) -> (r: Result<(), ServiceError>)
        ensures
            r == Err::<(), ServiceError>(ServiceError::NotImplemented),
            final(self)@ == old(self)@,
    {
        Err(ServiceError::NotImplemented)
    }

    /// Submitting misbehaviour is not provided.
    pub fn submit_misbehaviour(&mut self) -> (r: Result<(), ServiceError>)
        ensures
            r == Err::<(), ServiceError>(ServiceError::NotImplemented),
            final(self)@ == old(self)@,
    {
        Err(ServiceError::NotImplemented)
    }
}

/// Client identifiers allocated at different counter values differ,
/// whatever their client types.
pub proof fn lemma_client_ids_distinct(type_a: Seq<char>, n: nat, type_b: Seq<char>, m: nat)
    requires
        n != m,
    ensures
        client_id_text(type_a, n) != client_id_text(type_b, m),
{
    let da = decimal(n);
    let db = decimal(m);
    let s = client_id_text(type_a, n);
    let t = client_id_text(type_b, m);
    lemma_decimal_canonical(n);
    lemma_decimal_canonical(m);
    if s == t {
        if da.len() == db.len() {
            assert(da =~= s.subrange(s.len() - da.len(), s.len() as int));
            assert(db =~= t.subrange(t.len() - db.len(), t.len() as int));
        } else if da.len() < db.len() {
            let p = s.len() - da.len() - 1;
            assert(s[p] == '-');
            assert(t[p] == db[p - (t.len() - db.len())]);
            assert(is_digit(db[p - (t.len() - db.len())]));
        } else {
            let p = t.len() - db.len() - 1;
            assert(t[p] == '-');
            assert(s[p] == da[p - (s.len() - da.len())]);
            assert(is_digit(da[p - (s.len() - da.len())]));
        }
    }
}

/// A creation raises the client counter by exactly one, so the identifier
/// that the next creation allocates differs from this one's.
pub proof fn lemma_successive_creations(
    before: HostModel,
    type_a: Seq<char>,
    client_state: Seq<u8>,
    consensus_state: Seq<u8>,
    height: Height,
    timestamp: u64,
    type_b: Seq<char>,
)
    requires
        before.client_counter < u64::MAX,
    ensures
        ({
            let first = client_id_text(type_a, before.client_counter as nat);
            let after = created_client(
                before,
                first,
                type_a,
                client_state,
                consensus_state,
                height,
                timestamp,
            );
            &&& after.client_counter == before.client_counter + 1
            &&& client_id_text(type_b, after.client_counter as nat) != first
        }),
{
    lemma_client_ids_distinct(
        type_b,
        (before.client_counter + 1) as nat,
        type_a,
        before.client_counter as nat,
    );
}

} // verus!
