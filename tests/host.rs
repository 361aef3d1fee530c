use core_ibc::context::{ContextError, IbcImpl};
use core_ibc::identifier::{ChannelId, ClientId, ConnectionId, ModuleId, PortId};
use core_ibc::msg::{IbcClientMsgService, MsgCreateClient};
use core_ibc::query::{self, ServiceError};
use core_ibc::router::IbcRouter;
use core_ibc::store::{IbcStore, MemStore, StoreValue};
use core_ibc::types::{ChannelEnd, ConnectionEnd, Height, Order, State};

fn host(height: u64) -> IbcImpl<MemStore> {
    IbcImpl::new(MemStore::new(height), IbcRouter::new()).unwrap()
}

fn port(s: &str) -> PortId {
    PortId::from_str(s).unwrap()
}

fn chan(s: &str) -> ChannelId {
    ChannelId::from_str(s).unwrap()
}

fn conn(s: &str) -> ConnectionId {
    ConnectionId::from_str(s).unwrap()
}

fn client(s: &str) -> ClientId {
    ClientId::from_str(s).unwrap()
}

fn channel_end(hop: &str) -> ChannelEnd {
    ChannelEnd {
        state: State::Open,
        ordering: Order::Unordered,
        counterparty_port_id: port("transfer"),
        counterparty_channel_id: Some(chan("channel-9")),
        connection_hops: vec![conn(hop)],
        version: "ics20-1".to_string(),
    }
}

fn msg(client_type: &str, h: u64) -> MsgCreateClient {
    MsgCreateClient {
        client_type: client_type.to_string(),
        client_state: vec![1, 2, 3],
        consensus_state: vec![9, 9],
        latest_height: Height::new(0, h),
    }
}

fn commitments(ctx: &IbcImpl<MemStore>, p: &str, c: &str) -> Vec<(u64, Vec<u8>)> {
    let mut v: Vec<(u64, Vec<u8>)> = query::packet_commitments(ctx, p, c)
        .unwrap()
        .commitments
        .into_iter()
        .map(|s| (s.sequence, s.data))
        .collect();
    v.sort();
    v
}

#[test]
fn context_requires_an_empty_store() {
    let mut store = MemStore::new(3);
    store.set("clients/x-0/clientType".to_string(), StoreValue::ClientType("x".to_string()));
    assert!(IbcImpl::new(store, IbcRouter::new()).is_none());
    assert!(IbcImpl::new(MemStore::new(3), IbcRouter::new()).is_some());
}

#[test]
fn restore_checks_every_record() {
    let mut good = MemStore::new(8);
    good.set("clients/T-0/clientType".to_string(), StoreValue::ClientType("T".to_string()));
    good.set("commitments/ports/p/channels/c/sequences/2".to_string(), StoreValue::Commitment(vec![7]));
    let ctx = IbcImpl::restore(good, IbcRouter::new(), 1, 0, 0).unwrap();
    assert_eq!(ctx.client_counter(), 1);
    assert_eq!(ctx.client_type(&client("T-0")).unwrap(), "T");
    assert_eq!(commitments(&ctx, "p", "c"), vec![(2, vec![7])]);

    let mut garbage = MemStore::new(0);
    garbage.set("not/a/path".to_string(), StoreValue::Receipt);
    assert!(IbcImpl::restore(garbage, IbcRouter::new(), 0, 0, 0).is_none());

    let mut wrong_kind = MemStore::new(0);
    wrong_kind.set("receipts/ports/p/channels/c/sequences/1".to_string(), StoreValue::Sequence(1));
    assert!(IbcImpl::restore(wrong_kind, IbcRouter::new(), 0, 0, 0).is_none());
}

#[test]
fn client_ids_follow_the_counter() {
    let mut svc = IbcClientMsgService::new(host(10));
    let a = svc.create_client(msg("T", 5), 1000).unwrap();
    assert_eq!(a.client_id.as_str(), "T-0");
    let b = svc.create_client(msg("T", 6), 1001).unwrap();
    assert_eq!(b.client_id.as_str(), "T-1");
    let c = svc.create_client(msg("U", 7), 1002).unwrap();
    assert_eq!(c.client_id.as_str(), "U-2");
    assert_eq!(svc.context().client_counter(), 3);
    assert_ne!(a.client_id.as_str(), b.client_id.as_str());
}

#[test]
fn client_types_share_one_counter() {
    let mut svc = IbcClientMsgService::new(host(10));
    let a = svc.create_client(msg("T", 5), 1).unwrap();
    let b = svc.create_client(msg("U", 5), 2).unwrap();
    assert_eq!(a.client_id.as_str(), "T-0");
    assert_eq!(b.client_id.as_str(), "U-1");
    assert_eq!(svc.context().client_counter(), 2);
}

#[test]
fn create_client_stores_its_records() {
    let mut svc = IbcClientMsgService::new(host(10));
    let ev = svc.create_client(msg("07-tendermint", 5), 777).unwrap();
    assert_eq!(ev.client_type, "07-tendermint");
    assert_eq!(ev.consensus_height, Height::new(0, 5));
    let ctx = svc.context();
    let id = client("07-tendermint-0");
    assert_eq!(ctx.client_type(&id).unwrap(), "07-tendermint");
    assert_eq!(ctx.client_state(&id).unwrap(), vec![1, 2, 3]);
    assert_eq!(ctx.consensus_state(&id, Height::new(0, 5)).unwrap(), vec![9, 9]);
    assert_eq!(ctx.client_update_time(&id, Height::new(0, 5)).unwrap(), 777);
    assert_eq!(ctx.client_update_height(&id, Height::new(0, 5)).unwrap(), Height::new(0, 10));
    assert!(matches!(
        ctx.consensus_state(&id, Height::new(0, 6)),
        Err(ContextError::ConsensusStateNotFound)
    ));
    assert!(matches!(ctx.client_state(&client("other-0")), Err(ContextError::ClientNotFound)));
}

#[test]
fn create_client_rejects_a_bad_client_type() {
    let mut svc = IbcClientMsgService::new(host(10));
    assert!(matches!(svc.create_client(msg("bad type", 1), 0), Err(ServiceError::InvalidArgument)));
    assert_eq!(svc.context().client_counter(), 0);
    assert!(matches!(svc.update_client(), Err(ServiceError::NotImplemented)));
    assert!(matches!(svc.upgrade_client(), Err(ServiceError::NotImplemented)));
    assert!(matches!(svc.submit_misbehaviour(), Err(ServiceError::NotImplemented)));
}

#[test]
fn client_and_consensus_state_queries() {
    let mut svc = IbcClientMsgService::new(host(10));
    svc.create_client(msg("T", 5), 1).unwrap();
    svc.create_client(msg("T", 8), 2).unwrap();
    let states = query::client_states(svc.context()).client_states;
    let mut ids: Vec<String> = states.iter().map(|s| s.client_id.as_str().to_string()).collect();
    ids.sort();
    assert_eq!(ids, vec!["T-0", "T-1"]);
    let cs = query::consensus_states(svc.context(), "T-1").unwrap().consensus_states;
    assert_eq!(cs.len(), 1);
    assert_eq!(cs[0].height, Height::new(0, 8));
    assert_eq!(cs[0].consensus_state, vec![9, 9]);
    assert!(matches!(
        query::consensus_states(svc.context(), "bad/id"),
        Err(ServiceError::InvalidArgument)
    ));
}

#[test]
fn next_and_previous_consensus_states() {
    let mut ctx = host(1);
    let id = client("c-0");
    ctx.store_consensus_state(&id, Height::new(0, 3), vec![3]);
    ctx.store_consensus_state(&id, Height::new(0, 7), vec![7]);
    ctx.store_consensus_state(&id, Height::new(1, 1), vec![11]);
    ctx.store_consensus_state(&client("c-1"), Height::new(0, 5), vec![5]);
    assert_eq!(ctx.next_consensus_state(&id, Height::new(0, 3)), Some(vec![7]));
    assert_eq!(ctx.next_consensus_state(&id, Height::new(0, 9)), Some(vec![11]));
    assert_eq!(ctx.next_consensus_state(&id, Height::new(1, 1)), None);
    assert_eq!(ctx.prev_consensus_state(&id, Height::new(0, 7)), Some(vec![3]));
    assert_eq!(ctx.prev_consensus_state(&id, Height::new(1, 0)), Some(vec![7]));
    assert_eq!(ctx.prev_consensus_state(&id, Height::new(0, 3)), None);
}

#[test]
fn host_consensus_states_come_from_the_cache() {
    let mut ctx = host(4);
    assert!(matches!(
        ctx.host_consensus_state(Height::new(0, 4)),
        Err(ContextError::MissingHostConsensusState)
    ));
    ctx.store_host_consensus_state(5, vec![5, 5]);
    assert_eq!(ctx.host_consensus_state(Height::new(0, 5)).unwrap(), vec![5, 5]);
    assert_eq!(ctx.pending_host_consensus_state().unwrap(), vec![5, 5]);
    ctx.set_host_height(5);
    assert!(ctx.pending_host_consensus_state().is_err());
    assert_eq!(ctx.host_height(), Height::new(0, 5));
    assert_eq!(ctx.host_oldest_height(), Height::new(0, 1));
    assert_eq!(ctx.commitment_prefix(), b"ibc".to_vec());
}

#[test]
fn packet_commitment_appears_and_disappears() {
    let mut ctx = host(12);
    ctx.store_packet_commitment(&port("p"), &chan("c"), 5, vec![0xab, 0xcd]);
    ctx.store_packet_commitment(&port("p"), &chan("other"), 6, vec![1]);
    assert_eq!(commitments(&ctx, "p", "c"), vec![(5, vec![0xab, 0xcd])]);
    let resp = query::packet_commitments(&ctx, "p", "c").unwrap();
    assert_eq!(resp.height, Height::new(0, 12));
    ctx.delete_packet_commitment(&port("p"), &chan("c"), 5);
    assert_eq!(commitments(&ctx, "p", "c"), vec![]);
}

#[test]
fn packet_commitments_are_stable_and_skip_empty() {
    let mut ctx = host(1);
    ctx.store_packet_commitment(&port("p"), &chan("c"), 1, vec![1]);
    ctx.store_packet_commitment(&port("p"), &chan("c"), 2, vec![]);
    ctx.store_packet_commitment(&port("p"), &chan("c"), 3, vec![3]);
    let first = commitments(&ctx, "p", "c");
    let second = commitments(&ctx, "p", "c");
    assert_eq!(first, vec![(1, vec![1]), (3, vec![3])]);
    assert_eq!(first, second);
    assert!(matches!(
        query::packet_commitments(&ctx, "", "c"),
        Err(ServiceError::InvalidArgument)
    ));
}

#[test]
fn deleted_acknowledgements_are_absent() {
    let mut ctx = host(1);
    ctx.store_packet_acknowledgement(&port("p"), &chan("c"), 4, vec![4]);
    ctx.store_packet_acknowledgement(&port("p"), &chan("c"), 8, vec![8]);
    ctx.delete_packet_acknowledgement(&port("p"), &chan("c"), 4);
    let acks = query::packet_acknowledgements(&ctx, "p", "c").unwrap().acknowledgements;
    let got: Vec<(u64, Vec<u8>)> = acks.into_iter().map(|a| (a.sequence, a.data)).collect();
    assert_eq!(got, vec![(8, vec![8])]);
    assert_eq!(ctx.get_packet_acknowledgement(&port("p"), &chan("c"), 4).unwrap(), Vec::<u8>::new());
}

#[test]
fn unreceived_acks_follow_the_commitment() {
    let mut ctx = host(2);
    ctx.store_packet_commitment(&port("p"), &chan("c"), 7, vec![1]);
    let r = query::unreceived_acks(&ctx, "p", "c", vec![7, 8]).unwrap();
    assert_eq!(r.sequences, vec![7]);
    assert_eq!(r.height, Height::new(0, 2));
    ctx.delete_packet_commitment(&port("p"), &chan("c"), 7);
    assert_eq!(query::unreceived_acks(&ctx, "p", "c", vec![7]).unwrap().sequences, Vec::<u64>::new());
}

#[test]
fn unreceived_packets_follow_the_receipt() {
    let mut ctx = host(2);
    let r = query::unreceived_packets(&ctx, "p", "c", vec![3, 1, 3]).unwrap();
    assert_eq!(r.sequences, vec![3, 1, 3]);
    ctx.store_packet_receipt(&port("p"), &chan("c"), 3);
    assert_eq!(query::unreceived_packets(&ctx, "p", "c", vec![3, 1, 3]).unwrap().sequences, vec![1]);
    ctx.store_packet_receipt(&port("p"), &chan("c"), 3);
    assert_eq!(query::unreceived_packets(&ctx, "p", "c", vec![3, 1, 3]).unwrap().sequences, vec![1]);
    assert!(ctx.get_packet_receipt(&port("p"), &chan("c"), 3).is_ok());
    assert!(matches!(
        query::unreceived_packets(&ctx, "p", "c/d", vec![1]),
        Err(ServiceError::InvalidArgument)
    ));
}

#[test]
fn channels_on_an_empty_store() {
    let ctx = host(17);
    let r = query::channels(&ctx);
    assert!(r.channels.is_empty());
    assert_eq!(r.height, Height::new(0, 17));
}

#[test]
fn channels_and_connection_channels() {
    let mut ctx = host(3);
    ctx.store_channel(&port("transfer"), &chan("channel-0"), &channel_end("connection-0"));
    ctx.store_channel(&port("transfer"), &chan("channel-1"), &channel_end("connection-1"));
    assert_eq!(query::channels(&ctx).channels.len(), 2);
    let r = query::connection_channels(&ctx, "connection-1").unwrap();
    assert_eq!(r.channels.len(), 1);
    assert_eq!(r.channels[0].channel_id.as_str(), "channel-1");
    assert_eq!(r.height, Height::new(0, 3));
    let one = query::channel(&ctx, "transfer", "channel-0").unwrap().unwrap();
    assert_eq!(one.version, "ics20-1");
    assert!(query::channel(&ctx, "transfer", "channel-5").unwrap().is_none());
    assert!(matches!(
        ctx.channel_end(&port("transfer"), &chan("channel-5")),
        Err(ContextError::ChannelNotFound)
    ));
}

#[test]
fn connections_and_client_connections() {
    let mut ctx = host(3);
    let end = ConnectionEnd {
        state: State::Init,
        client_id: client("c-0"),
        counterparty_client_id: client("d-0"),
        counterparty_connection_id: None,
        version: "1".to_string(),
        delay_period: 0,
    };
    ctx.store_connection(&conn("connection-0"), &end);
    ctx.store_connection_to_client(&conn("connection-0"), &client("c-0"));
    ctx.store_connection_to_client(&conn("connection-1"), &client("c-0"));
    assert_eq!(ctx.increase_connection_counter(), Ok(()));
    assert_eq!(ctx.connection_counter(), 1);
    let listed = query::connections(&ctx).connections;
    assert_eq!(listed.len(), 1);
    assert_eq!(listed[0].connection_id.as_str(), "connection-0");
    let found = query::connection(&ctx, "connection-0").unwrap().unwrap();
    assert_eq!(found.state, State::Init);
    assert!(query::connection(&ctx, "connection-7").unwrap().is_none());
    let ids: Vec<String> = query::client_connections(&ctx, "c-0")
        .unwrap()
        .iter()
        .map(|c| c.as_str().to_string())
        .collect();
    assert_eq!(ids, vec!["connection-0", "connection-1"]);
    assert!(query::client_connections(&ctx, "c-9").unwrap().is_empty());
}

#[test]
fn sequences_and_counters() {
    let mut ctx = host(1);
    ctx.store_next_sequence_send(&port("p"), &chan("c"), 4);
    ctx.store_next_sequence_recv(&port("p"), &chan("c"), 5);
    ctx.store_next_sequence_ack(&port("p"), &chan("c"), 6);
    assert_eq!(ctx.get_next_sequence_send(&port("p"), &chan("c")), Ok(4));
    assert_eq!(ctx.get_next_sequence_recv(&port("p"), &chan("c")), Ok(5));
    assert_eq!(ctx.get_next_sequence_ack(&port("p"), &chan("c")), Ok(6));
    assert_eq!(ctx.get_next_sequence_send(&port("p"), &chan("d")), Err(ContextError::SequenceNotFound));
    assert_eq!(ctx.increase_channel_counter(), Ok(()));
    assert_eq!(ctx.increase_channel_counter(), Ok(()));
    assert_eq!(ctx.channel_counter(), 2);
    assert_eq!(ctx.increase_client_counter(), Ok(()));
    assert_eq!(ctx.client_counter(), 1);
}

#[test]
fn ports_bind_once() {
    let mut ctx = host(1);
    assert!(matches!(ctx.lookup_module_by_port(&port("transfer")), Err(ContextError::UnknownPort)));
    assert_eq!(ctx.bind_port(&port("transfer"), ModuleId::from_str("ics20").unwrap()), Ok(()));
    assert_eq!(
        ctx.bind_port(&port("transfer"), ModuleId::from_str("other").unwrap()),
        Err(ContextError::PortAlreadyBound)
    );
    assert_eq!(ctx.lookup_module_by_port(&port("transfer")).unwrap().as_str(), "ics20");
}

#[test]
fn router_registers_modules() {
    let mut ctx = host(1);
    let m = ModuleId::from_str("ics20").unwrap();
    assert!(!ctx.router().has_route(&m));
    assert!(ctx.add_route(ModuleId::from_str("ics20").unwrap()));
    assert!(!ctx.add_route(ModuleId::from_str("ics20").unwrap()));
    assert!(ctx.router().has_route(&m));
}

#[test]
fn memory_store_lists_by_prefix() {
    let mut store = MemStore::new(0);
    store.set("a/b".to_string(), StoreValue::Receipt);
    store.set("a/bc".to_string(), StoreValue::Receipt);
    store.set("a".to_string(), StoreValue::Receipt);
    store.set("ab".to_string(), StoreValue::Receipt);
    let mut keys = store.keys_with_prefix("a");
    keys.sort();
    assert_eq!(keys, vec!["a", "a/b", "a/bc"]);
    assert_eq!(store.keys_with_prefix("a/b"), vec!["a/b"]);
    store.remove("a/b");
    assert!(store.get("a/b").is_none());
    assert_eq!(store.keys_with_prefix("").len(), 3);
}
