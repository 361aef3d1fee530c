use core_ibc::decimal::{decimal_string, parse_decimal};
use core_ibc::identifier::{ChannelId, ClientId, ConnectionId, IdentifierError, PortId};
use core_ibc::path::{
    ClientConsensusStatePath, PacketPath, Path, PathError, PathKind,
};

fn packet(port: &str, channel: &str, sequence: u64) -> PacketPath {
    PacketPath {
        port_id: PortId::from_str(port).unwrap(),
        channel_id: ChannelId::from_str(channel).unwrap(),
        sequence,
    }
}

fn all_kinds() -> Vec<Path> {
    let client = || ClientId::from_str("07-tendermint-0").unwrap();
    let port = || PortId::from_str("transfer").unwrap();
    let chan = || ChannelId::from_str("channel-0").unwrap();
    vec![
        Path::ClientType(client()),
        Path::ClientState(client()),
        Path::ClientConsensusState(ClientConsensusStatePath {
            client_id: client(),
            epoch: 1,
            height: 42,
        }),
        Path::ClientConnections(client()),
        Path::Connections(ConnectionId::from_str("connection-3").unwrap()),
        Path::Ports(port()),
        Path::ChannelEnds(port(), chan()),
        Path::SeqSends(port(), chan()),
        Path::SeqRecvs(port(), chan()),
        Path::SeqAcks(port(), chan()),
        Path::Commitments(packet("transfer", "channel-0", 5)),
        Path::Acks(packet("transfer", "channel-0", 5)),
        Path::Receipts(packet("transfer", "channel-0", 5)),
    ]
}

#[test]
fn path_texts_are_canonical() {
    let texts: Vec<String> = all_kinds().iter().map(|p| p.to_text()).collect();
    assert_eq!(
        texts,
        vec![
            "clients/07-tendermint-0/clientType",
            "clients/07-tendermint-0/clientState",
            "clients/07-tendermint-0/consensusStates/1-42",
            "clients/07-tendermint-0/connections",
            "connections/connection-3",
            "ports/transfer",
            "channelEnds/ports/transfer/channels/channel-0",
            "nextSequenceSend/ports/transfer/channels/channel-0",
            "nextSequenceRecv/ports/transfer/channels/channel-0",
            "nextSequenceAck/ports/transfer/channels/channel-0",
            "commitments/ports/transfer/channels/channel-0/sequences/5",
            "acks/ports/transfer/channels/channel-0/sequences/5",
            "receipts/ports/transfer/channels/channel-0/sequences/5",
        ]
    );
}

#[test]
fn every_path_kind_round_trips() {
    for p in all_kinds() {
        let text = p.to_text();
        let back = Path::from_text(&text).unwrap();
        assert_eq!(back.kind(), p.kind());
        assert_eq!(back.to_text(), text);
    }
}

#[test]
fn distinct_sequences_give_distinct_texts() {
    let a = Path::Commitments(packet("p", "c", 1)).to_text();
    let b = Path::Commitments(packet("p", "c", 10)).to_text();
    assert_ne!(a, b);
}

#[test]
fn malformed_paths_are_rejected() {
    for text in [
        "",
        "clients",
        "clients/abc/unknown",
        "commitments/ports/p/channels/c/sequences/05",
        "commitments/ports/p/channels/c/sequences/x",
        "commitments/ports/p/channels/c/sequences/18446744073709551616",
        "clients/abc/consensusStates/1",
        "connections/a/b",
        "connections/",
        "ports/bad id",
    ] {
        assert!(matches!(Path::from_text(text), Err(PathError::InvalidPath)), "{}", text);
    }
}

#[test]
fn largest_sequence_parses() {
    let p = Path::from_text("acks/ports/p/channels/c/sequences/18446744073709551615").unwrap();
    match p {
        Path::Acks(pp) => assert_eq!(pp.sequence, u64::MAX),
        _ => panic!("wrong kind"),
    }
}

#[test]
fn decoding_into_another_kind_fails() {
    let text = "connections/connection-0";
    assert!(matches!(
        Path::from_text_expecting(text, PathKind::ChannelEnds),
        Err(PathError::UnexpectedPathKind)
    ));
    assert!(Path::from_text_expecting(text, PathKind::Connections).is_ok());
    assert!(matches!(
        Path::from_text_expecting("nothing/here", PathKind::Connections),
        Err(PathError::InvalidPath)
    ));
}

#[test]
fn decimal_text_round_trips() {
    assert_eq!(decimal_string(0), "0");
    assert_eq!(decimal_string(1234567890), "1234567890");
    assert_eq!(decimal_string(u64::MAX), "18446744073709551615");
    assert_eq!(parse_decimal("0"), Some(0));
    assert_eq!(parse_decimal("907"), Some(907));
    assert_eq!(parse_decimal("007"), None);
    assert_eq!(parse_decimal(""), None);
    assert_eq!(parse_decimal("-1"), None);
}

#[test]
fn identifiers_are_validated() {
    assert!(PortId::from_str("transfer").is_ok());
    assert!(matches!(PortId::from_str(""), Err(IdentifierError::InvalidLength)));
    assert!(matches!(
        PortId::from_str(&"a".repeat(65)),
        Err(IdentifierError::InvalidLength)
    ));
    assert!(PortId::from_str(&"a".repeat(64)).is_ok());
    assert!(matches!(
        ChannelId::from_str("chan/0"),
        Err(IdentifierError::InvalidCharacter)
    ));
    assert_eq!(ClientId::new("07-tendermint", 12).unwrap().as_str(), "07-tendermint-12");
    assert!(matches!(ClientId::new("bad type", 0), Err(IdentifierError::InvalidCharacter)));
}
