//! Typed locations of protocol objects in the commitment store, and their
//! canonical text.
use vstd::prelude::*;
use crate::decimal::{decimal, lemma_decimal_canonical, parse_decimal, push_decimal, is_canonical_decimal, all_digits, is_digit};
use crate::identifier::{
    ChannelId, ClientId, ConnectionId, Identifier, PortId, is_valid_identifier,
    lemma_identifier_has_no_separator,
};
use crate::segments::{
    join, split, split_text, seg_views, no_separator, text_eq, lemma_split_join, lemma_join_split,
};

verus! {

/// The mathematical value of a path: identifiers as their text.
pub ghost enum PathModel {
    ClientType(Seq<char>),
    ClientState(Seq<char>),
    ClientConsensusState(Seq<char>, u64, u64),
    ClientConnections(Seq<char>),
    Connections(Seq<char>),
    Ports(Seq<char>),
    ChannelEnds(Seq<char>, Seq<char>),
    SeqSends(Seq<char>, Seq<char>),
    SeqRecvs(Seq<char>, Seq<char>),
    SeqAcks(Seq<char>, Seq<char>),
    Commitments(Seq<char>, Seq<char>, u64),
    Acks(Seq<char>, Seq<char>, u64),
    Receipts(Seq<char>, Seq<char>, u64),
}

/// Every identifier in the path satisfies the identifier rules.
pub open spec fn path_valid(p: PathModel) -> bool {
    match p {
        PathModel::ClientType(c) => is_valid_identifier(c),
        PathModel::ClientState(c) => is_valid_identifier(c),
        PathModel::ClientConsensusState(c, _, _) => is_valid_identifier(c),
        PathModel::ClientConnections(c) => is_valid_identifier(c),
        PathModel::Connections(c) => is_valid_identifier(c),
        PathModel::Ports(p) => is_valid_identifier(p),
        PathModel::ChannelEnds(p, c) => is_valid_identifier(p) && is_valid_identifier(c),
        PathModel::SeqSends(p, c) => is_valid_identifier(p) && is_valid_identifier(c),
        PathModel::SeqRecvs(p, c) => is_valid_identifier(p) && is_valid_identifier(c),
        PathModel::SeqAcks(p, c) => is_valid_identifier(p) && is_valid_identifier(c),
        PathModel::Commitments(p, c, _) => is_valid_identifier(p) && is_valid_identifier(c),
        PathModel::Acks(p, c, _) => is_valid_identifier(p) && is_valid_identifier(c),
        PathModel::Receipts(p, c, _) => is_valid_identifier(p) && is_valid_identifier(c),
    }
}

/// The segment naming a consensus height: `{epoch}-{height}`.
pub open spec fn height_text(epoch: u64, height: u64) -> Seq<char> {
    decimal(epoch as nat) + seq!['-'] + decimal(height as nat)
}

pub open spec fn port_channel_segments(
    family: Seq<char>,
    port: Seq<char>,
    channel: Seq<char>,
) -> Seq<Seq<char>> {
    seq![family, "ports"@, port, "channels"@, channel]
}

pub open spec fn packet_segments(
    family: Seq<char>,
    port: Seq<char>,
    channel: Seq<char>,
    sequence: u64,
) -> Seq<Seq<char>> {
    seq![family, "ports"@, port, "channels"@, channel, "sequences"@, decimal(sequence as nat)]
}

/// The segments of a path's text.
pub open spec fn path_segments(p: PathModel) -> Seq<Seq<char>> {
    match p {
        PathModel::ClientType(c) => seq!["clients"@, c, "clientType"@],
        PathModel::ClientState(c) => seq!["clients"@, c, "clientState"@],
        PathModel::ClientConsensusState(c, e, h) => seq![
            "clients"@,
            c,
            "consensusStates"@,
            height_text(e, h),
        ],
        PathModel::ClientConnections(c) => seq!["clients"@, c, "connections"@],
        PathModel::Connections(c) => seq!["connections"@, c],
        PathModel::Ports(p) => seq!["ports"@, p],
        PathModel::ChannelEnds(p, c) => port_channel_segments("channelEnds"@, p, c),
        PathModel::SeqSends(p, c) => port_channel_segments("nextSequenceSend"@, p, c),
        PathModel::SeqRecvs(p, c) => port_channel_segments("nextSequenceRecv"@, p, c),
        PathModel::SeqAcks(p, c) => port_channel_segments("nextSequenceAck"@, p, c),
        PathModel::Commitments(p, c, s) => packet_segments("commitments"@, p, c, s),
        PathModel::Acks(p, c, s) => packet_segments("acks"@, p, c, s),
        PathModel::Receipts(p, c, s) => packet_segments("receipts"@, p, c, s),
    }
}

/// The canonical text of a path: its segments joined with `/`.
pub open spec fn path_text(p: PathModel) -> Seq<char> {
    join(path_segments(p))
}

/// The number whose decimal text is `s`, if any.
pub open spec fn number_of(s: Seq<char>) -> Option<u64> {
    if exists|n: u64| decimal(n as nat) == s {
        Some(choose|n: u64| decimal(n as nat) == s)
    } else {
        None
    }
}

/// The consensus height that the segment `s` names, if any.
pub open spec fn height_of(s: Seq<char>) -> Option<(u64, u64)> {
    if exists|e: u64, h: u64| height_text(e, h) == s {
        Some(choose|e: u64, h: u64| height_text(e, h) == s)
    } else {
        None
    }
}

pub open spec fn port_channel_shape(segs: Seq<Seq<char>>) -> bool {
    &&& segs.len() == 5
    &&& segs[1] == "ports"@
    &&& segs[3] == "channels"@
    &&& is_valid_identifier(segs[2])
    &&& is_valid_identifier(segs[4])
}

pub open spec fn packet_shape(segs: Seq<Seq<char>>) -> bool {
    &&& segs.len() == 7
    &&& segs[1] == "ports"@
    &&& segs[3] == "channels"@
    &&& segs[5] == "sequences"@
    &&& is_valid_identifier(segs[2])
    &&& is_valid_identifier(segs[4])
    &&& number_of(segs[6]) is Some
}

/// The path whose segments are `segs`, if any.
pub open spec fn decode_segments(segs: Seq<Seq<char>>) -> Option<PathModel> {
    if segs.len() == 2 && segs[0] == "connections"@ && is_valid_identifier(segs[1]) {
        Some(PathModel::Connections(segs[1]))
    } else if segs.len() == 2 && segs[0] == "ports"@ && is_valid_identifier(segs[1]) {
        Some(PathModel::Ports(segs[1]))
    } else if segs.len() == 3 && segs[0] == "clients"@ && is_valid_identifier(segs[1]) && segs[2]
        == "clientType"@ {
        Some(PathModel::ClientType(segs[1]))
    } else if segs.len() == 3 && segs[0] == "clients"@ && is_valid_identifier(segs[1]) && segs[2]
        == "clientState"@ {
        Some(PathModel::ClientState(segs[1]))
    } else if segs.len() == 3 && segs[0] == "clients"@ && is_valid_identifier(segs[1]) && segs[2]
        == "connections"@ {
        Some(PathModel::ClientConnections(segs[1]))
    } else if segs.len() == 4 && segs[0] == "clients"@ && is_valid_identifier(segs[1]) && segs[2]
        == "consensusStates"@ && height_of(segs[3]) is Some {
        let (e, h) = height_of(segs[3])->0;
        Some(PathModel::ClientConsensusState(segs[1], e, h))
    } else if port_channel_shape(segs) && segs[0] == "channelEnds"@ {
        Some(PathModel::ChannelEnds(segs[2], segs[4]))
    } else if port_channel_shape(segs) && segs[0] == "nextSequenceSend"@ {
        Some(PathModel::SeqSends(segs[2], segs[4]))
    } else if port_channel_shape(segs) && segs[0] == "nextSequenceRecv"@ {
        Some(PathModel::SeqRecvs(segs[2], segs[4]))
    } else if port_channel_shape(segs) && segs[0] == "nextSequenceAck"@ {
        Some(PathModel::SeqAcks(segs[2], segs[4]))
    } else if packet_shape(segs) && segs[0] == "commitments"@ {
        Some(PathModel::Commitments(segs[2], segs[4], number_of(segs[6])->0))
    } else if packet_shape(segs) && segs[0] == "acks"@ {
        Some(PathModel::Acks(segs[2], segs[4], number_of(segs[6])->0))
    } else if packet_shape(segs) && segs[0] == "receipts"@ {
        Some(PathModel::Receipts(segs[2], segs[4], number_of(segs[6])->0))
    } else {
        None
    }
}

/// The path that the text `s` denotes, if any.
pub open spec fn decode_path(s: Seq<char>) -> Option<PathModel> {
    decode_segments(split(s))
}

/// Facts about the keyword segments: none holds the separator, and those of
/// equal length that can stand at the same place differ.
proof fn lemma_keywords()
    ensures
        !"clients"@.contains('/'),
        !"clientType"@.contains('/'),
        !"clientState"@.contains('/'),
        !"consensusStates"@.contains('/'),
        !"connections"@.contains('/'),
        !"ports"@.contains('/'),
        !"channels"@.contains('/'),
        !"sequences"@.contains('/'),
        !"channelEnds"@.contains('/'),
        !"nextSequenceSend"@.contains('/'),
        !"nextSequenceRecv"@.contains('/'),
        !"nextSequenceAck"@.contains('/'),
        !"commitments"@.contains('/'),
        !"acks"@.contains('/'),
        !"receipts"@.contains('/'),
        "clients"@.len() == 7,
        "clientType"@.len() == 10,
        "clientState"@.len() == 11,
        "consensusStates"@.len() == 15,
        "connections"@.len() == 11,
        "ports"@.len() == 5,
        "channels"@.len() == 8,
        "sequences"@.len() == 9,
        "channelEnds"@.len() == 11,
        "nextSequenceSend"@.len() == 16,
        "nextSequenceRecv"@.len() == 16,
        "nextSequenceAck"@.len() == 15,
        "commitments"@.len() == 11,
        "acks"@.len() == 4,
        "receipts"@.len() == 8,
        "clientState"@ != "connections"@,
        "nextSequenceSend"@ != "nextSequenceRecv"@,
{
    reveal_strlit("clients");
    reveal_strlit("clientType");
    reveal_strlit("clientState");
    reveal_strlit("consensusStates");
    reveal_strlit("connections");
    reveal_strlit("ports");
    reveal_strlit("channels");
    reveal_strlit("sequences");
    reveal_strlit("channelEnds");
    reveal_strlit("nextSequenceSend");
    reveal_strlit("nextSequenceRecv");
    reveal_strlit("nextSequenceAck");
    reveal_strlit("commitments");
    reveal_strlit("acks");
    reveal_strlit("receipts");
    assert(!"clients"@.contains('/'));
    assert(!"clientType"@.contains('/'));
    assert(!"clientState"@.contains('/'));
    assert(!"consensusStates"@.contains('/'));
    assert(!"connections"@.contains('/'));
    assert(!"ports"@.contains('/'));
    assert(!"channels"@.contains('/'));
    assert(!"sequences"@.contains('/'));
    assert(!"channelEnds"@.contains('/'));
    assert(!"nextSequenceSend"@.contains('/'));
    assert(!"nextSequenceRecv"@.contains('/'));
    assert(!"nextSequenceAck"@.contains('/'));
    assert(!"commitments"@.contains('/'));
    assert(!"acks"@.contains('/'));
    assert(!"receipts"@.contains('/'));
    assert("clientState"@[1] != "connections"@[1]);
    assert("nextSequenceSend"@[12] != "nextSequenceRecv"@[12]);
}

proof fn lemma_digits_no_separator(s: Seq<char>)
    requires
        all_digits(s),
    ensures
        !s.contains('/'),
        !s.contains('-'),
{
    if s.contains('/') {
        let i = choose|i: int| 0 <= i < s.len() && s[i] == '/';
        assert(is_digit(s[i]));
    }
    if s.contains('-') {
        let i = choose|i: int| 0 <= i < s.len() && s[i] == '-';
        assert(is_digit(s[i]));
    }
}

proof fn lemma_decimal_injective(a: nat, b: nat)
    requires
        decimal(a) == decimal(b),
    ensures
        a == b,
{
    lemma_decimal_canonical(a);
    lemma_decimal_canonical(b);
}

proof fn lemma_number_of_decimal(n: u64)
    ensures
        number_of(decimal(n as nat)) == Some(n),
{
    let m = choose|m: u64| decimal(m as nat) == decimal(n as nat);
    lemma_decimal_injective(m as nat, n as nat);
}

proof fn lemma_height_text_injective(e1: u64, h1: u64, e2: u64, h2: u64)
    requires
        height_text(e1, h1) == height_text(e2, h2),
    ensures
        e1 == e2,
        h1 == h2,
{
    let a1 = decimal(e1 as nat);
    let a2 = decimal(e2 as nat);
    let t = height_text(e1, h1);
    lemma_decimal_canonical(e1 as nat);
    lemma_decimal_canonical(e2 as nat);
    if a1.len() < a2.len() {
        assert(t[a1.len() as int] == '-');
        assert(t[a1.len() as int] == a2[a1.len() as int]);
        assert(is_digit(a2[a1.len() as int]));
    } else if a2.len() < a1.len() {
        assert(t[a2.len() as int] == '-');
        assert(t[a2.len() as int] == a1[a2.len() as int]);
        assert(is_digit(a1[a2.len() as int]));
    }
    assert(a1 =~= t.subrange(0, a1.len() as int));
    assert(a2 =~= t.subrange(0, a2.len() as int));
    lemma_decimal_injective(e1 as nat, e2 as nat);
    assert(decimal(h1 as nat) =~= t.subrange(a1.len() as int + 1, t.len() as int));
    assert(decimal(h2 as nat) =~= t.subrange(a2.len() as int + 1, t.len() as int));
    lemma_decimal_injective(h1 as nat, h2 as nat);
}

proof fn lemma_height_of_text(e: u64, h: u64)
    ensures
        height_of(height_text(e, h)) == Some((e, h)),
{
    assert(exists|a: u64, b: u64| height_text(a, b) == height_text(e, h));
    let (a, b) = choose|a: u64, b: u64| height_text(a, b) == height_text(e, h);
    lemma_height_text_injective(a, b, e, h);
}

/// No segment of a valid path holds the separator.
proof fn lemma_path_segments_no_separator(p: PathModel)
    requires
        path_valid(p),
    ensures
        no_separator(path_segments(p)),
        path_segments(p).len() >= 2,
{
    lemma_keywords();
    let segs = path_segments(p);
    assert forall|i: int| 0 <= i < segs.len() implies !(#[trigger] segs[i]).contains('/') by {
        match p {
            PathModel::ClientType(c) => lemma_identifier_has_no_separator(c),
            PathModel::ClientState(c) => lemma_identifier_has_no_separator(c),
            PathModel::ClientConsensusState(c, e, h) => {
                lemma_identifier_has_no_separator(c);
                lemma_decimal_canonical(e as nat);
                lemma_decimal_canonical(h as nat);
                lemma_digits_no_separator(decimal(e as nat));
                lemma_digits_no_separator(decimal(h as nat));
                let t = height_text(e, h);
                if t.contains('/') {
                    let j = choose|j: int| 0 <= j < t.len() && t[j] == '/';
                    if j < decimal(e as nat).len() {
                        assert(decimal(e as nat)[j] == '/');
                    } else if j > decimal(e as nat).len() {
                        assert(decimal(h as nat)[j - decimal(e as nat).len() - 1] == '/');
                    }
                }
            },
            PathModel::ClientConnections(c) => lemma_identifier_has_no_separator(c),
            PathModel::Connections(c) => lemma_identifier_has_no_separator(c),
            PathModel::Ports(c) => lemma_identifier_has_no_separator(c),
            PathModel::ChannelEnds(a, b) => {
                lemma_identifier_has_no_separator(a);
                lemma_identifier_has_no_separator(b);
            },
            PathModel::SeqSends(a, b) => {
                lemma_identifier_has_no_separator(a);
                lemma_identifier_has_no_separator(b);
            },
            PathModel::SeqRecvs(a, b) => {
                lemma_identifier_has_no_separator(a);
                lemma_identifier_has_no_separator(b);
            },
            PathModel::SeqAcks(a, b) => {
                lemma_identifier_has_no_separator(a);
                lemma_identifier_has_no_separator(b);
            },
            PathModel::Commitments(a, b, s) => {
                lemma_identifier_has_no_separator(a);
                lemma_identifier_has_no_separator(b);
                lemma_decimal_canonical(s as nat);
                lemma_digits_no_separator(decimal(s as nat));
            },
            PathModel::Acks(a, b, s) => {
                lemma_identifier_has_no_separator(a);
                lemma_identifier_has_no_separator(b);
                lemma_decimal_canonical(s as nat);
                lemma_digits_no_separator(decimal(s as nat));
            },
            PathModel::Receipts(a, b, s) => {
                lemma_identifier_has_no_separator(a);
                lemma_identifier_has_no_separator(b);
                lemma_decimal_canonical(s as nat);
                lemma_digits_no_separator(decimal(s as nat));
            },
        }
    }
}

/// Decoding the segments of a valid path gives the path back.
proof fn lemma_decode_segments_complete(p: PathModel)
    requires
        path_valid(p),
    ensures
        decode_segments(path_segments(p)) == Some(p),
{
    lemma_keywords();
    match p {
        PathModel::ClientConsensusState(c, e, h) => lemma_height_of_text(e, h),
        PathModel::Commitments(a, b, s) => lemma_number_of_decimal(s),
        PathModel::Acks(a, b, s) => lemma_number_of_decimal(s),
        PathModel::Receipts(a, b, s) => lemma_number_of_decimal(s),
        _ => {},
    }
}

/// A decoded path is valid and has exactly the given segments.
proof fn lemma_decode_segments_sound(segs: Seq<Seq<char>>)
    requires
        decode_segments(segs) is Some,
    ensures
        path_valid(decode_segments(segs)->0),
        path_segments(decode_segments(segs)->0) == segs,
{
    let p = decode_segments(segs)->0;
    match p {
        PathModel::ClientConsensusState(c, e, h) => {
            assert(height_text(e, h) == segs[3]);
        },
        PathModel::Commitments(a, b, s) => {
            assert(decimal(s as nat) == segs[6]);
        },
        PathModel::Acks(a, b, s) => {
            assert(decimal(s as nat) == segs[6]);
        },
        PathModel::Receipts(a, b, s) => {
            assert(decimal(s as nat) == segs[6]);
        },
        _ => {},
    }
    assert(path_segments(p) =~= segs);
}

/// Reading the text of a valid path gives back that path.
pub proof fn lemma_path_round_trip(p: PathModel)
    requires
        path_valid(p),
    ensures
        decode_path(path_text(p)) == Some(p),
{
    lemma_path_segments_no_separator(p);
    lemma_split_join(path_segments(p));
    lemma_decode_segments_complete(p);
}

/// Text that decodes to a path is that path's text, and the path is valid.
pub proof fn lemma_decode_path_sound(s: Seq<char>)
    requires
        decode_path(s) is Some,
    ensures
        path_valid(decode_path(s)->0),
        path_text(decode_path(s)->0) == s,
{
    lemma_decode_segments_sound(split(s));
    lemma_join_split(s);
}

/// Distinct valid paths have distinct texts.
pub proof fn lemma_path_text_injective(p: PathModel, q: PathModel)
    requires
        path_valid(p),
        path_valid(q),
        path_text(p) == path_text(q),
    ensures
        p == q,
{
    lemma_path_round_trip(p);
    lemma_path_round_trip(q);
}

/// The kind of entity that a path locates.
#[derive(Debug, Clone, Copy, PartialEq, Eq, Structural)]
pub enum PathKind {
    ClientType,
    ClientState,
    ClientConsensusState,
    ClientConnections,
    Connections,
    Ports,
    ChannelEnds,
    SeqSends,
    SeqRecvs,
    SeqAcks,
    Commitments,
    Acks,
    Receipts,
}

pub open spec fn path_kind(p: PathModel) -> PathKind {
    match p {
        PathModel::ClientType(..) => PathKind::ClientType,
        PathModel::ClientState(..) => PathKind::ClientState,
        PathModel::ClientConsensusState(..) => PathKind::ClientConsensusState,
        PathModel::ClientConnections(..) => PathKind::ClientConnections,
        PathModel::Connections(..) => PathKind::Connections,
        PathModel::Ports(..) => PathKind::Ports,
        PathModel::ChannelEnds(..) => PathKind::ChannelEnds,
        PathModel::SeqSends(..) => PathKind::SeqSends,
        PathModel::SeqRecvs(..) => PathKind::SeqRecvs,
        PathModel::SeqAcks(..) => PathKind::SeqAcks,
        PathModel::Commitments(..) => PathKind::Commitments,
        PathModel::Acks(..) => PathKind::Acks,
        PathModel::Receipts(..) => PathKind::Receipts,
    }
}

/// Why a text could not be read as a path.
#[derive(Debug, Clone, Copy, PartialEq, Eq, Structural)]
pub enum PathError {
    /// The text has none of the recognised shapes.
    InvalidPath,
    /// The text is a path, but of another kind than the one expected.
    UnexpectedPathKind,
}

/// Location of the consensus state that a client recorded at a height.
pub struct ClientConsensusStatePath {
    pub client_id: ClientId,
    pub epoch: u64,
    pub height: u64,
}

/// Location of a per-packet record: commitment, receipt or acknowledgement.
pub struct PacketPath {
    pub port_id: PortId,
    pub channel_id: ChannelId,
    pub sequence: u64,
}

/// A typed location in the commitment store.
pub enum Path {
    ClientType(ClientId),
    ClientState(ClientId),
    ClientConsensusState(ClientConsensusStatePath),
    ClientConnections(ClientId),
    Connections(ConnectionId),
    Ports(PortId),
    ChannelEnds(PortId, ChannelId),
    SeqSends(PortId, ChannelId),
    SeqRecvs(PortId, ChannelId),
    SeqAcks(PortId, ChannelId),
    Commitments(PacketPath),
    Acks(PacketPath),
    Receipts(PacketPath),
}

pub open spec fn path_views(v: Seq<Path>) -> Seq<PathModel> {
    v.map_values(|p: Path| p@)
}

impl View for Path {
    type V = PathModel;

    open spec fn view(&self) -> PathModel {
        match self {
            Path::ClientType(c) => PathModel::ClientType(c@),
            Path::ClientState(c) => PathModel::ClientState(c@),
            Path::ClientConsensusState(p) => PathModel::ClientConsensusState(
                p.client_id@,
                p.epoch,
                p.height,
            ),
            Path::ClientConnections(c) => PathModel::ClientConnections(c@),
            Path::Connections(c) => PathModel::Connections(c@),
            Path::Ports(p) => PathModel::Ports(p@),
            Path::ChannelEnds(p, c) => PathModel::ChannelEnds(p@, c@),
            Path::SeqSends(p, c) => PathModel::SeqSends(p@, c@),
            Path::SeqRecvs(p, c) => PathModel::SeqRecvs(p@, c@),
            Path::SeqAcks(p, c) => PathModel::SeqAcks(p@, c@),
            Path::Commitments(p) => PathModel::Commitments(p.port_id@, p.channel_id@, p.sequence),
            Path::Acks(p) => PathModel::Acks(p.port_id@, p.channel_id@, p.sequence),
            Path::Receipts(p) => PathModel::Receipts(p.port_id@, p.channel_id@, p.sequence),
        }
    }
}

proof fn lemma_join_push(segs: Seq<Seq<char>>, x: Seq<char>)
    requires
        segs.len() >= 1,
    ensures
        join(segs.push(x)) == join(segs) + seq!['/'] + x,
{
    assert(segs.push(x).drop_last() =~= segs);
}

/// Appends `/` and `seg` to text that joins `segs`.
fn append_segment(out: &mut String, Ghost(segs): Ghost<Seq<Seq<char>>>, seg: &str)
    requires
        old(out)@ == join(segs),
        segs.len() >= 1,
    ensures
        final(out)@ == join(segs.push(seg@)),
{
    proof {
        reveal_strlit("/");
        lemma_join_push(segs, seg@);
    }
    out.append("/");
    out.append(seg);
}

pub(crate) fn join_text(first: &str, rest: &Vec<&str>) -> (r: String)
    ensures
        r@ == join(seq![first@] + rest@.map_values(|x: &str| x@)),
{
    let mut out = String::from_str(first);
    let ghost views = rest@.map_values(|x: &str| x@);
    assert(join(seq![first@]) == first@);
    let mut i: usize = 0;
    while i < rest.len()
        invariant
            i <= rest@.len(),
            views == rest@.map_values(|x: &str| x@),
            out@ == join(seq![first@] + views.subrange(0, i as int)),
        decreases rest@.len() - i,
    {
        let ghost before = seq![first@] + views.subrange(0, i as int);
        append_segment(&mut out, Ghost(before), rest[i]);
        assert(before.push(rest@[i as int]@) =~= seq![first@] + views.subrange(0, i + 1));
        i = i + 1;
    }
    assert(views.subrange(0, rest@.len() as int) =~= views);
    out
}

fn height_string(epoch: u64, height: u64) -> (r: String)
    ensures
        r@ == height_text(epoch, height),
{
    let mut out = String::new();
    push_decimal(&mut out, epoch);
    proof {
        reveal_strlit("-");
    }
    out.append("-");
    push_decimal(&mut out, height);
    assert(out@ =~= height_text(epoch, height));
    out
}

/// Whether `segs[k]` is the keyword `kw`.
fn seg_is(segs: &Vec<String>, k: usize, kw: &str) -> (r: bool)
    requires
        k < segs@.len(),
    ensures
        r == (seg_views(segs@)[k as int] == kw@),
{
    text_eq(segs[k].as_str(), kw)
}

/// The consensus height that a segment names.
fn parse_height(seg: &str) -> (r: Option<(u64, u64)>)
    ensures
        r == height_of(seg@),
{
    let len = seg.unicode_len();
    let mut i: usize = 0;
    while i < len && seg.get_char(i) != '-'
        invariant
            len == seg@.len(),
            i <= len,
            forall|j: int| 0 <= j < i ==> seg@[j] != '-',
        decreases len - i,
    {
        i = i + 1;
    }
    if i == len {
        proof {
            if height_of(seg@) is Some {
                let (e, h) = choose|e: u64, h: u64| height_text(e, h) == seg@;
                let k = decimal(e as nat).len();
                assert(seg@[k as int] == '-');
            }
        }
        return None;
    }
    let left = seg.substring_char(0, i);
    let right = seg.substring_char(i + 1, len);
    proof {
        assert(seg@ =~= left@ + seq!['-'] + right@);
        if height_of(seg@) is Some {
            let (e, h) = choose|e: u64, h: u64| height_text(e, h) == seg@;
            let d = decimal(e as nat);
            lemma_decimal_canonical(e as nat);
            lemma_digits_no_separator(d);
            if i < d.len() {
                assert(seg@[i as int] == d[i as int]);
                assert(d.contains('-'));
            }
            if i > d.len() {
                assert(seg@[d.len() as int] == '-');
            }
            assert(left@ =~= d);
            assert(right@ =~= decimal(h as nat));
        }
    }
    match (parse_decimal(left), parse_decimal(right)) {
        (Some(e), Some(h)) => {
            proof {
                lemma_height_of_text(e, h);
            }
            Some((e, h))
        },
        _ => None,
    }
}

fn parse_number(seg: &str) -> (r: Option<u64>)
    ensures
        r == number_of(seg@),
{
    let r = parse_decimal(seg);
    proof {
        if let Some(n) = r {
            lemma_number_of_decimal(n);
        }
    }
    r
}

fn parse_identifier(segs: &Vec<String>, k: usize) -> (r: Option<Identifier>)
    requires
        k < segs@.len(),
    ensures
        match r {
            Some(id) => id@ == seg_views(segs@)[k as int] && is_valid_identifier(id@),
            None => !is_valid_identifier(seg_views(segs@)[k as int]),
        },
{
    match Identifier::from_str(segs[k].as_str()) {
        Ok(id) => Some(id),
        Err(_) => None,
    }
}

/// The path whose segments are `segs`.
fn decode_segment_list(segs: &Vec<String>) -> (r: Option<Path>)
    ensures
        match r {
            Some(p) => decode_segments(seg_views(segs@)) == Some(p@),
            None => decode_segments(seg_views(segs@)) is None,
        },
{
    proof {
        lemma_keywords();
    }
    let ghost v = seg_views(segs@);
    let n = segs.len();
    if n == 2 {
        let id = parse_identifier(segs, 1);
        match id {
            None => {
                return None;
            },
            Some(id) => {
                if seg_is(segs, 0, "connections") {
                    return Some(Path::Connections(ConnectionId { id }));
                } else if seg_is(segs, 0, "ports") {
                    return Some(Path::Ports(PortId { id }));
                }
                return None;
            },
        }
    }
    if n == 3 || n == 4 {
        if !seg_is(segs, 0, "clients") {
            return None;
        }
        let id = match parse_identifier(segs, 1) {
            None => {
                return None;
            },
            Some(id) => id,
        };
        if n == 3 {
            if seg_is(segs, 2, "clientType") {
                return Some(Path::ClientType(ClientId { id }));
            } else if seg_is(segs, 2, "clientState") {
                return Some(Path::ClientState(ClientId { id }));
            } else if seg_is(segs, 2, "connections") {
                return Some(Path::ClientConnections(ClientId { id }));
            }
            return None;
        }
        if !seg_is(segs, 2, "consensusStates") {
            return None;
        }
        return match parse_height(segs[3].as_str()) {
            Some((epoch, height)) => Some(
                Path::ClientConsensusState(
                    ClientConsensusStatePath { client_id: ClientId { id }, epoch, height },
                ),
            ),
            None => None,
        };
    }
    if n == 5 || n == 7 {
        if !seg_is(segs, 1, "ports") || !seg_is(segs, 3, "channels") {
            return None;
        }
        let port = match parse_identifier(segs, 2) {
            None => {
                return None;
            },
            Some(id) => PortId { id },
        };
        let channel = match parse_identifier(segs, 4) {
            None => {
                return None;
            },
            Some(id) => ChannelId { id },
        };
        if n == 5 {
            if seg_is(segs, 0, "channelEnds") {
                return Some(Path::ChannelEnds(port, channel));
            } else if seg_is(segs, 0, "nextSequenceSend") {
                return Some(Path::SeqSends(port, channel));
            } else if seg_is(segs, 0, "nextSequenceRecv") {
                return Some(Path::SeqRecvs(port, channel));
            } else if seg_is(segs, 0, "nextSequenceAck") {
                return Some(Path::SeqAcks(port, channel));
            }
            return None;
        }
        if !seg_is(segs, 5, "sequences") {
            return None;
        }
        let sequence = match parse_number(segs[6].as_str()) {
            None => {
                return None;
            },
            Some(s) => s,
        };
        let packet = PacketPath { port_id: port, channel_id: channel, sequence };
        if seg_is(segs, 0, "commitments") {
            return Some(Path::Commitments(packet));
        } else if seg_is(segs, 0, "acks") {
            return Some(Path::Acks(packet));
        } else if seg_is(segs, 0, "receipts") {
            return Some(Path::Receipts(packet));
        }
        return None;
    }
    None
}

impl Path {
    /// The kind of entity this path locates.
    pub fn kind(&self) -> (r: PathKind)
        ensures
            r == path_kind(self@),
    {
        match self {
            Path::ClientType(..) => PathKind::ClientType,
            Path::ClientState(..) => PathKind::ClientState,
            Path::ClientConsensusState(..) => PathKind::ClientConsensusState,
            Path::ClientConnections(..) => PathKind::ClientConnections,
            Path::Connections(..) => PathKind::Connections,
            Path::Ports(..) => PathKind::Ports,
            Path::ChannelEnds(..) => PathKind::ChannelEnds,
            Path::SeqSends(..) => PathKind::SeqSends,
            Path::SeqRecvs(..) => PathKind::SeqRecvs,
            Path::SeqAcks(..) => PathKind::SeqAcks,
            Path::Commitments(..) => PathKind::Commitments,
            Path::Acks(..) => PathKind::Acks,
            Path::Receipts(..) => PathKind::Receipts,
        }
    }

    /// The canonical text of this path.
    pub fn to_text(&self) -> (r: String)
        ensures
            r@ == path_text(self@),
            path_valid(self@),
    {
        let mut rest: Vec<&str> = Vec::new();
        let first: &str;
        match self {
            Path::ClientType(c) => {
                first = "clients";
                rest.push(c.as_str());
                rest.push("clientType");
            },
            Path::ClientState(c) => {
                first = "clients";
                rest.push(c.as_str());
                rest.push("clientState");
            },
            Path::ClientConsensusState(p) => {
                let h = height_string(p.epoch, p.height);
                let mut rest2: Vec<&str> = Vec::new();
                rest2.push(p.client_id.as_str());
                rest2.push("consensusStates");
                rest2.push(h.as_str());
                let r = join_text("clients", &rest2);
                assert(seq!["clients"@] + rest2@.map_values(|x: &str| x@) =~= path_segments(
                    self@,
                ));
                return r;
            },
            Path::ClientConnections(c) => {
                first = "clients";
                rest.push(c.as_str());
                rest.push("connections");
            },
            Path::Connections(c) => {
                first = "connections";
                rest.push(c.as_str());
            },
            Path::Ports(p) => {
                first = "ports";
                rest.push(p.as_str());
            },
            Path::ChannelEnds(p, c) => {
                first = "channelEnds";
                rest.push("ports");
                rest.push(p.as_str());
                rest.push("channels");
                rest.push(c.as_str());
            },
            Path::SeqSends(p, c) => {
                first = "nextSequenceSend";
                rest.push("ports");
                rest.push(p.as_str());
                rest.push("channels");
                rest.push(c.as_str());
            },
            Path::SeqRecvs(p, c) => {
                first = "nextSequenceRecv";
                rest.push("ports");
                rest.push(p.as_str());
                rest.push("channels");
                rest.push(c.as_str());
            },
            Path::SeqAcks(p, c) => {
                first = "nextSequenceAck";
                rest.push("ports");
                rest.push(p.as_str());
                rest.push("channels");
                rest.push(c.as_str());
            },
            Path::Commitments(p) | Path::Acks(p) | Path::Receipts(p) => {
                let family = match self {
                    Path::Commitments(_) => "commitments",
                    Path::Acks(_) => "acks",
                    _ => "receipts",
                };
                let seq = crate::decimal::decimal_string(p.sequence);
                let mut rest2: Vec<&str> = Vec::new();
                rest2.push("ports");
                rest2.push(p.port_id.as_str());
                rest2.push("channels");
                rest2.push(p.channel_id.as_str());
                rest2.push("sequences");
                rest2.push(seq.as_str());
                let r = join_text(family, &rest2);
                assert(seq![family@] + rest2@.map_values(|x: &str| x@) =~= path_segments(self@));
                return r;
            },
        }
        let r = join_text(first, &rest);
        assert(seq![first@] + rest@.map_values(|x: &str| x@) =~= path_segments(self@));
        r
    }

    /// Reads a path from its canonical text.
    pub fn from_text(s: &str) -> (r: Result<Path, PathError>)
        ensures
            match r {
                Ok(p) => path_valid(p@) && path_text(p@) == s@ && decode_path(s@) == Some(p@),
                Err(e) => e == PathError::InvalidPath && decode_path(s@) is None && forall|
                    q: PathModel,
                | path_valid(q) ==> path_text(q) != s@,
            },
    {
        let segs = split_text(s);
        match decode_segment_list(&segs) {
            Some(p) => {
                proof {
                    lemma_decode_path_sound(s@);
                }
                Ok(p)
            },
            None => {
                proof {
                    assert forall|q: PathModel| path_valid(q) implies path_text(q) != s@ by {
                        if path_text(q) == s@ {
                            lemma_path_round_trip(q);
                        }
                    }
                }
                Err(PathError::InvalidPath)
            },
        }
    }

    /// Reads a path of the given kind from its canonical text.
    pub fn from_text_expecting(s: &str, kind: PathKind) -> (r: Result<Path, PathError>)
        ensures
            match r {
                Ok(p) => decode_path(s@) == Some(p@) && path_kind(p@) == kind,
                Err(PathError::UnexpectedPathKind) => decode_path(s@) is Some && path_kind(
                    decode_path(s@)->0,
                ) != kind,
                Err(PathError::InvalidPath) => decode_path(s@) is None,
            },
    {
        match Path::from_text(s) {
            Ok(p) => {
                if p.kind() == kind {
                    Ok(p)
                } else {
                    Err(PathError::UnexpectedPathKind)
                }
            },
            Err(e) => Err(e),
        }
    }
}

} // verus!
