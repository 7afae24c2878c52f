//! What an endpoint decides: how a stream is answered, and what is announced and served.
//!
//! Each function takes the outcome of the last piece of outside work and tells the next one.

use crate::address::{hex, ADDRESS_LEN};
use crate::error::Error;
use crate::protocol::{drain_to_eof, read_request, write_found, write_status, Step, STATUS_NOT_FOUND};
use crate::text::{decimal, join};
use libp2p::identity::PublicKey;
use libp2p::multiaddr::Protocol;
use libp2p::{Multiaddr, PeerId};
use vstd::prelude::*;

verus! {

use crate::address::hex_text;
use crate::protocol::{found_steps, status_steps, steps_view, StepView, MAX_MESSAGE_PAYLOAD, MAX_RESPONSE_LEN, STATUS_OK};
use crate::text::decimal_text;

/// What to do next on a stream.
#[derive(Debug, PartialEq, Eq)]
pub enum Next {
    /// Look up the bytes stored at an address.
    Look([u8; ADDRESS_LEN]),
    /// Write an answer.
    Answer(Vec<Step>),
    /// Read once more, and drop what was read.
    Drain,
    /// Drop the stream: all is done.
    Finish,
    /// Drop the stream: the exchange failed.
    Fail(Error),
}

/// What to do once a request was received: what the stream gave until it had 32 bytes or ended,
/// or the text of the failure to read.
pub fn on_request(received: Result<Vec<u8>, String>) -> (next: Next)
    ensures
        match received {
            Ok(bytes) => if bytes@.len() >= ADDRESS_LEN {
                next matches Next::Look(address) && address@ == bytes@.take(ADDRESS_LEN as int)
            } else {
                next matches Next::Fail(error) && error@ == "unexpected end of file"@
            },
            Err(text) => next matches Next::Fail(error) && error@ == text@,
        },
{
    match received {
        Ok(bytes) => match read_request(bytes.as_slice()) {
            Ok(address) => Next::Look(address),
            Err(error) => Next::Fail(error),
        },
        Err(text) => Next::Fail(Error::new(text)),
    }
}

/// How the outcome of a lookup is answered.
pub open spec fn answer_steps(found: Option<Seq<u8>>) -> Seq<StepView> {
    match found {
        Some(bytes) => found_steps(bytes),
        None => status_steps(STATUS_NOT_FOUND),
    }
}

/// What to do once the address was looked up: the bytes stored there, `None` if there are none,
/// or the text of the failure to look.
pub fn on_lookup(found: Result<Option<Vec<u8>>, String>) -> (next: Next)
    ensures
        match found {
            Ok(Some(bytes)) => if bytes@.len() <= MAX_RESPONSE_LEN {
                &&& next matches Next::Answer(steps)
                &&& steps_view(steps@) == answer_steps(Some(bytes@))
                &&& steps@.len() == 3 + 2 * ((bytes@.len() + MAX_MESSAGE_PAYLOAD - 1) / (
                MAX_MESSAGE_PAYLOAD as int))
                &&& steps@[0] matches Step::Write(status) && status@ == seq![STATUS_OK]
                &&& steps@[1] matches Step::Write(prefix) && prefix@.len() == 4 && prefix@[0] * 0x100_0000
                    + prefix@[1] * 0x1_0000 + prefix@[2] * 0x100 + prefix@[3] == bytes@.len()
                &&& forall|i: int|
                    2 <= i < steps@.len() - 1 ==> match #[trigger] steps@[i] {
                        Step::Write(piece) => {
                            let from = (i - 2) / 2 * MAX_MESSAGE_PAYLOAD;
                            &&& i % 2 == 0
                            &&& 0 < piece@.len() <= MAX_MESSAGE_PAYLOAD
                            &&& from + piece@.len() <= bytes@.len()
                            &&& from + piece@.len() < bytes@.len() ==> piece@.len()
                                == MAX_MESSAGE_PAYLOAD
                            &&& piece@ == bytes@.subrange(from, from + piece@.len())
                        },
                        Step::Flush => i % 2 == 1,
                        Step::Close => false,
                    }
                &&& steps@[steps@.len() - 1] is Close
            } else {
                next matches Next::Fail(error) && error@ == if bytes@.len() > u32::MAX {
                    "chunk exceeds u32 length"@
                } else {
                    "chunk exceeds maximum response length"@
                }
            },
            Ok(None) => {
                &&& next matches Next::Answer(steps)
                &&& steps_view(steps@) == answer_steps(None)
                &&& steps@.len() == 2
                &&& steps@[0] matches Step::Write(status) && status@ == seq![STATUS_NOT_FOUND]
                &&& steps@[1] is Close
            },
            Err(text) => next matches Next::Fail(error) && error@ == text@,
        },
{
    match found {
        Ok(Some(bytes)) => match write_found(bytes.as_slice()) {
            Ok(steps) => Next::Answer(steps),
            Err(error) => Next::Fail(error),
        },
        Ok(None) => Next::Answer(write_status(STATUS_NOT_FOUND)),
        Err(text) => Next::Fail(Error::new(text)),
    }
}

/// What to do once the answer was written, or the text of the failure to write.
pub fn on_answer(written: Result<(), String>) -> (next: Next)
    ensures
        match written {
            Ok(()) => next is Drain,
            Err(text) => next matches Next::Fail(error) && error@ == text@,
        },
{
    match written {
        Ok(()) => Next::Drain,
        Err(text) => Next::Fail(Error::new(text)),
    }
}

/// What to do after a read that only waits for the other side to close: how many bytes it gave,
/// or `None` if it failed.
pub fn on_drain(read: Option<usize>) -> (next: Next)
    ensures
        if read matches Some(count) && count > 0 {
            next is Drain
        } else {
            next is Finish
        },
{
    if drain_to_eof(read) {
        Next::Drain
    } else {
        Next::Finish
    }
}

/// An IP address.
#[derive(Debug, PartialEq, Eq)]
pub enum IpAddress {
    V4([u8; 4]),
    V6([u8; 16]),
}

/// A segment of a multiaddr.
#[derive(Debug, PartialEq, Eq)]
pub enum Segment {
    Ip4([u8; 4]),
    Ip6([u8; 16]),
    /// Any other segment, encoded.
    Other(Vec<u8>),
}

/// The value of a [`Segment`].
pub enum SegmentView {
    Ip4(Seq<u8>),
    Ip6(Seq<u8>),
    Other(Seq<u8>),
}

impl View for Segment {
    type V = SegmentView;

    open spec fn view(&self) -> SegmentView {
        match *self {
            Segment::Ip4(ip) => SegmentView::Ip4(ip@),
            Segment::Ip6(ip) => SegmentView::Ip6(ip@),
            Segment::Other(bytes) => SegmentView::Other(bytes@),
        }
    }
}

/// The values of the segments of a multiaddr.
pub open spec fn segments_view(address: Seq<Segment>) -> Seq<SegmentView> {
    address.map_values(|segment: Segment| segment@)
}

/// A segment with the public IP in place of one of the same version.
pub open spec fn advertised_segment(
    segment: SegmentView,
    advertise: Option<IpAddress>,
) -> SegmentView {
    match (segment, advertise) {
        (SegmentView::Ip4(_), Some(IpAddress::V4(ip))) => SegmentView::Ip4(ip@),
        (SegmentView::Ip6(_), Some(IpAddress::V6(ip))) => SegmentView::Ip6(ip@),
        (other, _) => other,
    }
}

/// A multiaddr with the public IP in place of every IP of the same version.
pub open spec fn advertised_segments(
    address: Seq<SegmentView>,
    advertise: Option<IpAddress>,
) -> Seq<SegmentView> {
    address.map_values(|segment: SegmentView| advertised_segment(segment, advertise))
}

/// What becomes of each segment.
pub proof fn lemma_advertised(
    address: Seq<Segment>,
    advertise: Option<IpAddress>,
    dial: Seq<Segment>,
)
    requires
        segments_view(dial) == advertised_segments(segments_view(address), advertise),
    ensures
        dial.len() == address.len(),
        forall|i: int|
            0 <= i < address.len() ==> match (#[trigger] address[i], advertise) {
                (Segment::Ip4(_), Some(IpAddress::V4(public))) => dial[i] matches Segment::Ip4(ip)
                    && ip@ == public@,
                (Segment::Ip6(_), Some(IpAddress::V6(public))) => dial[i] matches Segment::Ip6(ip)
                    && ip@ == public@,
                (Segment::Ip4(bound), _) => dial[i] matches Segment::Ip4(ip) && ip@ == bound@,
                (Segment::Ip6(bound), _) => dial[i] matches Segment::Ip6(ip) && ip@ == bound@,
                (Segment::Other(bytes), _) => dial[i] matches Segment::Other(other) && other@
                    == bytes@,
            },
{
    let views = segments_view(address);
    let all = advertised_segments(views, advertise);
    assert(segments_view(dial).len() == all.len());
    assert forall|i: int| 0 <= i < address.len() implies match (#[trigger] address[i], advertise) {
        (Segment::Ip4(_), Some(IpAddress::V4(public))) => dial[i] matches Segment::Ip4(ip) && ip@
            == public@,
        (Segment::Ip6(_), Some(IpAddress::V6(public))) => dial[i] matches Segment::Ip6(ip) && ip@
            == public@,
        (Segment::Ip4(bound), _) => dial[i] matches Segment::Ip4(ip) && ip@ == bound@,
        (Segment::Ip6(bound), _) => dial[i] matches Segment::Ip6(ip) && ip@ == bound@,
        (Segment::Other(bytes), _) => dial[i] matches Segment::Other(other) && other@ == bytes@,
    } by {
        assert(views[i] == address[i]@);
        assert(all[i] == advertised_segment(views[i], advertise));
        assert(segments_view(dial)[i] == dial[i]@);
    }
}

/// Replace the bound IP with the public one, keeping everything else intact.
pub fn advertised(address: Vec<Segment>, advertise: Option<IpAddress>) -> (dial: Vec<Segment>)
    ensures
        segments_view(dial@) == advertised_segments(segments_view(address@), advertise),
        dial@.len() == address@.len(),
        forall|i: int|
            0 <= i < address@.len() ==> match (#[trigger] address@[i], advertise) {
                (Segment::Ip4(_), Some(IpAddress::V4(public))) => dial@[i] matches Segment::Ip4(ip)
                    && ip@ == public@,
                (Segment::Ip6(_), Some(IpAddress::V6(public))) => dial@[i] matches Segment::Ip6(ip)
                    && ip@ == public@,
                (Segment::Ip4(bound), _) => dial@[i] matches Segment::Ip4(ip) && ip@ == bound@,
                (Segment::Ip6(bound), _) => dial@[i] matches Segment::Ip6(ip) && ip@ == bound@,
                (Segment::Other(bytes), _) => dial@[i] matches Segment::Other(other) && other@
                    == bytes@,
            },
{
    let mut out: Vec<Segment> = Vec::new();
    let mut i: usize = 0;
    while i < address.len()
        invariant
            i <= address@.len(),
            segments_view(out@) == advertised_segments(segments_view(address@), advertise).take(
                i as int,
            ),
        decreases address.len() - i,
    {
        let ghost before = segments_view(out@);
        let segment = match (&address[i], &advertise) {
            (Segment::Ip4(_), Some(IpAddress::V4(ip))) => Segment::Ip4(*ip),
            (Segment::Ip6(_), Some(IpAddress::V6(ip))) => Segment::Ip6(*ip),
            (Segment::Ip4(ip), _) => Segment::Ip4(*ip),
            (Segment::Ip6(ip), _) => Segment::Ip6(*ip),
            (Segment::Other(bytes), _) => Segment::Other(
                vstd::slice::slice_to_vec(bytes.as_slice()),
            ),
        };
        out.push(segment);
        proof {
            let all = advertised_segments(segments_view(address@), advertise);
            assert(segments_view(address@)[i as int] == address@[i as int]@);
            assert(all[i as int] == segment@);
            assert(segments_view(out@) =~= before.push(segment@));
            assert(segments_view(out@) =~= all.take(i + 1));
        }
        i += 1;
    }
    proof {
        let all = advertised_segments(segments_view(address@), advertise);
        assert(all.take(all.len() as int) =~= all);
        lemma_advertised(address@, advertise, out@);
    }
    out
}

/// What happens to a running endpoint.
#[derive(Debug, PartialEq, Eq)]
pub enum HostEvent {
    /// The user asked to stop.
    Interrupted,
    /// The endpoint listens on an address.
    Listening(Vec<Segment>),
    /// Anything else, such as a client that comes or goes.
    Other,
}

/// What a running endpoint does.
#[derive(Debug, PartialEq, Eq)]
pub enum HostAction {
    /// Shut down.
    Stop,
    /// Print where the endpoint can be dialled.
    Announce(Vec<Segment>),
    /// Wait for the next event.
    Wait,
}

/// What a running endpoint does on an event.
pub fn run(event: HostEvent, advertise: Option<IpAddress>) -> (action: HostAction)
    ensures
        match event {
            HostEvent::Interrupted => action is Stop,
            HostEvent::Listening(address) => {
                &&& action matches HostAction::Announce(dial)
                &&& segments_view(dial@) == advertised_segments(segments_view(address@), advertise)
                &&& dial@.len() == address@.len()
                &&& forall|i: int|
                            0 <= i < address@.len() ==> match (#[trigger] address@[i], advertise) {
                                (Segment::Ip4(_), Some(IpAddress::V4(public))) => dial@[i] matches Segment::Ip4(ip)
                                    && ip@ == public@,
                                (Segment::Ip6(_), Some(IpAddress::V6(public))) => dial@[i] matches Segment::Ip6(ip)
                                    && ip@ == public@,
                                (Segment::Ip4(bound), _) => dial@[i] matches Segment::Ip4(ip) && ip@ == bound@,
                                (Segment::Ip6(bound), _) => dial@[i] matches Segment::Ip6(ip) && ip@ == bound@,
                                (Segment::Other(bytes), _) => dial@[i] matches Segment::Other(other) && other@
                                    == bytes@,
                            }
            },
            HostEvent::Other => action is Wait,
        },
{
    match event {
        HostEvent::Interrupted => HostAction::Stop,
        HostEvent::Listening(address) => HostAction::Announce(advertised(address, advertise)),
        HostEvent::Other => HostAction::Wait,
    }
}

/// The lines that tell where an endpoint can be dialled and what it serves.
pub open spec fn announcement_lines(
    dial: Seq<char>,
    data_map_address: Option<[u8; ADDRESS_LEN]>,
) -> Seq<Seq<char>> {
    let head = seq![Seq::<char>::empty(), "  multiaddr : "@ + dial];
    match data_map_address {
        Some(address) => head.push("  fixture   : "@ + hex_text(address@)).push(Seq::empty()),
        None => head.push(Seq::empty()),
    }
}

/// What `libp2p::identity::PublicKey::to_peer_id` makes of an encoded public key, as bytes, or
/// `None` if the key does not decode.
pub uninterp spec fn peer_id_of(public: Seq<u8>) -> Option<Seq<u8>>;

/// `libp2p::identity::PublicKey::to_peer_id` of an encoded public key: the bytes of the id depend
/// on the key alone. There is none if the key does not decode.
#[verifier::external_body]
fn peer_id(public: &[u8]) -> (peer: Option<Vec<u8>>)
    ensures
        match peer {
            Some(peer) => peer_id_of(public@) == Some(peer@),
            None => peer_id_of(public@) is None,
        },
{
    Some(PublicKey::try_decode_protobuf(public).ok()?.to_peer_id().to_bytes())
}

/// What `libp2p::Multiaddr::with_p2p` makes of a multiaddr given by its segments and the bytes of
/// a peer id, as text, or `None` if they do not fit.
pub uninterp spec fn dial_text(address: Seq<SegmentView>, peer: Seq<u8>) -> Option<Seq<char>>;

/// `libp2p::Multiaddr::with_p2p`, as text: it depends on the segments and the peer id alone. There
/// is none if an encoded segment or the id does not decode, or if the address ends with the id of
/// another peer.
#[verifier::external_body]
fn dial_address(address: &Vec<Segment>, peer: &[u8]) -> (text: Option<String>)
    ensures
        match text {
            Some(text) => dial_text(segments_view(address@), peer@) == Some(text@),
            None => dial_text(segments_view(address@), peer@) is None,
        },
{
    let encoded = address.iter().map(|segment| match segment {
        Segment::Ip4(ip) => Multiaddr::from(Protocol::Ip4((*ip).into())).to_vec(),
        Segment::Ip6(ip) => Multiaddr::from(Protocol::Ip6((*ip).into())).to_vec(),
        Segment::Other(bytes) => bytes.clone(),
    });
    let address = Multiaddr::try_from(encoded.collect::<Vec<_>>().concat()).ok()?;
    Some(address.with_p2p(PeerId::from_bytes(peer).ok()?).ok()?.to_string())
}

/// The lines that tell where an endpoint can be dialled and what it serves.
pub fn announcement(dial: &str, data_map_address: Option<[u8; ADDRESS_LEN]>) -> (lines: Vec<String>)
    ensures
        lines@.map_values(|line: String| line@) == announcement_lines(dial@, data_map_address),
        lines@.len() == if data_map_address is Some {
            4int
        } else {
            3
        },
        lines@[0]@.len() == 0,
        lines@[1]@ == "  multiaddr : "@ + dial@,
        data_map_address matches Some(address) ==> lines@[2]@ == "  fixture   : "@ + hex_text(
            address@,
        ),
        lines@[lines@.len() - 1]@.len() == 0,
{
    let mut lines: Vec<String> = Vec::new();
    lines.push(String::new());
    lines.push(join("  multiaddr : ", dial));
    if let Some(address) = data_map_address {
        let digits = hex(address.as_slice());
        lines.push(join("  fixture   : ", digits.as_str()));
    }
    lines.push(String::new());
    assert(lines@.map_values(|line: String| line@) =~= announcement_lines(dial@, data_map_address));
    lines
}

/// Where an endpoint with the given public key is dialled, as text.
pub open spec fn dialled(address: Seq<SegmentView>, public: Seq<u8>) -> Option<Seq<char>> {
    match peer_id_of(public) {
        Some(peer) => dial_text(address, peer),
        None => None,
    }
}

/// The lines that announce an endpoint that is dialled at an address, by the public key of its
/// identity, or `None` if the key does not decode or the address already names another peer.
pub fn announced(
    address: &Vec<Segment>,
    public: &[u8],
    data_map_address: Option<[u8; ADDRESS_LEN]>,
) -> (lines: Option<Vec<String>>)
    ensures
        match dialled(segments_view(address@), public@) {
            Some(text) => lines matches Some(lines) && lines@.map_values(|line: String| line@)
                == announcement_lines(text, data_map_address),
            None => lines is None,
        },
{
    let peer = match peer_id(public) {
        Some(peer) => peer,
        None => return None,
    };
    match dial_address(address, peer.as_slice()) {
        Some(text) => Some(announcement(text.as_str(), data_map_address)),
        None => None,
    }
}

/// The address to listen on, as text, for an IP address given as text.
pub fn listen_multiaddr(bind: &str, port: u16) -> (address: String)
    ensures
        address@ == "/ip4/"@ + bind@ + "/udp/"@ + decimal_text(port as nat) + "/webrtc-direct"@,
{
    let mut address = join("/ip4/", bind);
    address.append("/udp/");
    let digits = decimal(port as usize);
    address.append(digits.as_str());
    address.append("/webrtc-direct");
    address
}

/// What an endpoint was started for.
#[derive(Debug, PartialEq, Eq)]
pub enum Mode {
    /// Write the chunks of a local file to a directory.
    Dump,
    /// Serve the chunks of a local file.
    Fixture,
    /// Serve from the live network.
    Network,
}

/// What an endpoint was started for, by whether a local file and a directory were given.
pub fn mode(fixture: bool, dump_to: bool) -> (mode: Mode)
    ensures
        match mode {
            Mode::Dump => fixture && dump_to,
            Mode::Fixture => fixture && !dump_to,
            Mode::Network => !fixture,
        },
{
    if fixture {
        if dump_to {
            Mode::Dump
        } else {
            Mode::Fixture
        }
    } else {
        Mode::Network
    }
}

/// A bootstrap peer of the production network.
#[derive(Debug, PartialEq, Eq)]
pub struct BootstrapPeer {
    pub ip: [u8; 4],
    pub port: u16,
}

/// Production bootstrap peers.
pub open spec fn production_peers() -> Seq<(Seq<u8>, u16)> {
    seq![
        (seq![207u8, 148, 94, 42], 10000u16),
        (seq![45u8, 77, 50, 10], 10000u16),
        (seq![66u8, 135, 23, 83], 10000u16),
        (seq![149u8, 248, 9, 2], 10000u16),
        (seq![49u8, 12, 119, 240], 10000u16),
        (seq![5u8, 161, 25, 133], 10000u16),
        (seq![18u8, 228, 202, 183], 10000u16),
    ]
}

/// Production bootstrap peers.
pub fn default_bootstrap() -> (peers: Vec<BootstrapPeer>)
    ensures
        peers@.map_values(|peer: BootstrapPeer| (peer.ip@, peer.port)) == production_peers(),
{
    let mut peers: Vec<BootstrapPeer> = Vec::new();
    peers.push(BootstrapPeer { ip: [207, 148, 94, 42], port: 10000 });
    peers.push(BootstrapPeer { ip: [45, 77, 50, 10], port: 10000 });
    peers.push(BootstrapPeer { ip: [66, 135, 23, 83], port: 10000 });
    peers.push(BootstrapPeer { ip: [149, 248, 9, 2], port: 10000 });
    peers.push(BootstrapPeer { ip: [49, 12, 119, 240], port: 10000 });
    peers.push(BootstrapPeer { ip: [5, 161, 25, 133], port: 10000 });
    peers.push(BootstrapPeer { ip: [18, 228, 202, 183], port: 10000 });
    proof {
        let values = peers@.map_values(|peer: BootstrapPeer| (peer.ip@, peer.port));
        assert forall|i: int| 0 <= i < 7 implies (#[trigger] values[i]).0 =~= production_peers()[i].0
            && values[i].1 == production_peers()[i].1 by {}
        assert(values =~= production_peers());
    }
    peers
}

/// The peers to bootstrap from: those given, or the built-in ones if none were.
pub fn bootstrap<T>(given: Vec<T>, built_in: Vec<T>) -> (peers: Vec<T>)
    ensures
        peers@ == if given@.len() == 0 {
            built_in@
        } else {
            given@
        },
{
    if given.is_empty() {
        built_in
    } else {
        given
    }
}

} // verus!
