//! What holds of answers on the wire and of announcements.

use vstd::prelude::*;

verus! {

use crate::address::{hex_text, ADDRESS_LEN};
use crate::endpoint::{advertised_segments, announcement_lines, answer_steps, dial_text, dialled, lemma_advertised, peer_id_of, segments_view, IpAddress, Segment, SegmentView};
use crate::protocol::{be_bytes, data_steps, found_steps, lemma_found_steps, status_steps, steps_view, Step, StepView, MAX_MESSAGE_PAYLOAD, MAX_RESPONSE_LEN, STATUS_NOT_FOUND, STATUS_OK, STATUS_REFUSED};

/// What an endpoint can answer.
pub enum Answer {
    Found(Seq<u8>),
    NotFound,
    Refused,
}

impl Answer {
    /// The answer to a request for an address, from a table of chunks.
    pub open spec fn from_table(table: Map<Seq<u8>, Seq<u8>>, address: Seq<u8>) -> Answer {
        if table.contains_key(address) {
            Answer::Found(table[address])
        } else {
            Answer::NotFound
        }
    }

    /// How the answer is written.
    pub open spec fn steps(self) -> Seq<StepView> {
        match self {
            Answer::Found(data) => found_steps(data),
            Answer::NotFound => status_steps(STATUS_NOT_FOUND),
            Answer::Refused => status_steps(STATUS_REFUSED),
        }
    }

    /// The bytes of the answer on the wire.
    pub open spec fn bytes(self) -> Seq<u8> {
        match self {
            Answer::Found(data) => seq![STATUS_OK] + be_bytes(data.len() as int) + data,
            Answer::NotFound => seq![STATUS_NOT_FOUND],
            Answer::Refused => seq![STATUS_REFUSED],
        }
    }

    /// Whether the answer can be sent.
    pub open spec fn fits(self) -> bool {
        self matches Answer::Found(data) ==> data.len() <= MAX_RESPONSE_LEN
    }
}

/// The number that four bytes stand for, most significant first.
pub open spec fn be_value(bytes: Seq<u8>) -> int {
    bytes[0] * 0x100_0000 + bytes[1] * 0x1_0000 + bytes[2] * 0x100 + bytes[3]
}

/// The answer that a client reads off the wire.
pub open spec fn read_answer(bytes: Seq<u8>) -> Option<Answer> {
    if bytes.len() == 0 {
        None
    } else if bytes[0] == STATUS_OK {
        if bytes.len() >= 5 && bytes.len() == 5 + be_value(bytes.subrange(1, 5)) {
            Some(Answer::Found(bytes.skip(5)))
        } else {
            None
        }
    } else if bytes == seq![STATUS_NOT_FOUND] {
        Some(Answer::NotFound)
    } else if bytes == seq![STATUS_REFUSED] {
        Some(Answer::Refused)
    } else {
        None
    }
}

/// The bytes that a list of steps writes.
pub open spec fn written(steps: Seq<StepView>) -> Seq<u8>
    decreases steps.len(),
{
    if steps.len() == 0 {
        Seq::empty()
    } else {
        match steps.first() {
            StepView::Write(bytes) => bytes + written(steps.drop_first()),
            _ => written(steps.drop_first()),
        }
    }
}

/// What two lists of steps write, one after the other.
proof fn lemma_written_append(a: Seq<StepView>, b: Seq<StepView>)
    ensures
        written(a + b) == written(a) + written(b),
    decreases a.len(),
{
    if a.len() == 0 {
        assert(a + b =~= b);
        assert(written(a) + written(b) =~= written(b));
    } else {
        assert((a + b).drop_first() =~= a.drop_first() + b);
        assert((a + b).first() == a.first());
        lemma_written_append(a.drop_first(), b);
        if let StepView::Write(bytes) = a.first() {
            assert(bytes + (written(a.drop_first()) + written(b)) =~= bytes + written(
                a.drop_first(),
            ) + written(b));
        }
    }
}

/// Data is written whole.
proof fn lemma_data_written(data: Seq<u8>)
    ensures
        written(data_steps(data)) == data,
    decreases data.len(),
{
    reveal_with_fuel(written, 3);
    if data.len() == 0 {
        assert(data =~= Seq::<u8>::empty());
    } else if data.len() <= MAX_MESSAGE_PAYLOAD {
        let steps = seq![StepView::Write(data), StepView::Flush];
        assert(steps.drop_first().drop_first() =~= Seq::<StepView>::empty());
        assert(written(steps) =~= data);
    } else {
        let head = data.take(MAX_MESSAGE_PAYLOAD as int);
        let rest = data.skip(MAX_MESSAGE_PAYLOAD as int);
        let steps = seq![StepView::Write(head), StepView::Flush];
        lemma_data_written(rest);
        lemma_written_append(steps, data_steps(rest));
        assert(steps.drop_first().drop_first() =~= Seq::<StepView>::empty());
        assert(written(steps) =~= head);
        assert(head + rest =~= data);
    }
}

/// The steps of an answer write its bytes: a status, and for data its length and the data.
pub proof fn law_an_answer_is_written_whole(answer: Answer)
    ensures
        written(answer.steps()) == answer.bytes(),
{
    reveal_with_fuel(written, 3);
    match answer {
        Answer::Found(data) => {
            let head = seq![
                StepView::Write(seq![STATUS_OK]),
                StepView::Write(be_bytes(data.len() as int)),
            ];
            let tail = seq![StepView::Close];
            lemma_written_append(head + data_steps(data), tail);
            lemma_written_append(head, data_steps(data));
            lemma_data_written(data);
            assert(head.drop_first().drop_first() =~= Seq::<StepView>::empty());
            assert(written(head) =~= seq![STATUS_OK] + be_bytes(data.len() as int));
            assert(tail.drop_first() =~= Seq::<StepView>::empty());
            assert(written(tail) =~= Seq::<u8>::empty());
            assert(written(answer.steps()) =~= answer.bytes());
        },
        _ => {
            let steps = answer.steps();
            assert(steps.drop_first().drop_first() =~= Seq::<StepView>::empty());
            assert(written(steps) =~= answer.bytes());
        },
    }
}

/// What a client reads off the wire is what the endpoint answered.
pub proof fn law_an_answer_is_read_back(answer: Answer)
    requires
        answer.fits(),
    ensures
        read_answer(answer.bytes()) == Some(answer),
{
    let bytes = answer.bytes();
    match answer {
        Answer::Found(data) => {
            let n = data.len() as int;
            assert(bytes.subrange(1, 5) =~= be_bytes(n));
            assert(be_value(be_bytes(n)) == n);
            assert(bytes.skip(5) =~= data);
        },
        Answer::NotFound => {},
        Answer::Refused => {
            assert(bytes[0] == STATUS_REFUSED);
            assert(seq![STATUS_NOT_FOUND][0] == STATUS_NOT_FOUND);
        },
    }
}

/// Every write is followed by a flush and fits one transport message.
pub open spec fn paced(steps: Seq<StepView>) -> bool {
    forall|i: int|
        0 <= i < steps.len() ==> match #[trigger] steps[i] {
            StepView::Write(bytes) => {
                &&& 0 < bytes.len() <= MAX_MESSAGE_PAYLOAD
                &&& i + 1 < steps.len()
                &&& steps[i + 1] is Flush
            },
            StepView::Flush => true,
            StepView::Close => false,
        }
}

/// Data goes out one transport message at a time, each flushed before the next.
pub proof fn law_data_is_sent_message_by_message(data: Seq<u8>)
    ensures
        paced(data_steps(data)),
    decreases data.len(),
{
    if data.len() > MAX_MESSAGE_PAYLOAD {
        let head = data.take(MAX_MESSAGE_PAYLOAD as int);
        let rest = data_steps(data.skip(MAX_MESSAGE_PAYLOAD as int));
        let steps = data_steps(data);
        law_data_is_sent_message_by_message(data.skip(MAX_MESSAGE_PAYLOAD as int));
        assert(steps =~= seq![StepView::Write(head), StepView::Flush] + rest);
        assert forall|i: int| 0 <= i < steps.len() implies match #[trigger] steps[i] {
            StepView::Write(bytes) => {
                &&& 0 < bytes.len() <= MAX_MESSAGE_PAYLOAD
                &&& i + 1 < steps.len()
                &&& steps[i + 1] is Flush
            },
            StepView::Flush => true,
            StepView::Close => false,
        } by {
            if i >= 2 {
                assert(steps[i] == rest[i - 2]);
                if rest[i - 2] is Write {
                    assert(steps[i + 1] == rest[i - 1]);
                }
            }
        }
    }
}

/// A stream is closed once, after everything was written.
pub proof fn law_an_answer_ends_with_the_only_close(answer: Answer)
    ensures
        answer.steps().len() > 0,
        forall|i: int|
            0 <= i < answer.steps().len() ==> ((#[trigger] answer.steps()[i] is Close) <==> i
                == answer.steps().len() - 1),
{
    if let Answer::Found(data) = answer {
        law_data_is_sent_message_by_message(data);
        let steps = answer.steps();
        let inner = data_steps(data);
        assert forall|i: int| 0 <= i < steps.len() implies ((#[trigger] steps[i] is Close) <==> i
            == steps.len() - 1) by {
            if 2 <= i < steps.len() - 1 {
                assert(steps[i] == inner[i - 2]);
            }
        }
    }
}

/// Advertising a public IP changes IP segments of its version and nothing else: ports, the hash
/// of the certificate and the order of the segments stay.
pub proof fn law_advertising_changes_only_the_ip(
    address: Seq<SegmentView>,
    advertise: Option<IpAddress>,
)
    ensures
        advertised_segments(address, advertise).len() == address.len(),
        forall|i: int|
            0 <= i < address.len() && (#[trigger] address[i]) is Other
                ==> advertised_segments(address, advertise)[i] == address[i],
        advertise is None ==> advertised_segments(address, advertise) == address,
        advertised_segments(advertised_segments(address, advertise), advertise)
            == advertised_segments(address, advertise),
{
    let once = advertised_segments(address, advertise);
    assert(advertised_segments(once, advertise) =~= once);
    if advertise is None {
        assert(once =~= address);
    }
}

/// A request is answered with what is stored at the address: the client reads the bytes off the
/// wire, or that there are none.
pub proof fn law_a_request_is_answered_with_what_is_stored(
    table: Map<Seq<u8>, Seq<u8>>,
    address: Seq<u8>,
)
    requires
        table.contains_key(address) ==> table[address].len() <= MAX_RESPONSE_LEN,
    ensures
        ({
            let found = if table.contains_key(address) {
                Some(table[address])
            } else {
                None
            };
            read_answer(written(answer_steps(found))) == Some(Answer::from_table(table, address))
        }),
{
    let answer = Answer::from_table(table, address);
    law_an_answer_is_written_whole(answer);
    law_an_answer_is_read_back(answer);
}

/// In every answer, each write fits one transport message and is not empty, and each write of data
/// is directly followed by a flush.
pub proof fn law_every_write_fits_one_message(answer: Answer)
    ensures
        forall|i: int|
            0 <= i < answer.steps().len() ==> match #[trigger] answer.steps()[i] {
                StepView::Write(bytes) => {
                    &&& 0 < bytes.len() <= MAX_MESSAGE_PAYLOAD
                    &&& i >= 2 ==> i + 1 < answer.steps().len() && answer.steps()[i + 1] is Flush
                },
                _ => true,
            },
{
    if let Answer::Found(data) = answer {
        law_data_is_sent_message_by_message(data);
        let steps = answer.steps();
        let inner = data_steps(data);
        assert forall|i: int| 0 <= i < steps.len() implies match #[trigger] steps[i] {
            StepView::Write(bytes) => {
                &&& 0 < bytes.len() <= MAX_MESSAGE_PAYLOAD
                &&& i >= 2 ==> i + 1 < steps.len() && steps[i + 1] is Flush
            },
            _ => true,
        } by {
            if 2 <= i < steps.len() - 1 {
                assert(steps[i] == inner[i - 2]);
                if inner[i - 2] is Write {
                    assert(steps[i + 1] == inner[i - 1]);
                }
            }
        }
    }
}

/// What is written is the writes one after another.
proof fn lemma_written_is_concatenation(steps: Seq<StepView>)
    ensures
        written(steps) == steps.map_values(
            |step: StepView|
                match step {
                    StepView::Write(bytes) => bytes,
                    _ => Seq::<u8>::empty(),
                },
        ).flatten(),
    decreases steps.len(),
{
    let bytes_of = |step: StepView|
        match step {
            StepView::Write(bytes) => bytes,
            _ => Seq::<u8>::empty(),
        };
    if steps.len() > 0 {
        lemma_written_is_concatenation(steps.drop_first());
        assert(steps.map_values(bytes_of).drop_first() =~= steps.drop_first().map_values(bytes_of));
        assert(steps.map_values(bytes_of).first() == bytes_of(steps.first()));
        if !(steps.first() is Write) {
            assert(Seq::<u8>::empty() + written(steps.drop_first()) =~= written(
                steps.drop_first(),
            ));
        }
    }
}

/// The writes of an answer, one after another, are its status and, if it carries data, the length
/// of the data in four bytes, most significant first, and the data.
pub proof fn law_the_writes_make_up_the_answer(steps: Seq<Step>, found: Option<Seq<u8>>)
    requires
        steps_view(steps) == answer_steps(found),
        found matches Some(data) ==> data.len() <= MAX_RESPONSE_LEN,
    ensures
        ({
            let bytes = steps.map_values(
                |step: Step|
                    match step {
                        Step::Write(bytes) => bytes@,
                        _ => Seq::<u8>::empty(),
                    },
            ).flatten();
            match found {
                Some(data) => {
                    &&& bytes.len() == 5 + data.len()
                    &&& bytes[0] == 0
                    &&& bytes[1] * 0x100_0000 + bytes[2] * 0x1_0000 + bytes[3] * 0x100 + bytes[4]
                        == data.len()
                    &&& bytes.skip(5) == data
                },
                None => bytes == seq![1u8],
            }
        }),
{
    let answer = match found {
        Some(data) => Answer::Found(data),
        None => Answer::NotFound,
    };
    let views = steps_view(steps);
    law_an_answer_is_written_whole(answer);
    law_an_answer_is_read_back(answer);
    lemma_written_is_concatenation(views);
    let of_view = |step: StepView|
        match step {
            StepView::Write(bytes) => bytes,
            _ => Seq::<u8>::empty(),
        };
    let of_step = |step: Step|
        match step {
            Step::Write(bytes) => bytes@,
            _ => Seq::<u8>::empty(),
        };
    assert(views.map_values(of_view) =~= steps.map_values(of_step)) by {
        assert forall|i: int| 0 <= i < steps.len() implies #[trigger] views.map_values(of_view)[i]
            == steps.map_values(of_step)[i] by {
            assert(views[i] == steps[i]@);
        }
    }
    if let Some(data) = found {
        let bytes = answer.bytes();
        assert(bytes.subrange(1, 5) =~= be_bytes(data.len() as int));
        assert(bytes.skip(5) =~= data);
        assert(bytes[1] == be_bytes(data.len() as int)[0]);
        assert(bytes[2] == be_bytes(data.len() as int)[1]);
        assert(bytes[3] == be_bytes(data.len() as int)[2]);
        assert(bytes[4] == be_bytes(data.len() as int)[3]);
    }
}

/// How data goes out, step by step: after the status and the length, one write of at most
/// [`MAX_MESSAGE_PAYLOAD`] bytes and one flush by turns, and the close at the end. Every piece but
/// the last is as long as a message can be, and the pieces follow each other in the data.
pub proof fn law_data_goes_out_piece_by_piece(steps: Seq<Step>, data: Seq<u8>)
    requires
        steps_view(steps) == answer_steps(Some(data)),
        data.len() <= MAX_RESPONSE_LEN,
    ensures
        steps.len() == 3 + 2 * ((data.len() + MAX_MESSAGE_PAYLOAD - 1) / (
        MAX_MESSAGE_PAYLOAD as int)),
        forall|i: int|
            2 <= i < steps.len() - 1 ==> match #[trigger] steps[i] {
                Step::Write(bytes) => {
                    let from = (i - 2) / 2 * MAX_MESSAGE_PAYLOAD;
                    &&& i % 2 == 0
                    &&& 0 < bytes@.len() <= MAX_MESSAGE_PAYLOAD
                    &&& from + bytes@.len() <= data.len()
                    &&& from + bytes@.len() < data.len() ==> bytes@.len() == MAX_MESSAGE_PAYLOAD
                    &&& bytes@ == data.subrange(from, from + bytes@.len())
                },
                Step::Flush => i % 2 == 1,
                Step::Close => false,
            },
        steps[0] is Write && steps[1] is Write,
        steps[steps.len() - 1] is Close,
{
    lemma_found_steps(steps, data);
}

/// The public IP takes the place of every IP of its version, whatever was bound. IPs of the other
/// version and everything else stay, in their places.
pub proof fn law_the_public_ip_takes_the_place_of_the_bound_one(
    address: Seq<Segment>,
    advertise: Option<IpAddress>,
    dial: Seq<Segment>,
)
    requires
        segments_view(dial) == advertised_segments(segments_view(address), advertise),
    ensures
        dial.len() == address.len(),
        forall|i: int|
            0 <= i < address.len() ==> match (#[trigger] address[i], advertise) {
                (Segment::Ip4(_), Some(IpAddress::V4(public))) => dial[i] matches Segment::Ip4(ip)
                    && ip@ == public@,
                (Segment::Ip6(_), Some(IpAddress::V6(public))) => dial[i] matches Segment::Ip6(ip)
                    && ip@ == public@,
                (Segment::Ip4(bound), _) => dial[i] matches Segment::Ip4(ip) && ip@ == bound@,
                (Segment::Ip6(bound), _) => dial[i] matches Segment::Ip6(ip) && ip@ == bound@,
                (Segment::Other(bytes), _) => dial[i] matches Segment::Other(other) && other@
                    == bytes@,
            },
{
    lemma_advertised(address, advertise, dial);
}

/// An announcement has the address to dial on a line of its own, whole, and after it the address
/// of the data map, if there is one, in hex. An empty line stands before and after.
pub proof fn law_an_announcement_names_the_addresses(
    dial: Seq<char>,
    data_map_address: Option<[u8; ADDRESS_LEN]>,
)
    ensures
        ({
            let lines = announcement_lines(dial, data_map_address);
            &&& lines.len() == if data_map_address is Some {
                4int
            } else {
                3
            }
            &&& lines[0].len() == 0
            &&& lines[1] == "  multiaddr : "@ + dial
            &&& data_map_address matches Some(address) ==> lines[2] == "  fixture   : "@
                + hex_text(address@)
            &&& lines[lines.len() - 1].len() == 0
        }),
{
}

/// An endpoint is dialled at its address with the peer id of its public key.
pub proof fn law_an_endpoint_is_dialled_by_its_peer_id(address: Seq<SegmentView>, public: Seq<u8>)
    ensures
        forall|peer: Seq<u8>|
            peer_id_of(public) == Some(peer) ==> dialled(address, public) == #[trigger] dial_text(
                address,
                peer,
            ),
        peer_id_of(public) is None ==> dialled(address, public) is None,
{
}

} // verus!
