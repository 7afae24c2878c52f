//! The single request that a client makes over a stream, and its answer.
//!
//! There is one request on a stream and no version handshake.
//!
//! ```text
//! Request:  32 bytes              the address to fetch
//! Answer:   0x00 | u32be | data   found, `data` is that many bytes
//!           0x01                  not found
//!           0x02                  refused
//! ```
//!
//! Writing an answer is a list of [`Step`]s for whoever owns the stream.

use crate::address::{parse_address, ADDRESS_LEN};
use crate::error::Error;
use vstd::prelude::*;
use vstd::slice::{slice_subrange, slice_to_vec};

verus! {

/// Protocol id negotiated on each stream.
pub const PROTOCOL: &'static str = "/autonomi-fetch/0.1.0";

/// The first byte of an answer that carries data.
pub const STATUS_OK: u8 = 0x00;

/// The answer if nothing is stored at the address.
pub const STATUS_NOT_FOUND: u8 = 0x01;

/// The answer if the address is not served.
pub const STATUS_REFUSED: u8 = 0x02;

/// Payload bytes per transport message.
///
/// The transport caps a single message at 16 KiB including its framing; staying under that keeps
/// one write to one message.
pub const MAX_MESSAGE_PAYLOAD: usize = 16 * 1024 - 64;

/// Largest answer that is sent.
pub const MAX_RESPONSE_LEN: u32 = 8 * 1024 * 1024;

/// One thing to do with a stream.
#[derive(Debug, PartialEq, Eq)]
pub enum Step {
    /// Write all of these bytes.
    Write(Vec<u8>),
    /// Flush what was written.
    Flush,
    /// Close the writing side.
    Close,
}

/// The value of a [`Step`].
pub enum StepView {
    Write(Seq<u8>),
    Flush,
    Close,
}

impl View for Step {
    type V = StepView;

    open spec fn view(&self) -> StepView {
        match *self {
            Step::Write(bytes) => StepView::Write(bytes@),
            Step::Flush => StepView::Flush,
            Step::Close => StepView::Close,
        }
    }
}

/// The values of a list of steps.
pub open spec fn steps_view(steps: Seq<Step>) -> Seq<StepView> {
    steps.map_values(|step: Step| step@)
}

/// A number as four bytes, most significant first.
pub open spec fn be_bytes(n: int) -> Seq<u8> {
    seq![
        (n / 0x100_0000) as u8,
        (n / 0x1_0000 % 0x100) as u8,
        (n / 0x100 % 0x100) as u8,
        (n % 0x100) as u8,
    ]
}

/// Data one transport message at a time, with a flush after each.
///
/// A write of several messages at once may stall: the transport stores the later ones without
/// driving them, and a flush drives what is stored.
pub open spec fn data_steps(data: Seq<u8>) -> Seq<StepView>
    decreases data.len(),
{
    if data.len() == 0 {
        Seq::empty()
    } else if data.len() <= MAX_MESSAGE_PAYLOAD {
        seq![StepView::Write(data), StepView::Flush]
    } else {
        seq![StepView::Write(data.take(MAX_MESSAGE_PAYLOAD as int)), StepView::Flush] + data_steps(
            data.skip(MAX_MESSAGE_PAYLOAD as int),
        )
    }
}

/// How an answer that carries data is written.
pub open spec fn found_steps(data: Seq<u8>) -> Seq<StepView> {
    seq![StepView::Write(seq![STATUS_OK]), StepView::Write(be_bytes(data.len() as int))]
        + data_steps(data) + seq![StepView::Close]
}

/// How an answer without data is written.
pub open spec fn status_steps(status: u8) -> Seq<StepView> {
    seq![StepView::Write(seq![status]), StepView::Close]
}

/// The steps for data, one by one.
proof fn lemma_data_steps(data: Seq<u8>)
    ensures
        data_steps(data).len() == 2 * ((data.len() + MAX_MESSAGE_PAYLOAD - 1) / (
        MAX_MESSAGE_PAYLOAD as int)),
        forall|j: int|
            0 <= j < data_steps(data).len() ==> match #[trigger] data_steps(data)[j] {
                StepView::Write(bytes) => {
                    let from = j / 2 * MAX_MESSAGE_PAYLOAD;
                    &&& j % 2 == 0
                    &&& 0 < bytes.len() <= MAX_MESSAGE_PAYLOAD
                    &&& from + bytes.len() <= data.len()
                    &&& from + bytes.len() < data.len() ==> bytes.len() == MAX_MESSAGE_PAYLOAD
                    &&& bytes == data.subrange(from, from + bytes.len())
                },
                StepView::Flush => j % 2 == 1,
                StepView::Close => false,
            },
    decreases data.len(),
{
    let steps = data_steps(data);
    if data.len() <= MAX_MESSAGE_PAYLOAD {
        assert(data =~= data.subrange(0, data.len() as int));
    } else {
        let head = data.take(MAX_MESSAGE_PAYLOAD as int);
        let rest = data.skip(MAX_MESSAGE_PAYLOAD as int);
        let inner = data_steps(rest);
        lemma_data_steps(rest);
        assert(head =~= data.subrange(0, head.len() as int));
        let n = data.len() as int;
        let p = MAX_MESSAGE_PAYLOAD as int;
        assert((n + p - 1) / p == (n - p + p - 1) / p + 1) by (nonlinear_arith)
            requires
                p == 16320,
        ;
        assert forall|j: int| 0 <= j < steps.len() implies match #[trigger] steps[j] {
            StepView::Write(bytes) => {
                let from = j / 2 * MAX_MESSAGE_PAYLOAD;
                &&& j % 2 == 0
                &&& 0 < bytes.len() <= MAX_MESSAGE_PAYLOAD
                &&& from + bytes.len() <= data.len()
                &&& from + bytes.len() < data.len() ==> bytes.len() == MAX_MESSAGE_PAYLOAD
                &&& bytes == data.subrange(from, from + bytes.len())
            },
            StepView::Flush => j % 2 == 1,
            StepView::Close => false,
        } by {
            if j < 2 {
                assert(j / 2 * MAX_MESSAGE_PAYLOAD == 0) by (nonlinear_arith)
                    requires
                        j / 2 == 0,
                ;
            } else {
                assert(steps[j] == inner[j - 2]);
                let k = (j - 2) / 2;
                assert(j / 2 == k + 1);
                assert((k + 1) * MAX_MESSAGE_PAYLOAD == k * MAX_MESSAGE_PAYLOAD
                    + MAX_MESSAGE_PAYLOAD) by (nonlinear_arith);
                assert(k * MAX_MESSAGE_PAYLOAD >= 0) by (nonlinear_arith)
                    requires
                        k >= 0,
                ;
                if let StepView::Write(bytes) = inner[j - 2] {
                    let from = (j - 2) / 2 * MAX_MESSAGE_PAYLOAD;
                    assert(bytes == rest.subrange(from, from + bytes.len()));
                    assert(bytes =~= data.subrange(
                        j / 2 * MAX_MESSAGE_PAYLOAD,
                        j / 2 * MAX_MESSAGE_PAYLOAD + bytes.len(),
                    ));
                }
            }
        }
    }
}

/// The steps of an answer that carries data, one by one.
pub proof fn lemma_found_steps(steps: Seq<Step>, data: Seq<u8>)
    requires
        steps_view(steps) == found_steps(data),
        data.len() <= MAX_RESPONSE_LEN,
    ensures
        ({
            &&& steps.len() == 3 + 2 * ((data.len() + MAX_MESSAGE_PAYLOAD - 1) / (
            MAX_MESSAGE_PAYLOAD as int))
            &&& steps[0] matches Step::Write(status) && status@ == seq![STATUS_OK]
            &&& steps[1] matches Step::Write(prefix) && prefix@.len() == 4 && prefix@[0] * 0x100_0000
                + prefix@[1] * 0x1_0000 + prefix@[2] * 0x100 + prefix@[3] == data.len()
            &&& forall|i: int|
                2 <= i < steps.len() - 1 ==> match #[trigger] steps[i] {
                    Step::Write(bytes) => {
                        let from = (i - 2) / 2 * MAX_MESSAGE_PAYLOAD;
                        &&& i % 2 == 0
                        &&& 0 < bytes@.len() <= MAX_MESSAGE_PAYLOAD
                        &&& from + bytes@.len() <= data.len()
                        &&& from + bytes@.len() < data.len() ==> bytes@.len() == MAX_MESSAGE_PAYLOAD
                        &&& bytes@ == data.subrange(from, from + bytes@.len())
                    },
                    Step::Flush => i % 2 == 1,
                    Step::Close => false,
                }
            &&& steps[steps.len() - 1] is Close
        }),
{
    let views = found_steps(data);
    let inner = data_steps(data);
    lemma_data_steps(data);
    assert(views.len() == steps.len());
    assert(views[0] == steps[0]@);
    assert(views[1] == steps[1]@);
    assert(views[views.len() - 1] == steps[steps.len() - 1]@);
    assert forall|i: int| 2 <= i < steps.len() - 1 implies match #[trigger] steps[i] {
        Step::Write(bytes) => {
            let from = (i - 2) / 2 * MAX_MESSAGE_PAYLOAD;
            &&& i % 2 == 0
            &&& 0 < bytes@.len() <= MAX_MESSAGE_PAYLOAD
            &&& from + bytes@.len() <= data.len()
            &&& from + bytes@.len() < data.len() ==> bytes@.len() == MAX_MESSAGE_PAYLOAD
            &&& bytes@ == data.subrange(from, from + bytes@.len())
        },
        Step::Flush => i % 2 == 1,
        Step::Close => false,
    } by {
        assert(views[i] == steps[i]@);
        assert(views[i] == inner[i - 2]);
    }
}

/// Read a request address off what a stream gave until it had 32 bytes or ended.
pub fn read_request(received: &[u8]) -> (address: Result<[u8; ADDRESS_LEN], Error>)
    ensures
        match address {
            Ok(address) => received@.len() >= ADDRESS_LEN && address@ == received@.take(
                ADDRESS_LEN as int,
            ),
            Err(error) => received@.len() < ADDRESS_LEN && error@ == "unexpected end of file"@,
        },
{
    if received.len() < ADDRESS_LEN {
        return Err(Error::new("unexpected end of file".to_owned()));
    }
    let address = parse_address(slice_subrange(received, 0, ADDRESS_LEN));
    assert(received@.subrange(0, ADDRESS_LEN as int) =~= received@.take(ADDRESS_LEN as int));
    address
}

/// The steps that write a successful answer, then close the stream.
pub fn write_found(data: &[u8]) -> (steps: Result<Vec<Step>, Error>)
    ensures
        match steps {
            Ok(steps) => {
                &&& data@.len() <= MAX_RESPONSE_LEN
                &&& steps_view(steps@) == found_steps(data@)
                &&& steps@.len() == 3 + 2 * ((data@.len() + MAX_MESSAGE_PAYLOAD - 1) / (
                MAX_MESSAGE_PAYLOAD as int))
                &&& steps@[0] matches Step::Write(status) && status@ == seq![STATUS_OK]
                &&& steps@[1] matches Step::Write(prefix) && prefix@.len() == 4 && prefix@[0] * 0x100_0000
                    + prefix@[1] * 0x1_0000 + prefix@[2] * 0x100 + prefix@[3] == data@.len()
                &&& forall|i: int|
                    2 <= i < steps@.len() - 1 ==> match #[trigger] steps@[i] {
                        Step::Write(bytes) => {
                            let from = (i - 2) / 2 * MAX_MESSAGE_PAYLOAD;
                            &&& i % 2 == 0
                            &&& 0 < bytes@.len() <= MAX_MESSAGE_PAYLOAD
                            &&& from + bytes@.len() <= data@.len()
                            &&& from + bytes@.len() < data@.len() ==> bytes@.len() == MAX_MESSAGE_PAYLOAD
                            &&& bytes@ == data@.subrange(from, from + bytes@.len())
                        },
                        Step::Flush => i % 2 == 1,
                        Step::Close => false,
                    }
                &&& steps@[steps@.len() - 1] is Close
            },
            Err(error) => {
                ||| data@.len() > u32::MAX && error@ == "chunk exceeds u32 length"@
                ||| MAX_RESPONSE_LEN < data@.len() <= u32::MAX && error@
                    == "chunk exceeds maximum response length"@
            },
        },
{
    let len = data.len();
    if len > 0xffff_ffff {
        return Err(Error::new("chunk exceeds u32 length".to_owned()));
    }
    if len > MAX_RESPONSE_LEN as usize {
        return Err(Error::new("chunk exceeds maximum response length".to_owned()));
    }
    let mut status: Vec<u8> = Vec::new();
    status.push(STATUS_OK);
    let mut prefix: Vec<u8> = Vec::new();
    prefix.push((len / 0x100_0000) as u8);
    prefix.push((len / 0x1_0000 % 0x100) as u8);
    prefix.push((len / 0x100 % 0x100) as u8);
    prefix.push((len % 0x100) as u8);
    let mut steps: Vec<Step> = Vec::new();
    assert(status@ =~= seq![STATUS_OK]);
    assert(prefix@ =~= be_bytes(len as int));
    steps.push(Step::Write(status));
    steps.push(Step::Write(prefix));
    let ghost head = steps_view(steps@);
    assert(head =~= seq![
        StepView::Write(seq![STATUS_OK]),
        StepView::Write(be_bytes(data@.len() as int)),
    ]);
    let mut start: usize = 0;
    assert(data@.skip(0) =~= data@);
    while start < len
        invariant
            start <= len,
            len == data@.len(),
            len <= MAX_RESPONSE_LEN,
            head + data_steps(data@) == steps_view(steps@) + data_steps(data@.skip(start as int)),
        decreases len - start,
    {
        let end: usize = if len - start <= MAX_MESSAGE_PAYLOAD {
            len
        } else {
            start + MAX_MESSAGE_PAYLOAD
        };
        let ghost before = steps_view(steps@);
        let piece = slice_to_vec(slice_subrange(data, start, end));
        steps.push(Step::Write(piece));
        steps.push(Step::Flush);
        proof {
            let rest = data@.skip(start as int);
            let written = seq![StepView::Write(piece@), StepView::Flush];
            assert(steps_view(steps@) =~= before + written);
            assert(data_steps(rest) =~= written + data_steps(data@.skip(end as int))) by {
                if len - start <= MAX_MESSAGE_PAYLOAD {
                    assert(piece@ =~= rest);
                    assert(data@.skip(end as int) =~= Seq::<u8>::empty());
                } else {
                    assert(piece@ =~= rest.take(MAX_MESSAGE_PAYLOAD as int));
                    assert(data@.skip(end as int) =~= rest.skip(MAX_MESSAGE_PAYLOAD as int));
                }
            }
            assert(before + data_steps(rest) =~= steps_view(steps@) + data_steps(
                data@.skip(end as int),
            ));
        }
        start = end;
    }
    let ghost before = steps_view(steps@);
    steps.push(Step::Close);
    proof {
        assert(data@.skip(start as int) =~= Seq::<u8>::empty());
        assert(before + data_steps(data@.skip(start as int)) =~= before);
        assert(steps_view(steps@) =~= before + seq![StepView::Close]);
        lemma_found_steps(steps@, data@);
    }
    Ok(steps)
}

/// Whether to read on while waiting for the other side to close, given what a read gave: how
/// many bytes, or `None` if it failed.
///
/// A stream that is dropped before the other side has closed is reset, and the reset can reach
/// the other side while it still reads the answer. A failed read is the end too: a client that
/// vanished is not waited for.
pub fn drain_to_eof(read: Option<usize>) -> (again: bool)
    ensures
        again == (read matches Some(count) && count > 0),
{
    match read {
        Some(count) => count > 0,
        None => false,
    }
}

/// The steps that write an answer without data, then close the stream.
pub fn write_status(status: u8) -> (steps: Vec<Step>)
    ensures
        steps_view(steps@) == status_steps(status),
        steps@.len() == 2,
        steps@[0] matches Step::Write(bytes) && bytes@ == seq![status],
        steps@[1] is Close,
{
    let mut bytes: Vec<u8> = Vec::new();
    bytes.push(status);
    assert(bytes@ =~= seq![status]);
    let mut steps: Vec<Step> = Vec::new();
    steps.push(Step::Write(bytes));
    steps.push(Step::Close);
    assert(steps_view(steps@) =~= status_steps(status));
    steps
}

} // verus!
