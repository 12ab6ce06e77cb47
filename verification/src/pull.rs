//! Receiving a file from a device.

use vstd::prelude::*;

use crate::adb::SyncCommand;
use crate::error::{DeviceError, ErrorView, Outcome, Result};
use crate::response;
use crate::sync;
use crate::wire;

verus! {

/// How far a file was received.
#[derive(Debug, Clone, Copy, PartialEq, Eq, Structural)]
pub enum PullState {
    /// A word comes next.
    Id,
    /// The length of a piece of the file comes next.
    DataLength,
    /// A piece of the file comes next.
    Data(usize),
    /// The transfer failed; the length of the message comes next.
    FailLength,
    /// The message of the failure comes next.
    FailMessage(usize),
}

/// A reader of one file.
#[derive(Debug, Clone, Copy, PartialEq, Eq, Structural)]
pub struct Pull {
    pub state: PullState,
}

/// What follows from some bytes of a transfer.
#[derive(Debug)]
pub enum PullStep {
    /// More has to be read.
    Continue(Pull),
    /// These bytes are the next ones of the file; then more has to be read.
    Deliver(Vec<u8>, Pull),
    /// The transfer is complete.
    Done(Result<()>),
}

/// What a step says.
pub enum PullStepView {
    Continue(Pull),
    Deliver(Seq<u8>, Pull),
    Done(Outcome<()>),
}

impl View for PullStep {
    type V = PullStepView;

    open spec fn view(&self) -> PullStepView {
        match *self {
            PullStep::Continue(pull) => PullStepView::Continue(pull),
            PullStep::Deliver(bytes, pull) => PullStepView::Deliver(bytes@, pull),
            PullStep::Done(Ok(_)) => PullStepView::Done(Ok(())),
            PullStep::Done(Err(e)) => PullStepView::Done(Err(e@)),
        }
    }
}

impl Pull {
    /// A reader of a fresh transfer.
    pub fn new() -> (r: Pull)
        ensures
            r == (Pull { state: PullState::Id }),
    {
        Pull { state: PullState::Id }
    }

    /// How many bytes come next.
    pub open spec fn wanted(self) -> usize {
        match self.state {
            PullState::Id => 4,
            PullState::DataLength => 4,
            PullState::Data(n) => n,
            PullState::FailLength => 4,
            PullState::FailMessage(n) => n,
        }
    }

    /// The bytes are as many as asked for, and announce no piece that is
    /// longer than what is received at once.
    pub open spec fn takes(self, bytes: Seq<u8>) -> bool {
        &&& bytes.len() == self.wanted()
        &&& self.state is DataLength ==> wire::little_endian(bytes) <= sync::MAX_RECEIVED
    }

    /// What follows when the wanted bytes are these.
    pub open spec fn step(self, bytes: Seq<u8>) -> PullStepView {
        match self.state {
            PullState::Id => if bytes == SyncCommand::Data.bytes() {
                PullStepView::Continue(Pull { state: PullState::DataLength })
            } else if bytes == SyncCommand::Done.bytes() {
                PullStepView::Done(Ok(()))
            } else if bytes == SyncCommand::Fail.bytes() {
                PullStepView::Continue(Pull { state: PullState::FailLength })
            } else {
                PullStepView::Done(Err(sync::unknown_word()))
            },
            PullState::DataLength => PullStepView::Continue(
                Pull { state: PullState::Data(wire::little_endian(bytes) as usize) },
            ),
            PullState::Data(_) => PullStepView::Deliver(bytes, Pull { state: PullState::Id }),
            PullState::FailLength => PullStepView::Continue(
                Pull {
                    state: PullState::FailMessage(
                        sync::capped(wire::little_endian(bytes), sync::MAX_RECEIVED),
                    ),
                },
            ),
            PullState::FailMessage(_) => PullStepView::Done(Err(sync::sync_failure(bytes))),
        }
    }

    /// How many bytes to read next.
    pub fn request(&self) -> (n: usize)
        ensures
            n == self.wanted(),
    {
        match self.state {
            PullState::Id => 4,
            PullState::DataLength => 4,
            PullState::Data(n) => n,
            PullState::FailLength => 4,
            PullState::FailMessage(n) => n,
        }
    }

    /// Whether the reader can take these bytes.
    pub fn accepts(&self, bytes: &Vec<u8>) -> (r: bool)
        ensures
            r == self.takes(bytes@),
    {
        if bytes.len() != self.request() {
            return false;
        }
        match self.state {
            PullState::DataLength => {
                assert(bytes@.take(4) =~= bytes@);
                wire::read_length_little_endian(&response::first_four(bytes)) <= sync::MAX_RECEIVED
            },
            _ => true,
        }
    }

    /// Takes the bytes that were asked for.
    pub fn supply(self, bytes: Vec<u8>) -> (r: PullStep)
        requires
            self.takes(bytes@),
        ensures
            r@ == self.step(bytes@),
    {
        match self.state {
            PullState::Id => {
                if sync::is_word(&bytes, SyncCommand::Data) {
                    PullStep::Continue(Pull { state: PullState::DataLength })
                } else if sync::is_word(&bytes, SyncCommand::Done) {
                    PullStep::Done(Ok(()))
                } else if sync::is_word(&bytes, SyncCommand::Fail) {
                    PullStep::Continue(Pull { state: PullState::FailLength })
                } else {
                    PullStep::Done(Err(DeviceError::Adb("FAIL (unknown)".to_owned())))
                }
            },
            PullState::DataLength => {
                assert(bytes@.take(4) =~= bytes@);
                let n: usize = wire::read_length_little_endian(&response::first_four(&bytes));
                PullStep::Continue(Pull { state: PullState::Data(n) })
            },
            PullState::Data(_) => PullStep::Deliver(bytes, Pull { state: PullState::Id }),
            PullState::FailLength => {
                let n: usize = sync::read_capped(&bytes, sync::MAX_RECEIVED);
                PullStep::Continue(Pull { state: PullState::FailMessage(n) })
            },
            PullState::FailMessage(_) => PullStep::Done(Err(sync::read_failure(&bytes))),
        }
    }

    /// What is received from a stream that holds these bytes and then ends:
    /// the content, and how the transfer ends. It is `None` where the stream
    /// ends early, or announces a piece that is too long.
    pub open spec fn received(self, stream: Seq<u8>) -> Option<(Seq<u8>, Outcome<()>)>
        decreases
            stream.len(),
            (if self.state is Data {
                1int
            } else {
                0int
            }),
    {
        let n = self.wanted() as int;
        if stream.len() < n || !self.takes(stream.take(n)) {
            None
        } else {
            match self.step(stream.take(n)) {
                PullStepView::Done(o) => Some((seq![], o)),
                PullStepView::Continue(next) => next.received(stream.skip(n)),
                PullStepView::Deliver(bytes, next) => match next.received(stream.skip(n)) {
                    Some((content, o)) => Some((bytes + content, o)),
                    None => None,
                },
            }
        }
    }
}

proof fn lemma_received_step(pull: Pull, bytes: Seq<u8>, tail: Seq<u8>)
    requires
        pull.takes(bytes),
    ensures
        pull.received(bytes + tail) == (match pull.step(bytes) {
            PullStepView::Done(o) => Some((seq![], o)),
            PullStepView::Continue(next) => next.received(tail),
            PullStepView::Deliver(piece, next) => match next.received(tail) {
                Some((content, o)) => Some((piece + content, o)),
                None => None,
            },
        }),
{
    let n = bytes.len() as int;
    assert((bytes + tail).take(n) =~= bytes);
    assert((bytes + tail).skip(n) =~= tail);
}

/// The pieces of a file as they are sent, one after the other.
pub open spec fn data_frames(pieces: Seq<Seq<u8>>) -> Seq<u8>
    decreases pieces.len(),
{
    if pieces.len() == 0 {
        seq![]
    } else {
        sync::frame(SyncCommand::Data, pieces[0]) + data_frames(pieces.drop_first())
    }
}

/// The pieces put together.
pub open spec fn joined(pieces: Seq<Seq<u8>>) -> Seq<u8>
    decreases pieces.len(),
{
    if pieces.len() == 0 {
        seq![]
    } else {
        pieces[0] + joined(pieces.drop_first())
    }
}

/// One piece is received, and then what follows it.
proof fn lemma_frame_received(piece: Seq<u8>, tail: Seq<u8>)
    requires
        piece.len() <= sync::MAX_RECEIVED,
    ensures
        ({
            let start = Pull { state: PullState::Id };
            start.received(sync::frame(SyncCommand::Data, piece) + tail) == (match start.received(
                tail,
            ) {
                Some((content, o)) => Some((piece + content, o)),
                None => None,
            })
        }),
{
    let start = Pull { state: PullState::Id };
    let at_length = Pull { state: PullState::DataLength };
    let at_data = Pull { state: PullState::Data(piece.len() as usize) };
    let word = SyncCommand::Data.bytes();
    let length = wire::little_endian_bytes(piece.len());
    let after_length = piece + tail;
    let after_word = length + after_length;
    assert(sync::frame(SyncCommand::Data, piece) + tail =~= word + after_word);
    wire::lemma_length_read_back(piece.len());
    lemma_received_step(start, word, after_word);
    lemma_received_step(at_length, length, after_length);
    assert(at_length.step(length) == PullStepView::Continue(at_data));
    lemma_received_step(at_data, piece, tail);
}

// Laws

/// Pieces that are sent and then closed with the word for the end are received
/// as the file that they make up.
pub proof fn law_frames_are_received(pieces: Seq<Seq<u8>>, rest: Seq<u8>)
    requires
        forall|i: int| 0 <= i < pieces.len() ==> (#[trigger] pieces[i]).len() <= 65536,
    ensures
        (Pull { state: PullState::Id }).received(
            data_frames(pieces) + SyncCommand::Done.bytes() + rest,
        ) == Some((joined(pieces), Ok::<(), ErrorView>(()))),
    decreases pieces.len(),
{
    let start = Pull { state: PullState::Id };
    let done = SyncCommand::Done.bytes();
    if pieces.len() == 0 {
        assert(data_frames(pieces) + done + rest =~= done + rest);
        assert(SyncCommand::Data.bytes()[1] != done[1]);
        lemma_received_step(start, done, rest);
    } else {
        let piece = pieces[0];
        let others = pieces.drop_first();
        let tail = data_frames(others) + done + rest;
        assert(data_frames(pieces) + done + rest =~= sync::frame(SyncCommand::Data, piece) + tail);
        lemma_frame_received(piece, tail);
        assert forall|i: int| 0 <= i < others.len() implies (#[trigger] others[i]).len()
            <= 65536 by {
            assert(pieces[i + 1].len() <= 65536);
        }
        law_frames_are_received(others, rest);
    }
}

/// A transfer that the device refuses ends with the device's message, and
/// nothing is received.
pub proof fn law_refused_pull(message: Seq<char>, rest: Seq<u8>)
    requires
        vstd::utf8::encode_utf8(message).len() <= 65536,
    ensures
        (Pull { state: PullState::Id }).received(
            sync::frame(SyncCommand::Fail, vstd::utf8::encode_utf8(message)) + rest,
        ) == Some(
            (
                Seq::<u8>::empty(),
                Err::<(), ErrorView>(ErrorView::Adb("adb error: "@ + message)),
            ),
        ),
{
    let start = Pull { state: PullState::Id };
    let body = vstd::utf8::encode_utf8(message);
    let word = SyncCommand::Fail.bytes();
    let length = wire::little_endian_bytes(body.len());
    assert(sync::frame(SyncCommand::Fail, body) + rest =~= word + (length + (body + rest)));
    assert(SyncCommand::Data.bytes()[0] != word[0]);
    assert(SyncCommand::Done.bytes()[0] != word[0]);
    wire::law_little_endian_round_trip(body.len());
    lemma_received_step(start, word, length + (body + rest));
    let at_length = Pull { state: PullState::FailLength };
    lemma_received_step(at_length, length, body + rest);
    let at_message = Pull { state: PullState::FailMessage(body.len() as usize) };
    assert(at_length.step(length) == PullStepView::Continue(at_message));
    lemma_received_step(at_message, body, rest);
    vstd::utf8::encode_utf8_valid_utf8(message);
    vstd::utf8::encode_utf8_decode_utf8(message);
}

/// A piece of up to 65536 bytes is received as it was sent, behind what came
/// before it and in front of what follows.
pub proof fn law_piece_is_received_as_it_was_sent(piece: Seq<u8>, tail: Seq<u8>)
    requires
        piece.len() <= 65536,
    ensures
        ({
            let start = Pull { state: PullState::Id };
            let sent = seq![0x44u8, 0x41, 0x54, 0x41] + wire::little_endian_bytes(piece.len())
                + piece;
            start.received(sent + tail) == (match start.received(tail) {
                Some((content, o)) => Some((piece + content, o)),
                None => None,
            })
        }),
{
    assert(SyncCommand::Data.bytes() =~= seq![0x44u8, 0x41, 0x54, 0x41]);
    lemma_frame_received(piece, tail);
}

/// The pieces put together are the pieces one after the other.
pub proof fn law_pieces_are_joined_in_order(pieces: Seq<Seq<u8>>)
    ensures
        joined(pieces) == pieces.flatten(),
    decreases pieces.len(),
{
    if pieces.len() == 0 {
        assert(pieces.flatten() =~= seq![]);
    } else {
        law_pieces_are_joined_in_order(pieces.drop_first());
        assert(pieces =~= seq![pieces[0]] + pieces.drop_first());
        vstd::seq_lib::lemma_flatten_concat(seq![pieces[0]], pieces.drop_first());
        seq![pieces[0]].lemma_flatten_singleton();
    }
}

/// A transfer ends with the word for its end. A word that has no place there is
/// an error.
pub proof fn law_transfer_ends(word: Seq<u8>, rest: Seq<u8>)
    requires
        word.len() == 4,
    ensures
        ({
            let start = Pull { state: PullState::Id };
            &&& word == SyncCommand::Done.bytes() ==> start.received(word + rest) == Some(
                (Seq::<u8>::empty(), Ok::<(), ErrorView>(())),
            )
            &&& word != SyncCommand::Done.bytes() && word != SyncCommand::Data.bytes() && word
                != SyncCommand::Fail.bytes() ==> start.received(word + rest) == Some(
                (Seq::<u8>::empty(), Err::<(), ErrorView>(ErrorView::Adb("FAIL (unknown)"@))),
            )
        }),
{
    let start = Pull { state: PullState::Id };
    assert(SyncCommand::Data.bytes()[1] != SyncCommand::Done.bytes()[1]);
    lemma_received_step(start, word, rest);
}

/// A transfer that fails is answered with the message of the failure: as many
/// bytes as were announced, but no more than 65536.
pub proof fn law_failed_pull_is_answered_with_its_message(
    n: nat,
    message: Seq<u8>,
    rest: Seq<u8>,
)
    requires
        n < 0x1_0000_0000,
        message.len() == if n < 65536 {
            n
        } else {
            65536
        },
    ensures
        (Pull { state: PullState::Id }).received(
            SyncCommand::Fail.bytes() + (wire::little_endian_bytes(n) + (message + rest)),
        ) == Some(
            (
                Seq::<u8>::empty(),
                Err::<(), ErrorView>(
                    match wire::utf8_outcome(message) {
                        Ok(words) => ErrorView::Adb("adb error: "@ + words),
                        Err(_) => ErrorView::Adb("adb error was not utf-8"@),
                    },
                ),
            ),
        ),
{
    let start = Pull { state: PullState::Id };
    let at_length = Pull { state: PullState::FailLength };
    let at_message = Pull { state: PullState::FailMessage(message.len() as usize) };
    let word = SyncCommand::Fail.bytes();
    let length = wire::little_endian_bytes(n);
    assert(SyncCommand::Data.bytes()[0] != word[0]);
    assert(SyncCommand::Done.bytes()[0] != word[0]);
    wire::lemma_length_read_back(n);
    lemma_received_step(start, word, length + (message + rest));
    lemma_received_step(at_length, length, message + rest);
    assert(at_length.step(length) == PullStepView::Continue(at_message));
    lemma_received_step(at_message, message, rest);
}

} // verus!
