//! Reading the answer of the adb server to a request.
//!
//! The reader never touches a stream. It says how many bytes it wants next, is
//! handed those bytes, and then either wants more or is done.

use vstd::prelude::*;

use crate::adb::SyncCommand;
use crate::error;
use crate::error::{DeviceError, ErrorView, Outcome, Result};
use crate::text;
use crate::wire;

verus! {

/// The longest error message that is read from the server.
pub const MAX_ERROR: usize = 1024;

/// What to read from a stream.
#[derive(Debug, Clone, Copy, PartialEq, Eq, Structural)]
pub enum ReadRequest {
    /// Exactly this many bytes.
    Exact(usize),
    /// Everything until the stream ends.
    ToEnd,
}

/// How far the answer was read.
#[derive(Debug, Clone, Copy, PartialEq, Eq, Structural)]
pub enum ResponseState {
    /// The status word comes next.
    Status,
    /// The request was refused; the length of the message comes next.
    FailLength,
    /// The message of the refusal comes next, or the first bytes of it.
    FailMessage(usize),
    /// The request was accepted; its output comes next.
    Output,
}

/// A reader of one answer.
#[derive(Debug, Clone, Copy, PartialEq, Eq, Structural)]
pub struct ResponseReader {
    /// The accepted request has output, which ends with the stream.
    pub has_output: bool,
    /// The output begins with its length.
    pub has_length: bool,
    /// Output with a length is traced as text, and so has to be text.
    pub traced: bool,
    pub state: ResponseState,
}

/// What follows from some bytes of the answer.
#[derive(Debug)]
pub enum ResponseStep {
    /// More has to be read.
    Continue(ResponseReader),
    /// The answer is complete.
    Done(Result<Vec<u8>>),
}

/// What a step says, with errors seen through their view.
pub enum ResponseStepView {
    Continue(ResponseReader),
    Done(Outcome<Seq<u8>>),
}

impl View for ResponseStep {
    type V = ResponseStepView;

    open spec fn view(&self) -> ResponseStepView {
        match *self {
            ResponseStep::Continue(reader) => ResponseStepView::Continue(reader),
            ResponseStep::Done(r) => ResponseStepView::Done(error::outcome(r)),
        }
    }
}

/// The form in which `{:?}` writes a string.
pub uninterp spec fn debug_form(s: Seq<char>) -> Seq<char>;

/// `format!("{:?}", s)`: the debug form of a string is a function of its
/// characters. How characters are escaped in it is left unsaid.
#[verifier::external_body]
fn debug_text(s: &str) -> (r: String)
    ensures
        r@ == debug_form(s@),
{
    format!("{:?}", s)
}

/// The error for a message of the server.
pub open spec fn server_error(bytes: Seq<u8>) -> Outcome<Seq<u8>> {
    match wire::utf8_outcome(bytes) {
        Ok(message) => Err(ErrorView::Adb("adb error: "@ + message)),
        Err(e) => Err(e),
    }
}

/// Output without the status word that the server may repeat in front of it.
pub open spec fn inner_output(bytes: Seq<u8>) -> Seq<u8> {
    if SyncCommand::Okay.bytes().is_prefix_of(bytes) {
        bytes.skip(4)
    } else {
        bytes
    }
}

/// The output reports a failure and ends within the failure's eight-byte head.
pub open spec fn cut_failure(bytes: Seq<u8>) -> bool {
    SyncCommand::Fail.bytes().is_prefix_of(inner_output(bytes)) && inner_output(bytes).len() < 8
}

/// A message, which has to be text where it is traced.
pub open spec fn traced_outcome(message: Seq<u8>, traced: bool) -> Outcome<Seq<u8>> {
    match wire::utf8_outcome(message) {
        Err(e) => if traced {
            Err(e)
        } else {
            Ok(message)
        },
        Ok(_) => Ok(message),
    }
}

/// What the whole output of an accepted request amounts to. It may repeat the
/// status word, and it may itself report a failure: the word, four bytes of
/// length, and a message. Where a length is announced, it is taken off, and what
/// is left has to be text where it is traced.
pub open spec fn output_outcome(bytes: Seq<u8>, has_length: bool, traced: bool) -> Outcome<
    Seq<u8>,
> {
    let output = inner_output(bytes);
    if SyncCommand::Fail.bytes().is_prefix_of(output) {
        server_error(output.skip(8))
    } else if !has_length {
        Ok(output)
    } else if output.len() >= 4 {
        match wire::host_length(output.take(4)) {
            Ok(_) => traced_outcome(output.skip(4), traced),
            Err(e) => Err(e),
        }
    } else {
        match wire::utf8_outcome(output) {
            Ok(text) => Err(
                ErrorView::Adb(
                    "adb server response did not contain expected hexstring length: "@
                        + debug_form(text),
                ),
            ),
            Err(e) => Err(e),
        }
    }
}

fn refusal(bytes: &[u8]) -> (r: Result<Vec<u8>>)
    ensures
        error::outcome(r) == server_error(bytes@),
{
    match wire::decode_text(bytes) {
        Ok(message) => Err(DeviceError::Adb(text::concat2("adb error: ", message.as_str()))),
        Err(e) => Err(e),
    }
}

/// Whether the output reports a failure and ends within the failure's head.
pub fn is_cut_failure(bytes: &Vec<u8>) -> (r: bool)
    ensures
        r == cut_failure(bytes@),
{
    let start: usize = if SyncCommand::Okay.leads(bytes) {
        4
    } else {
        0
    };
    let output: Vec<u8> = vstd::slice::slice_to_vec(
        vstd::slice::slice_subrange(bytes.as_slice(), start, bytes.len()),
    );
    assert(output@ =~= inner_output(bytes@));
    SyncCommand::Fail.leads(&output) && output.len() < 8
}

/// The first four bytes, as an array.
pub fn first_four(bytes: &Vec<u8>) -> (r: [u8; 4])
    requires
        bytes@.len() >= 4,
    ensures
        r@ == bytes@.take(4),
{
    let r: [u8; 4] = [bytes[0], bytes[1], bytes[2], bytes[3]];
    assert(r@ =~= bytes@.take(4));
    r
}

/// Takes the whole output of an accepted request apart.
pub fn read_output(bytes: Vec<u8>, has_length: bool, traced: bool) -> (r: Result<Vec<u8>>)
    requires
        !cut_failure(bytes@),
    ensures
        error::outcome(r) == output_outcome(bytes@, has_length, traced),
{
    let ghost all = bytes@;
    let mut output: Vec<u8> = bytes;
    if SyncCommand::Okay.leads(&output) {
        output = output.split_off(4);
        assert(output@ =~= all.skip(4));
    }
    assert(output@ == inner_output(all));
    if SyncCommand::Fail.leads(&output) {
        let ghost failure = output@;
        let message: Vec<u8> = output.split_off(8);
        assert(message@ =~= failure.skip(8));
        return refusal(message.as_slice());
    }
    if !has_length {
        return Ok(output);
    }
    if output.len() >= 4 {
        match wire::read_length(&first_four(&output)) {
            Ok(_) => {
                let ghost framed = output@;
                let message: Vec<u8> = output.split_off(4);
                assert(message@ =~= framed.skip(4));
                if traced {
                    match wire::decode_text(message.as_slice()) {
                        Ok(_) => Ok(message),
                        Err(e) => Err(e),
                    }
                } else {
                    Ok(message)
                }
            },
            Err(e) => Err(e),
        }
    } else {
        match wire::decode_text(output.as_slice()) {
            Ok(text) => Err(
                DeviceError::Adb(
                    text::concat2(
                        "adb server response did not contain expected hexstring length: ",
                        debug_text(text.as_str()).as_str(),
                    ),
                ),
            ),
            Err(e) => Err(e),
        }
    }
}

/// The length that framed output announces. Output that reports a failure, or
/// that does not begin with a length, announces none.
pub open spec fn announced(bytes: Seq<u8>) -> Option<nat> {
    let output = inner_output(bytes);
    if SyncCommand::Fail.bytes().is_prefix_of(output) || output.len() < 4 {
        None
    } else {
        match wire::host_length(output.take(4)) {
            Ok(n) => Some(n),
            Err(_) => None,
        }
    }
}

/// The length that framed output announces, and the length of what follows it.
pub fn announced_length(bytes: &Vec<u8>) -> (r: Option<(usize, usize)>)
    ensures
        match r {
            Some((n, present)) => announced(bytes@) == Some(n as nat) && present == inner_output(
                bytes@,
            ).len() - 4,
            None => announced(bytes@) is None,
        },
{
    let start: usize = if SyncCommand::Okay.leads(bytes) {
        4
    } else {
        0
    };
    let output: Vec<u8> = vstd::slice::slice_to_vec(
        vstd::slice::slice_subrange(bytes.as_slice(), start, bytes.len()),
    );
    assert(output@ =~= inner_output(bytes@));
    if SyncCommand::Fail.leads(&output) || output.len() < 4 {
        return None;
    }
    match wire::read_length(&first_four(&output)) {
        Ok(n) => Some((n, output.len() - 4)),
        Err(_) => None,
    }
}

/// Begins to read an answer. `has_output` says that the accepted request has
/// output, which ends with the stream; `has_length`, that the output begins
/// with its length; `traced`, that output with a length is traced as text.
pub fn read_response(has_output: bool, has_length: bool, traced: bool) -> (r: ResponseReader)
    ensures
        r == fresh(has_output, has_length, traced),
{
    ResponseReader { has_output, has_length, traced, state: ResponseState::Status }
}

impl ResponseReader {
    pub open spec fn at(self, state: ResponseState) -> ResponseReader {
        ResponseReader { state, ..self }
    }

    pub open spec fn wanted(self) -> ReadRequest {
        match self.state {
            ResponseState::Status => ReadRequest::Exact(4),
            ResponseState::FailLength => ReadRequest::Exact(4),
            ResponseState::FailMessage(n) => ReadRequest::Exact(n),
            ResponseState::Output => ReadRequest::ToEnd,
        }
    }

    /// The bytes are what was asked for.
    pub open spec fn takes(self, bytes: Seq<u8>) -> bool {
        match self.wanted() {
            ReadRequest::Exact(n) => bytes.len() == n,
            ReadRequest::ToEnd => true,
        }
    }

    /// What follows when the wanted bytes are these.
    pub open spec fn step(self, bytes: Seq<u8>) -> ResponseStepView {
        match self.state {
            ResponseState::Status => if !SyncCommand::Okay.bytes().is_prefix_of(bytes) {
                ResponseStepView::Continue(self.at(ResponseState::FailLength))
            } else if self.has_output {
                ResponseStepView::Continue(self.at(ResponseState::Output))
            } else {
                ResponseStepView::Done(Ok(seq![]))
            },
            ResponseState::FailLength => match wire::host_length(bytes) {
                Ok(n) => ResponseStepView::Continue(
                    self.at(
                        ResponseState::FailMessage(
                            if n < MAX_ERROR {
                                n as usize
                            } else {
                                MAX_ERROR
                            },
                        ),
                    ),
                ),
                Err(e) => ResponseStepView::Done(Err(e)),
            },
            ResponseState::FailMessage(_) => ResponseStepView::Done(server_error(bytes)),
            ResponseState::Output => ResponseStepView::Done(
                output_outcome(bytes, self.has_length, self.traced),
            ),
        }
    }

    /// What to read next.
    pub fn request(&self) -> (r: ReadRequest)
        ensures
            r == self.wanted(),
    {
        match self.state {
            ResponseState::Status => ReadRequest::Exact(4),
            ResponseState::FailLength => ReadRequest::Exact(4),
            ResponseState::FailMessage(n) => ReadRequest::Exact(n),
            ResponseState::Output => ReadRequest::ToEnd,
        }
    }

    /// Takes the bytes that were asked for.
    pub fn supply(self, bytes: Vec<u8>) -> (r: ResponseStep)
        requires
            self.takes(bytes@),
            self.state is Output ==> !cut_failure(bytes@),
        ensures
            r@ == self.step(bytes@),
    {
        match self.state {
            ResponseState::Status => {
                if !SyncCommand::Okay.leads(&bytes) {
                    ResponseStep::Continue(
                        ResponseReader { state: ResponseState::FailLength, ..self },
                    )
                } else if self.has_output {
                    ResponseStep::Continue(ResponseReader { state: ResponseState::Output, ..self })
                } else {
                    let nothing: Vec<u8> = Vec::new();
                    ResponseStep::Done(Ok(nothing))
                }
            },
            ResponseState::FailLength => {
                let head: [u8; 4] = first_four(&bytes);
                assert(bytes@.take(4) =~= bytes@);
                match wire::read_length(&head) {
                    Ok(n) => {
                        let length: usize = if n < MAX_ERROR {
                            n
                        } else {
                            MAX_ERROR
                        };
                        ResponseStep::Continue(
                            ResponseReader { state: ResponseState::FailMessage(length), ..self },
                        )
                    },
                    Err(e) => ResponseStep::Done(Err(e)),
                }
            },
            ResponseState::FailMessage(_) => ResponseStep::Done(refusal(bytes.as_slice())),
            ResponseState::Output => ResponseStep::Done(
                read_output(bytes, self.has_length, self.traced),
            ),
        }
    }
}

impl ResponseReader {
    /// What the reader ends with on a stream that holds these bytes and then
    /// ends; `None` where the stream ends before the answer does, or within the
    /// head of a failure.
    pub open spec fn answer(self, stream: Seq<u8>) -> Option<Outcome<Seq<u8>>>
        decreases
            (match self.state {
                ResponseState::Status => 2int,
                ResponseState::FailLength => 1int,
                _ => 0int,
            }),
    {
        match self.wanted() {
            ReadRequest::ToEnd => if cut_failure(stream) {
                None
            } else {
                match self.step(stream) {
                    ResponseStepView::Done(o) => Some(o),
                    ResponseStepView::Continue(_) => None,
                }
            },
            ReadRequest::Exact(n) => if stream.len() < n {
                None
            } else {
                match self.step(stream.take(n as int)) {
                    ResponseStepView::Done(o) => Some(o),
                    ResponseStepView::Continue(next) => next.answer(stream.skip(n as int)),
                }
            },
        }
    }

    /// What the reader leaves of the stream behind its answer.
    pub open spec fn left(self, stream: Seq<u8>) -> Seq<u8>
        decreases
            (match self.state {
                ResponseState::Status => 2int,
                ResponseState::FailLength => 1int,
                _ => 0int,
            }),
    {
        match self.wanted() {
            ReadRequest::ToEnd => seq![],
            ReadRequest::Exact(n) => if stream.len() < n {
                seq![]
            } else {
                match self.step(stream.take(n as int)) {
                    ResponseStepView::Done(_) => stream.skip(n as int),
                    ResponseStepView::Continue(next) => next.left(stream.skip(n as int)),
                }
            },
        }
    }
}

/// The reader of a fresh answer.
pub open spec fn fresh(has_output: bool, has_length: bool, traced: bool) -> ResponseReader {
    ResponseReader { has_output, has_length, traced, state: ResponseState::Status }
}

proof fn lemma_answer_refused(reader: ResponseReader, stream: Seq<u8>)
    requires
        reader.state is Status,
        stream.len() >= 4,
        stream.take(4) != SyncCommand::Okay.bytes(),
    ensures
        reader.answer(stream) == reader.at(ResponseState::FailLength).answer(stream.skip(4)),
{
    assert(stream.take(4).subrange(0, 4) == stream.take(4));
}

proof fn lemma_answer_length(reader: ResponseReader, stream: Seq<u8>, n: nat)
    requires
        stream.len() >= 4,
        wire::host_length(stream.take(4)) == Ok::<nat, ErrorView>(n),
    ensures
        reader.at(ResponseState::FailLength).answer(stream) == reader.at(
            ResponseState::FailMessage(
                if n < MAX_ERROR {
                    n as usize
                } else {
                    MAX_ERROR
                },
            ),
        ).answer(stream.skip(4)),
{
}

proof fn lemma_answer_message(reader: ResponseReader, stream: Seq<u8>, n: usize)
    requires
        stream.len() >= n,
    ensures
        reader.at(ResponseState::FailMessage(n)).answer(stream) == Some(
            server_error(stream.take(n as int)),
        ),
{
}

/// A refusal is never an answer of success.
pub proof fn lemma_refusal_is_no_success(reader: ResponseReader, stream: Seq<u8>)
    requires
        reader.state is Status,
        stream.len() < 4 || stream.take(4) != SyncCommand::Okay.bytes(),
    ensures
        !(reader.answer(stream) matches Some(Ok(_))),
{
    if stream.len() >= 4 {
        lemma_answer_refused(reader, stream);
        let after = stream.skip(4);
        if after.len() >= 4 {
            if let Ok(n) = wire::host_length(after.take(4)) {
                lemma_answer_length(reader, after, n);
                let tail = after.skip(4);
                let most = if n < MAX_ERROR {
                    n as usize
                } else {
                    MAX_ERROR
                };
                if tail.len() >= most {
                    lemma_answer_message(reader, tail, most);
                }
            }
        }
    }
}

// Laws

/// A request that is not accepted is answered with the server's message, cut
/// after its first kilobyte. It does not matter what output was expected, nor
/// what follows the message.
pub proof fn law_refused_request(
    status: Seq<u8>,
    message: Seq<char>,
    rest: Seq<u8>,
    has_output: bool,
    has_length: bool,
    traced: bool,
)
    requires
        status.len() == 4,
        status != SyncCommand::Okay.bytes(),
        wire::message_fits(message),
    ensures
        ({
            let bytes = vstd::utf8::encode_utf8(message);
            let stream = status + vstd::utf8::encode_utf8(wire::message_text(message)) + rest;
            let answer = fresh(has_output, has_length, traced).answer(stream);
            if bytes.len() <= 1024 {
                answer == Some(Err::<Seq<u8>, ErrorView>(ErrorView::Adb("adb error: "@ + message)))
            } else {
                answer == Some(server_error(bytes.take(1024)))
            }
        }),
{
    let bytes = vstd::utf8::encode_utf8(message);
    let framed = vstd::utf8::encode_utf8(wire::message_text(message));
    let length: int = if bytes.len() < MAX_ERROR {
        bytes.len() as int
    } else {
        MAX_ERROR as int
    };
    let stream = status + framed + rest;
    let start = fresh(has_output, has_length, traced);
    wire::law_message_round_trip(message);
    wire::lemma_message_head(message);
    assert(stream.take(4) == status);
    assert(status.subrange(0, 4) == status);
    let after = stream.skip(4);
    assert(after.take(4) == framed.take(4));
    let tail = after.skip(4);
    assert(tail.take(length) == bytes.take(length)) by {
        assert(framed.skip(4).take(length) == tail.take(length));
    }
    assert(bytes.take(bytes.len() as int) == bytes);
    lemma_answer_refused(start, stream);
    lemma_answer_length(start, after, bytes.len());
    lemma_answer_message(start, tail, length as usize);
}

/// An accepted request without output is answered with no bytes, and nothing
/// behind the status word is read.
pub proof fn law_accepted_without_output(rest: Seq<u8>, has_length: bool, traced: bool)
    ensures
        fresh(false, has_length, traced).answer(SyncCommand::Okay.bytes() + rest) == Some(
            Ok::<Seq<u8>, ErrorView>(seq![]),
        ),
        fresh(false, has_length, traced).left(SyncCommand::Okay.bytes() + rest) == rest,
{
    let stream = SyncCommand::Okay.bytes() + rest;
    assert(stream.take(4) == SyncCommand::Okay.bytes());
    assert(SyncCommand::Okay.bytes().subrange(0, 4) == SyncCommand::Okay.bytes());
    assert(stream.skip(4) =~= rest);
}

/// An accepted request with output is answered with what the rest of the
/// stream amounts to; there is no answer where the rest is a failure that ends
/// within its head.
pub proof fn law_accepted_with_output(output: Seq<u8>, has_length: bool, traced: bool)
    ensures
        fresh(true, has_length, traced).answer(SyncCommand::Okay.bytes() + output) == (if cut_failure(
            output,
        ) {
            None
        } else {
            Some(output_outcome(output, has_length, traced))
        }),
{
    reveal_with_fuel(ResponseReader::answer, 2);
    let stream = SyncCommand::Okay.bytes() + output;
    assert(stream.take(4) == SyncCommand::Okay.bytes());
    assert(SyncCommand::Okay.bytes().subrange(0, 4) == SyncCommand::Okay.bytes());
    assert(stream.skip(4) == output);
}

/// One repeated status word in front of the output makes no difference.
pub proof fn law_repeated_okay(output: Seq<u8>, has_length: bool, traced: bool)
    requires
        !SyncCommand::Okay.bytes().is_prefix_of(output),
    ensures
        output_outcome(SyncCommand::Okay.bytes() + output, has_length, traced) == output_outcome(
            output,
            has_length,
            traced,
        ),
{
    let doubled = SyncCommand::Okay.bytes() + output;
    assert(doubled.subrange(0, 4) == SyncCommand::Okay.bytes());
    assert(doubled.skip(4) == output);
}

/// An underlying failure inside the output is answered with its message, the
/// eight bytes in front of which are dropped unread.
pub proof fn law_failed_output(
    length: Seq<u8>,
    message: Seq<char>,
    has_length: bool,
    traced: bool,
)
    requires
        length.len() == 4,
    ensures
        output_outcome(
            SyncCommand::Fail.bytes() + length + vstd::utf8::encode_utf8(message),
            has_length,
            traced,
        ) == Err::<Seq<u8>, ErrorView>(ErrorView::Adb("adb error: "@ + message)),
{
    let bytes = vstd::utf8::encode_utf8(message);
    let output = SyncCommand::Fail.bytes() + length + bytes;
    assert(output.subrange(0, 4) == SyncCommand::Fail.bytes());
    assert(SyncCommand::Fail.bytes()[0] != SyncCommand::Okay.bytes()[0]);
    assert(inner_output(output) == output);
    assert(output.skip(8) == bytes);
    vstd::utf8::encode_utf8_valid_utf8(message);
    vstd::utf8::encode_utf8_decode_utf8(message);
}

/// Output that is framed as a message is answered with the payload alone.
pub proof fn law_framed_output(payload: Seq<char>, traced: bool)
    requires
        wire::message_fits(payload),
    ensures
        output_outcome(vstd::utf8::encode_utf8(wire::message_text(payload)), true, traced) == Ok::<
            Seq<u8>,
            ErrorView,
        >(vstd::utf8::encode_utf8(payload)),
{
    let framed = vstd::utf8::encode_utf8(wire::message_text(payload));
    wire::law_message_round_trip(payload);
    wire::lemma_message_head(payload);
    if SyncCommand::Okay.bytes().is_prefix_of(framed) {
        assert(framed.subrange(0, 4)[1] == framed[1]);
    }
    if SyncCommand::Fail.bytes().is_prefix_of(framed) {
        assert(framed.subrange(0, 4)[2] == framed[2]);
    }
}

/// Tracing makes a difference to one kind of output alone: a framed message that
/// is not text is then an error.
pub proof fn law_tracing_asks_for_text(output: Seq<u8>, has_length: bool)
    ensures
        output_outcome(output, has_length, true) == (match output_outcome(
            output,
            has_length,
            false,
        ) {
            Ok(message) => if has_length {
                traced_outcome(message, true)
            } else {
                Ok(message)
            },
            Err(e) => Err(e),
        }),
        output_outcome(output, false, true) == output_outcome(output, false, false),
{
}

proof fn lemma_accepted(output: Seq<u8>, has_length: bool, traced: bool)
    requires
        !cut_failure(output),
    ensures
        fresh(true, has_length, traced).answer(SyncCommand::Okay.bytes() + output) == Some(
            output_outcome(output, has_length, traced),
        ),
{
    law_accepted_with_output(output, has_length, traced);
}

proof fn lemma_no_inner_word(output: Seq<u8>)
    requires
        output.len() < 4 || output.take(4) != SyncCommand::Okay.bytes(),
    ensures
        inner_output(output) == output,
{
    if SyncCommand::Okay.bytes().is_prefix_of(output) {
        assert(output.take(4) =~= output.subrange(0, 4));
    }
}

proof fn lemma_no_failure(output: Seq<u8>)
    requires
        output.len() < 4 || output.take(4) != SyncCommand::Fail.bytes(),
    ensures
        !SyncCommand::Fail.bytes().is_prefix_of(output),
{
    if SyncCommand::Fail.bytes().is_prefix_of(output) {
        assert(output.take(4) =~= output.subrange(0, 4));
    }
}

/// Output without a length is answered in full, byte for byte and whatever its
/// length, as long as it begins with neither status word; and so is any output
/// behind a repeated word of success that does not report a failure.
#[verifier::rlimit(40)]
#[verifier::spinoff_prover]
pub proof fn law_output_is_answered_in_full(output: Seq<u8>, traced: bool)
    ensures
        (output.len() < 4 || (output.take(4) != SyncCommand::Okay.bytes() && output.take(4)
            != SyncCommand::Fail.bytes())) ==> fresh(true, false, traced).answer(
            SyncCommand::Okay.bytes() + output,
        ) == Some(Ok::<Seq<u8>, ErrorView>(output)),
        (output.len() < 4 || output.take(4) != SyncCommand::Fail.bytes()) ==> fresh(
            true,
            false,
            traced,
        ).answer(SyncCommand::Okay.bytes() + (SyncCommand::Okay.bytes() + output)) == Some(
            Ok::<Seq<u8>, ErrorView>(output),
        ),
{
    let okay = SyncCommand::Okay.bytes();
    if output.len() < 4 || output.take(4) != SyncCommand::Fail.bytes() {
        lemma_no_failure(output);
        let doubled = okay + output;
        assert(doubled.subrange(0, 4) =~= okay);
        assert(doubled.skip(4) =~= output);
        assert(inner_output(doubled) == output);
        lemma_accepted(doubled, false, traced);
        if output.len() < 4 || output.take(4) != okay {
            lemma_no_inner_word(output);
            lemma_accepted(output, false, traced);
        }
    }
}

/// Output with a length is answered with all that follows the four hexadecimal
/// digits of the length, whatever number they are; where it is traced it has to
/// be text.
#[verifier::rlimit(40)]
#[verifier::spinoff_prover]
pub proof fn law_message_behind_its_length_is_answered_in_full(
    a: u8,
    b: u8,
    c: u8,
    d: u8,
    message: Seq<u8>,
    traced: bool,
)
    requires
        wire::is_hex_byte(a),
        wire::is_hex_byte(b),
        wire::is_hex_byte(c),
        wire::is_hex_byte(d),
    ensures
        ({
            let output = seq![a, b, c, d] + message;
            let okay = SyncCommand::Okay.bytes();
            let expected = if traced && !vstd::utf8::valid_utf8(message) {
                Err::<Seq<u8>, ErrorView>(ErrorView::Utf8(wire::utf8_error(message)))
            } else {
                Ok(message)
            };
            &&& fresh(true, true, traced).answer(okay + output) == Some(expected)
            &&& fresh(true, true, traced).answer(okay + (okay + output)) == Some(expected)
        }),
{
    let head = seq![a, b, c, d];
    let output = head + message;
    let okay = SyncCommand::Okay.bytes();
    wire::law_host_length_adds_up(a, b, c, d);
    assert(output.take(4) =~= head);
    assert(output.skip(4) =~= message);
    assert(output.take(4)[0] == a && output.take(4)[2] == c);
    assert(okay[0] == 0x4f && SyncCommand::Fail.bytes()[2] == 0x49);
    lemma_no_inner_word(output);
    lemma_no_failure(output);
    lemma_accepted(output, true, traced);
    let doubled = okay + output;
    assert(doubled.subrange(0, 4) =~= okay);
    assert(doubled.skip(4) =~= output);
    assert(inner_output(doubled) == output);
    lemma_accepted(doubled, true, traced);
}

/// A request that is refused is answered with the message of the refusal: as
/// many bytes as were announced, but no more than 1024. A message that is not
/// text is an error of its own.
#[verifier::rlimit(40)]
#[verifier::spinoff_prover]
pub proof fn law_refusal_is_answered_with_its_message(
    status: Seq<u8>,
    a: u8,
    b: u8,
    c: u8,
    d: u8,
    message: Seq<u8>,
    rest: Seq<u8>,
    has_output: bool,
    has_length: bool,
    traced: bool,
)
    requires
        status.len() == 4,
        status != SyncCommand::Okay.bytes(),
        wire::is_hex_byte(a),
        wire::is_hex_byte(b),
        wire::is_hex_byte(c),
        wire::is_hex_byte(d),
        ({
            let n = wire::hex_byte_value(a) * 4096 + wire::hex_byte_value(b) * 256
                + wire::hex_byte_value(c) * 16 + wire::hex_byte_value(d);
            message.len() == if n < 1024 {
                n
            } else {
                1024
            }
        }),
    ensures
        ({
            let stream = status + (seq![a, b, c, d] + (message + rest));
            let reader = fresh(has_output, has_length, traced);
            reader.answer(stream) == Some(
                match wire::utf8_outcome(message) {
                    Ok(words) => Err::<Seq<u8>, ErrorView>(ErrorView::Adb("adb error: "@ + words)),
                    Err(e) => Err(e),
                },
            )
        }),
{
    let head = seq![a, b, c, d];
    let after = head + (message + rest);
    let stream = status + after;
    let reader = fresh(has_output, has_length, traced);
    wire::law_host_length_adds_up(a, b, c, d);
    assert(stream.take(4) =~= status);
    assert(stream.skip(4) =~= after);
    assert(after.take(4) =~= head);
    assert(after.skip(4) =~= message + rest);
    assert((message + rest).take(message.len() as int) =~= message);
    let n = wire::host_length(head)->Ok_0;
    lemma_answer_refused(reader, stream);
    lemma_answer_length(reader, after, n);
    lemma_answer_message(reader, message + rest, message.len() as usize);
}

/// A failure that the output itself reports is answered with its message,
/// whatever its length; a message that is not text is an error of its own.
#[verifier::rlimit(40)]
#[verifier::spinoff_prover]
pub proof fn law_reported_failure_is_answered_with_its_message(
    length: Seq<u8>,
    message: Seq<u8>,
    has_length: bool,
    traced: bool,
)
    requires
        length.len() == 4,
    ensures
        ({
            let okay = SyncCommand::Okay.bytes();
            let output = SyncCommand::Fail.bytes() + (length + message);
            let expected = match wire::utf8_outcome(message) {
                Ok(words) => Err::<Seq<u8>, ErrorView>(ErrorView::Adb("adb error: "@ + words)),
                Err(e) => Err(e),
            };
            &&& fresh(true, has_length, traced).answer(okay + output) == Some(expected)
            &&& fresh(true, has_length, traced).answer(okay + (okay + output)) == Some(expected)
        }),
{
    let okay = SyncCommand::Okay.bytes();
    let fail = SyncCommand::Fail.bytes();
    let output = fail + (length + message);
    assert(output.take(4) =~= fail);
    assert(fail[0] != okay[0]);
    lemma_no_inner_word(output);
    lemma_reported_failure(output, length, message, has_length, traced);
    lemma_accepted(output, has_length, traced);
    let doubled = okay + output;
    assert(doubled.subrange(0, 4) =~= okay);
    assert(doubled.skip(4) =~= output);
    assert(inner_output(doubled) == output);
    lemma_reported_failure(doubled, length, message, has_length, traced);
    lemma_accepted(doubled, has_length, traced);
}

proof fn lemma_reported_failure(
    bytes: Seq<u8>,
    length: Seq<u8>,
    message: Seq<u8>,
    has_length: bool,
    traced: bool,
)
    requires
        length.len() == 4,
        inner_output(bytes) == SyncCommand::Fail.bytes() + (length + message),
    ensures
        !cut_failure(bytes),
        output_outcome(bytes, has_length, traced) == server_error(message),
{
    let fail = SyncCommand::Fail.bytes();
    let output = fail + (length + message);
    assert(output.subrange(0, 4) =~= fail);
    assert(output.skip(8) =~= message);
}

/// Output that is too short for the length that was expected is an error that
/// shows it.
pub proof fn law_missing_length_is_shown(output: Seq<char>, traced: bool)
    requires
        vstd::utf8::encode_utf8(output).len() < 4,
    ensures
        fresh(true, true, traced).answer(
            SyncCommand::Okay.bytes() + vstd::utf8::encode_utf8(output),
        ) == Some(
            Err::<Seq<u8>, ErrorView>(
                ErrorView::Adb(
                    "adb server response did not contain expected hexstring length: "@ + debug_form(
                        output,
                    ),
                ),
            ),
        ),
{
    let bytes = vstd::utf8::encode_utf8(output);
    wire::law_text_is_read_from_its_encoding(bytes, output);
    lemma_no_inner_word(bytes);
    lemma_no_failure(bytes);
    lemma_accepted(bytes, true, traced);
}

/// Output whose length cannot be read is an error, and so is a refusal whose
/// length cannot be read.
pub proof fn law_answer_without_a_length(
    status: Seq<u8>,
    length: Seq<u8>,
    rest: Seq<u8>,
    e: ErrorView,
    has_output: bool,
    has_length: bool,
    traced: bool,
)
    requires
        status.len() == 4,
        status != SyncCommand::Okay.bytes(),
        length.len() == 4,
        length != SyncCommand::Okay.bytes(),
        length != SyncCommand::Fail.bytes(),
        wire::host_length(length) == Err::<nat, ErrorView>(e),
    ensures
        fresh(true, true, traced).answer(SyncCommand::Okay.bytes() + (length + rest)) == Some(
            Err::<Seq<u8>, ErrorView>(e),
        ),
        fresh(has_output, has_length, traced).answer(status + (length + rest)) == Some(
            Err::<Seq<u8>, ErrorView>(e),
        ),
{
    lemma_output_without_a_length(length, rest, e, traced);
    lemma_refusal_without_a_length(status, length, rest, e, has_output, has_length, traced);
}

proof fn lemma_output_without_a_length(length: Seq<u8>, rest: Seq<u8>, e: ErrorView, traced: bool)
    requires
        length.len() == 4,
        length != SyncCommand::Okay.bytes(),
        length != SyncCommand::Fail.bytes(),
        wire::host_length(length) == Err::<nat, ErrorView>(e),
    ensures
        fresh(true, true, traced).answer(SyncCommand::Okay.bytes() + (length + rest)) == Some(
            Err::<Seq<u8>, ErrorView>(e),
        ),
{
    let output = length + rest;
    assert(output.take(4) =~= length);
    lemma_no_inner_word(output);
    lemma_no_failure(output);
    lemma_accepted(output, true, traced);
}

proof fn lemma_refusal_without_a_length(
    status: Seq<u8>,
    length: Seq<u8>,
    rest: Seq<u8>,
    e: ErrorView,
    has_output: bool,
    has_length: bool,
    traced: bool,
)
    requires
        status.len() == 4,
        status != SyncCommand::Okay.bytes(),
        length.len() == 4,
        wire::host_length(length) == Err::<nat, ErrorView>(e),
    ensures
        fresh(has_output, has_length, traced).answer(status + (length + rest)) == Some(
            Err::<Seq<u8>, ErrorView>(e),
        ),
{
    let output = length + rest;
    let reader = fresh(has_output, has_length, traced);
    let told = reader.at(ResponseState::FailLength);
    let stream = status + output;
    assert(output.take(4) =~= length);
    assert(stream.take(4) =~= status);
    assert(stream.skip(4) =~= output);
    assert(status.subrange(0, 4) =~= status);
    assert(reader.step(status) == ResponseStepView::Continue(told));
    assert(told.answer(output) == Some(Err::<Seq<u8>, ErrorView>(e)));
    assert(reader.answer(stream) == told.answer(output));
}

/// Output that is too short for the length that was expected and is no text is an
/// error of its own. A failure that breaks off before its message is no answer.
pub proof fn law_short_output(output: Seq<u8>, has_length: bool, traced: bool)
    requires
        output.len() < 4,
    ensures
        !vstd::utf8::valid_utf8(output) ==> fresh(true, true, traced).answer(
            SyncCommand::Okay.bytes() + output,
        ) == Some(Err::<Seq<u8>, ErrorView>(ErrorView::Utf8(wire::utf8_error(output)))),
        fresh(true, has_length, traced).answer(
            SyncCommand::Okay.bytes() + (SyncCommand::Fail.bytes() + output),
        ) is None,
{
    lemma_no_inner_word(output);
    lemma_no_failure(output);
    lemma_accepted(output, true, traced);
    let fail = SyncCommand::Fail.bytes();
    let cut = fail + output;
    assert(cut.take(4) =~= fail);
    assert(cut.subrange(0, 4) =~= fail);
    assert(fail[0] != SyncCommand::Okay.bytes()[0]);
    lemma_no_inner_word(cut);
    law_accepted_with_output(cut, has_length, traced);
}

/// The length that output announces is the one in its first four bytes, whether
/// or not the word of success stands before it once more. Output that reports a
/// failure, or is too short, announces none.
pub proof fn law_announced_length(a: u8, b: u8, c: u8, d: u8, rest: Seq<u8>, short: Seq<u8>)
    requires
        wire::is_hex_byte(a),
        wire::is_hex_byte(b),
        wire::is_hex_byte(c),
        wire::is_hex_byte(d),
        short.len() < 4,
    ensures
        ({
            let n = (wire::hex_byte_value(a) * 4096 + wire::hex_byte_value(b) * 256
                + wire::hex_byte_value(c) * 16 + wire::hex_byte_value(d)) as nat;
            let output = seq![a, b, c, d] + rest;
            let okay = SyncCommand::Okay.bytes();
            &&& announced(output) == Some(n)
            &&& announced(okay + output) == Some(n)
            &&& inner_output(output) == output
            &&& inner_output(okay + output) == output
            &&& announced(short) is None
            &&& announced(SyncCommand::Fail.bytes() + rest) is None
        }),
{
    let okay = SyncCommand::Okay.bytes();
    let fail = SyncCommand::Fail.bytes();
    let digits = seq![a, b, c, d];
    let output = digits + rest;
    wire::law_host_length_adds_up(a, b, c, d);
    assert(output.take(4) =~= digits);
    assert(digits[0] == a);
    assert(okay[0] == 0x4f);
    assert(fail[3] == 0x4c && digits[3] == d);
    assert(digits != okay && digits != fail);
    lemma_no_inner_word(output);
    lemma_no_failure(output);
    let doubled = okay + output;
    assert(doubled.subrange(0, 4) =~= okay);
    assert(doubled.skip(4) =~= output);
    lemma_no_inner_word(short);
    let failed = fail + rest;
    assert(failed.take(4) =~= fail);
    assert(failed.subrange(0, 4) =~= fail);
    assert(fail[0] != okay[0]);
    lemma_no_inner_word(failed);
}

} // verus!
