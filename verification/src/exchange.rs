//! Conversations with the adb server, as lists of what to send and what to
//! wait for. Each is held on a connection of its own.

use vstd::prelude::*;

use crate::error::{DeviceError, ErrorView, Outcome, Result};
use crate::text;
use crate::wire;

verus! {

/// One step of a conversation.
#[derive(Debug)]
pub enum Exchange {
    /// Send these bytes.
    Write(Vec<u8>),
    /// Read the answer to the request.
    Response { has_output: bool, has_length: bool },
    /// The request is too long to be sent, and the conversation ends here.
    TooLong(std::num::TryFromIntError),
}

/// What a step says.
pub enum ExchangeView {
    Write(Seq<u8>),
    Response { has_output: bool, has_length: bool },
    TooLong,
}

impl View for Exchange {
    type V = ExchangeView;

    open spec fn view(&self) -> ExchangeView {
        match *self {
            Exchange::Write(bytes) => ExchangeView::Write(bytes@),
            Exchange::Response { has_output, has_length } => ExchangeView::Response {
                has_output,
                has_length,
            },
            Exchange::TooLong(_) => ExchangeView::TooLong,
        }
    }
}

/// The steps of a conversation.
pub open spec fn script_view(script: Seq<Exchange>) -> Seq<ExchangeView> {
    script.map_values(|e: Exchange| e@)
}

/// The outcome of preparing a conversation.
pub open spec fn script_outcome(r: Result<Vec<Exchange>>) -> Outcome<Seq<ExchangeView>> {
    match r {
        Ok(script) => Ok(script_view(script@)),
        Err(e) => Err(e@),
    }
}

/// The bytes of a request.
pub open spec fn request_bytes(payload: Seq<char>) -> Seq<u8> {
    vstd::utf8::encode_utf8(wire::message_text(payload))
}

/// To send a request and read its answer.
pub open spec fn request_script(
    payload: Seq<char>,
    has_output: bool,
    has_length: bool,
) -> Seq<ExchangeView> {
    if wire::message_fits(payload) {
        seq![
            ExchangeView::Write(request_bytes(payload)),
            ExchangeView::Response { has_output, has_length },
        ]
    } else {
        seq![ExchangeView::TooLong]
    }
}

/// One conversation after another; a conversation that ended early has no
/// sequel.
pub open spec fn followed_by(first: Seq<ExchangeView>, second: Seq<ExchangeView>) -> Seq<
    ExchangeView,
> {
    if first.len() > 0 && first.last() == ExchangeView::TooLong {
        first
    } else {
        first + second
    }
}

/// Appends the steps of a request, unless the conversation ended already.
pub fn add_request(
    script: Vec<Exchange>,
    payload: &str,
    has_output: bool,
    has_length: bool,
) -> (r: Vec<Exchange>)
    ensures
        script_view(r@) == followed_by(
            script_view(script@),
            request_script(payload@, has_output, has_length),
        ),
{
    let mut r: Vec<Exchange> = script;
    let ghost before = script_view(r@);
    if r.len() > 0 {
        assert(before.last() == r@.last()@);
        match &r[r.len() - 1] {
            Exchange::TooLong(_) => return r,
            _ => {},
        }
    }
    match wire::encode_message(payload) {
        Ok(message) => {
            let bytes: Vec<u8> = vstd::slice::slice_to_vec(message.as_str().as_bytes());
            r.push(Exchange::Write(bytes));
            r.push(Exchange::Response { has_output, has_length });
            assert(script_view(r@) =~= before + request_script(payload@, has_output, has_length));
        },
        Err(DeviceError::FromInt(e)) => {
            r.push(Exchange::TooLong(e));
            assert(script_view(r@) =~= before + request_script(payload@, has_output, has_length));
        },
        Err(_) => {},
    }
    r
}

/// Appends bytes to send, unless the conversation ended already.
pub fn add_write(script: Vec<Exchange>, bytes: Vec<u8>) -> (r: Vec<Exchange>)
    ensures
        script_view(r@) == followed_by(
            script_view(script@),
            seq![ExchangeView::Write(bytes@)],
        ),
{
    let mut r: Vec<Exchange> = script;
    let ghost before = script_view(r@);
    let ghost sent = bytes@;
    if r.len() > 0 {
        assert(before.last() == r@.last()@);
        match &r[r.len() - 1] {
            Exchange::TooLong(_) => return r,
            _ => {},
        }
    }
    r.push(Exchange::Write(bytes));
    assert(script_view(r@) =~= before + seq![ExchangeView::Write(sent)]);
    r
}

/// To hand a command to a device: the server first switches the connection to
/// the device.
pub open spec fn device_script(
    serial: Seq<char>,
    command: Seq<char>,
    has_output: bool,
    has_length: bool,
) -> Seq<ExchangeView> {
    followed_by(
        request_script("host:transport:"@ + serial, false, false),
        request_script(command, has_output, has_length),
    )
}

/// The conversation that hands a command to a device.
pub fn device_exchanges(
    serial: &str,
    command: &str,
    has_output: bool,
    has_length: bool,
) -> (r: Vec<Exchange>)
    ensures
        script_view(r@) == device_script(serial@, command@, has_output, has_length),
{
    let transport: String = text::concat2("host:transport:", serial);
    let nothing: Vec<Exchange> = Vec::new();
    let ghost first = request_script(transport@, false, false);
    assert(followed_by(script_view(nothing@), first) =~= first);
    let script: Vec<Exchange> = add_request(nothing, transport.as_str(), false, false);
    add_request(script, command, has_output, has_length)
}

/// The conversation that hands a command to the server itself.
pub fn server_exchanges(command: &str, has_output: bool, has_length: bool) -> (r: Vec<Exchange>)
    ensures
        script_view(r@) == request_script(command@, has_output, has_length),
{
    let nothing: Vec<Exchange> = Vec::new();
    let ghost only = request_script(command@, has_output, has_length);
    assert(followed_by(script_view(nothing@), only) =~= only);
    add_request(nothing, command, has_output, has_length)
}

/// The text of a device's answer, with line feeds alone at the ends of lines.
pub open spec fn output_text(bytes: Seq<u8>) -> Outcome<Seq<char>> {
    match wire::utf8_outcome(bytes) {
        Ok(s) => Ok(text::replace_all(s, "\r\n"@, "\n"@)),
        Err(e) => Err(e),
    }
}

/// The text of a device's answer.
pub fn read_output_text(bytes: &[u8]) -> (r: Result<String>)
    ensures
        crate::error::outcome(r) == output_text(bytes@),
{
    match wire::decode_text(bytes) {
        Ok(s) => {
            proof {
                reveal_strlit("\r\n");
            }
            Ok(text::replace(s.as_str(), "\r\n", "\n"))
        },
        Err(e) => Err(e),
    }
}

// Laws

/// Lines one after the other, each with the same end.
pub open spec fn ended_lines(lines: Seq<Seq<char>>, end: Seq<char>) -> Seq<char>
    decreases lines.len(),
{
    if lines.len() == 0 {
        seq![]
    } else {
        lines[0] + (end + ended_lines(lines.skip(1), end))
    }
}

proof fn lemma_line_end(line: Seq<char>, rest: Seq<char>)
    requires
        forall|i: int| 0 <= i < line.len() ==> #[trigger] line[i] != '\r',
    ensures
        text::replace_all(line + ("\r\n"@ + rest), "\r\n"@, "\n"@) == line + ("\n"@
            + text::replace_all(rest, "\r\n"@, "\n"@)),
    decreases line.len(),
{
    reveal_strlit("\r\n");
    reveal_strlit("\n");
    let from = "\r\n"@;
    let to = "\n"@;
    let whole = line + (from + rest);
    if line.len() == 0 {
        assert(whole =~= from + rest);
        assert(whole.subrange(0, 2) =~= from);
        assert(whole.skip(2) =~= rest);
        assert(line + (to + text::replace_all(rest, from, to)) =~= to + text::replace_all(
            rest,
            from,
            to,
        ));
    } else {
        let tail = line.skip(1);
        assert(whole.subrange(0, 2)[0] == line[0]);
        assert(whole.skip(1) =~= tail + (from + rest));
        lemma_line_end(tail, rest);
        assert(seq![line[0]] + (tail + (to + text::replace_all(rest, from, to))) =~= line + (to
            + text::replace_all(rest, from, to)));
    }
}

proof fn lemma_lines_unified(lines: Seq<Seq<char>>)
    requires
        forall|i: int, j: int|
            0 <= i < lines.len() && 0 <= j < lines[i].len() ==> #[trigger] lines[i][j] != '\r',
    ensures
        text::replace_all(ended_lines(lines, "\r\n"@), "\r\n"@, "\n"@) == ended_lines(
            lines,
            "\n"@,
        ),
    decreases lines.len(),
{
    if lines.len() > 0 {
        let rest = lines.skip(1);
        assert forall|i: int, j: int|
            0 <= i < rest.len() && 0 <= j < rest[i].len() implies #[trigger] rest[i][j] != '\r' by {
            assert(rest[i] == lines[i + 1]);
            assert(lines[i + 1][j] != '\r');
        }
        lemma_lines_unified(rest);
        lemma_line_end(lines[0], ended_lines(rest, "\r\n"@));
    }
}

/// Lines that a device ends with a carriage return and a line feed are read as
/// the same lines with line feeds alone.
pub proof fn law_line_ends_are_unified(lines: Seq<Seq<char>>)
    requires
        forall|i: int, j: int|
            0 <= i < lines.len() && 0 <= j < lines[i].len() ==> #[trigger] lines[i][j] != '\r',
    ensures
        output_text(vstd::utf8::encode_utf8(ended_lines(lines, "\r\n"@))) == Ok::<
            Seq<char>,
            ErrorView,
        >(ended_lines(lines, "\n"@)),
{
    let sent = ended_lines(lines, "\r\n"@);
    vstd::utf8::encode_utf8_valid_utf8(sent);
    vstd::utf8::encode_utf8_decode_utf8(sent);
    lemma_lines_unified(lines);
}

proof fn lemma_replace_join(a: Seq<char>, b: Seq<char>)
    ensures
        text::replace_all(a + ("\r\n"@ + b), "\r\n"@, "\n"@) == text::replace_all(
            a,
            "\r\n"@,
            "\n"@,
        ) + ("\n"@ + text::replace_all(b, "\r\n"@, "\n"@)),
    decreases a.len(),
{
    reveal_strlit("\r\n");
    reveal_strlit("\n");
    let from = "\r\n"@;
    let to = "\n"@;
    let whole = a + (from + b);
    let rest = to + text::replace_all(b, from, to);
    if a.len() == 0 {
        assert(whole =~= from + b);
        assert(whole.subrange(0, 2) =~= from);
        assert(whole.skip(2) =~= b);
        assert(text::replace_all(a, from, to) + rest =~= rest);
    } else if text::occurs_at(a, 0, from) {
        let tail = a.skip(2);
        assert(a.subrange(0, 2) =~= whole.subrange(0, 2));
        assert(text::occurs_at(whole, 0, from));
        assert(whole.skip(2) =~= tail + (from + b));
        lemma_replace_join(tail, b);
        assert(to + (text::replace_all(tail, from, to) + rest) =~= (to + text::replace_all(
            tail,
            from,
            to,
        )) + rest);
    } else {
        let tail = a.skip(1);
        assert(!text::occurs_at(whole, 0, from)) by {
            let two = whole.subrange(0, 2);
            assert(two[0] == a[0]);
            if a.len() == 1 {
                assert(two[1] == '\r');
            } else {
                assert(two =~= a.subrange(0, 2));
            }
        }
        assert(whole.skip(1) =~= tail + (from + b));
        lemma_replace_join(tail, b);
        assert(seq![a[0]] + (text::replace_all(tail, from, to) + rest) =~= (seq![a[0]]
            + text::replace_all(tail, from, to)) + rest);
    }
}

/// Output is read piece by piece: what stands in front of a carriage return with
/// a line feed is read for itself, then a line feed, and then what stands behind
/// it. Nothing else is changed: output in which no line feed follows a carriage
/// return is read as it is.
pub proof fn law_output_is_read_as_it_is_but_for_line_ends(a: Seq<char>, b: Seq<char>)
    ensures
        ({
            let whole = vstd::utf8::encode_utf8(a + ("\r\n"@ + b));
            let first = output_text(vstd::utf8::encode_utf8(a));
            let second = output_text(vstd::utf8::encode_utf8(b));
            &&& first is Ok && second is Ok
            &&& output_text(whole) == Ok::<Seq<char>, ErrorView>(
                first->Ok_0 + ("\n"@ + second->Ok_0),
            )
        }),
        (forall|x: Seq<char>, y: Seq<char>| a != #[trigger] (x + "\r\n"@ + y)) ==> output_text(
            vstd::utf8::encode_utf8(a),
        ) == Ok::<Seq<char>, ErrorView>(a),
{
    let whole = a + ("\r\n"@ + b);
    wire::law_text_is_read_from_its_encoding(vstd::utf8::encode_utf8(a), a);
    wire::law_text_is_read_from_its_encoding(vstd::utf8::encode_utf8(b), b);
    wire::law_text_is_read_from_its_encoding(vstd::utf8::encode_utf8(whole), whole);
    lemma_replace_join(a, b);
    if forall|x: Seq<char>, y: Seq<char>| a != #[trigger] (x + "\r\n"@ + y) {
        text::law_replace_absent(a, "\r\n"@, "\n"@);
    }
}

/// Output that is not UTF-8 is an error.
pub proof fn law_output_has_to_be_text(bytes: Seq<u8>)
    requires
        !vstd::utf8::valid_utf8(bytes),
    ensures
        output_text(bytes) == Err::<Seq<char>, ErrorView>(
            ErrorView::Utf8(wire::utf8_error(bytes)),
        ),
{
}

/// A request of up to 65535 bytes is sent as one message, and its answer is then
/// read as was asked for; a longer one is not sent. The message is four bytes of
/// length and the bytes of the request.
pub proof fn law_request_is_sent_and_answered(
    payload: Seq<char>,
    has_output: bool,
    has_length: bool,
)
    ensures
        ({
            let bytes = vstd::utf8::encode_utf8(payload);
            let script = request_script(payload, has_output, has_length);
            if bytes.len() <= 65535 {
                &&& script.len() == 2
                &&& script[0] matches ExchangeView::Write(sent) && sent.skip(4) == bytes
                    && sent.len() == bytes.len() + 4 && wire::host_length(sent.take(4)) == Ok::<
                    nat,
                    ErrorView,
                >(bytes.len()) && sent == request_bytes(payload)
                &&& script[1] == ExchangeView::Response { has_output, has_length }
            } else {
                script == seq![ExchangeView::TooLong]
            }
        }),
{
    wire::law_message_is_length_and_payload(payload);
    if wire::message_fits(payload) {
        wire::law_message_round_trip(payload);
        wire::lemma_message_head(payload);
    }
}

/// A command for a device is two requests on one connection: one that names the
/// device, whose answer has no output, and then the command.
pub proof fn law_device_script_is_two_requests(
    serial: Seq<char>,
    command: Seq<char>,
    has_output: bool,
    has_length: bool,
)
    requires
        vstd::utf8::encode_utf8("host:transport:"@ + serial).len() <= 65535,
        vstd::utf8::encode_utf8(command).len() <= 65535,
    ensures
        ({
            let script = device_script(serial, command, has_output, has_length);
            let transport = vstd::utf8::encode_utf8("host:transport:"@ + serial);
            let bytes = vstd::utf8::encode_utf8(command);
            &&& script.len() == 4
            &&& script[0] matches ExchangeView::Write(sent) && sent.skip(4) == transport
            &&& script[1] == ExchangeView::Response { has_output: false, has_length: false }
            &&& script[2] matches ExchangeView::Write(sent) && sent.skip(4) == bytes
            &&& script[3] == ExchangeView::Response { has_output, has_length }
        }),
{
    law_request_is_sent_and_answered("host:transport:"@ + serial, false, false);
    law_request_is_sent_and_answered(command, has_output, has_length);
}

} // verus!
