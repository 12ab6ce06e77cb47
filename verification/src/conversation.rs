//! Holding a conversation: what to send and what to read, one after the other,
//! and how it ends.

use vstd::prelude::*;

use crate::error;
use crate::error::{DeviceError, ErrorView, Outcome, Result};
use crate::exchange;
use crate::exchange::{Exchange, ExchangeView};
use crate::response;
use crate::response::{ReadRequest, ResponseReader, ResponseState, ResponseStep, ResponseStepView};

verus! {

/// A conversation under way.
#[derive(Debug)]
pub struct Conversation {
    /// The steps that were not taken yet.
    pub rest: Vec<Exchange>,
    /// The answer that is being read.
    pub reader: Option<ResponseReader>,
    /// The last answer that was read.
    pub answer: Vec<u8>,
    /// Answers with a length are traced as text.
    pub traced: bool,
}

/// What a conversation holds.
pub struct ConversationView {
    pub rest: Seq<ExchangeView>,
    pub reader: Option<ResponseReader>,
    pub answer: Seq<u8>,
    pub traced: bool,
}

impl View for Conversation {
    type V = ConversationView;

    open spec fn view(&self) -> ConversationView {
        ConversationView {
            rest: exchange::script_view(self.rest@),
            reader: self.reader,
            answer: self.answer@,
            traced: self.traced,
        }
    }
}

/// What to do next.
#[derive(Debug)]
pub enum Turn {
    /// Send these bytes.
    Send(Vec<u8>, Conversation),
    /// Read from the stream.
    Read(ReadRequest, Conversation),
    /// The conversation is over: with its last answer, or with an error.
    Over(Result<Vec<u8>>),
}

/// What a turn says.
pub enum TurnView {
    Send(Seq<u8>, ConversationView),
    Read(ReadRequest, ConversationView),
    Over(Outcome<Seq<u8>>),
}

impl View for Turn {
    type V = TurnView;

    open spec fn view(&self) -> TurnView {
        match *self {
            Turn::Send(bytes, next) => TurnView::Send(bytes@, next@),
            Turn::Read(request, next) => TurnView::Read(request, next@),
            Turn::Over(r) => TurnView::Over(error::outcome(r)),
        }
    }
}

impl ConversationView {
    /// A conversation with nothing read yet.
    pub open spec fn fresh(script: Seq<ExchangeView>, traced: bool) -> ConversationView {
        ConversationView { rest: script, reader: None, answer: seq![], traced }
    }

    /// The next step of the script.
    pub open spec fn turn(self) -> TurnView {
        if self.rest.len() == 0 {
            TurnView::Over(Ok(self.answer))
        } else {
            let rest = self.rest.skip(1);
            match self.rest[0] {
                ExchangeView::Write(bytes) => TurnView::Send(
                    bytes,
                    ConversationView { rest, reader: None, ..self },
                ),
                ExchangeView::Response { has_output, has_length } => {
                    let reader = response::fresh(has_output, has_length, self.traced);
                    TurnView::Read(
                        reader.wanted(),
                        ConversationView { rest, reader: Some(reader), ..self },
                    )
                },
                ExchangeView::TooLong => TurnView::Over(Err(ErrorView::FromInt)),
            }
        }
    }

    /// The bytes are what was asked for, and no failure is cut off in its head.
    pub open spec fn takes(self, bytes: Seq<u8>) -> bool {
        match self.reader {
            Some(reader) => reader.takes(bytes) && (reader.state is Output
                ==> !response::cut_failure(bytes)),
            None => false,
        }
    }

    /// What follows when the wanted bytes are these: an error ends the
    /// conversation.
    pub open spec fn step(self, bytes: Seq<u8>) -> TurnView {
        match self.reader->0.step(bytes) {
            ResponseStepView::Continue(reader) => TurnView::Read(
                reader.wanted(),
                ConversationView { reader: Some(reader), ..self },
            ),
            ResponseStepView::Done(Ok(answer)) => (ConversationView {
                reader: None,
                answer,
                ..self
            }).turn(),
            ResponseStepView::Done(Err(e)) => TurnView::Over(Err(e)),
        }
    }
}

/// Begins a conversation. `traced` says that answers with a length are traced as
/// text.
pub fn hold(script: Vec<Exchange>, traced: bool) -> (r: Turn)
    ensures
        r@ == ConversationView::fresh(exchange::script_view(script@), traced).turn(),
{
    let answer: Vec<u8> = Vec::new();
    let conversation: Conversation = Conversation { rest: script, reader: None, answer, traced };
    assert(conversation@.answer =~= seq![]);
    conversation.sent()
}

impl Conversation {
    /// Goes on once the bytes were sent.
    pub fn sent(self) -> (r: Turn)
        ensures
            r@ == self@.turn(),
    {
        let Conversation { mut rest, reader: _, answer, traced } = self;
        if rest.len() == 0 {
            return Turn::Over(Ok(answer));
        }
        let ghost steps = exchange::script_view(rest@);
        let first: Exchange = rest.remove(0);
        assert(steps[0] == first@);
        assert(exchange::script_view(rest@) =~= steps.skip(1));
        match first {
            Exchange::Write(bytes) => Turn::Send(
                bytes,
                Conversation { rest, reader: None, answer, traced },
            ),
            Exchange::Response { has_output, has_length } => {
                let reader: ResponseReader = response::read_response(
                    has_output,
                    has_length,
                    traced,
                );
                let request: ReadRequest = reader.request();
                Turn::Read(request, Conversation { rest, reader: Some(reader), answer, traced })
            },
            Exchange::TooLong(e) => Turn::Over(Err(DeviceError::FromInt(e))),
        }
    }

    /// Whether the conversation can go on with these bytes.
    pub fn accepts(&self, bytes: &Vec<u8>) -> (r: bool)
        ensures
            r == self@.takes(bytes@),
    {
        match self.reader {
            Some(reader) => match reader.request() {
                ReadRequest::Exact(n) => bytes.len() == n,
                ReadRequest::ToEnd => !response::is_cut_failure(bytes),
            },
            None => false,
        }
    }

    /// The length that the output in these bytes announces, and the length that
    /// it has, where the two differ.
    pub fn wrong_length(&self, bytes: &Vec<u8>) -> (r: Option<(usize, usize)>)
        ensures
            ({
                let present = response::inner_output(bytes@).len() - 4;
                let framed = self.reader matches Some(reader) && reader.state is Output
                    && reader.has_length;
                match r {
                    Some((n, m)) => framed && response::announced(bytes@) == Some(n as nat) && m
                        == present && n != m,
                    None => !framed || response::announced(bytes@) is None
                        || response::announced(bytes@)->0 == present,
                }
            }),
    {
        match self.reader {
            Some(reader) => match (reader.state, response::announced_length(bytes)) {
                (ResponseState::Output, Some((n, m))) => if reader.has_length && n != m {
                    Some((n, m))
                } else {
                    None
                },
                (_, _) => None,
            },
            None => None,
        }
    }

    /// Takes the bytes that were asked for.
    pub fn read(self, bytes: Vec<u8>) -> (r: Turn)
        requires
            self@.takes(bytes@),
        ensures
            r@ == self@.step(bytes@),
    {
        let Conversation { rest, reader, answer, traced } = self;
        match reader {
            Some(reader) => match reader.supply(bytes) {
                ResponseStep::Continue(next) => {
                    let request: ReadRequest = next.request();
                    Turn::Read(request, Conversation { rest, reader: Some(next), answer, traced })
                },
                ResponseStep::Done(Ok(answer)) => (Conversation {
                    rest,
                    reader: None,
                    answer,
                    traced,
                }).sent(),
                ResponseStep::Done(Err(e)) => Turn::Over(Err(e)),
            },
            None => Turn::Over(Ok(answer)),
        }
    }
}

// Whole conversations

/// What was sent, one write after the other, and how a conversation ended;
/// `None` where the stream ended first.
pub struct Held {
    pub sent: Seq<Seq<u8>>,
    pub ending: Option<Outcome<Seq<u8>>>,
}

impl Held {
    /// The same, after one more write at the beginning.
    pub open spec fn after(self, bytes: Seq<u8>) -> Held {
        Held { sent: seq![bytes] + self.sent, ending: self.ending }
    }

    pub open spec fn ended(ending: Option<Outcome<Seq<u8>>>) -> Held {
        Held { sent: seq![], ending }
    }
}

/// What a conversation comes to on a stream that holds these bytes and then
/// ends: the steps are taken in order, each answer is read from what the answers
/// before it left, an error ends the conversation there, and the last answer is
/// the result.
pub open spec fn held_from(
    script: Seq<ExchangeView>,
    incoming: Seq<u8>,
    last: Seq<u8>,
    traced: bool,
) -> Held
    decreases script.len(),
{
    if script.len() == 0 {
        Held::ended(Some(Ok(last)))
    } else {
        match script[0] {
            ExchangeView::Write(bytes) => held_from(script.skip(1), incoming, last, traced).after(
                bytes,
            ),
            ExchangeView::Response { has_output, has_length } => {
                let reader = response::fresh(has_output, has_length, traced);
                match reader.answer(incoming) {
                    Some(Ok(answer)) => held_from(
                        script.skip(1),
                        reader.left(incoming),
                        answer,
                        traced,
                    ),
                    Some(Err(e)) => Held::ended(Some(Err(e))),
                    None => Held::ended(None),
                }
            },
            ExchangeView::TooLong => Held::ended(Some(Err(ErrorView::FromInt))),
        }
    }
}

/// What a script comes to.
pub open spec fn held(script: Seq<ExchangeView>, incoming: Seq<u8>, traced: bool) -> Held {
    held_from(script, incoming, seq![], traced)
}

/// What the turns of a conversation come to when each is done as it says.
pub open spec fn carried_out(turn: TurnView, incoming: Seq<u8>) -> Held
    decreases
        (match turn {
            TurnView::Send(_, next) => next.rest.len(),
            TurnView::Read(_, next) => next.rest.len(),
            TurnView::Over(_) => 0,
        }),
        (match turn {
            TurnView::Send(_, _) => 4int,
            TurnView::Read(_, next) => match next.reader {
                Some(reader) => match reader.state {
                    ResponseState::Status => 3int,
                    ResponseState::FailLength => 2int,
                    _ => 1int,
                },
                None => 0int,
            },
            TurnView::Over(_) => 0int,
        }),
{
    match turn {
        TurnView::Over(o) => Held::ended(Some(o)),
        TurnView::Send(bytes, next) => carried_out(next.turn(), incoming).after(bytes),
        TurnView::Read(request, next) => {
            let n = match request {
                ReadRequest::Exact(n) => n as int,
                ReadRequest::ToEnd => incoming.len() as int,
            };
            if incoming.len() < n || !next.takes(incoming.take(n)) {
                Held::ended(None)
            } else {
                carried_out(next.step(incoming.take(n)), incoming.skip(n))
            }
        },
    }
}

proof fn lemma_reader_carried_out(next: ConversationView, reader: ResponseReader, incoming: Seq<u8>)
    requires
        next.reader == Some(reader),
    ensures
        carried_out(TurnView::Read(reader.wanted(), next), incoming) == (match reader.answer(
            incoming,
        ) {
            Some(Ok(answer)) => carried_out(
                (ConversationView { reader: None, answer, ..next }).turn(),
                reader.left(incoming),
            ),
            Some(Err(e)) => Held::ended(Some(Err(e))),
            None => Held::ended(None),
        }),
    decreases
        (match reader.state {
            ResponseState::Status => 2int,
            ResponseState::FailLength => 1int,
            _ => 0int,
        }),
{
    let n = match reader.wanted() {
        ReadRequest::Exact(n) => n as int,
        ReadRequest::ToEnd => incoming.len() as int,
    };
    reveal_with_fuel(carried_out, 2);
    if reader.state is Output {
        assert(incoming.take(n) =~= incoming);
        assert(incoming.skip(n) =~= seq![]);
    } else if incoming.len() >= n {
        let bytes = incoming.take(n);
        assert(next.takes(bytes));
        match reader.step(bytes) {
            ResponseStepView::Continue(later) => {
                let then = ConversationView { reader: Some(later), ..next };
                lemma_reader_carried_out(then, later, incoming.skip(n));
                assert(next.step(bytes) == TurnView::Read(later.wanted(), then));
                assert(reader.answer(incoming) == later.answer(incoming.skip(n)));
                assert(reader.left(incoming) == later.left(incoming.skip(n)));
            },
            ResponseStepView::Done(_) => {},
        }
    }
}

// Laws

/// Doing what each turn says comes to what the script comes to.
pub proof fn law_turns_hold_the_script(conversation: ConversationView, incoming: Seq<u8>)
    ensures
        carried_out(conversation.turn(), incoming) == held_from(
            conversation.rest,
            incoming,
            conversation.answer,
            conversation.traced,
        ),
    decreases conversation.rest.len(),
{
    if conversation.rest.len() > 0 {
        let rest = conversation.rest.skip(1);
        match conversation.rest[0] {
            ExchangeView::Write(_) => {
                law_turns_hold_the_script(
                    ConversationView { rest, reader: None, ..conversation },
                    incoming,
                );
            },
            ExchangeView::Response { has_output, has_length } => {
                let reader = response::fresh(has_output, has_length, conversation.traced);
                let next = ConversationView { rest, reader: Some(reader), ..conversation };
                lemma_reader_carried_out(next, reader, incoming);
                if let Some(Ok(answer)) = reader.answer(incoming) {
                    law_turns_hold_the_script(
                        ConversationView { rest, reader: None, answer, ..conversation },
                        reader.left(incoming),
                    );
                }
            },
            ExchangeView::TooLong => {},
        }
    }
}

/// When the first answer is not one of success, the conversation ends with it:
/// what was sent is the first request alone, whatever was to follow.
pub proof fn law_failed_answer_ends_conversation(
    request: Seq<u8>,
    has_output: bool,
    has_length: bool,
    later: Seq<ExchangeView>,
    incoming: Seq<u8>,
    traced: bool,
)
    ensures
        ({
            let first = seq![
                ExchangeView::Write(request),
                ExchangeView::Response { has_output, has_length },
            ];
            let reader = response::fresh(has_output, has_length, traced);
            let answer = reader.answer(incoming);
            let end = held(first + later, incoming, traced);
            match answer {
                Some(Ok(bytes)) => end == held_from(
                    later,
                    reader.left(incoming),
                    bytes,
                    traced,
                ).after(request),
                Some(Err(e)) => end.sent == seq![request] && end.ending == Some(
                    Err::<Seq<u8>, ErrorView>(e),
                ),
                None => end.sent == seq![request] && end.ending is None,
            }
        }),
{
    let first = seq![
        ExchangeView::Write(request),
        ExchangeView::Response { has_output, has_length },
    ];
    let script = first + later;
    let second = script.skip(1);
    assert(second[0] == ExchangeView::Response { has_output, has_length });
    assert(second.skip(1) =~= later);
    assert(held(script, incoming, traced) == held_from(second, incoming, seq![], traced).after(
        request,
    ));
    assert(seq![request] + Seq::<Seq<u8>>::empty() =~= seq![request]);
}

/// The steps of a script are taken one by one and in order. What is to be sent
/// is sent as it stands, and nothing is asked for meanwhile; for an answer its
/// status is read first; a request that is too long ends the conversation; and
/// where no step is left, the last answer is the result.
pub proof fn law_steps_are_taken_in_order(conversation: ConversationView)
    ensures
        conversation.rest.len() == 0 ==> conversation.turn() == TurnView::Over(
            Ok::<Seq<u8>, ErrorView>(conversation.answer),
        ),
        conversation.rest.len() > 0 ==> ({
            let rest = conversation.rest.subrange(1, conversation.rest.len() as int);
            match conversation.rest[0] {
                ExchangeView::Write(bytes) => {
                    &&& conversation.turn() matches TurnView::Send(sent, next)
                    &&& sent == bytes
                    &&& next.rest == rest
                    &&& next.answer == conversation.answer
                    &&& next.traced == conversation.traced
                },
                ExchangeView::Response { has_output, has_length } => {
                    &&& conversation.turn() matches TurnView::Read(request, next)
                    &&& request == ReadRequest::Exact(4)
                    &&& next.rest == rest
                    &&& next.traced == conversation.traced
                    &&& next.reader is Some
                    &&& next.reader->0.has_output == has_output
                    &&& next.reader->0.has_length == has_length
                    &&& next.reader->0.traced == conversation.traced
                },
                ExchangeView::TooLong => conversation.turn() == TurnView::Over(
                    Err::<Seq<u8>, ErrorView>(ErrorView::FromInt),
                ),
            }
        }),
{
}

/// An answer that is complete is kept and the next step is taken; an error ends
/// the conversation, whatever was still to follow.
pub proof fn law_answer_is_kept(
    conversation: ConversationView,
    reader: ResponseReader,
    bytes: Seq<u8>,
)
    requires
        conversation.reader == Some(reader),
    ensures
        match reader.step(bytes) {
            ResponseStepView::Continue(later) => {
                &&& conversation.step(bytes) matches TurnView::Read(request, next)
                &&& request == later.wanted()
                &&& next == (ConversationView { reader: Some(later), ..conversation })
            },
            ResponseStepView::Done(Ok(answer)) => {
                let after = ConversationView { reader: None, answer, ..conversation };
                &&& conversation.step(bytes) == after.turn()
                &&& conversation.rest.len() == 0 ==> conversation.step(bytes) == TurnView::Over(
                    Ok::<Seq<u8>, ErrorView>(answer),
                )
            },
            ResponseStepView::Done(Err(e)) => conversation.step(bytes) == TurnView::Over(
                Err::<Seq<u8>, ErrorView>(e),
            ),
        },
{
}

} // verus!
