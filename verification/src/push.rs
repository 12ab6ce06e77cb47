//! Sending a file to a device.
//!
//! A push is a conversation with the device and with the source of the file.
//! Here are its decisions: from what was done last and what came of it follows
//! what to do next.

use vstd::prelude::*;

use crate::adb::SyncCommand;
use crate::device::Device;
use crate::error;
use crate::error::{DeviceError, ErrorView, Outcome, Result};
use crate::exchange;
use crate::exchange::{Exchange, ExchangeView};
use crate::numbers;
use crate::path;
use crate::path::UnixPath;
use crate::pull;
use crate::sync;
use crate::text;
use crate::wire;

verus! {

/// The most that is sent in one piece, and the longest message that is read.
pub const MAX_SENT: usize = 0x8000;

/// What to do next.
#[derive(Debug)]
pub enum PushAction {
    /// See whether a path exists.
    Probe { path: UnixPath, run_as: bool },
    /// Create a directory, and those above it.
    CreateDir(UnixPath),
    /// Let everybody read, write and enter a directory and all below it.
    OpenUp(UnixPath),
    /// Open a connection and hold this conversation on it.
    Connect(Vec<Exchange>),
    /// Read a piece of the file, at most this many bytes; nothing at its end.
    ReadPiece(usize),
    /// Send bytes over the connection.
    Send(Vec<u8>),
    /// Read the clock.
    Clock,
    /// Read exactly this many bytes from the connection.
    Read(usize),
    /// Copy a file, keeping its permissions, as the package.
    Copy { from: UnixPath, to: UnixPath },
    /// Remove a file; it does not matter whether this succeeds.
    Remove(UnixPath),
}

/// What an action says.
pub enum PushActionView {
    Probe { path: Seq<u8>, run_as: bool },
    CreateDir(Seq<u8>),
    OpenUp(Seq<u8>),
    Connect(Seq<ExchangeView>),
    ReadPiece(usize),
    Send(Seq<u8>),
    Clock,
    Read(usize),
    Copy { from: Seq<u8>, to: Seq<u8> },
    Remove(Seq<u8>),
}

impl View for PushAction {
    type V = PushActionView;

    open spec fn view(&self) -> PushActionView {
        match *self {
            PushAction::Probe { path, run_as } => PushActionView::Probe { path: path@, run_as },
            PushAction::CreateDir(p) => PushActionView::CreateDir(p@),
            PushAction::OpenUp(p) => PushActionView::OpenUp(p@),
            PushAction::Connect(script) => PushActionView::Connect(exchange::script_view(script@)),
            PushAction::ReadPiece(n) => PushActionView::ReadPiece(n),
            PushAction::Send(bytes) => PushActionView::Send(bytes@),
            PushAction::Clock => PushActionView::Clock,
            PushAction::Read(n) => PushActionView::Read(n),
            PushAction::Copy { from, to } => PushActionView::Copy { from: from@, to: to@ },
            PushAction::Remove(p) => PushActionView::Remove(p@),
        }
    }
}

/// What came of an action that did not fail.
#[derive(Debug)]
pub enum PushEvent {
    /// Whether the probed path exists.
    Exists(bool),
    /// The action was done.
    Done,
    /// The piece of the file that was read.
    Piece(Vec<u8>),
    /// The seconds since the Unix epoch.
    Time(u64),
    /// The bytes that were read from the connection.
    Bytes(Vec<u8>),
    /// Whether the copy was made.
    Copied(Result<()>),
}

/// What an event says.
pub enum PushEventView {
    Exists(bool),
    Done,
    Piece(Seq<u8>),
    Time(u64),
    Bytes(Seq<u8>),
    Copied(Option<ErrorView>),
}

impl View for PushEvent {
    type V = PushEventView;

    open spec fn view(&self) -> PushEventView {
        match *self {
            PushEvent::Exists(found) => PushEventView::Exists(found),
            PushEvent::Done => PushEventView::Done,
            PushEvent::Piece(bytes) => PushEventView::Piece(bytes@),
            PushEvent::Time(seconds) => PushEventView::Time(seconds),
            PushEvent::Bytes(bytes) => PushEventView::Bytes(bytes@),
            PushEvent::Copied(Ok(_)) => PushEventView::Copied(None),
            PushEvent::Copied(Err(e)) => PushEventView::Copied(Some(e@)),
        }
    }
}

/// How far a push has come: what was asked for last.
#[derive(Debug, Clone, Copy, PartialEq, Eq, Structural)]
pub enum PushState {
    /// Whether a directory above the destination exists.
    Probing,
    /// The directory of the destination to be created.
    Creating,
    /// The directories that were created to be opened up.
    OpeningUp,
    /// The connection to be opened, and the transfer announced.
    Connecting,
    /// A piece of the file to be read.
    Reading,
    /// A piece of the file to be sent.
    Sending,
    /// The clock to be read.
    Timing,
    /// The end of the file to be sent.
    Closing,
    /// The status word to be read.
    Status,
    /// The temporary file to be copied to the destination.
    Copying,
    /// The temporary file to be removed after the copy.
    RemovingCopied,
    /// The temporary file to be removed after a failure.
    RemovingFailed,
    /// The length of the failure message to be read.
    FailLength,
    /// The failure message to be read.
    FailMessage(usize),
    /// The file to be removed after a word that has no place there.
    RemovingUnknown,
}

/// A push under way.
#[derive(Debug)]
pub struct Push {
    /// The serial number of the device.
    pub serial: String,
    /// Where the file is to go.
    pub dest: UnixPath,
    /// Where the file is sent to: the destination, or a temporary file.
    pub via: UnixPath,
    /// The destination belongs to the package as which commands are run.
    pub run_as: bool,
    /// The mode of the file.
    pub mode: u32,
    /// The directory that is probed.
    pub current: Option<UnixPath>,
    /// The lowest directory that is missing.
    pub leaf: Option<UnixPath>,
    /// The highest directory that is missing.
    pub root: Option<UnixPath>,
    /// What went wrong with the copy.
    pub copy_error: Option<DeviceError>,
    pub state: PushState,
}

/// What a push holds.
pub struct PushView {
    pub serial: Seq<char>,
    pub dest: Seq<u8>,
    pub via: Seq<u8>,
    pub run_as: bool,
    pub mode: u32,
    pub current: Option<Seq<u8>>,
    pub leaf: Option<Seq<u8>>,
    pub root: Option<Seq<u8>>,
    pub copy_error: Option<ErrorView>,
    pub state: PushState,
}

pub open spec fn path_option(p: Option<UnixPath>) -> Option<Seq<u8>> {
    match p {
        Some(p) => Some(p@),
        None => None,
    }
}

impl View for Push {
    type V = PushView;

    open spec fn view(&self) -> PushView {
        PushView {
            serial: self.serial@,
            dest: self.dest@,
            via: self.via@,
            run_as: self.run_as,
            mode: self.mode,
            current: path_option(self.current),
            leaf: path_option(self.leaf),
            root: path_option(self.root),
            copy_error: match self.copy_error {
                Some(e) => Some(e@),
                None => None,
            },
            state: self.state,
        }
    }
}

/// What follows from an event.
#[derive(Debug)]
pub enum PushStep {
    /// This has to be done next.
    Next(Push, PushAction),
    /// The push is over.
    Over(Result<()>),
}

/// What a step says.
pub enum PushStepView {
    Next(PushView, PushActionView),
    Over(Outcome<()>),
}

impl View for PushStep {
    type V = PushStepView;

    open spec fn view(&self) -> PushStepView {
        match *self {
            PushStep::Next(push, action) => PushStepView::Next(push@, action@),
            PushStep::Over(Ok(_)) => PushStepView::Over(Ok(())),
            PushStep::Over(Err(e)) => PushStepView::Over(Err(e@)),
        }
    }
}

// The bytes of a transfer

/// The destination and the mode, as a transfer is announced with them.
pub open spec fn send_arguments(via: Seq<u8>, mode: u32) -> Seq<u8> {
    vstd::utf8::encode_utf8(path::display_text(via) + ","@ + numbers::decimal_text(mode as nat))
}

/// The end of the file, with the low 32 bits of the time.
pub open spec fn done_bytes(seconds: u64) -> Seq<u8> {
    SyncCommand::Done.bytes() + wire::little_endian_bytes((seconds % 0x1_0000_0000) as nat)
}

/// Builds the end of the file.
pub fn make_done(seconds: u64) -> (r: Vec<u8>)
    ensures
        r@ == done_bytes(seconds),
{
    let time: u32 = (seconds % 0x1_0000_0000) as u32;
    let code: [u8; 4] = SyncCommand::Done.code();
    let length: [u8; 4] = wire::write_length_little_endian(time as usize);
    let mut r: Vec<u8> = vstd::slice::slice_to_vec(code.as_slice());
    r.extend_from_slice(length.as_slice());
    assert(r@ =~= done_bytes(seconds));
    r
}

// Decisions

impl PushView {
    pub open spec fn at(self, state: PushState) -> PushView {
        PushView { state, ..self }
    }

    /// The state has what its next step needs.
    pub open spec fn is_valid(self) -> bool {
        &&& self.state is Probing ==> self.current is Some
        &&& self.leaf is Some <==> self.root is Some
    }

    /// The event is one that the state waits for.
    pub open spec fn takes(self, event: PushEventView) -> bool {
        match self.state {
            PushState::Probing => event is Exists,
            PushState::Reading => event matches PushEventView::Piece(bytes) && bytes.len()
                <= MAX_SENT,
            PushState::Timing => event is Time,
            PushState::Status => event matches PushEventView::Bytes(bytes) && bytes.len() == 4,
            PushState::Copying => event is Copied,
            PushState::FailLength => event matches PushEventView::Bytes(bytes) && bytes.len() == 4,
            PushState::FailMessage(n) => event matches PushEventView::Bytes(bytes) && bytes.len()
                == n,
            _ => event is Done,
        }
    }

    /// Probe the next directory upwards, or see to the missing ones.
    pub open spec fn probe(self) -> PushStepView {
        match self.current {
            Some(p) => PushStepView::Next(
                self.at(PushState::Probing),
                PushActionView::Probe { path: p, run_as: self.run_as },
            ),
            None => self.create(),
        }
    }

    /// Create the lowest missing directory, and with it those above it.
    pub open spec fn create(self) -> PushStepView {
        match self.leaf {
            Some(p) => PushStepView::Next(
                self.at(PushState::Creating),
                PushActionView::CreateDir(p),
            ),
            None => self.open_up(),
        }
    }

    /// Open up the highest directory that was missing, and all below it.
    pub open spec fn open_up(self) -> PushStepView {
        match self.root {
            Some(p) => PushStepView::Next(self.at(PushState::OpeningUp), PushActionView::OpenUp(p)),
            None => self.connect(),
        }
    }

    /// Announce the transfer.
    pub open spec fn connect(self) -> PushStepView {
        PushStepView::Next(
            self.at(PushState::Connecting),
            PushActionView::Connect(
                sync::sync_script(
                    self.serial,
                    SyncCommand::Send,
                    send_arguments(self.via, self.mode),
                ),
            ),
        )
    }

    pub open spec fn read_piece(self) -> PushStepView {
        PushStepView::Next(self.at(PushState::Reading), PushActionView::ReadPiece(MAX_SENT))
    }

    pub open spec fn read_fail_length(self) -> PushStepView {
        PushStepView::Next(self.at(PushState::FailLength), PushActionView::Read(4))
    }

    pub open spec fn remove(self, state: PushState) -> PushStepView {
        PushStepView::Next(self.at(state), PushActionView::Remove(self.via))
    }

    /// The push after a directory was found missing.
    pub open spec fn found_missing(self) -> PushView {
        PushView {
            current: path::parent_of(self.current->0),
            leaf: if self.leaf is Some {
                self.leaf
            } else {
                self.current
            },
            root: self.current,
            ..self
        }
    }

    /// What follows from an event.
    pub open spec fn step(self, event: PushEventView) -> PushStepView {
        match self.state {
            PushState::Probing => if event->Exists_0 {
                self.create()
            } else {
                self.found_missing().probe()
            },
            PushState::Creating => self.open_up(),
            PushState::OpeningUp => self.connect(),
            PushState::Connecting => self.read_piece(),
            PushState::Reading => {
                let piece = event->Piece_0;
                if piece.len() == 0 {
                    PushStepView::Next(self.at(PushState::Timing), PushActionView::Clock)
                } else {
                    PushStepView::Next(
                        self.at(PushState::Sending),
                        PushActionView::Send(sync::frame(SyncCommand::Data, piece)),
                    )
                }
            },
            PushState::Sending => self.read_piece(),
            PushState::Timing => PushStepView::Next(
                self.at(PushState::Closing),
                PushActionView::Send(done_bytes(event->Time_0)),
            ),
            PushState::Closing => PushStepView::Next(
                self.at(PushState::Status),
                PushActionView::Read(4),
            ),
            PushState::Status => {
                let word = event->Bytes_0;
                if word == SyncCommand::Okay.bytes() {
                    if self.run_as {
                        PushStepView::Next(
                            self.at(PushState::Copying),
                            PushActionView::Copy { from: self.via, to: self.dest },
                        )
                    } else {
                        PushStepView::Over(Ok(()))
                    }
                } else if word == SyncCommand::Fail.bytes() {
                    if self.run_as {
                        self.remove(PushState::RemovingFailed)
                    } else {
                        self.read_fail_length()
                    }
                } else {
                    self.remove(PushState::RemovingUnknown)
                }
            },
            PushState::Copying => (PushView { copy_error: event->Copied_0, ..self }).remove(
                PushState::RemovingCopied,
            ),
            PushState::RemovingCopied => match self.copy_error {
                Some(e) => PushStepView::Over(Err(e)),
                None => PushStepView::Over(Ok(())),
            },
            PushState::RemovingFailed => self.read_fail_length(),
            PushState::FailLength => {
                let n = sync::capped(wire::little_endian(event->Bytes_0), MAX_SENT);
                PushStepView::Next(self.at(PushState::FailMessage(n)), PushActionView::Read(n))
            },
            PushState::FailMessage(_) => PushStepView::Over(
                Err(sync::sync_failure(event->Bytes_0)),
            ),
            PushState::RemovingUnknown => PushStepView::Over(Err(sync::unknown_word())),
        }
    }

    /// A fresh push.
    pub open spec fn fresh(device: Device, dest: Seq<u8>, mode: u32) -> PushView {
        PushView {
            serial: device.serial@,
            dest,
            via: if device.runs_as_for(dest) {
                device.tempfile@
            } else {
                dest
            },
            run_as: device.runs_as_for(dest),
            mode,
            current: path::parent_of(dest),
            leaf: None,
            root: None,
            copy_error: None,
            state: PushState::Probing,
        }
    }
}

impl Device {
    /// Begins to send a file. The directories above the destination that do
    /// not exist are created and opened up first. A file that belongs to the
    /// package is sent to the temporary file and then copied by the package.
    pub fn push(&self, dest: &UnixPath, mode: u32) -> (r: PushStep)
        ensures
            r@ == PushView::fresh(*self, dest@, mode).probe(),
            r matches PushStep::Next(push, _) && push@.is_valid(),
    {
        let run_as: bool = self.enable_run_as_for_path(dest);
        let via: UnixPath = if run_as {
            self.tempfile.to_path_buf()
        } else {
            dest.to_path_buf()
        };
        let push: Push = Push {
            serial: self.serial.clone(),
            dest: dest.to_path_buf(),
            via,
            run_as,
            mode,
            current: dest.parent(),
            leaf: None,
            root: None,
            copy_error: None,
            state: PushState::Probing,
        };
        push.probe()
    }

    /// Lets everybody read, write and enter a directory and all below it.
    pub fn open_up(&self, p: &UnixPath) -> (r: Result<Vec<Exchange>>)
        ensures
            exchange::script_outcome(r) == self.shell_script(
                "chmod "@ + " -R"@ + " "@ + "777"@ + " "@ + path::display_text(p@),
                self.runs_as_for(p@),
            ),
    {
        self.chmod(p, "777", true)
    }

    /// Copies a file as the package, and keeps its permissions.
    pub fn copy(&self, from: &UnixPath, to: &UnixPath) -> (r: Result<Vec<Exchange>>)
        ensures
            exchange::script_outcome(r) == self.shell_script(
                "cp -aR "@ + path::display_text(from@) + " "@ + path::display_text(to@),
                true,
            ),
    {
        let source: String = from.display();
        let target: String = to.display();
        let command: String = text::concat4("cp -aR ", source.as_str(), " ", target.as_str());
        self.execute_host_shell_command_as(command.as_str(), true)
    }
}

// Commands

/// The action is to run a shell command.
pub open spec fn is_command(action: PushActionView) -> bool {
    match action {
        PushActionView::Probe { path, run_as } => true,
        PushActionView::CreateDir(_) => true,
        PushActionView::OpenUp(_) => true,
        PushActionView::Copy { from, to } => true,
        PushActionView::Remove(_) => true,
        _ => false,
    }
}

impl Device {
    /// The conversation that carries out an action which is a shell command.
    pub open spec fn command_script(self, action: PushActionView) -> Option<
        Outcome<Seq<ExchangeView>>,
    > {
        match action {
            PushActionView::Probe { path, run_as } => Some(
                self.shell_script("ls "@ + path::display_text(path), run_as),
            ),
            PushActionView::CreateDir(p) => Some(
                self.shell_script("mkdir -p "@ + path::display_text(p), self.runs_as_for(p)),
            ),
            PushActionView::OpenUp(p) => Some(
                self.shell_script(
                    "chmod "@ + " -R"@ + " "@ + "777"@ + " "@ + path::display_text(p),
                    self.runs_as_for(p),
                ),
            ),
            PushActionView::Copy { from, to } => Some(
                self.shell_script(
                    "cp -aR "@ + path::display_text(from) + " "@ + path::display_text(to),
                    true,
                ),
            ),
            PushActionView::Remove(p) => Some(
                self.shell_script("rm -rf "@ + path::display_text(p), self.runs_as_for(p)),
            ),
            _ => None,
        }
    }

    /// The conversation that carries out an action, where the action is a shell
    /// command.
    pub fn script_of(&self, action: &PushAction) -> (r: Option<Result<Vec<Exchange>>>)
        ensures
            self.command_script(action@) == (match r {
                Some(script) => Some(exchange::script_outcome(script)),
                None => None,
            }),
    {
        match action {
            PushAction::Probe { path, run_as } => Some(self.path_exists(path, *run_as)),
            PushAction::CreateDir(p) => Some(self.create_dir(p)),
            PushAction::OpenUp(p) => Some(self.open_up(p)),
            PushAction::Copy { from, to } => Some(self.copy(from, to)),
            PushAction::Remove(p) => Some(self.remove(p)),
            _ => None,
        }
    }
}

/// The error of a shell command whose output does not matter, if there is one.
pub open spec fn command_error(outcome: Outcome<Seq<u8>>) -> Option<ErrorView> {
    match outcome {
        Err(e) => Some(e),
        Ok(bytes) => match wire::utf8_outcome(bytes) {
            Err(e) => Some(e),
            Ok(_) => None,
        },
    }
}

/// What came of a shell command, given how its conversation ended. A copy that
/// fails does not end the push, nor does a removal.
pub open spec fn command_event(action: PushActionView, outcome: Outcome<Seq<u8>>) -> Outcome<
    PushEventView,
> {
    match action {
        PushActionView::Probe { path, run_as } => match outcome {
            Err(e) => Err(e),
            Ok(bytes) => match crate::device::mentions(bytes, "No such file or directory"@) {
                Err(e) => Err(e),
                Ok(missing) => Ok(PushEventView::Exists(!missing)),
            },
        },
        PushActionView::Copy { from, to } => Ok(PushEventView::Copied(command_error(outcome))),
        PushActionView::Remove(_) => Ok(PushEventView::Done),
        _ => match command_error(outcome) {
            Some(e) => Err(e),
            None => Ok(PushEventView::Done),
        },
    }
}

fn read_command(outcome: Result<Vec<u8>>) -> (r: Result<()>)
    ensures
        command_error(error::outcome(outcome)) == (match r {
            Ok(_) => None,
            Err(e) => Some(e@),
        }),
{
    match outcome {
        Ok(bytes) => Device::read_done(&bytes),
        Err(e) => Err(e),
    }
}

/// What came of a shell command, given how its conversation ended.
pub fn read_event(action: &PushAction, outcome: Result<Vec<u8>>) -> (r: Result<PushEvent>)
    requires
        is_command(action@),
    ensures
        error::outcome(r) == command_event(action@, error::outcome(outcome)),
{
    match action {
        PushAction::Probe { path: _, run_as: _ } => match outcome {
            Err(e) => Err(e),
            Ok(bytes) => match Device::read_path_exists(&bytes) {
                Err(e) => Err(e),
                Ok(found) => Ok(PushEvent::Exists(found)),
            },
        },
        PushAction::Copy { from: _, to: _ } => Ok(PushEvent::Copied(read_command(outcome))),
        PushAction::Remove(_) => Ok(PushEvent::Done),
        _ => match read_command(outcome) {
            Ok(_) => Ok(PushEvent::Done),
            Err(e) => Err(e),
        },
    }
}

impl Push {
    fn at(self, state: PushState) -> (r: Push)
        ensures
            r@ == self@.at(state),
    {
        Push { state, ..self }
    }

    fn probe(self) -> (r: PushStep)
        requires
            self@.leaf is Some <==> self@.root is Some,
        ensures
            r@ == self@.probe(),
            r matches PushStep::Next(push, _) && push@.is_valid(),
    {
        let p: UnixPath = match &self.current {
            Some(p) => p.to_path_buf(),
            None => return self.create(),
        };
        let run_as: bool = self.run_as;
        PushStep::Next(self.at(PushState::Probing), PushAction::Probe { path: p, run_as })
    }

    fn create(self) -> (r: PushStep)
        requires
            self@.leaf is Some <==> self@.root is Some,
        ensures
            r@ == self@.create(),
            r matches PushStep::Next(push, _) && push@.is_valid(),
    {
        let p: UnixPath = match &self.leaf {
            Some(p) => p.to_path_buf(),
            None => return self.open_up(),
        };
        PushStep::Next(self.at(PushState::Creating), PushAction::CreateDir(p))
    }

    fn open_up(self) -> (r: PushStep)
        requires
            self@.leaf is Some <==> self@.root is Some,
        ensures
            r@ == self@.open_up(),
            r matches PushStep::Next(push, _) && push@.is_valid(),
    {
        let p: UnixPath = match &self.root {
            Some(p) => p.to_path_buf(),
            None => return self.connect(),
        };
        PushStep::Next(self.at(PushState::OpeningUp), PushAction::OpenUp(p))
    }

    fn connect(self) -> (r: PushStep)
        requires
            self@.leaf is Some <==> self@.root is Some,
        ensures
            r@ == self@.connect(),
            r matches PushStep::Next(push, _) && push@.is_valid(),
    {
        let digits: String = numbers::decimal(self.mode as u64);
        let arguments: String = text::concat3(self.via.display().as_str(), ",", digits.as_str());
        let script: Vec<Exchange> = sync::sync_exchanges(
            self.serial.as_str(),
            SyncCommand::Send,
            arguments.as_str().as_bytes(),
        );
        PushStep::Next(self.at(PushState::Connecting), PushAction::Connect(script))
    }

    fn read_piece(self) -> (r: PushStep)
        ensures
            r@ == self@.read_piece(),
    {
        PushStep::Next(self.at(PushState::Reading), PushAction::ReadPiece(MAX_SENT))
    }

    fn read_fail_length(self) -> (r: PushStep)
        ensures
            r@ == self@.read_fail_length(),
    {
        PushStep::Next(self.at(PushState::FailLength), PushAction::Read(4))
    }

    fn remove(self, state: PushState) -> (r: PushStep)
        ensures
            r@ == self@.remove(state),
    {
        let via: UnixPath = self.via.to_path_buf();
        PushStep::Next(self.at(state), PushAction::Remove(via))
    }

    fn missing(self) -> (r: PushStep)
        requires
            self@.is_valid(),
            self@.state is Probing,
        ensures
            r@ == self@.found_missing().probe(),
            r matches PushStep::Next(push, _) && push@.is_valid(),
    {
        let Push { serial, dest, via, run_as, mode, current, leaf, root, copy_error, state } = self;
        match current {
            Some(p) => {
                let lowest: UnixPath = match leaf {
                    Some(leaf) => leaf,
                    None => p.to_path_buf(),
                };
                let push: Push = Push {
                    serial,
                    dest,
                    via,
                    run_as,
                    mode,
                    current: p.parent(),
                    leaf: Some(lowest),
                    root: Some(p),
                    copy_error,
                    state,
                };
                push.probe()
            },
            None => {
                let push: Push = Push {
                    serial,
                    dest,
                    via,
                    run_as,
                    mode,
                    current,
                    leaf,
                    root,
                    copy_error,
                    state,
                };
                push.probe()
            },
        }
    }

    fn status(self, word: &Vec<u8>) -> (r: PushStep)
        requires
            self@.state is Status,
            word@.len() == 4,
        ensures
            r@ == self@.step(PushEventView::Bytes(word@)),
    {
        if sync::is_word(word, SyncCommand::Okay) {
            if self.run_as {
                let from: UnixPath = self.via.to_path_buf();
                let to: UnixPath = self.dest.to_path_buf();
                PushStep::Next(self.at(PushState::Copying), PushAction::Copy { from, to })
            } else {
                PushStep::Over(Ok(()))
            }
        } else if sync::is_word(word, SyncCommand::Fail) {
            if self.run_as {
                self.remove(PushState::RemovingFailed)
            } else {
                self.read_fail_length()
            }
        } else {
            self.remove(PushState::RemovingUnknown)
        }
    }

    /// Takes what came of the action that was asked for.
    pub fn advance(self, event: PushEvent) -> (r: PushStep)
        requires
            self@.is_valid(),
            self@.takes(event@),
        ensures
            r@ == self@.step(event@),
            r matches PushStep::Next(push, _) ==> push@.is_valid(),
    {
        match (self.state, event) {
            (PushState::Probing, PushEvent::Exists(found)) => {
                if found {
                    self.create()
                } else {
                    self.missing()
                }
            },
            (PushState::Creating, _) => self.open_up(),
            (PushState::OpeningUp, _) => self.connect(),
            (PushState::Connecting, _) => self.read_piece(),
            (PushState::Reading, PushEvent::Piece(piece)) => {
                if piece.len() == 0 {
                    PushStep::Next(self.at(PushState::Timing), PushAction::Clock)
                } else {
                    let frame: Vec<u8> = sync::make_frame(SyncCommand::Data, piece.as_slice());
                    PushStep::Next(self.at(PushState::Sending), PushAction::Send(frame))
                }
            },
            (PushState::Sending, _) => self.read_piece(),
            (PushState::Timing, PushEvent::Time(seconds)) => PushStep::Next(
                self.at(PushState::Closing),
                PushAction::Send(make_done(seconds)),
            ),
            (PushState::Closing, _) => PushStep::Next(
                self.at(PushState::Status),
                PushAction::Read(4),
            ),
            (PushState::Status, PushEvent::Bytes(word)) => self.status(&word),
            (PushState::Copying, PushEvent::Copied(copied)) => {
                let copy_error: Option<DeviceError> = match copied {
                    Ok(_) => None,
                    Err(e) => Some(e),
                };
                (Push { copy_error, ..self }).remove(PushState::RemovingCopied)
            },
            (PushState::RemovingCopied, _) => match self.copy_error {
                Some(e) => PushStep::Over(Err(e)),
                None => PushStep::Over(Ok(())),
            },
            (PushState::RemovingFailed, _) => self.read_fail_length(),
            (PushState::FailLength, PushEvent::Bytes(length)) => {
                let n: usize = sync::read_capped(&length, MAX_SENT);
                PushStep::Next(self.at(PushState::FailMessage(n)), PushAction::Read(n))
            },
            (PushState::FailMessage(_), PushEvent::Bytes(message)) => PushStep::Over(
                Err(sync::read_failure(&message)),
            ),
            // Only the removal after an unknown word is left.
            (_, _) => PushStep::Over(Err(DeviceError::Adb("FAIL (unknown)".to_owned()))),
        }
    }
}

// Runs

impl PushView {
    /// The actions that follow from events, one after the other.
    pub open spec fn actions(self, events: Seq<PushEventView>) -> Seq<PushActionView>
        decreases events.len(),
    {
        if events.len() == 0 {
            seq![]
        } else {
            match self.step(events[0]) {
                PushStepView::Next(next, action) => seq![action] + next.actions(
                    events.drop_first(),
                ),
                PushStepView::Over(_) => seq![],
            }
        }
    }

    /// How the push ends with these events; `None` where it goes on.
    pub open spec fn ending(self, events: Seq<PushEventView>) -> Option<Outcome<()>>
        decreases events.len(),
    {
        if events.len() == 0 {
            None
        } else {
            match self.step(events[0]) {
                PushStepView::Next(next, _) => next.ending(events.drop_first()),
                PushStepView::Over(o) => Some(o),
            }
        }
    }

    /// The push after the first `n` probes found nothing.
    pub open spec fn missed(self, n: nat) -> PushView
        decreases n,
    {
        if n == 0 {
            self
        } else {
            self.missed((n - 1) as nat).found_missing()
        }
    }
}

/// The bytes that the actions send.
pub open spec fn sent_bytes(actions: Seq<PushActionView>) -> Seq<u8>
    decreases actions.len(),
{
    if actions.len() == 0 {
        seq![]
    } else {
        (match actions[0] {
            PushActionView::Send(bytes) => bytes,
            _ => seq![],
        }) + sent_bytes(actions.drop_first())
    }
}

/// The events of a transfer: each piece is read and sent, until nothing is
/// left to read; then the clock is read.
pub open spec fn transfer_events(pieces: Seq<Seq<u8>>, seconds: u64) -> Seq<PushEventView>
    decreases pieces.len(),
{
    if pieces.len() == 0 {
        seq![PushEventView::Piece(seq![]), PushEventView::Time(seconds)]
    } else {
        seq![PushEventView::Piece(pieces[0]), PushEventView::Done] + transfer_events(
            pieces.drop_first(),
            seconds,
        )
    }
}

/// The directory that lies `n` levels above a path.
pub open spec fn ancestor(p: Seq<u8>, n: nat) -> Option<Seq<u8>>
    decreases n,
{
    if n == 0 {
        Some(p)
    } else {
        match ancestor(p, (n - 1) as nat) {
            Some(q) => path::parent_of(q),
            None => None,
        }
    }
}

// Laws

/// When the nearest directories above the destination are missing, the lowest
/// of them is created, and the highest of them is opened up.
pub proof fn law_missing_directories(device: Device, dest: Seq<u8>, mode: u32, n: nat)
    requires
        n > 0,
        ancestor(dest, n) is Some,
    ensures
        ({
            let start = PushView::fresh(device, dest, mode);
            let push = start.missed(n);
            &&& push == (PushView {
                current: ancestor(dest, n + 1),
                leaf: ancestor(dest, 1),
                root: ancestor(dest, n),
                ..start
            })
            &&& push.create() == PushStepView::Next(
                push.at(PushState::Creating),
                PushActionView::CreateDir(ancestor(dest, 1)->0),
            )
            &&& push.at(PushState::Creating).step(PushEventView::Done) == PushStepView::Next(
                push.at(PushState::OpeningUp),
                PushActionView::OpenUp(ancestor(dest, n)->0),
            )
        }),
    decreases n,
{
    let start = PushView::fresh(device, dest, mode);
    assert(ancestor(dest, 0) == Some(dest));
    assert(ancestor(dest, 1) == path::parent_of(dest));
    if n > 1 {
        law_missing_directories(device, dest, mode, (n - 1) as nat);
    } else {
        assert(start.missed(0) == start);
    }
    assert(start.missed(n) == start.missed((n - 1) as nat).found_missing());
}

/// Each directory above a path is shorter than the one below it.
proof fn lemma_ancestor_is_shorter(p: Seq<u8>, n: nat)
    ensures
        ancestor(p, n) matches Some(q) ==> q.len() + n <= p.len(),
    decreases n,
{
    if n > 0 {
        lemma_ancestor_is_shorter(p, (n - 1) as nat);
        if let Some(q) = ancestor(p, (n - 1) as nat) {
            path::law_parent(q);
        }
    }
}

/// Looking for the missing directories ends: however many are missing, there
/// are no more directories above the destination than its path has bytes.
pub proof fn law_probing_ends(device: Device, dest: Seq<u8>, mode: u32)
    ensures
        exists|n: nat|
            n <= dest.len() && #[trigger] ancestor(dest, n) is Some && ancestor(dest, n + 1) is None
                && (n > 0 ==> PushView::fresh(device, dest, mode).missed(n).current is None),
{
    let n = lemma_highest_ancestor(dest, 0);
    if n > 0 {
        law_missing_directories(device, dest, mode, n);
    }
}

proof fn lemma_highest_ancestor(dest: Seq<u8>, from: nat) -> (n: nat)
    requires
        ancestor(dest, from) is Some,
    ensures
        n <= dest.len(),
        ancestor(dest, n) is Some,
        ancestor(dest, n + 1) is None,
    decreases dest.len() - from,
{
    lemma_ancestor_is_shorter(dest, from);
    if ancestor(dest, from + 1) is None {
        from
    } else {
        lemma_ancestor_is_shorter(dest, from + 1);
        lemma_highest_ancestor(dest, from + 1)
    }
}

/// What comes of a shell command is what the push waits for.
pub proof fn law_commands_are_waited_for(
    push: PushView,
    event: PushEventView,
    outcome: Outcome<Seq<u8>>,
)
    requires
        push.is_valid(),
        push.takes(event),
    ensures
        push.step(event) matches PushStepView::Next(next, action) ==> is_command(action) ==> (
        command_event(action, outcome) matches Ok(answer) ==> next.takes(answer)),
{
}

/// Nothing is created where the directory of the destination exists.
pub proof fn law_existing_directory(device: Device, dest: Seq<u8>, mode: u32)
    ensures
        PushView::fresh(device, dest, mode).step(PushEventView::Exists(true))
            == PushView::fresh(device, dest, mode).connect(),
{
}

/// What a transfer sends is the pieces of the file, each behind its length,
/// and then the end of the file.
#[verifier::rlimit(40)]
#[verifier::spinoff_prover]
pub proof fn law_transfer_sends_file(push: PushView, pieces: Seq<Seq<u8>>, seconds: u64)
    requires
        push.state is Reading,
        forall|i: int| 0 <= i < pieces.len() ==> (#[trigger] pieces[i]).len() > 0,
    ensures
        sent_bytes(push.actions(transfer_events(pieces, seconds))) == pull::data_frames(pieces)
            + done_bytes(seconds),
    decreases pieces.len(),
{
    let events = transfer_events(pieces, seconds);
    if pieces.len() == 0 {
        let timing = push.at(PushState::Timing);
        let closing = timing.at(PushState::Closing);
        let last = PushActionView::Send(done_bytes(seconds));
        let rest = events.drop_first();
        assert(rest =~= seq![PushEventView::Time(seconds)]);
        assert(rest.drop_first() =~= Seq::<PushEventView>::empty());
        assert(closing.actions(rest.drop_first()) =~= seq![]);
        assert(timing.actions(rest) =~= seq![last]);
        assert(push.actions(events) =~= seq![PushActionView::Clock, last]);
        let sent = seq![PushActionView::Clock, last];
        assert(sent.drop_first() =~= seq![last]);
        assert(seq![last].drop_first() =~= Seq::<PushActionView>::empty());
        assert(sent_bytes(Seq::<PushActionView>::empty()) =~= Seq::<u8>::empty());
        assert(sent_bytes(seq![last]) =~= done_bytes(seconds));
        assert(sent_bytes(sent) =~= done_bytes(seconds));
        assert(pull::data_frames(pieces) + done_bytes(seconds) =~= done_bytes(seconds));
    } else {
        let piece = pieces[0];
        let others = pieces.drop_first();
        let sending = push.at(PushState::Sending);
        let reading = push.at(PushState::Reading);
        let rest = transfer_events(others, seconds);
        let frame = sync::frame(SyncCommand::Data, piece);
        let first = PushActionView::Send(frame);
        let second = PushActionView::ReadPiece(MAX_SENT);
        assert(events[0] == PushEventView::Piece(piece));
        assert(events.drop_first()[0] == PushEventView::Done);
        assert(events.drop_first().drop_first() =~= rest);
        assert(sending.step(PushEventView::Done) == PushStepView::Next(reading, second));
        let tail = reading.actions(rest);
        assert(sending.actions(events.drop_first()) =~= seq![second] + tail);
        assert(push.actions(events) =~= seq![first] + (seq![second] + tail));
        assert forall|i: int| 0 <= i < others.len() implies (#[trigger] others[i]).len() > 0 by {
            assert(pieces[i + 1].len() > 0);
        }
        law_transfer_sends_file(reading, others, seconds);
        let all = seq![first] + (seq![second] + tail);
        assert(all.drop_first() =~= seq![second] + tail);
        assert((seq![second] + tail).drop_first() =~= tail);
        assert(sent_bytes(seq![second] + tail) =~= sent_bytes(tail));
        assert(sent_bytes(all) =~= frame + sent_bytes(tail));
        assert(frame + (pull::data_frames(others) + done_bytes(seconds)) =~= pull::data_frames(
            pieces,
        ) + done_bytes(seconds));
    }
}

/// A file that is pushed is the file that a pull of the same bytes receives.
pub proof fn law_push_pull_round_trip(push: PushView, pieces: Seq<Seq<u8>>, seconds: u64)
    requires
        push.state is Reading,
        forall|i: int| 0 <= i < pieces.len() ==> 0 < (#[trigger] pieces[i]).len() <= 32768,
    ensures
        (pull::Pull { state: pull::PullState::Id }).received(
            sent_bytes(push.actions(transfer_events(pieces, seconds))),
        ) == Some((pull::joined(pieces), Ok::<(), ErrorView>(()))),
{
    let time = wire::little_endian_bytes((seconds % 0x1_0000_0000) as nat);
    law_transfer_sends_file(push, pieces, seconds);
    assert(pull::data_frames(pieces) + done_bytes(seconds) =~= pull::data_frames(pieces)
        + SyncCommand::Done.bytes() + time);
    pull::law_frames_are_received(pieces, time);
}

/// A push succeeds only where the device accepts the file, and, for a file of
/// the package, where the package could copy it.
pub proof fn law_push_succeeds(push: PushView, event: PushEventView)
    requires
        push.takes(event),
    ensures
        push.step(event) == PushStepView::Over(Ok::<(), ErrorView>(())) <==> {
            ||| push.state is Status && !push.run_as && event == PushEventView::Bytes(
                SyncCommand::Okay.bytes(),
            )
            ||| push.state is RemovingCopied && push.copy_error is None
        },
{
}

/// Whatever the device answers, a push through the temporary file ends only
/// after the temporary file was to be removed.
pub proof fn law_temporary_file_is_removed(push: PushView, events: Seq<PushEventView>)
    requires
        push.state is Status,
        push.run_as,
        push.ending(events) is Some,
    ensures
        push.actions(events).contains(PushActionView::Remove(push.via)),
{
    let removal = PushActionView::Remove(push.via);
    let word = events[0]->Bytes_0;
    let rest = events.drop_first();
    if word == SyncCommand::Okay.bytes() {
        let copying = push.at(PushState::Copying);
        assert(copying.ending(rest) is Some);
        let copied = PushView { copy_error: rest[0]->Copied_0, ..copying };
        let after = copied.at(PushState::RemovingCopied).actions(rest.drop_first());
        assert(copying.actions(rest) =~= seq![removal] + after);
        assert(push.actions(events)[1] == removal);
    } else {
        assert(push.actions(events)[0] == removal);
    }
}

/// A transfer whose pieces were read and sent goes on with what follows.
#[verifier::rlimit(40)]
#[verifier::spinoff_prover]
proof fn lemma_transfer_goes_on(
    push: PushView,
    pieces: Seq<Seq<u8>>,
    seconds: u64,
    rest: Seq<PushEventView>,
)
    requires
        push.state is Reading,
        forall|i: int| 0 <= i < pieces.len() ==> (#[trigger] pieces[i]).len() > 0,
    ensures
        push.ending(transfer_events(pieces, seconds) + rest) == push.at(PushState::Closing).ending(
            rest,
        ),
    decreases pieces.len(),
{
    let events = transfer_events(pieces, seconds) + rest;
    if pieces.len() == 0 {
        let timing = push.at(PushState::Timing);
        assert(events[0] == PushEventView::Piece(seq![]));
        let later = events.drop_first();
        assert(later[0] == PushEventView::Time(seconds));
        assert(later.drop_first() =~= rest);
        assert(timing.ending(later) == push.at(PushState::Closing).ending(rest));
    } else {
        let others = pieces.drop_first();
        let sending = push.at(PushState::Sending);
        assert(events[0] == PushEventView::Piece(pieces[0]));
        let later = events.drop_first();
        assert(later[0] == PushEventView::Done);
        assert(later.drop_first() =~= transfer_events(others, seconds) + rest);
        assert forall|i: int| 0 <= i < others.len() implies (#[trigger] others[i]).len() > 0 by {
            assert(pieces[i + 1].len() > 0);
        }
        assert(push.at(PushState::Reading) == push);
        lemma_transfer_goes_on(push, others, seconds, rest);
        assert(sending.ending(later) == push.ending(later.drop_first()));
    }
}

/// A push of a file that is not the package's succeeds once the transfer was
/// announced, every piece was sent, and the device accepted the file.
pub proof fn law_accepted_push(push: PushView, pieces: Seq<Seq<u8>>, seconds: u64)
    requires
        push.state is Connecting,
        !push.run_as,
        forall|i: int| 0 <= i < pieces.len() ==> (#[trigger] pieces[i]).len() > 0,
    ensures
        push.ending(
            seq![PushEventView::Done] + (transfer_events(pieces, seconds) + seq![
                PushEventView::Done,
                PushEventView::Bytes(SyncCommand::Okay.bytes()),
            ]),
        ) == Some(Ok::<(), ErrorView>(())),
{
    let last = seq![PushEventView::Done, PushEventView::Bytes(SyncCommand::Okay.bytes())];
    let transfer = transfer_events(pieces, seconds) + last;
    let events = seq![PushEventView::Done] + transfer;
    let reading = push.at(PushState::Reading);
    assert(events.drop_first() =~= transfer);
    assert(push.ending(events) == reading.ending(transfer));
    lemma_transfer_goes_on(reading, pieces, seconds, last);
    let closing = reading.at(PushState::Closing);
    let status = reading.at(PushState::Status);
    assert(last.drop_first()[0] == PushEventView::Bytes(SyncCommand::Okay.bytes()));
    assert(closing.ending(last) == status.ending(last.drop_first()));
}

/// A push that the device refuses ends with the device's message, whether or
/// not the temporary file has to be removed first.
pub proof fn law_refused_push(push: PushView, message: Seq<char>)
    requires
        push.state is Status,
        vstd::utf8::encode_utf8(message).len() <= 32768,
    ensures
        ({
            let body = vstd::utf8::encode_utf8(message);
            let removal = if push.run_as {
                seq![PushEventView::Done]
            } else {
                seq![]
            };
            push.ending(
                seq![PushEventView::Bytes(SyncCommand::Fail.bytes())] + (removal + seq![
                    PushEventView::Bytes(wire::little_endian_bytes(body.len())),
                    PushEventView::Bytes(body),
                ]),
            ) == Some(Err::<(), ErrorView>(ErrorView::Adb("adb error: "@ + message)))
        }),
{
    let body = vstd::utf8::encode_utf8(message);
    let length = wire::little_endian_bytes(body.len());
    let told = seq![PushEventView::Bytes(length), PushEventView::Bytes(body)];
    let removal = if push.run_as {
        seq![PushEventView::Done]
    } else {
        seq![]
    };
    let events = seq![PushEventView::Bytes(SyncCommand::Fail.bytes())] + (removal + told);
    assert(SyncCommand::Fail.bytes()[0] != SyncCommand::Okay.bytes()[0]);
    assert(events.drop_first() =~= removal + told);
    let at_length = push.at(PushState::FailLength);
    let n = sync::capped(body.len(), MAX_SENT);
    let at_message = push.at(PushState::FailMessage(n));
    wire::law_little_endian_round_trip(body.len());
    vstd::utf8::encode_utf8_valid_utf8(message);
    vstd::utf8::encode_utf8_decode_utf8(message);
    assert(told.drop_first()[0] == PushEventView::Bytes(body));
    assert(at_message.ending(told.drop_first()) == Some(Err::<(), ErrorView>(
        ErrorView::Adb("adb error: "@ + message),
    )));
    assert(at_length.ending(told) == at_message.ending(told.drop_first()));
    if push.run_as {
        let removing = push.at(PushState::RemovingFailed);
        assert((removal + told).drop_first() =~= told);
        assert(removing.ending(removal + told) == at_length.ending(told));
    } else {
        assert(removal + told =~= told);
    }
}

/// The bytes are the announcement of a file: the word for it, and a text in
/// which the last comma parts the path from the mode, written in decimal.
pub open spec fn announces(sent: Seq<u8>, target: Seq<u8>, mode: u32) -> bool {
    let said = wire::utf8_outcome(sent.skip(8));
    let front = path::display_text(target);
    &&& sent.len() >= 8
    &&& sent.take(4) == seq![0x53u8, 0x45, 0x4e, 0x44]
    &&& said is Ok
    &&& said->Ok_0.len() > front.len() + 1
    &&& said->Ok_0.take(front.len() as int) == front
    &&& said->Ok_0[front.len() as int] == ','
    &&& ({
        let behind = said->Ok_0.skip(front.len() as int + 1);
        &&& !behind.contains(',')
        &&& numbers::are_digits(behind)
        &&& behind.fold_left(0int, |v: int, c: char| v * 10 + (c as u32 - 0x30)) == mode
        &&& numbers::number_value(behind, 10, u32::MAX as nat) == Ok::<
            nat,
            numbers::ParseIntError,
        >(mode as nat)
    })
}

/// A file is announced with the path that it is sent to and with its mode: the
/// text behind the last comma, read as a decimal number, is the mode.
pub proof fn law_announcement_tells_path_and_mode(target: Seq<u8>, mode: u32)
    ensures
        announces(sync::frame(SyncCommand::Send, send_arguments(target, mode)), target, mode),
{
    let arguments = send_arguments(target, mode);
    let sent = sync::frame(SyncCommand::Send, arguments);
    let front = path::display_text(target);
    let digits = numbers::decimal_text(mode as nat);
    let said = front + ","@ + digits;
    reveal_strlit(",");
    assert(","@ =~= seq![',']);
    sync::law_frame_is_word_length_and_body(SyncCommand::Send, arguments);
    assert(SyncCommand::Send.bytes() =~= seq![0x53u8, 0x45, 0x4e, 0x44]);
    wire::law_text_is_read_from_its_encoding(arguments, said);
    numbers::law_decimal_adds_up(mode as nat);
    numbers::law_decimal_read_back(mode as nat, u32::MAX as nat);
    assert(said.take(front.len() as int) =~= front);
    assert(said.skip(front.len() as int + 1) =~= digits);
    assert(!digits.contains(',')) by {
        if digits.contains(',') {
            let i = choose|i: int| 0 <= i < digits.len() && digits[i] == ',';
            assert(0x30 <= digits[i] as u32);
        }
    }
}

/// A push starts with the mode and the destination that it was given. The file
/// goes to the temporary file where the destination is the package's, and to the
/// destination itself where it is not.
pub proof fn law_push_starts_with_what_it_was_given(device: Device, dest: Seq<u8>, mode: u32)
    ensures
        ({
            let push = PushView::fresh(device, dest, mode);
            &&& push.mode == mode
            &&& push.dest == dest
            &&& push.serial == device.serial@
            &&& push.run_as == device.runs_as_for(dest)
            &&& device.runs_as_for(dest) ==> push.via == device.tempfile@
            &&& !device.runs_as_for(dest) ==> push.via == dest
            &&& push.current == path::parent_of(dest)
            &&& push.leaf is None
            &&& push.root is None
            &&& push.copy_error is None
        }),
{
}

/// What holds of a step: the push keeps what it was given, and where it opens
/// the connection, the file is announced with the path that it is sent to and
/// with its mode.
pub open spec fn keeps(push: PushView, step: PushStepView) -> bool {
    match step {
        PushStepView::Over(_) => true,
        PushStepView::Next(next, action) => {
            &&& next.mode == push.mode
            &&& next.dest == push.dest
            &&& next.via == push.via
            &&& next.serial == push.serial
            &&& next.run_as == push.run_as
            &&& match action {
                PushActionView::Connect(script) => {
                    &&& script.len() == 5
                    &&& script[4] matches ExchangeView::Write(sent)
                    &&& announces(sent, push.via, push.mode)
                },
                _ => true,
            }
        },
    }
}

/// Whatever happens, a push keeps what it was given, and announces the file with
/// the path that it is sent to and with its mode.
pub proof fn law_push_keeps_what_it_was_given(push: PushView, event: PushEventView)
    requires
        vstd::utf8::encode_utf8("host:transport:"@ + push.serial).len() <= 65535,
    ensures
        keeps(push, push.step(event)),
        keeps(push, push.probe()),
{
    let arguments = send_arguments(push.via, push.mode);
    sync::law_sync_script_is_three_steps(push.serial, SyncCommand::Send, arguments);
    law_announcement_tells_path_and_mode(push.via, push.mode);
}

/// Where a directory is missing, the one above it is probed next, as the same
/// user; the lowest and the highest of the missing ones are remembered.
pub proof fn law_missing_directory_is_remembered(push: PushView, directory: Seq<u8>)
    requires
        push.state is Probing,
        push.current == Some(directory),
    ensures
        ({
            let lowest = if push.leaf is Some {
                push.leaf
            } else {
                Some(directory)
            };
            let after = push.step(PushEventView::Exists(false));
            &&& after is Next
            &&& after->Next_0.leaf == lowest
            &&& after->Next_0.root == Some(directory)
            &&& path::parent_of(directory) matches Some(above) ==> after->Next_1
                == PushActionView::Probe { path: above, run_as: push.run_as }
            &&& path::parent_of(directory) is None ==> after->Next_1 == PushActionView::CreateDir(
                lowest->0,
            )
        }),
{
}

/// The probes that go upwards from a destination.
pub open spec fn probes(dest: Seq<u8>, from: nat, count: nat, run_as: bool) -> Seq<PushActionView> {
    Seq::new(
        count,
        |i: int|
            PushActionView::Probe { path: ancestor(dest, (from + i) as nat)->0, run_as },
    )
}

/// As many answers that a directory is missing.
pub open spec fn absences(count: nat) -> Seq<PushEventView> {
    Seq::new(count, |i: int| PushEventView::Exists(false))
}

proof fn lemma_ancestors(dest: Seq<u8>, n: nat, m: nat)
    requires
        n <= m,
        ancestor(dest, m) is Some,
    ensures
        ancestor(dest, n) is Some,
    decreases m - n,
{
    if n < m {
        lemma_ancestors(dest, n, (m - 1) as nat);
    }
}

proof fn lemma_directories_are_made(device: Device, dest: Seq<u8>, mode: u32, m: nat)
    requires
        m > 0,
        ancestor(dest, m) is Some,
    ensures
        ({
            let start = PushView::fresh(device, dest, mode);
            start.missed(m).at(PushState::Creating).actions(
                seq![PushEventView::Done, PushEventView::Done],
            ) == seq![
                PushActionView::OpenUp(ancestor(dest, m)->0),
                start.connect()->Next_1,
            ]
        }),
{
    let push = PushView::fresh(device, dest, mode).missed(m);
    let events = seq![PushEventView::Done, PushEventView::Done];
    let one = events.drop_first();
    let creating = push.at(PushState::Creating);
    let opening = push.at(PushState::OpeningUp);
    let connecting = push.at(PushState::Connecting);
    law_missing_directories(device, dest, mode, m);
    assert(one =~= seq![PushEventView::Done]);
    assert(one.drop_first() =~= Seq::<PushEventView>::empty());
    assert(connecting.actions(one.drop_first()) =~= seq![]);
    let last = push.connect()->Next_1;
    assert(opening.step(one[0]) == PushStepView::Next(connecting, last));
    assert(opening.actions(one) =~= seq![last]);
    assert(creating.actions(events) =~= seq![
        PushActionView::OpenUp(ancestor(dest, m)->0),
        last,
    ]);
}

/// The action that creates the lowest directory, and those that follow it.
pub open spec fn makings(device: Device, dest: Seq<u8>, mode: u32, m: nat) -> Seq<PushActionView> {
    seq![
        PushActionView::CreateDir(ancestor(dest, 1)->0),
        PushActionView::OpenUp(ancestor(dest, m)->0),
        PushView::fresh(device, dest, mode).connect()->Next_1,
    ]
}

proof fn lemma_one_more_probe(
    push: PushView,
    next: PushView,
    probe: PushActionView,
    events: Seq<PushEventView>,
)
    requires
        push.step(PushEventView::Exists(false)) == PushStepView::Next(next, probe),
    ensures
        push.actions(seq![PushEventView::Exists(false)] + events) == seq![probe] + next.actions(
            events,
        ),
{
    let all = seq![PushEventView::Exists(false)] + events;
    assert(all.drop_first() =~= events);
}

#[verifier::rlimit(40)]
#[verifier::spinoff_prover]
proof fn lemma_probed_up_to(device: Device, dest: Seq<u8>, mode: u32, m: nat, k: nat)
    requires
        m > 0,
        k <= m,
        ancestor(dest, m + 1) is Some,
    ensures
        ({
            let start = PushView::fresh(device, dest, mode);
            start.missed(k).actions(
                absences((m - k) as nat) + seq![
                    PushEventView::Exists(true),
                    PushEventView::Done,
                    PushEventView::Done,
                ],
            ) == probes(dest, k + 2, (m - k) as nat, start.run_as) + makings(device, dest, mode, m)
        }),
    decreases m - k,
{
    let start = PushView::fresh(device, dest, mode);
    let push = start.missed(k);
    let tail = seq![PushEventView::Exists(true), PushEventView::Done, PushEventView::Done];
    let events = absences((m - k) as nat) + tail;
    lemma_ancestors(dest, m, m + 1);
    if k == m {
        assert(events =~= tail);
        law_missing_directories(device, dest, mode, m);
        lemma_directories_are_made(device, dest, mode, m);
        assert(tail.drop_first() =~= seq![PushEventView::Done, PushEventView::Done]);
        assert(push.step(tail[0]) == push.create());
        assert(push.actions(tail) =~= makings(device, dest, mode, m));
        assert(probes(dest, k + 2, 0, start.run_as) + makings(device, dest, mode, m) =~= makings(
            device,
            dest,
            mode,
            m,
        ));
    } else {
        let next = start.missed(k + 1);
        let later = absences((m - k - 1) as nat) + tail;
        lemma_ancestors(dest, k + 1, m + 1);
        lemma_ancestors(dest, k + 2, m + 1);
        law_missing_directories(device, dest, mode, k + 1);
        lemma_probed_up_to(device, dest, mode, m, k + 1);
        assert(next == push.found_missing());
        assert(next.at(PushState::Probing) == next);
        let probe = PushActionView::Probe {
            path: ancestor(dest, k + 2)->0,
            run_as: start.run_as,
        };
        assert(next.current == ancestor(dest, k + 2));
        assert(push.state is Probing) by {
            if k > 0 {
                lemma_ancestors(dest, k, m + 1);
                law_missing_directories(device, dest, mode, k);
            } else {
                assert(start.missed(0) == start);
            }
        }
        assert(push.step(PushEventView::Exists(false)) == PushStepView::Next(next, probe));
        lemma_one_more_probe(push, next, probe, later);
        assert(events =~= seq![PushEventView::Exists(false)] + later);
        assert(probes(dest, k + 2, (m - k) as nat, start.run_as) =~= seq![probe] + probes(
            dest,
            k + 3,
            (m - k - 1) as nat,
            start.run_as,
        ));
        assert(seq![probe] + (probes(dest, k + 3, (m - k - 1) as nat, start.run_as) + makings(
            device,
            dest,
            mode,
            m,
        )) =~= probes(dest, k + 2, (m - k) as nat, start.run_as) + makings(
            device,
            dest,
            mode,
            m,
        ));
    }
}

/// Where the nearest directories above a destination are missing and the one
/// above them exists, each is probed from the lowest upwards. Then the lowest is
/// created, the highest that was missing is opened up, and the connection is
/// opened.
pub proof fn law_missing_directories_are_made_in_order(
    device: Device,
    dest: Seq<u8>,
    mode: u32,
    m: nat,
)
    requires
        m > 0,
        ancestor(dest, m + 1) is Some,
    ensures
        ({
            let start = PushView::fresh(device, dest, mode);
            start.actions(
                absences(m) + seq![
                    PushEventView::Exists(true),
                    PushEventView::Done,
                    PushEventView::Done,
                ],
            ) == probes(dest, 2, m, device.runs_as_for(dest)) + seq![
                PushActionView::CreateDir(ancestor(dest, 1)->0),
                PushActionView::OpenUp(ancestor(dest, m)->0),
                start.connect()->Next_1,
            ]
        }),
{
    lemma_probed_up_to(device, dest, mode, m, 0);
    assert(PushView::fresh(device, dest, mode).missed(0) == PushView::fresh(device, dest, mode));
}

/// The directory above a path is the one that its parent is.
pub proof fn law_ancestors_are_parents(p: Seq<u8>, n: nat)
    ensures
        ancestor(p, 0) == Some(p),
        ancestor(p, n) matches Some(q) ==> ancestor(p, n + 1) == path::parent_of(q),
        ancestor(p, n) is None ==> ancestor(p, n + 1) is None,
{
}

/// The file is read in pieces of at most 32768 bytes.
pub proof fn law_pieces_are_asked_for(push: PushView)
    ensures
        push.state is Connecting || push.state is Sending ==> (push.step(PushEventView::Done)
            == PushStepView::Next(
            push.at(PushState::Reading),
            PushActionView::ReadPiece(32768),
        )),
{
}

/// The end of a file is its word, and then the low 32 bits of the time.
pub proof fn law_end_of_file_tells_the_time(seconds: u64)
    ensures
        done_bytes(seconds).len() == 8,
        done_bytes(seconds).take(4) == seq![0x44u8, 0x4f, 0x4e, 0x45],
        wire::little_endian(done_bytes(seconds).skip(4)) == seconds % 0x1_0000_0000,
{
    let time = (seconds % 0x1_0000_0000) as nat;
    wire::lemma_length_read_back(time);
    assert(SyncCommand::Done.bytes() =~= seq![0x44u8, 0x4f, 0x4e, 0x45]);
    assert(done_bytes(seconds).take(4) =~= SyncCommand::Done.bytes());
    assert(done_bytes(seconds).skip(4) =~= wire::little_endian_bytes(time));
}

/// What a transfer sends is each piece of the file, in order, behind the word
/// for it and its length, and then the word for the end, with the time.
pub proof fn law_transfer_sends_each_piece(push: PushView, pieces: Seq<Seq<u8>>, seconds: u64)
    requires
        push.state is Reading,
        forall|i: int| 0 <= i < pieces.len() ==> (#[trigger] pieces[i]).len() > 0,
    ensures
        sent_bytes(push.actions(transfer_events(pieces, seconds))) == pieces.map_values(
            |piece: Seq<u8>|
                seq![0x44u8, 0x41, 0x54, 0x41] + wire::little_endian_bytes(piece.len()) + piece,
        ).flatten() + seq![0x44u8, 0x4f, 0x4e, 0x45] + wire::little_endian_bytes(
            (seconds % 0x1_0000_0000) as nat,
        ),
{
    law_transfer_sends_file(push, pieces, seconds);
    lemma_data_frames(pieces);
    assert(SyncCommand::Done.bytes() =~= seq![0x44u8, 0x4f, 0x4e, 0x45]);
    let time = wire::little_endian_bytes((seconds % 0x1_0000_0000) as nat);
    assert(pull::data_frames(pieces) + done_bytes(seconds) =~= pull::data_frames(pieces) + seq![
        0x44u8,
        0x4f,
        0x4e,
        0x45,
    ] + time);
}

proof fn lemma_data_frames(pieces: Seq<Seq<u8>>)
    ensures
        pull::data_frames(pieces) == pieces.map_values(
            |piece: Seq<u8>|
                seq![0x44u8, 0x41, 0x54, 0x41] + wire::little_endian_bytes(piece.len()) + piece,
        ).flatten(),
    decreases pieces.len(),
{
    let f = |piece: Seq<u8>|
        seq![0x44u8, 0x41, 0x54, 0x41] + wire::little_endian_bytes(piece.len()) + piece;
    if pieces.len() == 0 {
        assert(pieces.map_values(f) =~= seq![]);
    } else {
        lemma_data_frames(pieces.drop_first());
        assert(SyncCommand::Data.bytes() =~= seq![0x44u8, 0x41, 0x54, 0x41]);
        assert(pieces.map_values(f).drop_first() =~= pieces.drop_first().map_values(f));
        assert(pieces.map_values(f)[0] == f(pieces[0]));
    }
}

/// A file of the package that the device accepts is copied from the temporary
/// file to the destination. Then the temporary file is removed, and the push
/// ends as the copy did.
pub proof fn law_accepted_file_of_the_package_is_copied(
    push: PushView,
    copied: Option<ErrorView>,
)
    requires
        push.state is Status,
        push.run_as,
    ensures
        ({
            let events = seq![
                PushEventView::Bytes(SyncCommand::Okay.bytes()),
                PushEventView::Copied(copied),
                PushEventView::Done,
            ];
            &&& push.actions(events) == seq![
                PushActionView::Copy { from: push.via, to: push.dest },
                PushActionView::Remove(push.via),
            ]
            &&& push.ending(events) == Some(
                match copied {
                    Some(e) => Err::<(), ErrorView>(e),
                    None => Ok(()),
                },
            )
        }),
{
    let events = seq![
        PushEventView::Bytes(SyncCommand::Okay.bytes()),
        PushEventView::Copied(copied),
        PushEventView::Done,
    ];
    let two = events.drop_first();
    let one = two.drop_first();
    let copying = push.at(PushState::Copying);
    let removing = (PushView { copy_error: copied, ..copying }).at(PushState::RemovingCopied);
    assert(two =~= seq![PushEventView::Copied(copied), PushEventView::Done]);
    assert(one =~= seq![PushEventView::Done]);
    assert(removing.actions(one) =~= seq![]);
    assert(copying.actions(two) =~= seq![PushActionView::Remove(push.via)]);
    assert(push.actions(events) =~= seq![
        PushActionView::Copy { from: push.via, to: push.dest },
        PushActionView::Remove(push.via),
    ]);
    assert(copying.ending(two) == removing.ending(one));
    assert(push.ending(events) == copying.ending(two));
}

/// A word that has no place at the end of a transfer ends the push: what was
/// sent is removed, and the error says so.
pub proof fn law_unknown_word_ends_the_push(push: PushView, word: Seq<u8>)
    requires
        push.state is Status,
        word != SyncCommand::Okay.bytes(),
        word != SyncCommand::Fail.bytes(),
    ensures
        ({
            let events = seq![PushEventView::Bytes(word), PushEventView::Done];
            &&& push.actions(events) == seq![PushActionView::Remove(push.via)]
            &&& push.ending(events) == Some(
                Err::<(), ErrorView>(ErrorView::Adb("FAIL (unknown)"@)),
            )
        }),
{
    let events = seq![PushEventView::Bytes(word), PushEventView::Done];
    let one = events.drop_first();
    let removing = push.at(PushState::RemovingUnknown);
    assert(one =~= seq![PushEventView::Done]);
    assert(removing.actions(one) =~= seq![]);
    assert(push.actions(events) =~= seq![PushActionView::Remove(push.via)]);
    assert(push.ending(events) == removing.ending(one));
}

/// A push that fails reads as many bytes of the message as were announced, but
/// no more than 32768, and ends with the message.
pub proof fn law_failed_push_is_answered_with_its_message(
    push: PushView,
    n: nat,
    message: Seq<u8>,
)
    requires
        push.state is FailLength,
        n < 0x1_0000_0000,
        message.len() == if n < 32768 {
            n
        } else {
            32768
        },
    ensures
        ({
            let events = seq![
                PushEventView::Bytes(wire::little_endian_bytes(n)),
                PushEventView::Bytes(message),
            ];
            &&& push.actions(events) == seq![PushActionView::Read(message.len() as usize)]
            &&& push.ending(events) == Some(
                Err::<(), ErrorView>(
                    match wire::utf8_outcome(message) {
                        Ok(words) => ErrorView::Adb("adb error: "@ + words),
                        Err(_) => ErrorView::Adb("adb error was not utf-8"@),
                    },
                ),
            )
        }),
{
    let events = seq![
        PushEventView::Bytes(wire::little_endian_bytes(n)),
        PushEventView::Bytes(message),
    ];
    let one = events.drop_first();
    let length = message.len() as usize;
    let telling = push.at(PushState::FailMessage(length));
    wire::lemma_length_read_back(n);
    assert(one =~= seq![PushEventView::Bytes(message)]);
    assert(push.step(events[0]) == PushStepView::Next(telling, PushActionView::Read(length)));
    assert(telling.actions(one) =~= seq![]);
    assert(push.actions(events) =~= seq![PushActionView::Read(length)]);
    assert(push.ending(events) == telling.ending(one));
}

/// Which shell command carries out an action, and whether the package runs it.
pub proof fn law_actions_and_their_commands(
    device: Device,
    p: Seq<char>,
    q: Seq<char>,
    file: Seq<u8>,
    other: Seq<u8>,
    run_as: bool,
)
    requires
        path::display_text(file) == p,
        path::display_text(other) == q,
    ensures
        device.command_script(PushActionView::Probe { path: file, run_as }) == Some(
            device.shell_script("ls "@ + p, run_as),
        ),
        device.command_script(PushActionView::CreateDir(file)) == Some(
            device.shell_script("mkdir -p "@ + p, device.runs_as_for(file)),
        ),
        device.command_script(PushActionView::OpenUp(file)) == Some(
            device.shell_script("chmod  -R 777 "@ + p, device.runs_as_for(file)),
        ),
        device.command_script(PushActionView::Copy { from: file, to: other }) == Some(
            device.shell_script("cp -aR "@ + p + " "@ + q, true),
        ),
        device.command_script(PushActionView::Remove(file)) == Some(
            device.shell_script("rm -rf "@ + p, device.runs_as_for(file)),
        ),
{
    reveal_strlit("chmod ");
    reveal_strlit(" -R");
    reveal_strlit(" ");
    reveal_strlit("777");
    reveal_strlit("chmod  -R 777 ");
    assert("chmod "@ + " -R"@ + " "@ + "777"@ + " "@ + p =~= "chmod  -R 777 "@ + p);
}

/// A path exists where the answer does not have the device's words for a missing
/// one. The answer is taken to have no line ends of two characters.
pub proof fn law_path_exists_unless_it_is_said_to_be_missing(
    file: Seq<u8>,
    run_as: bool,
    answer: Seq<char>,
)
    requires
        forall|x: Seq<char>, y: Seq<char>| answer != #[trigger] (x + "\r\n"@ + y),
    ensures
        command_event(
            PushActionView::Probe { path: file, run_as },
            Ok(vstd::utf8::encode_utf8(answer)),
        ) == Ok::<PushEventView, ErrorView>(
            PushEventView::Exists(
                forall|a: Seq<char>, b: Seq<char>|
                    answer != #[trigger] (a + "No such file or directory"@ + b),
            ),
        ),
{
    let phrase = "No such file or directory"@;
    crate::device::law_mentions(answer, phrase);
    let found = exists|a: Seq<char>, b: Seq<char>| answer == #[trigger] (a + phrase + b);
    if found {
        let (a, b) = choose|a: Seq<char>, b: Seq<char>| answer == #[trigger] (a + phrase + b);
        assert(answer == a + phrase + b);
    }
}

/// A probe, a creation or an opening up that cannot be carried out ends the push
/// with its error; a copy that cannot be carried out is reported; and whether a
/// removal can be carried out does not matter.
pub proof fn law_failed_commands(
    file: Seq<u8>,
    other: Seq<u8>,
    run_as: bool,
    e: ErrorView,
    output: Seq<char>,
    any: Outcome<Seq<u8>>,
)
    ensures
        ({
            let failed = Err::<Seq<u8>, ErrorView>(e);
            let done = Ok::<Seq<u8>, ErrorView>(vstd::utf8::encode_utf8(output));
            let ended = Err::<PushEventView, ErrorView>(e);
            let went_on = Ok::<PushEventView, ErrorView>(PushEventView::Done);
            &&& command_event(PushActionView::Probe { path: file, run_as }, failed) == ended
            &&& command_event(PushActionView::CreateDir(file), failed) == ended
            &&& command_event(PushActionView::CreateDir(file), done) == went_on
            &&& command_event(PushActionView::OpenUp(file), failed) == ended
            &&& command_event(PushActionView::OpenUp(file), done) == went_on
            &&& command_event(PushActionView::Copy { from: file, to: other }, failed) == Ok::<
                PushEventView,
                ErrorView,
            >(PushEventView::Copied(Some(e)))
            &&& command_event(PushActionView::Copy { from: file, to: other }, done) == Ok::<
                PushEventView,
                ErrorView,
            >(PushEventView::Copied(None))
            &&& command_event(PushActionView::Remove(file), any) == went_on
        }),
        any matches Ok(bytes) ==> (!vstd::utf8::valid_utf8(bytes) ==> ({
            let e = ErrorView::Utf8(wire::utf8_error(bytes));
            let ended = Err::<PushEventView, ErrorView>(e);
            &&& command_event(PushActionView::Probe { path: file, run_as }, any) == ended
            &&& command_event(PushActionView::CreateDir(file), any) == ended
            &&& command_event(PushActionView::OpenUp(file), any) == ended
            &&& command_event(PushActionView::Copy { from: file, to: other }, any) == Ok::<
                PushEventView,
                ErrorView,
            >(PushEventView::Copied(Some(e)))
        })),
{
    wire::law_text_is_read_from_its_encoding(vstd::utf8::encode_utf8(output), output);
}

/// A push begins with a probe of the directory that the destination is in, as
/// the user that the destination belongs to. A destination that is in none is
/// sent to at once.
pub proof fn law_push_begins_with_a_probe(device: Device, dest: Seq<u8>, mode: u32)
    ensures
        ({
            let first = PushView::fresh(device, dest, mode).probe();
            &&& first is Next
            &&& path::parent_of(dest) matches Some(directory) ==> first->Next_1
                == PushActionView::Probe { path: directory, run_as: device.runs_as_for(dest) }
            &&& path::parent_of(dest) is None ==> first->Next_1 is Connect
        }),
{
}

/// What is read from the connection: the status word after the end of the file,
/// the length of a failure message after the removal of what was sent, or at once
/// where nothing is to be removed. Each is four bytes long.
pub proof fn law_four_bytes_are_read_at_a_time(push: PushView)
    ensures
        push.state is Closing ==> push.step(PushEventView::Done) == PushStepView::Next(
            push.at(PushState::Status),
            PushActionView::Read(4),
        ),
        push.state is RemovingFailed ==> push.step(PushEventView::Done) == PushStepView::Next(
            push.at(PushState::FailLength),
            PushActionView::Read(4),
        ),
        push.state is Status && !push.run_as ==> push.step(
            PushEventView::Bytes(SyncCommand::Fail.bytes()),
        ) == PushStepView::Next(push.at(PushState::FailLength), PushActionView::Read(4)),
        push.state is Status && push.run_as ==> push.step(
            PushEventView::Bytes(SyncCommand::Fail.bytes()),
        ) == PushStepView::Next(
            push.at(PushState::RemovingFailed),
            PushActionView::Remove(push.via),
        ),
{
    assert(SyncCommand::Fail.bytes()[0] != SyncCommand::Okay.bytes()[0]);
}

} // verus!
