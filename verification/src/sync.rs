//! The file synchronisation protocol: requests, failures, and directory
//! listings.

use vstd::prelude::*;

use crate::adb::SyncCommand;
use crate::error::{DeviceError, ErrorView, Outcome, Result};
use crate::exchange;
use crate::exchange::{Exchange, ExchangeView};
use crate::numbers;
use crate::response;
use crate::text;
use crate::wire;

verus! {

/// The most that is received in one piece.
pub const MAX_RECEIVED: usize = 0x1_0000;

// Requests

/// A word, the length of what follows, and what follows.
pub open spec fn frame(command: SyncCommand, body: Seq<u8>) -> Seq<u8> {
    command.bytes() + wire::little_endian_bytes(body.len()) + body
}

/// Builds a frame.
pub fn make_frame(command: SyncCommand, body: &[u8]) -> (r: Vec<u8>)
    ensures
        r@ == frame(command, body@),
{
    let code: [u8; 4] = command.code();
    let length: [u8; 4] = wire::write_length_little_endian(body.len());
    let mut r: Vec<u8> = vstd::slice::slice_to_vec(code.as_slice());
    r.extend_from_slice(length.as_slice());
    r.extend_from_slice(body);
    assert(r@ =~= frame(command, body@));
    r
}

/// To switch a connection to a device, and there to the synchronisation
/// service, and to send a request.
pub open spec fn sync_script(serial: Seq<char>, command: SyncCommand, body: Seq<u8>) -> Seq<
    ExchangeView,
> {
    exchange::followed_by(
        exchange::followed_by(
            exchange::request_script("host:transport:"@ + serial, false, true),
            exchange::request_script("sync:"@, false, true),
        ),
        seq![ExchangeView::Write(frame(command, body))],
    )
}

/// The conversation that sends a request of the synchronisation protocol.
pub fn sync_exchanges(serial: &str, command: SyncCommand, body: &[u8]) -> (r: Vec<Exchange>)
    ensures
        exchange::script_view(r@) == sync_script(serial@, command, body@),
{
    let transport: String = text::concat2("host:transport:", serial);
    let first: Vec<Exchange> = exchange::server_exchanges(transport.as_str(), false, true);
    let second: Vec<Exchange> = exchange::add_request(first, "sync:", false, true);
    exchange::add_write(second, make_frame(command, body))
}

// Failures

/// What a failure message amounts to.
pub open spec fn sync_failure(bytes: Seq<u8>) -> ErrorView {
    match wire::utf8_outcome(bytes) {
        Ok(message) => ErrorView::Adb("adb error: "@ + message),
        Err(_) => ErrorView::Adb("adb error was not utf-8"@),
    }
}

/// The error for a failure message.
pub fn read_failure(bytes: &Vec<u8>) -> (r: DeviceError)
    ensures
        r@ == sync_failure(bytes@),
{
    match wire::decode_text(bytes.as_slice()) {
        Ok(message) => DeviceError::Adb(text::concat2("adb error: ", message.as_str())),
        Err(_) => DeviceError::Adb("adb error was not utf-8".to_owned()),
    }
}

/// The error for a word that has no place where it stands.
pub open spec fn unknown_word() -> ErrorView {
    ErrorView::Adb("FAIL (unknown)"@)
}

/// How much of a message is read: no more than a buffer holds.
pub open spec fn capped(n: nat, most: usize) -> usize {
    if n < most {
        n as usize
    } else {
        most
    }
}

/// Reads a length, and caps it at what a buffer holds.
pub fn read_capped(bytes: &Vec<u8>, most: usize) -> (n: usize)
    requires
        bytes@.len() == 4,
    ensures
        n == capped(wire::little_endian(bytes@), most),
{
    let head: [u8; 4] = response::first_four(bytes);
    assert(bytes@.take(4) =~= bytes@);
    let n: usize = wire::read_length_little_endian(&head);
    if n < most {
        n
    } else {
        most
    }
}

// Directory entries

/// What is known about a file.
#[derive(Debug, Clone, Copy, PartialEq, Eq, PartialOrd, Ord, Structural)]
pub struct RemoteFileMetadata {
    pub mode: usize,
    pub size: usize,
}

/// What an entry is.
#[derive(Debug, Clone, Copy, PartialEq, Eq, PartialOrd, Ord, Structural)]
pub enum RemoteMetadata {
    RemoteFile(RemoteFileMetadata),
    RemoteDir,
    RemoteSymlink,
}

/// An entry of a directory on the device.
#[derive(Debug, PartialEq, Eq, PartialOrd, Ord)]
pub struct RemoteDirEntry {
    pub depth: usize,
    pub metadata: RemoteMetadata,
    pub name: String,
}

/// What an entry says.
pub struct EntryView {
    pub depth: usize,
    pub metadata: RemoteMetadata,
    pub name: Seq<char>,
}

impl View for RemoteDirEntry {
    type V = EntryView;

    open spec fn view(&self) -> EntryView {
        EntryView { depth: self.depth, metadata: self.metadata, name: self.name@ }
    }
}

/// What a list of entries says.
pub open spec fn entries_view(v: Seq<RemoteDirEntry>) -> Seq<EntryView> {
    v.map_values(|e: RemoteDirEntry| e@)
}

/// The type of a file: three bits of its mode.
pub open spec fn file_type(mode: usize) -> nat {
    (mode / 0x2000 % 8) as nat
}

/// What an entry with this mode is. A file keeps its nine permission bits.
pub open spec fn metadata_of(mode: usize, size: usize) -> Option<RemoteMetadata> {
    if file_type(mode) == 0b010 {
        Some(RemoteMetadata::RemoteDir)
    } else if file_type(mode) == 0b100 {
        Some(
            RemoteMetadata::RemoteFile(RemoteFileMetadata { mode: (mode % 0x200) as usize, size }),
        )
    } else if file_type(mode) == 0b101 {
        Some(RemoteMetadata::RemoteSymlink)
    } else {
        None
    }
}

/// Decides what an entry is.
pub fn read_metadata(mode: usize, size: usize) -> (r: Result<RemoteMetadata>)
    ensures
        match r {
            Ok(metadata) => metadata_of(mode, size) == Some(metadata),
            Err(e) => metadata_of(mode, size) is None && e@ == ErrorView::Adb(
                "Invalid file mode "@ + numbers::decimal_text(file_type(mode)),
            ),
        },
{
    let kind: usize = mode / 0x2000 % 8;
    if kind == 0b010 {
        Ok(RemoteMetadata::RemoteDir)
    } else if kind == 0b100 {
        Ok(RemoteMetadata::RemoteFile(RemoteFileMetadata { mode: mode % 0x200, size }))
    } else if kind == 0b101 {
        Ok(RemoteMetadata::RemoteSymlink)
    } else {
        let digits: String = numbers::decimal(kind as u64);
        Err(DeviceError::Adb(text::concat2("Invalid file mode ", digits.as_str())))
    }
}

/// The name of an entry as seen from where the listing began.
pub open spec fn prefixed(prefix: Seq<char>, name: Seq<char>) -> Seq<char> {
    if prefix.len() == 0 {
        name
    } else {
        prefix + "/"@ + name
    }
}

/// The entry stands for the directory itself, or for the one above it.
pub open spec fn is_dots(name: Seq<char>) -> bool {
    name == "."@ || name == ".."@
}

// Listings

/// How far a listing was read.
#[derive(Debug, Clone, Copy, PartialEq, Eq, Structural)]
pub enum ListState {
    /// A word comes next.
    Id,
    /// The head of an entry comes next: mode, size, time, and length of the
    /// name.
    Entry,
    /// The name of an entry comes next.
    Name { mode: usize, size: usize, length: usize },
    /// The listing failed; the length of the message comes next.
    FailLength,
    /// The message of the failure comes next.
    FailMessage(usize),
}

/// A reader of one directory listing.
#[derive(Debug)]
pub struct Listing {
    pub depth: usize,
    pub prefix: String,
    pub listings: Vec<RemoteDirEntry>,
    pub state: ListState,
}

/// What a reader holds.
pub struct ListingView {
    pub depth: usize,
    pub prefix: Seq<char>,
    pub listings: Seq<EntryView>,
    pub state: ListState,
}

impl View for Listing {
    type V = ListingView;

    open spec fn view(&self) -> ListingView {
        ListingView {
            depth: self.depth,
            prefix: self.prefix@,
            listings: entries_view(self.listings@),
            state: self.state,
        }
    }
}

/// What follows from some bytes of a listing.
#[derive(Debug)]
pub enum ListStep {
    /// More has to be read.
    Continue(Listing),
    /// The listing is complete.
    Done(Result<Vec<RemoteDirEntry>>),
}

/// What a step says.
pub enum ListStepView {
    Continue(ListingView),
    Done(Outcome<Seq<EntryView>>),
}

impl View for ListStep {
    type V = ListStepView;

    open spec fn view(&self) -> ListStepView {
        match *self {
            ListStep::Continue(listing) => ListStepView::Continue(listing@),
            ListStep::Done(Ok(entries)) => ListStepView::Done(Ok(entries_view(entries@))),
            ListStep::Done(Err(e)) => ListStepView::Done(Err(e@)),
        }
    }
}

/// The length of the name that the head of an entry announces.
pub open spec fn name_length(head: Seq<u8>) -> nat {
    wire::little_endian(head.subrange(12, 16))
}

impl ListingView {
    pub open spec fn at(self, state: ListState) -> ListingView {
        ListingView { state, ..self }
    }

    /// How many bytes come next.
    pub open spec fn wanted(self) -> usize {
        match self.state {
            ListState::Id => 4,
            ListState::Entry => 16,
            ListState::Name { mode, size, length } => length,
            ListState::FailLength => 4,
            ListState::FailMessage(n) => n,
        }
    }

    /// The bytes are as many as asked for, and announce no name that is longer
    /// than what is received in one piece.
    pub open spec fn takes(self, bytes: Seq<u8>) -> bool {
        &&& bytes.len() == self.wanted()
        &&& self.state is Entry ==> name_length(bytes) <= MAX_RECEIVED
    }

    /// What follows when the wanted bytes are these.
    pub open spec fn step(self, bytes: Seq<u8>) -> ListStepView {
        match self.state {
            ListState::Id => if bytes == SyncCommand::Dent.bytes() {
                ListStepView::Continue(self.at(ListState::Entry))
            } else if bytes == SyncCommand::Done.bytes() {
                ListStepView::Done(Ok(self.listings))
            } else if bytes == SyncCommand::Fail.bytes() {
                ListStepView::Continue(self.at(ListState::FailLength))
            } else {
                ListStepView::Done(Err(unknown_word()))
            },
            ListState::Entry => ListStepView::Continue(
                self.at(
                    ListState::Name {
                        mode: wire::little_endian(bytes.subrange(0, 4)) as usize,
                        size: wire::little_endian(bytes.subrange(4, 8)) as usize,
                        length: name_length(bytes) as usize,
                    },
                ),
            ),
            ListState::Name { mode, size, length } => match wire::utf8_outcome(bytes) {
                Err(e) => ListStepView::Done(Err(e)),
                Ok(name) => if is_dots(name) {
                    ListStepView::Continue(self.at(ListState::Id))
                } else {
                    match metadata_of(mode, size) {
                        None => ListStepView::Done(
                            Err(
                                ErrorView::Adb(
                                    "Invalid file mode "@ + numbers::decimal_text(file_type(mode)),
                                ),
                            ),
                        ),
                        Some(metadata) => ListStepView::Continue(
                            ListingView {
                                listings: self.listings.push(
                                    EntryView {
                                        depth: self.depth,
                                        metadata,
                                        name: prefixed(self.prefix, name),
                                    },
                                ),
                                state: ListState::Id,
                                ..self
                            },
                        ),
                    }
                },
            },
            ListState::FailLength => ListStepView::Continue(
                self.at(
                    ListState::FailMessage(capped(wire::little_endian(bytes), MAX_RECEIVED)),
                ),
            ),
            ListState::FailMessage(_) => ListStepView::Done(Err(sync_failure(bytes))),
        }
    }
}

/// Four of the bytes, as an array.
pub fn four_at(bytes: &Vec<u8>, i: usize) -> (r: [u8; 4])
    requires
        i + 4 <= bytes.len(),
    ensures
        r@ == bytes@.subrange(i as int, i + 4),
{
    let r: [u8; 4] = [bytes[i], bytes[i + 1], bytes[i + 2], bytes[i + 3]];
    assert(r@ =~= bytes@.subrange(i as int, i + 4));
    r
}

/// Whether four bytes are the given word.
pub fn is_word(bytes: &Vec<u8>, command: SyncCommand) -> (r: bool)
    requires
        bytes@.len() == 4,
    ensures
        r == (bytes@ == command.bytes()),
{
    assert(bytes@.subrange(0, 4) == bytes@);
    command.leads(bytes)
}

impl Listing {
    /// A reader of the listing of a directory at this depth, whose name, as
    /// seen from where the listing began, is `prefix`.
    pub fn new(depth: usize, prefix: String) -> (r: Listing)
        ensures
            r@ == (ListingView { depth, prefix: prefix@, listings: seq![], state: ListState::Id }),
    {
        let listings: Vec<RemoteDirEntry> = Vec::new();
        assert(entries_view(listings@) =~= seq![]);
        Listing { depth, prefix, listings, state: ListState::Id }
    }

    /// How many bytes to read next.
    pub fn request(&self) -> (n: usize)
        ensures
            n == self@.wanted(),
    {
        match self.state {
            ListState::Id => 4,
            ListState::Entry => 16,
            ListState::Name { mode, size, length } => length,
            ListState::FailLength => 4,
            ListState::FailMessage(n) => n,
        }
    }

    /// Whether the reader can take these bytes.
    pub fn accepts(&self, bytes: &Vec<u8>) -> (r: bool)
        ensures
            r == self@.takes(bytes@),
    {
        if bytes.len() != self.request() {
            return false;
        }
        match self.state {
            ListState::Entry => wire::read_length_little_endian(&four_at(bytes, 12))
                <= MAX_RECEIVED,
            _ => true,
        }
    }

    /// Takes the bytes that were asked for.
    pub fn supply(self, bytes: Vec<u8>) -> (r: ListStep)
        requires
            self@.takes(bytes@),
        ensures
            r@ == self@.step(bytes@),
    {
        match self.state {
            ListState::Id => {
                if is_word(&bytes, SyncCommand::Dent) {
                    ListStep::Continue(Listing { state: ListState::Entry, ..self })
                } else if is_word(&bytes, SyncCommand::Done) {
                    ListStep::Done(Ok(self.listings))
                } else if is_word(&bytes, SyncCommand::Fail) {
                    ListStep::Continue(Listing { state: ListState::FailLength, ..self })
                } else {
                    ListStep::Done(Err(DeviceError::Adb("FAIL (unknown)".to_owned())))
                }
            },
            ListState::Entry => {
                let mode: usize = wire::read_length_little_endian(&four_at(&bytes, 0));
                let size: usize = wire::read_length_little_endian(&four_at(&bytes, 4));
                let length: usize = wire::read_length_little_endian(&four_at(&bytes, 12));
                ListStep::Continue(
                    Listing { state: ListState::Name { mode, size, length }, ..self },
                )
            },
            ListState::Name { mode, size, length } => self.add_entry(mode, size, bytes),
            ListState::FailLength => {
                let n: usize = read_capped(&bytes, MAX_RECEIVED);
                ListStep::Continue(Listing { state: ListState::FailMessage(n), ..self })
            },
            ListState::FailMessage(_) => ListStep::Done(Err(read_failure(&bytes))),
        }
    }

    fn add_entry(self, mode: usize, size: usize, bytes: Vec<u8>) -> (r: ListStep)
        requires
            self.state == (ListState::Name { mode, size, length: bytes.len() }),
        ensures
            r@ == self@.step(bytes@),
    {
        let name: String = match wire::decode_text(bytes.as_slice()) {
            Ok(name) => name,
            Err(e) => return ListStep::Done(Err(e)),
        };
        if text::str_eq(name.as_str(), ".") || text::str_eq(name.as_str(), "..") {
            return ListStep::Continue(Listing { state: ListState::Id, ..self });
        }
        let full: String = if self.prefix.as_str().is_empty() {
            name
        } else {
            text::concat3(self.prefix.as_str(), "/", name.as_str())
        };
        match read_metadata(mode, size) {
            Err(e) => ListStep::Done(Err(e)),
            Ok(metadata) => {
                let ghost before = entries_view(self.listings@);
                let entry: RemoteDirEntry = RemoteDirEntry {
                    depth: self.depth,
                    metadata,
                    name: full,
                };
                let ghost last = entry@;
                let depth: usize = self.depth;
                let prefix: String = self.prefix;
                let mut listings: Vec<RemoteDirEntry> = self.listings;
                listings.push(entry);
                assert(entries_view(listings@) =~= before.push(last));
                ListStep::Continue(Listing { depth, prefix, listings, state: ListState::Id })
            },
        }
    }
}

impl ListingView {
    /// What the reader ends with on a stream that holds these bytes and then
    /// ends; `None` where the stream ends early, or announces a name that is
    /// too long.
    pub open spec fn result(self, stream: Seq<u8>) -> Option<Outcome<Seq<EntryView>>>
        decreases
            stream.len(),
            (if self.state is Name {
                1int
            } else {
                0int
            }),
    {
        let n = self.wanted() as int;
        if stream.len() < n || !self.takes(stream.take(n)) {
            None
        } else {
            match self.step(stream.take(n)) {
                ListStepView::Done(o) => Some(o),
                ListStepView::Continue(next) => next.result(stream.skip(n)),
            }
        }
    }
}

proof fn lemma_result_step(listing: ListingView, bytes: Seq<u8>, tail: Seq<u8>)
    requires
        listing.takes(bytes),
    ensures
        listing.result(bytes + tail) == (match listing.step(bytes) {
            ListStepView::Done(o) => Some(o),
            ListStepView::Continue(next) => next.result(tail),
        }),
{
    let n = bytes.len() as int;
    assert((bytes + tail).take(n) =~= bytes);
    assert((bytes + tail).skip(n) =~= tail);
}

/// An entry as a device sends it.
pub struct WireEntry {
    pub mode: nat,
    pub size: nat,
    pub time: Seq<u8>,
    pub name: Seq<char>,
}

impl WireEntry {
    pub open spec fn name_bytes(self) -> Seq<u8> {
        vstd::utf8::encode_utf8(self.name)
    }

    /// The sixteen bytes in front of the name.
    pub open spec fn head(self) -> Seq<u8> {
        wire::little_endian_bytes(self.mode) + wire::little_endian_bytes(self.size) + self.time
            + wire::little_endian_bytes(self.name_bytes().len())
    }

    pub open spec fn bytes(self) -> Seq<u8> {
        SyncCommand::Dent.bytes() + (self.head() + self.name_bytes())
    }

    /// The numbers fit in their four bytes, the name fits in the buffer, and
    /// the mode is that of a directory, a file or a link. The mode of the
    /// entries that are passed over does not matter.
    pub open spec fn is_valid(self) -> bool {
        &&& self.mode < 0x1_0000_0000
        &&& self.size < 0x1_0000_0000
        &&& self.time.len() == 4
        &&& self.name_bytes().len() <= MAX_RECEIVED
        &&& is_dots(self.name) || metadata_of(self.mode as usize, self.size as usize) is Some
    }

    /// What a listing shows of the entry.
    pub open spec fn shown(self, depth: usize, prefix: Seq<char>) -> Seq<EntryView> {
        if is_dots(self.name) {
            seq![]
        } else {
            seq![
                EntryView {
                    depth,
                    metadata: metadata_of(self.mode as usize, self.size as usize)->0,
                    name: prefixed(prefix, self.name),
                },
            ]
        }
    }
}

/// Entries as a device sends them, one after the other.
pub open spec fn sent_entries(entries: Seq<WireEntry>) -> Seq<u8>
    decreases entries.len(),
{
    if entries.len() == 0 {
        seq![]
    } else {
        entries[0].bytes() + sent_entries(entries.drop_first())
    }
}

/// What a listing shows of the entries.
pub open spec fn shown_entries(entries: Seq<WireEntry>, depth: usize, prefix: Seq<char>) -> Seq<
    EntryView,
>
    decreases entries.len(),
{
    if entries.len() == 0 {
        seq![]
    } else {
        entries[0].shown(depth, prefix) + shown_entries(entries.drop_first(), depth, prefix)
    }
}

proof fn lemma_four_words(a: Seq<u8>, b: Seq<u8>, c: Seq<u8>, d: Seq<u8>)
    requires
        a.len() == 4,
        b.len() == 4,
        c.len() == 4,
        d.len() == 4,
    ensures
        (a + b + c + d).len() == 16,
        (a + b + c + d).subrange(0, 4) == a,
        (a + b + c + d).subrange(4, 8) == b,
        (a + b + c + d).subrange(12, 16) == d,
{
    let whole = a + b + c + d;
    assert(whole.subrange(0, 4) =~= a);
    assert(whole.subrange(4, 8) =~= b);
    assert(whole.subrange(12, 16) =~= d);
}

/// The head of a valid entry holds its numbers.
proof fn lemma_entry_head(entry: WireEntry)
    requires
        entry.is_valid(),
    ensures
        entry.head().len() == 16,
        wire::little_endian(entry.head().subrange(0, 4)) == entry.mode,
        wire::little_endian(entry.head().subrange(4, 8)) == entry.size,
        name_length(entry.head()) == entry.name_bytes().len(),
{
    let n = entry.name_bytes().len();
    wire::lemma_length_read_back(entry.mode);
    wire::lemma_length_read_back(entry.size);
    wire::lemma_length_read_back(n);
    lemma_four_words(
        wire::little_endian_bytes(entry.mode),
        wire::little_endian_bytes(entry.size),
        entry.time,
        wire::little_endian_bytes(n),
    );
}

/// The reader takes the name of an entry and goes on to the next word.
proof fn lemma_listing_name(listing: ListingView, entry: WireEntry, tail: Seq<u8>)
    requires
        entry.is_valid(),
        listing.state == (ListState::Name {
            mode: entry.mode as usize,
            size: entry.size as usize,
            length: entry.name_bytes().len() as usize,
        }),
    ensures
        listing.result(entry.name_bytes() + tail) == (ListingView {
            listings: listing.listings + entry.shown(listing.depth, listing.prefix),
            state: ListState::Id,
            ..listing
        }).result(tail),
{
    lemma_result_step(listing, entry.name_bytes(), tail);
    vstd::utf8::encode_utf8_valid_utf8(entry.name);
    vstd::utf8::encode_utf8_decode_utf8(entry.name);
    let one = entry.shown(listing.depth, listing.prefix);
    if is_dots(entry.name) {
        assert(listing.listings + one =~= listing.listings);
    } else {
        assert(listing.listings + one =~= listing.listings.push(one[0]));
    }
}

proof fn lemma_listing_entry(listing: ListingView, entry: WireEntry, tail: Seq<u8>)
    requires
        listing.state is Id,
        entry.is_valid(),
    ensures
        listing.result(entry.bytes() + tail) == (ListingView {
            listings: listing.listings + entry.shown(listing.depth, listing.prefix),
            ..listing
        }).result(tail),
{
    let word = SyncCommand::Dent.bytes();
    let head = entry.head();
    let name = entry.name_bytes();
    let at_entry = listing.at(ListState::Entry);
    let at_name = listing.at(
        ListState::Name {
            mode: entry.mode as usize,
            size: entry.size as usize,
            length: name.len() as usize,
        },
    );
    lemma_entry_head(entry);
    assert(entry.bytes() + tail =~= word + (head + (name + tail)));
    lemma_result_step(listing, word, head + (name + tail));
    assert(listing.step(word) == ListStepView::Continue(at_entry));
    lemma_result_step(at_entry, head, name + tail);
    assert(at_entry.step(head) == ListStepView::Continue(at_name));
    lemma_listing_name(at_name, entry, tail);
}

// Laws

/// A listing shows every entry that the device sends, in order, but for the
/// directory itself and the one above it.
pub proof fn law_listing_shows_entries(
    listing: ListingView,
    entries: Seq<WireEntry>,
    rest: Seq<u8>,
)
    requires
        listing.state is Id,
        forall|i: int| 0 <= i < entries.len() ==> (#[trigger] entries[i]).is_valid(),
    ensures
        listing.result(sent_entries(entries) + SyncCommand::Done.bytes() + rest) == Some(
            Ok::<Seq<EntryView>, ErrorView>(
                listing.listings + shown_entries(entries, listing.depth, listing.prefix),
            ),
        ),
    decreases entries.len(),
{
    let done = SyncCommand::Done.bytes();
    if entries.len() == 0 {
        assert(sent_entries(entries) + done + rest =~= done + rest);
        assert(SyncCommand::Dent.bytes()[1] != done[1]);
        lemma_result_step(listing, done, rest);
        assert(listing.listings + shown_entries(entries, listing.depth, listing.prefix)
            =~= listing.listings);
    } else {
        let first = entries[0];
        let others = entries.drop_first();
        let tail = sent_entries(others) + done + rest;
        assert(sent_entries(entries) + done + rest =~= first.bytes() + tail);
        lemma_listing_entry(listing, first, tail);
        let next = ListingView {
            listings: listing.listings + first.shown(listing.depth, listing.prefix),
            ..listing
        };
        assert forall|i: int| 0 <= i < others.len() implies (#[trigger] others[i]).is_valid() by {
            assert(entries[i + 1].is_valid());
        }
        law_listing_shows_entries(next, others, rest);
        assert(next.listings + shown_entries(others, listing.depth, listing.prefix)
            =~= listing.listings + shown_entries(entries, listing.depth, listing.prefix));
    }
}

proof fn lemma_prefixed_is_not_dots(prefix: Seq<char>, name: Seq<char>)
    requires
        !is_dots(name),
    ensures
        !is_dots(prefixed(prefix, name)),
{
    reveal_strlit(".");
    reveal_strlit("..");
    reveal_strlit("/");
    if prefix.len() > 0 {
        let full = prefixed(prefix, name);
        assert(full[prefix.len() as int] == '/');
        assert("."@.len() == 1);
        assert(".."@.len() == 2 && ".."@[1] == '.');
    }
}

/// No listing shows the directory itself or the one above it.
pub proof fn law_listing_hides_dots(entries: Seq<WireEntry>, depth: usize, prefix: Seq<char>)
    ensures
        forall|i: int|
            0 <= i < shown_entries(entries, depth, prefix).len() ==> !is_dots(
                (#[trigger] shown_entries(entries, depth, prefix)[i]).name,
            ),
    decreases entries.len(),
{
    if entries.len() > 0 {
        law_listing_hides_dots(entries.drop_first(), depth, prefix);
        let first = entries[0].shown(depth, prefix);
        let others = shown_entries(entries.drop_first(), depth, prefix);
        assert forall|i: int| 0 <= i < shown_entries(entries, depth, prefix).len() implies !is_dots(
            (#[trigger] shown_entries(entries, depth, prefix)[i]).name,
        ) by {
            if i >= first.len() {
                assert((first + others)[i] == others[i - first.len()]);
            } else {
                lemma_prefixed_is_not_dots(prefix, entries[0].name);
            }
        }
    }
}

/// An entry of a directory at this depth and with this name has the depth of
/// the directory, and its name is behind that of the directory.
pub open spec fn is_entry_of(entry: EntryView, depth: usize, prefix: Seq<char>) -> bool {
    entry.depth == depth && exists|name: Seq<char>|
        entry.name == #[trigger] prefixed(prefix, name) && !is_dots(name)
}

/// Whatever the device sends, a listing shows entries of its directory alone.
pub proof fn law_listing_shows_its_directory(listing: ListingView, stream: Seq<u8>)
    requires
        forall|i: int|
            0 <= i < listing.listings.len() ==> is_entry_of(
                #[trigger] listing.listings[i],
                listing.depth,
                listing.prefix,
            ),
    ensures
        listing.result(stream) matches Some(Ok(entries)) ==> forall|i: int|
            0 <= i < entries.len() ==> is_entry_of(
                #[trigger] entries[i],
                listing.depth,
                listing.prefix,
            ),
    decreases
        stream.len(),
        (if listing.state is Name {
            1int
        } else {
            0int
        }),
{
    let n = listing.wanted() as int;
    if stream.len() >= n && listing.takes(stream.take(n)) {
        if let ListStepView::Continue(next) = listing.step(stream.take(n)) {
            assert forall|i: int| 0 <= i < next.listings.len() implies is_entry_of(
                #[trigger] next.listings[i],
                listing.depth,
                listing.prefix,
            ) by {
                if i < listing.listings.len() {
                    assert(next.listings[i] == listing.listings[i]);
                } else if let Ok(name) = wire::utf8_outcome(stream.take(n)) {
                    assert(next.listings[i].name == prefixed(listing.prefix, name));
                }
            }
            law_listing_shows_its_directory(next, stream.skip(n));
        }
    }
}

/// A listing that the device refuses, at its start or behind some entries, ends
/// with the device's message.
pub proof fn law_refused_listing(listing: ListingView, message: Seq<char>, rest: Seq<u8>)
    requires
        listing.state is Id,
        vstd::utf8::encode_utf8(message).len() <= 65536,
    ensures
        listing.result(frame(SyncCommand::Fail, vstd::utf8::encode_utf8(message)) + rest) == Some(
            Err::<Seq<EntryView>, ErrorView>(ErrorView::Adb("adb error: "@ + message)),
        ),
{
    let body = vstd::utf8::encode_utf8(message);
    let word = SyncCommand::Fail.bytes();
    let length = wire::little_endian_bytes(body.len());
    let at_length = listing.at(ListState::FailLength);
    let at_message = listing.at(ListState::FailMessage(body.len() as usize));
    assert(frame(SyncCommand::Fail, body) + rest =~= word + (length + (body + rest)));
    assert(SyncCommand::Dent.bytes()[0] != word[0]);
    assert(SyncCommand::Done.bytes()[0] != word[0]);
    wire::law_little_endian_round_trip(body.len());
    lemma_result_step(listing, word, length + (body + rest));
    lemma_result_step(at_length, length, body + rest);
    assert(at_length.step(length) == ListStepView::Continue(at_message));
    lemma_result_step(at_message, body, rest);
    vstd::utf8::encode_utf8_valid_utf8(message);
    vstd::utf8::encode_utf8_decode_utf8(message);
}

/// A frame is its word, then the length of its body in four bytes, and then the
/// body.
pub proof fn law_frame_is_word_length_and_body(command: SyncCommand, body: Seq<u8>)
    ensures
        frame(command, body).len() == body.len() + 8,
        frame(command, body).take(4) == command.bytes(),
        wire::little_endian(frame(command, body).subrange(4, 8)) == body.len() % 0x1_0000_0000,
        frame(command, body).skip(8) == body,
{
    let whole = frame(command, body);
    wire::law_little_endian_round_trip(body.len());
    assert(whole.take(4) =~= command.bytes());
    assert(whole.subrange(4, 8) =~= wire::little_endian_bytes(body.len()));
    assert(whole.skip(8) =~= body);
}

/// A request of the synchronisation protocol is three steps on one connection:
/// the device is named, the service is asked for, and the frame is sent.
pub proof fn law_sync_script_is_three_steps(serial: Seq<char>, command: SyncCommand, body: Seq<u8>)
    ensures
        vstd::utf8::encode_utf8("host:transport:"@ + serial).len() > 65535 ==> sync_script(
            serial,
            command,
            body,
        ) == seq![ExchangeView::TooLong],
        vstd::utf8::encode_utf8("host:transport:"@ + serial).len() <= 65535 ==> ({
            let script = sync_script(serial, command, body);
            let transport = vstd::utf8::encode_utf8("host:transport:"@ + serial);
            let service = vstd::utf8::encode_utf8("sync:"@);
            let answer = ExchangeView::Response { has_output: false, has_length: true };
            &&& script.len() == 5
            &&& script[0] matches ExchangeView::Write(sent) && sent.skip(4) == transport
            &&& script[1] == answer
            &&& script[2] matches ExchangeView::Write(sent) && sent.skip(4) == service
            &&& script[3] == answer
            &&& script[4] == ExchangeView::Write(frame(command, body))
        }),
{
    reveal_strlit("sync:");
    let service = "sync:"@;
    assert(vstd::utf8::is_ascii_chars(service));
    vstd::utf8::is_ascii_chars_encode_utf8(service);
    exchange::law_request_is_sent_and_answered("host:transport:"@ + serial, false, true);
    exchange::law_request_is_sent_and_answered(service, false, true);
}

/// The names that are passed over are that of the directory itself and that of
/// the one above it, and no other.
pub proof fn law_names_that_are_passed_over(name: Seq<char>)
    ensures
        is_dots(name) <==> name == seq!['.'] || name == seq!['.', '.'],
{
    reveal_strlit(".");
    reveal_strlit("..");
    assert("."@ =~= seq!['.']);
    assert(".."@ =~= seq!['.', '.']);
}

/// What an entry is: its mode is four digits of four bits, of which the highest
/// three bits are the type, and the lowest nine bits are the permissions.
pub proof fn law_mode_tells_type_and_permissions(
    mode: usize,
    size: usize,
    high: int,
    kind: int,
    middle: int,
    permissions: int,
)
    requires
        mode == high * 0x1_0000 + kind * 0x2000 + middle * 0x200 + permissions,
        0 <= high,
        0 <= kind < 8,
        0 <= middle < 16,
        0 <= permissions < 0x200,
    ensures
        kind == 2 ==> metadata_of(mode, size) == Some(RemoteMetadata::RemoteDir),
        kind == 4 ==> metadata_of(mode, size) == Some(
            RemoteMetadata::RemoteFile(RemoteFileMetadata { mode: permissions as usize, size }),
        ),
        kind == 5 ==> metadata_of(mode, size) == Some(RemoteMetadata::RemoteSymlink),
        kind != 2 && kind != 4 && kind != 5 ==> metadata_of(mode, size) is None,
        file_type(mode) == kind,
{
    assert(mode / 0x2000 == high * 8 + kind);
    assert(mode % 0x200 == permissions);
}

/// The name of an entry is behind that of its directory, with a slash between
/// them; an entry of the start has its own name alone.
pub proof fn law_name_is_behind_that_of_the_directory(prefix: Seq<char>, name: Seq<char>)
    ensures
        prefixed(Seq::<char>::empty(), name) == name,
        prefix.len() > 0 ==> prefixed(prefix, name) == prefix.push('/') + name,
{
    reveal_strlit("/");
    if prefix.len() > 0 {
        assert(prefix + "/"@ + name =~= prefix.push('/') + name);
    }
}

/// The bytes of an entry: the word, four numbers of four bytes each, and the
/// name.
pub open spec fn entry_bytes(mode: nat, size: nat, time: Seq<u8>, name: Seq<u8>) -> Seq<u8> {
    seq![0x44u8, 0x45, 0x4e, 0x54] + wire::little_endian_bytes(mode) + wire::little_endian_bytes(
        size,
    ) + time + wire::little_endian_bytes(name.len()) + name
}

/// The head of an entry tells its numbers.
proof fn lemma_head_is_read(listing: ListingView, mode: nat, size: nat, time: Seq<u8>, length: nat)
    requires
        listing.state is Entry,
        mode < 0x1_0000_0000,
        size < 0x1_0000_0000,
        time.len() == 4,
        length <= 65536,
    ensures
        ({
            let head = wire::little_endian_bytes(mode) + wire::little_endian_bytes(size) + time
                + wire::little_endian_bytes(length);
            &&& listing.takes(head)
            &&& listing.step(head) == ListStepView::Continue(
                listing.at(
                    ListState::Name {
                        mode: mode as usize,
                        size: size as usize,
                        length: length as usize,
                    },
                ),
            )
        }),
{
    wire::lemma_length_read_back(mode);
    wire::lemma_length_read_back(size);
    wire::lemma_length_read_back(length);
    lemma_four_words(
        wire::little_endian_bytes(mode),
        wire::little_endian_bytes(size),
        time,
        wire::little_endian_bytes(length),
    );
}

/// The word of an entry tells that an entry follows.
proof fn lemma_entry_is_told(listing: ListingView)
    requires
        listing.state is Id,
    ensures
        listing.takes(seq![0x44u8, 0x45, 0x4e, 0x54]),
        listing.step(seq![0x44u8, 0x45, 0x4e, 0x54]) == ListStepView::Continue(
            listing.at(ListState::Entry),
        ),
{
    assert(SyncCommand::Dent.bytes() =~= seq![0x44u8, 0x45, 0x4e, 0x54]);
}

proof fn lemma_entry_begins(
    listing: ListingView,
    mode: nat,
    size: nat,
    time: Seq<u8>,
    name: Seq<u8>,
    tail: Seq<u8>,
)
    requires
        listing.state is Id,
        mode < 0x1_0000_0000,
        size < 0x1_0000_0000,
        time.len() == 4,
        name.len() <= 65536,
    ensures
        listing.result(entry_bytes(mode, size, time, name) + tail) == (match listing.at(
            ListState::Name {
                mode: mode as usize,
                size: size as usize,
                length: name.len() as usize,
            },
        ).step(name) {
            ListStepView::Done(o) => Some(o),
            ListStepView::Continue(next) => next.result(tail),
        }),
{
    let word = seq![0x44u8, 0x45, 0x4e, 0x54];
    let head = wire::little_endian_bytes(mode) + wire::little_endian_bytes(size) + time
        + wire::little_endian_bytes(name.len());
    let at_entry = listing.at(ListState::Entry);
    let at_name = listing.at(
        ListState::Name {
            mode: mode as usize,
            size: size as usize,
            length: name.len() as usize,
        },
    );
    assert(at_entry.at(at_name.state) == at_name);
    lemma_entry_is_told(listing);
    lemma_head_is_read(at_entry, mode, size, time, name.len());
    assert(entry_bytes(mode, size, time, name) + tail =~= word + (head + (name + tail)));
    lemma_result_step(listing, word, head + (name + tail));
    lemma_result_step(at_entry, head, name + tail);
    assert(at_name.takes(name));
    lemma_result_step(at_name, name, tail);
}

/// What a listing makes of an entry, whatever stood before it and whatever
/// follows. The one-character name `.` and the two-character name `..` are passed
/// over. Any other name is listed, behind the name of the directory, at the
/// depth of the directory, and with the type, the permissions and the size that
/// were sent. An entry of another type is an error that names the type.
pub proof fn law_entry_is_listed_as_it_was_sent(
    listing: ListingView,
    high: nat,
    kind: nat,
    middle: nat,
    permissions: nat,
    size: nat,
    time: Seq<u8>,
    name: Seq<char>,
    tail: Seq<u8>,
)
    requires
        listing.state is Id,
        high < 0x1_0000,
        kind < 8,
        middle < 16,
        permissions < 0x200,
        size < 0x1_0000_0000,
        time.len() == 4,
        vstd::utf8::encode_utf8(name).len() <= 65536,
    ensures
        ({
            let mode = high * 0x1_0000 + kind * 0x2000 + middle * 0x200 + permissions;
            let sent = entry_bytes(mode, size, time, vstd::utf8::encode_utf8(name)) + tail;
            let full = if listing.prefix.len() == 0 {
                name
            } else {
                listing.prefix.push('/') + name
            };
            let metadata = if kind == 2 {
                RemoteMetadata::RemoteDir
            } else if kind == 5 {
                RemoteMetadata::RemoteSymlink
            } else {
                RemoteMetadata::RemoteFile(
                    RemoteFileMetadata { mode: permissions as usize, size: size as usize },
                )
            };
            let entry = EntryView { depth: listing.depth, metadata, name: full };
            if name == seq!['.'] || name == seq!['.', '.'] {
                listing.result(sent) == listing.result(tail)
            } else if kind == 2 || kind == 4 || kind == 5 {
                listing.result(sent) == (ListingView {
                    listings: listing.listings.push(entry),
                    ..listing
                }).result(tail)
            } else {
                listing.result(sent) == Some(
                    Err::<Seq<EntryView>, ErrorView>(
                        ErrorView::Adb("Invalid file mode "@ + numbers::decimal_text(kind)),
                    ),
                )
            }
        }),
{
    let mode = high * 0x1_0000 + kind * 0x2000 + middle * 0x200 + permissions;
    let bytes = vstd::utf8::encode_utf8(name);
    assert(mode < 0x1_0000_0000);
    lemma_entry_begins(listing, mode, size, time, bytes, tail);
    wire::law_text_is_read_from_its_encoding(bytes, name);
    law_names_that_are_passed_over(name);
    law_mode_tells_type_and_permissions(
        mode as usize,
        size as usize,
        high as int,
        kind as int,
        middle as int,
        permissions as int,
    );
    law_name_is_behind_that_of_the_directory(listing.prefix, name);
    if listing.prefix.len() == 0 {
        assert(listing.prefix =~= Seq::<char>::empty());
    }
    assert(listing.at(ListState::Id) == listing);
}

/// A listing ends with the word for its end and shows what was listed. A word
/// that has no place there is an error.
pub proof fn law_listing_ends(listing: ListingView, word: Seq<u8>, rest: Seq<u8>)
    requires
        listing.state is Id,
        word.len() == 4,
    ensures
        word == SyncCommand::Done.bytes() ==> listing.result(word + rest) == Some(
            Ok::<Seq<EntryView>, ErrorView>(listing.listings),
        ),
        word != SyncCommand::Done.bytes() && word != SyncCommand::Dent.bytes() && word
            != SyncCommand::Fail.bytes() ==> listing.result(word + rest) == Some(
            Err::<Seq<EntryView>, ErrorView>(ErrorView::Adb("FAIL (unknown)"@)),
        ),
{
    lemma_result_step(listing, word, rest);
    assert(SyncCommand::Dent.bytes()[1] != SyncCommand::Done.bytes()[1]);
}

/// A listing that fails is answered with the message of the failure: as many
/// bytes as were announced, but no more than 65536.
pub proof fn law_failed_listing_is_answered_with_its_message(
    listing: ListingView,
    n: nat,
    message: Seq<u8>,
    rest: Seq<u8>,
)
    requires
        listing.state is Id,
        n < 0x1_0000_0000,
        message.len() == if n < 65536 {
            n
        } else {
            65536
        },
    ensures
        listing.result(
            SyncCommand::Fail.bytes() + (wire::little_endian_bytes(n) + (message + rest)),
        ) == Some(
            Err::<Seq<EntryView>, ErrorView>(
                match wire::utf8_outcome(message) {
                    Ok(words) => ErrorView::Adb("adb error: "@ + words),
                    Err(_) => ErrorView::Adb("adb error was not utf-8"@),
                },
            ),
        ),
{
    let word = SyncCommand::Fail.bytes();
    let length = wire::little_endian_bytes(n);
    let at_length = listing.at(ListState::FailLength);
    let at_message = listing.at(ListState::FailMessage(message.len() as usize));
    assert(SyncCommand::Dent.bytes()[0] != word[0]);
    assert(SyncCommand::Done.bytes()[0] != word[0]);
    wire::lemma_length_read_back(n);
    lemma_result_step(listing, word, length + (message + rest));
    lemma_result_step(at_length, length, message + rest);
    assert(at_length.step(length) == ListStepView::Continue(at_message));
    lemma_result_step(at_message, message, rest);
}

/// Every name that the device sends is in the listing, but for `.` and `..`; and
/// the listing holds no more entries than that.
pub proof fn law_every_name_that_was_sent_is_listed(
    depth: usize,
    prefix: Seq<char>,
    entries: Seq<WireEntry>,
    rest: Seq<u8>,
)
    requires
        forall|i: int| 0 <= i < entries.len() ==> (#[trigger] entries[i]).is_valid(),
    ensures
        ({
            let listing = ListingView { depth, prefix, listings: seq![], state: ListState::Id };
            let end = listing.result(sent_entries(entries) + SyncCommand::Done.bytes() + rest);
            &&& end matches Some(Ok(_))
            &&& ({
                let shown = end->Some_0->Ok_0;
                &&& shown.len() == entries.filter(
                    |e: WireEntry| e.name != seq!['.'] && e.name != seq!['.', '.'],
                ).len()
                &&& forall|j: int|
                    0 <= j < entries.len() && (#[trigger] entries[j]).name != seq!['.']
                        && entries[j].name != seq!['.', '.'] ==> lists(
                        shown,
                        if prefix.len() == 0 {
                            entries[j].name
                        } else {
                            prefix.push('/') + entries[j].name
                        },
                        depth,
                    )
            })
        }),
{
    let listing = ListingView { depth, prefix, listings: seq![], state: ListState::Id };
    law_listing_shows_entries(listing, entries, rest);
    let shown = shown_entries(entries, depth, prefix);
    assert(listing.listings + shown =~= shown);
    lemma_shown_len(entries, depth, prefix);
    assert forall|j: int|
        0 <= j < entries.len() && (#[trigger] entries[j]).name != seq!['.'] && entries[j].name
            != seq!['.', '.'] implies lists(
        shown,
        if prefix.len() == 0 {
            entries[j].name
        } else {
            prefix.push('/') + entries[j].name
        },
        depth,
    ) by {
        law_names_that_are_passed_over(entries[j].name);
        law_name_is_behind_that_of_the_directory(prefix, entries[j].name);
        if prefix.len() == 0 {
            assert(prefix =~= Seq::<char>::empty());
        }
        lemma_shown_contains(entries, depth, prefix, j);
    }
}

/// There is an entry of this name and depth.
pub open spec fn lists(entries: Seq<EntryView>, name: Seq<char>, depth: usize) -> bool {
    exists|i: int|
        0 <= i < entries.len() && (#[trigger] entries[i]).name == name && entries[i].depth == depth
}

proof fn lemma_shown_contains(entries: Seq<WireEntry>, depth: usize, prefix: Seq<char>, j: int)
    requires
        0 <= j < entries.len(),
        !is_dots(entries[j].name),
    ensures
        lists(shown_entries(entries, depth, prefix), prefixed(prefix, entries[j].name), depth),
    decreases entries.len(),
{
    let first = entries[0].shown(depth, prefix);
    let others = shown_entries(entries.drop_first(), depth, prefix);
    let all = shown_entries(entries, depth, prefix);
    let name = prefixed(prefix, entries[j].name);
    if j == 0 {
        assert(all[0] == first[0]);
    } else {
        assert(entries.drop_first()[j - 1] == entries[j]);
        lemma_shown_contains(entries.drop_first(), depth, prefix, j - 1);
        let i = choose|i: int|
            0 <= i < others.len() && (#[trigger] others[i]).name == name && others[i].depth
                == depth;
        assert(all[first.len() + i] == others[i]);
    }
}

proof fn lemma_shown_len(entries: Seq<WireEntry>, depth: usize, prefix: Seq<char>)
    ensures
        shown_entries(entries, depth, prefix).len() == entries.filter(
            |e: WireEntry| e.name != seq!['.'] && e.name != seq!['.', '.'],
        ).len(),
    decreases entries.len(),
{
    let keep = |e: WireEntry| e.name != seq!['.'] && e.name != seq!['.', '.'];
    reveal(Seq::filter);
    if entries.len() > 0 {
        let one = seq![entries[0]];
        let others = entries.drop_first();
        lemma_shown_len(others, depth, prefix);
        law_names_that_are_passed_over(entries[0].name);
        assert(entries =~= one + others);
        Seq::filter_distributes_over_add(one, others, keep);
        assert(one.drop_last() =~= Seq::<WireEntry>::empty());
        assert(Seq::<WireEntry>::empty().filter(keep) =~= Seq::<WireEntry>::empty());
        assert(one.last() == entries[0]);
    }
}

/// A name that is no text ends the listing with an error.
pub proof fn law_name_that_is_no_text_ends_the_listing(
    listing: ListingView,
    mode: nat,
    size: nat,
    time: Seq<u8>,
    name: Seq<u8>,
    tail: Seq<u8>,
)
    requires
        listing.state is Id,
        mode < 0x1_0000_0000,
        size < 0x1_0000_0000,
        time.len() == 4,
        name.len() <= 65536,
        !vstd::utf8::valid_utf8(name),
    ensures
        listing.result(entry_bytes(mode, size, time, name) + tail) == Some(
            Err::<Seq<EntryView>, ErrorView>(ErrorView::Utf8(wire::utf8_error(name))),
        ),
{
    lemma_entry_begins(listing, mode, size, time, name, tail);
}

} // verus!
