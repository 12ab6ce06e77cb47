//! Whole directories: listing them, and planning how to receive and send them.

use vstd::prelude::*;

use crate::adb::SyncCommand;
use crate::device::Device;
use crate::exchange;
use crate::exchange::Exchange;
use crate::path;
use crate::path::UnixPath;
use crate::pull;
use crate::pull::Pull;
use crate::sync;
use crate::sync::{EntryView, Listing, ListingView, ListState, RemoteDirEntry, RemoteMetadata};

verus! {

// Requests for one directory and for one file

impl Device {
    /// Asks for the entries of one directory. The names of the entries are
    /// given as seen from where the listing began, behind `prefix`.
    pub fn list_dir_flat(&self, src: &UnixPath, depth: usize, prefix: String) -> (r: (
        Vec<Exchange>,
        Listing,
    ))
        ensures
            exchange::script_view(r.0@) == sync::sync_script(
                self.serial@,
                SyncCommand::List,
                vstd::utf8::encode_utf8(path::display_text(src@)),
            ),
            r.1@ == (ListingView {
                depth,
                prefix: prefix@,
                listings: seq![],
                state: ListState::Id,
            }),
    {
        let arguments: String = src.display();
        let script: Vec<Exchange> = sync::sync_exchanges(
            self.serial.as_str(),
            SyncCommand::List,
            arguments.as_str().as_bytes(),
        );
        (script, Listing::new(depth, prefix))
    }

    /// Asks for the content of a file.
    pub fn pull(&self, src: &UnixPath) -> (r: (Vec<Exchange>, Pull))
        ensures
            exchange::script_view(r.0@) == sync::sync_script(
                self.serial@,
                SyncCommand::Recv,
                vstd::utf8::encode_utf8(path::display_text(src@)),
            ),
            r.1 == (Pull { state: pull::PullState::Id }),
    {
        let arguments: String = src.display();
        let script: Vec<Exchange> = sync::sync_exchanges(
            self.serial.as_str(),
            SyncCommand::Recv,
            arguments.as_str().as_bytes(),
        );
        (script, Pull::new())
    }
}

// Listing a tree

/// A directory that waits to be listed.
#[derive(Debug)]
pub struct WalkItem {
    /// Where it is.
    pub path: UnixPath,
    /// How far below the start it is.
    pub depth: usize,
    /// Its name as seen from the start.
    pub prefix: String,
}

/// What is known about a directory that waits.
pub struct WalkItemView {
    pub path: Seq<u8>,
    pub depth: nat,
    pub prefix: Seq<char>,
}

impl View for WalkItem {
    type V = WalkItemView;

    open spec fn view(&self) -> WalkItemView {
        WalkItemView { path: self.path@, depth: self.depth as nat, prefix: self.prefix@ }
    }
}

/// A walk through a tree of directories.
#[derive(Debug)]
pub struct DirWalk {
    /// Where it started.
    pub src: UnixPath,
    /// The directories that wait. The last one is being listed.
    pub queue: Vec<WalkItem>,
    /// The entries that were listed.
    pub listings: Vec<RemoteDirEntry>,
}

/// What follows from the entries of a directory.
#[derive(Debug)]
pub enum WalkStep {
    /// The walk goes on with its next directory.
    List(DirWalk),
    /// The walk is over, and these are all the entries.
    Over(Vec<RemoteDirEntry>),
}

/// What a walk holds.
#[verifier::ext_equal]
pub struct WalkView {
    pub src: Seq<u8>,
    pub queue: Seq<WalkItemView>,
    pub listings: Seq<EntryView>,
}

pub open spec fn queue_view(queue: Seq<WalkItem>) -> Seq<WalkItemView> {
    queue.map_values(|item: WalkItem| item@)
}

impl View for DirWalk {
    type V = WalkView;

    open spec fn view(&self) -> WalkView {
        WalkView {
            src: self.src@,
            queue: queue_view(self.queue@),
            listings: sync::entries_view(self.listings@),
        }
    }
}

/// The directories among the entries, as they are to be listed.
pub open spec fn subdirectories(src: Seq<u8>, depth: nat, entries: Seq<EntryView>) -> Seq<
    WalkItemView,
>
    decreases entries.len(),
{
    if entries.len() == 0 {
        seq![]
    } else {
        let others = subdirectories(src, depth, entries.drop_last());
        let last = entries.last();
        if last.metadata is RemoteDir {
            others.push(
                WalkItemView {
                    path: path::pushed(src, vstd::utf8::encode_utf8(last.name)),
                    depth: depth + 1,
                    prefix: last.name,
                },
            )
        } else {
            others
        }
    }
}

/// A directory of this name is among the entries.
pub open spec fn names_directory(entries: Seq<EntryView>, name: Seq<char>) -> bool {
    exists|i: int|
        0 <= i < entries.len() && (#[trigger] entries[i]).metadata is RemoteDir
            && entries[i].name == name
}

impl WalkView {
    /// A fresh walk: the start alone waits.
    pub open spec fn fresh(src: Seq<u8>) -> WalkView {
        WalkView {
            src,
            queue: seq![WalkItemView { path: src, depth: 0, prefix: seq![] }],
            listings: seq![],
        }
    }

    /// Each directory that waits is the start, or was listed as an entry whose
    /// name leads to it from the start. None is deeper than there are entries.
    pub open spec fn is_valid(self) -> bool {
        forall|i: int|
            0 <= i < self.queue.len() ==> self.may_wait(#[trigger] self.queue[i])
    }

    /// A directory that a walk with these entries may have come upon.
    pub open spec fn may_wait(self, item: WalkItemView) -> bool {
        &&& item.depth <= self.listings.len()
        &&& item == (WalkItemView { path: self.src, depth: 0, prefix: seq![] }) || {
            &&& names_directory(self.listings, item.prefix)
            &&& item.path == path::pushed(self.src, vstd::utf8::encode_utf8(item.prefix))
        }
    }

    /// The walk without the directory that is listed next.
    pub open spec fn popped(self) -> WalkView {
        WalkView { queue: self.queue.drop_last(), ..self }
    }

    /// The walk after a directory at this depth was listed.
    pub open spec fn with_entries(self, depth: nat, entries: Seq<EntryView>) -> WalkView {
        WalkView {
            queue: self.queue + subdirectories(self.src, depth, entries),
            listings: self.listings + entries,
            ..self
        }
    }

    /// A directory is being listed.
    pub open spec fn is_open(self) -> bool {
        self.is_valid() && self.queue.len() > 0
    }

    /// The walk after the directory that is being listed turned out to have
    /// these entries.
    pub open spec fn accepted(self, entries: Seq<EntryView>) -> WalkView {
        self.popped().with_entries(self.queue.last().depth, entries)
    }

    /// The walk after as many directories were listed, with these entries.
    pub open spec fn walked(self, answers: Seq<Seq<EntryView>>) -> WalkView
        decreases answers.len(),
    {
        if answers.len() == 0 {
            self
        } else {
            self.walked(answers.drop_last()).accepted(answers.last())
        }
    }

    /// The directories that were listed, in order.
    pub open spec fn visited(self, answers: Seq<Seq<EntryView>>) -> Seq<WalkItemView>
        decreases answers.len(),
    {
        if answers.len() == 0 {
            seq![]
        } else {
            self.visited(answers.drop_last()).push(self.walked(answers.drop_last()).queue.last())
        }
    }

    /// There was a directory to be listed each time.
    pub open spec fn can_walk(self, answers: Seq<Seq<EntryView>>) -> bool
        decreases answers.len(),
    {
        answers.len() > 0 ==> self.can_walk(answers.drop_last()) && self.walked(
            answers.drop_last(),
        ).queue.len() > 0
    }
}

impl Device {
    /// Begins to list a directory and everything below it.
    pub fn list_dir(&self, src: &UnixPath) -> (r: DirWalk)
        ensures
            r@ == WalkView::fresh(src@),
            r@.is_open(),
    {
        let mut queue: Vec<WalkItem> = Vec::new();
        let start: WalkItem = WalkItem {
            path: src.to_path_buf(),
            depth: 0,
            prefix: String::new(),
        };
        let ghost first = start@;
        queue.push(start);
        let listings: Vec<RemoteDirEntry> = Vec::new();
        assert(first.prefix =~= seq![]);
        assert(queue_view(queue@) =~= seq![first]);
        assert(sync::entries_view(listings@) =~= seq![]);
        DirWalk { src: src.to_path_buf(), queue, listings }
    }
}

impl DirWalk {
    /// The directory to be listed.
    pub fn directory(&self) -> (r: &WalkItem)
        requires
            self@.is_open(),
        ensures
            r@ == self@.queue.last(),
    {
        assert(self@.queue.last() == self.queue@.last()@);
        &self.queue[self.queue.len() - 1]
    }

    /// Takes the entries of the directory that was listed.
    pub fn accept(self, entries: Vec<RemoteDirEntry>) -> (r: WalkStep)
        requires
            self@.is_open(),
        ensures
            match r {
                WalkStep::List(next) => next@.is_open() && next@ == self@.accepted(
                    sync::entries_view(entries@),
                ),
                WalkStep::Over(listings) => {
                    let end = self@.accepted(sync::entries_view(entries@));
                    end.queue.len() == 0 && sync::entries_view(listings@) == end.listings
                },
            },
    {
        let ghost items = self@.queue;
        let DirWalk { src, mut queue, mut listings } = self;
        let depth: usize = match queue.pop() {
            Some(item) => {
                assert(items.last() == item@);
                assert(self@.may_wait(items[items.len() - 1]));
                item.depth
            },
            None => return WalkStep::Over(listings),
        };
        assert(queue_view(queue@) =~= items.drop_last());
        let ghost all = sync::entries_view(entries@);
        let ghost waiting = queue_view(queue@);
        let ghost known = sync::entries_view(listings@);
        let mut i: usize = 0;
        assert(all.take(0) =~= seq![]);
        assert(waiting + subdirectories(src@, depth as nat, all.take(0)) =~= waiting);
        assert(known + all.take(0) =~= known);
        while i < entries.len()
            invariant
                i <= entries.len(),
                all == sync::entries_view(entries@),
                depth <= known.len(),
                sync::entries_view(listings@) == known + all.take(i as int),
                queue_view(queue@) == waiting + subdirectories(
                    src@,
                    depth as nat,
                    all.take(i as int),
                ),
            decreases entries.len() - i,
        {
            let ghost queued = queue_view(queue@);
            let ghost listed = sync::entries_view(listings@);
            let entry: RemoteDirEntry = RemoteDirEntry {
                depth: entries[i].depth,
                metadata: entries[i].metadata,
                name: entries[i].name.clone(),
            };
            let ghost last = entry@;
            assert(last == all[i as int]);
            assert(all.take(i + 1).drop_last() =~= all.take(i as int));
            assert(all.take(i + 1).last() == last);
            let directory: bool = match entry.metadata {
                RemoteMetadata::RemoteDir => true,
                _ => false,
            };
            let name: String = entry.name.clone();
            listings.push(entry);
            assert(sync::entries_view(listings@) =~= listed.push(last));
            assert(listed.push(last) =~= known + all.take(i + 1));
            assert(listings.len() >= depth + 1);
            if directory {
                let item: WalkItem = WalkItem {
                    path: src.join(name.as_str()),
                    depth: depth + 1,
                    prefix: name,
                };
                let ghost added = item@;
                queue.push(item);
                assert(queue_view(queue@) =~= queued.push(added));
            }
            assert(queue_view(queue@) =~= waiting + subdirectories(
                src@,
                depth as nat,
                all.take(i + 1),
            ));
            i = i + 1;
        }
        assert(all.take(entries.len() as int) =~= all);
        proof {
            lemma_accepted_valid(self@, all);
        }
        if queue.len() == 0 {
            WalkStep::Over(listings)
        } else {
            WalkStep::List(DirWalk { src, queue, listings })
        }
    }
}

proof fn lemma_subdirectories(src: Seq<u8>, depth: nat, entries: Seq<EntryView>)
    ensures
        forall|i: int|
            0 <= i < subdirectories(src, depth, entries).len() ==> {
                let item = #[trigger] subdirectories(src, depth, entries)[i];
                &&& item.depth == depth + 1
                &&& entries.len() > 0
                &&& names_directory(entries, item.prefix)
                &&& item.path == path::pushed(src, vstd::utf8::encode_utf8(item.prefix))
            },
    decreases entries.len(),
{
    if entries.len() > 0 {
        let front = entries.drop_last();
        lemma_subdirectories(src, depth, front);
        assert forall|i: int| 0 <= i < subdirectories(src, depth, entries).len() implies {
            let item = #[trigger] subdirectories(src, depth, entries)[i];
            &&& item.depth == depth + 1
            &&& names_directory(entries, item.prefix)
            &&& item.path == path::pushed(src, vstd::utf8::encode_utf8(item.prefix))
        } by {
            let item = subdirectories(src, depth, entries)[i];
            if i < subdirectories(src, depth, front).len() {
                assert(item == subdirectories(src, depth, front)[i]);
                lemma_names_directory(front, seq![entries.last()], item.prefix);
                assert(front + seq![entries.last()] =~= entries);
            } else {
                assert(entries[entries.len() - 1].name == item.prefix);
            }
        }
    }
}

proof fn lemma_names_directory(front: Seq<EntryView>, back: Seq<EntryView>, name: Seq<char>)
    requires
        names_directory(front, name) || names_directory(back, name),
    ensures
        names_directory(front + back, name),
{
    let all = front + back;
    if names_directory(front, name) {
        let i = choose|i: int|
            0 <= i < front.len() && (#[trigger] front[i]).metadata is RemoteDir && front[i].name
                == name;
        assert(all[i] == front[i]);
    } else {
        let i = choose|i: int|
            0 <= i < back.len() && (#[trigger] back[i]).metadata is RemoteDir && back[i].name
                == name;
        assert(all[front.len() + i] == back[i]);
    }
}

proof fn lemma_with_entries_valid(walk: WalkView, depth: nat, entries: Seq<EntryView>)
    requires
        walk.is_valid(),
        depth <= walk.listings.len(),
    ensures
        walk.with_entries(depth, entries).is_valid(),
{
    let next = walk.with_entries(depth, entries);
    lemma_subdirectories(walk.src, depth, entries);
    let added = subdirectories(walk.src, depth, entries);
    assert forall|i: int| 0 <= i < next.queue.len() implies next.may_wait(
        #[trigger] next.queue[i],
    ) by {
        let item = next.queue[i];
        if i < walk.queue.len() {
            assert(item == walk.queue[i]);
            assert(walk.may_wait(item));
            if names_directory(walk.listings, item.prefix) {
                lemma_names_directory(walk.listings, entries, item.prefix);
            }
        } else {
            assert(item == added[i - walk.queue.len()]);
            lemma_names_directory(walk.listings, entries, item.prefix);
        }
    }
}

proof fn lemma_accepted_valid(walk: WalkView, entries: Seq<EntryView>)
    requires
        walk.is_open(),
    ensures
        walk.accepted(entries).is_valid(),
{
    let popped = walk.popped();
    assert(walk.may_wait(walk.queue[walk.queue.len() - 1]));
    assert forall|i: int| 0 <= i < popped.queue.len() implies popped.may_wait(
        #[trigger] popped.queue[i],
    ) by {
        assert(popped.queue[i] == walk.queue[i]);
        assert(walk.may_wait(walk.queue[i]));
    }
    lemma_with_entries_valid(popped, walk.queue.last().depth, entries);
}

/// At every point of a walk, a directory waits only once it was listed itself:
/// so the entry of a directory comes before the entries in it, and the name of
/// the entry is the path from the start.
pub proof fn law_directories_come_before_their_entries(src: Seq<u8>, answers: Seq<Seq<EntryView>>)
    requires
        WalkView::fresh(src).can_walk(answers),
    ensures
        WalkView::fresh(src).walked(answers).is_valid(),
        WalkView::fresh(src).walked(answers).src == src,
    decreases answers.len(),
{
    let start = WalkView::fresh(src);
    if answers.len() > 0 {
        law_directories_come_before_their_entries(src, answers.drop_last());
        lemma_accepted_valid(start.walked(answers.drop_last()), answers.last());
    }
}

// Receiving a tree

/// What is to be done to receive a tree.
#[derive(Debug)]
pub enum PullDirStep {
    /// Make a directory of this name below the destination.
    CreateDir(String),
    /// Receive this file, under this name below the destination.
    PullFile(UnixPath, String),
}

/// What a step asks for.
pub enum PullDirStepView {
    CreateDir(Seq<char>),
    PullFile(Seq<u8>, Seq<char>),
}

impl View for PullDirStep {
    type V = PullDirStepView;

    open spec fn view(&self) -> PullDirStepView {
        match self {
            PullDirStep::CreateDir(name) => PullDirStepView::CreateDir(name@),
            PullDirStep::PullFile(file, name) => PullDirStepView::PullFile(file@, name@),
        }
    }
}

pub open spec fn steps_view(steps: Seq<PullDirStep>) -> Seq<PullDirStepView> {
    steps.map_values(|step: PullDirStep| step@)
}

/// The steps for these entries: symbolic links are left out.
pub open spec fn pull_steps(src: Seq<u8>, entries: Seq<EntryView>) -> Seq<PullDirStepView>
    decreases entries.len(),
{
    if entries.len() == 0 {
        seq![]
    } else {
        let others = pull_steps(src, entries.drop_last());
        let last = entries.last();
        match last.metadata {
            RemoteMetadata::RemoteSymlink => others,
            RemoteMetadata::RemoteDir => others.push(PullDirStepView::CreateDir(last.name)),
            RemoteMetadata::RemoteFile(_) => others.push(
                PullDirStepView::PullFile(
                    path::pushed(src, vstd::utf8::encode_utf8(last.name)),
                    last.name,
                ),
            ),
        }
    }
}

impl Device {
    /// The steps that receive a directory whose entries are these.
    pub fn pull_dir(&self, src: &UnixPath, entries: &Vec<RemoteDirEntry>) -> (r: Vec<PullDirStep>)
        ensures
            steps_view(r@) == pull_steps(src@, sync::entries_view(entries@)),
    {
        let mut steps: Vec<PullDirStep> = Vec::new();
        let ghost all = sync::entries_view(entries@);
        let mut i: usize = 0;
        assert(all.take(0) =~= seq![]);
        assert(steps_view(steps@) =~= seq![]);
        while i < entries.len()
            invariant
                i <= entries.len(),
                all == sync::entries_view(entries@),
                steps_view(steps@) == pull_steps(src@, all.take(i as int)),
            decreases entries.len() - i,
        {
            let entry: &RemoteDirEntry = &entries[i];
            let ghost done = steps_view(steps@);
            assert(all.take(i + 1).drop_last() =~= all.take(i as int));
            assert(all.take(i + 1).last() == entry@);
            match entry.metadata {
                RemoteMetadata::RemoteSymlink => {},
                RemoteMetadata::RemoteDir => {
                    let step: PullDirStep = PullDirStep::CreateDir(entry.name.clone());
                    let ghost added = step@;
                    steps.push(step);
                    assert(steps_view(steps@) =~= done.push(added));
                },
                RemoteMetadata::RemoteFile(_) => {
                    let file: UnixPath = src.join(entry.name.as_str());
                    let step: PullDirStep = PullDirStep::PullFile(file, entry.name.clone());
                    let ghost added = step@;
                    steps.push(step);
                    assert(steps_view(steps@) =~= done.push(added));
                },
            }
            i = i + 1;
        }
        assert(all.take(entries.len() as int) =~= all);
        steps
    }
}

// Sending a tree

/// A component of a path on this machine.
#[derive(Debug)]
pub enum TailComponent {
    /// A name, where it is text.
    Normal(String),
    /// A name that is not UTF-8.
    NotUtf8,
    /// A prefix, a root, `.` or `..`.
    Special,
}

/// What a component is.
pub enum TailView {
    Normal(Seq<char>),
    NotUtf8,
    Special,
}

impl View for TailComponent {
    type V = TailView;

    open spec fn view(&self) -> TailView {
        match self {
            TailComponent::Normal(name) => TailView::Normal(name@),
            TailComponent::NotUtf8 => TailView::NotUtf8,
            TailComponent::Special => TailView::Special,
        }
    }
}

pub open spec fn tail_view(tail: Seq<TailComponent>) -> Seq<TailView> {
    tail.map_values(|component: TailComponent| component@)
}

/// Why a path cannot be appended to a path of the device.
#[derive(Debug, Clone, Copy, PartialEq, Eq)]
pub enum AppendError {
    NotUtf8,
    Unexpected,
}

impl AppendError {
    /// What the error says.
    pub open spec fn text(self) -> Seq<char> {
        match self {
            AppendError::NotUtf8 => "Could not represent path segment as UTF-8"@,
            AppendError::Unexpected => "Unexpected path component"@,
        }
    }

    /// What the error says.
    pub fn message(&self) -> (r: &'static str)
        ensures
            r@ == self.text(),
    {
        match self {
            AppendError::NotUtf8 => "Could not represent path segment as UTF-8",
            AppendError::Unexpected => "Unexpected path component",
        }
    }
}

/// The path with the components appended one by one; the first one that cannot
/// be appended decides on the error.
pub open spec fn appended(base: Seq<u8>, tail: Seq<TailView>) -> Result<Seq<u8>, AppendError>
    decreases tail.len(),
{
    if tail.len() == 0 {
        Ok(base)
    } else {
        match appended(base, tail.drop_last()) {
            Err(error) => Err(error),
            Ok(front) => match tail.last() {
                TailView::Normal(name) => Ok(
                    path::pushed(front, vstd::utf8::encode_utf8(name)),
                ),
                TailView::NotUtf8 => Err(AppendError::NotUtf8),
                TailView::Special => Err(AppendError::Unexpected),
            },
        }
    }
}

/// Appends a path of this machine to a path of the device.
pub fn append_components(base: &UnixPath, tail: &Vec<TailComponent>) -> (r: Result<
    UnixPath,
    AppendError,
>)
    ensures
        match r {
            Ok(buf) => appended(base@, tail_view(tail@)) == Ok::<Seq<u8>, AppendError>(buf@),
            Err(error) => appended(base@, tail_view(tail@)) == Err::<Seq<u8>, AppendError>(error),
        },
{
    let mut buf: UnixPath = base.to_path_buf();
    let ghost all = tail_view(tail@);
    let mut i: usize = 0;
    assert(all.take(0) =~= seq![]);
    while i < tail.len()
        invariant
            i <= tail.len(),
            all == tail_view(tail@),
            appended(base@, all.take(i as int)) == Ok::<Seq<u8>, AppendError>(buf@),
        decreases tail.len() - i,
    {
        assert(all.take(i + 1).drop_last() =~= all.take(i as int));
        assert(all.take(i + 1).last() == tail@[i as int]@);
        match &tail[i] {
            TailComponent::Normal(segment) => {
                buf = buf.join(segment.as_str());
            },
            TailComponent::NotUtf8 => {
                proof {
                    lemma_error_stays(base@, all, i + 1);
                }
                return Err(AppendError::NotUtf8);
            },
            TailComponent::Special => {
                proof {
                    lemma_error_stays(base@, all, i + 1);
                }
                return Err(AppendError::Unexpected);
            },
        }
        i = i + 1;
    }
    assert(all.take(tail.len() as int) =~= all);
    Ok(buf)
}

proof fn lemma_error_stays(base: Seq<u8>, tail: Seq<TailView>, count: int)
    requires
        0 <= count <= tail.len(),
        appended(base, tail.take(count)) is Err,
    ensures
        appended(base, tail) == appended(base, tail.take(count)),
    decreases tail.len(),
{
    if count == tail.len() {
        assert(tail.take(count) =~= tail);
    } else {
        let front = tail.drop_last();
        assert(front.take(count) =~= tail.take(count));
        lemma_error_stays(base, front, count);
    }
}

/// A path that was appended lies under the path that it was appended to, as
/// long as no name in it begins with a slash.
pub proof fn law_appended_lies_under(base: Seq<u8>, tail: Seq<TailView>)
    requires
        forall|i: int|
            0 <= i < tail.len() ==> match #[trigger] tail[i] {
                TailView::Normal(name) => !path::is_absolute(vstd::utf8::encode_utf8(name)),
                _ => true,
            },
    ensures
        match appended(base, tail) {
            Ok(whole) => path::lies_under(whole, base),
            Err(_) => true,
        },
    decreases tail.len(),
{
    if tail.len() == 0 {
        path::law_lies_under_itself(base);
    } else {
        let front = tail.drop_last();
        assert forall|i: int| 0 <= i < front.len() implies match #[trigger] front[i] {
            TailView::Normal(name) => !path::is_absolute(vstd::utf8::encode_utf8(name)),
            _ => true,
        } by {
            assert(front[i] == tail[i]);
        }
        law_appended_lies_under(base, front);
        if let Ok(buf) = appended(base, front) {
            assert(tail.last() == tail[tail.len() - 1]);
            if let TailView::Normal(name) = tail.last() {
                let segment = vstd::utf8::encode_utf8(name);
                path::law_push_stays_under(buf, segment);
                path::law_lies_under_transitive(path::pushed(buf, segment), buf, base);
            }
        }
    }
}

impl Device {
    /// Where a file of a tree is to be sent, given its path from the top of the
    /// tree; what is not a file is not sent.
    pub fn push_dir(
        &self,
        dest_dir: &UnixPath,
        is_file: bool,
        tail: &Vec<TailComponent>,
    ) -> (r: Result<Option<UnixPath>, AppendError>)
        ensures
            match r {
                Ok(None) => !is_file,
                Ok(Some(dest)) => is_file && appended(dest_dir@, tail_view(tail@)) == Ok::<
                    Seq<u8>,
                    AppendError,
                >(dest@),
                Err(error) => is_file && appended(dest_dir@, tail_view(tail@)) == Err::<
                    Seq<u8>,
                    AppendError,
                >(error),
            },
    {
        if !is_file {
            return Ok(None);
        }
        match append_components(dest_dir, tail) {
            Ok(dest) => Ok(Some(dest)),
            Err(error) => Err(error),
        }
    }
}

/// The steps that receive a tree are those of its entries, in order and one for
/// each, but for the symbolic links: a directory is made under its own name, and
/// a file is received from that name below the start, and under that name.
pub proof fn law_one_step_for_each_entry(src: Seq<u8>, entries: Seq<EntryView>)
    ensures
        pull_steps(src, entries) == entries.filter(
            |e: EntryView| !(e.metadata is RemoteSymlink),
        ).map_values(
            |e: EntryView|
                if e.metadata is RemoteDir {
                    PullDirStepView::CreateDir(e.name)
                } else {
                    PullDirStepView::PullFile(
                        path::pushed(src, vstd::utf8::encode_utf8(e.name)),
                        e.name,
                    )
                },
        ),
    decreases entries.len(),
{
    let keep = |e: EntryView| !(e.metadata is RemoteSymlink);
    let step = |e: EntryView|
        if e.metadata is RemoteDir {
            PullDirStepView::CreateDir(e.name)
        } else {
            PullDirStepView::PullFile(
                path::pushed(src, vstd::utf8::encode_utf8(e.name)),
                e.name,
            )
        };
    reveal(Seq::filter);
    if entries.len() == 0 {
        assert(entries.filter(keep).map_values(step) =~= seq![]);
    } else {
        let front = entries.drop_last();
        let last = entries.last();
        law_one_step_for_each_entry(src, front);
        assert(front.filter(keep).push(last).map_values(step) =~= front.filter(keep).map_values(
            step,
        ).push(step(last)));
    }
}

/// The directories that a listing adds to a walk are those among its entries, in
/// order, each at the entry's name below the start and one level deeper.
pub proof fn law_one_item_for_each_directory(src: Seq<u8>, depth: nat, entries: Seq<EntryView>)
    ensures
        subdirectories(src, depth, entries) == entries.filter(
            |e: EntryView| e.metadata is RemoteDir,
        ).map_values(
            |e: EntryView|
                WalkItemView {
                    path: path::pushed(src, vstd::utf8::encode_utf8(e.name)),
                    depth: depth + 1,
                    prefix: e.name,
                },
        ),
    decreases entries.len(),
{
    let keep = |e: EntryView| e.metadata is RemoteDir;
    let item = |e: EntryView|
        WalkItemView {
            path: path::pushed(src, vstd::utf8::encode_utf8(e.name)),
            depth: depth + 1,
            prefix: e.name,
        };
    reveal(Seq::filter);
    if entries.len() == 0 {
        assert(entries.filter(keep).map_values(item) =~= seq![]);
    } else {
        let front = entries.drop_last();
        let last = entries.last();
        law_one_item_for_each_directory(src, depth, front);
        assert(front.filter(keep).push(last).map_values(item) =~= front.filter(keep).map_values(
            item,
        ).push(item(last)));
    }
}

/// A walk starts with the start itself, under no name and at no depth. The
/// entries of a directory are added to what was listed, and the directories among
/// them wait behind those that waited before; the one that was listed waits no
/// longer.
pub proof fn law_walk_goes_on(src: Seq<u8>, walk: WalkView, entries: Seq<EntryView>)
    requires
        walk.queue.len() > 0,
    ensures
        WalkView::fresh(src).src == src,
        WalkView::fresh(src).listings.len() == 0,
        WalkView::fresh(src).queue.len() == 1,
        WalkView::fresh(src).queue[0] == (WalkItemView {
            path: src,
            depth: 0,
            prefix: Seq::<char>::empty(),
        }),
        walk.accepted(entries).src == walk.src,
        walk.accepted(entries).listings == walk.listings + entries,
        walk.accepted(entries).queue == walk.queue.take(walk.queue.len() - 1) + entries.filter(
            |e: EntryView| e.metadata is RemoteDir,
        ).map_values(
            |e: EntryView|
                WalkItemView {
                    path: path::pushed(walk.src, vstd::utf8::encode_utf8(e.name)),
                    depth: walk.queue[walk.queue.len() - 1].depth + 1,
                    prefix: e.name,
                },
        ),
{
    law_one_item_for_each_directory(walk.src, walk.queue.last().depth, entries);
    assert(walk.queue.drop_last() =~= walk.queue.take(walk.queue.len() - 1));
    assert(walk.popped().queue == walk.queue.take(walk.queue.len() - 1));
}

/// A path is appended name by name, and the first component that is no name, or
/// no text, decides on the error, whatever follows it.
pub proof fn law_first_bad_component_decides(
    base: Seq<u8>,
    front: Seq<TailView>,
    name: Seq<char>,
    rest: Seq<TailView>,
)
    requires
        appended(base, front) is Ok,
    ensures
        appended(base, Seq::<TailView>::empty()) == Ok::<Seq<u8>, AppendError>(base),
        appended(base, front.push(TailView::Normal(name))) == Ok::<Seq<u8>, AppendError>(
            path::pushed(appended(base, front)->Ok_0, vstd::utf8::encode_utf8(name)),
        ),
        appended(base, front.push(TailView::NotUtf8) + rest) == Err::<Seq<u8>, AppendError>(
            AppendError::NotUtf8,
        ),
        appended(base, front.push(TailView::Special) + rest) == Err::<Seq<u8>, AppendError>(
            AppendError::Unexpected,
        ),
{
    let count = front.len() as int + 1;
    let named = front.push(TailView::Normal(name));
    assert(named.drop_last() =~= front);
    let untold = front.push(TailView::NotUtf8);
    assert(untold.drop_last() =~= front);
    assert((untold + rest).take(count) =~= untold);
    lemma_error_stays(base, untold + rest, count);
    let special = front.push(TailView::Special);
    assert(special.drop_last() =~= front);
    assert((special + rest).take(count) =~= special);
    lemma_error_stays(base, special + rest, count);
}

/// What is said of a path that cannot be appended.
pub proof fn law_append_errors_in_words()
    ensures
        AppendError::NotUtf8.text() == "Could not represent path segment as UTF-8"@,
        AppendError::Unexpected.text() == "Unexpected path component"@,
{
}

} // verus!
