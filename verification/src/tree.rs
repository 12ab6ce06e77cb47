//! What holds of whole trees: a walk lists each directory once, and a tree that
//! is sent is received from where it was sent to.

use vstd::prelude::*;

use crate::device::Device;
use crate::error::ErrorView;
use crate::path;
use crate::pull;
use crate::push::{PushState, PushView};
use crate::sync;
use crate::sync::EntryView;
use crate::walk;
use crate::walk::{AppendError, PullDirStepView, TailView, WalkItemView, WalkView};
use crate::wire;

verus! {

// Directories

/// Where a walk starts.
pub open spec fn start_of(src: Seq<u8>) -> WalkItemView {
    WalkItemView { path: src, depth: 0, prefix: seq![] }
}

/// The directory that an entry stands for: below the start under the name of the
/// entry, and one level deeper than the entry.
pub open spec fn item_of(src: Seq<u8>, entry: EntryView) -> WalkItemView {
    WalkItemView {
        path: path::pushed(src, vstd::utf8::encode_utf8(entry.name)),
        depth: (entry.depth + 1) as nat,
        prefix: entry.name,
    }
}

/// The directories that the entries stand for, in order.
pub open spec fn items_of(src: Seq<u8>, entries: Seq<EntryView>) -> Seq<WalkItemView>
    decreases entries.len(),
{
    if entries.len() == 0 {
        seq![]
    } else if entries.last().metadata is RemoteDir {
        items_of(src, entries.drop_last()).push(item_of(src, entries.last()))
    } else {
        items_of(src, entries.drop_last())
    }
}

/// Each entry has the depth of the directory that it was listed in.
pub open spec fn at_depth(walk: WalkView, answers: Seq<Seq<EntryView>>) -> bool
    decreases answers.len(),
{
    answers.len() > 0 ==> at_depth(walk, answers.drop_last()) && forall|i: int|
        0 <= i < answers.last().len() ==> (#[trigger] answers.last()[i]).depth == walk.walked(
            answers.drop_last(),
        ).queue.last().depth
}

proof fn lemma_items_at_depth(src: Seq<u8>, depth: nat, entries: Seq<EntryView>)
    requires
        forall|i: int| 0 <= i < entries.len() ==> (#[trigger] entries[i]).depth == depth,
    ensures
        walk::subdirectories(src, depth, entries) == items_of(src, entries),
    decreases entries.len(),
{
    if entries.len() > 0 {
        let front = entries.drop_last();
        assert forall|i: int| 0 <= i < front.len() implies (#[trigger] front[i]).depth == depth by {
            assert(front[i] == entries[i]);
        }
        lemma_items_at_depth(src, depth, front);
        assert(entries.last() == entries[entries.len() - 1]);
    }
}

proof fn lemma_items_concat(src: Seq<u8>, a: Seq<EntryView>, b: Seq<EntryView>)
    ensures
        items_of(src, a + b) == items_of(src, a) + items_of(src, b),
    decreases b.len(),
{
    if b.len() == 0 {
        assert(a + b =~= a);
        assert(items_of(src, a) + items_of(src, b) =~= items_of(src, a));
    } else {
        assert((a + b).drop_last() =~= a + b.drop_last());
        lemma_items_concat(src, a, b.drop_last());
        assert(items_of(src, a + b) =~= items_of(src, a) + items_of(src, b));
    }
}

/// The directories that were listed and those that wait are the start and those
/// that the entries stand for.
proof fn lemma_visited(src: Seq<u8>, answers: Seq<Seq<EntryView>>)
    requires
        WalkView::fresh(src).can_walk(answers),
        at_depth(WalkView::fresh(src), answers),
    ensures
        ({
            let walk = WalkView::fresh(src).walked(answers);
            let visited = WalkView::fresh(src).visited(answers);
            &&& walk.src == src
            &&& walk.listings == answers.flatten()
            &&& visited.len() == answers.len()
            &&& answers.len() > 0 ==> visited[0] == start_of(src)
            &&& visited.to_multiset().add(walk.queue.to_multiset()) == items_of(
                src,
                walk.listings,
            ).to_multiset().insert(start_of(src))
        }),
    decreases answers.len(),
{
    broadcast use vstd::seq_lib::group_to_multiset_ensures;

    let start = WalkView::fresh(src);
    let walk = start.walked(answers);
    let visited = start.visited(answers);
    if answers.len() == 0 {
        assert(answers.flatten() =~= seq![]);
        assert(walk.queue =~= Seq::<WalkItemView>::empty().push(start_of(src)));
        assert(Seq::<WalkItemView>::empty().to_multiset()
            =~= vstd::multiset::Multiset::<WalkItemView>::empty());
        assert(visited =~= Seq::<WalkItemView>::empty());
        assert(items_of(src, walk.listings) =~= Seq::<WalkItemView>::empty());
        assert(visited.to_multiset().add(walk.queue.to_multiset()) =~= items_of(
            src,
            walk.listings,
        ).to_multiset().insert(start_of(src)));
    } else {
        let front = answers.drop_last();
        lemma_visited(src, front);
        let before = start.walked(front);
        let item = before.queue.last();
        let entries = answers.last();
        let added = walk::subdirectories(src, item.depth, entries);
        lemma_items_at_depth(src, item.depth, entries);
        lemma_items_concat(src, before.listings, entries);
        assert(answers =~= front.push(entries));
        front.lemma_flatten_push(entries);
        assert(before.queue =~= before.queue.drop_last().push(item));
        vstd::seq_lib::lemma_multiset_commutative(before.queue.drop_last(), added);
        vstd::seq_lib::lemma_multiset_commutative(items_of(src, before.listings), added);
        let seen = start.visited(front);
        assert(visited == seen.push(item));
        assert(visited.to_multiset() =~= seen.to_multiset().insert(item));
        assert(before.queue.to_multiset() =~= before.queue.drop_last().to_multiset().insert(item));
        assert(walk.queue == before.queue.drop_last() + added);
        assert(walk.listings == before.listings + entries);
        assert(items_of(src, walk.listings) == items_of(src, before.listings) + added);
        let waiting = before.queue.drop_last();
        let known = items_of(src, before.listings);
        assert(walk.queue.to_multiset() == waiting.to_multiset().add(added.to_multiset()));
        assert(items_of(src, walk.listings).to_multiset() == known.to_multiset().add(
            added.to_multiset(),
        ));
        let left = visited.to_multiset().add(walk.queue.to_multiset());
        let right = items_of(src, walk.listings).to_multiset().insert(start_of(src));
        assert forall|x: WalkItemView| left.count(x) == right.count(x) by {
            let old_left = seen.to_multiset().add(before.queue.to_multiset());
            let old_right = known.to_multiset().insert(start_of(src));
            assert(old_left.count(x) == old_right.count(x));
        }
        assert(left =~= right);
        if front.len() == 0 {
            assert(visited[0] == start_of(src));
        } else {
            assert(visited[0] == seen[0]);
        }
    }
}

proof fn lemma_item_contained(src: Seq<u8>, entries: Seq<EntryView>, j: int)
    requires
        0 <= j < entries.len(),
        entries[j].metadata is RemoteDir,
    ensures
        items_of(src, entries).contains(item_of(src, entries[j])),
    decreases entries.len(),
{
    let items = items_of(src, entries);
    if j == entries.len() - 1 {
        assert(items.last() == item_of(src, entries[j]));
    } else {
        let front = entries.drop_last();
        assert(front[j] == entries[j]);
        lemma_item_contained(src, front, j);
        let i = choose|i: int|
            0 <= i < items_of(src, front).len() && items_of(src, front)[i] == item_of(
                src,
                entries[j],
            );
        assert(items[i] == item_of(src, entries[j]));
    }
}

/// The entry that a directory comes from.
proof fn lemma_item_comes_from(src: Seq<u8>, entries: Seq<EntryView>, item: WalkItemView) -> (j: int)
    requires
        items_of(src, entries).contains(item),
    ensures
        0 <= j < entries.len(),
        entries[j].metadata is RemoteDir,
        item == item_of(src, entries[j]),
    decreases entries.len(),
{
    let items = items_of(src, entries);
    let i = choose|i: int| 0 <= i < items.len() && items[i] == item;
    let front = entries.drop_last();
    if entries.last().metadata is RemoteDir && i == items.len() - 1 {
        entries.len() - 1
    } else {
        assert(items_of(src, front)[i] == item);
        let j = lemma_item_comes_from(src, front, item);
        assert(front[j] == entries[j]);
        j
    }
}

/// No two directories among the entries have the same name.
pub open spec fn distinct_directories(entries: Seq<EntryView>) -> bool {
    forall|i: int, j: int|
        0 <= i < j < entries.len() && (#[trigger] entries[i]).metadata is RemoteDir && (
        #[trigger] entries[j]).metadata is RemoteDir ==> entries[i].name != entries[j].name
}

proof fn lemma_items_distinct(src: Seq<u8>, entries: Seq<EntryView>)
    requires
        distinct_directories(entries),
    ensures
        items_of(src, entries).no_duplicates(),
    decreases entries.len(),
{
    if entries.len() > 0 {
        let front = entries.drop_last();
        assert forall|i: int, j: int|
            0 <= i < j < front.len() && (#[trigger] front[i]).metadata is RemoteDir && (
            #[trigger] front[j]).metadata is RemoteDir implies front[i].name != front[j].name by {
            assert(front[i] == entries[i] && front[j] == entries[j]);
        }
        lemma_items_distinct(src, front);
        let last = entries.last();
        if last.metadata is RemoteDir && items_of(src, front).contains(item_of(src, last)) {
            let j = lemma_item_comes_from(src, front, item_of(src, last));
            assert(front[j] == entries[j]);
            assert(entries[entries.len() - 1] == last);
            assert(false);
        }
    }
}

/// The directory is the one that some entry stands for.
pub open spec fn is_listed(src: Seq<u8>, entries: Seq<EntryView>, item: WalkItemView) -> bool {
    exists|j: int|
        0 <= j < entries.len() && (#[trigger] entries[j]).metadata is RemoteDir && item == item_of(
            src,
            entries[j],
        )
}

/// The directory was listed, behind the start.
pub open spec fn was_visited(visited: Seq<WalkItemView>, item: WalkItemView) -> bool {
    exists|k: int| 0 < k < visited.len() && #[trigger] visited[k] == item
}

/// A walk that is over holds all the entries in the order in which they came.
/// The directories that it listed are the start and, for each entry that is a
/// directory, the one that the entry stands for: as often as there are such
/// entries, and no other. So where no two directories have the same name, each
/// of them was listed once.
pub proof fn law_walk_lists_every_directory_once(src: Seq<u8>, answers: Seq<Seq<EntryView>>)
    requires
        WalkView::fresh(src).can_walk(answers),
        at_depth(WalkView::fresh(src), answers),
        WalkView::fresh(src).walked(answers).queue.len() == 0,
    ensures
        ({
            let listings = WalkView::fresh(src).walked(answers).listings;
            let visited = WalkView::fresh(src).visited(answers);
            &&& listings == answers.flatten()
            &&& visited.len() == answers.len() && visited.len() > 0
            &&& visited[0] == start_of(src)
            &&& visited.to_multiset() == items_of(src, listings).to_multiset().insert(start_of(src))
            &&& forall|j: int|
                0 <= j < listings.len() && (#[trigger] listings[j]).metadata is RemoteDir
                    ==> was_visited(visited, item_of(src, listings[j]))
            &&& forall|k: int|
                0 < k < visited.len() ==> is_listed(src, listings, #[trigger] visited[k])
            &&& distinct_directories(listings) ==> visited.no_duplicates()
        }),
{
    broadcast use vstd::seq_lib::group_to_multiset_ensures;

    let walk = WalkView::fresh(src).walked(answers);
    let listings = walk.listings;
    let visited = WalkView::fresh(src).visited(answers);
    let start = start_of(src);
    let items = items_of(src, listings);
    lemma_visited(src, answers);
    assert(walk.queue =~= Seq::<WalkItemView>::empty());
    assert(walk.queue.to_multiset() =~= vstd::multiset::Multiset::<WalkItemView>::empty());
    assert(visited.to_multiset() =~= items.to_multiset().insert(start));
    assert(visited.to_multiset().len() == items.to_multiset().len() + 1);
    assert forall|j: int|
        0 <= j < listings.len() && (
        #[trigger] listings[j]).metadata is RemoteDir implies was_visited(
        visited,
        item_of(src, listings[j]),
    ) by {
        let item = item_of(src, listings[j]);
        lemma_item_contained(src, listings, j);
        assert(items.to_multiset().count(item) > 0);
        assert(visited.to_multiset().count(item) > 0);
        assert(visited.contains(item));
        let k = choose|k: int| 0 <= k < visited.len() && visited[k] == item;
        assert(item.depth > 0);
        assert(visited[k] == item);
    }
    let others = visited.drop_first();
    assert(visited =~= seq![start] + others);
    vstd::seq_lib::lemma_multiset_commutative(seq![start], others);
    assert(seq![start] =~= Seq::<WalkItemView>::empty().push(start));
    assert(Seq::<WalkItemView>::empty().to_multiset()
        =~= vstd::multiset::Multiset::<WalkItemView>::empty());
    assert(others.to_multiset() =~= items.to_multiset()) by {
        assert forall|x: WalkItemView|
            others.to_multiset().count(x) == items.to_multiset().count(x) by {
            assert(visited.to_multiset().count(x) == others.to_multiset().count(x) + if x == start {
                1nat
            } else {
                0nat
            });
        }
    }
    assert forall|k: int| 0 < k < visited.len() implies is_listed(
        src,
        listings,
        #[trigger] visited[k],
    ) by {
        assert(others[k - 1] == visited[k]);
        assert(others.contains(visited[k]));
        assert(others.to_multiset().count(visited[k]) > 0);
        assert(items.to_multiset().count(visited[k]) > 0);
        let j = lemma_item_comes_from(src, listings, visited[k]);
        assert(listings[j].metadata is RemoteDir);
    }
    if distinct_directories(listings) {
        lemma_items_distinct(src, listings);
        items.lemma_multiset_has_no_duplicates();
        assert forall|x: WalkItemView| visited.to_multiset().contains(x) implies
            visited.to_multiset().count(x) == 1 by {
            if x == start {
                if items.contains(start) {
                    let j = lemma_item_comes_from(src, listings, start);
                    assert(false);
                }
                assert(items.to_multiset().count(start) == 0);
            } else {
                assert(items.to_multiset().contains(x));
            }
        }
        visited.lemma_multiset_has_no_duplicates_conv();
    }
}

// Names

/// A name that a file can have: some characters, and no slash.
pub open spec fn is_file_name(name: Seq<char>) -> bool {
    name.len() > 0 && forall|i: int| 0 <= i < name.len() ==> #[trigger] name[i] != '/'
}

/// Each of the names is one that a file can have.
pub open spec fn are_file_names(names: Seq<Seq<char>>) -> bool {
    forall|i: int| 0 <= i < names.len() ==> is_file_name(#[trigger] names[i])
}

/// Names with a slash between each and the next.
pub open spec fn slash_joined(names: Seq<Seq<char>>) -> Seq<char>
    decreases names.len(),
{
    if names.len() == 0 {
        seq![]
    } else if names.len() == 1 {
        names[0]
    } else {
        slash_joined(names.drop_last()) + "/"@ + names.last()
    }
}

/// How many slashes a text holds.
pub open spec fn slashes(s: Seq<char>) -> nat
    decreases s.len(),
{
    if s.len() == 0 {
        0
    } else {
        slashes(s.drop_last()) + if s.last() == '/' {
            1nat
        } else {
            0nat
        }
    }
}

proof fn lemma_slashes_concat(a: Seq<char>, b: Seq<char>)
    ensures
        slashes(a + b) == slashes(a) + slashes(b),
    decreases b.len(),
{
    if b.len() == 0 {
        assert(a + b =~= a);
    } else {
        assert((a + b).drop_last() =~= a + b.drop_last());
        lemma_slashes_concat(a, b.drop_last());
    }
}

proof fn lemma_no_slashes(name: Seq<char>)
    requires
        forall|i: int| 0 <= i < name.len() ==> #[trigger] name[i] != '/',
    ensures
        slashes(name) == 0,
    decreases name.len(),
{
    if name.len() > 0 {
        let front = name.drop_last();
        assert forall|i: int| 0 <= i < front.len() implies #[trigger] front[i] != '/' by {
            assert(front[i] == name[i]);
        }
        lemma_no_slashes(front);
        assert(name.last() == name[name.len() - 1]);
    }
}

/// The name of an entry has one slash for each directory that it is in.
proof fn lemma_prefixed_slashes(prefix: Seq<char>, name: Seq<char>)
    requires
        is_file_name(name),
    ensures
        sync::prefixed(prefix, name).len() > 0,
        slashes(sync::prefixed(prefix, name)) == if prefix.len() == 0 {
            0
        } else {
            slashes(prefix) + 1
        },
{
    lemma_no_slashes(name);
    if prefix.len() > 0 {
        reveal_strlit("/");
        lemma_slashes_concat(prefix, "/"@);
        lemma_slashes_concat(prefix + "/"@, name);
        assert("/"@.drop_last() =~= Seq::<char>::empty());
        assert(slashes("/"@) == 1) by {
            assert(slashes(Seq::<char>::empty()) == 0);
        }
    }
}

/// The entry has the depth of the directory, and its name is that of the
/// directory, a slash, and a name that a file can have.
pub open spec fn is_file_of(item: WalkItemView, entry: EntryView) -> bool {
    entry.depth == item.depth && exists|name: Seq<char>|
        entry.name == #[trigger] sync::prefixed(item.prefix, name) && is_file_name(name)
}

/// Each directory was listed with its own files.
pub open spec fn own_files(walk: WalkView, answers: Seq<Seq<EntryView>>) -> bool
    decreases answers.len(),
{
    answers.len() > 0 ==> own_files(walk, answers.drop_last()) && forall|i: int|
        0 <= i < answers.last().len() ==> is_file_of(
            walk.walked(answers.drop_last()).queue.last(),
            #[trigger] answers.last()[i],
        )
}

proof fn lemma_own_files_at_depth(walk: WalkView, answers: Seq<Seq<EntryView>>)
    requires
        own_files(walk, answers),
    ensures
        at_depth(walk, answers),
    decreases answers.len(),
{
    if answers.len() > 0 {
        lemma_own_files_at_depth(walk, answers.drop_last());
        assert forall|i: int| 0 <= i < answers.last().len() implies (
        #[trigger] answers.last()[i]).depth == walk.walked(
            answers.drop_last(),
        ).queue.last().depth by {
            assert(is_file_of(
                walk.walked(answers.drop_last()).queue.last(),
                answers.last()[i],
            ));
        }
    }
}

/// A directory is as deep as there are names in its path from the start.
pub open spec fn is_deep(item: WalkItemView) -> bool {
    if item.prefix.len() == 0 {
        item.depth == 0
    } else {
        item.depth == slashes(item.prefix) + 1
    }
}

/// An entry is as deep as there are slashes in its name.
pub open spec fn is_deep_entry(entry: EntryView) -> bool {
    entry.name.len() > 0 && entry.depth == slashes(entry.name)
}

/// In a tree of files, an entry is as deep as there are slashes in its name.
pub proof fn law_depth_counts_slashes(src: Seq<u8>, answers: Seq<Seq<EntryView>>)
    requires
        WalkView::fresh(src).can_walk(answers),
        own_files(WalkView::fresh(src), answers),
    ensures
        ({
            let walk = WalkView::fresh(src).walked(answers);
            &&& forall|i: int|
                0 <= i < walk.listings.len() ==> is_deep_entry(#[trigger] walk.listings[i])
            &&& forall|i: int| 0 <= i < walk.queue.len() ==> is_deep(#[trigger] walk.queue[i])
        }),
    decreases answers.len(),
{
    let start = WalkView::fresh(src);
    let walk = start.walked(answers);
    if answers.len() > 0 {
        let front = answers.drop_last();
        law_depth_counts_slashes(src, front);
        lemma_own_files_at_depth(start, answers);
        lemma_visited(src, front);
        let before = start.walked(front);
        let item = before.queue.last();
        let entries = answers.last();
        assert(is_deep(before.queue[before.queue.len() - 1]));
        assert forall|i: int| 0 <= i < entries.len() implies is_deep_entry(
            #[trigger] entries[i],
        ) by {
            assert(is_file_of(item, entries[i]));
            let name = choose|name: Seq<char>|
                entries[i].name == #[trigger] sync::prefixed(item.prefix, name) && is_file_name(
                    name,
                );
            lemma_prefixed_slashes(item.prefix, name);
        }
        assert forall|i: int| 0 <= i < walk.listings.len() implies is_deep_entry(
            #[trigger] walk.listings[i],
        ) by {
            if i < before.listings.len() {
                assert(walk.listings[i] == before.listings[i]);
            } else {
                assert(walk.listings[i] == entries[i - before.listings.len()]);
            }
        }
        lemma_items_at_depth(src, item.depth, entries);
        let added = items_of(src, entries);
        assert(walk.queue == before.queue.drop_last() + added);
        assert forall|i: int| 0 <= i < walk.queue.len() implies is_deep(
            #[trigger] walk.queue[i],
        ) by {
            let kept = before.queue.len() - 1;
            if i < kept {
                assert(walk.queue[i] == before.queue[i]);
            } else {
                assert(walk.queue[i] == added[i - kept]);
                assert(added.contains(added[i - kept]));
                let j = lemma_item_comes_from(src, entries, added[i - kept]);
                assert(is_deep_entry(entries[j]));
            }
        }
    }
}

// No entry twice

/// No two entries have the same name.
pub open spec fn distinct_names(entries: Seq<EntryView>) -> bool {
    forall|i: int, j: int|
        0 <= i < j < entries.len() ==> (#[trigger] entries[i]).name != (#[trigger] entries[j]).name
}

/// A name that a file has in a directory tells the directory.
proof fn lemma_prefixed_tells_prefix(p: Seq<char>, n: Seq<char>, q: Seq<char>, m: Seq<char>)
    requires
        is_file_name(n),
        is_file_name(m),
        sync::prefixed(p, n) == sync::prefixed(q, m),
    ensures
        p == q,
{
    reveal_strlit("/");
    let whole = sync::prefixed(p, n);
    lemma_prefixed_slashes(p, n);
    lemma_prefixed_slashes(q, m);
    if p.len() > 0 && q.len() > 0 {
        assert(whole[p.len() as int] == '/');
        assert(whole[q.len() as int] == '/');
        if p.len() < q.len() {
            assert(whole[q.len() as int] == n[q.len() - p.len() - 1]);
        } else if q.len() < p.len() {
            assert(whole[p.len() as int] == m[p.len() - q.len() - 1]);
        } else {
            assert(p =~= whole.take(p.len() as int));
            assert(q =~= whole.take(p.len() as int));
        }
    } else {
        assert(p =~= q);
    }
}

/// Where an entry of a walk was listed.
proof fn lemma_entry_origin(answers: Seq<Seq<EntryView>>, n: int) -> (r: (int, int))
    requires
        0 <= n < answers.flatten().len(),
    ensures
        0 <= r.0 < answers.len(),
        0 <= r.1 < answers[r.0].len(),
        answers[r.0][r.1] == answers.flatten()[n],
    decreases answers.len(),
{
    if answers.len() == 0 {
        assert(answers.flatten() =~= seq![]);
        (0, 0)
    } else {
        let front = answers.drop_last();
        assert(answers =~= front.push(answers.last()));
        front.lemma_flatten_push(answers.last());
        if n < front.flatten().len() {
            let r = lemma_entry_origin(front, n);
            assert(front[r.0] == answers[r.0]);
            r
        } else {
            (answers.len() - 1, n - front.flatten().len())
        }
    }
}

/// An entry is one of the directory that it was listed in.
proof fn lemma_own_file(src: Seq<u8>, answers: Seq<Seq<EntryView>>, k: int, i: int)
    requires
        own_files(WalkView::fresh(src), answers),
        0 <= k < answers.len(),
        0 <= i < answers[k].len(),
    ensures
        WalkView::fresh(src).visited(answers).len() == answers.len(),
        is_file_of(WalkView::fresh(src).visited(answers)[k], answers[k][i]),
    decreases answers.len(),
{
    let start = WalkView::fresh(src);
    let front = answers.drop_last();
    lemma_visited_len(src, front);
    if k == answers.len() - 1 {
        assert(answers.last()[i] == answers[k][i]);
    } else {
        assert(front[k] == answers[k]);
        lemma_own_file(src, front, k, i);
        assert(start.visited(answers)[k] == start.visited(front)[k]);
    }
}

/// Where the entries so far have different names, the directory that is listed
/// next is none of those that were listed.
proof fn lemma_next_is_new(src: Seq<u8>, answers: Seq<Seq<EntryView>>, k: int)
    requires
        WalkView::fresh(src).can_walk(answers),
        own_files(WalkView::fresh(src), answers),
        WalkView::fresh(src).walked(answers).queue.len() > 0,
        distinct_names(WalkView::fresh(src).walked(answers).listings),
        0 <= k < answers.len(),
    ensures
        WalkView::fresh(src).visited(answers).len() == answers.len(),
        WalkView::fresh(src).visited(answers)[k].prefix != WalkView::fresh(src).walked(
            answers,
        ).queue.last().prefix,
{
    broadcast use vstd::seq_lib::group_to_multiset_ensures;

    let walk = WalkView::fresh(src).walked(answers);
    let visited = WalkView::fresh(src).visited(answers);
    let start = start_of(src);
    let items = items_of(src, walk.listings);
    lemma_own_files_at_depth(WalkView::fresh(src), answers);
    lemma_visited(src, answers);
    law_depth_counts_slashes(src, answers);
    let seen = visited[k];
    let next = walk.queue.last();
    assert(visited.contains(seen));
    assert(walk.queue.contains(next)) by {
        assert(walk.queue[walk.queue.len() - 1] == next);
    }
    let all = items.to_multiset().insert(start);
    assert(visited.to_multiset().add(walk.queue.to_multiset()) == all);
    assert(visited.to_multiset().count(seen) > 0);
    assert(walk.queue.to_multiset().count(next) > 0);
    assert(all.count(seen) > 0 && all.count(next) > 0);
    if seen.prefix == next.prefix {
        assert(distinct_directories(walk.listings));
        lemma_items_distinct(src, walk.listings);
        items.lemma_multiset_has_no_duplicates();
        if items.contains(start) {
            let j = lemma_item_comes_from(src, walk.listings, start);
            assert(false);
        }
        assert(items.to_multiset().count(start) == 0);
        if seen != start {
            assert(items.to_multiset().count(seen) > 0);
            let i = lemma_item_comes_from(src, walk.listings, seen);
            assert(is_deep_entry(walk.listings[i]));
            if next != start {
                assert(items.to_multiset().count(next) > 0);
                let j = lemma_item_comes_from(src, walk.listings, next);
                assert(walk.listings[i].name == walk.listings[j].name);
                assert(i == j);
            }
        } else if next != start {
            assert(items.to_multiset().count(next) > 0);
            let j = lemma_item_comes_from(src, walk.listings, next);
            assert(is_deep_entry(walk.listings[j]));
        }
        assert(seen == next);
        assert(all.count(seen) >= 2);
        assert(items.to_multiset().contains(seen) ==> items.to_multiset().count(seen) == 1);
        assert(false);
    }
}

/// In a tree of files whose names do not repeat within a directory, a walk holds
/// no entry twice: all the names that it lists are different. So no directory
/// is listed twice either.
pub proof fn law_walk_holds_no_entry_twice(src: Seq<u8>, answers: Seq<Seq<EntryView>>)
    requires
        WalkView::fresh(src).can_walk(answers),
        own_files(WalkView::fresh(src), answers),
        forall|k: int| 0 <= k < answers.len() ==> distinct_names(#[trigger] answers[k]),
    ensures
        distinct_names(WalkView::fresh(src).walked(answers).listings),
        WalkView::fresh(src).walked(answers).queue.len() == 0 ==> WalkView::fresh(src).visited(
            answers,
        ).no_duplicates(),
    decreases answers.len(),
{
    let start = WalkView::fresh(src);
    let walk = start.walked(answers);
    if answers.len() > 0 {
        let front = answers.drop_last();
        assert forall|k: int| 0 <= k < front.len() implies distinct_names(#[trigger] front[k]) by {
            assert(front[k] == answers[k]);
        }
        law_walk_holds_no_entry_twice(src, front);
        let before = start.walked(front);
        let item = before.queue.last();
        let entries = answers[answers.len() - 1];
        lemma_listings_flatten(src, front);
        assert(walk.listings == before.listings + entries);
        assert(distinct_names(entries));
        assert forall|i: int, j: int| 0 <= i < j < walk.listings.len() implies (
        #[trigger] walk.listings[i]).name != (#[trigger] walk.listings[j]).name by {
            let n = before.listings.len() as int;
            if j < n {
                assert(walk.listings[i] == before.listings[i]);
                assert(walk.listings[j] == before.listings[j]);
            } else if i >= n {
                assert(walk.listings[i] == entries[i - n]);
                assert(walk.listings[j] == entries[j - n]);
            } else {
                let old = before.listings[i];
                let new = entries[j - n];
                assert(walk.listings[i] == old && walk.listings[j] == new);
                let (k, m) = lemma_entry_origin(front, i);
                lemma_own_file(src, front, k, m);
                lemma_next_is_new(src, front, k);
                assert(is_file_of(item, answers.last()[j - n]));
                let seen = start.visited(front)[k];
                let a = choose|name: Seq<char>|
                    old.name == #[trigger] sync::prefixed(seen.prefix, name) && is_file_name(name);
                let b = choose|name: Seq<char>|
                    new.name == #[trigger] sync::prefixed(item.prefix, name) && is_file_name(name);
                if old.name == new.name {
                    lemma_prefixed_tells_prefix(seen.prefix, a, item.prefix, b);
                }
            }
        }
    }
    if walk.queue.len() == 0 {
        lemma_own_files_at_depth(start, answers);
        law_walk_lists_every_directory_once(src, answers);
        assert(distinct_directories(walk.listings));
    }
}

// Sending and receiving a tree

/// Names as the components of a path on this machine.
pub open spec fn normals(names: Seq<Seq<char>>) -> Seq<TailView> {
    names.map_values(|name: Seq<char>| TailView::Normal(name))
}

proof fn lemma_high_bytes(x: u8)
    ensures
        0x80u8 | x != path::SLASH,
        0xC0u8 | x != path::SLASH,
        0xE0u8 | x != path::SLASH,
        0xF0u8 | x != path::SLASH,
{
    assert(0x80u8 | x != 0x2f) by (bit_vector);
    assert(0xC0u8 | x != 0x2f) by (bit_vector);
    assert(0xE0u8 | x != 0x2f) by (bit_vector);
    assert(0xF0u8 | x != 0x2f) by (bit_vector);
}

proof fn lemma_scalar_bytes(c: char)
    requires
        c != '/',
    ensures
        vstd::utf8::encode_scalar(c as u32).len() > 0,
        forall|i: int|
            0 <= i < vstd::utf8::encode_scalar(c as u32).len()
                ==> #[trigger] vstd::utf8::encode_scalar(c as u32)[i] != path::SLASH,
{
    let v = c as u32;
    if v <= 0x7f {
        assert((v & 0x7F) as u8 != 0x2f) by (bit_vector)
            requires
                v <= 0x7f,
                v != 0x2f,
        ;
    } else {
        lemma_high_bytes((v & 0x3F) as u8);
        lemma_high_bytes(((v >> 6) & 0x3F) as u8);
        lemma_high_bytes(((v >> 12) & 0x3F) as u8);
        lemma_high_bytes(((v >> 6) & 0x1F) as u8);
        lemma_high_bytes(((v >> 12) & 0x0F) as u8);
        lemma_high_bytes(((v >> 18) & 0x7) as u8);
    }
}

/// The bytes of a name hold no slash.
pub proof fn lemma_name_bytes(name: Seq<char>)
    requires
        forall|i: int| 0 <= i < name.len() ==> #[trigger] name[i] != '/',
    ensures
        name.len() > 0 ==> vstd::utf8::encode_utf8(name).len() > 0,
        forall|i: int|
            0 <= i < vstd::utf8::encode_utf8(name).len() ==> #[trigger] vstd::utf8::encode_utf8(
                name,
            )[i] != path::SLASH,
    decreases name.len(),
{
    if name.len() > 0 {
        let rest = name.drop_first();
        assert forall|i: int| 0 <= i < rest.len() implies #[trigger] rest[i] != '/' by {
            assert(rest[i] == name[i + 1]);
        }
        lemma_name_bytes(rest);
        lemma_scalar_bytes(name[0]);
        let head = vstd::utf8::encode_scalar(name[0] as u32);
        let tail = vstd::utf8::encode_utf8(rest);
        let bytes = vstd::utf8::encode_utf8(name);
        assert(bytes == head + tail);
        assert forall|i: int| 0 <= i < bytes.len() implies #[trigger] bytes[i] != path::SLASH by {
            if i < head.len() {
                assert(bytes[i] == head[i]);
            } else {
                assert(bytes[i] == tail[i - head.len()]);
            }
        }
    }
}

proof fn lemma_slash_bytes()
    ensures
        vstd::utf8::encode_utf8("/"@) == seq![path::SLASH],
{
    reveal_strlit("/");
    assert("/"@.drop_first() =~= Seq::<char>::empty());
    assert(vstd::utf8::encode_utf8(Seq::<char>::empty()) =~= Seq::<u8>::empty());
    assert((0x2fu32 & 0x7F) as u8 == 0x2f) by (bit_vector);
    assert(vstd::utf8::encode_utf8("/"@) =~= seq![path::SLASH]);
}

/// Names that are joined begin and end with a byte that is no slash.
proof fn lemma_joined_bytes(names: Seq<Seq<char>>)
    requires
        names.len() > 0,
        are_file_names(names),
    ensures
        ({
            let bytes = vstd::utf8::encode_utf8(slash_joined(names));
            bytes.len() > 0 && bytes[0] != path::SLASH && bytes.last() != path::SLASH
        }),
        slash_joined(names).len() > 0,
    decreases names.len(),
{
    let last = names[names.len() - 1];
    assert(is_file_name(last));
    lemma_name_bytes(last);
    let end = vstd::utf8::encode_utf8(last);
    if names.len() > 1 {
        let front = names.drop_last();
        assert forall|i: int| 0 <= i < front.len() implies is_file_name(#[trigger] front[i]) by {
            assert(front[i] == names[i]);
        }
        lemma_joined_bytes(front);
        let begin = slash_joined(front);
        wire::lemma_encode_concat(begin, "/"@);
        wire::lemma_encode_concat(begin + "/"@, last);
        let bytes = vstd::utf8::encode_utf8(slash_joined(names));
        assert(bytes[0] == vstd::utf8::encode_utf8(begin)[0]);
        assert(bytes.last() == end.last());
    }
    assert(end.last() == end[end.len() - 1]);
}

/// A file of a tree is sent to the path of its names with slashes between them,
/// below the directory that the tree is sent to.
pub proof fn law_appended_is_joined(base: Seq<u8>, names: Seq<Seq<char>>)
    requires
        names.len() > 0,
        are_file_names(names),
    ensures
        walk::appended(base, normals(names)) == Ok::<Seq<u8>, AppendError>(
            path::pushed(base, vstd::utf8::encode_utf8(slash_joined(names))),
        ),
    decreases names.len(),
{
    let front = names.drop_last();
    let last = names[names.len() - 1];
    let tail = normals(names);
    assert(tail.drop_last() =~= normals(front));
    assert(tail.last() == TailView::Normal(last));
    assert(is_file_name(last));
    if names.len() == 1 {
        assert(normals(front) =~= seq![]);
        assert(walk::appended(base, normals(front)) == Ok::<Seq<u8>, AppendError>(base));
    } else {
        assert forall|i: int| 0 <= i < front.len() implies is_file_name(#[trigger] front[i]) by {
            assert(front[i] == names[i]);
        }
        law_appended_is_joined(base, front);
        lemma_joined_bytes(front);
        lemma_joined_bytes(names);
        lemma_name_bytes(last);
        lemma_slash_bytes();
        let begin = slash_joined(front);
        wire::lemma_encode_concat(begin, "/"@);
        wire::lemma_encode_concat(begin + "/"@, last);
        let first = vstd::utf8::encode_utf8(begin);
        let end = vstd::utf8::encode_utf8(last);
        let whole = vstd::utf8::encode_utf8(slash_joined(names));
        assert(whole == first + seq![path::SLASH] + end);
        let middle = path::pushed(base, first);
        assert(middle.last() == first.last());
        assert(!path::is_absolute(end));
        assert(path::pushed(middle, end) =~= path::pushed(base, whole));
    }
}

/// Where a file of a tree, or a directory in it, is on the device.
pub open spec fn place(base: Seq<u8>, names: Seq<Seq<char>>) -> Seq<u8> {
    if names.len() == 0 {
        base
    } else {
        path::pushed(base, vstd::utf8::encode_utf8(slash_joined(names)))
    }
}

proof fn lemma_steps_concat(src: Seq<u8>, a: Seq<EntryView>, b: Seq<EntryView>)
    ensures
        walk::pull_steps(src, a + b) == walk::pull_steps(src, a) + walk::pull_steps(src, b),
    decreases b.len(),
{
    if b.len() == 0 {
        assert(a + b =~= a);
        assert(walk::pull_steps(src, a) + walk::pull_steps(src, b) =~= walk::pull_steps(src, a));
    } else {
        assert((a + b).drop_last() =~= a + b.drop_last());
        lemma_steps_concat(src, a, b.drop_last());
        assert(walk::pull_steps(src, a + b) =~= walk::pull_steps(src, a) + walk::pull_steps(
            src,
            b,
        ));
    }
}

/// What is done for one entry.
pub open spec fn step_of(src: Seq<u8>, entry: EntryView) -> Seq<PullDirStepView> {
    walk::pull_steps(src, seq![entry])
}

proof fn lemma_step_contained(src: Seq<u8>, entries: Seq<EntryView>, j: int)
    requires
        0 <= j < entries.len(),
        step_of(src, entries[j]).len() > 0,
    ensures
        walk::pull_steps(src, entries).contains(step_of(src, entries[j])[0]),
{
    let front = entries.take(j);
    let back = entries.skip(j + 1);
    assert(entries =~= front + (seq![entries[j]] + back));
    lemma_steps_concat(src, seq![entries[j]], back);
    lemma_steps_concat(src, front, seq![entries[j]] + back);
    let steps = walk::pull_steps(src, entries);
    let n = walk::pull_steps(src, front).len() as int;
    assert(steps[n] == step_of(src, entries[j])[0]);
}

proof fn lemma_one_step(src: Seq<u8>, entry: EntryView)
    ensures
        entry.metadata is RemoteSymlink ==> step_of(src, entry) == Seq::<PullDirStepView>::empty(),
        entry.metadata is RemoteDir ==> step_of(src, entry) == seq![
            PullDirStepView::CreateDir(entry.name),
        ],
        entry.metadata is RemoteFile ==> step_of(src, entry) == seq![
            PullDirStepView::PullFile(
                path::pushed(src, vstd::utf8::encode_utf8(entry.name)),
                entry.name,
            ),
        ],
{
    let one = seq![entry];
    assert(one.drop_last() =~= Seq::<EntryView>::empty());
    assert(walk::pull_steps(src, Seq::<EntryView>::empty()) =~= seq![]);
    assert(one.last() == entry);
    if entry.metadata is RemoteDir {
        assert(step_of(src, entry) =~= seq![PullDirStepView::CreateDir(entry.name)]);
    } else if entry.metadata is RemoteFile {
        assert(step_of(src, entry) =~= seq![
            PullDirStepView::PullFile(
                path::pushed(src, vstd::utf8::encode_utf8(entry.name)),
                entry.name,
            ),
        ]);
    }
}

/// Symbolic links make no difference to what is received.
pub proof fn law_links_are_left_out(
    src: Seq<u8>,
    front: Seq<EntryView>,
    link: EntryView,
    back: Seq<EntryView>,
)
    requires
        link.metadata is RemoteSymlink,
    ensures
        walk::pull_steps(src, front + seq![link] + back) == walk::pull_steps(src, front + back),
{
    lemma_one_step(src, link);
    lemma_steps_concat(src, front, seq![link]);
    lemma_steps_concat(src, front + seq![link], back);
    lemma_steps_concat(src, front, back);
    assert(walk::pull_steps(src, front) + Seq::<PullDirStepView>::empty() =~= walk::pull_steps(
        src,
        front,
    ));
}

/// Each entry that is a directory becomes a directory of its name, and each
/// that is a file is received from its place under its name.
pub proof fn law_every_entry_is_received(src: Seq<u8>, entries: Seq<EntryView>, j: int)
    requires
        0 <= j < entries.len(),
    ensures
        entries[j].metadata is RemoteDir ==> walk::pull_steps(src, entries).contains(
            PullDirStepView::CreateDir(entries[j].name),
        ),
        entries[j].metadata is RemoteFile ==> walk::pull_steps(src, entries).contains(
            PullDirStepView::PullFile(
                path::pushed(src, vstd::utf8::encode_utf8(entries[j].name)),
                entries[j].name,
            ),
        ),
{
    lemma_one_step(src, entries[j]);
    if !(entries[j].metadata is RemoteSymlink) {
        lemma_step_contained(src, entries, j);
    }
}

/// Before anything in a directory is received, the directory was made: the
/// steps for what was listed before a directory make it, and the steps for the
/// rest follow them.
pub proof fn law_directories_are_made_first(src: Seq<u8>, answers: Seq<Seq<EntryView>>, k: int)
    requires
        WalkView::fresh(src).can_walk(answers),
        0 <= k < answers.len(),
    ensures
        ({
            let before = answers.take(k).flatten();
            let rest = answers.skip(k).flatten();
            let item = WalkView::fresh(src).visited(answers)[k];
            &&& walk::pull_steps(src, answers.flatten()) == walk::pull_steps(src, before)
                + walk::pull_steps(src, rest)
            &&& item == start_of(src) || walk::pull_steps(src, before).contains(
                PullDirStepView::CreateDir(item.prefix),
            )
        }),
{
    let start = WalkView::fresh(src);
    let front = answers.take(k);
    assert(answers =~= front + answers.skip(k));
    vstd::seq_lib::lemma_flatten_concat(front, answers.skip(k));
    lemma_steps_concat(src, front.flatten(), answers.skip(k).flatten());
    lemma_walk_prefix(src, answers, k);
    let walk = start.walked(front);
    walk::law_directories_come_before_their_entries(src, front);
    lemma_listings_flatten(src, front);
    let item = walk.queue.last();
    assert(walk.may_wait(walk.queue[walk.queue.len() - 1]));
    if item != start_of(src) {
        let i = choose|i: int|
            0 <= i < walk.listings.len() && (#[trigger] walk.listings[i]).metadata is RemoteDir
                && walk.listings[i].name == item.prefix;
        law_every_entry_is_received(src, walk.listings, i);
    }
}

proof fn lemma_listings_flatten(src: Seq<u8>, answers: Seq<Seq<EntryView>>)
    ensures
        WalkView::fresh(src).walked(answers).listings == answers.flatten(),
    decreases answers.len(),
{
    if answers.len() == 0 {
        assert(answers.flatten() =~= seq![]);
    } else {
        let front = answers.drop_last();
        lemma_listings_flatten(src, front);
        assert(answers =~= front.push(answers.last()));
        front.lemma_flatten_push(answers.last());
    }
}

/// The part of a walk before its directory of number `k`.
proof fn lemma_walk_prefix(src: Seq<u8>, answers: Seq<Seq<EntryView>>, k: int)
    requires
        WalkView::fresh(src).can_walk(answers),
        0 <= k < answers.len(),
    ensures
        ({
            let walk = WalkView::fresh(src).walked(answers.take(k));
            &&& WalkView::fresh(src).can_walk(answers.take(k))
            &&& walk.queue.len() > 0
            &&& WalkView::fresh(src).visited(answers).len() == answers.len()
            &&& WalkView::fresh(src).visited(answers)[k] == walk.queue.last()
        }),
    decreases answers.len(),
{
    let start = WalkView::fresh(src);
    let front = answers.drop_last();
    lemma_visited_len(src, front);
    if k == answers.len() - 1 {
        assert(answers.take(k) =~= front);
    } else {
        lemma_walk_prefix(src, front, k);
        assert(front.take(k) =~= answers.take(k));
    }
}

proof fn lemma_visited_len(src: Seq<u8>, answers: Seq<Seq<EntryView>>)
    ensures
        WalkView::fresh(src).visited(answers).len() == answers.len(),
    decreases answers.len(),
{
    if answers.len() > 0 {
        lemma_visited_len(src, answers.drop_last());
    }
}

/// A directory shows a file of a tree: where the directory is one that the file
/// is in, there is an entry for the next directory on the way, or at last for
/// the file.
pub open spec fn shows(
    base: Seq<u8>,
    item: WalkItemView,
    entries: Seq<EntryView>,
    names: Seq<Seq<char>>,
) -> bool {
    forall|i: int|
        0 <= i < names.len() && item.path == #[trigger] place(base, names.take(i)) ==> has_entry(
            entries,
            sync::prefixed(item.prefix, names[i]),
            i + 1 == names.len(),
        )
}

/// There is an entry of this name, for a file or for a directory.
pub open spec fn has_entry(entries: Seq<EntryView>, name: Seq<char>, is_file: bool) -> bool {
    exists|j: int|
        0 <= j < entries.len() && (#[trigger] entries[j]).name == name && if is_file {
            entries[j].metadata is RemoteFile
        } else {
            entries[j].metadata is RemoteDir
        }
}

proof fn lemma_flatten_contains(answers: Seq<Seq<EntryView>>, k: int, j: int) -> (n: int)
    requires
        0 <= k < answers.len(),
        0 <= j < answers[k].len(),
    ensures
        0 <= n < answers.flatten().len(),
        answers.flatten()[n] == answers[k][j],
    decreases answers.len(),
{
    let front = answers.drop_last();
    assert(answers =~= front.push(answers.last()));
    front.lemma_flatten_push(answers.last());
    if k == answers.len() - 1 {
        let n = front.flatten().len() + j;
        n
    } else {
        assert(front[k] == answers[k]);
        lemma_flatten_contains(front, k, j)
    }
}

proof fn lemma_joined_step(names: Seq<Seq<char>>, i: int)
    requires
        0 <= i < names.len(),
        are_file_names(names),
    ensures
        sync::prefixed(slash_joined(names.take(i)), names[i]) == slash_joined(names.take(i + 1)),
        are_file_names(names.take(i)),
{
    let front = names.take(i);
    let more = names.take(i + 1);
    assert forall|j: int| 0 <= j < front.len() implies is_file_name(#[trigger] front[j]) by {
        assert(front[j] == names[j]);
    }
    assert(more.drop_last() =~= front);
    assert(more.last() == names[i]);
    if i > 0 {
        lemma_joined_bytes(front);
    } else {
        assert(more[0] == names[0]);
    }
}

/// A walk comes to every directory that a file of the tree is in.
proof fn lemma_walk_reaches(
    base: Seq<u8>,
    answers: Seq<Seq<EntryView>>,
    names: Seq<Seq<char>>,
    i: int,
) -> (k: int)
    requires
        WalkView::fresh(base).can_walk(answers),
        at_depth(WalkView::fresh(base), answers),
        WalkView::fresh(base).walked(answers).queue.len() == 0,
        are_file_names(names),
        0 <= i < names.len(),
        forall|k: int|
            0 <= k < answers.len() ==> shows(
                base,
                WalkView::fresh(base).visited(answers)[k],
                #[trigger] answers[k],
                names,
            ),
    ensures
        0 <= k < answers.len(),
        WalkView::fresh(base).visited(answers)[k].path == place(base, names.take(i)),
        WalkView::fresh(base).visited(answers)[k].prefix == slash_joined(names.take(i)),
    decreases i,
{
    let visited = WalkView::fresh(base).visited(answers);
    law_walk_lists_every_directory_once(base, answers);
    if i == 0 {
        assert(names.take(0) =~= Seq::<Seq<char>>::empty());
        0
    } else {
        let k = lemma_walk_reaches(base, answers, names, i - 1);
        let entries = answers[k];
        assert(shows(base, visited[k], entries, names));
        assert(visited[k].path == place(base, names.take(i - 1)));
        lemma_joined_step(names, i - 1);
        let name = slash_joined(names.take(i));
        assert(has_entry(entries, name, false));
        let j = choose|j: int|
            0 <= j < entries.len() && (#[trigger] entries[j]).name == name
                && entries[j].metadata is RemoteDir;
        let n = lemma_flatten_contains(answers, k, j);
        let listings = answers.flatten();
        assert(listings[n].metadata is RemoteDir);
        assert(was_visited(visited, item_of(base, listings[n])));
        let m = choose|m: int|
            0 < m < visited.len() && #[trigger] visited[m] == item_of(base, listings[n]);
        m
    }
}

/// A file of a tree that was sent to a directory is received from there. It was
/// sent to `place`; a walk of the directory, on a device that shows what was
/// sent to it, comes upon it; it is received from the path that it was sent to,
/// under its own name; and where the device gives back the bytes that it was
/// sent, the content is that of the file.
pub proof fn law_tree_is_received_from_where_it_was_sent(
    device: Device,
    base: Seq<u8>,
    names: Seq<Seq<char>>,
    pieces: Seq<Seq<u8>>,
    mode: u32,
    seconds: u64,
    answers: Seq<Seq<EntryView>>,
)
    requires
        names.len() > 0,
        are_file_names(names),
        forall|i: int|
            0 <= i < pieces.len() ==> 0 < (#[trigger] pieces[i]).len() <= crate::push::MAX_SENT,
        WalkView::fresh(base).can_walk(answers),
        at_depth(WalkView::fresh(base), answers),
        WalkView::fresh(base).walked(answers).queue.len() == 0,
        forall|k: int|
            0 <= k < answers.len() ==> shows(
                base,
                WalkView::fresh(base).visited(answers)[k],
                #[trigger] answers[k],
                names,
            ),
    ensures
        walk::appended(base, normals(names)) == Ok::<Seq<u8>, AppendError>(place(base, names)),
        walk::pull_steps(base, WalkView::fresh(base).walked(answers).listings).contains(
            PullDirStepView::PullFile(place(base, names), slash_joined(names)),
        ),
        (pull::Pull { state: pull::PullState::Id }).received(
            crate::push::sent_bytes(
                PushView::fresh(device, place(base, names), mode).at(PushState::Reading).actions(
                    crate::push::transfer_events(pieces, seconds),
                ),
            ),
        ) == Some((pull::joined(pieces), Ok::<(), ErrorView>(()))),
{
    law_appended_is_joined(base, names);
    crate::push::law_push_pull_round_trip(
        PushView::fresh(device, place(base, names), mode).at(PushState::Reading),
        pieces,
        seconds,
    );
    let visited = WalkView::fresh(base).visited(answers);
    let last = names.len() - 1;
    let k = lemma_walk_reaches(base, answers, names, last);
    let entries = answers[k];
    assert(shows(base, visited[k], entries, names));
    assert(visited[k].path == place(base, names.take(last)));
    lemma_joined_step(names, last);
    assert(names.take(names.len() as int) =~= names);
    let name = slash_joined(names);
    assert(has_entry(entries, name, true));
    let j = choose|j: int|
        0 <= j < entries.len() && (#[trigger] entries[j]).name == name
            && entries[j].metadata is RemoteFile;
    let n = lemma_flatten_contains(answers, k, j);
    lemma_listings_flatten(base, answers);
    law_every_entry_is_received(base, answers.flatten(), n);
}

} // verus!
