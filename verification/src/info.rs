//! An ordered map from text to text: the properties of a device.

use vstd::prelude::*;

use crate::text;

verus! {

/// `a` comes before `b` in the order of their characters.
pub open spec fn text_less(a: Seq<char>, b: Seq<char>) -> bool
    decreases a.len(),
{
    if b.len() == 0 {
        false
    } else if a.len() == 0 {
        true
    } else if a[0] != b[0] {
        (a[0] as u32) < (b[0] as u32)
    } else {
        text_less(a.drop_first(), b.drop_first())
    }
}

proof fn lemma_less_irreflexive(a: Seq<char>)
    ensures
        !text_less(a, a),
    decreases a.len(),
{
    if a.len() > 0 {
        lemma_less_irreflexive(a.drop_first());
    }
}

proof fn lemma_less_transitive(a: Seq<char>, b: Seq<char>, c: Seq<char>)
    requires
        text_less(a, b),
        text_less(b, c),
    ensures
        text_less(a, c),
    decreases a.len(),
{
    if a.len() > 0 && b.len() > 0 && c.len() > 0 && a[0] == b[0] && b[0] == c[0] {
        lemma_less_transitive(a.drop_first(), b.drop_first(), c.drop_first());
    }
}

proof fn lemma_chars_differ(c: char, d: char)
    requires
        c != d,
    ensures
        (c as u32) != (d as u32),
{
}

proof fn lemma_less_total(a: Seq<char>, b: Seq<char>)
    ensures
        text_less(a, b) || text_less(b, a) || a == b,
    decreases a.len(),
{
    if a.len() > 0 && b.len() > 0 {
        if a[0] == b[0] {
            lemma_less_total(a.drop_first(), b.drop_first());
            if a.drop_first() == b.drop_first() {
                assert(a =~= seq![a[0]] + a.drop_first());
                assert(b =~= seq![b[0]] + b.drop_first());
            }
        } else {
            lemma_chars_differ(a[0], b[0]);
        }
    } else if a.len() == 0 && b.len() == 0 {
        assert(a =~= b);
    }
}

/// Whether `a` comes before `b` in the order of their characters.
pub fn is_less(a: &str, b: &str) -> (r: bool)
    ensures
        r == text_less(a@, b@),
{
    let x: Vec<char> = text::chars_of(a);
    let y: Vec<char> = text::chars_of(b);
    let mut i: usize = 0;
    assert(a@.skip(0) == a@);
    assert(b@.skip(0) == b@);
    while i < x.len() && i < y.len() && x[i] == y[i]
        invariant
            x@ == a@,
            y@ == b@,
            i <= x.len(),
            i <= y.len(),
            text_less(a@, b@) == text_less(a@.skip(i as int), b@.skip(i as int)),
        decreases x.len() - i,
    {
        assert(a@.skip(i as int).drop_first() == a@.skip(i + 1));
        assert(b@.skip(i as int).drop_first() == b@.skip(i + 1));
        i = i + 1;
    }
    if i >= y.len() {
        false
    } else if i >= x.len() {
        true
    } else {
        (x[i] as u32) < (y[i] as u32)
    }
}

/// Keys and values of a list of entries.
pub open spec fn entries_view(entries: Seq<(String, String)>) -> Seq<(Seq<char>, Seq<char>)> {
    entries.map_values(|e: (String, String)| (e.0@, e.1@))
}

/// The keys ascend, so that none occurs twice.
pub open spec fn ascending(entries: Seq<(Seq<char>, Seq<char>)>) -> bool {
    forall|i: int, j: int|
        0 <= i < j < entries.len() ==> text_less(#[trigger] entries[i].0, #[trigger] entries[j].0)
}

/// The map that the entries describe.
pub open spec fn map_of(entries: Seq<(Seq<char>, Seq<char>)>) -> Map<Seq<char>, Seq<char>>
    decreases entries.len(),
{
    if entries.len() == 0 {
        Map::empty()
    } else {
        map_of(entries.drop_last()).insert(entries.last().0, entries.last().1)
    }
}

proof fn lemma_map_of(entries: Seq<(Seq<char>, Seq<char>)>)
    requires
        ascending(entries),
    ensures
        forall|i: int|
            0 <= i < entries.len() ==> map_of(entries).contains_key(#[trigger] entries[i].0)
                && map_of(entries)[entries[i].0] == entries[i].1,
        forall|k: Seq<char>| #[trigger]
            map_of(entries).contains_key(k) ==> exists|i: int|
                0 <= i < entries.len() && #[trigger] entries[i].0 == k,
    decreases entries.len(),
{
    if entries.len() > 0 {
        let front = entries.drop_last();
        let n = entries.len() - 1;
        assert forall|i: int, j: int| 0 <= i < j < front.len() implies text_less(
            #[trigger] front[i].0,
            #[trigger] front[j].0,
        ) by {
            assert(text_less(entries[i].0, entries[j].0));
        }
        lemma_map_of(front);
        assert forall|i: int| 0 <= i < entries.len() implies map_of(entries).contains_key(
            #[trigger] entries[i].0,
        ) && map_of(entries)[entries[i].0] == entries[i].1 by {
            if i < n {
                assert(text_less(entries[i].0, entries[n].0));
                lemma_less_irreflexive(entries[n].0);
                assert(front[i].0 == entries[i].0);
            }
        }
        assert forall|k: Seq<char>| #[trigger] map_of(entries).contains_key(k) implies exists|i: int|
            0 <= i < entries.len() && #[trigger] entries[i].0 == k by {
            if k == entries[n].0 {
            } else {
                assert(map_of(front).contains_key(k));
                let i = choose|i: int| 0 <= i < front.len() && #[trigger] front[i].0 == k;
                assert(entries[i].0 == k);
            }
        }
    }
}

/// A map from text to text, in the order of its keys.
#[derive(Debug, PartialEq, Eq, PartialOrd, Ord)]
pub struct InfoMap {
    entries: Vec<(String, String)>,
}

impl View for InfoMap {
    type V = Map<Seq<char>, Seq<char>>;

    closed spec fn view(&self) -> Map<Seq<char>, Seq<char>> {
        map_of(entries_view(self.entries@))
    }
}

impl Clone for InfoMap {
    fn clone(&self) -> (r: InfoMap)
        ensures
            r@ == self@,
    {
        proof {
            use_type_invariant(self);
        }
        let mut entries: Vec<(String, String)> = Vec::new();
        let ghost all = entries_view(self.entries@);
        for i in 0..self.entries.len()
            invariant
                all == entries_view(self.entries@),
                entries_view(entries@) == all.take(i as int),
        {
            let key: String = self.entries[i].0.clone();
            let value: String = self.entries[i].1.clone();
            let ghost done = entries_view(entries@);
            let ghost last = (key@, value@);
            assert(all[i as int] == last);
            entries.push((key, value));
            assert(entries_view(entries@) =~= done.push(last));
            assert(all.take(i + 1) =~= all.take(i as int).push(all[i as int]));
        }
        assert(all.take(all.len() as int) =~= all);
        InfoMap { entries }
    }
}

impl InfoMap {
    #[verifier::type_invariant]
    spec fn well_formed(self) -> bool {
        ascending(entries_view(self.entries@))
    }

    /// An empty map.
    pub fn new() -> (r: InfoMap)
        ensures
            r@ == Map::<Seq<char>, Seq<char>>::empty(),
    {
        InfoMap { entries: Vec::new() }
    }

    /// The entries, in the order of their keys.
    pub fn entries(&self) -> (r: &Vec<(String, String)>)
        ensures
            ascending(entries_view(r@)),
            map_of(entries_view(r@)) == self@,
    {
        proof {
            use_type_invariant(self);
        }
        &self.entries
    }

    /// The value at a key.
    pub fn get(&self, key: &str) -> (r: Option<&String>)
        ensures
            match r {
                Some(v) => self@.contains_key(key@) && self@[key@] == v@,
                None => !self@.contains_key(key@),
            },
    {
        proof {
            use_type_invariant(self);
            lemma_map_of(entries_view(self.entries@));
        }
        let ghost all = entries_view(self.entries@);
        for i in 0..self.entries.len()
            invariant
                all == entries_view(self.entries@),
                self@ == map_of(all),
                forall|i: int|
                    0 <= i < all.len() ==> map_of(all).contains_key(#[trigger] all[i].0)
                        && map_of(all)[all[i].0] == all[i].1,
                forall|j: int| 0 <= j < i ==> #[trigger] all[j].0 != key@,
        {
            assert(all[i as int].0 == self.entries@[i as int].0@);
            if text::str_eq(self.entries[i].0.as_str(), key) {
                return Some(&self.entries[i].1);
            }
        }
        None
    }

    /// The map with a value set at a key; an earlier value there is dropped.
    pub fn with(self, key: String, value: String) -> (r: InfoMap)
        ensures
            r@ == self@.insert(key@, value@),
    {
        proof {
            use_type_invariant(&self);
        }
        let ghost before = entries_view(self.entries@);
        let ghost k = key@;
        let ghost v = value@;
        let mut entries: Vec<(String, String)> = self.entries;
        let mut i: usize = 0;
        while i < entries.len() && is_less(entries[i].0.as_str(), key.as_str())
            invariant
                before == entries_view(entries@),
                i <= entries.len(),
                forall|j: int| 0 <= j < i ==> text_less(#[trigger] before[j].0, key@),
            decreases entries.len() - i,
        {
            assert(before[i as int].0 == entries@[i as int].0@);
            i = i + 1;
        }
        assert(i < entries.len() ==> before[i as int].0 == entries@[i as int].0@);
        let ghost at: int = i as int;
        if i < entries.len() && text::str_eq(entries[i].0.as_str(), key.as_str()) {
            entries[i] = (key, value);
            assert(entries_view(entries@) =~= before.update(at, (k, v)));
            proof {
                lemma_replace(before, at, v);
            }
        } else {
            entries.insert(i, (key, value));
            assert(entries_view(entries@) =~= before.insert(at, (k, v)));
            proof {
                lemma_insert(before, at, k, v);
            }
        }
        InfoMap { entries }
    }
}

proof fn lemma_replace(before: Seq<(Seq<char>, Seq<char>)>, at: int, v: Seq<char>)
    requires
        ascending(before),
        0 <= at < before.len(),
    ensures
        ascending(before.update(at, (before[at].0, v))),
        map_of(before.update(at, (before[at].0, v))) == map_of(before).insert(before[at].0, v),
{
    let after = before.update(at, (before[at].0, v));
    let k = before[at].0;
    assert forall|i: int| 0 <= i < after.len() implies (#[trigger] after[i]).0 == before[i].0 by {}
    assert forall|i: int, j: int| 0 <= i < j < after.len() implies text_less(
        #[trigger] after[i].0,
        #[trigger] after[j].0,
    ) by {
        assert(text_less(before[i].0, before[j].0));
    }
    lemma_map_of(before);
    lemma_map_of(after);
    let want = map_of(before).insert(k, v);
    assert(map_of(after) =~= want) by {
        assert forall|q: Seq<char>| map_of(after).contains_key(q) == want.contains_key(q) by {
            if map_of(after).contains_key(q) {
                let i = choose|i: int| 0 <= i < after.len() && #[trigger] after[i].0 == q;
                assert(before[i].0 == q);
            }
            if want.contains_key(q) {
                if q == k {
                    assert(after[at].0 == q);
                } else {
                    let i = choose|i: int| 0 <= i < before.len() && #[trigger] before[i].0 == q;
                    assert(after[i].0 == q);
                }
            }
        }
        assert forall|q: Seq<char>| map_of(after).contains_key(q) implies map_of(after)[q]
            == want[q] by {
            let i = choose|i: int| 0 <= i < after.len() && #[trigger] after[i].0 == q;
            assert(before[i].0 == q);
            if i != at {
                assert(q != k) by {
                    lemma_less_irreflexive(k);
                    if i < at {
                        assert(text_less(before[i].0, before[at].0));
                    } else {
                        assert(text_less(before[at].0, before[i].0));
                    }
                }
            }
        }
    }
}

proof fn lemma_insert(before: Seq<(Seq<char>, Seq<char>)>, at: int, k: Seq<char>, v: Seq<char>)
    requires
        ascending(before),
        0 <= at <= before.len(),
        forall|j: int| 0 <= j < at ==> text_less(#[trigger] before[j].0, k),
        at < before.len() ==> !text_less(before[at].0, k) && before[at].0 != k,
    ensures
        ascending(before.insert(at, (k, v))),
        map_of(before.insert(at, (k, v))) == map_of(before).insert(k, v),
{
    let after = before.insert(at, (k, v));
    assert forall|j: int| at <= j < before.len() implies text_less(k, #[trigger] before[j].0) by {
        lemma_less_total(before[at].0, k);
        if j > at {
            assert(text_less(before[at].0, before[j].0));
            lemma_less_transitive(k, before[at].0, before[j].0);
        }
    }
    assert forall|i: int, j: int| 0 <= i < j < after.len() implies text_less(
        #[trigger] after[i].0,
        #[trigger] after[j].0,
    ) by {
        let p = if i < at {
            i
        } else {
            i - 1
        };
        let q = if j < at {
            j
        } else {
            j - 1
        };
        if i != at {
            assert(after[i] == before[p]);
        }
        if j != at {
            assert(after[j] == before[q]);
        }
        if i != at && j != at {
            assert(text_less(before[p].0, before[q].0));
        }
    }
    lemma_map_of(before);
    lemma_map_of(after);
    let want = map_of(before).insert(k, v);
    assert forall|j: int| 0 <= j < before.len() implies #[trigger] before[j].0 != k by {
        lemma_less_irreflexive(k);
        if j >= at {
            assert(text_less(k, before[j].0));
        }
    }
    assert(after[at] == (k, v));
    assert(map_of(after) =~= want) by {
        assert forall|q: Seq<char>| map_of(after).contains_key(q) == want.contains_key(q) by {
            if map_of(after).contains_key(q) {
                let i = choose|i: int| 0 <= i < after.len() && #[trigger] after[i].0 == q;
                if i < at {
                    assert(before[i].0 == q);
                } else if i > at {
                    assert(before[i - 1].0 == q);
                }
            }
            if q == k {
                assert(map_of(after).contains_key(after[at].0));
            }
            if want.contains_key(q) && q != k {
                let i = choose|i: int| 0 <= i < before.len() && #[trigger] before[i].0 == q;
                if i < at {
                    assert(after[i].0 == q);
                } else {
                    assert(after[i + 1].0 == q);
                }
            }
        }
        assert forall|q: Seq<char>| map_of(after).contains_key(q) implies map_of(after)[q]
            == want[q] by {
            let i = choose|i: int| 0 <= i < after.len() && #[trigger] after[i].0 == q;
            if i < at {
                assert(before[i].0 == q);
            } else if i > at {
                assert(before[i - 1].0 == q);
            }
        }
    }
}

// Laws

/// Of two texts that first differ in one character, the one with the smaller
/// character comes first; a text comes before what it is the beginning of; and
/// no text comes before itself.
pub proof fn law_order_of_texts(
    front: Seq<char>,
    a: char,
    x: Seq<char>,
    b: char,
    y: Seq<char>,
)
    ensures
        a != b ==> (text_less(front.push(a) + x, front.push(b) + y) <==> (a as u32) < (b as u32)),
        text_less(front, front.push(a) + x),
        !text_less(front.push(a) + x, front),
        !text_less(front, front),
    decreases front.len(),
{
    let left = front.push(a) + x;
    let right = front.push(b) + y;
    lemma_less_irreflexive(front);
    if front.len() > 0 {
        let rest = front.drop_first();
        law_order_of_texts(rest, a, x, b, y);
        assert(left.drop_first() =~= rest.push(a) + x);
        assert(right.drop_first() =~= rest.push(b) + y);
    }
}

} // verus!
