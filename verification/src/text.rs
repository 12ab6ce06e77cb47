//! Text operations on character sequences: the string functions that the
//! protocol code is written in, each with an exact contract.

use vstd::prelude::*;

verus! {

/// `String::push` appends one character at the end of the string.
pub assume_specification[ String::push ](s: &mut String, c: char)
    ensures
        final(s)@ == old(s)@.push(c),
;

/// The characters of a string, in order.
pub fn chars_of(s: &str) -> (r: Vec<char>)
    ensures
        r@ == s@,
{
    let mut r: Vec<char> = Vec::new();
    for c in it: s.chars()
        invariant
            it.seq() == s@,
            r@ == s@.take(it.index()),
    {
        r.push(c);
    }
    assert(s@.take(s@.len() as int) == s@);
    r
}

/// The string made of the given characters.
pub fn string_of(chars: &[char]) -> (r: String)
    ensures
        r@ == chars@,
{
    let mut r: String = String::new();
    for i in 0..chars.len()
        invariant
            r@ == chars@.take(i as int),
    {
        r.push(chars[i]);
    }
    assert(chars@.take(chars@.len() as int) == chars@);
    r
}

/// The contents of a list of strings.
pub open spec fn strings_view(v: Seq<String>) -> Seq<Seq<char>> {
    v.map_values(|s: String| s@)
}

/// Whether two strings hold the same characters.
pub fn str_eq(a: &str, b: &str) -> (r: bool)
    ensures
        r == (a@ == b@),
{
    let x: Vec<char> = chars_of(a);
    let y: Vec<char> = chars_of(b);
    if x.len() != y.len() {
        return false;
    }
    for i in 0..x.len()
        invariant
            x@ == a@,
            y@ == b@,
            x.len() == y.len(),
            x@.take(i as int) == y@.take(i as int),
    {
        if x[i] != y[i] {
            return false;
        }
        assert(x@.take(i + 1) == x@.take(i as int).push(x@[i as int]));
        assert(y@.take(i + 1) == y@.take(i as int).push(y@[i as int]));
    }
    assert(x@.take(x@.len() as int) == x@);
    assert(y@.take(y@.len() as int) == y@);
    true
}

/// Whether the string is one of the given ones.
pub fn list_contains(list: &Vec<String>, s: &str) -> (r: bool)
    ensures
        r == strings_view(list@).contains(s@),
{
    for i in 0..list.len()
        invariant
            forall|j: int| 0 <= j < i ==> #[trigger] list@[j]@ != s@,
    {
        if str_eq(list[i].as_str(), s) {
            assert(strings_view(list@)[i as int] == s@);
            return true;
        }
    }
    assert forall|j: int| 0 <= j < strings_view(list@).len() implies #[trigger] strings_view(
        list@,
    )[j] != s@ by {
        assert(list@[j]@ != s@);
    }
    false
}

/// The string `a` followed by the string `b`.
pub fn concat2(a: &str, b: &str) -> (r: String)
    ensures
        r@ == a@ + b@,
{
    let mut r: String = a.to_owned();
    r.append(b);
    r
}

/// The strings `a`, `b` and `c`, one after the other.
pub fn concat3(a: &str, b: &str, c: &str) -> (r: String)
    ensures
        r@ == a@ + b@ + c@,
{
    let mut r: String = concat2(a, b);
    r.append(c);
    r
}

/// The strings `a`, `b`, `c` and `d`, one after the other.
pub fn concat4(a: &str, b: &str, c: &str, d: &str) -> (r: String)
    ensures
        r@ == a@ + b@ + c@ + d@,
{
    let mut r: String = concat3(a, b, c);
    r.append(d);
    r
}

// Searching

/// `needle` stands in `hay` at position `i`.
pub open spec fn occurs_at(hay: Seq<char>, i: int, needle: Seq<char>) -> bool {
    0 <= i && i + needle.len() <= hay.len() && hay.subrange(i, i + needle.len()) == needle
}

/// `needle` stands somewhere in `hay`.
pub open spec fn contains_text(hay: Seq<char>, needle: Seq<char>) -> bool {
    exists|i: int| occurs_at(hay, i, needle)
}

fn found_at(hay: &Vec<char>, i: usize, needle: &Vec<char>) -> (r: bool)
    ensures
        r == occurs_at(hay@, i as int, needle@),
{
    if i > hay.len() || needle.len() > hay.len() - i {
        return false;
    }
    for j in 0..needle.len()
        invariant
            i + needle.len() <= hay.len(),
            forall|k: int| 0 <= k < j ==> hay@[i + k] == needle@[k],
    {
        if hay[i + j] != needle[j] {
            assert(hay@.subrange(i as int, i + needle.len())[j as int] != needle@[j as int]);
            return false;
        }
    }
    assert(hay@.subrange(i as int, i + needle.len()) =~= needle@);
    true
}

/// Whether `needle` occurs in `hay`.
pub fn contains(hay: &str, needle: &str) -> (r: bool)
    ensures
        r == contains_text(hay@, needle@),
{
    let h: Vec<char> = chars_of(hay);
    let n: Vec<char> = chars_of(needle);
    if n.len() > h.len() {
        return false;
    }
    let last: usize = h.len() - n.len();
    let mut i: usize = 0;
    loop
        invariant
            h@ == hay@,
            n@ == needle@,
            n.len() <= h.len(),
            last == h.len() - n.len(),
            i <= last,
            forall|k: int| 0 <= k < i ==> !occurs_at(hay@, k, needle@),
        decreases last - i,
    {
        if found_at(&h, i, &n) {
            return true;
        }
        if i == last {
            assert forall|k: int| !occurs_at(hay@, k, needle@) by {
                if k > last {
                    assert(k + needle@.len() > hay@.len());
                }
            }
            return false;
        }
        i = i + 1;
    }
}

/// Whether `s` begins with `prefix`.
pub fn starts_with(s: &str, prefix: &str) -> (r: bool)
    ensures
        r == prefix@.is_prefix_of(s@),
{
    let h: Vec<char> = chars_of(s);
    let n: Vec<char> = chars_of(prefix);
    found_at(&h, 0, &n)
}

// Replacing

/// `s` with every occurrence of `from` replaced by `to`; occurrences are taken
/// from the left and do not overlap.
pub open spec fn replace_all(s: Seq<char>, from: Seq<char>, to: Seq<char>) -> Seq<char>
    decreases s.len(),
{
    if s.len() == 0 || from.len() == 0 {
        s
    } else if occurs_at(s, 0, from) {
        to + replace_all(s.skip(from.len() as int), from, to)
    } else {
        seq![s[0]] + replace_all(s.skip(1), from, to)
    }
}

/// Replaces every occurrence of `from` by `to`.
pub fn replace(s: &str, from: &str, to: &str) -> (r: String)
    requires
        from@.len() > 0,
    ensures
        r@ == replace_all(s@, from@, to@),
{
    let h: Vec<char> = chars_of(s);
    let n: Vec<char> = chars_of(from);
    let mut r: String = String::new();
    let mut i: usize = 0;
    assert(s@.skip(0) == s@);
    assert(r@ + replace_all(s@.skip(0), from@, to@) == replace_all(s@, from@, to@));
    while i < h.len()
        invariant
            h@ == s@,
            n@ == from@,
            from@.len() > 0,
            i <= h.len(),
            r@ + replace_all(s@.skip(i as int), from@, to@) == replace_all(s@, from@, to@),
        decreases h.len() - i,
    {
        let ghost rest = s@.skip(i as int);
        let ghost before = r@;
        assert(occurs_at(s@, i as int, from@) == occurs_at(rest, 0, from@)) by {
            if i + from@.len() <= s@.len() {
                assert(s@.subrange(i as int, i + from@.len()) == rest.subrange(
                    0,
                    from@.len() as int,
                ));
            }
        }
        if found_at(&h, i, &n) {
            r.append(to);
            assert(rest.skip(from@.len() as int) == s@.skip(i + from@.len()));
            assert(before + (to@ + replace_all(s@.skip(i + from@.len()), from@, to@)) == r@
                + replace_all(s@.skip(i + from@.len()), from@, to@));
            i = i + n.len();
        } else {
            r.push(h[i]);
            assert(rest.skip(1) == s@.skip(i + 1));
            assert(before + (seq![s@[i as int]] + replace_all(s@.skip(i + 1), from@, to@)) == r@
                + replace_all(s@.skip(i + 1), from@, to@));
            i = i + 1;
        }
    }
    assert(s@.skip(i as int) == Seq::<char>::empty());
    assert(replace_all(Seq::<char>::empty(), from@, to@) == Seq::<char>::empty());
    assert(r@ + Seq::<char>::empty() == r@);
    r
}

// Splitting

/// The characters with the Unicode property `White_Space`.
pub open spec fn is_white_space(c: char) -> bool {
    let u = c as u32;
    ||| 0x9 <= u <= 0xd
    ||| u == 0x20
    ||| u == 0x85
    ||| u == 0xa0
    ||| u == 0x1680
    ||| 0x2000 <= u <= 0x200a
    ||| 0x2028 <= u <= 0x2029
    ||| u == 0x202f
    ||| u == 0x205f
    ||| u == 0x3000
}

/// What separates the pieces of a text.
#[derive(Clone, Copy)]
pub enum Separator {
    Char(char),
    WhiteSpace,
}

impl Separator {
    pub open spec fn separates(self, c: char) -> bool {
        match self {
            Separator::Char(d) => c == d,
            Separator::WhiteSpace => is_white_space(c),
        }
    }

    /// Whether `c` separates pieces.
    pub fn is_at(self, c: char) -> (r: bool)
        ensures
            r == self.separates(c),
    {
        match self {
            Separator::Char(d) => c == d,
            Separator::WhiteSpace => {
                let u: u32 = c as u32;
                (0x9 <= u && u <= 0xd) || u == 0x20 || u == 0x85 || u == 0xa0 || u == 0x1680 || (
                0x2000 <= u && u <= 0x200a) || (0x2028 <= u && u <= 0x2029) || u == 0x202f || u
                    == 0x205f || u == 0x3000
            },
        }
    }
}

/// The pieces of `s` between separators, read from the left: one more piece
/// than there are separators, empty ones included.
pub open spec fn split_text(s: Seq<char>, sep: Separator) -> Seq<Seq<char>>
    decreases s.len(),
{
    if s.len() == 0 {
        seq![Seq::<char>::empty()]
    } else {
        let pieces = split_text(s.drop_last(), sep);
        if sep.separates(s.last()) {
            pieces.push(Seq::<char>::empty())
        } else {
            pieces.drop_last().push(pieces.last().push(s.last()))
        }
    }
}

/// The pieces that are not empty, in order.
pub open spec fn non_empty(pieces: Seq<Seq<char>>) -> Seq<Seq<char>>
    decreases pieces.len(),
{
    if pieces.len() == 0 {
        seq![]
    } else if pieces.last().len() == 0 {
        non_empty(pieces.drop_last())
    } else {
        non_empty(pieces.drop_last()).push(pieces.last())
    }
}

/// The words of `s`: its pieces between white space, without the empty ones.
pub open spec fn words(s: Seq<char>) -> Seq<Seq<char>> {
    non_empty(split_text(s, Separator::WhiteSpace))
}

/// Splits `s` at every separator.
pub fn split(s: &str, sep: Separator) -> (r: Vec<String>)
    ensures
        strings_view(r@) == split_text(s@, sep),
        r@.len() > 0,
{
    let mut r: Vec<String> = Vec::new();
    let mut piece: String = String::new();
    let h: Vec<char> = chars_of(s);
    assert(strings_view(r@).push(piece@) =~= split_text(h@.take(0), sep));
    for i in 0..h.len()
        invariant
            h@ == s@,
            strings_view(r@).push(piece@) == split_text(h@.take(i as int), sep),
    {
        let c: char = h[i];
        let ghost taken = h@.take(i + 1);
        let ghost done = strings_view(r@);
        assert(taken.drop_last() == h@.take(i as int));
        assert(taken.last() == c);
        assert(done.push(piece@).drop_last() == done);
        if sep.is_at(c) {
            let ghost last = piece@;
            r.push(piece);
            piece = String::new();
            assert(strings_view(r@) == done.push(last));
        } else {
            piece.push(c);
        }
        assert(strings_view(r@).push(piece@) =~= split_text(taken, sep));
    }
    assert(h@.take(h@.len() as int) == s@);
    let ghost done = strings_view(r@);
    let ghost last = piece@;
    r.push(piece);
    assert(strings_view(r@) == done.push(last));
    r
}

/// The words of `s`.
pub fn split_whitespace(s: &str) -> (r: Vec<String>)
    ensures
        strings_view(r@) == words(s@),
{
    let pieces: Vec<String> = split(s, Separator::WhiteSpace);
    let ghost all = strings_view(pieces@);
    let mut r: Vec<String> = Vec::new();
    assert(strings_view(r@) =~= non_empty(all.take(0)));
    for i in 0..pieces.len()
        invariant
            all == strings_view(pieces@),
            strings_view(r@) == non_empty(all.take(i as int)),
    {
        let ghost kept = strings_view(r@);
        assert(all.take(i + 1).drop_last() == all.take(i as int));
        assert(all.take(i + 1).last() == pieces@[i as int]@);
        if !pieces[i].as_str().is_empty() {
            let word: String = pieces[i].as_str().to_owned();
            let ghost last = word@;
            r.push(word);
            assert(strings_view(r@) == kept.push(last));
        }
    }
    assert(all.take(all.len() as int) == all);
    r
}

/// `s` without one carriage return at its end, if there is one.
pub open spec fn strip_carriage_return(s: Seq<char>) -> Seq<char> {
    if s.len() > 0 && s.last() == '\r' {
        s.drop_last()
    } else {
        s
    }
}

/// The lines of `s`: a line ends with a line feed, which may follow a carriage
/// return; what stands behind the last line feed is a line unless it is empty.
pub open spec fn lines_of(s: Seq<char>) -> Seq<Seq<char>> {
    let pieces = split_text(s, Separator::Char('\n'));
    let ended = Seq::new((pieces.len() - 1) as nat, |i: int| strip_carriage_return(pieces[i]));
    if pieces.last().len() == 0 {
        ended
    } else {
        ended.push(pieces.last())
    }
}

fn without_carriage_return(s: &str) -> (r: String)
    ensures
        r@ == strip_carriage_return(s@),
{
    let h: Vec<char> = chars_of(s);
    if h.len() > 0 && h[h.len() - 1] == '\r' {
        let (front, _back) = h.as_slice().split_at(h.len() - 1);
        assert(front@ =~= s@.drop_last());
        string_of(front)
    } else {
        s.to_owned()
    }
}

/// The lines of `s`.
pub fn lines(s: &str) -> (r: Vec<String>)
    ensures
        strings_view(r@) == lines_of(s@),
{
    let pieces: Vec<String> = split(s, Separator::Char('\n'));
    let ghost all = strings_view(pieces@);
    let ghost ended = Seq::new((all.len() - 1) as nat, |i: int| strip_carriage_return(all[i]));
    let count: usize = pieces.len() - 1;
    let mut r: Vec<String> = Vec::new();
    assert(strings_view(r@) =~= ended.take(0));
    for i in 0..count
        invariant
            count + 1 == pieces.len(),
            all == strings_view(pieces@),
            ended == Seq::new((all.len() - 1) as nat, |i: int| strip_carriage_return(all[i])),
            strings_view(r@) == ended.take(i as int),
    {
        let ghost done = strings_view(r@);
        let line: String = without_carriage_return(pieces[i].as_str());
        let ghost last = line@;
        assert(last == ended[i as int]);
        r.push(line);
        assert(strings_view(r@) == done.push(last));
        assert(ended.take(i + 1) == ended.take(i as int).push(ended[i as int]));
    }
    assert(ended.take(count as int) == ended);
    if !pieces[count].as_str().is_empty() {
        let line: String = pieces[count].as_str().to_owned();
        let ghost last = line@;
        r.push(line);
        assert(strings_view(r@) == ended.push(last));
    }
    r
}

// Putting pieces together

/// A text of one character or more, none of them white space.
pub open spec fn is_word(s: Seq<char>) -> bool {
    s.len() > 0 && lacks(s, Separator::WhiteSpace)
}

/// No character of the text separates pieces.
pub open spec fn lacks(s: Seq<char>, sep: Separator) -> bool {
    forall|i: int| 0 <= i < s.len() ==> !sep.separates(#[trigger] s[i])
}

pub proof fn lemma_split_some(s: Seq<char>, sep: Separator)
    ensures
        split_text(s, sep).len() > 0,
    decreases s.len(),
{
    if s.len() > 0 {
        lemma_split_some(s.drop_last(), sep);
    }
}

/// Text without a separator is one piece.
pub proof fn lemma_split_one(s: Seq<char>, sep: Separator)
    requires
        lacks(s, sep),
    ensures
        split_text(s, sep) == seq![s],
    decreases s.len(),
{
    if s.len() == 0 {
        assert(s =~= Seq::<char>::empty());
    } else {
        let front = s.drop_last();
        assert forall|i: int| 0 <= i < front.len() implies !sep.separates(#[trigger] front[i]) by {
            assert(front[i] == s[i]);
        }
        lemma_split_one(front, sep);
        assert(s.last() == s[s.len() - 1]);
        assert(front.push(s.last()) =~= s);
        assert(split_text(s, sep) =~= seq![s]);
    }
}

/// The pieces behind a separator follow those in front of it.
pub proof fn lemma_split_join(a: Seq<char>, c: char, b: Seq<char>, sep: Separator)
    requires
        sep.separates(c),
    ensures
        split_text(a.push(c) + b, sep) == split_text(a, sep) + split_text(b, sep),
    decreases b.len(),
{
    let whole = a.push(c) + b;
    lemma_split_some(b, sep);
    if b.len() == 0 {
        assert(whole =~= a.push(c));
        assert(a.push(c).drop_last() =~= a);
        assert(split_text(whole, sep) =~= split_text(a, sep) + split_text(b, sep));
    } else {
        assert(whole.drop_last() =~= a.push(c) + b.drop_last());
        lemma_split_join(a, c, b.drop_last(), sep);
        lemma_split_some(b.drop_last(), sep);
        assert(split_text(whole, sep) =~= split_text(a, sep) + split_text(b, sep));
    }
}

/// A word behind white space is the last of the words.
pub proof fn lemma_words_push(a: Seq<char>, c: char, word: Seq<char>)
    requires
        is_white_space(c),
        is_word(word),
    ensures
        words(a.push(c) + word) == words(a).push(word),
{
    let sep = Separator::WhiteSpace;
    lemma_split_join(a, c, word, sep);
    lemma_split_one(word, sep);
    let pieces = split_text(a, sep) + seq![word];
    assert(pieces.drop_last() =~= split_text(a, sep));
}

/// A word alone is the only word.
pub proof fn lemma_words_one(word: Seq<char>)
    requires
        is_word(word),
    ensures
        words(word) == seq![word],
{
    lemma_split_one(word, Separator::WhiteSpace);
    assert(seq![word].drop_last() =~= Seq::<Seq<char>>::empty());
    assert(non_empty(Seq::<Seq<char>>::empty()) =~= seq![]);
    assert(words(word) =~= seq![word]);
}

// Laws

/// A text occurs in another one exactly where the other one is something, then
/// the text, and then something.
pub proof fn law_contains(hay: Seq<char>, needle: Seq<char>)
    ensures
        contains_text(hay, needle) <==> exists|a: Seq<char>, b: Seq<char>|
            hay == #[trigger] (a + needle + b),
{
    if contains_text(hay, needle) {
        let i = choose|i: int| occurs_at(hay, i, needle);
        let a = hay.take(i);
        let b = hay.skip(i + needle.len());
        assert(hay =~= a + needle + b);
    }
    if exists|a: Seq<char>, b: Seq<char>| hay == #[trigger] (a + needle + b) {
        let (a, b) = choose|a: Seq<char>, b: Seq<char>| hay == #[trigger] (a + needle + b);
        let i = a.len() as int;
        assert(hay.subrange(i, i + needle.len()) =~= needle);
        assert(occurs_at(hay, i, needle));
    }
}

/// Where a text does not occur, replacing it changes nothing.
pub proof fn law_replace_absent(s: Seq<char>, from: Seq<char>, to: Seq<char>)
    requires
        forall|a: Seq<char>, b: Seq<char>| s != #[trigger] (a + from + b),
    ensures
        replace_all(s, from, to) == s,
    decreases s.len(),
{
    if s.len() > 0 && from.len() > 0 {
        if occurs_at(s, 0, from) {
            let a = Seq::<char>::empty();
            let b = s.skip(from.len() as int);
            assert(s =~= a + from + b);
        }
        let rest = s.skip(1);
        assert forall|a: Seq<char>, b: Seq<char>| rest != #[trigger] (a + from + b) by {
            if rest == a + from + b {
                let more = seq![s[0]] + a;
                assert(s =~= seq![s[0]] + rest);
                assert(seq![s[0]] + (a + from + b) =~= more + from + b);
                assert(s == more + from + b);
            }
        }
        law_replace_absent(rest, from, to);
        assert(seq![s[0]] + rest =~= s);
    }
}

/// The pieces of a text between separators, put together again with the
/// separator between them, are the text; and no piece holds a separator.
pub proof fn law_split_gives_the_pieces(s: Seq<char>, c: char)
    ensures
        ({
            let pieces = split_text(s, Separator::Char(c));
            &&& pieces.len() > 0
            &&& forall|i: int, j: int|
                0 <= i < pieces.len() && 0 <= j < pieces[i].len() ==> #[trigger] pieces[i][j] != c
            &&& pieces.drop_first().fold_left(
                pieces[0],
                |whole: Seq<char>, piece: Seq<char>| whole.push(c) + piece,
            ) == s
        }),
    decreases s.len(),
{
    let sep = Separator::Char(c);
    let pieces = split_text(s, sep);
    let f = |whole: Seq<char>, piece: Seq<char>| whole.push(c) + piece;
    lemma_split_some(s, sep);
    if s.len() == 0 {
        assert(pieces.drop_first() =~= Seq::<Seq<char>>::empty());
        assert(pieces[0] =~= s);
    } else {
        let front = split_text(s.drop_last(), sep);
        law_split_gives_the_pieces(s.drop_last(), c);
        lemma_split_some(s.drop_last(), sep);
        if s.last() == c {
            let others = pieces.drop_first();
            assert(others =~= front.drop_first().push(Seq::<char>::empty()));
            assert(others.drop_last() =~= front.drop_first());
            assert(pieces[0] == front[0]);
            assert(others.fold_left(pieces[0], f) == f(s.drop_last(), Seq::<char>::empty()));
            assert(s.drop_last().push(c) + Seq::<char>::empty() =~= s);
        } else {
            let last = front.last().push(s.last());
            if front.len() == 1 {
                assert(front.drop_first() =~= Seq::<Seq<char>>::empty());
                assert(pieces.drop_first() =~= Seq::<Seq<char>>::empty());
                assert(front[0] == s.drop_last());
                assert(pieces[0] =~= s);
            } else {
                let a = front.drop_first();
                let b = pieces.drop_first();
                assert(b.drop_last() =~= a.drop_last());
                assert(b.last() == last && a.last() == front.last());
                assert(pieces[0] == front[0]);
                let whole = a.drop_last().fold_left(front[0], f);
                assert(a.fold_left(front[0], f) == f(whole, front.last()));
                assert(b.fold_left(front[0], f) == f(whole, last));
                assert(whole.push(c) + last =~= (whole.push(c) + front.last()).push(s.last()));
                assert(s.drop_last().push(s.last()) =~= s);
            }
        }
        assert forall|i: int, j: int|
            0 <= i < pieces.len() && 0 <= j < pieces[i].len() implies #[trigger] pieces[i][j]
            != c by {
            if s.last() != c && i == pieces.len() - 1 {
                if j < front.last().len() {
                    assert(front[front.len() - 1][j] != c);
                }
            } else if i < front.len() {
                assert(pieces[i] == front[i]);
                assert(front[i][j] != c);
            }
        }
    }
}

/// White space at the end of a text adds no word to it.
pub proof fn law_trailing_white_space(s: Seq<char>, c: char)
    requires
        is_white_space(c),
    ensures
        words(s.push(c)) == words(s),
{
    assert(s.push(c).drop_last() =~= s);
    let pieces = split_text(s, Separator::WhiteSpace);
    assert(pieces.push(Seq::<char>::empty()).drop_last() =~= pieces);
}

/// A word behind white space is the last of the words.
pub proof fn law_one_more_word(s: Seq<char>, c: char, word: Seq<char>)
    requires
        is_white_space(c),
        word.len() > 0,
        forall|i: int| 0 <= i < word.len() ==> !is_white_space(#[trigger] word[i]),
    ensures
        words(s.push(c) + word) == words(s).push(word),
        words(word) == seq![word],
{
    assert(is_word(word)) by {
        assert forall|i: int| 0 <= i < word.len() implies !Separator::WhiteSpace.separates(
            #[trigger] word[i],
        ) by {
            assert(!is_white_space(word[i]));
        }
    }
    lemma_words_push(s, c, word);
    lemma_words_one(word);
}

/// Among the ASCII characters, white space is the tabs, the line ends, the form
/// feed and the space.
pub proof fn law_ascii_white_space(c: char)
    requires
        (c as u32) < 0x80,
    ensures
        is_white_space(c) <==> c == '\t' || c == '\n' || c == '\x0b' || c == '\x0c' || c == '\r'
            || c == ' ',
{
}

/// Lines that end with a line feed, or with a carriage return and a line feed,
/// are the lines of the text; and so is what follows the last of them, unless it
/// is empty.
pub proof fn law_one_more_line(s: Seq<char>, line: Seq<char>)
    requires
        s.len() == 0 || s.last() == '\n',
        forall|i: int| 0 <= i < line.len() ==> #[trigger] line[i] != '\n',
    ensures
        line.len() == 0 || line.last() != '\r' ==> lines_of(s + line.push('\n')) == lines_of(
            s,
        ).push(line),
        lines_of(s + (line.push('\r').push('\n'))) == lines_of(s).push(line),
        line.len() > 0 ==> lines_of(s + line) == lines_of(s).push(line),
        lines_of(Seq::<char>::empty()) == Seq::<Seq<char>>::empty(),
{
    let sep = Separator::Char('\n');
    lemma_split_one(line, sep);
    let returned = line.push('\r');
    assert(lacks(returned, sep)) by {
        assert forall|i: int| 0 <= i < returned.len() implies !sep.separates(
            #[trigger] returned[i],
        ) by {
            if i < line.len() {
                assert(returned[i] == line[i]);
            }
        }
    }
    lemma_split_one(returned, sep);
    lemma_lines_end(s, line);
    lemma_lines_end(s, returned);
    assert(returned.drop_last() =~= line);
    if line.len() > 0 {
        let pieces = split_text(s, sep);
        lemma_split_some(s, sep);
        if s.len() == 0 {
            assert(s + line =~= line);
            assert(lines_of(s) =~= seq![]);
            assert(lines_of(s + line) =~= seq![line]);
            assert(lines_of(s).push(line) =~= seq![line]);
        } else {
            let t = s.drop_last();
            assert(t.push('\n') =~= s);
            lemma_split_join(t, '\n', line, sep);
            let all = split_text(t, sep) + seq![line];
            assert(split_text(s + line, sep) == all);
            assert(pieces == split_text(t, sep).push(Seq::<char>::empty()));
            assert(lines_of(s + line) =~= lines_of(s).push(line));
        }
    }
}

/// A line that is ended behind ended lines.
proof fn lemma_lines_end(s: Seq<char>, line: Seq<char>)
    requires
        s.len() == 0 || s.last() == '\n',
        split_text(line, Separator::Char('\n')) == seq![line],
    ensures
        lines_of(s + line.push('\n')) == lines_of(s).push(strip_carriage_return(line)),
{
    let sep = Separator::Char('\n');
    let whole = s + line.push('\n');
    assert(whole.drop_last() =~= s + line);
    assert(whole.last() == '\n');
    let before = split_text(s + line, sep);
    if s.len() == 0 {
        assert(s + line =~= line);
        assert(lines_of(s) =~= seq![]);
        assert(split_text(whole, sep) =~= seq![line, Seq::<char>::empty()]);
        assert(lines_of(whole) =~= seq![strip_carriage_return(line)]);
        assert(lines_of(s).push(strip_carriage_return(line)) =~= seq![strip_carriage_return(line)]);
    } else {
        let t = s.drop_last();
        assert(t.push('\n') =~= s);
        lemma_split_some(t, sep);
        lemma_split_join(t, '\n', line, sep);
        let first = split_text(t, sep);
        assert(before == first + seq![line]);
        assert(split_text(s, sep) == first.push(Seq::<char>::empty()));
        assert(split_text(whole, sep) == before.push(Seq::<char>::empty()));
        assert(lines_of(whole) =~= lines_of(s).push(strip_carriage_return(line)));
    }
}

/// A text without words has none, and so has the empty text.
pub proof fn law_no_words(s: Seq<char>)
    requires
        forall|i: int| 0 <= i < s.len() ==> is_white_space(#[trigger] s[i]),
    ensures
        words(s) == Seq::<Seq<char>>::empty(),
    decreases s.len(),
{
    if s.len() == 0 {
        let pieces = split_text(s, Separator::WhiteSpace);
        assert(pieces =~= seq![Seq::<char>::empty()]);
        assert(pieces.drop_last() =~= Seq::<Seq<char>>::empty());
        assert(non_empty(pieces.drop_last()) =~= seq![]);
    } else {
        law_no_words(s.drop_last());
        law_trailing_white_space(s.drop_last(), s.last());
        assert(s.drop_last().push(s.last()) =~= s);
    }
}

/// Beyond ASCII, white space is the spaces and the line and paragraph separators
/// of Unicode.
pub proof fn law_unicode_white_space(c: char)
    requires
        c as u32 >= 0x80,
    ensures
        is_white_space(c) <==> c == '\u{85}' || c == '\u{a0}' || c == '\u{1680}' || ('\u{2000}' <= c
            && c <= '\u{200a}') || c == '\u{2028}' || c == '\u{2029}' || c == '\u{202f}' || c
            == '\u{205f}' || c == '\u{3000}',
{
}

} // verus!
