//! Paths on the device: byte strings with `/` between their components.

use vstd::prelude::*;

use crate::wire;

verus! {

/// The byte of `/`.
pub const SLASH: u8 = 0x2f;

/// The byte of `.`.
pub const DOT: u8 = 0x2e;

/// A path on the device.
#[derive(Debug, Clone)]
pub struct UnixPath {
    pub bytes: Vec<u8>,
}

impl View for UnixPath {
    type V = Seq<u8>;

    open spec fn view(&self) -> Seq<u8> {
        self.bytes@
    }
}

// Components

/// The pieces of a path between slashes, empty ones included.
pub open spec fn segments(path: Seq<u8>) -> Seq<Seq<u8>>
    decreases path.len(),
{
    if path.len() == 0 {
        seq![Seq::<u8>::empty()]
    } else {
        let front = segments(path.drop_last());
        if path.last() == SLASH {
            front.push(Seq::<u8>::empty())
        } else {
            front.drop_last().push(front.last().push(path.last()))
        }
    }
}

/// The segments that name something: neither empty nor a single dot.
pub open spec fn named(pieces: Seq<Seq<u8>>) -> Seq<Seq<u8>>
    decreases pieces.len(),
{
    if pieces.len() == 0 {
        seq![]
    } else if pieces.last().len() == 0 || pieces.last() == seq![DOT] {
        named(pieces.drop_last())
    } else {
        named(pieces.drop_last()).push(pieces.last())
    }
}

/// The component that says where a path starts: `/` for an absolute path, `.`
/// for one whose first segment is a dot.
pub open spec fn start_component(path: Seq<u8>) -> Seq<Seq<u8>> {
    if is_absolute(path) {
        seq![seq![SLASH]]
    } else if segments(path)[0] == seq![DOT] {
        seq![seq![DOT]]
    } else {
        seq![]
    }
}

pub open spec fn is_absolute(path: Seq<u8>) -> bool {
    path.len() > 0 && path[0] == SLASH
}

/// The components of a path.
pub open spec fn components(path: Seq<u8>) -> Seq<Seq<u8>> {
    start_component(path) + named(segments(path))
}

/// `path` is `base` or lies below it.
pub open spec fn lies_under(path: Seq<u8>, base: Seq<u8>) -> bool {
    components(base).is_prefix_of(components(path))
}

/// `base` extended by `path`; an absolute `path` replaces it.
pub open spec fn pushed(base: Seq<u8>, path: Seq<u8>) -> Seq<u8> {
    if is_absolute(path) {
        path
    } else if base.len() > 0 && base.last() != SLASH {
        base.push(SLASH) + path
    } else {
        base + path
    }
}

/// `unix_path::PathBuf::push`: an absolute path replaces the buffer; another
/// one is appended to it, behind a slash unless the buffer is empty or ends
/// with one.
#[verifier::external_body]
fn unix_push(base: &[u8], path: &[u8]) -> (r: Vec<u8>)
    ensures
        r@ == pushed(base@, path@),
{
    let mut buf = unix_path::PathBuf::from(unix_str::UnixStr::from_bytes(base));
    buf.push(unix_str::UnixStr::from_bytes(path));
    buf.into_unix_string().into_vec()
}

/// `unix_path::Path::starts_with`: the components of the base are the first
/// components of the path.
#[verifier::external_body]
fn unix_starts_with(path: &[u8], base: &[u8]) -> (r: bool)
    ensures
        r == lies_under(path@, base@),
{
    unix_path::Path::new(unix_str::UnixStr::from_bytes(path)).starts_with(
        unix_str::UnixStr::from_bytes(base),
    )
}

/// A path has a parent unless it has no component, or the root alone.
pub open spec fn has_parent(path: Seq<u8>) -> bool {
    components(path).len() > 0 && components(path) != seq![seq![SLASH]]
}

/// The length of the shortest first part of a path, of `n` bytes or more, that
/// has these components.
pub open spec fn shortest(path: Seq<u8>, wanted: Seq<Seq<u8>>, n: nat) -> nat
    decreases path.len() - n,
{
    if n >= path.len() || components(path.take(n as int)) == wanted {
        n
    } else {
        shortest(path, wanted, n + 1)
    }
}

/// The parent of a path: the shortest first part of it that has all its
/// components but the last.
pub open spec fn parent_of(path: Seq<u8>) -> Option<Seq<u8>> {
    if has_parent(path) {
        Some(path.take(shortest(path, components(path).drop_last(), 0) as int))
    } else {
        None
    }
}

/// `unix_path::Path::parent`: a path with no component, or with the root alone,
/// has no parent. The parent of any other path is the shortest first part of it
/// that has all its components but the last.
#[verifier::external_body]
fn unix_parent(path: &[u8]) -> (r: Option<Vec<u8>>)
    ensures
        parent_of(path@) == (match r {
            Some(v) => Some(v@),
            None => None,
        }),
{
    unix_path::Path::new(unix_str::UnixStr::from_bytes(path)).parent().map(
        |p| p.as_unix_str().as_bytes().to_vec(),
    )
}

/// A path as text.
pub uninterp spec fn display_text(path: Seq<u8>) -> Seq<char>;

/// `unix_path::Path::display`: a path that is UTF-8 reads as the characters
/// that it encodes. What stands for bytes that are not UTF-8 is left unsaid.
#[verifier::external_body]
fn unix_display(path: &[u8]) -> (r: String)
    ensures
        r@ == display_text(path@),
        wire::utf8_outcome(path@) matches Ok(text) ==> r@ == text,
{
    unix_path::Path::new(unix_str::UnixStr::from_bytes(path)).display().to_string()
}

impl UnixPath {
    /// The path that a text names.
    pub fn new(text: &str) -> (r: UnixPath)
        ensures
            r@ == vstd::utf8::encode_utf8(text@),
    {
        UnixPath { bytes: vstd::slice::slice_to_vec(text.as_bytes()) }
    }

    /// A copy of the path.
    pub fn to_path_buf(&self) -> (r: UnixPath)
        ensures
            r@ == self@,
    {
        UnixPath { bytes: vstd::slice::slice_to_vec(self.bytes.as_slice()) }
    }

    /// The path extended by another one.
    pub fn join(&self, path: &str) -> (r: UnixPath)
        ensures
            r@ == pushed(self@, vstd::utf8::encode_utf8(path@)),
    {
        UnixPath { bytes: unix_push(self.bytes.as_slice(), path.as_bytes()) }
    }

    /// Whether the path is `base` or lies below it.
    pub fn starts_with(&self, base: &UnixPath) -> (r: bool)
        ensures
            r == lies_under(self@, base@),
    {
        unix_starts_with(self.bytes.as_slice(), base.bytes.as_slice())
    }

    /// The path without its last component.
    pub fn parent(&self) -> (r: Option<UnixPath>)
        ensures
            parent_of(self@) == (match r {
                Some(p) => Some(p@),
                None => None,
            }),
    {
        match unix_parent(self.bytes.as_slice()) {
            Some(bytes) => Some(UnixPath { bytes }),
            None => None,
        }
    }

    /// The path as text.
    pub fn display(&self) -> (r: String)
        ensures
            r@ == display_text(self@),
            wire::utf8_outcome(self@) matches Ok(text) ==> r@ == text,
    {
        unix_display(self.bytes.as_slice())
    }
}

// Laws

proof fn lemma_segments_non_empty(path: Seq<u8>)
    ensures
        segments(path).len() > 0,
    decreases path.len(),
{
    if path.len() > 0 {
        lemma_segments_non_empty(path.drop_last());
    }
}

/// The segments behind a slash follow those in front of it.
proof fn lemma_segments_join(a: Seq<u8>, b: Seq<u8>)
    ensures
        segments(a.push(SLASH) + b) == segments(a) + segments(b),
    decreases b.len(),
{
    lemma_segments_non_empty(a);
    lemma_segments_non_empty(b);
    if b.len() == 0 {
        assert(a.push(SLASH) + b == a.push(SLASH));
        assert(a.push(SLASH).drop_last() == a);
        assert(segments(a).push(Seq::<u8>::empty()) == segments(a) + segments(b));
    } else {
        let whole = a.push(SLASH) + b;
        assert(whole.drop_last() == a.push(SLASH) + b.drop_last());
        assert(whole.last() == b.last());
        lemma_segments_join(a, b.drop_last());
        lemma_segments_non_empty(b.drop_last());
        assert(segments(whole) =~= segments(a) + segments(b));
    }
}

proof fn lemma_named_concat(a: Seq<Seq<u8>>, b: Seq<Seq<u8>>)
    ensures
        named(a + b) == named(a) + named(b),
    decreases b.len(),
{
    if b.len() == 0 {
        assert(a + b == a);
        assert(named(a) + named(b) == named(a));
    } else {
        assert((a + b).drop_last() == a + b.drop_last());
        lemma_named_concat(a, b.drop_last());
        assert(named(a + b) =~= named(a) + named(b));
    }
}

/// The segments of a path that ends with a slash: those of the path without
/// the slash, and an empty one.
proof fn lemma_segments_trailing(path: Seq<u8>)
    requires
        path.len() > 0,
        path.last() == SLASH,
    ensures
        segments(path) == segments(path.drop_last()).push(Seq::<u8>::empty()),
        named(segments(path)) == named(segments(path.drop_last())),
{
    assert(segments(path).drop_last() == segments(path.drop_last()));
}

/// What is pushed onto a path and is not absolute lies under the path.
pub proof fn law_push_stays_under(base: Seq<u8>, path: Seq<u8>)
    requires
        !is_absolute(path),
    ensures
        lies_under(pushed(base, path), base),
{
    let whole = pushed(base, path);
    if base.len() == 0 {
        assert(segments(base) == seq![Seq::<u8>::empty()]);
        assert(segments(base)[0].len() == 0);
        assert(seq![DOT].len() == 1);
        assert(segments(base).drop_last() == Seq::<Seq<u8>>::empty());
        assert(named(Seq::<Seq<u8>>::empty()) == Seq::<Seq<u8>>::empty());
        assert(named(segments(base)) == Seq::<Seq<u8>>::empty());
        assert(start_component(base) == Seq::<Seq<u8>>::empty());
        assert(components(base) =~= Seq::<Seq<u8>>::empty());
    } else {
        let front = if base.last() == SLASH {
            base.drop_last()
        } else {
            base
        };
        assert(whole == front.push(SLASH) + path);
        lemma_segments_join(front, path);
        lemma_named_concat(segments(front), segments(path));
        lemma_segments_non_empty(front);
        if base.last() == SLASH {
            lemma_segments_trailing(base);
        }
        assert(segments(whole)[0] == segments(front)[0]);
        assert(segments(base)[0] == segments(front)[0]);
        assert(start_component(whole) == start_component(base));
        assert(components(whole) =~= components(base) + named(segments(path)));
        assert(components(whole).subrange(0, components(base).len() as int) =~= components(base));
    }
}

/// A path lies under itself.
pub proof fn law_lies_under_itself(path: Seq<u8>)
    ensures
        lies_under(path, path),
{
}

/// What lies under a path lies under everything that the path lies under.
pub proof fn law_lies_under_transitive(a: Seq<u8>, b: Seq<u8>, c: Seq<u8>)
    requires
        lies_under(a, b),
        lies_under(b, c),
    ensures
        lies_under(a, c),
{
    let x = components(a);
    let y = components(b);
    let z = components(c);
    assert forall|i: int| 0 <= i < z.len() implies z[i] == x.subrange(0, z.len() as int)[i] by {
        assert(z[i] == y.subrange(0, z.len() as int)[i]);
        assert(y[i] == x.subrange(0, y.len() as int)[i]);
    }
    assert(z =~= x.subrange(0, z.len() as int));
}

// Parents

/// The last segment of a path is what stands behind its last slash.
proof fn lemma_last_segment(path: Seq<u8>)
    ensures
        ({
            let pieces = segments(path);
            let m = path.len() - pieces.last().len();
            &&& pieces.len() > 0
            &&& 0 <= m <= path.len()
            &&& m == 0 || path[m - 1] == SLASH
            &&& segments(path.take(m)) == pieces.drop_last().push(Seq::<u8>::empty())
            &&& pieces.len() == 1 ==> m == 0
            &&& m == 0 ==> pieces.len() == 1 && !is_absolute(path)
        }),
    decreases path.len(),
{
    if path.len() == 0 {
        assert(path.take(0) =~= path);
        assert(segments(path).drop_last().push(Seq::<u8>::empty()) =~= segments(path));
    } else {
        let front = path.drop_last();
        lemma_last_segment(front);
        let pieces = segments(path);
        if path.last() == SLASH {
            assert(path.take(path.len() as int) =~= path);
            assert(pieces.drop_last().push(Seq::<u8>::empty()) =~= pieces);
        } else {
            let m = front.len() - segments(front).last().len();
            assert(path.take(m) =~= front.take(m));
            assert(pieces.drop_last() =~= segments(front).drop_last());
            if m == 0 && front.len() > 0 {
                assert(path[0] == front[0]);
            }
        }
    }
}

/// The components of the part in front of the last segment.
proof fn lemma_front_components(path: Seq<u8>)
    ensures
        ({
            let pieces = segments(path);
            let m = path.len() - pieces.last().len();
            m > 0 ==> components(path.take(m)) == start_component(path) + named(
                pieces.drop_last(),
            )
        }),
{
    lemma_last_segment(path);
    let pieces = segments(path);
    let m = path.len() - pieces.last().len();
    if m > 0 {
        let front = path.take(m);
        assert(front[0] == path[0]);
        assert(segments(front)[0] == pieces[0]);
        assert(segments(front).drop_last() =~= pieces.drop_last());
        assert(named(segments(front)) == named(pieces.drop_last()));
    }
}

/// Some first part of a path that has a parent has all its components but the
/// last.
proof fn lemma_parent_exists(path: Seq<u8>) -> (n: int)
    requires
        has_parent(path),
    ensures
        0 <= n < path.len(),
        components(path.take(n)) == components(path).drop_last(),
    decreases path.len(),
{
    let pieces = segments(path);
    let last = pieces.last();
    let m = path.len() - last.len();
    lemma_last_segment(path);
    lemma_front_components(path);
    lemma_no_components();
    let front = named(pieces.drop_last());
    if path.len() == 0 {
        assert(path =~= Seq::<u8>::empty());
        0
    } else if last.len() == 0 {
        assert(path.last() == SLASH);
        let shorter = path.drop_last();
        lemma_segments_trailing(path);
        if shorter.len() == 0 {
            assert(shorter =~= Seq::<u8>::empty());
            assert(named(segments(path)) =~= seq![]) by {
                assert(components(shorter) == Seq::<Seq<u8>>::empty());
                assert(start_component(shorter) =~= seq![]);
                assert(named(segments(shorter)) =~= components(shorter));
            }
            assert(components(path) =~= seq![seq![SLASH]]);
            0
        } else {
            lemma_segments_non_empty(shorter);
            assert(path[0] == shorter[0]);
            assert(segments(path)[0] == segments(shorter)[0]);
            assert(components(path) == components(shorter));
            let n = lemma_parent_exists(shorter);
            assert(path.take(n) =~= shorter.take(n));
            n
        }
    } else if last == seq![DOT] {
        assert(named(pieces) == front);
        if m == 0 {
            assert(pieces[0] == last);
            assert(pieces.drop_last() =~= Seq::<Seq<u8>>::empty());
            assert(components(path) =~= seq![seq![DOT]]);
            assert(path.take(0) =~= Seq::<u8>::empty());
            assert(components(path).drop_last() =~= Seq::<Seq<u8>>::empty());
            0
        } else {
            let shorter = path.take(m);
            assert(components(path) == components(shorter));
            let n = lemma_parent_exists(shorter);
            assert(path.take(n) =~= shorter.take(n));
            n
        }
    } else {
        assert(named(pieces) == front.push(last));
        assert(components(path) =~= (start_component(path) + front).push(last));
        assert(components(path).drop_last() =~= start_component(path) + front);
        if m == 0 {
            assert(pieces[0] == last);
            assert(pieces.drop_last() =~= Seq::<Seq<u8>>::empty());
            assert(path.take(0) =~= Seq::<u8>::empty());
            assert(start_component(path) + front =~= Seq::<Seq<u8>>::empty());
        }
        m
    }
}

/// The empty path has no components.
proof fn lemma_no_components()
    ensures
        components(Seq::<u8>::empty()) == Seq::<Seq<u8>>::empty(),
{
    let none = Seq::<u8>::empty();
    assert(segments(none) == seq![Seq::<u8>::empty()]);
    assert(segments(none)[0].len() == 0);
    assert(seq![DOT].len() == 1);
    assert(segments(none).drop_last() =~= Seq::<Seq<u8>>::empty());
    assert(named(Seq::<Seq<u8>>::empty()) == Seq::<Seq<u8>>::empty());
    assert(components(none) =~= Seq::<Seq<u8>>::empty());
}

proof fn lemma_shortest(path: Seq<u8>, wanted: Seq<Seq<u8>>, n: nat, m: int)
    requires
        n <= m < path.len(),
        components(path.take(m)) == wanted,
    ensures
        n <= shortest(path, wanted, n) <= m,
        components(path.take(shortest(path, wanted, n) as int)) == wanted,
        forall|k: int|
            n <= k < shortest(path, wanted, n) ==> components(#[trigger] path.take(k)) != wanted,
    decreases path.len() - n,
{
    if components(path.take(n as int)) != wanted {
        lemma_shortest(path, wanted, n + 1, m);
    }
}

/// A parent is a shorter first part of its path, has all its components but
/// the last, and no shorter first part has them. The path lies under it.
pub proof fn law_parent(path: Seq<u8>)
    ensures
        parent_of(path) is None <==> components(path).len() == 0 || components(path)
            == seq![seq![SLASH]],
        parent_of(path) matches Some(parent) ==> {
            &&& parent.is_prefix_of(path)
            &&& parent.len() < path.len()
            &&& components(parent) == components(path).drop_last()
            &&& forall|n: int|
                0 <= n < parent.len() ==> components(#[trigger] path.take(n)) != components(parent)
            &&& lies_under(path, parent)
        },
{
    if has_parent(path) {
        let wanted = components(path).drop_last();
        let m = lemma_parent_exists(path);
        lemma_shortest(path, wanted, 0, m);
        let n = shortest(path, wanted, 0) as int;
        assert(path.take(n) =~= path.subrange(0, n));
        assert(wanted =~= components(path).subrange(0, wanted.len() as int));
    }
}

/// A relative path goes behind the base, with one slash between them unless the
/// base is empty or ends with one; an absolute path stands alone.
pub proof fn law_pushed(base: Seq<u8>, rest: Seq<u8>)
    ensures
        pushed(base, seq![0x2fu8] + rest) == seq![0x2fu8] + rest,
        rest.len() == 0 || rest[0] != 0x2f ==> {
            &&& pushed(base.push(0x2f), rest) == base.push(0x2f) + rest
            &&& base.len() > 0 && base.last() != 0x2f ==> pushed(base, rest) == base.push(0x2f)
                + rest
            &&& pushed(Seq::<u8>::empty(), rest) == rest
        },
{
    let whole = seq![0x2fu8] + rest;
    assert(whole[0] == 0x2f);
    assert(base.push(0x2f).last() == 0x2f);
    assert(Seq::<u8>::empty() + rest =~= rest);
}

proof fn lemma_one_segment(name: Seq<u8>)
    requires
        forall|i: int| 0 <= i < name.len() ==> #[trigger] name[i] != SLASH,
    ensures
        segments(name) == seq![name],
    decreases name.len(),
{
    if name.len() == 0 {
        assert(name =~= Seq::<u8>::empty());
    } else {
        let front = name.drop_last();
        assert forall|i: int| 0 <= i < front.len() implies #[trigger] front[i] != SLASH by {
            assert(front[i] == name[i]);
        }
        lemma_one_segment(front);
        assert(name.last() == name[name.len() - 1]);
        assert(front.push(name.last()) =~= name);
        assert(segments(name) =~= seq![name]);
    }
}

/// A slash at the end of a path makes no difference to its components.
pub proof fn law_trailing_slash(path: Seq<u8>)
    requires
        path.len() > 0,
    ensures
        components(path.push(SLASH)) == components(path),
{
    let longer = path.push(SLASH);
    assert(longer.drop_last() =~= path);
    lemma_segments_trailing(longer);
    lemma_segments_non_empty(path);
    assert(segments(longer)[0] == segments(path)[0]);
    assert(longer[0] == path[0]);
}

/// A name that is pushed onto a path is one more component.
pub proof fn law_pushed_name_is_one_more_component(base: Seq<u8>, name: Seq<u8>)
    requires
        base.len() > 0,
        name.len() > 0,
        name != seq![DOT],
        forall|i: int| 0 <= i < name.len() ==> #[trigger] name[i] != SLASH,
    ensures
        components(pushed(base, name)) == components(base).push(name),
{
    let whole = pushed(base, name);
    assert(name[0] != SLASH);
    let front = if base.last() == SLASH {
        base.drop_last()
    } else {
        base
    };
    assert(whole =~= front.push(SLASH) + name);
    lemma_segments_join(front, name);
    lemma_named_concat(segments(front), segments(name));
    lemma_segments_non_empty(front);
    lemma_one_segment(name);
    if base.last() == SLASH {
        lemma_segments_trailing(base);
    }
    let one = seq![name];
    assert(one.drop_last() =~= Seq::<Seq<u8>>::empty());
    assert(one.last() == name);
    assert(named(Seq::<Seq<u8>>::empty()) =~= seq![]);
    assert(named(one) =~= seq![name]);
    assert(segments(whole)[0] == segments(front)[0]);
    assert(segments(base)[0] == segments(front)[0]);
    assert(start_component(whole) == start_component(base));
    assert(components(whole) =~= components(base).push(name));
}

/// The root has one component.
pub proof fn law_root_is_one_component()
    ensures
        components(seq![SLASH]) == seq![seq![SLASH]],
{
    let root = seq![SLASH];
    assert(root.drop_last() =~= Seq::<u8>::empty());
    assert(segments(Seq::<u8>::empty()) =~= seq![Seq::<u8>::empty()]);
    lemma_segments_trailing(root);
    let none = segments(Seq::<u8>::empty());
    assert(none.drop_last() =~= Seq::<Seq<u8>>::empty());
    assert(named(Seq::<Seq<u8>>::empty()) =~= seq![]);
    assert(none.last().len() == 0);
    assert(named(none) =~= seq![]);
    assert(components(root) =~= seq![seq![SLASH]]);
}

} // verus!
