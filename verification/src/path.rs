//! Unix paths as bytes: their components, how they are joined, and which lies within which.
use vstd::prelude::*;

verus! {

/// The byte that parts the components of a path.
pub const SLASH: u8 = 47;

/// The byte that `.` and `..` are made of.
pub const DOT: u8 = 46;

/// A component of a path.
pub enum Component {
    RootDir,
    CurDir,
    ParentDir,
    Normal(Vec<u8>),
}

/// A component of a path, as a mathematical value.
pub enum Part {
    Root,
    Current,
    Parent,
    Name(Seq<u8>),
}

impl DeepView for Component {
    type V = Part;

    open spec fn deep_view(&self) -> Part {
        match self {
            Component::RootDir => Part::Root,
            Component::CurDir => Part::Current,
            Component::ParentDir => Part::Parent,
            Component::Normal(name) => Part::Name(name@),
        }
    }
}

/// The stretches of `path` between its slashes.
pub open spec fn segments(path: Seq<u8>) -> Seq<Seq<u8>>
    decreases path.len(),
{
    if path.len() == 0 {
        seq![path]
    } else {
        let done = segments(path.drop_last());
        if path.last() == SLASH {
            done.push(Seq::empty())
        } else {
            done.drop_last().push(done.last().push(path.last()))
        }
    }
}

/// Whether a segment stands for a component: an empty one and `.` do not.
pub open spec fn is_step(segment: Seq<u8>) -> bool {
    segment.len() > 0 && segment != seq![DOT]
}

/// The component that a segment stands for.
pub open spec fn step_of(segment: Seq<u8>) -> Part {
    if segment == seq![DOT, DOT] {
        Part::Parent
    } else {
        Part::Name(segment)
    }
}

/// The components that segments stand for.
pub open spec fn steps(segments: Seq<Seq<u8>>) -> Seq<Part>
    decreases segments.len(),
{
    if segments.len() == 0 {
        Seq::empty()
    } else if is_step(segments.last()) {
        steps(segments.drop_last()).push(step_of(segments.last()))
    } else {
        steps(segments.drop_last())
    }
}

/// Whether `path` starts at the root.
pub open spec fn rooted(path: Seq<u8>) -> bool {
    path.len() > 0 && path[0] == SLASH
}

/// What a path starts from: the root, an explicit `.`, or nothing.
pub open spec fn origin(path: Seq<u8>) -> Seq<Part> {
    if rooted(path) {
        seq![Part::Root]
    } else if path.len() > 0 && path[0] == DOT && (path.len() == 1 || path[1] == SLASH) {
        seq![Part::Current]
    } else {
        Seq::empty()
    }
}

/// The components of `path`. Repeated slashes and a `.` that does not lead count for nothing.
pub open spec fn parts(path: Seq<u8>) -> Seq<Part> {
    origin(path) + steps(segments(path))
}

/// Whether `path` is `base` or lies below it, component by component.
pub open spec fn within(path: Seq<u8>, base: Seq<u8>) -> bool {
    parts(base).is_prefix_of(parts(path))
}

/// `tail` below `base`; a `tail` that starts at the root replaces it.
pub open spec fn joined_path(base: Seq<u8>, tail: Seq<u8>) -> Seq<u8> {
    if rooted(tail) {
        tail
    } else if base.len() > 0 && base.last() != SLASH {
        base + seq![SLASH] + tail
    } else {
        base + tail
    }
}

/// Whether `path` starts at the root.
pub fn is_absolute(path: &Vec<u8>) -> (r: bool)
    ensures
        r == rooted(path@),
{
    path.len() > 0 && path[0] == SLASH
}

/// The bytes of `bytes` from `start` up to `end`.
pub fn slice(bytes: &Vec<u8>, start: usize, end: usize) -> (r: Vec<u8>)
    requires
        start <= end <= bytes@.len(),
    ensures
        r@ == bytes@.subrange(start as int, end as int),
{
    let mut out: Vec<u8> = Vec::new();
    let mut i: usize = start;
    while i < end
        invariant
            start <= i <= end,
            end <= bytes@.len(),
            out@ == bytes@.subrange(start as int, i as int),
        decreases end - i,
    {
        out.push(bytes[i]);
        i = i + 1;
    }
    out
}

/// Whether two byte strings are the same.
pub fn same_bytes(a: &Vec<u8>, b: &Vec<u8>) -> (r: bool)
    ensures
        r == (a@ == b@),
{
    if a.len() != b.len() {
        return false;
    }
    let mut i: usize = 0;
    while i < a.len()
        invariant
            i <= a@.len(),
            a@.len() == b@.len(),
            forall|j: int| 0 <= j < i ==> a@[j] == b@[j],
        decreases a@.len() - i,
    {
        if a[i] != b[i] {
            return false;
        }
        i = i + 1;
    }
    assert(a@ == b@);
    true
}

/// Adds the component that a segment stands for, if it stands for one.
fn push_step(out: &mut Vec<Component>, segment: Vec<u8>)
    ensures
        final(out).deep_view() == if is_step(segment@) {
            old(out).deep_view().push(step_of(segment@))
        } else {
            old(out).deep_view()
        },
{
    let ghost before = out.deep_view();
    if segment.len() == 0 {
        return ;
    }
    if segment.len() == 1 && segment[0] == DOT {
        assert(segment@ == seq![DOT]);
        return ;
    }
    assert(segment@ != seq![DOT]) by {
        if segment@ == seq![DOT] {
            assert(segment@[0] == DOT);
        }
    }
    if segment.len() == 2 && segment[0] == DOT && segment[1] == DOT {
        assert(segment@ == seq![DOT, DOT]);
        out.push(Component::ParentDir);
        assert(out.deep_view() == before.push(Part::Parent));
    } else {
        assert(segment@ != seq![DOT, DOT]) by {
            if segment@ == seq![DOT, DOT] {
                assert(segment@[0] == DOT && segment@[1] == DOT);
            }
        }
        let ghost name = segment@;
        out.push(Component::Normal(segment));
        assert(out.deep_view() == before.push(Part::Name(name)));
    }
}

/// The components of `path`.
pub fn components(path: &Vec<u8>) -> (r: Vec<Component>)
    ensures
        r.deep_view() == parts(path@),
{
    let mut out: Vec<Component> = Vec::new();
    if is_absolute(path) {
        out.push(Component::RootDir);
    } else if path.len() > 0 && path[0] == DOT && (path.len() == 1 || path[1] == SLASH) {
        out.push(Component::CurDir);
    }
    assert(out.deep_view() == origin(path@));
    let n: usize = path.len();
    let mut start: usize = 0;
    let mut i: usize = 0;
    let ghost mut done: Seq<Seq<u8>> = Seq::empty();
    assert(path@.take(0) == Seq::<u8>::empty());
    assert(done.push(path@.subrange(0, 0)) == segments(path@.take(0)));
    assert(out.deep_view() == origin(path@) + steps(done));
    while i < n
        invariant
            start <= i <= n,
            n == path@.len(),
            done.push(path@.subrange(start as int, i as int)) == segments(path@.take(i as int)),
            out.deep_view() == origin(path@) + steps(done),
        decreases n - i,
    {
        let ghost piece = path@.subrange(start as int, i as int);
        assert(path@.take(i + 1).drop_last() == path@.take(i as int));
        if path[i] == SLASH {
            let segment = slice(path, start, i);
            push_step(&mut out, segment);
            proof {
                assert(done.push(piece).drop_last() == done);
                done = done.push(piece);
            }
            assert(out.deep_view() == origin(path@) + steps(done));
            start = i + 1;
            assert(path@.subrange(start as int, i + 1) == Seq::<u8>::empty());
        } else {
            assert(done.push(piece).drop_last() == done);
            assert(path@.subrange(start as int, i + 1) == piece.push(path@[i as int]));
        }
        i = i + 1;
    }
    assert(path@.take(n as int) == path@);
    let segment = slice(path, start, n);
    push_step(&mut out, segment);
    proof {
        let all = segments(path@);
        assert(all == done.push(segment@));
        assert(all.drop_last() == done);
        assert(all.last() == segment@);
        assert(out.deep_view() == origin(path@) + steps(all));
    }
    out
}

/// Whether two components are the same.
fn same_component(a: &Component, b: &Component) -> (r: bool)
    ensures
        r == (a.deep_view() == b.deep_view()),
{
    match (a, b) {
        (Component::RootDir, Component::RootDir) => true,
        (Component::CurDir, Component::CurDir) => true,
        (Component::ParentDir, Component::ParentDir) => true,
        (Component::Normal(x), Component::Normal(y)) => same_bytes(x, y),
        _ => false,
    }
}

/// Whether `path` is `base` or lies below it.
pub fn starts_with(path: &Vec<u8>, base: &Vec<u8>) -> (r: bool)
    ensures
        r == within(path@, base@),
{
    let a = components(path);
    let b = components(base);
    let ghost x = a.deep_view();
    let ghost y = b.deep_view();
    if b.len() > a.len() {
        return false;
    }
    let mut i: usize = 0;
    while i < b.len()
        invariant
            i <= b@.len() <= a@.len(),
            x == a.deep_view(),
            y == b.deep_view(),
            x == parts(path@),
            y == parts(base@),
            forall|j: int| 0 <= j < i ==> #[trigger] x[j] == y[j],
        decreases b@.len() - i,
    {
        if !same_component(&a[i], &b[i]) {
            assert(x[i as int] != y[i as int]);
            assert(!within(path@, base@)) by {
                if within(path@, base@) {
                    assert(x.subrange(0, y.len() as int)[i as int] == y[i as int]);
                }
            }
            return false;
        }
        i = i + 1;
    }
    assert(y == x.subrange(0, y.len() as int));
    true
}

/// `tail` below `base`; a `tail` that starts at the root replaces it.
pub fn join(base: &Vec<u8>, tail: &Vec<u8>) -> (r: Vec<u8>)
    ensures
        r@ == joined_path(base@, tail@),
{
    if is_absolute(tail) {
        return slice(tail, 0, tail.len());
    }
    let mut out = slice(base, 0, base.len());
    if base.len() > 0 && base[base.len() - 1] != SLASH {
        out.push(SLASH);
    }
    let ghost head = out@;
    let mut i: usize = 0;
    while i < tail.len()
        invariant
            i <= tail@.len(),
            out@ == head + tail@.take(i as int),
        decreases tail@.len() - i,
    {
        out.push(tail[i]);
        i = i + 1;
    }
    assert(tail@.take(i as int) == tail@);
    out
}

/// Every path lies within itself.
pub proof fn lemma_within_reflexive(path: Seq<u8>)
    ensures
        within(path, path),
{
    assert(parts(path).subrange(0, parts(path).len() as int) == parts(path));
}

/// A path within a second one that is within a third is within the third.
pub proof fn lemma_within_transitive(path: Seq<u8>, middle: Seq<u8>, base: Seq<u8>)
    requires
        within(path, middle),
        within(middle, base),
    ensures
        within(path, base),
{
    let p = parts(path);
    let m = parts(middle);
    let b = parts(base);
    assert(p.subrange(0, b.len() as int) == b) by {
        assert forall|i: int| 0 <= i < b.len() implies p[i] == b[i] by {
            assert(p.subrange(0, m.len() as int)[i] == m[i]);
            assert(m.subrange(0, b.len() as int)[i] == b[i]);
        }
    }
}

/// Whether bytes can name an entry of a directory: no slash, and neither `.` nor `..`.
pub open spec fn is_plain_name(name: Seq<u8>) -> bool {
    is_step(name) && name != seq![DOT, DOT] && !name.contains(SLASH)
}

/// A path after a slash and more: the segments come one after another.
proof fn lemma_segments_after_slash(base: Seq<u8>, tail: Seq<u8>)
    ensures
        segments(base + seq![SLASH] + tail) == segments(base) + segments(tail),
        segments(tail).len() > 0,
    decreases tail.len(),
{
    let whole = base + seq![SLASH] + tail;
    if tail.len() == 0 {
        assert(tail == Seq::<u8>::empty());
        assert(whole == base.push(SLASH));
        assert(whole.drop_last() == base);
        assert(segments(base).push(Seq::empty()) == segments(base) + segments(tail));
    } else {
        let less = tail.drop_last();
        assert(whole.drop_last() == base + seq![SLASH] + less);
        lemma_segments_after_slash(base, less);
        let done = segments(base) + segments(less);
        assert(done.last() == segments(less).last());
        assert(done.drop_last() == segments(base) + segments(less).drop_last());
        assert(whole.last() == tail.last());
        if tail.last() == SLASH {
            assert(done.push(Seq::empty()) == segments(base) + segments(tail));
        } else {
            assert(done.drop_last().push(done.last().push(tail.last())) == segments(base)
                + segments(tail));
        }
    }
}

/// Bytes without a slash are one segment.
proof fn lemma_segments_of_name(name: Seq<u8>)
    requires
        !name.contains(SLASH),
    ensures
        segments(name) == seq![name],
    decreases name.len(),
{
    if name.len() > 0 {
        let less = name.drop_last();
        assert(!less.contains(SLASH)) by {
            if less.contains(SLASH) {
                let i = choose|i: int| 0 <= i < less.len() && less[i] == SLASH;
                assert(name[i] == SLASH);
            }
        }
        lemma_segments_of_name(less);
        assert(name.last() != SLASH) by {
            assert(name[name.len() - 1] == name.last());
        }
        assert(seq![less].drop_last() == Seq::<Seq<u8>>::empty());
        assert(less.push(name.last()) == name);
        assert(segments(name) == seq![name]);
    }
}

/// A plain name below a directory is one component more than the directory.
pub proof fn lemma_join_name(base: Seq<u8>, name: Seq<u8>)
    requires
        base.len() > 0,
        is_plain_name(name),
    ensures
        parts(joined_path(base, name)) == parts(base).push(Part::Name(name)),
        within(joined_path(base, name), base),
{
    assert(!rooted(name)) by {
        if rooted(name) {
            assert(name[0] == SLASH);
        }
    }
    lemma_segments_of_name(name);
    let whole = joined_path(base, name);
    if base.last() != SLASH {
        lemma_segments_after_slash(base, name);
        assert(segments(whole).last() == name);
        assert(segments(whole).drop_last() == segments(base));
    } else {
        let less = base.drop_last();
        assert(whole == less + seq![SLASH] + name);
        lemma_segments_after_slash(less, name);
        assert(segments(whole).last() == name);
        assert(segments(whole).drop_last() == segments(less));
        assert(segments(base) == segments(less).push(Seq::empty()));
        assert(segments(base).drop_last() == segments(less));
        assert(steps(segments(base)) == steps(segments(less)));
    }
    assert(steps(segments(whole)) == steps(segments(base)).push(Part::Name(name)));
    assert(origin(whole) == origin(base)) by {
        assert(whole[0] == base[0]);
        if base.len() == 1 {
            assert(base.last() == base[0]);
            if base[0] != SLASH {
                assert(whole[1] == SLASH);
            }
        } else {
            assert(whole[1] == base[1]);
        }
    }
    assert(parts(whole) == parts(base).push(Part::Name(name)));
    assert(parts(whole).subrange(0, parts(base).len() as int) == parts(base));
}

/// Whether bytes hold no slash.
pub open spec fn slashless(bytes: Seq<u8>) -> bool {
    forall|i: int| 0 <= i < bytes.len() ==> #[trigger] bytes[i] != 47
}

/// One more segment is one more component: the parent for `..`, nothing for `.` and for an empty
/// segment, and a name for any other.
pub proof fn lemma_parts_exactly(base: Seq<u8>, segment: Seq<u8>)
    requires
        base.len() > 0,
        slashless(segment),
    ensures
        parts(base + seq![47u8] + segment) == if segment.len() == 0 || segment == seq![46u8] {
            parts(base)
        } else if segment == seq![46u8, 46u8] {
            parts(base).push(Part::Parent)
        } else {
            parts(base).push(Part::Name(segment))
        },
{
    let whole = base + seq![47u8] + segment;
    assert(!segment.contains(SLASH));
    lemma_segments_after_slash(base, segment);
    lemma_segments_of_name(segment);
    assert(segments(whole).last() == segment);
    assert(segments(whole).drop_last() == segments(base));
    assert(whole[0] == base[0]);
    if base.len() == 1 {
        assert(whole[1] == SLASH);
    } else {
        assert(whole[1] == base[1]);
    }
    assert(origin(whole) == origin(base));
    let more = steps(segments(base));
    assert(is_step(segment) ==> steps(segments(whole)) == more.push(step_of(segment)));
    assert(origin(base) + more.push(step_of(segment)) == (origin(base) + more).push(
        step_of(segment),
    ));
}

/// The components of a path with a single segment, and of the root.
pub proof fn lemma_single_part(segment: Seq<u8>)
    requires
        slashless(segment),
    ensures
        parts(segment) == if segment.len() == 0 {
            Seq::<Part>::empty()
        } else if segment == seq![46u8] {
            seq![Part::Current]
        } else if segment == seq![46u8, 46u8] {
            seq![Part::Parent]
        } else {
            seq![Part::Name(segment)]
        },
        parts(seq![47u8]) == seq![Part::Root],
{
    assert(!segment.contains(SLASH));
    lemma_segments_of_name(segment);
    let none = Seq::<Seq<u8>>::empty();
    assert(seq![segment].drop_last() == none);
    assert(steps(none) == Seq::<Part>::empty());
    assert(steps(seq![segment]) == if is_step(segment) {
        seq![step_of(segment)]
    } else {
        Seq::empty()
    });
    if segment.len() == 1 && segment[0] == 46 {
        assert(segment == seq![46u8]);
    }
    if segment == seq![46u8] {
        assert(segment[0] == DOT);
        assert(parts(segment) == seq![Part::Current]);
    } else if segment.len() > 0 {
        assert(origin(segment) == Seq::<Part>::empty());
        assert(parts(segment) == seq![step_of(segment)]);
    } else {
        assert(parts(segment) == Seq::<Part>::empty());
    }
    let root = seq![47u8];
    let empty = Seq::<u8>::empty();
    assert(root == empty + seq![47u8] + empty);
    assert(empty.push(47u8) == root);
    lemma_segments_after_slash(empty, empty);
    assert(segments(empty) == seq![empty]);
    assert(segments(root) == seq![empty, empty]);
    assert(seq![empty, empty].drop_last() == seq![empty]);
    assert(seq![empty].drop_last() == none);
    assert(steps(seq![empty]) == Seq::<Part>::empty());
    assert(steps(segments(root)) == Seq::<Part>::empty());
    assert(parts(root) == seq![Part::Root]);
}

/// A path is put below another with one slash between them, which the other may end with already;
/// a path from the root stays as it is.
pub proof fn lemma_joined_exactly(base: Seq<u8>, tail: Seq<u8>)
    requires
        base.len() > 0,
    ensures
        tail.len() > 0 && tail[0] == 47 ==> joined_path(base, tail) == tail,
        !(tail.len() > 0 && tail[0] == 47) && base.last() != 47 ==> joined_path(base, tail) == base
            + seq![47u8] + tail,
        !(tail.len() > 0 && tail[0] == 47) && base.last() == 47 ==> joined_path(base, tail) == base
            + tail,
{
}

/// A path starts at the root if its first byte is a slash.
pub proof fn lemma_rooted_exactly(path: Seq<u8>)
    ensures
        rooted(path) <==> path.len() > 0 && path[0] == 47,
{
}

/// Two entries of a directory lie apart, and the directory lies within neither, though the text of
/// one may start with that of the other.
pub proof fn lemma_entries_lie_apart(base: Seq<u8>, a: Seq<u8>, b: Seq<u8>)
    requires
        base.len() > 0,
        is_plain_name(a),
        is_plain_name(b),
        a != b,
    ensures
        !within(joined_path(base, a), joined_path(base, b)),
        !within(base, joined_path(base, b)),
        within(joined_path(base, a), base),
{
    lemma_join_name(base, a);
    lemma_join_name(base, b);
    let p = parts(base).push(Part::Name(a));
    let q = parts(base).push(Part::Name(b));
    let n = parts(base).len() as int;
    if within(joined_path(base, a), joined_path(base, b)) {
        assert(p.subrange(0, q.len() as int)[n] == q[n]);
    }
}

/// A path lies within another if its components start with those of the other.
pub proof fn lemma_within_exactly(path: Seq<u8>, base: Seq<u8>)
    ensures
        within(path, base) <==> parts(base).len() <= parts(path).len() && forall|i: int|
            0 <= i < parts(base).len() ==> #[trigger] parts(base)[i] == parts(path)[i],
{
    let p = parts(path);
    let b = parts(base);
    if b.len() <= p.len() && forall|i: int| 0 <= i < b.len() ==> #[trigger] b[i] == p[i] {
        assert(p.subrange(0, b.len() as int) == b);
    }
    if within(path, base) {
        assert forall|i: int| 0 <= i < b.len() implies #[trigger] b[i] == p[i] by {
            assert(p.subrange(0, b.len() as int)[i] == b[i]);
        }
    }
}

/// A plain name is one that can stand for an entry of a directory and nothing else.
pub proof fn lemma_plain_name_exactly(name: Seq<u8>)
    ensures
        is_plain_name(name) <==> name.len() > 0 && slashless(name) && name != seq![46u8] && name
            != seq![46u8, 46u8],
{
    if is_plain_name(name) {
        assert forall|i: int| 0 <= i < name.len() implies #[trigger] name[i] != 47 by {
            if name[i] == 47 {
                assert(name.contains(SLASH));
            }
        }
    }
}

} // verus!
