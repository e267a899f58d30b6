//! Text as sequences of characters: trimming, splitting, searching and joining.
use vstd::prelude::*;
use vstd::string::*;

verus! {

/// The characters with the Unicode property `White_Space`.
pub open spec fn is_space(c: char) -> bool {
    ||| '\u{9}' <= c <= '\u{d}'
    ||| c == ' '
    ||| c == '\u{85}'
    ||| c == '\u{a0}'
    ||| c == '\u{1680}'
    ||| '\u{2000}' <= c <= '\u{200a}'
    ||| c == '\u{2028}'
    ||| c == '\u{2029}'
    ||| c == '\u{202f}'
    ||| c == '\u{205f}'
    ||| c == '\u{3000}'
}

/// Whether `c` is white space.
pub fn is_whitespace(c: char) -> (r: bool)
    ensures
        r == is_space(c),
{
    ('\u{9}' <= c && c <= '\u{d}') || c == ' ' || c == '\u{85}' || c == '\u{a0}' || c == '\u{1680}'
        || ('\u{2000}' <= c && c <= '\u{200a}') || c == '\u{2028}' || c == '\u{2029}' || c
        == '\u{202f}' || c == '\u{205f}' || c == '\u{3000}'
}

/// `s` without its leading white space.
pub open spec fn trimmed_start(s: Seq<char>) -> Seq<char>
    decreases s.len(),
{
    if s.len() > 0 && is_space(s.first()) {
        trimmed_start(s.drop_first())
    } else {
        s
    }
}

/// `s` without its trailing white space.
pub open spec fn trimmed_end(s: Seq<char>) -> Seq<char>
    decreases s.len(),
{
    if s.len() > 0 && is_space(s.last()) {
        trimmed_end(s.drop_last())
    } else {
        s
    }
}

/// `s` without the white space around it.
pub open spec fn trimmed(s: Seq<char>) -> Seq<char> {
    trimmed_end(trimmed_start(s))
}

/// The characters of `s`, for access by position.
pub fn chars_of(s: &str) -> (r: Vec<char>)
    ensures
        r@ == s@,
{
    let mut out: Vec<char> = Vec::new();
    for c in it: s.chars()
        invariant
            out@ == it.seq().take(it.index() as int),
            it.seq() == s@,
    {
        out.push(c);
    }
    assert(s@.take(s@.len() as int) == s@);
    out
}

/// The part of `s` between its first and last characters that are not white space.
pub fn trim<'a>(s: &'a str) -> (r: &'a str)
    ensures
        r@ == trimmed(s@),
{
    let chars = chars_of(s);
    let n: usize = chars.len();
    let mut start: usize = 0;
    assert(s@.skip(0) == s@);
    while start < n && is_whitespace(chars[start])
        invariant
            start <= n,
            n == chars@.len(),
            chars@ == s@,
            trimmed_start(s@) == trimmed_start(s@.skip(start as int)),
        decreases n - start,
    {
        assert(s@.skip(start as int).drop_first() == s@.skip(start + 1));
        start = start + 1;
    }
    let mut end: usize = n;
    let ghost rest = s@.skip(start as int);
    assert(trimmed_start(s@) == rest);
    assert(rest.take(end - start) == rest);
    while end > start && is_whitespace(chars[end - 1])
        invariant
            start <= end <= n,
            n == chars@.len(),
            chars@ == s@,
            rest == s@.skip(start as int),
            trimmed_end(rest) == trimmed_end(rest.take(end - start)),
        decreases end - start,
    {
        assert(rest.take(end - start).drop_last() == rest.take(end - start - 1));
        end = end - 1;
    }
    assert(s@.subrange(start as int, end as int) == rest.take(end - start));
    s.substring_char(start, end)
}

/// Trimming leaves no white space at either end, so that trimming again changes nothing.
pub proof fn lemma_trimmed(s: Seq<char>)
    ensures
        trimmed(s).len() > 0 ==> !is_space(trimmed(s).first()) && !is_space(trimmed(s).last()),
        trimmed(trimmed(s)) == trimmed(s),
{
    lemma_trimmed_start(s);
    lemma_trimmed_end(trimmed_start(s));
}

proof fn lemma_trimmed_start(s: Seq<char>)
    ensures
        trimmed_start(s).len() > 0 ==> !is_space(trimmed_start(s).first()),
    decreases s.len(),
{
    if s.len() > 0 && is_space(s.first()) {
        lemma_trimmed_start(s.drop_first());
    }
}

proof fn lemma_trimmed_end(s: Seq<char>)
    ensures
        trimmed_end(s).len() > 0 ==> !is_space(trimmed_end(s).last()) && trimmed_end(s).first()
            == s.first(),
    decreases s.len(),
{
    if s.len() > 0 && is_space(s.last()) {
        lemma_trimmed_end(s.drop_last());
    }
}

/// Trimming adds no character.
pub proof fn lemma_trimmed_within(s: Seq<char>, c: char)
    ensures
        trimmed(s).contains(c) ==> s.contains(c),
{
    lemma_trimmed_start_within(s, c);
    lemma_trimmed_end_within(trimmed_start(s), c);
}

proof fn lemma_trimmed_start_within(s: Seq<char>, c: char)
    ensures
        trimmed_start(s).contains(c) ==> s.contains(c),
    decreases s.len(),
{
    if s.len() > 0 && is_space(s.first()) {
        lemma_trimmed_start_within(s.drop_first(), c);
        if s.drop_first().contains(c) {
            let i = choose|i: int| 0 <= i < s.len() - 1 && s.drop_first()[i] == c;
            assert(s[i + 1] == c);
        }
    }
}

proof fn lemma_trimmed_end_within(s: Seq<char>, c: char)
    ensures
        trimmed_end(s).contains(c) ==> s.contains(c),
    decreases s.len(),
{
    if s.len() > 0 && is_space(s.last()) {
        lemma_trimmed_end_within(s.drop_last(), c);
        if s.drop_last().contains(c) {
            let i = choose|i: int| 0 <= i < s.len() - 1 && s.drop_last()[i] == c;
            assert(s[i] == c);
        }
    }
}

/// Whether two texts hold the same characters.
pub fn same(a: &str, b: &str) -> (r: bool)
    ensures
        r == (a@ == b@),
{
    a.to_owned() == b.to_owned()
}

/// Whether a text is among some texts.
pub fn is_among(text: &str, texts: &Vec<String>) -> (r: bool)
    ensures
        r == texts.deep_view().contains(text@),
{
    let ghost all = texts.deep_view();
    let mut i: usize = 0;
    while i < texts.len()
        invariant
            i <= texts@.len(),
            all == texts.deep_view(),
            forall|j: int| 0 <= j < i ==> #[trigger] all[j] != text@,
        decreases texts@.len() - i,
    {
        assert(all[i as int] == texts@[i as int]@);
        if same(texts[i].as_str(), text) {
            return true;
        }
        i = i + 1;
    }
    false
}

/// The same texts once more.
pub fn copy_all(texts: &Vec<String>) -> (r: Vec<String>)
    ensures
        r.deep_view() == texts.deep_view(),
{
    let mut out: Vec<String> = Vec::new();
    let mut i: usize = 0;
    while i < texts.len()
        invariant
            i <= texts@.len(),
            out.deep_view() == texts.deep_view().take(i as int),
        decreases texts@.len() - i,
    {
        let ghost done = out.deep_view();
        out.push(texts[i].clone());
        assert(out.deep_view() == done.push(texts@[i as int]@));
        i = i + 1;
    }
    out
}

/// The same text once more, if there is one.
pub fn copy_optional(text: &Option<String>) -> (r: Option<String>)
    ensures
        r.deep_view() == text.deep_view(),
{
    match text {
        Some(t) => Some(t.clone()),
        None => None,
    }
}

/// What a text can be cut at.
#[derive(Clone, Copy)]
pub enum Separator {
    /// One given character.
    Char(char),
    /// A carriage return or a line feed.
    LineBreak,
    /// Any white space.
    Whitespace,
}

impl Separator {
    pub open spec fn separates(self, c: char) -> bool {
        match self {
            Separator::Char(x) => c == x,
            Separator::LineBreak => c == '\r' || c == '\n',
            Separator::Whitespace => is_space(c),
        }
    }

    /// Whether a text is cut at `c`.
    pub fn is_at(&self, c: char) -> (r: bool)
        ensures
            r == self.separates(c),
    {
        match self {
            Separator::Char(x) => c == *x,
            Separator::LineBreak => c == '\r' || c == '\n',
            Separator::Whitespace => is_whitespace(c),
        }
    }
}

/// The pieces of `s` between its separators: one more than there are separators.
pub open spec fn pieces(s: Seq<char>, sep: Separator) -> Seq<Seq<char>>
    decreases s.len(),
{
    if s.len() == 0 {
        seq![s]
    } else {
        let done = pieces(s.drop_last(), sep);
        if sep.separates(s.last()) {
            done.push(Seq::empty())
        } else {
            done.drop_last().push(done.last().push(s.last()))
        }
    }
}

/// The pieces of `s` between its separators.
pub fn split(s: &str, sep: Separator) -> (r: Vec<String>)
    ensures
        r.deep_view() == pieces(s@, sep),
{
    let chars = chars_of(s);
    let n: usize = chars.len();
    let mut out: Vec<String> = Vec::new();
    let mut start: usize = 0;
    let mut i: usize = 0;
    assert(s@.take(0) == Seq::<char>::empty());
    assert(out.deep_view().push(s@.subrange(0, 0)) == pieces(s@.take(0), sep));
    while i < n
        invariant
            start <= i <= n,
            n == chars@.len(),
            chars@ == s@,
            out.deep_view().push(s@.subrange(start as int, i as int)) == pieces(
                s@.take(i as int),
                sep,
            ),
        decreases n - i,
    {
        let ghost done = out.deep_view();
        let ghost piece = s@.subrange(start as int, i as int);
        assert(s@.take(i + 1).drop_last() == s@.take(i as int));
        if sep.is_at(chars[i]) {
            let part = s.substring_char(start, i).to_owned();
            out.push(part);
            assert(out.deep_view() == done.push(piece));
            start = i + 1;
            assert(s@.subrange(start as int, i + 1) == Seq::<char>::empty());
        } else {
            assert(done.push(piece).drop_last() == done);
            assert(s@.subrange(start as int, i + 1) == piece.push(s@[i as int]));
        }
        i = i + 1;
    }
    assert(s@.take(n as int) == s@);
    let ghost done = out.deep_view();
    let part = s.substring_char(start, n).to_owned();
    out.push(part);
    assert(out.deep_view() == done.push(s@.subrange(start as int, n as int)));
    out
}

/// Where the first separator in `s` stands: the length of `s` if there is none.
pub open spec fn position(s: Seq<char>, sep: Separator) -> int
    decreases s.len(),
{
    if s.len() == 0 || sep.separates(s.first()) {
        0
    } else {
        1 + position(s.drop_first(), sep)
    }
}

/// Where the first separator in `s` stands, in characters.
pub fn find(s: &str, sep: Separator) -> (r: usize)
    ensures
        r == position(s@, sep),
        r <= s@.len(),
{
    let chars = chars_of(s);
    let n: usize = chars.len();
    let mut i: usize = 0;
    assert(s@.skip(0) == s@);
    while i < n && !sep.is_at(chars[i])
        invariant
            i <= n,
            n == chars@.len(),
            chars@ == s@,
            position(s@, sep) == i + position(s@.skip(i as int), sep),
        decreases n - i,
    {
        assert(s@.skip(i as int).drop_first() == s@.skip(i + 1));
        i = i + 1;
    }
    i
}

/// `position` marks the first separator and nothing before it.
pub proof fn lemma_position(s: Seq<char>, sep: Separator)
    ensures
        0 <= position(s, sep) <= s.len(),
        forall|i: int| 0 <= i < position(s, sep) ==> !sep.separates(#[trigger] s[i]),
        position(s, sep) < s.len() ==> sep.separates(s[position(s, sep)]),
    decreases s.len(),
{
    if s.len() > 0 && !sep.separates(s.first()) {
        let rest = s.drop_first();
        lemma_position(rest, sep);
        assert forall|i: int| 0 <= i < position(s, sep) implies !sep.separates(
            #[trigger] s[i],
        ) by {
            if i > 0 {
                assert(rest[i - 1] == s[i]);
            }
        }
    }
}

/// The part of `s` before its first separator: all of `s` if there is none.
pub open spec fn before(s: Seq<char>, sep: Separator) -> Seq<char> {
    s.take(position(s, sep))
}

/// The part of `s` after its first separator: nothing if there is none.
pub open spec fn after(s: Seq<char>, sep: Separator) -> Seq<char> {
    if position(s, sep) < s.len() {
        s.skip(position(s, sep) + 1)
    } else {
        Seq::empty()
    }
}

/// The part of `s` before its first separator.
pub fn text_before<'a>(s: &'a str, sep: Separator) -> (r: &'a str)
    ensures
        r@ == before(s@, sep),
{
    let at: usize = find(s, sep);
    s.substring_char(0, at)
}

/// The part of `s` after its first separator.
pub fn text_after<'a>(s: &'a str, sep: Separator) -> (r: &'a str)
    ensures
        r@ == after(s@, sep),
{
    let at: usize = find(s, sep);
    let n: usize = s.unicode_len();
    if at < n {
        s.substring_char(at + 1, n)
    } else {
        s.substring_char(n, n)
    }
}

/// No separator is left in any of the pieces.
pub proof fn lemma_pieces_hold_no_separator(s: Seq<char>, sep: Separator)
    ensures
        forall|i: int, j: int|
            0 <= i < pieces(s, sep).len() && 0 <= j < pieces(s, sep)[i].len()
                ==> !sep.separates(#[trigger] pieces(s, sep)[i][j]),
        pieces(s, sep).len() > 0,
    decreases s.len(),
{
    if s.len() > 0 {
        let done = pieces(s.drop_last(), sep);
        let all = pieces(s, sep);
        lemma_pieces_hold_no_separator(s.drop_last(), sep);
        assert forall|i: int, j: int|
            0 <= i < all.len() && 0 <= j < all[i].len() implies !sep.separates(
            #[trigger] all[i][j],
        ) by {
            if i < done.len() - 1 || sep.separates(s.last()) {
                if i < done.len() {
                    assert(all[i] == done[i]);
                    assert(!sep.separates(done[i][j]));
                }
            } else {
                assert(all[i] == done.last().push(s.last()));
                if j < done.last().len() {
                    assert(all[i][j] == done[done.len() - 1][j]);
                }
            }
        }
    }
}

/// The first piece of `s` stands before its first separator, and the others are those of the rest.
pub proof fn lemma_pieces_front(s: Seq<char>, sep: Separator)
    ensures
        pieces(s, sep) == if position(s, sep) < s.len() {
            seq![before(s, sep)] + pieces(after(s, sep), sep)
        } else {
            seq![s]
        },
        pieces(s, sep).len() > 0,
    decreases s.len(),
{
    lemma_position(s, sep);
    if s.len() > 0 {
        let t = s.drop_last();
        let at = position(s, sep);
        lemma_pieces_front(t, sep);
        lemma_position(t, sep);
        if at < t.len() {
            assert(!sep.separates(t[position(t, sep)]) || position(t, sep) == at) by {
                if position(t, sep) < at {
                    assert(!sep.separates(s[position(t, sep)]));
                } else if position(t, sep) > at {
                    assert(!sep.separates(t[at]));
                }
            }
            assert(sep.separates(t[at]));
            assert(position(t, sep) == at);
            let rest = after(s, sep);
            lemma_pieces_front(rest, sep);
            assert(before(t, sep) == before(s, sep));
            assert(rest.drop_last() == after(t, sep));
            assert(rest.last() == s.last());
            let head = seq![before(s, sep)];
            let tail = pieces(after(t, sep), sep);
            lemma_pieces_front(after(t, sep), sep);
            assert(pieces(t, sep) == head + tail);
            if sep.separates(s.last()) {
                assert(pieces(s, sep) == head + tail.push(Seq::empty()));
            } else {
                assert((head + tail).drop_last() == head + tail.drop_last());
                assert(pieces(s, sep) == head + tail.drop_last().push(tail.last().push(s.last())));
            }
        } else {
            if position(t, sep) < t.len() {
                assert(t[position(t, sep)] == s[position(t, sep)]);
            }
            assert(pieces(t, sep) == seq![t]);
            if at < s.len() {
                assert(before(s, sep) == t);
                assert(after(s, sep) == Seq::<char>::empty());
                assert(pieces(Seq::<char>::empty(), sep) == seq![Seq::<char>::empty()]);
                assert(pieces(s, sep) == seq![t] + seq![Seq::<char>::empty()]);
            } else {
                assert(!sep.separates(s.last()));
                assert(t.push(s.last()) == s);
                assert(pieces(s, sep) == seq![s]);
            }
        }
    }
}

/// The part of `s` after the last `c` in it: all of `s` if there is none.
pub open spec fn after_last(s: Seq<char>, c: char) -> Seq<char>
    decreases s.len(),
{
    if s.len() == 0 || s.last() == c {
        Seq::empty()
    } else {
        after_last(s.drop_last(), c).push(s.last())
    }
}

/// The part of `s` after the last `c` in it.
pub fn text_after_last<'a>(s: &'a str, c: char) -> (r: &'a str)
    ensures
        r@ == after_last(s@, c),
{
    let chars = chars_of(s);
    let n: usize = chars.len();
    let mut i: usize = n;
    assert(after_last(s@.take(n as int), c) + s@.skip(n as int) == after_last(s@, c)) by {
        assert(s@.take(n as int) == s@);
        assert(s@.skip(n as int) == Seq::<char>::empty());
    }
    while i > 0 && chars[i - 1] != c
        invariant
            i <= n,
            n == chars@.len(),
            chars@ == s@,
            after_last(s@.take(i as int), c) + s@.skip(i as int) == after_last(s@, c),
        decreases i,
    {
        let ghost head = s@.take(i as int);
        assert(head.drop_last() == s@.take(i - 1));
        assert(after_last(head, c) == after_last(s@.take(i - 1), c).push(s@[i - 1]));
        assert(s@.skip(i - 1) == seq![s@[i - 1]] + s@.skip(i as int));
        i = i - 1;
        assert(after_last(s@.take(i as int), c) + s@.skip(i as int) == after_last(s@, c));
    }
    assert(s@.skip(i as int) == s@.subrange(i as int, n as int));
    assert(after_last(s@, c) == s@.skip(i as int));
    s.substring_char(i, n)
}

/// `s` without the run of `c` at its end.
pub open spec fn without_trailing(s: Seq<char>, c: char) -> Seq<char>
    decreases s.len(),
{
    if s.len() > 0 && s.last() == c {
        without_trailing(s.drop_last(), c)
    } else {
        s
    }
}

/// `s` without the run of `c` at its end.
pub fn trim_trailing<'a>(s: &'a str, c: char) -> (r: &'a str)
    ensures
        r@ == without_trailing(s@, c),
{
    let chars = chars_of(s);
    let mut end: usize = chars.len();
    assert(s@.take(end as int) == s@);
    while end > 0 && chars[end - 1] == c
        invariant
            end <= chars@.len(),
            chars@ == s@,
            without_trailing(s@, c) == without_trailing(s@.take(end as int), c),
        decreases end,
    {
        assert(s@.take(end as int).drop_last() == s@.take(end - 1));
        end = end - 1;
    }
    assert(s@.take(end as int) == s@.subrange(0, end as int));
    s.substring_char(0, end)
}

/// Whether `c` occurs in `s`.
pub fn contains_char(s: &str, c: char) -> (r: bool)
    ensures
        r == s@.contains(c),
{
    let at: usize = find(s, Separator::Char(c));
    proof {
        lemma_position(s@, Separator::Char(c));
        if at < s@.len() {
            assert(s@[at as int] == c);
        } else {
            assert forall|i: int| 0 <= i < s@.len() implies s@[i] != c by {
                assert(!Separator::Char(c).separates(s@[i]));
            }
        }
    }
    at < s.unicode_len()
}

/// Whether `s` starts with `prefix`.
pub fn starts_with(s: &str, prefix: &str) -> (r: bool)
    ensures
        r == prefix@.is_prefix_of(s@),
{
    let n: usize = prefix.unicode_len();
    if n > s.unicode_len() {
        return false;
    }
    let head = s.substring_char(0, n);
    assert(s@.subrange(0, n as int) == s@.take(n as int));
    if same(head, prefix) {
        true
    } else {
        assert(!prefix@.is_prefix_of(s@)) by {
            if prefix@.is_prefix_of(s@) {
                assert(s@.take(n as int) == prefix@);
            }
        }
        false
    }
}

/// What follows `prefix` at the start of `s`, if it stands there.
pub fn strip_prefix<'a>(s: &'a str, prefix: &str) -> (r: Option<&'a str>)
    ensures
        r is Some <==> prefix@.is_prefix_of(s@),
        r matches Some(rest) ==> rest@ == s@.skip(prefix@.len() as int),
{
    if starts_with(s, prefix) {
        let n: usize = prefix.unicode_len();
        let m: usize = s.unicode_len();
        assert(s@.subrange(n as int, m as int) == s@.skip(n as int));
        Some(s.substring_char(n, m))
    } else {
        None
    }
}

/// Whether `a` and then `b` stand side by side somewhere in `s`.
pub open spec fn has_pair(s: Seq<char>, a: char, b: char) -> bool {
    exists|i: int| 0 <= i < s.len() - 1 && #[trigger] s[i] == a && s[i + 1] == b
}

/// Whether `a` and then `b` stand side by side somewhere in `s`.
pub fn contains_pair(s: &str, a: char, b: char) -> (r: bool)
    ensures
        r == has_pair(s@, a, b),
{
    let chars = chars_of(s);
    let n: usize = chars.len();
    let mut i: usize = 0;
    while i < n
        invariant
            i <= n,
            n == chars@.len(),
            chars@ == s@,
            forall|j: int| 0 <= j < i && j < n - 1 ==> !(#[trigger] s@[j] == a && s@[j + 1] == b),
        decreases n - i,
    {
        if i + 1 < n && chars[i] == a && chars[i + 1] == b {
            assert(s@[i as int] == a && s@[i + 1] == b);
            return true;
        }
        i = i + 1;
    }
    false
}

/// The parts one after another, with `sep` between them.
pub open spec fn joined(parts: Seq<Seq<char>>, sep: Seq<char>) -> Seq<char>
    decreases parts.len(),
{
    if parts.len() == 0 {
        Seq::empty()
    } else if parts.len() == 1 {
        parts[0]
    } else {
        joined(parts.drop_last(), sep) + sep + parts.last()
    }
}

/// The parts one after another, with `sep` between them.
pub fn join(parts: &Vec<String>, sep: &str) -> (r: String)
    ensures
        r@ == joined(parts.deep_view(), sep@),
{
    let mut out = String::new();
    let n: usize = parts.len();
    let mut i: usize = 0;
    let ghost all = parts.deep_view();
    assert(all.take(0) == Seq::<Seq<char>>::empty());
    while i < n
        invariant
            i <= n,
            n == parts@.len(),
            all == parts.deep_view(),
            out@ == joined(all.take(i as int), sep@),
        decreases n - i,
    {
        assert(all.take(i + 1).drop_last() == all.take(i as int));
        assert(all.take(i + 1).last() == parts@[i as int]@);
        if i > 0 {
            out.append(sep);
        }
        out.append(parts[i].as_str());
        assert(out@ == joined(all.take(i + 1), sep@));
        i = i + 1;
    }
    assert(all.take(n as int) == all);
    out
}

/// The character for a decimal digit.
pub open spec fn digit(d: int) -> Seq<char> {
    if d == 0 {
        "0"@
    } else if d == 1 {
        "1"@
    } else if d == 2 {
        "2"@
    } else if d == 3 {
        "3"@
    } else if d == 4 {
        "4"@
    } else if d == 5 {
        "5"@
    } else if d == 6 {
        "6"@
    } else if d == 7 {
        "7"@
    } else if d == 8 {
        "8"@
    } else {
        "9"@
    }
}

/// `n` in decimal notation.
pub open spec fn decimal(n: nat) -> Seq<char>
    decreases n,
{
    if n < 10 {
        digit(n as int)
    } else {
        decimal(n / 10) + digit((n % 10) as int)
    }
}

/// `n` in decimal notation.
pub fn to_decimal(n: u64) -> (r: String)
    ensures
        r@ == decimal(n as nat),
    decreases n,
{
    let d: u64 = n % 10;
    let last = if d == 0 {
        "0"
    } else if d == 1 {
        "1"
    } else if d == 2 {
        "2"
    } else if d == 3 {
        "3"
    } else if d == 4 {
        "4"
    } else if d == 5 {
        "5"
    } else if d == 6 {
        "6"
    } else if d == 7 {
        "7"
    } else if d == 8 {
        "8"
    } else {
        "9"
    };
    if n < 10 {
        last.to_owned()
    } else {
        let mut out = to_decimal(n / 10);
        out.append(last);
        out
    }
}

/// The characters that count as white space, by their code points.
pub proof fn lemma_space_characters(c: char)
    ensures
        is_space(c) <==> {
            let n = c as u32;
            ||| 9 <= n <= 13
            ||| n == 32
            ||| n == 133
            ||| n == 160
            ||| n == 5760
            ||| 8192 <= n <= 8202
            ||| n == 8232
            ||| n == 8233
            ||| n == 8239
            ||| n == 8287
            ||| n == 12288
        },
{
}

/// What each separator cuts at.
pub proof fn lemma_separators(x: char, c: char)
    ensures
        Separator::Char(x).separates(c) <==> c == x,
        Separator::LineBreak.separates(c) <==> c as u32 == 10 || c as u32 == 13,
        Separator::Whitespace.separates(c) <==> is_space(c),
{
}

/// Whether all characters of a text are white space.
pub open spec fn all_space(s: Seq<char>) -> bool {
    forall|i: int| 0 <= i < s.len() ==> is_space(#[trigger] s[i])
}

/// White space around a text is all that trimming takes away.
pub proof fn lemma_trimmed_exactly(left: Seq<char>, core: Seq<char>, right: Seq<char>)
    requires
        all_space(left),
        all_space(right),
        core.len() > 0 ==> !is_space(core.first()) && !is_space(core.last()),
    ensures
        trimmed(left + core + right) == core,
{
    lemma_start_exactly(left, core + right);
    assert(left + core + right == left + (core + right));
    if core.len() == 0 {
        assert(core + right == right);
        lemma_start_exactly(right, core);
        assert(right + core == right);
        assert(trimmed_start(right) == core);
        lemma_start_exactly(left + right, core);
        assert(left + right + core == left + core + right);
    } else {
        assert((core + right).first() == core.first());
        assert(trimmed_start(core + right) == core + right);
        lemma_end_exactly(core, right);
    }
}

proof fn lemma_start_exactly(left: Seq<char>, rest: Seq<char>)
    requires
        all_space(left),
    ensures
        trimmed_start(left + rest) == trimmed_start(rest),
    decreases left.len(),
{
    let whole = left + rest;
    if left.len() > 0 {
        let less = left.drop_first();
        assert(whole.first() == left[0]);
        assert(whole.drop_first() == less + rest);
        assert forall|i: int| 0 <= i < less.len() implies is_space(#[trigger] less[i]) by {
            assert(less[i] == left[i + 1]);
        }
        lemma_start_exactly(less, rest);
    } else {
        assert(whole == rest);
    }
}

proof fn lemma_end_exactly(core: Seq<char>, right: Seq<char>)
    requires
        all_space(right),
        core.len() > 0,
        !is_space(core.last()),
    ensures
        trimmed_end(core + right) == core,
    decreases right.len(),
{
    let whole = core + right;
    if right.len() > 0 {
        let less = right.drop_last();
        assert(whole.last() == right[right.len() - 1]);
        assert(whole.drop_last() == core + less);
        assert forall|i: int| 0 <= i < less.len() implies is_space(#[trigger] less[i]) by {
            assert(less[i] == right[i]);
        }
        lemma_end_exactly(core, less);
    } else {
        assert(whole == core);
    }
}

/// Whether a text holds nothing that it would be cut at.
pub open spec fn uncut(s: Seq<char>, sep: Separator) -> bool {
    forall|i: int| 0 <= i < s.len() ==> !sep.separates(#[trigger] s[i])
}

/// A text is cut at each separator and nowhere else, and nothing but separators gets lost.
pub proof fn lemma_pieces_exactly(a: Seq<char>, c: char, b: Seq<char>, sep: Separator)
    requires
        sep.separates(c),
    ensures
        pieces(a + seq![c] + b, sep) == pieces(a, sep) + pieces(b, sep),
        uncut(a, sep) ==> pieces(a, sep) == seq![a],
    decreases b.len(),
{
    if uncut(a, sep) {
        lemma_pieces_uncut(a, sep);
    }
    let whole = a + seq![c] + b;
    if b.len() == 0 {
        assert(b == Seq::<char>::empty());
        assert(whole == a.push(c));
        assert(whole.drop_last() == a);
        assert(pieces(b, sep) == seq![b]);
        assert(pieces(a, sep).push(Seq::empty()) == pieces(a, sep) + pieces(b, sep));
    } else {
        let less = b.drop_last();
        lemma_pieces_exactly(a, c, less, sep);
        lemma_pieces_hold_no_separator(less, sep);
        assert(whole.drop_last() == a + seq![c] + less);
        assert(whole.last() == b.last());
        let done = pieces(a, sep) + pieces(less, sep);
        assert(done.last() == pieces(less, sep).last());
        assert(done.drop_last() == pieces(a, sep) + pieces(less, sep).drop_last());
        if sep.separates(b.last()) {
            assert(done.push(Seq::empty()) == pieces(a, sep) + pieces(b, sep));
        } else {
            assert(done.drop_last().push(done.last().push(b.last())) == pieces(a, sep) + pieces(
                b,
                sep,
            ));
        }
    }
}

proof fn lemma_pieces_uncut(s: Seq<char>, sep: Separator)
    requires
        uncut(s, sep),
    ensures
        pieces(s, sep) == seq![s],
    decreases s.len(),
{
    if s.len() > 0 {
        let less = s.drop_last();
        assert forall|i: int| 0 <= i < less.len() implies !sep.separates(#[trigger] less[i]) by {
            assert(less[i] == s[i]);
        }
        lemma_pieces_uncut(less, sep);
        assert(s.last() == s[s.len() - 1]);
        assert(seq![less].drop_last() == Seq::<Seq<char>>::empty());
        assert(less.push(s.last()) == s);
        assert(pieces(s, sep) == seq![s]);
    }
}

/// The first separator parts what comes before it from what comes after it; without one, all of a
/// text comes before.
pub proof fn lemma_cut_exactly(a: Seq<char>, c: char, b: Seq<char>, sep: Separator)
    requires
        uncut(a, sep),
        sep.separates(c),
    ensures
        before(a + seq![c] + b, sep) == a,
        after(a + seq![c] + b, sep) == b,
        before(a, sep) == a,
        after(a, sep) == Seq::<char>::empty(),
{
    let whole = a + seq![c] + b;
    lemma_position(whole, sep);
    lemma_position(a, sep);
    let at = position(whole, sep);
    assert(whole[a.len() as int] == c);
    assert(at == a.len()) by {
        if at < a.len() {
            assert(whole[at] == a[at]);
        } else if at > a.len() {
            assert(!sep.separates(whole[a.len() as int]));
        }
    }
    assert(whole.take(at) == a);
    assert(whole.skip(at + 1) == b);
    assert(position(a, sep) == a.len());
    assert(a.take(a.len() as int) == a);
}

/// What stands after the last occurrence of a character holds it no more; without one, that is all
/// of the text.
pub proof fn lemma_after_last_exactly(a: Seq<char>, c: char, b: Seq<char>)
    requires
        !b.contains(c),
    ensures
        after_last(a + seq![c] + b, c) == b,
        after_last(b, c) == b,
    decreases b.len(),
{
    let whole = a + seq![c] + b;
    if b.len() == 0 {
        assert(whole.last() == c);
        assert(b == Seq::<char>::empty());
    } else {
        let less = b.drop_last();
        assert(b[b.len() - 1] == b.last());
        assert(b.last() != c);
        assert(!less.contains(c)) by {
            if less.contains(c) {
                let i = choose|i: int| 0 <= i < less.len() && less[i] == c;
                assert(b[i] == c);
            }
        }
        lemma_after_last_exactly(a, c, less);
        assert(whole.drop_last() == a + seq![c] + less);
        assert(whole.last() == b.last());
        assert(less.push(b.last()) == b);
    }
}

/// Just the run of a character at the end of a text is dropped.
pub proof fn lemma_without_trailing_exactly(s: Seq<char>, c: char, run: Seq<char>)
    requires
        s.len() > 0 ==> s.last() != c,
        forall|i: int| 0 <= i < run.len() ==> #[trigger] run[i] == c,
    ensures
        without_trailing(s + run, c) == s,
    decreases run.len(),
{
    let whole = s + run;
    if run.len() > 0 {
        let less = run.drop_last();
        assert(whole.last() == run[run.len() - 1]);
        assert(whole.drop_last() == s + less);
        assert forall|i: int| 0 <= i < less.len() implies #[trigger] less[i] == c by {
            assert(less[i] == run[i]);
        }
        lemma_without_trailing_exactly(s, c, less);
    } else {
        assert(whole == s);
    }
}

/// What is left without a run of a character is the start of the text, does not end with the
/// character, and only the character stood behind it.
pub proof fn lemma_without_trailing(s: Seq<char>, c: char)
    ensures
        without_trailing(s, c).is_prefix_of(s),
        without_trailing(s, c).len() > 0 ==> without_trailing(s, c).last() != c,
        forall|i: int| without_trailing(s, c).len() <= i < s.len() ==> #[trigger] s[i] == c,
    decreases s.len(),
{
    let kept = without_trailing(s, c);
    if s.len() > 0 && s.last() == c {
        let less = s.drop_last();
        lemma_without_trailing(less, c);
        assert(less.take(kept.len() as int) == s.take(kept.len() as int));
        assert forall|i: int| kept.len() <= i < s.len() implies #[trigger] s[i] == c by {
            if i < less.len() {
                assert(less[i] == s[i]);
            }
        }
    } else {
        assert(s.take(s.len() as int) == s);
    }
}

/// Two characters stand side by side where the text of the two occurs.
pub proof fn lemma_pair_exactly(s: Seq<char>, a: char, b: char)
    ensures
        has_pair(s, a, b) <==> exists|i: int|
            0 <= i <= s.len() - 2 && #[trigger] s.subrange(i, i + 2) == seq![a, b],
{
    if has_pair(s, a, b) {
        let i = choose|i: int| 0 <= i < s.len() - 1 && #[trigger] s[i] == a && s[i + 1] == b;
        assert(s.subrange(i, i + 2) == seq![a, b]);
    }
    if exists|i: int| 0 <= i <= s.len() - 2 && #[trigger] s.subrange(i, i + 2) == seq![a, b] {
        let i = choose|i: int|
            0 <= i <= s.len() - 2 && #[trigger] s.subrange(i, i + 2) == seq![a, b];
        assert(s.subrange(i, i + 2)[0] == a);
        assert(s.subrange(i, i + 2)[1] == b);
        assert(s[i] == a && s[i + 1] == b);
    }
}

/// Parts are joined in their order with one separator between two of them, and none at the ends.
pub proof fn lemma_joined_exactly(a: Seq<Seq<char>>, b: Seq<Seq<char>>, sep: Seq<char>)
    requires
        a.len() > 0,
        b.len() > 0,
    ensures
        joined(a + b, sep) == joined(a, sep) + sep + joined(b, sep),
        a.len() == 1 ==> joined(a, sep) == a[0],
    decreases b.len(),
{
    let whole = a + b;
    assert(whole.last() == b.last());
    if b.len() == 1 {
        assert(whole.drop_last() == a);
        assert(b.last() == b[0]);
    } else {
        let less = b.drop_last();
        lemma_joined_exactly(a, less, sep);
        assert(whole.drop_last() == a + less);
        assert(joined(a, sep) + sep + joined(less, sep) + sep + b.last() == joined(a, sep) + sep + (
        joined(less, sep) + sep + b.last()));
    }
}

/// The number that decimal digits stand for.
pub open spec fn read_decimal(digits: Seq<char>) -> int
    decreases digits.len(),
{
    if digits.len() == 0 {
        0
    } else {
        10 * read_decimal(digits.drop_last()) + (digits.last() as int - '0' as int)
    }
}

/// Decimal notation is made of digits, has no needless zero in front, and stands for the number.
pub proof fn lemma_decimal_exactly(n: nat)
    ensures
        read_decimal(decimal(n)) == n,
        decimal(n).len() > 0,
        decimal(n).len() > 1 ==> decimal(n)[0] != '0',
        forall|i: int| 0 <= i < decimal(n).len() ==> '0' <= #[trigger] decimal(n)[i] <= '9',
    decreases n,
{
    reveal_strlit("0");
    reveal_strlit("1");
    reveal_strlit("2");
    reveal_strlit("3");
    reveal_strlit("4");
    reveal_strlit("5");
    reveal_strlit("6");
    reveal_strlit("7");
    reveal_strlit("8");
    reveal_strlit("9");
    let d = (n % 10) as int;
    let last = digit(d);
    assert(last.len() == 1);
    assert(last[0] as int - '0' as int == d);
    assert(decimal(n).last() == last[0]);
    if n < 10 {
        assert(decimal(n).drop_last() == Seq::<char>::empty());
        assert(read_decimal(Seq::<char>::empty()) == 0);
    } else {
        lemma_decimal_exactly(n / 10);
        assert(decimal(n).drop_last() == decimal(n / 10));
        assert(decimal(n)[0] == decimal(n / 10)[0]);
        assert(decimal(n / 10) != "0"@) by {
            if decimal(n / 10) == "0"@ {
                assert("0"@.drop_last() == Seq::<char>::empty());
                assert(read_decimal(Seq::<char>::empty()) == 0);
                assert(read_decimal("0"@) == 0);
            }
        }
        if decimal(n / 10).len() == 1 && decimal(n / 10)[0] == '0' {
            assert(decimal(n / 10) == "0"@);
        }
        assert forall|i: int| 0 <= i < decimal(n).len() implies '0' <= #[trigger] decimal(n)[i]
            <= '9' by {
            if i < decimal(n / 10).len() {
                assert(decimal(n)[i] == decimal(n / 10)[i]);
            }
        }
    }
}

/// A text is what trimming leaves of it, with nothing but white space around that.
pub proof fn lemma_trimmed_parts(s: Seq<char>) -> (around: (Seq<char>, Seq<char>))
    ensures
        s == around.0 + trimmed(s) + around.1,
        all_space(around.0),
        all_space(around.1),
{
    let left = lemma_start_parts(s);
    let right = lemma_end_parts(trimmed_start(s));
    assert(left + trimmed_start(s) == left + trimmed(s) + right);
    (left, right)
}

proof fn lemma_start_parts(s: Seq<char>) -> (left: Seq<char>)
    ensures
        s == left + trimmed_start(s),
        all_space(left),
    decreases s.len(),
{
    if s.len() > 0 && is_space(s.first()) {
        let less = lemma_start_parts(s.drop_first());
        let left = seq![s.first()] + less;
        assert(s == left + trimmed_start(s)) by {
            assert(s == seq![s.first()] + s.drop_first());
            assert(seq![s.first()] + (less + trimmed_start(s)) == left + trimmed_start(s));
        }
        left
    } else {
        assert(s == Seq::<char>::empty() + s);
        Seq::empty()
    }
}

proof fn lemma_end_parts(s: Seq<char>) -> (right: Seq<char>)
    ensures
        s == trimmed_end(s) + right,
        all_space(right),
    decreases s.len(),
{
    if s.len() > 0 && is_space(s.last()) {
        let less = lemma_end_parts(s.drop_last());
        let right = less.push(s.last());
        assert(s == trimmed_end(s) + right) by {
            assert(s == s.drop_last().push(s.last()));
            assert((trimmed_end(s) + less).push(s.last()) == trimmed_end(s) + right);
        }
        right
    } else {
        assert(s == s + Seq::<char>::empty());
        Seq::empty()
    }
}

} // verus!
