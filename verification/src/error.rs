//! Failures, told as text.
use vstd::prelude::*;
use vstd::string::*;

verus! {

/// Why an operation was refused or did not succeed.
#[derive(Debug)]
pub struct Error {
    pub message: String,
}

impl View for Error {
    type V = Seq<char>;

    open spec fn view(&self) -> Seq<char> {
        self.message@
    }
}

impl Error {
    /// A failure with a fixed message.
    pub fn new(message: &str) -> (r: Self)
        ensures
            r@ == message@,
    {
        Error { message: message.to_owned() }
    }

    /// A failure whose message names one subject.
    pub fn about(before: &str, subject: &str, after: &str) -> (r: Self)
        ensures
            r@ == before@ + subject@ + after@,
    {
        let mut message = before.to_owned();
        message.append(subject);
        message.append(after);
        Error { message }
    }

    /// A failure whose message names two subjects.
    pub fn relating(before: &str, first: &str, between: &str, second: &str, after: &str) -> (r: Self)
        ensures
            r@ == before@ + first@ + between@ + second@ + after@,
    {
        let mut message = before.to_owned();
        message.append(first);
        message.append(between);
        message.append(second);
        message.append(after);
        Error { message }
    }

    /// A failure whose message names a subject and ends with what is to be said of it.
    pub fn saying(before: &str, subject: &str, between: &str, end: &str) -> (r: Self)
        ensures
            r@ == before@ + subject@ + between@ + end@,
    {
        let mut message = before.to_owned();
        message.append(subject);
        message.append(between);
        message.append(end);
        Error { message }
    }

    /// The same failure, told after what was being attempted.
    pub fn context(self, attempt: &str) -> (r: Self)
        ensures
            r@ == in_context(attempt@, self@),
    {
        let mut message = attempt.to_owned();
        message.append(": ");
        message.append(self.message.as_str());
        Error { message }
    }

    /// The same failure, with more at its end.
    pub fn extended(self, more: &str) -> (r: Self)
        ensures
            r@ == self@ + more@,
    {
        let mut message = self.message;
        message.append(more);
        Error { message }
    }

    /// The text of the failure.
    pub fn message(&self) -> (r: &str)
        ensures
            r@ == self@,
    {
        self.message.as_str()
    }
}

/// A cause told after what was being attempted.
pub open spec fn in_context(attempt: Seq<char>, cause: Seq<char>) -> Seq<char> {
    attempt + ": "@ + cause
}

/// A result as a mathematical value: what was obtained, or the text of the failure.
pub open spec fn outcome<T: DeepView>(r: Result<T, Error>) -> Result<T::V, Seq<char>> {
    match r {
        Ok(v) => Ok(v.deep_view()),
        Err(e) => Err(e@),
    }
}

/// What a rule that may fail makes of each item in turn: all its results, or its first failure.
pub open spec fn try_all<A, B>(
    items: Seq<A>,
    rule: spec_fn(A) -> Result<B, Seq<char>>,
) -> Result<Seq<B>, Seq<char>>
    decreases items.len(),
{
    if items.len() == 0 {
        Ok(Seq::empty())
    } else {
        match try_all(items.drop_last(), rule) {
            Err(e) => Err(e),
            Ok(done) => match rule(items.last()) {
                Err(e) => Err(e),
                Ok(b) => Ok(done.push(b)),
            },
        }
    }
}

/// A failure on the first items is the failure on all of them.
pub proof fn lemma_try_all_fails<A, B>(
    items: Seq<A>,
    rule: spec_fn(A) -> Result<B, Seq<char>>,
    n: int,
)
    requires
        0 <= n <= items.len(),
        try_all(items.take(n), rule) is Err,
    ensures
        try_all(items, rule) == try_all(items.take(n), rule),
    decreases items.len() - n,
{
    if n < items.len() {
        assert(items.take(n + 1).drop_last() == items.take(n));
        lemma_try_all_fails(items, rule, n + 1);
    } else {
        assert(items.take(n) == items);
    }
}

/// One more item is treated after those before it.
pub proof fn lemma_try_all_next<A, B>(
    items: Seq<A>,
    rule: spec_fn(A) -> Result<B, Seq<char>>,
    n: int,
)
    requires
        0 <= n < items.len(),
    ensures
        try_all(items.take(n + 1), rule) == match try_all(items.take(n), rule) {
            Err(e) => Err(e),
            Ok(done) => match rule(items[n]) {
                Err(e) => Err(e),
                Ok(b) => Ok(done.push(b)),
            },
        },
        rule(items[n]) is Err && try_all(items.take(n), rule) is Ok ==> try_all(items, rule)
            == Err::<Seq<B>, Seq<char>>(rule(items[n])->Err_0),
{
    assert(items.take(n + 1).drop_last() == items.take(n));
    if rule(items[n]) is Err && try_all(items.take(n), rule) is Ok {
        lemma_try_all_fails(items, rule, n + 1);
    }
}

/// Where every item succeeds, there is one result for each, at its place.
pub proof fn lemma_try_all_results<A, B>(items: Seq<A>, rule: spec_fn(A) -> Result<B, Seq<char>>)
    ensures
        try_all(items, rule) matches Ok(done) ==> done.len() == items.len() && forall|i: int|
            0 <= i < items.len() ==> rule(#[trigger] items[i]) == Ok::<B, Seq<char>>(done[i]),
    decreases items.len(),
{
    if items.len() > 0 {
        lemma_try_all_results(items.drop_last(), rule);
        if let Ok(done) = try_all(items, rule) {
            assert forall|i: int| 0 <= i < items.len() implies rule(#[trigger] items[i]) == Ok::<
                B,
                Seq<char>,
            >(done[i]) by {
                if i < items.len() - 1 {
                    assert(items.drop_last()[i] == items[i]);
                }
            }
        }
    }
}

/// Where a rule fails on no item, it yields a result for each; where it fails, the failure told is
/// that of the first item on which it does.
pub proof fn lemma_try_all_exactly<A, B>(items: Seq<A>, rule: spec_fn(A) -> Result<B, Seq<char>>)
    ensures
        try_all(items, rule) is Ok <==> forall|i: int|
            0 <= i < items.len() ==> rule(#[trigger] items[i]) is Ok,
        try_all(items, rule) matches Err(e) ==> exists|i: int|
            0 <= i < items.len() && rule(#[trigger] items[i]) == Err::<B, Seq<char>>(e) && forall|
                j: int,
            |
                0 <= j < i ==> rule(#[trigger] items[j]) is Ok,
    decreases items.len(),
{
    if items.len() > 0 {
        let rest = items.drop_last();
        lemma_try_all_exactly(rest, rule);
        let last = items.len() - 1;
        assert(items[last] == items.last());
        match try_all(rest, rule) {
            Err(e) => {
                let i = choose|i: int|
                    0 <= i < rest.len() && rule(#[trigger] rest[i]) == Err::<B, Seq<char>>(e)
                        && forall|j: int| 0 <= j < i ==> rule(#[trigger] rest[j]) is Ok;
                assert(items[i] == rest[i]);
                assert forall|j: int| 0 <= j < i implies rule(#[trigger] items[j]) is Ok by {
                    assert(items[j] == rest[j]);
                }
            },
            Ok(_) => {
                assert forall|j: int| 0 <= j < last implies rule(#[trigger] items[j]) is Ok by {
                    assert(items[j] == rest[j]);
                }
            },
        }
    }
}

} // verus!
