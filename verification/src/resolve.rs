//! Following a relative path through the workspace, one component at a time.
use vstd::prelude::*;
use vstd::string::*;

use crate::encoding;
use crate::error::in_context;
use crate::error::Error;
use crate::files::{Answer, Files, Query, Question, Reply};
use crate::path;
use crate::path::{Component, Part};

verus! {

/// Whether a component holds a character that shells expand.
pub open spec fn has_wildcard(name: Seq<u8>) -> bool {
    exists|i: int| 0 <= i < name.len() && is_wildcard(#[trigger] name[i])
}

/// The bytes of `*`, `?` and `[`.
pub open spec fn is_wildcard(b: u8) -> bool {
    b == 42u8 || b == 63u8 || b == 91u8
}

/// Why a path with a wildcard is refused.
pub open spec fn wildcard_refusal() -> Seq<char> {
    "relative glob paths are not supported; write an absolute path if that is intended"@
}

/// Why a path that leaves the workspace is refused.
pub open spec fn outside_refusal(relative: Seq<char>, workspace: Seq<u8>) -> Seq<char> {
    "'"@ + relative + "' resolves outside the workspace '"@ + encoding::shown_text(workspace)
        + "'; write an absolute path if that is intended"@
}

/// What is still to be followed, and where from.
pub struct Walk {
    pub workspace: Seq<u8>,
    pub relative: Seq<char>,
    pub todo: Seq<Part>,
    pub at: Seq<u8>,
}

impl Walk {
    /// The walk with its next component taken, standing at `at`.
    pub open spec fn onward(self, at: Seq<u8>) -> Walk {
        Walk { todo: self.todo.drop_first(), at, ..self }
    }
}

/// Where a walk ends, on the files as they are.
///
/// A name is added to where the walk stands; if something is there, the walk goes on from where
/// that leads. `..` leads to the parent of where the walk really is. After each of these the walk
/// must stand within the workspace.
pub open spec fn resolved(w: Walk, files: Files) -> Result<Seq<u8>, Seq<char>>
    decreases w.todo.len(), 0int,
{
    if w.todo.len() == 0 {
        Ok(w.at)
    } else {
        match w.todo.first() {
            Part::Current => resolved(w.onward(w.at), files),
            Part::Name(name) => if has_wildcard(name) {
                Err(wildcard_refusal())
            } else {
                resolved_at_entry(w.onward(path::joined_path(w.at, name)), files)
            },
            Part::Parent => resolved_at_parent(w.onward(w.at), files),
            Part::Root => Err("expected a relative path"@),
        }
    }
}

/// Where a walk ends that has just added a name.
pub open spec fn resolved_at_entry(w: Walk, files: Files) -> Result<Seq<u8>, Seq<char>>
    decreases w.todo.len(), 3int,
{
    match files(Question::LinkMetadata(w.at)) {
        Answer::Missing(_) => resolved_within(w, files),
        answer => match answer.metadata() {
            Ok(_) => resolved_at_target(w, files),
            Err(t) => Err(in_context("failed to inspect filesystem entry"@, t)),
        },
    }
}

/// Where a walk ends that stands at something that exists.
pub open spec fn resolved_at_target(w: Walk, files: Files) -> Result<Seq<u8>, Seq<char>>
    decreases w.todo.len(), 2int,
{
    match files(Question::Canonicalize(w.at)).path() {
        Ok(p) => resolved_within(Walk { at: p, ..w }, files),
        Err(t) => Err(
            in_context("failed to resolve '"@ + encoding::shown_text(w.at) + "'"@, t),
        ),
    }
}

/// Where a walk ends that has to go up from where it stands.
pub open spec fn resolved_at_parent(w: Walk, files: Files) -> Result<Seq<u8>, Seq<char>>
    decreases w.todo.len(), 2int,
{
    match files(
        Question::Canonicalize(path::joined_path(w.at, seq![path::DOT, path::DOT])),
    ).path() {
        Ok(p) => resolved_within(Walk { at: p, ..w }, files),
        Err(t) => Err(
            in_context("failed to resolve parent traversal in filesystem entry"@, t),
        ),
    }
}

/// Where a walk ends that has arrived somewhere.
pub open spec fn resolved_within(w: Walk, files: Files) -> Result<Seq<u8>, Seq<char>>
    decreases w.todo.len(), 1int,
{
    if path::within(w.at, w.workspace) {
        resolved(w, files)
    } else {
        Err(outside_refusal(w.relative, w.workspace))
    }
}

/// Where a relative path leads, starting in the workspace.
pub open spec fn resolved_relative(
    workspace: Seq<u8>,
    relative: Seq<char>,
    files: Files,
) -> Result<Seq<u8>, Seq<char>> {
    resolved(
        Walk {
            workspace,
            relative,
            todo: path::parts(vstd::utf8::encode_utf8(relative)),
            at: workspace,
        },
        files,
    )
}

/// A relative path never leads out of the workspace: not through `..`, and not through a link.
pub proof fn lemma_resolved_within_workspace(
    workspace: Seq<u8>,
    relative: Seq<char>,
    files: Files,
)
    ensures
        resolved_relative(workspace, relative, files) matches Ok(p) ==> path::within(p, workspace),
{
    path::lemma_within_reflexive(workspace);
    lemma_walk_within(
        Walk {
            workspace,
            relative,
            todo: path::parts(vstd::utf8::encode_utf8(relative)),
            at: workspace,
        },
        files,
    );
}

proof fn lemma_walk_within(w: Walk, files: Files)
    requires
        path::within(w.at, w.workspace),
    ensures
        resolved(w, files) matches Ok(p) ==> path::within(p, w.workspace),
    decreases w.todo.len(), 0int,
{
    if w.todo.len() > 0 {
        match w.todo.first() {
            Part::Current => {
                lemma_walk_within(w.onward(w.at), files);
            },
            Part::Name(name) => {
                let next = w.onward(path::joined_path(w.at, name));
                lemma_arrival(next, files);
                match files(Question::Canonicalize(next.at)).path() {
                    Ok(p) => {
                        lemma_arrival(Walk { at: p, ..next }, files);
                    },
                    Err(_) => {},
                }
                assert(resolved_at_target(next, files) matches Ok(p) ==> path::within(
                    p,
                    w.workspace,
                ));
                assert(resolved_at_entry(next, files) matches Ok(p) ==> path::within(
                    p,
                    w.workspace,
                ));
            },
            Part::Parent => {
                let next = w.onward(w.at);
                match files(
                    Question::Canonicalize(
                        path::joined_path(next.at, seq![path::DOT, path::DOT]),
                    ),
                ).path() {
                    Ok(p) => {
                        lemma_arrival(Walk { at: p, ..next }, files);
                    },
                    Err(_) => {},
                }
                assert(resolved_at_parent(next, files) matches Ok(p) ==> path::within(
                    p,
                    w.workspace,
                ));
            },
            Part::Root => {},
        }
    }
}

proof fn lemma_arrival(w: Walk, files: Files)
    ensures
        resolved_within(w, files) matches Ok(p) ==> path::within(p, w.workspace),
    decreases w.todo.len(), 1int,
{
    if path::within(w.at, w.workspace) {
        lemma_walk_within(w, files);
    }
}

/// What a resolution waits to be told.
#[derive(Clone, Copy)]
pub enum Awaiting {
    /// Whether anything stands at the path reached.
    Entry,
    /// Where the path reached leads.
    Target,
    /// Where the parent of the path reached is.
    Parent,
}

/// A resolution that waits for the file system.
pub struct Pending {
    pub workspace: Vec<u8>,
    pub relative: String,
    pub components: Vec<Component>,
    pub next: usize,
    pub at: Vec<u8>,
    pub awaiting: Awaiting,
}

/// The resolution of a relative path: it asks one question at a time.
pub enum Resolution {
    Settled(Result<Vec<u8>, Error>),
    Waiting(Pending),
}

impl Pending {
    pub open spec fn walk(self) -> Walk {
        Walk {
            workspace: self.workspace@,
            relative: self.relative@,
            todo: self.components.deep_view().skip(self.next as int),
            at: self.at@,
        }
    }

    pub open spec fn wf(self) -> bool {
        self.next <= self.components@.len()
    }

    pub open spec fn question(self) -> Question {
        match self.awaiting {
            Awaiting::Entry => Question::LinkMetadata(self.at@),
            Awaiting::Target => Question::Canonicalize(self.at@),
            Awaiting::Parent => Question::Canonicalize(
                path::joined_path(self.at@, seq![path::DOT, path::DOT]),
            ),
        }
    }

    pub open spec fn ending(self, files: Files) -> Result<Seq<u8>, Seq<char>> {
        match self.awaiting {
            Awaiting::Entry => resolved_at_entry(self.walk(), files),
            Awaiting::Target => resolved_at_target(self.walk(), files),
            Awaiting::Parent => resolved_at_parent(self.walk(), files),
        }
    }
}

impl Resolution {
    pub open spec fn wf(self) -> bool {
        self matches Resolution::Waiting(p) ==> p.wf()
    }

    /// The question that has to be put next, if the resolution is not settled.
    pub open spec fn question(self) -> Option<Question> {
        match self {
            Resolution::Settled(_) => None,
            Resolution::Waiting(p) => Some(p.question()),
        }
    }

    /// How the resolution ends when its questions are answered from `files`.
    pub open spec fn ending(self, files: Files) -> Result<Seq<u8>, Seq<char>> {
        match self {
            Resolution::Settled(Ok(p)) => Ok(p@),
            Resolution::Settled(Err(e)) => Err(e@),
            Resolution::Waiting(p) => p.ending(files),
        }
    }

    /// A bound on the questions that are still to be put.
    pub open spec fn questions_left(self) -> int {
        match self {
            Resolution::Settled(_) => 0,
            Resolution::Waiting(p) => 2 * (p.components@.len() - p.next) + match p.awaiting {
                Awaiting::Entry => 2int,
                Awaiting::Target => 1int,
                Awaiting::Parent => 1int,
            },
        }
    }

    /// Starts to follow `relative` from the workspace.
    pub fn start(workspace: &Vec<u8>, relative: &str) -> (r: Self)
        ensures
            r.wf(),
            forall|files: Files| #[trigger]
                r.ending(files) == resolved_relative(workspace@, relative@, files),
    {
        let components = path::components(&relative.as_bytes_vec());
        assert(components.deep_view().skip(0) == components.deep_view());
        let at = path::slice(workspace, 0, workspace.len());
        let kept = path::slice(workspace, 0, workspace.len());
        assert(at@ == workspace@);
        assert(kept@ == workspace@);
        Self::advance(kept, relative.to_owned(), components, 0, at)
    }

    /// Goes on from `at` until a question has to be put or the walk ends.
    fn advance(
        workspace: Vec<u8>,
        relative: String,
        components: Vec<Component>,
        start: usize,
        at: Vec<u8>,
    ) -> (r: Self)
        requires
            start <= components@.len(),
        ensures
            r.wf(),
            r.questions_left() <= 2 * (components@.len() - start),
            forall|files: Files| #[trigger]
                r.ending(files) == resolved(
                    Walk {
                        workspace: workspace@,
                        relative: relative@,
                        todo: components.deep_view().skip(start as int),
                        at: at@,
                    },
                    files,
                ),
    {
        let ghost all = components.deep_view();
        let ghost from = Walk {
            workspace: workspace@,
            relative: relative@,
            todo: all.skip(start as int),
            at: at@,
        };
        let mut next: usize = start;
        while next < components.len()
            invariant
                start <= next <= components@.len(),
                all == components.deep_view(),
                from.workspace == workspace@,
                from.relative == relative@,
                from.todo == all.skip(start as int),
                from.at == at@,
                forall|files: Files| #[trigger]
                    resolved(from, files) == resolved(
                        Walk { todo: all.skip(next as int), ..from },
                        files,
                    ),
            decreases components@.len() - next,
        {
            let ghost here = Walk { todo: all.skip(next as int), ..from };
            assert(here.todo.drop_first() == all.skip(next + 1));
            assert(here.todo.first() == all[next as int]);
            match &components[next] {
                Component::CurDir => {
                    assert forall|files: Files| #[trigger]
                        resolved(from, files) == resolved(
                            Walk { todo: all.skip(next + 1), ..from },
                            files,
                        ) by {
                        assert(resolved(here, files) == resolved(here.onward(here.at), files));
                    }
                    next = next + 1;
                },
                Component::Normal(name) => {
                    if contains_wildcard(name) {
                        return Resolution::Settled(
                            Err(
                                Error::new(
                                    "relative glob paths are not supported; write an absolute path if that is intended",
                                ),
                            ),
                        );
                    }
                    let reached = path::join(&at, name);
                    return Resolution::Waiting(
                        Pending {
                            workspace,
                            relative,
                            components,
                            next: next + 1,
                            at: reached,
                            awaiting: Awaiting::Entry,
                        },
                    );
                },
                Component::ParentDir => {
                    return Resolution::Waiting(
                        Pending {
                            workspace,
                            relative,
                            components,
                            next: next + 1,
                            at,
                            awaiting: Awaiting::Parent,
                        },
                    );
                },
                Component::RootDir => {
                    return Resolution::Settled(Err(Error::new("expected a relative path")));
                },
            }
        }
        Resolution::Settled(Ok(at))
    }

    /// Goes on from where the walk has arrived, if that is within the workspace.
    fn arrive(p: Pending, at: Vec<u8>) -> (r: Self)
        requires
            p.wf(),
        ensures
            r.wf(),
            r.questions_left() <= 2 * (p.components@.len() - p.next),
            forall|files: Files| #[trigger]
                r.ending(files) == resolved_within(Walk { at: at@, ..p.walk() }, files),
    {
        if path::starts_with(&at, &p.workspace) {
            Self::advance(p.workspace, p.relative, p.components, p.next, at)
        } else {
            let place = encoding::decode_lossy(p.workspace.as_slice());
            Resolution::Settled(
                Err(
                    Error::relating(
                        "'",
                        p.relative.as_str(),
                        "' resolves outside the workspace '",
                        place.as_str(),
                        "'; write an absolute path if that is intended",
                    ),
                ),
            )
        }
    }

    /// The question that has to be put next, if the resolution is not settled.
    pub fn query(&self) -> (r: Option<Query>)
        ensures
            r.deep_view() == self.question(),
    {
        match self {
            Resolution::Settled(_) => None,
            Resolution::Waiting(p) => {
                let at = path::slice(&p.at, 0, p.at.len());
                assert(at@ == p.at@);
                match p.awaiting {
                    Awaiting::Entry => Some(Query::LinkMetadata(at)),
                    Awaiting::Target => Some(Query::Canonicalize(at)),
                    Awaiting::Parent => {
                        let up: Vec<u8> = vec![path::DOT, path::DOT];
                        assert(up@ == seq![path::DOT, path::DOT]);
                        Some(Query::Canonicalize(path::join(&at, &up)))
                    },
                }
            },
        }
    }

    /// Takes the reply to the question. Whatever files it came from, the ending stays the same.
    pub fn step(self, reply: Reply) -> (r: Self)
        requires
            self.wf(),
        ensures
            r.wf(),
            self is Waiting ==> r.questions_left() < self.questions_left(),
            forall|files: Files|
                self.question() matches Some(q) && files(q) == reply.deep_view()
                    ==> #[trigger] r.ending(files) == self.ending(files),
            self is Settled ==> r == self,
    {
        match self {
            Resolution::Settled(_) => self,
            Resolution::Waiting(p) => match p.awaiting {
                Awaiting::Entry => match reply {
                    Reply::Missing(_) => {
                        let at = path::slice(&p.at, 0, p.at.len());
                        assert(at@ == p.at@);
                        Self::arrive(p, at)
                    },
                    other => match other.into_metadata() {
                        Ok(_) => Resolution::Waiting(
                            Pending { awaiting: Awaiting::Target, ..p },
                        ),
                        Err(t) => Resolution::Settled(
                            Err(
                                Error::new(t.as_str()).context(
                                    "failed to inspect filesystem entry",
                                ),
                            ),
                        ),
                    },
                },
                Awaiting::Target => match reply.into_path() {
                    Ok(at) => Self::arrive(p, at),
                    Err(t) => {
                        let mut attempt = "failed to resolve '".to_owned();
                        attempt.append(encoding::decode_lossy(p.at.as_slice()).as_str());
                        attempt.append("'");
                        Resolution::Settled(
                            Err(Error::new(t.as_str()).context(attempt.as_str())),
                        )
                    },
                },
                Awaiting::Parent => match reply.into_path() {
                    Ok(at) => Self::arrive(p, at),
                    Err(t) => Resolution::Settled(
                        Err(
                            Error::new(t.as_str()).context(
                                "failed to resolve parent traversal in filesystem entry",
                            ),
                        ),
                    ),
                },
            },
        }
    }
}

/// Whether a component holds a character that shells expand.
fn contains_wildcard(name: &Vec<u8>) -> (r: bool)
    ensures
        r == has_wildcard(name@),
{
    let mut i: usize = 0;
    while i < name.len()
        invariant
            i <= name@.len(),
            forall|j: int| 0 <= j < i ==> !is_wildcard(#[trigger] name@[j]),
        decreases name@.len() - i,
    {
        if name[i] == 42u8 || name[i] == 63u8 || name[i] == 91u8 {
            assert(is_wildcard(name@[i as int]));
            return true;
        }
        i = i + 1;
    }
    false
}

/// Whether a canonical path leads to itself, and a path at which nothing stands leads nowhere, as
/// on any file system that does not change meanwhile.
pub open spec fn steady(files: Files) -> bool {
    &&& forall|p: Seq<u8>|
        (#[trigger] files(Question::Canonicalize(p))).path() matches Ok(q) ==> leads_to_itself(
            q,
            files,
        )
    &&& forall|p: Seq<u8>|
        (#[trigger] files(Question::LinkMetadata(p))) is Missing ==> files(
            Question::Canonicalize(p),
        ).path() is Err
}

/// Whether a path is canonical.
pub open spec fn leads_to_itself(p: Seq<u8>, files: Files) -> bool {
    files(Question::Canonicalize(p)).path() == Ok::<Seq<u8>, Seq<char>>(p)
}

/// Whether a path leads nowhere else: to itself, or nowhere at all.
pub open spec fn leads_nowhere_else(p: Seq<u8>, files: Files) -> bool {
    files(Question::Canonicalize(p)).path() matches Ok(q) ==> q == p
}

/// Where a relative path leads from a canonical workspace leads nowhere else.
pub proof fn lemma_resolved_is_final(workspace: Seq<u8>, relative: Seq<char>, files: Files)
    requires
        steady(files),
        leads_to_itself(workspace, files),
    ensures
        resolved_relative(workspace, relative, files) matches Ok(p) ==> leads_nowhere_else(
            p,
            files,
        ),
{
    lemma_walk_is_final(
        Walk {
            workspace,
            relative,
            todo: path::parts(vstd::utf8::encode_utf8(relative)),
            at: workspace,
        },
        files,
    );
}

proof fn lemma_walk_is_final(w: Walk, files: Files)
    requires
        steady(files),
        leads_nowhere_else(w.at, files),
    ensures
        resolved(w, files) matches Ok(p) ==> leads_nowhere_else(p, files),
    decreases w.todo.len(),
{
    if w.todo.len() > 0 {
        match w.todo.first() {
            Part::Current => {
                lemma_walk_is_final(w.onward(w.at), files);
            },
            Part::Name(name) => {
                let next = w.onward(path::joined_path(w.at, name));
                if files(Question::LinkMetadata(next.at)) is Missing {
                    lemma_walk_is_final(next, files);
                    assert(resolved_within(next, files) matches Ok(p) ==> leads_nowhere_else(
                        p,
                        files,
                    ));
                } else if let Ok(q) = files(Question::Canonicalize(next.at)).path() {
                    let there = Walk { at: q, ..next };
                    assert(leads_to_itself(q, files));
                    lemma_walk_is_final(there, files);
                    assert(resolved_within(there, files) matches Ok(p) ==> leads_nowhere_else(
                        p,
                        files,
                    ));
                }
                assert(resolved_at_target(next, files) is Ok ==> files(
                    Question::Canonicalize(next.at),
                ).path() is Ok);
                assert(resolved_at_entry(next, files) matches Ok(p) ==> leads_nowhere_else(
                    p,
                    files,
                ));
            },
            Part::Parent => {
                let next = w.onward(w.at);
                let up = path::joined_path(next.at, seq![path::DOT, path::DOT]);
                if let Ok(q) = files(Question::Canonicalize(up)).path() {
                    let there = Walk { at: q, ..next };
                    assert(leads_to_itself(q, files));
                    lemma_walk_is_final(there, files);
                    assert(resolved_within(there, files) matches Ok(p) ==> leads_nowhere_else(
                        p,
                        files,
                    ));
                }
                assert(resolved_at_parent(next, files) matches Ok(p) ==> leads_nowhere_else(
                    p,
                    files,
                ));
            },
            Part::Root => {},
        }
    }
}

/// Whether a name holds `*`, `?` or `[`.
pub open spec fn holds_wildcard(name: Seq<u8>) -> bool {
    name.contains(42u8) || name.contains(63u8) || name.contains(91u8)
}

/// How a walk goes on from a place that it has reached: with the components that are left, if the
/// place lies within the workspace.
pub open spec fn goes_on(w: Walk, at: Seq<u8>, files: Files, end: Result<Seq<u8>, Seq<char>>) -> bool {
    if path::within(at, w.workspace) {
        end == resolved(Walk { todo: w.todo.drop_first(), at, ..w }, files)
    } else {
        end is Err
    }
}

/// A relative path is followed from the workspace, one component after another. A name at which
/// nothing stands is just added; where something stands, the walk goes on from where that really
/// is; `..` leads up from where the walk really is. A wildcard, a path from the root, and a place
/// of which the file system cannot tell end the walk with a failure.
pub proof fn lemma_walk_exactly(w: Walk, files: Files)
    ensures
        w.todo.len() == 0 ==> resolved(w, files) == Ok::<Seq<u8>, Seq<char>>(w.at),
        w.todo.len() > 0 ==> match w.todo[0] {
            Part::Root => resolved(w, files) is Err,
            Part::Current => resolved(w, files) == resolved(
                Walk { todo: w.todo.drop_first(), ..w },
                files,
            ),
            Part::Name(name) => {
                let reached = path::joined_path(w.at, name);
                if holds_wildcard(name) {
                    resolved(w, files) is Err
                } else {
                    match (
                        files(Question::LinkMetadata(reached)),
                        files(Question::Canonicalize(reached)),
                    ) {
                        (Answer::Missing(_), _) => goes_on(w, reached, files, resolved(w, files)),
                        (Answer::Metadata(_, _), Answer::Path(p)) => goes_on(
                            w,
                            p,
                            files,
                            resolved(w, files),
                        ),
                        _ => resolved(w, files) is Err,
                    }
                }
            },
            Part::Parent => match files(
                Question::Canonicalize(path::joined_path(w.at, seq![46u8, 46u8])),
            ) {
                Answer::Path(p) => goes_on(w, p, files, resolved(w, files)),
                _ => resolved(w, files) is Err,
            },
        },
{
    if w.todo.len() > 0 {
        assert(w.todo.first() == w.todo[0]);
        match w.todo[0] {
            Part::Name(name) => {
                lemma_wildcards_exactly(name);
                let next = w.onward(path::joined_path(w.at, name));
                if let Answer::Path(p) = files(Question::Canonicalize(next.at)) {
                    assert(resolved_at_target(next, files) == resolved_within(
                        Walk { at: p, ..next },
                        files,
                    ));
                    assert(resolved_within(Walk { at: p, ..next }, files) is Ok ==> path::within(
                        p,
                        w.workspace,
                    ));
                } else {
                    assert(resolved_at_target(next, files) is Err);
                }
                assert(!has_wildcard(name) ==> resolved(w, files) == resolved_at_entry(
                    next,
                    files,
                ));
                assert(goes_on(w, next.at, files, resolved_within(next, files)));
            },
            Part::Parent => {
                let next = w.onward(w.at);
                assert(resolved(w, files) == resolved_at_parent(next, files));
                assert(seq![46u8, 46u8] == seq![path::DOT, path::DOT]);
                if let Answer::Path(p) = files(
                    Question::Canonicalize(path::joined_path(w.at, seq![46u8, 46u8])),
                ) {
                    assert(resolved_at_parent(next, files) == resolved_within(
                        Walk { at: p, ..next },
                        files,
                    ));
                }
            },
            _ => {},
        }
    }
}

/// A walk starts in the workspace with all components of the path.
pub proof fn lemma_walk_starts(workspace: Seq<u8>, relative: Seq<char>, files: Files)
    ensures
        resolved_relative(workspace, relative, files) == resolved(
            Walk {
                workspace,
                relative,
                todo: path::parts(vstd::utf8::encode_utf8(relative)),
                at: workspace,
            },
            files,
        ),
{
}

/// A plain name at which nothing stands leads to its place in the workspace, and one at which
/// something stands leads to where that is, if that is in the workspace.
pub proof fn lemma_name_in_workspace(workspace: Seq<u8>, name: Seq<char>, files: Files)
    requires
        workspace.len() > 0,
        path::is_plain_name(vstd::utf8::encode_utf8(name)),
        !holds_wildcard(vstd::utf8::encode_utf8(name)),
    ensures
        ({
            let place = path::joined_path(workspace, vstd::utf8::encode_utf8(name));
            match (files(Question::LinkMetadata(place)), files(Question::Canonicalize(place))) {
                (Answer::Missing(_), _) => resolved_relative(workspace, name, files) == Ok::<
                    Seq<u8>,
                    Seq<char>,
                >(place),
                (Answer::Metadata(_, _), Answer::Path(p)) => if path::within(p, workspace) {
                    resolved_relative(workspace, name, files) == Ok::<Seq<u8>, Seq<char>>(p)
                } else {
                    resolved_relative(workspace, name, files) is Err
                },
                _ => resolved_relative(workspace, name, files) is Err,
            }
        }),
{
    let bytes = vstd::utf8::encode_utf8(name);
    path::lemma_plain_name_exactly(bytes);
    path::lemma_single_part(bytes);
    path::lemma_join_name(workspace, bytes);
    let place = path::joined_path(workspace, bytes);
    let w = Walk { workspace, relative: name, todo: path::parts(bytes), at: workspace };
    assert(w.todo == seq![Part::Name(bytes)]);
    lemma_walk_exactly(w, files);
    lemma_walk_exactly(Walk { todo: w.todo.drop_first(), at: place, ..w }, files);
    if let Answer::Path(p) = files(Question::Canonicalize(place)) {
        lemma_walk_exactly(Walk { todo: w.todo.drop_first(), at: p, ..w }, files);
    }
}

/// What is told when a walk is refused at its next component: a wildcard, a place outside the
/// workspace, or what the file system says.
pub proof fn lemma_walk_refusals(w: Walk, files: Files)
    requires
        w.todo.len() > 0,
    ensures
        ({
            let outside = "'"@ + w.relative + "' resolves outside the workspace '"@
                + encoding::shown_text(w.workspace)
                + "'; write an absolute path if that is intended"@;
            match w.todo[0] {
                Part::Root => resolved(w, files) == Err::<Seq<u8>, Seq<char>>(
                    "expected a relative path"@,
                ),
                Part::Current => true,
                Part::Name(name) => {
                    let reached = path::joined_path(w.at, name);
                    if holds_wildcard(name) {
                        resolved(w, files) == Err::<Seq<u8>, Seq<char>>(
                            "relative glob paths are not supported; write an absolute path if that is intended"@,
                        )
                    } else {
                        match (
                            files(Question::LinkMetadata(reached)),
                            files(Question::Canonicalize(reached)),
                        ) {
                            (Answer::Missing(_), _) => !path::within(reached, w.workspace)
                                ==> resolved(w, files) == Err::<Seq<u8>, Seq<char>>(outside),
                            (Answer::Metadata(_, _), Answer::Path(p)) => !path::within(
                                p,
                                w.workspace,
                            ) ==> resolved(w, files) == Err::<Seq<u8>, Seq<char>>(outside),
                            (Answer::Metadata(_, _), answer) => answer.path() matches Err(why)
                                && resolved(w, files) == Err::<Seq<u8>, Seq<char>>(
                                "failed to resolve '"@ + encoding::shown_text(reached) + "'"@
                                    + ": "@ + why,
                            ),
                            (answer, _) => answer.metadata() matches Err(why) && resolved(w, files)
                                == Err::<Seq<u8>, Seq<char>>(
                                "failed to inspect filesystem entry"@ + ": "@ + why,
                            ),
                        }
                    }
                },
                Part::Parent => match files(
                    Question::Canonicalize(path::joined_path(w.at, seq![46u8, 46u8])),
                ) {
                    Answer::Path(p) => !path::within(p, w.workspace) ==> resolved(w, files) == Err::<
                        Seq<u8>,
                        Seq<char>,
                    >(outside),
                    answer => answer.path() matches Err(why) && resolved(w, files) == Err::<
                        Seq<u8>,
                        Seq<char>,
                    >("failed to resolve parent traversal in filesystem entry"@ + ": "@ + why),
                },
            }
        }),
{
    assert(w.todo.first() == w.todo[0]);
    match w.todo[0] {
        Part::Name(name) => {
            lemma_wildcards_exactly(name);
            let next = w.onward(path::joined_path(w.at, name));
            assert(!has_wildcard(name) ==> resolved(w, files) == resolved_at_entry(next, files));
            assert(!path::within(next.at, w.workspace) ==> resolved_within(next, files) is Err);
            if let Answer::Path(p) = files(Question::Canonicalize(next.at)) {
                let there = Walk { at: p, ..next };
                assert(resolved_at_target(next, files) == resolved_within(there, files));
                assert(!path::within(p, w.workspace) ==> resolved_within(there, files) == Err::<
                    Seq<u8>,
                    Seq<char>,
                >(outside_refusal(w.relative, w.workspace)));
            } else {
                assert(resolved_at_target(next, files) is Err);
            }
        },
        Part::Parent => {
            let next = w.onward(w.at);
            assert(resolved(w, files) == resolved_at_parent(next, files));
            assert(seq![46u8, 46u8] == seq![path::DOT, path::DOT]);
            if let Answer::Path(p) = files(
                Question::Canonicalize(path::joined_path(w.at, seq![46u8, 46u8])),
            ) {
                let there = Walk { at: p, ..next };
                assert(resolved_at_parent(next, files) == resolved_within(there, files));
                assert(!path::within(p, w.workspace) ==> resolved_within(there, files) == Err::<
                    Seq<u8>,
                    Seq<char>,
                >(outside_refusal(w.relative, w.workspace)));
            }
        },
        _ => {},
    }
}

proof fn lemma_wildcards_exactly(name: Seq<u8>)
    ensures
        has_wildcard(name) == holds_wildcard(name),
{
    if has_wildcard(name) {
        let i = choose|i: int| 0 <= i < name.len() && is_wildcard(#[trigger] name[i]);
        assert(name.contains(name[i]));
    }
    if holds_wildcard(name) {
        let i = choose|i: int|
            0 <= i < name.len() && (name[i] == 42u8 || name[i] == 63u8 || name[i] == 91u8);
        assert(is_wildcard(name[i]));
    }
}

} // verus!
