//! Questions to the file system and its replies.
use vstd::prelude::*;

verus! {

/// A question to the file system. None of them changes anything there.
pub enum Query {
    /// The absolute path that a path leads to, with every link followed.
    Canonicalize(Vec<u8>),
    /// What a path leads to.
    Metadata(Vec<u8>),
    /// What stands at a path, a link not being followed.
    LinkMetadata(Vec<u8>),
    /// The text of a file.
    ReadText(Vec<u8>),
}

/// A question to the file system, as a mathematical value.
pub enum Question {
    Canonicalize(Seq<u8>),
    Metadata(Seq<u8>),
    LinkMetadata(Seq<u8>),
    ReadText(Seq<u8>),
}

impl DeepView for Query {
    type V = Question;

    open spec fn deep_view(&self) -> Question {
        match self {
            Query::Canonicalize(p) => Question::Canonicalize(p@),
            Query::Metadata(p) => Question::Metadata(p@),
            Query::LinkMetadata(p) => Question::LinkMetadata(p@),
            Query::ReadText(p) => Question::ReadText(p@),
        }
    }
}

/// What can stand at a path.
#[derive(Clone, Copy, PartialEq, Eq, Structural, Debug)]
pub enum FileKind {
    File,
    Directory,
    Other,
}

/// What the file system says. A text beside `Missing` or `Failed` is its own explanation.
pub enum Reply {
    Path(Vec<u8>),
    Metadata(FileKind, u64),
    Text(String),
    /// Nothing stands at the path.
    Missing(String),
    Failed(String),
}

/// What the file system says, as a mathematical value.
pub enum Answer {
    Path(Seq<u8>),
    Metadata(FileKind, u64),
    Text(Seq<char>),
    Missing(Seq<char>),
    Failed(Seq<char>),
}

impl DeepView for Reply {
    type V = Answer;

    open spec fn deep_view(&self) -> Answer {
        match self {
            Reply::Path(p) => Answer::Path(p@),
            Reply::Metadata(kind, len) => Answer::Metadata(*kind, *len),
            Reply::Text(t) => Answer::Text(t@),
            Reply::Missing(t) => Answer::Missing(t@),
            Reply::Failed(t) => Answer::Failed(t@),
        }
    }
}

/// A file system that stays as it is: what it answers to each question.
pub type Files = spec_fn(Question) -> Answer;

/// The explanation given when a reply does not fit the question.
pub open spec fn unfit() -> Seq<char> {
    "the reply does not fit the question"@
}

impl Answer {
    /// The path in an answer, or why there is none.
    pub open spec fn path(self) -> Result<Seq<u8>, Seq<char>> {
        match self {
            Answer::Path(p) => Ok(p),
            Answer::Missing(t) => Err(t),
            Answer::Failed(t) => Err(t),
            _ => Err(unfit()),
        }
    }

    /// The kind and size in an answer, or why there are none.
    pub open spec fn metadata(self) -> Result<(FileKind, u64), Seq<char>> {
        match self {
            Answer::Metadata(kind, len) => Ok((kind, len)),
            Answer::Missing(t) => Err(t),
            Answer::Failed(t) => Err(t),
            _ => Err(unfit()),
        }
    }

    /// The text in an answer, or why there is none.
    pub open spec fn text(self) -> Result<Seq<char>, Seq<char>> {
        match self {
            Answer::Text(t) => Ok(t),
            Answer::Missing(t) => Err(t),
            Answer::Failed(t) => Err(t),
            _ => Err(unfit()),
        }
    }
}

impl Reply {
    /// The path in a reply, or why there is none.
    pub fn into_path(self) -> (r: Result<Vec<u8>, String>)
        ensures
            match r {
                Ok(p) => self.deep_view().path() == Ok::<Seq<u8>, Seq<char>>(p@),
                Err(t) => self.deep_view().path() == Err::<Seq<u8>, Seq<char>>(t@),
            },
    {
        match self {
            Reply::Path(p) => Ok(p),
            Reply::Missing(t) => Err(t),
            Reply::Failed(t) => Err(t),
            _ => Err("the reply does not fit the question".to_owned()),
        }
    }

    /// The kind and size in a reply, or why there are none.
    pub fn into_metadata(self) -> (r: Result<(FileKind, u64), String>)
        ensures
            match r {
                Ok(m) => self.deep_view().metadata() == Ok::<(FileKind, u64), Seq<char>>(m),
                Err(t) => self.deep_view().metadata() == Err::<(FileKind, u64), Seq<char>>(t@),
            },
    {
        match self {
            Reply::Metadata(kind, len) => Ok((kind, len)),
            Reply::Missing(t) => Err(t),
            Reply::Failed(t) => Err(t),
            _ => Err("the reply does not fit the question".to_owned()),
        }
    }

    /// The text in a reply, or why there is none.
    pub fn into_text(self) -> (r: Result<String, String>)
        ensures
            match r {
                Ok(p) => self.deep_view().text() == Ok::<Seq<char>, Seq<char>>(p@),
                Err(t) => self.deep_view().text() == Err::<Seq<char>, Seq<char>>(t@),
            },
    {
        match self {
            Reply::Text(t) => Ok(t),
            Reply::Missing(t) => Err(t),
            Reply::Failed(t) => Err(t),
            _ => Err("the reply does not fit the question".to_owned()),
        }
    }
}

/// The model of a question asks the same, and that of a reply says the same.
pub proof fn lemma_models_are_faithful(query: Query, reply: Reply)
    ensures
        query matches Query::Canonicalize(p) ==> query.deep_view() == Question::Canonicalize(p@),
        query matches Query::Metadata(p) ==> query.deep_view() == Question::Metadata(p@),
        query matches Query::LinkMetadata(p) ==> query.deep_view() == Question::LinkMetadata(p@),
        query matches Query::ReadText(p) ==> query.deep_view() == Question::ReadText(p@),
        reply matches Reply::Path(p) ==> reply.deep_view() == Answer::Path(p@),
        reply matches Reply::Metadata(kind, len) ==> reply.deep_view() == Answer::Metadata(
            kind,
            len,
        ),
        reply matches Reply::Text(t) ==> reply.deep_view() == Answer::Text(t@),
        reply matches Reply::Missing(t) ==> reply.deep_view() == Answer::Missing(t@),
        reply matches Reply::Failed(t) ==> reply.deep_view() == Answer::Failed(t@),
{
}

} // verus!
