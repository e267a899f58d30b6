//! Checking the entries of a profile against the workspace and the file system.
use vstd::prelude::*;
use vstd::string::*;
use vstd::utf8::{decode_utf8, decode_utf8_encode_utf8, encode_utf8, valid_utf8};

use crate::config::{
    domain_of, each_domain, is_mode_name, lemma_domains_exactly, validate_domain_allowlist,
};
use crate::encoding;
use crate::encoding::shown_text;
use crate::error::{in_context, lemma_try_all_results, outcome, try_all, Error};
use crate::files::{Answer, FileKind, Files, Query, Question, Reply};
use crate::path;
use crate::repo_profile::{
    BaseProfile, Filesystem, FilesystemModel, Meta, MetaModel, Network, NetworkModel,
    ProfileModel, BASE_NAME,
};
use crate::resolve::{
    leads_to_itself, lemma_resolved_is_final, lemma_resolved_within_workspace, resolved_relative,
    steady, Resolution,
};
use crate::text;
use crate::text::{has_pair, lemma_pair_exactly, trimmed};

verus! {

/// The lists of paths in a profile.
#[derive(Clone, Copy, PartialEq, Eq, Structural)]
pub enum PathField {
    Read,
    Write,
    ReadFile,
    WriteFile,
    Deny,
}

impl PathField {
    pub open spec fn key(self) -> Seq<char> {
        match self {
            PathField::Read => "read"@,
            PathField::Write => "write"@,
            PathField::ReadFile => "read_file"@,
            PathField::WriteFile => "write_file"@,
            PathField::Deny => "deny"@,
        }
    }

    /// The key of the list.
    pub fn name(self) -> (r: &'static str)
        ensures
            r@ == self.key(),
    {
        match self {
            PathField::Read => "read",
            PathField::Write => "write",
            PathField::ReadFile => "read_file",
            PathField::WriteFile => "write_file",
            PathField::Deny => "deny",
        }
    }

    /// Whether the entries of the list may be written to.
    pub open spec fn grants_writing(self) -> bool {
        self == PathField::Write || self == PathField::WriteFile
    }

    fn is_for_writing(self) -> (r: bool)
        ensures
            r == self.grants_writing(),
    {
        match self {
            PathField::Write | PathField::WriteFile => true,
            _ => false,
        }
    }
}

/// Bytes as text, if they are text.
pub open spec fn text_of(bytes: Seq<u8>, refusal: Seq<char>) -> Result<Seq<char>, Seq<char>> {
    if valid_utf8(bytes) {
        Ok(decode_utf8(bytes))
    } else {
        Err(refusal)
    }
}

/// Whether an entry is left as it is: an absolute path, or one that the sandbox expands.
pub open spec fn is_anchored(entry: Seq<char>) -> bool {
    entry.len() > 0 && (entry[0] == '/' || entry[0] == '~' || entry[0] == '$')
}

/// Why a path that is not text is refused.
pub open spec fn not_text(p: Seq<u8>) -> Seq<char> {
    "'"@ + shown_text(p) + "' is not valid UTF-8"@
}

/// An entry with its relative path anchored to the workspace.
pub open spec fn normalized_path(entry: Seq<char>, workspace: Seq<u8>, files: Files) -> Result<
    Seq<char>,
    Seq<char>,
> {
    let e = trimmed(entry);
    if e.len() == 0 {
        Err("filesystem entries must not be empty"@)
    } else if has_pair(e, '$', '{') {
        Err("'${VAR}' is not expanded by nono; write '$VAR' instead"@)
    } else if is_anchored(e) {
        Ok(e)
    } else {
        match resolved_relative(workspace, e, files) {
            Err(t) => Err(t),
            Ok(p) => text_of(p, not_text(p)),
        }
    }
}

/// An entry named together with its list.
pub open spec fn entry_label(field: PathField, entry: Seq<char>) -> Seq<char> {
    "filesystem."@ + field.key() + " entry '"@ + entry + "'"@
}

/// Whether an entry names one path and no other, whatever the environment is.
pub open spec fn is_concrete(entry: Seq<char>) -> bool {
    &&& !(entry.len() > 0 && entry[0] == '~')
    &&& !entry.contains('$')
    &&& !entry.contains('*')
    &&& !entry.contains('?')
    &&& !entry.contains('[')
}

/// Whether what stands at a path is what the list is for.
pub open spec fn suits(field: PathField, kind: FileKind) -> bool {
    match field {
        PathField::Write => kind == FileKind::Directory,
        PathField::WriteFile => kind == FileKind::File,
        _ => true,
    }
}

/// What has to stand at a path in the list.
pub open spec fn target_kind(field: PathField) -> Seq<char> {
    if field == PathField::Write {
        "directory"@
    } else {
        "regular file"@
    }
}

/// A target that may be written to: it has to exist, as what the list is for.
pub open spec fn write_target(field: PathField, entry: Seq<char>, files: Files) -> Result<
    Seq<char>,
    Seq<char>,
> {
    if !is_concrete(entry) {
        Err(
            entry_label(field, entry)
                + " must be a concrete path without variables, '~', or glob patterns; use an existing workspace-relative or absolute path"@,
        )
    } else {
        located_target(field, entry, files)
    }
}

/// A concrete target that may be written to.
pub open spec fn located_target(field: PathField, entry: Seq<char>, files: Files) -> Result<
    Seq<char>,
    Seq<char>,
> {
    match files(Question::Canonicalize(encode_utf8(entry))).path() {
        Err(t) => Err(
            in_context(
                entry_label(field, entry)
                    + " could not be resolved; create the target before running runseal (nono skips missing profile write targets)"@,
                t,
            ),
        ),
        Ok(p) => inspected_target(field, entry, p, files),
    }
}

/// A target that may be written to and has been found.
pub open spec fn inspected_target(
    field: PathField,
    entry: Seq<char>,
    p: Seq<u8>,
    files: Files,
) -> Result<Seq<char>, Seq<char>> {
    match files(Question::Metadata(p)).metadata() {
        Err(t) => Err(in_context("failed to inspect "@ + entry_label(field, entry), t)),
        Ok((kind, _)) => if suits(field, kind) {
            text_of(p, entry_label(field, entry) + " resolves to a non-UTF-8 path"@)
        } else {
            Err(entry_label(field, entry) + " must name an existing "@ + target_kind(field))
        },
    }
}

/// What an entry goes on as, once its path has been normalized or that has failed.
pub open spec fn settled_entry(
    field: PathField,
    entry: Seq<char>,
    path: Result<Seq<char>, Seq<char>>,
    files: Files,
) -> Result<Seq<char>, Seq<char>> {
    match path {
        Err(t) => Err(in_context(entry_label(field, entry) + " is not usable"@, t)),
        Ok(p) => if field.grants_writing() {
            write_target(field, p, files)
        } else {
            Ok(p)
        },
    }
}

/// An entry of a list as it stands in the normalized profile.
pub open spec fn normalized_entry(
    task: (PathField, Seq<char>),
    workspace: Seq<u8>,
    files: Files,
) -> Result<Seq<char>, Seq<char>> {
    settled_entry(task.0, task.1, normalized_path(task.1, workspace, files), files)
}

/// Entries one after another, behind those that are done.
pub open spec fn normalized_entries(
    done: Seq<Seq<char>>,
    todo: Seq<(PathField, Seq<char>)>,
    workspace: Seq<u8>,
    files: Files,
) -> Result<Seq<Seq<char>>, Seq<char>>
    decreases todo.len(),
{
    if todo.len() == 0 {
        Ok(done)
    } else {
        match normalized_entry(todo.first(), workspace, files) {
            Err(e) => Err(e),
            Ok(entry) => normalized_entries(
                done.push(entry),
                todo.drop_first(),
                workspace,
                files,
            ),
        }
    }
}

/// The entries of one list, each with the list it stands in.
pub open spec fn tagged(field: PathField, entries: Seq<Seq<char>>) -> Seq<
    (PathField, Seq<char>),
> {
    entries.map_values(|e: Seq<char>| (field, e))
}

/// All entries of a profile, list by list.
pub open spec fn tasks_of(profile: ProfileModel) -> Seq<(PathField, Seq<char>)> {
    match profile.filesystem {
        None => Seq::empty(),
        Some(f) => tagged(PathField::Read, f.read) + tagged(PathField::Write, f.write) + tagged(
            PathField::ReadFile,
            f.read_file,
        ) + tagged(PathField::WriteFile, f.write_file) + tagged(PathField::Deny, f.deny),
    }
}

/// Lists of the same lengths, filled with the entries of `all` one after another.
pub open spec fn refilled(f: FilesystemModel, all: Seq<Seq<char>>) -> FilesystemModel {
    let a = f.read.len() as int;
    let b = a + f.write.len();
    let c = b + f.read_file.len();
    let d = c + f.write_file.len();
    FilesystemModel {
        read: all.subrange(0, a),
        write: all.subrange(a, b),
        read_file: all.subrange(b, c),
        write_file: all.subrange(c, d),
        deny: all.subrange(d, d + f.deny.len()),
    }
}

/// A profile with a name: the sandbox wants one wherever there is a section about the profile.
pub open spec fn named(profile: ProfileModel) -> ProfileModel {
    ProfileModel {
        meta: match profile.meta {
            None => None,
            Some(m) => Some(
                MetaModel {
                    name: match m.name {
                        Some(name) => Some(name),
                        None => Some(BASE_NAME@),
                    },
                    ..m
                },
            ),
        },
        ..profile
    }
}

/// The check of the network part of a profile.
pub open spec fn network_refusal(network: Option<NetworkModel>) -> Option<Seq<char>> {
    match network {
        None => None,
        Some(n) => match try_all(n.allow_domain, each_domain()) {
            Err(e) => Some(in_context("network.allow_domain is not usable"@, e)),
            Ok(_) => if n.block == Some(false) {
                Some(
                    "network.block 'false' has no effect: nono keeps a block once any layer sets it. Grant network access by listing hosts in network.allow_domain"@,
                )
            } else if n.block == Some(true) && n.allow_domain.len() > 0 {
                Some(
                    "network.block 'true' cannot be combined with network.allow_domain; domain filtering requires the proxy"@,
                )
            } else {
                None
            },
        },
    }
}

/// A profile once its entries are normalized or one of them has failed.
pub open spec fn completed(
    profile: ProfileModel,
    entries: Result<Seq<Seq<char>>, Seq<char>>,
) -> Result<ProfileModel, Seq<char>> {
    match entries {
        Err(e) => Err(e),
        Ok(all) => match network_refusal(profile.network) {
            Some(e) => Err(e),
            None => Ok(
                ProfileModel {
                    filesystem: match profile.filesystem {
                        None => None,
                        Some(f) => Some(refilled(f, all)),
                    },
                    ..named(profile)
                },
            ),
        },
    }
}

/// A profile normalized against a workspace and the files as they are.
pub open spec fn normalized(profile: ProfileModel, workspace: Seq<u8>, files: Files) -> Result<
    ProfileModel,
    Seq<char>,
> {
    completed(profile, normalized_entries(Seq::empty(), tasks_of(profile), workspace, files))
}

/// An entry that has to be normalized.
pub struct Task {
    pub field: PathField,
    pub entry: String,
}

impl DeepView for Task {
    type V = (PathField, Seq<char>);

    open spec fn deep_view(&self) -> (PathField, Seq<char>) {
        (self.field, self.entry@)
    }
}

/// The normalization of one entry: it asks one question at a time.
pub enum EntryState {
    Settled(Result<String, Error>),
    /// The relative path is being followed.
    Resolving { task: Task, resolution: Resolution },
    /// A target for writing is being looked for.
    Locating { field: PathField, entry: String },
    /// A target for writing has been found.
    Inspecting { field: PathField, entry: String, target: Vec<u8> },
}

/// A result as a mathematical value, for bytes that have been read as text.
pub open spec fn resolved_text(r: Result<Seq<u8>, Seq<char>>) -> Result<Seq<char>, Seq<char>> {
    match r {
        Err(t) => Err(t),
        Ok(p) => text_of(p, not_text(p)),
    }
}

/// The text that names an entry together with its list.
fn label(field: PathField, entry: &str) -> (r: String)
    ensures
        r@ == entry_label(field, entry@),
{
    let mut out = "filesystem.".to_owned();
    out.append(field.name());
    out.append(" entry '");
    out.append(entry);
    out.append("'");
    out
}

/// A failure that names an entry and says what is wrong with it.
fn refusal(field: PathField, entry: &str, what: &str) -> (r: Error)
    ensures
        r@ == entry_label(field, entry@) + what@,
{
    let mut message = label(field, entry);
    message.append(what);
    Error { message }
}

/// Whether an entry names one path and no other.
fn names_one_path(entry: &str) -> (r: bool)
    ensures
        r == is_concrete(entry@),
{
    let tilde = if entry.is_empty() {
        false
    } else {
        entry.get_char(0) == '~'
    };
    !tilde && !text::contains_char(entry, '$') && !text::contains_char(entry, '*')
        && !text::contains_char(entry, '?') && !text::contains_char(entry, '[')
}

impl EntryState {
    pub open spec fn wf(self) -> bool {
        self matches EntryState::Resolving { task, resolution } ==> resolution.wf()
            && resolution is Waiting
    }

    /// The question that has to be put next, if the entry is not settled.
    pub open spec fn question(self) -> Option<Question> {
        match self {
            EntryState::Settled(_) => None,
            EntryState::Resolving { task, resolution } => resolution.question(),
            EntryState::Locating { field, entry } => Some(
                Question::Canonicalize(encode_utf8(entry@)),
            ),
            EntryState::Inspecting { field, entry, target } => Some(Question::Metadata(target@)),
        }
    }

    /// How the entry ends when the questions are answered from `files`.
    pub open spec fn ending(self, files: Files) -> Result<Seq<char>, Seq<char>> {
        match self {
            EntryState::Settled(r) => outcome(r),
            EntryState::Resolving { task, resolution } => settled_entry(
                task.field,
                task.entry@,
                resolved_text(resolution.ending(files)),
                files,
            ),
            EntryState::Locating { field, entry } => located_target(field, entry@, files),
            EntryState::Inspecting { field, entry, target } => inspected_target(
                field,
                entry@,
                target@,
                files,
            ),
        }
    }

    /// A bound on the questions that are still to be put.
    pub open spec fn questions_left(self) -> int {
        match self {
            EntryState::Settled(_) => 0,
            EntryState::Resolving { task, resolution } => resolution.questions_left() + 2,
            EntryState::Locating { field, entry } => 2,
            EntryState::Inspecting { field, entry, target } => 1,
        }
    }

    /// Goes on once the path of an entry is normalized or that has failed.
    fn settle(field: PathField, entry: &str, path: Result<String, Error>) -> (r: Self)
        ensures
            r.wf(),
            r.questions_left() <= 2,
            forall|files: Files| #[trigger]
                r.ending(files) == settled_entry(field, entry@, outcome(path), files),
    {
        match path {
            Err(e) => {
                let mut attempt = label(field, entry);
                attempt.append(" is not usable");
                EntryState::Settled(Err(e.context(attempt.as_str())))
            },
            Ok(p) => {
                if !field.is_for_writing() {
                    EntryState::Settled(Ok(p))
                } else if names_one_path(p.as_str()) {
                    EntryState::Locating { field, entry: p }
                } else {
                    EntryState::Settled(
                        Err(
                            refusal(
                                field,
                                p.as_str(),
                                " must be a concrete path without variables, '~', or glob patterns; use an existing workspace-relative or absolute path",
                            ),
                        ),
                    )
                }
            },
        }
    }

    /// Goes on with the resolution of a relative path, settled or not.
    fn follow(task: Task, resolution: Resolution) -> (r: Self)
        requires
            resolution.wf(),
        ensures
            r.wf(),
            r.questions_left() <= resolution.questions_left() + 2,
            forall|files: Files| #[trigger]
                r.ending(files) == settled_entry(
                    task.field,
                    task.entry@,
                    resolved_text(resolution.ending(files)),
                    files,
                ),
    {
        match resolution {
            Resolution::Settled(Err(e)) => Self::settle(task.field, task.entry.as_str(), Err(e)),
            Resolution::Settled(Ok(p)) => {
                let shown = encoding::decode_lossy(p.as_slice());
                let ghost bytes = p@;
                let path = match encoding::decode(p) {
                    Some(path) => Ok(path),
                    None => Err(Error::about("'", shown.as_str(), "' is not valid UTF-8")),
                };
                assert(outcome(path) == text_of(bytes, not_text(bytes)));
                Self::settle(task.field, task.entry.as_str(), path)
            },
            waiting => EntryState::Resolving { task, resolution: waiting },
        }
    }

    /// Starts to normalize an entry.
    pub fn start(field: PathField, entry: &str, workspace: &Vec<u8>) -> (r: Self)
        ensures
            r.wf(),
            forall|files: Files| #[trigger]
                r.ending(files) == normalized_entry((field, entry@), workspace@, files),
    {
        let e = text::trim(entry);
        if e.is_empty() {
            return Self::settle(
                field,
                entry,
                Err(Error::new("filesystem entries must not be empty")),
            );
        }
        if text::contains_pair(e, '$', '{') {
            return Self::settle(
                field,
                entry,
                Err(Error::new("'${VAR}' is not expanded by nono; write '$VAR' instead")),
            );
        }
        let first = e.get_char(0);
        if first == '/' || first == '~' || first == '$' {
            return Self::settle(field, entry, Ok(e.to_owned()));
        }
        Self::follow(Task { field, entry: entry.to_owned() }, Resolution::start(workspace, e))
    }

    /// The question that has to be put next, if the entry is not settled.
    pub fn query(&self) -> (r: Option<Query>)
        ensures
            r.deep_view() == self.question(),
    {
        match self {
            EntryState::Settled(_) => None,
            EntryState::Resolving { task, resolution } => resolution.query(),
            EntryState::Locating { field, entry } => Some(
                Query::Canonicalize(entry.as_str().as_bytes_vec()),
            ),
            EntryState::Inspecting { field, entry, target } => {
                let p = path::slice(target, 0, target.len());
                assert(p@ == target@);
                Some(Query::Metadata(p))
            },
        }
    }

    /// Takes the reply to the question. Whatever files it came from, the ending stays the same.
    pub fn step(self, reply: Reply) -> (r: Self)
        requires
            self.wf(),
        ensures
            r.wf(),
            !(self is Settled) ==> r.questions_left() < self.questions_left(),
            forall|files: Files|
                self.question() matches Some(q) && files(q) == reply.deep_view()
                    ==> #[trigger] r.ending(files) == self.ending(files),
            self is Settled ==> r == self,
    {
        match self {
            EntryState::Settled(_) => self,
            EntryState::Resolving { task, resolution } => {
                let ghost asked = resolution;
                let next = resolution.step(reply);
                let r = Self::follow(task, next);
                assert forall|files: Files|
                    self.question() matches Some(q) && files(q)
                        == reply.deep_view() implies #[trigger] r.ending(files) == self.ending(
                    files,
                ) by {
                    assert(next.ending(files) == asked.ending(files));
                }
                r
            },
            EntryState::Locating { field, entry } => match reply.into_path() {
                Ok(target) => EntryState::Inspecting { field, entry, target },
                Err(t) => {
                    let mut attempt = label(field, entry.as_str());
                    attempt.append(
                        " could not be resolved; create the target before running runseal (nono skips missing profile write targets)",
                    );
                    EntryState::Settled(Err(Error::new(t.as_str()).context(attempt.as_str())))
                },
            },
            EntryState::Inspecting { field, entry, target } => match reply.into_metadata() {
                Err(t) => {
                    let mut attempt = "failed to inspect ".to_owned();
                    attempt.append(label(field, entry.as_str()).as_str());
                    EntryState::Settled(Err(Error::new(t.as_str()).context(attempt.as_str())))
                },
                Ok((kind, _)) => match (field, kind) {
                    (PathField::Write, FileKind::File) | (PathField::Write, FileKind::Other) => {
                        EntryState::Settled(
                            Err(
                                refusal(
                                    field,
                                    entry.as_str(),
                                    " must name an existing ",
                                ).extended("directory"),
                            ),
                        )
                    },
                    (PathField::WriteFile, FileKind::Directory) | (
                        PathField::WriteFile,
                        FileKind::Other,
                    ) => EntryState::Settled(
                        Err(
                            refusal(
                                field,
                                entry.as_str(),
                                " must name an existing ",
                            ).extended("regular file"),
                        ),
                    ),
                    _ => match encoding::decode(target) {
                        Some(text) => EntryState::Settled(Ok(text)),
                        None => EntryState::Settled(
                            Err(refusal(field, entry.as_str(), " resolves to a non-UTF-8 path")),
                        ),
                    },
                },
            },
        }
    }
}

/// A normalization that waits for the file system.
pub struct Work {
    pub workspace: Vec<u8>,
    pub profile: BaseProfile,
    pub tasks: Vec<Task>,
    pub done: Vec<String>,
    pub current: EntryState,
}

/// The normalization of a profile: it asks one question at a time.
pub enum Normalizer {
    Settled(Result<BaseProfile, Error>),
    Working(Work),
}

impl Work {
    pub open spec fn wf(self) -> bool {
        &&& self.done@.len() < self.tasks@.len()
        &&& self.current.wf()
        &&& !(self.current is Settled)
        &&& self.tasks.deep_view() == tasks_of(self.profile.deep_view())
    }

    pub open spec fn ending(self, files: Files) -> Result<ProfileModel, Seq<char>> {
        completed(
            self.profile.deep_view(),
            match self.current.ending(files) {
                Err(e) => Err(e),
                Ok(entry) => normalized_entries(
                    self.done.deep_view().push(entry),
                    self.tasks.deep_view().skip((self.done@.len() + 1) as int),
                    self.workspace@,
                    files,
                ),
            },
        )
    }
}

/// Adds the entries of one list to the tasks.
fn add_tasks(tasks: &mut Vec<Task>, field: PathField, entries: &Vec<String>)
    ensures
        final(tasks).deep_view() == old(tasks).deep_view() + tagged(field, entries.deep_view()),
{
    let ghost before = tasks.deep_view();
    let ghost all = entries.deep_view();
    let mut i: usize = 0;
    assert(before + tagged(field, all.take(0)) == before);
    while i < entries.len()
        invariant
            i <= entries@.len(),
            all == entries.deep_view(),
            tasks.deep_view() == before + tagged(field, all.take(i as int)),
        decreases entries@.len() - i,
    {
        let ghost so_far = tasks.deep_view();
        tasks.push(Task { field, entry: entries[i].clone() });
        assert(tasks.deep_view() == so_far.push((field, all[i as int])));
        assert(tagged(field, all.take(i + 1)) == tagged(field, all.take(i as int)).push(
            (field, all[i as int]),
        ));
        i = i + 1;
    }
    assert(all.take(i as int) == all);
}

/// The texts of `all` from `start` up to `end`.
fn copy_range(all: &Vec<String>, start: usize, end: usize) -> (r: Vec<String>)
    requires
        start <= end <= all@.len(),
    ensures
        r.deep_view() == all.deep_view().subrange(start as int, end as int),
{
    let mut out: Vec<String> = Vec::new();
    let mut i: usize = start;
    while i < end
        invariant
            start <= i <= end <= all@.len(),
            out.deep_view() == all.deep_view().subrange(start as int, i as int),
        decreases end - i,
    {
        let ghost so_far = out.deep_view();
        out.push(all[i].clone());
        assert(out.deep_view() == so_far.push(all@[i as int]@));
        i = i + 1;
    }
    out
}

/// Puts normalized entries in place of those of a profile, and checks its network part.
fn complete(profile: BaseProfile, all: Vec<String>) -> (r: Result<BaseProfile, Error>)
    requires
        all@.len() == tasks_of(profile.deep_view()).len(),
    ensures
        outcome(r) == completed(
            profile.deep_view(),
            Ok::<Seq<Seq<char>>, Seq<char>>(all.deep_view()),
        ),
{
    let ghost model = profile.deep_view();
    let filesystem = match profile.filesystem {
        None => None,
        Some(f) => {
            let ghost lists = f.deep_view();
            let n: usize = all.len();
            assert(all@.len() == f.read@.len() + f.write@.len() + f.read_file@.len()
                + f.write_file@.len() + f.deny@.len());
            let a: usize = f.read.len();
            let b: usize = a + f.write.len();
            let c: usize = b + f.read_file.len();
            let d: usize = c + f.write_file.len();
            let refilled_lists = Filesystem {
                read: copy_range(&all, 0, a),
                write: copy_range(&all, a, b),
                read_file: copy_range(&all, b, c),
                write_file: copy_range(&all, c, d),
                deny: copy_range(&all, d, n),
            };
            assert(refilled_lists.deep_view() == refilled(lists, all.deep_view()));
            Some(refilled_lists)
        },
    };
    let meta = match profile.meta {
        None => None,
        Some(m) => Some(
            Meta {
                name: match m.name {
                    Some(name) => Some(name),
                    None => Some(BASE_NAME.to_owned()),
                },
                description: m.description,
            },
        ),
    };
    let network = match profile.network {
        None => None,
        Some(n) => {
            let allow_domain = match validate_domain_allowlist(n.allow_domain) {
                Ok(kept) => kept,
                Err(e) => {
                    return Err(e.context("network.allow_domain is not usable"));
                },
            };
            match n.block {
                Some(false) => {
                    return Err(
                        Error::new(
                            "network.block 'false' has no effect: nono keeps a block once any layer sets it. Grant network access by listing hosts in network.allow_domain",
                        ),
                    );
                },
                Some(true) => {
                    if allow_domain.len() > 0 {
                        return Err(
                            Error::new(
                                "network.block 'true' cannot be combined with network.allow_domain; domain filtering requires the proxy",
                            ),
                        );
                    }
                },
                None => {},
            }
            Some(Network { allow_domain, block: n.block })
        },
    };
    Ok(BaseProfile { meta, filesystem, network })
}

impl Normalizer {
    pub open spec fn wf(self) -> bool {
        self matches Normalizer::Working(w) ==> w.wf()
    }

    /// The question that has to be put next, if the normalization is not settled.
    pub open spec fn question(self) -> Option<Question> {
        match self {
            Normalizer::Settled(_) => None,
            Normalizer::Working(w) => w.current.question(),
        }
    }

    /// How the normalization ends when its questions are answered from `files`.
    pub open spec fn ending(self, files: Files) -> Result<ProfileModel, Seq<char>> {
        match self {
            Normalizer::Settled(r) => outcome(r),
            Normalizer::Working(w) => w.ending(files),
        }
    }

    /// How many entries are still to be settled.
    pub open spec fn entries_left(self) -> int {
        match self {
            Normalizer::Settled(_) => 0,
            Normalizer::Working(w) => w.tasks@.len() - w.done@.len(),
        }
    }

    /// A bound on the questions that are still to be put for the current entry.
    pub open spec fn questions_left(self) -> int {
        match self {
            Normalizer::Settled(_) => 0,
            Normalizer::Working(w) => w.current.questions_left(),
        }
    }

    /// Whether less is left to be done than at an earlier time.
    pub open spec fn is_after(self, earlier: Self) -> bool {
        ||| self.entries_left() < earlier.entries_left()
        ||| self.entries_left() == earlier.entries_left() && self.questions_left()
            < earlier.questions_left()
    }

    /// Starts to normalize a profile.
    pub fn start(profile: BaseProfile, workspace: &Vec<u8>) -> (r: Self)
        ensures
            r.wf(),
            forall|files: Files| #[trigger]
                r.ending(files) == normalized(profile.deep_view(), workspace@, files),
    {
        let mut tasks: Vec<Task> = Vec::new();
        let ghost none = tasks.deep_view();
        assert(none == Seq::<(PathField, Seq<char>)>::empty());
        if let Some(f) = &profile.filesystem {
            add_tasks(&mut tasks, PathField::Read, &f.read);
            add_tasks(&mut tasks, PathField::Write, &f.write);
            add_tasks(&mut tasks, PathField::ReadFile, &f.read_file);
            add_tasks(&mut tasks, PathField::WriteFile, &f.write_file);
            add_tasks(&mut tasks, PathField::Deny, &f.deny);
        }
        assert(tasks.deep_view() == tasks_of(profile.deep_view()));
        let done: Vec<String> = Vec::new();
        assert(done.deep_view() == Seq::<Seq<char>>::empty());
        assert(tasks.deep_view().skip(0) == tasks.deep_view());
        let kept = path::slice(workspace, 0, workspace.len());
        assert(kept@ == workspace@);
        Self::go_on(kept, profile, tasks, done)
    }

    /// Goes on with the next entry until a question has to be put or all are settled.
    fn go_on(
        workspace: Vec<u8>,
        profile: BaseProfile,
        tasks: Vec<Task>,
        settled: Vec<String>,
    ) -> (r: Self)
        requires
            settled@.len() <= tasks@.len(),
            tasks.deep_view() == tasks_of(profile.deep_view()),
        ensures
            r.wf(),
            r.entries_left() <= tasks@.len() - settled@.len(),
            forall|files: Files| #[trigger]
                r.ending(files) == completed(
                    profile.deep_view(),
                    normalized_entries(
                        settled.deep_view(),
                        tasks.deep_view().skip(settled@.len() as int),
                        workspace@,
                        files,
                    ),
                ),
    {
        let ghost at_first = settled.deep_view();
        let ghost all = tasks.deep_view();
        let mut done = settled;
        while done.len() < tasks.len()
            invariant
                at_first == settled.deep_view(),
                at_first.len() <= done@.len() <= tasks@.len(),
                all == tasks.deep_view(),
                tasks.deep_view() == tasks_of(profile.deep_view()),
                forall|files: Files| #[trigger]
                    normalized_entries(
                        at_first,
                        all.skip(at_first.len() as int),
                        workspace@,
                        files,
                    ) == normalized_entries(
                        done.deep_view(),
                        all.skip(done@.len() as int),
                        workspace@,
                        files,
                    ),
            decreases tasks@.len() - done@.len(),
        {
            let i: usize = done.len();
            let ghost so_far = done.deep_view();
            let ghost rest = all.skip(i as int);
            assert(rest.first() == all[i as int]);
            assert(rest.drop_first() == all.skip(i + 1));
            let state = EntryState::start(tasks[i].field, tasks[i].entry.as_str(), &workspace);
            assert forall|files: Files| #[trigger]
                normalized_entries(so_far, rest, workspace@, files) == match state.ending(files) {
                    Err(e) => Err(e),
                    Ok(entry) => normalized_entries(
                        so_far.push(entry),
                        all.skip(i + 1),
                        workspace@,
                        files,
                    ),
                } by {}
            match state {
                EntryState::Settled(Err(e)) => {
                    return Normalizer::Settled(Err(e));
                },
                EntryState::Settled(Ok(entry)) => {
                    let ghost added = entry@;
                    done.push(entry);
                    assert(done.deep_view() == so_far.push(added));
                    assert forall|files: Files| #[trigger]
                        normalized_entries(
                            at_first,
                            all.skip(at_first.len() as int),
                            workspace@,
                            files,
                        ) == normalized_entries(
                            done.deep_view(),
                            all.skip(done@.len() as int),
                            workspace@,
                            files,
                        ) by {
                        assert(normalized_entries(so_far, rest, workspace@, files)
                            == normalized_entries(
                            so_far.push(added),
                            all.skip(i + 1),
                            workspace@,
                            files,
                        ));
                    }
                },
                waiting => {
                    let r = Normalizer::Working(
                        Work { workspace, profile, tasks, done, current: waiting },
                    );
                    assert forall|files: Files| #[trigger]
                        r.ending(files) == completed(
                            profile.deep_view(),
                            normalized_entries(
                                at_first,
                                all.skip(at_first.len() as int),
                                workspace@,
                                files,
                            ),
                        ) by {
                        assert(normalized_entries(so_far, rest, workspace@, files) == match waiting.ending(
                            files,
                        ) {
                            Err(e) => Err(e),
                            Ok(entry) => normalized_entries(
                                so_far.push(entry),
                                all.skip(i + 1),
                                workspace@,
                                files,
                            ),
                        });
                    }
                    return r;
                },
            }
        }
        assert(all.skip(done@.len() as int) == Seq::<(PathField, Seq<char>)>::empty());
        assert forall|files: Files| #[trigger]
            normalized_entries(at_first, all.skip(at_first.len() as int), workspace@, files)
                == Ok::<Seq<Seq<char>>, Seq<char>>(done.deep_view()) by {}
        Normalizer::Settled(complete(profile, done))
    }

    /// The question that has to be put next, if the normalization is not settled.
    pub fn query(&self) -> (r: Option<Query>)
        ensures
            r.deep_view() == self.question(),
    {
        match self {
            Normalizer::Settled(_) => None,
            Normalizer::Working(w) => w.current.query(),
        }
    }

    /// Takes the reply to the question. Whatever files it came from, the ending stays the same.
    pub fn step(self, reply: Reply) -> (r: Self)
        requires
            self.wf(),
        ensures
            r.wf(),
            self is Working ==> r.is_after(self),
            forall|files: Files|
                self.question() matches Some(q) && files(q) == reply.deep_view()
                    ==> #[trigger] r.ending(files) == self.ending(files),
            self is Settled ==> r == self,
    {
        match self {
            Normalizer::Settled(_) => self,
            Normalizer::Working(w) => {
                let ghost asked = w.current;
                let ghost was = w;
                let Work { workspace, profile, tasks, done, current } = w;
                let next = current.step(reply);
                match next {
                    EntryState::Settled(Err(e)) => {
                        let r = Normalizer::Settled(Err(e));
                        assert forall|files: Files|
                            self.question() matches Some(q) && files(q)
                                == reply.deep_view() implies #[trigger] r.ending(files)
                            == self.ending(files) by {
                            assert(next.ending(files) == asked.ending(files));
                        }
                        r
                    },
                    EntryState::Settled(Ok(entry)) => {
                        let ghost so_far = done.deep_view();
                        let ghost added = entry@;
                        let mut done = done;
                        done.push(entry);
                        assert(done.deep_view() == so_far.push(added));
                        let r = Self::go_on(workspace, profile, tasks, done);
                        assert forall|files: Files|
                            self.question() matches Some(q) && files(q)
                                == reply.deep_view() implies #[trigger] r.ending(files)
                            == self.ending(files) by {
                            assert(next.ending(files) == asked.ending(files));
                        }
                        r
                    },
                    waiting => {
                        let r = Normalizer::Working(
                            Work { workspace, profile, tasks, done, current: waiting },
                        );
                        assert forall|files: Files|
                            self.question() matches Some(q) && files(q)
                                == reply.deep_view() implies #[trigger] r.ending(files)
                            == self.ending(files) by {
                            assert(next.ending(files) == asked.ending(files));
                        }
                        r
                    },
                }
            },
        }
    }
}

/// Whether what a list is for stands at a path.
pub open spec fn stands_at(p: Seq<u8>, field: PathField, files: Files) -> bool {
    files(Question::Metadata(p)).metadata() matches Ok((kind, _)) && suits(field, kind)
}

/// What may be written to exists when the profile is accepted, as a directory or as a file just as
/// its list says.
pub proof fn lemma_write_entry_exists(
    field: PathField,
    entry: Seq<char>,
    workspace: Seq<u8>,
    files: Files,
)
    requires
        field.grants_writing(),
    ensures
        normalized_entry((field, entry), workspace, files) matches Ok(target) ==> exists|p: Seq<u8>|
            valid_utf8(p) && target == decode_utf8(p) && #[trigger] stands_at(p, field, files),
{
    if let Ok(_) = normalized_entry((field, entry), workspace, files) {
        let named = normalized_path(entry, workspace, files)->Ok_0;
        let p = files(Question::Canonicalize(encode_utf8(named))).path()->Ok_0;
        assert(stands_at(p, field, files));
    }
}

/// Whether a text is a path within the workspace.
pub open spec fn lies_inside(target: Seq<char>, workspace: Seq<u8>) -> bool {
    exists|p: Seq<u8>|
        valid_utf8(p) && target == decode_utf8(p) && #[trigger] path::within(p, workspace)
}

/// What is written to by a relative path stays in the workspace, where the workspace is named by
/// its canonical path and the files do not change meanwhile.
pub proof fn lemma_relative_target_stays_inside(
    field: PathField,
    entry: Seq<char>,
    workspace: Seq<u8>,
    files: Files,
)
    requires
        field.grants_writing(),
        !is_anchored(trimmed(entry)),
        steady(files),
        leads_to_itself(workspace, files),
    ensures
        normalized_entry((field, entry), workspace, files) matches Ok(target) ==> lies_inside(
            target,
            workspace,
        ),
{
    lemma_resolved_within_workspace(workspace, trimmed(entry), files);
    lemma_resolved_is_final(workspace, trimmed(entry), files);
    if let Ok(_) = normalized_entry((field, entry), workspace, files) {
        let p = resolved_relative(workspace, trimmed(entry), files)->Ok_0;
        decode_utf8_encode_utf8(p);
        assert(path::within(p, workspace));
    }
}

/// What is read, or denied, by a relative path stays in the workspace.
pub proof fn lemma_relative_entry_stays_inside(
    field: PathField,
    entry: Seq<char>,
    workspace: Seq<u8>,
    files: Files,
)
    requires
        !field.grants_writing(),
        !is_anchored(trimmed(entry)),
    ensures
        normalized_entry((field, entry), workspace, files) matches Ok(target) ==> lies_inside(
            target,
            workspace,
        ),
{
    lemma_resolved_within_workspace(workspace, trimmed(entry), files);
    if let Ok(_) = normalized_entry((field, entry), workspace, files) {
        let p = resolved_relative(workspace, trimmed(entry), files)->Ok_0;
        assert(path::within(p, workspace));
    }
}

/// An entry that is anchored is read, or denied, as it was written.
pub proof fn lemma_anchored_entry_is_kept(
    field: PathField,
    entry: Seq<char>,
    workspace: Seq<u8>,
    files: Files,
)
    requires
        !field.grants_writing(),
        is_anchored(trimmed(entry)),
        !has_pair(trimmed(entry), '$', '{'),
    ensures
        normalized_entry((field, entry), workspace, files) == Ok::<Seq<char>, Seq<char>>(
            trimmed(entry),
        ),
{
}

/// A profile that is accepted grants hosts or blocks the network, never both, and no host is the
/// name of a network mode.
pub proof fn lemma_network_is_unambiguous(profile: ProfileModel, workspace: Seq<u8>, files: Files)
    ensures
        normalized(profile, workspace, files) matches Ok(done) ==> {
            &&& done.network == profile.network
            &&& done.network matches Some(network) ==> {
                &&& network.block != Some(false)
                &&& network.block == Some(true) ==> network.allow_domain.len() == 0
                &&& forall|i: int|
                    0 <= i < network.allow_domain.len() ==> !is_mode_name(
                        #[trigger] network.allow_domain[i],
                    )
            }
        },
{
    if let Ok(_) = normalized(profile, workspace, files) {
        if let Some(network) = profile.network {
            lemma_try_all_results(network.allow_domain, each_domain());
            assert forall|i: int| 0 <= i < network.allow_domain.len() implies !is_mode_name(
                #[trigger] network.allow_domain[i],
            ) by {
                assert(each_domain()(network.allow_domain[i]) == domain_of(
                    network.allow_domain[i],
                ));
            }
        }
    }
}

proof fn lemma_entries(
    done: Seq<Seq<char>>,
    todo: Seq<(PathField, Seq<char>)>,
    workspace: Seq<u8>,
    files: Files,
)
    ensures
        normalized_entries(done, todo, workspace, files) matches Ok(all) ==> {
            &&& all.len() == done.len() + todo.len()
            &&& forall|i: int| 0 <= i < done.len() ==> #[trigger] all[i] == done[i]
            &&& forall|i: int|
                0 <= i < todo.len() ==> normalized_entry(#[trigger] todo[i], workspace, files)
                    == Ok::<Seq<char>, Seq<char>>(all[done.len() + i])
        },
    decreases todo.len(),
{
    if todo.len() > 0 {
        if let Ok(entry) = normalized_entry(todo.first(), workspace, files) {
            let more = done.push(entry);
            let rest = todo.drop_first();
            lemma_entries(more, rest, workspace, files);
            if let Ok(all) = normalized_entries(done, todo, workspace, files) {
                assert forall|i: int| 0 <= i < done.len() implies #[trigger] all[i] == done[i] by {
                    assert(all[i] == more[i]);
                }
                assert forall|i: int| 0 <= i < todo.len() implies normalized_entry(
                    #[trigger] todo[i],
                    workspace,
                    files,
                ) == Ok::<Seq<char>, Seq<char>>(all[done.len() + i]) by {
                    if i == 0 {
                        assert(all[done.len() as int] == more[done.len() as int]);
                    } else {
                        assert(rest[i - 1] == todo[i]);
                    }
                }
            }
        }
    }
}

/// Whether entries are those of a list, each normalized.
pub open spec fn normalized_list(
    field: PathField,
    entries: Seq<Seq<char>>,
    result: Seq<Seq<char>>,
    workspace: Seq<u8>,
    files: Files,
) -> bool {
    entries.len() == result.len() && forall|i: int|
        0 <= i < entries.len() ==> normalized_entry(
            (field, #[trigger] entries[i]),
            workspace,
            files,
        ) == Ok::<Seq<char>, Seq<char>>(result[i])
}

/// Entries that stand one after another among the tasks stand so among what these come to.
proof fn lemma_list_at(
    field: PathField,
    entries: Seq<Seq<char>>,
    todo: Seq<(PathField, Seq<char>)>,
    at: int,
    all: Seq<Seq<char>>,
    workspace: Seq<u8>,
    files: Files,
)
    requires
        0 <= at <= at + entries.len() <= todo.len(),
        todo.len() == all.len(),
        todo.subrange(at, at + entries.len()) =~= tagged(field, entries),
        forall|i: int|
            0 <= i < todo.len() ==> normalized_entry(#[trigger] todo[i], workspace, files) == Ok::<
                Seq<char>,
                Seq<char>,
            >(all[i]),
    ensures
        normalized_list(field, entries, all.subrange(at, at + entries.len()), workspace, files),
{
    let result = all.subrange(at, at + entries.len());
    assert forall|i: int| 0 <= i < entries.len() implies normalized_entry(
        (field, #[trigger] entries[i]),
        workspace,
        files,
    ) == Ok::<Seq<char>, Seq<char>>(result[i]) by {
        assert(todo.subrange(at, at + entries.len())[i] == tagged(field, entries)[i]);
        assert(todo[at + i] == (field, entries[i]));
    }
}

/// A profile that is accepted keeps every entry in its list and its place, normalized; one entry
/// that cannot be normalized refuses the whole profile.
pub proof fn lemma_lists_are_normalized(profile: ProfileModel, workspace: Seq<u8>, files: Files)
    ensures
        normalized(profile, workspace, files) matches Ok(done) ==> match (
            profile.filesystem,
            done.filesystem,
        ) {
            (None, None) => true,
            (Some(f), Some(g)) => {
                &&& normalized_list(PathField::Read, f.read, g.read, workspace, files)
                &&& normalized_list(PathField::Write, f.write, g.write, workspace, files)
                &&& normalized_list(
                    PathField::ReadFile,
                    f.read_file,
                    g.read_file,
                    workspace,
                    files,
                )
                &&& normalized_list(
                    PathField::WriteFile,
                    f.write_file,
                    g.write_file,
                    workspace,
                    files,
                )
                &&& normalized_list(PathField::Deny, f.deny, g.deny, workspace, files)
            },
            _ => false,
        },
{
    let todo = tasks_of(profile);
    lemma_entries(Seq::empty(), todo, workspace, files);
    if let Ok(done) = normalized(profile, workspace, files) {
        if let Some(f) = profile.filesystem {
            let all = normalized_entries(Seq::empty(), todo, workspace, files)->Ok_0;
            let a = f.read.len() as int;
            let b = a + f.write.len();
            let c = b + f.read_file.len();
            let d = c + f.write_file.len();
            lemma_list_at(PathField::Read, f.read, todo, 0, all, workspace, files);
            lemma_list_at(PathField::Write, f.write, todo, a, all, workspace, files);
            lemma_list_at(PathField::ReadFile, f.read_file, todo, b, all, workspace, files);
            lemma_list_at(PathField::WriteFile, f.write_file, todo, c, all, workspace, files);
            lemma_list_at(PathField::Deny, f.deny, todo, d, all, workspace, files);
        }
    }
}

/// Whether an entry names a path: as it was written, trimmed, where it starts with `/`, `~` or `$`,
/// and otherwise the place in the workspace that it leads to. It must not be blank, and must not
/// hold `${`.
pub open spec fn names_path(
    entry: Seq<char>,
    name: Seq<char>,
    workspace: Seq<u8>,
    files: Files,
) -> bool {
    let e = trimmed(entry);
    &&& e.len() > 0
    &&& !exists|i: int| 0 <= i <= e.len() - 2 && #[trigger] e.subrange(i, i + 2) == seq!['$', '{']
    &&& if e[0] == '/' || e[0] == '~' || e[0] == '$' {
        name == e
    } else {
        resolved_relative(workspace, e, files) matches Ok(p) && valid_utf8(p) && name
            == decode_utf8(p)
    }
}

/// Whether a path may be written to as a target: it is spelled out, leads somewhere, and what is
/// wanted stands there.
pub open spec fn leads_to_target(
    name: Seq<char>,
    kind: FileKind,
    target: Seq<char>,
    files: Files,
) -> bool {
    &&& !(name.len() > 0 && name[0] == '~')
    &&& !name.contains('$') && !name.contains('*') && !name.contains('?') && !name.contains('[')
    &&& files(Question::Canonicalize(encode_utf8(name))) matches Answer::Path(p) && valid_utf8(p)
        && target == decode_utf8(p) && (files(Question::Metadata(p)) matches Answer::Metadata(
        found,
        _,
    ) && found == kind)
}

/// What an entry goes on as in each list: to read or to deny, as the path that it names; to write, as
/// the real path of the directory or the file that has to stand there.
pub open spec fn goes_on_as(
    field: PathField,
    entry: Seq<char>,
    result: Seq<char>,
    workspace: Seq<u8>,
    files: Files,
) -> bool {
    exists|name: Seq<char>| #[trigger]
        names_path(entry, name, workspace, files) && match field {
            PathField::Read | PathField::ReadFile | PathField::Deny => result == name,
            PathField::Write => leads_to_target(name, FileKind::Directory, result, files),
            PathField::WriteFile => leads_to_target(name, FileKind::File, result, files),
        }
}

/// An entry is accepted exactly if it can go on as something, and then goes on as that.
pub proof fn lemma_entry_exactly(
    field: PathField,
    entry: Seq<char>,
    result: Seq<char>,
    workspace: Seq<u8>,
    files: Files,
)
    ensures
        normalized_entry((field, entry), workspace, files) == Ok::<Seq<char>, Seq<char>>(result)
            <==> goes_on_as(field, entry, result, workspace, files),
{
    let e = trimmed(entry);
    lemma_pair_exactly(e, '$', '{');
    if let Ok(name) = normalized_path(entry, workspace, files) {
        assert(names_path(entry, name, workspace, files));
    }
    if exists|name: Seq<char>| #[trigger] names_path(entry, name, workspace, files) {
        let name = choose|name: Seq<char>| #[trigger] names_path(entry, name, workspace, files);
        assert(normalized_path(entry, workspace, files) == Ok::<Seq<char>, Seq<char>>(name));
        assert forall|other: Seq<char>| #[trigger] names_path(
            entry,
            other,
            workspace,
            files,
        ) implies other == name by {}
    }
}

/// Whether a network section says one thing: it lists no name of a network mode, it never says that
/// nothing is blocked, and it does not both block all and list hosts.
pub open spec fn is_clear(network: NetworkModel) -> bool {
    &&& forall|i: int|
        0 <= i < network.allow_domain.len() ==> trimmed(#[trigger] network.allow_domain[i])
            != "blocked"@ && trimmed(network.allow_domain[i]) != "filtered"@
    &&& network.block != Some(false)
    &&& !(network.block == Some(true) && network.allow_domain.len() > 0)
}

/// Whether every entry of a list can go on as something.
pub open spec fn all_go_on(
    field: PathField,
    entries: Seq<Seq<char>>,
    workspace: Seq<u8>,
    files: Files,
) -> bool {
    forall|i: int|
        0 <= i < entries.len() ==> normalized_entry(
            (field, #[trigger] entries[i]),
            workspace,
            files,
        ) is Ok
}

/// A profile is accepted exactly if every entry of every list is and its network section says one
/// thing. It keeps its network section, and what it says of itself, with a name where it had none.
pub proof fn lemma_normalized_exactly(profile: ProfileModel, workspace: Seq<u8>, files: Files)
    ensures
        normalized(profile, workspace, files) is Ok <==> {
            &&& profile.filesystem matches Some(f) ==> {
                &&& all_go_on(PathField::Read, f.read, workspace, files)
                &&& all_go_on(PathField::Write, f.write, workspace, files)
                &&& all_go_on(PathField::ReadFile, f.read_file, workspace, files)
                &&& all_go_on(PathField::WriteFile, f.write_file, workspace, files)
                &&& all_go_on(PathField::Deny, f.deny, workspace, files)
            }
            &&& profile.network matches Some(network) ==> is_clear(network)
        },
        normalized(profile, workspace, files) matches Ok(done) ==> {
            &&& done.network == profile.network
            &&& done.meta is Some == profile.meta is Some
            &&& done.filesystem is Some == profile.filesystem is Some
            &&& profile.meta matches Some(meta) ==> {
                &&& done.meta->Some_0.description == meta.description
                &&& meta.name is Some ==> done.meta->Some_0.name == meta.name
                &&& meta.name is None ==> done.meta->Some_0.name == Some(BASE_NAME@)
            }
        },
{
    let todo = tasks_of(profile);
    lemma_entries_accepted(Seq::empty(), todo, workspace, files);
    if let Some(network) = profile.network {
        lemma_domains_exactly(network.allow_domain);
    }
    if let Some(f) = profile.filesystem {
        let a = f.read.len() as int;
        let b = a + f.write.len();
        let c = b + f.read_file.len();
        let d = c + f.write_file.len();
        lemma_tasks_go_on(PathField::Read, f.read, todo, 0, workspace, files);
        lemma_tasks_go_on(PathField::Write, f.write, todo, a, workspace, files);
        lemma_tasks_go_on(PathField::ReadFile, f.read_file, todo, b, workspace, files);
        lemma_tasks_go_on(PathField::WriteFile, f.write_file, todo, c, workspace, files);
        lemma_tasks_go_on(PathField::Deny, f.deny, todo, d, workspace, files);
        assert(todo.len() == d + f.deny.len());
        let lists_go_on = all_go_on(PathField::Read, f.read, workspace, files) && all_go_on(
            PathField::Write,
            f.write,
            workspace,
            files,
        ) && all_go_on(PathField::ReadFile, f.read_file, workspace, files) && all_go_on(
            PathField::WriteFile,
            f.write_file,
            workspace,
            files,
        ) && all_go_on(PathField::Deny, f.deny, workspace, files);
        if lists_go_on {
            assert forall|i: int| 0 <= i < todo.len() implies normalized_entry(
                #[trigger] todo[i],
                workspace,
                files,
            ) is Ok by {
                assert(0 <= i < a || a <= i < b || b <= i < c || c <= i < d || d <= i < d
                    + f.deny.len());
            }
        }
    }
}

proof fn lemma_tasks_go_on(
    field: PathField,
    entries: Seq<Seq<char>>,
    todo: Seq<(PathField, Seq<char>)>,
    at: int,
    workspace: Seq<u8>,
    files: Files,
)
    requires
        0 <= at <= at + entries.len() <= todo.len(),
        todo.subrange(at, at + entries.len()) =~= tagged(field, entries),
    ensures
        all_go_on(field, entries, workspace, files) <==> forall|i: int|
            at <= i < at + entries.len() ==> normalized_entry(
                #[trigger] todo[i],
                workspace,
                files,
            ) is Ok,
{
    let part = todo.subrange(at, at + entries.len());
    assert forall|i: int| 0 <= i < entries.len() implies todo[at + i] == (
        field,
        #[trigger] entries[i],
    ) by {
        assert(part[i] == tagged(field, entries)[i]);
    }
    if all_go_on(field, entries, workspace, files) {
        assert forall|i: int| at <= i < at + entries.len() implies normalized_entry(
            #[trigger] todo[i],
            workspace,
            files,
        ) is Ok by {
            assert(todo[at + (i - at)] == (field, entries[i - at]));
        }
    }
    if forall|i: int|
        at <= i < at + entries.len() ==> normalized_entry(
            #[trigger] todo[i],
            workspace,
            files,
        ) is Ok {
        assert forall|i: int| 0 <= i < entries.len() implies normalized_entry(
            (field, #[trigger] entries[i]),
            workspace,
            files,
        ) is Ok by {
            assert(normalized_entry(todo[at + i], workspace, files) is Ok);
        }
    }
}

proof fn lemma_entries_accepted(
    done: Seq<Seq<char>>,
    todo: Seq<(PathField, Seq<char>)>,
    workspace: Seq<u8>,
    files: Files,
)
    ensures
        normalized_entries(done, todo, workspace, files) is Ok <==> forall|i: int|
            0 <= i < todo.len() ==> normalized_entry(#[trigger] todo[i], workspace, files) is Ok,
    decreases todo.len(),
{
    if todo.len() > 0 {
        assert(todo.first() == todo[0]);
        if let Ok(entry) = normalized_entry(todo.first(), workspace, files) {
            let rest = todo.drop_first();
            lemma_entries_accepted(done.push(entry), rest, workspace, files);
            if normalized_entries(done, todo, workspace, files) is Ok {
                assert forall|i: int| 0 <= i < todo.len() implies normalized_entry(
                    #[trigger] todo[i],
                    workspace,
                    files,
                ) is Ok by {
                    if i > 0 {
                        assert(rest[i - 1] == todo[i]);
                    }
                }
            }
            if forall|i: int|
                0 <= i < todo.len() ==> normalized_entry(
                    #[trigger] todo[i],
                    workspace,
                    files,
                ) is Ok {
                assert forall|i: int| 0 <= i < rest.len() implies normalized_entry(
                    #[trigger] rest[i],
                    workspace,
                    files,
                ) is Ok by {
                    assert(rest[i] == todo[i + 1]);
                }
            }
        }
    }
}

/// Whether the entries of a list go on, each as something and at its place.
pub open spec fn list_goes_on_as(
    field: PathField,
    entries: Seq<Seq<char>>,
    results: Seq<Seq<char>>,
    workspace: Seq<u8>,
    files: Files,
) -> bool {
    entries.len() == results.len() && forall|i: int|
        0 <= i < entries.len() ==> goes_on_as(
            field,
            #[trigger] entries[i],
            results[i],
            workspace,
            files,
        )
}

/// Each list of an accepted profile holds what its own entries go on as, in their order, and
/// nothing of another list.
pub proof fn lemma_lists_exactly(profile: ProfileModel, workspace: Seq<u8>, files: Files)
    ensures
        normalized(profile, workspace, files) matches Ok(done) ==> (
        profile.filesystem matches Some(f) ==> {
            let g = done.filesystem->Some_0;
            &&& list_goes_on_as(PathField::Read, f.read, g.read, workspace, files)
            &&& list_goes_on_as(PathField::Write, f.write, g.write, workspace, files)
            &&& list_goes_on_as(PathField::ReadFile, f.read_file, g.read_file, workspace, files)
            &&& list_goes_on_as(
                PathField::WriteFile,
                f.write_file,
                g.write_file,
                workspace,
                files,
            )
            &&& list_goes_on_as(PathField::Deny, f.deny, g.deny, workspace, files)
        }),
{
    lemma_lists_are_normalized(profile, workspace, files);
    if let Ok(done) = normalized(profile, workspace, files) {
        if let Some(f) = profile.filesystem {
            let g = done.filesystem->Some_0;
            lemma_list_goes_on(PathField::Read, f.read, g.read, workspace, files);
            lemma_list_goes_on(PathField::Write, f.write, g.write, workspace, files);
            lemma_list_goes_on(PathField::ReadFile, f.read_file, g.read_file, workspace, files);
            lemma_list_goes_on(PathField::WriteFile, f.write_file, g.write_file, workspace, files);
            lemma_list_goes_on(PathField::Deny, f.deny, g.deny, workspace, files);
        }
    }
}

proof fn lemma_list_goes_on(
    field: PathField,
    entries: Seq<Seq<char>>,
    results: Seq<Seq<char>>,
    workspace: Seq<u8>,
    files: Files,
)
    requires
        normalized_list(field, entries, results, workspace, files),
    ensures
        list_goes_on_as(field, entries, results, workspace, files),
{
    assert forall|i: int| 0 <= i < entries.len() implies goes_on_as(
        field,
        #[trigger] entries[i],
        results[i],
        workspace,
        files,
    ) by {
        assert(normalized_entry((field, entries[i]), workspace, files) == Ok::<
            Seq<char>,
            Seq<char>,
        >(results[i]));
        lemma_entry_exactly(field, entries[i], results[i], workspace, files);
    }
}

/// The key of each list.
pub open spec fn list_key(field: PathField) -> Seq<char> {
    match field {
        PathField::Read => "read"@,
        PathField::Write => "write"@,
        PathField::ReadFile => "read_file"@,
        PathField::WriteFile => "write_file"@,
        PathField::Deny => "deny"@,
    }
}

/// How an entry is told: with the list that it stands in.
pub open spec fn told_as(field: PathField, entry: Seq<char>) -> Seq<char> {
    "filesystem."@ + list_key(field) + " entry '"@ + entry + "'"@
}

/// What is told when an entry is refused: the list and the entry, and what is wrong with it. A
/// target for writing is told by the path that the entry names.
pub proof fn lemma_refused_entry_is_told(
    field: PathField,
    entry: Seq<char>,
    workspace: Seq<u8>,
    files: Files,
)
    ensures
        normalized_entry((field, entry), workspace, files) matches Err(told) ==> match normalized_path(
            entry,
            workspace,
            files,
        ) {
            Err(why) => told == told_as(field, entry) + " is not usable"@ + ": "@ + why,
            Ok(name) => {
                let label = told_as(field, name);
                let stated = "~"@.is_prefix_of(name) || name.contains('$') || name.contains('*')
                    || name.contains('?') || name.contains('[');
                &&& field == PathField::Write || field == PathField::WriteFile
                &&& if stated {
                    told == label
                        + " must be a concrete path without variables, '~', or glob patterns; use an existing workspace-relative or absolute path"@
                } else {
                    match files(Question::Canonicalize(encode_utf8(name))).path() {
                        Err(why) => told == label
                            + " could not be resolved; create the target before running runseal (nono skips missing profile write targets)"@
                            + ": "@ + why,
                        Ok(p) => match files(Question::Metadata(p)).metadata() {
                            Err(why) => told == "failed to inspect "@ + label + ": "@ + why,
                            Ok((kind, _)) => if field == PathField::Write && kind
                                != FileKind::Directory {
                                told == label + " must name an existing "@ + "directory"@
                            } else if field == PathField::WriteFile && kind != FileKind::File {
                                told == label + " must name an existing "@ + "regular file"@
                            } else {
                                told == label + " resolves to a non-UTF-8 path"@
                            },
                        },
                    }
                }
            },
        },
{
    assert(told_as(field, entry) == entry_label(field, entry));
    if let Ok(name) = normalized_path(entry, workspace, files) {
        assert(told_as(field, name) == entry_label(field, name));
        reveal_strlit("~");
        assert("~"@.is_prefix_of(name) == (name.len() > 0 && name[0] == '~')) by {
            if "~"@.is_prefix_of(name) {
                assert(name.subrange(0, 1)[0] == "~"@[0]);
            }
            if name.len() > 0 && name[0] == '~' {
                assert(name.subrange(0, 1) == "~"@);
            }
        }
    }
}

/// What a network section is refused for: a host list that names a mode, a block that is lifted, or
/// a block beside a host list.
pub proof fn lemma_network_refusals(network: NetworkModel)
    ensures
        network_refusal(Some(network)) is None <==> is_clear(network),
        try_all(network.allow_domain, each_domain()) matches Err(why) ==> network_refusal(
            Some(network),
        ) == Some("network.allow_domain is not usable"@ + ": "@ + why),
        try_all(network.allow_domain, each_domain()) is Ok && network.block == Some(false)
            ==> network_refusal(Some(network)) == Some(
            "network.block 'false' has no effect: nono keeps a block once any layer sets it. Grant network access by listing hosts in network.allow_domain"@,
        ),
        try_all(network.allow_domain, each_domain()) is Ok && network.block == Some(true)
            && network.allow_domain.len() > 0 ==> network_refusal(Some(network)) == Some(
            "network.block 'true' cannot be combined with network.allow_domain; domain filtering requires the proxy"@,
        ),
{
    lemma_domains_exactly(network.allow_domain);
}

/// What is told when an entry names no path: that it is blank, that it holds `${`, why it cannot be
/// followed in the workspace, or that what it leads to is no text.
pub proof fn lemma_path_refusals(entry: Seq<char>, workspace: Seq<u8>, files: Files)
    ensures
        normalized_path(entry, workspace, files) matches Err(told) ==> {
            let e = trimmed(entry);
            if e.len() == 0 {
                told == "filesystem entries must not be empty"@
            } else if exists|i: int|
                0 <= i <= e.len() - 2 && #[trigger] e.subrange(i, i + 2) == seq!['$', '{'] {
                told == "'${VAR}' is not expanded by nono; write '$VAR' instead"@
            } else {
                &&& e[0] != '/' && e[0] != '~' && e[0] != '$'
                &&& match resolved_relative(workspace, e, files) {
                    Err(why) => told == why,
                    Ok(p) => !valid_utf8(p) && told == "'"@ + shown_text(p)
                        + "' is not valid UTF-8"@,
                }
            }
        },
{
    lemma_pair_exactly(trimmed(entry), '$', '{');
}

} // verus!
