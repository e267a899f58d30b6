//! Loading the profile of a repository: finding it in the workspace, reading it, validating it.
use vstd::prelude::*;
use vstd::string::*;
use vstd::utf8::{decode_utf8, encode_utf8, encode_utf8_decode_utf8};

use crate::document::document_of;
use crate::encoding;
use crate::encoding::shown_text;
use crate::error::{in_context, outcome, Error};
use crate::files::{Answer, FileKind, Files, Query, Question, Reply};
use crate::normalize::{
    is_anchored, lemma_lists_are_normalized, lemma_lists_exactly, lemma_normalized_exactly,
    lemma_relative_entry_stays_inside, lemma_relative_target_stays_inside, lies_inside,
    list_goes_on_as, normalized, normalized_list, Normalizer, PathField,
};
use crate::path;
use crate::path::{Component, Part};
use crate::repo_profile;
use crate::repo_profile::{
    is_written, is_written_filesystem, is_written_network, lemma_only_accepted_keys,
    lemma_profile_is_as_written, only_accepted_keys, profile_in, FilesystemModel, ProfileModel,
    RepoModel, RepoProfile,
};
use crate::resolve::{leads_to_itself, steady};
use crate::text;
use crate::text::trimmed;

verus! {

/// The most bytes that a profile may have.
pub const MAX_PROFILE_JSON_BYTES: u64 = 65536;

/// Why an input cannot name a profile of the repository, if it cannot.
pub open spec fn input_refusal(input: Seq<char>) -> Option<Seq<char>> {
    if input.len() == 0 {
        Some("profile input is empty; name a profile file such as 'runseal.json'"@)
    } else if path::rooted(encode_utf8(input)) {
        Some(
            "profile '"@ + input
                + "' must be a path relative to the workspace, not an absolute path"@,
        )
    } else if path::parts(encode_utf8(input)).contains(Part::Parent) {
        Some("profile '"@ + input + "' must not traverse out of the workspace with '..'"@)
    } else {
        None
    }
}

/// The profile that an input names in a workspace, on the files as they are.
pub open spec fn loaded(input: Seq<char>, workspace: Seq<u8>, files: Files) -> Result<
    RepoModel,
    Seq<char>,
> {
    match input_refusal(trimmed(input)) {
        Some(e) => Err(e),
        None => loaded_from(trimmed(input), workspace, files),
    }
}

/// The profile that a relative path names in a workspace.
pub open spec fn loaded_from(input: Seq<char>, workspace: Seq<u8>, files: Files) -> Result<
    RepoModel,
    Seq<char>,
> {
    match files(Question::Canonicalize(workspace)).path() {
        Err(t) => Err(
            in_context("failed to resolve the workspace '"@ + shown_text(workspace) + "'"@, t),
        ),
        Ok(root) => loaded_below(input, root, files),
    }
}

/// The profile that a relative path names below the real place of the workspace. It must not lead
/// out of there.
pub open spec fn loaded_below(input: Seq<char>, root: Seq<u8>, files: Files) -> Result<
    RepoModel,
    Seq<char>,
> {
    match files(Question::Canonicalize(path::joined_path(root, encode_utf8(input)))).path() {
        Err(t) => Err(
            in_context(
                "profile '"@ + input + "' was not found in '"@ + shown_text(root) + "'"@,
                t,
            ),
        ),
        Ok(source) => if path::within(source, root) {
            loaded_file(source, root, files)
        } else {
            Err(
                "profile '"@ + input + "' resolves to '"@ + shown_text(source)
                    + "', which is outside the workspace '"@ + shown_text(root) + "'"@,
            )
        },
    }
}

/// The profile in a file that has been found: a regular file, and not too large.
pub open spec fn loaded_file(source: Seq<u8>, root: Seq<u8>, files: Files) -> Result<
    RepoModel,
    Seq<char>,
> {
    match files(Question::Metadata(source)).metadata() {
        Err(t) => Err(in_context("failed to stat profile '"@ + shown_text(source) + "'"@, t)),
        Ok((kind, len)) => if kind != FileKind::File {
            Err("profile '"@ + shown_text(source) + "' is not a regular file"@)
        } else if len > MAX_PROFILE_JSON_BYTES {
            Err(
                "profile '"@ + shown_text(source) + "' is too large ("@ + text::decimal(
                    len as nat,
                ) + " bytes); maximum is "@ + text::decimal(MAX_PROFILE_JSON_BYTES as nat)
                    + " bytes"@,
            )
        } else {
            loaded_text(source, root, files)
        },
    }
}

/// The profile in a file that may be read.
pub open spec fn loaded_text(source: Seq<u8>, root: Seq<u8>, files: Files) -> Result<
    RepoModel,
    Seq<char>,
> {
    match files(Question::ReadText(source)).text() {
        Err(t) => Err(in_context("failed to read profile '"@ + shown_text(source) + "'"@, t)),
        Ok(content) => accepted(
            source,
            match profile_in(content) {
                Err(e) => Err(e),
                Ok(profile) => normalized(profile, root, files),
            },
        ),
    }
}

/// A profile with its file, if it was not rejected.
pub open spec fn accepted(source: Seq<u8>, profile: Result<ProfileModel, Seq<char>>) -> Result<
    RepoModel,
    Seq<char>,
> {
    match profile {
        Err(e) => Err(in_context("profile '"@ + shown_text(source) + "' was rejected"@, e)),
        Ok(profile) => Ok(RepoModel { source, profile }),
    }
}

/// The loading of a profile: it asks one question at a time.
pub enum Loader {
    Settled(Result<RepoProfile, Error>),
    FindingWorkspace { input: String, workspace: Vec<u8> },
    FindingProfile { input: String, root: Vec<u8> },
    Inspecting { root: Vec<u8>, source: Vec<u8> },
    Reading { root: Vec<u8>, source: Vec<u8> },
    Normalizing { source: Vec<u8>, normalizer: Normalizer },
}

/// Whether a path goes up anywhere.
fn goes_up(components: &Vec<Component>) -> (r: bool)
    ensures
        r == components.deep_view().contains(Part::Parent),
{
    let ghost all = components.deep_view();
    let mut i: usize = 0;
    while i < components.len()
        invariant
            i <= components@.len(),
            all == components.deep_view(),
            forall|j: int| 0 <= j < i ==> #[trigger] all[j] != Part::Parent,
        decreases components@.len() - i,
    {
        if let Component::ParentDir = &components[i] {
            assert(all[i as int] == Part::Parent);
            return true;
        }
        i = i + 1;
    }
    false
}

/// A failure about a file, told after what was being attempted.
fn failure_at(attempt: &str, file: &Vec<u8>, end: &str, cause: &str) -> (r: Error)
    ensures
        r@ == in_context(attempt@ + shown_text(file@) + end@, cause@),
{
    let shown = encoding::decode_lossy(file.as_slice());
    let mut told = attempt.to_owned();
    told.append(shown.as_str());
    told.append(end);
    Error::new(cause).context(told.as_str())
}

/// Starts to load the profile that `input` names in `workspace`.
pub fn load(input: &str, workspace: &Vec<u8>) -> (r: Loader)
    ensures
        r.wf(),
        forall|files: Files| #[trigger] r.ending(files) == loaded(input@, workspace@, files),
{
    let name = text::trim(input);
    if name.is_empty() {
        return Loader::Settled(
            Err(Error::new("profile input is empty; name a profile file such as 'runseal.json'")),
        );
    }
    let requested = name.as_bytes_vec();
    if path::is_absolute(&requested) {
        return Loader::Settled(
            Err(
                Error::about(
                    "profile '",
                    name,
                    "' must be a path relative to the workspace, not an absolute path",
                ),
            ),
        );
    }
    if goes_up(&path::components(&requested)) {
        return Loader::Settled(
            Err(
                Error::about(
                    "profile '",
                    name,
                    "' must not traverse out of the workspace with '..'",
                ),
            ),
        );
    }
    let kept = path::slice(workspace, 0, workspace.len());
    assert(kept@ == workspace@);
    Loader::FindingWorkspace { input: name.to_owned(), workspace: kept }
}

impl Loader {
    pub open spec fn wf(self) -> bool {
        self matches Loader::Normalizing { source, normalizer } ==> normalizer.wf()
            && normalizer is Working
    }

    /// The question that has to be put next, if the loading is not settled.
    pub open spec fn question(self) -> Option<Question> {
        match self {
            Loader::Settled(_) => None,
            Loader::FindingWorkspace { input, workspace } => Some(
                Question::Canonicalize(workspace@),
            ),
            Loader::FindingProfile { input, root } => Some(
                Question::Canonicalize(path::joined_path(root@, encode_utf8(input@))),
            ),
            Loader::Inspecting { root, source } => Some(Question::Metadata(source@)),
            Loader::Reading { root, source } => Some(Question::ReadText(source@)),
            Loader::Normalizing { source, normalizer } => normalizer.question(),
        }
    }

    /// How the loading ends when its questions are answered from `files`.
    pub open spec fn ending(self, files: Files) -> Result<RepoModel, Seq<char>> {
        match self {
            Loader::Settled(r) => outcome(r),
            Loader::FindingWorkspace { input, workspace } => loaded_from(
                input@,
                workspace@,
                files,
            ),
            Loader::FindingProfile { input, root } => loaded_below(input@, root@, files),
            Loader::Inspecting { root, source } => loaded_file(source@, root@, files),
            Loader::Reading { root, source } => loaded_text(source@, root@, files),
            Loader::Normalizing { source, normalizer } => accepted(
                source@,
                normalizer.ending(files),
            ),
        }
    }

    /// How many stages are still to come.
    pub open spec fn stages_left(self) -> int {
        match self {
            Loader::Settled(_) => 0,
            Loader::FindingWorkspace { input, workspace } => 5,
            Loader::FindingProfile { input, root } => 4,
            Loader::Inspecting { root, source } => 3,
            Loader::Reading { root, source } => 2,
            Loader::Normalizing { source, normalizer } => 1,
        }
    }

    /// Whether less is left to be done than at an earlier time.
    pub open spec fn is_after(self, earlier: Self) -> bool {
        ||| self.stages_left() < earlier.stages_left()
        ||| match (self, earlier) {
            (
                Loader::Normalizing { source: s, normalizer: now },
                Loader::Normalizing { source: t, normalizer: before },
            ) => now.is_after(before),
            _ => false,
        }
    }

    /// Goes on with the normalization of a profile, settled or not.
    fn follow(source: Vec<u8>, normalizer: Normalizer) -> (r: Self)
        requires
            normalizer.wf(),
        ensures
            r.wf(),
            r.stages_left() <= 1,
            r matches Loader::Normalizing { source: s, normalizer: n } ==> n == normalizer,
            forall|files: Files| #[trigger]
                r.ending(files) == accepted(source@, normalizer.ending(files)),
    {
        match normalizer {
            Normalizer::Settled(Ok(profile)) => Loader::Settled(
                Ok(RepoProfile { source, profile }),
            ),
            Normalizer::Settled(Err(e)) => Loader::Settled(
                Err(failure_at("profile '", &source, "' was rejected", e.message())),
            ),
            waiting => Loader::Normalizing { source, normalizer: waiting },
        }
    }

    /// The question that has to be put next, if the loading is not settled.
    pub fn query(&self) -> (r: Option<Query>)
        ensures
            r.deep_view() == self.question(),
    {
        match self {
            Loader::Settled(_) => None,
            Loader::FindingWorkspace { input, workspace } => {
                let p = path::slice(workspace, 0, workspace.len());
                assert(p@ == workspace@);
                Some(Query::Canonicalize(p))
            },
            Loader::FindingProfile { input, root } => Some(
                Query::Canonicalize(path::join(root, &input.as_str().as_bytes_vec())),
            ),
            Loader::Inspecting { root, source } => {
                let p = path::slice(source, 0, source.len());
                assert(p@ == source@);
                Some(Query::Metadata(p))
            },
            Loader::Reading { root, source } => {
                let p = path::slice(source, 0, source.len());
                assert(p@ == source@);
                Some(Query::ReadText(p))
            },
            Loader::Normalizing { source, normalizer } => normalizer.query(),
        }
    }

    /// Takes the reply to the question. Whatever files it came from, the ending stays the same.
    pub fn step(self, reply: Reply) -> (r: Self)
        requires
            self.wf(),
        ensures
            r.wf(),
            !(self is Settled) ==> r.is_after(self),
            forall|files: Files|
                self.question() matches Some(q) && files(q) == reply.deep_view()
                    ==> #[trigger] r.ending(files) == self.ending(files),
            self is Settled ==> r == self,
    {
        match self {
            Loader::Settled(_) => self,
            Loader::FindingWorkspace { input, workspace } => match reply.into_path() {
                Ok(root) => Loader::FindingProfile { input, root },
                Err(t) => Loader::Settled(
                    Err(
                        failure_at(
                            "failed to resolve the workspace '",
                            &workspace,
                            "'",
                            t.as_str(),
                        ),
                    ),
                ),
            },
            Loader::FindingProfile { input, root } => match reply.into_path() {
                Ok(source) => {
                    if path::starts_with(&source, &root) {
                        Loader::Inspecting { root, source }
                    } else {
                        let shown = encoding::decode_lossy(source.as_slice());
                        let place = encoding::decode_lossy(root.as_slice());
                        Loader::Settled(
                            Err(
                                Error::relating(
                                    "profile '",
                                    input.as_str(),
                                    "' resolves to '",
                                    shown.as_str(),
                                    "', which is outside the workspace '",
                                ).extended(place.as_str()).extended("'"),
                            ),
                        )
                    }
                },
                Err(t) => {
                    let mut attempt = "profile '".to_owned();
                    attempt.append(input.as_str());
                    attempt.append("' was not found in '");
                    Loader::Settled(Err(failure_at(attempt.as_str(), &root, "'", t.as_str())))
                },
            },
            Loader::Inspecting { root, source } => match reply.into_metadata() {
                Err(t) => Loader::Settled(
                    Err(failure_at("failed to stat profile '", &source, "'", t.as_str())),
                ),
                Ok((kind, len)) => {
                    let shown = encoding::decode_lossy(source.as_slice());
                    if kind != FileKind::File {
                        Loader::Settled(
                            Err(
                                Error::about("profile '", shown.as_str(), "' is not a regular file"),
                            ),
                        )
                    } else if len > MAX_PROFILE_JSON_BYTES {
                        let size = text::to_decimal(len);
                        let most = text::to_decimal(MAX_PROFILE_JSON_BYTES);
                        Loader::Settled(
                            Err(
                                Error::relating(
                                    "profile '",
                                    shown.as_str(),
                                    "' is too large (",
                                    size.as_str(),
                                    " bytes); maximum is ",
                                ).extended(most.as_str()).extended(" bytes"),
                            ),
                        )
                    } else {
                        Loader::Reading { root, source }
                    }
                },
            },
            Loader::Reading { root, source } => match reply.into_text() {
                Err(t) => Loader::Settled(
                    Err(failure_at("failed to read profile '", &source, "'", t.as_str())),
                ),
                Ok(content) => match repo_profile::parse(content.as_str()) {
                    Err(e) => Loader::Settled(
                        Err(failure_at("profile '", &source, "' was rejected", e.message())),
                    ),
                    Ok(profile) => Self::follow(source, Normalizer::start(profile, &root)),
                },
            },
            Loader::Normalizing { source, normalizer } => {
                let ghost asked = normalizer;
                let next = normalizer.step(reply);
                let r = Self::follow(source, next);
                assert forall|files: Files|
                    self.question() matches Some(q) && files(q)
                        == reply.deep_view() implies #[trigger] r.ending(files) == self.ending(
                    files,
                ) by {
                    assert(next.ending(files) == asked.ending(files));
                }
                r
            },
        }
    }

    /// What was loaded, once the loading is settled; nothing before that.
    pub fn finish(self) -> (r: Option<Result<RepoProfile, Error>>)
        ensures
            r is Some <==> self is Settled,
            r matches Some(result) ==> forall|files: Files| #[trigger]
                self.ending(files) == outcome(result),
    {
        match self {
            Loader::Settled(result) => Some(result),
            _ => None,
        }
    }
}

/// A profile is loaded only from a regular file in the workspace that is not too large, whatever
/// links lead there; and only if all its keys are accepted.
pub proof fn lemma_loaded_from_workspace(input: Seq<char>, workspace: Seq<u8>, files: Files)
    ensures
        loaded(input, workspace, files) matches Ok(repo) ==> {
            &&& files(Question::Canonicalize(workspace)).path() matches Ok(root) && path::within(
                repo.source,
                root,
            )
            &&& files(Question::Metadata(repo.source)).metadata() matches Ok((kind, len)) && kind
                == FileKind::File && len <= MAX_PROFILE_JSON_BYTES
            &&& files(Question::ReadText(repo.source)).text() matches Ok(content) && document_of(
                content,
            ) matches Ok(document) && only_accepted_keys(document)
        },
{
    if let Ok(repo) = loaded(input, workspace, files) {
        let content = files(Question::ReadText(repo.source)).text()->Ok_0;
        lemma_only_accepted_keys(document_of(content)->Ok_0);
    }
}

/// A profile that has been loaded is normalized against the real place of the workspace.
pub proof fn lemma_loaded_is_normalized(input: Seq<char>, workspace: Seq<u8>, files: Files)
    ensures
        loaded(input, workspace, files) matches Ok(repo) ==> {
            &&& files(Question::ReadText(repo.source)).text() matches Ok(content)
            &&& profile_in(content) matches Ok(written)
            &&& files(Question::Canonicalize(workspace)).path() matches Ok(root)
            &&& normalized(written, root, files) == Ok::<ProfileModel, Seq<char>>(repo.profile)
        },
{
}

/// An input that is absolute or goes up is refused before any file is looked at.
pub proof fn lemma_input_refused_first(input: Seq<char>, workspace: Seq<u8>, files: Files)
    requires
        input_refusal(trimmed(input)) is Some,
    ensures
        loaded(input, workspace, files) == Err::<RepoModel, Seq<char>>(
            input_refusal(trimmed(input))->Some_0,
        ),
{
}

/// Whether the entries of a list that were written as relative paths lie in a directory.
pub open spec fn relative_ones_inside(
    written: Seq<Seq<char>>,
    accepted: Seq<Seq<char>>,
    root: Seq<u8>,
) -> bool {
    written.len() == accepted.len() && forall|i: int|
        0 <= i < written.len() && !is_anchored(trimmed(#[trigger] written[i])) ==> lies_inside(
            accepted[i],
            root,
        )
}

proof fn lemma_list_inside(
    field: PathField,
    written: Seq<Seq<char>>,
    accepted: Seq<Seq<char>>,
    root: Seq<u8>,
    files: Files,
)
    requires
        steady(files),
        leads_to_itself(root, files),
        normalized_list(field, written, accepted, root, files),
    ensures
        relative_ones_inside(written, accepted, root),
{
    assert forall|i: int|
        0 <= i < written.len() && !is_anchored(trimmed(#[trigger] written[i])) implies lies_inside(
        accepted[i],
        root,
    ) by {
        if field.grants_writing() {
            lemma_relative_target_stays_inside(field, written[i], root, files);
        } else {
            lemma_relative_entry_stays_inside(field, written[i], root, files);
        }
    }
}

/// A profile that has been loaded names nothing outside the workspace by a relative path: not to
/// read, not to write, not to deny.
pub proof fn lemma_loaded_relative_paths_inside(
    input: Seq<char>,
    workspace: Seq<u8>,
    files: Files,
)
    requires
        steady(files),
    ensures
        loaded(input, workspace, files) matches Ok(repo) ==> {
            &&& files(Question::ReadText(repo.source)).text() matches Ok(content)
            &&& profile_in(content) matches Ok(written)
            &&& files(Question::Canonicalize(workspace)).path() matches Ok(root)
            &&& match (written.filesystem, repo.profile.filesystem) {
                (None, None) => true,
                (Some(f), Some(g)) => {
                    &&& relative_ones_inside(f.read, g.read, root)
                    &&& relative_ones_inside(f.write, g.write, root)
                    &&& relative_ones_inside(f.read_file, g.read_file, root)
                    &&& relative_ones_inside(f.write_file, g.write_file, root)
                    &&& relative_ones_inside(f.deny, g.deny, root)
                },
                _ => false,
            }
        },
{
    lemma_loaded_is_normalized(input, workspace, files);
    if let Ok(repo) = loaded(input, workspace, files) {
        let content = files(Question::ReadText(repo.source)).text()->Ok_0;
        let written = profile_in(content)->Ok_0;
        let root = files(Question::Canonicalize(workspace)).path()->Ok_0;
        assert(leads_to_itself(root, files));
        lemma_lists_are_normalized(written, root, files);
        if let Some(f) = written.filesystem {
            let g = repo.profile.filesystem->Some_0;
            lemma_list_inside(PathField::Read, f.read, g.read, root, files);
            lemma_list_inside(PathField::Write, f.write, g.write, root, files);
            lemma_list_inside(PathField::ReadFile, f.read_file, g.read_file, root, files);
            lemma_list_inside(PathField::WriteFile, f.write_file, g.write_file, root, files);
            lemma_list_inside(PathField::Deny, f.deny, g.deny, root, files);
        }
    }
}

/// Whether an input can name a profile: it is not empty, does not start at the root, and goes up
/// nowhere.
pub open spec fn can_name_profile(input: Seq<char>) -> bool {
    &&& input.len() > 0
    &&& encode_utf8(input)[0] != 47
    &&& !path::parts(encode_utf8(input)).contains(Part::Parent)
}

/// Whether a profile is the one that an input names: it stands in a regular file of at most 64 KiB
/// that lies within the real place of the workspace, and is what the text of that file says,
/// normalized against that place.
pub open spec fn is_found(input: Seq<char>, workspace: Seq<u8>, files: Files, repo: RepoModel) -> bool {
    &&& can_name_profile(trimmed(input))
    &&& files(Question::Canonicalize(workspace)) matches Answer::Path(root)
    &&& files(
        Question::Canonicalize(path::joined_path(root, encode_utf8(trimmed(input)))),
    ) == Answer::Path(repo.source)
    &&& path::within(repo.source, root)
    &&& files(Question::Metadata(repo.source)) matches Answer::Metadata(kind, len)
    &&& kind == FileKind::File
    &&& len <= 64 * 1024
    &&& files(Question::ReadText(repo.source)) matches Answer::Text(content)
    &&& profile_in(content) matches Ok(written)
    &&& normalized(written, root, files) == Ok::<ProfileModel, Seq<char>>(repo.profile)
}

/// A profile is loaded exactly if it is the one that the input names.
pub proof fn lemma_loaded_exactly(
    input: Seq<char>,
    workspace: Seq<u8>,
    files: Files,
    repo: RepoModel,
)
    ensures
        loaded(input, workspace, files) == Ok::<RepoModel, Seq<char>>(repo) <==> is_found(
            input,
            workspace,
            files,
            repo,
        ),
{
    let name = trimmed(input);
    encode_utf8_decode_utf8(name);
    if name.len() > 0 {
        assert(encode_utf8(name).len() > 0) by {
            if encode_utf8(name).len() == 0 {
                assert(decode_utf8(encode_utf8(name)).len() == 0);
            }
        }
    }
    assert(input_refusal(name) is None <==> can_name_profile(name));
    if let Ok(found) = loaded(input, workspace, files) {
        assert(is_found(input, workspace, files, found));
    }
    if is_found(input, workspace, files, repo) {
        assert(loaded(input, workspace, files) == Ok::<RepoModel, Seq<char>>(repo));
    }
}

/// A profile of the repository, the whole way from its text: an entry in the text stands in the
/// list of the same name, as what it goes on as in the workspace.
pub proof fn lemma_loaded_lists_exactly(input: Seq<char>, workspace: Seq<u8>, files: Files)
    ensures
        loaded(input, workspace, files) matches Ok(repo) ==> {
            &&& files(Question::ReadText(repo.source)) matches Answer::Text(content)
            &&& files(Question::Canonicalize(workspace)) matches Answer::Path(root)
            &&& repo.profile.filesystem is Some == is_written(
                content,
                "filesystem"@,
                "/filesystem"@,
            )
            &&& repo.profile.filesystem matches Some(g) ==> exists|f: FilesystemModel| #[trigger]
                is_written_filesystem(content, f) && {
                    &&& list_goes_on_as(PathField::Read, f.read, g.read, root, files)
                    &&& list_goes_on_as(PathField::Write, f.write, g.write, root, files)
                    &&& list_goes_on_as(
                        PathField::ReadFile,
                        f.read_file,
                        g.read_file,
                        root,
                        files,
                    )
                    &&& list_goes_on_as(
                        PathField::WriteFile,
                        f.write_file,
                        g.write_file,
                        root,
                        files,
                    )
                    &&& list_goes_on_as(PathField::Deny, f.deny, g.deny, root, files)
                }
            &&& repo.profile.network is Some == is_written(content, "network"@, "/network"@)
            &&& repo.profile.network matches Some(n) ==> is_written_network(content, n)
        },
{
    if let Ok(repo) = loaded(input, workspace, files) {
        lemma_loaded_exactly(input, workspace, files, repo);
        let content = files(Question::ReadText(repo.source))->Text_0;
        let root = files(Question::Canonicalize(workspace))->Path_0;
        let written = profile_in(content)->Ok_0;
        lemma_profile_is_as_written(content);
        lemma_normalized_exactly(written, root, files);
        lemma_lists_exactly(written, root, files);
        if let Some(f) = written.filesystem {
            assert(is_written_filesystem(content, f));
        }
    }
}

/// What is told when a profile cannot be loaded: what is wrong with the input; that the workspace or
/// the profile is not found; that the profile lies outside, is no regular file, is too large or
/// cannot be read; or why its text was rejected. The first that applies is told.
pub proof fn lemma_load_refusals(input: Seq<char>, workspace: Seq<u8>, files: Files)
    ensures
        loaded(input, workspace, files) matches Err(told) ==> {
            let name = trimmed(input);
            let bytes = encode_utf8(name);
            if name.len() == 0 {
                told == "profile input is empty; name a profile file such as 'runseal.json'"@
            } else if bytes.len() > 0 && bytes[0] == 47 {
                told == "profile '"@ + name
                    + "' must be a path relative to the workspace, not an absolute path"@
            } else if path::parts(bytes).contains(Part::Parent) {
                told == "profile '"@ + name + "' must not traverse out of the workspace with '..'"@
            } else {
                match files(Question::Canonicalize(workspace)).path() {
                    Err(why) => told == "failed to resolve the workspace '"@ + shown_text(workspace)
                        + "'"@ + ": "@ + why,
                    Ok(root) => match files(
                        Question::Canonicalize(path::joined_path(root, bytes)),
                    ).path() {
                        Err(why) => told == "profile '"@ + name + "' was not found in '"@
                            + shown_text(root) + "'"@ + ": "@ + why,
                        Ok(source) => lies_outside_told(name, source, root, told)
                            || file_refusal_told(source, files, told) || rejection_told(
                            source,
                            root,
                            files,
                            told,
                        ),
                    },
                }
            }
        },
{
}

/// Whether it is told that a profile lies outside the workspace, as it does.
pub open spec fn lies_outside_told(
    name: Seq<char>,
    source: Seq<u8>,
    root: Seq<u8>,
    told: Seq<char>,
) -> bool {
    &&& !path::within(source, root)
    &&& told == "profile '"@ + name + "' resolves to '"@ + shown_text(source)
        + "', which is outside the workspace '"@ + shown_text(root) + "'"@
}

/// Whether it is told why the file of a profile cannot be used: it cannot be inspected or read, is
/// no regular file, or is too large.
pub open spec fn file_refusal_told(source: Seq<u8>, files: Files, told: Seq<char>) -> bool {
    match files(Question::Metadata(source)).metadata() {
        Err(why) => told == "failed to stat profile '"@ + shown_text(source) + "'"@ + ": "@ + why,
        Ok((kind, len)) => if kind != FileKind::File {
            told == "profile '"@ + shown_text(source) + "' is not a regular file"@
        } else if len > 65536 {
            told == "profile '"@ + shown_text(source) + "' is too large ("@ + text::decimal(
                len as nat,
            ) + " bytes); maximum is "@ + text::decimal(65536) + " bytes"@
        } else {
            files(Question::ReadText(source)).text() matches Err(why) && told
                == "failed to read profile '"@ + shown_text(source) + "'"@ + ": "@ + why
        },
    }
}

/// Whether it is told why the text of a profile was rejected: by itself, or against the workspace.
pub open spec fn rejection_told(
    source: Seq<u8>,
    root: Seq<u8>,
    files: Files,
    told: Seq<char>,
) -> bool {
    files(Question::ReadText(source)).text() matches Ok(content) && match profile_in(content) {
        Err(why) => told == "profile '"@ + shown_text(source) + "' was rejected"@ + ": "@ + why,
        Ok(written) => normalized(written, root, files) matches Err(why) && told == "profile '"@
            + shown_text(source) + "' was rejected"@ + ": "@ + why,
    }
}

} // verus!
