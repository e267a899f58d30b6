//! The profile that a repository brings along, laid beneath the generated one.
use vstd::prelude::*;
use vstd::string::*;
use vstd::utf8::encode_utf8;

use crate::document::{
    document_of, field_in, field_place, fields_in, find_flag, find_list, find_text, flag_in,
    list_in, read_document, section_at, section_place, text_in, Document, DocumentModel, Form,
    FormModel, Section, SectionModel,
};
use crate::error::{lemma_try_all_exactly, lemma_try_all_next, outcome, try_all, Error};
use crate::json::{
    flag_at, holds_flag, holds_list, holds_text, json_node, lemma_readings_exactly, text_at,
    texts_at, NodeModel,
};
use crate::path;
use crate::text;

verus! {

/// The name under which the generated profile extends the one of the repository.
pub const BASE_NAME: &'static str = "runseal-repo";

/// What a profile says of itself.
pub struct Meta {
    pub name: Option<String>,
    pub description: Option<String>,
}

/// The paths that a profile speaks of.
pub struct Filesystem {
    pub read: Vec<String>,
    pub write: Vec<String>,
    pub read_file: Vec<String>,
    pub write_file: Vec<String>,
    pub deny: Vec<String>,
}

/// The hosts that a profile grants, or that it blocks the network.
pub struct Network {
    pub allow_domain: Vec<String>,
    pub block: Option<bool>,
}

/// All that a profile of a repository may hold.
pub struct BaseProfile {
    pub meta: Option<Meta>,
    pub filesystem: Option<Filesystem>,
    pub network: Option<Network>,
}

/// A validated profile and the file it was read from.
pub struct RepoProfile {
    pub source: Vec<u8>,
    pub profile: BaseProfile,
}

/// What a profile says of itself, as a mathematical value.
pub struct MetaModel {
    pub name: Option<Seq<char>>,
    pub description: Option<Seq<char>>,
}

/// The paths that a profile speaks of, as a mathematical value.
pub struct FilesystemModel {
    pub read: Seq<Seq<char>>,
    pub write: Seq<Seq<char>>,
    pub read_file: Seq<Seq<char>>,
    pub write_file: Seq<Seq<char>>,
    pub deny: Seq<Seq<char>>,
}

/// The network part of a profile, as a mathematical value.
pub struct NetworkModel {
    pub allow_domain: Seq<Seq<char>>,
    pub block: Option<bool>,
}

/// A profile of a repository, as a mathematical value.
pub struct ProfileModel {
    pub meta: Option<MetaModel>,
    pub filesystem: Option<FilesystemModel>,
    pub network: Option<NetworkModel>,
}

/// A validated profile and its file, as a mathematical value.
pub struct RepoModel {
    pub source: Seq<u8>,
    pub profile: ProfileModel,
}

impl DeepView for Meta {
    type V = MetaModel;

    open spec fn deep_view(&self) -> MetaModel {
        MetaModel { name: self.name.deep_view(), description: self.description.deep_view() }
    }
}

impl DeepView for Filesystem {
    type V = FilesystemModel;

    open spec fn deep_view(&self) -> FilesystemModel {
        FilesystemModel {
            read: self.read.deep_view(),
            write: self.write.deep_view(),
            read_file: self.read_file.deep_view(),
            write_file: self.write_file.deep_view(),
            deny: self.deny.deep_view(),
        }
    }
}

impl DeepView for Network {
    type V = NetworkModel;

    open spec fn deep_view(&self) -> NetworkModel {
        NetworkModel { allow_domain: self.allow_domain.deep_view(), block: self.block }
    }
}

impl DeepView for BaseProfile {
    type V = ProfileModel;

    open spec fn deep_view(&self) -> ProfileModel {
        ProfileModel {
            meta: self.meta.deep_view(),
            filesystem: self.filesystem.deep_view(),
            network: self.network.deep_view(),
        }
    }
}

impl DeepView for RepoProfile {
    type V = RepoModel;

    open spec fn deep_view(&self) -> RepoModel {
        RepoModel { source: self.source@, profile: self.profile.deep_view() }
    }
}

impl RepoModel {
    /// Whether the profile grants any host.
    pub open spec fn grants_domains(self) -> bool {
        self.profile.network matches Some(network) && network.allow_domain.len() > 0
    }
}

impl RepoProfile {
    /// The canonical path that the profile was read from.
    pub fn source(&self) -> (r: &Vec<u8>)
        ensures
            r@ == self.deep_view().source,
    {
        &self.source
    }

    /// Whether the profile grants any host, so that the network cannot be blocked above it.
    pub fn allows_domains(&self) -> (r: bool)
        ensures
            r == self.deep_view().grants_domains(),
    {
        match &self.profile.network {
            Some(network) => network.allow_domain.len() > 0,
            None => false,
        }
    }
}

/// The keys that are accepted at the top of a profile, or in a section of it.
pub open spec fn accepted_keys(section: Option<Seq<char>>) -> Seq<Seq<char>> {
    match section {
        None => seq!["$schema"@, "meta"@, "filesystem"@, "network"@],
        Some(s) => if s == "meta"@ {
            seq!["name"@, "description"@]
        } else if s == "filesystem"@ {
            seq!["read"@, "write"@, "read_file"@, "write_file"@, "deny"@]
        } else if s == "network"@ {
            seq!["allow_domain"@, "block"@]
        } else {
            Seq::empty()
        },
    }
}

/// The keys that are accepted at the top of a profile, or in a section of it.
pub fn allowed_keys(section: Option<&str>) -> (r: Vec<String>)
    ensures
        r.deep_view() == accepted_keys(section.deep_view()),
{
    let mut keys: Vec<String> = Vec::new();
    match section {
        None => {
            keys.push("$schema".to_owned());
            keys.push("meta".to_owned());
            keys.push("filesystem".to_owned());
            keys.push("network".to_owned());
        },
        Some(s) => if text::same(s, "meta") {
            keys.push("name".to_owned());
            keys.push("description".to_owned());
        } else if text::same(s, "filesystem") {
            keys.push("read".to_owned());
            keys.push("write".to_owned());
            keys.push("read_file".to_owned());
            keys.push("write_file".to_owned());
            keys.push("deny".to_owned());
        } else if text::same(s, "network") {
            keys.push("allow_domain".to_owned());
            keys.push("block".to_owned());
        },
    }
    assert(keys.deep_view() == accepted_keys(section.deep_view()));
    keys
}

/// Why a key at the top of a profile is refused, where there is more to say than that it is not known.
pub open spec fn top_reason(key: Seq<char>) -> Option<Seq<char>> {
    if key == "extends"@ {
        Some("runseal supplies the base profile"@)
    } else if key == "binary"@ {
        Some("it would replace the command the workflow asked runseal to run"@)
    } else if key == "command_args"@ {
        Some("it would append arguments to the sandboxed command"@)
    } else if key == "session_hooks"@ {
        Some("session hooks run outside the sandbox with host privileges"@)
    } else if key == "hooks"@ {
        Some("hook configuration is not part of a runseal sandbox policy"@)
    } else if key == "unsafe_macos_seatbelt_rules"@ {
        Some("raw Seatbelt rules can grant unrestricted access"@)
    } else if key == "command_policies"@ {
        Some("command policies merge base-first, overriding runseal's own policy"@)
    } else if key == "commands"@ {
        Some("runseal does not delegate command allow/deny to the repo"@)
    } else if key == "groups"@ {
        Some("group exclusions are sticky and could drop a nono deny group runseal relies on"@)
    } else if key == "security"@ {
        Some("security settings are runseal's to set"@)
    } else if key == "environment"@ || key == "env_credentials"@ || key == "secrets"@ {
        Some("runseal controls the sandboxed environment and credential injection"@)
    } else if key == "credential_capture"@ || key == "credential_providers"@ || key == "credential_routes"@ {
        Some("profile mode has no credential input; use 'policy' with an 'access' block instead of 'profile'"@)
    } else if key == "packs"@ {
        Some("pack references are not resolved in a CI sandbox"@)
    } else if key == "platform_overrides"@ {
        Some("platform overrides can reintroduce any rejected key"@)
    } else if key == "policy"@ {
        Some("this legacy nono section is not supported"@)
    } else if key == "workdir"@ {
        Some("runseal runs the command in the workspace"@)
    } else {
        None
    }
}

fn top_rejection_reason(key: &str) -> (r: Option<&'static str>)
    ensures
        r.deep_view() == top_reason(key@),
{
    if text::same(key, "extends") {
        Some("runseal supplies the base profile")
    } else if text::same(key, "binary") {
        Some("it would replace the command the workflow asked runseal to run")
    } else if text::same(key, "command_args") {
        Some("it would append arguments to the sandboxed command")
    } else if text::same(key, "session_hooks") {
        Some("session hooks run outside the sandbox with host privileges")
    } else if text::same(key, "hooks") {
        Some("hook configuration is not part of a runseal sandbox policy")
    } else if text::same(key, "unsafe_macos_seatbelt_rules") {
        Some("raw Seatbelt rules can grant unrestricted access")
    } else if text::same(key, "command_policies") {
        Some("command policies merge base-first, overriding runseal's own policy")
    } else if text::same(key, "commands") {
        Some("runseal does not delegate command allow/deny to the repo")
    } else if text::same(key, "groups") {
        Some("group exclusions are sticky and could drop a nono deny group runseal relies on")
    } else if text::same(key, "security") {
        Some("security settings are runseal's to set")
    } else if text::same(key, "environment") || text::same(key, "env_credentials") || text::same(key, "secrets") {
        Some("runseal controls the sandboxed environment and credential injection")
    } else if text::same(key, "credential_capture") || text::same(key, "credential_providers") || text::same(key, "credential_routes") {
        Some("profile mode has no credential input; use 'policy' with an 'access' block instead of 'profile'")
    } else if text::same(key, "packs") {
        Some("pack references are not resolved in a CI sandbox")
    } else if text::same(key, "platform_overrides") {
        Some("platform overrides can reintroduce any rejected key")
    } else if text::same(key, "policy") {
        Some("this legacy nono section is not supported")
    } else if text::same(key, "workdir") {
        Some("runseal runs the command in the workspace")
    } else {
        None
    }
}

/// Why a key among the paths of a profile is refused, where there is more to say than that it is not known.
pub open spec fn filesystem_reason(key: Seq<char>) -> Option<Seq<char>> {
    if key == "allow"@ || key == "allow_file"@ {
        Some("grant read and write separately with 'read'/'read_file' and 'write'/'write_file'"@)
    } else if key == "bypass_protection"@ {
        Some("it removes nono's own deny rules"@)
    } else {
        None
    }
}

fn filesystem_rejection_reason(key: &str) -> (r: Option<&'static str>)
    ensures
        r.deep_view() == filesystem_reason(key@),
{
    if text::same(key, "allow") || text::same(key, "allow_file") {
        Some("grant read and write separately with 'read'/'read_file' and 'write'/'write_file'")
    } else if text::same(key, "bypass_protection") {
        Some("it removes nono's own deny rules")
    } else {
        None
    }
}

/// Why a key in the network part of a profile is refused, where there is more to say than that it is not known.
pub open spec fn network_reason(key: Seq<char>) -> Option<Seq<char>> {
    if key == "credentials"@ || key == "custom_credentials"@ || key == "proxy_credentials"@ {
        Some("profile mode has no credential input; use 'policy' with an 'access' block instead of 'profile'"@)
    } else if key == "proxy_allow"@ || key == "allow_proxy"@ {
        Some("use the canonical key 'allow_domain'"@)
    } else {
        None
    }
}

fn network_rejection_reason(key: &str) -> (r: Option<&'static str>)
    ensures
        r.deep_view() == network_reason(key@),
{
    if text::same(key, "credentials") || text::same(key, "custom_credentials") || text::same(key, "proxy_credentials") {
        Some("profile mode has no credential input; use 'policy' with an 'access' block instead of 'profile'")
    } else if text::same(key, "proxy_allow") || text::same(key, "allow_proxy") {
        Some("use the canonical key 'allow_domain'")
    } else {
        None
    }
}

/// Why a key is refused, where there is more to say than that it is not known.
pub open spec fn reason_for(section: Option<Seq<char>>, key: Seq<char>) -> Option<Seq<char>> {
    match section {
        None => top_reason(key),
        Some(s) => if s == "filesystem"@ {
            filesystem_reason(key)
        } else if s == "network"@ {
            network_reason(key)
        } else {
            None
        },
    }
}

/// Explains why a key is refused, for the keys with which more would be granted than a repository
/// may grant itself.
pub fn rejection_reason(section: Option<&str>, key: &str) -> (r: Option<&'static str>)
    ensures
        r.deep_view() == reason_for(section.deep_view(), key@),
{
    match section {
        None => top_rejection_reason(key),
        Some(s) => if text::same(s, "filesystem") {
            filesystem_rejection_reason(key)
        } else if text::same(s, "network") {
            network_rejection_reason(key)
        } else {
            None
        },
    }
}

/// A key with the section it stands in.
pub open spec fn key_path(section: Option<Seq<char>>, key: Seq<char>) -> Seq<char> {
    match section {
        Some(s) => s + "."@ + key,
        None => key,
    }
}

/// The check of one key.
pub open spec fn key_check(section: Option<Seq<char>>, key: Seq<char>) -> Result<(), Seq<char>> {
    if accepted_keys(section).contains(key) {
        Ok(())
    } else {
        match reason_for(section, key) {
            Some(reason) => Err(
                "profile key '"@ + key_path(section, key) + "' is not permitted: "@ + reason,
            ),
            None => Err(
                "profile key '"@ + key_path(section, key)
                    + "' is not permitted; runseal accepts only "@ + text::joined(
                    accepted_keys(section),
                    ", "@,
                ),
            ),
        }
    }
}

/// `key_check`, as a rule to apply to each key.
pub open spec fn each_key(section: Option<Seq<char>>) -> spec_fn(Seq<char>) -> Result<
    (),
    Seq<char>,
> {
    |key: Seq<char>| key_check(section, key)
}

/// Refuses the first key that is not accepted.
pub fn reject_disallowed_keys(keys: &Vec<String>, section: Option<&str>) -> (r: Result<(), Error>)
    ensures
        match r {
            Ok(_) => key_refusal(keys.deep_view(), section.deep_view()) is None,
            Err(e) => key_refusal(keys.deep_view(), section.deep_view()) == Some(e@),
        },
{
    let allowed = allowed_keys(section);
    let ghost all = keys.deep_view();
    let ghost rule = each_key(section.deep_view());
    let mut i: usize = 0;
    assert(all.take(0) == Seq::<Seq<char>>::empty());
    while i < keys.len()
        invariant
            i <= keys@.len(),
            all == keys.deep_view(),
            rule == each_key(section.deep_view()),
            allowed.deep_view() == accepted_keys(section.deep_view()),
            try_all(all.take(i as int), rule) is Ok,
        decreases keys@.len() - i,
    {
        let key = keys[i].as_str();
        proof {
            assert(all[i as int] == key@);
            lemma_try_all_next(all, rule, i as int);
            assert(rule(all[i as int]) == key_check(section.deep_view(), key@));
        }
        if !text::is_among(key, &allowed) {
            let path = match section {
                Some(s) => {
                    let mut path = s.to_owned();
                    path.append(".");
                    path.append(key);
                    path
                },
                None => key.to_owned(),
            };
            return match rejection_reason(section, key) {
                Some(reason) => Err(
                    Error::saying("profile key '", path.as_str(), "' is not permitted: ", reason),
                ),
                None => {
                    let accepted = text::join(&allowed, ", ");
                    Err(
                        Error::saying(
                            "profile key '",
                            path.as_str(),
                            "' is not permitted; runseal accepts only ",
                            accepted.as_str(),
                        ),
                    )
                },
            };
        }
        i = i + 1;
    }
    assert(all.take(i as int) == all);
    Ok(())
}

/// Why the first key that is not accepted is refused, if there is such a key.
pub open spec fn key_refusal(keys: Seq<Seq<char>>, section: Option<Seq<char>>) -> Option<Seq<char>> {
    match try_all(keys, each_key(section)) {
        Err(e) => Some(e),
        Ok(_) => None,
    }
}

/// Why a section is refused for one of its keys, if it is.
pub open spec fn section_refusal(section: SectionModel, name: Seq<char>) -> Option<Seq<char>> {
    match section {
        SectionModel::Fields { form: FormModel::Object(keys), .. } => key_refusal(
            keys,
            Some(name),
        ),
        _ => None,
    }
}

/// Why a section that is neither an object nor an array is refused: as `serde_json` says it of a
/// value where a unit is expected, with what is expected put right.
pub open spec fn shape_refusal(said: Seq<char>, what: Seq<char>) -> Seq<char> {
    if said.len() >= "unit"@.len() {
        said.take(said.len() - "unit"@.len()) + "struct "@ + what
    } else {
        said
    }
}

/// Why an array with too many items is refused as a section.
pub open spec fn length_refusal(len: nat) -> Seq<char> {
    "invalid length "@ + text::decimal(len) + ", expected fewer elements in array"@
}

/// What five readings in turn yield: all of them, or the first failure.
pub open spec fn in_turn<A>(
    a: Result<A, Seq<char>>,
    b: Result<A, Seq<char>>,
    c: Result<A, Seq<char>>,
    d: Result<A, Seq<char>>,
    e: Result<A, Seq<char>>,
) -> Result<(A, A, A, A, A), Seq<char>> {
    match (a, b, c, d, e) {
        (Err(t), _, _, _, _) => Err(t),
        (_, Err(t), _, _, _) => Err(t),
        (_, _, Err(t), _, _) => Err(t),
        (_, _, _, Err(t), _) => Err(t),
        (_, _, _, _, Err(t)) => Err(t),
        (Ok(a), Ok(b), Ok(c), Ok(d), Ok(e)) => Ok((a, b, c, d, e)),
    }
}

/// The paths that a section stands for. The fields of an object are read in the order of their
/// names, those of an array in the order of their places.
pub open spec fn filesystem_of(section: SectionModel) -> Result<Option<FilesystemModel>, Seq<char>> {
    match section {
        SectionModel::Null => Ok(None),
        SectionModel::Other(said) => Err(shape_refusal(said, "Filesystem"@)),
        SectionModel::Fields { form, fields } => {
            let read = list_in(fields, 0);
            let write = list_in(fields, 1);
            let read_file = list_in(fields, 2);
            let write_file = list_in(fields, 3);
            let deny = list_in(fields, 4);
            match form {
                FormModel::Array(len) => match in_turn(read, write, read_file, write_file, deny) {
                    Err(t) => Err(t),
                    Ok((read, write, read_file, write_file, deny)) => if len > 5 {
                        Err(length_refusal(len))
                    } else {
                        Ok(Some(FilesystemModel { read, write, read_file, write_file, deny }))
                    },
                },
                FormModel::Object(_) => match in_turn(deny, read, read_file, write, write_file) {
                    Err(t) => Err(t),
                    Ok((deny, read, read_file, write, write_file)) => Ok(
                        Some(FilesystemModel { read, write, read_file, write_file, deny }),
                    ),
                },
            }
        },
    }
}

/// What a profile says of itself in a section.
pub open spec fn meta_of(section: SectionModel) -> Result<Option<MetaModel>, Seq<char>> {
    match section {
        SectionModel::Null => Ok(None),
        SectionModel::Other(said) => Err(shape_refusal(said, "Meta"@)),
        SectionModel::Fields { form, fields } => {
            let name = text_in(fields, 0);
            let description = text_in(fields, 1);
            match form {
                FormModel::Array(len) => match (name, description) {
                    (Err(t), _) => Err(t),
                    (_, Err(t)) => Err(t),
                    (Ok(name), Ok(description)) => if len > 2 {
                        Err(length_refusal(len))
                    } else {
                        Ok(Some(MetaModel { name, description }))
                    },
                },
                FormModel::Object(_) => match (description, name) {
                    (Err(t), _) => Err(t),
                    (_, Err(t)) => Err(t),
                    (Ok(description), Ok(name)) => Ok(Some(MetaModel { name, description })),
                },
            }
        },
    }
}

/// The network part that a section stands for.
pub open spec fn network_part_of(section: SectionModel) -> Result<Option<NetworkModel>, Seq<char>> {
    match section {
        SectionModel::Null => Ok(None),
        SectionModel::Other(said) => Err(shape_refusal(said, "Network"@)),
        SectionModel::Fields { form, fields } => match (list_in(fields, 0), flag_in(fields, 1)) {
            (Err(t), _) => Err(t),
            (_, Err(t)) => Err(t),
            (Ok(allow_domain), Ok(block)) => match form {
                FormModel::Array(len) if len > 2 => Err(length_refusal(len)),
                _ => Ok(Some(NetworkModel { allow_domain, block })),
            },
        },
    }
}

/// The profile that a document stands for. Only accepted keys may occur, at the top and in each
/// section.
pub open spec fn profile_of(document: DocumentModel) -> Result<ProfileModel, Seq<char>> {
    match document {
        DocumentModel::Other => Err("a nono profile must be a JSON object"@),
        DocumentModel::Object { keys, meta, filesystem, network } => match (
            key_refusal(keys, None),
            section_refusal(meta, "meta"@),
            section_refusal(filesystem, "filesystem"@),
            section_refusal(network, "network"@),
        ) {
            (Some(e), _, _, _) => Err(e),
            (_, Some(e), _, _) => Err(e),
            (_, _, Some(e), _) => Err(e),
            (_, _, _, Some(e)) => Err(e),
            _ => match (filesystem_of(filesystem), meta_of(meta), network_part_of(network)) {
                (Err(e), _, _) => Err(e),
                (_, Err(e), _) => Err(e),
                (_, _, Err(e)) => Err(e),
                (Ok(filesystem), Ok(meta), Ok(network)) => Ok(
                    ProfileModel { meta, filesystem, network },
                ),
            },
        },
    }
}

/// Refuses a section for the first of its keys that is not accepted.
fn check_section(section: &Section, name: &str) -> (r: Result<(), Error>)
    ensures
        match r {
            Ok(_) => section_refusal(section.deep_view(), name@) is None,
            Err(e) => section_refusal(section.deep_view(), name@) == Some(e@),
        },
{
    match section {
        Section::Fields { form: Form::Object(keys), .. } => reject_disallowed_keys(
            keys,
            Some(name),
        ),
        _ => Ok(()),
    }
}

/// The failure for a section that is neither an object nor an array.
fn wrong_shape(said: &str, what: &str) -> (r: Error)
    ensures
        r@ == shape_refusal(said@, what@),
{
    let n: usize = said.unicode_len();
    let unit: usize = "unit".unicode_len();
    if n < unit {
        return Error::new(said);
    }
    let mut message = said.substring_char(0, n - unit).to_owned();
    message.append("struct ");
    message.append(what);
    Error { message }
}

/// The failure for an array with too many items.
fn too_long(len: usize) -> (r: Error)
    ensures
        r@ == length_refusal(len as nat),
{
    let count = text::to_decimal(len as u64);
    Error::about("invalid length ", count.as_str(), ", expected fewer elements in array")
}

/// Reads the paths in a section.
fn read_filesystem(section: &Section) -> (r: Result<Option<Filesystem>, Error>)
    ensures
        outcome(r) == filesystem_of(section.deep_view()),
{
    let (form, fields) = match section {
        Section::Null => {
            return Ok(None);
        },
        Section::Other(said) => {
            return Err(wrong_shape(said.as_str(), "Filesystem"));
        },
        Section::Fields { form, fields } => (form, fields),
    };
    let read = find_list(fields, 0);
    let write = find_list(fields, 1);
    let read_file = find_list(fields, 2);
    let write_file = find_list(fields, 3);
    let deny = find_list(fields, 4);
    match form {
        Form::Array(len) => match (read, write, read_file, write_file, deny) {
            (Err(t), _, _, _, _) => Err(t),
            (_, Err(t), _, _, _) => Err(t),
            (_, _, Err(t), _, _) => Err(t),
            (_, _, _, Err(t), _) => Err(t),
            (_, _, _, _, Err(t)) => Err(t),
            (Ok(read), Ok(write), Ok(read_file), Ok(write_file), Ok(deny)) => {
                if *len > 5 {
                    Err(too_long(*len))
                } else {
                    Ok(Some(Filesystem { read, write, read_file, write_file, deny }))
                }
            },
        },
        Form::Object(_) => match (deny, read, read_file, write, write_file) {
            (Err(t), _, _, _, _) => Err(t),
            (_, Err(t), _, _, _) => Err(t),
            (_, _, Err(t), _, _) => Err(t),
            (_, _, _, Err(t), _) => Err(t),
            (_, _, _, _, Err(t)) => Err(t),
            (Ok(deny), Ok(read), Ok(read_file), Ok(write), Ok(write_file)) => Ok(
                Some(Filesystem { read, write, read_file, write_file, deny }),
            ),
        },
    }
}

/// Reads what a profile says of itself in a section.
fn read_meta(section: &Section) -> (r: Result<Option<Meta>, Error>)
    ensures
        outcome(r) == meta_of(section.deep_view()),
{
    let (form, fields) = match section {
        Section::Null => {
            return Ok(None);
        },
        Section::Other(said) => {
            return Err(wrong_shape(said.as_str(), "Meta"));
        },
        Section::Fields { form, fields } => (form, fields),
    };
    let name = find_text(fields, 0);
    let description = find_text(fields, 1);
    match form {
        Form::Array(len) => match (name, description) {
            (Err(t), _) => Err(t),
            (_, Err(t)) => Err(t),
            (Ok(name), Ok(description)) => if *len > 2 {
                Err(too_long(*len))
            } else {
                Ok(Some(Meta { name, description }))
            },
        },
        Form::Object(_) => match (description, name) {
            (Err(t), _) => Err(t),
            (_, Err(t)) => Err(t),
            (Ok(description), Ok(name)) => Ok(Some(Meta { name, description })),
        },
    }
}

/// Reads the network part in a section.
fn read_network(section: &Section) -> (r: Result<Option<Network>, Error>)
    ensures
        outcome(r) == network_part_of(section.deep_view()),
{
    let (form, fields) = match section {
        Section::Null => {
            return Ok(None);
        },
        Section::Other(said) => {
            return Err(wrong_shape(said.as_str(), "Network"));
        },
        Section::Fields { form, fields } => (form, fields),
    };
    match (find_list(fields, 0), find_flag(fields, 1)) {
        (Err(t), _) => Err(t),
        (_, Err(t)) => Err(t),
        (Ok(allow_domain), Ok(block)) => {
            if let Form::Array(len) = form {
                if *len > 2 {
                    return Err(too_long(*len));
                }
            }
            Ok(Some(Network { allow_domain, block }))
        },
    }
}

/// Reads a profile from a document.
pub fn profile_from(document: &Document) -> (r: Result<BaseProfile, Error>)
    ensures
        outcome(r) == profile_of(document.deep_view()),
{
    let (keys, meta, filesystem, network) = match document {
        Document::Object { keys, meta, filesystem, network } => (keys, meta, filesystem, network),
        Document::Other => {
            return Err(Error::new("a nono profile must be a JSON object"));
        },
    };
    if let Err(e) = reject_disallowed_keys(keys, None) {
        return Err(e);
    }
    if let Err(e) = check_section(meta, "meta") {
        return Err(e);
    }
    if let Err(e) = check_section(filesystem, "filesystem") {
        return Err(e);
    }
    if let Err(e) = check_section(network, "network") {
        return Err(e);
    }
    match (read_filesystem(filesystem), read_meta(meta), read_network(network)) {
        (Err(e), _, _) => Err(e),
        (_, Err(e), _) => Err(e),
        (_, _, Err(e)) => Err(e),
        (Ok(filesystem), Ok(meta), Ok(network)) => Ok(BaseProfile { meta, filesystem, network }),
    }
}

/// The profile that a text stands for, before its entries are checked against the file system.
pub open spec fn profile_in(text: Seq<char>) -> Result<ProfileModel, Seq<char>> {
    match document_of(text) {
        Err(e) => Err(e),
        Ok(document) => profile_of(document),
    }
}

/// Reads a profile from its text.
pub fn parse(text: &str) -> (r: Result<BaseProfile, Error>)
    ensures
        outcome(r) == profile_in(text@),
{
    match read_document(text) {
        Err(e) => Err(e),
        Ok(document) => profile_from(&document),
    }
}

/// Whether every key of a document is accepted, at the top and in the sections that are objects.
pub open spec fn only_accepted_keys(document: DocumentModel) -> bool {
    document matches DocumentModel::Object { keys, meta, filesystem, network } && {
        &&& all_accepted(keys, None)
        &&& section_accepted(meta, "meta"@)
        &&& section_accepted(filesystem, "filesystem"@)
        &&& section_accepted(network, "network"@)
    }
}

/// Whether every key is accepted.
pub open spec fn all_accepted(keys: Seq<Seq<char>>, section: Option<Seq<char>>) -> bool {
    forall|i: int| 0 <= i < keys.len() ==> accepted_keys(section).contains(#[trigger] keys[i])
}

/// Whether every key of a section is accepted, if the section is an object.
pub open spec fn section_accepted(section: SectionModel, name: Seq<char>) -> bool {
    section matches SectionModel::Fields { form: FormModel::Object(keys), .. } ==> all_accepted(
        keys,
        Some(name),
    )
}

/// A profile with any other key than the accepted ones is refused, so that a repository cannot
/// grant itself anything else.
pub proof fn lemma_only_accepted_keys(document: DocumentModel)
    ensures
        profile_of(document) is Ok ==> only_accepted_keys(document),
{
    if let DocumentModel::Object { keys, meta, filesystem, network } = document {
        lemma_unrefused_keys(keys, None);
        lemma_unrefused_section(meta, "meta"@);
        lemma_unrefused_section(filesystem, "filesystem"@);
        lemma_unrefused_section(network, "network"@);
    }
}

proof fn lemma_unrefused_section(section: SectionModel, name: Seq<char>)
    ensures
        section_refusal(section, name) is None ==> section_accepted(section, name),
{
    if let SectionModel::Fields { form: FormModel::Object(keys), .. } = section {
        lemma_unrefused_keys(keys, Some(name));
    }
}

proof fn lemma_unrefused_keys(keys: Seq<Seq<char>>, section: Option<Seq<char>>)
    ensures
        key_refusal(keys, section) is None <==> all_accepted(keys, section),
    decreases keys.len(),
{
    if keys.len() > 0 {
        let rest = keys.drop_last();
        lemma_unrefused_keys(rest, section);
        assert(each_key(section)(keys.last()) == key_check(section, keys.last()));
        if all_accepted(keys, section) {
            assert(keys.last() == keys[keys.len() - 1]);
            assert forall|i: int| 0 <= i < rest.len() implies accepted_keys(section).contains(
                #[trigger] rest[i],
            ) by {
                assert(rest[i] == keys[i]);
            }
        } else if all_accepted(rest, section) {
            let i = choose|i: int|
                0 <= i < keys.len() && !accepted_keys(section).contains(#[trigger] keys[i]);
            if i < rest.len() {
                assert(rest[i] == keys[i]);
            }
        }
    }
}

/// The path of the file for the profile of the repository in a directory.
pub open spec fn sibling_of(dir: Seq<u8>) -> Seq<u8> {
    path::joined_path(dir, encode_utf8(BASE_NAME@ + ".json"@))
}

/// The permissions of that file: its owner may read and write it.
pub const SIBLING_MODE: u32 = 384;

/// The path of the file for the profile of the repository in a directory. It bears the name under
/// which the generated profile extends it.
pub fn sibling_path(dir: &Vec<u8>) -> (r: Vec<u8>)
    ensures
        r@ == sibling_of(dir@),
{
    let mut name = BASE_NAME.to_owned();
    name.append(".json");
    path::join(dir, &name.as_str().as_bytes_vec())
}

/// Whether a list of a profile is the one that is written at a place, or empty where none is given.
pub open spec fn is_written_list(
    json: Seq<char>,
    given: bool,
    place: Seq<char>,
    list: Seq<Seq<char>>,
) -> bool {
    if given {
        holds_list(json, place, list)
    } else {
        list.len() == 0
    }
}

/// Whether a list can be read at a place, if one is given.
pub open spec fn is_readable_list(json: Seq<char>, given: bool, place: Seq<char>) -> bool {
    given ==> exists|list: Seq<Seq<char>>| #[trigger] holds_list(json, place, list)
}

/// Whether each list of a filesystem section holds just the entries that are written under the key
/// of the same name, or in an array at its place.
pub open spec fn is_written_filesystem(json: Seq<char>, f: FilesystemModel) -> bool {
    match json_node(json, "/filesystem"@) {
        Ok(NodeModel::Object(keys)) => {
            &&& is_written_list(json, keys.contains("read"@), "/filesystem/read"@, f.read)
            &&& is_written_list(json, keys.contains("write"@), "/filesystem/write"@, f.write)
            &&& is_written_list(
                json,
                keys.contains("read_file"@),
                "/filesystem/read_file"@,
                f.read_file,
            )
            &&& is_written_list(
                json,
                keys.contains("write_file"@),
                "/filesystem/write_file"@,
                f.write_file,
            )
            &&& is_written_list(json, keys.contains("deny"@), "/filesystem/deny"@, f.deny)
        },
        Ok(NodeModel::Array(items)) => {
            &&& items.len() <= 5
            &&& is_written_list(json, items.len() > 0, "/filesystem/0"@, f.read)
            &&& is_written_list(json, items.len() > 1, "/filesystem/1"@, f.write)
            &&& is_written_list(json, items.len() > 2, "/filesystem/2"@, f.read_file)
            &&& is_written_list(json, items.len() > 3, "/filesystem/3"@, f.write_file)
            &&& is_written_list(json, items.len() > 4, "/filesystem/4"@, f.deny)
        },
        _ => false,
    }
}

/// Whether a text of a profile is the one that is written at a place, or none where none is given.
pub open spec fn is_written_text(
    json: Seq<char>,
    given: bool,
    place: Seq<char>,
    text: Option<Seq<char>>,
) -> bool {
    if given {
        holds_text(json, place, text)
    } else {
        text is None
    }
}

/// Whether what a profile says of itself is what is written.
pub open spec fn is_written_meta(json: Seq<char>, m: MetaModel) -> bool {
    match json_node(json, "/meta"@) {
        Ok(NodeModel::Object(keys)) => {
            &&& is_written_text(json, keys.contains("name"@), "/meta/name"@, m.name)
            &&& is_written_text(
                json,
                keys.contains("description"@),
                "/meta/description"@,
                m.description,
            )
        },
        Ok(NodeModel::Array(items)) => {
            &&& items.len() <= 2
            &&& is_written_text(json, items.len() > 0, "/meta/0"@, m.name)
            &&& is_written_text(json, items.len() > 1, "/meta/1"@, m.description)
        },
        _ => false,
    }
}

/// Whether the network part of a profile is what is written.
pub open spec fn is_written_network(json: Seq<char>, n: NetworkModel) -> bool {
    match json_node(json, "/network"@) {
        Ok(NodeModel::Object(keys)) => {
            &&& is_written_list(
                json,
                keys.contains("allow_domain"@),
                "/network/allow_domain"@,
                n.allow_domain,
            )
            &&& if keys.contains("block"@) {
                holds_flag(json, "/network/block"@, n.block)
            } else {
                n.block is None
            }
        },
        Ok(NodeModel::Array(items)) => {
            &&& items.len() <= 2
            &&& is_written_list(json, items.len() > 0, "/network/0"@, n.allow_domain)
            &&& if items.len() > 1 {
                holds_flag(json, "/network/1"@, n.block)
            } else {
                n.block is None
            }
        },
        _ => false,
    }
}

/// Whether a section is written at all: it is neither left out nor `null`.
pub open spec fn is_written(json: Seq<char>, key: Seq<char>, place: Seq<char>) -> bool {
    json_node(json, Seq::empty()) matches Ok(NodeModel::Object(keys)) && keys.contains(key)
        && json_node(json, place) != Ok::<NodeModel, Seq<char>>(NodeModel::Null)
}

/// A profile that is accepted holds what its text says, each thing where it is written: a section is
/// there if it is written, and each of its fields has the value under its own key and under no
/// other.
pub proof fn lemma_profile_is_as_written(json: Seq<char>)
    ensures
        profile_in(json) matches Ok(profile) ==> {
            &&& json_node(json, Seq::empty()) matches Ok(NodeModel::Object(_))
            &&& profile.filesystem is Some == is_written(json, "filesystem"@, "/filesystem"@)
            &&& profile.filesystem matches Some(f) ==> is_written_filesystem(json, f)
            &&& profile.meta is Some == is_written(json, "meta"@, "/meta"@)
            &&& profile.meta matches Some(m) ==> is_written_meta(json, m)
            &&& profile.network is Some == is_written(json, "network"@, "/network"@)
            &&& profile.network matches Some(n) ==> is_written_network(json, n)
        },
{
    lemma_places();
    if let Ok(NodeModel::Object(keys)) = json_node(json, Seq::empty()) {
        lemma_filesystem_as_written(json);
        lemma_meta_as_written(json);
        lemma_network_as_written(json);
    }
}

proof fn lemma_filesystem_as_written(json: Seq<char>)
    ensures
        filesystem_of(section_at(json, "filesystem"@)) matches Ok(part) ==> {
            &&& part is Some == (json_node(json, "/filesystem"@) != Ok::<NodeModel, Seq<char>>(
                NodeModel::Null,
            ))
            &&& part matches Some(f) ==> is_written_filesystem(json, f)
        },
{
    lemma_places();
    lemma_names_differ();
    lemma_small_numbers();
    let section = "filesystem"@;
    lemma_readings_exactly(json, "/filesystem"@, Seq::empty(), None, None);
    if let Ok(part) = filesystem_of(section_at(json, section)) {
        if let Some(f) = part {
            let form = section_at(json, section)->form;
            let fields = fields_in(json, section, form);
            let names = accepted_keys(Some(section));
            assert(fields[0] == field_in(json, section, form, names[0], 0));
            assert(fields[1] == field_in(json, section, form, names[1], 1));
            assert(fields[2] == field_in(json, section, form, names[2], 2));
            assert(fields[3] == field_in(json, section, form, names[3], 3));
            assert(fields[4] == field_in(json, section, form, names[4], 4));
            lemma_readings_exactly(json, "/filesystem/read"@, f.read, None, None);
            lemma_readings_exactly(json, "/filesystem/write"@, f.write, None, None);
            lemma_readings_exactly(json, "/filesystem/read_file"@, f.read_file, None, None);
            lemma_readings_exactly(json, "/filesystem/write_file"@, f.write_file, None, None);
            lemma_readings_exactly(json, "/filesystem/deny"@, f.deny, None, None);
            lemma_readings_exactly(json, "/filesystem/0"@, f.read, None, None);
            lemma_readings_exactly(json, "/filesystem/1"@, f.write, None, None);
            lemma_readings_exactly(json, "/filesystem/2"@, f.read_file, None, None);
            lemma_readings_exactly(json, "/filesystem/3"@, f.write_file, None, None);
            lemma_readings_exactly(json, "/filesystem/4"@, f.deny, None, None);
        }
    }
}

proof fn lemma_meta_as_written(json: Seq<char>)
    ensures
        meta_of(section_at(json, "meta"@)) matches Ok(part) ==> {
            &&& part is Some == (json_node(json, "/meta"@) != Ok::<NodeModel, Seq<char>>(
                NodeModel::Null,
            ))
            &&& part matches Some(m) ==> is_written_meta(json, m)
        },
{
    lemma_places();
    lemma_names_differ();
    lemma_small_numbers();
    let section = "meta"@;
    let none = Seq::<Seq<char>>::empty();
    lemma_readings_exactly(json, "/meta"@, none, None, None);
    if let Ok(part) = meta_of(section_at(json, section)) {
        if let Some(m) = part {
            let form = section_at(json, section)->form;
            let fields = fields_in(json, section, form);
            let names = accepted_keys(Some(section));
            assert(fields[0] == field_in(json, section, form, names[0], 0));
            assert(fields[1] == field_in(json, section, form, names[1], 1));
            lemma_readings_exactly(json, "/meta/name"@, none, m.name, None);
            lemma_readings_exactly(json, "/meta/description"@, none, m.description, None);
            lemma_readings_exactly(json, "/meta/0"@, none, m.name, None);
            lemma_readings_exactly(json, "/meta/1"@, none, m.description, None);
        }
    }
}

proof fn lemma_network_as_written(json: Seq<char>)
    ensures
        network_part_of(section_at(json, "network"@)) matches Ok(part) ==> {
            &&& part is Some == (json_node(json, "/network"@) != Ok::<NodeModel, Seq<char>>(
                NodeModel::Null,
            ))
            &&& part matches Some(n) ==> is_written_network(json, n)
        },
{
    lemma_places();
    lemma_names_differ();
    lemma_small_numbers();
    let section = "network"@;
    let none = Seq::<Seq<char>>::empty();
    lemma_readings_exactly(json, "/network"@, none, None, None);
    if let Ok(part) = network_part_of(section_at(json, section)) {
        if let Some(n) = part {
            let form = section_at(json, section)->form;
            let fields = fields_in(json, section, form);
            let names = accepted_keys(Some(section));
            assert(fields[0] == field_in(json, section, form, names[0], 0));
            assert(fields[1] == field_in(json, section, form, names[1], 1));
            lemma_readings_exactly(json, "/network/allow_domain"@, n.allow_domain, None, None);
            lemma_readings_exactly(json, "/network/block"@, none, None, n.block);
            lemma_readings_exactly(json, "/network/0"@, n.allow_domain, None, None);
            lemma_readings_exactly(json, "/network/1"@, none, None, n.block);
        }
    }
}

proof fn lemma_small_numbers()
    ensures
        text::decimal(0) == "0"@,
        text::decimal(1) == "1"@,
        text::decimal(2) == "2"@,
        text::decimal(3) == "3"@,
        text::decimal(4) == "4"@,
{
}

proof fn lemma_names_differ()
    ensures
        "meta"@ != "filesystem"@,
        "meta"@ != "network"@,
        "filesystem"@ != "network"@,
{
    reveal_strlit("meta");
    reveal_strlit("filesystem");
    reveal_strlit("network");
    assert("meta"@.len() == 4 && "filesystem"@.len() == 10 && "network"@.len() == 7);
}

proof fn lemma_places()
    ensures
        section_place("filesystem"@) == "/filesystem"@,
        section_place("meta"@) == "/meta"@,
        section_place("network"@) == "/network"@,
        field_place("filesystem"@, "read"@) == "/filesystem/read"@,
        field_place("filesystem"@, "write"@) == "/filesystem/write"@,
        field_place("filesystem"@, "read_file"@) == "/filesystem/read_file"@,
        field_place("filesystem"@, "write_file"@) == "/filesystem/write_file"@,
        field_place("filesystem"@, "deny"@) == "/filesystem/deny"@,
        field_place("filesystem"@, "0"@) == "/filesystem/0"@,
        field_place("filesystem"@, "1"@) == "/filesystem/1"@,
        field_place("filesystem"@, "2"@) == "/filesystem/2"@,
        field_place("filesystem"@, "3"@) == "/filesystem/3"@,
        field_place("filesystem"@, "4"@) == "/filesystem/4"@,
        field_place("meta"@, "name"@) == "/meta/name"@,
        field_place("meta"@, "description"@) == "/meta/description"@,
        field_place("meta"@, "0"@) == "/meta/0"@,
        field_place("meta"@, "1"@) == "/meta/1"@,
        field_place("network"@, "allow_domain"@) == "/network/allow_domain"@,
        field_place("network"@, "block"@) == "/network/block"@,
        field_place("network"@, "0"@) == "/network/0"@,
        field_place("network"@, "1"@) == "/network/1"@,
{
    reveal_strlit("/");
    reveal_strlit("0");
    reveal_strlit("1");
    reveal_strlit("2");
    reveal_strlit("3");
    reveal_strlit("4");
    reveal_strlit("meta");
    reveal_strlit("filesystem");
    reveal_strlit("network");
    reveal_strlit("name");
    reveal_strlit("description");
    reveal_strlit("read");
    reveal_strlit("write");
    reveal_strlit("read_file");
    reveal_strlit("write_file");
    reveal_strlit("deny");
    reveal_strlit("allow_domain");
    reveal_strlit("block");
    reveal_strlit("/meta");
    reveal_strlit("/filesystem");
    reveal_strlit("/network");
    reveal_strlit("/meta/name");
    reveal_strlit("/meta/description");
    reveal_strlit("/meta/0");
    reveal_strlit("/meta/1");
    reveal_strlit("/filesystem/read");
    reveal_strlit("/filesystem/write");
    reveal_strlit("/filesystem/read_file");
    reveal_strlit("/filesystem/write_file");
    reveal_strlit("/filesystem/deny");
    reveal_strlit("/filesystem/0");
    reveal_strlit("/filesystem/1");
    reveal_strlit("/filesystem/2");
    reveal_strlit("/filesystem/3");
    reveal_strlit("/filesystem/4");
    reveal_strlit("/network/allow_domain");
    reveal_strlit("/network/block");
    reveal_strlit("/network/0");
    reveal_strlit("/network/1");
}

/// Whether every key is one of some accepted ones.
pub open spec fn all_among(keys: Seq<Seq<char>>, accepted: Seq<Seq<char>>) -> bool {
    forall|i: int| 0 <= i < keys.len() ==> accepted.contains(#[trigger] keys[i])
}

/// Whether a text, or `null`, can be read at a place, if one is given.
pub open spec fn is_readable_text(json: Seq<char>, given: bool, place: Seq<char>) -> bool {
    given ==> exists|text: Option<Seq<char>>| #[trigger] holds_text(json, place, text)
}

/// Whether a truth value, or `null`, can be read at a place, if one is given.
pub open spec fn is_readable_flag(json: Seq<char>, given: bool, place: Seq<char>) -> bool {
    given ==> exists|flag: Option<bool>| #[trigger] holds_flag(json, place, flag)
}

/// Whether a filesystem section can be accepted: it has no other keys than the five lists, and each
/// of them is a list of texts.
pub open spec fn is_fit_filesystem(json: Seq<char>) -> bool {
    match json_node(json, "/filesystem"@) {
        Ok(NodeModel::Null) => true,
        Ok(NodeModel::Object(keys)) => {
            &&& all_among(keys, seq!["read"@, "write"@, "read_file"@, "write_file"@, "deny"@])
            &&& is_readable_list(json, keys.contains("read"@), "/filesystem/read"@)
            &&& is_readable_list(json, keys.contains("write"@), "/filesystem/write"@)
            &&& is_readable_list(json, keys.contains("read_file"@), "/filesystem/read_file"@)
            &&& is_readable_list(json, keys.contains("write_file"@), "/filesystem/write_file"@)
            &&& is_readable_list(json, keys.contains("deny"@), "/filesystem/deny"@)
        },
        Ok(NodeModel::Array(items)) => {
            &&& items.len() <= 5
            &&& is_readable_list(json, items.len() > 0, "/filesystem/0"@)
            &&& is_readable_list(json, items.len() > 1, "/filesystem/1"@)
            &&& is_readable_list(json, items.len() > 2, "/filesystem/2"@)
            &&& is_readable_list(json, items.len() > 3, "/filesystem/3"@)
            &&& is_readable_list(json, items.len() > 4, "/filesystem/4"@)
        },
        _ => false,
    }
}

/// Whether a section in which a profile speaks of itself can be accepted.
pub open spec fn is_fit_meta(json: Seq<char>) -> bool {
    match json_node(json, "/meta"@) {
        Ok(NodeModel::Null) => true,
        Ok(NodeModel::Object(keys)) => {
            &&& all_among(keys, seq!["name"@, "description"@])
            &&& is_readable_text(json, keys.contains("name"@), "/meta/name"@)
            &&& is_readable_text(json, keys.contains("description"@), "/meta/description"@)
        },
        Ok(NodeModel::Array(items)) => {
            &&& items.len() <= 2
            &&& is_readable_text(json, items.len() > 0, "/meta/0"@)
            &&& is_readable_text(json, items.len() > 1, "/meta/1"@)
        },
        _ => false,
    }
}

/// Whether a network section can be accepted.
pub open spec fn is_fit_network(json: Seq<char>) -> bool {
    match json_node(json, "/network"@) {
        Ok(NodeModel::Null) => true,
        Ok(NodeModel::Object(keys)) => {
            &&& all_among(keys, seq!["allow_domain"@, "block"@])
            &&& is_readable_list(json, keys.contains("allow_domain"@), "/network/allow_domain"@)
            &&& is_readable_flag(json, keys.contains("block"@), "/network/block"@)
        },
        Ok(NodeModel::Array(items)) => {
            &&& items.len() <= 2
            &&& is_readable_list(json, items.len() > 0, "/network/0"@)
            &&& is_readable_flag(json, items.len() > 1, "/network/1"@)
        },
        _ => false,
    }
}

/// A text is accepted as a profile exactly if it is a JSON object with no other keys than the four
/// accepted ones, in which each section that occurs can be accepted.
pub proof fn lemma_profile_accepted_exactly(json: Seq<char>)
    ensures
        profile_in(json) is Ok <==> {
            &&& json_node(json, Seq::empty()) matches Ok(NodeModel::Object(keys))
            &&& all_among(keys, seq!["$schema"@, "meta"@, "filesystem"@, "network"@])
            &&& keys.contains("meta"@) ==> is_fit_meta(json)
            &&& keys.contains("filesystem"@) ==> is_fit_filesystem(json)
            &&& keys.contains("network"@) ==> is_fit_network(json)
        },
{
    if let Ok(NodeModel::Object(keys)) = json_node(json, Seq::empty()) {
        lemma_unrefused_keys(keys, None);
        assert(all_accepted(keys, None) == all_among(
            keys,
            seq!["$schema"@, "meta"@, "filesystem"@, "network"@],
        ));
        lemma_filesystem_fits(json);
        lemma_meta_fits(json);
        lemma_network_fits(json);
    }
}

proof fn lemma_readable(json: Seq<char>, place: Seq<char>)
    ensures
        texts_at(json, place) is Ok == is_readable_list(json, true, place),
        text_at(json, place) is Ok == is_readable_text(json, true, place),
        flag_at(json, place) is Ok == is_readable_flag(json, true, place),
{
    let none = Seq::<Seq<char>>::empty();
    if let Ok(list) = texts_at(json, place) {
        lemma_readings_exactly(json, place, list, None, None);
        assert(holds_list(json, place, list));
    }
    if is_readable_list(json, true, place) {
        let list = choose|list: Seq<Seq<char>>| #[trigger] holds_list(json, place, list);
        lemma_readings_exactly(json, place, list, None, None);
    }
    if let Ok(text) = text_at(json, place) {
        lemma_readings_exactly(json, place, none, text, None);
        assert(holds_text(json, place, text));
    }
    if is_readable_text(json, true, place) {
        let text = choose|text: Option<Seq<char>>| #[trigger] holds_text(json, place, text);
        lemma_readings_exactly(json, place, none, text, None);
    }
    if let Ok(flag) = flag_at(json, place) {
        lemma_readings_exactly(json, place, none, None, flag);
        assert(holds_flag(json, place, flag));
    }
    if is_readable_flag(json, true, place) {
        let flag = choose|flag: Option<bool>| #[trigger] holds_flag(json, place, flag);
        lemma_readings_exactly(json, place, none, None, flag);
    }
}

proof fn lemma_filesystem_fits(json: Seq<char>)
    ensures
        (section_refusal(section_at(json, "filesystem"@), "filesystem"@) is None && filesystem_of(
            section_at(json, "filesystem"@),
        ) is Ok) == is_fit_filesystem(json),
{
    lemma_places();
    lemma_names_differ();
    lemma_small_numbers();
    let section = "filesystem"@;
    let at = section_at(json, section);
    lemma_readings_exactly(json, "/filesystem"@, Seq::empty(), None, None);
    lemma_readable(json, "/filesystem/read"@);
    lemma_readable(json, "/filesystem/write"@);
    lemma_readable(json, "/filesystem/read_file"@);
    lemma_readable(json, "/filesystem/write_file"@);
    lemma_readable(json, "/filesystem/deny"@);
    lemma_readable(json, "/filesystem/0"@);
    lemma_readable(json, "/filesystem/1"@);
    lemma_readable(json, "/filesystem/2"@);
    lemma_readable(json, "/filesystem/3"@);
    lemma_readable(json, "/filesystem/4"@);
    if let SectionModel::Fields { form, fields } = at {
        let names = accepted_keys(Some(section));
        assert(fields[0] == field_in(json, section, form, names[0], 0));
        assert(fields[1] == field_in(json, section, form, names[1], 1));
        assert(fields[2] == field_in(json, section, form, names[2], 2));
        assert(fields[3] == field_in(json, section, form, names[3], 3));
        assert(fields[4] == field_in(json, section, form, names[4], 4));
        if let FormModel::Object(keys) = form {
            lemma_unrefused_keys(keys, Some(section));
            assert(all_accepted(keys, Some(section)) == all_among(
                keys,
                seq!["read"@, "write"@, "read_file"@, "write_file"@, "deny"@],
            ));
        }
    }
}

proof fn lemma_meta_fits(json: Seq<char>)
    ensures
        (section_refusal(section_at(json, "meta"@), "meta"@) is None && meta_of(
            section_at(json, "meta"@),
        ) is Ok) == is_fit_meta(json),
{
    lemma_places();
    lemma_names_differ();
    lemma_small_numbers();
    let section = "meta"@;
    let at = section_at(json, section);
    lemma_readings_exactly(json, "/meta"@, Seq::empty(), None, None);
    lemma_readable(json, "/meta/name"@);
    lemma_readable(json, "/meta/description"@);
    lemma_readable(json, "/meta/0"@);
    lemma_readable(json, "/meta/1"@);
    if let SectionModel::Fields { form, fields } = at {
        let names = accepted_keys(Some(section));
        assert(fields[0] == field_in(json, section, form, names[0], 0));
        assert(fields[1] == field_in(json, section, form, names[1], 1));
        if let FormModel::Object(keys) = form {
            lemma_unrefused_keys(keys, Some(section));
            assert(all_accepted(keys, Some(section)) == all_among(
                keys,
                seq!["name"@, "description"@],
            ));
        }
    }
}

proof fn lemma_network_fits(json: Seq<char>)
    ensures
        (section_refusal(section_at(json, "network"@), "network"@) is None && network_part_of(
            section_at(json, "network"@),
        ) is Ok) == is_fit_network(json),
{
    lemma_places();
    lemma_names_differ();
    lemma_small_numbers();
    let section = "network"@;
    let at = section_at(json, section);
    lemma_readings_exactly(json, "/network"@, Seq::empty(), None, None);
    lemma_readable(json, "/network/allow_domain"@);
    lemma_readable(json, "/network/block"@);
    lemma_readable(json, "/network/0"@);
    lemma_readable(json, "/network/1"@);
    if let SectionModel::Fields { form, fields } = at {
        let names = accepted_keys(Some(section));
        assert(fields[0] == field_in(json, section, form, names[0], 0));
        assert(fields[1] == field_in(json, section, form, names[1], 1));
        if let FormModel::Object(keys) = form {
            lemma_unrefused_keys(keys, Some(section));
            assert(all_accepted(keys, Some(section)) == all_among(
                keys,
                seq!["allow_domain"@, "block"@],
            ));
        }
    }
}

/// A key that is not accepted is told with the section that it stands in: it is the first such key.
pub proof fn lemma_refused_key_is_told(keys: Seq<Seq<char>>, section: Option<Seq<char>>)
    ensures
        key_refusal(keys, section) matches Some(told) ==> exists|i: int|
            #![trigger keys[i]]
            0 <= i < keys.len() && !accepted_keys(section).contains(keys[i]) && (forall|j: int|
                0 <= j < i ==> accepted_keys(section).contains(#[trigger] keys[j])) && (
            "profile key '"@ + (match section {
                Some(s) => s + "."@ + keys[i],
                None => keys[i],
            }) + "' is not permitted"@).is_prefix_of(told),
{
    if let Some(told) = key_refusal(keys, section) {
        lemma_try_all_exactly(keys, each_key(section));
        let i = choose|i: int|
            0 <= i < keys.len() && each_key(section)(#[trigger] keys[i]) == Err::<(), Seq<char>>(
                told,
            ) && forall|j: int| 0 <= j < i ==> each_key(section)(#[trigger] keys[j]) is Ok;
        assert(key_check(section, keys[i]) == Err::<(), Seq<char>>(told));
        assert forall|j: int| 0 <= j < i implies accepted_keys(section).contains(
            #[trigger] keys[j],
        ) by {
            assert(each_key(section)(keys[j]) == key_check(section, keys[j]));
        }
        reveal_strlit("' is not permitted");
        reveal_strlit("' is not permitted: ");
        reveal_strlit("' is not permitted; runseal accepts only ");
        let short = "' is not permitted"@;
        let front = "profile key '"@ + key_path(section, keys[i]);
        let start = front + short;
        assert("' is not permitted: "@.take(short.len() as int) == short);
        assert("' is not permitted; runseal accepts only "@.take(short.len() as int) == short);
        match reason_for(section, keys[i]) {
            Some(reason) => {
                assert(told == front + "' is not permitted: "@ + reason);
                assert(told.take(start.len() as int) == start);
            },
            None => {
                assert(told.take(start.len() as int) == start);
            },
        }
    }
}

/// A model holds what the value holds, each part under its own name.
pub proof fn lemma_models_are_faithful(
    meta: Meta,
    filesystem: Filesystem,
    network: Network,
    profile: BaseProfile,
    repo: RepoProfile,
)
    ensures
        meta.deep_view().name == meta.name.deep_view(),
        meta.deep_view().description == meta.description.deep_view(),
        filesystem.deep_view().read == filesystem.read.deep_view(),
        filesystem.deep_view().write == filesystem.write.deep_view(),
        filesystem.deep_view().read_file == filesystem.read_file.deep_view(),
        filesystem.deep_view().write_file == filesystem.write_file.deep_view(),
        filesystem.deep_view().deny == filesystem.deny.deep_view(),
        network.deep_view().allow_domain == network.allow_domain.deep_view(),
        network.deep_view().block == network.block,
        profile.deep_view().meta == profile.meta.deep_view(),
        profile.deep_view().filesystem == profile.filesystem.deep_view(),
        profile.deep_view().network == profile.network.deep_view(),
        repo.deep_view().source == repo.source@,
        repo.deep_view().profile == repo.profile.deep_view(),
        repo.deep_view().grants_domains() <==> (repo.profile.network matches Some(network)
            && network.allow_domain@.len() > 0),
{
}

/// The file for the profile of the repository is for its owner alone, and the profile is known by
/// its name.
pub proof fn lemma_sibling_for_the_owner_alone()
    ensures
        SIBLING_MODE == 0o600,
        BASE_NAME@ == "runseal-repo"@,
{
}

/// Why a key is refused at the top of a profile, for each key with which a repository could grant
/// itself more, or change what is run.
pub proof fn lemma_top_reasons(key: Seq<char>)
    ensures
        key == "extends"@ ==> reason_for(None, key) == Some("runseal supplies the base profile"@),
        key == "binary"@ ==> reason_for(None, key) == Some(
            "it would replace the command the workflow asked runseal to run"@,
        ),
        key == "command_args"@ ==> reason_for(None, key) == Some(
            "it would append arguments to the sandboxed command"@,
        ),
        key == "session_hooks"@ ==> reason_for(None, key) == Some(
            "session hooks run outside the sandbox with host privileges"@,
        ),
        key == "hooks"@ ==> reason_for(None, key) == Some(
            "hook configuration is not part of a runseal sandbox policy"@,
        ),
        key == "unsafe_macos_seatbelt_rules"@ ==> reason_for(None, key) == Some(
            "raw Seatbelt rules can grant unrestricted access"@,
        ),
        key == "command_policies"@ ==> reason_for(None, key) == Some(
            "command policies merge base-first, overriding runseal's own policy"@,
        ),
        key == "commands"@ ==> reason_for(None, key) == Some(
            "runseal does not delegate command allow/deny to the repo"@,
        ),
        key == "groups"@ ==> reason_for(None, key) == Some(
            "group exclusions are sticky and could drop a nono deny group runseal relies on"@,
        ),
        key == "security"@ ==> reason_for(None, key) == Some(
            "security settings are runseal's to set"@,
        ),
        key == "environment"@ || key == "env_credentials"@ || key == "secrets"@ ==> reason_for(
            None,
            key,
        ) == Some("runseal controls the sandboxed environment and credential injection"@),
        key == "credential_capture"@ || key == "credential_providers"@ || key
            == "credential_routes"@ ==> reason_for(None, key) == Some(
            "profile mode has no credential input; use 'policy' with an 'access' block instead of 'profile'"@,
        ),
        key == "packs"@ ==> reason_for(None, key) == Some(
            "pack references are not resolved in a CI sandbox"@,
        ),
        key == "platform_overrides"@ ==> reason_for(None, key) == Some(
            "platform overrides can reintroduce any rejected key"@,
        ),
        key == "policy"@ ==> reason_for(None, key) == Some(
            "this legacy nono section is not supported"@,
        ),
        key == "workdir"@ ==> reason_for(None, key) == Some(
            "runseal runs the command in the workspace"@,
        ),
{
    reveal_strlit("extends");
    reveal_strlit("binary");
    reveal_strlit("command_args");
    reveal_strlit("session_hooks");
    reveal_strlit("hooks");
    reveal_strlit("unsafe_macos_seatbelt_rules");
    reveal_strlit("command_policies");
    reveal_strlit("commands");
    reveal_strlit("groups");
    reveal_strlit("security");
    reveal_strlit("environment");
    reveal_strlit("env_credentials");
    reveal_strlit("secrets");
    reveal_strlit("credential_capture");
    reveal_strlit("credential_providers");
    reveal_strlit("credential_routes");
    reveal_strlit("packs");
    reveal_strlit("platform_overrides");
    reveal_strlit("policy");
    reveal_strlit("workdir");
    assert("extends"@.len() == 7);
    assert("binary"@.len() == 6);
    assert("command_args"@.len() == 12);
    assert("session_hooks"@.len() == 13);
    assert("hooks"@.len() == 5);
    assert("unsafe_macos_seatbelt_rules"@.len() == 27);
    assert("command_policies"@.len() == 16);
    assert("commands"@.len() == 8);
    assert("groups"@.len() == 6);
    assert("security"@.len() == 8);
    assert("environment"@.len() == 11);
    assert("env_credentials"@.len() == 15);
    assert("secrets"@.len() == 7);
    assert("credential_capture"@.len() == 18);
    assert("credential_providers"@.len() == 20);
    assert("credential_routes"@.len() == 17);
    assert("packs"@.len() == 5);
    assert("platform_overrides"@.len() == 18);
    assert("policy"@.len() == 6);
    assert("workdir"@.len() == 7);
    assert("extends"@[0] == 'e' && "secrets"@[0] == 's' && "workdir"@[0] == 'w');
    assert("binary"@[0] == 'b' && "groups"@[0] == 'g' && "policy"@[0] == 'p');
    assert("hooks"@[0] == 'h' && "packs"@[0] == 'p');
    assert("commands"@[0] == 'c' && "security"@[0] == 's');
    assert("credential_capture"@[0] == 'c' && "platform_overrides"@[0] == 'p');
}

/// Why a key is refused in a section; one that is just not known has no reason of its own.
pub proof fn lemma_section_reasons(key: Seq<char>)
    ensures
        key == "allow"@ || key == "allow_file"@ ==> reason_for(Some("filesystem"@), key) == Some(
            "grant read and write separately with 'read'/'read_file' and 'write'/'write_file'"@,
        ),
        key == "bypass_protection"@ ==> reason_for(Some("filesystem"@), key) == Some(
            "it removes nono's own deny rules"@,
        ),
        key == "credentials"@ || key == "custom_credentials"@ || key == "proxy_credentials"@
            ==> reason_for(Some("network"@), key) == Some(
            "profile mode has no credential input; use 'policy' with an 'access' block instead of 'profile'"@,
        ),
        key == "proxy_allow"@ || key == "allow_proxy"@ ==> reason_for(Some("network"@), key)
            == Some("use the canonical key 'allow_domain'"@),
        reason_for(Some("meta"@), key) is None,
        key != "allow"@ && key != "allow_file"@ && key != "bypass_protection"@ ==> reason_for(
            Some("filesystem"@),
            key,
        ) is None,
        key != "credentials"@ && key != "custom_credentials"@ && key != "proxy_credentials"@ && key
            != "proxy_allow"@ && key != "allow_proxy"@ ==> reason_for(Some("network"@), key) is None,
{
    lemma_names_differ();
    reveal_strlit("allow");
    reveal_strlit("allow_file");
    reveal_strlit("bypass_protection");
    reveal_strlit("credentials");
    reveal_strlit("custom_credentials");
    reveal_strlit("proxy_credentials");
    reveal_strlit("proxy_allow");
    reveal_strlit("allow_proxy");
    assert("allow"@.len() == 5);
    assert("allow_file"@.len() == 10);
    assert("bypass_protection"@.len() == 17);
    assert("credentials"@.len() == 11);
    assert("custom_credentials"@.len() == 18);
    assert("proxy_credentials"@.len() == 17);
    assert("proxy_allow"@.len() == 11);
    assert("allow_proxy"@.len() == 11);
    assert("proxy_allow"@[0] == 'p' && "allow_proxy"@[0] == 'a' && "credentials"@[0] == 'c');
}

/// How a key is told: with its section, and with a reason, or with what is accepted there.
pub proof fn lemma_key_refusals(section: Option<Seq<char>>, key: Seq<char>)
    ensures
        key_check(section, key) is Ok <==> accepted_keys(section).contains(key),
        key_check(section, key) matches Err(told) ==> {
            let named = match section {
                Some(s) => s + "."@ + key,
                None => key,
            };
            match reason_for(section, key) {
                Some(reason) => told == "profile key '"@ + named + "' is not permitted: "@ + reason,
                None => told == "profile key '"@ + named
                    + "' is not permitted; runseal accepts only "@ + text::joined(
                    accepted_keys(section),
                    ", "@,
                ),
            }
        },
{
}

} // verus!
