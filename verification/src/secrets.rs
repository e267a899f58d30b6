//! Sealing credentials: secrets leave the environment and go into files that only the proxy reads.
use vstd::prelude::*;
use vstd::string::*;
use vstd::utf8::{
    decode_utf8, decode_utf8_encode_utf8, encode_utf8, encode_utf8_decode_utf8, is_ascii_chars,
    is_ascii_chars_encode_utf8, valid_utf8,
};

use crate::config;
use crate::config::{
    AccessConfig, AccessModel, EndpointRule, RuleModel, RunConfig, SupportedInjectMode,
};
use crate::encoding;
use crate::error::{outcome, Error};
use crate::ordered::{ascending, lemma_precedes_irreflexive, TextMap};
use crate::path;
use crate::text;
use crate::text::{lemma_pieces_exactly, pieces, uncut, Separator};

verus! {

/// What the name of the directory for credentials starts with.
pub const CREDENTIAL_DIR_PREFIX: &'static str = "runseal-creds.";

/// The permissions of the directory for credentials: its owner alone.
pub const CREDENTIAL_DIR_MODE: u32 = 448;

/// The permissions of a credential file: its owner may read and write it.
pub const CREDENTIAL_FILE_MODE: u32 = 384;

/// Credentials in their directory, and the environment without them.
pub struct SealedCredentials {
    pub dir: Vec<u8>,
    pub access: Vec<SealedCredential>,
    pub sanitized_env: TextMap<String>,
}

/// A credential in its file.
pub struct SealedCredential {
    pub name: String,
    pub secret_env: String,
    pub upstream: String,
    pub tls_ca: Option<String>,
    pub inject_mode: SupportedInjectMode,
    pub credential_file: Vec<u8>,
    pub endpoint_rules: Vec<EndpointRule>,
}

/// A credential in its file, as a mathematical value.
pub struct CredentialModel {
    pub name: Seq<char>,
    pub secret_env: Seq<char>,
    pub upstream: Seq<char>,
    pub tls_ca: Option<Seq<char>>,
    pub inject_mode: SupportedInjectMode,
    pub credential_file: Seq<u8>,
    pub endpoint_rules: Seq<RuleModel>,
}

/// Credentials in their directory, as a mathematical value.
pub struct SealedModel {
    pub dir: Seq<u8>,
    pub access: Seq<CredentialModel>,
    pub sanitized_env: Map<Seq<char>, Seq<char>>,
}

impl DeepView for SealedCredential {
    type V = CredentialModel;

    open spec fn deep_view(&self) -> CredentialModel {
        CredentialModel {
            name: self.name@,
            secret_env: self.secret_env@,
            upstream: self.upstream@,
            tls_ca: self.tls_ca.deep_view(),
            inject_mode: self.inject_mode,
            credential_file: self.credential_file@,
            endpoint_rules: self.endpoint_rules.deep_view(),
        }
    }
}

/// An environment, as a mathematical value.
pub open spec fn env_of(env: TextMap<String>) -> Map<Seq<char>, Seq<char>> {
    env@.map_values(|value: String| value@)
}

impl DeepView for SealedCredentials {
    type V = SealedModel;

    open spec fn deep_view(&self) -> SealedModel {
        SealedModel {
            dir: self.dir@,
            access: self.access.deep_view(),
            sanitized_env: env_of(self.sanitized_env),
        }
    }
}

/// Where the directory for credentials is put.
pub enum CredentialBase {
    /// The directory for temporary files of the runner.
    RunnerTemp(Vec<u8>),
    /// A directory of runseal's own, that has to be made first, for its owner alone.
    StateDir(Vec<u8>),
    /// Wherever the system puts temporary files.
    SystemTemp,
}

/// Where the directory for credentials is put, as a mathematical value.
pub enum BaseChoice {
    RunnerTemp(Seq<u8>),
    StateDir(Seq<u8>),
    SystemTemp,
}

impl DeepView for CredentialBase {
    type V = BaseChoice;

    open spec fn deep_view(&self) -> BaseChoice {
        match self {
            CredentialBase::RunnerTemp(p) => BaseChoice::RunnerTemp(p@),
            CredentialBase::StateDir(p) => BaseChoice::StateDir(p@),
            CredentialBase::SystemTemp => BaseChoice::SystemTemp,
        }
    }
}

/// A variable that holds an absolute path. Others are not trusted: they would depend on where the
/// process runs.
pub open spec fn absolute_path_in(value: Option<Seq<u8>>) -> Option<Seq<u8>> {
    match value {
        Some(p) if path::rooted(p) => Some(p),
        _ => None,
    }
}

/// The value of a variable, as a mathematical value.
pub open spec fn bytes_in(value: Option<Vec<u8>>) -> Option<Seq<u8>> {
    match value {
        Some(v) => Some(v@),
        None => None,
    }
}

/// The value of a variable, if it is an absolute path.
pub fn absolute_env_path(value: Option<Vec<u8>>) -> (r: Option<Vec<u8>>)
    ensures
        bytes_in(r) == absolute_path_in(bytes_in(value)),
{
    match value {
        Some(p) => if path::is_absolute(&p) {
            Some(p)
        } else {
            None
        },
        None => None,
    }
}

/// The place below a state directory that is runseal's own.
pub open spec fn state_dir(state_home: Seq<u8>) -> Seq<u8> {
    path::joined_path(state_home, encode_utf8("runseal"@))
}

/// Where the directory for credentials is put, given the three variables that name a place.
pub open spec fn base_of(
    runner_temp: Option<Seq<u8>>,
    xdg_state_home: Option<Seq<u8>>,
    home: Option<Seq<u8>>,
) -> BaseChoice {
    match (absolute_path_in(runner_temp), absolute_path_in(xdg_state_home), absolute_path_in(home)) {
        (Some(p), _, _) => BaseChoice::RunnerTemp(p),
        (None, Some(p), _) => BaseChoice::StateDir(state_dir(p)),
        (None, None, Some(p)) => BaseChoice::StateDir(
            state_dir(path::joined_path(p, encode_utf8(".local/state"@))),
        ),
        (None, None, None) => BaseChoice::SystemTemp,
    }
}

/// Chooses where the directory for credentials is put. The system's temporary directory is the
/// last resort, since the sandbox may read there.
pub fn credential_temp_base_dir(
    runner_temp: Option<Vec<u8>>,
    xdg_state_home: Option<Vec<u8>>,
    home: Option<Vec<u8>>,
) -> (r: CredentialBase)
    ensures
        r.deep_view() == base_of(bytes_in(runner_temp), bytes_in(xdg_state_home), bytes_in(home)),
{
    if let Some(p) = absolute_env_path(runner_temp) {
        return CredentialBase::RunnerTemp(p);
    }
    let state_home = match absolute_env_path(xdg_state_home) {
        Some(p) => p,
        None => match absolute_env_path(home) {
            Some(p) => path::join(&p, &".local/state".as_bytes_vec()),
            None => {
                return CredentialBase::SystemTemp;
            },
        },
    };
    CredentialBase::StateDir(path::join(&state_home, &"runseal".as_bytes_vec()))
}

impl CredentialBase {
    /// The directory to use, once it is known whether one that had to be made could be made.
    pub fn directory(self, made: bool) -> (r: Option<Vec<u8>>)
        ensures
            bytes_in(r) == match self.deep_view() {
                BaseChoice::RunnerTemp(p) => Some(p),
                BaseChoice::StateDir(p) => if made {
                    Some(p)
                } else {
                    None
                },
                BaseChoice::SystemTemp => None,
            },
    {
        match self {
            CredentialBase::RunnerTemp(p) => Some(p),
            CredentialBase::StateDir(p) => if made {
                Some(p)
            } else {
                None
            },
            CredentialBase::SystemTemp => None,
        }
    }
}

/// Whether a character may stand in the name of a grant.
pub open spec fn is_name_char(c: char) -> bool {
    ||| 'a' <= c <= 'z'
    ||| 'A' <= c <= 'Z'
    ||| '0' <= c <= '9'
    ||| c == '_'
    ||| c == '-'
}

/// Whether a text can be the name of a grant.
pub open spec fn is_grant_name(name: Seq<char>) -> bool {
    name.len() > 0 && forall|i: int| 0 <= i < name.len() ==> is_name_char(#[trigger] name[i])
}

/// Why a name is refused.
pub open spec fn name_refusal(name: Seq<char>) -> Seq<char> {
    "access grant name '"@ + name + "' is invalid; use only [a-zA-Z0-9_-] and no path separators"@
}

/// Refuses a name that could be anything but a plain file name.
pub fn validate_access_grant_name(name: &str) -> (r: Result<(), Error>)
    ensures
        r is Ok <==> is_grant_name(name@),
        r matches Err(e) ==> e@ == name_refusal(name@),
{
    let chars = text::chars_of(name);
    let mut ok = chars.len() > 0;
    let mut i: usize = 0;
    while i < chars.len()
        invariant
            i <= chars@.len(),
            chars@ == name@,
            ok <==> name@.len() > 0 && forall|j: int|
                0 <= j < i ==> is_name_char(#[trigger] name@[j]),
        decreases chars@.len() - i,
    {
        let c = chars[i];
        if !(('a' <= c && c <= 'z') || ('A' <= c && c <= 'Z') || ('0' <= c && c <= '9') || c == '_'
            || c == '-') {
            assert(!is_name_char(name@[i as int]));
            ok = false;
        }
        i = i + 1;
    }
    if ok {
        Ok(())
    } else {
        Err(
            Error::about(
                "access grant name '",
                name,
                "' is invalid; use only [a-zA-Z0-9_-] and no path separators",
            ),
        )
    }
}

/// The name of a grant, as bytes, is a plain file name: it cannot lead out of a directory.
pub proof fn lemma_grant_name_is_plain(name: Seq<char>)
    requires
        is_grant_name(name),
    ensures
        path::is_plain_name(encode_utf8(name)),
{
    assert(is_ascii_chars(name)) by {
        assert forall|i: int| 0 <= i < name.len() implies '\0' <= #[trigger] name[i] <= '\u{7f}' by {
            assert(is_name_char(name[i]));
        }
    }
    is_ascii_chars_encode_utf8(name);
    let bytes = encode_utf8(name);
    assert(bytes.len() == name.len());
    assert forall|i: int| 0 <= i < bytes.len() implies #[trigger] bytes[i] != path::SLASH && bytes[i]
        != path::DOT by {
        assert(is_name_char(name[i]));
        assert(bytes[i] == name[i] as u8);
    }
    if bytes == seq![path::DOT] {
        assert(bytes[0] == path::DOT);
    }
    if bytes == seq![path::DOT, path::DOT] {
        assert(bytes[0] == path::DOT);
    }
}

/// The file of a grant stands directly in the directory for credentials.
pub proof fn lemma_credential_file_in_dir(dir: Seq<u8>, name: Seq<char>)
    requires
        dir.len() > 0,
        is_grant_name(name),
    ensures
        path::parts(path::joined_path(dir, encode_utf8(name))) == path::parts(dir).push(
            path::Part::Name(encode_utf8(name)),
        ),
        path::within(path::joined_path(dir, encode_utf8(name)), dir),
{
    lemma_grant_name_is_plain(name);
    path::lemma_join_name(dir, encode_utf8(name));
}

/// The secret that a variable holds.
pub open spec fn secret_of(secret_env: Seq<char>, value: Option<Seq<u8>>) -> Result<
    Seq<char>,
    Seq<char>,
> {
    match value {
        None => Err("access secret env var '"@ + secret_env + "' is not set"@),
        Some(bytes) => if valid_utf8(bytes) {
            Ok(decode_utf8(bytes))
        } else {
            Err("access secret env var '"@ + secret_env + "' is not valid UTF-8"@)
        },
    }
}

/// Reads the bytes of a variable as a secret. A failure tells the name, never the value.
pub fn decode_secret_env_value(secret_env: &str, value: Vec<u8>) -> (r: Result<String, Error>)
    ensures
        outcome(r) == secret_of(secret_env@, Some(value@)),
{
    match encoding::decode(value) {
        Some(secret) => Ok(secret),
        None => Err(
            Error::about("access secret env var '", secret_env, "' is not valid UTF-8"),
        ),
    }
}

/// Reads the secret that a variable holds.
pub fn read_secret_env(secret_env: &str, value: Option<Vec<u8>>) -> (r: Result<String, Error>)
    ensures
        outcome(r) == secret_of(secret_env@, bytes_in(value)),
{
    match value {
        Some(value) => decode_secret_env_value(secret_env, value),
        None => Err(Error::about("access secret env var '", secret_env, "' is not set")),
    }
}

/// Whether a text goes over more than one line.
pub open spec fn has_line_break(s: Seq<char>) -> bool {
    s.contains('\r') || s.contains('\n')
}

/// Why a secret cannot be injected, if it cannot.
pub open spec fn injection_refusal(
    secret_env: Seq<char>,
    inject_mode: SupportedInjectMode,
    secret: Seq<char>,
) -> Option<Seq<char>> {
    if inject_mode == SupportedInjectMode::Header && has_line_break(secret) {
        Some(
            "access secret env var '"@ + secret_env
                + "' contains a newline, which cannot be injected as an HTTP header"@,
        )
    } else {
        None
    }
}

/// Refuses a secret that would break the header it is put into. Basic authentication encodes the
/// secret, so there any will do.
pub fn validate_secret_for_inject_mode(
    secret_env: &str,
    inject_mode: SupportedInjectMode,
    secret: &str,
) -> (r: Result<(), Error>)
    ensures
        match r {
            Ok(_) => injection_refusal(secret_env@, inject_mode, secret@) is None,
            Err(e) => injection_refusal(secret_env@, inject_mode, secret@) == Some(e@),
        },
{
    let verbatim = match inject_mode {
        SupportedInjectMode::Header => true,
        SupportedInjectMode::BasicAuth => false,
    };
    if verbatim && (text::contains_char(secret, '\r') || text::contains_char(secret, '\n')) {
        return Err(
            Error::about(
                "access secret env var '",
                secret_env,
                "' contains a newline, which cannot be injected as an HTTP header",
            ),
        );
    }
    Ok(())
}

/// The texts that are not empty.
pub open spec fn non_empty(texts: Seq<Seq<char>>) -> Seq<Seq<char>>
    decreases texts.len(),
{
    if texts.len() == 0 {
        Seq::empty()
    } else if texts.last().len() > 0 {
        non_empty(texts.drop_last()).push(texts.last())
    } else {
        non_empty(texts.drop_last())
    }
}

/// The lines of a secret that are not empty.
pub open spec fn mask_lines(secret: Seq<char>) -> Seq<Seq<char>> {
    non_empty(pieces(secret, Separator::LineBreak))
}

/// The lines of a secret that are not empty: each has to be masked by itself.
pub fn secret_mask_lines(secret: &str) -> (r: Vec<String>)
    ensures
        r.deep_view() == mask_lines(secret@),
{
    let lines = text::split(secret, Separator::LineBreak);
    let ghost all = lines.deep_view();
    let mut out: Vec<String> = Vec::new();
    let mut i: usize = 0;
    assert(all.take(0) == Seq::<Seq<char>>::empty());
    assert(out.deep_view() == non_empty(all.take(0)));
    while i < lines.len()
        invariant
            i <= lines@.len(),
            all == lines.deep_view(),
            out.deep_view() == non_empty(all.take(i as int)),
        decreases lines@.len() - i,
    {
        let ghost done = out.deep_view();
        assert(all.take(i + 1).drop_last() == all.take(i as int));
        assert(all.take(i + 1).last() == lines@[i as int]@);
        if !lines[i].as_str().is_empty() {
            out.push(lines[i].clone());
            assert(out.deep_view() == done.push(lines@[i as int]@));
        }
        i = i + 1;
    }
    assert(all.take(i as int) == all);
    out
}

/// The command that has the runner hide a text in its log.
pub open spec fn mask_command(line: Seq<char>) -> Seq<char> {
    "::add-mask::"@ + line
}

/// The commands that have the runner hide a secret in its log.
pub open spec fn mask_commands_of(secret: Seq<char>) -> Seq<Seq<char>> {
    mask_lines(secret).map_values(|line: Seq<char>| mask_command(line))
}

/// The commands that have the runner hide a secret in its log.
pub fn mask_commands(secret: &str) -> (r: Vec<String>)
    ensures
        r.deep_view() == mask_commands_of(secret@),
{
    let lines = secret_mask_lines(secret);
    let ghost all = lines.deep_view();
    let mut out: Vec<String> = Vec::new();
    let mut i: usize = 0;
    while i < lines.len()
        invariant
            i <= lines@.len(),
            all == lines.deep_view(),
            all == mask_lines(secret@),
            out.deep_view() == mask_commands_of(secret@).take(i as int),
        decreases lines@.len() - i,
    {
        let ghost done = out.deep_view();
        let mut command = "::add-mask::".to_owned();
        command.append(lines[i].as_str());
        let ghost added = command@;
        out.push(command);
        assert(out.deep_view() == done.push(added));
        assert(mask_commands_of(secret@)[i as int] == added);
        i = i + 1;
    }
    out
}

/// What has to be done to seal one credential: hide the secret in the log, then write it.
pub struct SealStep {
    pub credential: SealedCredential,
    pub masks: Vec<String>,
    pub contents: String,
}

/// What has to be done to seal one credential, as a mathematical value.
pub struct StepModel {
    pub credential: CredentialModel,
    pub masks: Seq<Seq<char>>,
    pub contents: Seq<char>,
}

impl DeepView for SealStep {
    type V = StepModel;

    open spec fn deep_view(&self) -> StepModel {
        StepModel {
            credential: self.credential.deep_view(),
            masks: self.masks.deep_view(),
            contents: self.contents@,
        }
    }
}

/// How a grant is sealed in a directory, given the value of its variable.
pub open spec fn seal_of(grant: AccessModel, value: Option<Seq<u8>>, dir: Seq<u8>) -> Result<
    StepModel,
    Seq<char>,
> {
    if !is_grant_name(grant.name) {
        Err(name_refusal(grant.name))
    } else {
        match secret_of(grant.secret, value) {
            Err(e) => Err(e),
            Ok(secret) => if secret.len() == 0 {
                Err("access secret env var '"@ + grant.secret + "' is empty"@)
            } else {
                match injection_refusal(grant.secret, grant.inject_mode, secret) {
                    Some(e) => Err(e),
                    None => Ok(
                        StepModel {
                            credential: CredentialModel {
                                name: grant.name,
                                secret_env: grant.secret,
                                upstream: grant.upstream,
                                tls_ca: grant.tls_ca,
                                inject_mode: grant.inject_mode,
                                credential_file: path::joined_path(dir, encode_utf8(grant.name)),
                                endpoint_rules: grant.endpoint_rules,
                            },
                            masks: mask_commands_of(secret),
                            contents: secret,
                        },
                    ),
                }
            },
        }
    }
}

/// Decides how a grant is sealed.
pub fn seal_grant(grant: &AccessConfig, value: Option<Vec<u8>>, dir: &Vec<u8>) -> (r: Result<
    SealStep,
    Error,
>)
    ensures
        outcome(r) == seal_of(grant.deep_view(), bytes_in(value), dir@),
{
    if let Err(e) = validate_access_grant_name(grant.name.as_str()) {
        return Err(e);
    }
    let secret = match read_secret_env(grant.secret.as_str(), value) {
        Ok(secret) => secret,
        Err(e) => {
            return Err(e);
        },
    };
    if secret.as_str().is_empty() {
        return Err(Error::about("access secret env var '", grant.secret.as_str(), "' is empty"));
    }
    if let Err(e) = validate_secret_for_inject_mode(
        grant.secret.as_str(),
        grant.inject_mode,
        secret.as_str(),
    ) {
        return Err(e);
    }
    let masks = mask_commands(secret.as_str());
    let credential = SealedCredential {
        name: grant.name.clone(),
        secret_env: grant.secret.clone(),
        upstream: grant.upstream.clone(),
        tls_ca: text::copy_optional(&grant.tls_ca),
        inject_mode: grant.inject_mode,
        credential_file: path::join(dir, &grant.name.as_str().as_bytes_vec()),
        endpoint_rules: config::copy_rules(&grant.endpoint_rules),
    };
    Ok(SealStep { credential, masks, contents: secret })
}

/// The value of the variable at a place; a value that is not given counts as not set.
pub open spec fn value_at(values: Seq<Option<Seq<u8>>>, i: int) -> Option<Seq<u8>> {
    if 0 <= i < values.len() {
        values[i]
    } else {
        None
    }
}

/// How grants are sealed one after another: the steps up to the first failure, and that failure.
pub open spec fn sealing(
    grants: Seq<AccessModel>,
    values: Seq<Option<Seq<u8>>>,
    dir: Seq<u8>,
) -> (Seq<StepModel>, Option<Seq<char>>)
    decreases grants.len(),
{
    if grants.len() == 0 {
        (Seq::empty(), None)
    } else {
        let (done, failure) = sealing(grants.drop_last(), values, dir);
        if failure is Some {
            (done, failure)
        } else {
            match seal_of(grants.last(), value_at(values, grants.len() - 1), dir) {
                Err(e) => (done, Some(e)),
                Ok(step) => (done.push(step), None),
            }
        }
    }
}

proof fn lemma_sealing_fails(
    grants: Seq<AccessModel>,
    values: Seq<Option<Seq<u8>>>,
    dir: Seq<u8>,
    n: int,
)
    requires
        0 <= n <= grants.len(),
        sealing(grants.take(n), values, dir).1 is Some,
    ensures
        sealing(grants, values, dir) == sealing(grants.take(n), values, dir),
    decreases grants.len() - n,
{
    if n < grants.len() {
        assert(grants.take(n + 1).drop_last() == grants.take(n));
        lemma_sealing_fails(grants, values, dir, n + 1);
    } else {
        assert(grants.take(n) == grants);
    }
}

/// Whether a variable is one of runseal's own inputs.
pub open spec fn is_input_name(key: Seq<char>) -> bool {
    "RUNSEAL_"@.is_prefix_of(key) || "NONO_ACTION_"@.is_prefix_of(key)
}

/// Whether a variable reaches the command: text, neither a secret nor an input of runseal.
pub open spec fn passes(var: (Seq<u8>, Seq<u8>), secret_names: Seq<Seq<char>>) -> bool {
    &&& valid_utf8(var.0)
    &&& valid_utf8(var.1)
    &&& !secret_names.contains(decode_utf8(var.0))
    &&& !is_input_name(decode_utf8(var.0))
}

/// The environment that reaches the command.
pub open spec fn sanitized(
    vars: Seq<(Seq<u8>, Seq<u8>)>,
    secret_names: Seq<Seq<char>>,
) -> Map<Seq<char>, Seq<char>>
    decreases vars.len(),
{
    if vars.len() == 0 {
        Map::empty()
    } else {
        let rest = sanitized(vars.drop_last(), secret_names);
        if passes(vars.last(), secret_names) {
            rest.insert(decode_utf8(vars.last().0), decode_utf8(vars.last().1))
        } else {
            rest
        }
    }
}

/// Neither a secret nor an input of runseal reaches the command.
pub proof fn lemma_sanitized_hides_secrets(
    vars: Seq<(Seq<u8>, Seq<u8>)>,
    secret_names: Seq<Seq<char>>,
    key: Seq<char>,
)
    ensures
        sanitized(vars, secret_names).contains_key(key) ==> !secret_names.contains(key)
            && !is_input_name(key),
    decreases vars.len(),
{
    if vars.len() > 0 {
        lemma_sanitized_hides_secrets(vars.drop_last(), secret_names, key);
    }
}

/// Environment variables, as a mathematical value.
pub open spec fn vars_of(vars: Seq<(Vec<u8>, Vec<u8>)>) -> Seq<(Seq<u8>, Seq<u8>)> {
    vars.map_values(|var: (Vec<u8>, Vec<u8>)| (var.0@, var.1@))
}

/// The names of the secrets of grants.
pub open spec fn secret_names_of(grants: Seq<AccessModel>) -> Seq<Seq<char>> {
    grants.map_values(|grant: AccessModel| grant.secret)
}

/// Whether a text is the name of a secret.
fn is_secret_name(grants: &Vec<AccessConfig>, key: &str) -> (r: bool)
    ensures
        r == secret_names_of(grants.deep_view()).contains(key@),
{
    let ghost names = secret_names_of(grants.deep_view());
    let mut i: usize = 0;
    while i < grants.len()
        invariant
            i <= grants@.len(),
            names == secret_names_of(grants.deep_view()),
            forall|j: int| 0 <= j < i ==> #[trigger] names[j] != key@,
        decreases grants@.len() - i,
    {
        assert(names[i as int] == grants@[i as int].secret@);
        if text::same(grants[i].secret.as_str(), key) {
            return true;
        }
        i = i + 1;
    }
    false
}

/// The environment that reaches the command: without secrets, and without the inputs of runseal.
pub fn sanitize_env(vars: Vec<(Vec<u8>, Vec<u8>)>, grants: &Vec<AccessConfig>) -> (r: TextMap<
    String,
>)
    ensures
        r.wf(),
        env_of(r) == sanitized(vars_of(vars@), secret_names_of(grants.deep_view())),
{
    let ghost names = secret_names_of(grants.deep_view());
    let ghost all = vars_of(vars@);
    let mut env: TextMap<String> = TextMap::new();
    assert(all.take(0) == Seq::<(Seq<u8>, Seq<u8>)>::empty());
    assert(env_of(env) == sanitized(all.take(0), names));
    let mut i: usize = 0;
    while i < vars.len()
        invariant
            i <= vars@.len(),
            all == vars_of(vars@),
            names == secret_names_of(grants.deep_view()),
            env.wf(),
            env_of(env) == sanitized(all.take(i as int), names),
        decreases vars@.len() - i,
    {
        assert(all.take(i + 1).drop_last() == all.take(i as int));
        assert(all.take(i + 1).last() == (vars@[i as int].0@, vars@[i as int].1@));
        let key_bytes = path::slice(&vars[i].0, 0, vars[i].0.len());
        let value_bytes = path::slice(&vars[i].1, 0, vars[i].1.len());
        assert(key_bytes@ == vars@[i as int].0@);
        assert(value_bytes@ == vars@[i as int].1@);
        match (encoding::decode(key_bytes), encoding::decode(value_bytes)) {
            (Some(key), Some(value)) => {
                if !is_secret_name(grants, key.as_str()) && !text::starts_with(
                    key.as_str(),
                    "RUNSEAL_",
                ) && !text::starts_with(key.as_str(), "NONO_ACTION_") {
                    let ghost before = env_of(env);
                    let ghost k = key@;
                    let ghost v = value@;
                    env.insert(key, value);
                    assert(env_of(env) =~= before.insert(k, v));
                }
            },
            _ => {},
        }
        i = i + 1;
    }
    assert(all.take(i as int) == all);
    env
}

/// What has to be done to seal all credentials.
pub struct SealPlan {
    /// The steps, in order.
    pub steps: Vec<SealStep>,
    /// Why the credential after these steps cannot be sealed, if it cannot.
    pub failure: Option<Error>,
    pub sanitized_env: TextMap<String>,
}

/// A failure that may have come, as a mathematical value.
pub open spec fn failure_of(failure: Option<Error>) -> Option<Seq<char>> {
    match failure {
        Some(e) => Some(e@),
        None => None,
    }
}

/// The values of variables, as a mathematical value.
pub open spec fn values_of(values: Seq<Option<Vec<u8>>>) -> Seq<Option<Seq<u8>>> {
    values.map_values(|value: Option<Vec<u8>>| bytes_in(value))
}

/// Decides what has to be done to seal the credentials of a run in a directory.
///
/// `vars` is the whole environment; `values` holds, for each grant in turn, the value of the
/// variable that it names.
pub fn seal_credentials(
    config: &RunConfig,
    dir: &Vec<u8>,
    vars: Vec<(Vec<u8>, Vec<u8>)>,
    values: &Vec<Option<Vec<u8>>>,
) -> (r: SealPlan)
    ensures
        (r.steps.deep_view(), failure_of(r.failure)) == sealing(
            config.deep_view().access,
            values_of(values@),
            dir@,
        ),
        r.sanitized_env.wf(),
        env_of(r.sanitized_env) == sanitized(
            vars_of(vars@),
            secret_names_of(config.deep_view().access),
        ),
{
    let sanitized_env = sanitize_env(vars, &config.access);
    let ghost grants = config.access.deep_view();
    let ghost given = values_of(values@);
    let mut steps: Vec<SealStep> = Vec::new();
    let mut i: usize = 0;
    assert(grants.take(0) == Seq::<AccessModel>::empty());
    assert(steps.deep_view() == Seq::<StepModel>::empty());
    while i < config.access.len()
        invariant
            i <= config.access@.len(),
            grants == config.access.deep_view(),
            given == values_of(values@),
            sealing(grants.take(i as int), given, dir@) == (
                steps.deep_view(),
                None::<Seq<char>>,
            ),
            sanitized_env.wf(),
            env_of(sanitized_env) == sanitized(
                vars_of(vars@),
                secret_names_of(config.deep_view().access),
            ),
        decreases config.access@.len() - i,
    {
        let ghost done = steps.deep_view();
        let ghost upto = grants.take(i + 1);
        assert(upto.drop_last() == grants.take(i as int));
        assert(upto.last() == config.access@[i as int].deep_view());
        let value = if i < values.len() {
            match &values[i] {
                Some(bytes) => {
                    let copy = path::slice(bytes, 0, bytes.len());
                    assert(copy@ == bytes@);
                    Some(copy)
                },
                None => None,
            }
        } else {
            None
        };
        assert(bytes_in(value) == value_at(given, i as int));
        match seal_grant(&config.access[i], value, dir) {
            Err(e) => {
                assert(sealing(upto, given, dir@) == (done, Some(e@)));
                proof {
                    lemma_sealing_fails(grants, given, dir@, i + 1);
                }
                return SealPlan { steps, failure: Some(e), sanitized_env };
            },
            Ok(step) => {
                let ghost added = step.deep_view();
                steps.push(step);
                assert(steps.deep_view() == done.push(added));
            },
        }
        i = i + 1;
    }
    assert(grants.take(i as int) == grants);
    SealPlan { steps, failure: None, sanitized_env }
}

/// The credentials of steps.
pub open spec fn credentials_of(steps: Seq<StepModel>) -> Seq<CredentialModel> {
    steps.map_values(|step: StepModel| step.credential)
}

impl SealPlan {
    /// The sealed credentials, once every step has been done; or why there are none.
    pub fn finish(self, dir: Vec<u8>) -> (r: Result<SealedCredentials, Error>)
        requires
            self.sanitized_env.wf(),
        ensures
            match r {
                Err(e) => failure_of(self.failure) == Some(e@),
                Ok(sealed) => self.failure is None && sealed.sanitized_env.wf()
                    && sealed.deep_view() == (SealedModel {
                    dir: dir@,
                    access: credentials_of(self.steps.deep_view()),
                    sanitized_env: env_of(self.sanitized_env),
                }),
            },
    {
        let SealPlan { steps, failure, sanitized_env } = self;
        if let Some(e) = failure {
            return Err(e);
        }
        let ghost all = steps.deep_view();
        let mut rest = steps;
        let mut access: Vec<SealedCredential> = Vec::new();
        assert(all.skip(0) == all);
        assert(access.deep_view() == credentials_of(all).take(0));
        let n: usize = rest.len();
        let mut i: usize = 0;
        while i < n
            invariant
                i <= n,
                n == all.len(),
                rest.deep_view() == all.skip(i as int),
                access.deep_view() == credentials_of(all).take(i as int),
            decreases n - i,
        {
            let ghost done = access.deep_view();
            let ghost left = rest.deep_view();
            assert(left[0] == all[i as int]);
            assert(rest@.len() == left.len());
            let step = rest.remove(0);
            assert(rest.deep_view() == left.drop_first());
            assert(left.drop_first() == all.skip(i + 1));
            let ghost added = step.credential.deep_view();
            access.push(step.credential);
            assert(access.deep_view() == done.push(added));
            i = i + 1;
        }
        assert(credentials_of(all).take(n as int) == credentials_of(all));
        Ok(SealedCredentials { dir, access, sanitized_env })
    }
}

/// What is sealed is not empty, lies directly in the directory for credentials under the name of
/// its grant, and never breaks the header that it is put into.
pub proof fn lemma_sealed_safely(grant: AccessModel, value: Option<Seq<u8>>, dir: Seq<u8>)
    requires
        dir.len() > 0,
    ensures
        seal_of(grant, value, dir) matches Ok(step) ==> {
            &&& step.contents.len() > 0
            &&& step.credential.inject_mode == SupportedInjectMode::Header ==> !has_line_break(
                step.contents,
            )
            &&& path::parts(step.credential.credential_file) == path::parts(dir).push(
                path::Part::Name(encode_utf8(grant.name)),
            )
            &&& path::within(step.credential.credential_file, dir)
        },
{
    if is_grant_name(grant.name) {
        lemma_credential_file_in_dir(dir, grant.name);
    }
}

/// Either every grant is sealed, each by its own step, or there is a failure.
pub proof fn lemma_sealed_all_or_failed(
    grants: Seq<AccessModel>,
    values: Seq<Option<Seq<u8>>>,
    dir: Seq<u8>,
)
    ensures
        sealing(grants, values, dir).0.len() <= grants.len(),
        sealing(grants, values, dir).1 is None ==> sealing(grants, values, dir).0.len()
            == grants.len(),
        forall|i: int|
            0 <= i < sealing(grants, values, dir).0.len() ==> seal_of(
                grants[i],
                value_at(values, i),
                dir,
            ) == Ok::<StepModel, Seq<char>>(#[trigger] sealing(grants, values, dir).0[i]),
    decreases grants.len(),
{
    if grants.len() > 0 {
        let rest = grants.drop_last();
        lemma_sealed_all_or_failed(rest, values, dir);
        let done = sealing(rest, values, dir).0;
        let all = sealing(grants, values, dir).0;
        assert forall|i: int| 0 <= i < all.len() implies seal_of(
            grants[i],
            value_at(values, i),
            dir,
        ) == Ok::<StepModel, Seq<char>>(#[trigger] all[i]) by {
            if i < done.len() {
                assert(all[i] == done[i]);
                assert(rest[i] == grants[i]);
            }
        }
    }
}

/// Each line that is hidden has a character, and no line break, as the runner wants it.
pub proof fn lemma_mask_lines(secret: Seq<char>)
    ensures
        forall|i: int|
            0 <= i < mask_lines(secret).len() ==> (#[trigger] mask_lines(secret)[i]).len() > 0
                && !has_line_break(mask_lines(secret)[i]),
{
    text::lemma_pieces_hold_no_separator(secret, Separator::LineBreak);
    lemma_non_empty(pieces(secret, Separator::LineBreak));
}

proof fn lemma_non_empty(texts: Seq<Seq<char>>)
    requires
        forall|i: int, j: int|
            0 <= i < texts.len() && 0 <= j < texts[i].len() ==> !Separator::LineBreak.separates(
                #[trigger] texts[i][j],
            ),
    ensures
        forall|i: int|
            0 <= i < non_empty(texts).len() ==> (#[trigger] non_empty(texts)[i]).len() > 0
                && !has_line_break(non_empty(texts)[i]),
    decreases texts.len(),
{
    if texts.len() > 0 {
        let rest = texts.drop_last();
        let last = texts.last();
        assert forall|i: int, j: int|
            0 <= i < rest.len() && 0 <= j < rest[i].len() implies !Separator::LineBreak.separates(
            #[trigger] rest[i][j],
        ) by {
            assert(rest[i] == texts[i]);
            assert(!Separator::LineBreak.separates(texts[i][j]));
        }
        lemma_non_empty(rest);
        assert(!has_line_break(last)) by {
            if has_line_break(last) {
                let j = choose|j: int| 0 <= j < last.len() && (last[j] == '\r' || last[j] == '\n');
                assert(!Separator::LineBreak.separates(texts[texts.len() - 1][j]));
            }
        }
        assert forall|i: int| 0 <= i < non_empty(texts).len() implies (
        #[trigger] non_empty(texts)[i]).len() > 0 && !has_line_break(non_empty(texts)[i]) by {
            if i < non_empty(rest).len() {
                assert(non_empty(texts)[i] == non_empty(rest)[i]);
            }
        }
    }
}

/// No two credentials share a file, where no two grants share a name.
pub proof fn lemma_no_shared_file(
    grants: Seq<AccessModel>,
    values: Seq<Option<Seq<u8>>>,
    dir: Seq<u8>,
    i: int,
    j: int,
)
    requires
        dir.len() > 0,
        ascending(config::access_names(grants)),
        0 <= i < j < sealing(grants, values, dir).0.len(),
    ensures
        sealing(grants, values, dir).0[i].credential.credential_file != sealing(
            grants,
            values,
            dir,
        ).0[j].credential.credential_file,
{
    lemma_sealed_all_or_failed(grants, values, dir);
    let steps = sealing(grants, values, dir).0;
    let names = config::access_names(grants);
    let a = grants[i].name;
    let b = grants[j].name;
    assert(names[i] == a && names[j] == b);
    if a == b {
        lemma_precedes_irreflexive(a);
    }
    assert(seal_of(grants[i], value_at(values, i), dir) == Ok::<StepModel, Seq<char>>(steps[i]));
    assert(seal_of(grants[j], value_at(values, j), dir) == Ok::<StepModel, Seq<char>>(steps[j]));
    lemma_credential_file_in_dir(dir, a);
    lemma_credential_file_in_dir(dir, b);
    encode_utf8_decode_utf8(a);
    encode_utf8_decode_utf8(b);
    let base = path::parts(dir);
    assert(base.push(path::Part::Name(encode_utf8(a))).last() == path::Part::Name(encode_utf8(a)));
    assert(base.push(path::Part::Name(encode_utf8(b))).last() == path::Part::Name(encode_utf8(b)));
}

/// Whether a text is a plain name, by the code points of its characters: digits, letters, `-` and
/// `_`.
pub open spec fn is_word(name: Seq<char>) -> bool {
    name.len() > 0 && forall|i: int|
        0 <= i < name.len() ==> {
            let n = (#[trigger] name[i]) as u32;
            48 <= n <= 57 || 65 <= n <= 90 || 97 <= n <= 122 || n == 45 || n == 95
        }
}

/// Just such texts can be the name of a grant.
pub proof fn lemma_grant_name_exactly(name: Seq<char>)
    ensures
        is_grant_name(name) <==> is_word(name),
{
    if is_word(name) {
        assert forall|i: int| 0 <= i < name.len() implies is_name_char(#[trigger] name[i]) by {
            lemma_name_char(name[i]);
        }
    }
    if is_grant_name(name) {
        assert forall|i: int| 0 <= i < name.len() implies {
            let n = (#[trigger] name[i]) as u32;
            48 <= n <= 57 || 65 <= n <= 90 || 97 <= n <= 122 || n == 45 || n == 95
        } by {
            assert(is_name_char(name[i]));
            lemma_name_char(name[i]);
        }
    }
}

proof fn lemma_name_char(c: char)
    ensures
        is_name_char(c) <==> {
            let n = c as u32;
            48 <= n <= 57 || 65 <= n <= 90 || 97 <= n <= 122 || n == 45 || n == 95
        },
{
}

/// Whether a grant can be sealed with a value: the name is plain, the value is set, is text and is
/// not empty, and where it goes into a header it has no line break.
pub open spec fn can_seal(grant: AccessModel, value: Option<Seq<u8>>) -> bool {
    &&& is_word(grant.name)
    &&& value matches Some(bytes) && valid_utf8(bytes) && bytes.len() > 0 && (grant.inject_mode
        == SupportedInjectMode::Header ==> !decode_utf8(bytes).contains('\n') && !decode_utf8(
        bytes,
    ).contains('\r'))
}

/// Whether a step seals a grant with a value: the file bears the name of the grant, holds just the
/// bytes of the value, and is described by all that the grant says.
pub open spec fn seals(step: StepModel, grant: AccessModel, value: Option<Seq<u8>>, dir: Seq<u8>) -> bool {
    &&& value == Some(encode_utf8(step.contents))
    &&& step.credential.name == grant.name
    &&& step.credential.secret_env == grant.secret
    &&& step.credential.upstream == grant.upstream
    &&& step.credential.tls_ca == grant.tls_ca
    &&& step.credential.inject_mode == grant.inject_mode
    &&& step.credential.endpoint_rules == grant.endpoint_rules
    &&& dir.len() > 0 && dir.last() != 47 ==> step.credential.credential_file == dir + seq![47u8]
        + encode_utf8(grant.name)
    &&& dir.len() > 0 && dir.last() == 47 ==> step.credential.credential_file == dir + encode_utf8(
        grant.name,
    )
    &&& step.masks == mask_commands_of(step.contents)
}

/// A grant is sealed with the value of its variable if it can be, and refused otherwise.
pub proof fn lemma_seal_exactly(grant: AccessModel, value: Option<Seq<u8>>, dir: Seq<u8>)
    ensures
        seal_of(grant, value, dir) is Ok <==> can_seal(grant, value),
        seal_of(grant, value, dir) matches Ok(step) ==> seals(step, grant, value, dir),
{
    lemma_grant_name_exactly(grant.name);
    if let Some(bytes) = value {
        if valid_utf8(bytes) {
            let secret = decode_utf8(bytes);
            decode_utf8_encode_utf8(bytes);
            if secret.len() == 0 {
                assert(secret == Seq::<char>::empty());
                assert(encode_utf8(secret).len() == 0);
            }
            if bytes.len() == 0 {
                assert(secret.len() == 0);
            }
        }
    }
    if is_grant_name(grant.name) {
        lemma_grant_name_is_plain(grant.name);
        let name = encode_utf8(grant.name);
        assert(!path::rooted(name)) by {
            if path::rooted(name) {
                assert(name[0] == path::SLASH);
                assert(name.contains(path::SLASH));
            }
        }
    }
}

/// The values go to the grants one by one, each to that at the same place: step `i` writes value
/// `i` for grant `i`. The steps end before the first grant that cannot be sealed, and there is a
/// failure exactly if there is such a grant.
pub proof fn lemma_sealed_exactly(
    grants: Seq<AccessModel>,
    values: Seq<Option<Seq<u8>>>,
    dir: Seq<u8>,
)
    requires
        grants.len() <= values.len(),
    ensures
        sealing(grants, values, dir).1 is None <==> forall|i: int|
            0 <= i < grants.len() ==> can_seal(#[trigger] grants[i], values[i]),
        sealing(grants, values, dir).1 is None ==> sealing(grants, values, dir).0.len()
            == grants.len(),
        sealing(grants, values, dir).1 is Some ==> sealing(grants, values, dir).0.len()
            < grants.len() && !can_seal(
            grants[sealing(grants, values, dir).0.len() as int],
            values[sealing(grants, values, dir).0.len() as int],
        ),
        forall|i: int|
            0 <= i < sealing(grants, values, dir).0.len() ==> seals(
                #[trigger] sealing(grants, values, dir).0[i],
                grants[i],
                values[i],
                dir,
            ),
    decreases grants.len(),
{
    if grants.len() > 0 {
        let rest = grants.drop_last();
        let last = grants.len() - 1;
        lemma_sealed_exactly(rest, values, dir);
        lemma_seal_exactly(grants[last], values[last], dir);
        let done = sealing(rest, values, dir).0;
        let all = sealing(grants, values, dir).0;
        assert(grants.last() == grants[last]);
        assert(value_at(values, last) == values[last]);
        assert forall|i: int| 0 <= i < all.len() implies seals(
            #[trigger] all[i],
            grants[i],
            values[i],
            dir,
        ) by {
            if i < done.len() {
                assert(all[i] == done[i]);
                assert(rest[i] == grants[i]);
            }
        }
        if sealing(rest, values, dir).1 is Some {
            let k = done.len() as int;
            assert(rest[k] == grants[k]);
            assert(!can_seal(grants[k], values[k]));
        } else {
            assert forall|i: int| 0 <= i < rest.len() implies can_seal(
                #[trigger] grants[i],
                values[i],
            ) by {
                assert(rest[i] == grants[i]);
            }
        }
    }
}

/// What is told when a grant cannot be sealed: the name of the grant or of its variable, and never
/// anything of the value.
pub proof fn lemma_seal_refusals(grant: AccessModel, value: Option<Seq<u8>>, dir: Seq<u8>)
    ensures
        seal_of(grant, value, dir) matches Err(told) ==> {
            ||| told == "access grant name '"@ + grant.name
                + "' is invalid; use only [a-zA-Z0-9_-] and no path separators"@ && !is_word(
                grant.name,
            )
            ||| told == "access secret env var '"@ + grant.secret + "' is not set"@ && value is None
            ||| told == "access secret env var '"@ + grant.secret + "' is not valid UTF-8"@ && (
            value matches Some(bytes) && !valid_utf8(bytes))
            ||| told == "access secret env var '"@ + grant.secret + "' is empty"@ && (
            value matches Some(bytes) && bytes.len() == 0)
            ||| told == "access secret env var '"@ + grant.secret
                + "' contains a newline, which cannot be injected as an HTTP header"@
                && grant.inject_mode == SupportedInjectMode::Header && (
            value matches Some(bytes) && (decode_utf8(bytes).contains('\n') || decode_utf8(
                bytes,
            ).contains('\r')))
        },
{
    lemma_grant_name_exactly(grant.name);
    if let Some(bytes) = value {
        if valid_utf8(bytes) && decode_utf8(bytes).len() == 0 {
            decode_utf8_encode_utf8(bytes);
            assert(decode_utf8(bytes) == Seq::<char>::empty());
            assert(encode_utf8(decode_utf8(bytes)).len() == 0);
        }
    }
}

/// Every line of a secret that is not empty is hidden by a command of its own, in order, and
/// nothing else is.
pub proof fn lemma_masks_exactly(a: Seq<char>, c: char, b: Seq<char>)
    requires
        c == '\r' || c == '\n',
    ensures
        mask_commands_of(a + seq![c] + b) == mask_commands_of(a) + mask_commands_of(b),
        !a.contains('\r') && !a.contains('\n') ==> mask_commands_of(a) == if a.len() > 0 {
            seq!["::add-mask::"@ + a]
        } else {
            Seq::empty()
        },
{
    let sep = Separator::LineBreak;
    lemma_pieces_exactly(a, c, b, sep);
    lemma_non_empty_both(pieces(a, sep), pieces(b, sep));
    assert(mask_commands_of(a + seq![c] + b) == mask_commands_of(a) + mask_commands_of(b));
    if !a.contains('\r') && !a.contains('\n') {
        assert(uncut(a, sep)) by {
            assert forall|i: int| 0 <= i < a.len() implies !sep.separates(#[trigger] a[i]) by {
                if sep.separates(a[i]) {
                    assert(a.contains(a[i]));
                }
            }
        }
        let none = Seq::<Seq<char>>::empty();
        assert(seq![a].drop_last() == none);
        assert(non_empty(none) == none);
        assert(non_empty(seq![a]) == if a.len() > 0 {
            seq![a]
        } else {
            none
        });
        assert(mask_commands_of(a) == if a.len() > 0 {
            seq!["::add-mask::"@ + a]
        } else {
            none
        });
    }
}

proof fn lemma_non_empty_both(a: Seq<Seq<char>>, b: Seq<Seq<char>>)
    ensures
        non_empty(a + b) == non_empty(a) + non_empty(b),
    decreases b.len(),
{
    if b.len() == 0 {
        assert(a + b == a);
        assert(non_empty(a) + non_empty(b) == non_empty(a));
    } else {
        let less = b.drop_last();
        lemma_non_empty_both(a, less);
        assert((a + b).drop_last() == a + less);
        assert((a + b).last() == b.last());
        assert(non_empty(a + b) == non_empty(a) + non_empty(b));
    }
}

/// Whether the variable at a place is text and has a given name.
pub open spec fn names(vars: Seq<(Seq<u8>, Seq<u8>)>, i: int, key: Seq<char>) -> bool {
    &&& 0 <= i < vars.len()
    &&& valid_utf8(vars[i].0)
    &&& valid_utf8(vars[i].1)
    &&& decode_utf8(vars[i].0) == key
}

/// Whether a name belongs to a secret of a grant or to an input of runseal.
pub open spec fn is_withheld(key: Seq<char>, grants: Seq<AccessModel>) -> bool {
    ||| exists|i: int| 0 <= i < grants.len() && (#[trigger] grants[i]).secret == key
    ||| "RUNSEAL_"@.is_prefix_of(key)
    ||| "NONO_ACTION_"@.is_prefix_of(key)
}

/// Whether the variable at a place is the last one that has a given name.
pub open spec fn names_last(vars: Seq<(Seq<u8>, Seq<u8>)>, i: int, key: Seq<char>) -> bool {
    names(vars, i, key) && forall|j: int| i < j ==> !#[trigger] names(vars, j, key)
}

/// Whether some variable is text and has a given name.
pub open spec fn is_named(vars: Seq<(Seq<u8>, Seq<u8>)>, key: Seq<char>) -> bool {
    exists|i: int| #[trigger] names(vars, i, key)
}

/// A variable reaches the command exactly if it is text and is not withheld, and then with its own
/// value: that of its last occurrence, if there are more.
pub proof fn lemma_sanitized_exactly(
    vars: Seq<(Seq<u8>, Seq<u8>)>,
    grants: Seq<AccessModel>,
    key: Seq<char>,
)
    ensures
        sanitized(vars, secret_names_of(grants)).contains_key(key) <==> !is_withheld(key, grants)
            && is_named(vars, key),
        forall|i: int|
            !is_withheld(key, grants) && #[trigger] names_last(vars, i, key) ==> sanitized(
                vars,
                secret_names_of(grants),
            )[key] == decode_utf8(vars[i].1),
    decreases vars.len(),
{
    lemma_withheld_exactly(key, grants);
    if vars.len() > 0 {
        lemma_sanitized_exactly(vars.drop_last(), grants, key);
        lemma_one_variable_more(vars, key);
    }
}

proof fn lemma_withheld_exactly(key: Seq<char>, grants: Seq<AccessModel>)
    ensures
        is_withheld(key, grants) == (secret_names_of(grants).contains(key) || is_input_name(key)),
{
    let secrets = secret_names_of(grants);
    if secrets.contains(key) {
        let i = choose|i: int| 0 <= i < secrets.len() && secrets[i] == key;
        assert(grants[i].secret == key);
    }
    if exists|i: int| 0 <= i < grants.len() && (#[trigger] grants[i]).secret == key {
        let i = choose|i: int| 0 <= i < grants.len() && (#[trigger] grants[i]).secret == key;
        assert(secrets[i] == key);
    }
}

proof fn lemma_one_variable_more(vars: Seq<(Seq<u8>, Seq<u8>)>, key: Seq<char>)
    requires
        vars.len() > 0,
    ensures
        is_named(vars, key) == (is_named(vars.drop_last(), key) || names(
            vars,
            vars.len() - 1,
            key,
        )),
        forall|i: int| #[trigger]
            names_last(vars, i, key) ==> if names(vars, vars.len() - 1, key) {
                i == vars.len() - 1
            } else {
                names_last(vars.drop_last(), i, key) && vars.drop_last()[i] == vars[i]
            },
{
    let rest = vars.drop_last();
    let last = vars.len() - 1;
    assert forall|i: int| i != last implies #[trigger] names(vars, i, key) == names(
        rest,
        i,
        key,
    ) by {
        if 0 <= i < last {
            assert(rest[i] == vars[i]);
        }
    }
    if is_named(rest, key) {
        let i = choose|i: int| #[trigger] names(rest, i, key);
        assert(names(vars, i, key));
    }
    assert forall|i: int| #[trigger] names_last(vars, i, key) implies if names(vars, last, key) {
        i == last
    } else {
        names_last(rest, i, key) && rest[i] == vars[i]
    } by {
        if !names(vars, last, key) {
            assert(names(rest, i, key));
            assert forall|j: int| i < j implies !#[trigger] names(rest, j, key) by {
                if names(rest, j, key) {
                    assert(names(vars, j, key));
                }
            }
        }
    }
}

/// Every step leaves one credential, in the order of the steps.
pub proof fn lemma_credentials_in_order(steps: Seq<StepModel>)
    ensures
        credentials_of(steps).len() == steps.len(),
        forall|i: int|
            0 <= i < steps.len() ==> #[trigger] credentials_of(steps)[i] == steps[i].credential,
{
}

/// The directory for credentials goes to the first of three places that is named by an absolute
/// path: the runner's own, then one below the state directory, then one below the home directory.
pub proof fn lemma_base_exactly(
    runner_temp: Option<Seq<u8>>,
    xdg_state_home: Option<Seq<u8>>,
    home: Option<Seq<u8>>,
)
    ensures
        ({
            let a = runner_temp matches Some(p) && p.len() > 0 && p[0] == 47;
            let b = xdg_state_home matches Some(p) && p.len() > 0 && p[0] == 47;
            let c = home matches Some(p) && p.len() > 0 && p[0] == 47;
            let runseal = path::Part::Name(encode_utf8("runseal"@));
            let local = path::Part::Name(encode_utf8(".local"@));
            let state = path::Part::Name(encode_utf8("state"@));
            match base_of(runner_temp, xdg_state_home, home) {
                BaseChoice::RunnerTemp(p) => a && runner_temp == Some(p),
                BaseChoice::StateDir(p) => {
                    &&& !a
                    &&& b ==> path::parts(p) == path::parts(xdg_state_home->Some_0).push(runseal)
                    &&& !b ==> c && path::parts(p) == path::parts(home->Some_0).push(local).push(
                        state,
                    ).push(runseal)
                },
                BaseChoice::SystemTemp => !a && !b && !c,
            }
        }),
{
    reveal_strlit("runseal");
    reveal_strlit(".local");
    reveal_strlit("state");
    reveal_strlit(".local/state");
    lemma_ascii(".local/state"@);
    lemma_ascii(".local"@);
    lemma_ascii("state"@);
    lemma_ascii("runseal"@);
    let name = encode_utf8("runseal"@);
    let first = encode_utf8(".local"@);
    let second = encode_utf8("state"@);
    let both = encode_utf8(".local/state"@);
    assert(both == first + seq![47u8] + second) by {
        assert forall|i: int| 0 <= i < both.len() implies both[i] == (first + seq![47u8]
            + second)[i] by {
            assert(both[i] == ".local/state"@[i] as u8);
            if i < 6 {
                assert(".local/state"@[i] == ".local"@[i]);
            } else if i > 6 {
                assert(".local/state"@[i] == "state"@[i - 7]);
            }
        }
    }
    lemma_plain_ascii("runseal"@);
    lemma_plain_ascii(".local"@);
    lemma_plain_ascii("state"@);
    if let Some(p) = xdg_state_home {
        if path::rooted(p) {
            path::lemma_join_name(p, name);
        }
    }
    if let Some(p) = home {
        if path::rooted(p) {
            let q = path::joined_path(p, both);
            let r = path::joined_path(p, first);
            path::lemma_join_name(p, first);
            assert(!path::rooted(both)) by {
                assert(both[0] == first[0]);
            }
            assert(q == r + seq![47u8] + second);
            assert(r.len() > 0);
            assert(r.last() == first.last());
            assert(first.last() != 47);
            path::lemma_join_name(r, second);
            assert(q == path::joined_path(r, second));
            path::lemma_join_name(q, name);
        }
    }
}

proof fn lemma_ascii(name: Seq<char>)
    requires
        forall|i: int| 0 <= i < name.len() ==> '\0' <= #[trigger] name[i] <= '\u{7f}',
    ensures
        encode_utf8(name).len() == name.len(),
        forall|i: int| 0 <= i < name.len() ==> #[trigger] encode_utf8(name)[i] == name[i] as u8,
{
    assert(is_ascii_chars(name));
    is_ascii_chars_encode_utf8(name);
}

proof fn lemma_plain_ascii(name: Seq<char>)
    requires
        name.len() > 2,
        forall|i: int|
            0 <= i < name.len() ==> '\0' <= #[trigger] name[i] <= '\u{7f}' && name[i] != '/',
    ensures
        path::is_plain_name(encode_utf8(name)),
        !path::rooted(encode_utf8(name)),
        encode_utf8(name).last() != 47,
{
    lemma_ascii(name);
    let bytes = encode_utf8(name);
    assert forall|i: int| 0 <= i < bytes.len() implies #[trigger] bytes[i] != path::SLASH by {
        assert(bytes[i] == name[i] as u8);
    }
    assert(bytes[bytes.len() - 1] == bytes.last());
}

/// A model holds what the value holds, each part under its own name.
pub proof fn lemma_models_are_faithful(
    credential: SealedCredential,
    sealed: SealedCredentials,
    step: SealStep,
    base: CredentialBase,
)
    ensures
        credential.deep_view().name == credential.name@,
        credential.deep_view().secret_env == credential.secret_env@,
        credential.deep_view().upstream == credential.upstream@,
        credential.deep_view().tls_ca == credential.tls_ca.deep_view(),
        credential.deep_view().inject_mode == credential.inject_mode,
        credential.deep_view().credential_file == credential.credential_file@,
        credential.deep_view().endpoint_rules == credential.endpoint_rules.deep_view(),
        sealed.deep_view().dir == sealed.dir@,
        sealed.deep_view().access == sealed.access.deep_view(),
        forall|key: Seq<char>|
            sealed.deep_view().sanitized_env.contains_key(key)
                <==> #[trigger] sealed.sanitized_env@.contains_key(key),
        forall|key: Seq<char>| #[trigger]
            sealed.sanitized_env@.contains_key(key) ==> sealed.deep_view().sanitized_env[key]
                == sealed.sanitized_env@[key]@,
        step.deep_view().credential == step.credential.deep_view(),
        step.deep_view().masks == step.masks.deep_view(),
        step.deep_view().contents == step.contents@,
        base matches CredentialBase::RunnerTemp(p) ==> base.deep_view() == BaseChoice::RunnerTemp(
            p@,
        ),
        base matches CredentialBase::StateDir(p) ==> base.deep_view() == BaseChoice::StateDir(p@),
        base is SystemTemp ==> base.deep_view() == BaseChoice::SystemTemp,
{
}

/// The values of variables are what they are, each at its place.
pub proof fn lemma_values_are_faithful(
    values: Seq<Option<Vec<u8>>>,
    vars: Seq<(Vec<u8>, Vec<u8>)>,
)
    ensures
        values_of(values).len() == values.len(),
        forall|i: int|
            0 <= i < values.len() ==> match #[trigger] values[i] {
                Some(bytes) => values_of(values)[i] == Some(bytes@),
                None => values_of(values)[i] is None,
            },
        vars_of(vars).len() == vars.len(),
        forall|i: int|
            0 <= i < vars.len() ==> vars_of(vars)[i] == ((#[trigger] vars[i]).0@, vars[i].1@),
{
}

/// What is made for credentials is for its owner alone, and is known by its name.
pub proof fn lemma_for_the_owner_alone()
    ensures
        CREDENTIAL_DIR_MODE == 0o700,
        CREDENTIAL_FILE_MODE == 0o600,
        CREDENTIAL_DIR_PREFIX@ == "runseal-creds."@,
{
}

} // verus!
