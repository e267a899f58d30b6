//! The profile that is generated for a run, and merged last of all.
use vstd::prelude::*;
use vstd::string::*;
use vstd::utf8::{encode_utf8, is_ascii_chars, is_ascii_chars_encode_utf8};

use crate::config;
use crate::config::{
    ActionEnv, ConfigModel, EndpointRule, LoadedModel, NetworkChoice, NetworkPolicy, RuleModel,
    RunConfig, SupportedInjectMode,
};
use crate::encoding;
use crate::encoding::shown_text;
use crate::error::{in_context, outcome, Error};
use crate::ordered;
use crate::ordered::{ascending, listed, TextMap};
use crate::path;
use crate::repo_profile;
use crate::repo_profile::RepoModel;
use crate::secrets;
use crate::secrets::{CredentialModel, SealedCredential, SealedCredentials, SealedModel};
use crate::text;
use crate::text::{
    after_last, before, lemma_after_last_exactly, lemma_cut_exactly, uncut, Separator,
};

verus! {

/// The version of this program.
pub const VERSION: &'static str = "0.1.0";

/// The systems that the sandbox tells apart.
#[derive(Debug, Clone, Copy, PartialEq, Eq, Structural)]
pub enum TargetOs {
    Linux,
    MacOs,
    Other,
}

/// The generated profile.
pub struct NonoProfile {
    pub extends: Vec<String>,
    pub meta: Meta,
    pub groups: Groups,
    pub filesystem: Filesystem,
    pub network: Network,
}

/// What the generated profile is called.
pub struct Meta {
    pub name: &'static str,
    pub version: &'static str,
}

/// The groups of rules that do not apply.
pub struct Groups {
    pub exclude: Vec<String>,
}

/// The paths that the command may not reach, whatever else is granted.
pub struct Filesystem {
    pub deny: Vec<String>,
}

/// The network part of the generated profile.
pub struct Network {
    pub block: Option<bool>,
    pub allow_domain: Vec<String>,
    pub credentials: Vec<String>,
    pub custom_credentials: TextMap<CustomCredential>,
}

/// A credential as the proxy of the sandbox has to know it.
pub struct CustomCredential {
    pub upstream: String,
    pub credential_key: String,
    pub inject_mode: SupportedInjectMode,
    pub inject_header: &'static str,
    pub credential_format: Option<&'static str>,
    pub env_var: String,
    pub tls_ca: Option<String>,
    pub endpoint_rules: Vec<EndpointRule>,
}

/// The generated profile, as a mathematical value.
pub struct GeneratedModel {
    pub extends: Seq<Seq<char>>,
    pub name: Seq<char>,
    pub version: Seq<char>,
    pub exclude: Seq<Seq<char>>,
    pub deny: Seq<Seq<char>>,
    pub block: Option<bool>,
    pub allow_domain: Seq<Seq<char>>,
    pub credentials: Seq<Seq<char>>,
    pub custom_credentials: Map<Seq<char>, CustomModel>,
}

/// A credential as the proxy has to know it, as a mathematical value.
pub struct CustomModel {
    pub upstream: Seq<char>,
    pub credential_key: Seq<char>,
    pub inject_mode: SupportedInjectMode,
    pub inject_header: Seq<char>,
    pub credential_format: Option<Seq<char>>,
    pub env_var: Seq<char>,
    pub tls_ca: Option<Seq<char>>,
    pub endpoint_rules: Seq<RuleModel>,
}

impl DeepView for CustomCredential {
    type V = CustomModel;

    open spec fn deep_view(&self) -> CustomModel {
        CustomModel {
            upstream: self.upstream@,
            credential_key: self.credential_key@,
            inject_mode: self.inject_mode,
            inject_header: self.inject_header@,
            credential_format: self.credential_format.deep_view(),
            env_var: self.env_var@,
            tls_ca: self.tls_ca.deep_view(),
            endpoint_rules: self.endpoint_rules.deep_view(),
        }
    }
}

/// Credentials by name, as a mathematical value.
pub open spec fn customs_of(map: TextMap<CustomCredential>) -> Map<Seq<char>, CustomModel> {
    map@.map_values(|c: CustomCredential| c.deep_view())
}

impl DeepView for NonoProfile {
    type V = GeneratedModel;

    open spec fn deep_view(&self) -> GeneratedModel {
        GeneratedModel {
            extends: self.extends.deep_view(),
            name: self.meta.name@,
            version: self.meta.version@,
            exclude: self.groups.exclude.deep_view(),
            deny: self.filesystem.deny.deep_view(),
            block: self.network.block,
            allow_domain: self.network.allow_domain.deep_view(),
            credentials: self.network.credentials.deep_view(),
            custom_credentials: customs_of(self.network.custom_credentials),
        }
    }
}

impl Filesystem {
    /// Whether nothing is denied.
    pub fn is_empty(&self) -> (r: bool)
        ensures
            r == (self.deny@.len() == 0),
    {
        self.deny.len() == 0
    }
}

/// What follows the scheme of a URL, if the scheme is one of the web.
pub open spec fn after_scheme(url: Seq<char>) -> Option<Seq<char>> {
    if "https://"@.is_prefix_of(url) {
        Some(url.skip("https://"@.len() as int))
    } else if "http://"@.is_prefix_of(url) {
        Some(url.skip("http://"@.len() as int))
    } else {
        None
    }
}

/// The name of a host without its port: what stands in brackets, or before the first colon.
pub open spec fn without_port(host: Seq<char>) -> Seq<char> {
    if host.len() > 0 && host.first() == '[' && host.drop_first().contains(']') {
        before(host.drop_first(), Separator::Char(']'))
    } else {
        before(host, Separator::Char(':'))
    }
}

/// The host that a URL names.
pub open spec fn host_of(url: Seq<char>) -> Option<Seq<char>> {
    match after_scheme(url) {
        None => None,
        Some(rest) => {
            let host = without_port(after_last(before(rest, Separator::Char('/')), '@'));
            if host.len() > 0 {
                Some(host)
            } else {
                None
            }
        },
    }
}

/// The host that a URL names: without user, port and path.
pub fn upstream_host<'a>(url: &'a str) -> (r: Option<&'a str>)
    ensures
        match r {
            Some(host) => host_of(url@) == Some(host@),
            None => host_of(url@) is None,
        },
{
    let rest = match text::strip_prefix(url, "https://") {
        Some(rest) => rest,
        None => match text::strip_prefix(url, "http://") {
            Some(rest) => rest,
            None => {
                return None;
            },
        },
    };
    let authority = text::text_before(rest, Separator::Char('/'));
    let host = text::text_after_last(authority, '@');
    proof {
        reveal_strlit("[");
        if "["@.is_prefix_of(host@) {
            assert("["@[0] == '[');
            assert(host@[0] == '[');
        } else if host@.len() > 0 && host@[0] == '[' {
            assert(host@.take(1) == "["@);
            assert("["@.is_prefix_of(host@));
        }
        assert(host@.len() > 0 ==> host@.skip(1) == host@.drop_first());
    }
    let name = match text::strip_prefix(host, "[") {
        Some(inner) if text::contains_char(inner, ']') => text::text_before(
            inner,
            Separator::Char(']'),
        ),
        _ => text::text_before(host, Separator::Char(':')),
    };
    if name.is_empty() {
        None
    } else {
        Some(name)
    }
}

/// The groups that are left out on a system: those that write to another system's places.
pub open spec fn other_groups(os: TargetOs) -> Seq<Seq<char>> {
    match os {
        TargetOs::Linux => seq!["system_write_macos"@],
        TargetOs::MacOs => seq!["system_write_linux"@],
        TargetOs::Other => seq!["system_write_linux"@, "system_write_macos"@],
    }
}

/// The groups that are left out on a system.
pub fn excluded_groups(os: TargetOs) -> (r: Vec<String>)
    ensures
        r.deep_view() == other_groups(os),
{
    let mut out: Vec<String> = Vec::new();
    match os {
        TargetOs::Linux => out.push("system_write_macos".to_owned()),
        TargetOs::MacOs => out.push("system_write_linux".to_owned()),
        TargetOs::Other => {
            out.push("system_write_linux".to_owned());
            out.push("system_write_macos".to_owned());
        },
    }
    assert(out.deep_view() == other_groups(os));
    out
}

/// The profiles that the generated one extends.
pub open spec fn bases_of(config: ConfigModel) -> Seq<Seq<char>> {
    if config.repo_profile is Some {
        seq!["default"@, repo_profile::BASE_NAME@]
    } else {
        seq!["default"@]
    }
}

/// The profiles that the generated one extends: the default, and above it that of the repository.
pub fn extends(config: &RunConfig) -> (r: Vec<String>)
    ensures
        r.deep_view() == bases_of(config.deep_view()),
{
    let mut out: Vec<String> = Vec::new();
    out.push("default".to_owned());
    match &config.repo_profile {
        Some(_) => {
            out.push(repo_profile::BASE_NAME.to_owned());
        },
        None => {},
    }
    assert(out.deep_view() == bases_of(config.deep_view()));
    out
}

/// The paths to deny, where credentials lie in `dir`: as it was made, and with its links resolved.
pub open spec fn denied_paths(
    sealed: SealedModel,
    canonical_dir: Result<Seq<u8>, Seq<char>>,
) -> Result<Seq<Seq<char>>, Seq<char>> {
    if sealed.access.len() == 0 {
        Ok(Seq::empty())
    } else {
        match canonical_dir {
            Err(e) => Err(
                in_context("failed to canonicalize '"@ + shown_text(sealed.dir) + "'"@, e),
            ),
            Ok(canonical) => Ok(
                listed(
                    Set::<Seq<char>>::empty().insert(shown_text(sealed.dir)).insert(
                        shown_text(canonical),
                    ),
                ),
            ),
        }
    }
}

/// The paths to deny so that credentials cannot be read.
pub fn credential_deny_paths(
    sealed: &SealedCredentials,
    canonical_dir: Result<Vec<u8>, Error>,
) -> (r: Result<Vec<String>, Error>)
    ensures
        outcome(r) == denied_paths(sealed.deep_view(), outcome(canonical_dir)),
{
    let mut paths: Vec<String> = Vec::new();
    assert(paths.deep_view() == Seq::<Seq<char>>::empty());
    if sealed.access.len() == 0 {
        return Ok(paths);
    }
    let dir = encoding::decode_lossy(sealed.dir.as_slice());
    match canonical_dir {
        Err(e) => {
            let attempt = Error::about("failed to canonicalize '", dir.as_str(), "'");
            Err(e.context(attempt.message()))
        },
        Ok(canonical) => {
            assert(canonical.deep_view() == canonical@);
            let target = encoding::decode_lossy(canonical.as_slice());
            let ghost named = Set::<Seq<char>>::empty().insert(dir@).insert(target@);
            assert(paths.deep_view().to_set() == Set::<Seq<char>>::empty());
            ordered::insert_text(&mut paths, dir);
            ordered::insert_text(&mut paths, target);
            assert(paths.deep_view().to_set() == named);
            proof {
                ordered::lemma_listed(paths.deep_view());
            }
            Ok(paths)
        },
    }
}

/// How the proxy has to know a credential.
pub open spec fn custom_of(credential: CredentialModel) -> CustomModel {
    CustomModel {
        upstream: credential.upstream,
        credential_key: "file://"@ + shown_text(credential.credential_file),
        inject_mode: credential.inject_mode,
        inject_header: "Authorization"@,
        credential_format: match credential.inject_mode {
            SupportedInjectMode::Header => Some("Bearer {}"@),
            SupportedInjectMode::BasicAuth => None,
        },
        env_var: credential.secret_env,
        tls_ca: credential.tls_ca,
        endpoint_rules: credential.endpoint_rules,
    }
}

/// Describes a credential to the proxy.
pub fn custom_credential(credential: &SealedCredential) -> (r: CustomCredential)
    ensures
        r.deep_view() == custom_of(credential.deep_view()),
{
    let mut key = "file://".to_owned();
    let file = encoding::decode_lossy(credential.credential_file.as_slice());
    key.append(file.as_str());
    let credential_format = match credential.inject_mode {
        SupportedInjectMode::Header => Some("Bearer {}"),
        SupportedInjectMode::BasicAuth => None,
    };
    CustomCredential {
        upstream: credential.upstream.clone(),
        credential_key: key,
        inject_mode: credential.inject_mode,
        inject_header: "Authorization",
        credential_format,
        env_var: credential.secret_env.clone(),
        tls_ca: text::copy_optional(&credential.tls_ca),
        endpoint_rules: config::copy_rules(&credential.endpoint_rules),
    }
}

/// The hosts that a policy names itself.
pub open spec fn listed_domains(network: NetworkChoice) -> Seq<Seq<char>> {
    match network {
        NetworkChoice::AllowDomains(domains) => domains,
        NetworkChoice::Blocked | NetworkChoice::FromRepoProfile => Seq::empty(),
    }
}

/// `domains` and the hosts that credentials are for.
pub open spec fn with_upstreams(
    domains: Set<Seq<char>>,
    credentials: Seq<CredentialModel>,
) -> Set<Seq<char>>
    decreases credentials.len(),
{
    if credentials.len() == 0 {
        domains
    } else {
        let rest = with_upstreams(domains, credentials.drop_last());
        match host_of(credentials.last().upstream) {
            Some(host) => rest.insert(host),
            None => rest,
        }
    }
}

/// Credentials by name.
pub open spec fn customs(credentials: Seq<CredentialModel>) -> Map<Seq<char>, CustomModel>
    decreases credentials.len(),
{
    if credentials.len() == 0 {
        Map::empty()
    } else {
        customs(credentials.drop_last()).insert(
            credentials.last().name,
            custom_of(credentials.last()),
        )
    }
}

/// The profile that is generated for a run.
pub open spec fn generated(
    config: ConfigModel,
    sealed: SealedModel,
    os: TargetOs,
    canonical_dir: Result<Seq<u8>, Seq<char>>,
) -> Result<GeneratedModel, Seq<char>> {
    match denied_paths(sealed, canonical_dir) {
        Err(e) => Err(e),
        Ok(deny) => Ok(
            GeneratedModel {
                extends: bases_of(config),
                name: "runseal-generated"@,
                version: VERSION@,
                exclude: other_groups(os),
                deny,
                block: if config.network == NetworkChoice::Blocked {
                    Some(true)
                } else {
                    None
                },
                allow_domain: listed(
                    with_upstreams(listed_domains(config.network).to_set(), sealed.access),
                ),
                credentials: sealed.access.map_values(|c: CredentialModel| c.name),
                custom_credentials: customs(sealed.access),
            },
        ),
    }
}

/// The hosts that a policy names itself, in ascending order.
fn sorted_domains(network: &NetworkPolicy) -> (r: Vec<String>)
    ensures
        ascending(r.deep_view()),
        r.deep_view().to_set() == listed_domains(network.deep_view()).to_set(),
{
    let mut out: Vec<String> = Vec::new();
    assert(out.deep_view() == Seq::<Seq<char>>::empty());
    if let NetworkPolicy::AllowDomains(domains) = network {
        let ghost all = domains.deep_view();
        assert(all.take(0) == Seq::<Seq<char>>::empty());
        let mut i: usize = 0;
        while i < domains.len()
            invariant
                i <= domains@.len(),
                all == domains.deep_view(),
                ascending(out.deep_view()),
                out.deep_view().to_set() == all.take(i as int).to_set(),
            decreases domains@.len() - i,
        {
            ordered::insert_text(&mut out, domains[i].clone());
            proof {
                assert(all.take(i + 1) == all.take(i as int).push(all[i as int]));
                all.take(i as int).lemma_push_to_set_commute(all[i as int]);
            }
            i = i + 1;
        }
        assert(all.take(i as int) == all);
    }
    out
}

/// Builds the profile that is generated for a run.
///
/// `canonical_dir` is the directory of the credentials with its links resolved, or why that could
/// not be found out.
pub fn build_profile(
    config: &RunConfig,
    sealed: &SealedCredentials,
    os: TargetOs,
    canonical_dir: Result<Vec<u8>, Error>,
) -> (r: Result<NonoProfile, Error>)
    ensures
        outcome(r) == generated(config.deep_view(), sealed.deep_view(), os, outcome(canonical_dir)),
        r matches Ok(profile) ==> profile.network.custom_credentials.wf(),
{
    let mut allow_domain = sorted_domains(&config.network);
    let mut credentials: Vec<String> = Vec::new();
    let mut custom_credentials: TextMap<CustomCredential> = TextMap::new();
    let ghost named = listed_domains(config.network.deep_view()).to_set();
    let ghost all = sealed.access.deep_view();
    let ghost names = all.map_values(|c: CredentialModel| c.name);
    let mut i: usize = 0;
    proof {
        assert(all.take(0) == Seq::<CredentialModel>::empty());
        assert(customs_of(custom_credentials) =~= customs(all.take(0)));
        assert(credentials.deep_view() == names.take(0));
    }
    while i < sealed.access.len()
        invariant
            i <= sealed.access@.len(),
            all == sealed.access.deep_view(),
            names == all.map_values(|c: CredentialModel| c.name),
            ascending(allow_domain.deep_view()),
            allow_domain.deep_view().to_set() == with_upstreams(named, all.take(i as int)),
            credentials.deep_view() == names.take(i as int),
            custom_credentials.wf(),
            customs_of(custom_credentials) == customs(all.take(i as int)),
        decreases sealed.access@.len() - i,
    {
        let credential = &sealed.access[i];
        let ghost done = credentials.deep_view();
        let ghost known = customs_of(custom_credentials);
        assert(all.take(i + 1).drop_last() == all.take(i as int));
        assert(all.take(i + 1).last() == credential.deep_view());
        if let Some(host) = upstream_host(credential.upstream.as_str()) {
            ordered::insert_text(&mut allow_domain, host.to_owned());
        }
        credentials.push(credential.name.clone());
        assert(credentials.deep_view() == done.push(credential.name@));
        let custom = custom_credential(credential);
        let ghost added = custom.deep_view();
        custom_credentials.insert(credential.name.clone(), custom);
        assert(customs_of(custom_credentials) =~= known.insert(credential.name@, added));
        i = i + 1;
    }
    proof {
        assert(all.take(i as int) == all);
        assert(names.take(i as int) == names);
        ordered::lemma_listed(allow_domain.deep_view());
    }
    let deny = match credential_deny_paths(sealed, canonical_dir) {
        Ok(deny) => deny,
        Err(e) => {
            return Err(e);
        },
    };
    let block = match &config.network {
        NetworkPolicy::Blocked => Some(true),
        NetworkPolicy::AllowDomains(_) => None,
        NetworkPolicy::FromRepoProfile => None,
    };
    Ok(
        NonoProfile {
            extends: extends(config),
            meta: Meta { name: "runseal-generated", version: VERSION },
            groups: Groups { exclude: excluded_groups(os) },
            filesystem: Filesystem { deny },
            network: Network { block, allow_domain, credentials, custom_credentials },
        },
    )
}

/// The path of the file for the generated profile in a directory.
pub fn profile_path(dir: &Vec<u8>) -> (r: Vec<u8>)
    ensures
        r@ == path::joined_path(dir@, encode_utf8("profile.json"@)),
{
    path::join(dir, &"profile.json".as_bytes_vec())
}

/// The network is blocked exactly where the run asks for that: neither a list of hosts nor the
/// profile of the repository can be cut off by the generated profile, and neither can be opened.
pub proof fn lemma_block_iff_blocked(
    config: ConfigModel,
    sealed: SealedModel,
    os: TargetOs,
    canonical_dir: Result<Seq<u8>, Seq<char>>,
)
    ensures
        generated(config, sealed, os, canonical_dir) matches Ok(profile) ==> {
            &&& profile.block == Some(true) <==> config.network == NetworkChoice::Blocked
            &&& profile.block != Some(false)
        },
{
}

/// Where there are credentials, their directory is denied under both of its names.
pub proof fn lemma_credentials_are_denied(
    config: ConfigModel,
    sealed: SealedModel,
    os: TargetOs,
    canonical_dir: Result<Seq<u8>, Seq<char>>,
)
    requires
        sealed.access.len() > 0,
    ensures
        generated(config, sealed, os, canonical_dir) matches Ok(profile) ==> canonical_dir is Ok
            && profile.deny.contains(shown_text(sealed.dir)) && profile.deny.contains(
            shown_text(canonical_dir->Ok_0),
        ),
{
    if let Ok(canonical) = canonical_dir {
        let dir = shown_text(sealed.dir);
        let target = shown_text(canonical);
        let both = Set::<Seq<char>>::empty().insert(dir).insert(target);
        ordered::lemma_listed_exactly(both);
        assert(both.contains(dir));
        assert(both.contains(target));
        assert(listed(both).to_set().contains(dir));
        assert(listed(both).to_set().contains(target));
    }
}

/// The default profile is the base of all, and that of the repository comes above it and below
/// the generated one.
pub proof fn lemma_repo_profile_is_last_base(
    config: ConfigModel,
    sealed: SealedModel,
    os: TargetOs,
    canonical_dir: Result<Seq<u8>, Seq<char>>,
)
    ensures
        generated(config, sealed, os, canonical_dir) matches Ok(profile) ==> {
            &&& profile.extends.first() == "default"@
            &&& config.repo_profile is Some ==> profile.extends.last() == repo_profile::BASE_NAME@
            &&& config.repo_profile is None ==> profile.extends.len() == 1
        },
{
}

/// The hosts that may be reached are those that the run lists and those that credentials are for,
/// and no others; each is listed once, in order.
pub proof fn lemma_allowed_hosts(
    config: ConfigModel,
    sealed: SealedModel,
    os: TargetOs,
    canonical_dir: Result<Seq<u8>, Seq<char>>,
    host: Seq<char>,
)
    ensures
        generated(config, sealed, os, canonical_dir) matches Ok(profile) ==> {
            &&& ascending(profile.allow_domain)
            &&& profile.allow_domain.contains(host) <==> listed_domains(config.network).contains(
                host,
            ) || exists|i: int|
                0 <= i < sealed.access.len() && host_of((#[trigger] sealed.access[i]).upstream)
                    == Some(host)
        },
{
    let domains = listed_domains(config.network).to_set();
    vstd::seq_lib::seq_to_set_is_finite(listed_domains(config.network));
    lemma_with_upstreams(domains, sealed.access, host);
    let hosts = with_upstreams(domains, sealed.access);
    ordered::lemma_listed_exactly(hosts);
    assert(listed(hosts).to_set().contains(host) == hosts.contains(host));
}

proof fn lemma_with_upstreams(
    domains: Set<Seq<char>>,
    credentials: Seq<CredentialModel>,
    host: Seq<char>,
)
    requires
        domains.finite(),
    ensures
        with_upstreams(domains, credentials).finite(),
        with_upstreams(domains, credentials).contains(host) <==> domains.contains(host) || exists|
            i: int,
        |
            0 <= i < credentials.len() && host_of((#[trigger] credentials[i]).upstream) == Some(
                host,
            ),
    decreases credentials.len(),
{
    if credentials.len() > 0 {
        let rest = credentials.drop_last();
        lemma_with_upstreams(domains, rest, host);
        if exists|i: int|
            0 <= i < credentials.len() && host_of((#[trigger] credentials[i]).upstream) == Some(
                host,
            ) {
            let i = choose|i: int|
                0 <= i < credentials.len() && host_of((#[trigger] credentials[i]).upstream)
                    == Some(host);
            if i < rest.len() {
                assert(rest[i] == credentials[i]);
            }
        }
        if exists|i: int|
            0 <= i < rest.len() && host_of((#[trigger] rest[i]).upstream) == Some(host) {
            let i = choose|i: int|
                0 <= i < rest.len() && host_of((#[trigger] rest[i]).upstream) == Some(host);
            assert(rest[i] == credentials[i]);
        }
        assert(credentials.last() == credentials[credentials.len() - 1]);
    }
}

/// Every credential is described under its name, and nothing else is.
pub proof fn lemma_each_credential_is_described(credentials: Seq<CredentialModel>, name: Seq<char>)
    ensures
        customs(credentials).contains_key(name) <==> exists|i: int|
            0 <= i < credentials.len() && (#[trigger] credentials[i]).name == name,
    decreases credentials.len(),
{
    if credentials.len() > 0 {
        let rest = credentials.drop_last();
        lemma_each_credential_is_described(rest, name);
        assert(credentials.last() == credentials[credentials.len() - 1]);
        if exists|i: int| 0 <= i < credentials.len() && (#[trigger] credentials[i]).name == name {
            let i = choose|i: int|
                0 <= i < credentials.len() && (#[trigger] credentials[i]).name == name;
            if i < rest.len() {
                assert(rest[i] == credentials[i]);
            }
        }
        if exists|i: int| 0 <= i < rest.len() && (#[trigger] rest[i]).name == name {
            let i = choose|i: int| 0 <= i < rest.len() && (#[trigger] rest[i]).name == name;
            assert(rest[i] == credentials[i]);
        }
    }
}

/// With a profile of the repository the generated profile blocks the network exactly where that
/// profile grants no host, and lists no host itself.
pub proof fn lemma_profile_mode_network(
    env: ActionEnv,
    repo: RepoModel,
    sealed: SealedModel,
    os: TargetOs,
    canonical_dir: Result<Seq<u8>, Seq<char>>,
)
    requires
        sealed.access.len() == 0,
    ensures
        env.config(LoadedModel::Profile(repo)) matches Ok(config) ==> generated(
            config,
            sealed,
            os,
            canonical_dir,
        ) matches Ok(profile) && {
            &&& profile.block == Some(true) <==> !repo.grants_domains()
            &&& profile.block != Some(false)
            &&& profile.allow_domain.len() == 0
            &&& profile.extends == seq!["default"@, repo_profile::BASE_NAME@]
        },
{
    let none = Seq::<Seq<char>>::empty();
    assert(ascending(none));
    ordered::lemma_listed(none);
    assert(with_upstreams(none.to_set(), sealed.access) == none.to_set());
}

/// The files of credentials, the generated profile and the profile of the repository lie side by
/// side in one directory, and none of them is written over another.
pub proof fn lemma_files_side_by_side(dir: Seq<u8>, name: Seq<char>)
    requires
        dir.len() > 0,
        secrets::is_grant_name(name),
    ensures
        ({
            let credential = path::joined_path(dir, encode_utf8(name));
            let generated = path::joined_path(dir, encode_utf8("profile.json"@));
            let sibling = repo_profile::sibling_of(dir);
            &&& path::parts(credential).drop_last() == path::parts(dir)
            &&& path::parts(generated).drop_last() == path::parts(dir)
            &&& path::parts(sibling).drop_last() == path::parts(dir)
            &&& credential != generated
            &&& credential != sibling
            &&& generated != sibling
        }),
{
    let repo_name = repo_profile::BASE_NAME@ + ".json"@;
    secrets::lemma_credential_file_in_dir(dir, name);
    reveal_strlit("profile.json");
    reveal_strlit("runseal-repo");
    reveal_strlit(".json");
    lemma_ascii_bytes(name);
    lemma_ascii_bytes("profile.json"@);
    lemma_ascii_bytes(repo_name);
    let a = encode_utf8(name);
    let b = encode_utf8("profile.json"@);
    let c = encode_utf8(repo_name);
    assert(b.len() == 12 && b[7] == path::DOT);
    assert(c.len() == 17 && c[12] == path::DOT);
    assert forall|i: int| 0 <= i < a.len() implies #[trigger] a[i] != path::DOT by {
        assert(secrets::is_name_char(name[i]));
    }
    assert forall|i: int| 0 <= i < b.len() implies #[trigger] b[i] != path::SLASH by {
        assert("profile.json"@[i] != '/');
    }
    assert forall|i: int| 0 <= i < c.len() implies #[trigger] c[i] != path::SLASH by {
        assert(repo_name[i] != '/');
    }
    path::lemma_join_name(dir, b);
    path::lemma_join_name(dir, c);
    let base = path::parts(dir);
    let credential = path::joined_path(dir, a);
    let generated = path::joined_path(dir, b);
    let sibling = repo_profile::sibling_of(dir);
    assert(a != b) by {
        if a == b {
            assert(a[7] == path::DOT);
        }
    }
    assert(a != c) by {
        if a == c {
            assert(a[12] == path::DOT);
        }
    }
    assert(path::parts(credential).last() == path::Part::Name(a));
    assert(path::parts(generated).last() == path::Part::Name(b));
    assert(path::parts(sibling).last() == path::Part::Name(c));
    assert(base.push(path::Part::Name(a)).drop_last() == base);
    assert(base.push(path::Part::Name(b)).drop_last() == base);
    assert(base.push(path::Part::Name(c)).drop_last() == base);
}

proof fn lemma_ascii_bytes(name: Seq<char>)
    requires
        forall|i: int| 0 <= i < name.len() ==> '\0' <= #[trigger] name[i] <= '\u{7f}',
    ensures
        encode_utf8(name).len() == name.len(),
        forall|i: int| 0 <= i < name.len() ==> #[trigger] encode_utf8(name)[i] == name[i] as u8,
{
    assert(is_ascii_chars(name));
    is_ascii_chars_encode_utf8(name);
}

/// Whether the proxy is told all of a credential: its upstream, its file, its variable, its
/// certificate, every one of its endpoint rules in their order, and how it is injected.
pub open spec fn describes(custom: CustomModel, credential: CredentialModel) -> bool {
    &&& custom.upstream == credential.upstream
    &&& custom.env_var == credential.secret_env
    &&& custom.tls_ca == credential.tls_ca
    &&& custom.inject_mode == credential.inject_mode
    &&& custom.endpoint_rules.len() == credential.endpoint_rules.len()
    &&& forall|j: int|
        0 <= j < credential.endpoint_rules.len() ==> #[trigger] custom.endpoint_rules[j]
            == credential.endpoint_rules[j]
    &&& custom.credential_key == "file://"@ + shown_text(credential.credential_file)
    &&& custom.inject_header == "Authorization"@
    &&& credential.inject_mode == SupportedInjectMode::Header ==> custom.credential_format == Some(
        "Bearer {}"@,
    )
    &&& credential.inject_mode == SupportedInjectMode::BasicAuth ==> custom.credential_format is None
}

/// Whether no credential behind a place has the same name as the one there.
pub open spec fn is_last_named(credentials: Seq<CredentialModel>, i: int) -> bool {
    forall|j: int| i < j < credentials.len() ==> (#[trigger] credentials[j]).name
        != credentials[i].name
}

/// In a generated profile every sealed credential is listed by its name, in order, and the entry
/// under that name describes it, unless a later credential has the same name. There is no other
/// entry.
pub proof fn lemma_credentials_exactly(
    config: ConfigModel,
    sealed: SealedModel,
    os: TargetOs,
    canonical_dir: Result<Seq<u8>, Seq<char>>,
)
    ensures
        generated(config, sealed, os, canonical_dir) matches Ok(profile) ==> {
            &&& profile.credentials.len() == sealed.access.len()
            &&& forall|i: int|
                0 <= i < sealed.access.len() ==> #[trigger] profile.credentials[i]
                    == sealed.access[i].name
            &&& forall|i: int|
                0 <= i < sealed.access.len() && #[trigger] is_last_named(sealed.access, i)
                    ==> profile.custom_credentials.contains_key(sealed.access[i].name)
                    && describes(
                    profile.custom_credentials[sealed.access[i].name],
                    sealed.access[i],
                )
            &&& forall|name: Seq<char>| #[trigger]
                profile.custom_credentials.contains_key(name) <==> exists|i: int|
                    0 <= i < sealed.access.len() && (#[trigger] sealed.access[i]).name == name
        },
{
    if let Ok(profile) = generated(config, sealed, os, canonical_dir) {
        assert forall|i: int|
            0 <= i < sealed.access.len() && #[trigger] is_last_named(
                sealed.access,
                i,
            ) implies profile.custom_credentials.contains_key(sealed.access[i].name) && describes(
            profile.custom_credentials[sealed.access[i].name],
            sealed.access[i],
        ) by {
            lemma_custom_at(sealed.access, i);
        }
        assert forall|name: Seq<char>| #[trigger]
            profile.custom_credentials.contains_key(name) <==> exists|i: int|
                0 <= i < sealed.access.len() && (#[trigger] sealed.access[i]).name == name by {
            lemma_each_credential_is_described(sealed.access, name);
        }
    }
}

proof fn lemma_custom_at(credentials: Seq<CredentialModel>, i: int)
    requires
        0 <= i < credentials.len(),
        is_last_named(credentials, i),
    ensures
        customs(credentials).contains_key(credentials[i].name),
        describes(customs(credentials)[credentials[i].name], credentials[i]),
    decreases credentials.len(),
{
    let rest = credentials.drop_last();
    let last = credentials.len() - 1;
    assert(credentials[last] == credentials.last());
    if i < last {
        assert(credentials[last].name != credentials[i].name);
        assert(rest[i] == credentials[i]);
        assert forall|j: int| i < j < rest.len() implies (#[trigger] rest[j]).name
            != rest[i].name by {
            assert(rest[j] == credentials[j]);
        }
        lemma_custom_at(rest, i);
    }
}

/// A secret goes the whole way: with as many values as grants, and no name used twice, the profile
/// that is generated for a sealed run has for each grant an entry under its name, with the upstream,
/// the variable, the mode and all endpoint rules that the grant has, and with the file that holds
/// its value.
pub proof fn lemma_grants_reach_the_profile(
    config: ConfigModel,
    values: Seq<Option<Seq<u8>>>,
    sealed: SealedModel,
    os: TargetOs,
    canonical_dir: Result<Seq<u8>, Seq<char>>,
    i: int,
)
    requires
        config.access.len() <= values.len(),
        secrets::sealing(config.access, values, sealed.dir).1 is None,
        sealed.access == secrets::credentials_of(
            secrets::sealing(config.access, values, sealed.dir).0,
        ),
        0 <= i < config.access.len(),
        forall|j: int, k: int|
            0 <= j < k < config.access.len() ==> (#[trigger] config.access[j]).name != (
            #[trigger] config.access[k]).name,
    ensures
        generated(config, sealed, os, canonical_dir) matches Ok(profile) ==> {
            let grant = config.access[i];
            let custom = profile.custom_credentials[grant.name];
            let step = secrets::sealing(config.access, values, sealed.dir).0[i];
            &&& profile.custom_credentials.contains_key(grant.name)
            &&& custom.upstream == grant.upstream
            &&& custom.env_var == grant.secret
            &&& custom.tls_ca == grant.tls_ca
            &&& custom.inject_mode == grant.inject_mode
            &&& custom.endpoint_rules == grant.endpoint_rules
            &&& custom.credential_key == "file://"@ + shown_text(step.credential.credential_file)
            &&& values[i] == Some(encode_utf8(step.contents))
        },
{
    let steps = secrets::sealing(config.access, values, sealed.dir).0;
    assert(steps.len() == config.access.len() && forall|j: int|
        0 <= j < steps.len() ==> secrets::seals(
            #[trigger] steps[j],
            config.access[j],
            values[j],
            sealed.dir,
        )) by {
        secrets::lemma_sealed_exactly(config.access, values, sealed.dir);
    }
    assert forall|j: int| i < j < sealed.access.len() implies (#[trigger] sealed.access[j]).name
        != sealed.access[i].name by {
        assert(sealed.access[j] == steps[j].credential);
        assert(sealed.access[i] == steps[i].credential);
        assert(secrets::seals(steps[j], config.access[j], values[j], sealed.dir));
        assert(secrets::seals(steps[i], config.access[i], values[i], sealed.dir));
        assert(config.access[i].name != config.access[j].name);
    }
    assert(secrets::seals(steps[i], config.access[i], values[i], sealed.dir));
    assert(sealed.access[i] == steps[i].credential);
    assert(is_last_named(sealed.access, i));
    lemma_custom_at(sealed.access, i);
    if let Ok(profile) = generated(config, sealed, os, canonical_dir) {
        let custom = profile.custom_credentials[sealed.access[i].name];
        assert(custom.endpoint_rules =~= config.access[i].endpoint_rules);
    }
}

/// The hosts that may be reached: those that the run lists, and that of each credential; no others,
/// in ascending order.
pub proof fn lemma_hosts_exactly(
    config: ConfigModel,
    sealed: SealedModel,
    os: TargetOs,
    canonical_dir: Result<Seq<u8>, Seq<char>>,
    host: Seq<char>,
)
    ensures
        generated(config, sealed, os, canonical_dir) matches Ok(profile) ==> {
            &&& profile.allow_domain.contains(host) <==> (
            config.network matches NetworkChoice::AllowDomains(domains) && domains.contains(host))
                || exists|i: int|
                0 <= i < sealed.access.len() && host_of((#[trigger] sealed.access[i]).upstream)
                    == Some(host)
            &&& forall|i: int, j: int|
                0 <= i < j < profile.allow_domain.len() ==> ordered::precedes(
                    #[trigger] profile.allow_domain[i],
                    #[trigger] profile.allow_domain[j],
                )
        },
{
    lemma_allowed_hosts(config, sealed, os, canonical_dir, host);
    match config.network {
        NetworkChoice::AllowDomains(_) => {},
        _ => {
            assert(!listed_domains(config.network).contains(host));
        },
    }
}

/// What is denied: the directory of the credentials, under both of its names, where there are
/// credentials, and nothing where there are none. The profile cannot be generated exactly if there
/// are credentials and their directory cannot be resolved.
pub proof fn lemma_denied_exactly(
    config: ConfigModel,
    sealed: SealedModel,
    os: TargetOs,
    canonical_dir: Result<Seq<u8>, Seq<char>>,
    place: Seq<char>,
)
    ensures
        generated(config, sealed, os, canonical_dir) is Err <==> sealed.access.len() > 0
            && canonical_dir is Err,
        generated(config, sealed, os, canonical_dir) matches Ok(profile) ==> (
        profile.deny.contains(place) <==> sealed.access.len() > 0 && (place == shown_text(
            sealed.dir,
        ) || Ok::<Seq<char>, Seq<char>>(place) == (match canonical_dir {
            Ok(dir) => Ok(shown_text(dir)),
            Err(e) => Err(e),
        }))),
{
    if let Ok(canonical) = canonical_dir {
        let dir = shown_text(sealed.dir);
        let target = shown_text(canonical);
        let both = Set::<Seq<char>>::empty().insert(dir).insert(target);
        ordered::lemma_listed_exactly(both);
        assert(listed(both).to_set().contains(place) == both.contains(place));
    }
    assert(!Seq::<Seq<char>>::empty().contains(place));
}

/// What every generated profile is called, what it extends, and which groups it leaves out: those
/// that write to the places of another system, never those of its own.
pub proof fn lemma_frame_exactly(
    config: ConfigModel,
    sealed: SealedModel,
    os: TargetOs,
    canonical_dir: Result<Seq<u8>, Seq<char>>,
)
    ensures
        generated(config, sealed, os, canonical_dir) matches Ok(profile) ==> {
            &&& profile.name == "runseal-generated"@
            &&& profile.version == VERSION@
            &&& profile.extends.len() == if config.repo_profile is Some {
                2int
            } else {
                1
            }
            &&& profile.extends[0] == "default"@
            &&& config.repo_profile is Some ==> profile.extends[1] == repo_profile::BASE_NAME@
            &&& profile.exclude.contains("system_write_macos"@) <==> os != TargetOs::MacOs
            &&& profile.exclude.contains("system_write_linux"@) <==> os != TargetOs::Linux
            &&& profile.exclude.len() <= 2
            &&& forall|i: int|
                0 <= i < profile.exclude.len() ==> #[trigger] profile.exclude[i]
                    == "system_write_macos"@ || profile.exclude[i] == "system_write_linux"@
            &&& profile.block == (if config.network == NetworkChoice::Blocked {
                Some(true)
            } else {
                None
            })
        },
{
    reveal_strlit("system_write_macos");
    reveal_strlit("system_write_linux");
    assert("system_write_macos"@[13] == 'm' && "system_write_linux"@[13] == 'l');
    if let Ok(profile) = generated(config, sealed, os, canonical_dir) {
        if os != TargetOs::MacOs {
            assert(profile.exclude.last() == "system_write_macos"@);
        }
        if os != TargetOs::Linux {
            assert(profile.exclude[0] == "system_write_linux"@);
        }
    }
}

/// The file of the repository's profile bears the name under which the generated profile extends
/// it, so that the sandbox finds it there.
pub proof fn lemma_sibling_is_found(
    dir: Seq<u8>,
    config: ConfigModel,
    sealed: SealedModel,
    os: TargetOs,
    canonical_dir: Result<Seq<u8>, Seq<char>>,
)
    requires
        dir.len() > 0,
        config.repo_profile is Some,
    ensures
        generated(config, sealed, os, canonical_dir) matches Ok(profile) ==> path::parts(
            repo_profile::sibling_of(dir),
        ) == path::parts(dir).push(path::Part::Name(encode_utf8(profile.extends.last() + ".json"@))),
{
    let name = repo_profile::BASE_NAME@ + ".json"@;
    reveal_strlit("runseal-repo");
    reveal_strlit(".json");
    lemma_ascii_bytes(name);
    let bytes = encode_utf8(name);
    assert forall|i: int| 0 <= i < bytes.len() implies #[trigger] bytes[i] != path::SLASH by {
        assert(name[i] != '/');
    }
    path::lemma_join_name(dir, bytes);
}

/// Whether the part of a URL before its host is a scheme of the web and maybe a user.
pub open spec fn leads_to_host(front: Seq<char>, user: Seq<char>) -> bool {
    &&& front == "https://"@ || front == "http://"@
    &&& user.len() == 0 || user.last() == '@'
    &&& !user.contains('/')
}

/// Whether what follows a host names no user and no other place: a port and the like, up to the
/// path.
pub open spec fn follows_host(more: Seq<char>, path: Seq<char>) -> bool {
    &&& !more.contains('@')
    &&& !more.contains('/')
    &&& path.len() == 0 || path[0] == '/'
}

/// The host of a URL is what stands between the scheme and user before it and the port and path
/// behind it.
pub proof fn lemma_host_exactly(
    front: Seq<char>,
    user: Seq<char>,
    host: Seq<char>,
    more: Seq<char>,
    path: Seq<char>,
)
    requires
        leads_to_host(front, user),
        follows_host(more, path),
        more.len() == 0 || more[0] == ':',
        !host.contains('/'),
        !host.contains('@'),
        !host.contains(':'),
        !(host.len() > 0 && host[0] == '[' && (host + more).contains(']')),
    ensures
        host_of(front + user + host + more + path) == if host.len() > 0 {
            Some(host)
        } else {
            None
        },
{
    let place = host + more;
    lemma_place_exactly(front, user, place, path);
    assert(front + user + host + more + path == front + user + place + path);
    lemma_no_either(host, more, '/');
    lemma_no_either(host, more, '@');
    assert(!place.contains('/') && !place.contains('@'));
    if place.len() > 0 && place[0] == '[' {
        if host.len() == 0 {
            assert(place[0] == more[0]);
        }
        assert(!place.drop_first().contains(']')) by {
            if place.drop_first().contains(']') {
                let i = choose|i: int|
                    0 <= i < place.drop_first().len() && place.drop_first()[i] == ']';
                assert(place[i + 1] == ']');
            }
        }
    }
    let sep = Separator::Char(':');
    assert(uncut(host, sep));
    if more.len() > 0 {
        lemma_cut_exactly(host, ':', more.drop_first(), sep);
        assert(place == host + seq![':'] + more.drop_first());
    } else {
        lemma_cut_exactly(host, ':', more, sep);
        assert(place == host);
    }
    assert(without_port(place) == host);
}

/// The host of a URL with an address in brackets is what stands in the brackets.
pub proof fn lemma_bracketed_host_exactly(
    front: Seq<char>,
    user: Seq<char>,
    host: Seq<char>,
    more: Seq<char>,
    path: Seq<char>,
)
    requires
        leads_to_host(front, user),
        follows_host(more, path),
        !host.contains('/'),
        !host.contains('@'),
        !host.contains(']'),
    ensures
        host_of(front + user + seq!['['] + host + seq![']'] + more + path) == if host.len() > 0 {
            Some(host)
        } else {
            None
        },
{
    let inner = host + seq![']'] + more;
    let place = seq!['['] + inner;
    assert(front + user + seq!['['] + host + seq![']'] + more + path == front + user + place
        + path);
    assert(seq!['['].len() == 1 && seq!['['][0] == '[');
    lemma_no_either(host, seq![']'], '/');
    lemma_no_either(host, seq![']'], '@');
    lemma_no_either(host + seq![']'], more, '/');
    lemma_no_either(host + seq![']'], more, '@');
    lemma_no_either(seq!['['], inner, '/');
    lemma_no_either(seq!['['], inner, '@');
    lemma_place_exactly(front, user, place, path);
    assert(place.drop_first() == inner);
    assert(inner[host.len() as int] == ']');
    assert(inner.contains(']'));
    let sep = Separator::Char(']');
    assert(uncut(host, sep));
    lemma_cut_exactly(host, ']', more, sep);
    assert(without_port(place) == host);
}

/// A URL without a scheme of the web names no host.
pub proof fn lemma_no_host_without_scheme(url: Seq<char>)
    requires
        !"https://"@.is_prefix_of(url),
        !"http://"@.is_prefix_of(url),
    ensures
        host_of(url) is None,
{
}

proof fn lemma_no_either(a: Seq<char>, b: Seq<char>, c: char)
    requires
        !a.contains(c),
        !b.contains(c),
    ensures
        !(a + b).contains(c),
{
    if (a + b).contains(c) {
        let i = choose|i: int| 0 <= i < (a + b).len() && (a + b)[i] == c;
        if i < a.len() {
            assert(a[i] == c);
        } else {
            assert(b[i - a.len()] == c);
        }
    }
}

proof fn lemma_place_exactly(
    front: Seq<char>,
    user: Seq<char>,
    place: Seq<char>,
    path: Seq<char>,
)
    requires
        leads_to_host(front, user),
        !place.contains('/'),
        !place.contains('@'),
        path.len() == 0 || path[0] == '/',
    ensures
        host_of(front + user + place + path) == if without_port(place).len() > 0 {
            Some(without_port(place))
        } else {
            None
        },
{
    let url = front + user + place + path;
    let rest = user + place + path;
    reveal_strlit("https://");
    reveal_strlit("http://");
    assert("https://"@[4] == 's' && "http://"@[4] == ':');
    assert(url == front + rest);
    assert(front.is_prefix_of(url)) by {
        assert(url.take(front.len() as int) == front);
    }
    if front == "http://"@ {
        assert(!"https://"@.is_prefix_of(url)) by {
            if "https://"@.is_prefix_of(url) {
                assert(url.take("https://"@.len() as int)[4] == "https://"@[4]);
                assert(url[4] == front[4]);
            }
        }
    }
    assert(url.skip(front.len() as int) == rest);
    assert(after_scheme(url) == Some(rest));
    let authority = user + place;
    lemma_no_either(user, place, '/');
    let slash = Separator::Char('/');
    assert(uncut(authority, slash)) by {
        assert forall|i: int| 0 <= i < authority.len() implies !slash.separates(
            #[trigger] authority[i],
        ) by {
            if authority[i] == '/' {
                assert(authority.contains('/'));
            }
        }
    }
    if path.len() > 0 {
        lemma_cut_exactly(authority, '/', path.drop_first(), slash);
        assert(rest == authority + seq!['/'] + path.drop_first());
    } else {
        lemma_cut_exactly(authority, '/', path, slash);
        assert(rest == authority);
    }
    assert(before(rest, slash) == authority);
    if user.len() > 0 {
        lemma_after_last_exactly(user.drop_last(), '@', place);
        assert(authority == user.drop_last() + seq!['@'] + place);
    } else {
        lemma_after_last_exactly(user, '@', place);
        assert(authority == place);
    }
    assert(after_last(authority, '@') == place);
}

/// A model holds what the value holds, each part under its own name.
pub proof fn lemma_models_are_faithful(profile: NonoProfile, custom: CustomCredential)
    ensures
        profile.deep_view().extends == profile.extends.deep_view(),
        profile.deep_view().name == profile.meta.name@,
        profile.deep_view().version == profile.meta.version@,
        profile.deep_view().exclude == profile.groups.exclude.deep_view(),
        profile.deep_view().deny == profile.filesystem.deny.deep_view(),
        profile.deep_view().block == profile.network.block,
        profile.deep_view().allow_domain == profile.network.allow_domain.deep_view(),
        profile.deep_view().credentials == profile.network.credentials.deep_view(),
        forall|name: Seq<char>|
            profile.deep_view().custom_credentials.contains_key(name)
                <==> #[trigger] profile.network.custom_credentials@.contains_key(name),
        forall|name: Seq<char>| #[trigger]
            profile.network.custom_credentials@.contains_key(name)
                ==> profile.deep_view().custom_credentials[name]
                == profile.network.custom_credentials@[name].deep_view(),
        custom.deep_view().upstream == custom.upstream@,
        custom.deep_view().credential_key == custom.credential_key@,
        custom.deep_view().inject_mode == custom.inject_mode,
        custom.deep_view().inject_header == custom.inject_header@,
        custom.deep_view().credential_format == custom.credential_format.deep_view(),
        custom.deep_view().env_var == custom.env_var@,
        custom.deep_view().tls_ca == custom.tls_ca.deep_view(),
        custom.deep_view().endpoint_rules == custom.endpoint_rules.deep_view(),
{
}

/// Where no two credentials share a name, each is described under its own, with all of its endpoint
/// rules.
pub proof fn lemma_distinct_credentials_exactly(
    config: ConfigModel,
    sealed: SealedModel,
    os: TargetOs,
    canonical_dir: Result<Seq<u8>, Seq<char>>,
    i: int,
)
    requires
        0 <= i < sealed.access.len(),
        forall|j: int, k: int|
            0 <= j < k < sealed.access.len() ==> (#[trigger] sealed.access[j]).name != (
            #[trigger] sealed.access[k]).name,
    ensures
        generated(config, sealed, os, canonical_dir) matches Ok(profile) ==> {
            let credential = sealed.access[i];
            let custom = profile.custom_credentials[credential.name];
            &&& profile.custom_credentials.contains_key(credential.name)
            &&& custom.endpoint_rules == credential.endpoint_rules
            &&& custom.upstream == credential.upstream
            &&& custom.inject_mode == credential.inject_mode
            &&& custom.tls_ca == credential.tls_ca
            &&& custom.env_var == credential.secret_env
        },
{
    assert(is_last_named(sealed.access, i)) by {
        assert forall|j: int| i < j < sealed.access.len() implies (#[trigger] sealed.access[j]).name
            != sealed.access[i].name by {
            assert(sealed.access[i].name != sealed.access[j].name);
        }
    }
    lemma_custom_at(sealed.access, i);
    if let Ok(profile) = generated(config, sealed, os, canonical_dir) {
        let custom = profile.custom_credentials[sealed.access[i].name];
        assert(custom.endpoint_rules =~= sealed.access[i].endpoint_rules);
    }
}

} // verus!
