//! What a run is asked to do: the command, what it may reach, and how it is audited.
use vstd::prelude::*;
use vstd::string::*;

use crate::error::{
    in_context, lemma_try_all_exactly, lemma_try_all_next, lemma_try_all_results, outcome, try_all,
    Error,
};
use crate::ordered::{ascending, lemma_empty_map, TextMap};
use crate::repo_profile::{RepoModel, RepoProfile};
use crate::text;
use crate::text::{
    after, all_space, before, is_space, lemma_cut_exactly, lemma_pieces_exactly, lemma_position,
    lemma_trimmed, lemma_trimmed_exactly, lemma_trimmed_parts, lemma_without_trailing, pieces,
    position, trimmed, uncut, without_trailing, Separator,
};

verus! {

/// The most bytes that a policy may have.
pub const MAX_POLICY_YAML_BYTES: usize = 65536;

/// A run as it was asked for.
pub struct RunConfig {
    pub command: String,
    pub fs_read: Vec<String>,
    pub fs_write: Vec<String>,
    pub network: NetworkPolicy,
    pub access: Vec<AccessConfig>,
    pub audit: AuditConfig,
    pub repo_profile: Option<RepoProfile>,
}

/// What the command may reach directly.
#[derive(Debug, PartialEq, Eq)]
pub enum NetworkPolicy {
    Blocked,
    AllowDomains(Vec<String>),
    /// The profile of the repository grants the hosts.
    FromRepoProfile,
}

/// How a policy says what the network is.
#[derive(Debug, Clone, Copy, PartialEq, Eq, Structural)]
pub enum NetworkMode {
    Blocked,
    Filtered,
}

/// Where audit evidence goes.
#[derive(Debug, PartialEq, Eq)]
pub enum AuditConfig {
    Disabled,
    Artifact { dir: String },
}

/// The ways to inject a secret that the sandbox knows.
#[derive(Debug, Clone, Copy, PartialEq, Eq, Structural)]
pub enum InjectMode {
    Header,
    UrlPath,
    QueryParam,
    BasicAuth,
}

/// The ways to inject a secret for which a complete credential entry can be generated.
#[derive(Debug, Clone, Copy, PartialEq, Eq, Structural)]
pub enum SupportedInjectMode {
    Header,
    BasicAuth,
}

/// A credential that the command may use without seeing it.
pub struct AccessConfig {
    pub name: String,
    pub secret: String,
    pub upstream: String,
    pub tls_ca: Option<String>,
    pub inject_mode: SupportedInjectMode,
    pub endpoint_rules: Vec<EndpointRule>,
}

/// A request that may carry a credential.
pub struct EndpointRule {
    pub method: String,
    pub path: String,
}

/// A policy as it was written.
pub struct PolicyInput {
    pub fs: Option<FsInput>,
    pub network: Option<NetworkInput>,
    /// The grants by their names.
    pub access: Option<TextMap<AccessInput>>,
}

/// The paths in a policy.
pub struct FsInput {
    pub read: Vec<String>,
    pub write: Vec<String>,
}

/// The network part of a policy. A mode that is left out is inferred from the list.
pub struct NetworkInput {
    pub mode: Option<NetworkMode>,
    pub allow: Vec<String>,
}

/// A grant in a policy.
pub struct AccessInput {
    pub secret: String,
    pub url: String,
    pub tls_ca: Option<String>,
    /// How the secret is injected; in a header, if this is left out.
    pub inject_mode: Option<InjectMode>,
    pub allow: Vec<String>,
}

/// What the environment says about the run; `None` where a variable is not set.
pub struct ActionEnv {
    pub run: Option<String>,
    pub legacy_command: Option<String>,
    pub profile: Option<String>,
    pub workspace: Option<String>,
    pub policy: Option<String>,
    pub fs_read: Option<String>,
    pub legacy_fs_read: Option<String>,
    pub fs_write: Option<String>,
    pub legacy_fs_write: Option<String>,
    pub network: Option<String>,
    pub legacy_network: Option<String>,
    pub audit: Option<String>,
    pub audit_dir: Option<String>,
}

/// Where a run takes its policy from.
#[derive(Debug, PartialEq, Eq)]
pub enum PolicySource {
    /// A profile of the repository, named relative to a workspace.
    Profile { input: String, workspace: String },
    /// A policy written in YAML.
    Policy(String),
    /// The separate inputs.
    Inputs,
}

/// A policy source with what was found there.
pub enum LoadedSource {
    Profile(RepoProfile),
    Policy(PolicyInput),
    Inputs,
}

/// A run as it was asked for, as a mathematical value.
pub struct ConfigModel {
    pub command: Seq<char>,
    pub fs_read: Seq<Seq<char>>,
    pub fs_write: Seq<Seq<char>>,
    pub network: NetworkChoice,
    pub access: Seq<AccessModel>,
    pub audit: AuditChoice,
    pub repo_profile: Option<RepoModel>,
}

/// What the command may reach directly, as a mathematical value.
pub enum NetworkChoice {
    Blocked,
    AllowDomains(Seq<Seq<char>>),
    FromRepoProfile,
}

/// Where audit evidence goes, as a mathematical value.
pub enum AuditChoice {
    Disabled,
    Artifact(Seq<char>),
}

/// A credential, as a mathematical value.
pub struct AccessModel {
    pub name: Seq<char>,
    pub secret: Seq<char>,
    pub upstream: Seq<char>,
    pub tls_ca: Option<Seq<char>>,
    pub inject_mode: SupportedInjectMode,
    pub endpoint_rules: Seq<RuleModel>,
}

/// A request that may carry a credential, as a mathematical value.
pub struct RuleModel {
    pub method: Seq<char>,
    pub path: Seq<char>,
}

/// A policy, as a mathematical value.
pub struct PolicyModel {
    pub fs: Option<(Seq<Seq<char>>, Seq<Seq<char>>)>,
    pub network: Option<(Option<NetworkMode>, Seq<Seq<char>>)>,
    pub access: Option<Seq<(Seq<char>, GrantModel)>>,
}

/// A grant, as a mathematical value.
pub struct GrantModel {
    pub secret: Seq<char>,
    pub url: Seq<char>,
    pub tls_ca: Option<Seq<char>>,
    pub inject_mode: Option<InjectMode>,
    pub allow: Seq<Seq<char>>,
}

/// A policy source, as a mathematical value.
pub enum SourceChoice {
    Profile(Seq<char>, Seq<char>),
    Policy(Seq<char>),
    Inputs,
}

/// A policy source with what was found there, as a mathematical value.
pub enum LoadedModel {
    Profile(RepoModel),
    Policy(PolicyModel),
    Inputs,
}

impl DeepView for RunConfig {
    type V = ConfigModel;

    open spec fn deep_view(&self) -> ConfigModel {
        ConfigModel {
            command: self.command@,
            fs_read: self.fs_read.deep_view(),
            fs_write: self.fs_write.deep_view(),
            network: self.network.deep_view(),
            access: self.access.deep_view(),
            audit: self.audit.deep_view(),
            repo_profile: self.repo_profile.deep_view(),
        }
    }
}

impl DeepView for NetworkPolicy {
    type V = NetworkChoice;

    open spec fn deep_view(&self) -> NetworkChoice {
        match self {
            NetworkPolicy::Blocked => NetworkChoice::Blocked,
            NetworkPolicy::AllowDomains(domains) => NetworkChoice::AllowDomains(
                domains.deep_view(),
            ),
            NetworkPolicy::FromRepoProfile => NetworkChoice::FromRepoProfile,
        }
    }
}

impl DeepView for AuditConfig {
    type V = AuditChoice;

    open spec fn deep_view(&self) -> AuditChoice {
        match self {
            AuditConfig::Disabled => AuditChoice::Disabled,
            AuditConfig::Artifact { dir } => AuditChoice::Artifact(dir@),
        }
    }
}

impl DeepView for AccessConfig {
    type V = AccessModel;

    open spec fn deep_view(&self) -> AccessModel {
        AccessModel {
            name: self.name@,
            secret: self.secret@,
            upstream: self.upstream@,
            tls_ca: self.tls_ca.deep_view(),
            inject_mode: self.inject_mode,
            endpoint_rules: self.endpoint_rules.deep_view(),
        }
    }
}

impl DeepView for EndpointRule {
    type V = RuleModel;

    open spec fn deep_view(&self) -> RuleModel {
        RuleModel { method: self.method@, path: self.path@ }
    }
}

impl DeepView for FsInput {
    type V = (Seq<Seq<char>>, Seq<Seq<char>>);

    open spec fn deep_view(&self) -> (Seq<Seq<char>>, Seq<Seq<char>>) {
        (self.read.deep_view(), self.write.deep_view())
    }
}

impl DeepView for NetworkInput {
    type V = (Option<NetworkMode>, Seq<Seq<char>>);

    open spec fn deep_view(&self) -> (Option<NetworkMode>, Seq<Seq<char>>) {
        (self.mode, self.allow.deep_view())
    }
}

impl DeepView for AccessInput {
    type V = GrantModel;

    open spec fn deep_view(&self) -> GrantModel {
        GrantModel {
            secret: self.secret@,
            url: self.url@,
            tls_ca: self.tls_ca.deep_view(),
            inject_mode: self.inject_mode,
            allow: self.allow.deep_view(),
        }
    }
}

impl DeepView for PolicyInput {
    type V = PolicyModel;

    open spec fn deep_view(&self) -> PolicyModel {
        PolicyModel {
            fs: self.fs.deep_view(),
            network: self.network.deep_view(),
            access: match self.access {
                Some(grants) => Some(grants.entries()),
                None => None,
            },
        }
    }
}

/// The names of grants.
pub open spec fn grant_names(grants: Seq<(Seq<char>, GrantModel)>) -> Seq<Seq<char>> {
    grants.map_values(|grant: (Seq<char>, GrantModel)| grant.0)
}

/// The names of credentials.
pub open spec fn access_names(access: Seq<AccessModel>) -> Seq<Seq<char>> {
    access.map_values(|a: AccessModel| a.name)
}

impl PolicyModel {
    /// Whether the names of the grants stand in ascending order, so that none occurs twice.
    pub open spec fn in_order(self) -> bool {
        self.access matches Some(grants) ==> ascending(grant_names(grants))
    }
}

impl PolicyInput {
    /// Whether the grants stand in the order of their names, each name once.
    pub open spec fn wf(self) -> bool {
        self.access matches Some(grants) ==> grants.wf()
    }
}

impl LoadedSource {
    pub open spec fn wf(self) -> bool {
        self matches LoadedSource::Policy(policy) ==> policy.wf()
    }
}

/// The grants of a policy are in order.
pub proof fn lemma_policy_in_order(policy: PolicyInput)
    requires
        policy.wf(),
    ensures
        policy.deep_view().in_order(),
{
    if let Some(grants) = policy.access {
        assert(grant_names(grants.entries()) == grants.keys.deep_view());
    }
}

impl DeepView for PolicySource {
    type V = SourceChoice;

    open spec fn deep_view(&self) -> SourceChoice {
        match self {
            PolicySource::Profile { input, workspace } => SourceChoice::Profile(
                input@,
                workspace@,
            ),
            PolicySource::Policy(yaml) => SourceChoice::Policy(yaml@),
            PolicySource::Inputs => SourceChoice::Inputs,
        }
    }
}

impl DeepView for LoadedSource {
    type V = LoadedModel;

    open spec fn deep_view(&self) -> LoadedModel {
        match self {
            LoadedSource::Profile(profile) => LoadedModel::Profile(profile.deep_view()),
            LoadedSource::Policy(policy) => LoadedModel::Policy(policy.deep_view()),
            LoadedSource::Inputs => LoadedModel::Inputs,
        }
    }
}

impl LoadedModel {
    /// Whether this was found at a policy source of that kind.
    pub open spec fn is_from(self, source: SourceChoice) -> bool {
        match (self, source) {
            (LoadedModel::Profile(_), SourceChoice::Profile(_, _)) => true,
            (LoadedModel::Policy(_), SourceChoice::Policy(_)) => true,
            (LoadedModel::Inputs, SourceChoice::Inputs) => true,
            _ => false,
        }
    }
}

/// The name of a way to inject a secret.
pub open spec fn inject_name(mode: InjectMode) -> Seq<char> {
    match mode {
        InjectMode::Header => "header"@,
        InjectMode::UrlPath => "url_path"@,
        InjectMode::QueryParam => "query_param"@,
        InjectMode::BasicAuth => "basic_auth"@,
    }
}

impl InjectMode {
    /// The name under which the sandbox knows the mode.
    pub fn wire_name(self) -> (r: &'static str)
        ensures
            r@ == inject_name(self),
    {
        match self {
            InjectMode::Header => "header",
            InjectMode::UrlPath => "url_path",
            InjectMode::QueryParam => "query_param",
            InjectMode::BasicAuth => "basic_auth",
        }
    }
}

/// The pieces that hold more than white space, without the white space around them.
pub open spec fn items_of(parts: Seq<Seq<char>>) -> Seq<Seq<char>>
    decreases parts.len(),
{
    if parts.len() == 0 {
        Seq::empty()
    } else {
        let done = items_of(parts.drop_last());
        let item = trimmed(parts.last());
        if item.len() > 0 {
            done.push(item)
        } else {
            done
        }
    }
}

/// The items of a list with commas.
pub open spec fn csv_items(value: Seq<char>) -> Seq<Seq<char>> {
    items_of(pieces(value, Separator::Char(',')))
}

/// The items of a list with commas: trimmed, and without the blank ones.
pub fn split_csv(value: Option<&str>) -> (r: Vec<String>)
    ensures
        r.deep_view() == match value {
            Some(list) => csv_items(list@),
            None => Seq::empty(),
        },
{
    let mut out: Vec<String> = Vec::new();
    match value {
        None => {
            assert(out.deep_view() == Seq::<Seq<char>>::empty());
            out
        },
        Some(list) => {
            let parts = text::split(list, Separator::Char(','));
            let ghost all = parts.deep_view();
            let mut i: usize = 0;
            assert(all.take(0) == Seq::<Seq<char>>::empty());
            assert(out.deep_view() == items_of(all.take(0)));
            while i < parts.len()
                invariant
                    i <= parts@.len(),
                    all == parts.deep_view(),
                    out.deep_view() == items_of(all.take(i as int)),
                decreases parts@.len() - i,
            {
                let ghost done = out.deep_view();
                assert(all.take(i + 1).drop_last() == all.take(i as int));
                assert(all.take(i + 1).last() == parts@[i as int]@);
                let item = text::trim(parts[i].as_str());
                if !item.is_empty() {
                    out.push(item.to_owned());
                    assert(out.deep_view() == done.push(item@));
                }
                i = i + 1;
            }
            assert(all.take(i as int) == all);
            out
        },
    }
}

/// The network that the separate input asks for.
pub open spec fn network_of(value: Option<Seq<char>>) -> NetworkChoice {
    match value {
        None => NetworkChoice::Blocked,
        Some(v) => {
            let raw = trimmed(v);
            if raw.len() == 0 || raw == "blocked"@ {
                NetworkChoice::Blocked
            } else {
                NetworkChoice::AllowDomains(csv_items(raw))
            }
        },
    }
}

/// Reads the network input: blocked unless domains are listed.
pub fn parse_network(value: Option<&str>) -> (r: NetworkPolicy)
    ensures
        r.deep_view() == network_of(value.deep_view()),
{
    match value {
        None => NetworkPolicy::Blocked,
        Some(v) => {
            let raw = text::trim(v);
            if raw.is_empty() || text::same(raw, "blocked") {
                NetworkPolicy::Blocked
            } else {
                NetworkPolicy::AllowDomains(split_csv(Some(raw)))
            }
        },
    }
}

/// Where audit evidence goes when it is asked for but no place is named.
pub open spec fn default_audit_dir() -> Seq<char> {
    "runseal-audit"@
}

/// The audit that is asked for.
pub open spec fn audit_of(value: Option<Seq<char>>, dir: Option<Seq<char>>) -> Result<
    AuditChoice,
    Seq<char>,
> {
    let mode = match value {
        Some(v) => trimmed(v),
        None => Seq::empty(),
    };
    if mode.len() == 0 || mode == "false"@ || mode == "off"@ || mode == "none"@ {
        Ok(AuditChoice::Disabled)
    } else if mode == "true"@ || mode == "artifact"@ {
        match dir {
            Some(d) if trimmed(d).len() > 0 => Ok(AuditChoice::Artifact(d)),
            _ => Ok(AuditChoice::Artifact(default_audit_dir())),
        }
    } else {
        Err(
            "unsupported audit mode '"@ + mode
                + "'; expected one of 'false', 'off', 'none', 'true', 'artifact'"@,
        )
    }
}

/// Reads the audit inputs.
pub fn parse_audit(value: Option<&str>, dir: Option<&str>) -> (r: Result<AuditConfig, Error>)
    ensures
        outcome(r) == audit_of(value.deep_view(), dir.deep_view()),
{
    let mode = match value {
        Some(v) => text::trim(v),
        None => "",
    };
    proof {
        reveal_strlit("");
        assert(""@ == Seq::<char>::empty());
    }
    if mode.is_empty() || text::same(mode, "false") || text::same(mode, "off") || text::same(
        mode,
        "none",
    ) {
        Ok(AuditConfig::Disabled)
    } else if text::same(mode, "true") || text::same(mode, "artifact") {
        match dir {
            Some(d) => {
                if text::trim(d).is_empty() {
                    Ok(AuditConfig::Artifact { dir: "runseal-audit".to_owned() })
                } else {
                    Ok(AuditConfig::Artifact { dir: d.to_owned() })
                }
            },
            None => Ok(AuditConfig::Artifact { dir: "runseal-audit".to_owned() }),
        }
    } else {
        Err(
            Error::about(
                "unsupported audit mode '",
                mode,
                "'; expected one of 'false', 'off', 'none', 'true', 'artifact'",
            ),
        )
    }
}

/// Whether a URL has one of the two schemes that are accepted.
pub open spec fn has_http_scheme(url: Seq<char>) -> bool {
    "http://"@.is_prefix_of(url) || "https://"@.is_prefix_of(url)
}

/// The upstream that the URL of a grant names.
pub open spec fn upstream_of(url: Seq<char>) -> Result<Seq<char>, Seq<char>> {
    if has_http_scheme(url) {
        Ok(without_trailing(url, '/'))
    } else {
        Err("access url '"@ + url + "' must start with 'https://' or 'http://'"@)
    }
}

/// Checks the scheme of a URL and drops the slashes at its end.
pub fn validate_url(url: &str) -> (r: Result<String, Error>)
    ensures
        outcome(r) == upstream_of(url@),
{
    if text::starts_with(url, "http://") || text::starts_with(url, "https://") {
        Ok(text::trim_trailing(url, '/').to_owned())
    } else {
        Err(Error::about("access url '", url, "' must start with 'https://' or 'http://'"))
    }
}

/// The endpoint rule that one line stands for: a method, white space, and a path.
pub open spec fn rule_of(line: Seq<char>) -> Result<RuleModel, Seq<char>> {
    let method = trimmed(before(line, Separator::Whitespace));
    let path = trimmed(after(line, Separator::Whitespace));
    if method.len() == 0 || path.len() == 0 {
        Err("access allow rule '"@ + line + "' must be formatted as 'METHOD /path'"@)
    } else {
        Ok(RuleModel { method, path })
    }
}

/// `rule_of`, as a rule to apply to each line.
pub open spec fn each_rule() -> spec_fn(Seq<char>) -> Result<RuleModel, Seq<char>> {
    |line: Seq<char>| rule_of(line)
}

/// The endpoint rules that a grant allows: it has to allow at least one.
pub open spec fn rules_of(allow: Seq<Seq<char>>) -> Result<Seq<RuleModel>, Seq<char>> {
    if allow.len() == 0 {
        Err(
            "access grants require at least one allow rule; add allow entries for each permitted METHOD /path"@,
        )
    } else {
        try_all(allow, each_rule())
    }
}

/// Reads the endpoint rule on one line.
fn parse_allow_rule(line: &str) -> (r: Result<EndpointRule, Error>)
    ensures
        outcome(r) == rule_of(line@),
{
    let method = text::trim(text::text_before(line, Separator::Whitespace));
    let path = text::trim(text::text_after(line, Separator::Whitespace));
    if method.is_empty() || path.is_empty() {
        return Err(
            Error::about("access allow rule '", line, "' must be formatted as 'METHOD /path'"),
        );
    }
    Ok(EndpointRule { method: method.to_owned(), path: path.to_owned() })
}

/// Reads the endpoint rules that a grant allows.
pub fn parse_allow_rules(allow: &Vec<String>) -> (r: Result<Vec<EndpointRule>, Error>)
    ensures
        outcome(r) == rules_of(allow.deep_view()),
{
    if allow.len() == 0 {
        return Err(
            Error::new(
                "access grants require at least one allow rule; add allow entries for each permitted METHOD /path",
            ),
        );
    }
    let ghost lines = allow.deep_view();
    let mut rules: Vec<EndpointRule> = Vec::new();
    let mut i: usize = 0;
    assert(lines.take(0) == Seq::<Seq<char>>::empty());
    assert(rules.deep_view() == Seq::<RuleModel>::empty());
    while i < allow.len()
        invariant
            i <= allow@.len(),
            allow@.len() > 0,
            lines == allow.deep_view(),
            try_all(lines.take(i as int), each_rule()) == Ok::<Seq<RuleModel>, Seq<char>>(
                rules.deep_view(),
            ),
        decreases allow@.len() - i,
    {
        proof {
            lemma_try_all_next(lines, each_rule(), i as int);
        }
        let ghost done = rules.deep_view();
        match parse_allow_rule(allow[i].as_str()) {
            Err(e) => {
                return Err(e);
            },
            Ok(rule) => {
                let ghost added = rule.deep_view();
                rules.push(rule);
                assert(rules.deep_view() == done.push(added));
            },
        }
        i = i + 1;
    }
    assert(lines.take(i as int) == lines);
    Ok(rules)
}

/// The same rules once more.
pub fn copy_rules(rules: &Vec<EndpointRule>) -> (r: Vec<EndpointRule>)
    ensures
        r.deep_view() == rules.deep_view(),
{
    let mut out: Vec<EndpointRule> = Vec::new();
    let mut i: usize = 0;
    while i < rules.len()
        invariant
            i <= rules@.len(),
            out.deep_view() == rules.deep_view().take(i as int),
        decreases rules@.len() - i,
    {
        let ghost done = out.deep_view();
        let rule = EndpointRule { method: rules[i].method.clone(), path: rules[i].path.clone() };
        let ghost added = rule.deep_view();
        out.push(rule);
        assert(out.deep_view() == done.push(added));
        i = i + 1;
    }
    out
}

/// How the secret of a grant is injected.
pub open spec fn mode_or_default(mode: Option<InjectMode>) -> InjectMode {
    match mode {
        Some(mode) => mode,
        None => InjectMode::Header,
    }
}

/// The credential that a grant asks for.
pub open spec fn access_of(grant: (Seq<char>, GrantModel)) -> Result<AccessModel, Seq<char>> {
    let (name, g) = grant;
    let mode = mode_or_default(g.inject_mode);
    match mode {
        InjectMode::UrlPath | InjectMode::QueryParam => Err(
            "access grant '"@ + name + "' uses inject.mode '"@ + inject_name(mode)
                + "', which is not yet supported by runseal; use 'header' or 'basic_auth'"@,
        ),
        _ => match upstream_of(g.url) {
            Err(e) => Err(e),
            Ok(upstream) => match rules_of(g.allow) {
                Err(e) => Err(e),
                Ok(endpoint_rules) => Ok(
                    AccessModel {
                        name,
                        secret: g.secret,
                        upstream,
                        tls_ca: g.tls_ca,
                        inject_mode: if mode == InjectMode::Header {
                            SupportedInjectMode::Header
                        } else {
                            SupportedInjectMode::BasicAuth
                        },
                        endpoint_rules,
                    },
                ),
            },
        },
    }
}

/// `access_of`, as a rule to apply to each grant.
pub open spec fn each_grant() -> spec_fn((Seq<char>, GrantModel)) -> Result<
    AccessModel,
    Seq<char>,
> {
    |grant: (Seq<char>, GrantModel)| access_of(grant)
}

/// Turns a grant into the credential it asks for.
fn grant_access(name: String, grant: AccessInput) -> (r: Result<AccessConfig, Error>)
    ensures
        outcome(r) == access_of((name@, grant.deep_view())),
{
    let inject_mode = match grant.inject_mode {
        None => SupportedInjectMode::Header,
        Some(InjectMode::Header) => SupportedInjectMode::Header,
        Some(InjectMode::BasicAuth) => SupportedInjectMode::BasicAuth,
        Some(mode) => {
            return Err(
                Error::relating(
                    "access grant '",
                    name.as_str(),
                    "' uses inject.mode '",
                    mode.wire_name(),
                    "', which is not yet supported by runseal; use 'header' or 'basic_auth'",
                ),
            );
        },
    };
    let upstream = match validate_url(grant.url.as_str()) {
        Ok(upstream) => upstream,
        Err(e) => {
            return Err(e);
        },
    };
    let endpoint_rules = match parse_allow_rules(&grant.allow) {
        Ok(rules) => rules,
        Err(e) => {
            return Err(e);
        },
    };
    Ok(
        AccessConfig {
            name,
            secret: grant.secret,
            upstream,
            tls_ca: grant.tls_ca,
            inject_mode,
            endpoint_rules,
        },
    )
}

/// The network that a policy asks for.
pub open spec fn policy_network(network: Option<(Option<NetworkMode>, Seq<Seq<char>>)>) -> Result<
    NetworkChoice,
    Seq<char>,
> {
    match network {
        None => Ok(NetworkChoice::Blocked),
        Some((mode, allow)) => if allow.len() == 0 {
            Ok(NetworkChoice::Blocked)
        } else if mode == Some(NetworkMode::Blocked) {
            Err(
                "network.mode 'blocked' cannot be combined with network.allow; use mode 'filtered' or remove the allow list"@,
            )
        } else {
            Ok(NetworkChoice::AllowDomains(allow))
        },
    }
}

/// The run that a policy asks for.
pub open spec fn policy_config(
    command: Seq<char>,
    policy: PolicyModel,
    audit: Option<Seq<char>>,
    audit_dir: Option<Seq<char>>,
) -> Result<ConfigModel, Seq<char>> {
    match policy_network(policy.network) {
        Err(e) => Err(e),
        Ok(network) => match try_all(
            match policy.access {
                Some(grants) => grants,
                None => Seq::empty(),
            },
            each_grant(),
        ) {
            Err(e) => Err(e),
            Ok(access) => match audit_of(audit, audit_dir) {
                Err(e) => Err(e),
                Ok(audit) => Ok(
                    ConfigModel {
                        command,
                        fs_read: match policy.fs {
                            Some((read, _)) => read,
                            None => Seq::empty(),
                        },
                        fs_write: match policy.fs {
                            Some((_, write)) => write,
                            None => Seq::empty(),
                        },
                        network,
                        access,
                        audit,
                        repo_profile: None,
                    },
                ),
            },
        },
    }
}

/// Turns all grants into the credentials they ask for.
fn grant_all(grants: TextMap<AccessInput>) -> (r: Result<Vec<AccessConfig>, Error>)
    requires
        grants.wf(),
    ensures
        outcome(r) == try_all(grants.entries(), each_grant()),
{
    let ghost all = grants.entries();
    let TextMap { keys: mut names, values: mut rest } = grants;
    let mut access: Vec<AccessConfig> = Vec::new();
    let n: usize = rest.len();
    let mut i: usize = 0;
    assert(all.take(0) == Seq::<(Seq<char>, GrantModel)>::empty());
    assert(access.deep_view() == Seq::<AccessModel>::empty());
    while i < n
        invariant
            i <= n,
            n == all.len(),
            all == grants.entries(),
            names@ == grants.keys@.skip(i as int),
            rest@ == grants.values@.skip(i as int),
            grants.keys@.len() == n,
            grants.values@.len() == n,
            try_all(all.take(i as int), each_grant()) == Ok::<Seq<AccessModel>, Seq<char>>(
                access.deep_view(),
            ),
        decreases n - i,
    {
        proof {
            lemma_try_all_next(all, each_grant(), i as int);
        }
        let ghost done = access.deep_view();
        let name = names.remove(0);
        let grant = rest.remove(0);
        assert((name@, grant.deep_view()) == all[i as int]);
        assert(names@ == grants.keys@.skip(i + 1));
        assert(rest@ == grants.values@.skip(i + 1));
        match grant_access(name, grant) {
            Err(e) => {
                return Err(e);
            },
            Ok(a) => {
                let ghost added = a.deep_view();
                access.push(a);
                assert(access.deep_view() == done.push(added));
            },
        }
        i = i + 1;
    }
    assert(all.take(i as int) == all);
    Ok(access)
}

/// A variable counts only if it holds more than white space.
pub open spec fn env_value_of(raw: Option<Seq<char>>) -> Option<Seq<char>> {
    match raw {
        Some(v) if trimmed(v).len() > 0 => Some(v),
        _ => None,
    }
}

/// The value of a variable, if it holds more than white space.
pub fn env_value(raw: &Option<String>) -> (r: Option<&str>)
    ensures
        r.deep_view() == env_value_of(raw.deep_view()),
{
    match raw {
        Some(v) => if text::trim(v.as_str()).is_empty() {
            None
        } else {
            Some(v.as_str())
        },
        None => None,
    }
}

/// The value of the first of two variables that counts.
pub open spec fn either_value(
    first: Option<Seq<char>>,
    second: Option<Seq<char>>,
) -> Option<Seq<char>> {
    match env_value_of(first) {
        Some(v) => Some(v),
        None => env_value_of(second),
    }
}

fn either<'a>(first: &'a Option<String>, second: &'a Option<String>) -> (r: Option<&'a str>)
    ensures
        r.deep_view() == either_value(first.deep_view(), second.deep_view()),
{
    match env_value(first) {
        Some(v) => Some(v),
        None => env_value(second),
    }
}

impl ActionEnv {
    /// The command that the environment asks for.
    pub open spec fn command(self) -> Option<Seq<char>> {
        either_value(self.run.deep_view(), self.legacy_command.deep_view())
    }

    /// Where the environment says the policy is.
    pub open spec fn source(self) -> Result<SourceChoice, Seq<char>> {
        let profile = env_value_of(self.profile.deep_view());
        let policy = env_value_of(self.policy.deep_view());
        if self.command() is None {
            Err("RUNSEAL_RUN is required"@)
        } else {
            match (profile, policy) {
                (Some(_), Some(_)) => Err(
                    "RUNSEAL_PROFILE and RUNSEAL_POLICY are both set; name exactly one policy source"@,
                ),
                (Some(input), None) => Ok(
                    SourceChoice::Profile(
                        input,
                        match env_value_of(self.workspace.deep_view()) {
                            Some(w) => w,
                            None => "."@,
                        },
                    ),
                ),
                (None, Some(yaml)) => Ok(SourceChoice::Policy(yaml)),
                (None, None) => Ok(SourceChoice::Inputs),
            }
        }
    }

    /// The audit that the environment asks for.
    pub open spec fn audit_choice(self) -> Result<AuditChoice, Seq<char>> {
        audit_of(
            env_value_of(self.audit.deep_view()),
            env_value_of(self.audit_dir.deep_view()),
        )
    }

    /// The run that the environment asks for, once its one policy source has been read.
    pub open spec fn config(self, loaded: LoadedModel) -> Result<ConfigModel, Seq<char>> {
        match self.source() {
            Err(e) => Err(e),
            Ok(source) => if loaded.is_from(source) {
                self.config_from(loaded)
            } else {
                Err("what was loaded does not come from the policy source"@)
            },
        }
    }

    /// The run that the environment asks for, given what was found at its policy source.
    pub open spec fn config_from(self, loaded: LoadedModel) -> Result<ConfigModel, Seq<char>> {
        match self.command() {
            None => Err("RUNSEAL_RUN is required"@),
            Some(command) => match loaded {
                LoadedModel::Policy(policy) => policy_config(
                    command,
                    policy,
                    env_value_of(self.audit.deep_view()),
                    env_value_of(self.audit_dir.deep_view()),
                ),
                LoadedModel::Profile(profile) => match self.audit_choice() {
                    Err(e) => Err(e),
                    Ok(audit) => Ok(
                        ConfigModel {
                            command,
                            fs_read: Seq::empty(),
                            fs_write: Seq::empty(),
                            network: if profile.grants_domains() {
                                NetworkChoice::FromRepoProfile
                            } else {
                                NetworkChoice::Blocked
                            },
                            access: Seq::empty(),
                            audit,
                            repo_profile: Some(profile),
                        },
                    ),
                },
                LoadedModel::Inputs => match self.audit_choice() {
                    Err(e) => Err(e),
                    Ok(audit) => Ok(
                        ConfigModel {
                            command,
                            fs_read: match either_value(
                                self.fs_read.deep_view(),
                                self.legacy_fs_read.deep_view(),
                            ) {
                                Some(list) => csv_items(list),
                                None => Seq::empty(),
                            },
                            fs_write: match either_value(
                                self.fs_write.deep_view(),
                                self.legacy_fs_write.deep_view(),
                            ) {
                                Some(list) => csv_items(list),
                                None => Seq::empty(),
                            },
                            network: network_of(
                                either_value(
                                    self.network.deep_view(),
                                    self.legacy_network.deep_view(),
                                ),
                            ),
                            access: Seq::empty(),
                            audit,
                            repo_profile: None,
                        },
                    ),
                },
            },
        }
    }

    /// Decides where the policy of the run comes from.
    pub fn policy_source(&self) -> (r: Result<PolicySource, Error>)
        ensures
            outcome(r) == self.source(),
    {
        if either(&self.run, &self.legacy_command).is_none() {
            return Err(Error::new("RUNSEAL_RUN is required"));
        }
        match (env_value(&self.profile), env_value(&self.policy)) {
            (Some(_), Some(_)) => Err(
                Error::new(
                    "RUNSEAL_PROFILE and RUNSEAL_POLICY are both set; name exactly one policy source",
                ),
            ),
            (Some(input), None) => {
                let workspace = match env_value(&self.workspace) {
                    Some(w) => w.to_owned(),
                    None => ".".to_owned(),
                };
                Ok(PolicySource::Profile { input: input.to_owned(), workspace })
            },
            (None, Some(yaml)) => Ok(PolicySource::Policy(yaml.to_owned())),
            (None, None) => Ok(PolicySource::Inputs),
        }
    }
}

impl RunConfig {
    /// The run that the environment asks for, once its one policy source has been read. An
    /// environment that names two sources is refused, whatever was loaded.
    pub fn from_action_env(env: &ActionEnv, loaded: LoadedSource) -> (r: Result<Self, Error>)
        requires
            loaded.wf(),
        ensures
            env.source() matches Err(e) ==> outcome(r) == Err::<ConfigModel, Seq<char>>(e),
            outcome(r) == env.config(loaded.deep_view()),
            r matches Ok(config) ==> ascending(access_names(config.deep_view().access)),
    {
        let fits = match (env.policy_source(), &loaded) {
            (Err(e), _) => {
                return Err(e);
            },
            (Ok(PolicySource::Profile { .. }), LoadedSource::Profile(_)) => true,
            (Ok(PolicySource::Policy(_)), LoadedSource::Policy(_)) => true,
            (Ok(PolicySource::Inputs), LoadedSource::Inputs) => true,
            _ => false,
        };
        if !fits {
            return Err(Error::new("what was loaded does not come from the policy source"));
        }
        let command = match either(&env.run, &env.legacy_command) {
            Some(command) => command.to_owned(),
            None => {
                return Err(Error::new("RUNSEAL_RUN is required"));
            },
        };
        let audit = env_value(&env.audit);
        let audit_dir = env_value(&env.audit_dir);
        match loaded {
            LoadedSource::Policy(policy) => Self::from_policy(command, policy, audit, audit_dir),
            LoadedSource::Profile(profile) => match parse_audit(audit, audit_dir) {
                Err(e) => Err(e),
                Ok(audit) => {
                    let network = if profile.allows_domains() {
                        NetworkPolicy::FromRepoProfile
                    } else {
                        NetworkPolicy::Blocked
                    };
                    let config = RunConfig {
                        command,
                        fs_read: Vec::new(),
                        fs_write: Vec::new(),
                        network,
                        access: Vec::new(),
                        audit,
                        repo_profile: Some(profile),
                    };
                    assert(config.fs_read.deep_view() == Seq::<Seq<char>>::empty());
                    assert(config.fs_write.deep_view() == Seq::<Seq<char>>::empty());
                    assert(config.access.deep_view() == Seq::<AccessModel>::empty());
                    Ok(config)
                },
            },
            LoadedSource::Inputs => {
                let fs_read = split_csv(either(&env.fs_read, &env.legacy_fs_read));
                let fs_write = split_csv(either(&env.fs_write, &env.legacy_fs_write));
                let network = parse_network(either(&env.network, &env.legacy_network));
                match parse_audit(audit, audit_dir) {
                    Err(e) => Err(e),
                    Ok(audit) => {
                        let config = RunConfig {
                            command,
                            fs_read,
                            fs_write,
                            network,
                            access: Vec::new(),
                            audit,
                            repo_profile: None,
                        };
                        assert(config.access.deep_view() == Seq::<AccessModel>::empty());
                        Ok(config)
                    },
                }
            },
        }
    }

    /// The run that a policy asks for.
    pub fn from_policy(
        command: String,
        policy: PolicyInput,
        audit: Option<&str>,
        audit_dir: Option<&str>,
    ) -> (r: Result<Self, Error>)
        requires
            policy.wf(),
        ensures
            outcome(r) == policy_config(
                command@,
                policy.deep_view(),
                audit.deep_view(),
                audit_dir.deep_view(),
            ),
            r matches Ok(config) ==> ascending(access_names(config.deep_view().access)),
    {
        proof {
            lemma_policy_in_order(policy);
            lemma_access_in_order(
                command@,
                policy.deep_view(),
                audit.deep_view(),
                audit_dir.deep_view(),
            );
        }
        let ghost model = policy.deep_view();
        let (fs_read, fs_write) = match policy.fs {
            Some(fs) => (fs.read, fs.write),
            None => (Vec::new(), Vec::new()),
        };
        assert(fs_read.deep_view() == match model.fs {
            Some((read, _)) => read,
            None => Seq::empty(),
        });
        assert(fs_write.deep_view() == match model.fs {
            Some((_, write)) => write,
            None => Seq::empty(),
        });
        let network = match policy.network {
            None => NetworkPolicy::Blocked,
            Some(network) => {
                if network.allow.len() == 0 {
                    NetworkPolicy::Blocked
                } else {
                    match network.mode {
                        Some(NetworkMode::Blocked) => {
                            return Err(
                                Error::new(
                                    "network.mode 'blocked' cannot be combined with network.allow; use mode 'filtered' or remove the allow list",
                                ),
                            );
                        },
                        _ => NetworkPolicy::AllowDomains(network.allow),
                    }
                }
            },
        };
        let grants = match policy.access {
            Some(grants) => grants,
            None => TextMap::new(),
        };
        proof {
            if policy.access is None {
                lemma_empty_map(grants);
            }
        }
        assert(grants.entries() == match model.access {
            Some(grants) => grants,
            None => Seq::empty(),
        });
        let access = match grant_all(grants) {
            Ok(access) => access,
            Err(e) => {
                return Err(e);
            },
        };
        match parse_audit(audit, audit_dir) {
            Err(e) => Err(e),
            Ok(audit) => Ok(
                RunConfig { command, fs_read, fs_write, network, access, audit, repo_profile: None },
            ),
        }
    }
}

/// The check that a policy is not too large, told as a result.
pub open spec fn policy_size_check(len: nat) -> Result<(), Seq<char>> {
    if len > MAX_POLICY_YAML_BYTES {
        Err(
            "RUNSEAL_POLICY is too large ("@ + text::decimal(len) + " bytes); maximum is "@
                + text::decimal(MAX_POLICY_YAML_BYTES as nat) + " bytes"@,
        )
    } else {
        Ok(())
    }
}

/// Refuses a policy that is too large to be parsed.
pub fn check_policy_size(policy_yaml: &str) -> (r: Result<(), Error>)
    ensures
        outcome(r) == policy_size_check(policy_yaml.spec_bytes().len()),
{
    let len: usize = policy_yaml.as_bytes().len();
    if len > MAX_POLICY_YAML_BYTES {
        let size = text::to_decimal(len as u64);
        let most = text::to_decimal(MAX_POLICY_YAML_BYTES as u64);
        Err(
            Error::relating(
                "RUNSEAL_POLICY is too large (",
                size.as_str(),
                " bytes); maximum is ",
                most.as_str(),
                " bytes",
            ),
        )
    } else {
        Ok(())
    }
}

/// The failure for a policy that cannot be read, given why.
pub fn invalid_policy(cause: Error) -> (r: Error)
    ensures
        r@ == in_context("RUNSEAL_POLICY is not valid runseal policy YAML"@, cause@),
{
    cause.context("RUNSEAL_POLICY is not valid runseal policy YAML")
}

/// Whether an entry names a network mode, not a host.
pub open spec fn is_mode_name(entry: Seq<char>) -> bool {
    trimmed(entry) == "blocked"@ || trimmed(entry) == "filtered"@
}

/// An entry of a list of hosts, if it can be one.
pub open spec fn domain_of(entry: Seq<char>) -> Result<Seq<char>, Seq<char>> {
    if is_mode_name(entry) {
        Err("'"@ + entry + "' is not a domain; it names a network mode"@)
    } else {
        Ok(entry)
    }
}

/// `domain_of`, as a rule to apply to each entry.
pub open spec fn each_domain() -> spec_fn(Seq<char>) -> Result<Seq<char>, Seq<char>> {
    |entry: Seq<char>| domain_of(entry)
}

/// Refuses a list of hosts that holds the name of a network mode.
pub fn validate_domain_allowlist(domains: Vec<String>) -> (r: Result<Vec<String>, Error>)
    ensures
        outcome(r) == try_all(domains.deep_view(), each_domain()),
        r matches Ok(kept) ==> kept == domains,
{
    let ghost all = domains.deep_view();
    let mut i: usize = 0;
    assert(all.take(0) == Seq::<Seq<char>>::empty());
    while i < domains.len()
        invariant
            i <= domains@.len(),
            all == domains.deep_view(),
            try_all(all.take(i as int), each_domain()) == Ok::<Seq<Seq<char>>, Seq<char>>(
                all.take(i as int),
            ),
        decreases domains@.len() - i,
    {
        proof {
            lemma_try_all_next(all, each_domain(), i as int);
            assert(all.take(i as int).push(all[i as int]) == all.take(i + 1));
        }
        let entry = domains[i].as_str();
        let name = text::trim(entry);
        if text::same(name, "blocked") || text::same(name, "filtered") {
            return Err(
                Error::about("'", entry, "' is not a domain; it names a network mode"),
            );
        }
        i = i + 1;
    }
    assert(all.take(i as int) == all);
    Ok(domains)
}

/// An item of a list with commas is never blank, has no white space around it and holds no comma.
pub proof fn lemma_csv_items(value: Seq<char>)
    ensures
        forall|i: int|
            0 <= i < csv_items(value).len() ==> {
                let item = #[trigger] csv_items(value)[i];
                item.len() > 0 && trimmed(item) == item && !item.contains(',')
            },
{
    text::lemma_pieces_hold_no_separator(value, Separator::Char(','));
    lemma_items_of(pieces(value, Separator::Char(',')));
}

proof fn lemma_items_of(parts: Seq<Seq<char>>)
    requires
        forall|i: int, j: int|
            0 <= i < parts.len() && 0 <= j < parts[i].len() ==> !Separator::Char(',').separates(
                #[trigger] parts[i][j],
            ),
    ensures
        forall|i: int|
            0 <= i < items_of(parts).len() ==> {
                let item = #[trigger] items_of(parts)[i];
                item.len() > 0 && trimmed(item) == item && !item.contains(',')
            },
    decreases parts.len(),
{
    if parts.len() > 0 {
        let rest = parts.drop_last();
        assert forall|i: int, j: int|
            0 <= i < rest.len() && 0 <= j < rest[i].len() implies !Separator::Char(',').separates(
            #[trigger] rest[i][j],
        ) by {
            assert(rest[i] == parts[i]);
            assert(!Separator::Char(',').separates(parts[i][j]));
        }
        lemma_items_of(rest);
        let last = parts.last();
        text::lemma_trimmed(last);
        assert(!last.contains(',')) by {
            if last.contains(',') {
                let j = choose|j: int| 0 <= j < last.len() && last[j] == ',';
                assert(!Separator::Char(',').separates(parts[parts.len() - 1][j]));
            }
        }
        text::lemma_trimmed_within(last, ',');
        assert forall|i: int| 0 <= i < items_of(parts).len() implies {
            let item = #[trigger] items_of(parts)[i];
            item.len() > 0 && trimmed(item) == item && !item.contains(',')
        } by {
            if i < items_of(rest).len() {
                assert(items_of(parts)[i] == items_of(rest)[i]);
            }
        }
    }
}

/// A policy is never turned into a grant that is open-ended: each credential comes with at least
/// one endpoint rule, each rule has a method and a path, and the URL had a scheme of the web.
pub proof fn lemma_grants_are_bounded(
    command: Seq<char>,
    policy: PolicyModel,
    audit: Option<Seq<char>>,
    audit_dir: Option<Seq<char>>,
)
    ensures
        policy_config(command, policy, audit, audit_dir) matches Ok(config) ==> {
            &&& config.access.len() == (match policy.access {
                Some(grants) => grants.len(),
                None => 0,
            })
            &&& forall|i: int|
                0 <= i < config.access.len() ==> {
                    let (name, grant) = policy.access->Some_0[i];
                    let access = #[trigger] config.access[i];
                    &&& access.name == name
                    &&& access.secret == grant.secret
                    &&& has_http_scheme(grant.url)
                    &&& access.upstream == without_trailing(grant.url, '/')
                    &&& access.endpoint_rules.len() == grant.allow.len()
                    &&& access.endpoint_rules.len() > 0
                    &&& forall|j: int|
                        0 <= j < access.endpoint_rules.len() ==> (
                        #[trigger] access.endpoint_rules[j]).method.len() > 0
                            && access.endpoint_rules[j].path.len() > 0
                }
        },
{
    let grants = match policy.access {
        Some(grants) => grants,
        None => Seq::empty(),
    };
    lemma_try_all_results(grants, each_grant());
    if let Ok(config) = policy_config(command, policy, audit, audit_dir) {
        assert forall|i: int| 0 <= i < config.access.len() implies {
            let (name, grant) = policy.access->Some_0[i];
            let access = #[trigger] config.access[i];
            &&& access.name == name
            &&& access.secret == grant.secret
            &&& has_http_scheme(grant.url)
            &&& access.upstream == without_trailing(grant.url, '/')
            &&& access.endpoint_rules.len() == grant.allow.len()
            &&& access.endpoint_rules.len() > 0
            &&& forall|j: int|
                0 <= j < access.endpoint_rules.len() ==> (
                #[trigger] access.endpoint_rules[j]).method.len() > 0
                    && access.endpoint_rules[j].path.len() > 0
        } by {
            let grant = grants[i].1;
            let access = config.access[i];
            assert(each_grant()(grants[i]) == Ok::<AccessModel, Seq<char>>(access));
            assert(access_of(grants[i]) == Ok::<AccessModel, Seq<char>>(access));
            lemma_try_all_results(grant.allow, each_rule());
            assert forall|j: int| 0 <= j < access.endpoint_rules.len() implies (
            #[trigger] access.endpoint_rules[j]).method.len() > 0
                && access.endpoint_rules[j].path.len() > 0 by {
                assert(each_rule()(grant.allow[j]) == Ok::<RuleModel, Seq<char>>(
                    access.endpoint_rules[j],
                ));
                assert(rule_of(grant.allow[j]) is Ok);
            }
        }
    }
}

/// The credentials of a run stand in the order of their names, each name once, as the grants of
/// its policy do.
pub proof fn lemma_access_in_order(
    command: Seq<char>,
    policy: PolicyModel,
    audit: Option<Seq<char>>,
    audit_dir: Option<Seq<char>>,
)
    requires
        policy.in_order(),
    ensures
        policy_config(command, policy, audit, audit_dir) matches Ok(config) ==> ascending(
            access_names(config.access),
        ),
{
    lemma_grants_are_bounded(command, policy, audit, audit_dir);
    if let Ok(config) = policy_config(command, policy, audit, audit_dir) {
        if let Some(grants) = policy.access {
            assert(access_names(config.access) == grant_names(grants)) by {
                assert forall|i: int| 0 <= i < grants.len() implies #[trigger] access_names(
                    config.access,
                )[i] == grant_names(grants)[i] by {
                    assert(config.access[i].name == grants[i].0);
                }
            }
        }
    }
}

/// Under a policy the network is blocked unless hosts are listed, and then those are what it gets;
/// a policy that says both is refused.
pub proof fn lemma_policy_network_fails_closed(
    command: Seq<char>,
    policy: PolicyModel,
    audit: Option<Seq<char>>,
    audit_dir: Option<Seq<char>>,
)
    ensures
        policy_config(command, policy, audit, audit_dir) matches Ok(config) ==> {
            &&& config.network == match policy.network {
                Some((_, allow)) if allow.len() > 0 => NetworkChoice::AllowDomains(allow),
                _ => NetworkChoice::Blocked,
            }
            &&& !(policy.network matches Some((mode, allow)) && mode == Some(NetworkMode::Blocked)
                && allow.len() > 0)
        },
{
}

/// A run takes its policy from one source: with a profile of the repository there is no other, and
/// an environment that names two makes no run, whatever was loaded.
pub proof fn lemma_one_policy_source(env: ActionEnv)
    ensures
        env.source() matches Ok(SourceChoice::Profile(_, _)) ==> env_value_of(
            env.policy.deep_view(),
        ) is None,
        env.source() matches Ok(SourceChoice::Policy(_)) ==> env_value_of(env.profile.deep_view()) is None,
        env_value_of(env.profile.deep_view()) is Some && env_value_of(env.policy.deep_view()) is Some
            ==> env.source() is Err && forall|loaded: LoadedModel|
            (#[trigger] env.config(loaded)) is Err,
{
}

/// Whether a line is a method, white space and a path, with nothing but white space behind them.
pub open spec fn written_as(
    line: Seq<char>,
    method: Seq<char>,
    gap: Seq<char>,
    path: Seq<char>,
    rest: Seq<char>,
) -> bool {
    &&& line == method + gap + path + rest
    &&& method.len() > 0
    &&& forall|i: int| 0 <= i < method.len() ==> !is_space(#[trigger] method[i])
    &&& gap.len() > 0
    &&& all_space(gap)
    &&& path.len() > 0
    &&& !is_space(path.first())
    &&& !is_space(path.last())
    &&& all_space(rest)
}

/// Whether a line says that a method is allowed on a path.
pub open spec fn says(line: Seq<char>, method: Seq<char>, path: Seq<char>) -> bool {
    exists|gap: Seq<char>, rest: Seq<char>| #[trigger] written_as(line, method, gap, path, rest)
}

/// Whether a line says that some method is allowed on some path.
pub open spec fn is_rule(line: Seq<char>) -> bool {
    exists|method: Seq<char>, path: Seq<char>| #[trigger] says(line, method, path)
}

/// A line is accepted as a rule exactly if it says that a method is allowed on a path, and no line
/// says that of another method or path.
pub proof fn lemma_rule_exactly(line: Seq<char>, method: Seq<char>, path: Seq<char>)
    ensures
        says(line, method, path) <==> rule_of(line) == Ok::<RuleModel, Seq<char>>(
            (RuleModel { method, path }),
        ),
{
    if says(line, method, path) {
        let (gap, rest) = choose|gap: Seq<char>, rest: Seq<char>| #[trigger]
            written_as(line, method, gap, path, rest);
        let tail = gap.drop_first() + path + rest;
        assert(line == method + seq![gap[0]] + tail);
        lemma_cut_exactly(method, gap[0], tail, Separator::Whitespace);
        let none = Seq::<char>::empty();
        lemma_trimmed_exactly(none, method, none);
        assert(none + method + none == method);
        assert(all_space(gap.drop_first())) by {
            assert forall|i: int| 0 <= i < gap.drop_first().len() implies is_space(
                #[trigger] gap.drop_first()[i],
            ) by {
                assert(gap.drop_first()[i] == gap[i + 1]);
            }
        }
        lemma_trimmed_exactly(gap.drop_first(), path, rest);
    }
    if rule_of(line) == Ok::<RuleModel, Seq<char>>((RuleModel { method, path })) {
        let sep = Separator::Whitespace;
        lemma_position(line, sep);
        let at = position(line, sep);
        let head = before(line, sep);
        let tail = after(line, sep);
        let none = Seq::<char>::empty();
        assert forall|i: int| 0 <= i < head.len() implies !is_space(#[trigger] head[i]) by {
            assert(!sep.separates(line[i]));
        }
        lemma_trimmed_exactly(none, head, none);
        assert(none + head + none == head);
        assert(method == head);
        if at == line.len() {
            lemma_trimmed_exactly(none, none, none);
            assert(none + none + none == none);
        }
        let (left, right) = lemma_trimmed_parts(tail);
        let gap = seq![line[at]] + left;
        lemma_trimmed(tail);
        assert forall|i: int| 0 <= i < gap.len() implies is_space(#[trigger] gap[i]) by {
            if i > 0 {
                assert(gap[i] == left[i - 1]);
            }
        }
        assert(line == head + seq![line[at]] + tail);
        assert(line == method + gap + path + right);
        assert(written_as(line, method, gap, path, right));
    }
}

/// Whether a grant can be turned into a credential: its mode is supported, its URL is one of the
/// web, and it allows at least one request, each written as a rule.
pub open spec fn is_usable(grant: GrantModel) -> bool {
    &&& grant.inject_mode != Some(InjectMode::UrlPath)
    &&& grant.inject_mode != Some(InjectMode::QueryParam)
    &&& "http://"@.is_prefix_of(grant.url) || "https://"@.is_prefix_of(grant.url)
    &&& grant.allow.len() > 0
    &&& forall|j: int|
        0 <= j < grant.allow.len() ==> is_rule(#[trigger] grant.allow[j])
}

/// Whether a credential is just what a grant asks for: under its name and for its secret, injected
/// in the way it states or else in a header, for the URL without slashes at the end, and for the
/// requests that it allows, in their order.
pub open spec fn is_granted(access: AccessModel, name: Seq<char>, grant: GrantModel) -> bool {
    &&& access.name == name
    &&& access.secret == grant.secret
    &&& access.tls_ca == grant.tls_ca
    &&& (access.inject_mode == SupportedInjectMode::Header) == (grant.inject_mode is None
        || grant.inject_mode == Some(InjectMode::Header))
    &&& (access.inject_mode == SupportedInjectMode::BasicAuth) == (grant.inject_mode == Some(
        InjectMode::BasicAuth,
    ))
    &&& access.upstream.is_prefix_of(grant.url)
    &&& access.upstream.len() > 0 ==> access.upstream.last() != '/'
    &&& forall|k: int| access.upstream.len() <= k < grant.url.len() ==> #[trigger] grant.url[k]
        == '/'
    &&& access.endpoint_rules.len() == grant.allow.len()
    &&& forall|j: int|
        0 <= j < grant.allow.len() ==> says(
            #[trigger] grant.allow[j],
            access.endpoint_rules[j].method,
            access.endpoint_rules[j].path,
        )
}

/// A grant is turned into the credential that it asks for, unless it cannot be.
pub proof fn lemma_grant_exactly(name: Seq<char>, grant: GrantModel)
    ensures
        access_of((name, grant)) is Ok <==> is_usable(grant),
        access_of((name, grant)) matches Ok(access) ==> is_granted(access, name, grant),
{
    lemma_without_trailing(grant.url, '/');
    lemma_try_all_exactly(grant.allow, each_rule());
    lemma_try_all_results(grant.allow, each_rule());
    assert forall|j: int| 0 <= j < grant.allow.len() implies (each_rule()(
        #[trigger] grant.allow[j],
    ) is Ok <==> is_rule(grant.allow[j])) by {
        let line = grant.allow[j];
        assert(each_rule()(line) == rule_of(line));
        if let Ok(rule) = rule_of(line) {
            lemma_rule_exactly(line, rule.method, rule.path);
            assert(says(line, rule.method, rule.path));
        }
        if is_rule(line) {
            let (method, path) = choose|method: Seq<char>, path: Seq<char>| #[trigger]
                says(line, method, path);
            lemma_rule_exactly(line, method, path);
        }
    }
    if let Ok(access) = access_of((name, grant)) {
        assert forall|j: int| 0 <= j < grant.allow.len() implies says(
            #[trigger] grant.allow[j],
            access.endpoint_rules[j].method,
            access.endpoint_rules[j].path,
        ) by {
            let rule = access.endpoint_rules[j];
            assert(each_rule()(grant.allow[j]) == Ok::<RuleModel, Seq<char>>(rule));
            lemma_rule_exactly(grant.allow[j], rule.method, rule.path);
        }
    }
}

/// A policy is accepted exactly if its network part says no two things, every grant can be turned
/// into a credential, and the audit mode is known. The run then has the command, the paths and the
/// hosts of the policy, and for each grant the credential that it asks for, in the same order.
pub proof fn lemma_policy_exactly(
    command: Seq<char>,
    policy: PolicyModel,
    audit: Option<Seq<char>>,
    audit_dir: Option<Seq<char>>,
)
    ensures
        policy_config(command, policy, audit, audit_dir) is Ok <==> {
            &&& policy.network matches Some((mode, allow)) ==> !(mode == Some(NetworkMode::Blocked)
                && allow.len() > 0)
            &&& policy.access matches Some(grants) ==> forall|i: int|
                0 <= i < grants.len() ==> is_usable((#[trigger] grants[i]).1)
            &&& audit_of(audit, audit_dir) is Ok
        },
        policy_config(command, policy, audit, audit_dir) matches Ok(config) ==> {
            &&& config.command == command
            &&& policy.fs matches Some((read, write)) ==> config.fs_read == read && config.fs_write
                == write
            &&& policy.fs is None ==> config.fs_read.len() == 0 && config.fs_write.len() == 0
            &&& config.access.len() == (match policy.access {
                Some(grants) => grants.len(),
                None => 0,
            })
            &&& forall|i: int|
                0 <= i < config.access.len() ==> is_granted(
                    #[trigger] config.access[i],
                    policy.access->Some_0[i].0,
                    policy.access->Some_0[i].1,
                )
            &&& audit_of(audit, audit_dir) == Ok::<AuditChoice, Seq<char>>(config.audit)
            &&& config.repo_profile is None
        },
{
    let grants = match policy.access {
        Some(grants) => grants,
        None => Seq::empty(),
    };
    lemma_try_all_exactly(grants, each_grant());
    lemma_try_all_results(grants, each_grant());
    assert forall|i: int| 0 <= i < grants.len() implies (each_grant()(#[trigger] grants[i]) is Ok
        <==> is_usable(grants[i].1)) by {
        assert(grants[i] == (grants[i].0, grants[i].1));
        lemma_grant_exactly(grants[i].0, grants[i].1);
    }
    if let Ok(config) = policy_config(command, policy, audit, audit_dir) {
        assert forall|i: int| 0 <= i < config.access.len() implies is_granted(
            #[trigger] config.access[i],
            policy.access->Some_0[i].0,
            policy.access->Some_0[i].1,
        ) by {
            assert(grants[i] == (grants[i].0, grants[i].1));
            assert(each_grant()(grants[i]) == Ok::<AccessModel, Seq<char>>(config.access[i]));
            lemma_grant_exactly(grants[i].0, grants[i].1);
        }
    }
}

/// The audit modes: off where nothing or one of three words is said, on for two other words, and
/// no other word is known. Evidence goes where a place is named, or else to the default.
pub proof fn lemma_audit_exactly(value: Option<Seq<char>>, dir: Option<Seq<char>>, word: Seq<char>)
    requires
        word == (match value {
            Some(v) => trimmed(v),
            None => Seq::<char>::empty(),
        }),
    ensures
        audit_of(value, dir) == Ok::<AuditChoice, Seq<char>>(AuditChoice::Disabled) <==> word.len()
            == 0 || word == "false"@ || word == "off"@ || word == "none"@,
        audit_of(value, dir) matches Ok(AuditChoice::Artifact(place)) ==> {
            &&& word == "true"@ || word == "artifact"@
            &&& is_set(dir) ==> dir == Some(place)
            &&& !is_set(dir) ==> place == "runseal-audit"@
        },
        word == "true"@ || word == "artifact"@ ==> audit_of(value, dir) is Ok,
        audit_of(value, dir) is Err ==> word != "true"@ && word != "artifact"@,
{
    reveal_strlit("false");
    reveal_strlit("off");
    reveal_strlit("none");
    reveal_strlit("true");
    reveal_strlit("artifact");
    assert("false"@.len() == 5 && "off"@.len() == 3 && "none"@.len() == 4);
    assert("true"@.len() == 4 && "artifact"@.len() == 8);
    assert("none"@[0] == 'n' && "true"@[0] == 't');
}

/// Whether a variable holds more than white space.
pub open spec fn is_set(value: Option<Seq<char>>) -> bool {
    value matches Some(v) && trimmed(v).len() > 0
}

/// Whether a value is that of a variable, or of its older name where the variable is not set, or
/// none where neither is.
pub open spec fn is_told(
    value: Option<Seq<char>>,
    variable: Option<Seq<char>>,
    older: Option<Seq<char>>,
) -> bool {
    &&& is_set(variable) ==> value == variable
    &&& !is_set(variable) && is_set(older) ==> value == older
    &&& !is_set(variable) && !is_set(older) ==> value is None
}

/// A variable counts if it is set, with its whole value, and before its older name.
pub proof fn lemma_variables_exactly(variable: Option<Seq<char>>, older: Option<Seq<char>>)
    ensures
        is_told(either_value(variable, older), variable, older),
        is_told(env_value_of(variable), variable, None),
{
}

/// A list is cut at its commas; of each part the white space around it is dropped, and a part that
/// holds nothing else is left out.
pub proof fn lemma_csv_exactly(a: Seq<char>, b: Seq<char>)
    ensures
        csv_items(a + seq![','] + b) == csv_items(a) + csv_items(b),
        !a.contains(',') ==> csv_items(a) == if trimmed(a).len() > 0 {
            seq![trimmed(a)]
        } else {
            Seq::empty()
        },
{
    let sep = Separator::Char(',');
    lemma_pieces_exactly(a, ',', b, sep);
    lemma_items_of_both(pieces(a, sep), pieces(b, sep));
    if !a.contains(',') {
        assert(uncut(a, sep));
        let none = Seq::<Seq<char>>::empty();
        assert(seq![a].drop_last() == none);
        assert(items_of(none) == none);
        assert(items_of(seq![a]) == if trimmed(a).len() > 0 {
            seq![trimmed(a)]
        } else {
            none
        });
    }
}

proof fn lemma_items_of_both(a: Seq<Seq<char>>, b: Seq<Seq<char>>)
    ensures
        items_of(a + b) == items_of(a) + items_of(b),
    decreases b.len(),
{
    if b.len() == 0 {
        assert(a + b == a);
        assert(items_of(a) + items_of(b) == items_of(a));
    } else {
        let less = b.drop_last();
        lemma_items_of_both(a, less);
        assert((a + b).drop_last() == a + less);
        assert((a + b).last() == b.last());
        assert(items_of(a + b) == items_of(a) + items_of(b));
    }
}

/// The network input: blocked where nothing is said or just that, and otherwise what is listed.
pub proof fn lemma_network_input_exactly(value: Option<Seq<char>>)
    ensures
        !is_set(value) ==> network_of(value) == NetworkChoice::Blocked,
        value matches Some(v) ==> {
            &&& trimmed(v) == "blocked"@ ==> network_of(value) == NetworkChoice::Blocked
            &&& is_set(value) && trimmed(v) != "blocked"@ ==> network_of(value)
                == NetworkChoice::AllowDomains(csv_items(trimmed(v)))
        },
{
}

/// Where the policy comes from: the one source that is set, or the separate inputs where none is. A
/// command has to be set, and two sources are refused.
pub proof fn lemma_source_exactly(env: ActionEnv)
    ensures
        env.source() is Ok <==> (is_set(env.run.deep_view()) || is_set(
            env.legacy_command.deep_view(),
        )) && !(is_set(env.profile.deep_view()) && is_set(env.policy.deep_view())),
        env.source() matches Ok(SourceChoice::Profile(input, workspace)) ==> {
            &&& is_set(env.profile.deep_view()) && env.profile.deep_view() == Some(input)
            &&& is_set(env.workspace.deep_view()) ==> env.workspace.deep_view() == Some(workspace)
            &&& !is_set(env.workspace.deep_view()) ==> workspace == "."@
        },
        env.source() matches Ok(SourceChoice::Policy(yaml)) ==> is_set(env.policy.deep_view())
            && env.policy.deep_view() == Some(yaml),
        env.source() matches Ok(SourceChoice::Inputs) ==> !is_set(env.profile.deep_view())
            && !is_set(env.policy.deep_view()),
{
}

/// Without a policy and a profile, a run has the command, the paths, the hosts and the audit of the
/// separate inputs, and no credentials.
pub proof fn lemma_inputs_exactly(env: ActionEnv)
    ensures
        env.config(LoadedModel::Inputs) is Ok <==> {
            &&& env.source() == Ok::<SourceChoice, Seq<char>>(SourceChoice::Inputs)
            &&& env.audit_choice() is Ok
        },
        env.config(LoadedModel::Inputs) matches Ok(config) ==> {
            &&& is_told(
                Some(config.command),
                env.run.deep_view(),
                env.legacy_command.deep_view(),
            )
            &&& exists|list: Option<Seq<char>>| #[trigger]
                is_told(list, env.fs_read.deep_view(), env.legacy_fs_read.deep_view())
                    && config.fs_read == (match list {
                    Some(list) => csv_items(list),
                    None => Seq::<Seq<char>>::empty(),
                })
            &&& exists|list: Option<Seq<char>>| #[trigger]
                is_told(list, env.fs_write.deep_view(), env.legacy_fs_write.deep_view())
                    && config.fs_write == (match list {
                    Some(list) => csv_items(list),
                    None => Seq::<Seq<char>>::empty(),
                })
            &&& exists|list: Option<Seq<char>>| #[trigger]
                is_told(list, env.network.deep_view(), env.legacy_network.deep_view())
                    && config.network == network_of(list)
            &&& env.audit_choice() == Ok::<AuditChoice, Seq<char>>(config.audit)
            &&& config.access.len() == 0
            &&& config.repo_profile is None
        },
{
    if let Ok(config) = env.config(LoadedModel::Inputs) {
        let reads = either_value(env.fs_read.deep_view(), env.legacy_fs_read.deep_view());
        let writes = either_value(env.fs_write.deep_view(), env.legacy_fs_write.deep_view());
        let hosts = either_value(env.network.deep_view(), env.legacy_network.deep_view());
        assert(is_told(reads, env.fs_read.deep_view(), env.legacy_fs_read.deep_view()));
        assert(is_told(writes, env.fs_write.deep_view(), env.legacy_fs_write.deep_view()));
        assert(is_told(hosts, env.network.deep_view(), env.legacy_network.deep_view()));
    }
}

/// The audit of a run is asked for by two variables, each of which counts if it is set.
pub proof fn lemma_audit_inputs_exactly(env: ActionEnv)
    ensures
        exists|mode: Option<Seq<char>>, dir: Option<Seq<char>>|
            #![trigger audit_of(mode, dir)]
            is_told(mode, env.audit.deep_view(), None) && is_told(
                dir,
                env.audit_dir.deep_view(),
                None,
            ) && env.audit_choice() == audit_of(mode, dir),
{
    let mode = env_value_of(env.audit.deep_view());
    let dir = env_value_of(env.audit_dir.deep_view());
    assert(is_told(mode, env.audit.deep_view(), None));
    assert(is_told(dir, env.audit_dir.deep_view(), None));
    assert(env.audit_choice() == audit_of(mode, dir));
}

/// With a profile of the repository a run has its command and its audit from the environment, and
/// all else from that profile: no paths and no credentials of its own, and a blocked network unless
/// the profile grants hosts.
pub proof fn lemma_profile_run_exactly(env: ActionEnv, repo: RepoModel)
    ensures
        env.config(LoadedModel::Profile(repo)) is Ok <==> {
            &&& env.source() matches Ok(SourceChoice::Profile(_, _))
            &&& env.audit_choice() is Ok
        },
        env.config(LoadedModel::Profile(repo)) matches Ok(config) ==> {
            &&& is_told(
                Some(config.command),
                env.run.deep_view(),
                env.legacy_command.deep_view(),
            )
            &&& config.fs_read.len() == 0
            &&& config.fs_write.len() == 0
            &&& config.access.len() == 0
            &&& (config.network == NetworkChoice::FromRepoProfile) == (
            repo.profile.network matches Some(network) && network.allow_domain.len() > 0)
            &&& (config.network == NetworkChoice::Blocked) == !(
            repo.profile.network matches Some(network) && network.allow_domain.len() > 0)
            &&& config.repo_profile == Some(repo)
            &&& env.audit_choice() == Ok::<AuditChoice, Seq<char>>(config.audit)
        },
{
}

/// With a policy a run is what the policy asks for, with the command and the audit that the
/// environment asks for.
pub proof fn lemma_policy_run_exactly(env: ActionEnv, policy: PolicyModel)
    ensures
        env.config(LoadedModel::Policy(policy)) is Ok ==> (
        env.source() matches Ok(SourceChoice::Policy(_))),
        env.source() matches Ok(SourceChoice::Policy(_)) ==> exists|
            command: Seq<char>,
            mode: Option<Seq<char>>,
            dir: Option<Seq<char>>,
        |
            #![trigger policy_config(command, policy, mode, dir)]
            is_told(Some(command), env.run.deep_view(), env.legacy_command.deep_view()) && is_told(
                mode,
                env.audit.deep_view(),
                None,
            ) && is_told(dir, env.audit_dir.deep_view(), None) && env.config(
                LoadedModel::Policy(policy),
            ) == policy_config(command, policy, mode, dir),
{
    if env.source() is Ok {
        let command = env.command()->Some_0;
        let mode = env_value_of(env.audit.deep_view());
        let dir = env_value_of(env.audit_dir.deep_view());
        assert(is_told(Some(command), env.run.deep_view(), env.legacy_command.deep_view()));
        assert(is_told(mode, env.audit.deep_view(), None));
        assert(is_told(dir, env.audit_dir.deep_view(), None));
        if env.source() matches Ok(SourceChoice::Policy(_)) {
            assert(env.config(LoadedModel::Policy(policy)) == policy_config(
                command,
                policy,
                mode,
                dir,
            ));
        }
    }
}

/// What was loaded makes a run only if it comes from the source that the environment names.
pub proof fn lemma_loaded_fits_source(env: ActionEnv, loaded: LoadedModel)
    ensures
        env.config(loaded) is Ok ==> match env.source() {
            Ok(SourceChoice::Profile(_, _)) => loaded is Profile,
            Ok(SourceChoice::Policy(_)) => loaded is Policy,
            Ok(SourceChoice::Inputs) => loaded is Inputs,
            Err(_) => false,
        },
{
}

/// A policy of more than 64 KiB is refused, and no other for its size.
pub proof fn lemma_policy_size_exactly(len: nat)
    ensures
        policy_size_check(len) is Err <==> len > 64 * 1024,
        policy_size_check(len) matches Err(told) ==> told == "RUNSEAL_POLICY is too large ("@
            + text::decimal(len) + " bytes); maximum is "@ + text::decimal(65536) + " bytes"@,
{
}

/// A list of hosts is kept as it is, unless an entry is the name of a network mode.
pub proof fn lemma_domains_exactly(domains: Seq<Seq<char>>)
    ensures
        try_all(domains, each_domain()) is Ok <==> forall|i: int|
            0 <= i < domains.len() ==> trimmed(#[trigger] domains[i]) != "blocked"@ && trimmed(
                domains[i],
            ) != "filtered"@,
        try_all(domains, each_domain()) matches Ok(kept) ==> kept == domains,
{
    lemma_try_all_exactly(domains, each_domain());
    lemma_try_all_results(domains, each_domain());
    assert forall|i: int| 0 <= i < domains.len() implies (each_domain()(#[trigger] domains[i]) is Ok
        <==> trimmed(domains[i]) != "blocked"@ && trimmed(domains[i]) != "filtered"@) by {
        assert(each_domain()(domains[i]) == domain_of(domains[i]));
    }
    if let Ok(kept) = try_all(domains, each_domain()) {
        assert forall|i: int| 0 <= i < domains.len() implies kept[i] == domains[i] by {
            assert(each_domain()(domains[i]) == domain_of(domains[i]));
        }
        assert(kept == domains);
    }
}

/// A model holds what the value holds, each part under its own name.
pub proof fn lemma_models_are_faithful(
    run: RunConfig,
    access: AccessConfig,
    rule: EndpointRule,
    grant: AccessInput,
    fs: FsInput,
    network: NetworkInput,
)
    ensures
        run.deep_view().command == run.command@,
        run.deep_view().fs_read == run.fs_read.deep_view(),
        run.deep_view().fs_write == run.fs_write.deep_view(),
        run.deep_view().access == run.access.deep_view(),
        run.deep_view().repo_profile is Some == run.repo_profile is Some,
        run.deep_view().network is Blocked == run.network is Blocked,
        run.network matches NetworkPolicy::AllowDomains(domains) ==> run.deep_view().network
            == NetworkChoice::AllowDomains(domains.deep_view()),
        run.deep_view().audit is Disabled == run.audit is Disabled,
        run.audit matches AuditConfig::Artifact { dir } ==> run.deep_view().audit
            == AuditChoice::Artifact(dir@),
        access.deep_view().name == access.name@,
        access.deep_view().secret == access.secret@,
        access.deep_view().upstream == access.upstream@,
        access.deep_view().tls_ca == access.tls_ca.deep_view(),
        access.deep_view().inject_mode == access.inject_mode,
        access.deep_view().endpoint_rules == access.endpoint_rules.deep_view(),
        rule.deep_view().method == rule.method@,
        rule.deep_view().path == rule.path@,
        grant.deep_view().secret == grant.secret@,
        grant.deep_view().url == grant.url@,
        grant.deep_view().tls_ca == grant.tls_ca.deep_view(),
        grant.deep_view().inject_mode == grant.inject_mode,
        grant.deep_view().allow == grant.allow.deep_view(),
        fs.deep_view() == (fs.read.deep_view(), fs.write.deep_view()),
        network.deep_view() == (network.mode, network.allow.deep_view()),
{
}

/// What is told when a grant is refused: first a mode that is not supported, then the URL, then what
/// is wrong with the rules.
pub proof fn lemma_grant_refusals(name: Seq<char>, grant: GrantModel)
    ensures
        access_of((name, grant)) matches Err(told) ==> {
            let web = "http://"@.is_prefix_of(grant.url) || "https://"@.is_prefix_of(grant.url);
            &&& grant.inject_mode == Some(InjectMode::UrlPath) ==> told == "access grant '"@ + name
                + "' uses inject.mode '"@ + "url_path"@
                + "', which is not yet supported by runseal; use 'header' or 'basic_auth'"@
            &&& grant.inject_mode == Some(InjectMode::QueryParam) ==> told == "access grant '"@
                + name + "' uses inject.mode '"@ + "query_param"@
                + "', which is not yet supported by runseal; use 'header' or 'basic_auth'"@
            &&& grant.inject_mode != Some(InjectMode::UrlPath) && grant.inject_mode != Some(
                InjectMode::QueryParam,
            ) ==> {
                &&& !web ==> told == "access url '"@ + grant.url
                    + "' must start with 'https://' or 'http://'"@
                &&& web && grant.allow.len() == 0 ==> told
                    == "access grants require at least one allow rule; add allow entries for each permitted METHOD /path"@
                &&& web && grant.allow.len() > 0 ==> exists|j: int|
                    0 <= j < grant.allow.len() && !is_rule(#[trigger] grant.allow[j]) && told
                        == "access allow rule '"@ + grant.allow[j]
                        + "' must be formatted as 'METHOD /path'"@
            }
        },
{
    lemma_try_all_exactly(grant.allow, each_rule());
    if try_all(grant.allow, each_rule()) is Err {
        let told = try_all(grant.allow, each_rule())->Err_0;
        let j = choose|j: int|
            0 <= j < grant.allow.len() && each_rule()(#[trigger] grant.allow[j]) == Err::<
                RuleModel,
                Seq<char>,
            >(told) && forall|k: int|
                0 <= k < j ==> each_rule()(#[trigger] grant.allow[k]) is Ok;
        let line = grant.allow[j];
        assert(each_rule()(line) == rule_of(line));
        assert(!is_rule(line)) by {
            if is_rule(line) {
                let (method, path) = choose|method: Seq<char>, path: Seq<char>| #[trigger]
                    says(line, method, path);
                lemma_rule_exactly(line, method, path);
            }
        }
    }
}

/// What is told when a policy is refused: a contradiction about the network comes first, then the
/// first grant that is refused, then the audit mode.
pub proof fn lemma_policy_refusals(
    command: Seq<char>,
    policy: PolicyModel,
    audit: Option<Seq<char>>,
    audit_dir: Option<Seq<char>>,
)
    ensures
        policy_config(command, policy, audit, audit_dir) matches Err(told) ==> {
            let contradicts = policy.network matches Some((mode, allow)) && mode == Some(
                NetworkMode::Blocked,
            ) && allow.len() > 0;
            let refused = policy.access matches Some(grants) && exists|i: int|
                0 <= i < grants.len() && access_of(#[trigger] grants[i]) is Err;
            &&& contradicts ==> told
                == "network.mode 'blocked' cannot be combined with network.allow; use mode 'filtered' or remove the allow list"@
            &&& !contradicts && refused ==> exists|i: int|
                0 <= i < policy.access->Some_0.len() && access_of(
                    #[trigger] policy.access->Some_0[i],
                ) == Err::<AccessModel, Seq<char>>(told) && forall|j: int|
                    0 <= j < i ==> access_of(#[trigger] policy.access->Some_0[j]) is Ok
            &&& !contradicts && !refused ==> audit_of(audit, audit_dir) == Err::<
                AuditChoice,
                Seq<char>,
            >(told)
        },
{
    let grants = match policy.access {
        Some(grants) => grants,
        None => Seq::empty(),
    };
    lemma_try_all_exactly(grants, each_grant());
    assert forall|i: int| 0 <= i < grants.len() implies each_grant()(#[trigger] grants[i])
        == access_of(grants[i]) by {}
    if try_all(grants, each_grant()) is Err {
        let told = try_all(grants, each_grant())->Err_0;
        let i = choose|i: int|
            0 <= i < grants.len() && each_grant()(#[trigger] grants[i]) == Err::<
                AccessModel,
                Seq<char>,
            >(told) && forall|j: int| 0 <= j < i ==> each_grant()(#[trigger] grants[j]) is Ok;
        assert(access_of(grants[i]) == Err::<AccessModel, Seq<char>>(told));
        assert forall|j: int| 0 <= j < i implies access_of(#[trigger] grants[j]) is Ok by {
            assert(each_grant()(grants[j]) is Ok);
        }
    } else {
        assert forall|i: int| 0 <= i < grants.len() implies access_of(#[trigger] grants[i]) is Ok by {
            assert(each_grant()(grants[i]) is Ok);
        }
    }
}

/// What is told when the inputs are refused: that there is no command, that there are two sources,
/// or a word that is no audit mode.
pub proof fn lemma_input_refusals(env: ActionEnv, value: Option<Seq<char>>, dir: Option<Seq<char>>)
    ensures
        env.source() matches Err(told) ==> if is_set(env.run.deep_view()) || is_set(
            env.legacy_command.deep_view(),
        ) {
            told
                == "RUNSEAL_PROFILE and RUNSEAL_POLICY are both set; name exactly one policy source"@
        } else {
            told == "RUNSEAL_RUN is required"@
        },
        audit_of(value, dir) matches Err(told) ==> value is Some && told
            == "unsupported audit mode '"@ + trimmed(value->Some_0)
            + "'; expected one of 'false', 'off', 'none', 'true', 'artifact'"@,
{
}

/// What is told of a list of hosts: the first entry that is the name of a network mode, as it was
/// written.
pub proof fn lemma_domain_refusals(domains: Seq<Seq<char>>)
    ensures
        try_all(domains, each_domain()) matches Err(told) ==> exists|i: int|
            0 <= i < domains.len() && told == "'"@ + (#[trigger] domains[i])
                + "' is not a domain; it names a network mode"@ && (trimmed(domains[i])
                == "blocked"@ || trimmed(domains[i]) == "filtered"@),
{
    lemma_try_all_exactly(domains, each_domain());
    if try_all(domains, each_domain()) is Err {
        let told = try_all(domains, each_domain())->Err_0;
        let i = choose|i: int|
            0 <= i < domains.len() && each_domain()(#[trigger] domains[i]) == Err::<
                Seq<char>,
                Seq<char>,
            >(told) && forall|j: int| 0 <= j < i ==> each_domain()(#[trigger] domains[j]) is Ok;
        assert(each_domain()(domains[i]) == domain_of(domains[i]));
    }
}

/// A model of a source, or of what was found there, is of the same kind and holds the same.
pub proof fn lemma_sources_are_faithful(
    source: PolicySource,
    loaded: LoadedSource,
    policy: PolicyInput,
)
    ensures
        source matches PolicySource::Profile { input, workspace } ==> source.deep_view()
            == SourceChoice::Profile(input@, workspace@),
        source matches PolicySource::Policy(yaml) ==> source.deep_view() == SourceChoice::Policy(
            yaml@,
        ),
        source is Inputs ==> source.deep_view() is Inputs,
        loaded matches LoadedSource::Profile(repo) ==> loaded.deep_view() == LoadedModel::Profile(
            repo.deep_view(),
        ),
        loaded matches LoadedSource::Policy(policy) ==> loaded.deep_view() == LoadedModel::Policy(
            policy.deep_view(),
        ),
        loaded is Inputs ==> loaded.deep_view() is Inputs,
        policy.deep_view().fs == policy.fs.deep_view(),
        policy.deep_view().network == policy.network.deep_view(),
        policy.access is None ==> policy.deep_view().access is None,
        policy.access matches Some(grants) ==> policy.deep_view().access is Some
            && policy.deep_view().access->Some_0.len() == grants.keys@.len() && forall|i: int|
            0 <= i < grants.keys@.len() ==> #[trigger] policy.deep_view().access->Some_0[i] == (
                grants.keys@[i]@,
                grants.values@[i].deep_view(),
            ),
{
}

} // verus!
