use runseal::config::{AuditConfig, NetworkPolicy, RunConfig, SupportedInjectMode};
use runseal::error::Error;
use runseal::ordered::TextMap;
use runseal::profile::{
    build_profile, excluded_groups, profile_path, upstream_host, NonoProfile, TargetOs, VERSION,
};
use runseal::repo_profile::{parse, sibling_path, RepoProfile};
use runseal::secrets::{validate_access_grant_name, SealedCredential, SealedCredentials};

const DIR: &str = "/state/runseal/runseal-creds.x1";

fn config(network: NetworkPolicy) -> RunConfig {
    RunConfig {
        command: "true".to_string(),
        fs_read: vec![".".to_string()],
        fs_write: Vec::new(),
        network,
        access: Vec::new(),
        audit: AuditConfig::Disabled,
        repo_profile: None,
    }
}

fn sealed(access: Vec<SealedCredential>) -> SealedCredentials {
    SealedCredentials {
        dir: DIR.as_bytes().to_vec(),
        access,
        sanitized_env: TextMap::new(),
    }
}

fn cratesio() -> SealedCredential {
    SealedCredential {
        name: "cratesio".to_string(),
        secret_env: "CARGO_REGISTRY_TOKEN".to_string(),
        upstream: "https://crates.io".to_string(),
        tls_ca: None,
        inject_mode: SupportedInjectMode::Header,
        credential_file: format!("{DIR}/cratesio").into_bytes(),
        endpoint_rules: Vec::new(),
    }
}

fn build(config: &RunConfig, sealed: &SealedCredentials) -> NonoProfile {
    build_profile(config, sealed, TargetOs::Linux, Ok(DIR.as_bytes().to_vec())).expect("profile")
}

fn profile_mode_config(network: NetworkPolicy, json: &str) -> RunConfig {
    RunConfig {
        command: "true".to_string(),
        fs_read: Vec::new(),
        fs_write: Vec::new(),
        network,
        access: Vec::new(),
        audit: AuditConfig::Disabled,
        repo_profile: Some(RepoProfile {
            source: b"/work/runseal.json".to_vec(),
            profile: parse(json).expect("repo profile parses"),
        }),
    }
}

#[test]
fn generated_profile_excludes_only_other_platform_system_write_groups() {
    let config = config(NetworkPolicy::Blocked);
    let build = |os: TargetOs| {
        build_profile(&config, &sealed(Vec::new()), os, Ok(DIR.as_bytes().to_vec()))
            .expect("profile")
            .groups
            .exclude
    };

    assert_eq!(build(TargetOs::Linux), vec!["system_write_macos"]);
    assert_eq!(build(TargetOs::MacOs), vec!["system_write_linux"]);
    assert_eq!(
        build(TargetOs::Other),
        vec!["system_write_linux", "system_write_macos"]
    );
    assert_eq!(excluded_groups(TargetOs::Linux), vec!["system_write_macos"]);
}

#[test]
fn generated_profile_exposes_phantom_on_original_secret_env_var() {
    let profile = build(&config(NetworkPolicy::Blocked), &sealed(vec![cratesio()]));

    let custom = &profile.network.custom_credentials;
    assert_eq!(custom.keys, vec!["cratesio"]);
    assert_eq!(custom.values[0].env_var, "CARGO_REGISTRY_TOKEN");
}

#[test]
fn generated_profile_blocks_network_when_credentials_are_configured() {
    let profile = build(&config(NetworkPolicy::Blocked), &sealed(vec![cratesio()]));

    assert_eq!(profile.network.block, Some(true));
}

#[test]
fn generated_profile_denies_credential_tempdir() {
    let sealed = sealed(vec![cratesio()]);

    let profile = build(&config(NetworkPolicy::Blocked), &sealed);

    assert!(profile
        .filesystem
        .deny
        .iter()
        .any(|path| path.as_bytes() == sealed.dir));
    assert!(!profile.filesystem.is_empty());
}

#[test]
fn generated_profile_allows_access_upstream_hosts() {
    let config = config(NetworkPolicy::AllowDomains(vec![
        "index.crates.io".to_string()
    ]));

    let profile = build(&config, &sealed(vec![cratesio()]));

    assert_eq!(
        profile.network.allow_domain,
        vec!["crates.io", "index.crates.io"]
    );
}

#[test]
fn generated_profile_extends_only_default_without_a_repo_profile() {
    let profile = build(&config(NetworkPolicy::Blocked), &sealed(Vec::new()));

    assert_eq!(profile.extends, vec!["default"]);
}

#[test]
fn generated_profile_extends_the_repo_profile_last_so_runseal_stays_the_child() {
    let config = profile_mode_config(
        NetworkPolicy::Blocked,
        r#"{"filesystem":{"read":["/usr"]}}"#,
    );

    let profile = build(&config, &sealed(Vec::new()));

    assert_eq!(profile.extends, vec!["default", "runseal-repo"]);
}

#[test]
fn profile_mode_without_domains_still_blocks_the_network() {
    let config = profile_mode_config(
        NetworkPolicy::Blocked,
        r#"{"filesystem":{"read":["/usr"]}}"#,
    );

    let profile = build(&config, &sealed(Vec::new()));

    assert_eq!(profile.network.block, Some(true));
}

#[test]
fn profile_mode_with_domains_omits_block_entirely() {
    let config = profile_mode_config(
        NetworkPolicy::FromRepoProfile,
        r#"{"network":{"allow_domain":["example.com"]}}"#,
    );

    let profile = build(&config, &sealed(Vec::new()));

    assert!(
        profile.network.block.is_none(),
        "network.block must be absent"
    );
    assert!(
        profile.network.allow_domain.is_empty(),
        "the repo profile owns the domain list"
    );
}

#[test]
fn upstream_host_parses_hosts() {
    assert_eq!(upstream_host("https://crates.io"), Some("crates.io"));
    assert_eq!(
        upstream_host("https://user@example.com:8443/path"),
        Some("example.com")
    );
    assert_eq!(upstream_host("http://[::1]:8080"), Some("::1"));
    assert_eq!(upstream_host("file:///tmp/secret"), None);
}

#[test]
fn upstream_host_handles_odd_authorities() {
    assert_eq!(upstream_host("https://"), None);
    assert_eq!(upstream_host("https://:80/"), None);
    assert_eq!(upstream_host("https://a@b@c"), Some("c"));
    assert_eq!(upstream_host("https://[::1"), Some("["));
    assert_eq!(upstream_host("https://[]"), None);
}

#[test]
fn credentials_are_described_for_the_proxy() {
    let mut basic = cratesio();
    basic.name = "basic".to_string();
    basic.inject_mode = SupportedInjectMode::BasicAuth;
    basic.tls_ca = Some("/ca.pem".to_string());

    let profile = build(
        &config(NetworkPolicy::Blocked),
        &sealed(vec![cratesio(), basic]),
    );

    assert_eq!(profile.meta.name, "runseal-generated");
    assert_eq!(profile.meta.version, VERSION);
    assert_eq!(profile.network.credentials, vec!["cratesio", "basic"]);
    let custom = &profile.network.custom_credentials;
    assert_eq!(custom.keys, vec!["basic", "cratesio"]);
    assert_eq!(custom.values[0].credential_format, None);
    assert_eq!(custom.values[0].tls_ca.as_deref(), Some("/ca.pem"));
    assert_eq!(custom.values[1].credential_format, Some("Bearer {}"));
    assert_eq!(custom.values[1].inject_header, "Authorization");
    assert_eq!(custom.values[1].upstream, "https://crates.io");
    assert_eq!(
        custom.values[1].credential_key,
        format!("file://{DIR}/cratesio")
    );
}

#[test]
fn both_names_of_the_credential_directory_are_denied() {
    let profile = build_profile(
        &config(NetworkPolicy::Blocked),
        &sealed(vec![cratesio()]),
        TargetOs::Linux,
        Ok(b"/real/\xff".to_vec()),
    )
    .expect("profile");

    assert_eq!(profile.filesystem.deny, vec!["/real/\u{fffd}", DIR]);
}

#[test]
fn nothing_is_denied_without_credentials() {
    let profile = build_profile(
        &config(NetworkPolicy::Blocked),
        &sealed(Vec::new()),
        TargetOs::Linux,
        Err(Error::new("gone")),
    )
    .expect("profile");

    assert!(profile.filesystem.is_empty());
}

#[test]
fn a_credential_directory_that_cannot_be_resolved_fails() {
    let err = build_profile(
        &config(NetworkPolicy::Blocked),
        &sealed(vec![cratesio()]),
        TargetOs::Linux,
        Err(Error::new("gone")),
    )
    .err()
    .expect("must fail");

    assert_eq!(
        err.message(),
        format!("failed to canonicalize '{DIR}': gone")
    );
}

#[test]
fn the_generated_profile_lies_with_the_credentials() {
    let dir = b"/creds".to_vec();

    assert_eq!(profile_path(&dir), b"/creds/profile.json".to_vec());
    assert_eq!(sibling_path(&dir), b"/creds/runseal-repo.json".to_vec());
    assert!(validate_access_grant_name("profile.json").is_err());
    assert!(validate_access_grant_name("runseal-repo.json").is_err());
}
