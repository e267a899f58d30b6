use runseal::config::{
    AccessConfig, AuditConfig, EndpointRule, NetworkPolicy, RunConfig, SupportedInjectMode,
};
use runseal::secrets::{
    absolute_env_path, credential_temp_base_dir, decode_secret_env_value, mask_commands,
    read_secret_env, seal_credentials, secret_mask_lines, validate_access_grant_name,
    validate_secret_for_inject_mode, CredentialBase, CREDENTIAL_DIR_MODE, CREDENTIAL_DIR_PREFIX,
    CREDENTIAL_FILE_MODE,
};

fn bytes(text: &str) -> Vec<u8> {
    text.as_bytes().to_vec()
}

fn grant(name: &str, secret: &str) -> AccessConfig {
    AccessConfig {
        name: name.to_string(),
        secret: secret.to_string(),
        upstream: "https://crates.io".to_string(),
        tls_ca: None,
        inject_mode: SupportedInjectMode::Header,
        endpoint_rules: Vec::new(),
    }
}

fn config(access: Vec<AccessConfig>) -> RunConfig {
    RunConfig {
        command: "true".to_string(),
        fs_read: vec![".".to_string()],
        fs_write: Vec::new(),
        network: NetworkPolicy::Blocked,
        access,
        audit: AuditConfig::Disabled,
        repo_profile: None,
    }
}

#[test]
fn credential_temp_base_dir_prefers_runner_temp_when_set() {
    let base = credential_temp_base_dir(
        Some(bytes("/runner/temp")),
        Some(bytes("/state")),
        Some(bytes("/home/me")),
    );

    assert_eq!(base.directory(false), Some(bytes("/runner/temp")));
}

#[test]
fn credential_temp_base_dir_rejects_relative_runner_temp() {
    assert_eq!(absolute_env_path(Some(bytes("relative/temp"))), None);
    assert_eq!(absolute_env_path(Some(Vec::new())), None);
    assert_eq!(absolute_env_path(None), None);
}

#[test]
fn credential_temp_base_dir_falls_back_to_xdg_state_home() {
    let base = credential_temp_base_dir(None, Some(bytes("/tmp/x/state")), Some(bytes("/home/me")));

    match &base {
        CredentialBase::StateDir(path) => assert_eq!(path, &bytes("/tmp/x/state/runseal")),
        _ => panic!("fallback base must be created"),
    }
    assert_eq!(base.directory(true), Some(bytes("/tmp/x/state/runseal")));
    assert_eq!(
        CREDENTIAL_DIR_MODE, 0o700,
        "fallback base must be owner-only"
    );
}

#[test]
fn credential_temp_base_dir_falls_back_to_home() {
    let base = credential_temp_base_dir(None, Some(bytes("state")), Some(bytes("/home/me")));

    assert_eq!(
        base.directory(true),
        Some(bytes("/home/me/.local/state/runseal"))
    );
}

#[test]
fn a_base_that_cannot_be_made_is_not_used() {
    let base = credential_temp_base_dir(None, Some(bytes("/state")), None);

    assert_eq!(base.directory(false), None);
}

#[test]
fn credential_temp_base_dir_is_none_without_runner_temp_or_home() {
    assert_eq!(
        credential_temp_base_dir(None, None, None).directory(true),
        None
    );
}

#[test]
fn credential_dir_avoids_os_temp_root_when_runseal_picks_the_base() {
    let base = credential_temp_base_dir(None, Some(bytes("/tmp/state")), None);

    let parent = base.directory(true).expect("credential dir parent");
    assert_ne!(
        parent,
        bytes("/tmp"),
        "credential dir must not sit in the OS temp root"
    );
    assert_eq!(parent, bytes("/tmp/state/runseal"));
    assert_eq!(CREDENTIAL_DIR_PREFIX, "runseal-creds.");
}

#[test]
fn seal_credentials_places_tempdir_under_runner_temp_when_set() {
    let runner_temp = credential_temp_base_dir(Some(bytes("/runner/temp")), None, None)
        .directory(true)
        .expect("base");
    let mut dir = runner_temp.clone();
    dir.extend_from_slice(b"/runseal-creds.x1");

    let plan = seal_credentials(&config(Vec::new()), &dir, Vec::new(), &Vec::new());
    let sealed = plan.finish(dir).expect("sealed");

    assert!(
        sealed.dir.starts_with(&runner_temp),
        "expected credential dir under RUNNER_TEMP"
    );
    assert!(sealed.access.is_empty());
}

#[test]
fn validates_safe_access_grant_names() {
    for name in ["npm", "crates_io", "deploy-123", "A_B-C9"] {
        validate_access_grant_name(name).expect("valid access grant name");
    }
}

#[test]
fn rejects_access_grant_names_that_can_escape_or_break_profile_keys() {
    for name in [
        "",
        "../profile",
        "profile/secret",
        "profile\\secret",
        "profile.secret",
        "profile secret",
        "profile\0secret",
        "ümlaut",
    ] {
        assert!(
            validate_access_grant_name(name).is_err(),
            "expected {name:?} to be rejected"
        );
    }
}

#[test]
fn rejects_invalid_access_grant_name_before_secret_lookup() {
    let config = config(vec![grant(
        "../profile.json",
        "RUNSEAL_TEST_SECRET_THAT_IS_NOT_SET",
    )]);

    let plan = seal_credentials(&config, &bytes("/creds"), Vec::new(), &vec![None]);
    assert!(plan.steps.is_empty());

    let err = plan
        .finish(bytes("/creds"))
        .err()
        .expect("invalid grant name must fail");
    assert!(
        err.message().contains("access grant name"),
        "unexpected error: {err:?}"
    );
}

#[test]
fn non_utf8_secret_error_does_not_include_raw_value() {
    let name = "RUNSEAL_TEST_NON_UTF8_SECRET";
    let value = b"TOPSECRET-\xFF\xFE-RAWKEY".to_vec();

    let err = decode_secret_env_value(name, value).expect_err("non-UTF-8 secret must fail");

    let rendered = err.message();
    assert!(
        rendered.contains("not valid UTF-8"),
        "unexpected error: {rendered}"
    );
    assert!(
        !rendered.contains("TOPSECRET"),
        "error leaked secret prefix: {rendered}"
    );
    assert!(
        !rendered.contains("RAWKEY"),
        "error leaked secret suffix: {rendered}"
    );
}

#[test]
fn secrets_are_read_as_text() {
    assert_eq!(
        read_secret_env("TOKEN", Some(vec![195, 169])).unwrap(),
        "\u{e9}"
    );
    assert_eq!(
        read_secret_env("TOKEN", None).unwrap_err().message(),
        "access secret env var 'TOKEN' is not set"
    );
}

#[test]
fn masks_each_non_empty_line_of_multiline_secret() {
    let lines: Vec<_> = secret_mask_lines("first\n\nsecond\r\nthird\r");

    assert_eq!(lines, vec!["first", "second", "third"]);
    assert_eq!(
        mask_commands("first\n\nsecond"),
        vec!["::add-mask::first", "::add-mask::second"]
    );
}

#[test]
fn header_injection_rejects_newline_secrets() {
    let err = validate_secret_for_inject_mode(
        "RUNSEAL_TEST_SECRET",
        SupportedInjectMode::Header,
        "first\nsecond",
    )
    .expect_err("header secrets with newlines must fail");

    assert!(
        err.message()
            .contains("cannot be injected as an HTTP header"),
        "unexpected error: {err:?}"
    );
}

#[test]
fn basic_auth_injection_allows_newline_secrets() {
    validate_secret_for_inject_mode(
        "RUNSEAL_TEST_SECRET",
        SupportedInjectMode::BasicAuth,
        "first\nsecond",
    )
    .expect("basic_auth multiline secret");
}

#[test]
fn a_grant_is_sealed_in_its_own_file() {
    let mut npm = grant("npm", "NPM_TOKEN");
    npm.tls_ca = Some("/etc/ca.pem".to_string());
    npm.endpoint_rules.push(EndpointRule {
        method: "GET".to_string(),
        path: "/".to_string(),
    });

    let plan = seal_credentials(
        &config(vec![npm]),
        &bytes("/creds"),
        Vec::new(),
        &vec![Some(bytes("t0p"))],
    );

    assert_eq!(plan.steps.len(), 1);
    assert_eq!(plan.steps[0].contents, "t0p");
    assert_eq!(plan.steps[0].masks, vec!["::add-mask::t0p"]);
    let sealed = plan.finish(bytes("/creds")).expect("sealed");
    assert_eq!(sealed.dir, bytes("/creds"));
    let credential = &sealed.access[0];
    assert_eq!(credential.name, "npm");
    assert_eq!(credential.secret_env, "NPM_TOKEN");
    assert_eq!(credential.upstream, "https://crates.io");
    assert_eq!(credential.tls_ca.as_deref(), Some("/etc/ca.pem"));
    assert_eq!(credential.credential_file, bytes("/creds/npm"));
    assert_eq!(credential.endpoint_rules[0].method, "GET");
    assert_eq!(CREDENTIAL_FILE_MODE, 0o600);
}

#[test]
fn no_two_credentials_share_a_file() {
    let plan = seal_credentials(
        &config(vec![grant("a", "TOKEN"), grant("a-", "TOKEN"), grant("b", "TOKEN")]),
        &bytes("/creds"),
        Vec::new(),
        &vec![Some(bytes("x")), Some(bytes("x")), Some(bytes("x"))],
    );

    let files: Vec<&Vec<u8>> = plan
        .steps
        .iter()
        .map(|step| &step.credential.credential_file)
        .collect();
    assert_eq!(
        files,
        vec![&bytes("/creds/a"), &bytes("/creds/a-"), &bytes("/creds/b")]
    );
}

#[test]
fn sealing_stops_at_the_first_failure() {
    let config = config(vec![
        grant("a", "A_TOKEN"),
        grant("b", "B_TOKEN"),
        grant("c", "C_TOKEN"),
    ]);
    let failure = |value: Option<Vec<u8>>| {
        let plan = seal_credentials(
            &config,
            &bytes("/creds"),
            Vec::new(),
            &vec![Some(bytes("x")), value, Some(bytes("z"))],
        );
        assert_eq!(plan.steps.len(), 1);
        plan.finish(bytes("/creds")).err().expect("failed").message
    };

    assert_eq!(failure(None), "access secret env var 'B_TOKEN' is not set");
    assert_eq!(
        failure(Some(Vec::new())),
        "access secret env var 'B_TOKEN' is empty"
    );
    assert_eq!(
        failure(Some(vec![255])),
        "access secret env var 'B_TOKEN' is not valid UTF-8"
    );
    assert_eq!(
        failure(Some(bytes("a\rb"))),
        "access secret env var 'B_TOKEN' contains a newline, which cannot be injected as an HTTP header"
    );
}

#[test]
fn the_environment_loses_secrets_and_inputs() {
    let vars = vec![
        (bytes("PATH"), bytes("/bin")),
        (bytes("NPM_TOKEN"), bytes("t0p")),
        (bytes("RUNSEAL_RUN"), bytes("true")),
        (bytes("NONO_ACTION_COMMAND"), bytes("true")),
        (bytes("BINARY"), vec![255]),
        (vec![254], bytes("value")),
        (bytes("HOME"), bytes("/home/a")),
        (bytes("HOME"), bytes("/home/b")),
    ];

    let plan = seal_credentials(
        &config(vec![grant("npm", "NPM_TOKEN")]),
        &bytes("/creds"),
        vars,
        &vec![Some(bytes("t0p"))],
    );

    assert_eq!(plan.sanitized_env.keys, vec!["HOME", "PATH"]);
    assert_eq!(plan.sanitized_env.values, vec!["/home/b", "/bin"]);
}
