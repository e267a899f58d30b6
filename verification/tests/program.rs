use runseal::config::{
    invalid_policy, AccessInput, ActionEnv, AuditConfig, FsInput, LoadedSource, NetworkInput,
    NetworkMode, PolicyInput, RunConfig,
};
use runseal::error::Error;
use runseal::files::{FileKind, Query, Reply};
use runseal::load::load;
use runseal::ordered::TextMap;
use runseal::profile::{build_profile, profile_path, NonoProfile, TargetOs};
use runseal::program::{parse_command, run_kind, Command, RunKind, RunState, RunStep};
use runseal::repo_profile::{RepoProfile, BASE_NAME};
use runseal::runner::{fs_requests, run_nono, NonoRun, PathKind};
use runseal::secrets::{seal_credentials, SealedCredentials};

fn unset() -> ActionEnv {
    ActionEnv {
        run: Some("true".to_string()),
        legacy_command: None,
        profile: None,
        workspace: Some("/work".to_string()),
        policy: None,
        fs_read: None,
        legacy_fs_read: None,
        fs_write: None,
        legacy_fs_write: None,
        network: None,
        legacy_network: None,
        audit: Some("false".to_string()),
        audit_dir: None,
    }
}

/// Answers for a workspace that holds one file and nothing else.
fn answer(query: Query, file: &str, contents: &str) -> Reply {
    let text = |path: Vec<u8>| String::from_utf8(path).expect("text");
    let missing = || Reply::Missing("No such file or directory (os error 2)".to_string());
    match query {
        Query::Canonicalize(path) => match text(path) {
            path if path == "/work" || path == format!("/work/{file}") => {
                Reply::Path(path.into_bytes())
            }
            _ => missing(),
        },
        Query::Metadata(path) | Query::LinkMetadata(path) => match text(path) {
            path if path == "/work" => Reply::Metadata(FileKind::Directory, 0),
            path if path == format!("/work/{file}") => {
                Reply::Metadata(FileKind::File, contents.len() as u64)
            }
            _ => missing(),
        },
        Query::ReadText(_) => Reply::Text(contents.to_string()),
    }
}

fn load_profile(file: &str, contents: &str) -> Result<RepoProfile, Error> {
    let mut loader = load("runseal.json", &b"/work".to_vec());
    while let Some(query) = loader.query() {
        loader = loader.step(answer(query, file, contents));
    }
    loader.finish().expect("settled")
}

fn with_profile() -> ActionEnv {
    ActionEnv {
        profile: Some("runseal.json".to_string()),
        ..unset()
    }
}

fn with_policy() -> ActionEnv {
    ActionEnv {
        policy: Some("fs:\n  read: [\".\"]\n".to_string()),
        ..unset()
    }
}

/// What a run comes to, if all that it asks for succeeds.
struct Outcome {
    steps: Vec<RunStep>,
    failure: Option<String>,
    generated: Option<NonoProfile>,
    run: Option<NonoRun>,
    config: Option<RunConfig>,
}

fn seal(config: &RunConfig) -> Result<SealedCredentials, Error> {
    let dir = b"/state/runseal/runseal-creds.x1".to_vec();
    let values = config
        .access
        .iter()
        .map(|_| Some(b"test-token".to_vec()))
        .collect();
    let vars = vec![(b"PATH".to_vec(), b"/bin".to_vec())];
    seal_credentials(config, &dir, vars, &values).finish(dir)
}

fn run_runseal(env: &ActionEnv, inputs: Result<LoadedSource, Error>) -> Outcome {
    let config = inputs.and_then(|loaded| RunConfig::from_action_env(env, loaded));
    let mut steps = Vec::new();
    let (config, mut state) = match config {
        Ok(config) => {
            let kind = run_kind(&config);
            (Some(config), RunState::start(Ok(kind)))
        }
        Err(e) => (None, RunState::start(Err(e))),
    };
    let mut sealed = None;
    let mut generated = None;
    let mut run = None;
    while let Some(step) = state.step {
        steps.push(step);
        let config = config.as_ref().expect("config");
        match step {
            RunStep::Seal => sealed = Some(seal(config).expect("sealed")),
            RunStep::BuildProfile => {
                let sealed = sealed.as_ref().expect("sealed");
                let canonical = Ok(sealed.dir.clone());
                generated =
                    build_profile(config, sealed, TargetOs::Linux, canonical).ok();
            }
            RunStep::RunNono => {
                let sealed = sealed.as_ref().expect("sealed");
                let kinds = fs_requests(config, &Vec::new())
                    .iter()
                    .map(|_| PathKind::Directory)
                    .collect();
                run = Some(run_nono(
                    config,
                    sealed,
                    &profile_path(&sealed.dir),
                    &Vec::new(),
                    &kinds,
                ));
            }
            _ => {}
        }
        state = state.done(Ok(()));
    }
    Outcome {
        steps,
        failure: state.finish().expect("ended").err().map(|e| e.message),
        generated,
        run,
        config,
    }
}

fn run_with_repo_profile(profile_json: &str) -> Outcome {
    run_runseal(
        &with_profile(),
        load_profile("runseal.json", profile_json).map(LoadedSource::Profile),
    )
}

/// A policy that blocks the network, reads one path and grants one credential.
fn blocked_policy(read: &str) -> PolicyInput {
    let mut access = TextMap::new();
    access.insert(
        "cratesio".to_string(),
        AccessInput {
            secret: "CARGO_REGISTRY_TOKEN".to_string(),
            url: "https://crates.io".to_string(),
            tls_ca: None,
            inject_mode: None,
            allow: vec!["GET /api/v1/crates".to_string()],
        },
    );
    PolicyInput {
        fs: Some(FsInput {
            read: vec![read.to_string()],
            write: Vec::new(),
        }),
        network: Some(NetworkInput {
            mode: Some(NetworkMode::Blocked),
            allow: Vec::new(),
        }),
        access: Some(access),
    }
}

#[test]
fn blocked_network_with_credentials_emits_block_true_profile_json() {
    let run = run_runseal(&with_policy(), Ok(LoadedSource::Policy(blocked_policy("."))));

    assert_eq!(run.failure, None);
    let generated = run.generated.expect("profile");
    assert_eq!(generated.network.block, Some(true));
    let custom = &generated.network.custom_credentials;
    assert_eq!(custom.keys, vec!["cratesio"]);
    assert_eq!(custom.values[0].endpoint_rules[0].method, "GET");
    assert_eq!(
        custom.values[0].inject_mode,
        runseal::config::SupportedInjectMode::Header
    );
}

#[test]
fn tmp_read_grant_keeps_credential_file_under_profile_deny() {
    let run = run_runseal(&with_policy(), Ok(LoadedSource::Policy(blocked_policy("/tmp"))));

    assert_eq!(run.failure, None);
    let launch = run.run.expect("run").launch.ok().expect("launch");
    assert!(
        launch
            .args
            .windows(2)
            .any(|pair| pair[0] == b"--read" && pair[1] == b"/tmp"),
        "expected broad /tmp read grant in nono args"
    );
    let generated = run.generated.expect("profile");
    let credential_path = generated.network.custom_credentials.values[0]
        .credential_key
        .strip_prefix("file://")
        .expect("credential key uses file://")
        .to_string();
    let credential_dir = credential_path
        .strip_suffix("/cratesio")
        .expect("credential file has parent");
    assert!(
        generated
            .filesystem
            .deny
            .iter()
            .any(|path| path == credential_dir),
        "credential file must remain unreadable via profile deny"
    );
}

#[test]
fn repo_profile_is_staged_beside_the_generated_profile_and_extended_by_it() {
    let run = run_with_repo_profile(
        r#"{"filesystem":{"read":["./src"]},"network":{"allow_domain":["example.com"]}}"#,
    );

    assert_eq!(run.failure, None);
    let generated = run.generated.expect("profile");
    assert_eq!(generated.extends, vec!["default", BASE_NAME]);
    assert_eq!(generated.network.block, None);
    let staged = run
        .config
        .expect("config")
        .repo_profile
        .expect("repo profile")
        .profile;
    assert_eq!(
        staged.network.expect("network").allow_domain[0],
        "example.com"
    );
    assert_eq!(staged.filesystem.expect("filesystem").read[0], "/work/src");
    assert_eq!(
        run.steps,
        vec![
            RunStep::Seal,
            RunStep::BuildProfile,
            RunStep::StageSibling,
            RunStep::WriteProfile,
            RunStep::RunNono
        ]
    );
}

#[test]
fn missing_repo_write_target_fails_before_spawning_nono() {
    for field in ["write", "write_file"] {
        let run = run_with_repo_profile(&format!(
            r#"{{"filesystem":{{"{field}":["./missing-output"]}}}}"#
        ));
        assert!(run.steps.is_empty(), "nono must not start");
        let stderr = run.failure.expect("failure");
        assert!(
            stderr.contains("create the target before running runseal"),
            "{stderr}"
        );
    }
}

#[test]
fn repo_profile_without_domains_keeps_the_generated_block() {
    let run = run_with_repo_profile(r#"{"filesystem":{"read":["./src"]}}"#);

    assert_eq!(run.failure, None, "runseal failed");
    assert_eq!(run.generated.expect("profile").network.block, Some(true));
}

#[test]
fn profile_mode_disables_nono_registry_lookups() {
    let run = run_with_repo_profile(r#"{"filesystem":{"read":["./src"]}}"#);

    let env = run.run.expect("run").launch.ok().expect("launch").env;
    let at = env
        .keys
        .iter()
        .position(|key| key == "NONO_NO_MIGRATE")
        .expect("variable");
    assert_eq!(env.values[at], "1");
}

#[test]
fn a_repo_profile_granting_itself_capabilities_fails_before_spawning_nono() {
    let run = run_with_repo_profile(r#"{"session_hooks":{"before":"/tmp/pwn.sh"}}"#);

    assert!(
        run.steps.is_empty(),
        "nono must not be spawned when the repo profile is rejected"
    );
    let stderr = run
        .failure
        .expect("runseal must reject a profile that runs code outside the sandbox");
    assert!(
        stderr.contains("session_hooks") && stderr.contains("not permitted"),
        "unexpected stderr:\n{stderr}"
    );
}

#[test]
fn a_repo_profile_and_a_policy_together_fail_before_spawning_nono() {
    let env = ActionEnv {
        profile: Some("runseal.json".to_string()),
        policy: Some("fs:\n  read: [\".\"]\n".to_string()),
        ..unset()
    };
    let loaded = load_profile("runseal.json", r#"{"filesystem":{"read":["./src"]}}"#);

    let run = run_runseal(&env, loaded.map(LoadedSource::Profile));

    assert!(run.steps.is_empty(), "nono must not be spawned");
    let stderr = run.failure.expect("failure");
    assert!(
        stderr.contains("exactly one policy source"),
        "unexpected stderr:\n{stderr}"
    );
}

#[test]
fn a_missing_repo_profile_fails_before_spawning_nono() {
    let run = run_runseal(
        &with_profile(),
        load_profile("other.json", "{}").map(LoadedSource::Profile),
    );

    assert!(run.steps.is_empty(), "nono must not be spawned");
    let stderr = run.failure.expect("a missing profile must fail");
    assert!(
        stderr.contains("was not found"),
        "unexpected stderr:\n{stderr}"
    );
}

#[test]
fn installed_binary_advertises_profile_support() {
    let command = parse_command(Some("capabilities")).expect("command");
    assert_eq!(command.printed().as_deref(), Some("repo-profile-v1"));
}

#[test]
fn commands_are_read_from_the_first_argument() {
    assert_eq!(parse_command(Some("run")).unwrap(), Command::Run);
    assert_eq!(Command::Run.printed(), None);
    for name in ["--version", "version"] {
        let command = parse_command(Some(name)).unwrap();
        assert_eq!(command, Command::Version);
        assert_eq!(command.printed().as_deref(), Some("runseal 0.1.0"));
    }
    assert_eq!(
        parse_command(Some("walk")).unwrap_err().message(),
        "unknown command 'walk', expected 'run'"
    );
    assert_eq!(
        parse_command(None).unwrap_err().message(),
        "missing command, expected 'run'"
    );
}

#[test]
fn the_configuration_decides_which_steps_there_are() {
    let plain = |env: &ActionEnv| {
        RunConfig::from_action_env(env, LoadedSource::Inputs).expect("config")
    };
    let mut config = plain(&unset());
    assert_eq!(
        run_kind(&config),
        RunKind {
            staging: false,
            auditing: false
        }
    );
    config.audit = AuditConfig::Artifact {
        dir: "evidence".to_string(),
    };
    config.repo_profile = load_profile("runseal.json", "{}").ok();
    assert_eq!(
        run_kind(&config),
        RunKind {
            staging: true,
            auditing: true
        }
    );
}

/// The steps of a run in which one step fails, and what is told in the end.
fn failing_at(kind: RunKind, failing: RunStep) -> (Vec<RunStep>, Option<String>) {
    let mut state = RunState::start(Ok(kind));
    let mut steps = Vec::new();
    while let Some(step) = state.step {
        steps.push(step);
        let reply = if step == failing {
            Err(Error::new("boom"))
        } else {
            Ok(())
        };
        state = state.done(reply);
    }
    (steps, state.finish().expect("ended").err().map(|e| e.message))
}

#[test]
fn a_failed_step_ends_the_run() {
    let plain = RunKind {
        staging: true,
        auditing: false,
    };
    for (step, told) in [
        (RunStep::Seal, "failed to seal credentials: boom"),
        (RunStep::BuildProfile, "failed to build nono profile: boom"),
        (
            RunStep::StageSibling,
            "failed to stage the repo nono profile: boom",
        ),
        (RunStep::WriteProfile, "failed to write nono profile: boom"),
        (RunStep::RunNono, "nono run failed: boom"),
    ] {
        let (steps, failure) = failing_at(plain, step);
        assert_eq!(steps.last(), Some(&step));
        assert_eq!(failure.as_deref(), Some(told));
    }
}

#[test]
fn evidence_is_exported_after_a_failed_run() {
    let audited = RunKind {
        staging: false,
        auditing: true,
    };
    let all = vec![
        RunStep::Seal,
        RunStep::BuildProfile,
        RunStep::WriteProfile,
        RunStep::CaptureAudit,
        RunStep::RunNono,
        RunStep::ExportAudit,
    ];

    let (steps, failure) = failing_at(audited, RunStep::RunNono);
    assert_eq!(steps, all);
    assert_eq!(failure.as_deref(), Some("nono run failed: boom"));

    let (steps, failure) = failing_at(audited, RunStep::CaptureAudit);
    assert_eq!(steps, all);
    assert_eq!(failure, None);

    let (steps, failure) = failing_at(audited, RunStep::ExportAudit);
    assert_eq!(steps, all);
    assert_eq!(
        failure.as_deref(),
        Some("failed to export nono audit evidence: boom")
    );
}

/// A way to inject a secret, as it is written in a policy.
struct WrittenMode;

impl<'de> serde::Deserialize<'de> for WrittenMode {
    fn deserialize<D: serde::Deserializer<'de>>(deserializer: D) -> Result<Self, D::Error> {
        let written = String::deserialize(deserializer)?;
        match written.as_str() {
            "header" | "url_path" | "query_param" | "basic_auth" => Ok(WrittenMode),
            _ => Err(serde::de::Error::unknown_variant(
                &written,
                &["header", "url_path", "query_param", "basic_auth"],
            )),
        }
    }
}

#[test]
fn invalid_inject_mode_fails_before_spawning_nono() {
    let policy = r#"
network:
  mode: blocked
access:
  cratesio:
    secret: CARGO_REGISTRY_TOKEN
    url: https://crates.io
    inject:
      mode: heder
    allow:
      - GET /api/v1/crates
"#;
    let env = ActionEnv {
        policy: Some(policy.to_string()),
        ..unset()
    };
    let value: serde_yaml_ng::Value = serde_yaml_ng::from_str(policy).expect("YAML");
    let mode = value["access"]["cratesio"]["inject"]["mode"].clone();
    let inputs = match serde_yaml_ng::from_value::<WrittenMode>(mode) {
        Ok(_) => panic!("the inject mode was accepted"),
        Err(e) => Err(invalid_policy(Error::new(&e.to_string()))),
    };

    let outcome = run_runseal(&env, inputs);

    assert!(outcome.steps.is_empty(), "no step is taken for an invalid policy");
    assert!(outcome.run.is_none(), "nono must not be spawned when the policy is invalid");
    let failure = outcome.failure.expect("runseal must reject an invalid inject mode");
    assert!(
        failure.contains("not valid runseal policy YAML"),
        "unexpected failure:\n{failure}"
    );
    assert!(failure.contains("heder"), "unexpected failure:\n{failure}");
}
