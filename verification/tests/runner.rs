use runseal::config::{
    AccessConfig, AuditConfig, NetworkPolicy, RunConfig, SupportedInjectMode,
};
use runseal::error::Error;
use runseal::ordered::TextMap;
use runseal::profile::TargetOs;
use runseal::repo_profile::{parse, RepoProfile};
use runseal::runner::{
    conclude_run, display_credential_proxy, display_fs_args, display_list, display_network,
    fs_args, fs_flag, fs_requests, run_nono, trusted_candidates, trusted_system_read_paths,
    ExitReport, FsAccess, PathKind,
};
use runseal::secrets::{seal_credentials, SealedCredentials};

fn texts(items: &[&str]) -> Vec<String> {
    items.iter().map(|item| item.to_string()).collect()
}

fn config(read: &[&str], write: &[&str]) -> RunConfig {
    RunConfig {
        command: "true".to_string(),
        fs_read: texts(read),
        fs_write: texts(write),
        network: NetworkPolicy::Blocked,
        access: Vec::new(),
        audit: AuditConfig::Disabled,
        repo_profile: None,
    }
}

fn sealed() -> SealedCredentials {
    let mut sanitized_env = TextMap::new();
    sanitized_env.insert("PATH".to_string(), "/bin".to_string());
    SealedCredentials {
        dir: b"/creds".to_vec(),
        access: Vec::new(),
        sanitized_env,
    }
}

#[test]
fn read_directory_uses_read_flag() {
    assert_eq!(
        fs_flag("/dir", FsAccess::Read, PathKind::Directory).unwrap(),
        "--read"
    );
}

#[test]
fn read_file_uses_read_file_flag() {
    assert_eq!(
        fs_flag("/dir/allowed.txt", FsAccess::Read, PathKind::File).unwrap(),
        "--read-file"
    );
}

#[test]
fn write_directory_uses_write_flag() {
    assert_eq!(
        fs_flag("/dir", FsAccess::Write, PathKind::Directory).unwrap(),
        "--write"
    );
}

#[test]
fn write_file_uses_write_file_flag() {
    assert_eq!(
        fs_flag("/dir/result.txt", FsAccess::Write, PathKind::File).unwrap(),
        "--write-file"
    );
}

#[test]
fn missing_read_path_fails_closed() {
    let err = fs_flag("/dir/missing.txt", FsAccess::Read, PathKind::Missing).unwrap_err();
    assert!(err.message().contains("does not exist"));
}

#[test]
fn missing_write_path_is_granted_as_a_directory() {
    assert_eq!(
        fs_flag("/dir/missing", FsAccess::Write, PathKind::Missing).unwrap(),
        "--write"
    );
}

#[test]
fn other_paths_fail_closed() {
    assert_eq!(
        fs_flag("/dev/null", FsAccess::Write, PathKind::Other)
            .unwrap_err()
            .message(),
        "filesystem policy path '/dev/null' exists but is neither a regular file nor directory"
    );
}

#[test]
fn fs_args_adds_trusted_system_reads_without_duplication() {
    let trusted = "/dir/trusted".to_string();
    let config = config(&["/dir/trusted"], &[]);

    let args = fs_args(
        &config,
        &vec![trusted.clone()],
        &vec![PathKind::Directory, PathKind::Directory],
    )
    .ok()
    .expect("fs args");
    let matching = args.iter().filter(|arg| arg.path == trusted).count();

    assert_eq!(matching, 1);
    assert_eq!((args[0].flag, args[0].path.clone()), ("--read", trusted));
}

#[test]
fn the_same_path_can_be_read_and_written() {
    let config = config(&["a", "a"], &["a", "b", "a"]);

    let requests = fs_requests(&config, &Vec::new());
    assert_eq!(requests.len(), 5);
    assert_eq!(requests[2].access, FsAccess::Write);

    let kinds = vec![
        PathKind::File,
        PathKind::File,
        PathKind::File,
        PathKind::Directory,
        PathKind::File,
    ];
    let args = fs_args(&config, &Vec::new(), &kinds).ok().expect("fs args");
    assert_eq!(
        display_fs_args(&args),
        "--read-file a, --write-file a, --write b"
    );
}

#[test]
fn a_path_of_which_nothing_is_known_is_missing() {
    assert!(fs_args(&config(&["a"], &[]), &Vec::new(), &Vec::new()).is_err());
}

#[test]
fn only_existing_system_paths_are_trusted() {
    assert_eq!(
        trusted_candidates(TargetOs::Linux),
        texts(&["/bin", "/lib", "/lib64", "/sbin", "/usr", "/etc/ssl", "/etc/pki"])
    );
    assert_eq!(
        trusted_system_read_paths(
            TargetOs::Linux,
            &vec![true, false, false, false, true, false]
        ),
        texts(&["/bin", "/usr"])
    );
    assert!(trusted_system_read_paths(TargetOs::MacOs, &vec![true]).is_empty());
    assert!(trusted_system_read_paths(TargetOs::Other, &vec![true]).is_empty());
}

#[test]
fn lists_are_displayed_for_a_reader() {
    assert_eq!(display_list(&texts(&["a", "b"]), "<none>"), "a, b");
    assert_eq!(display_list(&Vec::new(), "<none>"), "<none>");
    assert_eq!(display_fs_args(&Vec::new()), "<none>");
    assert_eq!(display_network(&NetworkPolicy::Blocked), "blocked");
    assert_eq!(
        display_network(&NetworkPolicy::AllowDomains(texts(&["a.com", "b.com"]))),
        "a.com, b.com"
    );
    assert_eq!(
        display_network(&NetworkPolicy::FromRepoProfile),
        "from repo profile"
    );
    assert_eq!(display_credential_proxy(0), "disabled");
    assert_eq!(
        display_credential_proxy(2),
        "enabled for sealed credential routes"
    );
}

#[test]
fn a_run_is_reported_and_launched() {
    let run = run_nono(
        &config(&["."], &[]),
        &sealed(),
        &b"/creds/profile.json".to_vec(),
        &texts(&["/usr"]),
        &vec![PathKind::Directory, PathKind::Directory],
    );

    assert_eq!(
        run.report,
        texts(&[
            "::group::runseal sandbox configuration",
            "  filesystem read:  .",
            "  system read:      /usr",
            "  filesystem write: <none>",
            "  nono fs args:     --read ., --read /usr",
            "  direct network:   blocked",
            "  credential proxy: disabled",
            "  access grants:    0 configured",
            "  nono profile:     /creds/profile.json",
            "::endgroup::",
        ])
    );
    let launch = run.launch.ok().expect("launch");
    let args: Vec<String> = launch
        .args
        .iter()
        .map(|arg| String::from_utf8(arg.clone()).expect("text"))
        .collect();
    assert_eq!(
        args,
        texts(&[
            "run",
            "--no-rollback",
            "--no-diagnostics",
            "--profile",
            "/creds/profile.json",
            "--read",
            ".",
            "--read",
            "/usr",
            "--",
            "bash",
            "-c",
            "true",
        ])
    );
    assert_eq!(launch.env.keys, vec!["PATH"]);
    assert_eq!(launch.env.values, vec!["/bin"]);
}

#[test]
fn a_run_without_its_paths_is_reported_and_not_launched() {
    let run = run_nono(
        &config(&["gone"], &[]),
        &sealed(),
        &b"/creds/profile.json".to_vec(),
        &Vec::new(),
        &vec![PathKind::Missing],
    );

    assert_eq!(run.report.len(), 4);
    assert_eq!(run.report[1], "  filesystem read:  gone");
    assert_eq!(run.report[2], "  system read:      <nono defaults>");
    assert!(run.launch.is_err());
}

#[test]
fn a_profile_of_the_repository_is_not_migrated() {
    let mut config = config(&[], &[]);
    config.repo_profile = Some(RepoProfile {
        source: b"/work/runseal.json".to_vec(),
        profile: parse("{}").expect("profile"),
    });

    let run = run_nono(
        &config,
        &sealed(),
        &b"/p".to_vec(),
        &Vec::new(),
        &Vec::new(),
    );

    assert_eq!(run.report[1], "  filesystem read:  <workspace>");
    let launch = run.launch.ok().expect("launch");
    assert_eq!(launch.env.keys, vec!["NONO_NO_MIGRATE", "PATH"]);
    assert_eq!(launch.env.values, vec!["1", "/bin"]);
}

#[test]
fn secrets_do_not_reach_the_sandbox() {
    let mut config = config(&[], &[]);
    config.access.push(AccessConfig {
        name: "npm".to_string(),
        secret: "NPM_TOKEN".to_string(),
        upstream: "https://registry.npmjs.org".to_string(),
        tls_ca: None,
        inject_mode: SupportedInjectMode::Header,
        endpoint_rules: Vec::new(),
    });
    let vars = vec![
        (b"NPM_TOKEN".to_vec(), b"t0p".to_vec()),
        (b"RUNSEAL_RUN".to_vec(), b"true".to_vec()),
        (b"LANG".to_vec(), b"C".to_vec()),
    ];
    let dir = b"/creds".to_vec();
    let sealed = seal_credentials(&config, &dir, vars, &vec![Some(b"t0p".to_vec())])
        .finish(dir)
        .ok()
        .expect("sealed");

    let run = run_nono(&config, &sealed, &b"/p".to_vec(), &Vec::new(), &Vec::new());

    assert_eq!(run.report[6], "  credential proxy: enabled for sealed credential routes");
    assert_eq!(run.report[7], "  access grants:    1 configured");
    assert_eq!(run.launch.ok().expect("launch").env.keys, vec!["LANG"]);
}

#[test]
fn a_failed_sandbox_fails_the_run() {
    let exit = |success: bool| {
        Ok(ExitReport {
            success,
            status: "exit status: 3".to_string(),
        })
    };
    assert!(conclude_run(exit(true)).is_ok());
    assert_eq!(
        conclude_run(exit(false)).unwrap_err().message(),
        "nono exited with status exit status: 3"
    );
    assert_eq!(
        conclude_run(Err(Error::new("not found")))
            .unwrap_err()
            .message(),
        "failed to spawn nono: not found"
    );
}
