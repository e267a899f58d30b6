use runseal::config::{
    check_policy_size, env_value, invalid_policy, parse_allow_rules, parse_audit, parse_network, split_csv,
    validate_domain_allowlist, validate_url, AccessInput, ActionEnv, AuditConfig, FsInput,
    InjectMode, LoadedSource, NetworkInput, NetworkMode, NetworkPolicy, PolicyInput, PolicySource,
    RunConfig, SupportedInjectMode, MAX_POLICY_YAML_BYTES,
};
use runseal::error::Error;
use runseal::ordered::TextMap;
use serde_yaml_ng::Value;

fn texts(value: &Value) -> Vec<String> {
    match value.as_sequence() {
        Some(items) => items
            .iter()
            .map(|item| item.as_str().expect("text").to_string())
            .collect(),
        None => Vec::new(),
    }
}

/// A policy in YAML, as the library takes it.
fn policy(yaml: &str) -> PolicyInput {
    let value: Value = serde_yaml_ng::from_str(yaml).expect("Valid policy yaml");
    let fs = value.get("fs").map(|fs| FsInput {
        read: fs.get("read").map(texts).unwrap_or_default(),
        write: fs.get("write").map(texts).unwrap_or_default(),
    });
    let network = value.get("network").map(|network| NetworkInput {
        mode: network
            .get("mode")
            .map(|mode| match mode.as_str().expect("mode") {
                "blocked" => NetworkMode::Blocked,
                "filtered" => NetworkMode::Filtered,
                other => panic!("unknown mode {other}"),
            }),
        allow: network.get("allow").map(texts).unwrap_or_default(),
    });
    let access = value.get("access").map(|access| {
        let mut grants = TextMap::new();
        for (name, grant) in access.as_mapping().expect("grants") {
            let text = |key: &str| grant.get(key).and_then(|v| v.as_str()).map(str::to_string);
            let mode = grant.get("inject").and_then(|inject| inject.get("mode"));
            grants.insert(
                name.as_str().expect("name").to_string(),
                AccessInput {
                    secret: text("secret").expect("secret"),
                    url: text("url").expect("url"),
                    tls_ca: text("tls_ca"),
                    inject_mode: mode.map(|mode| match mode.as_str().expect("mode") {
                        "header" => InjectMode::Header,
                        "url_path" => InjectMode::UrlPath,
                        "query_param" => InjectMode::QueryParam,
                        "basic_auth" => InjectMode::BasicAuth,
                        other => panic!("unknown mode {other}"),
                    }),
                    allow: grant.get("allow").map(texts).unwrap_or_default(),
                },
            );
        }
        grants
    });
    PolicyInput {
        fs,
        network,
        access,
    }
}

fn from_policy(policy: PolicyInput) -> Result<RunConfig, Error> {
    RunConfig::from_policy("true".to_string(), policy, None, None)
}

fn unset() -> ActionEnv {
    ActionEnv {
        run: None,
        legacy_command: None,
        profile: None,
        workspace: None,
        policy: None,
        fs_read: None,
        legacy_fs_read: None,
        fs_write: None,
        legacy_fs_write: None,
        network: None,
        legacy_network: None,
        audit: None,
        audit_dir: None,
    }
}

fn set(value: &str) -> Option<String> {
    Some(value.to_string())
}

#[test]
fn access_grant_without_allow_rules_fails_closed() {
    let policy = policy(
        r#"
access:
  cratesio:
    secret: CARGO_REGISTRY_TOKEN
    url: https://crates.io
"#,
    );

    let err = from_policy(policy)
        .err()
        .expect("missing allow rules must fail");

    assert!(
        err.message()
            .contains("access grants require at least one allow rule"),
        "unexpected error: {err:?}"
    );
}

#[test]
fn access_grant_with_empty_allow_rules_fails_closed() {
    let policy = policy(
        r#"
access:
  cratesio:
    secret: CARGO_REGISTRY_TOKEN
    url: https://crates.io
    allow: []
"#,
    );

    let err = from_policy(policy)
        .err()
        .expect("empty allow rules must fail");

    assert!(
        err.message()
            .contains("access grants require at least one allow rule"),
        "unexpected error: {err:?}"
    );
}

#[test]
fn access_grant_with_allow_rules_parses() {
    let policy = policy(
        r#"
access:
  cratesio:
    secret: CARGO_REGISTRY_TOKEN
    url: https://crates.io
    allow:
      - GET /api/v1/crates
"#,
    );

    let config = from_policy(policy).expect("Policy should parse correctly");

    assert_eq!(config.access.len(), 1);
    assert_eq!(config.access[0].endpoint_rules.len(), 1);
    assert_eq!(config.access[0].endpoint_rules[0].method, "GET");
    assert_eq!(config.access[0].endpoint_rules[0].path, "/api/v1/crates");
}

#[test]
fn audit_mode_aliases_parse() {
    for value in ["", "false", "off", "none", " false "] {
        assert_eq!(
            parse_audit(Some(value), None).expect("disabled alias"),
            AuditConfig::Disabled,
            "value {value:?}"
        );
    }
    assert_eq!(
        parse_audit(None, None).expect("unset"),
        AuditConfig::Disabled
    );
    for value in ["true", "artifact"] {
        assert_eq!(
            parse_audit(Some(value), None).expect("artifact alias"),
            AuditConfig::Artifact {
                dir: "runseal-audit".to_string()
            },
            "value {value:?}"
        );
    }
}

#[test]
fn audit_artifact_uses_configured_dir() {
    assert_eq!(
        parse_audit(Some("artifact"), Some("/tmp/audit")).expect("artifact"),
        AuditConfig::Artifact {
            dir: "/tmp/audit".to_string()
        }
    );
}

#[test]
fn an_unknown_audit_mode_fails() {
    assert_eq!(
        parse_audit(Some(" maybe "), None).unwrap_err().message(),
        "unsupported audit mode 'maybe'; expected one of 'false', 'off', 'none', 'true', 'artifact'"
    );
}

#[test]
fn blocked_network_mode_with_allow_list_fails_closed() {
    let policy = policy(
        r#"
network:
  mode: blocked
  allow:
    - api.github.com
"#,
    );

    let err = from_policy(policy)
        .err()
        .expect("blocked mode with allow list must fail");

    assert!(
        err.message()
            .contains("network.mode 'blocked' cannot be combined with network.allow"),
        "unexpected error: {err:?}"
    );
}

#[test]
fn filtered_network_mode_with_allow_list_allows_domains() {
    let policy = policy(
        r#"
network:
  mode: filtered
  allow:
    - api.github.com
"#,
    );

    let config = from_policy(policy).expect("policy parses");

    assert_eq!(
        config.network,
        NetworkPolicy::AllowDomains(vec!["api.github.com".to_string()])
    );
}

#[test]
fn allow_list_without_mode_allows_domains() {
    let policy = policy(
        r#"
network:
  allow:
    - api.github.com
"#,
    );

    let config = from_policy(policy).expect("policy parses");

    assert_eq!(
        config.network,
        NetworkPolicy::AllowDomains(vec!["api.github.com".to_string()])
    );
}

#[test]
fn filtered_network_mode_without_allow_list_blocks_network() {
    let policy = policy(
        r#"
network:
  mode: filtered
"#,
    );

    let config = from_policy(policy).expect("policy parses");

    assert_eq!(config.network, NetworkPolicy::Blocked);
}

#[test]
fn access_grant_defaults_to_header_inject_mode() {
    let policy = policy(
        r#"
access:
  cratesio:
    secret: CARGO_REGISTRY_TOKEN
    url: https://crates.io
    allow:
      - GET /api/v1/crates
"#,
    );

    let config = from_policy(policy).expect("Policy should parse correctly");

    assert_eq!(config.access[0].inject_mode, SupportedInjectMode::Header);
}

#[test]
fn basic_auth_inject_mode_maps_and_serializes_as_snake_case() {
    let policy = policy(
        r#"
access:
  cratesio:
    secret: CARGO_REGISTRY_TOKEN
    url: https://crates.io
    inject:
      mode: basic_auth
    allow:
      - GET /api/v1/crates
"#,
    );

    let config = from_policy(policy).expect("Policy should parse correctly");

    assert_eq!(config.access[0].inject_mode, SupportedInjectMode::BasicAuth);
    assert_eq!(InjectMode::BasicAuth.wire_name(), "basic_auth");
}

#[test]
fn unsupported_inject_mode_fails_closed() {
    let policy = policy(
        r#"
access:
  cratesio:
    secret: CARGO_REGISTRY_TOKEN
    url: https://crates.io
    inject:
      mode: url_path
    allow:
      - GET /api/v1/crates
"#,
    );

    let err = from_policy(policy)
        .err()
        .expect("unsupported inject mode must fail");

    assert!(
        err.message()
            .contains("inject.mode 'url_path', which is not yet supported"),
        "unexpected error: {err:?}"
    );
}

#[test]
fn policy_yaml_over_size_limit_fails_before_parsing() {
    let yaml = " ".repeat(MAX_POLICY_YAML_BYTES + 1);

    let err = check_policy_size(&yaml).expect_err("oversized policy must fail");

    assert!(
        err.message().contains("RUNSEAL_POLICY is too large"),
        "unexpected error: {err:?}"
    );
    assert_eq!(
        err.message(),
        "RUNSEAL_POLICY is too large (65537 bytes); maximum is 65536 bytes"
    );
}

#[test]
fn a_policy_at_the_size_limit_passes() {
    assert!(check_policy_size(&" ".repeat(MAX_POLICY_YAML_BYTES)).is_ok());
    assert!(check_policy_size(&"\u{e9}".repeat(MAX_POLICY_YAML_BYTES / 2 + 1)).is_err());
}

#[test]
fn lists_with_commas_are_trimmed_and_blank_items_dropped() {
    assert_eq!(split_csv(Some(" a, b ,, \u{a0},c")), vec!["a", "b", "c"]);
    assert!(split_csv(Some("")).is_empty());
    assert!(split_csv(None).is_empty());
}

#[test]
fn network_input_is_blocked_unless_it_lists_domains() {
    assert_eq!(parse_network(None), NetworkPolicy::Blocked);
    assert_eq!(parse_network(Some("  ")), NetworkPolicy::Blocked);
    assert_eq!(parse_network(Some(" blocked ")), NetworkPolicy::Blocked);
    assert_eq!(
        parse_network(Some("a.com, b.com")),
        NetworkPolicy::AllowDomains(vec!["a.com".to_string(), "b.com".to_string()])
    );
}

#[test]
fn urls_need_a_scheme_of_the_web() {
    assert_eq!(validate_url("https://crates.io//").unwrap(), "https://crates.io");
    assert_eq!(validate_url("http://a/b").unwrap(), "http://a/b");
    assert_eq!(
        validate_url("ftp://a").unwrap_err().message(),
        "access url 'ftp://a' must start with 'https://' or 'http://'"
    );
}

#[test]
fn endpoint_rules_have_a_method_and_a_path() {
    let rules = parse_allow_rules(&vec!["PUT  /a b".to_string()]).expect("rule");
    assert_eq!(rules[0].method, "PUT");
    assert_eq!(rules[0].path, "/a b");
    for line in ["GET", "GET ", " /path"] {
        let err = parse_allow_rules(&vec!["GET /".to_string(), line.to_string()])
            .err()
            .expect("malformed rule");
        assert_eq!(
            err.message(),
            format!("access allow rule '{line}' must be formatted as 'METHOD /path'")
        );
    }
}

#[test]
fn every_inject_mode_has_its_wire_name() {
    assert_eq!(InjectMode::Header.wire_name(), "header");
    assert_eq!(InjectMode::UrlPath.wire_name(), "url_path");
    assert_eq!(InjectMode::QueryParam.wire_name(), "query_param");
}

#[test]
fn blank_variables_count_as_unset() {
    assert_eq!(env_value(&None), None);
    assert_eq!(env_value(&set(" \n")), None);
    assert_eq!(env_value(&set(" a ")), Some(" a "));
}

#[test]
fn a_command_is_required() {
    assert_eq!(
        unset().policy_source().unwrap_err().message(),
        "RUNSEAL_RUN is required"
    );
    assert_eq!(
        RunConfig::from_action_env(&unset(), LoadedSource::Inputs)
            .err()
            .expect("no command")
            .message(),
        "RUNSEAL_RUN is required"
    );
}

#[test]
fn the_policy_comes_from_one_source() {
    let env = |profile: Option<String>, policy: Option<String>, workspace: Option<String>| ActionEnv {
        run: set("true"),
        profile,
        policy,
        workspace,
        ..unset()
    };
    assert_eq!(
        env(None, None, None).policy_source().unwrap(),
        PolicySource::Inputs
    );
    assert_eq!(
        env(None, set("fs: {}"), None).policy_source().unwrap(),
        PolicySource::Policy("fs: {}".to_string())
    );
    assert_eq!(
        env(set("runseal.json"), set(" "), None).policy_source().unwrap(),
        PolicySource::Profile {
            input: "runseal.json".to_string(),
            workspace: ".".to_string()
        }
    );
    assert_eq!(
        env(set("p.json"), None, set("/work")).policy_source().unwrap(),
        PolicySource::Profile {
            input: "p.json".to_string(),
            workspace: "/work".to_string()
        }
    );
}

#[test]
fn separate_inputs_make_a_run() {
    let env = ActionEnv {
        run: set("make"),
        fs_read: set(".,/usr"),
        legacy_fs_write: set("dist"),
        network: set("a.com"),
        audit: set("true"),
        ..unset()
    };

    let config = RunConfig::from_action_env(&env, LoadedSource::Inputs).expect("config");

    assert_eq!(config.command, "make");
    assert_eq!(config.fs_read, vec![".", "/usr"]);
    assert_eq!(config.fs_write, vec!["dist"]);
    assert_eq!(
        config.network,
        NetworkPolicy::AllowDomains(vec!["a.com".to_string()])
    );
    assert!(config.access.is_empty());
    assert_eq!(
        config.audit,
        AuditConfig::Artifact {
            dir: "runseal-audit".to_string()
        }
    );
    assert!(config.repo_profile.is_none());
}

#[test]
fn newer_variables_take_precedence_over_older_ones() {
    let env = ActionEnv {
        run: set("new"),
        legacy_command: set("old"),
        fs_read: set(" "),
        legacy_fs_read: set("old"),
        ..unset()
    };

    let config = RunConfig::from_action_env(&env, LoadedSource::Inputs).expect("config");

    assert_eq!(config.command, "new");
    assert_eq!(config.fs_read, vec!["old"]);
}

#[test]
fn a_policy_makes_a_run() {
    let env = ActionEnv {
        run: set("make"),
        audit: set("artifact"),
        audit_dir: set("evidence"),
        policy: set("fs:\n  read: [\".\"]\n  write: [\"dist\"]\n"),
        ..unset()
    };
    let policy = policy(env.policy.as_deref().expect("policy"));

    let config = RunConfig::from_action_env(&env, LoadedSource::Policy(policy)).expect("config");

    assert_eq!(config.fs_read, vec!["."]);
    assert_eq!(config.fs_write, vec!["dist"]);
    assert_eq!(config.network, NetworkPolicy::Blocked);
    assert_eq!(
        config.audit,
        AuditConfig::Artifact {
            dir: "evidence".to_string()
        }
    );
}

#[test]
fn two_policy_sources_make_no_run() {
    let env = ActionEnv {
        run: set("make"),
        profile: set("runseal.json"),
        policy: set("fs: {}"),
        ..unset()
    };
    for loaded in [LoadedSource::Inputs, LoadedSource::Policy(policy("{}"))] {
        assert_eq!(
            RunConfig::from_action_env(&env, loaded)
                .err()
                .expect("two sources")
                .message(),
            "RUNSEAL_PROFILE and RUNSEAL_POLICY are both set; name exactly one policy source"
        );
    }
}

#[test]
fn what_was_loaded_has_to_come_from_the_source() {
    let env = ActionEnv {
        run: set("make"),
        policy: set("fs: {}"),
        ..unset()
    };
    assert_eq!(
        RunConfig::from_action_env(&env, LoadedSource::Inputs)
            .err()
            .expect("another source")
            .message(),
        "what was loaded does not come from the policy source"
    );
}

#[test]
fn credentials_stand_in_the_order_of_their_names() {
    let grant = |name: &str| {
        format!("  {name}:\n    secret: S\n    url: https://a\n    allow: [GET /]\n")
    };
    let yaml = format!("access:\n{}{}{}", grant("npm"), grant("b"), grant("cratesio"));

    let config = from_policy(policy(&yaml)).expect("config");

    let names: Vec<&str> = config.access.iter().map(|a| a.name.as_str()).collect();
    assert_eq!(names, vec!["b", "cratesio", "npm"]);
}

#[test]
fn a_policy_that_cannot_be_read_is_told() {
    assert_eq!(
        invalid_policy(Error::new("unknown field")).message(),
        "RUNSEAL_POLICY is not valid runseal policy YAML: unknown field"
    );
}

#[test]
fn names_of_network_modes_are_no_domains() {
    assert_eq!(
        validate_domain_allowlist(vec!["a.com".to_string(), " filtered".to_string()])
            .unwrap_err()
            .message(),
        "' filtered' is not a domain; it names a network mode"
    );
    assert_eq!(
        validate_domain_allowlist(vec!["a.com".to_string()]).unwrap(),
        vec!["a.com"]
    );
}
