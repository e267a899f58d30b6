use runseal::error::Error;
use runseal::files::{FileKind, Query, Reply};
use runseal::load::{load, Loader, MAX_PROFILE_JSON_BYTES};
use runseal::normalize::{EntryState, Normalizer, PathField};
use runseal::repo_profile::{
    parse, sibling_path, BaseProfile, Filesystem, RepoProfile, BASE_NAME, SIBLING_MODE,
};
use std::collections::BTreeMap;

const WORKSPACE: &str = "/work";

enum Node {
    Dir,
    File(String),
    Link(String),
}

/// A file system in memory.
struct Fake {
    nodes: BTreeMap<String, Node>,
}

impl Fake {
    fn new() -> Self {
        Fake {
            nodes: BTreeMap::new(),
        }
        .dir("/")
        .dir(WORKSPACE)
    }

    fn dir(mut self, path: &str) -> Self {
        self.nodes.insert(path.to_string(), Node::Dir);
        self
    }

    fn file(mut self, path: &str, contents: &str) -> Self {
        self.nodes
            .insert(path.to_string(), Node::File(contents.to_string()));
        self
    }

    fn link(mut self, path: &str, target: &str) -> Self {
        self.nodes
            .insert(path.to_string(), Node::Link(target.to_string()));
        self
    }

    fn missing() -> Reply {
        Reply::Missing("No such file or directory (os error 2)".to_string())
    }

    /// Where a path leads; the last link is followed only if asked for.
    fn find(&self, path: &str, follow: bool) -> Option<String> {
        let mut todo: Vec<String> = path.split('/').rev().map(str::to_string).collect();
        let mut at = String::new();
        let mut links = 0;
        while let Some(name) = todo.pop() {
            match name.as_str() {
                "" | "." => {}
                ".." => at.truncate(at.rfind('/').unwrap_or(0)),
                _ => {
                    let next = format!("{at}/{name}");
                    match self.nodes.get(&next)? {
                        Node::Link(target) if follow || !todo.is_empty() => {
                            links += 1;
                            if links > 40 {
                                return None;
                            }
                            if target.starts_with('/') {
                                at.clear();
                            }
                            todo.extend(target.split('/').rev().map(str::to_string));
                        }
                        Node::File(_) if !todo.is_empty() => return None,
                        _ => at = next,
                    }
                }
            }
        }
        if at.is_empty() {
            at.push('/');
        }
        Some(at)
    }

    fn inspect(&self, path: Option<String>) -> Reply {
        match path.and_then(|path| self.nodes.get(&path)) {
            None => Fake::missing(),
            Some(Node::Dir) => Reply::Metadata(FileKind::Directory, 0),
            Some(Node::File(text)) => Reply::Metadata(FileKind::File, text.len() as u64),
            Some(Node::Link(_)) => Reply::Metadata(FileKind::Other, 0),
        }
    }

    fn answer(&self, query: Query) -> Reply {
        let text = |path: Vec<u8>| String::from_utf8(path).expect("text");
        match query {
            Query::Canonicalize(path) => match self.find(&text(path), true) {
                Some(path) => Reply::Path(path.into_bytes()),
                None => Fake::missing(),
            },
            Query::Metadata(path) => self.inspect(self.find(&text(path), true)),
            Query::LinkMetadata(path) => self.inspect(self.find(&text(path), false)),
            Query::ReadText(path) => {
                match self
                    .find(&text(path), true)
                    .and_then(|path| self.nodes.get(&path))
                {
                    Some(Node::File(text)) => Reply::Text(text.clone()),
                    _ => Fake::missing(),
                }
            }
        }
    }

    fn load(&self, input: &str) -> Result<RepoProfile, Error> {
        let mut loader: Loader = load(input, &WORKSPACE.as_bytes().to_vec());
        while let Some(query) = loader.query() {
            loader = loader.step(self.answer(query));
        }
        loader.finish().expect("settled")
    }

    fn normalize_path(&self, entry: &str) -> Result<String, Error> {
        let mut state = EntryState::start(PathField::Read, entry, &WORKSPACE.as_bytes().to_vec());
        while let Some(query) = state.query() {
            state = state.step(self.answer(query));
        }
        match state {
            EntryState::Settled(result) => result,
            _ => panic!("not settled"),
        }
    }

    fn parse(&self, json: &str) -> Result<BaseProfile, Error> {
        let mut state = Normalizer::start(parse(json)?, &WORKSPACE.as_bytes().to_vec());
        while let Some(query) = state.query() {
            state = state.step(self.answer(query));
        }
        match state {
            Normalizer::Settled(result) => result,
            _ => panic!("not settled"),
        }
    }
}

fn load_contents(contents: &str) -> Result<RepoProfile, Error> {
    Fake::new()
        .file("/work/runseal.json", contents)
        .load("runseal.json")
}

fn rejection(contents: &str) -> String {
    load_contents(contents)
        .err()
        .expect("profile must be rejected")
        .message
}

fn filesystem(profile: &BaseProfile) -> &Filesystem {
    profile.filesystem.as_ref().expect("filesystem")
}

#[test]
fn minimal_profile_loads() {
    let profile =
        load_contents(r#"{"network":{"allow_domain":["example.com"]}}"#).expect("profile loads");

    assert!(profile.allows_domains());
}

#[test]
fn metadata_without_a_name_gets_a_nono_compatible_default() {
    for (input, description) in [
        (r#"{"meta":{}}"#, None),
        (
            r#"{"meta":{"description":"Build sandbox"}}"#,
            Some("Build sandbox"),
        ),
    ] {
        let profile = load_contents(input).expect("profile loads").profile;
        let meta = profile.meta.expect("meta");
        assert_eq!(meta.name.as_deref(), Some(BASE_NAME));
        assert_eq!(meta.description.as_deref(), description);
    }
    let profile = load_contents(r#"{"meta":{"name":"my-build"}}"#).expect("profile loads");
    assert_eq!(
        profile.profile.meta.expect("meta").name.as_deref(),
        Some("my-build")
    );
    let profile = load_contents("{}").expect("profile loads");
    assert!(profile.profile.meta.is_none());
}

#[test]
fn profile_without_domains_does_not_allow_domains() {
    let profile = load_contents(r#"{"filesystem":{"read":["/usr"]}}"#).expect("profile loads");

    assert!(!profile.allows_domains());
}

#[test]
fn capability_granting_keys_are_rejected_with_a_reason() {
    for (key, fragment) in [
        (r#""binary":"/bin/sh""#, "replace the command"),
        (
            r#""session_hooks":{"before":"/tmp/hook.sh"}"#,
            "outside the sandbox",
        ),
        (r#""command_args":["--yolo"]"#, "append arguments"),
        (
            r#""unsafe_macos_seatbelt_rules":["(allow default)"]"#,
            "unrestricted access",
        ),
        (r#""command_policies":{}"#, "merge base-first"),
        (r#""groups":{"exclude":["deny_credentials"]}"#, "sticky"),
        (r#""hooks":{}"#, "hook configuration"),
        (r#""packs":["a/b"]"#, "pack references"),
        (r#""platform_overrides":{}"#, "reintroduce any rejected key"),
        (r#""security":{}"#, "runseal's to set"),
        (r#""workdir":{}"#, "runs the command in the workspace"),
        (r#""extends":"developer""#, "supplies the base profile"),
    ] {
        let error = rejection(&format!("{{{key}}}"));
        assert!(
            error.contains("is not permitted") && error.contains(fragment),
            "unexpected error for {key}: {error}"
        );
    }
}

#[test]
fn unknown_top_level_key_is_rejected() {
    let error = rejection(r#"{"nonsense":true}"#);

    assert!(
        error.contains("profile key 'nonsense' is not permitted"),
        "unexpected error: {error}"
    );
}

#[test]
fn filesystem_allow_points_at_read_and_write() {
    for key in ["allow", "allow_file"] {
        let error = rejection(&format!(r#"{{"filesystem":{{"{key}":["/tmp"]}}}}"#));

        assert!(
            error.contains(&format!("profile key 'filesystem.{key}' is not permitted"))
                && error.contains("separately"),
            "unexpected error: {error}"
        );
    }
}

#[test]
fn filesystem_bypass_protection_is_rejected() {
    let error = rejection(r#"{"filesystem":{"bypass_protection":["/etc"]}}"#);

    assert!(
        error.contains("removes nono's own deny rules"),
        "unexpected error: {error}"
    );
}

#[test]
fn network_credential_keys_are_rejected() {
    for key in ["credentials", "custom_credentials", "proxy_credentials"] {
        let error = rejection(&format!(r#"{{"network":{{"{key}":{{}}}}}}"#));

        assert!(
            error.contains("instead of 'profile'"),
            "unexpected error for {key}: {error}"
        );
    }
}

#[test]
fn network_allow_domain_aliases_are_rejected() {
    for key in ["proxy_allow", "allow_proxy"] {
        let error = rejection(&format!(r#"{{"network":{{"{key}":["example.com"]}}}}"#));

        assert!(
            error.contains("canonical key 'allow_domain'"),
            "unexpected error for {key}: {error}"
        );
    }
}

#[test]
fn network_block_false_is_rejected_because_it_is_a_no_op() {
    let error = rejection(r#"{"network":{"block":false}}"#);

    assert!(error.contains("has no effect"), "unexpected error: {error}");
}

#[test]
fn network_block_true_with_allow_domain_fails_closed() {
    let error = rejection(r#"{"network":{"block":true,"allow_domain":["example.com"]}}"#);

    assert!(
        error.contains("cannot be combined"),
        "unexpected error: {error}"
    );
}

#[test]
fn network_block_true_alone_is_accepted() {
    let profile = load_contents(r#"{"network":{"block":true}}"#).expect("profile loads");

    assert!(!profile.allows_domains());
}

#[test]
fn allow_domain_rejects_mode_keywords() {
    let error = rejection(r#"{"network":{"allow_domain":["blocked"]}}"#);

    assert!(
        error.contains("is not a domain"),
        "unexpected error: {error}"
    );
}

#[test]
fn relative_filesystem_entries_are_rewritten_against_the_workspace() {
    let files = Fake::new().dir("/work/dist").file(
        "/work/runseal.json",
        r#"{"filesystem":{"read":["./src"],"write":["dist"],"deny":["./src/secret.txt"]}}"#,
    );

    let profile = files.load("runseal.json").expect("profile loads");
    let filesystem = filesystem(&profile.profile);

    assert_eq!(filesystem.read, vec!["/work/src"]);
    assert_eq!(filesystem.write, vec!["/work/dist"]);
    assert_eq!(filesystem.deny, vec!["/work/src/secret.txt"]);
}

#[test]
fn write_targets_must_exist_and_match_the_declared_type() {
    let files = Fake::new()
        .dir("/work/dist")
        .file("/work/result.txt", "keep");
    let list = |profile: &BaseProfile, field: &str| {
        let filesystem = filesystem(profile);
        match field {
            "write" => filesystem.write.clone(),
            _ => filesystem.write_file.clone(),
        }
    };
    for (field, target) in [("write", "dist"), ("write_file", "result.txt")] {
        for entry in [target.to_string(), format!("/work/{target}")] {
            let profile = files
                .parse(&format!(r#"{{"filesystem":{{"{field}":["{entry}"]}}}}"#))
                .expect("accepted");
            assert_eq!(list(&profile, field), vec![format!("/work/{target}")]);
        }
        for entry in ["missing", "/work/missing"] {
            let error = files
                .parse(&format!(r#"{{"filesystem":{{"{field}":["{entry}"]}}}}"#))
                .err()
                .expect("missing target");
            assert!(
                error
                    .message()
                    .contains("create the target before running runseal"),
                "{error:?}"
            );
        }
    }
    for (field, entry) in [("write", "result.txt"), ("write_file", "dist")] {
        assert!(files
            .parse(&format!(r#"{{"filesystem":{{"{field}":["{entry}"]}}}}"#))
            .is_err());
    }
}

#[test]
fn relative_write_targets_stay_in_the_workspace() {
    let files = Fake::new()
        .dir("/outside")
        .dir("/work/real")
        .link("/work/out", "/outside")
        .link("/work/alias", "real");
    let parse = |entry: &str| files.parse(&format!(r#"{{"filesystem":{{"write":["{entry}"]}}}}"#));

    let profile = parse("alias").expect("accepted");
    assert_eq!(filesystem(&profile).write, vec!["/work/real"]);
    for entry in ["out", "alias/../../outside", "../outside"] {
        let error = parse(entry).err().expect("outside the workspace");
        assert!(
            error.message().contains("resolves outside the workspace '/work'"),
            "{error:?}"
        );
    }
}

#[test]
fn write_targets_cannot_defer_validation_to_nono() {
    for field in ["write", "write_file"] {
        for entry in ["$HOME/dist", "~/dist", "/tmp/*", "/tmp/$OUTPUT"] {
            assert!(Fake::new()
                .parse(&format!(r#"{{"filesystem":{{"{field}":["{entry}"]}}}}"#))
                .is_err());
        }
    }
}

#[test]
fn relative_entry_escaping_the_workspace_fails_closed() {
    let error = rejection(r#"{"filesystem":{"read":["../../etc"]}}"#);

    assert!(
        error.contains("outside the workspace"),
        "unexpected error: {error}"
    );
}

#[test]
fn relative_symlink_grants_cannot_escape_workspace() {
    let files = Fake::new()
        .dir("/outside")
        .link("/work/external", "/outside");
    for entry in ["external", "external/new/file", "external/../file"] {
        assert!(files.normalize_path(entry).is_err(), "accepted {entry}");
    }
}

#[test]
fn relative_symlink_parent_uses_resolved_target() {
    let files = Fake::new()
        .dir("/work/actual")
        .dir("/work/actual/child")
        .link("/work/alias", "/work/actual/child");
    assert_eq!(
        files.normalize_path("alias/../new").unwrap(),
        "/work/actual/new"
    );
    assert_eq!(
        files.normalize_path("alias/new/file").unwrap(),
        "/work/actual/child/new/file"
    );
}

#[test]
fn unresolved_relative_paths_fail_closed() {
    let files = Fake::new().link("/work/dangling", "/work/missing");
    for entry in [
        "dangling/new",
        "missing/../new",
        "*/new",
        "dir?/new",
        "[ab]/new",
    ] {
        assert!(files.normalize_path(entry).is_err(), "accepted {entry}");
    }
}

#[test]
fn absolute_and_expandable_entries_pass_through_verbatim() {
    let profile =
        load_contents(r#"{"filesystem":{"read":["/usr","~/.cache/tool","$HOME/.npm"]}}"#)
            .expect("profile loads");

    assert_eq!(
        filesystem(&profile.profile).read,
        vec!["/usr", "~/.cache/tool", "$HOME/.npm"]
    );
}

#[test]
fn braced_variables_are_rejected() {
    let error = rejection(r#"{"filesystem":{"read":["${HOME}/.cache"]}}"#);

    assert!(
        error.contains("is not expanded by nono"),
        "unexpected error: {error}"
    );
}

#[test]
fn empty_filesystem_entry_is_rejected() {
    let error = rejection(r#"{"filesystem":{"read":["  "]}}"#);

    assert!(
        error.contains("must not be empty"),
        "unexpected error: {error}"
    );
}

#[test]
fn jsonc_is_rejected_with_a_pointed_error() {
    let error = rejection("{\n  // a comment\n  \"network\": {}\n}");

    assert!(error.contains("strict JSON"), "unexpected error: {error}");
}

#[test]
fn non_object_profile_is_rejected() {
    let error = rejection("[]");

    assert!(
        error.contains("must be a JSON object"),
        "unexpected error: {error}"
    );
}

#[test]
fn missing_profile_is_an_error() {
    let err = Fake::new()
        .load("runseal.json")
        .err()
        .expect("missing profile must fail");

    assert!(
        err.message().contains("was not found"),
        "unexpected error: {err:?}"
    );
}

#[test]
fn absolute_profile_input_is_rejected() {
    let err = Fake::new()
        .load("/etc/passwd")
        .err()
        .expect("absolute input must fail");

    assert!(
        err.message().contains("relative to the workspace"),
        "unexpected error: {err:?}"
    );
}

#[test]
fn traversing_profile_input_is_rejected() {
    let err = Fake::new()
        .load("../runseal.json")
        .err()
        .expect("traversal must fail");

    assert!(
        err.message().contains("must not traverse"),
        "unexpected error: {err:?}"
    );
}

#[test]
fn symlink_out_of_the_workspace_is_rejected() {
    let err = Fake::new()
        .dir("/outside")
        .file("/outside/evil.json", r#"{"filesystem":{"read":["/"]}}"#)
        .link("/work/runseal.json", "/outside/evil.json")
        .load("runseal.json")
        .err()
        .expect("symlink escape must fail");

    assert!(
        err.message().contains("outside the workspace"),
        "unexpected error: {err:?}"
    );
}

#[test]
fn directory_profile_is_rejected() {
    let err = Fake::new()
        .dir("/work/runseal.json")
        .load("runseal.json")
        .err()
        .expect("directory must fail");

    assert!(
        err.message().contains("not a regular file"),
        "unexpected error: {err:?}"
    );
}

#[test]
fn oversized_profile_is_rejected() {
    let padding = "x".repeat(MAX_PROFILE_JSON_BYTES as usize);

    let error = rejection(&format!(r#"{{"meta":{{"description":"{padding}"}}}}"#));

    assert!(error.contains("too large"), "unexpected error: {error}");
}

#[test]
fn schema_hint_is_accepted_and_dropped() {
    let profile =
        load_contents(r#"{"$schema":"https://nono.sh/schema.json"}"#).expect("profile loads");

    assert!(profile.profile.meta.is_none());
    assert!(profile.profile.filesystem.is_none());
    assert!(profile.profile.network.is_none());
}

#[test]
fn sibling_is_written_under_the_extended_name_and_is_private() {
    let profile = load_contents(r#"{"filesystem":{"read":["/usr"]}}"#).expect("profile loads");

    assert_eq!(
        sibling_path(&b"/creds".to_vec()),
        b"/creds/runseal-repo.json".to_vec()
    );
    assert_eq!(
        SIBLING_MODE, 0o600,
        "sibling profile must not be readable by others"
    );
    assert_eq!(filesystem(&profile.profile).read[0], "/usr");
}

#[test]
fn the_source_is_the_real_path_of_the_profile() {
    let profile = Fake::new()
        .dir("/work/ci")
        .file("/work/ci/profile.json", "{}")
        .link("/work/runseal.json", "ci/profile.json")
        .load(" runseal.json ")
        .expect("profile loads");

    assert_eq!(profile.source(), &b"/work/ci/profile.json".to_vec());
}

#[test]
fn an_empty_input_names_no_profile() {
    assert_eq!(
        Fake::new().load("  ").err().expect("empty input").message(),
        "profile input is empty; name a profile file such as 'runseal.json'"
    );
}

#[test]
fn a_missing_workspace_is_told() {
    let mut loader = load("runseal.json", &b"/gone".to_vec());
    while let Some(query) = loader.query() {
        loader = loader.step(Fake::new().answer(query));
    }
    assert_eq!(
        loader.finish().unwrap().err().expect("no workspace").message(),
        "failed to resolve the workspace '/gone': No such file or directory (os error 2)"
    );
}

#[test]
fn rejections_name_the_profile() {
    assert!(rejection(r#"{"nonsense":true}"#)
        .starts_with("profile '/work/runseal.json' was rejected: "));
}

#[test]
fn all_lists_keep_their_entries_in_order() {
    let files = Fake::new().dir("/work/a").dir("/work/b").file("/work/f", "");

    let profile = files
        .parse(
            r#"{"filesystem":{"read":["a","/r"],"write":["b","a"],"read_file":["f"],
                "write_file":["f"],"deny":["/d","b"]}}"#,
        )
        .expect("accepted");
    let filesystem = filesystem(&profile);

    assert_eq!(filesystem.read, vec!["/work/a", "/r"]);
    assert_eq!(filesystem.write, vec!["/work/b", "/work/a"]);
    assert_eq!(filesystem.read_file, vec!["/work/f"]);
    assert_eq!(filesystem.write_file, vec!["/work/f"]);
    assert_eq!(filesystem.deny, vec!["/d", "/work/b"]);
}

#[test]
fn entries_of_the_wrong_type_are_rejected() {
    for json in [
        r#"{"filesystem":{"read":"src"}}"#,
        r#"{"filesystem":{"read":[1]}}"#,
        r#"{"filesystem":3}"#,
        r#"{"meta":{"name":1}}"#,
        r#"{"network":{"block":"yes"}}"#,
        r#"{"network":true}"#,
    ] {
        assert!(parse(json).is_err(), "accepted {json}");
    }
}

/// What `serde_json` says of a number in a place that holds something else.
fn told_of(number: &str, expected: &str) -> String {
    let value: serde_json::Value = serde_json::from_str(number).expect("number");
    let told = serde_json::from_value::<bool>(value).expect_err("a number");
    told.to_string().replace("a boolean", expected)
}

#[test]
fn numbers_are_told_as_they_are_read_once() {
    for i in 0..200_u64 {
        let digits = i * 91_234_567_890_123 + 9_007_199_254_740_993;
        let number = format!("0.{digits}e{}", 250 + i % 40);
        for (json, expected) in [
            (format!(r#"{{"filesystem":{number}}}"#), "struct Filesystem"),
            (format!(r#"{{"meta":{number}}}"#), "struct Meta"),
            (format!(r#"{{"network":{number}}}"#), "struct Network"),
            (format!(r#"{{"meta":{{"name":{number}}}}}"#), "a string"),
            (format!(r#"{{"meta":["n",{number}]}}"#), "a string"),
            (format!(r#"{{"network":{{"block":{number}}}}}"#), "a boolean"),
            (format!(r#"{{"network":[[],{number}]}}"#), "a boolean"),
            (format!(r#"{{"filesystem":{{"read":{number}}}}}"#), "a sequence"),
            (format!(r#"{{"filesystem":{{"deny":["d",{number}]}}}}"#), "a string"),
        ] {
            let err = parse(&json).err().expect("wrong type");
            let told = told_of(&number, expected);
            assert!(err.message().contains(&told), "{json} was told as {}", err.message());
        }
    }
}

#[test]
fn wrong_types_are_told_as_serde_json_tells_them() {
    for (json, told) in [
        (
            r#"{"filesystem":3}"#,
            "invalid type: integer `3`, expected struct Filesystem",
        ),
        (
            r#"{"meta":"x"}"#,
            "invalid type: string \"x\", expected struct Meta",
        ),
        (
            r#"{"network":true}"#,
            "invalid type: boolean `true`, expected struct Network",
        ),
        (
            r#"{"network":{"block":1}}"#,
            "invalid type: integer `1`, expected a boolean",
        ),
        (
            r#"{"filesystem":{"deny":"x"}}"#,
            "invalid type: string \"x\", expected a sequence",
        ),
        (
            r#"{"meta":["a","b","c"]}"#,
            "invalid length 3, expected fewer elements in array",
        ),
    ] {
        assert_eq!(parse(json).err().expect("wrong type").message(), told);
    }
}

#[test]
fn sections_may_be_given_as_arrays() {
    let profile = parse(r#"{"meta":["a"],"filesystem":[["/r"],["/w"]],"network":[["a.com"]]}"#)
        .expect("accepted");

    assert_eq!(profile.meta.expect("meta").name.as_deref(), Some("a"));
    let filesystem = profile.filesystem.expect("filesystem");
    assert_eq!(filesystem.read, vec!["/r"]);
    assert_eq!(filesystem.write, vec!["/w"]);
    assert!(filesystem.deny.is_empty());
    assert_eq!(profile.network.expect("network").allow_domain, vec!["a.com"]);
}

#[test]
fn null_sections_count_as_left_out() {
    let profile = parse(r#"{"meta":null,"filesystem":null,"network":{"block":null}}"#)
        .expect("accepted");

    assert!(profile.meta.is_none());
    assert!(profile.filesystem.is_none());
    assert_eq!(profile.network.expect("network").block, None);
}

#[test]
fn a_reply_that_does_not_fit_fails() {
    let loader = load("runseal.json", &WORKSPACE.as_bytes().to_vec());
    let loader = loader.step(Reply::Text("?".to_string()));
    assert_eq!(
        loader.finish().unwrap().err().expect("unfit reply").message(),
        "failed to resolve the workspace '/work': the reply does not fit the question"
    );
}

#[test]
fn a_workspace_that_is_not_text_is_shown_with_replacements() {
    let loader = load("runseal.json", &vec![47, 255]);
    let loader = loader.step(Reply::Failed("denied".to_string()));
    assert_eq!(
        loader.finish().unwrap().err().expect("failed").message(),
        "failed to resolve the workspace '/\u{fffd}': denied"
    );
}
