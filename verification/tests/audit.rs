use runseal::audit::{
    export_sessions, is_valid_session_id, parse_audit_list_json, parse_plain_listing,
    parse_session_id, validate_session_id, AuditExport, AuditSnapshot, CommandOutput, ExportAction,
    Exporter, Listing,
};
use runseal::error::Error;
use std::collections::BTreeMap;

/// The `session_id` of each entry of a listing.
fn entries(json: &str) -> Result<Vec<String>, Error> {
    let value: serde_json::Value = match serde_json::from_str(json) {
        Ok(value) => value,
        Err(e) => return Err(Error::new(&e.to_string())),
    };
    let mut ids = Vec::new();
    for entry in value.as_array().ok_or(Error::new("expected a sequence"))? {
        match entry["session_id"].as_str() {
            Some(id) => ids.push(id.to_string()),
            None => return Err(Error::new("missing field `session_id`")),
        }
    }
    Ok(ids)
}

fn parse_listing(json: &str) -> Result<Vec<String>, Error> {
    parse_audit_list_json(json, entries(json))
}

fn output(success: bool, stdout: &str, stderr: &str) -> CommandOutput {
    CommandOutput {
        success,
        stdout: stdout.as_bytes().to_vec(),
        stderr: stderr.as_bytes().to_vec(),
    }
}

fn texts(items: &[&str]) -> Vec<String> {
    items.iter().map(|item| item.to_string()).collect()
}

/// Runs an export to its end on a sandbox that shows the sessions in `shown`, and fails for others.
fn run_export(
    start: Exporter,
    shown: &[(&str, &str)],
) -> (Result<(), Error>, BTreeMap<String, String>) {
    let mut files = BTreeMap::new();
    let mut exporter = start;
    loop {
        match exporter.action() {
            None => return (exporter.finish().expect("ended"), files),
            Some(ExportAction::CreateDir) => exporter = exporter.made(Ok(())),
            Some(ExportAction::Show(session)) => {
                let reply = match shown.iter().find(|(id, _)| *id == session) {
                    Some((_, json)) => output(true, json, ""),
                    None => output(false, "", "no such session"),
                };
                exporter = exporter.shown(Ok(reply));
            }
            Some(ExportAction::Write { name, contents }) => {
                files.insert(name, String::from_utf8(contents).expect("text"));
                exporter = exporter.made(Ok(()));
            }
        }
    }
}

#[test]
fn parses_session_id_from_plain_line() {
    assert_eq!(
        parse_session_id("20260511-125727-22312 blocked command"),
        Some("20260511-125727-22312")
    );
}

#[test]
fn parses_session_id_after_prefix_columns() {
    assert_eq!(
        parse_session_id("session 20260511-125727-22312"),
        Some("20260511-125727-22312")
    );
}

#[test]
fn a_line_without_an_id_names_no_session() {
    assert_eq!(parse_session_id("no session here"), None);
    assert_eq!(parse_session_id(""), None);
    assert_eq!(parse_session_id(" \t "), None);
}

#[test]
fn parses_session_ids_from_json_list() {
    let sessions = parse_listing(
        r#"[
              {
                "session_id": "20260606-184133-1234",
                "command": "bash -c cargo publish"
              },
              {
                "session_id": "20260606-184200-5678",
                "command": "true"
              }
            ]"#,
    )
    .expect("parse json");

    assert_eq!(
        sessions,
        vec!["20260606-184133-1234", "20260606-184200-5678"]
    );
}

#[test]
fn rejects_traversal_session_ids_from_json_list() {
    let err = parse_listing(
        r#"[
              {
                "session_id": "../../../../tmp/evil",
                "command": "true"
              }
            ]"#,
    )
    .expect_err("traversal session id must fail");

    assert!(
        err.message().contains("session id"),
        "unexpected error: {err:?}"
    );
}

#[test]
fn rejects_absolute_session_ids_from_json_list() {
    let err = parse_listing(
        r#"[
              {
                "session_id": "/tmp/evil",
                "command": "true"
              }
            ]"#,
    )
    .expect_err("absolute session id must fail");

    assert!(
        err.message().contains("session id"),
        "unexpected error: {err:?}"
    );
}

#[test]
fn export_rejects_invalid_session_ids_before_writing() {
    let export = AuditExport {
        sessions: vec!["../../evil".to_string()],
        used_latest_fallback: false,
    };

    let (result, files) = run_export(export_sessions(export, b"/out".to_vec()), &[]);

    let err = result.expect_err("invalid session id must fail");
    assert!(
        err.message().contains("session id"),
        "unexpected error: {err:?}"
    );
    assert!(files.is_empty(), "invalid session id must not be written");
}

#[test]
fn empty_json_list_output_has_no_sessions() {
    assert!(parse_listing("").unwrap().is_empty());
}

#[test]
fn blank_ids_in_a_json_list_are_passed_over() {
    let sessions = parse_listing(r#"[{"session_id":" "},{"session_id":"1-2"}]"#).expect("parse");

    assert_eq!(sessions, vec!["1-2"]);
}

#[test]
fn a_json_list_that_is_no_list_fails() {
    let err = parse_listing("{}").expect_err("an object is no list");

    assert_eq!(
        err.message(),
        "failed to parse nono audit list --json output: expected a sequence"
    );
}

#[test]
fn session_ids_are_digits_and_hyphens() {
    assert!(is_valid_session_id("20260511-125727-22312"));
    assert!(is_valid_session_id("-"));
    assert!(!is_valid_session_id(""));
    assert!(!is_valid_session_id("12a"));
    assert!(!is_valid_session_id("1/2"));
    assert_eq!(
        validate_session_id("a").unwrap_err().message(),
        "nono audit session id 'a' is invalid"
    );
}

#[test]
fn a_plain_listing_names_one_session_a_line() {
    assert_eq!(
        parse_plain_listing("ID COMMAND\n1-1 true\r\n  2-2 3-3\n\nnothing\n"),
        vec!["1-1", "2-2"]
    );
}

#[test]
fn listing_falls_back_to_plain_text() {
    match Listing::ran_json(Ok(output(true, "[]", ""))) {
        Listing::Entries(text) => assert_eq!(text, "[]"),
        _ => panic!("JSON was listed"),
    }
    assert!(matches!(
        Listing::ran_json(Ok(output(false, "[]", ""))),
        Listing::Plain
    ));
    match Listing::ran_json(Err(Error::new("not found"))) {
        Listing::Failed(e) => assert_eq!(e.message(), "failed to run nono audit list: not found"),
        _ => panic!("nothing was listed"),
    }
    assert_eq!(
        Listing::ran_plain(Ok(output(true, "1-1 a", "2-2 b"))).unwrap(),
        vec!["1-1", "2-2"]
    );
    assert!(Listing::ran_plain(Ok(output(false, "1-1 a", "")))
        .unwrap()
        .is_empty());
    assert_eq!(
        Listing::ran_plain(Err(Error::new("not found")))
            .unwrap_err()
            .message(),
        "failed to run nono audit list fallback: not found"
    );
}

#[test]
fn output_that_is_not_text_is_read_with_replacements() {
    let reply = CommandOutput {
        success: true,
        stdout: vec![91, 255, 93],
        stderr: Vec::new(),
    };
    match Listing::ran_json(Ok(reply)) {
        Listing::Entries(text) => assert_eq!(text, "[\u{fffd}]"),
        _ => panic!("JSON was listed"),
    }
}

#[test]
fn new_sessions_are_those_not_seen_before() {
    let before = AuditSnapshot::capture(Ok(texts(&["1", "2"])));

    let export = before.new_sessions_since(Ok(texts(&["4", "2", "3", "1"])));

    assert_eq!(export.sessions, vec!["4", "3"]);
    assert!(!export.used_latest_fallback);
}

#[test]
fn without_new_sessions_the_latest_is_exported() {
    let before = AuditSnapshot::capture(Ok(texts(&["1", "2"])));

    let export = before.new_sessions_since(Ok(texts(&["2", "1"])));

    assert_eq!(export.sessions, vec!["2"]);
    assert!(export.used_latest_fallback);
}

#[test]
fn a_failed_listing_counts_as_empty() {
    let before = AuditSnapshot::capture(Err(Error::new("no nono")));
    assert!(before.sessions.is_empty());

    let export = before.new_sessions_since(Err(Error::new("no nono")));

    assert!(export.sessions.is_empty());
    assert!(export.used_latest_fallback);
}

#[test]
fn export_writes_a_file_for_each_session_and_a_summary() {
    let export = AuditExport {
        sessions: texts(&["1-1", "2-2"]),
        used_latest_fallback: false,
    };

    let (result, files) = run_export(
        export_sessions(export, b"/out".to_vec()),
        &[("1-1", "{\"a\":1}")],
    );

    assert!(result.is_ok());
    assert_eq!(files["1-1.json"], "{\"a\":1}");
    assert_eq!(files["2-2.error.txt"], "no such session");
    assert_eq!(
        files["summary.md"],
        "# Runseal Audit Export\n\n- `1-1.json`\n- `2-2.error.txt`\n"
    );
    assert_eq!(files.len(), 3);
}

#[test]
fn the_summary_says_when_nothing_is_new() {
    let none = AuditExport {
        sessions: Vec::new(),
        used_latest_fallback: true,
    };
    let (result, files) = run_export(export_sessions(none, b"/out".to_vec()), &[]);
    assert!(result.is_ok());
    assert_eq!(
        files["summary.md"],
        "# Runseal Audit Export\n\nNo new nono audit sessions were detected.\n"
    );

    let latest = AuditExport {
        sessions: texts(&["1-1"]),
        used_latest_fallback: true,
    };
    let (result, files) = run_export(export_sessions(latest, b"/out".to_vec()), &[("1-1", "{}")]);
    assert!(result.is_ok());
    assert_eq!(
        files["summary.md"],
        "# Runseal Audit Export\n\nNo before/after session diff was detected; exported latest visible session.\n\n- `1-1.json`\n"
    );
}

#[test]
fn an_export_tells_which_step_failed() {
    let start = || {
        let export = AuditExport {
            sessions: texts(&["1-1"]),
            used_latest_fallback: false,
        };
        export_sessions(export, b"/out".to_vec())
    };
    let told = |exporter: Exporter| {
        assert!(exporter.action().is_none());
        exporter.finish().expect("ended").expect_err("failed").message
    };
    let full = || Err(Error::new("disk full"));

    assert_eq!(
        told(start().made(full())),
        "failed to create audit output dir '/out': disk full"
    );
    let showing = || start().made(Ok(()));
    assert_eq!(
        told(showing().shown(Err(Error::new("not found")))),
        "failed to run nono audit show 1-1 --json: not found"
    );
    assert_eq!(
        told(showing().shown(Ok(output(true, "{}", ""))).made(full())),
        "failed to write audit JSON for session 1-1: disk full"
    );
    assert_eq!(
        told(showing().shown(Ok(output(false, "", "gone"))).made(full())),
        "failed to write audit error for session 1-1: disk full"
    );
    assert_eq!(
        told(
            showing()
                .shown(Ok(output(true, "{}", "")))
                .made(Ok(()))
                .made(full())
        ),
        "failed to write audit summary in '/out': disk full"
    );
}
