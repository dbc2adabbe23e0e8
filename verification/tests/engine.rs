use siteconfig::datecode::extract_date;
use siteconfig::json::{format_json, parse_json, pretty_json, validate_json};
use siteconfig::lifecycle::{
    choose_save_filename, copy_entry, copy_precheck, copy_server, create_server_now,
    deleted_folder_name, list_servers, prepend_log_entry, save_config, save_config_now,
    snapshot_filename,
};
use siteconfig::snapshot::{latest_snapshot, list_snapshots};
use siteconfig::template::{get_minimal_template, resolve_template};
use siteconfig::ConfigError;

fn b(s: &str) -> Vec<u8> {
    s.as_bytes().to_vec()
}

fn s(v: &[u8]) -> String {
    String::from_utf8(v.to_vec()).unwrap()
}

#[test]
fn extract_date_plain() {
    assert_eq!(extract_date(&b("srv_20250101.json")), Some(b("20250101")));
}

#[test]
fn extract_date_embedded_anywhere() {
    assert_eq!(
        extract_date(&b("backup-20250630-final.json")),
        Some(b("20250630"))
    );
    assert_eq!(extract_date(&b("20241231")), Some(b("20241231")));
}

#[test]
fn extract_date_timestamped() {
    assert_eq!(
        extract_date(&b("srv_20250102_100000.json")),
        Some(b("20250102"))
    );
}

#[test]
fn extract_date_out_of_range() {
    assert_eq!(extract_date(&b("srv_19990101.json")), None);
    assert_eq!(extract_date(&b("srv_20250001.json")), None);
    assert_eq!(extract_date(&b("srv_20251301.json")), None);
    assert_eq!(extract_date(&b("srv_20250132.json")), None);
    assert_eq!(extract_date(&b("srv_21010101.json")), None);
}

#[test]
fn extract_date_edges_of_range() {
    assert_eq!(extract_date(&b("a_20200101.json")), Some(b("20200101")));
    assert_eq!(extract_date(&b("a_21001231.json")), Some(b("21001231")));
    // No days-in-month check: February 30 is accepted.
    assert_eq!(extract_date(&b("a_20250230.json")), Some(b("20250230")));
}

#[test]
fn extract_date_malformed() {
    assert_eq!(extract_date(&b("srv_2025010.json")), None);
    assert_eq!(extract_date(&b("srv.json")), None);
    assert_eq!(extract_date(&b("")), None);
}

#[test]
fn extract_date_legacy_fallback() {
    // The leftmost eight-digit run is out of range; the legacy form
    // between the last underscore and the last dot still yields a date.
    assert_eq!(
        extract_date(&b("x99999999y_20250101.json")),
        Some(b("20250101"))
    );
}

#[test]
fn list_snapshots_orders_newest_first() {
    let files = vec![
        b("srv_20250101.json"),
        b("srv_20250102.json"),
        b("srv_20250102_100000.json"),
        b("srv.json"),
    ];
    let sorted = list_snapshots(&files);
    let names: Vec<String> = sorted.iter().map(|f| s(f)).collect();
    assert_eq!(
        names,
        vec![
            "srv_20250102_100000.json",
            "srv_20250102.json",
            "srv_20250101.json",
            "srv.json",
        ]
    );
}

#[test]
fn list_snapshots_keeps_only_json() {
    let files = vec![b("readme.txt"), b("srv_20250101.json"), b("notes.md")];
    let sorted = list_snapshots(&files);
    assert_eq!(sorted.len(), 1);
    assert_eq!(sorted[0], b("srv_20250101.json"));
}

#[test]
fn latest_snapshot_picks_winner() {
    let files = vec![
        b("srv_20250101.json"),
        b("srv_20250102.json"),
        b("srv_20250102_100000.json"),
        b("srv.json"),
    ];
    let (name, norm, count) = latest_snapshot(&files).unwrap();
    assert_eq!(s(&name), "srv_20250102_100000.json");
    assert_eq!(s(&norm), "2025-01-02");
    assert_eq!(count, 4);
}

#[test]
fn latest_snapshot_empty_fails() {
    assert_eq!(
        latest_snapshot(&Vec::new()),
        Err(ConfigError::NoSnapshots)
    );
    assert_eq!(
        latest_snapshot(&vec![b("readme.txt")]),
        Err(ConfigError::NoSnapshots)
    );
}

#[test]
fn minimal_template_exact_text() {
    let expected = "{\n  \"defaultCompanyId\": \"\",\n  \"multiCompany\": false,\n  \"useIPPermit\": false,\n  \"checkPushToken\": true,\n  \"logoutAfter\": 14\n}";
    assert_eq!(s(&get_minimal_template()), expected);
}

#[test]
fn resolve_template_settles_after_first_write() {
    // First call: no personal template; the minimal one comes back and
    // is handed over for materialization.
    let (content, write_back) = resolve_template(None, None);
    let written = write_back.expect("the fallback materializes the personal template");
    assert_eq!(content, written);
    assert_eq!(content, get_minimal_template());
    // Second call: the materialized content is now the personal tier;
    // the same content comes back and nothing is written.
    let (content2, write_back2) = resolve_template(Some(&written), None);
    assert_eq!(content2, content);
    assert!(write_back2.is_none());
}

#[test]
fn resolve_template_prefers_personal_then_shared() {
    let personal = b("{\"tier\": \"personal\"}");
    let shared = b("{\"tier\": \"shared\"}");
    assert_eq!(
        resolve_template(Some(&personal), Some(&shared)),
        (personal.clone(), None)
    );
    // An unreadable personal tier falls through to the shared one.
    let broken = b("{not json");
    assert_eq!(
        resolve_template(Some(&broken), Some(&shared)),
        (shared.clone(), None)
    );
}

#[test]
fn format_json_pretty_matches_serde() {
    let input = b("{\"a\": [1, 2, {\"b\": \"x\"}], \"c\": null, \"d\": 0.25}");
    let out = format_json(&input).unwrap();
    let mine = s(&out);
    let v: serde_json::Value = serde_json::from_slice(&input).unwrap();
    let serde_text = serde_json::to_string_pretty(&v).unwrap();
    assert_eq!(mine, serde_text);
}

#[test]
fn format_json_rejects_invalid() {
    assert_eq!(format_json(&b("{")), Err(ConfigError::InvalidJson));
    assert_eq!(format_json(&b("12x")), Err(ConfigError::InvalidJson));
    assert_eq!(format_json(&b("")), Err(ConfigError::InvalidJson));
    assert_eq!(format_json(&b("{\"a\":}")), Err(ConfigError::InvalidJson));
    assert_eq!(format_json(&b("[1,]")), Err(ConfigError::InvalidJson));
    assert_eq!(format_json(&b("\"unterminated")), Err(ConfigError::InvalidJson));
}

#[test]
fn write_then_read_round_trip() {
    // writeJson stores the pretty text; readJson validates it; the
    // stored text parses to the same value as the input.
    let input = b(" [ true, \"a\\\"b\\\\c\", {\"k\": [0.25, 1e2, -7]}, null, {} , [] ] ");
    let stored = format_json(&input).unwrap();
    assert!(validate_json(&stored));
    let before: serde_json::Value = serde_json::from_slice(&input).unwrap();
    let after: serde_json::Value = serde_json::from_slice(&stored).unwrap();
    assert_eq!(before, after);
    // Formatting already-pretty text changes nothing further.
    assert_eq!(format_json(&stored).unwrap(), stored);
}

#[test]
fn validate_json_accepts_and_rejects() {
    assert!(validate_json(&b("null")));
    assert!(validate_json(&b("  -12.5e-3 ")));
    assert!(validate_json(&b("\"\"")));
    assert!(!validate_json(&b("nulla")));
    assert!(!validate_json(&b("--1")));
    assert!(!validate_json(&b("1.")));
    assert!(!validate_json(&b("1e")));
}

#[test]
fn parse_then_pretty_preserves_tokens() {
    let input = b("{\"n\": 1.50}");
    let d = parse_json(&input).unwrap();
    // Number tokens are kept as written, not re-encoded.
    assert_eq!(s(&pretty_json(&d)), "{\n  \"n\": 1.50\n}");
}

#[test]
fn copy_entry_rewrites_values_not_keys() {
    let fname = b("alpha_20250101.json");
    let content = b("{\"alpha\": \"alpha\", \"url\": \"http://alpha/x\", \"n\": 3}");
    let (new_name, new_content) = copy_entry(&fname, &content, &b("alpha"), &b("beta"));
    assert_eq!(s(&new_name), "beta_20250101.json");
    let v: serde_json::Value = serde_json::from_slice(&new_content).unwrap();
    // The key keeps its name; the string values are rewritten.
    assert_eq!(v["alpha"], serde_json::Value::String("beta".to_string()));
    assert_eq!(v["url"], serde_json::Value::String("http://beta/x".to_string()));
    assert_eq!(v["n"], serde_json::Value::from(3));
}

#[test]
fn copy_entry_round_trips() {
    // A structural clone under renaming: renaming back gives a document
    // deep-equal to the source.
    let fname = b("alpha_20250101.json");
    let content =
        b("{\"name\": \"alpha\", \"list\": [\"alpha-1\", {\"deep\": \"x/alpha/y\"}], \"n\": 14}");
    let (f2, c2) = copy_entry(&fname, &content, &b("alpha"), &b("beta"));
    let (f3, c3) = copy_entry(&f2, &c2, &b("beta"), &b("alpha"));
    assert_eq!(f3, fname);
    let before: serde_json::Value = serde_json::from_slice(&content).unwrap();
    let after: serde_json::Value = serde_json::from_slice(&c3).unwrap();
    assert_eq!(before, after);
}

#[test]
fn copy_entry_keeps_non_json_bytes() {
    let fname = b("alpha_notes.txt");
    let content = b("alpha raw bytes, not json");
    let (new_name, new_content) = copy_entry(&fname, &content, &b("alpha"), &b("beta"));
    assert_eq!(s(&new_name), "beta_notes.txt");
    assert_eq!(new_content, content);
}

#[test]
fn copy_server_fails_when_target_exists() {
    let files = vec![(b("alpha_20250101.json"), b("{}"))];
    assert_eq!(
        copy_server(true, true, &files, &b("alpha"), &b("beta")),
        Err(ConfigError::TargetExists)
    );
    assert_eq!(
        copy_server(false, false, &files, &b("alpha"), &b("beta")),
        Err(ConfigError::SourceMissing)
    );
    assert_eq!(copy_precheck(true, true), Err(ConfigError::TargetExists));
    assert_eq!(copy_precheck(false, true), Err(ConfigError::SourceMissing));
    assert!(copy_precheck(true, false).is_ok());
}

#[test]
fn copy_server_copies_every_file() {
    let files = vec![
        (b("alpha_20250101.json"), b("{\"s\": \"alpha\"}")),
        (b("readme.txt"), b("about alpha")),
    ];
    let out = copy_server(true, false, &files, &b("alpha"), &b("beta")).unwrap();
    assert_eq!(out.len(), 2);
    assert_eq!(s(&out[0].0), "beta_20250101.json");
    assert_eq!(s(&out[1].0), "readme.txt");
    assert_eq!(out[1].1, b("about alpha"));
}

#[test]
fn save_twice_same_day_makes_two_files() {
    let name = b("srv");
    let date = b("20250101");
    let listing: Vec<Vec<u8>> = Vec::new();
    let first = choose_save_filename(&listing, &name, &date, &b("093000"));
    assert_eq!(s(&first), "srv_20250101.json");
    let mut listing2 = listing.clone();
    listing2.push(first.clone());
    let second = choose_save_filename(&listing2, &name, &date, &b("093007"));
    assert_eq!(s(&second), "srv_20250101_093007.json");
    assert_ne!(first, second);
}

#[test]
fn save_config_validates_and_names() {
    let listing: Vec<Vec<u8>> = Vec::new();
    let (fname, text) = save_config(
        &listing,
        &b("srv"),
        &b("{\"a\":1}"),
        &b("20250101"),
        &b("120000"),
    )
    .unwrap();
    assert_eq!(s(&fname), "srv_20250101.json");
    assert_eq!(s(&text), "{\n  \"a\": 1\n}");
    assert_eq!(
        save_config(&listing, &b("srv"), &b("nope"), &b("20250101"), &b("120000")),
        Err(ConfigError::InvalidJson)
    );
}

#[test]
fn save_config_now_uses_the_clock() {
    let listing: Vec<Vec<u8>> = Vec::new();
    let (fname, text) = save_config_now(&listing, &b("srv"), &b("{}")).unwrap();
    let f = s(&fname);
    assert!(f.starts_with("srv_"));
    assert!(f.ends_with(".json"));
    assert_eq!(s(&text), "{}");
}

#[test]
fn create_server_now_seeds_minimal_without_template() {
    let (fname, content, write_back) = create_server_now(&b("box"), false, None, None);
    let f = s(&fname);
    assert!(f.starts_with("box_"));
    assert!(f.ends_with(".json"));
    assert_eq!(content, get_minimal_template());
    assert!(write_back.is_none());
}

#[test]
fn snapshot_filename_exact() {
    assert_eq!(
        s(&snapshot_filename(&b("srv"), &b("20250101"))),
        "srv_20250101.json"
    );
}

#[test]
fn deleted_folder_name_exact() {
    assert_eq!(
        s(&deleted_folder_name(&b("srv"), &b("20250101_120000"))),
        "srv.deleted.20250101_120000"
    );
}

#[test]
fn prepend_log_entry_exact() {
    assert_eq!(
        s(&prepend_log_entry(&b("new line"), &b("old log"))),
        "new line\nold log"
    );
}

#[test]
fn list_servers_keeps_folders_sorted() {
    let entries = vec![
        (b("zeta"), true),
        (b("template.json"), false),
        (b("old.json"), true),
        (b("alpha"), true),
        (b("notes.txt"), false),
        (b("beta"), true),
    ];
    let servers = list_servers(&entries);
    let names: Vec<String> = servers.iter().map(|f| s(f)).collect();
    assert_eq!(names, vec!["alpha", "beta", "zeta"]);
}

#[test]
fn latest_snapshot_without_dates_breaks_ties_by_name() {
    let files = vec![b("a.json"), b("b.json")];
    let (name, norm, count) = latest_snapshot(&files).unwrap();
    assert_eq!(s(&name), "b.json");
    assert_eq!(norm, Vec::<u8>::new());
    assert_eq!(count, 2);
}

#[test]
fn extract_date_ignores_later_runs_after_bad_leftmost() {
    // The leftmost eight-digit run is checked, and only the legacy form
    // can rescue the name; here there is no underscore, so no date.
    assert_eq!(extract_date(&b("a20190101b20250102.json")), None);
}

#[test]
fn codec_keeps_non_ascii_bytes() {
    // Contents are bytes: multi-byte UTF-8 inside strings passes
    // through parsing, rewriting and printing untouched.
    let content = "{\"이름\": \"서버-alpha\"}".as_bytes().to_vec();
    let (_, out) = copy_entry(&b("alpha_20250101.json"), &content, &b("alpha"), &b("beta"));
    assert_eq!(s(&out), "{\n  \"이름\": \"서버-beta\"\n}");
}
