use inspace::cli::{
    bytes, failure_json, info_json, option_u64, parse, salvage_json, stats_json, string, success_json, usage,
    verify_json, Command,
};
use inspace::storage::inspect::FormatInfo;
use inspace::storage::salvage::{SalvageManifest, SkippedRecord};
use inspace::storage::stats::Stats;
use inspace::storage::verification::{VerifyIssue, VerifyReport};

fn words(line: &str) -> Vec<String> {
    line.split_whitespace().map(String::from).collect()
}

fn text(s: &str) -> String {
    String::from(s)
}

#[test]
fn commands_are_parsed() {
    assert_eq!(parse(&words("info a.db")), (false, Ok(Command::Info { path: text("a.db") })));
    assert_eq!(parse(&words("--json stats a.db")), (true, Ok(Command::Stats { path: text("a.db") })));
    assert_eq!(parse(&words("verify a.db")).1, Ok(Command::Verify { path: text("a.db") }));
    assert_eq!(
        parse(&words("backup a.db b.db")).1,
        Ok(Command::Backup { source: text("a.db"), destination: text("b.db") })
    );
    assert_eq!(
        parse(&words("migrate a.db b.db 8192")).1,
        Ok(Command::Compact {
            name: "migrate",
            source: text("a.db"),
            destination: text("b.db"),
            page_size: Some(text("8192")),
        })
    );
    assert_eq!(
        parse(&words("salvage a.db b.db")).1,
        Ok(Command::Salvage { source: text("a.db"), destination: text("b.db") })
    );
    assert_eq!(parse(&words("")), (false, Err(usage())));
    assert_eq!(parse(&words("--json")), (true, Err(usage())));
    assert_eq!(parse(&words("info a b")).1, Err(usage()));
    assert_eq!(parse(&words("backup a b c")).1, Err(usage()));
}

#[test]
fn values_are_written_as_json() {
    assert_eq!(string("a\"b\\c\n\u{1}"), "\"a\\\"b\\\\c\\n\\u0001\"");
    assert_eq!(option_u64(None), "null");
    assert_eq!(option_u64(Some(12)), "12");
    assert_eq!(bytes(&[0, 255]), "[0,255]");
    assert_eq!(
        success_json("backup", "b.db"),
        "{\"command\":\"backup\",\"destination\":\"b.db\",\"ok\":true}"
    );
    assert_eq!(failure_json("no"), "{\"ok\":false,\"error\":\"no\"}");
}

#[test]
fn reports_are_written_as_json() {
    let info = FormatInfo { page_size: 4096, version: 2, transaction_id: 3, metadata_page: 1, file_bytes: 8192 };
    let line = info_json(&info);
    assert!(line.contains("4096") && line.contains("8192"));
    let stats = Stats { current_tx_id: 77, ..Stats::default() };
    assert!(stats_json(&stats).contains("77"));
    let report = VerifyReport {
        valid: false,
        issues: vec![VerifyIssue {
            page_id: Some(4),
            offset: None,
            page_kind: Some("leaf"),
            invariant: text("odd"),
            bucket_path: vec![b"b".to_vec()],
        }],
    };
    let line = verify_json(&report);
    assert!(line.contains("\"odd\"") && line.contains("\"leaf\"") && line.contains("null"));
    let manifest = SalvageManifest {
        copied_buckets: 1,
        copied_records: 2,
        skipped_pages: vec![9],
        skipped_records: vec![SkippedRecord { bucket_path: vec![], key: None, reason: text("lost") }],
    };
    let line = salvage_json(&manifest);
    assert!(line.contains("\"lost\"") && line.contains("[9]"));
}
