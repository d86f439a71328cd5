use notes_grep::folder::{build_folder_entries, check_folder_move, RawFolder};
use std::collections::HashMap;
use notes_grep::notes::{
    check_found_note, home_status, is_coredata_note_id, parse_coredata_note_db_id,
    parse_note_ref, parse_numeric_note_db_id, plan_note_move_for, NgError, ResolvedNote, StoreStats,
};
use notes_grep::output::{folder_lines, folder_move_lines, folder_move_view, note_move_lines, note_move_view};

fn folder(id: i64, name: &str, parent_id: Option<i64>, account_id: Option<i64>, account: Option<&str>) -> RawFolder {
    RawFolder {
        id,
        name: name.to_string(),
        parent_id,
        account_id,
        account: account.map(|a| a.to_string()),
    }
}

/// Folders of the command-line fixture; `account` is the joined account name.
fn fixture(account_id: Option<i64>, account: Option<&str>) -> HashMap<i64, RawFolder> {
    let mut t = HashMap::new();
    for f in [
        folder(10, "Finance", None, account_id, account),
        folder(11, "Personal", None, account_id, account),
        folder(20, "Receipts", Some(10), account_id, account),
        folder(21, "Trips", Some(20), account_id, account),
    ] {
        t.insert(f.id, f);
    }
    t
}

fn icloud() -> HashMap<i64, RawFolder> {
    fixture(Some(12), Some("iCloud"))
}

fn add_second_account(t: &mut HashMap<i64, RawFolder>) {
    t.insert(30, folder(30, "Local", None, Some(13), Some("On My Mac")));
    t.insert(31, folder(31, "Finance", None, Some(13), Some("On My Mac")));
}

fn stripe_note() -> ResolvedNote {
    ResolvedNote {
        id: "x-coredata://FIXTURE-UUID/ICNote/p1".to_string(),
        db_id: 1,
        title: "Stripe refund".to_string(),
        folder_id: 10,
    }
}

fn command_message(err: NgError) -> String {
    match err {
        NgError::Command(msg) => msg,
        other => panic!("expected a command error, got {other:?}"),
    }
}

#[test]
fn folder_move_dry_run_does_not_write() {
    let t = icloud();
    let plan = check_folder_move(&t, "Finance", "Money").unwrap().into_plan(1);
    let view = folder_move_view(&plan, false);
    let lines = folder_move_lines(&view);
    assert!(lines.contains(&"folder-move: dry-run".to_string()));
    assert!(lines.contains(&"source: iCloud/Finance".to_string()));
    assert!(lines.contains(&"target: iCloud/Money".to_string()));
    assert!(lines.iter().any(|l| l.starts_with("next: rerun with --apply")));

    let listing = folder_lines(&build_folder_entries(&t));
    assert!(listing.contains(&"iCloud/Finance".to_string()));
    assert!(!listing.iter().any(|l| l.contains("iCloud/Money")));
}

#[test]
fn folder_move_apply_moves_nested_container_and_search_folder_paths() {
    let t = icloud();
    let draft = check_folder_move(&t, "Finance", "Personal/Finance").unwrap();
    assert_eq!(draft.target_parent_id, Some(11));
    assert_eq!(draft.new_name, "Finance");
    let mut ids = draft.note_folder_ids.clone();
    ids.sort();
    assert_eq!(ids, vec![10, 20, 21]);
    let plan = draft.into_plan(1);
    assert!(plan.will_change);
    let lines = folder_move_lines(&folder_move_view(&plan, true));
    assert_eq!(
        lines,
        vec![
            "folder-move: ok",
            "source: iCloud/Finance",
            "target: iCloud/Personal/Finance",
            "changed: true",
            "descendant-folders: 2",
            "notes: 1",
        ]
    );

    let mut moved = icloud();
    moved.insert(10, folder(10, "Finance", Some(11), Some(12), Some("iCloud")));
    let listing = folder_lines(&build_folder_entries(&moved));
    assert!(listing.contains(&"iCloud/Personal/Finance/Receipts/Trips".to_string()));
}

#[test]
fn folder_moves_preserve_fallback_account_labels() {
    let t = fixture(Some(12), None);
    let plan = check_folder_move(&t, "Finance", "Money").unwrap().into_plan(0);
    assert_eq!(plan.source_path, "account:12/Finance");
    assert_eq!(plan.target_path, "account:12/Money");

    let plan = check_folder_move(&t, "Finance", "account:12/Money").unwrap().into_plan(0);
    assert_eq!(plan.target_path, "account:12/Money");
    assert_eq!(plan.target_parent_id, None);
    assert_eq!(plan.target_account_id, Some(12));
}

#[test]
fn moves_refuse_unknown_account_boundaries() {
    let t = fixture(None, Some("iCloud"));
    let err = check_folder_move(&t, "Finance", "Money").unwrap_err();
    assert!(command_message(err).contains("folder account is unknown"));

    let err = plan_note_move_for(&t, &stripe_note(), "Personal").unwrap_err();
    assert!(command_message(err).contains("folder account is unknown"));
}

#[test]
fn folder_move_refuses_cycles_and_duplicate_siblings() {
    let t = icloud();
    let err = check_folder_move(&t, "Finance", "Finance/Receipts/Finance").unwrap_err();
    assert_eq!(command_message(err), "cannot move 'iCloud/Finance' into itself or one of its descendants");

    let err = check_folder_move(&t, "Finance", "Finance/Finance").unwrap_err();
    assert!(command_message(err).contains("into itself"));

    let err = check_folder_move(&t, "Finance", "Personal").unwrap_err();
    assert_eq!(command_message(err), "target sibling already exists: 'iCloud/Personal'");
}

#[test]
fn folder_move_refuses_cross_account_targets() {
    let mut t = icloud();
    add_second_account(&mut t);
    let err = check_folder_move(&t, "Personal", "On My Mac/Local/Personal").unwrap_err();
    assert_eq!(
        command_message(err),
        "cross-account folder moves are not supported: 'iCloud/Personal' -> 'On My Mac/Local/Personal'"
    );
}

#[test]
fn folder_rename_to_same_name_does_not_change() {
    let t = icloud();
    let plan = check_folder_move(&t, "Personal", "Personal").unwrap().into_plan(1);
    assert!(!plan.will_change);
    assert_eq!(plan.descendant_folders, 0);
}

#[test]
fn note_move_dry_run_json_does_not_write() {
    let plan = plan_note_move_for(&icloud(), &stripe_note(), "Personal").unwrap();
    let view = note_move_view(&plan, false);
    assert_eq!(view.status, "dry-run");
    assert!(!view.applied);
    assert!(view.changed);
    assert_eq!(view.note_id, "x-coredata://FIXTURE-UUID/ICNote/p1");
    assert_eq!(view.note_title, "Stripe refund");
    assert_eq!(view.source_folder_path, "iCloud/Finance");
    assert_eq!(view.target_folder_path, "iCloud/Personal");
    assert_eq!(plan.source_folder_id, 10);
    assert_eq!(plan.target_folder_id, 11);
}

#[test]
fn note_move_human_output_neutralizes_note_id_escape_sequences() {
    let note = ResolvedNote {
        id: "x-coredata://FIXTURE-\u{1b}[35mUUID/ICNote/p1".to_string(),
        ..stripe_note()
    };
    let plan = plan_note_move_for(&icloud(), &note, "Personal").unwrap();
    let stdout = note_move_lines(&note_move_view(&plan, false)).join("\n");
    assert!(stdout.contains("note-move: dry-run"));
    assert!(!stdout.contains('\u{1b}'), "raw ESC must not reach the terminal: {stdout:?}");
}

#[test]
fn note_move_apply_moves_one_note_without_mutating_note_content() {
    let plan = plan_note_move_for(&icloud(), &stripe_note(), "Personal").unwrap();
    let view = note_move_view(&plan, true);
    assert_eq!(view.status, "ok");
    assert!(view.applied);
    assert!(view.changed);
    assert_eq!(plan.note_db_id, 1);
    assert_eq!(plan.note_title, "Stripe refund");
}

#[test]
fn note_move_apply_noops_when_note_is_already_in_target_folder() {
    let plan = plan_note_move_for(&icloud(), &stripe_note(), "Finance").unwrap();
    let view = note_move_view(&plan, true);
    assert_eq!(view.status, "ok");
    assert!(view.applied);
    assert!(!view.changed);
    assert!(!plan.will_change);
}

#[test]
fn note_move_accepts_numeric_database_id_when_unambiguous() {
    let r = parse_note_ref("2").unwrap();
    assert_eq!(r.db_id, 2);
    assert_eq!(r.trimmed, "2");
    let found = ResolvedNote {
        id: "x-coredata://FIXTURE-UUID/ICNote/p2".to_string(),
        db_id: 2,
        title: "Garden list".to_string(),
        folder_id: 11,
    };
    let note = check_found_note(&r, Some(found)).unwrap();
    assert_eq!(note.id, "x-coredata://FIXTURE-UUID/ICNote/p2");
    let plan = plan_note_move_for(&icloud(), &note, "Finance").unwrap();
    assert_eq!(plan.note_db_id, 2);
    assert_eq!(note_move_view(&plan, false).status, "dry-run");
}

#[test]
fn note_move_refuses_missing_note_missing_folder_and_ambiguous_folder() {
    let r = parse_note_ref("x-coredata://FIXTURE-UUID/ICNote/p999").unwrap();
    assert_eq!(r.db_id, 999);
    let err = check_found_note(&r, None).unwrap_err();
    assert_eq!(command_message(err), "note not found: 'x-coredata://FIXTURE-UUID/ICNote/p999'");

    let err = parse_note_ref("not-a-coredata/ICNote/p1").unwrap_err();
    assert!(command_message(err).contains("note ID must be an x-coredata://"));

    let err = plan_note_move_for(&icloud(), &stripe_note(), "Missing").unwrap_err();
    assert_eq!(command_message(err), "folder path not found: 'Missing'");

    let mut t = icloud();
    add_second_account(&mut t);
    let err = plan_note_move_for(&t, &stripe_note(), "Finance").unwrap_err();
    assert!(command_message(err).contains("folder path is ambiguous"));
}

#[test]
fn note_move_refuses_deleted_target_folder() {
    let mut t = HashMap::new();
    t.insert(10, folder(10, "Finance", None, Some(12), Some("iCloud")));
    t.insert(20, folder(20, "Receipts", Some(10), Some(12), Some("iCloud")));
    let err = plan_note_move_for(&t, &stripe_note(), "Personal").unwrap_err();
    assert_eq!(command_message(err), "folder path not found: 'Personal'");
}

#[test]
fn note_move_refuses_cross_account_targets() {
    let mut t = icloud();
    add_second_account(&mut t);
    let err = plan_note_move_for(&t, &stripe_note(), "On My Mac/Local").unwrap_err();
    assert_eq!(
        command_message(err),
        "cross-account note moves are not supported: 'iCloud/Finance' -> 'On My Mac/Local'"
    );
}

#[test]
fn note_move_refuses_a_note_whose_folder_is_gone() {
    let note = ResolvedNote { folder_id: 99, ..stripe_note() };
    let err = plan_note_move_for(&icloud(), &note, "Personal").unwrap_err();
    assert_eq!(
        command_message(err),
        "active source folder not found for note 'x-coredata://FIXTURE-UUID/ICNote/p1'"
    );
}

#[test]
fn note_url_with_another_id_is_not_found() {
    let r = parse_note_ref("  x-coredata://OTHER-UUID/ICNote/p1 ").unwrap();
    assert_eq!(r.trimmed, "x-coredata://OTHER-UUID/ICNote/p1");
    let err = check_found_note(&r, Some(stripe_note())).unwrap_err();
    assert_eq!(command_message(err), "note not found: 'x-coredata://OTHER-UUID/ICNote/p1'");
    assert_eq!(command_message(parse_note_ref("   ").unwrap_err()), "note ID cannot be empty");
}

#[test]
fn note_ids_parse_by_their_last_marker() {
    assert_eq!(parse_coredata_note_db_id("x-coredata://A/ICNote/p1/ICNote/p42"), Some(42));
    assert_eq!(parse_coredata_note_db_id("x-coredata://A/ICNote/p"), None);
    assert_eq!(parse_coredata_note_db_id("x-coredata://A/ICNote/p12a"), None);
    assert_eq!(parse_coredata_note_db_id("x-coredata://A/ICNote/p99999999999999999999"), None);
    assert_eq!(parse_coredata_note_db_id("https://A/ICNote/p1"), None);
    assert_eq!(parse_numeric_note_db_id("9223372036854775807").unwrap(), i64::MAX);
    assert_eq!(
        command_message(parse_numeric_note_db_id("9223372036854775808").unwrap_err()),
        "numeric note database ID is out of range: '9223372036854775808'"
    );
    assert_eq!(
        command_message(parse_numeric_note_db_id("").unwrap_err()),
        "numeric note database ID is out of range: ''"
    );
}

#[test]
fn open_rejects_non_note_urls() {
    assert!(!is_coredata_note_id("https://example.com"));
    assert!(is_coredata_note_id("x-coredata://FIXTURE-UUID/ICNote/p1"));
}

#[test]
fn exit_codes_match_public_contract() {
    assert_eq!(NgError::DatabaseMissing("missing.sqlite".to_string()).exit_code(), 2);
    assert_eq!(
        NgError::DatabaseOpen { path: "x".to_string(), source: "locked".to_string() }.exit_code(),
        2
    );
    assert_eq!(NgError::Schema("missing ZICCLOUDSYNCINGOBJECT".to_string()).exit_code(), 3);
    let err = parse_note_ref("bad-id").unwrap_err();
    assert_eq!(err.exit_code(), 1);
    assert_eq!(NgError::OpenFailed.exit_code(), 4);
    assert_eq!(NgError::NoMatch.exit_code(), 1);
    assert_eq!(NgError::NoDataDir.exit_code(), 1);
}

#[test]
fn home_json_output_reports_missing_database_without_error() {
    assert_eq!(home_status(&Err(NgError::DatabaseMissing("missing.sqlite".to_string()))), "missing-notes-db");
    assert_eq!(home_status(&Ok(StoreStats { notes: 2, folders: 4, accounts: 1 })), "ready");
    assert_eq!(home_status(&Err(NgError::Schema("x".to_string()))), "unrecognized-notes-schema");
    assert_eq!(
        home_status(&Err(NgError::DatabaseOpen { path: "x".to_string(), source: "y".to_string() })),
        "needs-full-disk-access"
    );
    assert_eq!(home_status(&Err(NgError::Io("z".to_string()))), "needs-attention");
}


#[test]
fn note_urls_from_any_store_uuid_parse_back_to_their_key() {
    for uuid in ["FIXTURE-UUID", "", " spaced uuid ", "x/ICNote/p7", "\u{1b}[35m"] {
        for pk in [0i64, 1, 42, 9_223_372_036_854_775_807] {
            let url = format!("x-coredata://{uuid}/ICNote/p{pk}");
            assert_eq!(parse_coredata_note_db_id(&url), Some(pk), "{url:?}");
            assert_eq!(parse_note_ref(&url).unwrap().db_id, pk, "{url:?}");
        }
    }
}

#[test]
fn folder_move_human_output_neutralizes_escape_sequences_in_names() {
    let mut t = HashMap::new();
    t.insert(10, folder(10, "Fin\u{1b}[31mance", None, Some(12), Some("iCloud\r")));
    let plan = check_folder_move(&t, "Fin\u{1b}[31mance", "Money\u{7}").unwrap().into_plan(0);
    let stdout = folder_move_lines(&folder_move_view(&plan, false)).join("\n");
    assert!(!stdout.contains('\u{1b}'), "{stdout:?}");
    assert!(!stdout.contains('\r'), "{stdout:?}");
    assert!(!stdout.contains('\u{7}'), "{stdout:?}");
    assert!(stdout.contains("source: iCloud\u{fffd}") || stdout.contains("source: iCloud "), "{stdout:?}");
}

#[test]
fn home_human_output_reports_ready_status_and_next_commands() {
    let stats = StoreStats { notes: 2, folders: 4, accounts: 1 };
    assert_eq!(home_status(&Ok(stats)), "ready");
}
