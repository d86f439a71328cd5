use flate2::write::GzEncoder;
use flate2::Compression;
use notes_grep::folder::{build_folder_entries, RawFolder};
use std::collections::HashMap;
use notes_grep::notes::{search_indexed_notes, FolderEntry, IndexedNote, NgError, NoteHit};
use notes_grep::output::{hit_lines, sanitize_terminal, truncate};
use notes_grep::search::{
    compile_regex, contains_case_insensitive, count_body_notes, filter_by_date,
    indexed_note_from_row, normalize_date_arg, note_hit_from_row, quiet_search_outcome,
    search_note_rows, sort_hits, NoteRow, SortKey,
};
use std::io::Write;

fn body_blob(text: &str) -> Vec<u8> {
    let mut message = Vec::new();
    push_len_field(&mut message, 1, text.as_bytes());
    let mut encoder = GzEncoder::new(Vec::new(), Compression::default());
    encoder.write_all(&message).unwrap();
    encoder.finish().unwrap()
}

fn push_len_field(message: &mut Vec<u8>, field: u64, bytes: &[u8]) {
    push_varint(message, (field << 3) | 2);
    push_varint(message, bytes.len() as u64);
    message.extend_from_slice(bytes);
}

fn push_varint(message: &mut Vec<u8>, mut value: u64) {
    while value >= 0x80 {
        message.push((value as u8 & 0x7f) | 0x80);
        value >>= 7;
    }
    message.push(value as u8);
}

fn folder(id: i64, name: &str, parent_id: Option<i64>, account_id: Option<i64>, account: Option<&str>) -> RawFolder {
    RawFolder {
        id,
        name: name.to_string(),
        parent_id,
        account_id,
        account: account.map(|a| a.to_string()),
    }
}

/// The folders of the command-line fixture database.
fn cli_folders() -> Vec<FolderEntry> {
    let mut t = HashMap::new();
    for f in [
        folder(10, "Finance", None, Some(12), Some("iCloud")),
        folder(11, "Personal", None, Some(12), Some("iCloud")),
        folder(20, "Receipts", Some(10), Some(12), Some("iCloud")),
        folder(21, "Trips", Some(20), Some(12), Some("iCloud")),
    ] {
        t.insert(f.id, f);
    }
    build_folder_entries(&t)
}

fn row(pk: i64, title: &str, snippet: &str, folder_id: i64, folder: &str, modified: &str, body: Option<&str>) -> NoteRow {
    NoteRow {
        id: format!("x-coredata://FIXTURE-UUID/ICNote/p{pk}"),
        db_id: pk,
        title: title.to_string(),
        folder_id: Some(folder_id),
        folder: Some(folder.to_string()),
        snippet: Some(snippet.to_string()),
        modified: Some(modified.to_string()),
        body_data: body.map(body_blob),
    }
}

/// The note rows of the command-line fixture, newest first.
fn cli_rows() -> Vec<NoteRow> {
    vec![
        row(1, "Stripe refund", "Refund receipt follow-up", 10, "Finance", "2026-05-09 06:13:20",
            Some("cache-only alpha phrase lives in the body")),
        row(2, "Garden list", "Tomatoes and irrigation", 11, "Personal", "2023-03-08 20:26:40",
            Some("cache-only beta phrase lives in the body")),
    ]
}

fn cli_index() -> Vec<IndexedNote> {
    let folders = cli_folders();
    cli_rows().iter().map(|r| indexed_note_from_row(r, &folders)).collect()
}

fn cli_hits() -> Vec<NoteHit> {
    let folders = cli_folders();
    cli_rows().iter().map(|r| note_hit_from_row(r, &folders)).collect()
}

/// The note rows of the library fixture store, newest first.
fn store_rows() -> Vec<NoteRow> {
    vec![
        NoteRow { folder_id: Some(10), ..row(1, "Stripe refund", "Refund follow-up and receipt", 10, "Work",
            "2026-05-09 06:13:20", Some("The body-only alpha phrase is not in metadata.")) },
        row(2, "Garden list", "Tomatoes and irrigation", 11, "Personal", "2023-03-08 20:26:40",
            Some("The body-only beta phrase is not in metadata.")),
    ]
}

fn store_folders() -> Vec<FolderEntry> {
    let mut t = HashMap::new();
    t.insert(10, folder(10, "Work", None, None, None));
    t.insert(11, folder(11, "Personal", None, None, None));
    build_folder_entries(&t)
}

fn titles(hits: &[NoteHit]) -> Vec<String> {
    hits.iter().map(|h| h.title.clone()).collect()
}

#[test]
fn search_matches_title_and_snippet() {
    let folders = store_folders();
    let rows: Vec<NoteHit> = store_rows().iter().map(|r| note_hit_from_row(r, &folders)).collect();
    let hits = search_note_rows(&rows, "refund", None, None, 10);
    assert_eq!(hits.len(), 1);
    assert_eq!(hits[0].title, "Stripe refund");
    assert_eq!(hits[0].folder.as_deref(), Some("Work"));
}

#[test]
fn search_filters_folder() {
    let folders = store_folders();
    let rows: Vec<NoteHit> = store_rows().iter().map(|r| note_hit_from_row(r, &folders)).collect();
    let hits = search_note_rows(&rows, "and", None, Some("Personal"), 10);
    assert_eq!(hits.len(), 1);
    assert_eq!(hits[0].title, "Garden list");
}

#[test]
fn all_indexed_notes_extracts_body_text() {
    let folders = store_folders();
    let notes: Vec<IndexedNote> = store_rows().iter().map(|r| indexed_note_from_row(r, &folders)).collect();
    let stripe = notes.iter().find(|note| note.title == "Stripe refund").expect("stripe note");
    assert!(stripe.body.as_deref().unwrap_or_default().contains("body-only alpha phrase"));
}

#[test]
fn search_indexed_notes_matches_body_and_filters_folder() {
    let folders = store_folders();
    let notes: Vec<IndexedNote> = store_rows().iter().map(|r| indexed_note_from_row(r, &folders)).collect();
    let hits = search_indexed_notes(&notes, "body-only", None, Some("Work"), 10);
    assert_eq!(hits.len(), 1);
    assert_eq!(hits[0].title, "Stripe refund");
    assert!(hits[0].snippet.as_deref().unwrap_or_default().contains("body-only alpha phrase"));
}

#[test]
fn search_json_uses_fixture_db() {
    let hits = search_note_rows(&cli_hits(), "refund", None, None, 20);
    assert_eq!(titles(&hits), vec!["Stripe refund"]);
    assert_eq!(hits[0].folder.as_deref(), Some("Finance"));
}

#[test]
fn index_writes_full_body_cache_records() {
    let notes = cli_index();
    assert_eq!(notes.len(), 2);
    assert_eq!(count_body_notes(&notes), 2);
    assert_eq!(notes[0].body.as_deref(), Some("cache-only alpha phrase lives in the body"));
    assert_eq!(notes[0].folder_path.as_deref(), Some("Finance"));
    assert_eq!(notes[0].account_path.as_deref(), Some("iCloud/Finance"));
}

#[test]
fn search_json_uses_warmed_body_cache_with_folder_and_limit() {
    let hits = search_indexed_notes(&cli_index(), "cache-only", None, Some("Finance"), 1);
    assert_eq!(titles(&hits), vec!["Stripe refund"]);
    assert!(hits[0].snippet.as_deref().unwrap().contains("cache-only alpha phrase"));
    assert_eq!(hits[0].folder.as_deref(), Some("Finance"));
}

#[test]
fn search_folder_accepts_account_prefixed_paths() {
    let hits = search_note_rows(&cli_hits(), "refund", None, Some("iCloud/Finance"), 20);
    assert_eq!(titles(&hits), vec!["Stripe refund"]);
    assert_eq!(hits[0].account_path.as_deref(), Some("iCloud/Finance"));

    let hits = search_indexed_notes(&cli_index(), "cache-only alpha", None, Some("iCloud/Finance"), 20);
    assert_eq!(titles(&hits), vec!["Stripe refund"]);
    assert_eq!(hits[0].account_path.as_deref(), Some("iCloud/Finance"));
}

#[test]
fn search_folder_filter_includes_subfolders_only_at_segment_boundaries() {
    let folders = cli_folders();
    let trips = row(3, "Trip receipt", "Hotel", 21, "Trips", "2024-10-07 13:20:00", None);
    let hits = vec![note_hit_from_row(&trips, &folders)];
    assert_eq!(hits[0].folder_path.as_deref(), Some("Finance/Receipts/Trips"));
    assert_eq!(search_note_rows(&hits, "", None, Some("Finance"), 20).len(), 1);
    assert_eq!(search_note_rows(&hits, "", None, Some("iCloud/Finance/Receipts"), 20).len(), 1);
    assert_eq!(search_note_rows(&hits, "", None, Some("Trips"), 20).len(), 1);
    assert_eq!(search_note_rows(&hits, "", None, Some("Fin"), 20).len(), 0);
    assert_eq!(search_note_rows(&hits, "", None, Some("Finance/Receipts/Trip"), 20).len(), 0);
}

#[test]
fn search_sqlite_fallback_matches_unicode_case_insensitively() {
    let folders = cli_folders();
    let mut rows = cli_rows();
    rows.insert(1, row(3, "Café résumé", "naïve notes", 10, "Finance", "2024-10-07 13:20:00", None));
    let hits: Vec<NoteHit> = rows.iter().map(|r| note_hit_from_row(r, &folders)).collect();
    let found = search_note_rows(&hits, "CAFÉ", None, None, 20);
    assert_eq!(titles(&found), vec!["Café résumé"]);
}

#[test]
fn search_treats_like_wildcards_as_literals() {
    assert!(search_note_rows(&cli_hits(), "%", None, None, 20).is_empty());
    assert!(search_note_rows(&cli_hits(), "_", None, None, 20).is_empty());
}

#[test]
fn search_regex_matches_alternation_across_title_and_body() {
    let re = compile_regex("str(ip|ipe) ref").unwrap();
    let hits = search_note_rows(&cli_hits(), "str(ip|ipe) ref", Some(&re), None, 20);
    assert_eq!(titles(&hits), vec!["Stripe refund"]);

    let re = compile_regex("cache-only (alpha|beta)").unwrap();
    let hits = search_indexed_notes(&cli_index(), "cache-only (alpha|beta)", Some(&re), None, 20);
    assert_eq!(titles(&hits), vec!["Stripe refund", "Garden list"]);
    assert_eq!(hits[1].snippet.as_deref(), Some("cache-only beta phrase lives in the body"));
}

#[test]
fn search_regex_rejects_invalid_pattern() {
    match compile_regex("[invalid") {
        Err(NgError::Command(msg)) => assert!(msg.starts_with("invalid regex: "), "{msg}"),
        Err(other) => panic!("unexpected error {other:?}"),
        Ok(_) => panic!("pattern should be refused"),
    }
}

#[test]
fn search_regex_is_case_insensitive() {
    let re = compile_regex("GARDEN").unwrap();
    assert!(re.is_match("garden list"));
    assert!(!re.is_match("gardn"));
}

#[test]
fn search_human_output_neutralizes_terminal_escape_sequences() {
    let folders = cli_folders();
    let mut rows = cli_rows();
    for r in rows.iter_mut() {
        r.id = r.id.replace("FIXTURE-UUID", "FIXTURE-\u{1b}[35mUUID");
    }
    rows.insert(
        0,
        NoteRow {
            id: "x-coredata://FIXTURE-\u{1b}[35mUUID/ICNote/p3".to_string(),
            ..row(3, "Pwned \u{1b}[31mtitle\u{1b}[0m\rline", "Refund \u{1b}[2Jcleared\u{1b}[0m snippet", 10,
                "Finance", "2027-12-08 23:06:40", None)
        },
    );
    let hits: Vec<NoteHit> = rows.iter().map(|r| note_hit_from_row(r, &folders)).collect();
    let found = search_note_rows(&hits, "refund", None, None, 20);
    let stdout = hit_lines(&found, false).join("\n");
    assert!(stdout.contains("title"), "matching note should still appear: {stdout:?}");
    assert!(!stdout.contains('\u{1b}'), "raw ESC must not reach the terminal: {stdout:?}");
    assert!(!stdout.contains('\r'), "raw CR must not reach the terminal: {stdout:?}");
}

#[test]
fn hit_lines_show_count_folder_title_and_snippet() {
    let lines = hit_lines(&cli_hits(), false);
    assert_eq!(
        lines,
        vec![
            "hits: 2",
            "x-coredata://FIXTURE-UUID/ICNote/p1  iCloud/Finance  Stripe refund",
            "  Refund receipt follow-up",
            "x-coredata://FIXTURE-UUID/ICNote/p2  iCloud/Personal  Garden list",
            "  Tomatoes and irrigation",
        ]
    );
    let quiet = hit_lines(&cli_hits(), true);
    assert_eq!(quiet.len(), 3);
    assert_eq!(hit_lines(&[], false), vec!["hits: 0"]);
}

#[test]
fn sanitize_terminal_collapses_white_space_and_marks_controls() {
    assert_eq!(sanitize_terminal("  a\t\n b  "), " a b");
    assert_eq!(sanitize_terminal("x\u{1b}[0m"), "x\u{fffd}[0m");
    assert_eq!(sanitize_terminal("del\u{7f}c1\u{85}end"), "del\u{fffd}c1 end");
    assert_eq!(sanitize_terminal(""), "");
}

#[test]
fn truncate_cuts_long_text_with_an_ellipsis() {
    assert_eq!(truncate("abcdef", 3), "abc...");
    assert_eq!(truncate("abc", 3), "abc");
    assert_eq!(truncate("ab", 3), "ab");
    assert_eq!(truncate("éèêë", 2), "éè...");
    assert_eq!(truncate("x", 0), "...");
}

#[test]
fn contains_case_insensitive_uses_unicode_lowercase() {
    assert!(contains_case_insensitive("Café Résumé", "RÉSUMÉ"));
    assert!(contains_case_insensitive("anything", ""));
    assert!(!contains_case_insensitive("abc", "abcd"));
    assert!(!contains_case_insensitive("", "a"));
}

#[test]
fn snippet_falls_back_to_first_matching_body_line_trimmed() {
    let folders = cli_folders();
    let mut r = row(5, "Plans", "nothing here", 11, "Personal", "2024-10-07 13:20:00", None);
    r.body_data = Some(body_blob("intro line\r\n   the Needle line   \nneedle again"));
    let notes = vec![indexed_note_from_row(&r, &folders)];
    let hits = search_indexed_notes(&notes, "NEEDLE", None, None, 20);
    assert_eq!(hits.len(), 1);
    assert_eq!(hits[0].snippet.as_deref(), Some("the Needle line"));

    let hits = search_indexed_notes(&notes, "", None, None, 20);
    assert_eq!(hits[0].snippet.as_deref(), Some("nothing here"));
    let hits = search_indexed_notes(&notes, "here", None, None, 20);
    assert_eq!(hits[0].snippet.as_deref(), Some("nothing here"));
}

#[test]
fn search_limit_is_clamped_to_at_least_one() {
    let all = search_indexed_notes(&cli_index(), "", None, None, 0);
    assert_eq!(titles(&all), vec!["Stripe refund"]);
    let all = search_indexed_notes(&cli_index(), "", None, None, 100_000);
    assert_eq!(all.len(), 2);
}

#[test]
fn normalize_date_arg_accepts_days_and_timestamps() {
    assert_eq!(normalize_date_arg(" 2025-01-01 ").unwrap(), "2025-01-01 00:00:00");
    assert_eq!(normalize_date_arg("2025-01-01 12:30:00").unwrap(), "2025-01-01 12:30:00");
    match normalize_date_arg("2025/01/01") {
        Err(NgError::Command(msg)) => {
            assert_eq!(msg, "invalid date: '2025/01/01'. Use YYYY-MM-DD or YYYY-MM-DD HH:MM:SS.")
        }
        other => panic!("unexpected {other:?}"),
    }
    assert!(normalize_date_arg("2025-1-001").is_err());
}

#[test]
fn filter_by_date_keeps_hits_in_bounds() {
    let hits = cli_hits();
    let after = filter_by_date(hits.clone(), Some("2025-01-01"), None).unwrap();
    assert_eq!(titles(&after), vec!["Stripe refund"]);
    let before = filter_by_date(hits.clone(), None, Some("2026-01-01")).unwrap();
    assert_eq!(titles(&before), vec!["Garden list"]);
    let exact = filter_by_date(hits.clone(), Some("2026-05-09 06:13:20"), Some("2026-05-09 06:13:21")).unwrap();
    assert_eq!(titles(&exact), vec!["Stripe refund"]);
    let all = filter_by_date(hits.clone(), None, None).unwrap();
    assert_eq!(all.len(), 2);
    assert!(filter_by_date(hits, Some("soon"), None).is_err());
}

#[test]
fn sort_hits_orders_by_date_or_title_keeping_ties() {
    let mut hits = cli_hits();
    let mut undated = hits[0].clone();
    undated.title = "Zebra".to_string();
    undated.modified = None;
    hits.insert(0, undated);
    let by_date = sort_hits(&hits, SortKey::Date);
    assert_eq!(titles(&by_date), vec!["Stripe refund", "Garden list", "Zebra"]);
    let by_title = sort_hits(&hits, SortKey::Title);
    assert_eq!(titles(&by_title), vec!["Garden list", "Stripe refund", "Zebra"]);

    let mut twins = cli_hits();
    twins[1].title = "Stripe refund".to_string();
    let sorted = sort_hits(&twins, SortKey::Title);
    assert_eq!(sorted[0].db_id, 1);
    assert_eq!(sorted[1].db_id, 2);
}

#[test]
fn cache_search_finds_every_database_match() {
    let folders = cli_folders();
    let rows = cli_rows();
    let hits: Vec<NoteHit> = rows.iter().map(|r| note_hit_from_row(r, &folders)).collect();
    let notes: Vec<IndexedNote> = rows.iter().map(|r| indexed_note_from_row(r, &folders)).collect();
    for query in ["refund", "REFUND", "irrigation", "", "cache-only", "nothing"] {
        for folder in [None, Some("Finance"), Some("iCloud/Personal")] {
            let db = search_note_rows(&hits, query, None, folder, 20);
            let cache = search_indexed_notes(&notes, query, None, folder, 20);
            for hit in &db {
                assert!(cache.iter().any(|c| c.db_id == hit.db_id), "{query} {folder:?}");
            }
        }
    }
}

#[test]
fn note_move_rebuild_index_updates_folder_filtered_body_search() {
    let folders = cli_folders();
    let mut rows = cli_rows();
    rows[0].folder_id = Some(11);
    rows[0].folder = Some("Personal".to_string());
    let notes: Vec<IndexedNote> = rows.iter().map(|r| indexed_note_from_row(r, &folders)).collect();

    let hits = search_indexed_notes(&notes, "cache-only alpha", None, Some("Personal"), 20);
    assert_eq!(titles(&hits), vec!["Stripe refund"]);
    assert_eq!(hits[0].folder_path.as_deref(), Some("Personal"));

    let hits = search_indexed_notes(&notes, "cache-only alpha", None, Some("Finance"), 20);
    assert!(hits.is_empty());
}

#[test]
fn quiet_search_fails_with_no_match_only_when_nothing_matched() {
    assert!(quiet_search_outcome(&cli_hits()).is_ok());
    match quiet_search_outcome(&[]) {
        Err(err @ NgError::NoMatch) => assert_eq!(err.exit_code(), 1),
        other => panic!("unexpected {other:?}"),
    }
}
