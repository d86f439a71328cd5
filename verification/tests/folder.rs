use notes_grep::folder::{
    account_label, build_folder_entries, descendant_folder_ids, folder_path, list_folders, normalize_path_arg,
    parent_chain_contains, resolve_folder, resolve_target, sibling_exists, FolderTable, RawFolder,
};
use notes_grep::notes::NgError;
use std::collections::HashMap;

fn folder(id: i64, name: &str, parent_id: Option<i64>, account_id: Option<i64>, account: Option<&str>) -> RawFolder {
    RawFolder {
        id,
        name: name.to_string(),
        parent_id,
        account_id,
        account: account.map(|a| a.to_string()),
    }
}

fn table(folders: Vec<RawFolder>) -> HashMap<i64, RawFolder> {
    folders.into_iter().map(|f| (f.id, f)).collect()
}

fn ordered(folders: Vec<RawFolder>) -> FolderTable {
    let mut t = FolderTable::new();
    for f in folders {
        t.insert(f.id, f);
    }
    t
}

fn command_message(err: NgError) -> String {
    match err {
        NgError::Command(msg) => msg,
        other => panic!("expected a command error, got {other:?}"),
    }
}

fn fixture_table() -> HashMap<i64, RawFolder> {
    table(vec![
        folder(10, "Finance", None, Some(12), Some("iCloud")),
        folder(11, "Personal", None, Some(12), Some("iCloud")),
        folder(20, "Receipts", Some(10), Some(12), Some("iCloud")),
        folder(21, "Trips", Some(20), Some(12), Some("iCloud")),
    ])
}

#[test]
fn build_folder_entries_sorts_case_insensitively_by_account_path() {
    let raw = HashMap::from([
        (1, folder(1, "beta", None, Some(99), Some("iCloud"))),
        (2, folder(2, "Alpha", None, Some(99), Some("iCloud"))),
        (3, folder(3, "zeta", None, Some(12), Some("Local"))),
    ]);

    let paths = build_folder_entries(&raw)
        .into_iter()
        .map(|entry| entry.account_path)
        .collect::<Vec<_>>();

    assert_eq!(paths, vec!["iCloud/Alpha", "iCloud/beta", "Local/zeta"]);
}

#[test]
fn folder_descendant_folder_ids_terminates_on_cyclic_parent_chain() {
    let mut raw = HashMap::new();
    raw.insert(1, folder(1, "A", Some(2), Some(99), Some("iCloud")));
    raw.insert(2, folder(2, "B", Some(1), Some(99), Some("iCloud")));

    let descendants = descendant_folder_ids(&raw, 1);
    assert_eq!(descendants, vec![2], "cycle must visit B exactly once");

    let descendants = descendant_folder_ids(&raw, 2);
    assert_eq!(descendants, vec![1], "cycle must visit A exactly once");
}

#[test]
fn notes_descendant_folder_ids_terminates_on_cyclic_parent_chain() {
    let mut raw = HashMap::new();
    raw.insert(1, folder(1, "A", Some(2), Some(99), Some("iCloud")));
    raw.insert(2, folder(2, "B", Some(1), Some(99), Some("iCloud")));

    let descendants = descendant_folder_ids(&raw, 1);
    assert_eq!(descendants, vec![2], "cycle must visit B exactly once");

    let descendants = descendant_folder_ids(&raw, 2);
    assert_eq!(descendants, vec![1], "cycle must visit A exactly once");
}

#[test]
fn folder_list_outputs_nested_account_paths() {
    let entries = build_folder_entries(&fixture_table());
    let paths = entries.iter().map(|e| e.account_path.clone()).collect::<Vec<_>>();
    assert_eq!(
        paths,
        vec![
            "iCloud/Finance",
            "iCloud/Finance/Receipts",
            "iCloud/Finance/Receipts/Trips",
            "iCloud/Personal",
        ]
    );
    let trips = entries.iter().find(|e| e.id == 21).unwrap();
    assert_eq!(trips.path, "Finance/Receipts/Trips");
    assert_eq!(trips.name, "Trips");
    assert_eq!(trips.parent_id, Some(20));
}

#[test]
fn folder_path_of_missing_parent_is_the_name_and_of_unknown_id_is_the_id() {
    let t = ordered(vec![folder(5, "Orphan", Some(77), Some(1), Some("iCloud"))]);
    assert_eq!(folder_path(&t, 5), "Orphan");
    assert_eq!(folder_path(&t, 42), "42");
    assert_eq!(folder_path(&t, -7), "-7");
}

#[test]
fn folder_path_breaks_a_parent_cycle() {
    let t = ordered(vec![
        folder(1, "A", Some(2), None, None),
        folder(2, "B", Some(1), None, None),
    ]);
    assert_eq!(folder_path(&t, 1), "A/B/A");
    assert_eq!(folder_path(&t, 2), "B/A/B");
}

#[test]
fn folder_listing_shares_paths_found_earlier_on_a_parent_cycle() {
    let t = ordered(vec![
        folder(1, "A", Some(2), Some(5), Some("iCloud")),
        folder(2, "B", Some(1), Some(5), Some("iCloud")),
    ]);
    let entries = list_folders(&t);
    let paths = entries.iter().map(|e| (e.id, e.path.clone())).collect::<Vec<_>>();
    assert_eq!(paths, vec![(2, "A/B".to_string()), (1, "A/B/A".to_string())]);

    let t = ordered(vec![
        folder(2, "B", Some(1), Some(5), Some("iCloud")),
        folder(1, "A", Some(2), Some(5), Some("iCloud")),
    ]);
    let entries = list_folders(&t);
    let paths = entries.iter().map(|e| (e.id, e.path.clone())).collect::<Vec<_>>();
    assert_eq!(paths, vec![(1, "B/A".to_string()), (2, "B/A/B".to_string())]);
}

#[test]
fn folder_entries_on_a_parent_cycle_follow_one_walk_order() {
    let raw = table(vec![
        folder(1, "A", Some(2), Some(5), Some("iCloud")),
        folder(2, "B", Some(1), Some(5), Some("iCloud")),
    ]);
    let entries = build_folder_entries(&raw);
    let mut paths = entries.iter().map(|e| (e.id, e.path.clone())).collect::<Vec<_>>();
    paths.sort();
    let first_a = vec![(1, "A/B/A".to_string()), (2, "A/B".to_string())];
    let first_b = vec![(1, "B/A".to_string()), (2, "B/A/B".to_string())];
    assert!(paths == first_a || paths == first_b, "{paths:?}");
}

#[test]
fn account_label_falls_back_to_account_id_then_unknown() {
    assert_eq!(account_label(&folder(1, "x", None, Some(12), Some("iCloud"))), "iCloud");
    assert_eq!(account_label(&folder(1, "x", None, Some(12), Some("   "))), "account:12");
    assert_eq!(account_label(&folder(1, "x", None, Some(12), None)), "account:12");
    assert_eq!(account_label(&folder(1, "x", None, None, None)), "unknown-account");
}

#[test]
fn normalize_path_arg_trims_pieces_and_refuses_blank_paths() {
    assert_eq!(normalize_path_arg(" /Finance/ Receipts //Trips/ ").unwrap(), "Finance/Receipts/Trips");
    assert_eq!(command_message(normalize_path_arg(" / / ").unwrap_err()), "folder path cannot be empty");
}

#[test]
fn resolve_folder_reports_missing_and_ambiguous_paths() {
    let mut t = fixture_table();
    t.insert(30, folder(30, "Local", None, Some(13), Some("On My Mac")));
    t.insert(31, folder(31, "Finance", None, Some(13), Some("On My Mac")));
    let entries = build_folder_entries(&t);

    assert_eq!(resolve_folder(&entries, "iCloud/Finance").unwrap().id, 10);
    assert_eq!(resolve_folder(&entries, "On My Mac/Finance").unwrap().id, 31);
    assert_eq!(
        command_message(resolve_folder(&entries, "Missing").unwrap_err()),
        "folder path not found: 'Missing'"
    );
    assert_eq!(
        command_message(resolve_folder(&entries, "Finance").unwrap_err()),
        "folder path is ambiguous: 'Finance'. Use an account-prefixed path such as 'iCloud/Finance'."
    );
}

#[test]
fn resolve_target_renames_in_place_and_moves_under_parents() {
    let entries = build_folder_entries(&fixture_table());
    let source = resolve_folder(&entries, "Finance/Receipts").unwrap();

    let renamed = resolve_target(&entries, &source, "Bills").unwrap();
    assert_eq!(renamed.parent_id, Some(10));
    assert_eq!(renamed.account_id, Some(12));
    assert_eq!(renamed.name, "Bills");
    assert_eq!(renamed.path, "iCloud/Finance/Bills");

    let moved = resolve_target(&entries, &source, "Personal/Receipts").unwrap();
    assert_eq!(moved.parent_id, Some(11));
    assert_eq!(moved.path, "iCloud/Personal/Receipts");

    let top = resolve_target(&entries, &source, "iCloud/Receipts").unwrap();
    assert_eq!(top.parent_id, None);
    assert_eq!(top.account_id, Some(12));
    assert_eq!(top.path, "iCloud/Receipts");

    let same_parent = resolve_target(&entries, &source, "./Kept").unwrap();
    assert_eq!(same_parent.parent_id, Some(10));
    assert_eq!(same_parent.path, "Kept");

    assert_eq!(
        command_message(resolve_target(&entries, &source, "Nowhere/Receipts").unwrap_err()),
        "target parent folder path not found: 'Nowhere'"
    );
    assert_eq!(
        command_message(resolve_target(&entries, &source, "Personal/account:9").unwrap_err()),
        "target folder name cannot be an account placeholder"
    );
}

#[test]
fn parent_chain_contains_detects_ancestors_and_stops_on_cycles() {
    let t = fixture_table();
    assert!(parent_chain_contains(&t, Some(21), 10));
    assert!(parent_chain_contains(&t, Some(10), 10));
    assert!(!parent_chain_contains(&t, Some(11), 10));
    assert!(!parent_chain_contains(&t, None, 10));

    let cyclic = table(vec![
        folder(1, "A", Some(2), None, None),
        folder(2, "B", Some(1), None, None),
        folder(3, "C", None, None, None),
    ]);
    assert!(!parent_chain_contains(&cyclic, Some(1), 3));
    assert!(parent_chain_contains(&cyclic, Some(1), 2));
}

#[test]
fn descendant_folder_ids_lists_every_folder_below_once() {
    let t = fixture_table();
    let mut below = descendant_folder_ids(&t, 10);
    below.sort();
    assert_eq!(below, vec![20, 21]);
    assert!(descendant_folder_ids(&t, 11).is_empty());
}

#[test]
fn sibling_exists_compares_names_ignoring_ascii_case() {
    let entries = build_folder_entries(&fixture_table());
    assert!(sibling_exists(&entries, 10, Some(12), None, "PERSONAL"));
    assert!(!sibling_exists(&entries, 11, Some(12), None, "Personal"));
    assert!(!sibling_exists(&entries, 10, Some(12), Some(10), "Personal"));
    assert!(!sibling_exists(&entries, 10, Some(13), None, "Personal"));
}

#[test]
fn folder_table_from_map_holds_each_pair_once() {
    let raw = fixture_table();
    let t = FolderTable::from_map(&raw);
    assert_eq!(t.len(), raw.len());
    for (id, f) in &raw {
        let got = t.get(*id).expect("every key is in the table");
        assert_eq!(got.name, f.name);
        assert_eq!(got.parent_id, f.parent_id);
    }
    assert!(t.get(99).is_none());
}
