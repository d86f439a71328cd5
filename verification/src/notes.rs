//! The error type, the records commands report, note references, note
//! moves, and the SQL text the store runs.

use vstd::prelude::*;
use vstd::string::StringExecFns;
use std::collections::HashMap;

use crate::folder::{
    is_command_error, is_listing_of, list_folders, push_str, resolve_folder, spec_resolve_folder,
    table_of, FolderTable, RawFolder,
};
use crate::text::{
    all_ascii_digits, all_digits, chars_of, concat3, digit_char, digits_value, is_ascii_digit,
    last_occurrence, last_occurrence_chars, last_occurrence_from, occurs_at, parse_i64_digits,
    skip_chars, spec_nat_decimal, spec_trim, spec_trim_end, spec_trim_start, starts_with,
    starts_with_chars, string_from_chars, trim_chars,
};

pub use crate::search::{search_indexed_notes, IndexedNote, NoteHit};

verus! {

/// Failures of `ng` commands; outside errors are carried as their messages.
#[derive(Debug, Clone)]
pub enum NgError {
    /// The Notes database file does not exist at this path.
    DatabaseMissing(String),
    /// The database exists but could not be opened.
    DatabaseOpen { path: String, source: String },
    /// The database schema is not the Apple Notes one.
    Schema(String),
    /// No local data directory for the cache.
    NoDataDir,
    /// The note URL could not be opened.
    OpenFailed,
    /// A quiet search found nothing.
    NoMatch,
    /// A command was refused; the message says why.
    Command(String),
    /// An SQLite failure.
    Sqlite(String),
    /// An I/O failure.
    Io(String),
    /// A JSON failure.
    Json(String),
}

impl NgError {
    /// Process exit code: 2 for a missing or inaccessible database, 3 for an
    /// unrecognized schema, 4 when a note could not be opened, 1 otherwise.
    pub fn exit_code(&self) -> (code: i32)
        ensures
            code == match self {
                NgError::DatabaseMissing(_) | NgError::DatabaseOpen { .. } => 2i32,
                NgError::Schema(_) => 3i32,
                NgError::OpenFailed => 4i32,
                _ => 1i32,
            },
    {
        match self {
            NgError::DatabaseMissing(_) | NgError::DatabaseOpen { .. } => 2,
            NgError::Schema(_) => 3,
            NgError::OpenFailed => 4,
            NgError::NoDataDir | NgError::NoMatch | NgError::Command(_) | NgError::Sqlite(_)
            | NgError::Io(_) | NgError::Json(_) => 1,
        }
    }
}

/// Counts of active notes, folders and accounts.
#[derive(Debug, Clone)]
pub struct StoreStats {
    pub notes: usize,
    pub folders: usize,
    pub accounts: usize,
}

/// A folder with its nested path and account-prefixed path.
#[derive(Debug, Clone)]
pub struct FolderEntry {
    pub id: i64,
    pub name: String,
    pub parent_id: Option<i64>,
    pub account_id: Option<i64>,
    pub account: Option<String>,
    pub path: String,
    pub account_path: String,
}


/// A planned folder rename or move.
#[derive(Debug, Clone)]
pub struct FolderMovePlan {
    pub source_id: i64,
    pub source_path: String,
    pub target_parent_id: Option<i64>,
    pub target_account_id: Option<i64>,
    pub target_path: String,
    pub new_name: String,
    pub descendant_folders: usize,
    pub notes: usize,
    pub will_change: bool,
}

/// A planned move of one note to another folder.
#[derive(Debug, Clone)]
pub struct NoteMovePlan {
    pub note_id: String,
    pub note_db_id: i64,
    pub note_title: String,
    pub source_folder_id: i64,
    pub source_folder_path: String,
    pub target_folder_id: i64,
    pub target_folder_path: String,
    pub will_change: bool,
}


/// The database id in a note URL `x-coredata://.../ICNote/p<digits>`: the
/// digits after the last `/ICNote/p`, when they fit an `i64`.
pub open spec fn spec_coredata_db_id(id: Seq<char>) -> Option<i64> {
    let k = last_occurrence(id, "/ICNote/p"@);
    let suffix = id.skip(k + 9);
    if !starts_with(id, "x-coredata://"@) || k < 0 || suffix.len() == 0 || !all_ascii_digits(suffix)
        || digits_value(suffix) > i64::MAX {
        None
    } else {
        Some(digits_value(suffix) as i64)
    }
}

/// The database id of a note URL `x-coredata://.../ICNote/p<digits>`.
pub fn parse_coredata_note_db_id(note_id: &str) -> (r: Option<i64>)
    ensures
        r == spec_coredata_db_id(note_id@),
{
    let chars = chars_of(note_id);
    let scheme = chars_of("x-coredata://");
    if !starts_with_chars(chars.as_slice(), scheme.as_slice()) {
        return None;
    }
    let marker = chars_of("/ICNote/p");
    assert(marker@.len() == 9) by {
        reveal_strlit("/ICNote/p");
    }
    let k = match last_occurrence_chars(chars.as_slice(), marker.as_slice()) {
        Some(k) => k,
        None => return None,
    };
    let n = chars.len();
    assert(k + marker@.len() <= n);
    let suffix = skip_chars(chars.as_slice(), k + marker.len());
    parse_i64_digits(suffix.as_slice())
}

/// Whether `note_id` is a note URL `x-coredata://.../ICNote/p<digits>`.
pub fn is_coredata_note_id(note_id: &str) -> (b: bool)
    ensures
        b == (spec_coredata_db_id(note_id@) is Some),
{
    parse_coredata_note_db_id(note_id).is_some()
}

/// A numeric note id: all ASCII digits, fitting an `i64`.
pub open spec fn spec_numeric_db_id(id: Seq<char>) -> Result<i64, Seq<char>> {
    if !all_ascii_digits(id) {
        Err("note ID must be an x-coredata://.../ICNote/p... ID or an unambiguous numeric database ID"@)
    } else if id.len() == 0 || digits_value(id) > i64::MAX {
        Err("numeric note database ID is out of range: '"@ + id + "'"@)
    } else {
        Ok(digits_value(id) as i64)
    }
}

/// Parses a numeric note database id.
pub fn parse_numeric_note_db_id(note_id: &str) -> (r: Result<i64, NgError>)
    ensures
        match (r, spec_numeric_db_id(note_id@)) {
            (Ok(v), Ok(w)) => v == w,
            (Err(e), Err(m)) => is_command_error(e, m),
            _ => false,
        },
{
    let chars = chars_of(note_id);
    if !all_digits(chars.as_slice()) {
        return Err(
            NgError::Command(
                String::from_str(
                    "note ID must be an x-coredata://.../ICNote/p... ID or an unambiguous numeric database ID",
                ),
            ),
        );
    }
    match parse_i64_digits(chars.as_slice()) {
        Some(v) => Ok(v),
        None => Err(NgError::Command(concat3("numeric note database ID is out of range: '", note_id, "'"))),
    }
}

/// A note reference given on the command line.
#[derive(Debug)]
pub struct NoteRef {
    /// The argument without surrounding white space.
    pub trimmed: String,
    /// The database id it names.
    pub db_id: i64,
}

/// The database id that a note argument names: a note URL, or else a
/// numeric id; a blank argument is refused.
pub open spec fn spec_note_ref(note_id: Seq<char>) -> Result<i64, Seq<char>> {
    let t = spec_trim(note_id);
    if t.len() == 0 {
        Err("note ID cannot be empty"@)
    } else {
        match spec_coredata_db_id(t) {
            Some(v) => Ok(v),
            None => spec_numeric_db_id(t),
        }
    }
}

/// Reads a note argument (see `spec_note_ref`).
pub fn parse_note_ref(note_id: &str) -> (r: Result<NoteRef, NgError>)
    ensures
        match (r, spec_note_ref(note_id@)) {
            (Ok(n), Ok(v)) => n.db_id == v && n.trimmed@ == spec_trim(note_id@),
            (Err(e), Err(m)) => is_command_error(e, m),
            _ => false,
        },
{
    let chars = chars_of(note_id);
    let t = trim_chars(chars.as_slice());
    if t.len() == 0 {
        return Err(NgError::Command(String::from_str("note ID cannot be empty")));
    }
    let trimmed = string_from_chars(t.as_slice());
    let db_id = match parse_coredata_note_db_id(trimmed.as_str()) {
        Some(v) => v,
        None => parse_numeric_note_db_id(trimmed.as_str())?,
    };
    Ok(NoteRef { trimmed, db_id })
}

/// An active note found by database id.
#[derive(Debug)]
pub struct ResolvedNote {
    pub id: String,
    pub db_id: i64,
    pub title: String,
    pub folder_id: i64,
}

/// Accepts the note found for a reference: there must be one, and a note
/// URL must name it exactly.
pub fn check_found_note(note: &NoteRef, found: Option<ResolvedNote>) -> (r: Result<ResolvedNote, NgError>)
    ensures
        ({
            let msg = "note not found: '"@ + note.trimmed@ + "'"@;
            match found {
                None => r matches Err(e) && is_command_error(e, msg),
                Some(n) => if starts_with(note.trimmed@, "x-coredata://"@) && n.id@ != note.trimmed@ {
                    r matches Err(e) && is_command_error(e, msg)
                } else {
                    r == Ok::<ResolvedNote, NgError>(n)
                },
            }
        }),
{
    match found {
        None => Err(NgError::Command(concat3("note not found: '", note.trimmed.as_str(), "'"))),
        Some(n) => {
            let t = chars_of(note.trimmed.as_str());
            let scheme = chars_of("x-coredata://");
            if starts_with_chars(t.as_slice(), scheme.as_slice()) && n.id != note.trimmed {
                Err(NgError::Command(concat3("note not found: '", note.trimmed.as_str(), "'")))
            } else {
                Ok(n)
            }
        },
    }
}

/// Index of the last entry with folder id `id`, or -1.
pub open spec fn last_with_id(fs: Seq<FolderEntry>, id: i64) -> int
    decreases fs.len(),
{
    if fs.len() == 0 {
        -1
    } else if fs.last().id == id {
        fs.len() - 1
    } else {
        last_with_id(fs.drop_last(), id)
    }
}

proof fn lemma_last_with_id(fs: Seq<FolderEntry>, id: i64)
    ensures
        -1 <= last_with_id(fs, id) < fs.len(),
        last_with_id(fs, id) >= 0 ==> fs[last_with_id(fs, id)].id == id,
    decreases fs.len(),
{
    if fs.len() > 0 && fs.last().id != id {
        lemma_last_with_id(fs.drop_last(), id);
    }
}

/// Index of the last entry with folder id `id`.
pub fn find_last_by_id(folders: &[FolderEntry], id: i64) -> (r: Option<usize>)
    ensures
        match r {
            Some(i) => i == last_with_id(folders@, id) && i < folders@.len(),
            None => last_with_id(folders@, id) < 0,
        },
{
    let mut i = folders.len();
    assert(folders@.take(i as int) == folders@);
    while i > 0
        invariant
            i <= folders@.len(),
            last_with_id(folders@, id) == last_with_id(folders@.take(i as int), id),
        decreases i,
    {
        assert(folders@.take(i as int).drop_last() == folders@.take(i - 1));
        if folders[i - 1].id == id {
            return Some(i - 1);
        }
        i = i - 1;
    }
    None
}

/// Outcome of planning a move of a note in folder `folder_id` to the folder
/// that `target_path` names, on listing `fs`: the source and target indices,
/// or the refusal. The note's folder must be listed, the target must resolve,
/// both accounts must be known, and they must be the same.
pub open spec fn spec_note_move(fs: Seq<FolderEntry>, folder_id: i64, note_id: Seq<char>, target_path: Seq<char>) -> Result<
    (int, int),
    Seq<char>,
> {
    let si = last_with_id(fs, folder_id);
    if si < 0 {
        Err("active source folder not found for note '"@ + note_id + "'"@)
    } else {
        match spec_resolve_folder(fs, target_path) {
            Err(m) => Err(m),
            Ok(ti) => {
                let source = fs[si];
                let target = fs[ti];
                if source.account_id is None || target.account_id is None {
                    Err("folder account is unknown for '"@ + source.account_path@ + "'; refusing to move it"@)
                } else if source.account_id != target.account_id {
                    Err(
                        "cross-account note moves are not supported: '"@ + source.account_path@ + "' -> '"@
                            + target.account_path@ + "'"@,
                    )
                } else {
                    Ok((si, ti))
                }
            },
        }
    }
}

/// Whether `p` plans moving `note` from folder `source` to folder `target`.
pub open spec fn note_plan_is(p: NoteMovePlan, note: ResolvedNote, source: FolderEntry, target: FolderEntry) -> bool {
    &&& p.note_id@ == note.id@
    &&& p.note_db_id == note.db_id
    &&& p.note_title@ == note.title@
    &&& p.source_folder_id == source.id
    &&& p.source_folder_path@ == source.account_path@
    &&& p.target_folder_id == target.id
    &&& p.target_folder_path@ == target.account_path@
    &&& p.will_change == (source.id != target.id)
}

/// Plans moving `note` to the existing folder that `target_folder_path`
/// names among the folders of `t` (see `spec_note_move`).
pub fn plan_note_move_in(t: &FolderTable, note: &ResolvedNote, target_folder_path: &str) -> (r: Result<
    NoteMovePlan,
    NgError,
>)
    ensures
        exists|fs: Seq<FolderEntry>|
            #[trigger] is_listing_of(fs, t@) && match (
                r,
                spec_note_move(fs, note.folder_id, note.id@, target_folder_path@),
            ) {
                (Ok(p), Ok((si, ti))) => 0 <= si < fs.len() && 0 <= ti < fs.len() && note_plan_is(
                    p,
                    *note,
                    fs[si],
                    fs[ti],
                ),
                (Err(e), Err(m)) => is_command_error(e, m),
                _ => false,
            },
{
    let folders = list_folders(t);
    let ghost fs = folders@;
    proof {
        lemma_last_with_id(fs, note.folder_id);
    }
    let si = match find_last_by_id(folders.as_slice(), note.folder_id) {
        Some(i) => i,
        None => {
            return Err(
                NgError::Command(concat3("active source folder not found for note '", note.id.as_str(), "'")),
            );
        },
    };
    let source = &folders[si];
    let target = resolve_folder(folders.as_slice(), target_folder_path)?;
    let ghost ti = spec_resolve_folder(fs, target_folder_path@)->Ok_0;
    if source.account_id.is_none() || target.account_id.is_none() {
        return Err(
            NgError::Command(
                concat3("folder account is unknown for '", source.account_path.as_str(), "'; refusing to move it"),
            ),
        );
    }
    if source.account_id != target.account_id {
        let mut msg = concat3(
            "cross-account note moves are not supported: '",
            source.account_path.as_str(),
            "' -> '",
        );
        msg.append(target.account_path.as_str());
        msg.append("'");
        return Err(NgError::Command(msg));
    }
    Ok(
        NoteMovePlan {
            note_id: note.id.clone(),
            note_db_id: note.db_id,
            note_title: note.title.clone(),
            source_folder_id: source.id,
            source_folder_path: source.account_path.clone(),
            target_folder_id: target.id,
            target_folder_path: target.account_path,
            will_change: source.id != target.id,
        },
    )
}

/// Plans moving `note` to the existing folder that `target_folder_path`
/// names among the folders of `raw` (see `spec_note_move`).
pub fn plan_note_move_for(raw: &HashMap<i64, RawFolder>, note: &ResolvedNote, target_folder_path: &str) -> (r: Result<
    NoteMovePlan,
    NgError,
>)
    ensures
        exists|s: Seq<(i64, RawFolder)>, fs: Seq<FolderEntry>|
            #[trigger] table_of(s, raw@) && #[trigger] is_listing_of(fs, s) && match (
                r,
                spec_note_move(fs, note.folder_id, note.id@, target_folder_path@),
            ) {
                (Ok(p), Ok((si, ti))) => 0 <= si < fs.len() && 0 <= ti < fs.len() && note_plan_is(
                    p,
                    *note,
                    fs[si],
                    fs[ti],
                ),
                (Err(e), Err(m)) => is_command_error(e, m),
                _ => false,
            },
{
    let t = FolderTable::from_map(raw);
    let r = plan_note_move_in(&t, note, target_folder_path);
    assert(table_of(t@, raw@));
    r
}

/// The status `ng` shows at home for the outcome of opening the database
/// and reading its counts.
pub open spec fn spec_home_status(outcome: Result<StoreStats, NgError>) -> Seq<char> {
    match outcome {
        Ok(_) => "ready"@,
        Err(NgError::DatabaseMissing(_)) => "missing-notes-db"@,
        Err(NgError::DatabaseOpen { .. }) => "needs-full-disk-access"@,
        Err(NgError::Schema(_)) => "unrecognized-notes-schema"@,
        Err(_) => "needs-attention"@,
    }
}

/// The home status for the outcome of opening the database and reading
/// its counts (see `spec_home_status`).
pub fn home_status(outcome: &Result<StoreStats, NgError>) -> (s: &'static str)
    ensures
        s@ == spec_home_status(*outcome),
{
    match outcome {
        Ok(_) => "ready",
        Err(NgError::DatabaseMissing(_)) => "missing-notes-db",
        Err(NgError::DatabaseOpen { .. }) => "needs-full-disk-access",
        Err(NgError::Schema(_)) => "unrecognized-notes-schema",
        Err(_) => "needs-attention",
    }
}

/// The first of `columns` that `present` marks missing, if any.
pub open spec fn first_missing(present: Seq<bool>) -> int
    decreases present.len(),
{
    if present.len() == 0 {
        -1
    } else if !present[0] {
        0
    } else {
        let r = first_missing(present.drop_first());
        if r < 0 {
            -1
        } else {
            r + 1
        }
    }
}

/// Checks that the columns a command needs exist: the first one missing is
/// a schema error `missing <kind> column ZICCLOUDSYNCINGOBJECT.<column>`.
pub fn require_columns(kind: &str, columns: &[&str], present: &[bool]) -> (r: Result<(), NgError>)
    requires
        columns.len() == present.len(),
    ensures
        ({
            let i = first_missing(present@);
            match r {
                Ok(()) => i < 0,
                Err(e) => 0 <= i < columns.len() && (e matches NgError::Schema(m) && m@ == "missing "@
                    + kind@ + " column ZICCLOUDSYNCINGOBJECT."@ + columns@[i]@),
            }
        }),
{
    let mut i: usize = 0;
    assert(present@.skip(0) == present@);
    while i < present.len()
        invariant
            i <= present@.len(),
            columns@.len() == present@.len(),
            first_missing(present@) == if first_missing(present@.skip(i as int)) < 0 {
                -1
            } else {
                first_missing(present@.skip(i as int)) + i
            },
        decreases present@.len() - i,
    {
        assert(present@.skip(i as int)[0] == present@[i as int]);
        assert(present@.skip(i as int).drop_first() == present@.skip(i + 1));
        if !present[i] {
            let mut m = concat3("missing ", kind, " column ZICCLOUDSYNCINGOBJECT.");
            m.append(columns[i]);
            return Err(NgError::Schema(m));
        }
        i = i + 1;
    }
    Ok(())
}

/// The SQL that counts active notes in `n` folders, one `?` per folder id;
/// `None` when there are no folders (the count is then 0).
pub open spec fn spec_folder_note_count_sql(n: nat) -> Option<Seq<char>> {
    if n == 0 {
        None
    } else {
        Some(
            "SELECT COUNT(*) FROM ZICCLOUDSYNCINGOBJECT WHERE ZTITLE1 IS NOT NULL AND COALESCE(ZMARKEDFORDELETION, 0) != 1 AND ZFOLDER IN ("@
                + placeholders(n) + ")"@,
        )
    }
}

/// `n` question marks separated by `, `.
pub open spec fn placeholders(n: nat) -> Seq<char>
    decreases n,
{
    if n <= 1 {
        if n == 1 {
            seq!['?']
        } else {
            seq![]
        }
    } else {
        placeholders((n - 1) as nat) + seq![',', ' ', '?']
    }
}

/// The SQL that counts active notes in `n` folders (see
/// `spec_folder_note_count_sql`).
pub fn folder_note_count_sql(n: usize) -> (r: Option<String>)
    ensures
        match r {
            Some(s) => spec_folder_note_count_sql(n as nat) == Some(s@),
            None => spec_folder_note_count_sql(n as nat) is None,
        },
{
    if n == 0 {
        return None;
    }
    let mut marks: Vec<char> = Vec::new();
    marks.push('?');
    let mut i: usize = 1;
    while i < n
        invariant
            1 <= i <= n,
            marks@ == placeholders(i as nat),
        decreases n - i,
    {
        marks.push(',');
        marks.push(' ');
        marks.push('?');
        assert(marks@ =~= placeholders((i + 1) as nat));
        i = i + 1;
    }
    let p = string_from_chars(marks.as_slice());
    Some(
        concat3(
            "SELECT COUNT(*) FROM ZICCLOUDSYNCINGOBJECT WHERE ZTITLE1 IS NOT NULL AND COALESCE(ZMARKEDFORDELETION, 0) != 1 AND ZFOLDER IN (",
            p.as_str(),
            ")",
        ),
    )
}

/// The columns whose presence flag is set, in order.
pub open spec fn present_columns(columns: Seq<Seq<char>>, present: Seq<bool>) -> Seq<Seq<char>>
    decreases columns.len(),
{
    if columns.len() == 0 || present.len() < columns.len() {
        seq![]
    } else {
        let prev = present_columns(columns.drop_last(), present.take(columns.len() - 1));
        if present[columns.len() - 1] {
            prev.push(columns.last())
        } else {
            prev
        }
    }
}

/// `c IS NOT NULL` for each column, joined with ` OR `.
pub open spec fn not_null_any(cols: Seq<Seq<char>>) -> Seq<char>
    decreases cols.len(),
{
    if cols.len() == 0 {
        seq![]
    } else if cols.len() == 1 {
        cols[0] + " IS NOT NULL"@
    } else {
        not_null_any(cols.drop_last()) + " OR "@ + cols.last() + " IS NOT NULL"@
    }
}

/// The SQL that counts active accounts: rows with a value in any of the
/// account columns that exist; `None` when none exists (the count is 0).
pub open spec fn spec_account_count_sql(columns: Seq<Seq<char>>, present: Seq<bool>) -> Option<Seq<char>> {
    let cols = present_columns(columns, present);
    if cols.len() == 0 {
        None
    } else {
        Some(
            "SELECT COUNT(*) FROM ZICCLOUDSYNCINGOBJECT WHERE ("@ + not_null_any(cols)
                + ") AND COALESCE(ZMARKEDFORDELETION, 0) != 1"@,
        )
    }
}

/// The views of a list of string slices.
pub open spec fn str_views(v: Seq<&str>) -> Seq<Seq<char>> {
    v.map_values(|s: &str| s@)
}

/// The SQL that counts active accounts (see `spec_account_count_sql`).
pub fn account_count_sql(columns: &[&str], present: &[bool]) -> (r: Option<String>)
    requires
        columns.len() == present.len(),
    ensures
        match r {
            Some(s) => spec_account_count_sql(str_views(columns@), present@) == Some(s@),
            None => spec_account_count_sql(str_views(columns@), present@) is None,
        },
{
    let ghost cv = str_views(columns@);
    let mut preds: Vec<char> = Vec::new();
    let mut count: usize = 0;
    for i in 0..columns.len()
        invariant
            columns@.len() == present@.len(),
            cv == str_views(columns@),
            count == present_columns(cv.take(i as int), present@.take(i as int)).len(),
            preds@ == not_null_any(present_columns(cv.take(i as int), present@.take(i as int))),
            count <= i,
    {
        let ghost before = present_columns(cv.take(i as int), present@.take(i as int));
        assert(cv.take(i + 1).drop_last() == cv.take(i as int));
        assert(present@.take(i + 1).take(i as int) == present@.take(i as int));
        assert(cv.take(i + 1).last() == columns@[i as int]@);
        if present[i] {
            if count > 0 {
                push_str(&mut preds, " OR ");
            }
            push_str(&mut preds, columns[i]);
            push_str(&mut preds, " IS NOT NULL");
            count = count + 1;
            let ghost after = before.push(columns@[i as int]@);
            assert(after.drop_last() == before);
            assert(preds@ =~= not_null_any(after));
        }
    }
    assert(cv.take(columns@.len() as int) == cv);
    assert(present@.take(present@.len() as int) == present@);
    if count == 0 {
        return None;
    }
    let p = string_from_chars(preds.as_slice());
    Some(
        concat3(
            "SELECT COUNT(*) FROM ZICCLOUDSYNCINGOBJECT WHERE (",
            p.as_str(),
            ") AND COALESCE(ZMARKEDFORDELETION, 0) != 1",
        ),
    )
}

proof fn lemma_placeholders_shape(n: nat)
    requires
        n >= 1,
    ensures
        placeholders(n).len() == 3 * n - 2,
        forall|k: int| 0 <= k < n ==> #[trigger] placeholders(n)[3 * k] == '?',
        forall|k: int| 0 <= k < n - 1 ==> #[trigger] placeholders(n)[3 * k + 1] == ',',
        forall|k: int| 0 <= k < n - 1 ==> #[trigger] placeholders(n)[3 * k + 2] == ' ',
    decreases n,
{
    if n > 1 {
        lemma_placeholders_shape((n - 1) as nat);
        let p = placeholders((n - 1) as nat);
        let q = placeholders(n);
        assert(q == p + seq![',', ' ', '?']);
        assert forall|k: int| 0 <= k < n implies #[trigger] q[3 * k] == '?' by {
            if k < n - 1 {
                assert(q[3 * k] == p[3 * k]);
            }
        }
        assert forall|k: int| 0 <= k < n - 1 implies #[trigger] q[3 * k + 1] == ',' by {
            if k < n - 2 {
                assert(q[3 * k + 1] == p[3 * k + 1]);
            } else {
                assert(3 * k + 1 == p.len());
            }
        }
        assert forall|k: int| 0 <= k < n - 1 implies #[trigger] q[3 * k + 2] == ' ' by {
            if k < n - 2 {
                assert(q[3 * k + 2] == p[3 * k + 2]);
            } else {
                assert(3 * k + 2 == p.len() + 1);
            }
        }
    }
}

/// Law of the folder note-count query: with no folder there is no query;
/// with `n` folders the query is the count of active notes whose `ZFOLDER`
/// is in the list: `SELECT COUNT(*) FROM ZICCLOUDSYNCINGOBJECT WHERE
/// ZTITLE1 IS NOT NULL AND COALESCE(ZMARKEDFORDELETION, 0) != 1 AND ZFOLDER
/// IN (`, then `n` question marks separated by `, `, then `)`.
pub proof fn law_folder_note_count_sql(n: nat)
    ensures
        n == 0 ==> spec_folder_note_count_sql(n) is None,
        n > 0 ==> spec_folder_note_count_sql(n) is Some && ({
            let q = spec_folder_note_count_sql(n)->0;
            let head =
                "SELECT COUNT(*) FROM ZICCLOUDSYNCINGOBJECT WHERE ZTITLE1 IS NOT NULL AND COALESCE(ZMARKEDFORDELETION, 0) != 1 AND ZFOLDER IN ("@;
            &&& q.len() == head.len() + 3 * n - 1
            &&& q.take(head.len() as int) == head
            &&& forall|k: int| 0 <= k < n ==> #[trigger] q[head.len() + 3 * k] == '?'
            &&& forall|k: int| 0 <= k < n - 1 ==> #[trigger] q[head.len() + 3 * k + 1] == ',' && q[head.len() + 3 * k + 2] == ' '
            &&& q.last() == ')'
        }),
{
    reveal_strlit(")");
    if n > 0 {
        lemma_placeholders_shape(n);
        let head =
            "SELECT COUNT(*) FROM ZICCLOUDSYNCINGOBJECT WHERE ZTITLE1 IS NOT NULL AND COALESCE(ZMARKEDFORDELETION, 0) != 1 AND ZFOLDER IN ("@;
        let p = placeholders(n);
        let q = spec_folder_note_count_sql(n)->0;
        assert(q == head + p + ")"@);
        assert(q.take(head.len() as int) =~= head);
        assert forall|k: int| 0 <= k < n implies #[trigger] q[head.len() + 3 * k] == '?' by {
            assert(q[head.len() + 3 * k] == p[3 * k]);
        }
        assert forall|k: int| 0 <= k < n - 1 implies #[trigger] q[head.len() + 3 * k + 1] == ',' && q[head.len() + 3
            * k + 2] == ' ' by {
            assert(q[head.len() + 3 * k + 1] == p[3 * k + 1]);
            assert(q[head.len() + 3 * k + 2] == p[3 * k + 2]);
        }
    }
}

proof fn lemma_present_columns_push(cols: Seq<Seq<char>>, pres: Seq<bool>, c: Seq<char>, t: bool)
    requires
        cols.len() == pres.len(),
    ensures
        present_columns(cols.push(c), pres.push(t)) == (if t {
            present_columns(cols, pres).push(c)
        } else {
            present_columns(cols, pres)
        }),
{
    assert(cols.push(c).drop_last() == cols);
    assert(pres.push(t).take(cols.len() as int) == pres);
}

/// Law of the account-count query: with no account column present there is
/// no query; a column whose flag is unset changes nothing; the first
/// present column `c` gives `SELECT COUNT(*) FROM ZICCLOUDSYNCINGOBJECT
/// WHERE (c IS NOT NULL) AND COALESCE(ZMARKEDFORDELETION, 0) != 1`; and each
/// further present column `c` adds ` OR c IS NOT NULL` inside the
/// brackets, so a row counts when any present column holds a value.
pub proof fn law_account_count_sql(cols: Seq<Seq<char>>, pres: Seq<bool>, c: Seq<char>, p: Seq<char>)
    requires
        cols.len() == pres.len(),
    ensures
        ({
            let pre = "SELECT COUNT(*) FROM ZICCLOUDSYNCINGOBJECT WHERE ("@;
            let suf = ") AND COALESCE(ZMARKEDFORDELETION, 0) != 1"@;
            &&& cols.len() == 0 ==> spec_account_count_sql(cols, pres) is None
            &&& spec_account_count_sql(cols.push(c), pres.push(false)) == spec_account_count_sql(cols, pres)
            &&& spec_account_count_sql(cols, pres) is None ==> spec_account_count_sql(cols.push(c), pres.push(true))
                == Some(pre + c + " IS NOT NULL"@ + suf)
            &&& spec_account_count_sql(cols, pres) == Some(pre + p + suf) ==> spec_account_count_sql(
                cols.push(c),
                pres.push(true),
            ) == Some(pre + p + " OR "@ + c + " IS NOT NULL"@ + suf)
        }),
{
    let pre = "SELECT COUNT(*) FROM ZICCLOUDSYNCINGOBJECT WHERE ("@;
    let suf = ") AND COALESCE(ZMARKEDFORDELETION, 0) != 1"@;
    lemma_present_columns_push(cols, pres, c, false);
    lemma_present_columns_push(cols, pres, c, true);
    let pc = present_columns(cols, pres);
    let pc2 = pc.push(c);
    assert(pc2.drop_last() == pc);
    assert(pc2.last() == c);
    if pc.len() == 0 {
        assert(pc2[0] == c);
        assert(pre + not_null_any(pc2) + suf =~= pre + c + " IS NOT NULL"@ + suf);
    } else {
        let x = pre + not_null_any(pc) + suf;
        if x == pre + p + suf {
            assert(x.len() == pre.len() + not_null_any(pc).len() + suf.len());
            assert((pre + p + suf).len() == pre.len() + p.len() + suf.len());
            assert(not_null_any(pc).len() == p.len());
            assert(not_null_any(pc) =~= p) by {
                assert forall|i: int| 0 <= i < p.len() implies not_null_any(pc)[i] == p[i] by {
                    assert(x[pre.len() + i] == not_null_any(pc)[i]);
                    assert((pre + p + suf)[pre.len() + i] == p[i]);
                }
            }
            assert(pre + not_null_any(pc2) + suf =~= pre + p + " OR "@ + c + " IS NOT NULL"@ + suf);
        }
    }
}

/// The note URL that the database query builds for a note: the store's
/// UUID and the note's primary key, `x-coredata://<uuid>/ICNote/p<pk>`.
pub open spec fn note_url(uuid: Seq<char>, pk: nat) -> Seq<char> {
    "x-coredata://"@ + uuid + "/ICNote/p"@ + spec_nat_decimal(pk)
}

proof fn lemma_digit_value(m: int)
    requires
        0 <= m < 10,
    ensures
        is_ascii_digit(digit_char(m)),
        (digit_char(m) as u32) - ('0' as u32) == m,
{
    if m == 0 {
    } else if m == 1 {
    } else if m == 2 {
    } else if m == 3 {
    } else if m == 4 {
    } else if m == 5 {
    } else if m == 6 {
    } else if m == 7 {
    } else if m == 8 {
    } else {
    }
}

proof fn lemma_decimal_digits(n: nat)
    ensures
        spec_nat_decimal(n).len() >= 1,
        all_ascii_digits(spec_nat_decimal(n)),
        digits_value(spec_nat_decimal(n)) == n,
    decreases n,
{
    let d = spec_nat_decimal(n);
    if n < 10 {
        lemma_digit_value(n as int);
        assert(d == seq![digit_char(n as int)]);
        assert(d.drop_last() == Seq::<char>::empty());
        assert(digits_value(d) == digits_value(d.drop_last()) * 10 + ((d.last() as u32) - ('0' as u32)));
    } else {
        lemma_decimal_digits(n / 10);
        let m = (n % 10) as int;
        let q = (n / 10) as int;
        lemma_digit_value(m);
        let prev = spec_nat_decimal(n / 10);
        assert(d == prev.push(digit_char(m)));
        assert(d.drop_last() == prev);
        assert(digits_value(d) == digits_value(prev) * 10 + m);
        assert(q * 10 + m == n) by (nonlinear_arith)
            requires
                q == n / 10,
                m == n % 10,
        ;
        assert forall|i: int| 0 <= i < d.len() implies is_ascii_digit(#[trigger] d[i]) by {
            if i < prev.len() {
                assert(d[i] == prev[i]);
            }
        }
    }
}

proof fn lemma_last_occurrence_at(s: Seq<char>, pat: Seq<char>, k: int, j: int)
    requires
        0 <= k <= j,
        occurs_at(s, pat, k),
        forall|i: int| k < i <= j ==> !occurs_at(s, pat, i),
    ensures
        last_occurrence_from(s, pat, j) == k,
    decreases j - k,
{
    if j > k {
        lemma_last_occurrence_at(s, pat, k, j - 1);
    }
}

proof fn lemma_marker_only_at_end(a: Seq<char>, d: Seq<char>)
    requires
        all_ascii_digits(d),
    ensures
        forall|i: int|
            a.len() < i <= (a + "/ICNote/p"@ + d).len() - 9 ==> !occurs_at(a + "/ICNote/p"@ + d, "/ICNote/p"@, i),
{
    reveal_strlit("/ICNote/p");
    let marker = "/ICNote/p"@;
    let url = a + marker + d;
    let k = a.len() as int;
    assert forall|i: int| k < i <= url.len() - 9 implies !occurs_at(url, marker, i) by {
        if occurs_at(url, marker, i) {
            let w = url.subrange(i, i + 9);
            assert(w[0] == url[i]);
            if i < k + 9 {
                assert(url[i] == marker[i - k]);
                if i - k == 7 {
                    assert(w[1] == url[i + 1]);
                    assert(url[i + 1] == marker[8]);
                }
            } else {
                assert(url[i] == d[i - k - 9]);
                assert(is_ascii_digit(d[i - k - 9]));
            }
        }
    }
}

/// Law: every note URL the store hands out names its note again. For any
/// store UUID and any primary key that fits an `i64`, the URL parses back
/// to that key, both as a note URL and as a `ng note mv` argument.
pub proof fn law_note_urls_parse_back(uuid: Seq<char>, pk: nat)
    requires
        pk <= i64::MAX,
    ensures
        spec_coredata_db_id(note_url(uuid, pk)) == Some(pk as i64),
        spec_note_ref(note_url(uuid, pk)) == Ok::<i64, Seq<char>>(pk as i64),
{
    let scheme = "x-coredata://"@;
    let marker = "/ICNote/p"@;
    reveal_strlit("x-coredata://");
    reveal_strlit("/ICNote/p");
    let a = scheme + uuid;
    let d = spec_nat_decimal(pk);
    lemma_decimal_digits(pk);
    let url = a + marker + d;
    assert(url == note_url(uuid, pk));
    let k = a.len() as int;
    assert(url.subrange(k, k + 9) =~= marker);
    lemma_marker_only_at_end(a, d);
    lemma_last_occurrence_at(url, marker, k, url.len() - 9);
    assert(url.skip(k + 9) =~= d);
    assert(url.take(13) =~= scheme);
    assert(url[0] == 'x');
    assert(url.last() == d.last());
    assert(is_ascii_digit(d[d.len() - 1]));
    assert(spec_trim_end(url) == url);
    assert(spec_trim_start(url) == url);
}

/// Law: an accepted note move stays within one known account, the note
/// moves between listed folders, and it changes something exactly when the
/// target folder is not the note's current folder.
pub proof fn law_note_moves_stay_in_one_account(
    fs: Seq<FolderEntry>,
    note: ResolvedNote,
    target_path: Seq<char>,
    p: NoteMovePlan,
)
    requires
        spec_note_move(fs, note.folder_id, note.id@, target_path) is Ok,
        ({
            let (si, ti) = spec_note_move(fs, note.folder_id, note.id@, target_path)->Ok_0;
            note_plan_is(p, note, fs[si], fs[ti])
        }),
    ensures
        ({
            let (si, ti) = spec_note_move(fs, note.folder_id, note.id@, target_path)->Ok_0;
            &&& 0 <= si < fs.len() && 0 <= ti < fs.len()
            &&& fs[si].id == note.folder_id
            &&& fs[si].account_id is Some
            &&& fs[si].account_id == fs[ti].account_id
            &&& p.source_folder_id == note.folder_id
            &&& (p.will_change <==> p.source_folder_id != p.target_folder_id)
        }),
{
    lemma_last_with_id(fs, note.folder_id);
    let ti = spec_resolve_folder(fs, target_path)->Ok_0;
    crate::folder::lemma_resolve_folder_index(fs, target_path);
}

} // verus!