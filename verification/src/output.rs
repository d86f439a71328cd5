//! Text shown in a terminal: untrusted note text made inert, titles cut to
//! length, and the lines printed for hits, folders and planned moves.

use vstd::prelude::*;

use crate::folder::{opt_view, push_str};
use crate::notes::{FolderEntry, FolderMovePlan, NoteMovePlan, StoreStats};
use crate::search::NoteHit;
use crate::text::{
    chars_of, is_control, is_whitespace, nat_decimal, spec_is_control, spec_is_whitespace,
    spec_nat_decimal, string_from_chars,
};

verus! {

/// Terminal-safe text and whether white space is waiting to be written,
/// after reading `s`.
pub open spec fn sanitize_fold(s: Seq<char>) -> (Seq<char>, bool)
    decreases s.len(),
{
    if s.len() == 0 {
        (seq![], false)
    } else {
        let (out, pending) = sanitize_fold(s.drop_last());
        let c = s.last();
        if spec_is_whitespace(c) {
            (out, true)
        } else {
            let spaced = if pending {
                out.push(' ')
            } else {
                out
            };
            (spaced.push(if spec_is_control(c) { '\u{fffd}' } else { c }), false)
        }
    }
}

/// `s` made inert for a terminal: each run of white space becomes one
/// space (none at the end), and every other control character becomes
/// U+FFFD.
pub open spec fn spec_sanitize_terminal(s: Seq<char>) -> Seq<char> {
    sanitize_fold(s).0
}

/// Makes untrusted text inert for a terminal (see `spec_sanitize_terminal`).
pub fn sanitize_terminal(value: &str) -> (r: String)
    ensures
        r@ == spec_sanitize_terminal(value@),
{
    let chars = chars_of(value);
    let mut out: Vec<char> = Vec::new();
    let mut pending = false;
    for i in 0..chars.len()
        invariant
            (out@, pending) == sanitize_fold(chars@.take(i as int)),
    {
        assert(chars@.take(i + 1).drop_last() == chars@.take(i as int));
        let c = chars[i];
        if is_whitespace(c) {
            pending = true;
        } else {
            if pending {
                out.push(' ');
                pending = false;
            }
            if is_control(c) {
                out.push('\u{fffd}');
            } else {
                out.push(c);
            }
        }
    }
    assert(chars@.take(chars@.len() as int) == chars@);
    string_from_chars(out.as_slice())
}

/// `s` cut to its first `max` characters, with `...` added when it was longer.
pub open spec fn spec_truncate(s: Seq<char>, max: nat) -> Seq<char> {
    if s.len() <= max {
        s
    } else {
        s.take(max as int) + "..."@
    }
}

/// Cuts text to at most `max_chars` characters (see `spec_truncate`).
pub fn truncate(value: &str, max_chars: usize) -> (r: String)
    ensures
        r@ == spec_truncate(value@, max_chars as nat),
{
    let chars = chars_of(value);
    if chars.len() <= max_chars {
        return string_from_chars(chars.as_slice());
    }
    let mut out: Vec<char> = Vec::new();
    for i in 0..max_chars
        invariant
            max_chars < chars@.len(),
            out@ == chars@.take(i as int),
    {
        out.push(chars[i]);
        assert(chars@.take(i + 1) == chars@.take(i as int).push(chars@[i as int]));
    }
    push_str(&mut out, "...");
    string_from_chars(out.as_slice())
}

/// `b` as `Display` writes it.
pub open spec fn bool_text(b: bool) -> Seq<char> {
    if b {
        "true"@
    } else {
        "false"@
    }
}

/// `label` followed by a count in decimal.
pub open spec fn counted(label: Seq<char>, n: nat) -> Seq<char> {
    label + spec_nat_decimal(n)
}

fn counted_line(label: &str, n: usize) -> (r: String)
    ensures
        r@ == counted(label@, n as nat),
{
    let mut v = chars_of(label);
    let mut d = nat_decimal(n as u64);
    v.append(&mut d);
    string_from_chars(v.as_slice())
}

fn labelled_line(label: &str, value: &str) -> (r: String)
    ensures
        r@ == label@ + value@,
{
    let mut v = chars_of(label);
    push_str(&mut v, value);
    string_from_chars(v.as_slice())
}

fn bool_line(label: &str, b: bool) -> (r: String)
    ensures
        r@ == label@ + bool_text(b),
{
    if b {
        labelled_line(label, "true")
    } else {
        labelled_line(label, "false")
    }
}

/// The views of a list of strings.
pub open spec fn line_views(v: Seq<String>) -> Seq<Seq<char>> {
    v.map_values(|s: String| s@)
}

/// The lines printed for store counts.
pub open spec fn spec_stats_lines(st: StoreStats) -> Seq<Seq<char>> {
    seq![
        counted("notes: "@, st.notes as nat),
        counted("folders: "@, st.folders as nat),
        counted("accounts: "@, st.accounts as nat),
    ]
}

/// The lines printed for store counts.
pub fn stats_lines(stats: &StoreStats) -> (r: Vec<String>)
    ensures
        line_views(r@) == spec_stats_lines(*stats),
{
    let mut r: Vec<String> = Vec::new();
    r.push(counted_line("notes: ", stats.notes));
    r.push(counted_line("folders: ", stats.folders));
    r.push(counted_line("accounts: ", stats.accounts));
    assert(line_views(r@) =~= spec_stats_lines(*stats));
    r
}

/// The lines printed for a folder listing: the count, then each
/// account-prefixed path made inert.
pub open spec fn spec_folder_lines(folders: Seq<FolderEntry>) -> Seq<Seq<char>> {
    seq![counted("folders: "@, folders.len())] + folders.map_values(
        |f: FolderEntry| spec_sanitize_terminal(f.account_path@),
    )
}

/// The lines printed for a folder listing.
pub fn folder_lines(folders: &[FolderEntry]) -> (r: Vec<String>)
    ensures
        line_views(r@) == spec_folder_lines(folders@),
{
    let mut r: Vec<String> = Vec::new();
    r.push(counted_line("folders: ", folders.len()));
    let ghost f = |e: FolderEntry| spec_sanitize_terminal(e.account_path@);
    for i in 0..folders.len()
        invariant
            line_views(r@) == seq![counted("folders: "@, folders@.len())] + folders@.take(i as int).map_values(f),
            f == (|e: FolderEntry| spec_sanitize_terminal(e.account_path@)),
    {
        let ghost before = line_views(r@);
        r.push(sanitize_terminal(folders[i].account_path.as_str()));
        assert(folders@.take(i + 1).map_values(f) =~= folders@.take(i as int).map_values(f).push(
            spec_sanitize_terminal(folders@[i as int].account_path@),
        ));
        assert(line_views(r@) =~= before.push(spec_sanitize_terminal(folders@[i as int].account_path@)));
    }
    assert(folders@.take(folders@.len() as int) == folders@);
    assert(line_views(r@) =~= spec_folder_lines(folders@));
    r
}

/// The folder shown for a hit: its account path, else its nested path,
/// else its folder title, else `-`.
pub open spec fn hit_folder(h: NoteHit) -> Seq<char> {
    match (opt_view(h.account_path), opt_view(h.folder_path), opt_view(h.folder)) {
        (Some(a), _, _) => a,
        (None, Some(p), _) => p,
        (None, None, Some(f)) => f,
        (None, None, None) => "-"@,
    }
}

/// The lines printed for one hit: id, folder and title (cut to 72
/// characters), then, unless snippets are off, the snippet (cut to 96
/// characters) when it is not blank; all made inert.
pub open spec fn spec_hit_block(h: NoteHit, no_snippet: bool) -> Seq<Seq<char>> {
    let head = spec_sanitize_terminal(h.id@) + "  "@ + spec_sanitize_terminal(hit_folder(h)) + "  "@
        + spec_sanitize_terminal(spec_truncate(h.title@, 72));
    let snippet = spec_sanitize_terminal(
        spec_truncate(
            match opt_view(h.snippet) {
                Some(t) => t,
                None => seq![],
            },
            96,
        ),
    );
    if !no_snippet && snippet.len() > 0 {
        seq![head, "  "@ + snippet]
    } else {
        seq![head]
    }
}

/// The blocks of lines for a list of hits, in order.
pub open spec fn spec_hit_blocks(hits: Seq<NoteHit>, no_snippet: bool) -> Seq<Seq<char>>
    decreases hits.len(),
{
    if hits.len() == 0 {
        seq![]
    } else {
        spec_hit_blocks(hits.drop_last(), no_snippet) + spec_hit_block(hits.last(), no_snippet)
    }
}

/// The lines printed for search hits: the count, then each hit's block.
pub open spec fn spec_hit_lines(hits: Seq<NoteHit>, no_snippet: bool) -> Seq<Seq<char>> {
    seq![counted("hits: "@, hits.len())] + spec_hit_blocks(hits, no_snippet)
}

fn hit_folder_exec(h: &NoteHit) -> (r: &str)
    ensures
        r@ == hit_folder(*h),
{
    match (&h.account_path, &h.folder_path, &h.folder) {
        (Some(a), _, _) => a.as_str(),
        (None, Some(p), _) => p.as_str(),
        (None, None, Some(f)) => f.as_str(),
        (None, None, None) => "-",
    }
}

/// The lines printed for search hits (see `spec_hit_lines`).
pub fn hit_lines(hits: &[NoteHit], no_snippet: bool) -> (r: Vec<String>)
    ensures
        line_views(r@) == spec_hit_lines(hits@, no_snippet),
{
    let mut r: Vec<String> = Vec::new();
    r.push(counted_line("hits: ", hits.len()));
    for i in 0..hits.len()
        invariant
            line_views(r@) == seq![counted("hits: "@, hits@.len())] + spec_hit_blocks(
                hits@.take(i as int),
                no_snippet,
            ),
    {
        let h = &hits[i];
        assert(hits@.take(i + 1).drop_last() == hits@.take(i as int));
        let ghost before = line_views(r@);
        let id = sanitize_terminal(h.id.as_str());
        let folder = sanitize_terminal(hit_folder_exec(h));
        let title = sanitize_terminal(truncate(h.title.as_str(), 72).as_str());
        let mut head = chars_of(id.as_str());
        push_str(&mut head, "  ");
        push_str(&mut head, folder.as_str());
        push_str(&mut head, "  ");
        push_str(&mut head, title.as_str());
        r.push(string_from_chars(head.as_slice()));
        let ghost head_view = head@;
        let text = match &h.snippet {
            Some(t) => t.as_str(),
            None => "",
        };
        proof {
            reveal_strlit("");
        }
        assert(text@ == match opt_view(h.snippet) {
            Some(t) => t,
            None => seq![],
        });
        let snippet = sanitize_terminal(truncate(text, 96).as_str());
        let ghost block = spec_hit_block(hits@[i as int], no_snippet);
        assert(block[0] == head_view);
        if !no_snippet && !snippet.as_str().is_empty() {
            let mut line = chars_of("  ");
            push_str(&mut line, snippet.as_str());
            r.push(string_from_chars(line.as_slice()));
            assert(block =~= seq![head_view, line@]);
        } else {
            assert(block =~= seq![head_view]);
        }
        assert(line_views(r@) =~= before + block);
    }
    assert(hits@.take(hits@.len() as int) == hits@);
    r
}

/// What `ng folder mv` reports.
#[derive(Debug, Clone)]
pub struct FolderMoveView {
    pub status: String,
    pub applied: bool,
    pub changed: bool,
    pub source: String,
    pub target: String,
    pub descendant_folders: usize,
    pub notes: usize,
}

/// `ok` once applied, `dry-run` before.
pub open spec fn status_text(applied: bool) -> Seq<char> {
    if applied {
        "ok"@
    } else {
        "dry-run"@
    }
}

fn status_string(applied: bool) -> (r: String)
    ensures
        r@ == status_text(applied),
{
    if applied {
        String::from_str("ok")
    } else {
        String::from_str("dry-run")
    }
}

/// The report of a folder move plan, applied or not.
pub fn folder_move_view(plan: &FolderMovePlan, applied: bool) -> (v: FolderMoveView)
    ensures
        v.status@ == status_text(applied),
        v.applied == applied,
        v.changed == plan.will_change,
        v.source@ == plan.source_path@,
        v.target@ == plan.target_path@,
        v.descendant_folders == plan.descendant_folders,
        v.notes == plan.notes,
{
    FolderMoveView {
        status: status_string(applied),
        applied,
        changed: plan.will_change,
        source: plan.source_path.clone(),
        target: plan.target_path.clone(),
        descendant_folders: plan.descendant_folders,
        notes: plan.notes,
    }
}

/// The lines printed for a folder move report.
pub open spec fn spec_folder_move_lines(v: FolderMoveView) -> Seq<Seq<char>> {
    let body = seq![
        "folder-move: "@ + v.status@,
        "source: "@ + spec_sanitize_terminal(v.source@),
        "target: "@ + spec_sanitize_terminal(v.target@),
        "changed: "@ + bool_text(v.changed),
        counted("descendant-folders: "@, v.descendant_folders as nat),
        counted("notes: "@, v.notes as nat),
    ];
    if v.applied {
        body
    } else {
        body.push("next: rerun with --apply to write this folder move"@)
    }
}

/// The lines printed for a folder move report.
pub fn folder_move_lines(v: &FolderMoveView) -> (r: Vec<String>)
    ensures
        line_views(r@) == spec_folder_move_lines(*v),
{
    let mut r: Vec<String> = Vec::new();
    r.push(labelled_line("folder-move: ", v.status.as_str()));
    r.push(labelled_line("source: ", sanitize_terminal(v.source.as_str()).as_str()));
    r.push(labelled_line("target: ", sanitize_terminal(v.target.as_str()).as_str()));
    r.push(bool_line("changed: ", v.changed));
    r.push(counted_line("descendant-folders: ", v.descendant_folders));
    r.push(counted_line("notes: ", v.notes));
    if !v.applied {
        r.push(String::from_str("next: rerun with --apply to write this folder move"));
    }
    assert(line_views(r@) =~= spec_folder_move_lines(*v));
    r
}

/// What `ng note mv` reports.
#[derive(Debug, Clone)]
pub struct NoteMoveView {
    pub status: String,
    pub applied: bool,
    pub changed: bool,
    pub note_id: String,
    pub note_db_id: i64,
    pub note_title: String,
    pub source_folder_path: String,
    pub target_folder_path: String,
}

/// The report of a note move plan, applied or not.
pub fn note_move_view(plan: &NoteMovePlan, applied: bool) -> (v: NoteMoveView)
    ensures
        v.status@ == status_text(applied),
        v.applied == applied,
        v.changed == plan.will_change,
        v.note_id@ == plan.note_id@,
        v.note_db_id == plan.note_db_id,
        v.note_title@ == plan.note_title@,
        v.source_folder_path@ == plan.source_folder_path@,
        v.target_folder_path@ == plan.target_folder_path@,
{
    NoteMoveView {
        status: status_string(applied),
        applied,
        changed: plan.will_change,
        note_id: plan.note_id.clone(),
        note_db_id: plan.note_db_id,
        note_title: plan.note_title.clone(),
        source_folder_path: plan.source_folder_path.clone(),
        target_folder_path: plan.target_folder_path.clone(),
    }
}

/// The lines printed for a note move report; the title is cut to 96
/// characters, and all note and folder text is made inert.
pub open spec fn spec_note_move_lines(v: NoteMoveView) -> Seq<Seq<char>> {
    let body = seq![
        "note-move: "@ + v.status@,
        "note-id: "@ + spec_sanitize_terminal(v.note_id@),
        "title: "@ + spec_sanitize_terminal(spec_truncate(v.note_title@, 96)),
        "source-folder: "@ + spec_sanitize_terminal(v.source_folder_path@),
        "target-folder: "@ + spec_sanitize_terminal(v.target_folder_path@),
        "changed: "@ + bool_text(v.changed),
        "applied: "@ + bool_text(v.applied),
    ];
    if v.applied {
        body
    } else {
        body.push("next: rerun with --apply to write this note move, then rebuild caches with ng index"@)
    }
}

/// The lines printed for a note move report.
pub fn note_move_lines(v: &NoteMoveView) -> (r: Vec<String>)
    ensures
        line_views(r@) == spec_note_move_lines(*v),
{
    let mut r: Vec<String> = Vec::new();
    r.push(labelled_line("note-move: ", v.status.as_str()));
    r.push(labelled_line("note-id: ", sanitize_terminal(v.note_id.as_str()).as_str()));
    r.push(
        labelled_line("title: ", sanitize_terminal(truncate(v.note_title.as_str(), 96).as_str()).as_str()),
    );
    r.push(labelled_line("source-folder: ", sanitize_terminal(v.source_folder_path.as_str()).as_str()));
    r.push(labelled_line("target-folder: ", sanitize_terminal(v.target_folder_path.as_str()).as_str()));
    r.push(bool_line("changed: ", v.changed));
    r.push(bool_line("applied: ", v.applied));
    if !v.applied {
        r.push(
            String::from_str(
                "next: rerun with --apply to write this note move, then rebuild caches with ng index",
            ),
        );
    }
    assert(line_views(r@) =~= spec_note_move_lines(*v));
    r
}

/// Whether a character can be written to a terminal as it is: not a
/// control character and no white space other than the plain space.
pub open spec fn terminal_safe(c: char) -> bool {
    !spec_is_control(c) && (c == ' ' || !spec_is_whitespace(c))
}

/// Whether every character of `t` is terminal-safe.
pub open spec fn all_terminal_safe(t: Seq<char>) -> bool {
    forall|i: int| 0 <= i < t.len() ==> terminal_safe(#[trigger] t[i])
}

proof fn lemma_sanitize_fold_safe(s: Seq<char>)
    ensures
        all_terminal_safe(sanitize_fold(s).0),
    decreases s.len(),
{
    if s.len() > 0 {
        lemma_sanitize_fold_safe(s.drop_last());
        let (out, pending) = sanitize_fold(s.drop_last());
        let c = s.last();
        if !spec_is_whitespace(c) {
            let spaced = if pending {
                out.push(' ')
            } else {
                out
            };
            assert(all_terminal_safe(spaced));
            let d = if spec_is_control(c) { '\u{fffd}' } else { c };
            assert(terminal_safe(d));
            assert(all_terminal_safe(spaced.push(d))) by {
                assert forall|i: int| 0 <= i < spaced.push(d).len() implies terminal_safe(#[trigger] spaced.push(d)[i]) by {
                    if i < spaced.len() {
                        assert(spaced.push(d)[i] == spaced[i]);
                    }
                }
            }
        }
    }
}

/// Law: text made inert for a terminal holds no control character (no
/// escape, no carriage return) and no white space but the plain space.
pub proof fn law_sanitized_text_is_terminal_safe(s: Seq<char>)
    ensures
        all_terminal_safe(spec_sanitize_terminal(s)),
{
    lemma_sanitize_fold_safe(s);
}

proof fn lemma_concat_safe(a: Seq<char>, b: Seq<char>)
    requires
        all_terminal_safe(a),
        all_terminal_safe(b),
    ensures
        all_terminal_safe(a + b),
{
    assert forall|i: int| 0 <= i < (a + b).len() implies terminal_safe(#[trigger] (a + b)[i]) by {
        if i < a.len() {
            assert((a + b)[i] == a[i]);
        } else {
            assert((a + b)[i] == b[i - a.len()]);
        }
    }
}

proof fn lemma_decimal_safe(n: nat)
    ensures
        all_terminal_safe(spec_nat_decimal(n)),
    decreases n,
{
    reveal_with_fuel(spec_nat_decimal, 2);
    if n >= 10 {
        lemma_decimal_safe(n / 10);
        let d = crate::text::digit_char((n % 10) as int);
        assert(terminal_safe(d));
        lemma_concat_safe(spec_nat_decimal(n / 10), seq![d]);
        assert(spec_nat_decimal(n / 10).push(d) == spec_nat_decimal(n / 10) + seq![d]);
    } else {
        let d = crate::text::digit_char(n as int);
        assert(terminal_safe(d));
        assert(all_terminal_safe(seq![d])) by {
            assert forall|i: int| 0 <= i < seq![d].len() implies terminal_safe(#[trigger] seq![d][i]) by {}
        }
    }
}

/// Whether every line is terminal-safe.
pub open spec fn lines_terminal_safe(lines: Seq<Seq<char>>) -> bool {
    forall|i: int| 0 <= i < lines.len() ==> all_terminal_safe(#[trigger] lines[i])
}

proof fn lemma_hit_blocks_safe(hits: Seq<NoteHit>, no_snippet: bool)
    ensures
        lines_terminal_safe(spec_hit_blocks(hits, no_snippet)),
    decreases hits.len(),
{
    if hits.len() > 0 {
        lemma_hit_blocks_safe(hits.drop_last(), no_snippet);
        let h = hits.last();
        let sp = "  "@;
        assert(all_terminal_safe(sp)) by {
            reveal_strlit("  ");
        }
        let a = spec_sanitize_terminal(h.id@);
        let b = spec_sanitize_terminal(hit_folder(h));
        let c = spec_sanitize_terminal(spec_truncate(h.title@, 72));
        law_sanitized_text_is_terminal_safe(h.id@);
        law_sanitized_text_is_terminal_safe(hit_folder(h));
        law_sanitized_text_is_terminal_safe(spec_truncate(h.title@, 72));
        lemma_concat_safe(a, sp);
        lemma_concat_safe(a + sp, b);
        lemma_concat_safe(a + sp + b, sp);
        lemma_concat_safe(a + sp + b + sp, c);
        let snippet = spec_sanitize_terminal(
            spec_truncate(
                match opt_view(h.snippet) {
                    Some(t) => t,
                    None => seq![],
                },
                96,
            ),
        );
        law_sanitized_text_is_terminal_safe(
            spec_truncate(
                match opt_view(h.snippet) {
                    Some(t) => t,
                    None => seq![],
                },
                96,
            ),
        );
        lemma_concat_safe(sp, snippet);
        let prev = spec_hit_blocks(hits.drop_last(), no_snippet);
        let block = spec_hit_block(h, no_snippet);
        assert(lines_terminal_safe(block));
        assert forall|i: int| 0 <= i < (prev + block).len() implies all_terminal_safe(#[trigger] (prev + block)[i]) by {
            if i < prev.len() {
                assert((prev + block)[i] == prev[i]);
            } else {
                assert((prev + block)[i] == block[i - prev.len()]);
            }
        }
    }
}

/// Law: every line printed for search hits is terminal-safe, whatever the
/// notes hold, so an escape sequence in a note never reaches the terminal.
pub proof fn law_hit_lines_are_terminal_safe(hits: Seq<NoteHit>, no_snippet: bool)
    ensures
        lines_terminal_safe(spec_hit_lines(hits, no_snippet)),
{
    lemma_hit_blocks_safe(hits, no_snippet);
    let head = counted("hits: "@, hits.len());
    assert(all_terminal_safe("hits: "@)) by {
        reveal_strlit("hits: ");
    }
    lemma_decimal_safe(hits.len());
    lemma_concat_safe("hits: "@, spec_nat_decimal(hits.len()));
    let blocks = spec_hit_blocks(hits, no_snippet);
    assert forall|i: int| 0 <= i < (seq![head] + blocks).len() implies all_terminal_safe(#[trigger] (seq![head] + blocks)[i]) by {
        if i == 0 {
            assert((seq![head] + blocks)[i] == head);
        } else {
            assert((seq![head] + blocks)[i] == blocks[i - 1]);
        }
    }
}

proof fn lemma_labelled_safe(label: Seq<char>, text: Seq<char>)
    requires
        all_terminal_safe(label),
    ensures
        all_terminal_safe(label + spec_sanitize_terminal(text)),
{
    law_sanitized_text_is_terminal_safe(text);
    lemma_concat_safe(label, spec_sanitize_terminal(text));
}

/// Law: every line printed for a note move report is terminal-safe, whatever
/// the note id, title or folder paths hold.
pub proof fn law_note_move_lines_are_terminal_safe(v: NoteMoveView)
    requires
        v.status@ == status_text(v.applied),
    ensures
        lines_terminal_safe(spec_note_move_lines(v)),
{
    reveal_strlit("note-move: ");
    reveal_strlit("ok");
    reveal_strlit("dry-run");
    reveal_strlit("note-id: ");
    reveal_strlit("title: ");
    reveal_strlit("source-folder: ");
    reveal_strlit("target-folder: ");
    reveal_strlit("changed: ");
    reveal_strlit("applied: ");
    reveal_strlit("true");
    reveal_strlit("false");
    reveal_strlit("next: rerun with --apply to write this note move, then rebuild caches with ng index");
    lemma_concat_safe("note-move: "@, v.status@);
    lemma_labelled_safe("note-id: "@, v.note_id@);
    lemma_labelled_safe("title: "@, spec_truncate(v.note_title@, 96));
    lemma_labelled_safe("source-folder: "@, v.source_folder_path@);
    lemma_labelled_safe("target-folder: "@, v.target_folder_path@);
    lemma_concat_safe("changed: "@, bool_text(v.changed));
    lemma_concat_safe("applied: "@, bool_text(v.applied));
}

/// Law: every line printed for a folder move report is terminal-safe,
/// whatever the folder paths hold.
pub proof fn law_folder_move_lines_are_terminal_safe(v: FolderMoveView)
    requires
        v.status@ == status_text(v.applied),
    ensures
        lines_terminal_safe(spec_folder_move_lines(v)),
{
    reveal_strlit("folder-move: ");
    reveal_strlit("ok");
    reveal_strlit("dry-run");
    reveal_strlit("source: ");
    reveal_strlit("target: ");
    reveal_strlit("changed: ");
    reveal_strlit("true");
    reveal_strlit("false");
    reveal_strlit("descendant-folders: ");
    reveal_strlit("notes: ");
    reveal_strlit("next: rerun with --apply to write this folder move");
    lemma_concat_safe("folder-move: "@, v.status@);
    lemma_labelled_safe("source: "@, v.source@);
    lemma_labelled_safe("target: "@, v.target@);
    lemma_concat_safe("changed: "@, bool_text(v.changed));
    lemma_decimal_safe(v.descendant_folders as nat);
    lemma_concat_safe("descendant-folders: "@, spec_nat_decimal(v.descendant_folders as nat));
    lemma_decimal_safe(v.notes as nat);
    lemma_concat_safe("notes: "@, spec_nat_decimal(v.notes as nat));
}

/// `s` without its plain spaces.
pub open spec fn drop_spaces(s: Seq<char>) -> Seq<char>
    decreases s.len(),
{
    if s.len() == 0 {
        seq![]
    } else if s.last() == ' ' {
        drop_spaces(s.drop_last())
    } else {
        drop_spaces(s.drop_last()).push(s.last())
    }
}

/// `s` without its white space, every control character replaced by U+FFFD.
pub open spec fn visible_marked(s: Seq<char>) -> Seq<char>
    decreases s.len(),
{
    if s.len() == 0 {
        seq![]
    } else if spec_is_whitespace(s.last()) {
        visible_marked(s.drop_last())
    } else {
        visible_marked(s.drop_last()).push(if spec_is_control(s.last()) { '\u{fffd}' } else { s.last() })
    }
}

/// Whether no two spaces stand side by side and no space ends `t`.
pub open spec fn spaces_single_inside(t: Seq<char>) -> bool {
    &&& forall|i: int| 0 <= i < t.len() - 1 ==> !(#[trigger] t[i] == ' ' && t[i + 1] == ' ')
    &&& t.len() > 0 ==> t.last() != ' '
}

proof fn lemma_sanitize_fold_shape(s: Seq<char>)
    ensures
        drop_spaces(sanitize_fold(s).0) == visible_marked(s),
        spaces_single_inside(sanitize_fold(s).0),
    decreases s.len(),
{
    if s.len() > 0 {
        lemma_sanitize_fold_shape(s.drop_last());
        let (out, pending) = sanitize_fold(s.drop_last());
        let c = s.last();
        if !spec_is_whitespace(c) {
            let spaced = if pending {
                out.push(' ')
            } else {
                out
            };
            let d = if spec_is_control(c) { '\u{fffd}' } else { c };
            assert(d != ' ');
            if pending {
                assert(spaced.drop_last() == out);
            }
            assert(drop_spaces(spaced) == drop_spaces(out));
            let n = spaced.push(d);
            assert(n.drop_last() == spaced);
            assert(spaces_single_inside(n)) by {
                assert forall|i: int| 0 <= i < n.len() - 1 implies !(#[trigger] n[i] == ' ' && n[i + 1] == ' ') by {
                    if i < out.len() - 1 {
                        assert(n[i] == out[i] && n[i + 1] == out[i + 1]);
                    } else if i == out.len() - 1 {
                        assert(n[i] == out.last());
                    }
                }
            }
        }
    }
}

/// Law of `sanitize_terminal`, beyond the absence of control characters:
/// no two spaces stand side by side and none ends the text, and taking the
/// spaces out gives the input with its white space taken out and each
/// control character replaced by U+FFFD.
pub proof fn law_sanitized_text_keeps_visible_text(s: Seq<char>)
    ensures
        spaces_single_inside(spec_sanitize_terminal(s)),
        drop_spaces(spec_sanitize_terminal(s)) == visible_marked(s),
        all_terminal_safe(spec_sanitize_terminal(s)),
{
    lemma_sanitize_fold_shape(s);
    law_sanitized_text_is_terminal_safe(s);
}

/// What character `i` of `s` becomes in terminal-safe text: nothing for
/// white space; otherwise the character (U+FFFD for a control character),
/// with one space before it when white space comes just before it.
pub open spec fn sanitized_piece(s: Seq<char>, i: int) -> Seq<char> {
    let c = s[i];
    let shown = if spec_is_control(c) { '\u{fffd}' } else { c };
    if spec_is_whitespace(c) {
        seq![]
    } else if i > 0 && spec_is_whitespace(s[i - 1]) {
        seq![' ', shown]
    } else {
        seq![shown]
    }
}

/// The pieces of the characters of `s`, in order.
pub open spec fn sanitized_pieces(s: Seq<char>) -> Seq<char>
    decreases s.len(),
{
    if s.len() == 0 {
        seq![]
    } else {
        sanitized_pieces(s.drop_last()) + sanitized_piece(s, s.len() - 1)
    }
}

proof fn lemma_sanitize_fold_pieces(s: Seq<char>)
    ensures
        sanitize_fold(s) == (sanitized_pieces(s), s.len() > 0 && spec_is_whitespace(s.last())),
    decreases s.len(),
{
    if s.len() > 0 {
        let p = s.drop_last();
        lemma_sanitize_fold_pieces(p);
        if s.len() > 1 {
            assert(p.last() == s[s.len() - 2]);
        }
        let c = s.last();
        let shown = if spec_is_control(c) { '\u{fffd}' } else { c };
        let out = sanitized_pieces(p);
        if !spec_is_whitespace(c) {
            if s.len() > 1 && spec_is_whitespace(s[s.len() - 2]) {
                assert(out.push(' ').push(shown) == out + seq![' ', shown]);
            } else {
                assert(out.push(shown) == out + seq![shown]);
            }
        } else {
            assert(out + seq![] == out);
        }
    }
}

/// Law of `sanitize_terminal`, character by character: each white-space
/// character vanishes, every other character stays in order (a control
/// character as U+FFFD), and exactly one space stands before each character
/// that ends a run of white space; a run at the end leaves nothing.
pub proof fn law_sanitized_text_by_character(s: Seq<char>)
    ensures
        spec_sanitize_terminal(s) == sanitized_pieces(s),
{
    lemma_sanitize_fold_pieces(s);
}

} // verus!
