//! Note search: case-insensitive substring or regex matching over title,
//! snippet and body, folder filters, snippets, result limits, date bounds
//! and sorting; and the notes and hits built from database rows.

use vstd::prelude::*;
use vstd::string::StringExecFns;
use vstd::utf8::encode_utf8;

use crate::body::{decode_note_body, gzip_decoded_prefix, spec_extract_text, MAX_DECODED_BODY_BYTES};
use crate::folder::{clone_opt_string, is_index_permutation, opt_view};
use crate::notes::{find_last_by_id, last_with_id, FolderEntry, NgError};
use crate::text::{
    chars_of, lemma_lex_total, lemma_lex_transitive, lex_le, lex_le_chars, lowercase,
    normalize_line_separators, occurs_at, occurs_at_chars, spec_normalize_line_separators,
    spec_trim, starts_with, starts_with_chars, string_from_chars, to_lowercase, trim_chars,
};

verus! {

/// A search hit.
#[derive(Debug, Clone)]
pub struct NoteHit {
    pub id: String,
    pub db_id: i64,
    pub title: String,
    pub folder: Option<String>,
    pub folder_path: Option<String>,
    pub account_path: Option<String>,
    pub snippet: Option<String>,
    pub modified: Option<String>,
}

/// A note as kept in the warmed cache, with its decoded body text.
#[derive(Debug, Clone)]
pub struct IndexedNote {
    pub id: String,
    pub db_id: i64,
    pub title: String,
    pub folder: Option<String>,
    pub folder_path: Option<String>,
    pub account_path: Option<String>,
    pub snippet: Option<String>,
    pub modified: Option<String>,
    pub body: Option<String>,
}

#[verifier::external_type_specification]
#[verifier::external_body]
pub struct ExRegex(regex::Regex);

/// A compiled case-insensitive regular expression, seen as its pattern.
#[derive(Debug)]
pub struct RegexMatcher {
    pattern: String,
    re: regex::Regex,
}

impl View for RegexMatcher {
    type V = Seq<char>;

    closed spec fn view(&self) -> Seq<char> {
        self.pattern@
    }
}

/// What building `pattern` case-insensitively with `regex::RegexBuilder`
/// gives: `None` when it compiles, else the error's message.
pub uninterp spec fn regex_build_error(pattern: Seq<char>) -> Option<Seq<char>>;

/// What `regex::Regex::is_match` answers for the case-insensitive regex of
/// `pattern` on `haystack`.
pub uninterp spec fn regex_finds(pattern: Seq<char>, haystack: Seq<char>) -> bool;

/// Calls `RegexBuilder::new(pattern).case_insensitive(true).build()`; on
/// failure hands back the error's `Display` text. Whether it compiles and
/// the message are named, not stated.
#[verifier::external_body]
fn build_case_insensitive(pattern: &str) -> (r: Result<RegexMatcher, String>)
    ensures
        match r {
            Ok(m) => regex_build_error(pattern@) is None && m@ == pattern@,
            Err(msg) => regex_build_error(pattern@) == Some(msg@),
        },
{
    match regex::RegexBuilder::new(pattern).case_insensitive(true).build() {
        Ok(re) => Ok(RegexMatcher { pattern: pattern.to_string(), re }),
        Err(err) => Err(err.to_string()),
    }
}

/// Calls `Regex::is_match` on the compiled pattern; the answer is named.
#[verifier::external_body]
fn regex_is_match(m: &RegexMatcher, haystack: &str) -> (b: bool)
    ensures
        b == regex_finds(m@, haystack@),
{
    m.re.is_match(haystack)
}

/// Compiles a search pattern case-insensitively; an invalid pattern is a
/// command error `invalid regex: <reason>`.
pub fn compile_regex(pattern: &str) -> (r: Result<RegexMatcher, NgError>)
    ensures
        match (r, regex_build_error(pattern@)) {
            (Ok(m), None) => m@ == pattern@,
            (Err(e), Some(msg)) => e matches NgError::Command(t) && t@ == "invalid regex: "@ + msg,
            _ => false,
        },
{
    match build_case_insensitive(pattern) {
        Ok(m) => Ok(m),
        Err(msg) => {
            let mut text = String::from_str("invalid regex: ");
            text.append(msg.as_str());
            Err(NgError::Command(text))
        },
    }
}

impl RegexMatcher {
    /// Whether the pattern matches somewhere in `haystack`.
    pub fn is_match(&self, haystack: &str) -> (b: bool)
        ensures
            b == regex_finds(self@, haystack@),
    {
        regex_is_match(self, haystack)
    }
}

/// Whether `n` occurs in `h` as a contiguous run.
pub open spec fn contains_seq(h: Seq<char>, n: Seq<char>) -> bool {
    exists|i: int| occurs_at(h, n, i)
}

/// Whether `n` occurs in `h` after both are lowercased.
pub open spec fn contains_ci(h: Seq<char>, n: Seq<char>) -> bool {
    contains_seq(lowercase(h), lowercase(n))
}

/// Whether `n` occurs in `h`.
pub fn contains_chars(h: &[char], n: &[char]) -> (b: bool)
    ensures
        b == contains_seq(h@, n@),
{
    if n.len() > h.len() {
        assert forall|i: int| !occurs_at(h@, n@, i) by {}
        return false;
    }
    let last = h.len() - n.len();
    let mut i: usize = 0;
    loop
        invariant
            last == h@.len() - n@.len(),
            i <= last,
            forall|j: int| 0 <= j < i ==> !occurs_at(h@, n@, j),
        decreases last - i,
    {
        if occurs_at_chars(h, n, i) {
            return true;
        }
        if i == last {
            assert forall|j: int| !occurs_at(h@, n@, j) by {
                if 0 <= j && j + n@.len() <= h@.len() {
                    assert(j <= i);
                }
            }
            return false;
        }
        i = i + 1;
    }
}

/// Whether `needle` occurs in `haystack`, ignoring case (both lowercased).
pub fn contains_case_insensitive(haystack: &str, needle: &str) -> (b: bool)
    ensures
        b == contains_ci(haystack@, needle@),
{
    let h = to_lowercase(haystack);
    let n = to_lowercase(needle);
    let hc = chars_of(h.as_str());
    let nc = chars_of(n.as_str());
    contains_chars(hc.as_slice(), nc.as_slice())
}

/// The pattern of an optional regex.
pub open spec fn pattern_of(m: Option<&RegexMatcher>) -> Option<Seq<char>> {
    match m {
        Some(x) => Some(x@),
        None => None,
    }
}

/// Whether a text matches: the regex when there is one, else the query as a
/// case-insensitive substring.
pub open spec fn text_matches(text: Seq<char>, query: Seq<char>, pattern: Option<Seq<char>>) -> bool {
    match pattern {
        Some(p) => regex_finds(p, text),
        None => contains_ci(text, query),
    }
}

/// Whether an optional text is present and matches.
pub open spec fn opt_matches(o: Option<Seq<char>>, query: Seq<char>, pattern: Option<Seq<char>>) -> bool {
    o matches Some(t) && text_matches(t, query, pattern)
}

/// Whether a note with these texts matches: an empty query matches every
/// note; otherwise its title, snippet or body must match.
pub open spec fn note_text_matches(
    title: Seq<char>,
    snippet: Option<Seq<char>>,
    body: Option<Seq<char>>,
    query: Seq<char>,
    pattern: Option<Seq<char>>,
) -> bool {
    ||| query.len() == 0
    ||| text_matches(title, query, pattern)
    ||| opt_matches(snippet, query, pattern)
    ||| opt_matches(body, query, pattern)
}

/// Whether `text` matches (see `text_matches`).
fn text_matches_exec(text: &str, query: &str, matcher: Option<&RegexMatcher>) -> (b: bool)
    ensures
        b == text_matches(text@, query@, pattern_of(matcher)),
{
    match matcher {
        Some(m) => m.is_match(text),
        None => contains_case_insensitive(text, query),
    }
}

/// Whether an optional text is present and matches.
fn opt_matches_exec(o: &Option<String>, query: &str, matcher: Option<&RegexMatcher>) -> (b: bool)
    ensures
        b == opt_matches(opt_view(*o), query@, pattern_of(matcher)),
{
    match o {
        Some(t) => text_matches_exec(t.as_str(), query, matcher),
        None => false,
    }
}

/// Whether path `p` is folder `f` or lies below it.
pub open spec fn path_within(p: Seq<char>, f: Seq<char>) -> bool {
    p == f || starts_with(p, f + seq!['/'])
}

/// Whether a note lies in folder `f`: its folder title is `f`, or its nested
/// or account-prefixed folder path is `f` or a subfolder of it.
pub open spec fn in_folder(
    folder: Option<Seq<char>>,
    folder_path: Option<Seq<char>>,
    account_path: Option<Seq<char>>,
    f: Seq<char>,
) -> bool {
    ||| folder == Some(f)
    ||| folder_path matches Some(p) && path_within(p, f)
    ||| account_path matches Some(p) && path_within(p, f)
}

/// Whether an optional path is `f` or below it; `fs` is `f` followed by `/`.
fn opt_path_within(o: &Option<String>, f: &String, fs: &Vec<char>) -> (b: bool)
    requires
        fs@ == f@ + seq!['/'],
    ensures
        b == (opt_view(*o) matches Some(p) && path_within(p, f@)),
{
    match o {
        Some(p) => {
            if *p == *f {
                true
            } else {
                let pc = chars_of(p.as_str());
                starts_with_chars(pc.as_slice(), fs.as_slice())
            }
        },
        None => false,
    }
}

/// Whether a note with these folder fields lies in folder `f`.
fn in_folder_exec(
    folder: &Option<String>,
    folder_path: &Option<String>,
    account_path: &Option<String>,
    f: &str,
) -> (b: bool)
    ensures
        b == in_folder(opt_view(*folder), opt_view(*folder_path), opt_view(*account_path), f@),
{
    let fo = f.to_owned();
    let mut fs = chars_of(f);
    fs.push('/');
    assert(fs@ =~= fo@ + seq!['/']);
    let by_title = match folder {
        Some(t) => *t == fo,
        None => false,
    };
    by_title || opt_path_within(folder_path, &fo, &fs) || opt_path_within(account_path, &fo, &fs)
}

/// `s` without a final `'\r'`.
pub open spec fn strip_cr(s: Seq<char>) -> Seq<char> {
    if s.len() > 0 && s.last() == '\r' {
        s.drop_last()
    } else {
        s
    }
}

/// Finished lines and the unfinished one, after reading `s`.
pub open spec fn line_pieces(s: Seq<char>) -> (Seq<Seq<char>>, Seq<char>)
    decreases s.len(),
{
    if s.len() == 0 {
        (seq![], seq![])
    } else {
        let (done, cur) = line_pieces(s.drop_last());
        if s.last() == '\n' {
            (done.push(strip_cr(cur)), seq![])
        } else {
            (done, cur.push(s.last()))
        }
    }
}

/// The lines of `s` as `str::lines` yields them: split at `'\n'`, a `'\r'`
/// before it dropped, and no empty line after a final `'\n'`.
pub open spec fn text_lines(s: Seq<char>) -> Seq<Seq<char>> {
    let (done, cur) = line_pieces(s);
    if cur.len() > 0 {
        done.push(cur)
    } else {
        done
    }
}

/// Splits a text into its lines (see `text_lines`).
fn split_lines(s: &[char]) -> (r: Vec<Vec<char>>)
    ensures
        r@.map_values(|l: Vec<char>| l@) == text_lines(s@),
{
    let mut done: Vec<Vec<char>> = Vec::new();
    let mut cur: Vec<char> = Vec::new();
    for i in 0..s.len()
        invariant
            (done@.map_values(|l: Vec<char>| l@), cur@) == line_pieces(s@.take(i as int)),
    {
        assert(s@.take(i + 1).drop_last() == s@.take(i as int));
        if s[i] == '\n' {
            let mut line = Vec::new();
            std::mem::swap(&mut line, &mut cur);
            if line.len() > 0 && line[line.len() - 1] == '\r' {
                line.pop();
            }
            let ghost before = done@;
            done.push(line);
            assert(done@.map_values(|l: Vec<char>| l@) == before.map_values(|l: Vec<char>| l@).push(
                done@.last()@,
            ));
        } else {
            cur.push(s[i]);
        }
    }
    assert(s@.take(s@.len() as int) == s@);
    if cur.len() > 0 {
        let ghost before = done@;
        done.push(cur);
        assert(done@.map_values(|l: Vec<char>| l@) == before.map_values(|l: Vec<char>| l@).push(
            done@.last()@,
        ));
    }
    done
}

/// The first of `lines` that matches, if any.
pub open spec fn first_line_matching(lines: Seq<Seq<char>>, query: Seq<char>, pattern: Option<Seq<char>>) -> Option<
    Seq<char>,
>
    decreases lines.len(),
{
    if lines.len() == 0 {
        None
    } else if text_matches(lines[0], query, pattern) {
        Some(lines[0])
    } else {
        first_line_matching(lines.drop_first(), query, pattern)
    }
}

/// The snippet shown for a note: its own snippet when the query is empty or
/// the snippet matches; else the first matching body line, trimmed, unless
/// that is blank; else its own snippet.
pub open spec fn spec_best_snippet(
    snippet: Option<Seq<char>>,
    body: Option<Seq<char>>,
    query: Seq<char>,
    pattern: Option<Seq<char>>,
) -> Option<Seq<char>> {
    if query.len() == 0 || opt_matches(snippet, query, pattern) {
        snippet
    } else {
        match body {
            Some(b) => match first_line_matching(text_lines(b), query, pattern) {
                Some(l) => if spec_trim(l).len() > 0 {
                    Some(spec_trim(l))
                } else {
                    snippet
                },
                None => snippet,
            },
            None => snippet,
        }
    }
}

/// The first body line that matches (see `first_line_matching`).
fn first_matching_line(body: &str, query: &str, matcher: Option<&RegexMatcher>) -> (r: Option<Vec<char>>)
    ensures
        match r {
            Some(l) => first_line_matching(text_lines(body@), query@, pattern_of(matcher)) == Some(l@),
            None => first_line_matching(text_lines(body@), query@, pattern_of(matcher)) is None,
        },
{
    let chars = chars_of(body);
    let lines = split_lines(chars.as_slice());
    let ghost ls = lines@.map_values(|l: Vec<char>| l@);
    let ghost pat = pattern_of(matcher);
    let mut i: usize = 0;
    assert(ls.skip(0) == ls);
    while i < lines.len()
        invariant
            i <= lines@.len(),
            ls == lines@.map_values(|l: Vec<char>| l@),
            ls == text_lines(body@),
            pat == pattern_of(matcher),
            first_line_matching(ls, query@, pat) == first_line_matching(ls.skip(i as int), query@, pat),
        decreases lines@.len() - i,
    {
        assert(ls.skip(i as int)[0] == lines@[i as int]@);
        assert(ls.skip(i as int).drop_first() == ls.skip(i + 1));
        let line = string_from_chars(lines[i].as_slice());
        if text_matches_exec(line.as_str(), query, matcher) {
            return Some(chars_of(line.as_str()));
        }
        i = i + 1;
    }
    None
}

/// The snippet shown for a note (see `spec_best_snippet`).
pub fn best_snippet(note: &IndexedNote, query: &str, matcher: Option<&RegexMatcher>) -> (r: Option<String>)
    ensures
        opt_view(r) == spec_best_snippet(opt_view(note.snippet), opt_view(note.body), query@, pattern_of(matcher)),
{
    if query.is_empty() || opt_matches_exec(&note.snippet, query, matcher) {
        return clone_opt_string(&note.snippet);
    }
    match &note.body {
        Some(b) => match first_matching_line(b.as_str(), query, matcher) {
            Some(l) => {
                let t = trim_chars(l.as_slice());
                if t.len() > 0 {
                    Some(string_from_chars(t.as_slice()))
                } else {
                    clone_opt_string(&note.snippet)
                }
            },
            None => clone_opt_string(&note.snippet),
        },
        None => clone_opt_string(&note.snippet),
    }
}

/// The elements of `s` that satisfy `pred`, in order.
pub open spec fn kept<T>(s: Seq<T>, pred: spec_fn(T) -> bool) -> Seq<T>
    decreases s.len(),
{
    if s.len() == 0 {
        seq![]
    } else {
        let prev = kept(s.drop_last(), pred);
        if pred(s.last()) {
            prev.push(s.last())
        } else {
            prev
        }
    }
}

/// What is kept of a prefix is a prefix of what is kept of the whole.
pub proof fn lemma_kept_prefix<T>(s: Seq<T>, pred: spec_fn(T) -> bool, i: int, j: int)
    requires
        0 <= i <= j <= s.len(),
    ensures
        kept(s.take(i), pred).len() <= kept(s.take(j), pred).len(),
        forall|k: int|
            0 <= k < kept(s.take(i), pred).len() ==> #[trigger] kept(s.take(j), pred)[k] == kept(
                s.take(i),
                pred,
            )[k],
    decreases j - i,
{
    if i < j {
        lemma_kept_prefix(s, pred, i, j - 1);
        assert(s.take(j).drop_last() == s.take(j - 1));
    }
}

/// The result limit actually used: `limit` clamped to `1..=10000`.
pub open spec fn clamp_limit(limit: int) -> int {
    if limit < 1 {
        1
    } else if limit > 10000 {
        10000
    } else {
        limit
    }
}

fn clamp_limit_exec(limit: usize) -> (r: usize)
    ensures
        r == clamp_limit(limit as int),
{
    if limit < 1 {
        1
    } else if limit > 10000 {
        10000
    } else {
        limit
    }
}

/// The smaller of two integers.
pub open spec fn min_int(a: int, b: int) -> int {
    if a < b {
        a
    } else {
        b
    }
}

/// Whether an indexed note is selected: it lies in the folder when one is
/// given, and its texts match.
pub open spec fn note_selected(
    n: IndexedNote,
    query: Seq<char>,
    pattern: Option<Seq<char>>,
    folder: Option<Seq<char>>,
) -> bool {
    &&& folder matches Some(f) ==> in_folder(opt_view(n.folder), opt_view(n.folder_path), opt_view(n.account_path), f)
    &&& note_text_matches(n.title@, opt_view(n.snippet), opt_view(n.body), query, pattern)
}

/// The view of an optional string slice.
pub open spec fn opt_str_view(o: Option<&str>) -> Option<Seq<char>> {
    match o {
        Some(s) => Some(s@),
        None => None,
    }
}

fn note_is_selected(
    n: &IndexedNote,
    query: &str,
    matcher: Option<&RegexMatcher>,
    folder: Option<&str>,
) -> (b: bool)
    ensures
        b == note_selected(*n, query@, pattern_of(matcher), opt_str_view(folder)),
{
    let placed = match folder {
        Some(f) => in_folder_exec(&n.folder, &n.folder_path, &n.account_path, f),
        None => true,
    };
    placed && (query.is_empty() || text_matches_exec(n.title.as_str(), query, matcher)
        || opt_matches_exec(&n.snippet, query, matcher) || opt_matches_exec(&n.body, query, matcher))
}

/// Whether `h` is the hit for note `n`: its fields, and the snippet chosen
/// for the query.
pub open spec fn hit_of(h: NoteHit, n: IndexedNote, query: Seq<char>, pattern: Option<Seq<char>>) -> bool {
    &&& h.id@ == n.id@
    &&& h.db_id == n.db_id
    &&& h.title@ == n.title@
    &&& opt_view(h.folder) == opt_view(n.folder)
    &&& opt_view(h.folder_path) == opt_view(n.folder_path)
    &&& opt_view(h.account_path) == opt_view(n.account_path)
    &&& opt_view(h.snippet) == spec_best_snippet(opt_view(n.snippet), opt_view(n.body), query, pattern)
    &&& opt_view(h.modified) == opt_view(n.modified)
}

impl IndexedNote {
    /// The hit for this note, with the snippet chosen for the query.
    pub fn to_hit(&self, query: &str, matcher: Option<&RegexMatcher>) -> (h: NoteHit)
        ensures
            hit_of(h, *self, query@, pattern_of(matcher)),
    {
        NoteHit {
            id: self.id.clone(),
            db_id: self.db_id,
            title: self.title.clone(),
            folder: clone_opt_string(&self.folder),
            folder_path: clone_opt_string(&self.folder_path),
            account_path: clone_opt_string(&self.account_path),
            snippet: best_snippet(self, query, matcher),
            modified: clone_opt_string(&self.modified),
        }
    }
}

/// Searches cached notes in order: the notes in `folder` (when given) whose
/// title, snippet or body match, at most `limit` clamped to `1..=10000`,
/// each turned into its hit.
pub fn search_indexed_notes(
    notes: &[IndexedNote],
    query: &str,
    matcher: Option<&RegexMatcher>,
    folder: Option<&str>,
    limit: usize,
) -> (r: Vec<NoteHit>)
    ensures
        ({
            let sel = kept(
                notes@,
                |n: IndexedNote| note_selected(n, query@, pattern_of(matcher), opt_str_view(folder)),
            );
            &&& r.len() == min_int(sel.len() as int, clamp_limit(limit as int))
            &&& forall|i: int| 0 <= i < r.len() ==> hit_of(#[trigger] r[i], sel[i], query@, pattern_of(matcher))
        }),
{
    let ghost pred = |n: IndexedNote| note_selected(n, query@, pattern_of(matcher), opt_str_view(folder));
    let lim = clamp_limit_exec(limit);
    let mut hits: Vec<NoteHit> = Vec::new();
    let mut i: usize = 0;
    while i < notes.len() && hits.len() < lim
        invariant
            i <= notes@.len(),
            lim == clamp_limit(limit as int),
            hits.len() <= lim,
            hits.len() == kept(notes@.take(i as int), pred).len(),
            forall|k: int|
                0 <= k < hits.len() ==> hit_of(
                    #[trigger] hits[k],
                    kept(notes@.take(i as int), pred)[k],
                    query@,
                    pattern_of(matcher),
                ),
            pred == (|n: IndexedNote| note_selected(n, query@, pattern_of(matcher), opt_str_view(folder))),
        decreases notes@.len() - i,
    {
        assert(notes@.take(i + 1).drop_last() == notes@.take(i as int));
        if note_is_selected(&notes[i], query, matcher, folder) {
            let h = notes[i].to_hit(query, matcher);
            hits.push(h);
        }
        i = i + 1;
    }
    proof {
        assert(notes@.take(notes@.len() as int) == notes@);
        lemma_kept_prefix(notes@, pred, i as int, notes@.len() as int);
    }
    hits
}

/// Copies a hit.
pub fn clone_hit(h: &NoteHit) -> (r: NoteHit)
    ensures
        same_hit(r, *h),
{
    NoteHit {
        id: h.id.clone(),
        db_id: h.db_id,
        title: h.title.clone(),
        folder: clone_opt_string(&h.folder),
        folder_path: clone_opt_string(&h.folder_path),
        account_path: clone_opt_string(&h.account_path),
        snippet: clone_opt_string(&h.snippet),
        modified: clone_opt_string(&h.modified),
    }
}

/// Whether two hits hold the same values.
pub open spec fn same_hit(a: NoteHit, b: NoteHit) -> bool {
    &&& a.id@ == b.id@
    &&& a.db_id == b.db_id
    &&& a.title@ == b.title@
    &&& opt_view(a.folder) == opt_view(b.folder)
    &&& opt_view(a.folder_path) == opt_view(b.folder_path)
    &&& opt_view(a.account_path) == opt_view(b.account_path)
    &&& opt_view(a.snippet) == opt_view(b.snippet)
    &&& opt_view(a.modified) == opt_view(b.modified)
}

/// Whether a database row hit is selected: it lies in the folder when one
/// is given, and its title or snippet match.
pub open spec fn row_selected(
    h: NoteHit,
    query: Seq<char>,
    pattern: Option<Seq<char>>,
    folder: Option<Seq<char>>,
) -> bool {
    &&& folder matches Some(f) ==> in_folder(opt_view(h.folder), opt_view(h.folder_path), opt_view(h.account_path), f)
    &&& note_text_matches(h.title@, opt_view(h.snippet), None, query, pattern)
}

fn row_is_selected(h: &NoteHit, query: &str, matcher: Option<&RegexMatcher>, folder: Option<&str>) -> (b: bool)
    ensures
        b == row_selected(*h, query@, pattern_of(matcher), opt_str_view(folder)),
{
    let placed = match folder {
        Some(f) => in_folder_exec(&h.folder, &h.folder_path, &h.account_path, f),
        None => true,
    };
    placed && (query.is_empty() || text_matches_exec(h.title.as_str(), query, matcher)
        || opt_matches_exec(&h.snippet, query, matcher))
}

/// Searches database rows (title and snippet only, no body) in order: the
/// rows in `folder` (when given) that match, at most `limit` clamped to
/// `1..=10000`, unchanged.
pub fn search_note_rows(
    rows: &[NoteHit],
    query: &str,
    matcher: Option<&RegexMatcher>,
    folder: Option<&str>,
    limit: usize,
) -> (r: Vec<NoteHit>)
    ensures
        ({
            let sel = kept(rows@, |h: NoteHit| row_selected(h, query@, pattern_of(matcher), opt_str_view(folder)));
            &&& r.len() == min_int(sel.len() as int, clamp_limit(limit as int))
            &&& forall|i: int| 0 <= i < r.len() ==> same_hit(#[trigger] r[i], sel[i])
        }),
{
    let ghost pred = |h: NoteHit| row_selected(h, query@, pattern_of(matcher), opt_str_view(folder));
    let lim = clamp_limit_exec(limit);
    let mut hits: Vec<NoteHit> = Vec::new();
    let mut i: usize = 0;
    while i < rows.len() && hits.len() < lim
        invariant
            i <= rows@.len(),
            lim == clamp_limit(limit as int),
            hits.len() <= lim,
            hits.len() == kept(rows@.take(i as int), pred).len(),
            forall|k: int| 0 <= k < hits.len() ==> same_hit(#[trigger] hits[k], kept(rows@.take(i as int), pred)[k]),
            pred == (|h: NoteHit| row_selected(h, query@, pattern_of(matcher), opt_str_view(folder))),
        decreases rows@.len() - i,
    {
        assert(rows@.take(i + 1).drop_last() == rows@.take(i as int));
        if row_is_selected(&rows[i], query, matcher, folder) {
            hits.push(clone_hit(&rows[i]));
        }
        i = i + 1;
    }
    proof {
        assert(rows@.take(rows@.len() as int) == rows@);
        lemma_kept_prefix(rows@, pred, i as int, rows@.len() as int);
    }
    hits
}

/// Number of ASCII digit bytes in `b`.
pub open spec fn digit_byte_count(b: Seq<u8>) -> int
    decreases b.len(),
{
    if b.len() == 0 {
        0
    } else {
        digit_byte_count(b.drop_last()) + if 48 <= b.last() <= 57 {
            1int
        } else {
            0int
        }
    }
}

/// A date bound given on the command line, trimmed: a `YYYY-MM-DD` day
/// (ten bytes, `-` at bytes 4 and 7, eight digits) becomes its midnight
/// `YYYY-MM-DD 00:00:00`; a nineteen-byte text with a space at byte 10 and
/// `:` at byte 13 is kept as it is; anything else is refused.
pub open spec fn spec_normalize_date(date: Seq<char>) -> Result<Seq<char>, Seq<char>> {
    let t = spec_trim(date);
    let b = encode_utf8(t);
    if b.len() == 10 && b[4] == 45 && b[7] == 45 && digit_byte_count(b) == 8 {
        Ok(t + " 00:00:00"@)
    } else if b.len() == 19 && b[10] == 32 && b[13] == 58 {
        Ok(t)
    } else {
        Err("invalid date: '"@ + t + "'. Use YYYY-MM-DD or YYYY-MM-DD HH:MM:SS."@)
    }
}

fn count_digit_bytes(b: &[u8]) -> (n: usize)
    ensures
        n == digit_byte_count(b@),
{
    let mut n: usize = 0;
    for i in 0..b.len()
        invariant
            n == digit_byte_count(b@.take(i as int)),
            n <= i,
    {
        assert(b@.take(i + 1).drop_last() == b@.take(i as int));
        if 48 <= b[i] && b[i] <= 57 {
            n = n + 1;
        }
    }
    assert(b@.take(b@.len() as int) == b@);
    n
}

/// Normalizes a date bound (see `spec_normalize_date`).
pub fn normalize_date_arg(date: &str) -> (r: Result<String, NgError>)
    ensures
        match (r, spec_normalize_date(date@)) {
            (Ok(s), Ok(t)) => s@ == t,
            (Err(e), Err(m)) => e matches NgError::Command(msg) && msg@ == m,
            _ => false,
        },
{
    let chars = chars_of(date);
    let tc = trim_chars(chars.as_slice());
    let trimmed = string_from_chars(tc.as_slice());
    let b = trimmed.as_str().as_bytes();
    if b.len() == 10 && b[4] == 45 && b[7] == 45 && count_digit_bytes(b) == 8 {
        let mut out = trimmed.clone();
        out.append(" 00:00:00");
        return Ok(out);
    }
    if b.len() == 19 && b[10] == 32 && b[13] == 58 {
        return Ok(trimmed);
    }
    let mut msg = String::from_str("invalid date: '");
    msg.append(trimmed.as_str());
    msg.append("'. Use YYYY-MM-DD or YYYY-MM-DD HH:MM:SS.");
    Err(NgError::Command(msg))
}

/// Whether a hit's modification time lies in the bounds: it has one, it is
/// not before `after`, and it is before `before`, comparing texts
/// lexicographically by character (the order of `str` comparison).
pub open spec fn date_kept(h: NoteHit, after: Option<Seq<char>>, before: Option<Seq<char>>) -> bool {
    match opt_view(h.modified) {
        None => false,
        Some(m) => (after matches Some(a) ==> lex_le(a, m)) && (before matches Some(b) ==> !lex_le(b, m)),
    }
}

/// The normalized bounds, or the message for the first one refused.
pub open spec fn spec_date_bounds(after: Option<Seq<char>>, before: Option<Seq<char>>) -> Result<
    (Option<Seq<char>>, Option<Seq<char>>),
    Seq<char>,
> {
    let a = match after {
        Some(x) => match spec_normalize_date(x) {
            Ok(v) => Ok(Some(v)),
            Err(m) => Err(m),
        },
        None => Ok(None),
    };
    let b = match before {
        Some(x) => match spec_normalize_date(x) {
            Ok(v) => Ok(Some(v)),
            Err(m) => Err(m),
        },
        None => Ok(None),
    };
    match (a, b) {
        (Err(m), _) => Err(m),
        (Ok(_), Err(m)) => Err(m),
        (Ok(x), Ok(y)) => Ok((x, y)),
    }
}

fn normalize_opt_date(d: Option<&str>) -> (r: Result<Option<String>, NgError>)
    ensures
        match d {
            None => r matches Ok(None),
            Some(x) => match (r, spec_normalize_date(x@)) {
                (Ok(Some(s)), Ok(t)) => s@ == t,
                (Err(e), Err(m)) => e matches NgError::Command(msg) && msg@ == m,
                _ => false,
            },
        },
{
    match d {
        None => Ok(None),
        Some(x) => {
            let v = normalize_date_arg(x)?;
            Ok(Some(v))
        },
    }
}

fn date_kept_exec(h: &NoteHit, after: &Option<String>, before: &Option<String>) -> (b: bool)
    ensures
        b == date_kept(*h, opt_view(*after), opt_view(*before)),
{
    match &h.modified {
        None => false,
        Some(m) => {
            let mc = chars_of(m.as_str());
            let ok_after = match after {
                Some(a) => {
                    let ac = chars_of(a.as_str());
                    lex_le_chars(ac.as_slice(), mc.as_slice())
                },
                None => true,
            };
            let ok_before = match before {
                Some(b) => {
                    let bc = chars_of(b.as_str());
                    !lex_le_chars(bc.as_slice(), mc.as_slice())
                },
                None => true,
            };
            ok_after && ok_before
        },
    }
}

/// Keeps the hits modified on or after `after` and before `before`, in
/// order; without bounds the hits come back as they are. A bound that is
/// not a date is refused (see `spec_normalize_date`).
pub fn filter_by_date(hits: Vec<NoteHit>, after: Option<&str>, before: Option<&str>) -> (r: Result<
    Vec<NoteHit>,
    NgError,
>)
    ensures
        after is None && before is None ==> r == Ok::<Vec<NoteHit>, NgError>(hits),
        !(after is None && before is None) ==> match (
            r,
            spec_date_bounds(opt_str_view(after), opt_str_view(before)),
        ) {
            (Ok(v), Ok((a, b))) => {
                let sel = kept(hits@, |h: NoteHit| date_kept(h, a, b));
                &&& v.len() == sel.len()
                &&& forall|i: int| 0 <= i < v.len() ==> same_hit(#[trigger] v[i], sel[i])
            },
            (Err(e), Err(m)) => e matches NgError::Command(msg) && msg@ == m,
            _ => false,
        },
{
    if after.is_none() && before.is_none() {
        return Ok(hits);
    }
    let a = normalize_opt_date(after)?;
    let b = normalize_opt_date(before)?;
    let ghost pred = |h: NoteHit| date_kept(h, opt_view(a), opt_view(b));
    let mut out: Vec<NoteHit> = Vec::new();
    for i in 0..hits.len()
        invariant
            out.len() == kept(hits@.take(i as int), pred).len(),
            forall|k: int| 0 <= k < out.len() ==> same_hit(#[trigger] out[k], kept(hits@.take(i as int), pred)[k]),
            pred == (|h: NoteHit| date_kept(h, opt_view(a), opt_view(b))),
    {
        assert(hits@.take(i + 1).drop_last() == hits@.take(i as int));
        if date_kept_exec(&hits[i], &a, &b) {
            out.push(clone_hit(&hits[i]));
        }
    }
    assert(hits@.take(hits@.len() as int) == hits@);
    Ok(out)
}

/// The order in which search hits can be listed.
#[derive(Debug, Clone, Copy)]
pub enum SortKey {
    /// Newest modification time first; hits without one last.
    Date,
    /// Title, ascending.
    Title,
}

/// Order of optional texts: absent first, then lexicographic.
pub open spec fn opt_text_le(a: Option<Seq<char>>, b: Option<Seq<char>>) -> bool {
    match (a, b) {
        (None, _) => true,
        (Some(_), None) => false,
        (Some(x), Some(y)) => lex_le(x, y),
    }
}

/// Whether hit `a` may come before hit `b` when sorting by `key`.
pub open spec fn hit_le(key: SortKey, a: NoteHit, b: NoteHit) -> bool {
    match key {
        SortKey::Date => opt_text_le(opt_view(b.modified), opt_view(a.modified)),
        SortKey::Title => lex_le(a.title@, b.title@),
    }
}

proof fn lemma_hit_le_total(key: SortKey, a: NoteHit, b: NoteHit)
    ensures
        hit_le(key, a, b) || hit_le(key, b, a),
{
    match key {
        SortKey::Date => {
            if let (Some(x), Some(y)) = (opt_view(a.modified), opt_view(b.modified)) {
                lemma_lex_total(x, y);
            }
        },
        SortKey::Title => lemma_lex_total(a.title@, b.title@),
    }
}

proof fn lemma_hit_le_transitive(key: SortKey, a: NoteHit, b: NoteHit, c: NoteHit)
    requires
        hit_le(key, a, b),
        hit_le(key, b, c),
    ensures
        hit_le(key, a, c),
{
    match key {
        SortKey::Date => {
            if let (Some(x), Some(y), Some(z)) = (opt_view(a.modified), opt_view(b.modified), opt_view(c.modified)) {
                lemma_lex_transitive(z, y, x);
            }
        },
        SortKey::Title => lemma_lex_transitive(a.title@, b.title@, c.title@),
    }
}

fn hit_le_exec(key: SortKey, a: &NoteHit, b: &NoteHit) -> (r: bool)
    ensures
        r == hit_le(key, *a, *b),
{
    match key {
        SortKey::Date => match (&b.modified, &a.modified) {
            (None, _) => true,
            (Some(_), None) => false,
            (Some(x), Some(y)) => {
                let xc = chars_of(x.as_str());
                let yc = chars_of(y.as_str());
                lex_le_chars(xc.as_slice(), yc.as_slice())
            },
        },
        SortKey::Title => {
            let ac = chars_of(a.title.as_str());
            let bc = chars_of(b.title.as_str());
            lex_le_chars(ac.as_slice(), bc.as_slice())
        },
    }
}

/// Whether `r` lists the hits of `hits` sorted by `key`, hits that compare
/// equal keeping their order: through the index permutation `p`.
pub open spec fn is_stable_sort_of(r: Seq<NoteHit>, hits: Seq<NoteHit>, key: SortKey, p: Seq<int>) -> bool {
    &&& is_index_permutation(p, hits.len() as int)
    &&& r.len() == hits.len()
    &&& forall|i: int| 0 <= i < r.len() ==> same_hit(#[trigger] r[i], hits[p[i]])
    &&& forall|i: int, j: int| 0 <= i < j < r.len() ==> hit_le(key, #[trigger] r[i], #[trigger] r[j])
    &&& forall|i: int, j: int|
        0 <= i < j < r.len() && hit_le(key, #[trigger] r[j], #[trigger] r[i]) ==> p[i] < p[j]
}

/// Sorts hits by `key`, keeping the order of hits that compare equal.
pub fn sort_hits(hits: &Vec<NoteHit>, key: SortKey) -> (r: Vec<NoteHit>)
    ensures
        exists|p: Seq<int>| is_stable_sort_of(r@, hits@, key, p),
{
    let n = hits.len();
    let mut order: Vec<usize> = Vec::new();
    for i in 0..n
        invariant
            n == hits@.len(),
            order@.len() == i,
            forall|j: int| 0 <= j < i ==> #[trigger] order@[j] < i,
            forall|a: int, b: int| 0 <= a < b < i ==> order@[a] != order@[b],
            forall|a: int, b: int|
                0 <= a < b < i ==> hit_le(key, hits@[#[trigger] order@[a] as int], hits@[#[trigger] order@[b] as int]),
            forall|a: int, b: int|
                0 <= a < b < i && hit_le(key, hits@[#[trigger] order@[b] as int], hits@[#[trigger] order@[a] as int])
                    ==> order@[a] < order@[b],
    {
        let mut k: usize = 0;
        while k < order.len() && hit_le_exec(key, &hits[order[k]], &hits[i])
            invariant
                k <= order@.len(),
                order@.len() == i,
                i < n,
                n == hits@.len(),
                forall|j: int| 0 <= j < i ==> #[trigger] order@[j] < i,
                forall|a: int| 0 <= a < k ==> hit_le(key, hits@[#[trigger] order@[a] as int], hits@[i as int]),
            decreases order@.len() - k,
        {
            k = k + 1;
        }
        let ghost old_order = order@;
        let ghost hi = hits@[i as int];
        proof {
            if k < old_order.len() {
                lemma_hit_le_total(key, hits@[old_order[k as int] as int], hi);
                assert forall|b: int| k < b < old_order.len() implies !hit_le(key, hits@[old_order[b] as int], hi) by {
                    if hit_le(key, hits@[old_order[b] as int], hi) {
                        lemma_hit_le_transitive(key, hits@[old_order[k as int] as int], hits@[old_order[b] as int], hi);
                    }
                }
            }
        }
        order.insert(k, i);
        proof {
            assert forall|a: int, b: int| 0 <= a < b < i + 1 implies hit_le(
                key,
                hits@[#[trigger] order@[a] as int],
                hits@[#[trigger] order@[b] as int],
            ) by {
                if a < k && b == k {
                } else if a == k && b > k {
                    assert(order@[b] == old_order[b - 1]);
                    if b - 1 > k {
                        lemma_hit_le_transitive(
                            key,
                            hi,
                            hits@[old_order[k as int] as int],
                            hits@[old_order[b - 1] as int],
                        );
                    }
                } else if a < k && b < k {
                    assert(order@[a] == old_order[a] && order@[b] == old_order[b]);
                } else if a < k && b > k {
                    assert(order@[a] == old_order[a] && order@[b] == old_order[b - 1]);
                } else {
                    assert(order@[a] == old_order[a - 1] && order@[b] == old_order[b - 1]);
                }
            }
            assert forall|a: int, b: int|
                0 <= a < b < i + 1 && hit_le(key, hits@[#[trigger] order@[b] as int], hits@[#[trigger] order@[a] as int])
                implies order@[a] < order@[b] by {
                if a < k && b == k {
                    assert(order@[a] == old_order[a]);
                } else if a == k && b > k {
                    assert(order@[b] == old_order[b - 1]);
                } else if a < k && b < k {
                    assert(order@[a] == old_order[a] && order@[b] == old_order[b]);
                } else if a < k && b > k {
                    assert(order@[a] == old_order[a] && order@[b] == old_order[b - 1]);
                } else {
                    assert(order@[a] == old_order[a - 1] && order@[b] == old_order[b - 1]);
                }
            }
            assert forall|j: int| 0 <= j < i + 1 implies #[trigger] order@[j] < i + 1 by {
                if j < k {
                    assert(order@[j] == old_order[j]);
                } else if j > k {
                    assert(order@[j] == old_order[j - 1]);
                }
            }
            assert forall|a: int, b: int| 0 <= a < b < i + 1 implies order@[a] != order@[b] by {
                if a < k && b < k {
                    assert(order@[a] == old_order[a] && order@[b] == old_order[b]);
                } else if a < k && b > k {
                    assert(order@[a] == old_order[a] && order@[b] == old_order[b - 1]);
                } else if a > k {
                    assert(order@[a] == old_order[a - 1] && order@[b] == old_order[b - 1]);
                } else if a == k {
                    assert(order@[b] == old_order[b - 1]);
                } else {
                    assert(order@[a] == old_order[a]);
                }
            }
        }
    }
    let mut r: Vec<NoteHit> = Vec::new();
    for j in 0..n
        invariant
            n == hits@.len(),
            n == order@.len(),
            forall|x: int| 0 <= x < n ==> #[trigger] order@[x] < n,
            r@.len() == j,
            forall|x: int| 0 <= x < j ==> same_hit(#[trigger] r@[x], hits@[order@[x] as int]),
    {
        r.push(clone_hit(&hits[order[j]]));
    }
    let ghost p = order@.map_values(|x: usize| x as int);
    assert(is_index_permutation(p, hits@.len() as int));
    assert forall|i: int, j: int| 0 <= i < j < r@.len() implies hit_le(key, #[trigger] r@[i], #[trigger] r@[j]) by {
        assert(same_hit(r@[i], hits@[order@[i] as int]));
        assert(same_hit(r@[j], hits@[order@[j] as int]));
    }
    assert forall|i: int, j: int|
        0 <= i < j < r@.len() && hit_le(key, #[trigger] r@[j], #[trigger] r@[i]) implies p[i] < p[j] by {
        assert(same_hit(r@[i], hits@[order@[i] as int]));
        assert(same_hit(r@[j], hits@[order@[j] as int]));
    }
    assert(is_stable_sort_of(r@, hits@, key, p));
    r
}

/// A note row as the database query returns it, before text is normalized,
/// folder paths are looked up, and the body is decoded.
#[derive(Debug)]
pub struct NoteRow {
    pub id: String,
    pub db_id: i64,
    pub title: String,
    pub folder_id: Option<i64>,
    pub folder: Option<String>,
    pub snippet: Option<String>,
    pub modified: Option<String>,
    pub body_data: Option<Vec<u8>>,
}

/// An optional text with its line separators normalized.
pub open spec fn opt_normalized(o: Option<String>) -> Option<Seq<char>> {
    match o {
        Some(s) => Some(spec_normalize_line_separators(s@)),
        None => None,
    }
}

fn normalize_opt(o: &Option<String>) -> (r: Option<String>)
    ensures
        opt_view(r) == opt_normalized(*o),
{
    match o {
        Some(s) => Some(normalize_line_separators(s.as_str())),
        None => None,
    }
}

/// The nested and account-prefixed paths of a row's folder: those of the
/// last listed folder with that id, if any.
pub open spec fn row_folder_paths(folders: Seq<FolderEntry>, folder_id: Option<i64>) -> (
    Option<Seq<char>>,
    Option<Seq<char>>,
) {
    match folder_id {
        None => (None, None),
        Some(id) => {
            let i = last_with_id(folders, id);
            if i < 0 {
                (None, None)
            } else {
                (Some(folders[i].path@), Some(folders[i].account_path@))
            }
        },
    }
}

fn folder_paths_for(folders: &[FolderEntry], folder_id: Option<i64>) -> (r: (Option<String>, Option<String>))
    ensures
        (opt_view(r.0), opt_view(r.1)) == row_folder_paths(folders@, folder_id),
{
    match folder_id {
        None => (None, None),
        Some(id) => match find_last_by_id(folders, id) {
            Some(i) => (Some(folders[i].path.clone()), Some(folders[i].account_path.clone())),
            None => (None, None),
        },
    }
}

/// The text of a note body blob, when one is stored and decodes (see
/// `decode_note_body`); a blob that fails to decode gives no text.
pub open spec fn row_body_text(blob: Option<Seq<u8>>) -> Option<Seq<char>> {
    match blob {
        None => None,
        Some(b) => {
            let decoded = gzip_decoded_prefix(b, (MAX_DECODED_BODY_BYTES + 1) as nat);
            if decoded is Some && decoded->0.len() <= MAX_DECODED_BODY_BYTES {
                spec_extract_text(decoded->0)
            } else {
                None
            }
        },
    }
}

/// The body text of a stored blob; decoding failures give `None`.
pub fn body_text(blob: &Option<Vec<u8>>) -> (r: Option<String>)
    ensures
        opt_view(r) == row_body_text(
            match blob {
                Some(b) => Some(b@),
                None => None,
            },
        ),
{
    match blob {
        None => None,
        Some(b) => match decode_note_body(b.as_slice()) {
            Ok(text) => text,
            Err(_) => None,
        },
    }
}

/// Whether `n` is the cached note for `row`: texts normalized, folder paths
/// looked up among `folders`, body decoded.
pub open spec fn indexed_from_row(n: IndexedNote, row: NoteRow, folders: Seq<FolderEntry>) -> bool {
    let (fp, ap) = row_folder_paths(folders, row.folder_id);
    &&& n.id@ == row.id@
    &&& n.db_id == row.db_id
    &&& n.title@ == spec_normalize_line_separators(row.title@)
    &&& opt_view(n.folder) == opt_normalized(row.folder)
    &&& opt_view(n.folder_path) == fp
    &&& opt_view(n.account_path) == ap
    &&& opt_view(n.snippet) == opt_normalized(row.snippet)
    &&& opt_view(n.modified) == opt_view(row.modified)
    &&& opt_view(n.body) == row_body_text(
        match row.body_data {
            Some(b) => Some(b@),
            None => None,
        },
    )
}

/// The cached note for a database row (see `indexed_from_row`).
pub fn indexed_note_from_row(row: &NoteRow, folders: &[FolderEntry]) -> (n: IndexedNote)
    ensures
        indexed_from_row(n, *row, folders@),
{
    let (folder_path, account_path) = folder_paths_for(folders, row.folder_id);
    IndexedNote {
        id: row.id.clone(),
        db_id: row.db_id,
        title: normalize_line_separators(row.title.as_str()),
        folder: normalize_opt(&row.folder),
        folder_path,
        account_path,
        snippet: normalize_opt(&row.snippet),
        modified: clone_opt_string(&row.modified),
        body: body_text(&row.body_data),
    }
}

/// Whether `h` is the search hit for `row`: texts normalized and folder
/// paths looked up among `folders`; the body is not read.
pub open spec fn hit_from_row(h: NoteHit, row: NoteRow, folders: Seq<FolderEntry>) -> bool {
    let (fp, ap) = row_folder_paths(folders, row.folder_id);
    &&& h.id@ == row.id@
    &&& h.db_id == row.db_id
    &&& h.title@ == spec_normalize_line_separators(row.title@)
    &&& opt_view(h.folder) == opt_normalized(row.folder)
    &&& opt_view(h.folder_path) == fp
    &&& opt_view(h.account_path) == ap
    &&& opt_view(h.snippet) == opt_normalized(row.snippet)
    &&& opt_view(h.modified) == opt_view(row.modified)
}

/// The search hit for a database row (see `hit_from_row`).
pub fn note_hit_from_row(row: &NoteRow, folders: &[FolderEntry]) -> (h: NoteHit)
    ensures
        hit_from_row(h, *row, folders@),
{
    let (folder_path, account_path) = folder_paths_for(folders, row.folder_id);
    NoteHit {
        id: row.id.clone(),
        db_id: row.db_id,
        title: normalize_line_separators(row.title.as_str()),
        folder: normalize_opt(&row.folder),
        folder_path,
        account_path,
        snippet: normalize_opt(&row.snippet),
        modified: clone_opt_string(&row.modified),
    }
}

/// Number of notes with a non-empty body.
pub open spec fn body_note_count(notes: Seq<IndexedNote>) -> nat
    decreases notes.len(),
{
    if notes.len() == 0 {
        0
    } else {
        body_note_count(notes.drop_last()) + if opt_view(notes.last().body) matches Some(b) && b.len() > 0 {
            1nat
        } else {
            0nat
        }
    }
}

proof fn lemma_body_note_count_concat(a: Seq<IndexedNote>, b: Seq<IndexedNote>)
    ensures
        body_note_count(a + b) == body_note_count(a) + body_note_count(b),
    decreases b.len(),
{
    if b.len() == 0 {
        assert(a + b == a);
    } else {
        lemma_body_note_count_concat(a, b.drop_last());
        assert((a + b).drop_last() == a + b.drop_last());
        assert((a + b).last() == b.last());
    }
}

/// Law of the body-note count: the count of a list is the sum of the
/// counts of its parts, and one note adds one exactly when its body is
/// present and not empty (a note without body, or with an empty one, adds
/// nothing); so the count never exceeds the number of notes.
pub proof fn law_body_note_count(a: Seq<IndexedNote>, n: IndexedNote, b: Seq<IndexedNote>)
    ensures
        body_note_count(a + b) == body_note_count(a) + body_note_count(b),
        body_note_count(a + seq![n] + b) == body_note_count(a + b) + (if n.body is Some && n.body->0@.len() > 0 {
            1int
        } else {
            0int
        }),
        n.body is None ==> body_note_count(seq![n]) == 0,
        body_note_count(a) <= a.len(),
    decreases a.len(),
{
    lemma_body_note_count_concat(a, b);
    lemma_body_note_count_concat(a, seq![n]);
    lemma_body_note_count_concat(a + seq![n], b);
    let one = seq![n];
    assert(one.drop_last() == Seq::<IndexedNote>::empty());
    assert(body_note_count(Seq::<IndexedNote>::empty()) == 0);
    assert(one.last() == n);
    assert(body_note_count(one) == (if n.body is Some && n.body->0@.len() > 0 {
        1int
    } else {
        0int
    }));
    if a.len() > 0 {
        law_body_note_count(a.drop_last(), n, b);
    }
}

/// Law of the result limit: a limit from 1 to 10000 is used as given, so a
/// search (see `search_indexed_notes`) returns every selected note when
/// there are at most `limit` of them and `limit` hits otherwise; a limit
/// below 1 counts as 1 and one above 10000 as 10000.
pub proof fn law_search_limit(selected: int, limit: int)
    requires
        selected >= 0,
    ensures
        1 <= limit <= 10000 ==> min_int(selected, clamp_limit(limit)) == (if selected <= limit {
            selected
        } else {
            limit
        }),
        limit < 1 ==> min_int(selected, clamp_limit(limit)) == (if selected <= 1 {
            selected
        } else {
            1
        }),
        limit > 10000 ==> min_int(selected, clamp_limit(limit)) == (if selected <= 10000 {
            selected
        } else {
            10000
        }),
{
}

/// Counts the notes whose body text is present and not empty.
pub fn count_body_notes(notes: &[IndexedNote]) -> (n: usize)
    ensures
        n == body_note_count(notes@),
{
    let mut n: usize = 0;
    for i in 0..notes.len()
        invariant
            n == body_note_count(notes@.take(i as int)),
            n <= i,
    {
        assert(notes@.take(i + 1).drop_last() == notes@.take(i as int));
        let has_body = match &notes[i].body {
            Some(b) => !b.as_str().is_empty(),
            None => false,
        };
        if has_body {
            n = n + 1;
        }
    }
    assert(notes@.take(notes@.len() as int) == notes@);
    n
}

/// What is kept satisfies the predicate and comes from the sequence.
pub proof fn lemma_kept_satisfies<T>(s: Seq<T>, pred: spec_fn(T) -> bool)
    ensures
        kept(s, pred).len() <= s.len(),
        forall|i: int| 0 <= i < kept(s, pred).len() ==> pred(#[trigger] kept(s, pred)[i]),
        forall|i: int| 0 <= i < kept(s, pred).len() ==> s.contains(#[trigger] kept(s, pred)[i]),
    decreases s.len(),
{
    if s.len() > 0 {
        lemma_kept_satisfies(s.drop_last(), pred);
        let prev = kept(s.drop_last(), pred);
        assert forall|i: int| 0 <= i < kept(s, pred).len() implies s.contains(#[trigger] kept(s, pred)[i]) by {
            if i < prev.len() {
                let x = prev[i];
                assert(s.drop_last().contains(x));
                let j = choose|j: int| 0 <= j < s.drop_last().len() && s.drop_last()[j] == x;
                assert(s[j] == x);
            } else {
                assert(s[s.len() - 1] == s.last());
            }
        }
    }
}

/// Law: a search of cached notes returns at most the clamped limit of hits,
/// never more than 10000, and each hit comes from a note of the cache that
/// lies in the requested folder (the folder itself or one below it) and
/// matches the query or pattern.
pub proof fn law_search_hits_come_from_matching_notes(
    notes: Seq<IndexedNote>,
    query: Seq<char>,
    pattern: Option<Seq<char>>,
    folder: Option<Seq<char>>,
    limit: int,
)
    ensures
        ({
            let sel = kept(notes, |n: IndexedNote| note_selected(n, query, pattern, folder));
            let k = min_int(sel.len() as int, clamp_limit(limit));
            &&& 0 <= k <= 10000
            &&& forall|i: int| 0 <= i < k ==> notes.contains(#[trigger] sel[i])
            &&& forall|i: int| 0 <= i < k ==> (folder matches Some(f) ==> in_folder(
                opt_view((#[trigger] sel[i]).folder),
                opt_view(sel[i].folder_path),
                opt_view(sel[i].account_path),
                f,
            ))
            &&& forall|i: int| 0 <= i < k ==> note_text_matches(
                (#[trigger] sel[i]).title@,
                opt_view(sel[i].snippet),
                opt_view(sel[i].body),
                query,
                pattern,
            )
        }),
{
    let pred = |n: IndexedNote| note_selected(n, query, pattern, folder);
    lemma_kept_satisfies(notes, pred);
}

/// Law: the warmed cache finds every note that the direct database search
/// finds. For a row turned into a cached note and into a database hit, a
/// database match is also a cache match, for every query, pattern and folder.
pub proof fn law_cache_search_finds_database_matches(
    row: NoteRow,
    folders: Seq<FolderEntry>,
    n: IndexedNote,
    h: NoteHit,
    query: Seq<char>,
    pattern: Option<Seq<char>>,
    folder: Option<Seq<char>>,
)
    requires
        indexed_from_row(n, row, folders),
        hit_from_row(h, row, folders),
    ensures
        row_selected(h, query, pattern, folder) ==> note_selected(n, query, pattern, folder),
{
}

/// The outcome of a quiet search: success when something matched, else
/// `NoMatch` (exit code 1, like `grep -q`).
pub fn quiet_search_outcome(hits: &[NoteHit]) -> (r: Result<(), NgError>)
    ensures
        hits@.len() > 0 ==> r is Ok,
        hits@.len() == 0 ==> r matches Err(NgError::NoMatch),
{
    if hits.len() == 0 {
        Err(NgError::NoMatch)
    } else {
        Ok(())
    }
}

/// Law of the snippet choice (`best_snippet`): the note's own snippet is
/// kept when the query is empty or the snippet matches; otherwise the first
/// body line that matches, trimmed, is shown when it is not blank; in every
/// other case the note's own snippet is kept.
pub proof fn law_best_snippet(
    snippet: Option<Seq<char>>,
    body: Option<Seq<char>>,
    query: Seq<char>,
    pattern: Option<Seq<char>>,
)
    ensures
        (query.len() == 0 || opt_matches(snippet, query, pattern)) ==> spec_best_snippet(snippet, body, query, pattern)
            == snippet,
        !(query.len() == 0 || opt_matches(snippet, query, pattern)) ==> spec_best_snippet(
            snippet,
            body,
            query,
            pattern,
        ) == match body {
            Some(b) => match first_line_matching(text_lines(b), query, pattern) {
                Some(l) => if spec_trim(l).len() > 0 {
                    Some(spec_trim(l))
                } else {
                    snippet
                },
                None => snippet,
            },
            None => snippet,
        },
        first_line_matching(
            match body {
                Some(b) => text_lines(b),
                None => seq![],
            },
            query,
            pattern,
        ) matches Some(l) ==> text_matches(l, query, pattern),
{
    if let Some(b) = body {
        lemma_first_line_matches(text_lines(b), query, pattern);
    }
}

proof fn lemma_first_line_matches(lines: Seq<Seq<char>>, query: Seq<char>, pattern: Option<Seq<char>>)
    ensures
        first_line_matching(lines, query, pattern) matches Some(l) ==> text_matches(l, query, pattern)
            && lines.contains(l),
    decreases lines.len(),
{
    if lines.len() > 0 && !text_matches(lines[0], query, pattern) {
        lemma_first_line_matches(lines.drop_first(), query, pattern);
        if let Some(l) = first_line_matching(lines, query, pattern) {
            let j = choose|j: int| 0 <= j < lines.drop_first().len() && lines.drop_first()[j] == l;
            assert(lines[j + 1] == l);
        }
    } else if lines.len() > 0 {
        assert(lines[0] == lines[0]);
    }
}

} // verus!
