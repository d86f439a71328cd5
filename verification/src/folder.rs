//! Folder rows, their nested paths and listings, path resolution, and the
//! folder move check. The database's folders come as a map keyed by id; the
//! functions walk it as a `FolderTable`, its pairs in the order the map
//! yields them.

use vstd::prelude::*;
use vstd::string::StringExecFns;
use std::collections::HashMap;

use crate::notes::{FolderEntry, FolderMovePlan, NgError};
use crate::text::{
    chars_of, concat3, eq_ignore_ascii_case, eq_ignore_ascii_case_chars, i64_decimal,
    is_whitespace, join_slash, join_slash_chars, lemma_lex_total, lemma_lex_transitive, lex_le,
    lex_le_chars, lowercase, path_segments, segments_of, spec_i64_decimal, spec_is_whitespace,
    starts_with, starts_with_chars, string_from_chars, to_lowercase, good_segment,
    lemma_path_segments_good, lemma_segments_of_join,
};

verus! {

/// A folder row of the Notes database.
#[derive(Debug, Clone)]
pub struct RawFolder {
    pub id: i64,
    pub name: String,
    pub parent_id: Option<i64>,
    pub account_id: Option<i64>,
    pub account: Option<String>,
}

/// Whether no key occurs twice.
pub open spec fn keys_unique(s: Seq<(i64, RawFolder)>) -> bool {
    forall|i: int, j: int| 0 <= i < j < s.len() ==> s[i].0 != s[j].0
}

/// Index of the entry with key `k`, or -1.
pub open spec fn key_index(s: Seq<(i64, RawFolder)>, k: i64) -> int
    decreases s.len(),
{
    if s.len() == 0 {
        -1
    } else if s.last().0 == k {
        s.len() - 1
    } else {
        key_index(s.drop_last(), k)
    }
}

/// The folder stored under key `k`.
pub open spec fn table_get(s: Seq<(i64, RawFolder)>, k: i64) -> Option<RawFolder> {
    let i = key_index(s, k);
    if i < 0 {
        None
    } else {
        Some(s[i].1)
    }
}

/// `key_index` finds the key, or says it is absent.
pub proof fn lemma_key_index(s: Seq<(i64, RawFolder)>, k: i64)
    ensures
        -1 <= key_index(s, k) < s.len(),
        key_index(s, k) >= 0 ==> s[key_index(s, k)].0 == k,
        key_index(s, k) < 0 ==> forall|i: int| 0 <= i < s.len() ==> s[i].0 != k,
    decreases s.len(),
{
    if s.len() > 0 && s.last().0 != k {
        lemma_key_index(s.drop_last(), k);
        assert forall|i: int| 0 <= i < s.len() && key_index(s, k) < 0 implies s[i].0 != k by {
            if i < s.len() - 1 {
                assert(s[i] == s.drop_last()[i]);
            }
        }
    }
}

/// The table after storing `f` under `k`: an existing entry is replaced in
/// place, a new key is appended.
pub open spec fn table_insert(s: Seq<(i64, RawFolder)>, k: i64, f: RawFolder) -> Seq<
    (i64, RawFolder),
> {
    let i = key_index(s, k);
    if i < 0 {
        s.push((k, f))
    } else {
        s.update(i, (k, f))
    }
}

/// Folder rows keyed by id, each key once, kept in insertion order.
#[derive(Debug)]
pub struct FolderTable {
    entries: Vec<(i64, RawFolder)>,
}

impl View for FolderTable {
    type V = Seq<(i64, RawFolder)>;

    closed spec fn view(&self) -> Seq<(i64, RawFolder)> {
        self.entries@
    }
}

impl FolderTable {
    #[verifier::type_invariant]
    spec fn wf(self) -> bool {
        keys_unique(self.entries@)
    }

    /// An empty table.
    pub fn new() -> (t: FolderTable)
        ensures
            t@ == Seq::<(i64, RawFolder)>::empty(),
    {
        FolderTable { entries: Vec::new() }
    }

    /// Number of entries.
    pub fn len(&self) -> (n: usize)
        ensures
            n == self@.len(),
    {
        self.entries.len()
    }

    /// Index of the entry stored under `key`.
    pub fn index_of(&self, key: i64) -> (r: Option<usize>)
        ensures
            match r {
                Some(i) => key_index(self@, key) == i && i < self@.len(),
                None => key_index(self@, key) < 0,
            },
    {
        let mut i = self.entries.len();
        assert(self@.take(i as int) == self@);
        while i > 0
            invariant
                i <= self@.len(),
                key_index(self@, key) == key_index(self@.take(i as int), key),
            decreases i,
        {
            assert(self@.take(i as int).drop_last() == self@.take(i - 1));
            if self.entries[i - 1].0 == key {
                proof {
                    lemma_key_index(self@.take(i as int), key);
                }
                return Some(i - 1);
            }
            i = i - 1;
        }
        None
    }

    /// The folder stored under `key`.
    pub fn get(&self, key: i64) -> (r: Option<&RawFolder>)
        ensures
            match r {
                Some(f) => table_get(self@, key) == Some(*f),
                None => table_get(self@, key) is None,
            },
    {
        let found = self.index_of(key);
        match found {
            Some(i) => {
                assert(i < self@.len());
                Some(&self.entries[i].1)
            },
            None => None,
        }
    }

    /// The key and folder of entry `i`.
    pub fn entry(&self, i: usize) -> (r: &(i64, RawFolder))
        requires
            i < self@.len(),
        ensures
            *r == self@[i as int],
    {
        &self.entries[i]
    }

    /// Stores `folder` under `key`, replacing a folder already stored there.
    pub fn insert(&mut self, key: i64, folder: RawFolder)
        ensures
            final(self)@ == table_insert(old(self)@, key, folder),
    {
        proof {
            use_type_invariant(&*self);
            lemma_key_index(self@, key);
        }
        let found = self.index_of(key);
        let mut entries: Vec<(i64, RawFolder)> = Vec::new();
        std::mem::swap(&mut entries, &mut self.entries);
        match found {
            Some(i) => {
                entries.set(i, (key, folder));
            },
            None => {
                entries.push((key, folder));
            },
        }
        self.entries = entries;
    }
}


/// The map a table stands for: each key to the folder stored under it.
pub open spec fn table_map(s: Seq<(i64, RawFolder)>) -> Map<i64, RawFolder> {
    Map::new(|k: i64| key_index(s, k) >= 0, |k: i64| s[key_index(s, k)].1)
}

/// Whether table `s` holds exactly the pairs of map `m`, each once.
pub open spec fn table_of(s: Seq<(i64, RawFolder)>, m: Map<i64, RawFolder>) -> bool {
    &&& keys_unique(s)
    &&& table_map(s) == m
    &&& s.len() == m.len()
}

/// Copies a folder row.
pub fn clone_raw(f: &RawFolder) -> (r: RawFolder)
    ensures
        r == *f,
{
    RawFolder {
        id: f.id,
        name: f.name.clone(),
        parent_id: f.parent_id,
        account_id: f.account_id,
        account: match &f.account {
            Some(a) => Some(a.clone()),
            None => None,
        },
    }
}

/// Whether the first `t.len()` pairs that a map yields fill table `t`: the
/// pairs are the map's, each once, and `t` holds them in order.
pub open spec fn pairs_fill(t: Seq<(i64, RawFolder)>, pairs: Seq<(&i64, &RawFolder)>, m: Map<i64, RawFolder>) -> bool {
    &&& keys_unique(t)
    &&& t.len() <= pairs.len()
    &&& forall|i: int| 0 <= i < t.len() ==> #[trigger] t[i] == (*pairs[i].0, *pairs[i].1)
    &&& forall|i: int| 0 <= i < pairs.len() ==> m.contains_key(*(#[trigger] pairs[i]).0) && m[*pairs[i].0] == *pairs[i].1
    &&& pairs.len() == m.dom().len()
    &&& forall|key: i64| #[trigger] m.contains_key(key) ==> pairs.contains((&key, &m[key]))
}

proof fn lemma_table_from_pairs(t: Seq<(i64, RawFolder)>, m: Map<i64, RawFolder>)
    ensures
        forall|pairs: Seq<(&i64, &RawFolder)>|
            #[trigger] pairs_fill(t, pairs, m) && t.len() == pairs.len() ==> table_of(t, m),
{
    assert forall|pairs: Seq<(&i64, &RawFolder)>|
        #[trigger] pairs_fill(t, pairs, m) && t.len() == pairs.len() implies table_of(t, m) by {
        assert forall|key: i64| #[trigger] table_map(t).contains_key(key) == m.contains_key(key) by {
            lemma_key_index(t, key);
            if m.contains_key(key) {
                let i = choose|i: int| 0 <= i < pairs.len() && pairs[i] == (&key, &m[key]);
                assert(t[i].0 == key);
            } else if key_index(t, key) >= 0 {
                let i = key_index(t, key);
                assert(t[i] == (*pairs[i].0, *pairs[i].1));
            }
        }
        assert forall|key: i64| #[trigger] table_map(t).contains_key(key) implies table_map(t)[key] == m[key] by {
            lemma_key_index(t, key);
            let i = key_index(t, key);
            assert(t[i] == (*pairs[i].0, *pairs[i].1));
        }
        assert(table_map(t) =~= m);
    }
}

impl FolderTable {
    /// The folders of a map keyed by id, in the order the map yields them.
    pub fn from_map(raw: &HashMap<i64, RawFolder>) -> (t: FolderTable)
        ensures
            table_of(t@, raw@),
    {
        broadcast use vstd::std_specs::hash::group_hash_axioms;

        let mut t = FolderTable::new();
        let ghost m = raw@;
        proof {
            if m.dom().len() == 0 {
                assert(m.dom().finite());
                m.dom().lemma_len0_is_empty();
                assert(table_map(t@) =~= m);
            }
        }
        for (k, f) in it: raw.iter()
            invariant
                m == raw@,
                t@.len() == it.index(),
                forall|i: int| 0 <= i < it.index() ==> #[trigger] t@[i] == (*it.seq()[i].0, *it.seq()[i].1),
                forall|i: int| 0 <= i < it.seq().len() ==> m.contains_key(*(#[trigger] it.seq()[i]).0)
                    && m[*it.seq()[i].0] == *it.seq()[i].1,
                it.seq().no_duplicates(),
                it.seq().len() == m.dom().len(),
                forall|key: i64| #[trigger] m.contains_key(key) ==> it.seq().contains((&key, &m[key])),
                t@.len() == it.seq().len() ==> table_of(t@, m),
        {
            proof {
                use_type_invariant(&t);
                lemma_key_index(t@, *k);
                if key_index(t@, *k) >= 0 {
                    let j = key_index(t@, *k);
                    assert(it.seq()[j] == it.seq()[t@.len() as int]);
                }
            }
            t.insert(*k, clone_raw(f));
            proof {
                use_type_invariant(&t);
                lemma_table_from_pairs(t@, m);
            }
            assert(pairs_fill(t@, it.seq(), m));
        }
        t
    }
}

/// Whether `s` holds a character other than white space.
pub open spec fn has_visible_char(s: Seq<char>) -> bool {
    exists|i: int| 0 <= i < s.len() && !spec_is_whitespace(#[trigger] s[i])
}

/// Label of a folder's account: its name when that is not blank, else
/// `account:<id>`, else `unknown-account`.
pub open spec fn spec_account_label(account: Option<String>, account_id: Option<i64>) -> Seq<char> {
    match account {
        Some(a) if has_visible_char(a@) => a@,
        _ => match account_id {
            Some(id) => "account:"@ + spec_i64_decimal(id),
            None => "unknown-account"@,
        },
    }
}

/// Whether a string holds a character other than white space.
fn has_visible(s: &str) -> (b: bool)
    ensures
        b == has_visible_char(s@),
{
    let chars = chars_of(s);
    for i in 0..chars.len()
        invariant
            chars@ == s@,
            forall|j: int| 0 <= j < i ==> spec_is_whitespace(#[trigger] chars@[j]),
    {
        if !is_whitespace(chars[i]) {
            return true;
        }
    }
    false
}

/// Appends the characters of `s` to `v`.
pub fn push_str(v: &mut Vec<char>, s: &str)
    ensures
        final(v)@ == old(v)@ + s@,
{
    let mut chars = chars_of(s);
    v.append(&mut chars);
}

/// The account label (see `spec_account_label`) as characters.
fn account_label_chars(account: &Option<String>, account_id: Option<i64>) -> (r: Vec<char>)
    ensures
        r@ == spec_account_label(*account, account_id),
{
    match account {
        Some(a) => {
            if has_visible(a.as_str()) {
                return chars_of(a.as_str());
            }
        },
        None => {},
    }
    match account_id {
        Some(id) => {
            let mut r: Vec<char> = Vec::new();
            push_str(&mut r, "account:");
            let mut digits = i64_decimal(id);
            r.append(&mut digits);
            r
        },
        None => {
            let mut r: Vec<char> = Vec::new();
            push_str(&mut r, "unknown-account");
            r
        },
    }
}

/// The label of a folder's account (see `spec_account_label`).
pub fn account_label(folder: &RawFolder) -> (r: String)
    ensures
        r@ == spec_account_label(folder.account, folder.account_id),
{
    let chars = account_label_chars(&folder.account, folder.account_id);
    string_from_chars(chars.as_slice())
}

/// Nested path of folder `id`: the names of its ancestors that are in the
/// table and its own, joined by `/`. A walk that comes back to a folder it
/// already passed ends with that folder's name. An id missing from the table
/// is written in decimal. `fuel` bounds the walk; `spec_folder_path` gives
/// it the table size, which a walk through distinct folders never exhausts.
pub open spec fn path_from(s: Seq<(i64, RawFolder)>, id: i64, visited: Seq<i64>, fuel: nat) -> Seq<
    char,
>
    decreases fuel,
{
    match table_get(s, id) {
        None => spec_i64_decimal(id),
        Some(f) => {
            if visited.contains(id) {
                f.name@
            } else {
                match f.parent_id {
                    Some(p) => if table_get(s, p) is Some && fuel > 0 {
                        path_from(s, p, visited.push(id), (fuel - 1) as nat) + seq!['/'] + f.name@
                    } else {
                        f.name@
                    },
                    None => f.name@,
                }
            }
        },
    }
}

/// Nested path of folder `id` in the table.
pub open spec fn spec_folder_path(s: Seq<(i64, RawFolder)>, id: i64) -> Seq<char> {
    path_from(s, id, seq![], s.len())
}

fn contains_id(v: &Vec<i64>, id: i64) -> (b: bool)
    ensures
        b == v@.contains(id),
{
    for i in 0..v.len()
        invariant
            forall|j: int| 0 <= j < i ==> v@[j] != id,
    {
        if v[i] == id {
            return true;
        }
    }
    false
}

fn path_from_exec(t: &FolderTable, id: i64, visited: &Vec<i64>, fuel: usize) -> (r: Vec<char>)
    ensures
        r@ == path_from(t@, id, visited@, fuel as nat),
    decreases fuel,
{
    match t.get(id) {
        None => i64_decimal(id),
        Some(f) => {
            if contains_id(visited, id) {
                return chars_of(f.name.as_str());
            }
            match f.parent_id {
                Some(p) => {
                    if fuel > 0 {
                        match t.get(p) {
                            Some(_) => {
                                let mut next = visited.clone();
                                next.push(id);
                                let mut r = path_from_exec(t, p, &next, fuel - 1);
                                r.push('/');
                                push_str(&mut r, f.name.as_str());
                                return r;
                            },
                            None => {},
                        }
                    }
                    chars_of(f.name.as_str())
                },
                None => chars_of(f.name.as_str()),
            }
        },
    }
}

/// The nested path of folder `id` (see `path_from`).
pub fn folder_path(t: &FolderTable, id: i64) -> (r: String)
    ensures
        r@ == spec_folder_path(t@, id),
{
    let visited: Vec<i64> = Vec::new();
    assert(visited@ == Seq::<i64>::empty());
    let chars = path_from_exec(t, id, &visited, t.len());
    string_from_chars(chars.as_slice())
}


/// Number of keys of `s` that are not in `seen`.
pub open spec fn unseen_keys(s: Seq<(i64, RawFolder)>, seen: Seq<i64>) -> nat
    decreases s.len(),
{
    if s.len() == 0 {
        0
    } else {
        unseen_keys(s.drop_last(), seen) + if seen.contains(s.last().0) {
            0nat
        } else {
            1nat
        }
    }
}

proof fn lemma_unseen_keys_mono(s: Seq<(i64, RawFolder)>, seen: Seq<i64>, x: i64)
    ensures
        unseen_keys(s, seen.push(x)) <= unseen_keys(s, seen),
    decreases s.len(),
{
    if s.len() > 0 {
        lemma_unseen_keys_mono(s.drop_last(), seen, x);
        lemma_push_contains(seen, x, s.last().0);
    }
}

proof fn lemma_unseen_keys_shrinks_at(s: Seq<(i64, RawFolder)>, seen: Seq<i64>, x: i64, k: int)
    requires
        0 <= k < s.len(),
        s[k].0 == x,
        !seen.contains(x),
    ensures
        unseen_keys(s, seen.push(x)) < unseen_keys(s, seen),
    decreases s.len(),
{
    lemma_unseen_keys_mono(s.drop_last(), seen, x);
    if k < s.len() - 1 {
        assert(s.drop_last()[k] == s[k]);
        lemma_unseen_keys_shrinks_at(s.drop_last(), seen, x, k);
    }
    lemma_push_contains(seen, x, x);
    lemma_push_contains(seen, x, s.last().0);
}

/// Adding a key of the table to `seen` leaves fewer keys unseen.
pub proof fn lemma_unseen_keys_shrinks(s: Seq<(i64, RawFolder)>, seen: Seq<i64>, x: i64)
    requires
        table_get(s, x) is Some,
        !seen.contains(x),
    ensures
        unseen_keys(s, seen.push(x)) < unseen_keys(s, seen),
{
    lemma_key_index(s, x);
    lemma_unseen_keys_shrinks_at(s, seen, x, key_index(s, x));
}

/// The path stored for `k` in a memo of nested paths (the latest one).
pub open spec fn memo_get(m: Seq<(i64, Seq<char>)>, k: i64) -> Option<Seq<char>>
    decreases m.len(),
{
    if m.len() == 0 {
        None
    } else if m.last().0 == k {
        Some(m.last().1)
    } else {
        memo_get(m.drop_last(), k)
    }
}

/// Nested path of folder `id` computed with a memo `m` of paths already
/// found and the folders `stack` whose walk is under way, and the memo
/// afterwards. A path in the memo is taken as it stands; an id missing from
/// the table is written in decimal; a folder already on the stack (a parent
/// cycle) is its own name; otherwise the path is the parent's path, `/`,
/// and the name (or the name alone when the parent is not in the table),
/// and it is added to the memo.
pub open spec fn memo_path(s: Seq<(i64, RawFolder)>, m: Seq<(i64, Seq<char>)>, id: i64, stack: Seq<i64>) -> (
    Seq<char>,
    Seq<(i64, Seq<char>)>,
)
    decreases unseen_keys(s, stack),
{
    match memo_get(m, id) {
        Some(p) => (p, m),
        None => match table_get(s, id) {
            None => (spec_i64_decimal(id), m),
            Some(f) => {
                if stack.contains(id) {
                    (f.name@, m)
                } else if f.parent_id is Some && table_get(s, f.parent_id->0) is Some {
                    proof {
                        lemma_unseen_keys_shrinks(s, stack, id);
                    }
                    let (pp, m1) = memo_path(s, m, f.parent_id->0, stack.push(id));
                    let path = pp + seq!['/'] + f.name@;
                    (path, m1.push((id, path)))
                } else {
                    (f.name@, m.push((id, f.name@)))
                }
            },
        },
    }
}

/// Nested paths of the first `n` folders of the table, each computed in
/// table order with the memo that the earlier ones left, and the memo at
/// the end.
pub open spec fn listing_paths(s: Seq<(i64, RawFolder)>, n: nat) -> (Seq<Seq<char>>, Seq<(i64, Seq<char>)>)
    decreases n,
{
    if n == 0 {
        (seq![], seq![])
    } else {
        let (ps, m) = listing_paths(s, (n - 1) as nat);
        let (p, m2) = memo_path(s, m, s[n - 1].1.id, seq![]);
        (ps.push(p), m2)
    }
}

/// Nested path listed for table entry `i`.
pub open spec fn listed_path(s: Seq<(i64, RawFolder)>, i: int) -> Seq<char> {
    listing_paths(s, s.len()).0[i]
}

proof fn lemma_listing_paths_len(s: Seq<(i64, RawFolder)>, n: nat)
    ensures
        listing_paths(s, n).0.len() == n,
    decreases n,
{
    if n > 0 {
        lemma_listing_paths_len(s, (n - 1) as nat);
    }
}

/// The paths of a memo, by key, as plain characters.
pub open spec fn memo_view(v: Seq<(i64, Vec<char>)>) -> Seq<(i64, Seq<char>)> {
    v.map_values(|e: (i64, Vec<char>)| (e.0, e.1@))
}

fn copy_chars(src: &Vec<char>) -> (r: Vec<char>)
    ensures
        r@ == src@,
{
    let mut copy: Vec<char> = Vec::new();
    for j in 0..src.len()
        invariant
            copy@ == src@.take(j as int),
    {
        copy.push(src[j]);
        assert(src@.take(j + 1) == src@.take(j as int).push(src@[j as int]));
    }
    assert(src@.take(src@.len() as int) == src@);
    copy
}

fn memo_lookup(memo: &Vec<(i64, Vec<char>)>, id: i64) -> (r: Option<Vec<char>>)
    ensures
        match r {
            Some(p) => memo_get(memo_view(memo@), id) == Some(p@),
            None => memo_get(memo_view(memo@), id) is None,
        },
{
    let n = memo.len();
    let mut i = n;
    assert(memo_view(memo@).take(n as int) == memo_view(memo@));
    while i > 0
        invariant
            i <= n,
            n == memo@.len(),
            memo_get(memo_view(memo@), id) == memo_get(memo_view(memo@).take(i as int), id),
        decreases i,
    {
        let ghost mv = memo_view(memo@).take(i as int);
        assert(mv.drop_last() == memo_view(memo@).take(i - 1));
        if memo[i - 1].0 == id {
            return Some(copy_chars(&memo[i - 1].1));
        }
        i = i - 1;
    }
    None
}

#[verifier::spinoff_prover]
fn memo_path_exec(t: &FolderTable, memo: &mut Vec<(i64, Vec<char>)>, id: i64, stack: &Vec<i64>) -> (r: Vec<char>)
    ensures
        r@ == memo_path(t@, memo_view(old(memo)@), id, stack@).0,
        memo_view(final(memo)@) == memo_path(t@, memo_view(old(memo)@), id, stack@).1,
    decreases unseen_keys(t@, stack@),
{
    match memo_lookup(memo, id) {
        Some(p) => p,
        None => match t.get(id) {
            None => i64_decimal(id),
            Some(f) => {
                if contains_id(stack, id) {
                    return chars_of(f.name.as_str());
                }
                let found_parent = match f.parent_id {
                    Some(q) => match t.get(q) {
                        Some(_) => Some(q),
                        None => None,
                    },
                    None => None,
                };
                match found_parent {
                    Some(q) => {
                        let mut next = stack.clone();
                        next.push(id);
                        proof {
                            lemma_unseen_keys_shrinks(t@, stack@, id);
                        }
                        let mut r = memo_path_exec(t, memo, q, &next);
                        r.push('/');
                        push_str(&mut r, f.name.as_str());
                        let stored = copy_chars(&r);
                        let ghost before = memo@;
                        memo.push((id, stored));
                        assert(memo_view(memo@) == memo_view(before).push((id, r@)));
                        r
                    },
                    None => {
                        let r = chars_of(f.name.as_str());
                        let stored = chars_of(f.name.as_str());
                        let ghost before = memo@;
                        memo.push((id, stored));
                        assert(memo_view(memo@) == memo_view(before).push((id, r@)));
                        r
                    },
                }
            },
        },
    }
}

/// The characters of an optional string.
pub open spec fn opt_view(o: Option<String>) -> Option<Seq<char>> {
    match o {
        Some(s) => Some(s@),
        None => None,
    }
}

/// Copies an optional string.
pub fn clone_opt_string(o: &Option<String>) -> (r: Option<String>)
    ensures
        opt_view(r) == opt_view(*o),
{
    match o {
        Some(s) => Some(s.clone()),
        None => None,
    }
}

/// Whether two folder entries hold the same values.
pub open spec fn same_entry(a: FolderEntry, b: FolderEntry) -> bool {
    &&& a.id == b.id
    &&& a.name@ == b.name@
    &&& a.parent_id == b.parent_id
    &&& a.account_id == b.account_id
    &&& opt_view(a.account) == opt_view(b.account)
    &&& a.path@ == b.path@
    &&& a.account_path@ == b.account_path@
}

/// Copies a folder entry.
pub fn clone_entry(e: &FolderEntry) -> (r: FolderEntry)
    ensures
        same_entry(r, *e),
{
    FolderEntry {
        id: e.id,
        name: e.name.clone(),
        parent_id: e.parent_id,
        account_id: e.account_id,
        account: clone_opt_string(&e.account),
        path: e.path.clone(),
        account_path: e.account_path.clone(),
    }
}

/// Whether entry `e` describes folder `f` with nested path `path`: its
/// fields, the path, and the path prefixed with the account label.
pub open spec fn entry_describes(e: FolderEntry, f: RawFolder, path: Seq<char>) -> bool {
    &&& e.id == f.id
    &&& e.name@ == f.name@
    &&& e.parent_id == f.parent_id
    &&& e.account_id == f.account_id
    &&& opt_view(e.account) == opt_view(f.account)
    &&& e.path@ == path
    &&& e.account_path@ == spec_account_label(f.account, f.account_id) + seq!['/'] + path
}

/// Sort key of an entry: its lowercased account path.
pub open spec fn sort_key(e: FolderEntry) -> Seq<char> {
    lowercase(e.account_path@)
}

/// Whether `p` lists each index below `n` exactly once.
pub open spec fn is_index_permutation(p: Seq<int>, n: int) -> bool {
    &&& p.len() == n
    &&& forall|i: int| 0 <= i < p.len() ==> 0 <= #[trigger] p[i] < n
    &&& forall|i: int, j: int| 0 <= i < j < p.len() ==> p[i] != p[j]
}

/// Whether `fs` lists the folders of table `s`: one entry per table entry,
/// with the nested path listed for it, in order of lowercased account path.
pub open spec fn is_listing_of(fs: Seq<FolderEntry>, s: Seq<(i64, RawFolder)>) -> bool {
    &&& fs.len() == s.len()
    &&& exists|p: Seq<int>|
        is_index_permutation(p, s.len() as int) && forall|i: int|
            0 <= i < fs.len() ==> entry_describes(#[trigger] fs[i], s[p[i]].1, listed_path(s, p[i]))
    &&& forall|i: int, j: int|
        0 <= i < j < fs.len() ==> lex_le(sort_key(#[trigger] fs[i]), sort_key(#[trigger] fs[j]))
}

/// The entries of all folders of `t`, one per table entry, sorted by
/// lowercased account path. Nested paths are found in table order with one
/// memo shared by all folders (see `listing_paths`), so on a parent cycle a
/// folder may get the path found for it during an earlier folder's walk.
pub fn list_folders(t: &FolderTable) -> (r: Vec<FolderEntry>)
    ensures
        is_listing_of(r@, t@),
{
    let n = t.len();
    let mut items: Vec<FolderEntry> = Vec::new();
    let mut keys: Vec<Vec<char>> = Vec::new();
    let mut memo: Vec<(i64, Vec<char>)> = Vec::new();
    assert(memo_view(memo@) == Seq::<(i64, Seq<char>)>::empty());
    for i in 0..n
        invariant
            n == t@.len(),
            items@.len() == i,
            keys@.len() == i,
            listing_paths(t@, i as nat).0.len() == i,
            memo_view(memo@) == listing_paths(t@, i as nat).1,
            forall|j: int|
                0 <= j < i ==> entry_describes(#[trigger] items@[j], t@[j].1, listing_paths(t@, i as nat).0[j]),
            forall|j: int| 0 <= j < i ==> (#[trigger] keys@[j])@ == sort_key(items@[j]),
    {
        let entry = t.entry(i);
        let f = &entry.1;
        let no_stack: Vec<i64> = Vec::new();
        assert(no_stack@ == Seq::<i64>::empty());
        let path_chars = memo_path_exec(t, &mut memo, f.id, &no_stack);
        let ghost prev = listing_paths(t@, i as nat).0;
        assert(listing_paths(t@, (i + 1) as nat).0 == prev.push(path_chars@));
        let path = string_from_chars(path_chars.as_slice());
        let mut ap = account_label_chars(&f.account, f.account_id);
        ap.push('/');
        push_str(&mut ap, path.as_str());
        assert(ap@ =~= spec_account_label(f.account, f.account_id) + seq!['/'] + path@);
        let account_path = string_from_chars(ap.as_slice());
        let lower = to_lowercase(account_path.as_str());
        let key = chars_of(lower.as_str());
        items.push(
            FolderEntry {
                id: f.id,
                name: f.name.clone(),
                parent_id: f.parent_id,
                account_id: f.account_id,
                account: clone_opt_string(&f.account),
                path,
                account_path,
            },
        );
        keys.push(key);
        proof {
            lemma_listing_paths_len(t@, (i + 1) as nat);
        }
    }
    let ghost kv = keys@.map_values(|k: Vec<char>| k@);
    let mut order: Vec<usize> = Vec::new();
    for i in 0..n
        invariant
            n == items@.len(),
            n == keys@.len(),
            kv == keys@.map_values(|k: Vec<char>| k@),
            order@.len() == i,
            forall|j: int| 0 <= j < i ==> #[trigger] order@[j] < i,
            forall|a: int, b: int| 0 <= a < b < i ==> order@[a] != order@[b],
            forall|a: int, b: int|
                0 <= a < b < i ==> lex_le(kv[#[trigger] order@[a] as int], kv[#[trigger] order@[b] as int]),
    {
        let mut k: usize = 0;
        while k < order.len() && lex_le_chars(keys[order[k]].as_slice(), keys[i].as_slice())
            invariant
                k <= order@.len(),
                order@.len() == i,
                i < n,
                n == keys@.len(),
                kv == keys@.map_values(|k: Vec<char>| k@),
                forall|j: int| 0 <= j < i ==> #[trigger] order@[j] < i,
                forall|a: int| 0 <= a < k ==> lex_le(kv[#[trigger] order@[a] as int], kv[i as int]),
            decreases order@.len() - k,
        {
            k = k + 1;
        }
        let ghost old_order = order@;
        proof {
            if k < old_order.len() {
                lemma_lex_total(kv[old_order[k as int] as int], kv[i as int]);
            }
        }
        order.insert(k, i);
        proof {
            assert forall|a: int, b: int| 0 <= a < b < i + 1 implies lex_le(
                kv[#[trigger] order@[a] as int],
                kv[#[trigger] order@[b] as int],
            ) by {
                if a < k && b == k {
                } else if a == k && b > k {
                    assert(order@[b] == old_order[b - 1]);
                    if b - 1 > k {
                        lemma_lex_transitive(
                            kv[i as int],
                            kv[old_order[k as int] as int],
                            kv[old_order[b - 1] as int],
                        );
                    }
                } else if a < k && b < k {
                    assert(order@[a] == old_order[a] && order@[b] == old_order[b]);
                } else if a < k && b > k {
                    assert(order@[a] == old_order[a] && order@[b] == old_order[b - 1]);
                } else {
                    assert(order@[a] == old_order[a - 1] && order@[b] == old_order[b - 1]);
                }
            }
            assert forall|j: int| 0 <= j < i + 1 implies #[trigger] order@[j] < i + 1 by {
                if j < k {
                    assert(order@[j] == old_order[j]);
                } else if j > k {
                    assert(order@[j] == old_order[j - 1]);
                }
            }
            assert forall|a: int, b: int| 0 <= a < b < i + 1 implies order@[a] != order@[b] by {
                if a < k && b < k {
                    assert(order@[a] == old_order[a] && order@[b] == old_order[b]);
                } else if a < k && b > k {
                    assert(order@[a] == old_order[a] && order@[b] == old_order[b - 1]);
                } else if a > k {
                    assert(order@[a] == old_order[a - 1] && order@[b] == old_order[b - 1]);
                } else if a == k {
                    assert(order@[b] == old_order[b - 1]);
                } else {
                    assert(order@[a] == old_order[a]);
                }
            }
        }
    }
    let mut r: Vec<FolderEntry> = Vec::new();
    for j in 0..n
        invariant
            n == items@.len(),
            n == keys@.len(),
            n == order@.len(),
            forall|x: int| 0 <= x < n ==> #[trigger] order@[x] < n,
            r@.len() == j,
            forall|x: int| 0 <= x < j ==> same_entry(#[trigger] r@[x], items@[order@[x] as int]),
    {
        let e = clone_entry(&items[order[j]]);
        r.push(e);
    }
    let ghost p = order@.map_values(|x: usize| x as int);
    assert(is_index_permutation(p, t@.len() as int));
    assert(r@.len() == t@.len());
    assert forall|i: int| 0 <= i < r@.len() implies entry_describes(
        #[trigger] r@[i],
        t@[p[i]].1,
        listed_path(t@, p[i]),
    ) by {
        assert(same_entry(r@[i], items@[order@[i] as int]));
    }
    assert forall|i: int, j: int| 0 <= i < j < r@.len() implies lex_le(
        sort_key(#[trigger] r@[i]),
        sort_key(#[trigger] r@[j]),
    ) by {
        assert(same_entry(r@[i], items@[order@[i] as int]));
        assert(same_entry(r@[j], items@[order@[j] as int]));
        assert(kv[order@[i] as int] == keys@[order@[i] as int]@);
        assert(kv[order@[j] as int] == keys@[order@[j] as int]@);
    }
    r
}


/// A `Command` error with message `m`.
pub open spec fn is_command_error(e: NgError, m: Seq<char>) -> bool {
    e matches NgError::Command(msg) && msg@ == m
}

/// The canonical form of a folder path argument: its trimmed, non-blank
/// `/`-separated pieces joined with `/`.
pub open spec fn normalized_path(path: Seq<char>) -> Seq<char> {
    join_slash(path_segments(path))
}

/// Canonical form of a folder path argument (see `normalized_path`); a
/// path without any non-blank piece is refused.
pub fn normalize_path_arg(path: &str) -> (r: Result<String, NgError>)
    ensures
        path_segments(path@).len() == 0 <==> r is Err,
        r matches Ok(s) ==> s@ == normalized_path(path@),
        r matches Err(e) ==> is_command_error(e, "folder path cannot be empty"@),
{
    let segs = segments_of(path);
    if segs.len() == 0 {
        return Err(NgError::Command(String::from_str("folder path cannot be empty")));
    }
    let joined = join_slash_chars(segs.as_slice());
    Ok(string_from_chars(joined.as_slice()))
}

/// Law of `normalize_path_arg`: every piece of an accepted path is not
/// empty, holds no `/` and is trimmed, and normalizing the result again
/// gives it back unchanged (with the same pieces).
pub proof fn law_normalized_path_is_stable(path: Seq<char>)
    requires
        path_segments(path).len() > 0,
    ensures
        forall|i: int| 0 <= i < path_segments(path).len() ==> good_segment(#[trigger] path_segments(path)[i]),
        path_segments(normalized_path(path)) == path_segments(path),
        normalized_path(normalized_path(path)) == normalized_path(path),
{
    lemma_path_segments_good(path);
    lemma_segments_of_join(path_segments(path));
}

/// The trimmed, non-blank pieces of a folder path argument; a path without
/// any is refused.
fn split_path_arg(path: &str) -> (r: Result<Vec<Vec<char>>, NgError>)
    ensures
        path_segments(path@).len() == 0 <==> r is Err,
        r matches Ok(v) ==> v@.map_values(|x: Vec<char>| x@) == path_segments(path@),
        r matches Err(e) ==> is_command_error(e, "folder path cannot be empty"@),
{
    let segs = segments_of(path);
    if segs.len() == 0 {
        return Err(NgError::Command(String::from_str("folder path cannot be empty")));
    }
    Ok(segs)
}

/// Indices of the entries whose path or account path is `p`, ascending.
pub open spec fn match_positions(fs: Seq<FolderEntry>, p: Seq<char>) -> Seq<int>
    decreases fs.len(),
{
    if fs.len() == 0 {
        seq![]
    } else {
        let prev = match_positions(fs.drop_last(), p);
        if fs.last().path@ == p || fs.last().account_path@ == p {
            prev.push(fs.len() - 1)
        } else {
            prev
        }
    }
}

proof fn lemma_match_positions(fs: Seq<FolderEntry>, p: Seq<char>)
    ensures
        forall|i: int|
            0 <= i < match_positions(fs, p).len() ==> 0 <= #[trigger] match_positions(fs, p)[i] < fs.len(),
    decreases fs.len(),
{
    if fs.len() > 0 {
        lemma_match_positions(fs.drop_last(), p);
        let prev = match_positions(fs.drop_last(), p);
        assert forall|i: int| 0 <= i < match_positions(fs, p).len() implies 0
            <= #[trigger] match_positions(fs, p)[i] < fs.len() by {
            if i < prev.len() {
                assert(match_positions(fs, p)[i] == prev[i]);
            }
        }
    }
}

/// Index of the one entry that a folder path argument names, if exactly one does.
pub open spec fn spec_resolved_index(fs: Seq<FolderEntry>, path: Seq<char>) -> Option<int> {
    let m = match_positions(fs, normalized_path(path));
    if path_segments(path).len() > 0 && m.len() == 1 {
        Some(m[0])
    } else {
        None
    }
}

/// The folder that a path argument names, as an index, or the refusal:
/// its normalized form must equal exactly one entry's path or account path.
pub open spec fn spec_resolve_folder(fs: Seq<FolderEntry>, path: Seq<char>) -> Result<int, Seq<char>> {
    let p = normalized_path(path);
    let m = match_positions(fs, p);
    if path_segments(path).len() == 0 {
        Err("folder path cannot be empty"@)
    } else if m.len() == 1 {
        Ok(m[0])
    } else if m.len() == 0 {
        Err("folder path not found: '"@ + p + "'"@)
    } else {
        Err(
            "folder path is ambiguous: '"@ + p + "'. Use an account-prefixed path such as '"@
                + fs[m[0]].account_path@ + "'."@,
        )
    }
}

/// A resolved folder index lies within the listing.
pub proof fn lemma_resolve_folder_index(fs: Seq<FolderEntry>, path: Seq<char>)
    ensures
        spec_resolve_folder(fs, path) matches Ok(i) ==> 0 <= i < fs.len(),
{
    lemma_match_positions(fs, normalized_path(path));
}

/// Finds the folder that a path argument names (see `spec_resolve_folder`).
pub fn resolve_folder(folders: &[FolderEntry], path: &str) -> (r: Result<FolderEntry, NgError>)
    ensures
        match (r, spec_resolve_folder(folders@, path@)) {
            (Ok(e), Ok(i)) => 0 <= i < folders@.len() && same_entry(e, folders@[i]),
            (Err(e), Err(m)) => is_command_error(e, m),
            _ => false,
        },
        r is Ok <==> spec_resolved_index(folders@, path@) is Some,
{
    let path = normalize_path_arg(path)?;
    let ghost p = path@;
    let mut matches: Vec<usize> = Vec::new();
    for i in 0..folders.len()
        invariant
            matches@.map_values(|x: usize| x as int) == match_positions(folders@.take(i as int), p),
            p == path@,
    {
        assert(folders@.take(i + 1).drop_last() == folders@.take(i as int));
        if folders[i].path == path || folders[i].account_path == path {
            let ghost before = matches@;
            matches.push(i);
            assert(matches@.map_values(|x: usize| x as int) == before.map_values(|x: usize| x as int).push(i as int));
        }
    }
    assert(folders@.take(folders@.len() as int) == folders@);
    proof {
        lemma_match_positions(folders@, p);
    }
    if matches.len() == 1 {
        assert(matches@[0] as int == match_positions(folders@, p)[0]);
        Ok(clone_entry(&folders[matches[0]]))
    } else if matches.len() == 0 {
        Err(NgError::Command(concat3("folder path not found: '", path.as_str(), "'")))
    } else {
        assert(matches@[0] as int == match_positions(folders@, p)[0]);
        let first = &folders[matches[0]];
        let mut msg = concat3(
            "folder path is ambiguous: '",
            path.as_str(),
            "'. Use an account-prefixed path such as '",
        );
        msg.append(first.account_path.as_str());
        msg.append("'.");
        Err(NgError::Command(msg))
    }
}


/// Label of a folder entry's account (see `spec_account_label`).
pub open spec fn entry_label(e: FolderEntry) -> Seq<char> {
    spec_account_label(e.account, e.account_id)
}

/// The label of a folder entry's account.
fn folder_account_label(folder: &FolderEntry) -> (r: Vec<char>)
    ensures
        r@ == entry_label(*folder),
{
    account_label_chars(&folder.account, folder.account_id)
}

/// Index of the first entry with folder id `id`, or -1.
pub open spec fn first_with_id(fs: Seq<FolderEntry>, id: i64) -> int
    decreases fs.len(),
{
    if fs.len() == 0 {
        -1
    } else if fs[0].id == id {
        0
    } else {
        let rest = first_with_id(fs.drop_first(), id);
        if rest < 0 {
            -1
        } else {
            rest + 1
        }
    }
}

/// Index of the first entry with folder id `id`.
fn find_by_id(folders: &[FolderEntry], id: i64) -> (r: Option<usize>)
    ensures
        match r {
            Some(i) => first_with_id(folders@, id) == i && i < folders@.len(),
            None => first_with_id(folders@, id) < 0,
        },
{
    let mut i: usize = 0;
    assert(folders@.skip(0) == folders@);
    while i < folders.len()
        invariant
            i <= folders@.len(),
            first_with_id(folders@, id) == if first_with_id(folders@.skip(i as int), id) < 0 {
                -1
            } else {
                first_with_id(folders@.skip(i as int), id) + i
            },
        decreases folders@.len() - i,
    {
        assert(folders@.skip(i as int).drop_first() == folders@.skip(i + 1));
        if folders[i].id == id {
            return Some(i);
        }
        i = i + 1;
    }
    None
}

/// The path under which a folder that keeps its parent is shown: the
/// parent's account path, or the folder's account label at the top.
pub open spec fn spec_parent_path_for_source(fs: Seq<FolderEntry>, source: FolderEntry) -> Seq<char> {
    match source.parent_id {
        Some(pid) => {
            let k = first_with_id(fs, pid);
            if k >= 0 {
                fs[k].account_path@
            } else {
                entry_label(source)
            }
        },
        None => entry_label(source),
    }
}

fn parent_path_for_source(folders: &[FolderEntry], source: &FolderEntry) -> (r: Vec<char>)
    ensures
        r@ == spec_parent_path_for_source(folders@, *source),
{
    match source.parent_id {
        Some(pid) => match find_by_id(folders, pid) {
            Some(k) => chars_of(folders[k].account_path.as_str()),
            None => folder_account_label(source),
        },
        None => folder_account_label(source),
    }
}

/// Account ids of the entries whose account label is `label`, in order.
pub open spec fn label_account_ids(fs: Seq<FolderEntry>, label: Seq<char>) -> Seq<Option<i64>>
    decreases fs.len(),
{
    if fs.len() == 0 {
        seq![]
    } else {
        let prev = label_account_ids(fs.drop_last(), label);
        if entry_label(fs.last()) == label {
            prev.push(fs.last().account_id)
        } else {
            prev
        }
    }
}

/// Whether every id in `ids` is the first one.
pub open spec fn single_account(ids: Seq<Option<i64>>) -> bool {
    forall|j: int| 0 <= j < ids.len() ==> #[trigger] ids[j] == ids[0]
}

/// A resolved parent for a folder move, in terms of values.
pub struct ParentSpec {
    pub id: Option<i64>,
    pub account_id: Option<i64>,
    pub path: Option<Seq<char>>,
}

/// A resolved target for a folder move, in terms of values.
pub struct TargetSpec {
    pub parent_id: Option<i64>,
    pub account_id: Option<i64>,
    pub name: Seq<char>,
    pub path: Seq<char>,
}

/// The parent named by the leading pieces `pp` of a move target: a folder
/// it names; else the one account whose label it is (top level of that
/// account); else `.` for the source's own parent; else an error message.
pub open spec fn spec_target_parent(fs: Seq<FolderEntry>, source: FolderEntry, pp: Seq<char>) -> Result<
    ParentSpec,
    Seq<char>,
> {
    match spec_resolved_index(fs, pp) {
        Some(i) => Ok(
            ParentSpec { id: Some(fs[i].id), account_id: fs[i].account_id, path: Some(fs[i].account_path@) },
        ),
        None => {
            let ids = label_account_ids(fs, pp);
            if ids.len() == 0 {
                if pp == seq!['.'] {
                    Ok(ParentSpec { id: source.parent_id, account_id: source.account_id, path: None })
                } else {
                    Err("target parent folder path not found: '"@ + pp + "'"@)
                }
            } else if single_account(ids) {
                Ok(ParentSpec { id: None, account_id: ids[0], path: Some(pp) })
            } else {
                Err("target parent account is ambiguous: '"@ + pp + "'"@)
            }
        },
    }
}

/// Where a folder move puts the source: `target` is its final path; one
/// piece renames in place, more pieces name the new parent first. A final
/// piece that looks like an account placeholder is refused.
pub open spec fn spec_resolve_target(fs: Seq<FolderEntry>, source: FolderEntry, target: Seq<char>) -> Result<
    TargetSpec,
    Seq<char>,
> {
    let segs = path_segments(target);
    if segs.len() == 0 {
        Err("folder path cannot be empty"@)
    } else {
        let name = segs.last();
        if starts_with(name, "account:"@) {
            Err("target folder name cannot be an account placeholder"@)
        } else {
            let parent = if segs.len() == 1 {
                Ok(
                    ParentSpec {
                        id: source.parent_id,
                        account_id: source.account_id,
                        path: Some(spec_parent_path_for_source(fs, source)),
                    },
                )
            } else {
                spec_target_parent(fs, source, join_slash(segs.drop_last()))
            };
            match parent {
                Err(m) => Err(m),
                Ok(p) => Ok(
                    TargetSpec {
                        parent_id: p.id,
                        account_id: p.account_id,
                        name,
                        path: match p.path {
                            Some(pp) => pp + seq!['/'] + name,
                            None => name,
                        },
                    },
                ),
            }
        }
    }
}

/// Resolved destination parent of a folder move.
#[derive(Debug)]
pub struct ResolvedParent {
    pub id: Option<i64>,
    pub account_id: Option<i64>,
    pub path: Option<String>,
}

/// Resolved destination of a folder move.
#[derive(Debug)]
pub struct ResolvedTarget {
    pub parent_id: Option<i64>,
    pub account_id: Option<i64>,
    pub name: String,
    pub path: String,
}

/// Whether an exec parent holds the values of a spec one.
pub open spec fn parent_is(r: ResolvedParent, p: ParentSpec) -> bool {
    r.id == p.id && r.account_id == p.account_id && opt_view(r.path) == p.path
}

/// Whether an exec target holds the values of a spec one.
pub open spec fn target_is(r: ResolvedTarget, t: TargetSpec) -> bool {
    r.parent_id == t.parent_id && r.account_id == t.account_id && r.name@ == t.name && r.path@
        == t.path
}

fn resolve_target_parent(folders: &[FolderEntry], source: &FolderEntry, parent_parts: &[Vec<char>]) -> (r: Result<
    ResolvedParent,
    NgError,
>)
    ensures
        match (r, spec_target_parent(folders@, *source, join_slash(parent_parts@.map_values(|v: Vec<char>| v@)))) {
            (Ok(p), Ok(ps)) => parent_is(p, ps),
            (Err(e), Err(m)) => is_command_error(e, m),
            _ => false,
        },
{
    let pp_chars = join_slash_chars(parent_parts);
    let parent_path = string_from_chars(pp_chars.as_slice());
    let ghost pp = parent_path@;
    match resolve_folder(folders, parent_path.as_str()) {
        Ok(parent) => {
            return Ok(
                ResolvedParent {
                    id: Some(parent.id),
                    account_id: parent.account_id,
                    path: Some(parent.account_path),
                },
            );
        },
        Err(_) => {},
    }
    let mut found = false;
    let mut first: Option<i64> = None;
    let mut all_same = true;
    for i in 0..folders.len()
        invariant
            pp == parent_path@,
            pp_chars@ == pp,
            ({
                let ids = label_account_ids(folders@.take(i as int), pp);
                &&& found <==> ids.len() > 0
                &&& found ==> first == ids[0]
                &&& found ==> (all_same <==> single_account(ids))
                &&& !found ==> all_same
            }),
    {
        assert(folders@.take(i + 1).drop_last() == folders@.take(i as int));
        let label = folder_account_label(&folders[i]);
        let ghost prev = label_account_ids(folders@.take(i as int), pp);
        assert(folders@.take(i + 1).last() == folders@[i as int]);
        let eq = label_equals(&label, &pp_chars);
        if !eq {
            assert(label_account_ids(folders@.take(i + 1), pp) == prev);
        } else {
            let id = folders[i].account_id;
            if !found {
                found = true;
                first = id;
            } else if id != first {
                all_same = false;
            }
            proof {
                let ids = label_account_ids(folders@.take(i + 1), pp);
                assert(ids == prev.push(id));
                assert(ids[ids.len() - 1] == id);
                assert forall|j: int| 0 <= j < prev.len() implies #[trigger] ids[j] == prev[j] by {}
                if single_account(prev) && (prev.len() == 0 || id == prev[0]) {
                    assert forall|j: int| 0 <= j < ids.len() implies #[trigger] ids[j] == ids[0] by {
                        if j < prev.len() {
                            assert(ids[j] == prev[j]);
                        }
                    }
                } else if !single_account(prev) {
                    let j = choose|j: int| 0 <= j < prev.len() && #[trigger] prev[j] != prev[0];
                    assert(ids[j] == prev[j]);
                    assert(!single_account(ids));
                } else {
                    assert(ids[prev.len() as int] != ids[0]);
                    assert(!single_account(ids));
                }
            }
        }
    }
    assert(folders@.take(folders@.len() as int) == folders@);
    if !found {
        if pp_chars.len() == 1 && pp_chars[0] == '.' {
            assert(pp == seq!['.']);
            Ok(ResolvedParent { id: source.parent_id, account_id: source.account_id, path: None })
        } else {
            Err(NgError::Command(concat3("target parent folder path not found: '", parent_path.as_str(), "'")))
        }
    } else if all_same {
        Ok(ResolvedParent { id: None, account_id: first, path: Some(parent_path) })
    } else {
        Err(NgError::Command(concat3("target parent account is ambiguous: '", parent_path.as_str(), "'")))
    }
}

/// Whether two character strings are equal.
fn label_equals(a: &Vec<char>, b: &Vec<char>) -> (r: bool)
    ensures
        r == (a@ == b@),
{
    if a.len() != b.len() {
        return false;
    }
    for i in 0..a.len()
        invariant
            a@.len() == b@.len(),
            forall|j: int| 0 <= j < i ==> a@[j] == b@[j],
    {
        if a[i] != b[i] {
            return false;
        }
    }
    assert(a@ =~= b@);
    true
}

/// Resolves where a folder move puts `source` (see `spec_resolve_target`).
pub fn resolve_target(folders: &[FolderEntry], source: &FolderEntry, target_path: &str) -> (r: Result<
    ResolvedTarget,
    NgError,
>)
    ensures
        match (r, spec_resolve_target(folders@, *source, target_path@)) {
            (Ok(t), Ok(ts)) => target_is(t, ts),
            (Err(e), Err(m)) => is_command_error(e, m),
            _ => false,
        },
{
    let parts = split_path_arg(target_path)?;
    let ghost segs = path_segments(target_path@);
    let n = parts.len();
    let name_chars = parts[n - 1].clone();
    assert(name_chars@ == segs.last());
    let prefix = chars_of("account:");
    if starts_with_chars(name_chars.as_slice(), prefix.as_slice()) {
        return Err(NgError::Command(String::from_str("target folder name cannot be an account placeholder")));
    }
    let name = string_from_chars(name_chars.as_slice());
    let ghost name_v = segs.last();
    let ghost parent_spec = if segs.len() == 1 {
        Ok(
            ParentSpec {
                id: source.parent_id,
                account_id: source.account_id,
                path: Some(spec_parent_path_for_source(folders@, *source)),
            },
        )
    } else {
        spec_target_parent(folders@, *source, join_slash(segs.drop_last()))
    };
    assert(spec_resolve_target(folders@, *source, target_path@) == match parent_spec {
        Err(m) => Err(m),
        Ok(p) => Ok(
            TargetSpec {
                parent_id: p.id,
                account_id: p.account_id,
                name: name_v,
                path: match p.path {
                    Some(pp) => pp + seq!['/'] + name_v,
                    None => name_v,
                },
            },
        ),
    });
    let parent = if n == 1 {
        let pp = parent_path_for_source(folders, source);
        ResolvedParent {
            id: source.parent_id,
            account_id: source.account_id,
            path: Some(string_from_chars(pp.as_slice())),
        }
    } else {
        let mut parent_parts: Vec<Vec<char>> = Vec::new();
        for i in 0..n - 1
            invariant
                n == parts@.len(),
                n >= 2,
                parent_parts@.map_values(|v: Vec<char>| v@) == parts@.map_values(|v: Vec<char>| v@).take(i as int),
        {
            let ghost before = parent_parts@;
            parent_parts.push(parts[i].clone());
            assert(parent_parts@.map_values(|v: Vec<char>| v@) == before.map_values(|v: Vec<char>| v@).push(parts@[i as int]@));
            assert(parts@.map_values(|v: Vec<char>| v@).take(i + 1) == parts@.map_values(|v: Vec<char>| v@).take(i as int).push(parts@[i as int]@));
        }
        assert(parts@.map_values(|v: Vec<char>| v@).take(n - 1) == segs.drop_last());
        resolve_target_parent(folders, source, parent_parts.as_slice())?
    };
    let path = match &parent.path {
        Some(pp) => {
            let mut p = chars_of(pp.as_str());
            p.push('/');
            push_str(&mut p, name.as_str());
            assert(p@ =~= pp@ + seq!['/'] + name@);
            string_from_chars(p.as_slice())
        },
        None => name.clone(),
    };
    assert(parent_spec matches Ok(ps) && parent_is(parent, ps));
    Ok(ResolvedTarget { parent_id: parent.id, account_id: parent.account_id, name, path })
}


/// Parent id of the folder stored under `id`, if any.
pub open spec fn parent_of(s: Seq<(i64, RawFolder)>, id: i64) -> Option<i64> {
    match table_get(s, id) {
        Some(f) => f.parent_id,
        None => None,
    }
}

/// Whether walking up parent links from `cur` meets `needle` before the
/// walk ends, comes back to a folder it passed, or runs out of `fuel`.
pub open spec fn chain_reaches(s: Seq<(i64, RawFolder)>, cur: Option<i64>, needle: i64, seen: Seq<i64>, fuel: nat) -> bool
    decreases fuel,
{
    match cur {
        None => false,
        Some(id) => if id == needle {
            true
        } else if seen.contains(id) || fuel == 0 {
            false
        } else {
            chain_reaches(s, parent_of(s, id), needle, seen.push(id), (fuel - 1) as nat)
        },
    }
}

/// Whether `needle` is `start` or one of its ancestors; the fuel, one more
/// than the table size, outlasts any walk through distinct folders.
pub open spec fn spec_parent_chain_contains(s: Seq<(i64, RawFolder)>, start: Option<i64>, needle: i64) -> bool {
    chain_reaches(s, start, needle, seq![], (s.len() + 1) as nat)
}

/// Whether `needle` is `parent_id` or one of its ancestors; a parent cycle
/// ends the walk.
pub fn chain_contains_in(t: &FolderTable, parent_id: Option<i64>, needle: i64) -> (b: bool)
    ensures
        b == spec_parent_chain_contains(t@, parent_id, needle),
{
    let mut cur = parent_id;
    let mut seen: Vec<i64> = Vec::new();
    let mut fuel: u128 = (t.len() as u128) + 1;
    while cur.is_some()
        invariant
            chain_reaches(t@, cur, needle, seen@, fuel as nat) == spec_parent_chain_contains(t@, parent_id, needle),
        decreases fuel,
    {
        let id = cur.unwrap();
        if id == needle {
            return true;
        }
        if contains_id(&seen, id) || fuel == 0 {
            return false;
        }
        seen.push(id);
        fuel = fuel - 1;
        cur = match t.get(id) {
            Some(f) => f.parent_id,
            None => None,
        };
    }
    false
}

/// Whether the table holds a folder with id `c` whose parent is `p`.
pub open spec fn child_link(s: Seq<(i64, RawFolder)>, p: i64, c: i64) -> bool {
    exists|k: int| 0 <= k < s.len() && (#[trigger] s[k]).1.parent_id == Some(p) && s[k].1.id == c
}

/// Whether `c` is a chain of parent-to-child links.
pub open spec fn is_link_chain(s: Seq<(i64, RawFolder)>, c: Seq<i64>) -> bool {
    forall|i: int| 0 <= i < c.len() - 1 ==> child_link(s, #[trigger] c[i], c[i + 1])
}

/// Whether folder `x` lies below `src` through parent links (and is not `src`).
pub open spec fn is_descendant(s: Seq<(i64, RawFolder)>, src: i64, x: i64) -> bool {
    x != src && exists|c: Seq<i64>|
        c.len() >= 2 && c[0] == src && c.last() == x && #[trigger] is_link_chain(s, c)
}

/// Number of entries whose folder id is not in `seen`.
pub open spec fn unseen_count(s: Seq<(i64, RawFolder)>, seen: Seq<i64>) -> nat
    decreases s.len(),
{
    if s.len() == 0 {
        0
    } else {
        unseen_count(s.drop_last(), seen) + if seen.contains(s.last().1.id) {
            0nat
        } else {
            1nat
        }
    }
}

/// Pushing keeps what a sequence contains, and adds the pushed value.
pub proof fn lemma_push_contains(seen: Seq<i64>, x: i64, y: i64)
    ensures
        seen.push(x).contains(y) <==> (seen.contains(y) || y == x),
{
    if seen.contains(y) {
        let j = choose|j: int| 0 <= j < seen.len() && seen[j] == y;
        assert(seen.push(x)[j] == y);
    }
    if y == x {
        assert(seen.push(x)[seen.len() as int] == x);
    }
    if seen.push(x).contains(y) {
        let j = choose|j: int| 0 <= j < seen.push(x).len() && seen.push(x)[j] == y;
        if j < seen.len() {
            assert(seen[j] == y);
        }
    }
}

pub proof fn lemma_unseen_count_shrinks(s: Seq<(i64, RawFolder)>, seen: Seq<i64>, x: i64, k: int)
    requires
        0 <= k < s.len(),
        s[k].1.id == x,
        !seen.contains(x),
    ensures
        unseen_count(s, seen.push(x)) < unseen_count(s, seen),
    decreases s.len(),
{
    lemma_unseen_count_mono(s.drop_last(), seen, x);
    if k < s.len() - 1 {
        assert(s.drop_last()[k] == s[k]);
        lemma_unseen_count_shrinks(s.drop_last(), seen, x, k);
    }
    lemma_push_contains(seen, x, x);
    lemma_push_contains(seen, x, s.last().1.id);
}

proof fn lemma_unseen_count_mono(s: Seq<(i64, RawFolder)>, seen: Seq<i64>, x: i64)
    ensures
        unseen_count(s, seen.push(x)) <= unseen_count(s, seen),
    decreases s.len(),
{
    if s.len() > 0 {
        lemma_unseen_count_mono(s.drop_last(), seen, x);
        lemma_push_contains(seen, x, s.last().1.id);
    }
}

/// Whether every child of `y` in the table is in `seen`.
pub open spec fn children_seen(s: Seq<(i64, RawFolder)>, seen: Seq<i64>, y: i64) -> bool {
    forall|k: int| 0 <= k < s.len() && (#[trigger] s[k]).1.parent_id == Some(y) ==> seen.contains(s[k].1.id)
}

proof fn lemma_children_seen_grow(s: Seq<(i64, RawFolder)>, seen: Seq<i64>, x: i64, y: i64)
    requires
        children_seen(s, seen, y),
    ensures
        children_seen(s, seen.push(x), y),
{
    assert forall|k: int| 0 <= k < s.len() && (#[trigger] s[k]).1.parent_id == Some(y) implies seen.push(x).contains(s[k].1.id) by {
        lemma_push_contains(seen, x, s[k].1.id);
    }
}

/// Ids of all folders below `source_id`, each once; parent cycles end the walk.
pub fn descendants_in(t: &FolderTable, source_id: i64) -> (r: Vec<i64>)
    ensures
        r@.no_duplicates(),
        !r@.contains(source_id),
        forall|x: i64| r@.contains(x) <==> is_descendant(t@, source_id, x),
{
    let ghost s = t@;
    let n = t.len();
    let mut out: Vec<i64> = Vec::new();
    let mut seen: Vec<i64> = Vec::new();
    seen.push(source_id);
    let mut stack: Vec<i64> = Vec::new();
    stack.push(source_id);
    assert(seen@ =~= seq![source_id] + out@);
    loop
        invariant
            s == t@,
            n == s.len(),
            seen@ == seq![source_id] + out@,
            seen@.no_duplicates(),
            stack@.no_duplicates(),
            forall|y: i64| stack@.contains(y) ==> seen@.contains(y),
            forall|y: i64| out@.contains(y) ==> is_descendant(s, source_id, y),
            forall|y: i64| #[trigger] seen@.contains(y) && !stack@.contains(y) ==> children_seen(s, seen@, y),
        ensures
            stack@.len() == 0,
        decreases unseen_count(s, seen@), stack@.len(),
    {
        let ghost stack_before_pop = stack@;
        let parent = match stack.pop() {
            Some(p) => p,
            None => break,
        };
        let ghost stack_after_pop = stack@;
        let ghost seen_before = seen@;
        proof {
            assert(stack_before_pop == stack_after_pop.push(parent));
            assert(stack_before_pop.contains(parent));
            assert(!stack_after_pop.contains(parent)) by {
                if stack_after_pop.contains(parent) {
                    let j = choose|j: int| 0 <= j < stack_after_pop.len() && stack_after_pop[j] == parent;
                    assert(stack_before_pop[j] == stack_before_pop[stack_before_pop.len() - 1]);
                }
            }
            assert forall|y: i64| stack@.contains(y) implies seen@.contains(y) by {
                let j = choose|j: int| 0 <= j < stack_after_pop.len() && stack_after_pop[j] == y;
                assert(stack_before_pop[j] == y);
            }
            assert forall|y: i64| #[trigger] seen@.contains(y) && !stack@.contains(y) && y != parent implies children_seen(s, seen@, y) by {
                if stack_before_pop.contains(y) {
                    let j = choose|j: int| 0 <= j < stack_before_pop.len() && stack_before_pop[j] == y;
                    if j < stack_after_pop.len() {
                        assert(stack_after_pop[j] == y);
                    }
                }
            }
        }
        for k in 0..n
            invariant
                s == t@,
                n == s.len(),
                seen@ == seq![source_id] + out@,
                seen@.no_duplicates(),
                stack@.no_duplicates(),
                !stack@.contains(parent),
                seen@.contains(parent),
                forall|y: i64| stack@.contains(y) ==> seen@.contains(y),
                forall|y: i64| out@.contains(y) ==> is_descendant(s, source_id, y),
                forall|y: i64| #[trigger] seen@.contains(y) && !stack@.contains(y) && y != parent ==> children_seen(s, seen@, y),
                forall|j: int| 0 <= j < k && (#[trigger] s[j]).1.parent_id == Some(parent) ==> seen@.contains(s[j].1.id),
                unseen_count(s, seen@) <= unseen_count(s, seen_before),
                unseen_count(s, seen@) == unseen_count(s, seen_before) ==> stack@ == stack_after_pop,
                stack_after_pop.len() < stack_before_pop.len(),
        {
            let entry = t.entry(k);
            let f = &entry.1;
            if f.parent_id == Some(parent) {
                let c = f.id;
                if !contains_id(&seen, c) {
                    proof {
                        lemma_unseen_count_shrinks(s, seen@, c, k as int);
                        assert(s[k as int].1.parent_id == Some(parent) && s[k as int].1.id == c);
                        assert(child_link(s, parent, c));
                        if parent == source_id {
                            let ch = seq![source_id, c];
                            assert(is_link_chain(s, ch));
                            assert(c != source_id) by {
                                assert(seen@[0] == source_id);
                            }
                            assert(is_descendant(s, source_id, c));
                        } else {
                            assert(out@.contains(parent)) by {
                                let j = choose|j: int| 0 <= j < seen@.len() && seen@[j] == parent;
                                assert(j > 0);
                                assert(out@[j - 1] == parent);
                            }
                            let cp = choose|cp: Seq<i64>|
                                cp.len() >= 2 && cp[0] == source_id && cp.last() == parent && #[trigger] is_link_chain(s, cp);
                            let ch = cp.push(c);
                            assert forall|i: int| 0 <= i < ch.len() - 1 implies child_link(s, #[trigger] ch[i], ch[i + 1]) by {
                                if i < cp.len() - 1 {
                                    assert(ch[i] == cp[i] && ch[i + 1] == cp[i + 1]);
                                }
                            }
                            assert(is_link_chain(s, ch));
                            assert(c != source_id) by {
                                assert(seen@[0] == source_id);
                            }
                            assert(is_descendant(s, source_id, c));
                        }
                    }
                    let ghost old_out = out@;
                    let ghost old_seen = seen@;
                    let ghost old_stack = stack@;
                    out.push(c);
                    seen.push(c);
                    stack.push(c);
                    proof {
                        assert(seen@ =~= seq![source_id] + out@);
                        assert(seen@ == old_seen.push(c));
                        assert forall|y: i64| out@.contains(y) implies is_descendant(s, source_id, y) by {
                            if y != c {
                                let j = choose|j: int| 0 <= j < out@.len() && out@[j] == y;
                                assert(old_out[j] == y);
                            }
                        }
                        assert forall|y: i64| stack@.contains(y) implies seen@.contains(y) by {
                            if y != c {
                                let j = choose|j: int| 0 <= j < stack@.len() && stack@[j] == y;
                                assert(old_stack[j] == y);
                                assert(old_seen.contains(y));
                                let j2 = choose|j2: int| 0 <= j2 < old_seen.len() && old_seen[j2] == y;
                                assert(seen@[j2] == y);
                            } else {
                                assert(seen@[seen@.len() - 1] == c);
                            }
                        }
                        assert forall|y: i64| #[trigger] seen@.contains(y) && !stack@.contains(y) && y != parent implies children_seen(s, seen@, y) by {
                            assert(y != c) by {
                                assert(stack@[stack@.len() - 1] == c);
                            }
                            lemma_push_contains(old_seen, c, y);
                            assert(old_seen.contains(y));
                            assert(!old_stack.contains(y)) by {
                                if old_stack.contains(y) {
                                    let i2 = choose|i2: int| 0 <= i2 < old_stack.len() && old_stack[i2] == y;
                                    assert(stack@[i2] == y);
                                }
                            }
                            lemma_children_seen_grow(s, old_seen, c, y);
                        }
                        assert forall|j: int| 0 <= j < k + 1 && (#[trigger] s[j]).1.parent_id == Some(parent) implies seen@.contains(s[j].1.id) by {
                            if j < k {
                                let i2 = choose|i2: int| 0 <= i2 < old_seen.len() && old_seen[i2] == s[j].1.id;
                                assert(seen@[i2] == s[j].1.id);
                            } else {
                                assert(seen@[seen@.len() - 1] == c);
                            }
                        }
                        assert(seen@.contains(parent)) by {
                            let i2 = choose|i2: int| 0 <= i2 < old_seen.len() && old_seen[i2] == parent;
                            assert(seen@[i2] == parent);
                        }
                        lemma_unseen_count_mono(s, old_seen, c);
                        assert(!stack@.contains(parent)) by {
                            if stack@.contains(parent) {
                                let i2 = choose|i2: int| 0 <= i2 < stack@.len() && stack@[i2] == parent;
                                if i2 < old_stack.len() {
                                    assert(old_stack[i2] == parent);
                                }
                            }
                        }
                    }
                }
            }
        }
        proof {
            assert(children_seen(s, seen@, parent));
        }
    }
    proof {
        assert forall|y: i64| #[trigger] seen@.contains(y) implies children_seen(s, seen@, y) by {
            assert(!stack@.contains(y));
        }
        assert forall|x: i64| is_descendant(s, source_id, x) implies out@.contains(x) by {
            let c = choose|c: Seq<i64>| c.len() >= 2 && c[0] == source_id && c.last() == x && #[trigger] is_link_chain(s, c);
            assert(seen@.contains(source_id)) by {
                assert(seen@[0] == source_id);
            }
            lemma_chain_seen(s, c, seen@, c.len() - 1);
            let j = choose|j: int| 0 <= j < seen@.len() && seen@[j] == x;
            assert(j > 0);
            assert(out@[j - 1] == x);
        }
        assert(!out@.contains(source_id)) by {
            if out@.contains(source_id) {
                let j = choose|j: int| 0 <= j < out@.len() && out@[j] == source_id;
                assert(seen@[j + 1] == source_id);
                assert(seen@[0] == source_id);
            }
        }
        assert(out@.no_duplicates()) by {
            assert forall|i: int, j: int| 0 <= i < out@.len() && 0 <= j < out@.len() && i != j implies out@[i] != out@[j] by {
                assert(seen@[i + 1] == out@[i]);
                assert(seen@[j + 1] == out@[j]);
            }
        }
    }
    out
}

proof fn lemma_chain_seen(s: Seq<(i64, RawFolder)>, c: Seq<i64>, seen: Seq<i64>, i: int)
    requires
        0 <= i < c.len(),
        c.len() >= 1,
        seen.contains(c[0]),
        is_link_chain(s, c),
        forall|y: i64| #[trigger] seen.contains(y) ==> children_seen(s, seen, y),
    ensures
        seen.contains(c[i]),
    decreases i,
{
    if i > 0 {
        lemma_chain_seen(s, c, seen, i - 1);
        assert(child_link(s, c[i - 1], c[i]));
        let k = choose|k: int| 0 <= k < s.len() && (#[trigger] s[k]).1.parent_id == Some(c[i - 1]) && s[k].1.id == c[i];
        assert(children_seen(s, seen, c[i - 1]));
    }
}


/// Whether another folder of the same account and parent has `name` up to
/// ASCII case.
pub open spec fn spec_sibling_exists(
    fs: Seq<FolderEntry>,
    source_id: i64,
    account_id: Option<i64>,
    parent_id: Option<i64>,
    name: Seq<char>,
) -> bool {
    exists|i: int|
        0 <= i < fs.len() && (#[trigger] fs[i]).id != source_id && fs[i].account_id == account_id
            && fs[i].parent_id == parent_id && eq_ignore_ascii_case(fs[i].name@, name)
}

/// Whether a folder other than `source_id` with the same account and parent
/// is named `name` up to ASCII case.
pub fn sibling_exists(
    folders: &[FolderEntry],
    source_id: i64,
    account_id: Option<i64>,
    parent_id: Option<i64>,
    name: &str,
) -> (b: bool)
    ensures
        b == spec_sibling_exists(folders@, source_id, account_id, parent_id, name@),
{
    let name_chars = chars_of(name);
    for i in 0..folders.len()
        invariant
            name_chars@ == name@,
            forall|j: int|
                0 <= j < i ==> !((#[trigger] folders@[j]).id != source_id && folders@[j].account_id
                    == account_id && folders@[j].parent_id == parent_id && eq_ignore_ascii_case(
                    folders@[j].name@,
                    name@,
                )),
    {
        let f = &folders[i];
        if f.id != source_id && f.account_id == account_id && f.parent_id == parent_id {
            let fname = chars_of(f.name.as_str());
            if eq_ignore_ascii_case_chars(fname.as_slice(), name_chars.as_slice()) {
                return true;
            }
        }
    }
    false
}

/// A checked folder move, before its notes are counted.
#[derive(Debug)]
pub struct FolderMoveDraft {
    pub source_id: i64,
    pub source_path: String,
    pub target_parent_id: Option<i64>,
    pub target_account_id: Option<i64>,
    pub target_path: String,
    pub new_name: String,
    pub descendant_folders: usize,
    pub will_change: bool,
    /// The folders whose notes move along: every descendant, then the source.
    pub note_folder_ids: Vec<i64>,
}

impl FolderMoveDraft {
    /// The plan, once the notes in `note_folder_ids` are counted.
    pub fn into_plan(self, notes: usize) -> (p: FolderMovePlan)
        ensures
            p.source_id == self.source_id,
            p.source_path@ == self.source_path@,
            p.target_parent_id == self.target_parent_id,
            p.target_account_id == self.target_account_id,
            p.target_path@ == self.target_path@,
            p.new_name@ == self.new_name@,
            p.descendant_folders == self.descendant_folders,
            p.notes == notes,
            p.will_change == self.will_change,
    {
        FolderMovePlan {
            source_id: self.source_id,
            source_path: self.source_path,
            target_parent_id: self.target_parent_id,
            target_account_id: self.target_account_id,
            target_path: self.target_path,
            new_name: self.new_name,
            descendant_folders: self.descendant_folders,
            notes,
            will_change: self.will_change,
        }
    }
}

/// Resolving a move target depends on the source entry's values only.
proof fn lemma_resolve_target_same_entry(fs: Seq<FolderEntry>, a: FolderEntry, b: FolderEntry, t: Seq<char>)
    requires
        same_entry(a, b),
    ensures
        spec_resolve_target(fs, a, t) == spec_resolve_target(fs, b, t),
{
    assert(entry_label(a) == entry_label(b));
    assert(spec_parent_path_for_source(fs, a) == spec_parent_path_for_source(fs, b));
}

/// Outcome of checking a folder move on listing `fs` of table `s`: the
/// source index and resolved target, or the refusal. Moves need a known
/// account, stay in the same account, never go into the source itself or a
/// descendant, and never meet an existing sibling of the same name.
pub open spec fn spec_folder_move(
    fs: Seq<FolderEntry>,
    s: Seq<(i64, RawFolder)>,
    source_path: Seq<char>,
    target_path: Seq<char>,
) -> Result<(int, TargetSpec), Seq<char>> {
    match spec_resolve_folder(fs, source_path) {
        Err(m) => Err(m),
        Ok(si) => {
            let source = fs[si];
            match spec_resolve_target(fs, source, target_path) {
                Err(m) => Err(m),
                Ok(t) => if source.account_id is None || t.account_id is None {
                    Err("folder account is unknown for '"@ + source.account_path@ + "'; refusing to move it"@)
                } else if source.account_id != t.account_id {
                    Err(
                        "cross-account folder moves are not supported: '"@ + source.account_path@
                            + "' -> '"@ + t.path + "'"@,
                    )
                } else if t.parent_id == Some(source.id) || spec_parent_chain_contains(
                    s,
                    t.parent_id,
                    source.id,
                ) {
                    Err(
                        "cannot move '"@ + source.account_path@
                            + "' into itself or one of its descendants"@,
                    )
                } else if spec_sibling_exists(fs, source.id, t.account_id, t.parent_id, t.name) {
                    Err("target sibling already exists: '"@ + t.path + "'"@)
                } else {
                    Ok((si, t))
                },
            }
        },
    }
}

/// Whether a draft carries the values of an accepted move of entry `source`
/// to `t` in table `s`.
pub open spec fn draft_is(d: FolderMoveDraft, s: Seq<(i64, RawFolder)>, source: FolderEntry, t: TargetSpec) -> bool {
    let ids = d.note_folder_ids@;
    &&& d.source_id == source.id
    &&& d.source_path@ == source.account_path@
    &&& d.target_parent_id == t.parent_id
    &&& d.target_account_id == t.account_id
    &&& d.target_path@ == t.path
    &&& d.new_name@ == t.name
    &&& d.will_change == (source.parent_id != t.parent_id || source.account_id != t.account_id
        || source.name@ != t.name)
    &&& ids.len() == d.descendant_folders + 1
    &&& ids.last() == source.id
    &&& ids.drop_last().no_duplicates()
    &&& forall|x: i64| ids.drop_last().contains(x) <==> is_descendant(s, source.id, x)
}

/// Checks a folder move from `source_path` to the final path `target_path`
/// against the folders of `t` (see `spec_folder_move`).
pub fn check_folder_move_in(t: &FolderTable, source_path: &str, target_path: &str) -> (r: Result<
    FolderMoveDraft,
    NgError,
>)
    ensures
        exists|fs: Seq<FolderEntry>|
            #[trigger] is_listing_of(fs, t@) && match (r, spec_folder_move(fs, t@, source_path@, target_path@)) {
                (Ok(d), Ok((si, ts))) => 0 <= si < fs.len() && draft_is(d, t@, fs[si], ts),
                (Err(e), Err(m)) => is_command_error(e, m),
                _ => false,
            },
{
    let folders = list_folders(t);
    let ghost fs = folders@;
    let source = resolve_folder(folders.as_slice(), source_path)?;
    let ghost si = spec_resolve_folder(fs, source_path@)->Ok_0;
    let target = resolve_target(folders.as_slice(), &source, target_path)?;
    let ghost ts = spec_resolve_target(fs, fs[si], target_path@)->Ok_0;
    assert(spec_resolve_target(fs, source, target_path@) == spec_resolve_target(fs, fs[si], target_path@)) by {
        lemma_resolve_target_same_entry(fs, source, fs[si], target_path@);
    }
    if source.account_id.is_none() || target.account_id.is_none() {
        let mut msg = concat3("folder account is unknown for '", source.account_path.as_str(), "'; refusing to move it");
        return Err(NgError::Command(msg));
    }
    if source.account_id != target.account_id {
        let mut msg = concat3("cross-account folder moves are not supported: '", source.account_path.as_str(), "' -> '");
        msg.append(target.path.as_str());
        msg.append("'");
        return Err(NgError::Command(msg));
    }
    if target.parent_id == Some(source.id) || chain_contains_in(t, target.parent_id, source.id) {
        return Err(NgError::Command(concat3("cannot move '", source.account_path.as_str(), "' into itself or one of its descendants")));
    }
    if sibling_exists(folders.as_slice(), source.id, target.account_id, target.parent_id, target.name.as_str()) {
        return Err(NgError::Command(concat3("target sibling already exists: '", target.path.as_str(), "'")));
    }
    let descendants = descendants_in(t, source.id);
    let count = descendants.len();
    let mut note_folder_ids = descendants.clone();
    note_folder_ids.push(source.id);
    assert(note_folder_ids@.drop_last() == descendants@);
    let will_change = source.parent_id != target.parent_id || source.account_id != target.account_id
        || source.name != target.name;
    Ok(
        FolderMoveDraft {
            source_id: source.id,
            source_path: source.account_path,
            target_parent_id: target.parent_id,
            target_account_id: target.account_id,
            target_path: target.path,
            new_name: target.name,
            descendant_folders: count,
            will_change,
            note_folder_ids,
        },
    )
}

/// The entries of all folders of `raw`, one per folder, sorted by
/// lowercased account path (folders whose paths tie keep the order in which
/// the map yields them). Paths are found in the order in which the map
/// yields the folders, with one shared memo, as `list_folders` does.
pub fn build_folder_entries(raw: &HashMap<i64, RawFolder>) -> (r: Vec<FolderEntry>)
    ensures
        exists|s: Seq<(i64, RawFolder)>| #[trigger] table_of(s, raw@) && is_listing_of(r@, s),
{
    let t = FolderTable::from_map(raw);
    let r = list_folders(&t);
    assert(table_of(t@, raw@) && is_listing_of(r@, t@));
    r
}

/// Whether `needle` is `parent_id` or one of its ancestors in `raw`; a
/// parent cycle ends the walk (see `spec_parent_chain_contains`).
pub fn parent_chain_contains(raw: &HashMap<i64, RawFolder>, parent_id: Option<i64>, needle: i64) -> (b: bool)
    ensures
        exists|s: Seq<(i64, RawFolder)>| #[trigger] table_of(s, raw@) && b == spec_parent_chain_contains(s, parent_id, needle),
{
    let t = FolderTable::from_map(raw);
    let b = chain_contains_in(&t, parent_id, needle);
    assert(table_of(t@, raw@));
    b
}

/// Ids of all folders below `source_id` in `raw`, each once; parent cycles
/// end the walk.
pub fn descendant_folder_ids(raw: &HashMap<i64, RawFolder>, source_id: i64) -> (r: Vec<i64>)
    ensures
        r@.no_duplicates(),
        !r@.contains(source_id),
        exists|s: Seq<(i64, RawFolder)>|
            #[trigger] table_of(s, raw@) && forall|x: i64| r@.contains(x) <==> is_descendant(s, source_id, x),
{
    let t = FolderTable::from_map(raw);
    let r = descendants_in(&t, source_id);
    assert(table_of(t@, raw@));
    r
}

/// Checks a folder move from `source_path` to the final path `target_path`
/// against the folders of `raw` (see `spec_folder_move`).
pub fn check_folder_move(raw: &HashMap<i64, RawFolder>, source_path: &str, target_path: &str) -> (r: Result<
    FolderMoveDraft,
    NgError,
>)
    ensures
        exists|s: Seq<(i64, RawFolder)>, fs: Seq<FolderEntry>|
            #[trigger] table_of(s, raw@) && #[trigger] is_listing_of(fs, s) && match (
                r,
                spec_folder_move(fs, s, source_path@, target_path@),
            ) {
                (Ok(d), Ok((si, ts))) => 0 <= si < fs.len() && draft_is(d, s, fs[si], ts),
                (Err(e), Err(m)) => is_command_error(e, m),
                _ => false,
            },
{
    let t = FolderTable::from_map(raw);
    let r = check_folder_move_in(&t, source_path, target_path);
    assert(table_of(t@, raw@));
    r
}

} // verus!
