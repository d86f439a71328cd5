//! Laws of folder ancestry. The upward parent walk used by folder moves
//! agrees with the downward descendant relation, so the move check refuses
//! exactly the moves that would put a folder inside itself, and an accepted
//! move creates no parent cycle; nested paths extend their parent's path.

use vstd::prelude::*;

use crate::folder::{
    chain_reaches, child_link, is_descendant, is_link_chain, keys_unique, key_index, lemma_key_index,
    parent_of, spec_folder_move, spec_parent_chain_contains, table_get, RawFolder, path_from,
    spec_folder_path, unseen_count, lemma_unseen_count_shrinks, lemma_push_contains, table_map,
    table_of, draft_is, listed_path, listing_paths, memo_get, memo_path, unseen_keys,
    lemma_unseen_keys_shrinks, is_index_permutation, is_listing_of, entry_describes, sort_key, opt_view,
    spec_account_label, spec_resolve_folder, spec_sibling_exists, FolderMoveDraft,
};
use crate::text::{lex_le, spec_i64_decimal};
use crate::notes::FolderEntry;

verus! {

/// Whether every folder is stored under its own id, as the database loads them.
pub open spec fn keyed_by_id(s: Seq<(i64, RawFolder)>) -> bool {
    forall|k: int| 0 <= k < s.len() ==> (#[trigger] s[k]).0 == s[k].1.id
}

/// Whether every folder of the map is stored under its own id.
pub open spec fn map_keyed_by_id(m: Map<i64, RawFolder>) -> bool {
    forall|k: i64| #[trigger] m.contains_key(k) ==> m[k].id == k
}

/// A table of the pairs of a map keyed by id is keyed by id, so the laws
/// below, stated for tables, hold of the tables the folder functions build.
pub proof fn lemma_table_of_keyed_map(s: Seq<(i64, RawFolder)>, m: Map<i64, RawFolder>)
    requires
        table_of(s, m),
        map_keyed_by_id(m),
    ensures
        keys_unique(s),
        keyed_by_id(s),
{
    assert forall|k: int| 0 <= k < s.len() implies (#[trigger] s[k]).0 == s[k].1.id by {
        let key = s[k].0;
        lemma_key_index(s, key);
        let i = key_index(s, key);
        if i != k {
            if i < k {
                assert(s[i].0 != s[k].0);
            } else {
                assert(s[k].0 != s[i].0);
            }
        }
        assert(table_map(s).contains_key(key));
        assert(m.contains_key(key));
    }
}

/// A child link names the child's entry, so the child's parent is known.
proof fn lemma_link_parent(s: Seq<(i64, RawFolder)>, p: i64, c: i64)
    requires
        keys_unique(s),
        keyed_by_id(s),
        child_link(s, p, c),
    ensures
        parent_of(s, c) == Some(p),
{
    let k = choose|k: int| 0 <= k < s.len() && (#[trigger] s[k]).1.parent_id == Some(p) && s[k].1.id == c;
    lemma_key_index(s, c);
    let i = key_index(s, c);
    assert(s[k].0 == c);
    if i < 0 {
        assert(s[k].0 != c);
    } else if i != k {
        if i < k {
            assert(s[i].0 != s[k].0);
        } else {
            assert(s[k].0 != s[i].0);
        }
    }
    assert(table_get(s, c) == Some(s[k].1));
}

/// A folder's recorded parent is linked to it.
proof fn lemma_parent_link(s: Seq<(i64, RawFolder)>, c: i64, p: i64)
    requires
        keyed_by_id(s),
        parent_of(s, c) == Some(p),
    ensures
        child_link(s, p, c),
{
    lemma_key_index(s, c);
    let i = key_index(s, c);
    assert(s[i].1.parent_id == Some(p) && s[i].1.id == c);
}

/// Walking up from `cur` meets `needle` only at `cur` or at an ancestor.
proof fn lemma_walk_sound(s: Seq<(i64, RawFolder)>, cur: i64, needle: i64, seen: Seq<i64>, fuel: nat)
    requires
        keyed_by_id(s),
        chain_reaches(s, Some(cur), needle, seen, fuel),
    ensures
        cur == needle || is_descendant(s, needle, cur),
    decreases fuel,
{
    if cur != needle {
        assert(fuel > 0 && chain_reaches(s, parent_of(s, cur), needle, seen.push(cur), (fuel - 1) as nat));
        assert(parent_of(s, cur) is Some);
        let q = parent_of(s, cur)->Some_0;
        lemma_parent_link(s, cur, q);
        lemma_walk_sound(s, q, needle, seen.push(cur), (fuel - 1) as nat);
        if q == needle {
            let c = seq![needle, cur];
            assert(is_link_chain(s, c)) by {
                assert forall|i: int| 0 <= i < c.len() - 1 implies child_link(s, #[trigger] c[i], c[i + 1]) by {
                    assert(i == 0);
                }
            }
        } else {
            let c = choose|c: Seq<i64>|
                c.len() >= 2 && c[0] == needle && c.last() == q && #[trigger] is_link_chain(s, c);
            let d = c.push(cur);
            assert(is_link_chain(s, d)) by {
                assert forall|i: int| 0 <= i < d.len() - 1 implies child_link(s, #[trigger] d[i], d[i + 1]) by {
                    if i < c.len() - 1 {
                        assert(d[i] == c[i] && d[i + 1] == c[i + 1]);
                        assert(child_link(s, c[i], c[i + 1]));
                    }
                }
            }
            assert(d.len() >= 2 && d[0] == needle && d.last() == cur);
        }
    }
}

/// A chain of links can be shortened to one that visits no folder twice.
#[verifier::spinoff_prover]
proof fn lemma_distinct_chain(s: Seq<(i64, RawFolder)>, c: Seq<i64>) -> (d: Seq<i64>)
    requires
        c.len() >= 1,
        is_link_chain(s, c),
    ensures
        d.len() >= 1,
        d[0] == c[0],
        d.last() == c.last(),
        d.no_duplicates(),
        is_link_chain(s, d),
    decreases c.len(),
{
    if c.no_duplicates() {
        c
    } else {
        let (i, j) = choose|i: int, j: int| 0 <= i < c.len() && 0 <= j < c.len() && i != j && c[i] == c[j];
        let (a, b) = if i < j {
            (i, j)
        } else {
            (j, i)
        };
        let e = c.take(a) + c.skip(b);
        assert(e.len() == c.len() - (b - a));
        assert(is_link_chain(s, e)) by {
            assert forall|k: int| 0 <= k < e.len() - 1 implies child_link(s, #[trigger] e[k], e[k + 1]) by {
                if k < a - 1 {
                    assert(e[k] == c[k] && e[k + 1] == c[k + 1]);
                    assert(child_link(s, c[k], c[k + 1]));
                } else if k == a - 1 {
                    assert(e[k] == c[a - 1] && e[k + 1] == c[b]);
                    assert(child_link(s, c[a - 1], c[a]));
                } else {
                    assert(e[k] == c[k + b - a] && e[k + 1] == c[k + 1 + b - a]);
                    assert(child_link(s, c[k + b - a], c[k + 1 + b - a]));
                }
            }
        }
        if a == 0 {
            assert(e[0] == c[b]);
        } else {
            assert(e[0] == c[0]);
        }
        assert(e.last() == c.last());
        lemma_distinct_chain(s, e)
    }
}

/// A chain that visits no folder twice has at most one more element than
/// the table has entries.
proof fn lemma_distinct_chain_len(s: Seq<(i64, RawFolder)>, d: Seq<i64>)
    requires
        d.len() >= 1,
        d.no_duplicates(),
        is_link_chain(s, d),
    ensures
        d.len() <= s.len() + 1,
{
    let ids = s.map_values(|e: (i64, RawFolder)| e.1.id);
    let rest = d.drop_first();
    assert(rest.no_duplicates()) by {
        assert forall|i: int, j: int| 0 <= i < rest.len() && 0 <= j < rest.len() && i != j implies rest[i] != rest[j] by {
            assert(rest[i] == d[i + 1] && rest[j] == d[j + 1]);
        }
    }
    rest.unique_seq_to_set();
    assert(rest.to_set().subset_of(ids.to_set())) by {
        assert forall|x: i64| rest.to_set().contains(x) implies ids.to_set().contains(x) by {
            let i = choose|i: int| 0 <= i < rest.len() && rest[i] == x;
            assert(child_link(s, d[i], d[i + 1]));
            let k = choose|k: int| 0 <= k < s.len() && (#[trigger] s[k]).1.parent_id == Some(d[i]) && s[k].1.id == d[i + 1];
            assert(ids[k] == x);
        }
    }
    ids.lemma_cardinality_of_set();
    vstd::seq_lib::seq_to_set_is_finite(ids);
    vstd::set_lib::lemma_len_subset(rest.to_set(), ids.to_set());
}

/// Walking up along a chain that visits no folder twice reaches its start,
/// given as much fuel as the steps it takes.
proof fn lemma_walk_complete(s: Seq<(i64, RawFolder)>, d: Seq<i64>, m: int, seen: Seq<i64>, fuel: nat)
    requires
        keys_unique(s),
        keyed_by_id(s),
        0 <= m < d.len(),
        d.no_duplicates(),
        is_link_chain(s, d),
        forall|y: i64| seen.contains(y) ==> exists|j: int| m < j < d.len() && d[j] == y,
        fuel >= m,
    ensures
        chain_reaches(s, Some(d[m]), d[0], seen, fuel),
    decreases m,
{
    if m > 0 {
        assert(d[m] != d[0]);
        assert(!seen.contains(d[m])) by {
            if seen.contains(d[m]) {
                let j = choose|j: int| m < j < d.len() && d[j] == d[m];
            }
        }
        assert(child_link(s, d[m - 1], d[m]));
        lemma_link_parent(s, d[m - 1], d[m]);
        assert forall|y: i64| seen.push(d[m]).contains(y) implies exists|j: int| m - 1 < j < d.len() && d[j] == y by {
            crate::folder::lemma_push_contains(seen, d[m], y);
            if y == d[m] {
                assert(m - 1 < m < d.len() && d[m] == y);
            } else {
                let j = choose|j: int| m < j < d.len() && d[j] == y;
                assert(m - 1 < j);
            }
        }
        lemma_walk_complete(s, d, m - 1, seen.push(d[m]), (fuel - 1) as nat);
    }
}

/// Law: for a table whose folders are stored under their own ids, walking
/// up the parent links from `p` meets `x` exactly when `p` is `x` or lies
/// below `x`. The fuel of the walk never cuts it short, and a parent cycle
/// stops it only where `x` is not above `p`.
pub proof fn law_parent_chain_is_ancestry(s: Seq<(i64, RawFolder)>, p: i64, x: i64)
    requires
        keys_unique(s),
        keyed_by_id(s),
    ensures
        spec_parent_chain_contains(s, Some(p), x) <==> (p == x || is_descendant(s, x, p)),
{
    if spec_parent_chain_contains(s, Some(p), x) {
        lemma_walk_sound(s, p, x, seq![], (s.len() + 1) as nat);
    }
    if p != x && is_descendant(s, x, p) {
        let c = choose|c: Seq<i64>| c.len() >= 2 && c[0] == x && c.last() == p && #[trigger] is_link_chain(s, c);
        let d = lemma_distinct_chain(s, c);
        lemma_distinct_chain_len(s, d);
        lemma_walk_complete(s, d, d.len() - 1, seq![], (s.len() + 1) as nat);
    }
}

/// The table after the folder stored under `id` gets parent `p`.
pub open spec fn reparented(s: Seq<(i64, RawFolder)>, id: i64, p: Option<i64>) -> Seq<(i64, RawFolder)> {
    Seq::new(
        s.len(),
        |i: int|
            if s[i].0 == id {
                (s[i].0, RawFolder { parent_id: p, ..s[i].1 })
            } else {
                s[i]
            },
    )
}

proof fn lemma_reparented_key_index(s: Seq<(i64, RawFolder)>, id: i64, p: Option<i64>, k: i64)
    ensures
        key_index(reparented(s, id, p), k) == key_index(s, k),
    decreases s.len(),
{
    if s.len() > 0 {
        assert(reparented(s, id, p).drop_last() == reparented(s.drop_last(), id, p));
        lemma_reparented_key_index(s.drop_last(), id, p, k);
    }
}

/// Other folders keep their parents.
proof fn lemma_reparented_parent(s: Seq<(i64, RawFolder)>, id: i64, p: Option<i64>, c: i64)
    requires
        c != id,
    ensures
        parent_of(reparented(s, id, p), c) == parent_of(s, c),
{
    lemma_reparented_key_index(s, id, p, c);
    lemma_key_index(s, c);
}

/// A walk up towards `id` never reads the parent of `id` itself.
proof fn lemma_walk_ignores_moved(
    s: Seq<(i64, RawFolder)>,
    id: i64,
    p: Option<i64>,
    cur: Option<i64>,
    seen: Seq<i64>,
    fuel: nat,
)
    ensures
        chain_reaches(reparented(s, id, p), cur, id, seen, fuel) == chain_reaches(s, cur, id, seen, fuel),
    decreases fuel,
{
    if let Some(c) = cur {
        if c != id && !seen.contains(c) && fuel > 0 {
            lemma_reparented_parent(s, id, p, c);
            lemma_walk_ignores_moved(s, id, p, parent_of(s, c), seen.push(c), (fuel - 1) as nat);
        }
    }
}

/// Law: a folder move that passes the cycle check leaves the moved folder
/// outside its own ancestry. If the new parent `p` is neither the folder
/// nor one of its descendants (what the check tests), then after the folder
/// is given parent `p` the folder is still not among `p`'s ancestors, and `p`
/// does not lie below it.
pub proof fn law_checked_move_creates_no_cycle(s: Seq<(i64, RawFolder)>, id: i64, p: i64)
    requires
        keys_unique(s),
        keyed_by_id(s),
        p != id,
        !spec_parent_chain_contains(s, Some(p), id),
    ensures
        !spec_parent_chain_contains(reparented(s, id, Some(p)), Some(p), id),
        !is_descendant(reparented(s, id, Some(p)), id, p),
{
    let s2 = reparented(s, id, Some(p));
    lemma_walk_ignores_moved(s, id, Some(p), Some(p), seq![], (s.len() + 1) as nat);
    assert(keys_unique(s2));
    assert(keyed_by_id(s2)) by {
        assert forall|k: int| 0 <= k < s2.len() implies (#[trigger] s2[k]).0 == s2[k].1.id by {
            assert(s[k].0 == s[k].1.id);
        }
    }
    law_parent_chain_is_ancestry(s2, p, id);
}

/// Law: an accepted folder move never puts the folder inside itself: its
/// new parent, when it has one, is neither the folder nor below it, and
/// after the move the folder is not among its own ancestors.
pub proof fn law_accepted_move_keeps_folder_outside_itself(
    fs: Seq<FolderEntry>,
    s: Seq<(i64, RawFolder)>,
    source_path: Seq<char>,
    target_path: Seq<char>,
)
    requires
        keys_unique(s),
        keyed_by_id(s),
        spec_folder_move(fs, s, source_path, target_path) is Ok,
    ensures
        ({
            let (si, t) = spec_folder_move(fs, s, source_path, target_path)->Ok_0;
            t.parent_id matches Some(p) ==> {
                &&& p != fs[si].id
                &&& !is_descendant(s, fs[si].id, p)
                &&& !spec_parent_chain_contains(reparented(s, fs[si].id, Some(p)), Some(p), fs[si].id)
            }
        }),
{
    let (si, t) = spec_folder_move(fs, s, source_path, target_path)->Ok_0;
    if let Some(p) = t.parent_id {
        law_parent_chain_is_ancestry(s, p, fs[si].id);
        law_checked_move_creates_no_cycle(s, fs[si].id, p);
    }
}

proof fn lemma_chain_fuel_mono(s: Seq<(i64, RawFolder)>, c: Option<i64>, id: i64, v: Seq<i64>, f: nat, g: nat)
    requires
        f <= g,
        chain_reaches(s, c, id, v, f),
    ensures
        chain_reaches(s, c, id, v, g),
    decreases f,
{
    if let Some(x) = c {
        if x != id && !v.contains(x) && f > 0 {
            lemma_chain_fuel_mono(s, parent_of(s, x), id, v.push(x), (f - 1) as nat, (g - 1) as nat);
        }
    }
}

/// A folder that the walk up from `x` never reaches does not change the
/// path of `x` by being marked visited.
proof fn lemma_path_ignores_unreached(
    s: Seq<(i64, RawFolder)>,
    x: i64,
    v1: Seq<i64>,
    v2: Seq<i64>,
    fuel: nat,
    id: i64,
)
    requires
        forall|y: i64| y != id ==> (v1.contains(y) <==> v2.contains(y)),
        !chain_reaches(s, Some(x), id, v2, fuel),
    ensures
        path_from(s, x, v1, fuel) == path_from(s, x, v2, fuel),
    decreases fuel,
{
    if let Some(g) = table_get(s, x) {
        if !v2.contains(x) {
            if let Some(q) = g.parent_id {
                if table_get(s, q) is Some && fuel > 0 {
                    assert(parent_of(s, x) == Some(q));
                    assert forall|y: i64| y != id implies (v1.push(x).contains(y) <==> v2.push(x).contains(y)) by {
                        lemma_push_contains(v1, x, y);
                        lemma_push_contains(v2, x, y);
                    }
                    lemma_path_ignores_unreached(s, q, v1.push(x), v2.push(x), (fuel - 1) as nat, id);
                }
            }
        }
    }
}

proof fn lemma_unseen_le_len(s: Seq<(i64, RawFolder)>, v: Seq<i64>)
    ensures
        unseen_count(s, v) <= s.len(),
    decreases s.len(),
{
    if s.len() > 0 {
        lemma_unseen_le_len(s.drop_last(), v);
    }
}

/// Once the fuel covers every folder not yet visited, more fuel changes
/// nothing.
proof fn lemma_path_fuel(s: Seq<(i64, RawFolder)>, x: i64, v: Seq<i64>, f: nat, g: nat)
    requires
        keyed_by_id(s),
        unseen_count(s, v) <= f <= g,
    ensures
        path_from(s, x, v, f) == path_from(s, x, v, g),
    decreases f,
{
    if let Some(e) = table_get(s, x) {
        if !v.contains(x) {
            if let Some(q) = e.parent_id {
                if table_get(s, q) is Some {
                    lemma_key_index(s, x);
                    let k = key_index(s, x);
                    assert(s[k].1.id == x);
                    lemma_unseen_count_shrinks(s, v, x, k);
                    lemma_path_fuel(s, q, v.push(x), (f - 1) as nat, (g - 1) as nat);
                }
            }
        }
    }
}

/// Law: a folder's nested path is its parent's path, `/`, and its own name,
/// whenever the parent is in the table and the folder is not among the
/// parent's ancestors (no parent cycle runs through it). The bound on the
/// walk never cuts such a path short.
pub proof fn law_folder_path_extends_parent_path(s: Seq<(i64, RawFolder)>, id: i64)
    requires
        keys_unique(s),
        keyed_by_id(s),
        table_get(s, id) is Some,
        table_get(s, id)->0.parent_id is Some,
        table_get(s, table_get(s, id)->0.parent_id->0) is Some,
        !spec_parent_chain_contains(s, table_get(s, id)->0.parent_id, id),
    ensures
        spec_folder_path(s, id) == spec_folder_path(s, table_get(s, id)->0.parent_id->0) + seq!['/']
            + table_get(s, id)->0.name@,
{
    let f = table_get(s, id)->0;
    let p = f.parent_id->0;
    let n = s.len();
    lemma_key_index(s, id);
    let k = key_index(s, id);
    assert(n >= 1);
    let empty = Seq::<i64>::empty();
    assert(!empty.contains(id));
    assert(spec_folder_path(s, id) == path_from(s, p, empty.push(id), (n - 1) as nat) + seq!['/'] + f.name@);
    if chain_reaches(s, Some(p), id, empty, (n - 1) as nat) {
        lemma_chain_fuel_mono(s, Some(p), id, empty, (n - 1) as nat, (n + 1) as nat);
    }
    if chain_reaches(s, Some(p), id, empty, n as nat) {
        lemma_chain_fuel_mono(s, Some(p), id, empty, n as nat, (n + 1) as nat);
    }
    assert forall|y: i64| y != id implies (empty.push(id).contains(y) <==> empty.contains(y)) by {
        lemma_push_contains(empty, id, y);
    }
    lemma_path_ignores_unreached(s, p, empty.push(id), empty, (n - 1) as nat, id);
    lemma_path_ignores_unreached(s, p, empty.push(id), empty, n as nat, id);
    assert(s[k].1.id == id);
    lemma_unseen_count_shrinks(s, empty, id, k);
    lemma_unseen_le_len(s, empty);
    lemma_path_fuel(s, p, empty.push(id), (n - 1) as nat, n as nat);
}

/// Law of the folder move check (`check_folder_move`): for an accepted
/// move, the source is the folder that `resolve_folder` finds for the source
/// path; source and target lie in the same known account; the target parent
/// is neither the source nor below it; no other folder under that parent in
/// that account has the new name (ignoring ASCII case); and the plan changes
/// something exactly when the parent or the name changes.
pub proof fn law_accepted_folder_move(
    fs: Seq<FolderEntry>,
    s: Seq<(i64, RawFolder)>,
    source_path: Seq<char>,
    target_path: Seq<char>,
    d: FolderMoveDraft,
)
    requires
        keys_unique(s),
        keyed_by_id(s),
        spec_folder_move(fs, s, source_path, target_path) is Ok,
        ({
            let (si, t) = spec_folder_move(fs, s, source_path, target_path)->Ok_0;
            0 <= si < fs.len() && draft_is(d, s, fs[si], t)
        }),
    ensures
        ({
            let (si, t) = spec_folder_move(fs, s, source_path, target_path)->Ok_0;
            let src = fs[si];
            &&& spec_resolve_folder(fs, source_path) == Ok::<int, Seq<char>>(si)
            &&& d.source_id == src.id
            &&& src.account_id is Some
            &&& d.target_account_id == src.account_id
            &&& d.target_parent_id != Some(src.id)
            &&& d.target_parent_id matches Some(p) ==> !is_descendant(s, src.id, p)
            &&& !spec_sibling_exists(fs, src.id, d.target_account_id, d.target_parent_id, d.new_name@)
            &&& d.will_change == (src.parent_id != d.target_parent_id || src.name@ != d.new_name@)
        }),
{
    let (si, t) = spec_folder_move(fs, s, source_path, target_path)->Ok_0;
    if let Some(p) = t.parent_id {
        law_parent_chain_is_ancestry(s, p, fs[si].id);
    }
}

/// Law of nested paths at the ends of a chain: an id that is not in the
/// table is written in decimal, and a folder without a parent in the table
/// is its own name.
pub proof fn law_folder_path_ends(s: Seq<(i64, RawFolder)>, id: i64)
    ensures
        table_get(s, id) is None ==> spec_folder_path(s, id) == spec_i64_decimal(id),
        table_get(s, id) matches Some(f) ==> (f.parent_id is None || table_get(s, f.parent_id->0) is None)
            ==> spec_folder_path(s, id) == f.name@,
{
    let empty = Seq::<i64>::empty();
    assert(!empty.contains(id));
}

/// Law of nested paths on a parent cycle: when two folders are each other's
/// parent, the walk from either stops on coming back to it, so the path of
/// `a` is `a`'s name, `b`'s name and `a`'s name again, joined by `/`.
pub proof fn law_folder_path_on_two_folder_cycle(s: Seq<(i64, RawFolder)>, a: i64, b: i64)
    requires
        a != b,
        table_get(s, a) matches Some(fa) && fa.parent_id == Some(b),
        table_get(s, b) matches Some(fb) && fb.parent_id == Some(a),
    ensures
        spec_folder_path(s, a) == table_get(s, a)->0.name@ + seq!['/'] + table_get(s, b)->0.name@
            + seq!['/'] + table_get(s, a)->0.name@,
{
    lemma_key_index(s, a);
    lemma_key_index(s, b);
    assert(s.len() >= 2);
    let empty = Seq::<i64>::empty();
    let va = empty.push(a);
    let vab = va.push(b);
    assert(!empty.contains(a));
    assert(va[0] == a);
    assert(!va.contains(b));
    assert(vab[0] == a);
    assert(vab.contains(a));
    let n = s.len();
    let na = table_get(s, a)->0.name@;
    let nb = table_get(s, b)->0.name@;
    assert(path_from(s, a, vab, (n - 2) as nat) == na);
    assert(path_from(s, b, va, (n - 1) as nat) == na + seq!['/'] + nb);
    assert(path_from(s, a, empty, n) == na + seq!['/'] + nb + seq!['/'] + na);
}

/// Whether `c` is the whole parent chain of folder `c[0]`: every id in it
/// is in the table, each folder's parent is the next id, the last folder
/// has no parent in the table, and no id occurs twice.
pub open spec fn is_full_parent_chain(s: Seq<(i64, RawFolder)>, c: Seq<i64>) -> bool {
    &&& c.len() >= 1
    &&& forall|j: int| 0 <= j < c.len() ==> (#[trigger] table_get(s, c[j])) is Some
    &&& forall|j: int| 0 <= j < c.len() - 1 ==> (#[trigger] table_get(s, c[j]))->0.parent_id == Some(c[j + 1])
    &&& match table_get(s, c.last())->0.parent_id {
        Some(q) => table_get(s, q) is None,
        None => true,
    }
    &&& forall|i: int, j: int| 0 <= i < j < c.len() ==> c[i] != c[j]
}

/// The names of the folders of chain `c`, from its last (the root) down to
/// `c[0]`, joined by `/`.
pub open spec fn chain_names_from_root(s: Seq<(i64, RawFolder)>, c: Seq<i64>) -> Seq<char>
    decreases c.len(),
{
    if c.len() <= 1 {
        table_get(s, c[0])->0.name@
    } else {
        chain_names_from_root(s, c.drop_first()) + seq!['/'] + table_get(s, c[0])->0.name@
    }
}

proof fn lemma_chain_tail(s: Seq<(i64, RawFolder)>, c: Seq<i64>)
    requires
        is_full_parent_chain(s, c),
        c.len() > 1,
    ensures
        is_full_parent_chain(s, c.drop_first()),
        c.drop_first()[0] == c[1],
{
    let d = c.drop_first();
    assert forall|j: int| 0 <= j < d.len() implies (#[trigger] table_get(s, d[j])) is Some by {
        assert(d[j] == c[j + 1]);
    }
    assert forall|j: int| 0 <= j < d.len() - 1 implies (#[trigger] table_get(s, d[j]))->0.parent_id == Some(
        d[j + 1],
    ) by {
        assert(d[j] == c[j + 1] && d[j + 1] == c[j + 2]);
    }
    assert(d.last() == c.last());
    assert forall|i: int, j: int| 0 <= i < j < d.len() implies d[i] != d[j] by {
        assert(d[i] == c[i + 1] && d[j] == c[j + 1]);
    }
}

/// A full chain whose first folder has its parent in the table goes on to
/// that parent.
proof fn lemma_chain_first_link(s: Seq<(i64, RawFolder)>, c: Seq<i64>)
    requires
        is_full_parent_chain(s, c),
        table_get(s, c[0])->0.parent_id is Some,
        table_get(s, table_get(s, c[0])->0.parent_id->0) is Some,
    ensures
        c.len() > 1,
        c[1] == table_get(s, c[0])->0.parent_id->0,
{
    assert(table_get(s, c[0]) is Some);
    if c.len() == 1 {
        assert(c.last() == c[0]);
    }
}

/// A folder whose parent starts a full chain is not on that chain, and
/// putting it in front gives its full chain.
proof fn lemma_chain_cons(s: Seq<(i64, RawFolder)>, x: i64, d: Seq<i64>)
    requires
        is_full_parent_chain(s, d),
        table_get(s, x) is Some,
        table_get(s, x)->0.parent_id == Some(d[0]),
    ensures
        forall|j: int| 0 <= j < d.len() ==> #[trigger] d[j] != x,
        is_full_parent_chain(s, seq![x] + d),
        (seq![x] + d).drop_first() == d,
{
    assert forall|j: int| 0 <= j < d.len() implies #[trigger] d[j] != x by {
        if d[j] == x {
            assert(table_get(s, d[j]) is Some);
            if j < d.len() - 1 {
                assert(table_get(s, d[j])->0.parent_id == Some(d[j + 1]));
                assert(d[j + 1] == d[0]);
            } else {
                assert(d.last() == d[j]);
                assert(table_get(s, d[0]) is Some);
            }
        }
    }
    let c = seq![x] + d;
    assert forall|j: int| 0 <= j < c.len() implies (#[trigger] table_get(s, c[j])) is Some by {
        if j > 0 {
            assert(c[j] == d[j - 1]);
        }
    }
    assert forall|j: int| 0 <= j < c.len() - 1 implies (#[trigger] table_get(s, c[j]))->0.parent_id == Some(
        c[j + 1],
    ) by {
        if j > 0 {
            assert(c[j] == d[j - 1] && c[j + 1] == d[j]);
        }
    }
    assert(c.last() == d.last());
    assert forall|i: int, j: int| 0 <= i < j < c.len() implies c[i] != c[j] by {
        assert(c[j] == d[j - 1]);
        if i > 0 {
            assert(c[i] == d[i - 1]);
        }
    }
    assert(c.drop_first() == d);
}

proof fn lemma_path_along_chain(s: Seq<(i64, RawFolder)>, c: Seq<i64>, v: Seq<i64>, fuel: nat)
    requires
        is_full_parent_chain(s, c),
        forall|j: int| 0 <= j < c.len() ==> !v.contains(#[trigger] c[j]),
        fuel >= c.len(),
    ensures
        path_from(s, c[0], v, fuel) == chain_names_from_root(s, c),
    decreases c.len(),
{
    assert(table_get(s, c[0]) is Some);
    assert(!v.contains(c[0]));
    if c.len() > 1 {
        let d = c.drop_first();
        assert(table_get(s, c[0])->0.parent_id == Some(c[1]));
        assert(table_get(s, c[1]) is Some);
        assert(d[0] == c[1]);
        lemma_chain_tail(s, c);
        assert forall|j: int| 0 <= j < d.len() implies !v.push(c[0]).contains(#[trigger] d[j]) by {
            assert(d[j] == c[j + 1]);
            assert(c[0] != c[j + 1]);
            lemma_push_contains(v, c[0], d[j]);
        }
        lemma_path_along_chain(s, d, v.push(c[0]), (fuel - 1) as nat);
    }
}

/// Law of nested paths along a parent chain: when the parent chain of a
/// folder runs through distinct folders up to one without a parent in the
/// table, the folder's path is the names along that chain, from the root
/// down to the folder, joined by `/`.
pub proof fn law_folder_path_joins_chain_names(s: Seq<(i64, RawFolder)>, c: Seq<i64>)
    requires
        keyed_by_id(s),
        is_full_parent_chain(s, c),
    ensures
        spec_folder_path(s, c[0]) == chain_names_from_root(s, c),
{
    let empty = Seq::<i64>::empty();
    lemma_unseen_le_len(s, empty);
    lemma_path_fuel(s, c[0], empty, s.len() as nat, (s.len() + c.len()) as nat);
    lemma_path_along_chain(s, c, empty, (s.len() + c.len()) as nat);
}

/// Whether every path in memo `m` is the chain-names path of its folder,
/// for every full parent chain of that folder.
spec fn memo_agrees_with_chains(s: Seq<(i64, RawFolder)>, m: Seq<(i64, Seq<char>)>) -> bool {
    forall|d: Seq<i64>|
        #![trigger is_full_parent_chain(s, d), memo_get(m, d[0])]
        is_full_parent_chain(s, d) && memo_get(m, d[0]) is Some ==> memo_get(m, d[0])->0
            == chain_names_from_root(s, d)
}

proof fn lemma_memo_get_push(m: Seq<(i64, Seq<char>)>, x: i64, v: Seq<char>, k: i64)
    ensures
        memo_get(m.push((x, v)), k) == (if k == x {
            Some(v)
        } else {
            memo_get(m, k)
        }),
{
    assert(m.push((x, v)).drop_last() == m);
}

proof fn lemma_memo_push_agrees(s: Seq<(i64, RawFolder)>, m: Seq<(i64, Seq<char>)>, x: i64, v: Seq<char>)
    requires
        memo_agrees_with_chains(s, m),
        forall|d: Seq<i64>| #[trigger] is_full_parent_chain(s, d) && d[0] == x ==> v == chain_names_from_root(s, d),
    ensures
        memo_agrees_with_chains(s, m.push((x, v))),
{
    assert forall|d: Seq<i64>|
        #![trigger is_full_parent_chain(s, d), memo_get(m.push((x, v)), d[0])]
        is_full_parent_chain(s, d) && memo_get(m.push((x, v)), d[0]) is Some implies memo_get(m.push((x, v)), d[0])->0
            == chain_names_from_root(s, d) by {
        lemma_memo_get_push(m, x, v, d[0]);
        if d[0] != x {
            assert(memo_get(m, d[0]) is Some);
        }
    }
}

/// A walk with a memo whose paths agree with the parent chains gives the
/// chain-names path for a folder whose full chain avoids the walk's stack,
/// and leaves a memo that still agrees.
proof fn lemma_memo_path_follows_chains(
    s: Seq<(i64, RawFolder)>,
    m: Seq<(i64, Seq<char>)>,
    x: i64,
    stack: Seq<i64>,
)
    requires
        memo_agrees_with_chains(s, m),
        forall|d: Seq<i64>|
            #[trigger] is_full_parent_chain(s, d) && d[0] == x ==> forall|j: int|
                0 <= j < d.len() ==> !stack.contains(#[trigger] d[j]),
    ensures
        memo_agrees_with_chains(s, memo_path(s, m, x, stack).1),
        forall|d: Seq<i64>|
            #[trigger] is_full_parent_chain(s, d) && d[0] == x ==> memo_path(s, m, x, stack).0
                == chain_names_from_root(s, d),
    decreases unseen_keys(s, stack),
{
    if memo_get(m, x) is Some {
        assert forall|d: Seq<i64>| #[trigger] is_full_parent_chain(s, d) && d[0] == x implies memo_path(
            s,
            m,
            x,
            stack,
        ).0 == chain_names_from_root(s, d) by {
            assert(memo_get(m, d[0]) is Some);
        }
    } else if let Some(f) = table_get(s, x) {
        if stack.contains(x) {
            assert forall|d: Seq<i64>| #[trigger] is_full_parent_chain(s, d) && d[0] == x implies false by {
                assert(!stack.contains(d[0]));
            }
        } else if f.parent_id is Some && table_get(s, f.parent_id->0) is Some {
            let q = f.parent_id->0;
            lemma_unseen_keys_shrinks(s, stack, x);
            assert forall|d: Seq<i64>| #[trigger] is_full_parent_chain(s, d) && d[0] == q implies forall|j: int|
                0 <= j < d.len() ==> !stack.push(x).contains(#[trigger] d[j]) by {
                lemma_chain_cons(s, x, d);
                let c = seq![x] + d;
                assert(c[0] == x);
                assert forall|j: int| 0 <= j < d.len() implies !stack.push(x).contains(#[trigger] d[j]) by {
                    assert(c[j + 1] == d[j]);
                    assert(!stack.contains(c[j + 1]));
                    lemma_push_contains(stack, x, d[j]);
                }
            }
            lemma_memo_path_follows_chains(s, m, q, stack.push(x));
            let (pp, m1) = memo_path(s, m, q, stack.push(x));
            let path = pp + seq!['/'] + f.name@;
            assert forall|d: Seq<i64>| #[trigger] is_full_parent_chain(s, d) && d[0] == x implies path
                == chain_names_from_root(s, d) by {
                lemma_chain_first_link(s, d);
                lemma_chain_tail(s, d);
                assert(is_full_parent_chain(s, d.drop_first()) && d.drop_first()[0] == q);
            }
            lemma_memo_push_agrees(s, m1, x, path);
        } else {
            assert forall|d: Seq<i64>| #[trigger] is_full_parent_chain(s, d) && d[0] == x implies f.name@
                == chain_names_from_root(s, d) by {
                if d.len() > 1 {
                    assert(table_get(s, d[0])->0.parent_id == Some(d[1]));
                    assert(table_get(s, d[1]) is Some);
                }
            }
            lemma_memo_push_agrees(s, m, x, f.name@);
        }
    }
}

proof fn lemma_listing_follows_chains(s: Seq<(i64, RawFolder)>, n: nat)
    requires
        n <= s.len(),
    ensures
        memo_agrees_with_chains(s, listing_paths(s, n).1),
        listing_paths(s, n).0.len() == n,
        forall|i: int, d: Seq<i64>|
            0 <= i < n && #[trigger] is_full_parent_chain(s, d) && d[0] == s[i].1.id ==> #[trigger] listing_paths(
                s,
                n,
            ).0[i] == chain_names_from_root(s, d),
    decreases n,
{
    if n > 0 {
        lemma_listing_follows_chains(s, (n - 1) as nat);
        let (ps, m) = listing_paths(s, (n - 1) as nat);
        let x = s[n - 1].1.id;
        let empty = Seq::<i64>::empty();
        assert forall|d: Seq<i64>| #[trigger] is_full_parent_chain(s, d) && d[0] == x implies forall|j: int|
            0 <= j < d.len() ==> !empty.contains(#[trigger] d[j]) by {}
        lemma_memo_path_follows_chains(s, m, x, empty);
        let p = memo_path(s, m, x, empty).0;
        assert forall|i: int, d: Seq<i64>|
            0 <= i < n && #[trigger] is_full_parent_chain(s, d) && d[0] == s[i].1.id implies #[trigger] listing_paths(
                s,
                n,
            ).0[i] == chain_names_from_root(s, d) by {
            assert(listing_paths(s, n).0 == ps.push(p));
            if i < n - 1 {
                assert(ps.push(p)[i] == ps[i]);
            }
        }
    }
}

/// Law of the folder listing on folders without a parent cycle: whatever
/// order the folders are listed in, a folder whose parent chain runs through
/// distinct folders up to one without a parent in the table is listed with
/// the names along that chain, from the root down, joined by `/`; which is
/// the folder's own nested path.
pub proof fn law_listed_path_joins_chain_names(s: Seq<(i64, RawFolder)>, i: int, c: Seq<i64>)
    requires
        0 <= i < s.len(),
        is_full_parent_chain(s, c),
        c[0] == s[i].1.id,
    ensures
        listed_path(s, i) == chain_names_from_root(s, c),
        keyed_by_id(s) ==> listed_path(s, i) == spec_folder_path(s, s[i].1.id),
{
    lemma_listing_follows_chains(s, s.len());
    if keyed_by_id(s) {
        law_folder_path_joins_chain_names(s, c);
    }
}

/// A table of a map finds each key's folder in the map./// A table of a map finds each key's folder in the map.
pub proof fn lemma_table_get_of_map(s: Seq<(i64, RawFolder)>, m: Map<i64, RawFolder>, k: i64)
    requires
        table_of(s, m),
    ensures
        table_get(s, k) == (if m.contains_key(k) {
            Some(m[k])
        } else {
            None::<RawFolder>
        }),
{
    lemma_key_index(s, k);
    assert(table_map(s).contains_key(k) == (key_index(s, k) >= 0));
}

proof fn lemma_path_from_same_lookups(s1: Seq<(i64, RawFolder)>, s2: Seq<(i64, RawFolder)>, id: i64, v: Seq<i64>, fuel: nat)
    requires
        forall|k: i64| #[trigger] table_get(s1, k) == table_get(s2, k),
    ensures
        path_from(s1, id, v, fuel) == path_from(s2, id, v, fuel),
    decreases fuel,
{
    assert(table_get(s1, id) == table_get(s2, id));
    if let Some(f) = table_get(s1, id) {
        if let Some(q) = f.parent_id {
            assert(table_get(s1, q) == table_get(s2, q));
            if fuel > 0 {
                lemma_path_from_same_lookups(s1, s2, q, v.push(id), (fuel - 1) as nat);
            }
        }
    }
}

/// Nested paths depend on the map only, not on the order of its table.
pub proof fn lemma_folder_path_of_map(s1: Seq<(i64, RawFolder)>, s2: Seq<(i64, RawFolder)>, m: Map<i64, RawFolder>, id: i64)
    requires
        table_of(s1, m),
        table_of(s2, m),
    ensures
        spec_folder_path(s1, id) == spec_folder_path(s2, id),
{
    assert forall|k: i64| #[trigger] table_get(s1, k) == table_get(s2, k) by {
        lemma_table_get_of_map(s1, m, k);
        lemma_table_get_of_map(s2, m, k);
    }
    lemma_path_from_same_lookups(s1, s2, id, seq![], s1.len() as nat);
}

/// Law of `build_folder_entries`, stated per key of a map keyed by id: one
/// entry per key, ids distinct, each entry copies the fields of the map's
/// folder for its id, its nested path is the one listed for that folder in
/// the map's table, its account path is the account label, `/`, and that
/// path, and the entries are sorted by lowercased account path.
pub proof fn law_folder_listing_per_key(m: Map<i64, RawFolder>, s: Seq<(i64, RawFolder)>, fs: Seq<FolderEntry>)
    requires
        table_of(s, m),
        map_keyed_by_id(m),
        is_listing_of(fs, s),
    ensures
        fs.len() == m.len(),
        forall|i: int, j: int| 0 <= i < j < fs.len() ==> #[trigger] fs[i].id != #[trigger] fs[j].id,
        forall|k: i64| #[trigger] m.contains_key(k) ==> exists|i: int| 0 <= i < fs.len() && #[trigger] fs[i].id == k,
        forall|i: int|
            #![trigger fs[i]]
            0 <= i < fs.len() ==> {
                let f = m[fs[i].id];
                &&& m.contains_key(fs[i].id)
                &&& fs[i].name@ == f.name@
                &&& fs[i].parent_id == f.parent_id
                &&& fs[i].account_id == f.account_id
                &&& opt_view(fs[i].account) == opt_view(f.account)
                &&& fs[i].account_path@ == spec_account_label(f.account, f.account_id) + seq!['/'] + fs[i].path@
                &&& fs[i].path@ == listed_path(s, key_index(s, fs[i].id))
            },
        forall|i: int, j: int| 0 <= i < j < fs.len() ==> lex_le(sort_key(#[trigger] fs[i]), sort_key(#[trigger] fs[j])),
{
    lemma_table_of_keyed_map(s, m);
    let p = choose|p: Seq<int>|
        is_index_permutation(p, s.len() as int) && forall|i: int|
            0 <= i < fs.len() ==> entry_describes(#[trigger] fs[i], s[p[i]].1, listed_path(s, p[i]));
    assert forall|i: int| 0 <= i < fs.len() implies fs[i].id == s[p[i]].0 && m.contains_key(fs[i].id) && m[fs[i].id] == s[p[i]].1 by {
        assert(entry_describes(fs[i], s[p[i]].1, listed_path(s, p[i])));
        let k = s[p[i]].0;
        lemma_key_index(s, k);
        let j = key_index(s, k);
        if j != p[i] {
            if j < p[i] {
                assert(s[j].0 != s[p[i]].0);
            } else {
                assert(s[p[i]].0 != s[j].0);
            }
        }
        assert(table_map(s).contains_key(k));
    }
    assert forall|i: int, j: int| 0 <= i < j < fs.len() implies #[trigger] fs[i].id != #[trigger] fs[j].id by {
        assert(fs[i].id == s[p[i]].0 && fs[j].id == s[p[j]].0);
        assert(p[i] != p[j]);
        if p[i] < p[j] {
            assert(s[p[i]].0 != s[p[j]].0);
        } else {
            assert(s[p[j]].0 != s[p[i]].0);
        }
    }
    assert forall|k: i64| #[trigger] m.contains_key(k) implies exists|i: int| 0 <= i < fs.len() && #[trigger] fs[i].id == k by {
        lemma_key_index(s, k);
        assert(table_map(s).contains_key(k));
        let j = key_index(s, k);
        let n = s.len() as int;
        assert(p.no_duplicates()) by {
            assert forall|a: int, b: int| 0 <= a < p.len() && 0 <= b < p.len() && a != b implies p[a] != p[b] by {
                if a < b {
                } else {
                }
            }
        }
        p.unique_seq_to_set();
        vstd::set_lib::lemma_int_range(0, n);
        assert(p.to_set().subset_of(vstd::set_lib::set_int_range(0, n)));
        vstd::seq_lib::seq_to_set_is_finite(p);
        vstd::set_lib::lemma_subset_equality(p.to_set(), vstd::set_lib::set_int_range(0, n));
        assert(vstd::set_lib::set_int_range(0, n).contains(j));
        assert(p.to_set().contains(j));
        let i = choose|i: int| 0 <= i < p.len() && p[i] == j;
        assert(fs[i].id == s[j].0);
    }
    assert forall|i: int| #![trigger fs[i]] 0 <= i < fs.len() implies fs[i].path@ == listed_path(
        s,
        key_index(s, fs[i].id),
    ) by {
        assert(entry_describes(fs[i], s[p[i]].1, listed_path(s, p[i])));
        lemma_key_index(s, fs[i].id);
        let j = key_index(s, fs[i].id);
        if j != p[i] {
            if j < p[i] {
                assert(s[j].0 != s[p[i]].0);
            } else {
                assert(s[p[i]].0 != s[j].0);
            }
        }
    }
    assert forall|i: int| 0 <= i < fs.len() implies (#[trigger] fs[i]).account_path@ == spec_account_label(
        m[fs[i].id].account,
        m[fs[i].id].account_id,
    ) + seq!['/'] + fs[i].path@ by {
        assert(entry_describes(fs[i], s[p[i]].1, listed_path(s, p[i])));
    }
}

} // verus!
