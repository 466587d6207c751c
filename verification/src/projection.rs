//! Projections of a descriptor: FULL, the descriptor as it is, and BIND, the
//! smallest map that holds what a set of JSON Pointers selects.

use vstd::prelude::*;
use crate::errors::{MapError, ERR_SCHEMA};
use crate::pointer::{parse_pointer, pointer_tokens, tokens_view};
use crate::sorted::{insert_entry, insert_sorted};
use crate::text::{str_eq, str_has_chars};
use crate::value::{
    clone_value, entries_view, lemma_view_list, lemma_view_mapping, Canon, MapValue,
};

verus! {

/// The place of the first entry with the key `key`: the number of entries
/// where none has it.
pub open spec fn key_index(entries: Seq<(Seq<char>, Canon)>, key: Seq<char>) -> int
    decreases entries.len(),
{
    if entries.len() == 0 || entries[0].0 == key {
        0
    } else {
        1 + key_index(entries.drop_first(), key)
    }
}

/// How a path fares in a value.
#[derive(Debug, Clone, Copy)]
pub enum Walk {
    /// Every token names a key of the map reached so far.
    Matched,
    /// A token names no key, or what was reached is no container.
    Unmatched,
    /// A token would have to be looked up in a LIST.
    ThroughList,
}

/// Follows the tokens of a path from `v` down. A token is looked up among the
/// keys of a MAP; in a LIST no token is looked up.
pub open spec fn walk(v: Canon, path: Seq<Seq<char>>) -> Walk
    decreases path.len(),
{
    if path.len() == 0 {
        Walk::Matched
    } else {
        match v {
            Canon::List(_) => Walk::ThroughList,
            Canon::Mapping(entries) => {
                let i = key_index(entries, path[0]);
                if 0 <= i < entries.len() {
                    walk(entries[i].1, path.drop_first())
                } else {
                    Walk::Unmatched
                }
            },
            _ => Walk::Unmatched,
        }
    }
}

/// Whether `a` is a beginning of `b` and shorter than `b`.
pub open spec fn is_strict_prefix(a: Seq<Seq<char>>, b: Seq<Seq<char>>) -> bool {
    a.len() < b.len() && b.take(a.len() as int) == a
}

/// Whether one of `paths` is a strict prefix of `p`, so that `p` selects
/// nothing that the other does not select.
pub open spec fn subsumed(paths: Seq<Seq<Seq<char>>>, p: Seq<Seq<char>>) -> bool {
    exists|j: int| 0 <= j < paths.len() && is_strict_prefix(#[trigger] paths[j], p)
}

/// Those of the first `n` paths that no path subsumes, in order.
pub open spec fn effective(paths: Seq<Seq<Seq<char>>>, n: int) -> Seq<Seq<Seq<char>>>
    decreases n,
{
    if n <= 0 {
        Seq::empty()
    } else if subsumed(paths, paths[n - 1]) {
        effective(paths, n - 1)
    } else {
        effective(paths, n - 1).push(paths[n - 1])
    }
}

/// The first tokens of the first `n` paths, each once, in the order in which
/// they first occur. A path without tokens contributes none.
pub open spec fn group_keys(paths: Seq<Seq<Seq<char>>>, n: int) -> Seq<Seq<char>>
    decreases n,
{
    if n <= 0 {
        Seq::empty()
    } else {
        let front = group_keys(paths, n - 1);
        let p = paths[n - 1];
        if p.len() == 0 || front.contains(p[0]) {
            front
        } else {
            front.push(p[0])
        }
    }
}

/// What is left, after their first token, of those of the first `n` paths that
/// start with `key`.
pub open spec fn tails(paths: Seq<Seq<Seq<char>>>, key: Seq<char>, n: int) -> Seq<Seq<Seq<char>>>
    decreases n,
{
    if n <= 0 {
        Seq::empty()
    } else {
        let front = tails(paths, key, n - 1);
        let p = paths[n - 1];
        if p.len() > 0 && p[0] == key {
            front.push(p.drop_first())
        } else {
            front
        }
    }
}

/// Whether one of `paths` has no token.
pub open spec fn has_empty(paths: Seq<Seq<Seq<char>>>) -> bool {
    exists|i: int| 0 <= i < paths.len() && (#[trigger] paths[i]).len() == 0
}

/// The entry that the paths starting with `key` select under `key`: the whole
/// value where one of them ends there, else the projection of the MAP under
/// that key by what is left of them. Nothing where no entry has the key, or
/// where paths go on into a value that is no MAP.
pub open spec fn project_key(
    entries: Seq<(Seq<char>, Canon)>,
    paths: Seq<Seq<Seq<char>>>,
    key: Seq<char>,
) -> Option<(Seq<char>, Canon)>
    decreases entries, 0int, 0int,
{
    let i = key_index(entries, key);
    if !(0 <= i < entries.len()) {
        None
    } else {
        let rest = tails(paths, key, paths.len() as int);
        if has_empty(rest) {
            Some((key, entries[i].1))
        } else {
            match entries[i].1 {
                Canon::Mapping(inner) => match project(inner, rest) {
                    Some(m) => Some((key, m)),
                    None => None,
                },
                _ => None,
            }
        }
    }
}

/// The entries that the paths select under the first `n` of `keys`, in the
/// order of their keys.
pub open spec fn project_keys(
    entries: Seq<(Seq<char>, Canon)>,
    paths: Seq<Seq<Seq<char>>>,
    keys: Seq<Seq<char>>,
    n: int,
) -> Option<Seq<(Seq<char>, Canon)>>
    decreases entries, 1int, n,
{
    if n <= 0 {
        Some(Seq::empty())
    } else {
        match project_keys(entries, paths, keys, n - 1) {
            None => None,
            Some(front) => match project_key(entries, paths, keys[n - 1]) {
                None => None,
                Some(e) => Some(insert_sorted(front, e)),
            },
        }
    }
}

/// The smallest MAP that holds what `paths` select among `entries`: one entry
/// for each first token, in the order of the keys.
pub open spec fn project(entries: Seq<(Seq<char>, Canon)>, paths: Seq<Seq<Seq<char>>>) -> Option<
    Canon,
>
    decreases entries, 2int, 0int,
{
    let keys = group_keys(paths, paths.len() as int);
    match project_keys(entries, paths, keys, keys.len() as int) {
        Some(es) => Some(Canon::Mapping(es)),
        None => None,
    }
}

/// The paths that a sequence of pointers stands for; a pointer with a fault
/// stands for no path.
pub open spec fn pointer_paths(ptrs: Seq<Seq<char>>) -> Seq<Seq<Seq<char>>> {
    Seq::new(ptrs.len(), |i: int| pointer_tokens(ptrs[i])->Some_0)
}

/// The BIND projection of a descriptor by a set of pointers, or nothing where a
/// rule is broken:
/// the descriptor has to be a MAP; no pointer may occur twice; every pointer
/// has to follow the grammar; no pointer may lead through a LIST; and either
/// all pointers match or none does.
/// Where none matches the projection is the empty MAP. Where the empty pointer
/// is among them it is the whole descriptor. Else it holds what the pointers
/// select, those left out that a shorter one subsumes.
pub open spec fn bind(desc: Canon, ptrs: Seq<Seq<char>>) -> Option<Canon> {
    let paths = pointer_paths(ptrs);
    if !(desc is Mapping) {
        None
    } else if exists|i: int, j: int| 0 <= i < j < ptrs.len() && #[trigger] ptrs[i] == #[trigger] ptrs[j] {
        None
    } else if exists|i: int| 0 <= i < ptrs.len() && pointer_tokens(#[trigger] ptrs[i]) is None {
        None
    } else if exists|i: int| 0 <= i < ptrs.len() && walk(desc, #[trigger] paths[i]) is ThroughList {
        None
    } else if forall|i: int| 0 <= i < ptrs.len() ==> !(walk(desc, #[trigger] paths[i]) is Matched) {
        Some(Canon::Mapping(Seq::empty()))
    } else if exists|i: int| 0 <= i < ptrs.len() && walk(desc, #[trigger] paths[i]) is Unmatched {
        None
    } else if exists|i: int| 0 <= i < ptrs.len() && (#[trigger] ptrs[i]).len() == 0 {
        Some(desc)
    } else {
        project(desc->Mapping_0, effective(paths, paths.len() as int))
    }
}

/// The characters of each of some strings.
pub open spec fn pointer_views(ptrs: Seq<&str>) -> Seq<Seq<char>> {
    Seq::new(ptrs.len(), |i: int| ptrs[i]@)
}

/// The paths that vectors of tokens stand for.
pub open spec fn paths_view(paths: Seq<Vec<Vec<char>>>) -> Seq<Seq<Seq<char>>> {
    Seq::new(paths.len(), |i: int| tokens_view(paths[i]@))
}

/// The first entry with a key stands at `key_index`, and no entry before it has the key.
pub proof fn lemma_key_index(entries: Seq<(Seq<char>, Canon)>, key: Seq<char>)
    ensures
        0 <= key_index(entries, key) <= entries.len(),
        key_index(entries, key) < entries.len() ==> entries[key_index(entries, key)].0 == key,
        forall|j: int| 0 <= j < key_index(entries, key) ==> (#[trigger] entries[j]).0 != key,
    decreases entries.len(),
{
    if entries.len() > 0 && entries[0].0 != key {
        let rest = entries.drop_first();
        lemma_key_index(rest, key);
        assert forall|j: int| 0 <= j < key_index(entries, key) implies (#[trigger] entries[j]).0
            != key by {
            if j > 0 {
                assert(rest[j - 1] == entries[j]);
            }
        }
    }
}

/// Where no entry before place `k` has the key and the entry at `k` has it, or
/// `k` is the number of entries, `k` is the `key_index`.
pub proof fn lemma_key_index_is(entries: Seq<(Seq<char>, Canon)>, key: Seq<char>, k: int)
    requires
        0 <= k <= entries.len(),
        forall|j: int| 0 <= j < k ==> (#[trigger] entries[j]).0 != key,
        k < entries.len() ==> entries[k].0 == key,
    ensures
        key_index(entries, key) == k,
    decreases k,
{
    if k > 0 {
        let rest = entries.drop_first();
        assert(entries[0].0 != key);
        assert forall|j: int| 0 <= j < k - 1 implies (#[trigger] rest[j]).0 != key by {
            assert(rest[j] == entries[j + 1]);
        }
        lemma_key_index_is(rest, key, k - 1);
    }
}

/// Whether two vectors hold the same characters.
pub fn chars_eq(a: &Vec<char>, b: &Vec<char>) -> (r: bool)
    ensures
        r == (a@ == b@),
{
    if a.len() != b.len() {
        return false;
    }
    let mut i: usize = 0;
    while i < a.len()
        invariant
            a@.len() == b@.len(),
            i <= a@.len(),
            forall|j: int| 0 <= j < i ==> a@[j] == b@[j],
        decreases a@.len() - i,
    {
        if a[i] != b[i] {
            return false;
        }
        i += 1;
    }
    assert(a@ =~= b@);
    true
}

/// The place of the first entry whose key holds the characters `key`, or the
/// number of entries.
pub fn find_key(entries: &Vec<(String, MapValue)>, key: &Vec<char>) -> (r: usize)
    ensures
        r == key_index(entries_view(entries@), key@),
        r <= entries@.len(),
        r < entries@.len() ==> entries@[r as int].0@ == key@,
{
    let ghost ev = entries_view(entries@);
    let mut i: usize = 0;
    while i < entries.len()
        invariant
            i <= entries@.len(),
            ev == entries_view(entries@),
            forall|j: int| 0 <= j < i ==> (#[trigger] ev[j]).0 != key@,
        decreases entries@.len() - i,
    {
        if str_has_chars(entries[i].0.as_str(), key) {
            proof {
                assert(ev[i as int].0 == key@);
                lemma_key_index_is(ev, key@, i as int);
            }
            return i;
        }
        assert(ev[i as int].0 != key@);
        i += 1;
    }
    proof {
        lemma_key_index_is(ev, key@, i as int);
    }
    i
}

/// Follows the tokens of a path from the descriptor down.
pub fn walk_path(descriptor: &MapValue, path: &Vec<Vec<char>>) -> (r: Walk)
    ensures
        r == walk(descriptor@, tokens_view(path@)),
{
    let ghost pv = tokens_view(path@);
    let mut cur: &MapValue = descriptor;
    let mut i: usize = 0;
    assert(pv.skip(0) == pv);
    while i < path.len()
        invariant
            i <= path@.len(),
            pv == tokens_view(path@),
            walk(descriptor@, pv) == walk(cur@, pv.skip(i as int)),
        decreases path@.len() - i,
    {
        let ghost rest = pv.skip(i as int);
        assert(rest[0] == path@[i as int]@);
        assert(rest.drop_first() == pv.skip(i + 1));
        match cur {
            MapValue::List(items) => {
                proof {
                    lemma_view_list(*items);
                }
                return Walk::ThroughList;
            },
            MapValue::Mapping(entries) => {
                proof {
                    lemma_view_mapping(*entries);
                }
                let k = find_key(entries, &path[i]);
                if k < entries.len() {
                    assert(entries_view(entries@)[k as int].1 == entries@[k as int].1@);
                    cur = &entries[k].1;
                } else {
                    return Walk::Unmatched;
                }
            },
            _ => {
                return Walk::Unmatched;
            },
        }
        i += 1;
    }
    Walk::Matched
}

/// FULL projection: the descriptor as it is.
pub fn full_project(descriptor: &MapValue) -> (r: MapValue)
    ensures
        r@ == descriptor@,
{
    clone_value(descriptor)
}

/// What is left, from token `level` on, of each of the paths that `sel` names.
pub open spec fn sub_paths(paths: Seq<Seq<Seq<char>>>, sel: Seq<usize>, level: int) -> Seq<
    Seq<Seq<char>>,
> {
    Seq::new(sel.len(), |k: int| paths[sel[k] as int].skip(level))
}

/// Whether each number in `sel` names one of `paths` that has `level` tokens or more.
pub open spec fn sel_ok(paths: Seq<Seq<Seq<char>>>, sel: Seq<usize>, level: int) -> bool {
    forall|k: int|
        0 <= k < sel.len() ==> (#[trigger] sel[k]) < paths.len() && level <= paths[sel[k] as int].len()
}

/// The tokens at `level` of the paths that `reps` names.
pub open spec fn rep_keys(paths: Seq<Seq<Seq<char>>>, reps: Seq<usize>, level: int) -> Seq<
    Seq<char>,
> {
    Seq::new(reps.len(), |g: int| paths[reps[g] as int][level])
}

/// Where the entries under the first `n` keys cannot all be had, neither can
/// those under any more of the keys.
pub proof fn lemma_project_keys_fails(
    entries: Seq<(Seq<char>, Canon)>,
    paths: Seq<Seq<Seq<char>>>,
    keys: Seq<Seq<char>>,
    n: int,
    m: int,
)
    requires
        project_keys(entries, paths, keys, n) is None,
        n <= m,
    ensures
        project_keys(entries, paths, keys, m) is None,
    decreases m - n,
{
    if n < m {
        lemma_project_keys_fails(entries, paths, keys, n, m - 1);
    }
}

/// Whether the first `a.len()` tokens of `b` are those of `a`, and `b` has more.
fn strict_prefix(a: &Vec<Vec<char>>, b: &Vec<Vec<char>>) -> (r: bool)
    ensures
        r == is_strict_prefix(tokens_view(a@), tokens_view(b@)),
{
    let ghost av = tokens_view(a@);
    let ghost bv = tokens_view(b@);
    if a.len() >= b.len() {
        return false;
    }
    let mut i: usize = 0;
    while i < a.len()
        invariant
            i <= a@.len() < b@.len(),
            av == tokens_view(a@),
            bv == tokens_view(b@),
            forall|j: int| 0 <= j < i ==> av[j] == bv[j],
        decreases a@.len() - i,
    {
        if !chars_eq(&a[i], &b[i]) {
            assert(bv.take(av.len() as int)[i as int] != av[i as int]);
            return false;
        }
        i += 1;
    }
    assert(bv.take(av.len() as int) =~= av);
    true
}

/// For each first token at `level` among the paths that `sel` names, the first
/// path that has it, in order.
fn group_reps(paths: &Vec<Vec<Vec<char>>>, sel: &Vec<usize>, level: usize) -> (reps: Vec<usize>)
    requires
        sel_ok(paths_view(paths@), sel@, level as int),
    ensures
        forall|g: int|
            0 <= g < reps@.len() ==> (#[trigger] reps@[g]) < paths@.len() && level
                < paths@[reps@[g] as int]@.len(),
        rep_keys(paths_view(paths@), reps@, level as int) == group_keys(
            sub_paths(paths_view(paths@), sel@, level as int),
            sel@.len() as int,
        ),
{
    let ghost pv = paths_view(paths@);
    let ghost sp = sub_paths(pv, sel@, level as int);
    let mut reps: Vec<usize> = Vec::new();
    let mut n: usize = 0;
    assert(rep_keys(pv, reps@, level as int) =~= group_keys(sp, 0));
    while n < sel.len()
        invariant
            n <= sel@.len(),
            pv == paths_view(paths@),
            sp == sub_paths(pv, sel@, level as int),
            sel_ok(pv, sel@, level as int),
            forall|g: int|
                0 <= g < reps@.len() ==> (#[trigger] reps@[g]) < paths@.len() && level
                    < paths@[reps@[g] as int]@.len(),
            rep_keys(pv, reps@, level as int) == group_keys(sp, n as int),
        decreases sel@.len() - n,
    {
        let p = sel[n];
        assert(sel@[n as int] < pv.len());
        assert(sp[n as int] == pv[p as int].skip(level as int));
        assert(pv[p as int].len() == paths@[p as int]@.len());
        if paths[p].len() > level {
            let tok = &paths[p][level];
            assert(sp[n as int][0] == tok@);
            let ghost keys = rep_keys(pv, reps@, level as int);
            let mut found = false;
            let mut g: usize = 0;
            while g < reps.len() && !found
                invariant
                    g <= reps@.len(),
                    pv == paths_view(paths@),
                    keys == rep_keys(pv, reps@, level as int),
                    forall|h: int|
                        0 <= h < reps@.len() ==> (#[trigger] reps@[h]) < paths@.len() && level
                            < paths@[reps@[h] as int]@.len(),
                    !found ==> forall|h: int| 0 <= h < g ==> keys[h] != tok@,
                    found ==> keys.contains(tok@),
                decreases reps@.len() - g + (if found { 0int } else { 1int }),
            {
                let r = reps[g];
                assert(keys[g as int] == paths@[r as int]@[level as int]@);
                if chars_eq(&paths[r][level], tok) {
                    found = true;
                } else {
                    g += 1;
                }
            }
            if !found {
                proof {
                    assert(!keys.contains(tok@));
                    assert(rep_keys(pv, reps@.push(p), level as int) =~= keys.push(tok@));
                }
                reps.push(p);
            }
        }
        n += 1;
    }
    reps
}

/// Those of the paths that `sel` names whose token at `level` is `key`, and
/// whether one of them ends with that token.
fn select_members(
    paths: &Vec<Vec<Vec<char>>>,
    sel: &Vec<usize>,
    level: usize,
    key: &Vec<char>,
) -> (r: (Vec<usize>, bool))
    requires
        sel_ok(paths_view(paths@), sel@, level as int),
    ensures
        sel_ok(paths_view(paths@), r.0@, level + 1),
        sub_paths(paths_view(paths@), r.0@, level + 1) == tails(
            sub_paths(paths_view(paths@), sel@, level as int),
            key@,
            sel@.len() as int,
        ),
        r.1 == has_empty(
            tails(sub_paths(paths_view(paths@), sel@, level as int), key@, sel@.len() as int),
        ),
{
    let ghost pv = paths_view(paths@);
    let ghost sp = sub_paths(pv, sel@, level as int);
    let mut members: Vec<usize> = Vec::new();
    let mut any_leaf = false;
    let mut n: usize = 0;
    assert(sub_paths(pv, members@, level + 1) =~= tails(sp, key@, 0));
    while n < sel.len()
        invariant
            n <= sel@.len(),
            pv == paths_view(paths@),
            sp == sub_paths(pv, sel@, level as int),
            sel_ok(pv, sel@, level as int),
            sel_ok(pv, members@, level + 1),
            sub_paths(pv, members@, level + 1) == tails(sp, key@, n as int),
            any_leaf == has_empty(tails(sp, key@, n as int)),
        decreases sel@.len() - n,
    {
        let p = sel[n];
        assert(sel@[n as int] < pv.len());
        assert(sp[n as int] == pv[p as int].skip(level as int));
        assert(pv[p as int].len() == paths@[p as int]@.len());
        let ghost before = tails(sp, key@, n as int);
        if paths[p].len() > level {
            assert(sp[n as int][0] == paths@[p as int]@[level as int]@);
            if chars_eq(&paths[p][level], key) {
                proof {
                    let tail = pv[p as int].skip(level + 1);
                    assert(sp[n as int].drop_first() =~= tail);
                    assert(sub_paths(pv, members@.push(p), level + 1) =~= before.push(tail));
                    assert(tails(sp, key@, n + 1) == before.push(tail));
                    if tail.len() == 0 {
                        assert(before.push(tail)[before.len() as int].len() == 0);
                    } else if has_empty(before.push(tail)) {
                        let w = choose|i: int|
                            0 <= i < before.push(tail).len() && (#[trigger] before.push(
                                tail,
                            )[i]).len() == 0;
                        assert(before[w].len() == 0);
                    }
                    if has_empty(before) {
                        let w = choose|i: int|
                            0 <= i < before.len() && (#[trigger] before[i]).len() == 0;
                        assert(before.push(tail)[w].len() == 0);
                    }
                }
                if paths[p].len() == level + 1 {
                    any_leaf = true;
                }
                members.push(p);
            }
        }
        n += 1;
    }
    (members, any_leaf)
}

/// The MAP that holds what the paths select among `entries`. The paths are
/// those that `sel` names, read from token `level` on.
pub(crate) fn build_projected(
    entries: &Vec<(String, MapValue)>,
    paths: &Vec<Vec<Vec<char>>>,
    sel: &Vec<usize>,
    level: usize,
) -> (r: Result<MapValue, MapError>)
    requires
        sel_ok(paths_view(paths@), sel@, level as int),
    ensures
        match r {
            Ok(m) => project(
                entries_view(entries@),
                sub_paths(paths_view(paths@), sel@, level as int),
            ) == Some(m@),
            Err(e) => project(
                entries_view(entries@),
                sub_paths(paths_view(paths@), sel@, level as int),
            ) is None && e.code == ERR_SCHEMA,
        },
    decreases entries,
{
    let ghost ev = entries_view(entries@);
    let ghost pv = paths_view(paths@);
    let ghost sp = sub_paths(pv, sel@, level as int);
    let reps = group_reps(paths, sel, level);
    let ghost keys = group_keys(sp, sp.len() as int);
    let mut result: Vec<(String, MapValue)> = Vec::new();
    let mut g: usize = 0;
    assert(entries_view(result@) =~= Seq::<(Seq<char>, Canon)>::empty());
    while g < reps.len()
        invariant
            g <= reps@.len(),
            ev == entries_view(entries@),
            pv == paths_view(paths@),
            sp == sub_paths(pv, sel@, level as int),
            sel_ok(pv, sel@, level as int),
            keys == group_keys(sp, sp.len() as int),
            keys == rep_keys(pv, reps@, level as int),
            forall|h: int|
                0 <= h < reps@.len() ==> (#[trigger] reps@[h]) < paths@.len() && level
                    < paths@[reps@[h] as int]@.len(),
            project_keys(ev, sp, keys, g as int) == Some(entries_view(result@)),
        decreases reps@.len() - g,
    {
        let rep = reps[g];
        assert(reps@[g as int] < paths@.len() && level < paths@[rep as int]@.len());
        let rep_len = paths[rep].len();
        assert(level < rep_len);
        let key = &paths[rep][level];
        assert(keys[g as int] == key@);
        let idx = find_key(entries, key);
        if idx >= entries.len() {
            proof {
                assert(project_key(ev, sp, key@) is None);
                lemma_project_keys_fails(ev, sp, keys, g + 1, keys.len() as int);
            }
            return Err(MapError::new(ERR_SCHEMA, "BIND path key not found"));
        }
        let (members, any_leaf) = select_members(paths, sel, level, key);
        let ghost rest = tails(sp, key@, sp.len() as int);
        assert(ev[idx as int].0 == entries@[idx as int].0@);
        assert(ev[idx as int].1 == entries@[idx as int].1@);
        if any_leaf {
            let k = entries[idx].0.clone();
            let v = clone_value(&entries[idx].1);
            assert(project_key(ev, sp, key@) == Some((key@, ev[idx as int].1)));
            insert_entry(&mut result, k, v);
        } else {
            match &entries[idx].1 {
                MapValue::List(items) => {
                    proof {
                        lemma_view_list(*items);
                        assert(project_key(ev, sp, key@) is None);
                        lemma_project_keys_fails(ev, sp, keys, g + 1, keys.len() as int);
                    }
                    return Err(MapError::new(ERR_SCHEMA, "BIND cannot traverse LIST"));
                },
                MapValue::Mapping(inner) => {
                    proof {
                        lemma_view_mapping(*inner);
                        vstd::std_specs::vec::axiom_vec_index_decreases(*entries, idx as int);
                    }
                    match build_projected(inner, paths, &members, level + 1) {
                        Err(e) => {
                            proof {
                                assert(project_key(ev, sp, key@) is None);
                                lemma_project_keys_fails(ev, sp, keys, g + 1, keys.len() as int);
                            }
                            return Err(e);
                        },
                        Ok(m) => {
                            let k = entries[idx].0.clone();
                            assert(project_key(ev, sp, key@) == Some((key@, m@)));
                            insert_entry(&mut result, k, m);
                        },
                    }
                },
                _ => {
                    proof {
                        assert(project_key(ev, sp, key@) is None);
                        lemma_project_keys_fails(ev, sp, keys, g + 1, keys.len() as int);
                    }
                    return Err(MapError::new(ERR_SCHEMA, "cannot traverse non-MAP"));
                },
            }
        }
        g += 1;
    }
    proof {
        lemma_view_mapping(result);
    }
    Ok(MapValue::Mapping(result))
}

/// Whether one of `paths` is a strict prefix of the path at place `i`.
fn is_subsumed(paths: &Vec<Vec<Vec<char>>>, i: usize) -> (r: bool)
    requires
        i < paths@.len(),
    ensures
        r == subsumed(paths_view(paths@), paths_view(paths@)[i as int]),
{
    let ghost pv = paths_view(paths@);
    let mut j: usize = 0;
    while j < paths.len()
        invariant
            j <= paths@.len(),
            i < paths@.len(),
            pv == paths_view(paths@),
            forall|k: int| 0 <= k < j ==> !is_strict_prefix(#[trigger] pv[k], pv[i as int]),
        decreases paths@.len() - j,
    {
        assert(pv[j as int] == tokens_view(paths@[j as int]@));
        assert(pv[i as int] == tokens_view(paths@[i as int]@));
        if strict_prefix(&paths[j], &paths[i]) {
            return true;
        }
        j += 1;
    }
    false
}

/// Whether one string occurs at two places of `pointers`.
fn has_duplicate(pointers: &[&str]) -> (r: bool)
    ensures
        r == (exists|i: int, j: int|
            0 <= i < j < pointers@.len() && #[trigger] pointer_views(pointers@)[i]
                == #[trigger] pointer_views(pointers@)[j]),
{
    let ghost ptrs = pointer_views(pointers@);
    let mut j: usize = 0;
    while j < pointers.len()
        invariant
            j <= pointers@.len(),
            ptrs == pointer_views(pointers@),
            forall|a: int, b: int| 0 <= a < b < j ==> #[trigger] ptrs[a] != #[trigger] ptrs[b],
        decreases pointers@.len() - j,
    {
        let mut i: usize = 0;
        while i < j
            invariant
                i <= j < pointers@.len(),
                ptrs == pointer_views(pointers@),
                forall|a: int| 0 <= a < i ==> #[trigger] ptrs[a] != ptrs[j as int],
            decreases j - i,
        {
            if str_eq(pointers[i], pointers[j]) {
                assert(ptrs[i as int] == ptrs[j as int]);
                return true;
            }
            i += 1;
        }
        j += 1;
    }
    false
}

/// BIND projection: the smallest MAP that holds what the pointers select in
/// the descriptor.
pub fn bind_project(descriptor: &MapValue, pointers: &[&str]) -> (r: Result<MapValue, MapError>)
    ensures
        match r {
            Ok(m) => bind(descriptor@, pointer_views(pointers@)) == Some(m@),
            Err(e) => bind(descriptor@, pointer_views(pointers@)) is None && e.code == ERR_SCHEMA,
        },
{
    let ghost ptrs = pointer_views(pointers@);
    let ghost paths = pointer_paths(ptrs);
    let root_entries = match descriptor {
        MapValue::Mapping(entries) => entries,
        _ => {
            return Err(MapError::new(ERR_SCHEMA, "BIND root must be a MAP"));
        },
    };
    proof {
        lemma_view_mapping(*root_entries);
    }
    if has_duplicate(pointers) {
        return Err(MapError::new(ERR_SCHEMA, "duplicate pointers"));
    }
    let mut parsed: Vec<Vec<Vec<char>>> = Vec::new();
    let mut i: usize = 0;
    while i < pointers.len()
        invariant
            i <= pointers@.len(),
            parsed@.len() == i,
            ptrs == pointer_views(pointers@),
            forall|k: int|
                0 <= k < i ==> pointer_tokens(#[trigger] ptrs[k]) == Some(
                    tokens_view(parsed@[k]@),
                ),
        decreases pointers@.len() - i,
    {
        assert(ptrs[i as int] == pointers@[i as int]@);
        match parse_pointer(pointers[i]) {
            Err(e) => {
                assert(pointer_tokens(ptrs[i as int]) is None);
                return Err(e);
            },
            Ok(toks) => {
                parsed.push(toks);
            },
        }
        i += 1;
    }
    let ghost pv = paths_view(parsed@);
    assert(pv =~= paths) by {
        assert forall|k: int| 0 <= k < pv.len() implies pv[k] == paths[k] by {
            assert(pointer_tokens(ptrs[k]) == Some(tokens_view(parsed@[k]@)));
        }
    }
    let mut any_match = false;
    let mut any_unmatched = false;
    let mut any_whole = false;
    let mut n: usize = 0;
    while n < parsed.len()
        invariant
            n <= parsed@.len(),
            parsed@.len() == pointers@.len(),
            pv == paths_view(parsed@),
            ptrs == pointer_views(pointers@),
            pv == pointer_paths(ptrs),
            descriptor@ is Mapping,
            forall|a: int, b: int|
                0 <= a < b < ptrs.len() ==> #[trigger] ptrs[a] != #[trigger] ptrs[b],
            forall|k: int| 0 <= k < ptrs.len() ==> pointer_tokens(#[trigger] ptrs[k]) is Some,
            forall|k: int| 0 <= k < n ==> !(walk(descriptor@, #[trigger] pv[k]) is ThroughList),
            any_match == (exists|k: int| 0 <= k < n && walk(descriptor@, #[trigger] pv[k]) is Matched),
            any_unmatched == (exists|k: int|
                0 <= k < n && walk(descriptor@, #[trigger] pv[k]) is Unmatched),
            any_whole == (exists|k: int| 0 <= k < n && (#[trigger] ptrs[k]).len() == 0),
        decreases parsed@.len() - n,
    {
        assert(pv[n as int] == tokens_view(parsed@[n as int]@));
        assert(ptrs[n as int] == pointers@[n as int]@);
        if pointers[n].is_empty() {
            any_whole = true;
        }
        match walk_path(descriptor, &parsed[n]) {
            Walk::ThroughList => {
                return Err(MapError::new(ERR_SCHEMA, "BIND cannot traverse LIST"));
            },
            Walk::Matched => {
                any_match = true;
            },
            Walk::Unmatched => {
                any_unmatched = true;
            },
        }
        n += 1;
    }
    if !any_match {
        let empty: Vec<(String, MapValue)> = Vec::new();
        proof {
            lemma_view_mapping(empty);
            assert(entries_view(empty@) =~= Seq::<(Seq<char>, Canon)>::empty());
        }
        return Ok(MapValue::Mapping(empty));
    }
    if any_unmatched {
        return Err(MapError::new(ERR_SCHEMA, "unmatched pointer in set"));
    }
    if any_whole {
        return Ok(clone_value(descriptor));
    }
    let mut sel: Vec<usize> = Vec::new();
    let mut m: usize = 0;
    assert(sub_paths(pv, sel@, 0) =~= effective(pv, 0));
    while m < parsed.len()
        invariant
            m <= parsed@.len(),
            pv == paths_view(parsed@),
            sel_ok(pv, sel@, 0),
            sub_paths(pv, sel@, 0) == effective(pv, m as int),
        decreases parsed@.len() - m,
    {
        if !is_subsumed(&parsed, m) {
            proof {
                assert(pv[m as int].skip(0) == pv[m as int]);
                assert(sub_paths(pv, sel@.push(m), 0) =~= effective(pv, m as int).push(
                    pv[m as int],
                ));
            }
            sel.push(m);
        }
        m += 1;
    }
    build_projected(root_entries, &parsed, &sel, 0)
}

} // verus!
