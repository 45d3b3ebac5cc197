use vstd::prelude::*;
use vstd::hash_map::StringHashMap;

use crate::pathkey::{key_of, lemma_encode_injective, parent_key_of, path_key};
use crate::paths::{components, parent, path_components};
use crate::trash::sizes_consistent;
use crate::scanner::{
    entry_name, lemma_model_seq, lemma_sum_sizes_push, name_for, raw_total, sum_sizes, DirEntry,
    EntryView, RawEntry,
};

verus! {

/// The lookup key of the walked path at position `i`.
pub open spec fn key_at(raw: Seq<RawEntry>, i: int) -> Seq<char> {
    key_of(raw[i].path@)
}

/// The number of components of the walked path at position `i`.
pub open spec fn depth_at(raw: Seq<RawEntry>, i: int) -> int {
    path_components(raw[i].path@).len() as int
}

/// The lookup key of the parent of the walked path at position `i`.
pub open spec fn parent_key_at(raw: Seq<RawEntry>, i: int) -> Option<Seq<char>> {
    parent_key_of(raw[i].path@)
}

/// The first position before `m` whose path has key `key`, or -1.
pub open spec fn first_with(raw: Seq<RawEntry>, key: Seq<char>, m: int) -> int
    decreases m,
{
    if m <= 0 {
        -1
    } else if first_with(raw, key, m - 1) >= 0 {
        first_with(raw, key, m - 1)
    } else if key_at(raw, m - 1) == key {
        m - 1
    } else {
        -1
    }
}

/// The last position before `m` whose path has key `key`, or -1.
pub open spec fn last_with(raw: Seq<RawEntry>, key: Seq<char>, m: int) -> int
    decreases m,
{
    if m <= 0 {
        -1
    } else if key_at(raw, m - 1) == key {
        m - 1
    } else {
        last_with(raw, key, m - 1)
    }
}

/// No earlier walked path has the key of the path at `i`.
pub open spec fn first_of_key(raw: Seq<RawEntry>, i: int) -> bool {
    forall|j: int| 0 <= j < i ==> key_at(raw, j) != key_at(raw, i)
}

/// The path at `i` is folded into its parent: it has one, and the walk produced a path with
/// the parent's key.
pub open spec fn folds_into_parent(raw: Seq<RawEntry>, i: int) -> bool {
    match parent_key_at(raw, i) {
        Some(p) => first_with(raw, p, raw.len() as int) >= 0,
        None => false,
    }
}

/// The path at `i` brings a child to the node with key `key`: its parent has that key, and no
/// earlier walked path shares its own key.
pub open spec fn child_of(raw: Seq<RawEntry>, i: int, key: Seq<char>) -> bool {
    first_of_key(raw, i) && parent_key_at(raw, i) == Some(key)
}

/// The greatest depth among the first `m` walked paths (0 when there are none).
pub open spec fn max_depth(raw: Seq<RawEntry>, m: int) -> int
    decreases m,
{
    if m <= 0 {
        0
    } else if depth_at(raw, m - 1) > max_depth(raw, m - 1) {
        depth_at(raw, m - 1)
    } else {
        max_depth(raw, m - 1)
    }
}

/// The node for the key of the path at `f`, with the given children: name, path, kind and own
/// size come from the last walked path with that key, and its size adds the children's.
pub open spec fn node_with(raw: Seq<RawEntry>, f: int, children: Seq<EntryView>) -> EntryView {
    let l = last_with(raw, key_at(raw, f), raw.len() as int);
    EntryView {
        name: name_for(raw[l].path@),
        path: raw[l].path@,
        size: (raw[l].size + sum_sizes(children)) as u64,
        is_dir: raw[l].is_dir,
        flag: None,
        children,
    }
}

/// The folded tree of the key of the path at `f`.
pub open spec fn tree_of(raw: Seq<RawEntry>, f: int) -> EntryView
    decreases max_depth(raw, raw.len() as int) - depth_at(raw, f), raw.len() + 1,
{
    node_with(raw, f, trees_of(raw, f, raw.len() as int))
}

/// The trees of the children that the first `m` walked paths bring to the key of the path at
/// `f`, in walk order.
pub open spec fn trees_of(raw: Seq<RawEntry>, f: int, m: int) -> Seq<EntryView>
    decreases max_depth(raw, raw.len() as int) - depth_at(raw, f), m,
{
    if m <= 0 || m > raw.len() {
        Seq::empty()
    } else if child_of(raw, m - 1, key_at(raw, f)) {
        proof {
            lemma_child_depth(raw, m - 1, f);
        }
        trees_of(raw, f, m - 1).push(tree_of(raw, m - 1))
    } else {
        trees_of(raw, f, m - 1)
    }
}

/// The stand-in root when the walk did not produce the root itself: an empty directory.
pub open spec fn placeholder(root_path: Seq<char>) -> EntryView {
    EntryView {
        name: name_for(root_path),
        path: root_path,
        size: 0,
        is_dir: true,
        flag: None,
        children: Seq::empty(),
    }
}

/// The tree that a scan of `root_path` builds from the walked paths: the tree of the root's
/// key when the walk produced it and it was not folded into a parent, else the stand-in.
pub open spec fn scan_root(raw: Seq<RawEntry>, root_path: Seq<char>) -> EntryView {
    let l = last_with(raw, key_of(root_path), raw.len() as int);
    if l >= 0 && !folds_into_parent(raw, l) {
        tree_of(raw, l)
    } else {
        placeholder(root_path)
    }
}

/// Every directory among the walked paths has no size of its own: its size is its contents'.
pub open spec fn dirs_own_nothing(raw: Seq<RawEntry>) -> bool {
    forall|i: int| 0 <= i < raw.len() && (#[trigger] raw[i]).is_dir ==> raw[i].size == 0
}

/// Every node of `t` has the kind of the last walked path with its key, and a size that is
/// that path's own size plus its children's sizes, without wrapping around.
pub open spec fn adds_up(raw: Seq<RawEntry>, t: EntryView) -> bool
    decreases t,
{
    let l = last_with(raw, key_of(t.path), raw.len() as int);
    &&& 0 <= l
    &&& t.size == raw[l].size + sum_sizes(t.children)
    &&& t.is_dir == raw[l].is_dir
    &&& forall|i: int| 0 <= i < t.children.len() ==> adds_up(raw, #[trigger] t.children[i])
}

/// A tree whose sizes add up from walked paths whose directories own nothing has every
/// directory's size equal to the sum of its children's.
pub proof fn lemma_adds_up_consistent(raw: Seq<RawEntry>, t: EntryView)
    requires
        adds_up(raw, t),
        dirs_own_nothing(raw),
    ensures
        sizes_consistent(t),
    decreases t,
{
    let l = last_with(raw, key_of(t.path), raw.len() as int);
    lemma_last_with(raw, key_of(t.path), raw.len() as int);
    assert forall|i: int| 0 <= i < t.children.len() implies sizes_consistent(#[trigger] t.children[i]) by {
        lemma_adds_up_consistent(raw, t.children[i]);
    }
}

pub proof fn lemma_first_with(raw: Seq<RawEntry>, key: Seq<char>, m: int)
    requires
        0 <= m,
    ensures
        -1 <= first_with(raw, key, m) < m,
        first_with(raw, key, m) >= 0 ==> key_at(raw, first_with(raw, key, m)) == key,
        forall|i: int| 0 <= i < m && key_at(raw, i) == key ==> first_with(raw, key, m) >= 0
            && first_with(raw, key, m) <= i,
    decreases m,
{
    if m > 0 {
        lemma_first_with(raw, key, m - 1);
    }
}

pub proof fn lemma_last_with(raw: Seq<RawEntry>, key: Seq<char>, m: int)
    requires
        0 <= m,
    ensures
        -1 <= last_with(raw, key, m) < m,
        last_with(raw, key, m) >= 0 ==> key_at(raw, last_with(raw, key, m)) == key,
        forall|i: int| 0 <= i < m && key_at(raw, i) == key ==> last_with(raw, key, m) >= i,
    decreases m,
{
    if m > 0 {
        lemma_last_with(raw, key, m - 1);
    }
}

/// Paths with the same key have the same depth and the same parent key.
pub proof fn lemma_same_key(raw: Seq<RawEntry>, a: int, b: int)
    requires
        key_at(raw, a) == key_at(raw, b),
    ensures
        depth_at(raw, a) == depth_at(raw, b),
        parent_key_at(raw, a) == parent_key_at(raw, b),
{
    lemma_encode_injective(path_components(raw[a].path@), path_components(raw[b].path@));
}

/// A path lies one level below the paths with its parent's key.
pub proof fn lemma_parent_depth(raw: Seq<RawEntry>, i: int, p: int)
    requires
        parent_key_at(raw, i) == Some(key_at(raw, p)),
    ensures
        depth_at(raw, i) == depth_at(raw, p) + 1,
{
    let cs = path_components(raw[i].path@);
    lemma_encode_injective(cs.drop_last(), path_components(raw[p].path@));
}

pub proof fn lemma_max_depth(raw: Seq<RawEntry>, m: int)
    ensures
        max_depth(raw, m) >= 0,
        forall|i: int| 0 <= i < m ==> depth_at(raw, i) <= max_depth(raw, m),
    decreases m,
{
    if m > 0 {
        lemma_max_depth(raw, m - 1);
    }
}

/// A path that brings a child to the key of `f` lies one level below `f`, and no deeper
/// than the deepest walked path.
pub proof fn lemma_child_depth(raw: Seq<RawEntry>, i: int, f: int)
    requires
        0 <= i < raw.len(),
        child_of(raw, i, key_at(raw, f)),
    ensures
        depth_at(raw, i) == depth_at(raw, f) + 1,
        depth_at(raw, i) <= max_depth(raw, raw.len() as int),
{
    lemma_parent_depth(raw, i, f);
    lemma_max_depth(raw, raw.len() as int);
}

/// The children's trees depend on the key of `f` only.
pub proof fn lemma_trees_same_key(raw: Seq<RawEntry>, f: int, g: int, m: int)
    requires
        key_at(raw, f) == key_at(raw, g),
    ensures
        trees_of(raw, f, m) == trees_of(raw, g, m),
    decreases m,
{
    if m > 0 && m <= raw.len() {
        lemma_trees_same_key(raw, f, g, m - 1);
    }
}

/// Without a child among the first `m` paths, the key of `f` has no children's trees.
pub proof fn lemma_trees_none(raw: Seq<RawEntry>, f: int, m: int)
    requires
        forall|i: int| 0 <= i < m ==> !child_of(raw, i, key_at(raw, f)),
    ensures
        trees_of(raw, f, m) == Seq::<EntryView>::empty(),
    decreases m,
{
    if m > 0 && m <= raw.len() {
        lemma_trees_none(raw, f, m - 1);
    }
}

/// How many entries of `s` have a path with key `key`.
pub open spec fn key_count(s: Seq<EntryView>, key: Seq<char>) -> int
    decreases s.len(),
{
    if s.len() == 0 {
        0
    } else {
        key_count(s.drop_last(), key) + if key_of(s.last().path) == key {
            1int
        } else {
            0int
        }
    }
}

/// One of the first `m` walked paths has key `key` and a parent with key `parent`.
pub open spec fn walked_below(raw: Seq<RawEntry>, parent: Seq<char>, key: Seq<char>, m: int) -> bool
    decreases m,
{
    if m <= 0 {
        false
    } else {
        walked_below(raw, parent, key, m - 1) || (key_at(raw, m - 1) == key && parent_key_at(raw, m - 1)
            == Some(parent))
    }
}

/// The tree of a walked path has that path's key.
proof fn lemma_tree_key(raw: Seq<RawEntry>, f: int)
    requires
        0 <= f < raw.len(),
    ensures
        key_of(tree_of(raw, f).path) == key_at(raw, f),
{
    lemma_last_with(raw, key_at(raw, f), raw.len() as int);
}

/// The children's trees brought by the first `m` paths: each is the tree of a walked path
/// whose parent has the key of `f`, and each key below the key of `f` is brought once.
proof fn lemma_trees_of_children(raw: Seq<RawEntry>, f: int, m: int)
    requires
        0 <= m <= raw.len(),
    ensures
        forall|k: int|
            0 <= k < trees_of(raw, f, m).len() ==> exists|i: int|
                0 <= i < m && #[trigger] trees_of(raw, f, m)[k] == tree_of(raw, i) && parent_key_at(raw, i)
                    == Some(key_at(raw, f)),
        forall|key: Seq<char>|
            #[trigger] key_count(trees_of(raw, f, m), key) == if walked_below(raw, key_at(raw, f), key, m) {
                1int
            } else {
                0int
            },
    decreases m,
{
    if m > 0 {
        let i = m - 1;
        let prev = trees_of(raw, f, i);
        lemma_trees_of_children(raw, f, i);
        if child_of(raw, i, key_at(raw, f)) {
            let cur = prev.push(tree_of(raw, i));
            assert(trees_of(raw, f, m) == cur);
            lemma_tree_key(raw, i);
            assert(cur.drop_last() =~= prev);
            assert forall|k: int| 0 <= k < cur.len() implies exists|i2: int|
                0 <= i2 < m && #[trigger] cur[k] == tree_of(raw, i2) && parent_key_at(raw, i2) == Some(
                    key_at(raw, f),
                ) by {
                if k < prev.len() {
                    assert(cur[k] == prev[k]);
                } else {
                    assert(cur[k] == tree_of(raw, i));
                }
            }
            assert forall|key: Seq<char>| #[trigger] key_count(cur, key) == if walked_below(
                raw,
                key_at(raw, f),
                key,
                m,
            ) {
                1int
            } else {
                0int
            } by {
                assert(key_count(cur, key) == key_count(prev, key) + if key_of(tree_of(raw, i).path) == key {
                    1int
                } else {
                    0int
                });
                assert(key_count(prev, key) == if walked_below(raw, key_at(raw, f), key, i) {
                    1int
                } else {
                    0int
                });
                if key == key_at(raw, i) && walked_below(raw, key_at(raw, f), key, i) {
                    lemma_walked_below_witness(raw, key_at(raw, f), key, i);
                    let j = choose|j: int| 0 <= j < i && key_at(raw, j) == key;
                    assert(key_at(raw, j) != key_at(raw, i));
                }
            }
        } else {
            assert(trees_of(raw, f, m) == prev);
            assert forall|key: Seq<char>| #[trigger] key_count(prev, key) == if walked_below(
                raw,
                key_at(raw, f),
                key,
                m,
            ) {
                1int
            } else {
                0int
            } by {
                if key == key_at(raw, i) && parent_key_at(raw, i) == Some(key_at(raw, f)) && !walked_below(
                    raw,
                    key_at(raw, f),
                    key,
                    i,
                ) {
                    let j = choose|j: int| 0 <= j < i && key_at(raw, j) == key_at(raw, i);
                    lemma_same_key(raw, j, i);
                    lemma_walked_below_reached(raw, key_at(raw, f), key, j, i);
                }
            }
        }
    }
}

/// A path counted by `walked_below` before `m` is not the first of its key at `m` or later.
proof fn lemma_walked_below_witness(raw: Seq<RawEntry>, parent: Seq<char>, key: Seq<char>, m: int)
    requires
        walked_below(raw, parent, key, m),
    ensures
        exists|j: int| 0 <= j < m && key_at(raw, j) == key,
    decreases m,
{
    if m > 0 && walked_below(raw, parent, key, m - 1) {
        lemma_walked_below_witness(raw, parent, key, m - 1);
    }
}

/// A walked path with key `key` and parent key `parent` before `m` is counted.
proof fn lemma_walked_below_reached(raw: Seq<RawEntry>, parent: Seq<char>, key: Seq<char>, j: int, m: int)
    requires
        0 <= j < m,
        key_at(raw, j) == key,
        parent_key_at(raw, j) == Some(parent),
    ensures
        walked_below(raw, parent, key, m),
    decreases m,
{
    if j < m - 1 {
        lemma_walked_below_reached(raw, parent, key, j, m - 1);
    }
}

/// In the tree of every walked path: the node has the path's key and no flag; each child is
/// the tree of a walked path lying directly below it; and each key of a walked path whose
/// parent has the node's key appears exactly once among the children, any other key never.
pub proof fn law_each_walked_child_appears_once(raw: Seq<RawEntry>, f: int, key: Seq<char>)
    requires
        0 <= f < raw.len(),
    ensures
        key_of(tree_of(raw, f).path) == key_at(raw, f),
        tree_of(raw, f).flag is None,
        forall|k: int|
            0 <= k < tree_of(raw, f).children.len() ==> exists|i: int|
                0 <= i < raw.len() && #[trigger] tree_of(raw, f).children[k] == tree_of(raw, i)
                    && parent_key_at(raw, i) == Some(key_at(raw, f)),
        key_count(tree_of(raw, f).children, key) == if walked_below(
            raw,
            key_at(raw, f),
            key,
            raw.len() as int,
        ) {
            1int
        } else {
            0int
        },
{
    lemma_tree_key(raw, f);
    lemma_trees_of_children(raw, f, raw.len() as int);
    assert(tree_of(raw, f).children == trees_of(raw, f, raw.len() as int));
}

/// How many nodes of `t`, itself included, have a path with key `key`.
pub open spec fn occurrences(t: EntryView, key: Seq<char>) -> int
    decreases t,
{
    (if key_of(t.path) == key {
        1int
    } else {
        0int
    }) + occurrences_in(t.children, key)
}

/// How many nodes of the trees in `s` have a path with key `key`.
pub open spec fn occurrences_in(s: Seq<EntryView>, key: Seq<char>) -> int
    decreases s,
{
    if s.len() == 0 {
        0
    } else {
        occurrences_in(s.drop_last(), key) + occurrences(s.last(), key)
    }
}

/// The walked path at `i` lies at or below the walked path at `f`: its components start with
/// those of `f`.
pub open spec fn lies_below(raw: Seq<RawEntry>, i: int, f: int) -> bool {
    let d = depth_at(raw, f);
    depth_at(raw, i) >= d && path_components(raw[i].path@).take(d) == path_components(raw[f].path@)
}

proof fn lemma_occurrences_nonneg(t: EntryView, key: Seq<char>)
    ensures
        occurrences(t, key) >= 0,
    decreases t,
{
    lemma_occurrences_in_nonneg(t.children, key);
}

proof fn lemma_occurrences_in_nonneg(s: Seq<EntryView>, key: Seq<char>)
    ensures
        occurrences_in(s, key) >= 0,
    decreases s,
{
    if s.len() > 0 {
        lemma_occurrences_in_nonneg(s.drop_last(), key);
        lemma_occurrences_nonneg(s.last(), key);
    }
}

/// A key found among the trees of `s` is found in one of them.
proof fn lemma_occurrences_in_found(s: Seq<EntryView>, key: Seq<char>)
    requires
        occurrences_in(s, key) > 0,
    ensures
        exists|k: int| 0 <= k < s.len() && occurrences(#[trigger] s[k], key) > 0,
    decreases s.len(),
{
    let d = s.drop_last();
    lemma_occurrences_in_nonneg(d, key);
    if occurrences(s.last(), key) <= 0 {
        lemma_occurrences_in_found(d, key);
        let k = choose|k: int| 0 <= k < d.len() && occurrences(#[trigger] d[k], key) > 0;
        assert(s[k] == d[k]);
    } else {
        assert(s[s.len() - 1] == s.last());
    }
}

/// Trees each holding the key at most once, of which at most one holds it at all, hold it
/// at most once together.
proof fn lemma_occurrences_in_at_most_one(s: Seq<EntryView>, key: Seq<char>)
    requires
        forall|k: int| 0 <= k < s.len() ==> occurrences(#[trigger] s[k], key) <= 1,
        forall|k: int, l: int|
            0 <= k < l < s.len() ==> occurrences(#[trigger] s[k], key) <= 0 || occurrences(
                #[trigger] s[l],
                key,
            ) <= 0,
    ensures
        occurrences_in(s, key) <= 1,
        occurrences_in(s, key) > 0 ==> forall|k: int|
            0 <= k < s.len() - 1 ==> occurrences(#[trigger] s[k], key) <= 0 || occurrences(s.last(), key)
                <= 0,
    decreases s.len(),
{
    if s.len() > 0 {
        let d = s.drop_last();
        assert forall|k: int| 0 <= k < d.len() implies occurrences(#[trigger] d[k], key) <= 1 by {
            assert(d[k] == s[k]);
        }
        assert forall|k: int, l: int| 0 <= k < l < d.len() implies occurrences(#[trigger] d[k], key) <= 0
            || occurrences(#[trigger] d[l], key) <= 0 by {
            assert(d[k] == s[k] && d[l] == s[l]);
        }
        lemma_occurrences_in_at_most_one(d, key);
        lemma_occurrences_in_nonneg(d, key);
        lemma_occurrences_nonneg(s.last(), key);
        assert(s.last() == s[s.len() - 1]);
        if occurrences_in(d, key) > 0 && occurrences(s.last(), key) > 0 {
            lemma_occurrences_in_found(d, key);
            let k = choose|k: int| 0 <= k < d.len() && occurrences(#[trigger] d[k], key) > 0;
            assert(d[k] == s[k]);
            assert(occurrences(s[k], key) <= 0 || occurrences(s[s.len() - 1], key) <= 0);
        }
    }
}

/// Two children at different positions with the same key would count that key twice.
proof fn lemma_key_count_two(s: Seq<EntryView>, key: Seq<char>, k: int, l: int)
    requires
        0 <= k < l < s.len(),
        key_of(s[k].path) == key,
        key_of(s[l].path) == key,
    ensures
        key_count(s, key) >= 2,
    decreases s.len(),
{
    let d = s.drop_last();
    if l < s.len() - 1 {
        assert(d[k] == s[k] && d[l] == s[l]);
        lemma_key_count_two(d, key, k, l);
    } else {
        assert(d[k] == s[k]);
        lemma_key_count_one(d, key, k);
    }
    lemma_key_count_nonneg(d, key);
}

proof fn lemma_key_count_one(s: Seq<EntryView>, key: Seq<char>, k: int)
    requires
        0 <= k < s.len(),
        key_of(s[k].path) == key,
    ensures
        key_count(s, key) >= 1,
    decreases s.len(),
{
    let d = s.drop_last();
    lemma_key_count_nonneg(d, key);
    if k < s.len() - 1 {
        assert(d[k] == s[k]);
        lemma_key_count_one(d, key, k);
    }
}

proof fn lemma_key_count_nonneg(s: Seq<EntryView>, key: Seq<char>)
    ensures
        key_count(s, key) >= 0,
    decreases s.len(),
{
    if s.len() > 0 {
        lemma_key_count_nonneg(s.drop_last(), key);
    }
}

/// A path whose parent has the key of `f` has the components of `f` and one more.
proof fn lemma_child_components(raw: Seq<RawEntry>, i: int, f: int)
    requires
        parent_key_at(raw, i) == Some(key_at(raw, f)),
    ensures
        path_components(raw[i].path@).len() >= 1,
        path_components(raw[i].path@).drop_last() == path_components(raw[f].path@),
{
    lemma_encode_injective(path_components(raw[i].path@).drop_last(), path_components(raw[f].path@));
}

/// Every key found in the tree of the walked path `f` is the key of a walked path lying
/// below `f`, strictly below unless it is the key of `f` itself.
proof fn lemma_occurrences_lie_below(raw: Seq<RawEntry>, f: int, key: Seq<char>)
    requires
        0 <= f < raw.len(),
        occurrences(tree_of(raw, f), key) > 0,
    ensures
        exists|i: int|
            0 <= i < raw.len() && key_at(raw, i) == key && #[trigger] lies_below(raw, i, f) && (depth_at(raw, i)
                == depth_at(raw, f) ==> key == key_at(raw, f)),
    decreases max_depth(raw, raw.len() as int) - depth_at(raw, f),
{
    let n = raw.len() as int;
    let t = tree_of(raw, f);
    lemma_tree_key(raw, f);
    assert(t.children == trees_of(raw, f, n));
    if key_of(t.path) == key {
        assert(path_components(raw[f].path@).take(depth_at(raw, f)) =~= path_components(raw[f].path@));
        assert(lies_below(raw, f, f));
    } else {
        lemma_occurrences_in_found(t.children, key);
        let k = choose|k: int| 0 <= k < t.children.len() && occurrences(#[trigger] t.children[k], key) > 0;
        lemma_trees_of_children(raw, f, n);
        let c = choose|c: int|
            0 <= c < n && #[trigger] trees_of(raw, f, n)[k] == tree_of(raw, c) && parent_key_at(raw, c) == Some(
                key_at(raw, f),
            );
        lemma_parent_depth(raw, c, f);
        lemma_max_depth(raw, n);
        lemma_occurrences_lie_below(raw, c, key);
        let i = choose|i: int|
            0 <= i < raw.len() && key_at(raw, i) == key && #[trigger] lies_below(raw, i, c) && (depth_at(
                raw,
                i,
            ) == depth_at(raw, c) ==> key == key_at(raw, c));
        lemma_child_components(raw, c, f);
        let ci = path_components(raw[i].path@);
        let cc = path_components(raw[c].path@);
        let d = depth_at(raw, f);
        assert(ci.take(d) =~= ci.take(d + 1).take(d));
        assert(cc.take(d) =~= cc.drop_last());
        assert(lies_below(raw, i, f));
    }
}

/// Every walked key appears at most once in the tree of a walked path.
pub proof fn law_each_key_appears_at_most_once(raw: Seq<RawEntry>, f: int, key: Seq<char>)
    requires
        0 <= f < raw.len(),
    ensures
        occurrences(tree_of(raw, f), key) <= 1,
    decreases max_depth(raw, raw.len() as int) - depth_at(raw, f),
{
    let n = raw.len() as int;
    let t = tree_of(raw, f);
    let s = t.children;
    lemma_tree_key(raw, f);
    assert(s == trees_of(raw, f, n));
    lemma_trees_of_children(raw, f, n);
    lemma_max_depth(raw, n);
    assert forall|k: int| 0 <= k < s.len() implies occurrences(#[trigger] s[k], key) <= 1 by {
        let c = choose|c: int|
            0 <= c < n && #[trigger] trees_of(raw, f, n)[k] == tree_of(raw, c) && parent_key_at(raw, c) == Some(
                key_at(raw, f),
            );
        lemma_parent_depth(raw, c, f);
        law_each_key_appears_at_most_once(raw, c, key);
    }
    assert forall|k: int, l: int| 0 <= k < l < s.len() implies occurrences(#[trigger] s[k], key) <= 0
        || occurrences(#[trigger] s[l], key) <= 0 by {
        if occurrences(s[k], key) > 0 && occurrences(s[l], key) > 0 {
            let ck = choose|c: int|
                0 <= c < n && #[trigger] trees_of(raw, f, n)[k] == tree_of(raw, c) && parent_key_at(raw, c)
                    == Some(key_at(raw, f));
            let cl = choose|c: int|
                0 <= c < n && #[trigger] trees_of(raw, f, n)[l] == tree_of(raw, c) && parent_key_at(raw, c)
                    == Some(key_at(raw, f));
            lemma_occurrences_lie_below(raw, ck, key);
            lemma_occurrences_lie_below(raw, cl, key);
            let ik = choose|i: int|
                0 <= i < raw.len() && key_at(raw, i) == key && #[trigger] lies_below(raw, i, ck) && (depth_at(
                    raw,
                    i,
                ) == depth_at(raw, ck) ==> key == key_at(raw, ck));
            let il = choose|i: int|
                0 <= i < raw.len() && key_at(raw, i) == key && #[trigger] lies_below(raw, i, cl) && (depth_at(
                    raw,
                    i,
                ) == depth_at(raw, cl) ==> key == key_at(raw, cl));
            lemma_encode_injective(path_components(raw[ik].path@), path_components(raw[il].path@));
            lemma_child_components(raw, ck, f);
            lemma_child_components(raw, cl, f);
            assert(path_components(raw[ck].path@) =~= path_components(raw[cl].path@));
            lemma_tree_key(raw, ck);
            lemma_tree_key(raw, cl);
            lemma_key_count_two(s, key_at(raw, ck), k, l);
            law_each_walked_child_appears_once(raw, f, key_at(raw, ck));
        }
    }
    lemma_occurrences_in_at_most_one(s, key);
    if key_of(t.path) == key && occurrences_in(s, key) > 0 {
        lemma_occurrences_in_found(s, key);
        let k = choose|k: int| 0 <= k < s.len() && occurrences(#[trigger] s[k], key) > 0;
        let c = choose|c: int|
            0 <= c < n && #[trigger] trees_of(raw, f, n)[k] == tree_of(raw, c) && parent_key_at(raw, c) == Some(
                key_at(raw, f),
            );
        lemma_parent_depth(raw, c, f);
        lemma_occurrences_lie_below(raw, c, key);
        let i = choose|i: int|
            0 <= i < raw.len() && key_at(raw, i) == key && #[trigger] lies_below(raw, i, c) && (depth_at(
                raw,
                i,
            ) == depth_at(raw, c) ==> key == key_at(raw, c));
        lemma_same_key(raw, i, f);
    }
}

/// Every walked key appears at most once in the tree that a scan builds.
pub proof fn law_scan_keys_appear_at_most_once(raw: Seq<RawEntry>, root_path: Seq<char>, key: Seq<char>)
    ensures
        occurrences(scan_root(raw, root_path), key) <= 1,
{
    let l = last_with(raw, key_of(root_path), raw.len() as int);
    lemma_last_with(raw, key_of(root_path), raw.len() as int);
    if l >= 0 && !folds_into_parent(raw, l) {
        law_each_key_appears_at_most_once(raw, l, key);
    } else {
        assert(placeholder(root_path).children =~= Seq::<EntryView>::empty());
    }
}

/// The walked path at `i` hangs below the walked path at `f`: it has the key of `f`, or its
/// parent was walked (one level up) and hangs below `f`.
pub open spec fn hangs_below(raw: Seq<RawEntry>, f: int, i: int) -> bool
    decreases depth_at(raw, i) - depth_at(raw, f),
{
    if key_at(raw, i) == key_at(raw, f) {
        true
    } else if depth_at(raw, i) <= depth_at(raw, f) {
        false
    } else {
        match parent_key_at(raw, i) {
            Some(p) => {
                let q = first_with(raw, p, raw.len() as int);
                q >= 0 && depth_at(raw, q) == depth_at(raw, i) - 1 && hangs_below(raw, f, q)
            },
            None => false,
        }
    }
}

/// Walked paths with the same key have the same tree.
proof fn lemma_tree_same_key(raw: Seq<RawEntry>, f: int, g: int)
    requires
        key_at(raw, f) == key_at(raw, g),
    ensures
        tree_of(raw, f) == tree_of(raw, g),
{
    lemma_trees_same_key(raw, f, g, raw.len() as int);
}

/// The trees of `s` together hold at least what one of them holds.
proof fn lemma_occurrences_in_element(s: Seq<EntryView>, key: Seq<char>, k: int)
    requires
        0 <= k < s.len(),
    ensures
        occurrences(s[k], key) <= occurrences_in(s, key),
    decreases s.len(),
{
    let d = s.drop_last();
    lemma_occurrences_in_nonneg(d, key);
    if k < s.len() - 1 {
        assert(d[k] == s[k]);
        lemma_occurrences_in_element(d, key, k);
        lemma_occurrences_nonneg(s.last(), key);
    }
}

/// A key counted among `s` is the key of one of them.
proof fn lemma_key_count_found(s: Seq<EntryView>, key: Seq<char>)
    requires
        key_count(s, key) > 0,
    ensures
        exists|k: int| 0 <= k < s.len() && key_of((#[trigger] s[k]).path) == key,
    decreases s.len(),
{
    let d = s.drop_last();
    if key_of(s.last().path) != key {
        lemma_key_count_found(d, key);
        let k = choose|k: int| 0 <= k < d.len() && key_of((#[trigger] d[k]).path) == key;
        assert(s[k] == d[k]);
    } else {
        assert(s[s.len() - 1] == s.last());
    }
}

/// What the tree of a path hanging below `f` holds, the tree of `f` holds too.
proof fn lemma_hanging_tree_inside(raw: Seq<RawEntry>, f: int, q: int, key: Seq<char>)
    requires
        0 <= f < raw.len(),
        0 <= q < raw.len(),
        hangs_below(raw, f, q),
        occurrences(tree_of(raw, q), key) >= 1,
    ensures
        occurrences(tree_of(raw, f), key) >= 1,
    decreases depth_at(raw, q) - depth_at(raw, f),
{
    let n = raw.len() as int;
    if key_at(raw, q) == key_at(raw, f) {
        lemma_tree_same_key(raw, f, q);
    } else {
        let pk = parent_key_at(raw, q)->0;
        let p = first_with(raw, pk, n);
        lemma_first_with(raw, pk, n);
        // The tree of the parent holds a child with the key of `q`: the tree of `q`.
        lemma_walked_below_reached(raw, pk, key_at(raw, q), q, n);
        law_each_walked_child_appears_once(raw, p, key_at(raw, q));
        let t = tree_of(raw, p);
        lemma_key_count_found(t.children, key_at(raw, q));
        let k = choose|k: int| 0 <= k < t.children.len() && key_of((#[trigger] t.children[k]).path) == key_at(
            raw,
            q,
        );
        let c = choose|c: int|
            0 <= c < raw.len() && #[trigger] t.children[k] == tree_of(raw, c) && parent_key_at(raw, c) == Some(
                key_at(raw, p),
            );
        lemma_tree_key(raw, c);
        lemma_tree_same_key(raw, c, q);
        lemma_occurrences_in_element(t.children, key, k);
        lemma_occurrences_nonneg(t, key);
        assert(occurrences(t, key) >= 1);
        lemma_hanging_tree_inside(raw, f, p, key);
    }
}

/// In the tree of the walked path `f`, every walked path hanging below `f` appears exactly
/// once.
pub proof fn law_hanging_paths_appear_exactly_once(raw: Seq<RawEntry>, f: int, i: int)
    requires
        0 <= f < raw.len(),
        0 <= i < raw.len(),
        hangs_below(raw, f, i),
    ensures
        occurrences(tree_of(raw, f), key_at(raw, i)) == 1,
{
    lemma_tree_key(raw, i);
    lemma_occurrences_in_nonneg(tree_of(raw, i).children, key_at(raw, i));
    lemma_hanging_tree_inside(raw, f, i, key_at(raw, i));
    law_each_key_appears_at_most_once(raw, f, key_at(raw, i));
}

/// In the tree that a scan of `root_path` builds from the walk, when the walk produced the
/// root and did not fold it into a parent: every walked path hanging below the root appears
/// exactly once.
pub proof fn law_scan_shows_every_hanging_path_once(raw: Seq<RawEntry>, root_path: Seq<char>, i: int)
    requires
        0 <= i < raw.len(),
        last_with(raw, key_of(root_path), raw.len() as int) >= 0,
        !folds_into_parent(raw, last_with(raw, key_of(root_path), raw.len() as int)),
        hangs_below(raw, last_with(raw, key_of(root_path), raw.len() as int), i),
    ensures
        occurrences(scan_root(raw, root_path), key_at(raw, i)) == 1,
{
    let l = last_with(raw, key_of(root_path), raw.len() as int);
    lemma_last_with(raw, key_of(root_path), raw.len() as int);
    law_hanging_paths_appear_exactly_once(raw, l, i);
}

/// While the tree is built level by level: the path at `i` has been handled once every
/// deeper level is done, and, on level `lvl`, every position before `j`.
pub open spec fn done_at(raw: Seq<RawEntry>, lvl: int, j: int, i: int) -> bool {
    depth_at(raw, i) > lvl || (depth_at(raw, i) == lvl && i < j)
}

/// How many walked paths have already brought their children to the key of `f`.
pub open spec fn child_bound(raw: Seq<RawEntry>, lvl: int, j: int, f: int) -> int {
    if depth_at(raw, f) + 1 > lvl {
        raw.len() as int
    } else if depth_at(raw, f) + 1 == lvl {
        j
    } else {
        0
    }
}

/// A key is still in the table: it was walked, and its first path has not yet been folded
/// into its parent.
pub open spec fn in_table(raw: Seq<RawEntry>, lvl: int, j: int, key: Seq<char>) -> bool {
    let first = first_with(raw, key, raw.len() as int);
    first >= 0 && !(done_at(raw, lvl, j, first) && folds_into_parent(raw, first))
}

/// The table and the slots at a step of the build: every key still in the table points to
/// the slot of its last path, which holds that key's node with the children brought so far.
pub open spec fn table_ok(
    raw: Seq<RawEntry>,
    lvl: int,
    j: int,
    map: Map<Seq<char>, usize>,
    slots: Seq<Option<DirEntry>>,
) -> bool {
    &&& slots.len() == raw.len()
    &&& forall|key: Seq<char>| #[trigger] map.contains_key(key) <==> in_table(raw, lvl, j, key)
    &&& forall|key: Seq<char>|
        #[trigger] map.contains_key(key) ==> {
            let l = map[key] as int;
            &&& l == last_with(raw, key, raw.len() as int)
            &&& slots[l] is Some
            &&& slots[l]->0.model() == node_with(raw, l, trees_of(raw, l, child_bound(raw, lvl, j, l)))
            &&& adds_up(raw, slots[l]->0.model())
        }
}

/// The precomputed keys, parent keys and depths of the walked paths.
pub open spec fn keys_ok(
    raw: Seq<RawEntry>,
    keys: Seq<String>,
    pkeys: Seq<Option<String>>,
    depths: Seq<usize>,
) -> bool {
    &&& keys.len() == raw.len()
    &&& pkeys.len() == raw.len()
    &&& depths.len() == raw.len()
    &&& forall|i: int| 0 <= i < raw.len() ==> #[trigger] keys[i]@ == key_at(raw, i)
    &&& forall|i: int|
        0 <= i < raw.len() ==> match #[trigger] pkeys[i] {
            Some(pk) => parent_key_at(raw, i) == Some(pk@),
            None => parent_key_at(raw, i) is None,
        }
    &&& forall|i: int| 0 <= i < raw.len() ==> #[trigger] depths[i] as int == depth_at(raw, i)
}

/// The size held in a slot (nothing for an empty one).
spec fn slot_size(o: Option<DirEntry>) -> int {
    match o {
        Some(e) => e.size as int,
        None => 0,
    }
}

/// The sizes held in all slots together: never more than the walk's total, which keeps every
/// addition of a child's size to its parent's within a `u64`.
spec fn slots_total(s: Seq<Option<DirEntry>>) -> int
    decreases s.len(),
{
    if s.len() == 0 {
        0
    } else {
        slots_total(s.drop_last()) + slot_size(s.last())
    }
}

proof fn lemma_slots_total_update(s: Seq<Option<DirEntry>>, i: int, x: Option<DirEntry>)
    requires
        0 <= i < s.len(),
    ensures
        slots_total(s.update(i, x)) == slots_total(s) - slot_size(s[i]) + slot_size(x),
    decreases s.len(),
{
    let t = s.update(i, x);
    if i < s.len() - 1 {
        assert(t.drop_last() =~= s.drop_last().update(i, x));
        lemma_slots_total_update(s.drop_last(), i, x);
    } else {
        assert(t.drop_last() =~= s.drop_last());
    }
}

proof fn lemma_slots_total_bound(s: Seq<Option<DirEntry>>, i: int, j: int)
    requires
        0 <= i < s.len(),
        0 <= j < s.len(),
        i != j,
    ensures
        slot_size(s[i]) + slot_size(s[j]) <= slots_total(s),
    decreases s.len(),
{
    lemma_slots_total_nonneg(s.drop_last());
    if i < s.len() - 1 && j < s.len() - 1 {
        lemma_slots_total_bound(s.drop_last(), i, j);
    } else if i < s.len() - 1 {
        lemma_slot_le_total(s.drop_last(), i);
    } else if j < s.len() - 1 {
        lemma_slot_le_total(s.drop_last(), j);
    }
}

proof fn lemma_slot_le_total(s: Seq<Option<DirEntry>>, i: int)
    requires
        0 <= i < s.len(),
    ensures
        slot_size(s[i]) <= slots_total(s),
    decreases s.len(),
{
    lemma_slots_total_nonneg(s.drop_last());
    if i < s.len() - 1 {
        lemma_slot_le_total(s.drop_last(), i);
    }
}

proof fn lemma_slots_total_nonneg(s: Seq<Option<DirEntry>>)
    ensures
        slots_total(s) >= 0,
    decreases s.len(),
{
    if s.len() > 0 {
        lemma_slots_total_nonneg(s.drop_last());
    }
}

/// Takes the entry out of slot `i`, leaving it empty.
fn take_slot(slots: &mut Vec<Option<DirEntry>>, i: usize) -> (r: Option<DirEntry>)
    requires
        i < old(slots)@.len(),
    ensures
        r == old(slots)@[i as int],
        final(slots)@ == old(slots)@.update(i as int, None),
{
    let mut out: Option<DirEntry> = None;
    std::mem::swap(&mut out, &mut slots[i]);
    out
}

/// A path is the first of its key exactly when it is where `first_with` finds that key.
proof fn lemma_first_of_key(raw: Seq<RawEntry>, i: int)
    requires
        0 <= i < raw.len(),
    ensures
        first_of_key(raw, i) <==> first_with(raw, key_at(raw, i), raw.len() as int) == i,
{
    lemma_first_with(raw, key_at(raw, i), raw.len() as int);
}

/// A step at position `j` that changes nothing keeps the table valid when `j` is on another
/// level, or is not a first path folded into its parent.
proof fn lemma_quiet_step(
    raw: Seq<RawEntry>,
    lvl: int,
    j: int,
    map: Map<Seq<char>, usize>,
    slots: Seq<Option<DirEntry>>,
)
    requires
        0 <= j < raw.len(),
        table_ok(raw, lvl, j, map, slots),
        depth_at(raw, j) != lvl || !(first_of_key(raw, j) && folds_into_parent(raw, j)),
    ensures
        table_ok(raw, lvl, j + 1, map, slots),
{
    let n = raw.len() as int;
    lemma_first_of_key(raw, j);
    assert forall|key: Seq<char>| #[trigger] in_table(raw, lvl, j + 1, key) == in_table(raw, lvl, j, key) by {
        lemma_first_with(raw, key, n);
        if first_with(raw, key, n) == j {
            lemma_first_of_key(raw, j);
        }
    }
    assert forall|key: Seq<char>| #[trigger] map.contains_key(key) implies slots[map[key] as int]->0.model()
        == node_with(
        raw,
        map[key] as int,
        trees_of(raw, map[key] as int, child_bound(raw, lvl, j + 1, map[key] as int)),
    ) by {
        let l = map[key] as int;
        lemma_last_with(raw, key, n);
        if depth_at(raw, l) + 1 == lvl {
            if child_of(raw, j, key_at(raw, l)) {
                lemma_parent_depth(raw, j, l);
                lemma_first_with(raw, key_at(raw, l), n);
                assert(folds_into_parent(raw, j));
            }
            assert(trees_of(raw, l, j + 1) == trees_of(raw, l, j));
        }
    }
}

/// Finishing a level is starting the one above it.
proof fn lemma_next_level(
    raw: Seq<RawEntry>,
    lvl: int,
    map: Map<Seq<char>, usize>,
    slots: Seq<Option<DirEntry>>,
)
    requires
        table_ok(raw, lvl, raw.len() as int, map, slots),
    ensures
        table_ok(raw, lvl - 1, 0, map, slots),
{
    let n = raw.len() as int;
    assert forall|key: Seq<char>| #[trigger] in_table(raw, lvl - 1, 0, key) == in_table(raw, lvl, n, key) by {
        lemma_first_with(raw, key, n);
    }
    assert forall|f: int| #[trigger] child_bound(raw, lvl - 1, 0, f) == child_bound(raw, lvl, n, f) by {}
}

/// Folds the walked path `j` (on level `lvl`) into its parent: when it is the first path of
/// its key and the parent's key is still in the table, its node leaves the table and becomes
/// the parent's last child, and the parent's size grows by the child's.
fn attach(
    j: usize,
    Ghost(lvl): Ghost<int>,
    keys: &Vec<String>,
    pkeys: &Vec<Option<String>>,
    depths: &Vec<usize>,
    slots: &mut Vec<Option<DirEntry>>,
    map: &mut StringHashMap<usize>,
    raw: &Vec<RawEntry>,
)
    requires
        j < raw@.len(),
        depth_at(raw@, j as int) == lvl,
        keys_ok(raw@, keys@, pkeys@, depths@),
        table_ok(raw@, lvl, j as int, old(map)@, old(slots)@),
        slots_total(old(slots)@) <= raw_total(raw@) <= u64::MAX,
    ensures
        table_ok(raw@, lvl, j + 1, final(map)@, final(slots)@),
        slots_total(final(slots)@) <= raw_total(raw@),
{
    let ghost rs = raw@;
    let ghost n = rs.len() as int;
    let ghost ji = j as int;
    let ghost key = key_at(rs, ji);
    let ghost first = first_with(rs, key, n);
    proof {
        lemma_first_with(rs, key, n);
        lemma_first_of_key(rs, ji);
        lemma_same_key(rs, first, ji);
    }
    let pk = match &pkeys[j] {
        Some(pk) => pk,
        None => {
            proof {
                lemma_quiet_step(rs, lvl, ji, map@, slots@);
            }
            return;
        },
    };
    let ghost pkey = pk@;
    if !map.contains_key(pk.as_str()) {
        proof {
            lemma_first_with(rs, pkey, n);
            let q = first_with(rs, pkey, n);
            if q >= 0 {
                lemma_parent_depth(rs, ji, q);
                assert(in_table(rs, lvl, ji, pkey));
            }
            lemma_quiet_step(rs, lvl, ji, map@, slots@);
        }
        return;
    }
    proof {
        lemma_first_with(rs, pkey, n);
        assert(in_table(rs, lvl, ji, pkey));
        assert(folds_into_parent(rs, ji));
        if pkey == key {
            lemma_parent_depth(rs, ji, ji);
        }
    }
    let ci = match map.get(keys[j].as_str()) {
        Some(ci) => *ci,
        None => {
            proof {
                assert(!in_table(rs, lvl, ji, key));
                lemma_quiet_step(rs, lvl, ji, map@, slots@);
            }
            return;
        },
    };
    let ghost m0 = map@;
    let ghost s0 = slots@;
    proof {
        assert(in_table(rs, lvl, ji, key));
        assert(first == ji);
        lemma_last_with(rs, key, n);
        lemma_last_with(rs, pkey, n);
        lemma_same_key(rs, ci as int, ji);
    }
    map.remove(keys[j].as_str());
    let pi = match map.get(pk.as_str()) {
        Some(pi) => *pi,
        None => {
            proof {
                assert(m0.contains_key(pkey));
                assert(false);
            }
            return;
        },
    };
    proof {
        lemma_parent_depth(rs, ji, pi as int);
        assert(ci != pi);
    }
    let child = match take_slot(slots, ci) {
        Some(c) => c,
        None => {
            proof {
                assert(false);
            }
            return;
        },
    };
    let ghost s1 = slots@;
    let mut par = match take_slot(slots, pi) {
        Some(p) => p,
        None => {
            proof {
                assert(false);
            }
            return;
        },
    };
    proof {
        lemma_slots_total_bound(s0, ci as int, pi as int);
        lemma_slots_total_update(s0, ci as int, None);
        lemma_slots_total_update(s1, pi as int, None);
        lemma_model_seq(par.children@);
    }
    let ghost old_par = par;
    par.size = par.size + child.size;
    par.children.push(child);
    proof {
        lemma_model_seq(par.children@);
        let om = old_par.model();
        let pm = par.model();
        let cm = child.model();
        assert(pm.children =~= om.children.push(cm));
        lemma_sum_sizes_push(om.children, cm);
        lemma_trees_same_key(rs, ci as int, ji, n);
        assert(cm == tree_of(rs, ji));
        assert(child_of(rs, ji, key_at(rs, pi as int)));
        assert(trees_of(rs, pi as int, ji + 1) == trees_of(rs, pi as int, ji).push(tree_of(rs, ji)));
        assert(pm == node_with(rs, pi as int, trees_of(rs, pi as int, ji + 1)));
        assert(adds_up(rs, pm)) by {
            assert forall|i: int| 0 <= i < pm.children.len() implies adds_up(rs, #[trigger] pm.children[i]) by {
                if i < om.children.len() {
                    assert(pm.children[i] == om.children[i]);
                }
            }
        }
    }
    let ghost s2 = slots@;
    slots.set(pi, Some(par));
    proof {
        lemma_slots_total_update(s2, pi as int, Some(par));
        let m1 = map@;
        let s3 = slots@;
        assert forall|k2: Seq<char>| #[trigger] m1.contains_key(k2) == in_table(rs, lvl, ji + 1, k2) by {
            lemma_first_with(rs, k2, n);
        }
        assert forall|k2: Seq<char>| #[trigger] m1.contains_key(k2) implies {
            let l = m1[k2] as int;
            &&& l == last_with(rs, k2, n)
            &&& s3[l] is Some
            &&& s3[l]->0.model() == node_with(rs, l, trees_of(rs, l, child_bound(rs, lvl, ji + 1, l)))
            &&& adds_up(rs, s3[l]->0.model())
        } by {
            let l = m1[k2] as int;
            lemma_last_with(rs, k2, n);
            if k2 != pkey {
                assert(m0.contains_key(k2));
                assert(l != ci as int);
                assert(l != pi as int);
                assert(s3[l] == s0[l]);
                if depth_at(rs, l) + 1 == lvl {
                    assert(!child_of(rs, ji, key_at(rs, l)));
                    assert(trees_of(rs, l, ji + 1) == trees_of(rs, l, ji));
                }
            }
        }
    }
}

/// The second phase of a scan: the tree of the walked paths for `root_path`. Paths are
/// folded into their parents deepest first, in walk order among equal depths; the root is the
/// node of the root's key, or an empty stand-in when the walk did not produce it (or folded it
/// into a parent).
pub fn build_tree(root_path: &str, raw: Vec<RawEntry>) -> (root: DirEntry)
    requires
        raw_total(raw@) <= u64::MAX,
    ensures
        root.model() == scan_root(raw@, root_path@),
        dirs_own_nothing(raw@) ==> sizes_consistent(root.model()),
{
    let ghost rs = raw@;
    let n = raw.len();
    let mut keys: Vec<String> = Vec::new();
    let mut pkeys: Vec<Option<String>> = Vec::new();
    let mut depths: Vec<usize> = Vec::new();
    let mut slots: Vec<Option<DirEntry>> = Vec::new();
    let mut map: StringHashMap<usize> = StringHashMap::new();
    let mut deepest: usize = 0;
    let mut k: usize = 0;
    while k < n
        invariant
            rs == raw@,
            n == rs.len(),
            k <= n,
            keys@.len() == k,
            pkeys@.len() == k,
            depths@.len() == k,
            slots@.len() == k,
            forall|i: int| 0 <= i < k ==> #[trigger] keys@[i]@ == key_at(rs, i),
            forall|i: int|
                0 <= i < k ==> match #[trigger] pkeys@[i] {
                    Some(pk) => parent_key_at(rs, i) == Some(pk@),
                    None => parent_key_at(rs, i) is None,
                },
            forall|i: int| 0 <= i < k ==> #[trigger] depths@[i] as int == depth_at(rs, i),
            deepest as int == max_depth(rs, k as int),
            forall|i: int|
                0 <= i < k ==> (#[trigger] slots@[i]) is Some && slots@[i]->0.children@.len() == 0
                    && slots@[i]->0.name@ == name_for(rs[i].path@) && slots@[i]->0.path@ == rs[i].path@
                    && slots@[i]->0.size == rs[i].size && slots@[i]->0.is_dir == rs[i].is_dir
                    && slots@[i]->0.flag is None,
            forall|key: Seq<char>| #[trigger] map@.contains_key(key) <==> last_with(rs, key, k as int) >= 0,
            forall|key: Seq<char>| #[trigger] map@.contains_key(key) ==> map@[key] as int == last_with(rs, key, k as int),
            slots_total(slots@) == raw_total(rs.subrange(0, k as int)),
        decreases n - k,
    {
        let p = raw[k].path.as_str();
        let key = path_key(p);
        let d = components(p).len();
        depths.push(d);
        if d > deepest {
            deepest = d;
        }
        let pk = match parent(p) {
            Some(q) => Some(path_key(q.as_str())),
            None => None,
        };
        pkeys.push(pk);
        map.insert(key.clone(), k);
        keys.push(key);
        let entry = DirEntry {
            name: entry_name(p),
            path: raw[k].path.clone(),
            size: raw[k].size,
            is_dir: raw[k].is_dir,
            children: Vec::new(),
            flag: None,
        };
        let ghost before = slots@;
        slots.push(Some(entry));
        proof {
            assert(slots@.drop_last() =~= before);
            assert(rs.subrange(0, k + 1).drop_last() =~= rs.subrange(0, k as int));
        }
        k += 1;
    }
    proof {
        assert(rs.subrange(0, n as int) =~= rs);
        lemma_max_depth(rs, n as int);
        let md = deepest as int;
        assert forall|key: Seq<char>| #[trigger] map@.contains_key(key) == in_table(rs, md, 0, key) by {
            lemma_first_with(rs, key, n as int);
            lemma_last_with(rs, key, n as int);
        }
        assert forall|key: Seq<char>| #[trigger] map@.contains_key(key) implies {
            let l = map@[key] as int;
            &&& l == last_with(rs, key, n as int)
            &&& slots@[l] is Some
            &&& slots@[l]->0.model() == node_with(rs, l, trees_of(rs, l, child_bound(rs, md, 0, l)))
            &&& adds_up(rs, slots@[l]->0.model())
        } by {
            let l = map@[key] as int;
            lemma_last_with(rs, key, n as int);
            let t = slots@[l]->0;
            lemma_model_seq(t.children@);
            assert(t.model().children =~= Seq::<EntryView>::empty());
            assert(adds_up(rs, t.model()));
            if depth_at(rs, l) + 1 > md {
                assert forall|i: int| 0 <= i < n implies !child_of(rs, i, key_at(rs, l)) by {
                    if child_of(rs, i, key_at(rs, l)) {
                        lemma_parent_depth(rs, i, l);
                    }
                }
                lemma_trees_none(rs, l, n as int);
            }
        }
        assert(table_ok(rs, md, 0, map@, slots@));
    }
    let mut level: usize = deepest;
    loop
        invariant_except_break
            table_ok(rs, level as int, 0, map@, slots@),
        invariant
            rs == raw@,
            n == rs.len(),
            keys_ok(rs, keys@, pkeys@, depths@),
            slots_total(slots@) <= raw_total(rs) <= u64::MAX,
        ensures
            table_ok(rs, 0, n as int, map@, slots@),
        decreases level,
    {
        let mut j: usize = 0;
        while j < n
            invariant
                rs == raw@,
                n == rs.len(),
                j <= n,
                keys_ok(rs, keys@, pkeys@, depths@),
                table_ok(rs, level as int, j as int, map@, slots@),
                slots_total(slots@) <= raw_total(rs) <= u64::MAX,
            decreases n - j,
        {
            if depths[j] == level {
                attach(j, Ghost(level as int), &keys, &pkeys, &depths, &mut slots, &mut map, &raw);
            } else {
                proof {
                    lemma_quiet_step(rs, level as int, j as int, map@, slots@);
                }
            }
            j += 1;
        }
        if level == 0 {
            break;
        }
        proof {
            lemma_next_level(rs, level as int, map@, slots@);
        }
        level = level - 1;
    }
    let root_key = path_key(root_path);
    let ghost rk = root_key@;
    proof {
        let first = first_with(rs, rk, n as int);
        let l = last_with(rs, rk, n as int);
        lemma_first_with(rs, rk, n as int);
        lemma_last_with(rs, rk, n as int);
        if l >= 0 {
            lemma_same_key(rs, first, l);
        }
    }
    match map.get(root_key.as_str()) {
        Some(ri) => {
            let ri = *ri;
            match take_slot(&mut slots, ri) {
                Some(root) => {
                    proof {
                        if dirs_own_nothing(rs) {
                            lemma_adds_up_consistent(rs, root.model());
                        }
                    }
                    return root;
                },
                None => {
                    proof {
                        assert(false);
                    }
                },
            }
        },
        None => {},
    }
    let root = DirEntry {
        name: entry_name(root_path),
        path: String::from_str(root_path),
        size: 0,
        is_dir: true,
        children: Vec::new(),
        flag: None,
    };
    proof {
        lemma_model_seq(root.children@);
        assert(root.model() =~= placeholder(root_path@));
    }
    root
}

} // verus!
