use vstd::prelude::*;
use vstd::hash_set::HashSetWithView;

use crate::fold::{build_tree, dirs_own_nothing, scan_root};
use crate::trash::sizes_consistent;
use crate::paths::{file_name, path_file_name};

verus! {

/// The two kinds of highlighted entries.
#[derive(Clone, Copy, Debug, PartialEq, Eq, Structural)]
pub enum Flag {
    Cache,
    Brew,
}

/// The mathematical model of a `DirEntry`: every string taken by its characters.
#[verifier::ext_equal]
pub struct EntryView {
    pub name: Seq<char>,
    pub path: Seq<char>,
    pub size: u64,
    pub is_dir: bool,
    pub flag: Option<Flag>,
    pub children: Seq<EntryView>,
}

/// One node of the scanned tree.
#[derive(Debug)]
pub struct DirEntry {
    pub name: String,
    pub path: String,
    pub size: u64,
    pub is_dir: bool,
    pub children: Vec<DirEntry>,
    pub flag: Option<Flag>,
}

/// The outcome of a scan: the tree, and how many entries could not be read.
pub struct ScanResult {
    pub root: DirEntry,
    pub skipped_count: usize,
}

impl DirEntry {
    pub open spec fn model(self) -> EntryView
        decreases self,
    {
        EntryView {
            name: self.name@,
            path: self.path@,
            size: self.size,
            is_dir: self.is_dir,
            flag: self.flag,
            children: Self::model_seq(self.children@),
        }
    }

    pub open spec fn model_seq(s: Seq<DirEntry>) -> Seq<EntryView>
        decreases s,
    {
        if s.len() == 0 {
            Seq::empty()
        } else {
            Self::model_seq(s.drop_last()).push(s.last().model())
        }
    }
}

/// The models of a sequence of entries, element by element.
pub proof fn lemma_model_seq(s: Seq<DirEntry>)
    ensures
        DirEntry::model_seq(s).len() == s.len(),
        forall|i: int| 0 <= i < s.len() ==> #[trigger] DirEntry::model_seq(s)[i] == s[i].model(),
    decreases s.len(),
{
    if s.len() > 0 {
        lemma_model_seq(s.drop_last());
    }
}

/// The elements of `v` in reverse order.
pub fn reversed<T>(v: Vec<T>) -> (r: Vec<T>)
    ensures
        r@.len() == v@.len(),
        forall|i: int| 0 <= i < v@.len() ==> #[trigger] r@[i] == v@[v@.len() - 1 - i],
{
    let ghost orig = v@;
    let mut src = v;
    let mut out: Vec<T> = Vec::new();
    while src.len() > 0
        invariant
            src@ == orig.subrange(0, src@.len() as int),
            out@.len() + src@.len() == orig.len(),
            forall|i: int| 0 <= i < out@.len() ==> #[trigger] out@[i] == orig[orig.len() - 1 - i],
        decreases src@.len(),
    {
        let x = src.pop().unwrap();
        out.push(x);
    }
    out
}

/// Sum of the sizes of a sequence of entries.
pub open spec fn sum_sizes(s: Seq<EntryView>) -> int
    decreases s.len(),
{
    if s.len() == 0 {
        0
    } else {
        sum_sizes(s.drop_last()) + s.last().size
    }
}

pub proof fn lemma_sum_sizes_push(s: Seq<EntryView>, x: EntryView)
    ensures
        sum_sizes(s.push(x)) == sum_sizes(s) + x.size,
{
    assert(s.push(x).drop_last() =~= s);
}

pub proof fn lemma_sum_sizes_nonneg(s: Seq<EntryView>)
    ensures
        sum_sizes(s) >= 0,
    decreases s.len(),
{
    if s.len() > 0 {
        lemma_sum_sizes_nonneg(s.drop_last());
    }
}

/// Inserting an entry anywhere adds its size to the sum.
pub proof fn lemma_sum_sizes_insert(s: Seq<EntryView>, p: int, x: EntryView)
    requires
        0 <= p <= s.len(),
    ensures
        sum_sizes(s.insert(p, x)) == sum_sizes(s) + x.size,
    decreases s.len(),
{
    if p == s.len() {
        assert(s.insert(p, x) =~= s.push(x));
        lemma_sum_sizes_push(s, x);
    } else {
        assert(s.insert(p, x).drop_last() =~= s.drop_last().insert(p, x));
        assert(s.insert(p, x).last() == s.last());
        lemma_sum_sizes_insert(s.drop_last(), p, x);
    }
}

/// Every field but `children` agrees.
pub open spec fn same_fields(a: EntryView, b: EntryView) -> bool {
    &&& a.name == b.name
    &&& a.path == b.path
    &&& a.size == b.size
    &&& a.is_dir == b.is_dir
    &&& a.flag == b.flag
}

/// Sizes never increase along `s`.
pub open spec fn sizes_descending(s: Seq<EntryView>) -> bool {
    forall|i: int, j: int| 0 <= i < j < s.len() ==> s[i].size >= s[j].size
}

/// `perm` lists, for each position of `out`, the position in the input it came from:
/// a one-to-one reordering into descending size that keeps equal sizes in input order.
pub open spec fn stable_desc_order(out: Seq<EntryView>, perm: Seq<int>, n: nat) -> bool {
    &&& perm.len() == n
    &&& out.len() == n
    &&& forall|k: int| 0 <= k < n ==> 0 <= #[trigger] perm[k] < n
    &&& forall|k: int, l: int| 0 <= k < l < n ==> perm[k] != perm[l]
    &&& sizes_descending(out)
    &&& forall|k: int, l: int|
        0 <= k < l < n && out[k].size == out[l].size ==> perm[k] < perm[l]
}

/// `out` is `inp` with the children of every node stably sorted by descending size.
pub open spec fn tree_sorted(out: EntryView, inp: EntryView) -> bool
    decreases inp,
{
    &&& same_fields(out, inp)
    &&& exists|perm: Seq<int>|
        #[trigger] stable_desc_order(out.children, perm, inp.children.len()) && forall|k: int|
            0 <= k < inp.children.len() ==> 0 <= perm[k] < inp.children.len() && tree_sorted(
                #[trigger] out.children[k],
                inp.children[perm[k]],
            )
}

/// A one-to-one map of `[0, n)` into itself reaches every position.
proof fn lemma_perm_onto(perm: Seq<int>, n: nat)
    requires
        perm.len() == n,
        forall|k: int| 0 <= k < n ==> 0 <= #[trigger] perm[k] < n,
        forall|k: int, l: int| 0 <= k < l < n ==> perm[k] != perm[l],
    ensures
        forall|v: int| 0 <= v < n ==> #[trigger] perm.contains(v),
{
    assert(perm.no_duplicates()) by {
        assert forall|i: int, j: int| 0 <= i < perm.len() && 0 <= j < perm.len() && i != j implies perm[i]
            != perm[j] by {
            if i > j {
                assert(perm[j] != perm[i]);
            }
        }
    }
    perm.unique_seq_to_set();
    let range = vstd::set_lib::set_int_range(0, n as int);
    vstd::set_lib::lemma_int_range(0, n as int);
    assert(perm.to_set().subset_of(range));
    vstd::set_lib::lemma_len_subset(perm.to_set(), range);
    vstd::set_lib::lemma_subset_equality(perm.to_set(), range);
    assert forall|v: int| 0 <= v < n implies #[trigger] perm.contains(v) by {
        assert(range.contains(v));
        assert(perm.to_set().contains(v));
    }
}

/// A stable descending reordering of a sequence that is already descending moves nothing:
/// the first `m` positions stay where they are.
proof fn lemma_stable_order_fixed(out: Seq<EntryView>, inp: Seq<EntryView>, perm: Seq<int>, m: int)
    requires
        0 <= m <= inp.len(),
        sizes_descending(inp),
        stable_desc_order(out, perm, inp.len()),
        forall|k: int| 0 <= k < inp.len() ==> #[trigger] out[k].size == inp[perm[k]].size,
    ensures
        forall|k: int| 0 <= k < m ==> #[trigger] perm[k] == k,
    decreases m,
{
    if m > 0 {
        let n = inp.len();
        lemma_stable_order_fixed(out, inp, perm, m - 1);
        let k = m - 1;
        let v = perm[k];
        lemma_perm_onto(perm, n);
        if v < k {
            assert(perm[v] == v);
        }
        if v > k {
            assert(perm.contains(k));
            let l = choose|l: int| 0 <= l < perm.len() && #[trigger] perm[l] == k;
            if l < k {
                assert(perm[l] == l);
            }
            assert(l > k);
            assert(out[k].size >= out[l].size);
            assert(inp[k].size >= inp[v].size);
            assert(out[k].size == out[l].size);
            assert(perm[k] < perm[l]);
        }
    }
}

/// Sorting an already sorted tree changes nothing: sorting twice gives the tree of sorting
/// once.
pub proof fn law_sorting_twice_changes_nothing(x: EntryView, a: EntryView, b: EntryView)
    requires
        tree_sorted(a, x),
        tree_sorted(b, a),
    ensures
        b == a,
    decreases x,
{
    let n = a.children.len();
    let pa = choose|perm: Seq<int>|
        #[trigger] stable_desc_order(a.children, perm, x.children.len()) && forall|k: int|
            0 <= k < x.children.len() ==> 0 <= perm[k] < x.children.len() && tree_sorted(
                #[trigger] a.children[k],
                x.children[perm[k]],
            );
    let pb = choose|perm: Seq<int>|
        #[trigger] stable_desc_order(b.children, perm, a.children.len()) && forall|k: int|
            0 <= k < a.children.len() ==> 0 <= perm[k] < a.children.len() && tree_sorted(
                #[trigger] b.children[k],
                a.children[perm[k]],
            );
    assert forall|k: int| 0 <= k < n implies #[trigger] b.children[k].size == a.children[pb[k]].size by {
        assert(tree_sorted(b.children[k], a.children[pb[k]]));
    }
    lemma_stable_order_fixed(b.children, a.children, pb, n as int);
    assert forall|k: int| 0 <= k < n implies #[trigger] b.children[k] == a.children[k] by {
        assert(pb[k] == k);
        assert(tree_sorted(b.children[k], a.children[k]));
        assert(tree_sorted(a.children[k], x.children[pa[k]]));
        law_sorting_twice_changes_nothing(x.children[pa[k]], a.children[k], b.children[k]);
    }
    assert(b.children =~= a.children);
    assert(b =~= a);
}

/// First position in `sorted` (descending by size) whose size is at most `size`.
fn insert_position(sorted: &Vec<DirEntry>, size: u64) -> (p: usize)
    requires
        forall|i: int, j: int| 0 <= i < j < sorted@.len() ==> sorted@[i].size >= sorted@[j].size,
    ensures
        p <= sorted@.len(),
        forall|i: int| 0 <= i < p ==> sorted@[i].size > size,
        forall|i: int| p <= i < sorted@.len() ==> sorted@[i].size <= size,
{
    let mut lo: usize = 0;
    let mut hi: usize = sorted.len();
    while lo < hi
        invariant
            lo <= hi <= sorted@.len(),
            forall|i: int, j: int| 0 <= i < j < sorted@.len() ==> sorted@[i].size >= sorted@[j].size,
            forall|i: int| 0 <= i < lo ==> sorted@[i].size > size,
            forall|i: int| hi <= i < sorted@.len() ==> sorted@[i].size <= size,
        decreases hi - lo,
    {
        let mid = lo + (hi - lo) / 2;
        if sorted[mid].size > size {
            lo = mid + 1;
        } else {
            hi = mid;
        }
    }
    lo
}

/// Sorts the children of `entry`, and of all its descendants, by descending size.
/// Entries of equal size keep their order.
pub fn sort_children_by_size(entry: &mut DirEntry)
    ensures
        tree_sorted(final(entry).model(), old(entry).model()),
        sizes_consistent(old(entry).model()) ==> sizes_consistent(final(entry).model()),
    decreases *old(entry),
{
    let mut kids: Vec<DirEntry> = Vec::new();
    std::mem::swap(&mut kids, &mut entry.children);
    let ghost orig = kids@;
    proof {
        lemma_model_seq(orig);
    }
    let mut sorted: Vec<DirEntry> = Vec::new();
    let ghost mut idx: Seq<int> = Seq::empty();
    while kids.len() > 0
        invariant
            orig == old(entry).children@,
            kids@ == orig.subrange(0, kids@.len() as int),
            idx.len() == sorted@.len(),
            sorted@.len() + kids@.len() == orig.len(),
            forall|k: int| 0 <= k < idx.len() ==> kids@.len() <= #[trigger] idx[k] < orig.len(),
            forall|k: int, l: int| 0 <= k < l < idx.len() ==> idx[k] != idx[l],
            forall|i: int, j: int| 0 <= i < j < sorted@.len() ==> sorted@[i].size >= sorted@[j].size,
            forall|k: int, l: int|
                0 <= k < l < idx.len() && sorted@[k].size == sorted@[l].size ==> idx[k] < idx[l],
            forall|k: int|
                0 <= k < idx.len() ==> tree_sorted(
                    #[trigger] sorted@[k].model(),
                    orig[idx[k]].model(),
                ),
            forall|k: int|
                0 <= k < idx.len() ==> (sizes_consistent(orig[idx[k]].model()) ==> sizes_consistent(
                    #[trigger] sorted@[k].model(),
                )),
            sum_sizes(DirEntry::model_seq(sorted@)) + sum_sizes(DirEntry::model_seq(kids@)) == sum_sizes(
                DirEntry::model_seq(orig),
            ),
        decreases kids@.len(),
    {
        let ghost m = kids@.len() - 1;
        let ghost kids_before = kids@;
        let ghost sorted_before = sorted@;
        let mut child = kids.pop().unwrap();
        assert(child == orig[m]);
        assert(decreases_to!(*old(entry) => old(entry).children));
        assert(decreases_to!(old(entry).children => old(entry).children@));
        assert(decreases_to!(old(entry).children@ => orig[m]));
        sort_children_by_size(&mut child);
        let p = insert_position(&sorted, child.size);
        let ghost placed = child;
        sorted.insert(p, child);
        proof {
            idx = idx.insert(p as int, m);
            assert(kids@ =~= kids_before.drop_last());
            assert(DirEntry::model_seq(kids_before) == DirEntry::model_seq(kids@).push(orig[m].model()));
            lemma_sum_sizes_push(DirEntry::model_seq(kids@), orig[m].model());
            lemma_model_seq(sorted_before);
            lemma_model_seq(sorted@);
            assert(DirEntry::model_seq(sorted@) =~= DirEntry::model_seq(sorted_before).insert(
                p as int,
                placed.model(),
            ));
            lemma_sum_sizes_insert(DirEntry::model_seq(sorted_before), p as int, placed.model());
        }
    }
    entry.children = sorted;
    proof {
        lemma_model_seq(entry.children@);
        let out = entry.model();
        let inp = old(entry).model();
        assert(stable_desc_order(out.children, idx, inp.children.len()));
        assert forall|k: int| 0 <= k < inp.children.len() implies 0 <= idx[k] < inp.children.len()
            && tree_sorted(#[trigger] out.children[k], inp.children[idx[k]]) by {
            assert(out.children[k] == entry.children@[k].model());
        }
        if sizes_consistent(inp) {
            assert forall|k: int| 0 <= k < out.children.len() implies sizes_consistent(
                #[trigger] out.children[k],
            ) by {
                assert(out.children[k] == entry.children@[k].model());
                assert(sizes_consistent(inp.children[idx[k]]));
            }
        }
    }
}

/// What the filesystem reported for one file: device, inode, and allocated 512-byte blocks.
#[derive(Clone, Copy, Debug)]
pub struct FileMeta {
    pub dev: u64,
    pub ino: u64,
    pub blocks: u64,
}

/// One step of the directory walk, as the caller read it from the filesystem.
pub enum WalkRecord {
    /// The walk could not read this entry.
    Unreadable,
    /// An entry of the walk. `meta` is read only for entries that are neither directories nor
    /// symbolic links; `None` there means reading it failed.
    Found { path: String, is_dir: bool, is_symlink: bool, meta: Option<FileMeta> },
}

/// An entry of the walk with its own size, before the tree is built.
pub struct RawEntry {
    pub path: String,
    pub is_dir: bool,
    pub size: u64,
}

/// A regular entry (neither directory nor symbolic link) whose metadata could be read.
pub open spec fn is_sized_file(r: WalkRecord) -> bool {
    r matches WalkRecord::Found { is_dir, is_symlink, meta, .. } && !is_dir && !is_symlink && meta is Some
}

/// The (device, inode) pair of a sized file.
pub open spec fn inode_of(r: WalkRecord) -> (u64, u64) {
    match r {
        WalkRecord::Found { meta: Some(m), .. } => (m.dev, m.ino),
        _ => (0, 0),
    }
}

/// Record `i` is the first sized file of its (device, inode): hard links to an inode seen
/// before count nothing.
pub open spec fn first_link(recs: Seq<WalkRecord>, i: int) -> bool {
    &&& is_sized_file(recs[i])
    &&& forall|j: int| 0 <= j < i && is_sized_file(#[trigger] recs[j]) ==> inode_of(recs[j]) != inode_of(recs[i])
}

/// The disk usage that record `i` contributes: its allocated blocks times 512 for the first
/// link of an inode, nothing for directories, symbolic links, later links and unreadable
/// metadata.
pub open spec fn own_size(recs: Seq<WalkRecord>, i: int) -> int {
    if first_link(recs, i) {
        match recs[i] {
            WalkRecord::Found { meta: Some(m), .. } => m.blocks * 512,
            _ => 0,
        }
    } else {
        0
    }
}

/// The record could not be used: the walk failed on it, or the metadata of a regular entry
/// could not be read.
pub open spec fn is_skipped(r: WalkRecord) -> bool {
    ||| r is Unreadable
    ||| r matches WalkRecord::Found { is_dir, is_symlink, meta, .. } && !is_dir && !is_symlink && meta is None
}

/// How many of the first `n` records were skipped.
pub open spec fn skipped_upto(recs: Seq<WalkRecord>, n: int) -> int
    decreases n,
{
    if n <= 0 {
        0
    } else {
        skipped_upto(recs, n - 1) + if is_skipped(recs[n - 1]) { 1int } else { 0int }
    }
}

/// The disk usage counted over the first `n` records.
pub open spec fn total_upto(recs: Seq<WalkRecord>, n: int) -> int
    decreases n,
{
    if n <= 0 {
        0
    } else {
        total_upto(recs, n - 1) + own_size(recs, n - 1)
    }
}

/// The positions of the `Found` records among the first `n`.
pub open spec fn found_upto(recs: Seq<WalkRecord>, n: int) -> Seq<int>
    decreases n,
{
    if n <= 0 {
        Seq::empty()
    } else if recs[n - 1] is Found {
        found_upto(recs, n - 1).push(n - 1)
    } else {
        found_upto(recs, n - 1)
    }
}

/// `raw` lists, in walk order, every `Found` record with its path, kind and own size.
pub open spec fn raw_entries_of(raw: Seq<RawEntry>, recs: Seq<WalkRecord>) -> bool {
    let f = found_upto(recs, recs.len() as int);
    &&& raw.len() == f.len()
    &&& forall|k: int|
        0 <= k < raw.len() ==> {
            let i = f[k];
            &&& 0 <= i < recs.len()
            &&& recs[i] matches WalkRecord::Found { path, is_dir, .. } && (#[trigger] raw[k]).path@ == path@
                && raw[k].is_dir == is_dir
            &&& raw[k].size == own_size(recs, i)
        }
}

proof fn lemma_found_upto_bounds(recs: Seq<WalkRecord>, n: int)
    requires
        0 <= n <= recs.len(),
    ensures
        forall|k: int|
            0 <= k < found_upto(recs, n).len() ==> 0 <= #[trigger] found_upto(recs, n)[k] < n
                && recs[found_upto(recs, n)[k]] is Found,
    decreases n,
{
    if n > 0 {
        lemma_found_upto_bounds(recs, n - 1);
    }
}

proof fn lemma_own_size_nonneg(recs: Seq<WalkRecord>, i: int)
    ensures
        own_size(recs, i) >= 0,
{
    if first_link(recs, i) {
        match recs[i] {
            WalkRecord::Found { meta: Some(m), .. } => {
                assert(m.blocks * 512 >= 0) by (nonlinear_arith)
                    requires
                        m.blocks >= 0,
                ;
            },
            _ => {},
        }
    }
}

proof fn lemma_total_monotone(recs: Seq<WalkRecord>, i: int, n: int)
    requires
        0 <= i <= n,
    ensures
        total_upto(recs, i) <= total_upto(recs, n),
    decreases n - i,
{
    if i < n {
        lemma_total_monotone(recs, i, n - 1);
        lemma_own_size_nonneg(recs, n - 1);
    }
}

/// Each inode is counted once: of two sized files with the same (device, inode), the later
/// in the walk contributes nothing; directories, symbolic links and unreadable files
/// contribute nothing; the first link of an inode contributes its blocks times 512.
pub proof fn law_each_inode_counted_once(recs: Seq<WalkRecord>, i: int, j: int)
    requires
        0 <= i < j < recs.len(),
    ensures
        is_sized_file(recs[i]) && is_sized_file(recs[j]) && inode_of(recs[i]) == inode_of(recs[j])
            ==> own_size(recs, j) == 0,
        !is_sized_file(recs[j]) ==> own_size(recs, j) == 0,
        first_link(recs, j) ==> own_size(recs, j) == match recs[j] {
            WalkRecord::Found { meta: Some(m), .. } => m.blocks * 512,
            _ => 0,
        },
{
}

/// The skipped count grows by one exactly for a record the walk could not read, or for a
/// regular entry whose metadata could not be read; a directory, a symbolic link, and a file
/// with readable metadata (a first link or a later hard link alike) never add to it.
pub proof fn law_skipped_counts_unreadable_only(recs: Seq<WalkRecord>, i: int)
    requires
        0 <= i < recs.len(),
    ensures
        recs[i] is Unreadable ==> skipped_upto(recs, i + 1) == skipped_upto(recs, i) + 1,
        recs[i] matches WalkRecord::Found { is_dir, is_symlink, meta, .. } ==> skipped_upto(recs, i + 1)
            == skipped_upto(recs, i) + if !is_dir && !is_symlink && meta is None {
            1int
        } else {
            0int
        },
        skipped_upto(recs, i) <= skipped_upto(recs, i + 1) <= skipped_upto(recs, i) + 1,
{
}

/// The (device, inode) pair packed into one number.
fn inode_key(m: FileMeta) -> (k: u128)
    ensures
        k == m.dev as int * 0x1_0000_0000_0000_0000 + m.ino as int,
{
    (m.dev as u128) * 0x1_0000_0000_0000_0000u128 + (m.ino as u128)
}

proof fn lemma_inode_key_injective(a: FileMeta, b: FileMeta)
    requires
        a.dev as int * 0x1_0000_0000_0000_0000 + a.ino as int == b.dev as int
            * 0x1_0000_0000_0000_0000 + b.ino as int,
    ensures
        a.dev == b.dev && a.ino == b.ino,
{
    assert(a.dev == b.dev && a.ino == b.ino) by (nonlinear_arith)
        requires
            a.dev as int * 0x1_0000_0000_0000_0000 + a.ino as int == b.dev as int
                * 0x1_0000_0000_0000_0000 + b.ino as int,
            0 <= a.ino < 0x1_0000_0000_0000_0000,
            0 <= b.ino < 0x1_0000_0000_0000_0000,
            0 <= a.dev,
            0 <= b.dev,
    ;
}

/// The first phase of a scan: the own size of every walked entry, with hard links counted
/// once, and how many records were skipped. `None` exactly when the counted usage does not
/// fit in a `u64`.
pub fn collect_raw(records: &Vec<WalkRecord>) -> (r: Option<(Vec<RawEntry>, usize)>)
    ensures
        r is Some <==> total_upto(records@, records@.len() as int) <= u64::MAX,
        r matches Some((raw, skipped)) ==> raw_entries_of(raw@, records@) && skipped == skipped_upto(
            records@,
            records@.len() as int,
        ) && raw_total(raw@) == total_upto(records@, records@.len() as int),
{
    let ghost recs = records@;
    let n = records.len();
    let mut raw: Vec<RawEntry> = Vec::new();
    let mut skipped: usize = 0;
    let mut total: u64 = 0;
    let mut seen: HashSetWithView<u128> = HashSetWithView::new();
    let mut i: usize = 0;
    while i < n
        invariant
            n == recs.len(),
            recs == records@,
            i <= n,
            skipped == skipped_upto(recs, i as int),
            skipped <= i,
            total == total_upto(recs, i as int),
            raw_total(raw@) == total,
            forall|key: u128|
                #[trigger] seen@.contains(key) <==> exists|j: int|
                    0 <= j < i && is_sized_file(recs[j]) && key == inode_of(recs[j]).0 as int
                        * 0x1_0000_0000_0000_0000 + inode_of(recs[j]).1 as int,
            raw@.len() == found_upto(recs, i as int).len(),
            forall|k: int|
                0 <= k < raw@.len() ==> {
                    let j = found_upto(recs, i as int)[k];
                    &&& recs[j] matches WalkRecord::Found { path, is_dir, .. } && (#[trigger] raw@[k]).path@
                        == path@ && raw@[k].is_dir == is_dir
                    &&& raw@[k].size == own_size(recs, j)
                },
        decreases n - i,
    {
        proof {
            lemma_found_upto_bounds(recs, i as int);
        }
        match &records[i] {
            WalkRecord::Unreadable => {
                skipped = skipped + 1;
            },
            WalkRecord::Found { path, is_dir, is_symlink, meta } => {
                let size: u64 = if *is_symlink || *is_dir {
                    0
                } else {
                    match meta {
                        Some(m) => {
                            let key = inode_key(*m);
                            let fresh = seen.insert(key);
                            proof {
                                assert(first_link(recs, i as int) == fresh) by {
                                    if !fresh {
                                        let j = choose|j: int|
                                            0 <= j < i && is_sized_file(recs[j]) && key == inode_of(recs[j]).0 as int
                                                * 0x1_0000_0000_0000_0000 + inode_of(recs[j]).1 as int;
                                        let mj = match recs[j] {
                                            WalkRecord::Found { meta: Some(mm), .. } => mm,
                                            _ => *m,
                                        };
                                        lemma_inode_key_injective(mj, *m);
                                    }
                                }
                            }
                            if fresh {
                                if m.blocks > u64::MAX / 512 {
                                    proof {
                                        lemma_total_monotone(recs, i + 1, n as int);
                                        lemma_total_monotone(recs, 0, i as int);
                                        assert(total_upto(recs, 0) == 0);
                                    }
                                    return None;
                                }
                                m.blocks * 512
                            } else {
                                0
                            }
                        },
                        None => {
                            skipped = skipped + 1;
                            0
                        },
                    }
                };
                assert(size == own_size(recs, i as int));
                if total > u64::MAX - size {
                    proof {
                        lemma_total_monotone(recs, i + 1, n as int);
                    }
                    return None;
                }
                total = total + size;
                let ghost before = raw@;
                raw.push(RawEntry { path: path.clone(), is_dir: *is_dir, size });
                proof {
                    assert(raw@.drop_last() =~= before);
                    assert(found_upto(recs, i + 1) == found_upto(recs, i as int).push(i as int));
                    assert forall|k: int| 0 <= k < raw@.len() implies {
                        let j = found_upto(recs, i + 1)[k];
                        &&& recs[j] matches WalkRecord::Found { path, is_dir, .. } && (#[trigger] raw@[k]).path@
                            == path@ && raw@[k].is_dir == is_dir
                        &&& raw@[k].size == own_size(recs, j)
                    } by {
                        if k < before.len() {
                            assert(raw@[k] == before[k]);
                        }
                    }
                }
            },
        }
        i += 1;
    }
    proof {
        lemma_found_upto_bounds(recs, n as int);
    }
    Some((raw, skipped))
}

/// The entries of a walk own no size for directories.
pub proof fn lemma_raw_dirs_own_nothing(raw: Seq<RawEntry>, recs: Seq<WalkRecord>)
    requires
        raw_entries_of(raw, recs),
    ensures
        dirs_own_nothing(raw),
{
    assert forall|k: int| 0 <= k < raw.len() && (#[trigger] raw[k]).is_dir implies raw[k].size == 0 by {
        let i = found_upto(recs, recs.len() as int)[k];
        assert(!first_link(recs, i));
    }
}

/// Sum of the own sizes of raw entries.
pub open spec fn raw_total(raw: Seq<RawEntry>) -> int
    decreases raw.len(),
{
    if raw.len() == 0 {
        0
    } else {
        raw_total(raw.drop_last()) + raw.last().size
    }
}

/// The name shown for a path: its file name, or the whole path when it has none.
pub open spec fn name_for(p: Seq<char>) -> Seq<char> {
    match path_file_name(p) {
        Some(n) => n,
        None => p,
    }
}

/// The name shown for `p` (see `name_for`).
pub fn entry_name(p: &str) -> (n: String)
    ensures
        n@ == name_for(p@),
{
    match file_name(p) {
        Some(n) => n,
        None => String::from_str(p),
    }
}

/// The computing part of a scan, from the records of the directory walk of `root_path`:
/// own sizes with hard links counted once, the tree folded bottom-up, children sorted by
/// descending size at every level, and the number of skipped records. `None` exactly when the
/// counted disk usage does not fit in a `u64`.
pub fn build_scan(root_path: &str, records: &Vec<WalkRecord>) -> (r: Option<ScanResult>)
    ensures
        r is Some <==> total_upto(records@, records@.len() as int) <= u64::MAX,
        r matches Some(res) ==> {
            &&& res.skipped_count == skipped_upto(records@, records@.len() as int)
            &&& sizes_consistent(res.root.model())
            &&& exists|raw: Seq<RawEntry>|
                #[trigger] raw_entries_of(raw, records@) && tree_sorted(
                    res.root.model(),
                    scan_root(raw, root_path@),
                )
        },
{
    let (raw, skipped) = match collect_raw(records) {
        Some(x) => x,
        None => {
            return None;
        },
    };
    let ghost raw_model = raw@;
    proof {
        lemma_raw_dirs_own_nothing(raw_model, records@);
    }
    let mut root = build_tree(root_path, raw);
    sort_children_by_size(&mut root);
    proof {
        assert(raw_entries_of(raw_model, records@) && tree_sorted(
            root.model(),
            scan_root(raw_model, root_path@),
        ));
    }
    Some(ScanResult { root, skipped_count: skipped })
}

} // verus!
