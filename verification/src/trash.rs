use vstd::prelude::*;

use crate::pathkey::lemma_decimal_digits;
use crate::paths::{
    extension, file_name, file_stem, join, last_dot, law_join_plain_name, lemma_file_name_plain,
    path_components,
    path_equal, path_exists, path_extension, path_file_name, path_file_stem, path_join,
    paths_equal, plain_name,
};
use crate::text::{decimal, push_char, push_decimal};
use crate::scanner::{
    DirEntry, EntryView, lemma_model_seq, lemma_sum_sizes_nonneg, lemma_sum_sizes_push, reversed,
    sum_sizes,
};

verus! {

/// Why moving an entry to the Trash failed.
#[derive(Debug)]
pub enum TrashError {
    OperationFailed(String),
}

/// The text carried by a `TrashError`.
pub open spec fn error_message(e: TrashError) -> Seq<char> {
    match e {
        TrashError::OperationFailed(m) => m@,
    }
}

/// What `str`'s `Debug` shows for `s`: the text in double quotes, with quotes, backslashes
/// and characters that are not printable escaped.
pub uninterp spec fn str_debug_text(s: Seq<char>) -> Seq<char>;

/// Formats `s` with `str`'s `Debug` (`{:?}`). The escaping rules of `char::escape_debug`
/// take pages, so the contract only names the result.
#[verifier::external_body]
fn debug_str(s: &str) -> (r: String)
    ensures
        r@ == str_debug_text(s@),
{
    format!("{:?}", s)
}

/// What `{:?}` shows for a `TrashError`: the variant's name and, in parentheses, its message
/// as `str`'s `Debug` shows it.
pub open spec fn error_debug_text(e: TrashError) -> Seq<char> {
    "OperationFailed("@ + str_debug_text(error_message(e)) + ")"@
}

/// The `{:?}` text of `e` (see `error_debug_text`).
pub fn error_debug(e: &TrashError) -> (r: String)
    ensures
        r@ == error_debug_text(*e),
{
    match e {
        TrashError::OperationFailed(m) => {
            let mut r = String::from_str("OperationFailed(");
            let quoted = debug_str(m.as_str());
            r.append(quoted.as_str());
            r.append(")");
            r
        },
    }
}

/// The name of the `attempt`-th candidate in the Trash for `file_name`: the name itself
/// first, then `"<stem> <attempt><.ext>"` for attempts 2, 3, ...
pub open spec fn candidate_name(file_name: Seq<char>, attempt: nat) -> Seq<char> {
    if attempt <= 1 {
        file_name
    } else {
        let stem = match path_file_stem(file_name) {
            Some(s) => s,
            None => Seq::empty(),
        };
        let ext = match path_extension(file_name) {
            Some(e) => seq!['.'] + e,
            None => Seq::empty(),
        };
        stem + seq![' '] + decimal(attempt) + ext
    }
}

/// The `attempt`-th candidate path in `trash_dir` for `file_name` (see `candidate_name`).
pub fn trash_candidate(trash_dir: &str, file_name: &str, attempt: u32) -> (r: String)
    ensures
        r@ == path_join(trash_dir@, candidate_name(file_name@, attempt as nat)),
{
    if attempt <= 1 {
        return join(trash_dir, file_name);
    }
    let mut name = match file_stem(file_name) {
        Some(s) => s,
        None => String::new(),
    };
    push_char(&mut name, ' ');
    push_decimal(&mut name, attempt as u64);
    match extension(file_name) {
        Some(e) => {
            push_char(&mut name, '.');
            name.append(e.as_str());
        },
        None => {},
    }
    proof {
        let stem = match path_file_stem(file_name@) {
            Some(s) => s,
            None => Seq::empty(),
        };
        let ext = match path_extension(file_name@) {
            Some(e) => seq!['.'] + e,
            None => Seq::empty(),
        };
        assert(name@ =~= stem + seq![' '] + decimal(attempt as nat) + ext);
    }
    join(trash_dir, name.as_str())
}

/// The position of the first `false` among `taken`, if there is one.
pub open spec fn first_false(taken: Seq<bool>) -> Option<int>
    decreases taken.len(),
{
    if taken.len() == 0 {
        None
    } else {
        match first_false(taken.drop_last()) {
            Some(k) => Some(k),
            None => if taken.last() {
                None
            } else {
                Some(taken.len() - 1)
            },
        }
    }
}

/// `first_false` finds a `false` with only `true` before it, and `None` means all are `true`.
pub proof fn lemma_first_false(taken: Seq<bool>)
    ensures
        match first_false(taken) {
            Some(k) => 0 <= k < taken.len() && !taken[k] && forall|j: int| 0 <= j < k ==> taken[j],
            None => forall|j: int| 0 <= j < taken.len() ==> taken[j],
        },
    decreases taken.len(),
{
    if taken.len() > 0 {
        let d = taken.drop_last();
        lemma_first_false(d);
        assert(forall|j: int| 0 <= j < d.len() ==> d[j] == taken[j]);
    }
}

/// The first position whose answer is `false` (a free name), if any.
pub fn first_free(taken: &Vec<bool>) -> (r: Option<usize>)
    ensures
        r matches Some(k) ==> k < taken@.len() && !taken@[k as int] && forall|j: int|
            0 <= j < k ==> taken@[j],
        r is None ==> forall|j: int| 0 <= j < taken@.len() ==> taken@[j],
        r matches Some(k) ==> first_false(taken@) == Some(k as int),
        r is None ==> first_false(taken@) is None,
{
    proof {
        lemma_first_false(taken@);
    }
    let n = taken.len();
    let mut i: usize = 0;
    while i < n
        invariant
            n == taken@.len(),
            i <= n,
            forall|j: int| 0 <= j < i ==> taken@[j],
        decreases n - i,
    {
        if !taken[i] {
            proof {
                lemma_first_false(taken@);
                if let Some(k) = first_false(taken@) {
                    if k < i as int {
                        assert(taken@[k]);
                    } else if k > i as int {
                        assert(taken@[i as int]);
                    }
                }
            }
            return Some(i);
        }
        i += 1;
    }
    None
}

/// The Trash path chosen from the answers for the candidates `1, 2, ...` in order
/// (`taken[j]` says whether candidate `j + 1` exists): the first free candidate, or nothing
/// when every answered candidate exists.
pub open spec fn trash_choice(trash_dir: Seq<char>, file_name: Seq<char>, taken: Seq<bool>) -> Option<Seq<char>> {
    match first_false(taken) {
        Some(k) => Some(path_join(trash_dir, candidate_name(file_name, (k + 1) as nat))),
        None => None,
    }
}

/// Picks the Trash path from the existence answers for the candidates `1, 2, ...` of
/// `trash_candidate`, in order: the first candidate that does not exist.
pub fn pick_trash_path(trash_dir: &str, file_name: &str, taken: &Vec<bool>) -> (r: Option<String>)
    requires
        taken@.len() < u32::MAX,
    ensures
        match r {
            Some(p) => trash_choice(trash_dir@, file_name@, taken@) == Some(p@),
            None => trash_choice(trash_dir@, file_name@, taken@) is None,
        },
{
    match first_free(taken) {
        Some(k) => Some(trash_candidate(trash_dir, file_name, (k + 1) as u32)),
        None => None,
    }
}

proof fn lemma_last_dot_bound(s: Seq<char>, m: int)
    requires
        0 <= m,
    ensures
        -1 <= last_dot(s, m) < m,
    decreases m,
{
    if m > 0 {
        lemma_last_dot_bound(s, m - 1);
    }
}

/// Every Trash candidate for a plain name is a plain name too.
proof fn lemma_candidate_plain(file_name: Seq<char>, attempt: nat)
    requires
        plain_name(file_name),
    ensures
        plain_name(candidate_name(file_name, attempt)),
{
    if attempt > 1 {
        reveal_strlit(".");
        reveal_strlit("..");
        reveal_strlit("/");
        law_join_plain_name(Seq::empty(), file_name);
        assert(path_join(Seq::empty(), file_name) =~= file_name);
        assert(path_components(Seq::<char>::empty()) =~= Seq::<Seq<char>>::empty()) by {
            reveal(crate::paths::path_components);
            assert(Seq::<char>::empty().skip(0) =~= Seq::<char>::empty());
        }
        assert(path_components(file_name) =~= seq![file_name]);
        if file_name == "/"@ {
            assert(file_name[0] == '/');
        }
        assert(path_file_name(file_name) == Some(file_name));
        let i = last_dot(file_name, file_name.len() as int);
        lemma_last_dot_bound(file_name, file_name.len() as int);
        let stem = match path_file_stem(file_name) {
            Some(s) => s,
            None => Seq::empty(),
        };
        let ext = match path_extension(file_name) {
            Some(e) => seq!['.'] + e,
            None => Seq::empty(),
        };
        lemma_decimal_digits(attempt);
        let c = candidate_name(file_name, attempt);
        assert(c == stem + seq![' '] + decimal(attempt) + ext);
        assert(stem.len() >= 1);
        assert forall|k: int| 0 <= k < c.len() implies c[k] != '/' by {
            if k < stem.len() {
                assert(c[k] == stem[k]);
            } else if k == stem.len() {
                assert(c[k] == ' ');
            } else if k < stem.len() + 1 + decimal(attempt).len() {
                assert(c[k] == decimal(attempt)[k - stem.len() - 1]);
            } else {
                let e = k - stem.len() - 1 - decimal(attempt).len();
                assert(c[k] == ext[e]);
                if e > 0 {
                    assert(ext[e] == file_name[i + e]);
                }
            }
        }
    }
}

/// The Trash path chosen from any answers, for a plain file name, lies directly in the Trash
/// directory: its components are the directory's and then one plain name.
pub proof fn law_trash_choice_lies_in_trash_dir(trash_dir: Seq<char>, file_name: Seq<char>, taken: Seq<bool>)
    requires
        plain_name(file_name),
        trash_choice(trash_dir, file_name, taken) is Some,
    ensures
        path_components(trash_choice(trash_dir, file_name, taken)->0).drop_last() == path_components(
            trash_dir,
        ),
        path_components(trash_choice(trash_dir, file_name, taken)->0).len() == path_components(trash_dir).len()
            + 1,
        plain_name(path_components(trash_choice(trash_dir, file_name, taken)->0).last()),
{
    let k = first_false(taken)->0;
    let c = candidate_name(file_name, (k + 1) as nat);
    lemma_candidate_plain(file_name, (k + 1) as nat);
    law_join_plain_name(trash_dir, c);
    assert(path_components(trash_dir).push(c).drop_last() =~= path_components(trash_dir));
}

/// The answers of a search for a free Trash name: candidates are asked about in order from
/// the first, until one is free or `u32::MAX - 1` of them were asked about.
pub open spec fn answers_in_order(taken: Seq<bool>) -> bool {
    &&& 1 <= taken.len() <= u32::MAX - 1
    &&& forall|j: int| 0 <= j < taken.len() - 1 ==> taken[j]
    &&& taken.len() < u32::MAX - 1 ==> !taken.last()
}

/// A path in `trash_dir` for `file_name` that did not exist when it was checked: whether
/// each candidate of `trash_candidate` exists is asked in order, from the name itself on,
/// until one is free, and `pick_trash_path` chooses from the answers. `None` only when every
/// candidate up to attempt `u32::MAX - 1` existed. The answers come from the disk, so the
/// contract states the choice for the answers as they came, whatever they were.
pub fn unique_trash_path(trash_dir: &str, file_name: &str) -> (r: Option<String>)
    ensures
        exists|taken: Seq<bool>|
            #[trigger] answers_in_order(taken) && match r {
                Some(p) => trash_choice(trash_dir@, file_name@, taken) == Some(p@),
                None => trash_choice(trash_dir@, file_name@, taken) is None,
            },
        plain_name(file_name@) ==> (r matches Some(p) ==> path_components(p@).drop_last()
            == path_components(trash_dir@)),
{
    let mut taken: Vec<bool> = Vec::new();
    let mut attempt: u32 = 1;
    while attempt < u32::MAX
        invariant_except_break
            1 <= attempt <= u32::MAX,
            taken@.len() == attempt - 1,
            forall|j: int| 0 <= j < taken@.len() ==> taken@[j],
        ensures
            answers_in_order(taken@),
        decreases u32::MAX - attempt,
    {
        let candidate = trash_candidate(trash_dir, file_name, attempt);
        let exists = path_exists(candidate.as_str());
        taken.push(exists);
        if !exists {
            break;
        }
        attempt += 1;
    }
    let r = pick_trash_path(trash_dir, file_name, &taken);
    proof {
        if plain_name(file_name@) && r is Some {
            law_trash_choice_lies_in_trash_dir(trash_dir@, file_name@, taken@);
        }
    }
    r
}

/// Where moving `path` to the Trash puts it, given the home directory (`None` when it is
/// unknown): the first free name in `<home>/.Trash` for the file name of `path` (see
/// `unique_trash_path`), or an error when every name asked about was taken.
pub fn trash_destination(path: &str, home: Option<String>) -> (r: Result<String, TrashError>)
    ensures
        home is None ==> (r matches Err(e) && error_message(e) == "cannot find home directory"@),
        home is Some && path_file_name(path@) is None ==> (r matches Err(e) && error_message(e)
            == "path has no filename"@),
        home is Some && path_file_name(path@) is Some ==> exists|taken: Seq<bool>|
            #[trigger] answers_in_order(taken) && {
                let choice = trash_choice(
                    path_join(home->0@, ".Trash"@),
                    path_file_name(path@)->0,
                    taken,
                );
                match r {
                    Ok(d) => choice == Some(d@),
                    Err(e) => choice is None && error_message(e) == "no free name left in the Trash"@,
                }
            },
        r matches Ok(d) ==> home is Some && path_components(d@).drop_last() == path_components(
            path_join(home->0@, ".Trash"@),
        ),
{
    let home = match home {
        Some(h) => h,
        None => {
            return Err(TrashError::OperationFailed(String::from_str("cannot find home directory")));
        },
    };
    let trash_dir = join(home.as_str(), ".Trash");
    let name = match file_name(path) {
        Some(n) => n,
        None => {
            return Err(TrashError::OperationFailed(String::from_str("path has no filename")));
        },
    };
    let found = unique_trash_path(trash_dir.as_str(), name.as_str());
    proof {
        assert(trash_dir@ == path_join(home@, ".Trash"@));
        assert(name@ == path_file_name(path@)->0);
        lemma_file_name_plain(path@);
    }
    match found {
        Some(d) => Ok(d),
        None => Err(TrashError::OperationFailed(String::from_str("no free name left in the Trash"))),
    }
}

/// The error for a failed rename: a move across volumes (`EXDEV`, OS error 18) gets its own
/// message, any other failure the error's own text.
pub fn rename_failure(raw_os_error: Option<i32>, error_text: String) -> (r: TrashError)
    ensures
        raw_os_error == Some(18i32) ==> error_message(r)
            == "cannot trash: file is on a different volume than home"@,
        raw_os_error != Some(18i32) ==> error_message(r) == error_text@,
{
    if raw_os_error == Some(18i32) {
        TrashError::OperationFailed(String::from_str("cannot trash: file is on a different volume than home"))
    } else {
        TrashError::OperationFailed(error_text)
    }
}

/// A child is kept unless its path equals the target.
pub open spec fn kept(c: EntryView, target: Seq<char>) -> bool {
    !path_equal(c.path, target)
}

/// `e` with every descendant whose path equals `target` dropped, and the size of every
/// directory recomputed as the sum of its remaining children.
pub open spec fn removal(e: EntryView, target: Seq<char>) -> EntryView
    decreases e,
{
    let children = removal_seq(e.children, target);
    EntryView {
        name: e.name,
        path: e.path,
        size: if e.is_dir { sum_sizes(children) as u64 } else { e.size },
        is_dir: e.is_dir,
        flag: e.flag,
        children,
    }
}

/// The kept entries of `s`, in order, each with `removal` applied.
pub open spec fn removal_seq(s: Seq<EntryView>, target: Seq<char>) -> Seq<EntryView>
    decreases s,
{
    if s.len() == 0 {
        Seq::empty()
    } else {
        let r = removal_seq(s.drop_last(), target);
        if kept(s.last(), target) {
            r.push(removal(s.last(), target))
        } else {
            r
        }
    }
}

/// Every recomputed directory size of `removal(e, target)` fits in a `u64`.
pub open spec fn removal_fits(e: EntryView, target: Seq<char>) -> bool
    decreases e,
{
    &&& (e.is_dir ==> sum_sizes(removal_seq(e.children, target)) <= u64::MAX)
    &&& forall|i: int|
        0 <= i < e.children.len() ==> kept(#[trigger] e.children[i], target) ==> removal_fits(
            e.children[i],
            target,
        )
}

/// The kept part of a prefix weighs no more than the kept part of the whole.
proof fn lemma_removal_prefix_sum(s: Seq<EntryView>, j: int, target: Seq<char>)
    requires
        0 <= j <= s.len(),
    ensures
        sum_sizes(removal_seq(s.subrange(0, j), target)) <= sum_sizes(removal_seq(s, target)),
    decreases s.len() - j,
{
    if j < s.len() {
        lemma_removal_prefix_sum(s, j + 1, target);
        let t = s.subrange(0, j + 1);
        assert(t.drop_last() =~= s.subrange(0, j));
        if kept(t.last(), target) {
            lemma_sum_sizes_push(removal_seq(s.subrange(0, j), target), removal(t.last(), target));
        }
    } else {
        assert(s.subrange(0, j) =~= s);
    }
}

/// No descendant of `e` has a path equal to `target`.
pub open spec fn free_of(e: EntryView, target: Seq<char>) -> bool
    decreases e,
{
    forall|i: int|
        0 <= i < e.children.len() ==> kept(#[trigger] e.children[i], target) && free_of(
            e.children[i],
            target,
        )
}

/// The size of every directory is the sum of the sizes of its children.
pub open spec fn sizes_consistent(e: EntryView) -> bool
    decreases e,
{
    &&& (e.is_dir ==> e.size == sum_sizes(e.children))
    &&& forall|i: int| 0 <= i < e.children.len() ==> sizes_consistent(#[trigger] e.children[i])
}

proof fn lemma_removal_seq_free(s: Seq<EntryView>, target: Seq<char>)
    ensures
        forall|k: int|
            0 <= k < removal_seq(s, target).len() ==> kept(#[trigger] removal_seq(s, target)[k], target)
                && free_of(removal_seq(s, target)[k], target),
    decreases s,
{
    if s.len() > 0 {
        let r = removal_seq(s.drop_last(), target);
        lemma_removal_seq_free(s.drop_last(), target);
        if kept(s.last(), target) {
            lemma_removal_free(s.last(), target);
            assert forall|k: int| 0 <= k < removal_seq(s, target).len() implies kept(
                #[trigger] removal_seq(s, target)[k],
                target,
            ) && free_of(removal_seq(s, target)[k], target) by {
                if k < r.len() {
                    assert(removal_seq(s, target)[k] == r[k]);
                }
            }
        }
    }
}

proof fn lemma_removal_free(e: EntryView, target: Seq<char>)
    ensures
        free_of(removal(e, target), target),
    decreases e,
{
    lemma_removal_seq_free(e.children, target);
    let out = removal(e, target);
    assert(out.children == removal_seq(e.children, target));
    assert forall|i: int| 0 <= i < out.children.len() implies kept(#[trigger] out.children[i], target)
        && free_of(out.children[i], target) by {}
}

/// After a removal, no entry below the root has the removed path.
pub proof fn law_removed_path_is_gone(e: EntryView, target: Seq<char>)
    ensures
        free_of(removal(e, target), target),
{
    lemma_removal_free(e, target);
}

proof fn lemma_removal_seq_consistent(s: Seq<EntryView>, target: Seq<char>)
    requires
        forall|i: int| 0 <= i < s.len() ==> kept(#[trigger] s[i], target) ==> removal_fits(s[i], target),
    ensures
        forall|k: int|
            0 <= k < removal_seq(s, target).len() ==> sizes_consistent(
                #[trigger] removal_seq(s, target)[k],
            ),
    decreases s,
{
    if s.len() > 0 {
        assert(forall|i: int| 0 <= i < s.drop_last().len() ==> s.drop_last()[i] == s[i]);
        let r = removal_seq(s.drop_last(), target);
        lemma_removal_seq_consistent(s.drop_last(), target);
        if kept(s.last(), target) {
            lemma_removal_consistent(s.last(), target);
            assert forall|k: int| 0 <= k < removal_seq(s, target).len() implies sizes_consistent(
                #[trigger] removal_seq(s, target)[k],
            ) by {
                if k < r.len() {
                    assert(removal_seq(s, target)[k] == r[k]);
                }
            }
        }
    }
}

proof fn lemma_removal_consistent(e: EntryView, target: Seq<char>)
    requires
        removal_fits(e, target),
    ensures
        sizes_consistent(removal(e, target)),
    decreases e,
{
    lemma_removal_seq_consistent(e.children, target);
    lemma_sum_sizes_nonneg(removal_seq(e.children, target));
}

/// When the recomputed sizes fit, every directory of the result weighs exactly the sum of
/// its children.
pub proof fn law_removal_keeps_sizes_consistent(e: EntryView, target: Seq<char>)
    requires
        removal_fits(e, target),
    ensures
        sizes_consistent(removal(e, target)),
{
    lemma_removal_consistent(e, target);
}

proof fn lemma_removal_seq_noop(s: Seq<EntryView>, target: Seq<char>)
    requires
        forall|i: int|
            0 <= i < s.len() ==> kept(#[trigger] s[i], target) && free_of(s[i], target)
                && sizes_consistent(s[i]),
    ensures
        removal_seq(s, target) == s,
    decreases s,
{
    if s.len() > 0 {
        assert(forall|i: int| 0 <= i < s.drop_last().len() ==> s.drop_last()[i] == s[i]);
        lemma_removal_seq_noop(s.drop_last(), target);
        lemma_removal_noop(s.last(), target);
        assert(s.drop_last().push(s.last()) =~= s);
    }
}

proof fn lemma_removal_noop(e: EntryView, target: Seq<char>)
    requires
        free_of(e, target),
        sizes_consistent(e),
    ensures
        removal(e, target) == e,
        removal_fits(e, target),
    decreases e,
{
    lemma_removal_seq_noop(e.children, target);
    assert forall|i: int|
        0 <= i < e.children.len() && kept(#[trigger] e.children[i], target) implies removal_fits(
        e.children[i],
        target,
    ) by {
        lemma_removal_noop(e.children[i], target);
    }
    assert(removal(e, target) =~= e);
}

/// Removing a path that no entry below the root has leaves a size-consistent tree as it was,
/// and every recomputed size fits.
pub proof fn law_remove_absent_is_noop(e: EntryView, target: Seq<char>)
    requires
        free_of(e, target),
        sizes_consistent(e),
    ensures
        removal(e, target) == e,
        removal_fits(e, target),
{
    lemma_removal_noop(e, target);
}

/// How many entries strictly below `e` have a path equal to `target`.
pub open spec fn matches_below(e: EntryView, target: Seq<char>) -> int
    decreases e,
{
    matches_in(e.children, target)
}

/// How many entries of `s`, or below them, have a path equal to `target`.
pub open spec fn matches_in(s: Seq<EntryView>, target: Seq<char>) -> int
    decreases s,
{
    if s.len() == 0 {
        0
    } else {
        matches_in(s.drop_last(), target) + (if kept(s.last(), target) { 0int } else { 1int })
            + matches_below(s.last(), target)
    }
}

/// How many entries of the subtree of `c`, itself included, have a path equal to `target`.
pub open spec fn match_count(c: EntryView, target: Seq<char>) -> int {
    (if kept(c, target) { 0int } else { 1int }) + matches_below(c, target)
}

/// `x` is reached from `e` through the child positions `ip`, every entry on the way before
/// `x` (from `e` on) being a directory.
pub open spec fn dir_path_to(e: EntryView, ip: Seq<int>, x: EntryView) -> bool
    decreases ip.len(),
{
    if ip.len() == 0 {
        x == e
    } else {
        &&& e.is_dir
        &&& 0 <= ip[0] < e.children.len()
        &&& dir_path_to(e.children[ip[0]], ip.drop_first(), x)
    }
}

proof fn lemma_matches_below_nonneg(e: EntryView, target: Seq<char>)
    ensures
        matches_below(e, target) >= 0,
    decreases e,
{
    lemma_matches_in_nonneg(e.children, target);
}

proof fn lemma_matches_in_nonneg(s: Seq<EntryView>, target: Seq<char>)
    ensures
        matches_in(s, target) >= 0,
    decreases s,
{
    if s.len() > 0 {
        lemma_matches_in_nonneg(s.drop_last(), target);
        lemma_matches_below_nonneg(s.last(), target);
    }
}

/// The count over a sequence covers the count of any one entry, and of any two.
proof fn lemma_matches_in_bound(s: Seq<EntryView>, target: Seq<char>, i: int, j: int)
    requires
        0 <= i < s.len(),
        0 <= j < s.len(),
    ensures
        match_count(s[i], target) <= matches_in(s, target),
        i != j ==> match_count(s[i], target) + match_count(s[j], target) <= matches_in(s, target),
    decreases s.len(),
{
    let d = s.drop_last();
    let last = s.len() - 1;
    lemma_matches_in_nonneg(d, target);
    lemma_matches_below_nonneg(s.last(), target);
    if i < last && j < last {
        lemma_matches_in_bound(d, target, i, j);
        assert(d[i] == s[i] && d[j] == s[j]);
    } else if i < last {
        lemma_matches_in_bound(d, target, i, i);
        assert(d[i] == s[i]);
    } else if j < last {
        lemma_matches_in_bound(d, target, j, j);
        assert(d[j] == s[j]);
    }
}

/// An entry below which nothing matches is free of the target.
proof fn lemma_no_match_free(e: EntryView, target: Seq<char>)
    requires
        matches_below(e, target) == 0,
    ensures
        free_of(e, target),
    decreases e,
{
    assert forall|i: int| 0 <= i < e.children.len() implies kept(#[trigger] e.children[i], target)
        && free_of(e.children[i], target) by {
        lemma_matches_in_bound(e.children, target, i, i);
        lemma_matches_below_nonneg(e.children[i], target);
        lemma_no_match_free(e.children[i], target);
    }
}

/// A matching entry reached below `c` is counted below `c`.
proof fn lemma_reached_match_counted(c: EntryView, ip: Seq<int>, x: EntryView, target: Seq<char>)
    requires
        ip.len() >= 1,
        dir_path_to(c, ip, x),
        !kept(x, target),
    ensures
        matches_below(c, target) >= 1,
    decreases ip.len(),
{
    let k = ip[0];
    let cc = c.children[k];
    lemma_matches_in_bound(c.children, target, k, k);
    lemma_matches_below_nonneg(cc, target);
    if ip.len() > 1 {
        lemma_reached_match_counted(cc, ip.drop_first(), x, target);
    }
}

/// Removing from a sequence in which only entry `i` changes, by `d`, lowers the sum by `d`.
proof fn lemma_removal_seq_sum(s: Seq<EntryView>, target: Seq<char>, i: int, d: int)
    requires
        0 <= i < s.len(),
        forall|j: int|
            0 <= j < s.len() && j != i ==> kept(#[trigger] s[j], target) && removal(s[j], target)
                == s[j],
        (!kept(s[i], target) && d == s[i].size) || (kept(s[i], target) && removal(s[i], target).size
            == s[i].size - d),
    ensures
        sum_sizes(removal_seq(s, target)) == sum_sizes(s) - d,
    decreases s.len(),
{
    let t = s.drop_last();
    let last = s.len() - 1;
    if i < last {
        assert(t[i] == s[i]);
        assert forall|j: int| 0 <= j < t.len() && j != i implies kept(#[trigger] t[j], target) && removal(
            t[j],
            target,
        ) == t[j] by {
            assert(t[j] == s[j]);
        }
        lemma_removal_seq_sum(t, target, i, d);
        lemma_sum_sizes_push(removal_seq(t, target), s.last());
    } else {
        lemma_removal_seq_noop_exact(t, target);
        assert forall|j: int| 0 <= j < t.len() implies kept(#[trigger] t[j], target) && removal(t[j], target)
            == t[j] by {
            assert(t[j] == s[j]);
        }
        if kept(s.last(), target) {
            lemma_sum_sizes_push(removal_seq(t, target), removal(s.last(), target));
        }
    }
    assert(t.push(s.last()) =~= s);
    lemma_sum_sizes_push(t, s.last());
}

/// Removal leaves a sequence whose entries are all kept and unchanged by it as it was.
proof fn lemma_removal_seq_noop_exact(s: Seq<EntryView>, target: Seq<char>)
    ensures
        (forall|j: int| 0 <= j < s.len() ==> kept(#[trigger] s[j], target) && removal(s[j], target) == s[j])
            ==> removal_seq(s, target) == s,
    decreases s.len(),
{
    if s.len() > 0 && forall|j: int| 0 <= j < s.len() ==> kept(#[trigger] s[j], target) && removal(s[j], target)
        == s[j] {
        let t = s.drop_last();
        assert forall|j: int| 0 <= j < t.len() implies kept(#[trigger] t[j], target) && removal(t[j], target)
            == t[j] by {
            assert(t[j] == s[j]);
        }
        lemma_removal_seq_noop_exact(t, target);
        assert(t.push(s.last()) =~= s);
    }
}

/// In a tree whose directory sizes add up, removing the one entry `x` below the root whose
/// path is the target (reached through directories only) lowers the root's size by exactly
/// the size of `x`.
pub proof fn law_removing_one_entry_lowers_size_by_it(
    e: EntryView,
    ip: Seq<int>,
    x: EntryView,
    target: Seq<char>,
)
    requires
        sizes_consistent(e),
        ip.len() >= 1,
        dir_path_to(e, ip, x),
        !kept(x, target),
        matches_below(e, target) == 1,
    ensures
        removal(e, target).size == e.size - x.size,
    decreases ip.len(),
{
    let s = e.children;
    let i = ip[0];
    let c = s[i];
    assert(dir_path_to(c, ip.drop_first(), x));
    if ip.len() == 1 {
        assert(c == x);
    }
    lemma_matches_below_nonneg(c, target);
    assert forall|j: int| 0 <= j < s.len() && j != i implies kept(#[trigger] s[j], target) && removal(
        s[j],
        target,
    ) == s[j] by {
        lemma_matches_in_bound(s, target, i, j);
        lemma_matches_below_nonneg(s[j], target);
        if ip.len() > 1 {
            lemma_reached_match_counted(c, ip.drop_first(), x, target);
        }
        lemma_no_match_free(s[j], target);
        lemma_removal_noop(s[j], target);
    }
    if ip.len() == 1 {
        lemma_removal_seq_sum(s, target, i, x.size as int);
    } else {
        lemma_reached_match_counted(c, ip.drop_first(), x, target);
        lemma_matches_in_bound(s, target, i, i);
        law_removing_one_entry_lowers_size_by_it(c, ip.drop_first(), x, target);
        lemma_removal_seq_sum(s, target, i, x.size as int);
    }
    lemma_sum_sizes_nonneg(removal_seq(s, target));
}

/// Whether `remove_entry(root, target)` can recompute every directory size within a `u64`
/// (see `removal_fits`); when it can, also the size the root will have.
pub fn removal_size(root: &DirEntry, target: &str) -> (r: Option<u64>)
    ensures
        r is Some <==> removal_fits(root.model(), target@),
        r matches Some(n) ==> n == removal(root.model(), target@).size,
    decreases root,
{
    let ghost models = DirEntry::model_seq(root.children@);
    proof {
        lemma_model_seq(root.children@);
    }
    let n = root.children.len();
    let mut total: u64 = 0;
    let mut i: usize = 0;
    while i < n
        invariant
            n == root.children@.len(),
            0 <= i <= n,
            models == DirEntry::model_seq(root.children@),
            models.len() == n,
            forall|k: int| 0 <= k < n ==> #[trigger] models[k] == root.children@[k].model(),
            root.is_dir ==> total == sum_sizes(removal_seq(models.subrange(0, i as int), target@)),
            forall|k: int|
                0 <= k < i ==> kept(#[trigger] models[k], target@) ==> removal_fits(models[k], target@),
        decreases n - i,
    {
        let child = &root.children[i];
        let ghost pre = models.subrange(0, i as int);
        let ghost post = models.subrange(0, i + 1);
        proof {
            assert(post.drop_last() =~= pre);
            assert(post.last() == child.model());
            assert(root.model().children[i as int] == child.model());
        }
        if !paths_equal(child.path.as_str(), target) {
            assert(decreases_to!(*root => root.children));
            assert(decreases_to!(root.children => root.children@));
            assert(decreases_to!(root.children@ => root.children@[i as int]));
            match removal_size(child, target) {
                None => {
                    return None;
                },
                Some(c) => {
                    proof {
                        lemma_sum_sizes_push(removal_seq(pre, target@), removal(child.model(), target@));
                    }
                    if root.is_dir {
                        match total.checked_add(c) {
                            Some(t) => {
                                total = t;
                            },
                            None => {
                                proof {
                                    lemma_removal_prefix_sum(models, i + 1, target@);
                                    assert(models =~= root.model().children);
                                }
                                return None;
                            },
                        }
                    }
                },
            }
        }
        i += 1;
    }
    proof {
        assert(models.subrange(0, n as int) =~= models);
        assert(models =~= root.model().children);
        lemma_sum_sizes_nonneg(removal_seq(models, target@));
    }
    if root.is_dir {
        Some(total)
    } else {
        Some(root.size)
    }
}

/// Removes every descendant of `root` whose path equals `target`, and recomputes the
/// size of every directory as the sum of its remaining children. Files keep their size.
pub fn remove_entry(root: DirEntry, target: &str) -> (r: DirEntry)
    requires
        removal_fits(root.model(), target@),
    ensures
        r.model() == removal(root.model(), target@),
    decreases root,
{
    let ghost old_root = root;
    let DirEntry { name, path, size, is_dir, children, flag } = root;
    let ghost orig = children@;
    let ghost models = DirEntry::model_seq(orig);
    proof {
        lemma_model_seq(orig);
    }
    let mut new_children: Vec<DirEntry> = Vec::new();
    let mut total: u64 = 0;
    // Popping from the reversed list takes the children from the front, in order.
    let mut rest = reversed(children);
    let ghost mut taken: int = 0;
    while rest.len() > 0
        invariant
            0 <= taken <= orig.len(),
            rest@.len() == orig.len() - taken,
            forall|i: int| 0 <= i < rest@.len() ==> rest@[i] == orig[orig.len() - 1 - i],
            DirEntry::model_seq(new_children@) == removal_seq(models.subrange(0, taken), target@),
            is_dir ==> total == sum_sizes(removal_seq(models.subrange(0, taken), target@)),
            old_root == root,
            models == DirEntry::model_seq(orig),
            models.len() == orig.len(),
            forall|i: int| 0 <= i < orig.len() ==> #[trigger] models[i] == orig[i].model(),
            removal_fits(old_root.model(), target@),
            old_root.children@ == orig,
            old_root.is_dir == is_dir,
        decreases rest@.len(),
    {
        let child = rest.pop().unwrap();
        assert(child == orig[taken]);
        let ghost pre = models.subrange(0, taken);
        let ghost post = models.subrange(0, taken + 1);
        assert(post.drop_last() =~= pre);
        assert(post.last() == child.model());
        if !paths_equal(child.path.as_str(), target) {
            assert(old_root.model().children[taken] == child.model());
            assert(decreases_to!(old_root => old_root.children));
            assert(decreases_to!(old_root.children => old_root.children@));
            assert(decreases_to!(old_root.children@ => orig[taken]));
            let c = remove_entry(child, target);
            proof {
                lemma_sum_sizes_push(removal_seq(pre, target@), c.model());
                lemma_removal_prefix_sum(models, taken + 1, target@);
                lemma_sum_sizes_nonneg(removal_seq(pre, target@));
                lemma_model_seq(new_children@);
            }
            if is_dir {
                total = total + c.size;
            }
            new_children.push(c);
            proof {
                lemma_model_seq(new_children@);
                assert(DirEntry::model_seq(new_children@) =~= removal_seq(post, target@));
            }
        }
        proof {
            taken = taken + 1;
        }
    }
    proof {
        assert(models.subrange(0, taken) =~= models);
        lemma_model_seq(new_children@);
    }
    let new_size = if is_dir { total } else { size };
    DirEntry { name, path, size: new_size, is_dir, children: new_children, flag }
}

} // verus!
