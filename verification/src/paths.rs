use vstd::prelude::*;

verus! {

/// What `std::path::Path`'s `==` answers for two paths, given as text: whether their
/// components are equal.
pub open spec fn path_equal(a: Seq<char>, b: Seq<char>) -> bool {
    path_components(a) == path_components(b)
}

/// Compares two paths with `std::path::Path`'s `==`, whose source compares the two
/// component sequences. Components of UTF-8 paths convert to text without loss, and no
/// normal component has the text of `/`, `.` or `..`, so equal components mean equal text.
#[verifier::external_body]
pub(crate) fn paths_equal(a: &str, b: &str) -> (r: bool)
    ensures
        r == path_equal(a@, b@),
{
    std::path::Path::new(a) == std::path::Path::new(b)
}

/// What `std::path::Path::starts_with` answers: whether the components of `base` are the
/// first components of `path`.
pub open spec fn path_starts_with(path: Seq<char>, base: Seq<char>) -> bool {
    let p = path_components(path);
    let b = path_components(base);
    b.len() <= p.len() && p.take(b.len() as int) == b
}

/// Calls `std::path::Path::starts_with`, whose source walks the components of `base` and
/// requires each to equal the next component of `path`.
#[verifier::external_body]
pub(crate) fn starts_with(path: &str, base: &str) -> (r: bool)
    ensures
        r == path_starts_with(path@, base@),
{
    std::path::Path::new(path).starts_with(base)
}

/// The text of `std::path::Path::join(base, rest)` on Unix: `rest` itself when it is
/// absolute; otherwise `base`, a `/` unless `base` is empty or already ends in one, and
/// `rest`.
pub open spec fn path_join(base: Seq<char>, rest: Seq<char>) -> Seq<char> {
    if rest.len() > 0 && rest[0] == '/' {
        rest
    } else if base.len() == 0 || base.last() == '/' {
        base + rest
    } else {
        base + seq!['/'] + rest
    }
}

/// Calls `std::path::Path::join`, whose source (`PathBuf::push`) replaces the path by an
/// absolute `rest` and otherwise adds a separator only when `base` does not end in one.
/// Both arguments are UTF-8, so the joined path converts back to text without loss.
#[verifier::external_body]
pub(crate) fn join(base: &str, rest: &str) -> (r: String)
    ensures
        r@ == path_join(base@, rest@),
{
    std::path::Path::new(base).join(rest).to_string_lossy().into_owned()
}

/// The text of `std::path::Path::file_name`: the final component when it is a normal one
/// (not the root `/`, `.` or `..`).
pub open spec fn path_file_name(p: Seq<char>) -> Option<Seq<char>> {
    let cs = path_components(p);
    if cs.len() > 0 && cs.last() != "/"@ && cs.last() != "."@ && cs.last() != ".."@ {
        Some(cs.last())
    } else {
        None
    }
}

/// Calls `std::path::Path::file_name`, whose source takes the last component when it is a
/// normal one. A normal component never reads `/`, `.` or `..`, and a component of UTF-8
/// text converts back without loss.
#[verifier::external_body]
pub(crate) fn file_name(p: &str) -> (r: Option<String>)
    ensures
        r matches Some(s) ==> path_file_name(p@) == Some(s@),
        r is None ==> path_file_name(p@) is None,
{
    std::path::Path::new(p).file_name().map(|n| n.to_string_lossy().into_owned())
}

/// The last position before `m` in `s` that holds a `.`, or -1.
pub open spec fn last_dot(s: Seq<char>, m: int) -> int
    decreases m,
{
    if m <= 0 {
        -1
    } else if s[m - 1] == '.' {
        m - 1
    } else {
        last_dot(s, m - 1)
    }
}

/// The text of `std::path::Path::file_stem`: the file name up to its last `.`; the whole
/// file name when it has no `.` past its first character.
pub open spec fn path_file_stem(p: Seq<char>) -> Option<Seq<char>> {
    match path_file_name(p) {
        Some(n) => {
            let i = last_dot(n, n.len() as int);
            if i <= 0 {
                Some(n)
            } else {
                Some(n.take(i))
            }
        },
        None => None,
    }
}

/// Calls `std::path::Path::file_stem`, whose source splits the file name at its last `.`
/// unless that `.` is the name's first character.
#[verifier::external_body]
pub(crate) fn file_stem(p: &str) -> (r: Option<String>)
    ensures
        r matches Some(s) ==> path_file_stem(p@) == Some(s@),
        r is None ==> path_file_stem(p@) is None,
{
    std::path::Path::new(p).file_stem().map(|n| n.to_string_lossy().into_owned())
}

/// The text of `std::path::Path::extension`: what follows the last `.` of the file name,
/// when that `.` is not its first character.
pub open spec fn path_extension(p: Seq<char>) -> Option<Seq<char>> {
    match path_file_name(p) {
        Some(n) => {
            let i = last_dot(n, n.len() as int);
            if i <= 0 {
                None
            } else {
                Some(n.skip(i + 1))
            }
        },
        None => None,
    }
}

/// Calls `std::path::Path::extension`, whose source splits the file name as `file_stem`
/// does and keeps the part after the `.`.
#[verifier::external_body]
pub(crate) fn extension(p: &str) -> (r: Option<String>)
    ensures
        r matches Some(s) ==> path_extension(p@) == Some(s@),
        r is None ==> path_extension(p@) is None,
{
    std::path::Path::new(p).extension().map(|n| n.to_string_lossy().into_owned())
}

/// Calls `std::path::Path::exists`. The answer depends on what is on disk at the moment
/// of the call, so nothing is stated of it.
#[verifier::external_body]
pub(crate) fn path_exists(p: &str) -> (r: bool) {
    std::path::Path::new(p).exists()
}

/// The last position before `m` in `s` that holds a `/`, or -1.
pub open spec fn last_sep(s: Seq<char>, m: int) -> int
    decreases m,
{
    if m <= 0 {
        -1
    } else if s[m - 1] == '/' {
        m - 1
    } else {
        last_sep(s, m - 1)
    }
}

/// The `/`-separated pieces of `s` that name a component: all but the empty ones and `.`.
pub open spec fn body_components(s: Seq<char>) -> Seq<Seq<char>>
    decreases s.len(),
{
    let i = last_sep(s, s.len() as int);
    let last = s.skip(i + 1);
    let rest = if 0 <= i < s.len() {
        body_components(s.take(i))
    } else {
        Seq::empty()
    };
    if last.len() == 0 || last == "."@ {
        rest
    } else {
        rest.push(last)
    }
}

/// The components of a path as `std::path::Path::components` yields them on Unix, each as
/// text: the root directory `/` when the path starts with one, else `.` when the path is `.`
/// or starts with `./`; then every `/`-separated piece but the empty ones and `.`
/// (`..` included).
#[verifier::opaque]
pub open spec fn path_components(p: Seq<char>) -> Seq<Seq<char>> {
    let front = if p.len() > 0 && p[0] == '/' {
        seq!["/"@]
    } else if p.len() > 0 && p[0] == '.' && (p.len() == 1 || p[1] == '/') {
        seq!["."@]
    } else {
        Seq::empty()
    };
    front + body_components(p)
}

/// Calls `std::path::Path::components` and converts each component to text. Its source
/// yields the root directory for a leading `/`, the current directory for a leading `.`
/// alone or followed by `/`, and then parses each `/`-separated piece, dropping empty ones
/// and `.`. Components of UTF-8 text convert back without loss.
#[verifier::external_body]
pub(crate) fn components(p: &str) -> (r: Vec<String>)
    ensures
        r@.len() == path_components(p@).len(),
        forall|i: int| 0 <= i < r@.len() ==> #[trigger] r@[i]@ == path_components(p@)[i],
{
    std::path::Path::new(p).components().map(|c| c.as_os_str().to_string_lossy().into_owned()).collect()
}

/// The text of `std::path::Path::parent`.
pub uninterp spec fn path_parent(p: Seq<char>) -> Option<Seq<char>>;

/// Calls `std::path::Path::parent`. Its documentation: the parent is the path without its
/// final component, and there is none when the path terminates in a root or is empty. So the
/// parent's components are the path's without the last, and there is no parent exactly when
/// there are no components or the last is the root `/`. Nothing else is stated.
#[verifier::external_body]
pub(crate) fn parent(p: &str) -> (r: Option<String>)
    ensures
        r matches Some(q) ==> path_parent(p@) == Some(q@) && path_components(q@)
            == path_components(p@).drop_last(),
        r is None ==> path_parent(p@) is None,
        r is None <==> (path_components(p@).len() == 0 || path_components(p@).last() == "/"@),
{
    std::path::Path::new(p).parent().map(|q| q.to_string_lossy().into_owned())
}

/// One normal component's text: not empty, without `/`, and neither `.` nor `..`.
pub open spec fn plain_name(s: Seq<char>) -> bool {
    &&& s.len() > 0
    &&& forall|i: int| 0 <= i < s.len() ==> s[i] != '/'
    &&& s != "."@
    &&& s != ".."@
}

proof fn lemma_last_sep_prefix(x: Seq<char>, a: Seq<char>, m: int)
    requires
        0 <= m <= a.len(),
        m <= x.len(),
        forall|j: int| 0 <= j < m ==> x[j] == a[j],
    ensures
        last_sep(x, m) == last_sep(a, m),
    decreases m,
{
    if m > 0 {
        lemma_last_sep_prefix(x, a, m - 1);
    }
}

proof fn lemma_last_sep_skip(x: Seq<char>, k: int, m: int)
    requires
        0 <= k <= m <= x.len(),
        forall|j: int| k <= j < m ==> x[j] != '/',
    ensures
        last_sep(x, m) == last_sep(x, k),
    decreases m,
{
    if m > k {
        lemma_last_sep_skip(x, k, m - 1);
    }
}

/// Joining a plain name to a directory adds exactly that name as a last component: the
/// joined path lies directly in the directory.
pub proof fn law_join_plain_name(dir: Seq<char>, name: Seq<char>)
    requires
        plain_name(name),
    ensures
        path_components(path_join(dir, name)) == path_components(dir).push(name),
{
    reveal(path_components);
    reveal_strlit(".");
    reveal_strlit("..");
    let x = path_join(dir, name);
    let n = name.len() as int;
    if dir.len() == 0 {
        assert(x =~= name);
        lemma_last_sep_skip(x, 0, n);
        assert(x.skip(0) =~= x);
        assert(body_components(x) =~= seq![name]);
        assert(body_components(dir) =~= Seq::<Seq<char>>::empty()) by {
            assert(dir.skip(0) =~= dir);
        }
        if n == 1 && name[0] == '.' {
            assert(name =~= "."@);
        }
    } else {
        let d = dir.len() as int;
        let cut: int = if dir.last() == '/' {
            d - 1
        } else {
            d
        };
        if dir.last() == '/' {
            assert(x =~= dir + name);
        } else {
            assert(x =~= dir + seq!['/'] + name);
        }
        assert(x[cut] == '/');
        lemma_last_sep_skip(x, cut + 1, x.len() as int);
        assert(last_sep(x, cut + 1) == cut);
        assert(x.skip(cut + 1) =~= name);
        assert(x.take(cut) =~= dir.take(cut));
        if dir.last() == '/' {
            assert(last_sep(dir, d) == d - 1);
            assert(dir.skip(d) =~= Seq::<char>::empty());
        } else {
            assert(dir.take(cut) =~= dir);
        }
        assert(body_components(x) =~= body_components(dir).push(name));
        assert(x[0] == dir[0]);
        if d >= 2 {
            assert(x[1] == dir[1]);
        }
    }
}

proof fn lemma_last_sep_after(s: Seq<char>, m: int)
    requires
        0 <= m <= s.len(),
    ensures
        -1 <= last_sep(s, m) < m,
        forall|j: int| last_sep(s, m) < j < m ==> s[j] != '/',
    decreases m,
{
    if m > 0 {
        lemma_last_sep_after(s, m - 1);
    }
}

/// Every piece that names a component is non-empty and holds no `/`.
proof fn lemma_body_components_pieces(s: Seq<char>)
    ensures
        forall|k: int|
            0 <= k < body_components(s).len() ==> (#[trigger] body_components(s)[k]).len() > 0 && forall|j: int|
                0 <= j < body_components(s)[k].len() ==> body_components(s)[k][j] != '/',
    decreases s.len(),
{
    let i = last_sep(s, s.len() as int);
    lemma_last_sep_after(s, s.len() as int);
    if 0 <= i < s.len() {
        lemma_body_components_pieces(s.take(i));
    }
    let last = s.skip(i + 1);
    assert forall|j: int| 0 <= j < last.len() implies last[j] != '/' by {
        assert(last[j] == s[i + 1 + j]);
    }
    let rest = if 0 <= i < s.len() {
        body_components(s.take(i))
    } else {
        Seq::<Seq<char>>::empty()
    };
    let b = body_components(s);
    assert(b == if last.len() == 0 || last == "."@ {
        rest
    } else {
        rest.push(last)
    });
    assert forall|k: int| 0 <= k < b.len() implies (#[trigger] b[k]).len() > 0 && forall|j: int|
        0 <= j < b[k].len() ==> b[k][j] != '/' by {
        if k < rest.len() {
            assert(b[k] == rest[k]);
        } else {
            assert(b[k] == last);
        }
    }
}

/// A file name is a plain name.
pub proof fn lemma_file_name_plain(p: Seq<char>)
    requires
        path_file_name(p) is Some,
    ensures
        plain_name(path_file_name(p)->0),
{
    reveal(path_components);
    let cs = path_components(p);
    let b = body_components(p);
    lemma_body_components_pieces(p);
    let n = cs.last();
    reveal_strlit("/");
    reveal_strlit(".");
    if b.len() > 0 {
        assert(n == b[b.len() - 1]);
    } else {
        assert(cs.len() <= 1);
    }
}

} // verus!
