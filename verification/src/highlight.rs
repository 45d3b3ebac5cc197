use vstd::prelude::*;

use crate::paths::{join, path_equal, path_join, path_starts_with, paths_equal, starts_with};
use crate::scanner::{DirEntry, EntryView, Flag, lemma_model_seq, reversed};
use crate::text::{is_trim_of, trim};

verus! {

/// The flag of the entry at `path`: below the cache directory (not the directory itself)
/// is `Cache`; otherwise below the Homebrew cache (not the directory itself) is `Brew`.
pub open spec fn flag_for(path: Seq<char>, cache_dir: Seq<char>, brew_cache: Option<Seq<char>>) -> Option<Flag> {
    if path_starts_with(path, cache_dir) && !path_equal(path, cache_dir) {
        Some(Flag::Cache)
    } else if brew_cache is Some && path_starts_with(path, brew_cache->0) && !path_equal(path, brew_cache->0) {
        Some(Flag::Brew)
    } else {
        None
    }
}

/// `e` with the flag of every node set by `flag_for`.
pub open spec fn flagged(e: EntryView, cache_dir: Seq<char>, brew_cache: Option<Seq<char>>) -> EntryView
    decreases e,
{
    EntryView {
        name: e.name,
        path: e.path,
        size: e.size,
        is_dir: e.is_dir,
        flag: flag_for(e.path, cache_dir, brew_cache),
        children: flagged_seq(e.children, cache_dir, brew_cache),
    }
}

/// `flagged` applied to each entry of `s`.
pub open spec fn flagged_seq(s: Seq<EntryView>, cache_dir: Seq<char>, brew_cache: Option<Seq<char>>) -> Seq<EntryView>
    decreases s,
{
    if s.len() == 0 {
        Seq::empty()
    } else {
        flagged_seq(s.drop_last(), cache_dir, brew_cache).push(flagged(s.last(), cache_dir, brew_cache))
    }
}

/// The node of `e` reached through the child positions `ip`, if they stay in the tree.
pub open spec fn node_at(e: EntryView, ip: Seq<int>) -> Option<EntryView>
    decreases ip.len(),
{
    if ip.len() == 0 {
        Some(e)
    } else if 0 <= ip[0] < e.children.len() {
        node_at(e.children[ip[0]], ip.drop_first())
    } else {
        None
    }
}

proof fn lemma_flagged_seq_index(s: Seq<EntryView>, cache_dir: Seq<char>, brew_cache: Option<Seq<char>>)
    ensures
        flagged_seq(s, cache_dir, brew_cache).len() == s.len(),
        forall|i: int|
            0 <= i < s.len() ==> #[trigger] flagged_seq(s, cache_dir, brew_cache)[i] == flagged(
                s[i],
                cache_dir,
                brew_cache,
            ),
    decreases s.len(),
{
    if s.len() > 0 {
        let d = s.drop_last();
        lemma_flagged_seq_index(d, cache_dir, brew_cache);
        assert forall|i: int| 0 <= i < s.len() implies #[trigger] flagged_seq(s, cache_dir, brew_cache)[i]
            == flagged(s[i], cache_dir, brew_cache) by {
            if i < d.len() {
                assert(d[i] == s[i]);
            }
        }
    }
}

/// Flagging keeps the tree's shape, names, paths, sizes and kinds, and gives every node,
/// directory or file, its flag from its path alone: `Cache` strictly below the cache
/// directory; otherwise `Brew` strictly below the Homebrew cache; otherwise none.
pub proof fn law_flags_follow_paths(
    e: EntryView,
    cache_dir: Seq<char>,
    brew_cache: Option<Seq<char>>,
    ip: Seq<int>,
)
    ensures
        node_at(flagged(e, cache_dir, brew_cache), ip) is Some <==> node_at(e, ip) is Some,
        node_at(e, ip) matches Some(n) ==> {
            let m = node_at(flagged(e, cache_dir, brew_cache), ip)->0;
            let in_cache = path_starts_with(n.path, cache_dir) && !path_equal(n.path, cache_dir);
            let in_brew = brew_cache matches Some(b) && path_starts_with(n.path, b) && !path_equal(
                n.path,
                b,
            );
            &&& m.name == n.name
            &&& m.path == n.path
            &&& m.size == n.size
            &&& m.is_dir == n.is_dir
            &&& m.children.len() == n.children.len()
            &&& (m.flag == Some(Flag::Cache) <==> in_cache)
            &&& (m.flag == Some(Flag::Brew) <==> !in_cache && in_brew)
            &&& (m.flag is None <==> !in_cache && !in_brew)
        },
    decreases ip.len(),
{
    lemma_flagged_seq_index(e.children, cache_dir, brew_cache);
    if ip.len() > 0 && 0 <= ip[0] < e.children.len() {
        law_flags_follow_paths(e.children[ip[0]], cache_dir, brew_cache, ip.drop_first());
    }
}

/// The Homebrew cache directory: the trimmed output of `brew --cache` when the command
/// succeeded with UTF-8 output, else `<home>/.cache/homebrew`.
pub open spec fn brew_cache_for(home_dir: Seq<char>, brew_output: Option<Seq<char>>, cache: Seq<char>) -> bool {
    match brew_output {
        Some(out) => is_trim_of(cache, out),
        None => cache == path_join(home_dir, ".cache/homebrew"@),
    }
}

/// Decides which flag the entry at `path` gets.
pub fn detect_flag(path: &str, cache_dir: &str, brew_cache: Option<&str>) -> (r: Option<Flag>)
    ensures
        r == flag_for(path@, cache_dir@, match brew_cache {
            Some(b) => Some(b@),
            None => None,
        }),
{
    if starts_with(path, cache_dir) && !paths_equal(path, cache_dir) {
        return Some(Flag::Cache);
    }
    if let Some(brew) = brew_cache {
        if starts_with(path, brew) && !paths_equal(path, brew) {
            return Some(Flag::Brew);
        }
    }
    None
}

/// Sets the flag of `entry` and of all its descendants.
pub fn apply_flags_inner(entry: DirEntry, cache_dir: &str, brew_cache: Option<&str>) -> (r: DirEntry)
    ensures
        r.model() == flagged(entry.model(), cache_dir@, match brew_cache {
            Some(b) => Some(b@),
            None => None,
        }),
    decreases entry,
{
    let ghost brew = match brew_cache {
        Some(b) => Some(b@),
        None => None,
    };
    let ghost old_entry = entry;
    let flag = detect_flag(entry.path.as_str(), cache_dir, brew_cache);
    let DirEntry { name, path, size, is_dir, children, flag: _ } = entry;
    let ghost orig = children@;
    let ghost models = DirEntry::model_seq(orig);
    proof {
        lemma_model_seq(orig);
    }
    let mut rest = reversed(children);
    let mut new_children: Vec<DirEntry> = Vec::new();
    while rest.len() > 0
        invariant
            new_children@.len() <= orig.len(),
            rest@.len() == orig.len() - new_children@.len(),
            forall|i: int| 0 <= i < rest@.len() ==> rest@[i] == orig[orig.len() - 1 - i],
            DirEntry::model_seq(new_children@) == flagged_seq(
                models.subrange(0, new_children@.len() as int),
                cache_dir@,
                brew,
            ),
            models.len() == orig.len(),
            forall|i: int| 0 <= i < orig.len() ==> #[trigger] models[i] == orig[i].model(),
            old_entry.children@ == orig,
            old_entry == entry,
            brew == match brew_cache {
                Some(b) => Some(b@),
                None => None,
            },
        decreases rest@.len(),
    {
        let ghost taken = new_children@.len() as int;
        let child = rest.pop().unwrap();
        assert(child == orig[taken]);
        assert(decreases_to!(old_entry => old_entry.children));
        assert(decreases_to!(old_entry.children => old_entry.children@));
        assert(decreases_to!(old_entry.children@ => orig[taken]));
        let c = apply_flags_inner(child, cache_dir, brew_cache);
        let ghost before = new_children@;
        proof {
            lemma_model_seq(new_children@);
        }
        new_children.push(c);
        proof {
            lemma_model_seq(new_children@);
            let post = models.subrange(0, taken + 1);
            assert(post.drop_last() =~= models.subrange(0, taken));
            assert(post.last() == child.model());
            assert(new_children@.drop_last() =~= before);
            assert(DirEntry::model_seq(new_children@) =~= flagged_seq(post, cache_dir@, brew));
        }
    }
    proof {
        assert(models.subrange(0, orig.len() as int) =~= models);
    }
    DirEntry { name, path, size, is_dir, children: new_children, flag }
}

/// The Homebrew cache directory, from what `brew --cache` printed when it succeeded with
/// UTF-8 output (`None` when it could not be run, failed or printed something else).
/// There is always an answer: without output it falls back to `<home>/.cache/homebrew`.
pub fn resolve_brew_cache(home_dir: &str, brew_output: Option<String>) -> (r: Option<String>)
    ensures
        r is Some,
        brew_cache_for(home_dir@, match brew_output {
            Some(o) => Some(o@),
            None => None,
        }, r->0@),
{
    match brew_output {
        Some(out) => Some(trim(out.as_str())),
        None => Some(join(home_dir, ".cache/homebrew")),
    }
}

/// Flags every entry of the tree below `<home>/Library/Caches` as `Cache` and every entry
/// below the Homebrew cache (see `resolve_brew_cache`) as `Brew`.
pub fn apply_flags(entry: DirEntry, home_dir: &str, brew_output: Option<String>) -> (r: DirEntry)
    ensures
        exists|brew: Seq<char>|
            brew_cache_for(home_dir@, match brew_output {
                Some(o) => Some(o@),
                None => None,
            }, brew) && r.model() == flagged(
                entry.model(),
                path_join(home_dir@, "Library/Caches"@),
                Some(brew),
            ),
{
    let cache_dir = join(home_dir, "Library/Caches");
    let brew_cache = resolve_brew_cache(home_dir, brew_output);
    let brew: Option<&str> = match &brew_cache {
        Some(b) => Some(b.as_str()),
        None => None,
    };
    apply_flags_inner(entry, cache_dir.as_str(), brew)
}

} // verus!
