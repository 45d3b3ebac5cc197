use vstd::prelude::*;

use crate::scanner::{DirEntry, EntryView, Flag, lemma_model_seq};
use crate::text::{byte_size_text, chars_of, format_size, push_char, push_spaces};

verus! {

/// Columns reserved on each row beside the label: gap, bar, gap and size.
pub const RESERVED_WIDTH: usize = 22;

/// Width of the right-aligned size column.
pub const SIZE_COL_WIDTH: usize = 8;

/// The display width of a string as `unicode_width::UnicodeWidthStr::width` computes it.
pub uninterp spec fn unicode_str_width(s: Seq<char>) -> usize;

/// The display width of a character as `unicode_width::UnicodeWidthChar::width` computes it
/// (`None` for control characters).
pub uninterp spec fn unicode_char_width(c: char) -> Option<usize>;

/// A string of printable ASCII characters only.
pub open spec fn is_printable_ascii(s: Seq<char>) -> bool {
    forall|i: int| 0 <= i < s.len() ==> ' ' <= #[trigger] s[i] <= '~'
}

/// Display column width of a string (CJK characters take two columns, most others one):
/// calls `unicode_width::UnicodeWidthStr::width`. Its source gives every printable ASCII
/// character one column, so such a string is as wide as it is long; nothing else is stated.
#[verifier::external_body]
pub fn display_width(s: &str) -> (w: usize)
    ensures
        w == unicode_str_width(s@),
        is_printable_ascii(s@) ==> w == s@.len(),
{
    unicode_width::UnicodeWidthStr::width(s)
}

/// Calls `unicode_width::UnicodeWidthChar::width`; its source gives printable ASCII
/// characters one column. Nothing else is stated.
#[verifier::external_body]
fn char_width(c: char) -> (w: Option<usize>)
    ensures
        w == unicode_char_width(c),
        ' ' <= c <= '~' ==> w == Some(1usize),
{
    unicode_width::UnicodeWidthChar::width(c)
}

/// The columns a character takes in a truncated name (control characters take none).
pub open spec fn char_cols(c: char) -> int {
    match unicode_char_width(c) {
        Some(w) => w as int,
        None => 0,
    }
}

/// The columns taken by the first `k` characters of `s`.
pub open spec fn prefix_cols(s: Seq<char>, k: int) -> int
    decreases k,
{
    if k <= 0 {
        0
    } else {
        prefix_cols(s, k - 1) + char_cols(s[k - 1])
    }
}

/// `r` is `s` cut to fit in `max_cols` columns: `s` itself when its width fits; otherwise
/// nothing when `max_cols` is 0, else the longest prefix whose characters fit in
/// `max_cols - 1` columns, followed by `…`.
pub open spec fn is_truncation(r: Seq<char>, s: Seq<char>, max_cols: int) -> bool {
    if unicode_str_width(s) <= max_cols {
        r == s
    } else if max_cols <= 0 {
        r == Seq::<char>::empty()
    } else {
        exists|k: int|
            0 <= k <= s.len() && prefix_cols(s, k) <= max_cols - 1 && (k == s.len() || prefix_cols(s, k + 1)
                > max_cols - 1) && r == #[trigger] s.take(k).push('…')
    }
}

/// Truncates `s` to fit within `max_cols` display columns, appending `…` if needed.
pub fn truncate_to_cols(s: &str, max_cols: usize) -> (r: String)
    ensures
        is_truncation(r@, s@, max_cols as int),
{
    if display_width(s) <= max_cols {
        return String::from_str(s);
    }
    if max_cols == 0 {
        return String::new();
    }
    // One column stays free for the ellipsis.
    let budget = max_cols - 1;
    let chars = chars_of(s);
    let n = chars.len();
    let mut cols: usize = 0;
    let mut result = String::new();
    let mut i: usize = 0;
    while i < n
        invariant
            n == s@.len(),
            chars@ == s@,
            i <= n,
            cols == prefix_cols(s@, i as int),
            cols <= budget,
            result@ == s@.take(i as int),
        ensures
            i <= n,
            cols == prefix_cols(s@, i as int),
            cols <= budget,
            result@ == s@.take(i as int),
            i == n || prefix_cols(s@, i + 1) > budget,
        decreases n - i,
    {
        let ch = chars[i];
        let w = match char_width(ch) {
            Some(w) => w,
            None => 0,
        };
        if w > budget - cols {
            break;
        }
        cols = cols + w;
        push_char(&mut result, ch);
        proof {
            assert(s@.take(i + 1) =~= s@.take(i as int).push(ch));
        }
        i += 1;
    }
    push_char(&mut result, '…');
    result
}

/// The badge shown after a flagged name.
pub open spec fn badge_text(flag: Option<Flag>) -> Seq<char> {
    match flag {
        Some(Flag::Cache) => " [CACHE]"@,
        Some(Flag::Brew) => " [BREW]"@,
        None => Seq::empty(),
    }
}

/// The marker before a name: `> ` for directories, two spaces otherwise.
pub open spec fn prefix_text(is_dir: bool) -> Seq<char> {
    if is_dir {
        "> "@
    } else {
        "  "@
    }
}

/// The columns of prefix, name and badge of an entry.
pub open spec fn label_width(e: EntryView) -> int {
    2 + unicode_str_width(e.name) + badge_text(e.flag).len()
}

/// The widest label among `entries`, 0 when there are none.
pub open spec fn widest_label(entries: Seq<EntryView>) -> int
    decreases entries.len(),
{
    if entries.len() == 0 {
        0
    } else {
        let w = label_width(entries.last());
        let m = widest_label(entries.drop_last());
        if w > m {
            w
        } else {
            m
        }
    }
}

/// The columns all labels are padded to: the widest label, capped so that bar and size
/// always fit in `terminal_width`.
pub open spec fn label_column(entries: Seq<EntryView>, terminal_width: int) -> int {
    let cap = if terminal_width > RESERVED_WIDTH { terminal_width - RESERVED_WIDTH } else { 0 };
    let w = widest_label(entries);
    if w < cap {
        w
    } else {
        cap
    }
}

/// `n` spaces.
pub open spec fn spaces(n: int) -> Seq<char> {
    Seq::new(n as nat, |i: int| ' ')
}

/// One row of the listing, as text pieces; the bar between padding and size is drawn by the
/// caller from `size` and the parent's size.
pub struct ListRow {
    pub prefix: String,
    pub name: String,
    pub badge: String,
    pub padding: String,
    pub size_text: String,
    pub is_dir: bool,
    pub flag: Option<Flag>,
    pub size: u64,
}

/// `row` shows `e` in a listing whose labels are padded to `column` columns.
pub open spec fn row_of(row: ListRow, e: EntryView, column: int) -> bool {
    let badge = badge_text(e.flag);
    let name_budget = if column - 2 - badge.len() > 0 { column - 2 - badge.len() } else { 0 };
    let label = 2 + unicode_str_width(row.name@) + badge.len();
    let size_raw = byte_size_text(e.size);
    &&& row.prefix@ == prefix_text(e.is_dir)
    &&& is_truncation(row.name@, e.name, name_budget)
    &&& row.badge@ == badge
    &&& row.padding@ == spaces((if column > label { column - label } else { 0 }) + 2)
    &&& row.size_text@ == "  "@ + spaces(
        if SIZE_COL_WIDTH > size_raw.len() { SIZE_COL_WIDTH - size_raw.len() } else { 0 },
    ) + size_raw
    &&& row.is_dir == e.is_dir
    &&& row.flag == e.flag
    &&& row.size == e.size
}

/// Labels that fit their column end where the padding makes every bar start: prefix, name,
/// badge and padding together always take the label column plus two gap columns.
pub proof fn law_bars_line_up(row: ListRow, e: EntryView, column: int)
    requires
        row_of(row, e, column),
        2 + unicode_str_width(row.name@) + badge_text(e.flag).len() <= column,
    ensures
        row.prefix@.len() + unicode_str_width(row.name@) + row.badge@.len() + row.padding@.len() == column
            + 2,
{
    reveal_strlit("> ");
    reveal_strlit("  ");
}

proof fn lemma_widest_label_bounds(entries: Seq<EntryView>, bound: int)
    ensures
        forall|i: int|
            0 <= i < entries.len() ==> 2 + unicode_str_width(#[trigger] entries[i].name) + badge_text(
                entries[i].flag,
            ).len() <= widest_label(entries),
        (forall|i: int|
            0 <= i < entries.len() ==> 2 + unicode_str_width(#[trigger] entries[i].name) + badge_text(
                entries[i].flag,
            ).len() <= bound) && bound >= 0 ==> widest_label(entries) <= bound,
        entries.len() > 0 ==> exists|i: int|
            0 <= i < entries.len() && 2 + unicode_str_width(#[trigger] entries[i].name) + badge_text(
                entries[i].flag,
            ).len() == widest_label(entries),
    decreases entries.len(),
{
    if entries.len() > 0 {
        let d = entries.drop_last();
        lemma_widest_label_bounds(d, bound);
        let last = entries.len() - 1;
        assert(entries.last() == entries[last]);
        assert forall|i: int| 0 <= i < entries.len() implies 2 + unicode_str_width(
            #[trigger] entries[i].name,
        ) + badge_text(entries[i].flag).len() <= widest_label(entries) by {
            if i < last {
                assert(d[i] == entries[i]);
                assert(2 + unicode_str_width(d[i].name) + badge_text(d[i].flag).len() <= widest_label(d));
            }
        }
        if (forall|i: int|
            0 <= i < entries.len() ==> 2 + unicode_str_width(#[trigger] entries[i].name) + badge_text(
                entries[i].flag,
            ).len() <= bound) && bound >= 0 {
            assert forall|i: int| 0 <= i < d.len() implies 2 + unicode_str_width(#[trigger] d[i].name)
                + badge_text(d[i].flag).len() <= bound by {
                assert(d[i] == entries[i]);
            }
        }
        if d.len() > 0 && widest_label(entries) == widest_label(d) {
            let i = choose|i: int|
                0 <= i < d.len() && 2 + unicode_str_width(#[trigger] d[i].name) + badge_text(d[i].flag).len()
                    == widest_label(d);
            assert(d[i] == entries[i]);
        }
    }
}

/// When every label (marker, name in display columns, badge) fits in the columns the
/// terminal leaves beside bar and size, the label column is the widest label in display
/// columns and no name is cut: every row shows its entry's whole name.
pub proof fn law_fitting_names_are_not_cut(rows: Seq<ListRow>, entries: Seq<EntryView>, terminal_width: int)
    requires
        rows.len() == entries.len(),
        forall|i: int|
            0 <= i < rows.len() ==> row_of(#[trigger] rows[i], entries[i], label_column(entries, terminal_width)),
        forall|i: int|
            0 <= i < entries.len() ==> 2 + unicode_str_width(#[trigger] entries[i].name) + badge_text(
                entries[i].flag,
            ).len() <= terminal_width - RESERVED_WIDTH,
    ensures
        forall|i: int| 0 <= i < rows.len() ==> (#[trigger] rows[i]).name@ == entries[i].name,
        forall|i: int|
            0 <= i < entries.len() ==> 2 + unicode_str_width(#[trigger] entries[i].name) + badge_text(
                entries[i].flag,
            ).len() <= label_column(entries, terminal_width),
        entries.len() > 0 ==> exists|i: int|
            0 <= i < entries.len() && 2 + unicode_str_width(#[trigger] entries[i].name) + badge_text(
                entries[i].flag,
            ).len() == label_column(entries, terminal_width),
{
    let cap = if terminal_width > RESERVED_WIDTH { terminal_width - RESERVED_WIDTH } else { 0 };
    lemma_widest_label_bounds(entries, cap);
    lemma_widest_label_nonneg(entries);
    if entries.len() > 0 {
        assert(2 + unicode_str_width(entries[0].name) + badge_text(entries[0].flag).len() <= terminal_width
            - RESERVED_WIDTH);
    }
    assert(entries.len() > 0 ==> widest_label(entries) <= cap);
    if entries.len() == 0 {
        assert(widest_label(entries) == 0);
    }
    assert(label_column(entries, terminal_width) == widest_label(entries));
    assert forall|i: int| 0 <= i < rows.len() implies (#[trigger] rows[i]).name@ == entries[i].name by {
        assert(row_of(rows[i], entries[i], label_column(entries, terminal_width)));
    }
}

fn badge_str(flag: Option<Flag>) -> (r: &'static str)
    ensures
        r@ == badge_text(flag),
        is_printable_ascii(r@),
        r@.len() <= 8,
{
    proof {
        reveal_strlit(" [CACHE]");
        reveal_strlit(" [BREW]");
        reveal_strlit("");
    }
    match flag {
        Some(Flag::Cache) => " [CACHE]",
        Some(Flag::Brew) => " [BREW]",
        None => "",
    }
}

fn prefix_str(is_dir: bool) -> (r: &'static str)
    ensures
        r@ == prefix_text(is_dir),
        is_printable_ascii(r@),
        r@.len() == 2,
{
    proof {
        reveal_strlit("> ");
        reveal_strlit("  ");
    }
    if is_dir {
        "> "
    } else {
        "  "
    }
}

proof fn lemma_widest_label_nonneg(entries: Seq<EntryView>)
    ensures
        widest_label(entries) >= 0,
    decreases entries.len(),
{
    if entries.len() > 0 {
        lemma_widest_label_nonneg(entries.drop_last());
    }
}

/// The rows of the listing of `entries`: labels (marker, possibly truncated name, badge)
/// padded to a common column so that bars and sizes line up, followed by the right-aligned
/// size.
pub fn build_list_items(entries: &[DirEntry], parent_size: u64, terminal_width: u16) -> (rows: Vec<ListRow>)
    ensures
        rows@.len() == entries@.len(),
        forall|i: int|
            0 <= i < entries@.len() ==> row_of(
                #[trigger] rows@[i],
                entries@[i].model(),
                label_column(DirEntry::model_seq(entries@), terminal_width as int),
            ),
{
    let ghost models = DirEntry::model_seq(entries@);
    proof {
        lemma_model_seq(entries@);
    }
    let tw = terminal_width as usize;
    let max_label_cols: usize = if tw > RESERVED_WIDTH { tw - RESERVED_WIDTH } else { 0 };
    // Pass 1: the widest label, capped so bar and size always fit on screen.
    let n = entries.len();
    let mut widest: u128 = 0;
    let mut i: usize = 0;
    while i < n
        invariant
            n == entries@.len(),
            i <= n,
            models == DirEntry::model_seq(entries@),
            models.len() == n,
            forall|k: int| 0 <= k < n ==> #[trigger] models[k] == entries@[k].model(),
            widest == widest_label(models.subrange(0, i as int)),
        decreases n - i,
    {
        let badge = badge_str(entries[i].flag);
        let w: u128 = 2u128 + display_width(entries[i].name.as_str()) as u128 + display_width(badge) as u128;
        proof {
            let post = models.subrange(0, i + 1);
            assert(post.drop_last() =~= models.subrange(0, i as int));
            assert(post.last() == entries@[i as int].model());
        }
        if w > widest {
            widest = w;
        }
        i += 1;
    }
    proof {
        assert(models.subrange(0, n as int) =~= models);
        lemma_widest_label_nonneg(models);
    }
    let max_label_width: usize = if widest < max_label_cols as u128 { widest as usize } else { max_label_cols };
    // Pass 2: the rows, padded so that bar and size columns line up.
    let mut rows: Vec<ListRow> = Vec::new();
    let mut i: usize = 0;
    while i < n
        invariant
            n == entries@.len(),
            i <= n,
            models == DirEntry::model_seq(entries@),
            models.len() == n,
            forall|k: int| 0 <= k < n ==> #[trigger] models[k] == entries@[k].model(),
            max_label_width == label_column(models, terminal_width as int),
            max_label_width <= 65535,
            rows@.len() == i,
            forall|k: int|
                0 <= k < i ==> row_of(#[trigger] rows@[k], models[k], max_label_width as int),
        decreases n - i,
    {
        let entry = &entries[i];
        let prefix = prefix_str(entry.is_dir);
        let badge = badge_str(entry.flag);
        let badge_cols = display_width(badge);
        let prefix_cols = display_width(prefix);
        let name_budget: usize = if max_label_width > prefix_cols + badge_cols {
            max_label_width - prefix_cols - badge_cols
        } else {
            0
        };
        let name = truncate_to_cols(entry.name.as_str(), name_budget);
        let label_cols: u128 = prefix_cols as u128 + display_width(name.as_str()) as u128 + badge_cols as u128;
        let pad: usize = if (max_label_width as u128) > label_cols {
            (max_label_width as u128 - label_cols) as usize
        } else {
            0
        };
        let mut padding = String::new();
        push_spaces(&mut padding, pad + 2);
        let size_raw = format_size(entry.size);
        let size_len = size_raw.as_str().unicode_len();
        let mut size_text = String::new();
        push_spaces(&mut size_text, 2);
        if SIZE_COL_WIDTH > size_len {
            push_spaces(&mut size_text, SIZE_COL_WIDTH - size_len);
        }
        size_text.append(size_raw.as_str());
        let row = ListRow {
            prefix: String::from_str(prefix),
            name,
            badge: String::from_str(badge),
            padding,
            size_text,
            is_dir: entry.is_dir,
            flag: entry.flag,
            size: entry.size,
        };
        proof {
            assert(models[i as int] == entry.model());
            assert(row.padding@ =~= spaces((if max_label_width > 2 + unicode_str_width(row.name@) + badge_text(entry.flag).len() {
                max_label_width - (2 + unicode_str_width(row.name@) + badge_text(entry.flag).len())
            } else {
                0
            }) + 2));
            let sr = byte_size_text(entry.size);
            assert(row.size_text@ =~= "  "@ + spaces(if SIZE_COL_WIDTH > sr.len() { SIZE_COL_WIDTH - sr.len() } else { 0 }) + sr) by {
                reveal_strlit("  ");
            }
        }
        rows.push(row);
        i += 1;
    }
    rows
}

} // verus!
