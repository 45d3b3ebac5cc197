use vstd::prelude::*;

pub mod statusbar;
pub mod tree;

use crate::highlight::{apply_flags, brew_cache_for, flagged, flagged_seq};
use crate::paths::{file_name, path_file_name, path_join};
use crate::scanner::{DirEntry, EntryView, ScanResult, lemma_model_seq};
use crate::trash::{
    TrashError, error_debug, error_debug_text, remove_entry, removal, removal_fits,
};
use crate::text::{byte_size_text, format_size, push_char};

verus! {

/// Whether the scan is still running (with the spinner's tick) or done.
pub enum AppState {
    Scanning { tick: usize },
    Ready,
}

/// The state of the interface: the tree, where the user has navigated to, what is selected,
/// and the pending Trash confirmation.
pub struct App {
    pub state: AppState,
    pub root: DirEntry,
    /// Stack of selected child indices at each nav level
    pub nav_stack: Vec<usize>,
    /// The selected row of the current listing
    pub selected: Option<usize>,
    pub skipped_count: usize,
    pub status_message: Option<String>,
    pub confirm_trash: bool,
    pub should_quit: bool,
}

/// The node reached from `e` by following the child indices of `path`, or `None` as soon
/// as an index is out of range.
pub open spec fn descend(e: EntryView, path: Seq<usize>) -> Option<EntryView>
    decreases path.len(),
{
    if path.len() == 0 {
        Some(e)
    } else if path[0] < e.children.len() {
        descend(e.children[path[0] as int], path.drop_first())
    } else {
        None
    }
}

/// The node reached from `e` by following `path` until its first out-of-range index.
pub open spec fn reach(e: EntryView, path: Seq<usize>) -> EntryView
    decreases path.len(),
{
    if path.len() == 0 {
        e
    } else if path[0] < e.children.len() {
        reach(e.children[path[0] as int], path.drop_first())
    } else {
        e
    }
}

/// The children listed at navigation `path`: those of the node reached, or none when the
/// path leaves the tree.
pub open spec fn listing(e: EntryView, path: Seq<usize>) -> Seq<EntryView> {
    match descend(e, path) {
        Some(n) => n.children,
        None => Seq::empty(),
    }
}

/// The selection of a fresh listing of `len` rows: the first row, or nothing when empty.
pub open spec fn first_row(len: nat) -> Option<usize> {
    if len > 0 {
        Some(0)
    } else {
        None
    }
}

/// Every field but the selection agrees.
pub open spec fn same_but_selection(a: App, b: App) -> bool {
    &&& a.state == b.state
    &&& a.root == b.root
    &&& a.nav_stack@ == b.nav_stack@
    &&& a.skipped_count == b.skipped_count
    &&& a.status_message == b.status_message
    &&& a.confirm_trash == b.confirm_trash
    &&& a.should_quit == b.should_quit
}

/// Every field but the navigation stack and the selection agrees.
pub open spec fn same_but_navigation(a: App, b: App) -> bool {
    &&& a.state == b.state
    &&& a.root == b.root
    &&& a.skipped_count == b.skipped_count
    &&& a.status_message == b.status_message
    &&& a.confirm_trash == b.confirm_trash
    &&& a.should_quit == b.should_quit
}

/// The selection after moving down in a listing of `len` rows: one row further, stopping at
/// the last row; nothing changes in an empty listing.
pub open spec fn selection_down(len: nat, sel: Option<usize>) -> Option<usize> {
    if len == 0 {
        sel
    } else {
        let cur = match sel {
            Some(c) => c as int,
            None => 0,
        };
        Some(if cur + 1 < len - 1 { (cur + 1) as usize } else { (len - 1) as usize })
    }
}

/// The selection after moving up in a listing of `len` rows: one row back, stopping at the
/// first row; nothing changes in an empty listing.
pub open spec fn selection_up(len: nat, sel: Option<usize>) -> Option<usize> {
    if len == 0 {
        sel
    } else {
        let cur = match sel {
            Some(c) => c as int,
            None => 0,
        };
        Some(if cur > 0 { (cur - 1) as usize } else { 0 })
    }
}

/// Whether entering the selected row of the listing at `stack` opens a directory.
pub open spec fn can_enter(root: EntryView, stack: Seq<usize>, sel: Option<usize>) -> bool {
    &&& sel is Some
    &&& sel->0 < listing(root, stack).len()
    &&& listing(root, stack)[sel->0 as int].is_dir
}

/// Navigation after entering: the selected directory is pushed and its first row selected;
/// anything else leaves navigation as it was.
pub open spec fn entered(root: EntryView, stack: Seq<usize>, sel: Option<usize>) -> (Seq<usize>, Option<usize>) {
    if can_enter(root, stack, sel) {
        let s = stack.push(sel->0);
        (s, first_row(listing(root, s).len()))
    } else {
        (stack, sel)
    }
}

/// Navigation after going back: the last index is popped and becomes the selection; at the
/// root nothing changes.
pub open spec fn went_back(stack: Seq<usize>, sel: Option<usize>) -> (Seq<usize>, Option<usize>) {
    if stack.len() > 0 {
        (stack.drop_last(), Some(stack.last()))
    } else {
        (stack, sel)
    }
}

proof fn lemma_descend_push(e: EntryView, stack: Seq<usize>, i: usize)
    ensures
        descend(e, stack.push(i)) == match descend(e, stack) {
            Some(n) => if i < n.children.len() {
                Some(n.children[i as int])
            } else {
                None
            },
            None => None,
        },
    decreases stack.len(),
{
    if stack.len() > 0 {
        assert(stack.push(i).drop_first() =~= stack.drop_first().push(i));
        if stack[0] < e.children.len() {
            lemma_descend_push(e.children[stack[0] as int], stack.drop_first(), i);
        }
    } else {
        assert(stack.push(i).drop_first() =~= Seq::<usize>::empty());
        if i < e.children.len() {
            assert(descend(e.children[i as int], Seq::<usize>::empty()) == Some(e.children[i as int]));
        }
    }
}

/// The listing after pushing a valid directory index is that directory's children.
proof fn lemma_listing_push(e: EntryView, stack: Seq<usize>, i: usize)
    requires
        i < listing(e, stack).len(),
    ensures
        listing(e, stack.push(i)) == listing(e, stack)[i as int].children,
{
    lemma_descend_push(e, stack, i);
}

/// Going back right after entering a directory restores the navigation stack and the
/// selection as they were.
pub proof fn law_go_back_undoes_enter(root: EntryView, stack: Seq<usize>, sel: Option<usize>)
    requires
        can_enter(root, stack, sel),
    ensures
        went_back(entered(root, stack, sel).0, entered(root, stack, sel).1) == (stack, sel),
{
    assert(stack.push(sel->0).drop_last() =~= stack);
}

/// Entering a directory lists exactly that directory's children.
pub proof fn law_enter_lists_children(root: EntryView, stack: Seq<usize>, sel: Option<usize>)
    requires
        can_enter(root, stack, sel),
    ensures
        listing(root, entered(root, stack, sel).0) == listing(root, stack)[sel->0 as int].children,
{
    lemma_listing_push(root, stack, sel->0);
}

/// Moving down in a non-empty listing goes to the next row, stays on the last row, and
/// starts from the first row when nothing was selected: it moves by at most one row.
pub proof fn law_moving_down_steps_one_row(a: App, b: App)
    requires
        moved_down(a, b),
        0 < a.current_listing().len() <= usize::MAX,
    ensures
        a.selected is Some && a.selected->0 + 1 < a.current_listing().len() ==> b.selected == Some(
            (a.selected->0 + 1) as usize,
        ),
        a.selected is Some && a.selected->0 + 1 >= a.current_listing().len() ==> b.selected == Some(
            (a.current_listing().len() - 1) as usize,
        ),
        a.selected is None ==> b.selected == Some(
            if 1 < a.current_listing().len() {
                1usize
            } else {
                0usize
            },
        ),
        a.selected is Some && a.selected->0 < a.current_listing().len() ==> (b.selected is Some && a.selected->0 <= b.selected->0 <= a.selected->0 + 1),
        b.nav_stack@ == a.nav_stack@,
        b.root == a.root,
{
}

/// Moving up in a non-empty listing goes to the previous row, stays on the first row, and
/// goes to the first row when nothing was selected.
pub proof fn law_moving_up_steps_one_row(a: App, b: App)
    requires
        moved_up(a, b),
        a.current_listing().len() > 0,
    ensures
        a.selected is Some && a.selected->0 > 0 ==> b.selected == Some((a.selected->0 - 1) as usize),
        a.selected is Some && a.selected->0 == 0 ==> b.selected == Some(0usize),
        a.selected is None ==> b.selected == Some(0usize),
        b.nav_stack@ == a.nav_stack@,
        b.root == a.root,
{
}

/// Moving down or up in a non-empty listing always ends on one of its rows, and moving up
/// from a row never leaves the listing.
pub proof fn law_selection_stays_in_listing(len: nat, sel: Option<usize>)
    requires
        0 < len <= usize::MAX,
    ensures
        selection_down(len, sel)->0 < len,
        sel matches Some(c) && c < len ==> selection_up(len, sel)->0 < len,
{
}

/// The selection after the listing changed to `len` rows: kept where possible, moved to the
/// last row when it fell off the end, nothing when the listing is empty.
pub open spec fn clamped(len: nat, sel: Option<usize>) -> Option<usize> {
    if len == 0 {
        None
    } else {
        let cur = match sel {
            Some(c) => c as int,
            None => 0,
        };
        Some(if cur < len - 1 { cur as usize } else { (len - 1) as usize })
    }
}

/// The message shown while asking to confirm moving `name` to the Trash.
pub open spec fn confirm_message(name: Seq<char>) -> Seq<char> {
    "Move '"@ + name + "' to Trash? [y/n]"@
}

/// The message shown when the Trash move failed with `e`.
pub open spec fn failure_message(e: TrashError) -> Seq<char> {
    "Trash failed: "@ + error_debug_text(e)
}

/// A key press, as far as the interface tells keys apart.
#[derive(Clone, Copy, Debug, PartialEq, Eq, Structural)]
pub enum Key {
    Char(char),
    Up,
    Down,
    Left,
    Right,
    Enter,
    Backspace,
    Esc,
    Other,
}

/// What the caller does after a key press.
pub enum KeyAction {
    /// Keep running.
    Continue,
    /// Leave the interface.
    Quit,
    /// Move the entry at this path to the Trash, then report the outcome with `finish_trash`.
    MoveToTrash(String),
}

/// Every field but the root, the selection and the status message agrees.
pub open spec fn same_but_tree(a: App, b: App) -> bool {
    &&& a.state == b.state
    &&& a.nav_stack@ == b.nav_stack@
    &&& a.skipped_count == b.skipped_count
    &&& a.confirm_trash == b.confirm_trash
    &&& a.should_quit == b.should_quit
}

/// Every field but the state agrees.
pub open spec fn same_but_tick(a: App, b: App) -> bool {
    &&& a.root == b.root
    &&& a.nav_stack@ == b.nav_stack@
    &&& a.selected == b.selected
    &&& a.skipped_count == b.skipped_count
    &&& a.status_message == b.status_message
    &&& a.confirm_trash == b.confirm_trash
    &&& a.should_quit == b.should_quit
}

proof fn lemma_flagged_len(e: EntryView)
    ensures
        forall|c: Seq<char>, b: Option<Seq<char>>| #[trigger] flagged(e, c, b).children.len() == e.children.len(),
{
    assert forall|c: Seq<char>, b: Option<Seq<char>>| #[trigger] flagged(e, c, b).children.len() == e.children.len() by {
        lemma_flagged_seq_len(e.children, c, b);
    }
}

proof fn lemma_flagged_seq_len(s: Seq<EntryView>, c: Seq<char>, b: Option<Seq<char>>)
    ensures
        flagged_seq(s, c, b).len() == s.len(),
    decreases s.len(),
{
    if s.len() > 0 {
        lemma_flagged_seq_len(s.drop_last(), c, b);
    }
}

/// Moving down from `a` has a next row index: the listing is empty, or the selection is not
/// the largest index (one past it does not fit in a `usize`).
pub open spec fn can_move_down(a: App) -> bool {
    a.current_listing().len() == 0 || a.selected != Some(usize::MAX)
}

/// `b` is `a` after moving the selection down.
pub open spec fn moved_down(a: App, b: App) -> bool {
    same_but_selection(b, a) && b.selected == selection_down(a.current_listing().len(), a.selected)
}

/// `b` is `a` after moving the selection up.
pub open spec fn moved_up(a: App, b: App) -> bool {
    same_but_selection(b, a) && b.selected == selection_up(a.current_listing().len(), a.selected)
}

/// `b` is `a` after entering the selected row.
pub open spec fn entered_selection(a: App, b: App) -> bool {
    same_but_navigation(b, a) && (b.nav_stack@, b.selected) == entered(a.root.model(), a.nav_stack@, a.selected)
}

/// `b` is `a` after going back.
pub open spec fn went_back_from(a: App, b: App) -> bool {
    same_but_navigation(b, a) && (b.nav_stack@, b.selected) == went_back(a.nav_stack@, a.selected)
}

/// `b` is `a` after returning to the root.
pub open spec fn jumped_to_root(a: App, b: App) -> bool {
    &&& same_but_navigation(b, a)
    &&& b.nav_stack@.len() == 0
    &&& b.selected == first_row(a.root.children@.len())
}

/// Every field but the confirmation flag and the status message agrees.
pub open spec fn same_but_prompt(a: App, b: App) -> bool {
    &&& a.state == b.state
    &&& a.root == b.root
    &&& a.nav_stack@ == b.nav_stack@
    &&& a.selected == b.selected
    &&& a.skipped_count == b.skipped_count
    &&& a.should_quit == b.should_quit
}

/// `b` is `a` after asking to confirm the Trash move of the selected entry.
pub open spec fn trash_initiated(a: App, b: App) -> bool {
    match a.selected_model() {
        None => b == a,
        Some(e) => same_but_prompt(b, a) && b.confirm_trash && (b.status_message matches Some(m)
            && m@ == confirm_message(e.name)),
    }
}

/// `b` is `a` after the decision half of confirming, which answered `r`.
pub open spec fn trash_begun(a: App, b: App, r: Option<String>) -> bool {
    if !a.confirm_trash {
        r is None && b == a
    } else {
        &&& same_but_prompt(b, a)
        &&& !b.confirm_trash
        &&& match a.selected_model() {
            Some(e) => r matches Some(p) && p@ == e.path && b.status_message == a.status_message,
            None => r is None && b.status_message is None,
        }
    }
}

/// `b` is `a` after cancelling the confirmation.
pub open spec fn trash_cancelled(a: App, b: App) -> bool {
    same_but_prompt(b, a) && !b.confirm_trash && b.status_message is None
}

/// The spinner frame for `tick`: `|`, `/`, `-`, `\` in turn.
pub open spec fn spinner_char(tick: usize) -> char {
    let t = tick % 4;
    if t == 0 {
        '|'
    } else if t == 1 {
        '/'
    } else if t == 2 {
        '-'
    } else {
        '\\'
    }
}

/// The line shown in place of the listing while scanning.
pub fn scanning_text(tick: usize) -> (r: String)
    ensures
        r@ == "  "@ + seq![spinner_char(tick)] + " Scanning..."@,
{
    let t = tick % 4;
    let c = if t == 0 {
        '|'
    } else if t == 1 {
        '/'
    } else if t == 2 {
        '-'
    } else {
        '\\'
    };
    let mut r = String::from_str("  ");
    push_char(&mut r, c);
    r.append(" Scanning...");
    r
}

impl App {
    /// The header line: the program name, the current path and the current directory's size.
    pub fn header_text(&self) -> (r: String)
        ensures
            r@ == " disk-tree  "@ + reach(self.root.model(), self.nav_stack@).path + "    Total: "@
                + byte_size_text(
                match descend(self.root.model(), self.nav_stack@) {
                    Some(node) => node.size,
                    None => 0,
                },
            ),
    {
        let size = format_size(self.current_dir_size());
        let path = self.current_path();
        let mut r = String::from_str(" disk-tree  ");
        r.append(path.as_str());
        r.append("    Total: ");
        r.append(size.as_str());
        r
    }

    /// The model of the selected entry, when the selection is in range.
    pub open spec fn selected_model(&self) -> Option<EntryView> {
        if self.selected is Some && self.selected->0 < self.current_listing().len() {
            Some(self.current_listing()[self.selected->0 as int])
        } else {
            None
        }
    }

    pub open spec fn current_listing(&self) -> Seq<EntryView> {
        listing(self.root.model(), self.nav_stack@)
    }

    /// The App before scanning ends: an empty directory standing for `scan_path`, named by
    /// its file name (the whole path when it has none).
    pub fn new_scanning(scan_path: &str) -> (app: App)
        ensures
            app.state == (AppState::Scanning { tick: 0 }),
            app.root.name@ == match path_file_name(scan_path@) {
                Some(n) => n,
                None => scan_path@,
            },
            app.root.path@ == scan_path@,
            app.root.size == 0,
            app.root.is_dir,
            app.root.children@.len() == 0,
            app.root.flag is None,
            app.nav_stack@.len() == 0,
            app.selected is None,
            app.skipped_count == 0,
            app.status_message is None,
            !app.confirm_trash,
            !app.should_quit,
    {
        let name = match file_name(scan_path) {
            Some(n) => n,
            None => String::from_str(scan_path),
        };
        let root = DirEntry {
            name,
            path: String::from_str(scan_path),
            size: 0,
            is_dir: true,
            children: Vec::new(),
            flag: None,
        };
        App {
            state: AppState::Scanning { tick: 0 },
            root,
            nav_stack: Vec::new(),
            selected: None,
            skipped_count: 0,
            status_message: None,
            confirm_trash: false,
            should_quit: false,
        }
    }

    /// A ready App over `root`, with the first row selected when there is one.
    pub fn new(root: DirEntry, skipped_count: usize) -> (app: App)
        ensures
            app.state == AppState::Ready,
            app.root == root,
            app.nav_stack@.len() == 0,
            app.selected == first_row(root.children@.len()),
            app.skipped_count == skipped_count,
            app.status_message is None,
            !app.confirm_trash,
            !app.should_quit,
    {
        let selected = if root.children.len() > 0 {
            Some(0)
        } else {
            None
        };
        App {
            state: AppState::Ready,
            root,
            nav_stack: Vec::new(),
            selected,
            skipped_count,
            status_message: None,
            confirm_trash: false,
            should_quit: false,
        }
    }

    /// The selected entry of the current listing, if the selection is in range.
    pub fn selected_entry(&self) -> (r: Option<&DirEntry>)
        ensures
            match r {
                Some(e) => self.selected is Some && self.selected->0 < self.current_listing().len()
                    && e.model() == self.current_listing()[self.selected->0 as int],
                None => self.selected is None || self.selected->0 >= self.current_listing().len(),
            },
    {
        let sel = match self.selected {
            Some(s) => s,
            None => {
                return None;
            },
        };
        let children = self.current_children();
        proof {
            lemma_model_seq(children@);
        }
        if sel < children.len() {
            Some(&children[sel])
        } else {
            None
        }
    }

    /// Moves the selection one row down, stopping at the last row.
    pub fn next(&mut self)
        requires
            can_move_down(*old(self)),
        ensures
            moved_down(*old(self), *final(self)),
    {
        let children = self.current_children();
        proof {
            lemma_model_seq(children@);
        }
        let len = children.len();
        if len == 0 {
            return;
        }
        let current = match self.selected {
            Some(c) => c,
            None => 0,
        };
        self.selected = Some(if current + 1 < len - 1 { current + 1 } else { len - 1 });
    }

    /// Moves the selection one row up, stopping at the first row.
    pub fn previous(&mut self)
        ensures
            moved_up(*old(self), *final(self)),
    {
        let children = self.current_children();
        proof {
            lemma_model_seq(children@);
        }
        let len = children.len();
        if len == 0 {
            return;
        }
        let current = match self.selected {
            Some(c) => c,
            None => 0,
        };
        self.selected = Some(if current > 0 { current - 1 } else { 0 });
    }

    /// Opens the selected row when it is a directory, selecting its first row.
    pub fn enter(&mut self)
        ensures
            entered_selection(*old(self), *final(self)),
    {
        let selected = match self.selected {
            Some(i) => i,
            None => {
                return;
            },
        };
        let children = self.current_children();
        proof {
            lemma_model_seq(children@);
        }
        if selected >= children.len() {
            return;
        }
        if !children[selected].is_dir {
            return;
        }
        proof {
            lemma_listing_push(self.root.model(), self.nav_stack@, selected);
        }
        self.nav_stack.push(selected);
        let new_children = self.current_children();
        proof {
            lemma_model_seq(new_children@);
        }
        let new_len = new_children.len();
        if new_len > 0 {
            self.selected = Some(0);
        } else {
            self.selected = None;
        }
    }

    /// Goes back to the parent directory, selecting the row that was entered.
    pub fn go_back(&mut self)
        ensures
            went_back_from(*old(self), *final(self)),
    {
        if let Some(parent_idx) = self.nav_stack.pop() {
            self.selected = Some(parent_idx);
        }
    }

    /// Returns to the root, selecting its first row.
    pub fn jump_to_root(&mut self)
        ensures
            jumped_to_root(*old(self), *final(self)),
    {
        self.nav_stack.clear();
        let len = self.root.children.len();
        if len > 0 {
            self.selected = Some(0);
        } else {
            self.selected = None;
        }
    }

    /// Asks to confirm moving the selected entry to the Trash; does nothing when no entry is
    /// selected.
    pub fn initiate_trash(&mut self)
        ensures
            trash_initiated(*old(self), *final(self)),
    {
        let name = match self.selected_entry() {
            Some(e) => e.name.clone(),
            None => {
                return;
            },
        };
        let mut message = String::from_str("Move '");
        message.append(name.as_str());
        message.append("' to Trash? [y/n]");
        self.confirm_trash = true;
        self.status_message = Some(message);
    }

    /// The decision half of confirming the Trash move: when a confirmation was pending it is
    /// consumed, and the path of the selected entry is returned for the caller to move
    /// (`finish_trash` then takes the outcome). Without a selected entry the message is
    /// cleared instead.
    pub fn begin_trash(&mut self) -> (r: Option<String>)
        ensures
            trash_begun(*old(self), *final(self), r),
    {
        if !self.confirm_trash {
            return None;
        }
        self.confirm_trash = false;
        let target = match self.selected_entry() {
            Some(e) => e.path.clone(),
            None => {
                self.status_message = None;
                return None;
            },
        };
        Some(target)
    }

    /// The second half of confirming the Trash move: takes the outcome of moving `target`.
    /// On success `target` leaves the tree, directory sizes are recomputed, the selection is
    /// clamped to the new listing and the message cleared. On failure the message reports
    /// the error.
    pub fn finish_trash(&mut self, target: &str, outcome: Result<(), TrashError>)
        requires
            outcome is Ok ==> removal_fits(old(self).root.model(), target@),
        ensures
            same_but_tree(*final(self), *old(self)),
            match outcome {
                Ok(()) => {
                    &&& final(self).root.model() == removal(old(self).root.model(), target@)
                    &&& final(self).selected == clamped(
                        listing(final(self).root.model(), old(self).nav_stack@).len(),
                        old(self).selected,
                    )
                    &&& final(self).status_message is None
                },
                Err(e) => {
                    &&& final(self).root == old(self).root
                    &&& final(self).selected == old(self).selected
                    &&& final(self).status_message matches Some(m) && m@ == failure_message(e)
                },
            },
    {
        match outcome {
            Ok(()) => {
                let mut root = DirEntry {
                    name: String::new(),
                    path: String::new(),
                    size: 0,
                    is_dir: false,
                    children: Vec::new(),
                    flag: None,
                };
                std::mem::swap(&mut root, &mut self.root);
                self.root = remove_entry(root, target);
                let children = self.current_children();
                proof {
                    lemma_model_seq(children@);
                }
                let len = children.len();
                let sel = match self.selected {
                    Some(s) => s,
                    None => 0,
                };
                if len == 0 {
                    self.selected = None;
                } else {
                    self.selected = Some(if sel < len - 1 { sel } else { len - 1 });
                }
                self.status_message = None;
            },
            Err(e) => {
                let mut message = String::from_str("Trash failed: ");
                let text = error_debug(&e);
                message.append(text.as_str());
                self.status_message = Some(message);
            },
        }
    }

    /// Drops a pending Trash confirmation and its message.
    pub fn cancel_trash(&mut self)
        ensures
            trash_cancelled(*old(self), *final(self)),
    {
        self.confirm_trash = false;
        self.status_message = None;
    }

    /// Installs the finished scan: the tree with its entries flagged (see `apply_flags`),
    /// the skipped count, and the ready state; the first row is selected when there is one.
    pub fn apply_scan_result(&mut self, result: ScanResult, home: &str, brew_output: Option<String>)
        ensures
            exists|brew: Seq<char>|
                brew_cache_for(home@, match brew_output {
                    Some(o) => Some(o@),
                    None => None,
                }, brew) && final(self).root.model() == flagged(
                    result.root.model(),
                    path_join(home@, "Library/Caches"@),
                    Some(brew),
                ),
            final(self).skipped_count == result.skipped_count,
            final(self).state == AppState::Ready,
            final(self).selected == if result.root.children@.len() > 0 {
                Some(0usize)
            } else {
                old(self).selected
            },
            final(self).nav_stack@ == old(self).nav_stack@,
            final(self).status_message == old(self).status_message,
            final(self).confirm_trash == old(self).confirm_trash,
            final(self).should_quit == old(self).should_quit,
    {
        let ghost input = result.root.model();
        let flagged_root = apply_flags(result.root, home, brew_output);
        proof {
            lemma_model_seq(flagged_root.children@);
            lemma_flagged_len(input);
        }
        self.skipped_count = result.skipped_count;
        self.root = flagged_root;
        self.state = AppState::Ready;
        if self.root.children.len() > 0 {
            self.selected = Some(0);
        }
    }

    /// Advances the spinner while scanning.
    pub fn tick(&mut self)
        ensures
            match old(self).state {
                AppState::Scanning { tick } => final(self).state == (AppState::Scanning {
                    tick: if tick == usize::MAX { 0 } else { (tick + 1) as usize },
                }),
                AppState::Ready => final(self).state == AppState::Ready,
            },
            same_but_tick(*final(self), *old(self)),
    {
        if let AppState::Scanning { tick } = self.state {
            self.state = AppState::Scanning { tick: tick.wrapping_add(1) };
        }
    }

    /// Decides what a key press does. While scanning only `q` (quit) counts. While a Trash
    /// move awaits confirmation, `y` confirms it (the caller performs the move the action
    /// names) and any other key cancels it. Otherwise: `q` quits, Up/Down move the selection,
    /// Right/Enter open the selected directory, Left/Backspace go back, `r`/Esc return to the
    /// root and `d` asks to move the selected entry to the Trash.
    pub fn handle_key(&mut self, key: Key) -> (action: KeyAction)
        requires
            old(self).state is Ready && !old(self).confirm_trash && key == Key::Down ==> can_move_down(
                *old(self),
            ),
        ensures
            old(self).state is Scanning ==> *final(self) == *old(self) && if key == Key::Char('q') {
                action is Quit
            } else {
                action is Continue
            },
            old(self).state is Ready && old(self).confirm_trash ==> if key == Key::Char('y') {
                exists|r: Option<String>|
                    trash_begun(*old(self), *final(self), r) && match r {
                        Some(p) => action matches KeyAction::MoveToTrash(q) && q == p,
                        None => action is Continue,
                    }
            } else {
                trash_cancelled(*old(self), *final(self)) && action is Continue
            },
            old(self).state is Ready && !old(self).confirm_trash ==> match key {
                Key::Char('q') => *final(self) == *old(self) && action is Quit,
                Key::Up => moved_up(*old(self), *final(self)) && action is Continue,
                Key::Down => moved_down(*old(self), *final(self)) && action is Continue,
                Key::Right | Key::Enter => entered_selection(*old(self), *final(self)) && action is Continue,
                Key::Left | Key::Backspace => went_back_from(*old(self), *final(self)) && action is Continue,
                Key::Char('r') | Key::Esc => jumped_to_root(*old(self), *final(self)) && action is Continue,
                Key::Char('d') => trash_initiated(*old(self), *final(self)) && action is Continue,
                _ => *final(self) == *old(self) && action is Continue,
            },
    {
        if let AppState::Scanning { .. } = self.state {
            if key == Key::Char('q') {
                return KeyAction::Quit;
            }
            return KeyAction::Continue;
        }
        if self.confirm_trash {
            if key == Key::Char('y') {
                let r = self.begin_trash();
                match r {
                    Some(p) => KeyAction::MoveToTrash(p),
                    None => KeyAction::Continue,
                }
            } else {
                self.cancel_trash();
                KeyAction::Continue
            }
        } else {
            match key {
                Key::Char('q') => KeyAction::Quit,
                Key::Up => {
                    self.previous();
                    KeyAction::Continue
                },
                Key::Down => {
                    self.next();
                    KeyAction::Continue
                },
                Key::Right | Key::Enter => {
                    self.enter();
                    KeyAction::Continue
                },
                Key::Left | Key::Backspace => {
                    self.go_back();
                    KeyAction::Continue
                },
                Key::Char('r') | Key::Esc => {
                    self.jump_to_root();
                    KeyAction::Continue
                },
                Key::Char('d') => {
                    self.initiate_trash();
                    KeyAction::Continue
                },
                _ => KeyAction::Continue,
            }
        }
    }

    /// The children of the currently navigated directory (none when the navigation stack
    /// leaves the tree).
    pub fn current_children(&self) -> (r: &[DirEntry])
        ensures
            DirEntry::model_seq(r@) == self.current_listing(),
    {
        let mut node = &self.root;
        let n = self.nav_stack.len();
        let mut i: usize = 0;
        proof {
            assert(self.nav_stack@.skip(0) =~= self.nav_stack@);
        }
        while i < n
            invariant
                n == self.nav_stack@.len(),
                i <= n,
                descend(self.root.model(), self.nav_stack@) == descend(
                    node.model(),
                    self.nav_stack@.skip(i as int),
                ),
            decreases n - i,
        {
            let idx = self.nav_stack[i];
            proof {
                lemma_model_seq(node.children@);
                assert(self.nav_stack@.skip(i as int).drop_first() =~= self.nav_stack@.skip(i + 1));
            }
            if idx < node.children.len() {
                node = &node.children[idx];
            } else {
                proof {
                    assert(DirEntry::model_seq(Seq::<DirEntry>::empty()) =~= Seq::<EntryView>::empty());
                }
                return &[];
            }
            i += 1;
        }
        proof {
            assert(self.nav_stack@.skip(n as int) =~= Seq::<usize>::empty());
        }
        node.children.as_slice()
    }

    /// The size of the currently navigated directory (0 when the stack leaves the tree).
    pub fn current_dir_size(&self) -> (r: u64)
        ensures
            r == match descend(self.root.model(), self.nav_stack@) {
                Some(node) => node.size,
                None => 0,
            },
    {
        let mut node = &self.root;
        let n = self.nav_stack.len();
        let mut i: usize = 0;
        proof {
            assert(self.nav_stack@.skip(0) =~= self.nav_stack@);
        }
        while i < n
            invariant
                n == self.nav_stack@.len(),
                i <= n,
                descend(self.root.model(), self.nav_stack@) == descend(
                    node.model(),
                    self.nav_stack@.skip(i as int),
                ),
            decreases n - i,
        {
            let idx = self.nav_stack[i];
            proof {
                lemma_model_seq(node.children@);
                assert(self.nav_stack@.skip(i as int).drop_first() =~= self.nav_stack@.skip(i + 1));
            }
            if idx < node.children.len() {
                node = &node.children[idx];
            } else {
                return 0;
            }
            i += 1;
        }
        proof {
            assert(self.nav_stack@.skip(n as int) =~= Seq::<usize>::empty());
        }
        node.size
    }

    /// The path of the currently navigated directory: the deepest node the stack reaches.
    pub fn current_path(&self) -> (r: String)
        ensures
            r@ == reach(self.root.model(), self.nav_stack@).path,
    {
        let mut node = &self.root;
        let n = self.nav_stack.len();
        let mut i: usize = 0;
        proof {
            assert(self.nav_stack@.skip(0) =~= self.nav_stack@);
        }
        while i < n
            invariant
                n == self.nav_stack@.len(),
                i <= n,
                reach(self.root.model(), self.nav_stack@) == reach(
                    node.model(),
                    self.nav_stack@.skip(i as int),
                ),
            ensures
                reach(self.root.model(), self.nav_stack@) == node.model(),
            decreases n - i,
        {
            let idx = self.nav_stack[i];
            proof {
                lemma_model_seq(node.children@);
                assert(self.nav_stack@.skip(i as int).drop_first() =~= self.nav_stack@.skip(i + 1));
            }
            if idx < node.children.len() {
                node = &node.children[idx];
            } else {
                break;
            }
            i += 1;
            proof {
                if i == n {
                    assert(self.nav_stack@.skip(n as int) =~= Seq::<usize>::empty());
                }
            }
        }
        node.path.clone()
    }
}

} // verus!
