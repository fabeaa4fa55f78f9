//! The interactive session: which folders are listed, which are selected, where
//! the cursor is, and what each key does. Drawing the screen, reading keys and
//! moving folders to the trash are left to the caller, which hands each key to
//! `App::handle_key` and carries out the command it returns.
use vstd::prelude::*;
use vstd::string::*;

use crate::age::AgeThreshold;
use crate::fuzzy::{folder_matches, folder_text_fits, is_match_order, is_visible, matching_indices, scored};
use crate::path;
use crate::path::paths_equal;
use crate::scanner::{older_than, size_sum, threshold_usable, DependencyFolder, ScanSummary};
use crate::text;
use crate::text::{chars_of, copy_strings, decimal_u64, extend_chars, string_of};

verus! {

/// A key that identifies a path up to the equality of paths (component by component).
pub open spec fn key_of(p: Seq<char>) -> Seq<Seq<u32>> {
    path::path_key(p)
}

/// The paths of a selection, as keys.
pub open spec fn selection_keys(sel: Seq<String>) -> Set<Seq<Seq<u32>>> {
    Set::new(|k: Seq<Seq<u32>>| exists|i: int| 0 <= i < sel.len() && key_of(sel[i]@) == k)
}

/// No path occurs twice in a selection.
pub open spec fn distinct_paths(sel: Seq<String>) -> bool {
    forall|i: int, j: int| 0 <= i < j < sel.len() ==> key_of((#[trigger] sel[i])@) != key_of((#[trigger] sel[j])@)
}

/// The paths of the folders, as keys.
pub open spec fn folder_keys(folders: Seq<DependencyFolder>) -> Set<Seq<Seq<u32>>> {
    Set::new(|k: Seq<Seq<u32>>| exists|j: int| 0 <= j < folders.len() && key_of(folders[j].path@) == k)
}

/// The folder at `i` is picked: listed under `query` when `need_visible`, and
/// older than `t` when `need_ready`.
pub open spec fn picked(
    folders: Seq<DependencyFolder>,
    i: int,
    query: Seq<char>,
    t: AgeThreshold,
    need_visible: bool,
    need_ready: bool,
) -> bool {
    (!need_visible || is_visible(folders[i], query)) && (!need_ready || older_than(folders[i], t))
}

/// The paths, as keys, of the picked folders among the first `n`.
pub open spec fn picked_keys(
    folders: Seq<DependencyFolder>,
    n: int,
    query: Seq<char>,
    t: AgeThreshold,
    need_visible: bool,
    need_ready: bool,
) -> Set<Seq<Seq<u32>>> {
    Set::new(
        |k: Seq<Seq<u32>>|
            exists|i: int|
                0 <= i < n && #[trigger] picked(folders, i, query, t, need_visible, need_ready) && key_of(
                    folders[i].path@,
                ) == k,
    )
}

/// `k` added to the selection when it is not there, taken out when it is.
pub open spec fn toggled(s: Set<Seq<Seq<u32>>>, k: Seq<Seq<u32>>) -> Set<Seq<Seq<u32>>> {
    if s.contains(k) {
        s.remove(k)
    } else {
        s.insert(k)
    }
}

/// Toggling a path twice gives back the selection.
pub proof fn lemma_toggle_twice(s: Set<Seq<Seq<u32>>>, k: Seq<Seq<u32>>)
    ensures
        toggled(toggled(s, k), k) == s,
{
    if s.contains(k) {
        assert(s.remove(k).insert(k) =~= s);
    } else {
        assert(s.insert(k).remove(k) =~= s);
    }
}

proof fn lemma_keys_push(sel: Seq<String>, p: String)
    ensures
        selection_keys(sel.push(p)) == selection_keys(sel).insert(key_of(p@)),
{
    let s2 = sel.push(p);
    assert forall|k: Seq<Seq<u32>>| selection_keys(s2).contains(k) implies selection_keys(sel).insert(key_of(p@)).contains(k) by {
        let i = choose|i: int| 0 <= i < s2.len() && key_of(s2[i]@) == k;
        if i < sel.len() {
            assert(s2[i] == sel[i]);
        }
    }
    assert forall|k: Seq<Seq<u32>>| selection_keys(sel).insert(key_of(p@)).contains(k) implies selection_keys(s2).contains(k) by {
        if k == key_of(p@) {
            assert(s2[sel.len() as int] == p);
        } else {
            let i = choose|i: int| 0 <= i < sel.len() && key_of(sel[i]@) == k;
            assert(s2[i] == sel[i]);
        }
    }
    assert(selection_keys(s2) =~= selection_keys(sel).insert(key_of(p@)));
}

proof fn lemma_keys_remove(sel: Seq<String>, j: int)
    requires
        0 <= j < sel.len(),
        distinct_paths(sel),
    ensures
        selection_keys(sel.remove(j)) == selection_keys(sel).remove(key_of(sel[j]@)),
        distinct_paths(sel.remove(j)),
{
    let s2 = sel.remove(j);
    let kj = key_of(sel[j]@);
    assert forall|k: Seq<Seq<u32>>| selection_keys(s2).contains(k) implies selection_keys(sel).remove(kj).contains(k) by {
        let i = choose|i: int| 0 <= i < s2.len() && key_of(s2[i]@) == k;
        let oi = if i < j { i } else { i + 1 };
        assert(s2[i] == sel[oi]);
        if oi < j {
            assert(key_of(sel[oi]@) != key_of(sel[j]@));
        } else {
            assert(key_of(sel[j]@) != key_of(sel[oi]@));
        }
    }
    assert forall|k: Seq<Seq<u32>>| selection_keys(sel).remove(kj).contains(k) implies selection_keys(s2).contains(k) by {
        let i = choose|i: int| 0 <= i < sel.len() && key_of(sel[i]@) == k;
        assert(i != j);
        if i < j {
            assert(s2[i] == sel[i]);
        } else {
            assert(s2[i - 1] == sel[i]);
        }
    }
    assert(selection_keys(s2) =~= selection_keys(sel).remove(kj));
    assert forall|a: int, b: int| 0 <= a < b < s2.len() implies key_of((#[trigger] s2[a])@) != key_of(
        (#[trigger] s2[b])@,
    ) by {
        let oa = if a < j { a } else { a + 1 };
        let ob = if b < j { b } else { b + 1 };
        assert(s2[a] == sel[oa]);
        assert(s2[b] == sel[ob]);
    }
}

/// The position in `sel` of the path `p`, if it is selected.
fn find_path(sel: &Vec<String>, p: &str) -> (r: Option<usize>)
    ensures
        match r {
            Some(j) => j < sel@.len() && key_of(sel@[j as int]@) == key_of(p@),
            None => !selection_keys(sel@).contains(key_of(p@)),
        },
{
    let mut j: usize = 0;
    while j < sel.len()
        invariant
            0 <= j <= sel.len(),
            forall|i: int| 0 <= i < j ==> key_of((#[trigger] sel@[i])@) != key_of(p@),
        decreases sel.len() - j,
    {
        if paths_equal(sel[j].as_str(), p) {
            return Some(j);
        }
        j = j + 1;
    }
    None
}

/// Adds the path `p` to the selection unless it is there.
fn add_path(sel: &mut Vec<String>, p: &String)
    requires
        distinct_paths(old(sel)@),
    ensures
        distinct_paths(final(sel)@),
        selection_keys(final(sel)@) == selection_keys(old(sel)@).insert(key_of(p@)),
{
    match find_path(sel, p.as_str()) {
        Some(j) => {
            assert(selection_keys(sel@).contains(key_of(p@)));
            assert(selection_keys(sel@).insert(key_of(p@)) =~= selection_keys(sel@));
        },
        None => {
            let ghost before = sel@;
            sel.push(p.clone());
            proof {
                lemma_keys_push(before, *p);
                assert forall|i: int, j: int| 0 <= i < j < sel@.len() implies key_of((#[trigger] sel@[i])@)
                    != key_of((#[trigger] sel@[j])@) by {
                    if j == before.len() {
                        assert(selection_keys(before).contains(key_of(sel@[i]@)));
                    } else {
                        assert(sel@[i] == before[i] && sel@[j] == before[j]);
                    }
                }
            }
        },
    }
}

/// Adds the path `p` to the selection, or takes it out when it is there.
fn toggle_path(sel: &mut Vec<String>, p: &String)
    requires
        distinct_paths(old(sel)@),
    ensures
        distinct_paths(final(sel)@),
        selection_keys(final(sel)@) == toggled(selection_keys(old(sel)@), key_of(p@)),
{
    match find_path(sel, p.as_str()) {
        Some(j) => {
            let ghost before = sel@;
            assert(selection_keys(before).contains(key_of(p@)));
            sel.remove(j);
            proof {
                lemma_keys_remove(before, j as int);
            }
        },
        None => {
            add_path(sel, p);
        },
    }
}

proof fn lemma_picked_step(
    folders: Seq<DependencyFolder>,
    n: int,
    query: Seq<char>,
    t: AgeThreshold,
    need_visible: bool,
    need_ready: bool,
)
    requires
        0 <= n < folders.len(),
    ensures
        picked_keys(folders, n + 1, query, t, need_visible, need_ready) == if picked(
            folders,
            n,
            query,
            t,
            need_visible,
            need_ready,
        ) {
            picked_keys(folders, n, query, t, need_visible, need_ready).insert(key_of(folders[n].path@))
        } else {
            picked_keys(folders, n, query, t, need_visible, need_ready)
        },
{
    let a = picked_keys(folders, n + 1, query, t, need_visible, need_ready);
    let b = picked_keys(folders, n, query, t, need_visible, need_ready);
    if picked(folders, n, query, t, need_visible, need_ready) {
        assert(a =~= b.insert(key_of(folders[n].path@)));
    } else {
        assert(a =~= b);
    }
}

/// The paths of the folders picked from `folders`, each once.
fn pick_paths(
    folders: &Vec<DependencyFolder>,
    query: &str,
    t: AgeThreshold,
    need_visible: bool,
    need_ready: bool,
) -> (r: Vec<String>)
    requires
        need_visible ==> 100 * query@.len() <= i64::MAX,
        need_visible ==> forall|k: int| 0 <= k < folders@.len() ==> folder_text_fits(#[trigger] folders@[k]),
        need_ready ==> threshold_usable(folders@, t),
    ensures
        distinct_paths(r@),
        selection_keys(r@) == picked_keys(folders@, folders@.len() as int, query@, t, need_visible, need_ready),
{
    let mut out: Vec<String> = Vec::new();
    assert(selection_keys(out@) =~= picked_keys(folders@, 0, query@, t, need_visible, need_ready));
    let mut i: usize = 0;
    while i < folders.len()
        invariant
            0 <= i <= folders.len(),
            need_visible ==> 100 * query@.len() <= i64::MAX,
            need_visible ==> forall|k: int| 0 <= k < folders@.len() ==> folder_text_fits(#[trigger] folders@[k]),
            need_ready ==> threshold_usable(folders@, t),
            distinct_paths(out@),
            selection_keys(out@) == picked_keys(folders@, i as int, query@, t, need_visible, need_ready),
        decreases folders.len() - i,
    {
        let f = &folders[i];
        let visible_ok = !need_visible || folder_matches(f, query);
        let ready_ok = !need_ready || f.is_older_than(t);
        proof {
            lemma_picked_step(folders@, i as int, query@, t, need_visible, need_ready);
        }
        if visible_ok && ready_ok {
            add_path(&mut out, &f.path);
        }
        i = i + 1;
    }
    out
}

/// The selected folders, as sizes: each folder whose path is selected counts.
pub open spec fn selected_size(folders: Seq<DependencyFolder>, keys: Set<Seq<Seq<u32>>>) -> nat
    decreases folders.len(),
{
    if folders.len() == 0 {
        0
    } else {
        selected_size(folders.drop_last(), keys) + if keys.contains(key_of(folders.last().path@)) {
            folders.last().size_bytes as nat
        } else {
            0
        }
    }
}

/// The selected folders never weigh more than all folders.
pub proof fn lemma_selected_size(folders: Seq<DependencyFolder>, keys: Set<Seq<Seq<u32>>>)
    ensures
        selected_size(folders, keys) <= size_sum(folders),
    decreases folders.len(),
{
    if folders.len() > 0 {
        lemma_selected_size(folders.drop_last(), keys);
    }
}

/// The screen the session is on.
#[derive(Debug, Clone, Copy, PartialEq, Eq, Structural)]
pub enum Mode {
    Browse,
    Search,
    Review,
    Done,
}

/// A key the user pressed.
#[derive(Debug, Clone, Copy, PartialEq, Eq, Structural)]
pub enum Key {
    Char(char),
    Up,
    Down,
    Enter,
    Esc,
    Backspace,
    Other,
}

/// What the caller does after a key: go on, end the session, or move the
/// listed folders to the trash and report back with `App::finish_trash`.
#[derive(Debug)]
pub enum Command {
    Continue,
    Quit,
    Trash(Vec<String>),
}

/// The outcome of moving one folder to the trash: the error text when it failed.
#[derive(Debug)]
pub struct TrashOutcome {
    pub path: String,
    pub error: Option<String>,
}

/// The state of an interactive session over a scan.
#[derive(Debug)]
pub struct App {
    pub scan: ScanSummary,
    pub threshold: AgeThreshold,
    pub cursor: usize,
    pub filter: String,
    pub selected: Vec<String>,
    pub mode: Mode,
    pub message: String,
}

pub open spec fn browse_help() -> Seq<char> {
    "space: select  /: search  enter: review  1-4: age preset  q: quit"@
}

pub open spec fn search_help() -> Seq<char> {
    "type to fuzzy search  backspace: edit  esc/enter: apply"@
}

/// The help shown while reviewing, with a warning when newer folders are selected.
pub open spec fn review_help(warn: bool) -> Seq<char> {
    if warn {
        "selection includes newer folders  enter: move selected folders to trash  esc: back  q: quit"@
    } else {
        "enter: move selected folders to trash  esc: back  q: quit"@
    }
}

pub open spec fn nothing_selected() -> Seq<char> {
    "nothing selected"@
}

/// The number of folders listed under `query`.
pub open spec fn visible_len(folders: Seq<DependencyFolder>, query: Seq<char>) -> nat {
    scored(folders, query).len()
}

/// The cursor is on a listed row, or at the top when nothing is listed.
pub open spec fn cursor_fits(cursor: usize, n: nat) -> bool {
    if n == 0 {
        cursor == 0
    } else {
        cursor < n
    }
}

/// `c` brought onto the rows `0..n` (the top row when there is none).
pub open spec fn clamp_to(c: int, n: nat) -> usize {
    if n == 0 || c < 0 {
        0
    } else if c >= n {
        (n - 1) as usize
    } else {
        c as usize
    }
}

/// The cursor kept where it is when that row is still listed, otherwise moved
/// to the last listed row (the top when none is).
pub open spec fn settle(c: usize, n: nat) -> usize {
    if n == 0 {
        0
    } else if c >= n {
        (n - 1) as usize
    } else {
        c
    }
}

/// The number of outcomes that failed.
pub open spec fn failures(outs: Seq<TrashOutcome>) -> nat
    decreases outs.len(),
{
    if outs.len() == 0 {
        0
    } else {
        failures(outs.drop_last()) + if outs.last().error is Some {
            1nat
        } else {
            0nat
        }
    }
}

/// The position of the first failed outcome.
pub open spec fn first_failure(outs: Seq<TrashOutcome>) -> Option<int>
    decreases outs.len(),
{
    if outs.len() == 0 {
        None
    } else {
        match first_failure(outs.drop_last()) {
            Some(k) => Some(k),
            None => if outs.last().error is Some {
                Some(outs.len() - 1)
            } else {
                None
            },
        }
    }
}

proof fn lemma_first_failure(outs: Seq<TrashOutcome>)
    ensures
        match first_failure(outs) {
            Some(k) => 0 <= k < outs.len() && outs[k].error is Some,
            None => failures(outs) == 0,
        },
    decreases outs.len(),
{
    if outs.len() > 0 {
        lemma_first_failure(outs.drop_last());
        match first_failure(outs.drop_last()) {
            Some(k) => {
                assert(outs[k] == outs.drop_last()[k]);
            },
            None => {},
        }
    }
}

/// What is said once folders were moved to the trash: how many moved, and when
/// some failed, how many and the first error, naming its folder.
pub open spec fn done_message(outs: Seq<TrashOutcome>) -> Seq<char> {
    let failed = failures(outs);
    let moved = (outs.len() - failed) as nat;
    match first_failure(outs) {
        None => "moved "@ + text::decimal(moved) + " folder(s) to trash; restore from the OS trash if needed. press any key to exit"@,
        Some(k) => "moved "@ + text::decimal(moved) + "; "@ + text::decimal(failed) + " failed. first error: "@
            + outs[k].path@ + ": "@ + outs[k].error.unwrap()@ + ". press any key to exit"@,
    }
}

impl App {
    /// The selected paths, as keys.
    pub open spec fn keys(self) -> Set<Seq<Seq<u32>>> {
        selection_keys(self.selected@)
    }

    /// The number of folders listed.
    pub open spec fn shown(self) -> nat {
        visible_len(self.scan.folders@, self.filter@)
    }

    /// Everything but the cursor is in order.
    pub open spec fn settled(self) -> bool {
        &&& threshold_usable(self.scan.folders@, self.threshold)
        &&& size_sum(self.scan.folders@) <= u64::MAX
        &&& forall|k: int| 0 <= k < self.scan.folders@.len() ==> folder_text_fits(#[trigger] self.scan.folders@[k])
        &&& 100 * self.filter@.len() <= i64::MAX
        &&& distinct_paths(self.selected@)
        &&& self.keys().subset_of(folder_keys(self.scan.folders@))
    }

    /// The session is in order: the cursor is on a listed row, no path is selected
    /// twice, and only paths of scanned folders are selected.
    pub open spec fn wf(self) -> bool {
        self.settled() && cursor_fits(self.cursor, self.shown())
    }

    /// The folder under the cursor is `f`.
    pub open spec fn at_cursor(self, f: DependencyFolder) -> bool {
        exists|v: Seq<usize>|
            is_match_order(self.scan.folders@, self.filter@, v) && f == self.scan.folders@[v[self.cursor as int] as int]
    }

    /// Some selected folder is newer than the threshold.
    pub open spec fn has_newer(self) -> bool {
        exists|j: int|
            0 <= j < self.scan.folders@.len() && self.keys().contains(key_of(self.scan.folders@[j].path@))
                && !older_than(#[trigger] self.scan.folders@[j], self.threshold)
    }

    /// A session over `scan` at `threshold`, listing the folders that match
    /// `filter`, with every folder older than the threshold selected.
    pub fn new(scan: ScanSummary, threshold: AgeThreshold, filter: String) -> (r: Self)
        requires
            threshold_usable(scan.folders@, threshold),
            size_sum(scan.folders@) <= u64::MAX,
            forall|k: int| 0 <= k < scan.folders@.len() ==> folder_text_fits(#[trigger] scan.folders@[k]),
            100 * filter@.len() <= i64::MAX,
        ensures
            r.wf(),
            r.scan == scan,
            r.threshold == threshold,
            r.filter == filter,
            r.cursor == 0,
            r.mode == Mode::Browse,
            r.message@ == browse_help(),
            r.keys() == picked_keys(scan.folders@, scan.folders@.len() as int, filter@, threshold, false, true),
    {
        let selected = pick_paths(&scan.folders, filter.as_str(), threshold, false, true);
        proof {
            lemma_picked_in_folders(scan.folders@, scan.folders@.len() as int, filter@, threshold, false, true);
        }
        App {
            scan,
            threshold,
            cursor: 0,
            filter,
            selected,
            mode: Mode::Browse,
            message: String::from_str("space: select  /: search  enter: review  1-4: age preset  q: quit"),
        }
    }

    /// The positions of the listed folders, best matches first.
    pub fn visible_indices(&self) -> (r: Vec<usize>)
        requires
            self.settled(),
        ensures
            is_match_order(self.scan.folders@, self.filter@, r@),
            crate::scanner::distinct_positions(r@, self.scan.folders@.len() as int),
            r@.len() == self.shown(),
    {
        let r = matching_indices(self.scan.folders.as_slice(), self.filter.as_str());
        proof {
            crate::fuzzy::lemma_match_len(self.scan.folders@, self.filter@, r@);
        }
        r
    }

    /// The folder under the cursor, if any folder is listed.
    pub fn current_folder(&self) -> (r: Option<&DependencyFolder>)
        requires
            self.wf(),
        ensures
            match r {
                Some(f) => self.shown() > 0 && self.at_cursor(*f),
                None => self.shown() == 0,
            },
    {
        let visible = self.visible_indices();
        if self.cursor < visible.len() {
            let k = visible[self.cursor];
            assert(k < self.scan.folders@.len());
            Some(&self.scan.folders[k])
        } else {
            None
        }
    }

    /// Moves the cursor by `delta` rows, stopping at the first and last rows.
    pub fn move_cursor(&mut self, delta: isize)
        requires
            old(self).wf(),
        ensures
            final(self).wf(),
            final(self).cursor == clamp_to(old(self).cursor + delta, old(self).shown()),
            final(self).scan == old(self).scan,
            final(self).threshold == old(self).threshold,
            final(self).filter == old(self).filter,
            final(self).selected == old(self).selected,
            final(self).mode == old(self).mode,
            final(self).message == old(self).message,
    {
        let n = self.visible_indices().len();
        if n == 0 {
            self.cursor = 0;
            return;
        }
        let c: i128 = self.cursor as i128 + delta as i128;
        if c < 0 {
            self.cursor = 0;
        } else if c >= n as i128 {
            self.cursor = n - 1;
        } else {
            self.cursor = c as usize;
        }
    }

    /// Brings the cursor back onto the listed rows after the filter changed.
    fn clamp_cursor(&mut self)
        requires
            old(self).settled(),
        ensures
            final(self).wf(),
            final(self).cursor == settle(old(self).cursor, old(self).shown()),
            final(self).scan == old(self).scan,
            final(self).threshold == old(self).threshold,
            final(self).filter == old(self).filter,
            final(self).selected == old(self).selected,
            final(self).mode == old(self).mode,
            final(self).message == old(self).message,
    {
        let n = self.visible_indices().len();
        if n == 0 {
            self.cursor = 0;
        } else if self.cursor >= n {
            self.cursor = n - 1;
        }
    }

    /// Selects the folder under the cursor, or unselects it when it is selected.
    /// Folders newer than the threshold can be selected by hand too.
    pub fn toggle_current(&mut self)
        requires
            old(self).wf(),
        ensures
            final(self).wf(),
            final(self).scan == old(self).scan,
            final(self).threshold == old(self).threshold,
            final(self).filter == old(self).filter,
            final(self).cursor == old(self).cursor,
            final(self).mode == old(self).mode,
            final(self).message == old(self).message,
            old(self).shown() == 0 ==> final(self).selected == old(self).selected,
            old(self).shown() > 0 ==> exists|f: DependencyFolder|
                old(self).at_cursor(f) && final(self).keys() == toggled(old(self).keys(), key_of(f.path@)),
    {
        let visible = self.visible_indices();
        if self.cursor >= visible.len() {
            return;
        }
        let k = visible[self.cursor];
        assert(k < self.scan.folders@.len());
        let path = self.scan.folders[k].path.clone();
        let ghost before = self.keys();
        let ghost start = *self;
        proof {
            assert(folder_keys(self.scan.folders@).contains(key_of(path@)));
            assert(is_match_order(start.scan.folders@, start.filter@, visible@));
            assert(start.at_cursor(start.scan.folders@[k as int]));
        }
        toggle_path(&mut self.selected, &path);
        proof {
            assert(self.keys().subset_of(folder_keys(self.scan.folders@))) by {
                assert forall|x: Seq<Seq<u32>>| self.keys().contains(x) implies folder_keys(self.scan.folders@).contains(x) by {
                    if x != key_of(path@) {
                        assert(before.contains(x));
                    }
                }
            }
        }
    }

    /// Selects exactly the listed folders that are older than the threshold.
    pub fn select_all_visible(&mut self)
        requires
            old(self).wf(),
        ensures
            final(self).wf(),
            final(self).scan == old(self).scan,
            final(self).threshold == old(self).threshold,
            final(self).filter == old(self).filter,
            final(self).cursor == old(self).cursor,
            final(self).mode == old(self).mode,
            final(self).message == old(self).message,
            final(self).keys() == picked_keys(
                old(self).scan.folders@,
                old(self).scan.folders@.len() as int,
                old(self).filter@,
                old(self).threshold,
                true,
                true,
            ),
    {
        self.selected = pick_paths(&self.scan.folders, self.filter.as_str(), self.threshold, true, true);
        proof {
            lemma_picked_in_folders(self.scan.folders@, self.scan.folders@.len() as int, self.filter@, self.threshold, true, true);
        }
    }

    /// Selects exactly the listed folders, whatever their age.
    pub fn select_every_visible(&mut self)
        requires
            old(self).wf(),
        ensures
            final(self).wf(),
            final(self).scan == old(self).scan,
            final(self).threshold == old(self).threshold,
            final(self).filter == old(self).filter,
            final(self).cursor == old(self).cursor,
            final(self).mode == old(self).mode,
            final(self).message == old(self).message,
            final(self).keys() == picked_keys(
                old(self).scan.folders@,
                old(self).scan.folders@.len() as int,
                old(self).filter@,
                old(self).threshold,
                true,
                false,
            ),
    {
        self.selected = pick_paths(&self.scan.folders, self.filter.as_str(), self.threshold, true, false);
        proof {
            lemma_picked_in_folders(self.scan.folders@, self.scan.folders@.len() as int, self.filter@, self.threshold, true, false);
        }
    }

    /// Unselects everything.
    pub fn clear_selection(&mut self)
        requires
            old(self).wf(),
        ensures
            final(self).wf(),
            final(self).scan == old(self).scan,
            final(self).threshold == old(self).threshold,
            final(self).filter == old(self).filter,
            final(self).cursor == old(self).cursor,
            final(self).mode == old(self).mode,
            final(self).message == old(self).message,
            final(self).selected@.len() == 0,
            final(self).keys() == Set::<Seq<Seq<u32>>>::empty(),
    {
        self.selected = Vec::new();
        assert(self.keys() =~= Set::<Seq<Seq<u32>>>::empty());
    }

    /// Switches to `threshold` and selects exactly the listed folders older than it.
    pub fn set_threshold(&mut self, threshold: AgeThreshold)
        requires
            old(self).wf(),
            threshold_usable(old(self).scan.folders@, threshold),
        ensures
            final(self).wf(),
            final(self).scan == old(self).scan,
            final(self).threshold == threshold,
            final(self).filter == old(self).filter,
            final(self).cursor == old(self).cursor,
            final(self).mode == old(self).mode,
            final(self).message == old(self).message,
            final(self).keys() == picked_keys(
                old(self).scan.folders@,
                old(self).scan.folders@.len() as int,
                old(self).filter@,
                threshold,
                true,
                true,
            ),
    {
        self.threshold = threshold;
        self.select_all_visible();
    }

    /// The total size of the selected folders.
    pub fn selected_bytes(&self) -> (r: u64)
        requires
            self.settled(),
        ensures
            r == selected_size(self.scan.folders@, self.keys()),
            r <= size_sum(self.scan.folders@),
    {
        let folders = &self.scan.folders;
        let mut acc: u64 = 0;
        let mut i: usize = 0;
        while i < folders.len()
            invariant
                0 <= i <= folders.len(),
                folders@ == self.scan.folders@,
                size_sum(folders@) <= u64::MAX,
                acc == selected_size(folders@.take(i as int), selection_keys(self.selected@)),
            decreases folders.len() - i,
        {
            let ghost next = folders@.take(i + 1);
            proof {
                assert(next.drop_last() =~= folders@.take(i as int));
                lemma_selected_size(next, selection_keys(self.selected@));
                crate::scanner::lemma_size_sum_prefix(folders@, i + 1);
            }
            if find_path(&self.selected, folders[i].path.as_str()).is_some() {
                acc = acc + folders[i].size_bytes;
            }
            i = i + 1;
        }
        assert(folders@.take(folders.len() as int) =~= folders@);
        proof {
            lemma_selected_size(folders@, selection_keys(self.selected@));
        }
        acc
    }

    /// Whether the path `p` is selected.
    pub fn is_selected(&self, p: &str) -> (r: bool)
        ensures
            r == self.keys().contains(key_of(p@)),
    {
        match find_path(&self.selected, p) {
            Some(j) => {
                assert(selection_keys(self.selected@).contains(key_of(self.selected@[j as int]@)));
                true
            },
            None => false,
        }
    }

    /// Whether some selected folder is newer than the threshold.
    pub fn selection_has_newer(&self) -> (r: bool)
        requires
            self.settled(),
        ensures
            r == self.has_newer(),
    {
        let folders = &self.scan.folders;
        let mut i: usize = 0;
        while i < folders.len()
            invariant
                0 <= i <= folders.len(),
                folders@ == self.scan.folders@,
                threshold_usable(folders@, self.threshold),
                forall|j: int|
                    0 <= j < i ==> !(selection_keys(self.selected@).contains(key_of(folders@[j].path@)) && !older_than(
                        #[trigger] folders@[j],
                        self.threshold,
                    )),
            decreases folders.len() - i,
        {
            if find_path(&self.selected, folders[i].path.as_str()).is_some() && !folders[i].is_older_than(
                self.threshold,
            ) {
                assert(selection_keys(self.selected@).contains(key_of(folders@[i as int].path@)));
                assert(!older_than(self.scan.folders@[i as int], self.threshold));
                assert(self.keys().contains(key_of(self.scan.folders@[i as int].path@)));
                assert(self.has_newer());
                return true;
            }
            i = i + 1;
        }
        false
    }

    /// Adds `ch` to the end of the filter and keeps the cursor on a listed row.
    fn push_filter(&mut self, ch: char)
        requires
            old(self).wf(),
            100 * (old(self).filter@.len() + 1) <= i64::MAX,
        ensures
            final(self).wf(),
            final(self).filter@ == old(self).filter@.push(ch),
            final(self).cursor == settle(old(self).cursor, visible_len(old(self).scan.folders@, final(self).filter@)),
            final(self).scan == old(self).scan,
            final(self).threshold == old(self).threshold,
            final(self).selected == old(self).selected,
            final(self).mode == old(self).mode,
            final(self).message == old(self).message,
    {
        let mut v = chars_of(self.filter.as_str());
        v.push(ch);
        self.filter = string_of(v.as_slice());
        self.clamp_cursor();
    }

    /// Takes the last character off the filter and keeps the cursor on a listed row.
    fn pop_filter(&mut self)
        requires
            old(self).wf(),
        ensures
            final(self).wf(),
            final(self).filter@ == (if old(self).filter@.len() > 0 {
                old(self).filter@.drop_last()
            } else {
                old(self).filter@
            }),
            final(self).cursor == settle(old(self).cursor, visible_len(old(self).scan.folders@, final(self).filter@)),
            final(self).scan == old(self).scan,
            final(self).threshold == old(self).threshold,
            final(self).selected == old(self).selected,
            final(self).mode == old(self).mode,
            final(self).message == old(self).message,
    {
        let mut v = chars_of(self.filter.as_str());
        if v.len() > 0 {
            v.pop();
        }
        self.filter = string_of(v.as_slice());
        self.clamp_cursor();
    }

    /// Records the outcome of moving the selected folders to the trash, and ends
    /// the session's work: what is left is to show the message.
    pub fn finish_trash(&mut self, outcomes: &[TrashOutcome])
        requires
            old(self).wf(),
        ensures
            final(self).wf(),
            final(self).mode == Mode::Done,
            final(self).message@ == done_message(outcomes@),
            final(self).scan == old(self).scan,
            final(self).threshold == old(self).threshold,
            final(self).filter == old(self).filter,
            final(self).cursor == old(self).cursor,
            final(self).selected == old(self).selected,
    {
        let mut failed: usize = 0;
        let mut first: Option<usize> = None;
        let mut i: usize = 0;
        while i < outcomes.len()
            invariant
                0 <= i <= outcomes.len(),
                failed == failures(outcomes@.take(i as int)),
                failed <= i,
                first == (match first_failure(outcomes@.take(i as int)) {
                    Some(k) => Some(k as usize),
                    None => None::<usize>,
                }),
                forall|k: int| #![auto] first_failure(outcomes@.take(i as int)) == Some(k) ==> 0 <= k < i,
            decreases outcomes.len() - i,
        {
            proof {
                assert(outcomes@.take(i + 1).drop_last() =~= outcomes@.take(i as int));
                assert(outcomes@.take(i + 1).last() == outcomes@[i as int]);
            }
            if outcomes[i].error.is_some() {
                failed = failed + 1;
                if first.is_none() {
                    first = Some(i);
                }
            }
            i = i + 1;
        }
        assert(outcomes@.take(outcomes.len() as int) =~= outcomes@);
        proof {
            lemma_first_failure(outcomes@);
        }
        let moved = outcomes.len() - failed;
        let mut v: Vec<char> = Vec::new();
        extend_chars(&mut v, "moved ");
        let mv = decimal_u64(moved as u64);
        text::extend_vec(&mut v, &mv);
        match first {
            None => {
                extend_chars(&mut v, " folder(s) to trash; restore from the OS trash if needed. press any key to exit");
            },
            Some(k) => {
                extend_chars(&mut v, "; ");
                let fv = decimal_u64(failed as u64);
                text::extend_vec(&mut v, &fv);
                extend_chars(&mut v, " failed. first error: ");
                extend_chars(&mut v, outcomes[k].path.as_str());
                extend_chars(&mut v, ": ");
                match &outcomes[k].error {
                    Some(e) => extend_chars(&mut v, e.as_str()),
                    None => {},
                }
                extend_chars(&mut v, ". press any key to exit");
            },
        }
        self.message = string_of(v.as_slice());
        self.mode = Mode::Done;
    }

    /// The listed folders picked by `a` (older than `t` only) or `A` (all of them).
    pub open spec fn listed_keys(self, t: AgeThreshold, ready_only: bool) -> Set<Seq<Seq<u32>>> {
        picked_keys(self.scan.folders@, self.scan.folders@.len() as int, self.filter@, t, true, ready_only)
    }

    /// What one key does. Browsing: `q`/esc quit; down/`j` and up/`k` move the
    /// cursor; space toggles the folder under it; `a` selects the listed folders
    /// older than the threshold, `A` all listed folders, `n` none; `/` starts a
    /// search; enter reviews the selection; `1`-`4` switch to the 7-day, 30-day,
    /// 90-day and one-year presets and select as `a` does. Searching: characters
    /// and backspace edit the filter, esc/enter go back to browsing. Reviewing:
    /// enter asks to move the selection to the trash (or says that nothing is
    /// selected), esc goes back, `q` quits. Once done, any key quits.
    pub open spec fn step(self, key: Key, n: App, r: Command) -> bool {
        let o = self;
        match o.mode {
            Mode::Browse => if key == Key::Char('q') || key == Key::Esc {
                r is Quit && n == o
            } else if key == Key::Down || key == Key::Char('j') {
                r is Continue && n == App { cursor: clamp_to(o.cursor + 1, o.shown()), ..o }
            } else if key == Key::Up || key == Key::Char('k') {
                r is Continue && n == App { cursor: clamp_to(o.cursor - 1, o.shown()), ..o }
            } else if key == Key::Char(' ') {
                &&& r is Continue
                &&& n == App { selected: n.selected, ..o }
                &&& o.shown() == 0 ==> n.selected == o.selected
                &&& o.shown() > 0 ==> exists|f: DependencyFolder|
                    o.at_cursor(f) && n.keys() == toggled(o.keys(), key_of(f.path@))
            } else if key == Key::Char('a') {
                r is Continue && n == App { selected: n.selected, ..o } && n.keys() == o.listed_keys(o.threshold, true)
            } else if key == Key::Char('A') {
                r is Continue && n == App { selected: n.selected, ..o } && n.keys() == o.listed_keys(o.threshold, false)
            } else if key == Key::Char('n') {
                r is Continue && n == App { selected: n.selected, ..o } && n.selected@.len() == 0
            } else if key == Key::Char('/') {
                r is Continue && n == App { mode: Mode::Search, message: n.message, ..o } && n.message@ == search_help()
            } else if key == Key::Enter {
                r is Continue && n == App { mode: Mode::Review, message: n.message, ..o } && n.message@ == review_help(
                    o.has_newer(),
                )
            } else if key == Key::Char('1') || key == Key::Char('2') || key == Key::Char('3') || key == Key::Char('4') {
                &&& r is Continue
                &&& n == App { selected: n.selected, threshold: n.threshold, ..o }
                &&& n.threshold.day_count() == (if key == Key::Char('1') {
                    7nat
                } else if key == Key::Char('2') {
                    30nat
                } else if key == Key::Char('3') {
                    90nat
                } else {
                    365nat
                })
                &&& n.keys() == o.listed_keys(n.threshold, true)
            } else {
                r is Continue && n == o
            },
            Mode::Search => if key == Key::Esc || key == Key::Enter {
                r is Continue && n == App { mode: Mode::Browse, message: n.message, ..o } && n.message@ == browse_help()
            } else if key == Key::Backspace {
                &&& r is Continue
                &&& n == App {
                    filter: n.filter,
                    cursor: settle(o.cursor, visible_len(o.scan.folders@, n.filter@)),
                    ..o
                }
                &&& n.filter@ == (if o.filter@.len() > 0 {
                    o.filter@.drop_last()
                } else {
                    o.filter@
                })
            } else {
                match key {
                    Key::Char(c) => {
                        &&& r is Continue
                        &&& n == App {
                            filter: n.filter,
                            cursor: settle(o.cursor, visible_len(o.scan.folders@, n.filter@)),
                            ..o
                        }
                        &&& n.filter@ == o.filter@.push(c)
                    },
                    _ => r is Continue && n == o,
                }
            },
            Mode::Review => if key == Key::Esc {
                r is Continue && n == App { mode: Mode::Browse, message: n.message, ..o } && n.message@ == browse_help()
            } else if key == Key::Char('q') {
                r is Quit && n == o
            } else if key == Key::Enter {
                if o.selected@.len() == 0 {
                    r is Continue && n == App { message: n.message, ..o } && n.message@ == nothing_selected()
                } else {
                    r matches Command::Trash(p) && p@ == o.selected@ && n == o
                }
            } else {
                r is Continue && n == o
            },
            Mode::Done => r is Quit && n == o,
        }
    }

    /// Carries out one key.
    pub fn handle_key(&mut self, key: Key) -> (r: Command)
        requires
            old(self).wf(),
            old(self).mode == Mode::Search && key is Char ==> 100 * (old(self).filter@.len() + 1) <= i64::MAX,
        ensures
            final(self).wf(),
            old(self).step(key, *final(self), r),
    {
        match self.mode {
            Mode::Browse => {
                if key == Key::Char('q') || key == Key::Esc {
                    Command::Quit
                } else if key == Key::Down || key == Key::Char('j') {
                    self.move_cursor(1);
                    Command::Continue
                } else if key == Key::Up || key == Key::Char('k') {
                    self.move_cursor(-1);
                    Command::Continue
                } else if key == Key::Char(' ') {
                    self.toggle_current();
                    Command::Continue
                } else if key == Key::Char('a') {
                    self.select_all_visible();
                    Command::Continue
                } else if key == Key::Char('A') {
                    self.select_every_visible();
                    Command::Continue
                } else if key == Key::Char('n') {
                    self.clear_selection();
                    Command::Continue
                } else if key == Key::Char('/') {
                    self.mode = Mode::Search;
                    self.message = String::from_str("type to fuzzy search  backspace: edit  esc/enter: apply");
                    Command::Continue
                } else if key == Key::Enter {
                    let warn = self.selection_has_newer();
                    self.mode = Mode::Review;
                    self.message = if warn {
                        String::from_str(
                            "selection includes newer folders  enter: move selected folders to trash  esc: back  q: quit",
                        )
                    } else {
                        String::from_str("enter: move selected folders to trash  esc: back  q: quit")
                    };
                    Command::Continue
                } else if key == Key::Char('1') {
                    self.set_threshold(AgeThreshold::days(7));
                    Command::Continue
                } else if key == Key::Char('2') {
                    self.set_threshold(AgeThreshold::days(30));
                    Command::Continue
                } else if key == Key::Char('3') {
                    self.set_threshold(AgeThreshold::days(90));
                    Command::Continue
                } else if key == Key::Char('4') {
                    self.set_threshold(AgeThreshold::days(365));
                    Command::Continue
                } else {
                    Command::Continue
                }
            },
            Mode::Search => {
                if key == Key::Esc || key == Key::Enter {
                    self.mode = Mode::Browse;
                    self.clamp_cursor();
                    self.message = String::from_str(
                        "space: select  /: search  enter: review  1-4: age preset  q: quit",
                    );
                    Command::Continue
                } else if key == Key::Backspace {
                    self.pop_filter();
                    Command::Continue
                } else {
                    match key {
                        Key::Char(c) => {
                            self.push_filter(c);
                            Command::Continue
                        },
                        _ => Command::Continue,
                    }
                }
            },
            Mode::Review => {
                if key == Key::Esc {
                    self.mode = Mode::Browse;
                    self.message = String::from_str(
                        "space: select  /: search  enter: review  1-4: age preset  q: quit",
                    );
                    Command::Continue
                } else if key == Key::Char('q') {
                    Command::Quit
                } else if key == Key::Enter {
                    if self.selected.len() == 0 {
                        self.message = String::from_str("nothing selected");
                        Command::Continue
                    } else {
                        Command::Trash(copy_strings(&self.selected))
                    }
                } else {
                    Command::Continue
                }
            },
            Mode::Done => Command::Quit,
        }
    }
}

proof fn lemma_picked_in_folders(
    folders: Seq<DependencyFolder>,
    n: int,
    query: Seq<char>,
    t: AgeThreshold,
    need_visible: bool,
    need_ready: bool,
)
    requires
        n <= folders.len(),
    ensures
        picked_keys(folders, n, query, t, need_visible, need_ready).subset_of(folder_keys(folders)),
{
    assert forall|k: Seq<Seq<u32>>| picked_keys(folders, n, query, t, need_visible, need_ready).contains(k) implies folder_keys(
        folders,
    ).contains(k) by {
        let i = choose|i: int|
            0 <= i < n && #[trigger] picked(folders, i, query, t, need_visible, need_ready) && key_of(folders[i].path@)
                == k;
    }
}


/// Every key leaves the scan as it was: the session never alters what was found.
pub proof fn lemma_step_keeps_scan(o: App, key: Key, n: App, r: Command)
    requires
        o.step(key, n, r),
    ensures
        n.scan == o.scan,
{
}

/// Folders are sent to the trash only from the review screen, on enter: exactly
/// the selection, which is then not empty and holds only paths of scanned folders.
pub proof fn lemma_trash_only_after_review(o: App, key: Key, n: App, r: Command)
    requires
        o.wf(),
        o.step(key, n, r),
        r is Trash,
    ensures
        o.mode == Mode::Review,
        key == Key::Enter,
        o.selected@.len() > 0,
        r->0@ == o.selected@,
        selection_keys(r->0@).subset_of(folder_keys(o.scan.folders@)),
        n == o,
{
}

/// Pressing space twice while browsing leaves the selection as it was.
pub proof fn lemma_space_twice(a: App, b: App, c: App, r1: Command, r2: Command)
    requires
        a.wf(),
        a.mode == Mode::Browse,
        a.step(Key::Char(' '), b, r1),
        b.step(Key::Char(' '), c, r2),
    ensures
        c.keys() == a.keys(),
{
    assert(b.mode == Mode::Browse);
    if a.shown() > 0 {
        let f1 = choose|f: DependencyFolder| a.at_cursor(f) && b.keys() == toggled(a.keys(), key_of(f.path@));
        let f2 = choose|f: DependencyFolder| b.at_cursor(f) && c.keys() == toggled(b.keys(), key_of(f.path@));
        let v1 = choose|v: Seq<usize>|
            is_match_order(a.scan.folders@, a.filter@, v) && f1 == a.scan.folders@[v[a.cursor as int] as int];
        let v2 = choose|v: Seq<usize>|
            is_match_order(b.scan.folders@, b.filter@, v) && f2 == b.scan.folders@[v[b.cursor as int] as int];
        crate::fuzzy::lemma_match_order_unique(a.scan.folders@, a.filter@, v1, v2);
        lemma_toggle_twice(a.keys(), key_of(f1.path@));
    }
}

/// A session of keys `k`: `s[i]` is the state before key `i`, `t[i]` the state
/// the key leads to and `c[i]` the command it returns. After a trash command the
/// caller records the outcome with `App::finish_trash`, so the next state is done
/// with a new message; after a quit, no more keys are read.
pub open spec fn is_session(s: Seq<App>, t: Seq<App>, k: Seq<Key>, c: Seq<Command>) -> bool {
    &&& s.len() == k.len() + 1
    &&& t.len() == k.len()
    &&& c.len() == k.len()
    &&& forall|i: int| 0 <= i < k.len() ==> #[trigger] s[i].step(k[i], t[i], c[i])
    &&& forall|i: int|
        #![trigger c[i]]
        0 <= i < k.len() && c[i] is Trash ==> s[i + 1] == App { mode: Mode::Done, message: s[i + 1].message, ..t[i] }
    &&& forall|i: int| #![trigger c[i]] 0 <= i < k.len() && !(c[i] is Trash) ==> s[i + 1] == t[i]
    &&& forall|i: int| #![trigger c[i]] 0 <= i < k.len() - 1 ==> !(c[i] is Quit)
}

proof fn lemma_review_entered(s: Seq<App>, t: Seq<App>, k: Seq<Key>, c: Seq<Command>, i: int)
    requires
        is_session(s, t, k, c),
        s[0].mode == Mode::Browse,
        0 <= i <= k.len(),
        s[i].mode == Mode::Review,
    ensures
        exists|j: int| 0 <= j < i && #[trigger] s[j].mode == Mode::Browse && k[j] == Key::Enter && t[j].mode == Mode::Review,
    decreases i,
{
    if i > 0 {
        let p = i - 1;
        assert(s[p].step(k[p], t[p], c[p]));
        if c[p] is Trash {
            assert(s[i].mode == Mode::Done);
        } else {
            assert(s[i] == t[p]);
            if s[p].mode == Mode::Review {
                lemma_review_entered(s, t, k, c, p);
                let j = choose|j: int| 0 <= j < p && #[trigger] s[j].mode == Mode::Browse && k[j] == Key::Enter && t[j].mode == Mode::Review;
                assert(0 <= j < i);
            } else {
                assert(s[p].mode == Mode::Browse && k[p] == Key::Enter);
            }
        }
    }
}

/// Over a whole session started on the browsing screen: folders are sent to the
/// trash only on enter while reviewing, exactly the non-empty selection of that
/// moment; reviewing is only ever reached by enter while browsing; once the
/// outcome is recorded, the next key ends the session and no other key follows;
/// and `q` or esc while browsing ends the session.
pub proof fn lemma_session(s: Seq<App>, t: Seq<App>, k: Seq<Key>, c: Seq<Command>)
    requires
        is_session(s, t, k, c),
        s[0].mode == Mode::Browse,
    ensures
        forall|i: int|
            #![trigger c[i]]
            0 <= i < k.len() && c[i] is Trash ==> s[i].mode == Mode::Review && k[i] == Key::Enter
                && s[i].selected@.len() > 0 && c[i]->0@ == s[i].selected@,
        forall|i: int|
            0 <= i <= k.len() && (#[trigger] s[i]).mode == Mode::Review ==> exists|j: int|
                0 <= j < i && #[trigger] s[j].mode == Mode::Browse && k[j] == Key::Enter && t[j].mode == Mode::Review,
        forall|i: int|
            #![trigger c[i]]
            0 <= i < k.len() && c[i] is Trash && i + 1 < k.len() ==> c[i + 1] is Quit && i + 2 == k.len(),
        forall|i: int|
            #![trigger k[i]]
            0 <= i < k.len() && s[i].mode == Mode::Browse && (k[i] == Key::Char('q') || k[i] == Key::Esc)
                ==> c[i] is Quit && i + 1 == k.len(),
{
    assert forall|i: int|
        #![trigger c[i]]
        0 <= i < k.len() && c[i] is Trash implies s[i].mode == Mode::Review && k[i] == Key::Enter
            && s[i].selected@.len() > 0 && c[i]->0@ == s[i].selected@ by {
        assert(s[i].step(k[i], t[i], c[i]));
    }
    assert forall|i: int|
        0 <= i <= k.len() && (#[trigger] s[i]).mode == Mode::Review implies exists|j: int|
            0 <= j < i && #[trigger] s[j].mode == Mode::Browse && k[j] == Key::Enter && t[j].mode == Mode::Review by {
        lemma_review_entered(s, t, k, c, i);
    }
    assert forall|i: int|
        #![trigger c[i]]
        0 <= i < k.len() && c[i] is Trash && i + 1 < k.len() implies c[i + 1] is Quit && i + 2 == k.len() by {
        assert(s[i + 1].mode == Mode::Done);
        assert(s[i + 1].step(k[i + 1], t[i + 1], c[i + 1]));
        if i + 2 < k.len() {
            assert(!(c[i + 1] is Quit));
        }
    }
    assert forall|i: int|
        #![trigger k[i]]
        0 <= i < k.len() && s[i].mode == Mode::Browse && (k[i] == Key::Char('q') || k[i] == Key::Esc)
            implies c[i] is Quit && i + 1 == k.len() by {
        assert(s[i].step(k[i], t[i], c[i]));
        if i + 1 < k.len() {
            assert(!(c[i] is Quit));
        }
    }
}

/// While browsing, keys `1` to `4` switch to the age presets in order, 7, 30, 90
/// and 365 days, and select exactly the listed folders older than the new
/// threshold; nothing else changes.
pub proof fn lemma_preset_keys(o: App, n: App, r: Command, c: char)
    requires
        o.mode == Mode::Browse,
        c == '1' || c == '2' || c == '3' || c == '4',
        o.step(Key::Char(c), n, r),
    ensures
        c == '1' ==> n.threshold.day_count() == 7,
        c == '2' ==> n.threshold.day_count() == 30,
        c == '3' ==> n.threshold.day_count() == 90,
        c == '4' ==> n.threshold.day_count() == 365,
        n.keys() == picked_keys(o.scan.folders@, o.scan.folders@.len() as int, o.filter@, n.threshold, true, true),
        r is Continue,
        n.scan == o.scan,
        n.filter == o.filter,
        n.cursor == o.cursor,
        n.mode == Mode::Browse,
        n.message == o.message,
{
}

} // verus!
