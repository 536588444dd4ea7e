//! The interactive state: catalog, filtered view, selection, mode, queries
//! and completions. Every transition an input event can cause is a function
//! here; all I/O around it (discovery, terminal, the worker thread) stays
//! with the caller.

use vstd::prelude::*;
use ratatui_image::protocol::StatefulProtocol;
use crate::catalog::Wallpaper;
use crate::encoder::ImageEncoder;
use crate::grid::MAX_COLUMNS;
use crate::text::{spec_contains, lower_of, lowercase, str_contains};

verus! {

/// Interaction modes of the browser.
#[derive(Clone, Copy, PartialEq, Eq, Structural, Debug)]
pub enum Mode {
    Grid,
    Preview,
    Help,
    Search,
    Command,
}

/// The whole interactive state.
pub struct App {
    pub wallpapers: Vec<Wallpaper>,
    pub filtered_indices: Vec<usize>,
    pub selected: usize,
    pub columns: usize,
    pub mode: Mode,
    pub should_quit: bool,
    pub current_wallpaper: Option<String>,
    pub encoder: ImageEncoder,
    pub preview_state: Option<StatefulProtocol>,
    pub search_query: String,
    pub command_query: String,
    pub completions: Vec<String>,
    pub completion_index: usize,
    pub completion_dir: Option<String>,
    pub current_view_dir: Option<String>,
}

impl App {
    /// The state invariant: the selection sits inside the filtered view (or
    /// at zero when the view is empty), every filtered index points into the
    /// catalog, the column count is one the grid engine can produce, and the
    /// completion cursor sits inside the completion list.
    pub open spec fn wf(self) -> bool {
        &&& (self.filtered_indices@.len() == 0 ==> self.selected == 0)
        &&& (self.filtered_indices@.len() > 0 ==> (self.selected as int)
            < self.filtered_indices@.len())
        &&& forall|i: int|
            0 <= i < self.filtered_indices@.len() ==> (#[trigger] self.filtered_indices@[i] as int)
                < self.wallpapers@.len()
        &&& 1 <= self.columns <= MAX_COLUMNS
        &&& self.encoder.wf()
        &&& (self.completions@.len() > 0 ==> (self.completion_index as int)
            < self.completions@.len())
        &&& (self.completions@.len() == 0 ==> self.completion_index == 0)
    }
}

pub open spec fn spec_move_up(sel: int, cols: int) -> int {
    if sel >= cols {
        sel - cols
    } else {
        sel
    }
}

pub open spec fn spec_move_down(sel: int, cols: int, len: int) -> int {
    if sel + cols < len {
        sel + cols
    } else {
        sel
    }
}

pub open spec fn spec_move_left(sel: int) -> int {
    if sel > 0 {
        sel - 1
    } else {
        sel
    }
}

pub open spec fn spec_move_right(sel: int, len: int) -> int {
    if sel + 1 < len {
        sel + 1
    } else {
        sel
    }
}

/// Moving down and then up returns to the starting index whenever the move
/// down actually moved — that is, away from the boundary of the final
/// partial row, where moving down is a no-op and the pair need not invert.
pub proof fn lemma_move_down_up_inverse(sel: int, cols: int, len: int)
    requires
        0 <= sel,
        1 <= cols,
        sel + cols < len,
    ensures
        spec_move_up(spec_move_down(sel, cols, len), cols) == sel,
{
}

/// Moving up and then down also inverts, from any index at least one full
/// row down.
pub proof fn lemma_move_up_down_inverse(sel: int, cols: int, len: int)
    requires
        cols <= sel < len,
        1 <= cols,
    ensures
        spec_move_down(spec_move_up(sel, cols), cols, len) == sel,
{
}

impl App {
    pub fn move_up(&mut self)
        requires
            old(self).wf(),
        ensures
            final(self).wf(),
            final(self).selected == spec_move_up(
                old(self).selected as int,
                old(self).columns as int,
            ),
            *final(self) == (App { selected: final(self).selected, ..*old(self) }),
    {
        if self.selected >= self.columns {
            self.selected -= self.columns;
        }
    }

    pub fn move_down(&mut self)
        requires
            old(self).wf(),
        ensures
            final(self).wf(),
            final(self).selected == spec_move_down(
                old(self).selected as int,
                old(self).columns as int,
                old(self).filtered_indices@.len() as int,
            ),
            *final(self) == (App { selected: final(self).selected, ..*old(self) }),
    {
        if self.filtered_indices.len() - self.selected > self.columns {
            self.selected += self.columns;
        }
    }

    pub fn move_left(&mut self)
        requires
            old(self).wf(),
        ensures
            final(self).wf(),
            final(self).selected == spec_move_left(old(self).selected as int),
            *final(self) == (App { selected: final(self).selected, ..*old(self) }),
    {
        if self.selected > 0 {
            self.selected -= 1;
        }
    }

    pub fn move_right(&mut self)
        requires
            old(self).wf(),
        ensures
            final(self).wf(),
            final(self).selected == spec_move_right(
                old(self).selected as int,
                old(self).filtered_indices@.len() as int,
            ),
            *final(self) == (App { selected: final(self).selected, ..*old(self) }),
    {
        if self.filtered_indices.len() - self.selected > 1 {
            self.selected += 1;
        }
    }

    pub fn start_search(&mut self)
        requires
            old(self).wf(),
        ensures
            final(self).wf(),
            final(self).mode is Search,
            *final(self) == (App { mode: Mode::Search, ..*old(self) }),
    {
        self.mode = Mode::Search;
    }

    pub fn confirm_search(&mut self)
        requires
            old(self).wf(),
        ensures
            final(self).wf(),
            *final(self) == (App { mode: Mode::Grid, ..*old(self) }),
    {
        self.mode = Mode::Grid;
    }

    pub fn toggle_preview(&mut self)
        requires
            old(self).wf(),
        ensures
            final(self).wf(),
            match old(self).mode {
                Mode::Grid => *final(self) == (App {
                    mode: Mode::Preview,
                    preview_state: None,
                    ..*old(self)
                }),
                Mode::Preview => *final(self) == (App { mode: Mode::Grid, ..*old(self) }),
                _ => *final(self) == *old(self),
            },
    {
        match self.mode {
            Mode::Grid => {
                self.preview_state = None;
                self.mode = Mode::Preview;
            },
            Mode::Preview => {
                self.mode = Mode::Grid;
            },
            Mode::Help | Mode::Search | Mode::Command => {},
        }
    }

    pub fn toggle_help(&mut self)
        requires
            old(self).wf(),
        ensures
            final(self).wf(),
            match old(self).mode {
                Mode::Help => *final(self) == (App { mode: Mode::Grid, ..*old(self) }),
                _ => *final(self) == (App { mode: Mode::Help, ..*old(self) }),
            },
    {
        match self.mode {
            Mode::Help => self.mode = Mode::Grid,
            _ => self.mode = Mode::Help,
        }
    }
}

/// The filter test: the lowercased display name holds the lowercased query.
pub open spec fn matches_query(name: Seq<char>, q: Seq<char>) -> bool {
    spec_contains(lower_of(name), lower_of(q))
}

/// Indices of the first `k` catalog entries whose names match the query,
/// in catalog order.
pub open spec fn filtered_upto(ws: Seq<Wallpaper>, q: Seq<char>, k: int) -> Seq<usize>
    decreases k,
{
    if k <= 0 {
        Seq::empty()
    } else {
        let rest = filtered_upto(ws, q, k - 1);
        if matches_query(ws[k - 1].name@, q) {
            rest.push((k - 1) as usize)
        } else {
            rest
        }
    }
}

/// The filtered view: indices of every matching entry, in catalog order.
pub open spec fn spec_filtered(ws: Seq<Wallpaper>, q: Seq<char>) -> Seq<usize> {
    filtered_upto(ws, q, ws.len() as int)
}

/// Entries of the filtered view stay below the catalog length.
pub proof fn lemma_filtered_upto_bounds(ws: Seq<Wallpaper>, q: Seq<char>, k: int)
    requires
        k <= ws.len(),
    ensures
        forall|i: int|
            0 <= i < filtered_upto(ws, q, k).len() ==> (#[trigger] filtered_upto(ws, q, k)[i] as int)
                < ws.len(),
    decreases k,
{
    if k > 0 {
        lemma_filtered_upto_bounds(ws, q, k - 1);
        let prev = filtered_upto(ws, q, k - 1);
        let cur = filtered_upto(ws, q, k);
        assert forall|i: int| 0 <= i < cur.len() implies (#[trigger] cur[i] as int) < ws.len() by {
            if i < prev.len() {
                assert(cur[i] == prev[i]);
            }
        }
    }
}

/// The filtered view is exactly the matching entries: it lists an index if
/// and only if that entry's name matches the query, and it lists them in
/// catalog order, each at most once.
pub proof fn lemma_filtered_characterization(ws: Seq<Wallpaper>, q: Seq<char>)
    requires
        ws.len() <= usize::MAX,
    ensures
        forall|idx: usize|
            #[trigger] spec_filtered(ws, q).contains(idx) <==> ((idx as int) < ws.len()
                && matches_query(ws[idx as int].name@, q)),
        forall|i: int, j: int|
            0 <= i < j < spec_filtered(ws, q).len() ==> (#[trigger] spec_filtered(ws, q)[i] as int)
                < (#[trigger] spec_filtered(ws, q)[j] as int),
{
    lemma_filtered_upto_characterization(ws, q, ws.len() as int);
}

proof fn lemma_filtered_upto_characterization(ws: Seq<Wallpaper>, q: Seq<char>, k: int)
    requires
        k <= ws.len() <= usize::MAX,
    ensures
        forall|idx: usize|
            #[trigger] filtered_upto(ws, q, k).contains(idx) <==> ((idx as int) < k
                && matches_query(ws[idx as int].name@, q)),
        forall|i: int, j: int|
            0 <= i < j < filtered_upto(ws, q, k).len() ==> (#[trigger] filtered_upto(ws, q, k)[i] as int)
                < (#[trigger] filtered_upto(ws, q, k)[j] as int),
        forall|i: int|
            0 <= i < filtered_upto(ws, q, k).len() ==> (#[trigger] filtered_upto(ws, q, k)[i] as int)
                < k,
    decreases k,
{
    if k > 0 {
        lemma_filtered_upto_characterization(ws, q, k - 1);
        let prev = filtered_upto(ws, q, k - 1);
        let cur = filtered_upto(ws, q, k);
        if matches_query(ws[k - 1].name@, q) {
            assert(cur == prev.push((k - 1) as usize));
            assert forall|idx: usize| #[trigger] cur.contains(idx) implies ((idx as int) < k
                && matches_query(ws[idx as int].name@, q)) by {
                let j = choose|j: int| 0 <= j < cur.len() && cur[j] == idx;
                if j < prev.len() {
                    assert(prev[j] == idx);
                    assert(prev.contains(idx));
                }
            }
            assert forall|idx: usize|
                (idx as int) < k && matches_query(ws[idx as int].name@, q) implies #[trigger] cur.contains(
                idx,
            ) by {
                if (idx as int) < k - 1 {
                    assert(prev.contains(idx));
                    let j = choose|j: int| 0 <= j < prev.len() && prev[j] == idx;
                    assert(cur[j] == idx);
                } else {
                    assert(cur[cur.len() - 1] == idx);
                }
            }
        } else {
            assert(cur == prev);
            assert forall|idx: usize|
                (idx as int) < k && matches_query(ws[idx as int].name@, q) implies #[trigger] cur.contains(
                idx,
            ) by {
                assert(idx as int != k - 1);
                assert(prev.contains(idx));
            }
        }
    }
}

impl App {
    /// Recomputes the filtered view for the current query: exactly the
    /// entries whose lowercased name holds the lowercased query, in catalog
    /// order. The selection is kept when it still fits, else reset to the
    /// start.
    pub fn update_filter(&mut self)
        requires
            old(self).wf(),
        ensures
            final(self).wf(),
            final(self).filtered_indices@ == spec_filtered(
                old(self).wallpapers@,
                old(self).search_query@,
            ),
            final(self).selected == (if (old(self).selected as int) < final(
                self).filtered_indices@.len() {
                old(self).selected as int
            } else {
                0
            }),
            *final(self) == (App {
                filtered_indices: final(self).filtered_indices,
                selected: final(self).selected,
                ..*old(self)
            }),
    {
        let ghost ws = self.wallpapers@;
        let ghost q = self.search_query@;
        let query_lower = lowercase(self.search_query.as_str());
        let mut filtered: Vec<usize> = Vec::new();
        let n = self.wallpapers.len();
        if query_lower.as_str().is_empty() {
            let mut i: usize = 0;
            while i < n
                invariant
                    i <= n,
                    n == ws.len(),
                    ws == self.wallpapers@,
                    q == self.search_query@,
                    lower_of(q).len() == 0,
                    filtered@ == filtered_upto(ws, q, i as int),
                decreases n - i,
            {
                proof {
                    crate::text::lemma_contains_empty(lower_of(ws[i as int].name@));
                    assert(lower_of(q) =~= Seq::<char>::empty());
                }
                filtered.push(i);
                i += 1;
            }
        } else {
            let mut i: usize = 0;
            while i < n
                invariant
                    i <= n,
                    n == ws.len(),
                    ws == self.wallpapers@,
                    q == self.search_query@,
                    query_lower@ == lower_of(q),
                    filtered@ == filtered_upto(ws, q, i as int),
                decreases n - i,
            {
                let name_lower = lowercase(self.wallpapers[i].name.as_str());
                if str_contains(name_lower.as_str(), query_lower.as_str()) {
                    filtered.push(i);
                }
                i += 1;
            }
        }
        proof {
            lemma_filtered_upto_bounds(ws, q, ws.len() as int);
        }
        self.filtered_indices = filtered;
        if self.selected >= self.filtered_indices.len() {
            self.selected = 0;
        }
    }

    /// One typed character extends the query and refilters.
    pub fn search_input(&mut self, c: char)
        requires
            old(self).wf(),
        ensures
            final(self).wf(),
            final(self).search_query@ == old(self).search_query@.push(c),
            final(self).filtered_indices@ == spec_filtered(
                old(self).wallpapers@,
                old(self).search_query@.push(c),
            ),
            final(self).wallpapers == old(self).wallpapers,
            final(self).mode == old(self).mode,
    {
        crate::text::push_char(&mut self.search_query, c);
        self.update_filter();
    }

    /// Backspace shortens the query and refilters.
    pub fn search_backspace(&mut self)
        requires
            old(self).wf(),
        ensures
            final(self).wf(),
            final(self).search_query@ == (if old(self).search_query@.len() > 0 {
                old(self).search_query@.drop_last()
            } else {
                old(self).search_query@
            }),
            final(self).filtered_indices@ == spec_filtered(
                old(self).wallpapers@,
                final(self).search_query@,
            ),
            final(self).wallpapers == old(self).wallpapers,
            final(self).mode == old(self).mode,
    {
        crate::text::pop_char(&mut self.search_query);
        self.update_filter();
    }

    /// Leaving the search with escape clears the query, so the view shows
    /// everything again.
    pub fn cancel_search(&mut self)
        requires
            old(self).wf(),
        ensures
            final(self).wf(),
            final(self).search_query@.len() == 0,
            final(self).filtered_indices@ == spec_filtered(
                old(self).wallpapers@,
                Seq::<char>::empty(),
            ),
            final(self).mode is Grid,
            final(self).wallpapers == old(self).wallpapers,
    {
        self.search_query = String::new();
        proof {
            assert(self.search_query@ =~= Seq::<char>::empty());
        }
        self.update_filter();
        self.mode = Mode::Grid;
    }
}

/// Index of the first catalog entry with the given path.
pub open spec fn spec_find_path(ws: Seq<Wallpaper>, p: Seq<char>) -> Option<int>
    decreases ws.len(),
{
    if ws.len() == 0 {
        None
    } else if ws[0].path@ == p {
        Some(0int)
    } else {
        match spec_find_path(ws.drop_first(), p) {
            Some(i) => Some(i + 1),
            None => None,
        }
    }
}

proof fn lemma_find_path_at(ws: Seq<Wallpaper>, p: Seq<char>, i: int)
    requires
        0 <= i < ws.len(),
        ws[i].path@ == p,
        forall|j: int| 0 <= j < i ==> ws[j].path@ != p,
    ensures
        spec_find_path(ws, p) == Some(i),
    decreases ws.len(),
{
    if i > 0 {
        lemma_find_path_at(ws.drop_first(), p, i - 1);
    }
}

proof fn lemma_find_path_none(ws: Seq<Wallpaper>, p: Seq<char>)
    requires
        forall|j: int| 0 <= j < ws.len() ==> ws[j].path@ != p,
    ensures
        spec_find_path(ws, p) is None,
    decreases ws.len(),
{
    if ws.len() > 0 {
        lemma_find_path_none(ws.drop_first(), p);
    }
}

/// The selection a fresh session starts on: the entry that is the current
/// wallpaper, or the first one.
pub open spec fn spec_initial_selected(ws: Seq<Wallpaper>, cur: Option<String>) -> int {
    match cur {
        Some(c) => match spec_find_path(ws, c@) {
            Some(i) => i,
            None => 0,
        },
        None => 0,
    }
}

/// Position of the entry with this path, or the start of the catalog.
fn find_path_index(ws: &Vec<Wallpaper>, cur: &String) -> (r: usize)
    ensures
        r as int == (match spec_find_path(ws@, cur@) {
            Some(i) => i,
            None => 0,
        }),
        r == 0 || (r as int) < ws@.len(),
{
    let mut k: usize = 0;
    while k < ws.len()
        invariant
            k <= ws@.len(),
            forall|j: int| 0 <= j < k ==> ws@[j].path@ != cur@,
        decreases ws@.len() - k,
    {
        if ws[k].path == *cur {
            proof {
                lemma_find_path_at(ws@, cur@, k as int);
            }
            return k;
        }
        k += 1;
    }
    proof {
        lemma_find_path_none(ws@, cur@);
    }
    0
}

impl App {
    /// A fresh session over an already discovered catalog: everything
    /// visible, the current wallpaper selected when it is in the catalog.
    /// The caller supplies the encoder it built around the worker's queues.
    pub fn new(
        wallpapers: Vec<Wallpaper>,
        current_wallpaper: Option<String>,
        encoder: ImageEncoder,
    ) -> (app: App)
        requires
            encoder.wf(),
        ensures
            app.wf(),
            app.wallpapers == wallpapers,
            app.filtered_indices@.len() == wallpapers@.len(),
            forall|i: int|
                0 <= i < app.filtered_indices@.len() ==> (#[trigger] app.filtered_indices@[i]) as int
                    == i,
            app.selected as int == spec_initial_selected(wallpapers@, current_wallpaper),
            app.columns == 4,
            app.mode is Grid,
            !app.should_quit,
            app.current_wallpaper == current_wallpaper,
            app.search_query@.len() == 0,
            app.command_query@.len() == 0,
            app.completions@.len() == 0,
            app.preview_state is None,
            app.current_view_dir is None,
            app.completion_dir is None,
    {
        let n = wallpapers.len();
        let mut filtered_indices: Vec<usize> = Vec::new();
        let mut i: usize = 0;
        while i < n
            invariant
                i <= n,
                filtered_indices@.len() == i,
                forall|j: int| 0 <= j < i ==> (#[trigger] filtered_indices@[j]) as int == j,
            decreases n - i,
        {
            filtered_indices.push(i);
            i += 1;
        }
        let selected = match &current_wallpaper {
            Some(cur) => find_path_index(&wallpapers, cur),
            None => 0,
        };
        App {
            wallpapers,
            filtered_indices,
            selected,
            columns: 4,
            mode: Mode::Grid,
            should_quit: false,
            current_wallpaper,
            encoder,
            preview_state: None,
            search_query: String::new(),
            command_query: String::new(),
            completions: Vec::new(),
            completion_index: 0,
            completion_dir: None,
            current_view_dir: None,
        }
    }

    /// The entry the selection points at, if the filtered view has any.
    pub fn selected_wallpaper(&self) -> (r: Option<&Wallpaper>)
        requires
            self.wf(),
        ensures
            match r {
                Some(w) => self.filtered_indices@.len() > 0 && *w
                    == self.wallpapers@[self.filtered_indices@[self.selected as int] as int],
                None => self.filtered_indices@.len() == 0,
            },
    {
        if self.filtered_indices.len() == 0 {
            None
        } else {
            let idx = self.filtered_indices[self.selected];
            Some(&self.wallpapers[idx])
        }
    }

    /// Whether the catalog entry at `index` is the wallpaper currently set.
    pub fn is_current(&self, index: usize) -> (r: bool)
        ensures
            r == match self.current_wallpaper {
                Some(c) => (index as int) < self.wallpapers@.len()
                    && self.wallpapers@[index as int].path@ == c@,
                None => false,
            },
    {
        match &self.current_wallpaper {
            Some(c) => {
                if index < self.wallpapers.len() {
                    let eq = self.wallpapers[index].path == *c;
                    eq
                } else {
                    false
                }
            },
            None => false,
        }
    }

    /// Swaps in a freshly discovered catalog: the cache and all derived
    /// state are invalidated, the filter is recomputed over the new
    /// entries, and the selection returns to the start.
    pub fn apply_reload(&mut self, new_wallpapers: Vec<Wallpaper>)
        requires
            old(self).wf(),
        ensures
            final(self).wf(),
            final(self).wallpapers == new_wallpapers,
            final(self).encoder@.cache =~= Map::<
                crate::encoder::CacheKey,
                StatefulProtocol,
            >::empty(),
            final(self).encoder@.pending =~= Set::<crate::encoder::CacheKey>::empty(),
            final(self).preview_state is None,
            final(self).filtered_indices@ == spec_filtered(
                new_wallpapers@,
                old(self).search_query@,
            ),
            final(self).selected == 0,
            final(self).search_query == old(self).search_query,
            final(self).mode == old(self).mode,
            final(self).current_view_dir == old(self).current_view_dir,
    {
        self.filtered_indices = Vec::new();
        self.selected = 0;
        self.wallpapers = new_wallpapers;
        self.encoder.clear_cache();
        self.preview_state = None;
        self.update_filter();
        self.selected = 0;
    }

    /// Escape steps outward: closes a modal, cancels a search or command,
    /// and from the plain grid asks to quit.
    pub fn escape(&mut self)
        requires
            old(self).wf(),
        ensures
            final(self).wf(),
            match old(self).mode {
                Mode::Preview | Mode::Help => *final(self) == (App {
                    mode: Mode::Grid,
                    ..*old(self)
                }),
                Mode::Search => final(self).mode is Grid && final(self).search_query@.len() == 0
                    && final(self).filtered_indices@ == spec_filtered(
                    old(self).wallpapers@,
                    Seq::<char>::empty(),
                ),
                Mode::Command => *final(self) == (App {
                    mode: Mode::Grid,
                    command_query: final(self).command_query,
                    ..*old(self)
                }) && final(self).command_query@.len() == 0,
                Mode::Grid => *final(self) == (App { should_quit: true, ..*old(self) }),
            },
    {
        match self.mode {
            Mode::Preview | Mode::Help => {
                self.mode = Mode::Grid;
            },
            Mode::Search => {
                self.cancel_search();
            },
            Mode::Command => {
                self.cancel_command();
            },
            Mode::Grid => {
                self.should_quit = true;
            },
        }
    }

    /// Opens the command prompt with an empty line and no completions.
    pub fn start_command(&mut self)
        requires
            old(self).wf(),
        ensures
            final(self).wf(),
            *final(self) == (App {
                mode: Mode::Command,
                command_query: final(self).command_query,
                completions: final(self).completions,
                completion_index: 0,
                ..*old(self)
            }),
            final(self).command_query@.len() == 0,
            final(self).completions@.len() == 0,
    {
        self.mode = Mode::Command;
        self.command_query = String::new();
        self.completions = Vec::new();
        self.completion_index = 0;
        proof {
            assert(self.command_query@ =~= Seq::<char>::empty());
        }
    }

    /// One typed character extends the command line and drops stale
    /// completions.
    pub fn command_input(&mut self, c: char)
        requires
            old(self).wf(),
        ensures
            final(self).wf(),
            final(self).command_query@ == old(self).command_query@.push(c),
            final(self).completions@.len() == 0,
            final(self).mode == old(self).mode,
            final(self).wallpapers == old(self).wallpapers,
            final(self).selected == old(self).selected,
    {
        crate::text::push_char(&mut self.command_query, c);
        self.completions = Vec::new();
        self.completion_index = 0;
    }

    /// Backspace shortens the command line and drops stale completions.
    pub fn command_backspace(&mut self)
        requires
            old(self).wf(),
        ensures
            final(self).wf(),
            final(self).command_query@ == (if old(self).command_query@.len() > 0 {
                old(self).command_query@.drop_last()
            } else {
                old(self).command_query@
            }),
            final(self).completions@.len() == 0,
            final(self).mode == old(self).mode,
    {
        crate::text::pop_char(&mut self.command_query);
        self.completions = Vec::new();
        self.completion_index = 0;
    }

    /// Leaves the command prompt without running anything.
    pub fn cancel_command(&mut self)
        requires
            old(self).wf(),
        ensures
            final(self).wf(),
            *final(self) == (App {
                mode: Mode::Grid,
                command_query: final(self).command_query,
                ..*old(self)
            }),
            final(self).command_query@.len() == 0,
    {
        self.command_query = String::new();
        self.mode = Mode::Grid;
        proof {
            assert(self.command_query@ =~= Seq::<char>::empty());
        }
    }

    /// Steps the completion cursor forward, wrapping, and shows that
    /// completion on the command line.
    pub fn move_completion_down(&mut self)
        requires
            old(self).wf(),
        ensures
            final(self).wf(),
            old(self).completions@.len() == 0 ==> *final(self) == *old(self),
            old(self).completions@.len() > 0 ==> {
                &&& final(self).completion_index as int == (old(self).completion_index as int + 1)
                    % old(self).completions@.len() as int
                &&& final(self).command_query == old(self).completions@[final(
                    self).completion_index as int]
                &&& final(self).completions == old(self).completions
                &&& final(self).mode == old(self).mode
                &&& final(self).wallpapers == old(self).wallpapers
            },
    {
        if self.completions.len() > 0 {
            self.completion_index = (self.completion_index + 1) % self.completions.len();
            self.command_query = self.completions[self.completion_index].clone();
        }
    }

    /// Steps the completion cursor backward, wrapping, and shows that
    /// completion on the command line.
    pub fn move_completion_up(&mut self)
        requires
            old(self).wf(),
        ensures
            final(self).wf(),
            old(self).completions@.len() == 0 ==> *final(self) == *old(self),
            old(self).completions@.len() > 0 ==> {
                &&& final(self).completion_index as int == (if old(self).completion_index == 0 {
                    old(self).completions@.len() - 1
                } else {
                    old(self).completion_index as int - 1
                })
                &&& final(self).command_query == old(self).completions@[final(
                    self).completion_index as int]
                &&& final(self).completions == old(self).completions
                &&& final(self).mode == old(self).mode
            },
    {
        if self.completions.len() > 0 {
            if self.completion_index == 0 {
                self.completion_index = self.completions.len() - 1;
            } else {
                self.completion_index -= 1;
            }
            self.command_query = self.completions[self.completion_index].clone();
        }
    }
}

/// The directory part and name prefix of a `cd` command line: the text
/// after the final separator is the prefix still being typed; a trailing
/// separator means the prefix is empty and the whole path is the directory.
pub open spec fn spec_cd_parts(q: Seq<char>) -> Option<(Seq<char>, Seq<char>)> {
    if !crate::text::spec_starts_with(q, "cd "@) {
        None
    } else {
        let pp = q.skip("cd "@.len() as int);
        let d = crate::text::spec_last_index(pp, '/');
        if d == -1 {
            Some((Seq::<char>::empty(), pp))
        } else if d == pp.len() - 1 {
            Some((pp, Seq::<char>::empty()))
        } else {
            Some((pp.subrange(0, d + 1), pp.subrange(d + 1, pp.len() as int)))
        }
    }
}

/// Splits a `cd` command line into the directory to list and the prefix to
/// match, or nothing when the line is no `cd` command.
pub fn parse_cd_query(q: &str) -> (r: Option<(String, String)>)
    ensures
        match r {
            Some(parts) => spec_cd_parts(q@) == Some((parts.0@, parts.1@)),
            None => spec_cd_parts(q@) is None,
        },
{
    if !crate::text::str_starts_with(q, "cd ") {
        return None;
    }
    proof {
        reveal_strlit("cd ");
    }
    let len = q.unicode_len();
    let pp = q.substring_char(3, len);
    let ppl = pp.unicode_len();
    proof {
        crate::text::lemma_last_index_props(pp@, '/');
    }
    match crate::text::rfind_char(pp, '/') {
        None => Some((String::new(), pp.to_owned())),
        Some(d) => {
            if d + 1 == ppl {
                Some((pp.to_owned(), String::new()))
            } else {
                Some((pp.substring_char(0, d + 1).to_owned(), pp.substring_char(d + 1, ppl).to_owned()))
            }
        },
    }
}

/// The directory a completion should list: the tilde-expanded directory
/// part, or the working directory when none was typed.
pub open spec fn spec_search_dir(dir_part: Seq<char>, home: Option<Seq<char>>) -> Seq<char> {
    let expanded = crate::text::spec_expand_tilde(dir_part, home);
    if expanded.len() == 0 {
        "."@
    } else {
        expanded
    }
}

pub fn search_dir_of(dir_part: &str, home: Option<&str>) -> (r: String)
    ensures
        r@ == spec_search_dir(dir_part@, match home {
            Some(h) => Some(h@),
            None => None,
        }),
{
    let expanded = crate::text::expand_tilde(dir_part, home);
    if expanded.as_str().is_empty() {
        ".".to_owned()
    } else {
        expanded
    }
}

/// One completion line: the command rebuilt around a directory name.
pub open spec fn cd_entry(dir: Seq<char>, name: Seq<char>) -> Seq<char> {
    "cd "@ + dir + name + "/"@
}

pub open spec fn prefix_pred(prefix: Seq<char>) -> spec_fn(String) -> bool {
    |n: String| crate::text::spec_starts_with(n@, prefix)
}

pub open spec fn cd_entry_fn(dir: Seq<char>) -> spec_fn(String) -> Seq<char> {
    |n: String| cd_entry(dir, n@)
}

/// Builds the sorted completion list for a directory listing: one entry per
/// name that starts with the typed prefix.
pub fn build_cd_matches(dir_part: &str, prefix: &str, entries: &Vec<String>) -> (r: Vec<String>)
    ensures
        crate::text::views_of(r@).to_multiset() == entries@.filter(prefix_pred(prefix@)).map_values(
            cd_entry_fn(dir_part@),
        ).to_multiset(),
        crate::text::strings_sorted(r@),
{
    let mut kept: Vec<String> = Vec::new();
    let mut i: usize = 0;
    while i < entries.len()
        invariant
            i <= entries@.len(),
            crate::text::views_of(kept@) == entries@.subrange(0, i as int).filter(
                prefix_pred(prefix@),
            ).map_values(cd_entry_fn(dir_part@)),
        decreases entries@.len() - i,
    {
        let ghost pre = entries@.subrange(0, i as int);
        let ghost next = entries@.subrange(0, i as int + 1);
        proof {
            reveal(Seq::filter);
            assert(next.drop_last() =~= pre);
            assert(next.last() == entries@[i as int]);
            assert(prefix_pred(prefix@)(entries@[i as int]) == crate::text::spec_starts_with(
                entries@[i as int]@,
                prefix@,
            ));
        }
        if crate::text::str_starts_with(entries[i].as_str(), prefix) {
            let line = "cd ".to_owned().concat(dir_part).concat(entries[i].as_str()).concat("/");
            let ghost kept0 = kept@;
            let ghost line_view = line@;
            kept.push(line);
            proof {
                reveal(Seq::filter);
                assert(next.filter(prefix_pred(prefix@)) == pre.filter(prefix_pred(prefix@)).push(
                    entries@[i as int],
                ));
                assert(cd_entry_fn(dir_part@)(entries@[i as int]) == cd_entry(
                    dir_part@,
                    entries@[i as int]@,
                ));
                assert(line_view == cd_entry(dir_part@, entries@[i as int]@));
                assert(crate::text::views_of(kept@) =~= crate::text::views_of(kept0).push(
                    line_view,
                ));
                assert(next.filter(prefix_pred(prefix@)).map_values(cd_entry_fn(dir_part@)) =~= pre.filter(
                    prefix_pred(prefix@),
                ).map_values(cd_entry_fn(dir_part@)).push(cd_entry(dir_part@, entries@[i as int]@)));
                assert(crate::text::views_of(kept@) =~= next.filter(prefix_pred(prefix@)).map_values(
                    cd_entry_fn(dir_part@),
                ));
            }
        } else {
            proof {
                reveal(Seq::filter);
                assert(next.filter(prefix_pred(prefix@)) == pre.filter(prefix_pred(prefix@)));
                assert(crate::text::views_of(kept@) =~= next.filter(prefix_pred(prefix@)).map_values(
                    cd_entry_fn(dir_part@),
                ));
            }
        }
        i += 1;
    }
    proof {
        assert(entries@.subrange(0, entries@.len() as int) =~= entries@);
    }
    crate::text::sort_strings(&mut kept);
    kept
}

impl App {
    /// Cycles to the next completion when the list is still the one fetched
    /// for this very directory; otherwise reports that a fresh listing is
    /// needed.
    pub fn try_cycle_completions(&mut self, search_dir: &str) -> (cycled: bool)
        requires
            old(self).wf(),
        ensures
            final(self).wf(),
            cycled == (old(self).completions@.len() > 0 && match old(self).completion_dir {
                Some(d) => d@ == search_dir@,
                None => false,
            }),
            cycled ==> {
                &&& final(self).completion_index as int == (old(self).completion_index as int + 1)
                    % old(self).completions@.len() as int
                &&& final(self).command_query == old(self).completions@[final(
                    self).completion_index as int]
                &&& final(self).completions == old(self).completions
                &&& final(self).completion_dir == old(self).completion_dir
                &&& final(self).mode == old(self).mode
            },
            !cycled ==> *final(self) == *old(self),
    {
        if self.completions.len() == 0 {
            return false;
        }
        let matches_dir = match &self.completion_dir {
            Some(d) => crate::text::strings_equal(d.as_str(), search_dir),
            None => false,
        };
        if matches_dir {
            self.completion_index = (self.completion_index + 1) % self.completions.len();
            self.command_query = self.completions[self.completion_index].clone();
            true
        } else {
            false
        }
    }

    /// Applies a fresh completion listing. An empty listing changes
    /// nothing. A single match completes the command line at once and
    /// reports that the directory inside it should be listed in turn;
    /// several matches become the list to cycle through, with the first
    /// shown.
    pub fn apply_matches(&mut self, search_dir: String, matches: Vec<String>) -> (unique: bool)
        requires
            old(self).wf(),
        ensures
            final(self).wf(),
            matches@.len() == 0 ==> *final(self) == *old(self) && !unique,
            matches@.len() == 1 ==> unique && *final(self) == (App {
                command_query: final(self).command_query,
                completion_dir: Some(search_dir),
                ..*old(self)
            }) && final(self).command_query == matches@[0],
            matches@.len() > 1 ==> !unique && *final(self) == (App {
                command_query: final(self).command_query,
                completion_dir: Some(search_dir),
                completions: matches,
                completion_index: 0,
                ..*old(self)
            }) && final(self).command_query == matches@[0],
    {
        if matches.len() == 0 {
            return false;
        }
        self.completion_dir = Some(search_dir);
        if matches.len() == 1 {
            self.command_query = matches[0].clone();
            true
        } else {
            self.command_query = matches[0].clone();
            self.completions = matches;
            self.completion_index = 0;
            false
        }
    }

    /// Stores the sub-listing fetched after a unique match, so the prompt
    /// shows what the completed directory holds.
    pub fn set_sub_completions(&mut self, subs: Vec<String>)
        requires
            old(self).wf(),
        ensures
            final(self).wf(),
            *final(self) == (App { completions: subs, completion_index: 0, ..*old(self) }),
    {
        self.completions = subs;
        self.completion_index = 0;
    }

    /// Runs the command line: a `cd` with a path sets the view directory
    /// (tilde-expanded), a bare `cd` resets it, anything else is ignored;
    /// the prompt closes either way. Returns whether the catalog must be
    /// discovered anew — the caller reloads and then applies the new
    /// catalog.
    pub fn confirm_command(&mut self, home: Option<&str>) -> (reload: bool)
        requires
            old(self).wf(),
        ensures
            final(self).wf(),
            final(self).mode is Grid,
            final(self).command_query@.len() == 0,
            ({
                let cmd = crate::text::spec_trim(old(self).command_query@);
                let home_view = match home {
                    Some(h) => Some(h@),
                    None => None,
                };
                if crate::text::spec_starts_with(cmd, "cd "@) {
                    &&& reload
                    &&& match final(self).current_view_dir {
                        Some(d) => d@ == crate::text::spec_expand_tilde(
                            crate::text::spec_trim(cmd.skip(3)),
                            home_view,
                        ),
                        None => false,
                    }
                } else if cmd == "cd"@ {
                    reload && final(self).current_view_dir is None
                } else {
                    !reload && final(self).current_view_dir == old(self).current_view_dir
                }
            }),
            final(self).wallpapers == old(self).wallpapers,
            final(self).filtered_indices == old(self).filtered_indices,
            final(self).selected == old(self).selected,
            final(self).search_query == old(self).search_query,
    {
        let cmd = crate::text::trim_spaces(self.command_query.as_str());
        let reload: bool;
        if crate::text::str_starts_with(cmd.as_str(), "cd ") {
            proof {
                reveal_strlit("cd ");
            }
            let rest = cmd.substring_char(3, cmd.unicode_len());
            let trimmed = crate::text::trim_spaces(rest);
            let path = crate::text::expand_tilde(trimmed.as_str(), home);
            self.current_view_dir = Some(path);
            reload = true;
        } else if crate::text::strings_equal(cmd.as_str(), "cd") {
            self.current_view_dir = None;
            reload = true;
        } else {
            reload = false;
        }
        self.mode = Mode::Grid;
        self.command_query = String::new();
        proof {
            assert(self.command_query@ =~= Seq::<char>::empty());
        }
        reload
    }
}

} // verus!
