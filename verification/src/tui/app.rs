//! UI state for the tabbed log viewer: open tabs, active tab, per-tab scroll,
//! per-service "seen" counts, the search box, and what each key press decides.
use vstd::prelude::*;

use super::key::{Key, KeyCode};
use super::search::{Search, SearchAction, SearchView, cursor_of, spec_edit};
use crate::service::ServiceStatus;

verus! {

/// A tab in the view: the combined All view, or one service (by index).
#[derive(Clone, Copy, Debug, PartialEq, Eq, Structural)]
pub enum Tab {
    All,
    Service(usize),
}

/// Per-tab scroll position in wrapped display rows from the tail; 0 follows the
/// newest row. May transiently exceed the max; the render layer clamps per frame.
#[derive(Clone, Copy, Debug, PartialEq, Eq, Structural)]
pub struct Scroll {
    pub offset_from_bottom: usize,
}

impl Default for Scroll {
    /// Following the tail.
    fn default() -> (s: Scroll)
        ensures
            s.offset_from_bottom == 0,
    {
        Scroll { offset_from_bottom: 0 }
    }
}

impl Scroll {
    /// Whether the view is pinned to the tail (newest lines).
    pub fn is_following(self) -> (b: bool)
        ensures
            b == (self.offset_from_bottom == 0),
    {
        self.offset_from_bottom == 0
    }
}

/// What a key asks of the runner.
#[derive(Clone, Copy, Debug, PartialEq, Eq, Structural)]
pub enum Command {
    /// Stop every service (SIGTERM, then SIGKILL after the timeout).
    Shutdown,
    /// Kill every service now.
    ForceShutdown,
    /// Stop the service with this index.
    StopService(usize),
}

/// What handling a key decided: a runner command, and whether the caller
/// should arm a forced hard exit (a repeat quit while tearing down).
#[derive(Clone, Copy, Debug, PartialEq, Eq, Structural)]
pub struct Outcome {
    pub command: Option<Command>,
    pub hard_exit: bool,
}

/// The UI state, as values.
pub struct AppView {
    pub n: int,
    pub tabs: Seq<Tab>,
    pub scroll: Seq<Scroll>,
    pub active: int,
    pub seen: Seq<Option<u64>>,
    pub viewport: int,
    pub quit: bool,
    pub finished: Option<i32>,
    pub global_stopped: bool,
    pub quit_requested: bool,
    pub search: Option<SearchView>,
}

/// The active tab's scroll offset set to `o`.
pub open spec fn with_offset(v: AppView, o: int) -> AppView {
    AppView { scroll: v.scroll.update(v.active, Scroll { offset_from_bottom: o as usize }), ..v }
}

/// The next tab, cyclically.
pub open spec fn spec_next_tab(v: AppView) -> AppView {
    AppView { active: (v.active + 1) % (v.tabs.len() as int), ..v }
}

/// The previous tab, cyclically.
pub open spec fn spec_prev_tab(v: AppView) -> AppView {
    AppView { active: (v.active + v.tabs.len() - 1) % (v.tabs.len() as int), ..v }
}

/// Up `n` rows, saturating.
pub open spec fn spec_scroll_up(v: AppView, n: int) -> AppView {
    let o = v.scroll[v.active].offset_from_bottom + n;
    with_offset(v, if o > usize::MAX { usize::MAX as int } else { o })
}

/// Down `n` rows, stopping at the tail.
pub open spec fn spec_scroll_down(v: AppView, n: int) -> AppView {
    let o = v.scroll[v.active].offset_from_bottom - n;
    with_offset(v, if o < 0 { 0 } else { o })
}

/// Closing the active tab: only a cleanly finished service's tab closes; its
/// seen count is forgotten and the next tab slides into the slot.
pub open spec fn spec_close_active(v: AppView, statuses: Seq<ServiceStatus>) -> AppView {
    match v.tabs[v.active] {
        Tab::Service(i) => if statuses[i as int] is Completed {
            let tabs = v.tabs.remove(v.active);
            AppView {
                tabs,
                scroll: v.scroll.remove(v.active),
                seen: v.seen.update(i as int, None),
                active: if v.active < tabs.len() { v.active } else { tabs.len() - 1 },
                ..v
            }
        } else {
            v
        },
        Tab::All => v,
    }
}

/// A stop of everything: SIGTERM first, SIGKILL on a repeat.
pub open spec fn spec_escalate(v: AppView) -> (AppView, Command) {
    if v.global_stopped {
        (v, Command::ForceShutdown)
    } else {
        (AppView { global_stopped: true, ..v }, Command::Shutdown)
    }
}

/// `q`: stop every service and quit once they are down.
pub open spec fn spec_request_quit(v: AppView, any_running: bool) -> (AppView, Option<Command>) {
    let v1 = AppView { quit_requested: true, ..v };
    if any_running {
        let (v2, c) = spec_escalate(v1);
        (v2, Some(c))
    } else if v.finished is Some {
        (AppView { quit: true, ..v1 }, None)
    } else {
        (v1, None)
    }
}

/// Ctrl+C: stop services while any run, else quit (a repeat asks a hard exit).
pub open spec fn spec_ctrl_c(v: AppView, any_running: bool) -> (AppView, Outcome) {
    if any_running {
        match v.tabs[v.active] {
            Tab::All => {
                let (v2, c) = spec_escalate(v);
                (v2, Outcome { command: Some(c), hard_exit: false })
            },
            Tab::Service(i) => (v, Outcome { command: Some(Command::StopService(i)), hard_exit: false }),
        }
    } else if v.quit_requested {
        (v, Outcome { command: None, hard_exit: true })
    } else {
        let v1 = AppView { quit_requested: true, ..v };
        (if v.finished is Some { AppView { quit: true, ..v1 } } else { v1 }, Outcome { command: None, hard_exit: false })
    }
}

/// `s`: open the box on the committed query (if any), following the tail.
pub open spec fn spec_open_search(v: AppView) -> AppView {
    let q = match v.search {
        Some(s) => s.query,
        None => Seq::empty(),
    };
    with_offset(AppView { search: Some(SearchView { query: q, pos: q.len() as int, editing: true }), ..v }, 0)
}

/// Esc: clear a committed filter and return to the tail.
pub open spec fn spec_clear_search(v: AppView) -> AppView {
    if v.search is Some {
        with_offset(AppView { search: None, ..v }, 0)
    } else {
        v
    }
}

/// A key routed to the open search box, and whether the box consumed it.
pub open spec fn spec_edit_search(v: AppView, key: Key) -> (AppView, bool) {
    let (s2, a) = spec_edit(v.search->Some_0, key);
    let v1 = AppView { search: Some(s2), ..v };
    match a {
        SearchAction::Pass => (v1, false),
        SearchAction::Handled => (v1, true),
        SearchAction::Refilter => (with_offset(v1, 0), true),
        SearchAction::Close => (with_offset(AppView { search: None, ..v }, 0), true),
    }
}

/// A navigation key (no box to feed it to).
pub open spec fn spec_navigate(v: AppView, key: Key, any_running: bool, statuses: Seq<ServiceStatus>) -> (AppView, Option<Command>) {
    match key.code {
        KeyCode::Char(c) => if c == 'q' {
            spec_request_quit(v, any_running)
        } else if c == 'c' {
            (spec_close_active(v, statuses), None)
        } else if c == 's' {
            (spec_open_search(v), None)
        } else {
            (v, None)
        },
        KeyCode::Esc => (spec_clear_search(v), None),
        KeyCode::Tab => if key.shift {
            (spec_prev_tab(v), None)
        } else {
            (spec_next_tab(v), None)
        },
        KeyCode::BackTab => (spec_prev_tab(v), None),
        KeyCode::Up => (spec_scroll_up(v, 1), None),
        KeyCode::Down => (spec_scroll_down(v, 1), None),
        KeyCode::PageUp => (spec_scroll_up(v, if v.viewport > 1 { v.viewport } else { 1 }), None),
        KeyCode::PageDown => (spec_scroll_down(v, if v.viewport > 1 { v.viewport } else { 1 }), None),
        KeyCode::Home => (with_offset(v, usize::MAX as int), None),
        KeyCode::End => (with_offset(v, 0), None),
        _ => (v, None),
    }
}

/// What one key does: Ctrl+C always drives shutdown; an open search box takes
/// the keys it edits; everything else navigates.
pub open spec fn spec_handle_key(v: AppView, key: Key, any_running: bool, statuses: Seq<ServiceStatus>) -> (AppView, Outcome) {
    if key.ctrl && key.code == KeyCode::Char('c') {
        spec_ctrl_c(v, any_running)
    } else {
        let (v1, consumed) = if v.search matches Some(s) && s.editing {
            spec_edit_search(v, key)
        } else {
            (v, false)
        };
        if consumed {
            (v1, Outcome { command: None, hard_exit: false })
        } else {
            let (v2, c) = spec_navigate(v1, key, any_running, statuses);
            (v2, Outcome { command: c, hard_exit: false })
        }
    }
}

/// The whole UI state.
pub struct App {
    n: usize,
    tabs: Vec<Tab>,
    scroll: Vec<Scroll>,
    active: usize,
    seen: Vec<Option<u64>>,
    viewport: usize,
    quit: bool,
    finished: Option<i32>,
    global_stopped: bool,
    quit_requested: bool,
    search: Option<Search>,
}

/// How many lines of a service the user has seen (none yet: zero).
pub open spec fn seen_count(seen: Option<u64>) -> u64 {
    match seen {
        Some(s) => s,
        None => 0,
    }
}

/// Everything a frame is drawn from (see [`App::render_fingerprint`]).
#[derive(Clone, Debug, PartialEq, Eq)]
pub struct Fingerprint {
    /// The active tab's index.
    pub active: usize,
    /// The active tab's scroll offset from the bottom.
    pub offset: usize,
    /// The viewport height.
    pub viewport: usize,
    /// The runner's exit code once it finished.
    pub finished: Option<i32>,
    /// Whether a global stop is in progress.
    pub global_stopped: bool,
    /// Whether the user asked to quit.
    pub quit_requested: bool,
    /// The search box: whether it is being edited, its query and caret.
    pub search: Option<(bool, String, usize)>,
    /// How many tabs are open.
    pub tab_count: usize,
    /// Each service's status and whether it has unread output.
    pub marks: Vec<(ServiceStatus, bool)>,
    /// The line totals feeding the active tab: the system log's then every
    /// service's on the All tab, the service's own on a service tab.
    pub content: Vec<u64>,
}

/// The tab list starts with All, then service tabs only, each for a service.
pub open spec fn tabs_ok(n: int, tabs: Seq<Tab>) -> bool {
    &&& tabs.len() >= 1
    &&& tabs[0] == Tab::All
    &&& forall|j: int| 1 <= j < tabs.len() ==> (#[trigger] tabs[j] matches Tab::Service(i) && i < n)
}

impl App {
    #[verifier::type_invariant]
    closed spec fn inv(&self) -> bool {
        &&& tabs_ok(self.n as int, self.tabs@)
        &&& self.scroll.len() == self.tabs.len()
        &&& self.active < self.tabs.len()
        &&& self.seen.len() == self.n
    }

    /// The state as values.
    pub closed spec fn view(&self) -> AppView {
        AppView {
            n: self.n as int,
            tabs: self.tabs@,
            scroll: self.scroll@,
            active: self.active as int,
            seen: self.seen@,
            viewport: self.viewport as int,
            quit: self.quit,
            finished: self.finished,
            global_stopped: self.global_stopped,
            quit_requested: self.quit_requested,
            search: search_view(self.search),
        }
    }

    /// A well-formed state: All first, then one valid service tab per slot.
    pub open spec fn well_formed(v: AppView) -> bool {
        &&& tabs_ok(v.n, v.tabs)
        &&& v.scroll.len() == v.tabs.len()
        &&& 0 <= v.active < v.tabs.len()
        &&& v.seen.len() == v.n
    }

    /// The initial state: an All tab plus one tab per service, all following.
    pub fn new(n_services: usize) -> (app: App)
        requires
            n_services < usize::MAX,
        ensures
            app.view().n == n_services,
            app.view().tabs == Seq::new(n_services as nat + 1, |j: int| if j == 0 { Tab::All } else { Tab::Service((j - 1) as usize) }),
            app.view().scroll == Seq::new(n_services as nat + 1, |j: int| Scroll { offset_from_bottom: 0 }),
            app.view().active == 0,
            app.view().seen == Seq::new(n_services as nat, |j: int| Some(0u64)),
            app.view().viewport == 0,
            !app.view().quit && !app.view().global_stopped && !app.view().quit_requested,
            app.view().finished is None,
            app.view().search is None,
    {
        let mut tabs: Vec<Tab> = Vec::new();
        let mut scroll: Vec<Scroll> = Vec::new();
        let mut seen: Vec<Option<u64>> = Vec::new();
        tabs.push(Tab::All);
        scroll.push(Scroll { offset_from_bottom: 0 });
        let mut i: usize = 0;
        while i < n_services
            invariant
                i <= n_services < usize::MAX,
                tabs@ == Seq::new(i as nat + 1, |j: int| if j == 0 { Tab::All } else { Tab::Service((j - 1) as usize) }),
                scroll@ == Seq::new(i as nat + 1, |j: int| Scroll { offset_from_bottom: 0 }),
                seen@ == Seq::new(i as nat, |j: int| Some(0u64)),
            decreases n_services - i,
        {
            tabs.push(Tab::Service(i));
            scroll.push(Scroll { offset_from_bottom: 0 });
            seen.push(Some(0));
            i = i + 1;
            assert(tabs@ =~= Seq::new(i as nat + 1, |j: int| if j == 0 { Tab::All } else { Tab::Service((j - 1) as usize) }));
            assert(scroll@ =~= Seq::new(i as nat + 1, |j: int| Scroll { offset_from_bottom: 0 }));
            assert(seen@ =~= Seq::new(i as nat, |j: int| Some(0u64)));
        }
        App {
            n: n_services,
            tabs,
            scroll,
            active: 0,
            seen,
            viewport: 0,
            quit: false,
            finished: None,
            global_stopped: false,
            quit_requested: false,
            search: None,
        }
    }

    /// A state with no services, used while the fields are swapped out.
    fn blank() -> (app: App)
        ensures
            app.view().n == 0,
    {
        let mut tabs: Vec<Tab> = Vec::new();
        tabs.push(Tab::All);
        let mut scroll: Vec<Scroll> = Vec::new();
        scroll.push(Scroll { offset_from_bottom: 0 });
        App {
            n: 0,
            tabs,
            scroll,
            active: 0,
            seen: Vec::new(),
            viewport: 0,
            quit: false,
            finished: None,
            global_stopped: false,
            quit_requested: false,
            search: None,
        }
    }

    /// Replaces the tab list, scroll positions, active tab and seen counts at once.
    fn put(&mut self, tabs: Vec<Tab>, scroll: Vec<Scroll>, active: usize, seen: Vec<Option<u64>>)
        requires
            tabs_ok(old(self).view().n, tabs@),
            scroll.len() == tabs.len(),
            active < tabs.len(),
            seen.len() == old(self).view().n,
        ensures
            final(self).view() == (AppView {
                tabs: tabs@,
                scroll: scroll@,
                active: active as int,
                seen: seen@,
                ..old(self).view()
            }),
    {
        let mut cur = App::blank();
        std::mem::swap(self, &mut cur);
        let App { n, viewport, quit, finished, global_stopped, quit_requested, search, .. } = cur;
        *self = App { n, tabs, scroll, active, seen, viewport, quit, finished, global_stopped, quit_requested, search };
    }

    /// Whether the user asked to quit and the UI should close.
    pub fn should_quit(&self) -> (b: bool)
        ensures
            b == self.view().quit,
    {
        self.quit
    }

    /// proccie's exit code once the runner has finished.
    pub fn finished(&self) -> (f: Option<i32>)
        ensures
            f == self.view().finished,
    {
        self.finished
    }

    /// Whether a global stop is in progress (drives the footer hint).
    pub fn is_shutting_down(&self) -> (b: bool)
        ensures
            b == self.view().global_stopped,
    {
        self.global_stopped
    }

    /// Whether the user has asked to quit and proccie is finishing teardown.
    pub fn is_exiting(&self) -> (b: bool)
        ensures
            b == self.view().quit_requested,
    {
        self.quit_requested
    }

    /// The active filter: a non-empty query, whether being edited or committed.
    pub fn filter_query(&self) -> (q: Option<String>)
        ensures
            match self.view().search {
                Some(s) => if s.query.len() > 0 {
                    q matches Some(t) && t@ == s.query
                } else {
                    q is None
                },
                None => q is None,
            },
    {
        match &self.search {
            Some(s) => s.filter_query(),
            None => None,
        }
    }

    /// The query while the box is open for editing (empty string included).
    pub fn search_input(&self) -> (q: Option<String>)
        ensures
            match self.view().search {
                Some(s) => if s.editing {
                    q matches Some(t) && t@ == s.query
                } else {
                    q is None
                },
                None => q is None,
            },
    {
        match &self.search {
            Some(s) => if s.is_editing() {
                Some(s.query())
            } else {
                None
            },
            None => None,
        }
    }

    /// The query and caret byte offset while the box is open for editing.
    pub fn search_editing(&self) -> (q: Option<(String, usize)>)
        ensures
            match self.view().search {
                Some(s) => if s.editing {
                    q matches Some((t, c)) && t@ == s.query && c == cursor_of(s)
                } else {
                    q is None
                },
                None => q is None,
            },
    {
        match &self.search {
            Some(s) => if s.is_editing() {
                Some((s.query(), s.cursor()))
            } else {
                None
            },
            None => None,
        }
    }

    /// While the box is open for editing: the query split at the caret (see
    /// [`Search::caret_parts`]).
    pub fn search_caret(&self) -> (r: Option<(String, Option<char>, String)>)
        ensures
            match self.view().search {
                Some(s) => if s.editing {
                    r matches Some((a, c, b)) && a@ == s.query.take(s.pos) && (s.pos < s.query.len() ==> c == Some(
                        s.query[s.pos],
                    ) && b@ == s.query.skip(s.pos + 1)) && (s.pos >= s.query.len() ==> c is None && b@ == Seq::<
                        char,
                    >::empty())
                } else {
                    r is None
                },
                None => r is None,
            },
    {
        match &self.search {
            Some(s) => if s.is_editing() {
                Some(s.caret_parts())
            } else {
                None
            },
            None => None,
        }
    }

    /// A committed, still-applied filter with the box shut (for its footer).
    pub fn search_committed(&self) -> (q: Option<String>)
        ensures
            match self.view().search {
                Some(s) => if !s.editing && s.query.len() > 0 {
                    q matches Some(t) && t@ == s.query
                } else {
                    q is None
                },
                None => q is None,
            },
    {
        match &self.search {
            Some(s) => if !s.is_editing() {
                s.filter_query()
            } else {
                None
            },
            None => None,
        }
    }

    /// Records the runner's exit code; quits now if the user already asked to.
    pub fn on_runner_finished(&mut self, code: Option<i32>)
        ensures
            final(self).view() == (AppView {
                finished: code,
                quit: old(self).view().quit || old(self).view().quit_requested,
                ..old(self).view()
            }),
    {
        proof {
            use_type_invariant(&*self);
        }
        self.finished = code;
        if self.quit_requested {
            self.quit = true;
        }
    }

    /// The open tabs, in display order.
    pub fn tabs(&self) -> (t: &Vec<Tab>)
        ensures
            t@ == self.view().tabs,
    {
        &self.tabs
    }

    /// The index of the active tab.
    pub fn active(&self) -> (a: usize)
        ensures
            a == self.view().active,
            a < self.view().tabs.len(),
    {
        proof {
            use_type_invariant(self);
        }
        self.active
    }

    /// The active tab.
    pub fn active_tab(&self) -> (t: Tab)
        ensures
            t == self.view().tabs[self.view().active],
            t matches Tab::Service(i) ==> i < self.view().n,
    {
        proof {
            use_type_invariant(self);
            if self.active > 0 {
                assert(self.tabs@[self.active as int] matches Tab::Service(i) && i < self.n);
            }
        }
        self.tabs[self.active]
    }

    /// The active tab's scroll position.
    pub fn active_scroll(&self) -> (s: Scroll)
        ensures
            s == self.view().scroll[self.view().active],
    {
        proof {
            use_type_invariant(self);
        }
        self.scroll[self.active]
    }

    /// Records the inner viewport height (rows) for paging and scroll clamping.
    pub fn set_viewport(&mut self, height: usize)
        ensures
            final(self).view() == (AppView { viewport: height as int, ..old(self).view() }),
    {
        proof {
            use_type_invariant(&*self);
        }
        self.viewport = height;
    }

    /// Sets the active tab's scroll offset (0 == tail).
    fn set_offset(&mut self, offset: usize)
        ensures
            final(self).view() == with_offset(old(self).view(), offset as int),
    {
        proof {
            use_type_invariant(&*self);
        }
        let a = self.active;
        let mut sc = self.scroll.clone();
        assert(sc@ =~= self.scroll@);
        sc.set(a, Scroll { offset_from_bottom: offset });
        let tabs = self.tabs.clone();
        assert(tabs@ =~= self.tabs@);
        let seen = self.seen.clone();
        assert(seen@ =~= self.seen@);
        self.put(tabs, sc, a, seen);
    }

    /// Writes back the active tab's scroll offset (rows from the bottom), once
    /// the render layer has clamped it to the measured height.
    pub fn set_scroll_offset(&mut self, offset: usize)
        ensures
            final(self).view() == with_offset(old(self).view(), offset as int),
    {
        self.set_offset(offset);
    }

    /// Whether service `i`, having pushed `total` lines, has output the user
    /// has not yet seen.
    pub fn has_unread(&self, i: usize, total: u64) -> (b: bool)
        requires
            i < self.view().n,
        ensures
            b == (total > match self.view().seen[i as int] {
                Some(s) => s,
                None => 0,
            }),
    {
        proof {
            use_type_invariant(self);
        }
        let s = match self.seen[i] {
            Some(s) => s,
            None => 0,
        };
        total > s
    }

    /// Everything a frame is drawn from, given each service's status and line
    /// total and the system log's line total: the event loop skips a repaint
    /// while this stays equal to the last drawn one (with the terminal size).
    pub fn render_fingerprint(&self, statuses: &Vec<ServiceStatus>, totals: &Vec<u64>, system_total: u64) -> (f: Fingerprint)
        requires
            statuses.len() == self.view().n,
            totals.len() == self.view().n,
        ensures
            f.active == self.view().active,
            f.offset == self.view().scroll[self.view().active].offset_from_bottom,
            f.viewport == self.view().viewport,
            f.finished == self.view().finished,
            f.global_stopped == self.view().global_stopped,
            f.quit_requested == self.view().quit_requested,
            match self.view().search {
                Some(s) => f.search matches Some((e, q, c)) && e == s.editing && q@ == s.query && c == cursor_of(s),
                None => f.search is None,
            },
            f.tab_count == self.view().tabs.len(),
            f.marks@.len() == self.view().n,
            forall|i: int|
                0 <= i < self.view().n ==> #[trigger] f.marks@[i] == (statuses@[i], totals@[i] > seen_count(self.view().seen[i])),
            match self.view().tabs[self.view().active] {
                Tab::All => f.content@ == seq![system_total] + totals@,
                Tab::Service(i) => f.content@ == seq![totals@[i as int]],
            },
    {
        proof {
            use_type_invariant(self);
        }
        let search = match &self.search {
            Some(s) => Some((s.is_editing(), s.query(), s.cursor())),
            None => None,
        };
        let mut marks: Vec<(ServiceStatus, bool)> = Vec::new();
        let mut i: usize = 0;
        while i < self.n
            invariant
                i <= self.n,
                statuses.len() == self.n,
                totals.len() == self.n,
                self.seen.len() == self.n,
                marks@.len() == i,
                forall|j: int| 0 <= j < i ==> #[trigger] marks@[j] == (statuses@[j], totals@[j] > seen_count(self.seen@[j])),
            decreases self.n - i,
        {
            let unread = self.has_unread(i, totals[i]);
            marks.push((statuses[i], unread));
            i = i + 1;
        }
        let content = match self.tabs[self.active] {
            Tab::All => {
                let mut c: Vec<u64> = Vec::new();
                c.push(system_total);
                let mut k: usize = 0;
                while k < totals.len()
                    invariant
                        k <= totals.len(),
                        c@ == seq![system_total] + totals@.take(k as int),
                    decreases totals.len() - k,
                {
                    c.push(totals[k]);
                    k = k + 1;
                    assert(c@ =~= seq![system_total] + totals@.take(k as int));
                }
                assert(totals@.take(totals.len() as int) =~= totals@);
                c
            },
            Tab::Service(s) => {
                let mut c: Vec<u64> = Vec::new();
                c.push(totals[s]);
                c
            },
        };
        Fingerprint {
            active: self.active,
            offset: self.scroll[self.active].offset_from_bottom,
            viewport: self.viewport,
            finished: self.finished,
            global_stopped: self.global_stopped,
            quit_requested: self.quit_requested,
            search,
            tab_count: self.tabs.len(),
            marks,
            content,
        }
    }

    /// Advances the seen counts once per frame (`totals[i]` is service `i`'s
    /// line total): the All tab sees everything; a service tab at the tail sees
    /// its service; scrolled up, nothing changes so new lines re-raise the mark.
    pub fn mark_seen(&mut self, totals: &Vec<u64>)
        requires
            totals.len() == old(self).view().n,
        ensures
            final(self).view() == (AppView {
                seen: match old(self).view().tabs[old(self).view().active] {
                    Tab::All => Seq::new(old(self).view().n as nat, |i: int| match old(self).view().seen[i] {
                        Some(_) => Some(totals[i]),
                        None => None,
                    }),
                    Tab::Service(i) => if old(self).view().scroll[old(self).view().active].offset_from_bottom == 0
                        && old(self).view().seen[i as int] is Some {
                        old(self).view().seen.update(i as int, Some(totals[i as int]))
                    } else {
                        old(self).view().seen
                    },
                },
                ..old(self).view()
            }),
    {
        proof {
            use_type_invariant(&*self);
        }
        let mut seen = self.seen.clone();
        assert(seen@ =~= self.seen@);
        let ghost old_seen = seen@;
        match self.tabs[self.active] {
            Tab::All => {
                let mut i: usize = 0;
                while i < seen.len()
                    invariant
                        i <= seen.len(),
                        seen.len() == old_seen.len(),
                        totals.len() == old_seen.len(),
                        forall|j: int| 0 <= j < i ==> seen@[j] == match old_seen[j] {
                            Some(_) => Some(totals[j]),
                            None => None,
                        },
                        forall|j: int| i <= j < seen.len() ==> seen@[j] == old_seen[j],
                    decreases seen.len() - i,
                {
                    if seen[i].is_some() {
                        seen.set(i, Some(totals[i]));
                    }
                    i = i + 1;
                }
                assert(seen@ =~= Seq::new(old_seen.len(), |i: int| match old_seen[i] {
                    Some(_) => Some(totals[i]),
                    None => None,
                }));
            },
            Tab::Service(i) => {
                if self.scroll[self.active].is_following() && seen[i].is_some() {
                    seen.set(i, Some(totals[i]));
                }
            },
        }
        let tabs = self.tabs.clone();
        assert(tabs@ =~= self.tabs@);
        let sc = self.scroll.clone();
        assert(sc@ =~= self.scroll@);
        let a = self.active;
        self.put(tabs, sc, a, seen);
    }

    /// Cycles to the next tab.
    pub fn next_tab(&mut self)
        ensures
            final(self).view() == spec_next_tab(old(self).view()),
    {
        proof {
            use_type_invariant(&*self);
        }
        self.active = (self.active + 1) % self.tabs.len();
    }

    /// Cycles to the previous tab.
    pub fn prev_tab(&mut self)
        ensures
            final(self).view() == spec_prev_tab(old(self).view()),
    {
        proof {
            use_type_invariant(&*self);
        }
        let len = self.tabs.len();
        let a0 = self.active;
        if self.active == 0 {
            self.active = len - 1;
        } else {
            self.active = self.active - 1;
        }
        let a1 = self.active;
        assert((a0 + len - 1) % (len as int) == a1) by (nonlinear_arith)
            requires
                a0 < len,
                a1 == (if a0 == 0 { len - 1 } else { a0 - 1 }),
        ;
    }

    /// Scrolls up `n` rows (pausing follow); the render layer clamps overshoot.
    pub fn scroll_up(&mut self, n: usize)
        ensures
            final(self).view() == spec_scroll_up(old(self).view(), n as int),
    {
        let offset = self.active_scroll().offset_from_bottom.saturating_add(n);
        self.set_offset(offset);
    }

    /// Scrolls down `n` rows; reaching the bottom resumes follow.
    pub fn scroll_down(&mut self, n: usize)
        ensures
            final(self).view() == spec_scroll_down(old(self).view(), n as int),
    {
        let offset = self.active_scroll().offset_from_bottom.saturating_sub(n);
        self.set_offset(offset);
    }

    /// Jumps to the top (oldest rows); the render layer clamps to the real max.
    pub fn scroll_home(&mut self)
        ensures
            final(self).view() == with_offset(old(self).view(), usize::MAX as int),
    {
        self.set_offset(usize::MAX);
    }

    /// Jumps to the bottom and resumes follow.
    pub fn scroll_end(&mut self)
        ensures
            final(self).view() == with_offset(old(self).view(), 0),
    {
        self.set_offset(0);
    }

    /// Closes the active tab if it is a cleanly-finished service (`statuses[i]`
    /// is service `i`'s status); otherwise a no-op (All, running, failed, or
    /// stopped services stay).
    pub fn close_active(&mut self, statuses: &Vec<ServiceStatus>)
        requires
            statuses.len() == old(self).view().n,
        ensures
            final(self).view() == spec_close_active(old(self).view(), statuses@),
    {
        proof {
            use_type_invariant(&*self);
        }
        let i = match self.tabs[self.active] {
            Tab::Service(i) => i,
            Tab::All => {
                return;
            },
        };
        if !statuses[i].is_closeable() {
            return;
        }
        let a = self.active;
        let ghost ot = self.tabs@;
        let mut tabs: Vec<Tab> = self.tabs.clone();
        let mut scroll: Vec<Scroll> = self.scroll.clone();
        let mut seen: Vec<Option<u64>> = self.seen.clone();
        assert(tabs@ =~= self.tabs@);
        assert(scroll@ =~= self.scroll@);
        assert(seen@ =~= self.seen@);
        tabs.remove(a);
        scroll.remove(a);
        seen.set(i, None);
        let na = if a < tabs.len() { a } else { tabs.len() - 1 };
        proof {
            assert forall|j: int| 1 <= j < tabs@.len() implies (#[trigger] tabs@[j] matches Tab::Service(k) && k < self.n) by {
                if j < a {
                    assert(tabs@[j] == ot[j]);
                } else {
                    assert(tabs@[j] == ot[j + 1]);
                }
            }
        }
        self.put(tabs, scroll, na, seen);
    }

    /// Takes the search out, leaving none.
    fn take_search(&mut self) -> (s: Option<Search>)
        ensures
            final(self).view() == (AppView { search: None, ..old(self).view() }),
            search_view(s) == old(self).view().search,
    {
        let mut cur = App::blank();
        std::mem::swap(self, &mut cur);
        proof {
            use_type_invariant(&cur);
        }
        let App { n, tabs, scroll, active, seen, viewport, quit, finished, global_stopped, quit_requested, search } = cur;
        *self = App { n, tabs, scroll, active, seen, viewport, quit, finished, global_stopped, quit_requested, search: None };
        search
    }

    /// Installs a search (or none).
    fn set_search(&mut self, s: Option<Search>)
        ensures
            final(self).view() == (AppView { search: search_view(s), ..old(self).view() }),
    {
        let mut cur = App::blank();
        std::mem::swap(self, &mut cur);
        proof {
            use_type_invariant(&cur);
        }
        let App { n, tabs, scroll, active, seen, viewport, quit, finished, global_stopped, quit_requested, .. } = cur;
        *self = App { n, tabs, scroll, active, seen, viewport, quit, finished, global_stopped, quit_requested, search: s };
    }

    /// A stop of everything: SIGTERM first, SIGKILL on a repeat.
    fn escalate_global_stop(&mut self) -> (c: Command)
        ensures
            (final(self).view(), c) == spec_escalate(old(self).view()),
    {
        proof {
            use_type_invariant(&*self);
        }
        if self.global_stopped {
            Command::ForceShutdown
        } else {
            self.global_stopped = true;
            Command::Shutdown
        }
    }

    /// `q`: stop every service (SIGTERM, then SIGKILL after the timeout) and
    /// exit proccie once they have all shut down. A repeat press force-kills.
    fn request_quit(&mut self, any_running: bool) -> (c: Option<Command>)
        ensures
            (final(self).view(), c) == spec_request_quit(old(self).view(), any_running),
    {
        proof {
            use_type_invariant(&*self);
        }
        self.quit_requested = true;
        if any_running {
            Some(self.escalate_global_stop())
        } else {
            if self.finished.is_some() {
                self.quit = true;
            }
            None
        }
    }

    /// Ctrl+C: stops services while any run (staying open for review), else quits;
    /// says whether to arm a forced hard exit.
    fn handle_ctrl_c(&mut self, any_running: bool) -> (o: Outcome)
        ensures
            (final(self).view(), o) == spec_ctrl_c(old(self).view(), any_running),
    {
        proof {
            use_type_invariant(&*self);
        }
        if any_running {
            match self.tabs[self.active] {
                Tab::All => {
                    let c = self.escalate_global_stop();
                    Outcome { command: Some(c), hard_exit: false }
                },
                Tab::Service(i) => Outcome { command: Some(Command::StopService(i)), hard_exit: false },
            }
        } else if self.quit_requested {
            Outcome { command: None, hard_exit: true }
        } else {
            self.quit_requested = true;
            // Runner already done: exit now; else quit when teardown finishes.
            if self.finished.is_some() {
                self.quit = true;
            }
            Outcome { command: None, hard_exit: false }
        }
    }

    /// Opens the search box, carrying over a committed query so `s` re-edits it,
    /// and follows the newest matches.
    fn open_search(&mut self)
        ensures
            final(self).view() == spec_open_search(old(self).view()),
    {
        let q = match self.take_search() {
            Some(s) => s.into_query(),
            None => String::new(),
        };
        self.set_search(Some(Search::editing(q)));
        self.scroll_end();
    }

    /// Clears any search (a committed filter) and returns to the live tail.
    fn clear_search(&mut self)
        ensures
            final(self).view() == spec_clear_search(old(self).view()),
    {
        let s = self.take_search();
        if s.is_some() {
            self.scroll_end();
        } else {
            self.set_search(None);
        }
    }

    /// Routes one key to the open box and applies its request. Returns whether
    /// the key was consumed (else it falls through so scrolling still works).
    fn edit_search(&mut self, key: Key) -> (consumed: bool)
        requires
            old(self).view().search is Some,
        ensures
            (final(self).view(), consumed) == spec_edit_search(old(self).view(), key),
    {
        match self.take_search() {
            Some(mut s) => {
                let a = s.edit(key);
                match a {
                    SearchAction::Pass => {
                        self.set_search(Some(s));
                        false
                    },
                    SearchAction::Handled => {
                        self.set_search(Some(s));
                        true
                    },
                    SearchAction::Refilter => {
                        self.set_search(Some(s));
                        self.scroll_end();
                        true
                    },
                    SearchAction::Close => {
                        self.scroll_end();
                        true
                    },
                }
            },
            None => false,
        }
    }

    /// Whether the search box is open and capturing keystrokes.
    fn is_editing_search(&self) -> (b: bool)
        ensures
            b == (self.view().search matches Some(s) && s.editing),
    {
        match &self.search {
            Some(s) => s.is_editing(),
            None => false,
        }
    }

    /// A navigation key: quit, close, search, tab switch, or scroll.
    fn navigate(&mut self, key: Key, any_running: bool, statuses: &Vec<ServiceStatus>) -> (c: Option<Command>)
        requires
            statuses.len() == old(self).view().n,
        ensures
            (final(self).view(), c) == spec_navigate(old(self).view(), key, any_running, statuses@),
    {
        match key.code {
            KeyCode::Char(c) => {
                if c == 'q' {
                    self.request_quit(any_running)
                } else if c == 'c' {
                    self.close_active(statuses);
                    None
                } else if c == 's' {
                    self.open_search();
                    None
                } else {
                    None
                }
            },
            // Esc clears a committed filter (an editing box handles its own Esc).
            KeyCode::Esc => {
                self.clear_search();
                None
            },
            // Some terminals send Shift+Tab as Tab+SHIFT rather than BackTab.
            KeyCode::Tab => {
                if key.shift {
                    self.prev_tab();
                } else {
                    self.next_tab();
                }
                None
            },
            KeyCode::BackTab => {
                self.prev_tab();
                None
            },
            KeyCode::Up => {
                self.scroll_up(1);
                None
            },
            KeyCode::Down => {
                self.scroll_down(1);
                None
            },
            KeyCode::PageUp => {
                let page = if self.viewport > 1 { self.viewport } else { 1 };
                self.scroll_up(page);
                None
            },
            KeyCode::PageDown => {
                let page = if self.viewport > 1 { self.viewport } else { 1 };
                self.scroll_down(page);
                None
            },
            KeyCode::Home => {
                self.scroll_home();
                None
            },
            KeyCode::End => {
                self.scroll_end();
                None
            },
            _ => None,
        }
    }

    /// Handles one key press (`any_running`: whether any service still runs;
    /// `statuses[i]`: service `i`'s status). Returns the runner command it
    /// decides on, and whether the caller should arm a forced hard exit (a
    /// repeat quit while tearing down).
    pub fn handle_key(&mut self, key: Key, any_running: bool, statuses: &Vec<ServiceStatus>) -> (o: Outcome)
        requires
            statuses.len() == old(self).view().n,
        ensures
            (final(self).view(), o) == spec_handle_key(old(self).view(), key, any_running, statuses@),
    {
        // Ctrl+C always drives shutdown, even with the search box open.
        if key.ctrl && key.code == KeyCode::Char('c') {
            return self.handle_ctrl_c(any_running);
        }
        // While editing, most keys edit the query; navigation falls through.
        if self.is_editing_search() {
            if self.edit_search(key) {
                return Outcome { command: None, hard_exit: false };
            }
        }
        let c = self.navigate(key, any_running, statuses);
        Outcome { command: c, hard_exit: false }
    }
}

/// The state of an optional search box.
pub open spec fn search_view(s: Option<Search>) -> Option<SearchView> {
    match s {
        Some(x) => Some(x.view()),
        None => None,
    }
}


/// Going to the next tab and back returns to the same tab.
pub proof fn lemma_next_then_prev(v: AppView)
    requires
        App::well_formed(v),
    ensures
        spec_prev_tab(spec_next_tab(v)) == v,
{
    let n = v.tabs.len() as int;
    let a = v.active;
    let b = (a + 1) % n;
    assert(b == if a + 1 < n { a + 1 } else { 0 }) by (nonlinear_arith)
        requires
            0 <= a < n,
            b == (a + 1) % n,
    ;
    let c = (b + n - 1) % n;
    assert(c == a) by (nonlinear_arith)
        requires
            0 <= a < n,
            b == (if a + 1 < n { a + 1 } else { 0 }),
            c == (b + n - 1) % n,
    ;
}

/// Jumping to the end makes the active tab follow the tail again.
pub proof fn lemma_end_follows(v: AppView)
    requires
        App::well_formed(v),
    ensures
        with_offset(v, 0).scroll[v.active].offset_from_bottom == 0,
        with_offset(v, 0).tabs == v.tabs,
{
}

/// A close keeps the All tab first and never leaves the active tab out of range.
pub proof fn lemma_close_keeps_all_tab(v: AppView, statuses: Seq<ServiceStatus>)
    requires
        App::well_formed(v),
        statuses.len() == v.n,
    ensures
        App::well_formed(spec_close_active(v, statuses)),
{
    if let Tab::Service(i) = v.tabs[v.active] {
        if statuses[i as int] is Completed {
            let tabs = v.tabs.remove(v.active);
            assert(v.active >= 1);
            assert forall|j: int| 1 <= j < tabs.len() implies (#[trigger] tabs[j] matches Tab::Service(k) && k < v.n) by {
                if j < v.active {
                    assert(tabs[j] == v.tabs[j]);
                } else {
                    assert(tabs[j] == v.tabs[j + 1]);
                }
            }
        }
    }
}

/// PageUp and PageDown move the active tab's view by a page, the viewport's
/// height (at least one row): PageUp raises the offset from the newest line by
/// that much, saturating at the largest `usize`; PageDown lowers it, stopping
/// at the tail. The active tab and the other tabs' offsets stay as they were,
/// whether or not the search box is open.
pub proof fn lemma_page_keys_scroll_a_page(v: AppView, key: Key, any_running: bool, statuses: Seq<ServiceStatus>)
    requires
        App::well_formed(v),
        key.code == KeyCode::PageUp || key.code == KeyCode::PageDown,
    ensures
        ({
            let page: int = if v.viewport > 1 { v.viewport } else { 1 };
            let before = v.scroll[v.active].offset_from_bottom as int;
            let w = spec_handle_key(v, key, any_running, statuses).0;
            &&& w.active == v.active
            &&& w.scroll.len() == v.scroll.len()
            &&& key.code == KeyCode::PageUp ==> w.scroll[v.active].offset_from_bottom as int == (if before + page
                > usize::MAX { usize::MAX as int } else { before + page })
            &&& key.code == KeyCode::PageDown ==> w.scroll[v.active].offset_from_bottom as int == (if before - page
                < 0 { 0 } else { before - page })
            &&& forall|t: int| 0 <= t < v.scroll.len() && t != v.active ==> #[trigger] w.scroll[t] == v.scroll[t]
            &&& page >= 1 && (v.viewport >= 1 ==> page == v.viewport)
        }),
{
    if v.search is Some && v.search->Some_0.editing {
        let s = v.search->Some_0;
        let (s2, a) = spec_edit(s, key);
        assert(s2 == s && a == SearchAction::Pass);
        assert(AppView { search: Some(s2), ..v } == v);
    }
}

/// The other navigation keys: Up and Down move the active view by exactly one
/// row (saturating at the top, stopping at the tail); Home goes to the oldest
/// line (the largest offset) and End back to following the newest; Tab moves
/// to the next tab and BackTab or Shift+Tab to the previous one, wrapping.
pub proof fn lemma_navigation_keys(v: AppView, key: Key, any_running: bool, statuses: Seq<ServiceStatus>)
    requires
        App::well_formed(v),
        !(v.search is Some && v.search->Some_0.editing),
    ensures
        ({
            let before = v.scroll[v.active].offset_from_bottom as int;
            let w = spec_handle_key(v, key, any_running, statuses).0;
            let n = v.tabs.len() as int;
            &&& key.code == KeyCode::Up ==> w.active == v.active && w.scroll[v.active].offset_from_bottom as int == (
            if before + 1 > usize::MAX { usize::MAX as int } else { before + 1 })
            &&& key.code == KeyCode::Down ==> w.active == v.active && w.scroll[v.active].offset_from_bottom as int == (
            if before == 0 { 0 } else { before - 1 })
            &&& key.code == KeyCode::Home ==> w.scroll[v.active].offset_from_bottom == usize::MAX
            &&& key.code == KeyCode::End ==> w.scroll[v.active].offset_from_bottom == 0
            &&& key.code == KeyCode::Tab && !key.shift ==> w.active == (if v.active + 1 < n { v.active + 1 } else { 0 })
            &&& (key.code == KeyCode::BackTab || (key.code == KeyCode::Tab && key.shift)) ==> w.active == (if v.active > 0 {
                v.active - 1
            } else {
                n - 1
            })
        }),
{
    let n = v.tabs.len() as int;
    let a = v.active;
    assert((a + 1) % n == (if a + 1 < n { a + 1 } else { 0 })) by (nonlinear_arith)
        requires
            0 <= a < n,
    ;
    assert((a + n - 1) % n == (if a > 0 { a - 1 } else { n - 1 })) by (nonlinear_arith)
        requires
            0 <= a < n,
    ;
}

/// Ctrl+C while services run: on the All tab the first press stops everything
/// gracefully and a second press forces the kill; on a service's tab it stops
/// that service alone. With nothing running, the first press asks to quit
/// (quitting at once if the run already finished) and a second press asks a
/// hard exit.
pub proof fn lemma_ctrl_c_escalates(v: AppView, key: Key, statuses: Seq<ServiceStatus>)
    requires
        App::well_formed(v),
        key.ctrl && key.code == KeyCode::Char('c'),
        !v.global_stopped,
        !v.quit_requested,
    ensures
        ({
            let (w1, o1) = spec_handle_key(v, key, true, statuses);
            let (w2, o2) = spec_handle_key(w1, key, true, statuses);
            v.tabs[v.active] == Tab::All ==> o1.command == Some(Command::Shutdown) && o2.command == Some(
                Command::ForceShutdown,
            ) && !o1.hard_exit && !o2.hard_exit
        }),
        v.tabs[v.active] matches Tab::Service(i) ==> spec_handle_key(v, key, true, statuses).1.command == Some(
            Command::StopService(i),
        ),
        ({
            let (w1, o1) = spec_handle_key(v, key, false, statuses);
            let (w2, o2) = spec_handle_key(w1, key, false, statuses);
            &&& o1.command is None && !o1.hard_exit && w1.quit_requested
            &&& (v.finished is Some ==> w1.quit)
            &&& o2.hard_exit
        }),
{
}

} // verus!
