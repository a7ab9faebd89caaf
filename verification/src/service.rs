//! A service's lifecycle status (icon, noun, code, the close gate), the
//! first-terminal-status-wins update, and the color each service is given.
use vstd::prelude::*;

use crate::config::Config;
use crate::config::graph::{Adjacency, strs, topo_order};
use crate::config::schema::Process;
use crate::strmap::StrMap;
use crate::theme::{AnsiColor, Color, Theme, spec_palette, spec_parse_color};

verus! {

/// A service's lifecycle status, driving the tab icon and the close gate.
#[derive(Clone, Copy, Debug, PartialEq, Eq, Structural, Hash)]
pub enum ServiceStatus {
    /// Defined but not yet launched: still waiting on dependencies (or startup).
    Waiting,
    Running,
    /// Finished as expected (an allowed exit code, which may be non-zero); the
    /// tab is closeable.
    Completed(i32),
    /// Exited with an unexpected code (a failure).
    Failed(i32),
    /// Stopped by a manual or shutdown kill.
    Stopped,
}

/// Whether a status is still waiting to start or running.
pub open spec fn spec_is_active(s: ServiceStatus) -> bool {
    s is Waiting || s is Running
}

/// The glyph of each status.
pub open spec fn spec_icon(s: ServiceStatus) -> Seq<char> {
    match s {
        ServiceStatus::Running => "●"@,
        ServiceStatus::Waiting => "○"@,
        ServiceStatus::Completed(_) => "✓"@,
        ServiceStatus::Failed(_) => "✗"@,
        ServiceStatus::Stopped => "■"@,
    }
}

/// The noun of each status.
pub open spec fn spec_noun(s: ServiceStatus) -> Seq<char> {
    match s {
        ServiceStatus::Running => "running"@,
        ServiceStatus::Waiting => "waiting"@,
        ServiceStatus::Completed(_) => "completed"@,
        ServiceStatus::Failed(_) => "failed"@,
        ServiceStatus::Stopped => "stopped"@,
    }
}

/// The status after a finish attempt: `next` only from an active status.
pub open spec fn spec_finish(current: ServiceStatus, next: ServiceStatus) -> ServiceStatus {
    if spec_is_active(current) {
        next
    } else {
        current
    }
}

impl ServiceStatus {
    /// Every lifecycle state in display order — the single source for tallying
    /// and labelling (carried codes are placeholders, compared by variant).
    pub fn all() -> (v: Vec<ServiceStatus>)
        ensures
            v@ == seq![
                ServiceStatus::Running,
                ServiceStatus::Waiting,
                ServiceStatus::Completed(0),
                ServiceStatus::Failed(0),
                ServiceStatus::Stopped,
            ],
    {
        let mut v: Vec<ServiceStatus> = Vec::new();
        v.push(ServiceStatus::Running);
        v.push(ServiceStatus::Waiting);
        v.push(ServiceStatus::Completed(0));
        v.push(ServiceStatus::Failed(0));
        v.push(ServiceStatus::Stopped);
        assert(v@ =~= seq![
            ServiceStatus::Running,
            ServiceStatus::Waiting,
            ServiceStatus::Completed(0),
            ServiceStatus::Failed(0),
            ServiceStatus::Stopped,
        ]);
        v
    }

    /// The tab-bar status glyph, keyed to lifecycle.
    pub fn icon(self) -> (s: &'static str)
        ensures
            s@ == spec_icon(self),
    {
        match self {
            ServiceStatus::Running => "●",
            ServiceStatus::Waiting => "○",
            ServiceStatus::Completed(_) => "✓",
            ServiceStatus::Failed(_) => "✗",
            ServiceStatus::Stopped => "■",
        }
    }

    /// The lifecycle noun for footer tallies (the code, if any, shows via
    /// [`ServiceStatus::code`]).
    pub fn noun(self) -> (s: &'static str)
        ensures
            s@ == spec_noun(self),
    {
        match self {
            ServiceStatus::Running => "running",
            ServiceStatus::Waiting => "waiting",
            ServiceStatus::Completed(_) => "completed",
            ServiceStatus::Failed(_) => "failed",
            ServiceStatus::Stopped => "stopped",
        }
    }

    /// The exit/failure code to show beside the icon, if noteworthy: a failure's
    /// code, or a completion's when it is not zero.
    pub fn code(self) -> (c: Option<i32>)
        ensures
            c == (match self {
                ServiceStatus::Completed(c) => if c != 0 {
                    Some(c)
                } else {
                    None
                },
                ServiceStatus::Failed(c) => Some(c),
                _ => None,
            }),
    {
        match self {
            ServiceStatus::Completed(c) => if c != 0 {
                Some(c)
            } else {
                None
            },
            ServiceStatus::Failed(c) => Some(c),
            _ => None,
        }
    }

    /// Whether the service is still waiting to start or running.
    pub fn is_active(self) -> (b: bool)
        ensures
            b == spec_is_active(self),
    {
        match self {
            ServiceStatus::Waiting | ServiceStatus::Running => true,
            _ => false,
        }
    }

    /// Whether the service has reached a terminal state.
    pub fn is_terminal(self) -> (b: bool)
        ensures
            b == !spec_is_active(self),
    {
        !self.is_active()
    }

    /// Whether a service in this state finished as expected, so its tab can close.
    pub fn is_closeable(self) -> (b: bool)
        ensures
            b == (self is Completed),
    {
        match self {
            ServiceStatus::Completed(_) => true,
            _ => false,
        }
    }

    /// Records a terminal `status` only from a non-terminal state
    /// (`Waiting`/`Running`), so the first of a concurrent stop/exit wins.
    /// Returns whether it was recorded.
    pub fn finish_if_active(&mut self, status: ServiceStatus) -> (done: bool)
        ensures
            done == spec_is_active(*old(self)),
            *final(self) == spec_finish(*old(self), status),
    {
        if self.is_active() {
            *self = status;
            true
        } else {
            false
        }
    }

    /// Marks the service `Stopped` only from a non-terminal state, so a stop
    /// can't clobber a terminal status a concurrent exit just set.
    pub fn stop_if_active(&mut self) -> (done: bool)
        ensures
            done == spec_is_active(*old(self)),
            *final(self) == spec_finish(*old(self), ServiceStatus::Stopped),
    {
        self.finish_if_active(ServiceStatus::Stopped)
    }
}

/// The first terminal status wins: once a finish has recorded a terminal status,
/// every later finish leaves it in place.
pub proof fn lemma_first_finish_wins(s: ServiceStatus, first: ServiceStatus, later: ServiceStatus)
    requires
        !spec_is_active(first),
    ensures
        !spec_is_active(spec_finish(s, first)),
        spec_finish(spec_finish(s, first), later) == spec_finish(s, first),
        spec_is_active(s) ==> spec_finish(spec_finish(s, first), later) == first,
{
}

/// The colors assigned walking the first `n` names of `order`, and the next
/// palette slot: a configured (parseable) color, else the next slot of the
/// palette; names with no process get none, and a later entry for a name
/// replaces an earlier one.
pub open spec fn assign_colors(
    procs: &StrMap<Process>,
    order: Seq<Seq<char>>,
    palette: Seq<AnsiColor>,
    n: int,
) -> (Map<Seq<char>, Color>, int)
    decreases n,
{
    if n <= 0 {
        (Map::empty(), 0)
    } else {
        let (m, idx) = assign_colors(procs, order, palette, n - 1);
        let k = order[n - 1];
        if !procs@.contains_key(k) {
            (m, idx)
        } else if procs@[k].color matches Some(c) && spec_parse_color(c@) is Some {
            (m.insert(k, spec_parse_color(procs@[k].color->Some_0@)->Some_0), idx)
        } else {
            (m.insert(k, Color::Ansi(palette[idx % (palette.len() as int)])), idx + 1)
        }
    }
}

/// Resolves each service's color: its configured `color`, else the next slot of
/// the theme's palette, assigned walking start order (not alphabetical key order).
pub fn resolve_colors(config: &Config, adjacency: &Adjacency, theme: Theme) -> (colors: StrMap<Color>)
    ensures
        colors@ == assign_colors(
            &config.table(),
            crate::config::graph::spec_topo_order(adjacency),
            spec_palette(theme),
            crate::config::graph::spec_topo_order(adjacency).len() as int,
        ).0,
{
    let palette = theme.palette();
    let processes = config.processes();
    let order = topo_order(adjacency);
    let ghost ord = strs(order@);
    let ghost pal = spec_palette(theme);
    let mut colors: StrMap<Color> = StrMap::new();
    let mut idx: usize = 0;
    let mut i: usize = 0;
    while i < order.len()
        invariant
            i <= order.len(),
            ord == strs(order@),
            pal == palette@,
            palette@.len() == 10,
            *processes == config.table(),
            colors@ == assign_colors(processes, ord, pal, i as int).0,
            idx == assign_colors(processes, ord, pal, i as int).1,
            idx <= i,
        decreases order.len() - i,
    {
        let key = &order[i];
        assert(ord[i as int] == key@);
        match processes.get(key.as_str()) {
            None => {},
            Some(p) => {
                let configured = match &p.color {
                    Some(c) => crate::theme::parse_color(c.as_str()),
                    None => None,
                };
                match configured {
                    Some(c) => {
                        colors.insert(key.clone(), c);
                    },
                    None => {
                        let slot = palette[idx % palette.len()];
                        colors.insert(key.clone(), Color::Ansi(slot));
                        idx = idx + 1;
                    },
                }
            },
        }
        i = i + 1;
    }
    colors
}

/// Who a service is: its key, its display label, and its color.
#[derive(Clone, Debug)]
pub struct Identity {
    pub key: String,
    pub label: String,
    pub color: Color,
}

/// The identity of each process, in name order: the display name as its
/// label, and its resolved color (see [`resolve_colors`]; the theme's subtle
/// color should a name have none).
pub fn identities(config: &Config, adjacency: &Adjacency, theme: Theme) -> (ids: Vec<Identity>)
    ensures
        ids@.len() == config.table().keys().len(),
        forall|i: int| 0 <= i < ids@.len() ==> {
            let k = config.table().keys()[i];
            let colors = assign_colors(
                &config.table(),
                crate::config::graph::spec_topo_order(adjacency),
                spec_palette(theme),
                crate::config::graph::spec_topo_order(adjacency).len() as int,
            ).0;
            &&& (#[trigger] ids@[i]).key@ == k
            &&& ids@[i].label@ == crate::config::schema::spec_display_name(&config.table().vals()[i], k)
            &&& ids@[i].color == (if colors.contains_key(k) {
                colors[k]
            } else {
                crate::theme::spec_subtle(theme)
            })
        },
{
    let colors = resolve_colors(config, adjacency, theme);
    let procs = config.processes();
    proof {
        use_type_invariant(procs);
        procs.lemma_view();
        use_type_invariant(&colors);
        colors.lemma_view();
    }
    let mut ids: Vec<Identity> = Vec::new();
    let mut i: usize = 0;
    while i < procs.len()
        invariant
            i <= procs.keys().len(),
            *procs == config.table(),
            procs.keys().len() == procs.vals().len(),
            ids@.len() == i,
            forall|j: int| 0 <= j < i ==> {
                let k = procs.keys()[j];
                &&& (#[trigger] ids@[j]).key@ == k
                &&& ids@[j].label@ == crate::config::schema::spec_display_name(&procs.vals()[j], k)
                &&& ids@[j].color == (if colors@.contains_key(k) {
                    colors@[k]
                } else {
                    crate::theme::spec_subtle(theme)
                })
            },
        decreases procs.keys().len() - i,
    {
        let key = procs.key_at(i);
        let p = procs.value_at(i);
        let label = p.display_name(key.as_str()).to_owned();
        let color = match colors.get(key.as_str()) {
            Some(c) => *c,
            None => theme.subtle(),
        };
        ids.push(Identity { key: key.clone(), label, color });
        i = i + 1;
    }
    ids
}

} // verus!
