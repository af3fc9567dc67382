//! Cell model and reconciliation.
//!
//! A *cell* is the layout state for one `(output, desktop, activity)` tuple.
//! Cells are never the source of truth: on every reconcile the cell list is
//! rebuilt from the live [`Topology`], so a cell whose output, desktop or
//! activity has vanished cannot survive.

use vstd::prelude::*;

use crate::config::{BehaviorConfig, Config, WindowRule, opt_chars, rule_matches};
use crate::ipc::{
    ActivityId, ConfigReport, DesktopId, Direction, GeometrySet, Keybinding, LayoutKind, Output,
    OutputId, RATIO_SCALE, ReconcileReport, Rect, Topology, TopologyView, Window, WindowGeometry,
    WindowId,
};
use crate::keys;
use crate::layout::{self, LayoutParams};

verus! {

/// Step applied to the master ratio by a directional resize (5%).
pub const RESIZE_STEP: i32 = 50000;

/// Sentinel id that collapses a cell dimension (desktop or activity) when its
/// `per_*` flag is off, so every value along it shares one cell. The leading
/// NUL keeps it from colliding with any real compositor id.
pub const COLLAPSED: &'static str = "\u{0}rift-all";

/// The characters of a cell key: output, desktop, activity.
pub type KeyView = (Seq<char>, Seq<char>, Seq<char>);

/// Identifies a cell by its `(output, desktop, activity)` tuple.
#[derive(Debug, PartialEq, Eq, Hash)]
pub struct CellKey {
    pub output: OutputId,
    pub desktop: DesktopId,
    pub activity: ActivityId,
}

impl View for CellKey {
    type V = KeyView;

    open spec fn view(&self) -> KeyView {
        (self.output@, self.desktop@, self.activity@)
    }
}

impl Clone for CellKey {
    fn clone(&self) -> (r: Self)
        ensures
            r == *self,
    {
        CellKey {
            output: self.output.clone(),
            desktop: self.desktop.clone(),
            activity: self.activity.clone(),
        }
    }
}

impl CellKey {
    /// A key from the characters of its three ids.
    pub fn new(output: &str, desktop: &str, activity: &str) -> (r: Self)
        ensures
            r@ == (output@, desktop@, activity@),
    {
        CellKey {
            output: OutputId::new(output),
            desktop: DesktopId::new(desktop),
            activity: ActivityId::new(activity),
        }
    }

    /// Whether both keys name the same tuple.
    pub fn same(&self, other: &Self) -> (r: bool)
        ensures
            r == (self@ == other@),
    {
        self.output.same(&other.output) && self.desktop.same(&other.desktop)
            && self.activity.same(&other.activity)
    }
}

/// The outcome of [`State::move_window`].
#[derive(Debug, Clone, Copy, PartialEq, Eq, Structural)]
pub enum MoveOutcome {
    /// Nothing moved (no focus, or no neighbor and no adjacent output).
    NoMove,
    /// Swapped with a neighbor inside the same cell.
    Swapped,
    /// Relocated to an adjacent output's cell; the script must resync topology.
    CrossedOutput,
}

/// Per-cell layout state: the ordered window list and the active layout.
#[derive(Debug, Clone, PartialEq, Eq)]
pub struct Cell {
    /// Windows in this cell, in the stable order layouts use.
    pub windows: Vec<WindowId>,
    /// Layout assigned to this cell.
    pub layout: LayoutKind,
}

/// The value of a cell: its windows' id characters, in order, and its layout.
#[verifier::ext_equal]
pub struct CellView {
    pub windows: Seq<Seq<char>>,
    pub layout: LayoutKind,
}

/// The id characters of a list of windows.
pub open spec fn ids_view(ws: Seq<WindowId>) -> Seq<Seq<char>> {
    Seq::new(ws.len(), |i: int| ws[i]@)
}

impl View for Cell {
    type V = CellView;

    open spec fn view(&self) -> CellView {
        CellView { windows: ids_view(self.windows@), layout: self.layout }
    }
}

/// The value of a cell list.
pub open spec fn cells_view(v: Seq<(CellKey, Cell)>) -> Seq<(KeyView, CellView)> {
    Seq::new(v.len(), |i: int| (v[i].0@, v[i].1@))
}

/// No two cells share a key.
pub open spec fn keys_distinct(cells: Seq<(KeyView, CellView)>) -> bool {
    forall|i: int, j: int|
        0 <= i < cells.len() && 0 <= j < cells.len() && i != j ==> #[trigger] cells[i].0
            != #[trigger] cells[j].0
}

/// Some cell has key `k`.
pub open spec fn has_key(cells: Seq<(KeyView, CellView)>, k: KeyView) -> bool {
    exists|i: int| 0 <= i < cells.len() && #[trigger] cells[i].0 == k
}

/// The cell with key `k`, if any.
pub open spec fn lookup(cells: Seq<(KeyView, CellView)>, k: KeyView) -> Option<CellView> {
    if has_key(cells, k) {
        Some(cells[choose|i: int| 0 <= i < cells.len() && #[trigger] cells[i].0 == k].1)
    } else {
        None
    }
}

/// Total number of window entries over all cells.
pub open spec fn total_windows(cells: Seq<(KeyView, CellView)>) -> nat
    decreases cells.len(),
{
    if cells.len() == 0 {
        0
    } else {
        total_windows(cells.drop_last()) + cells.last().1.windows.len()
    }
}

/// The value of a key-override list.
pub open spec fn overrides_view(v: Seq<(String, String)>) -> Seq<(Seq<char>, Seq<char>)> {
    Seq::new(v.len(), |i: int| (v[i].0@, v[i].1@))
}

/// No binding id is overridden twice.
pub open spec fn override_ids_distinct(ov: Seq<(Seq<char>, Seq<char>)>) -> bool {
    forall|i: int, j: int|
        0 <= i < ov.len() && 0 <= j < ov.len() && i != j ==> #[trigger] ov[i].0 != #[trigger] ov[j].0
}

/// The value of the daemon state.
#[verifier::ext_equal]
pub struct StateView {
    pub cells: Seq<(KeyView, CellView)>,
    pub default_layout: LayoutKind,
    pub params: LayoutParams,
    pub focused: Option<Seq<char>>,
    pub behavior: BehaviorConfig,
    pub tiling_enabled: bool,
    pub floating: Seq<Seq<char>>,
    pub rules: Seq<WindowRule>,
    pub ruled_float: Seq<Seq<char>>,
    pub key_overrides: Seq<(Seq<char>, Seq<char>)>,
    pub last_topology: TopologyView,
}

/// The daemon's reconciled view of the world.
#[derive(Debug)]
pub struct State {
    cells: Vec<(CellKey, Cell)>,
    default_layout: LayoutKind,
    /// Layout tunables applied to every cell.
    params: LayoutParams,
    /// The active window as last reported, dropped on reconcile once it is
    /// no longer held by any cell.
    focused: Option<WindowId>,
    /// Session flags; `per_desktop`/`per_activity` gate how cells are keyed.
    behavior: BehaviorConfig,
    /// Whether global auto-tiling is on; off, geometry is empty.
    tiling_enabled: bool,
    /// Windows the user floated; pruned to the live topology on reconcile.
    floating_windows: Vec<WindowId>,
    /// Window rules from config, matched on class/title each reconcile.
    rules: Vec<WindowRule>,
    /// Windows a `float` rule matched at the last reconcile.
    ruled_float: Vec<WindowId>,
    /// `[keys]` overrides: (binding id, key sequence).
    key_overrides: Vec<(String, String)>,
    /// The most recent topology, retained so `reset` can rebuild.
    last_topology: Topology,
}

/// `x` occurs in `v`.
pub open spec fn holds(v: Seq<Seq<char>>, x: Seq<char>) -> bool {
    exists|i: int| 0 <= i < v.len() && v[i] == x
}

impl State {
    /// The value of this state.
    pub closed spec fn view(&self) -> StateView {
        StateView {
            cells: cells_view(self.cells@),
            default_layout: self.default_layout,
            params: self.params,
            focused: match self.focused {
                Some(w) => Some(w@),
                None => None,
            },
            behavior: self.behavior,
            tiling_enabled: self.tiling_enabled,
            floating: ids_view(self.floating_windows@),
            rules: self.rules@,
            ruled_float: ids_view(self.ruled_float@),
            key_overrides: overrides_view(self.key_overrides@),
            last_topology: self.last_topology@,
        }
    }

    /// Well-formed: no two cells share a key, no window is floated twice,
    /// and no binding is overridden twice.
    pub open spec fn wf(&self) -> bool {
        &&& keys_distinct(self.view().cells)
        &&& self.view().floating.no_duplicates()
        &&& override_ids_distinct(self.view().key_overrides)
    }
}

// ---------------------------------------------------------------------------
// Reconcile specification
// ---------------------------------------------------------------------------

/// The topology lists an output with id `id`.
pub open spec fn has_output(t: TopologyView, id: Seq<char>) -> bool {
    exists|i: int| 0 <= i < t.outputs.len() && #[trigger] t.outputs[i].id@ == id
}

/// The topology lists a desktop with id `id`.
pub open spec fn has_desktop(t: TopologyView, id: Seq<char>) -> bool {
    exists|i: int| 0 <= i < t.desktops.len() && #[trigger] t.desktops[i].id@ == id
}

/// The topology lists an activity with id `id`.
pub open spec fn has_activity(t: TopologyView, id: Seq<char>) -> bool {
    exists|i: int| 0 <= i < t.activities.len() && #[trigger] t.activities[i].id@ == id
}

/// The window's output, desktop and activity all exist in the topology.
pub open spec fn window_live(t: TopologyView, w: Window) -> bool {
    has_output(t, w.output@) && has_desktop(t, w.desktop@) && has_activity(t, w.activity@)
}

/// The cell key a window belongs to, collapsing the dimensions whose
/// `per_*` flag is off.
pub open spec fn key_for(b: BehaviorConfig, w: Window) -> KeyView {
    (
        w.output@,
        if b.per_desktop {
            w.desktop@
        } else {
            COLLAPSED@
        },
        if b.per_activity {
            w.activity@
        } else {
            COLLAPSED@
        },
    )
}

/// The window is live and belongs to cell `k`.
pub open spec fn lands_in(t: TopologyView, b: BehaviorConfig, w: Window, k: KeyView) -> bool {
    window_live(t, w) && key_for(b, w) == k
}

/// The ids of the windows of `ws` that land in cell `k`, in order.
pub open spec fn present_in(t: TopologyView, b: BehaviorConfig, ws: Seq<Window>, k: KeyView) -> Seq<
    Seq<char>,
>
    decreases ws.len(),
{
    if ws.len() == 0 {
        Seq::empty()
    } else {
        let p = present_in(t, b, ws.drop_last(), k);
        if lands_in(t, b, ws.last(), k) {
            p.push(ws.last().id@)
        } else {
            p
        }
    }
}

/// Some window of the topology lands in cell `k`.
pub open spec fn key_present(t: TopologyView, b: BehaviorConfig, k: KeyView) -> bool {
    exists|i: int| 0 <= i < t.windows.len() && lands_in(t, b, #[trigger] t.windows[i], k)
}

/// The entries of `xs` that occur in `live`, in order.
pub open spec fn keep_in(xs: Seq<Seq<char>>, live: Seq<Seq<char>>) -> Seq<Seq<char>>
    decreases xs.len(),
{
    if xs.len() == 0 {
        Seq::empty()
    } else {
        let p = keep_in(xs.drop_last(), live);
        if holds(live, xs.last()) {
            p.push(xs.last())
        } else {
            p
        }
    }
}

/// `kept` followed by the entries of `present` that `kept` lacks, in order.
pub open spec fn append_new(kept: Seq<Seq<char>>, present: Seq<Seq<char>>) -> Seq<Seq<char>>
    decreases present.len(),
{
    if present.len() == 0 {
        kept
    } else {
        let p = append_new(kept, present.drop_last());
        if holds(kept, present.last()) {
            p
        } else {
            p.push(present.last())
        }
    }
}

/// A cell's windows after reconcile: its windows still present, in their old
/// order, then the newly present ones in topology order.
pub open spec fn merged(old: Seq<Seq<char>>, present: Seq<Seq<char>>) -> Seq<Seq<char>> {
    append_new(keep_in(old, present), present)
}

/// What reconcile makes of cell `k`: the old cell's windows merged with the
/// present ones and its layout kept, or the present windows under the
/// default layout for a new cell.
pub open spec fn reconciled_cell(s: StateView, t: TopologyView, k: KeyView) -> CellView {
    let present = present_in(t, s.behavior, t.windows, k);
    match lookup(s.cells, k) {
        Some(c) => CellView { windows: merged(c.windows, present), layout: c.layout },
        None => CellView { windows: merged(Seq::empty(), present), layout: s.default_layout },
    }
}

/// The ids of the topology's windows.
pub open spec fn topology_ids(t: TopologyView) -> Seq<Seq<char>> {
    Seq::new(t.windows.len(), |i: int| t.windows[i].id@)
}

/// Some float rule matches the window's class and title.
pub open spec fn float_ruled(rules: Seq<WindowRule>, w: Window) -> bool {
    exists|j: int|
        0 <= j < rules.len() && #[trigger] rules[j].float && rule_matches(
            rules[j],
            opt_string_chars(w.class),
            opt_string_chars(w.title),
        )
}

/// The characters of an optional owned string.
pub open spec fn opt_string_chars(s: Option<String>) -> Option<Seq<char>> {
    match s {
        Some(t) => Some(t@),
        None => None,
    }
}

/// The ids of the windows of `ws` some float rule matches, in order.
pub open spec fn ruled_in(rules: Seq<WindowRule>, ws: Seq<Window>) -> Seq<Seq<char>>
    decreases ws.len(),
{
    if ws.len() == 0 {
        Seq::empty()
    } else {
        let p = ruled_in(rules, ws.drop_last());
        if float_ruled(rules, ws.last()) {
            p.push(ws.last().id@)
        } else {
            p
        }
    }
}

/// The empty-topology guard: outputs vanished all at once while some were
/// live before, as happens for a moment on resume or hotplug.
pub open spec fn is_blip(s: StateView, t: TopologyView) -> bool {
    t.outputs.len() == 0 && s.last_topology.outputs.len() > 0
}

/// The report of a state: its cell count and (saturating) window count.
pub open spec fn report_of(cells: Seq<(KeyView, CellView)>) -> ReconcileReport {
    ReconcileReport {
        cells: cells.len() as usize,
        windows: if total_windows(cells) > usize::MAX {
            usize::MAX
        } else {
            total_windows(cells) as usize
        },
    }
}

/// Some cell holds window `w`.
pub open spec fn held(cells: Seq<(KeyView, CellView)>, w: Seq<char>) -> bool {
    exists|i: int| 0 <= i < cells.len() && holds(#[trigger] cells[i].1.windows, w)
}

/// `post` is what reconciling `pre` against `t` yields (outside a blip):
/// exactly the present cells, each merged; focus kept only while held;
/// floating marks pruned to live windows; rule floats recomputed; the
/// topology retained; everything else unchanged.
pub open spec fn reconciled(pre: StateView, t: TopologyView, post: StateView) -> bool {
    &&& forall|k: KeyView| has_key(post.cells, k) <==> key_present(t, pre.behavior, k)
    &&& forall|i: int|
        0 <= i < post.cells.len() ==> #[trigger] post.cells[i].1 == reconciled_cell(
            pre,
            t,
            post.cells[i].0,
        )
    &&& post.focused == (match pre.focused {
        Some(f) => if held(post.cells, f) {
            Some(f)
        } else {
            None
        },
        None => None,
    })
    &&& post.floating == keep_in(pre.floating, topology_ids(t))
    &&& post.ruled_float == ruled_in(pre.rules, t.windows)
    &&& post.last_topology == t
    &&& post.default_layout == pre.default_layout
    &&& post.params == pre.params
    &&& post.behavior == pre.behavior
    &&& post.tiling_enabled == pre.tiling_enabled
    &&& post.rules == pre.rules
    &&& post.key_overrides == pre.key_overrides
}


// ---------------------------------------------------------------------------
// Reconcile lemmas
// ---------------------------------------------------------------------------

proof fn lemma_present_step(t: TopologyView, b: BehaviorConfig, ws: Seq<Window>, i: int, k: KeyView)
    requires
        0 <= i < ws.len(),
    ensures
        present_in(t, b, ws.take(i + 1), k) == (if lands_in(t, b, ws[i], k) {
            present_in(t, b, ws.take(i), k).push(ws[i].id@)
        } else {
            present_in(t, b, ws.take(i), k)
        }),
{
    assert(ws.take(i + 1).drop_last() =~= ws.take(i));
}

proof fn lemma_present_none(t: TopologyView, b: BehaviorConfig, ws: Seq<Window>, k: KeyView)
    requires
        forall|j: int| 0 <= j < ws.len() ==> !lands_in(t, b, #[trigger] ws[j], k),
    ensures
        present_in(t, b, ws, k) == Seq::<Seq<char>>::empty(),
    decreases ws.len(),
{
    if ws.len() > 0 {
        let d = ws.drop_last();
        assert forall|j: int| 0 <= j < d.len() implies !lands_in(t, b, #[trigger] d[j], k) by {
            assert(d[j] == ws[j]);
        }
        lemma_present_none(t, b, d, k);
        assert(!lands_in(t, b, ws[ws.len() - 1], k));
    }
}

proof fn lemma_keep_step(xs: Seq<Seq<char>>, live: Seq<Seq<char>>, i: int)
    requires
        0 <= i < xs.len(),
    ensures
        keep_in(xs.take(i + 1), live) == (if holds(live, xs[i]) {
            keep_in(xs.take(i), live).push(xs[i])
        } else {
            keep_in(xs.take(i), live)
        }),
{
    assert(xs.take(i + 1).drop_last() =~= xs.take(i));
}

proof fn lemma_append_step(kept: Seq<Seq<char>>, present: Seq<Seq<char>>, i: int)
    requires
        0 <= i < present.len(),
    ensures
        append_new(kept, present.take(i + 1)) == (if holds(kept, present[i]) {
            append_new(kept, present.take(i))
        } else {
            append_new(kept, present.take(i)).push(present[i])
        }),
{
    assert(present.take(i + 1).drop_last() =~= present.take(i));
}

proof fn lemma_ruled_step(rules: Seq<WindowRule>, ws: Seq<Window>, i: int)
    requires
        0 <= i < ws.len(),
    ensures
        ruled_in(rules, ws.take(i + 1)) == (if float_ruled(rules, ws[i]) {
            ruled_in(rules, ws.take(i)).push(ws[i].id@)
        } else {
            ruled_in(rules, ws.take(i))
        }),
{
    assert(ws.take(i + 1).drop_last() =~= ws.take(i));
}

proof fn lemma_total_step(cells: Seq<(KeyView, CellView)>, i: int)
    requires
        0 <= i < cells.len(),
    ensures
        total_windows(cells.take(i + 1)) == total_windows(cells.take(i)) + cells[i].1.windows.len(),
{
    assert(cells.take(i + 1).drop_last() =~= cells.take(i));
}

/// Everything `keep_in` keeps comes from `xs`.
proof fn lemma_keep_subset(xs: Seq<Seq<char>>, live: Seq<Seq<char>>, x: Seq<char>)
    requires
        holds(keep_in(xs, live), x),
    ensures
        holds(xs, x),
        holds(live, x),
    decreases xs.len(),
{
    if xs.len() > 0 {
        let d = xs.drop_last();
        let p = keep_in(d, live);
        if holds(live, xs.last()) && x == xs.last() {
            assert(xs[xs.len() - 1] == x);
        } else {
            if holds(live, xs.last()) {
                let k = choose|k: int| 0 <= k < p.push(xs.last()).len() && p.push(xs.last())[k] == x;
                assert(p[k] == x);
            }
            lemma_keep_subset(d, live, x);
            let k = choose|k: int| 0 <= k < d.len() && d[k] == x;
            assert(xs[k] == x);
        }
    }
}

/// `keep_in` of a list without repeats has no repeats.
proof fn lemma_keep_no_dup(xs: Seq<Seq<char>>, live: Seq<Seq<char>>)
    requires
        xs.no_duplicates(),
    ensures
        keep_in(xs, live).no_duplicates(),
    decreases xs.len(),
{
    if xs.len() > 0 {
        let d = xs.drop_last();
        assert(d.no_duplicates());
        lemma_keep_no_dup(d, live);
        let p = keep_in(d, live);
        if holds(live, xs.last()) {
            if holds(p, xs.last()) {
                lemma_keep_subset(d, live, xs.last());
                let k = choose|k: int| 0 <= k < d.len() && d[k] == xs.last();
                assert(xs[k] == xs[xs.len() - 1]);
            }
            assert forall|a: int, c: int|
                0 <= a < p.push(xs.last()).len() && 0 <= c < p.push(xs.last()).len() && a != c
                    implies p.push(xs.last())[a] != p.push(xs.last())[c] by {
                if a == p.len() {
                    assert(p[c] != xs.last());
                } else if c == p.len() {
                    assert(p[a] != xs.last());
                }
            }
        }
    }
}

/// With distinct keys, the cell found at index `e` is the one `lookup` gives.
proof fn lemma_lookup_at(cells: Seq<(KeyView, CellView)>, e: int)
    requires
        keys_distinct(cells),
        0 <= e < cells.len(),
    ensures
        lookup(cells, cells[e].0) == Some(cells[e].1),
{
    let k = cells[e].0;
    assert(has_key(cells, k));
    let i = choose|i: int| 0 <= i < cells.len() && #[trigger] cells[i].0 == k;
    if i != e {
        assert(cells[i].0 != cells[e].0);
    }
}

// ---------------------------------------------------------------------------
// Reconcile helpers
// ---------------------------------------------------------------------------

/// Whether the topology lists an output with this id.
fn output_listed(t: &Topology, id: &OutputId) -> (r: bool)
    ensures
        r == has_output(t@, id@),
{
    let mut i: usize = 0;
    while i < t.outputs.len()
        invariant
            i <= t.outputs@.len(),
            forall|j: int| 0 <= j < i ==> t.outputs@[j].id@ != id@,
        decreases t.outputs@.len() - i,
    {
        if t.outputs[i].id.same(id) {
            assert(t@.outputs[i as int].id@ == id@);
            return true;
        }
        i = i + 1;
    }
    false
}

/// Whether the topology lists a desktop with this id.
fn desktop_listed(t: &Topology, id: &DesktopId) -> (r: bool)
    ensures
        r == has_desktop(t@, id@),
{
    let mut i: usize = 0;
    while i < t.desktops.len()
        invariant
            i <= t.desktops@.len(),
            forall|j: int| 0 <= j < i ==> t.desktops@[j].id@ != id@,
        decreases t.desktops@.len() - i,
    {
        if t.desktops[i].id.same(id) {
            assert(t@.desktops[i as int].id@ == id@);
            return true;
        }
        i = i + 1;
    }
    false
}

/// Whether the topology lists an activity with this id.
fn activity_listed(t: &Topology, id: &ActivityId) -> (r: bool)
    ensures
        r == has_activity(t@, id@),
{
    let mut i: usize = 0;
    while i < t.activities.len()
        invariant
            i <= t.activities@.len(),
            forall|j: int| 0 <= j < i ==> t.activities@[j].id@ != id@,
        decreases t.activities@.len() - i,
    {
        if t.activities[i].id.same(id) {
            assert(t@.activities[i as int].id@ == id@);
            return true;
        }
        i = i + 1;
    }
    false
}

/// Whether the window's output, desktop and activity all exist.
fn is_live(t: &Topology, w: &Window) -> (r: bool)
    ensures
        r == window_live(t@, *w),
{
    output_listed(t, &w.output) && desktop_listed(t, &w.desktop) && activity_listed(
        t,
        &w.activity,
    )
}

/// The cell key of a window under the behavior flags.
fn window_key(b: &BehaviorConfig, w: &Window) -> (k: CellKey)
    ensures
        k@ == key_for(*b, *w),
{
    CellKey {
        output: w.output.clone(),
        desktop: if b.per_desktop {
            w.desktop.clone()
        } else {
            DesktopId::new(COLLAPSED)
        },
        activity: if b.per_activity {
            w.activity.clone()
        } else {
            ActivityId::new(COLLAPSED)
        },
    }
}

/// Whether `v` holds window `w`.
fn contains_id(v: &Vec<WindowId>, w: &WindowId) -> (r: bool)
    ensures
        r == holds(ids_view(v@), w@),
{
    let mut i: usize = 0;
    while i < v.len()
        invariant
            i <= v@.len(),
            forall|j: int| 0 <= j < i ==> v@[j]@ != w@,
        decreases v@.len() - i,
    {
        if v[i].same(w) {
            assert(ids_view(v@)[i as int] == w@);
            return true;
        }
        i = i + 1;
    }
    false
}

/// The index of the cell with key `k`, if any.
fn find_cell(cells: &Vec<(CellKey, Cell)>, k: &CellKey) -> (r: Option<usize>)
    ensures
        r matches Some(e) ==> e < cells@.len() && cells_view(cells@)[e as int].0 == k@,
        r is None ==> !has_key(cells_view(cells@), k@),
{
    let mut i: usize = 0;
    while i < cells.len()
        invariant
            i <= cells@.len(),
            forall|j: int| 0 <= j < i ==> cells@[j].0@ != k@,
        decreases cells@.len() - i,
    {
        if cells[i].0.same(k) {
            return Some(i);
        }
        i = i + 1;
    }
    assert forall|j: int| 0 <= j < cells@.len() implies #[trigger] cells_view(cells@)[j].0 != k@ by {}
    None
}

/// A copy of a window list.
fn copy_ids(v: &Vec<WindowId>) -> (r: Vec<WindowId>)
    ensures
        r@ == v@,
{
    let r = v.clone();
    assert(r@ =~= v@);
    r
}

/// The entries of `old` that `present` holds, in order.
fn keep_present(old: &Vec<WindowId>, present: &Vec<WindowId>) -> (r: Vec<WindowId>)
    ensures
        ids_view(r@) == keep_in(ids_view(old@), ids_view(present@)),
{
    let ghost ov = ids_view(old@);
    let ghost pv = ids_view(present@);
    let mut out: Vec<WindowId> = Vec::new();
    let mut i: usize = 0;
    assert(ov.take(0) =~= Seq::<Seq<char>>::empty());
    while i < old.len()
        invariant
            ov == ids_view(old@),
            pv == ids_view(present@),
            i <= old@.len(),
            ids_view(out@) == keep_in(ov.take(i as int), pv),
        decreases old@.len() - i,
    {
        proof {
            lemma_keep_step(ov, pv, i as int);
        }
        if contains_id(present, &old[i]) {
            out.push(old[i].clone());
            assert(ids_view(out@) =~= keep_in(ov.take(i as int), pv).push(ov[i as int]));
        }
        i = i + 1;
    }
    assert(ov.take(old@.len() as int) =~= ov);
    out
}

/// `kept` followed by the entries of `present` that `kept` lacks.
fn append_present(kept: &Vec<WindowId>, present: &Vec<WindowId>) -> (r: Vec<WindowId>)
    ensures
        ids_view(r@) == append_new(ids_view(kept@), ids_view(present@)),
{
    let ghost kv = ids_view(kept@);
    let ghost pv = ids_view(present@);
    let mut out = copy_ids(kept);
    let mut i: usize = 0;
    assert(pv.take(0) =~= Seq::<Seq<char>>::empty());
    while i < present.len()
        invariant
            kv == ids_view(kept@),
            pv == ids_view(present@),
            i <= present@.len(),
            ids_view(out@) == append_new(kv, pv.take(i as int)),
        decreases present@.len() - i,
    {
        proof {
            lemma_append_step(kv, pv, i as int);
        }
        if !contains_id(kept, &present[i]) {
            out.push(present[i].clone());
            assert(ids_view(out@) =~= append_new(kv, pv.take(i as int)).push(pv[i as int]));
        }
        i = i + 1;
    }
    assert(pv.take(present@.len() as int) =~= pv);
    out
}

/// Some key of `keys` names the tuple `k`.
pub open spec fn key_listed(keys: Seq<CellKey>, k: KeyView) -> bool {
    exists|e: int| 0 <= e < keys.len() && #[trigger] keys[e]@ == k
}

/// Some of the first `i` windows of `t` lands in cell `k`.
pub open spec fn lands_before(t: TopologyView, b: BehaviorConfig, i: int, k: KeyView) -> bool {
    exists|j: int| 0 <= j < i && lands_in(t, b, #[trigger] t.windows[j], k)
}

/// The distinct cell keys the live windows of `t` land in, in order of first
/// appearance.
fn present_keys(b: &BehaviorConfig, t: &Topology) -> (r: Vec<CellKey>)
    ensures
        forall|i: int, j: int|
            0 <= i < r@.len() && 0 <= j < r@.len() && i != j ==> #[trigger] r@[i]@
                != #[trigger] r@[j]@,
        forall|k: KeyView| #[trigger] key_listed(r@, k) <==> key_present(t@, *b, k),
{
    let mut keys: Vec<CellKey> = Vec::new();
    let mut i: usize = 0;
    while i < t.windows.len()
        invariant
            i <= t.windows@.len(),
            forall|a: int, c: int|
                0 <= a < keys@.len() && 0 <= c < keys@.len() && a != c ==> #[trigger] keys@[a]@
                    != #[trigger] keys@[c]@,
            forall|k: KeyView| #[trigger] key_listed(keys@, k) <==> lands_before(t@, *b, i as int, k),
        decreases t.windows@.len() - i,
    {
        let w = &t.windows[i];
        let ghost before = keys@;
        if is_live(t, w) {
            let k = window_key(b, w);
            let mut found = false;
            let mut e: usize = 0;
            while e < keys.len()
                invariant
                    e <= keys@.len(),
                    found ==> key_listed(keys@, k@),
                    !found ==> forall|m: int| 0 <= m < e ==> #[trigger] keys@[m]@ != k@,
                decreases keys@.len() - e,
            {
                if keys[e].same(&k) {
                    found = true;
                    assert(keys@[e as int]@ == k@);
                }
                e = e + 1;
            }
            if !found {
                keys.push(k);
            }
        }
        assert forall|kk: KeyView| #[trigger] key_listed(keys@, kk) <==> lands_before(
            t@,
            *b,
            i + 1,
            kk,
        ) by {
            if key_listed(keys@, kk) {
                let m = choose|m: int| 0 <= m < keys@.len() && #[trigger] keys@[m]@ == kk;
                if m < before.len() {
                    assert(before[m]@ == kk);
                    assert(key_listed(before, kk));
                    let j = choose|j: int| 0 <= j < i && lands_in(t@, *b, #[trigger] t@.windows[j], kk);
                    assert(0 <= j < i + 1 && lands_in(t@, *b, t@.windows[j], kk));
                } else {
                    assert(lands_in(t@, *b, t@.windows[i as int], kk));
                }
            }
            if lands_before(t@, *b, i + 1, kk) {
                let j = choose|j: int| 0 <= j < i + 1 && lands_in(t@, *b, #[trigger] t@.windows[j], kk);
                if j < i {
                    assert(lands_before(t@, *b, i as int, kk));
                    assert(key_listed(before, kk));
                    let m = choose|m: int| 0 <= m < before.len() && #[trigger] before[m]@ == kk;
                    assert(keys@[m]@ == kk);
                } else {
                    assert(kk == key_for(*b, t@.windows[i as int]));
                    if !key_listed(before, kk) {
                        assert(keys@[before.len() as int]@ == kk);
                    } else {
                        let m = choose|m: int| 0 <= m < before.len() && #[trigger] before[m]@ == kk;
                        assert(keys@[m]@ == kk);
                    }
                }
            }
        }
        i = i + 1;
    }
    assert forall|k: KeyView| #[trigger] key_listed(keys@, k) <==> key_present(t@, *b, k) by {
        assert(lands_before(t@, *b, t@.windows.len() as int, k) == key_present(t@, *b, k));
    }
    keys
}

/// The windows of `t` that land in cell `k`, in topology order.
fn present_windows(b: &BehaviorConfig, t: &Topology, k: &CellKey) -> (r: Vec<WindowId>)
    ensures
        ids_view(r@) == present_in(t@, *b, t@.windows, k@),
{
    let ghost ws = t@.windows;
    let mut out: Vec<WindowId> = Vec::new();
    let mut i: usize = 0;
    assert(ws.take(0) =~= Seq::<Window>::empty());
    while i < t.windows.len()
        invariant
            ws == t@.windows,
            i <= ws.len(),
            ids_view(out@) == present_in(t@, *b, ws.take(i as int), k@),
        decreases ws.len() - i,
    {
        proof {
            lemma_present_step(t@, *b, ws, i as int, k@);
        }
        let w = &t.windows[i];
        if is_live(t, w) {
            let wk = window_key(b, w);
            if wk.same(k) {
                out.push(w.id.clone());
                assert(ids_view(out@) =~= present_in(t@, *b, ws.take(i as int), k@).push(
                    ws[i as int].id@,
                ));
            }
        }
        i = i + 1;
    }
    assert(ws.take(ws.len() as int) =~= ws);
    out
}

/// Whether some float rule matches the window.
fn float_rule_hits(rules: &Vec<WindowRule>, w: &Window) -> (r: bool)
    ensures
        r == float_ruled(rules@, *w),
{
    let class: Option<&str> = match &w.class {
        Some(c) => Some(c.as_str()),
        None => None,
    };
    let title: Option<&str> = match &w.title {
        Some(c) => Some(c.as_str()),
        None => None,
    };
    assert(opt_chars(class) == opt_string_chars(w.class));
    assert(opt_chars(title) == opt_string_chars(w.title));
    let mut j: usize = 0;
    while j < rules.len()
        invariant
            j <= rules@.len(),
            opt_chars(class) == opt_string_chars(w.class),
            opt_chars(title) == opt_string_chars(w.title),
            forall|m: int|
                0 <= m < j ==> !(#[trigger] rules@[m].float && rule_matches(
                    rules@[m],
                    opt_string_chars(w.class),
                    opt_string_chars(w.title),
                )),
        decreases rules@.len() - j,
    {
        if rules[j].float && rules[j].matches(class, title) {
            return true;
        }
        j = j + 1;
    }
    false
}

/// Whether the topology lists a window with this id.
fn topology_has_window(t: &Topology, w: &WindowId) -> (r: bool)
    ensures
        r == holds(topology_ids(t@), w@),
{
    let mut i: usize = 0;
    while i < t.windows.len()
        invariant
            i <= t.windows@.len(),
            forall|j: int| 0 <= j < i ==> t.windows@[j].id@ != w@,
        decreases t.windows@.len() - i,
    {
        if t.windows[i].id.same(w) {
            assert(topology_ids(t@)[i as int] == w@);
            return true;
        }
        i = i + 1;
    }
    false
}

/// Whether some cell holds window `w`.
fn held_by_cells(cells: &Vec<(CellKey, Cell)>, w: &WindowId) -> (r: bool)
    ensures
        r == held(cells_view(cells@), w@),
{
    let mut i: usize = 0;
    while i < cells.len()
        invariant
            i <= cells@.len(),
            forall|j: int| 0 <= j < i ==> !holds(#[trigger] cells_view(cells@)[j].1.windows, w@),
        decreases cells@.len() - i,
    {
        if contains_id(&cells[i].1.windows, w) {
            assert(holds(cells_view(cells@)[i as int].1.windows, w@));
            return true;
        }
        i = i + 1;
    }
    false
}

/// The state a daemon starts from: no cells, the built-in defaults, tiling
/// on, no floats, rules or overrides, and no topology seen yet.
pub open spec fn fresh_state() -> StateView {
    StateView {
        cells: Seq::empty(),
        default_layout: LayoutKind::Tile,
        params: LayoutParams {
            master_ratio: 600000,
            master_count: 1,
            gaps_inner: 8,
            gaps_outer: 12,
        },
        focused: None,
        behavior: BehaviorConfig { per_desktop: true, per_activity: true, focus_follows_mouse: false },
        tiling_enabled: true,
        floating: Seq::empty(),
        rules: Seq::empty(),
        ruled_float: Seq::empty(),
        key_overrides: Seq::empty(),
        last_topology: TopologyView {
            outputs: Seq::empty(),
            desktops: Seq::empty(),
            activities: Seq::empty(),
            windows: Seq::empty(),
        },
    }
}

impl Default for State {
    /// The same fresh state as [`State::new`].
    fn default() -> (r: Self)
        ensures
            r.wf(),
            r@ == fresh_state(),
    {
        State::new()
    }
}

impl State {
    /// A fresh state: no cells, built-in defaults, tiling on, nothing seen.
    pub fn new() -> (r: Self)
        ensures
            r.wf(),
            r@ == fresh_state(),
    {
        let r = State {
            cells: Vec::new(),
            default_layout: LayoutKind::Tile,
            params: LayoutParams::default(),
            focused: None,
            behavior: BehaviorConfig::default(),
            tiling_enabled: true,
            floating_windows: Vec::new(),
            rules: Vec::new(),
            ruled_float: Vec::new(),
            key_overrides: Vec::new(),
            last_topology: Topology::empty(),
        };
        assert(r@.floating =~= Seq::<Seq<char>>::empty());
        assert(r@.cells =~= Seq::<(KeyView, CellView)>::empty());
        assert(r@.rules =~= Seq::<WindowRule>::empty());
        assert(r@.ruled_float =~= Seq::<Seq<char>>::empty());
        assert(r@.key_overrides =~= Seq::<(Seq<char>, Seq<char>)>::empty());
        assert(r@.last_topology =~= fresh_state().last_topology);
        r
    }

    /// Number of live cells.
    pub fn cell_count(&self) -> (r: usize)
        ensures
            r == self@.cells.len(),
    {
        self.cells.len()
    }

    /// Total managed windows across all cells (saturating at `usize::MAX`).
    pub fn window_count(&self) -> (r: usize)
        ensures
            r == report_of(self@.cells).windows,
    {
        let ghost cv = self@.cells;
        let mut acc: usize = 0;
        let mut i: usize = 0;
        assert(cv.take(0) =~= Seq::<(KeyView, CellView)>::empty());
        while i < self.cells.len()
            invariant
                cv == cells_view(self.cells@),
                i <= cv.len(),
                acc == (if total_windows(cv.take(i as int)) > usize::MAX {
                    usize::MAX as nat
                } else {
                    total_windows(cv.take(i as int))
                }),
            decreases cv.len() - i,
        {
            proof {
                lemma_total_step(cv, i as int);
            }
            let n = self.cells[i].1.windows.len();
            acc = acc.saturating_add(n);
            i = i + 1;
        }
        assert(cv.take(cv.len() as int) =~= cv);
        acc
    }

    /// The cell/window counts of this state.
    pub fn report(&self) -> (r: ReconcileReport)
        ensures
            r == report_of(self@.cells),
    {
        ReconcileReport { cells: self.cell_count(), windows: self.window_count() }
    }

    /// Read-only access to the cells, in the order they were materialized.
    pub fn cells(&self) -> (r: &Vec<(CellKey, Cell)>)
        ensures
            cells_view(r@) == self@.cells,
    {
        &self.cells
    }

    /// The cell with key `key`, if live.
    pub fn cell(&self, key: &CellKey) -> (r: Option<&Cell>)
        requires
            self.wf(),
        ensures
            r matches Some(c) ==> lookup(self@.cells, key@) == Some(c@),
            r is None ==> lookup(self@.cells, key@) is None,
    {
        match find_cell(&self.cells, key) {
            Some(e) => {
                proof {
                    lemma_lookup_at(self@.cells, e as int);
                }
                Some(&self.cells[e].1)
            },
            None => None,
        }
    }

    /// Rebuild the cells from a fresh topology snapshot.
    ///
    /// Windows on a vanished output, desktop or activity are dropped; cells
    /// whose tuple is gone are dropped; departed windows leave their cells;
    /// new tuples get a cell with the default layout; new windows are appended
    /// in topology order. A snapshot with no outputs, arriving while outputs
    /// were live, is a transient blip and is ignored.
    pub fn reconcile(&mut self, topology: &Topology) -> (r: ReconcileReport)
        requires
            old(self).wf(),
        ensures
            final(self).wf(),
            is_blip(old(self)@, topology@) ==> final(self)@ == old(self)@,
            !is_blip(old(self)@, topology@) ==> reconciled(old(self)@, topology@, final(self)@),
            r == report_of(final(self)@.cells),
            forall|i: int, j: int|
                0 <= i < final(self)@.cells.len() && 0 <= j < old(self)@.cells.len()
                    && #[trigger] final(self)@.cells[i].0 == #[trigger] old(self)@.cells[j].0
                    ==> final(self)@.cells[i].1.layout == old(self)@.cells[j].1.layout,
            forall|i: int|
                0 <= i < final(self)@.cells.len() && !has_key(
                    old(self)@.cells,
                    #[trigger] final(self)@.cells[i].0,
                ) ==> final(self)@.cells[i].1.layout == old(self)@.default_layout,
    {
        if topology.outputs.len() == 0 && self.last_topology.outputs.len() > 0 {
            return self.report();
        }
        let ghost pre = self@;
        let keys = present_keys(&self.behavior, topology);
        let mut new_cells: Vec<(CellKey, Cell)> = Vec::new();
        let mut e: usize = 0;
        while e < keys.len()
            invariant
                pre == self@,
                self.wf(),
                forall|i: int, j: int|
                    0 <= i < keys@.len() && 0 <= j < keys@.len() && i != j ==> #[trigger] keys@[i]@
                        != #[trigger] keys@[j]@,
                e <= keys@.len(),
                new_cells@.len() == e,
                forall|m: int| 0 <= m < e ==> #[trigger] cells_view(new_cells@)[m].0 == keys@[m]@,
                forall|m: int|
                    0 <= m < e ==> #[trigger] cells_view(new_cells@)[m].1 == reconciled_cell(
                        pre,
                        topology@,
                        keys@[m]@,
                    ),
            decreases keys@.len() - e,
        {
            let k = &keys[e];
            let present = present_windows(&self.behavior, topology, k);
            let cell = match find_cell(&self.cells, k) {
                Some(idx) => {
                    proof {
                        lemma_lookup_at(pre.cells, idx as int);
                    }
                    let kept = keep_present(&self.cells[idx].1.windows, &present);
                    Cell {
                        windows: append_present(&kept, &present),
                        layout: self.cells[idx].1.layout,
                    }
                },
                None => {
                    let empty: Vec<WindowId> = Vec::new();
                    let kept = keep_present(&empty, &present);
                    assert(ids_view(empty@) =~= Seq::<Seq<char>>::empty());
                    Cell { windows: append_present(&kept, &present), layout: self.default_layout }
                },
            };
            assert(cell@ == reconciled_cell(pre, topology@, k@));
            let ghost before = new_cells@;
            new_cells.push((k.clone(), cell));
            assert forall|m: int| 0 <= m < e + 1 implies #[trigger] cells_view(new_cells@)[m].0
                == keys@[m]@ by {
                if m < e {
                    assert(new_cells@[m] == before[m]);
                    assert(cells_view(before)[m].0 == keys@[m]@);
                }
            }
            assert forall|m: int| 0 <= m < e + 1 implies #[trigger] cells_view(new_cells@)[m].1
                == reconciled_cell(pre, topology@, keys@[m]@) by {
                if m < e {
                    assert(new_cells@[m] == before[m]);
                    assert(cells_view(before)[m].1 == reconciled_cell(pre, topology@, keys@[m]@));
                } else {
                    assert(new_cells@[m].1 == cell);
                }
            }
            e = e + 1;
        }
        let ghost nv = cells_view(new_cells@);
        assert forall|i: int, j: int|
            0 <= i < nv.len() && 0 <= j < nv.len() && i != j implies #[trigger] nv[i].0
            != #[trigger] nv[j].0 by {
            assert(nv[i].0 == keys@[i]@);
            assert(nv[j].0 == keys@[j]@);
        }
        assert forall|k: KeyView| has_key(nv, k) <==> key_present(topology@, pre.behavior, k) by {
            if has_key(nv, k) {
                let i = choose|i: int| 0 <= i < nv.len() && #[trigger] nv[i].0 == k;
                assert(keys@[i]@ == k);
                assert(key_listed(keys@, k));
            }
            if key_present(topology@, pre.behavior, k) {
                assert(key_listed(keys@, k));
                let i = choose|i: int| 0 <= i < keys@.len() && #[trigger] keys@[i]@ == k;
                assert(nv[i].0 == k);
            }
        }
        self.cells = new_cells;
        let drop_focus = match &self.focused {
            Some(f) => !held_by_cells(&self.cells, f),
            None => false,
        };
        if drop_focus {
            self.focused = None;
        }
        let ghost fv = pre.floating;
        let ghost live = topology_ids(topology@);
        let mut floating: Vec<WindowId> = Vec::new();
        let mut i: usize = 0;
        assert(fv.take(0) =~= Seq::<Seq<char>>::empty());
        while i < self.floating_windows.len()
            invariant
                fv == ids_view(self.floating_windows@),
                live == topology_ids(topology@),
                i <= fv.len(),
                ids_view(floating@) == keep_in(fv.take(i as int), live),
            decreases fv.len() - i,
        {
            proof {
                lemma_keep_step(fv, live, i as int);
            }
            if topology_has_window(topology, &self.floating_windows[i]) {
                floating.push(self.floating_windows[i].clone());
                assert(ids_view(floating@) =~= keep_in(fv.take(i as int), live).push(fv[i as int]));
            }
            i = i + 1;
        }
        assert(fv.take(fv.len() as int) =~= fv);
        proof {
            lemma_keep_no_dup(fv, live);
        }
        self.floating_windows = floating;
        let ghost ws = topology@.windows;
        let mut ruled: Vec<WindowId> = Vec::new();
        let mut j: usize = 0;
        assert(ws.take(0) =~= Seq::<Window>::empty());
        while j < topology.windows.len()
            invariant
                ws == topology@.windows,
                j <= ws.len(),
                self.rules@ == pre.rules,
                ids_view(ruled@) == ruled_in(pre.rules, ws.take(j as int)),
            decreases ws.len() - j,
        {
            proof {
                lemma_ruled_step(pre.rules, ws, j as int);
            }
            if float_rule_hits(&self.rules, &topology.windows[j]) {
                ruled.push(topology.windows[j].id.clone());
                assert(ids_view(ruled@) =~= ruled_in(pre.rules, ws.take(j as int)).push(
                    ws[j as int].id@,
                ));
            }
            j = j + 1;
        }
        assert(ws.take(ws.len() as int) =~= ws);
        self.ruled_float = ruled;
        self.last_topology = topology.clone();
        proof {
            crate::guarantees::lemma_reconcile_keeps_layouts(pre, topology@, self@);
        }
        self.report()
    }
}

// ---------------------------------------------------------------------------
// Window counts
// ---------------------------------------------------------------------------

/// Replacing cell `i` changes the total by the difference of window counts.
proof fn lemma_total_update(cells: Seq<(KeyView, CellView)>, i: int, c: (KeyView, CellView))
    requires
        0 <= i < cells.len(),
    ensures
        total_windows(cells.update(i, c)) + cells[i].1.windows.len() == total_windows(cells)
            + c.1.windows.len(),
    decreases cells.len(),
{
    let u = cells.update(i, c);
    if i == cells.len() - 1 {
        assert(u.drop_last() =~= cells.drop_last());
    } else {
        lemma_total_update(cells.drop_last(), i, c);
        assert(u.drop_last() =~= cells.drop_last().update(i, c));
    }
}

/// Appending a cell adds its windows to the total.
proof fn lemma_total_push(cells: Seq<(KeyView, CellView)>, c: (KeyView, CellView))
    ensures
        total_windows(cells.push(c)) == total_windows(cells) + c.1.windows.len(),
{
    assert(cells.push(c).drop_last() =~= cells);
}

/// Taking `x` out of a list that holds it once shortens it by one; out of a
/// list without it, by nothing.
proof fn lemma_without_len(ws: Seq<Seq<char>>, x: Seq<char>)
    ensures
        !holds(ws, x) ==> without(ws, x).len() == ws.len(),
        holds(ws, x) && ws.no_duplicates() ==> without(ws, x).len() + 1 == ws.len(),
    decreases ws.len(),
{
    if ws.len() > 0 {
        let d = ws.drop_last();
        lemma_without_len(d, x);
        if holds(d, x) {
            let i = choose|i: int| 0 <= i < d.len() && d[i] == x;
            assert(ws[i] == x);
        }
        if holds(ws, x) && ws.last() != x {
            let i = choose|i: int| 0 <= i < ws.len() && ws[i] == x;
            assert(d[i] == x);
        }
        if ws.no_duplicates() {
            assert forall|i: int, j: int| 0 <= i < d.len() && 0 <= j < d.len() && i != j implies d[i]
                != d[j] by {
                assert(d[i] == ws[i] && d[j] == ws[j]);
            }
            if ws.last() == x && holds(d, x) {
                let i = choose|i: int| 0 <= i < d.len() && d[i] == x;
                assert(ws[i] == ws[ws.len() - 1]);
            }
        }
    }
}

/// Rewriting one cell's window list with one of the same length keeps the
/// total.
pub(crate) proof fn lemma_swap_count(pre: StateView, ci: int, ws: Seq<Seq<char>>)
    requires
        0 <= ci < pre.cells.len(),
        ws.len() == pre.cells[ci].1.windows.len(),
    ensures
        total_windows(with_cell_windows(pre, ci, ws).cells) == total_windows(pre.cells),
{
    lemma_total_update(
        pre.cells,
        ci,
        (pre.cells[ci].0, CellView { windows: ws, layout: pre.cells[ci].1.layout }),
    );
}

/// Moving a window its cell holds once over to another cell keeps the total.
pub(crate) proof fn lemma_relocate_count(
    cells: Seq<(KeyView, CellView)>,
    ci: int,
    f: Seq<char>,
    dest: KeyView,
    layout: LayoutKind,
)
    requires
        0 <= ci < cells.len(),
        holds(cells[ci].1.windows, f),
        cells[ci].1.windows.no_duplicates(),
    ensures
        total_windows(relocated(cells, ci, f, dest, layout)) == total_windows(cells),
{
    let shrunk = (
        cells[ci].0,
        CellView { windows: without(cells[ci].1.windows, f), layout: cells[ci].1.layout },
    );
    let c = cells.update(ci, shrunk);
    lemma_without_len(cells[ci].1.windows, f);
    lemma_total_update(cells, ci, shrunk);
    if has_key(c, dest) {
        assert forall|d: int| 0 <= d < c.len() && c[d].0 == dest implies #[trigger] total_windows(
            c.update(d, (dest, CellView { windows: c[d].1.windows.push(f), layout: c[d].1.layout })),
        ) == total_windows(c) + 1 by {
            lemma_total_update(
                c,
                d,
                (dest, CellView { windows: c[d].1.windows.push(f), layout: c[d].1.layout }),
            );
        }
    } else {
        let nc = (dest, CellView { windows: seq![f], layout });
        assert(relocated(cells, ci, f, dest, layout) == c.push(nc));
        lemma_total_push(c, nc);
    }
    assert(shrunk.1.windows.len() + 1 == cells[ci].1.windows.len());
}

// ---------------------------------------------------------------------------
// Geometry
// ---------------------------------------------------------------------------

/// The rectangle of output `id`; when the id is listed twice the later wins.
pub open spec fn output_area(outputs: Seq<Output>, id: Seq<char>) -> Option<Rect>
    decreases outputs.len(),
{
    if outputs.len() == 0 {
        None
    } else if outputs.last().id@ == id {
        Some(outputs.last().rect)
    } else {
        output_area(outputs.drop_last(), id)
    }
}

/// The windows of `ws` that are neither floated nor matched by a float rule.
pub open spec fn tiled_of(ws: Seq<Seq<char>>, floating: Seq<Seq<char>>, ruled: Seq<Seq<char>>) -> Seq<
    Seq<char>,
>
    decreases ws.len(),
{
    if ws.len() == 0 {
        Seq::empty()
    } else {
        let p = tiled_of(ws.drop_last(), floating, ruled);
        if !holds(floating, ws.last()) && !holds(ruled, ws.last()) {
            p.push(ws.last())
        } else {
            p
        }
    }
}

/// The placements `arrange` gives windows `ids` in `area`.
pub open spec fn arrange_view(kind: LayoutKind, ids: Seq<Seq<char>>, area: Rect, p: LayoutParams) -> Seq<
    (Seq<char>, Rect),
> {
    let rects = layout::layout_rects(
        kind,
        ids.len(),
        layout::inset_spec(area, p.gaps_outer as int),
        p,
    );
    Seq::new(
        if rects.len() < ids.len() {
            rects.len()
        } else {
            ids.len()
        },
        |i: int| (ids[i], rects[i]),
    )
}

/// The placements of one cell: its tiled windows laid out in its output's
/// rectangle, or none when its output is not listed.
pub open spec fn cell_placements(s: StateView, c: (KeyView, CellView)) -> Seq<(Seq<char>, Rect)> {
    match output_area(s.last_topology.outputs, c.0.0) {
        None => Seq::empty(),
        Some(area) => arrange_view(
            c.1.layout,
            tiled_of(c.1.windows, s.floating, s.ruled_float),
            area,
            s.params,
        ),
    }
}

/// The placements of the first `n` cells, in cell order.
pub open spec fn placements(s: StateView, n: int) -> Seq<(Seq<char>, Rect)>
    decreases n,
{
    if n <= 0 {
        Seq::empty()
    } else {
        placements(s, n - 1) + cell_placements(s, s.cells[n - 1])
    }
}

/// The rectangle placed for window `id`; a later placement wins.
pub open spec fn placed_rect(pl: Seq<(Seq<char>, Rect)>, id: Seq<char>) -> Option<Rect>
    decreases pl.len(),
{
    if pl.len() == 0 {
        None
    } else if pl.last().0 == id {
        Some(pl.last().1)
    } else {
        placed_rect(pl.drop_last(), id)
    }
}

/// The placed windows of `ws`, in order, each with its rectangle.
pub open spec fn geometry_in(pl: Seq<(Seq<char>, Rect)>, ws: Seq<Window>) -> Seq<(Seq<char>, Rect)>
    decreases ws.len(),
{
    if ws.len() == 0 {
        Seq::empty()
    } else {
        let p = geometry_in(pl, ws.drop_last());
        match placed_rect(pl, ws.last().id@) {
            Some(r) => p.push((ws.last().id@, r)),
            None => p,
        }
    }
}

/// The geometry of a state: with tiling on, every topology window some cell
/// lays out, in topology order, with its rectangle; with tiling off, nothing.
pub open spec fn geometry_spec(s: StateView) -> Seq<(Seq<char>, Rect)> {
    if !s.tiling_enabled {
        Seq::empty()
    } else {
        geometry_in(placements(s, s.cells.len() as int), s.last_topology.windows)
    }
}

proof fn lemma_placements_step(s: StateView, i: int)
    requires
        0 <= i,
    ensures
        placements(s, i + 1) == placements(s, i) + cell_placements(s, s.cells[i]),
{
}

proof fn lemma_arrange_view(kind: LayoutKind, ws: Seq<WindowId>, area: Rect, p: LayoutParams)
    ensures
        layout::geoms_view(layout::arrange_spec(kind, ws, area, p)) == arrange_view(
            kind,
            ids_view(ws),
            area,
            p,
        ),
{
    assert(layout::geoms_view(layout::arrange_spec(kind, ws, area, p)) =~= arrange_view(
        kind,
        ids_view(ws),
        area,
        p,
    ));
}

proof fn lemma_tiled_step(ws: Seq<Seq<char>>, fl: Seq<Seq<char>>, ru: Seq<Seq<char>>, i: int)
    requires
        0 <= i < ws.len(),
    ensures
        tiled_of(ws.take(i + 1), fl, ru) == (if !holds(fl, ws[i]) && !holds(ru, ws[i]) {
            tiled_of(ws.take(i), fl, ru).push(ws[i])
        } else {
            tiled_of(ws.take(i), fl, ru)
        }),
{
    assert(ws.take(i + 1).drop_last() =~= ws.take(i));
}

proof fn lemma_geometry_step(pl: Seq<(Seq<char>, Rect)>, ws: Seq<Window>, i: int)
    requires
        0 <= i < ws.len(),
    ensures
        geometry_in(pl, ws.take(i + 1)) == (match placed_rect(pl, ws[i].id@) {
            Some(r) => geometry_in(pl, ws.take(i)).push((ws[i].id@, r)),
            None => geometry_in(pl, ws.take(i)),
        }),
{
    assert(ws.take(i + 1).drop_last() =~= ws.take(i));
}

/// The rectangle of output `id`, searched from the end; with the index it
/// was found at.
fn find_output_area(outputs: &Vec<Output>, id: &OutputId) -> (r: Option<(Rect, usize)>)
    ensures
        r is None ==> output_area(outputs@, id@) is None,
        r matches Some(p) ==> p.1 < outputs@.len() && output_area(outputs@, id@) == Some(p.0)
            && outputs@[p.1 as int].rect == p.0,
{
    let mut i: usize = outputs.len();
    assert(outputs@.take(i as int) =~= outputs@);
    while i > 0
        invariant
            i <= outputs@.len(),
            output_area(outputs@, id@) == output_area(outputs@.take(i as int), id@),
        decreases i,
    {
        assert(outputs@.take(i as int).drop_last() =~= outputs@.take(i - 1));
        if outputs[i - 1].id.same(id) {
            return Some((outputs[i - 1].rect, i - 1));
        }
        i = i - 1;
    }
    None
}

/// The rectangle placed for `id`, searched from the end.
fn find_placed(placed: &Vec<WindowGeometry>, id: &WindowId) -> (r: Option<Rect>)
    ensures
        r == placed_rect(layout::geoms_view(placed@), id@),
{
    let ghost pv = layout::geoms_view(placed@);
    let mut i: usize = placed.len();
    assert(pv.take(i as int) =~= pv);
    while i > 0
        invariant
            pv == layout::geoms_view(placed@),
            i <= placed@.len(),
            placed_rect(pv, id@) == placed_rect(pv.take(i as int), id@),
        decreases i,
    {
        assert(pv.take(i as int).drop_last() =~= pv.take(i - 1));
        if placed[i - 1].id.same(id) {
            return Some(placed[i - 1].rect);
        }
        i = i - 1;
    }
    None
}

impl State {
    /// The windows of `ws` that are neither floated nor rule-floated.
    fn tiled_windows(&self, ws: &Vec<WindowId>) -> (r: Vec<WindowId>)
        ensures
            ids_view(r@) == tiled_of(ids_view(ws@), self@.floating, self@.ruled_float),
            r@.len() <= ws@.len(),
    {
        let ghost wv = ids_view(ws@);
        let mut out: Vec<WindowId> = Vec::new();
        let mut i: usize = 0;
        assert(wv.take(0) =~= Seq::<Seq<char>>::empty());
        while i < ws.len()
            invariant
                wv == ids_view(ws@),
                i <= ws@.len(),
                out@.len() <= i,
                ids_view(out@) == tiled_of(wv.take(i as int), self@.floating, self@.ruled_float),
            decreases ws@.len() - i,
        {
            proof {
                lemma_tiled_step(wv, self@.floating, self@.ruled_float, i as int);
            }
            if !contains_id(&self.floating_windows, &ws[i]) && !contains_id(
                &self.ruled_float,
                &ws[i],
            ) {
                out.push(ws[i].clone());
                assert(ids_view(out@) =~= tiled_of(
                    wv.take(i as int),
                    self@.floating,
                    self@.ruled_float,
                ).push(wv[i as int]));
            }
            i = i + 1;
        }
        assert(wv.take(ws@.len() as int) =~= wv);
        out
    }

    /// Compute the target geometry for every managed window.
    ///
    /// Each cell is laid out within its output's rectangle; the result lists
    /// placed windows in topology order. Floated windows, windows of floating
    /// cells and windows whose output is gone are absent; with tiling off the
    /// result is empty.
    pub fn geometry(&self) -> (r: GeometrySet)
        requires
            self.wf(),
        ensures
            layout::geoms_view(r.windows@) == geometry_spec(self@),
    {
        if !self.tiling_enabled {
            let r = GeometrySet { windows: Vec::new() };
            assert(layout::geoms_view(r.windows@) =~= geometry_spec(self@));
            return r;
        }
        let ghost sv = self@;
        let mut placed: Vec<WindowGeometry> = Vec::new();
        let mut i: usize = 0;
        assert(layout::geoms_view(placed@) =~= placements(sv, 0));
        while i < self.cells.len()
            invariant
                sv == self@,
                i <= self.cells@.len(),
                layout::geoms_view(placed@) == placements(sv, i as int),
            decreases self.cells@.len() - i,
        {
            proof {
                lemma_placements_step(sv, i as int);
            }
            let cell = &self.cells[i].1;
            assert(sv.cells[i as int] == (self.cells@[i as int].0@, cell@));
            match find_output_area(&self.last_topology.outputs, &self.cells[i].0.output) {
                None => {
                    assert(cell_placements(sv, sv.cells[i as int]) =~= Seq::<(Seq<char>, Rect)>::empty());
                    assert(placements(sv, i + 1) =~= placements(sv, i as int));
                },
                Some((area, _)) => {
                    let tiled = self.tiled_windows(&cell.windows);
                    proof {
                        lemma_arrange_view(cell.layout, tiled@, area, self.params);
                    }
                    let mut g = layout::arrange(cell.layout, tiled.as_slice(), area, &self.params);
                    let ghost before = placed@;
                    placed.append(&mut g);
                    assert(layout::geoms_view(placed@) =~= layout::geoms_view(before) + arrange_view(
                        cell.layout,
                        ids_view(tiled@),
                        area,
                        sv.params,
                    ));
                },
            }
            i = i + 1;
        }
        let ghost pl = layout::geoms_view(placed@);
        assert(pl == placements(sv, sv.cells.len() as int));
        let ghost ws = sv.last_topology.windows;
        let mut out: Vec<WindowGeometry> = Vec::new();
        let mut j: usize = 0;
        assert(ws.take(0) =~= Seq::<Window>::empty());
        assert(layout::geoms_view(out@) =~= geometry_in(pl, ws.take(0)));
        while j < self.last_topology.windows.len()
            invariant
                sv == self@,
                ws == sv.last_topology.windows,
                pl == layout::geoms_view(placed@),
                j <= ws.len(),
                layout::geoms_view(out@) == geometry_in(pl, ws.take(j as int)),
            decreases ws.len() - j,
        {
            proof {
                lemma_geometry_step(pl, ws, j as int);
            }
            let w = &self.last_topology.windows[j];
            match find_placed(&placed, &w.id) {
                Some(rect) => {
                    out.push(WindowGeometry { id: w.id.clone(), rect });
                    assert(layout::geoms_view(out@) =~= geometry_in(pl, ws.take(j as int)).push(
                        (ws[j as int].id@, rect),
                    ));
                },
                None => {},
            }
            j = j + 1;
        }
        assert(ws.take(ws.len() as int) =~= ws);
        GeometrySet { windows: out }
    }
}

// ---------------------------------------------------------------------------
// Focus and movement
// ---------------------------------------------------------------------------

/// Cell `i` is the first cell holding window `w`.
pub open spec fn first_holding(cells: Seq<(KeyView, CellView)>, w: Seq<char>, i: int) -> bool {
    &&& 0 <= i < cells.len()
    &&& holds(cells[i].1.windows, w)
    &&& forall|j: int| 0 <= j < i ==> !holds(#[trigger] cells[j].1.windows, w)
}

/// `i` is the first position of `x` in `ws`.
pub open spec fn first_at(ws: Seq<Seq<char>>, x: Seq<char>, i: int) -> bool {
    &&& 0 <= i < ws.len()
    &&& ws[i] == x
    &&& forall|j: int| 0 <= j < i ==> ws[j] != x
}

/// The entries of a geometry list whose window `ws` holds, in order.
pub open spec fn local_of(g: Seq<(Seq<char>, Rect)>, ws: Seq<Seq<char>>) -> Seq<(Seq<char>, Rect)>
    decreases g.len(),
{
    if g.len() == 0 {
        Seq::empty()
    } else {
        let p = local_of(g.drop_last(), ws);
        if holds(ws, g.last().0) {
            p.push(g.last())
        } else {
            p
        }
    }
}

/// The entries of `ws` other than `x`, in order.
pub open spec fn without(ws: Seq<Seq<char>>, x: Seq<char>) -> Seq<Seq<char>>
    decreases ws.len(),
{
    if ws.len() == 0 {
        Seq::empty()
    } else {
        let p = without(ws.drop_last(), x);
        if ws.last() == x {
            p
        } else {
            p.push(ws.last())
        }
    }
}

/// The outputs as a geometry list: each output's id and rectangle.
pub open spec fn outputs_view(outputs: Seq<Output>) -> Seq<(Seq<char>, Rect)> {
    Seq::new(outputs.len(), |i: int| (outputs[i].id@, outputs[i].rect))
}

/// The state with cell `i`'s windows replaced.
pub open spec fn with_cell_windows(s: StateView, i: int, ws: Seq<Seq<char>>) -> StateView {
    StateView {
        cells: s.cells.update(i, (s.cells[i].0, CellView { windows: ws, layout: s.cells[i].1.layout })),
        ..s
    }
}

/// The cells with window `w` moved out of cell `i` and appended to cell
/// `dest` (created with `layout` when it does not exist).
pub open spec fn relocated(
    cells: Seq<(KeyView, CellView)>,
    i: int,
    w: Seq<char>,
    dest: KeyView,
    layout: LayoutKind,
) -> Seq<(KeyView, CellView)> {
    let c = cells.update(
        i,
        (cells[i].0, CellView { windows: without(cells[i].1.windows, w), layout: cells[i].1.layout }),
    );
    if has_key(c, dest) {
        let d = choose|d: int| 0 <= d < c.len() && #[trigger] c[d].0 == dest;
        c.update(d, (dest, CellView { windows: c[d].1.windows.push(w), layout: c[d].1.layout }))
    } else {
        c.push((dest, CellView { windows: seq![w], layout }))
    }
}

/// What moving the focused window toward `dir` does, given the first cell
/// `ci` holding it: swap it with its neighbor inside the cell, else relocate
/// it to the adjacent output's cell, else nothing.
pub open spec fn move_from_cell(pre: StateView, f: Seq<char>, ci: int, dir: Direction, post: StateView, r: MoveOutcome) -> bool {
    let cell = pre.cells[ci];
    let local = local_of(geometry_spec(pre), cell.1.windows);
    if exists|nb: Seq<char>| #[trigger] layout::neighbor_spec(local, f, dir, Some(nb)) {
        exists|nb: Seq<char>, a: int, b: int|
            #![trigger layout::neighbor_spec(local, f, dir, Some(nb)), first_at(cell.1.windows, f, a), first_at(cell.1.windows, nb, b)]
            layout::neighbor_spec(local, f, dir, Some(nb)) && first_at(cell.1.windows, f, a)
                && first_at(cell.1.windows, nb, b) && r == MoveOutcome::Swapped && post
                == with_cell_windows(
                pre,
                ci,
                cell.1.windows.update(a, nb).update(b, f),
            )
    } else if exists|t: Seq<char>|
        #[trigger] layout::neighbor_spec(outputs_view(pre.last_topology.outputs), cell.0.0, dir, Some(t)) {
        exists|t: Seq<char>|
            #[trigger] layout::neighbor_spec(outputs_view(pre.last_topology.outputs), cell.0.0, dir, Some(t))
                && r == MoveOutcome::CrossedOutput && post == (StateView {
                cells: relocated(pre.cells, ci, f, (t, cell.0.1, cell.0.2), pre.default_layout),
                ..pre
            })
    } else {
        r == MoveOutcome::NoMove && post == pre
    }
}

/// What `move_window` does: nothing without a focused window held by a cell;
/// otherwise what `move_from_cell` describes for the first cell holding it.
pub open spec fn move_spec(pre: StateView, dir: Direction, post: StateView, r: MoveOutcome) -> bool {
    match pre.focused {
        None => r == MoveOutcome::NoMove && post == pre,
        Some(f) => if !held(pre.cells, f) {
            r == MoveOutcome::NoMove && post == pre
        } else {
            exists|ci: int| first_holding(pre.cells, f, ci) && move_from_cell(pre, f, ci, dir, post, r)
        },
    }
}

/// The first override given for binding `id`, if any.
pub open spec fn override_at(ov: Seq<(Seq<char>, Seq<char>)>, id: Seq<char>, i: int) -> bool {
    &&& 0 <= i < ov.len()
    &&& ov[i].0 == id
    &&& forall|j: int| 0 <= j < i ==> ov[j].0 != id
}

/// The key a binding ends up with: the first override for its id, or its
/// default key.
pub open spec fn effective_key(ov: Seq<(Seq<char>, Seq<char>)>, id: Seq<char>, default: Seq<char>) -> Seq<char> {
    if exists|i: int| 0 <= i < ov.len() && #[trigger] ov[i].0 == id {
        ov[choose|i: int| override_at(ov, id, i)].1
    } else {
        default
    }
}

/// A master ratio moved by `delta` and clamped to 5%..=95%.
pub open spec fn clamped_ratio(ratio: int, delta: int) -> u32 {
    let v = ratio + delta;
    if v < crate::config::MIN_MASTER_RATIO {
        crate::config::MIN_MASTER_RATIO
    } else if v > crate::config::MAX_MASTER_RATIO {
        crate::config::MAX_MASTER_RATIO
    } else {
        v as u32
    }
}

proof fn lemma_local_step(g: Seq<(Seq<char>, Rect)>, ws: Seq<Seq<char>>, i: int)
    requires
        0 <= i < g.len(),
    ensures
        local_of(g.take(i + 1), ws) == (if holds(ws, g[i].0) {
            local_of(g.take(i), ws).push(g[i])
        } else {
            local_of(g.take(i), ws)
        }),
{
    assert(g.take(i + 1).drop_last() =~= g.take(i));
}

proof fn lemma_without_step(ws: Seq<Seq<char>>, x: Seq<char>, i: int)
    requires
        0 <= i < ws.len(),
    ensures
        without(ws.take(i + 1), x) == (if ws[i] == x {
            without(ws.take(i), x)
        } else {
            without(ws.take(i), x).push(ws[i])
        }),
{
    assert(ws.take(i + 1).drop_last() =~= ws.take(i));
}

/// Every entry of a local list is held by `ws`.
proof fn lemma_local_held(g: Seq<(Seq<char>, Rect)>, ws: Seq<Seq<char>>, k: int)
    requires
        0 <= k < local_of(g, ws).len(),
    ensures
        holds(ws, local_of(g, ws)[k].0),
        exists|m: int| 0 <= m < g.len() && g[m] == local_of(g, ws)[k],
    decreases g.len(),
{
    let p = local_of(g.drop_last(), ws);
    if k < p.len() {
        lemma_local_held(g.drop_last(), ws, k);
        let m = choose|m: int| 0 <= m < g.drop_last().len() && g.drop_last()[m] == p[k];
        assert(g[m] == p[k]);
    } else {
        assert(g[g.len() - 1] == local_of(g, ws)[k]);
    }
}

/// The first position of `x` in `ws`.
fn position_of(ws: &Vec<WindowId>, x: &WindowId) -> (r: Option<usize>)
    ensures
        r matches Some(i) ==> first_at(ids_view(ws@), x@, i as int),
        r is None ==> !holds(ids_view(ws@), x@),
{
    let mut i: usize = 0;
    while i < ws.len()
        invariant
            i <= ws@.len(),
            forall|j: int| 0 <= j < i ==> ids_view(ws@)[j] != x@,
        decreases ws@.len() - i,
    {
        if ws[i].same(x) {
            return Some(i);
        }
        i = i + 1;
    }
    None
}

/// The entries of `ws` other than `x`.
fn remove_all(ws: &Vec<WindowId>, x: &WindowId) -> (r: Vec<WindowId>)
    ensures
        ids_view(r@) == without(ids_view(ws@), x@),
{
    let ghost wv = ids_view(ws@);
    let mut out: Vec<WindowId> = Vec::new();
    let mut i: usize = 0;
    assert(wv.take(0) =~= Seq::<Seq<char>>::empty());
    while i < ws.len()
        invariant
            wv == ids_view(ws@),
            i <= ws@.len(),
            ids_view(out@) == without(wv.take(i as int), x@),
        decreases ws@.len() - i,
    {
        proof {
            lemma_without_step(wv, x@, i as int);
        }
        if !ws[i].same(x) {
            out.push(ws[i].clone());
            assert(ids_view(out@) =~= without(wv.take(i as int), x@).push(wv[i as int]));
        }
        i = i + 1;
    }
    assert(wv.take(ws@.len() as int) =~= wv);
    out
}

impl State {
    /// The active window, if one is known and still held.
    pub fn focused(&self) -> (r: Option<&WindowId>)
        ensures
            r matches Some(w) ==> self@.focused == Some(w@),
            r is None <==> self@.focused is None,
    {
        match &self.focused {
            Some(w) => Some(w),
            None => None,
        }
    }

    /// Record the active window as reported by the script.
    pub fn set_focus(&mut self, window: Option<WindowId>)
        requires
            old(self).wf(),
        ensures
            final(self).wf(),
            final(self)@ == (StateView { focused: layout::opt_id_view(window), ..old(self)@ }),
    {
        self.focused = window;
    }

    /// The first cell holding `window`.
    fn cell_of(&self, window: &WindowId) -> (r: Option<usize>)
        ensures
            r matches Some(i) ==> first_holding(self@.cells, window@, i as int),
            r is None ==> !held(self@.cells, window@),
    {
        let mut i: usize = 0;
        while i < self.cells.len()
            invariant
                i <= self.cells@.len(),
                forall|j: int| 0 <= j < i ==> !holds(#[trigger] self@.cells[j].1.windows, window@),
            decreases self.cells@.len() - i,
        {
            if contains_id(&self.cells[i].1.windows, window) {
                return Some(i);
            }
            i = i + 1;
        }
        None
    }

    /// Resolve the window to focus when moving `direction` from the active
    /// one: the spatial neighbor in the current geometry, across layouts and
    /// outputs. `None` when nothing is focused or nothing lies that way.
    pub fn focus_neighbor(&self, direction: Direction) -> (r: Option<WindowId>)
        requires
            self.wf(),
        ensures
            self@.focused is None ==> r is None,
            self@.focused matches Some(f) ==> layout::neighbor_spec(
                geometry_spec(self@),
                f,
                direction,
                layout::opt_id_view(r),
            ),
    {
        let focused = match &self.focused {
            None => {
                return None;
            },
            Some(f) => f,
        };
        let geoms = self.geometry();
        layout::neighbor(geoms.windows.as_slice(), focused, direction)
    }

    /// The output adjacent to `output` toward `direction`: the best output by
    /// center, as for window neighbors. `None` when none lies that way.
    pub fn adjacent_output(&self, output: &OutputId, direction: Direction) -> (r: Option<OutputId>)
        ensures
            layout::neighbor_spec(
                outputs_view(self@.last_topology.outputs),
                output@,
                direction,
                match r {
                    Some(o) => Some(o@),
                    None => None,
                },
            ),
    {
        let outputs = &self.last_topology.outputs;
        let ghost gv = outputs_view(outputs@);
        let mut rects: Vec<Rect> = Vec::new();
        let mut skip: Vec<bool> = Vec::new();
        let mut origin: Option<usize> = None;
        let mut i: usize = 0;
        while i < outputs.len()
            invariant
                outputs@ == self@.last_topology.outputs,
                gv == outputs_view(outputs@),
                i <= outputs@.len(),
                rects@ == layout::geom_rects(gv).subrange(0, i as int),
                skip@ == layout::geom_is(gv, output@).subrange(0, i as int),
                origin is None ==> forall|j: int| 0 <= j < i ==> gv[j].0 != output@,
                origin matches Some(o) ==> layout::first_with_id(gv, output@, o as int),
            decreases outputs@.len() - i,
        {
            let is_origin = outputs[i].id.same(output);
            if is_origin && origin.is_none() {
                origin = Some(i);
            }
            rects.push(outputs[i].rect);
            skip.push(is_origin);
            i = i + 1;
            assert(rects@ =~= layout::geom_rects(gv).subrange(0, i as int));
            assert(skip@ =~= layout::geom_is(gv, output@).subrange(0, i as int));
        }
        assert(rects@ =~= layout::geom_rects(gv));
        assert(skip@ =~= layout::geom_is(gv, output@));
        let o = match origin {
            None => {
                return None;
            },
            Some(o) => o,
        };
        match layout::nearest(&rects, &skip, rects[o], direction) {
            None => None,
            Some(b) => {
                assert(layout::first_with_id(gv, output@, o as int) && layout::is_best(
                    rects@,
                    skip@,
                    rects@[o as int],
                    direction,
                    b as int,
                ));
                Some(outputs[b].id.clone())
            },
        }
    }

    /// Move the focused window toward `direction`.
    ///
    /// Within its cell the window swaps places with its directional neighbor.
    /// At the cell's edge, when an output lies that way, it is relocated onto
    /// that output's cell instead (the caller then asks the script to resync
    /// topology). Returns what kind of move, if any, happened.
    pub fn move_window(&mut self, direction: Direction) -> (r: MoveOutcome)
        requires
            old(self).wf(),
        ensures
            final(self).wf(),
            move_spec(old(self)@, direction, final(self)@, r),
    {
        let ghost pre = self@;
        let focused = match &self.focused {
            None => {
                return MoveOutcome::NoMove;
            },
            Some(f) => f.clone(),
        };
        let ci = match self.cell_of(&focused) {
            None => {
                return MoveOutcome::NoMove;
            },
            Some(ci) => ci,
        };
        let geoms = self.geometry();
        let ghost g = layout::geoms_view(geoms.windows@);
        let ghost cw = pre.cells[ci as int].1.windows;
        let mut local: Vec<WindowGeometry> = Vec::new();
        let mut i: usize = 0;
        assert(g.take(0) =~= Seq::<(Seq<char>, Rect)>::empty());
        assert(layout::geoms_view(local@) =~= local_of(g.take(0), cw));
        while i < geoms.windows.len()
            invariant
                pre == self@,
                0 <= ci < pre.cells.len(),
                cw == pre.cells[ci as int].1.windows,
                g == layout::geoms_view(geoms.windows@),
                i <= geoms.windows@.len(),
                layout::geoms_view(local@) == local_of(g.take(i as int), cw),
            decreases geoms.windows@.len() - i,
        {
            proof {
                lemma_local_step(g, cw, i as int);
            }
            assert(ids_view(self.cells@[ci as int].1.windows@) == cw);
            if contains_id(&self.cells[ci].1.windows, &geoms.windows[i].id) {
                local.push(geoms.windows[i].clone());
                assert(layout::geoms_view(local@) =~= local_of(g.take(i as int), cw).push(g[i as int]));
            }
            i = i + 1;
        }
        assert(g.take(g.len() as int) =~= g);
        let ghost lv = layout::geoms_view(local@);
        if let Some(nb) = layout::neighbor(local.as_slice(), &focused, direction) {
            let cell_windows = &self.cells[ci].1.windows;
            assert(ids_view(cell_windows@) == cw);
            let a = position_of(cell_windows, &focused);
            let b = position_of(cell_windows, &nb);
            let (a, b) = match (a, b) {
                (Some(a), Some(b)) => (a, b),
                _ => {
                    proof {
                        let (o, bb) = choose|o: int, bb: int|
                            layout::first_with_id(lv, focused@, o) && layout::is_best(
                                layout::geom_rects(lv),
                                layout::geom_is(lv, focused@),
                                layout::geom_rects(lv)[o],
                                direction,
                                bb,
                            ) && nb@ == lv[bb].0;
                        lemma_local_held(g, cw, bb);
                        lemma_local_held(g, cw, o);
                    }
                    assert(false);
                    return MoveOutcome::NoMove;
                },
            };
            let mut windows = copy_ids(cell_windows);
            let wa = windows[a].clone();
            let wb = windows[b].clone();
            windows.set(a, wb);
            windows.set(b, wa);
            let key = self.cells[ci].0.clone();
            let layout_kind = self.cells[ci].1.layout;
            let ghost before = self.cells@;
            self.cells.set(ci, (key, Cell { windows, layout: layout_kind }));
            proof {
                assert(ids_view(self.cells@[ci as int].1.windows@) =~= cw.update(a as int, nb@).update(
                    b as int,
                    focused@,
                ));
                assert(self@.cells =~= pre.cells.update(
                    ci as int,
                    (pre.cells[ci as int].0, CellView {
                        windows: cw.update(a as int, nb@).update(b as int, focused@),
                        layout: pre.cells[ci as int].1.layout,
                    }),
                ));
                assert(self@.floating == pre.floating);
                assert(layout::neighbor_spec(lv, focused@, direction, Some(nb@)));
                assert(move_from_cell(pre, focused@, ci as int, direction, self@, MoveOutcome::Swapped));
            }
            return MoveOutcome::Swapped;
        }
        assert(!exists|nb: Seq<char>| #[trigger] layout::neighbor_spec(lv, focused@, direction, Some(nb)));
        let target = match self.adjacent_output(&self.cells[ci].0.output, direction) {
            None => {
                assert(!exists|t: Seq<char>| #[trigger] layout::neighbor_spec(
                    outputs_view(pre.last_topology.outputs),
                    pre.cells[ci as int].0.0,
                    direction,
                    Some(t),
                ));
                return MoveOutcome::NoMove;
            },
            Some(t) => t,
        };
        let ghost tv = target@;
        assert(layout::neighbor_spec(
            outputs_view(pre.last_topology.outputs),
            pre.cells[ci as int].0.0,
            direction,
            Some(tv),
        ));
        let origin_key = self.cells[ci].0.clone();
        let origin_layout = self.cells[ci].1.layout;
        let remaining = remove_all(&self.cells[ci].1.windows, &focused);
        self.cells.set(ci, (origin_key, Cell { windows: remaining, layout: origin_layout }));
        let ghost c1 = self@.cells;
        assert(c1 =~= pre.cells.update(
            ci as int,
            (pre.cells[ci as int].0, CellView {
                windows: without(pre.cells[ci as int].1.windows, focused@),
                layout: pre.cells[ci as int].1.layout,
            }),
        ));
        let dest = CellKey {
            output: target,
            desktop: self.cells[ci].0.desktop.clone(),
            activity: self.cells[ci].0.activity.clone(),
        };
        match find_cell(&self.cells, &dest) {
            Some(d) => {
                let mut ws = copy_ids(&self.cells[d].1.windows);
                let ghost fv = focused@;
                ws.push(focused);
                assert(ids_view(ws@) =~= c1[d as int].1.windows.push(fv));
                let k = self.cells[d].0.clone();
                let l = self.cells[d].1.layout;
                self.cells.set(d, (k, Cell { windows: ws, layout: l }));
                proof {
                    assert(self@.cells[d as int] == (dest@, CellView { windows: c1[d as int].1.windows.push(focused@), layout: c1[d as int].1.layout }));
                    let dd = choose|dd: int| 0 <= dd < c1.len() && #[trigger] c1[dd].0 == dest@;
                    if dd != d {
                        assert(c1[dd].0 != c1[d as int].0);
                    }
                    assert(self@.cells =~= c1.update(
                        d as int,
                        (dest@, CellView { windows: c1[d as int].1.windows.push(focused@), layout: c1[d as int].1.layout }),
                    ));
                }
            },
            None => {
                let dk = dest.clone();
                let mut ws: Vec<WindowId> = Vec::new();
                let ghost fv = focused@;
                ws.push(focused);
                assert(ids_view(ws@) =~= seq![fv]);
                self.cells.push((dk, Cell { windows: ws, layout: self.default_layout }));
                proof {
                    assert(self@.cells =~= c1.push((dest@, CellView { windows: seq![focused@], layout: pre.default_layout })));
                }
            },
        }
        proof {
            assert(self@.cells == relocated(pre.cells, ci as int, focused@, dest@, pre.default_layout));
            assert(keys_distinct(self@.cells)) by {
                let cs = self@.cells;
                assert forall|x: int, y: int|
                    0 <= x < cs.len() && 0 <= y < cs.len() && x != y implies #[trigger] cs[x].0
                    != #[trigger] cs[y].0 by {
                    if x < pre.cells.len() && y < pre.cells.len() {
                        assert(cs[x].0 == pre.cells[x].0);
                        assert(cs[y].0 == pre.cells[y].0);
                    } else if x >= pre.cells.len() {
                        assert(cs[y].0 == pre.cells[y].0);
                        assert(c1[y].0 == pre.cells[y].0);
                    } else {
                        assert(cs[x].0 == pre.cells[x].0);
                        assert(c1[x].0 == pre.cells[x].0);
                    }
                }
            }
            assert(dest@ == (tv, pre.cells[ci as int].0.1, pre.cells[ci as int].0.2));
            assert(self@ == (StateView {
                cells: relocated(pre.cells, ci as int, focused@, (tv, pre.cells[ci as int].0.1, pre.cells[ci as int].0.2), pre.default_layout),
                ..pre
            }));
            assert(move_from_cell(pre, focused@, ci as int, direction, self@, MoveOutcome::CrossedOutput));
        }
        MoveOutcome::CrossedOutput
    }
}

// ---------------------------------------------------------------------------
// Controls and configuration
// ---------------------------------------------------------------------------

/// The value of a config's key overrides.
pub open spec fn config_overrides(c: Config) -> Seq<(Seq<char>, Seq<char>)> {
    overrides_view(c.keys@)
}

/// The state after applying `c`: default layout, tunables, tiling switch,
/// behavior, rules and key overrides taken from it; cells, focus, floats and
/// the retained topology untouched.
pub open spec fn applied(pre: StateView, c: Config) -> StateView {
    StateView {
        default_layout: c.layout.default,
        params: LayoutParams {
            master_ratio: c.layout.master_ratio,
            master_count: c.layout.master_count,
            gaps_inner: c.gaps.inner,
            gaps_outer: c.gaps.outer,
        },
        tiling_enabled: c.layout.tiling_enabled,
        behavior: c.behavior,
        rules: c.rules@,
        key_overrides: config_overrides(c),
        ..pre
    }
}

/// The state after moving the master ratio by `delta`, clamped.
pub open spec fn ratio_adjusted(pre: StateView, delta: int) -> StateView {
    StateView {
        params: LayoutParams {
            master_ratio: clamped_ratio(pre.params.master_ratio as int, delta),
            ..pre.params
        },
        ..pre
    }
}

/// The state after moving the master count by `delta`: never below one,
/// and saturating at the largest count.
pub open spec fn count_adjusted(pre: StateView, delta: int) -> StateView {
    StateView {
        params: LayoutParams {
            master_count: if pre.params.master_count + delta < 1 {
                1usize
            } else if pre.params.master_count + delta > usize::MAX {
                usize::MAX
            } else {
                (pre.params.master_count + delta) as usize
            },
            ..pre.params
        },
        ..pre
    }
}

/// The state after a resize toward `dir`: the ratio moves one step for
/// `Left`/`Right`; `Up`/`Down` change nothing.
pub open spec fn resized(pre: StateView, dir: Direction) -> StateView {
    match dir {
        Direction::Left => ratio_adjusted(pre, -RESIZE_STEP),
        Direction::Right => ratio_adjusted(pre, RESIZE_STEP as int),
        _ => pre,
    }
}

/// `post` is `pre` with the focused window's cell switched to `layout`, or
/// `pre` itself when no cell holds a focused window.
pub open spec fn layout_set(pre: StateView, layout: LayoutKind, post: StateView) -> bool {
    match pre.focused {
        Some(f) => if held(pre.cells, f) {
            exists|ci: int|
                first_holding(pre.cells, f, ci) && post == (StateView {
                    cells: pre.cells.update(
                        ci,
                        (pre.cells[ci].0, CellView { windows: pre.cells[ci].1.windows, layout }),
                    ),
                    ..pre
                })
        } else {
            post == pre
        },
        None => post == pre,
    }
}

/// The state with auto-tiling flipped.
pub open spec fn tiling_toggled(pre: StateView) -> StateView {
    StateView { tiling_enabled: !pre.tiling_enabled, ..pre }
}

/// What toggling the float of `window` (or of the focused window) does: a
/// floated target is un-floated, another is floated; no target, no change.
pub open spec fn float_toggled(pre: StateView, window: Option<Seq<char>>, post: StateView, r: Option<bool>) -> bool {
    let target = match window {
        Some(w) => Some(w),
        None => pre.focused,
    };
    match target {
        None => r is None && post == pre,
        Some(t) => if holds(pre.floating, t) {
            r == Some(false) && post == (StateView { floating: without(pre.floating, t), ..pre })
        } else {
            r == Some(true) && post == (StateView { floating: pre.floating.push(t), ..pre })
        },
    }
}

/// `b` is the effective keybinding table of `s`: the defaults, in order,
/// with each key replaced by its first override.
pub open spec fn bindings_of(s: StateView, b: Seq<Keybinding>) -> bool {
    &&& b.len() == keys::default_table().len()
    &&& forall|i: int|
        0 <= i < b.len() ==> {
            let d = #[trigger] keys::default_table()[i];
            &&& b[i].id@ == d.0
            &&& b[i].description@ == d.1
            &&& b[i].key@ == effective_key(s.key_overrides, d.0, d.2)
            &&& b[i].command == d.3
        }
}

/// The state a reset rebuilds from: no cells and no retained topology.
pub open spec fn reset_base(pre: StateView) -> StateView {
    StateView {
        cells: Seq::empty(),
        last_topology: TopologyView {
            outputs: Seq::empty(),
            desktops: Seq::empty(),
            activities: Seq::empty(),
            windows: Seq::empty(),
        },
        ..pre
    }
}

impl State {
    /// The layout tunables in effect.
    pub fn params(&self) -> (r: LayoutParams)
        ensures
            r == self@.params,
    {
        self.params
    }

    /// The behavior flags in effect.
    pub fn behavior(&self) -> (r: BehaviorConfig)
        ensures
            r == self@.behavior,
    {
        self.behavior
    }

    /// Whether global auto-tiling is on.
    pub fn tiling_enabled(&self) -> (r: bool)
        ensures
            r == self@.tiling_enabled,
    {
        self.tiling_enabled
    }

    /// Whether the user has floated `window`.
    pub fn is_floating(&self, window: &WindowId) -> (r: bool)
        ensures
            r == holds(self@.floating, window@),
    {
        contains_id(&self.floating_windows, window)
    }

    /// Adjust the master-area ratio by `delta`, clamped to 5%..=95%.
    pub fn adjust_master_ratio(&mut self, delta: i32)
        requires
            old(self).wf(),
        ensures
            final(self).wf(),
            final(self)@ == ratio_adjusted(old(self)@, delta as int),
    {
        let v: i64 = self.params.master_ratio as i64 + delta as i64;
        let next: u32 = if v < crate::config::MIN_MASTER_RATIO as i64 {
            crate::config::MIN_MASTER_RATIO
        } else if v > crate::config::MAX_MASTER_RATIO as i64 {
            crate::config::MAX_MASTER_RATIO
        } else {
            v as u32
        };
        self.params.master_ratio = next;
    }

    /// Adjust the master-window count by `delta`, never below one.
    pub fn adjust_master_count(&mut self, delta: i32)
        requires
            old(self).wf(),
        ensures
            final(self).wf(),
            final(self)@ == count_adjusted(old(self)@, delta as int),
    {
        let mc = self.params.master_count;
        let next: usize = if delta < 0 {
            let down = (-(delta as i64)) as usize;
            if mc <= down {
                1
            } else {
                mc - down
            }
        } else {
            let up = delta as usize;
            if mc > usize::MAX - up {
                usize::MAX
            } else {
                mc + up
            }
        };
        self.params.master_count = if next < 1 {
            1
        } else {
            next
        };
    }

    /// Resize the focused split toward `direction`: `Left`/`Right` shrink or
    /// grow the master area by one step; `Up`/`Down` are reserved and change
    /// nothing. Returns whether anything changed.
    pub fn resize(&mut self, direction: Direction) -> (r: bool)
        requires
            old(self).wf(),
        ensures
            final(self).wf(),
            final(self)@ == resized(old(self)@, direction),
            r == (final(self)@.params.master_ratio != old(self)@.params.master_ratio),
    {
        let before = self.params.master_ratio;
        match direction {
            Direction::Left => {
                self.adjust_master_ratio(-RESIZE_STEP);
            },
            Direction::Right => {
                self.adjust_master_ratio(RESIZE_STEP);
            },
            Direction::Up | Direction::Down => {},
        }
        self.params.master_ratio != before
    }

    /// Switch the focused window's cell to `layout`. Returns whether a cell
    /// was changed (false without a focused window held by a cell).
    pub fn set_layout(&mut self, layout: LayoutKind) -> (r: bool)
        requires
            old(self).wf(),
        ensures
            final(self).wf(),
            r <==> (old(self)@.focused matches Some(f) && held(old(self)@.cells, f)),
            layout_set(old(self)@, layout, final(self)@),
    {
        let ghost pre = self@;
        let focused = match &self.focused {
            None => {
                return false;
            },
            Some(f) => f.clone(),
        };
        let ci = match self.cell_of(&focused) {
            None => {
                return false;
            },
            Some(ci) => ci,
        };
        let key = self.cells[ci].0.clone();
        let windows = copy_ids(&self.cells[ci].1.windows);
        self.cells.set(ci, (key, Cell { windows, layout }));
        proof {
            assert(self@.cells =~= pre.cells.update(
                ci as int,
                (pre.cells[ci as int].0, CellView { windows: pre.cells[ci as int].1.windows, layout }),
            ));
            let cs = self@.cells;
            assert forall|x: int, y: int|
                0 <= x < cs.len() && 0 <= y < cs.len() && x != y implies #[trigger] cs[x].0
                != #[trigger] cs[y].0 by {
                assert(cs[x].0 == pre.cells[x].0);
                assert(cs[y].0 == pre.cells[y].0);
            }
        }
        true
    }

    /// Flip global auto-tiling. Returns the new enabled state.
    pub fn toggle_tiling(&mut self) -> (r: bool)
        requires
            old(self).wf(),
        ensures
            final(self).wf(),
            r == !old(self)@.tiling_enabled,
            final(self)@ == tiling_toggled(old(self)@),
    {
        self.tiling_enabled = !self.tiling_enabled;
        self.tiling_enabled
    }

    /// Toggle the floating state of `window` (or of the focused window when
    /// `None`). A floated window is skipped by the layout engine. Returns the
    /// new floating state, or `None` when no window could be resolved.
    pub fn toggle_float(&mut self, window: Option<WindowId>) -> (r: Option<bool>)
        requires
            old(self).wf(),
        ensures
            final(self).wf(),
            float_toggled(old(self)@, layout::opt_id_view(window), final(self)@, r),
    {
        let ghost pre = self@;
        let target = match window {
            Some(w) => w,
            None => match &self.focused {
                Some(f) => f.clone(),
                None => {
                    return None;
                },
            },
        };
        if contains_id(&self.floating_windows, &target) {
            let rest = remove_all(&self.floating_windows, &target);
            self.floating_windows = rest;
            proof {
                lemma_without_no_dup(pre.floating, target@);
            }
            Some(false)
        } else {
            let ghost tv = target@;
            self.floating_windows.push(target);
            proof {
                assert(self@.floating =~= pre.floating.push(tv));
                let f = self@.floating;
                assert forall|x: int, y: int|
                    0 <= x < f.len() && 0 <= y < f.len() && x != y implies f[x] != f[y] by {
                    if x == pre.floating.len() {
                        assert(f[y] == pre.floating[y]);
                    } else if y == pre.floating.len() {
                        assert(f[x] == pre.floating[x]);
                    }
                }
            }
            Some(true)
        }
    }

    /// The effective keybinding table: the built-in defaults with any `[keys]`
    /// override applied by id.
    pub fn keybindings(&self) -> (r: Vec<Keybinding>)
        ensures
            bindings_of(self@, r@),
    {
        let mut table = keys::defaults();
        let ghost ov = self@.key_overrides;
        let mut i: usize = 0;
        while i < table.len()
            invariant
                ov == self@.key_overrides,
                table@.len() == keys::default_table().len(),
                i <= table@.len(),
                forall|m: int|
                    0 <= m < table@.len() ==> {
                        let d = #[trigger] keys::default_table()[m];
                        &&& table@[m].id@ == d.0
                        &&& table@[m].description@ == d.1
                        &&& table@[m].key@ == (if m < i {
                            effective_key(ov, d.0, d.2)
                        } else {
                            d.2
                        })
                        &&& table@[m].command == d.3
                    },
            decreases table@.len() - i,
        {
            let ghost d = keys::default_table()[i as int];
            let mut j: usize = 0;
            let mut found: Option<usize> = None;
            while j < self.key_overrides.len()
                invariant
                    ov == self@.key_overrides,
                    ov.len() == self.key_overrides@.len(),
                    j <= ov.len(),
                    found is None ==> forall|m: int| 0 <= m < j ==> ov[m].0 != table@[i as int].id@,
                    found matches Some(x) ==> override_at(ov, table@[i as int].id@, x as int),
                    i < table@.len(),
                decreases ov.len() - j,
            {
                if found.is_none() && crate::text::str_eq(
                    self.key_overrides[j].0.as_str(),
                    table[i].id.as_str(),
                ) {
                    found = Some(j);
                }
                j = j + 1;
            }
            match found {
                Some(x) => {
                    let key = self.key_overrides[x].1.clone();
                    let ghost before = table@;
                    let mut entry = Keybinding {
                        id: String::new(),
                        description: String::new(),
                        key: String::new(),
                        command: crate::ipc::Command::Status,
                    };
                    table.set_and_swap(i, &mut entry);
                    entry.key = key;
                    table.set_and_swap(i, &mut entry);
                    proof {
                        assert(override_at(ov, d.0, x as int));
                        assert(effective_key(ov, d.0, d.2) == ov[x as int].1) by {
                            let c = choose|c: int| override_at(ov, d.0, c);
                            if c < x {
                                assert(ov[c].0 != d.0);
                            } else if c > x {
                                assert(ov[x as int].0 != d.0);
                            }
                        }
                        assert forall|m: int| 0 <= m < table@.len() && m != i implies table@[m]
                            == before[m] by {}
                    }
                },
                None => {
                    proof {
                        assert(!exists|c: int| 0 <= c < ov.len() && #[trigger] ov[c].0 == d.0);
                    }
                },
            }
            i = i + 1;
        }
        table
    }

    /// Apply a configuration to the running state.
    ///
    /// The default layout only affects cells materialized from now on; the
    /// tunables take effect at the next geometry; the behavior flags re-key
    /// cells at the next reconcile.
    pub fn apply_config(&mut self, cfg: &Config)
        requires
            old(self).wf(),
            override_ids_distinct(config_overrides(*cfg)),
        ensures
            final(self).wf(),
            final(self)@ == applied(old(self)@, *cfg),
    {
        self.default_layout = cfg.layout.default;
        self.params.master_ratio = cfg.layout.master_ratio;
        self.params.master_count = cfg.layout.master_count;
        self.params.gaps_inner = cfg.gaps.inner;
        self.params.gaps_outer = cfg.gaps.outer;
        self.tiling_enabled = cfg.layout.tiling_enabled;
        self.behavior = cfg.behavior;
        let rules = cfg.rules.clone();
        assert(rules@ =~= cfg.rules@);
        self.rules = rules;
        let mut keys: Vec<(String, String)> = Vec::new();
        let mut i: usize = 0;
        while i < cfg.keys.len()
            invariant
                i <= cfg.keys@.len(),
                keys@.len() == i,
                overrides_view(keys@) == overrides_view(cfg.keys@).take(i as int),
            decreases cfg.keys@.len() - i,
        {
            let ghost before = keys@;
            let entry = (cfg.keys[i].0.clone(), cfg.keys[i].1.clone());
            assert(entry.0@ == cfg.keys@[i as int].0@ && entry.1@ == cfg.keys@[i as int].1@);
            keys.push(entry);
            assert(keys@ == before.push(entry));
            assert forall|m: int| 0 <= m < i + 1 implies #[trigger] overrides_view(keys@)[m]
                == overrides_view(cfg.keys@)[m] by {
                if m < i {
                    assert(keys@[m] == before[m]);
                    assert(overrides_view(before)[m] == overrides_view(cfg.keys@).take(i as int)[m]);
                }
            }
            i = i + 1;
            assert(overrides_view(keys@) =~= overrides_view(cfg.keys@).take(i as int));
        }
        assert(overrides_view(cfg.keys@).take(cfg.keys@.len() as int) =~= overrides_view(cfg.keys@));
        self.key_overrides = keys;
    }

    /// Snapshot the effective config. `source` is the path the config was
    /// resolved from; `loaded` whether a file was actually present.
    pub fn config_report(&self, source: String, loaded: bool) -> (r: ConfigReport)
        ensures
            r == (ConfigReport {
                layout: self@.default_layout,
                master_ratio: self@.params.master_ratio,
                master_count: self@.params.master_count as u32,
                gaps_inner: self@.params.gaps_inner,
                gaps_outer: self@.params.gaps_outer,
                per_desktop: self@.behavior.per_desktop,
                per_activity: self@.behavior.per_activity,
                focus_follows_mouse: self@.behavior.focus_follows_mouse,
                tiling_enabled: self@.tiling_enabled,
                source,
                loaded,
            }),
    {
        ConfigReport {
            layout: self.default_layout,
            master_ratio: self.params.master_ratio,
            master_count: self.params.master_count as u32,
            gaps_inner: self.params.gaps_inner,
            gaps_outer: self.params.gaps_outer,
            per_desktop: self.behavior.per_desktop,
            per_activity: self.behavior.per_activity,
            focus_follows_mouse: self.behavior.focus_follows_mouse,
            tiling_enabled: self.tiling_enabled,
            source,
            loaded,
        }
    }

    /// Force a full re-materialization: discard all cells and rebuild from the
    /// last known topology (the recovery path behind a reset command).
    pub fn reset(&mut self) -> (r: ReconcileReport)
        requires
            old(self).wf(),
        ensures
            final(self).wf(),
            reconciled(reset_base(old(self)@), old(self)@.last_topology, final(self)@),
            r == report_of(final(self)@.cells),
    {
        self.cells = Vec::new();
        let mut topology = Topology::empty();
        std::mem::swap(&mut topology, &mut self.last_topology);
        proof {
            assert(self@.cells =~= Seq::<(KeyView, CellView)>::empty());
            assert(self@.last_topology =~= (TopologyView {
                outputs: Seq::empty(),
                desktops: Seq::empty(),
                activities: Seq::empty(),
                windows: Seq::empty(),
            }));
        }
        self.reconcile(&topology)
    }
}

/// Removing `x` keeps a list free of repeats.
proof fn lemma_without_no_dup(ws: Seq<Seq<char>>, x: Seq<char>)
    requires
        ws.no_duplicates(),
    ensures
        without(ws, x).no_duplicates(),
        forall|y: Seq<char>| #[trigger] holds(without(ws, x), y) ==> holds(ws, y) && y != x,
    decreases ws.len(),
{
    if ws.len() > 0 {
        let d = ws.drop_last();
        assert(d.no_duplicates());
        lemma_without_no_dup(d, x);
        let p = without(d, x);
        assert forall|y: Seq<char>| holds(without(ws, x), y) implies holds(ws, y) && y != x by {
            if ws.last() != x && y == ws.last() {
                assert(ws[ws.len() - 1] == y);
            } else {
                if ws.last() != x {
                    let k = choose|k: int| 0 <= k < p.push(ws.last()).len() && p.push(ws.last())[k] == y;
                    assert(p[k] == y);
                }
                assert(holds(p, y));
                let k = choose|k: int| 0 <= k < d.len() && d[k] == y;
                assert(ws[k] == y);
            }
        }
        if ws.last() != x {
            assert forall|a: int, c: int|
                0 <= a < p.push(ws.last()).len() && 0 <= c < p.push(ws.last()).len() && a != c
                    implies p.push(ws.last())[a] != p.push(ws.last())[c] by {
                if a == p.len() || c == p.len() {
                    let o = if a == p.len() { c } else { a };
                    if p[o] == ws.last() {
                        assert(holds(p, p[o]));
                        let k = choose|k: int| 0 <= k < d.len() && d[k] == p[o];
                        assert(ws[k] == ws[ws.len() - 1]);
                    }
                }
            }
        }
    }
}

} // verus!
