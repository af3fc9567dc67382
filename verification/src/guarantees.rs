//! What the cell model guarantees across calls.
//!
//! Each public proof function here states one property of the daemon state
//! over the specifications the operations in [`crate::state`] are proved
//! against, so it holds of every run of those operations.

use vstd::prelude::*;

use crate::config::{MAX_MASTER_RATIO, MIN_MASTER_RATIO};
use crate::ipc::{Direction, Keybinding, LayoutKind, Rect, TopologyView, Window};
use crate::keys::default_table;
use crate::state::{
    COLLAPSED, KeyView, RESIZE_STEP, StateView, append_new, cell_placements, count_adjusted,
    float_toggled, geometry_in, geometry_spec, has_activity, has_desktop, has_key, has_output,
    bindings_of, held, holds, keep_in, keys_distinct, reset_base, key_present, lands_in, lookup, merged, placed_rect, placements,
    present_in, ratio_adjusted, reconciled, reconciled_cell, resized, tiled_of, tiling_toggled,
    topology_ids, window_live, without, CellView, MoveOutcome, move_spec, move_from_cell,
    first_holding, first_at, local_of, relocated, with_cell_windows, total_windows, report_of,
    outputs_view, lemma_swap_count, lemma_relocate_count, key_for, arrange_view, output_area,
    layout_set,
};
use crate::layout;

verus! {

// ---------------------------------------------------------------------------
// Sequence facts
// ---------------------------------------------------------------------------

proof fn lemma_present_from(t: TopologyView, b: crate::config::BehaviorConfig, ws: Seq<Window>, k: KeyView, w: Seq<char>)
    requires
        holds(present_in(t, b, ws, k), w),
    ensures
        exists|j: int| 0 <= j < ws.len() && #[trigger] ws[j].id@ == w && lands_in(t, b, ws[j], k),
    decreases ws.len(),
{
    let p = present_in(t, b, ws.drop_last(), k);
    if lands_in(t, b, ws.last(), k) && w == ws.last().id@ {
        assert(ws[ws.len() - 1].id@ == w);
    } else {
        if lands_in(t, b, ws.last(), k) {
            let i = choose|i: int| 0 <= i < p.push(ws.last().id@).len() && p.push(ws.last().id@)[i] == w;
            assert(p[i] == w);
        }
        assert(holds(p, w));
        lemma_present_from(t, b, ws.drop_last(), k, w);
        let j = choose|j: int|
            0 <= j < ws.drop_last().len() && #[trigger] ws.drop_last()[j].id@ == w && lands_in(
                t,
                b,
                ws.drop_last()[j],
                k,
            );
        assert(ws[j] == ws.drop_last()[j]);
    }
}

proof fn lemma_keep_in_from(xs: Seq<Seq<char>>, live: Seq<Seq<char>>, w: Seq<char>)
    requires
        holds(keep_in(xs, live), w),
    ensures
        holds(xs, w),
        holds(live, w),
    decreases xs.len(),
{
    let p = keep_in(xs.drop_last(), live);
    if holds(live, xs.last()) && w == xs.last() {
        assert(xs[xs.len() - 1] == w);
    } else {
        if holds(live, xs.last()) {
            let i = choose|i: int| 0 <= i < p.push(xs.last()).len() && p.push(xs.last())[i] == w;
            assert(p[i] == w);
        }
        lemma_keep_in_from(xs.drop_last(), live, w);
        let i = choose|i: int| 0 <= i < xs.drop_last().len() && xs.drop_last()[i] == w;
        assert(xs[i] == w);
    }
}

proof fn lemma_keep_in_all(xs: Seq<Seq<char>>, live: Seq<Seq<char>>)
    requires
        forall|i: int| 0 <= i < xs.len() ==> holds(live, #[trigger] xs[i]),
    ensures
        keep_in(xs, live) == xs,
    decreases xs.len(),
{
    if xs.len() > 0 {
        let d = xs.drop_last();
        assert forall|i: int| 0 <= i < d.len() implies holds(live, #[trigger] d[i]) by {
            assert(d[i] == xs[i]);
        }
        lemma_keep_in_all(d, live);
        assert(holds(live, xs[xs.len() - 1]));
        assert(d.push(xs.last()) =~= xs);
    }
}

proof fn lemma_append_new_holds(kept: Seq<Seq<char>>, present: Seq<Seq<char>>, w: Seq<char>)
    ensures
        holds(append_new(kept, present), w) <==> (holds(kept, w) || holds(present, w)),
    decreases present.len(),
{
    if present.len() > 0 {
        let d = present.drop_last();
        let x = present.last();
        let p = append_new(kept, d);
        lemma_append_new_holds(kept, d, w);
        lemma_append_new_holds(kept, d, x);
        if holds(present, w) {
            let i = choose|i: int| 0 <= i < present.len() && present[i] == w;
            if i < d.len() {
                assert(d[i] == w);
            }
        }
        if holds(d, w) {
            let i = choose|i: int| 0 <= i < d.len() && d[i] == w;
            assert(present[i] == w);
        }
        if w == x {
            assert(present[present.len() - 1] == w);
        }
        if !holds(kept, x) {
            if holds(p.push(x), w) {
                let i = choose|i: int| 0 <= i < p.push(x).len() && p.push(x)[i] == w;
                if i < p.len() {
                    assert(p[i] == w);
                }
            }
            if holds(p, w) {
                let i = choose|i: int| 0 <= i < p.len() && p[i] == w;
                assert(p.push(x)[i] == w);
            }
            if w == x {
                assert(p.push(x)[p.len() as int] == w);
            }
        }
    }
}

proof fn lemma_append_new_none(kept: Seq<Seq<char>>, present: Seq<Seq<char>>)
    requires
        forall|i: int| 0 <= i < present.len() ==> holds(kept, #[trigger] present[i]),
    ensures
        append_new(kept, present) == kept,
    decreases present.len(),
{
    if present.len() > 0 {
        let d = present.drop_last();
        assert forall|i: int| 0 <= i < d.len() implies holds(kept, #[trigger] d[i]) by {
            assert(d[i] == present[i]);
        }
        lemma_append_new_none(kept, d);
        assert(holds(kept, present[present.len() - 1]));
    }
}

/// A merged cell holds only present windows.
proof fn lemma_merged_from(old: Seq<Seq<char>>, present: Seq<Seq<char>>, w: Seq<char>)
    requires
        holds(merged(old, present), w),
    ensures
        holds(present, w),
{
    lemma_append_new_holds(keep_in(old, present), present, w);
    if holds(keep_in(old, present), w) {
        lemma_keep_in_from(old, present, w);
    }
}

/// A merged cell holds exactly the present windows.
proof fn lemma_merged_holds(old: Seq<Seq<char>>, present: Seq<Seq<char>>, w: Seq<char>)
    ensures
        holds(merged(old, present), w) <==> holds(present, w),
{
    if holds(merged(old, present), w) {
        lemma_merged_from(old, present, w);
    }
    lemma_append_new_holds(keep_in(old, present), present, w);
}

/// Merging a merged cell with the same present windows changes nothing.
proof fn lemma_merged_idempotent(old: Seq<Seq<char>>, present: Seq<Seq<char>>)
    ensures
        merged(merged(old, present), present) == merged(old, present),
{
    let m = merged(old, present);
    assert forall|i: int| 0 <= i < m.len() implies holds(present, #[trigger] m[i]) by {
        assert(holds(m, m[i]));
        lemma_merged_from(old, present, m[i]);
    }
    lemma_keep_in_all(m, present);
    assert forall|i: int| 0 <= i < present.len() implies holds(m, #[trigger] present[i]) by {
        assert(holds(present, present[i]));
        lemma_append_new_holds(keep_in(old, present), present, present[i]);
    }
    lemma_append_new_none(m, present);
}

proof fn lemma_keep_in_idempotent(xs: Seq<Seq<char>>, live: Seq<Seq<char>>)
    ensures
        keep_in(keep_in(xs, live), live) == keep_in(xs, live),
{
    let k = keep_in(xs, live);
    assert forall|i: int| 0 <= i < k.len() implies holds(live, #[trigger] k[i]) by {
        assert(holds(k, k[i]));
        lemma_keep_in_from(xs, live, k[i]);
    }
    lemma_keep_in_all(k, live);
}

/// After a reconcile, the cell with key `k` is what reconcile made of `k`.
proof fn lemma_lookup_reconciled(pre: StateView, t: TopologyView, post: StateView, k: KeyView)
    requires
        reconciled(pre, t, post),
        has_key(post.cells, k),
    ensures
        lookup(post.cells, k) == Some(reconciled_cell(pre, t, k)),
{
    let c = choose|i: int| 0 <= i < post.cells.len() && #[trigger] post.cells[i].0 == k;
    assert(post.cells[c].1 == reconciled_cell(pre, t, post.cells[c].0));
}

// ---------------------------------------------------------------------------
// Reconcile
// ---------------------------------------------------------------------------

proof fn lemma_present_to(
    t: TopologyView,
    b: crate::config::BehaviorConfig,
    ws: Seq<Window>,
    k: KeyView,
    j: int,
)
    requires
        0 <= j < ws.len(),
        lands_in(t, b, ws[j], k),
    ensures
        holds(present_in(t, b, ws, k), ws[j].id@),
    decreases ws.len(),
{
    let d = ws.drop_last();
    let p = present_in(t, b, d, k);
    if j == ws.len() - 1 {
        assert(p.push(ws[j].id@)[p.len() as int] == ws[j].id@);
    } else {
        assert(d[j] == ws[j]);
        lemma_present_to(t, b, d, k, j);
        let i = choose|i: int| 0 <= i < p.len() && p[i] == ws[j].id@;
        if lands_in(t, b, ws.last(), k) {
            assert(p.push(ws.last().id@)[i] == ws[j].id@);
        }
    }
}

/// A list without repeats stays so when an entry it lacks is appended.
proof fn lemma_push_distinct(v: Seq<Seq<char>>, x: Seq<char>)
    requires
        v.no_duplicates(),
        !holds(v, x),
    ensures
        v.push(x).no_duplicates(),
{
    let u = v.push(x);
    assert forall|i: int, j: int| 0 <= i < u.len() && 0 <= j < u.len() && i != j implies u[i]
        != u[j] by {
        if i < v.len() && j < v.len() {
            assert(u[i] == v[i] && u[j] == v[j]);
        } else if i < v.len() {
            assert(u[i] == v[i]);
        } else {
            assert(u[j] == v[j]);
        }
    }
}

/// The ids landing in a cell repeat nowhere when the topology's ids are
/// distinct.
proof fn lemma_present_distinct(t: TopologyView, b: crate::config::BehaviorConfig, ws: Seq<Window>, k: KeyView)
    requires
        forall|x: int, y: int|
            0 <= x < ws.len() && 0 <= y < ws.len() && x != y ==> #[trigger] ws[x].id@ != #[trigger] ws[y].id@,
    ensures
        present_in(t, b, ws, k).no_duplicates(),
    decreases ws.len(),
{
    if ws.len() > 0 {
        let d = ws.drop_last();
        assert forall|x: int, y: int|
            0 <= x < d.len() && 0 <= y < d.len() && x != y implies #[trigger] d[x].id@ != #[trigger] d[y].id@ by {
            assert(d[x] == ws[x] && d[y] == ws[y]);
        }
        lemma_present_distinct(t, b, d, k);
        let p = present_in(t, b, d, k);
        if lands_in(t, b, ws.last(), k) {
            if holds(p, ws.last().id@) {
                lemma_present_from(t, b, d, k, ws.last().id@);
                let j = choose|j: int|
                    0 <= j < d.len() && #[trigger] d[j].id@ == ws.last().id@ && lands_in(t, b, d[j], k);
                assert(ws[j].id@ == ws[ws.len() - 1].id@);
            }
            lemma_push_distinct(p, ws.last().id@);
        }
    }
}

proof fn lemma_keep_in_distinct(xs: Seq<Seq<char>>, live: Seq<Seq<char>>)
    requires
        xs.no_duplicates(),
    ensures
        keep_in(xs, live).no_duplicates(),
    decreases xs.len(),
{
    if xs.len() > 0 {
        let d = xs.drop_last();
        assert forall|i: int, j: int| 0 <= i < d.len() && 0 <= j < d.len() && i != j implies d[i]
            != d[j] by {
            assert(d[i] == xs[i] && d[j] == xs[j]);
        }
        lemma_keep_in_distinct(d, live);
        let p = keep_in(d, live);
        if holds(live, xs.last()) {
            if holds(p, xs.last()) {
                lemma_keep_in_from(d, live, xs.last());
                let i = choose|i: int| 0 <= i < d.len() && d[i] == xs.last();
                assert(xs[i] == xs[xs.len() - 1]);
            }
            lemma_push_distinct(p, xs.last());
        }
    }
}

proof fn lemma_append_new_distinct(kept: Seq<Seq<char>>, present: Seq<Seq<char>>)
    requires
        kept.no_duplicates(),
        present.no_duplicates(),
    ensures
        append_new(kept, present).no_duplicates(),
    decreases present.len(),
{
    if present.len() > 0 {
        let d = present.drop_last();
        let x = present.last();
        assert forall|i: int, j: int| 0 <= i < d.len() && 0 <= j < d.len() && i != j implies d[i]
            != d[j] by {
            assert(d[i] == present[i] && d[j] == present[j]);
        }
        lemma_append_new_distinct(kept, d);
        let p = append_new(kept, d);
        if !holds(kept, x) {
            lemma_append_new_holds(kept, d, x);
            if holds(d, x) {
                let i = choose|i: int| 0 <= i < d.len() && d[i] == x;
                assert(present[i] == present[present.len() - 1]);
            }
            lemma_push_distinct(p, x);
        }
    }
}

/// After a reconcile the cells are exactly those some live topology window
/// lands in, and each cell holds exactly the live topology windows whose key
/// is its own, so every live window sits in the cell its key names. Where
/// the topology's ids are distinct and no old cell repeats a window, no cell
/// repeats one either.
pub proof fn lemma_reconcile_window_sets(pre: StateView, t: TopologyView, post: StateView)
    requires
        reconciled(pre, t, post),
    ensures
        forall|k: KeyView| has_key(post.cells, k) <==> key_present(t, pre.behavior, k),
        forall|i: int, w: Seq<char>|
            0 <= i < post.cells.len() ==> (#[trigger] holds(post.cells[i].1.windows, w) <==> exists|
                j: int,
            |
                0 <= j < t.windows.len() && #[trigger] t.windows[j].id@ == w && lands_in(
                    t,
                    pre.behavior,
                    t.windows[j],
                    post.cells[i].0,
                )),
        forall|j: int|
            0 <= j < t.windows.len() && window_live(t, #[trigger] t.windows[j]) ==> exists|i: int|
                0 <= i < post.cells.len() && #[trigger] post.cells[i].0 == key_for(
                    pre.behavior,
                    t.windows[j],
                ) && holds(post.cells[i].1.windows, t.windows[j].id@),
        (forall|x: int, y: int|
            0 <= x < t.windows.len() && 0 <= y < t.windows.len() && x != y
                ==> #[trigger] t.windows[x].id@ != #[trigger] t.windows[y].id@) && (forall|i: int|
            0 <= i < pre.cells.len() ==> (#[trigger] pre.cells[i]).1.windows.no_duplicates())
            ==> forall|i: int|
            0 <= i < post.cells.len() ==> (#[trigger] post.cells[i]).1.windows.no_duplicates(),
{
    let b = pre.behavior;
    assert forall|i: int, w: Seq<char>| 0 <= i < post.cells.len() implies (#[trigger] holds(
        post.cells[i].1.windows,
        w,
    ) <==> exists|j: int|
        0 <= j < t.windows.len() && #[trigger] t.windows[j].id@ == w && lands_in(
            t,
            b,
            t.windows[j],
            post.cells[i].0,
        )) by {
        let k = post.cells[i].0;
        let present = present_in(t, b, t.windows, k);
        assert(post.cells[i].1 == reconciled_cell(pre, t, k));
        match lookup(pre.cells, k) {
            Some(old) => lemma_merged_holds(old.windows, present, w),
            None => lemma_merged_holds(Seq::empty(), present, w),
        }
        if holds(present, w) {
            lemma_present_from(t, b, t.windows, k, w);
        }
        if exists|j: int|
            0 <= j < t.windows.len() && #[trigger] t.windows[j].id@ == w && lands_in(
                t,
                b,
                t.windows[j],
                k,
            ) {
            let j = choose|j: int|
                0 <= j < t.windows.len() && #[trigger] t.windows[j].id@ == w && lands_in(
                    t,
                    b,
                    t.windows[j],
                    k,
                );
            lemma_present_to(t, b, t.windows, k, j);
        }
    }
    assert forall|j: int| 0 <= j < t.windows.len() && window_live(t, #[trigger] t.windows[j])
        implies exists|i: int|
        0 <= i < post.cells.len() && #[trigger] post.cells[i].0 == key_for(b, t.windows[j])
            && holds(post.cells[i].1.windows, t.windows[j].id@) by {
        let k = key_for(b, t.windows[j]);
        assert(lands_in(t, b, t.windows[j], k));
        assert(key_present(t, b, k));
        assert(has_key(post.cells, k));
        let i = choose|i: int| 0 <= i < post.cells.len() && #[trigger] post.cells[i].0 == k;
        assert(holds(post.cells[i].1.windows, t.windows[j].id@));
    }
    if (forall|x: int, y: int|
        0 <= x < t.windows.len() && 0 <= y < t.windows.len() && x != y
            ==> #[trigger] t.windows[x].id@ != #[trigger] t.windows[y].id@) && (forall|i: int|
        0 <= i < pre.cells.len() ==> (#[trigger] pre.cells[i]).1.windows.no_duplicates()) {
        assert forall|i: int| 0 <= i < post.cells.len() implies (
        #[trigger] post.cells[i]).1.windows.no_duplicates() by {
            let k = post.cells[i].0;
            let present = present_in(t, b, t.windows, k);
            assert(post.cells[i].1 == reconciled_cell(pre, t, k));
            lemma_present_distinct(t, b, t.windows, k);
            match lookup(pre.cells, k) {
                Some(old) => {
                    assert(has_key(pre.cells, k));
                    assert(old.windows.no_duplicates());
                    lemma_keep_in_distinct(old.windows, present);
                    lemma_append_new_distinct(keep_in(old.windows, present), present);
                },
                None => {
                    lemma_keep_in_distinct(Seq::empty(), present);
                    lemma_append_new_distinct(keep_in(Seq::empty(), present), present);
                },
            }
        }
    }
}

/// No orphaned cell survives a reconcile: every cell's output is in the
/// topology, and so are its desktop and activity, or the dimension is
/// collapsed because its `per_*` flag is off.
pub proof fn lemma_reconcile_leaves_no_orphan(pre: StateView, t: TopologyView, post: StateView)
    requires
        reconciled(pre, t, post),
    ensures
        forall|i: int|
            0 <= i < post.cells.len() ==> {
                let k = #[trigger] post.cells[i].0;
                &&& has_output(t, k.0)
                &&& if pre.behavior.per_desktop {
                    has_desktop(t, k.1)
                } else {
                    k.1 == COLLAPSED@
                }
                &&& if pre.behavior.per_activity {
                    has_activity(t, k.2)
                } else {
                    k.2 == COLLAPSED@
                }
            },
{
    assert forall|i: int| 0 <= i < post.cells.len() implies {
        let k = #[trigger] post.cells[i].0;
        &&& has_output(t, k.0)
        &&& if pre.behavior.per_desktop {
            has_desktop(t, k.1)
        } else {
            k.1 == COLLAPSED@
        }
        &&& if pre.behavior.per_activity {
            has_activity(t, k.2)
        } else {
            k.2 == COLLAPSED@
        }
    } by {
        let k = post.cells[i].0;
        assert(has_key(post.cells, k));
        assert(key_present(t, pre.behavior, k));
        let j = choose|j: int|
            0 <= j < t.windows.len() && lands_in(t, pre.behavior, #[trigger] t.windows[j], k);
        assert(window_live(t, t.windows[j]));
    }
}

/// Every window a cell holds after a reconcile is a window of the topology
/// whose output, desktop and activity are live and which belongs to that
/// cell; the focus, when kept, is such a window.
pub proof fn lemma_reconcile_holds_live_windows(pre: StateView, t: TopologyView, post: StateView)
    requires
        reconciled(pre, t, post),
    ensures
        forall|i: int, w: Seq<char>|
            0 <= i < post.cells.len() && #[trigger] holds(post.cells[i].1.windows, w) ==> exists|
                j: int,
            |
                0 <= j < t.windows.len() && #[trigger] t.windows[j].id@ == w && lands_in(
                    t,
                    pre.behavior,
                    t.windows[j],
                    post.cells[i].0,
                ),
        post.focused matches Some(f) ==> exists|j: int|
            0 <= j < t.windows.len() && #[trigger] t.windows[j].id@ == f && window_live(
                t,
                t.windows[j],
            ),
{
    assert forall|i: int, w: Seq<char>|
        0 <= i < post.cells.len() && #[trigger] holds(post.cells[i].1.windows, w) implies exists|
        j: int,
    |
        0 <= j < t.windows.len() && #[trigger] t.windows[j].id@ == w && lands_in(
            t,
            pre.behavior,
            t.windows[j],
            post.cells[i].0,
        ) by {
        let k = post.cells[i].0;
        let present = present_in(t, pre.behavior, t.windows, k);
        let c = reconciled_cell(pre, t, k);
        assert(post.cells[i].1 == c);
        match lookup(pre.cells, k) {
            Some(old) => lemma_merged_from(old.windows, present, w),
            None => lemma_merged_from(Seq::empty(), present, w),
        }
        lemma_present_from(t, pre.behavior, t.windows, k, w);
    }
    if let Some(f) = post.focused {
        assert(held(post.cells, f));
        let i = choose|i: int| 0 <= i < post.cells.len() && holds(#[trigger] post.cells[i].1.windows, f);
        assert(holds(post.cells[i].1.windows, f));
        let j = choose|j: int|
            0 <= j < t.windows.len() && #[trigger] t.windows[j].id@ == f && lands_in(
                t,
                pre.behavior,
                t.windows[j],
                post.cells[i].0,
            );
        assert(window_live(t, t.windows[j]));
    }
}

/// Floating marks never outlive their windows: after a reconcile every
/// floated window is in the topology.
pub proof fn lemma_reconcile_prunes_floating(pre: StateView, t: TopologyView, post: StateView)
    requires
        reconciled(pre, t, post),
    ensures
        forall|w: Seq<char>| #[trigger] holds(post.floating, w) ==> holds(topology_ids(t), w),
{
    assert forall|w: Seq<char>| #[trigger] holds(post.floating, w) implies holds(
        topology_ids(t),
        w,
    ) by {
        lemma_keep_in_from(pre.floating, topology_ids(t), w);
    }
}

/// Reconciling twice against the same topology changes nothing the second
/// time: every key finds the same cell, and focus, floating marks, rule
/// floats and settings stay as the first reconcile left them.
pub proof fn lemma_reconcile_idempotent(
    pre: StateView,
    t: TopologyView,
    mid: StateView,
    post: StateView,
)
    requires
        reconciled(pre, t, mid),
        reconciled(mid, t, post),
    ensures
        forall|k: KeyView| #[trigger] lookup(post.cells, k) == lookup(mid.cells, k),
        post.focused == mid.focused,
        post.floating == mid.floating,
        post.ruled_float == mid.ruled_float,
        post.last_topology == mid.last_topology,
        post.default_layout == mid.default_layout,
        post.params == mid.params,
        post.behavior == mid.behavior,
        post.tiling_enabled == mid.tiling_enabled,
        post.rules == mid.rules,
        post.key_overrides == mid.key_overrides,
{
    let b = pre.behavior;
    assert forall|k: KeyView| #[trigger] lookup(post.cells, k) == lookup(mid.cells, k) by {
        if has_key(mid.cells, k) {
            assert(key_present(t, b, k));
            assert(has_key(post.cells, k));
            lemma_lookup_reconciled(pre, t, mid, k);
            lemma_lookup_reconciled(mid, t, post, k);
            let present = present_in(t, b, t.windows, k);
            match lookup(pre.cells, k) {
                Some(old) => lemma_merged_idempotent(old.windows, present),
                None => lemma_merged_idempotent(Seq::empty(), present),
            }
        } else {
            assert(!key_present(t, b, k));
            assert(!has_key(post.cells, k));
        }
    }
    if let Some(f) = mid.focused {
        assert(held(mid.cells, f));
        let i = choose|i: int| 0 <= i < mid.cells.len() && holds(#[trigger] mid.cells[i].1.windows, f);
        let k = mid.cells[i].0;
        assert(has_key(mid.cells, k));
        lemma_lookup_reconciled(pre, t, mid, k);
        assert(mid.cells[i].1 == reconciled_cell(pre, t, k));
        assert(key_present(t, b, k));
        assert(has_key(post.cells, k));
        let j = choose|j: int| 0 <= j < post.cells.len() && #[trigger] post.cells[j].0 == k;
        assert(post.cells[j].1 == reconciled_cell(mid, t, k));
        let present = present_in(t, b, t.windows, k);
        match lookup(pre.cells, k) {
            Some(old) => lemma_merged_idempotent(old.windows, present),
            None => lemma_merged_idempotent(Seq::empty(), present),
        }
        assert(post.cells[j].1.windows == mid.cells[i].1.windows);
        assert(holds(post.cells[j].1.windows, f));
        assert(held(post.cells, f));
    }
    lemma_keep_in_idempotent(pre.floating, topology_ids(t));
}

/// Two cell lists without repeated keys that have the same keys have the
/// same length.
proof fn lemma_same_keys_same_len(a: Seq<(KeyView, crate::state::CellView)>, b: Seq<(KeyView, crate::state::CellView)>)
    requires
        keys_distinct(a),
        keys_distinct(b),
        forall|k: KeyView| has_key(a, k) <==> has_key(b, k),
    ensures
        a.len() == b.len(),
{
    let ka = Seq::new(a.len(), |i: int| a[i].0);
    let kb = Seq::new(b.len(), |i: int| b[i].0);
    assert(ka.no_duplicates()) by {
        assert forall|i: int, j: int| 0 <= i < ka.len() && 0 <= j < ka.len() && i != j implies ka[i]
            != ka[j] by {
            assert(a[i].0 != a[j].0);
        }
    }
    assert(kb.no_duplicates()) by {
        assert forall|i: int, j: int| 0 <= i < kb.len() && 0 <= j < kb.len() && i != j implies kb[i]
            != kb[j] by {
            assert(b[i].0 != b[j].0);
        }
    }
    ka.unique_seq_to_set();
    kb.unique_seq_to_set();
    assert forall|k: KeyView| ka.to_set().contains(k) <==> kb.to_set().contains(k) by {
        if ka.to_set().contains(k) {
            let i = choose|i: int| 0 <= i < ka.len() && ka[i] == k;
            assert(a[i].0 == k);
            assert(has_key(a, k));
            let j = choose|j: int| 0 <= j < b.len() && #[trigger] b[j].0 == k;
            assert(kb[j] == k);
        }
        if kb.to_set().contains(k) {
            let j = choose|j: int| 0 <= j < kb.len() && kb[j] == k;
            assert(b[j].0 == k);
            assert(has_key(b, k));
            let i = choose|i: int| 0 <= i < a.len() && #[trigger] a[i].0 == k;
            assert(ka[i] == k);
        }
    }
    assert(ka.to_set() =~= kb.to_set());
}

/// A reconcile keeps the layout of every cell that already existed, whatever
/// windows came or went; only a cell newly materialized takes the default
/// layout.
pub proof fn lemma_reconcile_keeps_layouts(pre: StateView, t: TopologyView, post: StateView)
    requires
        reconciled(pre, t, post),
        keys_distinct(pre.cells),
    ensures
        forall|i: int, j: int|
            0 <= i < post.cells.len() && 0 <= j < pre.cells.len() && #[trigger] post.cells[i].0
                == #[trigger] pre.cells[j].0 ==> post.cells[i].1.layout == pre.cells[j].1.layout,
        forall|i: int|
            0 <= i < post.cells.len() && !has_key(pre.cells, #[trigger] post.cells[i].0)
                ==> post.cells[i].1.layout == pre.default_layout,
{
    assert forall|i: int, j: int|
        0 <= i < post.cells.len() && 0 <= j < pre.cells.len() && #[trigger] post.cells[i].0
            == #[trigger] pre.cells[j].0 implies post.cells[i].1.layout == pre.cells[j].1.layout by {
        lemma_lookup_at(pre.cells, j);
        assert(post.cells[i].1 == reconciled_cell(pre, t, post.cells[i].0));
    }
    assert forall|i: int|
        0 <= i < post.cells.len() && !has_key(pre.cells, #[trigger] post.cells[i].0) implies post.cells[i].1.layout
            == pre.default_layout by {
        assert(post.cells[i].1 == reconciled_cell(pre, t, post.cells[i].0));
    }
}

/// Removing cell `i` takes its windows off the total.
proof fn lemma_total_remove(cells: Seq<(KeyView, CellView)>, i: int)
    requires
        0 <= i < cells.len(),
    ensures
        total_windows(cells.remove(i)) + cells[i].1.windows.len() == total_windows(cells),
    decreases cells.len(),
{
    let r = cells.remove(i);
    if i == cells.len() - 1 {
        assert(r =~= cells.drop_last());
    } else {
        lemma_total_remove(cells.drop_last(), i);
        assert(r.drop_last() =~= cells.drop_last().remove(i));
        assert(r.last() == cells.last());
    }
}

/// With distinct keys, each key finds its own cell.
proof fn lemma_lookup_at(cells: Seq<(KeyView, CellView)>, i: int)
    requires
        keys_distinct(cells),
        0 <= i < cells.len(),
    ensures
        lookup(cells, cells[i].0) == Some(cells[i].1),
{
    assert(has_key(cells, cells[i].0));
}

/// Two cell lists with distinct keys in which every key finds the same cell
/// have as many cells and as many window entries.
proof fn lemma_same_cells_count(a: Seq<(KeyView, CellView)>, b: Seq<(KeyView, CellView)>)
    requires
        keys_distinct(a),
        keys_distinct(b),
        forall|k: KeyView| #[trigger] lookup(a, k) == lookup(b, k),
    ensures
        a.len() == b.len(),
        total_windows(a) == total_windows(b),
    decreases a.len(),
{
    if a.len() == 0 {
        if b.len() > 0 {
            lemma_lookup_at(b, 0);
            assert(lookup(a, b[0].0) is None);
        }
    } else {
        let n = a.len() - 1;
        let k = a[n].0;
        lemma_lookup_at(a, n);
        assert(lookup(b, k) == Some(a[n].1));
        assert(has_key(b, k));
        let idx = choose|j: int| 0 <= j < b.len() && #[trigger] b[j].0 == k;
        lemma_lookup_at(b, idx);
        let a2 = a.drop_last();
        let b2 = b.remove(idx);
        assert forall|i: int, j: int|
            0 <= i < a2.len() && 0 <= j < a2.len() && i != j implies #[trigger] a2[i].0
            != #[trigger] a2[j].0 by {
            assert(a2[i] == a[i] && a2[j] == a[j]);
        }
        assert forall|i: int, j: int|
            0 <= i < b2.len() && 0 <= j < b2.len() && i != j implies #[trigger] b2[i].0
            != #[trigger] b2[j].0 by {
            let oi = if i < idx { i } else { i + 1 };
            let oj = if j < idx { j } else { j + 1 };
            assert(b2[i] == b[oi] && b2[j] == b[oj]);
        }
        assert forall|k2: KeyView| #[trigger] lookup(a2, k2) == lookup(b2, k2) by {
            if k2 == k {
                if has_key(a2, k2) {
                    let i = choose|i: int| 0 <= i < a2.len() && #[trigger] a2[i].0 == k2;
                    assert(a[i].0 == a[n].0);
                }
                if has_key(b2, k2) {
                    let j = choose|j: int| 0 <= j < b2.len() && #[trigger] b2[j].0 == k2;
                    let oj = if j < idx { j } else { j + 1 };
                    assert(b[oj].0 == b[idx].0);
                }
            } else if has_key(a2, k2) {
                let i = choose|i: int| 0 <= i < a2.len() && #[trigger] a2[i].0 == k2;
                assert(a[i] == a2[i]);
                lemma_lookup_at(a, i);
                lemma_lookup_at(a2, i);
                assert(has_key(b, k2));
                let j = choose|j: int| 0 <= j < b.len() && #[trigger] b[j].0 == k2;
                lemma_lookup_at(b, j);
                let j2 = if j < idx { j } else { j - 1 };
                assert(b2[j2] == b[j]);
                lemma_lookup_at(b2, j2);
            } else {
                if has_key(a, k2) {
                    let i = choose|i: int| 0 <= i < a.len() && #[trigger] a[i].0 == k2;
                    assert(a2[i] == a[i]);
                }
                assert(lookup(a, k2) is None);
                if has_key(b2, k2) {
                    let j = choose|j: int| 0 <= j < b2.len() && #[trigger] b2[j].0 == k2;
                    let oj = if j < idx { j } else { j + 1 };
                    assert(b2[j] == b[oj]);
                    lemma_lookup_at(b, oj);
                }
            }
        }
        lemma_same_cells_count(a2, b2);
        lemma_total_remove(b, idx);
        assert(a2.push(a[n]) =~= a);
        assert(total_windows(a) == total_windows(a2) + a[n].1.windows.len());
    }
}

/// Reconciling twice against the same topology reports the same counts
/// both times.
pub proof fn lemma_reconcile_reports_repeat(
    pre: StateView,
    t: TopologyView,
    mid: StateView,
    post: StateView,
)
    requires
        reconciled(pre, t, mid),
        reconciled(mid, t, post),
        keys_distinct(mid.cells),
        keys_distinct(post.cells),
    ensures
        report_of(post.cells) == report_of(mid.cells),
{
    lemma_reconcile_idempotent(pre, t, mid, post);
    lemma_same_cells_count(post.cells, mid.cells);
}

/// Right after a reconcile, a reset rebuilds the same cells holding the same
/// windows (each cell's order restarts from the topology and its layout from
/// the default), and keeps the focus and the floating marks.
pub proof fn lemma_reset_after_reconcile(
    pre: StateView,
    t: TopologyView,
    mid: StateView,
    post: StateView,
)
    requires
        reconciled(pre, t, mid),
        reconciled(reset_base(mid), mid.last_topology, post),
        keys_distinct(mid.cells),
        keys_distinct(post.cells),
    ensures
        post.cells.len() == mid.cells.len(),
        forall|k: KeyView| #[trigger] has_key(post.cells, k) <==> has_key(mid.cells, k),
        forall|k: KeyView, w: Seq<char>|
            has_key(mid.cells, k) ==> (#[trigger] holds(lookup(post.cells, k)->0.windows, w)
                <==> holds(lookup(mid.cells, k)->0.windows, w)),
        post.focused == mid.focused,
        post.floating == mid.floating,
        post.ruled_float == mid.ruled_float,
{
    let b = pre.behavior;
    let base = reset_base(mid);
    assert forall|k: KeyView| #[trigger] has_key(post.cells, k) <==> has_key(mid.cells, k) by {
        assert(has_key(post.cells, k) <==> key_present(t, b, k));
        assert(has_key(mid.cells, k) <==> key_present(t, b, k));
    }
    lemma_same_keys_same_len(post.cells, mid.cells);
    assert forall|k: KeyView, w: Seq<char>|
        has_key(mid.cells, k) implies (#[trigger] holds(lookup(post.cells, k)->0.windows, w)
        <==> holds(lookup(mid.cells, k)->0.windows, w)) by {
        lemma_lookup_reconciled(pre, t, mid, k);
        lemma_lookup_reconciled(base, t, post, k);
        let present = present_in(t, b, t.windows, k);
        assert(!has_key(base.cells, k));
        lemma_merged_holds(Seq::empty(), present, w);
        match lookup(pre.cells, k) {
            Some(old) => lemma_merged_holds(old.windows, present, w),
            None => lemma_merged_holds(Seq::empty(), present, w),
        }
    }
    if let Some(f) = mid.focused {
        assert(held(mid.cells, f));
        let i = choose|i: int| 0 <= i < mid.cells.len() && holds(#[trigger] mid.cells[i].1.windows, f);
        let k = mid.cells[i].0;
        assert(has_key(mid.cells, k));
        lemma_lookup_reconciled(pre, t, mid, k);
        assert(holds(lookup(mid.cells, k)->0.windows, f));
        assert(holds(lookup(post.cells, k)->0.windows, f));
        assert(has_key(post.cells, k));
        let c = choose|c: int| 0 <= c < post.cells.len() && #[trigger] post.cells[c].0 == k;
        assert(holds(post.cells[c].1.windows, f));
        assert(held(post.cells, f));
    }
    lemma_keep_in_idempotent(pre.floating, topology_ids(t));
}

// ---------------------------------------------------------------------------
// Controls
// ---------------------------------------------------------------------------

proof fn lemma_without_holds(ws: Seq<Seq<char>>, x: Seq<char>, y: Seq<char>)
    ensures
        holds(without(ws, x), y) <==> (holds(ws, y) && y != x),
    decreases ws.len(),
{
    if ws.len() > 0 {
        let d = ws.drop_last();
        let p = without(d, x);
        lemma_without_holds(d, x, y);
        if holds(ws, y) {
            let i = choose|i: int| 0 <= i < ws.len() && ws[i] == y;
            if i < d.len() {
                assert(d[i] == y);
            }
        }
        if holds(d, y) {
            let i = choose|i: int| 0 <= i < d.len() && d[i] == y;
            assert(ws[i] == y);
        }
        if ws.last() != x {
            if holds(p.push(ws.last()), y) {
                let i = choose|i: int| 0 <= i < p.push(ws.last()).len() && p.push(ws.last())[i] == y;
                if i < p.len() {
                    assert(p[i] == y);
                } else {
                    assert(ws[ws.len() - 1] == y);
                }
            }
            if holds(p, y) {
                let i = choose|i: int| 0 <= i < p.len() && p[i] == y;
                assert(p.push(ws.last())[i] == y);
            }
            if y == ws.last() {
                assert(p.push(ws.last())[p.len() as int] == y);
            }
        }
    }
}

proof fn lemma_push_holds(ws: Seq<Seq<char>>, x: Seq<char>, y: Seq<char>)
    ensures
        holds(ws.push(x), y) <==> (holds(ws, y) || y == x),
{
    if holds(ws.push(x), y) {
        let i = choose|i: int| 0 <= i < ws.push(x).len() && ws.push(x)[i] == y;
        if i < ws.len() {
            assert(ws[i] == y);
        }
    }
    if holds(ws, y) {
        let i = choose|i: int| 0 <= i < ws.len() && ws[i] == y;
        assert(ws.push(x)[i] == y);
    }
    if y == x {
        assert(ws.push(x)[ws.len() as int] == y);
    }
}

/// Toggling auto-tiling twice restores it.
pub proof fn lemma_toggle_tiling_twice(s: StateView)
    ensures
        tiling_toggled(tiling_toggled(s)) == s,
{
}

/// Toggling the float of the same window twice leaves the same windows
/// floated as before (the second toggle reports the opposite state), and
/// touches nothing else.
pub proof fn lemma_toggle_float_twice(
    pre: StateView,
    window: Option<Seq<char>>,
    mid: StateView,
    post: StateView,
    first: Option<bool>,
    second: Option<bool>,
)
    requires
        float_toggled(pre, window, mid, first),
        float_toggled(mid, window, post, second),
    ensures
        forall|w: Seq<char>| #[trigger] holds(post.floating, w) == holds(pre.floating, w),
        post == (StateView { floating: post.floating, ..pre }),
        first matches Some(b) ==> second == Some(!b),
        first is None ==> second is None,
{
    let target = match window {
        Some(w) => Some(w),
        None => pre.focused,
    };
    if let Some(t) = target {
        if holds(pre.floating, t) {
            lemma_without_holds(pre.floating, t, t);
            assert forall|w: Seq<char>| #[trigger] holds(post.floating, w) == holds(pre.floating, w) by {
                lemma_without_holds(pre.floating, t, w);
                lemma_push_holds(mid.floating, t, w);
            }
        } else {
            lemma_push_holds(pre.floating, t, t);
            assert forall|w: Seq<char>| #[trigger] holds(post.floating, w) == holds(pre.floating, w) by {
                lemma_push_holds(pre.floating, t, w);
                lemma_without_holds(mid.floating, t, w);
            }
        }
    }
}

/// The master ratio never leaves 5%..=95%, whatever the adjustment.
pub proof fn lemma_ratio_stays_in_bounds(s: StateView, delta: int)
    ensures
        MIN_MASTER_RATIO <= ratio_adjusted(s, delta).params.master_ratio <= MAX_MASTER_RATIO,
{
}

/// An adjustment of the master ratio that stays clear of the bounds is
/// undone by the opposite adjustment.
pub proof fn lemma_ratio_adjust_undone(s: StateView, delta: int)
    requires
        MIN_MASTER_RATIO <= s.params.master_ratio <= MAX_MASTER_RATIO,
        MIN_MASTER_RATIO <= s.params.master_ratio + delta <= MAX_MASTER_RATIO,
    ensures
        ratio_adjusted(ratio_adjusted(s, delta), -delta) == s,
{
    assert(ratio_adjusted(ratio_adjusted(s, delta), -delta).params == s.params);
}

/// A resize to the left is undone by one to the right, away from the
/// ratio's lower bound.
pub proof fn lemma_resize_undone(s: StateView)
    requires
        MIN_MASTER_RATIO <= s.params.master_ratio - RESIZE_STEP,
        s.params.master_ratio <= MAX_MASTER_RATIO,
    ensures
        resized(resized(s, Direction::Left), Direction::Right) == s,
{
    lemma_ratio_adjust_undone(s, -RESIZE_STEP);
}

/// The master count never drops below one.
pub proof fn lemma_master_count_at_least_one(s: StateView, delta: int)
    ensures
        count_adjusted(s, delta).params.master_count >= 1,
{
}

/// An adjustment of the master count that stays at one or more is undone
/// by the opposite adjustment.
pub proof fn lemma_master_count_adjust_undone(s: StateView, delta: int)
    requires
        s.params.master_count >= 1,
        1 <= s.params.master_count + delta <= usize::MAX,
    ensures
        count_adjusted(count_adjusted(s, delta), -delta) == s,
{
    assert(count_adjusted(count_adjusted(s, delta), -delta).params == s.params);
}

// ---------------------------------------------------------------------------
// Geometry
// ---------------------------------------------------------------------------

proof fn lemma_tiled_from(ws: Seq<Seq<char>>, f: Seq<Seq<char>>, r: Seq<Seq<char>>, x: Seq<char>)
    requires
        holds(tiled_of(ws, f, r), x),
    ensures
        !holds(f, x),
        !holds(r, x),
    decreases ws.len(),
{
    let p = tiled_of(ws.drop_last(), f, r);
    let l = ws.last();
    if !holds(f, l) && !holds(r, l) {
        lemma_push_holds(p, l, x);
        if x != l {
            lemma_tiled_from(ws.drop_last(), f, r, x);
        }
    } else {
        lemma_tiled_from(ws.drop_last(), f, r, x);
    }
}

proof fn lemma_placements_tiled(s: StateView, n: int)
    requires
        0 <= n <= s.cells.len(),
    ensures
        forall|i: int|
            0 <= i < placements(s, n).len() ==> {
                let id = (#[trigger] placements(s, n)[i]).0;
                !holds(s.floating, id) && !holds(s.ruled_float, id)
            },
    decreases n,
{
    if n > 0 {
        lemma_placements_tiled(s, n - 1);
        let a = placements(s, n - 1);
        let c = s.cells[n - 1];
        let b = cell_placements(s, c);
        let ids = tiled_of(c.1.windows, s.floating, s.ruled_float);
        assert(placements(s, n) == a + b);
        assert forall|i: int| 0 <= i < (a + b).len() implies {
            let id = (#[trigger] (a + b)[i]).0;
            !holds(s.floating, id) && !holds(s.ruled_float, id)
        } by {
            if i < a.len() {
                assert((a + b)[i] == a[i]);
            } else {
                let j = i - a.len();
                assert((a + b)[i] == b[j]);
                assert(b[j].0 == ids[j]);
                assert(holds(ids, ids[j]));
                lemma_tiled_from(c.1.windows, s.floating, s.ruled_float, ids[j]);
            }
        }
    }
}

proof fn lemma_placed_from(pl: Seq<(Seq<char>, Rect)>, id: Seq<char>)
    requires
        placed_rect(pl, id) is Some,
    ensures
        exists|i: int| 0 <= i < pl.len() && #[trigger] pl[i].0 == id,
    decreases pl.len(),
{
    if pl.last().0 == id {
        assert(pl[pl.len() - 1].0 == id);
    } else {
        lemma_placed_from(pl.drop_last(), id);
        let i = choose|i: int| 0 <= i < pl.drop_last().len() && #[trigger] pl.drop_last()[i].0 == id;
        assert(pl[i].0 == id);
    }
}

proof fn lemma_geometry_in_from(pl: Seq<(Seq<char>, Rect)>, ws: Seq<Window>)
    ensures
        forall|i: int|
            0 <= i < geometry_in(pl, ws).len() ==> {
                let id = (#[trigger] geometry_in(pl, ws)[i]).0;
                &&& placed_rect(pl, id) is Some
                &&& exists|j: int| 0 <= j < ws.len() && #[trigger] ws[j].id@ == id
            },
    decreases ws.len(),
{
    if ws.len() > 0 {
        let d = ws.drop_last();
        lemma_geometry_in_from(pl, d);
        let p = geometry_in(pl, d);
        let g = geometry_in(pl, ws);
        assert forall|i: int| 0 <= i < g.len() implies {
            let id = (#[trigger] g[i]).0;
            &&& placed_rect(pl, id) is Some
            &&& exists|j: int| 0 <= j < ws.len() && #[trigger] ws[j].id@ == id
        } by {
            if i < p.len() {
                assert(g[i] == p[i]);
                let j = choose|j: int| 0 <= j < d.len() && #[trigger] d[j].id@ == p[i].0;
                assert(ws[j] == d[j]);
            } else {
                assert(g[i].0 == ws.last().id@);
                assert(ws[ws.len() - 1].id@ == g[i].0);
            }
        }
    }
}

/// A window of a list survives the float filter exactly when neither the user
/// nor a rule floated it.
proof fn lemma_tiled_holds(ws: Seq<Seq<char>>, f: Seq<Seq<char>>, r: Seq<Seq<char>>, x: Seq<char>)
    ensures
        holds(tiled_of(ws, f, r), x) <==> (holds(ws, x) && !holds(f, x) && !holds(r, x)),
    decreases ws.len(),
{
    if ws.len() > 0 {
        let d = ws.drop_last();
        let l = ws.last();
        lemma_tiled_holds(d, f, r, x);
        lemma_push_holds(d, l, x);
        assert(d.push(l) =~= ws);
        if !holds(f, l) && !holds(r, l) {
            lemma_push_holds(tiled_of(d, f, r), l, x);
        }
    }
}

proof fn lemma_tiled_distinct(ws: Seq<Seq<char>>, f: Seq<Seq<char>>, r: Seq<Seq<char>>)
    requires
        ws.no_duplicates(),
    ensures
        tiled_of(ws, f, r).no_duplicates(),
    decreases ws.len(),
{
    if ws.len() > 0 {
        let d = ws.drop_last();
        let l = ws.last();
        assert forall|i: int, j: int| 0 <= i < d.len() && 0 <= j < d.len() && i != j implies d[i]
            != d[j] by {
            assert(d[i] == ws[i] && d[j] == ws[j]);
        }
        lemma_tiled_distinct(d, f, r);
        if !holds(f, l) && !holds(r, l) {
            lemma_tiled_holds(d, f, r, l);
            if holds(d, l) {
                let i = choose|i: int| 0 <= i < d.len() && d[i] == l;
                assert(ws[i] == ws[ws.len() - 1]);
            }
            lemma_push_distinct(tiled_of(d, f, r), l);
        }
    }
}

proof fn lemma_spiral_len(i: nat, n: nat, area: Rect, p: crate::layout::LayoutParams)
    requires
        i <= n,
    ensures
        layout::spiral_from(i, n, area, p).len() == n - i,
    decreases n - i,
{
    if i + 1 < n {
        if i % 2 == 0 {
            let (h, rest) = layout::split_columns_spec(area, p.master_ratio as int, p.gaps_inner as int);
            lemma_spiral_len(i + 1, n, rest, p);
        } else {
            let (h, rest) = layout::split_rows_spec(area, p.master_ratio as int, p.gaps_inner as int);
            lemma_spiral_len(i + 1, n, rest, p);
        }
    }
}

/// Every layout but floating gives each of the `n` windows a rectangle.
proof fn lemma_layout_len(kind: LayoutKind, n: nat, inner: Rect, p: crate::layout::LayoutParams)
    requires
        kind != LayoutKind::Floating,
    ensures
        layout::layout_rects(kind, n, inner, p).len() == n,
{
    if kind == LayoutKind::Spiral {
        lemma_spiral_len(0, n, inner, p);
    }
}

/// No window is listed twice, within one cell or across cells.
pub open spec fn windows_held_once(cells: Seq<(KeyView, CellView)>) -> bool {
    forall|i: int, j: int, a: int, b: int|
        0 <= i < cells.len() && 0 <= j < cells.len() && 0 <= a < cells[i].1.windows.len() && 0 <= b
            < cells[j].1.windows.len() && (i != j || a != b) ==> #[trigger] cells[i].1.windows[a]
            != #[trigger] cells[j].1.windows[b]
}

/// Cell `ci` lays window `w` out in `r`: the cell holds `w`, which neither
/// the user nor a rule floated, the cell's output is listed, its layout
/// tiles, and `r` is the rectangle `arrange` gives `w` among the cell's tiled
/// windows in that output's rectangle.
pub open spec fn cell_lays_out(s: StateView, ci: int, w: Seq<char>, r: Rect) -> bool {
    let c = s.cells[ci];
    let ts = tiled_of(c.1.windows, s.floating, s.ruled_float);
    &&& 0 <= ci < s.cells.len()
    &&& holds(c.1.windows, w)
    &&& !holds(s.floating, w)
    &&& !holds(s.ruled_float, w)
    &&& c.1.layout != LayoutKind::Floating
    &&& output_area(s.last_topology.outputs, c.0.0) is Some
    &&& exists|k: int|
        0 <= k < ts.len() && #[trigger] ts[k] == w && r == arrange_view(
            c.1.layout,
            ts,
            output_area(s.last_topology.outputs, c.0.0)->0,
            s.params,
        )[k].1
}

/// The geometry of `s` places window `w` in `r`.
pub open spec fn geometry_places(s: StateView, w: Seq<char>, r: Rect) -> bool {
    exists|i: int| 0 <= i < geometry_spec(s).len() && #[trigger] geometry_spec(s)[i] == (w, r)
}

/// The pair `(w, r)` is among the placements of `pl`.
spec fn placed_pair(pl: Seq<(Seq<char>, Rect)>, w: Seq<char>, r: Rect) -> bool {
    exists|m: int| 0 <= m < pl.len() && #[trigger] pl[m] == (w, r)
}

/// An entry of a cell's placements is one of its tiled windows with the
/// rectangle `arrange` gives it, and conversely.
proof fn lemma_cell_placements_pair(s: StateView, ci: int, w: Seq<char>, r: Rect)
    requires
        0 <= ci < s.cells.len(),
    ensures
        placed_pair(cell_placements(s, s.cells[ci]), w, r) <==> cell_lays_out(s, ci, w, r),
{
    let c = s.cells[ci];
    let ts = tiled_of(c.1.windows, s.floating, s.ruled_float);
    let cp = cell_placements(s, c);
    match output_area(s.last_topology.outputs, c.0.0) {
        None => {},
        Some(a) => {
            let inner = layout::inset_spec(a, s.params.gaps_outer as int);
            if c.1.layout != LayoutKind::Floating {
                lemma_layout_len(c.1.layout, ts.len(), inner, s.params);
            }
            if placed_pair(cp, w, r) {
                let m = choose|m: int| 0 <= m < cp.len() && #[trigger] cp[m] == (w, r);
                assert(ts[m] == w);
                assert(holds(ts, w));
                lemma_tiled_holds(c.1.windows, s.floating, s.ruled_float, w);
            }
            if cell_lays_out(s, ci, w, r) {
                let k = choose|k: int|
                    0 <= k < ts.len() && #[trigger] ts[k] == w && r == arrange_view(
                        c.1.layout,
                        ts,
                        a,
                        s.params,
                    )[k].1;
                assert(cp[k] == (w, r));
            }
        },
    }
}

/// An entry of the placements of the first `n` cells comes from one of them.
proof fn lemma_placements_pair(s: StateView, n: int, w: Seq<char>, r: Rect)
    requires
        0 <= n <= s.cells.len(),
    ensures
        placed_pair(placements(s, n), w, r) <==> exists|ci: int|
            0 <= ci < n && #[trigger] placed_pair(cell_placements(s, s.cells[ci]), w, r),
    decreases n,
{
    if n > 0 {
        lemma_placements_pair(s, n - 1, w, r);
        let a = placements(s, n - 1);
        let b = cell_placements(s, s.cells[n - 1]);
        assert(placements(s, n) == a + b);
        if placed_pair(a + b, w, r) {
            let m = choose|m: int| 0 <= m < (a + b).len() && #[trigger] (a + b)[m] == (w, r);
            if m < a.len() {
                assert(a[m] == (w, r));
                assert(placed_pair(a, w, r));
            } else {
                assert(b[m - a.len()] == (w, r));
                assert(placed_pair(b, w, r));
            }
        }
        if exists|ci: int| 0 <= ci < n && #[trigger] placed_pair(cell_placements(s, s.cells[ci]), w, r) {
            let ci = choose|ci: int| 0 <= ci < n && #[trigger] placed_pair(cell_placements(s, s.cells[ci]), w, r);
            if ci < n - 1 {
                let m = choose|m: int| 0 <= m < a.len() && #[trigger] a[m] == (w, r);
                assert((a + b)[m] == (w, r));
            } else {
                let m = choose|m: int| 0 <= m < b.len() && #[trigger] b[m] == (w, r);
                assert((a + b)[a.len() + m] == (w, r));
            }
        }
    }
}

/// Every window in the placements of the first `n` cells is held by one of
/// them, and no window is placed twice when none is held twice.
proof fn lemma_placements_once(s: StateView, n: int)
    requires
        0 <= n <= s.cells.len(),
        windows_held_once(s.cells),
    ensures
        forall|m: int|
            0 <= m < placements(s, n).len() ==> exists|ci: int, a: int|
                0 <= ci < n && 0 <= a < s.cells[ci].1.windows.len() && #[trigger] s.cells[ci].1.windows[a]
                    == (#[trigger] placements(s, n)[m]).0,
        forall|m1: int, m2: int|
            0 <= m1 < placements(s, n).len() && 0 <= m2 < placements(s, n).len() && #[trigger] placements(
                s,
                n,
            )[m1].0 == #[trigger] placements(s, n)[m2].0 ==> m1 == m2,
    decreases n,
{
    if n > 0 {
        lemma_placements_once(s, n - 1);
        let a = placements(s, n - 1);
        let c = s.cells[n - 1];
        let b = cell_placements(s, c);
        let ts = tiled_of(c.1.windows, s.floating, s.ruled_float);
        assert(placements(s, n) == a + b);
        assert(c.1.windows.no_duplicates()) by {
            assert forall|x: int, y: int|
                0 <= x < c.1.windows.len() && 0 <= y < c.1.windows.len() && x != y implies c.1.windows[x]
                != c.1.windows[y] by {
                assert(s.cells[n - 1].1.windows[x] != s.cells[n - 1].1.windows[y]);
            }
        }
        lemma_tiled_distinct(c.1.windows, s.floating, s.ruled_float);
        // Entries of the last cell: its tiled windows, which it holds.
        assert forall|k: int| 0 <= k < b.len() implies b[k].0 == ts[k] && exists|x: int|
            0 <= x < c.1.windows.len() && c.1.windows[x] == #[trigger] b[k].0 by {
            assert(b[k].0 == ts[k]);
            assert(holds(ts, ts[k]));
            lemma_tiled_holds(c.1.windows, s.floating, s.ruled_float, ts[k]);
        }
        let pl = a + b;
        assert forall|m: int| 0 <= m < pl.len() implies exists|ci: int, x: int|
            0 <= ci < n && 0 <= x < s.cells[ci].1.windows.len() && #[trigger] s.cells[ci].1.windows[x]
                == (#[trigger] pl[m]).0 by {
            if m < a.len() {
                assert(pl[m] == a[m]);
                let (ci, x) = choose|ci: int, x: int|
                    0 <= ci < n - 1 && 0 <= x < s.cells[ci].1.windows.len() && #[trigger] s.cells[ci].1.windows[x]
                        == (#[trigger] a[m]).0;
                assert(s.cells[ci].1.windows[x] == pl[m].0);
            } else {
                let k = m - a.len();
                assert(pl[m] == b[k]);
                let x = choose|x: int| 0 <= x < c.1.windows.len() && c.1.windows[x] == #[trigger] b[k].0;
                assert(s.cells[n - 1].1.windows[x] == pl[m].0);
            }
        }
        assert forall|m1: int, m2: int|
            0 <= m1 < pl.len() && 0 <= m2 < pl.len() && #[trigger] pl[m1].0 == #[trigger] pl[m2].0
            implies m1 == m2 by {
            if m1 < a.len() && m2 < a.len() {
                assert(pl[m1] == a[m1] && pl[m2] == a[m2]);
            } else if m1 >= a.len() && m2 >= a.len() {
                assert(pl[m1] == b[m1 - a.len()] && pl[m2] == b[m2 - a.len()]);
                assert(b[m1 - a.len()].0 == ts[m1 - a.len()]);
                assert(b[m2 - a.len()].0 == ts[m2 - a.len()]);
            } else {
                let (ma, mb) = if m1 < a.len() { (m1, m2) } else { (m2, m1) };
                assert(pl[ma] == a[ma]);
                assert(pl[mb] == b[mb - a.len()]);
                let (ci, x) = choose|ci: int, x: int|
                    0 <= ci < n - 1 && 0 <= x < s.cells[ci].1.windows.len() && #[trigger] s.cells[ci].1.windows[x]
                        == (#[trigger] a[ma]).0;
                let y = choose|y: int|
                    0 <= y < c.1.windows.len() && c.1.windows[y] == #[trigger] b[mb - a.len()].0;
                assert(s.cells[ci].1.windows[x] != s.cells[n - 1].1.windows[y]);
            }
        }
    }
}

/// Where no window is placed twice, the rectangle found for `w` is the one
/// it is placed in.
proof fn lemma_placed_rect_pair(pl: Seq<(Seq<char>, Rect)>, w: Seq<char>, r: Rect)
    requires
        forall|m1: int, m2: int|
            0 <= m1 < pl.len() && 0 <= m2 < pl.len() && #[trigger] pl[m1].0 == #[trigger] pl[m2].0
                ==> m1 == m2,
    ensures
        placed_rect(pl, w) == Some(r) <==> placed_pair(pl, w, r),
    decreases pl.len(),
{
    if pl.len() > 0 {
        let d = pl.drop_last();
        assert forall|m1: int, m2: int|
            0 <= m1 < d.len() && 0 <= m2 < d.len() && #[trigger] d[m1].0 == #[trigger] d[m2].0
            implies m1 == m2 by {
            assert(d[m1] == pl[m1] && d[m2] == pl[m2]);
        }
        lemma_placed_rect_pair(d, w, r);
        let l = pl.len() - 1;
        if placed_pair(pl, w, r) {
            let m = choose|m: int| 0 <= m < pl.len() && #[trigger] pl[m] == (w, r);
            if m < l {
                assert(d[m] == (w, r));
                if pl[l].0 == w {
                    assert(pl[m].0 == pl[l].0);
                }
            }
        }
        if placed_pair(d, w, r) {
            let m = choose|m: int| 0 <= m < d.len() && #[trigger] d[m] == (w, r);
            assert(pl[m] == (w, r));
        }
        if pl[l].0 == w {
            assert(pl[l] == (w, pl.last().1));
        }
    }
}

/// The geometry over windows `ws` holds `(w, r)` exactly when `w` is one of
/// them and `r` is the rectangle found for it.
proof fn lemma_geometry_in_pair(pl: Seq<(Seq<char>, Rect)>, ws: Seq<Window>, w: Seq<char>, r: Rect)
    ensures
        (exists|i: int| 0 <= i < geometry_in(pl, ws).len() && #[trigger] geometry_in(pl, ws)[i] == (w, r))
            <==> ((exists|j: int| 0 <= j < ws.len() && #[trigger] ws[j].id@ == w) && placed_rect(pl, w)
            == Some(r)),
    decreases ws.len(),
{
    if ws.len() > 0 {
        let d = ws.drop_last();
        lemma_geometry_in_pair(pl, d, w, r);
        let p = geometry_in(pl, d);
        let g = geometry_in(pl, ws);
        let l = ws.last();
        if exists|i: int| 0 <= i < g.len() && #[trigger] g[i] == (w, r) {
            let i = choose|i: int| 0 <= i < g.len() && #[trigger] g[i] == (w, r);
            if i < p.len() {
                assert(g[i] == p[i]);
                let j = choose|j: int| 0 <= j < d.len() && #[trigger] d[j].id@ == w;
                assert(ws[j] == d[j]);
            } else {
                assert(ws[ws.len() - 1].id@ == w);
            }
        }
        if (exists|j: int| 0 <= j < ws.len() && #[trigger] ws[j].id@ == w) && placed_rect(pl, w) == Some(r) {
            if l.id@ == w {
                assert(g[g.len() - 1] == (w, r));
            } else {
                let j = choose|j: int| 0 <= j < ws.len() && #[trigger] ws[j].id@ == w;
                assert(j < d.len());
                assert(d[j] == ws[j]);
                let i = choose|i: int| 0 <= i < p.len() && #[trigger] p[i] == (w, r);
                assert(g[i] == p[i]);
            }
        }
    }
}

/// Positions in `ws` of the entries of the geometry over `ws`, increasing.
proof fn lemma_geometry_in_order(pl: Seq<(Seq<char>, Rect)>, ws: Seq<Window>) -> (idx: Seq<int>)
    ensures
        idx.len() == geometry_in(pl, ws).len(),
        forall|i: int|
            0 <= i < idx.len() ==> 0 <= #[trigger] idx[i] < ws.len() && ws[idx[i]].id@ == geometry_in(
                pl,
                ws,
            )[i].0,
        forall|i: int, j: int| 0 <= i < j < idx.len() ==> #[trigger] idx[i] < #[trigger] idx[j],
    decreases ws.len(),
{
    if ws.len() == 0 {
        Seq::empty()
    } else {
        let d = ws.drop_last();
        let pidx = lemma_geometry_in_order(pl, d);
        let p = geometry_in(pl, d);
        let g = geometry_in(pl, ws);
        assert forall|i: int| 0 <= i < pidx.len() implies ws[pidx[i]] == d[pidx[i]] by {}
        match placed_rect(pl, ws.last().id@) {
            Some(r) => {
                let idx = pidx.push(ws.len() - 1);
                assert forall|i: int| 0 <= i < idx.len() implies 0 <= #[trigger] idx[i] < ws.len()
                    && ws[idx[i]].id@ == g[i].0 by {
                    if i < pidx.len() {
                        assert(idx[i] == pidx[i]);
                        assert(g[i] == p[i]);
                    }
                }
                assert forall|i: int, j: int| 0 <= i < j < idx.len() implies #[trigger] idx[i]
                    < #[trigger] idx[j] by {
                    if j < pidx.len() {
                        assert(idx[i] == pidx[i] && idx[j] == pidx[j]);
                    } else {
                        assert(idx[i] == pidx[i]);
                    }
                }
                idx
            },
            None => {
                assert forall|i: int| 0 <= i < pidx.len() implies 0 <= #[trigger] pidx[i] < ws.len()
                    && ws[pidx[i]].id@ == g[i].0 by {}
                pidx
            },
        }
    }
}

/// `idx` gives, increasing, the topology position of each geometry entry.
pub open spec fn topology_positions(s: StateView, idx: Seq<int>) -> bool {
    &&& idx.len() == geometry_spec(s).len()
    &&& forall|i: int|
        0 <= i < idx.len() ==> 0 <= #[trigger] idx[i] < s.last_topology.windows.len()
            && s.last_topology.windows[idx[i]].id@ == geometry_spec(s)[i].0
    &&& forall|i: int, j: int| 0 <= i < j < idx.len() ==> #[trigger] idx[i] < #[trigger] idx[j]
}

/// The geometry lists its windows in topology order: each entry is the
/// window at some position of the topology, later than the entry before.
pub proof fn lemma_geometry_in_topology_order(s: StateView)
    ensures
        exists|idx: Seq<int>| #[trigger] topology_positions(s, idx),
{
    if s.tiling_enabled {
        let idx = lemma_geometry_in_order(
            placements(s, s.cells.len() as int),
            s.last_topology.windows,
        );
        assert(topology_positions(s, idx));
    } else {
        assert(topology_positions(s, Seq::<int>::empty()));
    }
}

/// With tiling on and no window held twice, the geometry places a window in
/// a rectangle exactly when it is a topology window that some cell lays out
/// there: a cell that holds it, whose output is listed and whose layout
/// tiles, with the window neither floated nor rule-floated, and the
/// rectangle the one `arrange` gives it in that output.
pub proof fn lemma_geometry_law(s: StateView)
    requires
        s.tiling_enabled,
        windows_held_once(s.cells),
    ensures
        forall|w: Seq<char>, r: Rect| #[trigger] geometry_places(s, w, r) <==> (
        (exists|j: int|
            0 <= j < s.last_topology.windows.len() && #[trigger] s.last_topology.windows[j].id@ == w)
            && exists|ci: int| #[trigger] cell_lays_out(s, ci, w, r)),
{
    let n = s.cells.len() as int;
    let pl = placements(s, n);
    lemma_placements_once(s, n);
    assert forall|w: Seq<char>, r: Rect| #[trigger] geometry_places(s, w, r) <==> (
    (exists|j: int|
        0 <= j < s.last_topology.windows.len() && #[trigger] s.last_topology.windows[j].id@ == w)
        && exists|ci: int| #[trigger] cell_lays_out(s, ci, w, r)) by {
        let g = geometry_spec(s);
        assert(g == geometry_in(pl, s.last_topology.windows));
        lemma_geometry_in_pair(pl, s.last_topology.windows, w, r);
        if geometry_places(s, w, r) {
            let i = choose|i: int| 0 <= i < g.len() && #[trigger] g[i] == (w, r);
            assert(geometry_in(pl, s.last_topology.windows)[i] == (w, r));
        }
        if (exists|i: int|
            0 <= i < geometry_in(pl, s.last_topology.windows).len() && #[trigger] geometry_in(
                pl,
                s.last_topology.windows,
            )[i] == (w, r)) {
            let i = choose|i: int|
                0 <= i < geometry_in(pl, s.last_topology.windows).len() && #[trigger] geometry_in(
                    pl,
                    s.last_topology.windows,
                )[i] == (w, r);
            assert(g[i] == (w, r));
        }
        lemma_placed_rect_pair(pl, w, r);
        lemma_placements_pair(s, n, w, r);
        if exists|ci: int| #[trigger] cell_lays_out(s, ci, w, r) {
            let ci = choose|ci: int| #[trigger] cell_lays_out(s, ci, w, r);
            lemma_cell_placements_pair(s, ci, w, r);
        }
        if exists|ci: int| 0 <= ci < n && #[trigger] placed_pair(cell_placements(s, s.cells[ci]), w, r) {
            let ci = choose|ci: int| 0 <= ci < n && #[trigger] placed_pair(cell_placements(s, s.cells[ci]), w, r);
            lemma_cell_placements_pair(s, ci, w, r);
        }
    }
}

/// Geometry places only windows of the topology that are neither floated by
/// the user nor matched by a float rule, and none at all with tiling off.
pub proof fn lemma_geometry_places_tiled_windows(s: StateView)
    ensures
        !s.tiling_enabled ==> geometry_spec(s).len() == 0,
        forall|i: int|
            0 <= i < geometry_spec(s).len() ==> {
                let id = (#[trigger] geometry_spec(s)[i]).0;
                &&& exists|j: int|
                    0 <= j < s.last_topology.windows.len() && #[trigger] s.last_topology.windows[j].id@
                        == id
                &&& !holds(s.floating, id)
                &&& !holds(s.ruled_float, id)
            },
{
    if s.tiling_enabled {
        let pl = placements(s, s.cells.len() as int);
        lemma_placements_tiled(s, s.cells.len() as int);
        lemma_geometry_in_from(pl, s.last_topology.windows);
        let g = geometry_spec(s);
        assert forall|i: int| 0 <= i < g.len() implies {
            let id = (#[trigger] g[i]).0;
            &&& exists|j: int|
                0 <= j < s.last_topology.windows.len() && #[trigger] s.last_topology.windows[j].id@
                    == id
            &&& !holds(s.floating, id)
            &&& !holds(s.ruled_float, id)
        } by {
            let id = g[i].0;
            lemma_placed_from(pl, id);
            let k = choose|k: int| 0 <= k < pl.len() && #[trigger] pl[k].0 == id;
            assert(!holds(s.floating, pl[k].0));
        }
    }
}

// ---------------------------------------------------------------------------
// Window counts
// ---------------------------------------------------------------------------

/// A move never changes how many window entries the cells hold, nor the
/// focus, where no cell lists a window twice.
#[verifier::rlimit(40)]
pub proof fn lemma_move_keeps_window_count(
    pre: StateView,
    dir: Direction,
    post: StateView,
    r: MoveOutcome,
)
    requires
        move_spec(pre, dir, post, r),
        forall|i: int| 0 <= i < pre.cells.len() ==> (#[trigger] pre.cells[i]).1.windows.no_duplicates(),
    ensures
        total_windows(post.cells) == total_windows(pre.cells),
        report_of(post.cells).windows == report_of(pre.cells).windows,
        post.focused == pre.focused,
{
    match pre.focused {
        None => {
            assert(post == pre);
        },
        Some(f) => {
            if !held(pre.cells, f) {
                assert(post == pre);
            } else {
                let ci = choose|ci: int|
                    first_holding(pre.cells, f, ci) && move_from_cell(pre, f, ci, dir, post, r);
                let cell = pre.cells[ci];
                let local = local_of(geometry_spec(pre), cell.1.windows);
                assert(cell.1.windows.no_duplicates());
                if exists|nb: Seq<char>| #[trigger] layout::neighbor_spec(local, f, dir, Some(nb)) {
                    let (nb, a, b) = choose|nb: Seq<char>, a: int, b: int|
                        #![trigger layout::neighbor_spec(local, f, dir, Some(nb)), first_at(cell.1.windows, f, a), first_at(cell.1.windows, nb, b)]
                        layout::neighbor_spec(local, f, dir, Some(nb)) && first_at(cell.1.windows, f, a)
                            && first_at(cell.1.windows, nb, b) && r == MoveOutcome::Swapped && post
                            == with_cell_windows(
                            pre,
                            ci,
                            cell.1.windows.update(a, nb).update(b, f),
                        );
                    lemma_swap_count(pre, ci, cell.1.windows.update(a, nb).update(b, f));
                } else if exists|t: Seq<char>|
                    #[trigger] layout::neighbor_spec(
                        outputs_view(pre.last_topology.outputs),
                        cell.0.0,
                        dir,
                        Some(t),
                    ) {
                    let t = choose|t: Seq<char>|
                        #[trigger] layout::neighbor_spec(
                            outputs_view(pre.last_topology.outputs),
                            cell.0.0,
                            dir,
                            Some(t),
                        ) && r == MoveOutcome::CrossedOutput && post == (StateView {
                            cells: relocated(
                                pre.cells,
                                ci,
                                f,
                                (t, cell.0.1, cell.0.2),
                                pre.default_layout,
                            ),
                            ..pre
                        });
                    lemma_relocate_count(pre.cells, ci, f, (t, cell.0.1, cell.0.2), pre.default_layout);
                } else {
                    assert(post == pre);
                }
            }
        },
    }
}

// ---------------------------------------------------------------------------
// Runtime controls
// ---------------------------------------------------------------------------

/// `i` is the first cell holding the focused window of `s`.
pub open spec fn holds_focus_first(s: StateView, i: int) -> bool {
    &&& s.focused is Some
    &&& holds(s.cells[i].1.windows, s.focused->0)
    &&& forall|j: int| 0 <= j < i ==> !holds(#[trigger] s.cells[j].1.windows, s.focused->0)
}

/// Setting a layout gives the requested layout to the cell holding the
/// focused window (the first, should several hold it) and to no other: every
/// other cell keeps its layout, every cell keeps its key and windows, and
/// nothing else of the state changes. Without a focused window held by a
/// cell, nothing changes.
pub proof fn lemma_set_layout_targets_focused_cell(pre: StateView, layout: LayoutKind, post: StateView)
    requires
        layout_set(pre, layout, post),
    ensures
        post.cells.len() == pre.cells.len(),
        forall|i: int|
            0 <= i < pre.cells.len() ==> (#[trigger] post.cells[i]).0 == pre.cells[i].0
                && post.cells[i].1.windows == pre.cells[i].1.windows,
        forall|i: int|
            0 <= i < pre.cells.len() && holds_focus_first(pre, i) ==> (#[trigger] post.cells[i]).1.layout
                == layout,
        forall|i: int|
            0 <= i < pre.cells.len() && !holds_focus_first(pre, i) ==> (#[trigger] post.cells[i]).1.layout
                == pre.cells[i].1.layout,
        (StateView { cells: pre.cells, ..post }) == pre,
{
    match pre.focused {
        Some(f) => {
            if held(pre.cells, f) {
                let ci = choose|ci: int|
                    first_holding(pre.cells, f, ci) && post == (StateView {
                        cells: pre.cells.update(
                            ci,
                            (pre.cells[ci].0, CellView { windows: pre.cells[ci].1.windows, layout }),
                        ),
                        ..pre
                    });
                assert forall|i: int| 0 <= i < pre.cells.len() implies (holds_focus_first(pre, i)
                    <==> i == ci) by {
                    if holds_focus_first(pre, i) && i != ci {
                        if i < ci {
                            assert(!holds(pre.cells[i].1.windows, f));
                        } else {
                            assert(!holds(pre.cells[ci].1.windows, f));
                        }
                    }
                }
            } else {
                assert forall|i: int| 0 <= i < pre.cells.len() implies !holds_focus_first(pre, i) by {
                    if holds(pre.cells[i].1.windows, f) {
                        assert(held(pre.cells, f));
                    }
                }
            }
        },
        None => {},
    }
}

// ---------------------------------------------------------------------------
// Keybindings
// ---------------------------------------------------------------------------

/// Without `[keys]` overrides the effective table is the default table: the
/// same ids, descriptions, keys and commands, in the same order.
pub proof fn lemma_bindings_without_overrides(s: StateView, b: Seq<Keybinding>)
    requires
        bindings_of(s, b),
        s.key_overrides.len() == 0,
    ensures
        b.len() == default_table().len(),
        forall|i: int|
            0 <= i < b.len() ==> {
                let d = #[trigger] default_table()[i];
                &&& b[i].id@ == d.0
                &&& b[i].description@ == d.1
                &&& b[i].key@ == d.2
                &&& b[i].command == d.3
            },
{
    assert forall|i: int| 0 <= i < b.len() implies {
        let d = #[trigger] default_table()[i];
        &&& b[i].id@ == d.0
        &&& b[i].description@ == d.1
        &&& b[i].key@ == d.2
        &&& b[i].command == d.3
    } by {
        let d = default_table()[i];
        assert(!exists|j: int| 0 <= j < s.key_overrides.len() && #[trigger] s.key_overrides[j].0 == d.0);
    }
}

} // verus!
