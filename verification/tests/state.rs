use rift::config::{BehaviorConfig, Config, GapsConfig, LayoutConfig, WindowRule};
use rift::ipc::{
    Activity, ActivityId, Desktop, DesktopId, Direction, LayoutKind, Output, OutputId,
    ReconcileReport, Rect, Topology, Window, WindowId,
};
use rift::state::{CellKey, MoveOutcome, State, COLLAPSED};

fn output(id: &str) -> Output {
    output_at(id, 0)
}

/// An output placed at horizontal offset `x` (for multi-monitor tests).
fn output_at(id: &str, x: i32) -> Output {
    Output {
        id: OutputId::new(id),
        name: id.to_string(),
        rect: Rect { x, y: 0, width: 1920, height: 1080 },
    }
}

fn desktop(id: &str) -> Desktop {
    Desktop { id: DesktopId::new(id), name: id.to_string() }
}

fn activity(id: &str) -> Activity {
    Activity { id: ActivityId::new(id), name: id.to_string() }
}

fn window(id: &str, output: &str, desktop: &str, activity: &str) -> Window {
    Window {
        id: WindowId::new(id),
        output: OutputId::new(output),
        desktop: DesktopId::new(desktop),
        activity: ActivityId::new(activity),
        class: None,
        title: None,
    }
}

fn window_classed(id: &str, output: &str, class: &str) -> Window {
    Window {
        id: WindowId::new(id),
        output: OutputId::new(output),
        desktop: DesktopId::new("d1"),
        activity: ActivityId::new("a1"),
        class: Some(class.to_string()),
        title: None,
    }
}

fn key(output: &str, desktop: &str, activity: &str) -> CellKey {
    CellKey::new(output, desktop, activity)
}

fn w(id: &str) -> WindowId {
    WindowId::new(id)
}

fn windows_of(state: &State, k: &CellKey) -> Vec<WindowId> {
    state.cell(k).expect("cell exists").windows.clone()
}

fn config(layout: LayoutConfig, gaps: GapsConfig, behavior: BehaviorConfig) -> Config {
    Config { layout, gaps, behavior, rules: Vec::new(), keys: Vec::new() }
}

fn tile_layout(tiling_enabled: bool) -> LayoutConfig {
    LayoutConfig {
        default: LayoutKind::Tile,
        master_ratio: 600_000,
        master_count: 1,
        tiling_enabled,
    }
}

/// A single window materializes exactly one cell holding it.
#[test]
fn materializes_cell_for_window() {
    let mut state = State::default();
    let topo = Topology {
        outputs: vec![output("o1")],
        desktops: vec![desktop("d1")],
        activities: vec![activity("a1")],
        windows: vec![window("w1", "o1", "d1", "a1")],
    };
    let report = state.reconcile(&topo);
    assert_eq!(report.cells, 1);
    assert_eq!(report.windows, 1);
    assert_eq!(windows_of(&state, &key("o1", "d1", "a1")), vec![w("w1")]);
}

/// Window order is preserved across reconciles; new windows append.
#[test]
fn preserves_window_order_and_appends() {
    let mut state = State::default();
    let base = Topology {
        outputs: vec![output("o1")],
        desktops: vec![desktop("d1")],
        activities: vec![activity("a1")],
        windows: vec![window("w1", "o1", "d1", "a1"), window("w2", "o1", "d1", "a1")],
    };
    state.reconcile(&base);

    let mut grown = base.clone();
    grown.windows.push(window("w3", "o1", "d1", "a1"));
    state.reconcile(&grown);

    assert_eq!(windows_of(&state, &key("o1", "d1", "a1")), vec![w("w1"), w("w2"), w("w3")]);
}

/// A window that disappears from the topology is pruned from its cell.
#[test]
fn prunes_dead_window_refs() {
    let mut state = State::default();
    let base = Topology {
        outputs: vec![output("o1")],
        desktops: vec![desktop("d1")],
        activities: vec![activity("a1")],
        windows: vec![window("w1", "o1", "d1", "a1"), window("w2", "o1", "d1", "a1")],
    };
    state.reconcile(&base);

    let mut shrunk = base.clone();
    shrunk.windows.retain(|x| x.id == w("w1"));
    let report = state.reconcile(&shrunk);

    assert_eq!(report.windows, 1);
    assert_eq!(windows_of(&state, &key("o1", "d1", "a1")), vec![w("w1")]);
}

/// An orphaned cell (output removed) cannot survive a reconcile.
#[test]
fn orphaned_cell_cannot_survive_reconcile() {
    let mut state = State::default();
    let with_two = Topology {
        outputs: vec![output("o1"), output("o2")],
        desktops: vec![desktop("d1")],
        activities: vec![activity("a1")],
        windows: vec![window("w1", "o1", "d1", "a1"), window("w2", "o2", "d1", "a1")],
    };
    state.reconcile(&with_two);
    assert_eq!(state.cell_count(), 2);

    // o2 is unplugged: its window references a vanished output and the cell
    // keyed on o2 must be dropped, not stranded.
    let one_output = Topology {
        outputs: vec![output("o1")],
        desktops: vec![desktop("d1")],
        activities: vec![activity("a1")],
        windows: vec![window("w1", "o1", "d1", "a1"), window("w2", "o2", "d1", "a1")],
    };
    let report = state.reconcile(&one_output);

    assert_eq!(report.cells, 1, "cell on the removed output must be gone");
    assert!(state.cell(&key("o2", "d1", "a1")).is_none());
    assert!(state.cell(&key("o1", "d1", "a1")).is_some());
}

/// A desktop switch / removal cannot strand a cell keyed on the old desktop.
#[test]
fn cell_on_removed_desktop_is_dropped() {
    let mut state = State::default();
    let two_desktops = Topology {
        outputs: vec![output("o1")],
        desktops: vec![desktop("d1"), desktop("d2")],
        activities: vec![activity("a1")],
        windows: vec![window("w1", "o1", "d1", "a1"), window("w2", "o1", "d2", "a1")],
    };
    state.reconcile(&two_desktops);
    assert_eq!(state.cell_count(), 2);

    let one_desktop = Topology {
        outputs: vec![output("o1")],
        desktops: vec![desktop("d1")],
        activities: vec![activity("a1")],
        windows: vec![window("w1", "o1", "d1", "a1")],
    };
    let report = state.reconcile(&one_desktop);
    assert_eq!(report.cells, 1);
    assert!(state.cell(&key("o1", "d2", "a1")).is_none());
}

/// `reset` rebuilds an identical cell map from the last topology.
#[test]
fn reset_rebuilds_from_last_topology() {
    let mut state = State::default();
    let topo = Topology {
        outputs: vec![output("o1")],
        desktops: vec![desktop("d1")],
        activities: vec![activity("a1")],
        windows: vec![window("w1", "o1", "d1", "a1"), window("w2", "o1", "d1", "a1")],
    };
    state.reconcile(&topo);
    let before = state.report();
    let after = state.reset();
    assert_eq!(before, after);
    assert_eq!(windows_of(&state, &key("o1", "d1", "a1")).len(), 2);
}

/// A two-window cell on which we can exercise the control commands.
fn two_window_state() -> State {
    let mut state = State::default();
    state.reconcile(&Topology {
        outputs: vec![output("o1")],
        desktops: vec![desktop("d1")],
        activities: vec![activity("a1")],
        windows: vec![window("w1", "o1", "d1", "a1"), window("w2", "o1", "d1", "a1")],
    });
    state
}

/// Directional focus is resolved from the live layout geometry.
#[test]
fn focus_neighbor_uses_geometry() {
    let mut state = two_window_state();
    state.set_focus(Some(w("w1")));
    // Default tile: w1 is the master (left), w2 the stack (right).
    assert_eq!(state.focus_neighbor(Direction::Right), Some(w("w2")));
    assert_eq!(state.focus_neighbor(Direction::Left), None);
}

/// Moving the focused window swaps it with its neighbor in the cell order.
#[test]
fn move_window_swaps_with_neighbor() {
    let mut state = two_window_state();
    state.set_focus(Some(w("w1")));
    assert_eq!(state.move_window(Direction::Right), MoveOutcome::Swapped);
    assert_eq!(windows_of(&state, &key("o1", "d1", "a1")), vec![w("w2"), w("w1")]);
}

/// Switching layout affects the focused window's cell.
#[test]
fn set_layout_switches_focused_cell() {
    let mut state = two_window_state();
    state.set_focus(Some(w("w1")));
    assert!(state.set_layout(LayoutKind::Monocle));
    assert_eq!(state.cell(&key("o1", "d1", "a1")).unwrap().layout, LayoutKind::Monocle);
}

/// Control commands no-op safely when nothing is focused.
#[test]
fn control_without_focus_is_noop() {
    let mut state = two_window_state();
    assert_eq!(state.focus_neighbor(Direction::Right), None);
    assert_eq!(state.move_window(Direction::Right), MoveOutcome::NoMove);
    assert!(!state.set_layout(LayoutKind::Monocle));
}

/// Master count and ratio adjust within their clamped bounds.
#[test]
fn master_adjustments_clamp() {
    let mut state = State::default();
    state.adjust_master_count(-5);
    assert_eq!(state.params().master_count, 1);
    state.adjust_master_count(2);
    assert_eq!(state.params().master_count, 3);

    // +1.0 and -2.0 of the whole area.
    state.adjust_master_ratio(1_000_000);
    assert!(state.params().master_ratio <= 950_000);
    state.adjust_master_ratio(-2_000_000);
    assert!(state.params().master_ratio >= 50_000);
}

/// Applying a config updates params, default layout, and behavior; a newly
/// materialized cell adopts the new default and geometry reflects new gaps.
#[test]
fn apply_config_updates_params_and_default() {
    let mut state = State::default();
    let cfg = config(
        LayoutConfig {
            default: LayoutKind::Monocle,
            master_ratio: 700_000,
            master_count: 3,
            tiling_enabled: true,
        },
        GapsConfig { inner: 0, outer: 0 },
        BehaviorConfig { per_desktop: false, per_activity: false, focus_follows_mouse: true },
    );
    state.apply_config(&cfg);

    assert_eq!(state.params().master_ratio, 700_000);
    assert_eq!(state.params().master_count, 3);
    assert_eq!(state.params().gaps_inner, 0);
    assert_eq!(state.params().gaps_outer, 0);
    assert!(!state.behavior().per_desktop);
    assert!(state.behavior().focus_follows_mouse);

    // Both flags are off in this config, so the cell is keyed on the output alone.
    state.reconcile(&Topology {
        outputs: vec![output("o1")],
        desktops: vec![desktop("d1")],
        activities: vec![activity("a1")],
        windows: vec![window("w1", "o1", "d1", "a1")],
    });
    assert_eq!(state.cell(&collapsed_key("o1")).unwrap().layout, LayoutKind::Monocle);

    // With zero gaps, the lone window fills the whole output.
    let geom = state.geometry();
    assert_eq!(geom.windows.len(), 1);
    assert_eq!(geom.windows[0].rect, Rect { x: 0, y: 0, width: 1920, height: 1080 });
}

/// The config report mirrors the applied config and the source metadata.
#[test]
fn config_report_mirrors_applied_config() {
    let mut state = State::default();
    state.apply_config(&config(
        LayoutConfig {
            default: LayoutKind::Spiral,
            master_ratio: 500_000,
            master_count: 2,
            tiling_enabled: true,
        },
        GapsConfig { inner: 4, outer: 16 },
        BehaviorConfig::default(),
    ));
    let report = state.config_report("/tmp/riftrc".to_string(), true);
    assert_eq!(report.layout, LayoutKind::Spiral);
    assert_eq!(report.master_ratio, 500_000);
    assert_eq!(report.master_count, 2);
    assert_eq!(report.gaps_inner, 4);
    assert_eq!(report.gaps_outer, 16);
    assert_eq!(report.source, "/tmp/riftrc");
    assert!(report.loaded);
}

/// Tiling defaults on; toggling it off empties the geometry, and toggling it
/// back on re-tiles.
#[test]
fn toggle_tiling_gates_geometry() {
    let mut state = two_window_state();
    assert!(!state.geometry().windows.is_empty());

    assert!(!state.toggle_tiling()); // now disabled
    assert!(state.geometry().windows.is_empty());

    assert!(state.toggle_tiling()); // re-enabled
    assert_eq!(state.geometry().windows.len(), 2);
}

/// Floating the focused window removes it from the layout; the rest re-tile.
#[test]
fn toggle_float_excludes_window_from_layout() {
    let mut state = two_window_state();
    state.set_focus(Some(w("w1")));

    assert_eq!(state.toggle_float(None), Some(true));
    let geom = state.geometry();
    assert!(geom.windows.iter().all(|g| g.id != w("w1")));
    // The single remaining tiled window fills the cell.
    assert_eq!(geom.windows.len(), 1);
    assert_eq!(geom.windows[0].id, w("w2"));

    // Toggling again un-floats it.
    assert_eq!(state.toggle_float(Some(w("w1"))), Some(false));
    assert_eq!(state.geometry().windows.len(), 2);
}

/// `toggle_float(None)` with nothing focused resolves no target.
#[test]
fn toggle_float_without_focus_is_none() {
    let mut state = two_window_state();
    assert_eq!(state.toggle_float(None), None);
}

/// A floated window that closes is pruned from the floating set on reconcile.
#[test]
fn reconcile_prunes_closed_floating_window() {
    let mut state = two_window_state();
    assert_eq!(state.toggle_float(Some(w("w2"))), Some(true));

    state.reconcile(&Topology {
        outputs: vec![output("o1")],
        desktops: vec![desktop("d1")],
        activities: vec![activity("a1")],
        windows: vec![window("w1", "o1", "d1", "a1")],
    });

    // w2 is gone; re-adding it must start un-floated (clean prune).
    assert!(!state.is_floating(&w("w2")));
}

/// A transient empty topology (resume/hotplug blip) is ignored: the cell map
/// and geometry survive, and the next non-empty topology relayouts.
#[test]
fn empty_topology_preserves_prior_cells() {
    let mut state = two_window_state();
    let before = state.geometry().windows.len();
    assert_eq!(before, 2);

    // Zero outputs mid-reconfigure: held, not wiped.
    let report = state.reconcile(&Topology::default());
    assert_eq!(report.cells, 1, "prior cell is held across the empty blip");
    assert_eq!(report.windows, 2);
    assert_eq!(state.geometry().windows.len(), 2, "geometry survives");

    // Outputs return: the layout reconciles normally again.
    state.reconcile(&Topology {
        outputs: vec![output("o1")],
        desktops: vec![desktop("d1")],
        activities: vec![activity("a1")],
        windows: vec![window("w1", "o1", "d1", "a1")],
    });
    assert_eq!(state.geometry().windows.len(), 1, "relayouts after recovery");
}

/// `apply_config` carries `tiling_enabled` through to the running state.
#[test]
fn apply_config_sets_tiling_enabled() {
    let mut state = two_window_state();
    state.apply_config(&config(tile_layout(false), GapsConfig::default(), BehaviorConfig::default()));
    assert!(state.geometry().windows.is_empty());
}

/// Build a state with the given flags applied via config.
fn state_with_behavior(per_desktop: bool, per_activity: bool) -> State {
    let mut state = State::default();
    state.apply_config(&config(
        tile_layout(true),
        GapsConfig::default(),
        BehaviorConfig { per_desktop, per_activity, focus_follows_mouse: false },
    ));
    state
}

/// The cell key for an output whose desktop+activity dimensions are collapsed.
fn collapsed_key(output: &str) -> CellKey {
    CellKey::new(output, COLLAPSED, COLLAPSED)
}

/// `per_activity = false` merges windows across activities into one cell.
#[test]
fn per_activity_off_merges_activities_into_one_cell() {
    let mut state = state_with_behavior(true, false);
    state.reconcile(&Topology {
        outputs: vec![output("o1")],
        desktops: vec![desktop("d1")],
        activities: vec![activity("a1"), activity("a2")],
        windows: vec![window("w1", "o1", "d1", "a1"), window("w2", "o1", "d1", "a2")],
    });
    assert_eq!(state.cell_count(), 1, "activities collapse into one cell");
    assert_eq!(state.window_count(), 2);
}

/// `per_desktop = false` merges windows across desktops into one cell.
#[test]
fn per_desktop_off_merges_desktops_into_one_cell() {
    let mut state = state_with_behavior(false, true);
    state.reconcile(&Topology {
        outputs: vec![output("o1")],
        desktops: vec![desktop("d1"), desktop("d2")],
        activities: vec![activity("a1")],
        windows: vec![window("w1", "o1", "d1", "a1"), window("w2", "o1", "d2", "a1")],
    });
    assert_eq!(state.cell_count(), 1, "desktops collapse into one cell");
    assert_eq!(state.window_count(), 2);
}

/// With both flags off, only the output keys a cell; outputs never collapse.
#[test]
fn both_flags_off_keys_cells_by_output_only() {
    let mut state = state_with_behavior(false, false);
    state.reconcile(&Topology {
        outputs: vec![output("o1"), output("o2")],
        desktops: vec![desktop("d1"), desktop("d2")],
        activities: vec![activity("a1"), activity("a2")],
        windows: vec![
            window("w1", "o1", "d1", "a1"),
            window("w2", "o1", "d2", "a2"),
            window("w3", "o2", "d1", "a1"),
        ],
    });
    assert_eq!(state.cell_count(), 2);
    assert_eq!(windows_of(&state, &collapsed_key("o1")).len(), 2);
    assert_eq!(windows_of(&state, &collapsed_key("o2")).len(), 1);
}

/// Collapsing a dimension must not weaken orphan pruning: a window on a
/// vanished desktop is still dropped even when `per_desktop` is off.
#[test]
fn collapsed_desktop_still_drops_orphan_window() {
    let mut state = state_with_behavior(false, true);
    state.reconcile(&Topology {
        outputs: vec![output("o1")],
        desktops: vec![desktop("d1")],
        activities: vec![activity("a1")],
        windows: vec![
            window("w1", "o1", "d1", "a1"),
            // d2 is not a live desktop -> orphan, dropped despite collapse.
            window("w2", "o1", "d2", "a1"),
        ],
    });
    assert_eq!(state.window_count(), 1);
}

/// A window matching a `float` rule is excluded from tiling; others tile.
#[test]
fn float_rule_excludes_matched_window_from_layout() {
    let mut state = State::default();
    let mut cfg = config(tile_layout(true), GapsConfig::default(), BehaviorConfig::default());
    cfg.rules = vec![WindowRule { class: Some("pavucontrol".to_string()), title: None, float: true }];
    state.apply_config(&cfg);
    state.reconcile(&Topology {
        outputs: vec![output("o1")],
        desktops: vec![desktop("d1")],
        activities: vec![activity("a1")],
        windows: vec![window_classed("w1", "o1", "konsole"), window_classed("w2", "o1", "pavucontrol")],
    });

    // Both windows are managed (in the cell), but only w1 gets geometry.
    assert_eq!(state.window_count(), 2);
    let geom = state.geometry();
    assert_eq!(geom.windows.len(), 1);
    assert_eq!(geom.windows[0].id, w("w1"));
}

/// A window at its cell's edge moves onto the spatially adjacent output.
#[test]
fn move_at_cell_edge_crosses_to_adjacent_output() {
    let mut state = State::default();
    state.reconcile(&Topology {
        outputs: vec![output_at("o1", 0), output_at("o2", 1920)],
        desktops: vec![desktop("d1")],
        activities: vec![activity("a1")],
        windows: vec![window("w1", "o1", "d1", "a1")],
    });
    state.set_focus(Some(w("w1")));

    // The lone window has no in-cell neighbor; moving right crosses to o2.
    assert_eq!(state.move_window(Direction::Right), MoveOutcome::CrossedOutput);

    // w1 now lives in o2's cell and lays out within o2's rectangle.
    assert!(windows_of(&state, &key("o2", "d1", "a1")).contains(&w("w1")));
    let geom = state.geometry();
    let wg = geom.windows.iter().find(|g| g.id == w("w1")).expect("moved window has geometry");
    assert!(wg.rect.x >= 1920, "window placed on the right output");
}

/// A move toward an edge with no output that way leaves the window put.
#[test]
fn move_at_edge_without_adjacent_output_is_noop() {
    let mut state = State::default();
    state.reconcile(&Topology {
        outputs: vec![output_at("o1", 0), output_at("o2", 1920)],
        desktops: vec![desktop("d1")],
        activities: vec![activity("a1")],
        windows: vec![window("w1", "o1", "d1", "a1")],
    });
    state.set_focus(Some(w("w1")));
    // Nothing lies left of o1.
    assert_eq!(state.move_window(Direction::Left), MoveOutcome::NoMove);
    assert!(windows_of(&state, &key("o1", "d1", "a1")).contains(&w("w1")));
}

/// Resize Left/Right move the master ratio; Up/Down are reserved no-ops.
#[test]
fn resize_adjusts_master_ratio_left_right_only() {
    let mut state = State::default();
    let base = state.params().master_ratio;

    assert!(state.resize(Direction::Right));
    assert!(state.params().master_ratio > base);
    let grown = state.params().master_ratio;

    assert!(state.resize(Direction::Left));
    assert!(state.params().master_ratio < grown);

    let before = state.params().master_ratio;
    assert!(!state.resize(Direction::Up));
    assert!(!state.resize(Direction::Down));
    assert_eq!(state.params().master_ratio, before, "vertical resize is reserved");
}

/// `[keys]` overrides replace a binding's key by id; others keep defaults.
#[test]
fn keybindings_apply_config_overrides() {
    let mut state = State::default();
    let default_left =
        state.keybindings().into_iter().find(|b| b.id == "rift_focus_left").unwrap().key;
    assert_eq!(default_left, "Meta+H");

    let mut cfg = config(tile_layout(true), GapsConfig::default(), BehaviorConfig::default());
    cfg.keys = vec![("rift_focus_left".to_string(), "Meta+Left".to_string())];
    state.apply_config(&cfg);

    let table = state.keybindings();
    let left = table.iter().find(|b| b.id == "rift_focus_left").unwrap();
    assert_eq!(left.key, "Meta+Left", "override applied");
    let right = table.iter().find(|b| b.id == "rift_focus_right").unwrap();
    assert_eq!(right.key, "Meta+L", "untouched binding keeps its default");
}

/// Focus cannot survive its window being removed from the topology.
#[test]
fn focus_dropped_when_window_vanishes() {
    let mut state = two_window_state();
    state.set_focus(Some(w("w2")));
    assert_eq!(state.focused(), Some(&w("w2")));

    state.reconcile(&Topology {
        outputs: vec![output("o1")],
        desktops: vec![desktop("d1")],
        activities: vec![activity("a1")],
        windows: vec![window("w1", "o1", "d1", "a1")],
    });
    assert_eq!(state.focused(), None);
}

// ---------------------------------------------------------------------------
// Properties on concrete values
// ---------------------------------------------------------------------------

#[test]
fn reconciling_twice_changes_nothing() {
    let mut state = State::default();
    let topo = Topology {
        outputs: vec![output("o1"), output_at("o2", 1920)],
        desktops: vec![desktop("d1")],
        activities: vec![activity("a1")],
        windows: vec![
            window("w1", "o1", "d1", "a1"),
            window("w2", "o2", "d1", "a1"),
            window("w3", "o1", "d1", "a1"),
        ],
    };
    let first = state.reconcile(&topo);
    let cells = state.cells().clone();
    let second = state.reconcile(&topo);
    assert_eq!(first, second);
    for (k, c) in &cells {
        assert_eq!(state.cell(k), Some(c));
    }
}

#[test]
fn default_state_matches_documented_defaults() {
    let state = State::default();
    assert_eq!(state.cell_count(), 0);
    assert_eq!(state.window_count(), 0);
    assert_eq!(state.report(), ReconcileReport { cells: 0, windows: 0 });
    assert!(state.tiling_enabled());
    assert_eq!(state.focused(), None);
    let b = state.behavior();
    assert!(b.per_desktop);
    assert!(b.per_activity);
    assert!(!b.focus_follows_mouse);
    assert_eq!(state.params().master_ratio, 600_000);
}

#[test]
fn toggling_float_twice_restores_membership() {
    let mut state = two_window_state();
    assert_eq!(state.toggle_float(Some(w("w1"))), Some(true));
    assert!(state.is_floating(&w("w1")));
    assert_eq!(state.toggle_float(Some(w("w1"))), Some(false));
    assert!(!state.is_floating(&w("w1")));
}

#[test]
fn opposite_resizes_cancel() {
    let mut state = State::default();
    let base = state.params().master_ratio;
    state.resize(Direction::Left);
    assert_eq!(state.params().master_ratio, base - 50_000);
    state.resize(Direction::Right);
    assert_eq!(state.params().master_ratio, base);
}

#[test]
fn master_ratio_clamps_exactly_at_bounds() {
    let mut state = State::default();
    state.adjust_master_ratio(1_000_000);
    assert_eq!(state.params().master_ratio, 950_000);
    state.adjust_master_ratio(-2_000_000);
    assert_eq!(state.params().master_ratio, 50_000);
}

#[test]
fn window_in_two_topologies_keeps_its_slot() {
    let mut state = two_window_state();
    state.reconcile(&Topology {
        outputs: vec![output("o1")],
        desktops: vec![desktop("d1")],
        activities: vec![activity("a1")],
        windows: vec![
            window("w3", "o1", "d1", "a1"),
            window("w2", "o1", "d1", "a1"),
            window("w1", "o1", "d1", "a1"),
        ],
    });
    // Known windows keep their order; the new one is appended.
    assert_eq!(windows_of(&state, &key("o1", "d1", "a1")), vec![w("w1"), w("w2"), w("w3")]);
}

#[test]
fn unknown_focus_event_is_stored_but_dropped_on_reconcile() {
    let mut state = two_window_state();
    state.set_focus(Some(w("ghost")));
    assert_eq!(state.focused(), Some(&w("ghost")));
    state.reconcile(&Topology {
        outputs: vec![output("o1")],
        desktops: vec![desktop("d1")],
        activities: vec![activity("a1")],
        windows: vec![window("w1", "o1", "d1", "a1")],
    });
    assert_eq!(state.focused(), None);
}

#[test]
fn a_very_wide_output_still_lays_out() {
    let mut state = State::default();
    state.reconcile(&Topology {
        outputs: vec![Output {
            id: OutputId::new("huge"),
            name: "huge".to_string(),
            rect: Rect { x: 0, y: 0, width: i32::MAX, height: 1080 },
        }],
        desktops: vec![desktop("d1")],
        activities: vec![activity("a1")],
        windows: vec![window("w1", "huge", "d1", "a1")],
    });
    let geom = state.geometry();
    assert_eq!(geom.windows.len(), 1);
    assert_eq!(geom.windows[0].rect, Rect { x: 12, y: 12, width: i32::MAX - 24, height: 1056 });
}

#[test]
fn resize_at_the_clamp_reports_no_change() {
    let mut state = State::default();
    state.adjust_master_ratio(1_000_000);
    assert_eq!(state.params().master_ratio, 950_000);
    assert!(!state.resize(Direction::Right));
    assert_eq!(state.params().master_ratio, 950_000);
    assert!(state.resize(Direction::Left));
    assert_eq!(state.params().master_ratio, 900_000);
}

#[test]
fn master_count_saturates_instead_of_overflowing() {
    let mut state = State::default();
    state.adjust_master_count(i32::MAX);
    assert_eq!(state.params().master_count, 1 + i32::MAX as usize);
    state.adjust_master_count(i32::MIN);
    assert_eq!(state.params().master_count, 1);
}

#[test]
fn opposite_master_count_adjustments_cancel() {
    let mut state = State::default();
    state.adjust_master_count(3);
    assert_eq!(state.params().master_count, 4);
    state.adjust_master_count(-3);
    assert_eq!(state.params().master_count, 1);
    // Clamped at one: the way back up does not restore a lower request.
    state.adjust_master_count(-10);
    assert_eq!(state.params().master_count, 1);
}

#[test]
fn reset_after_reconcile_restores_default_layout_and_topology_order() {
    let mut state = two_window_state();
    state.set_focus(Some(w("w1")));
    state.set_layout(LayoutKind::Columns);
    state.move_window(Direction::Right);
    assert_eq!(windows_of(&state, &key("o1", "d1", "a1")), vec![w("w2"), w("w1")]);
    state.reset();
    let cell = state.cell(&key("o1", "d1", "a1")).unwrap();
    assert_eq!(cell.layout, LayoutKind::Tile);
    assert_eq!(cell.windows, vec![w("w1"), w("w2")]);
    assert_eq!(state.focused(), Some(&w("w1")));
}

/// The adjacent output is the nearest one whose centre lies that way.
#[test]
fn adjacent_output_picks_the_output_that_way() {
    let mut state = State::default();
    state.reconcile(&Topology {
        outputs: vec![output_at("o1", 0), output_at("o2", 1920), output_at("o3", 3840)],
        desktops: vec![desktop("d1")],
        activities: vec![activity("a1")],
        windows: vec![window("w1", "o1", "d1", "a1")],
    });
    assert_eq!(state.adjacent_output(&OutputId::new("o1"), Direction::Right), Some(OutputId::new("o2")));
    assert_eq!(state.adjacent_output(&OutputId::new("o3"), Direction::Left), Some(OutputId::new("o2")));
    assert_eq!(state.adjacent_output(&OutputId::new("o1"), Direction::Left), None);
    assert_eq!(state.adjacent_output(&OutputId::new("nope"), Direction::Right), None);
}

/// Moving a window, within its cell or across outputs, keeps the window count.
#[test]
fn moves_keep_the_window_count() {
    let mut state = State::default();
    state.reconcile(&Topology {
        outputs: vec![output_at("o1", 0), output_at("o2", 1920)],
        desktops: vec![desktop("d1")],
        activities: vec![activity("a1")],
        windows: vec![window("w1", "o1", "d1", "a1"), window("w2", "o1", "d1", "a1")],
    });
    let before = state.window_count();
    state.set_focus(Some(w("w1")));
    assert_eq!(state.move_window(Direction::Right), MoveOutcome::Swapped);
    assert_eq!(state.window_count(), before);
    assert_eq!(state.move_window(Direction::Right), MoveOutcome::CrossedOutput);
    assert_eq!(state.window_count(), before);
    assert_eq!(state.focused(), Some(&w("w1")));
}

/// A second reconcile against the same topology reports what the first did.
#[test]
fn repeated_reconcile_reports_the_same_counts() {
    let topo = Topology {
        outputs: vec![output_at("o1", 0), output_at("o2", 1920)],
        desktops: vec![desktop("d1")],
        activities: vec![activity("a1")],
        windows: vec![
            window("w1", "o1", "d1", "a1"),
            window("w2", "o2", "d1", "a1"),
            window("w3", "o1", "d1", "a1"),
        ],
    };
    let mut state = State::default();
    let r1 = state.reconcile(&topo);
    let r2 = state.reconcile(&topo);
    assert_eq!(r1, r2);
    assert_eq!(r1, ReconcileReport { cells: 2, windows: 3 });
}
