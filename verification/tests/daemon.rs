use rift::config::{Config, GapsConfig};
use rift::daemon::{Action, Daemon, Request};
use rift::ipc::{
    Activity, ActivityId, Command, Desktop, DesktopId, Direction, Event, LayoutKind, Output,
    OutputId, Rect, Reply, Topology, Window, WindowId, PROTOCOL_VERSION,
};
use rift::state::State;

const VERSION: &str = "0.1.0";

fn daemon() -> Daemon {
    Daemon::new(State::default(), "/nonexistent/riftrc".to_string(), false)
}

fn send(d: &mut Daemon, request: Request) -> Reply {
    match d.dispatch(request, 0, VERSION) {
        Action::Reply(reply) => reply,
        Action::LoadConfig => panic!("expected a reply, got a config load"),
    }
}

fn command(d: &mut Daemon, cmd: Command) -> Reply {
    send(d, Request::Command(cmd))
}

fn output_at(id: &str, x: i32) -> Output {
    Output {
        id: OutputId::new(id),
        name: id.to_string(),
        rect: Rect { x, y: 0, width: 1920, height: 1080 },
    }
}

fn window(id: &str, output: &str) -> Window {
    Window {
        id: WindowId::new(id),
        output: OutputId::new(output),
        desktop: DesktopId::new("d1"),
        activity: ActivityId::new("a1"),
        class: None,
        title: None,
    }
}

fn topology(outputs: Vec<Output>, windows: Vec<Window>) -> Request {
    Request::Event(Event::Topology(Topology {
        outputs,
        desktops: vec![Desktop { id: DesktopId::new("d1"), name: "d1".to_string() }],
        activities: vec![Activity { id: ActivityId::new("a1"), name: "a1".to_string() }],
        windows,
    }))
}

fn focus(window: &str) -> Request {
    Request::Event(Event::Focus { window: Some(WindowId::new(window)) })
}

fn gaps_config(inner: i32, outer: i32) -> Config {
    let mut cfg = Config::default();
    cfg.gaps = GapsConfig { inner, outer };
    assert_eq!(cfg.validate(), Ok(()));
    cfg
}

#[test]
fn status_returns_report() {
    let reply = command(&mut daemon(), Command::Status);
    match reply {
        Reply::Status(r) => {
            assert_eq!(r.protocol, PROTOCOL_VERSION);
            assert_eq!(r.cells, 0);
        }
        other => panic!("expected Status, got {other:?}"),
    }
}

#[test]
fn status_reports_version_and_uptime() {
    match daemon().dispatch(Request::Command(Command::Status), 42, VERSION) {
        Action::Reply(Reply::Status(r)) => {
            assert_eq!(r.version, VERSION);
            assert_eq!(r.uptime_secs, 42);
            assert_eq!(r.windows, 0);
        }
        other => panic!("expected Status, got {other:?}"),
    }
}

#[test]
fn server_hello_is_acked() {
    let reply = send(
        &mut daemon(),
        Request::Event(Event::Hello { kwin_version: "6.2".to_string(), protocol: 1 }),
    );
    assert_eq!(reply, Reply::Ack);
}

#[test]
fn topology_reconciles_and_status_counts_update() {
    let mut d = daemon();
    match send(&mut d, topology(vec![output_at("o1", 0)], vec![window("w1", "o1")])) {
        Reply::Geometry(set) => assert_eq!(set.windows.len(), 1),
        other => panic!("expected Geometry, got {other:?}"),
    }
    match command(&mut d, Command::Status) {
        Reply::Status(r) => {
            assert_eq!(r.cells, 1);
            assert_eq!(r.windows, 1);
        }
        other => panic!("expected Status, got {other:?}"),
    }
}

#[test]
fn toggle_tiling_gates_geometry_over_dispatch() {
    let mut d = daemon();
    let topo = topology(vec![output_at("o1", 0)], vec![window("w1", "o1"), window("w2", "o1")]);
    assert!(matches!(send(&mut d, topo), Reply::Geometry(set) if set.windows.len() == 2));

    match command(&mut d, Command::ToggleTiling) {
        Reply::Geometry(set) => assert!(set.windows.is_empty()),
        other => panic!("expected empty Geometry, got {other:?}"),
    }
    match command(&mut d, Command::ToggleTiling) {
        Reply::Geometry(set) => assert_eq!(set.windows.len(), 2),
        other => panic!("expected Geometry, got {other:?}"),
    }
}

#[test]
fn toggle_float_excludes_focused_over_dispatch() {
    let mut d = daemon();
    send(&mut d, topology(vec![output_at("o1", 0)], vec![window("w1", "o1"), window("w2", "o1")]));
    assert_eq!(send(&mut d, focus("w1")), Reply::Ack);

    match command(&mut d, Command::ToggleFloat { window: None }) {
        Reply::Geometry(set) => {
            assert_eq!(set.windows.len(), 1);
            assert_eq!(set.windows[0].id, WindowId::new("w2"));
        }
        other => panic!("expected Geometry, got {other:?}"),
    }
}

#[test]
fn cross_output_move_replies_with_resync() {
    let mut d = daemon();
    send(
        &mut d,
        topology(vec![output_at("o1", 0), output_at("o2", 1920)], vec![window("w1", "o1")]),
    );
    send(&mut d, focus("w1"));

    // w1 is alone on o1, so moving right relocates it onto o2 and the daemon
    // asks the script to resync topology.
    match command(&mut d, Command::Move { direction: Direction::Right }) {
        Reply::GeometryResync(set) => {
            let wg = set
                .windows
                .iter()
                .find(|g| g.id == WindowId::new("w1"))
                .expect("moved window has geometry");
            assert!(wg.rect.x >= 1920, "placed on the right output");
        }
        other => panic!("expected GeometryResync, got {other:?}"),
    }
}

#[test]
fn in_cell_move_replies_with_plain_geometry() {
    let mut d = daemon();
    send(&mut d, topology(vec![output_at("o1", 0)], vec![window("w1", "o1"), window("w2", "o1")]));
    send(&mut d, focus("w1"));
    assert!(matches!(
        command(&mut d, Command::Move { direction: Direction::Right }),
        Reply::Geometry(_)
    ));
}

#[test]
fn focus_command_names_the_neighbor() {
    let mut d = daemon();
    send(&mut d, topology(vec![output_at("o1", 0)], vec![window("w1", "o1"), window("w2", "o1")]));
    send(&mut d, focus("w1"));
    assert_eq!(
        command(&mut d, Command::Focus { direction: Direction::Right }),
        Reply::Focus { window: Some(WindowId::new("w2")) }
    );
    assert_eq!(
        command(&mut d, Command::Focus { direction: Direction::Left }),
        Reply::Focus { window: None }
    );
}

#[test]
fn get_keybindings_returns_table() {
    match command(&mut daemon(), Command::GetKeybindings) {
        Reply::Keybindings { bindings } => {
            assert!(!bindings.is_empty());
            assert!(bindings.iter().any(|b| b.id == "rift_focus_left"));
        }
        other => panic!("expected Keybindings, got {other:?}"),
    }
}

#[test]
fn unknown_is_error() {
    let reply = send(&mut daemon(), Request::Unsupported("Nope".to_string()));
    assert!(matches!(reply, Reply::Error { .. }));
}

#[test]
fn unknown_message_names_its_type() {
    let reply = send(&mut daemon(), Request::Unsupported("Bogus".to_string()));
    assert_eq!(reply, Reply::Error { message: "unsupported message: Bogus".to_string() });
}

#[test]
fn get_config_returns_defaults_for_missing_file() {
    match command(&mut daemon(), Command::GetConfig) {
        Reply::Config(r) => {
            assert!(!r.loaded);
            assert_eq!(r.gaps_inner, 8); // built-in default
            assert_eq!(r.master_count, 1);
            assert_eq!(r.source, "/nonexistent/riftrc");
        }
        other => panic!("expected Config, got {other:?}"),
    }
}

#[test]
fn reload_reads_from_config_path() {
    let mut d = daemon();
    // A reload asks the transport to read the file...
    assert_eq!(d.dispatch(Request::Command(Command::Reload), 0, VERSION), Action::LoadConfig);
    // ...which hands back "[gaps]\ninner = 4\nouter = 4\n", validated.
    match send(&mut d, Request::ConfigLoaded(Ok((gaps_config(4, 4), true)))) {
        Reply::Config(r) => {
            assert!(r.loaded);
            assert_eq!(r.gaps_inner, 4);
            assert_eq!(r.gaps_outer, 4);
        }
        other => panic!("expected Config, got {other:?}"),
    }
}

#[test]
fn invalid_reload_errors_and_retains_prior_config() {
    let mut d = daemon();
    assert!(matches!(
        send(&mut d, Request::ConfigLoaded(Ok((gaps_config(4, 4), true)))),
        Reply::Config(_)
    ));

    // "[layout]\nmaster_ratio = 9.0\n" is rejected wholesale by validation.
    let mut bad = Config::default();
    bad.layout.master_ratio = 9_000_000;
    let message = format!("{:?}", bad.validate().unwrap_err());
    assert!(matches!(
        send(&mut d, Request::ConfigLoaded(Err(message))),
        Reply::Error { .. }
    ));

    // The prior good config (inner=4) is still in effect.
    match command(&mut d, Command::GetConfig) {
        Reply::Config(r) => assert_eq!(r.gaps_inner, 4),
        other => panic!("expected Config, got {other:?}"),
    }
}

#[test]
fn reset_replies_with_reconcile_report() {
    let mut d = daemon();
    send(&mut d, topology(vec![output_at("o1", 0)], vec![window("w1", "o1"), window("w2", "o1")]));
    match command(&mut d, Command::Reset) {
        Reply::Reconciled(r) => {
            assert_eq!(r.cells, 1);
            assert_eq!(r.windows, 2);
        }
        other => panic!("expected Reconciled, got {other:?}"),
    }
}

#[test]
fn master_count_beyond_i32_is_applied() {
    let mut d = daemon();
    assert!(matches!(
        command(&mut d, Command::MasterCount { delta: i32::MAX }),
        Reply::Geometry(_)
    ));
    assert_eq!(d.state.params().master_count, 1 + i32::MAX as usize);
    assert!(matches!(command(&mut d, Command::MasterCount { delta: 1 }), Reply::Geometry(_)));
    assert_eq!(d.state.params().master_count, 2 + i32::MAX as usize);
}

#[test]
fn set_layout_and_ratio_commands_reply_with_geometry() {
    let mut d = daemon();
    send(&mut d, topology(vec![output_at("o1", 0)], vec![window("w1", "o1")]));
    send(&mut d, focus("w1"));
    assert!(matches!(
        command(&mut d, Command::SetLayout { layout: LayoutKind::Monocle }),
        Reply::Geometry(_)
    ));
    assert!(matches!(command(&mut d, Command::MasterRatio { delta: 50_000 }), Reply::Geometry(_)));
    assert_eq!(d.state.params().master_ratio, 650_000);
    assert!(matches!(
        command(&mut d, Command::Resize { direction: Direction::Left }),
        Reply::Geometry(_)
    ));
    assert_eq!(d.state.params().master_ratio, 600_000);
}

#[test]
fn a_very_wide_output_gets_geometry() {
    let mut d = daemon();
    let huge = Output {
        id: OutputId::new("huge"),
        name: "huge".to_string(),
        rect: Rect { x: 0, y: 0, width: i32::MAX, height: 1080 },
    };
    match send(&mut d, topology(vec![huge], vec![window("w1", "huge"), window("w2", "huge")])) {
        Reply::Geometry(set) => assert_eq!(set.windows.len(), 2),
        other => panic!("expected Geometry, got {other:?}"),
    }
    send(&mut d, focus("w1"));
    assert_eq!(
        command(&mut d, Command::Focus { direction: Direction::Right }),
        Reply::Focus { window: Some(WindowId::new("w2")) }
    );
    assert!(matches!(
        command(&mut d, Command::Move { direction: Direction::Right }),
        Reply::Geometry(_)
    ));
}

#[test]
fn empty_topology_blip_keeps_geometry() {
    let mut d = daemon();
    send(&mut d, topology(vec![output_at("o1", 0)], vec![window("w1", "o1"), window("w2", "o1")]));
    match send(&mut d, Request::Event(Event::Topology(Topology::default()))) {
        Reply::Geometry(set) => assert_eq!(set.windows.len(), 2),
        other => panic!("expected Geometry, got {other:?}"),
    }
}
