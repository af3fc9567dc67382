//! The request handler shared by every transport.
//!
//! A request (a client command, a compositor event, or the outcome of a
//! config reload) goes in; the state is updated and exactly one reply comes
//! out. Reloading reads a file, so a `Reload` command answers with the
//! [`Action::LoadConfig`] action; the transport performs it and hands the
//! outcome back as [`Request::ConfigLoaded`].

use vstd::prelude::*;

use crate::config::{Config, config_valid};
use crate::ipc::{
    Command, ConfigReport, Event, GeometrySet, PROTOCOL_VERSION, Reply, StatusReport, WindowId,
};
use crate::layout;
use crate::state::{
    MoveOutcome, State, StateView, applied, config_overrides, override_ids_distinct, bindings_of, count_adjusted, float_toggled,
    geometry_spec, is_blip, layout_set, move_spec, ratio_adjusted, reconciled,
    report_of, reset_base, resized, tiling_toggled,
};

verus! {

/// One request to the daemon.
#[derive(Debug)]
pub enum Request {
    /// A client command.
    Command(Command),
    /// A compositor event.
    Event(Event),
    /// The outcome of reloading the config file: the validated config and
    /// whether a file was present, or the diagnostic it was rejected with.
    ConfigLoaded(Result<(Config, bool), String>),
    /// A message of an unknown type (its `type` tag).
    Unsupported(String),
}

/// What the transport does with a request's answer.
#[derive(Debug, Clone, PartialEq, Eq)]
pub enum Action {
    /// Send this reply.
    Reply(Reply),
    /// Read the config file, then hand the outcome back as
    /// [`Request::ConfigLoaded`].
    LoadConfig,
}

/// The daemon: its state and where its config came from.
#[derive(Debug)]
pub struct Daemon {
    pub state: State,
    /// The config path, as shown in config reports.
    pub config_source: String,
    /// Whether a config file was present at the last (re)load.
    pub config_loaded: bool,
}

/// `r` is the geometry reply for state `s`; `resync` selects the reply that
/// asks the script to re-push its topology.
pub open spec fn geometry_reply(s: StateView, r: Reply, resync: bool) -> bool {
    if resync {
        r matches Reply::GeometryResync(g) && layout::geoms_view(g.windows@) == geometry_spec(s)
    } else {
        r matches Reply::Geometry(g) && layout::geoms_view(g.windows@) == geometry_spec(s)
    }
}

/// The report of the daemon's effective config.
pub open spec fn config_report_of(s: StateView, source: String, loaded: bool) -> ConfigReport {
    ConfigReport {
        layout: s.default_layout,
        master_ratio: s.params.master_ratio,
        master_count: s.params.master_count as u32,
        gaps_inner: s.params.gaps_inner,
        gaps_outer: s.params.gaps_outer,
        per_desktop: s.behavior.per_desktop,
        per_activity: s.behavior.per_activity,
        focus_follows_mouse: s.behavior.focus_follows_mouse,
        tiling_enabled: s.tiling_enabled,
        source,
        loaded,
    }
}

impl Daemon {
    /// A daemon around `state`, whose config came from `source`.
    pub fn new(state: State, config_source: String, config_loaded: bool) -> (r: Self)
        ensures
            r.state == state,
            r.config_source == config_source,
            r.config_loaded == config_loaded,
    {
        Daemon { state, config_source, config_loaded }
    }

    /// The geometry reply for the current state.
    fn geometry_reply(&self, resync: bool) -> (r: Reply)
        requires
            self.state.wf(),
        ensures
            geometry_reply(self.state@, r, resync),
    {
        let g = self.state.geometry();
        if resync {
            Reply::GeometryResync(g)
        } else {
            Reply::Geometry(g)
        }
    }

    /// The report of the effective config.
    fn config_reply(&self) -> (r: Reply)
        ensures
            r == Reply::Config(
                config_report_of(self.state@, self.config_source, self.config_loaded),
            ),
    {
        Reply::Config(self.state.config_report(self.config_source.clone(), self.config_loaded))
    }

    /// Map one request to its action, updating the state.
    ///
    /// `uptime_secs` is the time since the daemon started and `version` its
    /// version, both reported by `Status`. A loaded config is applied as
    /// given, so it must already be valid, with no binding overridden twice.
    pub fn dispatch(&mut self, request: Request, uptime_secs: u64, version: &str) -> (r: Action)
        requires
            old(self).state.wf(),
            request matches Request::ConfigLoaded(Ok((cfg, _))) ==> config_valid(cfg)
                && override_ids_distinct(config_overrides(cfg)),
        ensures
            final(self).state.wf(),
            ({
                let pre = old(self).state@;
                let post = final(self).state@;
                match request {
                    Request::Command(Command::Status) => post == pre && (r matches Action::Reply(
                        Reply::Status(st),
                    ) && st.version@ == version@ && st.protocol == PROTOCOL_VERSION
                        && st.uptime_secs == uptime_secs && st.cells == pre.cells.len()
                        && st.windows == report_of(pre.cells).windows),
                    Request::Command(Command::Reset) => reconciled(
                        reset_base(pre),
                        pre.last_topology,
                        post,
                    ) && r == Action::Reply(Reply::Reconciled(report_of(post.cells))),
                    Request::Command(Command::Focus { direction }) => post == pre && (
                    r matches Action::Reply(Reply::Focus { window }) && (match pre.focused {
                        None => window is None,
                        Some(f) => layout::neighbor_spec(
                            geometry_spec(pre),
                            f,
                            direction,
                            layout::opt_id_view(window),
                        ),
                    })),
                    Request::Command(Command::Move { direction }) => exists|m: MoveOutcome|
                        #[trigger] move_spec(pre, direction, post, m) && (r matches Action::Reply(rep)
                            && geometry_reply(post, rep, m == MoveOutcome::CrossedOutput)),
                    Request::Command(Command::Resize { direction }) => post == resized(
                        pre,
                        direction,
                    ) && (r matches Action::Reply(rep) && geometry_reply(post, rep, false)),
                    Request::Command(Command::SetLayout { layout: kind }) => layout_set(
                        pre,
                        kind,
                        post,
                    ) && (r matches Action::Reply(rep) && geometry_reply(post, rep, false)),
                    Request::Command(Command::MasterRatio { delta }) => post == ratio_adjusted(
                        pre,
                        delta as int,
                    ) && (r matches Action::Reply(rep) && geometry_reply(post, rep, false)),
                    Request::Command(Command::MasterCount { delta }) => post == count_adjusted(
                        pre,
                        delta as int,
                    ) && (r matches Action::Reply(rep) && geometry_reply(post, rep, false)),
                    Request::Command(Command::ToggleTiling) => post == tiling_toggled(pre) && (
                    r matches Action::Reply(rep) && geometry_reply(post, rep, false)),
                    Request::Command(Command::ToggleFloat { window }) => (exists|t: Option<bool>|
                        #[trigger] float_toggled(pre, layout::opt_id_view(window), post, t)) && (
                    r matches Action::Reply(rep) && geometry_reply(post, rep, false)),
                    Request::Command(Command::GetConfig) => post == pre && r == Action::Reply(
                        Reply::Config(
                            config_report_of(pre, old(self).config_source, old(self).config_loaded),
                        ),
                    ),
                    Request::Command(Command::GetKeybindings) => post == pre && (
                    r matches Action::Reply(Reply::Keybindings { bindings }) && bindings_of(
                        pre,
                        bindings@,
                    )),
                    Request::Command(Command::Reload) => post == pre && r == Action::LoadConfig,
                    Request::Event(Event::Hello { .. }) => post == pre && r == Action::Reply(
                        Reply::Ack,
                    ),
                    Request::Event(Event::Topology(t)) => (if is_blip(pre, t@) {
                        post == pre
                    } else {
                        reconciled(pre, t@, post)
                    }) && (r matches Action::Reply(rep) && geometry_reply(post, rep, false)),
                    Request::Event(Event::Focus { window }) => post == (StateView {
                        focused: layout::opt_id_view(window),
                        ..pre
                    }) && r == Action::Reply(Reply::Ack),
                    Request::ConfigLoaded(Ok((cfg, loaded))) => post == applied(pre, cfg)
                        && final(self).config_loaded == loaded && r == Action::Reply(
                        Reply::Config(config_report_of(post, old(self).config_source, loaded)),
                    ),
                    Request::ConfigLoaded(Err(message)) => post == pre && r == Action::Reply(
                        Reply::Error { message },
                    ),
                    Request::Unsupported(kind) => post == pre && (r matches Action::Reply(
                        Reply::Error { message },
                    ) && message@ == "unsupported message: "@ + kind@),
                }
            }),
            final(self).config_source == old(self).config_source,
            !(request is ConfigLoaded) ==> final(self).config_loaded == old(self).config_loaded,
    {
        match request {
            Request::Command(cmd) => match cmd {
                Command::Status => Action::Reply(
                    Reply::Status(
                        StatusReport {
                            version: String::from_str(version),
                            protocol: PROTOCOL_VERSION,
                            uptime_secs,
                            cells: self.state.cell_count(),
                            windows: self.state.window_count(),
                        },
                    ),
                ),
                Command::Reset => Action::Reply(Reply::Reconciled(self.state.reset())),
                Command::Focus { direction } => {
                    Action::Reply(Reply::Focus { window: self.state.focus_neighbor(direction) })
                },
                Command::Move { direction } => {
                    let outcome = self.state.move_window(direction);
                    let rep = self.geometry_reply(outcome == MoveOutcome::CrossedOutput);
                    Action::Reply(rep)
                },
                Command::Resize { direction } => {
                    self.state.resize(direction);
                    Action::Reply(self.geometry_reply(false))
                },
                Command::SetLayout { layout } => {
                    self.state.set_layout(layout);
                    Action::Reply(self.geometry_reply(false))
                },
                Command::MasterRatio { delta } => {
                    self.state.adjust_master_ratio(delta);
                    Action::Reply(self.geometry_reply(false))
                },
                Command::MasterCount { delta } => {
                    self.state.adjust_master_count(delta);
                    Action::Reply(self.geometry_reply(false))
                },
                Command::ToggleTiling => {
                    self.state.toggle_tiling();
                    Action::Reply(self.geometry_reply(false))
                },
                Command::ToggleFloat { window } => {
                    self.state.toggle_float(window);
                    Action::Reply(self.geometry_reply(false))
                },
                Command::GetConfig => Action::Reply(self.config_reply()),
                Command::GetKeybindings => Action::Reply(
                    Reply::Keybindings { bindings: self.state.keybindings() },
                ),
                Command::Reload => Action::LoadConfig,
            },
            Request::Event(event) => match event {
                Event::Hello { .. } => Action::Reply(Reply::Ack),
                Event::Topology(topology) => {
                    self.state.reconcile(&topology);
                    Action::Reply(self.geometry_reply(false))
                },
                Event::Focus { window } => {
                    self.state.set_focus(window);
                    Action::Reply(Reply::Ack)
                },
            },
            Request::ConfigLoaded(outcome) => match outcome {
                Ok((cfg, loaded)) => {
                    self.config_loaded = loaded;
                    self.state.apply_config(&cfg);
                    Action::Reply(self.config_reply())
                },
                Err(message) => Action::Reply(Reply::Error { message }),
            },
            Request::Unsupported(kind) => {
                let mut message = String::from_str("unsupported message: ");
                message.append(kind.as_str());
                Action::Reply(Reply::Error { message })
            },
        }
    }
}

} // verus!
