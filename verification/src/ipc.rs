//! The shared protocol: identifiers, topology snapshots, the request and reply
//! messages, and the length-prefixed framing used on stream transports.
//!
//! A frame is a 4-byte big-endian length followed by the body. Bodies are
//! bounded by [`MAX_FRAME`]; a prefix announcing more is refused before any
//! body is read.

use vstd::prelude::*;

use crate::text::str_eq;

verus! {

/// Wire protocol version. Bumped on any breaking change to message shapes.
pub const PROTOCOL_VERSION: u32 = 1;

/// The daemon's version, as reported in status replies.
pub const VERSION: &'static str = "0.1.0";

/// Maximum accepted frame body size (1 MiB).
pub const MAX_FRAME: usize = 1048576;

/// Fixed-point scale of a master ratio: `RATIO_SCALE` stands for `1.0`.
pub const RATIO_SCALE: u32 = 1000000;

/// Identifier of a physical output (screen).
#[derive(Debug, PartialEq, Eq, Hash)]
pub struct OutputId(pub String);

/// Identifier of a virtual desktop.
#[derive(Debug, PartialEq, Eq, Hash)]
pub struct DesktopId(pub String);

/// Identifier of a Plasma activity.
#[derive(Debug, PartialEq, Eq, Hash)]
pub struct ActivityId(pub String);

/// Stable identifier of a managed window.
#[derive(Debug, PartialEq, Eq, Hash)]
pub struct WindowId(pub String);

impl View for OutputId {
    type V = Seq<char>;

    open spec fn view(&self) -> Seq<char> {
        self.0@
    }
}

impl View for DesktopId {
    type V = Seq<char>;

    open spec fn view(&self) -> Seq<char> {
        self.0@
    }
}

impl View for ActivityId {
    type V = Seq<char>;

    open spec fn view(&self) -> Seq<char> {
        self.0@
    }
}

impl View for WindowId {
    type V = Seq<char>;

    open spec fn view(&self) -> Seq<char> {
        self.0@
    }
}

impl Clone for OutputId {
    fn clone(&self) -> (r: Self)
        ensures
            r == *self,
    {
        OutputId(self.0.clone())
    }
}

impl Clone for DesktopId {
    fn clone(&self) -> (r: Self)
        ensures
            r == *self,
    {
        DesktopId(self.0.clone())
    }
}

impl Clone for ActivityId {
    fn clone(&self) -> (r: Self)
        ensures
            r == *self,
    {
        ActivityId(self.0.clone())
    }
}

impl Clone for WindowId {
    fn clone(&self) -> (r: Self)
        ensures
            r == *self,
    {
        WindowId(self.0.clone())
    }
}

impl OutputId {
    /// An identifier holding the characters of `s`.
    pub fn new(s: &str) -> (r: Self)
        ensures
            r@ == s@,
    {
        OutputId(s.to_owned())
    }

    /// Whether both identifiers hold the same characters.
    pub fn same(&self, other: &Self) -> (r: bool)
        ensures
            r == (self@ == other@),
    {
        str_eq(self.0.as_str(), other.0.as_str())
    }
}

impl DesktopId {
    /// An identifier holding the characters of `s`.
    pub fn new(s: &str) -> (r: Self)
        ensures
            r@ == s@,
    {
        DesktopId(s.to_owned())
    }

    /// Whether both identifiers hold the same characters.
    pub fn same(&self, other: &Self) -> (r: bool)
        ensures
            r == (self@ == other@),
    {
        str_eq(self.0.as_str(), other.0.as_str())
    }
}

impl ActivityId {
    /// An identifier holding the characters of `s`.
    pub fn new(s: &str) -> (r: Self)
        ensures
            r@ == s@,
    {
        ActivityId(s.to_owned())
    }

    /// Whether both identifiers hold the same characters.
    pub fn same(&self, other: &Self) -> (r: bool)
        ensures
            r == (self@ == other@),
    {
        str_eq(self.0.as_str(), other.0.as_str())
    }
}

impl WindowId {
    /// An identifier holding the characters of `s`.
    pub fn new(s: &str) -> (r: Self)
        ensures
            r@ == s@,
    {
        WindowId(s.to_owned())
    }

    /// Whether both identifiers hold the same characters.
    pub fn same(&self, other: &Self) -> (r: bool)
        ensures
            r == (self@ == other@),
    {
        str_eq(self.0.as_str(), other.0.as_str())
    }
}

/// An axis-aligned rectangle in global compositor pixel coordinates.
#[derive(Debug, Clone, Copy, PartialEq, Eq, Structural)]
pub struct Rect {
    pub x: i32,
    pub y: i32,
    pub width: i32,
    pub height: i32,
}

/// A physical output present in the live topology.
#[derive(Debug, PartialEq, Eq)]
pub struct Output {
    pub id: OutputId,
    pub name: String,
    /// The output's placement and size in global compositor coordinates.
    pub rect: Rect,
}

/// A virtual desktop present in the live topology.
#[derive(Debug, PartialEq, Eq)]
pub struct Desktop {
    pub id: DesktopId,
    pub name: String,
}

/// A Plasma activity present in the live topology.
#[derive(Debug, PartialEq, Eq)]
pub struct Activity {
    pub id: ActivityId,
    pub name: String,
}

/// A managed window and its placement within the topology.
#[derive(Debug, PartialEq, Eq)]
pub struct Window {
    pub id: WindowId,
    pub output: OutputId,
    pub desktop: DesktopId,
    pub activity: ActivityId,
    /// The window's resource class, when the compositor reports one.
    pub class: Option<String>,
    /// The window's caption, when the compositor reports one.
    pub title: Option<String>,
}

impl Clone for Output {
    fn clone(&self) -> (r: Self)
        ensures
            r == *self,
    {
        Output { id: self.id.clone(), name: self.name.clone(), rect: self.rect }
    }
}

impl Clone for Desktop {
    fn clone(&self) -> (r: Self)
        ensures
            r == *self,
    {
        Desktop { id: self.id.clone(), name: self.name.clone() }
    }
}

impl Clone for Activity {
    fn clone(&self) -> (r: Self)
        ensures
            r == *self,
    {
        Activity { id: self.id.clone(), name: self.name.clone() }
    }
}

/// A copy of an optional string.
pub fn clone_opt_string(s: &Option<String>) -> (r: Option<String>)
    ensures
        r == *s,
{
    match s {
        Some(v) => Some(v.clone()),
        None => None,
    }
}

impl Clone for Window {
    fn clone(&self) -> (r: Self)
        ensures
            r == *self,
    {
        Window {
            id: self.id.clone(),
            output: self.output.clone(),
            desktop: self.desktop.clone(),
            activity: self.activity.clone(),
            class: clone_opt_string(&self.class),
            title: clone_opt_string(&self.title),
        }
    }
}

/// A full snapshot of the live compositor topology.
#[derive(Debug, PartialEq, Eq)]
pub struct Topology {
    pub outputs: Vec<Output>,
    pub desktops: Vec<Desktop>,
    pub activities: Vec<Activity>,
    pub windows: Vec<Window>,
}

/// The value of a topology: its four lists, element by element.
#[verifier::ext_equal]
pub struct TopologyView {
    pub outputs: Seq<Output>,
    pub desktops: Seq<Desktop>,
    pub activities: Seq<Activity>,
    pub windows: Seq<Window>,
}

impl View for Topology {
    type V = TopologyView;

    open spec fn view(&self) -> TopologyView {
        TopologyView {
            outputs: self.outputs@,
            desktops: self.desktops@,
            activities: self.activities@,
            windows: self.windows@,
        }
    }
}

impl Topology {
    /// The empty topology: no outputs, desktops, activities or windows.
    pub fn empty() -> (r: Self)
        ensures
            r@.outputs.len() == 0,
            r@.desktops.len() == 0,
            r@.activities.len() == 0,
            r@.windows.len() == 0,
    {
        Topology {
            outputs: Vec::new(),
            desktops: Vec::new(),
            activities: Vec::new(),
            windows: Vec::new(),
        }
    }

    /// A copy of this topology.
    fn duplicate(&self) -> (r: Self)
        ensures
            r@ == self@,
    {
        let outputs = self.outputs.clone();
        let desktops = self.desktops.clone();
        let activities = self.activities.clone();
        let windows = self.windows.clone();
        assert(outputs@ =~= self.outputs@);
        assert(desktops@ =~= self.desktops@);
        assert(activities@ =~= self.activities@);
        assert(windows@ =~= self.windows@);
        Topology { outputs, desktops, activities, windows }
    }
}

impl Clone for Topology {
    fn clone(&self) -> (r: Self)
        ensures
            r@ == self@,
    {
        self.duplicate()
    }
}

impl Default for Topology {
    fn default() -> (r: Self)
        ensures
            r@.outputs.len() == 0,
            r@.desktops.len() == 0,
            r@.activities.len() == 0,
            r@.windows.len() == 0,
    {
        Topology::empty()
    }
}

/// The tiling layout assigned to a cell.
#[derive(Debug, Clone, Copy, PartialEq, Eq, Structural)]
pub enum LayoutKind {
    Tile,
    Monocle,
    Columns,
    Spiral,
    ThreeColumn,
    Floating,
}

impl Default for LayoutKind {
    fn default() -> (r: Self)
        ensures
            r == LayoutKind::Tile,
    {
        LayoutKind::Tile
    }
}

/// The layout a lowercase config name stands for, if any.
pub open spec fn layout_from_name(s: Seq<char>) -> Option<LayoutKind> {
    if s == "tile"@ {
        Some(LayoutKind::Tile)
    } else if s == "monocle"@ {
        Some(LayoutKind::Monocle)
    } else if s == "columns"@ {
        Some(LayoutKind::Columns)
    } else if s == "spiral"@ {
        Some(LayoutKind::Spiral)
    } else if s == "threecolumn"@ {
        Some(LayoutKind::ThreeColumn)
    } else if s == "floating"@ {
        Some(LayoutKind::Floating)
    } else {
        None
    }
}

impl LayoutKind {
    /// Parse a lowercase layout name, as used in the config file.
    pub fn from_name(s: &str) -> (r: Option<LayoutKind>)
        ensures
            r == layout_from_name(s@),
    {
        if str_eq(s, "tile") {
            Some(LayoutKind::Tile)
        } else if str_eq(s, "monocle") {
            Some(LayoutKind::Monocle)
        } else if str_eq(s, "columns") {
            Some(LayoutKind::Columns)
        } else if str_eq(s, "spiral") {
            Some(LayoutKind::Spiral)
        } else if str_eq(s, "threecolumn") {
            Some(LayoutKind::ThreeColumn)
        } else if str_eq(s, "floating") {
            Some(LayoutKind::Floating)
        } else {
            None
        }
    }

    /// Parse a lowercase layout name; an unknown name yields a diagnostic
    /// that quotes it as `{:?}` does and lists the accepted names.
    pub fn from_str(s: &str) -> (r: Result<LayoutKind, String>)
        ensures
            r is Ok <==> layout_from_name(s@) is Some,
            r matches Ok(k) ==> layout_from_name(s@) == Some(k),
            r matches Err(m) ==> m@ == unknown_layout_text(debug_quoted(s@)),
    {
        match LayoutKind::from_name(s) {
            Some(k) => Ok(k),
            None => {
                let quoted = quote_debug(s);
                Err(unknown_layout_message(quoted.as_str()))
            },
        }
    }
}

/// What `format!("{:?}", s)` gives for a string with the characters `s`: the
/// text in double quotes, with quotes, backslashes and unprintable characters
/// escaped.
pub uninterp spec fn debug_quoted(s: Seq<char>) -> Seq<char>;

/// Formats `s` with std's `Debug` for `str` (`format!("{:?}", s)`). The
/// contract claims only that the result is a function of the characters of
/// `s`, named [`debug_quoted`]; how the escaping goes is left unsaid.
#[verifier::external_body]
fn quote_debug(s: &str) -> (r: String)
    ensures
        r@ == debug_quoted(s@),
{
    format!("{:?}", s)
}

/// The diagnostic for an unknown layout name, given the name already quoted.
pub open spec fn unknown_layout_text(quoted: Seq<char>) -> Seq<char> {
    "unknown layout "@ + quoted
        + " (expected one of: tile, monocle, columns, spiral, threecolumn, floating)"@
}

/// The diagnostic for an unknown layout name, given the name already quoted.
pub fn unknown_layout_message(quoted: &str) -> (r: String)
    ensures
        r@ == unknown_layout_text(quoted@),
{
    let mut msg = String::from_str("unknown layout ");
    msg.append(quoted);
    msg.append(" (expected one of: tile, monocle, columns, spiral, threecolumn, floating)");
    msg
}

/// A cardinal direction for focus and movement commands.
#[derive(Debug, Clone, Copy, PartialEq, Eq, Structural)]
pub enum Direction {
    Left,
    Right,
    Up,
    Down,
}

/// Events pushed from the compositor script to the daemon.
#[derive(Debug, Clone, PartialEq, Eq)]
pub enum Event {
    /// Initial handshake sent by the script on connect.
    Hello { kwin_version: String, protocol: u32 },
    /// A full topology snapshot to reconcile against.
    Topology(Topology),
    /// The active window changed (or focus was lost: `window` is `None`).
    Focus { window: Option<WindowId> },
}

/// Commands sent from a client to the daemon.
///
/// A master-ratio delta is a fixed-point fraction of [`RATIO_SCALE`].
#[derive(Debug, Clone, PartialEq, Eq)]
pub enum Command {
    /// Query daemon health and identity.
    Status,
    /// Force a full re-materialization of the cell map from the last topology.
    Reset,
    /// Move keyboard focus to the neighbor in `direction`.
    Focus { direction: Direction },
    /// Move the focused window toward `direction`.
    Move { direction: Direction },
    /// Resize the focused split toward `direction`.
    Resize { direction: Direction },
    /// Switch the focused cell to `layout`.
    SetLayout { layout: LayoutKind },
    /// Adjust the master-area ratio by `delta` (clamped to a sane range).
    MasterRatio { delta: i32 },
    /// Adjust the master-window count by `delta` (never below one).
    MasterCount { delta: i32 },
    /// Flip global auto-tiling.
    ToggleTiling,
    /// Toggle the floating state of `window`, or of the focused window.
    ToggleFloat { window: Option<WindowId> },
    /// Re-read the config file and apply it.
    Reload,
    /// Report the daemon's effective configuration.
    GetConfig,
    /// Report the effective keybinding table.
    GetKeybindings,
}

/// One entry of the keybinding table: a stable id, a label, a key sequence and
/// the command the key sends.
#[derive(Debug, Clone, PartialEq, Eq)]
pub struct Keybinding {
    pub id: String,
    pub description: String,
    pub key: String,
    pub command: Command,
}

/// Daemon identity and health snapshot.
#[derive(Debug, Clone, PartialEq, Eq)]
pub struct StatusReport {
    pub version: String,
    pub protocol: u32,
    pub uptime_secs: u64,
    pub cells: usize,
    pub windows: usize,
}

/// The daemon's effective configuration, flattened for display.
///
/// `master_ratio` is a fixed-point fraction of [`RATIO_SCALE`].
#[derive(Debug, Clone, PartialEq, Eq)]
pub struct ConfigReport {
    pub layout: LayoutKind,
    pub master_ratio: u32,
    pub master_count: u32,
    pub gaps_inner: i32,
    pub gaps_outer: i32,
    pub per_desktop: bool,
    pub per_activity: bool,
    pub focus_follows_mouse: bool,
    pub tiling_enabled: bool,
    pub source: String,
    pub loaded: bool,
}

/// Summary of a reconcile pass.
#[derive(Debug, Clone, Copy, PartialEq, Eq, Structural)]
pub struct ReconcileReport {
    pub cells: usize,
    pub windows: usize,
}

/// The computed target geometry for a single managed window.
#[derive(Debug, PartialEq, Eq)]
pub struct WindowGeometry {
    pub id: WindowId,
    pub rect: Rect,
}

impl Clone for WindowGeometry {
    fn clone(&self) -> (r: Self)
        ensures
            r == *self,
    {
        WindowGeometry { id: self.id.clone(), rect: self.rect }
    }
}

/// A batch of window geometries applied in one pass.
#[derive(Debug, Clone, PartialEq, Eq)]
pub struct GeometrySet {
    pub windows: Vec<WindowGeometry>,
}

/// Replies sent from the daemon back to a client.
#[derive(Debug, Clone, PartialEq, Eq)]
pub enum Reply {
    /// Generic success acknowledgement.
    Ack,
    /// Response to [`Command::Status`].
    Status(StatusReport),
    /// Result of a reconcile (from [`Command::Reset`]).
    Reconciled(ReconcileReport),
    /// Computed window geometry for the script to apply.
    Geometry(GeometrySet),
    /// Geometry after a move that crossed outputs: the script must re-push
    /// its topology so the window is re-keyed on its new output.
    GeometryResync(GeometrySet),
    /// The window the script should activate (`None`: no neighbor).
    Focus { window: Option<WindowId> },
    /// The daemon's effective configuration.
    Config(ConfigReport),
    /// The effective keybinding table.
    Keybindings { bindings: Vec<Keybinding> },
    /// A request could not be served.
    Error { message: String },
}

/// Errors produced by the framing codec.
#[derive(Debug, Clone, Copy, PartialEq, Eq, Structural)]
pub enum IpcError {
    /// A frame announced or carried more than [`MAX_FRAME`] body bytes.
    FrameTooLarge(usize),
    /// The stream ended in the middle of a frame.
    UnexpectedEof,
}

/// The four big-endian bytes of `n`.
pub open spec fn be_bytes(n: nat) -> Seq<u8> {
    seq![
        ((n / 0x1000000) % 0x100) as u8,
        ((n / 0x10000) % 0x100) as u8,
        ((n / 0x100) % 0x100) as u8,
        (n % 0x100) as u8,
    ]
}

/// The number that four big-endian bytes spell.
pub open spec fn be_value(b: Seq<u8>) -> nat {
    (b[0] as nat) * 0x1000000 + (b[1] as nat) * 0x10000 + (b[2] as nat) * 0x100 + (b[3] as nat)
}

/// The frame that carries `body`: its length, big-endian, then the body.
pub open spec fn frame_of(body: Seq<u8>) -> Seq<u8> {
    be_bytes(body.len()) + body
}

/// Frame `body` for a stream transport.
///
/// A body over [`MAX_FRAME`] bytes is refused with `FrameTooLarge(len)`.
pub fn encode(body: &Vec<u8>) -> (r: Result<Vec<u8>, IpcError>)
    ensures
        body@.len() > MAX_FRAME ==> r == Err::<Vec<u8>, IpcError>(
            IpcError::FrameTooLarge(body@.len() as usize),
        ),
        body@.len() <= MAX_FRAME ==> (r matches Ok(f) && f@ == frame_of(body@)),
{
    let len = body.len();
    if len > MAX_FRAME {
        return Err(IpcError::FrameTooLarge(len));
    }
    let mut frame: Vec<u8> = Vec::new();
    frame.push(((len / 0x1000000) % 0x100) as u8);
    frame.push(((len / 0x10000) % 0x100) as u8);
    frame.push(((len / 0x100) % 0x100) as u8);
    frame.push((len % 0x100) as u8);
    let mut i: usize = 0;
    while i < len
        invariant
            len == body@.len(),
            i <= len,
            frame@ == be_bytes(len as nat) + body@.subrange(0, i as int),
        decreases len - i,
    {
        frame.push(body[i]);
        i = i + 1;
        assert(frame@ =~= be_bytes(len as nat) + body@.subrange(0, i as int));
    }
    assert(body@.subrange(0, len as int) =~= body@);
    Ok(frame)
}

/// Decode a frame's 4-byte length prefix, refusing one over [`MAX_FRAME`]
/// before any body is read.
pub fn frame_len(prefix: [u8; 4]) -> (r: Result<usize, IpcError>)
    ensures
        be_value(prefix@) > MAX_FRAME ==> r == Err::<usize, IpcError>(
            IpcError::FrameTooLarge(be_value(prefix@) as usize),
        ),
        be_value(prefix@) <= MAX_FRAME ==> r == Ok::<usize, IpcError>(be_value(prefix@) as usize),
{
    let v: u32 = (prefix[0] as u32) * 0x1000000 + (prefix[1] as u32) * 0x10000 + (prefix[2] as u32)
        * 0x100 + (prefix[3] as u32);
    assert(v == be_value(prefix@));
    let len = v as usize;
    if len > MAX_FRAME {
        Err(IpcError::FrameTooLarge(len))
    } else {
        Ok(len)
    }
}

/// What reading one frame from a stream that holds `bytes` yields: the
/// frame's body, `FrameTooLarge` for a prefix over [`MAX_FRAME`] (checked
/// before any body byte is needed), or `UnexpectedEof` when the stream ends
/// inside the prefix or the body.
pub open spec fn decoded(bytes: Seq<u8>) -> Result<Seq<u8>, IpcError> {
    if bytes.len() < 4 {
        Err(IpcError::UnexpectedEof)
    } else {
        let n = be_value(bytes);
        if n > MAX_FRAME {
            Err(IpcError::FrameTooLarge(n as usize))
        } else if bytes.len() < 4 + n {
            Err(IpcError::UnexpectedEof)
        } else {
            Ok(bytes.subrange(4, 4 + n as int))
        }
    }
}

/// Read the first frame out of `bytes`, the contents of a stream.
pub fn decode(bytes: &Vec<u8>) -> (r: Result<Vec<u8>, IpcError>)
    ensures
        match decoded(bytes@) {
            Ok(body) => r matches Ok(b) && b@ == body,
            Err(e) => r == Err::<Vec<u8>, IpcError>(e),
        },
{
    if bytes.len() < 4 {
        return Err(IpcError::UnexpectedEof);
    }
    let prefix: [u8; 4] = [bytes[0], bytes[1], bytes[2], bytes[3]];
    assert(be_value(prefix@) == be_value(bytes@));
    let len = match frame_len(prefix) {
        Ok(len) => len,
        Err(e) => {
            return Err(e);
        },
    };
    if bytes.len() - 4 < len {
        return Err(IpcError::UnexpectedEof);
    }
    let mut body: Vec<u8> = Vec::new();
    let mut i: usize = 0;
    while i < len
        invariant
            len <= MAX_FRAME,
            4 + len <= bytes@.len(),
            i <= len,
            body@ == bytes@.subrange(4, 4 + i),
        decreases len - i,
    {
        body.push(bytes[4 + i]);
        i = i + 1;
        assert(body@ =~= bytes@.subrange(4, 4 + i));
    }
    Ok(body)
}

/// A frame round-trips: the prefix of the frame of `body` announces exactly
/// `body`'s length, and the bytes after the prefix are `body` itself.
pub proof fn lemma_frame_round_trip(body: Seq<u8>)
    requires
        body.len() <= MAX_FRAME,
    ensures
        frame_of(body).len() == body.len() + 4,
        be_value(frame_of(body).subrange(0, 4)) == body.len(),
        frame_of(body).subrange(4, frame_of(body).len() as int) == body,
{
    let n = body.len();
    let f = frame_of(body);
    assert(f.subrange(4, f.len() as int) =~= body);
    let p = f.subrange(0, 4);
    assert(p[0] == ((n / 0x1000000) % 0x100) as u8);
    assert(p[1] == ((n / 0x10000) % 0x100) as u8);
    assert(p[2] == ((n / 0x100) % 0x100) as u8);
    assert(p[3] == (n % 0x100) as u8);
    assert((n / 0x1000000) % 0x100 == 0);
    assert(n == ((n / 0x10000) % 0x100) * 0x10000 + ((n / 0x100) % 0x100) * 0x100 + n % 0x100)
        by (nonlinear_arith)
        requires
            n <= 0x100000,
    ;
}

/// Reading a frame back gives what was framed: whatever follows a frame in
/// the stream, decoding the frame of a body that [`encode`] accepts yields
/// that body.
pub proof fn lemma_decode_encode(body: Seq<u8>, rest: Seq<u8>)
    requires
        body.len() <= MAX_FRAME,
    ensures
        decoded(frame_of(body) + rest) == Ok::<Seq<u8>, IpcError>(body),
{
    lemma_frame_round_trip(body);
    let f = frame_of(body);
    let s = f + rest;
    assert(s.subrange(0, 4) =~= f.subrange(0, 4));
    assert(be_value(s) == be_value(s.subrange(0, 4)));
    assert(s.subrange(4, 4 + body.len() as int) =~= body);
}

} // verus!
