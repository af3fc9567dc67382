//! The daemon-owned default keybinding table.
//!
//! The script asks for this table at handshake and registers each entry by its
//! stable id (`rift_<group>_<name>`), so a key can be remapped through the
//! `[keys]` section of the config without touching the script. Punctuation
//! keys are the literal glyphs (`-`, `=`, `,`, `.`), the only spelling key
//! sequences accept for them.

use vstd::prelude::*;

use crate::ipc::{Command, Direction, Keybinding, LayoutKind};
use crate::text::str_eq;

verus! {

/// The value of a binding: its id, description and key as characters, and
/// the command it sends.
pub open spec fn binding_view(b: Keybinding) -> (Seq<char>, Seq<char>, Seq<char>, Command) {
    (b.id@, b.description@, b.key@, b.command)
}

/// The directions in binding order, each with its vim key letter.
pub open spec fn direction_at(i: int) -> Direction {
    if i == 0 {
        Direction::Left
    } else if i == 1 {
        Direction::Down
    } else if i == 2 {
        Direction::Up
    } else {
        Direction::Right
    }
}

pub open spec fn dir_name_spec(d: Direction) -> Seq<char> {
    match d {
        Direction::Left => "left"@,
        Direction::Right => "right"@,
        Direction::Up => "up"@,
        Direction::Down => "down"@,
    }
}

pub open spec fn dir_label_spec(d: Direction) -> Seq<char> {
    match d {
        Direction::Left => "Left"@,
        Direction::Right => "Right"@,
        Direction::Up => "Up"@,
        Direction::Down => "Down"@,
    }
}

pub open spec fn dir_letter_spec(d: Direction) -> Seq<char> {
    match d {
        Direction::Left => "H"@,
        Direction::Down => "J"@,
        Direction::Up => "K"@,
        Direction::Right => "L"@,
    }
}

pub open spec fn layout_name_spec(l: LayoutKind) -> Seq<char> {
    match l {
        LayoutKind::Tile => "tile"@,
        LayoutKind::Monocle => "monocle"@,
        LayoutKind::Columns => "columns"@,
        LayoutKind::Spiral => "spiral"@,
        LayoutKind::ThreeColumn => "threecolumn"@,
        LayoutKind::Floating => "floating"@,
    }
}

pub open spec fn layout_label_spec(l: LayoutKind) -> Seq<char> {
    match l {
        LayoutKind::Tile => "Tile"@,
        LayoutKind::Monocle => "Monocle"@,
        LayoutKind::Columns => "Columns"@,
        LayoutKind::Spiral => "Spiral"@,
        LayoutKind::ThreeColumn => "ThreeColumn"@,
        LayoutKind::Floating => "Floating"@,
    }
}

/// The layouts in binding order.
pub open spec fn layout_at(i: int) -> LayoutKind {
    if i == 0 {
        LayoutKind::Tile
    } else if i == 1 {
        LayoutKind::Monocle
    } else if i == 2 {
        LayoutKind::Columns
    } else if i == 3 {
        LayoutKind::Spiral
    } else if i == 4 {
        LayoutKind::ThreeColumn
    } else {
        LayoutKind::Floating
    }
}

/// The key of a layout binding: `Meta+<letter>`, except for the two layouts
/// whose plain key collides with a desktop default and takes `Shift`.
pub open spec fn layout_key_spec(l: LayoutKind) -> Seq<char> {
    match l {
        LayoutKind::Tile => "Meta+Shift+T"@,
        LayoutKind::Monocle => "Meta+"@ + "M"@,
        LayoutKind::Columns => "Meta+"@ + "C"@,
        LayoutKind::Spiral => "Meta+"@ + "S"@,
        LayoutKind::ThreeColumn => "Meta+Shift+D"@,
        LayoutKind::Floating => "Meta+"@ + "F"@,
    }
}

/// The built-in table, in registration order: focus, move and resize for
/// each direction; one entry per layout; the two toggles; the four master
/// adjustments.
pub open spec fn default_table() -> Seq<(Seq<char>, Seq<char>, Seq<char>, Command)> {
    Seq::new(
        4,
        |i: int|
            (
                "rift_focus_"@ + dir_name_spec(direction_at(i)),
                "Rift: Focus "@ + dir_label_spec(direction_at(i)),
                "Meta+"@ + dir_letter_spec(direction_at(i)),
                Command::Focus { direction: direction_at(i) },
            ),
    ) + Seq::new(
        4,
        |i: int|
            (
                "rift_move_"@ + dir_name_spec(direction_at(i)),
                "Rift: Move window "@ + dir_label_spec(direction_at(i)),
                "Meta+Shift+"@ + dir_letter_spec(direction_at(i)),
                Command::Move { direction: direction_at(i) },
            ),
    ) + Seq::new(
        4,
        |i: int|
            (
                "rift_resize_"@ + dir_name_spec(direction_at(i)),
                "Rift: Resize "@ + dir_label_spec(direction_at(i)),
                "Meta+Ctrl+"@ + dir_letter_spec(direction_at(i)),
                Command::Resize { direction: direction_at(i) },
            ),
    ) + Seq::new(
        6,
        |i: int|
            (
                "rift_layout_"@ + layout_name_spec(layout_at(i)),
                "Rift: "@ + layout_label_spec(layout_at(i)) + " layout"@,
                layout_key_spec(layout_at(i)),
                Command::SetLayout { layout: layout_at(i) },
            ),
    ) + seq![
        (
            "rift_toggle_tiling"@,
            "Rift: Toggle auto-tiling"@,
            "Meta+Y"@,
            Command::ToggleTiling,
        ),
        (
            "rift_toggle_float"@,
            "Rift: Toggle float (focused)"@,
            "Meta+Shift+Space"@,
            Command::ToggleFloat { window: None },
        ),
        (
            "rift_master_ratio_dec"@,
            "Rift: Shrink master area"@,
            "Meta+Shift+-"@,
            Command::MasterRatio { delta: -50000i32 },
        ),
        (
            "rift_master_ratio_inc"@,
            "Rift: Grow master area"@,
            "Meta+Shift+="@,
            Command::MasterRatio { delta: 50000i32 },
        ),
        (
            "rift_master_count_dec"@,
            "Rift: Fewer master windows"@,
            "Meta+Shift+,"@,
            Command::MasterCount { delta: -1i32 },
        ),
        (
            "rift_master_count_inc"@,
            "Rift: More master windows"@,
            "Meta+Shift+."@,
            Command::MasterCount { delta: 1i32 },
        ),
    ]
}

/// `id` names a built-in binding.
pub open spec fn known_id(id: Seq<char>) -> bool {
    exists|i: int| 0 <= i < default_table().len() && #[trigger] default_table()[i].0 == id
}

/// The four directions paired with their (upper-case) vim key letter.
fn directions() -> (r: [(&'static str, Direction); 4])
    ensures
        forall|i: int| 0 <= i < 4 ==> #[trigger] r@[i].1 == direction_at(i),
        forall|i: int| 0 <= i < 4 ==> #[trigger] r@[i].0@ == dir_letter_spec(direction_at(i)),
{
    [("H", Direction::Left), ("J", Direction::Down), ("K", Direction::Up), ("L", Direction::Right)]
}

fn dir_name(dir: Direction) -> (r: &'static str)
    ensures
        r@ == dir_name_spec(dir),
{
    match dir {
        Direction::Left => "left",
        Direction::Right => "right",
        Direction::Up => "up",
        Direction::Down => "down",
    }
}

fn dir_label(dir: Direction) -> (r: &'static str)
    ensures
        r@ == dir_label_spec(dir),
{
    match dir {
        Direction::Left => "Left",
        Direction::Right => "Right",
        Direction::Up => "Up",
        Direction::Down => "Down",
    }
}

fn layout_name(layout: LayoutKind) -> (r: &'static str)
    ensures
        r@ == layout_name_spec(layout),
{
    match layout {
        LayoutKind::Tile => "tile",
        LayoutKind::Monocle => "monocle",
        LayoutKind::Columns => "columns",
        LayoutKind::Spiral => "spiral",
        LayoutKind::ThreeColumn => "threecolumn",
        LayoutKind::Floating => "floating",
    }
}

fn layout_label(layout: LayoutKind) -> (r: &'static str)
    ensures
        r@ == layout_label_spec(layout),
{
    match layout {
        LayoutKind::Tile => "Tile",
        LayoutKind::Monocle => "Monocle",
        LayoutKind::Columns => "Columns",
        LayoutKind::Spiral => "Spiral",
        LayoutKind::ThreeColumn => "ThreeColumn",
        LayoutKind::Floating => "Floating",
    }
}

/// `a` followed by `b`.
fn join2(a: &str, b: &str) -> (r: String)
    ensures
        r@ == a@ + b@,
{
    let mut s = String::from_str(a);
    s.append(b);
    s
}

/// `a`, `b` and `c` in turn.
fn join3(a: &str, b: &str, c: &str) -> (r: String)
    ensures
        r@ == a@ + b@ + c@,
{
    let mut s = String::from_str(a);
    s.append(b);
    s.append(c);
    s
}

/// Build a layout-selection binding; `key` overrides the default `Meta+<letter>`.
fn layout_bind(letter: &str, layout: LayoutKind, key: Option<&str>) -> (r: Keybinding)
    ensures
        r.id@ == "rift_layout_"@ + layout_name_spec(layout),
        r.description@ == "Rift: "@ + layout_label_spec(layout) + " layout"@,
        r.key@ == (match key {
            Some(k) => k@,
            None => "Meta+"@ + letter@,
        }),
        r.command == (Command::SetLayout { layout }),
{
    let key = match key {
        Some(k) => String::from_str(k),
        None => join2("Meta+", letter),
    };
    Keybinding {
        id: join2("rift_layout_", layout_name(layout)),
        description: join3("Rift: ", layout_label(layout), " layout"),
        key,
        command: Command::SetLayout { layout },
    }
}

/// A binding with a fixed id, description and key.
fn fixed_bind(id: &str, description: &str, key: &str, command: Command) -> (r: Keybinding)
    ensures
        binding_view(r) == (id@, description@, key@, command),
{
    Keybinding {
        id: String::from_str(id),
        description: String::from_str(description),
        key: String::from_str(key),
        command,
    }
}

/// What a master adjustment does, read from its id and description: "More"
/// and "Grow" (`_inc`) raise the count or ratio, "Fewer" and "Shrink"
/// (`_dec`) lower it.
pub open spec fn master_command_as_described(id: Seq<char>, desc: Seq<char>, cmd: Command) -> bool {
    match cmd {
        Command::MasterCount { delta } => (delta > 0 && desc == "Rift: More master windows"@ && id
            == "rift_master_count_inc"@) || (delta < 0 && desc == "Rift: Fewer master windows"@
            && id == "rift_master_count_dec"@),
        Command::MasterRatio { delta } => (delta > 0 && desc == "Rift: Grow master area"@ && id
            == "rift_master_ratio_inc"@) || (delta < 0 && desc == "Rift: Shrink master area"@ && id
            == "rift_master_ratio_dec"@),
        _ => true,
    }
}

/// Every built-in master adjustment does what its description says, and
/// each of the four adjustments has its binding.
pub proof fn lemma_master_bindings_as_described()
    ensures
        forall|i: int|
            0 <= i < default_table().len() ==> master_command_as_described(
                (#[trigger] default_table()[i]).0,
                default_table()[i].1,
                default_table()[i].3,
            ),
        exists|i: int|
            0 <= i < default_table().len() && (#[trigger] default_table()[i]).1
                == "Rift: More master windows"@ && default_table()[i].3 is MasterCount
                && default_table()[i].3->MasterCount_delta > 0,
        exists|i: int|
            0 <= i < default_table().len() && (#[trigger] default_table()[i]).1
                == "Rift: Fewer master windows"@ && default_table()[i].3 is MasterCount
                && default_table()[i].3->MasterCount_delta < 0,
        exists|i: int|
            0 <= i < default_table().len() && (#[trigger] default_table()[i]).1
                == "Rift: Grow master area"@ && default_table()[i].3 is MasterRatio
                && default_table()[i].3->MasterRatio_delta > 0,
        exists|i: int|
            0 <= i < default_table().len() && (#[trigger] default_table()[i]).1
                == "Rift: Shrink master area"@ && default_table()[i].3 is MasterRatio
                && default_table()[i].3->MasterRatio_delta < 0,
{
    let t = default_table();
    assert(t.len() == 24);
    assert forall|i: int| 0 <= i < t.len() implies master_command_as_described(
        (#[trigger] t[i]).0,
        t[i].1,
        t[i].3,
    ) by {
        if i < 18 {
            assert(!(t[i].3 is MasterCount) && !(t[i].3 is MasterRatio));
        }
    }
    assert(t[20].1 == "Rift: Shrink master area"@);
    assert(t[21].1 == "Rift: Grow master area"@);
    assert(t[22].1 == "Rift: Fewer master windows"@);
    assert(t[23].1 == "Rift: More master windows"@);
}

/// The built-in keybindings, in registration order.
pub fn defaults() -> (r: Vec<Keybinding>)
    ensures
        r@.len() == default_table().len(),
        forall|i: int| 0 <= i < r@.len() ==> binding_view(#[trigger] r@[i]) == default_table()[i],
{
    let mut binds: Vec<Keybinding> = Vec::new();
    let dirs = directions();
    let ghost table = default_table();
    let mut g: usize = 0;
    while g < 3
        invariant
            g <= 3,
            binds@.len() == 4 * g,
            forall|i: int| 0 <= i < 4 ==> #[trigger] dirs@[i].1 == direction_at(i),
            forall|i: int| 0 <= i < 4 ==> #[trigger] dirs@[i].0@ == dir_letter_spec(direction_at(i)),
            table == default_table(),
            forall|i: int| 0 <= i < binds@.len() ==> binding_view(#[trigger] binds@[i]) == table[i],
        decreases 3 - g,
    {
        let mut d: usize = 0;
        while d < 4
            invariant
                g < 3,
                d <= 4,
                binds@.len() == 4 * g + d,
                forall|i: int| 0 <= i < 4 ==> #[trigger] dirs@[i].1 == direction_at(i),
                forall|i: int|
                    0 <= i < 4 ==> #[trigger] dirs@[i].0@ == dir_letter_spec(direction_at(i)),
                table == default_table(),
                forall|i: int|
                    0 <= i < binds@.len() ==> binding_view(#[trigger] binds@[i]) == table[i],
            decreases 4 - d,
        {
            let (letter, dir) = dirs[d];
            let b = if g == 0 {
                Keybinding {
                    id: join2("rift_focus_", dir_name(dir)),
                    description: join2("Rift: Focus ", dir_label(dir)),
                    key: join2("Meta+", letter),
                    command: Command::Focus { direction: dir },
                }
            } else if g == 1 {
                Keybinding {
                    id: join2("rift_move_", dir_name(dir)),
                    description: join2("Rift: Move window ", dir_label(dir)),
                    key: join2("Meta+Shift+", letter),
                    command: Command::Move { direction: dir },
                }
            } else {
                Keybinding {
                    id: join2("rift_resize_", dir_name(dir)),
                    description: join2("Rift: Resize ", dir_label(dir)),
                    key: join2("Meta+Ctrl+", letter),
                    command: Command::Resize { direction: dir },
                }
            };
            assert(binding_view(b) == table[4 * g + d]);
            binds.push(b);
            d = d + 1;
        }
        g = g + 1;
    }
    binds.push(layout_bind("T", LayoutKind::Tile, Some("Meta+Shift+T")));
    binds.push(layout_bind("M", LayoutKind::Monocle, None));
    binds.push(layout_bind("C", LayoutKind::Columns, None));
    binds.push(layout_bind("S", LayoutKind::Spiral, None));
    binds.push(layout_bind("D", LayoutKind::ThreeColumn, Some("Meta+Shift+D")));
    binds.push(layout_bind("F", LayoutKind::Floating, None));
    binds.push(
        fixed_bind(
            "rift_toggle_tiling",
            "Rift: Toggle auto-tiling",
            "Meta+Y",
            Command::ToggleTiling,
        ),
    );
    binds.push(
        fixed_bind(
            "rift_toggle_float",
            "Rift: Toggle float (focused)",
            "Meta+Shift+Space",
            Command::ToggleFloat { window: None },
        ),
    );
    binds.push(
        fixed_bind(
            "rift_master_ratio_dec",
            "Rift: Shrink master area",
            "Meta+Shift+-",
            Command::MasterRatio { delta: -50000 },
        ),
    );
    binds.push(
        fixed_bind(
            "rift_master_ratio_inc",
            "Rift: Grow master area",
            "Meta+Shift+=",
            Command::MasterRatio { delta: 50000 },
        ),
    );
    binds.push(
        fixed_bind(
            "rift_master_count_dec",
            "Rift: Fewer master windows",
            "Meta+Shift+,",
            Command::MasterCount { delta: -1 },
        ),
    );
    binds.push(
        fixed_bind(
            "rift_master_count_inc",
            "Rift: More master windows",
            "Meta+Shift+.",
            Command::MasterCount { delta: 1 },
        ),
    );
    assert forall|i: int| 12 <= i < binds@.len() implies binding_view(#[trigger] binds@[i])
        == table[i] by {}
    binds
}

/// Whether `id` names a built-in binding, used to reject `[keys]` typos.
pub fn is_known_id(id: &str) -> (r: bool)
    ensures
        r == known_id(id@),
{
    let table = defaults();
    let mut i: usize = 0;
    while i < table.len()
        invariant
            table@.len() == default_table().len(),
            forall|j: int|
                0 <= j < table@.len() ==> binding_view(#[trigger] table@[j]) == default_table()[j],
            i <= table@.len(),
            forall|j: int| 0 <= j < i ==> default_table()[j].0 != id@,
        decreases table@.len() - i,
    {
        assert(binding_view(table@[i as int]) == default_table()[i as int]);
        if str_eq(table[i].id.as_str(), id) {
            assert(default_table()[i as int].0 == id@);
            return true;
        }
        i = i + 1;
    }
    false
}

} // verus!
