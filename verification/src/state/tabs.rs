//! What the window's tabs are made of: the tab itself, and the rows and fields each one edits.
//!
//! A tab is a list of rows, a row is a set of fields, and a field is one of a few kinds of value. Nothing here
//! touches a file or a display - it is the shape of the data, which is what makes the window's editing testable
//! without either.

use vstd::prelude::*;
use crate::json::{jget, jget_array, jget_str, ju64, Json, JsonV};
use crate::text::same_text;

verus! {

/// Which part of the window is showing.
#[derive(Debug, Clone, Copy, PartialEq, Eq, Structural)]
pub enum Tab {
    /// The map: what each control on the pad does.
    Bindings,
    /// The pad's menu: its items, and what each one opens or runs.
    Menu,
    /// The endpoints applets read, and which applets need them.
    Sources,
    /// Designing an applet: its own fields, the sources it reads, and the screen as it will look.
    Applets,
    /// Themes: the effects a screen wears.
    Themes,
    /// Every value this build publishes: what it is, what it is now, and which applets read it.
    Values,
    /// The macros: what there is, what it does, and editing it where it lives.
    Macros,
}

/// A tab's name, as the tab bar shows it.
pub open spec fn tab_title(tab: Tab) -> Seq<char> {
    match tab {
        Tab::Bindings => "Bindings"@,
        Tab::Menu => "Menu"@,
        Tab::Sources => "Endpoints"@,
        Tab::Applets => "Applets"@,
        Tab::Themes => "Themes"@,
        Tab::Values => "Values"@,
        Tab::Macros => "Macros"@,
    }
}

impl Tab {
    /// The tab's name, as the button in the tab bar shows it.
    pub fn title(self) -> (r: &'static str)
        ensures
            r@ == tab_title(self),
    {
        match self {
            Tab::Bindings => "Bindings",
            Tab::Menu => "Menu",
            Tab::Sources => "Endpoints",
            Tab::Applets => "Applets",
            Tab::Themes => "Themes",
            Tab::Values => "Values",
            Tab::Macros => "Macros",
        }
    }
}

/// One row of the bindings table.
#[derive(Debug, Clone, PartialEq)]
pub struct Row {
    /// The control's name: `G1`, `LR`, `stick up`.
    pub control: String,
    /// Which bit of the pad's report it is, or none when no bit carries it.
    pub bit: Option<usize>,
    /// The action as the file writes it, or empty when unbound.
    pub action: String,
    /// What the driver will do with it, in words.
    pub effect: String,
    /// What it does when it is held, in words, when it has a hold at all.
    pub held: Option<String>,
}

/// One sector of the stick: what the bindings file says it is bound to, and what the driver will press.
pub struct SectorRow {
    /// Which sector it is, counted from zero at the top and clockwise.
    pub index: u32,
    /// The name the file uses for it: the one already written there, or its number.
    pub name: String,
    /// The action as the file writes it, or empty when the sector has none of its own.
    pub action: String,
    /// What will actually be pressed, in words.
    pub effect: String,
    /// True when that comes from the cardinals beside it rather than from a line of its own.
    pub inherited: bool,
}

/// What kind of value a widget's field holds. Decides the control, and how the file is written.
#[derive(Debug, Clone, Copy, PartialEq, Eq, Structural)]
pub enum FieldKind {
    /// A number the file always holds.
    Number,
    /// Yes or no, where leaving it out means no.
    Tick,
    /// A number the file may leave out, where leaving it out means something.
    OptionalNumber,
    /// Text the file always holds.
    Text,
    /// Text the file may leave out, where leaving it out means something.
    OptionalText,
    /// One of a fixed set of words.
    Align,
    /// What a widget does when it moves.
    Animate,
}

/// The words the window offers for `animate`. An empty word is the first choice: it means the key is not written
/// at all, which is how a widget goes back to doing nothing special.
pub const ANIMATE_WORDS: [&'static str; 3] = ["", "blink", "typewriter"];

/// What a menu item does, as one of three things rather than two sets of keys that can contradict.
#[derive(Debug, Clone, Copy, PartialEq, Eq, Structural)]
pub enum MenuDoes {
    /// It has items under it, which choosing it opens.
    List,
    /// It shows a screen.
    Screen,
    /// It runs a command.
    Command,
}

/// What a menu item does, in the menu's words.
pub open spec fn menu_does_words(does: MenuDoes) -> Seq<char> {
    match does {
        MenuDoes::List => "opens a list"@,
        MenuDoes::Screen => "shows a screen"@,
        MenuDoes::Command => "runs a command"@,
    }
}

impl MenuDoes {
    /// What this does, in the words the menu offers.
    pub fn words(self) -> (r: &'static str)
        ensures
            r@ == menu_does_words(self),
    {
        match self {
            MenuDoes::List => "opens a list",
            MenuDoes::Screen => "shows a screen",
            MenuDoes::Command => "runs a command",
        }
    }
}

/// One row of the menu editor: an item, or one of an item's own items.
#[derive(Debug, PartialEq, Eq)]
pub struct MenuRow {
    /// Where it is in the file: which top-level item, and which of its items when it is one.
    pub at: (usize, Option<usize>),
    /// What the item says on the pad.
    pub label: String,
    /// Whether it opens a list, shows a screen or runs a command.
    pub does: MenuDoes,
    /// The screen it shows, or the command it runs.
    pub value: String,
    /// Which screen of a shown applet, counted from one.
    pub screen: Option<usize>,
}

impl Clone for MenuRow {
    fn clone(&self) -> (r: Self)
        ensures
            r.at == self.at,
            r.label@ == self.label@,
            r.does == self.does,
            r.value@ == self.value@,
            r.screen == self.screen,
    {
        MenuRow {
            at: self.at,
            label: self.label.clone(),
            does: self.does,
            value: self.value.clone(),
            screen: self.screen,
        }
    }
}

/// Whether a menu item has items under it.
pub open spec fn item_opens(item: JsonV) -> bool {
    match jget_array(item, "items"@) {
        Some(items) => items.len() > 0,
        None => false,
    }
}

/// What a menu item does: a list when it has items, a screen when it names one, a command otherwise.
pub open spec fn item_does(item: JsonV) -> MenuDoes {
    if item_opens(item) {
        MenuDoes::List
    } else if jget_str(item, "show"@) is Some {
        MenuDoes::Screen
    } else {
        MenuDoes::Command
    }
}

/// The screen an item shows, or else the command it runs, or else nothing.
pub open spec fn item_value(item: JsonV) -> Seq<char> {
    match jget_str(item, "show"@) {
        Some(show) => show,
        None => match jget_str(item, "command"@) {
            Some(command) => command,
            None => Seq::empty(),
        },
    }
}

/// Which screen an item shows, when it says one.
pub open spec fn item_screen(item: JsonV) -> Option<usize> {
    match jget(item, "screen"@) {
        Some(v) => match ju64(v) {
            Some(n) => Some(n as usize),
            None => None,
        },
        None => None,
    }
}

/// What a row says about an item, field for field.
pub open spec fn menu_row_of(row: MenuRow, item: JsonV, at: (usize, Option<usize>)) -> bool {
    &&& row.at == at
    &&& row.label@ == (match jget_str(item, "label"@) {
        Some(l) => l,
        None => Seq::empty(),
    })
    &&& row.does == item_does(item)
    &&& row.value@ == item_value(item)
    &&& row.screen == item_screen(item)
}

/// One item of the menu's JSON as a row the tab can draw.
pub fn menu_row(item: &Json, at: (usize, Option<usize>)) -> (r: MenuRow)
    ensures
        menu_row_of(r, item@, at),
{
    let opens = match item.get("items") {
        Some(items) => match items.as_array() {
            Some(list) => {
                proof {
                    crate::json::lemma_items_view(list@);
                }
                list.len() > 0
            },
            None => false,
        },
        None => false,
    };
    let show: Option<&String> = match item.get("show") {
        Some(v) => v.as_str(),
        None => None,
    };
    let command: Option<&String> = match item.get("command") {
        Some(v) => v.as_str(),
        None => None,
    };
    let label = match item.get("label") {
        Some(v) => match v.as_str() {
            Some(l) => l.clone(),
            None => String::new(),
        },
        None => String::new(),
    };
    let does = if opens {
        MenuDoes::List
    } else if show.is_some() {
        MenuDoes::Screen
    } else {
        MenuDoes::Command
    };
    let value = match show {
        Some(s) => s.clone(),
        None => match command {
            Some(c) => c.clone(),
            None => String::new(),
        },
    };
    let screen = match item.get("screen") {
        Some(v) => match v.as_u64() {
            Some(n) => Some(n as usize),
            None => None,
        },
        None => None,
    };
    MenuRow { at, label, does, value, screen }
}

/// The fields a kind of widget has of its own, in the order the file writes them, with the `command` every
/// drawn widget has after them; nothing for a kind this build does not draw.
pub open spec fn own_fields(kind: Seq<char>) -> Seq<(Seq<char>, FieldKind)> {
    if kind == "text"@ {
        seq![("x"@, FieldKind::OptionalNumber), ("y"@, FieldKind::Number), ("align"@, FieldKind::Align),
            ("format"@, FieldKind::Text), ("scroll_width"@, FieldKind::OptionalNumber),
            ("scroll"@, FieldKind::Tick), ("scroll_speed"@, FieldKind::Number),
            ("command"@, FieldKind::OptionalText)]
    } else if kind == "bar"@ {
        seq![("x"@, FieldKind::Number), ("y"@, FieldKind::Number), ("w"@, FieldKind::Number),
            ("h"@, FieldKind::Number), ("source"@, FieldKind::Text), ("max"@, FieldKind::Number),
            ("command"@, FieldKind::OptionalText)]
    } else if kind == "line"@ {
        seq![("x"@, FieldKind::Number), ("y"@, FieldKind::Number), ("w"@, FieldKind::Number),
            ("command"@, FieldKind::OptionalText)]
    } else if kind == "list"@ {
        seq![("x"@, FieldKind::Number), ("y"@, FieldKind::Number), ("w"@, FieldKind::Number),
            ("rows"@, FieldKind::Number), ("source"@, FieldKind::Text),
            ("command"@, FieldKind::OptionalText)]
    } else if kind == "button"@ {
        seq![("x"@, FieldKind::Number), ("y"@, FieldKind::Number), ("w"@, FieldKind::Number),
            ("h"@, FieldKind::Number), ("format"@, FieldKind::Text),
            ("command"@, FieldKind::OptionalText)]
    } else if kind == "bitmap"@ {
        seq![("x"@, FieldKind::Number), ("y"@, FieldKind::Number), ("name"@, FieldKind::Text),
            ("command"@, FieldKind::OptionalText)]
    } else if kind == "segments"@ {
        seq![("x"@, FieldKind::Number), ("y"@, FieldKind::Number), ("w"@, FieldKind::Number),
            ("h"@, FieldKind::Number), ("count"@, FieldKind::Number), ("source"@, FieldKind::Text),
            ("max"@, FieldKind::Number), ("command"@, FieldKind::OptionalText)]
    } else if kind == "brackets"@ {
        seq![("x"@, FieldKind::Number), ("y"@, FieldKind::Number), ("h"@, FieldKind::Number),
            ("len"@, FieldKind::Number), ("thick"@, FieldKind::Number),
            ("command"@, FieldKind::OptionalText)]
    } else if kind == "arrow"@ {
        seq![("x"@, FieldKind::Number), ("y"@, FieldKind::Number), ("r"@, FieldKind::Number),
            ("source"@, FieldKind::Text), ("command"@, FieldKind::OptionalText)]
    } else {
        Seq::empty()
    }
}

/// The keys and kinds of a list of fields, as the contracts read them.
pub open spec fn fields_of(v: Seq<(&'static str, FieldKind)>) -> Seq<(Seq<char>, FieldKind)> {
    v.map_values(|p: (&'static str, FieldKind)| (p.0@, p.1))
}

fn push_field(v: &mut Vec<(&'static str, FieldKind)>, key: &'static str, kind: FieldKind)
    ensures
        fields_of(final(v)@) == fields_of(old(v)@).push((key@, kind)),
{
    v.push((key, kind));
    proof {
        assert(fields_of(v@) =~= fields_of(old(v)@).push((key@, kind)));
    }
}

/// The fields a kind has of its own, before the `animate` line every drawn kind gets.
pub fn widget_fields_of_kind(kind: &str) -> (r: Vec<(&'static str, FieldKind)>)
    ensures
        fields_of(r@) == own_fields(kind@),
{
    let mut v: Vec<(&'static str, FieldKind)> = Vec::new();
    proof {
        assert(fields_of(v@) =~= Seq::empty());
    }
    if same_text(kind, "text") {
        push_field(&mut v, "x", FieldKind::OptionalNumber);
        push_field(&mut v, "y", FieldKind::Number);
        push_field(&mut v, "align", FieldKind::Align);
        push_field(&mut v, "format", FieldKind::Text);
        push_field(&mut v, "scroll_width", FieldKind::OptionalNumber);
        push_field(&mut v, "scroll", FieldKind::Tick);
        push_field(&mut v, "scroll_speed", FieldKind::Number);
    } else if same_text(kind, "bar") {
        push_field(&mut v, "x", FieldKind::Number);
        push_field(&mut v, "y", FieldKind::Number);
        push_field(&mut v, "w", FieldKind::Number);
        push_field(&mut v, "h", FieldKind::Number);
        push_field(&mut v, "source", FieldKind::Text);
        push_field(&mut v, "max", FieldKind::Number);
    } else if same_text(kind, "line") {
        push_field(&mut v, "x", FieldKind::Number);
        push_field(&mut v, "y", FieldKind::Number);
        push_field(&mut v, "w", FieldKind::Number);
    } else if same_text(kind, "list") {
        push_field(&mut v, "x", FieldKind::Number);
        push_field(&mut v, "y", FieldKind::Number);
        push_field(&mut v, "w", FieldKind::Number);
        push_field(&mut v, "rows", FieldKind::Number);
        push_field(&mut v, "source", FieldKind::Text);
    } else if same_text(kind, "button") {
        push_field(&mut v, "x", FieldKind::Number);
        push_field(&mut v, "y", FieldKind::Number);
        push_field(&mut v, "w", FieldKind::Number);
        push_field(&mut v, "h", FieldKind::Number);
        push_field(&mut v, "format", FieldKind::Text);
    } else if same_text(kind, "bitmap") {
        push_field(&mut v, "x", FieldKind::Number);
        push_field(&mut v, "y", FieldKind::Number);
        push_field(&mut v, "name", FieldKind::Text);
    } else if same_text(kind, "segments") {
        push_field(&mut v, "x", FieldKind::Number);
        push_field(&mut v, "y", FieldKind::Number);
        push_field(&mut v, "w", FieldKind::Number);
        push_field(&mut v, "h", FieldKind::Number);
        push_field(&mut v, "count", FieldKind::Number);
        push_field(&mut v, "source", FieldKind::Text);
        push_field(&mut v, "max", FieldKind::Number);
    } else if same_text(kind, "brackets") {
        push_field(&mut v, "x", FieldKind::Number);
        push_field(&mut v, "y", FieldKind::Number);
        push_field(&mut v, "h", FieldKind::Number);
        push_field(&mut v, "len", FieldKind::Number);
        push_field(&mut v, "thick", FieldKind::Number);
    } else if same_text(kind, "arrow") {
        push_field(&mut v, "x", FieldKind::Number);
        push_field(&mut v, "y", FieldKind::Number);
        push_field(&mut v, "r", FieldKind::Number);
        push_field(&mut v, "source", FieldKind::Text);
    } else {
        return v;
    }
    push_field(&mut v, "command", FieldKind::OptionalText);
    proof {
        assert(fields_of(v@) =~= own_fields(kind@));
    }
    v
}

/// Whether a list of names holds this one.
pub open spec fn names_hold(names: Seq<&'static str>, name: Seq<char>) -> bool {
    exists|i: int| 0 <= i < names.len() && #[trigger] names[i]@ == name
}

/// The fields each kind of widget has, in the order the file writes them: its own, then `animate` when the kind is
/// one this build draws. `drawn` is the list of kinds this build draws (`g13_applets::WIDGET_KINDS`).
pub fn widget_fields_for(kind: &str, drawn: &[&'static str]) -> (r: Vec<(&'static str, FieldKind)>)
    ensures
        fields_of(r@) == if names_hold(drawn@, kind@) {
            own_fields(kind@).push(("animate"@, FieldKind::Animate))
        } else {
            own_fields(kind@)
        },
{
    let mut fields = widget_fields_of_kind(kind);
    let mut i: usize = 0;
    let mut found = false;
    while i < drawn.len()
        invariant
            i <= drawn@.len(),
            found == exists|k: int| 0 <= k < i && #[trigger] drawn@[k]@ == kind@,
        decreases drawn@.len() - i,
    {
        if same_text(drawn[i], kind) {
            found = true;
        }
        i += 1;
    }
    if found {
        push_field(&mut fields, "animate", FieldKind::Animate);
    }
    fields
}

/// The word that goes after a field's control, saying what its number counts; empty when it needs none.
pub open spec fn unit_of(key: Seq<char>) -> Seq<char> {
    if key == "x"@ || key == "y"@ { "px"@ }
    else if key == "w"@ || key == "len"@ { "px wide"@ }
    else if key == "h"@ { "px high"@ }
    else if key == "r"@ { "px radius"@ }
    else if key == "rows"@ { "rows"@ }
    else if key == "count"@ { "blocks"@ }
    else if key == "thick"@ { "px"@ }
    else if key == "max"@ { "the bar's full width"@ }
    else if key == "scroll_width"@ { "characters"@ }
    else if key == "interval"@ { "seconds"@ }
    else if key == "screen"@ { "1 is the first"@ }
    else { ""@ }
}

/// What a widget field's number counts, written after its control.
pub fn field_unit(key: &str) -> (r: &'static str)
    ensures
        r@ == unit_of(key@),
{
    if same_text(key, "x") || same_text(key, "y") { "px" }
    else if same_text(key, "w") || same_text(key, "len") { "px wide" }
    else if same_text(key, "h") { "px high" }
    else if same_text(key, "r") { "px radius" }
    else if same_text(key, "rows") { "rows" }
    else if same_text(key, "count") { "blocks" }
    else if same_text(key, "thick") { "px" }
    else if same_text(key, "max") { "the bar's full width" }
    else if same_text(key, "scroll_width") { "characters" }
    else if same_text(key, "interval") { "seconds" }
    else if same_text(key, "screen") { "1 is the first" }
    else { "" }
}

/// One published value, ready to be shown: what it is, what it is now, and who reads it.
pub struct ValueRow {
    /// The value's name, as an applet names it in `sources`.
    pub name: String,
    /// What it is, in a line - or, for one of the user's own, the spec it reads.
    pub meaning: String,
    /// True when it is read out of the machine here and now, false when only the running driver knows it.
    pub computed: bool,
    /// Its value at this moment, or empty when the driver has not published it.
    pub now: String,
    /// The applets and macros that read it, in the order they were found.
    pub used_by: Vec<String>,
    /// True when the user named it, in `values.json`.
    pub mine: bool,
}

/// One value a widget reads.
#[derive(Debug, Clone, PartialEq, Eq)]
pub struct ValueRead {
    /// The name the widget reads, as written between `{}`.
    pub name: String,
    /// Where that name is declared, if anywhere.
    pub origin: Origin,
}

/// Where such a value comes from.
#[derive(Debug, Clone, Copy, PartialEq, Eq, Structural)]
pub enum Origin {
    /// Named in this applet's own `sources`.
    Declared,
    /// Nothing declares it, so the pad draws the name itself.
    Missing,
}

/// An applet file that has been read and is waiting for a decision, because its name is already here. Nothing is
/// written while this exists: what is different is on the window, and you say.
#[derive(Debug)]
pub struct WaitingImport {
    /// The applet as it was packed up.
    pub bundle: crate::bundle::Bundle,
    /// What is different about the applet you already have: (what, yours, its).
    pub lines: Vec<(String, String, String)>,
    /// The name a copy would take, worked out when the file was read so it cannot drift while you look.
    pub copy_name: String,
}

} // verus!
