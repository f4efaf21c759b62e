//! What the window says about the pad and its screen: how often a tab is redrawn, whether a driver is running,
//! the stick's reading in the samples file's spelling, and which screens the pad walks through.

use vstd::prelude::*;
use crate::state::tabs::Tab;
use crate::text::{
    contains_text, first_at, lemma_first_at, decimal, decimal_text, join2, join3, lemma_texts_push, owned, same_text, sort_texts, strip_prefix,
    texts, texts_in_order,
};

verus! {

/// The names a complete calibration consists of, as `stick.json` stores them.
pub const CALIBRATION_NAMES: [&'static str; 9] = [
    "centre",
    "up",
    "down",
    "left",
    "right",
    "up-left",
    "up-right",
    "down-left",
    "down-right",
];

/// The calibration points, in the order they are taken, each with what to do with the stick for it.
pub const CALIBRATION_POINTS: [(&'static str, &'static str); 9] = [
    ("centre", "let the stick go, resting in the middle"),
    ("up", "hold it fully up"),
    ("down", "hold it fully down"),
    ("left", "hold it fully left"),
    ("right", "hold it fully right"),
    ("up-left", "hold it up and left"),
    ("up-right", "hold it up and right"),
    ("down-left", "hold it down and left"),
    ("down-right", "hold it down and right"),
];

/// How often a tab is redrawn, in milliseconds: sixty times a second where the stick's live reading is, and once
/// a second on the configuration tabs.
pub open spec fn repaint_millis_of(tab: Tab) -> u64 {
    match tab {
        Tab::Bindings => 16,
        _ => 1000,
    }
}

/// How often a tab is redrawn, in milliseconds.
pub fn repaint_millis(tab: Tab) -> (r: u64)
    ensures
        r == repaint_millis_of(tab),
{
    match tab {
        Tab::Bindings => 16,
        _ => 1000,
    }
}

/// What `Duration::from_millis` makes of a number of milliseconds.
pub uninterp spec fn millis_duration(ms: u64) -> std::time::Duration;

/// `Duration::from_millis`: the span of that many milliseconds, which `millis_duration` names.
#[verifier::external_body]
fn from_millis(ms: u64) -> (r: std::time::Duration)
    ensures
        r == millis_duration(ms),
{
    std::time::Duration::from_millis(ms)
}

/// How often a tab is redrawn.
///
/// The stick's reading is a live view of a stick under a hand: the driver publishes it up to a hundred times a
/// second, so the tab it is on is redrawn sixty times a second. The other tabs are configuration, where once a
/// second is plenty.
pub fn repaint_interval(tab: Tab) -> (r: std::time::Duration)
    ensures
        r == millis_duration(repaint_millis_of(tab)),
{
    from_millis(repaint_millis(tab))
}

/// How often the window redraws, in milliseconds: the tab's own rate, unless the applet being edited shows
/// something that moves, which the driver draws twenty times a second; the faster of the two wins, so the
/// Bindings tab's live stick is never slowed down.
pub open spec fn repaint_millis_for_of(tab: Tab, moving: bool) -> u64 {
    if moving && repaint_millis_of(tab) > 50 {
        50
    } else {
        repaint_millis_of(tab)
    }
}

/// How often the window redraws, given what it shows. `moving` is whether the applet being edited, when there
/// is one, draws something that moves on the screen being edited, as the agent decides it.
pub fn repaint_interval_for(tab: Tab, moving: bool) -> (r: std::time::Duration)
    ensures
        r == millis_duration(repaint_millis_for_of(tab, moving)),
{
    let ms = repaint_millis(tab);
    let chosen = if moving && ms > 50 {
        50
    } else {
        ms
    };
    from_millis(chosen)
}

/// Whether a driver is running, and what to do about it.
#[derive(Debug, Clone, Copy, PartialEq, Eq, Structural)]
pub enum Driver {
    /// A driver is publishing state, and how many whole seconds ago it last did.
    Running(u64),
    /// A process is running the driver but has not published yet.
    Starting,
    /// Nothing is driving the pad.
    Stopped,
}

/// The driver's state, as the status bar says it.
pub open spec fn driver_sentence(d: Driver) -> Seq<char> {
    match d {
        Driver::Running(seconds) => "a driver is drawing the pad (last updated "@ + decimal(seconds as nat)
            + "s ago)"@,
        Driver::Starting => "a driver is starting up"@,
        Driver::Stopped => "no driver is drawing the pad: nothing here can be seen on it"@,
    }
}

impl Driver {
    /// The driver's state, as the one line the status bar shows.
    pub fn sentence(&self) -> (r: String)
        ensures
            r@ == driver_sentence(*self),
    {
        match self {
            Driver::Running(seconds) => {
                let n = decimal_text(*seconds);
                join3("a driver is drawing the pad (last updated ", n.as_str(), "s ago)")
            },
            Driver::Starting => owned("a driver is starting up"),
            Driver::Stopped => owned("no driver is drawing the pad: nothing here can be seen on it"),
        }
    }
}

/// Whole seconds from nanoseconds, rounded to the nearest, a half going to the even one, as a number of seconds
/// is written with no places.
pub open spec fn rounded_seconds(ns: u64) -> u64 {
    let whole = ns / 1_000_000_000;
    let part = ns % 1_000_000_000;
    if part > 500_000_000 || (part == 500_000_000 && whole % 2 == 1) {
        (whole + 1) as u64
    } else {
        whole
    }
}

/// What the state file's age says of the driver: one that wrote it less than five seconds ago is running, and
/// one gone longer is not, because a running driver rewrites it several times a second. `age_ns` is nothing when
/// the file is newer than the clock says, which is a driver writing right now.
pub open spec fn driver_of_age(age_ns: Option<u64>) -> Driver {
    match age_ns {
        None => Driver::Running(0),
        Some(ns) => if ns < 5_000_000_000 {
            Driver::Running(rounded_seconds(ns))
        } else {
            Driver::Stopped
        },
    }
}

/// Whether a driver is running, from how long ago its state file was written, in nanoseconds - the whole of what
/// the clock gives, so that rounding to seconds sees every part of a second.
pub fn driver_from_age(age_ns: Option<u64>) -> (r: Driver)
    ensures
        r == driver_of_age(age_ns),
{
    match age_ns {
        None => Driver::Running(0),
        Some(ns) => {
            if ns < 5_000_000_000 {
                let whole = ns / 1_000_000_000;
                let part = ns % 1_000_000_000;
                if part > 500_000_000 || (part == 500_000_000 && whole % 2 == 1) {
                    Driver::Running(whole + 1)
                } else {
                    Driver::Running(whole)
                }
            } else {
                Driver::Stopped
            }
        },
    }
}

/// Whether a process's command line is a driver's: exactly `g13 run`, a program whose name ends in `g13` and
/// the word `run` - not the window, which is also called `g13`.
pub open spec fn is_driver_command_of(parts: Seq<Seq<char>>) -> bool {
    parts.len() == 2 && crate::text::ends_with(parts[0], "g13"@) && parts[1] == "run"@
}

/// Whether a process's command line, split at its NUL bytes with the empty parts left out, is a driver's.
pub fn is_driver_command(parts: &Vec<String>) -> (r: bool)
    ensures
        r == is_driver_command_of(texts(parts@)),
{
    if parts.len() != 2 {
        return false;
    }
    let tail = crate::text::strip_suffix(parts[0].as_str(), "g13");
    tail.is_some() && same_text(parts[1].as_str(), "run")
}

/// What stopping the driver says: that none was found, or how many were asked to stop.
pub open spec fn stopped_of(count: u64) -> Result<Seq<char>, Seq<char>> {
    if count == 0 {
        Err("no driver process was found"@)
    } else {
        Ok("asked "@ + decimal(count as nat) + " driver process(es) to stop"@)
    }
}

/// What stopping the driver says, given how many driver processes were asked to stop.
pub fn stopped(count: u64) -> (r: Result<String, String>)
    ensures
        match (r, stopped_of(count)) {
            (Ok(a), Ok(b)) => a@ == b,
            (Err(a), Err(b)) => a@ == b,
            _ => false,
        },
{
    if count == 0 {
        Err(owned("no driver process was found"))
    } else {
        let n = decimal_text(count);
        Ok(join3("asked ", n.as_str(), " driver process(es) to stop"))
    }
}

/// `visuals.json` as the window writes it: which screens the pad walks to, each in double quotes, the one it
/// shows, whether it walks, and how long it stays on each. `seconds` is that time as it is written.
pub open spec fn visuals_text_of(enabled: Seq<Seq<char>>, active: Seq<char>, cycle: bool, seconds: Seq<char>) -> Seq<
    char,
> {
    "{\n  \"enabled\": ["@ + crate::macros::graph::joined(
        enabled.map_values(|e: Seq<char>| "\""@ + e + "\""@),
        ", "@,
    ) + "],\n  \"active\": \""@ + active + "\",\n  \"cycle\": "@ + (if cycle {
        "true"@
    } else {
        "false"@
    }) + ",\n  \"cycle_seconds\": "@ + seconds + "\n}\n"@
}

/// The text of `visuals.json`, as the driver reads it.
pub fn visuals_text(enabled: &Vec<String>, active: &str, cycle: bool, seconds: &str) -> (r: String)
    ensures
        r@ == visuals_text_of(texts(enabled@), active@, cycle, seconds@),
{
    let mut quoted: Vec<String> = Vec::new();
    let mut i: usize = 0;
    while i < enabled.len()
        invariant
            i <= enabled@.len(),
            texts(quoted@) == texts(enabled@).subrange(0, i as int).map_values(|e: Seq<char>| "\""@ + e + "\""@),
        decreases enabled.len() - i,
    {
        let ghost before = quoted@;
        let x = join3("\"", enabled[i].as_str(), "\"");
        proof {
            lemma_texts_push(before, x);
        }
        quoted.push(x);
        i += 1;
        proof {
            assert(texts(quoted@) =~= texts(enabled@).subrange(0, i as int).map_values(
                |e: Seq<char>| "\""@ + e + "\""@,
            ));
        }
    }
    proof {
        assert(texts(enabled@).subrange(0, enabled@.len() as int) =~= texts(enabled@));
    }
    let list = crate::macros::graph::join_all(&quoted, ", ");
    let head = join3("{\n  \"enabled\": [", list.as_str(), "],\n  \"active\": \"");
    let middle = join3(head.as_str(), active, "\",\n  \"cycle\": ");
    let flag = if cycle {
        "true"
    } else {
        "false"
    };
    let with_flag = join3(middle.as_str(), flag, ",\n  \"cycle_seconds\": ");
    join3(with_flag.as_str(), seconds, "\n}\n")
}

/// What the stick is set to do, as the stick settings hold it.
#[derive(Debug, Clone, Copy, PartialEq, Eq, Structural)]
pub enum StickMode {
    /// Nothing.
    Off,
    /// Keys, one for each sector it is pushed into.
    Keyboard,
    /// The pointer.
    Mouse,
    /// A gamepad's analogue stick.
    Joystick,
}

/// What the window says when the stick's mode is written: what the stick now does. `bound` is how many of its
/// `sectors` have a binding, and `speed` the pointer's speed in whole pixels a second.
pub open spec fn stick_mode_words(mode: StickMode, bound: nat, sectors: nat, speed: nat) -> Seq<char> {
    match mode {
        StickMode::Off => "the stick does nothing"@,
        StickMode::Keyboard => if bound == 0 {
            "the stick sends nothing: none of its "@ + decimal(sectors) + " sectors is bound"@
        } else {
            "the stick now drives "@ + decimal(bound) + " of its "@ + decimal(sectors) + " sectors"@
        },
        StickMode::Mouse => "the stick moves the pointer at "@ + decimal(speed) + " pixels a second"@,
        StickMode::Joystick => "the stick is a gamepad's analogue stick"@,
    }
}

/// What the window says when the stick's mode is written.
pub fn stick_mode_sentence(mode: StickMode, bound: u64, sectors: u64, speed: u64) -> (r: String)
    ensures
        r@ == stick_mode_words(mode, bound as nat, sectors as nat, speed as nat),
{
    match mode {
        StickMode::Off => owned("the stick does nothing"),
        StickMode::Keyboard => {
            let count = decimal_text(sectors);
            if bound == 0 {
                join3("the stick sends nothing: none of its ", count.as_str(), " sectors is bound")
            } else {
                let n = decimal_text(bound);
                let head = join3("the stick now drives ", n.as_str(), " of its ");
                join3(head.as_str(), count.as_str(), " sectors")
            }
        },
        StickMode::Mouse => {
            let n = decimal_text(speed);
            join3("the stick moves the pointer at ", n.as_str(), " pixels a second")
        },
        StickMode::Joystick => owned("the stick is a gamepad's analogue stick"),
    }
}

/// What the window says when one side of an axis is sent somewhere: where, and whether the stick is now split
/// between targets rather than being one plain stick.
pub open spec fn route_words(side: Seq<char>, target: Seq<char>, plain: bool) -> Seq<char> {
    if plain {
        side + " now goes to "@ + target
    } else {
        side + " now goes to "@ + target + " - the stick is split between targets now"@
    }
}

/// What the window says when one side of an axis is sent somewhere. `plain` is whether the routing is still
/// one plain stick, as the stick settings judge it.
pub fn route_sentence(side: &str, target: &str, plain: bool) -> (r: String)
    ensures
        r@ == route_words(side@, target@, plain),
{
    let head = join3(side, " now goes to ", target);
    if plain {
        head
    } else {
        join2(head.as_str(), " - the stick is split between targets now")
    }
}

/// What the window says when the stick is broken into a number of sectors.
pub fn sectors_sentence(count: u64) -> (r: String)
    ensures
        r@ == "the stick is now read as "@ + decimal(count as nat) + " sectors"@,
{
    let n = decimal_text(count);
    join3("the stick is now read as ", n.as_str(), " sectors")
}

/// The lower-case hexadecimal digit for a value under sixteen.
pub open spec fn hex_char(d: nat) -> char {
    if d < 10 {
        crate::text::digit(d)
    } else if d == 10 {
        'a'
    } else if d == 11 {
        'b'
    } else if d == 12 {
        'c'
    } else if d == 13 {
        'd'
    } else if d == 14 {
        'e'
    } else {
        'f'
    }
}

/// A byte as `0x` and two lower-case hexadecimal digits.
pub open spec fn hex_byte(b: u8) -> Seq<char> {
    "0x"@ + seq![hex_char((b / 16) as nat), hex_char((b % 16) as nat)]
}

fn hex_char_of(d: u8) -> (c: char)
    requires
        d < 16,
    ensures
        c == hex_char(d as nat),
{
    if d < 10 {
        if d == 0 { '0' } else if d == 1 { '1' } else if d == 2 { '2' } else if d == 3 { '3' } else if d == 4 {
            '4'
        } else if d == 5 { '5' } else if d == 6 { '6' } else if d == 7 { '7' } else if d == 8 { '8' } else { '9' }
    } else if d == 10 {
        'a'
    } else if d == 11 {
        'b'
    } else if d == 12 {
        'c'
    } else if d == 13 {
        'd'
    } else if d == 14 {
        'e'
    } else {
        'f'
    }
}

fn hex_byte_text(b: u8) -> (r: String)
    ensures
        r@ == hex_byte(b),
{
    let mut r = owned("0x");
    crate::text::push_char(&mut r, hex_char_of(b / 16));
    crate::text::push_char(&mut r, hex_char_of(b % 16));
    proof {
        reveal_strlit("0x");
        assert(r@ =~= hex_byte(b));
    }
    r
}

/// A stick reading, written the way the samples file writes it: `0x7b 0x34`.
pub fn show(pair: (u8, u8)) -> (r: String)
    ensures
        r@ == hex_byte(pair.0) + " "@ + hex_byte(pair.1),
{
    let a = hex_byte_text(pair.0);
    let b = hex_byte_text(pair.1);
    join3(a.as_str(), " ", b.as_str())
}

/// The screens the pad walks with one turned on or off: taken out where it first is, or put on the end.
pub open spec fn toggled(enabled: Seq<Seq<char>>, visual: Seq<char>) -> Seq<Seq<char>> {
    match first_at(enabled, visual) {
        Some(i) => enabled.remove(i),
        None => enabled.push(visual),
    }
}

/// Turn a screen on or off in the walk: taken out where it is, or put on the end when it is not there.
pub fn toggle_enabled(enabled: &mut Vec<String>, visual: &str)
    ensures
        texts(final(enabled)@) == toggled(texts(old(enabled)@), visual@),
{
    let ghost before = texts(enabled@);
    let mut i: usize = 0;
    while i < enabled.len()
        invariant
            before == texts(enabled@),
            before == texts(old(enabled)@),
            i <= enabled.len(),
            forall|k: int| 0 <= k < i ==> before[k] != visual@,
        decreases enabled.len() - i,
    {
        if same_text(enabled[i].as_str(), visual) {
            proof {
                lemma_first_at(before, visual@, i as int);
            }
            enabled.remove(i);
            proof {
                assert(texts(enabled@) =~= before.remove(i as int));
            }
            return;
        }
        i += 1;
    }
    proof {
        if before.contains(visual@) {
            let k = choose|k: int| 0 <= k < before.len() && before[k] == visual@;
            assert(before[k] != visual@);
        }
    }
    enabled.push(owned(visual));
    proof {
        assert(texts(enabled@) =~= before.push(visual@));
    }
}

/// Turning a screen off and on again, or on and off again, leaves it where it was as to whether the pad walks to
/// it, when the walk names it at most once; a screen the walk did not have comes back to exactly the walk it was.
pub proof fn toggling_twice_returns_it(enabled: Seq<Seq<char>>, visual: Seq<char>)
    requires
        forall|a: int, b: int|
            0 <= a < b < enabled.len() && #[trigger] enabled[a] == visual ==> #[trigger] enabled[b] != visual,
    ensures
        toggled(enabled, visual).contains(visual) == !enabled.contains(visual),
        toggled(toggled(enabled, visual), visual).contains(visual) == enabled.contains(visual),
        !enabled.contains(visual) ==> toggled(toggled(enabled, visual), visual) == enabled,
{
    if enabled.contains(visual) {
        let i = first_at(enabled, visual).unwrap();
        let once = enabled.remove(i);
        assert(!once.contains(visual)) by {
            if once.contains(visual) {
                let k = choose|k: int| 0 <= k < once.len() && once[k] == visual;
                if k < i {
                    assert(once[k] == enabled[k]);
                } else {
                    assert(once[k] == enabled[k + 1]);
                    assert(enabled[i] == visual);
                }
            }
        }
        assert(first_at(once, visual) is None);
        let twice = once.push(visual);
        assert(twice[twice.len() - 1] == visual);
        assert(twice.contains(visual));
    } else {
        let once = enabled.push(visual);
        assert(once[once.len() - 1] == visual);
        assert(once.contains(visual));
        lemma_first_at(once, visual, once.len() - 1);
        assert(once.remove(once.len() - 1) =~= enabled);
    }
}

/// What taking a calibration point says: the point and the reading, then either that every point is taken or how
/// many are left.
pub open spec fn recorded_sentence(name: Seq<char>, stick: (u8, u8), remaining: nat) -> Seq<char> {
    let head = name + " recorded at "@ + hex_byte(stick.0) + " "@ + hex_byte(stick.1);
    if remaining == 0 {
        head + ": every point is taken"@
    } else {
        head + ": "@ + decimal(remaining) + " to go"@
    }
}

/// What taking a calibration point says, given how many points are still missing.
pub fn recorded(name: &str, stick: (u8, u8), remaining: usize) -> (r: String)
    ensures
        r@ == recorded_sentence(name@, stick, remaining as nat),
{
    let at = show(stick);
    let head = join3(name, " recorded at ", at.as_str());
    if remaining == 0 {
        join2(head.as_str(), ": every point is taken")
    } else {
        let n = decimal_text(remaining as u64);
        let tail = join3(": ", n.as_str(), " to go");
        join2(head.as_str(), tail.as_str())
    }
}

/// Which calibration point to take next, after one is recorded: the first that has not been taken, or none when
/// every point is. `taken` is the names of the points the stick settings hold.
pub fn next_calibration_point(taken: &Vec<String>) -> (r: Option<usize>)
    ensures
        r matches Some(i) ==> i < 9 && !texts(taken@).contains(CALIBRATION_POINTS@[i as int].0@) && forall|k: int|
            0 <= k < i ==> texts(taken@).contains(#[trigger] CALIBRATION_POINTS@[k].0@),
        r is None ==> forall|k: int| 0 <= k < 9 ==> texts(taken@).contains(#[trigger] CALIBRATION_POINTS@[k].0@),
{
    let points = CALIBRATION_POINTS;
    let mut i: usize = 0;
    while i < 9
        invariant
            i <= 9,
            points@ == CALIBRATION_POINTS@,
            forall|k: int| 0 <= k < i ==> texts(taken@).contains(#[trigger] CALIBRATION_POINTS@[k].0@),
        decreases 9 - i,
    {
        if !contains_text(taken, points[i].0) {
            proof {
                if texts(taken@).contains(points@[i as int].0@) {
                    let w = choose|w: int| 0 <= w < texts(taken@).len() && texts(taken@)[w] == points@[i as int].0@;
                    assert(taken@[w]@ == points@[i as int].0@);
                }
            }
            return Some(i);
        }
        proof {
            let w = choose|w: int| 0 <= w < taken@.len() && #[trigger] taken@[w]@ == points@[i as int].0@;
            assert(texts(taken@)[w] == points@[i as int].0@);
        }
        i += 1;
    }
    None
}

/// The screens the pad has of its own, which are always there to choose.
pub open spec fn builtin_visuals() -> Seq<Seq<char>> {
    seq!["clock"@, "system"@, "pad"@, "media"@]
}

/// The name the walk knows an applet by.
pub open spec fn applet_visual(stem: Seq<char>) -> Seq<char> {
    "applet:"@ + stem
}

/// Every visual that can be chosen: the four the pad has of its own, then each applet as `applet:<name>`, in
/// order. `applet_stems` is the names of the applet files in the folder, pictures files left out.
pub fn visuals_offered(applet_stems: &Vec<String>) -> (r: Vec<String>)
    ensures
        r@.len() == 4 + applet_stems@.len(),
        texts(r@).subrange(0, 4) == builtin_visuals(),
        texts_in_order(texts(r@).skip(4)),
        texts(r@).skip(4).to_multiset() == texts(applet_stems@).map_values(|s: Seq<char>| applet_visual(s)).to_multiset(),
{
    let mut applets: Vec<String> = Vec::new();
    let mut i: usize = 0;
    while i < applet_stems.len()
        invariant
            i <= applet_stems@.len(),
            texts(applets@) == texts(applet_stems@).subrange(0, i as int).map_values(|s: Seq<char>| applet_visual(s)),
        decreases applet_stems.len() - i,
    {
        let ghost before = applets@;
        let x = join2("applet:", applet_stems[i].as_str());
        proof {
            lemma_texts_push(before, x);
        }
        applets.push(x);
        i += 1;
        proof {
            assert(texts(applets@) =~= texts(applet_stems@).subrange(0, i as int).map_values(
                |s: Seq<char>| applet_visual(s),
            ));
        }
    }
    proof {
        assert(texts(applet_stems@).subrange(0, applet_stems@.len() as int) =~= texts(applet_stems@));
    }
    let ghost unsorted = texts(applets@);
    let sorted = sort_texts(applets);
    proof {
        broadcast use vstd::seq_lib::group_to_multiset_ensures;

        assert(texts(sorted@).to_multiset().len() == texts(sorted@).len());
        assert(unsorted.to_multiset().len() == unsorted.len());
    }
    let mut names: Vec<String> = Vec::new();
    names.push(owned("clock"));
    names.push(owned("system"));
    names.push(owned("pad"));
    names.push(owned("media"));
    proof {
        assert(texts(names@) =~= builtin_visuals());
    }
    let mut j: usize = 0;
    while j < sorted.len()
        invariant
            j <= sorted@.len(),
            names@.len() == 4 + j,
            texts(names@).subrange(0, 4) == builtin_visuals(),
            texts(names@).skip(4) == texts(sorted@).subrange(0, j as int),
        decreases sorted.len() - j,
    {
        let ghost before = names@;
        let x = owned(sorted[j].as_str());
        proof {
            lemma_texts_push(before, x);
        }
        names.push(x);
        j += 1;
        proof {
            assert(texts(names@).subrange(0, 4) =~= texts(before).subrange(0, 4));
            assert(texts(names@).skip(4) =~= texts(sorted@).subrange(0, j as int));
        }
    }
    proof {
        assert(texts(sorted@).subrange(0, sorted@.len() as int) =~= texts(sorted@));
    }
    names
}

/// Whether a visual is the one the walk knows an applet by: the applet's own name for the ones the pad has of
/// its own, `applet:<name>` for the rest.
pub open spec fn names_applet(visual: Seq<char>, applet: Seq<char>) -> bool {
    visual == applet || visual == applet_visual(applet)
}

/// The name the walk knows an applet by, out of the visuals there are: the first that is the applet's own name
/// or `applet:` and its name.
pub fn visual_name_for(available: &Vec<String>, applet: &str) -> (r: Option<String>)
    ensures
        r matches Some(v) ==> exists|i: int|
            0 <= i < available@.len() && #[trigger] available@[i]@ == v@ && names_applet(v@, applet@) && forall|
                k: int,
            |
                0 <= k < i ==> !names_applet(#[trigger] available@[k]@, applet@),
        r is None ==> forall|k: int| 0 <= k < available@.len() ==> !names_applet(#[trigger] available@[k]@, applet@),
{
    let mut i: usize = 0;
    while i < available.len()
        invariant
            i <= available@.len(),
            forall|k: int| 0 <= k < i ==> !names_applet(#[trigger] available@[k]@, applet@),
        decreases available.len() - i,
    {
        let v = available[i].as_str();
        let stripped = strip_prefix(v, "applet:");
        let hit = same_text(v, applet) || match stripped {
            Some(rest) => same_text(rest.as_str(), applet),
            None => false,
        };
        proof {
            let p = "applet:"@;
            let vv = v@;
            if vv == applet_visual(applet@) {
                assert(vv.subrange(0, p.len() as int) =~= p);
                assert(vv.subrange(p.len() as int, vv.len() as int) =~= applet@);
            }
            if stripped is Some {
                assert(vv =~= p + vv.subrange(p.len() as int, vv.len() as int));
            }
        }
        if hit {
            return Some(owned(v));
        }
        i += 1;
    }
    None
}

/// Choose which visual the driver shows: it joins the walk when it is not in it already.
pub fn select_visual(enabled: &mut Vec<String>, visual: &str)
    ensures
        texts(final(enabled)@) == if texts(old(enabled)@).contains(visual@) {
            texts(old(enabled)@)
        } else {
            texts(old(enabled)@).push(visual@)
        },
{
    if contains_text(enabled, visual) {
        proof {
            let w = choose|w: int| 0 <= w < enabled@.len() && #[trigger] enabled@[w]@ == visual@;
            assert(texts(enabled@)[w] == visual@);
        }
        return;
    }
    proof {
        if texts(enabled@).contains(visual@) {
            let w = choose|w: int| 0 <= w < texts(enabled@).len() && texts(enabled@)[w] == visual@;
            assert(enabled@[w]@ == visual@);
        }
    }
    let ghost before = enabled@;
    let x = owned(visual);
    proof {
        lemma_texts_push(before, x);
    }
    enabled.push(x);
}

} // verus!
