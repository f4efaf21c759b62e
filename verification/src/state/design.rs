//! Designing an applet, edited as the applet file's own JSON: its screens, and the widgets on the screen being
//! edited.
//!
//! An applet with no `screens` draws its `widgets`; one with screens draws the widgets of each. Every edit here
//! lands in the array the designer reads, whichever shape the file has, and keeps every key it does not change.

use vstd::prelude::*;
use crate::json::{
    field_put, fields_del, fields_put, items_view, jdel, jget, jget_array, jget_object, jget_str, jobject, jset,
    lemma_items_view, Json, JsonV, NumberV, Numeral,
};
use crate::text::{
    ascii_alphanumeric, chars_of, debug_quoted, decimal, decimal_text, is_ascii_alphanumeric, join2, join3, owned,
    push_char, quoted, trim, trimmed,
};

verus! {

/// The widgets the designer edits: those of the screen being edited when the applet has screens, or else its
/// flat list.
pub open spec fn widgets_at(applet: JsonV, screen: usize) -> Option<Seq<JsonV>> {
    match jget_array(applet, "screens"@) {
        Some(screens) => if screen < screens.len() {
            jget_array(screens[screen as int], "widgets"@)
        } else {
            None
        },
        None => jget_array(applet, "widgets"@),
    }
}

/// The applet with the widgets `widgets_at` reads replaced.
pub open spec fn with_widgets(applet: JsonV, screen: usize, widgets: Seq<JsonV>) -> JsonV {
    match jget_array(applet, "screens"@) {
        Some(screens) => jset(
            applet,
            "screens"@,
            JsonV::Array(screens.update(screen as int, jset(screens[screen as int], "widgets"@, JsonV::Array(widgets)))),
        ),
        None => jset(applet, "widgets"@, JsonV::Array(widgets)),
    }
}

fn copy_list(v: &Vec<Json>) -> (r: Vec<Json>)
    ensures
        items_view(r@) == items_view(v@),
{
    let mut out: Vec<Json> = Vec::new();
    let mut i: usize = 0;
    while i < v.len()
        invariant
            i <= v.len(),
            out@.len() == i,
            forall|k: int| 0 <= k < i ==> (#[trigger] out@[k])@ == v@[k]@,
        decreases v.len() - i,
    {
        out.push(v[i].deep_clone());
        i += 1;
    }
    proof {
        crate::json::lemma_items_view_ext(out@, v@);
    }
    out
}

/// The list under a key, copied, when there is one.
fn list_of(v: &Json, key: &str) -> (r: Option<Vec<Json>>)
    ensures
        r matches Some(list) ==> jget_array(v@, key@) == Some(items_view(list@)),
        r is None ==> jget_array(v@, key@) is None,
{
    match v.get(key) {
        Some(x) => match x.as_array() {
            Some(list) => Some(copy_list(list)),
            None => None,
        },
        None => None,
    }
}

/// The widgets the designer edits, copied.
pub fn widgets_of(applet: &Json, screen: usize) -> (r: Option<Vec<Json>>)
    ensures
        r matches Some(w) ==> widgets_at(applet@, screen) == Some(items_view(w@)),
        r is None ==> widgets_at(applet@, screen) is None,
{
    match list_of(applet, "screens") {
        Some(screens) => {
            proof {
                lemma_items_view(screens@);
            }
            if screen < screens.len() {
                list_of(&screens[screen], "widgets")
            } else {
                None
            }
        },
        None => list_of(applet, "widgets"),
    }
}

/// Put widgets back where `widgets_of` read them.
pub(crate) fn put_widgets(applet: &mut Json, screen: usize, widgets: Vec<Json>)
    requires
        widgets_at(old(applet)@, screen) is Some,
    ensures
        final(applet)@ == with_widgets(old(applet)@, screen, items_view(widgets@)),
{
    let ghost a = applet@;
    match list_of(applet, "screens") {
        Some(mut screens) => {
            proof {
                lemma_items_view(screens@);
            }
            let mut one = screens[screen].deep_clone();
            one.set(owned("widgets"), Json::Array(widgets));
            let ghost ov = one@;
            screens.set(screen, one);
            proof {
                lemma_items_view(screens@);
                assert(items_view(screens@) =~= jget_array(a, "screens"@).unwrap().update(screen as int, ov));
            }
            applet.set(owned("screens"), Json::Array(screens));
        },
        None => {
            applet.set(owned("widgets"), Json::Array(widgets));
        },
    }
}

/// A list with two places swapped.
pub open spec fn swapped(s: Seq<JsonV>, i: int, j: int) -> Seq<JsonV> {
    s.update(i, s[j]).update(j, s[i])
}

/// Where a widget one place up or down goes, when it can go anywhere: nowhere above the first or below the last.
pub open spec fn widget_moves_to(len: int, index: int, up: bool) -> Option<int> {
    if index >= len {
        None
    } else if up {
        if index == 0 { None } else { Some(index - 1) }
    } else {
        if index >= len - 1 { None } else { Some(index + 1) }
    }
}

/// The applet with a widget moved one place up or down, and whether the window writes it: only when it moved.
pub open spec fn widget_moved(applet: JsonV, screen: usize, index: usize, up: bool) -> (JsonV, bool) {
    match widgets_at(applet, screen) {
        Some(w) => match widget_moves_to(w.len() as int, index as int, up) {
            Some(to) => (with_widgets(applet, screen, swapped(w, index as int, to)), true),
            None => (applet, false),
        },
        None => (applet, false),
    }
}

/// Move a widget one place up or down the list.
///
/// Order is what draws: a later widget covers an earlier one. The entries swap places, so every key of both
/// survives exactly as it was; at the ends there is nowhere to go and nothing happens.
pub fn move_widget(applet: &mut Json, screen: usize, index: usize, up: bool) -> (r: bool)
    ensures
        (final(applet)@, r) == widget_moved(old(applet)@, screen, index, up),
{
    let mut widgets = match widgets_of(applet, screen) {
        Some(w) => w,
        None => return false,
    };
    proof {
        lemma_items_view(widgets@);
    }
    let len = widgets.len();
    if index >= len {
        return false;
    }
    let to = if up {
        if index == 0 {
            return false;
        }
        index - 1
    } else {
        if index >= len - 1 {
            return false;
        }
        index + 1
    };
    let ghost before = widgets@;
    let a = widgets[index].deep_clone();
    let b = widgets[to].deep_clone();
    widgets.set(index, b);
    widgets.set(to, a);
    proof {
        lemma_items_view(widgets@);
        lemma_items_view(before);
        assert(items_view(widgets@) =~= swapped(items_view(before), index as int, to as int));
    }
    put_widgets(applet, screen, widgets);
    true
}

proof fn lemma_widgets_put_back(applet: JsonV, screen: usize, x: Seq<JsonV>)
    requires
        widgets_at(applet, screen) is Some,
    ensures
        widgets_at(with_widgets(applet, screen, x), screen) == Some(x),
{
    let f = jobject(applet).unwrap();
    match jget_array(applet, "screens"@) {
        Some(screens) => {
            let s = screens[screen as int];
            let g = jobject(s).unwrap();
            let s1 = jset(s, "widgets"@, JsonV::Array(x));
            let screens1 = screens.update(screen as int, s1);
            crate::json::lemma_get_put(f, "screens"@, JsonV::Array(screens1), "screens"@);
            crate::json::lemma_get_put(g, "widgets"@, JsonV::Array(x), "widgets"@);
            assert(screens1[screen as int] == s1);
        },
        None => {
            crate::json::lemma_get_put(f, "widgets"@, JsonV::Array(x), "widgets"@);
            crate::json::lemma_get_put(f, "widgets"@, JsonV::Array(x), "screens"@);
        },
    }
}

/// Moving a widget swaps it with its neighbour: at the top going up, at the bottom going down, or past the end,
/// nothing changes and nothing is written; otherwise the two entries change places, each kept whole, every other
/// stays where it was, and the applet is written.
pub proof fn a_widget_moves_by_swapping_with_its_neighbour(applet: JsonV, screen: usize, index: usize, up: bool)
    requires
        widgets_at(applet, screen) is Some,
    ensures
        ({
            let w = widgets_at(applet, screen).unwrap();
            let n = w.len();
            let to = if up { index - 1 } else { index + 1 };
            &&& (index >= n || (up && index == 0) || (!up && index + 1 >= n)) ==> widget_moved(
                applet,
                screen,
                index,
                up,
            ) == (applet, false)
            &&& !(index >= n || (up && index == 0) || (!up && index + 1 >= n)) ==> {
                let after = widget_moved(applet, screen, index, up);
                &&& after.1
                &&& widgets_at(after.0, screen) matches Some(w2) && {
                    &&& w2.len() == n
                    &&& w2[index as int] == w[to]
                    &&& w2[to] == w[index as int]
                    &&& forall|k: int| 0 <= k < n && k != index && k != to ==> #[trigger] w2[k] == w[k]
                }
            }
        }),
{
    let w = widgets_at(applet, screen).unwrap();
    let n = w.len();
    if !(index >= n || (up && index == 0) || (!up && index + 1 >= n)) {
        let to: int = if up { index - 1 } else { index + 1 };
        assert(widget_moves_to(n as int, index as int, up) == Some(to));
        lemma_widgets_put_back(applet, screen, swapped(w, index as int, to));
    }
}

/// The applet with a widget taken out, when there is one at that place.
pub open spec fn widget_removed(applet: JsonV, screen: usize, index: usize) -> JsonV {
    match widgets_at(applet, screen) {
        Some(w) => if index < w.len() {
            with_widgets(applet, screen, w.remove(index as int))
        } else {
            applet
        },
        None => applet,
    }
}

/// Remove a widget. Everything after it moves up.
pub fn remove_widget(applet: &mut Json, screen: usize, index: usize)
    ensures
        final(applet)@ == widget_removed(old(applet)@, screen, index),
{
    let mut widgets = match widgets_of(applet, screen) {
        Some(w) => w,
        None => return,
    };
    proof {
        lemma_items_view(widgets@);
    }
    if index < widgets.len() {
        let ghost before = widgets@;
        widgets.remove(index);
        proof {
            lemma_items_view(widgets@);
            lemma_items_view(before);
            assert(items_view(widgets@) =~= items_view(before).remove(index as int));
        }
        put_widgets(applet, screen, widgets);
    }
}

/// How many screens an applet has: one when it has none, which is the shape it was born in.
pub open spec fn screen_total(applet: JsonV) -> nat {
    match jget_array(applet, "screens"@) {
        Some(screens) => if screens.len() > 0 { screens.len() } else { 1 },
        None => 1,
    }
}

/// How many screens the applet being designed has.
pub fn screen_count(applet: &Json) -> (r: usize)
    ensures
        r == screen_total(applet@),
{
    match applet.get("screens") {
        Some(s) => match s.as_array() {
            Some(screens) => {
                proof {
                    lemma_items_view(screens@);
                }
                if screens.len() > 0 { screens.len() } else { 1 }
            },
            None => 1,
        },
        None => 1,
    }
}

/// The title the file gives a screen, trimmed, or the empty text when there is none.
pub open spec fn title_of(applet: JsonV, index: usize) -> Seq<char> {
    match jget_array(applet, "screens"@) {
        Some(screens) => if index < screens.len() {
            match jget_str(screens[index as int], "title"@) {
                Some(t) => trimmed(t),
                None => Seq::empty(),
            }
        } else {
            Seq::empty()
        },
        None => Seq::empty(),
    }
}

/// The title the file gives a screen. Empty when there is none.
pub fn screen_title(applet: &Json, index: usize) -> (r: String)
    ensures
        r@ == title_of(applet@, index),
{
    match list_of(applet, "screens") {
        Some(screens) => {
            proof {
                lemma_items_view(screens@);
            }
            if index < screens.len() {
                match screens[index].get("title") {
                    Some(t) => match t.as_str() {
                        Some(text) => trim(text.as_str()),
                        None => String::new(),
                    },
                    None => String::new(),
                }
            } else {
                String::new()
            }
        },
        None => String::new(),
    }
}

/// What a screen is called in the designer: its title, or which one it is when it has none.
pub open spec fn label_of(applet: JsonV, index: usize) -> Seq<char> {
    if title_of(applet, index).len() == 0 {
        "screen "@ + decimal((index + 1) as nat)
    } else {
        title_of(applet, index)
    }
}

/// What a screen is called in the designer.
pub fn screen_label(applet: &Json, index: usize) -> (r: String)
    requires
        index < usize::MAX,
    ensures
        r@ == label_of(applet@, index),
{
    let title = screen_title(applet, index);
    if title.as_str().unicode_len() == 0 {
        let n = decimal_text(index as u64 + 1);
        join2("screen ", n.as_str())
    } else {
        title
    }
}

/// A screen object: a title and its widgets.
pub open spec fn screen_object(title: Seq<char>, widgets: JsonV) -> JsonV {
    JsonV::Object(field_put(field_put(Seq::empty(), "title"@, JsonV::Str(title)), "widgets"@, widgets))
}

fn screen_json(title: String, widgets: Json) -> (r: Json)
    ensures
        r@ == screen_object(title@, widgets@),
{
    let mut f: Vec<(String, Json)> = Vec::new();
    proof {
        assert(crate::json::fields_view(f@) =~= Seq::<(Seq<char>, JsonV)>::empty());
    }
    fields_put(&mut f, owned("title"), Json::Str(title));
    fields_put(&mut f, owned("widgets"), widgets);
    Json::Object(f)
}

/// The screens an applet has before one is added: its own when it has some, or one screen holding its flat
/// widgets.
pub open spec fn screens_before(applet: JsonV) -> Seq<JsonV> {
    match jget_array(applet, "screens"@) {
        Some(screens) => if screens.len() > 0 {
            screens
        } else {
            seq![screen_object("screen 1"@, flat_widgets(applet))]
        },
        None => seq![screen_object("screen 1"@, flat_widgets(applet))],
    }
}

/// An applet's flat widgets, or an empty list.
pub open spec fn flat_widgets(applet: JsonV) -> JsonV {
    match jget(applet, "widgets"@) {
        Some(w) => w,
        None => JsonV::Array(Seq::empty()),
    }
}

/// Whether an applet has screens with something in them.
pub open spec fn has_screens(applet: JsonV) -> bool {
    match jget_array(applet, "screens"@) {
        Some(screens) => screens.len() > 0,
        None => false,
    }
}

/// The applet with one more screen, and the screen the designer moves to. A one-screen applet's widgets move into
/// the first screen rather than being copied, so nothing is drawn twice and nothing is lost.
pub open spec fn screen_added(applet: JsonV) -> (JsonV, nat) {
    let screens = screens_before(applet);
    let next = screens.len() + 1;
    let all = screens.push(screen_object("screen "@ + decimal(next), JsonV::Array(Seq::empty())));
    let base = if has_screens(applet) { applet } else { jdel(applet, "widgets"@) };
    (jset(base, "screens"@, JsonV::Array(all)), (next - 1) as nat)
}

/// Turn a one-screen applet into a two-screen one, keeping what it has, or add a screen to one that has some;
/// gives the screen to edit next, the new one.
pub fn add_screen(applet: &mut Json) -> (r: usize)
    requires
        screens_before(old(applet)@).len() + 1 < usize::MAX,
    ensures
        (final(applet)@, r as nat) == screen_added(old(applet)@),
{
    let ghost a = applet@;
    let existing = match list_of(applet, "screens") {
        Some(screens) => {
            proof {
                lemma_items_view(screens@);
            }
            if screens.len() > 0 {
                Some(screens)
            } else {
                None
            }
        },
        None => None,
    };
    let mut screens = match existing {
        Some(screens) => screens,
        None => {
            let widgets = match applet.get("widgets") {
                Some(w) => w.deep_clone(),
                None => Json::empty_array(),
            };
            applet.remove("widgets");
            let mut one: Vec<Json> = Vec::new();
            one.push(screen_json(owned("screen 1"), widgets));
            proof {
                lemma_items_view(one@);
                assert(items_view(one@) =~= screens_before(a));
            }
            one
        },
    };
    proof {
        lemma_items_view(screens@);
    }
    let next = screens.len() + 1;
    let ghost before = screens@;
    let n = decimal_text(next as u64);
    screens.push(screen_json(join2("screen ", n.as_str()), Json::empty_array()));
    proof {
        lemma_items_view(screens@);
        lemma_items_view(before);
        assert(items_view(screens@) =~= items_view(before).push(
            screen_object("screen "@ + decimal(next as nat), JsonV::Array(Seq::empty())),
        ));
    }
    applet.set(owned("screens"), Json::Array(screens));
    next - 1
}

/// The applet with the screen being edited taken away, and the screen to edit next; nothing when there is only
/// one screen, which cannot go. When one screen is left, the applet goes back to the flat shape it had before
/// screens existed.
pub open spec fn screen_removed(applet: JsonV, editing: usize) -> Option<(JsonV, nat)> {
    if screen_total(applet) < 2 {
        None
    } else {
        let screens = jget_array(applet, "screens"@).unwrap();
        let at = if editing < screens.len() - 1 { editing as int } else { screens.len() - 1 };
        let left = screens.remove(at);
        let after = if left.len() == 1 {
            jset(jdel(applet, "screens"@), "widgets"@, flat_widgets(left[0]))
        } else {
            jset(applet, "screens"@, JsonV::Array(left))
        };
        let last = screen_total(after) - 1;
        Some((after, if editing < last { editing as nat } else { last as nat }))
    }
}

/// Take the screen being edited away; gives the screen to edit next, or nothing when there is only one screen.
pub fn remove_screen(applet: &mut Json, editing: usize) -> (r: Option<usize>)
    ensures
        match screen_removed(old(applet)@, editing) {
            Some((after, next)) => r == Some(next as usize) && final(applet)@ == after,
            None => r is None && final(applet)@ == old(applet)@,
        },
{
    let ghost a = applet@;
    if screen_count(applet) < 2 {
        return None;
    }
    let mut screens = match list_of(applet, "screens") {
        Some(s) => s,
        None => return None,
    };
    proof {
        lemma_items_view(screens@);
    }
    let at = if editing < screens.len() - 1 { editing } else { screens.len() - 1 };
    let ghost before = screens@;
    screens.remove(at);
    proof {
        lemma_items_view(screens@);
        lemma_items_view(before);
        assert(items_view(screens@) =~= items_view(before).remove(at as int));
    }
    if screens.len() == 1 {
        let widgets = match screens[0].get("widgets") {
            Some(w) => w.deep_clone(),
            None => Json::empty_array(),
        };
        applet.remove("screens");
        applet.set(owned("widgets"), widgets);
    } else {
        applet.set(owned("screens"), Json::Array(screens));
    }
    let count = screen_count(applet);
    Some(if editing < count - 1 { editing } else { count - 1 })
}

/// The applet with a screen's title set, trimmed, or taken out when it is empty; and whether the window writes
/// it, which it does when there is such a screen and it is an object.
pub open spec fn title_set(applet: JsonV, index: usize, title: Seq<char>) -> (JsonV, bool) {
    match jget_array(applet, "screens"@) {
        Some(screens) => if index < screens.len() && jobject(screens[index as int]) is Some {
            let t = trimmed(title);
            let screen = if t.len() == 0 {
                jdel(screens[index as int], "title"@)
            } else {
                jset(screens[index as int], "title"@, JsonV::Str(t))
            };
            (jset(applet, "screens"@, JsonV::Array(screens.update(index as int, screen))), true)
        } else {
            (applet, false)
        },
        None => (applet, false),
    }
}

/// Name one of the applet's screens.
pub fn set_screen_title(applet: &mut Json, index: usize, title: &str) -> (r: bool)
    ensures
        (final(applet)@, r) == title_set(old(applet)@, index, title@),
{
    let ghost a = applet@;
    let mut screens = match list_of(applet, "screens") {
        Some(s) => s,
        None => return false,
    };
    proof {
        lemma_items_view(screens@);
    }
    if index >= screens.len() || !screens[index].is_object() {
        return false;
    }
    let t = trim(title);
    let mut screen = screens[index].deep_clone();
    if t.as_str().unicode_len() == 0 {
        screen.remove("title");
    } else {
        screen.set(owned("title"), Json::Str(t));
    }
    let ghost sv = screen@;
    screens.set(index, screen);
    proof {
        lemma_items_view(screens@);
        assert(items_view(screens@) =~= jget_array(a, "screens"@).unwrap().update(index as int, sv));
    }
    applet.set(owned("screens"), Json::Array(screens));
    true
}

/// Moving a widget up one place and then back down puts the applet back as it was, for an applet whose keys, and
/// whose screen's keys, are in order.
pub proof fn a_widget_moved_up_and_back_is_where_it_was(applet: JsonV, screen: usize, index: usize)
    requires
        jobject(applet) matches Some(f) && crate::json::keys_sorted(f),
        jget_array(applet, "screens"@) matches Some(screens) ==> screen < screens.len() && (jobject(
            screens[screen as int],
        ) matches Some(g) && crate::json::keys_sorted(g)),
        widgets_at(applet, screen) matches Some(w) && 1 <= index < w.len(),
    ensures
        widget_moved(applet, screen, index, true).1,
        widget_moved(widget_moved(applet, screen, index, true).0, screen, (index - 1) as usize, false) == (
            applet,
            true,
        ),
{
    let f = jobject(applet).unwrap();
    let w = widgets_at(applet, screen).unwrap();
    let once = swapped(w, index as int, index - 1);
    assert(swapped(once, index - 1, index as int) =~= w);
    match jget_array(applet, "screens"@) {
        Some(screens) => {
            let s = screens[screen as int];
            let g = jobject(s).unwrap();
            let s1 = jset(s, "widgets"@, JsonV::Array(once));
            let screens1 = screens.update(screen as int, s1);
            crate::json::lemma_get_put(f, "screens"@, JsonV::Array(screens1), "screens"@);
            crate::json::lemma_get_put(g, "widgets"@, JsonV::Array(once), "widgets"@);
            let a1 = widget_moved(applet, screen, index, true).0;
            assert(a1 == jset(applet, "screens"@, JsonV::Array(screens1)));
            assert(jget_array(a1, "screens"@) == Some(screens1));
            assert(screens1[screen as int] == s1);
            assert(widgets_at(a1, screen) == Some(once));
            crate::json::lemma_put_put(g, "widgets"@, JsonV::Array(once), JsonV::Array(w));
            crate::json::lemma_put_same(g, "widgets"@);
            assert(jset(s1, "widgets"@, JsonV::Array(w)) == s);
            assert(screens1.update(screen as int, s) =~= screens);
            crate::json::lemma_put_put(f, "screens"@, JsonV::Array(screens1), JsonV::Array(screens));
            crate::json::lemma_put_same(f, "screens"@);
        },
        None => {
            crate::json::lemma_get_put(f, "widgets"@, JsonV::Array(once), "widgets"@);
            crate::json::lemma_get_put(f, "widgets"@, JsonV::Array(once), "screens"@);
            let a1 = widget_moved(applet, screen, index, true).0;
            assert(jget_array(a1, "screens"@) is None);
            assert(widgets_at(a1, screen) == Some(once));
            crate::json::lemma_put_put(f, "widgets"@, JsonV::Array(once), JsonV::Array(w));
            crate::json::lemma_put_same(f, "widgets"@);
        },
    }
}

/// What a new widget holds under a field to start with, so it lands somewhere visible and says something: none
/// for the fields it starts without (a `command`, an `x` that may be left out, and those with no starting value).
pub open spec fn starting_value(key: Seq<char>, holds: crate::state::tabs::FieldKind, y: u64) -> Option<JsonV> {
    if key == "command"@ {
        None
    } else if key == "y"@ {
        Some(JsonV::Number(NumberV::PosInt(y)))
    } else if key == "x"@ {
        if holds == crate::state::tabs::FieldKind::OptionalNumber { None } else { Some(JsonV::Number(NumberV::PosInt(3))) }
    } else if key == "w"@ {
        Some(JsonV::Number(NumberV::PosInt(100)))
    } else if key == "h"@ {
        Some(JsonV::Number(NumberV::PosInt(6)))
    } else if key == "count"@ {
        Some(JsonV::Number(NumberV::PosInt(10)))
    } else if key == "len"@ {
        Some(JsonV::Number(NumberV::PosInt(40)))
    } else if key == "thick"@ {
        Some(JsonV::Number(NumberV::PosInt(2)))
    } else if key == "r"@ {
        Some(JsonV::Number(NumberV::PosInt(12)))
    } else if key == "max"@ {
        Some(JsonV::Number(NumberV::PosInt(100)))
    } else if key == "format"@ {
        Some(JsonV::Str("{name}"@))
    } else if key == "align"@ {
        Some(JsonV::Str("left"@))
    } else {
        None
    }
}

/// A new widget's fields: its kind under `type`, then the starting value of each of its fields that has one.
pub open spec fn new_widget_fields(kind: Seq<char>, fields: Seq<(Seq<char>, crate::state::tabs::FieldKind)>, y: u64) -> Seq<
    (Seq<char>, JsonV),
>
    decreases fields.len(),
{
    if fields.len() == 0 {
        field_put(Seq::empty(), "type"@, JsonV::Str(kind))
    } else {
        let before = new_widget_fields(kind, fields.drop_last(), y);
        match starting_value(fields.last().0, fields.last().1, y) {
            Some(v) => field_put(before, fields.last().0, v),
            None => before,
        }
    }
}

/// The line a new widget starts on: ten lines below the one before it, from line eight, wrapping at the bottom
/// of what the screen shows.
pub open spec fn next_line(existing: nat, visible_height: nat) -> u64 {
    ((8 + existing * 10) % (if visible_height > 0 { visible_height } else { 1 })) as u64
}

/// What adding a widget of a kind does: a kind with no fields is refused with the reason; otherwise the widget,
/// with its starting values, goes on the end of the widgets the designer edits, when there are any to add to.
pub open spec fn widget_added(
    applet: JsonV,
    screen: usize,
    kind: Seq<char>,
    fields: Seq<(Seq<char>, crate::state::tabs::FieldKind)>,
    visible_height: nat,
) -> Result<JsonV, Seq<char>> {
    if fields.len() == 0 {
        Err(kind + " is not a widget this build draws"@)
    } else {
        match widgets_at(applet, screen) {
            Some(w) => {
                let y = next_line(w.len(), visible_height);
                Ok(with_widgets(applet, screen, w.push(JsonV::Object(new_widget_fields(kind, fields, y)))))
            },
            None => Ok(applet),
        }
    }
}

proof fn lemma_new_widget_fields(kind: Seq<char>, fields: Seq<(Seq<char>, crate::state::tabs::FieldKind)>, y: u64)
    ensures
        crate::json::field_get(new_widget_fields(kind, fields, y), "type"@) == Some(JsonV::Str(kind)),
        crate::json::field_get(new_widget_fields(kind, fields, y), "command"@) is None,
        crate::json::field_get(new_widget_fields(kind, fields, y), "y"@) matches Some(v) ==> v == JsonV::Number(NumberV::PosInt(y)),
    decreases fields.len(),
{
    reveal_strlit("type");
    reveal_strlit("command");
    reveal_strlit("y");
    reveal_strlit("x");
    reveal_strlit("w");
    reveal_strlit("h");
    reveal_strlit("r");
    reveal_strlit("count");
    reveal_strlit("len");
    reveal_strlit("thick");
    reveal_strlit("max");
    reveal_strlit("format");
    reveal_strlit("align");
    assert("type"@.len() == 4 && "command"@.len() == 7 && "y"@.len() == 1 && "x"@.len() == 1 && "w"@.len() == 1
        && "h"@.len() == 1 && "r"@.len() == 1 && "count"@.len() == 5 && "len"@.len() == 3 && "thick"@.len() == 5
        && "max"@.len() == 3 && "format"@.len() == 6 && "align"@.len() == 5);
    if fields.len() == 0 {
        crate::json::lemma_get_put(Seq::<(Seq<char>, JsonV)>::empty(), "type"@, JsonV::Str(kind), "type"@);
        crate::json::lemma_get_put(Seq::<(Seq<char>, JsonV)>::empty(), "type"@, JsonV::Str(kind), "command"@);
        crate::json::lemma_get_put(Seq::<(Seq<char>, JsonV)>::empty(), "type"@, JsonV::Str(kind), "y"@);
    } else {
        let before = new_widget_fields(kind, fields.drop_last(), y);
        lemma_new_widget_fields(kind, fields.drop_last(), y);
        let key = fields.last().0;
        match starting_value(key, fields.last().1, y) {
            Some(v) => {
                assert(key != "type"@);
                assert(key != "command"@);
                crate::json::lemma_get_put(before, key, v, "type"@);
                crate::json::lemma_get_put(before, key, v, "command"@);
                crate::json::lemma_get_put(before, key, v, "y"@);
            },
            None => {},
        }
    }
}

/// A new widget goes on the end of the list, with everything before it kept: it says its kind, has no
/// `command`, and its line, when its kind has one, is the next one down and one the screen shows. A kind with no fields is refused with the reason and the
/// applet is left as it was.
pub proof fn a_new_widget_lands_where_it_can_be_seen(
    applet: JsonV,
    screen: usize,
    kind: Seq<char>,
    fields: Seq<(Seq<char>, crate::state::tabs::FieldKind)>,
    visible_height: nat,
)
    requires
        widgets_at(applet, screen) is Some,
        visible_height > 0,
    ensures
        fields.len() == 0 ==> widget_added(applet, screen, kind, fields, visible_height) == Err::<JsonV, Seq<char>>(
            kind + " is not a widget this build draws"@,
        ),
        fields.len() > 0 ==> (widget_added(applet, screen, kind, fields, visible_height) matches Ok(after) && (
        widgets_at(after, screen) matches Some(w2) && {
            let w = widgets_at(applet, screen).unwrap();
            &&& w2.len() == w.len() + 1
            &&& w2.subrange(0, w.len() as int) == w
            &&& jget(w2[w.len() as int], "type"@) == Some(JsonV::Str(kind))
            &&& jget(w2[w.len() as int], "command"@) is None
            &&& (jget(w2[w.len() as int], "y"@) matches Some(v) ==> v == JsonV::Number(
                NumberV::PosInt(next_line(w.len(), visible_height)),
            ))
            &&& next_line(w.len(), visible_height) < visible_height
        })),
{
    if fields.len() > 0 {
        let w = widgets_at(applet, screen).unwrap();
        let y = next_line(w.len(), visible_height);
        let x = JsonV::Object(new_widget_fields(kind, fields, y));
        lemma_new_widget_fields(kind, fields, y);
        lemma_widgets_put_back(applet, screen, w.push(x));
        assert(w.push(x).subrange(0, w.len() as int) =~= w);
        assert(w.push(x)[w.len() as int] == x);
    }
}

fn starting_json(key: &str, holds: crate::state::tabs::FieldKind, y: u64) -> (r: Option<Json>)
    ensures
        r matches Some(v) ==> starting_value(key@, holds, y) == Some(v@),
        r is None ==> starting_value(key@, holds, y) is None,
{
    let n = |v: u64| -> (j: Json)
        ensures
            j@ == JsonV::Number(NumberV::PosInt(v)),
        { Json::Number(Numeral::PosInt(v)) };
    if crate::text::same_text(key, "command") {
        None
    } else if crate::text::same_text(key, "y") {
        Some(n(y))
    } else if crate::text::same_text(key, "x") {
        if holds == crate::state::tabs::FieldKind::OptionalNumber { None } else { Some(n(3)) }
    } else if crate::text::same_text(key, "w") {
        Some(n(100))
    } else if crate::text::same_text(key, "h") {
        Some(n(6))
    } else if crate::text::same_text(key, "count") {
        Some(n(10))
    } else if crate::text::same_text(key, "len") {
        Some(n(40))
    } else if crate::text::same_text(key, "thick") {
        Some(n(2))
    } else if crate::text::same_text(key, "r") {
        Some(n(12))
    } else if crate::text::same_text(key, "max") {
        Some(n(100))
    } else if crate::text::same_text(key, "format") {
        Some(Json::Str(owned("{name}")))
    } else if crate::text::same_text(key, "align") {
        Some(Json::Str(owned("left")))
    } else {
        None
    }
}

/// Add a widget of a kind, placed on the next free line so it lands somewhere visible rather than on top of what
/// is already there. `drawn` is the list of kinds this build draws, and `visible_height` how many lines of the
/// screen show.
pub fn add_widget(
    applet: &mut Json,
    screen: usize,
    kind: &str,
    drawn: &[&'static str],
    visible_height: usize,
) -> (r: Result<(), String>)
    ensures
        match widget_added(
            old(applet)@,
            screen,
            kind@,
            if crate::state::tabs::names_hold(drawn@, kind@) {
                crate::state::tabs::own_fields(kind@).push(("animate"@, crate::state::tabs::FieldKind::Animate))
            } else {
                crate::state::tabs::own_fields(kind@)
            },
            visible_height as nat,
        ) {
            Ok(after) => r is Ok && final(applet)@ == after,
            Err(problem) => r matches Err(e) && e@ == problem && final(applet)@ == old(applet)@,
        },
{
    let fields = crate::state::tabs::widget_fields_for(kind, drawn);
    let ghost fv = crate::state::tabs::fields_of(fields@);
    if fields.len() == 0 {
        return Err(join2(kind, " is not a widget this build draws"));
    }
    let mut widgets = match widgets_of(applet, screen) {
        Some(w) => w,
        None => return Ok(()),
    };
    proof {
        lemma_items_view(widgets@);
    }
    let height: u128 = if visible_height > 0 { visible_height as u128 } else { 1 };
    let y = ((8 + (widgets.len() as u128) * 10) % height) as u64;
    let mut f: Vec<(String, Json)> = Vec::new();
    proof {
        assert(crate::json::fields_view(f@) =~= Seq::<(Seq<char>, JsonV)>::empty());
    }
    fields_put(&mut f, owned("type"), Json::Str(owned(kind)));
    let mut i: usize = 0;
    proof {
        assert(fv.subrange(0, 0) =~= Seq::<(Seq<char>, crate::state::tabs::FieldKind)>::empty());
    }
    while i < fields.len()
        invariant
            fv == crate::state::tabs::fields_of(fields@),
            i <= fields.len(),
            crate::json::fields_view(f@) == new_widget_fields(kind@, fv.subrange(0, i as int), y),
        decreases fields.len() - i,
    {
        proof {
            assert(fv.subrange(0, i + 1).drop_last() =~= fv.subrange(0, i as int));
            assert(fv[i as int] == (fields@[i as int].0@, fields@[i as int].1));
        }
        match starting_json(fields[i].0, fields[i].1, y) {
            Some(v) => fields_put(&mut f, owned(fields[i].0), v),
            None => {},
        }
        i += 1;
    }
    proof {
        assert(fv.subrange(0, fields@.len() as int) =~= fv);
    }
    let ghost before = widgets@;
    let widget = Json::Object(f);
    let ghost wv = widget@;
    widgets.push(widget);
    proof {
        lemma_items_view(widgets@);
        lemma_items_view(before);
        assert(items_view(widgets@) =~= items_view(before).push(wv));
        assert(y == next_line(before.len() as nat, visible_height as nat));
    }
    put_widgets(applet, screen, widgets);
    Ok(())
}

/// The applet's sources: each name with the text it reads, or the empty text when that is not a text.
pub open spec fn sources_list(applet: JsonV) -> Seq<(Seq<char>, Seq<char>)> {
    match jget_object(applet, "sources"@) {
        Some(f) => f.map_values(
            |p: (Seq<char>, JsonV)|
                (
                    p.0,
                    match jget_str_of(p.1) {
                        Some(t) => t,
                        None => Seq::empty(),
                    },
                ),
        ),
        None => Seq::empty(),
    }
}

/// A value's text, when it is one.
pub open spec fn jget_str_of(v: JsonV) -> Option<Seq<char>> {
    crate::json::jstr(v)
}

/// The applet's sources: each name with what it reads.
pub fn applet_sources(applet: &Json) -> (r: Vec<(String, String)>)
    ensures
        r@.map_values(|p: (String, String)| (p.0@, p.1@)) == sources_list(applet@),
{
    let mut out: Vec<(String, String)> = Vec::new();
    match applet.get("sources") {
        Some(s) => match s.as_object() {
            Some(fields) => {
                proof {
                    crate::json::lemma_fields_view(fields@);
                }
                let mut i: usize = 0;
                while i < fields.len()
                    invariant
                        i <= fields.len(),
                        out@.len() == i,
                        forall|k: int| 0 <= k < i ==> (#[trigger] out@[k]).0@ == fields@[k].0@ && out@[k].1@ == match crate::json::jstr(fields@[k].1@) {
                            Some(t) => t,
                            None => Seq::empty(),
                        },
                    decreases fields.len() - i,
                {
                    let text = match fields[i].1.as_str() {
                        Some(t) => owned(t.as_str()),
                        None => String::new(),
                    };
                    out.push((owned(fields[i].0.as_str()), text));
                    i += 1;
                }
                proof {
                    crate::json::lemma_fields_view(fields@);
                    assert(out@.map_values(|p: (String, String)| (p.0@, p.1@)) =~= sources_list(applet@));
                }
            },
            None => {
                proof {
                    assert(out@.map_values(|p: (String, String)| (p.0@, p.1@)) =~= sources_list(applet@));
                }
            },
        },
        None => {
            proof {
                assert(out@.map_values(|p: (String, String)| (p.0@, p.1@)) =~= sources_list(applet@));
            }
        },
    }
    out
}

/// The applet with what one source reads changed, when it has sources at all. The window writes the applet
/// either way.
pub open spec fn source_set(applet: JsonV, name: Seq<char>, spec: Seq<char>) -> JsonV {
    match jget_object(applet, "sources"@) {
        Some(f) => jset(applet, "sources"@, JsonV::Object(field_put(f, name, JsonV::Str(spec)))),
        None => applet,
    }
}

/// Change what one of the applet's sources reads.
pub fn set_applet_source(applet: &mut Json, name: &str, spec: &str)
    ensures
        final(applet)@ == source_set(old(applet)@, name@, spec@),
{
    let fields = match applet.get("sources") {
        Some(s) => match s.as_object() {
            Some(f) => Some(crate::bundle::copy_fields_of(f)),
            None => None,
        },
        None => None,
    };
    match fields {
        Some(mut f) => {
            fields_put(&mut f, owned(name), Json::Str(owned(spec)));
            applet.set(owned("sources"), Json::Object(f));
        },
        None => {},
    }
}

/// The applet with a source taken out, when it has sources at all. The window writes the applet either way.
pub open spec fn source_gone(applet: JsonV, name: Seq<char>) -> JsonV {
    match jget_object(applet, "sources"@) {
        Some(f) => jset(applet, "sources"@, JsonV::Object(crate::json::field_del(f, name))),
        None => applet,
    }
}

/// Remove a source. A widget still naming it will report that rather than draw a blank silently.
pub fn remove_applet_source(applet: &mut Json, name: &str)
    ensures
        final(applet)@ == source_gone(old(applet)@, name@),
{
    let fields = match applet.get("sources") {
        Some(s) => match s.as_object() {
            Some(f) => Some(crate::bundle::copy_fields_of(f)),
            None => None,
        },
        None => None,
    };
    match fields {
        Some(mut f) => {
            fields_del(&mut f, name);
            applet.set(owned("sources"), Json::Object(f));
        },
        None => {},
    }
}

/// What adding a source does: both texts are trimmed; a missing name or spec, or a name the applet already has,
/// is refused with the reason; an applet that is not an object becomes one; an applet whose `sources` is not an
/// object is refused; otherwise the source is set.
pub open spec fn source_added(applet: JsonV, name: Seq<char>, spec: Seq<char>) -> Result<JsonV, Seq<char>> {
    let name = trimmed(name);
    let spec = trimmed(spec);
    if name.len() == 0 || spec.len() == 0 {
        Err("a source needs a name and something to read"@)
    } else if sources_list(applet).map_values(|p: (Seq<char>, Seq<char>)| p.0).contains(name) {
        Err("this applet already has a source called "@ + name)
    } else {
        let base = if jobject(applet) is Some { applet } else { JsonV::Object(Seq::empty()) };
        match jget(base, "sources"@) {
            None => Ok(jset(base, "sources"@, JsonV::Object(field_put(Seq::empty(), name, JsonV::Str(spec))))),
            Some(JsonV::Object(f)) => Ok(jset(base, "sources"@, JsonV::Object(field_put(f, name, JsonV::Str(spec))))),
            Some(_) => Err("this applet's `sources` is not an object, so nothing was added to it"@),
        }
    }
}

/// Whether one of the sources is called `name`.
pub(crate) fn names_a_source(known: &Vec<(String, String)>, name: &str) -> (r: bool)
    ensures
        r == known@.map_values(|p: (String, String)| p.0@).contains(name@),
{
    let mut i: usize = 0;
    while i < known.len()
        invariant
            i <= known.len(),
            forall|k: int| 0 <= k < i ==> (#[trigger] known@[k]).0@ != name@,
        decreases known.len() - i,
    {
        if crate::text::same_text(known[i].0.as_str(), name) {
            assert(known@.map_values(|p: (String, String)| p.0@)[i as int] == name@);
            return true;
        }
        i += 1;
    }
    proof {
        let names = known@.map_values(|p: (String, String)| p.0@);
        if names.contains(name@) {
            let k = choose|k: int| 0 <= k < names.len() && names[k] == name@;
            assert(known@[k].0@ == name@);
        }
    }
    false
}

/// Add a source to the applet, refusing one it already has by that name, because every widget that names it
/// would silently start reading something else.
pub fn add_applet_source(applet: &mut Json, name: &str, spec: &str) -> (r: Result<(), String>)
    ensures
        match source_added(old(applet)@, name@, spec@) {
            Ok(after) => r is Ok && final(applet)@ == after,
            Err(problem) => r matches Err(e) && e@ == problem && final(applet)@ == old(applet)@,
        },
{
    let name = trim(name);
    let spec = trim(spec);
    if name.as_str().unicode_len() == 0 || spec.as_str().unicode_len() == 0 {
        return Err(owned("a source needs a name and something to read"));
    }
    let known = applet_sources(applet);
    if names_a_source(&known, name.as_str()) {
        proof {
            assert(known@.map_values(|p: (String, String)| p.0@) =~= sources_list(applet@).map_values(
                |p: (Seq<char>, Seq<char>)| p.0,
            ));
        }
        return Err(join2("this applet already has a source called ", name.as_str()));
    }
    proof {
        assert(known@.map_values(|p: (String, String)| p.0@) =~= sources_list(applet@).map_values(
            |p: (Seq<char>, Seq<char>)| p.0,
        ));
    }
    if !applet.is_object() {
        *applet = Json::empty_object();
    }
    let current = match applet.get("sources") {
        None => Some(Vec::new()),
        Some(Json::Object(f)) => Some(crate::bundle::copy_fields_of(f)),
        Some(_) => None,
    };
    match current {
        Some(mut f) => {
            proof {
                if crate::json::fields_view(f@).len() == 0 {
                    assert(crate::json::fields_view(f@) =~= Seq::<(Seq<char>, JsonV)>::empty());
                }
            }
            fields_put(&mut f, name, Json::Str(spec));
            applet.set(owned("sources"), Json::Object(f));
            Ok(())
        },
        None => Err(owned("this applet's `sources` is not an object, so nothing was added to it")),
    }
}

/// A character an applet's name may hold: its name is its file's name, so letters, digits, spaces, `-` and `_`.
pub open spec fn name_char(c: char) -> bool {
    ascii_alphanumeric(c) || c == ' ' || c == '-' || c == '_'
}

/// The first character of a name that a name may not hold, if there is one.
pub open spec fn first_refused(s: Seq<char>) -> Option<char>
    decreases s.len(),
{
    if s.len() == 0 {
        None
    } else if !name_char(s[0]) {
        Some(s[0])
    } else {
        first_refused(s.drop_first())
    }
}

/// Why a new applet cannot have this name, or nothing when it can, as far as the name itself decides; whether a
/// file of that name is already there is the caller's to ask.
pub open spec fn applet_name_problem(name: Seq<char>) -> Option<Seq<char>> {
    let name = trimmed(name);
    if name.len() == 0 {
        Some("an applet needs a name: that name is what its file is called"@)
    } else {
        match first_refused(name) {
            Some(c) => Some(
                name + " has a "@ + debug_quoted(seq![c])
                    + " in it, and an applet's name is its file's name: letters, digits, spaces, - and _ only"@,
            ),
            None => None,
        }
    }
}

proof fn lemma_first_refused_step(s: Seq<char>, i: int)
    requires
        0 <= i < s.len(),
    ensures
        first_refused(s.skip(i)) == if !name_char(s[i]) {
            Some(s[i])
        } else {
            first_refused(s.skip(i + 1))
        },
{
    assert(s.skip(i).drop_first() =~= s.skip(i + 1));
}

/// Why a new applet cannot be called `name` - no name at all, or a character a file's name should not hold -
/// or nothing when it can.
pub fn new_applet_problem(name: &str) -> (r: Option<String>)
    ensures
        r matches Some(p) ==> applet_name_problem(name@) == Some(p@),
        r is None ==> applet_name_problem(name@) is None,
{
    let t = trim(name);
    let chars = chars_of(t.as_str());
    if chars.len() == 0 {
        return Some(owned("an applet needs a name: that name is what its file is called"));
    }
    let mut i: usize = 0;
    proof {
        assert(t@.skip(0) =~= t@);
    }
    while i < chars.len()
        invariant
            i <= chars.len(),
            chars@ == t@,
            t@ == trimmed(name@),
            first_refused(t@) == first_refused(t@.skip(i as int)),
        decreases chars.len() - i,
    {
        let c = chars[i];
        proof {
            lemma_first_refused_step(t@, i as int);
        }
        if !(is_ascii_alphanumeric(c) || c == ' ' || c == '-' || c == '_') {
            let mut one = String::new();
            push_char(&mut one, c);
            proof {
                assert(one@ =~= seq![c]);
            }
            let shown = quoted(one.as_str());
            let head = join3(t.as_str(), " has a ", shown.as_str());
            return Some(join2(
                head.as_str(),
                " in it, and an applet's name is its file's name: letters, digits, spaces, - and _ only",
            ));
        }
        i += 1;
    }
    proof {
        assert(t@.skip(chars@.len() as int) =~= Seq::<char>::empty());
    }
    None
}

/// A new applet as first written: its name and title, a redraw every two seconds, no sources and no widgets, so
/// it is a blank screen to build on.
pub open spec fn fresh_applet_v(name: Seq<char>) -> JsonV {
    JsonV::Object(
        seq![
            ("interval"@, JsonV::Number(NumberV::PosInt(2))),
            ("name"@, JsonV::Str(name)),
            ("sources"@, JsonV::Object(Seq::empty())),
            ("title"@, JsonV::Str(name)),
            ("widgets"@, JsonV::Array(Seq::empty())),
        ],
    )
}

/// The file a new applet called `name` starts as, its keys in the order the file is written in.
pub fn fresh_applet(name: &str) -> (r: Json)
    ensures
        r@ == fresh_applet_v(trimmed(name@)),
{
    let t = trim(name);
    let fields: Vec<(String, Json)> = vec![
        (owned("interval"), Json::Number(Numeral::PosInt(2))),
        (owned("name"), Json::Str(owned(t.as_str()))),
        (owned("sources"), Json::Object(Vec::new())),
        (owned("title"), Json::Str(t)),
        (owned("widgets"), Json::Array(Vec::new())),
    ];
    proof {
        crate::json::lemma_fields_view(fields@);
        assert(crate::json::fields_view(Seq::<(String, Json)>::empty()) =~= Seq::<(Seq<char>, JsonV)>::empty());
        assert(items_view(Seq::<Json>::empty()) =~= Seq::<JsonV>::empty());
        assert(crate::json::fields_view(fields@) =~= seq![
            ("interval"@, JsonV::Number(NumberV::PosInt(2))),
            ("name"@, JsonV::Str(trimmed(name@))),
            ("sources"@, JsonV::Object(Seq::empty())),
            ("title"@, JsonV::Str(trimmed(name@))),
            ("widgets"@, JsonV::Array(Seq::empty())),
        ]);
    }
    Json::Object(fields)
}

/// A source added to an applet and taken away again leaves the applet exactly as it was, for an applet whose keys
/// are in order, as a file reads, and that has its `sources`.
pub proof fn a_source_added_and_removed_leaves_the_applet(applet: JsonV, name: Seq<char>, spec: Seq<char>)
    requires
        jobject(applet) matches Some(a) && crate::json::keys_sorted(a),
        jget_object(applet, "sources"@) is Some,
        source_added(applet, name, spec) is Ok,
    ensures
        source_added(applet, name, spec) matches Ok(after) && source_gone(after, trimmed(name)) == applet,
{
    let a = jobject(applet).unwrap();
    let f = jget_object(applet, "sources"@).unwrap();
    let n = trimmed(name);
    let v = JsonV::Str(trimmed(spec));
    let put = field_put(f, n, v);
    let after = jset(applet, "sources"@, JsonV::Object(put));
    assert(!sources_list(applet).map_values(|p: (Seq<char>, Seq<char>)| p.0).contains(n));
    assert forall|k: int| 0 <= k < f.len() implies #[trigger] f[k].0 != n by {
        let names = sources_list(applet).map_values(|p: (Seq<char>, Seq<char>)| p.0);
        assert(names[k] == f[k].0);
    }
    crate::json::lemma_field_index_none(f, n);
    crate::json::lemma_del_put(f, n, v);
    crate::json::lemma_get_put(a, "sources"@, JsonV::Object(put), "sources"@);
    crate::json::lemma_put_put(a, "sources"@, JsonV::Object(put), JsonV::Object(f));
    crate::json::lemma_put_same(a, "sources"@);
}

/// Adding a second screen to a one-screen applet and taking it away again gives back the applet exactly as it
/// was, for an applet whose keys are in order, as a file reads, and that has its widgets.
pub proof fn a_second_screen_added_and_removed_gives_back_the_applet(applet: JsonV)
    requires
        jobject(applet) matches Some(a) && crate::json::keys_sorted(a),
        jget(applet, "screens"@) is None,
        jget(applet, "widgets"@) is Some,
    ensures
        screen_removed(screen_added(applet).0, 1) matches Some((after, _)) && after == applet,
{
    let a = jobject(applet).unwrap();
    let w = jget(applet, "widgets"@).unwrap();
    let first = screen_object("screen 1"@, w);
    let all = seq![first].push(screen_object("screen "@ + decimal(2), JsonV::Array(Seq::empty())));
    let d = crate::json::field_del(a, "widgets"@);
    crate::json::lemma_get_del_other(a, "widgets"@, "screens"@);
    let b = JsonV::Object(field_put(d, "screens"@, JsonV::Array(all)));
    assert(screens_before(applet) == seq![first]);
    assert(seq![first].len() + 1 == 2);
    assert(screen_added(applet).0 == b);
    crate::json::lemma_get_put(d, "screens"@, JsonV::Array(all), "screens"@);
    assert(jget_array(b, "screens"@) == Some(all));
    assert(all.remove(1) =~= seq![first]);
    crate::json::lemma_del_put(d, "screens"@, JsonV::Array(all));
    crate::json::lemma_get_put(field_put(Seq::empty(), "title"@, JsonV::Str("screen 1"@)), "widgets"@, w, "widgets"@);
    assert(flat_widgets(first) == w);
    crate::json::lemma_put_del_same(a, "widgets"@, w);
}

} // verus!
