//! One widget's fields, its alert, and the applet's own top-level fields, edited as the file's JSON.
//!
//! The widget is the one at a place in the array the designer edits (`widgets_at`); a change lands there and
//! nowhere else, and a widget that is not an object is left as it is. A field set to `null` is taken away,
//! because for these files not being there is the instruction.

use vstd::prelude::*;
use crate::json::{
    field_put, items_view, jdel, jget, jget_array, jget_str, jobject, jset, lemma_items_view, Json, JsonV,
    NumberV, Numeral,
};
use crate::state::design::{put_widgets, widgets_at, widgets_of, with_widgets};
use crate::macros::cond::{Compare, ConditionForm, Question, QuestionRow};
use crate::macros::graph::{add_missing, readable_names};
use crate::text::{is_before, owned, text_before, texts, trimmed};

verus! {

/// The widget at a place in the array the designer edits.
pub open spec fn widget_at(applet: JsonV, screen: usize, index: usize) -> Option<JsonV> {
    match widgets_at(applet, screen) {
        Some(w) => if index < w.len() {
            Some(w[index as int])
        } else {
            None
        },
        None => None,
    }
}

/// The widget at a place, when it is an object, which is the only kind of widget that has fields to change.
pub open spec fn object_widget_at(applet: JsonV, screen: usize, index: usize) -> Option<JsonV> {
    match widget_at(applet, screen, index) {
        Some(w) => if jobject(w) is Some {
            Some(w)
        } else {
            None
        },
        None => None,
    }
}

/// The applet with the widget at a place changed by `change`, when it is an object; otherwise as it was.
pub open spec fn on_widget(applet: JsonV, screen: usize, index: usize, change: spec_fn(JsonV) -> JsonV) -> JsonV {
    match object_widget_at(applet, screen, index) {
        Some(w) => with_widgets(applet, screen, widgets_at(applet, screen).unwrap().update(index as int, change(w))),
        None => applet,
    }
}

/// A field written: set, or taken away when the value is `null`.
pub open spec fn field_written(widget: JsonV, key: Seq<char>, value: JsonV) -> JsonV {
    if value == JsonV::Null {
        jdel(widget, key)
    } else {
        jset(widget, key, value)
    }
}

/// The widget at a place, copied, when it is an object.
fn object_widget(applet: &Json, screen: usize, index: usize) -> (r: Option<Json>)
    ensures
        r matches Some(w) ==> object_widget_at(applet@, screen, index) == Some(w@),
        r is None ==> object_widget_at(applet@, screen, index) is None,
{
    match widgets_of(applet, screen) {
        Some(ws) => {
            proof {
                lemma_items_view(ws@);
            }
            if index < ws.len() && ws[index].is_object() {
                Some(ws[index].deep_clone())
            } else {
                None
            }
        },
        None => None,
    }
}

/// Put a widget back at its place.
fn replace_widget(applet: &mut Json, screen: usize, index: usize, w: Json)
    requires
        widget_at(old(applet)@, screen, index) is Some,
    ensures
        final(applet)@ == with_widgets(
            old(applet)@,
            screen,
            widgets_at(old(applet)@, screen).unwrap().update(index as int, w@),
        ),
{
    let ghost wv = w@;
    match widgets_of(applet, screen) {
        Some(mut ws) => {
            let ghost before = ws@;
            proof {
                lemma_items_view(before);
            }
            ws.set(index, w);
            proof {
                lemma_items_view(ws@);
                assert(items_view(ws@) =~= items_view(before).update(index as int, wv));
            }
            put_widgets(applet, screen, ws);
        },
        None => {},
    }
}

/// Set a field of a widget, or take it away when the value is `null`.
pub fn put_widget_field(applet: &mut Json, screen: usize, index: usize, key: &str, value: Json)
    ensures
        final(applet)@ == on_widget(old(applet)@, screen, index, |w: JsonV| field_written(w, key@, value@)),
{
    match object_widget(applet, screen, index) {
        Some(mut w) => {
            if value.is_null() {
                w.remove(key);
            } else {
                w.set(owned(key), value);
            }
            replace_widget(applet, screen, index, w);
        },
        None => {},
    }
}

/// Tick a widget's yes-or-no field. Written as a real `false` when cleared, because a person reading the file
/// should see what was chosen.
pub fn set_widget_flag(applet: &mut Json, screen: usize, index: usize, key: &str, value: bool)
    ensures
        final(applet)@ == on_widget(old(applet)@, screen, index, |w: JsonV| jset(w, key@, JsonV::Bool(value))),
{
    put_widget_field(applet, screen, index, key, Json::Bool(value));
}

/// Set one of a widget's text fields.
pub fn set_widget_text(applet: &mut Json, screen: usize, index: usize, key: &str, value: &str)
    ensures
        final(applet)@ == on_widget(old(applet)@, screen, index, |w: JsonV| jset(w, key@, JsonV::Str(value@))),
{
    put_widget_field(applet, screen, index, key, Json::text(value));
}

/// Set one of a widget's numbered fields, as the number the file is to say.
pub fn set_widget_number(applet: &mut Json, screen: usize, index: usize, key: &str, value: Numeral)
    ensures
        final(applet)@ == on_widget(old(applet)@, screen, index, |w: JsonV| jset(w, key@, JsonV::Number(value@))),
{
    put_widget_field(applet, screen, index, key, Json::Number(value));
}

/// Put a text the file may leave out, where nothing takes the key away rather than writing it empty.
pub fn set_widget_optional_text(applet: &mut Json, screen: usize, index: usize, key: &str, value: Option<&str>)
    ensures
        final(applet)@ == on_widget(
            old(applet)@,
            screen,
            index,
            |w: JsonV|
                match value {
                    Some(t) => jset(w, key@, JsonV::Str(t@)),
                    None => jdel(w, key@),
                },
        ),
{
    let written = match value {
        Some(t) => Json::text(t),
        None => Json::Null,
    };
    put_widget_field(applet, screen, index, key, written);
}

/// Put a number the file may leave out, where nothing takes the key away rather than writing it empty.
pub fn set_widget_optional_number(
    applet: &mut Json,
    screen: usize,
    index: usize,
    key: &str,
    value: Option<Numeral>,
)
    ensures
        final(applet)@ == on_widget(
            old(applet)@,
            screen,
            index,
            |w: JsonV|
                match value {
                    Some(n) => jset(w, key@, JsonV::Number(n@)),
                    None => jdel(w, key@),
                },
        ),
{
    let written = match value {
        Some(n) => Json::Number(n),
        None => Json::Null,
    };
    put_widget_field(applet, screen, index, key, written);
}

/// The alert on a widget of an applet with no screens: the alert row reads only the flat list.
pub open spec fn alert_at(applet: JsonV, index: usize) -> Option<JsonV> {
    if jget(applet, "screens"@) is Some {
        None
    } else {
        match jget_array(applet, "widgets"@) {
            Some(ws) => if index < ws.len() {
                jget(ws[index as int], "alert"@)
            } else {
                None
            },
            None => None,
        }
    }
}

/// The alert itself, out of the widget's JSON.
pub fn widget_alert(applet: &Json, index: usize) -> (r: Option<&Json>)
    ensures
        r matches Some(a) ==> alert_at(applet@, index) == Some(a@),
        r is None ==> alert_at(applet@, index) is None,
{
    if applet.get("screens").is_some() {
        return None;
    }
    match applet.get("widgets") {
        Some(w) => match w.as_array() {
            Some(ws) => {
                proof {
                    lemma_items_view(ws@);
                }
                if index < ws.len() {
                    ws[index].get("alert")
                } else {
                    None
                }
            },
            None => None,
        },
        None => None,
    }
}

/// The text under a key of the alert, or nothing when it says none.
pub open spec fn alert_text(applet: JsonV, index: usize, key: Seq<char>) -> Seq<char> {
    match alert_at(applet, index) {
        Some(a) => match jget_str(a, key) {
            Some(t) => t,
            None => Seq::empty(),
        },
        None => Seq::empty(),
    }
}

fn alert_text_of(applet: &Json, index: usize, key: &str) -> (r: String)
    ensures
        r@ == alert_text(applet@, index, key@),
{
    match widget_alert(applet, index) {
        Some(a) => match a.get(key) {
            Some(v) => match v.as_str() {
                Some(t) => owned(t.as_str()),
                None => String::new(),
            },
            None => String::new(),
        },
        None => String::new(),
    }
}

/// What an alert does when its question is true, or nothing when the widget has no alert.
pub fn widget_alert_look(applet: &Json, index: usize) -> (r: String)
    ensures
        r@ == alert_text(applet@, index, "look"@),
{
    alert_text_of(applet, index, "look")
}

/// The bitmap an alert shows when its question is true, or nothing when it names none.
pub fn widget_alert_bitmap(applet: &Json, index: usize) -> (r: String)
    ensures
        r@ == alert_text(applet@, index, "bitmap"@),
{
    alert_text_of(applet, index, "bitmap")
}

/// A widget with an alert object put on it when it has none - an alert already there is kept, so changing the
/// look never throws the question away - and one key of that alert set, or taken away for nothing.
pub open spec fn alert_key_written(widget: JsonV, key: Seq<char>, value: Option<JsonV>) -> JsonV {
    crate::json::jset_inner(widget, "alert"@, key, value)
}

/// Set what an alert does. Nothing takes the whole alert away rather than leaving an object with nothing in it,
/// so a widget that is not reacting says nothing at all in the file.
pub fn set_widget_alert_look(applet: &mut Json, screen: usize, index: usize, look: &str)
    ensures
        final(applet)@ == on_widget(
            old(applet)@,
            screen,
            index,
            |w: JsonV|
                if look@.len() == 0 {
                    jdel(w, "alert"@)
                } else {
                    alert_key_written(w, "look"@, Some(JsonV::Str(look@)))
                },
        ),
{
    match object_widget(applet, screen, index) {
        Some(mut w) => {
            if look.unicode_len() == 0 {
                w.remove("alert");
            } else {
                w.set_inner("alert", "look", Some(Json::text(look)));
            }
            replace_widget(applet, screen, index, w);
        },
        None => {},
    }
}

/// Set the question an alert asks, as the file writes a condition.
pub fn set_widget_alert_when(applet: &mut Json, screen: usize, index: usize, when: Json)
    ensures
        final(applet)@ == on_widget(
            old(applet)@,
            screen,
            index,
            |w: JsonV| alert_key_written(w, "when"@, Some(when@)),
        ),
{
    match object_widget(applet, screen, index) {
        Some(mut w) => {
            w.set_inner("alert", "when", Some(when));
            replace_widget(applet, screen, index, w);
        },
        None => {},
    }
}

/// The picture a `look: show` draws; nothing takes the name away.
pub fn set_widget_alert_bitmap(applet: &mut Json, screen: usize, index: usize, name: &str)
    ensures
        final(applet)@ == on_widget(
            old(applet)@,
            screen,
            index,
            |w: JsonV|
                alert_key_written(
                    w,
                    "bitmap"@,
                    if name@.len() == 0 {
                        None
                    } else {
                        Some(JsonV::Str(name@))
                    },
                ),
        ),
{
    match object_widget(applet, screen, index) {
        Some(mut w) => {
            let value = if name.unicode_len() == 0 {
                None
            } else {
                Some(Json::text(name))
            };
            w.set_inner("alert", "bitmap", value);
            replace_widget(applet, screen, index, w);
        },
        None => {},
    }
}

/// One of the applet's own fields, as text for showing: a string as it is, anything else as the file writes it,
/// and nothing for a field it does not have.
pub open spec fn applet_field_text(applet: JsonV, key: Seq<char>) -> Seq<char> {
    match jget(applet, key) {
        Some(JsonV::Str(t)) => t,
        Some(other) => crate::json::compact_json(other),
        None => Seq::empty(),
    }
}

/// One of the applet's own fields, as text for showing.
pub fn applet_field(applet: &Json, key: &str) -> (r: String)
    ensures
        r@ == applet_field_text(applet@, key@),
{
    match applet.get(key) {
        Some(Json::Str(t)) => owned(t.as_str()),
        Some(other) => crate::json::to_compact(other),
        None => String::new(),
    }
}

/// One of the applet's own flags: what the file says, or no when it says nothing that is a flag.
pub fn applet_flag(applet: &Json, key: &str) -> (r: bool)
    ensures
        r == match jget(applet@, key@) {
            Some(JsonV::Bool(b)) => b,
            _ => false,
        },
{
    match applet.get(key) {
        Some(v) => match v.as_bool() {
            Some(b) => b,
            None => false,
        },
        None => false,
    }
}

/// Set one of the applet's own fields, when the applet is an object.
pub fn put_applet_field(applet: &mut Json, key: &str, value: Json)
    ensures
        final(applet)@ == jset(old(applet)@, key@, value@),
{
    applet.set(owned(key), value);
}

/// Set one of the applet's fields as text.
pub fn set_applet_text(applet: &mut Json, key: &str, text: &str)
    ensures
        final(applet)@ == jset(old(applet)@, key@, JsonV::Str(text@)),
{
    put_applet_field(applet, key, Json::text(text));
}

/// Set one of the applet's fields as the number the file is to say.
pub fn set_applet_number(applet: &mut Json, key: &str, value: Numeral)
    ensures
        final(applet)@ == jset(old(applet)@, key@, JsonV::Number(value@)),
{
    put_applet_field(applet, key, Json::Number(value));
}

/// Set one of the applet's flags.
pub fn set_applet_flag(applet: &mut Json, key: &str, value: bool)
    ensures
        final(applet)@ == jset(old(applet)@, key@, JsonV::Bool(value)),
{
    put_applet_field(applet, key, Json::Bool(value));
}

/// Set one of the applet's own text fields, or take the key away when there is nothing to say.
pub fn set_applet_optional_text(applet: &mut Json, key: &str, value: Option<&str>)
    ensures
        final(applet)@ == match value {
            Some(t) => jset(old(applet)@, key@, JsonV::Str(t@)),
            None => jdel(old(applet)@, key@),
        },
{
    match value {
        Some(t) => set_applet_text(applet, key, t),
        None => applet.remove(key),
    }
}

/// The binding set an applet asks for while it is being fed, if its `follow` names one.
pub open spec fn follow_profile(applet: JsonV) -> Option<Seq<char>> {
    match jget(applet, "follow"@) {
        Some(JsonV::Object(f)) => match crate::json::field_get(f, "profile"@) {
            Some(JsonV::Str(p)) => Some(p),
            _ => None,
        },
        _ => None,
    }
}

/// The binding set this applet asks for while it is being fed, if it names one.
pub fn applet_follow_profile(applet: &Json) -> (r: Option<String>)
    ensures
        r matches Some(p) ==> follow_profile(applet@) == Some(p@),
        r is None ==> follow_profile(applet@) is None,
{
    match applet.get("follow") {
        Some(f) => match f {
            Json::Object(_) => match f.get("profile") {
                Some(p) => match p.as_str() {
                    Some(t) => Some(owned(t.as_str())),
                    None => None,
                },
                None => None,
            },
            _ => None,
        },
        None => None,
    }
}

/// What an applet follows with: for how long, when it follows at all, and the binding set it asks for when one
/// is named. Not following takes the key away rather than writing a line that says nothing.
pub open spec fn follow_written(applet: JsonV, seconds: Option<NumberV>, profile: Option<Seq<char>>) -> JsonV {
    match seconds {
        None => jdel(applet, "follow"@),
        Some(n) => {
            let timed = seq![("seconds"@, JsonV::Number(n))];
            let fields = match profile {
                Some(p) => if p.len() > 0 {
                    field_put(timed, "profile"@, JsonV::Str(p))
                } else {
                    timed
                },
                None => timed,
            };
            jset(applet, "follow"@, JsonV::Object(fields))
        },
    }
}

/// Write what this applet follows with; `seconds` is nothing when it does not follow.
pub fn set_applet_follow(applet: &mut Json, seconds: Option<Numeral>, profile: Option<&str>)
    ensures
        final(applet)@ == follow_written(
            old(applet)@,
            match seconds {
                Some(n) => Some(n@),
                None => None,
            },
            match profile {
                Some(p) => Some(p@),
                None => None,
            },
        ),
{
    match seconds {
        None => applet.remove("follow"),
        Some(n) => {
            let mut fields: Vec<(String, Json)> = Vec::new();
            fields.push((owned("seconds"), Json::Number(n)));
            proof {
                crate::json::lemma_fields_view(fields@);
                assert(crate::json::fields_view(fields@) =~= seq![("seconds"@, JsonV::Number(n@))]);
            }
            match profile {
                Some(p) => {
                    if p.unicode_len() > 0 {
                        crate::json::fields_put(&mut fields, owned("profile"), Json::text(p));
                    }
                },
                None => {},
            }
            applet.set(owned("follow"), Json::Object(fields));
        },
    }
}

/// The titles the screens give themselves, in order, skipping a screen with none.
pub open spec fn screen_titles(screens: Seq<JsonV>) -> Seq<Seq<char>>
    decreases screens.len(),
{
    if screens.len() == 0 {
        Seq::empty()
    } else {
        let before = screen_titles(screens.drop_last());
        match jget_str(screens.last(), "title"@) {
            Some(t) => before.push(t),
            None => before,
        }
    }
}

/// The titles of the applet's own screens, for offering a `screen:` action by name. A single-screen applet has
/// none: there is nowhere to go, and offering a button that cannot work is worse than offering none.
pub fn applet_screen_titles(applet: &Json) -> (r: Vec<String>)
    ensures
        texts(r@) == match jget_array(applet@, "screens"@) {
            Some(screens) => screen_titles(screens),
            None => Seq::empty(),
        },
{
    let mut out: Vec<String> = Vec::new();
    match applet.get("screens") {
        Some(s) => match s.as_array() {
            Some(screens) => {
                proof {
                    lemma_items_view(screens@);
                }
                let mut i: usize = 0;
                while i < screens.len()
                    invariant
                        i <= screens.len(),
                        items_view(screens@).len() == screens@.len(),
                        forall|k: int| 0 <= k < screens@.len() ==> #[trigger] items_view(screens@)[k] == screens@[k]@,
                        texts(out@) == screen_titles(items_view(screens@).subrange(0, i as int)),
                    decreases screens.len() - i,
                {
                    let ghost all = items_view(screens@);
                    proof {
                        assert(all.subrange(0, i + 1).drop_last() =~= all.subrange(0, i as int));
                    }
                    match screens[i].get("title") {
                        Some(t) => match t.as_str() {
                            Some(title) => {
                                out.push(owned(title.as_str()));
                                proof {
                                    assert(texts(out@) =~= screen_titles(all.subrange(0, i as int)).push(title@));
                                }
                            },
                            None => {},
                        },
                        None => {},
                    }
                    i += 1;
                }
                proof {
                    assert(items_view(screens@).subrange(0, screens@.len() as int) =~= items_view(screens@));
                }
            },
            None => {},
        },
        None => {},
    }
    proof {
        if jget_array(applet@, "screens"@) is None {
            assert(texts(out@) =~= Seq::<Seq<char>>::empty());
        }
    }
    out
}

/// An object's keys that hold text, each with its text, in order.
pub open spec fn text_fields(f: Seq<(Seq<char>, JsonV)>) -> Seq<(Seq<char>, Seq<char>)>
    decreases f.len(),
{
    if f.len() == 0 {
        Seq::empty()
    } else {
        let before = text_fields(f.drop_last());
        match f.last().1 {
            JsonV::Str(t) => before.push((f.last().0, t)),
            _ => before,
        }
    }
}

/// The applet's sources as a question about it may ask for them: each name whose source is written as text,
/// with that text.
pub open spec fn source_names_of(applet: JsonV) -> Seq<(Seq<char>, Seq<char>)> {
    match crate::json::jget_object(applet, "sources"@) {
        Some(f) => text_fields(f),
        None => Seq::empty(),
    }
}

/// The applet's own sources, as the names a question about it may ask for.
pub fn applet_source_names(applet: &Json) -> (r: Vec<(String, String)>)
    ensures
        r@.map_values(|p: (String, String)| (p.0@, p.1@)) == source_names_of(applet@),
{
    let mut out: Vec<(String, String)> = Vec::new();
    match applet.get("sources") {
        Some(s) => match s.as_object() {
            Some(fields) => {
                proof {
                    crate::json::lemma_fields_view(fields@);
                }
                let mut i: usize = 0;
                while i < fields.len()
                    invariant
                        i <= fields.len(),
                        crate::json::fields_view(fields@).len() == fields@.len(),
                        forall|k: int|
                            0 <= k < fields@.len() ==> #[trigger] crate::json::fields_view(fields@)[k] == (
                                fields@[k].0@,
                                fields@[k].1@,
                            ),
                        out@.map_values(|p: (String, String)| (p.0@, p.1@)) == text_fields(
                            crate::json::fields_view(fields@).subrange(0, i as int),
                        ),
                    decreases fields.len() - i,
                {
                    let ghost all = crate::json::fields_view(fields@);
                    proof {
                        assert(all.subrange(0, i + 1).drop_last() =~= all.subrange(0, i as int));
                    }
                    match fields[i].1.as_str() {
                        Some(t) => {
                            let ghost before = out@;
                            out.push((owned(fields[i].0.as_str()), owned(t.as_str())));
                            proof {
                                assert(out@.map_values(|p: (String, String)| (p.0@, p.1@)) =~= before.map_values(
                                    |p: (String, String)| (p.0@, p.1@),
                                ).push((fields@[i as int].0@, t@)));
                            }
                        },
                        None => {},
                    }
                    i += 1;
                }
                proof {
                    assert(crate::json::fields_view(fields@).subrange(0, fields@.len() as int)
                        =~= crate::json::fields_view(fields@));
                }
            },
            None => {},
        },
        None => {},
    }
    proof {
        if crate::json::jget_object(applet@, "sources"@) is None {
            assert(out@.map_values(|p: (String, String)| (p.0@, p.1@)) =~= Seq::<(Seq<char>, Seq<char>)>::empty());
        }
    }
    out
}

/// The name that sorts first among some sources, as a map keyed by name would give it first.
pub open spec fn first_by_name(s: Seq<(Seq<char>, Seq<char>)>) -> Option<Seq<char>>
    decreases s.len(),
{
    if s.len() == 0 {
        None
    } else {
        match first_by_name(s.drop_last()) {
            None => Some(s.last().0),
            Some(m) => if text_before(s.last().0, m) {
                Some(s.last().0)
            } else {
                Some(m)
            },
        }
    }
}

/// The name a new alert's question starts from: the applet's own source that sorts first, or else the first name
/// anything publishes, or else nothing.
pub open spec fn alert_name(applet: JsonV, published: Seq<Seq<char>>) -> Seq<char> {
    match first_by_name(source_names_of(applet)) {
        Some(n) => n,
        None => {
            let readable = add_missing(Seq::empty(), published);
            if readable.len() > 0 {
                readable[0]
            } else {
                Seq::empty()
            }
        },
    }
}

/// The question a new alert starts from: the first thing this applet reads, asked whether it is over 80.
///
/// A value question, never a control one: a control question is always false in an applet, because a control
/// is the one thing only a pad can answer, so starting from one is starting from something that cannot work.
/// `published` is what the driver publishes, in the order the window lists it.
pub fn new_alert_question(applet: &Json, published: &Vec<String>) -> (r: ConditionForm)
    ensures
        r.all,
        r.rows@.len() == 1,
        !r.rows@[0].not,
        r.rows@[0].question matches Question::Value { name, op, number, text } && name@ == alert_name(
            applet@,
            texts(published@),
        ) && op == Compare::Gt && (number matches Some(n) && n@ == "80"@) && text is None,
{
    let names = applet_source_names(applet);
    let ghost pairs = names@.map_values(|p: (String, String)| (p.0@, p.1@));
    let mut best: Option<usize> = None;
    let mut i: usize = 0;
    while i < names.len()
        invariant
            i <= names.len(),
            pairs == names@.map_values(|p: (String, String)| (p.0@, p.1@)),
            match best {
                Some(b) => b < i && first_by_name(pairs.subrange(0, i as int)) == Some(names@[b as int].0@),
                None => i == 0,
            },
        decreases names.len() - i,
    {
        proof {
            assert(pairs.subrange(0, i + 1).drop_last() =~= pairs.subrange(0, i as int));
            if i == 0 {
                assert(pairs.subrange(0, 0) =~= Seq::<(Seq<char>, Seq<char>)>::empty());
            }
        }
        best = match best {
            None => Some(i),
            Some(b) => if is_before(names[i].0.as_str(), names[b].0.as_str()) {
                Some(i)
            } else {
                Some(b)
            },
        };
        i += 1;
    }
    proof {
        assert(pairs.subrange(0, names@.len() as int) =~= pairs);
        if best is None {
            assert(pairs =~= Seq::<(Seq<char>, Seq<char>)>::empty());
        }
    }
    let name = match best {
        Some(b) => owned(names[b].0.as_str()),
        None => {
            let readable = readable_names(None, published);
            if readable.len() > 0 {
                owned(readable[0].as_str())
            } else {
                String::new()
            }
        },
    };
    let question = Question::Value { name, op: Compare::Gt, number: Some(owned("80")), text: None };
    let mut rows: Vec<QuestionRow> = Vec::new();
    rows.push(QuestionRow { not: false, question });
    ConditionForm { all: true, rows }
}

/// Whether a kind of widget has a field with this key.
pub open spec fn kind_has_field(kind: Seq<char>, key: Seq<char>) -> bool {
    exists|i: int|
        0 <= i < crate::state::tabs::own_fields(kind).len() && #[trigger] crate::state::tabs::own_fields(kind)[i].0
            == key
}

/// The text under a key, or nothing when it holds none.
pub open spec fn text_or_empty(j: JsonV, key: Seq<char>) -> Seq<char> {
    match jget_str(j, key) {
        Some(t) => t,
        None => Seq::empty(),
    }
}

/// The applet with the widget at a place pointed at a source by name: one that reads a single value takes it as
/// its `source`, and a text reads it inside its `format` as `{name}`; any other is left as it is.
pub open spec fn widget_pointed(applet: JsonV, screen: usize, index: usize, name: Seq<char>) -> JsonV {
    match widget_at(applet, screen, index) {
        Some(w) => {
            let kind = text_or_empty(w, "type"@);
            if kind_has_field(kind, "source"@) {
                on_widget(applet, screen, index, |x: JsonV| jset(x, "source"@, JsonV::Str(name)))
            } else if kind_has_field(kind, "format"@) {
                let held = text_or_empty(w, "format"@);
                on_widget(
                    applet,
                    screen,
                    index,
                    |x: JsonV| jset(x, "format"@, JsonV::Str(held + "{"@ + name + "}"@)),
                )
            } else {
                applet
            }
        },
        None => applet,
    }
}

/// The applet after a source is declared for a widget: declared as `add_applet_source` declares one, and then,
/// when the applet has a source by that name - just added, or there already - the widget is pointed at it.
pub open spec fn source_declared_for_widget(
    applet: JsonV,
    screen: usize,
    index: usize,
    name: Seq<char>,
    spec: Seq<char>,
) -> JsonV {
    let after = match crate::state::design::source_added(applet, name, spec) {
        Ok(a) => a,
        Err(_) => applet,
    };
    let t = trimmed(name);
    if t.len() == 0 || !crate::state::design::sources_list(after).map_values(|p: (Seq<char>, Seq<char>)| p.0).contains(
        t,
    ) {
        after
    } else {
        widget_pointed(after, screen, index, t)
    }
}

fn kind_has(keys: &Vec<(&'static str, crate::state::tabs::FieldKind)>, key: &str) -> (r: bool)
    ensures
        r == exists|i: int|
            0 <= i < keys@.len() && #[trigger] crate::state::tabs::fields_of(keys@)[i].0 == key@,
{
    let mut i: usize = 0;
    while i < keys.len()
        invariant
            i <= keys@.len(),
            forall|k: int| 0 <= k < i ==> #[trigger] crate::state::tabs::fields_of(keys@)[k].0 != key@,
        decreases keys.len() - i,
    {
        if crate::text::same_text(keys[i].0, key) {
            assert(crate::state::tabs::fields_of(keys@)[i as int].0 == key@);
            return true;
        }
        i += 1;
    }
    false
}

/// Declare a source and point the widget that asked at it. A source that was refused - no spec, or the name
/// taken - leaves the widget alone unless the applet does have a source by that name, so the widget is never
/// pointed at a name nothing declares; what the declaring says is handed back.
pub fn add_source_for_widget(applet: &mut Json, screen: usize, index: usize, name: &str, spec: &str) -> (r: Result<
    (),
    String,
>)
    ensures
        final(applet)@ == source_declared_for_widget(old(applet)@, screen, index, name@, spec@),
        match crate::state::design::source_added(old(applet)@, name@, spec@) {
            Ok(_) => r is Ok,
            Err(why) => r matches Err(e) && e@ == why,
        },
{
    let r = crate::state::design::add_applet_source(applet, name, spec);
    let t = crate::text::trim(name);
    if t.as_str().unicode_len() == 0 {
        return r;
    }
    let known = crate::state::design::applet_sources(applet);
    if !crate::state::design::names_a_source(&known, t.as_str()) {
        proof {
            assert(known@.map_values(|p: (String, String)| p.0@) =~= crate::state::design::sources_list(
                applet@,
            ).map_values(|p: (Seq<char>, Seq<char>)| p.0));
        }
        return r;
    }
    proof {
        assert(known@.map_values(|p: (String, String)| p.0@) =~= crate::state::design::sources_list(
            applet@,
        ).map_values(|p: (Seq<char>, Seq<char>)| p.0));
    }
    let widgets = match widgets_of(applet, screen) {
        Some(w) => w,
        None => return r,
    };
    proof {
        lemma_items_view(widgets@);
    }
    if index >= widgets.len() {
        return r;
    }
    let kind = match widgets[index].get("type") {
        Some(v) => match v.as_str() {
            Some(k) => owned(k.as_str()),
            None => String::new(),
        },
        None => String::new(),
    };
    let keys = crate::state::tabs::widget_fields_of_kind(kind.as_str());
    if kind_has(&keys, "source") {
        set_widget_text(applet, screen, index, "source", t.as_str());
    } else if kind_has(&keys, "format") {
        let held = match widgets[index].get("format") {
            Some(v) => match v.as_str() {
                Some(f) => owned(f.as_str()),
                None => String::new(),
            },
            None => String::new(),
        };
        let opened = crate::text::join3(held.as_str(), "{", t.as_str());
        let written = crate::text::join2(opened.as_str(), "}");
        set_widget_text(applet, screen, index, "format", written.as_str());
    }
    r
}

/// Changing what an alert looks like keeps the question it asks, and every other part of it: the alert a widget
/// has is kept, only its `look` is set, and an alert that is not an object is left as it is.
pub proof fn a_new_look_keeps_the_question(widget: JsonV, look: Seq<char>, key: Seq<char>)
    requires
        jget(widget, "alert"@) is Some,
        key != "look"@,
    ensures
        match (jget(alert_key_written(widget, "look"@, Some(JsonV::Str(look))), "alert"@), jget(widget, "alert"@)) {
            (Some(JsonV::Object(after)), Some(JsonV::Object(before))) => crate::json::field_get(after, key)
                == crate::json::field_get(before, key) && crate::json::field_get(after, "look"@) == Some(
                JsonV::Str(look),
            ),
            (after, before) => after == before,
        },
{
    let f = jobject(widget).unwrap();
    match jget(widget, "alert"@) {
        Some(JsonV::Object(before)) => {
            let after = field_put(before, "look"@, JsonV::Str(look));
            crate::json::lemma_get_put(f, "alert"@, JsonV::Object(after), "alert"@);
            crate::json::lemma_get_put(before, "look"@, JsonV::Str(look), key);
            crate::json::lemma_get_put(before, "look"@, JsonV::Str(look), "look"@);
        },
        _ => {},
    }
}

/// The applet after a name is put into a widget's format: appended to what the format holds, because a format is
/// usually text and names together, and declared as a source reading itself when the applet does not declare it,
/// because a name nothing declares is drawn on the pad as itself.
pub open spec fn name_inserted(
    applet: JsonV,
    screen: usize,
    index: usize,
    held: Seq<char>,
    name: Seq<char>,
) -> (JsonV, Result<(), Seq<char>>) {
    let written = on_widget(applet, screen, index, |w: JsonV| jset(w, "format"@, JsonV::Str(held + "{"@ + name + "}"@)));
    if crate::state::design::sources_list(written).map_values(|p: (Seq<char>, Seq<char>)| p.0).contains(name) {
        (written, Ok(()))
    } else {
        match crate::state::design::source_added(written, name, name) {
            Ok(after) => (after, Ok(())),
            Err(why) => (written, Err(why)),
        }
    }
}

/// Put a name into a widget's format at the end, declaring it as a source when the applet does not. `held` is
/// what the format holds as it is being edited.
pub fn insert_name(applet: &mut Json, screen: usize, index: usize, held: &str, name: &str) -> (r: Result<(), String>)
    ensures
        final(applet)@ == name_inserted(old(applet)@, screen, index, held@, name@).0,
        match (r, name_inserted(old(applet)@, screen, index, held@, name@).1) {
            (Ok(_), Ok(_)) => true,
            (Err(e), Err(why)) => e@ == why,
            _ => false,
        },
{
    let opened = crate::text::join3(held, "{", name);
    let written = crate::text::join2(opened.as_str(), "}");
    set_widget_text(applet, screen, index, "format", written.as_str());
    let known = crate::state::design::applet_sources(applet);
    proof {
        assert(known@.map_values(|p: (String, String)| p.0@) =~= crate::state::design::sources_list(
            applet@,
        ).map_values(|p: (Seq<char>, Seq<char>)| p.0));
    }
    if crate::state::design::names_a_source(&known, name) {
        return Ok(());
    }
    crate::state::design::add_applet_source(applet, name, name)
}

/// The widgets the designer edits, once the one at a place has been replaced: the same list with that widget
/// changed, and every top-level key of the applet other than the widgets' own reading as it did.
proof fn lemma_replaced(applet: JsonV, screen: usize, index: usize, w: JsonV, top: Seq<char>)
    requires
        object_widget_at(applet, screen, index) is Some,
        top != "widgets"@,
        top != "screens"@,
    ensures
        widgets_at(with_widgets(applet, screen, widgets_at(applet, screen).unwrap().update(index as int, w)), screen)
            == Some(widgets_at(applet, screen).unwrap().update(index as int, w)),
        jget(with_widgets(applet, screen, widgets_at(applet, screen).unwrap().update(index as int, w)), top) == jget(
            applet,
            top,
        ),
{
    let ws = widgets_at(applet, screen).unwrap().update(index as int, w);
    let f = jobject(applet).unwrap();
    match jget_array(applet, "screens"@) {
        Some(screens) => {
            let one = screens[screen as int];
            let changed = JsonV::Array(screens.update(screen as int, jset(one, "widgets"@, JsonV::Array(ws))));
            crate::json::lemma_get_put(f, "screens"@, changed, "screens"@);
            crate::json::lemma_get_put(f, "screens"@, changed, top);
            let g = jobject(one).unwrap();
            crate::json::lemma_get_put(g, "widgets"@, JsonV::Array(ws), "widgets"@);
        },
        None => {
            crate::json::lemma_get_put(f, "widgets"@, JsonV::Array(ws), "widgets"@);
            crate::json::lemma_get_put(f, "widgets"@, JsonV::Array(ws), "screens"@);
            crate::json::lemma_get_put(f, "widgets"@, JsonV::Array(ws), top);
        },
    }
}

/// Editing one field of a widget keeps every other key of that widget, every other widget, and every other key
/// of the applet exactly as they were: the file is edited, never rewritten from what this build understands.
pub proof fn a_field_edit_keeps_every_other_key(
    applet: JsonV,
    screen: usize,
    index: usize,
    key: Seq<char>,
    value: JsonV,
    other: Seq<char>,
    j: int,
    top: Seq<char>,
)
    requires
        object_widget_at(applet, screen, index) is Some,
        other != key,
        top != "widgets"@,
        top != "screens"@,
    ensures
        ({
            let after = on_widget(applet, screen, index, |w: JsonV| field_written(w, key, value));
            let before = widgets_at(applet, screen).unwrap();
            &&& widgets_at(after, screen) matches Some(now) && now.len() == before.len()
                && jget(now[index as int], other) == jget(before[index as int], other)
                && (value != JsonV::Null ==> jget(now[index as int], key) == Some(value))
                && (value == JsonV::Null && (jobject(before[index as int]) matches Some(wf)
                && crate::json::field_keys(wf).no_duplicates()) ==> jget(now[index as int], key) is None)
                && (0 <= j < before.len() && j != index ==> now[j] == before[j])
            &&& jget(after, top) == jget(applet, top)
        }),
{
    let before = widgets_at(applet, screen).unwrap();
    let w = before[index as int];
    let changed = field_written(w, key, value);
    let wf = jobject(w).unwrap();
    lemma_replaced(applet, screen, index, changed, top);
    if value == JsonV::Null {
        crate::json::lemma_get_del_other(wf, key, other);
        if crate::json::field_keys(wf).no_duplicates() {
            crate::json::lemma_get_del(wf, key, key);
        }
    } else {
        crate::json::lemma_get_put(wf, key, value, other);
        crate::json::lemma_get_put(wf, key, value, key);
    }
}

} // verus!
