//! The pad's menu, edited as the menu file's own JSON: its items, each one's items under it, and what each does.
//!
//! Each edit says whether the window writes the file afterwards; writing it is the caller's work. An item is
//! found by where it is: `(top, None)` for an item of the top level, `(top, Some(child))` for one of its items.

use vstd::prelude::*;
use crate::json::{
    field_del, field_get, field_put, fields_del, fields_put, items_view, jget, jget_array, jget_str,
    jobject, jset, lemma_items_view, Json, JsonV, NumberV, Numeral,
};
use crate::state::tabs::{menu_row, menu_row_of, MenuDoes, MenuRow};
use crate::text::{owned, trim, trimmed};

verus! {

/// The item at a place in the menu, when there is one.
pub open spec fn item_at(m: JsonV, at: (usize, Option<usize>)) -> Option<JsonV> {
    match jget_array(m, "items"@) {
        Some(items) => if at.0 < items.len() {
            match at.1 {
                None => Some(items[at.0 as int]),
                Some(c) => match jget_array(items[at.0 as int], "items"@) {
                    Some(under) => if c < under.len() {
                        Some(under[c as int])
                    } else {
                        None
                    },
                    None => None,
                },
            }
        } else {
            None
        },
        None => None,
    }
}

/// The menu with the item at a place replaced, for a place `item_at` finds.
pub open spec fn with_item(m: JsonV, at: (usize, Option<usize>), item: JsonV) -> JsonV {
    let items = jget_array(m, "items"@).unwrap();
    match at.1 {
        None => jset(m, "items"@, JsonV::Array(items.update(at.0 as int, item))),
        Some(c) => {
            let top = items[at.0 as int];
            let under = jget_array(top, "items"@).unwrap();
            jset(
                m,
                "items"@,
                JsonV::Array(items.update(at.0 as int, jset(top, "items"@, JsonV::Array(under.update(c as int, item))))),
            )
        },
    }
}

/// An item with one field set, or taken out when there is no value.
pub open spec fn item_with_field(item: JsonV, key: Seq<char>, value: Option<JsonV>) -> JsonV {
    match item {
        JsonV::Object(f) => JsonV::Object(
            match value {
                Some(v) => field_put(f, key, v),
                None => field_del(f, key),
            },
        ),
        other => other,
    }
}

/// The menu with one field of one item set or taken out, and whether that is a change the window writes: it is
/// when there is an item at that place and it is an object; otherwise the menu is as it was.
pub open spec fn field_set(m: JsonV, at: (usize, Option<usize>), key: Seq<char>, value: Option<JsonV>) -> (JsonV, bool) {
    match item_at(m, at) {
        Some(item) => if jobject(item) is Some {
            (with_item(m, at, item_with_field(item, key, value)), true)
        } else {
            (m, false)
        },
        None => (m, false),
    }
}

fn copy_list(v: &Vec<Json>) -> (r: Vec<Json>)
    ensures
        items_view(r@) == items_view(v@),
{
    let mut out: Vec<Json> = Vec::new();
    let mut i: usize = 0;
    while i < v.len()
        invariant
            i <= v.len(),
            out@.len() == i,
            forall|k: int| 0 <= k < i ==> (#[trigger] out@[k])@ == v@[k]@,
        decreases v.len() - i,
    {
        out.push(v[i].deep_clone());
        i += 1;
    }
    proof {
        crate::json::lemma_items_view_ext(out@, v@);
    }
    out
}

/// The list under `items`, copied, when there is one.
fn items_of(v: &Json) -> (r: Option<Vec<Json>>)
    ensures
        r matches Some(list) ==> jget_array(v@, "items"@) == Some(items_view(list@)),
        r is None ==> jget_array(v@, "items"@) is None,
{
    match v.get("items") {
        Some(x) => match x.as_array() {
            Some(list) => Some(copy_list(list)),
            None => None,
        },
        None => None,
    }
}

/// An item with one field set, or taken out when there is no value.
fn set_item_field(item: &mut Json, key: &str, value: Option<Json>)
    ensures
        final(item)@ == item_with_field(old(item)@, key@, match value {
            Some(v) => Some(v@),
            None => None,
        }),
{
    match item {
        Json::Object(fields) => match value {
            Some(v) => fields_put(fields, owned(key), v),
            None => fields_del(fields, key),
        },
        _ => {},
    }
}

/// The item at a place, copied, when there is one.
pub fn menu_item(menu: &Json, at: (usize, Option<usize>)) -> (r: Option<Json>)
    ensures
        r matches Some(item) ==> item_at(menu@, at) == Some(item@),
        r is None ==> item_at(menu@, at) is None,
{
    let items = match items_of(menu) {
        Some(items) => items,
        None => return None,
    };
    proof {
        lemma_items_view(items@);
    }
    if at.0 >= items.len() {
        return None;
    }
    match at.1 {
        None => Some(items[at.0].deep_clone()),
        Some(c) => match items_of(&items[at.0]) {
            Some(under) => {
                proof {
                    lemma_items_view(under@);
                }
                if c < under.len() {
                    Some(under[c].deep_clone())
                } else {
                    None
                }
            },
            None => None,
        },
    }
}

/// Set one field of one item, or take it out when there is no value; says whether the window writes the file,
/// which it does when there is an item at that place and it is an object.
pub fn put_menu_field(menu: &mut Json, at: (usize, Option<usize>), key: &str, value: Option<Json>) -> (r: bool)
    ensures
        (final(menu)@, r) == field_set(old(menu)@, at, key@, match value {
            Some(v) => Some(v@),
            None => None,
        }),
{
    let ghost m = menu@;
    let mut items = match items_of(menu) {
        Some(items) => items,
        None => return false,
    };
    proof {
        lemma_items_view(items@);
    }
    if at.0 >= items.len() {
        return false;
    }
    match at.1 {
        None => {
            if !items[at.0].is_object() {
                return false;
            }
            let mut item = items[at.0].deep_clone();
            set_item_field(&mut item, key, value);
            let ghost iv = item@;
            items.set(at.0, item);
            proof {
                lemma_items_view(items@);
                assert(items_view(items@) =~= jget_array(m, "items"@).unwrap().update(at.0 as int, iv));
            }
            menu.set(owned("items"), Json::Array(items));
            true
        },
        Some(c) => {
            let mut under = match items_of(&items[at.0]) {
                Some(under) => under,
                None => return false,
            };
            proof {
                lemma_items_view(under@);
            }
            if c >= under.len() || !under[c].is_object() {
                return false;
            }
            let mut item = under[c].deep_clone();
            set_item_field(&mut item, key, value);
            let ghost iv = item@;
            under.set(c, item);
            let ghost uv = items_view(under@);
            proof {
                lemma_items_view(under@);
                assert(uv =~= jget_array(items[at.0 as int]@, "items"@).unwrap().update(c as int, iv));
            }
            let mut top = items[at.0].deep_clone();
            top.set(owned("items"), Json::Array(under));
            let ghost tv = top@;
            items.set(at.0, top);
            proof {
                lemma_items_view(items@);
                assert(items_view(items@) =~= jget_array(m, "items"@).unwrap().update(at.0 as int, tv));
            }
            menu.set(owned("items"), Json::Array(items));
            true
        },
    }
}

/// What an item is called: the label, trimmed.
pub fn set_menu_label(menu: &mut Json, at: (usize, Option<usize>), label: &str) -> (r: bool)
    ensures
        (final(menu)@, r) == field_set(old(menu)@, at, "label"@, Some(JsonV::Str(trimmed(label@)))),
{
    let label = trim(label);
    put_menu_field(menu, at, "label", Some(Json::Str(label)))
}

/// Which screen of a shown applet an item shows, counted from one; nothing means its first.
pub fn set_menu_screen(menu: &mut Json, at: (usize, Option<usize>), screen: Option<usize>) -> (r: bool)
    ensures
        (final(menu)@, r) == field_set(old(menu)@, at, "screen"@, match screen {
            Some(n) => Some(JsonV::Number(NumberV::PosInt(n as u64))),
            None => None,
        }),
{
    match screen {
        Some(n) => put_menu_field(menu, at, "screen", Some(Json::Number(Numeral::PosInt(n as u64)))),
        None => put_menu_field(menu, at, "screen", None),
    }
}

/// The screen an item shows, or the command it runs: the `show` field when the item has one, the `command` field
/// otherwise.
pub fn set_menu_value(menu: &mut Json, at: (usize, Option<usize>), value: &str) -> (r: bool)
    ensures
        (final(menu)@, r) == field_set(
            old(menu)@,
            at,
            if (match item_at(old(menu)@, at) {
                Some(item) => jget(item, "show"@) is Some,
                None => false,
            }) {
                "show"@
            } else {
                "command"@
            },
            Some(JsonV::Str(trimmed(value@))),
        ),
{
    let value = trim(value);
    let shows = match menu_item(menu, at) {
        Some(item) => item.get("show").is_some(),
        None => false,
    };
    if shows {
        put_menu_field(menu, at, "show", Some(Json::Str(value)))
    } else {
        put_menu_field(menu, at, "command", Some(Json::Str(value)))
    }
}

/// The text of a field of the item at a place, or the empty text.
pub open spec fn item_text(m: JsonV, at: (usize, Option<usize>), key: Seq<char>) -> Seq<char> {
    match item_at(m, at) {
        Some(item) => match jget_str(item, key) {
            Some(t) => t,
            None => Seq::empty(),
        },
        None => Seq::empty(),
    }
}

/// The item a new level starts with, so that it can be opened: `new item`, showing the clock.
pub open spec fn starter_item(label: Seq<char>) -> JsonV {
    JsonV::Object(field_put(field_put(Seq::empty(), "label"@, JsonV::Str(label)), "show"@, JsonV::Str("clock"@)))
}

/// Whether the item at a place has a list of items with something in it.
pub open spec fn has_items(m: JsonV, at: (usize, Option<usize>)) -> bool {
    match item_at(m, at) {
        Some(item) => match jget_array(item, "items"@) {
            Some(list) => list.len() > 0,
            None => false,
        },
        None => false,
    }
}

/// What choosing what an item does makes of the menu, and whether the window writes it. A list loses its screen
/// and its command, and gets one item to start when it has none; a screen loses its command and keeps the screen
/// it showed, or shows the clock; a command loses its screen and keeps the command it ran, or an empty one.
pub open spec fn does_set(m: JsonV, at: (usize, Option<usize>), does: MenuDoes) -> (JsonV, bool) {
    let show = item_text(m, at, "show"@);
    let command = item_text(m, at, "command"@);
    match does {
        MenuDoes::List => {
            let a = field_set(m, at, "show"@, None);
            let b = field_set(a.0, at, "screen"@, None);
            let c = field_set(b.0, at, "command"@, None);
            if has_items(c.0, at) {
                (c.0, a.1 || b.1 || c.1)
            } else {
                let d = field_set(c.0, at, "items"@, Some(JsonV::Array(seq![starter_item("new item"@)])));
                (d.0, a.1 || b.1 || c.1 || d.1)
            }
        },
        MenuDoes::Screen => {
            let a = field_set(m, at, "command"@, None);
            let b = field_set(a.0, at, "show"@, Some(JsonV::Str(if show.len() == 0 { "clock"@ } else { show })));
            (b.0, a.1 || b.1)
        },
        MenuDoes::Command => {
            let a = field_set(m, at, "show"@, None);
            let b = field_set(a.0, at, "screen"@, None);
            let c = field_set(b.0, at, "command"@, Some(JsonV::Str(command)));
            (c.0, a.1 || b.1 || c.1)
        },
    }
}

fn starter(label: String) -> (r: Json)
    ensures
        r@ == starter_item(label@),
{
    let mut f: Vec<(String, Json)> = Vec::new();
    proof {
        assert(crate::json::fields_view(f@) =~= Seq::<(Seq<char>, JsonV)>::empty());
    }
    fields_put(&mut f, owned("label"), Json::Str(label));
    fields_put(&mut f, owned("show"), Json::Str(owned("clock")));
    Json::Object(f)
}

fn text_of(item: &Option<Json>, key: &str) -> (r: String)
    ensures
        r@ == match item {
            Some(i) => match jget_str(i@, key@) {
                Some(t) => t,
                None => Seq::empty(),
            },
            None => Seq::empty(),
        },
{
    match item {
        Some(i) => match i.get(key) {
            Some(v) => match v.as_str() {
                Some(t) => owned(t.as_str()),
                None => String::new(),
            },
            None => String::new(),
        },
        None => String::new(),
    }
}

/// Change what an item does. The keys for the other two go, so an item cannot be two things at once.
pub fn set_menu_does(menu: &mut Json, at: (usize, Option<usize>), does: MenuDoes) -> (r: bool)
    ensures
        (final(menu)@, r) == does_set(old(menu)@, at, does),
{
    let item = menu_item(menu, at);
    let show = text_of(&item, "show");
    let command = text_of(&item, "command");
    match does {
        MenuDoes::List => {
            let a = put_menu_field(menu, at, "show", None);
            let b = put_menu_field(menu, at, "screen", None);
            let c = put_menu_field(menu, at, "command", None);
            let full = match menu_item(menu, at) {
                Some(now) => match now.get("items") {
                    Some(x) => match x.as_array() {
                        Some(list) => {
                            proof {
                                lemma_items_view(list@);
                            }
                            list.len() > 0
                        },
                        None => false,
                    },
                    None => false,
                },
                None => false,
            };
            if full {
                a || b || c
            } else {
                let mut one: Vec<Json> = Vec::new();
                one.push(starter(owned("new item")));
                proof {
                    lemma_items_view(one@);
                    assert(items_view(one@) =~= seq![starter_item("new item"@)]);
                }
                let d = put_menu_field(menu, at, "items", Some(Json::Array(one)));
                a || b || c || d
            }
        },
        MenuDoes::Screen => {
            let a = put_menu_field(menu, at, "command", None);
            let shown = if show.as_str().unicode_len() == 0 { owned("clock") } else { show };
            let b = put_menu_field(menu, at, "show", Some(Json::Str(shown)));
            a || b
        },
        MenuDoes::Command => {
            let a = put_menu_field(menu, at, "show", None);
            let b = put_menu_field(menu, at, "screen", None);
            let c = put_menu_field(menu, at, "command", Some(Json::Str(command)));
            a || b || c
        },
    }
}

/// The menu with an item put on the end of its top level, when it has a list of items.
pub open spec fn item_added(m: JsonV, typed: Seq<char>) -> (JsonV, bool) {
    let label = if trimmed(typed).len() == 0 { "new item"@ } else { trimmed(typed) };
    match jget_array(m, "items"@) {
        Some(items) => (jset(m, "items"@, JsonV::Array(items.push(starter_item(label)))), true),
        None => (m, false),
    }
}

/// Add an item at the top level, called what was typed or `new item`. It shows the clock to start, so it works
/// before it is edited.
pub fn add_menu_item(menu: &mut Json, typed: &str) -> (r: bool)
    ensures
        (final(menu)@, r) == item_added(old(menu)@, typed@),
{
    let t = trim(typed);
    let label = if t.as_str().unicode_len() == 0 { owned("new item") } else { t };
    match items_of(menu) {
        Some(mut items) => {
            let ghost old_items = items@;
            let ghost before = items_view(items@);
            let new_item = starter(label);
            let ghost nv = new_item@;
            items.push(new_item);
            proof {
                lemma_items_view(items@);
                lemma_items_view(old_items);
                assert(items_view(items@) =~= before.push(nv));
            }
            menu.set(owned("items"), Json::Array(items));
            true
        },
        None => false,
    }
}

/// An item turned into a level with one more item under it: its list of items, or a new one, gets a starting
/// item, and its screen and command go.
pub open spec fn with_child(item: JsonV) -> JsonV {
    match item {
        JsonV::Object(f) => {
            let under = match field_get(f, "items"@) {
                Some(JsonV::Array(list)) => field_put(f, "items"@, JsonV::Array(list.push(starter_item("new item"@)))),
                Some(_) => f,
                None => field_put(f, "items"@, JsonV::Array(seq![starter_item("new item"@)])),
            };
            JsonV::Object(field_del(field_del(field_del(under, "show"@), "screen"@), "command"@))
        },
        other => other,
    }
}

/// Add an item under one of the top-level ones, when it is an object.
pub open spec fn child_added(m: JsonV, top: usize) -> (JsonV, bool) {
    match item_at(m, (top, None)) {
        Some(item) => if jobject(item) is Some {
            (with_item(m, (top, None), with_child(item)), true)
        } else {
            (m, false)
        },
        None => (m, false),
    }
}

/// Add an item under one of the top-level ones. A level cannot also act, so the item stops showing a screen or
/// running a command.
pub fn add_menu_child(menu: &mut Json, top: usize) -> (r: bool)
    ensures
        (final(menu)@, r) == child_added(old(menu)@, top),
{
    let ghost m = menu@;
    let mut items = match items_of(menu) {
        Some(items) => items,
        None => return false,
    };
    proof {
        lemma_items_view(items@);
    }
    if top >= items.len() || !items[top].is_object() {
        return false;
    }
    let mut item = items[top].deep_clone();
    match &mut item {
        Json::Object(fields) => {
            let ghost f0 = crate::json::fields_view(fields@);
            match crate::json::fields_get(fields, "items") {
                Some(Json::Array(list)) => {
                    let mut longer = copy_list(list);
                    let ghost old_list = longer@;
                    let ghost lv = items_view(longer@);
                    longer.push(starter(owned("new item")));
                    proof {
                        lemma_items_view(longer@);
                        lemma_items_view(old_list);
                        assert(items_view(longer@) =~= lv.push(starter_item("new item"@)));
                    }
                    fields_put(fields, owned("items"), Json::Array(longer));
                },
                Some(_) => {},
                None => {
                    let mut one: Vec<Json> = Vec::new();
                    one.push(starter(owned("new item")));
                    proof {
                        lemma_items_view(one@);
                        assert(items_view(one@) =~= seq![starter_item("new item"@)]);
                    }
                    fields_put(fields, owned("items"), Json::Array(one));
                },
            }
            fields_del(fields, "show");
            fields_del(fields, "screen");
            fields_del(fields, "command");
        },
        _ => {},
    }
    let ghost iv = item@;
    items.set(top, item);
    proof {
        lemma_items_view(items@);
        assert(items_view(items@) =~= jget_array(m, "items"@).unwrap().update(top as int, iv));
    }
    menu.set(owned("items"), Json::Array(items));
    true
}

/// The menu with an item taken out, or one of an item's own items: the window writes the file whenever the menu
/// has a list of items, whether or not there was anything at that place to take out.
pub open spec fn item_removed(m: JsonV, at: (usize, Option<usize>)) -> (JsonV, bool) {
    match jget_array(m, "items"@) {
        Some(items) => match at.1 {
            None => if at.0 < items.len() {
                (jset(m, "items"@, JsonV::Array(items.remove(at.0 as int))), true)
            } else {
                (m, true)
            },
            Some(c) => if at.0 < items.len() {
                match jget_array(items[at.0 as int], "items"@) {
                    Some(under) => if c < under.len() {
                        (with_list(m, at.0, under.remove(c as int)), true)
                    } else {
                        (m, true)
                    },
                    None => (m, true),
                }
            } else {
                (m, true)
            },
        },
        None => (m, false),
    }
}

/// The menu with the list of items under a top-level item replaced.
pub open spec fn with_list(m: JsonV, top: usize, list: Seq<JsonV>) -> JsonV {
    let items = jget_array(m, "items"@).unwrap();
    jset(m, "items"@, JsonV::Array(items.update(top as int, jset(items[top as int], "items"@, JsonV::Array(list)))))
}

/// Taking out one of an item's own items takes out that one and no other: the items after it move up one place,
/// those before it stay where they were, the list is one shorter, and every other item of the menu is as it was.
pub proof fn a_removed_sub_item_is_the_one_chosen(m: JsonV, t: usize, c: usize)
    requires
        jget_array(m, "items"@) matches Some(items) && t < items.len() && (jget_array(items[t as int], "items"@) matches Some(
            u,
        ) && c < u.len()),
    ensures
        ({
            let items = jget_array(m, "items"@).unwrap();
            let u = jget_array(items[t as int], "items"@).unwrap();
            let after = item_removed(m, (t, Some(c)));
            &&& after.1
            &&& jget_array(after.0, "items"@) matches Some(items2) && {
                &&& items2.len() == items.len()
                &&& forall|j: int| 0 <= j < items.len() && j != t ==> #[trigger] items2[j] == items[j]
                &&& jget_array(items2[t as int], "items"@) matches Some(u2) && {
                    &&& u2.len() + 1 == u.len()
                    &&& forall|k: int| 0 <= k < c ==> #[trigger] u2[k] == u[k]
                    &&& forall|k: int| c <= k < u2.len() ==> #[trigger] u2[k] == u[k + 1]
                }
            }
        }),
{
    let items = jget_array(m, "items"@).unwrap();
    let u = jget_array(items[t as int], "items"@).unwrap();
    let f = crate::json::jobject(m).unwrap();
    let g = crate::json::jobject(items[t as int]).unwrap();
    let top = jset(items[t as int], "items"@, JsonV::Array(u.remove(c as int)));
    let items2 = items.update(t as int, top);
    crate::json::lemma_get_put(f, "items"@, JsonV::Array(items2), "items"@);
    crate::json::lemma_get_put(g, "items"@, JsonV::Array(u.remove(c as int)), "items"@);
    assert(items2[t as int] == top);
}

/// Take an item, or one of an item's own items, out of the menu.
pub fn remove_menu_item(menu: &mut Json, at: (usize, Option<usize>)) -> (r: bool)
    ensures
        (final(menu)@, r) == item_removed(old(menu)@, at),
{
    let ghost m = menu@;
    let mut items = match items_of(menu) {
        Some(items) => items,
        None => return false,
    };
    proof {
        lemma_items_view(items@);
    }
    match at.1 {
        None => {
            if at.0 < items.len() {
                let ghost before = items@;
                items.remove(at.0);
                proof {
                    lemma_items_view(items@);
                    lemma_items_view(before);
                    assert(items_view(items@) =~= items_view(before).remove(at.0 as int));
                }
                menu.set(owned("items"), Json::Array(items));
            }
            true
        },
        Some(c) => {
            if at.0 >= items.len() {
                return true;
            }
            let mut under = match items_of(&items[at.0]) {
                Some(under) => under,
                None => return true,
            };
            proof {
                lemma_items_view(under@);
            }
            if c >= under.len() {
                return true;
            }
            let ghost before = under@;
            under.remove(c);
            proof {
                lemma_items_view(under@);
                lemma_items_view(before);
                assert(items_view(under@) =~= items_view(before).remove(c as int));
            }
            let ghost uv = items_view(under@);
            let mut top = items[at.0].deep_clone();
            top.set(owned("items"), Json::Array(under));
            let ghost tv = top@;
            items.set(at.0, top);
            proof {
                lemma_items_view(items@);
                assert(items_view(items@) =~= jget_array(m, "items"@).unwrap().update(at.0 as int, tv));
            }
            menu.set(owned("items"), Json::Array(items));
            true
        },
    }
}

/// Where an item one place up or down would go: no higher than the first and no lower than the last.
pub open spec fn moved_to(index: int, len: int, up: bool) -> int {
    if up {
        if index > 0 { index - 1 } else { 0 }
    } else {
        if index + 1 < len - 1 { index + 1 } else { len - 1 }
    }
}

/// A list with two places swapped.
pub open spec fn swapped(s: Seq<JsonV>, i: int, j: int) -> Seq<JsonV> {
    s.update(i, s[j]).update(j, s[i])
}

/// The menu with an item moved one place up or down among its neighbours. Nothing happens, and nothing is
/// written, when there is no such list, no item at that place, or only one item in the list.
pub open spec fn item_moved(m: JsonV, at: (usize, Option<usize>), up: bool) -> (JsonV, bool) {
    match jget_array(m, "items"@) {
        Some(items) => {
            let list = match at.1 {
                None => Some(items),
                Some(_) => if at.0 < items.len() {
                    jget_array(items[at.0 as int], "items"@)
                } else {
                    None
                },
            };
            match list {
                Some(l) => {
                    let index = match at.1 {
                        Some(c) => c as int,
                        None => at.0 as int,
                    };
                    if index >= l.len() || l.len() < 2 {
                        (m, false)
                    } else {
                        let to = moved_to(index, l.len() as int, up);
                        let after = swapped(l, index, to);
                        match at.1 {
                            None => (jset(m, "items"@, JsonV::Array(after)), true),
                            Some(_) => (with_list(m, at.0, after), true),
                        }
                    }
                },
                None => (m, false),
            }
        },
        None => (m, false),
    }
}

/// Swap two places of a list of values.
fn swap_items(list: &mut Vec<Json>, i: usize, j: usize)
    requires
        i < old(list)@.len(),
        j < old(list)@.len(),
    ensures
        items_view(final(list)@) == swapped(items_view(old(list)@), i as int, j as int),
{
    let ghost before = list@;
    if i != j {
        let a = list[i].deep_clone();
        let b = list[j].deep_clone();
        list.set(i, b);
        list.set(j, a);
    }
    proof {
        lemma_items_view(list@);
        lemma_items_view(before);
        assert(items_view(list@) =~= swapped(items_view(before), i as int, j as int));
    }
}

/// Move an item one place up or down among its neighbours.
pub fn move_menu_item(menu: &mut Json, at: (usize, Option<usize>), up: bool) -> (r: bool)
    ensures
        (final(menu)@, r) == item_moved(old(menu)@, at, up),
{
    let ghost m = menu@;
    let mut items = match items_of(menu) {
        Some(items) => items,
        None => return false,
    };
    proof {
        lemma_items_view(items@);
    }
    match at.1 {
        None => {
            let index = at.0;
            if index >= items.len() || items.len() < 2 {
                return false;
            }
            let to = if up {
                if index > 0 { index - 1 } else { 0 }
            } else {
                if index + 1 < items.len() - 1 { index + 1 } else { items.len() - 1 }
            };
            swap_items(&mut items, index, to);
            menu.set(owned("items"), Json::Array(items));
            true
        },
        Some(c) => {
            if at.0 >= items.len() {
                return false;
            }
            let mut under = match items_of(&items[at.0]) {
                Some(under) => under,
                None => return false,
            };
            proof {
                lemma_items_view(under@);
            }
            if c >= under.len() || under.len() < 2 {
                return false;
            }
            let to = if up {
                if c > 0 { c - 1 } else { 0 }
            } else {
                if c + 1 < under.len() - 1 { c + 1 } else { under.len() - 1 }
            };
            swap_items(&mut under, c, to);
            let mut top = items[at.0].deep_clone();
            top.set(owned("items"), Json::Array(under));
            let ghost tv = top@;
            items.set(at.0, top);
            proof {
                lemma_items_view(items@);
                assert(items_view(items@) =~= jget_array(m, "items"@).unwrap().update(at.0 as int, tv));
            }
            menu.set(owned("items"), Json::Array(items));
            true
        },
    }
}

/// The menu as rows: each top-level item, then its own items under it, each at its place.
pub open spec fn rows_of_menu(m: Option<JsonV>) -> Seq<(JsonV, (usize, Option<usize>))> {
    match m {
        Some(v) => match jget_array(v, "items"@) {
            Some(items) => top_rows(items, items.len() as int),
            None => Seq::empty(),
        },
        None => Seq::empty(),
    }
}

/// The rows of the first `n` top-level items, each followed by its own items.
pub open spec fn top_rows(items: Seq<JsonV>, n: int) -> Seq<(JsonV, (usize, Option<usize>))>
    decreases n,
{
    if n <= 0 {
        Seq::empty()
    } else {
        let top = (n - 1) as usize;
        let item = items[n - 1];
        let under = match jget_array(item, "items"@) {
            Some(list) => list,
            None => Seq::empty(),
        };
        top_rows(items, n - 1) + seq![(item, (top, None::<usize>))] + under.map(
            |c: int, x: JsonV| (x, (top, Some(c as usize))),
        )
    }
}

/// The menu as rows: each top-level item, then its own items under it. No menu, or a menu with no list of
/// items, has no rows.
pub fn menu_rows(menu: Option<&Json>) -> (r: Vec<MenuRow>)
    ensures
        r@.len() == rows_of_menu(crate::bundle::opt_ref(menu)).len(),
        forall|i: int| 0 <= i < r@.len() ==> menu_row_of(
            #[trigger] r@[i],
            rows_of_menu(crate::bundle::opt_ref(menu))[i].0,
            rows_of_menu(crate::bundle::opt_ref(menu))[i].1,
        ),
{
    let mut rows: Vec<MenuRow> = Vec::new();
    let m = match menu {
        Some(m) => m,
        None => return rows,
    };
    let items = match m.get("items") {
        Some(x) => match x.as_array() {
            Some(items) => items,
            None => return rows,
        },
        None => return rows,
    };
    let ghost iv = items_view(items@);
    proof {
        lemma_items_view(items@);
    }
    let mut top: usize = 0;
    while top < items.len()
        invariant
            iv == items_view(items@),
            iv.len() == items@.len(),
            forall|k: int| 0 <= k < items@.len() ==> #[trigger] iv[k] == items@[k]@,
            rows_of_menu(crate::bundle::opt_ref(menu)) == top_rows(iv, iv.len() as int),
            top <= items.len(),
            rows@.len() == top_rows(iv, top as int).len(),
            forall|i: int| 0 <= i < rows@.len() ==> menu_row_of(
                #[trigger] rows@[i],
                top_rows(iv, top as int)[i].0,
                top_rows(iv, top as int)[i].1,
            ),
        decreases items.len() - top,
    {
        let ghost before = top_rows(iv, top as int);
        let ghost item = iv[top as int];
        let ghost under_v = match jget_array(item, "items"@) {
            Some(list) => list,
            None => Seq::empty(),
        };
        let ghost start = rows@.len();
        let ghost head = before + seq![(item, (top, None::<usize>))];
        rows.push(menu_row(&items[top], (top, None)));
        proof {
            assert forall|i: int| 0 <= i < start + 1 implies menu_row_of(#[trigger] rows@[i], head[i].0, head[i].1) by {
                if i < start {
                    assert(head[i] == before[i]);
                } else {
                    assert(head[i] == (item, (top, None::<usize>)));
                }
            }
        }
        match items[top].get("items") {
            Some(x) => match x.as_array() {
                Some(under) => {
                    proof {
                        lemma_items_view(under@);
                    }
                    let mut c: usize = 0;
                    while c < under.len()
                        invariant
                            under_v == items_view(under@),
                            under_v.len() == under@.len(),
                            forall|k: int| 0 <= k < under@.len() ==> #[trigger] under_v[k] == under@[k]@,
                            c <= under.len(),
                            rows@.len() == start + 1 + c,
                            forall|i: int| 0 <= i < start + 1 ==> menu_row_of(#[trigger] rows@[i], head[i].0, head[i].1),
                            forall|k: int| 0 <= k < c ==> menu_row_of(
                                #[trigger] rows@[start + 1 + k],
                                under_v[k],
                                (top, Some(k as usize)),
                            ),
                        decreases under.len() - c,
                    {
                        rows.push(menu_row(&under[c], (top, Some(c))));
                        c += 1;
                    }
                },
                None => {
                    proof {
                        assert(under_v.len() == 0);
                    }
                },
            },
            None => {
                proof {
                    assert(under_v.len() == 0);
                }
            },
        }
        proof {
            let now = top_rows(iv, top + 1);
            assert(now == before + seq![(item, (top, None::<usize>))] + under_v.map(
                |c: int, x: JsonV| (x, (top, Some(c as usize))),
            ));
            assert(rows@.len() == now.len());
            assert forall|i: int| 0 <= i < rows@.len() implies menu_row_of(
                #[trigger] rows@[i],
                now[i].0,
                now[i].1,
            ) by {
                if i < start + 1 {
                    assert(now[i] == head[i]);
                } else {
                    let k = i - start - 1;
                    assert(now[i] == (under_v[k], (top, Some(k as usize))));
                    assert(menu_row_of(rows@[start + 1 + k], under_v[k], (top, Some(k as usize))));
                    assert(start + 1 + k == i);
                }
            }
        }
        top += 1;
    }
    rows
}

/// Moving a top-level item up one place and then moving it back down puts the menu back as it was, for a menu
/// whose keys are in order (the order `serde_json` reads them in).
pub proof fn moving_up_and_back_down_puts_it_back(m: JsonV, i: usize)
    requires
        jobject(m) matches Some(f) && crate::json::keys_sorted(f),
        jget_array(m, "items"@) matches Some(items) && 1 <= i < items.len(),
    ensures
        item_moved(m, (i, None), true).1,
        item_moved(item_moved(m, (i, None), true).0, ((i - 1) as usize, None), false) == (m, true),
{
    let f = jobject(m).unwrap();
    let items = jget_array(m, "items"@).unwrap();
    let after = swapped(items, i as int, i - 1);
    crate::json::lemma_get_put(f, "items"@, JsonV::Array(after), "items"@);
    let m1 = item_moved(m, (i, None), true).0;
    assert(m1 == jset(m, "items"@, JsonV::Array(after)));
    assert(jget_array(m1, "items"@) == Some(after));
    assert(moved_to(i - 1, items.len() as int, false) == i);
    assert(swapped(after, i - 1, i as int) =~= items);
    crate::json::lemma_put_put(f, "items"@, JsonV::Array(after), JsonV::Array(items));
    assert(field_get(f, "items"@) == Some(JsonV::Array(items)));
    crate::json::lemma_put_same(f, "items"@);
}

} // verus!
