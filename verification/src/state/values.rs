//! The Values page and the Sources page: the values the user names, what a widget reads, and which applets read
//! which name or endpoint.
//!
//! Every table here is keyed by name, each name once and in order, the shape a map keyed by name gives. Who reads
//! what is worked out from what each applet asks for, never kept as a list of its own, because the applet files
//! are the truth.

use vstd::prelude::*;
use crate::json::{
    field_del, field_get, field_put, jget_str, keys_sorted, lemma_field_del_at, lemma_field_get_index,
    lemma_field_index_first, lemma_field_index_none, lemma_field_put_at, lemma_put_keeps_sorted, lemma_sorted_absent,
    Json, JsonV,
};
use crate::macros::graph::{add_missing, pairs_view};
use crate::state::tabs::{Origin, ValueRead, ValueRow};
use crate::text::{
    ascii_alphanumeric, chars_of, contains_text, is_ascii_alphanumeric, is_before, join3, owned, same_text,
    lemma_texts_push, sort_texts, text_before, texts, texts_in_order, trim, trimmed,
};

verus! {

/// Names with the applets that read them, as the contracts read them.
pub open spec fn users_view(v: Seq<(String, Vec<String>)>) -> Seq<(Seq<char>, Seq<Seq<char>>)> {
    v.map_values(|p: (String, Vec<String>)| (p.0@, texts(p.1@)))
}

/// Where a key goes in a table keyed by name: the first place that has it or sorts after it, or the end.
fn stop_at<V>(m: &Vec<(String, V)>, key: &str) -> (r: usize)
    ensures
        r <= m@.len(),
        forall|k: int| 0 <= k < r ==> #[trigger] m@[k].0@ != key@ && !text_before(key@, m@[k].0@),
        r == m@.len() || m@[r as int].0@ == key@ || text_before(key@, m@[r as int].0@),
{
    let mut i: usize = 0;
    while i < m.len() && !same_text(m[i].0.as_str(), key) && !is_before(key, m[i].0.as_str())
        invariant
            i <= m@.len(),
            forall|k: int| 0 <= k < i ==> #[trigger] m@[k].0@ != key@ && !text_before(key@, m@[k].0@),
        decreases m.len() - i,
    {
        i += 1;
    }
    i
}

/// Where a key first is in a table keyed by name, if it is there.
fn find_key<V>(m: &Vec<(String, V)>, key: &str) -> (r: Option<usize>)
    ensures
        r matches Some(i) ==> i < m@.len() && m@[i as int].0@ == key@ && forall|k: int|
            0 <= k < i ==> #[trigger] m@[k].0@ != key@,
        r is None ==> forall|k: int| 0 <= k < m@.len() ==> #[trigger] m@[k].0@ != key@,
{
    let mut i: usize = 0;
    while i < m.len()
        invariant
            i <= m@.len(),
            forall|k: int| 0 <= k < i ==> #[trigger] m@[k].0@ != key@,
        decreases m.len() - i,
    {
        if same_text(m[i].0.as_str(), key) {
            return Some(i);
        }
        i += 1;
    }
    None
}

/// Set a name's text: replaced where it is, or put in its place in the order.
fn pairs_put(m: &mut Vec<(String, String)>, key: String, val: String)
    ensures
        pairs_view(final(m)@) == field_put(pairs_view(old(m)@), key@, val@),
{
    let ghost f = pairs_view(m@);
    let i = stop_at(m, key.as_str());
    let ghost kv = key@;
    let ghost vv = val@;
    proof {
        assert forall|k: int| 0 <= k < i implies #[trigger] f[k].0 != kv && !text_before(kv, f[k].0) by {
            assert(f[k].0 == m@[k].0@);
        }
        if i < m@.len() {
            assert(f[i as int].0 == m@[i as int].0@);
        }
        lemma_field_put_at(f, kv, vv, i as int);
    }
    if i == m.len() {
        m.push((key, val));
        proof {
            assert(pairs_view(m@) =~= f.push((kv, vv)));
        }
    } else if same_text(m[i].0.as_str(), key.as_str()) {
        m.set(i, (key, val));
        proof {
            assert(pairs_view(m@) =~= f.update(i as int, (kv, vv)));
        }
    } else {
        m.insert(i, (key, val));
        proof {
            assert(pairs_view(m@) =~= f.insert(i as int, (kv, vv)));
        }
    }
}

/// Take a name out, if it is there.
fn pairs_del(m: &mut Vec<(String, String)>, key: &str)
    ensures
        pairs_view(final(m)@) == field_del(pairs_view(old(m)@), key@),
{
    let ghost f = pairs_view(m@);
    proof {
        lemma_field_del_at(f, key@);
    }
    match find_key(m, key) {
        Some(i) => {
            proof {
                assert forall|k: int| 0 <= k < i implies #[trigger] f[k].0 != key@ by {
                    assert(f[k].0 == m@[k].0@);
                }
                lemma_field_index_first(f, key@, i as int);
            }
            m.remove(i);
            proof {
                assert(pairs_view(m@) =~= f.remove(i as int));
            }
        },
        None => {
            proof {
                assert forall|k: int| 0 <= k < f.len() implies #[trigger] f[k].0 != key@ by {
                    assert(f[k].0 == m@[k].0@);
                }
                lemma_field_index_none(f, key@);
            }
        },
    }
}

/// The names a widget reads: what its `format` names, then the one value its `source` names when that is not
/// among them already.
pub open spec fn reads_named(format_names: Seq<Seq<char>>, widget: JsonV) -> Seq<Seq<char>> {
    match jget_str(widget, "source"@) {
        Some(s) => {
            let t = trimmed(s);
            if t.len() > 0 && !format_names.contains(t) {
                format_names.push(t)
            } else {
                format_names
            }
        },
        None => format_names,
    }
}

/// Where a name a widget reads comes from: the applet's own sources, or nowhere.
pub open spec fn origin_of(sources: Seq<(Seq<char>, Seq<char>)>, name: Seq<char>) -> Origin {
    if exists|k: int| 0 <= k < sources.len() && #[trigger] sources[k].0 == name {
        Origin::Declared
    } else {
        Origin::Missing
    }
}

fn is_declared(sources: &Vec<(String, String)>, name: &str) -> (r: bool)
    ensures
        r == exists|k: int| 0 <= k < sources@.len() && #[trigger] pairs_view(sources@)[k].0 == name@,
{
    match find_key(sources, name) {
        Some(i) => {
            assert(pairs_view(sources@)[i as int].0 == sources@[i as int].0@);
            true
        },
        None => {
            assert forall|k: int| 0 <= k < sources@.len() implies #[trigger] pairs_view(sources@)[k].0 != name@ by {
                assert(pairs_view(sources@)[k].0 == sources@[k].0@);
            }
            false
        },
    }
}

/// What one widget reads, each name with where it comes from, so a name nothing declares is seen. `format_names`
/// is what the widget's `format` names, as the sources crate reads a format, or nothing when it has no format.
pub fn widget_reads(widget: &Json, format_names: &Vec<String>, sources: &Vec<(String, String)>) -> (r: Vec<
    ValueRead,
>)
    ensures
        r@.len() == reads_named(texts(format_names@), widget@).len(),
        forall|i: int|
            0 <= i < r@.len() ==> (#[trigger] r@[i]).name@ == reads_named(texts(format_names@), widget@)[i]
                && r@[i].origin == origin_of(pairs_view(sources@), r@[i].name@),
{
    let mut wanted: Vec<String> = Vec::new();
    let mut i: usize = 0;
    while i < format_names.len()
        invariant
            i <= format_names@.len(),
            texts(wanted@) == texts(format_names@).subrange(0, i as int),
        decreases format_names.len() - i,
    {
        let ghost before = wanted@;
        let x = owned(format_names[i].as_str());
        proof {
            lemma_texts_push(before, x);
        }
        wanted.push(x);
        i += 1;
        proof {
            assert(texts(wanted@) =~= texts(format_names@).subrange(0, i as int));
        }
    }
    proof {
        assert(texts(format_names@).subrange(0, format_names@.len() as int) =~= texts(format_names@));
    }
    match widget.get("source") {
        Some(s) => match s.as_str() {
            Some(text) => {
                let t = trim(text.as_str());
                if t.as_str().unicode_len() > 0 && !contains_text(&wanted, t.as_str()) {
                    let ghost before = wanted@;
                    wanted.push(t);
                    proof {
                        assert(texts(wanted@) =~= texts(before).push(trimmed(text@)));
                    }
                } else {
                    proof {
                        if trimmed(text@).len() > 0 {
                            let k = choose|k: int| 0 <= k < wanted@.len() && #[trigger] wanted@[k]@ == trimmed(text@);
                            assert(texts(wanted@)[k] == trimmed(text@));
                        }
                    }
                }
            },
            None => {},
        },
        None => {},
    }
    let ghost names = texts(wanted@);
    let mut out: Vec<ValueRead> = Vec::new();
    let mut j: usize = 0;
    while j < wanted.len()
        invariant
            j <= wanted@.len(),
            names == texts(wanted@),
            out@.len() == j,
            forall|k: int|
                0 <= k < j ==> (#[trigger] out@[k]).name@ == names[k] && out@[k].origin == origin_of(
                    pairs_view(sources@),
                    out@[k].name@,
                ),
        decreases wanted.len() - j,
    {
        let name = owned(wanted[j].as_str());
        let origin = if is_declared(sources, name.as_str()) {
            Origin::Declared
        } else {
            Origin::Missing
        };
        out.push(ValueRead { name, origin });
        j += 1;
    }
    out
}

/// A character a value's name may hold: letters, digits, `_` and `-`.
pub open spec fn value_name_char(c: char) -> bool {
    ascii_alphanumeric(c) || c == '_' || c == '-'
}

/// The user's values with one set, or taken out again for an empty spec; nothing is written for a name that is
/// only white space.
pub open spec fn custom_set(values: Seq<(Seq<char>, Seq<char>)>, name: Seq<char>, spec: Seq<char>) -> Option<
    Seq<(Seq<char>, Seq<char>)>,
> {
    let n = trimmed(name);
    if n.len() == 0 {
        None
    } else if trimmed(spec).len() == 0 {
        Some(field_del(values, n))
    } else {
        Some(field_put(values, n, trimmed(spec)))
    }
}

/// Set one of the user's values, or take it out again with an empty spec; says whether the values are to be
/// written, which they are unless the name is empty.
pub fn set_custom_value(values: &mut Vec<(String, String)>, name: &str, spec: &str) -> (r: bool)
    ensures
        match custom_set(pairs_view(old(values)@), name@, spec@) {
            Some(after) => r && pairs_view(final(values)@) == after,
            None => !r && final(values)@ == old(values)@,
        },
{
    let n = trim(name);
    if n.as_str().unicode_len() == 0 {
        return false;
    }
    let s = trim(spec);
    if s.as_str().unicode_len() == 0 {
        pairs_del(values, n.as_str());
    } else {
        pairs_put(values, n, s);
    }
    true
}

/// The user's values with a new one, or why it was refused: no name, a character a name may not hold, a name
/// this build already publishes, or a name the user already has.
pub open spec fn custom_added(
    values: Seq<(Seq<char>, Seq<char>)>,
    published: Seq<Seq<char>>,
    name: Seq<char>,
    spec: Seq<char>,
) -> Result<Seq<(Seq<char>, Seq<char>)>, Seq<char>> {
    let n = trimmed(name);
    if n.len() == 0 {
        Err("a value needs a name"@)
    } else if !(forall|i: int| 0 <= i < n.len() ==> value_name_char(#[trigger] n[i])) {
        Err("`"@ + n + "` cannot be a name: letters, digits, `_` and `-` only"@)
    } else if published.contains(n) {
        Err("`"@ + n + "` is a name this build already publishes - call yours something else"@)
    } else if field_get(values, n) is Some {
        Err("there is already a value called `"@ + n + "`"@)
    } else {
        Ok(field_put(values, n, trimmed(spec)))
    }
}

/// Add one of the user's values, refusing a name already taken rather than writing over it, and saying why.
/// `published` is every name this build publishes: taking one of those would change what applets the user did
/// not touch read.
pub fn add_custom_value(values: &mut Vec<(String, String)>, published: &Vec<String>, name: &str, spec: &str) -> (r:
    Result<(), String>)
    ensures
        match custom_added(pairs_view(old(values)@), texts(published@), name@, spec@) {
            Ok(after) => r is Ok && pairs_view(final(values)@) == after,
            Err(why) => r matches Err(e) && e@ == why && final(values)@ == old(values)@,
        },
{
    let n = trim(name);
    if n.as_str().unicode_len() == 0 {
        return Err(owned("a value needs a name"));
    }
    let chars = chars_of(n.as_str());
    let mut i: usize = 0;
    while i < chars.len()
        invariant
            i <= chars@.len(),
            chars@ == n@,
            n@ == trimmed(name@),
            forall|k: int| 0 <= k < i ==> value_name_char(#[trigger] chars@[k]),
        decreases chars.len() - i,
    {
        let c = chars[i];
        if !(is_ascii_alphanumeric(c) || c == '_' || c == '-') {
            proof {
                let t = trimmed(name@);
                assert(!value_name_char(t[i as int]));
                assert(!(forall|j: int| 0 <= j < t.len() ==> value_name_char(#[trigger] t[j])));
            }
            return Err(join3("`", n.as_str(), "` cannot be a name: letters, digits, `_` and `-` only"));
        }
        i += 1;
    }
    if contains_text(published, n.as_str()) {
        proof {
            let k = choose|k: int| 0 <= k < published@.len() && #[trigger] published@[k]@ == n@;
            assert(texts(published@)[k] == n@);
        }
        return Err(join3(
            "`",
            n.as_str(),
            "` is a name this build already publishes - call yours something else",
        ));
    }
    proof {
        if texts(published@).contains(n@) {
            let k = choose|k: int| 0 <= k < texts(published@).len() && texts(published@)[k] == n@;
            assert(published@[k]@ == n@);
        }
    }
    let ghost f = pairs_view(values@);
    match find_key(values, n.as_str()) {
        Some(k) => {
            proof {
                assert forall|j: int| 0 <= j < k implies #[trigger] f[j].0 != n@ by {
                    assert(f[j].0 == values@[j].0@);
                }
                lemma_field_index_first(f, n@, k as int);
                lemma_field_get_index(f, n@);
            }
            return Err(join3("there is already a value called `", n.as_str(), "`"));
        },
        None => {
            proof {
                assert forall|j: int| 0 <= j < f.len() implies #[trigger] f[j].0 != n@ by {
                    assert(f[j].0 == values@[j].0@);
                }
                lemma_field_index_none(f, n@);
            }
        },
    }
    let s = trim(spec);
    pairs_put(values, n, s);
    Ok(())
}

/// A table with one more reader of a name: the applet is put at the end of that name's list unless it is there
/// already, and a name nothing read before gets a list of its own.
pub open spec fn with_user(
    uses: Seq<(Seq<char>, Seq<Seq<char>>)>,
    name: Seq<char>,
    applet: Seq<char>,
) -> Seq<(Seq<char>, Seq<Seq<char>>)> {
    let list = match field_get(uses, name) {
        Some(l) => l,
        None => Seq::empty(),
    };
    field_put(uses, name, if list.contains(applet) { list } else { list.push(applet) })
}

/// A table with an applet added as a reader of each of some names, in their order.
pub open spec fn with_users(
    uses: Seq<(Seq<char>, Seq<Seq<char>>)>,
    names: Seq<Seq<char>>,
    applet: Seq<char>,
) -> Seq<(Seq<char>, Seq<Seq<char>>)>
    decreases names.len(),
{
    if names.len() == 0 {
        uses
    } else {
        with_user(with_users(uses, names.drop_last(), applet), names.last(), applet)
    }
}

/// Who reads what: each applet, in order, with the names it asks for.
pub open spec fn uses_of(applets: Seq<(Seq<char>, Seq<Seq<char>>)>) -> Seq<(Seq<char>, Seq<Seq<char>>)>
    decreases applets.len(),
{
    if applets.len() == 0 {
        Seq::empty()
    } else {
        with_users(uses_of(applets.drop_last()), applets.last().1, applets.last().0)
    }
}

fn copy_texts(v: &Vec<String>) -> (r: Vec<String>)
    ensures
        texts(r@) == texts(v@),
{
    let mut out: Vec<String> = Vec::new();
    let mut i: usize = 0;
    while i < v.len()
        invariant
            i <= v@.len(),
            texts(out@) == texts(v@).subrange(0, i as int),
        decreases v.len() - i,
    {
        let ghost before = out@;
        let x = owned(v[i].as_str());
        proof {
            lemma_texts_push(before, x);
        }
        out.push(x);
        i += 1;
        proof {
            assert(texts(out@) =~= texts(v@).subrange(0, i as int));
        }
    }
    proof {
        assert(texts(v@).subrange(0, v@.len() as int) =~= texts(v@));
    }
    out
}

/// Add a reader of a name to a table whose names are in order, keeping them in order.
fn add_user(uses: &mut Vec<(String, Vec<String>)>, name: &str, applet: &str)
    requires
        keys_sorted(users_view(old(uses)@)),
    ensures
        users_view(final(uses)@) == with_user(users_view(old(uses)@), name@, applet@),
        keys_sorted(users_view(final(uses)@)),
{
    let ghost f = users_view(uses@);
    let i = stop_at(uses, name);
    proof {
        assert forall|k: int| 0 <= k < i implies #[trigger] f[k].0 != name@ && !text_before(name@, f[k].0) by {
            assert(f[k].0 == uses@[k].0@);
        }
        if i < uses@.len() {
            assert(f[i as int].0 == uses@[i as int].0@);
        }
    }
    if i < uses.len() && same_text(uses[i].0.as_str(), name) {
        let ghost list = f[i as int].1;
        proof {
            lemma_field_index_first(f, name@, i as int);
            lemma_field_get_index(f, name@);
        }
        let mut readers = copy_texts(&uses[i].1);
        if !contains_text(&readers, applet) {
            proof {
                if list.contains(applet@) {
                    let k = choose|k: int| 0 <= k < list.len() && list[k] == applet@;
                    assert(readers@[k]@ == applet@);
                }
            }
            let ghost before = readers@;
            readers.push(owned(applet));
            proof {
                assert(texts(readers@) =~= texts(before).push(applet@));
            }
        } else {
            proof {
                let k = choose|k: int| 0 <= k < readers@.len() && #[trigger] readers@[k]@ == applet@;
                assert(texts(readers@)[k] == applet@);
            }
        }
        let ghost lv = texts(readers@);
        proof {
            lemma_field_put_at(f, name@, lv, i as int);
            lemma_put_keeps_sorted(f, name@, lv);
        }
        uses.set(i, (owned(name), readers));
        proof {
            assert(users_view(uses@) =~= f.update(i as int, (name@, lv)));
        }
    } else {
        proof {
            lemma_sorted_absent(f, name@, i as int);
        }
        let mut readers: Vec<String> = Vec::new();
        readers.push(owned(applet));
        let ghost lv = texts(readers@);
        proof {
            assert(lv =~= Seq::<Seq<char>>::empty().push(applet@));
            lemma_field_put_at(f, name@, lv, i as int);
            lemma_put_keeps_sorted(f, name@, lv);
        }
        if i == uses.len() {
            uses.push((owned(name), readers));
            proof {
                assert(users_view(uses@) =~= f.push((name@, lv)));
            }
        } else {
            uses.insert(i, (owned(name), readers));
            proof {
                assert(users_view(uses@) =~= f.insert(i as int, (name@, lv)));
            }
        }
    }
}

/// Add an applet as a reader of each of some names.
fn add_users(uses: &mut Vec<(String, Vec<String>)>, names: &Vec<String>, applet: &str)
    requires
        keys_sorted(users_view(old(uses)@)),
    ensures
        users_view(final(uses)@) == with_users(users_view(old(uses)@), texts(names@), applet@),
        keys_sorted(users_view(final(uses)@)),
{
    let ghost start = users_view(uses@);
    let mut i: usize = 0;
    while i < names.len()
        invariant
            i <= names@.len(),
            keys_sorted(users_view(uses@)),
            users_view(uses@) == with_users(start, texts(names@).subrange(0, i as int), applet@),
        decreases names.len() - i,
    {
        proof {
            assert(texts(names@).subrange(0, i + 1).drop_last() =~= texts(names@).subrange(0, i as int));
        }
        add_user(uses, names[i].as_str(), applet);
        i += 1;
    }
    proof {
        assert(texts(names@).subrange(0, names@.len() as int) =~= texts(names@));
    }
}

/// Which applets name which value: each name any applet asks for, in order, with the applets that ask for it in
/// the order they were found. `applets` is each applet's name with the names it asks for.
pub fn applet_uses(applets: &Vec<(String, Vec<String>)>) -> (r: Vec<(String, Vec<String>)>)
    ensures
        users_view(r@) == uses_of(users_view(applets@)),
        keys_sorted(users_view(r@)),
{
    let ghost all = users_view(applets@);
    let mut uses: Vec<(String, Vec<String>)> = Vec::new();
    proof {
        assert(users_view(uses@) =~= Seq::<(Seq<char>, Seq<Seq<char>>)>::empty());
    }
    let mut i: usize = 0;
    while i < applets.len()
        invariant
            i <= applets@.len(),
            all == users_view(applets@),
            keys_sorted(users_view(uses@)),
            users_view(uses@) == uses_of(all.subrange(0, i as int)),
        decreases applets.len() - i,
    {
        proof {
            assert(all.subrange(0, i + 1).drop_last() =~= all.subrange(0, i as int));
            assert(all[i as int] == (applets@[i as int].0@, texts(applets@[i as int].1@)));
        }
        add_users(&mut uses, &applets[i].1, applets[i].0.as_str());
        i += 1;
    }
    proof {
        assert(all.subrange(0, applets@.len() as int) =~= all);
    }
    uses
}

/// The applets that read a name, for the "used by" column, or none.
pub fn used_by(uses: &Vec<(String, Vec<String>)>, name: &str) -> (r: Vec<String>)
    ensures
        texts(r@) == match field_get(users_view(uses@), name@) {
            Some(l) => l,
            None => Seq::empty(),
        },
{
    let ghost f = users_view(uses@);
    match find_key(uses, name) {
        Some(i) => {
            proof {
                assert forall|k: int| 0 <= k < i implies #[trigger] f[k].0 != name@ by {
                    assert(f[k].0 == uses@[k].0@);
                }
                lemma_field_index_first(f, name@, i as int);
                lemma_field_get_index(f, name@);
            }
            copy_texts(&uses[i].1)
        },
        None => {
            proof {
                assert forall|k: int| 0 <= k < f.len() implies #[trigger] f[k].0 != name@ by {
                    assert(f[k].0 == uses@[k].0@);
                }
                lemma_field_index_none(f, name@);
            }
            let r: Vec<String> = Vec::new();
            proof {
                assert(texts(r@) =~= Seq::<Seq<char>>::empty());
            }
            r
        },
    }
}

/// The names an applet asks for: its own sources' names, then what a source reads by a name of the user's own -
/// written with no colon - and then what its widgets name, each once. `widget_names` is what its widgets read, in
/// order, as the applet's parser gives them.
pub open spec fn names_wanted(sources: Seq<(Seq<char>, Seq<char>)>, widget_names: Seq<Seq<char>>) -> Seq<Seq<char>> {
    add_missing(add_missing(sources.map_values(|p: (Seq<char>, Seq<char>)| p.0), spec_targets(sources)), widget_names)
}

/// What an applet's sources read by a name of the user's own: each spec, trimmed, that is not empty and has no
/// colon in it.
pub open spec fn spec_targets(sources: Seq<(Seq<char>, Seq<char>)>) -> Seq<Seq<char>>
    decreases sources.len(),
{
    if sources.len() == 0 {
        Seq::empty()
    } else {
        let before = spec_targets(sources.drop_last());
        let t = trimmed(sources.last().1);
        if t.len() > 0 && !t.contains(':') {
            before.push(t)
        } else {
            before
        }
    }
}

/// Add each name not there already, in order.
fn push_missing(names: &mut Vec<String>, more: &Vec<String>)
    ensures
        texts(final(names)@) == add_missing(texts(old(names)@), texts(more@)),
{
    let ghost start = texts(names@);
    let mut i: usize = 0;
    while i < more.len()
        invariant
            i <= more@.len(),
            texts(names@) == add_missing(start, texts(more@).subrange(0, i as int)),
        decreases more.len() - i,
    {
        proof {
            assert(texts(more@).subrange(0, i + 1).drop_last() =~= texts(more@).subrange(0, i as int));
        }
        let ghost before = names@;
        if !contains_text(names, more[i].as_str()) {
            names.push(owned(more[i].as_str()));
            proof {
                assert(texts(names@) =~= texts(before).push(more@[i as int]@));
                if texts(before).contains(more@[i as int]@) {
                    let k = choose|k: int| 0 <= k < texts(before).len() && texts(before)[k] == more@[i as int]@;
                    assert(before[k]@ == more@[i as int]@);
                }
            }
        } else {
            proof {
                let k = choose|k: int| 0 <= k < names@.len() && #[trigger] names@[k]@ == more@[i as int]@;
                assert(texts(names@)[k] == more@[i as int]@);
            }
        }
        i += 1;
    }
    proof {
        assert(texts(more@).subrange(0, more@.len() as int) =~= texts(more@));
    }
}

fn has_colon(s: &str) -> (r: bool)
    ensures
        r == s@.contains(':'),
{
    let chars = chars_of(s);
    let mut i: usize = 0;
    while i < chars.len()
        invariant
            i <= chars@.len(),
            chars@ == s@,
            forall|k: int| 0 <= k < i ==> chars@[k] != ':',
        decreases chars.len() - i,
    {
        if chars[i] == ':' {
            return true;
        }
        i += 1;
    }
    false
}

/// The names an applet asks for, each once: see `names_wanted`.
pub fn applet_wants(sources: &Vec<(String, String)>, widget_names: &Vec<String>) -> (r: Vec<String>)
    ensures
        texts(r@) == names_wanted(pairs_view(sources@), texts(widget_names@)),
{
    let ghost p = pairs_view(sources@);
    let mut keys: Vec<String> = Vec::new();
    let mut targets: Vec<String> = Vec::new();
    let mut i: usize = 0;
    while i < sources.len()
        invariant
            i <= sources@.len(),
            p == pairs_view(sources@),
            texts(keys@) == p.subrange(0, i as int).map_values(|q: (Seq<char>, Seq<char>)| q.0),
            texts(targets@) == spec_targets(p.subrange(0, i as int)),
        decreases sources.len() - i,
    {
        proof {
            assert(p.subrange(0, i + 1).drop_last() =~= p.subrange(0, i as int));
        }
        let ghost kb = keys@;
        let x = owned(sources[i].0.as_str());
        proof {
            lemma_texts_push(kb, x);
        }
        keys.push(x);
        proof {
            assert(texts(keys@) =~= p.subrange(0, i + 1).map_values(|q: (Seq<char>, Seq<char>)| q.0));
        }
        let t = trim(sources[i].1.as_str());
        if t.as_str().unicode_len() > 0 && !has_colon(t.as_str()) {
            let ghost tb = targets@;
            targets.push(t);
            proof {
                assert(texts(targets@) =~= texts(tb).push(trimmed(sources@[i as int].1@)));
            }
        }
        i += 1;
    }
    proof {
        assert(p.subrange(0, sources@.len() as int) =~= p);
    }
    push_missing(&mut keys, &targets);
    push_missing(&mut keys, widget_names);
    keys
}

/// The two tables with an applet added as a reader of each endpoint it names, in order: one that `known` has
/// goes in the first table, and any other in the second, the table of names no endpoint answers to.
pub open spec fn endpoint_split(
    tables: (Seq<(Seq<char>, Seq<Seq<char>>)>, Seq<(Seq<char>, Seq<Seq<char>>)>),
    names: Seq<Seq<char>>,
    applet: Seq<char>,
    known: Seq<Seq<char>>,
) -> (Seq<(Seq<char>, Seq<Seq<char>>)>, Seq<(Seq<char>, Seq<Seq<char>>)>)
    decreases names.len(),
{
    if names.len() == 0 {
        tables
    } else {
        let (used, missing) = endpoint_split(tables, names.drop_last(), applet, known);
        if known.contains(names.last()) {
            (with_user(used, names.last(), applet), missing)
        } else {
            (used, with_user(missing, names.last(), applet))
        }
    }
}

/// Which applets name which endpoint, and which names no endpoint has: each applet, in order, with the
/// endpoints its sources name.
pub open spec fn endpoint_tables(applets: Seq<(Seq<char>, Seq<Seq<char>>)>, known: Seq<Seq<char>>) -> (
    Seq<(Seq<char>, Seq<Seq<char>>)>,
    Seq<(Seq<char>, Seq<Seq<char>>)>,
)
    decreases applets.len(),
{
    if applets.len() == 0 {
        (Seq::empty(), Seq::empty())
    } else {
        endpoint_split(endpoint_tables(applets.drop_last(), known), applets.last().1, applets.last().0, known)
    }
}

/// A table with each list in order: the same names in the same places, each with the same readers, sorted.
pub open spec fn lists_sorted(r: Seq<(Seq<char>, Seq<Seq<char>>)>, t: Seq<(Seq<char>, Seq<Seq<char>>)>) -> bool {
    &&& r.len() == t.len()
    &&& forall|i: int|
        0 <= i < r.len() ==> (#[trigger] r[i]).0 == t[i].0 && texts_in_order(r[i].1) && r[i].1.to_multiset()
            == t[i].1.to_multiset()
}

/// Each list of a table sorted.
fn sort_lists(t: Vec<(String, Vec<String>)>) -> (r: Vec<(String, Vec<String>)>)
    ensures
        lists_sorted(users_view(r@), users_view(t@)),
{
    let ghost tv = users_view(t@);
    let mut out: Vec<(String, Vec<String>)> = Vec::new();
    let mut i: usize = 0;
    while i < t.len()
        invariant
            i <= t@.len(),
            tv == users_view(t@),
            out@.len() == i,
            forall|k: int|
                0 <= k < i ==> (#[trigger] users_view(out@)[k]).0 == tv[k].0 && texts_in_order(
                    users_view(out@)[k].1,
                ) && users_view(out@)[k].1.to_multiset() == tv[k].1.to_multiset(),
        decreases t.len() - i,
    {
        let sorted = sort_texts(copy_texts(&t[i].1));
        let ghost before = out@;
        out.push((owned(t[i].0.as_str()), sorted));
        proof {
            assert forall|k: int| 0 <= k < i + 1 implies (#[trigger] users_view(out@)[k]).0 == tv[k].0
                && texts_in_order(users_view(out@)[k].1) && users_view(out@)[k].1.to_multiset()
                == tv[k].1.to_multiset() by {
                if k < i {
                    assert(users_view(out@)[k] == users_view(before)[k]);
                }
            }
        }
        i += 1;
    }
    out
}

/// Which applets name which endpoint, and which names no endpoint answers to, each list sorted. `applets` is each
/// applet's name with the endpoints its sources name, in order, and `known` the endpoints there are.
pub fn endpoint_use(applets: &Vec<(String, Vec<String>)>, known: &Vec<String>) -> (r: (
    Vec<(String, Vec<String>)>,
    Vec<(String, Vec<String>)>,
))
    ensures
        lists_sorted(users_view(r.0@), endpoint_tables(users_view(applets@), texts(known@)).0),
        lists_sorted(users_view(r.1@), endpoint_tables(users_view(applets@), texts(known@)).1),
{
    let ghost all = users_view(applets@);
    let ghost k = texts(known@);
    let mut used: Vec<(String, Vec<String>)> = Vec::new();
    let mut missing: Vec<(String, Vec<String>)> = Vec::new();
    proof {
        assert(users_view(used@) =~= Seq::<(Seq<char>, Seq<Seq<char>>)>::empty());
        assert(users_view(missing@) =~= Seq::<(Seq<char>, Seq<Seq<char>>)>::empty());
    }
    let mut i: usize = 0;
    while i < applets.len()
        invariant
            i <= applets@.len(),
            all == users_view(applets@),
            k == texts(known@),
            keys_sorted(users_view(used@)),
            keys_sorted(users_view(missing@)),
            (users_view(used@), users_view(missing@)) == endpoint_tables(all.subrange(0, i as int), k),
        decreases applets.len() - i,
    {
        proof {
            assert(all.subrange(0, i + 1).drop_last() =~= all.subrange(0, i as int));
            assert(all[i as int] == (applets@[i as int].0@, texts(applets@[i as int].1@)));
        }
        let ghost start = (users_view(used@), users_view(missing@));
        let names = &applets[i].1;
        let applet = applets[i].0.as_str();
        let mut j: usize = 0;
        while j < names.len()
            invariant
                j <= names@.len(),
                k == texts(known@),
                keys_sorted(users_view(used@)),
                keys_sorted(users_view(missing@)),
                (users_view(used@), users_view(missing@)) == endpoint_split(
                    start,
                    texts(names@).subrange(0, j as int),
                    applet@,
                    k,
                ),
            decreases names.len() - j,
        {
            proof {
                assert(texts(names@).subrange(0, j + 1).drop_last() =~= texts(names@).subrange(0, j as int));
            }
            if contains_text(known, names[j].as_str()) {
                proof {
                    let w = choose|w: int| 0 <= w < known@.len() && #[trigger] known@[w]@ == names@[j as int]@;
                    assert(k[w] == names@[j as int]@);
                }
                add_user(&mut used, names[j].as_str(), applet);
            } else {
                proof {
                    if k.contains(names@[j as int]@) {
                        let w = choose|w: int| 0 <= w < k.len() && k[w] == names@[j as int]@;
                        assert(known@[w]@ == names@[j as int]@);
                    }
                }
                add_user(&mut missing, names[j].as_str(), applet);
            }
            j += 1;
        }
        proof {
            assert(texts(names@).subrange(0, names@.len() as int) =~= texts(names@));
        }
        i += 1;
    }
    proof {
        assert(all.subrange(0, applets@.len() as int) =~= all);
    }
    (sort_lists(used), sort_lists(missing))
}

/// Why an endpoint cannot be added, or its name and url trimmed when it can: it needs both, and a name already
/// taken is refused rather than overwritten, because the name is what every applet refers to it by. `known` is
/// the endpoints there are.
pub open spec fn endpoint_added(known: Seq<Seq<char>>, name: Seq<char>, url: Seq<char>) -> Result<
    (Seq<char>, Seq<char>),
    Seq<char>,
> {
    let n = trimmed(name);
    let u = trimmed(url);
    if n.len() == 0 || u.len() == 0 {
        Err("an endpoint needs a name and a url"@)
    } else if known.contains(n) {
        Err("there is already an endpoint called "@ + n)
    } else {
        Ok((n, u))
    }
}

/// The name and url of a new endpoint, trimmed, or why it is refused.
pub fn new_endpoint(known: &Vec<String>, name: &str, url: &str) -> (r: Result<(String, String), String>)
    ensures
        match endpoint_added(texts(known@), name@, url@) {
            Ok((n, u)) => r matches Ok((a, b)) && a@ == n && b@ == u,
            Err(why) => r matches Err(e) && e@ == why,
        },
{
    let n = trim(name);
    let u = trim(url);
    if n.as_str().unicode_len() == 0 || u.as_str().unicode_len() == 0 {
        return Err(owned("an endpoint needs a name and a url"));
    }
    if contains_text(known, n.as_str()) {
        proof {
            let w = choose|w: int| 0 <= w < known@.len() && #[trigger] known@[w]@ == n@;
            assert(texts(known@)[w] == n@);
        }
        return Err(crate::text::join2("there is already an endpoint called ", n.as_str()));
    }
    proof {
        if texts(known@).contains(n@) {
            let w = choose|w: int| 0 <= w < texts(known@).len() && texts(known@)[w] == n@;
            assert(known@[w]@ == n@);
        }
    }
    Ok((n, u))
}

/// The readers of a name in a table, or none.
pub open spec fn readers_of(uses: Seq<(Seq<char>, Seq<Seq<char>>)>, name: Seq<char>) -> Seq<Seq<char>> {
    match field_get(uses, name) {
        Some(l) => l,
        None => Seq::empty(),
    }
}

/// The Values page's rows for the user's own values, in their order: each name with the spec it reads, marked as
/// the user's, with the applets that read it. What one is now is only known to the running driver.
pub fn custom_value_rows(values: &Vec<(String, String)>, uses: &Vec<(String, Vec<String>)>) -> (r: Vec<ValueRow>)
    ensures
        r@.len() == values@.len(),
        forall|i: int|
            0 <= i < r@.len() ==> (#[trigger] r@[i]).name@ == values@[i].0@ && r@[i].meaning@ == values@[i].1@
                && !r@[i].computed && r@[i].now@ == Seq::<char>::empty() && r@[i].mine && texts(r@[i].used_by@)
                == readers_of(users_view(uses@), values@[i].0@),
{
    let mut out: Vec<ValueRow> = Vec::new();
    let mut i: usize = 0;
    while i < values.len()
        invariant
            i <= values@.len(),
            out@.len() == i,
            forall|k: int|
                0 <= k < i ==> (#[trigger] out@[k]).name@ == values@[k].0@ && out@[k].meaning@ == values@[k].1@
                    && !out@[k].computed && out@[k].now@ == Seq::<char>::empty() && out@[k].mine && texts(
                    out@[k].used_by@,
                ) == readers_of(users_view(uses@), values@[k].0@),
        decreases values.len() - i,
    {
        let used = used_by(uses, values[i].0.as_str());
        out.push(
            ValueRow {
                name: owned(values[i].0.as_str()),
                meaning: owned(values[i].1.as_str()),
                computed: false,
                now: String::new(),
                used_by: used,
                mine: true,
            },
        );
        i += 1;
    }
    out
}

/// A value the user adds and then takes out again, by setting it to nothing, leaves the values as they were.
pub proof fn a_value_added_and_taken_out_leaves_the_values(
    values: Seq<(Seq<char>, Seq<char>)>,
    published: Seq<Seq<char>>,
    name: Seq<char>,
    spec: Seq<char>,
)
    requires
        custom_added(values, published, name, spec) is Ok,
    ensures
        custom_added(values, published, name, spec) matches Ok(after) && custom_set(after, name, ""@) == Some(values),
{
    let n = trimmed(name);
    crate::json::lemma_del_put(values, n, trimmed(spec));
    reveal_strlit("");
    assert(""@.len() == 0);
    assert(trimmed(""@).len() == 0);
}

/// Whether every name a table has is one `known` has, or every one is not, as `inside` says.
pub open spec fn keys_known(t: Seq<(Seq<char>, Seq<Seq<char>>)>, known: Seq<Seq<char>>, inside: bool) -> bool {
    forall|i: int| 0 <= i < t.len() ==> known.contains(#[trigger] t[i].0) == inside
}

proof fn lemma_split_keys(
    tables: (Seq<(Seq<char>, Seq<Seq<char>>)>, Seq<(Seq<char>, Seq<Seq<char>>)>),
    names: Seq<Seq<char>>,
    applet: Seq<char>,
    known: Seq<Seq<char>>,
)
    requires
        keys_known(tables.0, known, true),
        keys_known(tables.1, known, false),
    ensures
        keys_known(endpoint_split(tables, names, applet, known).0, known, true),
        keys_known(endpoint_split(tables, names, applet, known).1, known, false),
    decreases names.len(),
{
    if names.len() > 0 {
        lemma_split_keys(tables, names.drop_last(), applet, known);
        let (used, missing) = endpoint_split(tables, names.drop_last(), applet, known);
        let n = names.last();
        let inside = known.contains(n);
        let t = if inside { used } else { missing };
        let list = match field_get(t, n) {
            Some(l) => l,
            None => Seq::<Seq<char>>::empty(),
        };
        let l2 = if list.contains(applet) { list } else { list.push(applet) };
        let p = |x: Seq<char>| known.contains(x) == inside;
        assert forall|i: int| 0 <= i < t.len() implies p(#[trigger] t[i].0) by {}
        crate::json::lemma_put_keys(t, n, l2, p);
    }
}

/// Every endpoint the first table lists is one there is, and every name the second lists is one there is not:
/// an applet naming an endpoint nobody has is reported, never counted as a user of one.
pub proof fn endpoints_land_in_the_right_table(applets: Seq<(Seq<char>, Seq<Seq<char>>)>, known: Seq<Seq<char>>)
    ensures
        keys_known(endpoint_tables(applets, known).0, known, true),
        keys_known(endpoint_tables(applets, known).1, known, false),
    decreases applets.len(),
{
    if applets.len() > 0 {
        endpoints_land_in_the_right_table(applets.drop_last(), known);
        lemma_split_keys(endpoint_tables(applets.drop_last(), known), applets.last().1, applets.last().0, known);
    }
}

/// Whether every list of a table names each reader once.
pub open spec fn readers_once(t: Seq<(Seq<char>, Seq<Seq<char>>)>) -> bool {
    forall|i: int| 0 <= i < t.len() ==> (#[trigger] t[i]).1.no_duplicates()
}

proof fn lemma_with_user_once(uses: Seq<(Seq<char>, Seq<Seq<char>>)>, name: Seq<char>, applet: Seq<char>)
    requires
        readers_once(uses),
    ensures
        readers_once(with_user(uses, name, applet)),
{
    let list = match field_get(uses, name) {
        Some(l) => l,
        None => Seq::<Seq<char>>::empty(),
    };
    crate::json::lemma_field_get_index(uses, name);
    let l2 = if list.contains(applet) { list } else { list.push(applet) };
    assert(l2.no_duplicates()) by {
        if !list.contains(applet) {
            assert forall|a: int, b: int| 0 <= a < b < l2.len() implies l2[a] != l2[b] by {
                if b == l2.len() - 1 {
                    assert(l2[b] == applet);
                    assert(l2[a] == list[a]);
                }
            }
        }
    }
    let p = |e: (Seq<char>, Seq<Seq<char>>)| e.1.no_duplicates();
    assert forall|i: int| 0 <= i < uses.len() implies p(#[trigger] uses[i]) by {}
    crate::json::lemma_put_entries(uses, name, l2, p);
}

proof fn lemma_with_users_once(uses: Seq<(Seq<char>, Seq<Seq<char>>)>, names: Seq<Seq<char>>, applet: Seq<char>)
    requires
        readers_once(uses),
    ensures
        readers_once(with_users(uses, names, applet)),
    decreases names.len(),
{
    if names.len() > 0 {
        lemma_with_users_once(uses, names.drop_last(), applet);
        lemma_with_user_once(with_users(uses, names.drop_last(), applet), names.last(), applet);
    }
}

/// In who reads what, each applet is listed once under each name it reads, however often it asks for it.
pub proof fn each_reader_is_listed_once(applets: Seq<(Seq<char>, Seq<Seq<char>>)>)
    ensures
        readers_once(uses_of(applets)),
    decreases applets.len(),
{
    if applets.len() > 0 {
        each_reader_is_listed_once(applets.drop_last());
        lemma_with_users_once(uses_of(applets.drop_last()), applets.last().1, applets.last().0);
    }
}

} // verus!
