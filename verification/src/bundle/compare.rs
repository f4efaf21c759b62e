//! What importing a bundle would change about the applet already here: one line per difference, as (what, yours,
//! its). A name you already have is not silently replaced and not silently refused: you see what is different,
//! and then say.

use vstd::prelude::*;
use crate::bundle::{names_in, opt_ref, shown, show, names, widget_count, widget_total, walks_to, enabled_of, Bundle, BundleV, pad_walks_to};
use crate::json::{field_get, field_keys, fields_view, jget, jget_array, jget_object, json_eq, lemma_fields_view, Json, JsonV};
use crate::text::{contains_text, decimal, decimal_text, join2, join3, owned, texts, texts_in_order, sort_texts};
use crate::macros::graph::{joined, join_all};

verus! {

/// A line as the contracts read it: what differs, yours, and its.
pub open spec fn line_view(l: (String, String, String)) -> (Seq<char>, Seq<char>, Seq<char>) {
    (l.0@, l.1@, l.2@)
}

/// Lines as the contracts read them.
pub open spec fn lines_view(s: Seq<(String, String, String)>) -> Seq<(Seq<char>, Seq<char>, Seq<char>)> {
    s.map_values(|l: (String, String, String)| line_view(l))
}

/// A field as it is shown, or `not set`.
pub open spec fn shown_or_unset(v: Option<JsonV>) -> Seq<char> {
    match v {
        Some(x) => shown(x),
        None => "not set"@,
    }
}

/// The fields compared one by one.
pub open spec fn compared_keys() -> Seq<Seq<char>> {
    seq!["title"@, "interval"@, "theme"@, "font"@, "border"@]
}

/// A line for each of these keys the two applets show differently.
pub open spec fn key_lines(mine: JsonV, theirs: JsonV, keys: Seq<Seq<char>>) -> Seq<(Seq<char>, Seq<char>, Seq<char>)>
    decreases keys.len(),
{
    if keys.len() == 0 {
        Seq::empty()
    } else {
        let before = key_lines(mine, theirs, keys.drop_last());
        let k = keys.last();
        let a = shown_or_unset(jget(mine, k));
        let b = shown_or_unset(jget(theirs, k));
        if a != b {
            before.push((k, a, b))
        } else {
            before
        }
    }
}

/// A count held to what `usize` holds.
pub open spec fn capped(n: int) -> int {
    if n <= usize::MAX { n } else { usize::MAX as int }
}

/// A line for a count that differs.
pub open spec fn count_line(what: Seq<char>, a: int, b: int) -> Seq<(Seq<char>, Seq<char>, Seq<char>)> {
    if a != b {
        seq![(what, decimal(a as nat), decimal(b as nat))]
    } else {
        Seq::empty()
    }
}

/// How many screens an applet has.
pub open spec fn screen_count(v: JsonV) -> int {
    match jget_array(v, "screens"@) {
        Some(s) => s.len() as int,
        None => 0,
    }
}

/// The sources it would add (`+name`) or change (`~name`), in its order.
pub open spec fn theirs_marks(
    mine: Option<Seq<(Seq<char>, JsonV)>>,
    theirs: Seq<(Seq<char>, JsonV)>,
) -> Seq<Seq<char>>
    decreases theirs.len(),
{
    if theirs.len() == 0 {
        Seq::empty()
    } else {
        let before = theirs_marks(mine, theirs.drop_last());
        let name = theirs.last().0;
        let spec = theirs.last().1;
        match (match mine {
            Some(m) => field_get(m, name),
            None => None,
        }) {
            None => before.push("+"@ + name),
            Some(have) => if have != spec {
                before.push("~"@ + name)
            } else {
                before
            },
        }
    }
}

/// The sources it would take away (`-name`), in your order, when it has sources at all.
pub open spec fn gone_marks(mine: Seq<(Seq<char>, JsonV)>, theirs: Option<Seq<(Seq<char>, JsonV)>>) -> Seq<
    Seq<char>,
>
    decreases mine.len(),
{
    if mine.len() == 0 {
        Seq::empty()
    } else {
        let before = gone_marks(mine.drop_last(), theirs);
        match theirs {
            Some(t) => if field_get(t, mine.last().0) is None {
                before.push("-"@ + mine.last().0)
            } else {
                before
            },
            None => before,
        }
    }
}

/// Every mark about the sources, before they are sorted.
pub open spec fn source_marks(mine: JsonV, theirs: JsonV) -> Seq<Seq<char>> {
    let m = jget_object(mine, "sources"@);
    let t = jget_object(theirs, "sources"@);
    theirs_marks(m, match t {
        Some(f) => f,
        None => Seq::empty(),
    }) + gone_marks(match m {
        Some(f) => f,
        None => Seq::empty(),
    }, t)
}

/// `sorted` is these marks, in order.
pub open spec fn sorted_marks(sorted: Seq<Seq<char>>, marks: Seq<Seq<char>>) -> bool {
    texts_in_order(sorted) && sorted.to_multiset() == marks.to_multiset()
}

/// The lines about the applet itself, given its marks about sources in order.
pub open spec fn applet_lines(mine: Option<JsonV>, theirs: JsonV, sorted: Seq<Seq<char>>) -> Seq<
    (Seq<char>, Seq<char>, Seq<char>),
> {
    match mine {
        None => seq![("applet"@, "you do not have one called this"@, "new"@)],
        Some(m) => {
            let marks = source_marks(m, theirs);
            let yours = match jget_object(m, "sources"@) {
                Some(f) => f.len() as int,
                None => 0,
            };
            key_lines(m, theirs, compared_keys()) + count_line(
                "widgets"@,
                capped(widget_total(m)),
                capped(widget_total(theirs)),
            ) + count_line("screens"@, screen_count(m), screen_count(theirs)) + if marks.len() > 0 {
                seq![("sources"@, decimal(yours as nat) + " in yours"@, joined(sorted, " "@))]
            } else {
                Seq::empty()
            }
        },
    }
}

/// A value under a name of an optional object.
pub open spec fn opt_get(o: Option<JsonV>, name: Seq<char>) -> Option<JsonV> {
    match o {
        Some(v) => jget(v, name),
        None => None,
    }
}

/// How many of its pictures you do not have.
pub open spec fn pictures_added(names: Seq<Seq<char>>, have: Option<JsonV>) -> int
    decreases names.len(),
{
    if names.len() == 0 {
        0
    } else {
        pictures_added(names.drop_last(), have) + if opt_get(have, names.last()) is None { 1int } else { 0int }
    }
}

/// How many of its pictures you have in another shape.
pub open spec fn pictures_changed(names: Seq<Seq<char>>, have: Option<JsonV>, theirs: Option<JsonV>) -> int
    decreases names.len(),
{
    if names.len() == 0 {
        0
    } else {
        pictures_changed(names.drop_last(), have, theirs) + match opt_get(have, names.last()) {
            Some(p) => if Some(p) != opt_get(theirs, names.last()) { 1int } else { 0int },
            None => 0int,
        }
    }
}

/// How many of your pictures it does not have.
pub open spec fn pictures_gone(mine: Seq<Seq<char>>, theirs: Seq<Seq<char>>) -> int
    decreases mine.len(),
{
    if mine.len() == 0 {
        0
    } else {
        pictures_gone(mine.drop_last(), theirs) + if !theirs.contains(mine.last()) { 1int } else { 0int }
    }
}

/// The line about the pictures, when any would be added, changed or taken away.
pub open spec fn picture_lines(theirs: Option<JsonV>, have: Option<JsonV>) -> Seq<(Seq<char>, Seq<char>, Seq<char>)> {
    let tn = names_in(theirs);
    let hn = names_in(have);
    let a = pictures_added(tn, have);
    let c = pictures_changed(tn, have, theirs);
    let g = pictures_gone(hn, tn);
    if a + c + g > 0 {
        seq![(
            "pictures"@,
            decimal(hn.len()) + " in yours"@,
            "+"@ + decimal(a as nat) + " ~"@ + decimal(c as nat) + " -"@ + decimal(g as nat),
        )]
    } else {
        Seq::empty()
    }
}

/// A line for each of these names that is not here.
pub open spec fn missing_lines(names: Seq<Seq<char>>, here: Seq<Seq<char>>, what: Seq<char>, after: Seq<char>) -> Seq<
    (Seq<char>, Seq<char>, Seq<char>),
>
    decreases names.len(),
{
    if names.len() == 0 {
        Seq::empty()
    } else {
        let before = missing_lines(names.drop_last(), here, what, after);
        if here.contains(names.last()) {
            before
        } else {
            before.push((what, "not here"@, names.last() + after))
        }
    }
}

/// `yes` or `no`.
pub open spec fn yes_no(b: bool) -> Seq<char> {
    if b { "yes"@ } else { "no"@ }
}

/// Everything importing a bundle would change, in the order the window lists it: the applet itself, its
/// pictures, the fonts, theme, endpoints and values of yours it would bring because they are not here, and
/// whether the pad walks to it, when you do not have it or it says otherwise.
pub open spec fn compare_lines(
    mine: Option<JsonV>,
    b: BundleV,
    have_pictures: Option<JsonV>,
    fonts_here: Seq<Seq<char>>,
    theme_here: bool,
    endpoints_here: Seq<Seq<char>>,
    own: Option<JsonV>,
    visuals: Option<JsonV>,
    sorted: Seq<Seq<char>>,
) -> Seq<(Seq<char>, Seq<char>, Seq<char>)> {
    let walks = walks_to(enabled_of(visuals), b.name);
    applet_lines(mine, b.applet, sorted) + picture_lines(b.pictures, have_pictures) + missing_lines(
        field_keys(b.fonts),
        fonts_here,
        "font"@,
        Seq::empty(),
    ) + match b.theme {
        Some(t) => if theme_here {
            Seq::empty()
        } else {
            seq![("theme"@, "not here"@, t.0)]
        },
        None => Seq::empty(),
    } + missing_lines(field_keys(b.endpoints), endpoints_here, "endpoint"@, " (its token slot travels empty)"@)
        + missing_lines(field_keys(b.values), names_in(own), "value of yours"@, Seq::empty()) + if mine is None
        || walks != b.on_the_pad {
        seq![("on the pad"@, yes_no(walks), yes_no(b.on_the_pad))]
    } else {
        Seq::empty()
    }
}

proof fn lemma_missing_lines_say_what(names: Seq<Seq<char>>, here: Seq<Seq<char>>, what: Seq<char>, after: Seq<char>)
    ensures
        forall|i: int|
            0 <= i < missing_lines(names, here, what, after).len() ==> (#[trigger] missing_lines(
                names,
                here,
                what,
                after,
            )[i]).0 == what,
    decreases names.len(),
{
    if names.len() > 0 {
        lemma_missing_lines_say_what(names.drop_last(), here, what, after);
        let before = missing_lines(names.drop_last(), here, what, after);
        let all = missing_lines(names, here, what, after);
        assert forall|i: int| 0 <= i < all.len() implies (#[trigger] all[i]).0 == what by {
            if i < before.len() {
                assert(all[i] == before[i]);
            }
        }
    }
}

proof fn lemma_key_lines_name_a_key(mine: JsonV, theirs: JsonV, keys: Seq<Seq<char>>)
    ensures
        forall|i: int|
            0 <= i < key_lines(mine, theirs, keys).len() ==> keys.contains(
                (#[trigger] key_lines(mine, theirs, keys)[i]).0,
            ),
    decreases keys.len(),
{
    if keys.len() > 0 {
        let init = keys.drop_last();
        lemma_key_lines_name_a_key(mine, theirs, init);
        let before = key_lines(mine, theirs, init);
        let all = key_lines(mine, theirs, keys);
        assert forall|i: int| 0 <= i < all.len() implies keys.contains((#[trigger] all[i]).0) by {
            if i < before.len() {
                assert(all[i] == before[i]);
                let j = choose|j: int| 0 <= j < init.len() && init[j] == before[i].0;
                assert(keys[j] == init[j]);
            } else {
                assert(all[i].0 == keys[keys.len() - 1]);
            }
        }
    }
}

/// The line saying whether the pad walks to the applet is there exactly when that would change: always for an
/// applet you do not have, and for one you have when the pad here and the bundle disagree. It is the last line,
/// and says whether the pad here walks to it, then whether the bundle does.
pub proof fn the_pad_line_is_there_exactly_when_it_would_change(
    mine: Option<JsonV>,
    b: BundleV,
    have_pictures: Option<JsonV>,
    fonts_here: Seq<Seq<char>>,
    theme_here: bool,
    endpoints_here: Seq<Seq<char>>,
    own: Option<JsonV>,
    visuals: Option<JsonV>,
    sorted: Seq<Seq<char>>,
)
    ensures
        ({
            let l = compare_lines(mine, b, have_pictures, fonts_here, theme_here, endpoints_here, own, visuals, sorted);
            let walks = walks_to(enabled_of(visuals), b.name);
            &&& (exists|i: int| 0 <= i < l.len() && (#[trigger] l[i]).0 == "on the pad"@) <==> (mine is None || walks
                != b.on_the_pad)
            &&& (mine is None || walks != b.on_the_pad) ==> l.len() > 0 && l[l.len() - 1] == (
                "on the pad"@,
                yes_no(walks),
                yes_no(b.on_the_pad),
            )
        }),
{
    reveal_strlit("on the pad");
    reveal_strlit("applet");
    reveal_strlit("pictures");
    reveal_strlit("font");
    reveal_strlit("theme");
    reveal_strlit("endpoint");
    reveal_strlit("value of yours");
    reveal_strlit("widgets");
    reveal_strlit("screens");
    reveal_strlit("sources");
    reveal_strlit("title");
    reveal_strlit("interval");
    reveal_strlit("border");
    let pad = "on the pad"@;
    assert(pad.len() == 10);
    let walks = walks_to(enabled_of(visuals), b.name);
    let a = applet_lines(mine, b.applet, sorted);
    let p = picture_lines(b.pictures, have_pictures);
    let f = missing_lines(field_keys(b.fonts), fonts_here, "font"@, Seq::empty());
    let t = match b.theme {
        Some(t) => if theme_here {
            Seq::empty()
        } else {
            seq![("theme"@, "not here"@, t.0)]
        },
        None => Seq::empty(),
    };
    let e = missing_lines(field_keys(b.endpoints), endpoints_here, "endpoint"@, " (its token slot travels empty)"@);
    let v = missing_lines(field_keys(b.values), names_in(own), "value of yours"@, Seq::empty());
    let tail = if mine is None || walks != b.on_the_pad {
        seq![(pad, yes_no(walks), yes_no(b.on_the_pad))]
    } else {
        Seq::empty()
    };
    let body = a + p + f + t + e + v;
    let l = compare_lines(mine, b, have_pictures, fonts_here, theme_here, endpoints_here, own, visuals, sorted);
    assert(l == body + tail);
    lemma_missing_lines_say_what(field_keys(b.fonts), fonts_here, "font"@, Seq::empty());
    lemma_missing_lines_say_what(
        field_keys(b.endpoints),
        endpoints_here,
        "endpoint"@,
        " (its token slot travels empty)"@,
    );
    lemma_missing_lines_say_what(field_keys(b.values), names_in(own), "value of yours"@, Seq::empty());
    match mine {
        Some(m) => {
            lemma_key_lines_name_a_key(m, b.applet, compared_keys());
        },
        None => {},
    }
    assert forall|i: int| 0 <= i < a.len() implies (#[trigger] a[i]).0.len() != 10 by {
        match mine {
            Some(m) => {
                let k = key_lines(m, b.applet, compared_keys());
                let w = count_line("widgets"@, capped(widget_total(m)), capped(widget_total(b.applet)));
                let sc = count_line("screens"@, screen_count(m), screen_count(b.applet));
                let marks = source_marks(m, b.applet);
                let yours = match crate::json::jget_object(m, "sources"@) {
                    Some(ff) => ff.len() as int,
                    None => 0,
                };
                let so: Seq<(Seq<char>, Seq<char>, Seq<char>)> = if marks.len() > 0 {
                    seq![("sources"@, decimal(yours as nat) + " in yours"@, crate::macros::graph::joined(sorted, " "@))]
                } else {
                    Seq::empty()
                };
                assert(a == k + w + sc + so);
                if i < k.len() {
                    assert(a[i] == k[i]);
                    assert(compared_keys().contains(k[i].0));
                    let j = choose|j: int| 0 <= j < compared_keys().len() && compared_keys()[j] == k[i].0;
                    assert(j == 0 || j == 1 || j == 2 || j == 3 || j == 4);
                } else if i < k.len() + w.len() {
                    assert(a[i] == w[i - k.len()]);
                } else if i < k.len() + w.len() + sc.len() {
                    assert(a[i] == sc[i - k.len() - w.len()]);
                } else {
                    assert(a[i] == so[i - k.len() - w.len() - sc.len()]);
                }
            },
            None => {},
        }
    }
    assert forall|i: int| 0 <= i < body.len() implies (#[trigger] body[i]).0 != pad by {
        let n1 = a.len() as int;
        let n2 = n1 + p.len();
        let n3 = n2 + f.len();
        let n4 = n3 + t.len();
        let n5 = n4 + e.len();
        if i < n1 {
            assert(body[i] == a[i]);
        } else if i < n2 {
            assert(body[i] == p[i - n1]);
        } else if i < n3 {
            assert(body[i] == f[i - n2]);
        } else if i < n4 {
            assert(body[i] == t[i - n3]);
        } else if i < n5 {
            assert(body[i] == e[i - n4]);
        } else {
            assert(body[i] == v[i - n5]);
        }
    }
    if mine is None || walks != b.on_the_pad {
        assert(l[l.len() - 1] == tail[0]);
        assert(l[l.len() - 1].0 == pad);
    } else {
        assert(l == body);
        assert forall|i: int| 0 <= i < l.len() implies (#[trigger] l[i]).0 != pad by {
            assert(l[i] == body[i]);
        }
    }
}

/// Comparing with an applet you do not have: the first line says it is new, the last says whether the pad walks
/// to it here and in the bundle, and every line between is about one of the parts it brings - never about its
/// title, interval, border, widgets, screens or sources, which there is nothing to compare with.
pub proof fn a_new_applet_is_compared_by_what_it_brings(
    b: BundleV,
    have_pictures: Option<JsonV>,
    fonts_here: Seq<Seq<char>>,
    theme_here: bool,
    endpoints_here: Seq<Seq<char>>,
    own: Option<JsonV>,
    visuals: Option<JsonV>,
    sorted: Seq<Seq<char>>,
)
    ensures
        ({
            let l = compare_lines(None, b, have_pictures, fonts_here, theme_here, endpoints_here, own, visuals, sorted);
            &&& l.len() >= 2
            &&& l[0] == ("applet"@, "you do not have one called this"@, "new"@)
            &&& l[l.len() - 1] == ("on the pad"@, yes_no(walks_to(enabled_of(visuals), b.name)), yes_no(
                b.on_the_pad,
            ))
            &&& forall|i: int|
                0 <= i < l.len() ==> {
                    let what = (#[trigger] l[i]).0;
                    ||| what == "applet"@
                    ||| what == "pictures"@
                    ||| what == "font"@
                    ||| what == "theme"@
                    ||| what == "endpoint"@
                    ||| what == "value of yours"@
                    ||| what == "on the pad"@
                }
        }),
{
    let walks = walks_to(enabled_of(visuals), b.name);
    let a = applet_lines(None, b.applet, sorted);
    let p = picture_lines(b.pictures, have_pictures);
    let f = missing_lines(field_keys(b.fonts), fonts_here, "font"@, Seq::empty());
    let t = match b.theme {
        Some(t) => if theme_here {
            Seq::empty()
        } else {
            seq![("theme"@, "not here"@, t.0)]
        },
        None => Seq::empty(),
    };
    let e = missing_lines(field_keys(b.endpoints), endpoints_here, "endpoint"@, " (its token slot travels empty)"@);
    let v = missing_lines(field_keys(b.values), names_in(own), "value of yours"@, Seq::empty());
    let last = seq![("on the pad"@, yes_no(walks), yes_no(b.on_the_pad))];
    lemma_missing_lines_say_what(field_keys(b.fonts), fonts_here, "font"@, Seq::empty());
    lemma_missing_lines_say_what(
        field_keys(b.endpoints),
        endpoints_here,
        "endpoint"@,
        " (its token slot travels empty)"@,
    );
    lemma_missing_lines_say_what(field_keys(b.values), names_in(own), "value of yours"@, Seq::empty());
    let l = compare_lines(None, b, have_pictures, fonts_here, theme_here, endpoints_here, own, visuals, sorted);
    assert(l == a + p + f + t + e + v + last);
    assert(l.len() >= 2);
    assert(l[0] == a[0]);
    assert(l[l.len() - 1] == last[0]);
    assert forall|i: int| 0 <= i < l.len() implies {
        let what = (#[trigger] l[i]).0;
        ||| what == "applet"@
        ||| what == "pictures"@
        ||| what == "font"@
        ||| what == "theme"@
        ||| what == "endpoint"@
        ||| what == "value of yours"@
        ||| what == "on the pad"@
    } by {
        let n1 = a.len() as int;
        let n2 = n1 + p.len();
        let n3 = n2 + f.len();
        let n4 = n3 + t.len();
        let n5 = n4 + e.len();
        let n6 = n5 + v.len();
        if i < n1 {
            assert(l[i] == a[i]);
        } else if i < n2 {
            assert(l[i] == p[i - n1]);
        } else if i < n3 {
            assert(l[i] == f[i - n2]);
        } else if i < n4 {
            assert(l[i] == t[i - n3]);
        } else if i < n5 {
            assert(l[i] == e[i - n4]);
        } else if i < n6 {
            assert(l[i] == v[i - n5]);
        } else {
            assert(l[i] == last[i - n6]);
        }
    }
}

fn line(a: String, b: String, c: String) -> (r: (String, String, String))
    ensures
        line_view(r) == (a@, b@, c@),
{
    (a, b, c)
}

/// A line for each of these keys the two applets show differently.
fn key_lines_of(mine: &Json, theirs: &Json, out: &mut Vec<(String, String, String)>)
    ensures
        lines_view(final(out)@) == lines_view(old(out)@) + key_lines(mine@, theirs@, compared_keys()),
{
    let mut keys: Vec<&'static str> = Vec::new();
    keys.push("title");
    keys.push("interval");
    keys.push("theme");
    keys.push("font");
    keys.push("border");
    let ghost ks = keys@.map_values(|k: &'static str| k@);
    assert(ks =~= compared_keys());
    let ghost start = lines_view(out@);
    let mut i: usize = 0;
    while i < keys.len()
        invariant
            ks == keys@.map_values(|k: &'static str| k@),
            i <= keys.len(),
            lines_view(out@) == start + key_lines(mine@, theirs@, ks.subrange(0, i as int)),
        decreases keys.len() - i,
    {
        proof {
            assert(ks.subrange(0, i + 1).drop_last() =~= ks.subrange(0, i as int));
            assert(ks[i as int] == keys@[i as int]@);
        }
        let a = match mine.get(keys[i]) {
            Some(v) => show(v),
            None => owned("not set"),
        };
        let b = match theirs.get(keys[i]) {
            Some(v) => show(v),
            None => owned("not set"),
        };
        if !crate::text::same_text(a.as_str(), b.as_str()) {
            let ghost before = lines_view(out@);
            out.push(line(owned(keys[i]), a, b));
            proof {
                assert(lines_view(out@) =~= before.push(line_view(out@[out@.len() - 1])));
            }
        }
        i += 1;
    }
    proof {
        assert(ks.subrange(0, keys@.len() as int) =~= ks);
    }
}

/// The marks about the sources, unsorted.
fn source_marks_of(mine: &Json, theirs: &Json) -> (r: Vec<String>)
    ensures
        texts(r@) == source_marks(mine@, theirs@),
{
    let mut said: Vec<String> = Vec::new();
    let m = match mine.get("sources") {
        Some(s) => s.as_object(),
        None => None,
    };
    let t = match theirs.get("sources") {
        Some(s) => s.as_object(),
        None => None,
    };
    let ghost mv = jget_object(mine@, "sources"@);
    let ghost tv = jget_object(theirs@, "sources"@);
    let ghost tf = match tv {
        Some(f) => f,
        None => Seq::<(Seq<char>, JsonV)>::empty(),
    };
    let ghost mf = match mv {
        Some(f) => f,
        None => Seq::<(Seq<char>, JsonV)>::empty(),
    };
    proof {
        assert(texts(said@) =~= Seq::<Seq<char>>::empty());
    }
    match t {
        Some(tfields) => {
            proof {
                lemma_fields_view(tfields@);
            }
            let mut i: usize = 0;
            while i < tfields.len()
                invariant
                    fields_view(tfields@) == tf,
                    mv == jget_object(mine@, "sources"@),
                    m matches Some(mfields) ==> mv == Some(fields_view(mfields@)),
                    m is None ==> mv is None,
                    i <= tfields.len(),
                    texts(said@) == theirs_marks(mv, tf.subrange(0, i as int)),
                decreases tfields.len() - i,
            {
                proof {
                    lemma_fields_view(tfields@);
                    assert(tf.subrange(0, i + 1).drop_last() =~= tf.subrange(0, i as int));
                    assert(tf[i as int] == (tfields@[i as int].0@, tfields@[i as int].1@));
                }
                let name = &tfields[i].0;
                let spec = &tfields[i].1;
                let have = match m {
                    Some(mfields) => crate::json::fields_get(mfields, name.as_str()),
                    None => None,
                };
                let ghost before = texts(said@);
                match have {
                    None => {
                        said.push(join2("+", name.as_str()));
                        proof {
                            assert(texts(said@) =~= before.push("+"@ + name@));
                        }
                    },
                    Some(h) => {
                        if !json_eq(h, spec) {
                            said.push(join2("~", name.as_str()));
                            proof {
                                assert(texts(said@) =~= before.push("~"@ + name@));
                            }
                        }
                    },
                }
                i += 1;
            }
            proof {
                assert(tf.subrange(0, tfields@.len() as int) =~= tf);
            }
        },
        None => {},
    }
    let ghost first = texts(said@);
    match m {
        Some(mfields) => {
            proof {
                lemma_fields_view(mfields@);
            }
            let mut j: usize = 0;
            while j < mfields.len()
                invariant
                    fields_view(mfields@) == mf,
                    tv == jget_object(theirs@, "sources"@),
                    t matches Some(tfields) ==> tv == Some(fields_view(tfields@)),
                    t is None ==> tv is None,
                    j <= mfields.len(),
                    texts(said@) == first + gone_marks(mf.subrange(0, j as int), tv),
                decreases mfields.len() - j,
            {
                proof {
                    lemma_fields_view(mfields@);
                    assert(mf.subrange(0, j + 1).drop_last() =~= mf.subrange(0, j as int));
                    assert(mf[j as int].0 == mfields@[j as int].0@);
                }
                let ghost before = texts(said@);
                match t {
                    Some(tfields) => {
                        if crate::json::fields_get(tfields, mfields[j].0.as_str()).is_none() {
                            said.push(join2("-", mfields[j].0.as_str()));
                            proof {
                                assert(texts(said@) =~= before.push("-"@ + mfields@[j as int].0@));
                            }
                        }
                    },
                    None => {},
                }
                j += 1;
            }
            proof {
                assert(mf.subrange(0, mfields@.len() as int) =~= mf);
            }
        },
        None => {
            proof {
                assert(gone_marks(mf, tv) =~= Seq::<Seq<char>>::empty());
                assert(first + gone_marks(mf, tv) =~= first);
            }
        },
    }
    said
}

fn screens_of(v: &Json) -> (r: usize)
    ensures
        r == screen_count(v@),
{
    match v.get("screens") {
        Some(s) => match s.as_array() {
            Some(a) => {
                proof {
                    crate::json::lemma_items_view(a@);
                }
                a.len()
            },
            None => 0,
        },
        None => 0,
    }
}

fn count_line_of(what: &str, a: usize, b: usize, out: &mut Vec<(String, String, String)>)
    ensures
        lines_view(final(out)@) == lines_view(old(out)@) + count_line(what@, a as int, b as int),
{
    let ghost before = lines_view(out@);
    if a != b {
        out.push(line(owned(what), decimal_text(a as u64), decimal_text(b as u64)));
        proof {
            assert(lines_view(out@) =~= before + count_line(what@, a as int, b as int));
        }
    } else {
        proof {
            assert(before + count_line(what@, a as int, b as int) =~= before);
        }
    }
}

/// The lines about the applet itself.
fn applet_lines_of(mine: Option<&Json>, theirs: &Json, out: &mut Vec<(String, String, String)>) -> (sorted: Ghost<
    Seq<Seq<char>>,
>)
    ensures
        mine matches Some(m) ==> sorted_marks(sorted@, source_marks(m@, theirs@)),
        lines_view(final(out)@) == lines_view(old(out)@) + applet_lines(opt_ref(mine), theirs@, sorted@),
{
    let ghost start = lines_view(out@);
    match mine {
        None => {
            out.push(line(owned("applet"), owned("you do not have one called this"), owned("new")));
            proof {
                assert(lines_view(out@) =~= start + applet_lines(opt_ref(mine), theirs@, Seq::empty()));
            }
            Ghost(Seq::empty())
        },
        Some(m) => {
            key_lines_of(m, theirs, out);
            count_line_of("widgets", widget_count(m), widget_count(theirs), out);
            count_line_of("screens", screens_of(m), screens_of(theirs), out);
            let said = source_marks_of(m, theirs);
            let n = said.len();
            let sorted = sort_texts(said);
            let ghost sv = texts(sorted@);
            let ghost before = lines_view(out@);
            if n > 0 {
                let yours: usize = match m.get("sources") {
                    Some(s) => match s.as_object() {
                        Some(f) => {
                            proof {
                                lemma_fields_view(f@);
                            }
                            f.len()
                        },
                        None => 0,
                    },
                    None => 0,
                };
                let count = decimal_text(yours as u64);
                let joined_marks = join_all(&sorted, " ");
                out.push(line(owned("sources"), join2(count.as_str(), " in yours"), joined_marks));
                proof {
                    assert(lines_view(out@) =~= before.push(line_view(out@[out@.len() - 1])));
                }
            }
            proof {
                let marks = source_marks(m@, theirs@);
                if n == 0 {
                    assert(marks.len() == 0);
                }
                let tail = if marks.len() > 0 {
                    seq![(
                        "sources"@,
                        decimal(
                            (match jget_object(m@, "sources"@) {
                                Some(f) => f.len() as int,
                                None => 0,
                            }) as nat,
                        ) + " in yours"@,
                        joined(sv, " "@),
                    )]
                } else {
                    Seq::empty()
                };
                assert(lines_view(out@) =~= before + tail);
            }
            Ghost(sv)
        },
    }
}

/// A value under a name of an optional object.
fn get_in<'a>(o: Option<&'a Json>, name: &str) -> (r: Option<&'a Json>)
    ensures
        r matches Some(v) ==> opt_get(opt_ref(o), name@) == Some(v@),
        r is None ==> opt_get(opt_ref(o), name@) is None,
{
    match o {
        Some(v) => v.get(name),
        None => None,
    }
}

/// The line about the pictures.
fn picture_lines_of(theirs: Option<&Json>, have: Option<&Json>, out: &mut Vec<(String, String, String)>)
    ensures
        lines_view(final(out)@) == lines_view(old(out)@) + picture_lines(opt_ref(theirs), opt_ref(have)),
{
    let tn = names(theirs);
    let hn = names(have);
    let ghost tv = texts(tn@);
    let ghost hv = texts(hn@);
    let mut added: usize = 0;
    let mut changed: usize = 0;
    let mut i: usize = 0;
    while i < tn.len()
        invariant
            tv == texts(tn@),
            i <= tn.len(),
            added == pictures_added(tv.subrange(0, i as int), opt_ref(have)),
            changed == pictures_changed(tv.subrange(0, i as int), opt_ref(have), opt_ref(theirs)),
            added + changed <= 2 * i,
        decreases tn.len() - i,
    {
        proof {
            let t = tv.subrange(0, i + 1);
            assert(t.drop_last() =~= tv.subrange(0, i as int));
            assert(t.last() == tn@[i as int]@);
            lemma_counts_nonneg(tv.subrange(0, i as int), opt_ref(have), opt_ref(theirs));
        }
        match get_in(have, tn[i].as_str()) {
            None => {
                added = added + 1;
            },
            Some(picture) => {
                let same = match get_in(theirs, tn[i].as_str()) {
                    Some(theirs_picture) => json_eq(picture, theirs_picture),
                    None => false,
                };
                if !same {
                    changed = changed + 1;
                }
            },
        }
        i += 1;
    }
    proof {
        assert(tv.subrange(0, tn@.len() as int) =~= tv);
    }
    let mut gone: usize = 0;
    let mut j: usize = 0;
    while j < hn.len()
        invariant
            hv == texts(hn@),
            tv == texts(tn@),
            j <= hn.len(),
            gone == pictures_gone(hv.subrange(0, j as int), tv),
            gone <= j,
        decreases hn.len() - j,
    {
        proof {
            let t = hv.subrange(0, j + 1);
            assert(t.drop_last() =~= hv.subrange(0, j as int));
            assert(t.last() == hn@[j as int]@);
            lemma_gone_nonneg(hv.subrange(0, j as int), tv);
        }
        let have_it = contains_text(&tn, hn[j].as_str());
        proof {
            if have_it {
                let k = choose|k: int| 0 <= k < tn@.len() && #[trigger] tn@[k]@ == hn@[j as int]@;
                assert(tv[k] == hn@[j as int]@);
            }
            if tv.contains(hn@[j as int]@) {
                let k = choose|k: int| 0 <= k < tv.len() && tv[k] == hn@[j as int]@;
                assert(tn@[k]@ == hn@[j as int]@);
            }
        }
        if !have_it {
            gone = gone + 1;
        }
        j += 1;
    }
    proof {
        assert(hv.subrange(0, hn@.len() as int) =~= hv);
    }
    let ghost before = lines_view(out@);
    if added > 0 || changed > 0 || gone > 0 {
        let count = decimal_text(hn.len() as u64);
        let a = decimal_text(added as u64);
        let c = decimal_text(changed as u64);
        let g = decimal_text(gone as u64);
        let head = join3("+", a.as_str(), " ~");
        let mid = join3(head.as_str(), c.as_str(), " -");
        out.push(line(owned("pictures"), join2(count.as_str(), " in yours"), join2(mid.as_str(), g.as_str())));
        proof {
            assert(lines_view(out@) =~= before + picture_lines(opt_ref(theirs), opt_ref(have)));
        }
    } else {
        proof {
            lemma_counts_nonneg(tv, opt_ref(have), opt_ref(theirs));
            lemma_gone_nonneg(hv, tv);
            assert(before + picture_lines(opt_ref(theirs), opt_ref(have)) =~= before);
        }
    }
}

proof fn lemma_counts_nonneg(names: Seq<Seq<char>>, have: Option<JsonV>, theirs: Option<JsonV>)
    ensures
        0 <= pictures_added(names, have) <= names.len(),
        0 <= pictures_changed(names, have, theirs) <= names.len(),
        pictures_added(names, have) + pictures_changed(names, have, theirs) <= names.len(),
    decreases names.len(),
{
    if names.len() > 0 {
        lemma_counts_nonneg(names.drop_last(), have, theirs);
    }
}

proof fn lemma_gone_nonneg(mine: Seq<Seq<char>>, theirs: Seq<Seq<char>>)
    ensures
        0 <= pictures_gone(mine, theirs) <= mine.len(),
    decreases mine.len(),
{
    if mine.len() > 0 {
        lemma_gone_nonneg(mine.drop_last(), theirs);
    }
}

/// A line for each key of these fields that is not among the names here.
fn missing_lines_of(
    fields: &Vec<(String, Json)>,
    here: &Vec<String>,
    what: &str,
    after: &str,
    out: &mut Vec<(String, String, String)>,
)
    ensures
        lines_view(final(out)@) == lines_view(old(out)@) + missing_lines(
            field_keys(fields_view(fields@)),
            texts(here@),
            what@,
            after@,
        ),
{
    let ghost keys = field_keys(fields_view(fields@));
    let ghost start = lines_view(out@);
    proof {
        lemma_fields_view(fields@);
    }
    let mut i: usize = 0;
    while i < fields.len()
        invariant
            keys == field_keys(fields_view(fields@)),
            keys.len() == fields@.len(),
            forall|k: int| 0 <= k < fields@.len() ==> #[trigger] keys[k] == fields@[k].0@,
            i <= fields.len(),
            lines_view(out@) == start + missing_lines(keys.subrange(0, i as int), texts(here@), what@, after@),
        decreases fields.len() - i,
    {
        proof {
            let t = keys.subrange(0, i + 1);
            assert(t.drop_last() =~= keys.subrange(0, i as int));
            assert(t.last() == fields@[i as int].0@);
        }
        let found = contains_text(here, fields[i].0.as_str());
        proof {
            let h = texts(here@);
            if found {
                let k = choose|k: int| 0 <= k < here@.len() && #[trigger] here@[k]@ == fields@[i as int].0@;
                assert(h[k] == fields@[i as int].0@);
            }
            if h.contains(fields@[i as int].0@) {
                let k = choose|k: int| 0 <= k < h.len() && h[k] == fields@[i as int].0@;
                assert(here@[k]@ == fields@[i as int].0@);
            }
        }
        if !found {
            let ghost before = lines_view(out@);
            out.push(line(owned(what), owned("not here"), join2(fields[i].0.as_str(), after)));
            proof {
                assert(lines_view(out@) =~= before.push(line_view(out@[out@.len() - 1])));
            }
        }
        i += 1;
    }
    proof {
        assert(keys.subrange(0, fields@.len() as int) =~= keys);
    }
}

fn yes_no_text(b: bool) -> (r: String)
    ensures
        r@ == yes_no(b),
{
    if b { owned("yes") } else { owned("no") }
}

/// What importing this bundle would change about the applet you already have: one line per difference, as
/// (what, yours, its).
///
/// `mine` is the applet of the bundle's name here, when there is one; `have_pictures` its pictures; `fonts_here`
/// the bundle's fonts that are here already; `theme_here` whether its theme is; `endpoints_here` the endpoints this
/// machine has; `own` this machine's values of the user's own; `visuals` the list of what the pad walks. The
/// marks about sources are listed in order.
pub fn compare(
    mine: Option<&Json>,
    bundle: &Bundle,
    have_pictures: Option<&Json>,
    fonts_here: &Vec<String>,
    theme_here: bool,
    endpoints_here: &Vec<String>,
    own: Option<&Json>,
    visuals: Option<&Json>,
) -> (r: Vec<(String, String, String)>)
    ensures
        exists|sorted: Seq<Seq<char>>|
            (mine matches Some(m) ==> sorted_marks(sorted, source_marks(m@, bundle@.applet))) && lines_view(r@)
                == compare_lines(
                opt_ref(mine),
                bundle@,
                opt_ref(have_pictures),
                texts(fonts_here@),
                theme_here,
                texts(endpoints_here@),
                opt_ref(own),
                opt_ref(visuals),
                sorted,
            ),
{
    let mut out: Vec<(String, String, String)> = Vec::new();
    proof {
        assert(lines_view(out@) =~= Seq::<(Seq<char>, Seq<char>, Seq<char>)>::empty());
    }
    let sorted = applet_lines_of(mine, &bundle.applet, &mut out);
    proof {
        let a = applet_lines(opt_ref(mine), bundle.applet@, sorted@);
        assert(Seq::<(Seq<char>, Seq<char>, Seq<char>)>::empty() + a =~= a);
    }
    let ghost after_applet = lines_view(out@);
    let pics = match &bundle.pictures {
        Some(p) => Some(p),
        None => None,
    };
    picture_lines_of(pics, have_pictures, &mut out);
    let ghost after_pictures = lines_view(out@);
    missing_lines_of(&bundle.fonts, fonts_here, "font", "", &mut out);
    proof {
        reveal_strlit("");
        assert(""@ =~= Seq::<char>::empty());
    }
    let ghost before_theme = lines_view(out@);
    match &bundle.theme {
        Some((theme, _)) => {
            if !theme_here {
                out.push(line(owned("theme"), owned("not here"), owned(theme.as_str())));
            }
        },
        None => {},
    }
    proof {
        let tail = match bundle@.theme {
            Some(t) => if theme_here {
                Seq::empty()
            } else {
                seq![("theme"@, "not here"@, t.0)]
            },
            None => Seq::empty(),
        };
        assert(lines_view(out@) =~= before_theme + tail);
    }
    missing_lines_of(&bundle.endpoints, endpoints_here, "endpoint", " (its token slot travels empty)", &mut out);
    let own_keys = names(own);
    missing_lines_of(&bundle.values, &own_keys, "value of yours", "", &mut out);
    let walks = pad_walks_to(visuals, bundle.name.as_str());
    let ghost before_pad = lines_view(out@);
    if mine.is_none() || walks != bundle.on_the_pad {
        out.push(line(owned("on the pad"), yes_no_text(walks), yes_no_text(bundle.on_the_pad)));
    }
    proof {
        let tail = if opt_ref(mine) is None || walks != bundle@.on_the_pad {
            seq![("on the pad"@, yes_no(walks), yes_no(bundle@.on_the_pad))]
        } else {
            Seq::empty()
        };
        assert(lines_view(out@) =~= before_pad + tail);
        assert(bundle@.pictures == opt_ref(pics));
        let want = compare_lines(
            opt_ref(mine),
            bundle@,
            opt_ref(have_pictures),
            texts(fonts_here@),
            theme_here,
            texts(endpoints_here@),
            opt_ref(own),
            opt_ref(visuals),
            sorted@,
        );
        assert(lines_view(out@) =~= want);
    }
    out
}

} // verus!
