//! An applet, packed into one file so it can move to another machine.
//!
//! An applet is not one file: it can have pictures beside it, name a font and a theme, read through an endpoint,
//! read a value of the user's own, and be one of the screens the pad walks to. A bundle carries all of that at
//! once. Two things are deliberately left behind: an endpoint's token, which travels as an empty slot, and a
//! machine's own paths.
//!
//! Reading and writing the files is the caller's work; what is here decides what goes into a bundle, how a bundle
//! is written and read back, and what importing one would change.

pub mod compare;

use vstd::prelude::*;
use crate::json::{
    field_get, field_put, fields_view, jget, jget_array, jget_str, jget_object, jobject, jstr, Json,
    JsonV, compact_json, parsed_json, pretty_json, fields_put, parse_json, to_compact, to_pretty,
    lemma_fields_view,
};
use crate::text::{
    ascii_alphanumeric, contains_text, debug_quoted, decimal, decimal_text, is_ascii_alphanumeric, join2,
    join3, owned, quoted, same_text, starts_with, strip_prefix, text_before, texts,
};

verus! {

/// What a bundle says it is, so that importing one can refuse a file that is not one.
pub const KIND: &'static str = "g13-applet";

/// The shape of the contents. A bundle from a later version is refused rather than half read.
pub const VERSION: u64 = 1;

/// An applet and everything it needs, in one place.
#[derive(Debug, PartialEq)]
pub struct Bundle {
    /// The applet's name, which is also the name of its files.
    pub name: String,
    /// The applet file, exactly as it was.
    pub applet: Json,
    /// `applets/<name>.bitmaps.json`, if it has one.
    pub pictures: Option<Json>,
    /// The fonts it names, by name, from `fonts/<name>.json`: each name once, in the order of the names.
    pub fonts: Vec<(String, Json)>,
    /// The theme it wears, if it names one: `themes/<name>.json`.
    pub theme: Option<(String, Json)>,
    /// The endpoints its resources use, with the token slot empty: each name once, in the order of the names.
    pub endpoints: Vec<(String, Json)>,
    /// The values of the user's own that its resources read: each name once, in the order of the names.
    pub values: Vec<(String, Json)>,
    /// Whether the pad walks to it.
    pub on_the_pad: bool,
}

/// What the contracts say a bundle is.
pub struct BundleV {
    pub name: Seq<char>,
    pub applet: JsonV,
    pub pictures: Option<JsonV>,
    pub fonts: Seq<(Seq<char>, JsonV)>,
    pub theme: Option<(Seq<char>, JsonV)>,
    pub endpoints: Seq<(Seq<char>, JsonV)>,
    pub values: Seq<(Seq<char>, JsonV)>,
    pub on_the_pad: bool,
}

/// An optional value's meaning.
pub open spec fn opt_json(o: Option<Json>) -> Option<JsonV> {
    match o {
        Some(j) => Some(j@),
        None => None,
    }
}

impl View for Bundle {
    type V = BundleV;

    open spec fn view(&self) -> BundleV {
        BundleV {
            name: self.name@,
            applet: self.applet@,
            pictures: opt_json(self.pictures),
            fonts: fields_view(self.fonts@),
            theme: match self.theme {
                Some(t) => Some((t.0@, t.1@)),
                None => None,
            },
            endpoints: fields_view(self.endpoints@),
            values: fields_view(self.values@),
            on_the_pad: self.on_the_pad,
        }
    }
}

/// Each name of a list of maybe-names, the first time it comes.
pub open spec fn unique_names(xs: Seq<Option<Seq<char>>>) -> Seq<Seq<char>>
    decreases xs.len(),
{
    if xs.len() == 0 {
        Seq::empty()
    } else {
        let before = unique_names(xs.drop_last());
        match xs.last() {
            Some(n) => if before.contains(n) {
                before
            } else {
                before.push(n)
            },
            None => before,
        }
    }
}

/// Put a name on the end of a list, unless the list has it.
fn add_new(found: &mut Vec<String>, name: &str)
    ensures
        texts(final(found)@) == (if texts(old(found)@).contains(name@) {
            texts(old(found)@)
        } else {
            texts(old(found)@).push(name@)
        }),
{
    let have = contains_text(found, name);
    proof {
        if texts(found@).contains(name@) {
            let k = choose|k: int| 0 <= k < texts(found@).len() && texts(found@)[k] == name@;
            assert(found@[k]@ == name@);
        }
        if have {
            let k = choose|k: int| 0 <= k < found@.len() && #[trigger] found@[k]@ == name@;
            assert(texts(found@)[k] == name@);
        }
    }
    if !have {
        let ghost before = texts(found@);
        found.push(owned(name));
        proof {
            assert(texts(found@) =~= before.push(name@));
        }
    }
}

/// Where a character first is.
pub open spec fn first_index(s: Seq<char>, c: char) -> Option<int>
    decreases s.len(),
{
    if s.len() == 0 {
        None
    } else if s[0] == c {
        Some(0)
    } else {
        match first_index(s.subrange(1, s.len() as int), c) {
            Some(i) => Some(i + 1),
            None => None,
        }
    }
}

proof fn lemma_first_index(s: Seq<char>, c: char)
    ensures
        first_index(s, c) matches Some(i) ==> 0 <= i < s.len() && s[i] == c && forall|k: int|
            0 <= k < i ==> s[k] != c,
        first_index(s, c) is None ==> forall|k: int| 0 <= k < s.len() ==> s[k] != c,
    decreases s.len(),
{
    if s.len() > 0 && s[0] != c {
        let rest = s.subrange(1, s.len() as int);
        lemma_first_index(rest, c);
        assert forall|k: int| 1 <= k < s.len() implies s[k] == rest[k - 1] by {}
    }
}

fn find_char(s: &str, c: char) -> (r: Option<usize>)
    ensures
        r matches Some(i) ==> first_index(s@, c) == Some(i as int) && i < s@.len(),
        r is None ==> first_index(s@, c) is None,
{
    let chars = crate::text::chars_of(s);
    let mut i: usize = 0;
    assert(s@.subrange(0, s@.len() as int) =~= s@);
    while i < chars.len()
        invariant
            chars@ == s@,
            i <= chars.len(),
            forall|k: int| 0 <= k < i ==> s@[k] != c,
            first_index(s@, c) == match first_index(s@.subrange(i as int, s@.len() as int), c) {
                Some(j) => Some(j + i),
                None => None,
            },
        decreases chars.len() - i,
    {
        proof {
            let rest = s@.subrange(i as int, s@.len() as int);
            assert(rest.subrange(1, rest.len() as int) =~= s@.subrange(i + 1, s@.len() as int));
        }
        if chars[i] == c {
            proof {
                lemma_first_index(s@, c);
            }
            return Some(i);
        }
        i += 1;
    }
    None
}

/// The endpoint a resource reads through: `http:weather/path#field` names `weather`; a resource that is not
/// `http:`, has no `/` after it, or names nothing before the `/`, names none.
pub open spec fn endpoint_of(spec: Seq<char>) -> Option<Seq<char>> {
    if starts_with(spec, "http:"@) {
        let rest = spec.subrange(5, spec.len() as int);
        match first_index(rest, '/') {
            Some(i) => if i > 0 {
                Some(rest.subrange(0, i))
            } else {
                None
            },
            None => None,
        }
    } else {
        None
    }
}

/// The resources an applet declares, by name.
pub open spec fn sources_of(applet: JsonV) -> Seq<(Seq<char>, JsonV)> {
    match jget_object(applet, "sources"@) {
        Some(f) => f,
        None => Seq::empty(),
    }
}

/// The names an applet's resources read through an endpoint, each once, in the order the resources come.
pub open spec fn endpoints_used_of(applet: JsonV) -> Seq<Seq<char>> {
    unique_names(
        sources_of(applet).map_values(
            |f: (Seq<char>, JsonV)|
                match jstr(f.1) {
                    Some(s) => endpoint_of(s),
                    None => None,
                },
        ),
    )
}

/// The resources of an applet as the file holds them.
fn sources_in(applet: &Json) -> (r: Option<&Vec<(String, Json)>>)
    ensures
        r matches Some(f) ==> fields_view(f@) == sources_of(applet@),
        r is None ==> sources_of(applet@).len() == 0,
{
    match applet.get("sources") {
        Some(s) => match s.as_object() {
            Some(f) => Some(f),
            None => None,
        },
        None => None,
    }
}

/// The names this applet's resources read through an endpoint: `http:weather/path#field` names `weather`.
pub fn endpoints_used(applet: &Json) -> (r: Vec<String>)
    ensures
        texts(r@) == endpoints_used_of(applet@),
{
    let mut found: Vec<String> = Vec::new();
    let ghost xs = sources_of(applet@).map_values(
        |f: (Seq<char>, JsonV)|
            match jstr(f.1) {
                Some(s) => endpoint_of(s),
                None => None,
            },
    );
    match sources_in(applet) {
        None => {
            proof {
                assert(xs =~= Seq::<Option<Seq<char>>>::empty());
                assert(texts(found@) =~= Seq::<Seq<char>>::empty());
            }
            found
        },
        Some(sources) => {
            proof {
                lemma_fields_view(sources@);
            }
            let mut i: usize = 0;
            while i < sources.len()
                invariant
                    fields_view(sources@) == sources_of(applet@),
                    xs.len() == sources@.len(),
                    forall|k: int| 0 <= k < sources@.len() ==> #[trigger] xs[k] == match jstr(sources@[k].1@) {
                        Some(s) => endpoint_of(s),
                        None => None,
                    },
                    i <= sources.len(),
                    texts(found@) == unique_names(xs.subrange(0, i as int)),
                decreases sources.len() - i,
            {
                proof {
                    assert(xs.subrange(0, i + 1).drop_last() =~= xs.subrange(0, i as int));
                }
                match sources[i].1.as_str() {
                    Some(spec) => {
                        proof {
                            reveal_strlit("http:");
                        }
                        match strip_prefix(spec.as_str(), "http:") {
                            Some(rest) => match find_char(rest.as_str(), '/') {
                                Some(at) => {
                                    if at > 0 {
                                        let name = rest.as_str().substring_char(0, at);
                                        add_new(&mut found, name);
                                    }
                                },
                                None => {},
                            },
                            None => {},
                        }
                    },
                    None => {},
                }
                i += 1;
            }
            proof {
                assert(xs.subrange(0, sources@.len() as int) =~= xs);
            }
            found
        },
    }
}

/// A resource that is a bare word: letters, digits and `_`, at least one. Such a word is either one of the
/// machine's own readings or a value the user has named.
pub open spec fn is_bare(spec: Seq<char>) -> bool {
    spec.len() > 0 && forall|i: int| 0 <= i < spec.len() ==> ascii_alphanumeric(#[trigger] spec[i]) || spec[i] == '_'
}

/// The bare words an applet's resources are, each once, in the order the resources come.
pub open spec fn bare_names_of(applet: JsonV) -> Seq<Seq<char>> {
    unique_names(
        sources_of(applet).map_values(
            |f: (Seq<char>, JsonV)|
                match jstr(f.1) {
                    Some(s) => if is_bare(s) {
                        Some(s)
                    } else {
                        None
                    },
                    None => None,
                },
        ),
    )
}

fn bare(spec: &str) -> (r: bool)
    ensures
        r == is_bare(spec@),
{
    let chars = crate::text::chars_of(spec);
    if chars.len() == 0 {
        return false;
    }
    let mut i: usize = 0;
    while i < chars.len()
        invariant
            chars@ == spec@,
            i <= chars.len(),
            forall|k: int| 0 <= k < i ==> ascii_alphanumeric(#[trigger] spec@[k]) || spec@[k] == '_',
        decreases chars.len() - i,
    {
        if !(is_ascii_alphanumeric(chars[i]) || chars[i] == '_') {
            return false;
        }
        i += 1;
    }
    true
}

/// The names this applet's resources read that are not a mechanism: a bare word is either one of the machine's
/// own or a value the user has named, and only the second one has anything to carry.
pub fn bare_names(applet: &Json) -> (r: Vec<String>)
    ensures
        texts(r@) == bare_names_of(applet@),
{
    let mut found: Vec<String> = Vec::new();
    let ghost xs = sources_of(applet@).map_values(
        |f: (Seq<char>, JsonV)|
            match jstr(f.1) {
                Some(s) => if is_bare(s) {
                    Some(s)
                } else {
                    None
                },
                None => None,
            },
    );
    match sources_in(applet) {
        None => {
            proof {
                assert(xs =~= Seq::<Option<Seq<char>>>::empty());
                assert(texts(found@) =~= Seq::<Seq<char>>::empty());
            }
            found
        },
        Some(sources) => {
            proof {
                lemma_fields_view(sources@);
            }
            let mut i: usize = 0;
            while i < sources.len()
                invariant
                    fields_view(sources@) == sources_of(applet@),
                    xs.len() == sources@.len(),
                    forall|k: int| 0 <= k < sources@.len() ==> #[trigger] xs[k] == match jstr(sources@[k].1@) {
                        Some(s) => if is_bare(s) {
                            Some(s)
                        } else {
                            None
                        },
                        None => None,
                    },
                    i <= sources.len(),
                    texts(found@) == unique_names(xs.subrange(0, i as int)),
                decreases sources.len() - i,
            {
                proof {
                    assert(xs.subrange(0, i + 1).drop_last() =~= xs.subrange(0, i as int));
                }
                match sources[i].1.as_str() {
                    Some(spec) => {
                        if bare(spec.as_str()) {
                            add_new(&mut found, spec.as_str());
                        }
                    },
                    None => {},
                }
                i += 1;
            }
            proof {
                assert(xs.subrange(0, sources@.len() as int) =~= xs);
            }
            found
        },
    }
}

/// The font names one key of an applet gives: a name, or the names in a list (what is not a name is passed
/// over), or none.
pub open spec fn font_part(v: Option<JsonV>) -> Seq<Option<Seq<char>>> {
    match v {
        Some(JsonV::Str(name)) => seq![Some(name)],
        Some(JsonV::Array(items)) => items.map_values(|item: JsonV| jstr(item)),
        _ => Seq::empty(),
    }
}

/// The fonts an applet names, each once: `"font": "runes"`, then `"fallbacks": ["greek", "cyrillic"]`.
pub open spec fn fonts_named_of(applet: JsonV) -> Seq<Seq<char>> {
    unique_names(font_part(jget(applet, "font"@)) + font_part(jget(applet, "fallbacks"@)))
}

proof fn lemma_unique_names_push(xs: Seq<Option<Seq<char>>>, x: Option<Seq<char>>)
    ensures
        unique_names(xs.push(x)) == match x {
            Some(n) => if unique_names(xs).contains(n) {
                unique_names(xs)
            } else {
                unique_names(xs).push(n)
            },
            None => unique_names(xs),
        },
{
    assert(xs.push(x).drop_last() =~= xs);
}

/// Add the font names one key gives.
fn add_font_part(found: &mut Vec<String>, v: Option<&Json>, Ghost(xs): Ghost<Seq<Option<Seq<char>>>>)
    requires
        texts(old(found)@) == unique_names(xs),
    ensures
        texts(final(found)@) == unique_names(xs + font_part(match v {
            Some(j) => Some(j@),
            None => None,
        })),
{
    let ghost part = font_part(match v {
        Some(j) => Some(j@),
        None => None,
    });
    match v {
        Some(Json::Str(name)) => {
            proof {
                lemma_unique_names_push(xs, Some(name@));
                assert(xs + part =~= xs.push(Some(name@)));
            }
            add_new(found, name.as_str());
        },
        Some(Json::Array(items)) => {
            proof {
                crate::json::lemma_items_view(items@);
            }
            let mut i: usize = 0;
            while i < items.len()
                invariant
                    part == (match v {
                        Some(j) => font_part(Some(j@)),
                        None => font_part(None),
                    }),
                    v == Some(&Json::Array(*items)),
                    i <= items.len(),
                    texts(found@) == unique_names(xs + part.subrange(0, i as int)),
                decreases items.len() - i,
            {
                proof {
                    crate::json::lemma_items_view(items@);
                    assert(part[i as int] == crate::json::jstr(items@[i as int]@));
                    lemma_unique_names_push(xs + part.subrange(0, i as int), part[i as int]);
                    assert((xs + part.subrange(0, i as int)).push(part[i as int]) =~= xs + part.subrange(0, i + 1));
                }
                match items[i].as_str() {
                    Some(name) => add_new(found, name.as_str()),
                    None => {},
                }
                i += 1;
            }
            proof {
                assert(part.subrange(0, items@.len() as int) =~= part);
            }
        },
        _ => {
            proof {
                assert(xs + part =~= xs);
            }
        },
    }
}

/// The fonts an applet names: `"font": "runes"`, and `"fallbacks": ["greek", "cyrillic"]`.
pub fn fonts_named(applet: &Json) -> (r: Vec<String>)
    ensures
        texts(r@) == fonts_named_of(applet@),
{
    let mut found: Vec<String> = Vec::new();
    proof {
        assert(texts(found@) =~= unique_names(Seq::<Option<Seq<char>>>::empty()));
    }
    let ghost first = font_part(jget(applet@, "font"@));
    add_font_part(&mut found, applet.get("font"), Ghost(Seq::empty()));
    proof {
        assert(Seq::<Option<Seq<char>>>::empty() + first =~= first);
    }
    add_font_part(&mut found, applet.get("fallbacks"), Ghost(first));
    found
}

/// How many widgets an applet draws, however it is laid out: a flat list of widgets, or the widgets of each of its
/// screens together, or none.
pub open spec fn widget_total(applet: JsonV) -> int {
    match jget_array(applet, "widgets"@) {
        Some(widgets) => widgets.len() as int,
        None => match jget_array(applet, "screens"@) {
            Some(screens) => screens_widgets(screens),
            None => 0,
        },
    }
}

/// The widgets of each screen, together.
pub open spec fn screens_widgets(screens: Seq<JsonV>) -> int
    decreases screens.len(),
{
    if screens.len() == 0 {
        0
    } else {
        screens_widgets(screens.drop_last()) + match jget_array(screens.last(), "widgets"@) {
            Some(w) => w.len() as int,
            None => 0,
        }
    }
}

proof fn lemma_screens_widgets_nonneg(screens: Seq<JsonV>)
    ensures
        screens_widgets(screens) >= 0,
    decreases screens.len(),
{
    if screens.len() > 0 {
        lemma_screens_widgets_nonneg(screens.drop_last());
    }
}

/// How many widgets an applet draws, however it is laid out: one flat screen or several. A count too big for
/// `usize` is the largest `usize`.
pub fn widget_count(applet: &Json) -> (r: usize)
    ensures
        r == (if widget_total(applet@) <= usize::MAX { widget_total(applet@) } else { usize::MAX as int }),
{
    match applet.get("widgets") {
        Some(w) => match w.as_array() {
            Some(widgets) => {
                proof {
                    crate::json::lemma_items_view(widgets@);
                }
                return widgets.len();
            },
            None => {},
        },
        None => {},
    }
    match applet.get("screens") {
        Some(s) => match s.as_array() {
            Some(screens) => {
                let ghost sv = crate::json::items_view(screens@);
                proof {
                    crate::json::lemma_items_view(screens@);
                }
                let mut total: usize = 0;
                let mut i: usize = 0;
                while i < screens.len()
                    invariant
                        sv == crate::json::items_view(screens@),
                        sv.len() == screens@.len(),
                        forall|k: int| 0 <= k < screens@.len() ==> #[trigger] sv[k] == screens@[k]@,
                        i <= screens.len(),
                        total == (if screens_widgets(sv.subrange(0, i as int)) <= usize::MAX {
                            screens_widgets(sv.subrange(0, i as int))
                        } else {
                            usize::MAX as int
                        }),
                    decreases screens.len() - i,
                {
                    proof {
                        assert(sv.subrange(0, i + 1).drop_last() =~= sv.subrange(0, i as int));
                        lemma_screens_widgets_nonneg(sv.subrange(0, i as int));
                    }
                    let n: usize = match screens[i].get("widgets") {
                        Some(w) => match w.as_array() {
                            Some(widgets) => {
                                proof {
                                    crate::json::lemma_items_view(widgets@);
                                }
                                widgets.len()
                            },
                            None => 0,
                        },
                        None => 0,
                    };
                    total = total.saturating_add(n);
                    i += 1;
                }
                proof {
                    assert(sv.subrange(0, screens@.len() as int) =~= sv);
                }
                total
            },
            None => 0,
        },
        None => 0,
    }
}

/// The names in a part, for saying what an import would add or change: an object's keys, or none.
pub open spec fn names_in(value: Option<JsonV>) -> Seq<Seq<char>> {
    match value {
        Some(JsonV::Object(f)) => crate::json::field_keys(f),
        _ => Seq::empty(),
    }
}

/// The names in a part, for saying what an import would add or change.
pub fn names(value: Option<&Json>) -> (r: Vec<String>)
    ensures
        texts(r@) == names_in(opt_ref(value)),
{
    let mut out: Vec<String> = Vec::new();
    match value {
        Some(Json::Object(fields)) => {
            proof {
                lemma_fields_view(fields@);
            }
            let mut i: usize = 0;
            while i < fields.len()
                invariant
                    i <= fields.len(),
                    out@.len() == i,
                    forall|k: int| 0 <= k < i ==> (#[trigger] out@[k])@ == fields@[k].0@,
                decreases fields.len() - i,
            {
                out.push(owned(fields[i].0.as_str()));
                i += 1;
            }
            proof {
                lemma_fields_view(fields@);
                assert(texts(out@) =~= crate::json::field_keys(fields_view(fields@)));
            }
        },
        _ => {
            proof {
                assert(texts(out@) =~= Seq::<Seq<char>>::empty());
            }
        },
    }
    out
}

/// An optional borrowed value's meaning.
pub open spec fn opt_ref(o: Option<&Json>) -> Option<JsonV> {
    match o {
        Some(j) => Some(j@),
        None => None,
    }
}

/// A field as a person would read it: strings in quotes, `nothing` for null, anything else as its JSON.
pub open spec fn shown(value: JsonV) -> Seq<char> {
    match value {
        JsonV::Str(text) => debug_quoted(text),
        JsonV::Null => "nothing"@,
        other => compact_json(other),
    }
}

/// A field as a person would read it: strings in quotes, anything else as its JSON.
pub fn show(value: &Json) -> (r: String)
    ensures
        r@ == shown(value@),
{
    match value {
        Json::Str(text) => quoted(text.as_str()),
        Json::Null => owned("nothing"),
        other => to_compact(other),
    }
}

/// The value a bundle is written as: what it is, its version, its name and its applet, then each part it has -
/// a part it does not have is left out rather than written empty - and whether the pad walks to it.
pub open spec fn bundle_value(b: BundleV) -> JsonV {
    let f1 = field_put(Seq::empty(), "kind"@, JsonV::Str(KIND@));
    let f2 = field_put(f1, "version"@, JsonV::Number(crate::json::NumberV::PosInt(VERSION)));
    let f3 = field_put(f2, "name"@, JsonV::Str(b.name));
    let f4 = field_put(f3, "applet"@, b.applet);
    let f5 = match b.pictures {
        Some(p) => field_put(f4, "pictures"@, p),
        None => f4,
    };
    let f6 = if b.fonts.len() > 0 { field_put(f5, "fonts"@, JsonV::Object(b.fonts)) } else { f5 };
    let f7 = match b.theme {
        Some(t) => field_put(f6, "theme"@, JsonV::Object(seq![t])),
        None => f6,
    };
    let f8 = if b.endpoints.len() > 0 { field_put(f7, "endpoints"@, JsonV::Object(b.endpoints)) } else { f7 };
    let f9 = if b.values.len() > 0 { field_put(f8, "values"@, JsonV::Object(b.values)) } else { f8 };
    JsonV::Object(field_put(f9, "on_the_pad"@, JsonV::Bool(b.on_the_pad)))
}

/// A copy of an object's fields, all the way down.
pub fn copy_fields_of(f: &Vec<(String, Json)>) -> (r: Vec<(String, Json)>)
    ensures
        fields_view(r@) == fields_view(f@),
{
    copy_fields(f)
}

fn copy_fields(f: &Vec<(String, Json)>) -> (r: Vec<(String, Json)>)
    ensures
        fields_view(r@) == fields_view(f@),
{
    let mut out: Vec<(String, Json)> = Vec::new();
    let mut i: usize = 0;
    while i < f.len()
        invariant
            i <= f.len(),
            out@.len() == i,
            forall|k: int| 0 <= k < i ==> (#[trigger] out@[k]).0@ == f@[k].0@ && out@[k].1@ == f@[k].1@,
        decreases f.len() - i,
    {
        out.push((owned(f[i].0.as_str()), f[i].1.deep_clone()));
        i += 1;
    }
    proof {
        crate::json::lemma_fields_view_ext(out@, f@);
    }
    out
}

/// The value a bundle is written as.
pub fn bundle_to_value(bundle: &Bundle) -> (r: Json)
    ensures
        r@ == bundle_value(bundle@),
{
    let mut f: Vec<(String, Json)> = Vec::new();
    proof {
        assert(fields_view(f@) =~= Seq::<(Seq<char>, JsonV)>::empty());
    }
    fields_put(&mut f, owned("kind"), Json::Str(owned(KIND)));
    fields_put(&mut f, owned("version"), Json::Number(crate::json::Numeral::PosInt(VERSION)));
    fields_put(&mut f, owned("name"), Json::Str(owned(bundle.name.as_str())));
    fields_put(&mut f, owned("applet"), bundle.applet.deep_clone());
    match &bundle.pictures {
        Some(p) => fields_put(&mut f, owned("pictures"), p.deep_clone()),
        None => {},
    }
    if bundle.fonts.len() > 0 {
        fields_put(&mut f, owned("fonts"), Json::Object(copy_fields(&bundle.fonts)));
    }
    match &bundle.theme {
        Some((name, body)) => {
            let mut one: Vec<(String, Json)> = Vec::new();
            one.push((owned(name.as_str()), body.deep_clone()));
            proof {
                lemma_fields_view(one@);
                assert(fields_view(one@) =~= seq![(name@, body@)]);
            }
            fields_put(&mut f, owned("theme"), Json::Object(one));
        },
        None => {},
    }
    if bundle.endpoints.len() > 0 {
        fields_put(&mut f, owned("endpoints"), Json::Object(copy_fields(&bundle.endpoints)));
    }
    if bundle.values.len() > 0 {
        fields_put(&mut f, owned("values"), Json::Object(copy_fields(&bundle.values)));
    }
    fields_put(&mut f, owned("on_the_pad"), Json::Bool(bundle.on_the_pad));
    Json::Object(f)
}

/// A part of a bundle that is written as it reads back: canonical, and nested no deeper than leaves room for the
/// objects the bundle puts it in.
pub open spec fn part_fits(v: JsonV, d: nat) -> bool {
    crate::json::canonical(v) && crate::json::nested_within(v, d)
}

/// Named parts that are written as they read back: in the order of their names, each once, each body fitting.
pub open spec fn parts_fit(f: Seq<(Seq<char>, JsonV)>) -> bool {
    crate::json::keys_sorted(f) && forall|i: int| 0 <= i < f.len() ==> part_fits(#[trigger] f[i].1, 125)
}

/// A bundle whose file reads back as the bundle: a name, an applet that is an object, pictures that are an object,
/// and every part canonical and within the depth the reader takes - as every bundle packed from files that were
/// read is.
pub open spec fn writable(b: BundleV) -> bool {
    &&& b.name.len() > 0
    &&& jobject(b.applet) is Some
    &&& part_fits(b.applet, 126)
    &&& b.pictures matches Some(p) ==> jobject(p) is Some && part_fits(p, 126)
    &&& parts_fit(b.fonts)
    &&& b.theme matches Some(t) ==> part_fits(t.1, 125)
    &&& parts_fit(b.endpoints)
    &&& parts_fit(b.values)
}

/// Fields whose values all fit one level below the top of a bundle's file.
pub open spec fn top_fields_fit(f: Seq<(Seq<char>, JsonV)>) -> bool {
    crate::json::keys_sorted(f) && forall|i: int| 0 <= i < f.len() ==> part_fits(#[trigger] f[i].1, 126)
}

proof fn lemma_put_fits(f: Seq<(Seq<char>, JsonV)>, k: Seq<char>, v: JsonV)
    requires
        top_fields_fit(f),
        part_fits(v, 126),
    ensures
        top_fields_fit(field_put(f, k, v)),
{
    crate::json::lemma_put_keeps_sorted(f, k, v);
    let p = |e: (Seq<char>, JsonV)| part_fits(e.1, 126);
    assert forall|i: int| 0 <= i < f.len() implies p(#[trigger] f[i]) by {
        assert(part_fits(f[i].1, 126));
    }
    crate::json::lemma_put_entries(f, k, v, p);
    let q = field_put(f, k, v);
    assert forall|i: int| 0 <= i < q.len() implies part_fits(#[trigger] q[i].1, 126) by {
        assert(p(q[i]));
    }
}

proof fn lemma_parts_object_fits(f: Seq<(Seq<char>, JsonV)>)
    requires
        parts_fit(f),
    ensures
        part_fits(JsonV::Object(f), 126),
{
    assert forall|i: int| 0 <= i < f.len() implies crate::json::canonical(#[trigger] f[i].1) by {
        assert(part_fits(f[i].1, 125));
    }
    assert forall|i: int| 0 <= i < f.len() implies crate::json::nested_within(#[trigger] f[i].1, 125) by {
        assert(part_fits(f[i].1, 125));
    }
}

/// The value a writable bundle is written as is canonical and within the reader's depth, so its file reads back
/// as that value.
pub proof fn a_writable_bundle_is_written_as_it_reads(b: BundleV)
    requires
        writable(b),
    ensures
        crate::json::canonical(bundle_value(b)),
        crate::json::nested_within(bundle_value(b), crate::json::read_depth()),
{
    let e = Seq::<(Seq<char>, JsonV)>::empty();
    let f1 = field_put(e, "kind"@, JsonV::Str(KIND@));
    let f2 = field_put(f1, "version"@, JsonV::Number(crate::json::NumberV::PosInt(VERSION)));
    let f3 = field_put(f2, "name"@, JsonV::Str(b.name));
    let f4 = field_put(f3, "applet"@, b.applet);
    let f5 = match b.pictures {
        Some(p) => field_put(f4, "pictures"@, p),
        None => f4,
    };
    let f6 = if b.fonts.len() > 0 { field_put(f5, "fonts"@, JsonV::Object(b.fonts)) } else { f5 };
    let f7 = match b.theme {
        Some(t) => field_put(f6, "theme"@, JsonV::Object(seq![t])),
        None => f6,
    };
    let f8 = if b.endpoints.len() > 0 { field_put(f7, "endpoints"@, JsonV::Object(b.endpoints)) } else { f7 };
    let f9 = if b.values.len() > 0 { field_put(f8, "values"@, JsonV::Object(b.values)) } else { f8 };
    let f10 = field_put(f9, "on_the_pad"@, JsonV::Bool(b.on_the_pad));
    assert(top_fields_fit(e));
    lemma_put_fits(e, "kind"@, JsonV::Str(KIND@));
    lemma_put_fits(f1, "version"@, JsonV::Number(crate::json::NumberV::PosInt(VERSION)));
    lemma_put_fits(f2, "name"@, JsonV::Str(b.name));
    lemma_put_fits(f3, "applet"@, b.applet);
    match b.pictures {
        Some(p) => lemma_put_fits(f4, "pictures"@, p),
        None => {},
    }
    if b.fonts.len() > 0 {
        lemma_parts_object_fits(b.fonts);
        lemma_put_fits(f5, "fonts"@, JsonV::Object(b.fonts));
    }
    match b.theme {
        Some(t) => {
            let one = seq![t];
            assert(parts_fit(one));
            lemma_parts_object_fits(one);
            lemma_put_fits(f6, "theme"@, JsonV::Object(one));
        },
        None => {},
    }
    if b.endpoints.len() > 0 {
        lemma_parts_object_fits(b.endpoints);
        lemma_put_fits(f7, "endpoints"@, JsonV::Object(b.endpoints));
    }
    if b.values.len() > 0 {
        lemma_parts_object_fits(b.values);
        lemma_put_fits(f8, "values"@, JsonV::Object(b.values));
    }
    lemma_put_fits(f9, "on_the_pad"@, JsonV::Bool(b.on_the_pad));
    assert(bundle_value(b) == JsonV::Object(f10));
    assert forall|i: int| 0 <= i < f10.len() implies crate::json::canonical(#[trigger] f10[i].1) by {
        assert(part_fits(f10[i].1, 126));
    }
    assert forall|i: int| 0 <= i < f10.len() implies crate::json::nested_within(#[trigger] f10[i].1, 126) by {
        assert(part_fits(f10[i].1, 126));
    }
}

/// The bundle as the file it is written to: its value as pretty JSON, and a newline. Parts an applet does not
/// have are left out rather than written empty, so a plain applet is a small file.
pub fn to_json(bundle: &Bundle) -> (r: String)
    ensures
        r@ == pretty_json(bundle_value(bundle@)) + "\n"@,
        writable(bundle@) ==> parsed_json(r@) == Some(bundle_value(bundle@)) && bundle_read(bundle_value(bundle@))
            == Ok::<BundleV, Seq<char>>(bundle@),
{
    let v = bundle_to_value(bundle);
    let text = to_pretty(&v);
    proof {
        if writable(bundle@) {
            a_writable_bundle_is_written_as_it_reads(bundle@);
            a_bundle_reads_back_as_written(bundle@);
        }
    }
    join2(text.as_str(), "\n")
}

/// A text under a key of a value, or the empty text when there is none.
pub open spec fn text_or_empty(v: JsonV, key: Seq<char>) -> Seq<char> {
    match jget_str(v, key) {
        Some(t) => t,
        None => Seq::empty(),
    }
}

/// The fields of an object under a key, or none.
pub open spec fn part_of(v: JsonV, key: Seq<char>) -> Seq<(Seq<char>, JsonV)> {
    match jget_object(v, key) {
        Some(f) => f,
        None => Seq::empty(),
    }
}

/// The version a value says it is, or 0 when it says none.
pub open spec fn version_of(v: JsonV) -> u64 {
    match jget(v, "version"@) {
        Some(x) => match crate::json::ju64(x) {
            Some(n) => n,
            None => 0,
        },
        None => 0,
    }
}

/// What reading a bundle out of a value gives: a value that does not say it is an applet file, says a later
/// version, names no applet or holds no applet object is refused with the reason; otherwise the bundle, with each
/// part it leaves out empty, its pictures only when they are an object, the first entry of its theme, and the pad
/// not walking to it unless it says so.
pub open spec fn bundle_read(v: JsonV) -> Result<BundleV, Seq<char>> {
    let kind = text_or_empty(v, "kind"@);
    let name = text_or_empty(v, "name"@);
    if kind != KIND@ {
        Err("not an applet file: it says its kind is "@ + debug_quoted(kind) + ", and an applet file says "@
            + debug_quoted(KIND@))
    } else if version_of(v) > VERSION {
        Err("made by a newer version of this window (it says "@ + decimal(version_of(v) as nat)
            + ", this build reads "@ + decimal(VERSION as nat) + ")"@)
    } else if name.len() == 0 {
        Err("it does not say which applet it is"@)
    } else {
        match jget(v, "applet"@) {
            Some(applet) => if jobject(applet) is Some {
                Ok(BundleV {
                    name,
                    applet,
                    pictures: match jget(v, "pictures"@) {
                        Some(p) => if jobject(p) is Some {
                            Some(p)
                        } else {
                            None
                        },
                        None => None,
                    },
                    fonts: part_of(v, "fonts"@),
                    theme: match jget_object(v, "theme"@) {
                        Some(f) => if f.len() > 0 {
                            Some(f[0])
                        } else {
                            None
                        },
                        None => None,
                    },
                    endpoints: part_of(v, "endpoints"@),
                    values: part_of(v, "values"@),
                    on_the_pad: match jget(v, "on_the_pad"@) {
                        Some(b) => match crate::json::jbool(b) {
                            Some(b) => b,
                            None => false,
                        },
                        None => false,
                    },
                })
            } else {
                Err("it has no applet in it"@)
            },
            None => Err("it has no applet in it"@),
        }
    }
}

/// What a file must say to be read as a bundle: that its kind is an applet's, a version no later than this
/// build's (none counts as 0), a name, and an applet that is an object. What it is read as then: that name, that
/// applet, and on the pad exactly when it says `true` there.
pub proof fn a_file_is_read_as_a_bundle_exactly_when(v: JsonV)
    ensures
        bundle_read(v) is Ok <==> {
            &&& jget_str(v, "kind"@) == Some(KIND@)
            &&& version_of(v) <= VERSION
            &&& text_or_empty(v, "name"@).len() > 0
            &&& jget(v, "applet"@) matches Some(a) && jobject(a) is Some
        },
        bundle_read(v) matches Ok(b) ==> {
            &&& b.name == text_or_empty(v, "name"@)
            &&& jget(v, "applet"@) == Some(b.applet)
            &&& b.on_the_pad == (jget(v, "on_the_pad"@) == Some(JsonV::Bool(true)))
        },
{
    reveal_strlit("g13-applet");
    assert(KIND@.len() > 0);
    assert(text_or_empty(v, "kind"@) == KIND@ <==> jget_str(v, "kind"@) == Some(KIND@));
}

fn text_field(v: &Json, key: &str) -> (r: String)
    ensures
        r@ == text_or_empty(v@, key@),
{
    match v.get(key) {
        Some(x) => match x.as_str() {
            Some(t) => owned(t.as_str()),
            None => String::new(),
        },
        None => String::new(),
    }
}

fn part_field(v: &Json, key: &str) -> (r: Vec<(String, Json)>)
    ensures
        fields_view(r@) == part_of(v@, key@),
{
    match v.get(key) {
        Some(x) => match x.as_object() {
            Some(f) => copy_fields(f),
            None => {
                let e: Vec<(String, Json)> = Vec::new();
                proof {
                    assert(fields_view(e@) =~= Seq::<(Seq<char>, JsonV)>::empty());
                }
                e
            },
        },
        None => {
            let e: Vec<(String, Json)> = Vec::new();
            proof {
                assert(fields_view(e@) =~= Seq::<(Seq<char>, JsonV)>::empty());
            }
            e
        },
    }
}

/// Read a bundle out of the value its file holds.
pub fn bundle_from_value(v: &Json) -> (r: Result<Bundle, String>)
    ensures
        match bundle_read(v@) {
            Ok(b) => r matches Ok(x) && x@ == b,
            Err(problem) => r matches Err(e) && e@ == problem,
        },
{
    let kind = text_field(v, "kind");
    if !same_text(kind.as_str(), KIND) {
        let said = quoted(kind.as_str());
        let want = quoted(KIND);
        let head = join3("not an applet file: it says its kind is ", said.as_str(), ", and an applet file says ");
        return Err(join2(head.as_str(), want.as_str()));
    }
    let version = match v.get("version") {
        Some(x) => match x.as_u64() {
            Some(n) => n,
            None => 0,
        },
        None => 0,
    };
    if version > VERSION {
        let said = decimal_text(version);
        let reads = decimal_text(VERSION);
        let head = join3("made by a newer version of this window (it says ", said.as_str(), ", this build reads ");
        return Err(join3(head.as_str(), reads.as_str(), ")"));
    }
    let name = text_field(v, "name");
    if name.as_str().unicode_len() == 0 {
        return Err(owned("it does not say which applet it is"));
    }
    let applet = match v.get("applet") {
        Some(a) => if a.is_object() {
            a.deep_clone()
        } else {
            return Err(owned("it has no applet in it"));
        },
        None => {
            return Err(owned("it has no applet in it"));
        },
    };
    let pictures = match v.get("pictures") {
        Some(p) => if p.is_object() {
            Some(p.deep_clone())
        } else {
            None
        },
        None => None,
    };
    let theme = match v.get("theme") {
        Some(t) => match t.as_object() {
            Some(f) => if f.len() > 0 {
                proof {
                    lemma_fields_view(f@);
                }
                Some((owned(f[0].0.as_str()), f[0].1.deep_clone()))
            } else {
                None
            },
            None => None,
        },
        None => None,
    };
    let on_the_pad = match v.get("on_the_pad") {
        Some(b) => match b.as_bool() {
            Some(b) => b,
            None => false,
        },
        None => false,
    };
    Ok(Bundle {
        name,
        applet,
        pictures,
        fonts: part_field(v, "fonts"),
        theme,
        endpoints: part_field(v, "endpoints"),
        values: part_field(v, "values"),
        on_the_pad,
    })
}

/// What reading a bundle's file gives: a text that is not JSON is refused, and otherwise what its value reads
/// as.
pub fn parse(text: &str) -> (r: Result<Bundle, String>)
    ensures
        parsed_json(text@) is None ==> (r matches Err(e) && starts_with(e@, "not JSON: "@)),
        parsed_json(text@) matches Some(v) ==> match bundle_read(v) {
            Ok(b) => r matches Ok(x) && x@ == b,
            Err(problem) => r matches Err(e) && e@ == problem,
        },
{
    match parse_json(text) {
        Err(problem) => {
            let said = join2("not JSON: ", problem.as_str());
            proof {
                reveal_strlit("not JSON: ");
                assert(said@.subrange(0, 10) =~= "not JSON: "@);
            }
            Err(said)
        },
        Ok(v) => bundle_from_value(&v),
    }
}

/// The keys a bundle's file uses are different words.
proof fn lemma_bundle_keys_differ()
    ensures
        "kind"@ != "version"@,
        "kind"@ != "name"@,
        "kind"@ != "applet"@,
        "kind"@ != "pictures"@,
        "kind"@ != "fonts"@,
        "kind"@ != "theme"@,
        "kind"@ != "endpoints"@,
        "kind"@ != "values"@,
        "kind"@ != "on_the_pad"@,
        "version"@ != "name"@,
        "version"@ != "applet"@,
        "version"@ != "pictures"@,
        "version"@ != "fonts"@,
        "version"@ != "theme"@,
        "version"@ != "endpoints"@,
        "version"@ != "values"@,
        "version"@ != "on_the_pad"@,
        "name"@ != "applet"@,
        "name"@ != "pictures"@,
        "name"@ != "fonts"@,
        "name"@ != "theme"@,
        "name"@ != "endpoints"@,
        "name"@ != "values"@,
        "name"@ != "on_the_pad"@,
        "applet"@ != "pictures"@,
        "applet"@ != "fonts"@,
        "applet"@ != "theme"@,
        "applet"@ != "endpoints"@,
        "applet"@ != "values"@,
        "applet"@ != "on_the_pad"@,
        "pictures"@ != "fonts"@,
        "pictures"@ != "theme"@,
        "pictures"@ != "endpoints"@,
        "pictures"@ != "values"@,
        "pictures"@ != "on_the_pad"@,
        "fonts"@ != "theme"@,
        "fonts"@ != "endpoints"@,
        "fonts"@ != "values"@,
        "fonts"@ != "on_the_pad"@,
        "theme"@ != "endpoints"@,
        "theme"@ != "values"@,
        "theme"@ != "on_the_pad"@,
        "endpoints"@ != "values"@,
        "endpoints"@ != "on_the_pad"@,
        "values"@ != "on_the_pad"@,
{
    reveal_strlit("kind");
    reveal_strlit("version");
    reveal_strlit("name");
    reveal_strlit("applet");
    reveal_strlit("pictures");
    reveal_strlit("fonts");
    reveal_strlit("theme");
    reveal_strlit("endpoints");
    reveal_strlit("values");
    reveal_strlit("on_the_pad");
    assert("kind"@[0] != "version"@[0]);
    assert("kind"@[0] != "name"@[0]);
    assert("kind"@[0] != "applet"@[0]);
    assert("kind"@[0] != "pictures"@[0]);
    assert("kind"@[0] != "fonts"@[0]);
    assert("kind"@[0] != "theme"@[0]);
    assert("kind"@[0] != "endpoints"@[0]);
    assert("kind"@[0] != "values"@[0]);
    assert("kind"@[0] != "on_the_pad"@[0]);
    assert("version"@[0] != "name"@[0]);
    assert("version"@[0] != "applet"@[0]);
    assert("version"@[0] != "pictures"@[0]);
    assert("version"@[0] != "fonts"@[0]);
    assert("version"@[0] != "theme"@[0]);
    assert("version"@[0] != "endpoints"@[0]);
    assert("version"@.len() != "values"@.len());
    assert("version"@[0] != "on_the_pad"@[0]);
    assert("name"@[0] != "applet"@[0]);
    assert("name"@[0] != "pictures"@[0]);
    assert("name"@[0] != "fonts"@[0]);
    assert("name"@[0] != "theme"@[0]);
    assert("name"@[0] != "endpoints"@[0]);
    assert("name"@[0] != "values"@[0]);
    assert("name"@[0] != "on_the_pad"@[0]);
    assert("applet"@[0] != "pictures"@[0]);
    assert("applet"@[0] != "fonts"@[0]);
    assert("applet"@[0] != "theme"@[0]);
    assert("applet"@[0] != "endpoints"@[0]);
    assert("applet"@[0] != "values"@[0]);
    assert("applet"@[0] != "on_the_pad"@[0]);
    assert("pictures"@[0] != "fonts"@[0]);
    assert("pictures"@[0] != "theme"@[0]);
    assert("pictures"@[0] != "endpoints"@[0]);
    assert("pictures"@[0] != "values"@[0]);
    assert("pictures"@[0] != "on_the_pad"@[0]);
    assert("fonts"@[0] != "theme"@[0]);
    assert("fonts"@[0] != "endpoints"@[0]);
    assert("fonts"@[0] != "values"@[0]);
    assert("fonts"@[0] != "on_the_pad"@[0]);
    assert("theme"@[0] != "endpoints"@[0]);
    assert("theme"@[0] != "values"@[0]);
    assert("theme"@[0] != "on_the_pad"@[0]);
    assert("endpoints"@[0] != "values"@[0]);
    assert("endpoints"@[0] != "on_the_pad"@[0]);
    assert("values"@[0] != "on_the_pad"@[0]);
}

/// What a bundle's file holds: what it is and its version, its name and applet, and the parts it has; a part it
/// does not have - no pictures, no theme, no fonts, endpoints or values - is left out, not written empty.
pub proof fn a_bundle_file_leaves_out_what_it_lacks(b: BundleV)
    ensures
        jget(bundle_value(b), "kind"@) == Some(JsonV::Str(KIND@)),
        jget(bundle_value(b), "version"@) == Some(JsonV::Number(crate::json::NumberV::PosInt(VERSION))),
        jget(bundle_value(b), "name"@) == Some(JsonV::Str(b.name)),
        jget(bundle_value(b), "applet"@) == Some(b.applet),
        jget(bundle_value(b), "on_the_pad"@) == Some(JsonV::Bool(b.on_the_pad)),
        jget(bundle_value(b), "pictures"@) == b.pictures,
        jget(bundle_value(b), "fonts"@) is Some <==> b.fonts.len() > 0,
        jget(bundle_value(b), "theme"@) is Some <==> b.theme is Some,
        jget(bundle_value(b), "endpoints"@) is Some <==> b.endpoints.len() > 0,
        jget(bundle_value(b), "values"@) is Some <==> b.values.len() > 0,
{
    lemma_bundle_keys_differ();
    reveal_strlit("g13-applet");
    let f1 = field_put(Seq::<(Seq<char>, JsonV)>::empty(), "kind"@, JsonV::Str(KIND@));
    let f2 = field_put(f1, "version"@, JsonV::Number(crate::json::NumberV::PosInt(VERSION)));
    let f3 = field_put(f2, "name"@, JsonV::Str(b.name));
    let f4 = field_put(f3, "applet"@, b.applet);
    let f5 = match b.pictures {
        Some(p) => field_put(f4, "pictures"@, p),
        None => f4,
    };
    let f6 = if b.fonts.len() > 0 { field_put(f5, "fonts"@, JsonV::Object(b.fonts)) } else { f5 };
    let f7 = match b.theme {
        Some(t) => field_put(f6, "theme"@, JsonV::Object(seq![t])),
        None => f6,
    };
    let f8 = if b.endpoints.len() > 0 { field_put(f7, "endpoints"@, JsonV::Object(b.endpoints)) } else { f7 };
    let f9 = if b.values.len() > 0 { field_put(f8, "values"@, JsonV::Object(b.values)) } else { f8 };
    let f10 = field_put(f9, "on_the_pad"@, JsonV::Bool(b.on_the_pad));
    let keys = seq!["kind"@, "version"@, "name"@, "applet"@, "pictures"@, "fonts"@, "theme"@, "endpoints"@, "values"@, "on_the_pad"@];
    assert forall|k: Seq<char>| #[trigger] keys.contains(k) implies field_get(f10, k) == (if k == "on_the_pad"@ {
        Some(JsonV::Bool(b.on_the_pad))
    } else if k == "values"@ {
        if b.values.len() > 0 { Some(JsonV::Object(b.values)) } else { None }
    } else if k == "endpoints"@ {
        if b.endpoints.len() > 0 { Some(JsonV::Object(b.endpoints)) } else { None }
    } else if k == "theme"@ {
        match b.theme {
            Some(t) => Some(JsonV::Object(seq![t])),
            None => None,
        }
    } else if k == "fonts"@ {
        if b.fonts.len() > 0 { Some(JsonV::Object(b.fonts)) } else { None }
    } else if k == "pictures"@ {
        b.pictures
    } else if k == "applet"@ {
        Some(b.applet)
    } else if k == "name"@ {
        Some(JsonV::Str(b.name))
    } else if k == "version"@ {
        Some(JsonV::Number(crate::json::NumberV::PosInt(VERSION)))
    } else {
        Some(JsonV::Str(KIND@))
    }) by {
        crate::json::lemma_get_put(Seq::<(Seq<char>, JsonV)>::empty(), "kind"@, JsonV::Str(KIND@), k);
        crate::json::lemma_get_put(f1, "version"@, JsonV::Number(crate::json::NumberV::PosInt(VERSION)), k);
        crate::json::lemma_get_put(f2, "name"@, JsonV::Str(b.name), k);
        crate::json::lemma_get_put(f3, "applet"@, b.applet, k);
        match b.pictures {
            Some(p) => crate::json::lemma_get_put(f4, "pictures"@, p, k),
            None => {},
        }
        if b.fonts.len() > 0 {
            crate::json::lemma_get_put(f5, "fonts"@, JsonV::Object(b.fonts), k);
        }
        match b.theme {
            Some(t) => crate::json::lemma_get_put(f6, "theme"@, JsonV::Object(seq![t]), k),
            None => {},
        }
        if b.endpoints.len() > 0 {
            crate::json::lemma_get_put(f7, "endpoints"@, JsonV::Object(b.endpoints), k);
        }
        if b.values.len() > 0 {
            crate::json::lemma_get_put(f8, "values"@, JsonV::Object(b.values), k);
        }
        crate::json::lemma_get_put(f9, "on_the_pad"@, JsonV::Bool(b.on_the_pad), k);
    }
    assert(keys.contains("kind"@)) by { assert(keys[0] == "kind"@); }
    assert(keys.contains("version"@)) by { assert(keys[1] == "version"@); }
    assert(keys.contains("name"@)) by { assert(keys[2] == "name"@); }
    assert(keys.contains("applet"@)) by { assert(keys[3] == "applet"@); }
    assert(keys.contains("pictures"@)) by { assert(keys[4] == "pictures"@); }
    assert(keys.contains("fonts"@)) by { assert(keys[5] == "fonts"@); }
    assert(keys.contains("theme"@)) by { assert(keys[6] == "theme"@); }
    assert(keys.contains("endpoints"@)) by { assert(keys[7] == "endpoints"@); }
    assert(keys.contains("values"@)) by { assert(keys[8] == "values"@); }
    assert(keys.contains("on_the_pad"@)) by { assert(keys[9] == "on_the_pad"@); }
    assert(bundle_value(b) == JsonV::Object(f10));
}

/// A bundle reads back out of the value it is written as, for every bundle a file can hold: one with a name, an
/// applet that is an object, and pictures, when it has them, that are an object too.
pub proof fn a_bundle_reads_back_as_written(b: BundleV)
    requires
        b.name.len() > 0,
        jobject(b.applet) is Some,
        b.pictures matches Some(p) ==> jobject(p) is Some,
    ensures
        bundle_read(bundle_value(b)) == Ok::<BundleV, Seq<char>>(b),
{
    lemma_bundle_keys_differ();
    reveal_strlit("g13-applet");
    let f1 = field_put(Seq::<(Seq<char>, JsonV)>::empty(), "kind"@, JsonV::Str(KIND@));
    let f2 = field_put(f1, "version"@, JsonV::Number(crate::json::NumberV::PosInt(VERSION)));
    let f3 = field_put(f2, "name"@, JsonV::Str(b.name));
    let f4 = field_put(f3, "applet"@, b.applet);
    let f5 = match b.pictures {
        Some(p) => field_put(f4, "pictures"@, p),
        None => f4,
    };
    let f6 = if b.fonts.len() > 0 { field_put(f5, "fonts"@, JsonV::Object(b.fonts)) } else { f5 };
    let f7 = match b.theme {
        Some(t) => field_put(f6, "theme"@, JsonV::Object(seq![t])),
        None => f6,
    };
    let f8 = if b.endpoints.len() > 0 { field_put(f7, "endpoints"@, JsonV::Object(b.endpoints)) } else { f7 };
    let f9 = if b.values.len() > 0 { field_put(f8, "values"@, JsonV::Object(b.values)) } else { f8 };
    let f10 = field_put(f9, "on_the_pad"@, JsonV::Bool(b.on_the_pad));
    let keys = seq!["kind"@, "version"@, "name"@, "applet"@, "pictures"@, "fonts"@, "theme"@, "endpoints"@, "values"@, "on_the_pad"@];
    assert forall|k: Seq<char>| #[trigger] keys.contains(k) implies field_get(f10, k) == (if k == "on_the_pad"@ {
        Some(JsonV::Bool(b.on_the_pad))
    } else if k == "values"@ {
        if b.values.len() > 0 { Some(JsonV::Object(b.values)) } else { None }
    } else if k == "endpoints"@ {
        if b.endpoints.len() > 0 { Some(JsonV::Object(b.endpoints)) } else { None }
    } else if k == "theme"@ {
        match b.theme {
            Some(t) => Some(JsonV::Object(seq![t])),
            None => None,
        }
    } else if k == "fonts"@ {
        if b.fonts.len() > 0 { Some(JsonV::Object(b.fonts)) } else { None }
    } else if k == "pictures"@ {
        b.pictures
    } else if k == "applet"@ {
        Some(b.applet)
    } else if k == "name"@ {
        Some(JsonV::Str(b.name))
    } else if k == "version"@ {
        Some(JsonV::Number(crate::json::NumberV::PosInt(VERSION)))
    } else {
        Some(JsonV::Str(KIND@))
    }) by {
        crate::json::lemma_get_put(Seq::<(Seq<char>, JsonV)>::empty(), "kind"@, JsonV::Str(KIND@), k);
        crate::json::lemma_get_put(f1, "version"@, JsonV::Number(crate::json::NumberV::PosInt(VERSION)), k);
        crate::json::lemma_get_put(f2, "name"@, JsonV::Str(b.name), k);
        crate::json::lemma_get_put(f3, "applet"@, b.applet, k);
        match b.pictures {
            Some(p) => crate::json::lemma_get_put(f4, "pictures"@, p, k),
            None => {},
        }
        if b.fonts.len() > 0 {
            crate::json::lemma_get_put(f5, "fonts"@, JsonV::Object(b.fonts), k);
        }
        match b.theme {
            Some(t) => crate::json::lemma_get_put(f6, "theme"@, JsonV::Object(seq![t]), k),
            None => {},
        }
        if b.endpoints.len() > 0 {
            crate::json::lemma_get_put(f7, "endpoints"@, JsonV::Object(b.endpoints), k);
        }
        if b.values.len() > 0 {
            crate::json::lemma_get_put(f8, "values"@, JsonV::Object(b.values), k);
        }
        crate::json::lemma_get_put(f9, "on_the_pad"@, JsonV::Bool(b.on_the_pad), k);
    }
    assert(keys.contains("kind"@)) by { assert(keys[0] == "kind"@); }
    assert(keys.contains("version"@)) by { assert(keys[1] == "version"@); }
    assert(keys.contains("name"@)) by { assert(keys[2] == "name"@); }
    assert(keys.contains("applet"@)) by { assert(keys[3] == "applet"@); }
    assert(keys.contains("pictures"@)) by { assert(keys[4] == "pictures"@); }
    assert(keys.contains("fonts"@)) by { assert(keys[5] == "fonts"@); }
    assert(keys.contains("theme"@)) by { assert(keys[6] == "theme"@); }
    assert(keys.contains("endpoints"@)) by { assert(keys[7] == "endpoints"@); }
    assert(keys.contains("values"@)) by { assert(keys[8] == "values"@); }
    assert(keys.contains("on_the_pad"@)) by { assert(keys[9] == "on_the_pad"@); }
    let v = bundle_value(b);
    assert(v == JsonV::Object(f10));
    assert(version_of(v) == 1);
    assert(text_or_empty(v, "kind"@) == KIND@);
    assert(text_or_empty(v, "name"@) == b.name);
    if b.fonts.len() == 0 {
        assert(b.fonts =~= Seq::<(Seq<char>, JsonV)>::empty());
    }
    if b.endpoints.len() == 0 {
        assert(b.endpoints =~= Seq::<(Seq<char>, JsonV)>::empty());
    }
    if b.values.len() == 0 {
        assert(b.values =~= Seq::<(Seq<char>, JsonV)>::empty());
    }
    assert(part_of(v, "fonts"@) == b.fonts);
    assert(part_of(v, "endpoints"@) == b.endpoints);
    assert(part_of(v, "values"@) == b.values);
    match b.theme {
        Some(t) => {
            assert(seq![t][0] == t);
        },
        None => {},
    }
}

/// Fields with each of these items set in turn.
pub open spec fn put_all(f: Seq<(Seq<char>, JsonV)>, items: Seq<(Seq<char>, JsonV)>) -> Seq<(Seq<char>, JsonV)>
    decreases items.len(),
{
    if items.len() == 0 {
        f
    } else {
        field_put(put_all(f, items.drop_last()), items.last().0, items.last().1)
    }
}

/// An endpoint's body as it travels: an object with its token slot emptied; anything else as it is.
pub open spec fn blank_token(body: JsonV) -> JsonV {
    match body {
        JsonV::Object(f) => JsonV::Object(field_put(f, "token"@, JsonV::Str(Seq::empty()))),
        other => other,
    }
}

/// The body this machine declares for an endpoint, or an empty object when it declares none.
pub open spec fn declared_body(declared: JsonV, name: Seq<char>) -> JsonV {
    match jget(declared, name) {
        Some(b) => b,
        None => JsonV::Object(Seq::empty()),
    }
}

/// The endpoints an applet uses, each with the body this machine declares for it and its token slot emptied.
pub open spec fn endpoint_bodies(declared: JsonV, names: Seq<Seq<char>>) -> Seq<(Seq<char>, JsonV)> {
    names.map_values(|n: Seq<char>| (n, blank_token(declared_body(declared, n))))
}

/// The values of the user's own among these names, each with what it reads.
pub open spec fn own_values(own: JsonV, names: Seq<Seq<char>>) -> Seq<(Seq<char>, JsonV)>
    decreases names.len(),
{
    if names.len() == 0 {
        Seq::empty()
    } else {
        let before = own_values(own, names.drop_last());
        match jget(own, names.last()) {
            Some(v) => before.push((names.last(), v)),
            None => before,
        }
    }
}

/// Whether a list of the pad's screens names this applet.
pub open spec fn walks_to(enabled: Option<Seq<JsonV>>, name: Seq<char>) -> bool {
    match enabled {
        Some(items) => exists|i: int| 0 <= i < items.len() && jstr(#[trigger] items[i]) == Some("applet:"@ + name),
        None => false,
    }
}

/// The list of screens the pad walks, from what `visuals.json` holds.
pub open spec fn enabled_of(visuals: Option<JsonV>) -> Option<Seq<JsonV>> {
    match visuals {
        Some(v) => jget_array(v, "enabled"@),
        None => None,
    }
}

/// What a bundle holds once its parts are read: the applet and its pictures as read; each font that was read,
/// by name; the theme as read; each endpoint the applet uses with its token slot empty; each value of the
/// user's own that a bare resource names; and whether the pad's list of screens names it.
pub open spec fn bundle_built(
    name: Seq<char>,
    applet: JsonV,
    pictures: Option<JsonV>,
    fonts: Seq<(Seq<char>, JsonV)>,
    theme: Option<(Seq<char>, JsonV)>,
    declared: JsonV,
    own: JsonV,
    visuals: Option<JsonV>,
) -> BundleV {
    BundleV {
        name,
        applet,
        pictures,
        fonts: put_all(Seq::empty(), fonts),
        theme,
        endpoints: put_all(Seq::empty(), endpoint_bodies(declared, endpoints_used_of(applet))),
        values: put_all(Seq::empty(), own_values(own, bare_names_of(applet))),
        on_the_pad: walks_to(enabled_of(visuals), name),
    }
}

/// Whether the pad's list of screens names this applet.
pub fn pad_walks_to(visuals: Option<&Json>, name: &str) -> (r: bool)
    ensures
        r == walks_to(enabled_of(opt_ref(visuals)), name@),
{
    let want = join2("applet:", name);
    match visuals {
        Some(v) => match v.get("enabled") {
            Some(e) => match e.as_array() {
                Some(items) => {
                    proof {
                        crate::json::lemma_items_view(items@);
                    }
                    let mut i: usize = 0;
                    while i < items.len()
                        invariant
                            i <= items.len(),
                            want@ == "applet:"@ + name@,
                            enabled_of(opt_ref(visuals)) == Some(crate::json::items_view(items@)),
                            forall|k: int| 0 <= k < i ==> jstr(#[trigger] items@[k]@) != Some(want@),
                        decreases items.len() - i,
                    {
                        match items[i].as_str() {
                            Some(t) => {
                                if same_text(t.as_str(), want.as_str()) {
                                    proof {
                                        crate::json::lemma_items_view(items@);
                                        let iv = crate::json::items_view(items@);
                                        assert(iv[i as int] == items@[i as int]@);
                                        assert(jstr(iv[i as int]) == Some("applet:"@ + name@));
                                        assert(enabled_of(opt_ref(visuals)) == Some(iv));
                                    }
                                    return true;
                                }
                            },
                            None => {},
                        }
                        i += 1;
                    }
                    proof {
                        crate::json::lemma_items_view(items@);
                        let iv = crate::json::items_view(items@);
                        assert forall|k: int| 0 <= k < iv.len() implies jstr(#[trigger] iv[k]) != Some(want@) by {
                            assert(iv[k] == items@[k]@);
                        }
                    }
                    false
                },
                None => false,
            },
            None => false,
        },
        None => false,
    }
}

/// Put an applet and what was read beside it into one bundle: the part of packing an applet that decides what
/// goes in. `fonts` is each font the applet names that was read, with its body, in the order the applet names
/// them; `theme` is the theme it wears, when that was read; `declared` is this machine's endpoints file, `own`
/// its file of the user's own values, and `visuals` its list of what the pad walks, when that was read.
pub fn assemble(
    name: &str,
    applet: Json,
    pictures: Option<Json>,
    fonts: &Vec<(String, Json)>,
    theme: Option<(String, Json)>,
    declared: &Json,
    own: &Json,
    visuals: Option<&Json>,
) -> (r: Bundle)
    ensures
        r@ == bundle_built(
            name@,
            applet@,
            opt_json(pictures),
            fields_view(fonts@),
            match theme {
                Some(t) => Some((t.0@, t.1@)),
                None => None,
            },
            declared@,
            own@,
            opt_ref(visuals),
        ),
{
    let mut font_map: Vec<(String, Json)> = Vec::new();
    let mut i: usize = 0;
    proof {
        lemma_fields_view(fonts@);
    }
    while i < fonts.len()
        invariant
            i <= fonts.len(),
            fields_view(font_map@) == put_all(Seq::empty(), fields_view(fonts@).subrange(0, i as int)),
        decreases fonts.len() - i,
    {
        proof {
            lemma_fields_view(fonts@);
            let t = fields_view(fonts@).subrange(0, i + 1);
            assert(t.drop_last() =~= fields_view(fonts@).subrange(0, i as int));
            assert(t.last() == (fonts@[i as int].0@, fonts@[i as int].1@));
        }
        fields_put(&mut font_map, owned(fonts[i].0.as_str()), fonts[i].1.deep_clone());
        i += 1;
    }
    proof {
        assert(fields_view(fonts@).subrange(0, fonts@.len() as int) =~= fields_view(fonts@));
    }
    let used = endpoints_used(&applet);
    let ghost used_names = endpoints_used_of(applet@);
    let mut endpoint_map: Vec<(String, Json)> = Vec::new();
    let mut j: usize = 0;
    while j < used.len()
        invariant
            texts(used@) == used_names,
            j <= used.len(),
            fields_view(endpoint_map@) == put_all(
                Seq::empty(),
                endpoint_bodies(declared@, used_names).subrange(0, j as int),
            ),
        decreases used.len() - j,
    {
        proof {
            let t = endpoint_bodies(declared@, used_names).subrange(0, j + 1);
            assert(t.drop_last() =~= endpoint_bodies(declared@, used_names).subrange(0, j as int));
            assert(used_names[j as int] == used@[j as int]@);
        }
        let mut body = match declared.get(used[j].as_str()) {
            Some(b) => b.deep_clone(),
            None => Json::empty_object(),
        };
        if body.is_object() {
            body.set(owned("token"), Json::Str(String::new()));
        }
        fields_put(&mut endpoint_map, owned(used[j].as_str()), body);
        j += 1;
    }
    proof {
        assert(endpoint_bodies(declared@, used_names).subrange(0, used@.len() as int) =~= endpoint_bodies(
            declared@,
            used_names,
        ));
    }
    let bare = bare_names(&applet);
    let ghost bare_list = bare_names_of(applet@);
    let mut value_map: Vec<(String, Json)> = Vec::new();
    let mut k: usize = 0;
    let ghost got: Seq<(Seq<char>, JsonV)> = Seq::empty();
    while k < bare.len()
        invariant
            texts(bare@) == bare_list,
            k <= bare.len(),
            fields_view(value_map@) == put_all(Seq::empty(), own_values(own@, bare_list.subrange(0, k as int))),
        decreases bare.len() - k,
    {
        proof {
            let t = bare_list.subrange(0, k + 1);
            assert(t.drop_last() =~= bare_list.subrange(0, k as int));
            assert(t.last() == bare@[k as int]@);
        }
        match own.get(bare[k].as_str()) {
            Some(spec) => {
                let ghost before = own_values(own@, bare_list.subrange(0, k as int));
                fields_put(&mut value_map, owned(bare[k].as_str()), spec.deep_clone());
                proof {
                    let after = own_values(own@, bare_list.subrange(0, k + 1));
                    assert(after == before.push((bare@[k as int]@, spec@)));
                    assert(after.drop_last() =~= before);
                }
            },
            None => {},
        }
        k += 1;
    }
    proof {
        assert(bare_list.subrange(0, bare@.len() as int) =~= bare_list);
    }
    let on_the_pad = pad_walks_to(visuals, name);
    Bundle {
        name: owned(name),
        applet,
        pictures,
        fonts: font_map,
        theme,
        endpoints: endpoint_map,
        values: value_map,
        on_the_pad,
    }
}

/// A body whose token slot, when it is an object, is empty.
pub open spec fn token_empty(body: JsonV) -> bool {
    jobject(body) is Some ==> jget(body, "token"@) == Some(JsonV::Str(Seq::empty()))
}

proof fn lemma_put_keeps_tokens_empty(f: Seq<(Seq<char>, JsonV)>, k: Seq<char>, v: JsonV)
    requires
        forall|i: int| 0 <= i < f.len() ==> token_empty(#[trigger] f[i].1),
        token_empty(v),
    ensures
        forall|i: int| 0 <= i < field_put(f, k, v).len() ==> token_empty(#[trigger] field_put(f, k, v)[i].1),
    decreases f.len(),
{
    let p = field_put(f, k, v);
    if f.len() == 0 {
        assert(p == seq![(k, v)]);
    } else if f[0].0 == k {
        assert(p == f.update(0, (k, v)));
    } else if text_before(k, f[0].0) {
        assert(p == seq![(k, v)] + f);
        assert forall|i: int| 0 <= i < p.len() implies token_empty(#[trigger] p[i].1) by {
            if i > 0 {
                assert(p[i] == f[i - 1]);
            }
        }
    } else {
        let rest = f.subrange(1, f.len() as int);
        assert forall|i: int| 0 <= i < rest.len() implies token_empty(#[trigger] rest[i].1) by {
            assert(rest[i] == f[i + 1]);
        }
        lemma_put_keeps_tokens_empty(rest, k, v);
        let pr = field_put(rest, k, v);
        assert(p == seq![f[0]] + pr);
        assert forall|i: int| 0 <= i < p.len() implies token_empty(#[trigger] p[i].1) by {
            if i > 0 {
                assert(p[i] == pr[i - 1]);
            }
        }
    }
}

proof fn lemma_put_all_keeps_tokens_empty(items: Seq<(Seq<char>, JsonV)>)
    requires
        forall|i: int| 0 <= i < items.len() ==> token_empty(#[trigger] items[i].1),
    ensures
        forall|i: int| 0 <= i < put_all(Seq::empty(), items).len() ==> token_empty(
            #[trigger] put_all(Seq::empty(), items)[i].1,
        ),
    decreases items.len(),
{
    if items.len() > 0 {
        let init = items.drop_last();
        assert forall|i: int| 0 <= i < init.len() implies token_empty(#[trigger] init[i].1) by {
            assert(init[i] == items[i]);
        }
        lemma_put_all_keeps_tokens_empty(init);
        assert(token_empty(items[items.len() - 1].1));
        lemma_put_keeps_tokens_empty(put_all(Seq::empty(), init), items.last().0, items.last().1);
    }
}

proof fn lemma_put_all_sorted(f: Seq<(Seq<char>, JsonV)>, items: Seq<(Seq<char>, JsonV)>)
    requires
        crate::json::keys_sorted(f),
    ensures
        crate::json::keys_sorted(put_all(f, items)),
    decreases items.len(),
{
    if items.len() > 0 {
        lemma_put_all_sorted(f, items.drop_last());
        crate::json::lemma_put_keeps_sorted(put_all(f, items.drop_last()), items.last().0, items.last().1);
    }
}

/// A packed bundle holds its fonts, its endpoints and the values of the user's own each under its name once, in
/// the order of their names, whatever order the applet names them in.
pub proof fn a_packed_bundle_lists_each_part_once_by_name(
    name: Seq<char>,
    applet: JsonV,
    pictures: Option<JsonV>,
    fonts: Seq<(Seq<char>, JsonV)>,
    theme: Option<(Seq<char>, JsonV)>,
    declared: JsonV,
    own: JsonV,
    visuals: Option<JsonV>,
)
    ensures
        crate::json::keys_sorted(bundle_built(name, applet, pictures, fonts, theme, declared, own, visuals).fonts),
        crate::json::keys_sorted(
            bundle_built(name, applet, pictures, fonts, theme, declared, own, visuals).endpoints,
        ),
        crate::json::keys_sorted(bundle_built(name, applet, pictures, fonts, theme, declared, own, visuals).values),
{
    lemma_put_all_sorted(Seq::empty(), fonts);
    lemma_put_all_sorted(Seq::empty(), endpoint_bodies(declared, endpoints_used_of(applet)));
    lemma_put_all_sorted(Seq::empty(), own_values(own, bare_names_of(applet)));
}

proof fn lemma_endpoint_bodies_get(declared: JsonV, names: Seq<Seq<char>>, n: Seq<char>)
    ensures
        field_get(put_all(Seq::empty(), endpoint_bodies(declared, names)), n) == (if names.contains(n) {
            Some(blank_token(declared_body(declared, n)))
        } else {
            None
        }),
    decreases names.len(),
{
    if names.len() > 0 {
        let items = endpoint_bodies(declared, names);
        let init = names.drop_last();
        assert(items.drop_last() =~= endpoint_bodies(declared, init));
        lemma_endpoint_bodies_get(declared, init, n);
        let last = names.last();
        crate::json::lemma_get_put(
            put_all(Seq::empty(), items.drop_last()),
            last,
            blank_token(declared_body(declared, last)),
            n,
        );
        assert(names =~= init.push(last));
        if init.contains(n) {
            let k = choose|k: int| 0 <= k < init.len() && init[k] == n;
            assert(names[k] == n);
        }
        if names.contains(n) && n != last {
            let k = choose|k: int| 0 <= k < names.len() && names[k] == n;
            assert(k < init.len());
            assert(init[k] == n);
        }
        if n == last {
            assert(names[names.len() - 1] == n);
        }
    }
}

proof fn lemma_own_values_get(own: JsonV, names: Seq<Seq<char>>, n: Seq<char>)
    ensures
        field_get(put_all(Seq::empty(), own_values(own, names)), n) == (if names.contains(n) {
            jget(own, n)
        } else {
            None
        }),
    decreases names.len(),
{
    if names.len() > 0 {
        let init = names.drop_last();
        let last = names.last();
        lemma_own_values_get(own, init, n);
        assert(names =~= init.push(last));
        if init.contains(n) {
            let k = choose|k: int| 0 <= k < init.len() && init[k] == n;
            assert(names[k] == n);
        }
        if names.contains(n) && n != last {
            let k = choose|k: int| 0 <= k < names.len() && names[k] == n;
            assert(k < init.len());
            assert(init[k] == n);
        }
        if n == last {
            assert(names[names.len() - 1] == n);
        }
        match jget(own, last) {
            Some(v) => {
                let before = own_values(own, init);
                assert(own_values(own, names) == before.push((last, v)));
                assert(before.push((last, v)).drop_last() =~= before);
                crate::json::lemma_get_put(put_all(Seq::empty(), before), last, v, n);
            },
            None => {},
        }
    }
}

/// What a packed bundle carries of the endpoints and the user's own values: an endpoint exactly when the applet
/// reads through it, with the body this machine declares for it (an empty object when it declares none) and the
/// token slot emptied; and a value of the user's own exactly when a bare resource names it and this machine has
/// it, as this machine has it. Nothing else travels.
pub proof fn a_packed_bundle_carries_what_the_applet_reads(
    name: Seq<char>,
    applet: JsonV,
    pictures: Option<JsonV>,
    fonts: Seq<(Seq<char>, JsonV)>,
    theme: Option<(Seq<char>, JsonV)>,
    declared: JsonV,
    own: JsonV,
    visuals: Option<JsonV>,
    n: Seq<char>,
)
    ensures
        field_get(bundle_built(name, applet, pictures, fonts, theme, declared, own, visuals).endpoints, n) == (if endpoints_used_of(applet).contains(n) {
            Some(blank_token(declared_body(declared, n)))
        } else {
            None
        }),
        field_get(bundle_built(name, applet, pictures, fonts, theme, declared, own, visuals).values, n) == (if bare_names_of(
            applet,
        ).contains(n) {
            jget(own, n)
        } else {
            None
        }),
{
    lemma_endpoint_bodies_get(declared, endpoints_used_of(applet), n);
    lemma_own_values_get(own, bare_names_of(applet), n);
}

/// A packed bundle is on the pad exactly when the pad's list of screens, `enabled` in the visuals file, holds
/// `applet:<name>` somewhere in it - first, last or between, whatever else the list holds.
pub proof fn a_packed_bundle_is_on_the_pad_when_the_walk_names_it(
    name: Seq<char>,
    applet: JsonV,
    pictures: Option<JsonV>,
    fonts: Seq<(Seq<char>, JsonV)>,
    theme: Option<(Seq<char>, JsonV)>,
    declared: JsonV,
    own: JsonV,
    visuals: Option<JsonV>,
)
    ensures
        bundle_built(name, applet, pictures, fonts, theme, declared, own, visuals).on_the_pad == (visuals matches Some(
            v,
        ) && (jget_array(v, "enabled"@) matches Some(items) && exists|i: int|
            0 <= i < items.len() && #[trigger] items[i] == JsonV::Str("applet:"@ + name))),
{
    let want = "applet:"@ + name;
    match visuals {
        Some(v) => match jget_array(v, "enabled"@) {
            Some(items) => {
                if exists|i: int| 0 <= i < items.len() && #[trigger] items[i] == JsonV::Str(want) {
                    let i = choose|i: int| 0 <= i < items.len() && #[trigger] items[i] == JsonV::Str(want);
                    assert(jstr(items[i]) == Some(want));
                }
                if exists|i: int| 0 <= i < items.len() && jstr(#[trigger] items[i]) == Some(want) {
                    let i = choose|i: int| 0 <= i < items.len() && jstr(#[trigger] items[i]) == Some(want);
                    assert(items[i] == JsonV::Str(want));
                }
            },
            None => {},
        },
        None => {},
    }
}

/// A token never travels: every endpoint a packed bundle carries has its token slot empty, whatever this
/// machine's endpoints file holds.
pub proof fn a_token_never_travels(
    name: Seq<char>,
    applet: JsonV,
    pictures: Option<JsonV>,
    fonts: Seq<(Seq<char>, JsonV)>,
    theme: Option<(Seq<char>, JsonV)>,
    declared: JsonV,
    own: JsonV,
    visuals: Option<JsonV>,
)
    ensures
        forall|i: int|
            0 <= i < bundle_built(name, applet, pictures, fonts, theme, declared, own, visuals).endpoints.len()
                ==> token_empty(
                #[trigger] bundle_built(name, applet, pictures, fonts, theme, declared, own, visuals).endpoints[i].1,
            ),
{
    let items = endpoint_bodies(declared, endpoints_used_of(applet));
    assert forall|i: int| 0 <= i < items.len() implies token_empty(#[trigger] items[i].1) by {
        let body = declared_body(declared, endpoints_used_of(applet)[i]);
        match body {
            JsonV::Object(f) => {
                crate::json::lemma_get_put(f, "token"@, JsonV::Str(Seq::empty()), "token"@);
            },
            _ => {},
        }
    }
    lemma_put_all_keeps_tokens_empty(items);
}

/// The file an applet of this name is kept in, inside the applets folder.
pub open spec fn applet_file(name: Seq<char>) -> Seq<char> {
    name + ".json"@
}

/// Whether a name is free among the entries of the applets folder: no entry is that name's file.
pub open spec fn free_among(files: Seq<Seq<char>>, name: Seq<char>) -> bool {
    !files.contains(applet_file(name))
}

/// Whether an applet of this name is already here, given the names of the entries in the applets folder: free
/// exactly when none of them is `<name>.json`.
pub fn name_is_free(files: &Vec<String>, name: &str) -> (r: bool)
    ensures
        r == free_among(texts(files@), name@),
{
    let file = join2(name, ".json");
    let here = contains_text(files, file.as_str());
    proof {
        if here {
            let i = choose|i: int| 0 <= i < files@.len() && #[trigger] files@[i]@ == file@;
            assert(texts(files@)[i] == applet_file(name@));
        }
        if texts(files@).contains(applet_file(name@)) {
            let i = choose|i: int| 0 <= i < texts(files@).len() && texts(files@)[i] == applet_file(name@);
            assert(files@[i]@ == file@);
        }
    }
    !here
}

/// The name a copy would take with this number: `weather-2`.
pub open spec fn numbered(name: Seq<char>, n: nat) -> Seq<char> {
    name + "-"@ + decimal(n)
}

/// The first free name after this one among the entries of the applets folder: the copy's number is the
/// smallest from 2 on whose file is not there.
pub open spec fn first_free(files: Seq<Seq<char>>, name: Seq<char>, n: nat) -> bool {
    &&& 2 <= n
    &&& free_among(files, numbered(name, n))
    &&& forall|j: nat| 2 <= j < n ==> !free_among(files, #[trigger] numbered(name, j))
}

proof fn lemma_numbered_injective(name: Seq<char>, a: nat, b: nat)
    requires
        applet_file(numbered(name, a)) == applet_file(numbered(name, b)),
    ensures
        a == b,
{
    reveal_strlit("-");
    reveal_strlit(".json");
    let x = applet_file(numbered(name, a));
    let y = applet_file(numbered(name, b));
    let lo = name.len() + 1;
    assert(x.subrange(lo as int, x.len() - 5) =~= decimal(a));
    assert(y.subrange(lo as int, y.len() - 5) =~= decimal(b));
    crate::macros::graph::lemma_decimal_injective(a, b);
}

/// When every number in `lo .. hi` gives a name whose file is there, there are at least that many entries.
proof fn lemma_copies_fit(files: Seq<Seq<char>>, name: Seq<char>, lo: int, hi: int)
    requires
        0 <= lo <= hi,
        forall|j: int| lo <= j < hi ==> !free_among(files, #[trigger] numbered(name, j as nat)),
    ensures
        hi - lo <= files.len(),
{
    let x = vstd::set_lib::set_int_range(lo, hi);
    let f = |j: int| choose|i: int| 0 <= i < files.len() && files[i] == applet_file(numbered(name, j as nat));
    vstd::set_lib::lemma_int_range(lo, hi);
    vstd::set_lib::lemma_int_range(0, files.len() as int);
    assert forall|j: int| x.contains(j) implies 0 <= #[trigger] f(j) < files.len() && files[f(j)] == applet_file(
        numbered(name, j as nat),
    ) by {
        assert(!free_among(files, numbered(name, j as nat)));
    }
    assert(vstd::relations::injective_on(f, x)) by {
        assert forall|a: int, b: int| x.contains(a) && x.contains(b) && #[trigger] f(a) == #[trigger] f(b) implies a
            == b by {
            lemma_numbered_injective(name, a as nat, b as nat);
        }
    }
    let y = x.map(f);
    vstd::set_lib::lemma_map_size(x, y, f);
    assert(y.subset_of(vstd::set_lib::set_int_range(0, files.len() as int)));
    vstd::set_lib::lemma_len_subset(y, vstd::set_lib::set_int_range(0, files.len() as int));
}

/// The first free name after this one: `weather-2`, `weather-3`, and so on, given the names of the entries in the
/// applets folder. There always is one, since the folder holds only so many.
pub fn a_free_name(files: &Vec<String>, name: &str) -> (r: String)
    requires
        files@.len() + 2 <= u64::MAX,
    ensures
        exists|n: nat| first_free(texts(files@), name@, n) && r@ == numbered(name@, n),
{
    let ghost taken = texts(files@);
    let count = files.len() as u64;
    let mut number: u64 = 2;
    loop
        invariant
            taken == texts(files@),
            count == files@.len(),
            taken.len() == count,
            count + 2 <= u64::MAX,
            2 <= number <= count + 2,
            forall|j: nat| 2 <= j < number ==> !free_among(taken, #[trigger] numbered(name@, j)),
        decreases count + 2 - number,
    {
        let digits = decimal_text(number);
        let candidate = join3(name, "-", digits.as_str());
        proof {
            assert(candidate@ == numbered(name@, number as nat));
        }
        if name_is_free(files, candidate.as_str()) {
            proof {
                assert(first_free(taken, name@, number as nat));
            }
            return candidate;
        }
        proof {
            assert forall|j: int| 2 <= j < number + 1 implies !free_among(
                taken,
                #[trigger] numbered(name@, j as nat),
            ) by {
                if j < number {
                    assert(!free_among(taken, numbered(name@, j as nat)));
                }
            }
            lemma_copies_fit(taken, name@, 2, number + 1);
        }
        number += 1;
    }
}

/// The applet as it is written under a name: its own `name` field, when it has one, says that name.
pub open spec fn renamed_applet(applet: JsonV, name: Seq<char>) -> JsonV {
    if jget(applet, "name"@) is Some {
        crate::json::jset(applet, "name"@, JsonV::Str(name))
    } else {
        applet
    }
}

/// The applet as it is written under a name: a copy keeps calling itself what it was called otherwise.
pub fn rename_applet(applet: &Json, name: &str) -> (r: Json)
    ensures
        r@ == renamed_applet(applet@, name@),
{
    let mut copy = applet.deep_clone();
    if applet.get("name").is_some() {
        copy.set(owned("name"), Json::Str(owned(name)));
    }
    copy
}

/// Values of yours with a bundle's merged in: each one it brings that you do not have is added, in its order,
/// and named; one you have already is left as it is.
pub open spec fn merged(f: Seq<(Seq<char>, JsonV)>, items: Seq<(Seq<char>, JsonV)>) -> (
    Seq<(Seq<char>, JsonV)>,
    Seq<Seq<char>>,
)
    decreases items.len(),
{
    if items.len() == 0 {
        (f, Seq::empty())
    } else {
        let before = merged(f, items.drop_last());
        let k = items.last().0;
        if field_get(before.0, k) is Some {
            before
        } else {
            (field_put(before.0, k, items.last().1), before.1.push(k))
        }
    }
}

/// What you have wins: merging a bundle's values in leaves each of yours as it was, and after it every value the
/// bundle brings has one.
pub proof fn what_you_have_wins(f: Seq<(Seq<char>, JsonV)>, items: Seq<(Seq<char>, JsonV)>)
    ensures
        forall|k: Seq<char>| #[trigger] field_get(f, k) is Some ==> field_get(merged(f, items).0, k) == field_get(f, k),
        forall|i: int| 0 <= i < items.len() ==> field_get(merged(f, items).0, #[trigger] items[i].0) is Some,
    decreases items.len(),
{
    if items.len() > 0 {
        let init = items.drop_last();
        what_you_have_wins(f, init);
        let before = merged(f, init);
        let k = items.last().0;
        if field_get(before.0, k) is None {
            assert forall|k2: Seq<char>| #[trigger] field_get(f, k2) is Some implies field_get(merged(f, items).0, k2)
                == field_get(f, k2) by {
                crate::json::lemma_get_put(before.0, k, items.last().1, k2);
            }
            assert forall|i: int| 0 <= i < items.len() implies field_get(merged(f, items).0, #[trigger] items[i].0) is Some by {
                crate::json::lemma_get_put(before.0, k, items.last().1, items[i].0);
                if i < init.len() {
                    assert(init[i] == items[i]);
                }
            }
        } else {
            assert forall|i: int| 0 <= i < items.len() implies field_get(merged(f, items).0, #[trigger] items[i].0) is Some by {
                if i < init.len() {
                    assert(init[i] == items[i]);
                }
            }
        }
    }
}

/// The parts of a bundle that importing it writes: each one this machine does not have already, in order.
pub open spec fn parts_written(wanted: Seq<(Seq<char>, JsonV)>, here: Seq<Seq<char>>) -> Seq<(Seq<char>, JsonV)>
    decreases wanted.len(),
{
    if wanted.len() == 0 {
        Seq::empty()
    } else {
        let before = parts_written(wanted.drop_last(), here);
        if here.contains(wanted.last().0) {
            before
        } else {
            before.push(wanted.last())
        }
    }
}

/// What importing says of each such part, in order: `font runes` for one written, `font runes kept, you already
/// have one` for one this machine has.
pub open spec fn part_notes(names: Seq<Seq<char>>, here: Seq<Seq<char>>, what: Seq<char>) -> Seq<Seq<char>>
    decreases names.len(),
{
    if names.len() == 0 {
        Seq::empty()
    } else {
        part_notes(names.drop_last(), here, what).push(
            if here.contains(names.last()) {
                what + " "@ + names.last() + " kept, you already have one"@
            } else {
                what + " "@ + names.last()
            },
        )
    }
}

/// What you have wins: importing writes no font or theme of a name this machine has, and writes every one of the
/// bundle's that it does not have.
pub proof fn a_font_or_theme_you_have_is_kept(wanted: Seq<(Seq<char>, JsonV)>, here: Seq<Seq<char>>)
    ensures
        forall|i: int|
            0 <= i < parts_written(wanted, here).len() ==> !here.contains(
                (#[trigger] parts_written(wanted, here)[i]).0,
            ),
        forall|j: int|
            0 <= j < wanted.len() && !here.contains(#[trigger] wanted[j].0) ==> parts_written(wanted, here).contains(
                wanted[j],
            ),
    decreases wanted.len(),
{
    if wanted.len() > 0 {
        let init = wanted.drop_last();
        a_font_or_theme_you_have_is_kept(init, here);
        let before = parts_written(init, here);
        let after = parts_written(wanted, here);
        assert forall|i: int| 0 <= i < after.len() implies !here.contains((#[trigger] after[i]).0) by {
            if i < before.len() {
                assert(after[i] == before[i]);
            }
        }
        assert forall|j: int| 0 <= j < wanted.len() && !here.contains(#[trigger] wanted[j].0) implies after.contains(
            wanted[j],
        ) by {
            if j < init.len() {
                assert(init[j] == wanted[j]);
                assert(before.contains(init[j]));
                let k = choose|k: int| 0 <= k < before.len() && before[k] == init[j];
                if !here.contains(wanted.last().0) {
                    assert(after[k] == before[k]);
                }
            } else {
                assert(after[after.len() - 1] == wanted.last());
            }
        }
    }
}

/// Which of a bundle's fonts, or its theme, importing it writes, and what it says of each: what you have wins,
/// so a part of a name this machine has already is kept as it is. `here` is the names this machine has of that
/// kind, `what` the word for it.
pub fn parts_to_write(wanted: &Vec<(String, Json)>, here: &Vec<String>, what: &str) -> (r: (
    Vec<(String, Json)>,
    Vec<String>,
))
    ensures
        fields_view(r.0@) == parts_written(fields_view(wanted@), texts(here@)),
        texts(r.1@) == part_notes(crate::json::field_keys(fields_view(wanted@)), texts(here@), what@),
{
    let mut out: Vec<(String, Json)> = Vec::new();
    let mut notes: Vec<String> = Vec::new();
    let ghost w = fields_view(wanted@);
    let ghost keys = crate::json::field_keys(w);
    let mut i: usize = 0;
    proof {
        lemma_fields_view(wanted@);
        assert(fields_view(out@) =~= Seq::<(Seq<char>, JsonV)>::empty());
        assert(texts(notes@) =~= Seq::<Seq<char>>::empty());
    }
    while i < wanted.len()
        invariant
            i <= wanted.len(),
            w == fields_view(wanted@),
            keys == crate::json::field_keys(w),
            w.len() == wanted@.len(),
            forall|k: int| 0 <= k < w.len() ==> #[trigger] w[k] == (wanted@[k].0@, wanted@[k].1@),
            fields_view(out@) == parts_written(w.subrange(0, i as int), texts(here@)),
            texts(notes@) == part_notes(keys.subrange(0, i as int), texts(here@), what@),
        decreases wanted.len() - i,
    {
        proof {
            assert(w.subrange(0, i + 1).drop_last() =~= w.subrange(0, i as int));
            assert(keys.subrange(0, i + 1).drop_last() =~= keys.subrange(0, i as int));
            assert(w.subrange(0, i + 1).last() == w[i as int]);
            assert(keys.subrange(0, i + 1).last() == wanted@[i as int].0@);
        }
        let name = wanted[i].0.as_str();
        let have = contains_text(here, name);
        proof {
            if have {
                let k = choose|k: int| 0 <= k < here@.len() && #[trigger] here@[k]@ == name@;
                assert(texts(here@)[k] == name@);
            }
            if texts(here@).contains(name@) {
                let k = choose|k: int| 0 <= k < texts(here@).len() && texts(here@)[k] == name@;
                assert(here@[k]@ == name@);
            }
        }
        let note = if have {
            let head = join3(what, " ", name);
            join2(head.as_str(), " kept, you already have one")
        } else {
            let ghost old_out = out@;
            let entry = (owned(name), wanted[i].1.deep_clone());
            out.push(entry);
            proof {
                lemma_fields_view(out@);
                lemma_fields_view(old_out);
                assert(out@ == old_out.push(entry));
                assert(fields_view(out@) =~= fields_view(old_out).push(w[i as int]));
            }
            join3(what, " ", name)
        };
        let ghost before_notes = notes@;
        notes.push(note);
        proof {
            crate::text::lemma_texts_push(before_notes, notes@.last());
            assert(notes@ == before_notes.push(notes@.last()));
        }
        i += 1;
    }
    proof {
        assert(w.subrange(0, wanted@.len() as int) =~= w);
        assert(keys.subrange(0, wanted@.len() as int) =~= keys);
    }
    (out, notes)
}

/// Values of yours with a bundle's merged in, and the names of those added. `own` is this machine's file of
/// them, which counts as none when it is not an object.
pub fn merge_values(own: Option<&Json>, incoming: &Vec<(String, Json)>) -> (r: (Vec<(String, Json)>, Vec<String>))
    ensures
        fields_view(r.0@) == merged(
            match opt_ref(own) {
                Some(JsonV::Object(f)) => f,
                _ => Seq::empty(),
            },
            fields_view(incoming@),
        ).0,
        texts(r.1@) == merged(
            match opt_ref(own) {
                Some(JsonV::Object(f)) => f,
                _ => Seq::empty(),
            },
            fields_view(incoming@),
        ).1,
{
    let ghost start = match opt_ref(own) {
        Some(JsonV::Object(f)) => f,
        _ => Seq::empty(),
    };
    let mut out: Vec<(String, Json)> = match own {
        Some(Json::Object(f)) => copy_fields(f),
        _ => {
            let e: Vec<(String, Json)> = Vec::new();
            proof {
                assert(fields_view(e@) =~= Seq::<(Seq<char>, JsonV)>::empty());
            }
            e
        },
    };
    let mut added: Vec<String> = Vec::new();
    proof {
        lemma_fields_view(incoming@);
        assert(texts(added@) =~= Seq::<Seq<char>>::empty());
        assert(fields_view(incoming@).subrange(0, 0) =~= Seq::<(Seq<char>, JsonV)>::empty());
    }
    let mut i: usize = 0;
    while i < incoming.len()
        invariant
            i <= incoming.len(),
            fields_view(out@) == merged(start, fields_view(incoming@).subrange(0, i as int)).0,
            texts(added@) == merged(start, fields_view(incoming@).subrange(0, i as int)).1,
        decreases incoming.len() - i,
    {
        proof {
            lemma_fields_view(incoming@);
            let t = fields_view(incoming@).subrange(0, i + 1);
            assert(t.drop_last() =~= fields_view(incoming@).subrange(0, i as int));
            assert(t.last() == (incoming@[i as int].0@, incoming@[i as int].1@));
        }
        let have = crate::json::fields_get(&out, incoming[i].0.as_str()).is_some();
        if !have {
            let ghost before = texts(added@);
            fields_put(&mut out, owned(incoming[i].0.as_str()), incoming[i].1.deep_clone());
            added.push(owned(incoming[i].0.as_str()));
            proof {
                assert(texts(added@) =~= before.push(incoming@[i as int].0@));
            }
        }
        i += 1;
    }
    proof {
        assert(fields_view(incoming@).subrange(0, incoming@.len() as int) =~= fields_view(incoming@));
    }
    (out, added)
}

} // verus!
