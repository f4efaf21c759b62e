//! The theme being edited, as its file's own JSON, and the name a new theme may have.
//!
//! A theme is a file the driver re-reads as it draws, so every change here is one the caller writes at once;
//! a theme that would not read is never changed, because it is the evidence of what is wrong with it.

use vstd::prelude::*;
use crate::json::{jget_str, jobject, jset_inner, Json, JsonV};
use crate::state::widget::field_written;
use crate::text::{alphanumeric, chars_of, debug_char, is_alphanumeric, join3, owned, quoted_char, trim, trimmed};

verus! {

/// What a theme that will not read is told when something is set on it.
pub open spec fn unreadable_theme() -> Seq<char> {
    "this theme will not read, so nothing was written"@
}

/// Set one of the open theme's settings, or take it away for `null`; a theme that is not an object is left as it
/// is, and why is said.
pub fn set_theme(theme: &mut Json, key: &str, value: Json) -> (r: Result<(), String>)
    ensures
        jobject(old(theme)@) is Some ==> r is Ok && final(theme)@ == field_written(old(theme)@, key@, value@),
        jobject(old(theme)@) is None ==> (r matches Err(e) && e@ == unreadable_theme() && final(theme)@ == old(
            theme,
        )@),
{
    if !theme.is_object() {
        return Err(owned("this theme will not read, so nothing was written"));
    }
    if value.is_null() {
        theme.remove(key);
    } else {
        theme.set(owned(key), value);
    }
    Ok(())
}

/// The same, one level down, for `glitch` and `pulse`: the key holds an object of its own, made when it is not
/// there, and a setting set to `null` is taken out of it.
pub fn set_theme_inner(theme: &mut Json, key: &str, inner: &str, value: Json) -> (r: Result<(), String>)
    ensures
        jobject(old(theme)@) is Some ==> r is Ok && final(theme)@ == jset_inner(
            old(theme)@,
            key@,
            inner@,
            if value@ == JsonV::Null {
                None
            } else {
                Some(value@)
            },
        ),
        jobject(old(theme)@) is None ==> (r matches Err(e) && e@ == unreadable_theme() && final(theme)@ == old(
            theme,
        )@),
{
    if !theme.is_object() {
        return Err(owned("this theme will not read, so nothing was written"));
    }
    let written = if value.is_null() {
        None
    } else {
        Some(value)
    };
    theme.set_inner(key, inner, written);
    Ok(())
}

/// One of the open theme's settings, as a word, or nothing when it is not one.
pub fn theme_word(theme: &Json, key: &str) -> (r: String)
    ensures
        r@ == match jget_str(theme@, key@) {
            Some(t) => t,
            None => Seq::empty(),
        },
{
    match theme.get(key) {
        Some(v) => match v.as_str() {
            Some(t) => owned(t.as_str()),
            None => String::new(),
        },
        None => String::new(),
    }
}

/// A character a theme's name may hold: a letter or digit of any script, a space, `-` or `_`.
pub open spec fn theme_name_char(c: char) -> bool {
    alphanumeric(c) || c == ' ' || c == '-' || c == '_'
}

/// The first character of a name that a theme's name may not hold, if there is one.
pub open spec fn first_refused_in_theme(s: Seq<char>) -> Option<char>
    decreases s.len(),
{
    if s.len() == 0 {
        None
    } else if !theme_name_char(s[0]) {
        Some(s[0])
    } else {
        first_refused_in_theme(s.drop_first())
    }
}

/// Why a new theme cannot have this name, or nothing when it can, as far as the name decides: its name is its
/// file's name. Whether a theme of that name is already there is the caller's to ask.
pub open spec fn theme_name_problem(name: Seq<char>) -> Option<Seq<char>> {
    let n = trimmed(name);
    if n.len() == 0 {
        Some("a theme needs a name: it is also its file's name"@)
    } else {
        match first_refused_in_theme(n) {
            Some(c) => Some(
                "a theme's name cannot have "@ + debug_char(c) + " in it: letters, digits, spaces, - and _ only"@,
            ),
            None => None,
        }
    }
}

/// Why a new theme cannot be called `name`, or nothing when it can.
pub fn new_theme_problem(name: &str) -> (r: Option<String>)
    ensures
        r matches Some(p) ==> theme_name_problem(name@) == Some(p@),
        r is None ==> theme_name_problem(name@) is None,
{
    let t = trim(name);
    let chars = chars_of(t.as_str());
    if chars.len() == 0 {
        return Some(owned("a theme needs a name: it is also its file's name"));
    }
    let mut i: usize = 0;
    proof {
        assert(t@.skip(0) =~= t@);
    }
    while i < chars.len()
        invariant
            i <= chars.len(),
            chars@ == t@,
            t@ == trimmed(name@),
            first_refused_in_theme(t@) == first_refused_in_theme(t@.skip(i as int)),
        decreases chars.len() - i,
    {
        let c = chars[i];
        proof {
            assert(t@.skip(i as int).drop_first() =~= t@.skip(i + 1));
        }
        if !(is_alphanumeric(c) || c == ' ' || c == '-' || c == '_') {
            let shown = quoted_char(c);
            return Some(join3(
                "a theme's name cannot have ",
                shown.as_str(),
                " in it: letters, digits, spaces, - and _ only",
            ));
        }
        i += 1;
    }
    proof {
        assert(t@.skip(chars@.len() as int) =~= Seq::<char>::empty());
    }
    None
}

/// What a new theme's file says: every effect it can have, at a setting you can see, because an empty theme
/// and no theme look exactly the same.
pub const FRESH_THEME: &'static str = "{\n  \"frame\": \"none\",\n  \"scanline\": 40,\n  \"glitch\": {\"every\": 6, \"shake\": 1},\n  \"pulse\": {\"on\": 0.5, \"off\": 0.5},\n  \"typewriter\": 12\n}";

} // verus!
