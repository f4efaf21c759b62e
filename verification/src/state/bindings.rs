//! A control's binding as a person reads it back, and what a person types turned into what the bindings file
//! holds.
//!
//! Which key a code is, and whether a text is already an action, are the device's and the map's to say; they are
//! handed in, and what is decided from them is here.

use vstd::prelude::*;
use crate::macros::graph::{parse_u32, parsed_u32, MacroRow};
use crate::text::{
    chars_of, decimal, decimal_text, from_chars, join2, owned, same_text, starts_with, strip_prefix, trim, trimmed,
};

verus! {

/// The text after a prefix, when the text starts with it.
pub open spec fn after_prefix(s: Seq<char>, prefix: Seq<char>) -> Option<Seq<char>> {
    if starts_with(s, prefix) {
        Some(s.subrange(prefix.len() as int, s.len() as int))
    } else {
        None
    }
}

/// The text up to the first comma, or all of it when it has none.
pub open spec fn before_comma(s: Seq<char>) -> Seq<char>
    decreases s.len(),
{
    if s.len() == 0 || s[0] == ',' {
        Seq::empty()
    } else {
        seq![s[0]] + before_comma(s.drop_first())
    }
}

/// The key code a key binding sends: `p,k.<code>`, for a code that fits a key code.
pub open spec fn keycode_in(action: Seq<char>) -> Option<u16> {
    match after_prefix(trimmed(action), "p,k."@) {
        Some(rest) => match parsed_u32(rest) {
            Some(n) => if n <= 65535 {
                Some(n as u16)
            } else {
                None
            },
            None => None,
        },
        None => None,
    }
}

/// The macro a macro binding plays: `m,<id>,...`.
pub open spec fn macro_id_in(action: Seq<char>) -> Option<u32> {
    match after_prefix(trimmed(action), "m,"@) {
        Some(rest) => parsed_u32(before_comma(rest)),
        None => None,
    }
}

/// The name of the first macro with this number, or nothing.
pub open spec fn macro_named(rows: Seq<(u32, Seq<char>)>, id: u32) -> Seq<char>
    decreases rows.len(),
{
    if rows.len() == 0 {
        Seq::empty()
    } else if rows[0].0 == id {
        rows[0].1
    } else {
        macro_named(rows.drop_first(), id)
    }
}

/// What a control is bound to, said the way a person reads it back: a key by its name, or by its code when the
/// keyboard table has no name for it; a macro by its name, or by its number when it has none; `x` as nothing;
/// anything else as it stands.
pub open spec fn bound_label_of(action: Seq<char>, key_name: Option<Seq<char>>, rows: Seq<(u32, Seq<char>)>) -> Seq<
    char,
> {
    let a = trimmed(action);
    if a.len() == 0 {
        "(unbound)"@
    } else {
        match keycode_in(action) {
            Some(code) => match key_name {
                Some(n) => n,
                None => "keycode "@ + decimal(code as nat),
            },
            None => match macro_id_in(action) {
                Some(id) => {
                    let named = macro_named(rows, id);
                    if named.len() == 0 {
                        "macro "@ + decimal(id as nat)
                    } else {
                        named
                    }
                },
                None => if a == "x"@ {
                    "nothing"@
                } else {
                    a
                },
            },
        }
    }
}

/// The code a key binding sends, for looking its name up.
pub fn keycode_of(action: &str) -> (r: Option<u16>)
    ensures
        r == keycode_in(action@),
{
    let a = trim(action);
    match strip_prefix(a.as_str(), "p,k.") {
        Some(rest) => match parse_u32(rest.as_str()) {
            Some(n) => if n <= 65535 {
                Some(n as u16)
            } else {
                None
            },
            None => None,
        },
        None => None,
    }
}

fn first_piece(s: &str) -> (r: String)
    ensures
        r@ == before_comma(s@),
{
    let chars = chars_of(s);
    let mut out: Vec<char> = Vec::new();
    let mut i: usize = 0;
    proof {
        assert(s@.skip(0) =~= s@);
        assert(out@ + before_comma(s@) =~= before_comma(s@));
    }
    while i < chars.len() && chars[i] != ','
        invariant
            i <= chars@.len(),
            chars@ == s@,
            out@ == chars@.subrange(0, i as int),
            forall|k: int| 0 <= k < i ==> chars@[k] != ',',
            before_comma(s@) == out@ + before_comma(s@.skip(i as int)),
        decreases chars.len() - i,
    {
        proof {
            assert(s@.skip(i as int).drop_first() =~= s@.skip(i + 1));
            assert(out@.push(chars@[i as int]) =~= out@ + seq![chars@[i as int]]);
        }
        out.push(chars[i]);
        i += 1;
    }
    proof {
        if i == chars@.len() {
            assert(s@.skip(i as int) =~= Seq::<char>::empty());
        }
    }
    from_chars(&out)
}

/// The name of the first macro with this number, or nothing.
fn name_of_macro(macros: &Vec<MacroRow>, id: u32) -> (r: String)
    ensures
        r@ == macro_named(macros@.map_values(|m: MacroRow| (m.id, m.name@)), id),
{
    let ghost rows = macros@.map_values(|m: MacroRow| (m.id, m.name@));
    let mut i: usize = 0;
    proof {
        assert(rows.skip(0) =~= rows);
    }
    while i < macros.len()
        invariant
            i <= macros@.len(),
            rows == macros@.map_values(|m: MacroRow| (m.id, m.name@)),
            macro_named(rows, id) == macro_named(rows.skip(i as int), id),
        decreases macros.len() - i,
    {
        proof {
            assert(rows.skip(i as int).drop_first() =~= rows.skip(i + 1));
            assert(rows.skip(i as int)[0] == rows[i as int]);
        }
        if macros[i].id == id {
            return owned(macros[i].name.as_str());
        }
        i += 1;
    }
    proof {
        assert(rows.skip(macros@.len() as int) =~= Seq::<(u32, Seq<char>)>::empty());
    }
    String::new()
}

/// What a control is bound to, said the way a person would read it back. `key_name` is what the keyboard table
/// calls the code `keycode_of(action)` gives, when it names it; `macros` is the macros there are.
pub fn bound_label(action: &str, key_name: Option<&str>, macros: &Vec<MacroRow>) -> (r: String)
    ensures
        r@ == bound_label_of(
            action@,
            match key_name {
                Some(n) => Some(n@),
                None => None,
            },
            macros@.map_values(|m: MacroRow| (m.id, m.name@)),
        ),
{
    let a = trim(action);
    if a.as_str().unicode_len() == 0 {
        return owned("(unbound)");
    }
    match keycode_of(action) {
        Some(code) => {
            return match key_name {
                Some(n) => owned(n),
                None => {
                    let digits = decimal_text(code as u64);
                    join2("keycode ", digits.as_str())
                },
            };
        },
        None => {},
    }
    match strip_prefix(a.as_str(), "m,") {
        Some(rest) => {
            let piece = first_piece(rest.as_str());
            match parse_u32(piece.as_str()) {
                Some(id) => {
                    let named = name_of_macro(macros, id);
                    if named.as_str().unicode_len() == 0 {
                        let digits = decimal_text(id as u64);
                        return join2("macro ", digits.as_str());
                    }
                    return named;
                },
                None => {},
            }
        },
        None => {},
    }
    if same_text(a.as_str(), "x") {
        owned("nothing")
    } else {
        a
    }
}

/// What a person types, as the bindings file holds it: nothing is `x`; an action is kept exactly as written;
/// a key's name is that key; anything else is written as it is, for the driver to say it does not know it.
pub open spec fn normalised(action: Seq<char>, is_action: bool, code: Option<u16>) -> Seq<char> {
    let a = trimmed(action);
    if a.len() == 0 {
        "x"@
    } else if is_action {
        a
    } else {
        match code {
            Some(c) => "p,k."@ + decimal(c as nat),
            None => a,
        }
    }
}

/// Normalising twice changes nothing: what `normalise` writes is left as it is when written again, given that the
/// second call is asked about that text - the same answers for the same trimmed text, and `x` and every key it
/// writes taken as actions, as the map's parser takes them.
pub proof fn normalising_twice_changes_nothing(
    action: Seq<char>,
    is_action: bool,
    code: Option<u16>,
    is_action_again: bool,
    code_again: Option<u16>,
)
    requires
        normalised(action, is_action, code) == trimmed(action) ==> is_action_again == is_action && code_again
            == code,
        trimmed(action).len() == 0 || (!is_action && code is Some) ==> is_action_again,
    ensures
        normalised(normalised(action, is_action, code), is_action_again, code_again) == normalised(
            action,
            is_action,
            code,
        ),
{
    reveal_strlit("x");
    reveal_strlit("p,k.");
    let n = normalised(action, is_action, code);
    crate::text::lemma_trimmed_twice(action);
    if trimmed(action).len() == 0 {
        crate::text::lemma_trimmed_plain("x"@);
    } else if is_action {
    } else {
        match code {
            Some(c) => {
                let d = decimal(c as nat);
                crate::macros::graph::lemma_decimal_len(c as nat);
                lemma_decimal_last(c as nat);
                assert(n[0] == 'p');
                assert(n[n.len() - 1] == d[d.len() - 1]);
                crate::text::lemma_trimmed_plain(n);
            },
            None => {},
        }
    }
}

proof fn lemma_decimal_last(n: nat)
    ensures
        decimal(n).len() > 0,
        '0' <= decimal(n)[decimal(n).len() - 1] <= '9',
    decreases n,
{
    let d = n % 10;
    assert(d == 0 || d == 1 || d == 2 || d == 3 || d == 4 || d == 5 || d == 6 || d == 7 || d == 8 || d == 9);
    if n >= 10 {
        lemma_decimal_last(n / 10);
    }
}

/// Turn what a person types into what the file holds. `is_action` is whether the map's parser takes the trimmed
/// text as an action, and `code` the key code the keyboard table gives the trimmed text as a key's name.
pub fn normalise(action: &str, is_action: bool, code: Option<u16>) -> (r: String)
    ensures
        r@ == normalised(action@, is_action, code),
{
    let a = trim(action);
    if a.as_str().unicode_len() == 0 {
        return owned("x");
    }
    if is_action {
        return a;
    }
    match code {
        Some(c) => {
            let digits = decimal_text(c as u64);
            join2("p,k.", digits.as_str())
        },
        None => a,
    }
}

/// The number a new set of bindings takes: one after the highest there is, or 1 when there are none.
pub open spec fn next_profile_of(profiles: Seq<u32>) -> int {
    if profiles.len() == 0 {
        1
    } else {
        let m = choose|m: u32| profiles.contains(m) && forall|k: int| 0 <= k < profiles.len() ==> profiles[k] <= m;
        m + 1
    }
}

/// The number a new set of bindings takes, numbered after the highest one there is, so it is never one that
/// exists.
pub fn next_profile(profiles: &Vec<u32>) -> (r: u32)
    requires
        forall|k: int| 0 <= k < profiles@.len() ==> profiles@[k] < u32::MAX,
    ensures
        r == next_profile_of(profiles@),
        !profiles@.contains(r),
{
    if profiles.len() == 0 {
        return 1;
    }
    let mut top: u32 = profiles[0];
    let mut i: usize = 1;
    proof {
        assert(profiles@.subrange(0, 1)[0] == top);
    }
    while i < profiles.len()
        invariant
            1 <= i <= profiles@.len(),
            profiles@.subrange(0, i as int).contains(top),
            forall|k: int| 0 <= k < i ==> profiles@[k] <= top,
            forall|k: int| 0 <= k < profiles@.len() ==> profiles@[k] < u32::MAX,
        decreases profiles.len() - i,
    {
        if profiles[i] > top {
            top = profiles[i];
            proof {
                assert(profiles@.subrange(0, i + 1)[i as int] == top);
            }
        } else {
            proof {
                let w = choose|w: int| 0 <= w < i && profiles@.subrange(0, i as int)[w] == top;
                assert(profiles@.subrange(0, i + 1)[w] == top);
            }
        }
        i += 1;
    }
    proof {
        assert(profiles@.subrange(0, profiles@.len() as int) =~= profiles@);
        let m = choose|m: u32| profiles@.contains(m) && forall|k: int| 0 <= k < profiles@.len() ==> profiles@[k] <= m;
        let a = choose|a: int| 0 <= a < profiles@.len() && profiles@[a] == m;
        let b = choose|b: int| 0 <= b < profiles@.len() && profiles@[b] == top;
        assert(profiles@[a] <= top && profiles@[b] <= m);
        if profiles@.contains((top + 1) as u32) {
            let c = choose|c: int| 0 <= c < profiles@.len() && profiles@[c] == (top + 1) as u32;
            assert(profiles@[c] <= top);
        }
    }
    top + 1
}

} // verus!
