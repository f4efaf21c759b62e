//! What the pad is doing, read from the driver that is running.
//!
//! The window cannot open the pad for itself - a driver holds it - so it reads what that driver publishes. This
//! is that reading: every value as text, and the two things the window takes apart, the stick's two raw bytes
//! and the controls pressed most recently. Reading the file is the caller's work.

use vstd::prelude::*;
use crate::json::{compact_json, field_get, field_put, fields_view, jobject, lemma_fields_view, to_compact, Json, JsonV};
use crate::text::{chars_of, from_chars, owned, texts, whitespace, is_whitespace};

verus! {

/// A reading of the driver's published values.
#[derive(Debug)]
pub struct Live {
    /// Every value the driver published as text, by name, each name once; the ones that are numbers are not here.
    pub values: Vec<(String, String)>,
    /// How long ago the driver wrote this reading.
    pub read_at: Option<std::time::Duration>,
    /// The file this was read from - what the driver writes its values to.
    pub path: std::path::PathBuf,
}

/// The published values as the contracts read them.
pub open spec fn values_view(v: Seq<(String, String)>) -> Seq<(Seq<char>, Seq<char>)> {
    v.map_values(|p: (String, String)| (p.0@, p.1@))
}

/// `std::path::PathBuf`, the file a reading was taken from, carried along as it came.
#[verifier::external_type_specification]
#[verifier::external_body]
pub struct ExPathBuf(std::path::PathBuf);

/// An empty path, for a reading that was not read from anywhere.
#[verifier::external_body]
fn no_path() -> std::path::PathBuf {
    std::path::PathBuf::new()
}

impl Default for Live {
    fn default() -> (r: Live)
        ensures
            r.values@.len() == 0,
            r.read_at is None,
    {
        Live { values: Vec::new(), read_at: None, path: no_path() }
    }
}

/// What a published value reads as: a text as itself, `null`, a flag, a list or an object as its JSON; a number
/// is not text.
pub open spec fn value_text(v: JsonV) -> Option<Seq<char>> {
    match v {
        JsonV::Str(t) => Some(t),
        JsonV::Number(_) => None,
        other => Some(compact_json(other)),
    }
}

/// The texts of a reading's fields, set in turn.
pub open spec fn texts_of(f: Seq<(Seq<char>, JsonV)>) -> Seq<(Seq<char>, Seq<char>)>
    decreases f.len(),
{
    if f.len() == 0 {
        Seq::empty()
    } else {
        let before = texts_of(f.drop_last());
        match value_text(f.last().1) {
            Some(t) => field_put(before, f.last().0, t),
            None => before,
        }
    }
}

/// Where a name is among the values, found from the front.
fn find_value(values: &Vec<(String, String)>, key: &str) -> (r: Option<usize>)
    ensures
        r matches Some(i) ==> crate::json::field_index(values_view(values@), key@) == Some(i as int) && i
            < values@.len(),
        r is None ==> crate::json::field_index(values_view(values@), key@) is None,
{
    let ghost f = values_view(values@);
    proof {
        crate::json::lemma_field_get_index(f, key@);
    }
    let mut i: usize = 0;
    while i < values.len()
        invariant
            f == values_view(values@),
            i <= values.len(),
            forall|k: int| 0 <= k < i ==> #[trigger] f[k].0 != key@,
        decreases values.len() - i,
    {
        if crate::text::same_text(values[i].0.as_str(), key) {
            proof {
                crate::json::lemma_field_index_first(f, key@, i as int);
            }
            return Some(i);
        }
        i += 1;
    }
    proof {
        crate::json::lemma_field_index_none(f, key@);
    }
    None
}

impl Live {
    /// A reading of what the driver published: the object the file holds, how long ago it was written, and the
    /// file. What is not an object gives no values.
    pub fn from_value(parsed: &Json, read_at: Option<std::time::Duration>, path: std::path::PathBuf) -> (r: Live)
        ensures
            values_view(r.values@) == match jobject(parsed@) {
                Some(f) => texts_of(f),
                None => Seq::empty(),
            },
            r.read_at == read_at,
            r.path == path,
    {
        let mut live = Live { values: Vec::new(), read_at, path };
        proof {
            assert(values_view(live.values@) =~= Seq::<(Seq<char>, Seq<char>)>::empty());
        }
        match parsed.as_object() {
            Some(fields) => {
                let ghost f = fields_view(fields@);
                proof {
                    lemma_fields_view(fields@);
                }
                let mut i: usize = 0;
                while i < fields.len()
                    invariant
                        f == fields_view(fields@),
                        f.len() == fields@.len(),
                        forall|k: int| 0 <= k < fields@.len() ==> #[trigger] f[k] == (fields@[k].0@, fields@[k].1@),
                        i <= fields.len(),
                        values_view(live.values@) == texts_of(f.subrange(0, i as int)),
                        live.read_at == read_at,
                        live.path == path,
                    decreases fields.len() - i,
                {
                    proof {
                        assert(f.subrange(0, i + 1).drop_last() =~= f.subrange(0, i as int));
                    }
                    let text = match &fields[i].1 {
                        Json::Str(t) => Some(owned(t.as_str())),
                        Json::Number(_) => None,
                        other => Some(to_compact(other)),
                    };
                    match text {
                        Some(t) => live.put(owned(fields[i].0.as_str()), t),
                        None => {},
                    }
                    i += 1;
                }
                proof {
                    assert(f.subrange(0, fields@.len() as int) =~= f);
                }
            },
            None => {},
        }
        live
    }

    /// Set one value by name: in its place when the name is there, or in the order of names.
    pub fn put(&mut self, key: String, value: String)
        ensures
            values_view(final(self).values@) == field_put(values_view(old(self).values@), key@, value@),
            final(self).read_at == old(self).read_at,
            final(self).path == old(self).path,
    {
        let ghost f = values_view(self.values@);
        let mut i: usize = 0;
        while i < self.values.len() && !crate::text::same_text(self.values[i].0.as_str(), key.as_str())
            && !crate::text::is_before(key.as_str(), self.values[i].0.as_str())
            invariant
                f == values_view(self.values@),
                i <= self.values.len(),
                forall|k: int| 0 <= k < i ==> #[trigger] f[k].0 != key@ && !crate::text::text_before(key@, f[k].0),
            decreases self.values.len() - i,
        {
            i += 1;
        }
        let ghost kv = key@;
        let ghost vv = value@;
        proof {
            crate::json::lemma_field_put_at(f, kv, vv, i as int);
        }
        if i == self.values.len() {
            self.values.push((key, value));
            proof {
                assert(values_view(self.values@) =~= f.push((kv, vv)));
            }
        } else if crate::text::same_text(self.values[i].0.as_str(), key.as_str()) {
            self.values.set(i, (key, value));
            proof {
                assert(values_view(self.values@) =~= f.update(i as int, (kv, vv)));
            }
        } else {
            self.values.insert(i, (key, value));
            proof {
                assert(values_view(self.values@) =~= f.insert(i as int, (kv, vv)));
            }
        }
    }

    /// How long ago this reading was written by the driver.
    pub fn age(&self) -> (r: Option<std::time::Duration>)
        ensures
            r == self.read_at,
    {
        self.read_at
    }

    /// One published value as text, or empty when the driver has not published it.
    pub fn text(&self, key: &str) -> (r: String)
        ensures
            r@ == match field_get(values_view(self.values@), key@) {
                Some(t) => t,
                None => Seq::empty(),
            },
    {
        proof {
            crate::json::lemma_field_get_index(values_view(self.values@), key@);
        }
        match find_value(&self.values, key) {
            Some(i) => owned(self.values[i].1.as_str()),
            None => String::new(),
        }
    }

    /// The stick, as the two raw bytes the driver reports.
    ///
    /// The bytes are shown as they are: their meaning has not been established, and this view exists to watch
    /// them while the stick is moved.
    pub fn stick(&self) -> (r: Option<(u8, u8)>)
        ensures
            r == match field_get(values_view(self.values@), "stick_raw"@) {
                Some(raw) => stick_of(raw),
                None => None,
            },
    {
        proof {
            crate::json::lemma_field_get_index(values_view(self.values@), "stick_raw"@);
        }
        match find_value(&self.values, "stick_raw") {
            Some(i) => stick_from(self.values[i].1.as_str()),
            None => None,
        }
    }

    /// The controls the driver reported pressed, most recent last.
    pub fn recent_keys(&self) -> (r: Vec<String>)
        ensures
            texts(r@) == words_of(
                match field_get(values_view(self.values@), "recent_keys"@) {
                    Some(t) => t,
                    None => Seq::empty(),
                },
            ),
    {
        let text = self.text("recent_keys");
        split_words(text.as_str())
    }
}

/// Where the first white space is, or the end.
pub open spec fn word_end(s: Seq<char>) -> nat
    decreases s.len(),
{
    if s.len() == 0 || whitespace(s[0]) {
        0
    } else {
        1 + word_end(s.subrange(1, s.len() as int))
    }
}

/// The words of a text, as `split_whitespace` gives them: the runs of characters between white space.
pub open spec fn words_of(s: Seq<char>) -> Seq<Seq<char>>
    decreases s.len(),
{
    if s.len() == 0 {
        Seq::empty()
    } else if whitespace(s[0]) {
        words_of(s.subrange(1, s.len() as int))
    } else {
        let end = word_end(s);
        proof {
            lemma_word_end(s);
            assert(word_end(s) >= 1);
        }
        seq![s.subrange(0, end as int)] + words_of(s.subrange(end as int, s.len() as int))
    }
}

/// A word ends at the first white space, or at the end of the text.
pub proof fn lemma_word_end(s: Seq<char>)
    ensures
        word_end(s) <= s.len(),
        forall|k: int| 0 <= k < word_end(s) ==> !whitespace(#[trigger] s[k]),
        word_end(s) < s.len() ==> whitespace(s[word_end(s) as int]),
    decreases s.len(),
{
    if s.len() > 0 && !whitespace(s[0]) {
        let rest = s.subrange(1, s.len() as int);
        lemma_word_end(rest);
        assert forall|k: int| 0 <= k < word_end(s) implies !whitespace(#[trigger] s[k]) by {
            if k > 0 {
                assert(s[k] == rest[k - 1]);
            }
        }
        if word_end(s) < s.len() {
            assert(s[word_end(s) as int] == rest[word_end(rest) as int]);
        }
    }
}

proof fn lemma_word_end_at(s: Seq<char>, n: int)
    requires
        0 <= n <= s.len(),
        forall|k: int| 0 <= k < n ==> !whitespace(#[trigger] s[k]),
        n == s.len() || whitespace(s[n]),
    ensures
        word_end(s) == n,
    decreases n,
{
    if n > 0 {
        let rest = s.subrange(1, s.len() as int);
        assert forall|k: int| 0 <= k < n - 1 implies !whitespace(#[trigger] rest[k]) by {
            assert(rest[k] == s[k + 1]);
        }
        if n - 1 < rest.len() {
            assert(rest[n - 1] == s[n]);
        }
        assert(!whitespace(s[0]));
        lemma_word_end_at(rest, n - 1);
    }
}

/// The words of a text, as `split_whitespace` gives them.
pub fn split_words(s: &str) -> (r: Vec<String>)
    ensures
        texts(r@) == words_of(s@),
{
    let chars = chars_of(s);
    let mut out: Vec<String> = Vec::new();
    let mut i: usize = 0;
    proof {
        assert(s@.subrange(0, s@.len() as int) =~= s@);
        assert(texts(out@) =~= Seq::<Seq<char>>::empty());
    }
    while i < chars.len()
        invariant
            chars@ == s@,
            i <= chars.len(),
            texts(out@) + words_of(s@.subrange(i as int, s@.len() as int)) == words_of(s@),
        decreases chars.len() - i,
    {
        let ghost rest = s@.subrange(i as int, s@.len() as int);
        if is_whitespace(chars[i]) {
            proof {
                assert(rest.subrange(1, rest.len() as int) =~= s@.subrange(i + 1, s@.len() as int));
            }
            i += 1;
        } else {
            let mut j: usize = i;
            while j < chars.len() && !is_whitespace(chars[j])
                invariant
                    chars@ == s@,
                    i <= j <= chars.len(),
                    forall|k: int| i <= k < j ==> !whitespace(#[trigger] s@[k]),
                decreases chars.len() - j,
            {
                j += 1;
            }
            let mut word: Vec<char> = Vec::new();
            let mut k: usize = i;
            while k < j
                invariant
                    chars@ == s@,
                    i <= k <= j <= chars.len(),
                    word@ == s@.subrange(i as int, k as int),
                decreases j - k,
            {
                word.push(chars[k]);
                k += 1;
                proof {
                    assert(word@ =~= s@.subrange(i as int, k as int));
                }
            }
            let ghost before = texts(out@);
            out.push(from_chars(&word));
            proof {
                assert forall|m: int| 0 <= m < j - i implies !whitespace(#[trigger] rest[m]) by {
                    assert(rest[m] == s@[i + m]);
                }
                if j < chars.len() {
                    assert(rest[j - i] == s@[j as int]);
                }
                lemma_word_end_at(rest, j - i);
                assert(rest.subrange(0, j - i) =~= s@.subrange(i as int, j as int));
                assert(rest.subrange(j - i, rest.len() as int) =~= s@.subrange(j as int, s@.len() as int));
                assert(texts(out@) =~= before.push(s@.subrange(i as int, j as int)));
                assert(words_of(rest) == seq![s@.subrange(i as int, j as int)] + words_of(
                    s@.subrange(j as int, s@.len() as int),
                ));
                assert(texts(out@) + words_of(s@.subrange(j as int, s@.len() as int)) =~= before + words_of(rest));
            }
            i = j;
        }
    }
    proof {
        assert(s@.subrange(i as int, s@.len() as int) =~= Seq::<char>::empty());
        assert(texts(out@) + Seq::<Seq<char>>::empty() =~= texts(out@));
    }
    out
}

/// A text with a prefix taken off its front as many times as it is there, as `trim_start_matches` does.
pub open spec fn trimmed_start(s: Seq<char>, p: Seq<char>) -> Seq<char>
    decreases s.len(),
{
    if p.len() > 0 && crate::text::starts_with(s, p) {
        trimmed_start(s.subrange(p.len() as int, s.len() as int), p)
    } else {
        s
    }
}

/// The value of a hexadecimal digit, or none.
pub open spec fn hex_digit(c: char) -> Option<int> {
    if '0' <= c <= '9' {
        Some(c as int - '0' as int)
    } else if 'a' <= c <= 'f' {
        Some(c as int - 'a' as int + 10)
    } else if 'A' <= c <= 'F' {
        Some(c as int - 'A' as int + 10)
    } else {
        None
    }
}

/// The number hexadecimal digits write, or none when a character is not one.
pub open spec fn hex_value(s: Seq<char>) -> Option<int>
    decreases s.len(),
{
    if s.len() == 0 {
        Some(0)
    } else {
        match (hex_value(s.drop_last()), hex_digit(s.last())) {
            (Some(v), Some(d)) => Some(v * 16 + d),
            _ => None,
        }
    }
}

/// What `u8::from_str_radix(_, 16)` reads: an optional `+`, then one hexadecimal digit or more, for a number
/// that fits a byte.
pub open spec fn parsed_hex_u8(s: Seq<char>) -> Option<u8> {
    let d = if s.len() > 0 && s[0] == '+' { s.subrange(1, s.len() as int) } else { s };
    if d.len() > 0 {
        match hex_value(d) {
            Some(v) => if v <= 255 {
                Some(v as u8)
            } else {
                None
            },
            None => None,
        }
    } else {
        None
    }
}

/// The stick's two bytes from the text the driver writes: the first two words, each with any `0x` in front taken
/// off and read in hexadecimal; none when there are not two words or one is not a byte.
pub open spec fn stick_of(raw: Seq<char>) -> Option<(u8, u8)> {
    let w = words_of(raw);
    if w.len() >= 2 {
        match (parsed_hex_u8(trimmed_start(w[0], "0x"@)), parsed_hex_u8(trimmed_start(w[1], "0x"@))) {
            (Some(a), Some(b)) => Some((a, b)),
            _ => None,
        }
    } else {
        None
    }
}

proof fn lemma_hex_digit_of_char(d: nat)
    requires
        d < 16,
    ensures
        hex_digit(crate::state::screen::hex_char(d)) == Some(d as int),
        crate::state::screen::hex_char(d) != 'x',
        crate::state::screen::hex_char(d) != '+',
        !crate::text::whitespace(crate::state::screen::hex_char(d)),
{
    assert(d == 0 || d == 1 || d == 2 || d == 3 || d == 4 || d == 5 || d == 6 || d == 7 || d == 8 || d == 9 || d
        == 10 || d == 11 || d == 12 || d == 13 || d == 14 || d == 15);
}

proof fn lemma_reads_hex_byte(b: u8)
    ensures
        parsed_hex_u8(trimmed_start(crate::state::screen::hex_byte(b), "0x"@)) == Some(b),
        crate::state::screen::hex_byte(b).len() == 4,
        forall|k: int|
            0 <= k < 4 ==> !crate::text::whitespace(#[trigger] crate::state::screen::hex_byte(b)[k]),
{
    reveal_strlit("0x");
    let hi = (b / 16) as nat;
    let lo = (b % 16) as nat;
    lemma_hex_digit_of_char(hi);
    lemma_hex_digit_of_char(lo);
    let h = crate::state::screen::hex_byte(b);
    let digits = seq![crate::state::screen::hex_char(hi), crate::state::screen::hex_char(lo)];
    assert(h.len() == 4);
    assert(crate::text::starts_with(h, "0x"@)) by {
        assert(h.subrange(0, 2) =~= "0x"@);
    }
    assert(h.subrange(2, 4) =~= digits);
    assert(!crate::text::starts_with(digits, "0x"@)) by {
        assert(digits[1] != "0x"@[1]);
    }
    assert(trimmed_start(digits, "0x"@) == digits);
    assert(trimmed_start(h, "0x"@) == digits);
    assert(digits.drop_last() =~= seq![crate::state::screen::hex_char(hi)]);
    assert(seq![crate::state::screen::hex_char(hi)].drop_last() =~= Seq::<char>::empty());
    assert(hex_value(Seq::<char>::empty()) == Some(0int));
    assert(seq![crate::state::screen::hex_char(hi)].last() == crate::state::screen::hex_char(hi));
    assert(hex_value(seq![crate::state::screen::hex_char(hi)]) == Some(hi as int));
    assert(digits.last() == crate::state::screen::hex_char(lo));
    assert(hex_value(digits) == Some((hi * 16 + lo) as int));
    assert(hi * 16 + lo == b);
    assert forall|k: int| 0 <= k < 4 implies !crate::text::whitespace(#[trigger] h[k]) by {
        if k == 0 {
            assert(h[0] == '0');
        } else if k == 1 {
            assert(h[1] == 'x');
        } else if k == 2 {
            assert(h[2] == crate::state::screen::hex_char(hi));
        } else {
            assert(h[3] == crate::state::screen::hex_char(lo));
        }
    }
}

proof fn lemma_word_of_four(s: Seq<char>)
    requires
        s.len() >= 4,
        forall|k: int| 0 <= k < 4 ==> !crate::text::whitespace(#[trigger] s[k]),
        s.len() > 4 ==> crate::text::whitespace(s[4]),
    ensures
        word_end(s) == 4,
{
    let s1 = s.subrange(1, s.len() as int);
    let s2 = s1.subrange(1, s1.len() as int);
    let s3 = s2.subrange(1, s2.len() as int);
    let s4 = s3.subrange(1, s3.len() as int);
    assert(s4.len() == 0 || crate::text::whitespace(s4[0])) by {
        if s4.len() > 0 {
            assert(s4[0] == s[4]);
        }
    }
    assert(word_end(s4) == 0);
    assert(s3[0] == s[3]);
    assert(word_end(s3) == 1);
    assert(s2[0] == s[2]);
    assert(word_end(s2) == 2);
    assert(s1[0] == s[1]);
    assert(word_end(s1) == 3);
}

/// The stick reads back what `show` writes: a pair of bytes written as the samples file writes them is read as
/// that pair.
pub proof fn the_stick_reads_back_what_show_writes(a: u8, b: u8)
    ensures
        stick_of(crate::state::screen::hex_byte(a) + " "@ + crate::state::screen::hex_byte(b)) == Some((a, b)),
{
    reveal_strlit(" ");
    let ha = crate::state::screen::hex_byte(a);
    let hb = crate::state::screen::hex_byte(b);
    lemma_reads_hex_byte(a);
    lemma_reads_hex_byte(b);
    let s = ha + " "@ + hb;
    assert(s.len() == 9);
    assert(crate::text::whitespace(s[4])) by {
        assert(s[4] == ' ');
    }
    assert forall|k: int| 0 <= k < 4 implies !crate::text::whitespace(#[trigger] s[k]) by {
        assert(s[k] == ha[k]);
    }
    lemma_word_of_four(s);
    let rest = s.subrange(4, 9);
    let tail = rest.subrange(1, 5);
    assert(tail =~= hb);
    assert(s.subrange(0, 4) =~= ha);
    assert(crate::text::whitespace(rest[0]));
    assert(words_of(rest) == words_of(tail));
    lemma_word_of_four(tail);
    assert(tail.subrange(0, 4) =~= hb);
    assert(tail.subrange(4, 4) =~= Seq::<char>::empty());
    assert(words_of(tail) == seq![hb] + words_of(Seq::<char>::empty()));
    assert(words_of(s) == seq![ha] + words_of(rest));
    assert(words_of(s) =~= seq![ha, hb]);
}

fn hex_digit_of(c: char) -> (r: Option<u32>)
    ensures
        r matches Some(d) ==> hex_digit(c) == Some(d as int) && d < 16,
        r is None ==> hex_digit(c) is None,
{
    if '0' <= c && c <= '9' {
        Some(c as u32 - '0' as u32)
    } else if 'a' <= c && c <= 'f' {
        Some(c as u32 - 'a' as u32 + 10)
    } else if 'A' <= c && c <= 'F' {
        Some(c as u32 - 'A' as u32 + 10)
    } else {
        None
    }
}

proof fn lemma_hex_grows(s: Seq<char>, i: int)
    requires
        0 <= i <= s.len(),
        hex_value(s) is Some,
    ensures
        hex_value(s.subrange(0, i)) is Some,
        0 <= hex_value(s.subrange(0, i)).unwrap() <= hex_value(s).unwrap(),
    decreases s.len() - i,
{
    if i < s.len() {
        let longer = s.subrange(0, i + 1);
        lemma_hex_grows(s, i + 1);
        assert(longer.drop_last() =~= s.subrange(0, i));
        lemma_hex_nonneg(s.subrange(0, i));
    } else {
        assert(s.subrange(0, i) =~= s);
        lemma_hex_nonneg(s);
    }
}

proof fn lemma_hex_nonneg(s: Seq<char>)
    requires
        hex_value(s) is Some,
    ensures
        hex_value(s).unwrap() >= 0,
    decreases s.len(),
{
    if s.len() > 0 {
        lemma_hex_nonneg(s.drop_last());
    }
}

/// A byte as `u8::from_str_radix(_, 16)` reads one.
pub fn parse_hex_u8(text: &str) -> (r: Option<u8>)
    ensures
        r == parsed_hex_u8(text@),
{
    let chars = chars_of(text);
    let mut at: usize = 0;
    if chars.len() > 0 && chars[0] == '+' {
        at = 1;
    }
    let ghost d = if text@.len() > 0 && text@[0] == '+' { text@.subrange(1, text@.len() as int) } else { text@ };
    proof {
        if at == 0 {
            assert(text@.subrange(0, text@.len() as int) =~= text@);
        }
    }
    if at == chars.len() {
        return None;
    }
    let mut value: u32 = 0;
    let mut i: usize = at;
    proof {
        assert(d.subrange(0, 0) =~= Seq::<char>::empty());
    }
    while i < chars.len()
        invariant
            chars@ == text@,
            d == text@.subrange(at as int, text@.len() as int),
            d == (if text@.len() > 0 && text@[0] == '+' { text@.subrange(1, text@.len() as int) } else { text@ }),
            d.len() > 0,
            at <= i <= chars.len(),
            hex_value(d.subrange(0, i - at)) == Some(value as int),
            value <= 255,
        decreases chars.len() - i,
    {
        let c = chars[i];
        let ghost a = d.subrange(0, i - at + 1);
        proof {
            assert(a.drop_last() =~= d.subrange(0, i - at));
            assert(a.last() == c);
            assert(d[i - at] == c);
        }
        match hex_digit_of(c) {
            None => {
                proof {
                    assert(hex_value(a) is None);
                    if hex_value(d) is Some {
                        lemma_hex_grows(d, i - at + 1);
                    }
                }
                return None;
            },
            Some(digit) => {
                let next = value * 16 + digit;
                if next > 255 {
                    proof {
                        assert(hex_value(a) == Some(next as int));
                        if hex_value(d) is Some {
                            lemma_hex_grows(d, i - at + 1);
                        }
                    }
                    return None;
                }
                value = next;
            },
        }
        i += 1;
    }
    proof {
        assert(d.subrange(0, d.len() as int) =~= d);
    }
    Some(value as u8)
}

/// A text with every `0x` taken off its front.
fn trim_hex_prefix(s: &str) -> (r: String)
    ensures
        r@ == trimmed_start(s@, "0x"@),
{
    proof {
        reveal_strlit("0x");
    }
    let mut rest = owned(s);
    loop
        invariant
            trimmed_start(rest@, "0x"@) == trimmed_start(s@, "0x"@),
        decreases rest@.len(),
    {
        proof {
            reveal_strlit("0x");
        }
        match crate::text::strip_prefix(rest.as_str(), "0x") {
            Some(r) => {
                rest = r;
            },
            None => {
                return rest;
            },
        }
    }
}

/// The stick's two bytes from the text the driver writes.
pub fn stick_from(raw: &str) -> (r: Option<(u8, u8)>)
    ensures
        r == stick_of(raw@),
{
    let parts = split_words(raw);
    if parts.len() < 2 {
        return None;
    }
    proof {
        assert(texts(parts@)[0] == parts@[0]@);
        assert(texts(parts@)[1] == parts@[1]@);
    }
    let first = trim_hex_prefix(parts[0].as_str());
    let second = trim_hex_prefix(parts[1].as_str());
    match (parse_hex_u8(first.as_str()), parse_hex_u8(second.as_str())) {
        (Some(a), Some(b)) => Some((a, b)),
        _ => None,
    }
}

} // verus!
