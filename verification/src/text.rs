//! Text, the way the rest of the library reads and builds it: as sequences of characters.
//!
//! The window's data is names and short strings - a control, a source, a widget's key - so what is needed is
//! comparing, trimming, joining and writing numbers, each stated over the characters it works on.

use vstd::prelude::*;
use vstd::string::*;

verus! {

/// Whether a character is white space as Rust's `char::is_whitespace` decides it: one of the Unicode
/// `White_Space` characters, which are the controls from tab to carriage return, the space, next line, the
/// no-break space, the Ogham space mark, the spaces from the en quad to the hair space, the line and paragraph
/// separators, the narrow no-break space, the medium mathematical space and the ideographic space.
pub open spec fn whitespace(c: char) -> bool {
    let n = c as u32;
    ||| 0x09 <= n <= 0x0d
    ||| n == 0x20
    ||| n == 0x85
    ||| n == 0xa0
    ||| n == 0x1680
    ||| 0x2000 <= n <= 0x200a
    ||| n == 0x2028
    ||| n == 0x2029
    ||| n == 0x202f
    ||| n == 0x205f
    ||| n == 0x3000
}

/// Whether a character is white space, as `char::is_whitespace` decides it.
pub(crate) fn is_whitespace(c: char) -> (r: bool)
    ensures
        r == whitespace(c),
{
    let n = c as u32;
    (0x09 <= n && n <= 0x0d) || n == 0x20 || n == 0x85 || n == 0xa0 || n == 0x1680 || (0x2000 <= n && n
        <= 0x200a) || n == 0x2028 || n == 0x2029 || n == 0x202f || n == 0x205f || n == 0x3000
}

/// Whether a character is alphabetic or numeric as Rust's `char::is_alphanumeric` decides it (Unicode
/// `Alphabetic`, or a numeric general category).
pub uninterp spec fn alphanumeric(c: char) -> bool;

/// `char::is_alphanumeric`: true exactly for the characters `alphanumeric` names.
#[verifier::external_body]
pub(crate) fn is_alphanumeric(c: char) -> (r: bool)
    ensures
        r == alphanumeric(c),
{
    c.is_alphanumeric()
}

/// `String::push`: the character goes on the end and nothing else changes.
#[verifier::external_body]
pub(crate) fn push_char(s: &mut String, c: char)
    ensures
        final(s)@ == old(s)@.push(c),
{
    s.push(c)
}

/// What `format!("{:?}", text)` writes for a string: the text quoted, with the characters Rust escapes escaped.
pub uninterp spec fn debug_quoted(text: Seq<char>) -> Seq<char>;

/// `<str as Debug>::fmt`, through `format!("{:?}")`: the result is `debug_quoted` of the text.
#[verifier::external_body]
pub(crate) fn quoted(text: &str) -> (r: String)
    ensures
        r@ == debug_quoted(text@),
{
    format!("{text:?}")
}

/// What `format!("{:?}", c)` writes for a character: the character between single quotes, escaped as Rust does.
pub uninterp spec fn debug_char(c: char) -> Seq<char>;

/// `<char as Debug>::fmt`, through `format!("{:?}")`: the result is `debug_char` of the character.
#[verifier::external_body]
pub(crate) fn quoted_char(c: char) -> (r: String)
    ensures
        r@ == debug_char(c),
{
    format!("{c:?}")
}

/// A string holding exactly these characters.
pub fn from_chars(chars: &Vec<char>) -> (r: String)
    ensures
        r@ == chars@,
{
    let mut r = String::new();
    let mut i: usize = 0;
    while i < chars.len()
        invariant
            i <= chars.len(),
            r@ == chars@.subrange(0, i as int),
        decreases chars.len() - i,
    {
        push_char(&mut r, chars[i]);
        i += 1;
        assert(r@ =~= chars@.subrange(0, i as int));
    }
    assert(chars@.subrange(0, chars.len() as int) =~= chars@);
    r
}

/// The characters of a string, one by one.
pub fn chars_of(s: &str) -> (r: Vec<char>)
    ensures
        r@ == s@,
{
    let n = s.unicode_len();
    let mut r: Vec<char> = Vec::new();
    let mut i: usize = 0;
    while i < n
        invariant
            n == s@.len(),
            i <= n,
            r@ == s@.subrange(0, i as int),
        decreases n - i,
    {
        r.push(s.get_char(i));
        i += 1;
        assert(r@ =~= s@.subrange(0, i as int));
    }
    assert(s@.subrange(0, n as int) =~= s@);
    r
}

/// An owned copy of a string.
pub fn owned(s: &str) -> (r: String)
    ensures
        r@ == s@,
{
    String::from_str(s)
}

/// Two strings, one after the other.
pub fn join2(a: &str, b: &str) -> (r: String)
    ensures
        r@ == a@ + b@,
{
    String::from_str(a).concat(b)
}

/// Three strings, one after the other.
pub fn join3(a: &str, b: &str, c: &str) -> (r: String)
    ensures
        r@ == a@ + b@ + c@,
{
    String::from_str(a).concat(b).concat(c)
}

/// Whether two strings hold the same characters.
pub fn same_text(a: &str, b: &str) -> (r: bool)
    ensures
        r == (a@ == b@),
{
    let x = chars_of(a);
    let y = chars_of(b);
    if x.len() != y.len() {
        return false;
    }
    let mut i: usize = 0;
    while i < x.len()
        invariant
            x@ == a@,
            y@ == b@,
            x.len() == y.len(),
            i <= x.len(),
            forall|k: int| 0 <= k < i ==> x@[k] == y@[k],
        decreases x.len() - i,
    {
        if x[i] != y[i] {
            return false;
        }
        i += 1;
    }
    assert(x@ =~= y@);
    true
}

/// Whether `prefix` is the start of `s`.
pub open spec fn starts_with(s: Seq<char>, prefix: Seq<char>) -> bool {
    prefix.len() <= s.len() && s.subrange(0, prefix.len() as int) == prefix
}

/// Whether `suffix` is the end of `s`.
pub open spec fn ends_with(s: Seq<char>, suffix: Seq<char>) -> bool {
    suffix.len() <= s.len() && s.subrange(s.len() - suffix.len(), s.len() as int) == suffix
}

/// What is left of `s` after `prefix`, when `s` starts with it.
pub fn strip_prefix(s: &str, prefix: &str) -> (r: Option<String>)
    ensures
        r is Some <==> starts_with(s@, prefix@),
        r matches Some(rest) ==> rest@ == s@.subrange(prefix@.len() as int, s@.len() as int),
{
    let x = chars_of(s);
    let p = chars_of(prefix);
    if p.len() > x.len() {
        return None;
    }
    let mut i: usize = 0;
    while i < p.len()
        invariant
            x@ == s@,
            p@ == prefix@,
            p.len() <= x.len(),
            i <= p.len(),
            forall|k: int| 0 <= k < i ==> x@[k] == p@[k],
        decreases p.len() - i,
    {
        if x[i] != p[i] {
            assert(s@.subrange(0, prefix@.len() as int)[i as int] != prefix@[i as int]);
            return None;
        }
        i += 1;
    }
    assert(s@.subrange(0, prefix@.len() as int) =~= prefix@);
    let mut rest: Vec<char> = Vec::new();
    let mut j: usize = p.len();
    while j < x.len()
        invariant
            x@ == s@,
            p@ == prefix@,
            p.len() <= j <= x.len(),
            rest@ == s@.subrange(prefix@.len() as int, j as int),
        decreases x.len() - j,
    {
        rest.push(x[j]);
        j += 1;
        assert(rest@ =~= s@.subrange(prefix@.len() as int, j as int));
    }
    Some(from_chars(&rest))
}

/// What is left of `s` before `suffix`, when `s` ends with it.
pub fn strip_suffix(s: &str, suffix: &str) -> (r: Option<String>)
    ensures
        r is Some <==> ends_with(s@, suffix@),
        r matches Some(rest) ==> rest@ == s@.subrange(0, s@.len() - suffix@.len()),
{
    let x = chars_of(s);
    let p = chars_of(suffix);
    if p.len() > x.len() {
        return None;
    }
    let start = x.len() - p.len();
    let mut i: usize = 0;
    while i < p.len()
        invariant
            x@ == s@,
            p@ == suffix@,
            start == x.len() - p.len(),
            i <= p.len(),
            forall|k: int| 0 <= k < i ==> x@[start + k] == p@[k],
        decreases p.len() - i,
    {
        if x[start + i] != p[i] {
            assert(s@.subrange(start as int, s@.len() as int)[i as int] != suffix@[i as int]);
            return None;
        }
        i += 1;
    }
    assert(s@.subrange(start as int, s@.len() as int) =~= suffix@);
    let mut rest: Vec<char> = Vec::new();
    let mut j: usize = 0;
    while j < start
        invariant
            x@ == s@,
            start <= x.len(),
            j <= start,
            rest@ == s@.subrange(0, j as int),
        decreases start - j,
    {
        rest.push(x[j]);
        j += 1;
        assert(rest@ =~= s@.subrange(0, j as int));
    }
    Some(from_chars(&rest))
}

/// How many white-space characters `s` starts with.
pub open spec fn leading_space(s: Seq<char>) -> nat
    decreases s.len(),
{
    if s.len() > 0 && whitespace(s[0]) {
        1 + leading_space(s.subrange(1, s.len() as int))
    } else {
        0
    }
}

/// How many white-space characters `s` ends with.
pub open spec fn trailing_space(s: Seq<char>) -> nat
    decreases s.len(),
{
    if s.len() > 0 && whitespace(s[s.len() - 1]) {
        1 + trailing_space(s.subrange(0, s.len() - 1))
    } else {
        0
    }
}

/// `s` with the white space at both ends taken off, as `str::trim` does.
pub open spec fn trimmed(s: Seq<char>) -> Seq<char> {
    let front = s.subrange(leading_space(s) as int, s.len() as int);
    front.subrange(0, front.len() - trailing_space(front))
}

proof fn lemma_leading_space(s: Seq<char>, i: int)
    requires
        0 <= i <= s.len(),
        forall|k: int| 0 <= k < i ==> whitespace(#[trigger] s[k]),
        i == s.len() || !whitespace(s[i]),
    ensures
        leading_space(s) == i,
    decreases i,
{
    if i > 0 {
        let rest = s.subrange(1, s.len() as int);
        assert forall|k: int| 0 <= k < i - 1 implies whitespace(#[trigger] rest[k]) by {
            assert(rest[k] == s[k + 1]);
        }
        if i - 1 < rest.len() {
            assert(rest[i - 1] == s[i]);
        }
        lemma_leading_space(rest, i - 1);
    } else {
        assert(s.len() == 0 || !whitespace(s[0]));
    }
}

proof fn lemma_trailing_space(s: Seq<char>, i: int)
    requires
        0 <= i <= s.len(),
        forall|k: int| s.len() - i <= k < s.len() ==> whitespace(#[trigger] s[k]),
        i == s.len() || !whitespace(s[s.len() - 1 - i]),
    ensures
        trailing_space(s) == i,
    decreases i,
{
    if i > 0 {
        let rest = s.subrange(0, s.len() - 1);
        assert forall|k: int| rest.len() - (i - 1) <= k < rest.len() implies whitespace(
            #[trigger] rest[k],
        ) by {
            assert(rest[k] == s[k]);
        }
        if i - 1 < rest.len() {
            assert(rest[rest.len() - 1 - (i - 1)] == s[s.len() - 1 - i]);
        }
        lemma_trailing_space(rest, i - 1);
    } else {
        assert(s.len() == 0 || !whitespace(s[s.len() - 1]));
    }
}

proof fn lemma_leading_facts(s: Seq<char>)
    ensures
        leading_space(s) <= s.len(),
        forall|k: int| 0 <= k < leading_space(s) ==> whitespace(#[trigger] s[k]),
        leading_space(s) < s.len() ==> !whitespace(s[leading_space(s) as int]),
    decreases s.len(),
{
    if s.len() > 0 && whitespace(s[0]) {
        let rest = s.subrange(1, s.len() as int);
        lemma_leading_facts(rest);
        assert forall|k: int| 0 <= k < leading_space(s) implies whitespace(#[trigger] s[k]) by {
            if k > 0 {
                assert(s[k] == rest[k - 1]);
            }
        }
        if leading_space(s) < s.len() {
            assert(s[leading_space(s) as int] == rest[leading_space(rest) as int]);
        }
    }
}

proof fn lemma_trailing_facts(s: Seq<char>)
    ensures
        trailing_space(s) <= s.len(),
        forall|k: int| s.len() - trailing_space(s) <= k < s.len() ==> whitespace(#[trigger] s[k]),
        trailing_space(s) < s.len() ==> !whitespace(s[s.len() - 1 - trailing_space(s)]),
    decreases s.len(),
{
    if s.len() > 0 && whitespace(s[s.len() - 1]) {
        let rest = s.subrange(0, s.len() - 1);
        lemma_trailing_facts(rest);
        assert forall|k: int| s.len() - trailing_space(s) <= k < s.len() implies whitespace(#[trigger] s[k]) by {
            if k < s.len() - 1 {
                assert(s[k] == rest[k]);
            }
        }
        if trailing_space(s) < s.len() {
            assert(s[s.len() - 1 - trailing_space(s)] == rest[rest.len() - 1 - trailing_space(rest)]);
        }
    }
}

/// A text with no white space at either end is its own trimmed text.
pub proof fn lemma_trimmed_plain(t: Seq<char>)
    requires
        t.len() == 0 || (!whitespace(t[0]) && !whitespace(t[t.len() - 1])),
    ensures
        trimmed(t) == t,
{
    lemma_leading_space(t, 0);
    lemma_trailing_space(t, 0);
    assert(t.subrange(0, t.len() as int) =~= t);
}

/// A trimmed text has no white space at either end, so trimming it again changes nothing.
pub proof fn lemma_trimmed_twice(s: Seq<char>)
    ensures
        trimmed(s).len() == 0 || (!whitespace(trimmed(s)[0]) && !whitespace(trimmed(s)[trimmed(s).len() - 1])),
        trimmed(trimmed(s)) == trimmed(s),
{
    lemma_leading_facts(s);
    let front = s.subrange(leading_space(s) as int, s.len() as int);
    lemma_trailing_facts(front);
    let t = trimmed(s);
    assert(t == front.subrange(0, front.len() - trailing_space(front)));
    if t.len() > 0 {
        assert(t[0] == front[0]);
        assert(front[0] == s[leading_space(s) as int]);
        assert(t[t.len() - 1] == front[front.len() - 1 - trailing_space(front)]);
    }
    lemma_trimmed_plain(t);
}

/// `str::trim`: the text without the white space at either end.
pub fn trim(s: &str) -> (r: String)
    ensures
        r@ == trimmed(s@),
{
    let x = chars_of(s);
    let mut a: usize = 0;
    while a < x.len() && is_whitespace(x[a])
        invariant
            x@ == s@,
            a <= x.len(),
            forall|k: int| 0 <= k < a ==> whitespace(#[trigger] s@[k]),
        decreases x.len() - a,
    {
        a += 1;
    }
    proof {
        lemma_leading_space(s@, a as int);
    }
    let ghost front = s@.subrange(a as int, s@.len() as int);
    let mut b: usize = x.len();
    while b > a && is_whitespace(x[b - 1])
        invariant
            x@ == s@,
            a <= b <= x.len(),
            front == s@.subrange(a as int, s@.len() as int),
            forall|k: int| b <= k < x.len() ==> whitespace(#[trigger] s@[k]),
        decreases b,
    {
        b -= 1;
    }
    proof {
        assert forall|k: int| front.len() - (x.len() - b) <= k < front.len() implies whitespace(
            #[trigger] front[k],
        ) by {
            assert(front[k] == s@[k + a]);
        }
        if b > a {
            assert(front[front.len() - 1 - (x.len() - b)] == s@[b - 1]);
        }
        lemma_trailing_space(front, (x.len() - b) as int);
    }
    let mut out: Vec<char> = Vec::new();
    let mut i: usize = a;
    while i < b
        invariant
            x@ == s@,
            a <= i <= b <= x.len(),
            out@ == s@.subrange(a as int, i as int),
        decreases b - i,
    {
        out.push(x[i]);
        i += 1;
        assert(out@ =~= s@.subrange(a as int, i as int));
    }
    assert(out@ =~= trimmed(s@));
    from_chars(&out)
}

/// Whether a text is empty once trimmed: nothing but white space.
pub fn is_blank(s: &str) -> (r: bool)
    ensures
        r == (trimmed(s@).len() == 0),
{
    let t = trim(s);
    t.as_str().unicode_len() == 0
}

/// A character before another, by code point: the order `String`'s comparison uses.
pub open spec fn char_before(a: char, b: char) -> bool {
    (a as u32) < (b as u32)
}

/// `a` sorts strictly before `b`, character by character, a prefix before what it starts.
pub open spec fn text_before(a: Seq<char>, b: Seq<char>) -> bool
    decreases a.len(),
{
    if a.len() == 0 {
        b.len() > 0
    } else if b.len() == 0 {
        false
    } else if a[0] == b[0] {
        text_before(a.subrange(1, a.len() as int), b.subrange(1, b.len() as int))
    } else {
        char_before(a[0], b[0])
    }
}

/// Whether `a` sorts strictly before `b`, as `String`'s `<` decides.
pub fn is_before(a: &str, b: &str) -> (r: bool)
    ensures
        r == text_before(a@, b@),
{
    let x = chars_of(a);
    let y = chars_of(b);
    let mut i: usize = 0;
    assert(a@.subrange(0, a@.len() as int) =~= a@);
    assert(b@.subrange(0, b@.len() as int) =~= b@);
    while i < x.len() && i < y.len() && x[i] == y[i]
        invariant
            x@ == a@,
            y@ == b@,
            i <= x.len(),
            i <= y.len(),
            text_before(a@, b@) == text_before(
                a@.subrange(i as int, a@.len() as int),
                b@.subrange(i as int, b@.len() as int),
            ),
        decreases x.len() - i,
    {
        proof {
            let sa = a@.subrange(i as int, a@.len() as int);
            let sb = b@.subrange(i as int, b@.len() as int);
            assert(sa.subrange(1, sa.len() as int) =~= a@.subrange(i + 1, a@.len() as int));
            assert(sb.subrange(1, sb.len() as int) =~= b@.subrange(i + 1, b@.len() as int));
        }
        i += 1;
    }
    if i == x.len() {
        i < y.len()
    } else if i == y.len() {
        false
    } else {
        (x[i] as u32) < (y[i] as u32)
    }
}

/// The digits of a number, most significant first, as Rust writes a whole number.
pub open spec fn decimal(n: nat) -> Seq<char>
    decreases n,
{
    if n < 10 {
        seq![digit(n)]
    } else {
        decimal(n / 10).push(digit(n % 10))
    }
}

/// The character for one digit.
pub open spec fn digit(d: nat) -> char {
    if d == 0 { '0' }
    else if d == 1 { '1' }
    else if d == 2 { '2' }
    else if d == 3 { '3' }
    else if d == 4 { '4' }
    else if d == 5 { '5' }
    else if d == 6 { '6' }
    else if d == 7 { '7' }
    else if d == 8 { '8' }
    else { '9' }
}

fn digit_char(d: u64) -> (c: char)
    requires
        d < 10,
    ensures
        c == digit(d as nat),
{
    if d == 0 { '0' }
    else if d == 1 { '1' }
    else if d == 2 { '2' }
    else if d == 3 { '3' }
    else if d == 4 { '4' }
    else if d == 5 { '5' }
    else if d == 6 { '6' }
    else if d == 7 { '7' }
    else if d == 8 { '8' }
    else { '9' }
}

/// A whole number written in decimal, as `format!("{n}")` writes it.
pub fn decimal_text(n: u64) -> (r: String)
    ensures
        r@ == decimal(n as nat),
    decreases n,
{
    if n < 10 {
        let mut r = String::new();
        push_char(&mut r, digit_char(n));
        assert(r@ =~= seq![digit(n as nat)]);
        r
    } else {
        let mut r = decimal_text(n / 10);
        push_char(&mut r, digit_char(n % 10));
        r
    }
}

/// Whether a character is an ASCII letter or digit, as `char::is_ascii_alphanumeric` decides.
pub open spec fn ascii_alphanumeric(c: char) -> bool {
    ('0' <= c && c <= '9') || ('a' <= c && c <= 'z') || ('A' <= c && c <= 'Z')
}

/// `char::is_ascii_alphanumeric`.
pub fn is_ascii_alphanumeric(c: char) -> (r: bool)
    ensures
        r == ascii_alphanumeric(c),
{
    ('0' <= c && c <= '9') || ('a' <= c && c <= 'z') || ('A' <= c && c <= 'Z')
}

/// Whether a list of names holds this one.
pub fn contains_text(names: &Vec<String>, name: &str) -> (r: bool)
    ensures
        r == exists|i: int| 0 <= i < names@.len() && #[trigger] names@[i]@ == name@,
{
    let mut i: usize = 0;
    while i < names.len()
        invariant
            i <= names.len(),
            forall|k: int| 0 <= k < i ==> #[trigger] names@[k]@ != name@,
        decreases names.len() - i,
    {
        if same_text(names[i].as_str(), name) {
            return true;
        }
        i += 1;
    }
    false
}

/// The views of a list of strings.
pub open spec fn texts(v: Seq<String>) -> Seq<Seq<char>> {
    v.map_values(|s: String| s@)
}

/// The texts of a list with one more string on the end.
pub proof fn lemma_texts_push(v: Seq<String>, s: String)
    ensures
        texts(v.push(s)) == texts(v).push(s@),
{
    assert(texts(v.push(s)) =~= texts(v).push(s@));
}

/// Where a name first is in a list.
pub open spec fn first_at(s: Seq<Seq<char>>, x: Seq<char>) -> Option<int> {
    if s.contains(x) {
        Some(choose|i: int| 0 <= i < s.len() && s[i] == x && forall|k: int| 0 <= k < i ==> s[k] != x)
    } else {
        None
    }
}

pub proof fn lemma_first_at(s: Seq<Seq<char>>, x: Seq<char>, i: int)
    requires
        0 <= i < s.len(),
        s[i] == x,
        forall|k: int| 0 <= k < i ==> s[k] != x,
    ensures
        first_at(s, x) == Some(i),
{
    assert(s.contains(x));
    let j = choose|j: int| 0 <= j < s.len() && s[j] == x && forall|k: int| 0 <= k < j ==> s[k] != x;
    if j < i {
        assert(s[j] != x);
    } else if j > i {
        assert(s[i] != x);
    }
}

/// No text sorts before itself.
pub proof fn lemma_text_before_irreflexive(a: Seq<char>)
    ensures
        !text_before(a, a),
    decreases a.len(),
{
    if a.len() > 0 {
        lemma_text_before_irreflexive(a.subrange(1, a.len() as int));
    }
}

/// Of two texts that sort one before the other, the second does not sort before the first.
pub proof fn lemma_text_before_asymmetric(a: Seq<char>, b: Seq<char>)
    requires
        text_before(a, b),
    ensures
        !text_before(b, a),
    decreases a.len(),
{
    if a.len() > 0 && b.len() > 0 && a[0] == b[0] {
        lemma_text_before_asymmetric(a.subrange(1, a.len() as int), b.subrange(1, b.len() as int));
    }
}

/// Sorting before is transitive.
pub proof fn lemma_text_before_transitive(a: Seq<char>, b: Seq<char>, c: Seq<char>)
    requires
        text_before(a, b),
        text_before(b, c),
    ensures
        text_before(a, c),
    decreases a.len(),
{
    if a.len() > 0 && b.len() > 0 && c.len() > 0 {
        if a[0] == b[0] && b[0] == c[0] {
            lemma_text_before_transitive(
                a.subrange(1, a.len() as int),
                b.subrange(1, b.len() as int),
                c.subrange(1, c.len() as int),
            );
        }
    }
}

/// Of two different texts, one sorts before the other.
pub proof fn lemma_text_before_total(a: Seq<char>, b: Seq<char>)
    requires
        a != b,
    ensures
        text_before(a, b) || text_before(b, a),
    decreases a.len(),
{
    if a.len() > 0 && b.len() > 0 {
        if a[0] != b[0] {
            vstd::utf8::char_u32_cast(a[0], a[0] as u32);
            vstd::utf8::char_u32_cast(b[0], b[0] as u32);
            assert((a[0] as u32) != (b[0] as u32));
        } else {
            let ra = a.subrange(1, a.len() as int);
            let rb = b.subrange(1, b.len() as int);
            if ra == rb {
                assert(a =~= seq![a[0]] + ra);
                assert(b =~= seq![b[0]] + rb);
            }
            lemma_text_before_total(ra, rb);
        }
    } else if a.len() == 0 && b.len() == 0 {
        assert(a =~= b);
    }
}

/// Texts in order: none sorts before one ahead of it.
pub open spec fn texts_in_order(s: Seq<Seq<char>>) -> bool {
    forall|i: int, j: int| 0 <= i < j < s.len() ==> !text_before(#[trigger] s[j], #[trigger] s[i])
}

/// Strings sorted as `sort` sorts them: in order, each kept.
pub fn sort_texts(v: Vec<String>) -> (r: Vec<String>)
    ensures
        texts_in_order(texts(r@)),
        texts(r@).to_multiset() == texts(v@).to_multiset(),
{
    broadcast use vstd::seq_lib::group_to_multiset_ensures;

    let mut rest = v;
    let ghost all = texts(rest@);
    let mut out: Vec<String> = Vec::new();
    proof {
        assert(texts(out@) =~= Seq::<Seq<char>>::empty());
    }
    while rest.len() > 0
        invariant
            texts_in_order(texts(out@)),
            texts(out@).to_multiset().add(texts(rest@).to_multiset()) == all.to_multiset(),
        decreases rest.len(),
    {
        let ghost before_rest = texts(rest@);
        let ghost before_out = out@;
        let ghost rest_items = rest@;
        let item = rest.remove(0);
        proof {
            assert(texts(rest@) =~= before_rest.remove(0));
            vstd::seq_lib::to_multiset_remove(before_rest, 0);
        }
        let mut at: usize = out.len();
        while at > 0 && is_before(item.as_str(), out[at - 1].as_str())
            invariant
                at <= out.len(),
                out@ == before_out,
                forall|k: int| at <= k < out@.len() ==> text_before(item@, (#[trigger] out@[k])@),
            decreases at,
        {
            at -= 1;
        }
        let ghost x = item@;
        out.insert(at, item);
        proof {
            let t = texts(out@);
            let tb = texts(before_out);
            assert(t =~= tb.insert(at as int, x));
            vstd::seq_lib::to_multiset_insert(tb, at as int, x);
            assert(t[at as int] == x);
            assert(at > 0 ==> !text_before(x, tb[at - 1]));
            assert(forall|k: int| at <= k < tb.len() ==> text_before(x, #[trigger] tb[k]));
            assert forall|i: int, j: int| 0 <= i < j < t.len() implies !text_before(#[trigger] t[j], #[trigger] t[i]) by {
                if j < at {
                    assert(t[i] == tb[i]);
                    assert(t[j] == tb[j]);
                } else if i < at && j == at {
                    assert(t[i] == tb[i]);
                    assert(!text_before(x, tb[at - 1]));
                    if i < at - 1 {
                        assert(!text_before(tb[at - 1], tb[i]));
                        if text_before(x, tb[i]) {
                            if tb[at - 1] != tb[i] {
                                lemma_text_before_total(tb[at - 1], tb[i]);
                                lemma_text_before_transitive(x, tb[i], tb[at - 1]);
                            }
                        }
                    }
                } else if i == at && j > at {
                    assert(t[j] == tb[j - 1]);
                    assert(text_before(x, tb[j - 1]));
                    lemma_text_before_asymmetric(x, tb[j - 1]);
                } else if i < at && j > at {
                    assert(t[i] == tb[i]);
                    assert(t[j] == tb[j - 1]);
                } else if i > at {
                    assert(t[i] == tb[i - 1]);
                    assert(t[j] == tb[j - 1]);
                }
            }
            broadcast use vstd::multiset::group_multiset_axioms;
            assert(before_rest[0] == x);
            assert(before_rest.contains(before_rest[0]));
            before_rest.to_multiset_ensures();
            assert(before_rest.to_multiset().count(x) > 0);
            assert(texts(out@).to_multiset().add(texts(rest@).to_multiset()) =~= all.to_multiset());
        }
    }
    proof {
        assert(texts(rest@) =~= Seq::<Seq<char>>::empty());
        assert(texts(out@).to_multiset().add(texts(rest@).to_multiset()) =~= texts(out@).to_multiset());
    }
    out
}

} // verus!
