//! Conditions: the question an `if` node or an alert asks, and the form the editor shows it as.
//!
//! A condition in a file is a tree; the editor shows the flat shapes a person writes - one question, or questions
//! joined by all or any, each with its own `not` - and refuses to give a form to a tree it cannot draw, so that
//! opening a file never rewrites it into something else.

use vstd::prelude::*;
use crate::text::{debug_quoted, decimal_text, join2, join3, owned, quoted, same_text};

verus! {

/// How a published value is compared.
#[derive(Debug, Clone, Copy, PartialEq, Eq, Structural)]
pub enum Compare {
    /// `==`
    Eq,
    /// `!=`
    Ne,
    /// `<`
    Lt,
    /// `<=`
    Le,
    /// `>`
    Gt,
    /// `>=`
    Ge,
    /// The text holds the other.
    Contains,
}

/// A condition as a file holds it.
#[derive(Debug, PartialEq)]
pub enum Cond {
    /// Fired by a control, named as the map names it.
    Control(String),
    /// A profile number is the active one.
    Profile(u32),
    /// A published value compared with a number or a text.
    Value {
        /// The value being read.
        name: String,
        /// How it is compared.
        op: Compare,
        /// What it is compared with, when that is a number: the number as the file writes it.
        number: Option<String>,
        /// What it is compared with, when that is text.
        text: Option<String>,
    },
    /// Every part holds.
    All(Vec<Cond>),
    /// Some part holds.
    Any(Vec<Cond>),
    /// The part does not hold.
    Not(Box<Cond>),
}

/// What the contracts say a condition is.
pub enum CondV {
    Control(Seq<char>),
    Profile(u32),
    Value { name: Seq<char>, op: Compare, number: Option<Seq<char>>, text: Option<Seq<char>> },
    All(Seq<CondV>),
    Any(Seq<CondV>),
    Not(Box<CondV>),
}

/// An optional text's characters.
pub open spec fn opt_view(o: Option<String>) -> Option<Seq<char>> {
    match o {
        Some(s) => Some(s@),
        None => None,
    }
}

/// A condition's meaning.
pub open spec fn cond_view(c: Cond) -> CondV
    decreases c,
{
    match c {
        Cond::Control(s) => CondV::Control(s@),
        Cond::Profile(p) => CondV::Profile(p),
        Cond::Value { name, op, number, text } => CondV::Value {
            name: name@,
            op,
            number: opt_view(number),
            text: opt_view(text),
        },
        Cond::All(parts) => CondV::All(conds_view(parts@)),
        Cond::Any(parts) => CondV::Any(conds_view(parts@)),
        Cond::Not(inner) => CondV::Not(Box::new(cond_view(*inner))),
    }
}

/// The meaning of each part.
pub open spec fn conds_view(s: Seq<Cond>) -> Seq<CondV>
    decreases s,
{
    if s.len() == 0 {
        Seq::empty()
    } else {
        conds_view(s.drop_last()).push(cond_view(s.last()))
    }
}

impl View for Cond {
    type V = CondV;

    open spec fn view(&self) -> CondV {
        cond_view(*self)
    }
}

/// The parts, one for one.
pub broadcast proof fn lemma_conds_view(s: Seq<Cond>)
    ensures
        #[trigger] conds_view(s).len() == s.len(),
        forall|i: int| 0 <= i < s.len() ==> #[trigger] conds_view(s)[i] == cond_view(s[i]),
    decreases s.len(),
{
    if s.len() > 0 {
        lemma_conds_view(s.drop_last());
    }
}

/// A question, as the editor holds it: the three kinds a person actually writes.
#[derive(Debug, Clone, PartialEq)]
pub enum Question {
    /// Fired by a control, named as the map names it: `G7`, `LR`.
    Control(String),
    /// A profile number is the active one.
    Profile(u32),
    /// A published value compared with a number or a string.
    Value {
        /// The published value, or the macro's own source, being read.
        name: String,
        /// How it is compared.
        op: Compare,
        /// What it is compared with, when that is a number: the number as the file writes it.
        number: Option<String>,
        /// What it is compared with, when that is text.
        text: Option<String>,
    },
}

/// One line of a condition, with its own `not`.
#[derive(Debug, Clone, PartialEq)]
pub struct QuestionRow {
    /// Whether this row is negated.
    pub not: bool,
    /// What the row asks.
    pub question: Question,
}

/// A condition as the editor holds it: questions joined by all or any.
#[derive(Debug, Clone, PartialEq)]
pub struct ConditionForm {
    /// True for `all`, false for `any`.
    pub all: bool,
    /// The questions, joined by `all` or `any`.
    pub rows: Vec<QuestionRow>,
}

/// What the contracts say a question is.
pub enum QuestionV {
    Control(Seq<char>),
    Profile(u32),
    Value { name: Seq<char>, op: Compare, number: Option<Seq<char>>, text: Option<Seq<char>> },
}

/// What the contracts say a form is: whether it joins by all, and each row's `not` and question.
pub struct FormV {
    pub all: bool,
    pub rows: Seq<(bool, QuestionV)>,
}

impl View for Question {
    type V = QuestionV;

    open spec fn view(&self) -> QuestionV {
        match self {
            Question::Control(s) => QuestionV::Control(s@),
            Question::Profile(p) => QuestionV::Profile(*p),
            Question::Value { name, op, number, text } => QuestionV::Value {
                name: name@,
                op: *op,
                number: opt_view(*number),
                text: opt_view(*text),
            },
        }
    }
}

impl View for ConditionForm {
    type V = FormV;

    open spec fn view(&self) -> FormV {
        FormV { all: self.all, rows: self.rows@.map_values(|r: QuestionRow| (r.not, r.question@)) }
    }
}

/// The editor's question for a condition, or none for a shape the editor cannot draw.
pub open spec fn question_of(c: CondV) -> Option<QuestionV> {
    match c {
        CondV::Control(s) => Some(QuestionV::Control(s)),
        CondV::Profile(p) => Some(QuestionV::Profile(p)),
        CondV::Value { name, op, number, text } => Some(QuestionV::Value { name, op, number, text }),
        _ => None,
    }
}

/// The condition a question stands for.
pub open spec fn cond_of_question(q: QuestionV) -> CondV {
    match q {
        QuestionV::Control(s) => CondV::Control(s),
        QuestionV::Profile(p) => CondV::Profile(p),
        QuestionV::Value { name, op, number, text } => CondV::Value { name, op, number, text },
    }
}

/// A part of an `all` or `any` as a row: a question, or `not` of one.
pub open spec fn row_of(c: CondV) -> Option<(bool, QuestionV)> {
    match c {
        CondV::Not(inner) => match question_of(*inner) {
            Some(q) => Some((true, q)),
            None => None,
        },
        _ => match question_of(c) {
            Some(q) => Some((false, q)),
            None => None,
        },
    }
}

/// The rows for every part, or none when a part is not a row.
pub open spec fn rows_of(parts: Seq<CondV>) -> Option<Seq<(bool, QuestionV)>>
    decreases parts.len(),
{
    if parts.len() == 0 {
        Some(Seq::empty())
    } else {
        match (rows_of(parts.drop_last()), row_of(parts.last())) {
            (Some(rows), Some(row)) => Some(rows.push(row)),
            _ => None,
        }
    }
}

/// The form for a condition: a single question or `not` of one is one row, a flat `all` or `any` is a row per
/// part, and any other tree has no form.
pub open spec fn form_of(c: CondV) -> Option<FormV> {
    match c {
        CondV::All(parts) => match rows_of(parts) {
            Some(rows) => Some(FormV { all: true, rows }),
            None => None,
        },
        CondV::Any(parts) => match rows_of(parts) {
            Some(rows) => Some(FormV { all: false, rows }),
            None => None,
        },
        _ => match row_of(c) {
            Some(row) => Some(FormV { all: true, rows: seq![row] }),
            None => None,
        },
    }
}

/// The condition one row stands for.
pub open spec fn cond_of_row(row: (bool, QuestionV)) -> CondV {
    if row.0 {
        CondV::Not(Box::new(cond_of_question(row.1)))
    } else {
        cond_of_question(row.1)
    }
}

/// The condition a form stands for: no rows is an empty control question, one row is that row alone, and more are
/// joined by `all` or `any`.
pub open spec fn cond_of_form(f: FormV) -> CondV {
    if f.rows.len() == 0 {
        CondV::Control(Seq::empty())
    } else if f.rows.len() == 1 {
        cond_of_row(f.rows[0])
    } else if f.all {
        CondV::All(f.rows.map_values(|r: (bool, QuestionV)| cond_of_row(r)))
    } else {
        CondV::Any(f.rows.map_values(|r: (bool, QuestionV)| cond_of_row(r)))
    }
}

proof fn lemma_rows_of(parts: Seq<CondV>)
    ensures
        rows_of(parts) is Some <==> forall|i: int| 0 <= i < parts.len() ==> #[trigger] row_of(parts[i]) is Some,
        rows_of(parts) matches Some(rows) ==> rows.len() == parts.len() && forall|i: int|
            0 <= i < parts.len() ==> Some(#[trigger] rows[i]) == row_of(parts[i]),
    decreases parts.len(),
{
    if parts.len() > 0 {
        let init = parts.drop_last();
        lemma_rows_of(init);
        assert forall|i: int| 0 <= i < init.len() implies #[trigger] init[i] == parts[i] by {}
        if forall|i: int| 0 <= i < parts.len() ==> #[trigger] row_of(parts[i]) is Some {
            assert forall|i: int| 0 <= i < init.len() implies #[trigger] row_of(init[i]) is Some by {
                assert(init[i] == parts[i]);
            }
            assert(row_of(parts[parts.len() - 1]) is Some);
        }
        if rows_of(parts) is Some {
            assert forall|i: int| 0 <= i < parts.len() implies #[trigger] row_of(parts[i]) is Some by {
                if i < init.len() {
                    assert(init[i] == parts[i]);
                    assert(row_of(init[i]) is Some);
                }
            }
        }
    }
}

proof fn lemma_row_round_trip(c: CondV)
    requires
        row_of(c) is Some,
    ensures
        cond_of_row(row_of(c).unwrap()) == c,
{
}

proof fn lemma_question_round_trip(q: QuestionV)
    ensures
        question_of(cond_of_question(q)) == Some(q),
        row_of(cond_of_row((false, q))) == Some((false, q)),
        row_of(cond_of_row((true, q))) == Some((true, q)),
{
}

/// Reading a condition into the form and writing the form back gives the condition that was read, for every
/// condition that has a form, except an `all` or `any` of fewer than two parts, which is written back as its one
/// part, or as an empty question.
pub proof fn form_then_cond_is_the_same_condition(c: CondV)
    requires
        form_of(c) is Some,
        c matches CondV::All(parts) ==> parts.len() >= 2,
        c matches CondV::Any(parts) ==> parts.len() >= 2,
    ensures
        cond_of_form(form_of(c).unwrap()) == c,
{
    match c {
        CondV::All(parts) => {
            lemma_rows_of(parts);
            let rows = rows_of(parts).unwrap();
            let back = rows.map_values(|r: (bool, QuestionV)| cond_of_row(r));
            assert forall|i: int| 0 <= i < parts.len() implies back[i] == parts[i] by {
                lemma_row_round_trip(parts[i]);
            }
            assert(back =~= parts);
        },
        CondV::Any(parts) => {
            lemma_rows_of(parts);
            let rows = rows_of(parts).unwrap();
            let back = rows.map_values(|r: (bool, QuestionV)| cond_of_row(r));
            assert forall|i: int| 0 <= i < parts.len() implies back[i] == parts[i] by {
                lemma_row_round_trip(parts[i]);
            }
            assert(back =~= parts);
        },
        _ => {
            lemma_row_round_trip(c);
        },
    }
}

/// Writing a form as a condition and reading it back gives the form, for a form of two rows or more; one row
/// comes back joined by `all`, which is what one row is.
pub proof fn cond_then_form_is_the_same_form(f: FormV)
    requires
        f.rows.len() >= 1,
    ensures
        f.rows.len() >= 2 ==> form_of(cond_of_form(f)) == Some(f),
        f.rows.len() == 1 ==> form_of(cond_of_form(f)) == Some(FormV { all: true, rows: f.rows }),
{
    if f.rows.len() == 1 {
        lemma_question_round_trip(f.rows[0].1);
        assert(seq![f.rows[0]] =~= f.rows);
    } else {
        let parts = f.rows.map_values(|r: (bool, QuestionV)| cond_of_row(r));
        assert forall|i: int| 0 <= i < parts.len() implies #[trigger] row_of(parts[i]) == Some(f.rows[i]) by {
            lemma_question_round_trip(f.rows[i].1);
        }
        lemma_rows_of(parts);
        let rows = rows_of(parts).unwrap();
        assert(rows =~= f.rows);
    }
}

impl Question {
    /// A copy of the question.
    pub fn copy(&self) -> (r: Question)
        ensures
            r@ == self@,
    {
        match self {
            Question::Control(s) => Question::Control(s.clone()),
            Question::Profile(p) => Question::Profile(*p),
            Question::Value { name, op, number, text } => Question::Value {
                name: name.clone(),
                op: *op,
                number: match number {
                    Some(n) => Some(n.clone()),
                    None => None,
                },
                text: match text {
                    Some(t) => Some(t.clone()),
                    None => None,
                },
            },
        }
    }
}

/// The editor's question for a file's condition, or none for a shape the editor cannot draw.
fn question_from(cond: &Cond) -> (r: Option<Question>)
    ensures
        r matches Some(q) ==> question_of(cond@) == Some(q@),
        r is None ==> question_of(cond@) is None,
{
    match cond {
        Cond::Control(control) => Some(Question::Control(control.clone())),
        Cond::Profile(profile) => Some(Question::Profile(*profile)),
        Cond::Value { name, op, number, text } => Some(Question::Value {
            name: name.clone(),
            op: *op,
            number: match number {
                Some(n) => Some(n.clone()),
                None => None,
            },
            text: match text {
                Some(t) => Some(t.clone()),
                None => None,
            },
        }),
        _ => None,
    }
}

/// The file's condition for what the editor's question says.
fn cond_from(question: &Question) -> (r: Cond)
    ensures
        r@ == cond_of_question(question@),
{
    match question {
        Question::Control(control) => Cond::Control(control.clone()),
        Question::Profile(profile) => Cond::Profile(*profile),
        Question::Value { name, op, number, text } => Cond::Value {
            name: name.clone(),
            op: *op,
            number: match number {
                Some(n) => Some(n.clone()),
                None => None,
            },
            text: match text {
                Some(t) => Some(t.clone()),
                None => None,
            },
        },
    }
}

/// The row for one part of an `all` or `any`.
fn row_from(part: &Cond) -> (r: Option<QuestionRow>)
    ensures
        r matches Some(row) ==> row_of(part@) == Some((row.not, row.question@)),
        r is None ==> row_of(part@) is None,
{
    match part {
        Cond::Not(inner) => match question_from(inner) {
            Some(q) => Some(QuestionRow { not: true, question: q }),
            None => None,
        },
        other => match question_from(other) {
            Some(q) => Some(QuestionRow { not: false, question: q }),
            None => None,
        },
    }
}

/// The rows of a form, as the contracts read them.
pub open spec fn rows_view(rows: Seq<QuestionRow>) -> Seq<(bool, QuestionV)> {
    rows.map_values(|r: QuestionRow| (r.not, r.question@))
}

impl ConditionForm {
    /// The form for a condition, or `None` when it does not fit one.
    ///
    /// A tree of nested `all`/`any` is a real thing a hand-written graph can hold, and this editor does not
    /// pretend to draw one: it says so and leaves the file alone.
    pub fn from_cond(cond: &Cond) -> (r: Option<ConditionForm>)
        ensures
            r matches Some(f) ==> form_of(cond@) == Some(f@),
            r is None ==> form_of(cond@) is None,
    {
        match cond {
            Cond::All(parts) | Cond::Any(parts) => {
                let all = match cond {
                    Cond::All(_) => true,
                    _ => false,
                };
                let ghost pv = conds_view(parts@);
                proof {
                    lemma_conds_view(parts@);
                    lemma_rows_of(pv);
                }
                let mut rows: Vec<QuestionRow> = Vec::new();
                let mut i: usize = 0;
                while i < parts.len()
                    invariant
                        pv == conds_view(parts@),
                        cond@ == (if all { CondV::All(pv) } else { CondV::Any(pv) }),
                        pv.len() == parts@.len(),
                        forall|k: int| 0 <= k < parts@.len() ==> #[trigger] pv[k] == cond_view(parts@[k]),
                        i <= parts.len(),
                        rows@.len() == i,
                        forall|k: int| 0 <= k < i ==> row_of(#[trigger] pv[k]) == Some((rows@[k].not, rows@[k].question@)),
                    decreases parts.len() - i,
                {
                    match row_from(&parts[i]) {
                        Some(row) => rows.push(row),
                        None => {
                            proof {
                                assert(row_of(pv[i as int]) is None);
                                lemma_rows_of(pv);
                            }
                            return None;
                        },
                    }
                    i += 1;
                }
                let form = ConditionForm { all, rows };
                proof {
                    let rv = rows_of(pv).unwrap();
                    assert(rv =~= rows_view(form.rows@));
                }
                Some(form)
            },
            other => match row_from(other) {
                Some(row) => {
                    let mut rows: Vec<QuestionRow> = Vec::new();
                    rows.push(row);
                    let form = ConditionForm { all: true, rows };
                    proof {
                        assert(rows_view(form.rows@) =~= seq![(form.rows@[0].not, form.rows@[0].question@)]);
                    }
                    Some(form)
                },
                None => None,
            },
        }
    }

    /// The condition this form stands for, as the file holds it.
    pub fn to_cond(&self) -> (r: Cond)
        ensures
            r@ == cond_of_form(self@),
    {
        let mut parts: Vec<Cond> = Vec::new();
        let mut i: usize = 0;
        while i < self.rows.len()
            invariant
                i <= self.rows.len(),
                parts@.len() == i,
                forall|k: int|
                    0 <= k < i ==> cond_view(#[trigger] parts@[k]) == cond_of_row(
                        (self.rows@[k].not, self.rows@[k].question@),
                    ),
            decreases self.rows.len() - i,
        {
            let question = cond_from(&self.rows[i].question);
            if self.rows[i].not {
                parts.push(Cond::Not(Box::new(question)));
            } else {
                parts.push(question);
            }
            i += 1;
        }
        proof {
            lemma_conds_view(parts@);
        }
        let n = parts.len();
        if n == 0 {
            return Cond::Control(String::new());
        }
        if n == 1 {
            let only = parts.remove(0);
            return only;
        }
        proof {
            let want = self@.rows.map_values(|r: (bool, QuestionV)| cond_of_row(r));
            assert(conds_view(parts@) =~= want);
        }
        if self.all {
            Cond::All(parts)
        } else {
            Cond::Any(parts)
        }
    }

    /// What this condition reads as, in one line.
    pub fn describe(&self) -> (r: String)
        ensures
            r@ == describe_form(self@),
    {
        if self.rows.len() == 0 {
            return owned("nothing yet");
        }
        let join = if self.all { " and " } else { " or " };
        let mut out = String::new();
        let mut i: usize = 0;
        while i < self.rows.len()
            invariant
                0 < self.rows.len(),
                i <= self.rows.len(),
                join@ == (if self.all { " and "@ } else { " or "@ }),
                out@ == describe_rows(rows_view(self.rows@).subrange(0, i as int), join@),
            decreases self.rows.len() - i,
        {
            let not = if self.rows[i].not { "not " } else { "" };
            let said = join2(not, describe_question(&self.rows[i].question).as_str());
            proof {
                let r = rows_view(self.rows@);
                assert(r.subrange(0, i + 1).drop_last() =~= r.subrange(0, i as int));
            }
            if i == 0 {
                out = said;
            } else {
                out = join3(out.as_str(), join, said.as_str());
            }
            i += 1;
        }
        proof {
            assert(rows_view(self.rows@).subrange(0, self.rows@.len() as int) =~= rows_view(self.rows@));
        }
        out
    }
}

/// A comparison as a person reads it.
pub open spec fn op_words_of(op: Compare) -> Seq<char> {
    match op {
        Compare::Eq => "is"@,
        Compare::Ne => "is not"@,
        Compare::Lt => "<"@,
        Compare::Le => "<="@,
        Compare::Gt => ">"@,
        Compare::Ge => ">="@,
        Compare::Contains => "contains"@,
    }
}

/// A comparison as a person reads it: `is`, `is not`.
pub fn op_words(op: Compare) -> (r: &'static str)
    ensures
        r@ == op_words_of(op),
{
    match op {
        Compare::Eq => "is",
        Compare::Ne => "is not",
        Compare::Lt => "<",
        Compare::Le => "<=",
        Compare::Gt => ">",
        Compare::Ge => ">=",
        Compare::Contains => "contains",
    }
}

/// The comparison a word stands for, or none when it is not one the editor offers.
pub open spec fn op_of_text(t: Seq<char>) -> Option<Compare> {
    if t == "is"@ || t == "=="@ || t == "="@ { Some(Compare::Eq) }
    else if t == "is not"@ || t == "!="@ { Some(Compare::Ne) }
    else if t == "<"@ { Some(Compare::Lt) }
    else if t == "<="@ { Some(Compare::Le) }
    else if t == ">"@ { Some(Compare::Gt) }
    else if t == ">="@ { Some(Compare::Ge) }
    else if t == "contains"@ { Some(Compare::Contains) }
    else { None }
}

/// The comparison a word stands for, or none when it is not one the editor offers.
pub fn op_from_text(text: &str) -> (r: Option<Compare>)
    ensures
        r == op_of_text(text@),
{
    if same_text(text, "is") || same_text(text, "==") || same_text(text, "=") { Some(Compare::Eq) }
    else if same_text(text, "is not") || same_text(text, "!=") { Some(Compare::Ne) }
    else if same_text(text, "<") { Some(Compare::Lt) }
    else if same_text(text, "<=") { Some(Compare::Le) }
    else if same_text(text, ">") { Some(Compare::Gt) }
    else if same_text(text, ">=") { Some(Compare::Ge) }
    else if same_text(text, "contains") { Some(Compare::Contains) }
    else { None }
}

/// A question in the window's words.
pub open spec fn describe_question_of(q: QuestionV) -> Seq<char> {
    match q {
        QuestionV::Control(control) => if control.len() == 0 {
            "fired by ..."@
        } else {
            "fired by "@ + control
        },
        QuestionV::Profile(p) => "profile "@ + crate::text::decimal(p as nat) + " is active"@,
        QuestionV::Value { name, op, number, text } => {
            let against = match (number, text) {
                (_, Some(t)) => debug_quoted(t),
                (Some(n), None) => n,
                (None, None) => "..."@,
            };
            if name.len() == 0 {
                "a value ..."@
            } else {
                name + " "@ + op_words_of(op) + " "@ + against
            }
        },
    }
}

/// Each row in words, joined by the word between them.
pub open spec fn describe_rows(rows: Seq<(bool, QuestionV)>, join: Seq<char>) -> Seq<char>
    decreases rows.len(),
{
    if rows.len() == 0 {
        Seq::empty()
    } else {
        let last = rows.last();
        let said = (if last.0 { "not "@ } else { ""@ }) + describe_question_of(last.1);
        if rows.len() == 1 {
            said
        } else {
            describe_rows(rows.drop_last(), join) + join + said
        }
    }
}

proof fn lemma_negated_row_words(rows: Seq<(bool, QuestionV)>, join: Seq<char>, i: int, q: QuestionV) -> (ps: (
    Seq<char>,
    Seq<char>,
))
    requires
        0 <= i < rows.len(),
    ensures
        describe_rows(rows.update(i, (false, q)), join) == ps.0 + describe_question_of(q) + ps.1,
        describe_rows(rows.update(i, (true, q)), join) == ps.0 + "not "@ + describe_question_of(q) + ps.1,
    decreases rows.len(),
{
    reveal_strlit("not ");
    let rf = rows.update(i, (false, q));
    let rt = rows.update(i, (true, q));
    let said = describe_question_of(q);
    if i == rows.len() - 1 {
        assert(rf.drop_last() =~= rows.drop_last());
        assert(rt.drop_last() =~= rows.drop_last());
        let p = if rows.len() == 1 {
            Seq::<char>::empty()
        } else {
            describe_rows(rows.drop_last(), join) + join
        };
        assert(""@ =~= Seq::<char>::empty()) by {
            reveal_strlit("");
        }
        assert(describe_rows(rf, join) =~= p + said + Seq::<char>::empty());
        assert(describe_rows(rt, join) =~= p + "not "@ + said + Seq::<char>::empty());
        (p, Seq::empty())
    } else {
        let init = rows.drop_last();
        let (p, t) = lemma_negated_row_words(init, join, i, q);
        assert(rf.drop_last() =~= init.update(i, (false, q)));
        assert(rt.drop_last() =~= init.update(i, (true, q)));
        assert(rf.last() == rows.last());
        assert(rt.last() == rows.last());
        let last = rows.last();
        let tail_said = (if last.0 { "not "@ } else { ""@ }) + describe_question_of(last.1);
        let t2 = t + join + tail_said;
        assert(describe_rows(rf, join) =~= p + said + t2);
        assert(describe_rows(rt, join) =~= p + "not "@ + said + t2);
        (p, t2)
    }
}

/// A negated row reads as `not` and its question, and only that sets it apart: a form and the same form with one
/// row negated read the same but for `not ` before that row's question.
pub proof fn a_negated_row_reads_as_not_its_question(f: FormV, i: int, q: QuestionV)
    requires
        0 <= i < f.rows.len(),
    ensures
        exists|before: Seq<char>, after: Seq<char>|
            describe_form(FormV { rows: f.rows.update(i, (false, q)), ..f }) == before + describe_question_of(q) + after
                && describe_form(FormV { rows: f.rows.update(i, (true, q)), ..f }) == before + "not "@
                + describe_question_of(q) + after,
        describe_form(FormV { rows: f.rows.update(i, (true, q)), ..f }) != describe_form(
            FormV { rows: f.rows.update(i, (false, q)), ..f },
        ),
{
    reveal_strlit("not ");
    let join = if f.all { " and "@ } else { " or "@ };
    let (p, t) = lemma_negated_row_words(f.rows, join, i, q);
    let a = describe_form(FormV { rows: f.rows.update(i, (false, q)), ..f });
    let b = describe_form(FormV { rows: f.rows.update(i, (true, q)), ..f });
    assert(a == p + describe_question_of(q) + t);
    assert(b == p + "not "@ + describe_question_of(q) + t);
    assert(b.len() == a.len() + 4);
}

/// A form in one line: its rows joined by `and` or `or`, or `nothing yet` when it has none.
pub open spec fn describe_form(f: FormV) -> Seq<char> {
    if f.rows.len() == 0 {
        "nothing yet"@
    } else {
        describe_rows(f.rows, if f.all { " and "@ } else { " or "@ })
    }
}

/// A question in the words the window uses.
pub fn describe_question(question: &Question) -> (r: String)
    ensures
        r@ == describe_question_of(question@),
{
    match question {
        Question::Control(control) => {
            if control.as_str().unicode_len() == 0 {
                owned("fired by ...")
            } else {
                join2("fired by ", control.as_str())
            }
        },
        Question::Profile(profile) => {
            let n = decimal_text(*profile as u64);
            join3("profile ", n.as_str(), " is active")
        },
        Question::Value { name, op, number, text } => {
            let against = match text {
                Some(t) => quoted(t.as_str()),
                None => match number {
                    Some(n) => n.clone(),
                    None => owned("..."),
                },
            };
            if name.as_str().unicode_len() == 0 {
                owned("a value ...")
            } else {
                let head = join3(name.as_str(), " ", op_words(*op));
                join3(head.as_str(), " ", against.as_str())
            }
        },
    }
}

/// A copy of a condition, all the way down.
pub fn copy_cond(c: &Cond) -> (r: Cond)
    ensures
        r@ == c@,
    decreases c,
{
    match c {
        Cond::Control(s) => Cond::Control(s.clone()),
        Cond::Profile(p) => Cond::Profile(*p),
        Cond::Value { name, op, number, text } => Cond::Value {
            name: name.clone(),
            op: *op,
            number: match number {
                Some(n) => Some(n.clone()),
                None => None,
            },
            text: match text {
                Some(t) => Some(t.clone()),
                None => None,
            },
        },
        Cond::All(parts) | Cond::Any(parts) => {
            let mut out: Vec<Cond> = Vec::new();
            let mut i: usize = 0;
            while i < parts.len()
                invariant
                    *c == Cond::All(*parts) || *c == Cond::Any(*parts),
                    i <= parts.len(),
                    out@.len() == i,
                    forall|k: int| 0 <= k < i ==> cond_view(#[trigger] out@[k]) == cond_view(parts@[k]),
                decreases parts.len() - i,
            {
                proof {
                    if *c == Cond::All(*parts) {
                        assert(decreases_to!(*c => (*c)->All_0));
                    } else {
                        assert(decreases_to!(*c => (*c)->Any_0));
                    }
                    assert(decreases_to!(*parts => parts[i as int]));
                    assert(decreases_to!(*c => parts[i as int]));
                }
                let copy = copy_cond(&parts[i]);
                out.push(copy);
                i += 1;
            }
            proof {
                lemma_conds_view(out@);
                lemma_conds_view(parts@);
                assert(conds_view(out@) =~= conds_view(parts@));
            }
            match c {
                Cond::All(_) => Cond::All(out),
                _ => Cond::Any(out),
            }
        },
        Cond::Not(inner) => Cond::Not(Box::new(copy_cond(inner))),
    }
}

} // verus!
