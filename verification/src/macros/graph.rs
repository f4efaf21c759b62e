//! A macro's two shapes: the flat steps a recording produces, and the graph of nodes a macro that decides things
//! is. Everything here edits one of them in memory; reading and writing the files is the caller's business.

use vstd::prelude::*;
use crate::macros::cond::{describe_form, form_of, Cond, CondV, ConditionForm};
use crate::json::{field_del, field_get, field_put, field_index, lemma_field_get_index, lemma_field_index_first, lemma_field_index_none, lemma_field_put_at, lemma_field_del_at};
use crate::text::{trim, trimmed, is_before, text_before, same_text, texts, contains_text, decimal, decimal_text, join2, join3, owned, quoted, debug_quoted, strip_prefix, starts_with};

verus! {

/// One step of a macro's flat form.
#[derive(Debug, Clone, Copy, PartialEq, Eq, Structural)]
pub enum MacroStep {
    /// A key goes down.
    KeyDown(u16),
    /// A key comes up.
    KeyUp(u16),
    /// A pause, in milliseconds.
    Delay(u32),
}

/// What a key node does with its key.
#[derive(Debug, Clone, Copy, PartialEq, Eq, Structural)]
pub enum KeyMode {
    /// Down, a hold, and up again.
    Tap,
    /// Down only.
    Down,
    /// Up only.
    Up,
}

/// What a key node's mode is called in the editor.
pub open spec fn mode_words(mode: KeyMode) -> Seq<char> {
    match mode {
        KeyMode::Tap => "tap"@,
        KeyMode::Down => "hold down"@,
        KeyMode::Up => "release"@,
    }
}

/// What a key node's mode is called in the editor.
pub fn mode_name(mode: KeyMode) -> (r: &'static str)
    ensures
        r@ == mode_words(mode),
{
    match mode {
        KeyMode::Tap => "tap",
        KeyMode::Down => "hold down",
        KeyMode::Up => "release",
    }
}

/// What a node does.
#[derive(Debug, PartialEq)]
pub enum NodeKind {
    /// A key: pressed for `hold` milliseconds, held down, or let go.
    Key { code: u16, hold: u32, mode: KeyMode },
    /// A pause.
    Wait { ms: u32 },
    /// Text typed a key at a time.
    Type { text: String, per_key: u32 },
    /// A question, leaving by `then` or `else`.
    If { when: Cond },
    /// The `body` done this many times, then `then`.
    Repeat { times: u32 },
    /// Another macro played.
    Call { macro_id: u32 },
    /// A command run.
    Run { spec: String },
    /// The end.
    Stop,
}

/// A box on the canvas.
#[derive(Debug, PartialEq)]
pub struct GraphNode {
    /// Its name, which the lines and the start use.
    pub id: String,
    /// What it does.
    pub kind: NodeKind,
    /// Where it sits across the canvas, in points.
    pub x: i64,
    /// Where it sits down the canvas, in points.
    pub y: i64,
}

/// A line from one node's port to another node.
#[derive(Debug, Clone, PartialEq)]
pub struct GraphEdge {
    /// The node it leaves.
    pub from: String,
    /// The port it leaves by.
    pub port: String,
    /// The node it reaches.
    pub to: String,
}

/// A macro that decides things.
#[derive(Debug, PartialEq)]
pub struct MacroGraph {
    /// The node the walk starts at.
    pub start: String,
    /// The boxes.
    pub nodes: Vec<GraphNode>,
    /// The lines.
    pub edges: Vec<GraphEdge>,
    /// The sources its questions can read, by name: a name and what it reads, each name once.
    pub sources: Vec<(String, String)>,
}

/// What the contracts say a node does.
pub enum NodeKindV {
    Key { code: u16, hold: u32, mode: KeyMode },
    Wait { ms: u32 },
    Type { text: Seq<char>, per_key: u32 },
    If { when: CondV },
    Repeat { times: u32 },
    Call { macro_id: u32 },
    Run { spec: Seq<char> },
    Stop,
}

/// What the contracts say a node is.
pub struct NodeV {
    pub id: Seq<char>,
    pub kind: NodeKindV,
    pub x: i64,
    pub y: i64,
}

/// What the contracts say a graph is.
pub struct GraphV {
    pub start: Seq<char>,
    pub nodes: Seq<NodeV>,
    pub edges: Seq<(Seq<char>, Seq<char>, Seq<char>)>,
    pub sources: Seq<(Seq<char>, Seq<char>)>,
}

impl View for NodeKind {
    type V = NodeKindV;

    open spec fn view(&self) -> NodeKindV {
        match self {
            NodeKind::Key { code, hold, mode } => NodeKindV::Key { code: *code, hold: *hold, mode: *mode },
            NodeKind::Wait { ms } => NodeKindV::Wait { ms: *ms },
            NodeKind::Type { text, per_key } => NodeKindV::Type { text: text@, per_key: *per_key },
            NodeKind::If { when } => NodeKindV::If { when: when@ },
            NodeKind::Repeat { times } => NodeKindV::Repeat { times: *times },
            NodeKind::Call { macro_id } => NodeKindV::Call { macro_id: *macro_id },
            NodeKind::Run { spec } => NodeKindV::Run { spec: spec@ },
            NodeKind::Stop => NodeKindV::Stop,
        }
    }
}

impl View for GraphNode {
    type V = NodeV;

    open spec fn view(&self) -> NodeV {
        NodeV { id: self.id@, kind: self.kind@, x: self.x, y: self.y }
    }
}

impl View for GraphEdge {
    type V = (Seq<char>, Seq<char>, Seq<char>);

    open spec fn view(&self) -> (Seq<char>, Seq<char>, Seq<char>) {
        (self.from@, self.port@, self.to@)
    }
}

/// The nodes as the contracts read them.
pub open spec fn nodes_view(s: Seq<GraphNode>) -> Seq<NodeV> {
    s.map_values(|n: GraphNode| n@)
}

/// The lines as the contracts read them.
pub open spec fn edges_view(s: Seq<GraphEdge>) -> Seq<(Seq<char>, Seq<char>, Seq<char>)> {
    s.map_values(|e: GraphEdge| e@)
}

/// The sources as the contracts read them.
pub open spec fn pairs_view(s: Seq<(String, String)>) -> Seq<(Seq<char>, Seq<char>)> {
    s.map_values(|p: (String, String)| (p.0@, p.1@))
}

impl View for MacroGraph {
    type V = GraphV;

    open spec fn view(&self) -> GraphV {
        GraphV {
            start: self.start@,
            nodes: nodes_view(self.nodes@),
            edges: edges_view(self.edges@),
            sources: pairs_view(self.sources@),
        }
    }
}

/// The ports a node can leave by, in the order the editor shows them.
pub open spec fn ports_of(kind: NodeKindV) -> Seq<Seq<char>> {
    match kind {
        NodeKindV::If { .. } => seq!["then"@, "else"@],
        NodeKindV::Repeat { .. } => seq!["body"@, "then"@],
        _ => seq!["out"@],
    }
}

/// The ports a node can leave by, in the order the editor shows them.
///
/// A port with no line is a port the walker ends at, which is a real thing to want: `if` with nothing on
/// `else` means "otherwise, finish".
pub fn ports_of_kind(kind: &NodeKind) -> (r: Vec<&'static str>)
    ensures
        r@.map_values(|p: &'static str| p@) == ports_of(kind@),
{
    let mut r: Vec<&'static str> = Vec::new();
    match kind {
        NodeKind::If { .. } => {
            r.push("then");
            r.push("else");
        },
        NodeKind::Repeat { .. } => {
            r.push("body");
            r.push("then");
        },
        _ => {
            r.push("out");
        },
    }
    assert(r@.map_values(|p: &'static str| p@) =~= ports_of(kind@));
    r
}

/// What a port means, in words.
pub open spec fn port_words(port: Seq<char>) -> Seq<char> {
    if port == "then"@ {
        "then (if yes, or when a repeat is done)"@
    } else if port == "else"@ {
        "else (if no)"@
    } else if port == "body"@ {
        "body (the bit a repeat does again)"@
    } else {
        "next"@
    }
}

/// What a port means, in words.
///
/// The file's own names are `out`, `then`, `else` and `body`, and they stay in the file. A person reading the
/// picture needs "if yes" and "when it has done".
pub fn describe_port(port: &str) -> (r: &'static str)
    ensures
        r@ == port_words(port@),
{
    if crate::text::same_text(port, "then") {
        "then (if yes, or when a repeat is done)"
    } else if crate::text::same_text(port, "else") {
        "else (if no)"
    } else if crate::text::same_text(port, "body") {
        "body (the bit a repeat does again)"
    } else {
        "next"
    }
}

/// How a node reads on the canvas, given the name of its key (which only a key node uses).
pub open spec fn node_words_of(kind: NodeKindV, key: Seq<char>) -> Seq<char> {
    match kind {
        NodeKindV::Key { code, hold, mode } => match mode {
            KeyMode::Tap => if hold == 30 {
                "Press "@ + key
            } else {
                "Press "@ + key + " for "@ + decimal(hold as nat) + "ms"@
            },
            KeyMode::Down => "Hold "@ + key + " down"@,
            KeyMode::Up => "Release "@ + key,
        },
        NodeKindV::Wait { ms } => "Wait "@ + decimal(ms as nat) + "ms"@,
        NodeKindV::Type { text, per_key } => if per_key == 30 {
            "Type "@ + debug_quoted(text)
        } else {
            "Type "@ + debug_quoted(text) + ", "@ + decimal(per_key as nat) + "ms apart"@
        },
        NodeKindV::If { when } => match form_of(when) {
            Some(form) => "If "@ + describe_form(form),
            None => "If (a question only the file holds)"@,
        },
        NodeKindV::Repeat { times } => "Repeat "@ + decimal(times as nat) + " times"@,
        NodeKindV::Call { macro_id } => "Play macro "@ + decimal(macro_id as nat),
        NodeKindV::Run { spec } => if starts_with(spec, "cmd:"@) {
            "Run "@ + spec.subrange(4, spec.len() as int)
        } else {
            "Run "@ + spec
        },
        NodeKindV::Stop => "Finish"@,
    }
}

/// How a node reads on the canvas: the words a person would say, so the picture is worth reading on its own.
///
/// `key` is the name of the key a key node presses, as the key table names its code; other kinds ignore it.
pub fn node_words(kind: &NodeKind, key: &str) -> (r: String)
    ensures
        r@ == node_words_of(kind@, key@),
{
    proof {
        reveal_strlit("cmd:");
    }
    match kind {
        NodeKind::Key { code, hold, mode } => match mode {
            KeyMode::Tap => {
                if *hold == 30 {
                    join2("Press ", key)
                } else {
                    let head = join3("Press ", key, " for ");
                    let ms = decimal_text(*hold as u64);
                    join3(head.as_str(), ms.as_str(), "ms")
                }
            },
            KeyMode::Down => join3("Hold ", key, " down"),
            KeyMode::Up => join2("Release ", key),
        },
        NodeKind::Wait { ms } => {
            let n = decimal_text(*ms as u64);
            join3("Wait ", n.as_str(), "ms")
        },
        NodeKind::Type { text, per_key } => {
            let said = quoted(text.as_str());
            if *per_key == 30 {
                join2("Type ", said.as_str())
            } else {
                let head = join3("Type ", said.as_str(), ", ");
                let n = decimal_text(*per_key as u64);
                join3(head.as_str(), n.as_str(), "ms apart")
            }
        },
        NodeKind::If { when } => match ConditionForm::from_cond(when) {
            Some(form) => {
                let said = form.describe();
                join2("If ", said.as_str())
            },
            None => owned("If (a question only the file holds)"),
        },
        NodeKind::Repeat { times } => {
            let n = decimal_text(*times as u64);
            join3("Repeat ", n.as_str(), " times")
        },
        NodeKind::Call { macro_id } => {
            let n = decimal_text(*macro_id as u64);
            join2("Play macro ", n.as_str())
        },
        NodeKind::Run { spec } => match strip_prefix(spec.as_str(), "cmd:") {
            Some(command) => join2("Run ", command.as_str()),
            None => join2("Run ", spec.as_str()),
        },
        NodeKind::Stop => owned("Finish"),
    }
}

/// The text the canvas writes on a box: what it does, and its own name underneath.
pub fn box_text(kind: &NodeKind, key: &str) -> (r: (String, String))
    ensures
        r.0@ == node_words_of(kind@, key@),
        r.1@ == Seq::<char>::empty(),
{
    (node_words(kind, key), String::new())
}

/// The number a numeric field holds, for the fields that are numbers.
pub open spec fn number_of(kind: NodeKindV, field: Seq<char>) -> Option<u32> {
    match kind {
        NodeKindV::Key { code, hold, .. } => if field == "code"@ {
            Some(code as u32)
        } else if field == "hold"@ {
            Some(hold)
        } else {
            None
        },
        NodeKindV::Wait { ms } => if field == "ms"@ { Some(ms) } else { None },
        NodeKindV::Type { per_key, .. } => if field == "per_key"@ { Some(per_key) } else { None },
        NodeKindV::Repeat { times } => if field == "times"@ { Some(times) } else { None },
        NodeKindV::Call { macro_id } => if field == "macro"@ { Some(macro_id) } else { None },
        _ => None,
    }
}

/// The value of a field as the editor holds it, for the fields that are numbers.
pub fn node_number(kind: &NodeKind, field: &str) -> (r: Option<u32>)
    ensures
        r == number_of(kind@, field@),
{
    match kind {
        NodeKind::Key { code, hold, .. } => if crate::text::same_text(field, "code") {
            Some(*code as u32)
        } else if crate::text::same_text(field, "hold") {
            Some(*hold)
        } else {
            None
        },
        NodeKind::Wait { ms } => if crate::text::same_text(field, "ms") { Some(*ms) } else { None },
        NodeKind::Type { per_key, .. } => if crate::text::same_text(field, "per_key") {
            Some(*per_key)
        } else {
            None
        },
        NodeKind::Repeat { times } => if crate::text::same_text(field, "times") { Some(*times) } else { None },
        NodeKind::Call { macro_id } => if crate::text::same_text(field, "macro") {
            Some(*macro_id)
        } else {
            None
        },
        _ => None,
    }
}

/// A whole number held between two bounds.
pub open spec fn clamped(value: int, lo: int, hi: int) -> int {
    if value < lo { lo } else if value > hi { hi } else { value }
}

fn clamp(value: i64, lo: i64, hi: i64) -> (r: i64)
    requires
        lo <= hi,
    ensures
        r == clamped(value as int, lo as int, hi as int),
{
    if value < lo { lo } else if value > hi { hi } else { value }
}

/// A kind with a numeric field set, held to what the format accepts: a code up to 65535, a hold up to a minute,
/// a wait up to ten minutes, a gap between typed keys up to ten seconds, a repeat from one to ten thousand
/// times, and any macro number. Another field, or a field the kind does not have, changes nothing.
pub open spec fn with_number(kind: NodeKindV, field: Seq<char>, value: int) -> NodeKindV {
    match kind {
        NodeKindV::Key { code, hold, mode } => if field == "code"@ {
            NodeKindV::Key { code: clamped(value, 0, 65535) as u16, hold, mode }
        } else if field == "hold"@ {
            NodeKindV::Key { code, hold: clamped(value, 0, 60000) as u32, mode }
        } else {
            kind
        },
        NodeKindV::Wait { ms } => if field == "ms"@ {
            NodeKindV::Wait { ms: clamped(value, 0, 600000) as u32 }
        } else {
            kind
        },
        NodeKindV::Type { text, per_key } => if field == "per_key"@ {
            NodeKindV::Type { text, per_key: clamped(value, 0, 10000) as u32 }
        } else {
            kind
        },
        NodeKindV::Repeat { times } => if field == "times"@ {
            NodeKindV::Repeat { times: clamped(value, 1, 10000) as u32 }
        } else {
            kind
        },
        NodeKindV::Call { macro_id } => if field == "macro"@ {
            NodeKindV::Call { macro_id: clamped(value, 0, 0xffff_ffff) as u32 }
        } else {
            kind
        },
        _ => kind,
    }
}

/// Set a numeric field, clamped to something the format accepts. The value is the whole number the editor was
/// given, already rounded.
pub fn set_node_number(kind: &mut NodeKind, field: &str, value: i64)
    ensures
        final(kind)@ == with_number(old(kind)@, field@, value as int),
{
    match kind {
        NodeKind::Key { code, hold, .. } => {
            if crate::text::same_text(field, "code") {
                *code = clamp(value, 0, 65535) as u16;
            } else if crate::text::same_text(field, "hold") {
                *hold = clamp(value, 0, 60000) as u32;
            }
        },
        NodeKind::Wait { ms } => {
            if crate::text::same_text(field, "ms") {
                *ms = clamp(value, 0, 600000) as u32;
            }
        },
        NodeKind::Type { per_key, .. } => {
            if crate::text::same_text(field, "per_key") {
                *per_key = clamp(value, 0, 10000) as u32;
            }
        },
        NodeKind::Repeat { times } => {
            if crate::text::same_text(field, "times") {
                *times = clamp(value, 1, 10000) as u32;
            }
        },
        NodeKind::Call { macro_id } => {
            if crate::text::same_text(field, "macro") {
                *macro_id = clamp(value, 0, 0xffff_ffff) as u32;
            }
        },
        _ => {},
    }
}

/// A node's name in the file: `n` and a number, the way the editor numbers what it makes.
pub open spec fn node_name(k: nat) -> Seq<char> {
    "n"@ + decimal(k)
}

/// `n` and a number.
pub fn node_name_text(k: u64) -> (r: String)
    ensures
        r@ == node_name(k as nat),
{
    let n = decimal_text(k);
    join2("n", n.as_str())
}

/// How far down the canvas the box in this row starts: seventy points a row below the first at thirty, or as far
/// down as a position goes.
pub open spec fn row_y(index: int) -> i64 {
    if 30 + 70 * index <= i64::MAX { (30 + 70 * index) as i64 } else { i64::MAX }
}

fn row_y_of(index: usize) -> (r: i64)
    ensures
        r == row_y(index as int),
{
    if index as u64 <= 131_762_457_669_353_939u64 {
        30 + 70 * (index as i64)
    } else {
        i64::MAX
    }
}

/// Whether the steps start with one press: a key down, a pause, and the same key up.
pub open spec fn starts_with_press(s: Seq<MacroStep>) -> bool {
    &&& s.len() >= 3
    &&& s[0] matches MacroStep::KeyDown(down)
    &&& s[1] is Delay
    &&& s[2] matches MacroStep::KeyUp(up)
    &&& down == up
}

/// The node one step on its own becomes.
pub open spec fn step_kind(step: MacroStep) -> NodeKindV {
    match step {
        MacroStep::KeyDown(code) => NodeKindV::Key { code, hold: 30, mode: KeyMode::Down },
        MacroStep::KeyUp(code) => NodeKindV::Key { code, hold: 30, mode: KeyMode::Up },
        MacroStep::Delay(ms) => NodeKindV::Wait { ms },
    }
}

/// What the flow does, before it is given positions and names: a key pressed and released with only a pause
/// between is one press, and every other step is a node of its own.
pub open spec fn chain_kinds(s: Seq<MacroStep>) -> Seq<NodeKindV>
    decreases s.len(),
{
    if s.len() == 0 {
        Seq::empty()
    } else if starts_with_press(s) {
        seq![NodeKindV::Key { code: s[0]->KeyDown_0, hold: s[1]->Delay_0, mode: KeyMode::Tap }] + chain_kinds(
            s.subrange(3, s.len() as int),
        )
    } else {
        seq![step_kind(s[0])] + chain_kinds(s.subrange(1, s.len() as int))
    }
}

/// The steps a node stands for, when played.
pub open spec fn kind_steps(kind: NodeKindV) -> Seq<MacroStep> {
    match kind {
        NodeKindV::Key { code, hold, mode } => match mode {
            KeyMode::Tap => seq![MacroStep::KeyDown(code), MacroStep::Delay(hold), MacroStep::KeyUp(code)],
            KeyMode::Down => seq![MacroStep::KeyDown(code)],
            KeyMode::Up => seq![MacroStep::KeyUp(code)],
        },
        NodeKindV::Wait { ms } => seq![MacroStep::Delay(ms)],
        _ => Seq::empty(),
    }
}

/// The steps a chain of nodes stands for, one node after the other.
pub open spec fn chain_steps(kinds: Seq<NodeKindV>) -> Seq<MacroStep>
    decreases kinds.len(),
{
    if kinds.len() == 0 {
        Seq::empty()
    } else {
        kind_steps(kinds[0]) + chain_steps(kinds.subrange(1, kinds.len() as int))
    }
}

/// Turning steps into a chain keeps them: played node after node, the chain presses, holds, releases and waits
/// exactly as the steps did.
pub proof fn chain_keeps_the_steps(s: Seq<MacroStep>)
    ensures
        chain_steps(chain_kinds(s)) == s,
    decreases s.len(),
{
    if s.len() > 0 {
        let k = chain_kinds(s);
        if starts_with_press(s) {
            let rest = s.subrange(3, s.len() as int);
            chain_keeps_the_steps(rest);
            assert(k.subrange(1, k.len() as int) =~= chain_kinds(rest));
            assert(kind_steps(k[0]) =~= s.subrange(0, 3));
            assert(s.subrange(0, 3) + rest =~= s);
        } else {
            let rest = s.subrange(1, s.len() as int);
            chain_keeps_the_steps(rest);
            assert(k.subrange(1, k.len() as int) =~= chain_kinds(rest));
            assert(kind_steps(k[0]) =~= seq![s[0]]);
            assert(seq![s[0]] + rest =~= s);
        }
    }
}

/// The graph a chain of kinds makes: node `n1`, `n2`, ... in order, each joined to the next by its `out` port,
/// laid down the canvas, starting at the first; no sources.
pub open spec fn is_chain(g: GraphV, kinds: Seq<NodeKindV>) -> bool {
    &&& g.nodes.len() == kinds.len()
    &&& forall|i: int| 0 <= i < kinds.len() ==> (#[trigger] g.nodes[i]).id == node_name((i + 1) as nat)
        && g.nodes[i].kind == kinds[i] && g.nodes[i].x == 60 && g.nodes[i].y == row_y(i)
    &&& g.edges.len() == (if kinds.len() == 0 { 0 } else { kinds.len() - 1 })
    &&& forall|i: int| 0 <= i < g.edges.len() ==> #[trigger] g.edges[i] == (
        node_name((i + 1) as nat),
        "out"@,
        node_name((i + 2) as nat),
    )
    &&& g.start == (if kinds.len() == 0 { Seq::<char>::empty() } else { node_name(1) })
    &&& g.sources.len() == 0
}

fn copy_kind(kind: &NodeKind) -> (r: NodeKind)
    ensures
        r@ == kind@,
{
    match kind {
        NodeKind::Key { code, hold, mode } => NodeKind::Key { code: *code, hold: *hold, mode: *mode },
        NodeKind::Wait { ms } => NodeKind::Wait { ms: *ms },
        NodeKind::Type { text, per_key } => NodeKind::Type { text: text.clone(), per_key: *per_key },
        NodeKind::If { when } => NodeKind::If { when: crate::macros::cond::copy_cond(when) },
        NodeKind::Repeat { times } => NodeKind::Repeat { times: *times },
        NodeKind::Call { macro_id } => NodeKind::Call { macro_id: *macro_id },
        NodeKind::Run { spec } => NodeKind::Run { spec: spec.clone() },
        NodeKind::Stop => NodeKind::Stop,
    }
}

/// The steps of a macro as a chain of nodes: what "make it decide things" writes.
///
/// It has to behave exactly as the recording did, and it has to read as the flow it is: a key pressed and
/// released with nothing but a pause between becomes one press, a chord is left as holds and releases, and a
/// wait stays a wait. The macro's number and name are not part of the graph.
pub fn steps_as_chain(id: u32, steps: &[MacroStep], name: &str) -> (g: MacroGraph)
    ensures
        is_chain(g@, chain_kinds(steps@)),
{
    let ghost all = steps@;
    let mut kinds: Vec<NodeKind> = Vec::new();
    let mut at: usize = 0;
    assert(all.subrange(0, all.len() as int) =~= all);
    while at < steps.len()
        invariant
            all == steps@,
            at <= steps.len(),
            kinds@.map_values(|k: NodeKind| k@) + chain_kinds(all.subrange(at as int, all.len() as int))
                == chain_kinds(all),
        decreases steps.len() - at,
    {
        let ghost rest = all.subrange(at as int, all.len() as int);
        let ghost before = kinds@.map_values(|k: NodeKind| k@);
        let mut pressed = false;
        if steps.len() - at > 2 {
            match (steps[at], steps[at + 1], steps[at + 2]) {
                (MacroStep::KeyDown(down), MacroStep::Delay(ms), MacroStep::KeyUp(up)) => {
                    if down == up {
                        kinds.push(NodeKind::Key { code: down, hold: ms, mode: KeyMode::Tap });
                        pressed = true;
                        proof {
                            assert(starts_with_press(rest));
                            assert(rest.subrange(3, rest.len() as int) =~= all.subrange(at + 3, all.len() as int));
                            assert(kinds@.map_values(|k: NodeKind| k@) =~= before.push(chain_kinds(rest)[0]));
                        }
                        at += 3;
                    }
                },
                _ => {},
            }
        }
        if !pressed {
            proof {
                assert(!starts_with_press(rest));
            }
            let kind = match steps[at] {
                MacroStep::KeyDown(code) => NodeKind::Key { code, hold: 30, mode: KeyMode::Down },
                MacroStep::KeyUp(code) => NodeKind::Key { code, hold: 30, mode: KeyMode::Up },
                MacroStep::Delay(ms) => NodeKind::Wait { ms },
            };
            kinds.push(kind);
            proof {
                assert(rest.subrange(1, rest.len() as int) =~= all.subrange(at + 1, all.len() as int));
                assert(kinds@.map_values(|k: NodeKind| k@) =~= before.push(chain_kinds(rest)[0]));
            }
            at += 1;
        }
        proof {
            let now = kinds@.map_values(|k: NodeKind| k@);
            let left = all.subrange(at as int, all.len() as int);
            assert(chain_kinds(rest) =~= seq![chain_kinds(rest)[0]] + chain_kinds(left));
            assert(now + chain_kinds(left) =~= before + chain_kinds(rest));
        }
    }
    let ghost want = chain_kinds(all);
    proof {
        assert(all.subrange(at as int, all.len() as int) =~= Seq::<MacroStep>::empty());
        assert(kinds@.map_values(|k: NodeKind| k@) =~= want);
    }
    let mut nodes: Vec<GraphNode> = Vec::new();
    let mut edges: Vec<GraphEdge> = Vec::new();
    let mut index: usize = 0;
    while index < kinds.len()
        invariant
            want == kinds@.map_values(|k: NodeKind| k@),
            index <= kinds.len(),
            nodes@.len() == index,
            forall|i: int| 0 <= i < index ==> (#[trigger] nodes@[i])@.id == node_name((i + 1) as nat)
                && nodes@[i]@.kind == want[i] && nodes@[i].x == 60 && nodes@[i].y == row_y(i),
            edges@.len() == (if index == 0 { 0 } else { index - 1 }),
            forall|i: int| 0 <= i < edges@.len() ==> (#[trigger] edges@[i])@ == (
                node_name((i + 1) as nat),
                "out"@,
                node_name((i + 2) as nat),
            ),
        decreases kinds.len() - index,
    {
        let node_id = node_name_text(index as u64 + 1);
        let kind = copy_kind(&kinds[index]);
        if index > 0 {
            edges.push(GraphEdge { from: node_name_text(index as u64), port: owned("out"), to: node_id.clone() });
        }
        nodes.push(GraphNode { id: node_id, kind, x: 60, y: row_y_of(index) });
        index += 1;
    }
    let start = if nodes.len() > 0 { nodes[0].id.clone() } else { String::new() };
    let g = MacroGraph { start, nodes, edges, sources: Vec::new() };
    proof {
        assert(g@.sources =~= Seq::<(Seq<char>, Seq<char>)>::empty());
    }
    g
}

/// The names of the nodes, in order.
pub open spec fn node_ids(nodes: Seq<NodeV>) -> Seq<Seq<char>> {
    nodes.map_values(|n: NodeV| n.id)
}

/// Where the first line leaving `from` by `port` goes, if one does.
pub open spec fn first_target(edges: Seq<(Seq<char>, Seq<char>, Seq<char>)>, from: Seq<char>, port: Seq<char>) -> Option<
    Seq<char>,
>
    decreases edges.len(),
{
    if edges.len() == 0 {
        None
    } else if edges[0].0 == from && edges[0].1 == port {
        Some(edges[0].2)
    } else {
        first_target(edges.subrange(1, edges.len() as int), from, port)
    }
}

/// A line that does not leave `from` by `port`.
pub open spec fn off_port(from: Seq<char>, port: Seq<char>) -> spec_fn((Seq<char>, Seq<char>, Seq<char>)) -> bool {
    |e: (Seq<char>, Seq<char>, Seq<char>)| !(e.0 == from && e.1 == port)
}

/// A line that reaches one of these nodes.
pub open spec fn reaches_one_of(ids: Seq<Seq<char>>) -> spec_fn((Seq<char>, Seq<char>, Seq<char>)) -> bool {
    |e: (Seq<char>, Seq<char>, Seq<char>)| ids.contains(e.2)
}

/// A node not called `id`.
pub open spec fn not_named(id: Seq<char>) -> spec_fn(NodeV) -> bool {
    |n: NodeV| n.id != id
}

/// A line that neither leaves nor reaches `id`.
pub open spec fn not_touching(id: Seq<char>) -> spec_fn((Seq<char>, Seq<char>, Seq<char>)) -> bool {
    |e: (Seq<char>, Seq<char>, Seq<char>)| e.0 != id && e.2 != id
}

/// The lines, without those leaving `from` by `port`.
pub open spec fn without_port(edges: Seq<(Seq<char>, Seq<char>, Seq<char>)>, from: Seq<char>, port: Seq<char>) -> Seq<
    (Seq<char>, Seq<char>, Seq<char>),
> {
    edges.filter(off_port(from, port))
}

/// The lines that reach one of these nodes.
pub open spec fn reaching(edges: Seq<(Seq<char>, Seq<char>, Seq<char>)>, ids: Seq<Seq<char>>) -> Seq<
    (Seq<char>, Seq<char>, Seq<char>),
> {
    edges.filter(reaches_one_of(ids))
}

/// The lines once a port is pointed at a node or at nothing: any line it had goes, the new one goes on the end,
/// and then every line that reaches a node the graph does not have goes too.
pub open spec fn pointed(g: GraphV, from: Seq<char>, port: Seq<char>, to: Option<Seq<char>>) -> Seq<
    (Seq<char>, Seq<char>, Seq<char>),
> {
    let kept = without_port(g.edges, from, port);
    let added = match to {
        Some(t) => kept.push((from, port, t)),
        None => kept,
    };
    reaching(added, node_ids(g.nodes))
}

proof fn lemma_first_target_none(edges: Seq<(Seq<char>, Seq<char>, Seq<char>)>, from: Seq<char>, port: Seq<char>)
    requires
        forall|i: int| 0 <= i < edges.len() ==> !((#[trigger] edges[i]).0 == from && edges[i].1 == port),
    ensures
        first_target(edges, from, port) is None,
    decreases edges.len(),
{
    if edges.len() > 0 {
        let rest = edges.subrange(1, edges.len() as int);
        assert forall|i: int| 0 <= i < rest.len() implies !((#[trigger] rest[i]).0 == from && rest[i].1 == port) by {
            assert(rest[i] == edges[i + 1]);
        }
        assert(!(edges[0].0 == from && edges[0].1 == port));
        lemma_first_target_none(rest, from, port);
    }
}

proof fn lemma_first_target_last(
    edges: Seq<(Seq<char>, Seq<char>, Seq<char>)>,
    from: Seq<char>,
    port: Seq<char>,
    to: Seq<char>,
)
    requires
        forall|i: int| 0 <= i < edges.len() ==> !((#[trigger] edges[i]).0 == from && edges[i].1 == port),
    ensures
        first_target(edges.push((from, port, to)), from, port) == Some(to),
    decreases edges.len(),
{
    let all = edges.push((from, port, to));
    if edges.len() > 0 {
        let rest = edges.subrange(1, edges.len() as int);
        assert forall|i: int| 0 <= i < rest.len() implies !((#[trigger] rest[i]).0 == from && rest[i].1 == port) by {
            assert(rest[i] == edges[i + 1]);
        }
        lemma_first_target_last(rest, from, port, to);
        assert(all.subrange(1, all.len() as int) =~= rest.push((from, port, to)));
        assert(all[0] == edges[0]);
    }
}

proof fn lemma_filter_keeps<A>(s: Seq<A>, p: spec_fn(A) -> bool, q: spec_fn(A) -> bool)
    requires
        forall|i: int| 0 <= i < s.len() ==> q(#[trigger] s[i]),
    ensures
        forall|i: int| 0 <= i < s.filter(p).len() ==> q(#[trigger] s.filter(p)[i]) && p(s.filter(p)[i]),
    decreases s.len(),
{
    reveal(Seq::filter);
    if s.len() > 0 {
        let init = s.drop_last();
        assert forall|i: int| 0 <= i < init.len() implies q(#[trigger] init[i]) by {
            assert(init[i] == s[i]);
        }
        lemma_filter_keeps(init, p, q);
        let f = s.filter(p);
        let fi = init.filter(p);
        if p(s.last()) {
            assert(f == fi.push(s.last()));
        } else {
            assert(f == fi);
        }
        assert forall|i: int| 0 <= i < f.len() implies q(#[trigger] f[i]) && p(f[i]) by {
            if i < fi.len() {
                assert(f[i] == fi[i]);
            } else {
                assert(f[i] == s.last());
                assert(q(s[s.len() - 1]));
            }
        }
    }
}

/// Filtering one more element of a sequence.
proof fn lemma_filter_step<A>(s: Seq<A>, i: int, p: spec_fn(A) -> bool)
    requires
        0 <= i < s.len(),
    ensures
        s.subrange(0, i + 1).filter(p) == (if p(s[i]) {
            s.subrange(0, i).filter(p).push(s[i])
        } else {
            s.subrange(0, i).filter(p)
        }),
{
    assert(s.subrange(0, i + 1) =~= s.subrange(0, i).push(s[i]));
    s.subrange(0, i).lemma_filter_push(s[i], p);
}

/// Pointing a port at a node the graph has makes that node where the port leads, and pointing it at nothing
/// leaves it leading nowhere; either way, no line is left that reaches a node the graph does not have.
pub proof fn a_port_leads_where_it_was_pointed(g: GraphV, from: Seq<char>, port: Seq<char>, to: Option<Seq<char>>)
    requires
        to matches Some(t) ==> node_ids(g.nodes).contains(t),
    ensures
        first_target(pointed(g, from, port, to), from, port) == to,
        forall|i: int| 0 <= i < pointed(g, from, port, to).len() ==> node_ids(g.nodes).contains(
            (#[trigger] pointed(g, from, port, to)[i]).2,
        ),
{
    let ids = node_ids(g.nodes);
    let p = off_port(from, port);
    let r = reaches_one_of(ids);
    let kept = without_port(g.edges, from, port);
    lemma_filter_keeps(g.edges, p, |e: (Seq<char>, Seq<char>, Seq<char>)| true);
    assert forall|i: int| 0 <= i < kept.len() implies p(#[trigger] kept[i]) by {}
    lemma_filter_keeps(kept, r, p);
    let kr = reaching(kept, ids);
    match to {
        Some(t) => {
            kept.lemma_filter_push((from, port, t), r);
            assert(pointed(g, from, port, to) == kr.push((from, port, t)));
            assert forall|i: int| 0 <= i < kr.len() implies !((#[trigger] kr[i]).0 == from && kr[i].1 == port) by {
                assert(p(kr[i]));
            }
            lemma_first_target_last(kr, from, port, t);
            let all = kr.push((from, port, t));
            assert forall|i: int| 0 <= i < all.len() implies ids.contains((#[trigger] all[i]).2) by {
                if i < kr.len() {
                    assert(all[i] == kr[i]);
                    assert(r(kr[i]));
                }
            }
        },
        None => {
            assert forall|i: int| 0 <= i < kr.len() implies !((#[trigger] kr[i]).0 == from && kr[i].1 == port) by {
                assert(p(kr[i]));
            }
            lemma_first_target_none(kr, from, port);
            assert forall|i: int| 0 <= i < kr.len() implies ids.contains((#[trigger] kr[i]).2) by {
                assert(r(kr[i]));
            }
        },
    }
}

fn same_ids(a: &String, b: &str) -> (r: bool)
    ensures
        r == (a@ == b@),
{
    crate::text::same_text(a.as_str(), b)
}

fn copy_edge(e: &GraphEdge) -> (r: GraphEdge)
    ensures
        r@ == e@,
{
    GraphEdge { from: e.from.clone(), port: e.port.clone(), to: e.to.clone() }
}

impl MacroGraph {
    /// The first node with this name, if there is one.
    pub fn node(&self, id: &str) -> (r: Option<&GraphNode>)
        ensures
            r matches Some(n) ==> n@.id == id@ && exists|i: int| 0 <= i < self.nodes@.len() && self.nodes@[i] == *n
                && forall|k: int| 0 <= k < i ==> (#[trigger] self.nodes@[k])@.id != id@,
            r is None ==> !node_ids(self@.nodes).contains(id@),
    {
        let mut i: usize = 0;
        while i < self.nodes.len()
            invariant
                i <= self.nodes.len(),
                forall|k: int| 0 <= k < i ==> (#[trigger] self.nodes@[k])@.id != id@,
            decreases self.nodes.len() - i,
        {
            if same_ids(&self.nodes[i].id, id) {
                return Some(&self.nodes[i]);
            }
            i += 1;
        }
        proof {
            if node_ids(self@.nodes).contains(id@) {
                let k = choose|k: int| 0 <= k < node_ids(self@.nodes).len() && node_ids(self@.nodes)[k] == id@;
                assert(self.nodes@[k]@.id == id@);
            }
        }
        None
    }

    /// Whether the graph has a node with this name.
    pub fn has_node(&self, id: &str) -> (r: bool)
        ensures
            r == node_ids(self@.nodes).contains(id@),
    {
        match self.node(id) {
            Some(n) => {
                proof {
                    let i = choose|i: int| 0 <= i < self.nodes@.len() && self.nodes@[i] == *n && forall|k: int|
                        0 <= k < i ==> (#[trigger] self.nodes@[k])@.id != id@;
                    assert(node_ids(self@.nodes)[i] == id@);
                }
                true
            },
            None => false,
        }
    }
}

/// A node that leaves by this port, or nothing.
pub fn port_target(graph: &MacroGraph, from: &str, port: &str) -> (r: Option<String>)
    ensures
        r matches Some(t) ==> first_target(graph@.edges, from@, port@) == Some(t@),
        r is None ==> first_target(graph@.edges, from@, port@) is None,
{
    let ghost ev = graph@.edges;
    let mut i: usize = 0;
    assert(ev.subrange(0, ev.len() as int) =~= ev);
    while i < graph.edges.len()
        invariant
            ev == edges_view(graph.edges@),
            i <= graph.edges.len(),
            first_target(ev, from@, port@) == first_target(ev.subrange(i as int, ev.len() as int), from@, port@),
        decreases graph.edges.len() - i,
    {
        let e = &graph.edges[i];
        proof {
            let rest = ev.subrange(i as int, ev.len() as int);
            assert(rest[0] == e@);
            assert(rest.subrange(1, rest.len() as int) =~= ev.subrange(i + 1, ev.len() as int));
        }
        if same_ids(&e.from, from) && same_ids(&e.port, port) {
            return Some(e.to.clone());
        }
        i += 1;
    }
    None
}

/// An optional text's characters.
pub open spec fn str_view(o: Option<&str>) -> Option<Seq<char>> {
    match o {
        Some(t) => Some(t@),
        None => None,
    }
}

/// Point a port at a node, or at nothing: the line it had goes, the new one is added, and a line that would reach
/// a node the graph no longer has goes too, because the player refuses a graph that does.
pub fn set_port(graph: &mut MacroGraph, from: &str, port: &str, to: Option<&str>)
    ensures
        final(graph)@ == (GraphV { edges: pointed(old(graph)@, from@, port@, str_view(to)), ..old(graph)@ }),
{
    let ghost g = graph@;
    let mut kept: Vec<GraphEdge> = Vec::new();
    let mut i: usize = 0;
    while i < graph.edges.len()
        invariant
            g == graph@,
            i <= graph.edges.len(),
            edges_view(kept@) == g.edges.subrange(0, i as int).filter(off_port(from@, port@)),
        decreases graph.edges.len() - i,
    {
        proof {
            lemma_filter_step(g.edges, i as int, off_port(from@, port@));
        }
        if !(same_ids(&graph.edges[i].from, from) && same_ids(&graph.edges[i].port, port)) {
            kept.push(copy_edge(&graph.edges[i]));
            proof {
                assert(g.edges[i as int] == graph.edges@[i as int]@);
                assert(off_port(from@, port@)(g.edges[i as int]));
                assert(edges_view(kept@) =~= g.edges.subrange(0, i as int).filter(off_port(from@, port@)).push(g.edges[i as int]));
            }
        } else {
            proof {
                assert(g.edges[i as int] == graph.edges@[i as int]@);
                assert(!off_port(from@, port@)(g.edges[i as int]));
                assert(edges_view(kept@) =~= g.edges.subrange(0, i as int).filter(off_port(from@, port@)));
            }
        }
        i += 1;
    }
    proof {
        assert(g.edges.subrange(0, g.edges.len() as int) =~= g.edges);
    }
    match to {
        Some(t) => {
            kept.push(GraphEdge { from: owned(from), port: owned(port), to: owned(t) });
        },
        None => {},
    }
    let ghost added = edges_view(kept@);
    proof {
        let base = without_port(g.edges, from@, port@);
        match to {
            Some(t) => {
                assert(added =~= base.push((from@, port@, t@)));
            },
            None => {
                assert(added =~= base);
            },
        }
    }
    let ghost ids = node_ids(g.nodes);
    let mut out: Vec<GraphEdge> = Vec::new();
    let mut j: usize = 0;
    while j < kept.len()
        invariant
            g == graph@,
            ids == node_ids(g.nodes),
            added == edges_view(kept@),
            j <= kept.len(),
            edges_view(out@) == added.subrange(0, j as int).filter(reaches_one_of(ids)),
        decreases kept.len() - j,
    {
        proof {
            lemma_filter_step(added, j as int, reaches_one_of(ids));
        }
        if graph.has_node(kept[j].to.as_str()) {
            out.push(copy_edge(&kept[j]));
            proof {
                assert(added[j as int] == kept@[j as int]@);
                assert(reaches_one_of(ids)(added[j as int]));
                assert(edges_view(out@) =~= added.subrange(0, j as int).filter(reaches_one_of(ids)).push(added[j as int]));
            }
        } else {
            proof {
                assert(added[j as int] == kept@[j as int]@);
                assert(!reaches_one_of(ids)(added[j as int]));
                assert(edges_view(out@) =~= added.subrange(0, j as int).filter(reaches_one_of(ids)));
            }
        }
        j += 1;
    }
    proof {
        assert(added.subrange(0, added.len() as int) =~= added);
    }
    graph.edges = out;
}

/// The graph with a node taken out, with every line that left or reached it; the start moves to the first node
/// left when it was the one taken out.
pub open spec fn without_node(g: GraphV, id: Seq<char>) -> GraphV {
    let nodes = g.nodes.filter(not_named(id));
    GraphV {
        start: if g.start == id {
            if nodes.len() > 0 { nodes[0].id } else { Seq::empty() }
        } else {
            g.start
        },
        nodes,
        edges: g.edges.filter(not_touching(id)),
        sources: g.sources,
    }
}

fn copy_node(n: &GraphNode) -> (r: GraphNode)
    ensures
        r@ == n@,
{
    GraphNode { id: n.id.clone(), kind: copy_kind(&n.kind), x: n.x, y: n.y }
}

/// Take a node out, and every line that reached it.
pub fn remove_node(graph: &mut MacroGraph, id: &str)
    ensures
        final(graph)@ == without_node(old(graph)@, id@),
{
    let ghost g = graph@;
    let mut nodes: Vec<GraphNode> = Vec::new();
    let mut i: usize = 0;
    while i < graph.nodes.len()
        invariant
            g == graph@,
            i <= graph.nodes.len(),
            nodes_view(nodes@) == g.nodes.subrange(0, i as int).filter(not_named(id@)),
        decreases graph.nodes.len() - i,
    {
        proof {
            lemma_filter_step(g.nodes, i as int, not_named(id@));
        }
        if !same_ids(&graph.nodes[i].id, id) {
            nodes.push(copy_node(&graph.nodes[i]));
            proof {
                assert(g.nodes[i as int] == graph.nodes@[i as int]@);
                assert(not_named(id@)(g.nodes[i as int]));
                assert(nodes_view(nodes@) =~= g.nodes.subrange(0, i as int).filter(not_named(id@)).push(g.nodes[i as int]));
            }
        } else {
            proof {
                assert(g.nodes[i as int] == graph.nodes@[i as int]@);
                assert(!not_named(id@)(g.nodes[i as int]));
                assert(nodes_view(nodes@) =~= g.nodes.subrange(0, i as int).filter(not_named(id@)));
            }
        }
        i += 1;
    }
    let mut edges: Vec<GraphEdge> = Vec::new();
    let mut j: usize = 0;
    while j < graph.edges.len()
        invariant
            g == graph@,
            j <= graph.edges.len(),
            edges_view(edges@) == g.edges.subrange(0, j as int).filter(not_touching(id@)),
        decreases graph.edges.len() - j,
    {
        proof {
            lemma_filter_step(g.edges, j as int, not_touching(id@));
        }
        if !same_ids(&graph.edges[j].from, id) && !same_ids(&graph.edges[j].to, id) {
            edges.push(copy_edge(&graph.edges[j]));
            proof {
                assert(g.edges[j as int] == graph.edges@[j as int]@);
                assert(not_touching(id@)(g.edges[j as int]));
                assert(edges_view(edges@) =~= g.edges.subrange(0, j as int).filter(not_touching(id@)).push(g.edges[j as int]));
            }
        } else {
            proof {
                assert(g.edges[j as int] == graph.edges@[j as int]@);
                assert(!not_touching(id@)(g.edges[j as int]));
                assert(edges_view(edges@) =~= g.edges.subrange(0, j as int).filter(not_touching(id@)));
            }
        }
        j += 1;
    }
    proof {
        assert(g.nodes.subrange(0, g.nodes.len() as int) =~= g.nodes);
        assert(g.edges.subrange(0, g.edges.len() as int) =~= g.edges);
    }
    if same_ids(&graph.start, id) {
        graph.start = if nodes.len() > 0 { nodes[0].id.clone() } else { String::new() };
    }
    graph.nodes = nodes;
    graph.edges = edges;
}

/// Taking a node out leaves no node of that name and no line that leaves or reaches it.
pub proof fn a_removed_node_leaves_nothing_behind(g: GraphV, id: Seq<char>)
    ensures
        !node_ids(without_node(g, id).nodes).contains(id),
        forall|i: int| 0 <= i < without_node(g, id).edges.len() ==> (#[trigger] without_node(g, id).edges[i]).0
            != id && without_node(g, id).edges[i].2 != id,
{
    let pn = not_named(id);
    let pe = not_touching(id);
    lemma_filter_keeps(g.nodes, pn, |n: NodeV| true);
    lemma_filter_keeps(g.edges, pe, |e: (Seq<char>, Seq<char>, Seq<char>)| true);
    let kept = without_node(g, id).nodes;
    if node_ids(kept).contains(id) {
        let k = choose|k: int| 0 <= k < node_ids(kept).len() && node_ids(kept)[k] == id;
        assert(pn(kept[k]));
    }
    assert forall|i: int| 0 <= i < without_node(g, id).edges.len() implies (#[trigger] without_node(
        g,
        id,
    ).edges[i]).0 != id && without_node(g, id).edges[i].2 != id by {
        assert(pe(without_node(g, id).edges[i]));
    }
}

/// Whether some node is called `n` and this number.
pub open spec fn taken(ids: Seq<Seq<char>>, k: nat) -> bool {
    ids.contains(node_name(k))
}

/// The number a new node is given among nodes with these names: the first from one past their count that no
/// node has.
pub open spec fn picks(ids: Seq<Seq<char>>, k: nat) -> bool {
    &&& k >= ids.len() + 1
    &&& !taken(ids, k)
    &&& forall|j: nat| ids.len() + 1 <= j < k ==> #[trigger] taken(ids, j)
}

proof fn lemma_digit_injective(a: nat, b: nat)
    requires
        a < 10,
        b < 10,
        crate::text::digit(a) == crate::text::digit(b),
    ensures
        a == b,
{
    assert(a == 0 || a == 1 || a == 2 || a == 3 || a == 4 || a == 5 || a == 6 || a == 7 || a == 8 || a == 9);
    assert(b == 0 || b == 1 || b == 2 || b == 3 || b == 4 || b == 5 || b == 6 || b == 7 || b == 8 || b == 9);
}

pub(crate) proof fn lemma_decimal_len(n: nat)
    ensures
        decimal(n).len() >= 1,
        n >= 10 ==> decimal(n).len() >= 2,
    decreases n,
{
    if n >= 10 {
        lemma_decimal_len(n / 10);
    }
}

pub(crate) proof fn lemma_decimal_injective(a: nat, b: nat)
    requires
        decimal(a) == decimal(b),
    ensures
        a == b,
    decreases a,
{
    lemma_decimal_len(a);
    lemma_decimal_len(b);
    if a < 10 && b < 10 {
        assert(decimal(a) == seq![crate::text::digit(a)]);
        assert(decimal(b) == seq![crate::text::digit(b)]);
        assert(decimal(a)[0] == crate::text::digit(a));
        assert(decimal(b)[0] == crate::text::digit(b));
        lemma_digit_injective(a, b);
    } else if a >= 10 && b >= 10 {
        let da = decimal(a);
        let db = decimal(b);
        assert(da.drop_last() =~= decimal(a / 10));
        assert(db.drop_last() =~= decimal(b / 10));
        lemma_decimal_injective(a / 10, b / 10);
        assert(da.last() == db.last());
        lemma_digit_injective(a % 10, b % 10);
    }
}

proof fn lemma_node_name_injective(a: nat, b: nat)
    requires
        node_name(a) == node_name(b),
    ensures
        a == b,
{
    reveal_strlit("n");
    let x = node_name(a);
    assert(x.subrange(1, x.len() as int) =~= decimal(a));
    assert(node_name(b).subrange(1, node_name(b).len() as int) =~= decimal(b));
    lemma_decimal_injective(a, b);
}

/// When every number in `lo .. hi` names a node, there are at least that many nodes.
proof fn lemma_names_fit(ids: Seq<Seq<char>>, lo: int, hi: int)
    requires
        0 <= lo <= hi,
        forall|j: int| lo <= j < hi ==> #[trigger] taken(ids, j as nat),
    ensures
        hi - lo <= ids.len(),
{
    let x = vstd::set_lib::set_int_range(lo, hi);
    let f = |j: int| choose|i: int| 0 <= i < ids.len() && ids[i] == node_name(j as nat);
    vstd::set_lib::lemma_int_range(lo, hi);
    vstd::set_lib::lemma_int_range(0, ids.len() as int);
    assert forall|j: int| x.contains(j) implies 0 <= #[trigger] f(j) < ids.len() && ids[f(j)] == node_name(
        j as nat,
    ) by {
        assert(taken(ids, j as nat));
    }
    assert(vstd::relations::injective_on(f, x)) by {
        assert forall|a: int, b: int| x.contains(a) && x.contains(b) && #[trigger] f(a) == #[trigger] f(b) implies a
            == b by {
            lemma_node_name_injective(a as nat, b as nat);
        }
    }
    let y = x.map(f);
    vstd::set_lib::lemma_map_size(x, y, f);
    assert(y.subset_of(vstd::set_lib::set_int_range(0, ids.len() as int)));
    vstd::set_lib::lemma_len_subset(y, vstd::set_lib::set_int_range(0, ids.len() as int));
}

/// The node a kind's word makes, before it is given a name and a place.
pub open spec fn fresh_kind(word: Seq<char>) -> Option<NodeKindV> {
    if word == "key"@ {
        Some(NodeKindV::Key { code: 30, hold: 30, mode: KeyMode::Tap })
    } else if word == "wait"@ {
        Some(NodeKindV::Wait { ms: 100 })
    } else if word == "type"@ {
        Some(NodeKindV::Type { text: Seq::empty(), per_key: 30 })
    } else if word == "if"@ {
        Some(NodeKindV::If { when: CondV::Control(Seq::empty()) })
    } else if word == "repeat"@ {
        Some(NodeKindV::Repeat { times: 2 })
    } else if word == "call"@ {
        Some(NodeKindV::Call { macro_id: 1 })
    } else if word == "run"@ {
        Some(NodeKindV::Run { spec: "cmd:"@ })
    } else if word == "stop"@ {
        Some(NodeKindV::Stop)
    } else {
        None
    }
}

/// A fresh node of a kind, placed at the end of the canvas, with a name no node of the graph has; a kind this
/// build does not run is refused with the reason.
pub fn new_node(graph: &MacroGraph, kind: &str) -> (r: Result<GraphNode, String>)
    requires
        graph.nodes@.len() <= isize::MAX,
    ensures
        r is Ok <==> fresh_kind(kind@) is Some,
        r matches Ok(node) ==> {
            &&& exists|k: nat| picks(node_ids(graph@.nodes), k) && node@.id == node_name(k)
            &&& !node_ids(graph@.nodes).contains(node@.id)
            &&& Some(node@.kind) == fresh_kind(kind@)
            &&& node.x == 60
            &&& node.y == row_y(graph.nodes@.len() as int)
        },
        r matches Err(problem) ==> problem@ == kind@ + " is not a node this build runs"@,
{
    let made = if crate::text::same_text(kind, "key") {
        NodeKind::Key { code: 30, hold: 30, mode: KeyMode::Tap }
    } else if crate::text::same_text(kind, "wait") {
        NodeKind::Wait { ms: 100 }
    } else if crate::text::same_text(kind, "type") {
        NodeKind::Type { text: String::new(), per_key: 30 }
    } else if crate::text::same_text(kind, "if") {
        NodeKind::If { when: Cond::Control(String::new()) }
    } else if crate::text::same_text(kind, "repeat") {
        NodeKind::Repeat { times: 2 }
    } else if crate::text::same_text(kind, "call") {
        NodeKind::Call { macro_id: 1 }
    } else if crate::text::same_text(kind, "run") {
        NodeKind::Run { spec: owned("cmd:") }
    } else if crate::text::same_text(kind, "stop") {
        NodeKind::Stop
    } else {
        return Err(join2(kind, " is not a node this build runs"));
    };
    let ghost ids = node_ids(graph@.nodes);
    let n = graph.nodes.len() as u64;
    let mut next: u64 = n + 1;
    let mut name = node_name_text(next);
    while graph.has_node(name.as_str())
        invariant
            ids == node_ids(graph@.nodes),
            ids.len() == n,
            n <= isize::MAX,
            n + 1 <= next <= 2 * n + 1,
            name@ == node_name(next as nat),
            forall|j: nat| n + 1 <= j < next ==> #[trigger] taken(ids, j),
        decreases 2 * n + 1 - next,
    {
        proof {
            assert forall|j: int| n + 1 <= j < next + 1 implies #[trigger] taken(ids, j as nat) by {
                if j < next {
                    assert(taken(ids, j as nat));
                }
            }
            lemma_names_fit(ids, n + 1, next + 1);
        }
        next = next + 1;
        name = node_name_text(next);
    }
    proof {
        assert(picks(ids, next as nat));
    }
    Ok(GraphNode { id: name, kind: made, x: 60, y: row_y_of(graph.nodes.len()) })
}

/// Where a name is among the sources, found from the front.
fn find_source(sources: &Vec<(String, String)>, name: &str) -> (r: Option<usize>)
    ensures
        r matches Some(i) ==> field_index(pairs_view(sources@), name@) == Some(i as int),
        r is None ==> field_index(pairs_view(sources@), name@) is None,
{
    let ghost f = pairs_view(sources@);
    proof {
        lemma_field_get_index(f, name@);
    }
    let mut i: usize = 0;
    while i < sources.len()
        invariant
            f == pairs_view(sources@),
            i <= sources.len(),
            forall|k: int| 0 <= k < i ==> #[trigger] f[k].0 != name@,
        decreases sources.len() - i,
    {
        if same_text(sources[i].0.as_str(), name) {
            proof {
                lemma_field_index_first(f, name@, i as int);
            }
            return Some(i);
        }
        i += 1;
    }
    proof {
        lemma_field_index_none(f, name@);
    }
    None
}

/// Set a source: replaced where its name is, or put in its place in the order of names.
fn put_source(sources: &mut Vec<(String, String)>, name: String, spec: String)
    ensures
        pairs_view(final(sources)@) == field_put(pairs_view(old(sources)@), name@, spec@),
{
    let ghost f = pairs_view(sources@);
    let mut i: usize = 0;
    while i < sources.len() && !same_text(sources[i].0.as_str(), name.as_str()) && !is_before(
        name.as_str(),
        sources[i].0.as_str(),
    )
        invariant
            f == pairs_view(sources@),
            i <= sources.len(),
            forall|k: int| 0 <= k < i ==> #[trigger] f[k].0 != name@ && !text_before(name@, f[k].0),
        decreases sources.len() - i,
    {
        i += 1;
    }
    let ghost kv = name@;
    let ghost vv = spec@;
    proof {
        lemma_field_put_at(f, kv, vv, i as int);
    }
    if i == sources.len() {
        sources.push((name, spec));
        proof {
            assert(pairs_view(sources@) =~= f.push((kv, vv)));
        }
    } else if same_text(sources[i].0.as_str(), name.as_str()) {
        sources.set(i, (name, spec));
        proof {
            assert(pairs_view(sources@) =~= f.update(i as int, (kv, vv)));
        }
    } else {
        sources.insert(i, (name, spec));
        proof {
            assert(pairs_view(sources@) =~= f.insert(i as int, (kv, vv)));
        }
    }
}

/// Take a source out by name, if it is there.
fn drop_source(sources: &mut Vec<(String, String)>, name: &str)
    ensures
        pairs_view(final(sources)@) == field_del(pairs_view(old(sources)@), name@),
{
    let ghost f = pairs_view(sources@);
    proof {
        lemma_field_del_at(f, name@);
        lemma_field_get_index(f, name@);
    }
    match find_source(sources, name) {
        Some(i) => {
            sources.remove(i);
            proof {
                assert(pairs_view(sources@) =~= f.remove(i as int));
            }
        },
        None => {},
    }
}

/// Why a source with no name is refused.
pub open spec fn needs_a_name() -> Seq<char> {
    "a source needs a name: a question asks about it by name"@
}

/// Why a source with nothing to read is refused.
pub open spec fn needs_something(name: Seq<char>) -> Seq<char> {
    name + " needs something to read, e.g. cmd:sensors"@
}

/// Why a second source of the same name is refused.
pub open spec fn already_a_source(name: Seq<char>) -> Seq<char> {
    name + " is already one of this macro's sources"@
}

/// What adding a source does: both texts are trimmed; no name, nothing to read, or a name already there is
/// refused, and otherwise the source is set under its name.
pub open spec fn sources_added(sources: Seq<(Seq<char>, Seq<char>)>, name: Seq<char>, spec: Seq<char>) -> Result<
    Seq<(Seq<char>, Seq<char>)>,
    Seq<char>,
> {
    let name = trimmed(name);
    let spec = trimmed(spec);
    if name.len() == 0 {
        Err(needs_a_name())
    } else if spec.len() == 0 {
        Err(needs_something(name))
    } else if field_get(sources, name) is Some {
        Err(already_a_source(name))
    } else {
        Ok(field_put(sources, name, spec))
    }
}

/// Add a source the macro's questions can read.
///
/// The name is what a question says, so an empty one is refused: a source nothing can name is a source that
/// cannot be asked about.
pub fn add_source(graph: &mut MacroGraph, name: &str, spec: &str) -> (r: Result<(), String>)
    ensures
        match sources_added(old(graph)@.sources, name@, spec@) {
            Ok(sources) => r is Ok && final(graph)@ == (GraphV { sources, ..old(graph)@ }),
            Err(problem) => r matches Err(e) && e@ == problem && final(graph)@ == old(graph)@,
        },
{
    let name = trim(name);
    let spec = trim(spec);
    if name.as_str().unicode_len() == 0 {
        return Err(owned("a source needs a name: a question asks about it by name"));
    }
    if spec.as_str().unicode_len() == 0 {
        return Err(join2(name.as_str(), " needs something to read, e.g. cmd:sensors"));
    }
    proof {
        lemma_field_get_index(graph@.sources, name@);
    }
    if find_source(&graph.sources, name.as_str()).is_some() {
        return Err(join2(name.as_str(), " is already one of this macro's sources"));
    }
    put_source(&mut graph.sources, name, spec);
    Ok(())
}

/// What changing a source does: both texts are trimmed; no name or nothing to read is refused, and so is a new
/// name that another source already has; otherwise the old name goes and the source is set under the new one.
pub open spec fn source_changed(
    sources: Seq<(Seq<char>, Seq<char>)>,
    was: Seq<char>,
    name: Seq<char>,
    spec: Seq<char>,
) -> Result<Seq<(Seq<char>, Seq<char>)>, Seq<char>> {
    let name = trimmed(name);
    let spec = trimmed(spec);
    if name.len() == 0 {
        Err(needs_a_name())
    } else if spec.len() == 0 {
        Err(needs_something(name))
    } else if name != was && field_get(sources, name) is Some {
        Err(already_a_source(name))
    } else {
        Ok(field_put(field_del(sources, was), name, spec))
    }
}

/// Changing a source does what it was asked, with both texts trimmed: it is refused exactly when the new name or
/// what to read is empty, or the new name is another source's; once done, the new name reads the new command,
/// every other source reads what it did, and - when each name was there once - the old name, if it is not the
/// new one, is gone.
pub proof fn a_changed_source_reads_what_it_was_given(
    sources: Seq<(Seq<char>, Seq<char>)>,
    was: Seq<char>,
    name: Seq<char>,
    spec: Seq<char>,
)
    ensures
        source_changed(sources, was, name, spec) is Ok <==> trimmed(name).len() > 0 && trimmed(spec).len() > 0 && (
        trimmed(name) == was || field_get(sources, trimmed(name)) is None),
        source_changed(sources, was, name, spec) matches Ok(after) ==> {
            &&& field_get(after, trimmed(name)) == Some(trimmed(spec))
            &&& forall|k: Seq<char>|
                k != trimmed(name) && k != was ==> #[trigger] field_get(after, k) == field_get(sources, k)
            &&& (crate::json::field_keys(sources).no_duplicates() && trimmed(name) != was) ==> field_get(
                after,
                was,
            ) is None
        },
{
    let n = trimmed(name);
    let c = trimmed(spec);
    if source_changed(sources, was, name, spec) is Ok {
        let d = field_del(sources, was);
        crate::json::lemma_get_put(d, n, c, n);
        assert forall|k: Seq<char>| k != n && k != was implies #[trigger] field_get(
            field_put(d, n, c),
            k,
        ) == field_get(sources, k) by {
            crate::json::lemma_get_put(d, n, c, k);
            crate::json::lemma_get_del_other(sources, was, k);
        }
        if crate::json::field_keys(sources).no_duplicates() && n != was {
            crate::json::lemma_get_put(d, n, c, was);
            crate::json::lemma_get_del(sources, was, was);
        }
    }
}

/// Change a source, renaming it if the name changed.
///
/// A question that still names the old name is left alone: rewriting somebody's question because they renamed
/// a source would be the editor deciding what the macro means. The player says the name is unknown instead.
pub fn set_source(graph: &mut MacroGraph, was: &str, name: &str, spec: &str) -> (r: Result<(), String>)
    ensures
        match source_changed(old(graph)@.sources, was@, name@, spec@) {
            Ok(sources) => r is Ok && final(graph)@ == (GraphV { sources, ..old(graph)@ }),
            Err(problem) => r matches Err(e) && e@ == problem && final(graph)@ == old(graph)@,
        },
{
    let name = trim(name);
    let spec = trim(spec);
    if name.as_str().unicode_len() == 0 {
        return Err(owned("a source needs a name: a question asks about it by name"));
    }
    if spec.as_str().unicode_len() == 0 {
        return Err(join2(name.as_str(), " needs something to read, e.g. cmd:sensors"));
    }
    proof {
        lemma_field_get_index(graph@.sources, name@);
    }
    if !same_text(name.as_str(), was) && find_source(&graph.sources, name.as_str()).is_some() {
        return Err(join2(name.as_str(), " is already one of this macro's sources"));
    }
    drop_source(&mut graph.sources, was);
    put_source(&mut graph.sources, name, spec);
    Ok(())
}

/// Take a source away. Questions that named it are left as they are, and the player says the name is unknown.
pub fn remove_source(graph: &mut MacroGraph, name: &str)
    ensures
        final(graph)@ == (GraphV { sources: field_del(old(graph)@.sources, name@), ..old(graph)@ }),
{
    drop_source(&mut graph.sources, name);
}

/// The names a list already has, with each of `more` after them that it does not have yet, in order.
pub open spec fn add_missing(names: Seq<Seq<char>>, more: Seq<Seq<char>>) -> Seq<Seq<char>>
    decreases more.len(),
{
    if more.len() == 0 {
        names
    } else {
        let before = add_missing(names, more.drop_last());
        if before.contains(more.last()) {
            before
        } else {
            before.push(more.last())
        }
    }
}

/// The names of a set of sources, in their order.
pub open spec fn source_names(sources: Seq<(Seq<char>, Seq<char>)>) -> Seq<Seq<char>> {
    sources.map_values(|p: (Seq<char>, Seq<char>)| p.0)
}

/// The names a question can read, ahead of everything published: what the thing asking declares comes first,
/// each published name follows unless a declared one already has it, and none comes twice.
pub proof fn own_names_come_first(names: Seq<Seq<char>>, published: Seq<Seq<char>>)
    ensures
        add_missing(names, published).len() >= names.len(),
        add_missing(names, published).subrange(0, names.len() as int) == names,
        forall|i: int| 0 <= i < published.len() ==> add_missing(names, published).contains(#[trigger] published[i]),
        forall|x: Seq<char>| #[trigger] add_missing(names, published).contains(x) ==> names.contains(x)
            || published.contains(x),
        names.no_duplicates() ==> add_missing(names, published).no_duplicates(),
    decreases published.len(),
{
    if published.len() > 0 {
        let init = published.drop_last();
        own_names_come_first(names, init);
        let before = add_missing(names, init);
        let after = add_missing(names, published);
        assert forall|i: int| 0 <= i < published.len() implies after.contains(#[trigger] published[i]) by {
            if i < init.len() {
                assert(init[i] == published[i]);
                assert(before.contains(init[i]));
                if !before.contains(published.last()) {
                    let k = choose|k: int| 0 <= k < before.len() && before[k] == init[i];
                    assert(after[k] == before[k]);
                }
            } else {
                if !before.contains(published.last()) {
                    assert(after[after.len() - 1] == published.last());
                }
            }
        }
        assert forall|x: Seq<char>| #[trigger] after.contains(x) implies names.contains(x) || published.contains(x) by {
            let k = choose|k: int| 0 <= k < after.len() && after[k] == x;
            if k < before.len() {
                assert(before[k] == x);
                assert(before.contains(x));
                if init.contains(x) {
                    let j = choose|j: int| 0 <= j < init.len() && init[j] == x;
                    assert(published[j] == x);
                }
            } else {
                assert(published[published.len() - 1] == x);
            }
        }
        if !before.contains(published.last()) {
            assert(after.subrange(0, names.len() as int) =~= before.subrange(0, names.len() as int));
        }
    }
}

/// After the names asked about come the published names not among them, in the order they are published, when
/// no published name comes twice.
pub proof fn the_rest_follow_in_published_order(names: Seq<Seq<char>>, published: Seq<Seq<char>>)
    requires
        published.no_duplicates(),
    ensures
        add_missing(names, published) == names + published.filter(|x: Seq<char>| !names.contains(x)),
    decreases published.len(),
{
    broadcast use vstd::seq_lib::group_filter_ensures;
    reveal(Seq::filter);
    let p = |x: Seq<char>| !names.contains(x);
    if published.len() == 0 {
        assert(published.filter(p) =~= Seq::<Seq<char>>::empty());
        assert(names + published.filter(p) =~= names);
    } else {
        let init = published.drop_last();
        let last = published.last();
        assert(init.no_duplicates()) by {
            assert forall|i: int, j: int| 0 <= i < init.len() && 0 <= j < init.len() && i != j implies init[i]
                != init[j] by {
                assert(init[i] == published[i]);
                assert(init[j] == published[j]);
            }
        }
        the_rest_follow_in_published_order(names, init);
        let rest = init.filter(p);
        let before = names + rest;
        assert(!rest.contains(last)) by {
            if rest.contains(last) {
                init.lemma_filter_contains_rev(p, last);
                let k = choose|k: int| 0 <= k < init.len() && init[k] == last;
                assert(published[k] == published[published.len() - 1]);
            }
        }
        assert(before.contains(last) <==> names.contains(last)) by {
            if before.contains(last) {
                let k = choose|k: int| 0 <= k < before.len() && before[k] == last;
                if k >= names.len() {
                    assert(rest[k - names.len()] == last);
                    assert(rest.contains(last));
                } else {
                    assert(names[k] == last);
                }
            }
            if names.contains(last) {
                let k = choose|k: int| 0 <= k < names.len() && names[k] == last;
                assert(before[k] == last);
            }
        }
        if names.contains(last) {
            assert(published.filter(p) == rest);
        } else {
            assert(published.filter(p) == rest.push(last));
            assert(before.push(last) =~= names + rest.push(last));
        }
    }
}

/// Everything a macro's questions can read: its own sources, then the published values.
///
/// A source shadows a published value of the same name, because declaring it on the macro is the more specific
/// thing to say - and the list shows the sources first, so what wins is what is at the top. `published` is the
/// published values' names, in the order the list shows them.
pub fn readable_names(graph: Option<&MacroGraph>, published: &Vec<String>) -> (r: Vec<String>)
    ensures
        texts(r@) == add_missing(
            match graph {
                Some(g) => source_names(g@.sources),
                None => Seq::empty(),
            },
            texts(published@),
        ),
{
    let mut names: Vec<String> = Vec::new();
    match graph {
        Some(g) => {
            let mut i: usize = 0;
            while i < g.sources.len()
                invariant
                    i <= g.sources.len(),
                    names@.len() == i,
                    forall|k: int| 0 <= k < i ==> (#[trigger] names@[k])@ == g.sources@[k].0@,
                decreases g.sources.len() - i,
            {
                names.push(owned(g.sources[i].0.as_str()));
                i += 1;
            }
            proof {
                assert(texts(names@) =~= source_names(g@.sources));
            }
        },
        None => {
            proof {
                assert(texts(names@) =~= Seq::<Seq<char>>::empty());
            }
        },
    }
    let ghost own = texts(names@);
    add_published(&mut names, published);
    names
}

/// Each published name a list does not have yet, put on its end in order.
fn add_published(names: &mut Vec<String>, published: &Vec<String>)
    ensures
        texts(final(names)@) == add_missing(texts(old(names)@), texts(published@)),
{
    let ghost own = texts(names@);
    let ghost all = texts(published@);
    let mut i: usize = 0;
    while i < published.len()
        invariant
            all == texts(published@),
            i <= published.len(),
            texts(names@) == add_missing(own, all.subrange(0, i as int)),
        decreases published.len() - i,
    {
        let ghost before = texts(names@);
        proof {
            let upto = all.subrange(0, i + 1);
            assert(upto.drop_last() =~= all.subrange(0, i as int));
            assert(upto.last() == published@[i as int]@);
        }
        if !contains_text(names, published[i].as_str()) {
            proof {
                if before.contains(published@[i as int]@) {
                    let k = choose|k: int| 0 <= k < before.len() && before[k] == published@[i as int]@;
                    assert(names@[k]@ == published@[i as int]@);
                }
            }
            names.push(published[i].clone());
            proof {
                assert(texts(names@) =~= before.push(published@[i as int]@));
            }
        } else {
            proof {
                let k = choose|k: int| 0 <= k < names@.len() && #[trigger] names@[k]@ == published@[i as int]@;
                assert(before[k] == published@[i as int]@);
            }
        }
        i += 1;
    }
    proof {
        assert(all.subrange(0, published.len() as int) =~= all);
    }
}

/// The names a question may ask about, and which of them the thing asking provides itself.
///
/// A macro hands over its graph's sources; an applet hands over the sources it declares. One editor can then be
/// given either, which is why an alert is edited with the same rows a macro's `if` is.
#[derive(Debug, Clone, Default)]
pub struct Names {
    /// The first name on offer, so a new question can start on something real rather than a blank.
    pub first: String,
    /// Every name on offer, the ones it provides itself first.
    pub all: Vec<String>,
    /// The names the thing asking declares itself, so a picker can say which are its own.
    pub mine: Vec<String>,
}

impl Names {
    /// The names, with the first on offer taken from them.
    fn made(all: Vec<String>, mine: Vec<String>) -> (r: Names)
        ensures
            r.all == all,
            r.mine == mine,
            r.first@ == (if all@.len() > 0 { all@[0]@ } else { Seq::<char>::empty() }),
    {
        let first = if all.len() > 0 { all[0].clone() } else { String::new() };
        Names { first, all, mine }
    }

    /// For a macro: its own sources first, then everything published.
    pub fn for_macro(graph: &MacroGraph, published: &Vec<String>) -> (r: Names)
        ensures
            texts(r.all@) == add_missing(source_names(graph@.sources), texts(published@)),
            texts(r.mine@) == source_names(graph@.sources),
            r.first@ == (if r.all@.len() > 0 { r.all@[0]@ } else { Seq::<char>::empty() }),
    {
        let all = readable_names(Some(graph), published);
        let none: Vec<String> = Vec::new();
        proof {
            assert(texts(none@) =~= Seq::<Seq<char>>::empty());
            assert(add_missing(source_names(graph@.sources), texts(none@)) == source_names(graph@.sources));
        }
        let mine = readable_names(Some(graph), &none);
        Names::made(all, mine)
    }

    /// For an applet: what it declares first, then everything published.
    ///
    /// The applet's own names come first, which is what a question about this applet is most likely to be
    /// about.
    pub fn for_applet(sources: &Vec<(String, String)>, published: &Vec<String>) -> (r: Names)
        ensures
            texts(r.all@) == add_missing(source_names(pairs_view(sources@)), texts(published@)),
            texts(r.mine@) == source_names(pairs_view(sources@)),
            r.first@ == (if r.all@.len() > 0 { r.all@[0]@ } else { Seq::<char>::empty() }),
    {
        let mut mine: Vec<String> = Vec::new();
        let mut i: usize = 0;
        while i < sources.len()
            invariant
                i <= sources.len(),
                mine@.len() == i,
                forall|k: int| 0 <= k < i ==> (#[trigger] mine@[k])@ == sources@[k].0@,
            decreases sources.len() - i,
        {
            mine.push(owned(sources[i].0.as_str()));
            i += 1;
        }
        proof {
            assert(texts(mine@) =~= source_names(pairs_view(sources@)));
        }
        let mut all: Vec<String> = Vec::new();
        let mut j: usize = 0;
        while j < mine.len()
            invariant
                j <= mine.len(),
                all@.len() == j,
                forall|k: int| 0 <= k < j ==> (#[trigger] all@[k])@ == mine@[k]@,
            decreases mine.len() - j,
        {
            all.push(owned(mine[j].as_str()));
            j += 1;
        }
        proof {
            assert(texts(all@) =~= texts(mine@));
        }
        add_published(&mut all, published);
        Names::made(all, mine)
    }
}

/// One macro as the list shows it.
#[derive(Debug, Clone, PartialEq)]
pub struct MacroRow {
    /// Its number: the `200` of `macro-200.properties`.
    pub id: u32,
    /// What the macro is called, as its properties file says.
    pub name: String,
    /// How many steps its flat form has.
    pub steps: usize,
    /// Nothing in it at all: no steps and no graph.
    ///
    /// A real installation has hundreds of these: they are kept because a binding can point at one, but a list
    /// of two hundred empty slots buries the handful of macros that do something.
    pub empty: bool,
    /// How many nodes its graph has, if it has one.
    pub nodes: Option<usize>,
    /// What stopped it being read, if anything.
    pub problem: Option<String>,
}

/// What a macro's card says: its number and name together, `(empty)` or `(no name)` for one with no name, and
/// how many boxes its graph has when it has one.
pub open spec fn card_words(row: MacroRow) -> Seq<char> {
    let head = decimal(row.id as nat) + " "@ + if row.name@.len() == 0 {
        if row.empty {
            "(empty)"@
        } else {
            "(no name)"@
        }
    } else {
        row.name@
    };
    match row.nodes {
        Some(n) => head + " ["@ + decimal(n as nat) + " nodes]"@,
        None => head,
    }
}

/// What a macro's card says, as one label, so the number and the name are read together.
pub fn card_label(row: &MacroRow) -> (r: String)
    ensures
        r@ == card_words(*row),
{
    let id = decimal_text(row.id as u64);
    let name: &str = if row.name.as_str().unicode_len() == 0 {
        if row.empty {
            "(empty)"
        } else {
            "(no name)"
        }
    } else {
        row.name.as_str()
    };
    let head = join3(id.as_str(), " ", name);
    match row.nodes {
        Some(n) => {
            let count = decimal_text(n as u64);
            let tail = join3(" [", count.as_str(), " nodes]");
            join2(head.as_str(), tail.as_str())
        },
        None => head,
    }
}

/// How many macros have nothing in them.
pub open spec fn empty_count(rows: Seq<MacroRow>) -> nat {
    rows.filter(|r: MacroRow| r.empty).len()
}

/// How many macros have nothing in them: the slots a binding can point at, which the list hides until asked.
pub fn empty_macro_count(rows: &Vec<MacroRow>) -> (r: usize)
    ensures
        r == empty_count(rows@),
{
    let mut n: usize = 0;
    let mut i: usize = 0;
    while i < rows.len()
        invariant
            i <= rows@.len(),
            n == rows@.subrange(0, i as int).filter(|r: MacroRow| r.empty).len(),
            n <= i,
        decreases rows.len() - i,
    {
        proof {
            assert(rows@.subrange(0, i + 1) =~= rows@.subrange(0, i as int).push(rows@[i as int]));
            rows@.subrange(0, i as int).lemma_filter_push(rows@[i as int], |r: MacroRow| r.empty);
        }
        if rows[i].empty {
            n += 1;
        }
        i += 1;
    }
    proof {
        assert(rows@.subrange(0, rows@.len() as int) =~= rows@);
    }
    n
}

/// Which cards the list shows, by place: every macro, or only those with something in them until the empty
/// ones are asked for, because two hundred empty slots bury the handful that do something.
pub fn cards_shown(rows: &Vec<MacroRow>, show_empty: bool) -> (r: Vec<usize>)
    ensures
        r@.map_values(|i: usize| i as int) == Seq::new(rows@.len(), |i: int| i).filter(
            |i: int| show_empty || !rows@[i].empty,
        ),
{
    let ghost keep = |i: int| show_empty || !rows@[i].empty;
    let mut out: Vec<usize> = Vec::new();
    let mut i: usize = 0;
    while i < rows.len()
        invariant
            i <= rows@.len(),
            keep == (|i: int| show_empty || !rows@[i].empty),
            out@.map_values(|k: usize| k as int) == Seq::new(i as nat, |k: int| k).filter(keep),
        decreases rows.len() - i,
    {
        proof {
            assert(Seq::new((i + 1) as nat, |k: int| k) =~= Seq::new(i as nat, |k: int| k).push(i as int));
            Seq::new(i as nat, |k: int| k).lemma_filter_push(i as int, keep);
        }
        let ghost before = out@;
        if show_empty || !rows[i].empty {
            out.push(i);
            proof {
                assert(out@.map_values(|k: usize| k as int) =~= before.map_values(|k: usize| k as int).push(i as int));
            }
        }
        i += 1;
    }
    proof {
        assert(Seq::new(rows@.len(), |k: int| k) =~= Seq::new(i as nat, |k: int| k));
    }
    out
}

impl MacroRow {
    /// The row for a macro: its number and name, how many steps it has, and how reading its graph went - the
    /// number of nodes when it has a graph, nothing when it has none, or what stopped it being read.
    pub fn new(id: u32, name: String, steps: usize, graph: Result<Option<usize>, String>) -> (r: MacroRow)
        ensures
            r.id == id,
            r.name@ == name@,
            r.steps == steps,
            r.nodes == (match graph {
                Ok(nodes) => nodes,
                Err(_) => None,
            }),
            r.problem == (match graph {
                Ok(_) => None,
                Err(problem) => Some(problem),
            }),
            r.empty == (steps == 0 && r.nodes is None),
    {
        let (nodes, problem) = match graph {
            Ok(nodes) => (nodes, None),
            Err(problem) => (None, Some(problem)),
        };
        MacroRow { id, name, steps, empty: steps == 0 && nodes.is_none(), nodes, problem }
    }
}

/// The number written by these digits.
pub open spec fn digits_value(s: Seq<char>) -> int
    decreases s.len(),
{
    if s.len() == 0 {
        0
    } else {
        digits_value(s.drop_last()) * 10 + (s.last() as int - '0' as int)
    }
}

/// Whether every character is a decimal digit.
pub open spec fn all_digits(s: Seq<char>) -> bool {
    forall|i: int| 0 <= i < s.len() ==> '0' <= #[trigger] s[i] <= '9'
}

/// What `str::parse::<u32>` reads: an optional `+`, then one digit or more, for a number that fits.
pub open spec fn parsed_u32(s: Seq<char>) -> Option<u32> {
    let d = if s.len() > 0 && s[0] == '+' { s.subrange(1, s.len() as int) } else { s };
    if d.len() > 0 && all_digits(d) && digits_value(d) <= u32::MAX {
        Some(digits_value(d) as u32)
    } else {
        None
    }
}

proof fn lemma_digits_grow(s: Seq<char>, i: int)
    requires
        all_digits(s),
        0 <= i <= s.len(),
    ensures
        0 <= digits_value(s.subrange(0, i)) <= digits_value(s),
    decreases s.len() - i,
{
    if i < s.len() {
        lemma_digits_grow(s, i + 1);
        let a = s.subrange(0, i + 1);
        assert(a.drop_last() =~= s.subrange(0, i));
        assert('0' <= s[i] <= '9');
    } else {
        assert(s.subrange(0, i) =~= s);
    }
    lemma_digits_nonneg(s.subrange(0, i));
}

proof fn lemma_digits_nonneg(s: Seq<char>)
    requires
        all_digits(s),
    ensures
        digits_value(s) >= 0,
    decreases s.len(),
{
    if s.len() > 0 {
        let init = s.drop_last();
        assert(all_digits(init)) by {
            assert forall|i: int| 0 <= i < init.len() implies '0' <= #[trigger] init[i] <= '9' by {
                assert(init[i] == s[i]);
            }
        }
        lemma_digits_nonneg(init);
        assert('0' <= s[s.len() - 1] <= '9');
    }
}

/// A whole number as `str::parse::<u32>` reads one: `None` for anything that is not one, or does not fit.
pub fn parse_u32(text: &str) -> (r: Option<u32>)
    ensures
        r == parsed_u32(text@),
{
    let chars = crate::text::chars_of(text);
    let mut at: usize = 0;
    if chars.len() > 0 && chars[0] == '+' {
        at = 1;
    }
    let ghost d = if text@.len() > 0 && text@[0] == '+' { text@.subrange(1, text@.len() as int) } else { text@ };
    proof {
        if at == 0 {
            assert(text@.subrange(0, text@.len() as int) =~= text@);
        }
    }
    if at == chars.len() {
        return None;
    }
    let mut value: u64 = 0;
    let mut i: usize = at;
    while i < chars.len()
        invariant
            chars@ == text@,
            d == text@.subrange(at as int, text@.len() as int),
            d == (if text@.len() > 0 && text@[0] == '+' { text@.subrange(1, text@.len() as int) } else { text@ }),
            d.len() > 0,
            at <= i <= chars.len(),
            all_digits(d.subrange(0, i - at)),
            value == digits_value(d.subrange(0, i - at)),
            value <= u32::MAX,
        decreases chars.len() - i,
    {
        let c = chars[i];
        if !('0' <= c && c <= '9') {
            proof {
                assert(d[i - at] == c);
            }
            return None;
        }
        let digit = (c as u32 - '0' as u32) as u64;
        let next = value * 10 + digit;
        proof {
            let a = d.subrange(0, i - at + 1);
            assert(a.drop_last() =~= d.subrange(0, i - at));
            assert(a.last() == c);
            assert(all_digits(a)) by {
                assert forall|k: int| 0 <= k < a.len() implies '0' <= #[trigger] a[k] <= '9' by {
                    if k < a.len() - 1 {
                        assert(a[k] == d.subrange(0, i - at)[k]);
                    }
                }
            }
        }
        proof {
            let a = d.subrange(0, i - at + 1);
            assert(digits_value(a) == digits_value(d.subrange(0, i - at)) * 10 + (c as int - '0' as int));
            assert(next == digits_value(a));
        }
        if next > u32::MAX as u64 {
            proof {
                if all_digits(d) {
                    lemma_digits_grow(d, i - at + 1);
                }
            }
            return None;
        }
        value = next;
        i += 1;
    }
    proof {
        assert(d.subrange(0, d.len() as int) =~= d);
    }
    Some(value as u32)
}

/// The number a macro's properties file is named for: `macro-`, a number, `.properties`.
pub open spec fn macro_file_id_of(file: Seq<char>) -> Option<u32> {
    if starts_with(file, "macro-"@) {
        let rest = file.subrange(6, file.len() as int);
        if crate::text::ends_with(rest, ".properties"@) {
            parsed_u32(rest.subrange(0, rest.len() - 11))
        } else {
            None
        }
    } else {
        None
    }
}

/// The number a macro's properties file is named for, or none for any other file.
pub fn macro_file_id(file: &str) -> (r: Option<u32>)
    ensures
        r == macro_file_id_of(file@),
{
    proof {
        reveal_strlit("macro-");
        reveal_strlit(".properties");
    }
    match strip_prefix(file, "macro-") {
        Some(rest) => match crate::text::strip_suffix(rest.as_str(), ".properties") {
            Some(id) => parse_u32(id.as_str()),
            None => None,
        },
        None => None,
    }
}

/// Rows in order of their numbers.
pub open spec fn rows_in_order(rows: Seq<MacroRow>) -> bool {
    forall|i: int, j: int| 0 <= i < j < rows.len() ==> (#[trigger] rows[i]).id <= (#[trigger] rows[j]).id
}

/// The rows in order of their numbers, each row kept, rows with the same number in the order they came.
pub fn sort_rows(rows: Vec<MacroRow>) -> (r: Vec<MacroRow>)
    ensures
        rows_in_order(r@),
        r@.to_multiset() == rows@.to_multiset(),
{
    broadcast use vstd::seq_lib::group_to_multiset_ensures;

    let mut rest = rows;
    let ghost all = rest@;
    let mut out: Vec<MacroRow> = Vec::new();
    while rest.len() > 0
        invariant
            rows_in_order(out@),
            out@.to_multiset().add(rest@.to_multiset()) == all.to_multiset(),
        decreases rest.len(),
    {
        let ghost before_rest = rest@;
        let ghost before_out = out@;
        let row = rest.remove(0);
        proof {
            vstd::seq_lib::to_multiset_remove(before_rest, 0);
        }
        let mut at: usize = out.len();
        while at > 0 && out[at - 1].id > row.id
            invariant
                at <= out.len(),
                out@ == before_out,
                forall|k: int| at <= k < out@.len() ==> (#[trigger] out@[k]).id > row.id,
            decreases at,
        {
            at -= 1;
        }
        let ghost id = row.id;
        out.insert(at, row);
        proof {
            vstd::seq_lib::to_multiset_insert(before_out, at as int, out@[at as int]);
            assert forall|i: int, j: int| 0 <= i < j < out@.len() implies (#[trigger] out@[i]).id <= (
            #[trigger] out@[j]).id by {
                if i < at && j == at {
                    if at > 0 {
                        assert(before_out[at - 1].id <= id);
                        assert(before_out[i].id <= before_out[at - 1].id || i == at - 1);
                    }
                } else if i == at && j > at {
                    assert(out@[j] == before_out[j - 1]);
                } else if i < at && j > at {
                    assert(out@[j] == before_out[j - 1]);
                } else if i > at {
                    assert(out@[i] == before_out[i - 1]);
                    assert(out@[j] == before_out[j - 1]);
                }
            }
            broadcast use vstd::multiset::group_multiset_axioms;
            assert(before_rest.contains(before_rest[0]));
            before_rest.to_multiset_ensures();
            assert(before_rest.to_multiset().count(before_rest[0]) > 0);
            assert(out@[at as int] == before_rest[0]);
            assert(out@.to_multiset().add(rest@.to_multiset()) =~= all.to_multiset());
        }
    }
    out
}

/// The macros that can be called from this one, by number: every row but its own, an unnamed one as
/// `(no name)`, a later row with the same number taking the place of an earlier one.
pub open spec fn callable_map(rows: Seq<MacroRow>, exclude: u32) -> Map<u32, Seq<char>>
    decreases rows.len(),
{
    if rows.len() == 0 {
        Map::empty()
    } else {
        let before = callable_map(rows.drop_last(), exclude);
        let row = rows.last();
        if row.id == exclude {
            before
        } else {
            before.insert(row.id, if row.name@.len() == 0 { "(no name)"@ } else { row.name@ })
        }
    }
}

/// What the list calls a macro: its name, or `(no name)` when it has none.
pub open spec fn listed_name(row: MacroRow) -> Seq<char> {
    if row.name@.len() == 0 { "(no name)"@ } else { row.name@ }
}

/// A macro cannot call itself, and can call every other: the numbers offered are exactly those of the other
/// rows, and when no two rows share a number each is offered under its own listed name.
pub proof fn a_macro_is_offered_every_other_but_itself(rows: Seq<MacroRow>, exclude: u32)
    ensures
        !callable_map(rows, exclude).dom().contains(exclude),
        forall|id: u32|
            #[trigger] callable_map(rows, exclude).dom().contains(id) <==> id != exclude && exists|i: int|
                0 <= i < rows.len() && rows[i].id == id,
        (forall|i: int, j: int| 0 <= i < j < rows.len() ==> #[trigger] rows[i].id != #[trigger] rows[j].id) ==> forall|
            i: int,
        |
            0 <= i < rows.len() && rows[i].id != exclude ==> callable_map(rows, exclude)[#[trigger] rows[i].id]
                == listed_name(rows[i]),
    decreases rows.len(),
{
    if rows.len() > 0 {
        let init = rows.drop_last();
        let row = rows.last();
        a_macro_is_offered_every_other_but_itself(init, exclude);
        let m = callable_map(rows, exclude);
        assert forall|id: u32| #[trigger] m.dom().contains(id) <==> id != exclude && exists|i: int|
            0 <= i < rows.len() && rows[i].id == id by {
            if id != exclude && exists|i: int| 0 <= i < rows.len() && rows[i].id == id {
                let i = choose|i: int| 0 <= i < rows.len() && rows[i].id == id;
                if i < init.len() {
                    assert(init[i].id == id);
                }
            }
            if callable_map(init, exclude).dom().contains(id) {
                let i = choose|i: int| 0 <= i < init.len() && init[i].id == id;
                assert(rows[i].id == id);
            }
        }
        if forall|i: int, j: int| 0 <= i < j < rows.len() ==> #[trigger] rows[i].id != #[trigger] rows[j].id {
            assert forall|i: int, j: int| 0 <= i < j < init.len() implies #[trigger] init[i].id != #[trigger] init[j].id by {
                assert(rows[i].id != rows[j].id);
            }
            assert forall|i: int| 0 <= i < rows.len() && rows[i].id != exclude implies m[#[trigger] rows[i].id]
                == listed_name(rows[i]) by {
                if i < init.len() {
                    assert(init[i] == rows[i]);
                    assert(rows[i].id != rows[rows.len() - 1].id);
                }
            }
        }
    }
}

/// The names of the macros that can be called, for the `call` node's list.
pub fn callable(rows: &Vec<MacroRow>, exclude: u32) -> (r: std::collections::BTreeMap<u32, String>)
    ensures
        r@.dom() == callable_map(rows@, exclude).dom(),
        forall|id: u32| #[trigger] r@.contains_key(id) ==> r@[id]@ == callable_map(rows@, exclude)[id],
{
    let mut m: std::collections::BTreeMap<u32, String> = std::collections::BTreeMap::new();
    let mut i: usize = 0;
    while i < rows.len()
        invariant
            i <= rows.len(),
            m@.dom() == callable_map(rows@.subrange(0, i as int), exclude).dom(),
            forall|id: u32| #[trigger] m@.contains_key(id) ==> m@[id]@ == callable_map(
                rows@.subrange(0, i as int),
                exclude,
            )[id],
        decreases rows.len() - i,
    {
        proof {
            assert(rows@.subrange(0, i + 1).drop_last() =~= rows@.subrange(0, i as int));
        }
        let row = &rows[i];
        if row.id != exclude {
            let name = if row.name.as_str().unicode_len() == 0 { owned("(no name)") } else { owned(row.name.as_str()) };
            m.insert(row.id, name);
        }
        i += 1;
    }
    proof {
        assert(rows@.subrange(0, rows@.len() as int) =~= rows@);
    }
    m
}

/// What a playback did, for the line under the Play button.
#[derive(Debug, Clone, PartialEq)]
pub struct Played {
    /// The node ids the walk went through, in the order it went.
    pub walked: Vec<String>,
    /// What stopped it, when something did.
    pub problem: Option<String>,
}

impl Played {
    /// What a walk comes to: what stopped it, when something did, or else the problems it met on the way joined
    /// by `; `, or nothing when it met none.
    pub fn of(walked: Vec<String>, stopped: Option<String>, problems: &Vec<String>) -> (r: Played)
        ensures
            r.walked == walked,
            match stopped {
                Some(p) => r.problem == Some(p),
                None => if problems@.len() == 0 {
                    r.problem is None
                } else {
                    r.problem matches Some(p) && p@ == joined(texts(problems@), "; "@)
                },
            },
    {
        let problem = match stopped {
            Some(p) => Some(p),
            None => if problems.len() == 0 {
                None
            } else {
                Some(join_all(problems, "; "))
            },
        };
        Played { walked, problem }
    }
}

/// Texts one after the other with a separator between each two.
pub open spec fn joined(parts: Seq<Seq<char>>, sep: Seq<char>) -> Seq<char>
    decreases parts.len(),
{
    if parts.len() == 0 {
        Seq::empty()
    } else if parts.len() == 1 {
        parts[0]
    } else {
        joined(parts.drop_last(), sep) + sep + parts.last()
    }
}

/// Texts one after the other with a separator between each two, as `join` writes them.
pub fn join_all(parts: &Vec<String>, sep: &str) -> (r: String)
    ensures
        r@ == joined(texts(parts@), sep@),
{
    let mut out = String::new();
    let mut i: usize = 0;
    while i < parts.len()
        invariant
            i <= parts.len(),
            out@ == joined(texts(parts@).subrange(0, i as int), sep@),
        decreases parts.len() - i,
    {
        proof {
            let t = texts(parts@).subrange(0, i + 1);
            assert(t.drop_last() =~= texts(parts@).subrange(0, i as int));
            assert(t.last() == parts@[i as int]@);
        }
        if i == 0 {
            out = owned(parts[i].as_str());
            proof {
                assert(texts(parts@).subrange(0, 1) =~= seq![parts@[0]@]);
            }
        } else {
            out = join3(out.as_str(), sep, parts[i].as_str());
        }
        i += 1;
    }
    proof {
        assert(texts(parts@).subrange(0, parts@.len() as int) =~= texts(parts@));
    }
    out
}

/// The published values' names, for the condition editor's list of names: sorted, each kept.
pub fn value_names(published: Vec<String>) -> (r: Vec<String>)
    ensures
        crate::text::texts_in_order(texts(r@)),
        texts(r@).to_multiset() == texts(published@).to_multiset(),
{
    crate::text::sort_texts(published)
}

} // verus!
