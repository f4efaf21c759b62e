//! Editing a macro where it lives: the steps of its flat form, and the boxes of its graph.
//!
//! Each change says whether there is anything to write; writing the macro back is the caller's work. A key is set
//! by its code, which the keyboard table gives for a name.

use vstd::prelude::*;
use crate::macros::cond::Cond;
use crate::macros::graph::{
    fresh_kind, new_node, node_ids, node_name, nodes_view, picks, pointed, row_y, set_node_number, set_port,
    with_number, GraphNode, GraphV, KeyMode, MacroGraph, MacroStep, NodeKind, NodeKindV, NodeV,
};
use crate::text::{first_at, lemma_first_at, owned, same_text, trim, trimmed};

verus! {

/// The step a new one of a kind starts as: a press or release of `a`, or a wait of 50ms.
pub open spec fn fresh_step(kind: Seq<char>) -> MacroStep {
    if kind == "press"@ {
        MacroStep::KeyDown(30)
    } else if kind == "release"@ {
        MacroStep::KeyUp(30)
    } else {
        MacroStep::Delay(50)
    }
}

/// Add a step of a kind - `press`, `release`, or a wait for anything else - at the end.
pub fn add_step(steps: &mut Vec<MacroStep>, kind: &str)
    ensures
        final(steps)@ == old(steps)@.push(fresh_step(kind@)),
{
    let step = if same_text(kind, "press") {
        MacroStep::KeyDown(30)
    } else if same_text(kind, "release") {
        MacroStep::KeyUp(30)
    } else {
        MacroStep::Delay(50)
    };
    steps.push(step);
}

/// Take a step out by its place in the list; says whether there was one there.
pub fn remove_step(steps: &mut Vec<MacroStep>, index: usize) -> (r: bool)
    ensures
        r == (index < old(steps)@.len()),
        r ==> final(steps)@ == old(steps)@.remove(index as int),
        !r ==> final(steps)@ == old(steps)@,
{
    if index < steps.len() {
        steps.remove(index);
        true
    } else {
        false
    }
}

/// Where a step moved by `by` places goes, when that is a place in the list.
pub open spec fn step_moves_to(len: int, index: int, by: int) -> Option<int> {
    if 0 <= index + by < len {
        Some(index + by)
    } else {
        None
    }
}

/// Move a step by some places, swapping so nothing else about either step changes; says whether it moved.
pub fn move_step(steps: &mut Vec<MacroStep>, index: usize, by: i64) -> (r: bool)
    requires
        step_moves_to(old(steps)@.len() as int, index as int, by as int) is Some ==> index < old(steps)@.len(),
    ensures
        match step_moves_to(old(steps)@.len() as int, index as int, by as int) {
            Some(to) => r && final(steps)@ == old(steps)@.update(index as int, old(steps)@[to]).update(
                to,
                old(steps)@[index as int],
            ),
            None => !r && final(steps)@ == old(steps)@,
        },
{
    let target: i128 = index as i128 + by as i128;
    if target < 0 || target >= steps.len() as i128 {
        return false;
    }
    let to = target as usize;
    let a = steps[index];
    let b = steps[to];
    steps.set(index, b);
    steps.set(to, a);
    true
}

/// A step with what it does changed and the rest kept: a press or release keeps its key, or takes `a`; a wait
/// keeps its time, or takes 50ms.
pub open spec fn step_as(step: MacroStep, kind: Seq<char>) -> MacroStep {
    let code = match step {
        MacroStep::KeyDown(c) => c,
        MacroStep::KeyUp(c) => c,
        MacroStep::Delay(_) => 30,
    };
    let ms = match step {
        MacroStep::Delay(m) => m,
        _ => 50,
    };
    if kind == "press"@ {
        MacroStep::KeyDown(code)
    } else if kind == "release"@ {
        MacroStep::KeyUp(code)
    } else {
        MacroStep::Delay(ms)
    }
}

/// Change what a step does, keeping the rest of it; says whether there was a step there.
pub fn set_step_kind(steps: &mut Vec<MacroStep>, index: usize, kind: &str) -> (r: bool)
    ensures
        r == (index < old(steps)@.len()),
        r ==> final(steps)@ == old(steps)@.update(index as int, step_as(old(steps)@[index as int], kind@)),
        !r ==> final(steps)@ == old(steps)@,
{
    if index >= steps.len() {
        return false;
    }
    let step = steps[index];
    let code = match step {
        MacroStep::KeyDown(c) => c,
        MacroStep::KeyUp(c) => c,
        MacroStep::Delay(_) => 30,
    };
    let ms = match step {
        MacroStep::Delay(m) => m,
        _ => 50,
    };
    let changed = if same_text(kind, "press") {
        MacroStep::KeyDown(code)
    } else if same_text(kind, "release") {
        MacroStep::KeyUp(code)
    } else {
        MacroStep::Delay(ms)
    };
    steps.set(index, changed);
    true
}

/// Set the key a press or release step uses; says whether the step there is one.
pub fn set_step_key(steps: &mut Vec<MacroStep>, index: usize, code: u16) -> (r: bool)
    ensures
        r == (index < old(steps)@.len() && !(old(steps)@[index as int] is Delay)),
        r ==> final(steps)@ == old(steps)@.update(
            index as int,
            match old(steps)@[index as int] {
                MacroStep::KeyDown(_) => MacroStep::KeyDown(code),
                _ => MacroStep::KeyUp(code),
            },
        ),
        !r ==> final(steps)@ == old(steps)@,
{
    if index >= steps.len() {
        return false;
    }
    match steps[index] {
        MacroStep::KeyDown(_) => {
            steps.set(index, MacroStep::KeyDown(code));
            true
        },
        MacroStep::KeyUp(_) => {
            steps.set(index, MacroStep::KeyUp(code));
            true
        },
        MacroStep::Delay(_) => false,
    }
}

/// Set how long a wait step waits; says whether the step there is one.
pub fn set_step_delay(steps: &mut Vec<MacroStep>, index: usize, ms: u32) -> (r: bool)
    ensures
        r == (index < old(steps)@.len() && old(steps)@[index as int] is Delay),
        r ==> final(steps)@ == old(steps)@.update(index as int, MacroStep::Delay(ms)),
        !r ==> final(steps)@ == old(steps)@,
{
    if index >= steps.len() {
        return false;
    }
    match steps[index] {
        MacroStep::Delay(_) => {
            steps.set(index, MacroStep::Delay(ms));
            true
        },
        _ => false,
    }
}

/// The graph with a box added: the box `new_node` makes, put last, made the start when the graph has none, and
/// joined from the box that was last, because a box nothing reaches never runs.
pub open spec fn node_added(g: GraphV, node: NodeV) -> GraphV {
    let with_box = GraphV {
        nodes: g.nodes.push(node),
        start: if g.start.len() == 0 {
            node.id
        } else {
            g.start
        },
        ..g
    };
    if g.nodes.len() > 0 {
        GraphV { edges: pointed(with_box, g.nodes.last().id, "out"@, Some(node.id)), ..with_box }
    } else {
        with_box
    }
}

/// Add a box of a kind to the graph, joined from the last one; a kind this build does not run is refused.
pub fn add_node(graph: &mut MacroGraph, kind: &str) -> (r: Result<(), String>)
    requires
        old(graph).nodes@.len() <= isize::MAX,
    ensures
        r is Ok <==> fresh_kind(kind@) is Some,
        r is Ok ==> exists|node: NodeV|
            {
                &&& exists|k: nat| picks(node_ids(old(graph)@.nodes), k) && node.id == node_name(k)
                &&& !node_ids(old(graph)@.nodes).contains(node.id)
                &&& Some(node.kind) == fresh_kind(kind@)
                &&& node.x == 60
                &&& node.y == row_y(old(graph).nodes@.len() as int)
                &&& final(graph)@ == node_added(old(graph)@, node)
            },
        r matches Err(problem) ==> problem@ == kind@ + " is not a node this build runs"@ && final(graph)@ == old(
            graph,
        )@,
{
    let ghost g = graph@;
    match new_node(graph, kind) {
        Ok(node) => {
            let ghost nv = node@;
            let from = if graph.nodes.len() > 0 {
                Some(owned(graph.nodes[graph.nodes.len() - 1].id.as_str()))
            } else {
                None
            };
            let id = owned(node.id.as_str());
            graph.nodes.push(node);
            if graph.start.as_str().unicode_len() == 0 {
                graph.start = owned(id.as_str());
            }
            let ghost with_box = GraphV {
                nodes: g.nodes.push(nv),
                start: if g.start.len() == 0 {
                    nv.id
                } else {
                    g.start
                },
                ..g
            };
            proof {
                assert(nodes_view(graph.nodes@) =~= g.nodes.push(nv));
                assert(graph@ == with_box);
            }
            match from {
                Some(f) => {
                    proof {
                        assert(g.nodes.last().id == f@);
                    }
                    set_port(graph, f.as_str(), "out", Some(id.as_str()));
                },
                None => {},
            }
            proof {
                assert(graph@ == node_added(g, nv));
            }
            Ok(())
        },
        Err(problem) => Err(problem),
    }
}

/// The graph with the first box of a name changed by `change`; a graph with no such box is left as it is.
pub open spec fn on_node(g: GraphV, id: Seq<char>, change: spec_fn(NodeKindV) -> NodeKindV) -> GraphV {
    match first_at(node_ids(g.nodes), id) {
        Some(i) => GraphV { nodes: g.nodes.update(i, NodeV { kind: change(g.nodes[i].kind), ..g.nodes[i] }), ..g },
        None => g,
    }
}

/// Where the first box of a name is.
fn find_node(graph: &MacroGraph, id: &str) -> (r: Option<usize>)
    ensures
        r matches Some(i) ==> i < graph.nodes@.len() && first_at(node_ids(graph@.nodes), id@) == Some(i as int),
        r is None ==> first_at(node_ids(graph@.nodes), id@) is None,
{
    let ghost ids = node_ids(graph@.nodes);
    let mut i: usize = 0;
    while i < graph.nodes.len()
        invariant
            i <= graph.nodes@.len(),
            ids == node_ids(graph@.nodes),
            ids.len() == graph.nodes@.len(),
            forall|k: int| 0 <= k < i ==> ids[k] != id@,
        decreases graph.nodes.len() - i,
    {
        if same_text(graph.nodes[i].id.as_str(), id) {
            proof {
                assert(ids[i as int] == id@);
                lemma_first_at(ids, id@, i as int);
            }
            return Some(i);
        }
        proof {
            assert(ids[i as int] == graph.nodes@[i as int].id@);
        }
        i += 1;
    }
    proof {
        if ids.contains(id@) {
            let k = choose|k: int| 0 <= k < ids.len() && ids[k] == id@;
            assert(ids[k] != id@);
        }
    }
    None
}

/// Put a box's new kind in its place.
fn replace_kind(graph: &mut MacroGraph, i: usize, kind: NodeKind)
    requires
        i < old(graph).nodes@.len(),
    ensures
        final(graph)@ == (GraphV {
            nodes: old(graph)@.nodes.update(i as int, NodeV { kind: kind@, ..old(graph)@.nodes[i as int] }),
            ..old(graph)@
        }),
{
    let ghost g = graph@;
    let ghost kv = kind@;
    let id = owned(graph.nodes[i].id.as_str());
    let x = graph.nodes[i].x;
    let y = graph.nodes[i].y;
    graph.nodes.set(i, GraphNode { id, kind, x, y });
    proof {
        assert(nodes_view(graph.nodes@) =~= g.nodes.update(i as int, NodeV { kind: kv, ..g.nodes[i as int] }));
    }
}

/// A copy of what a box does.
fn copy_kind(kind: &NodeKind) -> (r: NodeKind)
    ensures
        r@ == kind@,
{
    match kind {
        NodeKind::Key { code, hold, mode } => NodeKind::Key { code: *code, hold: *hold, mode: *mode },
        NodeKind::Wait { ms } => NodeKind::Wait { ms: *ms },
        NodeKind::Type { text, per_key } => NodeKind::Type { text: owned(text.as_str()), per_key: *per_key },
        NodeKind::If { when } => NodeKind::If { when: crate::macros::cond::copy_cond(when) },
        NodeKind::Repeat { times } => NodeKind::Repeat { times: *times },
        NodeKind::Call { macro_id } => NodeKind::Call { macro_id: *macro_id },
        NodeKind::Run { spec } => NodeKind::Run { spec: owned(spec.as_str()) },
        NodeKind::Stop => NodeKind::Stop,
    }
}

/// Set one of a box's numbered fields - a hold, a wait, a count - as `set_node_number` holds it to what the
/// field can be.
pub fn set_node_value(graph: &mut MacroGraph, id: &str, field: &str, value: i64)
    ensures
        final(graph)@ == on_node(old(graph)@, id@, |k: NodeKindV| with_number(k, field@, value as int)),
{
    match find_node(graph, id) {
        Some(i) => {
            let mut kind = copy_kind(&graph.nodes[i].kind);
            set_node_number(&mut kind, field, value);
            replace_kind(graph, i, kind);
        },
        None => {},
    }
}

/// Set the key a key box presses.
pub fn set_node_key(graph: &mut MacroGraph, id: &str, code: u16)
    ensures
        final(graph)@ == on_node(
            old(graph)@,
            id@,
            |k: NodeKindV|
                match k {
                    NodeKindV::Key { hold, mode, .. } => NodeKindV::Key { code, hold, mode },
                    other => other,
                },
        ),
{
    match find_node(graph, id) {
        Some(i) => {
            let kind = match &graph.nodes[i].kind {
                NodeKind::Key { hold, mode, .. } => NodeKind::Key { code, hold: *hold, mode: *mode },
                other => copy_kind(other),
            };
            replace_kind(graph, i, kind);
        },
        None => {},
    }
}

/// Set whether a key box taps, holds down or lets go.
pub fn set_node_mode(graph: &mut MacroGraph, id: &str, mode: KeyMode)
    ensures
        final(graph)@ == on_node(
            old(graph)@,
            id@,
            |k: NodeKindV|
                match k {
                    NodeKindV::Key { code, hold, .. } => NodeKindV::Key { code, hold, mode },
                    other => other,
                },
        ),
{
    match find_node(graph, id) {
        Some(i) => {
            let kind = match &graph.nodes[i].kind {
                NodeKind::Key { code, hold, .. } => NodeKind::Key { code: *code, hold: *hold, mode },
                other => copy_kind(other),
            };
            replace_kind(graph, i, kind);
        },
        None => {},
    }
}

/// Set a type box's text; nothing leaves it as it is.
pub fn set_node_text(graph: &mut MacroGraph, id: &str, text: Option<&str>)
    ensures
        final(graph)@ == on_node(
            old(graph)@,
            id@,
            |k: NodeKindV|
                match (k, text) {
                    (NodeKindV::Type { per_key, .. }, Some(t)) => NodeKindV::Type { text: t@, per_key },
                    (other, _) => other,
                },
        ),
{
    match find_node(graph, id) {
        Some(i) => {
            let kind = match (&graph.nodes[i].kind, text) {
                (NodeKind::Type { per_key, .. }, Some(t)) => NodeKind::Type { text: owned(t), per_key: *per_key },
                (other, _) => copy_kind(other),
            };
            replace_kind(graph, i, kind);
        },
        None => {},
    }
}

/// What a run box is refused for when it would do nothing.
pub open spec fn run_needs_something() -> Seq<char> {
    "a run box needs something to do, e.g. cmd:notify-send done"@
}

/// Set what a run box does, trimmed, refusing one that says nothing: a run with no command would save as a box
/// that looks like it does something and does not.
pub fn set_node_spec(graph: &mut MacroGraph, id: &str, spec: &str) -> (r: Option<String>)
    ensures
        trimmed(spec@).len() == 0 ==> (r matches Some(p) && p@ == run_needs_something() && final(graph)@ == old(
            graph,
        )@),
        trimmed(spec@).len() > 0 ==> r is None && final(graph)@ == on_node(
            old(graph)@,
            id@,
            |k: NodeKindV|
                match k {
                    NodeKindV::Run { .. } => NodeKindV::Run { spec: trimmed(spec@) },
                    other => other,
                },
        ),
{
    let t = trim(spec);
    if t.as_str().unicode_len() == 0 {
        return Some(owned("a run box needs something to do, e.g. cmd:notify-send done"));
    }
    match find_node(graph, id) {
        Some(i) => {
            let kind = match &graph.nodes[i].kind {
                NodeKind::Run { .. } => NodeKind::Run { spec: t },
                other => copy_kind(other),
            };
            replace_kind(graph, i, kind);
        },
        None => {},
    }
    None
}

/// Replace an if box's question with the one the editor built.
pub fn set_node_condition(graph: &mut MacroGraph, id: &str, condition: Cond)
    ensures
        final(graph)@ == on_node(
            old(graph)@,
            id@,
            |k: NodeKindV|
                match k {
                    NodeKindV::If { .. } => NodeKindV::If { when: condition@ },
                    other => other,
                },
        ),
{
    match find_node(graph, id) {
        Some(i) => {
            let kind = match &graph.nodes[i].kind {
                NodeKind::If { .. } => NodeKind::If { when: condition },
                other => copy_kind(other),
            };
            replace_kind(graph, i, kind);
        },
        None => {},
    }
}

/// A box added to a graph that has boxes is where the last box's `out` leads, and every line still reaches a
/// box the graph has.
pub proof fn a_new_box_is_reached_from_the_last(g: GraphV, node: NodeV)
    requires
        g.nodes.len() > 0,
    ensures
        crate::macros::graph::first_target(node_added(g, node).edges, g.nodes.last().id, "out"@) == Some(node.id),
        forall|i: int|
            0 <= i < node_added(g, node).edges.len() ==> node_ids(node_added(g, node).nodes).contains(
                (#[trigger] node_added(g, node).edges[i]).2,
            ),
{
    let with_box = GraphV { nodes: g.nodes.push(node), start: if g.start.len() == 0 { node.id } else { g.start }, ..g };
    assert(node_ids(with_box.nodes)[with_box.nodes.len() - 1] == node.id);
    crate::macros::graph::a_port_leads_where_it_was_pointed(with_box, g.nodes.last().id, "out"@, Some(node.id));
}

/// A step moved by some places and then moved back by as many is where it was, and so is every other step.
pub proof fn a_step_moved_and_moved_back_is_where_it_was(s: Seq<MacroStep>, index: int, by: int)
    requires
        0 <= index < s.len(),
        step_moves_to(s.len() as int, index, by) is Some,
    ensures
        ({
            let to = index + by;
            let once = s.update(index, s[to]).update(to, s[index]);
            &&& step_moves_to(once.len() as int, to, -by) == Some(index)
            &&& once.update(to, once[index]).update(index, once[to]) == s
        }),
{
    let to = index + by;
    let once = s.update(index, s[to]).update(to, s[index]);
    assert(once.update(to, once[index]).update(index, once[to]) =~= s);
}

} // verus!
