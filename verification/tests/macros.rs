use g13_gui::macros::cond::copy_cond;
use g13_gui::macros::graph::{card_label, cards_shown, empty_macro_count};
use g13_gui::macros::edit::{
    add_node, add_step, move_step, remove_step, set_node_condition, set_node_key, set_node_mode, set_node_spec,
    set_node_text, set_node_value, set_step_delay, set_step_key, set_step_kind,
};
use g13_gui::macros::{
    add_source, callable, describe_port, describe_question, join_all, macro_file_id, new_node, node_number,
    node_words, op_from_text, op_words, parse_u32, port_target, ports_of_kind, readable_names, remove_node,
    remove_source, set_node_number, set_port, set_source, sort_rows, steps_as_chain, value_names, Compare, Cond,
    ConditionForm, GraphNode, KeyMode, MacroGraph, MacroRow, MacroStep, Names, NodeKind, Played, Question,
    QuestionRow,
};

/// The names the key table gives the codes these tests press.
fn key_of(kind: &NodeKind) -> &'static str {
    match kind {
        NodeKind::Key { code, .. } => match code {
            29 => "leftctrl",
            56 => "leftalt",
            111 => "delete",
            30 => "a",
            _ => "?",
        },
        _ => "",
    }
}

fn words(kind: &NodeKind) -> String {
    node_words(kind, key_of(kind))
}

fn empty_graph() -> MacroGraph {
    MacroGraph { start: String::new(), nodes: Vec::new(), edges: Vec::new(), sources: Vec::new() }
}

/// A node of a kind with no graph around it, under a name of the test's own.
fn new_node_in(id: &str, kind: &str) -> GraphNode {
    let mut node = new_node(&empty_graph(), kind).expect("a kind");
    node.id = id.to_string();
    node
}

fn strings(list: &[&str]) -> Vec<String> {
    list.iter().map(|s| s.to_string()).collect()
}

#[test]
fn a_recorded_press_is_one_box_and_a_chord_stays_a_chord() {
    let single = vec![MacroStep::KeyDown(29), MacroStep::Delay(20), MacroStep::KeyUp(29)];
    let graph = steps_as_chain(1, &single, "one press");
    assert_eq!(graph.nodes.len(), 1, "{:?}", graph.nodes);
    assert_eq!(words(&graph.nodes[0].kind), "Press leftctrl for 20ms");

    let chord = vec![
        MacroStep::KeyDown(29),
        MacroStep::KeyDown(56),
        MacroStep::KeyDown(111),
        MacroStep::Delay(20),
        MacroStep::KeyUp(111),
        MacroStep::KeyUp(56),
        MacroStep::KeyUp(29),
        MacroStep::Delay(100),
    ];
    let graph = steps_as_chain(0, &chord, "CTRL-ALT-DEL");
    let said: Vec<String> = graph.nodes.iter().map(|node| words(&node.kind)).collect();
    assert_eq!(
        said,
        vec![
            "Hold leftctrl down",
            "Hold leftalt down",
            "Press delete for 20ms",
            "Release leftalt",
            "Release leftctrl",
            "Wait 100ms",
        ],
        "the chord does not read as a chord"
    );
    assert_eq!(graph.edges.len(), graph.nodes.len() - 1);

    let typed = vec![
        MacroStep::KeyDown(20),
        MacroStep::Delay(111),
        MacroStep::KeyDown(18),
        MacroStep::Delay(25),
        MacroStep::KeyUp(20),
        MacroStep::Delay(85),
        MacroStep::KeyUp(18),
    ];
    let graph = steps_as_chain(2, &typed, "test");
    assert_eq!(graph.nodes.len(), typed.len(), "a press was folded away");
}

#[test]
fn a_macro_can_declare_what_it_reads_and_an_output_to_call() {
    let mut graph = MacroGraph {
        start: "ask".to_string(),
        nodes: vec![new_node_in("ask", "if")],
        edges: Vec::new(),
        sources: Vec::new(),
    };
    let problem = add_source(&mut graph, "  ", "cmd:sensors").unwrap_err();
    assert!(problem.contains("needs a name"), "{problem}");
    let problem = add_source(&mut graph, "heat", "   ").unwrap_err();
    assert!(problem.contains("needs something to read"), "{problem}");
    add_source(&mut graph, "heat", "cmd:sensors").expect("a source");
    let problem = add_source(&mut graph, "heat", "file:/tmp/x").unwrap_err();
    assert!(problem.contains("already"), "{problem}");

    set_source(&mut graph, "heat", "cpu_temp", "cmd:sensors").expect("renamed");
    assert!(!graph.sources.iter().any(|(name, _)| name == "heat"));
    assert_eq!(
        graph.sources.iter().find(|(name, _)| name == "cpu_temp").map(|(_, spec)| spec.as_str()),
        Some("cmd:sensors")
    );
    remove_source(&mut graph, "cpu_temp");
    assert!(graph.sources.is_empty());

    let run = new_node_in("do", "run");
    assert_eq!(words(&run.kind), "Run ");
    let written = MacroGraph {
        start: "do".to_string(),
        nodes: vec![GraphNode {
            id: "do".to_string(),
            kind: NodeKind::Run { spec: "cmd:notify-send done".to_string() },
            x: 0,
            y: 0,
        }],
        edges: Vec::new(),
        sources: Vec::new(),
    };
    assert_eq!(words(&written.node("do").expect("do").kind), "Run notify-send done");
}

#[test]
fn the_names_a_question_can_ask_about_are_the_macros_own_ones_first() {
    let published = value_names(strings(&["memory", "cpu", "load"]));
    let mut graph = MacroGraph {
        start: "ask".to_string(),
        nodes: vec![new_node_in("ask", "if")],
        edges: Vec::new(),
        sources: Vec::new(),
    };
    add_source(&mut graph, "cpu_temp", "cmd:sensors").expect("a source");
    let names = readable_names(Some(&graph), &published);
    assert_eq!(names.first().map(String::as_str), Some("cpu_temp"));
    assert!(names.iter().any(|name| name == "cpu"), "{names:?}");
    add_source(&mut graph, "cpu", "cmd:sensors").expect("a source that shadows");
    let names = readable_names(Some(&graph), &published);
    assert_eq!(names.iter().filter(|name| *name == "cpu").count(), 1, "{names:?}");
    assert!(names.first().map(String::as_str) == Some("cpu"), "{names:?}");
}

fn waits(ids: &[&str]) -> Vec<GraphNode> {
    ids.iter()
        .map(|id| GraphNode { id: (*id).to_string(), kind: NodeKind::Wait { ms: 1 }, x: 0, y: 0 })
        .collect()
}

#[test]
fn a_port_points_at_one_node_or_at_nothing() {
    let mut graph =
        MacroGraph { start: "a".to_string(), nodes: waits(&["a", "b", "c"]), edges: Vec::new(), sources: Vec::new() };
    set_port(&mut graph, "a", "out", Some("b"));
    assert_eq!(port_target(&graph, "a", "out").as_deref(), Some("b"));
    set_port(&mut graph, "a", "out", Some("c"));
    assert_eq!(port_target(&graph, "a", "out").as_deref(), Some("c"));
    assert_eq!(graph.edges.len(), 1);
    set_port(&mut graph, "a", "out", None);
    assert_eq!(port_target(&graph, "a", "out"), None);
    assert!(graph.edges.is_empty());

    set_port(&mut graph, "a", "out", Some("b"));
    set_port(&mut graph, "b", "out", Some("c"));
    remove_node(&mut graph, "b");
    assert_eq!(graph.nodes.len(), 2);
    assert!(graph.edges.is_empty(), "a line survived the node it reached");
    assert_eq!(graph.start, "a");

    let mut second =
        MacroGraph { start: "b".to_string(), nodes: waits(&["a", "c"]), edges: Vec::new(), sources: Vec::new() };
    second.nodes.insert(1, waits(&["b"]).remove(0));
    remove_node(&mut second, "b");
    assert_eq!(second.start, "a");
}

#[test]
fn a_condition_reads_into_a_form_and_back_again() {
    let control = Cond::Control("G7".to_string());
    let form = ConditionForm::from_cond(&control).expect("a form");
    assert_eq!(form.rows.len(), 1);
    assert_eq!(form.to_cond(), control);
    assert_eq!(form.describe(), "fired by G7");

    let not = Cond::Not(Box::new(Cond::Profile(2)));
    let form = ConditionForm::from_cond(&not).expect("a form");
    assert!(form.rows[0].not);
    assert_eq!(form.to_cond(), not);

    let both = Cond::All(vec![
        Cond::Profile(2),
        Cond::Value { name: "cpu".to_string(), op: Compare::Gt, number: Some("50".to_string()), text: None },
    ]);
    let form = ConditionForm::from_cond(&both).expect("a form");
    assert!(form.all);
    assert_eq!(form.rows.len(), 2);
    assert_eq!(form.to_cond(), both);
    assert_eq!(form.describe(), "profile 2 is active and cpu > 50");

    let flat_any = Cond::Any(vec![Cond::Profile(1), Cond::Control("G7".to_string())]);
    let form = ConditionForm::from_cond(&flat_any).expect("a form");
    assert!(!form.all);
    assert_eq!(form.to_cond(), flat_any);

    let nested = Cond::Any(vec![Cond::All(vec![Cond::Profile(1)]), Cond::Profile(2)]);
    assert!(ConditionForm::from_cond(&nested).is_none(), "a nested tree was given a form");
    let deeply = Cond::Not(Box::new(Cond::All(vec![Cond::Profile(1)])));
    assert!(ConditionForm::from_cond(&deeply).is_none());
}

#[test]
fn a_new_node_gets_an_id_nothing_else_has() {
    let mut graph = empty_graph();
    let first = new_node(&graph, "wait").expect("a node");
    assert_eq!(first.id, "n1");
    graph.nodes.push(first);
    let second = new_node(&graph, "if").expect("a node");
    assert_eq!(second.id, "n2");
    assert!(matches!(second.kind, NodeKind::If { when: Cond::Control(_) }));
    assert!(new_node(&graph, "flash").is_err());
}

#[test]
fn a_new_question_knows_what_to_ask_about() {
    let sources = vec![("cpu".to_string(), "cpu".to_string()), ("memory".to_string(), "memory".to_string())];
    let published = value_names(strings(&["load", "cpu", "disk"]));
    let names = Names::for_applet(&sources, &published);
    assert_eq!(names.first, "cpu", "a new question would start on nothing: {:?}", names.all);
    assert!(names.all.starts_with(&["cpu".to_string(), "memory".to_string()]));
}

#[test]
fn with_nothing_declared_it_still_offers_the_published_names() {
    let empty: Vec<(String, String)> = Vec::new();
    let published = value_names(strings(&["load", "cpu", "disk"]));
    let names = Names::for_applet(&empty, &published);
    assert!(!names.first.is_empty(), "nothing to start a question on");
    assert!(names.all.contains(&names.first));
}

#[test]
fn a_value_question_carries_all_three_parts() {
    let form = ConditionForm {
        all: true,
        rows: vec![QuestionRow {
            not: false,
            question: Question::Value {
                name: "cpu".to_string(),
                op: Compare::Gt,
                number: Some("80".to_string()),
                text: None,
            },
        }],
    };
    let described = form.describe();
    assert!(described.contains("cpu"), "the value is not named: {described}");
    assert!(described.contains('>'), "no comparison: {described}");
    assert!(described.contains("80"), "nothing to compare against: {described}");
}

#[test]
fn turning_steps_into_a_chain_keeps_every_step_in_order() {
    let steps = vec![
        MacroStep::KeyDown(29),
        MacroStep::Delay(20),
        MacroStep::KeyUp(29),
        MacroStep::Delay(100),
        MacroStep::KeyUp(30),
    ];
    let graph = steps_as_chain(3, &steps, "chained");
    assert_eq!(graph.nodes.len(), 3);
    assert_eq!(graph.start, "n1");
    assert_eq!(port_target(&graph, "n1", "out").as_deref(), Some("n2"));
    assert_eq!(port_target(&graph, "n2", "out").as_deref(), Some("n3"));
    assert_eq!(port_target(&graph, "n3", "out"), None);
    assert_eq!(graph.nodes[0].kind, NodeKind::Key { code: 29, hold: 20, mode: KeyMode::Tap });
    assert_eq!(graph.nodes[1].kind, NodeKind::Wait { ms: 100 });
    assert_eq!(graph.nodes[2].kind, NodeKind::Key { code: 30, hold: 30, mode: KeyMode::Up });
    assert_eq!((graph.nodes[2].x, graph.nodes[2].y), (60, 170));
    let empty = steps_as_chain(0, &[], "nothing");
    assert!(empty.nodes.is_empty() && empty.edges.is_empty() && empty.start.is_empty());
}

#[test]
fn a_fresh_name_skips_the_ones_taken() {
    let graph = MacroGraph {
        start: "n2".to_string(),
        nodes: waits(&["n2", "n3"]),
        edges: Vec::new(),
        sources: Vec::new(),
    };
    let node = new_node(&graph, "stop").expect("a node");
    assert_eq!(node.id, "n4");
    assert_eq!(node.kind, NodeKind::Stop);
    assert_eq!((node.x, node.y), (60, 170));
    assert_eq!(new_node(&graph, "flash").unwrap_err(), "flash is not a node this build runs");
}

#[test]
fn every_kind_of_node_reads_in_words() {
    assert_eq!(words(&NodeKind::Key { code: 30, hold: 30, mode: KeyMode::Tap }), "Press a");
    assert_eq!(words(&NodeKind::Key { code: 30, hold: 30, mode: KeyMode::Up }), "Release a");
    assert_eq!(words(&NodeKind::Wait { ms: 250 }), "Wait 250ms");
    assert_eq!(words(&NodeKind::Type { text: "hi".to_string(), per_key: 30 }), "Type \"hi\"");
    assert_eq!(words(&NodeKind::Type { text: "hi".to_string(), per_key: 5 }), "Type \"hi\", 5ms apart");
    assert_eq!(words(&NodeKind::Repeat { times: 3 }), "Repeat 3 times");
    assert_eq!(words(&NodeKind::Call { macro_id: 12 }), "Play macro 12");
    assert_eq!(words(&NodeKind::Run { spec: "file:/x".to_string() }), "Run file:/x");
    assert_eq!(words(&NodeKind::Stop), "Finish");
    assert_eq!(words(&NodeKind::If { when: Cond::Profile(1) }), "If profile 1 is active");
    let nested = Cond::Not(Box::new(Cond::All(vec![Cond::Profile(1)])));
    assert_eq!(words(&NodeKind::If { when: nested }), "If (a question only the file holds)");
    assert_eq!(ports_of_kind(&NodeKind::If { when: Cond::Profile(1) }), vec!["then", "else"]);
    assert_eq!(ports_of_kind(&NodeKind::Repeat { times: 2 }), vec!["body", "then"]);
    assert_eq!(ports_of_kind(&NodeKind::Stop), vec!["out"]);
    assert_eq!(describe_port("else"), "else (if no)");
    assert_eq!(describe_port("out"), "next");
    let copied = copy_cond(&Cond::Any(vec![Cond::Profile(1), Cond::Not(Box::new(Cond::Control("G1".to_string())))]));
    assert_eq!(copied, Cond::Any(vec![Cond::Profile(1), Cond::Not(Box::new(Cond::Control("G1".to_string())))]));
}

#[test]
fn a_number_field_is_held_to_what_the_format_takes() {
    let mut kind = NodeKind::Repeat { times: 2 };
    set_node_number(&mut kind, "times", 0);
    assert_eq!(node_number(&kind, "times"), Some(1));
    set_node_number(&mut kind, "times", 50_000);
    assert_eq!(node_number(&kind, "times"), Some(10_000));
    let mut key = NodeKind::Key { code: 30, hold: 30, mode: KeyMode::Tap };
    set_node_number(&mut key, "code", 70_000);
    set_node_number(&mut key, "hold", -5);
    assert_eq!(key, NodeKind::Key { code: 65_535, hold: 0, mode: KeyMode::Tap });
    set_node_number(&mut key, "ms", 10);
    assert_eq!(node_number(&key, "ms"), None);
    let mut call = NodeKind::Call { macro_id: 1 };
    set_node_number(&mut call, "macro", 5_000_000_000);
    assert_eq!(node_number(&call, "macro"), Some(u32::MAX));
}

#[test]
fn the_words_for_a_comparison_go_both_ways() {
    for op in [Compare::Eq, Compare::Ne, Compare::Lt, Compare::Le, Compare::Gt, Compare::Ge, Compare::Contains] {
        assert_eq!(op_from_text(op_words(op)), Some(op));
    }
    assert_eq!(op_from_text("=="), Some(Compare::Eq));
    assert_eq!(op_from_text("!="), Some(Compare::Ne));
    assert_eq!(op_from_text("about"), None);
    assert_eq!(describe_question(&Question::Control(String::new())), "fired by ...");
    assert_eq!(
        describe_question(&Question::Value {
            name: "song".to_string(),
            op: Compare::Contains,
            number: None,
            text: Some("live".to_string()),
        }),
        "song contains \"live\""
    );
}

#[test]
fn a_macro_file_is_known_by_its_number() {
    assert_eq!(macro_file_id("macro-200.properties"), Some(200));
    assert_eq!(macro_file_id("macro-+7.properties"), Some(7));
    assert_eq!(macro_file_id("macro-200.nodes.json"), None);
    assert_eq!(macro_file_id("macro-.properties"), None);
    assert_eq!(macro_file_id("macro-4294967296.properties"), None);
    assert_eq!(macro_file_id("profile-1.properties"), None);
    assert_eq!(parse_u32("4294967295"), Some(u32::MAX));
    assert_eq!(parse_u32("12a"), None);
    assert_eq!(parse_u32("+"), None);
}

fn row(id: u32, name: &str) -> MacroRow {
    MacroRow::new(id, name.to_string(), 0, Ok(None))
}

#[test]
fn the_list_is_in_order_and_callable_names_every_other_macro() {
    let rows = sort_rows(vec![row(5, "five"), row(2, ""), row(9, "nine"), row(2, "again")]);
    let ids: Vec<u32> = rows.iter().map(|r| r.id).collect();
    assert_eq!(ids, vec![2, 2, 5, 9]);
    assert!(rows[0].empty);
    let names = callable(&rows, 9);
    let listed: Vec<(u32, String)> = names.into_iter().collect();
    assert_eq!(listed, vec![(2, "again".to_string()), (5, "five".to_string())]);
    let unnamed = callable(&vec![row(3, "")], 0);
    assert_eq!(unnamed.get(&3).map(String::as_str), Some("(no name)"));
    let broken = MacroRow::new(4, "x".to_string(), 2, Err("bad graph".to_string()));
    assert_eq!((broken.nodes, broken.problem.as_deref(), broken.empty), (None, Some("bad graph"), false));
}

#[test]
fn a_playback_says_what_stopped_it() {
    let walked = vec!["n1".to_string()];
    let played = Played::of(walked.clone(), None, &strings(&["x is unknown", "y is unknown"]));
    assert_eq!(played.problem.as_deref(), Some("x is unknown; y is unknown"));
    let played = Played::of(walked.clone(), Some("no keyboard".to_string()), &strings(&["x"]));
    assert_eq!(played.problem.as_deref(), Some("no keyboard"));
    let played = Played::of(walked, None, &Vec::new());
    assert_eq!(played.problem, None);
    assert_eq!(join_all(&strings(&["a", "b", "c"]), ", "), "a, b, c");
}

#[test]
fn steps_are_added_moved_changed_and_taken_out_in_place() {
    let mut steps: Vec<MacroStep> = Vec::new();
    add_step(&mut steps, "press");
    add_step(&mut steps, "wait");
    add_step(&mut steps, "release");
    assert_eq!(steps, vec![MacroStep::KeyDown(30), MacroStep::Delay(50), MacroStep::KeyUp(30)]);

    assert!(move_step(&mut steps, 2, -1));
    assert_eq!(steps, vec![MacroStep::KeyDown(30), MacroStep::KeyUp(30), MacroStep::Delay(50)]);
    assert!(!move_step(&mut steps, 0, -1));
    assert!(!move_step(&mut steps, 2, 1));
    assert!(!move_step(&mut steps, 9, 1));

    assert!(set_step_key(&mut steps, 0, 44));
    assert!(!set_step_key(&mut steps, 2, 44));
    assert!(set_step_delay(&mut steps, 2, 120));
    assert!(!set_step_delay(&mut steps, 0, 120));
    assert_eq!(steps, vec![MacroStep::KeyDown(44), MacroStep::KeyUp(30), MacroStep::Delay(120)]);

    // a press turned into a release keeps its key, and a wait turned into a press takes `a`
    assert!(set_step_kind(&mut steps, 0, "release"));
    assert!(set_step_kind(&mut steps, 2, "press"));
    assert!(set_step_kind(&mut steps, 1, "wait"));
    assert_eq!(steps, vec![MacroStep::KeyUp(44), MacroStep::Delay(50), MacroStep::KeyDown(30)]);
    assert!(!set_step_kind(&mut steps, 3, "press"));

    assert!(remove_step(&mut steps, 1));
    assert!(!remove_step(&mut steps, 5));
    assert_eq!(steps, vec![MacroStep::KeyUp(44), MacroStep::KeyDown(30)]);
}

#[test]
fn a_new_box_is_joined_from_the_last_and_the_first_is_the_start() {
    let mut graph = empty_graph();
    assert_eq!(add_node(&mut graph, "key"), Ok(()));
    assert_eq!(graph.start, graph.nodes[0].id);
    assert!(graph.edges.is_empty());
    assert_eq!(add_node(&mut graph, "wait"), Ok(()));
    assert_eq!(graph.nodes.len(), 2);
    assert_eq!(port_target(&graph, &graph.nodes[0].id, "out"), Some(graph.nodes[1].id.clone()));
    assert_eq!(graph.start, graph.nodes[0].id);
    assert_eq!(
        add_node(&mut graph, "teleport"),
        Err("teleport is not a node this build runs".to_string())
    );
    assert_eq!(graph.nodes.len(), 2);
}

#[test]
fn a_box_is_changed_by_its_name_and_only_in_what_it_has() {
    let mut graph = empty_graph();
    add_node(&mut graph, "key").unwrap();
    add_node(&mut graph, "type").unwrap();
    add_node(&mut graph, "run").unwrap();
    add_node(&mut graph, "if").unwrap();
    let key = graph.nodes[0].id.clone();
    let typed = graph.nodes[1].id.clone();
    let run = graph.nodes[2].id.clone();
    let ask = graph.nodes[3].id.clone();

    set_node_key(&mut graph, &key, 44);
    set_node_mode(&mut graph, &key, KeyMode::Down);
    set_node_value(&mut graph, &key, "hold", 70_000);
    match graph.nodes[0].kind {
        NodeKind::Key { code, hold, mode } => {
            assert_eq!(code, 44);
            assert_eq!(mode, KeyMode::Down);
            assert_eq!(hold, 60_000);
        },
        ref other => panic!("{other:?}"),
    }
    // a key's code means nothing to a type box
    set_node_key(&mut graph, &typed, 44);
    set_node_text(&mut graph, &typed, Some("hello"));
    set_node_text(&mut graph, &typed, None);
    match &graph.nodes[1].kind {
        NodeKind::Type { text, .. } => assert_eq!(text, "hello"),
        other => panic!("{other:?}"),
    }
    assert_eq!(
        set_node_spec(&mut graph, &run, "   "),
        Some("a run box needs something to do, e.g. cmd:notify-send done".to_string())
    );
    assert_eq!(set_node_spec(&mut graph, &run, " cmd:notify-send done "), None);
    assert_eq!(graph.nodes[2].kind, NodeKind::Run { spec: "cmd:notify-send done".to_string() });
    set_node_condition(&mut graph, &ask, Cond::Profile(2));
    assert_eq!(graph.nodes[3].kind, NodeKind::If { when: Cond::Profile(2) });
    // no box by that name: nothing changes
    let before_ids: Vec<String> = graph.nodes.iter().map(|n| n.id.clone()).collect();
    set_node_key(&mut graph, "nothing", 1);
    let after_ids: Vec<String> = graph.nodes.iter().map(|n| n.id.clone()).collect();
    assert_eq!(before_ids, after_ids);
}

#[test]
fn a_macros_own_sources_come_first_among_the_names_it_can_ask_about() {
    let mut graph = empty_graph();
    add_source(&mut graph, "zeta", "cmd:z").unwrap();
    add_source(&mut graph, "cpu", "cmd:mine").unwrap();
    let names = Names::for_macro(&graph, &strings(&["cpu", "time"]));
    assert_eq!(names.mine, strings(&["cpu", "zeta"]));
    assert_eq!(names.all, strings(&["cpu", "zeta", "time"]));
    assert_eq!(names.first, "cpu");
}

#[test]
fn the_list_hides_the_empty_slots_until_they_are_asked_for() {

    let mut rows: Vec<MacroRow> = (0..190).map(|id| MacroRow::new(id, String::new(), 0, Ok(None))).collect();
    rows.push(MacroRow::new(200, "mine".to_string(), 4, Ok(None)));
    assert_eq!(empty_macro_count(&rows), 190);
    let drawn: Vec<String> = cards_shown(&rows, false).iter().map(|i| card_label(&rows[*i])).collect();
    let text = drawn.join(" | ");
    assert!(text.contains("200 mine"), "the macro that does something is missing: {text}");
    assert!(!text.contains("0 (empty)"), "the empty slots are in the list anyway: {text}");
    assert_eq!(drawn.iter().filter(|line| line.contains("(empty)")).count(), 0);
    let drawn: Vec<String> = cards_shown(&rows, true).iter().map(|i| card_label(&rows[*i])).collect();
    assert!(drawn.iter().any(|line| line.contains("0 (empty)")), "asking for the empty ones did not show them");
    assert_eq!(drawn.len(), 191);
    assert_eq!(card_label(&MacroRow::new(7, String::new(), 3, Ok(Some(4)))), "7 (no name) [4 nodes]");
}
