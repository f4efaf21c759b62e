use g13_gui::json::{parse_json, Json};
use g13_gui::state::values::{
    add_custom_value, applet_uses, applet_wants, custom_value_rows, endpoint_use, new_endpoint, set_custom_value,
    used_by, widget_reads,
};
use g13_gui::state::{Origin, ValueRead};

fn value_json(text: &str) -> Json {
    parse_json(text).expect("JSON")
}

fn s(text: &str) -> String {
    text.to_string()
}

fn names(list: &[&str]) -> Vec<String> {
    list.iter().map(|n| n.to_string()).collect()
}

fn pairs(list: &[(&str, &str)]) -> Vec<(String, String)> {
    list.iter().map(|(a, b)| (a.to_string(), b.to_string())).collect()
}

#[test]
fn adding_one_refuses_a_published_name_and_a_user_name_that_is_already_there() {
    let published = names(&["cpu", "ram", "time"]);
    let mut values: Vec<(String, String)> = Vec::new();
    assert_eq!(add_custom_value(&mut values, &published, "where", "cmd:echo upstairs"), Ok(()));
    assert_eq!(values, pairs(&[("where", "cmd:echo upstairs")]));

    let refused = add_custom_value(&mut values, &published, "cpu", "cmd:echo 1").unwrap_err();
    assert!(refused.contains("already publishes"), "{refused}");
    let again = add_custom_value(&mut values, &published, "where", "cmd:echo nowhere").unwrap_err();
    assert!(again.contains("already a value"), "{again}");
    let odd = add_custom_value(&mut values, &published, "two words", "cmd:echo 1").unwrap_err();
    assert!(odd.contains("cannot be a name"), "{odd}");
    assert_eq!(values, pairs(&[("where", "cmd:echo upstairs")]));

    // it is read by the applet that names it, so the row says so
    let wants = applet_wants(&pairs(&[("spot", "where")]), &names(&["spot"]));
    let uses = applet_uses(&vec![(s("where"), wants)]);
    let rows = custom_value_rows(&values, &uses);
    assert_eq!(rows.len(), 1);
    assert!(rows[0].mine);
    assert_eq!(rows[0].name, "where");
    assert_eq!(rows[0].meaning, "cmd:echo upstairs");
    assert_eq!(rows[0].used_by, vec![s("where")]);

    // taking it out again is an empty spec
    assert!(set_custom_value(&mut values, "where", ""));
    assert!(values.is_empty());
}

#[test]
fn each_refusal_of_a_new_value_says_why() {
    let published = names(&["cpu"]);
    let mut values = pairs(&[("b", "cmd:b")]);
    assert_eq!(add_custom_value(&mut values, &published, "   ", "x"), Err(s("a value needs a name")));
    assert_eq!(
        add_custom_value(&mut values, &published, "a.b", "x"),
        Err(s("`a.b` cannot be a name: letters, digits, `_` and `-` only"))
    );
    assert_eq!(
        add_custom_value(&mut values, &published, " cpu ", "x"),
        Err(s("`cpu` is a name this build already publishes - call yours something else"))
    );
    assert_eq!(
        add_custom_value(&mut values, &published, "b", "x"),
        Err(s("there is already a value called `b`"))
    );
    assert_eq!(add_custom_value(&mut values, &published, " a-1_x ", "  cmd:a  "), Ok(()));
    assert_eq!(add_custom_value(&mut values, &published, "c", ""), Ok(()));
    assert_eq!(values, pairs(&[("a-1_x", "cmd:a"), ("b", "cmd:b"), ("c", "")]));
}

#[test]
fn setting_a_value_replaces_it_in_place_and_an_empty_name_writes_nothing() {
    let mut values = pairs(&[("a", "1"), ("c", "3")]);
    assert!(set_custom_value(&mut values, " b ", " 2 "));
    assert!(set_custom_value(&mut values, "c", "three"));
    assert_eq!(values, pairs(&[("a", "1"), ("b", "2"), ("c", "three")]));
    assert!(!set_custom_value(&mut values, "  ", "x"));
    assert!(set_custom_value(&mut values, "zzz", "   "));
    assert_eq!(values.len(), 3);
}

#[test]
fn a_widget_reads_its_format_names_then_its_source_each_said_where_it_comes_from() {
    let sources = pairs(&[("cpu", "cpu")]);
    let bar = value_json(r#"{"type":"bar","source":" ram "}"#);
    assert_eq!(
        widget_reads(&bar, &Vec::new(), &sources),
        vec![ValueRead { name: s("ram"), origin: Origin::Missing }]
    );
    let text = value_json(r#"{"type":"text","format":"{cpu} {cpu} {x}","source":"cpu"}"#);
    assert_eq!(
        widget_reads(&text, &names(&["cpu", "cpu", "x"]), &sources),
        vec![
            ValueRead { name: s("cpu"), origin: Origin::Declared },
            ValueRead { name: s("cpu"), origin: Origin::Declared },
            ValueRead { name: s("x"), origin: Origin::Missing },
        ]
    );
    let blank = value_json(r#"{"type":"bar","source":"  "}"#);
    assert!(widget_reads(&blank, &Vec::new(), &sources).is_empty());
}

#[test]
fn what_an_applet_asks_for_includes_what_its_sources_point_at() {
    let sources = pairs(&[("cpu", "cpu"), ("here", " spot "), ("up", "cmd:uptime"), ("empty", "  ")]);
    assert_eq!(
        applet_wants(&sources, &names(&["cpu", "temp", "temp"])),
        names(&["cpu", "here", "up", "empty", "spot", "temp"])
    );
}

#[test]
fn who_reads_what_is_in_name_order_with_each_reader_once() {
    let uses = applet_uses(&vec![
        (s("b"), names(&["x", "cpu", "x"])),
        (s("a"), names(&["cpu"])),
        (s("b"), names(&["cpu"])),
    ]);
    assert_eq!(
        uses,
        vec![(s("cpu"), names(&["b", "a"])), (s("x"), names(&["b"]))]
    );
    assert_eq!(used_by(&uses, "cpu"), names(&["b", "a"]));
    assert!(used_by(&uses, "nothing").is_empty());
}

#[test]
fn an_endpoint_nobody_has_is_told_apart_from_one_in_use() {
    let known = names(&["github", "weather"]);
    let (used, missing) = endpoint_use(
        &vec![
            (s("zeta"), names(&["github", "gitlab"])),
            (s("alpha"), names(&["github", "github"])),
        ],
        &known,
    );
    assert_eq!(used, vec![(s("github"), names(&["alpha", "zeta"]))]);
    assert_eq!(missing, vec![(s("gitlab"), names(&["zeta"]))]);
}

#[test]
fn a_duplicate_endpoint_name_is_refused_rather_than_overwritten() {
    let known = names(&["github"]);
    assert_eq!(
        new_endpoint(&known, "github", "https://somewhere.else"),
        Err(s("there is already an endpoint called github"))
    );
    assert_eq!(new_endpoint(&known, " ", "https://x"), Err(s("an endpoint needs a name and a url")));
    assert_eq!(new_endpoint(&known, "weather", ""), Err(s("an endpoint needs a name and a url")));
    assert_eq!(
        new_endpoint(&known, " weather ", " http://wttr.in "),
        Ok((s("weather"), s("http://wttr.in")))
    );
}

#[test]
fn a_value_added_and_taken_out_again_leaves_the_values_as_they_were() {
    let published = names(&["cpu"]);
    let before = pairs(&[("a", "1"), ("c", "3")]);
    let mut values = before.clone();
    assert_eq!(add_custom_value(&mut values, &published, " b ", "cmd:two"), Ok(()));
    assert_ne!(values, before);
    assert!(set_custom_value(&mut values, "b", ""));
    assert_eq!(values, before);
}
