use g13_gui::bundle::compare::compare;
use g13_gui::bundle::{
    a_free_name, assemble, bare_names, bundle_from_value, endpoints_used, fonts_named, merge_values, name_is_free,
    names, parse, parts_to_write, rename_applet, show, to_json, widget_count, Bundle, KIND, VERSION,
};
use g13_gui::json::{parse_json, Json};

fn bundle_json(text: &str) -> Json {
    parse_json(text).expect("JSON")
}

const GAME: &str = r#"{"name":"game","title":"GAME","theme":"cyberpunk-2077","font":"runes",
    "sources":{"health":"http:stats/x#health","place":"where"},
    "widgets":[{"type":"text","x":3,"y":2,"format":"{health} {place}"}]}"#;

/// The applet with everything it needs, packed as a machine that has all of it would pack it.
fn game_bundle() -> Bundle {
    let fonts = vec![("runes".to_string(), bundle_json(r#"{"name":"runes","size":8}"#))];
    let theme = Some(("cyberpunk-2077".to_string(), bundle_json(r##"{"name": "cyberpunk-2077", "ink": "#00f0ff"}"##)));
    let declared = bundle_json(r#"{"stats":{"url":"https://from.example","token":"ghp_from_the_other_machine"}}"#);
    let own = bundle_json(r#"{"where":"http:weather/x#place"}"#);
    let visuals = bundle_json(r#"{"enabled":["clock","applet:game"],"active":"clock"}"#);
    assemble(
        "game",
        bundle_json(GAME),
        Some(bundle_json(r##"{"heart": {"rows": ["#.#", ".#."]}}"##)),
        &fonts,
        theme,
        &declared,
        &own,
        Some(&visuals),
    )
}

fn plain_bundle(applet: &str) -> Bundle {
    assemble("plain", bundle_json(applet), None, &Vec::new(), None, &bundle_json("{}"), &bundle_json("{}"), None)
}

#[test]
fn the_file_says_what_it_is() {
    let written = to_json(&plain_bundle(r#"{"name":"plain","widgets":[]}"#));
    let parsed: serde_json::Value = serde_json::from_str(&written).unwrap();
    assert_eq!(parsed["kind"], KIND);
    assert_eq!(parsed["version"], VERSION);
    assert_eq!(parsed["name"], "plain");
    assert!(parsed["applet"].is_object(), "the applet itself is missing");
}

#[test]
fn the_bundle_survives_the_round_trip_through_the_file() {
    let bundle = game_bundle();
    let read_back = parse(&to_json(&bundle)).unwrap();
    assert_eq!(read_back, bundle, "the file does not read back as what was written");
}

#[test]
fn a_file_that_is_not_an_applet_is_refused() {
    let plain = r#"{"hello":"world"}"#;
    let problem = parse(plain).unwrap_err();
    assert!(problem.contains("not an applet file"), "{problem}");

    let newer = r#"{"kind":"g13-applet","version":99,"name":"x","applet":{}}"#;
    let problem = parse(newer).unwrap_err();
    assert!(problem.contains("newer version"), "{problem}");

    let no_applet = r#"{"kind":"g13-applet","version":1,"name":"x"}"#;
    let problem = parse(no_applet).unwrap_err();
    assert!(problem.contains("no applet"), "{problem}");

    let unnamed = r#"{"kind":"g13-applet","version":1,"applet":{}}"#;
    let problem = parse(unnamed).unwrap_err();
    assert!(problem.contains("which applet"), "{problem}");
}

#[test]
fn everything_the_applet_needs_is_packed_with_it() {
    let bundle = game_bundle();
    assert_eq!(bundle.name, "game");
    assert!(bundle.pictures.is_some());
    assert_eq!(bundle.fonts.len(), 1);
    assert_eq!(bundle.fonts[0].0, "runes");
    assert_eq!(bundle.theme.as_ref().map(|(name, _)| name.as_str()), Some("cyberpunk-2077"));
    assert_eq!(bundle.endpoints.len(), 1);
    assert_eq!(bundle.endpoints[0].0, "stats");
    assert_eq!(bundle.values.len(), 1);
    assert_eq!(bundle.values[0].0, "where");
    assert!(bundle.on_the_pad);
}

#[test]
fn a_token_is_left_behind_and_only_what_is_used_travels() {
    let declared = bundle_json(
        r#"{"stats":{"url":"https://example.invalid","token":"ghp_notarealtokenatall"},
            "unused":{"url":"https://elsewhere.invalid","token":"also-secret"}}"#,
    );
    let bundle = assemble("game", bundle_json(GAME), None, &Vec::new(), None, &declared, &bundle_json("{}"), None);
    let written = to_json(&bundle);
    assert!(!written.contains("ghp_"), "a token was written into the bundle");
    assert!(!written.contains("also-secret"), "an endpoint it does not use was written");
    assert!(written.contains("\"token\": \"\""), "the token slot should be there and empty");
    assert!(!bundle.on_the_pad);
    assert!(bundle.values.is_empty());
}

#[test]
fn a_plain_applet_is_a_small_file() {
    let bundle = plain_bundle(r#"{"name":"plain","widgets":[{"type":"text","x":0,"y":0,"format":"hi"}]}"#);
    assert!(bundle.pictures.is_none());
    assert!(bundle.fonts.is_empty() && bundle.endpoints.is_empty() && bundle.values.is_empty());
    let written = to_json(&bundle);
    for absent in ["pictures", "fonts", "theme", "endpoints", "values"] {
        assert!(!written.contains(&format!("\"{absent}\"")), "{absent} is written empty instead of left out");
    }
}

#[test]
fn what_an_applet_reads_and_names_is_found() {
    let applet = bundle_json(
        r#"{"font":"runes","fallbacks":["greek","runes",3,"cyrillic"],
            "sources":{"a":"http:stats/x","b":"http:/nothing","c":"http:stats/y","d":"where","e":"cmd:ls","f":"my_value"}}"#,
    );
    assert_eq!(endpoints_used(&applet), vec!["stats".to_string()]);
    assert_eq!(bare_names(&applet), vec!["where".to_string(), "my_value".to_string()]);
    assert_eq!(fonts_named(&applet), vec!["runes".to_string(), "greek".to_string(), "cyrillic".to_string()]);
    assert_eq!(widget_count(&bundle_json(r#"{"screens":[{"widgets":[1,2]},{"title":"x"},{"widgets":[3]}]}"#)), 3);
    assert_eq!(widget_count(&bundle_json(r#"{"widgets":[1,2,3,4]}"#)), 4);
    assert_eq!(widget_count(&bundle_json(r#"{}"#)), 0);
    assert_eq!(names(Some(&bundle_json(r#"{"b":1,"a":2}"#))), vec!["a".to_string(), "b".to_string()]);
    assert!(names(Some(&bundle_json("[1]"))).is_empty());
    assert_eq!(show(&bundle_json(r#""hi""#)), "\"hi\"");
    assert_eq!(show(&bundle_json("null")), "nothing");
    assert_eq!(show(&bundle_json("[1,2]")), "[1,2]");
}

#[test]
fn a_name_you_already_have_is_listed_rather_than_written_over() {
    let bundle = game_bundle();
    let mine = bundle_json(
        r#"{"name":"game","title":"MINE","sources":{"health":"http:stats/x#health"},
            "widgets":[{"type":"text","x":0,"y":0,"format":"mine"},
                       {"type":"text","x":0,"y":9,"format":"and this one"}]}"#,
    );
    let have_pictures = bundle_json(r##"{"heart": {"rows": ["#.#", ".#."]}}"##);
    let visuals = bundle_json(r#"{"enabled":["clock","applet:game"],"active":"clock"}"#);
    let lines = compare(
        Some(&mine),
        &bundle,
        Some(&have_pictures),
        &vec!["runes".to_string()],
        true,
        &vec!["stats".to_string()],
        Some(&bundle_json(r#"{"where":"http:weather/x#place"}"#)),
        Some(&visuals),
    );
    let said: Vec<String> = lines.iter().map(|(what, _, _)| what.clone()).collect();
    for expected in ["title", "theme", "widgets", "sources"] {
        assert!(said.contains(&expected.to_string()), "{expected} is not listed: {said:?}");
    }
    let sources = lines.iter().find(|(what, _, _)| what == "sources").unwrap();
    assert!(sources.2.contains("+place"), "a source it would add is not shown: {sources:?}");
    assert_eq!(sources.1, "1 in yours");
    let title = lines.iter().find(|(what, _, _)| what == "title").unwrap();
    assert_eq!((title.1.as_str(), title.2.as_str()), ("\"MINE\"", "\"GAME\""));
    assert!(!said.contains(&"pictures".to_string()), "{said:?}");
    assert!(!said.contains(&"on the pad".to_string()), "{said:?}");
}

#[test]
fn an_applet_you_do_not_have_is_new() {
    let bundle = game_bundle();
    let lines = compare(None, &bundle, None, &Vec::new(), false, &Vec::new(), None, None);
    assert_eq!(
        lines,
        vec![
            ("applet".to_string(), "you do not have one called this".to_string(), "new".to_string()),
            ("pictures".to_string(), "0 in yours".to_string(), "+1 ~0 -0".to_string()),
            ("font".to_string(), "not here".to_string(), "runes".to_string()),
            ("theme".to_string(), "not here".to_string(), "cyberpunk-2077".to_string()),
            ("endpoint".to_string(), "not here".to_string(), "stats (its token slot travels empty)".to_string()),
            ("value of yours".to_string(), "not here".to_string(), "where".to_string()),
            ("on the pad".to_string(), "no".to_string(), "yes".to_string()),
        ]
    );
}

#[test]
fn a_copy_takes_the_next_free_name() {
    let mut here = vec!["game.json".to_string(), "game.bitmaps.json".to_string()];
    assert!(!name_is_free(&here, "game"));
    assert!(name_is_free(&here, "nowhere"));
    assert_eq!(a_free_name(&here, "game"), "game-2");

    here.push("game-2.json".to_string());
    assert_eq!(a_free_name(&here, "game"), "game-3");
}

#[test]
fn a_free_name_skips_every_taken_number() {
    let nothing: Vec<String> = Vec::new();
    assert!(name_is_free(&nothing, "game"));
    assert_eq!(a_free_name(&nothing, "game"), "game-2");

    let mut here: Vec<String> = (2..=11).map(|n| format!("game-{n}.json")).collect();
    here.push("game-13.json".to_string());
    assert_eq!(a_free_name(&here, "game"), "game-12");
    assert!(name_is_free(&here, "game"));
    assert!(!name_is_free(&here, "game-13"));
}

#[test]
fn a_copy_is_renamed_and_what_you_have_wins() {

    let renamed = rename_applet(&bundle_json(r#"{"name":"game","title":"G"}"#), "game-2");
    assert_eq!(renamed, bundle_json(r#"{"name":"game-2","title":"G"}"#));
    let untouched = rename_applet(&bundle_json(r#"{"title":"G"}"#), "game-2");
    assert_eq!(untouched, bundle_json(r#"{"title":"G"}"#));

    let own = bundle_json(r#"{"where":"mine"}"#);
    let incoming = vec![("where".to_string(), bundle_json(r#""theirs""#)), ("what".to_string(), bundle_json(r#""new""#))];
    let (merged, added) = merge_values(Some(&own), &incoming);
    assert_eq!(added, vec!["what".to_string()]);
    assert_eq!(Json::Object(merged), bundle_json(r#"{"what":"new","where":"mine"}"#));
}

#[test]
fn a_bundle_value_reads_back() {
    let bundle = game_bundle();
    let value = bundle_json(&to_json(&bundle));
    assert_eq!(bundle_from_value(&value).unwrap(), bundle);
}

/// The applet that uses every part there is, packed from a configuration that holds every part it needs.
fn everything() -> Bundle {
    let fonts = vec![("runes".to_string(), bundle_json(r#"{"name":"runes","size":8}"#))];
    let theme = Some(("cyberpunk-2077".to_string(), bundle_json(r##"{"name": "cyberpunk-2077", "ink": "#00f0ff"}"##)));
    let declared = bundle_json(
        r#"{"stats":{"url":"https://example.invalid","token":"ghp_notarealtokenatall"},
            "unused":{"url":"https://elsewhere.invalid","token":"also-secret"}}"#,
    );
    let own = bundle_json(r#"{"where":"http:weather/x#place"}"#);
    let visuals = bundle_json(r#"{"enabled":["clock","applet:game"],"active":"clock"}"#);
    assemble(
        "game",
        bundle_json(GAME),
        Some(bundle_json(r##"{"heart": {"rows": ["#.#", ".#."]}}"##)),
        &fonts,
        theme,
        &declared,
        &own,
        Some(&visuals),
    )
}

#[test]
fn everything_it_needs_comes_with_it() {
    let bundle = everything();
    assert_eq!(bundle.name, "game");
    assert!(bundle.pictures.is_some(), "its pictures did not come");
    assert_eq!(bundle.fonts.len(), 1, "the font it names did not come");
    assert!(bundle.fonts.iter().any(|(name, _)| name == "runes"));
    assert_eq!(
        bundle.theme.as_ref().map(|(name, _)| name.as_str()),
        Some("cyberpunk-2077"),
        "the theme it wears did not come"
    );
    assert_eq!(bundle.endpoints.len(), 1, "it should carry only what it uses");
    assert!(bundle.endpoints.iter().any(|(name, _)| name == "stats"));
    assert_eq!(bundle.values.len(), 1, "the value it reads did not come");
    assert!(bundle.values.iter().any(|(name, _)| name == "where"));
    assert!(bundle.on_the_pad, "the pad walks to it and the bundle says not");
}

#[test]
fn a_token_never_travels() {
    let written = to_json(&everything());
    assert!(!written.contains("ghp_"), "a token was written into the bundle");
    assert!(!written.contains("also-secret"), "an endpoint it does not even use was written into the bundle");
    assert!(
        written.contains("\"token\": \"\""),
        "the token slot should be there and empty, so the importing machine knows to fill it in"
    );
}

#[test]
fn a_font_or_theme_you_have_is_kept_as_it_is() {
    let fonts = vec![
        ("runes".to_string(), bundle_json(r#"{"size":8}"#)),
        ("pixel".to_string(), bundle_json(r#"{"size":5}"#)),
    ];
    let here = vec!["runes".to_string()];
    let (written, notes) = parts_to_write(&fonts, &here, "font");
    assert_eq!(written, vec![("pixel".to_string(), bundle_json(r#"{"size":5}"#))]);
    assert_eq!(notes, vec!["font runes kept, you already have one".to_string(), "font pixel".to_string()]);

    let theme = vec![("dark".to_string(), bundle_json(r#"{"ink":"white"}"#))];
    let (written, notes) = parts_to_write(&theme, &Vec::new(), "theme");
    assert_eq!(written, theme);
    assert_eq!(notes, vec!["theme dark".to_string()]);
}

#[test]
fn a_bundle_file_reads_back_as_the_bundle() {
    let bundle = game_bundle();
    let text = to_json(&bundle);
    assert!(text.ends_with('\n'));
    assert_eq!(parse(&text).unwrap(), bundle);
}
