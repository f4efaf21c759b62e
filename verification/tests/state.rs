use g13_gui::json::{parse_json, Json};
use g13_gui::live::{split_words, stick_from, Live};
use g13_gui::macros::{Compare, Question};
use g13_gui::json::Numeral;
use g13_gui::state::bindings::{bound_label, keycode_of, normalise};
use g13_gui::state::bitmap::Bitmap;
use g13_gui::state::theme::{new_theme_problem, set_theme, set_theme_inner, theme_word, FRESH_THEME};
use g13_gui::state::widget::{
    applet_field, applet_flag, applet_follow_profile, applet_screen_titles, applet_source_names,
    add_source_for_widget, new_alert_question, put_widget_field, set_applet_flag, set_applet_follow, set_applet_number,
    set_applet_optional_text, set_applet_text, set_widget_alert_bitmap, set_widget_alert_look,
    set_widget_alert_when, set_widget_flag, set_widget_number, set_widget_optional_number,
    set_widget_optional_text, set_widget_text, widget_alert, widget_alert_bitmap, widget_alert_look,
};
use g13_gui::state::design::{
    add_applet_source, add_screen, add_widget, applet_sources, fresh_applet, move_widget, new_applet_problem,
    remove_applet_source, remove_screen, remove_widget, screen_count, screen_label, screen_title, set_applet_source,
    set_screen_title, widgets_of,
};
use g13_gui::state::menu::{
    add_menu_child, add_menu_item, menu_item, menu_rows, move_menu_item, put_menu_field, remove_menu_item,
    set_menu_does, set_menu_label, set_menu_screen, set_menu_value,
};
use g13_gui::state::{
    recorded, repaint_interval, repaint_millis, show, toggle_enabled, widget_fields_for, Driver, MenuDoes, Tab,
    CALIBRATION_NAMES,
};

fn json(text: &str) -> Json {
    parse_json(text).expect("JSON")
}

fn kinds(applet: &Json) -> Vec<String> {
    widgets_of(applet, 0)
        .unwrap_or_default()
        .iter()
        .map(|w| match w.get("type").and_then(|t| t.as_str()) {
            Some(t) => t.clone(),
            None => String::new(),
        })
        .collect()
}

const WIDGETS: &str = r#"{"name":"x","widgets":[
    {"type":"text","y":2,"format":"cpu {cpu}C"},
    {"type":"bar","x":0,"y":10,"w":80,"h":4,"source":"cpu","max":100},
    {"type":"arrow","x":20,"y":20,"r":12,"source":"wind"},
    {"type":"line","x":0,"y":30,"w":100}]}"#;

const DRAWN: [&str; 10] = ["text", "bar", "line", "list", "button", "bitmap", "segments", "brackets", "arrow", "gauge"];

#[test]
fn nothing_to_read_is_not_an_error() {
    let live = Live { values: Vec::new(), read_at: None, path: std::path::PathBuf::from("/nonexistent/g13-values.json") };
    assert!(live.stick().is_none());
    assert_eq!(live.text("profile"), "");
    assert!(live.age().is_none());
}

#[test]
fn the_stick_comes_back_as_the_two_bytes_it_was_given() {
    let mut live = Live::default();
    live.put("stick_raw".into(), "0x7b 0x34".into());
    assert_eq!(live.stick(), Some((0x7b, 0x34)));
    live.put("stick_raw".into(), String::new());
    assert_eq!(live.stick(), None);
}

#[test]
fn the_recent_keys_split_the_way_the_driver_writes_them() {
    let mut live = Live::default();
    live.put("recent_keys".into(), "G1- G2+ G1+".into());
    assert_eq!(live.recent_keys(), vec!["G1-", "G2+", "G1+"]);
}

#[test]
fn a_reading_keeps_its_texts_and_leaves_numbers_to_the_numbers() {
    let parsed = json(r#"{"profile":"2","cpu":41.5,"keys":[1],"stick_raw":"0x0x10  +ff","nothing":null}"#);
    let live = Live::from_value(&parsed, None, std::path::PathBuf::from("/tmp/values.json"));
    assert_eq!(live.text("profile"), "2");
    assert_eq!(live.text("cpu"), "");
    assert_eq!(live.text("keys"), "[1]");
    assert_eq!(live.text("nothing"), "null");
    assert_eq!(live.stick(), Some((0x10, 0xff)));
    assert_eq!(stick_from("0x100 0x01"), None);
    assert_eq!(stick_from("7b"), None);
    assert_eq!(split_words("  a  b\tc\n"), vec!["a", "b", "c"]);
}

#[test]
fn the_tab_with_the_sticks_reading_on_it_is_redrawn_sixty_times_a_second() {
    assert_eq!(repaint_interval(Tab::Bindings), std::time::Duration::from_millis(16));
    assert_eq!(repaint_interval(Tab::Applets), std::time::Duration::from_secs(1));
    assert_eq!(repaint_interval(Tab::Menu), std::time::Duration::from_secs(1));
    assert_eq!(repaint_millis(Tab::Macros), 1000);
}

#[test]
fn the_driver_state_says_which_it_is() {
    assert!(Driver::Stopped.sentence().contains("no driver is drawing"));
    assert!(Driver::Running(0).sentence().contains("a driver is drawing"));
    assert!(Driver::Starting.sentence().contains("starting"));
    assert_eq!(Driver::Running(12).sentence(), "a driver is drawing the pad (last updated 12s ago)");
}

#[test]
fn toggling_a_visual_off_then_on_returns_it() {
    let mut enabled = vec!["system".to_string()];
    toggle_enabled(&mut enabled, "system");
    assert!(!enabled.contains(&"system".to_string()));
    toggle_enabled(&mut enabled, "system");
    assert!(enabled.contains(&"system".to_string()));
    let mut walk = vec!["clock".to_string(), "pad".to_string()];
    toggle_enabled(&mut walk, "media");
    toggle_enabled(&mut walk, "media");
    assert_eq!(walk, vec!["clock".to_string(), "pad".to_string()]);
}

#[test]
fn a_reading_is_written_as_the_samples_file_writes_it() {
    assert_eq!(show((0x7b, 0x04)), "0x7b 0x04");
    assert_eq!(show((255, 0)), "0xff 0x00");
    assert_eq!(recorded("up", (1, 2), 0), "up recorded at 0x01 0x02: every point is taken");
    assert_eq!(recorded("up", (1, 2), 3), "up recorded at 0x01 0x02: 3 to go");
    assert_eq!(CALIBRATION_NAMES.len(), 9);
    assert_eq!(CALIBRATION_NAMES[0], "centre");
}

#[test]
fn the_first_widget_cannot_move_up_and_the_last_cannot_move_down() {
    let mut applet = json(WIDGETS);
    let before = kinds(&applet);
    assert!(!move_widget(&mut applet, 0, 0, true));
    assert_eq!(kinds(&applet), before);
    assert!(!move_widget(&mut applet, 0, 3, false));
    assert_eq!(kinds(&applet), before);
    assert!(!move_widget(&mut applet, 0, 99, true));
    assert_eq!(kinds(&applet), before);
}

#[test]
fn moving_a_widget_moves_it_and_leaves_every_key_of_it_alone() {
    let mut applet = json(WIDGETS);
    let unmoved = json(WIDGETS);
    assert!(move_widget(&mut applet, 0, 1, true));
    assert_eq!(kinds(&applet), vec!["bar", "text", "arrow", "line"]);
    assert!(move_widget(&mut applet, 0, 0, false));
    assert_eq!(applet, unmoved, "moving up and back down did not put it back");
    remove_widget(&mut applet, 0, 1);
    assert_eq!(kinds(&applet), vec!["text", "arrow", "line"]);
    remove_widget(&mut applet, 0, 7);
    assert_eq!(kinds(&applet), vec!["text", "arrow", "line"]);
}

#[test]
fn each_kind_of_widget_is_read_under_the_keys_the_reader_uses() {
    let keys = |kind: &str| -> Vec<&'static str> { widget_fields_for(kind, &DRAWN).iter().map(|f| f.0).collect() };
    assert_eq!(
        keys("text"),
        vec!["x", "y", "align", "format", "scroll_width", "scroll", "scroll_speed", "command", "animate"]
    );
    assert_eq!(keys("arrow"), vec!["x", "y", "r", "source", "command", "animate"], "an arrow's radius is `r`");
    assert!(keys("flash").is_empty());
}

#[test]
fn adding_a_widget_makes_one_that_lands_somewhere_visible() {
    let mut applet = json(WIDGETS);
    add_widget(&mut applet, 0, "bar", &DRAWN, 43).expect("a widget");
    let widgets = widgets_of(&applet, 0).unwrap();
    assert_eq!(widgets.len(), 5);
    assert_eq!(widgets[4], json(r#"{"type":"bar","x":3,"y":5,"w":100,"h":6,"max":100}"#));
    let problem = add_widget(&mut applet, 0, "flash", &DRAWN, 43).unwrap_err();
    assert_eq!(problem, "flash is not a widget this build draws");
}

#[test]
fn a_second_screen_keeps_what_the_applet_had_and_takes_the_edits() {
    let mut applet = json(WIDGETS);
    let unmoved = json(WIDGETS);
    assert_eq!(screen_count(&applet), 1);
    assert_eq!(add_screen(&mut applet), 1);
    assert_eq!(screen_count(&applet), 2);
    assert!(applet.get("widgets").is_none());
    assert_eq!(screen_title(&applet, 0), "screen 1");
    assert_eq!(kinds(&applet), vec!["text", "bar", "arrow", "line"]);
    assert!(widgets_of(&applet, 1).unwrap().is_empty());
    assert!(set_screen_title(&mut applet, 1, "  weather  "));
    assert_eq!(screen_label(&applet, 1), "weather");
    assert!(set_screen_title(&mut applet, 1, "   "));
    assert_eq!(screen_label(&applet, 1), "screen 2");
    assert!(!set_screen_title(&mut applet, 5, "x"));
    assert_eq!(remove_screen(&mut applet, 1), Some(0));
    assert_eq!(applet, unmoved, "removing the second screen did not give back the one-screen applet");
    assert_eq!(remove_screen(&mut applet, 0), None);
}

const MENU: &str = r#"{"items":[
    {"label":"Clock","show":"clock"},
    {"label":"Tools","items":[{"label":"Lock","command":"loginctl lock-session"},{"label":"Weather","show":"applet:weather","screen":2}]},
    {"label":"Say","command":"notify-send hi"}]}"#;

#[test]
fn the_menu_reads_as_rows_with_each_level_under_its_item() {
    let menu = json(MENU);
    let rows = menu_rows(Some(&menu));
    let seen: Vec<((usize, Option<usize>), String, MenuDoes, String, Option<usize>)> =
        rows.iter().map(|r| (r.at, r.label.clone(), r.does, r.value.clone(), r.screen)).collect();
    assert_eq!(
        seen,
        vec![
            ((0, None), "Clock".to_string(), MenuDoes::Screen, "clock".to_string(), None),
            ((1, None), "Tools".to_string(), MenuDoes::List, String::new(), None),
            ((1, Some(0)), "Lock".to_string(), MenuDoes::Command, "loginctl lock-session".to_string(), None),
            ((1, Some(1)), "Weather".to_string(), MenuDoes::Screen, "applet:weather".to_string(), Some(2)),
            ((2, None), "Say".to_string(), MenuDoes::Command, "notify-send hi".to_string(), None),
        ]
    );
    assert!(menu_rows(None).is_empty());
}

#[test]
fn an_item_added_in_the_window_is_in_the_menu() {
    let mut menu = json(MENU);
    assert!(add_menu_item(&mut menu, "   "));
    let rows = menu_rows(Some(&menu));
    let last = rows.last().unwrap();
    assert_eq!((last.at, last.label.as_str(), last.value.as_str()), ((3, None), "new item", "clock"));
    assert!(add_menu_item(&mut menu, " Games "));
    assert_eq!(menu_item(&menu, (4, None)).unwrap(), json(r#"{"label":"Games","show":"clock"}"#));
    let mut no_list = json(r#"{"title":"x"}"#);
    assert!(!add_menu_item(&mut no_list, "x"));
}

#[test]
fn choosing_what_an_item_does_leaves_it_doing_only_that() {
    let mut menu = json(MENU);
    assert!(set_menu_does(&mut menu, (0, None), MenuDoes::Command));
    assert_eq!(menu_item(&menu, (0, None)).unwrap(), json(r#"{"label":"Clock","command":""}"#));
    assert!(set_menu_does(&mut menu, (0, None), MenuDoes::Screen));
    assert_eq!(menu_item(&menu, (0, None)).unwrap(), json(r#"{"label":"Clock","show":"clock"}"#));
    assert!(set_menu_does(&mut menu, (2, None), MenuDoes::List));
    assert_eq!(
        menu_item(&menu, (2, None)).unwrap(),
        json(r#"{"label":"Say","items":[{"label":"new item","show":"clock"}]}"#)
    );
    assert!(set_menu_does(&mut menu, (1, Some(1)), MenuDoes::Command));
    assert_eq!(menu_item(&menu, (1, Some(1))).unwrap(), json(r#"{"label":"Weather","command":""}"#));
    assert!(!set_menu_does(&mut menu, (9, None), MenuDoes::List));
}

#[test]
fn editing_an_item_changes_that_field_only() {
    let mut menu = json(MENU);
    assert!(set_menu_label(&mut menu, (1, Some(0)), "  Lock it "));
    assert!(set_menu_value(&mut menu, (1, Some(1)), " applet:news "));
    assert!(set_menu_screen(&mut menu, (1, Some(1)), None));
    assert!(set_menu_value(&mut menu, (2, None), "notify-send bye"));
    assert!(set_menu_screen(&mut menu, (0, None), Some(3)));
    assert_eq!(menu_item(&menu, (1, Some(0))).unwrap(), json(r#"{"label":"Lock it","command":"loginctl lock-session"}"#));
    assert_eq!(menu_item(&menu, (1, Some(1))).unwrap(), json(r#"{"label":"Weather","show":"applet:news"}"#));
    assert_eq!(menu_item(&menu, (2, None)).unwrap(), json(r#"{"label":"Say","command":"notify-send bye"}"#));
    assert_eq!(menu_item(&menu, (0, None)).unwrap(), json(r#"{"label":"Clock","show":"clock","screen":3}"#));
    assert!(!put_menu_field(&mut menu, (1, Some(5)), "label", None));
}

#[test]
fn items_move_and_go_within_their_own_level() {
    let mut menu = json(MENU);
    let unmoved = json(MENU);
    assert!(move_menu_item(&mut menu, (2, None), true));
    assert!(move_menu_item(&mut menu, (1, None), false));
    assert_eq!(menu, unmoved, "moving up and back down did not put it back");
    assert!(move_menu_item(&mut menu, (1, Some(1)), true));
    assert_eq!(menu_item(&menu, (1, Some(0))).unwrap().get("label").unwrap(), &json(r#""Weather""#));
    assert!(!move_menu_item(&mut menu, (1, Some(9)), true));
    assert!(remove_menu_item(&mut menu, (1, Some(0))));
    assert!(menu_item(&menu, (1, Some(1))).is_none());
    assert!(remove_menu_item(&mut menu, (0, None)));
    assert_eq!(menu_rows(Some(&menu)).len(), 3);
    assert!(add_menu_child(&mut menu, 1));
    let say = menu_item(&menu, (1, None)).unwrap();
    assert_eq!(say, json(r#"{"label":"Say","items":[{"label":"new item","show":"clock"}]}"#));
}

const AN_APPLET: &str = r#"{
  "name": "x",
  "title": "X",
  "interval": 2,
  "sources": {"cpu": "cpu", "ram": "cmd:uptime"},
  "widgets": [
    {"type": "text", "x": 3, "y": 12, "format": "cpu {cpu}C"},
    {"type": "bar", "x": 3, "y": 30, "w": 100, "h": 6, "source": "ram", "max": 100}
  ]
}"#;

#[test]
fn a_source_is_added_removed_and_duplicates_refused() {
    let mut applet = json(AN_APPLET);
    assert_eq!(applet_sources(&applet).len(), 2);

    assert_eq!(add_applet_source(&mut applet, " disk ", " cmd:df -h / "), Ok(()));
    assert_eq!(applet_sources(&applet).len(), 3);
    assert!(applet_sources(&applet).iter().any(|(name, spec)| name == "disk" && spec == "cmd:df -h /"));

    let before = json(&g13_gui::json::to_compact(&applet));
    let refused = add_applet_source(&mut applet, "cpu", "cmd:rm -rf").unwrap_err();
    assert!(refused.contains("already has a source called cpu"), "{refused}");
    assert_eq!(applet, before);
    assert!(applet_sources(&applet).iter().any(|(name, spec)| name == "cpu" && spec == "cpu"));

    remove_applet_source(&mut applet, "ram");
    assert_eq!(applet_sources(&applet).len(), 2);
    assert!(applet.get("sources").unwrap().get("ram").is_none());
    assert!(applet.get("sources").unwrap().get("disk").is_some());
}

#[test]
fn a_source_needs_a_name_and_something_to_read() {
    let mut applet = json(AN_APPLET);
    assert_eq!(
        add_applet_source(&mut applet, "  ", "cpu"),
        Err("a source needs a name and something to read".to_string())
    );
    assert_eq!(
        add_applet_source(&mut applet, "disk", ""),
        Err("a source needs a name and something to read".to_string())
    );
    let mut odd = json(r#"{"name":"x","sources":[1]}"#);
    assert_eq!(
        add_applet_source(&mut odd, "disk", "cmd:df"),
        Err("this applet's `sources` is not an object, so nothing was added to it".to_string())
    );
    let mut bare = json(r#"{"name":"x"}"#);
    assert_eq!(add_applet_source(&mut bare, "disk", "cmd:df"), Ok(()));
    assert_eq!(bare, json(r#"{"name":"x","sources":{"disk":"cmd:df"}}"#));
}

#[test]
fn changing_a_source_keeps_its_place_and_a_missing_one_is_left_alone() {
    let mut applet = json(AN_APPLET);
    set_applet_source(&mut applet, "ram", "cmd:free");
    assert_eq!(
        applet_sources(&applet),
        vec![("cpu".to_string(), "cpu".to_string()), ("ram".to_string(), "cmd:free".to_string())]
    );
    let mut none = json(r#"{"name":"x"}"#);
    set_applet_source(&mut none, "ram", "cmd:free");
    assert_eq!(none, json(r#"{"name":"x"}"#));
    remove_applet_source(&mut none, "ram");
    assert_eq!(none, json(r#"{"name":"x"}"#));
}

#[test]
fn a_new_applet_needs_a_name_a_file_can_have() {
    assert_eq!(
        new_applet_problem("   "),
        Some("an applet needs a name: that name is what its file is called".to_string())
    );
    assert_eq!(
        new_applet_problem(" ../etc "),
        Some(
            "../etc has a \".\" in it, and an applet's name is its file's name: letters, digits, spaces, - and _ only"
                .to_string()
        )
    );
    assert_eq!(
        new_applet_problem("a/b"),
        Some("a/b has a \"/\" in it, and an applet's name is its file's name: letters, digits, spaces, - and _ only".to_string())
    );
    assert_eq!(new_applet_problem(" my temps_2-b "), None);
}

#[test]
fn a_new_applet_is_a_blank_screen_that_redraws_itself() {
    let fresh = fresh_applet("  temps ");
    assert_eq!(fresh, json(r#"{"name":"temps","title":"temps","interval":2,"sources":{},"widgets":[]}"#));
    assert_eq!(
        g13_gui::json::to_compact(&fresh),
        r#"{"interval":2,"name":"temps","sources":{},"title":"temps","widgets":[]}"#
    );
}

fn picture(rows: &[&str]) -> Vec<Vec<bool>> {
    rows.iter().map(|row| row.chars().map(|c| c == '#').collect()).collect()
}

#[test]
fn a_pixel_is_set_only_inside_the_frame() {
    let mut bitmap = Bitmap { frames: vec![picture(&["...", "..."])], frame: 0 };
    assert!(bitmap.set_pixel(2, 1, true));
    assert_eq!(bitmap.frames[0], picture(&["...", "..#"]));
    assert!(!bitmap.set_pixel(3, 0, true));
    assert!(!bitmap.set_pixel(0, 2, true));
    assert_eq!(bitmap.frames[0], picture(&["...", "..#"]));
    assert!(bitmap.set_pixel(2, 1, false));
    assert_eq!(bitmap.frames[0], picture(&["...", "..."]));
}

#[test]
fn a_frame_added_is_a_copy_drawn_on_next_and_taking_it_away_restores_the_frames() {
    let first = picture(&["#.", ".#"]);
    let second = picture(&["..", "##"]);
    let mut bitmap = Bitmap { frames: vec![first.clone(), second.clone()], frame: 0 };
    assert!(bitmap.add_frame());
    assert_eq!(bitmap.frame, 1);
    assert_eq!(bitmap.frames, vec![first.clone(), first.clone(), second.clone()]);
    assert!(bitmap.remove_frame());
    assert_eq!(bitmap.frames, vec![first.clone(), second.clone()]);
    assert_eq!(bitmap.frame, 1);

    bitmap.set_frame(5);
    assert_eq!(bitmap.frame, 1);
    bitmap.set_frame(4);
    assert_eq!(bitmap.frame, 0);

    let mut one = Bitmap { frames: vec![first.clone()], frame: 0 };
    assert!(!one.remove_frame());
    assert_eq!(one.frames, vec![first.clone()]);
    let mut none = Bitmap { frames: Vec::new(), frame: 0 };
    assert!(!none.add_frame());
    assert!(none.frames.is_empty());
}

#[test]
fn resizing_keeps_the_pixels_that_fit_and_holds_between_one_and_thirty_two() {
    let mut bitmap = Bitmap { frames: vec![picture(&["#.#", ".#."])], frame: 0 };
    bitmap.set_size(2, 3);
    assert_eq!(bitmap.frames[0], picture(&["#.", ".#", ".."]));
    bitmap.set_size(0, 40);
    assert_eq!(bitmap.frames[0].len(), 32);
    assert!(bitmap.frames[0].iter().all(|row| row.len() == 1));
    assert!(bitmap.frames[0][0][0]);
}

#[test]
fn a_widget_field_lands_on_that_widget_and_null_takes_it_away() {
    let mut applet = json(AN_APPLET);
    set_widget_optional_text(&mut applet, 0, 0, "command", Some("cmd:playerctl play-pause"));
    assert_eq!(
        widgets_of(&applet, 0).unwrap()[0].get("command"),
        Some(&Json::Str("cmd:playerctl play-pause".to_string()))
    );
    set_widget_optional_text(&mut applet, 0, 0, "command", None);
    assert!(widgets_of(&applet, 0).unwrap()[0].get("command").is_none());

    set_widget_flag(&mut applet, 0, 0, "scroll", false);
    set_widget_number(&mut applet, 0, 1, "max", Numeral::PosInt(250));
    set_widget_optional_number(&mut applet, 0, 0, "scroll_width", Some(Numeral::PosInt(22)));
    set_widget_text(&mut applet, 0, 1, "source", "cpu");
    let widgets = widgets_of(&applet, 0).unwrap();
    assert_eq!(widgets[0], json(r#"{"type":"text","x":3,"y":12,"format":"cpu {cpu}C","scroll":false,"scroll_width":22}"#));
    assert_eq!(widgets[1], json(r#"{"type":"bar","x":3,"y":30,"w":100,"h":6,"source":"cpu","max":250}"#));
    set_widget_optional_number(&mut applet, 0, 0, "scroll_width", None);
    put_widget_field(&mut applet, 0, 1, "h", Json::Null);
    let widgets = widgets_of(&applet, 0).unwrap();
    assert!(widgets[0].get("scroll_width").is_none());
    assert!(widgets[1].get("h").is_none());

    // no widget there, or a widget that is not an object: nothing changes
    let before = json(AN_APPLET);
    let mut same = json(AN_APPLET);
    set_widget_text(&mut same, 0, 7, "format", "x");
    assert_eq!(same, before);
    let mut odd = json(r#"{"widgets":[5]}"#);
    set_widget_flag(&mut odd, 0, 0, "scroll", true);
    assert_eq!(odd, json(r#"{"widgets":[5]}"#));
}

#[test]
fn a_widget_field_on_a_second_screen_lands_on_that_screen() {
    let mut applet = json(r#"{"name":"two","screens":[{"title":"one","widgets":[{"type":"text"}]},{"title":"two","widgets":[{"type":"bar"}]}]}"#);
    set_widget_text(&mut applet, 1, 0, "source", "ram");
    assert_eq!(
        applet,
        json(r#"{"name":"two","screens":[{"title":"one","widgets":[{"type":"text"}]},{"title":"two","widgets":[{"type":"bar","source":"ram"}]}]}"#)
    );
    assert_eq!(applet_screen_titles(&applet), vec!["one".to_string(), "two".to_string()]);
    assert!(applet_screen_titles(&json(AN_APPLET)).is_empty());
}

#[test]
fn an_alert_keeps_its_question_when_the_look_changes_and_goes_with_no_look() {
    let mut applet = json(AN_APPLET);
    assert_eq!(widget_alert_look(&applet, 0), "");
    assert!(widget_alert(&applet, 0).is_none());

    set_widget_alert_look(&mut applet, 0, 0, "flash");
    set_widget_alert_when(&mut applet, 0, 0, json(r#"{"value":"cpu","op":">","to":80}"#));
    assert_eq!(widget_alert_look(&applet, 0), "flash");
    assert_eq!(
        widget_alert(&applet, 0),
        Some(&json(r#"{"look":"flash","when":{"value":"cpu","op":">","to":80}}"#))
    );

    set_widget_alert_look(&mut applet, 0, 0, "border");
    assert_eq!(
        widget_alert(&applet, 0).unwrap().get("when"),
        Some(&json(r#"{"value":"cpu","op":">","to":80}"#)),
        "the question should survive the look changing"
    );

    set_widget_alert_bitmap(&mut applet, 0, 0, "skull");
    assert_eq!(widget_alert_bitmap(&applet, 0), "skull");
    set_widget_alert_bitmap(&mut applet, 0, 0, "");
    assert_eq!(widget_alert_bitmap(&applet, 0), "");
    assert_eq!(widget_alert_look(&applet, 0), "border");

    set_widget_alert_look(&mut applet, 0, 0, "");
    assert!(!g13_gui::json::to_compact(&applet).contains("\"alert\""));
    assert_eq!(widget_alert_look(&applet, 0), "");
}

#[test]
fn a_bitmap_for_an_alert_makes_the_alert_it_belongs_to() {
    let mut applet = json(r#"{"widgets":[{"type":"bitmap"}]}"#);
    set_widget_alert_bitmap(&mut applet, 0, 0, "");
    assert_eq!(applet, json(r#"{"widgets":[{"type":"bitmap","alert":{}}]}"#));
    let mut odd = json(r#"{"widgets":[{"type":"bitmap","alert":3}]}"#);
    set_widget_alert_look(&mut odd, 0, 0, "flash");
    assert_eq!(odd, json(r#"{"widgets":[{"type":"bitmap","alert":3}]}"#));
}

#[test]
fn a_new_alert_asks_about_a_value_never_a_control() {
    let applet = json(AN_APPLET);
    let fresh = new_alert_question(&applet, &vec!["time".to_string()]);
    assert!(fresh.all);
    assert_eq!(fresh.rows.len(), 1);
    assert!(!fresh.rows[0].not);
    assert_eq!(
        fresh.rows[0].question,
        Question::Value { name: "cpu".to_string(), op: Compare::Gt, number: Some("80".to_string()), text: None }
    );
    let parsed = json(r#"{"sources":{"zed":"a","beta":"b","gamma":1}}"#);
    let names = applet_source_names(&parsed);
    assert_eq!(names, vec![("beta".to_string(), "b".to_string()), ("zed".to_string(), "a".to_string())]);
    // built by hand in another order, the first by name is still the one asked about
    let unordered = Json::Object(vec![(
        "sources".to_string(),
        Json::Object(vec![
            ("zed".to_string(), Json::Str("a".to_string())),
            ("gamma".to_string(), Json::Number(Numeral::PosInt(1))),
            ("beta".to_string(), Json::Str("b".to_string())),
        ]),
    )]);
    assert_eq!(
        applet_source_names(&unordered),
        vec![("zed".to_string(), "a".to_string()), ("beta".to_string(), "b".to_string())]
    );
    match new_alert_question(&unordered, &Vec::new()).rows[0].question {
        Question::Value { ref name, .. } => assert_eq!(name, "beta"),
        ref other => panic!("{other:?}"),
    }
    let bare = json(r#"{"name":"x"}"#);
    match new_alert_question(&bare, &vec!["time".to_string(), "cpu".to_string()]).rows[0].question {
        Question::Value { ref name, .. } => assert_eq!(name, "time"),
        ref other => panic!("{other:?}"),
    }
    match new_alert_question(&bare, &Vec::new()).rows[0].question {
        Question::Value { ref name, .. } => assert_eq!(name, ""),
        ref other => panic!("{other:?}"),
    }
}

#[test]
fn the_applet_fields_read_and_write_as_the_file_has_them() {
    let mut applet = json(AN_APPLET);
    assert_eq!(applet_field(&applet, "title"), "X");
    assert_eq!(applet_field(&applet, "interval"), "2");
    assert_eq!(applet_field(&applet, "missing"), "");
    assert_eq!(applet_field(&applet, "sources"), r#"{"cpu":"cpu","ram":"cmd:uptime"}"#);
    assert!(!applet_flag(&applet, "border"));
    set_applet_flag(&mut applet, "border", true);
    assert!(applet_flag(&applet, "border"));
    set_applet_text(&mut applet, "title", "TEMPS");
    set_applet_number(&mut applet, "interval", Numeral::PosInt(5));
    assert_eq!(applet_field(&applet, "title"), "TEMPS");
    assert_eq!(applet.get("interval"), Some(&Json::Number(Numeral::PosInt(5))));
    set_applet_optional_text(&mut applet, "colour", Some("255,0,0"));
    assert_eq!(applet_field(&applet, "colour"), "255,0,0");
    set_applet_optional_text(&mut applet, "colour", None);
    assert!(applet.get("colour").is_none());
}

#[test]
fn the_row_writes_what_the_driver_reads() {
    let mut applet = json(r#"{"name":"game","widgets":[]}"#);
    assert_eq!(applet_follow_profile(&applet), None);
    set_applet_follow(&mut applet, Some(Numeral::PosInt(20)), Some("Cyberpunk"));
    assert_eq!(applet.get("follow"), Some(&json(r#"{"seconds":20,"profile":"Cyberpunk"}"#)));
    assert_eq!(
        g13_gui::json::to_compact(applet.get("follow").unwrap()),
        r#"{"profile":"Cyberpunk","seconds":20}"#
    );
    assert_eq!(applet_follow_profile(&applet), Some("Cyberpunk".to_string()));
    set_applet_follow(&mut applet, Some(Numeral::PosInt(5)), Some(""));
    assert_eq!(applet.get("follow"), Some(&json(r#"{"seconds":5}"#)));
    set_applet_follow(&mut applet, None, None);
    assert!(applet.get("follow").is_none(), "switching it off left something behind");
}

#[test]
fn a_theme_setting_is_written_or_taken_away_and_a_broken_theme_is_left_alone() {
    let mut theme = json(r#"{"frame":"none","scanline":40}"#);
    assert_eq!(set_theme(&mut theme, "frame", Json::text("brackets")), Ok(()));
    assert_eq!(theme_word(&theme, "frame"), "brackets");
    assert_eq!(set_theme(&mut theme, "scanline", Json::Null), Ok(()));
    assert_eq!(theme, json(r#"{"frame":"brackets"}"#));
    assert_eq!(theme_word(&theme, "scanline"), "");

    assert_eq!(set_theme_inner(&mut theme, "glitch", "every", Json::Number(Numeral::PosInt(6))), Ok(()));
    assert_eq!(set_theme_inner(&mut theme, "glitch", "shake", Json::Number(Numeral::PosInt(1))), Ok(()));
    assert_eq!(theme, json(r#"{"frame":"brackets","glitch":{"every":6,"shake":1}}"#));
    assert_eq!(set_theme_inner(&mut theme, "glitch", "every", Json::Null), Ok(()));
    assert_eq!(set_theme_inner(&mut theme, "glitch", "shake", Json::Null), Ok(()));
    assert_eq!(theme, json(r#"{"frame":"brackets","glitch":{}}"#));

    let mut broken = Json::Null;
    assert_eq!(
        set_theme(&mut broken, "frame", Json::text("none")),
        Err("this theme will not read, so nothing was written".to_string())
    );
    assert_eq!(
        set_theme_inner(&mut broken, "glitch", "every", Json::Null),
        Err("this theme will not read, so nothing was written".to_string())
    );
    assert_eq!(broken, Json::Null);
}

#[test]
fn a_new_theme_needs_a_name_its_file_can_have() {
    assert_eq!(new_theme_problem("  "), Some("a theme needs a name: it is also its file's name".to_string()));
    assert_eq!(
        new_theme_problem("neon/80s"),
        Some("a theme's name cannot have '/' in it: letters, digits, spaces, - and _ only".to_string())
    );
    assert_eq!(new_theme_problem(" café noir-2_b "), None);
    let fresh = json(FRESH_THEME);
    assert_eq!(fresh.get("scanline"), Some(&Json::Number(Numeral::PosInt(40))));
    assert_eq!(fresh.get("frame"), Some(&Json::text("none")));
}

#[test]
fn the_format_takes_the_name_and_the_applet_declares_it() {
    let mut applet = json(
        r#"{"name":"where","interval":2,"sources":{},"widgets":[
            {"type":"text","x":3,"y":3,"format":"at "},
            {"type":"bar","x":0,"y":20,"w":40,"h":5,"source":"","max":100}]}"#,
    );
    let spec = "http:weather/?format=j1#nearest_area.0.areaName.0.value";
    assert_eq!(add_source_for_widget(&mut applet, 0, 0, "place", spec), Ok(()));
    let sources = applet.get("sources").unwrap();
    assert_eq!(sources.get("place"), Some(&Json::text(spec)));
    let widgets = widgets_of(&applet, 0).unwrap();
    assert_eq!(widgets[0].get("format"), Some(&Json::text("at {place}")));
    assert!(widgets[0].get("source").is_none(), "a text widget was given a source field it does not have");

    assert_eq!(add_source_for_widget(&mut applet, 0, 1, "level", "cmd:echo 1"), Ok(()));
    let widgets = widgets_of(&applet, 0).unwrap();
    assert_eq!(widgets[1].get("source"), Some(&Json::text("level")));
    assert_eq!(applet.get("sources").unwrap().get("level"), Some(&Json::text("cmd:echo 1")));
}

#[test]
fn a_source_with_no_spec_leaves_the_widget_as_it_was() {
    let mut applet = json(r#"{"name":"where","interval":2,"sources":{},"widgets":[{"type":"text","x":3,"y":3,"format":"at "}]}"#);
    let before = json(r#"{"name":"where","interval":2,"sources":{},"widgets":[{"type":"text","x":3,"y":3,"format":"at "}]}"#);
    assert_eq!(
        add_source_for_widget(&mut applet, 0, 0, "place", ""),
        Err("a source needs a name and something to read".to_string())
    );
    assert_eq!(applet, before);
}

#[test]
fn adding_a_resource_from_a_widget_writes_the_source_and_takes_it_into_the_field() {
    let mut applet = json(
        r#"{"name":"temps","interval":2,"sources":{},
            "widgets":[{"type":"bar","x":0,"y":0,"w":40,"h":5,"source":"","max":100}]}"#,
    );
    assert_eq!(add_applet_source(&mut applet, "gputemp", "cmd:cat /sys/class/hwmon/hwmon1/temp1_input"), Ok(()));
    set_widget_text(&mut applet, 0, 0, "source", "gputemp");
    assert_eq!(
        applet.get("sources").unwrap().get("gputemp"),
        Some(&Json::text("cmd:cat /sys/class/hwmon/hwmon1/temp1_input"))
    );
    let widgets = widgets_of(&applet, 0).unwrap();
    assert_eq!(widgets[0].get("source"), Some(&Json::text("gputemp")));
    let reads = g13_gui::state::values::widget_reads(&widgets[0], &Vec::new(), &applet_sources(&applet));
    assert!(reads.iter().any(|read| read.name == "gputemp" && read.origin == g13_gui::state::Origin::Declared));
}

#[test]
fn a_name_already_declared_is_still_taken_into_the_widget() {
    let mut applet = json(AN_APPLET);
    let refused = add_source_for_widget(&mut applet, 0, 1, "cpu", "cmd:other").unwrap_err();
    assert!(refused.contains("already has a source called cpu"));
    assert_eq!(applet.get("sources").unwrap().get("cpu"), Some(&Json::text("cpu")));
    assert_eq!(widgets_of(&applet, 0).unwrap()[1].get("source"), Some(&Json::text("cpu")));
}

#[test]
fn the_next_calibration_point_is_the_first_not_taken() {
    let taken = |names: &[&str]| names.iter().map(|n| n.to_string()).collect::<Vec<String>>();
    assert_eq!(g13_gui::state::screen::next_calibration_point(&taken(&[])), Some(0));
    assert_eq!(g13_gui::state::screen::next_calibration_point(&taken(&["centre", "down"])), Some(1));
    let all: Vec<&str> = CALIBRATION_NAMES.to_vec();
    assert_eq!(g13_gui::state::screen::next_calibration_point(&taken(&all)), None);
    assert_eq!(g13_gui::state::screen::CALIBRATION_POINTS[1], ("up", "hold it fully up"));
}

#[test]
fn the_visuals_offered_are_the_pads_own_then_each_applet_in_order() {
    let stems = vec!["weather".to_string(), "audio".to_string()];
    let offered = g13_gui::state::screen::visuals_offered(&stems);
    assert_eq!(offered, vec!["clock", "system", "pad", "media", "applet:audio", "applet:weather"]);
    assert_eq!(g13_gui::state::screen::visual_name_for(&offered, "weather"), Some("applet:weather".to_string()));
    assert_eq!(g13_gui::state::screen::visual_name_for(&offered, "clock"), Some("clock".to_string()));
    assert_eq!(g13_gui::state::screen::visual_name_for(&offered, "nothing"), None);

    let mut enabled = vec!["clock".to_string()];
    g13_gui::state::screen::select_visual(&mut enabled, "applet:audio");
    g13_gui::state::screen::select_visual(&mut enabled, "clock");
    assert_eq!(enabled, vec!["clock".to_string(), "applet:audio".to_string()]);
}

fn macro_row(id: u32, name: &str) -> g13_gui::macros::MacroRow {
    g13_gui::macros::MacroRow::new(id, name.to_string(), 1, Ok(None))
}

#[test]
fn a_binding_is_read_back_the_way_a_person_says_it() {
    let macros = vec![macro_row(7, ""), macro_row(200, "Reload"), macro_row(200, "Other")];
    assert_eq!(bound_label("  ", None, &macros), "(unbound)");
    assert_eq!(keycode_of(" p,k.16 "), Some(16));
    assert_eq!(bound_label(" p,k.16 ", Some("q"), &macros), "q");
    assert_eq!(bound_label("p,k.16", None, &macros), "keycode 16");
    assert_eq!(keycode_of("p,k.70000"), None);
    assert_eq!(bound_label("p,k.70000", None, &macros), "p,k.70000");
    assert_eq!(bound_label("m,200,1", None, &macros), "Reload");
    assert_eq!(bound_label("m,7", None, &macros), "macro 7");
    assert_eq!(bound_label("m,8,1", None, &macros), "macro 8");
    assert_eq!(bound_label("m,x", None, &macros), "m,x");
    assert_eq!(bound_label("x", None, &macros), "nothing");
    assert_eq!(bound_label("mb,left", None, &macros), "mb,left");
}

#[test]
fn typing_becomes_what_the_file_holds_once_the_map_and_the_keyboard_have_said_what_it_is() {
    assert_eq!(normalise("  w  ", false, Some(17)), "p,k.17");
    assert_eq!(normalise("p,k.30", true, None), "p,k.30");
    assert_eq!(normalise("m,1,2", true, None), "m,1,2");
    assert_eq!(normalise("", false, None), "x");
    assert_eq!(normalise("   ", true, Some(3)), "x");
    assert_eq!(normalise(" bogus ", false, None), "bogus");
}

#[test]
fn a_picture_no_file_has_is_an_eight_by_eight_blank() {
    let blank = Bitmap::blank();
    assert_eq!(blank.frame, 0);
    assert_eq!(blank.frames, vec![vec![vec![false; 8]; 8]]);
    assert_eq!(blank.size(), (8, 8));
    let wide = Bitmap { frames: vec![picture(&["#..", "..."])], frame: 0 };
    assert_eq!(wide.size(), (3, 2));
    assert_eq!(Bitmap { frames: Vec::new(), frame: 0 }.size(), (0, 0));
    assert_eq!(
        g13_gui::state::bitmap::bitmap_name_check("  "),
        Some("a bitmap needs a name: it is what a widget asks for".to_string())
    );
    assert_eq!(g13_gui::state::bitmap::bitmap_name_check("skull"), None);
}

#[test]
fn a_preview_that_moves_is_redrawn_at_the_drivers_rate_and_the_stick_keeps_its_own() {
    assert_eq!(g13_gui::state::screen::repaint_interval_for(Tab::Applets, false), std::time::Duration::from_secs(1));
    assert_eq!(g13_gui::state::screen::repaint_interval_for(Tab::Applets, true), std::time::Duration::from_millis(50));
    assert_eq!(g13_gui::state::screen::repaint_interval_for(Tab::Bindings, true), std::time::Duration::from_millis(16));
    assert_eq!(g13_gui::macros::graph::mode_name(g13_gui::macros::KeyMode::Down), "hold down");
}

#[test]
fn a_new_set_is_numbered_after_the_highest() {
    assert_eq!(g13_gui::state::bindings::next_profile(&vec![0, 3, 1]), 4);
    assert_eq!(g13_gui::state::bindings::next_profile(&Vec::new()), 1);
    assert_eq!(g13_gui::state::bindings::next_profile(&vec![0]), 1);
}

#[test]
fn the_state_files_age_says_whether_a_driver_runs() {
    let of = g13_gui::state::screen::driver_from_age;
    assert_eq!(of(None), Driver::Running(0));
    assert_eq!(of(Some(1_400_000_000)), Driver::Running(1));
    assert_eq!(of(Some(1_500_000_000)), Driver::Running(2));
    assert_eq!(of(Some(2_500_000_000)), Driver::Running(2));
    assert_eq!(of(Some(2_500_400_000)), Driver::Running(3));
    assert_eq!(of(Some(2_500_000_001)), Driver::Running(3));
    assert_eq!(of(Some(4_999_000_000)), Driver::Running(5));
    assert_eq!(of(Some(4_999_999_999)), Driver::Running(5));
    assert_eq!(of(Some(5_000_000_000)), Driver::Stopped);
    let parts = |list: &[&str]| list.iter().map(|p| p.to_string()).collect::<Vec<String>>();
    assert!(g13_gui::state::screen::is_driver_command(&parts(&["/usr/bin/g13", "run"])));
    assert!(!g13_gui::state::screen::is_driver_command(&parts(&["/usr/bin/g13"])));
    assert!(!g13_gui::state::screen::is_driver_command(&parts(&["/usr/bin/g13", "gui"])));
    assert!(!g13_gui::state::screen::is_driver_command(&parts(&["/usr/bin/g14", "run"])));
    assert_eq!(g13_gui::state::screen::stopped(0), Err("no driver process was found".to_string()));
    assert_eq!(g13_gui::state::screen::stopped(2), Ok("asked 2 driver process(es) to stop".to_string()));
}

#[test]
fn the_walk_is_written_as_the_driver_reads_it() {
    let enabled = vec!["clock".to_string(), "applet:weather".to_string()];
    let text = g13_gui::state::screen::visuals_text(&enabled, "clock", true, "8");
    assert_eq!(
        text,
        "{\n  \"enabled\": [\"clock\", \"applet:weather\"],\n  \"active\": \"clock\",\n  \"cycle\": true,\n  \"cycle_seconds\": 8\n}\n"
    );
    let parsed = json(&text);
    assert_eq!(parsed.get("active"), Some(&Json::text("clock")));
    assert_eq!(
        g13_gui::state::screen::visuals_text(&Vec::new(), "pad", false, "2.5"),
        "{\n  \"enabled\": [],\n  \"active\": \"pad\",\n  \"cycle\": false,\n  \"cycle_seconds\": 2.5\n}\n"
    );
}

#[test]
fn a_name_put_into_a_format_is_declared_when_nothing_declares_it() {
    let mut applet = json(AN_APPLET);
    assert_eq!(g13_gui::state::widget::insert_name(&mut applet, 0, 0, "cpu {cpu}C ", "time"), Ok(()));
    assert_eq!(widgets_of(&applet, 0).unwrap()[0].get("format"), Some(&Json::text("cpu {cpu}C {time}")));
    assert_eq!(applet.get("sources").unwrap().get("time"), Some(&Json::text("time")));
    // a name it declares already is not declared again
    assert_eq!(g13_gui::state::widget::insert_name(&mut applet, 0, 0, "", "ram"), Ok(()));
    assert_eq!(applet.get("sources").unwrap().get("ram"), Some(&Json::text("cmd:uptime")));
    assert_eq!(widgets_of(&applet, 0).unwrap()[0].get("format"), Some(&Json::text("{ram}")));
}

#[test]
fn a_source_added_and_removed_leaves_the_applet_as_it_was() {
    let before = json(AN_APPLET);
    let mut applet = json(AN_APPLET);
    assert_eq!(add_applet_source(&mut applet, " disk ", "cmd:df"), Ok(()));
    remove_applet_source(&mut applet, "disk");
    assert_eq!(applet, before);
}

const FOUR_WIDGETS: &str = r#"{
  "name": "x", "title": "X", "interval": 2,
  "sources": {"cpu": "cpu", "ram": "cmd:uptime"},
  "widgets": [
    {"type": "text", "x": 3, "y": 12, "align": "left", "format": "cpu {cpu}C"},
    {"type": "bar", "x": 3, "y": 30, "w": 100, "h": 6, "source": "ram", "max": 100},
    {"type": "arrow", "x": 60, "y": 20, "r": 12, "source": "cpu"},
    {"type": "something-new", "x": 1, "y": 2, "whatever": "kept"}
  ]
}"#;

#[test]
fn editing_one_widget_field_keeps_every_other_key_of_that_widget_and_of_the_others() {
    let mut applet = json(FOUR_WIDGETS);
    set_widget_number(&mut applet, 0, 1, "w", Numeral::PosInt(64));
    let widgets = widgets_of(&applet, 0).unwrap();
    assert_eq!(widgets[1].get("w"), Some(&Json::Number(Numeral::PosInt(64))));
    assert_eq!(widgets[1].get("h"), Some(&Json::Number(Numeral::PosInt(6))), "the rest of the widget");
    assert_eq!(widgets[1].get("source"), Some(&Json::text("ram")));
    assert_eq!(widgets[1].get("max"), Some(&Json::Number(Numeral::PosInt(100))));
    assert_eq!(widgets[0].get("format"), Some(&Json::text("cpu {cpu}C")), "another widget entirely");
    assert_eq!(applet.get("sources").unwrap().get("cpu"), Some(&Json::text("cpu")), "and the sources");
}

#[test]
fn a_field_that_may_be_left_out_can_be_taken_out_and_put_back() {
    let mut applet = json(FOUR_WIDGETS);
    assert!(widgets_of(&applet, 0).unwrap()[0].get("scroll_width").is_none());
    set_widget_optional_number(&mut applet, 0, 0, "scroll_width", Some(Numeral::PosInt(80)));
    assert_eq!(
        widgets_of(&applet, 0).unwrap()[0].get("scroll_width"),
        Some(&Json::Number(Numeral::PosInt(80)))
    );
    set_widget_optional_number(&mut applet, 0, 0, "x", None);
    assert!(
        widgets_of(&applet, 0).unwrap()[0].get("x").is_none(),
        "taking a field out should remove it, not write a null"
    );
}

#[test]
fn every_value_a_widget_reads_says_where_it_comes_from() {
    let reads = g13_gui::state::values::widget_reads;
    let named = |list: Vec<g13_gui::state::ValueRead>| -> Vec<(String, g13_gui::state::Origin)> {
        list.into_iter().map(|read| (read.name, read.origin)).collect()
    };
    let format_names = |list: &[&str]| list.iter().map(|n| n.to_string()).collect::<Vec<String>>();
    let mine = json(
        r#"{"name":"mine","title":"MINE","interval":1,"border":true,
            "sources":{"mine":"cmd:uptime"},
            "widgets":[
                {"type":"text","x":3,"y":2,"format":"cpu {cpu} of {mine} and {nothing}"},
                {"type":"bar","x":3,"y":12,"w":10,"h":5,"source":"gpu","max":100}]}"#,
    );
    let sources = applet_sources(&mine);
    let widgets = widgets_of(&mine, 0).unwrap();
    assert_eq!(
        named(reads(&widgets[0], &format_names(&["cpu", "mine", "nothing"]), &sources)),
        vec![
            ("cpu".to_string(), g13_gui::state::Origin::Missing),
            ("mine".to_string(), g13_gui::state::Origin::Declared),
            ("nothing".to_string(), g13_gui::state::Origin::Missing),
        ]
    );
    assert_eq!(
        named(reads(&widgets[1], &Vec::new(), &sources)),
        vec![("gpu".to_string(), g13_gui::state::Origin::Missing)]
    );
    let temps = json(
        r#"{"name":"temps","title":"TEMPS","interval":2,"border":true,
            "sources":{"cpu":"cmd:cat /sys/class/hwmon/hwmon0/temp1_input"},
            "widgets":[{"type":"text","x":3,"y":2,"format":"{cpu}C"}]}"#,
    );
    let widgets = widgets_of(&temps, 0).unwrap();
    assert_eq!(
        named(reads(&widgets[0], &format_names(&["cpu"]), &applet_sources(&temps))),
        vec![("cpu".to_string(), g13_gui::state::Origin::Declared)]
    );
    let stats = json(
        r#"{"name":"stats","title":"STATS","interval":1,"border":true,
            "sources":{"cpu":"cmd:echo 11","memory":"cmd:echo 42"},
            "widgets":[{"type":"text","x":3,"y":2,"format":"{cpu:.0f}% {memory:.0f}%"}]}"#,
    );
    let widgets = widgets_of(&stats, 0).unwrap();
    assert_eq!(
        named(reads(&widgets[0], &format_names(&["cpu", "memory"]), &applet_sources(&stats))),
        vec![
            ("cpu".to_string(), g13_gui::state::Origin::Declared),
            ("memory".to_string(), g13_gui::state::Origin::Declared),
        ]
    );
}

#[test]
fn removing_a_widget_removes_that_one_and_leaves_the_rest_in_order() {
    let mut applet = json(FOUR_WIDGETS);
    remove_widget(&mut applet, 0, 1);
    assert_eq!(kinds(&applet), vec!["text", "arrow", "something-new"]);
}

#[test]
fn the_visuals_offered_are_the_built_ins_and_the_applets_that_exist() {
    let offered = g13_gui::state::screen::visuals_offered(&vec!["weather".to_string(), "gpu".to_string()]);
    for built_in in ["clock", "system", "pad", "media"] {
        assert!(offered.contains(&built_in.to_string()), "{built_in} is missing");
    }
    for applet in ["applet:gpu", "applet:weather"] {
        assert!(offered.contains(&applet.to_string()), "{applet} is not offered: {offered:?}");
    }
}

#[test]
fn a_screen_that_was_built_in_keeps_its_bare_name_and_an_applet_is_prefixed() {
    let offered = g13_gui::state::screen::visuals_offered(&vec!["clock".to_string(), "weather".to_string()]);
    assert_eq!(g13_gui::state::screen::visual_name_for(&offered, "clock").as_deref(), Some("clock"));
    assert_eq!(g13_gui::state::screen::visual_name_for(&offered, "weather").as_deref(), Some("applet:weather"));
    assert_eq!(
        g13_gui::state::screen::visual_name_for(&offered, "nothing-here"),
        None,
        "an applet that does not exist must not be tickable"
    );
}

#[test]
fn writing_the_stick_says_what_it_now_does() {
    let say = g13_gui::state::screen::stick_mode_sentence;
    assert_eq!(say(g13_gui::state::screen::StickMode::Off, 0, 8, 0), "the stick does nothing");
    assert_eq!(
        say(g13_gui::state::screen::StickMode::Keyboard, 0, 8, 0),
        "the stick sends nothing: none of its 8 sectors is bound"
    );
    assert_eq!(
        say(g13_gui::state::screen::StickMode::Keyboard, 3, 8, 0),
        "the stick now drives 3 of its 8 sectors"
    );
    assert_eq!(
        say(g13_gui::state::screen::StickMode::Mouse, 0, 8, 800),
        "the stick moves the pointer at 800 pixels a second"
    );
    assert_eq!(
        say(g13_gui::state::screen::StickMode::Joystick, 0, 8, 0),
        "the stick is a gamepad's analogue stick"
    );
    assert_eq!(g13_gui::state::screen::route_sentence("left", "a", true), "left now goes to a");
    assert_eq!(
        g13_gui::state::screen::route_sentence("left", "mouse x", false),
        "left now goes to mouse x - the stick is split between targets now"
    );
    assert_eq!(g13_gui::state::screen::sectors_sentence(4), "the stick is now read as 4 sectors");
}

const KEYED_APPLET: &str = r#"{
  "name": "x",
  "title": "X",
  "interval": 2,
  "border": true,
  "colour": "255,0,0",
  "follow": "a key this build does not act on",
  "sources": {"cpu": "cpu", "ram": "cmd:uptime"},
  "widgets": [
    {"type": "text", "x": 3, "y": 12, "format": "cpu {cpu}C"},
    {"type": "bar", "x": 3, "y": 30, "w": 100, "h": 6, "source": "ram", "max": 100}
  ]
}"#;

#[test]
fn editing_an_applet_keeps_every_key_it_already_had() {
    let mut applet = json(KEYED_APPLET);
    set_applet_text(&mut applet, "title", "TEMPS");
    assert_eq!(applet.get("title"), Some(&Json::text("TEMPS")), "the change");
    assert_eq!(applet.get("colour"), Some(&Json::text("255,0,0")), "a key this build ignores");
    assert_eq!(applet.get("follow"), Some(&Json::text("a key this build does not act on")));
    assert_eq!(applet.get("interval"), Some(&Json::Number(Numeral::PosInt(2))));
    assert_eq!(applet.get("sources").unwrap().get("cpu"), Some(&Json::text("cpu")));
    assert_eq!(applet.get("sources").unwrap().get("ram"), Some(&Json::text("cmd:uptime")));
    let widgets = widgets_of(&applet, 0).unwrap();
    assert_eq!(widgets[0].get("format"), Some(&Json::text("cpu {cpu}C")));
    assert_eq!(widgets[1].get("max"), Some(&Json::Number(Numeral::PosInt(100))));
    set_applet_number(&mut applet, "interval", Numeral::PosInt(5));
    assert_eq!(applet.get("interval"), Some(&Json::Number(Numeral::PosInt(5))));
}

#[test]
fn a_widget_type_this_build_does_not_draw_is_kept_exactly_as_it_is() {
    let mut applet = json(FOUR_WIDGETS);
    assert!(g13_gui::state::widget_fields_of_kind("something-new").is_empty());
    set_widget_text(&mut applet, 0, 0, "format", "changed");
    let widgets = widgets_of(&applet, 0).unwrap();
    assert_eq!(widgets[3], json(r#"{"type": "something-new", "x": 1, "y": 2, "whatever": "kept"}"#));
}

#[test]
fn a_second_screen_added_and_taken_away_gives_back_the_applet() {
    let before = json(KEYED_APPLET);
    let mut applet = json(KEYED_APPLET);
    assert_eq!(add_screen(&mut applet), 1);
    assert_eq!(remove_screen(&mut applet, 1), Some(0));
    assert_eq!(applet, before);
}

#[test]
fn the_stick_reads_back_what_show_writes() {
    for pair in [(0x00, 0xff), (0x7b, 0x34), (0x0a, 0xa0)] {
        let mut live = Live::default();
        live.put("stick_raw".into(), g13_gui::state::screen::show(pair));
        assert_eq!(live.stick(), Some(pair));
    }
}

#[test]
fn normalising_twice_changes_nothing_written() {
    let once = normalise("  w  ", false, Some(17));
    assert_eq!(normalise(&once, true, None), once);
    let once = normalise("   ", false, None);
    assert_eq!(normalise(&once, true, None), once);
    let once = normalise(" bogus\u{3000}", false, None);
    assert_eq!(once, "bogus");
    assert_eq!(normalise(&once, false, None), once);
}

#[test]
fn a_key_name_an_action_and_nothing_are_normalised_as_the_driver_reads_them() {
    // "a" is not an action and is the key with code 30; "mk,3" and "x" are actions as written
    assert_eq!(normalise("a", false, Some(30)), "p,k.30");
    assert_eq!(normalise("mk,3", true, None), "mk,3");
    assert_eq!(normalise("x", true, None), "x");
}
