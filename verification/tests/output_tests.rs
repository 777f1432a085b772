use ranger::key::unique_prefix_lengths;
use ranger::models::State;
use ranger::output::{
    auto_color, empty_list_note, state_label, tag_suffix, task_line, confirm_answer, confirm_without_prompt, format_key, format_key_from_map,
    format_key_with, format_tag, init_color, ColorChoice, Confirm, DISPLAY_LEN,
};

#[test]
fn color_choice_resolves() {
    assert!(init_color(ColorChoice::Always, false));
    assert!(!init_color(ColorChoice::Never, true));
    assert!(init_color(ColorChoice::Auto, true));
    assert!(!init_color(ColorChoice::Auto, false));
    assert_eq!(ColorChoice::default(), ColorChoice::Auto);
}

#[test]
fn color_choice_parses_its_spellings() {
    assert_eq!(ColorChoice::parse("auto").unwrap(), ColorChoice::Auto);
    assert_eq!(ColorChoice::parse("always").unwrap(), ColorChoice::Always);
    assert_eq!(ColorChoice::parse("never").unwrap(), ColorChoice::Never);
    assert_eq!(
        ColorChoice::parse("sometimes").unwrap_err(),
        "invalid value 'sometimes' for '--color <WHEN>' [possible values: auto, always, never]"
    );
}

#[test]
fn confirm_before_prompting() {
    assert_eq!(confirm_without_prompt(true, false), Some(Confirm::Yes));
    assert_eq!(confirm_without_prompt(false, false), Some(Confirm::NeedsFlag));
    assert_eq!(confirm_without_prompt(false, true), None);
}

#[test]
fn confirm_answers() {
    assert_eq!(confirm_answer("y\n"), Confirm::Yes);
    assert_eq!(confirm_answer("  YES \n"), Confirm::Yes);
    assert_eq!(confirm_answer("Yes"), Confirm::Yes);
    assert_eq!(confirm_answer("n\n"), Confirm::No);
    assert_eq!(confirm_answer(""), Confirm::No);
    assert_eq!(confirm_answer("yess"), Confirm::No);
}

#[test]
fn format_key_plain_shows_display_len() {
    assert_eq!(DISPLAY_LEN, 8);
    assert_eq!(format_key("romoqtuwxyz", 2, false), "romoqtuw");
    assert_eq!(format_key("rom", 2, false), "rom");
}

#[test]
fn format_key_colored_splits_at_prefix() {
    assert_eq!(format_key("romoqtuwxyz", 2, true), "\x1b[1mro\x1b[0m\x1b[2mmoqtuw\x1b[0m");
    assert_eq!(format_key("rom", 5, true), "\x1b[1mrom\x1b[0m\x1b[2m\x1b[0m");
}

#[test]
fn format_key_from_map_falls_back_to_display_len() {
    let map = unique_prefix_lengths(&["romoqtuw".to_string(), "romxnklp".to_string()]);
    assert_eq!(format_key_from_map("romoqtuw", &map, true), "\x1b[1mromo\x1b[0m\x1b[2mqtuw\x1b[0m");
    assert_eq!(format_key_from_map("romoqtuw", &map, false), "romoqtuw");
    assert_eq!(format_key_from_map("kkkkllll", &map, true), "\x1b[1mkkkkllll\x1b[0m\x1b[2m\x1b[0m");
}

#[test]
fn format_tag_marks_with_hash() {
    assert_eq!(format_tag("urgent", false), "#urgent");
    assert_eq!(format_tag("urgent", true), "\x1b[36m#urgent\x1b[0m");
}

#[test]
fn tag_suffix_lists_tags_after_a_space() {
    assert_eq!(tag_suffix(&[], false), "");
    assert_eq!(tag_suffix(&["bug".to_string(), "ui".to_string()], false), " #bug #ui");
    assert_eq!(tag_suffix(&["bug".to_string()], true), " \x1b[36m#bug\x1b[0m");
}

#[test]
fn task_line_shows_key_state_and_title() {
    assert_eq!(task_line("romo", State::InProgress, "Fix it"), "romo [in_progress] Fix it");
}

#[test]
fn auto_color_follows_no_color_term_and_terminal() {
    assert!(auto_color(None, None, true));
    assert!(!auto_color(None, None, false));
    assert!(!auto_color(Some("1"), None, true));
    assert!(auto_color(Some(""), Some("xterm-256color"), true));
    assert!(!auto_color(None, Some("dumb"), true));
    assert!(!auto_color(Some(""), Some("dumb"), true));
}

#[test]
fn format_key_with_known_or_missing_prefix() {
    assert_eq!(format_key_with("romoqtuwxy", Some(3), false), "romoqtuw");
    assert_eq!(format_key_with("romoqtuwxy", Some(3), true), "\x1b[1mrom\x1b[0m\x1b[2moqtuw\x1b[0m");
    assert_eq!(format_key_with("romoqtuwxy", None, true), "\x1b[1mromoqtuw\x1b[0m\x1b[2m\x1b[0m");
    assert_eq!(format_key_with("romoqtuwxy", None, true), format_key("romoqtuwxy", DISPLAY_LEN, true));
}

#[test]
fn empty_list_notes_name_the_filters() {
    assert_eq!(empty_list_note(None, None, Some("Empty")), "No tasks in backlog 'Empty'.");
    assert_eq!(empty_list_note(Some(State::Queued), None, Some("Empty")), "No ready tasks in backlog 'Empty'.");
    assert_eq!(empty_list_note(Some(State::InProgress), None, Some("Empty")), "No in-progress tasks in backlog 'Empty'.");
    assert_eq!(empty_list_note(None, Some("bug"), Some("Empty")), "No tasks tagged #bug in backlog 'Empty'.");
    assert_eq!(
        empty_list_note(Some(State::Queued), Some("bug"), Some("Empty")),
        "No ready tasks tagged #bug in backlog 'Empty'."
    );
    assert_eq!(empty_list_note(None, None, None), "No tasks.");
    assert_eq!(state_label(State::Icebox), "icebox");
    assert_eq!(state_label(State::Done), "done");
}

#[test]
fn confirm_answer_trims_unicode_whitespace() {
    assert_eq!(confirm_answer("\u{3000}yes\u{a0}\n"), Confirm::Yes);
    assert_eq!(confirm_answer("\t Y \r\n"), Confirm::Yes);
    assert_eq!(confirm_answer("y e s"), Confirm::No);
}
