use ranger::board::{
    anchors_named, board_counts, board_move, column_classes, empty_column_text, key_parts, truncate_desc, BoardMoveError, DropAnchors,
};
use ranger::models::State;

#[test]
fn truncate_keeps_a_short_first_line() {
    assert_eq!(truncate_desc("short", 80), "short");
    assert_eq!(truncate_desc("first\nsecond", 80), "first");
    assert_eq!(truncate_desc("first\r\nsecond", 80), "first");
    assert_eq!(truncate_desc("", 80), "");
}

#[test]
fn truncate_cuts_a_long_first_line() {
    assert_eq!(truncate_desc("abcdefghij", 4), "abcd…");
    assert_eq!(truncate_desc("abcd", 4), "abcd");
}

#[test]
fn key_parts_split_at_unique_prefix() {
    assert_eq!(key_parts("romoqtuwxyz", Some(2)), ("ro".to_string(), "moqtuw".to_string()));
    assert_eq!(key_parts("romoqtuwxyz", None), ("romoqtuw".to_string(), "".to_string()));
    assert_eq!(key_parts("rom", Some(2)), ("ro".to_string(), "m".to_string()));
}

#[test]
fn board_move_with_state_and_neighbours() {
    let m = board_move(Some("done"), true, true).ok().unwrap();
    assert_eq!(m.new_state, Some(State::Done));
    assert_eq!(m.anchors, DropAnchors::Between);
    let m = board_move(Some("icebox"), false, false).ok().unwrap();
    assert_eq!(m.new_state, Some(State::Icebox));
    assert_eq!(m.anchors, DropAnchors::Unplaced);
}

#[test]
fn board_move_into_the_ready_column() {
    let m = board_move(Some("ready"), false, true).ok().unwrap();
    assert_eq!(m.new_state, Some(State::Queued));
    assert_eq!(m.anchors, DropAnchors::After);
}

#[test]
fn board_move_reorder_needs_a_neighbour() {
    let m = board_move(None, true, false).ok().unwrap();
    assert_eq!(m.new_state, None);
    assert_eq!(m.anchors, DropAnchors::Before);
    let m = board_move(None, false, true).ok().unwrap();
    assert_eq!(m.anchors, DropAnchors::After);
    match board_move(None, false, false) {
        Err(e) => {
            assert!(matches!(e, BoardMoveError::NoAnchor));
            assert_eq!(e.message(), "before or after is required when not changing state");
        }
        Ok(_) => panic!("a reorder without neighbours must be refused"),
    }
}

#[test]
fn board_move_rejects_unknown_state() {
    match board_move(Some("bogus"), true, false) {
        Err(e) => assert_eq!(e.message(), "invalid state: 'bogus'"),
        Ok(_) => panic!("unknown state must be refused"),
    }
}

#[test]
fn board_counts_add_up() {
    assert_eq!(board_counts(1, 2, 3, 4), (3, 10));
}

#[test]
fn column_classes_mark_drop_zones() {
    assert_eq!(column_classes("state-icebox", Some("icebox")), "state-icebox drop-zone");
    assert_eq!(column_classes("state-done", None), "state-done");
}

#[test]
fn empty_column_text_lowercases_label() {
    assert_eq!(empty_column_text("Icebox"), "No icebox tasks");
    assert_eq!(empty_column_text("Done"), "No done tasks");
}

#[test]
fn anchors_named_by_neighbours() {
    assert_eq!(anchors_named(true, true), DropAnchors::Between);
    assert_eq!(anchors_named(true, false), DropAnchors::Before);
    assert_eq!(anchors_named(false, true), DropAnchors::After);
    assert_eq!(anchors_named(false, false), DropAnchors::Unplaced);
}
