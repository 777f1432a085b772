use ranger::error::RangerError;
use ranger::models::{EdgeType, State, TaskOrdering};

#[test]
fn state_roundtrips_through_display_and_parse() {
    for (state, expected) in [
        (State::Icebox, "icebox"),
        (State::Queued, "queued"),
        (State::InProgress, "in_progress"),
        (State::Done, "done"),
    ] {
        assert_eq!(state.as_str(), expected);
        assert_eq!(state.to_string(), expected);
        let parsed: State = expected.parse().unwrap();
        assert_eq!(parsed.as_str(), expected);
    }
}

#[test]
fn edge_type_roundtrips_through_display_and_parse() {
    for (edge_type, expected) in [(EdgeType::Blocks, "blocks"), (EdgeType::Before, "before")] {
        assert_eq!(edge_type.as_str(), expected);
        assert_eq!(edge_type.to_string(), expected);
        let parsed: EdgeType = expected.parse().unwrap();
        assert_eq!(parsed.as_str(), expected);
    }
}

#[test]
fn edge_type_parse_invalid_returns_error() {
    let err = "bogus".parse::<EdgeType>().unwrap_err();
    assert_eq!(err.to_string(), "invalid edge type: 'bogus'");
}

#[test]
fn state_parse_invalid_returns_error() {
    let err = "bogus".parse::<State>().unwrap_err();
    assert_eq!(err.to_string(), "invalid state: 'bogus'");
}

#[test]
fn state_ranks_follow_the_flow() {
    assert_eq!(State::Icebox.rank(), 0);
    assert_eq!(State::Queued.rank(), 1);
    assert_eq!(State::InProgress.rank(), 2);
    assert_eq!(State::Done.rank(), 3);
}

#[test]
fn state_parse_is_case_sensitive() {
    assert!(State::parse("Done").is_err());
    assert!(State::parse("Ready").is_err());
    assert_eq!(State::parse("in_progress").unwrap(), State::InProgress);
}

#[test]
fn default_ordering_is_position() {
    assert_eq!(TaskOrdering::default(), TaskOrdering::Position);
}

#[test]
fn error_messages() {
    assert_eq!(RangerError::KeyNotFound("ab".to_string()).message(), "no key matching prefix 'ab'");
    assert_eq!(
        RangerError::AmbiguousPrefix("ab".to_string()).message(),
        "ambiguous prefix 'ab' matches multiple keys"
    );
    assert_eq!(
        RangerError::StateMismatch { task_state: "queued".to_string(), anchor_state: "done".to_string() }.message(),
        "can't move queued task relative to done task"
    );
    assert_eq!(RangerError::BacklogNotFound("x".to_string()).message(), "backlog not found: 'x'");
    assert_eq!(RangerError::CycleDetected.message(), "adding this edge would create a cycle");
    assert_eq!(RangerError::Usage("bad".to_string()).message(), "bad");
}

#[test]
fn state_parse_accepts_ready_for_queued() {
    assert_eq!(State::parse("ready").unwrap(), State::Queued);
    assert_eq!(State::parse("queued").unwrap(), State::Queued);
    assert_eq!("ready".parse::<State>().unwrap(), State::Queued);
    assert_eq!(State::parse("readyy").unwrap_err().0, "readyy");
}
