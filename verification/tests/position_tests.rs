use ranger::position::{between, lex_less, midpoint, spread};

#[test]
fn first_position() {
    let pos = midpoint(None, None);
    assert_eq!(pos, "m");
}

#[test]
fn between_empty_bounds() {
    assert_eq!(between("", ""), "m");
}

#[test]
fn position_before_existing() {
    let pos = between("", "m");
    assert!(*pos < *"m", "expected {pos} < m");
    let pos = midpoint(None, Some("m"));
    assert!(*pos < *"m", "expected {pos} < m");
}

#[test]
fn position_after_existing() {
    let pos = between("m", "");
    assert!(*pos > *"m", "expected {pos} > m");
    let pos = midpoint(Some("m"), None);
    assert!(*pos > *"m", "expected {pos} > m");
}

#[test]
fn position_between_two() {
    let pos = between("a", "z");
    assert!(*pos > *"a", "expected {pos} > a");
    assert!(*pos < *"z", "expected {pos} < z");
    let pos = midpoint(Some("a"), Some("z"));
    assert!(*pos > *"a", "expected {pos} > a");
    assert!(*pos < *"z", "expected {pos} < z");
}

#[test]
fn between_shared_prefix() {
    let pos = between("ma", "mz");
    assert!(*pos > *"ma", "expected {pos} > ma");
    assert!(*pos < *"mz", "expected {pos} < mz");
}

#[test]
fn position_between_adjacent() {
    let pos = between("a", "b");
    assert!(*pos > *"a", "expected {pos} > a");
    assert!(*pos < *"b", "expected {pos} < b");
    let pos = midpoint(Some("a"), Some("b"));
    assert!(*pos > *"a", "expected {pos} > a");
    assert!(*pos < *"b", "expected {pos} < b");
}

#[test]
fn position_ordering_is_stable_over_many_appends() {
    let mut positions = vec!["m".to_string()];
    for _ in 0..20 {
        let last = positions.last().unwrap().clone();
        positions.push(between(&last, ""));
    }
    for window in positions.windows(2) {
        assert!(window[0] < window[1]);
    }
    let mut positions = vec![midpoint(None, None)];
    for _ in 0..20 {
        let last = positions.last().unwrap().clone();
        positions.push(midpoint(Some(&last), None));
    }
    for window in positions.windows(2) {
        assert!(window[0] < window[1], "{} should be < {}", window[0], window[1]);
    }
}

#[test]
fn position_ordering_is_stable_over_many_prepends() {
    let mut positions = vec!["m".to_string()];
    for _ in 0..20 {
        let first = positions.first().unwrap().clone();
        positions.insert(0, between("", &first));
    }
    for window in positions.windows(2) {
        assert!(window[0] < window[1]);
    }
    let mut positions = vec![midpoint(None, None)];
    for _ in 0..20 {
        let first = positions.first().unwrap().clone();
        positions.insert(0, midpoint(None, Some(&first)));
    }
    for window in positions.windows(2) {
        assert!(window[0] < window[1], "{} should be < {}", window[0], window[1]);
    }
}

#[test]
fn position_ordering_is_stable_over_many_interleaved_inserts() {
    let mut positions = vec!["m".to_string()];
    positions.push(between(&positions[0], ""));
    for _ in 0..20 {
        let a = &positions[positions.len() - 2].clone();
        let b = &positions[positions.len() - 1].clone();
        let mid = between(a, b);
        assert!(mid > *a);
        assert!(mid < *b);
        positions.insert(positions.len() - 1, mid);
    }
    let mut positions = vec![midpoint(None, None)];
    positions.push(midpoint(Some(&positions[0]), None));
    for _ in 0..20 {
        let a = &positions[positions.len() - 2].clone();
        let b = &positions[positions.len() - 1].clone();
        let mid = midpoint(Some(a), Some(b));
        assert!(mid > *a, "{mid} should be > {a}");
        assert!(mid < *b, "{mid} should be < {b}");
        positions.insert(positions.len() - 1, mid);
    }
}

#[test]
fn spread_empty() {
    assert!(spread(0).is_empty());
}

#[test]
fn spread_one() {
    let positions = spread(1);
    assert_eq!(positions.len(), 1);
    assert_eq!(positions[0], "m");
}

#[test]
fn spread_produces_sorted_positions() {
    for n in [2, 3, 5, 10, 50, 100] {
        let positions = spread(n);
        assert_eq!(positions.len(), n);
        for window in positions.windows(2) {
            assert!(window[0] < window[1], "not sorted at n={n}: {:?}", positions);
        }
    }
}

#[test]
fn between_exact_values() {
    assert_eq!(between("m", ""), "s");
    assert_eq!(between("", "m"), "g");
    assert_eq!(between("a", "b"), "am");
    assert_eq!(between("a", "z"), "m");
    assert_eq!(midpoint(Some("m"), None), "s");
    assert_eq!(spread(3), vec!["g".to_string(), "m".to_string(), "s".to_string()]);
}

#[test]
fn between_past_the_top_digit_extends() {
    assert_eq!(between("z", ""), "zm");
    assert_eq!(midpoint(Some("z"), None), "zm");
}

#[test]
fn lex_less_orders_like_str() {
    assert!(lex_less("a", "b"));
    assert!(lex_less("ab", "b"));
    assert!(lex_less("a", "ab"));
    assert!(!lex_less("ab", "ab"));
    assert!(!lex_less("b", "ab"));
    assert!(lex_less("", "a"));
    assert!(!lex_less("", ""));
}
