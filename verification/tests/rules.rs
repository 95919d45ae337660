use language_generator::Rule;

#[test]
fn rule_keeps_what_it_was_given() {
    let r = Rule::new('E', "E*E");
    assert_eq!(r.lhs(), 'E');
    assert_eq!(r.rhs(), "E*E");
    let copy = r.clone();
    assert_eq!(copy.lhs(), 'E');
    assert_eq!(copy.rhs(), "E*E");
}

#[test]
fn rule_validity_looks_at_the_left_hand_side_only() {
    assert!(Rule::new('A', "").is_valid());
    assert!(Rule::new('Z', "ZZ").is_valid());
    assert!(!Rule::new('a', "b").is_valid());
    assert!(!Rule::new('1', "b").is_valid());
    assert!(!Rule::new('@', "b").is_valid());
    assert!(!Rule::new('[', "b").is_valid());
    assert!(!Rule::new('É', "b").is_valid());
}

#[test]
fn terminal_only_rules_are_right_and_left_regular() {
    for rhs in ["a", "ab", "n/n", "(+)", "0123456789", "é"] {
        let r = Rule::new('S', rhs);
        assert!(r.is_right_regular(), "{rhs}");
        assert!(r.is_left_regular(), "{rhs}");
        assert!(!r.is_strict_right(), "{rhs}");
        assert!(!r.is_strict_left(), "{rhs}");
    }
}

#[test]
fn terminal_then_nonterminal_is_right_regular_only() {
    for rhs in ["aB", "-B", "1Z", "éA"] {
        let r = Rule::new('S', rhs);
        assert!(r.is_right_regular(), "{rhs}");
        assert!(!r.is_left_regular(), "{rhs}");
        assert!(r.is_strict_right(), "{rhs}");
        assert!(!r.is_strict_left(), "{rhs}");
    }
}

#[test]
fn nonterminal_then_terminal_is_left_regular_only() {
    for rhs in ["Ba", "B-", "Z1", "Aé"] {
        let r = Rule::new('S', rhs);
        assert!(r.is_left_regular(), "{rhs}");
        assert!(!r.is_right_regular(), "{rhs}");
        assert!(r.is_strict_left(), "{rhs}");
        assert!(!r.is_strict_right(), "{rhs}");
    }
}

#[test]
fn empty_right_hand_side_is_never_regular() {
    let r = Rule::new('S', "");
    assert!(!r.is_right_regular());
    assert!(!r.is_left_regular());
    assert!(!r.is_strict_right());
    assert!(!r.is_strict_left());
}

#[test]
fn lone_nonterminal_is_not_regular() {
    let r = Rule::new('S', "A");
    assert!(!r.is_right_regular());
    assert!(!r.is_left_regular());
}

#[test]
fn extended_shapes_allow_runs_of_terminals() {
    let right = Rule::new('S', "abcD");
    assert!(right.is_right_regular());
    assert!(!right.is_left_regular());
    assert!(!right.is_strict_right());

    let left = Rule::new('S', "Dabc");
    assert!(left.is_left_regular());
    assert!(!left.is_right_regular());
    assert!(!left.is_strict_left());
}

#[test]
fn nonterminal_in_the_middle_or_twice_is_not_regular() {
    for rhs in ["aBc", "AB", "E*E", "(E)", "AaB", "aAB", "ABa"] {
        let r = Rule::new('S', rhs);
        assert!(!r.is_right_regular(), "{rhs}");
        assert!(!r.is_left_regular(), "{rhs}");
    }
}

#[test]
fn regularity_ignores_the_left_hand_side() {
    assert!(Rule::new('s', "aB").is_right_regular());
    assert!(Rule::new('s', "Ba").is_left_regular());
}
