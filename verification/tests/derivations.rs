use language_generator::{Derivation, DerivationError, Grammar, Rule, Sentential, SententialError};

fn grammar(rules: &[(char, &str)]) -> Grammar {
    let rules: Vec<Rule> = rules.iter().map(|(l, r)| Rule::new(*l, r)).collect();
    Grammar::from_rules(&rules)
}

#[test]
fn initial_form_is_the_start_symbol() {
    let g = grammar(&[('E', "n")]);
    let s = Sentential::new_init(&g);
    assert_eq!(s.form(), "E");
    assert_eq!(s.leftmost_index(), Some(0));
    assert!(!s.is_complete());
}

#[test]
fn initial_form_of_a_terminal_start_symbol_is_complete() {
    let g = grammar(&[('e', "n")]);
    let s = Sentential::new_init(&g);
    assert_eq!(s.form(), "e");
    assert_eq!(s.leftmost_index(), None);
    assert!(s.is_complete());
    assert_eq!(s.new_next(&g, 0).unwrap_err(), SententialError::NoNonTerminal);
}

#[test]
fn rewrite_replaces_the_leftmost_nonterminal() {
    let g = grammar(&[('E', "E*E"), ('E', "n"), ('E', "(E)")]);
    let s = Sentential::new_init(&g);
    let s = s.new_next(&g, 0).unwrap();
    assert_eq!(s.form(), "E*E");
    assert_eq!(s.leftmost_index(), Some(0));
    let s = s.new_next(&g, 1).unwrap();
    assert_eq!(s.form(), "n*E");
    assert_eq!(s.leftmost_index(), Some(2));
    let s = s.new_next(&g, 2).unwrap();
    assert_eq!(s.form(), "n*(E)");
    assert_eq!(s.leftmost_index(), Some(3));
    let s = s.new_next(&g, 1).unwrap();
    assert_eq!(s.form(), "n*(n)");
    assert_eq!(s.leftmost_index(), None);
    assert!(s.is_complete());
}

#[test]
fn rewrite_changes_the_length_by_the_right_hand_side_less_one() {
    let g = grammar(&[('E', "E+E+E"), ('E', ""), ('E', "n")]);
    let s0 = Sentential::new_init(&g);
    let s1 = s0.new_next(&g, 0).unwrap();
    assert_eq!(s1.form().chars().count(), 1 - 1 + 5);
    let s2 = s1.new_next(&g, 1).unwrap();
    assert_eq!(s2.form(), "+E+E");
    assert_eq!(s2.form().chars().count(), 5 - 1 + 0);
    let s3 = s2.new_next(&g, 2).unwrap();
    assert_eq!(s3.form(), "+n+E");
    assert_eq!(s3.form().chars().count(), 4 - 1 + 1);
}

#[test]
fn rewrite_leaves_the_old_form_as_it_was() {
    let g = grammar(&[('E', "!E"), ('E', "n")]);
    let s0 = Sentential::new_init(&g);
    let s1 = s0.new_next(&g, 0).unwrap();
    assert_eq!(s0.form(), "E");
    assert_eq!(s1.form(), "!E");
    let copy = s1.clone();
    assert_eq!(copy.form(), "!E");
    assert_eq!(copy.leftmost_index(), Some(1));
}

#[test]
fn rewrite_counts_characters_not_bytes() {
    let g = grammar(&[('S', "éA"), ('A', "üB"), ('B', "ß")]);
    let s = Sentential::new_init(&g);
    let s = s.new_next(&g, 0).unwrap();
    assert_eq!(s.form(), "éA");
    assert_eq!(s.leftmost_index(), Some(1));
    let s = s.new_next(&g, 1).unwrap();
    assert_eq!(s.form(), "éüB");
    assert_eq!(s.leftmost_index(), Some(2));
    let s = s.new_next(&g, 2).unwrap();
    assert_eq!(s.form(), "éüß");
    assert!(s.is_complete());
}

#[test]
fn rewrite_refuses_a_rule_for_another_symbol() {
    let g = grammar(&[('E', "B"), ('B', "n")]);
    let s = Sentential::new_init(&g);
    assert_eq!(s.new_next(&g, 1).unwrap_err(), SententialError::RuleMismatch);
}

#[test]
fn rewrite_refuses_a_rule_that_does_not_exist() {
    let g = grammar(&[('E', "B"), ('B', "n")]);
    let s = Sentential::new_init(&g);
    assert_eq!(s.new_next(&g, 2).unwrap_err(), SententialError::RuleMismatch);
    assert_eq!(s.new_next(&g, usize::MAX).unwrap_err(), SententialError::RuleMismatch);
}

#[test]
fn rewrite_refuses_a_complete_form() {
    let g = grammar(&[('E', "n")]);
    let s = Sentential::new_init(&g).new_next(&g, 0).unwrap();
    assert_eq!(s.new_next(&g, 0).unwrap_err(), SententialError::NoNonTerminal);
    assert_eq!(s.new_next(&g, 7).unwrap_err(), SententialError::NoNonTerminal);
}

#[test]
fn single_rule_grammar_derives_its_word_in_one_step() {
    let g = grammar(&[('E', "n")]);
    let mut d = Derivation::new(&g);
    assert_eq!(d.current().form(), "E");
    assert_eq!(d.step_count(), 0);
    assert!(!d.is_complete());
    assert_eq!(d.word(), None);
    assert_eq!(d.leftmost_nonterminal(), Some('E'));

    assert_eq!(d.derive_leftmost(&g, 0), Ok(()));
    assert_eq!(d.current().form(), "n");
    assert_eq!(d.step_count(), 1);
    assert!(d.is_complete());
    assert_eq!(d.word(), Some("n".to_string()));
    assert_eq!(d.leftmost_nonterminal(), None);
}

#[test]
fn sequence_of_two_rules_yields_the_negated_word() {
    let g = grammar(&[('E', "!E"), ('E', "n")]);
    let mut d = Derivation::new(&g);
    assert_eq!(d.current().form(), "E");
    assert_eq!(d.derive_leftmost(&g, 0), Ok(()));
    assert_eq!(d.current().form(), "!E");
    assert_eq!(d.word(), None);
    assert_eq!(d.derive_leftmost(&g, 1), Ok(()));
    assert_eq!(d.current().form(), "!n");
    assert!(d.is_complete());
    assert_eq!(d.word(), Some("!n".to_string()));

    let mut d = Derivation::new(&g);
    assert_eq!(d.apply_sequence(&g, &vec![0, 1]), Ok(()));
    assert_eq!(d.step_count(), 2);
    assert!(d.is_complete());
    assert_eq!(d.word(), Some("!n".to_string()));
}

#[test]
fn sequence_with_a_matching_rule_succeeds() {
    let g = grammar(&[('E', "E*E"), ('E', "n")]);
    let mut d = Derivation::new(&g);
    assert_eq!(d.leftmost_nonterminal(), Some('E'));
    assert_eq!(d.apply_sequence(&g, &vec![1]), Ok(()));
    assert_eq!(d.current().form(), "n");
    assert_eq!(d.word(), Some("n".to_string()));
}

#[test]
fn sequence_with_a_rule_for_another_symbol_fails() {
    let g = grammar(&[('E', "B"), ('B', "n")]);
    let mut d = Derivation::new(&g);
    assert_eq!(
        d.apply_sequence(&g, &vec![1]),
        Err(DerivationError::SententialErr(SententialError::RuleMismatch))
    );
    assert_eq!(d.step_count(), 0);
    assert_eq!(d.current().form(), "E");

    let mut d = Derivation::new(&g);
    assert_eq!(
        d.derive_leftmost(&g, 1),
        Err(DerivationError::SententialErr(SententialError::RuleMismatch))
    );
    assert_eq!(d.current().form(), "E");
}

#[test]
fn sequence_keeps_the_steps_taken_before_a_failure() {
    let g = grammar(&[('E', "B+E"), ('B', "n"), ('E', "n")]);
    let mut d = Derivation::new(&g);
    assert_eq!(
        d.apply_sequence(&g, &vec![0, 1, 1, 2]),
        Err(DerivationError::SententialErr(SententialError::RuleMismatch))
    );
    assert_eq!(d.step_count(), 2);
    assert_eq!(d.current().form(), "n+E");
    assert_eq!(d.leftmost_nonterminal(), Some('E'));
}

#[test]
fn sequence_with_an_index_out_of_range_fails() {
    let g = grammar(&[('E', "n")]);
    let mut d = Derivation::new(&g);
    assert_eq!(
        d.apply_sequence(&g, &vec![1]),
        Err(DerivationError::SententialErr(SententialError::RuleMismatch))
    );
}

#[test]
fn sequence_stops_quietly_once_complete() {
    let g = grammar(&[('E', "!E"), ('E', "n")]);
    let mut d = Derivation::new(&g);
    assert_eq!(d.apply_sequence(&g, &vec![1, 0, 0, 9]), Ok(()));
    assert_eq!(d.step_count(), 1);
    assert_eq!(d.word(), Some("n".to_string()));
}

#[test]
fn sequence_may_end_before_the_derivation_does() {
    let g = grammar(&[('E', "!E"), ('E', "n")]);
    let mut d = Derivation::new(&g);
    assert_eq!(d.apply_sequence(&g, &vec![0, 0]), Ok(()));
    assert!(!d.is_complete());
    assert_eq!(d.word(), None);
    assert_eq!(d.current().form(), "!!E");
    assert_eq!(d.apply_sequence(&g, &vec![]), Ok(()));
    assert_eq!(d.current().form(), "!!E");
}

#[test]
fn step_on_a_complete_derivation_is_refused() {
    let g = grammar(&[('E', "n")]);
    let mut d = Derivation::new(&g);
    assert_eq!(d.derive_leftmost(&g, 0), Ok(()));
    assert_eq!(
        d.derive_leftmost(&g, 0),
        Err(DerivationError::SententialErr(SententialError::NoNonTerminal))
    );
    assert_eq!(d.step_count(), 1);
    assert_eq!(d.word(), Some("n".to_string()));
}

#[test]
fn manual_derivation_of_an_expression() {
    let g = grammar(&[('E', "!E"), ('E', "E*E"), ('E', "E+E"), ('E', "(E)"), ('E', "n")]);
    assert!(g.is_valid());
    assert!(!g.is_regular());
    let mut d = Derivation::new(&g);
    d.derive_leftmost(&g, 0).unwrap();
    assert_eq!(d.current().form(), "!E");
    d.derive_leftmost(&g, 1).unwrap();
    assert_eq!(d.current().form(), "!E*E");
    d.derive_leftmost(&g, 0).unwrap();
    assert_eq!(d.current().form(), "!!E*E");
    d.derive_leftmost(&g, 4).unwrap();
    assert_eq!(d.current().form(), "!!n*E");
    assert!(!d.is_complete());
    d.derive_leftmost(&g, 4).unwrap();
    assert!(d.is_complete());
    assert_eq!(d.word().unwrap(), "!!n*n");
}

#[test]
fn word_has_no_nonterminal() {
    let g = grammar(&[('E', "E+B"), ('E', "n"), ('B', "-B"), ('B', "n/n")]);
    let mut d = Derivation::new(&g);
    let seq = vec![0, 0, 1, 2, 3, 3];
    for (k, &i) in seq.iter().enumerate() {
        assert_eq!(d.word(), None, "before step {k}");
        assert_eq!(d.is_complete(), false);
        d.derive_leftmost(&g, i).unwrap();
    }
    let w = d.word().unwrap();
    assert_eq!(w, "n+-n/n+n/n");
    assert!(w.chars().all(|c| !c.is_ascii_uppercase()));
}
