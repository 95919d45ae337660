use language_generator::sampling::{checked_total, choose_rule, restrict_weights, usable_weights};
use language_generator::{Derivation, DerivationError, Grammar, Rule};

fn grammar(rules: &[(char, &str)]) -> Grammar {
    let rules: Vec<Rule> = rules.iter().map(|(l, r)| Rule::new(*l, r)).collect();
    Grammar::from_rules(&rules)
}

fn expression_grammar() -> Grammar {
    grammar(&[
        ('E', "!E"),
        ('E', "E*E"),
        ('E', "E+E"),
        ('E', "(E)"),
        ('E', "n"),
        ('E', "E*n"),
        ('E', "E+n"),
        ('E', "E+B"),
        ('B', "-B"),
        ('B', "n/n"),
    ])
}

#[test]
fn weights_are_restricted_to_the_choices() {
    let weights: Vec<u64> = vec![8, 1, 1, 8, 35];
    assert_eq!(restrict_weights(&vec![0, 2, 4], &weights), vec![8, 1, 35]);
    assert_eq!(restrict_weights(&vec![4, 0], &weights), vec![35, 8]);
    assert_eq!(restrict_weights(&vec![3, 5, 100], &weights), vec![8, 0, 0]);
    assert_eq!(restrict_weights(&vec![], &weights), Vec::<u64>::new());
    assert_eq!(restrict_weights(&vec![0, 1], &vec![]), vec![0, 0]);
}

#[test]
fn total_is_the_sum_if_it_fits() {
    assert_eq!(checked_total(&vec![]), Some(0));
    assert_eq!(checked_total(&vec![0, 0]), Some(0));
    assert_eq!(checked_total(&vec![8, 1, 35]), Some(44));
    assert_eq!(checked_total(&vec![u64::MAX]), Some(u64::MAX));
    assert_eq!(checked_total(&vec![u64::MAX - 1, 1, 0]), Some(u64::MAX));
    assert_eq!(checked_total(&vec![u64::MAX, 1]), None);
    assert_eq!(checked_total(&vec![1, u64::MAX, 0]), None);
}

#[test]
fn uniform_choice_is_one_of_the_choices() {
    let mut rng = rand::thread_rng();
    let choices = vec![3, 5, 8];
    let mut seen = [false; 3];
    for _ in 0..300 {
        let r = choose_rule(&mut rng, &choices, None).unwrap();
        let k = choices.iter().position(|&c| c == r).unwrap();
        seen[k] = true;
    }
    assert_eq!(seen, [true, true, true]);
    assert_eq!(choose_rule(&mut rng, &vec![7], None), Some(7));
}

#[test]
fn nothing_is_chosen_among_no_choices() {
    let mut rng = rand::thread_rng();
    assert_eq!(choose_rule(&mut rng, &vec![], None), None);
    assert_eq!(choose_rule(&mut rng, &vec![], Some(&vec![1, 2, 3])), None);
}

#[test]
fn weights_are_usable_when_their_sum_is_positive_and_fits() {
    let weights: Vec<u64> = vec![8, 0, 1, 0];
    assert_eq!(usable_weights(&vec![0, 1, 2], &weights), Some(vec![8, 0, 1]));
    assert_eq!(usable_weights(&vec![2], &weights), Some(vec![1]));
    assert_eq!(usable_weights(&vec![1, 3], &weights), None);
    assert_eq!(usable_weights(&vec![4, 5], &weights), None);
    assert_eq!(usable_weights(&vec![], &weights), None);
    assert_eq!(usable_weights(&vec![0, 1], &vec![u64::MAX, 1]), None);
    assert_eq!(usable_weights(&vec![0, 1], &vec![u64::MAX, 0]), Some(vec![u64::MAX, 0]));
}

#[test]
fn weighted_choice_never_takes_a_rule_of_weight_zero() {
    let mut rng = rand::thread_rng();
    let choices = vec![0, 1, 2, 3];
    let weights: Vec<u64> = vec![0, 5, 0, 1];
    let mut seen = [false; 4];
    for _ in 0..300 {
        let r = choose_rule(&mut rng, &choices, Some(&weights)).unwrap();
        seen[r] = true;
    }
    assert_eq!(seen, [false, true, false, true]);

    let weights: Vec<u64> = vec![0, 0, 9];
    for _ in 0..50 {
        assert_eq!(choose_rule(&mut rng, &choices, Some(&weights)), Some(2));
    }
}

#[test]
fn weighted_choice_falls_back_to_uniform_on_zero_weights() {
    let mut rng = rand::thread_rng();
    let choices = vec![1, 2];
    let weights: Vec<u64> = vec![4, 0, 0];
    let mut seen = [false; 3];
    for _ in 0..200 {
        seen[choose_rule(&mut rng, &choices, Some(&weights)).unwrap()] = true;
    }
    assert_eq!(seen, [false, true, true]);
}

#[test]
fn weighted_choice_falls_back_to_uniform_on_overflow() {
    let mut rng = rand::thread_rng();
    let choices = vec![0, 1, 2];
    let weights: Vec<u64> = vec![u64::MAX, 1, 0];
    let mut seen = [false; 3];
    for _ in 0..300 {
        seen[choose_rule(&mut rng, &choices, Some(&weights)).unwrap()] = true;
    }
    assert_eq!(seen, [true, true, true]);
}

#[test]
fn random_generation_with_limit_zero_produces_no_word() {
    for g in [grammar(&[('E', "n")]), expression_grammar(), grammar(&[('E', "B")])] {
        assert_eq!(Derivation::print_random(&g, Some(0)), Err(DerivationError::StepLimitExceeded));
        assert_eq!(
            Derivation::generate(&g, Some(0), Some(&vec![1, 1])),
            Err(DerivationError::StepLimitExceeded)
        );
    }
}

#[test]
fn random_generation_from_a_terminal_start_symbol_needs_no_step() {
    let g = grammar(&[('e', "n")]);
    assert_eq!(Derivation::print_random(&g, Some(0)), Ok("e".to_string()));
    assert_eq!(Derivation::print_random(&g, None), Ok("e".to_string()));
}

#[test]
fn random_generation_of_the_only_word() {
    let g = grammar(&[('E', "n")]);
    assert_eq!(Derivation::print_random(&g, Some(1)), Ok("n".to_string()));
    assert_eq!(Derivation::print_random(&g, None), Ok("n".to_string()));
    let g = grammar(&[('S', "aA"), ('A', "bB"), ('B', "c")]);
    assert_eq!(Derivation::print_random(&g, Some(3)), Ok("abc".to_string()));
    assert_eq!(Derivation::print_random(&g, Some(2)), Err(DerivationError::StepLimitExceeded));
}

#[test]
fn random_generation_reports_a_dead_nonterminal() {
    let g = grammar(&[('E', "B")]);
    assert_eq!(Derivation::print_random(&g, Some(5)), Err(DerivationError::DeadNonTerminal));
    assert_eq!(Derivation::print_random(&g, None), Err(DerivationError::DeadNonTerminal));
    assert_eq!(Derivation::print_random(&g, Some(1)), Err(DerivationError::StepLimitExceeded));
}

#[test]
fn random_generation_gives_a_word_or_the_step_limit() {
    let g = expression_grammar();
    for _ in 0..200 {
        match Derivation::print_random(&g, Some(10)) {
            Ok(w) => {
                assert!(!w.is_empty());
                assert!(w.chars().all(|c| "!*+()n-/".contains(c)), "{w}");
            }
            Err(e) => assert_eq!(e, DerivationError::StepLimitExceeded),
        }
    }
}

#[test]
fn weighted_generation_follows_the_weights() {
    let g = grammar(&[('E', "!E"), ('E', "n")]);
    for _ in 0..50 {
        assert_eq!(Derivation::generate(&g, Some(3), Some(&vec![0, 1])), Ok("n".to_string()));
    }
    for _ in 0..50 {
        assert_eq!(
            Derivation::generate(&g, Some(3), Some(&vec![1, 0])),
            Err(DerivationError::StepLimitExceeded)
        );
    }
    for _ in 0..50 {
        assert_eq!(Derivation::generate(&g, None, Some(&vec![0, 7, 3])), Ok("n".to_string()));
    }
}

#[test]
fn weighted_generation_without_usable_weights_is_uniform() {
    let g = grammar(&[('E', "!E"), ('E', "n")]);
    let mut words = 0;
    for _ in 0..200 {
        match Derivation::generate(&g, Some(4), Some(&vec![0, 0])) {
            Ok(w) => {
                assert!(w == "n" || w == "!n" || w == "!!n" || w == "!!!n", "{w}");
                words += 1;
            }
            Err(e) => assert_eq!(e, DerivationError::StepLimitExceeded),
        }
    }
    assert!(words > 0);
}

#[test]
fn random_driving_continues_a_derivation() {
    let g = grammar(&[('E', "(E)"), ('E', "n")]);
    let mut rng = rand::thread_rng();
    let mut d = Derivation::new(&g);
    d.apply_sequence(&g, &vec![0, 0]).unwrap();
    assert_eq!(d.current().form(), "((E))");
    let weights: Vec<u64> = vec![0, 1];
    assert_eq!(d.derive_random(&g, &mut rng, Some(1), Some(&weights)), Ok(()));
    assert_eq!(d.step_count(), 3);
    assert_eq!(d.word(), Some("((n))".to_string()));
    assert_eq!(d.derive_random(&g, &mut rng, Some(0), None), Ok(()));
    assert_eq!(d.step_count(), 3);
}

#[test]
fn random_driving_stops_at_the_limit() {
    let g = grammar(&[('E', "(E)"), ('E', "n")]);
    let mut rng = rand::thread_rng();
    let mut d = Derivation::new(&g);
    let weights: Vec<u64> = vec![1];
    assert_eq!(
        d.derive_random(&g, &mut rng, Some(4), Some(&weights)),
        Err(DerivationError::StepLimitExceeded)
    );
    assert_eq!(d.step_count(), 4);
    assert_eq!(d.current().form(), "((((E))))");
    assert_eq!(d.word(), None);
}
