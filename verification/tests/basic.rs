use tekfor::lock_picking::basic::{
    break_valid_paren_sequence, draw_swap, first_other_position, keeps_word, partner_accepted, generate_valid_paren_sequence, is_valid,
    nth_catalan_number, swap_positions, Basic, BREAK_BELOW,
};

#[test]
fn nth_catalan_number_test() {
    assert_eq!(nth_catalan_number(4), 14);
}

#[test]
fn is_valid_test() {
    assert!(is_valid("(())"));
    assert!(!is_valid("(("));
    assert!(is_valid("(())()()"));
    assert!(!is_valid("()))()()((()()()(())"));
}

#[test]
fn catalan_numbers_from_zero() {
    let expected = [1usize, 1, 2, 5, 14, 42, 132, 429, 1430, 4862, 16796];
    for (n, value) in expected.iter().enumerate() {
        assert_eq!(nth_catalan_number(n), *value);
    }
}

#[test]
fn is_valid_rejects_empty_odd_and_unbalanced() {
    assert!(!is_valid(""));
    assert!(!is_valid("("));
    assert!(!is_valid(")("));
    assert!(!is_valid("())("));
    assert!(!is_valid("abc"));
    assert!(!is_valid(")a"));
    assert!(is_valid("()"));
    assert!(is_valid("(()())"));
}

#[test]
fn generates_every_sequence_in_order() {
    assert_eq!(generate_valid_paren_sequence(0), vec![String::new()]);
    assert_eq!(generate_valid_paren_sequence(1), vec!["()".to_string()]);
    assert_eq!(
        generate_valid_paren_sequence(3),
        vec!["((()))", "(()())", "(())()", "()(())", "()()()"]
    );
}

#[test]
fn generated_count_is_catalan_and_all_valid() {
    for n in 1..=8 {
        let words = generate_valid_paren_sequence(n);
        assert_eq!(words.len(), nth_catalan_number(n));
        for w in &words {
            assert!(is_valid(w));
            assert_eq!(w.len(), 2 * n);
        }
        for pair in words.windows(2) {
            assert!(pair[0] < pair[1]);
        }
    }
}

fn differing_positions(a: &str, b: &str) -> Vec<usize> {
    a.bytes().zip(b.bytes()).enumerate().filter(|(_, (x, y))| x != y).map(|(i, _)| i).collect()
}

#[test]
fn breaking_swaps_two_different_characters() {
    for _ in 0..50 {
        let intact = "(()())".to_string();
        let mut broken = intact.clone();
        break_valid_paren_sequence(&mut broken);
        let diff = differing_positions(&intact, &broken);
        assert_eq!(diff.len(), 2);
        let (a, b) = (diff[0], diff[1]);
        assert_eq!(intact.as_bytes()[a], broken.as_bytes()[b]);
        assert_eq!(intact.as_bytes()[b], broken.as_bytes()[a]);
        assert_eq!(broken.len(), intact.len());
    }
}

#[test]
fn new_lock_keeps_or_swaps_each_sequence() {
    let lock = Basic::new(3);
    let words = generate_valid_paren_sequence(3);
    assert_eq!(lock.variants.len(), words.len());
    for (variant, word) in lock.variants.iter().zip(words.iter()) {
        let diff = differing_positions(word, variant);
        assert!(diff.is_empty() || diff.len() == 2);
    }
}

#[test]
fn default_lock_has_ten_pairs() {
    let lock = Basic::default();
    assert_eq!(lock.variants.len(), 16796);
    assert!(lock.variants.iter().all(|v| v.len() == 20));
}

#[test]
fn lock_checks_every_answer() {
    let lock = Basic { variants: vec!["()".to_string(), ")(".to_string(), "(())".to_string()] };
    assert!(lock.is_valid_with(|s: &str| Ok::<bool, ()>(is_valid(s))));
    assert!(!lock.is_valid_with(|_: &str| Ok::<bool, ()>(true)));
    assert!(!lock.is_valid_with(|_: &str| Err::<bool, &str>("script failed")));
    let all_valid = Basic { variants: vec!["()".to_string(), "(())".to_string()] };
    assert!(all_valid.is_valid_with(|_: &str| Ok::<bool, ()>(true)));
}

#[test]
fn drawn_positions_hold_different_characters() {
    for _ in 0..50 {
        for word in ["()", "(())", "()()", "((()))", ")("] {
            let s = word.to_string();
            let (a, b) = draw_swap(&s);
            assert!(a < s.len() && b < s.len());
            assert_ne!(s.as_bytes()[a], s.as_bytes()[b]);
        }
    }
}

#[test]
fn swaps_the_given_positions() {
    let mut s = "(())".to_string();
    swap_positions(&mut s, 0, 3);
    assert_eq!(s, ")()(");
    let mut s = "(())".to_string();
    swap_positions(&mut s, 0, 2);
    assert_eq!(s, ")(()");
    let mut s = "(())".to_string();
    swap_positions(&mut s, 3, 1);
    assert_eq!(s, "())(");
    let mut s = "()".to_string();
    swap_positions(&mut s, 1, 1);
    assert_eq!(s, "()");
}

#[test]
fn coin_threshold_is_just_below_one_half() {
    assert_eq!(BREAK_BELOW, (1u32 << 31) - 64);
    assert!((((BREAK_BELOW - 1) as f64 / 4294967296.0) as f32) < 0.5);
    assert!(!(((BREAK_BELOW as f64 / 4294967296.0) as f32) < 0.5));
}

#[test]
fn empty_lock_has_the_empty_word() {
    for _ in 0..20 {
        let lock = Basic::new(0);
        assert_eq!(lock.variants, vec![String::new()]);
    }
}

#[test]
fn lock_applies_the_draws() {
    let words = vec!["()".to_string(), "(())".to_string(), "()()".to_string()];
    let lock = Basic::lock_from_draws(words, &vec![true, false, false], &vec![0, 3, 1], &vec![0, 1, 0]);
    assert_eq!(lock.variants, vec!["()".to_string(), "())(".to_string(), ")(()".to_string()]);
}

fn mirror(s: &str) -> String {
    s.chars().rev().map(|c| if c == '(' { ')' } else { '(' }).collect()
}

#[test]
fn accepted_strings_combine() {
    let accepted = ["()", "(())", "()()", "(()())"];
    for a in accepted {
        assert!(is_valid(&format!("({})", a)));
        for b in accepted {
            assert!(is_valid(&format!("{}{}", a, b)));
        }
    }
    for s in ["()", ")(", "(()", "())(", "(())()", "((", "))()"] {
        assert_eq!(is_valid(s), is_valid(&mirror(s)));
    }
}

#[test]
fn draws_below_the_threshold_break_words() {
    assert!(!keeps_word(0, 3));
    assert!(!keeps_word(BREAK_BELOW - 1, 3));
    assert!(keeps_word(BREAK_BELOW, 3));
    assert!(keeps_word(u32::MAX, 1));
    assert!(keeps_word(0, 0));
}

#[test]
fn partners_must_hold_the_other_character() {
    let s = "(())".to_string();
    assert!(!partner_accepted(&s, 0, 1));
    assert!(partner_accepted(&s, 0, 2));
    assert!(partner_accepted(&s, 3, 0));
    assert!(!partner_accepted(&s, 2, 2));
}

#[test]
fn first_other_position_is_the_least() {
    assert_eq!(first_other_position(&"(())".to_string(), 0), Some(2));
    assert_eq!(first_other_position(&"(())".to_string(), 3), Some(0));
    assert_eq!(first_other_position(&"()()".to_string(), 1), Some(0));
    assert_eq!(first_other_position(&"((((".to_string(), 2), None);
}
