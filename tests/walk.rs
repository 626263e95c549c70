use markov::Chain;

#[test]
fn walk_only_returns_input_tokens() {
    let tokens = vec!["the", "cat", "sat", "on", "the", "mat", "and", "the", "dog"];
    let chain = Chain::from_sequence(&tokens);
    let mut matrix = chain.transition_matrix().unwrap();
    for _ in 0..5000 {
        let t = matrix.next().unwrap();
        assert!(tokens.contains(t));
    }
}

#[test]
fn single_pair_alternates() {
    let mut chain = Chain::new();
    chain.insert('a', 'b');
    let mut matrix = chain.transition_matrix().unwrap();
    for _ in 0..100 {
        assert_eq!(*matrix.next().unwrap(), 'b');
        assert_eq!(*matrix.next().unwrap(), 'a');
    }
}

#[test]
fn choice_after_i_is_even() {
    let tokens = vec!["I", "see", "you", "I", "know", "you"];
    let chain = Chain::from_sequence(&tokens);
    let mut matrix = chain.transition_matrix().unwrap();
    let mut prev = *matrix.next().unwrap();
    let mut see = 0u32;
    let mut know = 0u32;
    for _ in 0..60000 {
        let t = *matrix.next().unwrap();
        if prev == "I" {
            match t {
                "see" => see += 1,
                "know" => know += 1,
                other => panic!("unexpected successor of I: {}", other),
            }
        }
        prev = t;
    }
    let total = (see + know) as f64;
    assert!(total > 10000.0);
    let share = see as f64 / total;
    assert!((share - 0.5).abs() < 0.02, "share of see: {}", share);
}

#[test]
fn choice_follows_counts() {
    let mut chain = Chain::new();
    chain.insert("s", "x");
    for _ in 0..3 {
        chain.insert("s", "y");
    }
    let mut matrix = chain.transition_matrix().unwrap();
    let mut x = 0u32;
    let mut y = 0u32;
    while x + y < 100_000 {
        match *matrix.next().unwrap() {
            "x" => x += 1,
            "y" => y += 1,
            "s" => {}
            other => panic!("unexpected token: {}", other),
        }
    }
    let share = y as f64 / (x + y) as f64;
    assert!((share - 0.75).abs() < 0.01, "share of y: {}", share);
}

#[test]
fn freezing_twice_keeps_counts() {
    let tokens = vec![1u16, 2, 1, 3, 1, 2];
    let chain = Chain::from_sequence(&tokens);
    let before = [chain.weight_of(&1, &2), chain.weight_of(&1, &3), chain.weight_of(&2, &1)];
    let mut first = chain.transition_matrix().unwrap();
    let mut second = chain.transition_matrix().unwrap();
    let after = [chain.weight_of(&1, &2), chain.weight_of(&1, &3), chain.weight_of(&2, &1)];
    assert_eq!(before, [2, 1, 1]);
    assert_eq!(before, after);
    for _ in 0..100 {
        assert!(tokens.contains(first.next().unwrap()));
        assert!(tokens.contains(second.next().unwrap()));
    }
}
