use markov::{Chain, ChainError};

#[test]
fn test_chain_and_matrix() {
    let dna_strand = "AATCCGCTAGGATTACACCGGATTTATAGCGAGATAGACTTGAAGAACAGTGCAGATAATTATAGGGAACCCAGATAGATTGGTAGCAGA";

    let mut chain = Chain::new();

    let mut iter = dna_strand.chars();
    loop {
        let first = iter.next();
        let second = iter.next();

        if first.is_some() && second.is_some() {
            chain.insert(first.unwrap(), second.unwrap());
            continue;
        }

        break;
    }

    let mut matrix = chain.transition_matrix().unwrap();
    let mut line = String::from("The nucleotide sequence is: ");
    for _ in 0..200 {
        let value = matrix.next().unwrap();
        assert!("ACGT".contains(*value));
        line.push(*value);
    }

    println!("{}", line);
}

#[test]
fn counts_equal_number_of_records() {
    let mut chain = Chain::new();
    for _ in 0..5 {
        chain.insert("a", "b");
    }
    chain.insert("a", "c");
    chain.insert("b", "a");
    chain.insert("b", "a");
    assert_eq!(chain.weight_of(&"a", &"b"), 5);
    assert_eq!(chain.weight_of(&"a", &"c"), 1);
    assert_eq!(chain.weight_of(&"b", &"a"), 2);
    assert_eq!(chain.weight_of(&"b", &"c"), 0);
    assert_eq!(chain.weight_of(&"c", &"a"), 0);
    assert_eq!(chain.weight_of(&"z", &"a"), 0);
}

#[test]
fn scenario_pairs_are_recorded() {
    let tokens = vec!["I", "see", "you", "I", "know", "you"];
    let chain = Chain::from_sequence(&tokens);
    assert_eq!(chain.weight_of(&"I", &"see"), 1);
    assert_eq!(chain.weight_of(&"see", &"you"), 1);
    assert_eq!(chain.weight_of(&"you", &"I"), 1);
    assert_eq!(chain.weight_of(&"I", &"know"), 1);
    assert_eq!(chain.weight_of(&"know", &"you"), 1);
    assert_eq!(chain.weight_of(&"you", &"know"), 0);
    assert_eq!(chain.token_count(), 4);
    let mut sources: Vec<&str> = chain
        .source_indices()
        .iter()
        .map(|i| *chain.token(*i))
        .collect();
    sources.sort();
    assert_eq!(sources, vec!["I", "know", "see", "you"]);
}

#[test]
fn short_sequences_give_no_walk() {
    let empty: Vec<&str> = Vec::new();
    let chain = Chain::from_sequence(&empty);
    assert_eq!(chain.transition_matrix().err(), Some(ChainError::EmptyModel));

    let one = vec!["only"];
    let chain = Chain::from_sequence(&one);
    assert_eq!(chain.transition_matrix().err(), Some(ChainError::EmptyModel));

    let fresh: Chain<u32> = Chain::new();
    assert_eq!(fresh.transition_matrix().err(), Some(ChainError::EmptyModel));
}

#[test]
fn two_tokens_give_a_walk() {
    let two = vec!["x", "y"];
    let chain = Chain::from_sequence(&two);
    assert!(chain.transition_matrix().is_ok());

    let longer = vec![1u8, 2, 3, 2, 1];
    let chain = Chain::from_sequence(&longer);
    assert!(chain.transition_matrix().is_ok());
}

#[test]
fn counts_positive_after_learning() {
    let tokens = vec![3u32, 3, 3, 4];
    let chain = Chain::from_sequence(&tokens);
    assert_eq!(chain.weight_of(&3, &3), 2);
    assert_eq!(chain.weight_of(&3, &4), 1);
    for i in chain.source_indices() {
        let row = chain.successors_at(i);
        assert!(!row.is_empty());
        for (j, w) in row.iter() {
            assert!(*j < chain.token_count());
            assert!(*w >= 1);
        }
    }
}
