use kra::encoding::encode_codes;
use kra::encoding::encode_labels;

fn texts(values: &[&str]) -> Vec<Option<String>> {
    values.iter().map(|v| Some(v.to_string())).collect()
}

#[test]
fn scenario_mixed() {
    let input = texts(&["a", "b", "a", "c", "b"]);
    assert_eq!(encode_labels(&input), vec![0, 1, 0, 2, 1]);
}

#[test]
fn scenario_single() {
    let input = texts(&["x"]);
    assert_eq!(encode_labels(&input), vec![0]);
}

#[test]
fn scenario_empty() {
    let input: Vec<Option<String>> = Vec::new();
    assert_eq!(encode_labels(&input), Vec::<usize>::new());
}

#[test]
fn scenario_constant() {
    let input = texts(&["a", "a", "a"]);
    assert_eq!(encode_labels(&input), vec![0, 0, 0]);
}

#[test]
fn scenario_nulls() {
    let input = vec![None, Some("a".to_string()), None, Some("b".to_string())];
    assert_eq!(encode_labels(&input), vec![0, 1, 0, 2]);
}

#[test]
fn output_length_matches_input() {
    for n in 0..8 {
        let input: Vec<Option<String>> = (0..n).map(|i| Some(format!("v{}", i % 3))).collect();
        assert_eq!(encode_labels(&input).len(), input.len());
    }
}

#[test]
fn equal_values_get_equal_codes() {
    let input = texts(&["red", "green", "red", "blue", "green", "red"]);
    let codes = encode_labels(&input);
    for i in 0..input.len() {
        for j in 0..input.len() {
            assert_eq!(input[i] == input[j], codes[i] == codes[j]);
        }
    }
}

#[test]
fn codes_are_dense_and_first_appearance_ordered() {
    let input = texts(&["c", "c", "a", "b", "a", "d", "c"]);
    let codes = encode_labels(&input);
    let distinct = 4;
    for code in 0..distinct {
        assert!(codes.contains(&code));
    }
    for &code in &codes {
        assert!(code < distinct);
    }
    let first_positions: Vec<usize> = (0..distinct)
        .map(|code| codes.iter().position(|&c| c == code).unwrap())
        .collect();
    for w in first_positions.windows(2) {
        assert!(w[0] <= w[1]);
    }
}

#[test]
fn reencoding_the_output_reproduces_it() {
    let input = vec![
        Some("pear".to_string()),
        None,
        Some("plum".to_string()),
        Some("pear".to_string()),
        None,
        Some("quince".to_string()),
    ];
    let codes = encode_labels(&input);
    assert_eq!(encode_codes(&codes), codes);
}

#[test]
fn numeric_first_appearance() {
    let input: Vec<usize> = vec![5, 3, 5, 9, 3, 5];
    assert_eq!(encode_codes(&input), vec![0, 1, 0, 2, 1, 0]);
}

#[test]
fn numeric_empty() {
    let input: Vec<usize> = Vec::new();
    assert_eq!(encode_codes(&input), Vec::<usize>::new());
}

#[test]
fn numeric_reencoding_is_identity() {
    let input: Vec<usize> = vec![40, 7, 7, 40, 11, 0];
    let once = encode_codes(&input);
    assert_eq!(encode_codes(&once), once);
}
