use cfg_cyk::production::{permute_without, Production};

#[test]
fn test_permute_without() {
    let input = vec![
        'A'.to_string(),
        'B'.to_string(),
        'A'.to_string(),
        'C'.to_string(),
    ];
    let output = permute_without(input, "A");
    let expected = vec![
        vec![
            'A'.to_string(),
            'B'.to_string(),
            'A'.to_string(),
            'C'.to_string(),
        ],
        vec!['B'.to_string(), 'A'.to_string(), 'C'.to_string()],
        vec!['B'.to_string(), 'C'.to_string()],
        vec!['A'.to_string(), 'B'.to_string(), 'C'.to_string()],
    ];
    assert_eq!(output, expected);
}

#[test]
fn production_test_permute_without() {
    let input = vec![
        'A'.to_string(),
        'B'.to_string(),
        'A'.to_string(),
        'C'.to_string(),
    ];
    let output = permute_without(input, "A");
    let expected = vec![
        vec![
            'A'.to_string(),
            'B'.to_string(),
            'A'.to_string(),
            'C'.to_string(),
        ],
        vec!['B'.to_string(), 'A'.to_string(), 'C'.to_string()],
        vec!['B'.to_string(), 'C'.to_string()],
        vec!['A'.to_string(), 'B'.to_string(), 'C'.to_string()],
    ];
    assert_eq!(output, expected);
}

#[test]
fn permute_without_absent_symbol() {
    let input = vec!["X".to_string(), "Y".to_string()];
    let output = permute_without(input.clone(), "A");
    assert_eq!(output, vec![input]);
}

#[test]
fn is_null_spots_the_epsilon_production() {
    let p = Production {
        symbol: "S".to_string(),
        value: vec!["#".to_string()],
    };
    assert!(p.is_null());
    let q = Production {
        symbol: "S".to_string(),
        value: vec!["a".to_string()],
    };
    assert!(!q.is_null());
    let r = Production {
        symbol: "S".to_string(),
        value: vec!["#".to_string(), "#".to_string()],
    };
    assert!(!r.is_null());
}

#[test]
fn remove_null_production_lists_variants() {
    let p = Production {
        symbol: "S".to_string(),
        value: vec!["A".to_string(), "b".to_string(), "A".to_string()],
    };
    let vs = p.remove_null_production("A");
    let sides: Vec<Vec<String>> = vs.iter().map(|q| q.value.clone()).collect();
    let expected: Vec<Vec<String>> = vec![
        vec!["A".to_string(), "b".to_string(), "A".to_string()],
        vec!["b".to_string(), "A".to_string()],
        vec!["b".to_string()],
        vec!["A".to_string(), "b".to_string()],
    ];
    assert_eq!(sides, expected);
    for q in vs.iter() {
        assert_eq!(q.symbol, "S");
    }
}

#[test]
fn remove_null_production_drops_empty_side() {
    let p = Production {
        symbol: "S".to_string(),
        value: vec!["A".to_string()],
    };
    let vs = p.remove_null_production("A");
    let sides: Vec<Vec<String>> = vs.iter().map(|q| q.value.clone()).collect();
    assert_eq!(sides, vec![vec!["A".to_string()]]);
}
