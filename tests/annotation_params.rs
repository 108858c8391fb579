use stanley::annotation::{conditions_of, UnknownParameter};

fn params(list: &[(&str, &str)]) -> Vec<(String, String)> {
    list.iter().map(|(k, v)| (k.to_string(), v.to_string())).collect()
}

#[test]
fn both_conditions_are_read() {
    let r = conditions_of(&params(&[("pre", "x > 0"), ("post", "ret > x")])).unwrap();
    assert_eq!(r, Some(("x > 0".to_string(), "ret > x".to_string())));
}

#[test]
fn a_missing_or_empty_condition_skips_the_function() {
    assert_eq!(conditions_of(&params(&[("pre", "x > 0")])).unwrap(), None);
    assert_eq!(conditions_of(&params(&[("pre", ""), ("post", "true")])).unwrap(), None);
    assert_eq!(conditions_of(&params(&[])).unwrap(), None);
}

#[test]
fn the_last_value_of_a_parameter_counts() {
    let r = conditions_of(&params(&[("pre", "a"), ("post", "b"), ("pre", "c")])).unwrap();
    assert_eq!(r, Some(("c".to_string(), "b".to_string())));
}

#[test]
fn other_parameters_are_refused() {
    match conditions_of(&params(&[("pre", "true"), ("inv", "x > 0")])) {
        Err(UnknownParameter(n)) => assert_eq!(n, "inv"),
        other => panic!("unexpected {:?}", other),
    }
}
