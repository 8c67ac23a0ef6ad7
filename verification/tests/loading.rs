use mdp_brkga::LoadError;
use mdp_brkga::loader::load_instance;
use mdp_brkga::loader::parse_instance_name;

#[test]
fn name_encodes_both_sizes() {
    assert_eq!(parse_instance_name(b"n10_k7.txt"), Ok((10, 7)));
    assert_eq!(parse_instance_name(b"type1_n500_m50.txt"), Ok((500, 50)));
}

#[test]
fn name_without_marker_is_malformed() {
    assert_eq!(parse_instance_name(b"data.txt"), Err(LoadError::MalformedName));
    assert_eq!(parse_instance_name(b"n12.txt"), Err(LoadError::MalformedName));
    assert_eq!(parse_instance_name(b"n12_k3.dat"), Err(LoadError::MalformedName));
    assert_eq!(parse_instance_name(b"nx_k3.txt"), Err(LoadError::MalformedName));
}

#[test]
fn short_body_fails_deterministically() {
    // n = 3 needs 9 values; the body supplies 5.
    let r = load_instance(b"n3_x2.txt", b"3\n1 2 3 4 5");
    assert_eq!(r.err(), Some(LoadError::WrongValueCount));
    let again = load_instance(b"n3_x2.txt", b"3\n1 2 3 4 5");
    assert_eq!(again.err(), Some(LoadError::WrongValueCount));
}

#[test]
fn excess_values_fail() {
    let r = load_instance(b"n2_x1.txt", b"2\n1 2 3 4 5");
    assert_eq!(r.err(), Some(LoadError::WrongValueCount));
}

#[test]
fn non_numeric_token_fails() {
    let r = load_instance(b"n2_x1.txt", b"2\n1 a 3 4");
    assert_eq!(r.err(), Some(LoadError::NonNumericToken));
}

#[test]
fn oversized_token_fails() {
    let r = load_instance(b"n2_x1.txt", b"2\n99999999999999999999 0 0 0");
    assert_eq!(r.err(), Some(LoadError::NonNumericToken));
}

#[test]
fn solution_size_zero_is_invalid() {
    let r = load_instance(b"n3_x0.txt", b"3\n0 0 0 0 0 0 0 0 0");
    assert_eq!(r.err(), Some(LoadError::InvalidSizes));
}

#[test]
fn solution_size_above_input_size_is_invalid() {
    let r = load_instance(b"n2_x5.txt", b"2\n0 1 1 0");
    assert_eq!(r.err(), Some(LoadError::InvalidSizes));
}

#[test]
fn header_line_is_skipped_whatever_it_holds() {
    let inst = load_instance(b"n2_x1.txt", b"any header at all\n0 1 1 0").unwrap();
    assert_eq!(inst.input_size, 2);
    assert_eq!(inst.solution_size, 1);
}

#[test]
fn body_without_newline_has_no_values() {
    let r = load_instance(b"n1_x1.txt", b"1");
    assert_eq!(r.err(), Some(LoadError::WrongValueCount));
}

#[test]
fn loaded_matrix_is_read_row_major() {
    let inst = load_instance(b"n2_x2.txt", b"2\n0 7\n7 0\n").unwrap();
    let sol = mdp_brkga::MdpSolution { elements: vec![0, 1] };
    assert_eq!(inst.objective_function(&sol), 7u128);
}

#[test]
fn values_may_spread_over_lines_arbitrarily() {
    let a = load_instance(b"n2_x2.txt", b"2\n0 3 3 0\n").unwrap();
    let b = load_instance(b"n2_x2.txt", b"2\n0\n3\n3\n0\n").unwrap();
    let sol = mdp_brkga::MdpSolution { elements: vec![0, 1] };
    assert_eq!(a.objective_function(&sol), b.objective_function(&sol));
}
