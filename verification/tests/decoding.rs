use mdp_brkga::CurrentDecoder;
use mdp_brkga::Decoder;
use mdp_brkga::ExperimentalDecoder;
use mdp_brkga::MaximumDiversity;
use mdp_brkga::MdpSolution;
use mdp_brkga::loader::load_instance;

/// The shared scenario instance: four items, distance matrix
/// [[0,1,2,3],[1,0,4,5],[2,4,0,6],[3,5,6,0]].
const BODY: &str = "4\n0 1 2 3\n1 0 4 5\n2 4 0 6\n3 5 6 0\n";

fn instance(k: usize) -> MaximumDiversity {
    let name = format!("n4_x{}.txt", k);
    load_instance(name.as_bytes(), BODY.as_bytes()).unwrap()
}

/// Keys [9, 1, 5, 3] are an order-preserving image of [0.9, 0.1, 0.5, 0.3]:
/// ascending key order is the index order [1, 3, 2, 0].
const KEYS: [u64; 4] = [9, 1, 5, 3];

#[test]
fn scenario_k2_selects_1_3_objective_5() {
    let problem = instance(2);
    let mut decoder = CurrentDecoder::new(&problem);
    let (solution, value) = decoder.decode_solution(&KEYS);
    assert_eq!(solution.elements, vec![1usize, 3]);
    assert_eq!(value, 5u128);
}

#[test]
fn scenario_k3_selects_1_3_2_objective_15() {
    let problem = instance(3);
    let mut decoder = CurrentDecoder::new(&problem);
    let (solution, value) = decoder.decode_solution(&KEYS);
    assert_eq!(solution.elements, vec![1usize, 3, 2]);
    assert_eq!(value, 15u128);
}

#[test]
fn full_solution_size_selects_every_item() {
    let problem = instance(4);
    let mut decoder = CurrentDecoder::new(&problem);
    let (solution, value) = decoder.decode_solution(&KEYS);
    let mut elements = solution.elements.clone();
    elements.sort();
    assert_eq!(elements, vec![0usize, 1, 2, 3]);
    // the sum of all pairwise distances
    assert_eq!(value, (1 + 2 + 3 + 4 + 5 + 6) as u128);
}

#[test]
fn solution_size_one_has_objective_zero() {
    let problem = instance(1);
    let mut decoder = CurrentDecoder::new(&problem);
    let (solution, value) = decoder.decode_solution(&KEYS);
    assert_eq!(solution.elements.len(), 1);
    assert_eq!(value, 0u128);
}

#[test]
fn equal_keys_break_ties_by_index() {
    let problem = instance(2);
    let mut decoder = CurrentDecoder::new(&problem);
    let (solution, value) = decoder.decode_solution(&[7, 7, 7, 7]);
    assert_eq!(solution.elements, vec![0usize, 1]);
    assert_eq!(value, 1u128);
}

#[test]
fn decode_is_deterministic() {
    let problem = instance(3);
    let mut decoder = CurrentDecoder::new(&problem);
    let first = decoder.decode(&KEYS);
    let second = decoder.decode(&KEYS);
    assert_eq!(first, second);
    let (solution_a, _) = decoder.decode_solution(&KEYS);
    let (solution_b, _) = decoder.decode_solution(&KEYS);
    assert_eq!(solution_a.elements, solution_b.elements);
}

#[test]
fn solution_indices_are_distinct_and_in_range() {
    let problem = instance(3);
    let mut decoder = CurrentDecoder::new(&problem);
    let (solution, _) = decoder.decode_solution(&[2, 2, 0, 1]);
    assert_eq!(solution.elements.len(), 3);
    for &e in &solution.elements {
        assert!(e < 4);
    }
    let mut sorted = solution.elements.clone();
    sorted.sort();
    sorted.dedup();
    assert_eq!(sorted.len(), 3);
}

#[test]
fn objective_is_order_independent() {
    let problem = instance(2);
    let a = MdpSolution { elements: vec![0, 3] };
    let b = MdpSolution { elements: vec![3, 0] };
    assert_eq!(problem.objective_function(&a), 3u128);
    assert_eq!(problem.objective_function(&a), problem.objective_function(&b));
}

#[test]
fn experimental_decoder_picks_from_free_list() {
    let problem = instance(2);
    let mut decoder = ExperimentalDecoder::new(&problem);
    // free [0,1,2,3]: key 6 picks 6 % 4 = position 2 (item 2);
    // free [0,1,3]: key 1 picks 1 % 3 = position 1 (item 1).
    let (solution, value) = decoder.decode_solution(&[6, 1]);
    assert_eq!(solution.elements, vec![2usize, 1]);
    assert_eq!(value, 4u128);
}

#[test]
fn experimental_decoder_is_deterministic() {
    let problem = instance(2);
    let mut decoder = ExperimentalDecoder::new(&problem);
    let first = decoder.decode(&[6, 1]);
    let second = decoder.decode(&[6, 1]);
    assert_eq!(first, second);
}

#[test]
fn objective_is_invariant_under_consistent_relabelling() {
    // Swap items 0 and 1 on both matrix axes and in the selection.
    let a = instance(2);
    let relabelled = load_instance(
        b"n4_x2.txt",
        b"4\n0 1 4 5\n1 0 2 3\n4 2 0 6\n5 3 6 0\n",
    )
    .unwrap();
    let in_a = MdpSolution { elements: vec![0, 3] };
    let in_b = MdpSolution { elements: vec![1, 3] };
    assert_eq!(a.objective_function(&in_a), 3u128);
    assert_eq!(a.objective_function(&in_a), relabelled.objective_function(&in_b));
    let fixed = MdpSolution { elements: vec![2, 3] };
    assert_eq!(a.objective_function(&fixed), relabelled.objective_function(&fixed));
}

fn engine_step<D: Decoder>(decoder: &mut D, member: &[u64]) -> u128 {
    decoder.decode(member)
}

#[test]
fn both_strategies_serve_a_generic_engine() {
    let problem = instance(2);
    let mut current = CurrentDecoder::new(&problem);
    assert_eq!(engine_step(&mut current, &KEYS), 5u128);
    let mut experimental = ExperimentalDecoder::new(&problem);
    assert_eq!(engine_step(&mut experimental, &[6, 1]), 4u128);
}

#[test]
fn experimental_decoder_solution_is_distinct_and_sized() {
    let problem = instance(3);
    let mut decoder = ExperimentalDecoder::new(&problem);
    let (solution, _) = decoder.decode_solution(&[5, 5, 5]);
    assert_eq!(solution.elements.len(), 3);
    let mut sorted = solution.elements.clone();
    sorted.sort();
    sorted.dedup();
    assert_eq!(sorted.len(), 3);
    for &e in &solution.elements {
        assert!(e < 4);
    }
}
