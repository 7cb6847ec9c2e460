use puzzle_kernels::wires::{
    decimal_to_bits, decimal_value, extract_value, part1, Circuit, Gate, Operation,
};

#[test]
fn digits_to_numbers() {
    assert_eq!(decimal_value(&[]), Some(0));
    assert_eq!(decimal_value(&[true]), Some(1));
    assert_eq!(decimal_value(&[true, false, false]), Some(4));
    assert_eq!(decimal_value(&[false, true, true, false, true]), Some(13));
    assert_eq!(decimal_value(&[true; 64]), Some(u64::MAX));
    assert_eq!(decimal_value(&[true; 65]), None);
    let mut padded = vec![false; 10];
    padded.extend(vec![true; 64]);
    assert_eq!(decimal_value(&padded), Some(u64::MAX));
}

#[test]
fn numbers_to_digits() {
    let bits = decimal_to_bits(5);
    assert_eq!(bits.len(), 46);
    assert_eq!(&bits[43..], &[true, false, true]);
    assert!(bits[..43].iter().all(|b| !b));
    assert!(decimal_to_bits(u64::MAX).iter().all(|b| *b));
    assert!(decimal_to_bits(1 << 46).iter().all(|b| !b));
}

#[test]
fn there_and_back() {
    for n in [0u64, 1, 2, 1000, (1 << 46) - 1, 123456789012] {
        assert_eq!(decimal_value(&decimal_to_bits(n)), Some(n));
    }
}

fn names(list: &[&str]) -> Vec<Vec<char>> {
    list.iter().map(|name| name.chars().collect()).collect()
}

fn small_circuit() -> Circuit {
    Circuit {
        names: names(&["x00", "x01", "x02", "y00", "y01", "y02", "z00", "z01", "z02"]),
        values: vec![
            Some(true), Some(true), Some(true), Some(false), Some(true), Some(false), None, None,
            None,
        ],
        gates: vec![
            Gate { left: 0, right: 3, out: 6, kind: Operation::And },
            Gate { left: 1, right: 4, out: 7, kind: Operation::Xor },
            Gate { left: 2, right: 5, out: 8, kind: Operation::Or },
        ],
    }
}

#[test]
fn small_circuit_gives_four() {
    let circuit = small_circuit();
    assert_eq!(part1(&circuit), Some(4));
    assert_eq!(extract_value(&circuit.names, &circuit.values, 'x'), Some(7));
    assert_eq!(extract_value(&circuit.names, &circuit.values, 'y'), Some(2));
    assert_eq!(extract_value(&circuit.names, &circuit.values, 'z'), Some(0));
    assert_eq!(extract_value(&circuit.names, &circuit.values, 'q'), Some(0));
}

#[test]
fn gates_in_any_order_settle_within_one_pass_each() {
    let circuit = Circuit {
        names: names(&["a", "b", "m", "n", "z1", "z0"]),
        values: vec![Some(true), Some(false), None, None, None, None],
        gates: vec![
            Gate { left: 3, right: 0, out: 4, kind: Operation::And },
            Gate { left: 2, right: 1, out: 3, kind: Operation::Or },
            Gate { left: 0, right: 1, out: 2, kind: Operation::Xor },
            Gate { left: 0, right: 0, out: 5, kind: Operation::Xor },
        ],
    };
    assert_eq!(part1(&circuit), Some(2));
}

#[test]
fn a_circuit_that_never_settles() {
    let circuit = Circuit {
        names: names(&["a", "z0"]),
        values: vec![None, None],
        gates: vec![Gate { left: 0, right: 0, out: 1, kind: Operation::And }],
    };
    assert_eq!(part1(&circuit), None);
    let no_gates = Circuit { names: names(&["z0"]), values: vec![Some(true)], gates: vec![] };
    assert_eq!(part1(&no_gates), Some(1));
}

#[test]
fn wires_are_ordered_by_name() {
    let wire_names = names(&["z10", "z2", "z", "za", "y1", "z1"]);
    let values = vec![Some(true), Some(false), Some(true), None, Some(true), Some(true)];
    assert_eq!(extract_value(&wire_names, &values, 'z'), Some(0b0111));
    let many: Vec<Vec<char>> = (0..65).map(|i| format!("z{:02}", i).chars().collect()).collect();
    let mut ones = vec![Some(false); 65];
    ones[63] = Some(true);
    assert_eq!(extract_value(&many, &ones, 'z'), Some(1 << 63));
    ones[64] = Some(true);
    assert_eq!(extract_value(&many, &ones, 'z'), None);
}
