use zelbet::composer::{LookupRow, StandardComposer};

/// The modulus's own 27 digits, most significant position first.
fn reference_digits() -> [u64; 27] {
    [
        678, 674, 683, 687, 690, 660, 689, 686, 692, 678, 661, 668, 686, 662, 680, 666, 672,
        684, 669, 683, 687, 682, 674, 663, 673, 660, 661,
    ]
}

fn row(a: u64, b: u64, c: u64, d: u64) -> LookupRow {
    LookupRow {
        c0: [a, 0, 0, 0],
        c1: [b, 0, 0, 0],
        c2: [c, 0, 0, 0],
        c3: [d, 0, 0, 0],
    }
}

/// A substitution table over [0, 659) whose row for input 1 is 187.
fn sbox_table() -> Vec<u64> {
    let mut t = vec![0u64; 659];
    t[1] = 187;
    t
}

#[test]
fn test_s_box_and_constraints() {
    let mut composer = StandardComposer::new();
    let rows = vec![
        row(700, 2, 700, 2),
        row(1, 0, 187, 1),
        row(659, 2, 659, 1),
        row(659, 1, 659, 1),
    ];
    assert!(composer.append_lookup_table(rows));
    let sbox = sbox_table();
    let refs = reference_digits();
    let seven_hundred = composer.add_input([700, 0, 0, 0]);
    let one = composer.add_input([1, 0, 0, 0]);
    let two = composer.add_input([2, 0, 0, 0]);
    let prime = composer.add_input([659, 0, 0, 0]);
    let counter: u64 = 1;
    let counter2: u64 = 2;
    let conditional = true;
    let output_700 =
        composer.s_box_and_constraints(seven_hundred, counter2, conditional, one, two, &sbox, &refs);
    let output_one =
        composer.s_box_and_constraints(one, counter, conditional, one, two, &sbox, &refs);
    let output_prime =
        composer.s_box_and_constraints(prime, counter2, conditional, one, two, &sbox, &refs);
    let output_prime_false =
        composer.s_box_and_constraints(prime, counter, false, one, two, &sbox, &refs);

    // Check that the s-box works as expected
    composer.constrain_to_constant(output_700.0, [700, 0, 0, 0]);
    composer.constrain_to_constant(output_one.0, [187, 0, 0, 0]);
    composer.constrain_to_constant(output_prime.0, [659, 0, 0, 0]);

    for _k in 0..1100 {
        composer.plookup_gate(prime, one, prime, one);
    }

    // Check that the c_i are output as expected
    assert_eq!(composer.canonical_value_of(output_700.1), [2, 0, 0, 0]);
    assert_eq!(composer.canonical_value_of(output_one.1), [1, 0, 0, 0]);
    assert_eq!(composer.canonical_value_of(output_prime.1), [1, 0, 0, 0]);
    assert_eq!(composer.canonical_value_of(output_prime_false.1), [1, 0, 0, 0]);

    // Check that the counter is output correctly
    assert!(output_700.2);
    assert!(output_one.2);
    assert!(output_prime.2);
    assert!(!output_prime_false.2);

    // Check that z_i is output correctly
    assert_eq!(composer.canonical_value_of(output_700.3), [1, 0, 0, 0]);
    assert_eq!(composer.canonical_value_of(output_one.3), [0, 0, 0, 0]);
    assert_eq!(composer.canonical_value_of(output_prime.3), [1, 0, 0, 0]);
    assert_eq!(composer.canonical_value_of(output_prime_false.3), [1, 0, 0, 0]);

    assert!(composer.satisfied());
}

#[test]
fn test_s_box_and_constraints_fails() {
    let mut composer = StandardComposer::new();
    let rows = vec![row(659, 1, 659, 1), row(659, 100, 659, 100)];
    assert!(composer.append_lookup_table(rows));
    let sbox = sbox_table();
    let refs = reference_digits();
    let one_hundred = composer.add_input([100, 0, 0, 0]);
    let two = composer.add_input([2, 0, 0, 0]);
    let counter: u64 = 1;
    let conditional = true;
    let output = composer.s_box_and_constraints(
        one_hundred,
        counter,
        conditional,
        one_hundred,
        two,
        &sbox,
        &refs,
    );
    composer.constrain_to_constant(output.0, [200, 0, 0, 0]);
    composer.constrain_to_constant(output.0, [200, 0, 0, 0]);
    composer.constrain_to_constant(output.0, [200, 0, 0, 0]);

    let prime = composer.add_input([659, 0, 0, 0]);
    for _k in 0..1100 {
        composer.plookup_gate(prime, one_hundred, prime, one_hundred);
    }
    assert!(!composer.satisfied());
}

#[test]
fn test_substituted_digit_hits_its_table_row() {
    // A substituted digit's gate must miss a table whose row for that digit
    // differs, so a substitution that handed the digit back unchanged would
    // be caught.
    let mut composer = StandardComposer::new();
    let rows = vec![row(1, 0, 1, 1)];
    assert!(composer.append_lookup_table(rows));
    let sbox = sbox_table();
    let refs = reference_digits();
    let one = composer.add_input([1, 0, 0, 0]);
    let two = composer.add_input([2, 0, 0, 0]);
    let output = composer.s_box_and_constraints(one, 1, true, one, two, &sbox, &refs);
    assert_eq!(composer.canonical_value_of(output.0), [187, 0, 0, 0]);
    assert!(!composer.satisfied());
}

#[test]
fn test_lookup_table_registration_is_rejected_twice() {
    let mut composer = StandardComposer::new();
    let first = vec![row(659, 1, 659, 1)];
    let second = vec![row(1, 1, 1, 1)];
    assert!(composer.append_lookup_table(first));
    assert!(!composer.append_lookup_table(second));
    // Gates still check against the first table.
    let prime = composer.add_input([659, 0, 0, 0]);
    let one = composer.add_input([1, 0, 0, 0]);
    composer.plookup_gate(prime, one, prime, one);
    assert!(composer.satisfied());
    composer.plookup_gate(one, one, one, one);
    assert!(!composer.satisfied());
}
