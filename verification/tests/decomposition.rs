use zelbet::composer::{StandardComposer, Variable};

/// The 26 radices of the decomposition, least significant position first.
fn radices() -> [u64; 26] {
    [693, 696, 694, 668, 679, 695, 691, 693, 700, 688, 700, 694, 701, 694, 699, 701, 701, 701, 695, 698, 697, 703, 702, 691, 688, 703]
}

/// The transformed (Montgomery) modular inverses of the radices.
fn inverses() -> [[u64; 4]; 26] {
    [
        [0x8dda520142dce7fe, 0x8abb116873fcf482, 0xaf45a9cbd57bf173, 0x6f1ca67d3fc3e1b2],
        [0x234f72c1eb66fd0f, 0x3b5fb099dfa15e1d, 0xa4ca0048ee2b9077, 0x21ae38e8d11b99b3],
        [0x0a541a8e2e7a7785, 0xb04c29aeb92b74f1, 0xb397e4a9e13d08cd, 0x6d9d8eecfc6d4fb2],
        [0xb1d20310db35a717, 0xb9fc8969ca58e67d, 0xe1a5e73bd522b194, 0x0113d17b21f94743],
        [0x516ff9f77662c7d3, 0xc1c7e8e473bec0c5, 0x26767e04371fc9cb, 0x1c8c51c1a3f05b25],
        [0xa798dd012769b712, 0x30c10c3e78d0177d, 0x4c7c80b070b54c02, 0x5019b0983ad37400],
        [0x5f954d6d640768d9, 0x930bead0a6571f31, 0x4584aabaafda9b29, 0x4ab12e837c7c4e77],
        [0x8dda520142dce7fe, 0x8abb116873fcf482, 0xaf45a9cbd57bf173, 0x6f1ca67d3fc3e1b2],
        [0x3a83a83a30463797, 0x71958a4444c09011, 0x7428c88f0d6099be, 0x26200f00c17c707c],
        [0x7d05f41747711dc5, 0x4a8f1c313b880d7c, 0x451308638e15144a, 0x3e61597fd4c55ad3],
        [0x3a83a83a30463797, 0x71958a4444c09011, 0x7428c88f0d6099be, 0x26200f00c17c707c],
        [0x0a541a8e2e7a7785, 0xb04c29aeb92b74f1, 0xb397e4a9e13d08cd, 0x6d9d8eecfc6d4fb2],
        [0xcaae8fe21701d373, 0xce145d2065276586, 0x6b87dda8d3331586, 0x50e733f867c684af],
        [0x0a541a8e2e7a7785, 0xb04c29aeb92b74f1, 0xb397e4a9e13d08cd, 0x6d9d8eecfc6d4fb2],
        [0x02328a6fccba0c74, 0xa55aecc0b71df4da, 0x0dc70adbb4f2c312, 0x1f8bbabca38c24a0],
        [0xcaae8fe21701d373, 0xce145d2065276586, 0x6b87dda8d3331586, 0x50e733f867c684af],
        [0xcaae8fe21701d373, 0xce145d2065276586, 0x6b87dda8d3331586, 0x50e733f867c684af],
        [0xcaae8fe21701d373, 0xce145d2065276586, 0x6b87dda8d3331586, 0x50e733f867c684af],
        [0xa798dd012769b712, 0x30c10c3e78d0177d, 0x4c7c80b070b54c02, 0x5019b0983ad37400],
        [0xcbeb76181834d053, 0x9c9b29cf30683d9f, 0x1317f438ac7387a6, 0x625b963cc259d7ed],
        [0x7063e705df4fb39b, 0x75101c41c1ed06a3, 0x23902b2df59f4ecd, 0x2b72053f3955b383],
        [0x7d44d3357fd1636a, 0x3c856372cd61e7ee, 0x76dc4d68090a86f1, 0x03fdf820768f4e92],
        [0xd43d43d3a7bfd153, 0xd732f3d8e8a83ff0, 0x247b7e2c14366903, 0x4412756aeb15f6c1],
        [0x5f954d6d640768d9, 0x930bead0a6571f31, 0x4584aabaafda9b29, 0x4ab12e837c7c4e77],
        [0x7d05f41747711dc5, 0x4a8f1c313b880d7c, 0x451308638e15144a, 0x3e61597fd4c55ad3],
        [0x7d44d3357fd1636a, 0x3c856372cd61e7ee, 0x76dc4d68090a86f1, 0x03fdf820768f4e92],
    ]
}

/// Allocate the radix wires, one per radix, plus the unused 27th slot.
fn radix_wires(composer: &mut StandardComposer) -> [Variable; 27] {
    let rad = radices();
    let one = composer.add_input([1, 0, 0, 0]);
    let mut s_i_decomposition = [one; 27];
    for k in 0..26 {
        s_i_decomposition[k] = composer.add_input([rad[k], 0, 0, 0]);
    }
    s_i_decomposition
}

#[test]
fn test_decomposition() {
    let mut composer = StandardComposer::new();
    let one = composer.add_input([1, 0, 0, 0]);
    let s_i_decomposition = radix_wires(&mut composer);
    let output = composer.decomposition_gadget(one, s_i_decomposition, &radices(), &inverses());
    for k in 1..27 {
        composer.constrain_to_constant(output[k], [0, 0, 0, 0]);
    }
    // Check x_27 = 1: the first entry carries the whole of a small value.
    composer.constrain_to_constant(output[0], [1, 0, 0, 0]);

    let minus_three = composer.add_input([
        0xfffffffefffffffe,
        0x53bda402fffe5bfe,
        0x3339d80809a1d805,
        0x73eda753299d7d48,
    ]);
    let output2 =
        composer.decomposition_gadget(minus_three, s_i_decomposition, &radices(), &inverses());
    let expected_output: [u64; 27] = [
        658, 660, 673, 663, 674, 682, 687, 683, 669, 684, 672, 666, 680, 662, 686, 668, 661,
        678, 692, 686, 689, 660, 690, 687, 683, 674, 678,
    ];
    for k in 0..27 {
        composer.constrain_to_constant(output2[k], [expected_output[k], 0, 0, 0]);
    }
    assert!(composer.satisfied());
}

#[test]
fn test_decomposition_of_zero() {
    let mut composer = StandardComposer::new();
    let zero = composer.add_input([0, 0, 0, 0]);
    let s_i_decomposition = radix_wires(&mut composer);
    let output = composer.decomposition_gadget(zero, s_i_decomposition, &radices(), &inverses());
    for k in 0..27 {
        assert_eq!(composer.canonical_value_of(output[k]), [0, 0, 0, 0]);
    }
    assert!(composer.satisfied());
}

#[test]
fn test_digit_bounds_at_maximum_input() {
    // The largest field element: every digit stays below its radix, and the
    // top digit is the modulus divided by the product of all radices.
    let mut composer = StandardComposer::new();
    let p_minus_one = composer.add_input([
        0xffffffff00000000,
        0x53bda402fffe5bfe,
        0x3339d80809a1d805,
        0x73eda753299d7d48,
    ]);
    let s_i_decomposition = radix_wires(&mut composer);
    let output =
        composer.decomposition_gadget(p_minus_one, s_i_decomposition, &radices(), &inverses());
    let rad = radices();
    let expected: [u64; 27] = [
        660, 660, 673, 663, 674, 682, 687, 683, 669, 684, 672, 666, 680, 662, 686, 668, 661,
        678, 692, 686, 689, 660, 690, 687, 683, 674, 678,
    ];
    for k in 0..27 {
        let digit = composer.canonical_value_of(output[k]);
        assert_eq!(digit, [expected[k], 0, 0, 0]);
        if k < 26 {
            assert!(digit[0] < rad[k]);
        }
    }
    assert!(composer.satisfied());
}

#[test]
fn test_mul_add_gate_uses_field_arithmetic() {
    // 2^64 * 3 + 5: the product crosses a limb boundary, so an
    // implementation that mishandled the transformed encoding would not
    // return these limbs.
    let mut composer = StandardComposer::new();
    let a = composer.add_input([0, 1, 0, 0]);
    let b = composer.add_input([3, 0, 0, 0]);
    let d = composer.add_input([5, 0, 0, 0]);
    let r = composer.big_mul(a, b, d);
    assert_eq!(composer.canonical_value_of(r), [5, 3, 0, 0]);
    assert!(composer.satisfied());
}

#[test]
fn test_recomposition_constraint_fails_on_forged_constant() {
    // Tying a digit wire to a wrong constant must leave the system
    // unsatisfiable.
    let mut composer = StandardComposer::new();
    let one = composer.add_input([1, 0, 0, 0]);
    let s_i_decomposition = radix_wires(&mut composer);
    let output = composer.decomposition_gadget(one, s_i_decomposition, &radices(), &inverses());
    composer.constrain_to_constant(output[0], [2, 0, 0, 0]);
    assert!(!composer.satisfied());
}
