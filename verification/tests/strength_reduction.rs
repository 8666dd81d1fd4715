use transpose::strength_reduction::StrengthReducedUsize;

fn boundary_divisors() -> Vec<usize> {
    (1..20)
        .chain([std::usize::MAX - 1, std::usize::MAX].iter().map(|item| *item))
        .collect()
}

fn boundary_numerators() -> Vec<usize> {
    (0..20)
        .chain([std::usize::MAX - 1, std::usize::MAX].iter().map(|item| *item))
        .collect()
}

#[test]
fn test_strength_reduced_div() {
    let divisors: Vec<usize> = boundary_divisors();
    let numerators: Vec<usize> = boundary_numerators();

    for &divisor in &divisors {
        let reduced_divisor = StrengthReducedUsize::new(divisor);
        for &numerator in &numerators {
            let expected_div = numerator / divisor;
            let reduced_div = numerator / reduced_divisor;

            assert_eq!(
                expected_div, reduced_div,
                "Failed with numerator: {}, divisor: {}",
                numerator, divisor
            );
        }
    }
}

#[test]
fn test_strength_reduced_rem() {
    let divisors: Vec<usize> = boundary_divisors();
    let numerators: Vec<usize> = boundary_numerators();

    for &divisor in &divisors {
        let reduced_divisor = StrengthReducedUsize::new(divisor);
        for &numerator in &numerators {
            let expected_rem = numerator % divisor;
            let reduced_rem = numerator % reduced_divisor;

            assert_eq!(
                expected_rem, reduced_rem,
                "Failed with numerator: {}, divisor: {}",
                numerator, divisor
            );
        }
    }
}

#[test]
fn test_strength_reduced_div_rem() {
    let divisors: Vec<usize> = boundary_divisors();
    let numerators: Vec<usize> = boundary_numerators();

    for &divisor in &divisors {
        let reduced_divisor = StrengthReducedUsize::new(divisor);
        for &numerator in &numerators {
            let (reduced_div, reduced_rem) =
                StrengthReducedUsize::div_rem(numerator, reduced_divisor);
            let (expected_div, expected_rem) = num_integer::div_rem(numerator, divisor);

            assert_eq!(
                expected_div, reduced_div,
                "Failed with numerator: {}, divisor: {}",
                numerator, divisor
            );
            assert_eq!(
                expected_rem, reduced_rem,
                "Failed with numerator: {}, divisor: {}",
                numerator, divisor
            );
        }
    }
}

#[test]
fn twenty_is_divided_and_divides() {
    let twenty = StrengthReducedUsize::new(20);
    for &numerator in &[0usize, 19, 20, 21, 39, 40, 399, 400, std::usize::MAX] {
        assert_eq!(numerator / twenty, numerator / 20);
        assert_eq!(numerator % twenty, numerator % 20);
    }
    for divisor in 1..=20usize {
        let reduced = StrengthReducedUsize::new(divisor);
        assert_eq!(20 / reduced, 20 / divisor);
        assert_eq!(20 % reduced, 20 % divisor);
    }
}

#[test]
fn get_returns_the_divisor() {
    for &divisor in &[1usize, 2, 3, 16, 17, 1000, std::usize::MAX] {
        assert_eq!(StrengthReducedUsize::new(divisor).get(), divisor);
    }
}

#[test]
fn a_copy_divides_alike() {
    let reduced = StrengthReducedUsize::new(12);
    let copy = reduced;
    let clone = reduced.clone();
    assert_eq!(100 / reduced, 8);
    assert_eq!(100 / copy, 8);
    assert_eq!(100 / clone, 8);
    assert_eq!(clone.get(), 12);
}

#[test]
fn exact_values() {
    let seven = StrengthReducedUsize::new(7);
    assert_eq!(0 / seven, 0);
    assert_eq!(6 / seven, 0);
    assert_eq!(7 / seven, 1);
    assert_eq!(1_000_000 / seven, 142_857);
    assert_eq!(1_000_000 % seven, 1);
    assert_eq!(StrengthReducedUsize::div_rem(1_000_000, seven), (142_857, 1));

    let thousand = StrengthReducedUsize::new(1000);
    assert_eq!(StrengthReducedUsize::div_rem(123_456_789, thousand), (123_456, 789));
}

#[test]
fn divisor_one_is_the_identity() {
    let one = StrengthReducedUsize::new(1);
    for &numerator in &[0usize, 1, 2, 12345, std::usize::MAX - 1, std::usize::MAX] {
        assert_eq!(numerator / one, numerator);
        assert_eq!(numerator % one, 0);
        assert_eq!(StrengthReducedUsize::div_rem(numerator, one), (numerator, 0));
    }
}

#[test]
fn powers_of_two_divide_every_numerator() {
    let mut numerators: Vec<usize> = vec![0, 1, 2, 3, std::usize::MAX - 2, std::usize::MAX - 1, std::usize::MAX];
    for bit in 0..usize::BITS {
        let power = 1usize << bit;
        numerators.push(power);
        numerators.push(power - 1);
        numerators.push(power.wrapping_add(1));
        numerators.push(std::usize::MAX - power);
    }

    for bit in 0..usize::BITS {
        let divisor = 1usize << bit;
        let reduced = StrengthReducedUsize::new(divisor);
        for &numerator in &numerators {
            assert_eq!(
                numerator / reduced,
                numerator / divisor,
                "numerator: {}, divisor: {}",
                numerator,
                divisor
            );
            assert_eq!(
                numerator % reduced,
                numerator % divisor,
                "numerator: {}, divisor: {}",
                numerator,
                divisor
            );
            assert_eq!(
                StrengthReducedUsize::div_rem(numerator, reduced),
                (numerator / divisor, numerator % divisor)
            );
        }
    }
}

#[test]
fn neighbours_of_powers_of_two_divide_small_numerators() {
    for bit in 1..usize::BITS {
        let power = 1usize << bit;
        for &divisor in &[power - 1, power.wrapping_add(1)] {
            if divisor == 0 {
                continue;
            }
            let reduced = StrengthReducedUsize::new(divisor);
            for numerator in 0..200usize {
                assert_eq!(numerator / reduced, numerator / divisor);
                assert_eq!(numerator % reduced, numerator % divisor);
            }
        }
    }
}

#[test]
fn numerators_in_the_lower_half_are_divided_exactly() {
    let half = std::usize::MAX / 2;
    let divisors = [3usize, 5, 6, 7, 9, 10, 11, 13, 15, 641, 65_537, half, std::usize::MAX];
    for &divisor in &divisors {
        let reduced = StrengthReducedUsize::new(divisor);
        let last_residue = half - (half % divisor + 1) % divisor;
        for &numerator in &[half, half - 1, half - 6, last_residue, divisor - 1, divisor] {
            if numerator > half {
                continue;
            }
            assert_eq!(
                numerator / reduced,
                numerator / divisor,
                "numerator: {}, divisor: {}",
                numerator,
                divisor
            );
            assert_eq!(numerator % reduced, numerator % divisor);
        }
    }
}

#[test]
fn large_numerators_with_the_largest_remainder() {
    let seven = StrengthReducedUsize::new(7);
    let numerator = std::usize::MAX - 2;
    assert_eq!(numerator / seven, numerator / 7);
    assert_eq!(numerator % seven, numerator % 7);
    assert_eq!(
        StrengthReducedUsize::div_rem(numerator, seven),
        (numerator / 7, numerator % 7)
    );
    if usize::BITS == 64 {
        assert_eq!(numerator % 7, 6);
        assert_eq!(numerator / seven, 2_635_249_153_387_078_801);
        assert_eq!(numerator % seven, 6);
    }

    let last_but_one = StrengthReducedUsize::new(std::usize::MAX - 1);
    assert_eq!(numerator / last_but_one, 0);
    assert_eq!(numerator % last_but_one, numerator);
    assert_eq!(StrengthReducedUsize::div_rem(numerator, last_but_one), (0, numerator));
}

#[test]
fn every_remainder_of_the_largest_numerators() {
    let mut divisors: Vec<usize> = (1..300).collect();
    for bit in 1..usize::BITS {
        let power = 1usize << bit;
        for offset in 0..4usize {
            divisors.push(power - offset);
            divisors.push(power.wrapping_add(offset));
        }
    }
    for back in 0..40usize {
        divisors.push(std::usize::MAX - back);
        divisors.push(std::usize::MAX / 3 - back);
        divisors.push(std::usize::MAX / 7 + back);
    }

    for &divisor in &divisors {
        if divisor == 0 {
            continue;
        }
        let reduced = StrengthReducedUsize::new(divisor);
        let largest_multiple = std::usize::MAX - std::usize::MAX % divisor;
        let mut numerators: Vec<usize> = vec![largest_multiple, largest_multiple - 1];
        for back in 0..40usize {
            numerators.push(std::usize::MAX - back);
        }
        for &numerator in &numerators {
            assert_eq!(
                numerator / reduced,
                numerator / divisor,
                "numerator: {}, divisor: {}",
                numerator,
                divisor
            );
            assert_eq!(
                numerator % reduced,
                numerator % divisor,
                "numerator: {}, divisor: {}",
                numerator,
                divisor
            );
            assert_eq!(
                StrengthReducedUsize::div_rem(numerator, reduced),
                (numerator / divisor, numerator % divisor)
            );
        }
    }
}

#[test]
fn quotient_and_remainder_give_the_numerator_back() {
    for &divisor in &[1usize, 3, 7, 10, 4096, 65_537, std::usize::MAX / 5, std::usize::MAX] {
        let reduced = StrengthReducedUsize::new(divisor);
        for back in 0..70usize {
            let numerator = std::usize::MAX - back;
            let (quotient, remainder) = StrengthReducedUsize::div_rem(numerator, reduced);
            assert!(remainder < divisor);
            assert_eq!(quotient * divisor + remainder, numerator);
            assert_eq!(quotient, numerator / reduced);
            assert_eq!(remainder, numerator % reduced);
            assert_eq!(reduced.get(), divisor);
        }
    }
}
