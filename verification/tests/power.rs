use rapl_power::rapl::{
    detect_packages, energy_exponent, energy_multiplier_denom, flatten_core_powers,
    package_core_units, power_units, register_value, sample_ranges, sum_units, AmdUnitMasks,
    MsrFields,
};

#[test]
fn register_addresses() {
    assert_eq!(MsrFields::PowerUnit.address(), 0xC0010299);
    assert_eq!(MsrFields::CoreEnergy.address(), 0xC001029A);
    assert_eq!(MsrFields::PackageEnergy.address(), 0xC001029B);
}

#[test]
fn energy_field_mask_and_shift() {
    assert_eq!(AmdUnitMasks::Energy.mask(), 0x1F00);
    assert_eq!(AmdUnitMasks::Energy.shift(), 8);
}

#[test]
fn register_value_is_little_endian() {
    let bytes = vec![0x78, 0x56, 0x34, 0x12, 0x00, 0x00, 0x00, 0x00];
    assert_eq!(register_value(&bytes), 0x12345678);
    let ones = vec![0xFF; 8];
    assert_eq!(register_value(&ones), u64::MAX);
    let one = vec![0x01, 0, 0, 0, 0, 0, 0, 0];
    assert_eq!(register_value(&one), 1);
    let top = vec![0, 0, 0, 0, 0, 0, 0, 0x80];
    assert_eq!(register_value(&top), 1u64 << 63);
}

#[test]
fn exponent_comes_from_bits_8_to_12() {
    let unit = 16u64 << 8;
    assert_eq!(energy_exponent(unit), 16);
    // Bits outside the field are ignored.
    assert_eq!(energy_exponent(0xFFFF_FFFF), 0x1F);
    assert_eq!(energy_exponent(0), 0);
}

#[test]
fn multiplier_is_exact_power_of_two() {
    let unit = 16u64 << 8;
    let denom = energy_multiplier_denom(unit);
    assert_eq!(denom, 65536);
    let multiplier = 1.0f64 / denom as f64;
    assert_eq!(multiplier, 0.5f64.powi(16));
    assert_eq!(multiplier, 1.0 / 65536.0);
}

#[test]
fn power_from_two_samples() {
    // Raw energy readings 100 and 150: the scaled power is the delta times
    // ten; in watts that is (150 - 100) * multiplier * 10.
    let units = power_units(100, 150);
    assert_eq!(units, 500);
    let denom = energy_multiplier_denom(16u64 << 8);
    let multiplier = 1.0f64 / denom as f64;
    let watts = units as f64 / denom as f64;
    assert_eq!(watts, (150.0 - 100.0) * multiplier * 10.0);
}

#[test]
fn wrapped_counter_yields_negative_power() {
    // A counter wraparound between the snapshots is not corrected.
    assert_eq!(power_units(150, 100), -500);
}

#[test]
fn per_core_units_of_one_package() {
    let t0 = vec![100u64, 200, 300];
    let t1 = vec![150u64, 260, 370];
    assert_eq!(package_core_units(&t0, &t1), vec![500, 600, 700]);
}

#[test]
fn ranges_advance_by_core_count_without_smt() {
    let c: Vec<Vec<u8>> = [b"0\n", b"0\n", b"1\n", b"1\n"].iter().map(|s| s.to_vec()).collect();
    let info = detect_packages(false, &c).unwrap();
    let ranges = sample_ranges(&info);
    assert_eq!(ranges, vec![(0, 2), (2, 2)]);
}

#[test]
fn ranges_advance_by_twice_the_core_count_with_smt() {
    let c: Vec<Vec<u8>> = [b"0\n", b"0\n", b"1\n", b"1\n"].iter().map(|s| s.to_vec()).collect();
    let info = detect_packages(true, &c).unwrap();
    let ranges = sample_ranges(&info);
    assert_eq!(ranges, vec![(0, 1), (2, 1)]);
}

#[test]
fn flatten_keeps_package_and_core_order() {
    let lists = vec![vec![1i128, 2], vec![3i128], vec![], vec![4i128, 5]];
    assert_eq!(flatten_core_powers(&lists), vec![1, 2, 3, 4, 5]);
}

#[test]
fn sums_of_power_figures() {
    assert_eq!(sum_units(&vec![1i128, 2, 3]), 6);
    assert_eq!(sum_units(&vec![500i128, -500, 42]), 42);
    assert_eq!(sum_units(&Vec::new()), 0);
}

#[test]
fn report_lengths_match_topology() {
    // End to end without the device reads: four CPUs on two packages.
    let c: Vec<Vec<u8>> = [b"0\n", b"0\n", b"1\n", b"1\n"].iter().map(|s| s.to_vec()).collect();
    let info = detect_packages(false, &c).unwrap();
    let ranges = sample_ranges(&info);
    let mut per_package: Vec<Vec<i128>> = Vec::new();
    let mut package_units: Vec<i128> = Vec::new();
    for (_, count) in ranges.iter() {
        let t0: Vec<u64> = vec![100; *count];
        let t1: Vec<u64> = vec![150; *count];
        per_package.push(package_core_units(&t0, &t1));
        package_units.push(power_units(1000, 1800));
    }
    let core_units = flatten_core_powers(&per_package);
    assert_eq!(core_units.len(), info.cores());
    assert_eq!(package_units.len(), info.packages());
    assert_eq!(sum_units(&core_units), 4 * 500);
    assert_eq!(sum_units(&package_units), 2 * 8000);
}

#[test]
fn report_lengths_match_topology_with_smt() {
    let c: Vec<Vec<u8>> = [b"0\n", b"0\n", b"1\n", b"1\n"].iter().map(|s| s.to_vec()).collect();
    let info = detect_packages(true, &c).unwrap();
    let ranges = sample_ranges(&info);
    let mut per_package: Vec<Vec<i128>> = Vec::new();
    for (_, count) in ranges.iter() {
        per_package.push(vec![500i128; *count]);
    }
    let core_units = flatten_core_powers(&per_package);
    assert_eq!(core_units.len(), info.cores());
    assert_eq!(ranges.len(), info.packages());
}
