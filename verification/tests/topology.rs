use rapl_power::rapl::{check_smt, detect_packages, parse_package_id, PackageInfo, RaplError};

fn contents(ids: &[&[u8]]) -> Vec<Vec<u8>> {
    ids.iter().map(|s| s.to_vec()).collect()
}

#[test]
fn thread_count_matches_enumeration() {
    let c = contents(&[b"0\n", b"0\n", b"0\n", b"0\n", b"0\n"]);
    let info = detect_packages(false, &c).unwrap();
    assert_eq!(info.threads(), 5);
}

#[test]
fn empty_topology() {
    let c: Vec<Vec<u8>> = Vec::new();
    let info = detect_packages(false, &c).unwrap();
    assert_eq!(info.threads(), 0);
    assert_eq!(info.cores(), 0);
    assert_eq!(info.packages(), 0);
}

#[test]
fn smt_off_cores_equal_threads() {
    let c = contents(&[b"0\n", b"0\n", b"0\n"]);
    let info = detect_packages(false, &c).unwrap();
    assert_eq!(info.threads(), 3);
    assert_eq!(info.cores(), 3);
}

#[test]
fn smt_on_cores_are_half_rounding_down() {
    let c = contents(&[b"0\n", b"0\n", b"0\n"]);
    let info = detect_packages(true, &c).unwrap();
    assert_eq!(info.threads(), 3);
    assert_eq!(info.cores(), 1);
}

#[test]
fn package_count_is_distinct_ids() {
    let c = contents(&[b"0\n", b"1\n", b"0\n", b"2\n"]);
    let info = detect_packages(false, &c).unwrap();
    assert_eq!(info.threads(), 4);
    assert_eq!(info.packages(), 3);
}

#[test]
fn two_cpus_one_package_smt_off() {
    let c = contents(&[b"0\n", b"0\n"]);
    let info = detect_packages(false, &c).unwrap();
    assert_eq!(info.threads(), 2);
    assert_eq!(info.packages(), 1);
    assert_eq!(info.cores(), 2);
    assert_eq!(info.package_map()[0], Some(2));
}

#[test]
fn four_cpus_two_packages_smt_on() {
    let c = contents(&[b"0\n", b"0\n", b"1\n", b"1\n"]);
    let info = detect_packages(true, &c).unwrap();
    assert_eq!(info.threads(), 4);
    assert_eq!(info.cores(), 2);
    assert_eq!(info.packages(), 2);
    assert_eq!(info.package_map()[0], Some(1));
    assert_eq!(info.package_map()[1], Some(1));
}

#[test]
fn package_map_slots_without_cpus_stay_empty() {
    let c = contents(&[b"0\n", b"0\n"]);
    let info = detect_packages(false, &c).unwrap();
    for p in 1..16 {
        assert_eq!(info.package_map()[p], None);
    }
}

#[test]
fn package_id_beyond_capacity_is_error() {
    let c = contents(&[b"16\n"]);
    assert_eq!(detect_packages(false, &c), Err(RaplError::Capacity));
}

#[test]
fn largest_package_id_fits() {
    let c = contents(&[b"15\n"]);
    let info = detect_packages(false, &c).unwrap();
    assert_eq!(info.packages(), 1);
    assert_eq!(info.package_map()[15], Some(1));
}

#[test]
fn first_failing_file_decides_the_error() {
    let c = contents(&[b"0\n", b"zero\n", &[0xFF]]);
    assert_eq!(detect_packages(false, &c), Err(RaplError::Parse));
}

#[test]
fn parse_plain_decimal() {
    assert_eq!(parse_package_id(&b"3".to_vec()), Ok(3));
    assert_eq!(parse_package_id(&b"12\n".to_vec()), Ok(12));
    assert_eq!(parse_package_id(&b"0 \t\r\n".to_vec()), Ok(0));
}

#[test]
fn parse_rejects_non_numeric() {
    assert_eq!(parse_package_id(&b"abc\n".to_vec()), Err(RaplError::Parse));
    assert_eq!(parse_package_id(&b"3a".to_vec()), Err(RaplError::Parse));
    assert_eq!(parse_package_id(&b"+3".to_vec()), Err(RaplError::Parse));
    assert_eq!(parse_package_id(&b" 3".to_vec()), Err(RaplError::Parse));
}

#[test]
fn parse_rejects_empty_and_whitespace_only() {
    assert_eq!(parse_package_id(&b"".to_vec()), Err(RaplError::Parse));
    assert_eq!(parse_package_id(&b"\n".to_vec()), Err(RaplError::Parse));
    assert_eq!(parse_package_id(&b" \t\r\n".to_vec()), Err(RaplError::Parse));
}

#[test]
fn parse_rejects_overflow() {
    let huge = b"99999999999999999999999999999999\n".to_vec();
    assert_eq!(parse_package_id(&huge), Err(RaplError::Parse));
}

#[test]
fn parse_accepts_usize_max() {
    let max = format!("{}\n", usize::MAX).into_bytes();
    assert_eq!(parse_package_id(&max), Ok(usize::MAX));
    let above = format!("{}0", usize::MAX).into_bytes();
    assert_eq!(parse_package_id(&above), Err(RaplError::Parse));
}

#[test]
fn parse_flags_invalid_utf8() {
    assert_eq!(parse_package_id(&vec![0xFF]), Err(RaplError::Utf8));
    // A lone continuation byte.
    assert_eq!(parse_package_id(&vec![0x80]), Err(RaplError::Utf8));
    // An overlong two-byte encoding of NUL.
    assert_eq!(parse_package_id(&vec![0xC0, 0x80]), Err(RaplError::Utf8));
    // A surrogate code point.
    assert_eq!(parse_package_id(&vec![0xED, 0xA0, 0x80]), Err(RaplError::Utf8));
    // A truncated two-byte sequence.
    assert_eq!(parse_package_id(&vec![0xC3]), Err(RaplError::Utf8));
}

#[test]
fn parse_well_formed_utf8_that_is_not_a_number() {
    // U+00E9, then a four-byte emoji: valid UTF-8, not digits.
    assert_eq!(parse_package_id(&vec![0xC3, 0xA9]), Err(RaplError::Parse));
    assert_eq!(
        parse_package_id(&vec![0xF0, 0x9F, 0x92, 0xA1]),
        Err(RaplError::Parse)
    );
}

#[test]
fn smt_status_one_means_active() {
    assert_eq!(check_smt(&b"1\n".to_vec()), Ok(true));
    assert_eq!(check_smt(&b"1".to_vec()), Ok(true));
}

#[test]
fn smt_status_other_means_inactive() {
    assert_eq!(check_smt(&b"0\n".to_vec()), Ok(false));
    assert_eq!(check_smt(&b"2".to_vec()), Ok(false));
    assert_eq!(check_smt(&b"x".to_vec()), Ok(false));
}

#[test]
fn smt_status_empty_is_error_not_default() {
    assert_eq!(check_smt(&Vec::new()), Err(RaplError::SmtCheck));
}

#[test]
fn full_enumeration_bound() {
    let c: Vec<Vec<u8>> = (0..1024).map(|_| b"0\n".to_vec()).collect();
    let info = detect_packages(false, &c).unwrap();
    assert_eq!(info.threads(), 1024);
    assert_eq!(info.packages(), 1);
    assert_eq!(info.package_map()[0], Some(1024));
}

#[test]
fn default_package_info_is_empty() {
    let info = PackageInfo::default();
    assert!(!info.smt());
    assert_eq!(info.threads(), 0);
    assert_eq!(info.cores(), 0);
    assert_eq!(info.packages(), 0);
    assert_eq!(info.package_map().len(), 16);
    assert!(info.package_map().iter().all(|e| e.is_none()));
}
