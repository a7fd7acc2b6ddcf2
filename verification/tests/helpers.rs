use zc_ring_x1::checksum::checksum;
use zc_ring_x1::cpus::{default_base_cpu, is_primary_cpu, parse_cpu_list, quiet_first, placement_partners};
use zc_ring_x1::text::commas;

fn commas_str(n: u64) -> String {
    String::from_utf8(commas(n)).unwrap()
}

#[test]
fn commas_group_thousands() {
    assert_eq!(commas_str(0), "0");
    assert_eq!(commas_str(7), "7");
    assert_eq!(commas_str(999), "999");
    assert_eq!(commas_str(1000), "1,000");
    assert_eq!(commas_str(1_234_567), "1,234,567");
    assert_eq!(commas_str(100_000_001), "100,000,001");
    assert_eq!(commas_str(u64::MAX), "18,446,744,073,709,551,615");
}

#[test]
fn checksum_is_fnv1a_of_the_le_bytes() {
    assert_eq!(checksum(0), 0xa8c7_f832_281a_39c5);
    assert_eq!(checksum(42), 0xff3a_dd6b_3789_daef);
    assert_eq!(checksum(0x0123_4567_89ab_cdef), 0x37eb_3f33_4776_1c55);
    assert_ne!(checksum(1), checksum(1 << 8));
}

#[test]
fn cpu_lists_parse_as_sysfs_writes_them() {
    assert_eq!(parse_cpu_list("0,12"), [0, 12]);
    assert_eq!(parse_cpu_list("0-2,6"), [0, 1, 2, 6]);
    assert_eq!(parse_cpu_list("  3\n"), [3]);
    assert_eq!(parse_cpu_list("\u{a0}4-5\u{3000}"), [4, 5]);
    assert_eq!(parse_cpu_list(""), Vec::<usize>::new());
    // Malformed pieces are skipped; a reversed range is empty.
    assert_eq!(parse_cpu_list("1,x,3-,5-4,7"), [1, 7]);
    assert_eq!(parse_cpu_list("+2,- 3,8"), [2, 8]);
    assert_eq!(parse_cpu_list("99999999999999999999999,1"), [1]);
    assert_eq!(parse_cpu_list("1-3-4,9"), [9]);
    // Pieces are not trimmed one by one.
    assert_eq!(parse_cpu_list(" 1 , 2 "), Vec::<usize>::new());
}

#[test]
fn primary_cpu_is_the_lowest_sibling() {
    assert!(is_primary_cpu(0, &[0, 12]));
    assert!(!is_primary_cpu(12, &[0, 12]));
    // Unreadable siblings: the cpu alone.
    assert!(is_primary_cpu(5, &[]));
    // A list that does not name the cpu.
    assert!(!is_primary_cpu(5, &[6, 7]));
}

#[test]
fn default_base_cpu_is_the_highest_primary() {
    let cpus = [(0, true), (1, true), (12, false), (13, false), (11, true), (23, false)];
    assert_eq!(default_base_cpu(&cpus), 11);
    assert_eq!(default_base_cpu(&[(3, false)]), 0);
    assert_eq!(default_base_cpu(&[]), 0);
}

#[test]
fn quiet_first_puts_primaries_first_highest_first() {
    let cpus = [(0, true), (12, false), (1, true), (13, false), (11, true), (23, false)];
    assert_eq!(quiet_first(&cpus), [11, 1, 0, 23, 13, 12]);
    assert_eq!(quiet_first(&[]), Vec::<usize>::new());
    assert_eq!(quiet_first(&[(4, false), (4, false), (2, true)]), [2, 4, 4]);
}

#[test]
fn placement_partners_pick_ccx_cross_ccx_and_smt() {
    // Two CCXs of two cores each, SMT pairs (n, n + 4): cpus 0-1 and
    // 4-5 share one L3, 2-3 and 6-7 the other. Base 1, sibling 5.
    let primary = |c: usize| (c, c < 4);
    let l3: Vec<(usize, bool)> = [0, 1, 4, 5].iter().map(|&c| primary(c)).collect();
    let online: Vec<(usize, bool)> = (0..8).map(primary).collect();
    let (ccx, xccx, smt) = placement_partners(1, &[1, 5], &l3, &online);
    // CCX: the quietest L3 cpu that is neither 1 nor 5: primary 0.
    assert_eq!(ccx, Some(0));
    // x-CCX: the quietest online cpu outside the L3: primary 3.
    assert_eq!(xccx, Some(3));
    // SMT: the sibling that is not the base.
    assert_eq!(smt, Some(5));
}

#[test]
fn placement_partners_absent_on_a_single_core() {
    // One core, no SMT: nothing to pair with.
    let (ccx, xccx, smt) = placement_partners(0, &[0], &[(0, true)], &[(0, true)]);
    assert_eq!((ccx, xccx, smt), (None, None, None));
}
