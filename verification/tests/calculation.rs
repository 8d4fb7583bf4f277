use tick_tock_tau::model::batch::ByteRange;
use tick_tock_tau::model::intervals::Interval;
use tick_tock_tau::model::{
    bellard_term, calculate_byte_range_from, calculate_byte_range_non_parallel, first_offset,
    skips_convergence_check, MAX_TERMS,
};
use tick_tock_tau::numbers::{BigInt, BigNat};

/// The first bytes of the binary expansion of tau, the integer part first.
const TAU: [u8; 64] = [
    0x06, 0x48, 0x7e, 0xd5, 0x11, 0x0b, 0x46, 0x11, 0xa6, 0x26, 0x33, 0x14, 0x5c, 0x06, 0xe0,
    0xe6, 0x89, 0x48, 0x12, 0x70, 0x44, 0x53, 0x3e, 0x63, 0xa0, 0x10, 0x5d, 0xf5, 0x31, 0xd8,
    0x9c, 0xd9, 0x12, 0x8a, 0x50, 0x43, 0xcc, 0x71, 0xa0, 0x26, 0xef, 0x7c, 0xa8, 0xcd, 0x9e,
    0x69, 0xd2, 0x18, 0xd9, 0x81, 0x58, 0x53, 0x6f, 0x92, 0xf8, 0xa1, 0xba, 0x7f, 0x09, 0xab,
    0x6b, 0x6a, 0x8e, 0x12,
];

#[test]
fn first_sixteen_bytes() {
    let r = calculate_byte_range_non_parallel(&BigNat::from_u64(0), 256, 1, Some(16));
    assert_eq!(r, Ok(TAU[..16].to_vec()));
}

#[test]
fn bytes_from_an_index() {
    let r = calculate_byte_range_non_parallel(&BigNat::from_u64(8), 256, 4, Some(8));
    assert_eq!(r, Ok(TAU[8..16].to_vec()));
}

#[test]
fn bytes_further_on() {
    let r = calculate_byte_range_non_parallel(&BigNat::from_u64(40), 128, 1, Some(5));
    assert_eq!(r, Ok(TAU[40..45].to_vec()));
}

#[test]
fn a_single_byte() {
    let r = calculate_byte_range_non_parallel(&BigNat::from_u64(3), 64, 1, Some(1));
    assert_eq!(r, Ok(vec![0xd5]));
}

#[test]
fn stops_where_the_precision_runs_out() {
    // without a maximum the calculation ends when no further byte can settle.
    let r = calculate_byte_range_non_parallel(&BigNat::from_u64(0), 64, 1, None);
    let bytes = r.expect("a few bytes are certain at 64 bits");
    assert!(!bytes.is_empty());
    assert!(bytes.len() < 16);
    assert_eq!(bytes[..], TAU[..bytes.len()]);
}

#[test]
fn too_few_bytes_is_an_error() {
    let r = calculate_byte_range_non_parallel(&BigNat::from_u64(0), 32, 20, None);
    let partial = r.expect_err("32 bits cannot give 20 bytes");
    assert!(partial.len() < 20);
    assert_eq!(partial[..], TAU[..partial.len()]);
}

#[test]
fn precision_below_two_is_an_error() {
    let r = calculate_byte_range_non_parallel(&BigNat::from_u64(0), 1, 1, None);
    assert_eq!(r, Err(Vec::new()));
    let r = calculate_byte_range_non_parallel(&BigNat::from_u64(5), 0, 0, Some(3));
    assert_eq!(r, Err(Vec::new()));
}

#[test]
fn min_batch_of_zero_accepts_nothing() {
    let r = calculate_byte_range_non_parallel(&BigNat::from_u64(0), 2, 0, None);
    let bytes = r.expect("no bytes are asked for");
    assert_eq!(bytes[..], TAU[..bytes.len()]);
}

#[test]
fn carrying_on_from_summed_terms() {
    // sum the first terms separately, as a parallel caller would, and carry on.
    let start = BigNat::from_u64(16);
    let offset = first_offset(&start);
    let mut acc = Interval::zero();
    let mut n: u64 = 0;
    while n < MAX_TERMS && skips_convergence_check(n, &offset) {
        acc = acc.add(&bellard_term(n, &offset, 256).shl(8));
        n += 1;
    }
    assert!(n > 0);
    let r = calculate_byte_range_from(&start, 256, 1, Some(8), n, acc);
    assert_eq!(r, Ok(TAU[16..24].to_vec()));
}

#[test]
fn stepping_a_byte_range() {
    let mut state = ByteRange::new(&BigNat::from_u64(0), 128, Some(4));
    let mut steps = 0;
    while state.step() {
        steps += 1;
    }
    assert!(state.is_done());
    assert!(steps > 0);
    assert!(state.terms_added() > 0);
    assert_eq!(state.bytes()[..], TAU[..4]);
    assert_eq!(state.into_result(4), Ok(TAU[..4].to_vec()));
}

#[test]
fn the_convergence_check_is_skipped_for_wrapping_terms() {
    let offset = |x: i64| BigInt::from_parts(x < 0, BigNat::from_u64(x.unsigned_abs()));
    assert!(!skips_convergence_check(0, &offset(-8)));
    assert!(skips_convergence_check(0, &BigInt::zero()));
    // at offset 120 term 12 no longer wraps (120 - 5 - 120 + 8 = 3 >= 6 is false)...
    assert!(!skips_convergence_check(12, &offset(120)));
    // ... and term 11 does (120 - 5 - 110 + 8 = 13 >= 6).
    assert!(skips_convergence_check(11, &offset(120)));
    // the offset of byte 16
    assert!(skips_convergence_check(11, &first_offset(&BigNat::from_u64(16))));
}

#[test]
fn calculations_agree_on_common_bytes() {
    let start = BigNat::from_u64(4);
    let coarse = calculate_byte_range_non_parallel(&start, 48, 0, None).expect("nothing is asked");
    let fine = calculate_byte_range_from(&start, 256, 1, Some(12), 0, Interval::zero())
        .expect("256 bits give twelve bytes");
    assert!(!coarse.is_empty());
    let common = coarse.len().min(fine.len());
    assert_eq!(coarse[..common], fine[..common]);
    assert_eq!(fine[..], TAU[4..16]);
}
