use evolution_simulator::simd::{M, LANES};

#[test]
fn masks() {
    assert_eq!(LANES, 16);
    assert_eq!(M::all_set().0, 0xffff);
    assert_eq!(M::none().0, 0);
    assert!(M::all_set().any());
    assert!(!M::none().any());
    assert!(M(0b100).any());
}

#[test]
fn mask_operators_work_lane_by_lane() {
    assert_eq!((M(0b1010) & M(0b0110)).0, 0b0010);
    assert_eq!((M(0b1010) | M(0b0110)).0, 0b1110);
    assert_eq!((!M(0xff00)).0, 0x00ff);
    assert_eq!((!M::none()).0, M::all_set().0);
}
