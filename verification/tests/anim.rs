use avion_messager::anim::{finished, FLIGHT_MS};

#[test]
fn fini_a_12s() {
    assert!(!finished(11_999));
    assert!(finished(12_000));
}

#[test]
fn flight_lasts_twelve_seconds() {
    assert_eq!(FLIGHT_MS, 12_000);
    assert!(!finished(0));
    assert!(finished(u32::MAX));
}
