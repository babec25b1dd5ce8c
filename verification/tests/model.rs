use open_task::model::{Bytes, Hertz, MemorySample, ProcessKey, Tick};
use open_task::paint::Span;

#[test]
fn byte_units_convert_and_saturate() {
    assert_eq!(Bytes::from_kib(3).get(), 3072);
    assert_eq!(Bytes(5).saturating_sub(Bytes(7)), Bytes(0));
    assert_eq!(Bytes(7).saturating_sub(Bytes(5)), Bytes(2));
    assert_eq!(Hertz::from_mhz(2400), Hertz(2_400_000_000));
}

#[test]
fn memory_in_use_is_total_minus_available() {
    let m = MemorySample { total: Bytes(100), available: Bytes(30), ..MemorySample::default() };
    assert_eq!(m.in_use(), Bytes(70));
    let odd = MemorySample { total: Bytes(10), available: Bytes(30), ..MemorySample::default() };
    assert_eq!(odd.in_use(), Bytes(0));
}

#[test]
fn ticks_advance_and_wrap() {
    assert_eq!(Tick(1).next(), Tick(2));
    assert_eq!(Tick(u64::MAX).next(), Tick(0));
}

#[test]
fn the_idle_process_key_is_zero() {
    let k = ProcessKey::idle();
    assert_eq!((k.pid, k.birth.0), (0, 0));
    assert_ne!(ProcessKey::new(5, 1), ProcessKey::new(5, 2));
}

#[test]
fn spans_cover_start_to_end() {
    assert_eq!(Span { start: 3, len: 4 }.range(), 3..7);
}
