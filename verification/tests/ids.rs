//! Identifiers and their counters.

use art_junk::ids::{IdCounter, LayerId, StrokeId};

#[test]
fn next_returns_strictly_increasing_ids() {
    let mut ids = IdCounter::new();
    let a = LayerId::next(&mut ids);
    let b = LayerId::next(&mut ids);
    assert!(b.raw() > a.raw());
}

#[test]
fn next_never_returns_zero() {
    let mut ids = IdCounter::new();
    for _ in 0..16 {
        assert!(LayerId::next(&mut ids).raw() >= 1);
    }
}

#[test]
fn bump_to_advances_counter_when_behind() {
    let mut ids = IdCounter::new();
    LayerId::bump_to(&mut ids, 100_000);
    let id = LayerId::next(&mut ids);
    assert!(id.raw() > 100_000);
}

#[test]
fn bump_to_is_no_op_when_already_ahead() {
    let mut ids = IdCounter::new();
    LayerId::bump_to(&mut ids, 50);
    let _ = LayerId::next(&mut ids);
    let high = LayerId::next(&mut ids);
    LayerId::bump_to(&mut ids, 10);
    let after = LayerId::next(&mut ids);
    assert!(after.raw() > high.raw());
}

#[test]
fn counters_start_at_one_and_count_on() {
    let mut ids = IdCounter::new();
    assert_eq!(LayerId::next(&mut ids).raw(), 1);
    assert_eq!(LayerId::next(&mut ids).raw(), 2);
    assert_eq!(StrokeId::next(&mut ids), StrokeId(3));
    StrokeId::bump_to(&mut ids, 9);
    assert_eq!(StrokeId::next(&mut ids), StrokeId(10));
}

#[test]
fn counters_come_to_an_end() {
    let mut ids = IdCounter::new();
    assert!(ids.lasts());
    StrokeId::bump_to(&mut ids, u64::MAX - 2);
    assert!(ids.lasts());
    assert_eq!(StrokeId::next(&mut ids), StrokeId(u64::MAX - 1));
    assert!(!ids.lasts());
    LayerId::bump_to(&mut ids, u64::MAX);
    assert!(!ids.lasts());
}

#[test]
fn layer_ids_keep_their_number() {
    assert_eq!(LayerId::from_raw(424_242).raw(), 424_242);
    assert_eq!(LayerId::default().raw(), 0);
}
