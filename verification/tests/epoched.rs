use proof_of_stake::epoched::EpochedValue;
use proof_of_stake::epoched_delta::EpochedDelta;
use proof_of_stake::types::{DynEpochOffset, Epoch, PosParams};

fn window() -> PosParams {
    PosParams::new(2, 10, 3).unwrap()
}

#[test]
fn genesis_value_holds_from_its_epoch() {
    let h = EpochedValue::init_at_genesis(7u64, Epoch(4));
    assert_eq!(h.get(Epoch(0)), None);
    assert_eq!(h.get(Epoch(3)), None);
    assert_eq!(h.get(Epoch(4)), Some(&7));
    assert_eq!(h.get(Epoch(u64::MAX)), Some(&7));
}

#[test]
fn init_lands_a_pipeline_ahead() {
    let h = EpochedValue::init(7u64, Epoch(5), &window());
    assert_eq!(h.get(Epoch(5)), None);
    assert_eq!(h.get(Epoch(6)), None);
    assert_eq!(h.get(Epoch(7)), Some(&7));
    assert_eq!(h.get(Epoch(8)), Some(&7));
}

#[test]
fn set_leaves_earlier_epochs_of_the_window_alone() {
    let params = window();
    let mut h = EpochedValue::init_at_genesis(1u64, Epoch(0));
    h.set(2, Epoch(3), &params);
    let at: Vec<Option<u64>> = (0..5).map(|e| h.get(Epoch(e)).copied()).collect();
    h.set(3, Epoch(5), &params);
    for e in 0..7 {
        let expected = if e < 5 { at[e as usize] } else { Some(2) };
        assert_eq!(h.get(Epoch(e)).copied(), expected);
    }
    assert_eq!(h.get(Epoch(4)), Some(&1));
    assert_eq!(h.get(Epoch(5)), Some(&2));
    assert_eq!(h.get(Epoch(6)), Some(&2));
    assert_eq!(h.get(Epoch(7)), Some(&3));
}

#[test]
fn set_twice_for_one_epoch_keeps_the_last() {
    let params = window();
    let mut h = EpochedValue::init_at_genesis(1u64, Epoch(0));
    h.set(2, Epoch(3), &params);
    h.set(9, Epoch(3), &params);
    assert_eq!(h.get(Epoch(4)), Some(&1));
    assert_eq!(h.get(Epoch(5)), Some(&9));
    assert_eq!(h.get(Epoch(50)), Some(&9));
}

#[test]
fn set_for_an_earlier_epoch_goes_between() {
    let params = window();
    let mut h = EpochedValue::init_at_genesis(1u64, Epoch(0));
    h.set(3, Epoch(6), &params);
    h.set(2, Epoch(2), &params);
    assert_eq!(h.get(Epoch(3)), Some(&1));
    assert_eq!(h.get(Epoch(4)), Some(&2));
    assert_eq!(h.get(Epoch(7)), Some(&2));
    assert_eq!(h.get(Epoch(8)), Some(&3));
}

#[test]
fn set_expires_what_lies_before_the_window() {
    let params = window();
    let mut h = EpochedValue::init_at_genesis(1u64, Epoch(0));
    h.set(2, Epoch(3), &params);
    h.set(3, Epoch(20), &params);
    for e in 0..10 {
        assert_eq!(h.get(Epoch(e)), None);
    }
    assert_eq!(h.get(Epoch(10)), Some(&2));
    assert_eq!(h.get(Epoch(21)), Some(&2));
    assert_eq!(h.get(Epoch(22)), Some(&3));
}

#[test]
fn pruning_keeps_the_value_of_the_oldest_query_in_the_window() {
    let params = window();
    let mut h = EpochedValue::init_at_genesis(1u64, Epoch(0));
    h.set(5, Epoch(30), &params);
    assert_eq!(h.get(Epoch(19)), None);
    assert_eq!(h.get(Epoch(20)), Some(&1));
    assert_eq!(h.get(Epoch(31)), Some(&1));
    assert_eq!(h.get(Epoch(32)), Some(&5));
}

#[test]
fn the_first_epochs_are_never_pruned_early() {
    let params = window();
    let mut h = EpochedValue::init_at_genesis(1u64, Epoch(0));
    h.set(2, Epoch(4), &params);
    assert_eq!(h.get(Epoch(0)), Some(&1));
    assert_eq!(h.get(Epoch(5)), Some(&1));
    assert_eq!(h.get(Epoch(6)), Some(&2));
}

#[test]
fn writes_at_the_last_epoch_saturate() {
    let params = window();
    let mut h = EpochedValue::init_at_genesis(1u64, Epoch(0));
    h.set(2, Epoch(u64::MAX - 1), &params);
    assert_eq!(h.get(Epoch(u64::MAX - 12)), None);
    assert_eq!(h.get(Epoch(u64::MAX - 11)), Some(&1));
    assert_eq!(h.get(Epoch(u64::MAX - 1)), Some(&1));
    assert_eq!(h.get(Epoch(u64::MAX)), Some(&2));
}

#[test]
fn update_from_offset_builds_on_the_value_at_the_horizon() {
    let params = window();
    let mut h = EpochedValue::init_at_genesis(10u64, Epoch(0));
    h.set(20, Epoch(1), &params);
    assert!(h.update_from_offset(|v: &u64| v + 1, Epoch(0), DynEpochOffset::PipelineLen, &params));
    assert_eq!(h.get(Epoch(1)), Some(&10));
    assert_eq!(h.get(Epoch(2)), Some(&11));
    assert_eq!(h.get(Epoch(3)), Some(&20));
    assert!(h.update_from_offset(|v: &u64| v * 2, Epoch(1), DynEpochOffset::PipelineLen, &params));
    assert_eq!(h.get(Epoch(2)), Some(&11));
    assert_eq!(h.get(Epoch(3)), Some(&40));
    assert!(h.update_from_offset(|v: &u64| v + 5, Epoch(1), DynEpochOffset::UnbondingLen, &params));
    assert_eq!(h.get(Epoch(10)), Some(&40));
    assert_eq!(h.get(Epoch(11)), Some(&45));
}

#[test]
fn update_from_offset_before_the_first_entry_changes_nothing() {
    let params = window();
    let mut h = EpochedValue::init(10u64, Epoch(10), &params);
    let before = h.duplicate();
    assert!(!h.update_from_offset(|v: &u64| v + 1, Epoch(9), DynEpochOffset::PipelineLen, &params));
    assert_eq!(h, before);
    assert!(h.update_from_offset(|v: &u64| v + 1, Epoch(10), DynEpochOffset::PipelineLen, &params));
    assert_eq!(h.get(Epoch(12)), Some(&11));
}

#[test]
fn duplicates_are_equal() {
    let params = window();
    let mut h = EpochedValue::init_at_genesis(1u64, Epoch(0));
    h.set(2, Epoch(3), &params);
    assert_eq!(h.duplicate(), h);
    assert_eq!(h.duplicate_with(|v: &u64| *v), h);
    let mut d = EpochedDelta::init_at_genesis(4, Epoch(0));
    d.set(-9, Epoch(3), &params);
    assert_eq!(d.duplicate(), d);
}

#[test]
fn delta_init_lands_a_pipeline_ahead() {
    let d = EpochedDelta::init(12, Epoch(5), &window());
    assert_eq!(d.get(Epoch(6)), None);
    assert_eq!(d.get(Epoch(7)), Some(12));
}

#[test]
fn delta_increments_at_one_epoch_add_up() {
    let params = window();
    let mut d = EpochedDelta::init_at_genesis(100, Epoch(0));
    d.set(5, Epoch(1), &params);
    d.set(-7, Epoch(1), &params);
    assert_eq!(d.get(Epoch(2)), Some(100));
    assert_eq!(d.get(Epoch(3)), Some(98));
}

#[test]
fn delta_increment_for_an_earlier_epoch_raises_the_later_totals() {
    let params = window();
    let mut d = EpochedDelta::init_at_genesis(100, Epoch(0));
    d.set(10, Epoch(6), &params);
    d.set(1, Epoch(2), &params);
    assert_eq!(d.get(Epoch(3)), Some(100));
    assert_eq!(d.get(Epoch(4)), Some(101));
    assert_eq!(d.get(Epoch(7)), Some(101));
    assert_eq!(d.get(Epoch(8)), Some(111));
}

#[test]
fn delta_keeps_totals_at_the_ends_of_the_range() {
    let params = window();
    let mut d = EpochedDelta::init_at_genesis(i128::MAX, Epoch(0));
    d.set(-1, Epoch(0), &params);
    d.set(i128::MIN + 1, Epoch(1), &params);
    assert_eq!(d.get(Epoch(1)), Some(i128::MAX));
    assert_eq!(d.get(Epoch(2)), Some(i128::MAX - 1));
    assert_eq!(d.get(Epoch(3)), Some(-1));
}

#[test]
fn delta_folding_expires_what_lies_before_the_window() {
    let params = window();
    let mut d = EpochedDelta::init_at_genesis(1, Epoch(0));
    d.set(2, Epoch(1), &params);
    d.set(4, Epoch(6), &params);
    d.set(8, Epoch(17), &params);
    for e in 0..7 {
        assert_eq!(d.get(Epoch(e)), None);
    }
    assert_eq!(d.get(Epoch(7)), Some(3));
    assert_eq!(d.get(Epoch(8)), Some(7));
    assert_eq!(d.get(Epoch(18)), Some(7));
    assert_eq!(d.get(Epoch(19)), Some(15));
}

#[test]
fn fits_tells_whether_an_increment_can_be_set() {
    let params = window();
    let mut d = EpochedDelta::init_at_genesis(i128::MAX - 10, Epoch(0));
    assert!(d.fits(10, Epoch(0), &params));
    assert!(!d.fits(11, Epoch(0), &params));
    assert!(d.fits(i128::MIN, Epoch(0), &params));
    d.set(-20, Epoch(5), &params);
    assert!(d.fits(10, Epoch(1), &params));
    assert!(!d.fits(11, Epoch(1), &params));
    assert!(d.fits(30, Epoch(5), &params));
    assert!(!d.fits(31, Epoch(5), &params));
    assert!(d.fits(30, Epoch(9), &params));
    let low = EpochedDelta::init(i128::MIN + 3, Epoch(4), &params);
    assert!(low.fits(-3, Epoch(4), &params));
    assert!(!low.fits(-4, Epoch(4), &params));
    assert!(low.fits(-4, Epoch(0), &params) == false);
    assert!(low.fits(i128::MAX, Epoch(0), &params));
    let late = EpochedDelta::init_at_genesis(i128::MAX, Epoch(50));
    assert!(late.fits(i128::MIN, Epoch(0), &params));
    assert!(!late.fits(1, Epoch(0), &params));
}
