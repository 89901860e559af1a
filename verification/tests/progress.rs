use bird_barrier::Progress;

fn progress(value: f32) -> Progress {
    Progress::new(value.to_bits())
}

fn value(progress: Progress) -> f32 {
    f32::from_bits(progress.into_inner())
}

#[test]
fn test_progress_creation() {
    let half = progress(0.5);
    assert_eq!(value(half), 0.5);

    let zero = Progress::zero();
    assert_eq!(value(zero), 0.0);

    let done = Progress::done();
    assert_eq!(value(done), 1.0);
}

#[test]
fn test_progress_clamping() {
    // Values above 1.0 are clamped to 1.0
    let over = progress(1.5);
    assert_eq!(value(over), 1.0);

    // Values below 0.0 are clamped to 0.0
    let under = progress(-0.5);
    assert_eq!(value(under), 0.0);

    // Values in between pass through
    let normal = progress(0.75);
    assert_eq!(value(normal), 0.75);
}

#[test]
fn test_progress_finished() {
    assert!(Progress::done().finished());
    assert!(progress(1.0).finished());
    assert!(!progress(0.99).finished());
    assert!(!Progress::zero().finished());

    // Near 1.0
    let almost_done = progress(1.0 - f32::EPSILON / 2.0);
    assert!(almost_done.finished());

    // What is not finite is never finished
    assert!(!progress(f32::NAN).finished());
    assert!(!progress(f32::INFINITY).finished());
}

#[test]
fn test_progress_from_bool() {
    let from_true: Progress = true.into();
    assert_eq!(from_true, Progress::done());

    let from_false: Progress = false.into();
    assert_eq!(from_false, Progress::zero());
}

#[test]
fn test_progress_comparison() {
    let low = progress(0.3);
    let high = progress(0.7);

    assert!(low < high);
    assert!(high > low);
    assert_eq!(low, progress(0.3));
    assert_ne!(low, high);
}

#[test]
fn test_progress_default() {
    let default_progress = Progress::default();
    assert_eq!(default_progress, Progress::zero());
}

#[test]
fn test_progress_non_finite_values() {
    let nan_progress = progress(f32::NAN);
    assert!(!nan_progress.is_finite());
    assert!(value(nan_progress).is_nan());

    let inf_progress = progress(f32::INFINITY);
    assert!(!inf_progress.is_finite());
    assert!(value(inf_progress).is_infinite());

    let neg_inf_progress = progress(f32::NEG_INFINITY);
    assert!(!neg_inf_progress.is_finite());
    assert!(value(neg_inf_progress).is_infinite());
}

#[test]
fn test_progress_constants() {
    assert_eq!(value(Progress::zero()), 0.0);
    assert_eq!(value(Progress::done()), 1.0);

    assert!(Progress::done().is_finite());
    assert!(Progress::zero().is_finite());

    let nan_progress = progress(f32::NAN);
    let inf_progress = progress(f32::INFINITY);
    assert!(!nan_progress.is_finite());
    assert!(!inf_progress.is_finite());
}

#[test]
fn clamping_agrees_with_the_float_clamp_on_many_values() {
    let samples = [
        0.0f32,
        -0.0,
        1.0,
        -1.0,
        0.5,
        0.999_999_9,
        1.000_000_1,
        2.0,
        -2.0,
        1e-45,
        -1e-45,
        1e-38,
        f32::MIN_POSITIVE,
        f32::MAX,
        f32::MIN,
        f32::EPSILON,
        1.0 - f32::EPSILON,
        0.25,
        123.456,
        -123.456,
    ];
    for x in samples {
        let expected = x.clamp(0.0, 1.0);
        assert_eq!(progress(x).into_inner(), expected.to_bits(), "value {x}");
    }
}

#[test]
fn non_finite_values_keep_their_bits() {
    for bits in [0x7F80_0000u32, 0xFF80_0000, 0x7FC0_0000, 0xFFC0_0001, 0x7F80_0001, 0xFFFF_FFFF] {
        assert_eq!(Progress::new(bits).into_inner(), bits);
        assert!(!Progress::new(bits).is_finite());
        assert!(!Progress::new(bits).finished());
    }
}

#[test]
fn negative_zero_is_kept_and_equals_zero() {
    let negative_zero = progress(-0.0);
    assert_eq!(negative_zero.into_inner(), 0x8000_0000);
    assert!(negative_zero.is_finite());
    assert!(!negative_zero.finished());
    assert_eq!(negative_zero, Progress::zero());
    assert!(!(negative_zero < Progress::zero()));
    assert!(!(negative_zero > Progress::zero()));
}

#[test]
fn finished_starts_at_one_less_epsilon() {
    // 1 - 2^-23, the threshold itself
    assert_eq!((1.0f32 - f32::EPSILON).to_bits(), 0x3F7F_FFFE);
    assert!(Progress::new(0x3F7F_FFFE).finished());
    // the single just below it
    assert!(!Progress::new(0x3F7F_FFFD).finished());
    // the single between the threshold and one
    assert!(Progress::new(0x3F7F_FFFF).finished());
    assert!(Progress::new(0x3F80_0000).finished());
}

#[test]
fn nan_compares_with_nothing() {
    let nan = progress(f32::NAN);
    assert_ne!(nan, nan);
    assert!(!(nan < Progress::done()));
    assert!(!(nan > Progress::done()));
    assert_eq!(nan.partial_cmp(&Progress::zero()), None);
    assert_eq!(Progress::zero().partial_cmp(&nan), None);
}

#[test]
fn infinities_order_around_the_unit_interval() {
    let below = progress(f32::NEG_INFINITY);
    let above = progress(f32::INFINITY);
    assert!(below < Progress::zero());
    assert!(Progress::done() < above);
    assert!(below < above);
    assert_eq!(above, progress(f32::INFINITY));
    assert_eq!(
        Progress::zero().partial_cmp(&Progress::done()),
        Some(std::cmp::Ordering::Less)
    );
    assert_eq!(
        Progress::done().partial_cmp(&Progress::done()),
        Some(std::cmp::Ordering::Equal)
    );
    assert_eq!(
        above.partial_cmp(&Progress::done()),
        Some(std::cmp::Ordering::Greater)
    );
}

#[test]
fn comparison_agrees_with_the_float_comparison() {
    let samples = [0.0f32, -0.0, 0.1, 0.3, 0.5, 0.7, 1.0, f32::INFINITY, f32::NEG_INFINITY, f32::NAN];
    for a in samples {
        for b in samples {
            let (pa, pb) = (progress(a), progress(b));
            assert_eq!(pa == pb, a == b, "{a} == {b}");
            assert_eq!(pa < pb, a < b, "{a} < {b}");
            assert_eq!(pa.partial_cmp(&pb), a.partial_cmp(&b), "{a} ? {b}");
        }
    }
}
