use fizzle::counter::CounterNormalizer;
use fizzle::impulse::ImpulseContext;
use fizzle::power_state::PowerState;

#[test]
fn first_observation_normalizes_to_zero() {
    let mut norm = CounterNormalizer::new();
    assert_eq!(norm.observe(100), 0);
}

#[test]
fn raw_sequence_with_resets() {
    // Raw [100, 150, 20, 70]: the offset moves to 100, stays, moves to
    // 20 on the reset, stays; normalized [0, 50, 0, 50].
    let mut norm = CounterNormalizer::new();
    let raws = [100i64, 150, 20, 70];
    let mut normalized = Vec::new();
    for raw in raws {
        normalized.push(norm.observe(raw));
    }
    assert_eq!(normalized, vec![0, 50, 0, 50]);
}

#[test]
fn nondecreasing_without_reset() {
    let mut norm = CounterNormalizer::new();
    let mut prev = i64::MIN;
    for raw in [5i64, 5, 7, 30, 30, 31] {
        let n = norm.observe(raw);
        assert!(n >= prev);
        prev = n;
    }
}

#[test]
fn impulse_context_matches_counter_rule() {
    let mut ctx = ImpulseContext::with_initial_count(100);
    assert_eq!(ctx.observe(100), 0);
    assert_eq!(ctx.observe(150), 50);
    assert_eq!(ctx.observe(20), 0);
    assert_eq!(ctx.observe(70), 50);
    assert_eq!(ctx.previous_count, 70);
    assert_eq!(ctx.offset, 20);
}

#[test]
fn power_state_literals() {
    assert_eq!(PowerState::try_from_str("ON").unwrap(), PowerState::On);
    assert_eq!(PowerState::try_from_str("on").unwrap(), PowerState::On);
    assert_eq!(PowerState::try_from_str("Off").unwrap(), PowerState::Off);
    assert_eq!(PowerState::try_from_str("OFF").unwrap(), PowerState::Off);
    let err = PowerState::try_from_str("bogus").unwrap_err();
    assert_eq!(err.0, "bogus");
    assert_eq!(PowerState::from(true), PowerState::On);
    assert_eq!(PowerState::from(false), PowerState::Off);
    assert_eq!(PowerState::On.as_str(), "on");
    assert_eq!(PowerState::Off.as_str(), "off");
}
