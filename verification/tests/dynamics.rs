use lau_chaos_theory::{
    chaos_transitions, classify_crossing, classify_regime, hopf_indices,
    period_increase_indices, return_map, BehavioralRegime, BifurcationType,
};

#[test]
fn test_return_map() {
    let crossings = vec![[1.0, 2.0], [3.0, 4.0], [5.0, 6.0]];
    let map = return_map(&crossings, 0);
    assert_eq!(map, vec![(1.0, 3.0), (3.0, 5.0)]);
}

#[test]
fn return_map_second_component_and_short_inputs() {
    let crossings = vec![[1.0, 2.0], [3.0, 4.0], [5.0, 6.0]];
    assert_eq!(return_map(&crossings, 1), vec![(2.0, 4.0), (4.0, 6.0)]);
    let one = vec![[1.5, 2.5]];
    assert!(return_map(&one, 1).is_empty());
    let none: Vec<[f64; 2]> = Vec::new();
    // With no crossings the component is never read.
    assert!(return_map(&none, 9).is_empty());
}

#[test]
fn period_increases_in_a_scan() {
    let periods = [0, 1, 1, 2, 2, 4, 0, 8, 8, 16, 3];
    assert_eq!(period_increase_indices(&periods), vec![3, 5, 9]);
    assert!(period_increase_indices(&[]).is_empty());
    assert!(period_increase_indices(&[4]).is_empty());
    // No growth after an undetermined period.
    assert!(period_increase_indices(&[0, 2, 0, 4]).is_empty());
}

#[test]
fn chaos_transitions_in_a_scan() {
    let signs = [
        Some(false),
        Some(false),
        Some(true),
        Some(true),
        Some(false),
        None,
        Some(true),
        Some(false),
    ];
    assert_eq!(
        chaos_transitions(&signs),
        vec![
            (2, BifurcationType::PeriodDoubling),
            (4, BifurcationType::Unknown),
            (7, BifurcationType::Unknown),
        ]
    );
    assert!(chaos_transitions(&[]).is_empty());
    assert!(chaos_transitions(&[Some(true)]).is_empty());
}

#[test]
fn hopf_steps_in_a_scan() {
    // (complex eigenvalues, real part positive; None when not a number)
    let obs = [
        (true, Some(false)),
        (true, Some(false)),
        (true, Some(true)),
        (true, Some(true)),
        (false, Some(false)),
        (false, Some(true)),
        (true, Some(false)),
        (true, Some(true)),
        (true, None),
        (true, Some(true)),
    ];
    assert_eq!(hopf_indices(&obs), vec![2, 7]);
    assert!(hopf_indices(&[]).is_empty());
    assert!(hopf_indices(&[(true, Some(true))]).is_empty());
}

#[test]
fn classify_crossing_table() {
    // eigenvalue 1, second derivative 1, parameter derivative 0
    assert_eq!(classify_crossing(true, false, false, false), BifurcationType::Pitchfork);
    // eigenvalue -1
    assert_eq!(classify_crossing(false, true, true, false), BifurcationType::PeriodDoubling);
    // eigenvalue 1, second derivative 0, parameter derivative 1
    assert_eq!(classify_crossing(true, false, true, true), BifurcationType::Transcritical);
    assert_eq!(classify_crossing(true, false, true, false), BifurcationType::SaddleNode);
    assert_eq!(classify_crossing(false, false, true, true), BifurcationType::Unknown);
}

#[test]
fn classify_regime_table() {
    assert_eq!(classify_regime(true, true, true, false, true), BehavioralRegime::FixedPoint);
    assert_eq!(classify_regime(false, false, true, false, true), BehavioralRegime::Periodic);
    assert_eq!(classify_regime(false, true, true, false, true), BehavioralRegime::Chaotic);
    assert_eq!(classify_regime(false, false, false, true, true), BehavioralRegime::Quasiperiodic);
    assert_eq!(classify_regime(false, false, false, true, false), BehavioralRegime::Unknown);
    assert_eq!(classify_regime(false, false, false, false, true), BehavioralRegime::Unknown);
}
