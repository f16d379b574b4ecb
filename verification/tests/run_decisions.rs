//! Tests of the decisions of a decode run.

use wxqr::{DecRun, ImageOutcome, Step, EXIT_FAILURE, EXIT_FOUND, EXIT_NOT_FOUND, EXIT_USAGE};

fn run(outcomes: &[ImageOutcome]) -> (Vec<Step>, u8) {
    let mut r = DecRun::new();
    let mut steps = Vec::new();
    for o in outcomes {
        let s = r.on_image(*o);
        steps.push(s);
        if let Step::Stop(code) = s {
            return (steps, code);
        }
    }
    (steps, r.finish())
}

#[test]
fn exit_codes_are_as_documented() {
    assert_eq!(EXIT_FOUND, 0);
    assert_eq!(EXIT_NOT_FOUND, 1);
    assert_eq!(EXIT_FAILURE, 2);
    assert_eq!(EXIT_USAGE, 64);
}

#[test]
fn found_in_some_image_gives_zero() {
    let (steps, code) = run(&[ImageOutcome::Decoded(0), ImageOutcome::Decoded(2)]);
    assert_eq!(steps, vec![Step::Skip, Step::Emit]);
    assert_eq!(code, 0);
}

#[test]
fn nothing_found_gives_one() {
    let (_, code) = run(&[ImageOutcome::Decoded(0), ImageOutcome::Decoded(0)]);
    assert_eq!(code, 1);
    let (_, code) = run(&[]);
    assert_eq!(code, 1);
}

#[test]
fn failure_stops_with_two() {
    let (steps, code) = run(&[
        ImageOutcome::Decoded(1),
        ImageOutcome::Failed,
        ImageOutcome::Decoded(1),
    ]);
    assert_eq!(steps, vec![Step::Emit, Step::Stop(2)]);
    assert_eq!(code, 2);
}

#[test]
fn detector_start_failure_gives_two() {
    assert!(matches!(DecRun::start(false), Err(2)));
    match DecRun::start(true) {
        Ok(r) => assert!(!r.had_any),
        Err(c) => panic!("unexpected {c}"),
    }
}
