use brot::iterate::EscapeProbe;
use brot::iterate::EscapeStep;
use brot::iterate::OrbitProbe;
use brot::iterate::OrbitStep;
use brot::iterate::Outcome;
use num::complex::Complex;

fn escape_time(c: Complex<f64>, max_iter: u32, threshold: f64) -> Outcome {
    let mut z = Complex::new(0.0, 0.0);
    let mut step = EscapeProbe::begin(max_iter);
    loop {
        match step {
            EscapeStep::Settled(outcome) => return outcome,
            EscapeStep::Iterate(probe) => {
                z = z * z + c;
                step = probe.observe(z.norm_sqr() > threshold);
            }
        }
    }
}

fn orbit(c: Complex<f64>, max_iter: usize, threshold: f64) -> Option<Vec<Complex<f64>>> {
    let mut z = Complex::new(0.0, 0.0);
    let mut step = OrbitProbe::begin(max_iter);
    loop {
        match step {
            OrbitStep::Escaped(points) => return Some(points),
            OrbitStep::Bounded => return None,
            OrbitStep::Iterate(probe) => {
                z = z * z + c;
                step = probe.record(z, z.norm_sqr() > threshold);
            }
        }
    }
}

#[test]
fn seed_beyond_radius_two_diverges_at_first_iteration() {
    assert_eq!(escape_time(Complex::new(2.0, 0.1), 50, 4.0), Outcome::Diverged(1));
    assert_eq!(escape_time(Complex::new(-2.0, -2.0), 50, 4.0), Outcome::Diverged(1));
    assert_eq!(escape_time(Complex::new(0.0, 3.0), 1, 4.0), Outcome::Diverged(1));
}

#[test]
fn seed_two_stays_on_the_threshold_until_the_second_iteration() {
    // |2|^2 is 4, which does not exceed the threshold 4; z2 = 6 does.
    assert_eq!(escape_time(Complex::new(2.0, 0.0), 50, 4.0), Outcome::Diverged(2));
    assert_eq!(escape_time(Complex::new(2.0, 0.0), 50, 3.9), Outcome::Diverged(1));
}

#[test]
fn seeds_within_a_quarter_never_diverge() {
    let seeds = [
        Complex::new(0.0, 0.0),
        Complex::new(0.25, 0.0),
        Complex::new(-0.25, 0.0),
        Complex::new(0.1, 0.1),
        Complex::new(0.0, 0.25),
        Complex::new(-0.17, -0.17),
    ];
    for c in seeds {
        for budget in [1u32, 2, 50, 1000] {
            assert_eq!(escape_time(c, budget, 4.0), Outcome::Bounded);
        }
    }
}

#[test]
fn escape_number_is_one_based() {
    // c = 1: z1 = 1, z2 = 2, z3 = 5.
    assert_eq!(escape_time(Complex::new(1.0, 0.0), 50, 4.0), Outcome::Diverged(3));
    assert_eq!(escape_time(Complex::new(1.0, 0.0), 3, 4.0), Outcome::Diverged(3));
    assert_eq!(escape_time(Complex::new(1.0, 0.0), 50, 16.0), Outcome::Diverged(3));
    assert_eq!(escape_time(Complex::new(1.0, 0.0), 50, 25.0), Outcome::Diverged(4));
}

#[test]
fn budget_runs_out_before_the_crossing() {
    assert_eq!(escape_time(Complex::new(1.0, 0.0), 2, 4.0), Outcome::Bounded);
    assert_eq!(escape_time(Complex::new(1.0, 0.0), 1, 4.0), Outcome::Bounded);
}

#[test]
fn empty_budget_is_bounded_at_once() {
    assert!(matches!(EscapeProbe::begin(0), EscapeStep::Settled(Outcome::Bounded)));
    assert!(matches!(EscapeProbe::begin(1), EscapeStep::Iterate(_)));
    assert!(matches!(OrbitProbe::<u8>::begin(0), OrbitStep::Bounded));
    assert!(matches!(OrbitProbe::<u8>::begin(1), OrbitStep::Iterate(_)));
}

#[test]
fn probe_settles_step_by_step() {
    let first = match EscapeProbe::begin(3) {
        EscapeStep::Iterate(p) => p,
        EscapeStep::Settled(_) => panic!("over too early"),
    };
    let second = match first.observe(false) {
        EscapeStep::Iterate(p) => p,
        EscapeStep::Settled(_) => panic!("over too early"),
    };
    assert!(matches!(second.observe(true), EscapeStep::Settled(Outcome::Diverged(2))));
    let third = match second.observe(false) {
        EscapeStep::Iterate(p) => p,
        EscapeStep::Settled(_) => panic!("over too early"),
    };
    assert!(matches!(third.observe(false), EscapeStep::Settled(Outcome::Bounded)));
    assert!(matches!(third.observe(true), EscapeStep::Settled(Outcome::Diverged(3))));
}

#[test]
fn orbit_keeps_the_values_before_the_crossing() {
    let points = orbit(Complex::new(1.0, 0.0), 50, 4.0).unwrap();
    assert_eq!(points, vec![Complex::new(1.0, 0.0), Complex::new(2.0, 0.0)]);
    let points = orbit(Complex::new(3.0, 0.0), 50, 4.0).unwrap();
    assert_eq!(points, Vec::<Complex<f64>>::new());
    let points = orbit(Complex::new(0.5, 0.5), 50, 1.0).unwrap();
    // z1 = 0.5 + 0.5i, z2 = 0.5 + i.
    assert_eq!(points, vec![Complex::new(0.5, 0.5)]);
}

#[test]
fn orbit_that_stays_bounded_is_discarded() {
    assert_eq!(orbit(Complex::new(0.0, 0.0), 100, 4.0), None);
    assert_eq!(orbit(Complex::new(-1.0, 0.0), 1000, 4.0), None);
    assert_eq!(orbit(Complex::new(1.0, 0.0), 2, 4.0), None);
}

#[test]
fn orbit_length_is_one_less_than_escape_number() {
    let seeds = [
        Complex::new(1.0, 0.0),
        Complex::new(0.3, 0.6),
        Complex::new(-0.75, 0.3),
        Complex::new(0.4, 0.4),
    ];
    for c in seeds {
        match (escape_time(c, 500, 4.0), orbit(c, 500, 4.0)) {
            (Outcome::Diverged(n), Some(points)) => assert_eq!(points.len() + 1, n as usize),
            (Outcome::Bounded, None) => {}
            _ => panic!("the two iterations disagree"),
        }
    }
}

#[test]
fn orbit_probe_records_any_kind_of_point() {
    let probe = match OrbitProbe::begin(3) {
        OrbitStep::Iterate(p) => p,
        _ => panic!("over too early"),
    };
    let probe = match probe.record("a", false) {
        OrbitStep::Iterate(p) => p,
        _ => panic!("over too early"),
    };
    let probe = match probe.record("b", false) {
        OrbitStep::Iterate(p) => p,
        _ => panic!("over too early"),
    };
    match probe.record("c", true) {
        OrbitStep::Escaped(points) => assert_eq!(points, vec!["a", "b"]),
        _ => panic!("expected an orbit"),
    }
}
