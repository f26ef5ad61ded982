use mandelbrot::escape::Scan;
use mandelbrot::intensity::intensity;
use mandelbrot::render::ESCAPE_LIMIT;
use num_complex::Complex;

fn escape_time(c: Complex<f64>, limit: usize) -> Option<usize> {
    let mut z = Complex { re: 0.0, im: 0.0 };
    let mut scan = Scan::start(limit);
    while scan.is_pending() {
        scan = scan.advance(limit, z.norm_sqr() > 4.0);
        z = z * z + c;
    }
    scan.outcome()
}

fn scan_checks(checks: &[bool], limit: usize) -> Scan {
    let mut scan = Scan::start(limit);
    for &exceeded in checks {
        scan = scan.advance(limit, exceeded);
    }
    scan
}

#[test]
fn start_with_zero_limit_is_bounded() {
    assert_eq!(Scan::start(0), Scan::Bounded);
    assert_eq!(Scan::start(0).outcome(), None);
    assert!(!Scan::start(0).is_pending());
}

#[test]
fn start_waits_for_first_check() {
    assert_eq!(Scan::start(3), Scan::Pending(0));
    assert!(Scan::start(3).is_pending());
}

#[test]
fn advance_moves_on_escapes_or_ends() {
    assert_eq!(Scan::Pending(0).advance(3, false), Scan::Pending(1));
    assert_eq!(Scan::Pending(1).advance(3, true), Scan::Escaped(1));
    assert_eq!(Scan::Pending(2).advance(3, false), Scan::Bounded);
    assert_eq!(Scan::Pending(2).advance(3, true), Scan::Escaped(2));
    assert_eq!(Scan::Pending(5).advance(3, true), Scan::Bounded);
}

#[test]
fn finished_scan_stays() {
    assert_eq!(Scan::Escaped(4).advance(10, false), Scan::Escaped(4));
    assert_eq!(Scan::Bounded.advance(10, true), Scan::Bounded);
}

#[test]
fn outcome_of_each_state() {
    assert_eq!(Scan::Escaped(7).outcome(), Some(7));
    assert_eq!(Scan::Bounded.outcome(), None);
    assert_eq!(Scan::Pending(2).outcome(), None);
}

#[test]
fn scan_settles_on_first_exceeded_check() {
    let checks = [false, false, true, true, false];
    assert_eq!(scan_checks(&checks, 5).outcome(), Some(2));
    assert_eq!(scan_checks(&checks, 2).outcome(), None);
    assert_eq!(scan_checks(&[false; 4], 4).outcome(), None);
    assert_eq!(scan_checks(&[true, false], 2).outcome(), Some(0));
}

#[test]
fn origin_stays_bounded() {
    let origin = Complex { re: 0.0, im: 0.0 };
    for limit in [1usize, 2, 10, 255, 1000] {
        assert_eq!(escape_time(origin, limit), None);
    }
}

#[test]
fn point_outside_radius_two_escapes_at_first_update() {
    // z_0 = 0 passes the check; z_1 = c is the first iterate outside the disc.
    let c = Complex { re: 2.0, im: 2.0 };
    assert_eq!(escape_time(c, ESCAPE_LIMIT), Some(1));
    assert_eq!(intensity(escape_time(c, ESCAPE_LIMIT)), 254);
    for c in [Complex { re: 3.0, im: 0.0 }, Complex { re: 0.0, im: -2.5 }, Complex { re: -1.5, im: 1.5 }] {
        assert_eq!(escape_time(c, 2), Some(1));
        assert_eq!(escape_time(c, 1), None);
    }
}

#[test]
fn escape_time_is_repeatable() {
    let c = Complex { re: -0.75, im: 0.1 };
    assert_eq!(escape_time(c, ESCAPE_LIMIT), escape_time(c, ESCAPE_LIMIT));
    assert_eq!(Scan::Pending(3).advance(9, false), Scan::Pending(3).advance(9, false));
}

#[test]
fn point_inside_main_cardioid_is_bounded() {
    let c = Complex { re: -1.0 + 2.0 / 3.0, im: 0.0 };
    assert_eq!(escape_time(c, ESCAPE_LIMIT), None);
}

#[test]
fn point_just_outside_escapes_later() {
    // c = 1: 0, 1, 2, 5 -> |5|^2 > 4 at iteration 3.
    assert_eq!(escape_time(Complex { re: 1.0, im: 0.0 }, ESCAPE_LIMIT), Some(3));
}

#[test]
fn intensity_values() {
    assert_eq!(intensity(None), 0);
    assert_eq!(intensity(Some(0)), 255);
    assert_eq!(intensity(Some(1)), 254);
    assert_eq!(intensity(Some(254)), 1);
    assert_eq!(intensity(Some(255)), 0);
    assert_eq!(intensity(Some(256)), 255);
    assert_eq!(intensity(Some(300)), 211);
}
