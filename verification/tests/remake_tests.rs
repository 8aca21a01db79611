use lib::remake::adjusted_now_from_clock;

#[allow(non_camel_case_types)]
type uintmax_t = u64;

/// The future-mtime cache arithmetic, written out directly.
fn expected_adjusted_now(now: uintmax_t, resolution: i32) -> uintmax_t {
    now.wrapping_add((resolution - 1) as uintmax_t)
}

#[test]
fn adjusted_now_from_clock_matches_oracle() {
    let cases: &[(uintmax_t, i32)] = &[
        (0, 0),
        (0, 1),
        (1_000_000_000, 1),
        (1_000_000_000, 1_000_000_000),
        (uintmax_t::MAX, 1),
        (0, 1_000_000_000),
        (5, 0),
    ];
    for &(now, resolution) in cases {
        assert_eq!(
            adjusted_now_from_clock(now, resolution),
            expected_adjusted_now(now, resolution),
            "diverged for now={now}, resolution={resolution}"
        );
    }
}

#[test]
fn future_mtime_cache_gate_matches_oracle() {
    fn step_new(
        cached: uintmax_t,
        mtime: uintmax_t,
        clock_now: uintmax_t,
        resolution: i32,
    ) -> (uintmax_t, bool, bool) {
        if cached < mtime {
            let adjusted_now = adjusted_now_from_clock(clock_now, resolution);
            (adjusted_now, true, adjusted_now < mtime)
        } else {
            (cached, false, false)
        }
    }
    fn step_expected(
        adjusted_now: uintmax_t,
        mtime: uintmax_t,
        clock_now: uintmax_t,
        resolution: i32,
    ) -> (uintmax_t, bool, bool) {
        let adjusted_mtime = mtime;
        if adjusted_now < adjusted_mtime {
            let new_adjusted = clock_now.wrapping_add((resolution - 1) as uintmax_t);
            let warned = new_adjusted < adjusted_mtime;
            (new_adjusted, true, warned)
        } else {
            (adjusted_now, false, false)
        }
    }

    let timeline: &[(uintmax_t, uintmax_t, i32)] = &[
        (100, 100, 1),
        (50, 100, 1),
        (100, 100, 1),
        (200, 150, 1),
        (200, 250, 1),
        (300, 260, 1),
        (300, 400, 1),
        (300, 400, 5),
    ];
    let (mut c_new, mut c_exp) = (0 as uintmax_t, 0 as uintmax_t);
    for &(mtime, clock_now, resolution) in timeline {
        let (nn, n_read, n_warn) = step_new(c_new, mtime, clock_now, resolution);
        let (on, o_read, o_warn) = step_expected(c_exp, mtime, clock_now, resolution);
        assert_eq!(
            (nn, n_read, n_warn),
            (on, o_read, o_warn),
            "gate diverged at mtime={mtime}, clock_now={clock_now}, resolution={resolution}"
        );
        c_new = nn;
        c_exp = on;
    }
}
