use theta_chart::label::fixed_label;
use theta_chart::nice::{nice_step, Step};
use theta_chart::series::{Ratio, SNumber, ScaleError};

fn step(coef: i64, exp: i32) -> Step {
    Step { coef, exp }
}

fn labels(s: &SNumber) -> Vec<String> {
    s.gen_axes().unwrap().sticks.iter().map(|st| st.label.clone()).collect()
}

#[test]
fn nice_step_picks_the_first_candidate_at_or_above() {
    assert_eq!(nice_step(100, 10), Some(step(1, 1)));
    assert_eq!(nice_step(15, 10), Some(step(2, 0)));
    assert_eq!(nice_step(22, 10), Some(step(25, -1)));
    assert_eq!(nice_step(3, 1), Some(step(5, 0)));
    assert_eq!(nice_step(7, 1), Some(step(1, 1)));
    assert_eq!(nice_step(1, 10), Some(step(1, -1)));
    assert_eq!(nice_step(3, 100), Some(step(5, -2)));
    assert_eq!(nice_step(1234, 1), Some(step(2, 3)));
}

#[test]
fn nice_step_keeps_exact_candidates() {
    assert_eq!(nice_step(1, 1), Some(step(1, 0)));
    assert_eq!(nice_step(5, 2), Some(step(25, -1)));
    assert_eq!(nice_step(50, 1), Some(step(5, 1)));
    assert_eq!(nice_step(2, 1000), Some(step(2, -3)));
}

#[test]
fn nice_step_refuses_a_zero_step() {
    assert_eq!(nice_step(0, 5), None);
    assert_eq!(nice_step(5, 0), None);
}

#[test]
fn nice_step_at_the_largest_inputs() {
    assert_eq!(nice_step(u64::MAX, 1), Some(step(2, 19)));
    assert_eq!(nice_step(1, u64::MAX), Some(step(1, -19)));
}

#[test]
fn domain_includes_origin_or_range() {
    let s = SNumber::new(vec![3, 7]);
    assert_eq!(s.domain(), Ok((0, 7)));
    let r = s.set_range(-5, 2);
    assert_eq!(r.domain(), Ok((-5, 7)));
    assert_eq!(SNumber::new(vec![]).domain(), Err(ScaleError::EmptySeries));
    let neg = SNumber::new(vec![-4, -9]);
    let (lo, hi) = neg.domain().unwrap();
    assert!(lo <= hi);
    assert_eq!((lo, hi), (-9, 0));
}

#[test]
fn count_distance_step_zero_to_hundred() {
    let s = SNumber::new(vec![0, 50, 100]);
    assert_eq!(s.count_distance_step(), Ok((10, step(1, 1), 0)));
}

#[test]
fn count_distance_step_straddling_zero() {
    let s = SNumber::new(vec![-30, 70]);
    assert_eq!(s.count_distance_step(), Ok((7, step(1, 1), 3)));
    let t = SNumber::new(vec![-12, 47]);
    assert_eq!(t.count_distance_step(), Ok((5, step(1, 1), 2)));
}

#[test]
fn count_distance_step_all_negative_keeps_sign() {
    let s = SNumber::new(vec![-50]).set_range(-100, -10);
    assert_eq!(s.count_distance_step(), Ok((0, step(-1, 1), -10)));
}

#[test]
fn count_distance_step_errors() {
    assert_eq!(SNumber::new(vec![]).count_distance_step(), Err(ScaleError::EmptySeries));
    assert_eq!(
        SNumber::new(vec![1, 2]).set_stick(1).count_distance_step(),
        Err(ScaleError::NoDivisions)
    );
    assert_eq!(SNumber::new(vec![0, 0]).count_distance_step(), Err(ScaleError::ZeroStep));
}

#[test]
fn count_distance_step_with_tick_count() {
    let s = SNumber::new(vec![0, 100]).set_stick(5);
    assert_eq!(s.count_distance_step(), Ok((4, step(25, 0), 0)));
}

#[test]
fn scale_maps_domain_ends_to_zero_and_one() {
    let s = SNumber::new(vec![0, 50, 100]);
    assert_eq!(s.scale(0), Ok(Ratio { num: 0, den: 100 }));
    assert_eq!(s.scale(100), Ok(Ratio { num: 100, den: 100 }));
    assert_eq!(s.scale(50), Ok(Ratio { num: 50, den: 100 }));
    assert_eq!(s.scale(150), Ok(Ratio { num: 150, den: 100 }));
    let r = SNumber::new(vec![-20, 30]).set_range(-40, 60);
    assert_eq!(r.scale(-40), Ok(Ratio { num: 0, den: 100 }));
    assert_eq!(r.scale(60), Ok(Ratio { num: 100, den: 100 }));
}

#[test]
fn scale_errors() {
    assert_eq!(SNumber::new(vec![]).scale(1), Err(ScaleError::EmptySeries));
    let flat = SNumber::new(vec![5]).set_range(5, 5);
    assert_eq!(flat.scale(5), Err(ScaleError::ZeroRange));
    assert_eq!(flat.gen_axes().map(|a| a.step), Err(ScaleError::ZeroRange));
}

#[test]
fn gen_axes_zero_to_hundred() {
    let s = SNumber::new(vec![0, 50, 100]);
    let ax = s.gen_axes().unwrap();
    assert_eq!(ax.step, step(1, 1));
    assert_eq!(ax.sticks.len(), 11);
    for (k, st) in ax.sticks.iter().enumerate() {
        assert_eq!(st.label, format!("{}", 10 * k));
        assert_eq!(st.value, Ratio { num: 10 * k as i128, den: 100 });
    }
}

#[test]
fn gen_axes_decimal_labels() {
    let s = SNumber::new(vec![0, 1]);
    let want: Vec<String> = (0..=10).map(|k| format!("{:.1}", k as f64 / 10.0)).collect();
    assert_eq!(labels(&s), want);
    let q = SNumber::new(vec![0, 25]).set_stick(11);
    let ax = q.gen_axes().unwrap();
    assert_eq!(ax.step, step(25, -1));
    assert_eq!(ax.sticks[1].label, "2.5");
    assert_eq!(ax.sticks[10].label, "25.0");
    assert_eq!(ax.sticks[10].value, Ratio { num: 250, den: 250 });
}

#[test]
fn gen_axes_straddling_zero_is_ascending() {
    let s = SNumber::new(vec![-30, 70]);
    let ax = s.gen_axes().unwrap();
    let want: Vec<String> = (-3..=7).map(|k: i32| format!("{}", 10 * k)).collect();
    let got: Vec<String> = ax.sticks.iter().map(|st| st.label.clone()).collect();
    assert_eq!(got, want);
    for w in ax.sticks.windows(2) {
        assert!(w[0].value.num < w[1].value.num);
    }
}

#[test]
fn gen_axes_drops_ticks_outside_the_domain() {
    let s = SNumber::new(vec![-12, 47]);
    let ax = s.gen_axes().unwrap();
    // ticks at -20 and 60 fall outside [-12, 47]
    let got: Vec<String> = ax.sticks.iter().map(|st| st.label.clone()).collect();
    assert_eq!(got, vec!["-10", "0", "10", "20", "30", "40"]);
    for st in &ax.sticks {
        assert!(st.value.num >= 0 && st.value.num <= st.value.den);
    }
}

#[test]
fn gen_axes_all_negative_runs_below_zero() {
    let s = SNumber::new(vec![-50]).set_range(-100, -10);
    let ax = s.gen_axes().unwrap();
    assert_eq!(ax.step, step(-1, 1));
    let want: Vec<String> = (-10..=-1).map(|k: i32| format!("{}", 10 * k)).collect();
    let got: Vec<String> = ax.sticks.iter().map(|st| st.label.clone()).collect();
    assert_eq!(got, want);
    assert_eq!(ax.sticks[0].value, Ratio { num: 0, den: 90 });
    assert_eq!(ax.sticks[9].value, Ratio { num: 90, den: 90 });
}

#[test]
fn gen_axes_all_negative_drops_ticks_outside() {
    let s = SNumber::new(vec![-40]).set_range(-95, -12);
    assert_eq!(s.count_distance_step(), Ok((0, step(-1, 1), -9)));
    let got: Vec<String> = s.gen_axes().unwrap().sticks.iter().map(|st| st.label.clone()).collect();
    assert_eq!(got, vec!["-90", "-80", "-70", "-60", "-50", "-40", "-30", "-20"]);
}

#[test]
fn from_unsigned_keeps_values() {
    let s = SNumber::from_unsigned(vec![0, 50, 100]).unwrap();
    assert_eq!(s.series(), vec![0, 50, 100]);
    assert_eq!(s.count_distance_step(), Ok((10, step(1, 1), 0)));
    let top = SNumber::from_unsigned(vec![i64::MAX as u64]).unwrap();
    assert_eq!(top.series(), vec![i64::MAX]);
    assert_eq!(SNumber::from_unsigned(vec![]).unwrap().series(), Vec::<i64>::new());
}

#[test]
fn from_unsigned_refuses_too_large() {
    assert_eq!(
        SNumber::from_unsigned(vec![1, i64::MAX as u64 + 1]).map(|s| s.series()),
        Err(ScaleError::ValueTooLarge)
    );
    assert_eq!(SNumber::from_unsigned(vec![u64::MAX]).map(|s| s.series()), Err(ScaleError::ValueTooLarge));
}

#[test]
fn to_percent_equal_quarters() {
    let s = SNumber::new(vec![1, 1, 1, 1]);
    let p = s.to_percent().unwrap();
    assert_eq!(p, vec![Ratio { num: 1, den: 4 }; 4]);
}

#[test]
fn to_percent_shares_sum_to_one() {
    let s = SNumber::new(vec![3, 9, -2, 10]);
    let p = s.to_percent().unwrap();
    let total: i128 = p.iter().map(|r| r.num).sum();
    assert!(p.iter().all(|r| r.den == 20));
    assert_eq!(total, 20);
}

#[test]
fn to_percent_errors() {
    assert_eq!(SNumber::new(vec![]).to_percent(), Err(ScaleError::EmptySeries));
    assert_eq!(SNumber::new(vec![4, -4]).to_percent(), Err(ScaleError::ZeroSum));
}

#[test]
fn to_percent_radar_over_hundred() {
    let s = SNumber::new(vec![50, 80]);
    assert_eq!(
        s.to_percent_radar(),
        vec![Ratio { num: 50, den: 100 }, Ratio { num: 80, den: 100 }]
    );
}

#[test]
fn to_stick_labels_raw_values() {
    let s = SNumber::new(vec![5, -3, 0]);
    let st = s.to_stick();
    let got: Vec<String> = st.iter().map(|x| x.label.clone()).collect();
    assert_eq!(got, vec!["5", "-3", "0"]);
    assert_eq!(st[1].value, Ratio { num: -3, den: 1 });
}

#[test]
fn setters_return_fresh_values() {
    let base = SNumber::new(vec![1, 2]);
    let a = base.set_stick(6);
    let b = base.set_range(-10, 10);
    let c = base.merge(SNumber::new(vec![3]));
    assert_eq!(base.series(), vec![1, 2]);
    assert_eq!(base.domain(), Ok((0, 2)));
    assert_eq!(b.domain(), Ok((-10, 10)));
    assert_eq!(c.series(), vec![1, 2, 3]);
    assert_eq!(a.count_distance_step(), Ok((4, step(5, -1), 0)));
    assert_eq!(base.count_distance_step(), Ok((10, step(2, -1), 0)));
    let i = SNumber::from_integers(vec![4, 8]);
    assert_eq!(i.series(), vec![4, 8]);
}

#[test]
fn fixed_label_writes_decimals() {
    assert_eq!(fixed_label(0, 0), "0");
    assert_eq!(fixed_label(1234, 2), "12.34");
    assert_eq!(fixed_label(-5, 1), "-0.5");
    assert_eq!(fixed_label(7, 3), "0.007");
    assert_eq!(fixed_label(-120, 0), "-120");
}
