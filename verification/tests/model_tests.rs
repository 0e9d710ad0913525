use cinergy::config::AppConfig;
use cinergy::model::PolynomialModel;
use cinergy::rational::Rat;

fn model_10_5() -> PolynomialModel {
    PolynomialModel::new(vec![Rat::from_int(10), Rat::from_int(5)])
}

#[test]
fn estimate_at_zero_is_constant_coefficient() {
    let m = model_10_5();
    let f0 = m.estimate(Rat::from_int(0)).unwrap();
    assert!(f0.equiv(Rat::from_int(10)));
}

#[test]
fn estimate_evaluates_polynomial() {
    // 10 + 5 * 2 = 20
    let m = model_10_5();
    let fx = m.estimate(Rat::from_int(2)).unwrap();
    assert!(fx.equiv(Rat::from_int(20)));
    // quadratic: 1 + 2u + 3u^2 at u = 1/2 -> 1 + 1 + 3/4 = 11/4
    let q = PolynomialModel::new(vec![Rat::from_int(1), Rat::from_int(2), Rat::from_int(3)]);
    let v = q.estimate(Rat::new(1, 2)).unwrap();
    assert!(v.equiv(Rat::new(11, 4)));
}

#[test]
fn zero_utilization_gives_zero_dynamic_for_any_ratio() {
    let m = model_10_5();
    for (num, den) in [(0i64, 1i64), (1, 2), (1, 1)] {
        let p = m
            .estimate_vm_power(Rat::from_int(0), 4, 16, Rat::new(num, den))
            .unwrap();
        assert!(p.dynamic_power.equiv(Rat::from_int(0)));
        // static share: c0 * 4 / 16 = 10/4 = 2.5
        assert!(p.static_power.equiv(Rat::new(5, 2)));
    }
}

#[test]
fn ratio_zero_gives_zero_dynamic_for_any_utilization() {
    let m = model_10_5();
    for u in [0i64, 1, 2, 7] {
        let p = m.estimate_vm_power(Rat::from_int(u), 4, 16, Rat::from_int(0)).unwrap();
        assert!(p.dynamic_power.equiv(Rat::from_int(0)));
    }
}

#[test]
fn ratio_one_gives_full_swing() {
    // fx - f0 = 20 - 10 = 10
    let m = model_10_5();
    let p = m.estimate_vm_power(Rat::from_int(2), 4, 16, Rat::from_int(1)).unwrap();
    assert!(p.dynamic_power.equiv(Rat::from_int(10)));
}

#[test]
fn negative_dynamic_share_is_reported_not_clamped() {
    // decreasing polynomial: 10 - 5u; fx - f0 = -5 at u = 1
    let m = PolynomialModel::new(vec![Rat::from_int(10), Rat::from_int(-5)]);
    let p = m.estimate_vm_power(Rat::from_int(1), 4, 16, Rat::from_int(1)).unwrap();
    assert!(p.dynamic_power.equiv(Rat::from_int(-5)));
}

#[test]
fn end_to_end_power_and_carbon() {
    // coefficients [10, 5], u = 2, 4 of 16 cores, ratio 1/2:
    // static 2.5, dynamic 5, total 7.5; pue 1.3, factor 50 -> 0.4875 g/h
    let m = model_10_5();
    let p = m.estimate_vm_power(Rat::from_int(2), 4, 16, Rat::new(1, 2)).unwrap();
    assert!(p.static_power.equiv(Rat::new(5, 2)));
    assert!(p.dynamic_power.equiv(Rat::from_int(5)));
    assert!(p.total_power.equiv(Rat::new(15, 2)));
    let config = AppConfig::new(Rat::new(1, 2), 16, Rat::new(13, 10), Rat::new(50, 1)).unwrap();
    let carbon = config.carbon_intensity_gco2_per_hour(p.total_power).unwrap();
    assert!(carbon.equiv(Rat::new(39, 80)));
    // 39/80 == 0.4875
    assert_eq!(39.0 / 80.0, 0.4875);
}

#[test]
fn estimate_overflow_reports_none() {
    let big = i64::MAX;
    let m = PolynomialModel::new(vec![Rat::from_int(big), Rat::from_int(big)]);
    assert!(m.estimate(Rat::from_int(big)).is_none());
    assert!(m.estimate_vm_power(Rat::from_int(big), 4, 16, Rat::from_int(1)).is_none());
}

#[test]
fn coefficient_count_reports_length() {
    assert_eq!(model_10_5().coefficient_count(), 2);
}
