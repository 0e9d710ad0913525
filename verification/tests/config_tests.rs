use cinergy::config::AppConfig;
use cinergy::config::parse_decimal_list;
use cinergy::rational::Rat;

fn make_config(cinergy_ratio: Rat, server_cores: u32, dc_pue: Rat, emission_factor: Rat) -> AppConfig {
    AppConfig { cinergy_ratio, server_cores, dc_pue, emission_factor }
}

#[test]
fn test_carbon_intensity_basic() {
    let config = make_config(Rat::new(1, 2), 16, Rat::new(13, 10), Rat::new(50, 1));
    // 100W -> 0.1 kW * 1.3 * 50 = 6.5 gCO2eq/h
    let result = config.carbon_intensity_gco2_per_hour(Rat::new(100, 1)).unwrap();
    assert!(result.equiv(Rat::new(13, 2)));
}

#[test]
fn test_carbon_intensity_zero_power() {
    let config = make_config(Rat::new(1, 2), 16, Rat::new(13, 10), Rat::new(50, 1));
    let result = config.carbon_intensity_gco2_per_hour(Rat::from_int(0)).unwrap();
    assert!(result.equiv(Rat::from_int(0)));
}

#[test]
fn test_carbon_intensity_pue_one() {
    let config = make_config(Rat::from_int(1), 8, Rat::from_int(1), Rat::new(100, 1));
    // 500W -> 0.5 kW * 1.0 * 100 = 50 gCO2eq/h
    let result = config.carbon_intensity_gco2_per_hour(Rat::new(500, 1)).unwrap();
    assert!(result.equiv(Rat::new(50, 1)));
}

#[test]
fn config_accepts_documented_ranges() {
    let c = AppConfig::new(Rat::new(1, 2), 16, Rat::new(13, 10), Rat::new(50, 1)).unwrap();
    assert_eq!(c.server_cores, 16);
    assert!(c.cinergy_ratio.equiv(Rat::new(1, 2)));
}

#[test]
fn config_rejects_ratio_above_one() {
    assert!(AppConfig::new(Rat::from_int(2), 16, Rat::new(13, 10), Rat::new(50, 1)).is_none());
}

#[test]
fn config_rejects_negative_ratio() {
    assert!(AppConfig::new(Rat::new(-1, 2), 16, Rat::new(13, 10), Rat::new(50, 1)).is_none());
}

#[test]
fn config_rejects_zero_cores() {
    assert!(AppConfig::new(Rat::new(1, 2), 0, Rat::new(13, 10), Rat::new(50, 1)).is_none());
}

#[test]
fn config_rejects_pue_below_one() {
    assert!(AppConfig::new(Rat::new(1, 2), 16, Rat::new(1, 2), Rat::new(50, 1)).is_none());
}

#[test]
fn config_rejects_negative_emission_factor() {
    assert!(AppConfig::new(Rat::new(1, 2), 16, Rat::new(13, 10), Rat::new(-50, 1)).is_none());
}

#[test]
fn carbon_is_linear_in_power() {
    // carbon(30 + 70) == carbon(30) + carbon(70) for fixed pue and factor
    let config = make_config(Rat::new(1, 2), 16, Rat::new(13, 10), Rat::new(50, 1));
    let c30 = config.carbon_intensity_gco2_per_hour(Rat::new(30, 1)).unwrap();
    let c70 = config.carbon_intensity_gco2_per_hour(Rat::new(70, 1)).unwrap();
    let c100 = config.carbon_intensity_gco2_per_hour(Rat::new(100, 1)).unwrap();
    let sum = c30.checked_add(c70).unwrap();
    assert!(sum.equiv(c100));
}

#[test]
fn carbon_overflow_reports_none() {
    let config = make_config(Rat::new(1, 2), 16, Rat::new(13, 10), Rat::new(50, 1));
    assert!(config.carbon_intensity_gco2_per_hour(Rat::from_int(i64::MAX)).is_none());
}

#[test]
fn decimal_list_parses_coefficients() {
    let parsed = parse_decimal_list(b"10.0, 5.0").unwrap();
    assert_eq!(parsed.len(), 2);
    assert!(parsed[0].equiv(Rat::from_int(10)));
    assert!(parsed[1].equiv(Rat::from_int(5)));
}

#[test]
fn decimal_list_rejects_bad_piece() {
    assert!(parse_decimal_list(b"10.0, watts").is_none());
    assert!(parse_decimal_list(b"").is_none());
    assert!(parse_decimal_list(b"1.0,,2.0").is_none());
}
