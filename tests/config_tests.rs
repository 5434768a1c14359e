use teenygrad::config::{int_setting, Config};

#[test]
fn int_setting_reads_numbers() {
    assert_eq!(int_setting(Some("12"), 0), 12);
    assert_eq!(int_setting(Some("-7"), 0), -7);
    assert_eq!(int_setting(Some("+3"), 0), 3);
    assert_eq!(int_setting(Some("0"), 5), 0);
    assert_eq!(int_setting(Some("2147483647"), 0), i32::MAX);
    assert_eq!(int_setting(Some("-2147483648"), 0), i32::MIN);
}

#[test]
fn int_setting_falls_back() {
    assert_eq!(int_setting(None, 4), 4);
    assert_eq!(int_setting(Some(""), 4), 4);
    assert_eq!(int_setting(Some("-"), 4), 4);
    assert_eq!(int_setting(Some("1x"), 4), 4);
    assert_eq!(int_setting(Some(" 1"), 4), 4);
    assert_eq!(int_setting(Some("2147483648"), 4), 4);
    assert_eq!(int_setting(Some("99999999999999999999"), 4), 4);
}

#[test]
fn config_from_values() {
    let c = Config::from_values(Some("2"), Some("1"));
    assert_eq!(c.debug, 2);
    assert!(c.ci);
    assert_eq!(c.device, "CPU");
    let d = Config::from_values(None, Some(""));
    assert_eq!(d.debug, 0);
    assert!(!d.ci);
    let e = Config::from_values(Some("loud"), None);
    assert_eq!(e.debug, 0);
    assert!(!e.ci);
}
