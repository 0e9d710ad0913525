use cinergy::cmdline::{parse_vm_name, parse_vcpu_count};
use cinergy::cpu_time::parse_cpu_time;
use cinergy::rational::Rat;

#[test]
fn vm_name_from_guest_value() {
    assert_eq!(parse_vm_name(b"guest=myvm,debug-threads=on"), b"myvm".to_vec());
}

#[test]
fn vm_name_defaults_to_unknown() {
    assert_eq!(parse_vm_name(b"qemu-system-x86_64 -m 2048"), b"Unknown".to_vec());
    assert_eq!(parse_vm_name(b""), b"Unknown".to_vec());
}

#[test]
fn vm_name_from_null_separated_arguments() {
    // raw argument vectors separate arguments with null bytes; stripping
    // them joins `-name` and `guest=vm1` into one searchable text
    let raw = b"qemu-system-x86_64\0-name\0guest=vm1,debug-threads=on\0-m\00482\0";
    assert_eq!(parse_vm_name(raw), b"vm1".to_vec());
}

#[test]
fn vm_name_value_stops_at_whitespace() {
    assert_eq!(parse_vm_name(b"-name guest=alpha beta"), b"alpha".to_vec());
}

#[test]
fn vm_name_empty_value_is_not_a_match() {
    // `guest=` followed directly by a terminator carries no name
    assert_eq!(parse_vm_name(b"guest=, guest=real"), b"real".to_vec());
}

#[test]
fn vcpu_from_plain_smp() {
    assert_eq!(parse_vcpu_count(b"-smp 4"), 4);
}

#[test]
fn vcpu_from_cpus_key() {
    assert_eq!(parse_vcpu_count(b"-smp cpus=8,maxcpus=16"), 8);
}

#[test]
fn vcpu_defaults_to_one() {
    assert_eq!(parse_vcpu_count(b"qemu-system-x86_64 -m 2048"), 1);
    assert_eq!(parse_vcpu_count(b""), 1);
    // a value that is not a number falls back to the default
    assert_eq!(parse_vcpu_count(b"-smp lots"), 1);
    // an unrepresentable count falls back to the default
    assert_eq!(parse_vcpu_count(b"-smp 99999999999999999999"), 1);
}

#[test]
fn vcpu_from_null_separated_arguments() {
    let raw = b"qemu-system-x86_64\0-name\0guest=vm1\0-smp\04\0";
    assert_eq!(parse_vcpu_count(raw), 4);
}

#[test]
fn cpu_time_sums_fields_13_and_14() {
    // positions:       0 1    2 3  4  5  6  7   8  9 10 11 12  13  14
    let stat = b"1234 (qemu) S 1 1234 0 0 -1 4194560 0 0 0 0 100 50 0 0";
    assert_eq!(parse_cpu_time(stat), Some(150));
}

#[test]
fn cpu_time_missing_fields_is_none() {
    assert_eq!(parse_cpu_time(b"1234 (qemu) S 1"), None);
    assert_eq!(parse_cpu_time(b""), None);
}

#[test]
fn cpu_time_malformed_field_is_none() {
    let stat = b"1234 (qemu) S 1 1234 0 0 -1 4194560 0 0 0 0 10x 50 0 0";
    assert_eq!(parse_cpu_time(stat), None);
}

#[test]
fn decimal_parsing_round_trips_exactly() {
    assert!(Rat::from_decimal(b"10.0").unwrap().equiv(Rat::from_int(10)));
    assert!(Rat::from_decimal(b"-3.25").unwrap().equiv(Rat::new(-13, 4)));
    assert!(Rat::from_decimal(b".5").unwrap().equiv(Rat::new(1, 2)));
    assert!(Rat::from_decimal(b"  42 ").unwrap().equiv(Rat::from_int(42)));
}

#[test]
fn decimal_parsing_rejects_malformed_text() {
    assert!(Rat::from_decimal(b"").is_none());
    assert!(Rat::from_decimal(b"abc").is_none());
    assert!(Rat::from_decimal(b"1.2.3").is_none());
    assert!(Rat::from_decimal(b"-").is_none());
    assert!(Rat::from_decimal(b".").is_none());
    assert!(Rat::from_decimal(b"99999999999999999999").is_none());
}

#[test]
fn rational_checked_arithmetic_is_exact() {
    let a = Rat::new(1, 3);
    let b = Rat::new(1, 6);
    assert!(a.checked_add(b).unwrap().equiv(Rat::new(1, 2)));
    assert!(a.checked_sub(b).unwrap().equiv(Rat::new(1, 6)));
    assert!(a.checked_mul(b).unwrap().equiv(Rat::new(1, 18)));
    assert!(Rat::from_int(i64::MAX).checked_add(Rat::from_int(1)).is_none());
    assert!(Rat::from_int(i64::MAX).checked_mul(Rat::from_int(2)).is_none());
}
