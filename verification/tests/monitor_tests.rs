use cinergy::monitor::{CpuUsageTracker, DiscoveredProcess};
use cinergy::rational::Rat;

#[test]
fn first_observation_appends_nothing_second_appends_rate() {
    // counters (100, t0) then (150, t0 + 1s) for one PID:
    // the first cycle only remembers, the second appends sample 50
    let mut t = CpuUsageTracker::new();
    t.record_vm_process(b"vm1", 7, 2);
    t.update_cpu_usage(7, 100, 10);
    assert!(t.get_last_cpu_usage_for_vm(b"vm1").is_none());
    t.update_cpu_usage(7, 150, 11);
    let last = t.get_last_cpu_usage_for_vm(b"vm1").unwrap();
    assert!(last.equiv(Rat::from_int(50)));
}

#[test]
fn counter_decrease_clamps_to_zero() {
    // PID reuse makes the counter go backwards; the delta clamps to zero
    let mut t = CpuUsageTracker::new();
    t.record_vm_process(b"vm1", 7, 2);
    t.update_cpu_usage(7, 100, 10);
    t.update_cpu_usage(7, 40, 11);
    let last = t.get_last_cpu_usage_for_vm(b"vm1").unwrap();
    assert!(last.equiv(Rat::from_int(0)));
    let samples = t.usage_samples_for_pid(7);
    assert_eq!(samples.len(), 1);
    assert!(samples[0].numerator() >= 0);
}

#[test]
fn zero_elapsed_time_appends_nothing() {
    let mut t = CpuUsageTracker::new();
    t.update_cpu_usage(7, 100, 10);
    t.update_cpu_usage(7, 150, 10);
    assert_eq!(t.usage_samples_for_pid(7).len(), 0);
}

#[test]
fn history_is_bounded_and_evicts_oldest() {
    // twelve rate samples: length stays at ten and the two oldest are gone
    let mut t = CpuUsageTracker::new();
    t.record_vm_process(b"vm1", 7, 2);
    let mut counter: u64 = 0;
    t.update_cpu_usage(7, counter, 0);
    for i in 1..=12u64 {
        // rate sample i: counter grows by i over one second
        counter += i;
        t.update_cpu_usage(7, counter, i);
    }
    let samples = t.usage_samples_for_pid(7);
    assert_eq!(samples.len(), 10);
    // samples 1 and 2 were evicted; the oldest left is 3, the newest 12
    assert!(samples[0].equiv(Rat::from_int(3)));
    assert!(samples[9].equiv(Rat::from_int(12)));
    let last = t.get_last_cpu_usage_for_vm(b"vm1").unwrap();
    assert!(last.equiv(Rat::from_int(12)));
}

#[test]
fn unknown_vm_and_no_sample_give_none() {
    let mut t = CpuUsageTracker::new();
    assert!(t.get_last_cpu_usage_for_vm(b"ghost").is_none());
    assert!(t.vcpu_count(b"ghost").is_none());
    // a discovered VM whose counter was never read has no sample either
    t.record_vm_process(b"vm1", 7, 2);
    assert!(t.get_last_cpu_usage_for_vm(b"vm1").is_none());
    assert_eq!(t.vcpu_count(b"vm1"), Some(2));
}

#[test]
fn rediscovery_overwrites_pid_and_vcpu() {
    let mut t = CpuUsageTracker::new();
    t.record_vm_process(b"vm1", 7, 2);
    t.record_vm_process(b"vm1", 9, 4);
    assert_eq!(t.vcpu_count(b"vm1"), Some(4));
    // the name now points at PID 9, which has no sample
    t.update_cpu_usage(7, 100, 10);
    t.update_cpu_usage(7, 150, 11);
    assert!(t.get_last_cpu_usage_for_vm(b"vm1").is_none());
}

#[test]
fn run_cycle_records_discoveries_in_order() {
    let mut t = CpuUsageTracker::new();
    let cycle1 = vec![
        DiscoveredProcess { vm_name: b"vm1".to_vec(), pid: 7, vcpu_count: 2, cpu_time: Some(100) },
        DiscoveredProcess { vm_name: b"vm2".to_vec(), pid: 8, vcpu_count: 4, cpu_time: None },
    ];
    t.run_cycle(&cycle1, 10);
    assert_eq!(t.vcpu_count(b"vm1"), Some(2));
    assert_eq!(t.vcpu_count(b"vm2"), Some(4));
    assert!(t.get_last_cpu_usage_for_vm(b"vm1").is_none());
    let cycle2 = vec![
        DiscoveredProcess { vm_name: b"vm1".to_vec(), pid: 7, vcpu_count: 2, cpu_time: Some(160) },
    ];
    t.run_cycle(&cycle2, 12);
    // 60 ticks over 2 seconds
    let last = t.get_last_cpu_usage_for_vm(b"vm1").unwrap();
    assert!(last.equiv(Rat::from_int(30)));
}
