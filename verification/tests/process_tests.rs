use cinergy::endpoint::QueryParams;
use cinergy::process_info::{ProcessInfo, ProcessManager};

#[test]
fn process_manager_starts_empty() {
    let m = ProcessManager::new("qemu".to_string());
    assert_eq!(m.search_term, "qemu");
    assert!(m.process_infos.is_empty());
}

#[test]
fn process_info_carries_pid_and_description() {
    let info = ProcessInfo { pid: 42, cpu_time: "User time: 7 ticks, System time: 3 ticks".to_string() };
    assert_eq!(info.pid, 42);
    assert!(info.cpu_time.contains("7 ticks"));
}

#[test]
fn query_params_carry_vm_name() {
    let q = QueryParams { vm: "myvm".to_string() };
    assert_eq!(q.vm, "myvm");
}
