use egress_resolver::sysutil::{
    boot_id, lock_step, lock_timeout_error, read_mode, temporary_name, uptime_field, LockStep,
};

#[test]
fn read_mode_defaults_to_maintenance() {
    assert_eq!(read_mode(None), "maintenance");
    assert_eq!(read_mode(Some(" \n")), "maintenance");
    assert_eq!(read_mode(Some("production\n")), "production");
}

#[test]
fn host_files_are_trimmed() {
    assert_eq!(boot_id(Some("b1\n")), "b1");
    assert_eq!(boot_id(None), "");
    assert_eq!(uptime_field("12.50 99.00\n"), Some("12.50".to_string()));
    assert_eq!(uptime_field(" \n"), None);
}

#[test]
fn files_are_replaced_through_a_hidden_neighbour() {
    assert_eq!(temporary_name("hosts", 4711), ".hosts.tmp.4711");
}

#[test]
fn locks_are_waited_for_only_while_they_are_busy() {
    assert_eq!(lock_step(true, false, true), LockStep::Held);
    assert_eq!(lock_step(false, false, false), LockStep::Broken);
    assert_eq!(lock_step(false, true, true), LockStep::TimedOut);
    assert_eq!(lock_step(false, true, false), LockStep::Again);
    assert_eq!(lock_timeout_error("/l"), "timed out waiting for lock /l");
}
