use oci_settings::error::{ValueKind, Violation};
use oci_settings::oci_defaults::{OciDefaultsCapability, OciDefaultsResourceLimitType};

fn check_capability_strings(cap: OciDefaultsCapability, bottlerocket: &str, linux: &str) {
    let actual_bottlerocket = cap.to_string();
    let actual_linux = cap.to_linux_string();
    assert_eq!(bottlerocket, actual_bottlerocket);
    assert_eq!(linux, actual_linux);
}

#[test]
fn linux_capability_strings() {
    check_capability_strings(
        OciDefaultsCapability::AuditControl,
        "audit-control",
        "CAP_AUDIT_CONTROL",
    );

    check_capability_strings(
        OciDefaultsCapability::SysPacct,
        "sys-pacct",
        "CAP_SYS_PACCT",
    );

    check_capability_strings(OciDefaultsCapability::Mknod, "mknod", "CAP_MKNOD");
}

fn check_rlimit_strings(cap: OciDefaultsResourceLimitType, bottlerocket: &str, linux: &str) {
    let actual_bottlerocket = cap.to_string();
    let actual_linux = cap.to_linux_string();
    assert_eq!(bottlerocket, actual_bottlerocket);
    assert_eq!(linux, actual_linux);
}

#[test]
fn linux_rlimit_strings() {
    check_rlimit_strings(
        OciDefaultsResourceLimitType::MaxOpenFiles,
        "max-open-files",
        "RLIMIT_NOFILE",
    );
}

#[test]
fn wake_alarm_maps_to_kernel_name() {
    assert_eq!(OciDefaultsCapability::WakeAlarm.to_linux_string(), "CAP_WAKE_ALARM");
    assert_eq!(OciDefaultsCapability::SysTtyConfig.to_linux_string(), "CAP_SYS_TTY_CONFIG");
    assert_eq!(OciDefaultsCapability::Bpf.to_linux_string(), "CAP_BPF");
}

#[test]
fn capability_tokens_parse_back() {
    for cap in [
        OciDefaultsCapability::AuditControl,
        OciDefaultsCapability::SysPacct,
        OciDefaultsCapability::Mknod,
        OciDefaultsCapability::WakeAlarm,
        OciDefaultsCapability::NetBindService,
        OciDefaultsCapability::Syslog,
    ] {
        let token = cap.to_string();
        assert_eq!(OciDefaultsCapability::parse(&token).unwrap(), cap);
    }
    let parsed = OciDefaultsCapability::parse("sys-pacct").unwrap();
    assert_eq!(parsed.to_linux_string(), "CAP_SYS_PACCT");
}

#[test]
fn unknown_capability_is_refused() {
    for bad in ["", "SYS_PACCT", "sys_pacct", "cap-sys-pacct", "wake-alarm "] {
        let e = OciDefaultsCapability::parse(bad).unwrap_err();
        assert_eq!(e.kind, ValueKind::Capability);
        assert_eq!(e.input, bad);
        assert_eq!(e.violation, Violation::UnknownToken);
    }
}

#[test]
fn rlimit_tokens_parse_back() {
    let l = OciDefaultsResourceLimitType::parse("max-open-files").unwrap();
    assert_eq!(l, OciDefaultsResourceLimitType::MaxOpenFiles);
    assert_eq!(l.to_linux_string(), "RLIMIT_NOFILE");
    let e = OciDefaultsResourceLimitType::parse("RLIMIT_NOFILE").unwrap_err();
    assert_eq!(e.kind, ValueKind::ResourceLimit);
    assert_eq!(e.violation, Violation::UnknownToken);
}
