//! Closed sets of OCI default settings: the process capabilities and the
//! resource limits that may be configured, with their canonical tokens and
//! the names the Linux kernel gives them.
use vstd::prelude::*;

use crate::error::{ValidationError, ValueKind, Violation};
use crate::text::{push_char, same_text};

verus! {

/// The Linux process capabilities whose defaults may be configured. Each
/// is written as a lowercase, hyphenated token such as `wake-alarm`, and
/// is known to the kernel as `CAP_` followed by the token in upper case
/// with underscores, such as `CAP_WAKE_ALARM`.
#[derive(Debug, Copy, Clone, Eq, PartialEq, Hash, Structural)]
pub enum OciDefaultsCapability {
    AuditControl,
    AuditRead,
    AuditWrite,
    BlockSuspend,
    Bpf,
    CheckpointRestore,
    Chown,
    DacOverride,
    DacReadSearch,
    Fowner,
    Fsetid,
    IpcLock,
    IpcOwner,
    Kill,
    Lease,
    LinuxImmutable,
    MacAdmin,
    MacOverride,
    Mknod,
    NetAdmin,
    NetBindService,
    NetBroadcast,
    NetRaw,
    Perfmon,
    Setgid,
    Setfcap,
    Setpcap,
    Setuid,
    SysAdmin,
    SysBoot,
    SysChroot,
    SysModule,
    SysNice,
    SysPacct,
    SysPtrace,
    SysRawio,
    SysResource,
    SysTime,
    SysTtyConfig,
    Syslog,
    WakeAlarm,
}

/// The character that stands for `c` in a kernel name: ASCII lowercase
/// letters in upper case, a hyphen as an underscore.
pub open spec fn kernel_char(c: char) -> char {
    if 'a' <= c && c <= 'z' {
        ((c as u8) - 32) as char
    } else if c == '-' {
        '_'
    } else {
        c
    }
}

/// The kernel form of a token, character by character.
pub open spec fn kernel_form(s: Seq<char>) -> Seq<char> {
    s.map_values(|c: char| kernel_char(c))
}

fn to_kernel_char(c: char) -> (r: char)
    ensures
        r == kernel_char(c),
{
    if 'a' <= c && c <= 'z' {
        ((c as u8) - 32) as char
    } else if c == '-' {
        '_'
    } else {
        c
    }
}

impl OciDefaultsCapability {
    /// The canonical token of the capability.
    pub open spec fn token(self) -> Seq<char> {
        match self {
            OciDefaultsCapability::AuditControl => "audit-control"@,
            OciDefaultsCapability::AuditRead => "audit-read"@,
            OciDefaultsCapability::AuditWrite => "audit-write"@,
            OciDefaultsCapability::BlockSuspend => "block-suspend"@,
            OciDefaultsCapability::Bpf => "bpf"@,
            OciDefaultsCapability::CheckpointRestore => "checkpoint-restore"@,
            OciDefaultsCapability::Chown => "chown"@,
            OciDefaultsCapability::DacOverride => "dac-override"@,
            OciDefaultsCapability::DacReadSearch => "dac-read-search"@,
            OciDefaultsCapability::Fowner => "fowner"@,
            OciDefaultsCapability::Fsetid => "fsetid"@,
            OciDefaultsCapability::IpcLock => "ipc-lock"@,
            OciDefaultsCapability::IpcOwner => "ipc-owner"@,
            OciDefaultsCapability::Kill => "kill"@,
            OciDefaultsCapability::Lease => "lease"@,
            OciDefaultsCapability::LinuxImmutable => "linux-immutable"@,
            OciDefaultsCapability::MacAdmin => "mac-admin"@,
            OciDefaultsCapability::MacOverride => "mac-override"@,
            OciDefaultsCapability::Mknod => "mknod"@,
            OciDefaultsCapability::NetAdmin => "net-admin"@,
            OciDefaultsCapability::NetBindService => "net-bind-service"@,
            OciDefaultsCapability::NetBroadcast => "net-broadcast"@,
            OciDefaultsCapability::NetRaw => "net-raw"@,
            OciDefaultsCapability::Perfmon => "perfmon"@,
            OciDefaultsCapability::Setgid => "setgid"@,
            OciDefaultsCapability::Setfcap => "setfcap"@,
            OciDefaultsCapability::Setpcap => "setpcap"@,
            OciDefaultsCapability::Setuid => "setuid"@,
            OciDefaultsCapability::SysAdmin => "sys-admin"@,
            OciDefaultsCapability::SysBoot => "sys-boot"@,
            OciDefaultsCapability::SysChroot => "sys-chroot"@,
            OciDefaultsCapability::SysModule => "sys-module"@,
            OciDefaultsCapability::SysNice => "sys-nice"@,
            OciDefaultsCapability::SysPacct => "sys-pacct"@,
            OciDefaultsCapability::SysPtrace => "sys-ptrace"@,
            OciDefaultsCapability::SysRawio => "sys-rawio"@,
            OciDefaultsCapability::SysResource => "sys-resource"@,
            OciDefaultsCapability::SysTime => "sys-time"@,
            OciDefaultsCapability::SysTtyConfig => "sys-tty-config"@,
            OciDefaultsCapability::Syslog => "syslog"@,
            OciDefaultsCapability::WakeAlarm => "wake-alarm"@,
        }
    }

    /// The kernel's name for the capability.
    pub open spec fn linux_name(self) -> Seq<char> {
        "CAP_"@ + kernel_form(self.token())
    }

    /// The canonical token, e.g. `wake-alarm`.
    pub fn to_string(&self) -> (r: String)
        ensures
            r@ == self.token(),
    {
        match self {
            OciDefaultsCapability::AuditControl => String::from_str("audit-control"),
            OciDefaultsCapability::AuditRead => String::from_str("audit-read"),
            OciDefaultsCapability::AuditWrite => String::from_str("audit-write"),
            OciDefaultsCapability::BlockSuspend => String::from_str("block-suspend"),
            OciDefaultsCapability::Bpf => String::from_str("bpf"),
            OciDefaultsCapability::CheckpointRestore => String::from_str("checkpoint-restore"),
            OciDefaultsCapability::Chown => String::from_str("chown"),
            OciDefaultsCapability::DacOverride => String::from_str("dac-override"),
            OciDefaultsCapability::DacReadSearch => String::from_str("dac-read-search"),
            OciDefaultsCapability::Fowner => String::from_str("fowner"),
            OciDefaultsCapability::Fsetid => String::from_str("fsetid"),
            OciDefaultsCapability::IpcLock => String::from_str("ipc-lock"),
            OciDefaultsCapability::IpcOwner => String::from_str("ipc-owner"),
            OciDefaultsCapability::Kill => String::from_str("kill"),
            OciDefaultsCapability::Lease => String::from_str("lease"),
            OciDefaultsCapability::LinuxImmutable => String::from_str("linux-immutable"),
            OciDefaultsCapability::MacAdmin => String::from_str("mac-admin"),
            OciDefaultsCapability::MacOverride => String::from_str("mac-override"),
            OciDefaultsCapability::Mknod => String::from_str("mknod"),
            OciDefaultsCapability::NetAdmin => String::from_str("net-admin"),
            OciDefaultsCapability::NetBindService => String::from_str("net-bind-service"),
            OciDefaultsCapability::NetBroadcast => String::from_str("net-broadcast"),
            OciDefaultsCapability::NetRaw => String::from_str("net-raw"),
            OciDefaultsCapability::Perfmon => String::from_str("perfmon"),
            OciDefaultsCapability::Setgid => String::from_str("setgid"),
            OciDefaultsCapability::Setfcap => String::from_str("setfcap"),
            OciDefaultsCapability::Setpcap => String::from_str("setpcap"),
            OciDefaultsCapability::Setuid => String::from_str("setuid"),
            OciDefaultsCapability::SysAdmin => String::from_str("sys-admin"),
            OciDefaultsCapability::SysBoot => String::from_str("sys-boot"),
            OciDefaultsCapability::SysChroot => String::from_str("sys-chroot"),
            OciDefaultsCapability::SysModule => String::from_str("sys-module"),
            OciDefaultsCapability::SysNice => String::from_str("sys-nice"),
            OciDefaultsCapability::SysPacct => String::from_str("sys-pacct"),
            OciDefaultsCapability::SysPtrace => String::from_str("sys-ptrace"),
            OciDefaultsCapability::SysRawio => String::from_str("sys-rawio"),
            OciDefaultsCapability::SysResource => String::from_str("sys-resource"),
            OciDefaultsCapability::SysTime => String::from_str("sys-time"),
            OciDefaultsCapability::SysTtyConfig => String::from_str("sys-tty-config"),
            OciDefaultsCapability::Syslog => String::from_str("syslog"),
            OciDefaultsCapability::WakeAlarm => String::from_str("wake-alarm"),
        }
    }

    /// Reads a canonical token; anything else is refused.
    pub fn parse(s: &str) -> (r: Result<Self, ValidationError>)
        ensures
            match r {
                Ok(c) => c.token() == s@,
                Err(e) => {
                    &&& forall|c: OciDefaultsCapability| c.token() != s@
                    &&& e.kind == ValueKind::Capability
                    &&& e.input@ == s@
                    &&& e.violation == Violation::UnknownToken
                },
            },
    {
        if same_text(s, "audit-control") {
            Ok(OciDefaultsCapability::AuditControl)
        } else if same_text(s, "audit-read") {
            Ok(OciDefaultsCapability::AuditRead)
        } else if same_text(s, "audit-write") {
            Ok(OciDefaultsCapability::AuditWrite)
        } else if same_text(s, "block-suspend") {
            Ok(OciDefaultsCapability::BlockSuspend)
        } else if same_text(s, "bpf") {
            Ok(OciDefaultsCapability::Bpf)
        } else if same_text(s, "checkpoint-restore") {
            Ok(OciDefaultsCapability::CheckpointRestore)
        } else if same_text(s, "chown") {
            Ok(OciDefaultsCapability::Chown)
        } else if same_text(s, "dac-override") {
            Ok(OciDefaultsCapability::DacOverride)
        } else if same_text(s, "dac-read-search") {
            Ok(OciDefaultsCapability::DacReadSearch)
        } else if same_text(s, "fowner") {
            Ok(OciDefaultsCapability::Fowner)
        } else if same_text(s, "fsetid") {
            Ok(OciDefaultsCapability::Fsetid)
        } else if same_text(s, "ipc-lock") {
            Ok(OciDefaultsCapability::IpcLock)
        } else if same_text(s, "ipc-owner") {
            Ok(OciDefaultsCapability::IpcOwner)
        } else if same_text(s, "kill") {
            Ok(OciDefaultsCapability::Kill)
        } else if same_text(s, "lease") {
            Ok(OciDefaultsCapability::Lease)
        } else if same_text(s, "linux-immutable") {
            Ok(OciDefaultsCapability::LinuxImmutable)
        } else if same_text(s, "mac-admin") {
            Ok(OciDefaultsCapability::MacAdmin)
        } else if same_text(s, "mac-override") {
            Ok(OciDefaultsCapability::MacOverride)
        } else if same_text(s, "mknod") {
            Ok(OciDefaultsCapability::Mknod)
        } else if same_text(s, "net-admin") {
            Ok(OciDefaultsCapability::NetAdmin)
        } else if same_text(s, "net-bind-service") {
            Ok(OciDefaultsCapability::NetBindService)
        } else if same_text(s, "net-broadcast") {
            Ok(OciDefaultsCapability::NetBroadcast)
        } else if same_text(s, "net-raw") {
            Ok(OciDefaultsCapability::NetRaw)
        } else if same_text(s, "perfmon") {
            Ok(OciDefaultsCapability::Perfmon)
        } else if same_text(s, "setgid") {
            Ok(OciDefaultsCapability::Setgid)
        } else if same_text(s, "setfcap") {
            Ok(OciDefaultsCapability::Setfcap)
        } else if same_text(s, "setpcap") {
            Ok(OciDefaultsCapability::Setpcap)
        } else if same_text(s, "setuid") {
            Ok(OciDefaultsCapability::Setuid)
        } else if same_text(s, "sys-admin") {
            Ok(OciDefaultsCapability::SysAdmin)
        } else if same_text(s, "sys-boot") {
            Ok(OciDefaultsCapability::SysBoot)
        } else if same_text(s, "sys-chroot") {
            Ok(OciDefaultsCapability::SysChroot)
        } else if same_text(s, "sys-module") {
            Ok(OciDefaultsCapability::SysModule)
        } else if same_text(s, "sys-nice") {
            Ok(OciDefaultsCapability::SysNice)
        } else if same_text(s, "sys-pacct") {
            Ok(OciDefaultsCapability::SysPacct)
        } else if same_text(s, "sys-ptrace") {
            Ok(OciDefaultsCapability::SysPtrace)
        } else if same_text(s, "sys-rawio") {
            Ok(OciDefaultsCapability::SysRawio)
        } else if same_text(s, "sys-resource") {
            Ok(OciDefaultsCapability::SysResource)
        } else if same_text(s, "sys-time") {
            Ok(OciDefaultsCapability::SysTime)
        } else if same_text(s, "sys-tty-config") {
            Ok(OciDefaultsCapability::SysTtyConfig)
        } else if same_text(s, "syslog") {
            Ok(OciDefaultsCapability::Syslog)
        } else if same_text(s, "wake-alarm") {
            Ok(OciDefaultsCapability::WakeAlarm)
        } else {
            Err(ValidationError {
                kind: ValueKind::Capability,
                input: String::from_str(s),
                violation: Violation::UnknownToken,
            })
        }
    }

    /// Converts the token into the kernel's capability name, e.g. turns
    /// `wake-alarm` into `CAP_WAKE_ALARM`.
    pub fn to_linux_string(&self) -> (r: String)
        ensures
            r@ == self.linux_name(),
    {
        let token = self.to_string();
        let t = token.as_str();
        let n = t.unicode_len();
        let mut out = String::from_str("CAP_");
        let mut i: usize = 0;
        while i < n
            invariant
                t@ == self.token(),
                n == t@.len(),
                i <= n,
                out@ == "CAP_"@ + kernel_form(t@.take(i as int)),
            decreases n - i,
        {
            let c = t.get_char(i);
            push_char(&mut out, to_kernel_char(c));
            assert(kernel_form(t@.take(i + 1)) == kernel_form(t@.take(i as int)).push(kernel_char(c)));
            i = i + 1;
        }
        assert(t@.take(n as int) == t@);
        out
    }
}

/// Distinct capabilities have distinct tokens.
proof fn lemma_capability_tokens_distinct(a: OciDefaultsCapability, b: OciDefaultsCapability)
    requires
        a.token() == b.token(),
    ensures
        a == b,
{
    if a != b {
        reveal_strlit("audit-control");
        reveal_strlit("audit-read");
        reveal_strlit("audit-write");
        reveal_strlit("block-suspend");
        reveal_strlit("bpf");
        reveal_strlit("checkpoint-restore");
        reveal_strlit("chown");
        reveal_strlit("dac-override");
        reveal_strlit("dac-read-search");
        reveal_strlit("fowner");
        reveal_strlit("fsetid");
        reveal_strlit("ipc-lock");
        reveal_strlit("ipc-owner");
        reveal_strlit("kill");
        reveal_strlit("lease");
        reveal_strlit("linux-immutable");
        reveal_strlit("mac-admin");
        reveal_strlit("mac-override");
        reveal_strlit("mknod");
        reveal_strlit("net-admin");
        reveal_strlit("net-bind-service");
        reveal_strlit("net-broadcast");
        reveal_strlit("net-raw");
        reveal_strlit("perfmon");
        reveal_strlit("setgid");
        reveal_strlit("setfcap");
        reveal_strlit("setpcap");
        reveal_strlit("setuid");
        reveal_strlit("sys-admin");
        reveal_strlit("sys-boot");
        reveal_strlit("sys-chroot");
        reveal_strlit("sys-module");
        reveal_strlit("sys-nice");
        reveal_strlit("sys-pacct");
        reveal_strlit("sys-ptrace");
        reveal_strlit("sys-rawio");
        reveal_strlit("sys-resource");
        reveal_strlit("sys-time");
        reveal_strlit("sys-tty-config");
        reveal_strlit("syslog");
        reveal_strlit("wake-alarm");
        let (x, y) = (a.token(), b.token());
        assert(x.len() == y.len());
        assert(x[0] == y[0] && x[3] == y[3]);
        assert(x.len() > 4 ==> x[4] == y[4]);
    }
}

/// Reading back the token of a capability gives the same capability: no
/// other capability has that token, so `parse` of it can only return `c`.
pub proof fn lemma_capability_round_trip(c: OciDefaultsCapability)
    ensures
        forall|d: OciDefaultsCapability| #[trigger] d.token() == c.token() ==> d == c,
{
    assert forall|d: OciDefaultsCapability| #[trigger] d.token() == c.token() implies d == c by {
        lemma_capability_tokens_distinct(d, c);
    }
}

/// The resource limits whose defaults may be configured.
#[derive(Debug, Copy, Clone, Eq, PartialEq, Hash, Structural)]
pub enum OciDefaultsResourceLimitType {
    MaxOpenFiles,
}

impl OciDefaultsResourceLimitType {
    /// The canonical token of the resource limit.
    pub open spec fn token(self) -> Seq<char> {
        match self {
            OciDefaultsResourceLimitType::MaxOpenFiles => "max-open-files"@,
        }
    }

    /// The kernel's name for the resource limit.
    pub open spec fn linux_name(self) -> Seq<char> {
        match self {
            OciDefaultsResourceLimitType::MaxOpenFiles => "RLIMIT_NOFILE"@,
        }
    }

    /// The canonical token, e.g. `max-open-files`.
    pub fn to_string(&self) -> (r: String)
        ensures
            r@ == self.token(),
    {
        match self {
            OciDefaultsResourceLimitType::MaxOpenFiles => String::from_str("max-open-files"),
        }
    }

    /// Reads a canonical token; anything else is refused.
    pub fn parse(s: &str) -> (r: Result<Self, ValidationError>)
        ensures
            match r {
                Ok(l) => l.token() == s@,
                Err(e) => {
                    &&& forall|l: OciDefaultsResourceLimitType| l.token() != s@
                    &&& e.kind == ValueKind::ResourceLimit
                    &&& e.input@ == s@
                    &&& e.violation == Violation::UnknownToken
                },
            },
    {
        if same_text(s, "max-open-files") {
            Ok(OciDefaultsResourceLimitType::MaxOpenFiles)
        } else {
            Err(ValidationError {
                kind: ValueKind::ResourceLimit,
                input: String::from_str(s),
                violation: Violation::UnknownToken,
            })
        }
    }

    /// Reading back the token of a resource limit gives the same resource
    /// limit.
    pub proof fn lemma_round_trip(self)
        ensures
            forall|d: OciDefaultsResourceLimitType| #[trigger] d.token() == self.token() ==> d == self,
    {
    }

    /// The kernel's name for the resource limit, e.g. `RLIMIT_NOFILE` for
    /// `max-open-files`.
    pub fn to_linux_string(&self) -> (r: &'static str)
        ensures
            r@ == self.linux_name(),
    {
        match self {
            OciDefaultsResourceLimitType::MaxOpenFiles => "RLIMIT_NOFILE",
        }
    }
}

} // verus!
