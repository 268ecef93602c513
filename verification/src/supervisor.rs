//! Process supervisor core: the decisions of installing, starting, health
//! re-checking and stopping the single inference-server subprocess, and the
//! bounded log buffer its output readers share. The process spawning, the
//! grace-period sleep and the reader tasks themselves are outside work driven
//! by the host around these decisions.

use vstd::prelude::*;
use crate::numfmt::{
    i64_to_decimal, parse_u16, spec_decimal, spec_decimal_i64, u64_to_decimal,
};
use crate::textutil::{lower_seq, str_ends_with_ignore_ascii_case, str_eq, str_eq_ignore_ascii_case};

verus! {

/// Capacity of the shared log buffer, in lines.
pub const LOG_CAPACITY: usize = 1000;

/// Version tag of the inference-server release this crate installs.
pub const LLAMA_VERSION: &'static str = "b6940";

pub const WIN_X64_URL: &'static str =
    "https://github.com/ggml-org/llama.cpp/releases/download/b6940/llama-b6940-bin-win-cpu-x64.zip";

pub const WIN_ARM_URL: &'static str =
    "https://github.com/ggml-org/llama.cpp/releases/download/b6916/llama-b6916-bin-win-cpu-arm64.zip";

pub const LINUX_X64_URL: &'static str =
    "https://github.com/ggml-org/llama.cpp/releases/download/b6940/llama-b6940-bin-ubuntu-x64.zip";

pub const MACOS_ARM_URL: &'static str =
    "https://github.com/ggml-org/llama.cpp/releases/download/b6940/llama-b6940-bin-macos-arm64.zip";

pub const MACOS_X64_URL: &'static str =
    "https://github.com/ggml-org/llama.cpp/releases/download/b6940/llama-b6940-bin-macos-x64.zip";

/// Errors of the supervisor.
#[derive(Clone, Copy, PartialEq, Eq, Structural, Debug)]
pub enum SupervisorError {
    /// The server binary is absent; install it first.
    BinaryMissing,
    /// The model file is absent; download it first.
    ModelMissing,
    /// The process exited within the startup grace window.
    ImmediateExit,
    /// No download source exists for this platform.
    PlatformUnsupported,
}

/// Install-and-runtime status of the server.
#[derive(Debug)]
pub struct ServerStatus {
    pub installed: bool,
    pub version: Option<String>,
    pub path: Option<String>,
    pub running: bool,
    pub pid: Option<u32>,
}

/// Composes the status from the two checks: the filesystem's and the
/// supervisor's. The version and path are only meaningful when a binary is
/// present.
pub fn server_status_of(installed: bool, path: String, pid: Option<u32>) -> (r: ServerStatus)
    ensures
        r.installed == installed,
        r.running == (pid is Some),
        r.pid == pid,
        installed ==> r.version is Some && r.version.unwrap()@ == LLAMA_VERSION@,
        installed ==> r.path is Some && r.path.unwrap()@ == path@,
        !installed ==> r.version is None && r.path is None,
{
    let running = pid.is_some();
    if installed {
        ServerStatus {
            installed,
            version: Some(String::from_str(LLAMA_VERSION)),
            path: Some(path),
            running,
            pid,
        }
    } else {
        ServerStatus { installed, version: None, path: None, running, pid }
    }
}

/// The download source for an operating system and architecture; platforms
/// without a published build are `PlatformUnsupported`.
pub fn download_url_for_platform(os: &str, arch: &str) -> (r: Result<String, SupervisorError>)
    ensures
        os@ == "windows"@ && arch@ == "x86_64"@ ==> r is Ok && r.unwrap()@ == WIN_X64_URL@,
        os@ == "windows"@ && arch@ == "aarch64"@ ==> r is Ok && r.unwrap()@ == WIN_ARM_URL@,
        os@ == "linux"@ && arch@ == "x86_64"@ ==> r is Ok && r.unwrap()@ == LINUX_X64_URL@,
        os@ == "macos"@ && arch@ == "aarch64"@ ==> r is Ok && r.unwrap()@ == MACOS_ARM_URL@,
        os@ == "macos"@ && arch@ == "x86_64"@ ==> r is Ok && r.unwrap()@ == MACOS_X64_URL@,
        !((os@ == "windows"@ || os@ == "linux"@ || os@ == "macos"@) && (arch@ == "x86_64"@ || arch@
            == "aarch64"@)) ==> r == Err::<String, SupervisorError>(
            SupervisorError::PlatformUnsupported,
        ),
        os@ == "linux"@ && arch@ == "aarch64"@ ==> r == Err::<String, SupervisorError>(
            SupervisorError::PlatformUnsupported,
        ),
{
    proof {
        reveal_strlit("windows");
        reveal_strlit("linux");
        reveal_strlit("macos");
        reveal_strlit("x86_64");
        reveal_strlit("aarch64");
        assert("windows"@.len() == 7);
        assert("linux"@.len() == 5);
        assert("macos"@.len() == 5);
        assert("macos"@[0] == 'm');
        assert("linux"@[0] == 'l');
        assert("x86_64"@.len() == 6);
        assert("aarch64"@.len() == 7);
        assert("windows"@ != "linux"@ && "windows"@ != "macos"@ && "linux"@ != "macos"@);
        assert("x86_64"@ != "aarch64"@);
    }
    let win = str_eq(os, "windows");
    let linux = str_eq(os, "linux");
    let macos = str_eq(os, "macos");
    let x64 = str_eq(arch, "x86_64");
    let arm = str_eq(arch, "aarch64");
    if win && x64 {
        Ok(String::from_str(WIN_X64_URL))
    } else if win && arm {
        Ok(String::from_str(WIN_ARM_URL))
    } else if linux && x64 {
        Ok(String::from_str(LINUX_X64_URL))
    } else if macos && arm {
        Ok(String::from_str(MACOS_ARM_URL))
    } else if macos && x64 {
        Ok(String::from_str(MACOS_X64_URL))
    } else {
        Err(SupervisorError::PlatformUnsupported)
    }
}

/// The server binary's expected location under the application's base
/// directory, with the platform's executable name.
pub fn server_binary_path(base: &str, windows: bool) -> (r: String)
    ensures
        windows ==> r@ == base@ + "/llama-bin/llama-server.exe"@,
        !windows ==> r@ == base@ + "/llama-bin/llama-server"@,
{
    if windows {
        String::from_str(base).concat("/llama-bin/llama-server.exe")
    } else {
        String::from_str(base).concat("/llama-bin/llama-server")
    }
}

/// The search-path value handed to the spawned process: the binary's own
/// directory, the platform's separator, then the inherited value, so that
/// co-located shared libraries resolve first.
pub fn injected_path(bin_dir: &str, separator: &str, current: &str) -> (r: String)
    ensures
        r@ == bin_dir@ + separator@ + current@,
{
    String::from_str(bin_dir).concat(separator).concat(current)
}

/// The server's base URL: an explicit override wins; otherwise localhost at
/// the configured port, 8080 where none parses.
pub fn resolve_server_url(url_override: Option<String>, port_text: Option<String>) -> (r: String)
    ensures
        url_override is Some ==> r@ == url_override.unwrap()@,
        url_override is None ==> ({
            let port: nat = match port_text {
                Option::Some(p) => if p@.len() > 0 && crate::numfmt::all_digits(p@)
                    && crate::numfmt::spec_digits_value(p@) <= u16::MAX as nat {
                    crate::numfmt::spec_digits_value(p@)
                } else {
                    8080
                },
                Option::None => 8080,
            };
            r@ == "http://localhost:"@ + spec_decimal(port)
        }),
{
    match url_override {
        Some(u) => u,
        None => {
            let port: u16 = match port_text {
                Some(p) => match parse_u16(p.as_str()) {
                    Some(v) => v,
                    None => 8080,
                },
                None => 8080,
            };
            String::from_str("http://localhost:").concat(u64_to_decimal(port as u64).as_str())
        },
    }
}

/// The argument list the server is launched with: the model path, the port,
/// the context size, and the embeddings endpoint enabled.
pub fn build_launch_args(model_path: &str, port: u16, ctx_size: i32) -> (r: Vec<String>)
    ensures
        r@.len() == 7,
        r@[0]@ == "-m"@,
        r@[1]@ == model_path@,
        r@[2]@ == "--port"@,
        r@[3]@ == spec_decimal(port as nat),
        r@[4]@ == "--ctx-size"@,
        r@[5]@ == spec_decimal_i64(ctx_size as int),
        r@[6]@ == "--embeddings"@,
{
    let mut args: Vec<String> = Vec::new();
    args.push(String::from_str("-m"));
    args.push(String::from_str(model_path));
    args.push(String::from_str("--port"));
    args.push(u64_to_decimal(port as u64));
    args.push(String::from_str("--ctx-size"));
    args.push(i64_to_decimal(ctx_size as i64));
    args.push(String::from_str("--embeddings"));
    args
}

/// The bounded FIFO of recent log lines shared by the output readers:
/// appending beyond capacity evicts the oldest line.
pub struct LogBuffer {
    pub lines: Vec<String>,
}

impl LogBuffer {
    /// At most `LOG_CAPACITY` lines are retained.
    pub open spec fn wf(&self) -> bool {
        self.lines@.len() <= LOG_CAPACITY
    }

    pub fn new() -> (r: LogBuffer)
        ensures
            r.wf(),
            r.lines@ == Seq::<String>::empty(),
    {
        LogBuffer { lines: Vec::new() }
    }

    /// Appends one line; where the buffer is full the oldest line is evicted
    /// first.
    pub fn push_line(&mut self, line: String)
        requires
            old(self).wf(),
        ensures
            final(self).wf(),
            old(self).lines@.len() < LOG_CAPACITY ==> final(self).lines@ == old(self).lines@.push(
                line,
            ),
            old(self).lines@.len() >= LOG_CAPACITY ==> final(self).lines@ == old(self).lines@.skip(1).push(line),
    {
        if self.lines.len() >= LOG_CAPACITY {
            self.lines.remove(0);
            proof {
                assert(self.lines@ =~= old(self).lines@.skip(1));
            }
        }
        self.lines.push(line);
    }

    /// A copy of the retained lines, oldest first.
    pub fn get_logs_snapshot(&self) -> (r: Vec<String>)
        ensures
            r@.len() == self.lines@.len(),
            forall|i: int| 0 <= i < r@.len() ==> r@[i]@ == self.lines@[i]@,
    {
        let mut out: Vec<String> = Vec::new();
        let n = self.lines.len();
        let mut i: usize = 0;
        while i < n
            invariant
                i <= n,
                n == self.lines@.len(),
                out@.len() == i,
                forall|j: int| 0 <= j < i ==> out@[j]@ == self.lines@[j]@,
            decreases n - i,
        {
            out.push(self.lines[i].clone());
            i += 1;
        }
        out
    }

    /// Empties the buffer.
    pub fn clear_logs(&mut self)
        ensures
            final(self).wf(),
            final(self).lines@ == Seq::<String>::empty(),
    {
        self.lines.clear();
    }
}

/// Result of probing the tracked process handle.
#[derive(Clone, Copy, PartialEq, Eq, Structural, Debug)]
pub enum Liveness {
    StillRunning,
    Exited,
}

/// What a start request decides.
#[derive(Clone, Copy, PartialEq, Eq, Structural, Debug)]
pub enum StartDecision {
    /// A process is already live; its id is returned and nothing is spawned.
    AlreadyRunning(u32),
    /// No live process is tracked; the caller may spawn one.
    Proceed,
}

/// What a stop request decides.
#[derive(Clone, Copy, PartialEq, Eq, Structural, Debug)]
pub enum StopDecision {
    /// Signal the process and wait for its exit.
    SignalAndWait(u32),
    /// Nothing is running; stopping succeeds with nothing to do.
    AlreadyStopped,
}

/// The start transition on the tracked handle: a live process is kept and
/// answered with its id; a dead or absent one is cleared and the caller may
/// spawn.
pub open spec fn spec_start_transition(stored: Option<u32>, live: Option<Liveness>) -> (
    Option<u32>,
    StartDecision,
) {
    match (stored, live) {
        (Option::Some(pid), Option::Some(Liveness::StillRunning)) => (
            Option::Some(pid),
            StartDecision::AlreadyRunning(pid),
        ),
        (Option::Some(_), _) => (Option::None, StartDecision::Proceed),
        (Option::None, _) => (Option::None, StartDecision::Proceed),
    }
}

/// The stop transition on the tracked handle: a tracked process is signaled
/// and cleared; none means stopping succeeds at once.
pub open spec fn spec_stop_transition(stored: Option<u32>) -> (Option<u32>, StopDecision) {
    match stored {
        Option::Some(pid) => (Option::None, StopDecision::SignalAndWait(pid)),
        Option::None => (Option::None, StopDecision::AlreadyStopped),
    }
}

/// The supervisor's own state: the id of the tracked subprocess, where one
/// is stored. The host guards one instance of this state with one lock and
/// performs every transition under it.
pub struct SupervisorCore {
    pub tracked_pid: Option<u32>,
}

impl SupervisorCore {
    pub fn new() -> (r: SupervisorCore)
        ensures
            r.tracked_pid is None,
    {
        SupervisorCore { tracked_pid: None }
    }

    /// Handles a start request under the host's lock. `live` is the probe of
    /// the tracked handle, made under the same lock; it is meaningful
    /// exactly where a handle is tracked.
    pub fn on_start_request(&mut self, live: Option<Liveness>) -> (r: StartDecision)
        requires
            old(self).tracked_pid is Some <==> live is Some,
        ensures
            final(self).tracked_pid == spec_start_transition(old(self).tracked_pid, live).0,
            r == spec_start_transition(old(self).tracked_pid, live).1,
    {
        match (self.tracked_pid, live) {
            (Some(pid), Some(Liveness::StillRunning)) => StartDecision::AlreadyRunning(pid),
            _ => {
                self.tracked_pid = None;
                StartDecision::Proceed
            },
        }
    }

    /// The precondition checks of a start: the binary, then the model.
    pub fn start_preconditions(binary_exists: bool, model_exists: bool) -> (r: Result<
        (),
        SupervisorError,
    >)
        ensures
            !binary_exists ==> r == Err::<(), SupervisorError>(SupervisorError::BinaryMissing),
            binary_exists && !model_exists ==> r == Err::<(), SupervisorError>(
                SupervisorError::ModelMissing,
            ),
            binary_exists && model_exists ==> r is Ok,
    {
        if !binary_exists {
            Err(SupervisorError::BinaryMissing)
        } else if !model_exists {
            Err(SupervisorError::ModelMissing)
        } else {
            Ok(())
        }
    }

    /// Records the spawned process.
    pub fn on_spawned(&mut self, pid: u32)
        requires
            old(self).tracked_pid is None,
        ensures
            final(self).tracked_pid == Option::Some(pid),
    {
        self.tracked_pid = Some(pid);
    }

    /// The re-check after the grace interval: a process that already exited
    /// is an `ImmediateExit` and the handle is cleared; a live one is
    /// running and its id is returned.
    pub fn after_grace(&mut self, exited: bool) -> (r: Result<u32, SupervisorError>)
        requires
            old(self).tracked_pid is Some,
        ensures
            exited ==> r == Err::<u32, SupervisorError>(SupervisorError::ImmediateExit) && final(self).tracked_pid is None,
            !exited ==> r == Ok::<u32, SupervisorError>(old(self).tracked_pid.unwrap()) && final(self).tracked_pid == old(self).tracked_pid,
    {
        if exited {
            self.tracked_pid = None;
            Err(SupervisorError::ImmediateExit)
        } else {
            match self.tracked_pid {
                Some(pid) => Ok(pid),
                None => Err(SupervisorError::ImmediateExit),
            }
        }
    }

    /// Handles a stop request under the host's lock. Stopping with nothing
    /// running succeeds: the decision is `AlreadyStopped` and the state is
    /// unchanged.
    pub fn on_stop_request(&mut self) -> (r: StopDecision)
        ensures
            final(self).tracked_pid == spec_stop_transition(old(self).tracked_pid).0,
            r == spec_stop_transition(old(self).tracked_pid).1,
            old(self).tracked_pid is None ==> r == StopDecision::AlreadyStopped && final(self).tracked_pid is None,
    {
        match self.tracked_pid {
            Some(pid) => {
                self.tracked_pid = None;
                StopDecision::SignalAndWait(pid)
            },
            None => StopDecision::AlreadyStopped,
        }
    }
}

/// LAW. Two start requests serialized by the supervisor's lock spawn exactly
/// one process: the first proceeds and records the spawned id; the second,
/// probing that process alive under the same lock, is answered with the
/// existing id, decides no spawn, and leaves the tracked handle as it is.
pub proof fn lemma_start_twice_single_instance(pid: u32)
    ensures
        ({
            let s0 = Option::<u32>::None;
            let (s1, d1) = spec_start_transition(s0, Option::None);
            let s2 = Option::Some(pid);
            let (s3, d2) = spec_start_transition(s2, Option::Some(Liveness::StillRunning));
            d1 == StartDecision::Proceed && s1 is None && d2 == StartDecision::AlreadyRunning(pid)
                && s3 == Option::Some(pid)
        }),
{
}

/// LAW. Stopping is idempotent: a stop request with no tracked process
/// succeeds with nothing to do and changes nothing, however often repeated.
pub proof fn lemma_stop_idempotent()
    ensures
        ({
            let (s1, d1) = spec_stop_transition(Option::None);
            let (s2, d2) = spec_stop_transition(s1);
            d1 == StopDecision::AlreadyStopped && d2 == StopDecision::AlreadyStopped && s1 is None
                && s2 is None
        }),
{
}


/// Position of the first path separator at or after `i`.
pub open spec fn find_sep_from(s: Seq<char>, i: int) -> Option<int>
    decreases s.len() - i,
{
    if i < 0 || i >= s.len() {
        Option::None
    } else if s[i] == '/' || s[i] == '\\' {
        Option::Some(i)
    } else {
        find_sep_from(s, i + 1)
    }
}

/// The last path segment of an archive entry's name.
pub open spec fn spec_basename(s: Seq<char>) -> Seq<char>
    decreases s.len(),
{
    match find_sep_from(s, 0) {
        Option::None => s,
        Option::Some(p) => if 0 <= p < s.len() {
            spec_basename(s.skip(p + 1))
        } else {
            s
        },
    }
}

proof fn lemma_basename_after_last_sep(s: Seq<char>, k: int)
    requires
        0 <= k <= s.len(),
        forall|j: int| k <= j < s.len() ==> s[j] != '/' && s[j] != '\\',
        k > 0 ==> s[k - 1] == '/' || s[k - 1] == '\\',
    ensures
        spec_basename(s) == s.skip(k),
    decreases s.len(),
{
    if k == 0 {
        assert(find_sep_from(s, 0) is None) by {
            lemma_no_sep(s, 0);
        }
        assert(s.skip(0) =~= s);
    } else {
        let p = choose_first_sep(s);
        assert(find_sep_from(s, 0) == Option::Some(p));
        assert(p <= k - 1);
        assert(s.skip(p + 1).skip(k - p - 1) =~= s.skip(k));
        lemma_basename_after_last_sep(s.skip(p + 1), k - p - 1);
    }
}

/// The first separator position, where one exists.
proof fn choose_first_sep(s: Seq<char>) -> (p: int)
    requires
        exists|j: int| 0 <= j < s.len() && (#[trigger] s[j] == '/' || #[trigger] s[j] == '\\'),
    ensures
        0 <= p < s.len(),
        s[p] == '/' || s[p] == '\\',
        find_sep_from(s, 0) == Option::Some(p),
        forall|j: int| 0 <= j < p ==> s[j] != '/' && s[j] != '\\',
    decreases s.len(),
{
    lemma_find_sep_props(s, 0);
    let r = find_sep_from(s, 0);
    r.unwrap()
}

proof fn lemma_find_sep_props(s: Seq<char>, i: int)
    requires
        0 <= i <= s.len(),
    ensures
        match find_sep_from(s, i) {
            Option::Some(p) => i <= p < s.len() && (s[p] == '/' || s[p] == '\\') && forall|j: int|
                i <= j < p ==> s[j] != '/' && s[j] != '\\',
            Option::None => forall|j: int| i <= j < s.len() ==> s[j] != '/' && s[j] != '\\',
        },
    decreases s.len() - i,
{
    if i < s.len() {
        lemma_find_sep_props(s, i + 1);
    }
}

proof fn lemma_no_sep(s: Seq<char>, i: int)
    requires
        0 <= i <= s.len(),
        forall|j: int| 0 <= j < s.len() ==> s[j] != '/' && s[j] != '\\',
    ensures
        find_sep_from(s, i) is None,
    decreases s.len() - i,
{
    if i < s.len() {
        lemma_no_sep(s, i + 1);
    }
}

/// The basename of an archive entry's full name: what follows the last path
/// separator, so nested archive paths never escape the target directory.
pub fn entry_basename(name: &str) -> (r: String)
    ensures
        r@ == spec_basename(name@),
{
    let len = name.unicode_len();
    let mut k: usize = len;
    loop
        invariant_except_break
            k <= len,
            len == name@.len(),
            forall|j: int| k <= j < len ==> name@[j] != '/' && name@[j] != '\\',
        ensures
            k <= len,
            len == name@.len(),
            forall|j: int| k <= j < len ==> name@[j] != '/' && name@[j] != '\\',
            k > 0 ==> name@[k - 1] == '/' || name@[k - 1] == '\\',
        decreases k,
    {
        if k == 0 {
            break;
        }
        let c = name.get_char(k - 1);
        if c == '/' || c == '\\' {
            break;
        }
        k -= 1;
    }
    proof {
        lemma_basename_after_last_sep(name@, k as int);
    }
    let r = name.substring_char(k, len);
    proof {
        assert(r@ =~= name@.skip(k as int));
    }
    String::from_str(r)
}

/// What to do with one archive entry.
#[derive(Clone, Copy, PartialEq, Eq, Structural, Debug)]
pub enum ZipEntryKind {
    /// The server executable itself.
    MainBinary,
    /// A shared library the server needs beside it.
    SharedLib,
    /// Anything else is not extracted.
    Skip,
}

proof fn lemma_zip_literals_lower()
    ensures
        lower_seq("llama-server.exe"@) == "llama-server.exe"@,
        lower_seq("llama-server"@) == "llama-server"@,
        lower_seq(".dll"@) == ".dll"@,
{
    reveal_strlit("llama-server.exe");
    reveal_strlit("llama-server");
    reveal_strlit(".dll");
    assert(lower_seq("llama-server.exe"@) =~= "llama-server.exe"@);
    assert(lower_seq("llama-server"@) =~= "llama-server"@);
    assert(lower_seq(".dll"@) =~= ".dll"@);
}

/// Classifies one archive entry by its basename: the server executable
/// (compared case-insensitively, with the platform's name), a shared
/// library, or something to skip.
pub fn classify_zip_entry(basename: &str, windows: bool) -> (r: ZipEntryKind)
    ensures
        ({
            let target: Seq<char> = if windows {
                "llama-server.exe"@
            } else {
                "llama-server"@
            };
            if lower_seq(basename@) == target {
                r == ZipEntryKind::MainBinary
            } else if ".dll"@.is_suffix_of(lower_seq(basename@)) {
                r == ZipEntryKind::SharedLib
            } else {
                r == ZipEntryKind::Skip
            }
        }),
{
    proof {
        lemma_zip_literals_lower();
    }
    let is_target = if windows {
        str_eq_ignore_ascii_case(basename, "llama-server.exe")
    } else {
        str_eq_ignore_ascii_case(basename, "llama-server")
    };
    if is_target {
        ZipEntryKind::MainBinary
    } else if str_ends_with_ignore_ascii_case(basename, ".dll") {
        ZipEntryKind::SharedLib
    } else {
        ZipEntryKind::Skip
    }
}

} // verus!
