use whytchat_core::numfmt::{i64_to_decimal, parse_u16, u64_to_decimal};
use whytchat_core::supervisor::{
    build_launch_args, classify_zip_entry, download_url_for_platform, entry_basename,
    injected_path, resolve_server_url, server_binary_path, server_status_of, Liveness, LogBuffer,
    StartDecision, StopDecision, SupervisorCore, SupervisorError, ZipEntryKind,
};

#[test]
fn stop_with_no_process_running_succeeds() {
    let mut core = SupervisorCore::new();
    assert_eq!(core.on_stop_request(), StopDecision::AlreadyStopped);
    // repeated stops stay successful and change nothing
    assert_eq!(core.on_stop_request(), StopDecision::AlreadyStopped);
    assert_eq!(core.tracked_pid, None);
}

#[test]
fn stop_of_a_tracked_process_signals_and_clears() {
    let mut core = SupervisorCore::new();
    core.on_start_request(None);
    core.on_spawned(1234);
    assert_eq!(core.on_stop_request(), StopDecision::SignalAndWait(1234));
    assert_eq!(core.tracked_pid, None);
    assert_eq!(core.on_stop_request(), StopDecision::AlreadyStopped);
}

#[test]
fn second_start_while_alive_spawns_nothing() {
    let mut core = SupervisorCore::new();
    // first start: nothing tracked, the caller may spawn
    assert_eq!(core.on_start_request(None), StartDecision::Proceed);
    core.on_spawned(42);
    // second start probes the live process under the same lock
    let d = core.on_start_request(Some(Liveness::StillRunning));
    assert_eq!(d, StartDecision::AlreadyRunning(42));
    assert_eq!(core.tracked_pid, Some(42));
}

#[test]
fn start_after_unnoticed_exit_proceeds() {
    let mut core = SupervisorCore::new();
    core.on_start_request(None);
    core.on_spawned(42);
    let d = core.on_start_request(Some(Liveness::Exited));
    assert_eq!(d, StartDecision::Proceed);
    assert_eq!(core.tracked_pid, None);
}

#[test]
fn immediate_exit_within_grace_window_is_an_error() {
    let mut core = SupervisorCore::new();
    core.on_start_request(None);
    core.on_spawned(42);
    let r = core.after_grace(true);
    assert_eq!(r.unwrap_err(), SupervisorError::ImmediateExit);
    assert_eq!(core.tracked_pid, None);
}

#[test]
fn surviving_grace_window_returns_the_pid() {
    let mut core = SupervisorCore::new();
    core.on_start_request(None);
    core.on_spawned(42);
    assert_eq!(core.after_grace(false).unwrap(), 42);
    assert_eq!(core.tracked_pid, Some(42));
}

#[test]
fn start_preconditions_name_the_missing_piece() {
    assert_eq!(
        SupervisorCore::start_preconditions(false, true).unwrap_err(),
        SupervisorError::BinaryMissing
    );
    assert_eq!(
        SupervisorCore::start_preconditions(true, false).unwrap_err(),
        SupervisorError::ModelMissing
    );
    assert!(SupervisorCore::start_preconditions(true, true).is_ok());
}

#[test]
fn log_buffer_evicts_oldest_beyond_capacity() {
    let mut buf = LogBuffer::new();
    for i in 0..1001u32 {
        buf.push_line(format!("line {}", i));
    }
    let snap = buf.get_logs_snapshot();
    assert_eq!(snap.len(), 1000);
    assert_eq!(snap[0], "line 1");
    assert_eq!(snap[999], "line 1000");
}

#[test]
fn log_buffer_clears_on_demand() {
    let mut buf = LogBuffer::new();
    buf.push_line("a".to_string());
    buf.push_line("b".to_string());
    assert_eq!(buf.get_logs_snapshot(), vec!["a".to_string(), "b".to_string()]);
    buf.clear_logs();
    assert_eq!(buf.get_logs_snapshot().len(), 0);
}

#[test]
fn launch_args_carry_model_port_context_and_embeddings() {
    let args = build_launch_args("models/p/m.gguf", 8080, 2048);
    let expect = ["-m", "models/p/m.gguf", "--port", "8080", "--ctx-size", "2048", "--embeddings"];
    assert_eq!(args.len(), expect.len());
    for (a, e) in args.iter().zip(expect.iter()) {
        assert_eq!(a, e);
    }
}

#[test]
fn server_url_resolution_prefers_override_then_port() {
    assert_eq!(
        resolve_server_url(Some("http://10.0.0.1:9999".to_string()), None),
        "http://10.0.0.1:9999"
    );
    assert_eq!(resolve_server_url(None, Some("9090".to_string())), "http://localhost:9090");
    assert_eq!(resolve_server_url(None, Some("not-a-port".to_string())), "http://localhost:8080");
    assert_eq!(resolve_server_url(None, Some("99999".to_string())), "http://localhost:8080");
    assert_eq!(resolve_server_url(None, None), "http://localhost:8080");
}

#[test]
fn download_urls_cover_the_supported_platforms() {
    assert!(download_url_for_platform("linux", "x86_64").unwrap().contains("ubuntu-x64"));
    assert!(download_url_for_platform("windows", "x86_64").unwrap().contains("win-cpu-x64"));
    assert!(download_url_for_platform("windows", "aarch64").unwrap().contains("arm64"));
    assert!(download_url_for_platform("macos", "aarch64").unwrap().contains("macos-arm64"));
    assert!(download_url_for_platform("macos", "x86_64").unwrap().contains("macos-x64"));
    assert_eq!(
        download_url_for_platform("freebsd", "x86_64").unwrap_err(),
        SupervisorError::PlatformUnsupported
    );
    assert_eq!(
        download_url_for_platform("linux", "aarch64").unwrap_err(),
        SupervisorError::PlatformUnsupported
    );
}

#[test]
fn binary_path_uses_the_platform_name() {
    assert_eq!(server_binary_path("/base", true), "/base/llama-bin/llama-server.exe");
    assert_eq!(server_binary_path("/base", false), "/base/llama-bin/llama-server");
}

#[test]
fn injected_path_puts_bin_dir_first() {
    assert_eq!(injected_path("/base/llama-bin", ":", "/usr/bin"), "/base/llama-bin:/usr/bin");
}

#[test]
fn status_composition_reports_version_only_when_installed() {
    let st = server_status_of(true, "/base/llama-bin/llama-server".to_string(), Some(7));
    assert!(st.installed);
    assert!(st.running);
    assert_eq!(st.pid, Some(7));
    assert_eq!(st.version.unwrap(), "b6940");
    assert_eq!(st.path.unwrap(), "/base/llama-bin/llama-server");
    let st = server_status_of(false, String::new(), None);
    assert!(!st.installed && !st.running);
    assert!(st.version.is_none() && st.path.is_none() && st.pid.is_none());
}

#[test]
fn archive_entries_are_classified_by_basename() {
    assert_eq!(entry_basename("build/bin/llama-server"), "llama-server");
    assert_eq!(entry_basename("a\\b\\ggml.dll"), "ggml.dll");
    assert_eq!(entry_basename("plain.txt"), "plain.txt");
    assert_eq!(classify_zip_entry("LLAMA-SERVER.EXE", true), ZipEntryKind::MainBinary);
    assert_eq!(classify_zip_entry("llama-server", false), ZipEntryKind::MainBinary);
    assert_eq!(classify_zip_entry("GGML.DLL", true), ZipEntryKind::SharedLib);
    assert_eq!(classify_zip_entry("readme.md", true), ZipEntryKind::Skip);
    // on non-windows platforms the .exe name is neither target nor library
    assert_eq!(classify_zip_entry("llama-server.exe", false), ZipEntryKind::Skip);
}

#[test]
fn decimal_rendering_is_exact() {
    assert_eq!(u64_to_decimal(0), "0");
    assert_eq!(u64_to_decimal(8080), "8080");
    assert_eq!(u64_to_decimal(18446744073709551615), "18446744073709551615");
    assert_eq!(i64_to_decimal(-2048), "-2048");
    assert_eq!(i64_to_decimal(2048), "2048");
}

#[test]
fn port_parsing_accepts_only_in_range_digit_strings() {
    assert_eq!(parse_u16("8080"), Some(8080));
    assert_eq!(parse_u16("65535"), Some(65535));
    assert_eq!(parse_u16("65536"), None);
    assert_eq!(parse_u16(""), None);
    assert_eq!(parse_u16("12a"), None);
    assert_eq!(parse_u16("0"), Some(0));
}
