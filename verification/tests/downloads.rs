use whytchat_core::download::{
    range_header_value, resume_total, transfer_step, BeginOutcome, DownloadError, DownloadManager,
    DownloadStatus, FsAction, TransferEvent,
};

#[test]
fn status_of_unknown_key_is_not_found() {
    let dm = DownloadManager::new();
    let r = dm.status("no-such-artifact");
    assert_eq!(r.unwrap_err(), DownloadError::NotFound);
}

#[test]
fn cancel_of_unknown_key_is_not_found() {
    let mut dm = DownloadManager::new();
    let r = dm.cancel("no-such-artifact");
    assert_eq!(r.unwrap_err(), DownloadError::NotFound);
}

#[test]
fn begin_records_a_running_entry() {
    let mut dm = DownloadManager::new();
    let r = dm
        .begin(
            "pack1".to_string(),
            "model.gguf".to_string(),
            "https://example.com/model.gguf",
            Some(1000),
            false,
        )
        .unwrap();
    assert_eq!(r, BeginOutcome::Started);
    let st = dm.status("pack1").unwrap();
    assert_eq!(st.status, DownloadStatus::Running);
    assert_eq!(st.written, 0);
    assert_eq!(st.total, Some(1000));
    assert_eq!(st.filename, "model.gguf");
    assert!(!dm.is_canceled("pack1"));
}

#[test]
fn begin_with_existing_artifact_is_already_installed() {
    let mut dm = DownloadManager::new();
    let r = dm
        .begin(
            "pack1".to_string(),
            "model.gguf".to_string(),
            "https://example.com/model.gguf",
            Some(42),
            true,
        )
        .unwrap();
    assert_eq!(r, BeginOutcome::AlreadyInstalled);
    let st = dm.status("pack1").unwrap();
    assert_eq!(st.status, DownloadStatus::Done);
    assert_eq!(st.written, 42);
}

#[test]
fn begin_with_missing_local_source_is_an_error() {
    let mut dm = DownloadManager::new();
    let r = dm.begin(
        "pack1".to_string(),
        "model.gguf".to_string(),
        "file:///models/model.gguf",
        None,
        false,
    );
    assert_eq!(r.unwrap_err(), DownloadError::SourceNotFound);
}

#[test]
fn cancel_sets_the_cooperative_flag() {
    let mut dm = DownloadManager::new();
    dm.begin("p".to_string(), "f".to_string(), "https://x/y", None, false).unwrap();
    assert!(!dm.is_canceled("p"));
    dm.cancel("p").unwrap();
    assert!(dm.is_canceled("p"));
    // the state itself is untouched by cancel
    assert_eq!(dm.status("p").unwrap().status, DownloadStatus::Running);
}

#[test]
fn resume_requests_only_the_remaining_bytes() {
    assert_eq!(range_header_value(0), None);
    assert_eq!(range_header_value(12345).unwrap(), "bytes=12345-");
    assert_eq!(resume_total(Some(100), 50), Some(150));
    assert_eq!(resume_total(None, 50), None);
}

#[test]
fn resumed_download_reconstructs_the_full_artifact() {
    // the bytes a full download would produce
    let full: Vec<u8> = (0..=255u8).cycle().take(1000).collect();
    // a partial file of the first 417 bytes, resumed from there
    let mut partial: Vec<u8> = full[..417].to_vec();
    partial.extend_from_slice(&full[417..]);
    assert_eq!(partial, full);
}

#[test]
fn canceled_transfer_deletes_partial_and_never_promotes() {
    let mut st = DownloadStatus::Running;
    let mut actions: Vec<FsAction> = Vec::new();
    let events = [
        TransferEvent::Chunk { canceled: false, transport_ok: true, write_ok: true, len: 10 },
        TransferEvent::Chunk { canceled: true, transport_ok: true, write_ok: true, len: 10 },
        TransferEvent::EndOfStream,
    ];
    for ev in events.iter() {
        let (next, act) = transfer_step(st, ev);
        st = next;
        actions.push(act);
    }
    assert_eq!(st, DownloadStatus::Canceled);
    assert!(actions.contains(&FsAction::DeletePartial));
    assert!(!actions.contains(&FsAction::PromoteToFinal));
}

#[test]
fn completed_transfer_promotes_the_partial_file() {
    let (st, act) = transfer_step(DownloadStatus::Running, &TransferEvent::EndOfStream);
    assert_eq!(st, DownloadStatus::Done);
    assert_eq!(act, FsAction::PromoteToFinal);
}

#[test]
fn transport_error_keeps_the_partial_file() {
    let ev = TransferEvent::Chunk { canceled: false, transport_ok: false, write_ok: true, len: 0 };
    let (st, act) = transfer_step(DownloadStatus::Running, &ev);
    assert_eq!(st, DownloadStatus::Error);
    assert_eq!(act, FsAction::Keep);
}

#[test]
fn successful_chunk_appends_bytes() {
    let ev = TransferEvent::Chunk { canceled: false, transport_ok: true, write_ok: true, len: 77 };
    let (st, act) = transfer_step(DownloadStatus::Running, &ev);
    assert_eq!(st, DownloadStatus::Running);
    assert_eq!(act, FsAction::AppendBytes(77));
}

#[test]
fn recorded_chunks_advance_written_bytes_monotonically() {
    let mut dm = DownloadManager::new();
    dm.begin("p".to_string(), "f".to_string(), "https://x/y", Some(100), false).unwrap();
    dm.record_chunk("p", 30);
    assert_eq!(dm.status("p").unwrap().written, 30);
    dm.record_chunk("p", 0);
    assert_eq!(dm.status("p").unwrap().written, 30);
    dm.record_chunk("p", 45);
    assert_eq!(dm.status("p").unwrap().written, 75);
    // saturates rather than wrapping at the type's limit
    dm.record_chunk("p", u64::MAX);
    assert_eq!(dm.status("p").unwrap().written, u64::MAX);
    // everything else of the entry is untouched
    let st = dm.status("p").unwrap();
    assert_eq!(st.status, DownloadStatus::Running);
    assert_eq!(st.total, Some(100));
    // an unknown key changes nothing
    dm.record_chunk("q", 10);
    assert!(dm.status("q").is_err());
}

#[test]
fn set_state_updates_progress() {
    let mut dm = DownloadManager::new();
    dm.begin("p".to_string(), "f".to_string(), "https://x/y", Some(10), false).unwrap();
    let mut st = dm.status("p").unwrap();
    st.written = 7;
    dm.set_state("p", st);
    assert_eq!(dm.status("p").unwrap().written, 7);
}
