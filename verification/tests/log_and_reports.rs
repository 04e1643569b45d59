use std::collections::VecDeque;

use transmitic_core::app_aggregator::{
    AppAggMessage, AppEffect, AppState, CompletedMessage, ExitCodes, InProgressMessage,
    InvalidFileMessage, OfflineErrorMessage, OfflineMessage,
};
use transmitic_core::incoming_uploader::IncomingUploaderError;
use transmitic_core::logger::{
    FileOutput, LogLevel, Logger, LOG_FILE_ROTATE_COUNT, LOG_MESSAGES_COUNT,
};
use transmitic_core::transmitic_core::SingleUploadState;

fn queue(paths: &[&str]) -> VecDeque<String> {
    paths.iter().map(|s| s.to_string()).collect()
}

fn logs(effects: &[AppEffect]) -> String {
    format!("{:?}", effects)
}

#[test]
fn log_lines_have_level_and_time() {
    let mut l = Logger::new(LogLevel::Info, true, "log.txt".to_string());
    assert_eq!(l.get_log_path(), "log.txt");
    let (line, output) = l.log_message(LogLevel::Warning, "hello", Some(17));
    assert_eq!(line.unwrap(), "[WARNING]  17 |  hello");
    assert!(matches!(output, FileOutput::Append(s) if s == "[WARNING]  17 |  hello\n"));
    let (line, output) = l.log_message(LogLevel::Debug, "hidden", Some(18));
    assert!(line.is_none() && matches!(output, FileOutput::Nothing));
    let (line, _) = l.log_message(LogLevel::Critical, "late", None);
    assert_eq!(line.unwrap(), "[CRITICAL] TimeError |  late");
    assert_eq!(l.get_log_messages(), ["[CRITICAL] TimeError |  late", "[WARNING]  17 |  hello"]);
    l.set_log_level(LogLevel::Debug);
    assert_eq!(l.get_log_level().rank(), 10);
    l.set_is_file_logging(false);
    assert!(!l.get_is_file_logging());
    let (line, output) = l.log_message(LogLevel::Debug, "x", Some(1));
    assert_eq!(line.unwrap(), "[DEBUG]    1 |  x");
    assert!(matches!(output, FileOutput::Nothing));
}

#[test]
fn levels_are_ranked_and_tagged() {
    let all = [LogLevel::Critical, LogLevel::Error, LogLevel::Warning, LogLevel::Info, LogLevel::Debug];
    let ranks: Vec<u8> = all.iter().map(|l| l.rank()).collect();
    assert_eq!(ranks, [50, 40, 30, 20, 10]);
    let tags: Vec<&str> = all.iter().map(|l| l.tag()).collect();
    assert_eq!(tags, ["[CRITICAL]", "[ERROR]   ", "[WARNING] ", "[INFO]    ", "[DEBUG]   "]);
}

#[test]
fn log_is_bounded_and_its_file_rewritten() {
    let mut l = Logger::new(LogLevel::Debug, true, "log.txt".to_string());
    for i in 0..LOG_FILE_ROTATE_COUNT {
        let (_, output) = l.log_message(LogLevel::Info, &i.to_string(), Some(1));
        assert!(matches!(output, FileOutput::Append(_)));
        assert_eq!(l.get_log_messages().len(), (i + 1).min(LOG_MESSAGES_COUNT));
    }
    let (_, output) = l.log_message(LogLevel::Info, "last", Some(1));
    match output {
        FileOutput::Rewrite(text) => {
            assert_eq!(text.lines().count(), LOG_MESSAGES_COUNT);
            assert!(text.starts_with("[INFO]     1 |  last\n[INFO]     1 |  1999\n"));
        }
        _ => panic!("not rewritten"),
    }
    let (_, output) = l.log_message(LogLevel::Info, "next", Some(1));
    assert!(matches!(output, FileOutput::Append(_)));
}

#[test]
fn log_file_failures_are_shown() {
    let mut l = Logger::new(LogLevel::Debug, true, "log.txt".to_string());
    l.log_file_failed(false, "no space");
    l.log_file_failed(true, "gone");
    assert_eq!(
        l.get_log_messages(),
        [
            "[ERROR] | Failed to open truncate log gone",
            "[ERROR] | Failed to open append log no space"
        ]
    );
}

#[test]
fn downloads_are_remembered_by_user() {
    let mut s = AppState::new();
    let effects = s.app_loop(AppAggMessage::InProgress(InProgressMessage {
        nickname: "bob".to_string(),
        path: Some("a".to_string()),
        percent: 40,
        download_queue: queue(&["b"]),
        path_local_disk: Some("/dl/a".to_string()),
        size_string: "1.00 KB".to_string(),
    }));
    assert!(effects.is_empty());
    let effects = s.app_loop(AppAggMessage::InvalidFile(InvalidFileMessage {
        nickname: "bob".to_string(),
        active_path: None,
        invalid_path: "b".to_string(),
        download_queue: queue(&[]),
        message: "too large".to_string(),
    }));
    assert_eq!(logs(&effects), r#"[Log(Warning, "Invalid file from 'bob' - 'b'")]"#);
    let d = s.download_state.get("bob").unwrap();
    assert_eq!(d.active_download_percent, 40);
    assert_eq!(d.invalid_downloads, ["b"]);
    assert_eq!(d.active_download_path, None);
    assert!(d.is_online && d.download_queue.is_empty());

    let effects = s.app_loop(AppAggMessage::Completed(CompletedMessage {
        nickname: "bob".to_string(),
        path: "a".to_string(),
        download_queue: queue(&["c"]),
        path_local_disk: "/dl/a".to_string(),
        size_string: "1.00 KB".to_string(),
    }));
    assert_eq!(logs(&effects), r#"[Log(Info, "Download completed 'bob' - '/dl/a'")]"#);
    let d = s.download_state.get("bob").unwrap();
    assert_eq!(d.completed_downloads.len(), 1);
    assert_eq!(d.completed_downloads[0].path, "a");
    assert_eq!(d.active_download_local_path, Some("/dl/a".to_string()));

    s.app_loop(AppAggMessage::OfflineError(OfflineErrorMessage {
        nickname: "bob".to_string(),
        error: "rejected".to_string(),
    }));
    let d = s.download_state.get("bob").unwrap();
    assert!(!d.is_online);
    assert_eq!(d.error, Some("rejected".to_string()));
    assert_eq!(d.completed_downloads.len(), 1);
    s.app_loop(AppAggMessage::Offline(OfflineMessage {
        nickname: "bob".to_string(),
        download_queue: queue(&["d"]),
    }));
    let d = s.download_state.get("bob").unwrap();
    assert_eq!(d.error, None);
    assert_eq!(d.download_queue, queue(&["d"]));
    assert!(!s.download_state.contains_key("eve"));
}

#[test]
fn first_completed_download_has_no_local_path() {
    let mut s = AppState::new();
    s.app_loop(AppAggMessage::Completed(CompletedMessage {
        nickname: "bob".to_string(),
        path: "a".to_string(),
        download_queue: queue(&[]),
        path_local_disk: "/dl/a".to_string(),
        size_string: "1 bytes".to_string(),
    }));
    assert_eq!(s.download_state.get("bob").unwrap().active_download_local_path, None);
}

#[test]
fn uploads_are_remembered_by_user() {
    let mut s = AppState::new();
    s.app_loop(AppAggMessage::UploadStateChange(SingleUploadState {
        nickname: "bob".to_string(),
        path: "a".to_string(),
        percent: 3,
        is_online: true,
    }));
    let effects = s.app_loop(AppAggMessage::UploadDisconnected("bob".to_string()));
    assert_eq!(logs(&effects), r#"[Log(Debug, "Upload disconnected 'bob'")]"#);
    let u = s.upload_state.get("bob").unwrap();
    assert!(!u.is_online);
    assert_eq!(u.percent, 3);
    s.app_loop(AppAggMessage::UploadDisconnected("eve".to_string()));
    assert!(!s.upload_state.contains_key("eve"));
}

#[test]
fn reports_lead_to_effects() {
    let mut s = AppState::new();
    let e = s.app_loop(AppAggMessage::UploadErrorPortInUse);
    assert_eq!(
        logs(&e),
        r#"[Log(Error, "Uploading Error. Port already in use. Sharing has stopped.")]"#
    );
    assert!(matches!(s.incoming_uploader_error, Some(IncomingUploaderError::PortInUse)));
    let e = s.app_loop(AppAggMessage::UploadErrorGeneric("x".to_string()));
    assert_eq!(logs(&e), r#"[Log(Error, "Uploading Error. Sharing has stopped.: x")]"#);
    assert!(matches!(&s.incoming_uploader_error, Some(IncomingUploaderError::Generic(t)) if t == "x"));
    let e = s.app_loop(AppAggMessage::AppFailedKill("y".to_string()));
    assert!(matches!(&e[0], AppEffect::Exit(ExitCodes::AppFailedKill, t) if t == "AppFailedKill. y"));
    let e = s.app_loop(AppAggMessage::ReverseConnection("bob".to_string()));
    assert_eq!(logs(&e), r#"[Log(Critical, "REVERSE APPAGG"), StartReverseDownload("bob")]"#);
    let e = s.app_loop(AppAggMessage::LogToFileState(true));
    assert_eq!(logs(&e), "[SetFileLogging(true)]");
    let e = s.app_loop(AppAggMessage::SetLogLevel(LogLevel::Error));
    assert_eq!(logs(&e), "[SetLogLevel(Error)]");
    let e = s.app_loop(AppAggMessage::LogDebug("d".to_string()));
    assert_eq!(logs(&e), r#"[Log(Debug, "d")]"#);
    let codes = [ExitCodes::AppLoopRecFailed, ExitCodes::AppFailedKill, ExitCodes::RevConnOutgoingLock];
    let codes: Vec<i32> = codes.iter().map(|c| c.code()).collect();
    assert_eq!(codes, [2, 3, 4]);
}
