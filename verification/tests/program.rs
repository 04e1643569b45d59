use std::collections::VecDeque;

use transmitic_core::app_aggregator::{AppAggMessage, CompletedMessage, InvalidFileMessage};
use transmitic_core::config::{create_new_config, Config, RejectedAddress, SharedUser};
use transmitic_core::crypto::generate_id_pair;
use transmitic_core::incoming_uploader::{IncomingUploaderError, SharingState};
use transmitic_core::logger::LogLevel;
use transmitic_core::transmitic_core::{
    CoreEffect, LocalKeyData, SingleDownloadState, SingleUploadState, TransmiticCore,
};

fn program() -> TransmiticCore {
    let mut file = create_new_config().unwrap();
    file.shared_users.push(SharedUser {
        nickname: "bob".to_string(),
        public_id: "AAAA".to_string(),
        ip: "10.0.0.1".to_string(),
        port: "1".to_string(),
        allowed: true,
    });
    let config = Config::new(true, file, "dir".to_string(), &vec![]).unwrap_or_else(|e| panic!("{}", e));
    TransmiticCore::new(config, false, true)
}

fn none() -> Vec<RejectedAddress> {
    Vec::new()
}

fn shown(effects: &[CoreEffect]) -> String {
    format!("{:?}", effects)
}

fn text(s: &str) -> String {
    s.to_string()
}

#[test]
fn users_come_and_go() {
    let mut c = program();
    assert!(c.get_is_first_start());
    let (e, r) = c.add_new_user(text("al"), text("BBBB"), text("10.0.0.2"), text("2"), &none());
    assert_eq!(r, Ok(()));
    assert_eq!(
        shown(&e),
        r#"[Report(LogInfo("Add user 'al'")), StoreConfig, UploaderConfig, DownloaderConfig]"#
    );
    let (e, r) = c.add_new_user(text("AL"), text("CCCC"), text("10.0.0.2"), text("2"), &none());
    assert_eq!(r, Err(text("Nicknames cannot be repeated. 'AL' was found '2' times.")));
    assert_eq!(shown(&e), r#"[Report(LogInfo("Add user 'AL'"))]"#);
    assert_eq!(c.get_shared_users().len(), 2);
    let (e, r) = c.update_user(text("al"), text("DDDD"), text("10.0.0.3"), text("3"), &none());
    assert_eq!(r, Ok(()));
    assert_eq!(
        shown(&e),
        r#"[Report(LogInfo("Update user 'al' - 'DDDD' - '10.0.0.3' - '3'")), StoreConfig, UploaderConfig, DownloaderConfig, UpdateDownloader("al")]"#
    );
    let (e, r) = c.set_user_is_allowed_state(text("al"), false);
    assert_eq!(r, Ok(()));
    assert_eq!(
        shown(&e),
        r#"[Report(LogInfo("Set user is allowed state 'al' 'false'")), StoreConfig, UploaderConfig]"#
    );
    let (e, r) = c.remove_user(text("al"));
    assert_eq!(r, Ok(()));
    assert_eq!(
        shown(&e),
        r#"[Report(LogInfo("Remove user 'al'")), StoreConfig, UploaderConfig, DownloaderConfig, RemoveDownloader("al")]"#
    );
    assert_eq!(c.get_shared_users().len(), 1);
}

#[test]
fn files_are_shared() {
    let mut c = program();
    let (e, r) = c.add_files(vec![text("a"), text("b")]);
    assert_eq!((shown(&e).as_str(), r), ("[StoreConfig]", Ok(())));
    let (e, r) = c.add_files(vec![text("a?")]);
    assert!(e.is_empty() && r.is_err());
    let (e, r) = c.add_user_to_shared(text("bob"), text("a"));
    assert_eq!(r, Ok(()));
    assert_eq!(
        shown(&e),
        r#"[Report(LogInfo("Add user to shared 'bob' - a")), StoreConfig, UploaderConfig]"#
    );
    assert_eq!(c.get_my_sharing_files()[0].shared_with, ["bob"]);
    let (e, r) = c.add_user_to_shared(text("bob"), text("a"));
    assert_eq!(r, Ok(()));
    assert_eq!(
        shown(&e),
        r#"[Report(LogInfo("Add user to shared 'bob' - a")), UploaderConfig]"#
    );
    assert_eq!(c.get_my_sharing_files()[0].shared_with, ["bob"]);
    let (e, r) = c.add_user_to_shared(text("eve"), text("a"));
    assert!(r.is_err());
    assert_eq!(shown(&e), r#"[Report(LogInfo("Add user to shared 'eve' - a"))]"#);
    assert!(c.get_config().is_shared_with("a", "bob"));
    assert!(!c.get_config().is_shared_with("b", "bob"));
    assert!(!c.get_config().is_shared_with("none", "bob"));
    let (e, r) = c.remove_user_from_sharing(text("bob"), text("a"));
    assert_eq!(r, Ok(()));
    assert_eq!(
        shown(&e),
        r#"[Report(LogInfo("Remove user from sharing 'bob' - 'a'")), StoreConfig, UploaderConfig]"#
    );
    let (e, r) = c.remove_file_from_sharing(text("a"));
    assert_eq!(r, Ok(()));
    assert_eq!(
        shown(&e),
        r#"[Report(LogInfo("Remove from sharing 'a'")), StoreConfig, UploaderConfig]"#
    );
    assert_eq!(c.get_my_sharing_files().len(), 1);
}

#[test]
fn settings_change() {
    let mut c = program();
    let (e, r) = c.set_port(text("99"));
    assert_eq!(r, Ok(()));
    assert_eq!(shown(&e), r#"[Report(LogInfo("Set port '99'")), StoreConfig, UploaderConfig]"#);
    assert_eq!(c.get_sharing_port(), "99");
    let before = c.get_public_id_string();
    let old = c.get_config();
    let (e, r) = c.create_new_id();
    assert_eq!(r, Ok(()));
    assert_eq!(
        shown(&e),
        r#"[Report(LogWarning("Create new ID")), StoreConfig, UploaderConfig, DownloaderConfig]"#
    );
    assert_ne!(c.get_public_id_string(), before);
    c.set_config(old);
    assert_eq!(c.get_public_id_string(), before);
    assert!(!c.is_ignore_incoming() && c.is_reverse_connection());
    assert_eq!(
        shown(&c.set_ignore_incoming(true)),
        r#"[Report(LogInfo("Set ignore incoming 'true'")), StoreConfig, UploaderConfig, DownloaderConfig, RestartDownloaders]"#
    );
    assert_eq!(
        shown(&c.set_reverse_connection(false)),
        r#"[Report(LogInfo("Set reverse connection 'false'")), StoreConfig, UploaderConfig]"#
    );
    assert!(c.is_ignore_incoming() && !c.is_reverse_connection());
    assert_eq!(shown(&c.log_to_file_start()), "[Report(LogToFileState(true))]");
    assert_eq!(shown(&c.log_to_file_stop()), "[Report(LogToFileState(false))]");
    assert_eq!(shown(&c.set_log_level(LogLevel::Error)), "[Report(SetLogLevel(Error))]");
}

#[test]
fn sharing_starts_and_stops() {
    let mut c = program();
    assert_eq!(c.get_my_sharing_state(), SharingState::Off);
    assert_eq!(
        shown(&c.set_my_sharing_state(SharingState::Internet)),
        r#"[Report(LogInfo("Set my sharing state 'Internet'")), UploaderState(Internet), Report(LogInfo("Sharing state set to 'Internet'"))]"#
    );
    let (error, effects) = c.get_and_reset_my_sharing_error();
    assert!(error.is_none() && effects.is_empty());
    assert_eq!(c.get_my_sharing_state(), SharingState::Internet);
    c.state.app_loop(AppAggMessage::UploadErrorPortInUse);
    let (error, effects) = c.get_and_reset_my_sharing_error();
    assert!(matches!(error, Some(IncomingUploaderError::PortInUse)));
    assert_eq!(effects.len(), 3);
    assert_eq!(c.get_my_sharing_state(), SharingState::Off);
    assert!(c.get_and_reset_my_sharing_error().0.is_none());
}

#[test]
fn downloads_are_ordered_about() {
    let c = program();
    assert_eq!(shown(&c.downloads_cancel_all()), r#"[Report(LogInfo("Cancel all downloads")), CancelDownloads]"#);
    assert_eq!(
        shown(&c.downloads_cancel_single(text("bob"), text("a"))),
        r#"[Report(LogInfo("Cancel single download 'bob' - 'a'")), CancelDownload { nickname: "bob", file_path: "a" }]"#
    );
    assert_eq!(shown(&c.downloads_resume_all()), r#"[Report(LogInfo("Resume all downloads")), ResumeDownloads]"#);
    assert_eq!(shown(&c.downloads_pause_all()), r#"[Report(LogInfo("Pause all downloads")), PauseDownloads]"#);
}

#[test]
fn shown_state_is_cleared() {
    let mut c = program();
    for name in ["bob", "al"] {
        c.state.app_loop(AppAggMessage::Completed(CompletedMessage {
            nickname: text(name),
            path: text("a"),
            download_queue: VecDeque::new(),
            path_local_disk: text("/dl/a"),
            size_string: text("1 bytes"),
        }));
        c.state.app_loop(AppAggMessage::InvalidFile(InvalidFileMessage {
            nickname: text(name),
            active_path: None,
            invalid_path: text("b"),
            download_queue: VecDeque::new(),
            message: text("gone"),
        }));
        c.state.app_loop(AppAggMessage::UploadStateChange(SingleUploadState {
            nickname: text(name),
            path: text("u"),
            percent: 1,
            is_online: true,
        }));
    }
    assert_eq!(shown(&c.downloads_clear_finished()), r#"[Report(LogInfo("Clear downloads"))]"#);
    for name in ["bob", "al"] {
        let d = c.state.download_state.get(name).unwrap();
        assert!(d.completed_downloads.is_empty() && d.invalid_downloads.len() == 1);
    }
    assert_eq!(shown(&c.downloads_clear_invalid()), r#"[Report(LogInfo("Cancel invalid downloads"))]"#);
    assert!(c.state.download_state.get("al").unwrap().invalid_downloads.is_empty());
    assert!(c.state.upload_state.contains_key("al"));
    assert_eq!(
        shown(&c.downloads_clear_finished_from_me()),
        r#"[Report(LogInfo("Clear downloads finished from me"))]"#
    );
    assert!(c.state.upload_state.keys().is_empty());
    assert_eq!(c.state.download_state.keys().len(), 2);
}

#[test]
fn nothing_is_downloaded_at_first() {
    let d = SingleDownloadState::default();
    assert!(d.is_online && d.active_download_path.is_none() && d.error.is_none());
    assert!(d.download_queue.is_empty() && d.completed_downloads.is_empty());
    assert_eq!((d.active_download_percent, d.active_download_size.as_str()), (0, ""));
}

#[test]
fn key_data_holds_both_keys() {
    let (private_id, public_id) = generate_id_pair().unwrap();
    let d = LocalKeyData::new(private_id.clone()).unwrap_or_else(|e| panic!("{}", e));
    assert_eq!(d.local_key_pair.public_id, public_id);
    assert_eq!(d.local_key_pair.private_id, private_id);
    assert_eq!(d.local_key_pair_bytes, private_id);
    assert!(LocalKeyData::new(vec![1, 2, 3]).is_err());
}
