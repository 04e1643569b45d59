use std::collections::VecDeque;

use transmitic_core::app_aggregator::AppAggMessage;
use transmitic_core::config::{create_new_config, Config, SharedUser};
use transmitic_core::core_consts::{
    MSG_CANNOT_SELECT_DIRECTORY, MSG_FILE_CHUNK, MSG_FILE_FINISHED, MSG_FILE_INVALID_FILE,
    MSG_FILE_LIST_FINAL, MSG_FILE_LIST_PIECE, MSG_FILE_SELECTION_CONTINUE,
};
use transmitic_core::incoming_uploader::{refusal, ClientRequest, FileUpload, SingleUploader};
use transmitic_core::outgoing_downloader::{
    clean_everything_file, download_shared_file, downloader_ended, downloader_exited,
    find_disk_names, get_path_downloads_dir_user, get_sanitized_disk_file_name, next_retry_sleep,
    plan_after_chunk, queue_file_kept, queue_file_line, queue_file_name, sanitize_disk_path,
    selection_message, selection_payload, user_address, DiskName, DownloadQueueItem, DownloadStep,
    DownloaderPoll, FileListBytes, FileOutcome, FileReport, MessageSingleDownloader, NextDownload, OutgoingDownloader, QueueWrite, RefreshPoll,
    RefreshSharedMessages, ReverseParties, ReversePoll, RunStep, SingleDownloader, StartDecision,
    ERR_REC_DISCONNECTED, ERR_REMOTE_ID_MISMATCH, ERR_REMOTE_ID_NOT_FOUND,
    MAX_EVERYTHING_FILE_SIZE, RETRY_SLEEP,
};
use transmitic_core::shared_file::{SelectedDownload, SharedFile};

fn user(nickname: &str, public_id: &str) -> SharedUser {
    SharedUser {
        nickname: nickname.to_string(),
        public_id: public_id.to_string(),
        ip: "127.0.0.1".to_string(),
        port: "1".to_string(),
        allowed: true,
    }
}

fn config(users: Vec<SharedUser>) -> Config {
    let mut file = create_new_config().unwrap();
    file.shared_users = users;
    Config::new(false, file, "dir".to_string(), &vec![]).unwrap_or_else(|e| panic!("{}", e))
}

fn downloader() -> SingleDownloader {
    SingleDownloader::new(user("bob", "AAAA"), false, false, config(vec![]))
}

fn item(path: &str, file_size: u64) -> DownloadQueueItem {
    DownloadQueueItem { path: path.to_string(), file_size }
}

fn leaf(path: &str, size: u64) -> SharedFile {
    SharedFile::new(path.to_string(), false, vec![], size)
}

fn dir(path: &str, files: Vec<SharedFile>) -> SharedFile {
    let size = files.iter().map(|f| f.file_size).sum();
    SharedFile::new(path.to_string(), true, files, size)
}

fn order(d: &mut SingleDownloader, m: MessageSingleDownloader) -> String {
    let (more, actions) = d.read_receiver(DownloaderPoll::Message(m)).unwrap();
    assert!(more);
    format!("{:?}", actions)
}

fn paths(q: &VecDeque<DownloadQueueItem>) -> Vec<&str> {
    q.iter().map(|i| i.path.as_str()).collect()
}

#[test]
fn downloader_obeys_orders() {
    let mut d = downloader();
    assert_eq!(
        order(&mut d, MessageSingleDownloader::NewDownload(item("a", 1))),
        r#"[WriteQueue, Send(LogDebug("Downloader new download bob - a"))]"#
    );
    order(&mut d, MessageSingleDownloader::NewDownload(item("b", 2)));
    order(&mut d, MessageSingleDownloader::NewDownload(item("a", 3)));
    assert!(!d.stop_downloading);
    d.active_download_path = Some(item("a", 1));
    assert_eq!(
        order(&mut d, MessageSingleDownloader::CancelDownload("a".to_string())),
        r#"[WriteQueue, SendInProgress, Send(LogDebug("Downloader cancel download bob - a"))]"#
    );
    assert_eq!(paths(&d.download_queue), ["b"]);
    assert!(d.stop_downloading && d.active_download_path.is_none());

    let mut d = downloader();
    order(&mut d, MessageSingleDownloader::NewDownload(item("a", 1)));
    assert_eq!(
        order(&mut d, MessageSingleDownloader::PauseDownloads),
        r#"[Send(LogDebug("Downloader pause bob"))]"#
    );
    assert!(d.is_downloading_paused && d.stop_downloading);
    assert_eq!(paths(&d.download_queue), ["a"]);
    assert_eq!(
        order(&mut d, MessageSingleDownloader::ResumeDownloads),
        r#"[Send(LogDebug("Downloader resume bob"))]"#
    );
    assert!(!d.is_downloading_paused && d.stop_downloading);
    assert_eq!(
        order(&mut d, MessageSingleDownloader::CancelAllDownloads),
        r#"[WriteQueue, SendInProgress, Send(LogDebug("Downloader cancel all downloads bob"))]"#
    );
    assert!(d.download_queue.is_empty());
    assert_eq!(
        order(&mut d, MessageSingleDownloader::RestartConnection),
        r#"[Send(LogDebug("Restart Downloader bob"))]"#
    );
    assert_eq!(
        order(&mut d, MessageSingleDownloader::NewConfig(config(vec![]))),
        r#"[Send(LogDebug("Downloader update config bob"))]"#
    );
    assert_eq!(
        order(&mut d, MessageSingleDownloader::NewSharedUser(user("rob", "BBBB"))),
        r#"[Send(LogDebug("Downloader update user rob"))]"#
    );
    assert_eq!(d.shared_user.nickname, "rob");
    assert!(!d.shutdown);
    assert_eq!(
        order(&mut d, MessageSingleDownloader::RemoveUser),
        r#"[WriteQueue, Send(LogDebug("Downloader remove rob"))]"#
    );
    assert!(d.shutdown);
    let (more, actions) = d.read_receiver(DownloaderPoll::Empty).unwrap();
    assert!(!more && actions.is_empty());
    assert!(matches!(d.read_receiver(DownloaderPoll::Disconnected), Err(e) if e == ERR_REC_DISCONNECTED));
}

#[test]
fn reverse_connections_stop_a_download() {
    let mut d = downloader();
    assert_eq!(d.read_reverse_receiver(ReversePoll::Empty), Ok(()));
    assert!(!d.has_reverse_connection && !d.stop_downloading);
    assert_eq!(d.read_reverse_receiver(ReversePoll::NewConnection), Ok(()));
    assert!(d.has_reverse_connection && d.stop_downloading);
    assert_eq!(
        d.read_reverse_receiver(ReversePoll::Disconnected),
        Err("Uploader receiver disconnected".to_string())
    );
}

#[test]
fn next_step_of_a_downloader() {
    let mut d = downloader();
    d.stop_downloading = true;
    assert!(matches!(d.run(), RunStep::SleepMillis(500)));
    assert!(!d.stop_downloading);
    d.download_queue.push_back(item("a", 1));
    assert!(matches!(d.run(), RunStep::Connect));
    d.has_reverse_connection = true;
    assert!(matches!(d.run(), RunStep::UseReverseConnection));
    assert!(!d.has_reverse_connection);
    d.is_downloading_paused = true;
    assert!(matches!(d.run(), RunStep::SleepMillis(1000)));
    d.shutdown = true;
    assert!(matches!(d.run(), RunStep::Shutdown));
}

#[test]
fn reports_of_a_downloader() {
    let mut d = downloader();
    d.download_queue.push_back(item("a", 1));
    d.download_queue.push_back(item("b", 2));
    assert!(matches!(
        d.app_update_offline(),
        AppAggMessage::Offline(m) if m.nickname == "bob" && m.download_queue == ["a", "b"]
    ));
    d.active_download_path = Some(item("a", 1));
    d.active_download_total_size = "1 bytes".to_string();
    match d.app_update_in_progress(50) {
        AppAggMessage::InProgress(m) => {
            assert_eq!((m.percent, m.path), (50, Some("a".to_string())));
            assert_eq!(m.download_queue, ["b"]);
            assert_eq!(m.size_string, "1 bytes");
        }
        _ => panic!(),
    }
    match d.app_update_completed("a", "/dl/a".to_string(), "1 bytes".to_string()) {
        AppAggMessage::Completed(m) => {
            assert_eq!((m.path.as_str(), m.path_local_disk.as_str()), ("a", "/dl/a"));
            assert_eq!(m.download_queue, ["b"]);
        }
        _ => panic!(),
    }
    match d.app_update_invalid_file("x", "why".to_string()) {
        AppAggMessage::InvalidFile(m) => {
            assert_eq!((m.invalid_path.as_str(), m.message.as_str()), ("x", "why"));
            assert_eq!(m.active_path, Some("a".to_string()));
        }
        _ => panic!(),
    }
    d.set_active_download_finished();
    assert_eq!(paths(&d.download_queue), ["b"]);
    assert!(d.active_download_path.is_some());
    d.clear_active_download();
    assert!(d.active_download_path.is_none());
}

#[test]
fn queue_is_kept_in_a_file() {
    let mut d = downloader();
    assert!(matches!(d.write_queue(), QueueWrite::Remove));
    d.download_queue.push_back(item("C:\\a", 10));
    d.download_queue.push_back(item("b c", 0));
    let text = match d.write_queue() {
        QueueWrite::Write(text) => text,
        QueueWrite::Remove => panic!(),
    };
    assert_eq!(text, "10:C:\\a\n0:b c\n");
    let mut other = downloader();
    other.download_queue.push_back(item("old", 1));
    assert_eq!(other.initialize_download_queue(Some(&text)), Ok(()));
    assert_eq!(paths(&other.download_queue), ["C:\\a", "b c"]);
    assert_eq!(other.download_queue[0].file_size, 10);
    assert_eq!(other.initialize_download_queue(Some("\r\n  5:x  \r\n\n")), Ok(()));
    assert_eq!(paths(&other.download_queue), ["x"]);
    assert_eq!(other.initialize_download_queue(None), Ok(()));
    assert!(other.download_queue.is_empty());
    assert_eq!(queue_file_line(7, "a"), "7:a\n");
    assert_eq!(queue_file_name("bob"), "bob.txt");
}

#[test]
fn broken_queue_files_are_refused() {
    let mut d = downloader();
    assert_eq!(
        d.initialize_download_queue(Some("1:a\nnonsense\n2:b")),
        Err("Failed to parse queue file. Invalid line. 'bob', 'nonsense'".to_string())
    );
    assert_eq!(
        d.initialize_download_queue(Some("x:a")),
        Err("Failed to parse queue file. Invalid file size in line. 'bob', 'x:a'".to_string())
    );
}

#[test]
fn whole_files_are_not_asked_for() {
    let mut d = downloader();
    d.active_download_path = Some(item("a", 10));
    let p = d.plan_file("a", 10, true, 4);
    assert!(!p.finish && !p.create_file && matches!(p.report, FileReport::Nothing));
    assert!(matches!(&p.outcome, FileOutcome::Request(MSG_FILE_SELECTION_CONTINUE, b)
        if *b == selection_payload(4, "a")));
    assert_eq!(selection_payload(258, "ab"), [0, 0, 0, 0, 0, 0, 1, 2, b'a', b'b']);
    assert_eq!(
        selection_message(258, "ab"),
        (MSG_FILE_SELECTION_CONTINUE, vec![0, 0, 0, 0, 0, 0, 1, 2, b'a', b'b'])
    );
    assert_eq!(d.active_downloaded_current_bytes, 4);

    let p = d.plan_file("a", 10, true, 10);
    assert!(p.finish && !p.create_file && matches!(p.outcome, FileOutcome::Return));
    assert!(matches!(p.report, FileReport::Completed(s) if s == "a"));
    let p = d.plan_file("a", 10, true, 11);
    assert!(p.finish);
    assert!(matches!(p.report, FileReport::Invalid(s, t) if s == "a"
        && t == "File is larger than expected. Suggestion: Delete file and restart download."));
    let p = d.plan_file("a", 11, true, 10);
    assert!(p.finish);
    assert!(matches!(p.report, FileReport::Invalid(s, t) if s == "a"
        && t == "Expected file size has changed. Suggestion: Delete file and restart download."));

    let mut d = downloader();
    d.active_download_path = Some(item("e", 0));
    let p = d.plan_file("e", 0, false, 0);
    assert!(p.finish && p.create_file);
    let p = d.plan_file("e", 0, true, 0);
    assert!(p.finish && !p.create_file);
}

#[test]
fn files_of_a_directory() {
    let mut d = downloader();
    d.active_download_path = Some(item("d", 10));
    let p = d.plan_file("d\\a", 6, true, 2);
    assert!(matches!(p.outcome, FileOutcome::Request(..)));
    let p = d.plan_file("d\\b", 4, true, 4);
    assert!(!p.finish && matches!(p.outcome, FileOutcome::Return));
    assert!(matches!(p.report, FileReport::Log(t) if t == "Subfile already downloaded 'bob' - d\\b"));
    let p = d.plan_file("d\\c", 1, true, 2);
    assert!(!p.finish && matches!(p.outcome, FileOutcome::Return));
    assert!(matches!(p.report, FileReport::Invalid(s, t) if s == "d\\c"
        && t == "Directory subfile is larger than expected. Suggestion: Delete file and restart download."));
    let p = d.plan_file("d\\e", 9, true, 3);
    let text = "Directory is larger than expected. Suggestion: Delete directory and restart download.";
    assert!(p.finish);
    assert!(matches!(p.report, FileReport::Invalid(s, t) if s == "d" && t == text));
    assert!(matches!(p.outcome, FileOutcome::Fail(t) if t == text));
}

#[test]
fn both_sides_agree_on_the_end() {
    let queued = item("a", 10);
    let p = plan_after_chunk(&queued, "a", 99, MSG_FILE_CHUNK, 9);
    assert!(!p.finish && matches!(p.outcome, FileOutcome::ReadNext));
    let p = plan_after_chunk(&queued, "a", 99, MSG_FILE_FINISHED, 10);
    assert!(p.finish && matches!(p.outcome, FileOutcome::Return));
    assert!(matches!(p.report, FileReport::Completed(s) if s == "a"));
    let p = plan_after_chunk(&queued, "b", 7, MSG_FILE_FINISHED, 7);
    assert!(!p.finish && matches!(p.report, FileReport::Nothing));
    let p = plan_after_chunk(&queued, "a", 10, MSG_FILE_FINISHED, 9);
    let text = "Remote and local disagreement on finished download. Is Local Finished: false. Is Remote Finished: true. Suggestion: Delete file and download again.";
    assert!(p.finish);
    assert!(matches!(p.report, FileReport::Invalid(s, t) if s == "a" && t == text));
    assert!(matches!(p.outcome, FileOutcome::Fail(t) if t == text));
    let p = plan_after_chunk(&queued, "b", 7, MSG_FILE_CHUNK, 7);
    assert!(!p.finish && matches!(p.outcome, FileOutcome::Fail(_)));
}

#[test]
fn sides_agree_on_a_transfer() {
    for reads in [vec![15], vec![1, 14], vec![5, 5, 5]] {
        let mut here = downloader();
        let mut there = FileUpload::new(5, 20);
        let mut current = 5;
        for (i, n) in reads.iter().enumerate() {
            let message = there.next_chunk(*n);
            current = here.receive_chunk(current, *n);
            let p = plan_after_chunk(&item("a", 20), "a", 20, message, current);
            if i + 1 == reads.len() {
                assert!(matches!(p.outcome, FileOutcome::Return));
            } else {
                assert!(matches!(p.outcome, FileOutcome::ReadNext));
            }
        }
    }
}

#[test]
fn request_is_understood() {
    let path = "C:\\d\u{e9}j\u{e0} vu.txt";
    let all = dir("everything/", vec![leaf(path, 9)]);
    let mut u = SingleUploader::new(config(vec![]));
    match u.run_loop(MSG_FILE_SELECTION_CONTINUE, &selection_payload(4, path), &all) {
        Ok(ClientRequest::SendFile { path: p, seek_point, file_size, .. }) => {
            assert_eq!((p.as_str(), seek_point, file_size), (path, 4, 9));
        }
        _ => panic!(),
    }
}

#[test]
fn refused_requests_are_answered() {
    let all = dir("everything/", vec![leaf("a", 9), dir("d", vec![leaf("d/b", 1)])]);
    let mut u = SingleUploader::new(config(vec![]));
    let mut answer = |path: &str| {
        let (message, payload) = selection_message(0, path);
        let request = u.run_loop(message, &payload, &all).unwrap_or_else(|e| panic!("{}", e));
        refusal(&request)
    };
    assert_eq!(answer("none"), Some((MSG_FILE_INVALID_FILE, vec![])));
    assert_eq!(answer("d"), Some((MSG_CANNOT_SELECT_DIRECTORY, vec![])));
    assert_eq!(answer("a"), None);
    assert_eq!(answer("d/b"), None);
    let d = downloader();
    assert!(d.check_response(true, MSG_FILE_INVALID_FILE).is_err());
    assert!(d.check_response(true, MSG_CANNOT_SELECT_DIRECTORY).is_err());
    assert_eq!(refusal(&ClientRequest::ReverseConnection), None);
    assert_eq!(refusal(&ClientRequest::TooShort), None);
}

#[test]
fn downloader_reports_what_it_does() {
    let d = downloader();
    assert!(matches!(d.run_started(), AppAggMessage::LogInfo(t) if t == "Start downloading from 'bob'"));
    let (address, log) = d.remote_address();
    assert_eq!(address, "127.0.0.1:1");
    assert_eq!(user_address(&user("x", "AAAA")), "127.0.0.1:1");
    assert!(matches!(log, AppAggMessage::LogInfo(t) if t == "Attempt outgoing download bob 127.0.0.1:1"));
    assert!(matches!(downloader_exited("bob"), AppAggMessage::LogDebug(t) if t == "Downloader run loop exit. bob"));
    assert!(matches!(
        queue_file_kept("q.txt", "busy"),
        AppAggMessage::LogError(t) if t == "Failed to delete queue file 'q.txt'. busy"
    ));
}

#[test]
fn chunks_are_counted_and_checked() {
    let mut d = downloader();
    d.active_downloaded_current_bytes = 5;
    assert_eq!(d.receive_chunk(2, 3), 5);
    assert_eq!(d.active_downloaded_current_bytes, 8);
    assert_eq!(d.check_response(true, MSG_FILE_CHUNK), Ok(()));
    assert_eq!(d.check_response(false, MSG_FILE_FINISHED), Ok(()));
    assert_eq!(
        d.check_response(true, MSG_FILE_INVALID_FILE),
        Err("bob Initial file download unexpected msg 6".to_string())
    );
    assert_eq!(
        d.check_response(false, 1),
        Err("bob Mid file download unexpected msg 1".to_string())
    );
}

#[test]
fn downloads_start_with_the_first_of_the_queue() {
    let all = dir("everything/", vec![leaf("a", 5), dir("d", vec![leaf("d/b", 1)])]);
    let mut d = downloader();
    assert!(matches!(d.next_download(&all), NextDownload::Nothing));
    d.download_queue.push_back(item("x", 5));
    assert!(matches!(d.next_download(&all), NextDownload::NoLongerShared(p) if p == "x"));
    d.download_queue.push_front(item("d", 1));
    match d.next_download(&all) {
        NextDownload::Start(i, f) => {
            assert_eq!(d.start_download(i, &f, "/dl/bob/", "d"), "/dl/bob/d");
            assert_eq!(d.active_download_local_path, Some("/dl/bob/d".to_string()));
            assert_eq!(d.active_download_size, 1);
            assert_eq!(d.active_download_total_size, "1 bytes");
            assert!(d.is_directory_done(&f));
            d.stop_downloading = true;
            assert!(!d.is_directory_done(&f));
        }
        _ => panic!(),
    }
    assert_eq!(d.start_download(item("a", 5), &leaf("a", 5), "/dl/bob/", "a"), "/dl/bob/");
    assert_eq!(get_path_downloads_dir_user("/dl/", "bob"), "/dl/bob");
}

#[test]
fn retries_wait_longer() {
    assert_eq!(RETRY_SLEEP, 5);
    assert_eq!([next_retry_sleep(5, 30), next_retry_sleep(25, 30), next_retry_sleep(30, 30), next_retry_sleep(5, 5)], [10, 30, 30, 5]);
}

#[test]
fn file_lists_are_put_together() {
    let mut l = FileListBytes::new();
    assert_eq!(l.add_piece(MSG_FILE_LIST_PIECE, b"ab", "bob"), Ok(false));
    assert_eq!(l.add_piece(MSG_FILE_LIST_FINAL, b"c", "bob"), Ok(true));
    assert_eq!(l.text(), Ok("abc".to_string()));
    let mut l = FileListBytes { bytes: vec![b'x'; MAX_EVERYTHING_FILE_SIZE] };
    assert_eq!(l.add_piece(MSG_FILE_LIST_PIECE, b"", "bob"), Ok(false));
    assert_eq!(
        l.add_piece(MSG_FILE_LIST_FINAL, b"y", "bob"),
        Err("File list is too large. bob needs to share fewer files with you.".to_string())
    );
    let l = FileListBytes { bytes: vec![0xff] };
    assert_eq!(l.text(), Err("invalid utf-8 sequence of 1 bytes from index 0".to_string()));
}

#[test]
fn file_lists_are_cleaned() {
    let mut f = dir("everything/", vec![leaf("a", 2048), leaf("../b", 1)]);
    f.files[0].size_string = "tiny".to_string();
    clean_everything_file(&mut f);
    assert_eq!(f.files.len(), 1);
    assert_eq!(f.files[0].size_string, "2.00 KB");
}

#[test]
fn disk_paths_are_sanitized() {
    assert_eq!(sanitize_disk_path("C:\\a\\b", false), Ok("C:\\a\\b".to_string()));
    assert_eq!(sanitize_disk_path("\\\\net\\b", false), Ok("\\net\\b".to_string()));
    assert_eq!(sanitize_disk_path("a\\b", true), Ok("a/b".to_string()));
    assert_eq!(sanitize_disk_path("a\0b", false), Ok("a0b".to_string()));
    let long = "\\".repeat(2000);
    assert_eq!(
        sanitize_disk_path(&long, false),
        Err(format!("Path could not be sanitized after 10 tries. {}", long))
    );
}

#[test]
fn downloads_are_saved_under_their_last_names() {
    assert!(matches!(
        get_sanitized_disk_file_name(&leaf("home\\me\\a.txt", 1), true),
        DiskName::Name(n) if n == "a.txt"
    ));
    for path in [
        "C:\\Users\\a.txt",
        "C:/Users/a.txt",
        "C:\\Users/a.txt",
        "a.txt",
        "/a.txt",
        "home/./a.txt/",
        "home/a.txt/.",
        "\\\\server\\share\\a.txt",
    ] {
        assert!(
            matches!(
                get_sanitized_disk_file_name(&leaf(path, 1), true),
                DiskName::Name(n) if n == "a.txt"
            ),
            "{}",
            path
        );
    }
    for path in ["", "/", "./", "..", "home/..", "home/../"] {
        assert!(
            matches!(get_sanitized_disk_file_name(&leaf(path, 1), true), DiskName::Missing),
            "{}",
            path
        );
    }
    let long = "\\".repeat(2000);
    assert!(matches!(get_sanitized_disk_file_name(&leaf(&long, 1), false), DiskName::Unclean(_)));

    let f = dir("x/d", vec![leaf("x/d/a", 1), dir("x/d/e", vec![leaf("x/d/e/b", 2)])]);
    let names = find_disk_names(&f, true);
    let steps = download_shared_file(&f, &names, "/dl/bob/", '/');
    let places: Vec<(&str, &str)> = steps
        .iter()
        .map(|s| match s {
            DownloadStep::File { directory, destination, .. } => (directory.as_str(), destination.as_str()),
            _ => panic!(),
        })
        .collect();
    assert_eq!(places, [("/dl/bob/d/", "/dl/bob/d/a"), ("/dl/bob/d/e/", "/dl/bob/d/e/b")]);

    let f = dir("d", vec![leaf("d/a", 1), leaf("..", 1), leaf("d/b", 1)]);
    let names = find_disk_names(&f, true);
    let steps = download_shared_file(&f, &names, "/dl/bob/", '/');
    assert_eq!(steps.len(), 2);
    assert!(matches!(steps[1], DownloadStep::NoName));
}

#[test]
fn ended_downloaders() {
    let end = downloader_ended("bob", Ok(()));
    assert!(!end.continue_run && end.messages.is_empty() && end.sleep_secs == 0);
    let end = downloader_ended("bob", Err("lost".to_string()));
    assert!(end.continue_run && end.sleep_secs == 0);
    assert_eq!(format!("{:?}", end.messages), r#"[LogError("Downloader run error. 'bob' - lost")]"#);
    let end = downloader_ended("bob", Err(ERR_REC_DISCONNECTED.to_string()));
    assert!(!end.continue_run);
    let end = downloader_ended("bob", Err(format!("{} more", ERR_REMOTE_ID_MISMATCH)));
    assert!(end.continue_run && end.sleep_secs == 30);
    assert!(matches!(&end.messages[1], AppAggMessage::OfflineError(m) if m.error == ERR_REMOTE_ID_MISMATCH));
    let end = downloader_ended("bob", Err(ERR_REMOTE_ID_NOT_FOUND.to_string()));
    assert!(end.continue_run && end.messages.len() == 1);
}

#[test]
fn starting_downloads() {
    let d = OutgoingDownloader::new(config(vec![user("al", "AAAA"), user("bob", "BBBB")]));
    assert_eq!(d.start_downloading().len(), 2);
    assert!(matches!(d.start_downloading_single_user(&None, false, false), StartDecision::Nothing));
    assert!(matches!(d.start_downloading_single_user(&None, true, true), StartDecision::Start(None)));
    let parties = |name: &str, id: &str, key: Vec<u8>| {
        Some(ReverseParties { shared_user: user(name, id), private_id_bytes: key })
    };
    let key = d.config.get_local_private_id_bytes();
    assert!(matches!(
        d.start_downloading_single_user(&parties("bob", "BBBB", key.clone()), false, false),
        StartDecision::Start(Some(AppAggMessage::LogDebug(t))) if t == "Reverse Connection recheck success bob"
    ));
    assert!(matches!(
        d.start_downloading_single_user(&parties("bob", "BBBB", key.clone()), false, true),
        StartDecision::HandOver(_)
    ));
    for refused in [parties("bob", "AAAA", key.clone()), parties("bob", "BBBB", vec![1])] {
        assert!(matches!(
            d.start_downloading_single_user(&refused, true, false),
            StartDecision::Refuse(AppAggMessage::LogWarning(t))
                if t == "Reverse Connection recheck failed. Connection disconnected. bob"
        ));
    }
}

#[test]
fn orders_to_all_downloaders() {
    let mut d = OutgoingDownloader::new(config(vec![user("al", "AAAA")]));
    assert!(!d.is_downloading_paused());
    assert!(matches!(d.downloads_pause_all(), MessageSingleDownloader::PauseDownloads));
    assert!(d.is_downloading_paused());
    assert!(matches!(d.downloads_resume_all(), MessageSingleDownloader::ResumeDownloads));
    assert!(!d.is_downloading_paused());
    assert!(matches!(d.restart_connections(), MessageSingleDownloader::RestartConnection));
    assert!(matches!(d.downloads_cancel_all(), MessageSingleDownloader::CancelAllDownloads));
    assert!(matches!(d.remove_user(), MessageSingleDownloader::RemoveUser));
    assert!(matches!(
        d.downloads_cancel_single("a".to_string()),
        MessageSingleDownloader::CancelDownload(p) if p == "a"
    ));
    assert_eq!(d.update_user("al").unwrap().public_id, "AAAA");
    assert!(matches!(d.update_user("eve"), Err(e) if e == "Failed to find shared user eve"));
}

#[test]
fn selected_downloads_are_queued() {
    let d = OutgoingDownloader::new(config(vec![user("al", "AAAA")]));
    let selected = |owner: &str, path: &str| SelectedDownload {
        path: path.to_string(),
        owner: owner.to_string(),
        file_size: 12,
    };
    let v = d.download_selected(vec![selected("al", "a"), selected("eve", "b")]);
    assert_eq!((v[0].owner.as_str(), v[0].queue_line.as_str()), ("al", "12:a\n"));
    assert_eq!(v[0].user.as_ref().unwrap().nickname, "al");
    assert_eq!(v[0].item.path, "a");
    assert!(v[1].user.is_none());
    assert_eq!(v.len(), 2);
}

#[test]
fn refreshing_what_is_shared() {
    let mut d = OutgoingDownloader::new(config(vec![user("al", "AAAA"), user("bob", "BBBB")]));
    let data = d.get_shared_with_me_data().remove("al").unwrap();
    assert_eq!((data.error, data.in_progress), (Some("Refresh".to_string()), false));
    d.finish_refresh("al", RefreshPoll::Disconnected);
    assert_eq!(d.get_shared_with_me_data().remove("al").unwrap().error, Some("Refresh".to_string()));
    assert_eq!(d.start_refresh_shared_with_me_single_user("al"), Ok(()));
    assert!(d.get_shared_with_me_data().remove("al").unwrap().in_progress);
    d.finish_refresh("al", RefreshPoll::Empty);
    assert!(d.get_shared_with_me_data().remove("al").unwrap().in_progress);
    d.finish_refresh("al", RefreshPoll::Message(RefreshSharedMessages::FileData(Ok(leaf("x", 1)))));
    let data = d.get_shared_with_me_data().remove("al").unwrap();
    assert!(data.error.is_none() && !data.in_progress);
    assert_eq!(data.data.unwrap().path, "x");
    assert_eq!(data.owner, "al");

    let started = d.start_refresh_shared_with_me_all();
    assert_eq!(started, [("al".to_string(), None), ("bob".to_string(), None)]);
    d.finish_refresh("al", RefreshPoll::Message(RefreshSharedMessages::FileData(Err("off".to_string()))));
    let data = d.get_shared_with_me_data().remove("al").unwrap();
    assert_eq!(data.error, Some("off".to_string()));
    assert_eq!(data.data.unwrap().path, "x");
    d.finish_refresh("bob", RefreshPoll::Disconnected);
    assert_eq!(
        d.get_shared_with_me_data().remove("bob").unwrap().error.unwrap(),
        "Transmitic Error: Channel disconnected before refresh data was received."
    );

    d.set_new_config(config(vec![user("cy", "AAAA"), user("bob", "BBBB")]));
    assert!(d.get_shared_with_me_data().remove("al").is_none());
    assert_eq!(d.get_shared_with_me_data().remove("cy").unwrap().error, Some("Refresh".to_string()));
    assert_ne!(d.get_shared_with_me_data().remove("bob").unwrap().error, Some("Refresh".to_string()));
    assert_eq!(
        d.start_refresh_shared_with_me_single_user("al"),
        Err("Start refresh with missing key: 'al'".to_string())
    );
    d.set_refreshed("cy", leaf("y", 1));
    assert_eq!(d.get_shared_with_me_data().remove("cy").unwrap().data.unwrap().path, "y");
}
