use transmitic_core::app_aggregator::AppAggMessage;
use transmitic_core::config::{create_new_config, Config, SharedUser};
use transmitic_core::core_consts::{
    MAX_DATA_SIZE, MSG_FILE_CHUNK, MSG_FILE_FINISHED, MSG_FILE_LIST, MSG_FILE_LIST_FINAL,
    MSG_FILE_LIST_PIECE, MSG_FILE_SELECTION_CONTINUE, MSG_REVERSE,
};
use transmitic_core::incoming_uploader::{
    file_list_messages, next_reverse_sleep, reverse_offline, reverse_started, sharing_error,
    shown_percent, Admission, ClientRequest, FileUpload, ManagerStep, MessageUploadManager,
    ReverseStep, ReverseWait, SharingState, SingleUploader, UploaderManager, UploaderPoll,
};
use transmitic_core::shared_file::SharedFile;

fn user(nickname: &str, ip: &str) -> SharedUser {
    SharedUser {
        nickname: nickname.to_string(),
        public_id: "AAAA".to_string(),
        ip: ip.to_string(),
        port: "1".to_string(),
        allowed: true,
    }
}

fn config(users: Vec<SharedUser>) -> Config {
    let mut file = create_new_config().unwrap();
    file.shared_users = users;
    for (i, u) in file.shared_users.iter_mut().enumerate() {
        u.public_id = ["AAAA", "BBBB", "CCCC"][i].to_string();
    }
    Config::new(false, file, "dir".to_string(), &vec![]).unwrap_or_else(|e| panic!("{}", e))
}

fn uploader(users: Vec<SharedUser>) -> SingleUploader {
    SingleUploader::new(config(users))
}

fn shown(messages: &[AppAggMessage]) -> String {
    format!("{:?}", messages)
}

fn selection(from: u64, path: &str) -> Vec<u8> {
    let mut b = from.to_be_bytes().to_vec();
    b.extend_from_slice(path.as_bytes());
    b
}

#[test]
fn listening_depends_on_the_sharing_state() {
    let mut m = UploaderManager::new(config(vec![]), SharingState::Off);
    assert!(matches!(m.run(false), ManagerStep::SleepSecs(1)));
    m.read_receiver(MessageUploadManager::SharingStateMsg(SharingState::Local));
    assert!(m.stop_incoming);
    m.start_over();
    assert!(!m.stop_incoming);
    match m.run(false) {
        ManagerStep::Listen(a, AppAggMessage::LogInfo(t)) => {
            assert_eq!(a, "127.0.0.1:7878");
            assert_eq!(t, "Waiting for incoming uploads on 127.0.0.1:7878");
        }
        _ => panic!(),
    }
    assert!(matches!(
        m.run(true),
        ManagerStep::ConnectToUsers(AppAggMessage::LogInfo(t)) if t == "Reverse Connections Starting"
    ));
    m.read_receiver(MessageUploadManager::SharingStateMsg(SharingState::Internet));
    assert!(matches!(m.run(false), ManagerStep::Listen(a, _) if a == "0.0.0.0:7878"));
    let mut other = config(vec![]);
    other.set_port("9".to_string()).unwrap();
    m.read_receiver(MessageUploadManager::NewConfig(other));
    assert!(matches!(m.run(false), ManagerStep::Listen(a, _) if a == "0.0.0.0:9"));
}

#[test]
fn connections_are_opened_once_for_each_user() {
    let users = vec![user("al", "127.0.0.1"), user("bo", "10.0.0.2"), user("cy", "127.0.0.3")];
    let mut m = UploaderManager::new(config(users), SharingState::Local);
    let names = |m: &UploaderManager, busy: &[&str]| -> Vec<String> {
        let busy = busy.iter().map(|b| b.to_string()).collect();
        m.users_to_connect(&busy).into_iter().map(|u| u.nickname).collect()
    };
    assert_eq!(names(&m, &[]), ["al", "cy"]);
    assert_eq!(names(&m, &["cy", "x"]), ["al"]);
    m.read_receiver(MessageUploadManager::SharingStateMsg(SharingState::Internet));
    assert_eq!(names(&m, &[]), ["al", "bo", "cy"]);
    assert!(names(&m, &["al", "bo", "cy"]).is_empty());
    assert!(matches!(reverse_started("al"), AppAggMessage::LogInfo(t) if t == "Reverse Start al"));
    assert!(matches!(reverse_offline("al"), AppAggMessage::LogDebug(t) if t == "Reverse offline al"));
}

#[test]
fn users_are_connected_to_after_a_wait() {
    let mut w = ReverseWait::new();
    assert!(matches!(w.message(), AppAggMessage::LogInfo(t) if t == "Reverse sleep 1"));
    assert_eq!(w.tick(false, 15), ReverseStep::Connect);
    assert!(matches!(w.message(), AppAggMessage::LogInfo(t) if t == "Reverse sleep 3"));
    assert_eq!(w.tick(false, 15), ReverseStep::SleepSecond);
    assert_eq!(w.tick(false, 15), ReverseStep::SleepSecond);
    assert_eq!(w.tick(false, 15), ReverseStep::Connect);
    assert_eq!(w, ReverseWait { sleep: 9, loop_counter: 1 });
    assert_eq!(w.tick(true, 15), ReverseStep::Stop);
    assert_eq!(w, ReverseWait { sleep: 9, loop_counter: 1 });
}

#[test]
fn waits_get_longer() {
    let mut sleep = 1;
    let mut all = vec![];
    for _ in 0..5 {
        sleep = next_reverse_sleep(sleep, 15);
        all.push(sleep);
    }
    assert_eq!(all, [3, 9, 15, 15, 15]);
}

#[test]
fn sharing_errors() {
    assert!(matches!(sharing_error(true, "x".to_string()), AppAggMessage::UploadErrorPortInUse));
    assert!(matches!(sharing_error(false, "x".to_string()), AppAggMessage::UploadErrorGeneric(t) if t == "x"));
}

#[test]
fn only_known_addresses_are_let_in() {
    let u = uploader(vec![user("al", "10.0.0.1"), user("bo", "10.0.0.2"), user("cy", "10.0.0.1")]);
    match u.run(&None, false, "10.0.0.1") {
        (Admission::Check(users), log) => {
            let names: Vec<&str> = users.iter().map(|u| u.nickname.as_str()).collect();
            assert_eq!(names, ["al", "cy"]);
            assert_eq!(
                shown(&log),
                r#"[LogInfo("Incoming Connecting: 10.0.0.1"), LogInfo("User(s) trying to connect: 'al', 'cy'")]"#
            );
        }
        _ => panic!(),
    }
    match u.run(&None, false, "6.6.6.6") {
        (Admission::Denied, log) => assert_eq!(
            shown(&log),
            r#"[LogInfo("Incoming Connecting: 6.6.6.6"), LogWarning("Unknown IP tried to connect. Denied.: '6.6.6.6'")]"#
        ),
        _ => panic!(),
    }
    assert!(matches!(
        u.run(&None, true, "6.6.6.6"),
        (Admission::Check(users), log) if users.len() == 3 && log.len() == 1
    ));
    let reverse = Some(user("bo", "10.0.0.2"));
    assert!(matches!(
        u.run(&reverse, false, "6.6.6.6"),
        (Admission::Check(users), log) if users.len() == 1 && users[0].nickname == "bo" && log.len() == 1
    ));
    assert!(matches!(u.run(&reverse, true, "10.0.0.2"), (Admission::InvalidState, _)));
}

#[test]
fn blocked_users_are_not_served() {
    let mut u = uploader(vec![]);
    let (allowed, log) = u.connected(&user("al", "10.0.0.1"));
    assert!(allowed);
    assert!(matches!(log, AppAggMessage::LogInfo(t) if t == "User successfully connected: 'al'"));
    let mut blocked = user("bo", "10.0.0.1");
    blocked.allowed = false;
    let (allowed, _) = u.connected(&blocked);
    assert!(!allowed);
    assert_eq!(u.nickname, "bo");
    assert!(matches!(
        u.process_not_allowed(),
        AppAggMessage::LogWarning(t) if t == "User tried to connect but is currently set to Block: 'bo'"
    ));
}

#[test]
fn orders_to_an_uploader() {
    let mut u = uploader(vec![]);
    let (more, log) = u.read_receiver(UploaderPoll::DoNothing);
    assert!(more && log.is_none() && !u.should_shutdown);
    let (more, log) = u.read_receiver(UploaderPoll::Empty);
    assert!(!more && log.is_none() && !u.should_shutdown);
    let (more, log) = u.read_receiver(UploaderPoll::ShutdownConn);
    assert!(more && log.is_none() && u.should_shutdown);
    let mut u = uploader(vec![]);
    u.connected(&user("al", "10.0.0.1"));
    let (more, log) = u.read_receiver(UploaderPoll::Disconnected("closed".to_string()));
    assert!(!more && u.should_shutdown);
    assert!(matches!(log, Some(AppAggMessage::LogInfo(t)) if t == "Receiver disconnected 'al' 'closed'"));
}

#[test]
fn requests_are_answered() {
    let files = vec![
        SharedFile::new("a".to_string(), false, vec![], 5),
        SharedFile::new("d".to_string(), true, vec![], 0),
    ];
    let all = SharedFile::new("everything/".to_string(), true, files, 5);
    let mut u = uploader(vec![]);
    u.connected(&user("al", "10.0.0.1"));
    assert!(matches!(
        u.run_loop(MSG_FILE_LIST, b"", &all),
        Ok(ClientRequest::FileList(AppAggMessage::LogDebug(t))) if t == "'al' requested file list"
    ));
    assert_eq!(u.active_msg, MSG_FILE_LIST);
    match u.run_loop(MSG_FILE_SELECTION_CONTINUE, &selection(3, "a"), &all) {
        Ok(ClientRequest::SendFile { path, seek_point, file_size, log }) => {
            assert_eq!((path.as_str(), seek_point, file_size), ("a", 3, 5));
            assert!(matches!(log, AppAggMessage::LogDebug(t) if t == "'al' chose file 'a' at seek point '3'"));
        }
        _ => panic!(),
    }
    assert!(matches!(
        u.run_loop(MSG_FILE_SELECTION_CONTINUE, &selection(0, "b"), &all),
        Ok(ClientRequest::InvalidFile(_, AppAggMessage::LogWarning(t))) if t == "'al' chose invalid file 'b'"
    ));
    assert!(matches!(
        u.run_loop(MSG_FILE_SELECTION_CONTINUE, &selection(0, "d"), &all),
        Ok(ClientRequest::Directory(_, AppAggMessage::LogWarning(t)))
            if t == "'al' chose directory. Not allowed. 'd'"
    ));
    assert!(matches!(
        u.run_loop(MSG_FILE_SELECTION_CONTINUE, b"1234567", &all),
        Ok(ClientRequest::TooShort)
    ));
    let e = match u.run_loop(MSG_FILE_SELECTION_CONTINUE, &[0, 0, 0, 0, 0, 0, 0, 0, 0xff], &all) {
        Err(e) => e,
        Ok(_) => panic!(),
    };
    assert_eq!(e, "invalid utf-8 sequence of 1 bytes from index 0");
    assert!(matches!(u.run_loop(MSG_REVERSE, b"", &all), Ok(ClientRequest::ReverseConnection)));
    assert!(matches!(u.run_loop(77, b"", &all), Err(t) if t == "'al' Invalid client selection '77'"));
}

#[test]
fn uploads_are_reported() {
    let mut u = uploader(vec![]);
    u.connected(&user("al", "10.0.0.1"));
    assert_eq!(
        shown(&u.upload_started("a")),
        r#"[LogInfo("Sending 'al' file 'a'"), UploadStateChange(SingleUploadState { nickname: "al", path: "a", percent: 0, is_online: true })]"#
    );
    assert_eq!(
        shown(&u.upload_finished("a")),
        r#"[UploadStateChange(SingleUploadState { nickname: "al", path: "a", percent: 100, is_online: true }), LogInfo("File transfer to 'al' completed 'a'")]"#
    );
    assert_eq!(
        shown(&u.run_failed("1.2.3.4", "why")),
        r#"[LogDebug("Uploader run error. 1.2.3.4 - why")]"#
    );
    u.active_msg = MSG_FILE_SELECTION_CONTINUE;
    assert_eq!(
        shown(&u.run_failed("1.2.3.4", "why")),
        r#"[LogDebug("Uploader run error. 1.2.3.4 - why"), UploadDisconnected("al")]"#
    );
    assert!(matches!(u.upload_state("a", 12), AppAggMessage::UploadStateChange(s) if s.percent == 12));
    assert_eq!([shown_percent(0), shown_percent(99), shown_percent(100), shown_percent(250)], [0, 99, 99, 99]);
}

#[test]
fn last_chunk_is_marked() {
    let mut u = FileUpload::new(5, 20);
    assert_eq!(u.next_chunk(10), MSG_FILE_CHUNK);
    assert_eq!(u.current_sent_bytes, 15);
    assert_eq!(u.next_chunk(5), MSG_FILE_FINISHED);
    assert_eq!(FileUpload::new(0, 20).next_chunk(25), MSG_FILE_FINISHED);
    assert_eq!(FileUpload::new(0, 20).next_chunk(0), MSG_FILE_FINISHED);
    assert_eq!(FileUpload::new(0, 0).next_chunk(0), MSG_FILE_FINISHED);
}

#[test]
fn file_list_is_sent_in_pieces() {
    for n in [0, 1, MAX_DATA_SIZE, MAX_DATA_SIZE + 1, 2 * MAX_DATA_SIZE, 2 * MAX_DATA_SIZE + 5] {
        let bytes: Vec<u8> = (0..n).map(|i| (i % 251) as u8).collect();
        let messages = file_list_messages(&bytes);
        let joined: Vec<u8> = messages.iter().flat_map(|m| m.1.clone()).collect();
        assert_eq!(joined, bytes);
        let (last, first) = messages.split_last().unwrap();
        assert_eq!(last.0, MSG_FILE_LIST_FINAL);
        assert!(first.iter().all(|m| m.0 == MSG_FILE_LIST_PIECE && m.1.len() == MAX_DATA_SIZE));
        assert!(last.1.len() <= MAX_DATA_SIZE);
    }
}
