use transmitic_core::core_consts::{
    MSG_CANNOT_SELECT_DIRECTORY, MSG_FILE_CHUNK, MSG_FILE_FINISHED, MSG_FILE_INVALID_FILE,
    MSG_FILE_LIST, MSG_FILE_SELECTION_CONTINUE, PAYLOAD_OFFSET, TOTAL_BUFFER_SIZE,
};
use transmitic_core::crypto::{generate_id_pair, get_base64_str_from_bytes};
use transmitic_core::incoming::{
    answer_handshake, check_signed_key, chunk_messages, client_handle_incoming_loop,
    client_wait_for_incoming, diffie_payload, find_client, has_mode_changed, trusted_refusal,
    ClientAdmission, DownloadNote, IncomingConnectionManager, TrustedRequest, TrustedUser, WaitStep,
};
use transmitic_core::outgoing::{
    find_last_names, get_local_to_outgoing_secure_stream_cipher, AfterDownload, FileToDownload,
    FirstAnswer, ForeverStep, NextAnswer, OutgoingConnection, OutgoingConnectionManager,
    OutgoingStep, StopReason,
};
use transmitic_core::outgoing_downloader::{download_shared_file, DiskName, DownloadStep};
use transmitic_core::shared_file::SharedFile;
use transmitic_core::utils::set_buffer;

fn user(name: &str, ip: &str) -> TrustedUser {
    TrustedUser {
        display_name: name.to_string(),
        public_id: "AAAA".to_string(),
        ip_address: ip.to_string(),
        port: "7".to_string(),
    }
}

fn leaf(path: &str, size: u64) -> SharedFile {
    SharedFile::new(path.to_string(), false, vec![], size)
}

fn dir(path: &str, files: Vec<SharedFile>) -> SharedFile {
    SharedFile::new(path.to_string(), true, files, 0)
}

fn accepted(r: ClientAdmission) -> usize {
    match r {
        ClientAdmission::Accepted { number, .. } => number,
        ClientAdmission::Rejected(text) => panic!("{}", text),
    }
}

#[test]
fn clients_are_known_by_their_address() {
    let users = vec![user("al", "1.1.1.1"), user("bo", "2.2.2.2"), user("cy", "1.1.1.1")];
    assert_eq!(find_client(&users, "1.1.1.1").unwrap().display_name, "cy");
    assert!(find_client(&users, "3.3.3.3").is_none());
    let mut m = IncomingConnectionManager::new(&users);
    assert!(matches!(
        m.client_handle_incoming(&users, "3.3.3.3"),
        ClientAdmission::Rejected(t) if t == "!!!! WARNING: Rejected unknown IP: 3.3.3.3"
    ));
    assert_eq!(accepted(m.client_handle_incoming(&users, "2.2.2.2")), 0);
    assert_eq!(accepted(m.client_handle_incoming(&users, "1.1.1.1")), 1);
    m.disable_user("bo");
    assert!(matches!(
        m.client_handle_incoming(&users, "2.2.2.2"),
        ClientAdmission::Rejected(t) if t == "!!!! WARNING: Disabled user connecting. Rejected.: 2.2.2.2"
    ));
    assert_eq!(m.single_connections.len(), 3);
    m.enable_user("bo");
    assert_eq!(accepted(m.client_handle_incoming(&users, "2.2.2.2")), 3);
}

#[test]
fn reset_connections_end() {
    let users = vec![user("al", "1.1.1.1"), user("bo", "2.2.2.2")];
    let mut m = IncomingConnectionManager::new(&users);
    let a = accepted(m.client_handle_incoming(&users, "1.1.1.1"));
    let b = accepted(m.client_handle_incoming(&users, "2.2.2.2"));
    assert!(!m.should_stop("al", a, "1.1.1.1", "AAAA"));
    assert!(!m.should_stop("bo", b, "2.2.2.2", "AAAA"));
    assert!(m.should_stop("al", a, "1.1.1.2", "AAAA"));
    assert!(m.should_stop("al", a, "1.1.1.1", "BBBB"));
    m.reset_all_connections("al");
    assert!(m.should_reset(a) && !m.should_reset(b));
    assert!(m.should_stop("al", a, "1.1.1.1", "AAAA"));
    assert!(m.should_stop_sending("al", a) && !m.should_stop_sending("bo", b));
    let a2 = accepted(m.client_handle_incoming(&users, "1.1.1.1"));
    assert!(!m.should_stop("al", a2, "1.1.1.1", "AAAA"));
    m.reset_all_connections_for_specific_users(&vec!["bo".to_string(), "eve".to_string()]);
    assert!(m.should_reset(b) && !m.should_reset(a2));
    m.reset_all_connections_for_all_users();
    assert!(m.should_reset(a2));
}

#[test]
fn removed_and_disabled_users_are_cut_off() {
    let users = vec![user("al", "1.1.1.1"), user("bo", "2.2.2.2")];
    let mut m = IncomingConnectionManager::new(&users);
    let a = accepted(m.client_handle_incoming(&users, "1.1.1.1"));
    let b = accepted(m.client_handle_incoming(&users, "2.2.2.2"));
    m.remove_user("al");
    assert!(!m.should_reset(a));
    assert!(m.should_stop_sending("al", a));
    assert!(m.should_stop("al", a, "1.1.1.1", "AAAA"));
    m.set_download("bo", DownloadNote::Started(leaf("x", 1)));
    m.disable_user("bo");
    assert!(m.incoming_connections.get("bo").unwrap().is_downloading);
    assert!(m.should_stop("bo", b, "2.2.2.2", "AAAA"));
    assert!(!m.incoming_connections.get("bo").unwrap().is_downloading);
}

#[test]
fn sent_files_are_noted() {
    let users = vec![user("al", "1.1.1.1")];
    let mut m = IncomingConnectionManager::new(&users);
    m.set_download("al", DownloadNote::Started(leaf("x", 1)));
    m.set_download("al", DownloadNote::Percent(40));
    let c = m.incoming_connections.get("al").unwrap();
    assert!(c.is_downloading);
    assert_eq!(c.active_download_percent, 40);
    assert_eq!(c.active_download.as_ref().unwrap().path, "x");
    m.set_download("al", DownloadNote::Finished("x".to_string()));
    let c = m.incoming_connections.get("al").unwrap();
    assert!(!c.is_downloading);
    assert_eq!(c.finished_downloads, ["x"]);
}

#[test]
fn keys_are_exchanged() {
    let (a_private, a_public) = generate_id_pair().unwrap();
    let (b_private, b_public) = generate_id_pair().unwrap();
    let (a_secret, b_secret) = ([1u8; 32], [2u8; 32]);
    let mut buffer = vec![0; TOTAL_BUFFER_SIZE];
    let payload = diffie_payload(&a_private, &a_secret).unwrap();
    assert_eq!(payload.len(), 96);
    set_buffer(&mut buffer, 20, &payload);
    let mut alice = user("alice", "1.1.1.1");
    alice.public_id = get_base64_str_from_bytes(a_public);
    assert_eq!(check_signed_key(&alice.public_id, &buffer).unwrap()[..], payload[..32]);

    let (reply, key) =
        answer_handshake(&b_private, &b_secret, &alice, "1.1.1.1", buffer.clone(), 21).unwrap();
    assert_eq!(reply[0], 21);
    let bob_id = get_base64_str_from_bytes(b_public);
    assert_eq!(
        get_local_to_outgoing_secure_stream_cipher(&a_secret, &bob_id, &reply, "2.2.2.2"),
        Ok(key)
    );
    assert_eq!(
        get_local_to_outgoing_secure_stream_cipher(&a_secret, &alice.public_id, &reply, "2.2.2.2"),
        Err("ERROR: Remote signature failure. Verify Public ID is correct for 2.2.2.2".to_string())
    );

    let mut changed = buffer.clone();
    changed[PAYLOAD_OFFSET] ^= 1;
    assert_eq!(
        answer_handshake(&b_private, &b_secret, &alice, "1.1.1.1", changed, 21).unwrap_err(),
        "ERROR: Incoming connection failed signature. Public key isn't valid. alice - 1.1.1.1"
    );
    assert!(answer_handshake(&[1], &b_secret, &alice, "1.1.1.1", buffer.clone(), 21).is_err());
    assert!(check_signed_key("@", &buffer).is_none());
}

#[test]
fn trusted_requests() {
    let all = dir("everything/", vec![leaf("a", 5), dir("d", vec![])]);
    let ask = |path: &str| {
        let mut p = 3u64.to_be_bytes().to_vec();
        p.extend_from_slice(path.as_bytes());
        client_handle_incoming_loop(MSG_FILE_SELECTION_CONTINUE as u8, &p, &all)
    };
    assert!(matches!(
        client_handle_incoming_loop(MSG_FILE_LIST as u8, b"", &all),
        TrustedRequest::FileList
    ));
    assert!(matches!(ask("a"), TrustedRequest::SendFile { file, seek_point: 3 } if file.path == "a"));
    assert!(matches!(ask("b"), TrustedRequest::InvalidFile));
    assert!(matches!(ask("d"), TrustedRequest::Directory));
    assert_eq!(trusted_refusal(&ask("a")), None);
    assert_eq!(trusted_refusal(&ask("b")), Some((MSG_FILE_INVALID_FILE, vec![])));
    assert_eq!(trusted_refusal(&ask("d")), Some((MSG_CANNOT_SELECT_DIRECTORY, vec![])));
    let raw = |p: &[u8]| client_handle_incoming_loop(MSG_FILE_SELECTION_CONTINUE as u8, p, &all);
    assert!(matches!(raw(b"1234567"), TrustedRequest::TooShort));
    assert!(matches!(raw(&[255; 9]), TrustedRequest::NoText));
    assert!(matches!(
        client_handle_incoming_loop(200, b"", &all),
        TrustedRequest::Unknown(t) if t == "Invalid client selection 200"
    ));
}

#[test]
fn parts_of_a_file_are_sent() {
    assert_eq!(chunk_messages(b"ab"), [(MSG_FILE_CHUNK, b"ab".to_vec())]);
    assert_eq!(chunk_messages(b""), [(MSG_FILE_CHUNK, vec![]), (MSG_FILE_FINISHED, vec![])]);
}

#[test]
fn sharing_modes() {
    assert!(matches!(client_wait_for_incoming("Off", "1"), WaitStep::SleepSecs(1)));
    assert!(matches!(client_wait_for_incoming("Local Network", "1"), WaitStep::Listen(a) if a == "127.0.0.1:1"));
    assert!(matches!(client_wait_for_incoming("Internet", "1"), WaitStep::Listen(a) if a == "0.0.0.0:1"));
    assert!(matches!(
        client_wait_for_incoming("x", "1"),
        WaitStep::Invalid(t)
            if t == "Server flag invalid. 'Local Network' or 'Internet' is valid. Yours -> x"
    ));
    assert!(has_mode_changed("Internet", "Off"));
    assert!(has_mode_changed("Internet", "Local Network"));
    assert!(!has_mode_changed("Internet", "Internet"));
    assert!(has_mode_changed("Off", "Off"));
}

fn manager(queues: Vec<Option<String>>) -> OutgoingConnectionManager {
    let users = vec![user("al", "1.1.1.1"), user("bo", "2.2.2.2")];
    OutgoingConnectionManager::new(&users, &queues, false)
}

fn wanted(owner: &str, path: &str) -> FileToDownload {
    FileToDownload { file_owner: owner.to_string(), file_path: path.to_string() }
}

fn queue(c: &OutgoingConnection) -> Vec<&str> {
    c.download_queue.iter().map(|s| s.as_str()).collect()
}

#[test]
fn queues_of_trusted_users() {
    let mut m = manager(vec![Some(" a \r\n\n\tb\n".to_string()), None]);
    assert_eq!(queue(m.outgoing_connections.get("al").unwrap()), ["a", "b"]);
    let writes = m.download_files(vec![wanted("bo", "x"), wanted("al", "c"), wanted("bo", "y")]);
    let text = |a: &str, b: &str| (a.to_string(), b.to_string());
    assert_eq!(writes, [text("bo", "x\n"), text("al", "a\nb\nc\n"), text("bo", "x\ny\n")]);
    let c = m.outgoing_connections.get("bo").unwrap();
    let again = OutgoingConnection::new(user("bo", "2.2.2.2"), Some(&c.write_queue()), false);
    assert_eq!(queue(&again), ["x", "y"]);
}

#[test]
fn downloads_are_cancelled() {
    let mut m = manager(vec![Some("a\\b\na\\\\b\nc".to_string()), None]);
    assert_eq!(m.cancel_single_download("al", "a\\\\b"), Some("a\\\\b\nc\n".to_string()));
    let mut c = m.outgoing_connections.remove("al").unwrap();
    c.active_download = Some(leaf("x\\y", 1));
    m.outgoing_connections.insert("al".to_string(), c);
    assert_eq!(m.cancel_single_download("al", "a\\\\b"), Some("x\\y\nc\n".to_string()));
    assert_eq!(m.cancel_single_download("al", "x\\\\y"), None);
    let c = m.outgoing_connections.get("al").unwrap();
    assert!(c.stop_active_download && c.active_download.is_none());
    assert_eq!(queue(c), ["c"]);

    let mut m = manager(vec![Some("a".to_string()), Some("b".to_string())]);
    let mut c = m.outgoing_connections.remove("al").unwrap();
    c.active_download = Some(leaf("a", 1));
    m.outgoing_connections.insert("al".to_string(), c);
    m.cancel_all_downloads();
    assert!(m.outgoing_connections.get("al").unwrap().stop_active_download);
    assert!(!m.outgoing_connections.get("bo").unwrap().stop_active_download);
    assert!(m.outgoing_connections.get("al").unwrap().active_download.is_some());
    assert!(m.outgoing_connections.get("bo").unwrap().download_queue.is_empty());
}

#[test]
fn downloads_pause_and_resume() {
    let mut m = manager(vec![Some("a".to_string()), None]);
    m.pause_all_downloads();
    assert!(m.is_all_paused);
    for name in ["al", "bo"] {
        let c = m.outgoing_connections.get(name).unwrap();
        assert!(c.is_paused && c.stop_active_download);
    }
    m.resume_downloads("al");
    assert!(!m.outgoing_connections.get("al").unwrap().is_paused);
    assert!(m.outgoing_connections.get("bo").unwrap().is_paused && m.is_all_paused);
    m.resume_all_downloads();
    assert!(!m.outgoing_connections.get("bo").unwrap().is_paused && !m.is_all_paused);
    m.pause_downloads_for_user("bo");
    assert!(m.outgoing_connections.get("bo").unwrap().is_paused && !m.is_all_paused);
    assert_eq!(queue(m.outgoing_connections.get("al").unwrap()), ["a"]);
}

#[test]
fn shown_downloads_are_cleared() {
    let mut m = manager(vec![None, None]);
    let mut c = m.outgoing_connections.remove("al").unwrap();
    c.invalid_downloads.push("x".to_string());
    c.finished_downloads.push(("y".to_string(), "z".to_string()));
    m.outgoing_connections.insert("al".to_string(), c);
    m.clear_invalid_downloads();
    let c = m.outgoing_connections.get("al").unwrap();
    assert!(c.invalid_downloads.is_empty() && c.finished_downloads.len() == 1);
    m.clear_finished_downloads();
    assert!(m.outgoing_connections.get("al").unwrap().finished_downloads.is_empty());
}

#[test]
fn steps_of_a_connection() {
    let mut c = OutgoingConnection::new(user("al", "1.1.1.1"), Some("q\na\\\\b\nd"), false);
    assert_eq!(c.remote_addr(), "1.1.1.1:7");
    c.should_reset_connection = true;
    assert!(matches!(c.handle_outgoing_forever(), ForeverStep::Connect));
    assert!(!c.should_reset_connection);
    c.connected(dir("everything/", vec![leaf("a\\b", 5), dir("d", vec![])]));
    assert!(c.is_online);
    match c.handle_outgoing() {
        OutgoingStep::WriteQueue(text) => assert_eq!(text, "a\\\\b\nd\n"),
        _ => panic!(),
    }
    assert_eq!(c.invalid_downloads, ["q"]);
    let file = match c.handle_outgoing() {
        OutgoingStep::Download(f) => f,
        _ => panic!(),
    };
    assert_eq!(file.path, "a\\b");
    assert_eq!(c.active_download.as_ref().unwrap().path, "a\\b");
    match c.after_download(file, "unused".to_string()) {
        AfterDownload::WriteQueue(text) => assert_eq!(text, "d\n"),
        _ => panic!(),
    }
    assert!(c.finished_downloads.is_empty() && c.active_download.is_none());
    let file = match c.handle_outgoing() {
        OutgoingStep::Download(f) => f,
        _ => panic!(),
    };
    c.is_paused = true;
    assert!(matches!(c.after_download(file.clone(), "/dl/d".to_string()), AfterDownload::Again));
    assert!(matches!(c.handle_outgoing(), OutgoingStep::SleepMillis(3000)));
    assert_eq!(queue(&c), ["d"]);
    c.is_paused = false;
    assert!(matches!(c.after_download(file.clone(), "/dl/d".to_string()), AfterDownload::WriteQueue(t) if t.is_empty()));
    assert_eq!(c.finished_downloads, [("d".to_string(), "/dl/d".to_string())]);
    assert!(matches!(c.handle_outgoing(), OutgoingStep::SleepMillis(1000)));
    assert!(matches!(c.handle_outgoing_forever(), ForeverStep::SleepMillis(1000)));
    assert!(matches!(c.connection_ended(), ForeverStep::SleepMillis(10000)));
    assert!(!c.is_online);
    c.should_reset_connection = true;
    assert!(matches!(c.handle_outgoing(), OutgoingStep::End));
    assert!(matches!(c.after_download(file, "/dl/d".to_string()), AfterDownload::End));
    c.is_deleted = true;
    assert!(matches!(c.handle_outgoing_forever(), ForeverStep::End));
    assert!(matches!(c.connection_ended(), ForeverStep::End));
}

#[test]
fn answers_to_a_request() {
    let mut c = OutgoingConnection::new(user("al", "1.1.1.1"), None, true);
    assert!(c.is_paused);
    assert!(matches!(c.first_answer(MSG_FILE_INVALID_FILE as u8, "a"), FirstAnswer::Invalid));
    assert_eq!(c.invalid_downloads, ["a"]);
    assert!(matches!(
        c.first_answer(MSG_CANNOT_SELECT_DIRECTORY as u8, "a"),
        FirstAnswer::Unexpected(t) if t == "!!!! ERROR: Cannot download directory"
    ));
    assert!(matches!(
        c.first_answer(MSG_FILE_FINISHED as u8, "a"),
        FirstAnswer::Unexpected(t) if t == "!!!! ERROR: Expected MSG_FILE_CHUNK, got: 5"
    ));
    assert!(matches!(c.first_answer(MSG_FILE_CHUNK as u8, "a"), FirstAnswer::Chunk));
    assert!(matches!(c.next_answer(MSG_FILE_CHUNK as u8, 30, "a", "/dl/a"), NextAnswer::Chunk));
    assert_eq!(c.active_download_percent, 30);
    assert!(matches!(
        c.next_answer(9, 31, "a", "/dl/a"),
        NextAnswer::Unexpected(t) if t == "Expected MSG_FILE_CHUNK, got 9"
    ));
    assert!(matches!(c.next_answer(MSG_FILE_FINISHED as u8, 100, "a", "/dl/a"), NextAnswer::Finished));
    assert_eq!(c.finished_downloads, [("a".to_string(), "/dl/a".to_string())]);
    assert!(c.stop_reason().is_none());
    c.stop_active_download = true;
    assert!(matches!(
        c.next_answer(MSG_FILE_FINISHED as u8, 0, "a", "/dl/a"),
        NextAnswer::Stopped(StopReason::Stopped)
    ));
    c.should_reset_connection = true;
    assert!(matches!(c.stop_reason(), Some(StopReason::Reset)));
    c.is_deleted = true;
    assert!(matches!(c.stop_reason(), Some(StopReason::Deleted)));
    assert_eq!(c.active_download_percent, 100);
}

#[test]
fn trusted_downloads_keep_their_names() {
    let f = dir("x/d", vec![leaf("x/d/a\\b", 1)]);
    let names = find_last_names(&f);
    assert!(matches!(&names.name, DiskName::Name(n) if n == "d"));
    let names = find_last_names(&leaf("C:/Users/a.txt", 1));
    assert!(matches!(&names.name, DiskName::Name(n) if n == "a.txt"));
    let names = find_last_names(&f);
    let steps = download_shared_file(&f, &names, "/dl/al/", '/');
    assert!(matches!(
        &steps[0],
        DownloadStep::File { destination, .. } if destination == "/dl/al/d/a\\b"
    ));
}
