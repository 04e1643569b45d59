use transmitic_core::app_aggregator::AppAggMessage;
use transmitic_core::config::{
    checked_address, create_new_config, file_contains_only_valid_chars, invalid_config_error,
    missing_config_error, new_config_from, parts_are_names, unable_to_share, verify_config,
    verify_sanitized, Config, ConfigFile, ConfigSharedFile, RejectedAddress, SharedUser,
};
use transmitic_core::crypto::{
    generate_id_pair, get_base64_str_from_bytes, get_bytes_from_base64_str, id_pair_from,
    IdPairError,
};

fn user(nickname: &str, public_id: &str) -> SharedUser {
    SharedUser {
        nickname: nickname.to_string(),
        public_id: public_id.to_string(),
        ip: "192.168.0.7".to_string(),
        port: "7878".to_string(),
        allowed: true,
    }
}

fn share(path: &str, shared_with: &[&str]) -> ConfigSharedFile {
    ConfigSharedFile {
        path: path.to_string(),
        shared_with: shared_with.iter().map(|s| s.to_string()).collect(),
    }
}

fn private_id() -> String {
    get_base64_str_from_bytes(generate_id_pair().unwrap().0)
}

fn file(users: Vec<SharedUser>, files: Vec<ConfigSharedFile>) -> ConfigFile {
    ConfigFile {
        my_private_id: private_id(),
        shared_users: users,
        shared_files: files,
        sharing_port: "7878".to_string(),
    }
}

fn none() -> Vec<RejectedAddress> {
    Vec::new()
}

fn config(users: Vec<SharedUser>, files: Vec<ConfigSharedFile>) -> Config {
    Config::new(false, file(users, files), "/home/me/transmitic_config".to_string(), &none())
        .unwrap_or_else(|e| panic!("{}", e))
}

fn refusal(users: Vec<SharedUser>, files: Vec<ConfigSharedFile>) -> String {
    match Config::new(false, file(users, files), "\\config".to_string(), &none()) {
        Ok(_) => panic!("accepted"),
        Err(e) => e,
    }
}

fn names(users: &[SharedUser]) -> Vec<&str> {
    users.iter().map(|u| u.nickname.as_str()).collect()
}

#[test]
fn configuration_is_tidied() {
    let mut c = file(
        vec![user(" zoe ", " AAAA "), user("bob", "BBBB"), user("alice\t", "CCCC")],
        vec![share(" file:///home/me/music ", &["zoe", " alice", "bob "]), share("a/b", &[])],
    );
    c.sharing_port = " 99 ".to_string();
    let result = verify_config(&mut c, &none(), "/home/me/transmitic_config");
    assert_eq!(result, Ok(()));
    assert_eq!(c.sharing_port, "99");
    assert_eq!(names(&c.shared_users), [("zoe"), ("alice"), ("bob")]);
    assert_eq!(c.shared_users[0].public_id, "AAAA");
    assert_eq!(c.shared_files[0].path, "\\home\\me\\music");
    assert_eq!(c.shared_files[0].shared_with, ["alice", "bob", "zoe"]);
    assert_eq!(c.shared_files[1].path, "a\\b");
}

#[test]
fn users_are_sorted_before_they_are_trimmed() {
    let c = config(vec![user("b", "AAAA"), user(" c", "BBBB"), user("a", "CCCC")], vec![]);
    assert_eq!(names(&c.get_shared_users()), ["c", "a", "b"]);
}

#[test]
fn port_must_be_a_number() {
    for port in ["", "x", "12a", "2147483648", "1.5"] {
        let mut c = file(vec![], vec![]);
        c.sharing_port = port.to_string();
        assert_eq!(
            verify_config(&mut c, &none(), "dir"),
            Err("Port must be a number.".to_string())
        );
    }
    for port in ["0", "-1", "+5", "2147483647", "-2147483648", "007"] {
        let mut c = file(vec![], vec![]);
        c.sharing_port = port.to_string();
        assert_eq!(verify_config(&mut c, &none(), "dir"), Ok(()));
    }
}

#[test]
fn private_id_must_be_a_key() {
    let mut c = file(vec![], vec![]);
    c.my_private_id = "not base64!".to_string();
    let e = verify_config(&mut c, &none(), "dir").unwrap_err();
    assert!(e.starts_with("Invalid Private ID. Not b64. "), "{}", e);
    assert_ne!(e, "Invalid Private ID. Not b64. not base64!");

    let mut c = file(vec![], vec![]);
    c.my_private_id = "AAAA".to_string();
    let e = verify_config(&mut c, &none(), "dir").unwrap_err();
    assert!(e.starts_with("Failed to load local key pair '"), "{}", e);
}

#[test]
fn nicknames_and_ids_are_there_once() {
    assert_eq!(
        refusal(vec![user("Bob", "AAAA"), user("bOB", "BBBB"), user("al", "CCCC")], vec![]),
        "Nicknames cannot be repeated. 'Bob' was found '2' times."
    );
    assert_eq!(
        refusal(vec![user("a", "AAAA"), user("b", "AAAA"), user("c", "AAAA")], vec![]),
        "Public IDs cannot be repeated. 'AAAA' was found '3' times."
    );
    assert_eq!(
        refusal(vec![user("\u{c4}rger", "AAAA"), user("\u{e4}RGER", "BBBB")], vec![]),
        "Nicknames cannot be repeated. '\u{c4}rger' was found '2' times."
    );
}

#[test]
fn users_are_checked() {
    assert_eq!(refusal(vec![user(" ", "AAAA")], vec![]), "Nickname cannot be empty.");
    assert_eq!(
        refusal(vec![user("a:b", "AAAA")], vec![]),
        "Nickname 'a:b' contains the character ':' which is not allowed. These characters are not allowed:   /*?\"<>|\\:'."
    );
    let mut u = user("bob", "AAAA");
    u.port = String::new();
    assert_eq!(refusal(vec![u], vec![]), "Port for 'bob' cannot be empty");
    let mut u = user("bob", "AAAA");
    u.port = "x".to_string();
    assert_eq!(
        refusal(vec![u], vec![]),
        "bob's port is invalid. Port must be a number."
    );
    assert_eq!(refusal(vec![user("bob", "")], vec![]), "PublicID for 'bob' cannot be empty");
    let e = refusal(vec![user("bob", "@@@@")], vec![]);
    assert!(e.starts_with("bob's PublicID is invalid. Bad encoding. "), "{}", e);
    let mut u = user("bob", "AAAA");
    u.ip = String::new();
    assert_eq!(refusal(vec![u], vec![]), "IP Address for 'bob' cannot be empty");
}

#[test]
fn address_is_trimmed_before_it_is_read() {
    assert_eq!(checked_address(" 10.0.0.1 ", "\t7878\n"), "10.0.0.1:7878");
    assert_eq!(checked_address("::1", "1"), "::1:1");
}

#[test]
fn errors_name_the_path() {
    assert_eq!(missing_config_error("c"), "config.json does not exist at 'c'");
    assert_eq!(invalid_config_error("c", "eof"), "config.json is invalid 'c' -- eof");
    assert!(matches!(
        unable_to_share("p", "gone"),
        AppAggMessage::LogError(t)
            if t == "Path unable to share. Fix issue or stop sharing file. 'p'. gone"
    ));
}

#[test]
fn rejected_address_is_reported() {
    let mut u = user("bob", "AAAA");
    u.ip = "nowhere".to_string();
    let rejected = vec![RejectedAddress {
        address: "nowhere:7878".to_string(),
        error: "invalid socket address syntax".to_string(),
    }];
    let mut c = file(vec![u], vec![]);
    assert_eq!(
        verify_config(&mut c, &rejected, "dir").unwrap_err(),
        "Full address of 'bob', 'nowhere:7878' is not valid. Check IP and port. invalid socket address syntax"
    );
}

#[test]
fn shared_files_are_checked() {
    assert_eq!(
        refusal(vec![], vec![share("a", &[]), share("a ", &[])]),
        "File 'a' has been shared '2' times. It can only be shared once."
    );
    assert_eq!(
        refusal(vec![user("bob", "AAAA")], vec![share("a", &["bob", "eve"])]),
        "Cannot share file 'a' with user 'eve' as that user does not exist as a shared_user."
    );
    assert_eq!(
        refusal(vec![], vec![share("/config/x", &[])]),
        "The Transmitic Config directory, and it's sub files, cannot be shared. '\\config'"
    );
    assert_eq!(
        refusal(vec![], vec![share("a*", &[])]),
        "Cannot share file 'a*' because it contains the character '*' which is not allowed. These characters are not allowed:   /*?\"<>|'."
    );
    assert_eq!(
        refusal(vec![], vec![share("..", &[])]),
        "Cannot share file with relative directories or invalid characters. .."
    );
}

#[test]
fn judged_paths_decide() {
    let mut c = file(vec![user("bob", "AAAA")], vec![share("a", &["bob"]), share("b", &[])]);
    assert_eq!(verify_config(&mut c, &none(), "dir"), Ok(()));
    assert_eq!(verify_sanitized(&c, &none(), "dir", &vec![true, true]), Ok(()));
    assert_eq!(
        verify_sanitized(&c, &none(), "dir", &vec![true, false]),
        Err("Cannot share file with relative directories or invalid characters. b".to_string())
    );
}

#[test]
fn names_of_dots_are_no_names() {
    let parts = |v: &[&str]| v.iter().map(|s| s.to_string()).collect::<Vec<String>>();
    assert!(parts_are_names(&parts(&["C:", "a.b", ".hidden"])));
    assert!(!parts_are_names(&parts(&["a", ".."])));
    assert!(!parts_are_names(&parts(&["....", "a"])));
    assert!(!parts_are_names(&parts(&[""])));
    assert!(parts_are_names(&parts(&[])));
}

#[test]
fn path_characters() {
    assert!(file_contains_only_valid_chars("C:\\a\\b.txt"));
    assert!(file_contains_only_valid_chars(""));
    for c in ['/', '*', '?', '"', '<', '>', '|'] {
        assert!(!file_contains_only_valid_chars(&format!("a{}b", c)));
    }
    assert!(!file_contains_only_valid_chars(".."));
    assert!(!file_contains_only_valid_chars("."));
    assert!(file_contains_only_valid_chars("\\\\server\\share\\a.txt"));
    assert!(!file_contains_only_valid_chars("\\\\?\\C:\\a.txt"));
    assert!(file_contains_only_valid_chars("C:a.txt"));
    assert!(file_contains_only_valid_chars("1:a\\b.txt"));
}

#[test]
fn files_are_added_once() {
    let mut c = config(vec![], vec![share("a", &[])]);
    assert_eq!(c.add_files(vec!["a".to_string(), "b".to_string()]), Ok(()));
    let paths: Vec<String> = c.get_shared_files().into_iter().map(|f| f.path).collect();
    assert_eq!(paths, ["a", "b"]);
    assert_eq!(
        c.add_files(vec!["c".to_string(), "c".to_string()]),
        Err("File 'c' has been shared '2' times. It can only be shared once.".to_string())
    );
    assert_eq!(c.get_shared_files().len(), 2);
}

#[test]
fn user_is_added_and_refused() {
    let mut c = config(vec![user("bob", "AAAA")], vec![]);
    let text = |s: &str| s.to_string();
    assert_eq!(
        c.add_new_user(text("al"), text("BBBB"), text("127.0.0.1"), text("1"), &none()),
        Ok(())
    );
    assert_eq!(names(&c.get_shared_users()), ["al", "bob"]);
    assert!(c.get_shared_users()[0].allowed);
    assert_eq!(
        c.add_new_user(text("BOB"), text("CCCC"), text("127.0.0.1"), text("1"), &none()),
        Err("Nicknames cannot be repeated. 'BOB' was found '2' times.".to_string())
    );
    assert_eq!(c.get_shared_users().len(), 2);
}

#[test]
fn file_is_shared_with_one_more() {
    let mut c = config(vec![user("al", "AAAA"), user("bob", "BBBB")], vec![share("a", &["bob"])]);
    let text = |s: &str| s.to_string();
    assert_eq!(c.add_user_to_shared(text("al"), text("a")), Ok(()));
    assert_eq!(c.get_shared_files()[0].shared_with, ["al", "bob"]);
    assert_eq!(c.add_user_to_shared(text("al"), text("a")), Ok(()));
    assert_eq!(c.get_shared_files()[0].shared_with, ["al", "bob"]);
    assert_eq!(
        c.add_user_to_shared(text("eve"), text("a")),
        Err("Could not share file 'a'. User 'eve' does not exist.".to_string())
    );
    assert_eq!(
        c.add_user_to_shared(text("al"), text("b")),
        Err("Could not find file 'b' to share with user 'al'.".to_string())
    );
}

#[test]
fn removed_user_is_gone_everywhere() {
    let mut c = config(
        vec![user("al", "AAAA"), user("bob", "BBBB")],
        vec![share("a", &["al", "bob"]), share("b", &["al"])],
    );
    assert_eq!(c.get_paths_shared_with("al"), ["a", "b"]);
    assert_eq!(c.get_paths_shared_with("bob"), ["a"]);
    assert_eq!(c.remove_user("al".to_string()), Ok(()));
    assert_eq!(names(&c.get_shared_users()), ["bob"]);
    assert_eq!(c.get_shared_files()[0].shared_with, ["bob"]);
    assert!(c.get_shared_files()[1].shared_with.is_empty());
    assert!(c.get_paths_shared_with("al").is_empty());
}

#[test]
fn sharing_stops() {
    let mut c = config(
        vec![user("al", "AAAA"), user("bob", "BBBB")],
        vec![share("a", &["al", "bob"]), share("b", &["al"])],
    );
    assert_eq!(c.remove_user_from_sharing("al".to_string(), "a".to_string()), Ok(()));
    assert_eq!(c.get_paths_shared_with("al"), ["b"]);
    assert_eq!(c.remove_file_from_sharing("b".to_string()), Ok(()));
    assert_eq!(c.get_shared_files().len(), 1);
}

#[test]
fn port_is_set() {
    let mut c = config(vec![], vec![]);
    assert_eq!(c.set_port(" 5 ".to_string()), Ok(()));
    assert_eq!(c.get_sharing_port(), "5");
    assert_eq!(c.set_port("x".to_string()), Err("Port must be a number.".to_string()));
    assert_eq!(c.get_sharing_port(), "5");
}

#[test]
fn user_is_allowed_and_changed() {
    let mut c = config(vec![user("al", "AAAA")], vec![]);
    let text = |s: &str| s.to_string();
    assert_eq!(c.set_user_is_allowed_state(text("al"), false), Ok(()));
    assert!(!c.get_shared_users()[0].allowed);
    assert_eq!(
        c.set_user_is_allowed_state(text("eve"), true),
        Err("Could not find user 'eve' to set Allowed state 'true'.".to_string())
    );
    assert_eq!(
        c.update_user(text("al"), text("BBBB"), text("10.0.0.1"), text("9"), &none()),
        Ok(())
    );
    let u = &c.get_shared_users()[0];
    assert_eq!((u.public_id.as_str(), u.ip.as_str(), u.port.as_str()), ("BBBB", "10.0.0.1", "9"));
    assert!(!u.allowed);
    assert_eq!(
        c.update_user(text("eve"), text("BBBB"), text("10.0.0.1"), text("9"), &none()),
        Err("Failed to find user 'eve'. Could not update user.".to_string())
    );
}

#[test]
fn ids_belong_together() {
    let mut c = config(vec![], vec![]);
    let pair = c.get_local_key_pair();
    assert_eq!(pair.private_id, c.get_local_private_id_bytes());
    assert_eq!(pair.public_id.len(), 32);
    assert_eq!(get_bytes_from_base64_str(&c.get_public_id_string()), Ok(pair.public_id.clone()));
    assert_eq!(
        get_bytes_from_base64_str(&c.get_config_file().my_private_id),
        Ok(pair.private_id.clone())
    );

    assert_eq!(c.create_new_id(), Ok(()));
    assert_ne!(c.get_local_key_pair().private_id, pair.private_id);
    assert_ne!(c.get_public_id_string(), get_base64_str_from_bytes(pair.public_id.clone()));

    assert_eq!(c.set_private_id(pair.private_id), Ok(()));
    assert_eq!(c.get_local_key_pair().public_id, pair.public_id);
    assert!(c.set_private_id(vec![1, 2, 3]).unwrap_err().starts_with("Failed to load local key pair '"));
    assert_eq!(c.get_local_key_pair().public_id, pair.public_id);
}

#[test]
fn new_configuration_is_accepted() {
    let first = create_new_config().unwrap();
    assert_eq!(first.sharing_port, "7878");
    assert!(first.shared_users.is_empty() && first.shared_files.is_empty());
    let c = Config::new(true, first, "dir".to_string(), &none()).unwrap_or_else(|e| panic!("{}", e));
    assert!(c.is_first_start());
    assert_eq!(c.get_path_dir_config(), "dir");

    let (private_id, public_id) = generate_id_pair().unwrap();
    let f = new_config_from(Ok((private_id.clone(), public_id))).unwrap();
    assert_eq!(f.my_private_id, get_base64_str_from_bytes(private_id));
    assert_eq!(
        new_config_from(Err(IdPairError::Generate("no entropy".to_string()))).unwrap_err(),
        "Failed to generate pkcs8 bytes. no entropy"
    );
}

#[test]
fn id_pairs_come_from_what_was_generated() {
    let (private_id, public_id) = generate_id_pair().unwrap();
    assert_eq!(public_id.len(), 32);
    assert_eq!(id_pair_from(Ok(private_id.clone())).unwrap(), (private_id, public_id));
    assert_eq!(
        id_pair_from(Err("broken".to_string())).unwrap_err().message(),
        "Failed to generate pkcs8 bytes. broken"
    );
    let e = id_pair_from(Ok(vec![0; 10])).unwrap_err().message();
    assert!(e.starts_with("Key Pair rejected. "), "{}", e);
}

#[test]
fn standard_base64() {
    assert_eq!(get_base64_str_from_bytes(b"rust".to_vec()), "cnVzdA==");
    assert_eq!(get_bytes_from_base64_str("cnVzdA=="), Ok(b"rust".to_vec()));
    assert!(get_bytes_from_base64_str("cnVzdA").is_err());
    assert!(get_bytes_from_base64_str("cnVzdB==").is_err());
    assert!(get_bytes_from_base64_str("cn\nVz").is_err());
}
