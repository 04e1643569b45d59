use transmitic_core::bytes::{from_be_bytes, to_be_bytes};
use transmitic_core::core_consts::{PAYLOAD_OFFSET, TOTAL_BUFFER_SIZE};
use transmitic_core::name_map::NameMap;
use transmitic_core::order::sort_texts;
use transmitic_core::shared_file::{
    get_everything_file, is_config_path, print_shared_files, process_shared_file,
    remove_invalid_files, reset_file_size_string, DiskEntry, SharedFile,
};
use transmitic_core::text::{
    collapse_backslashes, contains_text, decimal_string, hex_byte_string, is_before, parse_u64,
    parses_as_i32, replace_char, split_first, split_lines, starts_with, trim,
};
use transmitic_core::transmitic_core::SingleUploadState;
use transmitic_core::utils::{
    bracketed_address, get_file_by_path, get_payload_size_from_buffer, host_address,
    resolve_address, set_buffer, unresolved_error, AddressReading,
};

fn leaf(path: &str, size: u64) -> SharedFile {
    SharedFile::new(path.to_string(), false, vec![], size)
}

fn dir(path: &str, files: Vec<SharedFile>) -> SharedFile {
    let size = files.iter().map(|f| f.file_size).sum();
    SharedFile::new(path.to_string(), true, files, size)
}

fn on_disk(path: &str, size: u64) -> DiskEntry {
    DiskEntry { path: path.to_string(), is_directory: false, entries: vec![], size }
}

fn dir_on_disk(path: &str, entries: Vec<DiskEntry>) -> DiskEntry {
    DiskEntry { path: path.to_string(), is_directory: true, entries, size: 0 }
}

fn by_division(bytes: u64) -> String {
    let bytes = if bytes == 0 { 1 } else { bytes };
    let (divisor, unit) = if bytes >= 1_073_741_824 {
        (1_073_741_824u64, "GB")
    } else if bytes >= 1_048_576 {
        (1_048_576, "MB")
    } else if bytes >= 1024 {
        (1024, "KB")
    } else {
        (1, "bytes")
    };
    let size = bytes as f64 / divisor as f64;
    if unit == "bytes" {
        format!("{} {}", size, unit)
    } else {
        format!("{:.2} {}", size, unit)
    }
}

#[test]
fn sizes_are_shown_in_fitting_units() {
    let shown = |n| leaf("x", n).size_string;
    assert_eq!(shown(0), "1 bytes");
    assert_eq!(shown(1), "1 bytes");
    assert_eq!(shown(1023), "1023 bytes");
    assert_eq!(shown(1024), "1.00 KB");
    assert_eq!(shown(1536), "1.50 KB");
    assert_eq!(shown(1_048_575), "1024.00 KB");
    assert_eq!(shown(1_048_576), "1.00 MB");
    assert_eq!(shown(5_000_000_000), "4.66 GB");
    assert_eq!(shown(u64::MAX), "17179869184.00 GB");
}

#[test]
fn sizes_are_rounded_like_quotients() {
    let mut n: u64 = 0;
    let mut step: u64 = 1;
    for _ in 0..20_000 {
        assert_eq!(leaf("x", n).size_string, by_division(n));
        step = step.wrapping_mul(6364136223846793005).wrapping_add(1442695040888963407);
        n = step >> (step % 60);
    }
    for k in 0..4000u64 {
        for base in [1024u64, 1_048_576, 1_073_741_824] {
            let half = base + base * k / 200;
            for n in [half.saturating_sub(1), half, half + 1] {
                assert_eq!(leaf("x", n).size_string, by_division(n));
            }
        }
    }
    for n in [u64::MAX, u64::MAX - 1, 1 << 53, (1 << 53) + 1, (1 << 62) + 12345] {
        assert_eq!(leaf("x", n).size_string, by_division(n));
    }
}

#[test]
fn size_strings_are_reset() {
    let mut f = dir("d", vec![leaf("d\\a", 2048), dir("d\\e", vec![leaf("d\\e\\b", 1)])]);
    f.size_string = "1 PB".to_string();
    f.files[0].size_string = "nothing".to_string();
    f.files[1].files[0].size_string = "much".to_string();
    reset_file_size_string(&mut f);
    assert_eq!(f.size_string, "2.00 KB");
    assert_eq!(f.files[0].size_string, "2.00 KB");
    assert_eq!(f.files[1].files[0].size_string, "1 bytes");
}

#[test]
fn invalid_files_are_removed() {
    let mut f = dir(
        "..",
        vec![
            leaf("a", 1),
            leaf("a/b", 2),
            dir("..", vec![leaf("c", 3)]),
            dir("d", vec![leaf("e?", 4), leaf("f", 5)]),
        ],
    );
    remove_invalid_files(&mut f);
    let paths: Vec<&str> = f.files.iter().map(|f| f.path.as_str()).collect();
    assert_eq!(paths, ["a", "d"]);
    assert_eq!(f.files[1].files.len(), 1);
    assert_eq!(f.files[1].files[0].path, "f");

    let mut single = leaf("..", 1);
    single.files.push(leaf("?", 1));
    remove_invalid_files(&mut single);
    assert_eq!(single.files.len(), 1);
}

#[test]
fn files_are_listed_with_indentation() {
    let f = dir("d", vec![leaf("a", 1024), dir("e", vec![leaf("b", 1)])]);
    assert_eq!(
        print_shared_files(&f, "-"),
        "-d | (1.00 KB) (dir)\n-    a | (1.00 KB) (file)\n-    e | (1 bytes) (dir)\n-        b | (1 bytes) (file)\n"
    );
}

#[test]
fn directories_hold_the_sizes_of_their_files() {
    let entry = dir_on_disk(
        "/music",
        vec![
            on_disk("/music/a", 1000),
            dir_on_disk("/music/b", vec![on_disk("/music/b/c", 24)]),
            dir_on_disk("/music/config", vec![on_disk("/music/config/id", 5)]),
        ],
    );
    let f = process_shared_file(&entry, "/music/config").unwrap();
    assert_eq!(f.file_size, 1024);
    assert_eq!(f.size_string, "1.00 KB");
    assert_eq!(f.files.len(), 2);
    assert_eq!(f.files[1].file_size, 24);
    let all = process_shared_file(&entry, "elsewhere").unwrap();
    assert_eq!(all.file_size, 1029);
    assert_eq!(all.files.len(), 3);
}

#[test]
fn everything_is_in_one_directory() {
    let roots = vec![on_disk("a", 3), dir_on_disk("b", vec![on_disk("b/c", 4)])];
    let f = get_everything_file(&roots, "config").unwrap();
    assert_eq!(f.path, "everything/");
    assert!(f.is_directory);
    assert_eq!(f.file_size, 7);
    assert_eq!(f.size_string, "7 bytes");
    let paths: Vec<&str> = f.files.iter().map(|f| f.path.as_str()).collect();
    assert_eq!(paths, ["a", "b"]);
    assert!(get_everything_file(&vec![on_disk("a", u64::MAX), on_disk("b", 1)], "c").is_none());
    let shared = get_everything_file(&vec![on_disk("config/a", 1)], "config").unwrap();
    assert_eq!(shared.files.len(), 1);
}

#[test]
fn files_are_found_by_path() {
    let f = dir("d", vec![leaf("a", 1), dir("e", vec![leaf("b", 2)]), leaf("b", 3)]);
    assert_eq!(get_file_by_path("b", &f).unwrap().file_size, 2);
    assert_eq!(get_file_by_path("d", &f).unwrap().files.len(), 3);
    assert!(get_file_by_path("c", &f).is_none());
}

#[test]
fn messages_in_the_buffer() {
    let mut buffer = vec![7u8; TOTAL_BUFFER_SIZE];
    set_buffer(&mut buffer, 9, b"abc");
    assert_eq!(buffer[..PAYLOAD_OFFSET], [9, 7, 0, 0, 0, 3]);
    assert_eq!(get_payload_size_from_buffer(&buffer), 3);
    assert_eq!(buffer[PAYLOAD_OFFSET..PAYLOAD_OFFSET + 4], [b'a', b'b', b'c', 7]);
    set_buffer(&mut buffer, 9, &vec![1; TOTAL_BUFFER_SIZE - PAYLOAD_OFFSET]);
    assert_eq!(get_payload_size_from_buffer(&buffer), TOTAL_BUFFER_SIZE - PAYLOAD_OFFSET);
}

#[test]
fn addresses() {
    assert_eq!(host_address("::1", "80"), "::1:80");
    assert_eq!(bracketed_address("::1", "80"), "[::1]:80");
    assert_eq!(resolve_address(true, true), AddressReading::AsItIs);
    assert_eq!(resolve_address(false, true), AddressReading::InBrackets);
    assert_eq!(resolve_address(false, false), AddressReading::Name);
    assert_eq!(unresolved_error("bob", "why"), "Failed to resolve host for 'bob'. why");
}

#[test]
fn numbers_as_bytes() {
    assert_eq!(to_be_bytes(0x0102_0304, 4), [1, 2, 3, 4]);
    assert_eq!(to_be_bytes(0x0102_0304, 2), [3, 4]);
    assert_eq!(to_be_bytes(5, 12), [0, 0, 0, 0, 0, 0, 0, 0, 0, 0, 0, 5]);
    assert_eq!(from_be_bytes(&[1, 2, 3, 4]), 0x0102_0304);
    assert_eq!(from_be_bytes(&[255; 8]), u64::MAX);
    for n in [0u64, 1, 255, 256, 65_536, u64::MAX] {
        assert_eq!(to_be_bytes(n as u128, 8), n.to_be_bytes());
        assert_eq!(from_be_bytes(&n.to_be_bytes()), n);
    }
}

#[test]
fn texts_are_handled_like_strings() {
    for s in ["", " ", "a", " a b\t\n", "\u{2003}x\u{3000}", "\u{feff}x", "\u{85}\u{a0}y\u{1c}", "\u{b}z\u{c}"] {
        assert_eq!(trim(s), s.trim());
    }
    for (s, p) in [("", ""), ("abc", "ab"), ("ab", "abc"), ("xab", "ab"), ("\u{e9}a", "\u{e9}")] {
        assert_eq!(starts_with(s, p), s.starts_with(p));
        assert_eq!(contains_text(s, p), s.contains(p));
    }
    for s in ["a\\\\b", "\\\\\\", "\\\\\\\\", "", "\\"] {
        assert_eq!(collapse_backslashes(s), s.replace("\\\\", "\\"));
    }
    assert_eq!(replace_char("a/b/", '/', '\\'), "a\\b\\");
    for n in [0, 9, 10, 12345, u64::MAX] {
        assert_eq!(decimal_string(n), n.to_string());
    }
    assert_eq!(hex_byte_string(0x0f), format!("{:#x}", 0x0f));
    assert_eq!(hex_byte_string(0xa0), format!("{:#x}", 0xa0));
    assert_eq!(hex_byte_string(0), format!("{:#x}", 0));
}

#[test]
fn numbers_are_parsed_like_strings() {
    for s in ["", "+", "-", "0", "-0", "+7", "--1", "2147483647", "2147483648", "-2147483648", "-2147483649", " 1", "1_0", "99999999999999999999", "\u{661}"] {
        assert_eq!(parses_as_i32(s), s.parse::<i32>().is_ok(), "{}", s);
    }
    for s in ["", "+", "-", "0", "-0", "-1", "+7", "18446744073709551615", "18446744073709551616", "007", "1 "] {
        assert_eq!(parse_u64(s), s.parse::<u64>().ok(), "{}", s);
    }
}

#[test]
fn texts_are_ordered_and_split_like_strings() {
    let words = ["b", "", "a", "ab", "B", "\u{e9}", "\u{10000}", "\u{ffff}", "a"];
    for a in words {
        for b in words {
            assert_eq!(is_before(a, b), a < b);
        }
    }
    let mut sorted: Vec<String> = words.iter().map(|s| s.to_string()).collect();
    let ours = sort_texts(&sorted);
    sorted.sort();
    assert_eq!(ours, sorted);
    for s in ["", "\n", "a", "a\nb", "a\n\nb\n"] {
        let pieces: Vec<&str> = s.split('\n').collect();
        assert_eq!(split_lines(s), pieces);
    }
    assert_eq!(split_first("a:b:c", ':'), Some(("a".to_string(), "b:c".to_string())));
    assert_eq!(split_first("abc", ':'), None);
}

#[test]
fn names_lead_to_the_last_value() {
    let state = |path: &str| SingleUploadState {
        nickname: "n".to_string(),
        path: path.to_string(),
        percent: 0,
        is_online: true,
    };
    let mut m: NameMap<SingleUploadState> = NameMap::new();
    m.insert("a".to_string(), state("1"));
    m.insert("b".to_string(), state("2"));
    m.insert("a".to_string(), state("3"));
    assert_eq!(m.get("a").unwrap().path, "3");
    assert_eq!(m.get("b").unwrap().path, "2");
    assert!(m.get("c").is_none());
    let mut keys = m.keys();
    keys.sort();
    assert_eq!(keys, ["a", "b"]);
    assert_eq!(m.remove("a").unwrap().path, "3");
    assert!(m.remove("a").is_none());
    assert!(!m.contains_key("a") && m.contains_key("b"));
}

#[test]
fn configuration_is_left_out() {
    assert!(is_config_path("/home/me/transmitic/config.json", "/home/me/transmitic"));
    assert!(is_config_path("/mnt/home/me/transmitic", "/home/me/transmitic"));
    assert!(!is_config_path("/home/me/files", "/home/me/transmitic"));
}
