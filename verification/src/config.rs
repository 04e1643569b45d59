//! The configuration: who the users are and what is shared with them.
use vstd::prelude::*;
use vstd::slice::slice_to_vec;
use crate::app_aggregator::{AppAggMessage, ReportView};
use crate::base64::{encoded, law_encoded_injective, lemma_encoded_chars};
use crate::crypto::{base64_refusal, ed25519_public_key, generate_id_pair, get_base64_str_from_bytes, get_bytes_from_base64_str, is_base64, ring_public_key, IdPairError};
use crate::logger::LogLevel;
use crate::order::{law_sorted_by, lemma_inserted_at, lemma_sorted_by_contains, sort_texts, sorted_by, text_key};
use crate::text::{before, cat2, cat3, cat5, cat7, chars_of, contains_char, decimal, decimal_string, digits_value, has_part, has_prefix, is_before, is_digits, is_empty_text, is_i32, law_parts_are_found, law_trimmed_twice, lemma_place_of, lowercase, parses_as_i32, place_of, replace_char, replaced, skip_chars, starts_with, str_eq, to_lowercase, trim, trimmed};

pub use crate::shared_file::{get_everything_file, process_shared_file};

verus! {

/// A file or directory and whom it is shared with.
#[derive(Debug)]
pub struct ConfigSharedFile {
    pub path: String,
    pub shared_with: Vec<String>,
}

/// What a `ConfigSharedFile` says.
pub struct ShareView {
    pub path: Seq<char>,
    pub shared_with: Seq<Seq<char>>,
}

impl View for ConfigSharedFile {
    type V = ShareView;

    open spec fn view(&self) -> ShareView {
        ShareView { path: self.path@, shared_with: self.shared_with.deep_view() }
    }
}

impl DeepView for ConfigSharedFile {
    type V = ShareView;

    open spec fn deep_view(&self) -> ShareView {
        self@
    }
}

/// A copy of a list of texts.
pub fn clone_texts(v: &Vec<String>) -> (r: Vec<String>)
    ensures
        r@ == v@,
        r.deep_view() == v.deep_view(),
{
    let r = v.clone();
    assert(r@ =~= v@);
    r
}

impl Clone for ConfigSharedFile {
    fn clone(&self) -> (r: Self)
        ensures
            r@ == self@,
    {
        ConfigSharedFile { path: self.path.clone(), shared_with: clone_texts(&self.shared_with) }
    }
}

/// A user that files are exchanged with.
#[derive(Debug)]
pub struct SharedUser {
    pub nickname: String,
    pub public_id: String,
    pub ip: String,
    pub port: String,
    pub allowed: bool,
}

/// What a `SharedUser` says.
pub struct UserView {
    pub nickname: Seq<char>,
    pub public_id: Seq<char>,
    pub ip: Seq<char>,
    pub port: Seq<char>,
    pub allowed: bool,
}

impl View for SharedUser {
    type V = UserView;

    open spec fn view(&self) -> UserView {
        UserView {
            nickname: self.nickname@,
            public_id: self.public_id@,
            ip: self.ip@,
            port: self.port@,
            allowed: self.allowed,
        }
    }
}

impl DeepView for SharedUser {
    type V = UserView;

    open spec fn deep_view(&self) -> UserView {
        self@
    }
}

impl Clone for SharedUser {
    fn clone(&self) -> (r: Self)
        ensures
            r == *self,
    {
        SharedUser {
            nickname: self.nickname.clone(),
            public_id: self.public_id.clone(),
            ip: self.ip.clone(),
            port: self.port.clone(),
            allowed: self.allowed,
        }
    }
}

/// A copy of a list of users.
pub fn clone_users(v: &Vec<SharedUser>) -> (r: Vec<SharedUser>)
    ensures
        r@ == v@,
        r.deep_view() == v.deep_view(),
{
    let r = v.clone();
    assert(r@ =~= v@);
    r
}

/// A copy of a list of shared files.
pub fn clone_shares(v: &Vec<ConfigSharedFile>) -> (r: Vec<ConfigSharedFile>)
    ensures
        r.deep_view() == v.deep_view(),
{
    let mut r: Vec<ConfigSharedFile> = Vec::new();
    let mut i: usize = 0;
    while i < v.len()
        invariant
            i <= v@.len(),
            r@.len() == i,
            forall|k: int| 0 <= k < i ==> (#[trigger] r@[k])@ == v@[k]@,
        decreases v@.len() - i,
    {
        r.push(v[i].clone());
        i += 1;
    }
    assert(r.deep_view() =~= v.deep_view());
    r
}

/// The configuration as it is kept on disk.
#[derive(Debug)]
pub struct ConfigFile {
    pub my_private_id: String,
    pub shared_users: Vec<SharedUser>,
    pub shared_files: Vec<ConfigSharedFile>,
    pub sharing_port: String,
}

/// What a `ConfigFile` says.
#[verifier::ext_equal]
pub struct ConfigView {
    pub my_private_id: Seq<char>,
    pub shared_users: Seq<UserView>,
    pub shared_files: Seq<ShareView>,
    pub sharing_port: Seq<char>,
}

impl View for ConfigFile {
    type V = ConfigView;

    open spec fn view(&self) -> ConfigView {
        ConfigView {
            my_private_id: self.my_private_id@,
            shared_users: self.shared_users.deep_view(),
            shared_files: self.shared_files.deep_view(),
            sharing_port: self.sharing_port@,
        }
    }
}

impl Clone for ConfigFile {
    fn clone(&self) -> (r: Self)
        ensures
            r@ == self@,
    {
        ConfigFile {
            my_private_id: self.my_private_id.clone(),
            shared_users: clone_users(&self.shared_users),
            shared_files: clone_shares(&self.shared_files),
            sharing_port: self.sharing_port.clone(),
        }
    }
}

/// What stands before the path of a file that was dropped in.
pub open spec fn file_prefix() -> Seq<char> {
    "file://"@
}

/// A path without `file://` in front and with backslashes for slashes.
pub open spec fn native_path(path: Seq<char>) -> Seq<char> {
    if has_prefix(path, file_prefix()) {
        replaced(path.skip(7), '/', '\\')
    } else {
        replaced(path, '/', '\\')
    }
}

pub fn to_native_path(path: &str) -> (r: String)
    ensures
        r@ == native_path(path@),
{
    proof {
        reveal_strlit("file://");
    }
    if starts_with(path, "file://") {
        replace_char(skip_chars(path, 7).as_str(), '/', '\\')
    } else {
        replace_char(path, '/', '\\')
    }
}

pub open spec fn nickname_key() -> spec_fn(UserView) -> Seq<char> {
    |u: UserView| u.nickname
}

pub open spec fn tidy_user(u: UserView) -> UserView {
    UserView {
        nickname: trimmed(u.nickname),
        public_id: trimmed(u.public_id),
        ip: trimmed(u.ip),
        port: trimmed(u.port),
        allowed: u.allowed,
    }
}

/// Users in the order of their nicknames, without white space around their texts.
pub open spec fn tidy_users(users: Seq<UserView>) -> Seq<UserView> {
    let sorted = sorted_by(users, nickname_key());
    Seq::new(sorted.len(), |i: int| tidy_user(sorted[i]))
}

pub open spec fn tidy_texts(texts: Seq<Seq<char>>) -> Seq<Seq<char>> {
    Seq::new(texts.len(), |i: int| trimmed(texts[i]))
}

pub open spec fn tidy_share(f: ShareView) -> ShareView {
    ShareView {
        path: native_path(trimmed(f.path)),
        shared_with: sorted_by(tidy_texts(f.shared_with), text_key()),
    }
}

pub open spec fn tidy_shares(files: Seq<ShareView>) -> Seq<ShareView> {
    Seq::new(files.len(), |i: int| tidy_share(files[i]))
}

/// A configuration without white space around its texts, with users and nicknames in order and
/// paths as the system writes them.
pub open spec fn sanitized(c: ConfigView) -> ConfigView {
    ConfigView {
        my_private_id: trimmed(c.my_private_id),
        shared_users: tidy_users(c.shared_users),
        shared_files: tidy_shares(c.shared_files),
        sharing_port: trimmed(c.sharing_port),
    }
}

fn sort_users(v: &Vec<SharedUser>) -> (r: Vec<SharedUser>)
    ensures
        r.deep_view() == sorted_by(v.deep_view(), nickname_key()),
{
    let mut r: Vec<SharedUser> = Vec::new();
    let mut i: usize = 0;
    assert(r.deep_view() =~= sorted_by(v.deep_view().take(0), nickname_key()));
    while i < v.len()
        invariant
            i <= v@.len(),
            r.deep_view() == sorted_by(v.deep_view().take(i as int), nickname_key()),
        decreases v@.len() - i,
    {
        let mut at: usize = r.len();
        while at > 0 && is_before(v[i].nickname.as_str(), r[at - 1].nickname.as_str())
            invariant
                i < v@.len(),
                at <= r@.len(),
                forall|j: int|
                    at <= j < r@.len() ==> before(v@[i as int].nickname@, (#[trigger] r@[j]).nickname@),
            decreases at,
        {
            at -= 1;
        }
        proof {
            let s = r.deep_view();
            let x = v@[i as int]@;
            assert forall|j: int| at <= j < s.len() implies before(
                x.nickname,
                (#[trigger] s[j]).nickname,
            ) by {
                assert(s[j] == r@[j]@);
            }
            assert(at > 0 ==> s[at - 1] == r@[at - 1]@);
            lemma_inserted_at(s, x, nickname_key(), at as int);
            let t = v.deep_view().take(i + 1);
            assert(t.drop_last() =~= v.deep_view().take(i as int));
            assert(t.last() == x);
        }
        let ghost s = r@;
        r.insert(at, v[i].clone());
        assert(r.deep_view() =~= Seq::new(s.len(), |j: int| s[j]@).insert(
            at as int,
            v@[i as int]@,
        ));
        i += 1;
    }
    assert(v.deep_view().take(i as int) =~= v.deep_view());
    r
}

fn tidy_user_list(v: &Vec<SharedUser>) -> (r: Vec<SharedUser>)
    ensures
        r.deep_view() == tidy_users(v.deep_view()),
{
    let sorted = sort_users(v);
    let mut r: Vec<SharedUser> = Vec::new();
    let mut i: usize = 0;
    while i < sorted.len()
        invariant
            i <= sorted@.len(),
            r@.len() == i,
            forall|k: int| 0 <= k < i ==> (#[trigger] r@[k])@ == tidy_user(sorted@[k]@),
        decreases sorted@.len() - i,
    {
        let u = &sorted[i];
        r.push(
            SharedUser {
                nickname: trim(u.nickname.as_str()),
                public_id: trim(u.public_id.as_str()),
                ip: trim(u.ip.as_str()),
                port: trim(u.port.as_str()),
                allowed: u.allowed,
            },
        );
        i += 1;
    }
    assert(r.deep_view() =~= tidy_users(v.deep_view()));
    r
}

fn tidy_share_list(v: &Vec<ConfigSharedFile>) -> (r: Vec<ConfigSharedFile>)
    ensures
        r.deep_view() == tidy_shares(v.deep_view()),
{
    let mut r: Vec<ConfigSharedFile> = Vec::new();
    let mut i: usize = 0;
    while i < v.len()
        invariant
            i <= v@.len(),
            r@.len() == i,
            forall|k: int| 0 <= k < i ==> (#[trigger] r@[k])@ == tidy_share(v@[k]@),
        decreases v@.len() - i,
    {
        let f = &v[i];
        let path = to_native_path(trim(f.path.as_str()).as_str());
        let mut names: Vec<String> = Vec::new();
        let mut j: usize = 0;
        while j < f.shared_with.len()
            invariant
                j <= f.shared_with@.len(),
                names@.len() == j,
                forall|k: int| 0 <= k < j ==> (#[trigger] names@[k])@ == trimmed(f.shared_with@[k]@),
            decreases f.shared_with@.len() - j,
        {
            names.push(trim(f.shared_with[j].as_str()));
            j += 1;
        }
        assert(names.deep_view() =~= tidy_texts(f.shared_with.deep_view()));
        let shared_with = sort_texts(&names);
        r.push(ConfigSharedFile { path, shared_with });
        i += 1;
    }
    assert(r.deep_view() =~= tidy_shares(v.deep_view()));
    r
}

fn sanitize_config(config_file: &mut ConfigFile)
    ensures
        final(config_file)@ == sanitized(old(config_file)@),
{
    config_file.my_private_id = trim(config_file.my_private_id.as_str());
    config_file.sharing_port = trim(config_file.sharing_port.as_str());
    config_file.shared_users = tidy_user_list(&config_file.shared_users);
    config_file.shared_files = tidy_share_list(&config_file.shared_files);
}

/// The first answer from `i` on.
pub open spec fn first_some(n: int, f: spec_fn(int) -> Option<Seq<char>>, i: int) -> Option<
    Seq<char>,
>
    decreases n - i,
{
    if i >= n {
        None
    } else {
        match f(i) {
            Some(t) => Some(t),
            None => first_some(n, f, i + 1),
        }
    }
}

/// How many elements have a property.
pub open spec fn count_where<T>(s: Seq<T>, p: spec_fn(T) -> bool) -> nat
    decreases s.len(),
{
    if s.len() == 0 {
        0
    } else {
        count_where(s.drop_last(), p) + if p(s.last()) {
            1nat
        } else {
            0
        }
    }
}

/// Whether an answer and an outcome agree: an error with that text, or success.
pub open spec fn told(error: Option<Seq<char>>, r: Result<(), String>) -> bool {
    match error {
        Some(text) => r is Err && r->Err_0@ == text,
        None => r is Ok,
    }
}

pub open spec fn port_error(port: Seq<char>) -> Option<Seq<char>> {
    if is_i32(port) {
        None
    } else {
        Some("Port must be a number."@)
    }
}

fn verify_config_port(port: &str) -> (r: Result<(), String>)
    ensures
        told(port_error(port@), r),
{
    if parses_as_i32(port) {
        Ok(())
    } else {
        Err("Port must be a number.".to_owned())
    }
}

/// The bytes that a base64 text stands for.
pub open spec fn base64_bytes(text: Seq<char>) -> Seq<u8> {
    choose|b: Seq<u8>| #[trigger] encoded(b) == text
}

pub open spec fn private_id_error(id: Seq<char>) -> Option<Seq<char>> {
    if !is_base64(id) {
        Some("Invalid Private ID. Not b64. "@ + base64_refusal(id))
    } else {
        match ed25519_public_key(base64_bytes(id)) {
            Ok(_) => None,
            Err(e) => Some("Failed to load local key pair '"@ + e + "'."@),
        }
    }
}

fn verify_config_my_private_id(my_private_id: &str) -> (r: Result<(), String>)
    ensures
        told(private_id_error(my_private_id@), r),
{
    let bytes = match get_bytes_from_base64_str(my_private_id) {
        Ok(bytes) => bytes,
        Err(e) => return Err(cat2("Invalid Private ID. Not b64. ", e.as_str())),
    };
    proof {
        assert(encoded(bytes@) == my_private_id@);
        law_encoded_injective(base64_bytes(my_private_id@), bytes@);
    }
    match ring_public_key(bytes.as_slice()) {
        Ok(_) => Ok(()),
        Err(e) => Err(cat3("Failed to load local key pair '", e.as_str(), "'.")),
    }
}

/// Characters that a path may not have.
pub open spec fn blocked_path_chars() -> Seq<char> {
    seq!['/', '*', '?', '"', '<', '>', '|']
}

/// Characters that a nickname may not have.
pub open spec fn blocked_name_chars() -> Seq<char> {
    blocked_path_chars() + seq!['\\', ':']
}

fn get_blocked_file_path_chars() -> (r: String)
    ensures
        r@ == blocked_path_chars(),
{
    proof {
        reveal_strlit("/*?\"<>|");
    }
    let r = "/*?\"<>|".to_owned();
    assert(r@ =~= blocked_path_chars());
    r
}

fn get_blocked_file_name_chars() -> (r: String)
    ensures
        r@ == blocked_name_chars(),
{
    let mut r = get_blocked_file_path_chars();
    r.push('\\');
    r.push(':');
    assert(r@ =~= blocked_name_chars());
    r
}

/// The first of some characters that a text has.
pub open spec fn first_contained(list: Seq<char>, s: Seq<char>) -> Option<char>
    decreases list.len(),
{
    if list.len() == 0 {
        None
    } else if s.contains(list[0]) {
        Some(list[0])
    } else {
        first_contained(list.skip(1), s)
    }
}

fn find_contained(list: &str, s: &str) -> (r: Option<char>)
    ensures
        r == first_contained(list@, s@),
{
    let chars = chars_of(list);
    let mut i: usize = 0;
    assert(list@.skip(0) =~= list@);
    while i < chars.len()
        invariant
            i <= chars@.len(),
            chars@ == list@,
            first_contained(list@, s@) == first_contained(list@.skip(i as int), s@),
        decreases chars@.len() - i,
    {
        if contains_char(s, chars[i]) {
            return Some(chars[i]);
        }
        assert(list@.skip(i as int).skip(1) =~= list@.skip(i + 1));
        i += 1;
    }
    None
}

/// No blocked character is found exactly where the text has none.
pub proof fn lemma_first_contained(list: Seq<char>, s: Seq<char>)
    ensures
        first_contained(list, s) is None <==> forall|c: char|
            #[trigger] list.contains(c) ==> !s.contains(c),
        first_contained(list, s) matches Some(c) ==> list.contains(c) && s.contains(c),
    decreases list.len(),
{
    if list.len() > 0 {
        let rest = list.skip(1);
        lemma_first_contained(rest, s);
        assert(list.contains(list[0]));
        assert forall|c: char| #[trigger] list.contains(c) implies c == list[0] || rest.contains(
            c,
        ) by {
            let i = choose|i: int| 0 <= i < list.len() && list[i] == c;
            if i > 0 {
                assert(rest[i - 1] == c);
            }
        }
        assert forall|c: char| #[trigger] rest.contains(c) implies list.contains(c) by {
            let i = choose|i: int| 0 <= i < rest.len() && rest[i] == c;
            assert(list[i + 1] == c);
        }
    }
}

/// Whether a path has no slash, names no other computer, and has a colon in second place only
/// behind the letter of a drive that stands by itself. Backslashes separate the parts of such a
/// path on some systems; on the others nothing does.
pub open spec fn is_plain(path: Seq<char>) -> bool {
    &&& !path.contains('/')
    &&& !(path.len() >= 2 && path[0] == '\\' && path[1] == '\\')
    &&& path.len() >= 2 && path[1] == ':' ==> {
        &&& 'a' <= path[0] <= 'z' || 'A' <= path[0] <= 'Z'
        &&& path.len() == 2 || path[2] == '\\'
    }
}

/// Whether a part of a path between backslashes goes from `a` to `b`.
pub open spec fn is_piece(path: Seq<char>, a: int, b: int) -> bool {
    &&& 0 <= a < b <= path.len()
    &&& a == 0 || path[a - 1] == '\\'
    &&& b == path.len() || path[b] == '\\'
    &&& forall|k: int| a <= k < b ==> path[k] != '\\'
}

/// Whether the parts of a path are what stands between its backslashes, besides the root. A single
/// dot may be left out.
pub open spec fn are_pieces(path: Seq<char>, parts: Seq<Seq<char>>) -> bool {
    &&& forall|i: int|
        0 <= i < parts.len() ==> #[trigger] parts[i] == seq!['\\'] || exists|a: int, b: int|
            is_piece(path, a, b) && parts[i] == path.subrange(a, b)
    &&& forall|a: int, b: int|
        is_piece(path, a, b) && path.subrange(a, b) != seq!['.'] ==> parts.contains(
            #[trigger] path.subrange(a, b),
        )
}

/// Whether a place in a path that starts with two separators lies behind the two names that follow
/// them: those of a computer and of what it shares.
pub open spec fn is_behind_share(path: Seq<char>, separator: char, a: int) -> bool {
    &&& path.len() > 2 && path[2] != separator
    &&& exists|k: int|
        3 <= k < a - 2 && #[trigger] path[k] == separator && path[k + 1] != separator
}

/// Whether a path without slashes starts with two backslashes and no question mark behind them: it
/// may name another computer.
pub open spec fn is_share(path: Seq<char>) -> bool {
    &&& !path.contains('/')
    &&& path.len() >= 2 && path[0] == '\\' && path[1] == '\\'
    &&& !(path.len() > 2 && path[2] == '?')
}

/// Whether the parts of a path that may name another computer are those between its backslashes,
/// besides the root and a first part that holds the computer. All that stands behind the computer
/// and what it shares is among them; a single dot may be left out.
pub open spec fn are_share_parts(path: Seq<char>, parts: Seq<Seq<char>>) -> bool {
    &&& forall|i: int|
        0 <= i < parts.len() ==> {
            ||| #[trigger] parts[i] == seq!['\\']
            ||| exists|k: int| 2 <= k <= path.len() && parts[i] == #[trigger] path.take(k)
            ||| exists|a: int, b: int| is_piece(path, a, b) && parts[i] == path.subrange(a, b)
        }
    &&& forall|a: int, b: int|
        is_piece(path, a, b) && is_behind_share(path, '\\', a) && path.subrange(a, b) != seq!['.']
            ==> parts.contains(#[trigger] path.subrange(a, b))
}

/// Whether a path without slashes starts with the letter of a drive, a colon, and something other
/// than a backslash.
pub open spec fn is_on_drive(path: Seq<char>) -> bool {
    &&& !path.contains('/')
    &&& path.len() > 2 && path[1] == ':' && path[2] != '\\'
    &&& 'a' <= path[0] <= 'z' || 'A' <= path[0] <= 'Z'
}

/// Whether a path without slashes has a colon in second place, behind what is no letter.
pub open spec fn has_odd_drive(path: Seq<char>) -> bool {
    &&& !path.contains('/')
    &&& path.len() >= 2 && path[1] == ':'
    &&& !('a' <= path[0] <= 'z' || 'A' <= path[0] <= 'Z')
}

/// Whether the parts of a path are its drive and what stands between the backslashes behind it.
pub open spec fn are_drive_parts(path: Seq<char>, parts: Seq<Seq<char>>) -> bool {
    &&& parts.len() > 0 && parts[0] == path.take(2)
    &&& are_pieces(path.skip(2), parts.skip(1))
}

/// What is known of the parts of a path on every system: the empty path has none, a path without
/// separators is its only part, and every other path without slashes is its only part or is split
/// at its backslashes, behind its drive or its computer where it has one.
pub open spec fn are_parts(path: Seq<char>, parts: Seq<Seq<char>>) -> bool {
    &&& path.len() == 0 ==> parts.len() == 0
    &&& path.len() > 0 && !path.contains('/') && !path.contains('\\') && !path.contains(':')
        ==> parts == seq![path]
    &&& path.len() > 0 && is_plain(path) ==> parts == seq![path] || are_pieces(path, parts)
    &&& is_share(path) ==> parts == seq![path] || are_share_parts(path, parts)
    &&& is_on_drive(path) ==> parts == seq![path] || are_drive_parts(path, parts)
    &&& has_odd_drive(path) ==> parts == seq![path] || are_pieces(path, parts) || are_drive_parts(
        path,
        parts,
    )
}

/// `std::path::Path::iter`: the parts of a path. Which characters separate them depends on the
/// system, so of a path with backslashes or a drive every way to split it is allowed, and a colon
/// behind a first character that is no letter may end a drive or not. Of a path with slashes, or
/// with a question mark behind two backslashes, nothing is said.
#[verifier::external_body]
fn path_parts(path: &str) -> (parts: Vec<String>)
    ensures
        are_parts(path@, parts.deep_view()),
{
    std::path::Path::new(path).iter().map(|part| part.to_string_lossy().into_owned()).collect()
}

/// Whether a part of a path is more than dots.
pub open spec fn is_name(part: Seq<char>) -> bool {
    exists|i: int| 0 <= i < part.len() && part[i] != '.'
}

/// Whether every part of a path is more than dots.
pub open spec fn all_names(parts: Seq<Seq<char>>) -> bool {
    forall|i: int| 0 <= i < parts.len() ==> is_name(#[trigger] parts[i])
}

/// Whether every part of a path is more than dots: nothing relative.
pub fn parts_are_names(parts: &Vec<String>) -> (r: bool)
    ensures
        r == all_names(parts.deep_view()),
{
    let mut i: usize = 0;
    while i < parts.len()
        invariant
            i <= parts@.len(),
            forall|k: int| 0 <= k < i ==> is_name(#[trigger] parts.deep_view()[k]),
        decreases parts@.len() - i,
    {
        let chars = chars_of(parts[i].as_str());
        assert(parts.deep_view()[i as int] == chars@);
        let mut keep = false;
        let mut j: usize = 0;
        while j < chars.len() && !keep
            invariant
                j <= chars@.len(),
                keep ==> is_name(chars@),
                !keep ==> forall|k: int| 0 <= k < j ==> chars@[k] == '.',
            decreases chars@.len() - j,
        {
            if chars[j] != '.' {
                assert(chars@[j as int] != '.');
                keep = true;
            }
            j += 1;
        }
        if !keep {
            assert(!is_name(parts.deep_view()[i as int]));
            return false;
        }
        i += 1;
    }
    true
}

/// Whether a path may be judged valid, or not valid.
pub open spec fn may_be_judged(path: Seq<char>, valid: bool) -> bool {
    if first_contained(blocked_path_chars(), path) is Some {
        !valid
    } else {
        exists|parts: Seq<Seq<char>>|
            #[trigger] are_parts(path, parts) && valid == all_names(parts)
    }
}

/// Whether a path has no blocked character and nothing relative in it.
pub fn file_contains_only_valid_chars(path: &str) -> (r: bool)
    ensures
        may_be_judged(path@, r),
{
    if find_contained(get_blocked_file_path_chars().as_str(), path).is_some() {
        return false;
    }
    let parts = path_parts(path);
    assert(are_parts(path@, parts.deep_view()));
    parts_are_names(&parts)
}

/// A path that is a single name is valid exactly where it is more than dots and has no blocked
/// character; the system does not matter.
pub proof fn law_single_name_judged(path: Seq<char>, valid: bool)
    requires
        may_be_judged(path, valid),
        path.len() > 0,
        !path.contains('\\'),
        !path.contains(':'),
    ensures
        valid == (is_name(path) && forall|c: char|
            #[trigger] blocked_path_chars().contains(c) ==> !path.contains(c)),
{
    lemma_first_contained(blocked_path_chars(), path);
    if first_contained(blocked_path_chars(), path) is None {
        assert(blocked_path_chars()[0] == '/');
        assert(blocked_path_chars().contains('/'));
        let parts = choose|parts: Seq<Seq<char>>|
            #[trigger] are_parts(path, parts) && valid == all_names(parts);
        assert(parts == seq![path]);
        assert(parts[0] == path);
        assert(all_names(parts) <==> is_name(path));
    }
}

/// A path is valid on every system where all that stands between its backslashes is more than
/// dots, and so is what stands behind its drive, and it has no blocked character.
pub proof fn law_path_of_names_is_valid(path: Seq<char>, valid: bool)
    requires
        may_be_judged(path, valid),
        is_plain(path) || is_share(path) || is_on_drive(path) || has_odd_drive(path),
        forall|c: char| #[trigger] blocked_path_chars().contains(c) ==> !path.contains(c),
        forall|a: int, b: int|
            is_piece(path, a, b) ==> is_name(#[trigger] path.subrange(a, b)),
        is_on_drive(path) || has_odd_drive(path) ==> forall|a: int, b: int|
            is_piece(path.skip(2), a, b) ==> is_name(#[trigger] path.skip(2).subrange(a, b)),
    ensures
        valid,
{
    lemma_first_contained(blocked_path_chars(), path);
    let parts = choose|parts: Seq<Seq<char>>|
        #[trigger] are_parts(path, parts) && valid == all_names(parts);
    if path.len() == 0 {
    } else if parts == seq![path] {
        if path[0] == '\\' {
            assert(is_name(path));
        } else {
            let b = place_of(path, '\\', 0);
            lemma_place_of(path, '\\', 0);
            assert(is_piece(path, 0, b));
            let piece = path.subrange(0, b);
            assert(is_name(piece));
            let i = choose|i: int| 0 <= i < piece.len() && piece[i] != '.';
            assert(path[i] == piece[i]);
            assert(is_name(path));
        }
        assert(parts[0] == path);
    } else if are_drive_parts(path, parts) && (is_on_drive(path) || has_odd_drive(path)) {
        let rest = path.skip(2);
        let others = parts.skip(1);
        lemma_pieces_are_names(rest, others);
        assert(path.take(2)[1] == ':');
        assert forall|i: int| 0 <= i < parts.len() implies is_name(#[trigger] parts[i]) by {
            if i > 0 {
                assert(others[i - 1] == parts[i]);
            }
        }
    } else if is_share(path) {
        assert forall|i: int| 0 <= i < parts.len() implies is_name(#[trigger] parts[i]) by {
            if parts[i] == seq!['\\'] {
                assert(parts[i][0] == '\\');
            } else if exists|k: int| 2 <= k <= path.len() && parts[i] == #[trigger] path.take(k) {
                assert(parts[i][0] == '\\');
            } else {
                let (a, b) = choose|a: int, b: int|
                    is_piece(path, a, b) && parts[i] == path.subrange(a, b);
                assert(is_name(path.subrange(a, b)));
            }
        }
    } else {
        lemma_pieces_are_names(path, parts);
    }
}

proof fn lemma_pieces_are_names(path: Seq<char>, parts: Seq<Seq<char>>)
    requires
        are_pieces(path, parts),
        forall|a: int, b: int|
            is_piece(path, a, b) ==> is_name(#[trigger] path.subrange(a, b)),
    ensures
        all_names(parts),
{
    assert forall|i: int| 0 <= i < parts.len() implies is_name(#[trigger] parts[i]) by {
        if parts[i] == seq!['\\'] {
            assert(parts[i][0] == '\\');
        } else {
            let (a, b) = choose|a: int, b: int|
                is_piece(path, a, b) && parts[i] == path.subrange(a, b);
            assert(is_name(path.subrange(a, b)));
        }
    }
}

/// A path is not valid, on every system that splits it, where two or more dots stand between its
/// backslashes; a system that does not split it takes it for one name.
pub proof fn law_relative_path_is_refused(path: Seq<char>, parts: Seq<Seq<char>>, a: int, b: int)
    requires
        are_parts(path, parts),
        parts != seq![path],
        is_piece(path, a, b),
        b - a >= 2,
        forall|k: int| a <= k < b ==> #[trigger] path[k] == '.',
        is_plain(path) || is_share(path) && is_behind_share(path, '\\', a) || is_on_drive(path)
            || has_odd_drive(path),
    ensures
        !all_names(parts),
{
    let piece = path.subrange(a, b);
    assert(piece.len() >= 2);
    assert(!is_name(piece)) by {
        if is_name(piece) {
            let i = choose|i: int| 0 <= i < piece.len() && piece[i] != '.';
            assert(path[a + i] == piece[i]);
        }
    }
    if are_drive_parts(path, parts) && (is_on_drive(path) || has_odd_drive(path)) {
        let rest = path.skip(2);
        if a < 2 {
            assert(path[1] == ':');
            assert(path[a] == '.');
        }
        assert(is_piece(rest, a - 2, b - 2)) by {
            assert forall|k: int| a - 2 <= k < b - 2 implies rest[k] != '\\' by {
                assert(rest[k] == path[k + 2]);
            }
        }
        assert(rest.subrange(a - 2, b - 2) =~= piece);
        assert(parts.skip(1).contains(piece));
        let i = choose|i: int| 0 <= i < parts.skip(1).len() && parts.skip(1)[i] == piece;
        assert(parts[i + 1] == piece);
    } else {
        assert(parts.contains(piece));
        let i = choose|i: int| 0 <= i < parts.len() && parts[i] == piece;
        assert(parts[i] == piece);
    }
}

/// An address that does not parse as a socket address, and why.
#[derive(Debug)]
pub struct RejectedAddress {
    pub address: String,
    pub error: String,
}

/// What a `RejectedAddress` says.
pub struct RejectionView {
    pub address: Seq<char>,
    pub error: Seq<char>,
}

impl DeepView for RejectedAddress {
    type V = RejectionView;

    open spec fn deep_view(&self) -> RejectionView {
        RejectionView { address: self.address@, error: self.error@ }
    }
}

/// Why an address was rejected, from entry `i` on.
pub open spec fn rejection(rejected: Seq<RejectionView>, address: Seq<char>, i: int) -> Option<
    Seq<char>,
>
    decreases rejected.len() - i,
{
    if i >= rejected.len() {
        None
    } else if rejected[i].address == address {
        Some(rejected[i].error)
    } else {
        rejection(rejected, address, i + 1)
    }
}

fn find_rejection(rejected: &Vec<RejectedAddress>, address: &str) -> (r: Option<String>)
    ensures
        match rejection(rejected.deep_view(), address@, 0) {
            Some(e) => r is Some && r->0@ == e,
            None => r is None,
        },
{
    let mut i: usize = 0;
    while i < rejected.len()
        invariant
            i <= rejected@.len(),
            rejection(rejected.deep_view(), address@, 0) == rejection(
                rejected.deep_view(),
                address@,
                i as int,
            ),
        decreases rejected@.len() - i,
    {
        assert(rejected.deep_view()[i as int] == rejected@[i as int].deep_view());
        if str_eq(rejected[i].address.as_str(), address) {
            return Some(rejected[i].error.clone());
        }
        i += 1;
    }
    None
}

/// The address of a user: ip and port.
pub open spec fn full_address(u: UserView) -> Seq<char> {
    u.ip + ":"@ + u.port
}

/// The address under which a user with this ip and port is looked up among the rejected ones.
pub fn checked_address(ip: &str, port: &str) -> (s: String)
    ensures
        s@ == trimmed(ip@) + ":"@ + trimmed(port@),
{
    cat3(trim(ip).as_str(), ":", trim(port).as_str())
}

pub open spec fn same_nickname(name: Seq<char>) -> spec_fn(UserView) -> bool {
    |u: UserView| lowercase(name) == lowercase(u.nickname)
}

pub open spec fn same_public_id(id: Seq<char>) -> spec_fn(UserView) -> bool {
    |u: UserView| id == u.public_id
}

/// The error of a user that is there twice.
pub open spec fn repeat_error(users: Seq<UserView>, i: int) -> Option<Seq<char>> {
    let u = users[i];
    let names = count_where(users, same_nickname(u.nickname));
    let ids = count_where(users, same_public_id(u.public_id));
    if names > 1 {
        Some(
            "Nicknames cannot be repeated. '"@ + u.nickname + "' was found '"@ + decimal(names)
                + "' times."@,
        )
    } else if ids > 1 {
        Some(
            "Public IDs cannot be repeated. '"@ + u.public_id + "' was found '"@ + decimal(ids)
                + "' times."@,
        )
    } else {
        None
    }
}

/// The error of a user by itself.
pub open spec fn user_error(u: UserView, rejected: Seq<RejectionView>) -> Option<Seq<char>> {
    if u.nickname.len() == 0 {
        Some("Nickname cannot be empty."@)
    } else if first_contained(blocked_name_chars(), u.nickname) is Some {
        Some(
            "Nickname '"@ + u.nickname + "' contains the character '"@ + seq![
                first_contained(blocked_name_chars(), u.nickname)->0,
            ] + "' which is not allowed. These characters are not allowed:   "@
                + blocked_name_chars() + "'."@,
        )
    } else if u.port.len() == 0 {
        Some("Port for '"@ + u.nickname + "' cannot be empty"@)
    } else if port_error(u.port) is Some {
        Some(u.nickname + "'s port is invalid. "@ + port_error(u.port)->0)
    } else if u.public_id.len() == 0 {
        Some("PublicID for '"@ + u.nickname + "' cannot be empty"@)
    } else if !is_base64(u.public_id) {
        Some(u.nickname + "'s PublicID is invalid. Bad encoding. "@ + base64_refusal(u.public_id))
    } else if u.ip.len() == 0 {
        Some("IP Address for '"@ + u.nickname + "' cannot be empty"@)
    } else {
        match rejection(rejected, full_address(u), 0) {
            Some(e) => Some(
                "Full address of '"@ + u.nickname + "', '"@ + full_address(u)
                    + "' is not valid. Check IP and port. "@ + e,
            ),
            None => None,
        }
    }
}

/// The first error of the users.
pub open spec fn users_error(users: Seq<UserView>, rejected: Seq<RejectionView>) -> Option<
    Seq<char>,
> {
    match first_some(users.len() as int, |i: int| repeat_error(users, i), 0) {
        Some(e) => Some(e),
        None => first_some(users.len() as int, |i: int| user_error(users[i], rejected), 0),
    }
}

fn char_string(c: char) -> (s: String)
    ensures
        s@ == seq![c],
{
    let mut s = String::new();
    s.push(c);
    assert(s@ =~= seq![c]);
    s
}

fn count_user(users: &Vec<SharedUser>, nickname: &str, public_id: &str) -> (r: (u64, u64))
    ensures
        r.0 == count_where(users.deep_view(), same_nickname(nickname@)),
        r.1 == count_where(users.deep_view(), same_public_id(public_id@)),
{
    let lower = to_lowercase(nickname);
    let mut names: u64 = 0;
    let mut ids: u64 = 0;
    let mut i: usize = 0;
    let ghost all = users.deep_view();
    while i < users.len()
        invariant
            i <= users@.len(),
            all == users.deep_view(),
            lower@ == lowercase(nickname@),
            names <= i,
            ids <= i,
            names == count_where(all.take(i as int), same_nickname(nickname@)),
            ids == count_where(all.take(i as int), same_public_id(public_id@)),
        decreases users@.len() - i,
    {
        proof {
            assert(all.take(i + 1).drop_last() =~= all.take(i as int));
            assert(all.take(i + 1).last() == users@[i as int]@);
        }
        if lower == to_lowercase(users[i].nickname.as_str()) {
            names += 1;
        }
        if str_eq(public_id, users[i].public_id.as_str()) {
            ids += 1;
        }
        i += 1;
    }
    assert(all.take(i as int) =~= all);
    (names, ids)
}

fn verify_user(user: &SharedUser, rejected: &Vec<RejectedAddress>) -> (r: Result<(), String>)
    ensures
        told(user_error(user@, rejected.deep_view()), r),
{
    let name = user.nickname.as_str();
    if is_empty_text(name) {
        return Err("Nickname cannot be empty.".to_owned());
    }
    let blocked = get_blocked_file_name_chars();
    match find_contained(blocked.as_str(), name) {
        Some(c) => return Err(
            cat7(
                "Nickname '",
                name,
                "' contains the character '",
                char_string(c).as_str(),
                "' which is not allowed. These characters are not allowed:   ",
                blocked.as_str(),
                "'.",
            ),
        ),
        None => {},
    }
    if is_empty_text(user.port.as_str()) {
        return Err(cat3("Port for '", name, "' cannot be empty"));
    }
    match verify_config_port(user.port.as_str()) {
        Ok(()) => {},
        Err(e) => return Err(cat3(name, "'s port is invalid. ", e.as_str())),
    }
    if is_empty_text(user.public_id.as_str()) {
        return Err(cat3("PublicID for '", name, "' cannot be empty"));
    }
    match get_bytes_from_base64_str(user.public_id.as_str()) {
        Ok(_) => {},
        Err(e) => return Err(cat3(name, "'s PublicID is invalid. Bad encoding. ", e.as_str())),
    }
    if is_empty_text(user.ip.as_str()) {
        return Err(cat3("IP Address for '", name, "' cannot be empty"));
    }
    let address = cat3(user.ip.as_str(), ":", user.port.as_str());
    match find_rejection(rejected, address.as_str()) {
        Some(e) => {
            let mut text = cat5(
                "Full address of '",
                name,
                "', '",
                address.as_str(),
                "' is not valid. Check IP and port. ",
            );
            text.push_str(e.as_str());
            Err(text)
        },
        None => Ok(()),
    }
}

fn verify_config_shared_users(
    shared_users: &Vec<SharedUser>,
    rejected: &Vec<RejectedAddress>,
) -> (r: Result<(), String>)
    ensures
        told(users_error(shared_users.deep_view(), rejected.deep_view()), r),
{
    let ghost all = shared_users.deep_view();
    let ghost repeats = |i: int| repeat_error(all, i);
    let ghost errors = |i: int| user_error(all[i], rejected.deep_view());
    let ghost n = all.len() as int;
    let mut i: usize = 0;
    while i < shared_users.len()
        invariant
            i <= shared_users@.len(),
            all == shared_users.deep_view(),
            n == all.len(),
            repeats == (|i: int| repeat_error(all, i)),
            first_some(n, repeats, 0) == first_some(n, repeats, i as int),
            users_error(all, rejected.deep_view()) == (match first_some(n, repeats, 0) {
                Some(e) => Some(e),
                None => first_some(n, |i: int| user_error(all[i], rejected.deep_view()), 0),
            }),
        decreases shared_users@.len() - i,
    {
        let user = &shared_users[i];
        assert(all[i as int] == user@);
        let (names, ids) = count_user(
            shared_users,
            user.nickname.as_str(),
            user.public_id.as_str(),
        );
        assert(repeats(i as int) == repeat_error(all, i as int));
        if names > 1 {
            return Err(
                cat5(
                    "Nicknames cannot be repeated. '",
                    user.nickname.as_str(),
                    "' was found '",
                    decimal_string(names).as_str(),
                    "' times.",
                ),
            );
        }
        if ids > 1 {
            return Err(
                cat5(
                    "Public IDs cannot be repeated. '",
                    user.public_id.as_str(),
                    "' was found '",
                    decimal_string(ids).as_str(),
                    "' times.",
                ),
            );
        }
        i += 1;
    }
    let mut j: usize = 0;
    while j < shared_users.len()
        invariant
            j <= shared_users@.len(),
            all == shared_users.deep_view(),
            n == all.len(),
            errors == (|i: int| user_error(all[i], rejected.deep_view())),
            users_error(all, rejected.deep_view()) == first_some(n, errors, j as int),
        decreases shared_users@.len() - j,
    {
        assert(all[j as int] == shared_users@[j as int]@);
        assert(errors(j as int) == user_error(all[j as int], rejected.deep_view()));
        match verify_user(&shared_users[j], rejected) {
            Ok(()) => {},
            Err(e) => return Err(e),
        }
        j += 1;
    }
    Ok(())
}

pub open spec fn same_path(path: Seq<char>) -> spec_fn(ShareView) -> bool {
    |f: ShareView| path == f.path
}

/// The error of a file that is there twice.
pub open spec fn file_repeat_error(files: Seq<ShareView>, i: int) -> Option<Seq<char>> {
    let count = count_where(files, same_path(files[i].path));
    if count > 1 {
        Some(
            "File '"@ + files[i].path + "' has been shared '"@ + decimal(count)
                + "' times. It can only be shared once."@,
        )
    } else {
        None
    }
}

/// Whether a user has this nickname.
pub open spec fn is_nickname(users: Seq<UserView>, name: Seq<char>) -> bool {
    exists|i: int| 0 <= i < users.len() && (#[trigger] users[i]).nickname == name
}

/// The error of sharing with somebody who is no user.
pub open spec fn stranger_error(users: Seq<UserView>, f: ShareView, j: int) -> Option<Seq<char>> {
    if is_nickname(users, f.shared_with[j]) {
        None
    } else {
        Some(
            "Cannot share file '"@ + f.path + "' with user '"@ + f.shared_with[j]
                + "' as that user does not exist as a shared_user."@,
        )
    }
}

pub open spec fn strangers_error(users: Seq<UserView>, f: ShareView) -> Option<Seq<char>> {
    first_some(f.shared_with.len() as int, |j: int| stranger_error(users, f, j), 0)
}

/// The error of a path: in the configuration directory, with a blocked character, or judged not
/// valid.
pub open spec fn path_error(path: Seq<char>, config_dir: Seq<char>, valid: bool) -> Option<
    Seq<char>,
> {
    if has_prefix(path, config_dir) {
        Some(
            "The Transmitic Config directory, and it's sub files, cannot be shared. '"@ + config_dir
                + "'"@,
        )
    } else if first_contained(blocked_path_chars(), path) is Some {
        Some(
            "Cannot share file '"@ + path + "' because it contains the character '"@ + seq![
                first_contained(blocked_path_chars(), path)->0,
            ] + "' which is not allowed. These characters are not allowed:   "@
                + blocked_path_chars() + "'."@,
        )
    } else if !valid {
        Some("Cannot share file with relative directories or invalid characters. "@ + path)
    } else {
        None
    }
}

/// The first error of the shared files, where `valid` says which paths are valid.
pub open spec fn files_error(
    users: Seq<UserView>,
    files: Seq<ShareView>,
    config_dir: Seq<char>,
    valid: Seq<bool>,
) -> Option<Seq<char>> {
    let n = files.len() as int;
    match first_some(n, |i: int| file_repeat_error(files, i), 0) {
        Some(e) => Some(e),
        None => match first_some(n, |i: int| strangers_error(users, files[i]), 0) {
            Some(e) => Some(e),
            None => first_some(n, |i: int| path_error(files[i].path, config_dir, valid[i]), 0),
        },
    }
}

/// Whether each path may be judged as `valid` says.
pub open spec fn are_judgements(files: Seq<ShareView>, valid: Seq<bool>) -> bool {
    &&& valid.len() == files.len()
    &&& forall|i: int| 0 <= i < files.len() ==> may_be_judged(files[i].path, #[trigger] valid[i])
}

fn judge_files(files: &Vec<ConfigSharedFile>) -> (valid: Vec<bool>)
    ensures
        are_judgements(files.deep_view(), valid@),
{
    let mut valid: Vec<bool> = Vec::new();
    let mut i: usize = 0;
    while i < files.len()
        invariant
            i <= files@.len(),
            valid@.len() == i,
            forall|k: int|
                0 <= k < i ==> may_be_judged(files.deep_view()[k].path, #[trigger] valid@[k]),
        decreases files@.len() - i,
    {
        assert(files.deep_view()[i as int] == files@[i as int]@);
        valid.push(file_contains_only_valid_chars(files[i].path.as_str()));
        i += 1;
    }
    valid
}

fn count_path(files: &Vec<ConfigSharedFile>, path: &str) -> (r: u64)
    ensures
        r == count_where(files.deep_view(), same_path(path@)),
{
    let mut count: u64 = 0;
    let mut i: usize = 0;
    let ghost all = files.deep_view();
    while i < files.len()
        invariant
            i <= files@.len(),
            all == files.deep_view(),
            count <= i,
            count == count_where(all.take(i as int), same_path(path@)),
        decreases files@.len() - i,
    {
        proof {
            assert(all.take(i + 1).drop_last() =~= all.take(i as int));
            assert(all.take(i + 1).last() == files@[i as int]@);
        }
        if str_eq(path, files[i].path.as_str()) {
            count += 1;
        }
        i += 1;
    }
    assert(all.take(i as int) =~= all);
    count
}

pub(crate) fn has_nickname(users: &Vec<SharedUser>, name: &str) -> (r: bool)
    ensures
        r == is_nickname(users.deep_view(), name@),
{
    let ghost all = users.deep_view();
    let mut i: usize = 0;
    while i < users.len()
        invariant
            i <= users@.len(),
            all == users.deep_view(),
            forall|k: int| 0 <= k < i ==> (#[trigger] all[k]).nickname != name@,
        decreases users@.len() - i,
    {
        assert(all[i as int] == users@[i as int]@);
        if str_eq(users[i].nickname.as_str(), name) {
            return true;
        }
        i += 1;
    }
    false
}

fn verify_shared_with(users: &Vec<SharedUser>, file: &ConfigSharedFile) -> (r: Result<(), String>)
    ensures
        told(strangers_error(users.deep_view(), file@), r),
{
    let ghost errors = |j: int| stranger_error(users.deep_view(), file@, j);
    let ghost n = file@.shared_with.len() as int;
    let mut j: usize = 0;
    while j < file.shared_with.len()
        invariant
            j <= file.shared_with@.len(),
            n == file.shared_with@.len(),
            errors == (|j: int| stranger_error(users.deep_view(), file@, j)),
            strangers_error(users.deep_view(), file@) == first_some(n, errors, j as int),
        decreases file.shared_with@.len() - j,
    {
        assert(errors(j as int) == stranger_error(users.deep_view(), file@, j as int));
        assert(file@.shared_with[j as int] == file.shared_with@[j as int]@);
        let name = file.shared_with[j].as_str();
        if !has_nickname(users, name) {
            return Err(
                cat5(
                    "Cannot share file '",
                    file.path.as_str(),
                    "' with user '",
                    name,
                    "' as that user does not exist as a shared_user.",
                ),
            );
        }
        j += 1;
    }
    Ok(())
}

fn verify_path(path: &str, config_dir: &str, valid: bool) -> (r: Result<(), String>)
    ensures
        told(path_error(path@, config_dir@, valid), r),
{
    if starts_with(path, config_dir) {
        return Err(
            cat3(
                "The Transmitic Config directory, and it's sub files, cannot be shared. '",
                config_dir,
                "'",
            ),
        );
    }
    let blocked = get_blocked_file_path_chars();
    match find_contained(blocked.as_str(), path) {
        Some(c) => return Err(
            cat7(
                "Cannot share file '",
                path,
                "' because it contains the character '",
                char_string(c).as_str(),
                "' which is not allowed. These characters are not allowed:   ",
                blocked.as_str(),
                "'.",
            ),
        ),
        None => {},
    }
    if !valid {
        return Err(
            cat2("Cannot share file with relative directories or invalid characters. ", path),
        );
    }
    Ok(())
}

/// Checks the shared files, where `valid` says which paths are valid.
fn verify_config_shared_files(
    shared_users: &Vec<SharedUser>,
    shared_files: &Vec<ConfigSharedFile>,
    config_dir: &str,
    valid: &Vec<bool>,
) -> (r: Result<(), String>)
    requires
        valid@.len() == shared_files@.len(),
    ensures
        told(
            files_error(shared_users.deep_view(), shared_files.deep_view(), config_dir@, valid@),
            r,
        ),
{
    let ghost users = shared_users.deep_view();
    let ghost files = shared_files.deep_view();
    let ghost n = files.len() as int;
    let ghost repeats = |i: int| file_repeat_error(files, i);
    let ghost strangers = |i: int| strangers_error(users, files[i]);
    let ghost paths = |i: int| path_error(files[i].path, config_dir@, valid@[i]);
    let ghost answer = files_error(users, files, config_dir@, valid@);
    let mut i: usize = 0;
    while i < shared_files.len()
        invariant
            i <= shared_files@.len(),
            files == shared_files.deep_view(),
            users == shared_users.deep_view(),
            n == files.len(),
            repeats == (|i: int| file_repeat_error(files, i)),
            first_some(n, repeats, 0) == first_some(n, repeats, i as int),
            answer == files_error(users, files, config_dir@, valid@),
        decreases shared_files@.len() - i,
    {
        assert(files[i as int] == shared_files@[i as int]@);
        assert(repeats(i as int) == file_repeat_error(files, i as int));
        let path = shared_files[i].path.as_str();
        let count: u64 = count_path(shared_files, path);
        if count > 1 {
            return Err(
                cat5(
                    "File '",
                    path,
                    "' has been shared '",
                    decimal_string(count).as_str(),
                    "' times. It can only be shared once.",
                ),
            );
        }
        i += 1;
    }
    let mut j: usize = 0;
    while j < shared_files.len()
        invariant
            j <= shared_files@.len(),
            files == shared_files.deep_view(),
            users == shared_users.deep_view(),
            n == files.len(),
            first_some(n, repeats, 0) is None,
            repeats == (|i: int| file_repeat_error(files, i)),
            strangers == (|i: int| strangers_error(users, files[i])),
            first_some(n, strangers, 0) == first_some(n, strangers, j as int),
            answer == files_error(users, files, config_dir@, valid@),
        decreases shared_files@.len() - j,
    {
        assert(files[j as int] == shared_files@[j as int]@);
        assert(strangers(j as int) == strangers_error(users, files[j as int]));
        match verify_shared_with(shared_users, &shared_files[j]) {
            Ok(()) => {},
            Err(e) => return Err(e),
        }
        j += 1;
    }
    let mut k: usize = 0;
    while k < shared_files.len()
        invariant
            k <= shared_files@.len(),
            files == shared_files.deep_view(),
            n == files.len(),
            valid@.len() == shared_files@.len(),
            paths == (|i: int| path_error(files[i].path, config_dir@, valid@[i])),
            answer == first_some(n, paths, k as int),
            answer == files_error(users, files, config_dir@, valid@),
            users == shared_users.deep_view(),
        decreases shared_files@.len() - k,
    {
        assert(files[k as int] == shared_files@[k as int]@);
        assert(paths(k as int) == path_error(files[k as int].path, config_dir@, valid@[k as int]));
        match verify_path(shared_files[k].path.as_str(), config_dir, valid[k]) {
            Ok(()) => {},
            Err(e) => return Err(e),
        }
        k += 1;
    }
    Ok(())
}

/// The first error of a configuration.
pub open spec fn config_error(
    c: ConfigView,
    rejected: Seq<RejectionView>,
    config_dir: Seq<char>,
    valid: Seq<bool>,
) -> Option<Seq<char>> {
    match port_error(c.sharing_port) {
        Some(e) => Some(e),
        None => match private_id_error(c.my_private_id) {
            Some(e) => Some(e),
            None => match users_error(c.shared_users, rejected) {
                Some(e) => Some(e),
                None => files_error(c.shared_users, c.shared_files, config_dir, valid),
            },
        },
    }
}

/// Checks a configuration that is tidy, where `valid` says which of its paths are valid.
pub fn verify_sanitized(
    config_file: &ConfigFile,
    rejected: &Vec<RejectedAddress>,
    config_dir: &str,
    valid: &Vec<bool>,
) -> (r: Result<(), String>)
    requires
        valid@.len() == config_file.shared_files@.len(),
    ensures
        told(config_error(config_file@, rejected.deep_view(), config_dir@, valid@), r),
{
    match verify_config_port(config_file.sharing_port.as_str()) {
        Ok(()) => {},
        Err(e) => return Err(e),
    }
    match verify_config_my_private_id(config_file.my_private_id.as_str()) {
        Ok(()) => {},
        Err(e) => return Err(e),
    }
    match verify_config_shared_users(&config_file.shared_users, rejected) {
        Ok(()) => {},
        Err(e) => return Err(e),
    }
    verify_config_shared_files(
        &config_file.shared_users,
        &config_file.shared_files,
        config_dir,
        valid,
    )
}

/// Whether a tidy configuration may be answered with `r`.
pub open spec fn may_be_answered(
    c: ConfigView,
    rejected: Seq<RejectionView>,
    config_dir: Seq<char>,
    r: Result<(), String>,
) -> bool {
    exists|valid: Seq<bool>|
        #[trigger] are_judgements(c.shared_files, valid) && told(
            config_error(c, rejected, config_dir, valid),
            r,
        )
}

/// Tidies a configuration and checks it.
pub fn verify_config(
    config_file: &mut ConfigFile,
    rejected: &Vec<RejectedAddress>,
    config_dir: &str,
) -> (r: Result<(), String>)
    ensures
        final(config_file)@ == sanitized(old(config_file)@),
        may_be_answered(final(config_file)@, rejected.deep_view(), config_dir@, r),
{
    sanitize_config(config_file);
    let valid = judge_files(&config_file.shared_files);
    assert(are_judgements(config_file@.shared_files, valid@));
    verify_sanitized(config_file, rejected, config_dir, &valid)
}

proof fn lemma_first_some_none(n: int, f: spec_fn(int) -> Option<Seq<char>>, i: int)
    requires
        first_some(n, f, i) is None,
    ensures
        forall|k: int| i <= k < n ==> #[trigger] f(k) is None,
    decreases n - i,
{
    if i < n {
        lemma_first_some_none(n, f, i + 1);
    }
}

proof fn lemma_count_where<T>(s: Seq<T>, p: spec_fn(T) -> bool, i: int)
    requires
        0 <= i < s.len(),
        p(s[i]),
    ensures
        count_where(s, p) >= 1,
    decreases s.len(),
{
    if i < s.len() - 1 {
        lemma_count_where(s.drop_last(), p, i);
    }
}

proof fn lemma_count_where_two<T>(s: Seq<T>, p: spec_fn(T) -> bool, i: int, j: int)
    requires
        0 <= i < j < s.len(),
        p(s[i]),
        p(s[j]),
    ensures
        count_where(s, p) >= 2,
    decreases s.len(),
{
    if j < s.len() - 1 {
        lemma_count_where_two(s.drop_last(), p, i, j);
    } else {
        lemma_count_where(s.drop_last(), p, i);
    }
}

/// What holds of users in every configuration that passed.
pub open spec fn users_are_sound(users: Seq<UserView>) -> bool {
    &&& forall|i: int, j: int|
        #![trigger users[i], users[j]]
        0 <= i < j < users.len() ==> lowercase(users[i].nickname) != lowercase(users[j].nickname)
            && users[i].public_id != users[j].public_id
    &&& forall|i: int|
        #![trigger users[i]]
        0 <= i < users.len() ==> {
            &&& users[i].nickname.len() > 0
            &&& first_contained(blocked_name_chars(), users[i].nickname) is None
            &&& is_i32(users[i].port)
            &&& users[i].public_id.len() > 0
            &&& is_base64(users[i].public_id)
            &&& users[i].ip.len() > 0
        }
}

/// What holds of shared files in every configuration that passed.
pub open spec fn files_are_sound(
    users: Seq<UserView>,
    files: Seq<ShareView>,
    config_dir: Seq<char>,
) -> bool {
    &&& forall|i: int, j: int|
        #![trigger files[i], files[j]]
        0 <= i < j < files.len() ==> files[i].path != files[j].path
    &&& forall|i: int, k: int|
        0 <= i < files.len() && 0 <= k < files[i].shared_with.len() ==> is_nickname(
            users,
            #[trigger] files[i].shared_with[k],
        )
    &&& forall|i: int|
        #![trigger files[i]]
        0 <= i < files.len() ==> {
            &&& !has_prefix(files[i].path, config_dir)
            &&& first_contained(blocked_path_chars(), files[i].path) is None
            &&& may_be_judged(files[i].path, true)
        }
}

/// What holds of every configuration that passed.
pub open spec fn is_sound(c: ConfigView, config_dir: Seq<char>) -> bool {
    &&& is_i32(c.sharing_port)
    &&& is_base64(c.my_private_id)
    &&& ed25519_public_key(base64_bytes(c.my_private_id)) is Ok
    &&& users_are_sound(c.shared_users)
    &&& files_are_sound(c.shared_users, c.shared_files, config_dir)
}

proof fn lemma_users_pass(users: Seq<UserView>, rejected: Seq<RejectionView>)
    requires
        users_error(users, rejected) is None,
    ensures
        users_are_sound(users),
{
    let n = users.len() as int;
    let repeats = |i: int| repeat_error(users, i);
    let errors = |i: int| user_error(users[i], rejected);
    lemma_first_some_none(n, repeats, 0);
    lemma_first_some_none(n, errors, 0);
    assert forall|i: int, j: int|
        #![trigger users[i], users[j]]
        0 <= i < j < users.len() implies lowercase(users[i].nickname) != lowercase(
        users[j].nickname,
    ) && users[i].public_id != users[j].public_id by {
        assert(repeats(i) is None);
        if lowercase(users[i].nickname) == lowercase(users[j].nickname) {
            lemma_count_where_two(users, same_nickname(users[i].nickname), i, j);
        }
        if users[i].public_id == users[j].public_id {
            lemma_count_where_two(users, same_public_id(users[i].public_id), i, j);
        }
    }
    assert forall|i: int| #![trigger users[i]] 0 <= i < users.len() implies {
        &&& users[i].nickname.len() > 0
        &&& first_contained(blocked_name_chars(), users[i].nickname) is None
        &&& is_i32(users[i].port)
        &&& users[i].public_id.len() > 0
        &&& is_base64(users[i].public_id)
        &&& users[i].ip.len() > 0
    } by {
        assert(errors(i) is None);
    }
}

proof fn lemma_files_pass(
    users: Seq<UserView>,
    files: Seq<ShareView>,
    config_dir: Seq<char>,
    valid: Seq<bool>,
)
    requires
        files_error(users, files, config_dir, valid) is None,
        are_judgements(files, valid),
    ensures
        files_are_sound(users, files, config_dir),
{
    let n = files.len() as int;
    let repeats = |i: int| file_repeat_error(files, i);
    let strangers = |i: int| strangers_error(users, files[i]);
    let paths = |i: int| path_error(files[i].path, config_dir, valid[i]);
    lemma_first_some_none(n, repeats, 0);
    lemma_first_some_none(n, strangers, 0);
    lemma_first_some_none(n, paths, 0);
    assert forall|i: int, j: int|
        #![trigger files[i], files[j]]
        0 <= i < j < files.len() implies files[i].path != files[j].path by {
        assert(repeats(i) is None);
        if files[i].path == files[j].path {
            lemma_count_where_two(files, same_path(files[i].path), i, j);
        }
    }
    assert forall|i: int, k: int|
        0 <= i < files.len() && 0 <= k < files[i].shared_with.len() implies is_nickname(
        users,
        #[trigger] files[i].shared_with[k],
    ) by {
        assert(strangers(i) is None);
        let inner = |j: int| stranger_error(users, files[i], j);
        lemma_first_some_none(files[i].shared_with.len() as int, inner, 0);
        assert(inner(k) is None);
    }
    assert forall|i: int| #![trigger files[i]] 0 <= i < files.len() implies {
        &&& !has_prefix(files[i].path, config_dir)
        &&& first_contained(blocked_path_chars(), files[i].path) is None
        &&& may_be_judged(files[i].path, true)
    } by {
        assert(paths(i) is None);
        assert(may_be_judged(files[i].path, valid[i]));
    }
}

/// A configuration that passes is sound: nicknames and public ids are there once, names, ports,
/// ids and addresses are not empty and well formed, and every file is shared once, only with
/// users, and only from outside the configuration directory.
pub proof fn law_passed_is_sound(
    c: ConfigView,
    rejected: Seq<RejectionView>,
    config_dir: Seq<char>,
    r: Result<(), String>,
)
    requires
        may_be_answered(c, rejected, config_dir, r),
        r is Ok,
    ensures
        is_sound(c, config_dir),
{
    let valid = choose|valid: Seq<bool>|
        #[trigger] are_judgements(c.shared_files, valid) && told(
            config_error(c, rejected, config_dir, valid),
            r,
        );
    lemma_users_pass(c.shared_users, rejected);
    lemma_files_pass(c.shared_users, c.shared_files, config_dir, valid);
}

/// Whether there is no white space around the texts of a configuration.
pub open spec fn is_tidy(c: ConfigView) -> bool {
    &&& trimmed(c.my_private_id) == c.my_private_id
    &&& trimmed(c.sharing_port) == c.sharing_port
    &&& forall|i: int|
        0 <= i < c.shared_users.len() ==> tidy_user(#[trigger] c.shared_users[i])
            == c.shared_users[i]
    &&& forall|i: int, k: int|
        0 <= i < c.shared_files.len() && 0 <= k < c.shared_files[i].shared_with.len() ==> trimmed(
            #[trigger] c.shared_files[i].shared_with[k],
        ) == c.shared_files[i].shared_with[k]
}

/// A sanitized configuration is tidy.
pub proof fn law_sanitized_is_tidy(c: ConfigView)
    ensures
        is_tidy(sanitized(c)),
{
    let s = sanitized(c);
    law_trimmed_twice(c.my_private_id);
    law_trimmed_twice(c.sharing_port);
    assert forall|i: int| 0 <= i < s.shared_users.len() implies tidy_user(
        #[trigger] s.shared_users[i],
    ) == s.shared_users[i] by {
        let u = sorted_by(c.shared_users, nickname_key())[i];
        law_trimmed_twice(u.nickname);
        law_trimmed_twice(u.public_id);
        law_trimmed_twice(u.ip);
        law_trimmed_twice(u.port);
    }
    assert forall|i: int, k: int|
        0 <= i < s.shared_files.len() && 0 <= k
            < s.shared_files[i].shared_with.len() implies trimmed(
        #[trigger] s.shared_files[i].shared_with[k],
    ) == s.shared_files[i].shared_with[k] by {
        let names = c.shared_files[i].shared_with;
        let sorted = s.shared_files[i].shared_with;
        assert(sorted.contains(sorted[k]));
        lemma_sorted_by_contains(tidy_texts(names), text_key(), sorted[k]);
        let j = choose|j: int| 0 <= j < names.len() && tidy_texts(names)[j] == sorted[k];
        law_trimmed_twice(names[j]);
    }
}

/// What a configuration is made of.
struct ConfigParts {
    first_start: bool,
    config_file: ConfigFile,
    local_private_key_bytes: Vec<u8>,
    path_dir_config: String,
}

/// The configuration that the program runs with. It has passed all checks.
pub struct Config {
    parts: ConfigParts,
}

/// What a `Config` says.
pub struct ConfigState {
    pub first_start: bool,
    pub file: ConfigView,
    pub private_key: Seq<u8>,
    pub config_dir: Seq<char>,
}

impl View for Config {
    type V = ConfigState;

    closed spec fn view(&self) -> ConfigState {
        self.parts@
    }
}

impl View for ConfigParts {
    type V = ConfigState;

    closed spec fn view(&self) -> ConfigState {
        ConfigState {
            first_start: self.first_start,
            file: self.config_file@,
            private_key: self.local_private_key_bytes@,
            config_dir: self.path_dir_config@,
        }
    }
}

/// What holds of the configuration at all times.
pub open spec fn is_valid_state(s: ConfigState) -> bool {
    &&& is_sound(s.file, s.config_dir)
    &&& is_tidy(s.file)
    &&& s.private_key == base64_bytes(s.file.my_private_id)
    &&& ed25519_public_key(s.private_key) is Ok
}

/// The configuration after it was to become `wanted`: tidied and stored where it passes, and as
/// before where it does not.
pub open spec fn is_stored(
    before: ConfigState,
    wanted: ConfigView,
    rejected: Seq<RejectionView>,
    r: Result<(), String>,
    after: ConfigState,
) -> bool {
    &&& may_be_answered(sanitized(wanted), rejected, before.config_dir, r)
    &&& r is Ok ==> after == (ConfigState { file: sanitized(wanted), ..before })
    &&& r is Err ==> after == before
}

/// What becomes of a configuration that is to get some bytes as its private id: with them it is
/// tidied and stored where it passes, and it is as before where it does not.
pub open spec fn is_private_id_set(
    before: ConfigState,
    private_id: Seq<u8>,
    r: Result<(), String>,
    after: ConfigState,
) -> bool {
    let wanted = sanitized(ConfigView { my_private_id: encoded(private_id), ..before.file });
    &&& may_be_answered(wanted, seq![], before.config_dir, r)
    &&& r is Ok ==> after == (ConfigState { file: wanted, private_key: private_id, ..before })
    &&& r is Err ==> after == before
}

/// What becomes of a configuration that is to get a new private id: no id could be made, which
/// the error says, and it is as before; or an id that is a key pair was made, and the
/// configuration is to get that one.
pub open spec fn is_new_id_set(
    before: ConfigState,
    r: Result<(), String>,
    after: ConfigState,
) -> bool {
    ||| {
        &&& r is Err
        &&& has_prefix(r->Err_0@, "Failed to generate pkcs8 bytes. "@)
        &&& after == before
    }
    ||| exists|private_id: Seq<u8>|
        ed25519_public_key(private_id) is Ok && #[trigger] is_private_id_set(
            before,
            private_id,
            r,
            after,
        )
}

/// What becomes of a configuration that files are added to.
pub open spec fn are_files_added(
    before: ConfigState,
    files: Seq<Seq<char>>,
    r: Result<(), String>,
    after: ConfigState,
) -> bool {
    is_stored(
        before,
        ConfigView {
            shared_files: with_files(before.file.shared_files, files),
            ..before.file
        },
        seq![],
        r,
        after,
    )
}

/// What becomes of a configuration in which a file is no longer shared.
pub open spec fn is_file_removed(
    before: ConfigState,
    file_path: Seq<char>,
    r: Result<(), String>,
    after: ConfigState,
) -> bool {
    is_stored(
        before,
        ConfigView {
            shared_files: without_path(before.file.shared_files, file_path),
            ..before.file
        },
        seq![],
        r,
        after,
    )
}

/// What becomes of a configuration in which a file is no longer shared with a user.
pub open spec fn is_sharer_removed(
    before: ConfigState,
    nickname: Seq<char>,
    file_path: Seq<char>,
    r: Result<(), String>,
    after: ConfigState,
) -> bool {
    is_stored(
        before,
        ConfigView {
            shared_files: without_sharer(before.file.shared_files, Some(file_path), nickname),
            ..before.file
        },
        seq![],
        r,
        after,
    )
}

/// What becomes of a configuration that a user is removed from.
pub open spec fn is_user_removed(
    before: ConfigState,
    nickname: Seq<char>,
    r: Result<(), String>,
    after: ConfigState,
) -> bool {
    is_stored(
        before,
        ConfigView {
            shared_users: without_nickname(before.file.shared_users, nickname),
            shared_files: without_sharer(before.file.shared_files, None, nickname),
            ..before.file
        },
        seq![],
        r,
        after,
    )
}

/// What becomes of a configuration that gets another port.
pub open spec fn is_port_set(
    before: ConfigState,
    port: Seq<char>,
    r: Result<(), String>,
    after: ConfigState,
) -> bool {
    is_stored(before, ConfigView { sharing_port: port, ..before.file }, seq![], r, after)
}

/// What becomes of a configuration that a user is added to.
pub open spec fn is_user_added(
    before: ConfigState,
    user: UserView,
    rejected: Seq<RejectionView>,
    r: Result<(), String>,
    after: ConfigState,
) -> bool {
    is_stored(
        before,
        ConfigView { shared_users: before.file.shared_users.push(user), ..before.file },
        rejected,
        r,
        after,
    )
}

/// Whether a file is shared with a user already.
pub open spec fn is_shared_with(files: Seq<ShareView>, path: Seq<char>, name: Seq<char>) -> bool {
    &&& is_shared_path(files, path)
    &&& files[first_path(files, path, 0)].shared_with.contains(name)
}

/// What becomes of a configuration in which a file is shared with one more user.
pub open spec fn is_sharer_added(
    before: ConfigState,
    nickname: Seq<char>,
    file_path: Seq<char>,
    r: Result<(), String>,
    after: ConfigState,
) -> bool {
    let at = first_path(before.file.shared_files, file_path, 0);
    if !is_nickname(before.file.shared_users, nickname) {
        r is Err && r->Err_0@ == "Could not share file '"@ + file_path + "'. User '"@ + nickname
            + "' does not exist."@ && after == before
    } else if !is_shared_path(before.file.shared_files, file_path) {
        r is Err && r->Err_0@ == "Could not find file '"@ + file_path
            + "' to share with user '"@ + nickname + "'."@ && after == before
    } else if is_shared_with(before.file.shared_files, file_path, nickname) {
        r is Ok && after == before
    } else {
        is_stored(
            before,
            ConfigView {
                shared_files: with_sharer(before.file.shared_files, at, nickname),
                ..before.file
            },
            seq![],
            r,
            after,
        )
    }
}

/// What becomes of a configuration in which a user is allowed or denied to connect.
pub open spec fn is_allowed_set(
    before: ConfigState,
    nickname: Seq<char>,
    is_allowed: bool,
    r: Result<(), String>,
    after: ConfigState,
) -> bool {
    let users = before.file.shared_users;
    match first_nickname(users, nickname, 0) {
        Some(i) => is_stored(
            before,
            ConfigView {
                shared_users: users.update(i, UserView { allowed: is_allowed, ..users[i] }),
                ..before.file
            },
            seq![],
            r,
            after,
        ),
        None => r is Err && r->Err_0@ == "Could not find user '"@ + nickname
            + "' to set Allowed state '"@ + bool_text(is_allowed) + "'."@ && after == before,
    }
}

/// What becomes of a configuration in which a user gets another id and address.
pub open spec fn is_user_updated(
    before: ConfigState,
    nickname: Seq<char>,
    public_id: Seq<char>,
    ip: Seq<char>,
    port: Seq<char>,
    rejected: Seq<RejectionView>,
    r: Result<(), String>,
    after: ConfigState,
) -> bool {
    let users = before.file.shared_users;
    match first_nickname(users, nickname, 0) {
        Some(i) => is_stored(
            before,
            ConfigView {
                shared_users: users.update(i, UserView { public_id, ip, port, ..users[i] }),
                ..before.file
            },
            rejected,
            r,
            after,
        ),
        None => r is Err && r->Err_0@ == "Failed to find user '"@ + nickname
            + "'. Could not update user."@ && after == before,
    }
}

impl ConfigParts {
    /// Checks a configuration, and goes on with it where it passes.
    fn write_and_set_config(
        &mut self,
        config_file: ConfigFile,
        rejected: &Vec<RejectedAddress>,
    ) -> (r: Result<(), String>)
        ensures
            is_stored(old(self)@, config_file@, rejected.deep_view(), r, final(self)@),
    {
        let mut new_config_file = config_file;
        match verify_config(&mut new_config_file, rejected, self.path_dir_config.as_str()) {
            Ok(()) => {
                self.config_file = new_config_file;
                Ok(())
            },
            Err(e) => Err(e),
        }
    }
}

impl Clone for ConfigParts {
    fn clone(&self) -> (r: Self)
        ensures
            r@ == self@,
    {
        ConfigParts {
            first_start: self.first_start,
            config_file: self.config_file.clone(),
            local_private_key_bytes: slice_to_vec(self.local_private_key_bytes.as_slice()),
            path_dir_config: self.path_dir_config.clone(),
        }
    }
}

impl Config {
    #[verifier::type_invariant]
    spec fn type_inv(&self) -> bool {
        is_valid_state(self@)
    }

    /// The configuration from what was read from disk; `rejected` lists the addresses of its users
    /// that are no socket addresses.
    pub fn new(
        first_start: bool,
        config_file: ConfigFile,
        path_dir_config: String,
        rejected: &Vec<RejectedAddress>,
    ) -> (r: Result<Config, String>)
        ensures
            may_be_answered(
                sanitized(config_file@),
                rejected.deep_view(),
                path_dir_config@,
                match r {
                    Ok(_) => Ok(()),
                    Err(e) => Err(e),
                },
            ),
            r matches Ok(c) ==> c@ == (ConfigState {
                first_start,
                file: sanitized(config_file@),
                private_key: base64_bytes(sanitized(config_file@).my_private_id),
                config_dir: path_dir_config@,
            }),
    {
        let mut new_config_file = config_file;
        let checked = verify_config(&mut new_config_file, rejected, path_dir_config.as_str());
        match checked {
            Err(e) => Err(e),
            Ok(()) => {
                proof {
                    law_passed_is_sound(
                        new_config_file@,
                        rejected.deep_view(),
                        path_dir_config@,
                        checked,
                    );
                    law_sanitized_is_tidy(config_file@);
                }
                match get_bytes_from_base64_str(new_config_file.my_private_id.as_str()) {
                    Ok(local_private_key_bytes) => {
                        proof {
                            law_encoded_injective(
                                base64_bytes(new_config_file@.my_private_id),
                                local_private_key_bytes@,
                            );
                        }
                        let parts = ConfigParts {
                            first_start,
                            config_file: new_config_file,
                            local_private_key_bytes,
                            path_dir_config,
                        };
                        Ok(Config { parts })
                    },
                    Err(e) => Err(e),
                }
            },
        }
    }

    /// Shares files with nobody yet. What is shared already is left as it is.
    pub fn add_files(&mut self, files: Vec<String>) -> (r: Result<(), String>)
        ensures
            are_files_added(old(self)@, files.deep_view(), r, final(self)@),
    {
        let mut new_config_file = self.parts.config_file.clone();
        let ghost existing = self@.file.shared_files;
        let ghost all = files.deep_view();
        let mut i: usize = 0;
        assert(new_config_file.shared_files.deep_view() =~= with_files(existing, all.take(0)));
        while i < files.len()
            invariant
                i <= files@.len(),
                all == files.deep_view(),
                existing == self.parts.config_file@.shared_files,
                new_config_file@ == (ConfigView {
                    shared_files: with_files(existing, all.take(i as int)),
                    ..self.parts.config_file@
                }),
            decreases files@.len() - i,
        {
            let path = to_native_path(files[i].as_str());
            proof {
                assert(all.take(i + 1).drop_last() =~= all.take(i as int));
                assert(all.take(i + 1).last() == files@[i as int]@);
            }
            if !has_path(&self.parts.config_file.shared_files, path.as_str()) {
                let ghost before = new_config_file.shared_files;
                let file = ConfigSharedFile { path, shared_with: Vec::new() };
                assert(file.shared_with.deep_view() =~= seq![]);
                new_config_file.shared_files.push(file);
                proof {
                    lemma_deep_push(before, new_config_file.shared_files, file);
                }
            }
            i += 1;
        }
        assert(all.take(i as int) =~= all);
        self.store_known(new_config_file)
    }

    /// Stores a configuration that has the same private id.
    fn store(&mut self, config_file: ConfigFile, rejected: &Vec<RejectedAddress>) -> (r: Result<
        (),
        String,
    >)
        requires
            config_file@.my_private_id == old(self)@.file.my_private_id,
        ensures
            is_stored(old(self)@, config_file@, rejected.deep_view(), r, final(self)@),
    {
        proof {
            use_type_invariant(&*self);
        }
        let ghost wanted = config_file@;
        let mut parts = self.parts.clone();
        let r = parts.write_and_set_config(config_file, rejected);
        proof {
            if r is Ok {
                law_passed_is_sound(
                    sanitized(wanted),
                    rejected.deep_view(),
                    self@.config_dir,
                    r,
                );
                law_sanitized_is_tidy(wanted);
            }
        }
        self.parts = parts;
        r
    }

    /// Stores a configuration that has the same private id and no new address.
    fn store_known(&mut self, config_file: ConfigFile) -> (r: Result<(), String>)
        requires
            config_file@.my_private_id == old(self)@.file.my_private_id,
        ensures
            is_stored(old(self)@, config_file@, seq![], r, final(self)@),
    {
        let none: Vec<RejectedAddress> = Vec::new();
        assert(none.deep_view() =~= seq![]);
        self.store(config_file, &none)
    }

    /// Adds a user, who is allowed to connect; `rejected` has the user's address where it is no
    /// socket address.
    pub fn add_new_user(
        &mut self,
        new_nickname: String,
        new_public_id: String,
        new_ip: String,
        new_port: String,
        rejected: &Vec<RejectedAddress>,
    ) -> (r: Result<(), String>)
        ensures
            is_user_added(
                old(self)@,
                UserView {
                    nickname: new_nickname@,
                    public_id: new_public_id@,
                    ip: new_ip@,
                    port: new_port@,
                    allowed: true,
                },
                rejected.deep_view(),
                r,
                final(self)@,
            ),
    {
        let mut new_config_file = self.parts.config_file.clone();
        let user = SharedUser {
            nickname: new_nickname,
            public_id: new_public_id,
            ip: new_ip,
            port: new_port,
            allowed: true,
        };
        let ghost before = new_config_file.shared_users;
        new_config_file.shared_users.push(user);
        proof {
            lemma_deep_push(before, new_config_file.shared_users, user);
        }
        self.store(new_config_file, rejected)
    }

    /// Shares a file that is shared already with one more user.
    pub fn add_user_to_shared(&mut self, nickname: String, file_path: String) -> (r: Result<
        (),
        String,
    >)
        ensures
            is_sharer_added(old(self)@, nickname@, file_path@, r, final(self)@),
    {
        if !has_nickname(&self.parts.config_file.shared_users, nickname.as_str()) {
            return Err(
                cat5(
                    "Could not share file '",
                    file_path.as_str(),
                    "'. User '",
                    nickname.as_str(),
                    "' does not exist.",
                ),
            );
        }
        match find_path(&self.parts.config_file.shared_files, file_path.as_str()) {
            Some(i) => {
                assert(self@.file.shared_files[i as int]
                    == self.parts.config_file.shared_files@[i as int]@);
                if has_text(
                    &self.parts.config_file.shared_files[i].shared_with,
                    nickname.as_str(),
                ) {
                    return Ok(());
                }
                let mut new_config_file = self.parts.config_file.clone();
                let shared_files = add_sharer(
                    &self.parts.config_file.shared_files,
                    i,
                    nickname.as_str(),
                );
                new_config_file.shared_files = shared_files;
                self.store_known(new_config_file)
            },
            None => Err(
                cat5(
                    "Could not find file '",
                    file_path.as_str(),
                    "' to share with user '",
                    nickname.as_str(),
                    "'.",
                ),
            ),
        }
    }

    /// Whether a file is shared with a user already.
    pub fn is_shared_with(&self, file_path: &str, nickname: &str) -> (r: bool)
        ensures
            r == is_shared_with(self@.file.shared_files, file_path@, nickname@),
    {
        match find_path(&self.parts.config_file.shared_files, file_path) {
            Some(i) => {
                assert(self@.file.shared_files[i as int]
                    == self.parts.config_file.shared_files@[i as int]@);
                has_text(&self.parts.config_file.shared_files[i].shared_with, nickname)
            },
            None => false,
        }
    }

    /// Stops sharing a file.
    pub fn remove_file_from_sharing(&mut self, file_path: String) -> (r: Result<(), String>)
        ensures
            is_file_removed(old(self)@, file_path@, r, final(self)@),
    {
        let mut new_config_file = self.parts.config_file.clone();
        let shared_files = drop_path(&self.parts.config_file.shared_files, file_path.as_str());
        new_config_file.shared_files = shared_files;
        self.store_known(new_config_file)
    }

    /// Stops sharing a file with a user.
    pub fn remove_user_from_sharing(&mut self, nickname: String, file_path: String) -> (r: Result<
        (),
        String,
    >)
        ensures
            is_sharer_removed(old(self)@, nickname@, file_path@, r, final(self)@),
    {
        let mut new_config_file = self.parts.config_file.clone();
        let shared_files = drop_sharer(
            &self.parts.config_file.shared_files,
            Some(file_path.as_str()),
            nickname.as_str(),
        );
        new_config_file.shared_files = shared_files;
        self.store_known(new_config_file)
    }

    /// Removes a user, and stops sharing anything with this user. Where it ends well, nothing
    /// refers to the user any more.
    pub fn remove_user(&mut self, nickname: String) -> (r: Result<(), String>)
        ensures
            is_user_removed(old(self)@, nickname@, r, final(self)@),
            r is Ok ==> !is_nickname(final(self)@.file.shared_users, nickname@),
            r is Ok ==> forall|i: int|
                0 <= i < final(self)@.file.shared_files.len()
                    ==> !(#[trigger] final(self)@.file.shared_files[i]).shared_with.contains(
                    nickname@,
                ),
    {
        proof {
            use_type_invariant(&*self);
        }
        let mut new_config_file = self.parts.config_file.clone();
        let shared_files = drop_sharer(&self.parts.config_file.shared_files, None, nickname.as_str());
        let shared_users = drop_nickname(&self.parts.config_file.shared_users, nickname.as_str());
        new_config_file.shared_files = shared_files;
        new_config_file.shared_users = shared_users;
        proof {
            lemma_user_is_gone(self@.file, nickname@);
        }
        self.store_known(new_config_file)
    }

    pub fn set_port(&mut self, port: String) -> (r: Result<(), String>)
        ensures
            is_port_set(old(self)@, port@, r, final(self)@),
    {
        let mut new_config_file = self.parts.config_file.clone();
        new_config_file.sharing_port = port;
        self.store_known(new_config_file)
    }

    /// Allows or denies a user to connect.
    pub fn set_user_is_allowed_state(&mut self, nickname: String, is_allowed: bool) -> (r: Result<
        (),
        String,
    >)
        ensures
            is_allowed_set(old(self)@, nickname@, is_allowed, r, final(self)@),
    {
        match find_nickname(&self.parts.config_file.shared_users, nickname.as_str()) {
            Some(i) => {
                let mut new_config_file = self.parts.config_file.clone();
                let mut user = self.parts.config_file.shared_users[i].clone();
                user.allowed = is_allowed;
                let ghost before = new_config_file.shared_users;
                assert(before.deep_view()[i as int] == self.parts.config_file.shared_users.deep_view()[i as int]);
                assert(before@.len() == before.deep_view().len());
                new_config_file.shared_users.set(i, user);
                assert(new_config_file.shared_users.deep_view() =~= before.deep_view().update(
                    i as int,
                    user@,
                ));
                self.store_known(new_config_file)
            },
            None => Err(
                cat5(
                    "Could not find user '",
                    nickname.as_str(),
                    "' to set Allowed state '",
                    if is_allowed {
                        "true"
                    } else {
                        "false"
                    },
                    "'.",
                ),
            ),
        }
    }

    /// Changes id and address of a user; `rejected` has the new address where it is no socket
    /// address.
    pub fn update_user(
        &mut self,
        nickname: String,
        new_public_id: String,
        new_ip: String,
        new_port: String,
        rejected: &Vec<RejectedAddress>,
    ) -> (r: Result<(), String>)
        ensures
            is_user_updated(
                old(self)@,
                nickname@,
                new_public_id@,
                new_ip@,
                new_port@,
                rejected.deep_view(),
                r,
                final(self)@,
            ),
    {
        match find_nickname(&self.parts.config_file.shared_users, nickname.as_str()) {
            Some(i) => {
                let mut new_config_file = self.parts.config_file.clone();
                let user = SharedUser {
                    nickname: self.parts.config_file.shared_users[i].nickname.clone(),
                    public_id: new_public_id,
                    ip: new_ip,
                    port: new_port,
                    allowed: self.parts.config_file.shared_users[i].allowed,
                };
                let ghost before = new_config_file.shared_users;
                assert(before.deep_view()[i as int] == self.parts.config_file.shared_users.deep_view()[i as int]);
                assert(before@.len() == before.deep_view().len());
                new_config_file.shared_users.set(i, user);
                assert(new_config_file.shared_users.deep_view() =~= before.deep_view().update(
                    i as int,
                    user@,
                ));
                self.store(new_config_file, rejected)
            },
            None => Err(
                cat3("Failed to find user '", nickname.as_str(), "'. Could not update user."),
            ),
        }
    }

    pub fn get_local_private_id_bytes(&self) -> (b: Vec<u8>)
        ensures
            b@ == self@.private_key,
    {
        slice_to_vec(self.parts.local_private_key_bytes.as_slice())
    }

    pub fn get_path_dir_config(&self) -> (s: String)
        ensures
            s@ == self@.config_dir,
    {
        self.parts.path_dir_config.clone()
    }

    pub fn get_shared_files(&self) -> (v: Vec<ConfigSharedFile>)
        ensures
            v.deep_view() == self@.file.shared_files,
    {
        clone_shares(&self.parts.config_file.shared_files)
    }

    pub fn get_shared_users(&self) -> (v: Vec<SharedUser>)
        ensures
            v.deep_view() == self@.file.shared_users,
    {
        clone_users(&self.parts.config_file.shared_users)
    }

    pub fn get_sharing_port(&self) -> (s: String)
        ensures
            s@ == self@.file.sharing_port,
    {
        self.parts.config_file.sharing_port.clone()
    }

    pub fn is_first_start(&self) -> (r: bool)
        ensures
            r == self@.first_start,
    {
        self.parts.first_start
    }

    /// The private id and the public id that belongs to it.
    pub fn get_local_key_pair(&self) -> (p: LocalKeyPair)
        ensures
            p.private_id@ == self@.private_key,
            ed25519_public_key(self@.private_key) == Ok::<Seq<u8>, Seq<char>>(p.public_id@),
    {
        proof {
            use_type_invariant(self);
        }
        match ring_public_key(self.parts.local_private_key_bytes.as_slice()) {
            Ok(public_id) => LocalKeyPair {
                private_id: self.get_local_private_id_bytes(),
                public_id,
            },
            Err(_) => vstd::pervasive::unreached(),
        }
    }

    /// The public id as other users enter it.
    pub fn get_public_id_string(&self) -> (s: String)
        ensures
            ed25519_public_key(self@.private_key) is Ok,
            s@ == encoded(ed25519_public_key(self@.private_key)->Ok_0),
    {
        let pair = self.get_local_key_pair();
        get_base64_str_from_bytes(pair.public_id)
    }

    /// Makes some bytes the private id.
    pub fn set_private_id(&mut self, private_id_bytes: Vec<u8>) -> (r: Result<(), String>)
        ensures
            is_private_id_set(old(self)@, private_id_bytes@, r, final(self)@),
    {
        proof {
            use_type_invariant(&*self);
        }
        let local_private_key_bytes = slice_to_vec(private_id_bytes.as_slice());
        let mut new_config_file = self.parts.config_file.clone();
        new_config_file.my_private_id = get_base64_str_from_bytes(private_id_bytes);
        let ghost wanted = new_config_file@;
        let none: Vec<RejectedAddress> = Vec::new();
        assert(none.deep_view() =~= seq![]);
        let mut parts = self.parts.clone();
        let r = parts.write_and_set_config(new_config_file, &none);
        if r.is_ok() {
            proof {
                law_passed_is_sound(sanitized(wanted), seq![], self@.config_dir, r);
                law_sanitized_is_tidy(wanted);
                lemma_encoded_is_trimmed(local_private_key_bytes@);
                law_encoded_injective(
                    base64_bytes(sanitized(wanted).my_private_id),
                    local_private_key_bytes@,
                );
            }
            parts.local_private_key_bytes = local_private_key_bytes;
            self.parts = parts;
        }
        r
    }

    /// Makes a new private id. Nobody knows the old public id any more.
    pub fn create_new_id(&mut self) -> (r: Result<(), String>)
        ensures
            is_new_id_set(old(self)@, r, final(self)@),
    {
        match generate_id_pair() {
            Ok((private_id_bytes, _)) => {
                let ghost private_id = private_id_bytes@;
                let r = self.set_private_id(private_id_bytes);
                assert(is_private_id_set(old(self)@, private_id, r, self@));
                r
            },
            Err(e) => {
                let text = e.message();
                proof {
                    let start = "Failed to generate pkcs8 bytes. "@;
                    assert(text@.take(start.len() as int) =~= start);
                }
                Err(text)
            },
        }
    }

    /// The paths that are shared with a user.
    pub fn get_paths_shared_with(&self, nickname: &str) -> (v: Vec<String>)
        ensures
            v.deep_view() == paths_shared_with(self@.file.shared_files, nickname@),
    {
        let ghost all = self@.file.shared_files;
        let mut v: Vec<String> = Vec::new();
        let mut i: usize = 0;
        assert(v.deep_view() =~= paths_shared_with(all.take(0), nickname@));
        while i < self.parts.config_file.shared_files.len()
            invariant
                i <= self.parts.config_file.shared_files@.len(),
                all == self.parts.config_file.shared_files.deep_view(),
                v.deep_view() == paths_shared_with(all.take(i as int), nickname@),
            decreases self.parts.config_file.shared_files@.len() - i,
        {
            let file = &self.parts.config_file.shared_files[i];
            proof {
                assert(all.take(i + 1).drop_last() =~= all.take(i as int));
                assert(all.take(i + 1).last() == file@);
            }
            if has_text(&file.shared_with, nickname) {
                let ghost before = v;
                let path = file.path.clone();
                v.push(path);
                proof {
                    lemma_deep_push(before, v, path);
                }
            }
            i += 1;
        }
        assert(all.take(i as int) =~= all);
        v
    }

    /// The configuration as it is kept on disk. It has passed all checks.
    pub fn get_config_file(&self) -> (f: ConfigFile)
        ensures
            f@ == self@.file,
            is_valid_state(self@),
    {
        proof {
            use_type_invariant(self);
        }
        self.parts.config_file.clone()
    }
}

proof fn lemma_deep_push<T: DeepView>(before: Vec<T>, after: Vec<T>, x: T)
    requires
        after@ == before@.push(x),
    ensures
        after.deep_view() == before.deep_view().push(x.deep_view()),
{
    assert(after.deep_view() =~= before.deep_view().push(x.deep_view()));
}

/// Whether a path is shared.
pub open spec fn is_shared_path(files: Seq<ShareView>, path: Seq<char>) -> bool {
    exists|i: int| 0 <= i < files.len() && (#[trigger] files[i]).path == path
}

/// The shared files with more files added that are not among them yet.
pub open spec fn with_files(existing: Seq<ShareView>, files: Seq<Seq<char>>) -> Seq<ShareView>
    decreases files.len(),
{
    if files.len() == 0 {
        existing
    } else {
        let before = with_files(existing, files.drop_last());
        let path = native_path(files.last());
        if is_shared_path(existing, path) {
            before
        } else {
            before.push(ShareView { path, shared_with: seq![] })
        }
    }
}

fn has_path(files: &Vec<ConfigSharedFile>, path: &str) -> (r: bool)
    ensures
        r == is_shared_path(files.deep_view(), path@),
{
    let ghost all = files.deep_view();
    let mut i: usize = 0;
    while i < files.len()
        invariant
            i <= files@.len(),
            all == files.deep_view(),
            forall|k: int| 0 <= k < i ==> (#[trigger] all[k]).path != path@,
        decreases files@.len() - i,
    {
        assert(all[i as int] == files@[i as int]@);
        if str_eq(files[i].path.as_str(), path) {
            return true;
        }
        i += 1;
    }
    false
}

/// Index of the first file with a path, from `i` on.
pub open spec fn first_path(files: Seq<ShareView>, path: Seq<char>, i: int) -> int
    decreases files.len() - i,
{
    if i >= files.len() || files[i].path == path {
        i
    } else {
        first_path(files, path, i + 1)
    }
}

/// Finds the first file with a path.
fn find_path(files: &Vec<ConfigSharedFile>, path: &str) -> (r: Option<usize>)
    ensures
        match r {
            Some(i) => i < files@.len() && i == first_path(files.deep_view(), path@, 0)
                && is_shared_path(files.deep_view(), path@),
            None => !is_shared_path(files.deep_view(), path@),
        },
{
    let ghost all = files.deep_view();
    let mut i: usize = 0;
    while i < files.len()
        invariant
            i <= files@.len(),
            all == files.deep_view(),
            forall|k: int| 0 <= k < i ==> (#[trigger] all[k]).path != path@,
            first_path(all, path@, 0) == first_path(all, path@, i as int),
        decreases files@.len() - i,
    {
        assert(all[i as int] == files@[i as int]@);
        if str_eq(files[i].path.as_str(), path) {
            return Some(i);
        }
        i += 1;
    }
    None
}

/// Index of the first user with a nickname, from `i` on.
pub open spec fn first_nickname(users: Seq<UserView>, name: Seq<char>, i: int) -> Option<int>
    decreases users.len() - i,
{
    if i >= users.len() {
        None
    } else if users[i].nickname == name {
        Some(i)
    } else {
        first_nickname(users, name, i + 1)
    }
}

pub fn find_nickname(users: &Vec<SharedUser>, name: &str) -> (r: Option<usize>)
    ensures
        match first_nickname(users.deep_view(), name@, 0) {
            Some(i) => r is Some && r->0 == i && 0 <= i < users@.len(),
            None => r is None,
        },
{
    let ghost all = users.deep_view();
    let mut i: usize = 0;
    while i < users.len()
        invariant
            i <= users@.len(),
            all == users.deep_view(),
            first_nickname(all, name@, 0) == first_nickname(all, name@, i as int),
        decreases users@.len() - i,
    {
        assert(all[i as int] == users@[i as int]@);
        if str_eq(users[i].nickname.as_str(), name) {
            return Some(i);
        }
        i += 1;
    }
    None
}

/// How a flag is written.
pub open spec fn bool_text(b: bool) -> Seq<char> {
    if b {
        "true"@
    } else {
        "false"@
    }
}

pub(crate) fn has_text(texts: &Vec<String>, text: &str) -> (r: bool)
    ensures
        r == texts.deep_view().contains(text@),
{
    let ghost all = texts.deep_view();
    let mut i: usize = 0;
    while i < texts.len()
        invariant
            i <= texts@.len(),
            all == texts.deep_view(),
            forall|k: int| 0 <= k < i ==> #[trigger] all[k] != text@,
        decreases texts@.len() - i,
    {
        assert(all[i as int] == texts@[i as int]@);
        if str_eq(texts[i].as_str(), text) {
            return true;
        }
        i += 1;
    }
    false
}

/// The shared files with file `i` shared with one more.
pub open spec fn with_sharer(files: Seq<ShareView>, i: int, name: Seq<char>) -> Seq<ShareView> {
    files.update(
        i,
        ShareView { path: files[i].path, shared_with: files[i].shared_with.push(name) },
    )
}

fn add_sharer(files: &Vec<ConfigSharedFile>, i: usize, name: &str) -> (r: Vec<ConfigSharedFile>)
    requires
        i < files@.len(),
    ensures
        r.deep_view() == with_sharer(files.deep_view(), i as int, name@),
{
    let mut r = clone_shares(files);
    let mut shared_with = clone_texts(&files[i].shared_with);
    let ghost before = shared_with;
    let last = name.to_owned();
    shared_with.push(last);
    proof {
        lemma_deep_push(before, shared_with, last);
    }
    let file = ConfigSharedFile { path: files[i].path.clone(), shared_with };
    assert(files.deep_view()[i as int] == files@[i as int]@);
    let ghost copy = r;
    assert(copy.deep_view().len() == copy@.len());
    r.set(i, file);
    assert(r.deep_view() =~= copy.deep_view().update(i as int, file@));
    r
}

/// What is left of a sequence.
pub open spec fn kept<T>(s: Seq<T>, p: spec_fn(T) -> bool) -> Seq<T>
    decreases s.len(),
{
    if s.len() == 0 {
        s
    } else if p(s.last()) {
        kept(s.drop_last(), p).push(s.last())
    } else {
        kept(s.drop_last(), p)
    }
}

pub open spec fn other_path(path: Seq<char>) -> spec_fn(ShareView) -> bool {
    |f: ShareView| f.path != path
}

pub open spec fn other_text(text: Seq<char>) -> spec_fn(Seq<char>) -> bool {
    |t: Seq<char>| t != text
}

pub open spec fn other_nickname(name: Seq<char>) -> spec_fn(UserView) -> bool {
    |u: UserView| u.nickname != name
}

/// The shared files but for those with a path.
pub open spec fn without_path(files: Seq<ShareView>, path: Seq<char>) -> Seq<ShareView> {
    kept(files, other_path(path))
}

fn drop_path(files: &Vec<ConfigSharedFile>, path: &str) -> (r: Vec<ConfigSharedFile>)
    ensures
        r.deep_view() == without_path(files.deep_view(), path@),
{
    let ghost all = files.deep_view();
    let mut r: Vec<ConfigSharedFile> = Vec::new();
    let mut i: usize = 0;
    assert(r.deep_view() =~= kept(all.take(0), other_path(path@)));
    while i < files.len()
        invariant
            i <= files@.len(),
            all == files.deep_view(),
            r.deep_view() == kept(all.take(i as int), other_path(path@)),
        decreases files@.len() - i,
    {
        proof {
            assert(all.take(i + 1).drop_last() =~= all.take(i as int));
            assert(all.take(i + 1).last() == files@[i as int]@);
        }
        if !str_eq(files[i].path.as_str(), path) {
            let ghost before = r;
            let file = files[i].clone();
            r.push(file);
            proof {
                lemma_deep_push(before, r, file);
            }
        }
        i += 1;
    }
    assert(all.take(i as int) =~= all);
    r
}

fn drop_text(texts: &Vec<String>, text: &str) -> (r: Vec<String>)
    ensures
        r.deep_view() == kept(texts.deep_view(), other_text(text@)),
{
    let ghost all = texts.deep_view();
    let mut r: Vec<String> = Vec::new();
    let mut i: usize = 0;
    assert(r.deep_view() =~= kept(all.take(0), other_text(text@)));
    while i < texts.len()
        invariant
            i <= texts@.len(),
            all == texts.deep_view(),
            r.deep_view() == kept(all.take(i as int), other_text(text@)),
        decreases texts@.len() - i,
    {
        proof {
            assert(all.take(i + 1).drop_last() =~= all.take(i as int));
            assert(all.take(i + 1).last() == texts@[i as int]@);
        }
        if !str_eq(texts[i].as_str(), text) {
            let ghost before = r;
            let t = texts[i].clone();
            r.push(t);
            proof {
                lemma_deep_push(before, r, t);
            }
        }
        i += 1;
    }
    assert(all.take(i as int) =~= all);
    r
}

/// The shared files, those with a path (or all) no longer shared with somebody.
pub open spec fn without_sharer(
    files: Seq<ShareView>,
    path: Option<Seq<char>>,
    name: Seq<char>,
) -> Seq<ShareView> {
    Seq::new(
        files.len(),
        |i: int|
            if path is None || path->0 == files[i].path {
                ShareView {
                    path: files[i].path,
                    shared_with: kept(files[i].shared_with, other_text(name)),
                }
            } else {
                files[i]
            },
    )
}

/// The text that may be there.
pub open spec fn opt_str(s: Option<&str>) -> Option<Seq<char>> {
    match s {
        Some(t) => Some(t@),
        None => None,
    }
}

fn drop_sharer(files: &Vec<ConfigSharedFile>, path: Option<&str>, name: &str) -> (r: Vec<
    ConfigSharedFile,
>)
    ensures
        r.deep_view() == without_sharer(files.deep_view(), opt_str(path), name@),
{
    let ghost all = files.deep_view();
    let ghost target = without_sharer(all, opt_str(path), name@);
    let mut r: Vec<ConfigSharedFile> = Vec::new();
    let mut i: usize = 0;
    while i < files.len()
        invariant
            i <= files@.len(),
            all == files.deep_view(),
            target == without_sharer(all, opt_str(path), name@),
            r@.len() == i,
            forall|k: int| 0 <= k < i ==> (#[trigger] r@[k])@ == target[k],
        decreases files@.len() - i,
    {
        assert(all[i as int] == files@[i as int]@);
        let here = match path {
            None => true,
            Some(p) => str_eq(p, files[i].path.as_str()),
        };
        if here {
            r.push(
                ConfigSharedFile {
                    path: files[i].path.clone(),
                    shared_with: drop_text(&files[i].shared_with, name),
                },
            );
        } else {
            r.push(files[i].clone());
        }
        i += 1;
    }
    assert(r.deep_view() =~= target);
    r
}

/// The users but for those with a nickname.
pub open spec fn without_nickname(users: Seq<UserView>, name: Seq<char>) -> Seq<UserView> {
    kept(users, other_nickname(name))
}

fn drop_nickname(users: &Vec<SharedUser>, name: &str) -> (r: Vec<SharedUser>)
    ensures
        r.deep_view() == without_nickname(users.deep_view(), name@),
{
    let ghost all = users.deep_view();
    let mut r: Vec<SharedUser> = Vec::new();
    let mut i: usize = 0;
    assert(r.deep_view() =~= kept(all.take(0), other_nickname(name@)));
    while i < users.len()
        invariant
            i <= users@.len(),
            all == users.deep_view(),
            r.deep_view() == kept(all.take(i as int), other_nickname(name@)),
        decreases users@.len() - i,
    {
        proof {
            assert(all.take(i + 1).drop_last() =~= all.take(i as int));
            assert(all.take(i + 1).last() == users@[i as int]@);
        }
        if !str_eq(users[i].nickname.as_str(), name) {
            let ghost before = r;
            let user = users[i].clone();
            r.push(user);
            proof {
                lemma_deep_push(before, r, user);
            }
        }
        i += 1;
    }
    assert(all.take(i as int) =~= all);
    r
}

/// What is left are the elements that had the property.
pub proof fn lemma_kept<T>(s: Seq<T>, p: spec_fn(T) -> bool, x: T)
    ensures
        kept(s, p).contains(x) <==> s.contains(x) && p(x),
    decreases s.len(),
{
    if s.len() > 0 {
        let t = s.drop_last();
        lemma_kept(t, p, x);
        assert(s.contains(x) <==> t.contains(x) || s.last() == x) by {
            if s.contains(x) && s.last() != x {
                let i = choose|i: int| 0 <= i < s.len() && s[i] == x;
                assert(t[i] == x);
            }
            if t.contains(x) {
                let i = choose|i: int| 0 <= i < t.len() && t[i] == x;
                assert(s[i] == x);
            }
            assert(s[s.len() - 1] == s.last());
        }
        if p(s.last()) {
            let k = kept(t, p);
            let r = k.push(s.last());
            assert(r.contains(x) <==> k.contains(x) || s.last() == x) by {
                if r.contains(x) && s.last() != x {
                    let i = choose|i: int| 0 <= i < r.len() && r[i] == x;
                    assert(k[i] == x);
                }
                if k.contains(x) {
                    let i = choose|i: int| 0 <= i < k.len() && k[i] == x;
                    assert(r[i] == x);
                }
                assert(r[k.len() as int] == s.last());
            }
        }
    }
}

/// Where a tidy configuration loses a user, tidying it does not bring the user back.
proof fn lemma_user_is_gone(c: ConfigView, name: Seq<char>)
    requires
        is_tidy(c),
    ensures
        ({
            let s = sanitized(
                ConfigView {
                    shared_users: without_nickname(c.shared_users, name),
                    shared_files: without_sharer(c.shared_files, None, name),
                    ..c
                },
            );
            &&& !is_nickname(s.shared_users, name)
            &&& forall|i: int|
                0 <= i < s.shared_files.len() ==> !(
                #[trigger] s.shared_files[i]).shared_with.contains(name)
        }),
{
    let users = without_nickname(c.shared_users, name);
    let files = without_sharer(c.shared_files, None, name);
    let s = sanitized(ConfigView { shared_users: users, shared_files: files, ..c });
    if is_nickname(s.shared_users, name) {
        let i = choose|i: int|
            0 <= i < s.shared_users.len() && (#[trigger] s.shared_users[i]).nickname == name;
        let sorted = sorted_by(users, nickname_key());
        let u = sorted[i];
        assert(sorted.contains(u));
        lemma_sorted_by_contains(users, nickname_key(), u);
        lemma_kept(c.shared_users, other_nickname(name), u);
        let j = choose|j: int| 0 <= j < c.shared_users.len() && c.shared_users[j] == u;
        assert(tidy_user(c.shared_users[j]) == c.shared_users[j]);
        assert(u.nickname == name);
    }
    assert forall|i: int| 0 <= i < s.shared_files.len() implies !(
    #[trigger] s.shared_files[i]).shared_with.contains(name) by {
        let names = files[i].shared_with;
        lemma_sorted_by_contains(tidy_texts(names), text_key(), name);
        if tidy_texts(names).contains(name) {
            let k = choose|k: int| 0 <= k < names.len() && tidy_texts(names)[k] == name;
            assert(names.contains(names[k]));
            lemma_kept(c.shared_files[i].shared_with, other_text(name), names[k]);
            let before = c.shared_files[i].shared_with;
            let j = choose|j: int| 0 <= j < before.len() && before[j] == names[k];
            assert(trimmed(c.shared_files[i].shared_with[j]) == before[j]);
        }
    }
}

/// The paths of the files that are shared with somebody.
pub open spec fn paths_shared_with(files: Seq<ShareView>, name: Seq<char>) -> Seq<Seq<char>>
    decreases files.len(),
{
    if files.len() == 0 {
        seq![]
    } else if files.last().shared_with.contains(name) {
        paths_shared_with(files.drop_last(), name).push(files.last().path)
    } else {
        paths_shared_with(files.drop_last(), name)
    }
}

impl Clone for Config {
    fn clone(&self) -> (r: Self)
        ensures
            r@ == self@,
    {
        proof {
            use_type_invariant(self);
        }
        Config { parts: self.parts.clone() }
    }
}

/// The ids of the user whose configuration it is.
#[derive(Debug)]
pub struct LocalKeyPair {
    pub private_id: Vec<u8>,
    pub public_id: Vec<u8>,
}

/// A base64 text has no white space around it.
proof fn lemma_encoded_is_trimmed(b: Seq<u8>)
    ensures
        trimmed(encoded(b)) == encoded(b),
{
    lemma_encoded_chars(b);
    let e = encoded(b);
    if e.len() > 0 {
        assert('+' <= e[0] <= 'z');
        assert('+' <= e[e.len() - 1] <= 'z');
    }
}

/// The report of a path that is shared but cannot be looked up.
pub fn unable_to_share(path: &str, error: &str) -> (m: AppAggMessage)
    ensures
        m@ == ReportView::Log(
            LogLevel::Error,
            "Path unable to share. Fix issue or stop sharing file. '"@ + path@ + "'. "@ + error@,
        ),
{
    let mut text = cat3("Path unable to share. Fix issue or stop sharing file. '", path, "'. ");
    text.push_str(error);
    AppAggMessage::LogError(text)
}

/// The error of a configuration that is not there.
pub fn missing_config_error(config_path: &str) -> (s: String)
    ensures
        s@ == "config.json does not exist at '"@ + config_path@ + "'"@,
{
    cat3("config.json does not exist at '", config_path, "'")
}

/// The error of a configuration that cannot be read.
pub fn invalid_config_error(config_path: &str, error: &str) -> (s: String)
    ensures
        s@ == "config.json is invalid '"@ + config_path@ + "' -- "@ + error@,
{
    let mut s = cat3("config.json is invalid '", config_path, "' -- ");
    s.push_str(error);
    s
}

/// The configuration that the program starts with: nothing is shared with anybody yet.
pub open spec fn new_config_view(private_id: Seq<u8>) -> ConfigView {
    ConfigView {
        my_private_id: encoded(private_id),
        shared_users: seq![],
        shared_files: seq![],
        sharing_port: "7878"@,
    }
}

proof fn lemma_new_config(private_id: Seq<u8>)
    ensures
        sanitized(new_config_view(private_id)) == new_config_view(private_id),
        is_i32("7878"@),
        base64_bytes(encoded(private_id)) == private_id,
{
    lemma_encoded_is_trimmed(private_id);
    reveal_strlit("7878");
    let port = "7878"@;
    assert(trimmed(port) == port);
    assert(is_digits(port));
    reveal_with_fuel(digits_value, 5);
    assert(digits_value(port.drop_last().drop_last().drop_last()) == 7) by {
        assert(port.drop_last().drop_last().drop_last().drop_last() =~= seq![]);
    }
    assert(digits_value(port.drop_last().drop_last()) == 78);
    assert(digits_value(port.drop_last()) == 787);
    assert(digits_value(port) == 7878);
    law_encoded_injective(base64_bytes(encoded(private_id)), private_id);
    let c = new_config_view(private_id);
    assert(sanitized(c).shared_users =~= c.shared_users);
    assert(sanitized(c).shared_files =~= c.shared_files);
}

/// The configuration that the program starts with, from a freshly made identity.
pub fn new_config_from(generated: Result<(Vec<u8>, Vec<u8>), IdPairError>) -> (r: Result<
    ConfigFile,
    String,
>)
    ensures
        match generated {
            Err(e) => r is Err && r->Err_0@ == e.message_text(),
            Ok(pair) => match ed25519_public_key(pair.0@) {
                Ok(_) => r is Ok && r->Ok_0@ == new_config_view(pair.0@),
                Err(e) => r is Err && r->Err_0@ == "Failed to load local key pair '"@ + e + "'."@,
            },
        },
{
    let private_id_bytes = match generated {
        Ok((private_id_bytes, _)) => private_id_bytes,
        Err(e) => return Err(e.message()),
    };
    let ghost private_id = private_id_bytes@;
    let mut config_file = ConfigFile {
        my_private_id: get_base64_str_from_bytes(private_id_bytes),
        shared_users: Vec::new(),
        shared_files: Vec::new(),
        sharing_port: "7878".to_owned(),
    };
    proof {
        assert(config_file@.shared_users =~= seq![]);
        assert(config_file@.shared_files =~= seq![]);
        lemma_new_config(private_id);
        assert(encoded(private_id) == config_file@.my_private_id);
        assert(is_base64(encoded(private_id)));
    }
    let none: Vec<RejectedAddress> = Vec::new();
    let r = verify_config(&mut config_file, &none, "");
    match r {
        Ok(()) => Ok(config_file),
        Err(e) => Err(e),
    }
}

/// A configuration to start with, with a new identity.
pub fn create_new_config() -> (r: Result<ConfigFile, String>)
    ensures
        r matches Ok(f) ==> exists|private_id: Seq<u8>|
            ed25519_public_key(private_id) is Ok && f@ == #[trigger] new_config_view(private_id),
        r matches Err(e) ==> has_prefix(e@, "Failed to generate pkcs8 bytes. "@),
{
    let generated = generate_id_pair();
    let ghost pair = generated;
    let r = new_config_from(generated);
    proof {
        if r is Ok {
            assert(r->Ok_0@ == new_config_view(pair->Ok_0.0@));
        } else {
            let start = "Failed to generate pkcs8 bytes. "@;
            assert(r->Err_0@.take(start.len() as int) =~= start);
        }
    }
    r
}

proof fn lemma_kept_is_filter<T>(s: Seq<T>, p: spec_fn(T) -> bool)
    ensures
        kept(s, p) == s.filter(p),
    decreases s.len(),
{
    reveal(Seq::filter);
    if s.len() > 0 {
        lemma_kept_is_filter(s.drop_last(), p);
    }
}

/// To stop sharing with a user changes no path and nothing else: file `i` is shared with someone
/// afterwards exactly where it was before and not where this is the user and the file is meant. So
/// nobody else loses a file, and whom it is shared with stays in order.
pub proof fn law_sharing_ends_for_one(
    files: Seq<ShareView>,
    path: Option<Seq<char>>,
    name: Seq<char>,
    i: int,
    user: Seq<char>,
)
    requires
        0 <= i < files.len(),
    ensures
        ({
            let after = without_sharer(files, path, name);
            let is_meant = path is None || path->0 == files[i].path;
            &&& after.len() == files.len()
            &&& after[i].path == files[i].path
            &&& after[i].shared_with.contains(user) <==> files[i].shared_with.contains(user) && !(
            is_meant && user == name)
            &&& !is_meant ==> after[i].shared_with == files[i].shared_with
            &&& is_meant ==> after[i].shared_with == files[i].shared_with.filter(
                |t: Seq<char>| t != name,
            )
        }),
{
    lemma_kept(files[i].shared_with, other_text(name), user);
    lemma_kept_is_filter(files[i].shared_with, other_text(name));
    assert(other_text(name) =~= |t: Seq<char>| t != name);
}

/// A file that is no longer shared is gone, and all others stay in order.
pub proof fn law_removed_path_is_gone(files: Seq<ShareView>, path: Seq<char>, f: ShareView)
    ensures
        without_path(files, path).contains(f) <==> files.contains(f) && f.path != path,
        without_path(files, path) == files.filter(|f: ShareView| f.path != path),
        !is_shared_path(without_path(files, path), path),
{
    lemma_kept(files, other_path(path), f);
    lemma_kept_is_filter(files, other_path(path));
    assert(other_path(path) =~= |f: ShareView| f.path != path);
    let after = without_path(files, path);
    if is_shared_path(after, path) {
        let i = choose|i: int| 0 <= i < after.len() && (#[trigger] after[i]).path == path;
        lemma_kept(files, other_path(path), after[i]);
        assert(after.contains(after[i]));
    }
}

/// A removed user is gone, and all others stay in order.
pub proof fn law_removed_nickname_is_gone(users: Seq<UserView>, name: Seq<char>, u: UserView)
    ensures
        without_nickname(users, name).contains(u) <==> users.contains(u) && u.nickname != name,
        without_nickname(users, name) == users.filter(|u: UserView| u.nickname != name),
{
    lemma_kept(users, other_nickname(name), u);
    lemma_kept_is_filter(users, other_nickname(name));
    assert(other_nickname(name) =~= |u: UserView| u.nickname != name);
}

/// To share a file with one more user changes no path, and nothing of other files: afterwards it
/// is shared with those it was shared with and with this one.
pub proof fn law_sharing_starts_for_one(
    files: Seq<ShareView>,
    at: int,
    name: Seq<char>,
    i: int,
    user: Seq<char>,
)
    requires
        0 <= at < files.len(),
        0 <= i < files.len(),
    ensures
        ({
            let after = with_sharer(files, at, name);
            &&& after.len() == files.len()
            &&& after[i].path == files[i].path
            &&& after[i].shared_with.contains(user) <==> files[i].shared_with.contains(user) || (i
                == at && user == name)
            &&& i != at ==> after[i] == files[i]
        }),
{
    let names = files[i].shared_with;
    if i == at {
        let more = names.push(name);
        if names.contains(user) {
            let k = choose|k: int| 0 <= k < names.len() && names[k] == user;
            assert(more[k] == user);
        }
        assert(more[names.len() as int] == name);
        if more.contains(user) && user != name {
            let k = choose|k: int| 0 <= k < more.len() && more[k] == user;
            assert(names[k] == user);
        }
    }
}

/// Adding files leaves what is shared already as it is and in front. Every path that was not shared
/// is shared afterwards, as the system writes it and with nobody yet; nothing else is.
pub proof fn law_added_files_are_shared(existing: Seq<ShareView>, files: Seq<Seq<char>>)
    ensures
        existing.len() <= with_files(existing, files).len(),
        with_files(existing, files).take(existing.len() as int) == existing,
        forall|i: int|
            #![trigger files[i]]
            0 <= i < files.len() ==> is_shared_path(
                with_files(existing, files),
                native_path(files[i]),
            ),
        forall|k: int|
            #![trigger with_files(existing, files)[k]]
            existing.len() <= k < with_files(existing, files).len() ==> {
                let f = with_files(existing, files)[k];
                &&& f.shared_with.len() == 0
                &&& !is_shared_path(existing, f.path)
                &&& exists|i: int| 0 <= i < files.len() && f.path == native_path(#[trigger] files[i])
            },
    decreases files.len(),
{
    if files.len() > 0 {
        let front = files.drop_last();
        law_added_files_are_shared(existing, front);
        let before = with_files(existing, front);
        let all = with_files(existing, files);
        let path = native_path(files.last());
        assert(all.take(existing.len() as int) =~= existing);
        assert forall|i: int| #![trigger files[i]] 0 <= i < files.len() implies is_shared_path(
            all,
            native_path(files[i]),
        ) by {
            if i < front.len() {
                assert(front[i] == files[i]);
                let k = choose|k: int|
                    0 <= k < before.len() && (#[trigger] before[k]).path == native_path(files[i]);
                assert(all[k] == before[k]);
            } else if is_shared_path(existing, path) {
                let k = choose|k: int|
                    0 <= k < existing.len() && (#[trigger] existing[k]).path == path;
                assert(before.take(existing.len() as int)[k] == before[k]);
                assert(all[k].path == path);
            } else {
                assert(all[before.len() as int].path == path);
            }
        }
        assert forall|k: int| #![trigger all[k]] existing.len() <= k < all.len() implies {
            &&& all[k].shared_with.len() == 0
            &&& !is_shared_path(existing, all[k].path)
            &&& exists|i: int| 0 <= i < files.len() && all[k].path == native_path(#[trigger] files[i])
        } by {
            if k < before.len() {
                assert(all[k] == before[k]);
                let i = choose|i: int|
                    0 <= i < front.len() && before[k].path == native_path(#[trigger] front[i]);
                assert(files[i] == front[i]);
            } else {
                assert(files[files.len() - 1] == files.last());
            }
        }
    } else {
        assert(existing.take(existing.len() as int) =~= existing);
    }
}

/// The paths that are shared with somebody are those of the files that are, in order.
pub proof fn law_shared_paths_are_found(files: Seq<ShareView>, name: Seq<char>, path: Seq<char>)
    ensures
        paths_shared_with(files, name).contains(path) <==> exists|i: int|
            #![trigger files[i]]
            0 <= i < files.len() && files[i].path == path && files[i].shared_with.contains(name),
        paths_shared_with(files, name) == files.filter(
            |f: ShareView| f.shared_with.contains(name),
        ).map_values(|f: ShareView| f.path),
    decreases files.len(),
{
    reveal(Seq::filter);
    let p = |f: ShareView| f.shared_with.contains(name);
    let all = paths_shared_with(files, name);
    if files.len() > 0 {
        let front = files.drop_last();
        let before = paths_shared_with(front, name);
        let last = files.last();
        law_shared_paths_are_found(front, name, path);
        assert(all =~= files.filter(p).map_values(|f: ShareView| f.path));
        if last.shared_with.contains(name) {
            assert(all =~= before.push(last.path));
            assert(all[before.len() as int] == last.path);
            if before.contains(path) {
                let k = choose|k: int| 0 <= k < before.len() && before[k] == path;
                assert(all[k] == path);
            }
            if all.contains(path) && path != last.path {
                let k = choose|k: int| 0 <= k < all.len() && all[k] == path;
                assert(before[k] == path);
            }
        }
        assert(files[files.len() - 1] == last);
        if exists|i: int|
            #![trigger front[i]]
            0 <= i < front.len() && front[i].path == path && front[i].shared_with.contains(name) {
            let i = choose|i: int|
                #![trigger front[i]]
                0 <= i < front.len() && front[i].path == path && front[i].shared_with.contains(
                    name,
                );
            assert(files[i] == front[i]);
        }
        if exists|i: int|
            #![trigger files[i]]
            0 <= i < files.len() && files[i].path == path && files[i].shared_with.contains(name) {
            let i = choose|i: int|
                #![trigger files[i]]
                0 <= i < files.len() && files[i].path == path && files[i].shared_with.contains(
                    name,
                );
            if i < front.len() {
                assert(front[i] == files[i]);
            }
        }
    } else {
        assert(all =~= files.filter(p).map_values(|f: ShareView| f.path));
    }
}

/// The first user with a nickname is found exactly where there is one.
pub proof fn law_first_nickname(users: Seq<UserView>, name: Seq<char>, from: int)
    requires
        0 <= from <= users.len(),
    ensures
        match first_nickname(users, name, from) {
            Some(i) => from <= i < users.len() && users[i].nickname == name && forall|k: int|
                from <= k < i ==> (#[trigger] users[k]).nickname != name,
            None => forall|k: int| from <= k < users.len() ==> (#[trigger] users[k]).nickname != name,
        },
    decreases users.len() - from,
{
    if from < users.len() {
        law_first_nickname(users, name, from + 1);
    }
}

/// The first file with a path is found exactly where there is one.
pub proof fn law_first_path(files: Seq<ShareView>, path: Seq<char>, from: int)
    requires
        0 <= from <= files.len(),
    ensures
        from <= first_path(files, path, from) <= files.len(),
        first_path(files, path, from) < files.len() ==> files[first_path(files, path, from)].path
            == path,
        forall|k: int|
            from <= k < first_path(files, path, from) ==> (#[trigger] files[k]).path != path,
    decreases files.len() - from,
{
    if from < files.len() {
        law_first_path(files, path, from + 1);
    }
}

/// A path as the system writes it has no slashes left; one without slashes is left as it is, and
/// what was dropped in is written as if it stood there without the words in front.
pub proof fn law_native_path(path: Seq<char>)
    ensures
        !native_path(path).contains('/'),
        !path.contains('/') ==> native_path(path) == path,
        !has_prefix(path, "file://"@) ==> native_path("file://"@ + path) == native_path(path),
{
    reveal_strlit("file://");
    let p = native_path(path);
    if p.contains('/') {
        let i = choose|i: int| 0 <= i < p.len() && p[i] == '/';
        assert(p[i] != '/');
    }
    if !path.contains('/') {
        if has_prefix(path, "file://"@) {
            assert(path.take(7)[5] == '/');
            assert(path[5] == '/');
        }
        assert(p =~= path) by {
            assert forall|i: int| 0 <= i < path.len() implies path[i] != '/' by {
                assert(path.contains(path[i]));
            }
        }
    }
    let longer = "file://"@ + path;
    assert(longer.take(7) =~= "file://"@);
    assert(longer.skip(7) =~= path);
}

/// Tidying a configuration keeps every user, with the texts trimmed and whether the user is
/// allowed, and adds none.
pub proof fn law_tidying_keeps_users(c: ConfigView, v: UserView)
    ensures
        sanitized(c).shared_users.len() == c.shared_users.len(),
        sanitized(c).shared_users.contains(v) <==> exists|k: int|
            #![trigger c.shared_users[k]]
            0 <= k < c.shared_users.len() && ({
                let u = c.shared_users[k];
                &&& v.nickname == trimmed(u.nickname)
                &&& v.public_id == trimmed(u.public_id)
                &&& v.ip == trimmed(u.ip)
                &&& v.port == trimmed(u.port)
                &&& v.allowed == u.allowed
            }),
{
    let users = c.shared_users;
    let sorted = sorted_by(users, nickname_key());
    let tidy = sanitized(c).shared_users;
    law_sorted_by(users, nickname_key());
    if tidy.contains(v) {
        let i = choose|i: int| 0 <= i < tidy.len() && tidy[i] == v;
        assert(sorted.contains(sorted[i]));
        lemma_sorted_by_contains(users, nickname_key(), sorted[i]);
        let k = choose|k: int| 0 <= k < users.len() && users[k] == sorted[i];
        assert(tidy_user(users[k]) == v);
        assert(v.nickname == trimmed(users[k].nickname));
    }
    if exists|k: int|
        #![trigger users[k]]
        0 <= k < users.len() && tidy_user(users[k]) == v {
        let k = choose|k: int| #![trigger users[k]] 0 <= k < users.len() && tidy_user(users[k]) == v;
        assert(users.contains(users[k]));
        lemma_sorted_by_contains(users, nickname_key(), users[k]);
        let i = choose|i: int| 0 <= i < sorted.len() && sorted[i] == users[k];
        assert(tidy[i] == v);
    }
    if exists|k: int|
        #![trigger c.shared_users[k]]
        0 <= k < c.shared_users.len() && ({
            let u = c.shared_users[k];
            &&& v.nickname == trimmed(u.nickname)
            &&& v.public_id == trimmed(u.public_id)
            &&& v.ip == trimmed(u.ip)
            &&& v.port == trimmed(u.port)
            &&& v.allowed == u.allowed
        }) {
        let k = choose|k: int|
            #![trigger c.shared_users[k]]
            0 <= k < c.shared_users.len() && ({
                let u = c.shared_users[k];
                &&& v.nickname == trimmed(u.nickname)
                &&& v.public_id == trimmed(u.public_id)
                &&& v.ip == trimmed(u.ip)
                &&& v.port == trimmed(u.port)
                &&& v.allowed == u.allowed
            });
        assert(tidy_user(users[k]) == v);
    }
}

/// Tidying a configuration keeps every file in its place, with its path as the system writes it,
/// and shares it with the same users, whose names are trimmed. The port and the private id are
/// trimmed.
pub proof fn law_tidying_keeps_files(c: ConfigView, i: int, name: Seq<char>)
    requires
        0 <= i < c.shared_files.len(),
    ensures
        sanitized(c).my_private_id == trimmed(c.my_private_id),
        sanitized(c).sharing_port == trimmed(c.sharing_port),
        sanitized(c).shared_files.len() == c.shared_files.len(),
        sanitized(c).shared_files[i].path == native_path(trimmed(c.shared_files[i].path)),
        sanitized(c).shared_files[i].shared_with.len() == c.shared_files[i].shared_with.len(),
        sanitized(c).shared_files[i].shared_with.contains(name) <==> exists|k: int|
            0 <= k < c.shared_files[i].shared_with.len() && trimmed(
                #[trigger] c.shared_files[i].shared_with[k],
            ) == name,
{
    let names = c.shared_files[i].shared_with;
    let tidy = tidy_texts(names);
    law_sorted_by(tidy, text_key());
    lemma_sorted_by_contains(tidy, text_key(), name);
    if tidy.contains(name) {
        let k = choose|k: int| 0 <= k < tidy.len() && tidy[k] == name;
        assert(trimmed(names[k]) == name);
    }
    if exists|k: int| 0 <= k < names.len() && trimmed(#[trigger] names[k]) == name {
        let k = choose|k: int| 0 <= k < names.len() && trimmed(#[trigger] names[k]) == name;
        assert(tidy[k] == name);
    }
}

/// Where a configuration is tidy already, tidying it again keeps its users.
proof fn lemma_tidy_users_stay(c: ConfigView, v: UserView)
    requires
        forall|k: int|
            0 <= k < c.shared_users.len() ==> tidy_user(#[trigger] c.shared_users[k])
                == c.shared_users[k],
    ensures
        sanitized(c).shared_users.contains(v) <==> c.shared_users.contains(v),
{
    law_tidying_keeps_users(c, v);
    let users = c.shared_users;
    if users.contains(v) {
        let k = choose|k: int| 0 <= k < users.len() && users[k] == v;
        assert(tidy_user(users[k]) == v);
    }
    if sanitized(c).shared_users.contains(v) {
        let k = choose|k: int|
            #![trigger users[k]]
            0 <= k < users.len() && tidy_user(users[k]) == v;
        assert(tidy_user(users[k]) == users[k]);
        assert(users[k] == v);
    }
}

/// Where a configuration is tidy already, tidying it again keeps whom its files are shared with.
proof fn lemma_tidy_sharers_stay(c: ConfigView, i: int, name: Seq<char>)
    requires
        0 <= i < c.shared_files.len(),
        forall|k: int|
            0 <= k < c.shared_files[i].shared_with.len() ==> trimmed(
                #[trigger] c.shared_files[i].shared_with[k],
            ) == c.shared_files[i].shared_with[k],
    ensures
        sanitized(c).shared_files[i].shared_with.contains(name)
            <==> c.shared_files[i].shared_with.contains(name),
{
    law_tidying_keeps_files(c, i, name);
    let names = c.shared_files[i].shared_with;
    if names.contains(name) {
        let k = choose|k: int| 0 <= k < names.len() && names[k] == name;
        assert(trimmed(c.shared_files[i].shared_with[k]) == name);
    }
    if sanitized(c).shared_files[i].shared_with.contains(name) {
        let k = choose|k: int|
            0 <= k < c.shared_files[i].shared_with.len() && trimmed(
                #[trigger] c.shared_files[i].shared_with[k],
            ) == name;
        assert(names[k] == name);
    }
}

/// A change that is refused leaves the configuration as it was; one that is stored leaves the key,
/// the directory, and whether it is the first start.
pub proof fn law_stored_or_unchanged(
    before: ConfigState,
    wanted: ConfigView,
    rejected: Seq<RejectionView>,
    r: Result<(), String>,
    after: ConfigState,
)
    requires
        is_stored(before, wanted, rejected, r, after),
    ensures
        r is Err ==> after == before,
        after.private_key == before.private_key,
        after.config_dir == before.config_dir,
        after.first_start == before.first_start,
        r is Ok ==> is_sound(after.file, before.config_dir),
{
    if r is Ok {
        law_passed_is_sound(sanitized(wanted), rejected, before.config_dir, r);
    }
}

/// Once a user was taken off a file, that file is shared with all others it was shared with, every
/// other file with whom it was shared with, and no user is gone.
pub proof fn law_only_one_user_loses_one_file(
    before: ConfigState,
    nickname: Seq<char>,
    file_path: Seq<char>,
    r: Result<(), String>,
    after: ConfigState,
    i: int,
    name: Seq<char>,
    user: UserView,
)
    requires
        is_valid_state(before),
        is_sharer_removed(before, nickname, file_path, r, after),
        r is Ok,
        0 <= i < before.file.shared_files.len(),
    ensures
        after.file.shared_files.len() == before.file.shared_files.len(),
        after.file.shared_files[i].path == native_path(trimmed(before.file.shared_files[i].path)),
        after.file.shared_files[i].shared_with.contains(name)
            <==> before.file.shared_files[i].shared_with.contains(name) && !(name == nickname
            && before.file.shared_files[i].path == file_path),
        after.file.shared_users.contains(user) <==> before.file.shared_users.contains(user),
        after.file.sharing_port == before.file.sharing_port,
        after.file.my_private_id == before.file.my_private_id,
{
    let files = before.file.shared_files;
    let wanted = ConfigView {
        shared_files: without_sharer(files, Some(file_path), nickname),
        ..before.file
    };
    law_sharing_ends_for_one(files, Some(file_path), nickname, i, name);
    let names = wanted.shared_files[i].shared_with;
    assert forall|k: int| 0 <= k < names.len() implies trimmed(
        #[trigger] wanted.shared_files[i].shared_with[k],
    ) == names[k] by {
        law_sharing_ends_for_one(files, Some(file_path), nickname, i, names[k]);
        assert(names.contains(names[k]));
        let old_names = files[i].shared_with;
        let j = choose|j: int| 0 <= j < old_names.len() && old_names[j] == names[k];
        assert(trimmed(before.file.shared_files[i].shared_with[j]) == old_names[j]);
    }
    lemma_tidy_sharers_stay(wanted, i, name);
    lemma_tidy_users_stay(wanted, user);
    law_tidying_keeps_files(wanted, i, name);
}

/// Once a file is shared with one more user, it is shared with this one and with all it was shared
/// with, every other file with whom it was shared with, and no user is gone.
pub proof fn law_one_user_gets_one_file(
    before: ConfigState,
    nickname: Seq<char>,
    file_path: Seq<char>,
    r: Result<(), String>,
    after: ConfigState,
    i: int,
    name: Seq<char>,
    user: UserView,
)
    requires
        is_valid_state(before),
        is_sharer_added(before, nickname, file_path, r, after),
        0 <= i < before.file.shared_files.len(),
    ensures
        r is Err ==> after == before,
        r is Ok ==> is_nickname(before.file.shared_users, nickname) && is_shared_path(
            before.file.shared_files,
            file_path,
        ),
        r is Ok ==> after.file.shared_files.len() == before.file.shared_files.len(),
        r is Ok ==> (after.file.shared_files[i].shared_with.contains(name)
            <==> before.file.shared_files[i].shared_with.contains(name) || (name == nickname
            && before.file.shared_files[i].path == file_path)),
        r is Ok ==> (after.file.shared_users.contains(user) <==> before.file.shared_users.contains(
            user,
        )),
{
    let files = before.file.shared_files;
    if r is Ok {
        law_first_path(files, file_path, 0);
        let at = first_path(files, file_path, 0);
        let j = choose|j: int| 0 <= j < files.len() && (#[trigger] files[j]).path == file_path;
        assert(at <= j);
        assert(files[i].path == file_path ==> i == at) by {
            if files[i].path == file_path && i != at {
                if i < at {
                    assert(files[i].path != file_path);
                } else {
                    assert(files[at].path != files[i].path);
                }
            }
        }
        if !is_shared_with(files, file_path, nickname) {
            let u = choose|u: int|
                0 <= u < before.file.shared_users.len() && (
                #[trigger] before.file.shared_users[u]).nickname == nickname;
            assert(tidy_user(before.file.shared_users[u]) == before.file.shared_users[u]);
            assert(trimmed(nickname) == nickname);
            let wanted = ConfigView {
                shared_files: with_sharer(files, at, nickname),
                ..before.file
            };
            law_sharing_starts_for_one(files, at, nickname, i, name);
            let names = wanted.shared_files[i].shared_with;
            assert forall|k: int| 0 <= k < names.len() implies trimmed(
                #[trigger] wanted.shared_files[i].shared_with[k],
            ) == names[k] by {
                if k < files[i].shared_with.len() {
                    assert(names[k] == files[i].shared_with[k]);
                    assert(trimmed(before.file.shared_files[i].shared_with[k]) == names[k]);
                }
            }
            lemma_tidy_sharers_stay(wanted, i, name);
            lemma_tidy_users_stay(wanted, user);
        }
    }
}

/// Once a user was removed, all other users are there, and every file is shared with those of them
/// that it was shared with.
pub proof fn law_only_one_user_is_removed(
    before: ConfigState,
    nickname: Seq<char>,
    r: Result<(), String>,
    after: ConfigState,
    i: int,
    name: Seq<char>,
    user: UserView,
)
    requires
        is_valid_state(before),
        is_user_removed(before, nickname, r, after),
        r is Ok,
    ensures
        after.file.shared_users.contains(user) <==> before.file.shared_users.contains(user)
            && user.nickname != nickname,
        after.file.shared_files.len() == before.file.shared_files.len(),
        0 <= i < before.file.shared_files.len() ==> after.file.shared_files[i].path == native_path(
            trimmed(before.file.shared_files[i].path),
        ),
        0 <= i < before.file.shared_files.len() ==> (
        after.file.shared_files[i].shared_with.contains(name)
            <==> before.file.shared_files[i].shared_with.contains(name) && name != nickname),
{
    let files = before.file.shared_files;
    let users = before.file.shared_users;
    let wanted = ConfigView {
        shared_users: without_nickname(users, nickname),
        shared_files: without_sharer(files, None, nickname),
        ..before.file
    };
    law_removed_nickname_is_gone(users, nickname, user);
    assert forall|k: int| 0 <= k < wanted.shared_users.len() implies tidy_user(
        #[trigger] wanted.shared_users[k],
    ) == wanted.shared_users[k] by {
        let u = wanted.shared_users[k];
        law_removed_nickname_is_gone(users, nickname, u);
        assert(wanted.shared_users.contains(u));
        let j = choose|j: int| 0 <= j < users.len() && users[j] == u;
        assert(tidy_user(before.file.shared_users[j]) == u);
    }
    lemma_tidy_users_stay(wanted, user);
    if 0 <= i < files.len() {
        law_sharing_ends_for_one(files, None, nickname, i, name);
        let names = wanted.shared_files[i].shared_with;
        assert forall|k: int| 0 <= k < names.len() implies trimmed(
            #[trigger] wanted.shared_files[i].shared_with[k],
        ) == names[k] by {
            law_sharing_ends_for_one(files, None, nickname, i, names[k]);
            assert(names.contains(names[k]));
            let old_names = files[i].shared_with;
            let j = choose|j: int| 0 <= j < old_names.len() && old_names[j] == names[k];
            assert(trimmed(before.file.shared_files[i].shared_with[j]) == old_names[j]);
        }
        lemma_tidy_sharers_stay(wanted, i, name);
        law_tidying_keeps_files(wanted, i, name);
    }
}

/// Once a file is no longer shared, all others are there in order, shared with whom they were
/// shared with, and no user is gone.
pub proof fn law_only_one_file_is_removed(
    before: ConfigState,
    file_path: Seq<char>,
    r: Result<(), String>,
    after: ConfigState,
    i: int,
    name: Seq<char>,
    user: UserView,
)
    requires
        is_valid_state(before),
        is_file_removed(before, file_path, r, after),
        r is Ok,
    ensures
        ({
            let rest = before.file.shared_files.filter(|f: ShareView| f.path != file_path);
            &&& after.file.shared_files.len() == rest.len()
            &&& 0 <= i < rest.len() ==> after.file.shared_files[i].path == native_path(
                trimmed(rest[i].path),
            )
            &&& 0 <= i < rest.len() ==> (after.file.shared_files[i].shared_with.contains(name)
                <==> rest[i].shared_with.contains(name))
        }),
        after.file.shared_users.contains(user) <==> before.file.shared_users.contains(user),
{
    let files = before.file.shared_files;
    let rest = without_path(files, file_path);
    let wanted = ConfigView { shared_files: rest, ..before.file };
    lemma_tidy_users_stay(wanted, user);
    law_removed_path_is_gone(files, file_path, arbitrary());
    if 0 <= i < rest.len() {
        law_removed_path_is_gone(files, file_path, rest[i]);
        assert(rest.contains(rest[i]));
        let j = choose|j: int| 0 <= j < files.len() && files[j] == rest[i];
        assert forall|k: int| 0 <= k < rest[i].shared_with.len() implies trimmed(
            #[trigger] wanted.shared_files[i].shared_with[k],
        ) == rest[i].shared_with[k] by {
            assert(trimmed(before.file.shared_files[j].shared_with[k])
                == files[j].shared_with[k]);
        }
        lemma_tidy_sharers_stay(wanted, i, name);
        law_tidying_keeps_files(wanted, i, name);
    }
}

/// Once files were added, those that were shared are in front as before, shared with whom they were
/// shared with; the new ones are shared with nobody; and no user is gone.
pub proof fn law_added_files_reach_nobody(
    before: ConfigState,
    files: Seq<Seq<char>>,
    r: Result<(), String>,
    after: ConfigState,
    i: int,
    name: Seq<char>,
    user: UserView,
)
    requires
        is_valid_state(before),
        are_files_added(before, files, r, after),
        r is Ok,
    ensures
        before.file.shared_files.len() <= after.file.shared_files.len(),
        0 <= i < before.file.shared_files.len() ==> (
        after.file.shared_files[i].shared_with.contains(name)
            <==> before.file.shared_files[i].shared_with.contains(name)),
        before.file.shared_files.len() <= i < after.file.shared_files.len()
            ==> after.file.shared_files[i].shared_with.len() == 0,
        0 <= i < files.len() ==> is_shared_path(
            after.file.shared_files,
            native_path(trimmed(native_path(files[i]))),
        ) || is_shared_path(before.file.shared_files, native_path(files[i])),
        after.file.shared_users.contains(user) <==> before.file.shared_users.contains(user),
{
    let existing = before.file.shared_files;
    let all = with_files(existing, files);
    let wanted = ConfigView { shared_files: all, ..before.file };
    law_added_files_are_shared(existing, files);
    lemma_tidy_users_stay(wanted, user);
    if 0 <= i < all.len() {
        law_tidying_keeps_files(wanted, i, name);
        if i < existing.len() {
            assert(all.take(existing.len() as int)[i] == all[i]);
            assert forall|k: int| 0 <= k < all[i].shared_with.len() implies trimmed(
                #[trigger] wanted.shared_files[i].shared_with[k],
            ) == all[i].shared_with[k] by {
                assert(trimmed(before.file.shared_files[i].shared_with[k])
                    == existing[i].shared_with[k]);
            }
            lemma_tidy_sharers_stay(wanted, i, name);
        }
    }
    if 0 <= i < files.len() {
        assert(is_shared_path(all, native_path(files[i])));
        let k = choose|k: int|
            0 <= k < all.len() && (#[trigger] all[k]).path == native_path(files[i]);
        law_tidying_keeps_files(wanted, k, name);
        assert(after.file.shared_files[k].path == native_path(trimmed(native_path(files[i]))));
    }
}

/// Once the port was set, it is that port, and users, files and the private id are as before.
pub proof fn law_port_is_set(
    before: ConfigState,
    port: Seq<char>,
    r: Result<(), String>,
    after: ConfigState,
    i: int,
    name: Seq<char>,
    user: UserView,
)
    requires
        is_valid_state(before),
        is_port_set(before, port, r, after),
        r is Ok,
    ensures
        after.file.sharing_port == trimmed(port),
        is_i32(trimmed(port)),
        after.file.my_private_id == before.file.my_private_id,
        after.file.shared_users.contains(user) <==> before.file.shared_users.contains(user),
        after.file.shared_files.len() == before.file.shared_files.len(),
        0 <= i < before.file.shared_files.len() ==> (
        after.file.shared_files[i].shared_with.contains(name)
            <==> before.file.shared_files[i].shared_with.contains(name)),
{
    let wanted = ConfigView { sharing_port: port, ..before.file };
    law_stored_or_unchanged(before, wanted, seq![], r, after);
    lemma_tidy_users_stay(wanted, user);
    if 0 <= i < before.file.shared_files.len() {
        assert forall|k: int| 0 <= k < wanted.shared_files[i].shared_with.len() implies trimmed(
            #[trigger] wanted.shared_files[i].shared_with[k],
        ) == wanted.shared_files[i].shared_with[k] by {
            assert(trimmed(before.file.shared_files[i].shared_with[k])
                == before.file.shared_files[i].shared_with[k]);
        }
        lemma_tidy_sharers_stay(wanted, i, name);
    }
}

/// Once a user was added, there is this user with trimmed texts, all who were there are there, and
/// nobody else is; nothing is shared with anybody else.
pub proof fn law_one_user_is_added(
    before: ConfigState,
    new_user: UserView,
    rejected: Seq<RejectionView>,
    r: Result<(), String>,
    after: ConfigState,
    user: UserView,
    i: int,
    name: Seq<char>,
)
    requires
        is_valid_state(before),
        is_user_added(before, new_user, rejected, r, after),
        r is Ok,
    ensures
        after.file.shared_users.len() == before.file.shared_users.len() + 1,
        after.file.shared_users.contains(user) <==> before.file.shared_users.contains(user) || (
        user.nickname == trimmed(new_user.nickname) && user.public_id == trimmed(
            new_user.public_id,
        ) && user.ip == trimmed(new_user.ip) && user.port == trimmed(new_user.port)
            && user.allowed == new_user.allowed),
        after.file.shared_files.len() == before.file.shared_files.len(),
        0 <= i < before.file.shared_files.len() ==> (
        after.file.shared_files[i].shared_with.contains(name)
            <==> before.file.shared_files[i].shared_with.contains(name)),
{
    let users = before.file.shared_users;
    let more = users.push(new_user);
    let wanted = ConfigView { shared_users: more, ..before.file };
    law_tidying_keeps_users(wanted, user);
    let tidy = sanitized(wanted).shared_users;
    if tidy.contains(user) {
        let k = choose|k: int| #![trigger more[k]] 0 <= k < more.len() && tidy_user(more[k]) == user;
        if k < users.len() {
            assert(users[k] == more[k]);
            assert(tidy_user(before.file.shared_users[k]) == users[k]);
        }
    }
    if users.contains(user) {
        let k = choose|k: int| 0 <= k < users.len() && users[k] == user;
        assert(tidy_user(before.file.shared_users[k]) == users[k]);
        assert(wanted.shared_users[k] == user);
    }
    assert(wanted.shared_users[users.len() as int] == new_user);
    if 0 <= i < before.file.shared_files.len() {
        assert forall|k: int| 0 <= k < wanted.shared_files[i].shared_with.len() implies trimmed(
            #[trigger] wanted.shared_files[i].shared_with[k],
        ) == wanted.shared_files[i].shared_with[k] by {
            assert(trimmed(before.file.shared_files[i].shared_with[k])
                == before.file.shared_files[i].shared_with[k]);
        }
        lemma_tidy_sharers_stay(wanted, i, name);
    }
}

proof fn lemma_updated_users(before: ConfigView, at: int, u: UserView, user: UserView)
    requires
        is_tidy(before),
        users_are_sound(before.shared_users),
        0 <= at < before.shared_users.len(),
    ensures
        sanitized(
            ConfigView { shared_users: before.shared_users.update(at, u), ..before },
        ).shared_users.contains(user) <==> (before.shared_users.contains(user) && user.nickname
            != before.shared_users[at].nickname) || user == tidy_user(u),
{
    let users = before.shared_users;
    let next = users.update(at, u);
    let wanted = ConfigView { shared_users: next, ..before };
    law_tidying_keeps_users(wanted, user);
    let tidy = sanitized(wanted).shared_users;
    if tidy.contains(user) {
        let k = choose|k: int| #![trigger next[k]] 0 <= k < next.len() && tidy_user(next[k]) == user;
        if k != at {
            assert(users[k] == next[k]);
            assert(tidy_user(before.shared_users[k]) == users[k]);
            if k < at {
                assert(users[k].nickname != users[at].nickname);
            } else {
                assert(users[at].nickname != users[k].nickname);
            }
        }
    }
    if users.contains(user) && user.nickname != users[at].nickname {
        let k = choose|k: int| 0 <= k < users.len() && users[k] == user;
        assert(tidy_user(before.shared_users[k]) == users[k]);
        assert(wanted.shared_users[k] == user);
    }
    assert(wanted.shared_users[at] == u);
}

/// Once a user was allowed or denied, that is what this user is, with id and address as before, and
/// all other users are as before. Where there is no such user, nothing changes.
pub proof fn law_one_user_is_allowed(
    before: ConfigState,
    nickname: Seq<char>,
    is_allowed: bool,
    r: Result<(), String>,
    after: ConfigState,
    user: UserView,
)
    requires
        is_valid_state(before),
        is_allowed_set(before, nickname, is_allowed, r, after),
    ensures
        !is_nickname(before.file.shared_users, nickname) ==> r is Err,
        r is Err ==> after == before,
        r is Ok ==> (after.file.shared_users.contains(user) <==> if user.nickname == nickname {
            user.allowed == is_allowed && (before.file.shared_users.contains(
                UserView { allowed: true, ..user },
            ) || before.file.shared_users.contains(UserView { allowed: false, ..user }))
        } else {
            before.file.shared_users.contains(user)
        }),
{
    let users = before.file.shared_users;
    law_first_nickname(users, nickname, 0);
    if r is Ok {
        let at = first_nickname(users, nickname, 0)->0;
        let u = UserView { allowed: is_allowed, ..users[at] };
        lemma_updated_users(before.file, at, u, user);
        assert(tidy_user(before.file.shared_users[at]) == users[at]);
        assert(tidy_user(u) == u);
        assert(users.contains(users[at]));
        if user.nickname == nickname {
            let a = UserView { allowed: true, ..user };
            let b = UserView { allowed: false, ..user };
            if users.contains(a) || users.contains(b) {
                let k = choose|k: int| 0 <= k < users.len() && (users[k] == a || users[k] == b);
                if k < at {
                    assert(users[k].nickname != users[at].nickname);
                } else if k > at {
                    assert(users[at].nickname != users[k].nickname);
                }
            }
            if user == u {
                assert(users[at] == a || users[at] == b);
            }
        }
    } else if is_nickname(users, nickname) {
    }
}

/// Once a user was changed, this user has the new id and address, trimmed, under the same nickname
/// and allowed or denied as before, and all other users are as before. Where there is no such
/// user, nothing changes.
pub proof fn law_one_user_is_updated(
    before: ConfigState,
    nickname: Seq<char>,
    public_id: Seq<char>,
    ip: Seq<char>,
    port: Seq<char>,
    rejected: Seq<RejectionView>,
    r: Result<(), String>,
    after: ConfigState,
    user: UserView,
)
    requires
        is_valid_state(before),
        is_user_updated(before, nickname, public_id, ip, port, rejected, r, after),
    ensures
        !is_nickname(before.file.shared_users, nickname) ==> r is Err,
        r is Err ==> after == before,
        r is Ok && user.nickname != nickname ==> (after.file.shared_users.contains(user)
            <==> before.file.shared_users.contains(user)),
        r is Ok && user.nickname == nickname && after.file.shared_users.contains(user) ==> {
            &&& user.public_id == trimmed(public_id)
            &&& user.ip == trimmed(ip)
            &&& user.port == trimmed(port)
            &&& exists|k: int|
                0 <= k < before.file.shared_users.len() && (
                #[trigger] before.file.shared_users[k]).nickname == nickname
                    && before.file.shared_users[k].allowed == user.allowed
        },
        r is Ok ==> is_nickname(after.file.shared_users, nickname),
{
    let users = before.file.shared_users;
    law_first_nickname(users, nickname, 0);
    if r is Ok {
        let at = first_nickname(users, nickname, 0)->0;
        let u = UserView { public_id, ip, port, ..users[at] };
        lemma_updated_users(before.file, at, u, user);
        lemma_updated_users(before.file, at, u, tidy_user(u));
        assert(tidy_user(before.file.shared_users[at]) == users[at]);
        let all = after.file.shared_users;
        let k = choose|k: int| 0 <= k < all.len() && all[k] == tidy_user(u);
        assert(all[k].nickname == nickname);
    }
}

/// Once a private id was set, the key is that of the id, the id is kept as base64, and users and
/// the port are as before.
pub proof fn law_private_id_is_set(
    before: ConfigState,
    private_id: Seq<u8>,
    r: Result<(), String>,
    after: ConfigState,
    user: UserView,
)
    requires
        is_valid_state(before),
        is_private_id_set(before, private_id, r, after),
    ensures
        r is Err ==> after == before,
        r is Ok ==> {
            &&& after.private_key == private_id
            &&& after.file.my_private_id == encoded(private_id)
            &&& ed25519_public_key(private_id) is Ok
            &&& after.file.shared_users.contains(user) <==> before.file.shared_users.contains(user)
            &&& after.file.sharing_port == before.file.sharing_port
            &&& after.config_dir == before.config_dir
        },
{
    if r is Ok {
        let wanted = ConfigView { my_private_id: encoded(private_id), ..before.file };
        law_passed_is_sound(sanitized(wanted), seq![], before.config_dir, r);
        lemma_encoded_is_trimmed(private_id);
        law_encoded_injective(base64_bytes(encoded(private_id)), private_id);
        lemma_tidy_users_stay(wanted, user);
    }
}

proof fn lemma_first_some_stays_none(n: int, f: spec_fn(int) -> Option<Seq<char>>, i: int)
    requires
        forall|k: int| i <= k < n ==> #[trigger] f(k) is None,
    ensures
        first_some(n, f, i) is None,
    decreases n - i,
{
    if i < n {
        lemma_first_some_stays_none(n, f, i + 1);
    }
}

proof fn lemma_count_where_one<T>(s: Seq<T>, p: spec_fn(T) -> bool)
    requires
        forall|i: int, j: int|
            #![trigger s[i], s[j]]
            0 <= i < j < s.len() ==> !(p(s[i]) && p(s[j])),
    ensures
        count_where(s, p) <= 1,
        count_where(s, p) == 1 ==> exists|i: int| 0 <= i < s.len() && p(#[trigger] s[i]),
    decreases s.len(),
{
    if s.len() > 0 {
        let t = s.drop_last();
        assert forall|i: int, j: int|
            #![trigger t[i], t[j]]
            0 <= i < j < t.len() implies !(p(t[i]) && p(t[j])) by {
            assert(t[i] == s[i] && t[j] == s[j]);
        }
        lemma_count_where_one(t, p);
        if count_where(t, p) == 1 {
            let i = choose|i: int| 0 <= i < t.len() && p(#[trigger] t[i]);
            assert(s[i] == t[i]);
            assert(!p(s[s.len() - 1]));
        } else if p(s.last()) {
            assert(p(s[s.len() - 1]));
        }
    }
}

/// A configuration that is sound passes, where none of its users' addresses was rejected and none
/// of its paths can be judged not valid.
pub proof fn law_sound_passes(
    c: ConfigView,
    rejected: Seq<RejectionView>,
    config_dir: Seq<char>,
    r: Result<(), String>,
)
    requires
        may_be_answered(c, rejected, config_dir, r),
        is_sound(c, config_dir),
        forall|i: int|
            0 <= i < c.shared_users.len() ==> rejection(
                rejected,
                full_address(#[trigger] c.shared_users[i]),
                0,
            ) is None,
        forall|i: int|
            0 <= i < c.shared_files.len() ==> !may_be_judged(
                (#[trigger] c.shared_files[i]).path,
                false,
            ),
    ensures
        r is Ok,
{
    let users = c.shared_users;
    let files = c.shared_files;
    let valid = choose|valid: Seq<bool>|
        #[trigger] are_judgements(files, valid) && told(
            config_error(c, rejected, config_dir, valid),
            r,
        );
    let repeats = |i: int| repeat_error(users, i);
    assert forall|i: int| 0 <= i < users.len() implies #[trigger] repeats(i) is None by {
        lemma_count_where_one(users, same_nickname(users[i].nickname));
        lemma_count_where_one(users, same_public_id(users[i].public_id));
    }
    lemma_first_some_stays_none(users.len() as int, repeats, 0);
    let errors = |i: int| user_error(users[i], rejected);
    assert forall|i: int| 0 <= i < users.len() implies #[trigger] errors(i) is None by {
        assert(rejection(rejected, full_address(users[i]), 0) is None);
    }
    lemma_first_some_stays_none(users.len() as int, errors, 0);
    let doubles = |i: int| file_repeat_error(files, i);
    assert forall|i: int| 0 <= i < files.len() implies #[trigger] doubles(i) is None by {
        lemma_count_where_one(files, same_path(files[i].path));
    }
    lemma_first_some_stays_none(files.len() as int, doubles, 0);
    let strangers = |i: int| strangers_error(users, files[i]);
    assert forall|i: int| 0 <= i < files.len() implies #[trigger] strangers(i) is None by {
        let inner = |j: int| stranger_error(users, files[i], j);
        assert forall|j: int| 0 <= j < files[i].shared_with.len() implies #[trigger] inner(
            j,
        ) is None by {
            assert(is_nickname(users, files[i].shared_with[j]));
        }
        lemma_first_some_stays_none(files[i].shared_with.len() as int, inner, 0);
    }
    lemma_first_some_stays_none(files.len() as int, strangers, 0);
    let paths = |i: int| path_error(files[i].path, config_dir, valid[i]);
    assert forall|i: int| 0 <= i < files.len() implies #[trigger] paths(i) is None by {
        assert(may_be_judged(files[i].path, valid[i]));
        assert(!may_be_judged(files[i].path, false));
    }
    lemma_first_some_stays_none(files.len() as int, paths, 0);
}

/// A rejected address is known by its text, and the first reason for it is given.
pub proof fn law_rejection(rejected: Seq<RejectionView>, address: Seq<char>, from: int)
    requires
        0 <= from <= rejected.len(),
    ensures
        match rejection(rejected, address, from) {
            Some(e) => exists|i: int|
                from <= i < rejected.len() && (#[trigger] rejected[i]).address == address
                    && rejected[i].error == e,
            None => forall|i: int|
                from <= i < rejected.len() ==> (#[trigger] rejected[i]).address != address,
        },
    decreases rejected.len() - from,
{
    if from < rejected.len() {
        law_rejection(rejected, address, from + 1);
        if rejected[from].address == address {
            assert(rejected[from].address == address);
        }
    }
}

/// A user whose address was rejected does not pass.
pub proof fn law_rejected_address_fails(
    c: ConfigView,
    rejected: Seq<RejectionView>,
    config_dir: Seq<char>,
    r: Result<(), String>,
    i: int,
)
    requires
        may_be_answered(c, rejected, config_dir, r),
        0 <= i < c.shared_users.len(),
        rejection(rejected, c.shared_users[i].ip + ":"@ + c.shared_users[i].port, 0) is Some,
    ensures
        r is Err,
{
    let users = c.shared_users;
    let valid = choose|valid: Seq<bool>|
        #[trigger] are_judgements(c.shared_files, valid) && told(
            config_error(c, rejected, config_dir, valid),
            r,
        );
    if r is Ok {
        let errors = |k: int| user_error(users[k], rejected);
        lemma_first_some_none(users.len() as int, errors, 0);
        assert(errors(i) is None);
    }
}

/// A path may have none of the characters that a system keeps for itself, and a nickname neither
/// these nor those that separate the parts of a path.
pub proof fn law_blocked_characters(c: char)
    ensures
        blocked_path_chars().contains(c) <==> c == '/' || c == '*' || c == '?' || c == '"' || c
            == '<' || c == '>' || c == '|',
        blocked_name_chars().contains(c) <==> blocked_path_chars().contains(c) || c == '\\' || c
            == ':',
{
    let p = blocked_path_chars();
    let n = blocked_name_chars();
    assert(p[0] == '/' && p[1] == '*' && p[2] == '?' && p[3] == '"' && p[4] == '<' && p[5] == '>'
        && p[6] == '|');
    if n.contains(c) {
        let i = choose|i: int| 0 <= i < n.len() && n[i] == c;
        if i < p.len() {
            assert(p[i] == c);
        }
    }
    if p.contains(c) {
        let i = choose|i: int| 0 <= i < p.len() && p[i] == c;
        assert(n[i] == c);
    }
    assert(n[7] == '\\' && n[8] == ':');
}

/// A new configuration knows nobody, shares nothing, has the id that was made, and passes all that
/// is asked of a port and an id.
pub proof fn law_new_config_shares_nothing(private_id: Seq<u8>)
    requires
        ed25519_public_key(private_id) is Ok,
    ensures
        new_config_view(private_id).shared_users.len() == 0,
        new_config_view(private_id).shared_files.len() == 0,
        base64_bytes(new_config_view(private_id).my_private_id) == private_id,
        is_sound(new_config_view(private_id), Seq::empty()),
{
    lemma_new_config(private_id);
}

/// In a native path each slash is a backslash and every other character stays, behind the prefix of
/// a file address where there is one.
pub proof fn law_slashes_become_backslashes(path: Seq<char>, i: int)
    ensures
        ({
            let p = if has_prefix(path, "file://"@) {
                path.skip(7)
            } else {
                path
            };
            &&& native_path(path).len() == p.len()
            &&& 0 <= i < p.len() ==> native_path(path)[i] == if p[i] == '/' {
                '\\'
            } else {
                p[i]
            }
        }),
{
}

/// In a tidied configuration nobody's name in the list of a file stands behind one that belongs
/// behind it, and neither does a user whose nickname was trimmed before.
pub proof fn law_tidied_is_sorted(c: ConfigView, f: int, i: int, j: int)
    requires
        0 <= i < j,
    ensures
        0 <= f < c.shared_files.len() && j < sanitized(c).shared_files[f].shared_with.len()
            ==> !before(
            sanitized(c).shared_files[f].shared_with[j],
            sanitized(c).shared_files[f].shared_with[i],
        ),
        j < sanitized(c).shared_users.len() && (forall|k: int|
            0 <= k < c.shared_users.len() ==> trimmed((#[trigger] c.shared_users[k]).nickname)
                == c.shared_users[k].nickname) ==> !before(
            sanitized(c).shared_users[j].nickname,
            sanitized(c).shared_users[i].nickname,
        ),
{
    broadcast use vstd::seq_lib::group_to_multiset_ensures;

    if 0 <= f < c.shared_files.len() {
        let names = tidy_texts(c.shared_files[f].shared_with);
        let sorted = sorted_by(names, text_key());
        law_sorted_by(names, text_key());
        if j < sorted.len() {
            assert(!before(text_key()(sorted[j]), text_key()(sorted[i])));
        }
    }
    let users = c.shared_users;
    let sorted = sorted_by(users, nickname_key());
    law_sorted_by(users, nickname_key());
    if j < sorted.len() && (forall|k: int|
        0 <= k < users.len() ==> trimmed((#[trigger] users[k]).nickname) == users[k].nickname) {
        assert(!before(nickname_key()(sorted[j]), nickname_key()(sorted[i])));
        assert(sorted.to_multiset().count(sorted[i]) > 0);
        assert(sorted.to_multiset().count(sorted[j]) > 0);
        assert(users.contains(sorted[i]));
        assert(users.contains(sorted[j]));
    }
}

/// Changing whom files are shared with, which files, or who the users are leaves the private id, its
/// key, the port and the directory of the configuration as they were.
#[verifier::rlimit(40)]
pub proof fn law_rest_of_config_stays(
    before: ConfigState,
    nickname: Seq<char>,
    file_path: Seq<char>,
    files: Seq<Seq<char>>,
    user: UserView,
    is_allowed: bool,
    rejected: Seq<RejectionView>,
    r: Result<(), String>,
    after: ConfigState,
)
    requires
        is_valid_state(before),
        are_files_added(before, files, r, after) || is_file_removed(before, file_path, r, after)
            || is_sharer_added(before, nickname, file_path, r, after) || is_sharer_removed(
            before,
            nickname,
            file_path,
            r,
            after,
        ) || is_user_removed(before, nickname, r, after) || is_user_added(
            before,
            user,
            rejected,
            r,
            after,
        ) || is_allowed_set(before, nickname, is_allowed, r, after) || is_user_updated(
            before,
            nickname,
            user.public_id,
            user.ip,
            user.port,
            rejected,
            r,
            after,
        ),
    ensures
        after.file.my_private_id == before.file.my_private_id,
        after.file.sharing_port == before.file.sharing_port,
        after.private_key == before.private_key,
        after.config_dir == before.config_dir,
        after.first_start == before.first_start,
{
}

/// Changing a user, or whom a file is shared with, leaves the paths that are shared; changing a user
/// leaves whom they are shared with too.
#[verifier::rlimit(40)]
pub proof fn law_shared_files_stay(
    before: ConfigState,
    nickname: Seq<char>,
    file_path: Seq<char>,
    user: UserView,
    is_allowed: bool,
    rejected: Seq<RejectionView>,
    r: Result<(), String>,
    after: ConfigState,
    i: int,
    name: Seq<char>,
)
    requires
        is_valid_state(before),
        is_sharer_added(before, nickname, file_path, r, after) || is_allowed_set(
            before,
            nickname,
            is_allowed,
            r,
            after,
        ) || is_user_added(before, user, rejected, r, after) || is_user_updated(
            before,
            nickname,
            user.public_id,
            user.ip,
            user.port,
            rejected,
            r,
            after,
        ),
        0 <= i < before.file.shared_files.len(),
    ensures
        after.file.shared_files.len() == before.file.shared_files.len(),
        after.file.shared_files[i].path == before.file.shared_files[i].path
            || after.file.shared_files[i].path == native_path(
            trimmed(before.file.shared_files[i].path),
        ),
        !is_sharer_added(before, nickname, file_path, r, after) ==> (
        after.file.shared_files[i].shared_with.contains(name)
            <==> before.file.shared_files[i].shared_with.contains(name)),
{
    let users = before.file.shared_users;
    assert forall|k: int| 0 <= k < before.file.shared_files[i].shared_with.len() implies trimmed(
        #[trigger] before.file.shared_files[i].shared_with[k],
    ) == before.file.shared_files[i].shared_with[k] by {}
    let wanted = if after == before {
        before.file
    } else if is_sharer_added(before, nickname, file_path, r, after) {
        let at = first_path(before.file.shared_files, file_path, 0);
        law_first_path(before.file.shared_files, file_path, 0);
        ConfigView {
            shared_files: with_sharer(before.file.shared_files, at, nickname),
            ..before.file
        }
    } else {
        before.file
    };
    law_tidying_keeps_files(wanted, i, name);
    lemma_tidy_sharers_stay(before.file, i, name);
}

/// A file is shared with a user only where both are there; where the user has it already, nothing
/// changes and that is no error.
pub proof fn law_file_is_shared_once(
    before: ConfigState,
    nickname: Seq<char>,
    file_path: Seq<char>,
    r: Result<(), String>,
    after: ConfigState,
    i: int,
)
    requires
        is_valid_state(before),
        is_sharer_added(before, nickname, file_path, r, after),
        0 <= i < before.file.shared_files.len(),
        before.file.shared_files[i].path == file_path,
        is_nickname(before.file.shared_users, nickname),
    ensures
        before.file.shared_files[i].shared_with.contains(nickname) ==> r is Ok && after == before,
{
    let files = before.file.shared_files;
    law_first_path(files, file_path, 0);
    let at = first_path(files, file_path, 0);
    if at != i {
        assert(files[at].path == files[i].path);
    }
}

/// The first error is the one that is told: nothing that stands before it has any.
pub proof fn law_first_error(n: int, f: spec_fn(int) -> Option<Seq<char>>, from: int)
    requires
        from <= n,
    ensures
        match first_some(n, f, from) {
            Some(e) => exists|k: int|
                from <= k < n && #[trigger] f(k) == Some(e) && forall|j: int|
                    from <= j < k ==> #[trigger] f(j) is None,
            None => forall|k: int| from <= k < n ==> #[trigger] f(k) is None,
        },
    decreases n - from,
{
    if from < n {
        if f(from) is None {
            law_first_error(n, f, from + 1);
            if first_some(n, f, from) is Some {
                let k = choose|k: int|
                    from + 1 <= k < n && #[trigger] f(k) == first_some(n, f, from) && forall|j: int|
                        from + 1 <= j < k ==> #[trigger] f(j) is None;
                assert(f(k) == first_some(n, f, from));
            }
        } else {
            assert(f(from) == first_some(n, f, from));
        }
    }
}

/// Of several faults of a configuration the one is told that is looked for first: the port, then the
/// private id, then the users, then the files; of the users, whether any is repeated comes first,
/// and of the files whether any is repeated, then whom they are shared with.
#[verifier::rlimit(40)]
pub proof fn law_faults_are_told_in_order(
    c: ConfigView,
    rejected: Seq<RejectionView>,
    config_dir: Seq<char>,
    valid: Seq<bool>,
    i: int,
    k: int,
)
    ensures
        ({
            let e = config_error(c, rejected, config_dir, valid);
            let is_port = is_i32(c.sharing_port);
            let is_id = is_base64(c.my_private_id) && ed25519_public_key(
                base64_bytes(c.my_private_id),
            ) is Ok;
            let users = c.shared_users;
            let files = c.shared_files;
            &&& !is_port ==> e == Some("Port must be a number."@)
            &&& is_port && !is_base64(c.my_private_id) ==> e == Some(
                "Invalid Private ID. Not b64. "@ + base64_refusal(c.my_private_id),
            )
            &&& is_port && is_base64(c.my_private_id) && !is_id ==> e is Some && has_prefix(
                e->0,
                "Failed to load local key pair '"@,
            )
            &&& is_port && is_id && users_error(users, rejected) is Some ==> e == users_error(
                users,
                rejected,
            )
            &&& 0 <= i < users.len() && repeat_error(users, i) is Some ==> exists|j: int|
                0 <= j <= i && #[trigger] repeat_error(users, j) == users_error(users, rejected)
            &&& is_port && is_id && users_error(users, rejected) is None ==> e == files_error(
                users,
                files,
                config_dir,
                valid,
            )
            &&& 0 <= i < files.len() && file_repeat_error(files, i) is Some ==> exists|j: int|
                0 <= j <= i && #[trigger] file_repeat_error(files, j) == files_error(
                    users,
                    files,
                    config_dir,
                    valid,
                )
            &&& (forall|j: int| 0 <= j < files.len() ==> #[trigger] file_repeat_error(files, j) is None)
                && 0 <= i < files.len() && 0 <= k < files[i].shared_with.len() && !is_nickname(
                users,
                files[i].shared_with[k],
            ) ==> exists|a: int, b: int|
                0 <= a <= i && 0 <= b < files[a].shared_with.len() && #[trigger] stranger_error(
                    users,
                    files[a],
                    b,
                ) == files_error(users, files, config_dir, valid)
        }),
{
    let users = c.shared_users;
    let files = c.shared_files;
    let repeats = |j: int| repeat_error(users, j);
    let doubles = |j: int| file_repeat_error(files, j);
    let strangers = |j: int| strangers_error(users, files[j]);
    law_first_error(users.len() as int, repeats, 0);
    law_first_error(files.len() as int, doubles, 0);
    law_first_error(files.len() as int, strangers, 0);
    if is_i32(c.sharing_port) && is_base64(c.my_private_id) {
        if let Err(e) = ed25519_public_key(base64_bytes(c.my_private_id)) {
            let a = "Failed to load local key pair '"@;
            assert((a + e + "'."@).take(a.len() as int) =~= a);
        }
    }
    if 0 <= i < users.len() && repeat_error(users, i) is Some {
        assert(repeats(i) is Some);
        let at = choose|at: int|
            0 <= at < users.len() && #[trigger] repeats(at) == first_some(
                users.len() as int,
                repeats,
                0,
            ) && forall|j: int| 0 <= j < at ==> #[trigger] repeats(j) is None;
        assert(repeat_error(users, at) == repeats(at));
    }
    if 0 <= i < files.len() && file_repeat_error(files, i) is Some {
        assert(doubles(i) is Some);
        let at = choose|at: int|
            0 <= at < files.len() && #[trigger] doubles(at) == first_some(
                files.len() as int,
                doubles,
                0,
            ) && forall|j: int| 0 <= j < at ==> #[trigger] doubles(j) is None;
        assert(file_repeat_error(files, at) == doubles(at));
    }
    if (forall|j: int| 0 <= j < files.len() ==> #[trigger] file_repeat_error(files, j) is None) && 0
        <= i < files.len() && 0 <= k < files[i].shared_with.len() && !is_nickname(
        users,
        files[i].shared_with[k],
    ) {
        if first_some(files.len() as int, doubles, 0) is Some {
            let at = choose|at: int|
                0 <= at < files.len() && #[trigger] doubles(at) == first_some(
                    files.len() as int,
                    doubles,
                    0,
                );
            assert(file_repeat_error(files, at) is None);
        }
        let here = |j: int| stranger_error(users, files[i], j);
        law_first_error(files[i].shared_with.len() as int, here, 0);
        assert(here(k) is Some);
        assert(strangers(i) is Some);
        let a = choose|a: int|
            0 <= a < files.len() && #[trigger] strangers(a) == first_some(
                files.len() as int,
                strangers,
                0,
            ) && forall|j: int| 0 <= j < a ==> #[trigger] strangers(j) is None;
        let there = |j: int| stranger_error(users, files[a], j);
        law_first_error(files[a].shared_with.len() as int, there, 0);
        let b = choose|b: int|
            0 <= b < files[a].shared_with.len() && #[trigger] there(b) == first_some(
                files[a].shared_with.len() as int,
                there,
                0,
            );
        assert(stranger_error(users, files[a], b) == there(b));
    }
}

/// What is wrong with a user is told with the nickname, whatever it is, unless there is none; who
/// is repeated is told with how often, and so is a file.
#[verifier::rlimit(40)]
pub proof fn law_faults_name_their_subject(
    users: Seq<UserView>,
    files: Seq<ShareView>,
    rejected: Seq<RejectionView>,
    u: UserView,
    i: int,
    k: int,
)
    ensures
        user_error(u, rejected) matches Some(e) ==> u.nickname.len() == 0 || has_part(
            e,
            u.nickname,
        ),
        0 <= i < users.len() ==> (repeat_error(users, i) matches Some(e) ==> {
            let name = users[i].nickname;
            let id = users[i].public_id;
            let names = users.filter(|v: UserView| lowercase(name) == lowercase(v.nickname));
            let ids = users.filter(|v: UserView| id == v.public_id);
            if names.len() > 1 {
                has_part(e, name) && has_part(e, decimal(names.len()))
            } else {
                ids.len() > 1 && has_part(e, id) && has_part(e, decimal(ids.len()))
            }
        }),
        0 <= i < files.len() ==> (file_repeat_error(files, i) matches Some(e) ==> {
            let path = files[i].path;
            let same = files.filter(|f: ShareView| path == f.path);
            has_part(e, path) && has_part(e, decimal(same.len()))
        }),
        0 <= i < files.len() && 0 <= k < files[i].shared_with.len() ==> (stranger_error(
            users,
            files[i],
            k,
        ) matches Some(e) ==> has_part(e, files[i].path) && has_part(e, files[i].shared_with[k])),
{
    lemma_fault_of_user(u, rejected);
    if 0 <= i < users.len() {
        let name = users[i].nickname;
        let id = users[i].public_id;
        lemma_count_is_filter(users, same_nickname(name));
        lemma_count_is_filter(users, same_public_id(id));
        assert(same_nickname(name) =~= (|v: UserView| lowercase(name) == lowercase(v.nickname)));
        assert(same_public_id(id) =~= (|v: UserView| id == v.public_id));
        let x = decimal(count_where(users, same_nickname(name)));
        let y = decimal(count_where(users, same_public_id(id)));
        lemma_text_of_five("Nicknames cannot be repeated. '"@, name, "' was found '"@, x, "' times."@);
        lemma_text_of_five("Public IDs cannot be repeated. '"@, id, "' was found '"@, y, "' times."@);
    }
    if 0 <= i < files.len() {
        let path = files[i].path;
        lemma_count_is_filter(files, same_path(path));
        assert(same_path(path) =~= (|f: ShareView| path == f.path));
        lemma_text_of_five(
            "File '"@,
            path,
            "' has been shared '"@,
            decimal(count_where(files, same_path(path))),
            "' times. It can only be shared once."@,
        );
        if 0 <= k < files[i].shared_with.len() {
            lemma_text_of_five(
                "Cannot share file '"@,
                path,
                "' with user '"@,
                files[i].shared_with[k],
                "' as that user does not exist as a shared_user."@,
            );
        }
    }
}

#[verifier::rlimit(40)]
proof fn lemma_fault_of_user(u: UserView, rejected: Seq<RejectionView>)
    ensures
        user_error(u, rejected) matches Some(e) ==> u.nickname.len() == 0 || has_part(
            e,
            u.nickname,
        ),
{
    if let Some(e) = user_error(u, rejected) {
        if u.nickname.len() > 0 {
            let n = u.nickname;
            let heads = seq![
                Seq::<char>::empty(),
                "Nickname '"@,
                "Port for '"@,
                "PublicID for '"@,
                "IP Address for '"@,
                "Full address of '"@,
            ];
            let k: int = if first_contained(blocked_name_chars(), n) is Some {
                1
            } else if u.port.len() == 0 {
                2
            } else if port_error(u.port) is Some {
                0
            } else if u.public_id.len() == 0 {
                3
            } else if !is_base64(u.public_id) {
                0
            } else if u.ip.len() == 0 {
                4
            } else {
                5
            };
            let rest = e.skip((heads[k] + n).len() as int);
            assert(e =~= heads[k] + n + rest);
            law_parts_are_found(heads[k], n, rest);
        }
    }
}

proof fn lemma_text_of_five(a: Seq<char>, b: Seq<char>, c: Seq<char>, d: Seq<char>, e: Seq<char>)
    ensures
        has_part(a + b + c + d + e, b),
        has_part(a + b + c + d + e, d),
{
    law_parts_are_found(a, b, c + d + e);
    assert(a + b + (c + d + e) =~= a + b + c + d + e);
    law_parts_are_found(a + b + c, d, e);
}

proof fn lemma_count_is_filter<T>(s: Seq<T>, p: spec_fn(T) -> bool)
    ensures
        count_where(s, p) == s.filter(p).len(),
    decreases s.len(),
{
    reveal(Seq::filter);
    if s.len() > 0 {
        lemma_count_is_filter(s.drop_last(), p);
    }
}

/// A new configuration shares at the default port.
pub proof fn law_new_config_has_default_port(private_id: Seq<u8>)
    ensures
        new_config_view(private_id).sharing_port == "7878"@,
{
}

} // verus!
