//! Connections that trusted users open to us over a secure stream.
use vstd::prelude::*;
use vstd::slice::{slice_subrange, slice_to_vec};
use vstd::utf8::{decode_utf8, encode_utf8, encode_utf8_decode_utf8, encode_utf8_valid_utf8, valid_utf8};
use crate::base64::{encoded, law_encoded_injective};
use crate::bytes::{be_bytes, be_value, from_be_bytes, law_be_value_of_be_bytes, lemma_be_bytes_len, lemma_pow256};
use crate::config::base64_bytes;
use crate::core_consts::{MSG_CANNOT_SELECT_DIRECTORY, MSG_FILE_CHUNK, MSG_FILE_FINISHED, MSG_FILE_INVALID_FILE, MSG_FILE_LIST, MSG_FILE_SELECTION_CONTINUE, PAYLOAD_OFFSET, TOTAL_BUFFER_SIZE};
use crate::crypto::{dalek_public, dalek_shared, ed25519_public_key, ed25519_signature, ed25519_valid, get_bytes_from_base64_str, is_base64, ring_sign, ring_verify, x25519_public, x25519_shared};
use crate::incoming_uploader::{opt_message, piece_views};
use crate::name_map::NameMap;
use crate::outgoing_downloader::selection;
use crate::shared_file::{opt_file, FileView, SharedFile};
use crate::text::{cat2, cat3, decimal, decimal_string, has_part, law_parts_are_found, str_eq, text_from_utf8, texts};
use crate::transmitic_stream::array_32;
use crate::utils::{file_at, get_file_by_path, is_within, law_file_at, set_buffer, with_message};

verus! {

/// A user that files are exchanged with over a secure stream.
#[derive(Debug)]
pub struct TrustedUser {
    pub display_name: String,
    pub public_id: String,
    pub ip_address: String,
    pub port: String,
}

/// What a `TrustedUser` says.
pub struct TrustedView {
    pub name: Seq<char>,
    pub public_id: Seq<char>,
    pub ip: Seq<char>,
    pub port: Seq<char>,
}

impl View for TrustedUser {
    type V = TrustedView;

    open spec fn view(&self) -> TrustedView {
        TrustedView {
            name: self.display_name@,
            public_id: self.public_id@,
            ip: self.ip_address@,
            port: self.port@,
        }
    }
}

impl Clone for TrustedUser {
    fn clone(&self) -> (r: Self)
        ensures
            r == *self,
    {
        TrustedUser {
            display_name: self.display_name.clone(),
            public_id: self.public_id.clone(),
            ip_address: self.ip_address.clone(),
            port: self.port.clone(),
        }
    }
}

pub open spec fn trusted_views(s: Seq<TrustedUser>) -> Seq<TrustedView> {
    Seq::new(s.len(), |i: int| s[i]@)
}

/// One connection of a user.
#[derive(Debug)]
pub struct SingleConnection {
    pub should_reset: bool,
}

/// What goes on with a user that connects to us. A connection is known by its number.
#[derive(Debug)]
pub struct IncomingConnection {
    pub user: TrustedUser,
    pub active_download: Option<SharedFile>,
    pub active_download_percent: u64,
    pub is_downloading: bool,
    pub finished_downloads: Vec<String>,
    pub is_disabled: bool,
    pub single_connections: Vec<usize>,
}

/// What an `IncomingConnection` says.
#[verifier::ext_equal]
pub struct IncomingView {
    pub user: TrustedView,
    pub active: Option<FileView>,
    pub percent: u64,
    pub is_downloading: bool,
    pub finished: Seq<Seq<char>>,
    pub disabled: bool,
    pub open: Seq<usize>,
}

impl View for IncomingConnection {
    type V = IncomingView;

    open spec fn view(&self) -> IncomingView {
        IncomingView {
            user: self.user@,
            active: opt_file(self.active_download),
            percent: self.active_download_percent,
            is_downloading: self.is_downloading,
            finished: texts(self.finished_downloads@),
            disabled: self.is_disabled,
            open: self.single_connections@,
        }
    }
}

/// Nothing has happened with a user yet.
pub open spec fn fresh(user: TrustedView) -> IncomingView {
    IncomingView {
        user,
        active: None,
        percent: 0,
        is_downloading: false,
        finished: seq![],
        disabled: false,
        open: seq![],
    }
}

impl IncomingConnection {
    pub fn new(user: TrustedUser) -> (c: IncomingConnection)
        ensures
            c@ == fresh(user@),
    {
        let c = IncomingConnection {
            user,
            active_download: None,
            active_download_percent: 0,
            is_downloading: false,
            finished_downloads: Vec::new(),
            is_disabled: false,
            single_connections: Vec::new(),
        };
        assert(c@.finished =~= seq![]);
        assert(c@.open =~= seq![]);
        c
    }
}

/// All users that may connect to us, and all connections there were.
pub struct IncomingConnectionManager {
    pub incoming_connections: NameMap<IncomingConnection>,
    pub single_connections: Vec<SingleConnection>,
}

/// What an `IncomingConnectionManager` says: the users by name, and of each connection whether it
/// was reset.
#[verifier::ext_equal]
pub struct ManagerView {
    pub users: Map<Seq<char>, IncomingView>,
    pub resets: Seq<bool>,
}

impl View for IncomingConnectionManager {
    type V = ManagerView;

    open spec fn view(&self) -> ManagerView {
        ManagerView {
            users: self.incoming_connections@,
            resets: Seq::new(
                self.single_connections@.len(),
                |i: int| self.single_connections@[i].should_reset,
            ),
        }
    }
}

/// The users by name; of two with the same name, the later.
pub open spec fn fresh_map(users: Seq<TrustedView>) -> Map<Seq<char>, IncomingView>
    decreases users.len(),
{
    if users.len() == 0 {
        Map::empty()
    } else {
        fresh_map(users.drop_last()).insert(users.last().name, fresh(users.last()))
    }
}

/// Whether a connection of one of some users is open.
pub open spec fn is_open_among(
    users: Map<Seq<char>, IncomingView>,
    names: spec_fn(Seq<char>) -> bool,
    number: int,
) -> bool {
    exists|name: Seq<char>| #[trigger]
        users.dom().contains(name) && names(name) && users[name].open.contains(number as usize)
}

/// The open connections of some users are reset.
pub open spec fn with_reset(s: ManagerView, names: spec_fn(Seq<char>) -> bool) -> ManagerView {
    ManagerView {
        users: Map::new(
            |name: Seq<char>| s.users.dom().contains(name),
            |name: Seq<char>|
                if names(name) {
                    IncomingView { open: seq![], ..s.users[name] }
                } else {
                    s.users[name]
                },
        ),
        resets: Seq::new(
            s.resets.len(),
            |i: int| s.resets[i] || is_open_among(s.users, names, i),
        ),
    }
}

/// A user is changed.
pub open spec fn with_user(s: ManagerView, name: Seq<char>, user: IncomingView) -> ManagerView {
    ManagerView { users: s.users.insert(name, user), ..s }
}

pub open spec fn among(names: Seq<Seq<char>>) -> spec_fn(Seq<char>) -> bool {
    |name: Seq<char>| names.contains(name)
}

pub open spec fn only(display_name: Seq<char>) -> spec_fn(Seq<char>) -> bool {
    |name: Seq<char>| name == display_name
}

pub open spec fn all_names() -> spec_fn(Seq<char>) -> bool {
    |name: Seq<char>| true
}

/// Marks connections as reset.
fn mark_reset(single_connections: &mut Vec<SingleConnection>, numbers: &Vec<usize>)
    ensures
        final(single_connections)@.len() == old(single_connections)@.len(),
        forall|i: int|
            0 <= i < old(single_connections)@.len() ==> (
            #[trigger] final(single_connections)@[i]).should_reset == (old(
                single_connections,
            )@[i].should_reset || numbers@.contains(i as usize)),
{
    let ghost before = single_connections@;
    let mut k: usize = 0;
    assert(numbers@.take(0) =~= seq![]);
    while k < numbers.len()
        invariant
            k <= numbers@.len(),
            single_connections@.len() == before.len(),
            forall|i: int|
                0 <= i < before.len() ==> (#[trigger] single_connections@[i]).should_reset == (
                before[i].should_reset || numbers@.take(k as int).contains(i as usize)),
        decreases numbers@.len() - k,
    {
        let ghost t = numbers@.take(k as int);
        let ghost u = numbers@.take(k + 1);
        let number: usize = numbers[k];
        proof {
            assert(u =~= t.push(number));
            assert forall|x: usize| #[trigger] u.contains(x) <==> t.contains(x) || x == number by {
                if t.contains(x) {
                    let j = choose|j: int| 0 <= j < t.len() && t[j] == x;
                    assert(u[j] == x);
                }
                assert(u[k as int] == number);
            }
        }
        if number < single_connections.len() {
            single_connections.set(number, SingleConnection { should_reset: true });
        }
        k += 1;
    }
    assert(numbers@.take(k as int) =~= numbers@);
}

impl IncomingConnectionManager {
    pub fn new(users: &Vec<TrustedUser>) -> (m: IncomingConnectionManager)
        ensures
            m@.users == fresh_map(trusted_views(users@)),
            m@.resets == Seq::<bool>::empty(),
    {
        let ghost all = trusted_views(users@);
        let mut incoming_connections: NameMap<IncomingConnection> = NameMap::new();
        let mut i: usize = 0;
        assert(all.take(0) =~= seq![]);
        while i < users.len()
            invariant
                i <= users@.len(),
                all == trusted_views(users@),
                incoming_connections@ == fresh_map(all.take(i as int)),
            decreases users@.len() - i,
        {
            proof {
                assert(all.take(i + 1).drop_last() =~= all.take(i as int));
                assert(all.take(i + 1).last() == users@[i as int]@);
            }
            incoming_connections.insert(
                users[i].display_name.clone(),
                IncomingConnection::new(users[i].clone()),
            );
            i += 1;
        }
        assert(all.take(i as int) =~= all);
        let m = IncomingConnectionManager { incoming_connections, single_connections: Vec::new() };
        assert(m@.resets =~= Seq::<bool>::empty());
        m
    }

    /// Resets all connections of all users.
    pub fn reset_all_connections_for_all_users(&mut self)
        ensures
            final(self)@ == with_reset(old(self)@, all_names()),
    {
        let names = self.incoming_connections.keys();
        self.reset_named(&names);
        proof {
            let s = old(self)@;
            let some = among(names.deep_view());
            assert forall|i: int| is_open_among(s.users, some, i) <==> is_open_among(
                s.users,
                all_names(),
                i,
            ) by {
                if is_open_among(s.users, all_names(), i) {
                    let name = choose|name: Seq<char>| #[trigger]
                        s.users.dom().contains(name) && s.users[name].open.contains(i as usize);
                    assert(s.users.dom().contains(name) && some(name));
                }
            }
            assert(with_reset(s, some).users =~= with_reset(s, all_names()).users);
            assert(with_reset(s, some).resets =~= with_reset(s, all_names()).resets);
        }
    }

    /// Resets all connections of some users.
    pub fn reset_all_connections_for_specific_users(
        &mut self,
        shared_with_display_names: &Vec<String>,
    )
        ensures
            final(self)@ == with_reset(old(self)@, among(shared_with_display_names.deep_view())),
    {
        self.reset_named(shared_with_display_names);
    }

    /// Resets all connections of a user, where there is this user.
    fn reset_one(&mut self, display_name: &str)
        ensures
            final(self)@ == with_reset(old(self)@, only(display_name@)),
    {
        let ghost s = self@;
        let ghost goal = with_reset(s, only(display_name@));
        proof {
            assert forall|i: int| is_open_among(s.users, only(display_name@), i) <==> (
            s.users.dom().contains(display_name@) && s.users[display_name@].open.contains(
                i as usize,
            )) by {
                if s.users.dom().contains(display_name@) {
                    assert(only(display_name@)(display_name@));
                }
            }
        }
        match self.incoming_connections.remove(display_name) {
            Some(connection) => {
                let mut connection = connection;
                mark_reset(&mut self.single_connections, &connection.single_connections);
                connection.single_connections.clear();
                self.incoming_connections.insert(display_name.to_owned(), connection);
            },
            None => {},
        }
        assert(self@.users =~= goal.users);
        assert(self@.resets =~= goal.resets);
    }

    fn reset_named(&mut self, names: &Vec<String>)
        ensures
            final(self)@ == with_reset(old(self)@, among(names.deep_view())),
    {
        let ghost start = self@;
        let ghost all = names.deep_view();
        let mut i: usize = 0;
        proof {
            let goal = with_reset(start, among(all.take(0)));
            assert(start.users =~= goal.users);
            assert(start.resets =~= goal.resets);
        }
        while i < names.len()
            invariant
                i <= names@.len(),
                all == names.deep_view(),
                self@ == with_reset(start, among(all.take(i as int))),
            decreases names@.len() - i,
        {
            let ghost here = self@;
            let ghost name = names@[i as int]@;
            self.reset_one(names[i].as_str());
            proof {
                lemma_reset_one_more(start, all.take(i as int), name);
                assert(all.take(i + 1) =~= all.take(i as int).push(name));
            }
            i += 1;
        }
        assert(all.take(i as int) =~= all);
    }

    /// Resets all connections of a user.
    pub fn reset_all_connections(&mut self, display_name: &str)
        requires
            old(self)@.users.dom().contains(display_name@),
        ensures
            final(self)@ == with_reset(old(self)@, only(display_name@)),
    {
        self.reset_one(display_name);
    }

    /// Removes a user; the user's connections have to end.
    pub fn remove_user(&mut self, display_name: &str)
        requires
            old(self)@.users.dom().contains(display_name@),
        ensures
            final(self)@ == (ManagerView {
                users: old(self)@.users.remove(display_name@),
                ..old(self)@
            }),
    {
        let removed = self.incoming_connections.remove(display_name);
    }

    fn set_disabled(&mut self, display_name: &str, is_disabled: bool)
        requires
            old(self)@.users.dom().contains(display_name@),
        ensures
            final(self)@ == with_user(
                old(self)@,
                display_name@,
                IncomingView { disabled: is_disabled, ..old(self)@.users[display_name@] },
            ),
    {
        let ghost map = self.incoming_connections@;
        match self.incoming_connections.remove(display_name) {
            Some(connection) => {
                let mut connection = connection;
                connection.is_disabled = is_disabled;
                self.incoming_connections.insert(display_name.to_owned(), connection);
                assert(self.incoming_connections@ =~= map.insert(display_name@, connection@));
            },
            None => {},
        }
    }

    pub fn disable_user(&mut self, display_name: &str)
        requires
            old(self)@.users.dom().contains(display_name@),
        ensures
            final(self)@ == with_user(
                old(self)@,
                display_name@,
                IncomingView { disabled: true, ..old(self)@.users[display_name@] },
            ),
    {
        self.set_disabled(display_name, true);
    }

    pub fn enable_user(&mut self, display_name: &str)
        requires
            old(self)@.users.dom().contains(display_name@),
        ensures
            final(self)@ == with_user(
                old(self)@,
                display_name@,
                IncomingView { disabled: false, ..old(self)@.users[display_name@] },
            ),
    {
        self.set_disabled(display_name, false);
    }

    /// Gives a new connection of a user its number. The result is the number, and whether the user
    /// is disabled.
    fn open_connection(&mut self, display_name: &str) -> (r: (usize, bool))
        requires
            old(self)@.users.dom().contains(display_name@),
        ensures
            r.0 == old(self)@.resets.len(),
            r.1 == old(self)@.users[display_name@].disabled,
            final(self)@ == with_connection(old(self)@, display_name@),
    {
        let ghost s = self@;
        let number: usize = self.single_connections.len();
        self.single_connections.push(SingleConnection { should_reset: false });
        assert(self@.resets =~= s.resets.push(false));
        match self.incoming_connections.remove(display_name) {
            Some(connection) => {
                let mut connection = connection;
                let is_disabled = connection.is_disabled;
                connection.single_connections.push(number);
                self.incoming_connections.insert(display_name.to_owned(), connection);
                assert(self.incoming_connections@ =~= s.users.insert(display_name@, connection@));
                (number, is_disabled)
            },
            None => vstd::pervasive::unreached(),
        }
    }

    /// Decides about someone who connects from an address.
    pub fn client_handle_incoming(
        &mut self,
        users: &Vec<TrustedUser>,
        client_connecting_ip: &str,
    ) -> (r: ClientAdmission)
        requires
            client_at(trusted_views(users@), client_connecting_ip@) matches Some(u) ==> old(
                self,
            )@.users.dom().contains(u.name),
        ensures
            match client_at(trusted_views(users@), client_connecting_ip@) {
                None => {
                    &&& r matches ClientAdmission::Rejected(text)
                    &&& text@ == "!!!! WARNING: Rejected unknown IP: "@ + client_connecting_ip@
                    &&& final(self)@ == old(self)@
                },
                Some(u) => {
                    &&& final(self)@ == with_connection(old(self)@, u.name)
                    &&& if old(self)@.users[u.name].disabled {
                        r matches ClientAdmission::Rejected(text) && text@
                            == "!!!! WARNING: Disabled user connecting. Rejected.: "@
                            + client_connecting_ip@
                    } else {
                        r matches ClientAdmission::Accepted { user, number } && user@ == u
                            && number == old(self)@.resets.len()
                    }
                },
            },
    {
        match find_client(users, client_connecting_ip) {
            None => ClientAdmission::Rejected(
                cat2("!!!! WARNING: Rejected unknown IP: ", client_connecting_ip),
            ),
            Some(user) => {
                let (number, is_disabled) = self.open_connection(user.display_name.as_str());
                if is_disabled {
                    ClientAdmission::Rejected(
                        cat2(
                            "!!!! WARNING: Disabled user connecting. Rejected.: ",
                            client_connecting_ip,
                        ),
                    )
                } else {
                    ClientAdmission::Accepted { user, number }
                }
            },
        }
    }

    /// Whether a connection was reset.
    pub fn should_reset(&self, number: usize) -> (r: bool)
        requires
            number < self@.resets.len(),
        ensures
            r == self@.resets[number as int],
    {
        self.single_connections[number].should_reset
    }

    /// Whether nothing more is sent over a connection: it was reset, or the user is disabled or
    /// removed.
    pub fn should_stop_sending(&self, display_name: &str, number: usize) -> (r: bool)
        requires
            number < self@.resets.len(),
        ensures
            r == !may_send(self@, display_name@, number),
    {
        if self.should_reset(number) {
            return true;
        }
        match self.incoming_connections.get(display_name) {
            None => true,
            Some(connection) => connection.is_disabled || !has_number(
                &connection.single_connections,
                number,
            ),
        }
    }

    /// Whether a connection has to end before the next request: nothing more is sent over it, or
    /// the user has got another address or id. With `true`, nothing is being sent to the user.
    pub fn should_stop(
        &mut self,
        display_name: &str,
        number: usize,
        current_ip: &str,
        current_public_id: &str,
    ) -> (r: bool)
        requires
            number < old(self)@.resets.len(),
        ensures
            r == !stays_open(
                old(self)@,
                display_name@,
                number,
                current_ip@,
                current_public_id@,
            ),
            final(self)@ == (if r && old(self)@.users.dom().contains(display_name@) {
                with_user(
                    old(self)@,
                    display_name@,
                    noted(old(self)@.users[display_name@], DownloadNote::Stopped),
                )
            } else {
                old(self)@
            }),
    {
        let sending_ends = self.should_stop_sending(display_name, number);
        let should_stop = match self.incoming_connections.get(display_name) {
            None => return true,
            Some(connection) => sending_ends || !str_eq(
                connection.user.public_id.as_str(),
                current_public_id,
            ) || !str_eq(connection.user.ip_address.as_str(), current_ip),
        };
        if should_stop {
            self.set_download(display_name, DownloadNote::Stopped);
        }
        should_stop
    }

    /// Takes note of a file that is being sent, was sent, or is no longer sent.
    pub fn set_download(&mut self, display_name: &str, state: DownloadNote)
        requires
            old(self)@.users.dom().contains(display_name@),
        ensures
            final(self)@ == with_user(
                old(self)@,
                display_name@,
                noted(old(self)@.users[display_name@], state),
            ),
    {
        let ghost map = self.incoming_connections@;
        match self.incoming_connections.remove(display_name) {
            Some(connection) => {
                let mut connection = connection;
                let ghost before = connection@;
                match state {
                    DownloadNote::Started(file) => {
                        connection.is_downloading = true;
                        connection.active_download = Some(file);
                    },
                    DownloadNote::Percent(percent) => {
                        connection.active_download_percent = percent;
                    },
                    DownloadNote::Finished(path) => {
                        connection.is_downloading = false;
                        let ghost done = connection.finished_downloads@;
                        connection.finished_downloads.push(path);
                        assert(texts(connection.finished_downloads@) =~= texts(done).push(path@));
                    },
                    DownloadNote::Stopped => {
                        connection.is_downloading = false;
                    },
                }
                assert(connection@ =~= noted(before, state));
                self.incoming_connections.insert(display_name.to_owned(), connection);
                assert(self.incoming_connections@ =~= map.insert(display_name@, connection@));
            },
            None => {},
        }
    }
}

fn has_number(numbers: &Vec<usize>, number: usize) -> (r: bool)
    ensures
        r == numbers@.contains(number),
{
    let mut i: usize = 0;
    while i < numbers.len()
        invariant
            i <= numbers@.len(),
            forall|k: int| 0 <= k < i ==> numbers@[k] != number,
        decreases numbers@.len() - i,
    {
        if numbers[i] == number {
            return true;
        }
        i += 1;
    }
    false
}

proof fn lemma_reset_one_more(s: ManagerView, names: Seq<Seq<char>>, name: Seq<char>)
    ensures
        with_reset(with_reset(s, among(names)), only(name)) == with_reset(
            s,
            among(names.push(name)),
        ),
{
    let more = names.push(name);
    let mid = with_reset(s, among(names));
    let a = with_reset(mid, only(name));
    let b = with_reset(s, among(more));
    assert forall|n: Seq<char>| #[trigger] more.contains(n) <==> names.contains(n) || n == name by {
        if names.contains(n) {
            let k = choose|k: int| 0 <= k < names.len() && names[k] == n;
            assert(more[k] == n);
        }
        assert(more[names.len() as int] == name);
    }
    assert(a.users =~= b.users);
    assert forall|i: int| 0 <= i < s.resets.len() implies a.resets[i] == b.resets[i] by {
        if is_open_among(s.users, among(names), i) {
            let n = choose|n: Seq<char>| #[trigger]
                s.users.dom().contains(n) && among(names)(n) && s.users[n].open.contains(
                    i as usize,
                );
            assert(s.users.dom().contains(n) && among(more)(n));
            assert(is_open_among(s.users, among(more), i));
        }
        if is_open_among(mid.users, only(name), i) {
            assert(s.users.dom().contains(name) && among(more)(name));
            assert(s.users[name].open.contains(i as usize));
            assert(is_open_among(s.users, among(more), i));
        }
        if is_open_among(s.users, among(more), i) {
            let n = choose|n: Seq<char>| #[trigger]
                s.users.dom().contains(n) && among(more)(n) && s.users[n].open.contains(
                    i as usize,
                );
            if names.contains(n) {
                assert(s.users.dom().contains(n) && among(names)(n));
                assert(is_open_among(s.users, among(names), i));
            } else {
                assert(mid.users.dom().contains(n) && only(name)(n));
                assert(is_open_among(mid.users, only(name), i));
            }
        }
    }
    assert(a.resets =~= b.resets);
}

/// What is decided about someone who connects.
pub enum ClientAdmission {
    Rejected(String),
    Accepted { user: TrustedUser, number: usize },
}

/// A user has one connection more.
pub open spec fn with_connection(s: ManagerView, name: Seq<char>) -> ManagerView {
    ManagerView {
        users: s.users.insert(
            name,
            IncomingView {
                open: s.users[name].open.push(s.resets.len() as usize),
                ..s.users[name]
            },
        ),
        resets: s.resets.push(false),
    }
}

/// Whether something may be sent over a connection.
pub open spec fn may_send(s: ManagerView, name: Seq<char>, number: usize) -> bool {
    &&& s.users.dom().contains(name)
    &&& s.users[name].open.contains(number)
    &&& !s.resets[number as int]
    &&& !s.users[name].disabled
}

/// Whether a connection goes on.
pub open spec fn stays_open(
    s: ManagerView,
    name: Seq<char>,
    number: usize,
    ip: Seq<char>,
    public_id: Seq<char>,
) -> bool {
    &&& may_send(s, name, number)
    &&& s.users[name].user.public_id == public_id
    &&& s.users[name].user.ip == ip
}

/// What happens with a file.
pub enum DownloadNote {
    Started(SharedFile),
    Percent(u64),
    Finished(String),
    Stopped,
}

pub open spec fn noted(c: IncomingView, note: DownloadNote) -> IncomingView {
    match note {
        DownloadNote::Started(file) => IncomingView {
            is_downloading: true,
            active: Some(file@),
            ..c
        },
        DownloadNote::Percent(percent) => IncomingView { percent, ..c },
        DownloadNote::Finished(path) => IncomingView {
            is_downloading: false,
            finished: c.finished.push(path@),
            ..c
        },
        DownloadNote::Stopped => IncomingView { is_downloading: false, ..c },
    }
}

/// Once connections have been reset, none of the users' connections that were open goes on; what
/// the others have goes on as before, unless it carries the number of one that was reset.
pub proof fn law_reset_ends_connections(
    s: ManagerView,
    names: spec_fn(Seq<char>) -> bool,
    name: Seq<char>,
    number: usize,
)
    requires
        number < s.resets.len(),
    ensures
        names(name) && may_send(s, name, number) ==> with_reset(s, names).resets[number as int],
        names(name) ==> !may_send(with_reset(s, names), name, number),
        !names(name) && !is_open_among(s.users, names, number as int) ==> (may_send(
            with_reset(s, names),
            name,
            number,
        ) <==> may_send(s, name, number)),
{
    if names(name) && may_send(s, name, number) {
        assert(s.users.dom().contains(name));
        assert(is_open_among(s.users, names, number as int));
    }
}

/// A removed or disabled user is sent nothing more.
pub proof fn law_removed_user_is_sent_nothing(s: ManagerView, name: Seq<char>, number: usize)
    ensures
        !may_send(ManagerView { users: s.users.remove(name), ..s }, name, number),
        !may_send(
            with_user(s, name, IncomingView { disabled: true, ..s.users[name] }),
            name,
            number,
        ),
{
}

/// The last user with an address.
pub open spec fn client_at(users: Seq<TrustedView>, ip: Seq<char>) -> Option<TrustedView>
    decreases users.len(),
{
    if users.len() == 0 {
        None
    } else if users.last().ip == ip {
        Some(users.last())
    } else {
        client_at(users.drop_last(), ip)
    }
}

/// Finds who connects from an address.
pub fn find_client(users: &Vec<TrustedUser>, client_connecting_ip: &str) -> (r: Option<
    TrustedUser,
>)
    ensures
        match client_at(trusted_views(users@), client_connecting_ip@) {
            Some(u) => r is Some && r->0@ == u,
            None => r is None,
        },
{
    let ghost all = trusted_views(users@);
    let mut i: usize = users.len();
    assert(all.take(i as int) =~= all);
    while i > 0
        invariant
            i <= users@.len(),
            all == trusted_views(users@),
            client_at(all, client_connecting_ip@) == client_at(
                all.take(i as int),
                client_connecting_ip@,
            ),
        decreases i,
    {
        i -= 1;
        proof {
            assert(all.take(i + 1).drop_last() =~= all.take(i as int));
            assert(all.take(i + 1).last() == users@[i as int]@);
        }
        if str_eq(users[i].ip_address.as_str(), client_connecting_ip) {
            return Some(users[i].clone());
        }
    }
    None
}

/// The key that a buffer carries, where the owner of a public id has signed it.
pub open spec fn signed_key(public_id: Seq<char>, buffer: Seq<u8>) -> Option<Seq<u8>> {
    let key = buffer.subrange(PAYLOAD_OFFSET as int, PAYLOAD_OFFSET + 32);
    let signature = buffer.subrange(PAYLOAD_OFFSET + 32, PAYLOAD_OFFSET + 96);
    if is_base64(public_id) && ed25519_valid(base64_bytes(public_id), key, signature) {
        Some(key)
    } else {
        None
    }
}

/// Takes the key out of a buffer, where the owner of a public id has signed it.
pub fn check_signed_key(public_id: &str, buffer: &[u8]) -> (r: Option<[u8; 32]>)
    requires
        buffer@.len() == TOTAL_BUFFER_SIZE,
    ensures
        match signed_key(public_id@, buffer@) {
            Some(key) => r is Some && r->0@ == key,
            None => r is None,
        },
{
    let key = slice_subrange(buffer, PAYLOAD_OFFSET, PAYLOAD_OFFSET + 32);
    let signature = slice_subrange(buffer, PAYLOAD_OFFSET + 32, PAYLOAD_OFFSET + 96);
    let public_key = match get_bytes_from_base64_str(public_id) {
        Ok(bytes) => bytes,
        Err(_) => return None,
    };
    proof {
        assert(encoded(public_key@) == public_id@);
        law_encoded_injective(base64_bytes(public_id@), public_key@);
    }
    if ring_verify(public_key.as_slice(), key, signature) {
        Some(array_32(key))
    } else {
        None
    }
}

/// The public key of a secret, signed with a private id; an error where the private id is none.
pub fn diffie_payload(private_id: &[u8], secret: &[u8; 32]) -> (r: Result<Vec<u8>, String>)
    ensures
        match ed25519_public_key(private_id@) {
            Ok(public_key) => r is Ok && r->Ok_0@ == x25519_public(secret@) + ed25519_signature(
                private_id@,
                x25519_public(secret@),
            ) && r->Ok_0@.len() == 96 && r->Ok_0@.subrange(0, 32) == x25519_public(secret@)
                && ed25519_valid(
                public_key,
                r->Ok_0@.subrange(0, 32),
                r->Ok_0@.subrange(32, 96),
            ),
            Err(e) => r is Err && r->Err_0@ == e,
        },
{
    let public_key = dalek_public(secret);
    match ring_sign(private_id, public_key.as_slice()) {
        Err(e) => Err(e),
        Ok(signature) => {
            let mut signature = signature;
            let ghost sig = signature@;
            let mut payload = slice_to_vec(public_key.as_slice());
            payload.append(&mut signature);
            assert(payload@.subrange(0, 32) =~= public_key@);
            assert(payload@.subrange(32, 96) =~= sig);
            Ok(payload)
        },
    }
}

/// Someone who knows a secret can read the key that its owner's signed payload carries.
proof fn lemma_payload_is_signed(
    private_id: Seq<u8>,
    secret: Seq<u8>,
    buffer: Seq<u8>,
    msg: u8,
    payload: Seq<u8>,
)
    requires
        buffer.len() == TOTAL_BUFFER_SIZE,
        ed25519_public_key(private_id) is Ok,
        payload.len() == 96,
        payload.subrange(0, 32) == x25519_public(secret),
        ed25519_valid(
            ed25519_public_key(private_id)->Ok_0,
            payload.subrange(0, 32),
            payload.subrange(32, 96),
        ),
    ensures
        signed_key(
            encoded(ed25519_public_key(private_id)->Ok_0),
            with_message(buffer, msg, payload),
        ) == Some(x25519_public(secret)),
{
    let public_key = ed25519_public_key(private_id)->Ok_0;
    let reply = with_message(buffer, msg, payload);
    assert(is_base64(encoded(public_key)));
    law_encoded_injective(base64_bytes(encoded(public_key)), public_key);
    assert(reply.subrange(PAYLOAD_OFFSET as int, PAYLOAD_OFFSET + 32) =~= payload.subrange(0, 32));
    assert(reply.subrange(PAYLOAD_OFFSET + 32, PAYLOAD_OFFSET + 96) =~= payload.subrange(32, 96));
}

/// The error where a trusted user has not signed the key that came.
pub open spec fn failed_signature_text(name: Seq<char>, ip: Seq<char>) -> Seq<char> {
    "ERROR: Incoming connection failed signature. Public key isn't valid. "@ + name + " - "@ + ip
}

/// Answers the key of a trusted user with our own, and agrees on the key for all that follows.
/// The result is what to send, and that key.
pub fn answer_handshake(
    private_id: &[u8],
    secret: &[u8; 32],
    user: &TrustedUser,
    client_connecting_ip: &str,
    buffer: Vec<u8>,
    msg: u8,
) -> (r: Result<(Vec<u8>, [u8; 32]), String>)
    requires
        buffer@.len() == TOTAL_BUFFER_SIZE,
    ensures
        match (ed25519_public_key(private_id@), signed_key(user@.public_id, buffer@)) {
            (Err(e), _) => r is Err && r->Err_0@ == e,
            (Ok(_), None) => r is Err && r->Err_0@ == failed_signature_text(
                user@.name,
                client_connecting_ip@,
            ),
            (Ok(public_key), Some(key)) => {
                &&& r is Ok
                &&& (r->Ok_0).0@ == with_message(
                    buffer@,
                    msg,
                    x25519_public(secret@) + ed25519_signature(private_id@, x25519_public(secret@)),
                )
                &&& (r->Ok_0).1@ == x25519_shared(secret@, key)
                &&& signed_key(encoded(public_key), (r->Ok_0).0@) == Some(x25519_public(secret@))
                &&& forall|other: Seq<u8>|
                    other.len() == 32 && #[trigger] x25519_public(other) == key ==> (r->Ok_0).1@
                        == x25519_shared(other, x25519_public(secret@))
            },
        },
{
    let payload = match diffie_payload(private_id, secret) {
        Ok(payload) => payload,
        Err(e) => return Err(e),
    };
    let key = match check_signed_key(user.public_id.as_str(), buffer.as_slice()) {
        Some(key) => key,
        None => return Err(
            cat2(
                cat3(
                    "ERROR: Incoming connection failed signature. Public key isn't valid. ",
                    user.display_name.as_str(),
                    " - ",
                ).as_str(),
                client_connecting_ip,
            ),
        ),
    };
    let mut reply = buffer;
    set_buffer(&mut reply, msg, payload.as_slice());
    proof {
        lemma_payload_is_signed(private_id@, secret@, buffer@, msg, payload@);
    }
    let encryption_key = dalek_shared(secret, &key);
    Ok((reply, encryption_key))
}

/// What a trusted user asks for.
pub enum TrustedRequest {
    FileList,
    InvalidFile,
    Directory,
    SendFile { file: SharedFile, seek_point: u64 },
    TooShort,
    NoText,
    Unknown(String),
}

/// What a `TrustedRequest` says.
pub enum TrustedRequestView {
    FileList,
    InvalidFile,
    Directory,
    SendFile { file: FileView, seek_point: u64 },
    TooShort,
    NoText,
    Unknown(Seq<char>),
}

impl View for TrustedRequest {
    type V = TrustedRequestView;

    open spec fn view(&self) -> TrustedRequestView {
        match self {
            TrustedRequest::FileList => TrustedRequestView::FileList,
            TrustedRequest::InvalidFile => TrustedRequestView::InvalidFile,
            TrustedRequest::Directory => TrustedRequestView::Directory,
            TrustedRequest::SendFile { file, seek_point } => TrustedRequestView::SendFile {
                file: file@,
                seek_point: *seek_point,
            },
            TrustedRequest::TooShort => TrustedRequestView::TooShort,
            TrustedRequest::NoText => TrustedRequestView::NoText,
            TrustedRequest::Unknown(s) => TrustedRequestView::Unknown(s@),
        }
    }
}

/// What a trusted user asks for with a message, of what this user may have.
pub open spec fn trusted_request(msg: u8, payload: Seq<u8>, everything_file: FileView) ->
    TrustedRequestView {
    if msg as u16 == MSG_FILE_LIST {
        TrustedRequestView::FileList
    } else if msg as u16 == MSG_FILE_SELECTION_CONTINUE {
        if payload.len() < 8 {
            TrustedRequestView::TooShort
        } else if !valid_utf8(payload.skip(8)) {
            TrustedRequestView::NoText
        } else {
            match file_at(decode_utf8(payload.skip(8)), everything_file) {
                None => TrustedRequestView::InvalidFile,
                Some(file) => if file.is_directory {
                    TrustedRequestView::Directory
                } else {
                    TrustedRequestView::SendFile {
                        file,
                        seek_point: be_value(payload.take(8)) as u64,
                    }
                },
            }
        }
    } else {
        TrustedRequestView::Unknown("Invalid client selection "@ + decimal(msg as nat))
    }
}

/// Decides what follows from a message of a trusted user.
pub fn client_handle_incoming_loop(msg: u8, payload: &[u8], everything_file: &SharedFile) -> (r:
    TrustedRequest)
    ensures
        r@ == trusted_request(msg, payload@, everything_file@),
{
    if msg as u16 == MSG_FILE_LIST {
        return TrustedRequest::FileList;
    }
    if msg as u16 == MSG_FILE_SELECTION_CONTINUE {
        if payload.len() < 8 {
            return TrustedRequest::TooShort;
        }
        let seek_bytes = slice_subrange(payload, 0, 8);
        let path_bytes = slice_subrange(payload, 8, payload.len());
        assert(seek_bytes@ =~= payload@.take(8));
        assert(path_bytes@ =~= payload@.skip(8));
        let seek_point: u64 = from_be_bytes(seek_bytes);
        let path = match text_from_utf8(path_bytes) {
            Ok(path) => path,
            Err(_) => return TrustedRequest::NoText,
        };
        return match get_file_by_path(path.as_str(), everything_file) {
            None => TrustedRequest::InvalidFile,
            Some(file) => if file.is_directory {
                TrustedRequest::Directory
            } else {
                TrustedRequest::SendFile { file, seek_point }
            },
        };
    }
    TrustedRequest::Unknown(
        cat2("Invalid client selection ", decimal_string(msg as u64).as_str()),
    )
}

/// The message that answers a trusted user's request for what cannot be sent: nothing comes with
/// it.
pub open spec fn trusted_refusal_of(q: TrustedRequestView) -> Option<(u16, Seq<u8>)> {
    match q {
        TrustedRequestView::InvalidFile => Some((MSG_FILE_INVALID_FILE, Seq::empty())),
        TrustedRequestView::Directory => Some((MSG_CANNOT_SELECT_DIRECTORY, Seq::empty())),
        _ => None,
    }
}

/// The message that answers a trusted user's request for what cannot be sent.
pub fn trusted_refusal(q: &TrustedRequest) -> (r: Option<(u16, Vec<u8>)>)
    ensures
        opt_message(r) == trusted_refusal_of(q@),
{
    match q {
        TrustedRequest::InvalidFile => Some((MSG_FILE_INVALID_FILE, Vec::new())),
        TrustedRequest::Directory => Some((MSG_CANNOT_SELECT_DIRECTORY, Vec::new())),
        _ => None,
    }
}

/// A trusted user who asks for a file is sent that file from the place asked for, where it is
/// offered. One who asks for what is not offered, or for a directory, is told so by a message of
/// its own without content.
pub proof fn law_trusted_request_is_answered(
    msg: u8,
    from: u64,
    path: Seq<char>,
    everything_file: FileView,
)
    requires
        msg as u16 == MSG_FILE_SELECTION_CONTINUE,
    ensures
        ({
            let asked = trusted_request(msg, selection(from, path), everything_file);
            match file_at(path, everything_file) {
                None => trusted_refusal_of(asked) == Some(
                    (MSG_FILE_INVALID_FILE, Seq::<u8>::empty()),
                ),
                Some(file) => if file.is_directory {
                    trusted_refusal_of(asked) == Some(
                        (MSG_CANNOT_SELECT_DIRECTORY, Seq::<u8>::empty()),
                    )
                } else {
                    &&& asked == (TrustedRequestView::SendFile { file, seek_point: from })
                    &&& trusted_refusal_of(asked) is None
                },
            }
        }),
{
    let payload = selection(from, path);
    lemma_pow256();
    law_be_value_of_be_bytes(from as nat, 8);
    lemma_be_bytes_len(from as nat, 8);
    encode_utf8_valid_utf8(path);
    encode_utf8_decode_utf8(path);
    assert(payload.take(8) =~= be_bytes(from as nat, 8));
    assert(payload.skip(8) =~= encode_utf8(path));
}

/// The messages that carry a part of a file; an empty part is the last.
pub fn chunk_messages(part: &[u8]) -> (v: Vec<(u16, Vec<u8>)>)
    ensures
        piece_views(v@) == (if part@.len() == 0 {
            seq![(MSG_FILE_CHUNK, part@), (MSG_FILE_FINISHED, Seq::<u8>::empty())]
        } else {
            seq![(MSG_FILE_CHUNK, part@)]
        }),
{
    let mut v: Vec<(u16, Vec<u8>)> = Vec::new();
    v.push((MSG_FILE_CHUNK, slice_to_vec(part)));
    if part.len() == 0 {
        v.push((MSG_FILE_FINISHED, Vec::new()));
        assert(piece_views(v@) =~= seq![
            (MSG_FILE_CHUNK, part@),
            (MSG_FILE_FINISHED, Seq::<u8>::empty()),
        ]);
    } else {
        assert(piece_views(v@) =~= seq![(MSG_FILE_CHUNK, part@)]);
    }
    v
}

/// What is done about connections in a sharing mode.
#[derive(Debug)]
pub enum WaitStep {
    SleepSecs(u64),
    Listen(String),
    Invalid(String),
}

/// Decides what is done about connections in a sharing mode.
pub fn client_wait_for_incoming(sharing_mode: &str, server_port: &str) -> (step: WaitStep)
    ensures
        if sharing_mode@ == "Off"@ {
            step == WaitStep::SleepSecs(1)
        } else if sharing_mode@ == "Local Network"@ {
            step matches WaitStep::Listen(a) && a@ == "127.0.0.1"@ + ":"@ + server_port@
        } else if sharing_mode@ == "Internet"@ {
            step matches WaitStep::Listen(a) && a@ == "0.0.0.0"@ + ":"@ + server_port@
        } else {
            step matches WaitStep::Invalid(e) && e@
                == "Server flag invalid. 'Local Network' or 'Internet' is valid. Yours -> "@
                + sharing_mode@
        },
{
    if str_eq(sharing_mode, "Off") {
        WaitStep::SleepSecs(1)
    } else if str_eq(sharing_mode, "Local Network") {
        WaitStep::Listen(cat3("127.0.0.1", ":", server_port))
    } else if str_eq(sharing_mode, "Internet") {
        WaitStep::Listen(cat3("0.0.0.0", ":", server_port))
    } else {
        WaitStep::Invalid(
            cat2(
                "Server flag invalid. 'Local Network' or 'Internet' is valid. Yours -> ",
                sharing_mode,
            ),
        )
    }
}

/// Whether a listener has to be closed because the sharing mode is another now.
pub fn has_mode_changed(sharing_mode: &str, new_sharing_mode: &str) -> (r: bool)
    ensures
        r == (new_sharing_mode@ == "Off"@ || new_sharing_mode@ != sharing_mode@),
{
    str_eq(new_sharing_mode, "Off") || !str_eq(new_sharing_mode, sharing_mode)
}

/// Who connects from an address is a user with that address, the last of them where there are more;
/// nobody is found exactly where no user has it.
pub proof fn law_client_has_the_address(users: Seq<TrustedView>, ip: Seq<char>)
    ensures
        match client_at(users, ip) {
            Some(u) => exists|i: int|
                0 <= i < users.len() && #[trigger] users[i] == u && u.ip == ip && forall|k: int|
                    i < k < users.len() ==> (#[trigger] users[k]).ip != ip,
            None => forall|i: int| 0 <= i < users.len() ==> (#[trigger] users[i]).ip != ip,
        },
    decreases users.len(),
{
    if users.len() > 0 {
        let front = users.drop_last();
        law_client_has_the_address(front, ip);
        assert(users[users.len() - 1] == users.last());
        if users.last().ip != ip {
            match client_at(front, ip) {
                Some(u) => {
                    let i = choose|i: int|
                        0 <= i < front.len() && #[trigger] front[i] == u && u.ip == ip && forall|
                            k: int,
                        |
                            i < k < front.len() ==> (#[trigger] front[k]).ip != ip;
                    assert(users[i] == u);
                    assert forall|k: int| i < k < users.len() implies (#[trigger] users[k]).ip
                        != ip by {
                        if k < front.len() {
                            assert(front[k] == users[k]);
                        }
                    }
                },
                None => {
                    assert forall|i: int| 0 <= i < users.len() implies (#[trigger] users[i]).ip
                        != ip by {
                        if i < front.len() {
                            assert(front[i] == users[i]);
                        }
                    }
                },
            }
        }
    }
}

/// A new connection of a user gets a number that none had before. Something may be sent over it
/// unless the user is disabled; all other connections are as they were, and so is what is known of
/// the user.
pub proof fn law_new_connection_is_open(
    s: ManagerView,
    name: Seq<char>,
    other: Seq<char>,
    number: usize,
)
    requires
        s.users.dom().contains(name),
        s.resets.len() <= usize::MAX,
        number < s.resets.len(),
    ensures
        ({
            let t = with_connection(s, name);
            &&& t.resets.len() == s.resets.len() + 1
            &&& may_send(t, name, s.resets.len() as usize) <==> !s.users[name].disabled
            &&& may_send(t, other, number) <==> may_send(s, other, number)
            &&& t.users.dom() == s.users.dom()
            &&& other != name ==> t.users[other] == s.users[other]
            &&& t.users[name] == (IncomingView { open: t.users[name].open, ..s.users[name] })
        }),
{
    let t = with_connection(s, name);
    let next = s.resets.len() as usize;
    let before = s.users[name].open;
    let after = t.users[name].open;
    assert(t.users.dom() =~= s.users.dom());
    assert(after[before.len() as int] == next);
    assert(after.contains(next));
    assert(before.contains(number) <==> after.contains(number)) by {
        if before.contains(number) {
            let k = choose|k: int| 0 <= k < before.len() && before[k] == number;
            assert(after[k] == number);
        }
        if after.contains(number) {
            let k = choose|k: int| 0 <= k < after.len() && after[k] == number;
            assert(before[k] == number);
        }
    }
}

/// Something may be sent over a connection only as long as its user is there and enabled, has it
/// open, and it was not reset; it goes on only as long as the user has the address and the id it
/// was made with.
pub proof fn law_connection_goes_on(
    s: ManagerView,
    name: Seq<char>,
    number: usize,
    ip: Seq<char>,
    public_id: Seq<char>,
)
    ensures
        may_send(s, name, number) <==> s.users.dom().contains(name)
            && s.users[name].open.contains(number) && !s.resets[number as int]
            && !s.users[name].disabled,
        stays_open(s, name, number, ip, public_id) <==> may_send(s, name, number)
            && s.users[name].user.ip == ip && s.users[name].user.public_id == public_id,
{
}

/// A user who is enabled again may be sent what could be sent before.
pub proof fn law_enabled_user_is_sent_to(s: ManagerView, name: Seq<char>, number: usize)
    requires
        s.users.dom().contains(name),
    ensures
        ({
            let off = with_user(s, name, IncomingView { disabled: true, ..s.users[name] });
            let on = with_user(off, name, IncomingView { disabled: false, ..off.users[name] });
            may_send(on, name, number) <==> s.users[name].open.contains(number)
                && !s.resets[number as int]
        }),
{
}

/// A file that is being sent is shown until it was sent or no longer is; what was sent is kept, in
/// order, and nothing else of the user changes.
pub proof fn law_notes_are_kept(
    c: IncomingView,
    file: SharedFile,
    percent: u64,
    path: String,
)
    ensures
        ({
            let d = noted(c, DownloadNote::Started(file));
            &&& d.is_downloading && d.active == Some(file@)
            &&& d == (IncomingView { is_downloading: true, active: d.active, ..c })
        }),
        ({
            let d = noted(c, DownloadNote::Percent(percent));
            &&& d.percent == percent
            &&& d == (IncomingView { percent: d.percent, ..c })
        }),
        ({
            let d = noted(c, DownloadNote::Finished(path));
            &&& !d.is_downloading
            &&& d.finished.len() == c.finished.len() + 1
            &&& d.finished.last() == path@
            &&& d.finished.drop_last() == c.finished
            &&& d == (IncomingView { is_downloading: false, finished: d.finished, ..c })
        }),
        ({
            let d = noted(c, DownloadNote::Stopped);
            &&& !d.is_downloading
            &&& d == (IncomingView { is_downloading: false, ..c })
        }),
{
    assert(noted(c, DownloadNote::Finished(path)).finished.drop_last() =~= c.finished);
}

/// At the start every user is there, enabled and with nothing open or sent; of two with the same
/// name, the later.
pub proof fn law_users_start_fresh(users: Seq<TrustedView>, name: Seq<char>)
    ensures
        fresh_map(users).dom().contains(name) <==> exists|i: int|
            0 <= i < users.len() && (#[trigger] users[i]).name == name,
        fresh_map(users).dom().contains(name) ==> ({
            let c = fresh_map(users)[name];
            &&& users.contains(c.user) && c.user.name == name
            &&& !c.disabled && !c.is_downloading && c.active is None && c.percent == 0
            &&& c.open.len() == 0 && c.finished.len() == 0
        }),
        users.len() > 0 ==> fresh_map(users)[users.last().name].user == users.last(),
    decreases users.len(),
{
    if users.len() > 0 {
        let front = users.drop_last();
        law_users_start_fresh(front, name);
        assert(users[users.len() - 1] == users.last());
        if fresh_map(front).dom().contains(name) {
            let u = fresh_map(front)[name].user;
            let k = choose|k: int| 0 <= k < front.len() && front[k] == u;
            assert(users[k] == u);
            let i = choose|i: int| 0 <= i < front.len() && (#[trigger] front[i]).name == name;
            assert(users[i] == front[i]);
        }
        if exists|i: int| 0 <= i < users.len() && (#[trigger] users[i]).name == name {
            let i = choose|i: int| 0 <= i < users.len() && (#[trigger] users[i]).name == name;
            if i < front.len() {
                assert(front[i] == users[i]);
            }
        }
    }
}

/// A key is taken out of a buffer exactly where the owner of the public id has signed it, and it is
/// the key that stands in the buffer.
pub proof fn law_key_is_signed(public_id: Seq<char>, buffer: Seq<u8>)
    requires
        buffer.len() == TOTAL_BUFFER_SIZE,
    ensures
        signed_key(public_id, buffer) is Some <==> is_base64(public_id) && ed25519_valid(
            base64_bytes(public_id),
            buffer.subrange(PAYLOAD_OFFSET as int, PAYLOAD_OFFSET + 32),
            buffer.subrange(PAYLOAD_OFFSET + 32, PAYLOAD_OFFSET + 96),
        ),
        signed_key(public_id, buffer) matches Some(key) ==> key == buffer.subrange(
            PAYLOAD_OFFSET as int,
            PAYLOAD_OFFSET + 32,
        ),
{
}

/// A trusted user's request for the list of files is one whatever comes with it; a request for a
/// file that names no place in it is too short, and one whose path is no text is none; every other
/// message is unknown. A file is sent only where the user may have it and it is no directory.
pub proof fn law_trusted_requests_are_told_apart(
    msg: u8,
    payload: Seq<u8>,
    everything_file: FileView,
)
    ensures
        ({
            let asked = trusted_request(msg, payload, everything_file);
            let is_selection = msg as u16 == MSG_FILE_SELECTION_CONTINUE;
            &&& asked is FileList <==> msg as u16 == MSG_FILE_LIST
            &&& asked is TooShort <==> is_selection && payload.len() < 8
            &&& asked is NoText <==> is_selection && payload.len() >= 8 && !valid_utf8(
                payload.skip(8),
            )
            &&& asked is Unknown <==> msg as u16 != MSG_FILE_LIST && !is_selection
            &&& asked matches TrustedRequestView::SendFile { file, .. } ==> !file.is_directory
                && is_within(file, everything_file)
        }),
{
    if trusted_request(msg, payload, everything_file) is SendFile {
        law_file_at(decode_utf8(payload.skip(8)), everything_file);
    }
}

/// Resetting connections ends those of the named users and changes nothing else of anybody.
pub proof fn law_reset_does_no_more(
    s: ManagerView,
    names: spec_fn(Seq<char>) -> bool,
    name: Seq<char>,
    number: int,
)
    ensures
        ({
            let t = with_reset(s, names);
            &&& t.users.dom() == s.users.dom()
            &&& s.users.dom().contains(name) && !names(name) ==> t.users[name] == s.users[name]
            &&& s.users.dom().contains(name) && names(name) ==> t.users[name].open.len() == 0
                && t.users[name] == (IncomingView { open: t.users[name].open, ..s.users[name] })
            &&& t.resets.len() == s.resets.len()
            &&& 0 <= number < s.resets.len() ==> (t.resets[number] <==> s.resets[number] || exists|
                other: Seq<char>,
            | #[trigger]
                s.users.dom().contains(other) && names(other) && s.users[other].open.contains(
                    number as usize,
                ))
        }),
{
    assert(with_reset(s, names).users.dom() =~= s.users.dom());
}

/// A request that is not understood is answered with the number that came.
pub proof fn law_unknown_request_is_named(msg: u8, payload: Seq<u8>, everything_file: FileView)
    ensures
        trusted_request(msg, payload, everything_file) matches TrustedRequestView::Unknown(text)
            ==> has_part(text, decimal(msg as nat)),
{
    let none = Seq::<char>::empty();
    let text = "Invalid client selection "@ + decimal(msg as nat);
    law_parts_are_found("Invalid client selection "@, decimal(msg as nat), none);
    assert(text + none =~= text);
}

} // verus!
