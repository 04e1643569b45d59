//! Uploads to other users.
use vstd::prelude::*;
use vstd::slice::{slice_subrange, slice_to_vec};
use vstd::utf8::{decode_utf8, valid_utf8};
use crate::app_aggregator::{reports, AppAggMessage, ReportView};
use crate::bytes::{be_value, from_be_bytes};
use crate::config::{has_nickname, has_text, is_nickname, Config, SharedUser, UserView};
use crate::core_consts::{MAX_DATA_SIZE, MSG_CANNOT_SELECT_DIRECTORY, MSG_FILE_CHUNK, MSG_FILE_FINISHED, MSG_FILE_INVALID_FILE, MSG_FILE_LIST, MSG_FILE_LIST_FINAL, MSG_FILE_LIST_PIECE, MSG_FILE_SELECTION_CONTINUE, MSG_REVERSE};
use crate::logger::LogLevel;
use crate::shared_file::{FileView, SharedFile};
use crate::text::{cat2, cat3, cat5, decimal, decimal_string, has_part, has_prefix, law_parts_are_found, occurs_at, starts_with, str_eq, text_from_utf8, utf8_refusal};
use crate::transmitic_core::{SingleUploadState, UploadView};
use crate::utils::{file_at, get_file_by_path, is_within, law_file_at};

verus! {

/// Who may connect.
#[derive(Clone, Copy, Debug, PartialEq, Eq, Structural)]
pub enum SharingState {
    Off,
    Local,
    Internet,
}

/// Why nobody can connect.
#[derive(Debug)]
pub enum IncomingUploaderError {
    PortInUse,
    Generic(String),
}

impl Clone for IncomingUploaderError {
    fn clone(&self) -> (r: Self)
        ensures
            r == *self,
    {
        match self {
            IncomingUploaderError::PortInUse => IncomingUploaderError::PortInUse,
            IncomingUploaderError::Generic(e) => IncomingUploaderError::Generic(e.clone()),
        }
    }
}

/// What the manager of all uploads is told.
pub enum MessageUploadManager {
    SharingStateMsg(SharingState),
    NewConfig(Config),
}

/// What the manager of all uploads does next, and what is reported.
#[derive(Debug)]
pub enum ManagerStep {
    SleepSecs(u64),
    ConnectToUsers(AppAggMessage),
    Listen(String, AppAggMessage),
}

/// What a `ManagerStep` says.
pub enum ManagerStepView {
    SleepSecs(u64),
    ConnectToUsers(ReportView),
    Listen(Seq<char>, ReportView),
}

impl View for ManagerStep {
    type V = ManagerStepView;

    open spec fn view(&self) -> ManagerStepView {
        match self {
            ManagerStep::SleepSecs(n) => ManagerStepView::SleepSecs(*n),
            ManagerStep::ConnectToUsers(m) => ManagerStepView::ConnectToUsers(m@),
            ManagerStep::Listen(address, m) => ManagerStepView::Listen(address@, m@),
        }
    }
}

/// What the manager of all uploads does next: nothing where nobody may connect; else it connects to
/// users, or waits for them.
pub open spec fn manager_step(
    state: SharingState,
    port: Seq<char>,
    is_reverse_connection: bool,
) -> ManagerStepView {
    if state == SharingState::Off {
        ManagerStepView::SleepSecs(1)
    } else if is_reverse_connection {
        ManagerStepView::ConnectToUsers(
            ReportView::Log(LogLevel::Info, "Reverse Connections Starting"@),
        )
    } else {
        ManagerStepView::Listen(
            listen_address(state, port),
            ReportView::Log(
                LogLevel::Info,
                "Waiting for incoming uploads on "@ + listen_address(state, port),
            ),
        )
    }
}

/// The manager of all uploads.
pub struct UploaderManager {
    pub stop_incoming: bool,
    pub config: Config,
    pub sharing_state: SharingState,
}

/// The address that is listened on.
pub open spec fn listen_address(state: SharingState, port: Seq<char>) -> Seq<char> {
    (if state == SharingState::Local {
        "127.0.0.1"@
    } else {
        "0.0.0.0"@
    }) + ":"@ + port
}

/// How long to wait before users are connected to again, in seconds.
pub open spec fn next_wait(sleep: u32, max: u32) -> u32 {
    if sleep * 3 > max {
        max
    } else {
        (sleep * 3) as u32
    }
}

/// How long to wait before users are connected to again.
pub fn next_reverse_sleep(sleep: u32, max_rev_sleep: u32) -> (n: u32)
    requires
        sleep * 3 <= u32::MAX,
    ensures
        n == next_wait(sleep, max_rev_sleep),
        n <= max_rev_sleep,
{
    if sleep * 3 > max_rev_sleep {
        max_rev_sleep
    } else {
        sleep * 3
    }
}

/// What is done between two rounds of connecting to users.
#[derive(Clone, Copy, Debug, PartialEq, Eq, Structural)]
pub enum ReverseStep {
    Stop,
    SleepSecond,
    Connect,
}

/// The wait between two rounds of connecting to users: it lasts `sleep` looks for messages, one
/// in a second, and is longer each time.
#[derive(Clone, Copy, Debug, PartialEq, Eq, Structural)]
pub struct ReverseWait {
    pub sleep: u32,
    pub loop_counter: u32,
}

/// The wait after a look for messages, and what is done next.
pub open spec fn waited(w: ReverseWait, stop_incoming: bool, max: u32) -> (
    ReverseWait,
    ReverseStep,
) {
    if stop_incoming {
        (w, ReverseStep::Stop)
    } else if w.loop_counter >= w.sleep {
        (ReverseWait { sleep: next_wait(w.sleep, max), loop_counter: 1 }, ReverseStep::Connect)
    } else {
        (
            ReverseWait { loop_counter: (w.loop_counter + 1) as u32, ..w },
            ReverseStep::SleepSecond,
        )
    }
}

impl ReverseWait {
    /// The first wait.
    pub fn new() -> (w: ReverseWait)
        ensures
            w == (ReverseWait { sleep: 1, loop_counter: 1 }),
    {
        ReverseWait { sleep: 1, loop_counter: 1 }
    }

    /// The report that a wait starts.
    pub fn message(&self) -> (m: AppAggMessage)
        ensures
            m@ == ReportView::Log(LogLevel::Info, "Reverse sleep "@ + decimal(self.sleep as nat)),
    {
        AppAggMessage::LogInfo(
            cat2("Reverse sleep ", decimal_string(self.sleep as u64).as_str()),
        )
    }

    /// Decides what is done after a look for messages.
    pub fn tick(&mut self, stop_incoming: bool, max_rev_sleep: u32) -> (step: ReverseStep)
        requires
            old(self).sleep * 3 <= u32::MAX,
        ensures
            (*final(self), step) == waited(*old(self), stop_incoming, max_rev_sleep),
    {
        if stop_incoming {
            return ReverseStep::Stop;
        }
        if self.loop_counter >= self.sleep {
            self.sleep = next_reverse_sleep(self.sleep, max_rev_sleep);
            self.loop_counter = 1;
            return ReverseStep::Connect;
        }
        self.loop_counter = self.loop_counter + 1;
        ReverseStep::SleepSecond
    }
}

/// Whether a connection is opened for a user: there is none yet, and on the local network the
/// user's address has to be local.
pub open spec fn is_connected_to(state: SharingState, u: UserView, in_progress: bool) -> bool {
    !in_progress && !(state == SharingState::Local && !has_prefix(u.ip, "127."@))
}

impl UploaderManager {
    pub fn new(config: Config, sharing_state: SharingState) -> (m: UploaderManager)
        ensures
            !m.stop_incoming,
            m.config == config,
            m.sharing_state == sharing_state,
    {
        UploaderManager { stop_incoming: false, config, sharing_state }
    }

    /// Follows a message. All connections have to be shut down.
    pub fn read_receiver(&mut self, msg: MessageUploadManager)
        ensures
            final(self).stop_incoming,
            match msg {
                MessageUploadManager::SharingStateMsg(state) => final(self).sharing_state == state
                    && final(self).config == old(self).config,
                MessageUploadManager::NewConfig(config) => final(self).config == config
                    && final(self).sharing_state == old(self).sharing_state,
            },
    {
        match msg {
            MessageUploadManager::SharingStateMsg(state) => {
                self.sharing_state = state;
            },
            MessageUploadManager::NewConfig(config) => {
                self.config = config;
            },
        }
        self.stop_incoming = true;
    }

    /// Starts over: from here on, messages end what is done next.
    pub fn start_over(&mut self)
        ensures
            !final(self).stop_incoming,
            final(self).config == old(self).config,
            final(self).sharing_state == old(self).sharing_state,
    {
        self.stop_incoming = false;
    }

    /// Decides what is done next.
    pub fn run(&self, is_reverse_connection: bool) -> (step: ManagerStep)
        ensures
            step@ == manager_step(
                self.sharing_state,
                self.config@.file.sharing_port,
                is_reverse_connection,
            ),
    {
        let host = match self.sharing_state {
            SharingState::Off => return ManagerStep::SleepSecs(1),
            SharingState::Local => "127.0.0.1",
            SharingState::Internet => "0.0.0.0",
        };
        if is_reverse_connection {
            return ManagerStep::ConnectToUsers(
                AppAggMessage::LogInfo("Reverse Connections Starting".to_owned()),
            );
        }
        let port = self.config.get_sharing_port();
        let address = cat3(host, ":", port.as_str());
        let log = AppAggMessage::LogInfo(
            cat2("Waiting for incoming uploads on ", address.as_str()),
        );
        ManagerStep::Listen(address, log)
    }

    /// Whether a connection is opened for a user.
    fn should_connect_to(&self, user: &SharedUser, in_progress: bool) -> (r: bool)
        ensures
            r == is_connected_to(self.sharing_state, user@, in_progress),
    {
        !in_progress && !(self.sharing_state == SharingState::Local && !starts_with(
            user.ip.as_str(),
            "127.",
        ))
    }

    /// The users that connections are opened for, where there are connections for some already.
    pub fn users_to_connect(&self, in_progress: &Vec<String>) -> (v: Vec<SharedUser>)
        ensures
            v.deep_view() == reverse_starts(
                self.sharing_state,
                self.config@.file.shared_users,
                in_progress.deep_view(),
            ),
    {
        let users = self.config.get_shared_users();
        let ghost all = users.deep_view();
        let ghost busy = in_progress.deep_view();
        let mut v: Vec<SharedUser> = Vec::new();
        let mut i: usize = 0;
        assert(v.deep_view() =~= reverse_starts(self.sharing_state, all.take(0), busy));
        while i < users.len()
            invariant
                i <= users@.len(),
                all == users.deep_view(),
                busy == in_progress.deep_view(),
                v.deep_view() == reverse_starts(self.sharing_state, all.take(i as int), busy),
            decreases users@.len() - i,
        {
            proof {
                assert(all.take(i + 1).drop_last() =~= all.take(i as int));
                assert(all.take(i + 1).last() == users@[i as int]@);
            }
            let name = users[i].nickname.as_str();
            let is_busy = has_text(in_progress, name) || has_nickname(&v, name);
            if self.should_connect_to(&users[i], is_busy) {
                let ghost before = v.deep_view();
                v.push(users[i].clone());
                assert(v.deep_view() =~= before.push(users@[i as int]@));
            }
            i += 1;
        }
        assert(all.take(i as int) =~= all);
        v
    }
}

/// The users that connections are opened for: one connection for each, and none for those that
/// have one.
pub open spec fn reverse_starts(
    state: SharingState,
    users: Seq<UserView>,
    in_progress: Seq<Seq<char>>,
) -> Seq<UserView>
    decreases users.len(),
{
    if users.len() == 0 {
        users
    } else {
        let before = reverse_starts(state, users.drop_last(), in_progress);
        let user = users.last();
        if is_connected_to(
            state,
            user,
            in_progress.contains(user.nickname) || is_nickname(before, user.nickname),
        ) {
            before.push(user)
        } else {
            before
        }
    }
}

/// Connections are opened for users of the configuration only, for each of them at most once, for
/// none that has one, and on the local network only for local addresses.
pub proof fn law_one_connection_for_each(
    state: SharingState,
    users: Seq<UserView>,
    in_progress: Seq<Seq<char>>,
)
    ensures
        forall|i: int|
            0 <= i < reverse_starts(state, users, in_progress).len() ==> ({
                let user = #[trigger] reverse_starts(state, users, in_progress)[i];
                &&& users.contains(user)
                &&& !in_progress.contains(user.nickname)
                &&& state == SharingState::Local ==> has_prefix(user.ip, "127."@)
            }),
        forall|i: int, j: int|
            0 <= i < j < reverse_starts(state, users, in_progress).len() ==> (
            #[trigger] reverse_starts(state, users, in_progress)[i]).nickname != (
            #[trigger] reverse_starts(state, users, in_progress)[j]).nickname,
    decreases users.len(),
{
    if users.len() > 0 {
        let front = users.drop_last();
        let before = reverse_starts(state, front, in_progress);
        let all = reverse_starts(state, users, in_progress);
        law_one_connection_for_each(state, front, in_progress);
        assert forall|i: int| 0 <= i < all.len() implies ({
            let user = #[trigger] all[i];
            &&& users.contains(user)
            &&& !in_progress.contains(user.nickname)
            &&& state == SharingState::Local ==> has_prefix(user.ip, "127."@)
        }) by {
            if i < before.len() {
                assert(all[i] == before[i]);
                let k = choose|k: int| 0 <= k < front.len() && front[k] == before[i];
                assert(users[k] == front[k]);
            } else {
                assert(users[users.len() - 1] == users.last());
            }
        }
        assert forall|i: int, j: int| 0 <= i < j < all.len() implies (#[trigger] all[i]).nickname
            != (#[trigger] all[j]).nickname by {
            assert(all[i] == before[i]);
            if j < before.len() {
                assert(all[j] == before[j]);
            }
        }
    }
}

/// The report that a connection is opened for a user.
pub fn reverse_started(nickname: &str) -> (m: AppAggMessage)
    ensures
        m@ == ReportView::Log(LogLevel::Info, "Reverse Start "@ + nickname@),
{
    AppAggMessage::LogInfo(cat2("Reverse Start ", nickname))
}

/// The report that a user cannot be connected to.
pub fn reverse_offline(nickname: &str) -> (m: AppAggMessage)
    ensures
        m@ == ReportView::Log(LogLevel::Debug, "Reverse offline "@ + nickname@),
{
    AppAggMessage::LogDebug(cat2("Reverse offline ", nickname))
}

/// The report of an error that ends sharing.
pub fn sharing_error(is_address_in_use: bool, error: String) -> (m: AppAggMessage)
    ensures
        m@ == if is_address_in_use {
            ReportView::UploadErrorPortInUse
        } else {
            ReportView::UploadErrorGeneric(error@)
        },
{
    if is_address_in_use {
        AppAggMessage::UploadErrorPortInUse
    } else {
        AppAggMessage::UploadErrorGeneric(error)
    }
}

/// What an upload is told, or that there is nobody left to tell it anything.
#[derive(Debug)]
pub enum UploaderPoll {
    ShutdownConn,
    DoNothing,
    Empty,
    Disconnected(String),
}

/// Who may be behind a connection.
pub enum Admission {
    InvalidState,
    Denied,
    Check(Vec<SharedUser>),
}

/// The users with an address.
pub open spec fn users_at(users: Seq<UserView>, ip: Seq<char>) -> Seq<UserView>
    decreases users.len(),
{
    if users.len() == 0 {
        users
    } else if users.last().ip == ip {
        users_at(users.drop_last(), ip).push(users.last())
    } else {
        users_at(users.drop_last(), ip)
    }
}

/// Nicknames in quotes, with commas between them.
pub open spec fn quoted_names(users: Seq<UserView>) -> Seq<char>
    decreases users.len(),
{
    if users.len() == 0 {
        seq![]
    } else {
        (if users.len() == 1 {
            seq![]
        } else {
            quoted_names(users.drop_last()) + ", "@
        }) + "'"@ + users.last().nickname + "'"@
    }
}

/// What an `Admission` says.
pub enum AdmissionView {
    InvalidState,
    Denied,
    Check(Seq<UserView>),
}

impl View for Admission {
    type V = AdmissionView;

    open spec fn view(&self) -> AdmissionView {
        match self {
            Admission::InvalidState => AdmissionView::InvalidState,
            Admission::Denied => AdmissionView::Denied,
            Admission::Check(users) => AdmissionView::Check(users.deep_view()),
        }
    }
}

/// Who may be behind a connection: the user that was connected to; or, where addresses do not
/// matter, any user; or else the users with the address that it comes from.
pub open spec fn admission(
    users: Seq<UserView>,
    reverse_user: Option<UserView>,
    ignore_incoming: bool,
    ip: Seq<char>,
) -> AdmissionView {
    match reverse_user {
        Some(user) => if ignore_incoming {
            AdmissionView::InvalidState
        } else {
            AdmissionView::Check(seq![user])
        },
        None => if ignore_incoming {
            AdmissionView::Check(users)
        } else if users_at(users, ip).len() == 0 {
            AdmissionView::Denied
        } else {
            AdmissionView::Check(users_at(users, ip))
        },
    }
}

proof fn lemma_users_at(users: Seq<UserView>, ip: Seq<char>)
    ensures
        forall|i: int|
            0 <= i < users_at(users, ip).len() ==> (#[trigger] users_at(users, ip)[i]).ip == ip
                && users.contains(users_at(users, ip)[i]),
        forall|i: int|
            0 <= i < users.len() && (#[trigger] users[i]).ip == ip ==> users_at(
                users,
                ip,
            ).contains(users[i]),
    decreases users.len(),
{
    if users.len() > 0 {
        let front = users.drop_last();
        let before = users_at(front, ip);
        let all = users_at(users, ip);
        lemma_users_at(front, ip);
        assert forall|i: int| 0 <= i < all.len() implies (#[trigger] all[i]).ip == ip
            && users.contains(all[i]) by {
            if i < before.len() {
                assert(all[i] == before[i]);
                let k = choose|k: int| 0 <= k < front.len() && front[k] == before[i];
                assert(users[k] == before[i]);
            } else {
                assert(users[users.len() - 1] == all[i]);
            }
        }
        assert forall|i: int| 0 <= i < users.len() && (#[trigger] users[i]).ip
            == ip implies all.contains(users[i]) by {
            if i < front.len() {
                assert(front[i] == users[i]);
                let k = choose|k: int| 0 <= k < before.len() && before[k] == front[i];
                assert(all[k] == users[i]);
            } else {
                assert(all[all.len() - 1] == users[i]);
            }
        }
    }
}

/// Where addresses matter, a connection from an address that no user has is denied, and one from
/// any other address may only be from a user with that address.
pub proof fn law_unknown_address_is_denied(users: Seq<UserView>, ip: Seq<char>)
    ensures
        admission(users, None, false, ip) is Denied <==> forall|i: int|
            0 <= i < users.len() ==> (#[trigger] users[i]).ip != ip,
        admission(users, None, false, ip) matches AdmissionView::Check(found) ==> forall|i: int|
            0 <= i < found.len() ==> (#[trigger] found[i]).ip == ip && users.contains(found[i]),
{
    lemma_users_at(users, ip);
    let found = users_at(users, ip);
    if found.len() > 0 {
        assert(found[0].ip == ip && users.contains(found[0]));
        let k = choose|k: int| 0 <= k < users.len() && users[k] == found[0];
        assert(users[k].ip == ip);
    } else {
        assert forall|i: int| 0 <= i < users.len() implies (#[trigger] users[i]).ip != ip by {
            if users[i].ip == ip {
                assert(found.contains(users[i]));
            }
        }
    }
}

/// What is reported of a connection that comes in.
pub open spec fn admission_reports(
    users: Seq<UserView>,
    is_reverse: bool,
    ignore_incoming: bool,
    ip: Seq<char>,
) -> Seq<ReportView> {
    let connecting = seq![ReportView::Log(LogLevel::Info, "Incoming Connecting: "@ + ip)];
    if is_reverse || ignore_incoming {
        connecting
    } else if users_at(users, ip).len() == 0 {
        connecting.push(
            ReportView::Log(
                LogLevel::Warning,
                "Unknown IP tried to connect. Denied.: '"@ + ip + "'"@,
            ),
        )
    } else {
        connecting.push(
            ReportView::Log(
                LogLevel::Info,
                "User(s) trying to connect: "@ + quoted_names(users_at(users, ip)),
            ),
        )
    }
}

fn find_users_at(users: &Vec<SharedUser>, ip: &str) -> (r: Vec<SharedUser>)
    ensures
        r.deep_view() == users_at(users.deep_view(), ip@),
{
    let ghost all = users.deep_view();
    let mut r: Vec<SharedUser> = Vec::new();
    let mut i: usize = 0;
    assert(r.deep_view() =~= users_at(all.take(0), ip@));
    while i < users.len()
        invariant
            i <= users@.len(),
            all == users.deep_view(),
            r.deep_view() == users_at(all.take(i as int), ip@),
        decreases users@.len() - i,
    {
        proof {
            assert(all.take(i + 1).drop_last() =~= all.take(i as int));
            assert(all.take(i + 1).last() == users@[i as int]@);
        }
        if str_eq(users[i].ip.as_str(), ip) {
            let ghost before = r.deep_view();
            r.push(users[i].clone());
            assert(r.deep_view() =~= before.push(users@[i as int]@));
        }
        i += 1;
    }
    assert(all.take(i as int) =~= all);
    r
}

fn push_quoted_names(s: &mut String, users: &Vec<SharedUser>)
    ensures
        final(s)@ == old(s)@ + quoted_names(users.deep_view()),
{
    let ghost before = s@;
    let ghost all = users.deep_view();
    let mut i: usize = 0;
    assert(s@ =~= before + quoted_names(all.take(0)));
    while i < users.len()
        invariant
            i <= users@.len(),
            all == users.deep_view(),
            s@ == before + quoted_names(all.take(i as int)),
        decreases users@.len() - i,
    {
        proof {
            assert(all.take(i + 1).drop_last() =~= all.take(i as int));
            assert(all.take(i + 1).last() == users@[i as int]@);
        }
        if i > 0 {
            s.push_str(", ");
        }
        s.push_str("'");
        s.push_str(users[i].nickname.as_str());
        s.push_str("'");
        assert(s@ =~= before + quoted_names(all.take(i + 1)));
        i += 1;
    }
    assert(all.take(i as int) =~= all);
}

/// What the other side asks for.
pub enum ClientRequest {
    FileList(AppAggMessage),
    InvalidFile(AppAggMessage, AppAggMessage),
    Directory(AppAggMessage, AppAggMessage),
    SendFile { path: String, seek_point: u64, file_size: u64, log: AppAggMessage },
    ReverseConnection,
    TooShort,
}

/// What a `ClientRequest` says.
pub enum RequestView {
    FileList(ReportView),
    InvalidFile(ReportView, ReportView),
    Directory(ReportView, ReportView),
    SendFile { path: Seq<char>, seek_point: u64, file_size: u64, log: ReportView },
    ReverseConnection,
    TooShort,
}

impl View for ClientRequest {
    type V = RequestView;

    open spec fn view(&self) -> RequestView {
        match self {
            ClientRequest::FileList(m) => RequestView::FileList(m@),
            ClientRequest::InvalidFile(a, b) => RequestView::InvalidFile(a@, b@),
            ClientRequest::Directory(a, b) => RequestView::Directory(a@, b@),
            ClientRequest::SendFile { path, seek_point, file_size, log } => RequestView::SendFile {
                path: path@,
                seek_point: *seek_point,
                file_size: *file_size,
                log: log@,
            },
            ClientRequest::ReverseConnection => RequestView::ReverseConnection,
            ClientRequest::TooShort => RequestView::TooShort,
        }
    }
}

/// What the other side asks for with a message, of what it may have.
pub open spec fn request(
    nickname: Seq<char>,
    message: u16,
    payload: Seq<u8>,
    everything_file: FileView,
) -> Result<RequestView, Seq<char>> {
    if message == MSG_FILE_LIST {
        Ok(
            RequestView::FileList(
                ReportView::Log(LogLevel::Debug, "'"@ + nickname + "' requested file list"@),
            ),
        )
    } else if message == MSG_FILE_SELECTION_CONTINUE {
        if payload.len() < 8 {
            Ok(RequestView::TooShort)
        } else if !valid_utf8(payload.skip(8)) {
            Err(utf8_refusal(payload.skip(8)))
        } else {
            let seek_point = be_value(payload.take(8)) as u64;
            let path = decode_utf8(payload.skip(8));
            let chose = ReportView::Log(
                LogLevel::Debug,
                "'"@ + nickname + "' chose file '"@ + path + "' at seek point '"@ + decimal(
                    seek_point as nat,
                ) + "'"@,
            );
            match file_at(path, everything_file) {
                None => Ok(
                    RequestView::InvalidFile(
                        chose,
                        ReportView::Log(
                            LogLevel::Warning,
                            "'"@ + nickname + "' chose invalid file '"@ + path + "'"@,
                        ),
                    ),
                ),
                Some(file) => if file.is_directory {
                    Ok(
                        RequestView::Directory(
                            chose,
                            ReportView::Log(
                                LogLevel::Warning,
                                "'"@ + nickname + "' chose directory. Not allowed. '"@ + path
                                    + "'"@,
                            ),
                        ),
                    )
                } else {
                    Ok(
                        RequestView::SendFile {
                            path,
                            seek_point,
                            file_size: file.file_size,
                            log: chose,
                        },
                    )
                },
            }
        }
    } else if message == MSG_REVERSE {
        Ok(RequestView::ReverseConnection)
    } else {
        Err(
            "'"@ + nickname + "' Invalid client selection '"@ + decimal(message as nat) + "'"@,
        )
    }
}

/// The message that answers a request for what cannot be sent: nothing comes with it.
pub open spec fn refusal_of(q: RequestView) -> Option<(u16, Seq<u8>)> {
    match q {
        RequestView::InvalidFile(..) => Some((MSG_FILE_INVALID_FILE, Seq::empty())),
        RequestView::Directory(..) => Some((MSG_CANNOT_SELECT_DIRECTORY, Seq::empty())),
        _ => None,
    }
}

/// The message that answers a request for what cannot be sent.
pub fn refusal(q: &ClientRequest) -> (r: Option<(u16, Vec<u8>)>)
    ensures
        opt_message(r) == refusal_of(q@),
{
    match q {
        ClientRequest::InvalidFile(..) => Some((MSG_FILE_INVALID_FILE, Vec::new())),
        ClientRequest::Directory(..) => Some((MSG_CANNOT_SELECT_DIRECTORY, Vec::new())),
        _ => None,
    }
}

/// What a message says, where there is one.
pub open spec fn opt_message(m: Option<(u16, Vec<u8>)>) -> Option<(u16, Seq<u8>)> {
    match m {
        Some((number, payload)) => Some((number, payload@)),
        None => None,
    }
}

/// Whether a user who has connected is let in, and what is reported of it.
pub open spec fn greeting(user: UserView) -> (bool, ReportView) {
    if user.allowed {
        (
            true,
            ReportView::Log(
                LogLevel::Info,
                "User successfully connected: '"@ + user.nickname + "'"@,
            ),
        )
    } else {
        (
            false,
            ReportView::Log(
                LogLevel::Warning,
                "User tried to connect but is currently set to Block: '"@ + user.nickname + "'"@,
            ),
        )
    }
}

/// The upload to one user.
pub struct SingleUploader {
    pub config: Config,
    pub nickname: String,
    pub should_shutdown: bool,
    pub active_msg: u16,
}

impl SingleUploader {
    pub fn new(config: Config) -> (u: SingleUploader)
        ensures
            u.config == config,
            u.nickname@ == Seq::<char>::empty(),
            !u.should_shutdown,
            u.active_msg == 0,
    {
        SingleUploader { config, nickname: String::new(), should_shutdown: false, active_msg: 0 }
    }

    /// Decides who may be behind a connection, and what is reported of it.
    pub fn run(
        &self,
        reverse_user: &Option<SharedUser>,
        is_ignore_incoming: bool,
        client_ip: &str,
    ) -> (r: (Admission, Vec<AppAggMessage>))
        ensures
            r.0@ == admission(
                self.config@.file.shared_users,
                match *reverse_user {
                    Some(u) => Some(u@),
                    None => None,
                },
                is_ignore_incoming,
                client_ip@,
            ),
            reports(r.1@) == admission_reports(
                self.config@.file.shared_users,
                reverse_user is Some,
                is_ignore_incoming,
                client_ip@,
            ),
    {
        let mut log: Vec<AppAggMessage> = Vec::new();
        log.push(AppAggMessage::LogInfo(cat2("Incoming Connecting: ", client_ip)));
        let ghost first = log@;
        assert(reports(log@) =~= seq![log@[0]@]);
        match reverse_user {
            Some(user) => {
                if is_ignore_incoming {
                    return (Admission::InvalidState, log);
                }
                let mut users: Vec<SharedUser> = Vec::new();
                users.push(user.clone());
                assert(users.deep_view() =~= seq![user@]);
                (Admission::Check(users), log)
            },
            None => {
                let users = self.config.get_shared_users();
                if is_ignore_incoming {
                    return (Admission::Check(users), log);
                }
                let found = find_users_at(&users, client_ip);
                assert(found.deep_view().len() == found@.len());
                if found.len() == 0 {
                    log.push(
                        AppAggMessage::LogWarning(
                            cat3("Unknown IP tried to connect. Denied.: '", client_ip, "'"),
                        ),
                    );
                    assert(reports(log@) =~= reports(first).push(log@[1]@));
                    return (Admission::Denied, log);
                }
                let mut text = "User(s) trying to connect: ".to_owned();
                push_quoted_names(&mut text, &found);
                log.push(AppAggMessage::LogInfo(text));
                assert(reports(log@) =~= reports(first).push(log@[1]@));
                (Admission::Check(found), log)
            },
        }
    }

    /// Takes note of who is connected. The result says whether this user is allowed, and what is
    /// reported.
    pub fn connected(&mut self, shared_user: &SharedUser) -> (r: (bool, AppAggMessage))
        ensures
            final(self).nickname@ == shared_user@.nickname,
            final(self).config == old(self).config,
            final(self).should_shutdown == old(self).should_shutdown,
            final(self).active_msg == old(self).active_msg,
            (r.0, r.1@) == greeting(shared_user@),
    {
        self.nickname = shared_user.nickname.clone();
        if shared_user.allowed {
            (
                true,
                AppAggMessage::LogInfo(
                    cat3("User successfully connected: '", self.nickname.as_str(), "'"),
                ),
            )
        } else {
            (false, self.process_not_allowed())
        }
    }

    /// The report of a user that is not allowed.
    pub fn process_not_allowed(&self) -> (m: AppAggMessage)
        ensures
            m@ == ReportView::Log(
                LogLevel::Warning,
                "User tried to connect but is currently set to Block: '"@ + self.nickname@ + "'"@,
            ),
    {
        AppAggMessage::LogWarning(
            cat3(
                "User tried to connect but is currently set to Block: '",
                self.nickname.as_str(),
                "'",
            ),
        )
    }

    /// Follows a message. The result says whether there may be more, and what is reported.
    pub fn read_receiver(&mut self, poll: UploaderPoll) -> (r: (bool, Option<AppAggMessage>))
        ensures
            final(self).config == old(self).config,
            final(self).nickname == old(self).nickname,
            final(self).active_msg == old(self).active_msg,
            final(self).should_shutdown == (old(self).should_shutdown || poll is ShutdownConn
                || poll is Disconnected),
            r.0 == (poll is ShutdownConn || poll is DoNothing),
            match poll {
                UploaderPoll::Disconnected(e) => r.1 is Some && r.1->0@ == ReportView::Log(
                    LogLevel::Info,
                    "Receiver disconnected '"@ + old(self).nickname@ + "' '"@ + e@ + "'"@,
                ),
                _ => r.1 is None,
            },
    {
        match poll {
            UploaderPoll::ShutdownConn => {
                self.should_shutdown = true;
                (true, None)
            },
            UploaderPoll::DoNothing => (true, None),
            UploaderPoll::Empty => (false, None),
            UploaderPoll::Disconnected(e) => {
                self.should_shutdown = true;
                (
                    false,
                    Some(
                        AppAggMessage::LogInfo(
                            cat5(
                                "Receiver disconnected '",
                                self.nickname.as_str(),
                                "' '",
                                e.as_str(),
                                "'",
                            ),
                        ),
                    ),
                )
            },
        }
    }

    /// Decides what follows from a message.
    pub fn run_loop(
        &mut self,
        client_message: u16,
        payload: &[u8],
        everything_file: &SharedFile,
    ) -> (r: Result<ClientRequest, String>)
        ensures
            final(self).active_msg == client_message,
            final(self).config == old(self).config,
            final(self).nickname == old(self).nickname,
            final(self).should_shutdown == old(self).should_shutdown,
            match request(old(self).nickname@, client_message, payload@, everything_file@) {
                Ok(q) => r is Ok && r->Ok_0@ == q,
                Err(e) => r is Err && r->Err_0@ == e,
            },
    {
        self.active_msg = client_message;
        let name = self.nickname.as_str();
        if client_message == MSG_FILE_LIST {
            return Ok(
                ClientRequest::FileList(
                    AppAggMessage::LogDebug(cat3("'", name, "' requested file list")),
                ),
            );
        }
        if client_message == MSG_FILE_SELECTION_CONTINUE {
            if payload.len() < 8 {
                return Ok(ClientRequest::TooShort);
            }
            let seek_bytes = slice_subrange(payload, 0, 8);
            let path_bytes = slice_subrange(payload, 8, payload.len());
            assert(seek_bytes@ =~= payload@.take(8));
            assert(path_bytes@ =~= payload@.skip(8));
            let seek_point: u64 = from_be_bytes(seek_bytes);
            let path = match text_from_utf8(path_bytes) {
                Ok(path) => path,
                Err(e) => return Err(e),
            };
            let mut chose = cat5("'", name, "' chose file '", path.as_str(), "' at seek point '");
            chose.push_str(decimal_string(seek_point).as_str());
            chose.push_str("'");
            let log = AppAggMessage::LogDebug(chose);
            return match get_file_by_path(path.as_str(), everything_file) {
                None => Ok(
                    ClientRequest::InvalidFile(
                        log,
                        AppAggMessage::LogWarning(
                            cat5("'", name, "' chose invalid file '", path.as_str(), "'"),
                        ),
                    ),
                ),
                Some(file) => if file.is_directory {
                    Ok(
                        ClientRequest::Directory(
                            log,
                            AppAggMessage::LogWarning(
                                cat5(
                                    "'",
                                    name,
                                    "' chose directory. Not allowed. '",
                                    path.as_str(),
                                    "'",
                                ),
                            ),
                        ),
                    )
                } else {
                    Ok(
                        ClientRequest::SendFile {
                            path,
                            seek_point,
                            file_size: file.file_size,
                            log,
                        },
                    )
                },
            };
        }
        if client_message == MSG_REVERSE {
            return Ok(ClientRequest::ReverseConnection);
        }
        Err(
            cat5(
                "'",
                name,
                "' Invalid client selection '",
                decimal_string(client_message as u64).as_str(),
                "'",
            ),
        )
    }

    /// The report of how far an upload is.
    pub fn upload_state(&self, path: &str, percent: u64) -> (m: AppAggMessage)
        ensures
            m@ == ReportView::UploadStateChange(
                UploadView {
                    nickname: self.nickname@,
                    path: path@,
                    percent,
                    is_online: true,
                },
            ),
    {
        AppAggMessage::UploadStateChange(
            SingleUploadState {
                nickname: self.nickname.clone(),
                path: path.to_owned(),
                percent,
                is_online: true,
            },
        )
    }

    /// The reports that an upload starts: that it does, and that nothing has been sent.
    pub fn upload_started(&self, path: &str) -> (v: Vec<AppAggMessage>)
        ensures
            reports(v@) == seq![
                ReportView::Log(
                    LogLevel::Info,
                    "Sending '"@ + self.nickname@ + "' file '"@ + path@ + "'"@,
                ),
                ReportView::UploadStateChange(
                    UploadView {
                        nickname: self.nickname@,
                        path: path@,
                        percent: 0,
                        is_online: true,
                    },
                ),
            ],
    {
        let mut v: Vec<AppAggMessage> = Vec::new();
        v.push(
            AppAggMessage::LogInfo(
                cat5("Sending '", self.nickname.as_str(), "' file '", path, "'"),
            ),
        );
        v.push(self.upload_state(path, 0));
        assert(reports(v@) =~= seq![v@[0]@, v@[1]@]);
        v
    }

    /// The reports that an upload is done: that all has been sent, and that it is.
    pub fn upload_finished(&self, path: &str) -> (v: Vec<AppAggMessage>)
        ensures
            reports(v@) == seq![
                ReportView::UploadStateChange(
                    UploadView {
                        nickname: self.nickname@,
                        path: path@,
                        percent: 100,
                        is_online: true,
                    },
                ),
                ReportView::Log(
                    LogLevel::Info,
                    "File transfer to '"@ + self.nickname@ + "' completed '"@ + path@ + "'"@,
                ),
            ],
    {
        let mut v: Vec<AppAggMessage> = Vec::new();
        v.push(self.upload_state(path, 100));
        v.push(
            AppAggMessage::LogInfo(
                cat5("File transfer to '", self.nickname.as_str(), "' completed '", path, "'"),
            ),
        );
        assert(reports(v@) =~= seq![v@[0]@, v@[1]@]);
        v
    }

    /// The reports of an upload that has failed: in the middle of a file, the user is gone.
    pub fn run_failed(&self, ip: &str, error: &str) -> (v: Vec<AppAggMessage>)
        ensures
            reports(v@) == seq![
                ReportView::Log(
                    LogLevel::Debug,
                    "Uploader run error. "@ + ip@ + " - "@ + error@,
                ),
            ] + if self.active_msg == MSG_FILE_SELECTION_CONTINUE {
                seq![ReportView::UploadDisconnected(self.nickname@)]
            } else {
                seq![]
            },
    {
        let mut v: Vec<AppAggMessage> = Vec::new();
        let mut text = cat3("Uploader run error. ", ip, " - ");
        text.push_str(error);
        v.push(AppAggMessage::LogDebug(text));
        assert(reports(v@) =~= seq![ReportView::Log(LogLevel::Debug, text@)]);
        if self.active_msg == MSG_FILE_SELECTION_CONTINUE {
            v.push(AppAggMessage::UploadDisconnected(self.nickname.clone()));
        }
        assert(reports(v@) =~= seq![ReportView::Log(LogLevel::Debug, text@)] + if self.active_msg
            == MSG_FILE_SELECTION_CONTINUE {
            seq![ReportView::UploadDisconnected(self.nickname@)]
        } else {
            seq![]
        });
        v
    }
}

/// The percentage that is shown while a file is sent: all of it is shown only at the end.
pub fn shown_percent(percent: u64) -> (p: u64)
    ensures
        p == if percent < 100 {
            percent
        } else {
            99
        },
{
    if percent < 100 {
        percent
    } else {
        99
    }
}

/// The message that a piece of a file is sent with, where `sent` counts it.
pub open spec fn chunk_message(sent: u64, read: u64, file_size: u64) -> u16 {
    if sent >= file_size || read == 0 {
        MSG_FILE_FINISHED
    } else {
        MSG_FILE_CHUNK
    }
}

/// A file on its way to the other side.
#[derive(Clone, Copy, Debug, PartialEq, Eq, Structural)]
pub struct FileUpload {
    pub current_sent_bytes: u64,
    pub file_size: u64,
}

impl FileUpload {
    /// A file of which the other side has everything before `file_seek_point`.
    pub fn new(file_seek_point: u64, file_size: u64) -> (u: FileUpload)
        ensures
            u == (FileUpload { current_sent_bytes: file_seek_point, file_size }),
    {
        FileUpload { current_sent_bytes: file_seek_point, file_size }
    }

    /// Counts a piece that was read, and gives the message that it is sent with.
    pub fn next_chunk(&mut self, read_len: u64) -> (m: u16)
        requires
            old(self).current_sent_bytes + read_len <= u64::MAX,
        ensures
            *final(self) == (FileUpload {
                current_sent_bytes: (old(self).current_sent_bytes + read_len) as u64,
                ..*old(self)
            }),
            m == chunk_message(
                (old(self).current_sent_bytes + read_len) as u64,
                read_len,
                old(self).file_size,
            ),
    {
        self.current_sent_bytes = self.current_sent_bytes + read_len;
        if self.current_sent_bytes >= self.file_size || read_len == 0 {
            MSG_FILE_FINISHED
        } else {
            MSG_FILE_CHUNK
        }
    }
}

/// A list of files, cut into pieces that fit into a message.
pub open spec fn list_pieces(bytes: Seq<u8>) -> Seq<(u16, Seq<u8>)>
    decreases bytes.len(),
{
    if bytes.len() <= MAX_DATA_SIZE {
        seq![(MSG_FILE_LIST_FINAL, bytes)]
    } else {
        seq![(MSG_FILE_LIST_PIECE, bytes.take(MAX_DATA_SIZE as int))] + list_pieces(
            bytes.skip(MAX_DATA_SIZE as int),
        )
    }
}

pub open spec fn piece_views(s: Seq<(u16, Vec<u8>)>) -> Seq<(u16, Seq<u8>)> {
    Seq::new(s.len(), |i: int| (s[i].0, s[i].1@))
}

/// Cuts a list of files into the messages that it is sent in.
pub fn file_list_messages(everything_file_json_bytes: &[u8]) -> (v: Vec<(u16, Vec<u8>)>)
    ensures
        piece_views(v@) == list_pieces(everything_file_json_bytes@),
{
    let bytes = everything_file_json_bytes;
    let mut v: Vec<(u16, Vec<u8>)> = Vec::new();
    let mut sent: usize = 0;
    let len: usize = bytes.len();
    let mut remaining: usize = len;
    assert(bytes@.skip(0) =~= bytes@);
    assert(piece_views(v@) + list_pieces(bytes@) =~= list_pieces(bytes@));
    while remaining > MAX_DATA_SIZE
        invariant
            sent + remaining == len,
            len == bytes@.len(),
            piece_views(v@) + list_pieces(bytes@.skip(sent as int)) == list_pieces(bytes@),
        decreases remaining,
    {
        let piece = slice_to_vec(slice_subrange(bytes, sent, sent + MAX_DATA_SIZE));
        let ghost rest = bytes@.skip(sent as int);
        let ghost before = piece_views(v@);
        v.push((MSG_FILE_LIST_PIECE, piece));
        proof {
            assert(piece@ =~= rest.take(MAX_DATA_SIZE as int));
            assert(piece_views(v@) =~= before.push((MSG_FILE_LIST_PIECE, piece@)));
            assert(rest.skip(MAX_DATA_SIZE as int) =~= bytes@.skip(sent + MAX_DATA_SIZE));
            let tail = list_pieces(bytes@.skip(sent + MAX_DATA_SIZE));
            assert(before + (seq![(MSG_FILE_LIST_PIECE, piece@)] + tail) =~= piece_views(v@)
                + tail);
        }
        sent += MAX_DATA_SIZE;
        remaining -= MAX_DATA_SIZE;
    }
    let last = slice_to_vec(slice_subrange(bytes, sent, bytes.len()));
    let ghost before = piece_views(v@);
    v.push((MSG_FILE_LIST_FINAL, last));
    proof {
        assert(last@ =~= bytes@.skip(sent as int));
        assert(piece_views(v@) =~= before + seq![(MSG_FILE_LIST_FINAL, last@)]);
    }
    v
}

/// The payloads of pieces, behind each other.
pub open spec fn joined(s: Seq<(u16, Seq<u8>)>) -> Seq<u8>
    decreases s.len(),
{
    if s.len() == 0 {
        seq![]
    } else {
        s[0].1 + joined(s.skip(1))
    }
}

/// The pieces of a list of files make up the list again; each fits into a message, and exactly the
/// last one is marked as such.
pub proof fn law_pieces_make_up_the_list(bytes: Seq<u8>)
    ensures
        joined(list_pieces(bytes)) == bytes,
        list_pieces(bytes).len() > 0,
        forall|i: int|
            0 <= i < list_pieces(bytes).len() ==> (#[trigger] list_pieces(bytes)[i]).1.len()
                <= MAX_DATA_SIZE && (list_pieces(bytes)[i].0 == if i == list_pieces(bytes).len()
                - 1 {
                MSG_FILE_LIST_FINAL
            } else {
                MSG_FILE_LIST_PIECE
            }),
    decreases bytes.len(),
{
    if bytes.len() <= MAX_DATA_SIZE {
        let s = list_pieces(bytes);
        assert(s.skip(1) =~= seq![]);
        assert(bytes + joined(seq![]) =~= bytes);
    } else {
        let rest = bytes.skip(MAX_DATA_SIZE as int);
        let first = bytes.take(MAX_DATA_SIZE as int);
        law_pieces_make_up_the_list(rest);
        let s = list_pieces(bytes);
        assert(s.skip(1) =~= list_pieces(rest));
        assert(first + rest =~= bytes);
        assert forall|i: int| 0 <= i < s.len() implies (#[trigger] s[i]).1.len() <= MAX_DATA_SIZE
            && (s[i].0 == if i == s.len() - 1 {
            MSG_FILE_LIST_FINAL
        } else {
            MSG_FILE_LIST_PIECE
        }) by {
            if i > 0 {
                assert(s[i] == list_pieces(rest)[i - 1]);
            }
        }
    }
}

/// A file is sent only where it is among the files that the user may have, and is no directory.
pub proof fn law_only_shared_files_are_sent(
    nickname: Seq<char>,
    message: u16,
    payload: Seq<u8>,
    everything_file: FileView,
)
    ensures
        request(nickname, message, payload, everything_file) matches Ok(
            RequestView::SendFile { path, file_size, .. },
        ) ==> exists|f: FileView| #[trigger]
            is_within(f, everything_file) && f.path == path && !f.is_directory && f.file_size
                == file_size,
{
    if let Ok(RequestView::SendFile { path, .. }) = request(
        nickname,
        message,
        payload,
        everything_file,
    ) {
        law_file_at(path, everything_file);
        let f = file_at(path, everything_file)->0;
        assert(is_within(f, everything_file));
    }
}

/// Nobody is waited for or connected to where nobody may connect. Where users may connect, they
/// are connected to where that was chosen, and waited for otherwise, on the port of the
/// configuration: on the local network at an address of this computer only, and else at all.
pub proof fn law_manager_step(state: SharingState, port: Seq<char>, is_reverse_connection: bool)
    ensures
        ({
            let step = manager_step(state, port, is_reverse_connection);
            &&& step is SleepSecs <==> state == SharingState::Off
            &&& step is ConnectToUsers <==> state != SharingState::Off && is_reverse_connection
            &&& step is Listen <==> state != SharingState::Off && !is_reverse_connection
            &&& step matches ManagerStepView::Listen(address, _) ==> address == (if state
                == SharingState::Local {
                "127.0.0.1"@
            } else {
                "0.0.0.0"@
            }) + ":"@ + port
        }),
{
}

/// The wait between two rounds of connecting to users is three times as long each time, up to the
/// longest one.
pub proof fn law_waits_grow(sleep: u32, max: u32)
    ensures
        next_wait(sleep, max) <= max,
        sleep * 3 <= max ==> next_wait(sleep, max) == sleep * 3,
        sleep * 3 > max ==> next_wait(sleep, max) == max,
{
}

/// Users are connected to only once a wait is over, which lasts as many looks as it is long, and
/// never once it has to stop; the next wait starts from the first look.
pub proof fn law_wait_lasts(w: ReverseWait, stop_incoming: bool, max: u32)
    ensures
        ({
            let (v, step) = waited(w, stop_incoming, max);
            &&& step is Stop <==> stop_incoming
            &&& step is Connect <==> !stop_incoming && w.loop_counter >= w.sleep
            &&& step is Connect ==> v.loop_counter == 1 && v.sleep == next_wait(w.sleep, max)
            &&& step is SleepSecond ==> v.loop_counter == w.loop_counter + 1 && v.sleep == w.sleep
            &&& step is Stop ==> v == w
        }),
{
}

/// Every user gets a connection who has none, but on the local network only where the address is
/// local.
pub proof fn law_all_users_are_connected_to(
    state: SharingState,
    users: Seq<UserView>,
    in_progress: Seq<Seq<char>>,
    i: int,
)
    requires
        0 <= i < users.len(),
        !in_progress.contains(users[i].nickname),
        state == SharingState::Local ==> has_prefix(users[i].ip, "127."@),
    ensures
        is_nickname(reverse_starts(state, users, in_progress), users[i].nickname),
    decreases users.len(),
{
    let front = users.drop_last();
    let before = reverse_starts(state, front, in_progress);
    let all = reverse_starts(state, users, in_progress);
    let name = users[i].nickname;
    if i < front.len() {
        law_all_users_are_connected_to(state, front, in_progress, i);
        let k = choose|k: int| 0 <= k < before.len() && (#[trigger] before[k]).nickname == name;
        assert(all[k] == before[k]);
    } else if is_nickname(before, name) {
        let k = choose|k: int| 0 <= k < before.len() && (#[trigger] before[k]).nickname == name;
        assert(all[k] == before[k]);
    } else {
        assert(all[before.len() as int] == users[i]);
    }
}

/// Who was connected to is checked against that user alone. Who connects is checked against all
/// users where addresses do not matter, and else against all users with that address, in order. To
/// have connected to a user while nobody can connect to us is no state to go on from.
pub proof fn law_all_who_may_be_are_checked(
    users: Seq<UserView>,
    user: UserView,
    ip: Seq<char>,
    ignore_incoming: bool,
)
    ensures
        admission(users, Some(user), false, ip) == AdmissionView::Check(seq![user]),
        admission(users, Some(user), true, ip) is InvalidState,
        admission(users, None, true, ip) == AdmissionView::Check(users),
        admission(users, None, ignore_incoming, ip) !is InvalidState,
        admission(users, None, false, ip) matches AdmissionView::Check(found) ==> found
            == users.filter(|u: UserView| u.ip == ip),
        users.contains(user) && user.ip == ip ==> (admission(
            users,
            None,
            ignore_incoming,
            ip,
        ) matches AdmissionView::Check(found) && found.contains(user)),
{
    lemma_users_at_is_filter(users, ip);
    lemma_users_at(users, ip);
    if users.contains(user) && user.ip == ip {
        let k = choose|k: int| 0 <= k < users.len() && users[k] == user;
        assert(users_at(users, ip).contains(users[k]));
    }
}

proof fn lemma_users_at_is_filter(users: Seq<UserView>, ip: Seq<char>)
    ensures
        users_at(users, ip) == users.filter(|u: UserView| u.ip == ip),
    decreases users.len(),
{
    reveal(Seq::filter);
    if users.len() > 0 {
        lemma_users_at_is_filter(users.drop_last(), ip);
    }
}

/// That someone connects is reported in any case; there is a warning exactly where the address is
/// nobody's and addresses matter.
pub proof fn law_denied_address_is_reported(
    users: Seq<UserView>,
    is_reverse: bool,
    ignore_incoming: bool,
    ip: Seq<char>,
)
    ensures
        ({
            let log = admission_reports(users, is_reverse, ignore_incoming, ip);
            &&& log.len() >= 1
            &&& log[0] == ReportView::Log(LogLevel::Info, "Incoming Connecting: "@ + ip)
            &&& (exists|i: int|
                0 <= i < log.len() && (#[trigger] log[i] matches ReportView::Log(level, _)
                    && level == LogLevel::Warning)) <==> !is_reverse && !ignore_incoming
                && forall|i: int| 0 <= i < users.len() ==> (#[trigger] users[i]).ip != ip
        }),
{
    law_unknown_address_is_denied(users, ip);
    let log = admission_reports(users, is_reverse, ignore_incoming, ip);
    if !is_reverse && !ignore_incoming {
        assert(log[1] is Log);
    }
}

/// A user is let in exactly where this user is allowed; one who is not is reported with a warning.
pub proof fn law_blocked_user_is_not_let_in(user: UserView)
    ensures
        greeting(user).0 == user.allowed,
        greeting(user).1 matches ReportView::Log(level, _) && (level == LogLevel::Warning
            <==> !user.allowed),
{
}

/// A request for the list of files is one whatever comes with it, and so is one for a connection;
/// a request for a file that names no place in it is too short; and of a message that is none of
/// these there is an error.
pub proof fn law_requests_are_told_apart(
    nickname: Seq<char>,
    message: u16,
    payload: Seq<u8>,
    everything_file: FileView,
)
    ensures
        ({
            let asked = request(nickname, message, payload, everything_file);
            &&& message == MSG_FILE_LIST <==> asked is Ok && asked->Ok_0 is FileList
            &&& message == MSG_REVERSE <==> asked == Ok::<RequestView, Seq<char>>(
                RequestView::ReverseConnection,
            )
            &&& message == MSG_FILE_SELECTION_CONTINUE && payload.len() < 8 <==> asked == Ok::<
                RequestView,
                Seq<char>,
            >(RequestView::TooShort)
            &&& asked is Err <==> (message == MSG_FILE_SELECTION_CONTINUE && payload.len() >= 8
                && !valid_utf8(payload.skip(8))) || !(message == MSG_FILE_LIST || message
                == MSG_REVERSE || message == MSG_FILE_SELECTION_CONTINUE)
        }),
{
}

/// A part of a file is sent as the last one exactly where all of the file has been sent or nothing
/// was left to read.
pub proof fn law_last_part_is_marked(sent: u64, read: u64, file_size: u64)
    ensures
        chunk_message(sent, read, file_size) == MSG_FILE_FINISHED <==> sent >= file_size || read
            == 0,
        chunk_message(sent, read, file_size) == MSG_FILE_CHUNK <==> sent < file_size && read > 0,
{
}

/// A list of files is cut only where a message is full.
pub proof fn law_pieces_are_full(bytes: Seq<u8>, i: int)
    requires
        0 <= i < list_pieces(bytes).len() - 1,
    ensures
        list_pieces(bytes)[i].1.len() == MAX_DATA_SIZE,
    decreases bytes.len(),
{
    if bytes.len() > MAX_DATA_SIZE && i > 0 {
        let rest = bytes.skip(MAX_DATA_SIZE as int);
        law_pieces_are_full(rest, i - 1);
        assert(list_pieces(bytes)[i] == list_pieces(rest)[i - 1]);
    }
}

/// While nothing is shared, the uploads look again every second. Where they listen, the log says at
/// which address.
pub proof fn law_uploads_say_where_they_listen(
    state: SharingState,
    port: Seq<char>,
    is_reverse_connection: bool,
)
    ensures
        manager_step(state, port, is_reverse_connection) matches ManagerStepView::SleepSecs(n) ==> n
            == 1,
        manager_step(state, port, is_reverse_connection) matches ManagerStepView::Listen(
            address,
            report,
        ) ==> (report matches ReportView::Log(level, text) && level == LogLevel::Info && has_part(
            text,
            address,
        )),
{
    let none = Seq::<char>::empty();
    let address = listen_address(state, port);
    law_parts_are_found("Waiting for incoming uploads on "@, address, none);
    assert("Waiting for incoming uploads on "@ + address + none
        =~= "Waiting for incoming uploads on "@ + address);
}

/// Users are connected to in the order in which they are listed, and of those with one nickname the
/// first that may be: users listed behind others change nothing for those before them.
pub proof fn law_first_listed_is_connected_to(
    state: SharingState,
    users: Seq<UserView>,
    in_progress: Seq<Seq<char>>,
    k: int,
)
    requires
        0 <= k <= users.len(),
    ensures
        reverse_starts(state, users.take(k), in_progress).is_prefix_of(
            reverse_starts(state, users, in_progress),
        ),
    decreases users.len(),
{
    let all = reverse_starts(state, users, in_progress);
    if k < users.len() {
        let front = users.drop_last();
        law_first_listed_is_connected_to(state, front, in_progress, k);
        assert(front.take(k) =~= users.take(k));
        let a = reverse_starts(state, users.take(k), in_progress);
        let b = reverse_starts(state, front, in_progress);
        assert(b.is_prefix_of(all));
        assert(all.take(b.len() as int) =~= b);
        assert(all.take(a.len() as int) =~= b.take(a.len() as int));
    } else {
        assert(users.take(k) =~= users);
    }
}

/// The log names every user that may be at an address, and the user who was let in or turned away.
#[verifier::rlimit(40)]
pub proof fn law_log_names_users(users: Seq<UserView>, user: UserView, i: int)
    requires
        0 <= i < users.len(),
    ensures
        has_part(quoted_names(users), "'"@ + users[i].nickname + "'"@),
        greeting(user).1 matches ReportView::Log(_, text) && has_part(text, user.nickname),
    decreases users.len(),
{
    let none = Seq::<char>::empty();
    let name = users.last().nickname;
    let quoted = "'"@ + name + "'"@;
    let before = if users.len() == 1 {
        none
    } else {
        quoted_names(users.drop_last()) + ", "@
    };
    law_parts_are_found("User successfully connected: '"@, user.nickname, "'"@);
    law_parts_are_found(
        "User tried to connect but is currently set to Block: '"@,
        user.nickname,
        "'"@,
    );
    assert(quoted_names(users) =~= before + quoted + none);
    if i == users.len() - 1 {
        law_parts_are_found(before, quoted, none);
    } else {
        let front = users.drop_last();
        law_log_names_users(front, user, i);
        let part = "'"@ + front[i].nickname + "'"@;
        let all = quoted_names(users);
        let at = choose|at: int| #[trigger] occurs_at(quoted_names(front), part, at);
        assert(all.subrange(at, at + part.len()) =~= quoted_names(front).subrange(
            at,
            at + part.len(),
        ));
        assert(occurs_at(all, part, at));
    }
}

/// A request that is not understood is an error that names the user and the number that came.
pub proof fn law_unknown_request_is_named(
    nickname: Seq<char>,
    message: u16,
    payload: Seq<u8>,
    everything_file: FileView,
)
    requires
        message != MSG_FILE_SELECTION_CONTINUE,
    ensures
        request(nickname, message, payload, everything_file) matches Err(e) ==> has_part(
            e,
            nickname,
        ) && has_part(e, decimal(message as nat)),
{
    let d = decimal(message as nat);
    let e = "'"@ + nickname + "' Invalid client selection '"@ + d + "'"@;
    law_parts_are_found("'"@, nickname, "' Invalid client selection '"@ + d + "'"@);
    assert(e =~= "'"@ + nickname + ("' Invalid client selection '"@ + d + "'"@));
    law_parts_are_found("'"@ + nickname + "' Invalid client selection '"@, d, "'"@);
}

} // verus!
