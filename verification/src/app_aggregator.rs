//! What the parts of the program report, and what is shown of it.
use std::collections::VecDeque;
use vstd::prelude::*;
use crate::incoming_uploader::IncomingUploaderError;
use crate::logger::LogLevel;
use crate::name_map::NameMap;
use crate::text::{cat2, cat3, cat5, has_part, law_parts_are_found, opt_text, texts};
use crate::transmitic_core::{completed_views, no_downloads, DownloadView, SingleDownloadState, SingleUploadState, UploadView};

verus! {

/// A file that cannot be downloaded.
#[derive(Debug)]
pub struct InvalidFileMessage {
    pub nickname: String,
    pub active_path: Option<String>,
    pub invalid_path: String,
    pub download_queue: VecDeque<String>,
    pub message: String,
}

/// How far a download is.
#[derive(Debug)]
pub struct InProgressMessage {
    pub nickname: String,
    pub path: Option<String>,
    pub percent: u64,
    pub download_queue: VecDeque<String>,
    pub path_local_disk: Option<String>,
    pub size_string: String,
}

/// A download that is done.
#[derive(Debug)]
pub struct CompletedMessage {
    pub nickname: String,
    pub path: String,
    pub download_queue: VecDeque<String>,
    pub path_local_disk: String,
    pub size_string: String,
}

/// What a `CompletedMessage` says.
#[verifier::ext_equal]
pub struct CompletedView {
    pub nickname: Seq<char>,
    pub path: Seq<char>,
    pub queue: Seq<Seq<char>>,
    pub local_path: Seq<char>,
    pub size: Seq<char>,
}

impl View for CompletedMessage {
    type V = CompletedView;

    open spec fn view(&self) -> CompletedView {
        CompletedView {
            nickname: self.nickname@,
            path: self.path@,
            queue: texts(self.download_queue@),
            local_path: self.path_local_disk@,
            size: self.size_string@,
        }
    }
}

/// A copy of a queue.
fn clone_queue(q: &VecDeque<String>) -> (r: VecDeque<String>)
    ensures
        texts(r@) == texts(q@),
{
    let mut r: VecDeque<String> = VecDeque::new();
    let mut i: usize = 0;
    while i < q.len()
        invariant
            i <= q@.len(),
            r@.len() == i,
            forall|k: int| 0 <= k < i ==> #[trigger] r@[k] == q@[k],
        decreases q@.len() - i,
    {
        r.push_back(q[i].clone());
        i += 1;
    }
    assert(texts(r@) =~= texts(q@));
    r
}

impl Clone for CompletedMessage {
    fn clone(&self) -> (r: Self)
        ensures
            r@ == self@,
    {
        CompletedMessage {
            nickname: self.nickname.clone(),
            path: self.path.clone(),
            download_queue: clone_queue(&self.download_queue),
            path_local_disk: self.path_local_disk.clone(),
            size_string: self.size_string.clone(),
        }
    }
}

/// A user that cannot be reached.
#[derive(Debug)]
pub struct OfflineMessage {
    pub nickname: String,
    pub download_queue: VecDeque<String>,
}

/// A user that cannot be downloaded from.
#[derive(Debug)]
pub struct OfflineErrorMessage {
    pub nickname: String,
    pub error: String,
}

/// What is reported. A connection that another user has opened for us comes with the user's
/// nickname; the connection itself stays with the one who reports it.
#[derive(Debug)]
pub enum AppAggMessage {
    LogDebug(String),
    LogInfo(String),
    LogWarning(String),
    LogError(String),
    LogCritical(String),
    SetLogLevel(LogLevel),
    LogToFileState(bool),
    InvalidFile(InvalidFileMessage),
    InProgress(InProgressMessage),
    Completed(CompletedMessage),
    Offline(OfflineMessage),
    OfflineError(OfflineErrorMessage),
    UploadStateChange(SingleUploadState),
    UploadDisconnected(String),
    UploadErrorGeneric(String),
    UploadErrorPortInUse,
    AppFailedKill(String),
    ReverseConnection(String),
}

/// What an `AppAggMessage` says.
pub enum ReportView {
    Log(LogLevel, Seq<char>),
    SetLogLevel(LogLevel),
    LogToFileState(bool),
    InvalidFile {
        nickname: Seq<char>,
        active_path: Option<Seq<char>>,
        invalid_path: Seq<char>,
        queue: Seq<Seq<char>>,
        message: Seq<char>,
    },
    InProgress {
        nickname: Seq<char>,
        path: Option<Seq<char>>,
        percent: u64,
        queue: Seq<Seq<char>>,
        local_path: Option<Seq<char>>,
        size: Seq<char>,
    },
    Completed(CompletedView),
    Offline { nickname: Seq<char>, queue: Seq<Seq<char>> },
    OfflineError { nickname: Seq<char>, error: Seq<char> },
    UploadStateChange(UploadView),
    UploadDisconnected(Seq<char>),
    UploadErrorGeneric(Seq<char>),
    UploadErrorPortInUse,
    AppFailedKill(Seq<char>),
    ReverseConnection(Seq<char>),
}

impl View for AppAggMessage {
    type V = ReportView;

    open spec fn view(&self) -> ReportView {
        match self {
            AppAggMessage::LogDebug(s) => ReportView::Log(LogLevel::Debug, s@),
            AppAggMessage::LogInfo(s) => ReportView::Log(LogLevel::Info, s@),
            AppAggMessage::LogWarning(s) => ReportView::Log(LogLevel::Warning, s@),
            AppAggMessage::LogError(s) => ReportView::Log(LogLevel::Error, s@),
            AppAggMessage::LogCritical(s) => ReportView::Log(LogLevel::Critical, s@),
            AppAggMessage::SetLogLevel(l) => ReportView::SetLogLevel(*l),
            AppAggMessage::LogToFileState(b) => ReportView::LogToFileState(*b),
            AppAggMessage::InvalidFile(f) => ReportView::InvalidFile {
                nickname: f.nickname@,
                active_path: opt_text(f.active_path),
                invalid_path: f.invalid_path@,
                queue: texts(f.download_queue@),
                message: f.message@,
            },
            AppAggMessage::InProgress(f) => ReportView::InProgress {
                nickname: f.nickname@,
                path: opt_text(f.path),
                percent: f.percent,
                queue: texts(f.download_queue@),
                local_path: opt_text(f.path_local_disk),
                size: f.size_string@,
            },
            AppAggMessage::Completed(f) => ReportView::Completed(f@),
            AppAggMessage::Offline(f) => ReportView::Offline {
                nickname: f.nickname@,
                queue: texts(f.download_queue@),
            },
            AppAggMessage::OfflineError(f) => ReportView::OfflineError {
                nickname: f.nickname@,
                error: f.error@,
            },
            AppAggMessage::UploadStateChange(f) => ReportView::UploadStateChange(f@),
            AppAggMessage::UploadDisconnected(s) => ReportView::UploadDisconnected(s@),
            AppAggMessage::UploadErrorGeneric(s) => ReportView::UploadErrorGeneric(s@),
            AppAggMessage::UploadErrorPortInUse => ReportView::UploadErrorPortInUse,
            AppAggMessage::AppFailedKill(s) => ReportView::AppFailedKill(s@),
            AppAggMessage::ReverseConnection(s) => ReportView::ReverseConnection(s@),
        }
    }
}

/// What reports say.
pub open spec fn reports(s: Seq<AppAggMessage>) -> Seq<ReportView> {
    Seq::new(s.len(), |i: int| s[i]@)
}

/// Why the program ends itself.
#[derive(Clone, Copy, Debug, PartialEq, Eq, Structural)]
pub enum ExitCodes {
    AppLoopRecFailed,
    AppFailedKill,
    RevConnOutgoingLock,
}

impl ExitCodes {
    pub open spec fn spec_code(self) -> i32 {
        match self {
            ExitCodes::AppLoopRecFailed => 2,
            ExitCodes::AppFailedKill => 3,
            ExitCodes::RevConnOutgoingLock => 4,
        }
    }

    /// The number that the process ends with.
    pub fn code(self) -> (c: i32)
        ensures
            c == self.spec_code(),
    {
        match self {
            ExitCodes::AppLoopRecFailed => 2,
            ExitCodes::AppFailedKill => 3,
            ExitCodes::RevConnOutgoingLock => 4,
        }
    }
}

/// What has to be done about a report, besides remembering it.
#[derive(Debug)]
pub enum AppEffect {
    Log(LogLevel, String),
    SetLogLevel(LogLevel),
    SetFileLogging(bool),
    Exit(ExitCodes, String),
    StartReverseDownload(String),
}

/// What an `AppEffect` says.
pub enum EffectView {
    Log(LogLevel, Seq<char>),
    SetLogLevel(LogLevel),
    SetFileLogging(bool),
    Exit(ExitCodes, Seq<char>),
    StartReverseDownload(Seq<char>),
}

impl View for AppEffect {
    type V = EffectView;

    open spec fn view(&self) -> EffectView {
        match self {
            AppEffect::Log(l, s) => EffectView::Log(*l, s@),
            AppEffect::SetLogLevel(l) => EffectView::SetLogLevel(*l),
            AppEffect::SetFileLogging(b) => EffectView::SetFileLogging(*b),
            AppEffect::Exit(c, s) => EffectView::Exit(*c, s@),
            AppEffect::StartReverseDownload(s) => EffectView::StartReverseDownload(s@),
        }
    }
}

/// What is known of all downloads and uploads.
pub struct AppState {
    pub download_state: NameMap<SingleDownloadState>,
    pub upload_state: NameMap<SingleUploadState>,
    pub incoming_uploader_error: Option<IncomingUploaderError>,
}

/// What an `IncomingUploaderError` says.
pub enum UploaderErrorView {
    PortInUse,
    Generic(Seq<char>),
}

pub open spec fn uploader_error_view(e: Option<IncomingUploaderError>) -> Option<
    UploaderErrorView,
> {
    match e {
        None => None,
        Some(IncomingUploaderError::PortInUse) => Some(UploaderErrorView::PortInUse),
        Some(IncomingUploaderError::Generic(s)) => Some(UploaderErrorView::Generic(s@)),
    }
}

/// What an `AppState` says.
#[verifier::ext_equal]
pub struct AppView {
    pub downloads: Map<Seq<char>, DownloadView>,
    pub uploads: Map<Seq<char>, UploadView>,
    pub error: Option<UploaderErrorView>,
}

impl View for AppState {
    type V = AppView;

    open spec fn view(&self) -> AppView {
        AppView {
            downloads: self.download_state@,
            uploads: self.upload_state@,
            error: uploader_error_view(self.incoming_uploader_error),
        }
    }
}

/// What is known of the downloads from a user, before anything was reported too.
pub open spec fn download_of(s: AppView, nickname: Seq<char>) -> DownloadView {
    if s.downloads.dom().contains(nickname) {
        s.downloads[nickname]
    } else {
        no_downloads()
    }
}

/// What is known after a report, and what has to be done about it.
pub open spec fn reported(s: AppView, m: ReportView) -> (AppView, Seq<EffectView>) {
    match m {
        ReportView::Log(level, text) => (s, seq![EffectView::Log(level, text)]),
        ReportView::SetLogLevel(level) => (s, seq![EffectView::SetLogLevel(level)]),
        ReportView::LogToFileState(state) => (s, seq![EffectView::SetFileLogging(state)]),
        ReportView::InvalidFile { nickname, active_path, invalid_path, queue, .. } => {
            let d = download_of(s, nickname);
            let d = DownloadView {
                active_path,
                invalid: d.invalid.push(invalid_path),
                queue,
                is_online: true,
                ..d
            };
            (
                AppView { downloads: s.downloads.insert(nickname, d), ..s },
                seq![EffectView::Log(
                    LogLevel::Warning,
                    "Invalid file from '"@ + nickname + "' - '"@ + invalid_path + "'"@,
                )],
            )
        },
        ReportView::InProgress { nickname, path, percent, queue, local_path, size } => {
            let d = download_of(s, nickname);
            let d = DownloadView {
                active_path: path,
                percent,
                local_path,
                queue,
                is_online: true,
                size,
                ..d
            };
            (AppView { downloads: s.downloads.insert(nickname, d), ..s }, seq![])
        },
        ReportView::Completed(c) => {
            let d = download_of(s, c.nickname);
            let d = DownloadView {
                completed: d.completed.push(c),
                queue: c.queue,
                active_path: None,
                local_path: if s.downloads.dom().contains(c.nickname) {
                    Some(c.local_path)
                } else {
                    None
                },
                is_online: true,
                ..d
            };
            (
                AppView { downloads: s.downloads.insert(c.nickname, d), ..s },
                seq![EffectView::Log(
                    LogLevel::Info,
                    "Download completed '"@ + c.nickname + "' - '"@ + c.local_path + "'"@,
                )],
            )
        },
        ReportView::Offline { nickname, queue } => {
            let d = download_of(s, nickname);
            let d = DownloadView { is_online: false, queue, error: None, ..d };
            (AppView { downloads: s.downloads.insert(nickname, d), ..s }, seq![])
        },
        ReportView::OfflineError { nickname, error } => {
            let d = download_of(s, nickname);
            let d = DownloadView { is_online: false, error: Some(error), ..d };
            (AppView { downloads: s.downloads.insert(nickname, d), ..s }, seq![])
        },
        ReportView::UploadStateChange(u) => (
            AppView { uploads: s.uploads.insert(u.nickname, u), ..s },
            seq![],
        ),
        ReportView::UploadDisconnected(nickname) => {
            let effect = seq![
                EffectView::Log(LogLevel::Debug, "Upload disconnected '"@ + nickname + "'"@),
            ];
            if s.uploads.dom().contains(nickname) {
                let u = UploadView { is_online: false, ..s.uploads[nickname] };
                (AppView { uploads: s.uploads.insert(nickname, u), ..s }, effect)
            } else {
                (s, effect)
            }
        },
        ReportView::UploadErrorGeneric(text) => (
            AppView { error: Some(UploaderErrorView::Generic(text)), ..s },
            seq![EffectView::Log(
                LogLevel::Error,
                "Uploading Error. Sharing has stopped.: "@ + text,
            )],
        ),
        ReportView::UploadErrorPortInUse => (
            AppView { error: Some(UploaderErrorView::PortInUse), ..s },
            seq![EffectView::Log(
                LogLevel::Error,
                "Uploading Error. Port already in use. Sharing has stopped."@,
            )],
        ),
        ReportView::AppFailedKill(text) => (
            s,
            seq![EffectView::Exit(ExitCodes::AppFailedKill, "AppFailedKill. "@ + text)],
        ),
        ReportView::ReverseConnection(nickname) => (
            s,
            seq![
                EffectView::Log(LogLevel::Critical, "REVERSE APPAGG"@),
                EffectView::StartReverseDownload(nickname),
            ],
        ),
    }
}

/// What effects say.
pub open spec fn effect_views(s: Seq<AppEffect>) -> Seq<EffectView> {
    Seq::new(s.len(), |i: int| s[i]@)
}

fn one_effect(e: AppEffect) -> (v: Vec<AppEffect>)
    ensures
        effect_views(v@) == seq![e@],
{
    let mut v: Vec<AppEffect> = Vec::new();
    v.push(e);
    assert(effect_views(v@) =~= seq![e@]);
    v
}

fn no_effect() -> (v: Vec<AppEffect>)
    ensures
        effect_views(v@) == Seq::<EffectView>::empty(),
{
    let v: Vec<AppEffect> = Vec::new();
    assert(effect_views(v@) =~= seq![]);
    v
}

impl AppState {
    pub fn new() -> (s: AppState)
        ensures
            s@ == (AppView { downloads: Map::empty(), uploads: Map::empty(), error: None }),
    {
        AppState {
            download_state: NameMap::new(),
            upload_state: NameMap::new(),
            incoming_uploader_error: None,
        }
    }

    fn take_download(&mut self, nickname: &str) -> (d: SingleDownloadState)
        ensures
            d@ == download_of(old(self)@, nickname@),
            final(self)@ == (AppView {
                downloads: old(self)@.downloads.remove(nickname@),
                ..old(self)@
            }),
    {
        match self.download_state.remove(nickname) {
            Some(d) => d,
            None => SingleDownloadState::default(),
        }
    }

    fn put_download(&mut self, nickname: String, d: SingleDownloadState)
        ensures
            final(self)@ == (AppView {
                downloads: old(self)@.downloads.insert(nickname@, d@),
                ..old(self)@
            }),
    {
        self.download_state.insert(nickname, d);
    }

    /// Remembers what is reported, and says what has to be done about it.
    pub fn app_loop(&mut self, msg: AppAggMessage) -> (effects: Vec<AppEffect>)
        ensures
            (final(self)@, effect_views(effects@)) == reported(old(self)@, msg@),
    {
        let ghost before = self@;
        match msg {
            AppAggMessage::InvalidFile(f) => {
                let text = cat5(
                    "Invalid file from '",
                    f.nickname.as_str(),
                    "' - '",
                    f.invalid_path.as_str(),
                    "'",
                );
                let mut d = self.take_download(f.nickname.as_str());
                let ghost d0 = d@;
                let ghost invalid = d.invalid_downloads@;
                d.active_download_path = f.active_path;
                d.invalid_downloads.push(f.invalid_path);
                d.download_queue = f.download_queue;
                d.is_online = true;
                proof {
                    assert(texts(d.invalid_downloads@) =~= texts(invalid).push(f.invalid_path@));
                    assert(before.downloads.remove(f.nickname@).insert(f.nickname@, d@)
                        =~= before.downloads.insert(f.nickname@, d@));
                }
                self.put_download(f.nickname, d);
                one_effect(AppEffect::Log(LogLevel::Warning, text))
            },
            AppAggMessage::InProgress(f) => {
                let mut d = self.take_download(f.nickname.as_str());
                d.active_download_path = f.path;
                d.active_download_percent = f.percent;
                d.active_download_local_path = f.path_local_disk;
                d.download_queue = f.download_queue;
                d.is_online = true;
                d.active_download_size = f.size_string;
                assert(before.downloads.remove(f.nickname@).insert(f.nickname@, d@)
                    =~= before.downloads.insert(f.nickname@, d@));
                self.put_download(f.nickname, d);
                no_effect()
            },
            AppAggMessage::Completed(f) => {
                let text = cat5(
                    "Download completed '",
                    f.nickname.as_str(),
                    "' - '",
                    f.path_local_disk.as_str(),
                    "'",
                );
                let is_known = self.download_state.contains_key(f.nickname.as_str());
                let completed = f.clone();
                let mut d = self.take_download(f.nickname.as_str());
                let ghost done = d.completed_downloads@;
                d.completed_downloads.push(completed);
                d.download_queue = f.download_queue;
                d.active_download_path = None;
                if is_known {
                    d.active_download_local_path = Some(f.path_local_disk);
                }
                d.is_online = true;
                proof {
                    assert(completed_views(d.completed_downloads@) =~= completed_views(done).push(
                        completed@,
                    ));
                    assert(before.downloads.remove(f.nickname@).insert(f.nickname@, d@)
                        =~= before.downloads.insert(f.nickname@, d@));
                }
                self.put_download(f.nickname, d);
                one_effect(AppEffect::Log(LogLevel::Info, text))
            },
            AppAggMessage::Offline(f) => {
                let mut d = self.take_download(f.nickname.as_str());
                d.is_online = false;
                d.download_queue = f.download_queue;
                d.error = None;
                assert(before.downloads.remove(f.nickname@).insert(f.nickname@, d@)
                    =~= before.downloads.insert(f.nickname@, d@));
                self.put_download(f.nickname, d);
                no_effect()
            },
            AppAggMessage::OfflineError(f) => {
                let mut d = self.take_download(f.nickname.as_str());
                d.is_online = false;
                d.error = Some(f.error);
                assert(before.downloads.remove(f.nickname@).insert(f.nickname@, d@)
                    =~= before.downloads.insert(f.nickname@, d@));
                self.put_download(f.nickname, d);
                no_effect()
            },
            AppAggMessage::UploadStateChange(f) => {
                self.upload_state.insert(f.nickname.clone(), f);
                no_effect()
            },
            AppAggMessage::UploadDisconnected(nickname) => {
                let text = cat3("Upload disconnected '", nickname.as_str(), "'");
                match self.upload_state.remove(nickname.as_str()) {
                    Some(u) => {
                        let mut state = u;
                        state.is_online = false;
                        assert(before.uploads.remove(nickname@).insert(nickname@, state@)
                            =~= before.uploads.insert(nickname@, state@));
                        self.upload_state.insert(nickname, state);
                    },
                    None => {
                        assert(before.uploads.remove(nickname@) =~= before.uploads);
                    },
                }
                one_effect(AppEffect::Log(LogLevel::Debug, text))
            },
            AppAggMessage::AppFailedKill(s) => one_effect(
                AppEffect::Exit(ExitCodes::AppFailedKill, cat2("AppFailedKill. ", s.as_str())),
            ),
            AppAggMessage::LogDebug(s) => one_effect(AppEffect::Log(LogLevel::Debug, s)),
            AppAggMessage::LogInfo(s) => one_effect(AppEffect::Log(LogLevel::Info, s)),
            AppAggMessage::LogWarning(s) => one_effect(AppEffect::Log(LogLevel::Warning, s)),
            AppAggMessage::LogError(s) => one_effect(AppEffect::Log(LogLevel::Error, s)),
            AppAggMessage::LogCritical(s) => one_effect(AppEffect::Log(LogLevel::Critical, s)),
            AppAggMessage::SetLogLevel(level) => one_effect(AppEffect::SetLogLevel(level)),
            AppAggMessage::LogToFileState(state) => one_effect(AppEffect::SetFileLogging(state)),
            AppAggMessage::UploadErrorGeneric(s) => {
                let text = cat2("Uploading Error. Sharing has stopped.: ", s.as_str());
                self.incoming_uploader_error = Some(IncomingUploaderError::Generic(s));
                one_effect(AppEffect::Log(LogLevel::Error, text))
            },
            AppAggMessage::UploadErrorPortInUse => {
                self.incoming_uploader_error = Some(IncomingUploaderError::PortInUse);
                one_effect(
                    AppEffect::Log(
                        LogLevel::Error,
                        "Uploading Error. Port already in use. Sharing has stopped.".to_owned(),
                    ),
                )
            },
            AppAggMessage::ReverseConnection(nickname) => {
                let mut v = one_effect(
                    AppEffect::Log(LogLevel::Critical, "REVERSE APPAGG".to_owned()),
                );
                let ghost first = v@;
                v.push(AppEffect::StartReverseDownload(nickname));
                assert(effect_views(v@) =~= effect_views(first).push(
                    EffectView::StartReverseDownload(nickname@),
                ));
                assert(effect_views(v@) =~= seq![
                    EffectView::Log(LogLevel::Critical, "REVERSE APPAGG"@),
                    EffectView::StartReverseDownload(nickname@),
                ]);
                v
            },
        }
    }
}

/// A report changes what is known of one user at most.
pub proof fn law_report_is_about_one_user(s: AppView, m: ReportView, a: Seq<char>, b: Seq<char>)
    requires
        a != b,
    ensures
        ({
            let t = reported(s, m).0;
            ||| download_of(t, a) == download_of(s, a)
            ||| download_of(t, b) == download_of(s, b)
        }),
{
}

/// Once something is known of the downloads from a user, it is never forgotten.
pub proof fn law_downloads_are_remembered(s: AppView, m: ReportView, nickname: Seq<char>)
    requires
        s.downloads.dom().contains(nickname),
    ensures
        reported(s, m).0.downloads.dom().contains(nickname),
        s.downloads[nickname].completed.is_prefix_of(
            reported(s, m).0.downloads[nickname].completed,
        ),
        s.downloads[nickname].invalid.is_prefix_of(reported(s, m).0.downloads[nickname].invalid),
{
    let t = reported(s, m).0;
    let x = s.downloads[nickname];
    let y = t.downloads[nickname];
    assert(x.completed.is_prefix_of(y.completed)) by {
        assert(y.completed.subrange(0, x.completed.len() as int) =~= x.completed);
    }
    assert(x.invalid.is_prefix_of(y.invalid)) by {
        assert(y.invalid.subrange(0, x.invalid.len() as int) =~= x.invalid);
    }
}

/// After a report of progress, what is known of that user has the active path, the percentage, the
/// queue, the place and the size of the report, and the user is online. What was completed, what
/// was invalid and the last error stay, and nobody has to do anything.
pub proof fn law_progress_is_shown(s: AppView, m: ReportView)
    requires
        m is InProgress,
    ensures
        ({
            let (t, effects) = reported(s, m);
            let name = m->InProgress_nickname;
            let d = t.downloads[name];
            &&& t.downloads.dom().contains(name)
            &&& d.active_path == m->InProgress_path
            &&& d.percent == m->InProgress_percent
            &&& d.queue == m->InProgress_queue
            &&& d.local_path == m->InProgress_local_path
            &&& d.size == m->InProgress_size
            &&& d.is_online
            &&& d.completed == download_of(s, name).completed
            &&& d.invalid == download_of(s, name).invalid
            &&& d.error == download_of(s, name).error
            &&& effects.len() == 0
        }),
{
}

/// After a report that a download is done, it is the last of the completed ones of that user, with
/// nothing active and the queue of the report; those completed before stay, as do the invalid
/// ones. The place where it was saved is shown where the user was known. It is logged.
pub proof fn law_completed_is_shown(s: AppView, c: CompletedView)
    ensures
        ({
            let (t, effects) = reported(s, ReportView::Completed(c));
            let before = download_of(s, c.nickname);
            let d = t.downloads[c.nickname];
            &&& t.downloads.dom().contains(c.nickname)
            &&& d.completed.len() == before.completed.len() + 1
            &&& d.completed.last() == c
            &&& d.completed.drop_last() == before.completed
            &&& d.active_path is None
            &&& d.queue == c.queue
            &&& d.is_online
            &&& d.invalid == before.invalid
            &&& d.error == before.error
            &&& d.percent == before.percent
            &&& d.size == before.size
            &&& s.downloads.dom().contains(c.nickname) ==> d.local_path == Some(c.local_path)
            &&& !s.downloads.dom().contains(c.nickname) ==> d.local_path is None
            &&& effects.len() == 1
            &&& effects[0] matches EffectView::Log(level, _) && level == LogLevel::Info
        }),
{
    let d = reported(s, ReportView::Completed(c)).0.downloads[c.nickname];
    assert(d.completed.drop_last() =~= download_of(s, c.nickname).completed);
}

/// After a report of a file that cannot be downloaded, it is the last of the invalid ones of that
/// user, with the active path and the queue of the report; those before stay, as do the completed
/// ones and how far the active download is. There is a warning.
pub proof fn law_invalid_file_is_shown(s: AppView, m: ReportView)
    requires
        m is InvalidFile,
    ensures
        ({
            let (t, effects) = reported(s, m);
            let name = m->InvalidFile_nickname;
            let before = download_of(s, name);
            let d = t.downloads[name];
            &&& t.downloads.dom().contains(name)
            &&& d.invalid.len() == before.invalid.len() + 1
            &&& d.invalid.last() == m->InvalidFile_invalid_path
            &&& d.invalid.drop_last() == before.invalid
            &&& d.active_path == m->InvalidFile_active_path
            &&& d.queue == m->InvalidFile_queue
            &&& d.is_online
            &&& d.completed == before.completed
            &&& d.error == before.error
            &&& d.percent == before.percent
            &&& d.size == before.size
            &&& d.local_path == before.local_path
            &&& effects.len() == 1
            &&& effects[0] matches EffectView::Log(level, _) && level == LogLevel::Warning
        }),
{
    let name = m->InvalidFile_nickname;
    let d = reported(s, m).0.downloads[name];
    assert(d.invalid.drop_last() =~= download_of(s, name).invalid);
}

/// After a report that a user cannot be reached, the user is offline. With a queue, that queue is
/// shown and no error; with an error, that error is shown and the queue stays. All else stays.
pub proof fn law_offline_is_shown(s: AppView, m: ReportView)
    requires
        m is Offline || m is OfflineError,
    ensures
        ({
            let (t, effects) = reported(s, m);
            let name = if m is Offline {
                m->Offline_nickname
            } else {
                m->OfflineError_nickname
            };
            let before = download_of(s, name);
            let d = t.downloads[name];
            &&& t.downloads.dom().contains(name)
            &&& !d.is_online
            &&& m is Offline ==> d.queue == m->Offline_queue && d.error is None
            &&& m is OfflineError ==> d.queue == before.queue && d.error == Some(m->error)
            &&& d.active_path == before.active_path
            &&& d.percent == before.percent
            &&& d.local_path == before.local_path
            &&& d.size == before.size
            &&& d.completed == before.completed
            &&& d.invalid == before.invalid
            &&& effects.len() == 0
        }),
{
}

/// A report of an upload is shown as it is. Where the user is gone, the last that was shown of the
/// upload stays, but for the user being offline; nothing is made up of a user who was sent
/// nothing.
pub proof fn law_upload_is_shown(s: AppView, u: UploadView, name: Seq<char>)
    ensures
        ({
            let t = reported(s, ReportView::UploadStateChange(u)).0;
            &&& t.uploads.dom().contains(u.nickname) && t.uploads[u.nickname] == u
            &&& name != u.nickname ==> (t.uploads.dom().contains(name)
                <==> s.uploads.dom().contains(name)) && t.uploads[name] == s.uploads[name]
        }),
        ({
            let t = reported(s, ReportView::UploadDisconnected(u.nickname)).0;
            &&& t.uploads.dom() == s.uploads.dom()
            &&& s.uploads.dom().contains(u.nickname) ==> {
                &&& !t.uploads[u.nickname].is_online
                &&& t.uploads[u.nickname].path == s.uploads[u.nickname].path
                &&& t.uploads[u.nickname].percent == s.uploads[u.nickname].percent
                &&& t.uploads[u.nickname].nickname == s.uploads[u.nickname].nickname
            }
            &&& name != u.nickname ==> t.uploads[name] == s.uploads[name]
        }),
{
    let t = reported(s, ReportView::UploadDisconnected(u.nickname)).0;
    assert(t.uploads.dom() =~= s.uploads.dom());
}

/// The nickname of the user whose downloads a report is about.
pub open spec fn downloads_from(m: ReportView) -> Option<Seq<char>> {
    match m {
        ReportView::InvalidFile { nickname, .. } => Some(nickname),
        ReportView::InProgress { nickname, .. } => Some(nickname),
        ReportView::Completed(c) => Some(c.nickname),
        ReportView::Offline { nickname, .. } => Some(nickname),
        ReportView::OfflineError { nickname, .. } => Some(nickname),
        _ => None,
    }
}

/// A report about the downloads from a user leaves what is known of all others, and of uploads, as
/// it is. Every other report leaves what is known of all downloads as it is, and what is known of
/// uploads unless it is about one. Only an error of the uploads changes which error there is.
pub proof fn law_report_leaves_the_rest(s: AppView, m: ReportView, name: Seq<char>)
    ensures
        ({
            let t = reported(s, m).0;
            &&& downloads_from(m) != Some(name) ==> {
                &&& t.downloads.dom().contains(name) <==> s.downloads.dom().contains(name)
                &&& t.downloads[name] == s.downloads[name]
            }
            &&& !(m is UploadStateChange || m is UploadDisconnected) ==> t.uploads == s.uploads
            &&& !(m is UploadErrorGeneric || m is UploadErrorPortInUse) ==> t.error == s.error
        }),
{
}

/// An error of the uploads is kept, whatever it was before, and logged as an error.
pub proof fn law_sharing_error_is_kept(s: AppView, text: Seq<char>)
    ensures
        reported(s, ReportView::UploadErrorGeneric(text)).0.error == Some(
            UploaderErrorView::Generic(text),
        ),
        reported(s, ReportView::UploadErrorPortInUse).0.error == Some(UploaderErrorView::PortInUse),
        reported(s, ReportView::UploadErrorGeneric(text)).1.len() == 1,
        reported(s, ReportView::UploadErrorPortInUse).1.len() == 1,
        reported(s, ReportView::UploadErrorGeneric(text)).1[0] matches EffectView::Log(level, _)
            && level == LogLevel::Error,
        reported(s, ReportView::UploadErrorPortInUse).1[0] matches EffectView::Log(level, _)
            && level == LogLevel::Error,
{
}

/// What is to be logged is logged with its level and its words, orders to the log are passed on,
/// a connection of another user is handed to the downloads from that user, and the program ends
/// itself where it cannot end otherwise, and only there. None of these changes what is shown.
pub proof fn law_orders_are_passed_on(
    s: AppView,
    level: LogLevel,
    text: Seq<char>,
    state: bool,
    m: ReportView,
)
    ensures
        reported(s, ReportView::Log(level, text)) == (s, seq![EffectView::Log(level, text)]),
        reported(s, ReportView::SetLogLevel(level)) == (s, seq![EffectView::SetLogLevel(level)]),
        reported(s, ReportView::LogToFileState(state)) == (
            s,
            seq![EffectView::SetFileLogging(state)],
        ),
        reported(s, ReportView::ReverseConnection(text)).0 == s,
        reported(s, ReportView::ReverseConnection(text)).1.last()
            == EffectView::StartReverseDownload(text),
        reported(s, ReportView::AppFailedKill(text)).0 == s,
        m is AppFailedKill <==> exists|i: int|
            0 <= i < reported(s, m).1.len() && #[trigger] reported(s, m).1[i] is Exit,
        m is ReverseConnection <==> exists|i: int|
            0 <= i < reported(s, m).1.len() && #[trigger] reported(
                s,
                m,
            ).1[i] is StartReverseDownload,
{
    if m is AppFailedKill {
        assert(reported(s, m).1[0] is Exit);
    }
    if m is ReverseConnection {
        assert(reported(s, m).1[1] is StartReverseDownload);
    }
}

/// Of a user nothing was reported of, nothing is shown: no download, no error, and no sign that
/// the user is offline.
pub proof fn law_nothing_is_known_at_first(s: AppView, nickname: Seq<char>)
    requires
        !s.downloads.dom().contains(nickname),
    ensures
        ({
            let d = download_of(s, nickname);
            &&& d.active_path is None && d.local_path is None && d.error is None
            &&& d.queue.len() == 0 && d.invalid.len() == 0 && d.completed.len() == 0
            &&& d.percent == 0 && d.size.len() == 0 && d.is_online
        }),
{
}

/// The ways in which the program ends itself can be told apart, and from an end that is none.
pub proof fn law_exit_codes_differ(a: ExitCodes, b: ExitCodes)
    ensures
        a.spec_code() == b.spec_code() ==> a == b,
        a.spec_code() != 0,
{
}

/// What is logged of a user names the user, and what is logged of a file names the file. An error
/// is logged with its text, and nothing else is done about either.
#[verifier::rlimit(40)]
pub proof fn law_log_names_user_and_file(s: AppView, m: ReportView, c: CompletedView, text: Seq<char>)
    requires
        m is InvalidFile,
    ensures
        reported(s, m).1[0] matches EffectView::Log(_, line) && has_part(
            line,
            m->InvalidFile_nickname,
        ) && has_part(line, m->InvalidFile_invalid_path),
        reported(s, ReportView::Completed(c)).1[0] matches EffectView::Log(_, line) && has_part(
            line,
            c.nickname,
        ) && has_part(line, c.local_path),
        reported(s, ReportView::UploadErrorGeneric(text)).1[0] matches EffectView::Log(_, line)
            && has_part(line, text),
        ({
            let effects = reported(s, ReportView::UploadDisconnected(text)).1;
            &&& effects.len() == 1
            &&& effects[0] matches EffectView::Log(level, line) && level == LogLevel::Debug
                && has_part(line, text)
        }),
        ({
            let effects = reported(s, ReportView::AppFailedKill(text)).1;
            &&& effects.len() == 1
            &&& effects[0] matches EffectView::Exit(code, line) && code == ExitCodes::AppFailedKill
                && has_part(line, text)
        }),
        ({
            let effects = reported(s, ReportView::ReverseConnection(text)).1;
            &&& effects.len() == 2
            &&& effects[0] matches EffectView::Log(level, _) && level == LogLevel::Critical
        }),
{
    let name = m->InvalidFile_nickname;
    let path = m->InvalidFile_invalid_path;
    let none = Seq::<char>::empty();
    let invalid = "Invalid file from '"@ + name + "' - '"@ + path + "'"@;
    law_parts_are_found("Invalid file from '"@, name, "' - '"@ + path + "'"@);
    assert(invalid =~= "Invalid file from '"@ + name + ("' - '"@ + path + "'"@));
    law_parts_are_found("Invalid file from '"@ + name + "' - '"@, path, "'"@);
    let done = "Download completed '"@ + c.nickname + "' - '"@ + c.local_path + "'"@;
    law_parts_are_found("Download completed '"@, c.nickname, "' - '"@ + c.local_path + "'"@);
    assert(done =~= "Download completed '"@ + c.nickname + ("' - '"@ + c.local_path + "'"@));
    law_parts_are_found("Download completed '"@ + c.nickname + "' - '"@, c.local_path, "'"@);
    law_parts_are_found("Uploading Error. Sharing has stopped.: "@, text, none);
    assert("Uploading Error. Sharing has stopped.: "@ + text + none
        =~= "Uploading Error. Sharing has stopped.: "@ + text);
    law_parts_are_found("Upload disconnected '"@, text, "'"@);
    law_parts_are_found("AppFailedKill. "@, text, none);
    assert("AppFailedKill. "@ + text + none =~= "AppFailedKill. "@ + text);
}

/// The code to exit with says what went wrong.
pub proof fn law_exit_code_says_why(a: ExitCodes)
    ensures
        a is AppLoopRecFailed <==> a.spec_code() == 2,
        a is AppFailedKill <==> a.spec_code() == 3,
        a is RevConnOutgoingLock <==> a.spec_code() == 4,
{
}

} // verus!
