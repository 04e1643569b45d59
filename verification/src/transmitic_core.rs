//! The program as a whole: what the user may do, and what follows from it.
use std::collections::VecDeque;
use vstd::prelude::*;
use crate::app_aggregator::{uploader_error_view, AppAggMessage, AppState, AppView, CompletedMessage, CompletedView, ReportView};
use crate::base64::encoded;
use crate::config::{are_files_added, bool_text, is_allowed_set, is_file_removed, is_new_id_set, is_port_set, is_shared_with, is_sharer_added, is_sharer_removed, is_stored, is_user_added, is_user_removed, is_user_updated, Config, ConfigSharedFile, ConfigState, ConfigView, LocalKeyPair, RejectedAddress, SharedUser, UserView};
use crate::crypto::{ed25519_public_key, ring_public_key};
use crate::incoming::among;
use crate::incoming_uploader::{IncomingUploaderError, SharingState};
use crate::logger::LogLevel;
use crate::name_map::NameMap;
use crate::text::{cat2, cat3, cat5, cat7, opt_text, texts};

verus! {

/// What is being sent to a user.
#[derive(Debug)]
pub struct SingleUploadState {
    pub nickname: String,
    pub path: String,
    pub percent: u64,
    pub is_online: bool,
}

/// What a `SingleUploadState` says.
pub struct UploadView {
    pub nickname: Seq<char>,
    pub path: Seq<char>,
    pub percent: u64,
    pub is_online: bool,
}

impl View for SingleUploadState {
    type V = UploadView;

    open spec fn view(&self) -> UploadView {
        UploadView {
            nickname: self.nickname@,
            path: self.path@,
            percent: self.percent,
            is_online: self.is_online,
        }
    }
}

impl Clone for SingleUploadState {
    fn clone(&self) -> (r: Self)
        ensures
            r == *self,
    {
        SingleUploadState {
            nickname: self.nickname.clone(),
            path: self.path.clone(),
            percent: self.percent,
            is_online: self.is_online,
        }
    }
}

/// A download that is done.
#[derive(Debug)]
pub struct CompletedDownloadState {
    pub path: String,
    pub path_local_disk: String,
}

/// What is being downloaded from a user.
#[derive(Debug)]
pub struct SingleDownloadState {
    pub active_download_path: Option<String>,
    pub active_download_percent: u64,
    pub active_download_local_path: Option<String>,
    pub active_download_size: String,
    pub download_queue: VecDeque<String>,
    pub invalid_downloads: Vec<String>,
    pub completed_downloads: Vec<CompletedMessage>,
    pub is_online: bool,
    pub error: Option<String>,
}

/// What a `SingleDownloadState` says.
#[verifier::ext_equal]
pub struct DownloadView {
    pub active_path: Option<Seq<char>>,
    pub percent: u64,
    pub local_path: Option<Seq<char>>,
    pub size: Seq<char>,
    pub queue: Seq<Seq<char>>,
    pub invalid: Seq<Seq<char>>,
    pub completed: Seq<CompletedView>,
    pub is_online: bool,
    pub error: Option<Seq<char>>,
}

/// What completed downloads say.
pub open spec fn completed_views(s: Seq<CompletedMessage>) -> Seq<CompletedView> {
    Seq::new(s.len(), |i: int| s[i]@)
}

impl View for SingleDownloadState {
    type V = DownloadView;

    open spec fn view(&self) -> DownloadView {
        DownloadView {
            active_path: opt_text(self.active_download_path),
            percent: self.active_download_percent,
            local_path: opt_text(self.active_download_local_path),
            size: self.active_download_size@,
            queue: texts(self.download_queue@),
            invalid: texts(self.invalid_downloads@),
            completed: completed_views(self.completed_downloads@),
            is_online: self.is_online,
            error: opt_text(self.error),
        }
    }
}

/// Nothing is being downloaded, and the user is taken to be online.
pub open spec fn no_downloads() -> DownloadView {
    DownloadView {
        active_path: None,
        percent: 0,
        local_path: None,
        size: seq![],
        queue: seq![],
        invalid: seq![],
        completed: seq![],
        is_online: true,
        error: None,
    }
}

impl Default for SingleDownloadState {
    fn default() -> (s: SingleDownloadState)
        ensures
            s@ == no_downloads(),
    {
        let s = SingleDownloadState {
            active_download_path: None,
            active_download_percent: 0,
            active_download_local_path: None,
            active_download_size: String::new(),
            download_queue: VecDeque::new(),
            invalid_downloads: Vec::new(),
            completed_downloads: Vec::new(),
            is_online: true,
            error: None,
        };
        assert(s@ =~= no_downloads());
        s
    }
}

/// Our private id, and the pair that it makes with the public one.
pub struct LocalKeyData {
    pub local_key_pair: LocalKeyPair,
    pub local_key_pair_bytes: Vec<u8>,
}

impl LocalKeyData {
    pub fn new(local_key_pair_bytes: Vec<u8>) -> (r: Result<LocalKeyData, String>)
        ensures
            match ed25519_public_key(local_key_pair_bytes@) {
                Ok(public_id) => {
                    &&& r is Ok
                    &&& r->Ok_0.local_key_pair_bytes@ == local_key_pair_bytes@
                    &&& r->Ok_0.local_key_pair.private_id@ == local_key_pair_bytes@
                    &&& r->Ok_0.local_key_pair.public_id@ == public_id
                },
                Err(e) => r is Err && r->Err_0@ == e,
            },
    {
        match ring_public_key(local_key_pair_bytes.as_slice()) {
            Ok(public_id) => {
                let private_id = vstd::slice::slice_to_vec(local_key_pair_bytes.as_slice());
                Ok(
                    LocalKeyData {
                        local_key_pair: LocalKeyPair { private_id, public_id },
                        local_key_pair_bytes,
                    },
                )
            },
            Err(e) => Err(e),
        }
    }
}

/// What has to be done, in this order, about what the user has chosen. Where the configuration
/// cannot be stored, the old one has to be set again, and nothing of the rest is done.
#[derive(Debug)]
pub enum CoreEffect {
    Report(AppAggMessage),
    StoreConfig,
    UploaderConfig,
    DownloaderConfig,
    UploaderState(SharingState),
    RemoveDownloader(String),
    UpdateDownloader(String),
    RestartDownloaders,
    CancelDownloads,
    CancelDownload { nickname: String, file_path: String },
    ResumeDownloads,
    PauseDownloads,
}

/// What a `CoreEffect` says.
pub enum CoreEffectView {
    Report(ReportView),
    StoreConfig,
    UploaderConfig,
    DownloaderConfig,
    UploaderState(SharingState),
    RemoveDownloader(Seq<char>),
    UpdateDownloader(Seq<char>),
    RestartDownloaders,
    CancelDownloads,
    CancelDownload { nickname: Seq<char>, file_path: Seq<char> },
    ResumeDownloads,
    PauseDownloads,
}

impl View for CoreEffect {
    type V = CoreEffectView;

    open spec fn view(&self) -> CoreEffectView {
        match self {
            CoreEffect::Report(m) => CoreEffectView::Report(m@),
            CoreEffect::StoreConfig => CoreEffectView::StoreConfig,
            CoreEffect::UploaderConfig => CoreEffectView::UploaderConfig,
            CoreEffect::DownloaderConfig => CoreEffectView::DownloaderConfig,
            CoreEffect::UploaderState(state) => CoreEffectView::UploaderState(*state),
            CoreEffect::RemoveDownloader(s) => CoreEffectView::RemoveDownloader(s@),
            CoreEffect::UpdateDownloader(s) => CoreEffectView::UpdateDownloader(s@),
            CoreEffect::RestartDownloaders => CoreEffectView::RestartDownloaders,
            CoreEffect::CancelDownloads => CoreEffectView::CancelDownloads,
            CoreEffect::CancelDownload { nickname, file_path } => CoreEffectView::CancelDownload {
                nickname: nickname@,
                file_path: file_path@,
            },
            CoreEffect::ResumeDownloads => CoreEffectView::ResumeDownloads,
            CoreEffect::PauseDownloads => CoreEffectView::PauseDownloads,
        }
    }
}

pub open spec fn core_effects(s: Seq<CoreEffect>) -> Seq<CoreEffectView> {
    Seq::new(s.len(), |i: int| s[i]@)
}

pub open spec fn log_info(text: Seq<char>) -> CoreEffectView {
    CoreEffectView::Report(ReportView::Log(LogLevel::Info, text))
}

/// What is done: first this, and the rest only where the configuration could be changed.
pub open spec fn are_effects(
    effects: Seq<CoreEffectView>,
    first: CoreEffectView,
    rest: Seq<CoreEffectView>,
    r: Result<(), String>,
) -> bool {
    effects == (if r is Ok {
        seq![first] + rest
    } else {
        seq![first]
    })
}

/// The uploads get the new configuration.
pub open spec fn tell_uploader() -> Seq<CoreEffectView> {
    seq![CoreEffectView::StoreConfig, CoreEffectView::UploaderConfig]
}

/// Uploads and downloads get the new configuration.
pub open spec fn tell_both() -> Seq<CoreEffectView> {
    seq![
        CoreEffectView::StoreConfig,
        CoreEffectView::UploaderConfig,
        CoreEffectView::DownloaderConfig,
    ]
}

fn info(text: String) -> (e: CoreEffect)
    ensures
        e@ == log_info(text@),
{
    CoreEffect::Report(AppAggMessage::LogInfo(text))
}

fn one(effect: CoreEffect) -> (v: Vec<CoreEffect>)
    ensures
        core_effects(v@) == seq![effect@],
{
    let mut v: Vec<CoreEffect> = Vec::new();
    v.push(effect);
    assert(core_effects(v@) =~= seq![effect@]);
    v
}

fn add_effect(effects: &mut Vec<CoreEffect>, effect: CoreEffect)
    ensures
        core_effects(final(effects)@) == core_effects(old(effects)@).push(effect@),
{
    let ghost before = effects@;
    effects.push(effect);
    assert(core_effects(effects@) =~= core_effects(before).push(effect@));
}

/// First one effect; where the configuration has changed, it is stored and the uploads get it, and
/// the downloads too where they need it.
fn effects_of(first: CoreEffect, r: &Result<(), String>, is_for_downloads: bool) -> (v: Vec<
    CoreEffect,
>)
    ensures
        are_effects(
            core_effects(v@),
            first@,
            if is_for_downloads {
                tell_both()
            } else {
                tell_uploader()
            },
            *r,
        ),
{
    let mut v = one(first);
    if r.is_ok() {
        add_effect(&mut v, CoreEffect::StoreConfig);
        add_effect(&mut v, CoreEffect::UploaderConfig);
        if is_for_downloads {
            add_effect(&mut v, CoreEffect::DownloaderConfig);
            assert(core_effects(v@) =~= seq![first@] + tell_both());
        } else {
            assert(core_effects(v@) =~= seq![first@] + tell_uploader());
        }
    }
    v
}

/// The program: its configuration, who may connect, and what is known of downloads and uploads.
pub struct TransmiticCore {
    config: Config,
    is_first_start: bool,
    sharing_state: SharingState,
    ignore_incoming: bool,
    reverse_connection: bool,
    pub state: AppState,
}

/// What a `TransmiticCore` says.
#[verifier::ext_equal]
pub struct CoreView {
    pub config: ConfigState,
    pub first_start: bool,
    pub sharing: SharingState,
    pub ignore_incoming: bool,
    pub reverse_connection: bool,
    pub state: AppView,
}

impl View for TransmiticCore {
    type V = CoreView;

    closed spec fn view(&self) -> CoreView {
        CoreView {
            config: self.config@,
            first_start: self.is_first_start,
            sharing: self.sharing_state,
            ignore_incoming: self.ignore_incoming,
            reverse_connection: self.reverse_connection,
            state: self.state@,
        }
    }
}

pub open spec fn sharing_text(state: SharingState) -> Seq<char> {
    match state {
        SharingState::Off => "Off"@,
        SharingState::Local => "Local"@,
        SharingState::Internet => "Internet"@,
    }
}

fn sharing_str(state: SharingState) -> (s: &'static str)
    ensures
        s@ == sharing_text(state),
{
    match state {
        SharingState::Off => "Off",
        SharingState::Local => "Local",
        SharingState::Internet => "Internet",
    }
}

fn bool_str(b: bool) -> (s: &'static str)
    ensures
        s@ == bool_text(b),
{
    if b {
        "true"
    } else {
        "false"
    }
}

/// What is done about a new sharing state.
pub open spec fn sharing_effects(state: SharingState) -> Seq<CoreEffectView> {
    seq![
        log_info("Set my sharing state '"@ + sharing_text(state) + "'"@),
        CoreEffectView::UploaderState(state),
        log_info("Sharing state set to '"@ + sharing_text(state) + "'"@),
    ]
}

/// No completed download is shown any more.
pub open spec fn without_completed(downloads: Map<Seq<char>, DownloadView>) -> Map<
    Seq<char>,
    DownloadView,
> {
    Map::new(
        |name: Seq<char>| downloads.dom().contains(name),
        |name: Seq<char>| DownloadView { completed: seq![], ..downloads[name] },
    )
}

/// No invalid download is shown any more.
pub open spec fn without_invalid(downloads: Map<Seq<char>, DownloadView>) -> Map<
    Seq<char>,
    DownloadView,
> {
    Map::new(
        |name: Seq<char>| downloads.dom().contains(name),
        |name: Seq<char>| DownloadView { invalid: seq![], ..downloads[name] },
    )
}

/// What is left of what is shown once completed or invalid downloads are cleared for some users.
spec fn cleared(
    downloads: Map<Seq<char>, DownloadView>,
    names: spec_fn(Seq<char>) -> bool,
    completed: bool,
) -> Map<Seq<char>, DownloadView> {
    Map::new(
        |name: Seq<char>| downloads.dom().contains(name),
        |name: Seq<char>|
            if !names(name) {
                downloads[name]
            } else if completed {
                DownloadView { completed: seq![], ..downloads[name] }
            } else {
                DownloadView { invalid: seq![], ..downloads[name] }
            },
    )
}

fn clear_downloads(downloads: &mut NameMap<SingleDownloadState>, completed: bool)
    ensures
        final(downloads)@ == (if completed {
            without_completed(old(downloads)@)
        } else {
            without_invalid(old(downloads)@)
        }),
{
    let ghost start = downloads@;
    let names = downloads.keys();
    let ghost all = names.deep_view();
    let mut i: usize = 0;
    assert(downloads@ =~= cleared(start, among(all.take(0)), completed));
    while i < names.len()
        invariant
            i <= names@.len(),
            all == names.deep_view(),
            all.no_duplicates(),
            forall|name: Seq<char>| #[trigger] all.contains(name) <==> start.dom().contains(name),
            downloads@ == cleared(start, among(all.take(i as int)), completed),
        decreases names@.len() - i,
    {
        let ghost name = all[i as int];
        let ghost t = all.take(i as int);
        let ghost u = all.take(i + 1);
        let ghost here = downloads@;
        proof {
            assert(all.contains(name));
            assert(!t.contains(name)) by {
                if t.contains(name) {
                    let k = choose|k: int| 0 <= k < t.len() && t[k] == name;
                    assert(all[k] == all[i as int]);
                }
            }
            assert(u =~= t.push(name));
            assert forall|n: Seq<char>| #[trigger] u.contains(n) <==> t.contains(n) || n
                == name by {
                if t.contains(n) {
                    let k = choose|k: int| 0 <= k < t.len() && t[k] == n;
                    assert(u[k] == n);
                }
                assert(u[i as int] == name);
            }
        }
        match downloads.remove(names[i].as_str()) {
            Some(download) => {
                let mut d = download;
                if completed {
                    d.completed_downloads = Vec::new();
                    assert(completed_views(d.completed_downloads@) =~= seq![]);
                } else {
                    d.invalid_downloads = Vec::new();
                    assert(texts(d.invalid_downloads@) =~= seq![]);
                }
                downloads.insert(names[i].clone(), d);
                assert(downloads@ =~= cleared(start, among(u), completed));
            },
            None => {},
        }
        i += 1;
    }
    proof {
        assert(all.take(i as int) =~= all);
        if completed {
            assert(downloads@ =~= without_completed(start));
        } else {
            assert(downloads@ =~= without_invalid(start));
        }
    }
}

impl TransmiticCore {
    /// Nobody may connect at first.
    pub fn new(config: Config, ignore_incoming: bool, reverse_connection: bool) -> (c:
        TransmiticCore)
        ensures
            c@ == (CoreView {
                config: config@,
                first_start: config@.first_start,
                sharing: SharingState::Off,
                ignore_incoming,
                reverse_connection,
                state: AppView { downloads: Map::empty(), uploads: Map::empty(), error: None },
            }),
    {
        let is_first_start = config.is_first_start();
        TransmiticCore {
            config,
            is_first_start,
            sharing_state: SharingState::Off,
            ignore_incoming,
            reverse_connection,
            state: AppState::new(),
        }
    }

    /// The configuration.
    pub fn get_config(&self) -> (c: Config)
        ensures
            c@ == self@.config,
    {
        self.config.clone()
    }

    /// Sets a configuration, such as one that is held on to because its successor could not be
    /// stored.
    pub fn set_config(&mut self, config: Config)
        ensures
            final(self)@ == (CoreView { config: config@, ..old(self)@ }),
    {
        self.config = config;
    }

    /// Shares files with nobody yet.
    pub fn add_files(&mut self, files: Vec<String>) -> (r: (Vec<CoreEffect>, Result<(), String>))
        ensures
            are_files_added(old(self)@.config, files.deep_view(), r.1, final(self)@.config),
            final(self)@ == (CoreView { config: final(self)@.config, ..old(self)@ }),
            core_effects(r.0@) == (if r.1 is Ok {
                seq![CoreEffectView::StoreConfig]
            } else {
                seq![]
            }),
    {
        let r = self.config.add_files(files);
        if r.is_ok() {
            (one(CoreEffect::StoreConfig), r)
        } else {
            let v: Vec<CoreEffect> = Vec::new();
            assert(core_effects(v@) =~= seq![]);
            (v, r)
        }
    }

    /// Adds a user.
    pub fn add_new_user(
        &mut self,
        new_nickname: String,
        new_public_id: String,
        new_ip: String,
        new_port: String,
        rejected: &Vec<RejectedAddress>,
    ) -> (r: (Vec<CoreEffect>, Result<(), String>))
        ensures
            is_user_added(
                old(self)@.config,
                UserView {
                    nickname: new_nickname@,
                    public_id: new_public_id@,
                    ip: new_ip@,
                    port: new_port@,
                    allowed: true,
                },
                rejected.deep_view(),
                r.1,
                final(self)@.config,
            ),
            final(self)@ == (CoreView { config: final(self)@.config, ..old(self)@ }),
            are_effects(
                core_effects(r.0@),
                log_info("Add user '"@ + new_nickname@ + "'"@),
                tell_both(),
                r.1,
            ),
    {
        let first = info(cat3("Add user '", new_nickname.as_str(), "'"));
        let r = self.config.add_new_user(new_nickname, new_public_id, new_ip, new_port, rejected);
        (effects_of(first, &r, true), r)
    }

    /// Shares a file that is shared already with one more user. Where it is shared with this user
    /// already, there is nothing to store.
    pub fn add_user_to_shared(&mut self, nickname: String, file_path: String) -> (r: (
        Vec<CoreEffect>,
        Result<(), String>,
    ))
        ensures
            is_sharer_added(
                old(self)@.config,
                nickname@,
                file_path@,
                r.1,
                final(self)@.config,
            ),
            final(self)@ == (CoreView { config: final(self)@.config, ..old(self)@ }),
            are_effects(
                core_effects(r.0@),
                log_info("Add user to shared '"@ + nickname@ + "' - "@ + file_path@),
                if is_shared_with(old(self)@.config.file.shared_files, file_path@, nickname@) {
                    seq![CoreEffectView::UploaderConfig]
                } else {
                    tell_uploader()
                },
                r.1,
            ),
    {
        let text = cat2(
            cat3("Add user to shared '", nickname.as_str(), "' - ").as_str(),
            file_path.as_str(),
        );
        let first = info(text);
        let is_known = self.config.is_shared_with(file_path.as_str(), nickname.as_str());
        let r = self.config.add_user_to_shared(nickname, file_path);
        if is_known {
            let mut v = one(first);
            if r.is_ok() {
                add_effect(&mut v, CoreEffect::UploaderConfig);
                assert(core_effects(v@) =~= seq![first@] + seq![CoreEffectView::UploaderConfig]);
            }
            (v, r)
        } else {
            (effects_of(first, &r, false), r)
        }
    }

    /// Makes a new private id.
    pub fn create_new_id(&mut self) -> (r: (Vec<CoreEffect>, Result<(), String>))
        ensures
            is_new_id_set(old(self)@.config, r.1, final(self)@.config),
            final(self)@ == (CoreView { config: final(self)@.config, ..old(self)@ }),
            are_effects(
                core_effects(r.0@),
                CoreEffectView::Report(ReportView::Log(LogLevel::Warning, "Create new ID"@)),
                tell_both(),
                r.1,
            ),
    {
        let first = CoreEffect::Report(AppAggMessage::LogWarning("Create new ID".to_owned()));
        let r = self.config.create_new_id();
        (effects_of(first, &r, true), r)
    }

    /// Cancels all downloads.
    pub fn downloads_cancel_all(&self) -> (v: Vec<CoreEffect>)
        ensures
            core_effects(v@) == seq![
                log_info("Cancel all downloads"@),
                CoreEffectView::CancelDownloads,
            ],
    {
        let mut v = one(info("Cancel all downloads".to_owned()));
        add_effect(&mut v, CoreEffect::CancelDownloads);
        v
    }

    /// Cancels a download.
    pub fn downloads_cancel_single(&self, nickname: String, file_path: String) -> (v: Vec<
        CoreEffect,
    >)
        ensures
            core_effects(v@) == seq![
                log_info(
                    "Cancel single download '"@ + nickname@ + "' - '"@ + file_path@ + "'"@,
                ),
                CoreEffectView::CancelDownload { nickname: nickname@, file_path: file_path@ },
            ],
    {
        let mut v = one(
            info(
                cat5(
                    "Cancel single download '",
                    nickname.as_str(),
                    "' - '",
                    file_path.as_str(),
                    "'",
                ),
            ),
        );
        add_effect(&mut v, CoreEffect::CancelDownload { nickname, file_path });
        v
    }

    /// All downloads go on.
    pub fn downloads_resume_all(&self) -> (v: Vec<CoreEffect>)
        ensures
            core_effects(v@) == seq![
                log_info("Resume all downloads"@),
                CoreEffectView::ResumeDownloads,
            ],
    {
        let mut v = one(info("Resume all downloads".to_owned()));
        add_effect(&mut v, CoreEffect::ResumeDownloads);
        v
    }

    /// All downloads pause.
    pub fn downloads_pause_all(&self) -> (v: Vec<CoreEffect>)
        ensures
            core_effects(v@) == seq![
                log_info("Pause all downloads"@),
                CoreEffectView::PauseDownloads,
            ],
    {
        let mut v = one(info("Pause all downloads".to_owned()));
        add_effect(&mut v, CoreEffect::PauseDownloads);
        v
    }

    /// Shows no completed download any more.
    pub fn downloads_clear_finished(&mut self) -> (v: Vec<CoreEffect>)
        ensures
            final(self)@ == (CoreView {
                state: AppView {
                    downloads: without_completed(old(self)@.state.downloads),
                    ..old(self)@.state
                },
                ..old(self)@
            }),
            core_effects(v@) == seq![log_info("Clear downloads"@)],
    {
        clear_downloads(&mut self.state.download_state, true);
        one(info("Clear downloads".to_owned()))
    }

    /// Shows no upload any more.
    pub fn downloads_clear_finished_from_me(&mut self) -> (v: Vec<CoreEffect>)
        ensures
            final(self)@ == (CoreView {
                state: AppView { uploads: Map::empty(), ..old(self)@.state },
                ..old(self)@
            }),
            core_effects(v@) == seq![log_info("Clear downloads finished from me"@)],
    {
        self.state.upload_state = NameMap::new();
        one(info("Clear downloads finished from me".to_owned()))
    }

    /// Shows no invalid download any more.
    pub fn downloads_clear_invalid(&mut self) -> (v: Vec<CoreEffect>)
        ensures
            final(self)@ == (CoreView {
                state: AppView {
                    downloads: without_invalid(old(self)@.state.downloads),
                    ..old(self)@.state
                },
                ..old(self)@
            }),
            core_effects(v@) == seq![log_info("Cancel invalid downloads"@)],
    {
        clear_downloads(&mut self.state.download_state, false);
        one(info("Cancel invalid downloads".to_owned()))
    }

    pub fn set_port(&mut self, port: String) -> (r: (Vec<CoreEffect>, Result<(), String>))
        ensures
            is_port_set(old(self)@.config, port@, r.1, final(self)@.config),
            final(self)@ == (CoreView { config: final(self)@.config, ..old(self)@ }),
            are_effects(
                core_effects(r.0@),
                log_info("Set port '"@ + port@ + "'"@),
                tell_uploader(),
                r.1,
            ),
    {
        let first = info(cat3("Set port '", port.as_str(), "'"));
        let r = self.config.set_port(port);
        (effects_of(first, &r, false), r)
    }

    pub fn get_is_first_start(&self) -> (r: bool)
        ensures
            r == self@.first_start,
    {
        self.is_first_start
    }

    /// Our public id as other users enter it.
    pub fn get_public_id_string(&self) -> (s: String)
        ensures
            ed25519_public_key(self@.config.private_key) is Ok,
            s@ == encoded(ed25519_public_key(self@.config.private_key)->Ok_0),
    {
        self.config.get_public_id_string()
    }

    /// Takes the error of the uploads, if there is one. Nobody may connect any more then.
    pub fn get_and_reset_my_sharing_error(&mut self) -> (r: (
        Option<IncomingUploaderError>,
        Vec<CoreEffect>,
    ))
        ensures
            uploader_error_view(r.0) == old(self)@.state.error,
            final(self)@ == (CoreView {
                state: AppView { error: None, ..old(self)@.state },
                sharing: if r.0 is Some {
                    SharingState::Off
                } else {
                    old(self)@.sharing
                },
                ..old(self)@
            }),
            core_effects(r.1@) == (if r.0 is Some {
                sharing_effects(SharingState::Off)
            } else {
                seq![]
            }),
    {
        let mut error: Option<IncomingUploaderError> = None;
        std::mem::swap(&mut error, &mut self.state.incoming_uploader_error);
        if error.is_some() {
            let effects = self.set_my_sharing_state(SharingState::Off);
            (error, effects)
        } else {
            let effects: Vec<CoreEffect> = Vec::new();
            assert(core_effects(effects@) =~= seq![]);
            (error, effects)
        }
    }

    pub fn get_my_sharing_files(&self) -> (v: Vec<ConfigSharedFile>)
        ensures
            v.deep_view() == self@.config.file.shared_files,
    {
        self.config.get_shared_files()
    }

    pub fn get_my_sharing_state(&self) -> (s: SharingState)
        ensures
            s == self@.sharing,
    {
        self.sharing_state
    }

    pub fn is_ignore_incoming(&self) -> (r: bool)
        ensures
            r == self@.ignore_incoming,
    {
        self.ignore_incoming
    }

    pub fn is_reverse_connection(&self) -> (r: bool)
        ensures
            r == self@.reverse_connection,
    {
        self.reverse_connection
    }

    /// Starts to keep the log in a file.
    pub fn log_to_file_start(&self) -> (v: Vec<CoreEffect>)
        ensures
            core_effects(v@) == seq![CoreEffectView::Report(ReportView::LogToFileState(true))],
    {
        one(CoreEffect::Report(AppAggMessage::LogToFileState(true)))
    }

    /// Keeps the log in no file any more.
    pub fn log_to_file_stop(&self) -> (v: Vec<CoreEffect>)
        ensures
            core_effects(v@) == seq![CoreEffectView::Report(ReportView::LogToFileState(false))],
    {
        one(CoreEffect::Report(AppAggMessage::LogToFileState(false)))
    }

    pub fn set_log_level(&self, log_level: LogLevel) -> (v: Vec<CoreEffect>)
        ensures
            core_effects(v@) == seq![CoreEffectView::Report(ReportView::SetLogLevel(log_level))],
    {
        one(CoreEffect::Report(AppAggMessage::SetLogLevel(log_level)))
    }

    pub fn get_shared_users(&self) -> (v: Vec<SharedUser>)
        ensures
            v.deep_view() == self@.config.file.shared_users,
    {
        self.config.get_shared_users()
    }

    pub fn get_sharing_port(&self) -> (s: String)
        ensures
            s@ == self@.config.file.sharing_port,
    {
        self.config.get_sharing_port()
    }

    /// Stops sharing a file.
    pub fn remove_file_from_sharing(&mut self, file_path: String) -> (r: (
        Vec<CoreEffect>,
        Result<(), String>,
    ))
        ensures
            is_file_removed(old(self)@.config, file_path@, r.1, final(self)@.config),
            final(self)@ == (CoreView { config: final(self)@.config, ..old(self)@ }),
            are_effects(
                core_effects(r.0@),
                log_info("Remove from sharing '"@ + file_path@ + "'"@),
                tell_uploader(),
                r.1,
            ),
    {
        let first = info(cat3("Remove from sharing '", file_path.as_str(), "'"));
        let r = self.config.remove_file_from_sharing(file_path);
        (effects_of(first, &r, false), r)
    }

    /// Stops sharing a file with a user.
    pub fn remove_user_from_sharing(&mut self, nickname: String, file_path: String) -> (r: (
        Vec<CoreEffect>,
        Result<(), String>,
    ))
        ensures
            is_sharer_removed(
                old(self)@.config,
                nickname@,
                file_path@,
                r.1,
                final(self)@.config,
            ),
            final(self)@ == (CoreView { config: final(self)@.config, ..old(self)@ }),
            are_effects(
                core_effects(r.0@),
                log_info(
                    "Remove user from sharing '"@ + nickname@ + "' - '"@ + file_path@ + "'"@,
                ),
                tell_uploader(),
                r.1,
            ),
    {
        let first = info(
            cat5(
                "Remove user from sharing '",
                nickname.as_str(),
                "' - '",
                file_path.as_str(),
                "'",
            ),
        );
        let r = self.config.remove_user_from_sharing(nickname, file_path);
        (effects_of(first, &r, false), r)
    }

    /// Removes a user, and stops sharing anything with this user.
    pub fn remove_user(&mut self, nickname: String) -> (r: (Vec<CoreEffect>, Result<(), String>))
        ensures
            is_user_removed(old(self)@.config, nickname@, r.1, final(self)@.config),
            final(self)@ == (CoreView { config: final(self)@.config, ..old(self)@ }),
            are_effects(
                core_effects(r.0@),
                log_info("Remove user '"@ + nickname@ + "'"@),
                tell_both().push(CoreEffectView::RemoveDownloader(nickname@)),
                r.1,
            ),
    {
        let first = info(cat3("Remove user '", nickname.as_str(), "'"));
        let r = self.config.remove_user(nickname.clone());
        let mut v = effects_of(first, &r, true);
        if r.is_ok() {
            add_effect(&mut v, CoreEffect::RemoveDownloader(nickname));
            assert(core_effects(v@) =~= seq![first@] + tell_both().push(
                CoreEffectView::RemoveDownloader(nickname@),
            ));
        }
        (v, r)
    }

    /// Sets who may connect.
    pub fn set_my_sharing_state(&mut self, sharing_state: SharingState) -> (v: Vec<CoreEffect>)
        ensures
            final(self)@ == (CoreView { sharing: sharing_state, ..old(self)@ }),
            core_effects(v@) == sharing_effects(sharing_state),
    {
        let mut v = one(info(cat3("Set my sharing state '", sharing_str(sharing_state), "'")));
        add_effect(&mut v, CoreEffect::UploaderState(sharing_state));
        self.sharing_state = sharing_state;
        add_effect(&mut v, info(cat3("Sharing state set to '", sharing_str(sharing_state), "'")));
        v
    }

    /// Sets whether nobody can connect to us. A download may have been started by a user who
    /// connected for it, so all downloads start over.
    pub fn set_ignore_incoming(&mut self, state: bool) -> (v: Vec<CoreEffect>)
        ensures
            final(self)@ == (CoreView { ignore_incoming: state, ..old(self)@ }),
            core_effects(v@) == (seq![
                log_info("Set ignore incoming '"@ + bool_text(state) + "'"@),
            ] + tell_both()).push(CoreEffectView::RestartDownloaders),
    {
        let first = info(cat3("Set ignore incoming '", bool_str(state), "'"));
        let changed: Result<(), String> = Ok(());
        let mut v = effects_of(first, &changed, true);
        self.ignore_incoming = state;
        add_effect(&mut v, CoreEffect::RestartDownloaders);
        v
    }

    /// Sets whether we connect to users who cannot be connected to.
    pub fn set_reverse_connection(&mut self, state: bool) -> (v: Vec<CoreEffect>)
        ensures
            final(self)@ == (CoreView { reverse_connection: state, ..old(self)@ }),
            core_effects(v@) == seq![
                log_info("Set reverse connection '"@ + bool_text(state) + "'"@),
            ] + tell_uploader(),
    {
        let first = info(cat3("Set reverse connection '", bool_str(state), "'"));
        let changed: Result<(), String> = Ok(());
        self.reverse_connection = state;
        effects_of(first, &changed, false)
    }

    /// Allows or denies a user to connect.
    pub fn set_user_is_allowed_state(&mut self, nickname: String, is_allowed: bool) -> (r: (
        Vec<CoreEffect>,
        Result<(), String>,
    ))
        ensures
            is_allowed_set(
                old(self)@.config,
                nickname@,
                is_allowed,
                r.1,
                final(self)@.config,
            ),
            final(self)@ == (CoreView { config: final(self)@.config, ..old(self)@ }),
            are_effects(
                core_effects(r.0@),
                log_info(
                    "Set user is allowed state '"@ + nickname@ + "' '"@ + bool_text(is_allowed)
                        + "'"@,
                ),
                tell_uploader(),
                r.1,
            ),
    {
        let first = info(
            cat5(
                "Set user is allowed state '",
                nickname.as_str(),
                "' '",
                bool_str(is_allowed),
                "'",
            ),
        );
        let r = self.config.set_user_is_allowed_state(nickname, is_allowed);
        (effects_of(first, &r, false), r)
    }

    /// Changes id and address of a user.
    pub fn update_user(
        &mut self,
        nickname: String,
        new_public_id: String,
        new_ip: String,
        new_port: String,
        rejected: &Vec<RejectedAddress>,
    ) -> (r: (Vec<CoreEffect>, Result<(), String>))
        ensures
            is_user_updated(
                old(self)@.config,
                nickname@,
                new_public_id@,
                new_ip@,
                new_port@,
                rejected.deep_view(),
                r.1,
                final(self)@.config,
            ),
            final(self)@ == (CoreView { config: final(self)@.config, ..old(self)@ }),
            are_effects(
                core_effects(r.0@),
                log_info(
                    "Update user '"@ + nickname@ + "' - '"@ + new_public_id@ + "' - '"@ + new_ip@
                        + "' - '"@ + new_port@ + "'"@,
                ),
                tell_both().push(CoreEffectView::UpdateDownloader(nickname@)),
                r.1,
            ),
    {
        let text = cat3(
            cat7(
                "Update user '",
                nickname.as_str(),
                "' - '",
                new_public_id.as_str(),
                "' - '",
                new_ip.as_str(),
                "' - '",
            ).as_str(),
            new_port.as_str(),
            "'",
        );
        let first = info(text);
        let r = self.config.update_user(
            nickname.clone(),
            new_public_id,
            new_ip,
            new_port,
            rejected,
        );
        let mut v = effects_of(first, &r, true);
        if r.is_ok() {
            add_effect(&mut v, CoreEffect::UpdateDownloader(nickname));
            assert(core_effects(v@) =~= seq![first@] + tell_both().push(
                CoreEffectView::UpdateDownloader(nickname@),
            ));
        }
        (v, r)
    }
}

/// A change that cannot be written to disk leaves nothing behind: once the configuration of before
/// is set again, all is as it was.
pub proof fn law_unwritten_change_is_undone(before: CoreView, changed: CoreView, after: CoreView)
    requires
        changed == (CoreView { config: changed.config, ..before }),
        after == (CoreView { config: before.config, ..changed }),
    ensures
        after == before,
{
}

/// What is refused changes nothing, and nobody is told of a new configuration.
pub proof fn law_refused_change_tells_nobody(
    effects: Seq<CoreEffectView>,
    first: CoreEffectView,
    rest: Seq<CoreEffectView>,
    before: ConfigState,
    wanted: ConfigView,
    r: Result<(), String>,
    after: ConfigState,
)
    requires
        is_stored(before, wanted, seq![], r, after),
        are_effects(effects, first, rest, r),
        r is Err,
    ensures
        after == before,
        effects == seq![first],
{
}

/// Clearing what was completed or invalid clears that of every user and nothing else.
pub proof fn law_clearing_clears_no_more(downloads: Map<Seq<char>, DownloadView>, name: Seq<char>)
    ensures
        without_completed(downloads).dom() == downloads.dom(),
        without_invalid(downloads).dom() == downloads.dom(),
        downloads.dom().contains(name) ==> {
            let d = without_completed(downloads)[name];
            d.completed.len() == 0 && d == (DownloadView { completed: d.completed, ..downloads[name]
            })
        },
        downloads.dom().contains(name) ==> {
            let d = without_invalid(downloads)[name];
            d.invalid.len() == 0 && d == (DownloadView { invalid: d.invalid, ..downloads[name] })
        },
{
    assert(without_completed(downloads).dom() =~= downloads.dom());
    assert(without_invalid(downloads).dom() =~= downloads.dom());
}

/// A change is written down before anybody is told of it. The uploads are told in any case, and the
/// downloads exactly where the change is for them too.
pub proof fn law_change_is_stored_first(
    effects: Seq<CoreEffectView>,
    first: CoreEffectView,
    r: Result<(), String>,
)
    requires
        first is Report,
        r is Ok,
    ensures
        are_effects(effects, first, tell_uploader(), r) ==> effects.len() == 3 && effects[0]
            == first && effects[1] is StoreConfig && effects[2] is UploaderConfig,
        are_effects(effects, first, tell_both(), r) ==> effects.len() == 4 && effects[0] == first
            && effects[1] is StoreConfig && effects[2] is UploaderConfig && effects[3]
            is DownloaderConfig,
{
}

/// Setting who may connect tells the uploads just that, once.
pub proof fn law_sharing_state_is_told(state: SharingState, i: int)
    requires
        0 <= i < sharing_effects(state).len(),
    ensures
        sharing_effects(state).contains(CoreEffectView::UploaderState(state)),
        sharing_effects(state)[i] matches CoreEffectView::UploaderState(told) ==> told == state,
        sharing_effects(state)[i] is UploaderState || sharing_effects(state)[i] is Report,
{
    assert(sharing_effects(state)[1] == CoreEffectView::UploaderState(state));
}

/// The words for who may connect differ.
pub proof fn law_sharing_states_are_told_apart(a: SharingState, b: SharingState)
    ensures
        sharing_text(a) == sharing_text(b) ==> a == b,
{
    reveal_strlit("Off");
    reveal_strlit("Local");
    reveal_strlit("Internet");
    if sharing_text(a) == sharing_text(b) && a != b {
        assert(sharing_text(a).len() == sharing_text(b).len());
    }
}

} // verus!
