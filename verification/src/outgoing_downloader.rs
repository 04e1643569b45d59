//! Downloads from other users.
use std::collections::VecDeque;
use vstd::prelude::*;
use vstd::utf8::{decode_utf8, encode_utf8, encode_utf8_decode_utf8, encode_utf8_valid_utf8, valid_utf8};
use crate::app_aggregator::{AppAggMessage, CompletedMessage, CompletedView, InProgressMessage, InvalidFileMessage, OfflineErrorMessage, OfflineMessage, ReportView, reports};
use crate::bytes::{be_bytes, law_be_value_of_be_bytes, lemma_be_bytes_len, lemma_pow256, to_be_bytes};
use crate::config::{bool_text, find_nickname, first_nickname, is_behind_share, is_nickname, is_piece, is_plain, law_first_nickname, Config, ConfigState, SharedUser, UserView};
use crate::name_map::NameMap;
use crate::core_consts::{MSG_CANNOT_SELECT_DIRECTORY, MSG_FILE_CHUNK, MSG_FILE_FINISHED, MSG_FILE_INVALID_FILE, MSG_FILE_LIST_FINAL, MSG_FILE_SELECTION_CONTINUE};
use crate::incoming_uploader::{chunk_message, joined, law_pieces_make_up_the_list, list_pieces, refusal_of, request, RequestView};
use crate::logger::LogLevel;
use crate::shared_file::{is_pruned, opt_file, remove_invalid_files, reset_file_size_string, views, with_true_sizes, FileView, RefreshData, RefreshDataView, SelectedDownload, SharedFile};
use crate::text::{cat2, cat3, cat5, collapse_backslashes, decimal, decimal_string, has_part, has_prefix, is_digit, is_empty_text, is_white_space, law_digits_value_of_decimal, law_parts_are_found, law_u64_value_of_decimal, lemma_pieces_append, lemma_pieces_of_line, lemma_place_of, lemma_place_of_is, occurs_at, opt_text, parse_u64, pieces, place_of, push_decimal, replace_char, replaced, single_backslashes, split_at_first, split_first, split_lines, starts_with, str_eq, text_from_utf8, texts, trim, trimmed, trimmed_start, u64_value, utf8_refusal};
use crate::utils::{file_at, get_file_by_path, is_within, law_file_at};

verus! {

pub const ERR_REC_DISCONNECTED: &'static str = "Uploader receiver disconnected";

pub const ERR_REMOTE_ID_MISMATCH: &'static str = "PublicID for user is rejected.";

pub const ERR_REMOTE_ID_NOT_FOUND: &'static str =
    "Could not find matching PublicID. User unknown.";

/// Why a download cannot go on whose path the other user does not offer any more.
pub const NO_LONGER_SHARED: &'static str = "No longer shared with you";

/// The longest file list that is taken from a user.
pub const MAX_EVERYTHING_FILE_SIZE: usize = 100_000_000;

/// A file or directory that waits for its download.
#[derive(Debug)]
pub struct DownloadQueueItem {
    pub path: String,
    pub file_size: u64,
}

/// What a `DownloadQueueItem` says.
pub struct ItemView {
    pub path: Seq<char>,
    pub file_size: u64,
}

impl View for DownloadQueueItem {
    type V = ItemView;

    open spec fn view(&self) -> ItemView {
        ItemView { path: self.path@, file_size: self.file_size }
    }
}

impl Clone for DownloadQueueItem {
    fn clone(&self) -> (r: Self)
        ensures
            r == *self,
    {
        DownloadQueueItem { path: self.path.clone(), file_size: self.file_size }
    }
}

/// What a queue says.
pub open spec fn items(s: Seq<DownloadQueueItem>) -> Seq<ItemView> {
    Seq::new(s.len(), |i: int| s[i]@)
}

pub open spec fn opt_item(s: Option<DownloadQueueItem>) -> Option<ItemView> {
    match s {
        Some(item) => Some(item@),
        None => None,
    }
}

/// What a downloader is told.
pub enum MessageSingleDownloader {
    NewConfig(Config),
    NewSharedUser(SharedUser),
    NewDownload(DownloadQueueItem),
    CancelAllDownloads,
    CancelDownload(String),
    PauseDownloads,
    ResumeDownloads,
    RemoveUser,
    RestartConnection,
}

/// What comes out of looking for a message.
pub enum DownloaderPoll {
    Message(MessageSingleDownloader),
    Empty,
    Disconnected,
}

/// What comes out of looking for a connection that the other user has opened.
#[derive(Clone, Copy, Debug, PartialEq, Eq, Structural)]
pub enum ReversePoll {
    NewConnection,
    Empty,
    Disconnected,
}

/// What a downloader has to have done, in order.
#[derive(Debug)]
pub enum DownloaderAction {
    WriteQueue,
    SendInProgress,
    Send(AppAggMessage),
}

/// What a `DownloaderAction` says.
pub enum ActionView {
    WriteQueue,
    SendInProgress,
    Send(ReportView),
}

impl View for DownloaderAction {
    type V = ActionView;

    open spec fn view(&self) -> ActionView {
        match self {
            DownloaderAction::WriteQueue => ActionView::WriteQueue,
            DownloaderAction::SendInProgress => ActionView::SendInProgress,
            DownloaderAction::Send(m) => ActionView::Send(m@),
        }
    }
}

pub open spec fn actions(s: Seq<DownloaderAction>) -> Seq<ActionView> {
    Seq::new(s.len(), |i: int| s[i]@)
}

/// The downloads from one user.
pub struct SingleDownloader {
    pub shared_user: SharedUser,
    pub config: Config,
    pub download_queue: VecDeque<DownloadQueueItem>,
    pub is_downloading_paused: bool,
    pub stop_downloading: bool,
    pub active_download_path: Option<DownloadQueueItem>,
    pub active_download_size: u64,
    pub active_downloaded_current_bytes: u64,
    pub active_download_local_path: Option<String>,
    pub active_download_total_size: String,
    pub shutdown: bool,
    pub has_reverse_connection: bool,
}

/// What a `SingleDownloader` holds.
#[verifier::ext_equal]
pub struct DownloaderView {
    pub user: UserView,
    pub config: ConfigState,
    pub queue: Seq<ItemView>,
    pub paused: bool,
    pub stop: bool,
    pub active: Option<ItemView>,
    pub size: u64,
    pub bytes: u64,
    pub local_path: Option<Seq<char>>,
    pub total_size: Seq<char>,
    pub shutdown: bool,
    pub reverse: bool,
}

impl View for SingleDownloader {
    type V = DownloaderView;

    open spec fn view(&self) -> DownloaderView {
        DownloaderView {
            user: self.shared_user@,
            config: self.config@,
            queue: items(self.download_queue@),
            paused: self.is_downloading_paused,
            stop: self.stop_downloading,
            active: opt_item(self.active_download_path),
            size: self.active_download_size,
            bytes: self.active_downloaded_current_bytes,
            local_path: opt_text(self.active_download_local_path),
            total_size: self.active_download_total_size@,
            shutdown: self.shutdown,
            reverse: self.has_reverse_connection,
        }
    }
}

/// What is left of a queue without a path.
pub open spec fn without(queue: Seq<ItemView>, path: Seq<char>) -> Seq<ItemView>
    decreases queue.len(),
{
    if queue.len() == 0 {
        queue
    } else if queue.last().path != path {
        without(queue.drop_last(), path).push(queue.last())
    } else {
        without(queue.drop_last(), path)
    }
}

pub open spec fn paths(queue: Seq<ItemView>) -> Seq<Seq<char>> {
    Seq::new(queue.len(), |i: int| queue[i].path)
}

/// The paths that wait behind the active download.
pub open spec fn waiting(d: DownloaderView) -> Seq<Seq<char>> {
    match d.active {
        Some(item) => paths(without(d.queue, item.path)),
        None => paths(d.queue),
    }
}

pub open spec fn active_path(d: DownloaderView) -> Option<Seq<char>> {
    match d.active {
        Some(item) => Some(item.path),
        None => None,
    }
}

pub open spec fn log_debug(text: Seq<char>) -> ActionView {
    ActionView::Send(ReportView::Log(LogLevel::Debug, text))
}

/// What a message to a downloader says.
pub enum OrderView {
    NewConfig(ConfigState),
    NewSharedUser(UserView),
    NewDownload(ItemView),
    CancelAllDownloads,
    CancelDownload(Seq<char>),
    PauseDownloads,
    ResumeDownloads,
    RemoveUser,
    RestartConnection,
}

impl View for MessageSingleDownloader {
    type V = OrderView;

    open spec fn view(&self) -> OrderView {
        match self {
            MessageSingleDownloader::NewConfig(c) => OrderView::NewConfig(c@),
            MessageSingleDownloader::NewSharedUser(u) => OrderView::NewSharedUser(u@),
            MessageSingleDownloader::NewDownload(i) => OrderView::NewDownload(i@),
            MessageSingleDownloader::CancelAllDownloads => OrderView::CancelAllDownloads,
            MessageSingleDownloader::CancelDownload(s) => OrderView::CancelDownload(s@),
            MessageSingleDownloader::PauseDownloads => OrderView::PauseDownloads,
            MessageSingleDownloader::ResumeDownloads => OrderView::ResumeDownloads,
            MessageSingleDownloader::RemoveUser => OrderView::RemoveUser,
            MessageSingleDownloader::RestartConnection => OrderView::RestartConnection,
        }
    }
}

/// A downloader after a message, and what it has to have done.
pub open spec fn ordered(d: DownloaderView, m: OrderView) -> (DownloaderView, Seq<ActionView>) {
    match m {
        OrderView::NewDownload(item) => (
            DownloaderView { queue: d.queue.push(item), ..d },
            seq![
                ActionView::WriteQueue,
                log_debug("Downloader new download "@ + d.user.nickname + " - "@ + item.path),
            ],
        ),
        OrderView::CancelDownload(path) => (
            DownloaderView {
                stop: true,
                queue: without(d.queue, path),
                active: if active_path(d) == Some(path) {
                    None
                } else {
                    d.active
                },
                ..d
            },
            seq![
                ActionView::WriteQueue,
                ActionView::SendInProgress,
                log_debug("Downloader cancel download "@ + d.user.nickname + " - "@ + path),
            ],
        ),
        OrderView::PauseDownloads => (
            DownloaderView { stop: true, paused: true, ..d },
            seq![log_debug("Downloader pause "@ + d.user.nickname)],
        ),
        OrderView::ResumeDownloads => (
            DownloaderView { paused: false, ..d },
            seq![log_debug("Downloader resume "@ + d.user.nickname)],
        ),
        OrderView::CancelAllDownloads => (
            DownloaderView { stop: true, queue: seq![], active: None, ..d },
            seq![
                ActionView::WriteQueue,
                ActionView::SendInProgress,
                log_debug("Downloader cancel all downloads "@ + d.user.nickname),
            ],
        ),
        OrderView::RemoveUser => (
            DownloaderView { shutdown: true, stop: true, queue: seq![], active: None, ..d },
            seq![ActionView::WriteQueue, log_debug("Downloader remove "@ + d.user.nickname)],
        ),
        OrderView::NewSharedUser(user) => (
            DownloaderView { stop: true, user, ..d },
            seq![log_debug("Downloader update user "@ + user.nickname)],
        ),
        OrderView::RestartConnection => (
            DownloaderView { stop: true, ..d },
            seq![log_debug("Restart Downloader "@ + d.user.nickname)],
        ),
        OrderView::NewConfig(config) => (
            DownloaderView { stop: true, config, ..d },
            seq![log_debug("Downloader update config "@ + d.user.nickname)],
        ),
    }
}

fn debug_action(text: String) -> (a: DownloaderAction)
    ensures
        a@ == log_debug(text@),
{
    DownloaderAction::Send(AppAggMessage::LogDebug(text))
}

fn drop_path(queue: &VecDeque<DownloadQueueItem>, path: &str) -> (r: VecDeque<DownloadQueueItem>)
    ensures
        items(r@) == without(items(queue@), path@),
{
    let ghost all = items(queue@);
    let mut r: VecDeque<DownloadQueueItem> = VecDeque::new();
    let mut i: usize = 0;
    assert(items(r@) =~= without(all.take(0), path@));
    while i < queue.len()
        invariant
            i <= queue@.len(),
            all == items(queue@),
            items(r@) == without(all.take(i as int), path@),
        decreases queue@.len() - i,
    {
        proof {
            assert(all.take(i + 1).drop_last() =~= all.take(i as int));
            assert(all.take(i + 1).last() == queue@[i as int]@);
        }
        if !str_eq(queue[i].path.as_str(), path) {
            let ghost before = r@;
            r.push_back(queue[i].clone());
            assert(items(r@) =~= items(before).push(queue@[i as int]@));
        }
        i += 1;
    }
    assert(all.take(i as int) =~= all);
    r
}

fn paths_of(queue: &VecDeque<DownloadQueueItem>) -> (r: VecDeque<String>)
    ensures
        texts(r@) == paths(items(queue@)),
{
    let mut r: VecDeque<String> = VecDeque::new();
    let mut i: usize = 0;
    while i < queue.len()
        invariant
            i <= queue@.len(),
            r@.len() == i,
            forall|k: int| 0 <= k < i ==> (#[trigger] r@[k])@ == queue@[k].path@,
        decreases queue@.len() - i,
    {
        r.push_back(queue[i].path.clone());
        i += 1;
    }
    assert(texts(r@) =~= paths(items(queue@)));
    r
}

impl SingleDownloader {
    pub fn new(
        shared_user: SharedUser,
        is_downloading_paused: bool,
        has_reverse_connection: bool,
        config: Config,
    ) -> (d: SingleDownloader)
        ensures
            d@ == (DownloaderView {
                user: shared_user@,
                config: config@,
                queue: seq![],
                paused: is_downloading_paused,
                stop: false,
                active: None,
                size: 0,
                bytes: 0,
                local_path: None,
                total_size: seq![],
                shutdown: false,
                reverse: has_reverse_connection,
            }),
    {
        let d = SingleDownloader {
            shared_user,
            config,
            download_queue: VecDeque::new(),
            is_downloading_paused,
            stop_downloading: false,
            active_download_path: None,
            active_download_size: 0,
            active_downloaded_current_bytes: 0,
            active_download_local_path: None,
            active_download_total_size: String::new(),
            shutdown: false,
            has_reverse_connection,
        };
        assert(d@.queue =~= seq![]);
        assert(d@.total_size =~= seq![]);
        d
    }

    /// Takes note of a connection that the other user has opened.
    pub fn read_reverse_receiver(&mut self, poll: ReversePoll) -> (r: Result<(), String>)
        ensures
            match poll {
                ReversePoll::NewConnection => r is Ok && final(self)@ == (DownloaderView {
                    stop: true,
                    reverse: true,
                    ..old(self)@
                }),
                ReversePoll::Empty => r is Ok && final(self)@ == old(self)@,
                ReversePoll::Disconnected => r is Err && r->Err_0@ == ERR_REC_DISCONNECTED@
                    && final(self)@ == old(self)@,
            },
    {
        match poll {
            ReversePoll::NewConnection => {
                self.stop_downloading = true;
                self.has_reverse_connection = true;
                Ok(())
            },
            ReversePoll::Empty => Ok(()),
            ReversePoll::Disconnected => Err(ERR_REC_DISCONNECTED.to_owned()),
        }
    }

    /// Follows a message. The result says whether there may be more, and what has to be done.
    pub fn read_receiver(&mut self, poll: DownloaderPoll) -> (r: Result<
        (bool, Vec<DownloaderAction>),
        String,
    >)
        ensures
            match poll {
                DownloaderPoll::Message(m) => r is Ok && r->Ok_0.0 && (
                    final(self)@,
                    actions(r->Ok_0.1@),
                ) == ordered(old(self)@, m@),
                DownloaderPoll::Empty => r is Ok && !r->Ok_0.0 && r->Ok_0.1@.len() == 0
                    && final(self)@ == old(self)@,
                DownloaderPoll::Disconnected => r is Err && r->Err_0@ == ERR_REC_DISCONNECTED@
                    && final(self)@ == old(self)@,
            },
    {
        let mut todo: Vec<DownloaderAction> = Vec::new();
        let ghost before = self@;
        match poll {
            DownloaderPoll::Empty => return Ok((false, todo)),
            DownloaderPoll::Disconnected => return Err(ERR_REC_DISCONNECTED.to_owned()),
            DownloaderPoll::Message(m) => {
                let name = self.shared_user.nickname.clone();
                let ghost said = m@;
                match m {
                    MessageSingleDownloader::NewDownload(item) => {
                        let mut text = cat3("Downloader new download ", name.as_str(), " - ");
                        text.push_str(item.path.as_str());
                        let ghost queue = self.download_queue@;
                        self.download_queue.push_back(item);
                        assert(items(self.download_queue@) =~= items(queue).push(item@));
                        todo.push(DownloaderAction::WriteQueue);
                        todo.push(debug_action(text));
                    },
                    MessageSingleDownloader::CancelDownload(path) => {
                        let mut text = cat3("Downloader cancel download ", name.as_str(), " - ");
                        text.push_str(path.as_str());
                        self.stop_downloading = true;
                        self.download_queue = drop_path(&self.download_queue, path.as_str());
                        let is_active = match &self.active_download_path {
                            Some(item) => str_eq(item.path.as_str(), path.as_str()),
                            None => false,
                        };
                        if is_active {
                            self.active_download_path = None;
                        }
                        todo.push(DownloaderAction::WriteQueue);
                        todo.push(DownloaderAction::SendInProgress);
                        todo.push(debug_action(text));
                    },
                    MessageSingleDownloader::PauseDownloads => {
                        self.stop_downloading = true;
                        self.is_downloading_paused = true;
                        todo.push(debug_action(cat2("Downloader pause ", name.as_str())));
                    },
                    MessageSingleDownloader::ResumeDownloads => {
                        self.is_downloading_paused = false;
                        todo.push(debug_action(cat2("Downloader resume ", name.as_str())));
                    },
                    MessageSingleDownloader::CancelAllDownloads => {
                        self.stop_downloading = true;
                        self.download_queue.clear();
                        self.active_download_path = None;
                        assert(self@.queue =~= seq![]);
                        todo.push(DownloaderAction::WriteQueue);
                        todo.push(DownloaderAction::SendInProgress);
                        todo.push(
                            debug_action(cat2("Downloader cancel all downloads ", name.as_str())),
                        );
                    },
                    MessageSingleDownloader::RemoveUser => {
                        self.shutdown = true;
                        self.stop_downloading = true;
                        self.download_queue.clear();
                        self.active_download_path = None;
                        assert(self@.queue =~= seq![]);
                        todo.push(DownloaderAction::WriteQueue);
                        todo.push(debug_action(cat2("Downloader remove ", name.as_str())));
                    },
                    MessageSingleDownloader::NewSharedUser(user) => {
                        self.stop_downloading = true;
                        let text = cat2("Downloader update user ", user.nickname.as_str());
                        self.shared_user = user;
                        todo.push(debug_action(text));
                    },
                    MessageSingleDownloader::RestartConnection => {
                        self.stop_downloading = true;
                        todo.push(debug_action(cat2("Restart Downloader ", name.as_str())));
                    },
                    MessageSingleDownloader::NewConfig(config) => {
                        self.stop_downloading = true;
                        self.config = config;
                        todo.push(debug_action(cat2("Downloader update config ", name.as_str())));
                    },
                }
                proof {
                    let (after, wanted) = ordered(before, said);
                    assert(actions(todo@) =~= wanted);
                    assert(self@ =~= after);
                }
            },
        }
        Ok((true, todo))
    }

    fn get_queue_without_active(&self) -> (q: VecDeque<String>)
        ensures
            texts(q@) == waiting(self@),
    {
        match &self.active_download_path {
            Some(item) => {
                let rest = drop_path(&self.download_queue, item.path.as_str());
                paths_of(&rest)
            },
            None => paths_of(&self.download_queue),
        }
    }

    fn get_active_path(&self) -> (p: Option<String>)
        ensures
            opt_text(p) == active_path(self@),
    {
        match &self.active_download_path {
            Some(item) => Some(item.path.clone()),
            None => None,
        }
    }

    /// The report that the user cannot be reached.
    pub fn app_update_offline(&self) -> (m: AppAggMessage)
        ensures
            m@ == (ReportView::Offline {
                nickname: self@.user.nickname,
                queue: paths(self@.queue),
            }),
    {
        AppAggMessage::Offline(
            OfflineMessage {
                nickname: self.shared_user.nickname.clone(),
                download_queue: paths_of(&self.download_queue),
            },
        )
    }

    /// The report of how far the active download is, with the part of it that is there already.
    pub fn app_update_in_progress(&self, percent: u64) -> (m: AppAggMessage)
        ensures
            m@ == (ReportView::InProgress {
                nickname: self@.user.nickname,
                path: active_path(self@),
                percent,
                queue: waiting(self@),
                local_path: self@.local_path,
                size: self@.total_size,
            }),
    {
        let path_local_disk = match &self.active_download_local_path {
            Some(s) => Some(s.clone()),
            None => None,
        };
        AppAggMessage::InProgress(
            InProgressMessage {
                nickname: self.shared_user.nickname.clone(),
                path: self.get_active_path(),
                percent,
                download_queue: self.get_queue_without_active(),
                path_local_disk,
                size_string: self.active_download_total_size.clone(),
            },
        )
    }

    /// The report of a download that is done.
    pub fn app_update_completed(&self, path: &str, path_local_disk: String, size: String) -> (m:
        AppAggMessage)
        ensures
            m@ == ReportView::Completed(
                CompletedView {
                    nickname: self@.user.nickname,
                    path: path@,
                    queue: waiting(self@),
                    local_path: path_local_disk@,
                    size: size@,
                },
            ),
    {
        AppAggMessage::Completed(
            CompletedMessage {
                nickname: self.shared_user.nickname.clone(),
                path: path.to_owned(),
                download_queue: self.get_queue_without_active(),
                path_local_disk,
                size_string: size,
            },
        )
    }

    /// The report of a file that cannot be downloaded.
    pub fn app_update_invalid_file(&self, path: &str, message: String) -> (m: AppAggMessage)
        ensures
            m@ == (ReportView::InvalidFile {
                nickname: self@.user.nickname,
                active_path: active_path(self@),
                invalid_path: path@,
                queue: waiting(self@),
                message: message@,
            }),
    {
        AppAggMessage::InvalidFile(
            InvalidFileMessage {
                nickname: self.shared_user.nickname.clone(),
                active_path: self.get_active_path(),
                invalid_path: path.to_owned(),
                download_queue: self.get_queue_without_active(),
                message,
            },
        )
    }

    /// Takes the first download off the queue. The queue has to be written, and then
    /// `clear_active_download` called.
    pub fn set_active_download_finished(&mut self)
        ensures
            final(self)@ == without_first(old(self)@),
    {
        let ghost before = self.download_queue@;
        let first = self.download_queue.pop_front();
        proof {
            if before.len() > 0 {
                assert(items(self.download_queue@) =~= items(before).skip(1));
            } else {
                assert(items(self.download_queue@) =~= seq![]);
            }
        }
    }

    pub fn clear_active_download(&mut self)
        ensures
            final(self)@ == (DownloaderView { active: None, ..old(self)@ }),
    {
        self.active_download_path = None;
    }
}

/// A queue as it is kept on disk: a line for every download, with its size and its path.
pub open spec fn queue_text(queue: Seq<ItemView>) -> Seq<char>
    decreases queue.len(),
{
    if queue.len() == 0 {
        seq![]
    } else {
        queue_text(queue.drop_last()) + queue_line(queue.last()) + "\n"@
    }
}

pub open spec fn queue_line(item: ItemView) -> Seq<char> {
    decimal(item.file_size as nat) + ":"@ + item.path
}

/// How the queue is put on disk: its file is removed where nothing waits.
#[derive(Debug)]
pub enum QueueWrite {
    Remove,
    Write(String),
}

/// The line that a download has in the queue file, with its line break.
pub fn queue_file_line(file_size: u64, path: &str) -> (s: String)
    ensures
        s@ == queue_line(ItemView { path: path@, file_size }) + "\n"@,
{
    let mut s = String::new();
    push_decimal(&mut s, file_size);
    s.push_str(":");
    s.push_str(path);
    s.push_str("\n");
    assert(s@ =~= queue_line(ItemView { path: path@, file_size }) + "\n"@);
    s
}

/// What one line of the queue file says.
pub enum LineView {
    Blank,
    Item(ItemView),
    NoSeparator(Seq<char>),
    NoSize(Seq<char>),
}

pub open spec fn line_meaning(line: Seq<char>) -> LineView {
    let t = trimmed(line);
    if t.len() == 0 {
        LineView::Blank
    } else {
        match split_at_first(t, ':') {
            None => LineView::NoSeparator(t),
            Some((size, path)) => match u64_value(size) {
                Some(file_size) => LineView::Item(ItemView { path, file_size }),
                None => LineView::NoSize(t),
            },
        }
    }
}

/// The downloads that lines of the queue file say, from line `i` on, up to the first line that
/// says none, and the error of that line.
pub open spec fn queue_of(lines: Seq<Seq<char>>, nickname: Seq<char>, i: int) -> (
    Seq<ItemView>,
    Option<Seq<char>>,
)
    decreases lines.len() - i,
{
    if i >= lines.len() {
        (seq![], None)
    } else {
        match line_meaning(lines[i]) {
            LineView::Blank => queue_of(lines, nickname, i + 1),
            LineView::Item(item) => {
                let (rest, error) = queue_of(lines, nickname, i + 1);
                (seq![item] + rest, error)
            },
            LineView::NoSeparator(line) => (
                seq![],
                Some(
                    "Failed to parse queue file. Invalid line. '"@ + nickname + "', '"@ + line
                        + "'"@,
                ),
            ),
            LineView::NoSize(line) => (
                seq![],
                Some(
                    "Failed to parse queue file. Invalid file size in line. '"@ + nickname
                        + "', '"@ + line + "'"@,
                ),
            ),
        }
    }
}

impl SingleDownloader {
    /// Reads the queue from what its file holds, if there is one.
    pub fn initialize_download_queue(&mut self, contents: Option<&str>) -> (r: Result<(), String>)
        ensures
            match contents {
                None => r is Ok && final(self)@ == (DownloaderView {
                    queue: seq![],
                    ..old(self)@
                }),
                Some(text) => {
                    let (queue, error) = queue_of(pieces(text@), old(self)@.user.nickname, 0);
                    &&& final(self)@ == (DownloaderView { queue, ..old(self)@ })
                    &&& match error {
                        Some(e) => r is Err && r->Err_0@ == e,
                        None => r is Ok,
                    }
                },
            },
    {
        self.download_queue.clear();
        assert(self@.queue =~= seq![]);
        let text = match contents {
            Some(text) => text,
            None => return Ok(()),
        };
        let lines = split_lines(text);
        let ghost all = texts(lines@);
        let ghost nickname = self.shared_user.nickname@;
        let ghost start = self@;
        let mut i: usize = 0;
        proof {
            let (rest, error) = queue_of(all, nickname, 0);
            assert(self@.queue + rest =~= rest);
        }
        while i < lines.len()
            invariant
                i <= lines@.len(),
                all == texts(lines@),
                all == pieces(text@),
                nickname == old(self)@.user.nickname,
                self.shared_user.nickname@ == nickname,
                self@ == (DownloaderView { queue: self@.queue, ..old(self)@ }),
                queue_of(all, nickname, 0) == (
                    self@.queue + queue_of(all, nickname, i as int).0,
                    queue_of(all, nickname, i as int).1,
                ),
                contents is Some,
                text == contents->0,
            decreases lines@.len() - i,
        {
            let line = trim(lines[i].as_str());
            let ghost queue = self@.queue;
            proof {
                assert(all[i as int] == lines@[i as int]@);
            }
            if !is_empty_text(line.as_str()) {
                match split_first(line.as_str(), ':') {
                    None => {
                        assert(self@.queue + Seq::<ItemView>::empty() =~= self@.queue);
                        return Err(
                            cat5(
                                "Failed to parse queue file. Invalid line. '",
                                self.shared_user.nickname.as_str(),
                                "', '",
                                line.as_str(),
                                "'",
                            ),
                        );
                    },
                    Some((size, path)) => match parse_u64(size.as_str()) {
                        None => {
                            assert(self@.queue + Seq::<ItemView>::empty() =~= self@.queue);
                            return Err(
                                cat5(
                                    "Failed to parse queue file. Invalid file size in line. '",
                                    self.shared_user.nickname.as_str(),
                                    "', '",
                                    line.as_str(),
                                    "'",
                                ),
                            );
                        },
                        Some(file_size) => {
                            let item = DownloadQueueItem { path, file_size };
                            let ghost before = self.download_queue@;
                            self.download_queue.push_back(item);
                            proof {
                                assert(items(self.download_queue@) =~= items(before).push(item@));
                                let rest = queue_of(all, nickname, i + 1).0;
                                assert(queue + (seq![item@] + rest) =~= self@.queue + rest);
                            }
                        },
                    },
                }
            }
            i += 1;
        }
        assert(self@.queue + Seq::<ItemView>::empty() =~= self@.queue);
        Ok(())
    }

    /// How the queue is put on disk.
    pub fn write_queue(&self) -> (w: QueueWrite)
        ensures
            match w {
                QueueWrite::Remove => self@.queue.len() == 0,
                QueueWrite::Write(text) => self@.queue.len() > 0 && text@ == queue_text(
                    self@.queue,
                ),
            },
    {
        if self.download_queue.len() == 0 {
            return QueueWrite::Remove;
        }
        QueueWrite::Write(self.write_queue_file())
    }

    /// What the queue file holds.
    pub fn write_queue_file(&self) -> (s: String)
        ensures
            s@ == queue_text(self@.queue),
    {
        let ghost all = items(self.download_queue@);
        let mut s = String::new();
        let mut i: usize = 0;
        assert(s@ =~= queue_text(all.take(0)));
        while i < self.download_queue.len()
            invariant
                i <= self.download_queue@.len(),
                all == items(self.download_queue@),
                s@ == queue_text(all.take(i as int)),
            decreases self.download_queue@.len() - i,
        {
            let item = &self.download_queue[i];
            let line = queue_file_line(item.file_size, item.path.as_str());
            let ghost before = s@;
            s.push_str(line.as_str());
            proof {
                assert(all.take(i + 1).drop_last() =~= all.take(i as int));
                assert(all.take(i + 1).last() == item@);
                assert(s@ =~= before + queue_line(item@) + "\n"@);
            }
            i += 1;
        }
        assert(all.take(i as int) =~= all);
        s
    }
}

/// Whether a path survives being kept in the queue file: it has no line break, and no white space
/// at its end.
pub open spec fn is_keepable(path: Seq<char>) -> bool {
    !path.contains('\n') && (path.len() > 0 ==> !is_white_space(path.last()))
}

pub open spec fn lines_of(queue: Seq<ItemView>) -> Seq<Seq<char>> {
    Seq::new(queue.len(), |i: int| queue_line(queue[i])).push(seq![])
}

proof fn lemma_queue_line(item: ItemView)
    requires
        is_keepable(item.path),
    ensures
        line_meaning(queue_line(item)) == LineView::Item(item),
        !queue_line(item).contains('\n'),
{
    reveal_strlit(":");
    let size = decimal(item.file_size as nat);
    let line = queue_line(item);
    let n = size.len() as int;
    law_digits_value_of_decimal(item.file_size as nat);
    law_u64_value_of_decimal(item.file_size);
    assert(forall|j: int| 0 <= j < n ==> line[j] == size[j] && is_digit(#[trigger] size[j]));
    assert(line[n] == ':');
    assert(is_digit(size[0]));
    assert(trimmed_start(line) == line);
    if item.path.len() > 0 {
        assert(line.last() == item.path.last());
    } else {
        assert(line.last() == ':');
    }
    assert(trimmed(line) == line);
    assert forall|j: int| 0 <= j < n implies line[j] != ':' by {
        assert(is_digit(size[j]));
    }
    lemma_place_of_is(line, ':', 0, n);
    assert(line.take(n) =~= size);
    assert(line.skip(n + 1) =~= item.path);
    if line.contains('\n') {
        let j = choose|j: int| 0 <= j < line.len() && line[j] == '\n';
        if j < n {
            assert(is_digit(size[j]));
        } else if j > n {
            assert(item.path[j - n - 1] == '\n');
        }
    }
}

proof fn lemma_pieces_of_queue(queue: Seq<ItemView>)
    requires
        forall|i: int| 0 <= i < queue.len() ==> is_keepable((#[trigger] queue[i]).path),
    ensures
        pieces(queue_text(queue)) == lines_of(queue),
    decreases queue.len(),
{
    if queue.len() == 0 {
        assert(lines_of(queue) =~= seq![Seq::<char>::empty()]);
        assert(pieces(Seq::<char>::empty()) =~= seq![Seq::<char>::empty()]);
    } else {
        let front = queue.drop_last();
        let a = queue_text(front);
        let line = queue_line(queue.last());
        lemma_pieces_of_queue(front);
        assert(queue[queue.len() - 1] == queue.last());
        lemma_queue_line(queue.last());
        lemma_pieces_append(a, line + "\n"@);
        lemma_pieces_of_line(line);
        assert(a + (line + "\n"@) =~= a + line + "\n"@);
        assert(Seq::<char>::empty() + (line + "\n"@) =~= line + "\n"@);
        assert(lines_of(front).drop_last() + seq![line, Seq::<char>::empty()] =~= lines_of(queue));
    }
}

proof fn lemma_queue_of_lines(queue: Seq<ItemView>, nickname: Seq<char>, i: int)
    requires
        0 <= i <= queue.len(),
        forall|k: int| 0 <= k < queue.len() ==> is_keepable((#[trigger] queue[k]).path),
    ensures
        queue_of(lines_of(queue), nickname, i) == (queue.skip(i), None::<Seq<char>>),
    decreases queue.len() - i,
{
    let lines = lines_of(queue);
    if i < queue.len() {
        lemma_queue_of_lines(queue, nickname, i + 1);
        lemma_queue_line(queue[i]);
        assert(lines[i] == queue_line(queue[i]));
        assert(seq![queue[i]] + queue.skip(i + 1) =~= queue.skip(i));
    } else {
        assert(lines[i] =~= seq![]);
        assert(line_meaning(lines[i]) == LineView::Blank);
        assert(queue.skip(i) =~= seq![]);
        assert(queue_of(lines, nickname, i + 1) == (Seq::<ItemView>::empty(), None::<Seq<char>>));
    }
}

/// A queue is read back from its file as it was written.
pub proof fn law_queue_is_read_back(queue: Seq<ItemView>, nickname: Seq<char>)
    requires
        forall|i: int| 0 <= i < queue.len() ==> is_keepable((#[trigger] queue[i]).path),
    ensures
        queue_of(pieces(queue_text(queue)), nickname, 0) == (queue, None::<Seq<char>>),
{
    lemma_pieces_of_queue(queue);
    lemma_queue_of_lines(queue, nickname, 0);
    assert(queue.skip(0) =~= queue);
}

/// What is reported of a file.
#[derive(Debug)]
pub enum FileReport {
    Nothing,
    Completed(String),
    Invalid(String, String),
    Log(String),
}

/// What a `FileReport` says.
pub enum FileReportView {
    Nothing,
    Completed(Seq<char>),
    Invalid(Seq<char>, Seq<char>),
    Log(Seq<char>),
}

impl View for FileReport {
    type V = FileReportView;

    open spec fn view(&self) -> FileReportView {
        match self {
            FileReport::Nothing => FileReportView::Nothing,
            FileReport::Completed(p) => FileReportView::Completed(p@),
            FileReport::Invalid(p, m) => FileReportView::Invalid(p@, m@),
            FileReport::Log(t) => FileReportView::Log(t@),
        }
    }
}

/// How a file is gone on with.
#[derive(Debug)]
pub enum FileOutcome {
    Return,
    Fail(String),
    Request(u16, Vec<u8>),
    ReadNext,
}

/// What a `FileOutcome` says.
pub enum FileOutcomeView {
    Return,
    Fail(Seq<char>),
    Request(u16, Seq<u8>),
    ReadNext,
}

impl View for FileOutcome {
    type V = FileOutcomeView;

    open spec fn view(&self) -> FileOutcomeView {
        match self {
            FileOutcome::Return => FileOutcomeView::Return,
            FileOutcome::Fail(t) => FileOutcomeView::Fail(t@),
            FileOutcome::Request(message, b) => FileOutcomeView::Request(*message, b@),
            FileOutcome::ReadNext => FileOutcomeView::ReadNext,
        }
    }
}

/// What has to be done about a file, in this order: create it empty, take it off the queue, report,
/// and go on.
#[derive(Debug)]
pub struct FilePlan {
    pub create_file: bool,
    pub finish: bool,
    pub report: FileReport,
    pub outcome: FileOutcome,
}

/// What a `FilePlan` says.
pub struct PlanView {
    pub create_file: bool,
    pub finish: bool,
    pub report: FileReportView,
    pub outcome: FileOutcomeView,
}

impl View for FilePlan {
    type V = PlanView;

    open spec fn view(&self) -> PlanView {
        PlanView {
            create_file: self.create_file,
            finish: self.finish,
            report: self.report@,
            outcome: self.outcome@,
        }
    }
}

pub open spec fn size_changed_text() -> Seq<char> {
    "Expected file size has changed. Suggestion: Delete file and restart download."@
}

pub open spec fn file_too_large_text() -> Seq<char> {
    "File is larger than expected. Suggestion: Delete file and restart download."@
}

pub open spec fn directory_too_large_text() -> Seq<char> {
    "Directory is larger than expected. Suggestion: Delete directory and restart download."@
}

pub open spec fn subfile_too_large_text() -> Seq<char> {
    "Directory subfile is larger than expected. Suggestion: Delete file and restart download."@
}

/// The request for a file from the byte `from` on.
pub open spec fn selection(from: u64, path: Seq<char>) -> Seq<u8> {
    be_bytes(from as nat, 8) + encode_utf8(path)
}

/// The request for a file from the byte `from` on.
pub fn selection_payload(from: u64, path: &str) -> (b: Vec<u8>)
    ensures
        b@ == selection(from, path@),
{
    let mut b = to_be_bytes(from as u128, 8);
    let bytes = path.as_bytes();
    let mut tail = vstd::slice::slice_to_vec(bytes);
    b.append(&mut tail);
    assert(b@ =~= selection(from, path@));
    b
}

/// The message that asks for a file from the byte `from` on.
pub fn selection_message(from: u64, path: &str) -> (m: (u16, Vec<u8>))
    ensures
        m.0 == MSG_FILE_SELECTION_CONTINUE,
        m.1@ == selection(from, path@),
{
    (MSG_FILE_SELECTION_CONTINUE, selection_payload(from, path))
}

/// What has to be done about a file of which `len` bytes are there, where `queued` is the download
/// that it belongs to and `bytes` the size of all that is there of that download.
pub open spec fn file_plan(
    queued: ItemView,
    bytes: nat,
    nickname: Seq<char>,
    path: Seq<char>,
    file_size: u64,
    exists_: bool,
    len: u64,
) -> PlanView {
    let request = PlanView {
        create_file: false,
        finish: false,
        report: FileReportView::Nothing,
        outcome: FileOutcomeView::Request(MSG_FILE_SELECTION_CONTINUE, selection(len, path)),
    };
    if path == queued.path {
        if queued.file_size != file_size {
            PlanView {
                create_file: false,
                finish: true,
                report: FileReportView::Invalid(queued.path, size_changed_text()),
                outcome: FileOutcomeView::Return,
            }
        } else if len < queued.file_size {
            request
        } else if len == queued.file_size {
            PlanView {
                create_file: !exists_ && file_size == 0,
                finish: true,
                report: FileReportView::Completed(queued.path),
                outcome: FileOutcomeView::Return,
            }
        } else {
            PlanView {
                create_file: false,
                finish: true,
                report: FileReportView::Invalid(queued.path, file_too_large_text()),
                outcome: FileOutcomeView::Return,
            }
        }
    } else if bytes > queued.file_size {
        PlanView {
            create_file: false,
            finish: true,
            report: FileReportView::Invalid(queued.path, directory_too_large_text()),
            outcome: FileOutcomeView::Fail(directory_too_large_text()),
        }
    } else if len < file_size {
        request
    } else if len == file_size {
        PlanView {
            create_file: !exists_ && file_size == 0,
            finish: false,
            report: FileReportView::Log(
                "Subfile already downloaded '"@ + nickname + "' - "@ + path,
            ),
            outcome: FileOutcomeView::Return,
        }
    } else {
        PlanView {
            create_file: false,
            finish: false,
            report: FileReportView::Invalid(path, subfile_too_large_text()),
            outcome: FileOutcomeView::Return,
        }
    }
}

/// Whether the download of a file has ended, as this side and the other see it.
pub open spec fn chunk_plan(
    queued: ItemView,
    path: Seq<char>,
    file_size: u64,
    message: u16,
    current: u64,
) -> PlanView {
    let is_queued = path == queued.path;
    let remote = message == MSG_FILE_FINISHED;
    let local = current == if is_queued {
        queued.file_size
    } else {
        file_size
    };
    if remote && local {
        PlanView {
            create_file: false,
            finish: is_queued,
            report: if is_queued {
                FileReportView::Completed(queued.path)
            } else {
                FileReportView::Nothing
            },
            outcome: FileOutcomeView::Return,
        }
    } else if remote || local {
        let text = disagreement_text(local, remote);
        PlanView {
            create_file: false,
            finish: is_queued,
            report: FileReportView::Invalid(path, text),
            outcome: FileOutcomeView::Fail(text),
        }
    } else {
        PlanView {
            create_file: false,
            finish: false,
            report: FileReportView::Nothing,
            outcome: FileOutcomeView::ReadNext,
        }
    }
}

pub open spec fn disagreement_text(local: bool, remote: bool) -> Seq<char> {
    "Remote and local disagreement on finished download. Is Local Finished: "@ + bool_text(local)
        + ". Is Remote Finished: "@ + bool_text(remote)
        + ". Suggestion: Delete file and download again."@
}

fn bool_str(b: bool) -> (s: &'static str)
    ensures
        s@ == bool_text(b),
{
    if b {
        "true"
    } else {
        "false"
    }
}

/// Decides whether the download of a file has ended.
pub fn plan_after_chunk(
    queue_download: &DownloadQueueItem,
    path: &str,
    file_size: u64,
    remote_message: u16,
    current_downloaded_bytes: u64,
) -> (p: FilePlan)
    ensures
        p@ == chunk_plan(
            queue_download@,
            path@,
            file_size,
            remote_message,
            current_downloaded_bytes,
        ),
{
    let is_queued = str_eq(path, queue_download.path.as_str());
    let remote = remote_message == MSG_FILE_FINISHED;
    let local = if is_queued {
        current_downloaded_bytes == queue_download.file_size
    } else {
        current_downloaded_bytes == file_size
    };
    if remote && local {
        FilePlan {
            create_file: false,
            finish: is_queued,
            report: if is_queued {
                FileReport::Completed(queue_download.path.clone())
            } else {
                FileReport::Nothing
            },
            outcome: FileOutcome::Return,
        }
    } else if remote || local {
        let text = cat5(
            "Remote and local disagreement on finished download. Is Local Finished: ",
            bool_str(local),
            ". Is Remote Finished: ",
            bool_str(remote),
            ". Suggestion: Delete file and download again.",
        );
        FilePlan {
            create_file: false,
            finish: is_queued,
            report: FileReport::Invalid(path.to_owned(), text.clone()),
            outcome: FileOutcome::Fail(text),
        }
    } else {
        FilePlan {
            create_file: false,
            finish: false,
            report: FileReport::Nothing,
            outcome: FileOutcome::ReadNext,
        }
    }
}

impl SingleDownloader {
    /// Decides what has to be done about a file of which `file_length` bytes are there.
    pub fn plan_file(
        &mut self,
        path: &str,
        file_size: u64,
        does_file_exist: bool,
        file_length: u64,
    ) -> (p: FilePlan)
        requires
            old(self)@.active is Some,
            old(self)@.bytes + file_length <= u64::MAX,
        ensures
            final(self)@ == (DownloaderView {
                bytes: (old(self)@.bytes + file_length) as u64,
                ..old(self)@
            }),
            p@ == file_plan(
                old(self)@.active->0,
                (old(self)@.bytes + file_length) as nat,
                old(self)@.user.nickname,
                path@,
                file_size,
                does_file_exist,
                file_length,
            ),
    {
        self.active_downloaded_current_bytes = self.active_downloaded_current_bytes + file_length;
        let queued = match &self.active_download_path {
            Some(item) => item.clone(),
            None => vstd::pervasive::unreached(),
        };
        let create_file = !does_file_exist && file_size == 0;
        if str_eq(path, queued.path.as_str()) {
            if queued.file_size != file_size {
                return FilePlan {
                    create_file: false,
                    finish: true,
                    report: FileReport::Invalid(
                        queued.path,
                        "Expected file size has changed. Suggestion: Delete file and restart download.".to_owned(),
                    ),
                    outcome: FileOutcome::Return,
                };
            }
            if file_length == queued.file_size {
                return FilePlan {
                    create_file,
                    finish: true,
                    report: FileReport::Completed(queued.path),
                    outcome: FileOutcome::Return,
                };
            }
            if file_length > queued.file_size {
                return FilePlan {
                    create_file: false,
                    finish: true,
                    report: FileReport::Invalid(
                        queued.path,
                        "File is larger than expected. Suggestion: Delete file and restart download.".to_owned(),
                    ),
                    outcome: FileOutcome::Return,
                };
            }
        } else {
            if self.active_downloaded_current_bytes > queued.file_size {
                let text =
                    "Directory is larger than expected. Suggestion: Delete directory and restart download.".to_owned();
                return FilePlan {
                    create_file: false,
                    finish: true,
                    report: FileReport::Invalid(queued.path, text.clone()),
                    outcome: FileOutcome::Fail(text),
                };
            }
            if file_length == file_size {
                let mut text = cat3(
                    "Subfile already downloaded '",
                    self.shared_user.nickname.as_str(),
                    "' - ",
                );
                text.push_str(path);
                return FilePlan {
                    create_file,
                    finish: false,
                    report: FileReport::Log(text),
                    outcome: FileOutcome::Return,
                };
            }
            if file_length > file_size {
                return FilePlan {
                    create_file: false,
                    finish: false,
                    report: FileReport::Invalid(
                        path.to_owned(),
                        "Directory subfile is larger than expected. Suggestion: Delete file and restart download.".to_owned(),
                    ),
                    outcome: FileOutcome::Return,
                };
            }
        }
        let (message, payload) = selection_message(file_length, path);
        FilePlan {
            create_file: false,
            finish: false,
            report: FileReport::Nothing,
            outcome: FileOutcome::Request(message, payload),
        }
    }

    /// Counts a piece of a file that has come in; the result is how much of the file is there.
    pub fn receive_chunk(&mut self, current_downloaded_bytes: u64, payload_len: u64) -> (n: u64)
        requires
            old(self)@.bytes + payload_len <= u64::MAX,
            current_downloaded_bytes + payload_len <= u64::MAX,
        ensures
            n == current_downloaded_bytes + payload_len,
            final(self)@ == (DownloaderView {
                bytes: (old(self)@.bytes + payload_len) as u64,
                ..old(self)@
            }),
    {
        self.active_downloaded_current_bytes = self.active_downloaded_current_bytes + payload_len;
        current_downloaded_bytes + payload_len
    }

    /// Checks what the other side answers to a request, the first time or later.
    pub fn check_response(&self, is_first: bool, remote_message: u16) -> (r: Result<(), String>)
        ensures
            r is Ok <==> is_file_part(remote_message),
            r matches Err(e) ==> e@ == self@.user.nickname + (if is_first {
                " Initial file download unexpected msg "@
            } else {
                " Mid file download unexpected msg "@
            }) + decimal(remote_message as nat),
    {
        if remote_message == MSG_FILE_CHUNK || remote_message == MSG_FILE_FINISHED {
            return Ok(());
        }
        let number = decimal_string(remote_message as u64);
        Err(
            cat3(
                self.shared_user.nickname.as_str(),
                if is_first {
                    " Initial file download unexpected msg "
                } else {
                    " Mid file download unexpected msg "
                },
                number.as_str(),
            ),
        )
    }
}

/// Whether a message carries a part of a file.
pub open spec fn is_file_part(message: u16) -> bool {
    message == MSG_FILE_CHUNK || message == MSG_FILE_FINISHED
}

/// A file is finished for both sides or given up: this side takes it for done only where it has
/// exactly the size that it is to have, and the other side has said that it is the end.
pub proof fn law_finished_file_is_whole(
    queued: ItemView,
    path: Seq<char>,
    file_size: u64,
    message: u16,
    current: u64,
)
    ensures
        chunk_plan(queued, path, file_size, message, current).outcome is Return <==> message
            == MSG_FILE_FINISHED && current == (if path == queued.path {
            queued.file_size
        } else {
            file_size
        }),
        chunk_plan(queued, path, file_size, message, current).report is Completed ==> path
            == queued.path && current == queued.file_size,
{
}

/// How much pieces of a file are together.
pub open spec fn total(reads: Seq<u64>) -> nat
    decreases reads.len(),
{
    if reads.len() == 0 {
        0
    } else {
        total(reads.drop_last()) + reads.last() as nat
    }
}

proof fn lemma_total_take(reads: Seq<u64>, i: int)
    requires
        0 <= i <= reads.len(),
        forall|k: int| 0 <= k < reads.len() ==> #[trigger] reads[k] > 0,
    ensures
        total(reads.take(i)) <= total(reads),
        i < reads.len() ==> total(reads.take(i)) < total(reads),
    decreases reads.len(),
{
    if i < reads.len() {
        lemma_total_take(reads.drop_last(), i);
        assert(reads.drop_last().take(i) =~= reads.take(i));
    } else {
        assert(reads.take(i) =~= reads);
    }
}

/// The two sides do not disagree on a file that has the size that was listed, in whatever pieces
/// the other side reads it: this side reads on after every piece but the last one, and after that
/// one takes the file for done.
pub proof fn law_sides_agree(
    queued: ItemView,
    path: Seq<char>,
    file_size: u64,
    from: u64,
    reads: Seq<u64>,
)
    requires
        path == queued.path ==> queued.file_size == file_size,
        from + total(reads) == file_size,
        forall|i: int| 0 <= i < reads.len() ==> #[trigger] reads[i] > 0,
    ensures
        forall|i: int|
            0 <= i < reads.len() ==> ({
                let current = (from + total(reads.take(i + 1))) as u64;
                chunk_plan(
                    queued,
                    path,
                    file_size,
                    chunk_message(current, #[trigger] reads[i], file_size),
                    current,
                ).outcome
            }) == if i == reads.len() - 1 {
                FileOutcomeView::Return
            } else {
                FileOutcomeView::ReadNext
            },
{
    assert forall|i: int| 0 <= i < reads.len() implies ({
        let current = (from + total(reads.take(i + 1))) as u64;
        chunk_plan(
            queued,
            path,
            file_size,
            chunk_message(current, #[trigger] reads[i], file_size),
            current,
        ).outcome
    }) == if i == reads.len() - 1 {
        FileOutcomeView::Return
    } else {
        FileOutcomeView::ReadNext
    } by {
        lemma_total_take(reads, i + 1);
        if i == reads.len() - 1 {
            assert(reads.take(i + 1) =~= reads);
        }
    }
}

/// What this side asks for is what the other side sends: a request names the file and the place
/// from which it is to be sent, whatever characters the path is made of.
pub proof fn law_request_is_understood(
    nickname: Seq<char>,
    from: u64,
    path: Seq<char>,
    everything_file: FileView,
)
    ensures
        match request(
            nickname,
            MSG_FILE_SELECTION_CONTINUE,
            selection(from, path),
            everything_file,
        ) {
            Ok(RequestView::SendFile { path: p, seek_point, file_size, .. }) => p == path
                && seek_point == from && file_at(path, everything_file) is Some && file_at(
                path,
                everything_file,
            )->0.file_size == file_size,
            Ok(RequestView::Directory(..)) => file_at(path, everything_file) is Some && file_at(
                path,
                everything_file,
            )->0.is_directory,
            Ok(RequestView::InvalidFile(..)) => file_at(path, everything_file) is None,
            _ => false,
        },
{
    let payload = selection(from, path);
    lemma_pow256();
    law_be_value_of_be_bytes(from as nat, 8);
    lemma_be_bytes_len(from as nat, 8);
    encode_utf8_valid_utf8(path);
    encode_utf8_decode_utf8(path);
    assert(payload.take(8) =~= be_bytes(from as nat, 8));
    assert(payload.skip(8) =~= encode_utf8(path));
}

/// Whoever asks for a file that is not offered, or for a directory, is told so by a message of its
/// own without content, which is none that a download goes on with. This is only logged: no upload
/// begins. What is offered and no directory is not refused.
pub proof fn law_refused_request_is_answered(
    nickname: Seq<char>,
    from: u64,
    path: Seq<char>,
    everything_file: FileView,
)
    ensures
        ({
            let asked = request(
                nickname,
                MSG_FILE_SELECTION_CONTINUE,
                selection(from, path),
                everything_file,
            );
            &&& asked is Ok
            &&& match file_at(path, everything_file) {
                None => {
                    &&& refusal_of(asked->Ok_0) == Some((MSG_FILE_INVALID_FILE, Seq::<u8>::empty()))
                    &&& asked->Ok_0 matches RequestView::InvalidFile(a, b) && a is Log && b is Log
                },
                Some(file) => if file.is_directory {
                    &&& refusal_of(asked->Ok_0) == Some(
                        (MSG_CANNOT_SELECT_DIRECTORY, Seq::<u8>::empty()),
                    )
                    &&& asked->Ok_0 matches RequestView::Directory(a, b) && a is Log && b is Log
                } else {
                    refusal_of(asked->Ok_0) is None && asked->Ok_0 is SendFile
                },
            }
            &&& refusal_of(asked->Ok_0) matches Some(m) ==> m.0 != MSG_FILE_CHUNK && m.0
                != MSG_FILE_FINISHED
        }),
{
    law_request_is_understood(nickname, from, path, everything_file);
    let payload = selection(from, path);
    lemma_be_bytes_len(from as nat, 8);
    encode_utf8_decode_utf8(path);
    assert(payload.skip(8) =~= encode_utf8(path));
}

/// A file is asked for only from where it ends, and only where it is shorter than it is to be.
pub proof fn law_request_is_for_the_rest(
    queued: ItemView,
    bytes: nat,
    nickname: Seq<char>,
    path: Seq<char>,
    file_size: u64,
    exists_: bool,
    len: u64,
)
    ensures
        file_plan(queued, bytes, nickname, path, file_size, exists_, len).outcome is Request
            ==> len < file_size && file_plan(
            queued,
            bytes,
            nickname,
            path,
            file_size,
            exists_,
            len,
        ).outcome == FileOutcomeView::Request(MSG_FILE_SELECTION_CONTINUE, selection(len, path)),
        file_plan(queued, bytes, nickname, path, file_size, exists_, len).create_file ==> len
            == 0 && file_size == 0 && !exists_,
{
}

/// What a downloader does next.
#[derive(Clone, Copy, Debug, PartialEq, Eq, Structural)]
pub enum RunStep {
    Shutdown,
    SleepMillis(u64),
    UseReverseConnection,
    Connect,
}

/// What a downloader does next, and the downloader after it.
pub open spec fn next_step(d: DownloaderView) -> (DownloaderView, RunStep) {
    let e = DownloaderView { stop: false, ..d };
    if d.shutdown {
        (d, RunStep::Shutdown)
    } else if d.paused {
        (e, RunStep::SleepMillis(1000))
    } else if d.queue.len() == 0 && !d.reverse {
        (e, RunStep::SleepMillis(500))
    } else if d.reverse {
        (DownloaderView { reverse: false, ..e }, RunStep::UseReverseConnection)
    } else {
        (e, RunStep::Connect)
    }
}

/// Orders take effect: a downloader whose user was removed ends; one that was paused connects to
/// nobody; where all downloads were cancelled, none is left, and that is written down.
pub proof fn law_orders_take_effect(d: DownloaderView)
    ensures
        next_step(ordered(d, OrderView::RemoveUser).0).1 == RunStep::Shutdown,
        ordered(d, OrderView::RemoveUser).0.queue.len() == 0,
        ordered(d, OrderView::RemoveUser).1.contains(ActionView::WriteQueue),
        next_step(ordered(d, OrderView::PauseDownloads).0).1 == if d.shutdown {
            RunStep::Shutdown
        } else {
            RunStep::SleepMillis(1000)
        },
        ordered(d, OrderView::PauseDownloads).0.queue == d.queue,
        ordered(ordered(d, OrderView::PauseDownloads).0, OrderView::ResumeDownloads).0 == (
        DownloaderView { paused: false, stop: true, ..d }),
        ordered(d, OrderView::CancelAllDownloads).0.queue.len() == 0,
        ordered(d, OrderView::CancelAllDownloads).0.active is None,
        ordered(d, OrderView::CancelAllDownloads).1.contains(ActionView::WriteQueue),
{
    assert(ordered(d, OrderView::RemoveUser).1[0] == ActionView::WriteQueue);
    assert(ordered(d, OrderView::CancelAllDownloads).1[0] == ActionView::WriteQueue);
}

proof fn lemma_without(queue: Seq<ItemView>, path: Seq<char>)
    ensures
        forall|i: int|
            0 <= i < without(queue, path).len() ==> (#[trigger] without(queue, path)[i]).path
                != path && queue.contains(without(queue, path)[i]),
        forall|i: int|
            0 <= i < queue.len() && (#[trigger] queue[i]).path != path ==> without(
                queue,
                path,
            ).contains(queue[i]),
    decreases queue.len(),
{
    if queue.len() > 0 {
        let front = queue.drop_last();
        let before = without(front, path);
        let all = without(queue, path);
        lemma_without(front, path);
        assert forall|i: int| 0 <= i < all.len() implies (#[trigger] all[i]).path != path
            && queue.contains(all[i]) by {
            if i < before.len() {
                assert(all[i] == before[i]);
                let k = choose|k: int| 0 <= k < front.len() && front[k] == before[i];
                assert(queue[k] == before[i]);
            } else {
                assert(queue[queue.len() - 1] == all[i]);
            }
        }
        assert forall|i: int| 0 <= i < queue.len() && (#[trigger] queue[i]).path
            != path implies all.contains(queue[i]) by {
            if i < front.len() {
                assert(front[i] == queue[i]);
                let k = choose|k: int| 0 <= k < before.len() && before[k] == front[i];
                assert(all[k] == queue[i]);
            } else {
                assert(all[all.len() - 1] == queue[i]);
            }
        }
    }
}

/// A download that was cancelled is gone from the queue and is not active, and all others are
/// still there.
pub proof fn law_cancelled_download_is_gone(d: DownloaderView, path: Seq<char>)
    ensures
        active_path(ordered(d, OrderView::CancelDownload(path)).0) != Some(path),
        forall|i: int|
            0 <= i < ordered(d, OrderView::CancelDownload(path)).0.queue.len() ==> (
            #[trigger] ordered(d, OrderView::CancelDownload(path)).0.queue[i]).path != path,
        forall|i: int|
            0 <= i < d.queue.len() && (#[trigger] d.queue[i]).path != path ==> ordered(
                d,
                OrderView::CancelDownload(path),
            ).0.queue.contains(d.queue[i]),
{
    lemma_without(d.queue, path);
}

/// How long to wait before the first new attempt to connect, in seconds.
pub const RETRY_SLEEP: u64 = 5;

/// How long to wait before the next attempt to connect.
pub open spec fn next_retry(sleep_secs: u64, max: u64) -> u64 {
    if sleep_secs + 5 > max {
        max
    } else {
        (sleep_secs + 5) as u64
    }
}

/// How long to wait before the next attempt to connect.
pub fn next_retry_sleep(sleep_secs: u64, max_retry_sleep: u64) -> (n: u64)
    requires
        sleep_secs <= u64::MAX - 5,
    ensures
        n == next_retry(sleep_secs, max_retry_sleep),
        n <= max_retry_sleep,
{
    if sleep_secs + 5 > max_retry_sleep {
        max_retry_sleep
    } else {
        sleep_secs + 5
    }
}

/// The next download of a queue.
pub enum NextDownload {
    Nothing,
    NoLongerShared(String),
    Start(DownloadQueueItem, SharedFile),
}

/// What a `NextDownload` says.
pub enum NextView {
    Nothing,
    NoLongerShared(Seq<char>),
    Start(ItemView, FileView),
}

impl View for NextDownload {
    type V = NextView;

    open spec fn view(&self) -> NextView {
        match self {
            NextDownload::Nothing => NextView::Nothing,
            NextDownload::NoLongerShared(path) => NextView::NoLongerShared(path@),
            NextDownload::Start(item, file) => NextView::Start(item@, file@),
        }
    }
}

/// The first download of a queue, and what is shared under its path.
pub open spec fn next_wanted(queue: Seq<ItemView>, everything_file: FileView) -> NextView {
    if queue.len() == 0 {
        NextView::Nothing
    } else {
        match file_at(queue[0].path, everything_file) {
            Some(file) => NextView::Start(queue[0], file),
            None => NextView::NoLongerShared(queue[0].path),
        }
    }
}

/// The place where a download is saved: a directory under its name in the directory of the user, a
/// file in that directory itself.
pub open spec fn place_of_download(f: FileView, root: Seq<char>, name: Seq<char>) -> Seq<char> {
    if f.is_directory {
        root + name
    } else {
        root
    }
}

/// A downloader that has made a download the active one.
pub open spec fn with_active(
    d: DownloaderView,
    item: ItemView,
    f: FileView,
    place: Seq<char>,
) -> DownloaderView {
    DownloaderView {
        active: Some(item),
        size: f.file_size,
        bytes: 0,
        total_size: f.size_string,
        local_path: Some(place),
        ..d
    }
}

/// A downloader that has taken the first download off its queue.
pub open spec fn without_first(d: DownloaderView) -> DownloaderView {
    DownloaderView {
        queue: if d.queue.len() > 0 {
            d.queue.skip(1)
        } else {
            seq![]
        },
        ..d
    }
}

impl SingleDownloader {
    /// The report that a downloader starts.
    pub fn run_started(&self) -> (m: AppAggMessage)
        ensures
            m@ == ReportView::Log(
                LogLevel::Info,
                "Start downloading from '"@ + self@.user.nickname + "'"@,
            ),
    {
        AppAggMessage::LogInfo(
            cat3("Start downloading from '", self.shared_user.nickname.as_str(), "'"),
        )
    }

    /// The address that is connected to, and the report that it is.
    pub fn remote_address(&self) -> (r: (String, AppAggMessage))
        ensures
            (r.0)@ == self@.user.ip + ":"@ + self@.user.port,
            (r.1)@ == ReportView::Log(
                LogLevel::Info,
                "Attempt outgoing download "@ + self@.user.nickname + " "@ + (r.0)@,
            ),
    {
        let address = user_address(&self.shared_user);
        let mut text = cat3(
            "Attempt outgoing download ",
            self.shared_user.nickname.as_str(),
            " ",
        );
        text.push_str(address.as_str());
        (address, AppAggMessage::LogInfo(text))
    }

    /// Decides what a downloader does next.
    pub fn run(&mut self) -> (step: RunStep)
        ensures
            (final(self)@, step) == next_step(old(self)@),
    {
        if self.shutdown {
            return RunStep::Shutdown;
        }
        self.stop_downloading = false;
        if self.is_downloading_paused {
            return RunStep::SleepMillis(1000);
        }
        if self.download_queue.len() == 0 && !self.has_reverse_connection {
            return RunStep::SleepMillis(500);
        }
        if self.has_reverse_connection {
            self.has_reverse_connection = false;
            return RunStep::UseReverseConnection;
        }
        RunStep::Connect
    }

    /// The first download of the queue, and what the other user shares under its path.
    pub fn next_download(&self, everything_file: &SharedFile) -> (r: NextDownload)
        ensures
            r@ == next_wanted(self@.queue, everything_file@),
    {
        if self.download_queue.len() == 0 {
            return NextDownload::Nothing;
        }
        let item = self.download_queue[0].clone();
        match get_file_by_path(item.path.as_str(), everything_file) {
            Some(file) => NextDownload::Start(item, file),
            None => NextDownload::NoLongerShared(item.path),
        }
    }

    /// Makes a download the active one. A directory is saved under its name in the directory of
    /// the user, a file in that directory itself; the result is that place.
    pub fn start_download(
        &mut self,
        item: DownloadQueueItem,
        shared_file: &SharedFile,
        root_download_dir: &str,
        disk_name: &str,
    ) -> (destination_path: String)
        ensures
            destination_path@ == place_of_download(shared_file@, root_download_dir@, disk_name@),
            final(self)@ == with_active(old(self)@, item@, shared_file@, destination_path@),
    {
        self.active_download_path = Some(item);
        self.active_download_size = shared_file.file_size;
        self.active_downloaded_current_bytes = 0;
        self.active_download_total_size = shared_file.size_string.clone();
        let mut destination_path = root_download_dir.to_owned();
        if shared_file.is_directory {
            destination_path.push_str(disk_name);
        }
        self.active_download_local_path = Some(destination_path.clone());
        destination_path
    }

    /// Whether a download that has ended is a directory that is done: files report by themselves.
    pub fn is_directory_done(&self, shared_file: &SharedFile) -> (r: bool)
        ensures
            r == (!self@.stop && shared_file@.is_directory),
    {
        !self.stop_downloading && shared_file.is_directory
    }
}

/// The place where all downloads from a user are saved.
pub fn get_path_downloads_dir_user(downloads_dir: &str, user: &str) -> (s: String)
    ensures
        s@ == downloads_dir@ + user@,
{
    cat2(downloads_dir, user)
}

/// The address of a user.
pub fn user_address(user: &SharedUser) -> (s: String)
    ensures
        s@ == user@.ip + ":"@ + user@.port,
{
    cat3(user.ip.as_str(), ":", user.port.as_str())
}

/// The report of a queue file that could not be removed.
pub fn queue_file_kept(path: &str, error: &str) -> (m: AppAggMessage)
    ensures
        m@ == ReportView::Log(
            LogLevel::Error,
            "Failed to delete queue file '"@ + path@ + "'. "@ + error@,
        ),
{
    let mut text = cat3("Failed to delete queue file '", path, "'. ");
    text.push_str(error);
    AppAggMessage::LogError(text)
}

/// Where a downloader that waits finds its queue file.
pub fn queue_file_name(nickname: &str) -> (s: String)
    ensures
        s@ == nickname@ + ".txt"@,
{
    cat2(nickname, ".txt")
}

/// A list of files that comes in piece by piece.
pub struct FileListBytes {
    pub bytes: Vec<u8>,
}

/// What has come of a list of files, with one piece more.
pub open spec fn with_piece(bytes: Seq<u8>, payload: Seq<u8>) -> Seq<u8> {
    bytes + payload
}

/// Whether a message carries the last piece of a list of files.
pub open spec fn is_list_end(message: u16) -> bool {
    message == MSG_FILE_LIST_FINAL
}

impl FileListBytes {
    pub fn new() -> (l: FileListBytes)
        ensures
            l.bytes@ == Seq::<u8>::empty(),
    {
        FileListBytes { bytes: Vec::new() }
    }

    /// Adds a piece. The result says whether it was the last one.
    pub fn add_piece(&mut self, message: u16, payload: &[u8], nickname: &str) -> (r: Result<
        bool,
        String,
    >)
        ensures
            final(self).bytes@ == with_piece(old(self).bytes@, payload@),
            if final(self).bytes@.len() > MAX_EVERYTHING_FILE_SIZE {
                r is Err && r->Err_0@ == "File list is too large. "@ + nickname@
                    + " needs to share fewer files with you."@
            } else {
                r == Ok::<bool, String>(is_list_end(message))
            },
    {
        let mut piece = vstd::slice::slice_to_vec(payload);
        self.bytes.append(&mut piece);
        assert(self.bytes@ =~= old(self).bytes@ + payload@);
        if self.bytes.len() > MAX_EVERYTHING_FILE_SIZE {
            return Err(
                cat3(
                    "File list is too large. ",
                    nickname,
                    " needs to share fewer files with you.",
                ),
            );
        }
        Ok(message == MSG_FILE_LIST_FINAL)
    }

    /// The list as text.
    pub fn text(&self) -> (r: Result<String, String>)
        ensures
            match r {
                Ok(s) => valid_utf8(self.bytes@) && s@ == decode_utf8(self.bytes@),
                Err(e) => !valid_utf8(self.bytes@) && e@ == utf8_refusal(self.bytes@),
            },
    {
        text_from_utf8(self.bytes.as_slice())
    }
}

/// Takes out of a list of files what is not valid, and makes the shown sizes true.
pub fn clean_everything_file(everything_file: &mut SharedFile)
    ensures
        exists|pruned: FileView| #[trigger]
            is_pruned(old(everything_file)@, pruned) && final(everything_file)@ == with_true_sizes(
                pruned,
            ),
{
    remove_invalid_files(everything_file);
    let ghost pruned = everything_file@;
    reset_file_size_string(everything_file);
    assert(is_pruned(old(everything_file)@, pruned));
}

/// A path made fit for the disk, with at most `tries` changes.
pub open spec fn clean_path(path: Seq<char>, tries: nat) -> Option<Seq<char>>
    decreases tries,
{
    if tries == 0 {
        None
    } else {
        let a = replaced(path, '\0', '0');
        let b = single_backslashes(a);
        if a != path {
            clean_path(a, (tries - 1) as nat)
        } else if b != path {
            clean_path(b, (tries - 1) as nat)
        } else {
            Some(path)
        }
    }
}

/// The path as the system separates it.
pub open spec fn system_path(path: Seq<char>, is_unix: bool) -> Seq<char> {
    if is_unix {
        replaced(path, '\\', '/')
    } else {
        path
    }
}

/// Makes a path fit for the disk: no null characters, and no double backslashes.
pub fn sanitize_disk_path(path: &str, is_unix: bool) -> (r: Result<String, String>)
    ensures
        match clean_path(system_path(path@, is_unix), 10) {
            Some(p) => r is Ok && r->Ok_0@ == p,
            None => r is Err && r->Err_0@ == "Path could not be sanitized after 10 tries. "@
                + path@,
        },
{
    let mut new_path = if is_unix {
        replace_char(path, '\\', '/')
    } else {
        path.to_owned()
    };
    let mut left: usize = 10;
    while left > 0
        invariant
            clean_path(system_path(path@, is_unix), 10) == clean_path(new_path@, left as nat),
        decreases left,
    {
        left -= 1;
        let replaced_path = replace_char(new_path.as_str(), '\0', '0');
        if !str_eq(replaced_path.as_str(), new_path.as_str()) {
            new_path = replaced_path;
        } else {
            let collapsed = collapse_backslashes(replaced_path.as_str());
            if !str_eq(collapsed.as_str(), new_path.as_str()) {
                new_path = collapsed;
            } else {
                return Ok(new_path);
            }
        }
    }
    Err(cat2("Path could not be sanitized after 10 tries. ", path))
}

proof fn lemma_single_backslashes_fixed(s: Seq<char>)
    ensures
        single_backslashes(s).len() <= s.len(),
        single_backslashes(s).len() == s.len() ==> single_backslashes(s) == s && forall|i: int|
            0 <= i < s.len() - 1 ==> !(#[trigger] s[i] == '\\' && s[i + 1] == '\\'),
    decreases s.len(),
{
    if s.len() == 0 {
    } else if s.len() >= 2 && s[0] == '\\' && s[1] == '\\' {
        lemma_single_backslashes_fixed(s.skip(2));
    } else {
        let t = s.skip(1);
        lemma_single_backslashes_fixed(t);
        if single_backslashes(s).len() == s.len() {
            assert(seq![s[0]] + t =~= s);
            assert forall|i: int| 0 <= i < s.len() - 1 implies !(#[trigger] s[i] == '\\' && s[i + 1]
                == '\\') by {
                if i > 0 {
                    assert(t[i - 1] == s[i]);
                    assert(t[i] == s[i + 1]);
                }
            }
        }
    }
}

/// A path that was made fit for the disk has no null character and no double backslash.
pub proof fn law_clean_path_is_clean(path: Seq<char>, tries: nat)
    ensures
        clean_path(path, tries) matches Some(p) ==> !p.contains('\0') && forall|i: int|
            0 <= i < p.len() - 1 ==> !(#[trigger] p[i] == '\\' && p[i + 1] == '\\'),
    decreases tries,
{
    if tries > 0 {
        let a = replaced(path, '\0', '0');
        let b = single_backslashes(a);
        if a != path {
            law_clean_path_is_clean(a, (tries - 1) as nat);
        } else if b != path {
            law_clean_path_is_clean(b, (tries - 1) as nat);
        } else {
            lemma_single_backslashes_fixed(path);
            if path.contains('\0') {
                let i = choose|i: int| 0 <= i < path.len() && path[i] == '\0';
                assert(a[i] == '0');
            }
        }
    }
}

/// Whether a character separates the names of a path on some system.
pub open spec fn is_separator(c: char) -> bool {
    c == '/' || c == '\\'
}

/// Whether a dot stands between slashes, or between one and an end of the path.
pub open spec fn is_lone_dot(path: Seq<char>, k: int) -> bool {
    &&& path[k] == '.'
    &&& k == 0 || path[k - 1] == '/'
    &&& k + 1 == path.len() || path[k + 1] == '/'
}

/// Whether what goes from `a` to `b` is the last part of a path on every system, where it is more
/// than a lone dot. It has no separator in it, a slash stands in front of it unless it starts the
/// path, and nothing but slashes and lone dots follows it. It is no drive, and where the path
/// starts like one that names another computer, it lies behind what that computer shares.
pub open spec fn is_final_part(path: Seq<char>, a: int, b: int) -> bool {
    &&& 0 <= a < b <= path.len()
    &&& a == 0 || path[a - 1] == '/'
    &&& forall|k: int| a <= k < b ==> !is_separator(#[trigger] path[k])
    &&& forall|k: int| b <= k < path.len() ==> #[trigger] path[k] == '/' || is_lone_dot(path, k)
    &&& a == 0 ==> !(path.len() >= 2 && path[1] == ':')
    &&& path.len() >= 2 && is_separator(path[0]) && is_separator(path[1]) ==> !path.contains('\\')
        && is_behind_share(path, '/', a)
}

/// The name that a last part of a path stands for: two dots are none.
pub open spec fn name_of_part(part: Seq<char>) -> Option<Seq<char>> {
    if part == seq!['.', '.'] {
        None
    } else {
        Some(part)
    }
}

/// What is known of the last name of a path on every system. It is a part of the path and more than
/// one or two dots, and has no slash in it where the path does not start with two backslashes. A
/// path of slashes and lone dots has none. Where slashes decide which part is the last one, that
/// part gives the name; in a plain path, what stands behind the last backslash does, or the whole
/// path.
pub open spec fn is_last_name(path: Seq<char>, name: Option<Seq<char>>) -> bool {
    &&& name matches Some(n) ==> {
        &&& n.len() > 0
        &&& !(path.len() >= 2 && path[0] == '\\' && path[1] == '\\') ==> !n.contains('/')
        &&& n != seq!['.']
        &&& n != seq!['.', '.']
        &&& has_part(path, n)
    }
    &&& (forall|k: int| 0 <= k < path.len() ==> #[trigger] path[k] == '/' || is_lone_dot(path, k))
        ==> name is None
    &&& forall|a: int, b: int|
        #[trigger] is_final_part(path, a, b) && path.subrange(a, b) != seq!['.'] ==> name
            == name_of_part(path.subrange(a, b))
    &&& forall|a: int, b: int|
        {
            &&& is_plain(path)
            &&& #[trigger] is_piece(path, a, b)
            &&& forall|k: int| b <= k < path.len() ==> #[trigger] path[k] == '\\'
            &&& !(a == 0 && path.len() >= 2 && path[1] == ':')
            &&& path.subrange(a, b) != seq!['.']
        } ==> name == name_of_part(path.subrange(a, b)) || name == Some(path)
}

/// `std::path::Path::file_name`: the last name of a path. Which characters separate names depends
/// on the system, so of a plain path both answers are allowed. Of a path whose last separator is a
/// backslash and that has slashes too, or that names another computer by backslashes, only what
/// holds of every name is said; so it is of a drive by itself, and of a path that names nothing
/// behind what another computer shares.
#[verifier::external_body]
pub(crate) fn path_file_name(path: &str) -> (name: Option<String>)
    ensures
        is_last_name(path@, opt_text(name)),
{
    std::path::Path::new(path).file_name().map(|name| name.to_string_lossy().into_owned())
}

/// The name under which a file is saved.
#[derive(Debug)]
pub enum DiskName {
    Name(String),
    Unclean(String),
    Missing,
}

/// What a `DiskName` says.
pub enum DiskNameView {
    Name(Seq<char>),
    Unclean(Seq<char>),
    Missing,
}

impl View for DiskName {
    type V = DiskNameView;

    open spec fn view(&self) -> DiskNameView {
        match self {
            DiskName::Name(s) => DiskNameView::Name(s@),
            DiskName::Unclean(s) => DiskNameView::Unclean(s@),
            DiskName::Missing => DiskNameView::Missing,
        }
    }
}

/// Whether a file may be saved under a name.
pub open spec fn may_be_named(path: Seq<char>, is_unix: bool, name: DiskNameView) -> bool {
    match clean_path(system_path(path, is_unix), 10) {
        None => name == DiskNameView::Unclean(
            "Path could not be sanitized after 10 tries. "@ + path,
        ),
        Some(clean) => match name {
            DiskNameView::Name(n) => is_last_name(clean, Some(n)),
            DiskNameView::Missing => is_last_name(clean, None),
            DiskNameView::Unclean(_) => false,
        },
    }
}

/// The name under which a file is saved.
pub fn get_sanitized_disk_file_name(shared_file: &SharedFile, is_unix: bool) -> (name: DiskName)
    ensures
        may_be_named(shared_file@.path, is_unix, name@),
{
    match sanitize_disk_path(shared_file.path.as_str(), is_unix) {
        Err(e) => DiskName::Unclean(e),
        Ok(path) => match path_file_name(path.as_str()) {
            Some(name) => DiskName::Name(name),
            None => DiskName::Missing,
        },
    }
}

proof fn lemma_clean_path_without(path: Seq<char>, tries: nat)
    requires
        !path.contains('\\'),
    ensures
        clean_path(path, tries) matches Some(p) ==> !p.contains('\\'),
    decreases tries,
{
    if tries > 0 {
        let a = replaced(path, '\0', '0');
        assert(!a.contains('\\')) by {
            if a.contains('\\') {
                let i = choose|i: int| 0 <= i < a.len() && a[i] == '\\';
                assert(path[i] == '\\');
            }
        }
        lemma_clean_path_without(a, (tries - 1) as nat);
        if a == path {
            lemma_no_backslash(a);
        }
    }
}

proof fn lemma_no_backslash(s: Seq<char>)
    requires
        !s.contains('\\'),
    ensures
        single_backslashes(s) == s,
    decreases s.len(),
{
    if s.len() > 0 {
        let t = s.skip(1);
        assert(s.contains(s[0]));
        assert(!t.contains('\\')) by {
            if t.contains('\\') {
                let i = choose|i: int| 0 <= i < t.len() && t[i] == '\\';
                assert(s[i + 1] == '\\');
            }
        }
        lemma_no_backslash(t);
        assert(seq![s[0]] + t =~= s);
    }
}

/// A file is saved under one proper name: not empty, not one or two dots, without null characters
/// and without slashes; where backslashes are not part of names, without these too.
pub proof fn law_saved_under_one_name(path: Seq<char>, is_unix: bool, name: Seq<char>)
    requires
        may_be_named(path, is_unix, DiskNameView::Name(name)),
    ensures
        name.len() > 0,
        name != seq!['.'],
        name != seq!['.', '.'],
        !name.contains('/'),
        !name.contains('\0'),
        is_unix ==> !name.contains('\\'),
{
    let start = system_path(path, is_unix);
    let clean = clean_path(start, 10)->0;
    law_clean_path_is_clean(start, 10);
    if is_unix {
        assert(!start.contains('\\')) by {
            if start.contains('\\') {
                let i = choose|i: int| 0 <= i < start.len() && start[i] == '\\';
                assert(start[i] == replaced(path, '\\', '/')[i]);
            }
        }
        lemma_clean_path_without(start, 10);
    }
    if clean.len() >= 2 {
        assert(!(clean[0] == '\\' && clean[1] == '\\'));
    }
    let at = choose|at: int| occurs_at(clean, name, at);
    assert forall|c: char| name.contains(c) implies clean.contains(c) by {
        let i = choose|i: int| 0 <= i < name.len() && name[i] == c;
        assert(clean.subrange(at, at + name.len())[i] == clean[at + i]);
    }
}

/// Where backslashes are not part of names, a file is saved under what stands behind the last slash
/// or backslash of its path, unless that is nothing or dots. The path is one of this computer, and
/// more than a drive.
pub proof fn law_saved_under_last_name(path: Seq<char>, a: int, name: DiskNameView)
    requires
        may_be_named(path, true, name),
        !path.contains('\0'),
        0 <= a < path.len(),
        a == 0 || is_separator(path[a - 1]),
        forall|k: int| a <= k < path.len() ==> !is_separator(#[trigger] path[k]),
        path.skip(a) != seq!['.'],
        path.skip(a) != seq!['.', '.'],
        !(path.len() >= 2 && is_separator(path[0]) && is_separator(path[1])),
        a == 0 ==> !(path.len() >= 2 && path[1] == ':'),
    ensures
        name == DiskNameView::Name(path.skip(a)),
{
    let start = system_path(path, true);
    let len = path.len() as int;
    assert(!start.contains('\\')) by {
        if start.contains('\\') {
            let i = choose|i: int| 0 <= i < start.len() && start[i] == '\\';
            assert(start[i] == replaced(path, '\\', '/')[i]);
        }
    }
    assert(replaced(start, '\0', '0') =~= start) by {
        assert forall|i: int| 0 <= i < start.len() implies start[i] != '\0' by {
            assert(path.contains(path[i]));
        }
    }
    lemma_no_backslash(start);
    assert(clean_path(start, 10) == Some(start));
    assert(start.subrange(a, len) =~= path.skip(a));
    assert(is_final_part(start, a, len));
}

/// The names under which a file, and the files in a directory, are saved.
#[derive(Debug)]
pub struct NameTree {
    pub name: DiskName,
    pub children: Vec<NameTree>,
}

/// What a `NameTree` says.
pub struct NameTreeView {
    pub name: DiskNameView,
    pub children: Seq<NameTreeView>,
}

pub open spec fn name_tree_view(t: NameTree) -> NameTreeView
    decreases t,
{
    NameTreeView {
        name: t.name@,
        children: Seq::new(
            t.children@.len(),
            |i: int|
                if 0 <= i < t.children@.len() {
                    name_tree_view(t.children@[i])
                } else {
                    arbitrary()
                },
        ),
    }
}

impl View for NameTree {
    type V = NameTreeView;

    open spec fn view(&self) -> NameTreeView {
        name_tree_view(*self)
    }
}

/// Whether the files of a tree may be saved under the names of another.
pub open spec fn are_names_of(f: FileView, t: NameTreeView, is_unix: bool) -> bool
    decreases f,
{
    &&& may_be_named(f.path, is_unix, t.name)
    &&& t.children.len() == f.files.len()
    &&& forall|i: int|
        #![trigger f.files[i]]
        0 <= i < f.files.len() ==> are_names_of(f.files[i], t.children[i], is_unix)
}

/// Whether there is a name for every file of a tree.
pub open spec fn has_all_names(f: FileView, t: NameTreeView) -> bool
    decreases f,
{
    &&& t.children.len() == f.files.len()
    &&& forall|i: int|
        #![trigger f.files[i]]
        0 <= i < f.files.len() ==> has_all_names(f.files[i], t.children[i])
}

/// Finds the names under which a file, and the files in a directory, are saved.
pub fn find_disk_names(shared_file: &SharedFile, is_unix: bool) -> (t: NameTree)
    ensures
        are_names_of(shared_file@, t@, is_unix),
        has_all_names(shared_file@, t@),
    decreases shared_file,
{
    let name = get_sanitized_disk_file_name(shared_file, is_unix);
    let ghost files = views(shared_file.files@);
    assert(shared_file@.files =~= files);
    let mut children: Vec<NameTree> = Vec::new();
    let mut i: usize = 0;
    while i < shared_file.files.len()
        invariant
            i <= shared_file.files@.len(),
            files == views(shared_file.files@),
            children@.len() == i,
            forall|k: int|
                0 <= k < i ==> are_names_of(files[k], (#[trigger] children@[k])@, is_unix)
                    && has_all_names(files[k], children@[k]@),
        decreases shared_file.files@.len() - i,
    {
        let child = find_disk_names(&shared_file.files[i], is_unix);
        assert(files[i as int] == shared_file.files@[i as int]@);
        children.push(child);
        i += 1;
    }
    let t = NameTree { name, children };
    proof {
        let f = shared_file@;
        assert forall|k: int| #![trigger f.files[k]] 0 <= k < f.files.len() implies are_names_of(
            f.files[k],
            t@.children[k],
            is_unix,
        ) && has_all_names(f.files[k], t@.children[k]) by {
            assert(t@.children[k] == children@[k]@);
        }
    }
    t
}

/// A step of a download.
#[derive(Debug)]
pub enum DownloadStep {
    File { path: String, file_size: u64, directory: String, destination: String },
    Fail(String),
    NoName,
}

/// What a `DownloadStep` says.
pub enum StepView {
    File { path: Seq<char>, file_size: u64, directory: Seq<char>, destination: Seq<char> },
    Fail(Seq<char>),
    NoName,
}

impl View for DownloadStep {
    type V = StepView;

    open spec fn view(&self) -> StepView {
        match self {
            DownloadStep::File { path, file_size, directory, destination } => StepView::File {
                path: path@,
                file_size: *file_size,
                directory: directory@,
                destination: destination@,
            },
            DownloadStep::Fail(e) => StepView::Fail(e@),
            DownloadStep::NoName => StepView::NoName,
        }
    }
}

pub open spec fn step_views(s: Seq<DownloadStep>) -> Seq<StepView> {
    Seq::new(s.len(), |i: int| s[i]@)
}

/// Whether steps end before all files are through.
pub open spec fn is_cut_short(s: Seq<StepView>) -> bool {
    s.len() > 0 && !(s.last() is File)
}

/// The steps in which a file, or all files of a directory one by one, are downloaded into
/// `directory`. They end where a file cannot be named.
pub open spec fn steps(
    f: FileView,
    t: NameTreeView,
    directory: Seq<char>,
    separator: char,
) -> Seq<StepView>
    decreases f, 0int,
{
    match t.name {
        DiskNameView::Unclean(e) => seq![StepView::Fail(e)],
        DiskNameView::Missing => seq![StepView::NoName],
        DiskNameView::Name(name) => if f.is_directory {
            steps_from(f.files, t.children, (directory + name).push(separator), separator, 0)
        } else {
            seq![
                StepView::File {
                    path: f.path,
                    file_size: f.file_size,
                    directory,
                    destination: directory + name,
                },
            ]
        },
    }
}

pub open spec fn steps_from(
    files: Seq<FileView>,
    names: Seq<NameTreeView>,
    directory: Seq<char>,
    separator: char,
    i: int,
) -> Seq<StepView>
    decreases files, files.len() - i,
{
    if 0 <= i < files.len() {
        let first = steps(files[i], names[i], directory, separator);
        if is_cut_short(first) {
            first
        } else {
            first + steps_from(files, names, directory, separator, i + 1)
        }
    } else {
        seq![]
    }
}

/// The steps in which a file, or all files of a directory one by one, are downloaded.
pub fn download_shared_file(
    shared_file: &SharedFile,
    names: &NameTree,
    download_dir: &str,
    separator: char,
) -> (v: Vec<DownloadStep>)
    requires
        has_all_names(shared_file@, names@),
    ensures
        step_views(v@) == steps(shared_file@, names@, download_dir@, separator),
    decreases shared_file,
{
    let mut v: Vec<DownloadStep> = Vec::new();
    match &names.name {
        DiskName::Unclean(e) => {
            v.push(DownloadStep::Fail(e.clone()));
            assert(step_views(v@) =~= seq![StepView::Fail(e@)]);
        },
        DiskName::Missing => {
            v.push(DownloadStep::NoName);
            assert(step_views(v@) =~= seq![StepView::NoName]);
        },
        DiskName::Name(name) => {
            let destination = cat2(download_dir, name.as_str());
            if !shared_file.is_directory {
                let step = DownloadStep::File {
                    path: shared_file.path.clone(),
                    file_size: shared_file.file_size,
                    directory: download_dir.to_owned(),
                    destination,
                };
                v.push(step);
                assert(step_views(v@) =~= seq![step@]);
                return v;
            }
            let mut directory = destination;
            directory.push(separator);
            let ghost files = shared_file@.files;
            let ghost children = names@.children;
            let ghost dir = directory@;
            assert(files =~= views(shared_file.files@));
            let mut i: usize = 0;
            assert(step_views(v@) + steps_from(files, children, dir, separator, 0) =~= steps_from(
                files,
                children,
                dir,
                separator,
                0,
            ));
            while i < shared_file.files.len()
                invariant
                    i <= shared_file.files@.len(),
                    files == views(shared_file.files@),
                    files == shared_file@.files,
                    children == names@.children,
                    has_all_names(shared_file@, names@),
                    names.children@.len() == shared_file.files@.len(),
                    dir == directory@,
                    steps(shared_file@, names@, download_dir@, separator) == steps_from(
                        files,
                        children,
                        dir,
                        separator,
                        0,
                    ),
                    step_views(v@) + steps_from(files, children, dir, separator, i as int)
                        == steps_from(files, children, dir, separator, 0),
                decreases shared_file.files@.len() - i,
            {
                proof {
                    assert(files[i as int] == shared_file.files@[i as int]@);
                    assert(children[i as int] == names.children@[i as int]@);
                    assert(has_all_names(shared_file@.files[i as int], children[i as int]));
                }
                let mut part = download_shared_file(
                    &shared_file.files[i],
                    &names.children[i],
                    directory.as_str(),
                    separator,
                );
                let ghost first = step_views(part@);
                let ghost before = step_views(v@);
                let cut = part.len() > 0 && (match &part[part.len() - 1] {
                    DownloadStep::File { .. } => false,
                    _ => true,
                });
                proof {
                    if part@.len() > 0 {
                        assert(first.last() == part@.last()@);
                    }
                }
                let ghost vs = v@;
                let ghost ps = part@;
                v.append(&mut part);
                assert(step_views(v@) =~= before + first);
                if cut {
                    return v;
                }
                proof {
                    assert(before + (first + steps_from(files, children, dir, separator, i + 1))
                        =~= step_views(v@) + steps_from(files, children, dir, separator, i + 1));
                }
                i += 1;
            }
            assert(step_views(v@) + Seq::<StepView>::empty() =~= step_views(v@));
        },
    }
    v
}

/// Whether a step stays in a directory.
pub open spec fn is_step_in(s: StepView, directory: Seq<char>) -> bool {
    s matches StepView::File { destination, .. } ==> has_prefix(destination, directory)
}

proof fn lemma_prefix(a: Seq<char>, b: Seq<char>, c: Seq<char>)
    requires
        has_prefix(a, b),
        has_prefix(b, c),
    ensures
        has_prefix(a, c),
{
    assert(a.take(c.len() as int) =~= a.take(b.len() as int).take(c.len() as int));
}

proof fn lemma_steps_from_stay_in(
    files: Seq<FileView>,
    names: Seq<NameTreeView>,
    directory: Seq<char>,
    separator: char,
    i: int,
)
    requires
        0 <= i <= files.len(),
    ensures
        forall|k: int|
            0 <= k < steps_from(files, names, directory, separator, i).len() ==> is_step_in(
                #[trigger] steps_from(files, names, directory, separator, i)[k],
                directory,
            ),
    decreases files, files.len() - i,
{
    if i < files.len() {
        let first = steps(files[i], names[i], directory, separator);
        law_steps_stay_in_directory(files[i], names[i], directory, separator);
        lemma_steps_from_stay_in(files, names, directory, separator, i + 1);
        let all = steps_from(files, names, directory, separator, i);
        assert forall|k: int| 0 <= k < all.len() implies is_step_in(
            #[trigger] all[k],
            directory,
        ) by {
            if k < first.len() {
                assert(all[k] == first[k]);
            } else {
                assert(all[k] == steps_from(files, names, directory, separator, i + 1)[k
                    - first.len()]);
            }
        }
    }
}

/// Every file of a download is saved at a place that starts with the directory for it.
pub proof fn law_steps_stay_in_directory(
    f: FileView,
    t: NameTreeView,
    directory: Seq<char>,
    separator: char,
)
    ensures
        forall|k: int|
            0 <= k < steps(f, t, directory, separator).len() ==> is_step_in(
                #[trigger] steps(f, t, directory, separator)[k],
                directory,
            ),
    decreases f, 0int,
{
    if let DiskNameView::Name(name) = t.name {
        assert((directory + name).take(directory.len() as int) =~= directory);
        if f.is_directory {
            let sub = (directory + name).push(separator);
            lemma_steps_from_stay_in(f.files, t.children, sub, separator, 0);
            assert(sub.take(directory.len() as int) =~= directory);
            let all = steps(f, t, directory, separator);
            assert forall|k: int| 0 <= k < all.len() implies is_step_in(
                #[trigger] all[k],
                directory,
            ) by {
                assert(all[k] == steps_from(f.files, t.children, sub, separator, 0)[k]);
                assert(is_step_in(all[k], sub));
                if let StepView::File { destination, .. } = all[k] {
                    lemma_prefix(destination, sub, directory);
                }
            }
        }
    }
}

/// What is known of the files that a user shares.
#[derive(Debug)]
pub struct InternalRefreshData {
    pub error: Option<String>,
    pub data: Option<SharedFile>,
    pub in_progress: bool,
}

/// What an `InternalRefreshData` says.
#[verifier::ext_equal]
pub struct RefreshView {
    pub error: Option<Seq<char>>,
    pub data: Option<FileView>,
    pub in_progress: bool,
}

impl View for InternalRefreshData {
    type V = RefreshView;

    open spec fn view(&self) -> RefreshView {
        RefreshView {
            error: opt_text(self.error),
            data: opt_file(self.data),
            in_progress: self.in_progress,
        }
    }
}

/// Nothing is known yet.
pub open spec fn never_refreshed() -> RefreshView {
    RefreshView { error: Some("Refresh"@), data: None, in_progress: false }
}

impl InternalRefreshData {
    pub fn new() -> (d: InternalRefreshData)
        ensures
            d@ == never_refreshed(),
    {
        InternalRefreshData { error: Some("Refresh".to_owned()), data: None, in_progress: false }
    }
}

/// What is known, of these users and no others.
pub open spec fn refresh_of(map: Map<Seq<char>, RefreshView>, users: Seq<UserView>) -> Map<
    Seq<char>,
    RefreshView,
> {
    Map::new(
        |name: Seq<char>| is_nickname(users, name),
        |name: Seq<char>|
            if map.dom().contains(name) {
                map[name]
            } else {
                never_refreshed()
            },
    )
}

/// Keeps what is known of the users, and drops what is known of others.
pub fn set_refresh_data(users: &Vec<SharedUser>, refresh_data: &mut NameMap<InternalRefreshData>)
    ensures
        final(refresh_data)@ == refresh_of(old(refresh_data)@, users.deep_view()),
{
    let ghost start = refresh_data@;
    let ghost all = users.deep_view();
    let mut kept: NameMap<InternalRefreshData> = NameMap::new();
    let mut i: usize = 0;
    assert(kept@ =~= refresh_of(start, all.take(0)));
    while i < users.len()
        invariant
            i <= users@.len(),
            all == users.deep_view(),
            kept@ == refresh_of(start, all.take(i as int)),
            forall|name: Seq<char>|
                !kept@.dom().contains(name) ==> (#[trigger] refresh_data@.dom().contains(name)
                    <==> start.dom().contains(name)),
            forall|name: Seq<char>|
                !kept@.dom().contains(name) && start.dom().contains(name)
                    ==> #[trigger] refresh_data@[name] == start[name],
        decreases users@.len() - i,
    {
        let name = users[i].nickname.as_str();
        let ghost here = all.take(i as int);
        let ghost next = all.take(i + 1);
        proof {
            assert(all[i as int] == users@[i as int]@);
            assert forall|n: Seq<char>| is_nickname(next, n) <==> is_nickname(here, n) || n
                == name@ by {
                if is_nickname(next, n) && n != name@ {
                    let k = choose|k: int| 0 <= k < next.len() && (#[trigger] next[k]).nickname == n;
                    assert(here[k] == next[k]);
                }
                if is_nickname(here, n) {
                    let k = choose|k: int| 0 <= k < here.len() && (#[trigger] here[k]).nickname == n;
                    assert(next[k] == here[k]);
                }
                assert(next[i as int].nickname == name@);
            }
        }
        if !kept.contains_key(name) {
            let ghost kept0 = kept@;
            let ghost map0 = refresh_data@;
            let data = match refresh_data.remove(name) {
                Some(data) => data,
                None => InternalRefreshData::new(),
            };
            kept.insert(name.to_owned(), data);
            proof {
                assert(kept@ =~= refresh_of(start, next));
            }
        } else {
            assert(kept@ =~= refresh_of(start, next));
        }
        i += 1;
    }
    assert(all.take(i as int) =~= all);
    *refresh_data = kept;
}

/// What was found when the files that a user shares were looked up.
pub enum RefreshSharedMessages {
    FileData(Result<SharedFile, String>),
}

/// What comes out of looking for the files that a user shares.
pub enum RefreshPoll {
    Message(RefreshSharedMessages),
    Empty,
    Disconnected,
}

/// What is known after looking.
pub open spec fn polled(d: RefreshView, poll: RefreshPoll) -> RefreshView {
    match poll {
        RefreshPoll::Message(RefreshSharedMessages::FileData(Ok(file))) => RefreshView {
            error: None,
            data: Some(file@),
            in_progress: false,
        },
        RefreshPoll::Message(RefreshSharedMessages::FileData(Err(e))) => RefreshView {
            error: Some(e@),
            in_progress: false,
            ..d
        },
        RefreshPoll::Empty => d,
        RefreshPoll::Disconnected => RefreshView {
            error: Some(
                "Transmitic Error: Channel disconnected before refresh data was received."@,
            ),
            in_progress: false,
            ..d
        },
    }
}

/// What is shown of what is known of the files that a user shares.
pub open spec fn refresh_data_of(nickname: Seq<char>, d: RefreshView) -> RefreshDataView {
    RefreshDataView {
        owner: nickname,
        error: d.error,
        data: d.data,
        in_progress: d.in_progress,
    }
}

/// What is shown of what is known of the files that the users share.
pub open spec fn shared_with_me(map: Map<Seq<char>, RefreshView>) -> Map<
    Seq<char>,
    RefreshDataView,
> {
    Map::new(
        |name: Seq<char>| map.dom().contains(name),
        |name: Seq<char>| refresh_data_of(name, map[name]),
    )
}

/// A selected file on its way into the queue of its owner: the owner's downloader is told of the
/// item. Where there is none, the line is put at the end of the queue file, and a downloader is
/// started where the owner is known.
#[derive(Debug)]
pub struct QueuedDownload {
    pub owner: String,
    pub item: DownloadQueueItem,
    pub queue_line: String,
    pub user: Option<SharedUser>,
}

/// What a `QueuedDownload` says.
pub struct QueuedView {
    pub owner: Seq<char>,
    pub item: ItemView,
    pub queue_line: Seq<char>,
    pub user: Option<UserView>,
}

impl View for QueuedDownload {
    type V = QueuedView;

    open spec fn view(&self) -> QueuedView {
        QueuedView {
            owner: self.owner@,
            item: self.item@,
            queue_line: self.queue_line@,
            user: match self.user {
                Some(u) => Some(u@),
                None => None,
            },
        }
    }
}

/// How a selected file gets into the queue of its owner.
pub open spec fn queued_download(users: Seq<UserView>, download: SelectedDownload) -> QueuedView {
    let item = ItemView { path: download.path@, file_size: download.file_size };
    QueuedView {
        owner: download.owner@,
        item,
        queue_line: queue_line(item) + "\n"@,
        user: match first_nickname(users, download.owner@, 0) {
            Some(i) => Some(users[i]),
            None => None,
        },
    }
}

pub open spec fn lookup_views(s: Seq<(String, Option<String>)>) -> Seq<
    (Seq<char>, Option<Seq<char>>),
> {
    Seq::new(s.len(), |i: int| (s[i].0@, opt_text(s[i].1)))
}

/// What is known once the files of users are being looked up, and whose files are.
pub open spec fn lookups(map: Map<Seq<char>, RefreshView>, users: Seq<UserView>) -> (
    Map<Seq<char>, RefreshView>,
    Seq<(Seq<char>, Option<Seq<char>>)>,
)
    decreases users.len(),
{
    if users.len() == 0 {
        (map, seq![])
    } else {
        let (before, v) = lookups(map, users.drop_last());
        let nickname = users.last().nickname;
        if before.dom().contains(nickname) {
            (
                before.insert(nickname, RefreshView { in_progress: true, ..before[nickname] }),
                v.push((nickname, None)),
            )
        } else {
            (
                before,
                v.push((nickname, Some("Start refresh with missing key: '"@ + nickname + "'"@))),
            )
        }
    }
}

/// A connection that another user has opened for us: with whom, and as whom.
pub struct ReverseParties {
    pub shared_user: SharedUser,
    pub private_id_bytes: Vec<u8>,
}

/// Whether the downloads from a user are started.
#[derive(Debug)]
pub enum StartDecision {
    Nothing,
    Refuse(AppAggMessage),
    HandOver(AppAggMessage),
    Start(Option<AppAggMessage>),
}

/// What a `StartDecision` says.
pub enum StartView {
    Nothing,
    Refuse(ReportView),
    HandOver(ReportView),
    Start(Option<ReportView>),
}

impl View for StartDecision {
    type V = StartView;

    open spec fn view(&self) -> StartView {
        match self {
            StartDecision::Nothing => StartView::Nothing,
            StartDecision::Refuse(m) => StartView::Refuse(m@),
            StartDecision::HandOver(m) => StartView::HandOver(m@),
            StartDecision::Start(None) => StartView::Start(None),
            StartDecision::Start(Some(m)) => StartView::Start(Some(m@)),
        }
    }
}

/// Whether a user with this name and public id is known.
pub open spec fn is_known_user(users: Seq<UserView>, u: UserView) -> bool {
    exists|i: int|
        0 <= i < users.len() && (#[trigger] users[i]).nickname == u.nickname && users[i].public_id
            == u.public_id
}

/// Whether the downloads from a user are started: where something waits, or where the user has
/// opened a connection for us and still is who we take this user for.
pub open spec fn start_decision(
    config: ConfigState,
    reverse: Option<(UserView, Seq<u8>)>,
    queue_file_exists: bool,
    is_running: bool,
) -> StartView {
    match reverse {
        None => if queue_file_exists {
            StartView::Start(None)
        } else {
            StartView::Nothing
        },
        Some((user, private_id)) => if is_known_user(config.file.shared_users, user)
            && config.private_key == private_id {
            let log = ReportView::Log(
                LogLevel::Debug,
                "Reverse Connection recheck success "@ + user.nickname,
            );
            if is_running {
                StartView::HandOver(log)
            } else {
                StartView::Start(Some(log))
            }
        } else {
            StartView::Refuse(
                ReportView::Log(
                    LogLevel::Warning,
                    "Reverse Connection recheck failed. Connection disconnected. "@
                        + user.nickname,
                ),
            )
        },
    }
}

pub open spec fn parties_view(p: Option<ReverseParties>) -> Option<(UserView, Seq<u8>)> {
    match p {
        Some(p) => Some((p.shared_user@, p.private_id_bytes@)),
        None => None,
    }
}

fn bytes_eq(a: &Vec<u8>, b: &Vec<u8>) -> (r: bool)
    ensures
        r == (a@ == b@),
{
    if a.len() != b.len() {
        return false;
    }
    let mut i: usize = 0;
    while i < a.len()
        invariant
            i <= a@.len(),
            a@.len() == b@.len(),
            forall|k: int| 0 <= k < i ==> a@[k] == b@[k],
        decreases a@.len() - i,
    {
        if a[i] != b[i] {
            return false;
        }
        i += 1;
    }
    assert(a@ =~= b@);
    true
}

/// All downloads.
pub struct OutgoingDownloader {
    pub config: Config,
    pub is_downloading_paused: bool,
    pub refresh_data: NameMap<InternalRefreshData>,
}

impl OutgoingDownloader {
    pub fn new(config: Config) -> (d: OutgoingDownloader)
        ensures
            d.config == config,
            !d.is_downloading_paused,
            d.refresh_data@ == refresh_of(Map::empty(), config@.file.shared_users),
    {
        let mut refresh_data: NameMap<InternalRefreshData> = NameMap::new();
        let users = config.get_shared_users();
        set_refresh_data(&users, &mut refresh_data);
        OutgoingDownloader { config, is_downloading_paused: false, refresh_data }
    }

    pub fn is_downloading_paused(&self) -> (r: bool)
        ensures
            r == self.is_downloading_paused,
    {
        self.is_downloading_paused
    }

    /// The users whose downloads are started with the program.
    pub fn start_downloading(&self) -> (users: Vec<SharedUser>)
        ensures
            users.deep_view() == self.config@.file.shared_users,
    {
        self.config.get_shared_users()
    }

    /// Decides whether the downloads from a user are started.
    pub fn start_downloading_single_user(
        &self,
        reverse_connection: &Option<ReverseParties>,
        queue_file_exists: bool,
        is_running: bool,
    ) -> (r: StartDecision)
        ensures
            r@ == start_decision(
                self.config@,
                parties_view(*reverse_connection),
                queue_file_exists,
                is_running,
            ),
    {
        let parties = match reverse_connection {
            None => {
                return if queue_file_exists {
                    StartDecision::Start(None)
                } else {
                    StartDecision::Nothing
                };
            },
            Some(parties) => parties,
        };
        let private_id_bytes = self.config.get_local_private_id_bytes();
        let users = self.config.get_shared_users();
        let name = parties.shared_user.nickname.as_str();
        let ghost all = users.deep_view();
        let ghost user = parties.shared_user@;
        let mut is_known = false;
        let mut i: usize = 0;
        while i < users.len()
            invariant
                i <= users@.len(),
                all == users.deep_view(),
                user == parties.shared_user@,
                name@ == user.nickname,
                is_known <==> is_known_user(all.take(i as int), user),
            decreases users@.len() - i,
        {
            let ghost here = all.take(i as int);
            let ghost next = all.take(i + 1);
            let same = str_eq(users[i].nickname.as_str(), name) && str_eq(
                users[i].public_id.as_str(),
                parties.shared_user.public_id.as_str(),
            );
            proof {
                assert(next[i as int] == users@[i as int]@);
                if is_known_user(here, user) {
                    let k = choose|k: int|
                        0 <= k < here.len() && (#[trigger] here[k]).nickname == user.nickname
                            && here[k].public_id == user.public_id;
                    assert(next[k] == here[k]);
                }
                if is_known_user(next, user) && !same {
                    let k = choose|k: int|
                        0 <= k < next.len() && (#[trigger] next[k]).nickname == user.nickname
                            && next[k].public_id == user.public_id;
                    assert(here[k] == next[k]);
                }
            }
            if same {
                is_known = true;
            }
            i += 1;
        }
        assert(all.take(i as int) =~= all);
        if is_known && bytes_eq(&private_id_bytes, &parties.private_id_bytes) {
            let log = AppAggMessage::LogDebug(cat2("Reverse Connection recheck success ", name));
            if is_running {
                StartDecision::HandOver(log)
            } else {
                StartDecision::Start(Some(log))
            }
        } else {
            StartDecision::Refuse(
                AppAggMessage::LogWarning(
                    cat2("Reverse Connection recheck failed. Connection disconnected. ", name),
                ),
            )
        }
    }

    pub fn set_new_config(&mut self, config: Config)
        ensures
            final(self).config == config,
            final(self).is_downloading_paused == old(self).is_downloading_paused,
            final(self).refresh_data@ == refresh_of(
                old(self).refresh_data@,
                config@.file.shared_users,
            ),
    {
        let users = config.get_shared_users();
        self.config = config;
        set_refresh_data(&users, &mut self.refresh_data);
    }

    /// The user that a downloader is told about.
    pub fn update_user(&self, nickname: &str) -> (r: Result<SharedUser, String>)
        ensures
            match first_nickname(self.config@.file.shared_users, nickname@, 0) {
                Some(i) => r is Ok && r->Ok_0@ == self.config@.file.shared_users[i],
                None => r is Err && r->Err_0@ == "Failed to find shared user "@ + nickname@,
            },
    {
        let users = self.config.get_shared_users();
        match find_nickname(&users, nickname) {
            Some(i) => {
                assert(users.deep_view()[i as int] == users@[i as int]@);
                Ok(users[i].clone())
            },
            None => Err(cat2("Failed to find shared user ", nickname)),
        }
    }

    pub fn downloads_pause_all(&mut self) -> (m: MessageSingleDownloader)
        ensures
            m@ == OrderView::PauseDownloads,
            final(self).is_downloading_paused,
            final(self).config == old(self).config,
            final(self).refresh_data == old(self).refresh_data,
    {
        self.is_downloading_paused = true;
        MessageSingleDownloader::PauseDownloads
    }

    pub fn downloads_resume_all(&mut self) -> (m: MessageSingleDownloader)
        ensures
            m@ == OrderView::ResumeDownloads,
            !final(self).is_downloading_paused,
            final(self).config == old(self).config,
            final(self).refresh_data == old(self).refresh_data,
    {
        self.is_downloading_paused = false;
        MessageSingleDownloader::ResumeDownloads
    }

    /// All downloads start over.
    pub fn restart_connections(&self) -> (m: MessageSingleDownloader)
        ensures
            m@ == OrderView::RestartConnection,
    {
        MessageSingleDownloader::RestartConnection
    }

    /// All downloads are cancelled.
    pub fn downloads_cancel_all(&self) -> (m: MessageSingleDownloader)
        ensures
            m@ == OrderView::CancelAllDownloads,
    {
        MessageSingleDownloader::CancelAllDownloads
    }

    /// A download is cancelled.
    pub fn downloads_cancel_single(&self, file_path: String) -> (m: MessageSingleDownloader)
        ensures
            m@ == OrderView::CancelDownload(file_path@),
    {
        MessageSingleDownloader::CancelDownload(file_path)
    }

    /// The downloads of a user end for good.
    pub fn remove_user(&self) -> (m: MessageSingleDownloader)
        ensures
            m@ == OrderView::RemoveUser,
    {
        MessageSingleDownloader::RemoveUser
    }

    /// How selected files get into the queues of their owners.
    pub fn download_selected(&self, downloads: Vec<SelectedDownload>) -> (v: Vec<QueuedDownload>)
        ensures
            v@.len() == downloads@.len(),
            forall|i: int|
                0 <= i < v@.len() ==> (#[trigger] v@[i])@ == queued_download(
                    self.config@.file.shared_users,
                    downloads@[i],
                ),
    {
        let users = self.config.get_shared_users();
        let mut v: Vec<QueuedDownload> = Vec::new();
        let mut i: usize = 0;
        while i < downloads.len()
            invariant
                i <= downloads@.len(),
                users.deep_view() == self.config@.file.shared_users,
                v@.len() == i,
                forall|k: int|
                    0 <= k < i ==> (#[trigger] v@[k])@ == queued_download(
                        self.config@.file.shared_users,
                        downloads@[k],
                    ),
            decreases downloads@.len() - i,
        {
            let owner = downloads[i].owner.clone();
            let path = downloads[i].path.clone();
            let file_size: u64 = downloads[i].file_size;
            let queue_line = queue_file_line(file_size, path.as_str());
            let user = match find_nickname(&users, owner.as_str()) {
                Some(k) => {
                    assert(users.deep_view()[k as int] == users@[k as int]@);
                    Some(users[k].clone())
                },
                None => None,
            };
            v.push(
                QueuedDownload {
                    owner,
                    item: DownloadQueueItem { path, file_size },
                    queue_line,
                    user,
                },
            );
            i += 1;
        }
        v
    }

    /// Notes that the files of all users are being looked up. The result is whose files are looked
    /// up, each with the failure where nothing is known of the user.
    pub fn start_refresh_shared_with_me_all(&mut self) -> (v: Vec<(String, Option<String>)>)
        ensures
            final(self).config == old(self).config,
            final(self).is_downloading_paused == old(self).is_downloading_paused,
            (final(self).refresh_data@, lookup_views(v@)) == lookups(
                old(self).refresh_data@,
                old(self).config@.file.shared_users,
            ),
    {
        let users = self.config.get_shared_users();
        let ghost start = self.refresh_data@;
        let ghost all = users.deep_view();
        let mut v: Vec<(String, Option<String>)> = Vec::new();
        let mut i: usize = 0;
        assert(all.take(0) =~= seq![]);
        assert(lookup_views(v@) =~= seq![]);
        while i < users.len()
            invariant
                i <= users@.len(),
                all == users.deep_view(),
                self.config == old(self).config,
                self.is_downloading_paused == old(self).is_downloading_paused,
                (self.refresh_data@, lookup_views(v@)) == lookups(start, all.take(i as int)),
            decreases users@.len() - i,
        {
            proof {
                assert(all.take(i + 1).drop_last() =~= all.take(i as int));
                assert(all.take(i + 1).last() == users@[i as int]@);
            }
            let nickname = users[i].nickname.clone();
            let failure = match self.start_refresh_shared_with_me_single_user(nickname.as_str()) {
                Ok(()) => None,
                Err(e) => Some(e),
            };
            let ghost before = v@;
            v.push((nickname, failure));
            assert(lookup_views(v@) =~= lookup_views(before).push((nickname@, opt_text(failure))));
            i += 1;
        }
        assert(all.take(i as int) =~= all);
        v
    }

    /// Notes that the files of a user are being looked up.
    pub fn start_refresh_shared_with_me_single_user(&mut self, nickname: &str) -> (r: Result<
        (),
        String,
    >)
        ensures
            final(self).config == old(self).config,
            final(self).is_downloading_paused == old(self).is_downloading_paused,
            if old(self).refresh_data@.dom().contains(nickname@) {
                r is Ok && final(self).refresh_data@ == old(self).refresh_data@.insert(
                    nickname@,
                    RefreshView { in_progress: true, ..old(self).refresh_data@[nickname@] },
                )
            } else {
                r is Err && r->Err_0@ == "Start refresh with missing key: '"@ + nickname@ + "'"@
                    && final(self).refresh_data@ == old(self).refresh_data@
            },
    {
        let ghost map = self.refresh_data@;
        match self.refresh_data.remove(nickname) {
            Some(data) => {
                let mut data = data;
                data.in_progress = true;
                self.refresh_data.insert(nickname.to_owned(), data);
                assert(self.refresh_data@ =~= map.insert(nickname@, data@));
                Ok(())
            },
            None => {
                assert(self.refresh_data@ =~= map);
                Err(cat3("Start refresh with missing key: '", nickname, "'"))
            },
        }
    }

    /// Notes what came out of looking up the files of a user.
    pub fn finish_refresh(&mut self, nickname: &str, poll: RefreshPoll)
        ensures
            final(self).config == old(self).config,
            final(self).is_downloading_paused == old(self).is_downloading_paused,
            final(self).refresh_data@ == if old(self).refresh_data@.dom().contains(nickname@)
                && old(self).refresh_data@[nickname@].in_progress {
                old(self).refresh_data@.insert(
                    nickname@,
                    polled(old(self).refresh_data@[nickname@], poll),
                )
            } else {
                old(self).refresh_data@
            },
    {
        let ghost map = self.refresh_data@;
        match self.refresh_data.remove(nickname) {
            Some(data) => {
                let mut data = data;
                let ghost before = data@;
                if data.in_progress {
                    match poll {
                        RefreshPoll::Message(RefreshSharedMessages::FileData(Ok(file))) => {
                            data.error = None;
                            data.data = Some(file);
                            data.in_progress = false;
                        },
                        RefreshPoll::Message(RefreshSharedMessages::FileData(Err(e))) => {
                            data.error = Some(e);
                            data.in_progress = false;
                        },
                        RefreshPoll::Empty => {},
                        RefreshPoll::Disconnected => {
                            data.error = Some(
                                "Transmitic Error: Channel disconnected before refresh data was received.".to_owned(),
                            );
                            data.in_progress = false;
                        },
                    }
                    assert(data@ == polled(before, poll));
                }
                self.refresh_data.insert(nickname.to_owned(), data);
                assert(self.refresh_data@ =~= map.insert(nickname@, data@));
                assert(map.insert(nickname@, before) =~= map);
            },
            None => {
                assert(self.refresh_data@ =~= map);
            },
        }
    }

    /// Notes the files of a user as a downloader has got them.
    pub fn set_refreshed(&mut self, nickname: &str, everything_file: SharedFile)
        ensures
            final(self).config == old(self).config,
            final(self).is_downloading_paused == old(self).is_downloading_paused,
            final(self).refresh_data@ == old(self).refresh_data@.insert(
                nickname@,
                RefreshView { error: None, data: Some(everything_file@), in_progress: false },
            ),
    {
        self.refresh_data.insert(
            nickname.to_owned(),
            InternalRefreshData {
                error: None,
                data: Some(everything_file),
                in_progress: false,
            },
        );
    }

    /// What is known of the files that a user shares.
    fn shared_with_me_data_of(&self, nickname: &str) -> (r: Option<RefreshData>)
        ensures
            match r {
                Some(d) => self.refresh_data@.dom().contains(nickname@) && d@ == refresh_data_of(
                    nickname@,
                    self.refresh_data@[nickname@],
                ),
                None => !self.refresh_data@.dom().contains(nickname@),
            },
    {
        match self.refresh_data.get(nickname) {
            None => None,
            Some(data) => {
                let error = match &data.error {
                    Some(e) => Some(e.clone()),
                    None => None,
                };
                let file = match &data.data {
                    Some(f) => Some(f.clone()),
                    None => None,
                };
                Some(
                    RefreshData {
                        owner: nickname.to_owned(),
                        error,
                        data: file,
                        in_progress: data.in_progress,
                    },
                )
            },
        }
    }

    /// What is known of the files that the users share.
    pub fn get_shared_with_me_data(&self) -> (m: NameMap<RefreshData>)
        ensures
            m@ == shared_with_me(self.refresh_data@),
    {
        let names = self.refresh_data.keys();
        let ghost all = names.deep_view();
        let ghost map = self.refresh_data@;
        let mut m: NameMap<RefreshData> = NameMap::new();
        let mut i: usize = 0;
        while i < names.len()
            invariant
                i <= names@.len(),
                all == names.deep_view(),
                map == self.refresh_data@,
                forall|name: Seq<char>| #[trigger] all.contains(name) <==> map.dom().contains(name),
                forall|name: Seq<char>| #[trigger]
                    m@.dom().contains(name) <==> all.take(i as int).contains(name),
                forall|name: Seq<char>| #[trigger]
                    m@.dom().contains(name) ==> m@[name] == refresh_data_of(name, map[name]),
            decreases names@.len() - i,
        {
            let ghost name = names@[i as int]@;
            let ghost here = all.take(i as int);
            let ghost next = all.take(i + 1);
            proof {
                assert(all[i as int] == name);
                assert(all.contains(name));
                assert(next =~= here.push(name));
                assert forall|n: Seq<char>| #[trigger] next.contains(n) <==> here.contains(n) || n
                    == name by {
                    if here.contains(n) {
                        let k = choose|k: int| 0 <= k < here.len() && here[k] == n;
                        assert(next[k] == n);
                    }
                    assert(next[i as int] == name);
                    if next.contains(n) && n != name {
                        let k = choose|k: int| 0 <= k < next.len() && next[k] == n;
                        assert(here[k] == n);
                    }
                }
            }
            match self.shared_with_me_data_of(names[i].as_str()) {
                Some(data) => m.insert(names[i].clone(), data),
                None => {},
            }
            i += 1;
        }
        assert(all.take(i as int) =~= all);
        assert(m@ =~= shared_with_me(map));
        m
    }
}

/// The report that a downloader is gone.
pub fn downloader_exited(nickname: &str) -> (m: AppAggMessage)
    ensures
        m@ == ReportView::Log(LogLevel::Debug, "Downloader run loop exit. "@ + nickname@),
{
    AppAggMessage::LogDebug(cat2("Downloader run loop exit. ", nickname))
}

/// What follows when a downloader has ended.
pub struct RunEnd {
    pub continue_run: bool,
    pub messages: Vec<AppAggMessage>,
    pub sleep_secs: u64,
}

/// What follows when a downloader has ended: it is started again, unless it ended by itself or
/// nobody is left to tell it anything.
pub fn downloader_ended(nickname: &str, result: Result<(), String>) -> (end: RunEnd)
    ensures
        match result {
            Ok(()) => !end.continue_run && end.messages@.len() == 0 && end.sleep_secs == 0,
            Err(e) => {
                let log = ReportView::Log(
                    LogLevel::Error,
                    "Downloader run error. '"@ + nickname@ + "' - "@ + e@,
                );
                &&& end.continue_run == (e@ != ERR_REC_DISCONNECTED@)
                &&& if has_prefix(e@, ERR_REMOTE_ID_MISMATCH@) {
                    reports(end.messages@) == seq![
                        log,
                        ReportView::OfflineError {
                            nickname: nickname@,
                            error: ERR_REMOTE_ID_MISMATCH@,
                        },
                    ] && end.sleep_secs == 30
                } else {
                    reports(end.messages@) == seq![log] && end.sleep_secs == 0
                }
            },
        },
{
    let mut messages: Vec<AppAggMessage> = Vec::new();
    match result {
        Ok(()) => RunEnd { continue_run: false, messages, sleep_secs: 0 },
        Err(e) => {
            let mut text = cat3("Downloader run error. '", nickname, "' - ");
            text.push_str(e.as_str());
            messages.push(AppAggMessage::LogError(text));
            let continue_run = !str_eq(e.as_str(), ERR_REC_DISCONNECTED);
            if starts_with(e.as_str(), ERR_REMOTE_ID_MISMATCH) {
                messages.push(
                    AppAggMessage::OfflineError(
                        OfflineErrorMessage {
                            nickname: nickname.to_owned(),
                            error: ERR_REMOTE_ID_MISMATCH.to_owned(),
                        },
                    ),
                );
                assert(reports(messages@) =~= seq![
                    ReportView::Log(LogLevel::Error, text@),
                    ReportView::OfflineError {
                        nickname: nickname@,
                        error: ERR_REMOTE_ID_MISMATCH@,
                    },
                ]);
                RunEnd { continue_run, messages, sleep_secs: 30 }
            } else {
                assert(reports(messages@) =~= seq![ReportView::Log(LogLevel::Error, text@)]);
                RunEnd { continue_run, messages, sleep_secs: 0 }
            }
        },
    }
}

/// A queued file whose size is as listed is asked for from where it ends exactly where bytes of it
/// are missing, be it there already or not; it is then neither finished nor reported. It is
/// reported as completed exactly where all bytes are there, and as not valid exactly where there
/// are more; both take it off the queue. A file is made only where it is empty and not there.
pub proof fn law_missing_bytes_are_asked_for(
    queued: ItemView,
    bytes: nat,
    nickname: Seq<char>,
    exists_: bool,
    len: u64,
)
    ensures
        ({
            let p = file_plan(
                queued,
                bytes,
                nickname,
                queued.path,
                queued.file_size,
                exists_,
                len,
            );
            &&& p.outcome is Request <==> len < queued.file_size
            &&& p.outcome is Request ==> p.outcome == FileOutcomeView::Request(
                MSG_FILE_SELECTION_CONTINUE,
                selection(len, queued.path),
            ) && p.report is Nothing
            &&& p.report is Completed <==> len == queued.file_size
            &&& p.report is Completed ==> p.report->Completed_0 == queued.path
            &&& p.report is Invalid <==> len > queued.file_size
            &&& p.report is Invalid ==> p.report->Invalid_0 == queued.path
            &&& p.finish <==> len >= queued.file_size
            &&& p.outcome is Return <==> len >= queued.file_size
            &&& p.create_file <==> !exists_ && len == 0 && queued.file_size == 0
        }),
{
}

/// A queued file whose listed size has changed is given up: it is taken off the queue and reported
/// as not valid, and nothing is asked for.
pub proof fn law_changed_size_is_given_up(
    queued: ItemView,
    bytes: nat,
    nickname: Seq<char>,
    file_size: u64,
    exists_: bool,
    len: u64,
)
    requires
        file_size != queued.file_size,
    ensures
        ({
            let p = file_plan(queued, bytes, nickname, queued.path, file_size, exists_, len);
            &&& p.outcome is Return && p.finish && !p.create_file
            &&& p.report matches FileReportView::Invalid(path, _) && path == queued.path
        }),
{
}

/// A file of a queued directory is asked for from where it ends exactly where bytes of it are
/// missing, as long as no more is there of the directory than it is to have. It never finishes the
/// directory and is never reported as completed; where it is too long, it is reported by itself.
/// Where more is there of the directory than it is to have, the directory is given up.
pub proof fn law_files_of_directory_are_asked_for(
    queued: ItemView,
    bytes: nat,
    nickname: Seq<char>,
    path: Seq<char>,
    file_size: u64,
    exists_: bool,
    len: u64,
)
    requires
        path != queued.path,
    ensures
        ({
            let p = file_plan(queued, bytes, nickname, path, file_size, exists_, len);
            &&& p.outcome is Fail <==> bytes > queued.file_size
            &&& p.finish <==> bytes > queued.file_size
            &&& p.outcome is Request <==> bytes <= queued.file_size && len < file_size
            &&& p.outcome is Request ==> p.outcome == FileOutcomeView::Request(
                MSG_FILE_SELECTION_CONTINUE,
                selection(len, path),
            ) && p.report is Nothing
            &&& p.outcome is Return <==> bytes <= queued.file_size && len >= file_size
            &&& p.report !is Completed
            &&& p.outcome is Fail ==> p.report is Invalid && p.report->Invalid_0 == queued.path
            &&& p.outcome is Return && len > file_size ==> p.report is Invalid
                && p.report->Invalid_0 == path
            &&& p.outcome is Return && len == file_size ==> p.report is Log
            &&& p.create_file <==> bytes <= queued.file_size && !exists_ && len == 0 && file_size
                == 0
        }),
{
}

/// A part of a file that has come is followed by the next one exactly where neither side takes the
/// file for whole; nothing is reported then. Where both do, the file is done, which is reported of
/// the queued file only; where one does, it is given up, and so is what it was queued as.
pub proof fn law_part_of_file_is_judged(
    queued: ItemView,
    path: Seq<char>,
    file_size: u64,
    message: u16,
    current: u64,
)
    ensures
        ({
            let p = chunk_plan(queued, path, file_size, message, current);
            let here = current == if path == queued.path {
                queued.file_size
            } else {
                file_size
            };
            let there = message == MSG_FILE_FINISHED;
            &&& p.outcome is ReadNext <==> !here && !there
            &&& p.outcome is Return <==> here && there
            &&& p.outcome is Fail <==> here != there
            &&& p.finish <==> path == queued.path && (here || there)
            &&& p.report is Completed <==> path == queued.path && here && there
            &&& p.report is Completed ==> p.report->Completed_0 == path
            &&& p.report is Invalid <==> here != there
            &&& p.report is Invalid ==> p.report->Invalid_0 == path
            &&& !p.create_file
        }),
{
}

/// Every part of a file that the other side sends is taken for one, and no message that refuses a
/// request is.
pub proof fn law_parts_are_accepted(sent: u64, read: u64, file_size: u64)
    ensures
        is_file_part(chunk_message(sent, read, file_size)),
        !is_file_part(MSG_FILE_INVALID_FILE),
        !is_file_part(MSG_CANNOT_SELECT_DIRECTORY),
{
}

/// All files of a tree that are no directories, in order.
pub open spec fn leaves(f: FileView) -> Seq<FileView>
    decreases f, 0int,
{
    if f.is_directory {
        leaves_from(f.files, 0)
    } else {
        seq![f]
    }
}

pub open spec fn leaves_from(files: Seq<FileView>, i: int) -> Seq<FileView>
    decreases files, files.len() - i,
{
    if 0 <= i < files.len() {
        leaves(files[i]) + leaves_from(files, i + 1)
    } else {
        seq![]
    }
}

/// Whether what is no directory holds no files, at every depth.
pub open spec fn is_proper(f: FileView) -> bool
    decreases f,
{
    &&& !f.is_directory ==> f.files.len() == 0
    &&& forall|i: int| #![trigger f.files[i]] 0 <= i < f.files.len() ==> is_proper(f.files[i])
}

proof fn lemma_leaves_from(files: Seq<FileView>, from: int, g: FileView)
    requires
        0 <= from <= files.len(),
    ensures
        leaves_from(files, from).contains(g) ==> !g.is_directory && exists|i: int|
            #![trigger files[i]]
            from <= i < files.len() && is_within(g, files[i]),
        !g.is_directory ==> forall|i: int|
            #![trigger files[i]]
            from <= i < files.len() && is_proper(files[i]) && is_within(g, files[i])
                ==> leaves_from(files, from).contains(g),
    decreases files, files.len() - from,
{
    if from < files.len() {
        let first = leaves(files[from]);
        let rest = leaves_from(files, from + 1);
        let all = leaves_from(files, from);
        law_leaves_are_the_files(files[from], g);
        lemma_leaves_from(files, from + 1, g);
        if all.contains(g) {
            let k = choose|k: int| 0 <= k < all.len() && all[k] == g;
            if k < first.len() {
                assert(first[k] == g);
                assert(is_within(g, files[from]));
            } else {
                assert(rest[k - first.len()] == g);
            }
        }
        if first.contains(g) {
            let k = choose|k: int| 0 <= k < first.len() && first[k] == g;
            assert(all[k] == g);
        }
        if rest.contains(g) {
            let k = choose|k: int| 0 <= k < rest.len() && rest[k] == g;
            assert(all[first.len() + k] == g);
        }
    }
}

/// The leaves of a tree are the files in it that are no directories.
pub proof fn law_leaves_are_the_files(f: FileView, g: FileView)
    ensures
        leaves(f).contains(g) ==> !g.is_directory && is_within(g, f),
        is_proper(f) && !g.is_directory && is_within(g, f) ==> leaves(f).contains(g),
    decreases f, 0int,
{
    if f.is_directory {
        lemma_leaves_from(f.files, 0, g);
        if leaves(f).contains(g) {
            let i = choose|i: int|
                #![trigger f.files[i]]
                0 <= i < f.files.len() && is_within(g, f.files[i]);
            assert(is_within(g, f.files[i]));
        }
        if is_proper(f) && !g.is_directory && is_within(g, f) {
            let i = choose|i: int|
                #![trigger f.files[i]]
                0 <= i < f.files.len() && is_within(g, f.files[i]);
            assert(is_proper(f.files[i]));
            assert(leaves_from(f.files, 0).contains(g));
        }
    } else {
        if leaves(f).contains(g) {
            assert(g == f);
        }
        if is_proper(f) && is_within(g, f) {
            assert(g == f);
            assert(leaves(f)[0] == g);
        }
    }
}

/// Whether every file and directory of a tree has a name to be saved under.
pub open spec fn is_all_named(f: FileView, t: NameTreeView) -> bool
    decreases f,
{
    &&& t.name is Name
    &&& f.is_directory ==> forall|i: int|
        #![trigger f.files[i]]
        0 <= i < f.files.len() ==> is_all_named(f.files[i], t.children[i])
}

/// Whether steps download the files of a list one by one, up to the first that cannot be named.
pub open spec fn are_steps_for(s: Seq<StepView>, files: Seq<FileView>) -> bool {
    &&& forall|k: int|
        #![trigger s[k]]
        0 <= k < s.len() ==> (s[k] matches StepView::File { path, file_size, .. } ==> k
            < files.len() && path == files[k].path && file_size == files[k].file_size)
    &&& forall|k: int| #![trigger s[k]] 0 <= k < s.len() - 1 ==> s[k] is File
    &&& !is_cut_short(s) ==> s.len() == files.len()
}

proof fn lemma_steps_from_ask(
    files: Seq<FileView>,
    names: Seq<NameTreeView>,
    directory: Seq<char>,
    separator: char,
    i: int,
)
    requires
        0 <= i <= files.len(),
    ensures
        are_steps_for(
            steps_from(files, names, directory, separator, i),
            leaves_from(files, i),
        ),
        is_cut_short(steps_from(files, names, directory, separator, i)) <==> exists|k: int|
            #![trigger files[k]]
            i <= k < files.len() && !is_all_named(files[k], names[k]),
    decreases files, files.len() - i,
{
    if i < files.len() {
        let first = steps(files[i], names[i], directory, separator);
        let rest = steps_from(files, names, directory, separator, i + 1);
        let all = steps_from(files, names, directory, separator, i);
        let a = leaves(files[i]);
        let b = leaves_from(files, i + 1);
        law_all_files_are_asked_for(files[i], names[i], directory, separator);
        lemma_steps_from_ask(files, names, directory, separator, i + 1);
        assert(files[i] == files[i]);
        if is_cut_short(first) {
            assert forall|k: int| #![trigger all[k]] 0 <= k < all.len() implies (
            all[k] matches StepView::File { path, file_size, .. } ==> k < (a + b).len() && path
                == (a + b)[k].path && file_size == (a + b)[k].file_size) by {
                assert(first[k] == all[k]);
            }
        } else {
            assert(first.len() == a.len());
            assert forall|k: int| #![trigger all[k]] 0 <= k < all.len() implies (
            all[k] matches StepView::File { path, file_size, .. } ==> k < (a + b).len() && path
                == (a + b)[k].path && file_size == (a + b)[k].file_size) by {
                if k < first.len() {
                    assert(first[k] == all[k]);
                } else {
                    assert(rest[k - first.len()] == all[k]);
                }
            }
            assert forall|k: int| #![trigger all[k]] 0 <= k < all.len() - 1 implies all[k]
                is File by {
                if k < first.len() {
                    assert(first[k] == all[k]);
                    if k == first.len() - 1 {
                        assert(first.last() is File);
                    }
                } else {
                    assert(rest[k - first.len()] == all[k]);
                }
            }
            if rest.len() > 0 {
                assert(all.last() == rest.last());
            } else if first.len() > 0 {
                assert(all.last() == first.last());
            }
        }
    }
}

/// A download asks for every file of what is downloaded once and in order, by the path that the
/// owner shares it under and with the size that is listed, and for nothing else. It stops early
/// exactly where a file or directory has no name to be saved under.
pub proof fn law_all_files_are_asked_for(
    f: FileView,
    t: NameTreeView,
    directory: Seq<char>,
    separator: char,
)
    ensures
        are_steps_for(steps(f, t, directory, separator), leaves(f)),
        is_cut_short(steps(f, t, directory, separator)) <==> !is_all_named(f, t),
    decreases f, 0int,
{
    if t.name is Name && f.is_directory {
        let sub = (directory + t.name->Name_0).push(separator);
        lemma_steps_from_ask(f.files, t.children, sub, separator, 0);
    }
}

/// A file is asked for only where it is within what is downloaded and is no directory; where all
/// names are found, every such file is.
pub proof fn law_asked_files_are_shared(
    f: FileView,
    t: NameTreeView,
    directory: Seq<char>,
    separator: char,
    k: int,
    g: FileView,
)
    requires
        0 <= k < steps(f, t, directory, separator).len(),
    ensures
        steps(f, t, directory, separator)[k] matches StepView::File { path, file_size, .. }
            ==> exists|h: FileView| #[trigger]
            is_within(h, f) && !h.is_directory && h.path == path && h.file_size == file_size,
        is_all_named(f, t) && is_proper(f) && is_within(g, f) && !g.is_directory ==> exists|i: int|
            0 <= i < steps(f, t, directory, separator).len() && (
            #[trigger] steps(f, t, directory, separator)[i] matches StepView::File {
                path,
                file_size,
                ..
            } && path == g.path && file_size == g.file_size),
{
    let s = steps(f, t, directory, separator);
    law_all_files_are_asked_for(f, t, directory, separator);
    if s[k] is File {
        let h = leaves(f)[k];
        assert(leaves(f).contains(h));
        law_leaves_are_the_files(f, h);
    }
    if is_all_named(f, t) && is_proper(f) && is_within(g, f) && !g.is_directory {
        law_leaves_are_the_files(f, g);
        let i = choose|i: int| 0 <= i < leaves(f).len() && leaves(f)[i] == g;
        assert(s[i] is File) by {
            if i == s.len() - 1 {
                assert(s.last() is File);
            }
        }
    }
}

proof fn lemma_steps_from_children(
    files: Seq<FileView>,
    names: Seq<NameTreeView>,
    directory: Seq<char>,
    separator: char,
    from: int,
    k: int,
)
    requires
        0 <= from <= files.len(),
        0 <= k < steps_from(files, names, directory, separator, from).len(),
    ensures
        exists|i: int|
            #![trigger files[i]]
            from <= i < files.len() && steps(
                files[i],
                names[i],
                directory,
                separator,
            ).contains(steps_from(files, names, directory, separator, from)[k]),
    decreases files.len() - from,
{
    if from < files.len() {
        let first = steps(files[from], names[from], directory, separator);
        let all = steps_from(files, names, directory, separator, from);
        if k < first.len() {
            assert(first[k] == all[k]);
            assert(first.contains(all[k]));
            assert(files[from] == files[from]);
        } else {
            let rest = steps_from(files, names, directory, separator, from + 1);
            assert(rest[k - first.len()] == all[k]);
            lemma_steps_from_children(
                files,
                names,
                directory,
                separator,
                from + 1,
                k - first.len(),
            );
        }
    }
}

/// A file is saved in the directory for it, under its name. What is in a directory is saved as it
/// would be by itself, in a directory of that name.
pub proof fn law_places_follow_names(
    f: FileView,
    t: NameTreeView,
    directory: Seq<char>,
    separator: char,
    k: int,
)
    requires
        t.name is Name,
        0 <= k < steps(f, t, directory, separator).len(),
    ensures
        ({
            let s = steps(f, t, directory, separator);
            let name = t.name->Name_0;
            &&& !f.is_directory ==> s.len() == 1 && (s[0] matches StepView::File {
                directory: d,
                destination,
                ..
            } && d == directory && destination == directory + name)
            &&& f.is_directory ==> exists|i: int|
                #![trigger f.files[i]]
                0 <= i < f.files.len() && steps(
                    f.files[i],
                    t.children[i],
                    directory + name + seq![separator],
                    separator,
                ).contains(s[k])
        }),
{
    if f.is_directory {
        let sub = (directory + t.name->Name_0).push(separator);
        assert(sub =~= directory + t.name->Name_0 + seq![separator]);
        lemma_steps_from_children(f.files, t.children, sub, separator, 0, k);
    }
}

/// What a downloader does next depends on what it was told: it ends where its user was removed,
/// waits where it is paused or has nothing to do, uses a connection that the other user has opened
/// before it opens one itself, and connects only where something waits. Nothing of its queue is
/// lost, and an order to stop is taken back once it has been followed.
pub proof fn law_next_step(d: DownloaderView)
    ensures
        ({
            let (e, step) = next_step(d);
            &&& step is Shutdown <==> d.shutdown
            &&& step is UseReverseConnection <==> !d.shutdown && !d.paused && d.reverse
            &&& step is Connect <==> !d.shutdown && !d.paused && !d.reverse && d.queue.len() > 0
            &&& step is SleepMillis <==> !d.shutdown && (d.paused || (d.queue.len() == 0
                && !d.reverse))
            &&& e.queue == d.queue && e.active == d.active && e.user == d.user
            &&& e.config == d.config && e.paused == d.paused && e.shutdown == d.shutdown
            &&& e.size == d.size && e.bytes == d.bytes && e.local_path == d.local_path
            &&& e.total_size == d.total_size
            &&& e.reverse == (d.reverse && !(step is UseReverseConnection))
            &&& e.stop == (d.stop && d.shutdown)
        }),
{
}

/// A new download waits behind all others, which is written down, and stops nothing. A new user or
/// a new configuration takes the place of the old one and leaves the queue. Only where downloads
/// are cancelled does the queue change, only where they are paused or resumed does that, and only
/// where the user is removed does the downloader end.
pub proof fn law_orders_do_no_more(d: DownloaderView, m: OrderView)
    ensures
        ({
            let (e, todo) = ordered(d, m);
            &&& m matches OrderView::NewDownload(item) ==> {
                &&& e.queue.len() == d.queue.len() + 1
                &&& e.queue.last() == item
                &&& e.queue.drop_last() == d.queue
                &&& e.stop == d.stop
            }
            &&& !(m is NewDownload || m is CancelDownload || m is CancelAllDownloads
                || m is RemoveUser) ==> e.queue == d.queue && e.active == d.active
            &&& m is NewDownload || m is CancelDownload || m is CancelAllDownloads || m is RemoveUser
                <==> exists|i: int| 0 <= i < todo.len() && #[trigger] todo[i] is WriteQueue
            &&& e.user == (if m is NewSharedUser {
                m->NewSharedUser_0
            } else {
                d.user
            })
            &&& e.config == (if m is NewConfig {
                m->NewConfig_0
            } else {
                d.config
            })
            &&& e.paused == (m is PauseDownloads || (d.paused && !(m is ResumeDownloads)))
            &&& e.shutdown == (m is RemoveUser || d.shutdown)
            &&& e.stop == (d.stop || !(m is NewDownload || m is ResumeDownloads))
            &&& e.reverse == d.reverse && e.size == d.size && e.bytes == d.bytes
            &&& e.local_path == d.local_path && e.total_size == d.total_size
        }),
{
    let (e, todo) = ordered(d, m);
    if m is NewDownload {
        assert(e.queue.drop_last() =~= d.queue);
    }
    if m is NewDownload || m is CancelDownload || m is CancelAllDownloads || m is RemoveUser {
        assert(todo[0] is WriteQueue);
    }
}

proof fn lemma_without_is_filter(queue: Seq<ItemView>, path: Seq<char>)
    ensures
        without(queue, path) == queue.filter(|i: ItemView| i.path != path),
    decreases queue.len(),
{
    reveal(Seq::filter);
    if queue.len() > 0 {
        lemma_without_is_filter(queue.drop_last(), path);
    }
}

/// What is left of a queue after a download was cancelled stays in order, and an active download
/// with another path goes on being the active one.
pub proof fn law_cancelling_keeps_order(d: DownloaderView, path: Seq<char>)
    ensures
        ordered(d, OrderView::CancelDownload(path)).0.queue == d.queue.filter(
            |i: ItemView| i.path != path,
        ),
        active_path(d) != Some(path) ==> ordered(d, OrderView::CancelDownload(path)).0.active
            == d.active,
{
    lemma_without_is_filter(d.queue, path);
}

/// What is shown to wait are the paths of the queue in order, but for the active one.
pub proof fn law_waiting_is_shown(d: DownloaderView)
    ensures
        d.active is None ==> waiting(d) == d.queue.map_values(|i: ItemView| i.path),
        d.active matches Some(item) ==> waiting(d) == d.queue.filter(
            |i: ItemView| i.path != item.path,
        ).map_values(|i: ItemView| i.path),
        active_path(d) is Some <==> d.active is Some,
        d.active matches Some(item) ==> active_path(d) == Some(item.path),
{
    match d.active {
        None => {
            assert(waiting(d) =~= d.queue.map_values(|i: ItemView| i.path));
        },
        Some(item) => {
            lemma_without_is_filter(d.queue, item.path);
            assert(waiting(d) =~= d.queue.filter(|i: ItemView| i.path != item.path).map_values(
                |i: ItemView| i.path,
            ));
        },
    }
}

/// The first download of a queue is the next one. It starts with what is shared under its path, and
/// is given up only where nothing is.
pub proof fn law_first_download_is_next(queue: Seq<ItemView>, everything_file: FileView)
    ensures
        match next_wanted(queue, everything_file) {
            NextView::Nothing => queue.len() == 0,
            NextView::NoLongerShared(path) => queue.len() > 0 && path == queue[0].path && forall|
                g: FileView,
            | #[trigger]
                is_within(g, everything_file) ==> g.path != path,
            NextView::Start(item, file) => queue.len() > 0 && item == queue[0] && file.path
                == item.path && is_within(file, everything_file),
        },
{
    if queue.len() > 0 {
        law_file_at(queue[0].path, everything_file);
    }
}

/// A download that has started is the active one, with the size that is listed and nothing of it
/// counted yet; it stays in the queue until it is finished, and then it alone is gone from it.
pub proof fn law_download_starts_and_ends(
    d: DownloaderView,
    item: ItemView,
    f: FileView,
    root: Seq<char>,
    name: Seq<char>,
)
    ensures
        ({
            let e = with_active(d, item, f, place_of_download(f, root, name));
            &&& e.active == Some(item)
            &&& e.bytes == 0 && e.size == f.file_size && e.total_size == f.size_string
            &&& e.local_path == Some(
                if f.is_directory {
                    root + name
                } else {
                    root
                },
            )
            &&& e.queue == d.queue && e.user == d.user && e.config == d.config
            &&& e.paused == d.paused && e.stop == d.stop && e.shutdown == d.shutdown
            &&& e.reverse == d.reverse
        }),
        d.queue.len() > 0 ==> d.queue == seq![d.queue[0]] + without_first(d).queue,
        d.queue.len() == 0 ==> without_first(d).queue.len() == 0,
        without_first(d) == (DownloaderView { queue: without_first(d).queue, ..d }),
{
    if d.queue.len() > 0 {
        assert(d.queue =~= seq![d.queue[0]] + without_first(d).queue);
    }
}

/// A line of the queue file says a download exactly where a size stands before the first colon in
/// it, without white space around the line; the path is what stands behind that colon. Only blank
/// lines say nothing.
pub proof fn law_queue_line_is_read(line: Seq<char>)
    ensures
        match line_meaning(line) {
            LineView::Blank => trimmed(line).len() == 0,
            LineView::Item(item) => exists|size: Seq<char>|
                trimmed(line) == size + seq![':'] + item.path && !size.contains(':')
                    && #[trigger] u64_value(size) == Some(item.file_size),
            LineView::NoSeparator(t) => t == trimmed(line) && t.len() > 0 && !t.contains(':'),
            LineView::NoSize(t) => t == trimmed(line) && t.contains(':'),
        },
{
    let t = trimmed(line);
    if t.len() > 0 {
        let n = place_of(t, ':', 0);
        lemma_place_of(t, ':', 0);
        match split_at_first(t, ':') {
            None => {
                if t.contains(':') {
                    let i = choose|i: int| 0 <= i < t.len() && t[i] == ':';
                    assert(t[i] != ':');
                }
            },
            Some((size, path)) => {
                assert(t[n] == ':');
                assert(t =~= size + seq![':'] + path);
                if size.contains(':') {
                    let i = choose|i: int| 0 <= i < size.len() && size[i] == ':';
                    assert(t[i] == ':');
                }
            },
        }
    }
}

/// A queue file is read without an error exactly where each of its lines is blank or says a
/// download.
pub proof fn law_bad_queue_is_refused(lines: Seq<Seq<char>>, nickname: Seq<char>, from: int)
    requires
        0 <= from <= lines.len(),
    ensures
        queue_of(lines, nickname, from).1 is None <==> forall|i: int|
            from <= i < lines.len() ==> line_meaning(#[trigger] lines[i]) is Blank || line_meaning(
                lines[i],
            ) is Item,
        queue_of(lines, nickname, from).0.len() <= lines.len() - from,
    decreases lines.len() - from,
{
    if from < lines.len() {
        law_bad_queue_is_refused(lines, nickname, from + 1);
    }
}

/// The wait before the next attempt grows by a step each time, up to the longest one.
pub proof fn law_retries_slow_down(sleep_secs: u64, max: u64)
    ensures
        next_retry(sleep_secs, max) <= max,
        sleep_secs + RETRY_SLEEP <= max ==> next_retry(sleep_secs, max) == sleep_secs + RETRY_SLEEP,
        sleep_secs + RETRY_SLEEP > max ==> next_retry(sleep_secs, max) == max,
{
}

/// What is left of a list of files once pieces of it have come.
pub open spec fn collected(s: Seq<(u16, Seq<u8>)>) -> Seq<u8>
    decreases s.len(),
{
    if s.len() == 0 {
        seq![]
    } else {
        with_piece(collected(s.drop_last()), s.last().1)
    }
}

proof fn lemma_collected_is_joined(s: Seq<(u16, Seq<u8>)>)
    ensures
        collected(s) == joined(s),
    decreases s.len(),
{
    if s.len() == 1 {
        assert(collected(s.drop_last()) =~= seq![]);
        assert(joined(s.skip(1)) =~= seq![]);
        assert(collected(s) =~= joined(s));
    } else if s.len() > 1 {
        let front = s.drop_last();
        let back = s.skip(1);
        lemma_collected_is_joined(front);
        lemma_collected_is_joined(back);
        lemma_collected_is_joined(back.drop_last());
        assert(front.skip(1) =~= back.drop_last());
        assert(back.last() == s.last());
        assert(front[0] == s[0]);
        let middle = joined(back.drop_last());
        assert(joined(front) == s[0].1 + middle);
        assert(joined(back) == middle + s.last().1);
        assert(collected(s) =~= joined(s));
    }
}

/// The pieces in which a list of files is sent are put together to that list, and the last of them,
/// no other, is taken for the last.
pub proof fn law_list_arrives(bytes: Seq<u8>, i: int)
    requires
        0 <= i < list_pieces(bytes).len(),
    ensures
        collected(list_pieces(bytes)) == bytes,
        is_list_end(list_pieces(bytes)[i].0) <==> i == list_pieces(bytes).len() - 1,
{
    law_pieces_make_up_the_list(bytes);
    lemma_collected_is_joined(list_pieces(bytes));
}

/// Of the users of a configuration, and of nobody else, is it known what they share: what was known
/// stays, and of a new user nothing is known.
pub proof fn law_refresh_follows_users(
    map: Map<Seq<char>, RefreshView>,
    users: Seq<UserView>,
    name: Seq<char>,
)
    ensures
        refresh_of(map, users).dom().contains(name) <==> is_nickname(users, name),
        is_nickname(users, name) && map.dom().contains(name) ==> refresh_of(map, users)[name]
            == map[name],
        is_nickname(users, name) && !map.dom().contains(name) ==> ({
            let d = refresh_of(map, users)[name];
            d.data is None && !d.in_progress && d.error is Some
        }),
{
}

/// What was found is shown without an error; a failure is shown with what was found before. The
/// search goes on exactly where nothing has come.
pub proof fn law_refresh_is_shown(d: RefreshView, file: SharedFile, e: String)
    ensures
        ({
            let t = polled(d, RefreshPoll::Message(RefreshSharedMessages::FileData(Ok(file))));
            t.data == Some(file@) && t.error is None && !t.in_progress
        }),
        ({
            let t = polled(d, RefreshPoll::Message(RefreshSharedMessages::FileData(Err(e))));
            t.data == d.data && t.error == Some(e@) && !t.in_progress
        }),
        polled(d, RefreshPoll::Empty) == d,
        polled(d, RefreshPoll::Disconnected).data == d.data,
        polled(d, RefreshPoll::Disconnected).error is Some,
        !polled(d, RefreshPoll::Disconnected).in_progress,
{
}

/// What is shown of a user is what is known of this user, under this user's name.
pub proof fn law_shared_with_me_is_shown(map: Map<Seq<char>, RefreshView>, name: Seq<char>)
    ensures
        shared_with_me(map).dom().contains(name) <==> map.dom().contains(name),
        map.dom().contains(name) ==> {
            &&& shared_with_me(map)[name].owner == name
            &&& shared_with_me(map)[name].data == map[name].data
            &&& shared_with_me(map)[name].error == map[name].error
            &&& shared_with_me(map)[name].in_progress == map[name].in_progress
        },
{
}

/// All users are looked up, in order. Of those of whom something is known, it is noted that they
/// are, and nothing else changes; of the others there is an error.
pub proof fn law_all_users_are_looked_up(
    map: Map<Seq<char>, RefreshView>,
    users: Seq<UserView>,
    i: int,
    name: Seq<char>,
)
    ensures
        lookups(map, users).1.len() == users.len(),
        0 <= i < users.len() ==> lookups(map, users).1[i].0 == users[i].nickname,
        0 <= i < users.len() ==> (lookups(map, users).1[i].1 is None <==> map.dom().contains(
            users[i].nickname,
        )),
        lookups(map, users).0.dom() == map.dom(),
        map.dom().contains(name) ==> {
            let d = lookups(map, users).0[name];
            &&& d.data == map[name].data && d.error == map[name].error
            &&& d.in_progress == (map[name].in_progress || is_nickname(users, name))
        },
    decreases users.len(),
{
    if users.len() > 0 {
        let front = users.drop_last();
        let last = users.last().nickname;
        law_all_users_are_looked_up(map, front, i, name);
        law_all_users_are_looked_up(map, front, i, last);
        assert(lookups(map, users).0.dom() =~= map.dom());
        if 0 <= i < front.len() {
            assert(front[i] == users[i]);
        }
        assert(is_nickname(users, name) <==> is_nickname(front, name) || last == name) by {
            if is_nickname(front, name) {
                let k = choose|k: int| 0 <= k < front.len() && (#[trigger] front[k]).nickname == name;
                assert(users[k] == front[k]);
            }
            assert(users[users.len() - 1].nickname == last);
            if is_nickname(users, name) && last != name {
                let k = choose|k: int| 0 <= k < users.len() && (#[trigger] users[k]).nickname == name;
                assert(front[k] == users[k]);
            }
        }
    }
}

/// Downloads are started where something waits. A connection that another user has opened is used
/// only where there still is a user of this name with this public id and our private id is the one
/// it was made with; it is handed to a downloader that runs, or starts one.
pub proof fn law_downloads_are_started(
    config: ConfigState,
    reverse: Option<(UserView, Seq<u8>)>,
    queue_file_exists: bool,
    is_running: bool,
)
    ensures
        ({
            let r = start_decision(config, reverse, queue_file_exists, is_running);
            &&& reverse is None ==> (r is Start <==> queue_file_exists) && (r is Nothing
                <==> !queue_file_exists)
            &&& reverse matches Some((user, private_id)) ==> {
                let is_known = config.private_key == private_id && exists|i: int|
                    0 <= i < config.file.shared_users.len() && (
                    #[trigger] config.file.shared_users[i]).nickname == user.nickname
                        && config.file.shared_users[i].public_id == user.public_id;
                &&& r is Refuse <==> !is_known
                &&& r is HandOver <==> is_known && is_running
                &&& r is Start <==> is_known && !is_running
            }
        }),
{
}

/// A selected file gets into the queue of its owner with its path and its size. The line for the
/// queue file says just that, and a downloader is told of the owner exactly where the owner is
/// known.
pub proof fn law_selected_file_is_queued(
    users: Seq<UserView>,
    download: SelectedDownload,
    nickname: Seq<char>,
)
    ensures
        ({
            let q = queued_download(users, download);
            &&& q.owner == download.owner@
            &&& q.item.path == download.path@
            &&& q.item.file_size == download.file_size
            &&& q.user is Some <==> is_nickname(users, download.owner@)
            &&& q.user matches Some(u) ==> users.contains(u) && u.nickname == download.owner@
            &&& is_keepable(download.path@) ==> queue_of(pieces(q.queue_line), nickname, 0) == (
                seq![q.item],
                None::<Seq<char>>,
            )
        }),
{
    let q = queued_download(users, download);
    law_first_nickname(users, download.owner@, 0);
    if let Some(i) = first_nickname(users, download.owner@, 0) {
        assert(users[i].nickname == download.owner@);
    } else if is_nickname(users, download.owner@) {
        let k = choose|k: int|
            0 <= k < users.len() && (#[trigger] users[k]).nickname == download.owner@;
        assert(users[k].nickname != download.owner@);
    }
    if is_keepable(download.path@) {
        let queue = seq![q.item];
        assert(queue_text(queue.drop_last()) =~= seq![]);
        assert(queue.last() == q.item);
        assert(queue_text(queue) =~= q.queue_line);
        law_queue_is_read_back(queue, nickname);
    }
}

/// A path made fit for the disk is the path itself where it has nothing that has to go.
pub proof fn law_clean_path_is_kept(path: Seq<char>, is_unix: bool)
    requires
        !path.contains('\0'),
        !path.contains('\\'),
    ensures
        clean_path(system_path(path, is_unix), 10) == Some(path),
{
    assert(replaced(path, '\\', '/') =~= path) by {
        assert forall|i: int| 0 <= i < path.len() implies path[i] != '\\' by {
            assert(path.contains(path[i]));
        }
    }
    assert(replaced(path, '\0', '0') =~= path) by {
        assert forall|i: int| 0 <= i < path.len() implies path[i] != '\0' by {
            assert(path.contains(path[i]));
        }
    }
    lemma_no_backslash(path);
}

/// A new download leaves the active one alone; after the user is removed or all downloads are
/// cancelled there is none. Progress is sent exactly where a download may have left. Each order is
/// logged with the name of the user, and one about a file with its path.
#[verifier::rlimit(40)]
pub proof fn law_orders_are_logged(d: DownloaderView, m: OrderView)
    ensures
        ({
            let (e, todo) = ordered(d, m);
            &&& m is NewDownload ==> e.active == d.active
            &&& m is CancelAllDownloads || m is RemoveUser ==> e.queue.len() == 0 && e.active is None
            &&& m is CancelDownload || m is CancelAllDownloads <==> exists|i: int|
                0 <= i < todo.len() && #[trigger] todo[i] is SendInProgress
            &&& todo.len() > 0
            &&& todo.last() matches ActionView::Send(ReportView::Log(level, line)) && level
                == LogLevel::Debug && has_part(line, e.user.nickname)
            &&& m matches OrderView::NewDownload(item) ==> (todo.last() matches ActionView::Send(
                ReportView::Log(_, line),
            ) && has_part(line, item.path))
            &&& m matches OrderView::CancelDownload(path) ==> (todo.last() matches ActionView::Send(
                ReportView::Log(_, line),
            ) && has_part(line, path))
        }),
{
    let none = Seq::<char>::empty();
    let (e, todo) = ordered(d, m);
    let name = e.user.nickname;
    match m {
        OrderView::NewDownload(item) => {
            lemma_named("Downloader new download "@, name, " - "@ + item.path);
            lemma_named("Downloader new download "@ + name + " - "@, item.path, none);
            assert("Downloader new download "@ + name + (" - "@ + item.path)
                =~= "Downloader new download "@ + name + " - "@ + item.path);
        },
        OrderView::CancelDownload(path) => {
            assert(todo[1] is SendInProgress);
            lemma_named("Downloader cancel download "@, name, " - "@ + path);
            lemma_named("Downloader cancel download "@ + name + " - "@, path, none);
            assert("Downloader cancel download "@ + name + (" - "@ + path)
                =~= "Downloader cancel download "@ + name + " - "@ + path);
        },
        OrderView::PauseDownloads => lemma_named("Downloader pause "@, name, none),
        OrderView::ResumeDownloads => lemma_named("Downloader resume "@, name, none),
        OrderView::CancelAllDownloads => {
            assert(todo[1] is SendInProgress);
            lemma_named("Downloader cancel all downloads "@, name, none);
        },
        OrderView::RemoveUser => lemma_named("Downloader remove "@, name, none),
        OrderView::NewSharedUser(user) => lemma_named("Downloader update user "@, name, none),
        OrderView::RestartConnection => lemma_named("Restart Downloader "@, name, none),
        OrderView::NewConfig(config) => lemma_named("Downloader update config "@, name, none),
    }
}

proof fn lemma_named(a: Seq<char>, b: Seq<char>, c: Seq<char>)
    ensures
        has_part(a + b + c, b),
        c.len() == 0 ==> a + b + c == a + b,
{
    law_parts_are_found(a, b, c);
    if c.len() == 0 {
        assert(a + b + c =~= a + b);
    }
}

/// A paused downloader rests for a second, one with nothing to do for half of one.
pub proof fn law_downloader_rests(d: DownloaderView)
    ensures
        next_step(d).1 matches RunStep::SleepMillis(n) ==> n == if d.paused {
            1000u64
        } else {
            500u64
        },
{
}

proof fn lemma_queue_of_behind(
    a: Seq<Seq<char>>,
    b: Seq<Seq<char>>,
    nickname: Seq<char>,
    j: int,
)
    requires
        0 <= j <= b.len(),
    ensures
        queue_of(a + b, nickname, a.len() + j) == queue_of(b, nickname, j),
    decreases b.len() - j,
{
    if j < b.len() {
        assert((a + b)[a.len() + j] == b[j]);
        lemma_queue_of_behind(a, b, nickname, j + 1);
    }
}

proof fn lemma_queue_of_both(
    a: Seq<Seq<char>>,
    b: Seq<Seq<char>>,
    nickname: Seq<char>,
    i: int,
)
    requires
        0 <= i <= a.len(),
    ensures
        ({
            let (x, e) = queue_of(a, nickname, i);
            let (y, f) = queue_of(b, nickname, 0);
            queue_of(a + b, nickname, i) == if e is Some {
                (x, e)
            } else {
                (x + y, f)
            }
        }),
    decreases a.len() - i,
{
    let (x, e) = queue_of(a, nickname, i);
    let (y, f) = queue_of(b, nickname, 0);
    if i < a.len() {
        assert((a + b)[i] == a[i]);
        lemma_queue_of_both(a, b, nickname, i + 1);
        if let LineView::Item(item) = line_meaning(a[i]) {
            let rest = queue_of(a, nickname, i + 1).0;
            assert(seq![item] + (rest + y) =~= seq![item] + rest + y);
        }
    } else {
        lemma_queue_of_behind(a, b, nickname, 0);
        assert(seq![] + y =~= y);
    }
}

/// The lines of a queue file are read one after the other: what two parts of a file hold is what
/// the file holds, up to the first line that cannot be read. A line holds one download, or none
/// where it is blank; a line that cannot be read is named, and so is the user.
#[verifier::rlimit(40)]
pub proof fn law_lines_are_read_in_order(
    a: Seq<Seq<char>>,
    b: Seq<Seq<char>>,
    line: Seq<char>,
    nickname: Seq<char>,
)
    ensures
        queue_of(a, nickname, 0).1 is None ==> queue_of(a + b, nickname, 0) == (
            queue_of(a, nickname, 0).0 + queue_of(b, nickname, 0).0,
            queue_of(b, nickname, 0).1,
        ),
        queue_of(a, nickname, 0).1 is Some ==> queue_of(a + b, nickname, 0) == queue_of(
            a,
            nickname,
            0,
        ),
        queue_of(seq![], nickname, 0) == (Seq::<ItemView>::empty(), None::<Seq<char>>),
        match line_meaning(line) {
            LineView::Blank => queue_of(seq![line], nickname, 0).0.len() == 0,
            LineView::Item(item) => queue_of(seq![line], nickname, 0).0 == seq![item],
            _ => {
                let (items, error) = queue_of(seq![line], nickname, 0);
                items.len() == 0 && error is Some && has_part(error->0, nickname) && has_part(
                    error->0,
                    trimmed(line),
                )
            },
        },
{
    lemma_queue_of_both(a, b, nickname, 0);
    reveal_with_fuel(queue_of, 2);
    let one = seq![line];
    assert(one[0] == line);
    let t = trimmed(line);
    let x = "Failed to parse queue file. Invalid line. '"@;
    let y = "Failed to parse queue file. Invalid file size in line. '"@;
    let z = "', '"@;
    let q = "'"@;
    lemma_named(x, nickname, z + t + q);
    lemma_named(x + nickname + z, t, q);
    assert(x + nickname + (z + t + q) =~= x + nickname + z + t + q);
    lemma_named(y, nickname, z + t + q);
    lemma_named(y + nickname + z, t, q);
    assert(y + nickname + (z + t + q) =~= y + nickname + z + t + q);
    if let LineView::Item(item) = line_meaning(line) {
        assert(seq![item] + Seq::<ItemView>::empty() =~= seq![item]);
    }
}

#[verifier::rlimit(40)]
proof fn lemma_reasons_differ()
    ensures
        size_changed_text() != file_too_large_text(),
        size_changed_text() != directory_too_large_text(),
        size_changed_text() != subfile_too_large_text(),
        file_too_large_text() != directory_too_large_text(),
        file_too_large_text() != subfile_too_large_text(),
        directory_too_large_text() != subfile_too_large_text(),
{
    reveal_strlit("Expected file size has changed. Suggestion: Delete file and restart download.");
    reveal_strlit("File is larger than expected. Suggestion: Delete file and restart download.");
    reveal_strlit(
        "Directory is larger than expected. Suggestion: Delete directory and restart download.",
    );
    reveal_strlit(
        "Directory subfile is larger than expected. Suggestion: Delete file and restart download.",
    );
    assert(size_changed_text()[0] == 'E');
    assert(file_too_large_text()[0] == 'F');
    assert(directory_too_large_text()[0] == 'D');
    assert(subfile_too_large_text()[0] == 'D');
    assert(directory_too_large_text()[10] == 'i');
    assert(subfile_too_large_text()[10] == 's');
}

/// Whoever gives up on a download says the same to the other side and to the user, and each reason
/// has a text of its own.
#[verifier::rlimit(40)]
pub proof fn law_reasons_are_told(
    queued: ItemView,
    bytes: nat,
    nickname: Seq<char>,
    path: Seq<char>,
    file_size: u64,
    exists_: bool,
    len: u64,
    message: u16,
)
    ensures
        ({
            let p = file_plan(queued, bytes, nickname, path, file_size, exists_, len);
            p.outcome matches FileOutcomeView::Fail(text) ==> (p.report matches
                FileReportView::Invalid(_, reason) && reason == text)
        }),
        ({
            let p = chunk_plan(queued, path, file_size, message, len);
            p.outcome matches FileOutcomeView::Fail(text) ==> (p.report matches
                FileReportView::Invalid(_, reason) && reason == text)
        }),
        ({
            let p = file_plan(queued, bytes, nickname, path, file_size, exists_, len);
            p.report matches FileReportView::Invalid(_, reason) ==> {
                &&& reason == size_changed_text() <==> path == queued.path && file_size
                    != queued.file_size
                &&& reason == file_too_large_text() <==> path == queued.path && file_size
                    == queued.file_size
                &&& reason == directory_too_large_text() <==> path != queued.path && bytes
                    > queued.file_size
                &&& reason == subfile_too_large_text() <==> path != queued.path && bytes
                    <= queued.file_size
            }
        }),
        ({
            let p = file_plan(queued, bytes, nickname, path, file_size, exists_, len);
            p.report matches FileReportView::Log(text) ==> has_part(text, nickname) && has_part(
                text,
                path,
            )
        }),
{
    lemma_reasons_differ();
    let none = Seq::<char>::empty();
    let done = "Subfile already downloaded '"@;
    lemma_named(done, nickname, "' - "@ + path);
    lemma_named(done + nickname + "' - "@, path, none);
    assert(done + nickname + ("' - "@ + path) =~= done + nickname + "' - "@ + path);
}

/// Where the two sides disagree, the text says what each of them holds.
#[verifier::rlimit(40)]
pub proof fn law_disagreement_is_told(local: bool, remote: bool)
    ensures
        has_part(disagreement_text(local, remote), "Is Local Finished: "@ + bool_text(local)),
        has_part(disagreement_text(local, remote), "Is Remote Finished: "@ + bool_text(remote)),
        bool_text(true) == "true"@,
        bool_text(false) == "false"@,
{
    let a = "Remote and local disagreement on finished download. Is Local Finished: "@;
    let b = ". Is Remote Finished: "@;
    let c = ". Suggestion: Delete file and download again."@;
    reveal_strlit("Remote and local disagreement on finished download. Is Local Finished: ");
    reveal_strlit(". Is Remote Finished: ");
    reveal_strlit("Is Local Finished: ");
    reveal_strlit("Is Remote Finished: ");
    let l = bool_text(local);
    let r = bool_text(remote);
    let x = "Is Local Finished: "@;
    let y = "Is Remote Finished: "@;
    let u = a.take(a.len() - x.len());
    let v = b.take(b.len() - y.len());
    assert(a =~= u + x);
    assert(b =~= v + y);
    lemma_named(u, x + l, b + r + c);
    assert(disagreement_text(local, remote) =~= u + (x + l) + (b + r + c));
    lemma_named(a + l + v, y + r, c);
    assert(disagreement_text(local, remote) =~= a + l + v + (y + r) + c);
}

/// A path is cleaned by writing a nought for each zero character and one backslash for two, and on
/// Unix its backslashes are slashes from the start; elsewhere it is left as it is.
pub proof fn law_path_is_cleaned(path: Seq<char>, tries: nat, is_unix: bool)
    requires
        tries >= 2,
    ensures
        ({
            let a = replaced(path, '\0', '0');
            single_backslashes(a) == a ==> clean_path(path, tries) == Some(a)
        }),
        ({
            let b = single_backslashes(path);
            !path.contains('\0') && single_backslashes(b) == b ==> clean_path(path, tries) == Some(b)
        }),
        !is_unix ==> system_path(path, is_unix) == path,
        is_unix ==> system_path(path, is_unix).len() == path.len() && forall|i: int|
            0 <= i < path.len() ==> #[trigger] system_path(path, is_unix)[i] == if path[i] == '\\' {
                '/'
            } else {
                path[i]
            },
{
    reveal_with_fuel(clean_path, 3);
    let a = replaced(path, '\0', '0');
    assert(replaced(a, '\0', '0') =~= a);
    let b = single_backslashes(path);
    if !path.contains('\0') {
        assert forall|i: int| 0 <= i < path.len() implies path[i] != '\0' by {
            assert(path.contains(path[i]));
        }
        assert(a =~= path);
        lemma_single_backslashes_only_drops(path, '\0');
        assert forall|i: int| 0 <= i < b.len() implies b[i] != '\0' by {
            assert(b.contains(b[i]));
        }
        assert(replaced(b, '\0', '0') =~= b);
    }
}

proof fn lemma_single_backslashes_only_drops(s: Seq<char>, c: char)
    requires
        !s.contains(c),
    ensures
        !single_backslashes(s).contains(c),
    decreases s.len(),
{
    let t = single_backslashes(s);
    if s.len() > 0 {
        assert(s.contains(s[0]));
        let n: int = if s.len() >= 2 && s[0] == '\\' && s[1] == '\\' {
            2
        } else {
            1
        };
        let rest = s.skip(n);
        assert forall|i: int| 0 <= i < rest.len() implies rest[i] != c by {
            assert(s.contains(s[i + n]));
        }
        lemma_single_backslashes_only_drops(rest, c);
        assert(t =~= seq![s[0]] + single_backslashes(rest));
        assert forall|i: int| 0 <= i < t.len() implies t[i] != c by {
            if i > 0 {
                assert(single_backslashes(rest).contains(single_backslashes(rest)[i - 1]));
            }
        }
    }
}

/// Whoever was never looked up is shown with a call to do so.
pub proof fn law_never_refreshed_says_so(
    map: Map<Seq<char>, RefreshView>,
    users: Seq<UserView>,
    name: Seq<char>,
)
    requires
        is_nickname(users, name),
        !map.dom().contains(name),
    ensures
        refresh_of(map, users)[name].error == Some("Refresh"@),
{
}

} // verus!
