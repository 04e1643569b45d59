//! Connections that we open to trusted users over a secure stream, to download from them.
use std::collections::VecDeque;
use vstd::prelude::*;
use crate::core_consts::{MSG_CANNOT_SELECT_DIRECTORY, MSG_FILE_CHUNK, MSG_FILE_FINISHED, MSG_FILE_INVALID_FILE, TOTAL_BUFFER_SIZE};
use crate::crypto::{dalek_shared, x25519_public, x25519_shared};
use crate::incoming::{among, check_signed_key, signed_key, trusted_views, TrustedUser, TrustedView};
use crate::name_map::NameMap;
use crate::outgoing_downloader::{has_all_names, is_last_name, path_file_name, DiskName, DiskNameView, NameTree, NameTreeView};
use crate::shared_file::{opt_file, views, FileView, SharedFile};
use crate::text::{cat2, cat3, collapse_backslashes, decimal, decimal_string, has_part, is_empty_text, is_white_space, law_parts_are_found, lemma_pieces_append, lemma_pieces_of_line, pieces, single_backslashes, split_lines, str_eq, texts, trim, trimmed, trimmed_end, trimmed_start};
use crate::utils::{file_at, get_file_by_path, is_within, law_file_at};

verus! {

/// A file or directory to download, and who has it.
#[derive(Debug)]
pub struct FileToDownload {
    pub file_owner: String,
    pub file_path: String,
}

/// What goes on with a user that we download from.
#[derive(Debug)]
pub struct OutgoingConnection {
    pub user: TrustedUser,
    pub download_queue: VecDeque<String>,
    pub finished_downloads: Vec<(String, String)>,
    pub invalid_downloads: Vec<String>,
    pub root_file: Option<SharedFile>,
    pub active_download: Option<SharedFile>,
    pub active_download_percent: u64,
    pub is_online: bool,
    pub is_deleted: bool,
    pub should_reset_connection: bool,
    pub stop_active_download: bool,
    pub is_paused: bool,
}

/// What an `OutgoingConnection` says.
#[verifier::ext_equal]
pub struct OutgoingView {
    pub user: TrustedView,
    pub queue: Seq<Seq<char>>,
    pub finished: Seq<(Seq<char>, Seq<char>)>,
    pub invalid: Seq<Seq<char>>,
    pub root: Option<FileView>,
    pub active: Option<FileView>,
    pub percent: u64,
    pub online: bool,
    pub deleted: bool,
    pub reset: bool,
    pub stop: bool,
    pub paused: bool,
}

pub open spec fn pair_views(s: Seq<(String, String)>) -> Seq<(Seq<char>, Seq<char>)> {
    Seq::new(s.len(), |i: int| (s[i].0@, s[i].1@))
}

impl View for OutgoingConnection {
    type V = OutgoingView;

    open spec fn view(&self) -> OutgoingView {
        OutgoingView {
            user: self.user@,
            queue: texts(self.download_queue@),
            finished: pair_views(self.finished_downloads@),
            invalid: texts(self.invalid_downloads@),
            root: opt_file(self.root_file),
            active: opt_file(self.active_download),
            percent: self.active_download_percent,
            online: self.is_online,
            deleted: self.is_deleted,
            reset: self.should_reset_connection,
            stop: self.stop_active_download,
            paused: self.is_paused,
        }
    }
}

/// The paths that lines hold; blank lines hold none.
pub open spec fn kept(lines: Seq<Seq<char>>) -> Seq<Seq<char>>
    decreases lines.len(),
{
    if lines.len() == 0 {
        seq![]
    } else if trimmed(lines.last()).len() == 0 {
        kept(lines.drop_last())
    } else {
        kept(lines.drop_last()).push(trimmed(lines.last()))
    }
}

/// What a queue file says.
pub open spec fn queue_in(contents: Option<Seq<char>>) -> Seq<Seq<char>> {
    match contents {
        Some(text) => kept(pieces(text)),
        None => seq![],
    }
}

/// Paths, a line for each.
pub open spec fn lines_text(paths: Seq<Seq<char>>) -> Seq<char>
    decreases paths.len(),
{
    if paths.len() == 0 {
        seq![]
    } else {
        lines_text(paths.drop_last()) + paths.last() + "\n"@
    }
}

/// What is kept of a queue on disk: what is being downloaded, and what waits behind it.
pub open spec fn queued(c: OutgoingView) -> Seq<Seq<char>> {
    match c.active {
        Some(f) => seq![f.path] + c.queue,
        None => c.queue,
    }
}

/// A queue without a path.
pub open spec fn without_path(queue: Seq<Seq<char>>, path: Seq<char>) -> Seq<Seq<char>>
    decreases queue.len(),
{
    if queue.len() == 0 {
        seq![]
    } else if queue.last() == path {
        without_path(queue.drop_last(), path)
    } else {
        without_path(queue.drop_last(), path).push(queue.last())
    }
}

fn drop_path(queue: &VecDeque<String>, path: &str) -> (r: VecDeque<String>)
    ensures
        texts(r@) == without_path(texts(queue@), path@),
{
    let ghost all = texts(queue@);
    let mut r: VecDeque<String> = VecDeque::new();
    let mut i: usize = 0;
    assert(texts(r@) =~= without_path(all.take(0), path@));
    while i < queue.len()
        invariant
            i <= queue@.len(),
            all == texts(queue@),
            texts(r@) == without_path(all.take(i as int), path@),
        decreases queue@.len() - i,
    {
        proof {
            assert(all.take(i + 1).drop_last() =~= all.take(i as int));
            assert(all.take(i + 1).last() == queue@[i as int]@);
        }
        if !str_eq(queue[i].as_str(), path) {
            let ghost before = r@;
            r.push_back(queue[i].clone());
            assert(texts(r@) =~= texts(before).push(queue@[i as int]@));
        }
        i += 1;
    }
    assert(all.take(i as int) =~= all);
    r
}

/// What a cancelled path does to the downloads from a user. The path of what is being downloaded
/// is held against the path with one backslash for every two; so are the waiting ones, unless
/// something else is being downloaded.
pub open spec fn cancelled(c: OutgoingView, path: Seq<char>) -> OutgoingView {
    match c.active {
        Some(f) => if f.path == single_backslashes(path) {
            OutgoingView { stop: true, active: None, ..c }
        } else {
            OutgoingView { queue: without_path(c.queue, path), ..c }
        },
        None => OutgoingView { queue: without_path(c.queue, single_backslashes(path)), ..c },
    }
}

/// Why a download ends early.
#[derive(Debug)]
pub enum StopReason {
    Deleted,
    Reset,
    Stopped,
}

/// Whether, and why, a download ends early.
pub open spec fn stop_of(c: OutgoingView) -> Option<StopReason> {
    if c.deleted {
        Some(StopReason::Deleted)
    } else if c.reset {
        Some(StopReason::Reset)
    } else if c.stop {
        Some(StopReason::Stopped)
    } else {
        None
    }
}

/// What is done before and after a connection.
#[derive(Debug)]
pub enum ForeverStep {
    End,
    SleepMillis(u64),
    Connect,
}

/// What is done next over a connection.
#[derive(Debug)]
pub enum OutgoingStep {
    End,
    SleepMillis(u64),
    WriteQueue(String),
    Download(SharedFile),
}

/// What an `OutgoingStep` says.
pub enum OutgoingStepView {
    End,
    SleepMillis(u64),
    WriteQueue(Seq<char>),
    Download(FileView),
}

impl View for OutgoingStep {
    type V = OutgoingStepView;

    open spec fn view(&self) -> OutgoingStepView {
        match self {
            OutgoingStep::End => OutgoingStepView::End,
            OutgoingStep::SleepMillis(n) => OutgoingStepView::SleepMillis(*n),
            OutgoingStep::WriteQueue(s) => OutgoingStepView::WriteQueue(s@),
            OutgoingStep::Download(f) => OutgoingStepView::Download(f@),
        }
    }
}

/// What is done next over a connection, and what becomes of it. A path that the user does not
/// share is invalid; it leaves the queue.
pub open spec fn outgoing_step(c: OutgoingView) -> (OutgoingView, OutgoingStepView) {
    if c.deleted || c.reset {
        (c, OutgoingStepView::End)
    } else if c.paused {
        (c, OutgoingStepView::SleepMillis(3000))
    } else if c.queue.len() == 0 {
        (c, OutgoingStepView::SleepMillis(1000))
    } else {
        let path = single_backslashes(c.queue[0]);
        match file_at(path, c.root->0) {
            None => {
                let next = OutgoingView {
                    invalid: c.invalid.push(path),
                    queue: c.queue.skip(1),
                    ..c
                };
                (
                    OutgoingView { active: None, ..next },
                    OutgoingStepView::WriteQueue(lines_text(queued(next))),
                )
            },
            Some(f) => (
                OutgoingView { stop: false, percent: 0, active: Some(f), ..c },
                OutgoingStepView::Download(f),
            ),
        }
    }
}

/// What is done once a download is over.
#[derive(Debug)]
pub enum AfterDownload {
    End,
    Again,
    WriteQueue(String),
}

/// What becomes of a connection once the download of a file is over. A directory is finished where
/// nothing stopped it; what is paused stays first in the queue.
pub open spec fn downloaded(c: OutgoingView, f: FileView, destination: Seq<char>) -> OutgoingView {
    if c.reset || c.deleted || c.paused {
        c
    } else {
        OutgoingView {
            active: None,
            finished: if !c.stop && f.is_directory {
                c.finished.push((f.path, destination))
            } else {
                c.finished
            },
            queue: if c.queue.len() > 0 {
                c.queue.skip(1)
            } else {
                c.queue
            },
            ..c
        }
    }
}

/// What the first answer to a request for a file means.
#[derive(Debug)]
pub enum FirstAnswer {
    Invalid,
    Unexpected(String),
    Chunk,
}

/// What a later answer means.
#[derive(Debug)]
pub enum NextAnswer {
    Stopped(StopReason),
    Finished,
    Unexpected(String),
    Chunk,
}

/// What a `FirstAnswer` says.
pub enum FirstAnswerView {
    Invalid,
    Unexpected(Seq<char>),
    Chunk,
}

impl View for FirstAnswer {
    type V = FirstAnswerView;

    open spec fn view(&self) -> FirstAnswerView {
        match self {
            FirstAnswer::Invalid => FirstAnswerView::Invalid,
            FirstAnswer::Unexpected(e) => FirstAnswerView::Unexpected(e@),
            FirstAnswer::Chunk => FirstAnswerView::Chunk,
        }
    }
}

/// What a `NextAnswer` says.
pub enum NextAnswerView {
    Stopped(StopReason),
    Finished,
    Unexpected(Seq<char>),
    Chunk,
}

impl View for NextAnswer {
    type V = NextAnswerView;

    open spec fn view(&self) -> NextAnswerView {
        match self {
            NextAnswer::Stopped(reason) => NextAnswerView::Stopped(*reason),
            NextAnswer::Finished => NextAnswerView::Finished,
            NextAnswer::Unexpected(e) => NextAnswerView::Unexpected(e@),
            NextAnswer::Chunk => NextAnswerView::Chunk,
        }
    }
}

/// What an `AfterDownload` says.
pub enum AfterView {
    End,
    Again,
    WriteQueue(Seq<char>),
}

impl View for AfterDownload {
    type V = AfterView;

    open spec fn view(&self) -> AfterView {
        match self {
            AfterDownload::End => AfterView::End,
            AfterDownload::Again => AfterView::Again,
            AfterDownload::WriteQueue(s) => AfterView::WriteQueue(s@),
        }
    }
}

/// What is done once a download is over, where `c` was the connection before and `next` is after.
pub open spec fn after_of(c: OutgoingView, next: OutgoingView) -> AfterView {
    if c.reset || c.deleted {
        AfterView::End
    } else if c.paused {
        AfterView::Again
    } else {
        AfterView::WriteQueue(lines_text(queued(next)))
    }
}

/// What is done before a connection, and what becomes of it.
pub open spec fn forever_step(c: OutgoingView) -> (OutgoingView, ForeverStep) {
    if c.deleted {
        (c, ForeverStep::End)
    } else if c.queue.len() == 0 {
        (c, ForeverStep::SleepMillis(1000))
    } else {
        (OutgoingView { reset: false, ..c }, ForeverStep::Connect)
    }
}

/// What is done after a connection, and what becomes of it.
pub open spec fn ended(c: OutgoingView) -> (OutgoingView, ForeverStep) {
    (
        OutgoingView { online: false, ..c },
        if c.deleted {
            ForeverStep::End
        } else {
            ForeverStep::SleepMillis(10000)
        },
    )
}

/// What the first answer to a request for a file means, and what becomes of the connection.
pub open spec fn answered_first(c: OutgoingView, msg: u8, path: Seq<char>) -> (
    OutgoingView,
    FirstAnswerView,
) {
    if msg as u16 == MSG_FILE_INVALID_FILE {
        (OutgoingView { invalid: c.invalid.push(path), ..c }, FirstAnswerView::Invalid)
    } else if msg as u16 == MSG_CANNOT_SELECT_DIRECTORY {
        (c, FirstAnswerView::Unexpected("!!!! ERROR: Cannot download directory"@))
    } else if msg as u16 != MSG_FILE_CHUNK {
        (
            c,
            FirstAnswerView::Unexpected(
                "!!!! ERROR: Expected MSG_FILE_CHUNK, got: "@ + decimal(msg as nat),
            ),
        )
    } else {
        (c, FirstAnswerView::Chunk)
    }
}

/// What a later answer means, and what becomes of the connection.
pub open spec fn answered_next(
    c: OutgoingView,
    msg: u8,
    percent: u64,
    path: Seq<char>,
    destination: Seq<char>,
) -> (OutgoingView, NextAnswerView) {
    match stop_of(c) {
        Some(reason) => (c, NextAnswerView::Stopped(reason)),
        None => if msg as u16 == MSG_FILE_FINISHED {
            (
                OutgoingView { percent, finished: c.finished.push((path, destination)), ..c },
                NextAnswerView::Finished,
            )
        } else if msg as u16 != MSG_FILE_CHUNK {
            (
                OutgoingView { percent, ..c },
                NextAnswerView::Unexpected(
                    "Expected MSG_FILE_CHUNK, got "@ + decimal(msg as nat),
                ),
            )
        } else {
            (OutgoingView { percent, ..c }, NextAnswerView::Chunk)
        },
    }
}

impl OutgoingConnection {
    /// The downloads from a user, with what the queue file says where there is one.
    pub fn new(user: TrustedUser, queue_contents: Option<&str>, is_all_paused: bool) -> (c:
        OutgoingConnection)
        ensures
            c@ == (OutgoingView {
                user: user@,
                queue: queue_in(
                    match queue_contents {
                        Some(s) => Some(s@),
                        None => None,
                    },
                ),
                finished: seq![],
                invalid: seq![],
                root: None,
                active: None,
                percent: 0,
                online: false,
                deleted: false,
                reset: false,
                stop: false,
                paused: is_all_paused,
            }),
    {
        let mut download_queue: VecDeque<String> = VecDeque::new();
        assert(texts(download_queue@) =~= seq![]);
        match queue_contents {
            None => {},
            Some(contents) => {
                let lines = split_lines(contents);
                let ghost all = texts(lines@);
                let mut i: usize = 0;
                assert(texts(download_queue@) =~= kept(all.take(0)));
                while i < lines.len()
                    invariant
                        i <= lines@.len(),
                        all == texts(lines@),
                        texts(download_queue@) == kept(all.take(i as int)),
                    decreases lines@.len() - i,
                {
                    proof {
                        assert(all.take(i + 1).drop_last() =~= all.take(i as int));
                        assert(all.take(i + 1).last() == lines@[i as int]@);
                    }
                    let line = trim(lines[i].as_str());
                    if !is_empty_text(line.as_str()) {
                        let ghost before = download_queue@;
                        download_queue.push_back(line);
                        assert(texts(download_queue@) =~= texts(before).push(line@));
                    }
                    i += 1;
                }
                assert(all.take(i as int) =~= all);
            },
        }
        let c = OutgoingConnection {
            user,
            download_queue,
            finished_downloads: Vec::new(),
            invalid_downloads: Vec::new(),
            root_file: None,
            active_download: None,
            active_download_percent: 0,
            is_online: false,
            is_deleted: false,
            should_reset_connection: false,
            stop_active_download: false,
            is_paused: is_all_paused,
        };
        assert(c@.finished =~= seq![]);
        assert(c@.invalid =~= seq![]);
        c
    }

    /// Puts a path into the queue. The result is the new queue file.
    pub fn download_file(&mut self, file_path: String) -> (s: String)
        ensures
            final(self)@ == (OutgoingView {
                queue: old(self)@.queue.push(file_path@),
                ..old(self)@
            }),
            s@ == lines_text(queued(final(self)@)),
    {
        let ghost before = self.download_queue@;
        self.download_queue.push_back(file_path);
        assert(texts(self.download_queue@) =~= texts(before).push(file_path@));
        self.write_queue()
    }

    /// What the queue file holds.
    pub fn write_queue(&self) -> (s: String)
        ensures
            s@ == lines_text(queued(self@)),
    {
        let mut s = String::new();
        let ghost all = queued(self@);
        let ghost mut shift: int = 0;
        assert(s@ =~= lines_text(all.take(0)));
        match &self.active_download {
            Some(shared_file) => {
                let ghost before = s@;
                s.push_str(shared_file.path.as_str());
                s.push_str("\n");
                proof {
                    shift = 1;
                    assert(all.take(1).drop_last() =~= all.take(0));
                    assert(all.take(1).last() == shared_file@.path);
                    assert(s@ =~= before + shared_file@.path + "\n"@);
                }
            },
            None => {},
        }
        let mut i: usize = 0;
        while i < self.download_queue.len()
            invariant
                i <= self.download_queue@.len(),
                all == queued(self@),
                0 <= shift <= 1,
                shift == (if self.active_download is Some {
                    1int
                } else {
                    0int
                }),
                s@ == lines_text(all.take(i + shift)),
            decreases self.download_queue@.len() - i,
        {
            let ghost before = s@;
            s.push_str(self.download_queue[i].as_str());
            s.push_str("\n");
            proof {
                let n = i + shift;
                assert(all[n] == self.download_queue@[i as int]@);
                assert(all.take(n + 1).drop_last() =~= all.take(n));
                assert(all.take(n + 1).last() == all[n]);
                assert(s@ =~= before + all[n] + "\n"@);
            }
            i += 1;
        }
        assert(all.take(i + shift) =~= all);
        s
    }

    /// Cancels a download. The result is the new queue file, where it has to be written.
    pub fn cancel(&mut self, file_path: &str) -> (r: Option<String>)
        ensures
            final(self)@ == cancelled(old(self)@, file_path@),
            match old(self)@.active {
                Some(f) if f.path == single_backslashes(file_path@) => r is None,
                _ => r is Some && r->0@ == lines_text(queued(final(self)@)),
            },
    {
        let single = collapse_backslashes(file_path);
        let is_active = match &self.active_download {
            Some(f) => {
                if str_eq(f.path.as_str(), single.as_str()) {
                    self.stop_active_download = true;
                    self.active_download = None;
                    return None;
                }
                true
            },
            None => false,
        };
        if is_active {
            self.download_queue = drop_path(&self.download_queue, file_path);
        } else {
            self.download_queue = drop_path(&self.download_queue, single.as_str());
        }
        Some(self.write_queue())
    }

    /// Whether, and why, a download ends early.
    pub fn stop_reason(&self) -> (r: Option<StopReason>)
        ensures
            r == stop_of(self@),
    {
        if self.is_deleted {
            Some(StopReason::Deleted)
        } else if self.should_reset_connection {
            Some(StopReason::Reset)
        } else if self.stop_active_download {
            Some(StopReason::Stopped)
        } else {
            None
        }
    }

    /// Decides whether to connect to the user.
    pub fn handle_outgoing_forever(&mut self) -> (step: ForeverStep)
        ensures
            (final(self)@, step) == forever_step(old(self)@),
    {
        if self.is_deleted {
            return ForeverStep::End;
        }
        if self.download_queue.len() == 0 {
            return ForeverStep::SleepMillis(1000);
        }
        self.should_reset_connection = false;
        ForeverStep::Connect
    }

    /// Decides what to do once a connection has ended.
    pub fn connection_ended(&mut self) -> (step: ForeverStep)
        ensures
            (final(self)@, step) == ended(old(self)@),
    {
        self.is_online = false;
        if self.is_deleted {
            ForeverStep::End
        } else {
            ForeverStep::SleepMillis(10000)
        }
    }

    /// Where the user is reached.
    pub fn remote_addr(&self) -> (s: String)
        ensures
            s@ == self@.user.ip + ":"@ + self@.user.port,
    {
        cat3(self.user.ip_address.as_str(), ":", self.user.port.as_str())
    }

    /// Takes note of what the user shares, over a new connection.
    pub fn connected(&mut self, root_file: SharedFile)
        ensures
            final(self)@ == (OutgoingView {
                root: Some(root_file@),
                online: true,
                ..old(self)@
            }),
    {
        self.root_file = Some(root_file);
        self.is_online = true;
    }

    /// Decides what to do next over a connection.
    pub fn handle_outgoing(&mut self) -> (step: OutgoingStep)
        requires
            old(self)@.root is Some || old(self)@.deleted || old(self)@.reset || old(
                self,
            )@.paused || old(self)@.queue.len() == 0,
        ensures
            final(self)@ == outgoing_step(old(self)@).0,
            step@ == outgoing_step(old(self)@).1,
    {
        if self.is_deleted || self.should_reset_connection {
            return OutgoingStep::End;
        }
        if self.is_paused {
            return OutgoingStep::SleepMillis(3000);
        }
        if self.download_queue.len() == 0 {
            return OutgoingStep::SleepMillis(1000);
        }
        let ghost c = self@;
        let path = collapse_backslashes(self.download_queue[0].as_str());
        assert(c.queue[0] == self.download_queue@[0]@);
        let found = match &self.root_file {
            Some(root_file) => get_file_by_path(path.as_str(), root_file),
            None => vstd::pervasive::unreached(),
        };
        match found {
            None => {
                let ghost invalid = self.invalid_downloads@;
                let ghost queue = self.download_queue@;
                self.invalid_downloads.push(path);
                let first = self.download_queue.pop_front();
                proof {
                    assert(texts(self.invalid_downloads@) =~= texts(invalid).push(path@));
                    assert(texts(self.download_queue@) =~= texts(queue).skip(1));
                }
                let text = self.write_queue();
                self.active_download = None;
                OutgoingStep::WriteQueue(text)
            },
            Some(shared_file) => {
                self.stop_active_download = false;
                self.active_download_percent = 0;
                self.active_download = Some(shared_file.clone());
                OutgoingStep::Download(shared_file)
            },
        }
    }

    /// Decides what to do once the download of a file is over.
    pub fn after_download(&mut self, shared_file: SharedFile, destination_path: String) -> (r:
        AfterDownload)
        ensures
            final(self)@ == downloaded(old(self)@, shared_file@, destination_path@),
            r@ == after_of(old(self)@, final(self)@),
    {
        if self.should_reset_connection || self.is_deleted {
            return AfterDownload::End;
        }
        if self.is_paused {
            return AfterDownload::Again;
        }
        self.active_download = None;
        if !self.stop_active_download && shared_file.is_directory {
            let ghost finished = self.finished_downloads@;
            let ghost path = shared_file.path@;
            self.finished_downloads.push((shared_file.path, destination_path));
            assert(pair_views(self.finished_downloads@) =~= pair_views(finished).push(
                (path, destination_path@),
            ));
        }
        let ghost queue = self.download_queue@;
        let first = self.download_queue.pop_front();
        proof {
            if queue.len() > 0 {
                assert(texts(self.download_queue@) =~= texts(queue).skip(1));
            } else {
                assert(texts(self.download_queue@) =~= texts(queue));
            }
        }
        AfterDownload::WriteQueue(self.write_queue())
    }

    /// Decides what the first answer to a request for a file means.
    pub fn first_answer(&mut self, server_msg: u8, path: &str) -> (r: FirstAnswer)
        ensures
            (final(self)@, r@) == answered_first(old(self)@, server_msg, path@),
    {
        let msg: u16 = server_msg as u16;
        if msg == MSG_FILE_INVALID_FILE {
            let ghost invalid = self.invalid_downloads@;
            self.invalid_downloads.push(path.to_owned());
            assert(texts(self.invalid_downloads@) =~= texts(invalid).push(path@));
            FirstAnswer::Invalid
        } else if msg == MSG_CANNOT_SELECT_DIRECTORY {
            FirstAnswer::Unexpected("!!!! ERROR: Cannot download directory".to_owned())
        } else if msg != MSG_FILE_CHUNK {
            FirstAnswer::Unexpected(
                cat2(
                    "!!!! ERROR: Expected MSG_FILE_CHUNK, got: ",
                    decimal_string(server_msg as u64).as_str(),
                ),
            )
        } else {
            FirstAnswer::Chunk
        }
    }

    /// Decides what a later answer means, with the percentage that has been downloaded.
    pub fn next_answer(
        &mut self,
        server_msg: u8,
        percent: u64,
        path: &str,
        destination_path: &str,
    ) -> (r: NextAnswer)
        ensures
            (final(self)@, r@) == answered_next(
                old(self)@,
                server_msg,
                percent,
                path@,
                destination_path@,
            ),
    {
        match self.stop_reason() {
            Some(reason) => return NextAnswer::Stopped(reason),
            None => {},
        }
        self.active_download_percent = percent;
        let msg: u16 = server_msg as u16;
        if msg == MSG_FILE_FINISHED {
            let ghost finished = self.finished_downloads@;
            self.finished_downloads.push((path.to_owned(), destination_path.to_owned()));
            assert(pair_views(self.finished_downloads@) =~= pair_views(finished).push(
                (path@, destination_path@),
            ));
            NextAnswer::Finished
        } else if msg != MSG_FILE_CHUNK {
            NextAnswer::Unexpected(
                cat2("Expected MSG_FILE_CHUNK, got ", decimal_string(server_msg as u64).as_str()),
            )
        } else {
            NextAnswer::Chunk
        }
    }
}

/// The key for all that follows, from the key that a user has answered with.
pub fn get_local_to_outgoing_secure_stream_cipher(
    secret: &[u8; 32],
    remote_public_id: &str,
    buffer: &[u8],
    remote_ip: &str,
) -> (r: Result<[u8; 32], String>)
    requires
        buffer@.len() == TOTAL_BUFFER_SIZE,
    ensures
        match signed_key(remote_public_id@, buffer@) {
            Some(key) => r is Ok && r->Ok_0@ == x25519_shared(secret@, key) && (forall|
                other: Seq<u8>,
            |
                other.len() == 32 && #[trigger] x25519_public(other) == key ==> r->Ok_0@
                    == x25519_shared(other, x25519_public(secret@))),
            None => r is Err && r->Err_0@
                == "ERROR: Remote signature failure. Verify Public ID is correct for "@
                + remote_ip@,
        },
{
    match check_signed_key(remote_public_id, buffer) {
        Some(key) => Ok(dalek_shared(secret, &key)),
        None => Err(
            cat2("ERROR: Remote signature failure. Verify Public ID is correct for ", remote_ip),
        ),
    }
}

/// Whether the last names of paths may be the names of a tree.
pub open spec fn are_last_names_of(f: FileView, t: NameTreeView) -> bool
    decreases f,
{
    &&& match t.name {
        DiskNameView::Name(n) => is_last_name(f.path, Some(n)),
        DiskNameView::Missing => is_last_name(f.path, None),
        DiskNameView::Unclean(_) => false,
    }
    &&& t.children.len() == f.files.len()
    &&& forall|i: int|
        #![trigger f.files[i]]
        0 <= i < f.files.len() ==> are_last_names_of(f.files[i], t.children[i])
}

/// Finds the last names of the paths of a file and of the files in a directory.
pub fn find_last_names(shared_file: &SharedFile) -> (t: NameTree)
    ensures
        are_last_names_of(shared_file@, t@),
        has_all_names(shared_file@, t@),
    decreases shared_file,
{
    let name = match path_file_name(shared_file.path.as_str()) {
        Some(name) => DiskName::Name(name),
        None => DiskName::Missing,
    };
    let ghost files = views(shared_file.files@);
    assert(shared_file@.files =~= files);
    let mut children: Vec<NameTree> = Vec::new();
    let mut i: usize = 0;
    while i < shared_file.files.len()
        invariant
            i <= shared_file.files@.len(),
            files == views(shared_file.files@),
            children@.len() == i,
            forall|k: int|
                0 <= k < i ==> are_last_names_of(files[k], (#[trigger] children@[k])@)
                    && has_all_names(files[k], children@[k]@),
        decreases shared_file.files@.len() - i,
    {
        let child = find_last_names(&shared_file.files[i]);
        assert(files[i as int] == shared_file.files@[i as int]@);
        children.push(child);
        i += 1;
    }
    let t = NameTree { name, children };
    proof {
        let f = shared_file@;
        assert forall|k: int|
            #![trigger f.files[k]]
            0 <= k < f.files.len() implies are_last_names_of(f.files[k], t@.children[k])
            && has_all_names(f.files[k], t@.children[k]) by {
            assert(t@.children[k] == children@[k]@);
        }
    }
    t
}

/// All users that we may download from.
pub struct OutgoingConnectionManager {
    pub outgoing_connections: NameMap<OutgoingConnection>,
    pub is_all_paused: bool,
}

/// What is done to the downloads from a user.
#[derive(Debug, Clone, Copy)]
pub enum Change {
    CancelAll,
    Resume,
    Pause,
    ClearInvalid,
    ClearFinished,
}

pub open spec fn changed(c: OutgoingView, change: Change) -> OutgoingView {
    match change {
        Change::CancelAll => OutgoingView { stop: c.stop || c.active is Some, queue: seq![], ..c },
        Change::Resume => OutgoingView { paused: false, ..c },
        Change::Pause => OutgoingView { paused: true, stop: true, ..c },
        Change::ClearInvalid => OutgoingView { invalid: seq![], ..c },
        Change::ClearFinished => OutgoingView { finished: seq![], ..c },
    }
}

/// The same is done to the downloads from some users.
pub open spec fn with_change(
    map: Map<Seq<char>, OutgoingView>,
    names: spec_fn(Seq<char>) -> bool,
    change: Change,
) -> Map<Seq<char>, OutgoingView> {
    Map::new(
        |name: Seq<char>| map.dom().contains(name),
        |name: Seq<char>|
            if names(name) {
                changed(map[name], change)
            } else {
                map[name]
            },
    )
}

/// The same is done to the downloads from all users.
pub open spec fn all_changed(map: Map<Seq<char>, OutgoingView>, change: Change) -> Map<
    Seq<char>,
    OutgoingView,
> {
    Map::new(
        |name: Seq<char>| map.dom().contains(name),
        |name: Seq<char>| changed(map[name], change),
    )
}

pub open spec fn wanted_views(s: Seq<FileToDownload>) -> Seq<(Seq<char>, Seq<char>)> {
    Seq::new(s.len(), |i: int| (s[i].file_owner@, s[i].file_path@))
}

/// Files are put into the queues of their owners, one by one. Each time, the queue file of the
/// owner is written anew.
pub open spec fn with_files(
    map: Map<Seq<char>, OutgoingView>,
    files: Seq<(Seq<char>, Seq<char>)>,
) -> (Map<Seq<char>, OutgoingView>, Seq<(Seq<char>, Seq<char>)>)
    decreases files.len(),
{
    if files.len() == 0 {
        (map, seq![])
    } else {
        let (before, writes) = with_files(map, files.drop_last());
        let (owner, path) = files.last();
        let next = OutgoingView { queue: before[owner].queue.push(path), ..before[owner] };
        (before.insert(owner, next), writes.push((owner, lines_text(queued(next)))))
    }
}

proof fn lemma_with_files_dom(
    map: Map<Seq<char>, OutgoingView>,
    files: Seq<(Seq<char>, Seq<char>)>,
)
    requires
        forall|i: int| 0 <= i < files.len() ==> map.dom().contains((#[trigger] files[i]).0),
    ensures
        with_files(map, files).0.dom() =~= map.dom(),
    decreases files.len(),
{
    if files.len() > 0 {
        let front = files.drop_last();
        assert forall|i: int| 0 <= i < front.len() implies map.dom().contains(
            (#[trigger] front[i]).0,
        ) by {
            assert(front[i] == files[i]);
        }
        lemma_with_files_dom(map, front);
        assert(files[files.len() - 1] == files.last());
    }
}

/// The downloads of users by name; of two with the same name, the later. `queues` has for every
/// user what the queue file says.
pub open spec fn fresh_connections(
    users: Seq<TrustedView>,
    queues: Seq<Option<Seq<char>>>,
    paused: bool,
) -> Map<Seq<char>, OutgoingView>
    decreases users.len(),
{
    if users.len() == 0 {
        Map::empty()
    } else {
        fresh_connections(users.drop_last(), queues.drop_last(), paused).insert(
            users.last().name,
            OutgoingView {
                user: users.last(),
                queue: queue_in(queues.last()),
                finished: seq![],
                invalid: seq![],
                root: None,
                active: None,
                percent: 0,
                online: false,
                deleted: false,
                reset: false,
                stop: false,
                paused,
            },
        )
    }
}

pub open spec fn opt_texts(s: Seq<Option<String>>) -> Seq<Option<Seq<char>>> {
    Seq::new(
        s.len(),
        |i: int|
            match s[i] {
                Some(t) => Some(t@),
                None => None,
            },
    )
}

impl OutgoingConnectionManager {
    pub fn new(
        users: &Vec<TrustedUser>,
        queue_contents: &Vec<Option<String>>,
        is_all_paused: bool,
    ) -> (m: OutgoingConnectionManager)
        requires
            users@.len() == queue_contents@.len(),
        ensures
            m.outgoing_connections@ == fresh_connections(
                trusted_views(users@),
                opt_texts(queue_contents@),
                is_all_paused,
            ),
            m.is_all_paused == is_all_paused,
    {
        let ghost us = trusted_views(users@);
        let ghost qs = opt_texts(queue_contents@);
        let mut outgoing_connections: NameMap<OutgoingConnection> = NameMap::new();
        let mut i: usize = 0;
        assert(us.take(0) =~= seq![]);
        while i < users.len()
            invariant
                i <= users@.len(),
                users@.len() == queue_contents@.len(),
                us == trusted_views(users@),
                qs == opt_texts(queue_contents@),
                outgoing_connections@ == fresh_connections(
                    us.take(i as int),
                    qs.take(i as int),
                    is_all_paused,
                ),
            decreases users@.len() - i,
        {
            proof {
                assert(us.take(i + 1).drop_last() =~= us.take(i as int));
                assert(us.take(i + 1).last() == users@[i as int]@);
                assert(qs.take(i + 1).drop_last() =~= qs.take(i as int));
                assert(qs.take(i + 1).last() == qs[i as int]);
            }
            let contents = match &queue_contents[i] {
                Some(s) => Some(s.as_str()),
                None => None,
            };
            outgoing_connections.insert(
                users[i].display_name.clone(),
                OutgoingConnection::new(users[i].clone(), contents, is_all_paused),
            );
            i += 1;
        }
        assert(us.take(i as int) =~= us);
        assert(qs.take(i as int) =~= qs);
        OutgoingConnectionManager { outgoing_connections, is_all_paused }
    }

    /// Puts files into the queues of their owners. The result is which queue files have to be
    /// written, in this order.
    pub fn download_files(&mut self, file_list: Vec<FileToDownload>) -> (r: Vec<(String, String)>)
        requires
            forall|i: int|
                0 <= i < file_list@.len() ==> old(self).outgoing_connections@.dom().contains(
                    (#[trigger] file_list@[i]).file_owner@,
                ),
        ensures
            final(self).outgoing_connections@ == with_files(
                old(self).outgoing_connections@,
                wanted_views(file_list@),
            ).0,
            pair_views(r@) == with_files(
                old(self).outgoing_connections@,
                wanted_views(file_list@),
            ).1,
            final(self).is_all_paused == old(self).is_all_paused,
    {
        let ghost start = self.outgoing_connections@;
        let ghost all = wanted_views(file_list@);
        let mut r: Vec<(String, String)> = Vec::new();
        let mut i: usize = 0;
        assert(all.take(0) =~= seq![]);
        assert(pair_views(r@) =~= seq![]);
        while i < file_list.len()
            invariant
                i <= file_list@.len(),
                all == wanted_views(file_list@),
                forall|k: int|
                    0 <= k < file_list@.len() ==> start.dom().contains(
                        (#[trigger] file_list@[k]).file_owner@,
                    ),
                self.outgoing_connections@ == with_files(start, all.take(i as int)).0,
                pair_views(r@) == with_files(start, all.take(i as int)).1,
                self.is_all_paused == old(self).is_all_paused,
            decreases file_list@.len() - i,
        {
            let ghost t = all.take(i as int);
            proof {
                assert(all.take(i + 1).drop_last() =~= t);
                assert(all.take(i + 1).last() == (
                    file_list@[i as int].file_owner@,
                    file_list@[i as int].file_path@,
                ));
                assert forall|k: int| 0 <= k < t.len() implies start.dom().contains(
                    (#[trigger] t[k]).0,
                ) by {
                    assert(t[k].0 == file_list@[k].file_owner@);
                }
                lemma_with_files_dom(start, t);
            }
            let owner = file_list[i].file_owner.clone();
            let ghost here = self.outgoing_connections@;
            match self.outgoing_connections.remove(owner.as_str()) {
                Some(connection) => {
                    let mut connection = connection;
                    let text = connection.download_file(file_list[i].file_path.clone());
                    self.outgoing_connections.insert(owner.clone(), connection);
                    let ghost writes = r@;
                    r.push((owner, text));
                    proof {
                        assert(self.outgoing_connections@ =~= here.insert(owner@, connection@));
                        assert(pair_views(r@) =~= pair_views(writes).push((owner@, text@)));
                    }
                },
                None => {},
            }
            i += 1;
        }
        assert(all.take(i as int) =~= all);
        r
    }

    fn change_one(&mut self, display_name: &str, change: Change)
        requires
            old(self).outgoing_connections@.dom().contains(display_name@),
        ensures
            final(self).outgoing_connections@ == old(self).outgoing_connections@.insert(
                display_name@,
                changed(old(self).outgoing_connections@[display_name@], change),
            ),
            final(self).is_all_paused == old(self).is_all_paused,
    {
        let ghost map = self.outgoing_connections@;
        match self.outgoing_connections.remove(display_name) {
            Some(connection) => {
                let mut c = connection;
                let ghost before = c@;
                match change {
                    Change::CancelAll => {
                        if c.active_download.is_some() {
                            c.stop_active_download = true;
                        }
                        c.download_queue = VecDeque::new();
                        assert(texts(c.download_queue@) =~= seq![]);
                    },
                    Change::Resume => {
                        c.is_paused = false;
                    },
                    Change::Pause => {
                        c.is_paused = true;
                        c.stop_active_download = true;
                    },
                    Change::ClearInvalid => {
                        c.invalid_downloads = Vec::new();
                        assert(texts(c.invalid_downloads@) =~= seq![]);
                    },
                    Change::ClearFinished => {
                        c.finished_downloads = Vec::new();
                        assert(pair_views(c.finished_downloads@) =~= seq![]);
                    },
                }
                assert(c@ =~= changed(before, change));
                self.outgoing_connections.insert(display_name.to_owned(), c);
                assert(self.outgoing_connections@ =~= map.insert(display_name@, c@));
            },
            None => {},
        }
    }

    fn change_all(&mut self, change: Change)
        ensures
            final(self).outgoing_connections@ == all_changed(
                old(self).outgoing_connections@,
                change,
            ),
            final(self).is_all_paused == old(self).is_all_paused,
    {
        let ghost start = self.outgoing_connections@;
        let names = self.outgoing_connections.keys();
        let ghost all = names.deep_view();
        let mut i: usize = 0;
        assert(self.outgoing_connections@ =~= with_change(start, among(all.take(0)), change));
        while i < names.len()
            invariant
                i <= names@.len(),
                all == names.deep_view(),
                all.no_duplicates(),
                forall|name: Seq<char>| #[trigger] all.contains(name) <==> start.dom().contains(name),
                self.outgoing_connections@ == with_change(
                    start,
                    among(all.take(i as int)),
                    change,
                ),
                self.is_all_paused == old(self).is_all_paused,
            decreases names@.len() - i,
        {
            let ghost name = all[i as int];
            let ghost t = all.take(i as int);
            let ghost u = all.take(i + 1);
            proof {
                assert(all.contains(name));
                assert(!t.contains(name)) by {
                    if t.contains(name) {
                        let k = choose|k: int| 0 <= k < t.len() && t[k] == name;
                        assert(all[k] == all[i as int]);
                    }
                }
                assert(u =~= t.push(name));
                assert forall|n: Seq<char>| #[trigger] u.contains(n) <==> t.contains(n) || n
                    == name by {
                    if t.contains(n) {
                        let k = choose|k: int| 0 <= k < t.len() && t[k] == n;
                        assert(u[k] == n);
                    }
                    assert(u[i as int] == name);
                }
            }
            self.change_one(names[i].as_str(), change);
            assert(self.outgoing_connections@ =~= with_change(start, among(u), change));
            i += 1;
        }
        assert(all.take(i as int) =~= all);
        assert(self.outgoing_connections@ =~= all_changed(start, change));
    }

    /// Cancels all downloads.
    pub fn cancel_all_downloads(&mut self)
        ensures
            final(self).outgoing_connections@ == all_changed(
                old(self).outgoing_connections@,
                Change::CancelAll,
            ),
            final(self).is_all_paused == old(self).is_all_paused,
    {
        self.change_all(Change::CancelAll);
    }

    /// Cancels a download. The result is the queue file of the user, where it has to be written.
    pub fn cancel_single_download(&mut self, display_name: &str, file_path: &str) -> (r: Option<
        String,
    >)
        requires
            old(self).outgoing_connections@.dom().contains(display_name@),
        ensures
            final(self).outgoing_connections@ == old(self).outgoing_connections@.insert(
                display_name@,
                cancelled(old(self).outgoing_connections@[display_name@], file_path@),
            ),
            final(self).is_all_paused == old(self).is_all_paused,
            match old(self).outgoing_connections@[display_name@].active {
                Some(f) if f.path == single_backslashes(file_path@) => r is None,
                _ => r is Some && r->0@ == lines_text(
                    queued(final(self).outgoing_connections@[display_name@]),
                ),
            },
    {
        let ghost map = self.outgoing_connections@;
        match self.outgoing_connections.remove(display_name) {
            Some(connection) => {
                let mut connection = connection;
                let r = connection.cancel(file_path);
                self.outgoing_connections.insert(display_name.to_owned(), connection);
                assert(self.outgoing_connections@ =~= map.insert(display_name@, connection@));
                r
            },
            None => None,
        }
    }

    /// Downloads from a user go on.
    pub fn resume_downloads(&mut self, display_name: &str)
        requires
            old(self).outgoing_connections@.dom().contains(display_name@),
        ensures
            final(self).outgoing_connections@ == old(self).outgoing_connections@.insert(
                display_name@,
                changed(old(self).outgoing_connections@[display_name@], Change::Resume),
            ),
            final(self).is_all_paused == old(self).is_all_paused,
    {
        self.change_one(display_name, Change::Resume);
    }

    /// All downloads go on.
    pub fn resume_all_downloads(&mut self)
        ensures
            final(self).outgoing_connections@ == all_changed(
                old(self).outgoing_connections@,
                Change::Resume,
            ),
            !final(self).is_all_paused,
    {
        self.change_all(Change::Resume);
        self.is_all_paused = false;
    }

    /// All downloads pause.
    pub fn pause_all_downloads(&mut self)
        ensures
            final(self).outgoing_connections@ == all_changed(
                old(self).outgoing_connections@,
                Change::Pause,
            ),
            final(self).is_all_paused,
    {
        self.is_all_paused = true;
        self.change_all(Change::Pause);
    }

    /// Downloads from a user pause.
    pub fn pause_downloads_for_user(&mut self, display_name: &str)
        requires
            old(self).outgoing_connections@.dom().contains(display_name@),
        ensures
            final(self).outgoing_connections@ == old(self).outgoing_connections@.insert(
                display_name@,
                changed(old(self).outgoing_connections@[display_name@], Change::Pause),
            ),
            final(self).is_all_paused == old(self).is_all_paused,
    {
        self.change_one(display_name, Change::Pause);
    }

    pub fn clear_invalid_downloads(&mut self)
        ensures
            final(self).outgoing_connections@ == all_changed(
                old(self).outgoing_connections@,
                Change::ClearInvalid,
            ),
            final(self).is_all_paused == old(self).is_all_paused,
    {
        self.change_all(Change::ClearInvalid);
    }

    pub fn clear_finished_downloads(&mut self)
        ensures
            final(self).outgoing_connections@ == all_changed(
                old(self).outgoing_connections@,
                Change::ClearFinished,
            ),
            final(self).is_all_paused == old(self).is_all_paused,
    {
        self.change_all(Change::ClearFinished);
    }
}

/// Whether a path survives being kept in a queue file: it is on one line, and has no white space
/// round it.
pub open spec fn is_keepable(path: Seq<char>) -> bool {
    &&& path.len() > 0
    &&& !path.contains('\n')
    &&& !is_white_space(path[0])
    &&& !is_white_space(path.last())
}

proof fn lemma_kept_push(lines: Seq<Seq<char>>, line: Seq<char>)
    ensures
        trimmed(line).len() > 0 ==> kept(lines.push(line)) == kept(lines).push(trimmed(line)),
        trimmed(line).len() == 0 ==> kept(lines.push(line)) == kept(lines),
{
    assert(lines.push(line).drop_last() =~= lines);
}

proof fn lemma_pieces_of_lines(paths: Seq<Seq<char>>)
    requires
        forall|i: int| 0 <= i < paths.len() ==> is_keepable(#[trigger] paths[i]),
    ensures
        pieces(lines_text(paths)) == paths.push(seq![]),
    decreases paths.len(),
{
    if paths.len() == 0 {
        assert(pieces(Seq::<char>::empty()) =~= seq![Seq::<char>::empty()]);
        assert(paths.push(seq![]) =~= seq![Seq::<char>::empty()]);
    } else {
        let front = paths.drop_last();
        let a = lines_text(front);
        let line = paths.last();
        assert forall|i: int| 0 <= i < front.len() implies is_keepable(#[trigger] front[i]) by {
            assert(front[i] == paths[i]);
        }
        lemma_pieces_of_lines(front);
        assert(is_keepable(paths[paths.len() - 1]));
        lemma_pieces_append(a, line + "\n"@);
        lemma_pieces_of_line(line);
        assert(a + (line + "\n"@) =~= a + line + "\n"@);
        assert(front.push(seq![]).last() + (line + "\n"@) =~= line + "\n"@);
        assert(front.push(Seq::<char>::empty()).drop_last() + seq![line, Seq::<char>::empty()]
            =~= paths.push(seq![]));
    }
}

proof fn lemma_kept_paths(paths: Seq<Seq<char>>)
    requires
        forall|i: int| 0 <= i < paths.len() ==> is_keepable(#[trigger] paths[i]),
    ensures
        kept(paths) == paths,
    decreases paths.len(),
{
    if paths.len() > 0 {
        let front = paths.drop_last();
        let line = paths.last();
        assert forall|i: int| 0 <= i < front.len() implies is_keepable(#[trigger] front[i]) by {
            assert(front[i] == paths[i]);
        }
        lemma_kept_paths(front);
        assert(is_keepable(paths[paths.len() - 1]));
        assert(trimmed_start(line) == line);
        assert(trimmed_end(line) == line);
        assert(trimmed(line) == line);
        assert(front.push(line) =~= paths);
    }
}

/// A queue file is read back as it was written, what was being downloaded first.
pub proof fn law_queue_file_is_read_back(c: OutgoingView)
    requires
        forall|i: int| 0 <= i < queued(c).len() ==> is_keepable(#[trigger] queued(c)[i]),
    ensures
        queue_in(Some(lines_text(queued(c)))) == queued(c),
{
    let paths = queued(c);
    lemma_pieces_of_lines(paths);
    lemma_kept_paths(paths);
    lemma_kept_push(paths, seq![]);
}

/// What is paused goes on with what it was paused at: it is neither lost from the queue nor taken
/// for finished.
pub proof fn law_pause_keeps_queue(c: OutgoingView, f: FileView, destination: Seq<char>)
    ensures
        downloaded(changed(c, Change::Pause), f, destination) == changed(c, Change::Pause),
        changed(changed(c, Change::Pause), Change::Resume).queue == c.queue,
        changed(changed(c, Change::Pause), Change::Resume).finished == c.finished,
{
}

/// Cancelling everything leaves nothing to wait, and stops what is being downloaded.
pub proof fn law_cancel_all_stops(c: OutgoingView)
    ensures
        changed(c, Change::CancelAll).queue.len() == 0,
        c.active is Some ==> stop_of(changed(c, Change::CancelAll)) is Some,
{
}

proof fn lemma_without_path_is_filter(queue: Seq<Seq<char>>, path: Seq<char>)
    ensures
        without_path(queue, path) == queue.filter(|p: Seq<char>| p != path),
    decreases queue.len(),
{
    reveal(Seq::filter);
    if queue.len() > 0 {
        lemma_without_path_is_filter(queue.drop_last(), path);
    } else {
        assert(without_path(queue, path) =~= queue.filter(|p: Seq<char>| p != path));
    }
}

/// Cancelling what is being downloaded stops it and leaves what waits. Cancelling what waits takes
/// it out of the queue, which stays in order, and leaves what is being downloaded. Nothing else
/// changes.
pub proof fn law_one_download_is_cancelled(c: OutgoingView, path: Seq<char>)
    ensures
        ({
            let d = cancelled(c, path);
            let is_active = c.active is Some && c.active->0.path == single_backslashes(path);
            &&& is_active ==> d.active is None && d.stop && d.queue == c.queue
            &&& !is_active ==> d.active == c.active && d.stop == c.stop
            &&& !is_active && c.active is Some ==> d.queue == c.queue.filter(
                |p: Seq<char>| p != path,
            )
            &&& c.active is None ==> d.queue == c.queue.filter(
                |p: Seq<char>| p != single_backslashes(path),
            )
            &&& d.user == c.user && d.finished == c.finished && d.invalid == c.invalid
            &&& d.root == c.root && d.percent == c.percent && d.online == c.online
            &&& d.deleted == c.deleted && d.reset == c.reset && d.paused == c.paused
        }),
{
    lemma_without_path_is_filter(c.queue, path);
    lemma_without_path_is_filter(c.queue, single_backslashes(path));
}

/// A download ends early exactly where the user was removed, the connection is to be reset or the
/// download was stopped, in this order.
pub proof fn law_stop_has_a_reason(c: OutgoingView)
    ensures
        stop_of(c) is None <==> !c.deleted && !c.reset && !c.stop,
        c.deleted ==> stop_of(c) == Some(StopReason::Deleted),
        !c.deleted && c.reset ==> stop_of(c) == Some(StopReason::Reset),
        !c.deleted && !c.reset && c.stop ==> stop_of(c) == Some(StopReason::Stopped),
{
}

/// Over a connection, the first of the queue is downloaded where the user shares it, and given up
/// where not: then it leaves the queue for the invalid ones, which is written down. Nothing is
/// downloaded where the user was removed, the connection is to be reset, or downloads pause.
pub proof fn law_first_of_queue_is_downloaded(c: OutgoingView)
    requires
        c.root is Some,
    ensures
        ({
            let (d, step) = outgoing_step(c);
            let path = single_backslashes(c.queue[0]);
            &&& step is End <==> c.deleted || c.reset
            &&& step is SleepMillis <==> !c.deleted && !c.reset && (c.paused || c.queue.len() == 0)
            &&& step is End || step is SleepMillis ==> d == c
            &&& step matches OutgoingStepView::Download(f) ==> {
                &&& f.path == path && is_within(f, c.root->0)
                &&& d.active == Some(f) && d.percent == 0 && !d.stop
                &&& d.queue == c.queue && d.invalid == c.invalid && d.finished == c.finished
            }
            &&& step is WriteQueue ==> {
                &&& forall|g: FileView| #[trigger] is_within(g, c.root->0) ==> g.path != path
                &&& d.invalid.len() == c.invalid.len() + 1
                &&& d.invalid.last() == path && d.invalid.drop_last() == c.invalid
                &&& c.queue == seq![c.queue[0]] + d.queue
                &&& d.active is None && d.finished == c.finished
            }
            &&& d.user == c.user && d.root == c.root && d.online == c.online
            &&& d.deleted == c.deleted && d.reset == c.reset && d.paused == c.paused
        }),
{
    let (d, step) = outgoing_step(c);
    let path = single_backslashes(c.queue[0]);
    if step is Download || step is WriteQueue {
        law_file_at(path, c.root->0);
    }
    if step is WriteQueue {
        assert(d.invalid.drop_last() =~= c.invalid);
        assert(c.queue =~= seq![c.queue[0]] + d.queue);
    }
}

/// A download that is over leaves the queue, unless it only pauses or the connection is at its end.
/// A directory counts as finished then, unless it was stopped; files count by themselves.
pub proof fn law_downloaded_leaves_the_queue(
    c: OutgoingView,
    f: FileView,
    destination: Seq<char>,
)
    ensures
        ({
            let d = downloaded(c, f, destination);
            let is_over = !c.reset && !c.deleted && !c.paused;
            &&& !is_over ==> d == c
            &&& is_over ==> d.active is None
            &&& is_over && c.queue.len() > 0 ==> c.queue == seq![c.queue[0]] + d.queue
            &&& is_over && !(f.is_directory && !c.stop) ==> d.finished == c.finished
            &&& is_over && f.is_directory && !c.stop ==> {
                &&& d.finished.len() == c.finished.len() + 1
                &&& d.finished.last() == (f.path, destination)
                &&& d.finished.drop_last() == c.finished
            }
            &&& d.invalid == c.invalid && d.user == c.user && d.root == c.root
            &&& after_of(c, d) is End <==> c.reset || c.deleted
            &&& after_of(c, d) is Again <==> !c.reset && !c.deleted && c.paused
        }),
{
    let d = downloaded(c, f, destination);
    if !c.reset && !c.deleted && !c.paused {
        if c.queue.len() > 0 {
            assert(c.queue =~= seq![c.queue[0]] + d.queue);
        }
        assert(f.is_directory && !c.stop ==> d.finished.drop_last() =~= c.finished);
    }
}

/// A user is connected to exactly where something waits and the user was not removed. An order to
/// reset the connection is taken back then.
pub proof fn law_connects_where_something_waits(c: OutgoingView)
    ensures
        ({
            let (d, step) = forever_step(c);
            &&& step is Connect <==> !c.deleted && c.queue.len() > 0
            &&& step is End <==> c.deleted
            &&& step is Connect ==> !d.reset
            &&& d == (OutgoingView { reset: d.reset, ..c })
            &&& !(step is Connect) ==> d == c
        }),
        ({
            let (d, step) = ended(c);
            &&& step is End <==> c.deleted
            &&& !(step is Connect)
            &&& !d.online
            &&& d == (OutgoingView { online: false, ..c })
        }),
{
}

/// A file is taken only where the first answer carries a part of it. Where the other side does not
/// have it, it is kept as not valid, and only there.
pub proof fn law_first_answer(c: OutgoingView, msg: u8, path: Seq<char>)
    ensures
        ({
            let (d, answer) = answered_first(c, msg, path);
            &&& answer is Chunk <==> msg as u16 == MSG_FILE_CHUNK
            &&& answer is Invalid <==> msg as u16 == MSG_FILE_INVALID_FILE
            &&& answer is Invalid ==> {
                &&& d.invalid.len() == c.invalid.len() + 1
                &&& d.invalid.last() == path && d.invalid.drop_last() == c.invalid
            }
            &&& d == (OutgoingView { invalid: d.invalid, ..c })
            &&& !(answer is Invalid) ==> d == c
        }),
{
    let (d, answer) = answered_first(c, msg, path);
    if answer is Invalid {
        assert(d.invalid.drop_last() =~= c.invalid);
    }
}

/// A file counts as finished exactly where the other side says that it has ended and nothing has
/// stopped the download before; it is then kept with the place where it was saved. Where something
/// has stopped it, nothing changes.
pub proof fn law_next_answer(
    c: OutgoingView,
    msg: u8,
    percent: u64,
    path: Seq<char>,
    destination: Seq<char>,
)
    ensures
        ({
            let (d, answer) = answered_next(c, msg, percent, path, destination);
            &&& answer is Stopped <==> c.deleted || c.reset || c.stop
            &&& answer is Stopped ==> d == c
            &&& !(answer is Stopped) ==> d.percent == percent
            &&& answer is Finished <==> !(answer is Stopped) && msg as u16 == MSG_FILE_FINISHED
            &&& answer is Chunk <==> !(answer is Stopped) && msg as u16 == MSG_FILE_CHUNK
            &&& answer is Finished ==> {
                &&& d.finished.len() == c.finished.len() + 1
                &&& d.finished.last() == (path, destination)
                &&& d.finished.drop_last() == c.finished
            }
            &&& !(answer is Finished) ==> d.finished == c.finished
            &&& d == (OutgoingView { percent: d.percent, finished: d.finished, ..c })
        }),
{
    let (d, answer) = answered_next(c, msg, percent, path, destination);
    if answer is Finished {
        assert(d.finished.drop_last() =~= c.finished);
    }
}

/// What is kept of a queue on disk starts with what is being downloaded, and goes on with all that
/// waits.
pub proof fn law_active_download_is_kept(c: OutgoingView)
    ensures
        c.active is None ==> queued(c) == c.queue,
        c.active matches Some(f) ==> queued(c).len() == c.queue.len() + 1 && queued(c)[0] == f.path
            && queued(c).skip(1) == c.queue,
{
    if c.active is Some {
        assert(queued(c).skip(1) =~= c.queue);
    }
}

/// What is done to downloads does no more: cancelling empties the queue, resuming and pausing
/// decide whether they pause, clearing empties what was invalid or finished. Of all users it is
/// done to each, and to nobody else.
pub proof fn law_changes_do_no_more(
    c: OutgoingView,
    change: Change,
    map: Map<Seq<char>, OutgoingView>,
    name: Seq<char>,
)
    ensures
        ({
            let d = changed(c, change);
            &&& d.queue == (if change is CancelAll {
                seq![]
            } else {
                c.queue
            })
            &&& d.invalid == (if change is ClearInvalid {
                seq![]
            } else {
                c.invalid
            })
            &&& d.finished == (if change is ClearFinished {
                seq![]
            } else {
                c.finished
            })
            &&& d.paused == (change is Pause || (c.paused && !(change is Resume)))
            &&& d.stop == (c.stop || change is Pause || (change is CancelAll && c.active is Some))
            &&& d.user == c.user && d.root == c.root && d.active == c.active
            &&& d.percent == c.percent && d.online == c.online && d.deleted == c.deleted
            &&& d.reset == c.reset
        }),
        all_changed(map, change).dom() == map.dom(),
        map.dom().contains(name) ==> all_changed(map, change)[name] == changed(map[name], change),
{
    assert(all_changed(map, change).dom() =~= map.dom());
}

/// Wanted files wait behind all others in the queues of their owners, in the order in which they
/// are wanted; nothing else of the owners changes. Each time a file is put into a queue, the file
/// of that queue is written.
pub proof fn law_wanted_files_wait(
    map: Map<Seq<char>, OutgoingView>,
    files: Seq<(Seq<char>, Seq<char>)>,
    name: Seq<char>,
)
    requires
        forall|i: int| 0 <= i < files.len() ==> map.dom().contains((#[trigger] files[i]).0),
    ensures
        with_files(map, files).0.dom() == map.dom(),
        with_files(map, files).1.len() == files.len(),
        forall|i: int|
            0 <= i < files.len() ==> (#[trigger] with_files(map, files).1[i]).0 == files[i].0,
        map.dom().contains(name) ==> ({
            let d = with_files(map, files).0[name];
            let wanted = files.filter(|f: (Seq<char>, Seq<char>)| f.0 == name).map_values(
                |f: (Seq<char>, Seq<char>)| f.1,
            );
            &&& d.queue == map[name].queue + wanted
            &&& d == (OutgoingView { queue: d.queue, ..map[name] })
        }),
    decreases files.len(),
{
    reveal(Seq::filter);
    let p = |f: (Seq<char>, Seq<char>)| f.0 == name;
    let second = |f: (Seq<char>, Seq<char>)| f.1;
    lemma_with_files_dom(map, files);
    if files.len() > 0 {
        let front = files.drop_last();
        assert forall|i: int| 0 <= i < front.len() implies map.dom().contains(
            (#[trigger] front[i]).0,
        ) by {
            assert(front[i] == files[i]);
        }
        law_wanted_files_wait(map, front, name);
        lemma_with_files_dom(map, front);
        assert(map.dom().contains(files[files.len() - 1].0));
        assert forall|i: int| 0 <= i < files.len() implies (
        #[trigger] with_files(map, files).1[i]).0 == files[i].0 by {
            if i < front.len() {
                assert(with_files(map, files).1[i] == with_files(map, front).1[i]);
                assert(front[i] == files[i]);
            }
        }
        if map.dom().contains(name) {
            let before = with_files(map, front).0[name];
            let d = with_files(map, files).0[name];
            if files.last().0 == name {
                assert(files.filter(p).map_values(second) =~= front.filter(p).map_values(
                    second,
                ).push(files.last().1));
                assert(d.queue =~= map[name].queue + files.filter(p).map_values(second));
            }
        }
    } else if map.dom().contains(name) {
        assert(map[name].queue + files.filter(p).map_values(second) =~= map[name].queue);
    }
}

/// At the start, every user is there with what the queue file says, of two with the same name the
/// later; nothing is being downloaded, finished or invalid, and whether downloads pause is as
/// asked for.
pub proof fn law_users_start_with_their_queues(
    users: Seq<TrustedView>,
    queues: Seq<Option<Seq<char>>>,
    paused: bool,
    name: Seq<char>,
)
    requires
        users.len() == queues.len(),
    ensures
        ({
            let map = fresh_connections(users, queues, paused);
            &&& map.dom().contains(name) <==> exists|i: int|
                0 <= i < users.len() && (#[trigger] users[i]).name == name
            &&& map.dom().contains(name) ==> exists|i: int|
                #![trigger users[i]]
                0 <= i < users.len() && users[i].name == name && (forall|k: int|
                    i < k < users.len() ==> (#[trigger] users[k]).name != name) && ({
                    let c = map[name];
                    &&& c.user == users[i]
                    &&& c.queue == queue_in(queues[i])
                    &&& c.paused == paused
                    &&& c.active is None && c.root is None
                    &&& c.finished.len() == 0 && c.invalid.len() == 0 && c.percent == 0
                    &&& !c.online && !c.deleted && !c.reset && !c.stop
                })
        }),
    decreases users.len(),
{
    if users.len() > 0 {
        let front = users.drop_last();
        let rest = queues.drop_last();
        law_users_start_with_their_queues(front, rest, paused, name);
        let n = users.len() - 1;
        if users[n].name != name {
            if fresh_connections(front, rest, paused).dom().contains(name) {
                let i = choose|i: int|
                    #![trigger front[i]]
                    0 <= i < front.len() && front[i].name == name && (forall|k: int|
                        i < k < front.len() ==> (#[trigger] front[k]).name != name) && ({
                        let c = fresh_connections(front, rest, paused)[name];
                        &&& c.user == front[i]
                        &&& c.queue == queue_in(rest[i])
                        &&& c.paused == paused
                        &&& c.active is None && c.root is None
                        &&& c.finished.len() == 0 && c.invalid.len() == 0 && c.percent == 0
                        &&& !c.online && !c.deleted && !c.reset && !c.stop
                    });
                assert(users[i] == front[i]);
                assert(queues[i] == rest[i]);
                assert forall|k: int| i < k < users.len() implies (#[trigger] users[k]).name
                    != name by {
                    if k < front.len() {
                        assert(front[k] == users[k]);
                    }
                }
            }
            if exists|i: int| 0 <= i < users.len() && (#[trigger] users[i]).name == name {
                let i = choose|i: int| 0 <= i < users.len() && (#[trigger] users[i]).name == name;
                assert(front[i] == users[i]);
            }
        }
    }
}

/// A paused connection rests for three seconds and one with an empty queue for one; after a
/// connection has ended, ten seconds pass before the next.
pub proof fn law_rests(c: OutgoingView)
    ensures
        outgoing_step(c).1 matches OutgoingStepView::SleepMillis(n) ==> n == if c.paused {
            3000u64
        } else {
            1000u64
        },
        forever_step(c).1 matches ForeverStep::SleepMillis(n) ==> n == 1000,
        ended(c).1 matches ForeverStep::SleepMillis(n) ==> n == 10000,
{
}

/// Whenever a queue changes, what is written to its file is what then waits, so that reading the
/// file gives back the queue.
pub proof fn law_changed_queue_is_written(
    c: OutgoingView,
    f: FileView,
    destination: Seq<char>,
    map: Map<Seq<char>, OutgoingView>,
    files: Seq<(Seq<char>, Seq<char>)>,
)
    ensures
        outgoing_step(c).1 matches OutgoingStepView::WriteQueue(text) ==> text == lines_text(
            queued(OutgoingView { active: c.active, ..outgoing_step(c).0 }),
        ),
        after_of(c, downloaded(c, f, destination)) matches AfterView::WriteQueue(text) ==> text
            == lines_text(downloaded(c, f, destination).queue),
        files.len() > 0 ==> ({
            let (owner, text) = with_files(map, files).1.last();
            owner == files.last().0 && text == lines_text(
                queued(with_files(map, files).0[owner]),
            )
        }),
        files.len() > 0 ==> with_files(map, files).1.drop_last() == with_files(
            map,
            files.drop_last(),
        ).1,
{
    assert(files.len() > 0 ==> with_files(map, files).1.drop_last() =~= with_files(
        map,
        files.drop_last(),
    ).1);
}

/// A finished download changes what is active, finished and waiting, and nothing else.
pub proof fn law_finished_download_does_no_more(
    c: OutgoingView,
    f: FileView,
    destination: Seq<char>,
)
    ensures
        ({
            let d = downloaded(c, f, destination);
            &&& d == (OutgoingView { active: d.active, finished: d.finished, queue: d.queue, ..c })
            &&& c.queue.len() == 0 ==> d.queue.len() == 0
        }),
{
}

/// A queue file holds one path to a line: blank lines are left out, white space round a path is
/// not part of it, and the order stays. Where there is no file, nothing waits.
pub proof fn law_lines_are_the_queue(text: Seq<char>)
    ensures
        queue_in(Some(text)) == pieces(text).map_values(|l: Seq<char>| trimmed(l)).filter(
            |l: Seq<char>| l.len() > 0,
        ),
        queue_in(None).len() == 0,
{
    lemma_kept_is_filter(pieces(text));
}

proof fn lemma_kept_is_filter(lines: Seq<Seq<char>>)
    ensures
        kept(lines) == lines.map_values(|l: Seq<char>| trimmed(l)).filter(
            |l: Seq<char>| l.len() > 0,
        ),
    decreases lines.len(),
{
    reveal(Seq::filter);
    let all = lines.map_values(|l: Seq<char>| trimmed(l));
    if lines.len() > 0 {
        let front = lines.drop_last();
        lemma_kept_is_filter(front);
        assert(all.drop_last() =~= front.map_values(|l: Seq<char>| trimmed(l)));
        assert(all.last() == trimmed(lines.last()));
    }
}

/// An answer that was not expected is reported with the number that came.
pub proof fn law_unexpected_answer_is_named(
    c: OutgoingView,
    msg: u8,
    percent: u64,
    path: Seq<char>,
    destination: Seq<char>,
)
    requires
        msg as u16 != MSG_CANNOT_SELECT_DIRECTORY,
    ensures
        answered_first(c, msg, path).1 matches FirstAnswerView::Unexpected(text) ==> has_part(
            text,
            decimal(msg as nat),
        ),
        answered_next(c, msg, percent, path, destination).1 matches NextAnswerView::Unexpected(
            text,
        ) ==> has_part(text, decimal(msg as nat)),
{
    let none = Seq::<char>::empty();
    let d = decimal(msg as nat);
    law_parts_are_found("!!!! ERROR: Expected MSG_FILE_CHUNK, got: "@, d, none);
    law_parts_are_found("Expected MSG_FILE_CHUNK, got "@, d, none);
    assert("!!!! ERROR: Expected MSG_FILE_CHUNK, got: "@ + d + none
        =~= "!!!! ERROR: Expected MSG_FILE_CHUNK, got: "@ + d);
    assert("Expected MSG_FILE_CHUNK, got "@ + d + none =~= "Expected MSG_FILE_CHUNK, got "@ + d);
}

/// A queue is written with a line for each path, in order.
pub proof fn law_queue_has_a_line_for_each(paths: Seq<Seq<char>>, path: Seq<char>)
    ensures
        lines_text(seq![]).len() == 0,
        lines_text(paths.push(path)) == lines_text(paths) + path + seq!['\n'],
{
    reveal_strlit("\n");
    assert("\n"@ =~= seq!['\n']);
    assert(paths.push(path).drop_last() =~= paths);
}

} // verus!
