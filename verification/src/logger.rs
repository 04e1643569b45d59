//! The log that is kept in memory, and what goes to the log file.
use std::collections::VecDeque;
use vstd::prelude::*;
use crate::text::{cat2, cat5, decimal, decimal_string, has_prefix, texts};

verus! {

/// How many lines are kept.
pub const LOG_MESSAGES_COUNT: usize = 1000;

/// After how many lines the log file is written anew.
pub const LOG_FILE_ROTATE_COUNT: usize = 2000;

#[derive(Clone, Copy, Debug, PartialEq, Eq, Structural)]
pub enum LogLevel {
    Critical,
    Error,
    Warning,
    Info,
    Debug,
}

impl LogLevel {
    /// How important a level is.
    pub open spec fn spec_rank(self) -> u8 {
        match self {
            LogLevel::Critical => 50,
            LogLevel::Error => 40,
            LogLevel::Warning => 30,
            LogLevel::Info => 20,
            LogLevel::Debug => 10,
        }
    }

    pub fn rank(self) -> (r: u8)
        ensures
            r == self.spec_rank(),
    {
        match self {
            LogLevel::Critical => 50,
            LogLevel::Error => 40,
            LogLevel::Warning => 30,
            LogLevel::Info => 20,
            LogLevel::Debug => 10,
        }
    }

    pub open spec fn tag_text(self) -> Seq<char> {
        match self {
            LogLevel::Critical => "[CRITICAL]"@,
            LogLevel::Error => "[ERROR]   "@,
            LogLevel::Warning => "[WARNING] "@,
            LogLevel::Info => "[INFO]    "@,
            LogLevel::Debug => "[DEBUG]   "@,
        }
    }

    /// How a level is shown in a line.
    pub fn tag(self) -> (s: &'static str)
        ensures
            s@ == self.tag_text(),
    {
        match self {
            LogLevel::Critical => "[CRITICAL]",
            LogLevel::Error => "[ERROR]   ",
            LogLevel::Warning => "[WARNING] ",
            LogLevel::Info => "[INFO]    ",
            LogLevel::Debug => "[DEBUG]   ",
        }
    }
}

/// A log line: level, time in seconds and message. `seconds` is none where the clock stands
/// before the epoch.
pub open spec fn log_line(level: LogLevel, seconds: Option<u64>, message: Seq<char>) -> Seq<char> {
    level.tag_text() + " "@ + (match seconds {
        Some(n) => decimal(n as nat),
        None => "TimeError"@,
    }) + " |  "@ + message
}

/// Every line with a line break behind it.
pub open spec fn as_lines(lines: Seq<Seq<char>>) -> Seq<char>
    decreases lines.len(),
{
    if lines.len() == 0 {
        seq![]
    } else {
        as_lines(lines.drop_last()) + lines.last() + "\n"@
    }
}

/// What has to be done with the log file.
#[derive(Debug)]
pub enum FileOutput {
    Nothing,
    Append(String),
    Rewrite(String),
}

/// What a `FileOutput` says.
pub enum FileOutputView {
    Nothing,
    Append(Seq<char>),
    Rewrite(Seq<char>),
}

impl View for FileOutput {
    type V = FileOutputView;

    open spec fn view(&self) -> FileOutputView {
        match self {
            FileOutput::Nothing => FileOutputView::Nothing,
            FileOutput::Append(s) => FileOutputView::Append(s@),
            FileOutput::Rewrite(s) => FileOutputView::Rewrite(s@),
        }
    }
}

/// The log. The newest line stands first.
pub struct Logger {
    log_lines: VecDeque<String>,
    active_log_level: LogLevel,
    is_log_to_file: bool,
    log_path: String,
    log_file_write_count: usize,
}

/// What a `Logger` holds.
#[verifier::ext_equal]
pub struct LoggerView {
    pub lines: Seq<Seq<char>>,
    pub level: LogLevel,
    pub to_file: bool,
    pub path: Seq<char>,
    pub file_count: nat,
}

impl View for Logger {
    type V = LoggerView;

    closed spec fn view(&self) -> LoggerView {
        LoggerView {
            lines: texts(self.log_lines@),
            level: self.active_log_level,
            to_file: self.is_log_to_file,
            path: self.log_path@,
            file_count: self.log_file_write_count as nat,
        }
    }
}

/// The lines with a new one in front, the oldest ones dropped.
pub open spec fn with_line(lines: Seq<Seq<char>>, line: Seq<char>) -> Seq<Seq<char>> {
    seq![line] + if lines.len() >= LOG_MESSAGES_COUNT {
        lines.take(LOG_MESSAGES_COUNT - 1)
    } else {
        lines
    }
}

/// The log after a message, and what goes to the log file.
pub open spec fn logged(
    l: LoggerView,
    level: LogLevel,
    seconds: Option<u64>,
    message: Seq<char>,
) -> (LoggerView, FileOutputView) {
    if level.spec_rank() < l.level.spec_rank() {
        (l, FileOutputView::Nothing)
    } else {
        let line = log_line(level, seconds, message);
        let lines = with_line(l.lines, line);
        if !l.to_file {
            (LoggerView { lines, ..l }, FileOutputView::Nothing)
        } else if l.file_count >= LOG_FILE_ROTATE_COUNT {
            (LoggerView { lines, file_count: 0, ..l }, FileOutputView::Rewrite(as_lines(lines)))
        } else {
            (
                LoggerView { lines, file_count: l.file_count + 1, ..l },
                FileOutputView::Append(line + "\n"@),
            )
        }
    }
}

impl Logger {
    #[verifier::type_invariant]
    spec fn type_inv(&self) -> bool {
        self.log_file_write_count <= LOG_FILE_ROTATE_COUNT
    }

    pub fn new(log_level: LogLevel, is_log_to_file: bool, log_path: String) -> (l: Logger)
        ensures
            l@ == (LoggerView {
                lines: seq![],
                level: log_level,
                to_file: is_log_to_file,
                path: log_path@,
                file_count: 0,
            }),
    {
        let l = Logger {
            log_lines: VecDeque::with_capacity(1000),
            active_log_level: log_level,
            is_log_to_file,
            log_path,
            log_file_write_count: 0,
        };
        assert(l@.lines =~= seq![]);
        l
    }

    pub fn get_log_path(&self) -> (s: String)
        ensures
            s@ == self@.path,
    {
        self.log_path.clone()
    }

    pub fn set_log_level(&mut self, log_level: LogLevel)
        ensures
            final(self)@ == (LoggerView { level: log_level, ..old(self)@ }),
    {
        proof {
            use_type_invariant(&*self);
        }
        self.active_log_level = log_level;
    }

    pub fn get_log_level(&self) -> (l: LogLevel)
        ensures
            l == self@.level,
    {
        self.active_log_level
    }

    pub fn set_is_file_logging(&mut self, state: bool)
        ensures
            final(self)@ == (LoggerView { to_file: state, ..old(self)@ }),
    {
        proof {
            use_type_invariant(&*self);
        }
        self.is_log_to_file = state;
    }

    pub fn get_is_file_logging(&self) -> (r: bool)
        ensures
            r == self@.to_file,
    {
        self.is_log_to_file
    }

    /// All lines, the newest first.
    pub fn get_log_messages(&self) -> (v: Vec<String>)
        ensures
            texts(v@) == self@.lines,
    {
        let mut v: Vec<String> = Vec::new();
        let mut i: usize = 0;
        while i < self.log_lines.len()
            invariant
                i <= self.log_lines@.len(),
                v@.len() == i,
                forall|k: int| 0 <= k < i ==> #[trigger] v@[k] == self.log_lines@[k],
            decreases self.log_lines@.len() - i,
        {
            v.push(self.log_lines[i].clone());
            i += 1;
        }
        assert(texts(v@) =~= self@.lines);
        v
    }

    /// Logs a message. The first result is the line to show, if any, and the second what has to
    /// be done with the log file.
    pub fn log_message(&mut self, log_level: LogLevel, message: &str, seconds: Option<u64>) -> (r: (
        Option<String>,
        FileOutput,
    ))
        ensures
            (final(self)@, r.1@) == logged(old(self)@, log_level, seconds, message@),
            match r.0 {
                Some(line) => log_level.spec_rank() >= old(self)@.level.spec_rank() && line@
                    == log_line(log_level, seconds, message@),
                None => log_level.spec_rank() < old(self)@.level.spec_rank(),
            },
    {
        proof {
            use_type_invariant(&*self);
        }
        if log_level.rank() < self.active_log_level.rank() {
            return (None, FileOutput::Nothing);
        }
        let time = match seconds {
            Some(n) => decimal_string(n),
            None => "TimeError".to_owned(),
        };
        let line = cat5(log_level.tag(), " ", time.as_str(), " |  ", message);
        let mut lines: VecDeque<String> = VecDeque::new();
        std::mem::swap(&mut lines, &mut self.log_lines);
        let ghost before = lines@;
        while lines.len() >= LOG_MESSAGES_COUNT
            invariant
                lines@.len() <= before.len(),
                lines@ == before.take(lines@.len() as int),
                before.len() >= LOG_MESSAGES_COUNT ==> lines@.len() >= LOG_MESSAGES_COUNT - 1,
                before.len() < LOG_MESSAGES_COUNT ==> lines@ == before,
            decreases lines@.len(),
        {
            let ghost now = lines@;
            let dropped = lines.pop_back();
            assert(lines@ =~= before.take(now.len() - 1));
        }
        lines.push_front(line.clone());
        proof {
            assert(texts(lines@) =~= with_line(texts(before), line@));
        }
        let file_output = if self.is_log_to_file {
            if self.log_file_write_count >= LOG_FILE_ROTATE_COUNT {
                self.log_file_write_count = 0;
                FileOutput::Rewrite(all_lines(&lines))
            } else {
                self.log_file_write_count += 1;
                FileOutput::Append(cat2(line.as_str(), "\n"))
            }
        } else {
            FileOutput::Nothing
        };
        self.log_lines = lines;
        (Some(line), file_output)
    }

    /// Notes that the log file could not be opened, to be written anew or to be appended to.
    pub fn log_file_failed(&mut self, rewriting: bool, error: &str)
        ensures
            final(self)@ == (LoggerView {
                lines: seq![
                    (if rewriting {
                        "[ERROR] | Failed to open truncate log "@
                    } else {
                        "[ERROR] | Failed to open append log "@
                    }) + error@,
                ] + old(self)@.lines,
                ..old(self)@
            }),
    {
        proof {
            use_type_invariant(&*self);
        }
        let line = if rewriting {
            cat2("[ERROR] | Failed to open truncate log ", error)
        } else {
            cat2("[ERROR] | Failed to open append log ", error)
        };
        let mut lines: VecDeque<String> = VecDeque::new();
        std::mem::swap(&mut lines, &mut self.log_lines);
        let ghost before = lines@;
        lines.push_front(line);
        assert(texts(lines@) =~= seq![line@] + texts(before));
        self.log_lines = lines;
    }
}

fn all_lines(lines: &VecDeque<String>) -> (s: String)
    ensures
        s@ == as_lines(texts(lines@)),
{
    let ghost all = texts(lines@);
    let mut s = String::new();
    let mut i: usize = 0;
    assert(s@ =~= as_lines(all.take(0)));
    while i < lines.len()
        invariant
            i <= lines@.len(),
            all == texts(lines@),
            s@ == as_lines(all.take(i as int)),
        decreases lines@.len() - i,
    {
        s.push_str(lines[i].as_str());
        s.push_str("\n");
        assert(all.take(i + 1).drop_last() =~= all.take(i as int));
        i += 1;
    }
    assert(all.take(i as int) =~= all);
    s
}

/// After a message that is logged, the newest line is that message and no more than the limit
/// are kept.
pub proof fn law_log_is_bounded(
    l: LoggerView,
    level: LogLevel,
    seconds: Option<u64>,
    message: Seq<char>,
)
    requires
        level.spec_rank() >= l.level.spec_rank(),
    ensures
        1 <= logged(l, level, seconds, message).0.lines.len() <= LOG_MESSAGES_COUNT,
        logged(l, level, seconds, message).0.lines[0] == log_line(level, seconds, message),
{
}

/// The more important a level is, the higher it ranks; no two rank the same.
pub proof fn law_levels_are_ranked(a: LogLevel, b: LogLevel)
    ensures
        LogLevel::Debug.spec_rank() < LogLevel::Info.spec_rank(),
        LogLevel::Info.spec_rank() < LogLevel::Warning.spec_rank(),
        LogLevel::Warning.spec_rank() < LogLevel::Error.spec_rank(),
        LogLevel::Error.spec_rank() < LogLevel::Critical.spec_rank(),
        a.spec_rank() == b.spec_rank() ==> a == b,
{
}

/// A message below the level of the log leaves no trace. Any other is kept in front of the lines
/// that were there, of which only the oldest are dropped; it goes to the log file exactly where
/// there is one, at its end or, from time to time, with all lines that are kept. Settings stay.
pub proof fn law_messages_are_logged(
    l: LoggerView,
    level: LogLevel,
    seconds: Option<u64>,
    message: Seq<char>,
)
    ensures
        ({
            let (m, output) = logged(l, level, seconds, message);
            let is_logged = level.spec_rank() >= l.level.spec_rank();
            let line = log_line(level, seconds, message);
            &&& !is_logged ==> m == l && output is Nothing
            &&& is_logged ==> m.lines.len() > 0 && m.lines[0] == line
            &&& is_logged ==> m.lines.skip(1).is_prefix_of(l.lines)
            &&& is_logged && l.lines.len() < LOG_MESSAGES_COUNT ==> m.lines.skip(1) == l.lines
            &&& is_logged && l.lines.len() >= LOG_MESSAGES_COUNT ==> m.lines.len()
                == LOG_MESSAGES_COUNT
            &&& m.level == l.level && m.to_file == l.to_file && m.path == l.path
            &&& output is Nothing <==> !is_logged || !l.to_file
            &&& output is Rewrite <==> is_logged && l.to_file && l.file_count
                >= LOG_FILE_ROTATE_COUNT
            &&& output matches FileOutputView::Append(text) ==> text == line + "\n"@
                && m.file_count == l.file_count + 1
            &&& output matches FileOutputView::Rewrite(text) ==> text == as_lines(m.lines)
                && m.file_count == 0
            &&& output is Nothing ==> m.file_count == l.file_count
        }),
{
    let m = logged(l, level, seconds, message).0;
    if level.spec_rank() >= l.level.spec_rank() {
        let rest = m.lines.skip(1);
        if l.lines.len() >= LOG_MESSAGES_COUNT {
            assert(rest =~= l.lines.take(LOG_MESSAGES_COUNT - 1));
            assert(rest =~= l.lines.subrange(0, rest.len() as int));
        } else {
            assert(rest =~= l.lines);
            assert(rest =~= l.lines.subrange(0, rest.len() as int));
        }
    }
}

/// A line starts with its level and ends with its message, and the time stands between them.
pub proof fn law_line_says_all(level: LogLevel, n: u64, message: Seq<char>)
    ensures
        ({
            let line = log_line(level, Some(n), message);
            let tag = level.tag_text();
            &&& line.take(tag.len() as int) == tag
            &&& line.skip(line.len() - message.len()) == message
            &&& line.subrange(
                tag.len() as int + 1,
                tag.len() as int + 1 + decimal(n as nat).len(),
            ) == decimal(n as nat)
        }),
{
    reveal_strlit(" ");
    let line = log_line(level, Some(n), message);
    let tag = level.tag_text();
    let time = decimal(n as nat);
    assert(line.take(tag.len() as int) =~= tag);
    assert(line.skip(line.len() - message.len()) =~= message);
    assert(line.subrange(tag.len() as int + 1, tag.len() as int + 1 + time.len()) =~= time);
}

/// The tags of all levels are equally long, and each names its level.
#[verifier::rlimit(40)]
pub proof fn law_tags_name_levels(level: LogLevel)
    ensures
        level.tag_text().len() == 10,
        level is Critical ==> has_prefix(level.tag_text(), "[CRITICAL]"@),
        level is Error ==> has_prefix(level.tag_text(), "[ERROR]"@),
        level is Warning ==> has_prefix(level.tag_text(), "[WARNING]"@),
        level is Info ==> has_prefix(level.tag_text(), "[INFO]"@),
        level is Debug ==> has_prefix(level.tag_text(), "[DEBUG]"@),
{
    reveal_strlit("[CRITICAL]");
    reveal_strlit("[ERROR]");
    reveal_strlit("[ERROR]   ");
    reveal_strlit("[WARNING]");
    reveal_strlit("[WARNING] ");
    reveal_strlit("[INFO]");
    reveal_strlit("[INFO]    ");
    reveal_strlit("[DEBUG]");
    reveal_strlit("[DEBUG]   ");
    let t = level.tag_text();
    match level {
        LogLevel::Critical => assert(t.take(10) =~= "[CRITICAL]"@),
        LogLevel::Error => assert(t.take(7) =~= "[ERROR]"@),
        LogLevel::Warning => assert(t.take(9) =~= "[WARNING]"@),
        LogLevel::Info => assert(t.take(6) =~= "[INFO]"@),
        LogLevel::Debug => assert(t.take(7) =~= "[DEBUG]"@),
    }
}

/// Where the time is not known, a line says so where the time would stand; the rest of the line is
/// the same.
#[verifier::rlimit(40)]
pub proof fn law_line_without_time(level: LogLevel, message: Seq<char>)
    ensures
        ({
            let line = log_line(level, None, message);
            let tag = level.tag_text();
            let n = tag.len() as int + 1;
            &&& line.take(tag.len() as int) == tag
            &&& line.subrange(n, n + "TimeError"@.len()) == "TimeError"@
            &&& line.skip(line.len() - message.len()) == message
        }),
{
    reveal_strlit(" ");
    let line = log_line(level, None, message);
    let tag = level.tag_text();
    let n = tag.len() as int + 1;
    assert(line.take(tag.len() as int) =~= tag);
    assert(line.subrange(n, n + "TimeError"@.len()) =~= "TimeError"@);
    assert(line.skip(line.len() - message.len()) =~= message);
}

/// Lines are written in order, each with a line break behind it.
pub proof fn law_lines_are_written(lines: Seq<Seq<char>>, line: Seq<char>)
    ensures
        as_lines(seq![]).len() == 0,
        as_lines(lines.push(line)) == as_lines(lines) + line + seq!['\n'],
{
    reveal_strlit("\n");
    assert("\n"@ =~= seq!['\n']);
    assert(lines.push(line).drop_last() =~= lines);
}

} // verus!
