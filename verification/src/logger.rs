//! The audit logger: log records, their one-line textual form, and the
//! three-state lifecycle (closed, open, suspended-buffering). The file
//! itself is owned outside the crate; the logger decides, for every
//! request, which lines are to be appended and how the state moves.
use vstd::prelude::*;

verus! {

/// One auditable operation of the datastore.
#[derive(Debug)]
pub enum LogItem {
    SetKey(String, String),
    GetKey(String),
    RemKey(String),
    RemPath(String),
    ListKeys(String),
    SetHook(String, String),
    GetHook(String, String),
    RemHook(String, String),
    ListHooks(String),
    HookExecute(String, Vec<String>),
}

/// State of the logger.
#[derive(Clone, Copy, PartialEq, Eq, Structural, Debug)]
pub enum LogState {
    /// No sink; writes fail.
    Close,
    /// Sink open; writes go straight out.
    Open,
    /// No sink; writes are buffered until resumed.
    Suspended,
}

/// Reply of the logger worker.
#[derive(Debug, PartialEq)]
pub enum LoggerResponse {
    /// The request was carried out in full.
    Done,
    /// Something went wrong; the first error message.
    Failed(String),
}

/// Requests the logger worker accepts.
pub enum LoggerAction {
    /// Close the sink and buffer further records.
    Suspend,
    /// Reopen the sink and flush the buffered records.
    Resume,
    /// Write records and report the outcome.
    Write(Vec<LogItem>),
    /// Write records without a reply.
    WriteAsync(Vec<LogItem>),
}

/// A link list in its quoted, bracketed textual form.
pub open spec fn links_debug(ls: Seq<Seq<char>>) -> Seq<char> {
    seq!['['] + links_debug_inner(ls) + seq![']']
}

/// The quoted links, separated by comma and space.
pub open spec fn links_debug_inner(ls: Seq<Seq<char>>) -> Seq<char> {
    if ls.len() == 0 {
        Seq::empty()
    } else {
        quoted(ls[0]) + links_debug_rest(ls.drop_first())
    }
}

/// The quoted links after the first, each preceded by comma and space.
pub open spec fn links_debug_rest(ls: Seq<Seq<char>>) -> Seq<char>
    decreases ls.len(),
{
    if ls.len() == 0 {
        Seq::empty()
    } else {
        seq![',', ' '] + quoted(ls[0]) + links_debug_rest(ls.drop_first())
    }
}

/// A link in double quotes.
pub open spec fn quoted(l: Seq<char>) -> Seq<char> {
    seq!['"'] + l + seq!['"']
}

/// Textual form of a log record, without timestamp and newline.
pub open spec fn log_item_text(item: LogItem) -> Seq<char> {
    match item {
        LogItem::SetKey(k, v) => "SetKey [ '"@ + k@ + "', '"@ + v@ + "' ]"@,
        LogItem::GetKey(k) => "GetKey [ '"@ + k@ + "' ]"@,
        LogItem::RemKey(k) => "RemKey [ '"@ + k@ + "' ]"@,
        LogItem::RemPath(k) => "RemPath [ '"@ + k@ + "' ]"@,
        LogItem::ListKeys(k) => "ListKeys [ '"@ + k@ + "' ]"@,
        LogItem::SetHook(p, l) => "SetHook [ '"@ + p@ + "', '"@ + l@ + "' ]"@,
        LogItem::GetHook(p, l) => "GetHook [ '"@ + p@ + "', '"@ + l@ + "' ]"@,
        LogItem::RemHook(p, l) => "RemHook [ '"@ + p@ + "', '"@ + l@ + "' ]"@,
        LogItem::ListHooks(p) => "ListHooks [ '"@ + p@ + "' ]"@,
        LogItem::HookExecute(p, ls) => "HookExecute [ '"@ + p@ + "', '"@ + links_debug(
            ls.deep_view(),
        ) + "' ]"@,
    }
}

/// One line of the log: timestamp, a space, the record text, a newline.
pub open spec fn log_line(ts: Seq<char>, item: LogItem) -> Seq<char> {
    ts + seq![' '] + log_item_text(item) + seq!['\n']
}

/// Whether `l` is a log line for `item`: the record's text under some
/// timestamp.
pub open spec fn is_line_for(l: Seq<char>, item: LogItem) -> bool {
    exists|ts: Seq<char>| l == log_line(ts, item)
}

impl LogItem {
    /// The textual form of the record.
    pub fn render(&self) -> (r: String)
        ensures
            r@ == log_item_text(*self),
    {
        match self {
            LogItem::SetKey(k, v) => render_two("SetKey [ '", k, v),
            LogItem::GetKey(k) => render_one("GetKey [ '", k),
            LogItem::RemKey(k) => render_one("RemKey [ '", k),
            LogItem::RemPath(k) => render_one("RemPath [ '", k),
            LogItem::ListKeys(k) => render_one("ListKeys [ '", k),
            LogItem::SetHook(p, l) => render_two("SetHook [ '", p, l),
            LogItem::GetHook(p, l) => render_two("GetHook [ '", p, l),
            LogItem::RemHook(p, l) => render_two("RemHook [ '", p, l),
            LogItem::ListHooks(p) => render_one("ListHooks [ '", p),
            LogItem::HookExecute(p, ls) => {
                let mut s = "HookExecute [ '".to_owned();
                s.append(p.as_str());
                s.append("', '");
                let dbg = render_links(ls);
                s.append(dbg.as_str());
                s.append("' ]");
                proof {
                    assert(s@ =~= log_item_text(*self));
                }
                s
            },
        }
    }
}

/// A link list rendered as a quoted, bracketed list.
fn render_links(ls: &Vec<String>) -> (r: String)
    ensures
        r@ == links_debug(ls.deep_view()),
{
    let ghost deep = ls.deep_view();
    let mut s = "[".to_owned();
    let n = ls.len();
    let mut i: usize = 0;
    proof {
        reveal_strlit("[");
        assert(deep.skip(0) =~= deep);
    }
    while i < n
        invariant
            i <= n,
            n == ls@.len(),
            deep == ls.deep_view(),
            deep.len() == n,
            seq!['['] + links_debug_inner(deep) == s@ + (if i == 0 {
                links_debug_inner(deep)
            } else {
                links_debug_rest(deep.skip(i as int))
            }),
        decreases n - i,
    {
        proof {
            assert(deep.skip(i as int)[0] == deep[i as int]);
            assert(deep.skip(i as int).drop_first() =~= deep.skip(i + 1));
            assert(deep[i as int] == ls@[i as int]@);
        }
        if i > 0 {
            s.append(", ");
            proof {
                reveal_strlit(", ");
            }
        }
        s.append("\"");
        s.append(ls[i].as_str());
        s.append("\"");
        proof {
            reveal_strlit("\"");
            if i == 0 {
                assert(links_debug_inner(deep) == quoted(deep[0]) + links_debug_rest(
                    deep.skip(1),
                )) by {
                    assert(deep.drop_first() =~= deep.skip(1));
                }
            } else {
                assert(links_debug_rest(deep.skip(i as int)) == seq![',', ' '] + quoted(
                    deep[i as int],
                ) + links_debug_rest(deep.skip(i + 1)));
            }
            assert(seq!['['] + links_debug_inner(deep) =~= s@ + links_debug_rest(
                deep.skip(i + 1),
            ));
        }
        i = i + 1;
    }
    s.append("]");
    proof {
        reveal_strlit("]");
        if n > 0 {
            assert(links_debug_rest(deep.skip(n as int)) =~= Seq::<char>::empty());
        }
        assert(s@ =~= links_debug(deep));
    }
    s
}

/// Record text of the shape `Tag [ '<a>' ]`.
fn render_one(head: &str, a: &String) -> (r: String)
    ensures
        r@ == head@ + a@ + "' ]"@,
{
    let mut s = head.to_owned();
    s.append(a.as_str());
    s.append("' ]");
    s
}

/// Record text of the shape `Tag [ '<a>', '<b>' ]`.
fn render_two(head: &str, a: &String, b: &String) -> (r: String)
    ensures
        r@ == head@ + a@ + "', '"@ + b@ + "' ]"@,
{
    let mut s = head.to_owned();
    s.append(a.as_str());
    s.append("', '");
    s.append(b.as_str());
    s.append("' ]");
    s
}

/// Relies on chrono::Utc::now: the current UTC time, rendered by its
/// Display implementation. The result depends on the clock, so nothing
/// is promised of it.
#[verifier::external_body]
fn utc_now_text() -> String {
    chrono::Utc::now().to_string()
}

/// The logger: its lifecycle state and the records buffered while
/// suspended. The log file itself lives with the caller, who appends
/// the lines this type hands out.
pub struct LoggerManager {
    /// Path of the log file, for the caller that opens it.
    pub path: String,
    /// Lifecycle state.
    pub state: LogState,
    /// Timestamped records held back while suspended.
    pub buffer: Vec<(String, LogItem)>,
}

impl LoggerManager {
    /// Fresh logger over the given path, closed, with an empty buffer.
    pub fn new(path: String) -> (r: LoggerManager)
        ensures
            r.path == path,
            r.state == LogState::Close,
            r.buffer@.len() == 0,
    {
        LoggerManager { path, state: LogState::Close, buffer: Vec::new() }
    }

    /// Note that the caller has opened the log file: writes now go
    /// straight out. The buffer is kept as it is.
    pub fn start(&mut self)
        ensures
            final(self).state == LogState::Open,
            final(self).path == old(self).path,
            final(self).buffer == old(self).buffer,
    {
        self.state = LogState::Open;
    }

    /// Note that the caller has dropped the log file; fails when none
    /// was open.
    pub fn stop(&mut self) -> (r: Result<(), String>)
        ensures
            final(self).path == old(self).path,
            final(self).buffer == old(self).buffer,
            match r {
                Ok(_) => old(self).state == LogState::Open && final(self).state == LogState::Close,
                Err(m) => old(self).state != LogState::Open && final(self).state == old(
                    self,
                ).state && m@ == "Logger manager does not run"@,
            },
    {
        match self.state {
            LogState::Open => {
                self.state = LogState::Close;
                Ok(())
            },
            _ => Err("Logger manager does not run".to_owned()),
        }
    }

    /// Hold further records in memory; the caller closes the file.
    pub fn suspend(&mut self) -> (r: Result<(), String>)
        ensures
            r is Ok,
            final(self).state == LogState::Suspended,
            final(self).path == old(self).path,
            final(self).buffer == old(self).buffer,
    {
        self.state = LogState::Suspended;
        Ok(())
    }

    /// Leave the suspended state: hand back the buffered records as
    /// lines, in the order they were written, for the caller to append
    /// to the reopened file; the buffer empties and writes go straight
    /// out again. Fails in any other state.
    pub fn resume(&mut self) -> (r: Result<Vec<String>, String>)
        ensures
            final(self).path == old(self).path,
            match r {
                Ok(lines) => {
                    &&& old(self).state == LogState::Suspended
                    &&& final(self).state == LogState::Open
                    &&& final(self).buffer@.len() == 0
                    &&& lines@.len() == old(self).buffer@.len()
                    &&& forall|i: int|
                        0 <= i < lines@.len() ==> (#[trigger] lines@[i])@ == log_line(
                            old(self).buffer@[i].0@,
                            old(self).buffer@[i].1,
                        )
                },
                Err(m) => {
                    &&& old(self).state != LogState::Suspended
                    &&& final(self).state == old(self).state
                    &&& final(self).buffer == old(self).buffer
                    &&& m@ == "Only possible resume from LogState::Suspend"@
                },
            },
    {
        match self.state {
            LogState::Suspended => {
                let mut lines: Vec<String> = Vec::new();
                let mut rest: Vec<(String, LogItem)> = Vec::new();
                core::mem::swap(&mut self.buffer, &mut rest);
                let n = rest.len();
                let mut i: usize = 0;
                while i < n
                    invariant
                        i <= n,
                        n == rest@.len(),
                        rest@ == old(self).buffer@,
                        lines@.len() == i,
                        forall|j: int|
                            0 <= j < i ==> (#[trigger] lines@[j])@ == log_line(
                                rest@[j].0@,
                                rest@[j].1,
                            ),
                    decreases n - i,
                {
                    let line = format_line(rest[i].0.as_str(), &rest[i].1);
                    lines.push(line);
                    i = i + 1;
                }
                self.state = LogState::Open;
                Ok(lines)
            },
            _ => Err("Only possible resume from LogState::Suspend".to_owned()),
        }
    }

    /// Record one item at the given timestamp. When open, the line to
    /// append comes back; when suspended, the record is buffered and
    /// nothing is appended; when closed, the write fails.
    pub fn write_at(&mut self, item: LogItem, now: String) -> (r: Result<Option<String>, String>)
        ensures
            final(self).path == old(self).path,
            final(self).state == old(self).state,
            match r {
                Ok(line) => match old(self).state {
                    LogState::Open => final(self).buffer == old(self).buffer && (
                    line matches Some(l) && l@ == log_line(now@, item)),
                    LogState::Suspended => line is None && final(self).buffer@ == old(
                        self,
                    ).buffer@.push((now, item)),
                    LogState::Close => false,
                },
                Err(m) => old(self).state == LogState::Close && final(self).buffer == old(
                    self,
                ).buffer && m@ == "Stream is closed, start required for logger"@,
            },
    {
        match self.state {
            LogState::Close => Err("Stream is closed, start required for logger".to_owned()),
            LogState::Open => {
                let line = format_line(now.as_str(), &item);
                Ok(Some(line))
            },
            LogState::Suspended => {
                self.buffer.push((now, item));
                Ok(None)
            },
        }
    }

    /// Record one item at the current time; otherwise as `write_at`.
    pub fn write(&mut self, item: LogItem) -> (r: Result<Option<String>, String>)
        ensures
            final(self).path == old(self).path,
            final(self).state == old(self).state,
            match r {
                Ok(line) => match old(self).state {
                    LogState::Open => {
                        &&& final(self).buffer == old(self).buffer
                        &&& line matches Some(l) && is_line_for(l@, item)
                    },
                    LogState::Suspended => {
                        &&& line is None
                        &&& final(self).buffer@.len() == old(self).buffer@.len() + 1
                        &&& final(self).buffer@.last().1 == item
                        &&& final(self).buffer@.drop_last() == old(self).buffer@
                    },
                    LogState::Close => false,
                },
                Err(m) => {
                    &&& old(self).state == LogState::Close
                    &&& final(self).buffer == old(self).buffer
                    &&& m@ == "Stream is closed, start required for logger"@
                },
            },
    {
        let now = utc_now_text();
        let ghost ts = now@;
        let r = self.write_at(item, now);
        proof {
            if r is Ok && old(self).state == LogState::Open {
                assert((r->Ok_0->Some_0)@ == log_line(ts, item));
                assert(is_line_for((r->Ok_0->Some_0)@, item));
            }
        }
        r
    }

    /// Record several items at the current time, in order: the lines to
    /// append and the reply for the caller. Every item is applied; the
    /// reply reports the first failure.
    #[verifier::loop_isolation(false)]
    pub fn write_many(&mut self, items: Vec<LogItem>) -> (r: (LoggerResponse, Vec<String>))
        ensures
            final(self).path == old(self).path,
            final(self).state == old(self).state,
            match old(self).state {
                LogState::Open => {
                    &&& r.0 is Done
                    &&& final(self).buffer@ == old(self).buffer@
                    &&& r.1@.len() == items@.len()
                    &&& forall|i: int|
                        0 <= i < r.1@.len() ==> is_line_for((#[trigger] r.1@[i])@, items@[i])
                },
                LogState::Suspended => {
                    &&& r.0 is Done
                    &&& r.1@.len() == 0
                    &&& final(self).buffer@.len() == old(self).buffer@.len() + items@.len()
                    &&& forall|i: int|
                        0 <= i < old(self).buffer@.len() ==> final(self).buffer@[i] == old(
                            self,
                        ).buffer@[i]
                    &&& forall|i: int|
                        0 <= i < items@.len() ==> (#[trigger] final(self).buffer@[old(
                            self,
                        ).buffer@.len() + i]).1 == items@[i]
                },
                LogState::Close => {
                    &&& (if items@.len() == 0 {
                        r.0 is Done
                    } else {
                        r.0 matches LoggerResponse::Failed(m) && m@
                            == "Stream is closed, start required for logger"@
                    })
                    &&& r.1@.len() == 0
                    &&& final(self).buffer@ == old(self).buffer@
                },
            },
    {
        let mut lines: Vec<String> = Vec::new();
        let mut failure: Option<String> = None;
        let mut items = items;
        let n = items.len();
        let ghost its = items@;
        let ghost st0 = self.state;
        let ghost buf0 = self.buffer@;
        let ghost path0 = self.path;
        let mut i: usize = 0;
        while i < n
            invariant
                i <= n,
                n == its.len(),
                items@ == its.skip(i as int),
                self.path == path0,
                self.state == st0,
                st0 == LogState::Open ==> self.buffer@ == buf0,
                st0 == LogState::Open ==> lines@.len() == i,
                st0 == LogState::Open ==> failure is None,
                st0 == LogState::Open ==> forall|j: int|
                    0 <= j < i ==> is_line_for((#[trigger] lines@[j])@, its[j]),
                st0 == LogState::Suspended ==> lines@.len() == 0,
                st0 == LogState::Suspended ==> failure is None,
                st0 == LogState::Suspended ==> self.buffer@.len() == buf0.len() + i,
                st0 == LogState::Suspended ==> forall|j: int|
                    0 <= j < buf0.len() ==> self.buffer@[j] == buf0[j],
                st0 == LogState::Suspended ==> forall|j: int|
                    0 <= j < i ==> (#[trigger] self.buffer@[buf0.len() + j]).1 == its[j],
                st0 == LogState::Close ==> {
                    &&& lines@.len() == 0
                    &&& self.buffer@ == buf0
                    &&& (i > 0 ==> (failure matches Some(m) && m@
                        == "Stream is closed, start required for logger"@))
                    &&& (i == 0 ==> failure is None)
                },
            decreases n - i,
        {
            proof {
                assert(its.skip(i as int)[0] == its[i as int]);
                assert(its.skip(i as int).drop_first() =~= its.skip(i + 1));
            }
            let item = items.remove(0);
            proof {
                assert(items@ =~= its.skip(i + 1));
            }
            let ghost pre_buf = self.buffer@;
            match self.write(item) {
                Ok(Some(line)) => {
                    let ghost lv = line@;
                    let ghost pre_lines = lines@;
                    lines.push(line);
                    proof {
                        assert forall|j: int| 0 <= j < i + 1 implies is_line_for(
                            (#[trigger] lines@[j])@,
                            its[j],
                        ) by {
                            if j < i {
                                assert(lines@[j] == pre_lines[j]);
                            } else {
                                assert(lines@[j]@ == lv);
                            }
                        }
                    }
                },
                Ok(None) => {
                    proof {
                        assert forall|j: int| 0 <= j < pre_buf.len() implies self.buffer@[j]
                            == pre_buf[j] by {
                            assert(self.buffer@.drop_last()[j] == self.buffer@[j]);
                        }
                        assert(self.buffer@.last() == self.buffer@[pre_buf.len() as int]);
                        assert(self.buffer@[pre_buf.len() as int].1 == its[i as int]);
                        assert forall|j: int|
                            0 <= j < i + 1 implies (#[trigger] self.buffer@[buf0.len() + j]).1
                            == its[j] by {
                            if j < i {
                                assert(self.buffer@[buf0.len() + j] == pre_buf[buf0.len() + j]);
                            } else {
                                assert(buf0.len() + j == pre_buf.len());
                            }
                        }
                    }
                },
                Err(m) => {
                    if failure.is_none() {
                        failure = Some(m);
                    }
                },
            }
            i = i + 1;
        }
        match failure {
            Some(m) => (LoggerResponse::Failed(m), lines),
            None => (LoggerResponse::Done, lines),
        }
    }
}

/// One log line out of a timestamp and a record.
pub fn format_line(ts: &str, item: &LogItem) -> (r: String)
    ensures
        r@ == log_line(ts@, *item),
{
    let mut s = ts.to_owned();
    s.append(" ");
    let text = item.render();
    s.append(text.as_str());
    s.append("\n");
    proof {
        reveal_strlit(" ");
        reveal_strlit("\n");
        assert(s@ =~= log_line(ts@, *item));
    }
    s
}

} // verus!
