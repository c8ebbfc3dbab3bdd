//! Source streams with one record of lookahead, and their chronological merge.
//!
//! Reading is left to the caller: a stream is told what the next line of its input held
//! and decides what that means, and the merge says which stream must be read next.

use vstd::prelude::*;

use crate::json::{field_of, fields_view, get_field, FieldsView, JsonValue, JsonView};
use crate::time::{before, lemma_before_total, lemma_before_transitive, parse_timestamp, Timestamp};

verus! {

/// Where a record came from: the input's name and the line's number, from 0.
pub struct FileSource {
    pub file: String,
    pub line: u64,
}

/// A record with its timestamp and its origin.
pub struct Line {
    pub value: Vec<(String, JsonValue)>,
    pub time: Timestamp,
    pub src: FileSource,
}

/// What the next line of an input held.
pub enum LineEvent {
    /// There is no next line.
    End,
    /// The line is not JSON.
    Unparsable,
    /// The line held this JSON value.
    Parsed(JsonValue),
}

/// Why a line was skipped; the number is the line's, from 0.
#[derive(Debug, Clone, Copy, PartialEq, Eq, Structural)]
pub enum Skip {
    /// Not JSON, or JSON but not an object.
    InvalidJson(u64),
    /// An object without a string `time` field that reads as a local date-time.
    BadTime(u64),
}

/// What one step of a stream came to.
#[derive(Debug, Clone, Copy, PartialEq, Eq, Structural)]
pub enum Advance {
    /// A record is buffered.
    Ready,
    /// The input is exhausted.
    Finished,
    /// The line was skipped; the stream must be stepped again.
    Skipped(Skip),
}

pub open spec fn time_key() -> Seq<char> {
    seq!['t', 'i', 'm', 'e']
}

/// The timestamp of a record: its `time` field, a string that reads as a local date-time.
pub open spec fn record_time(fields: FieldsView) -> Option<Timestamp> {
    match field_of(fields, time_key()) {
        Some(JsonView::Str(s)) => parse_timestamp(s),
        _ => None,
    }
}

/// What one step of a stream that is not completed comes to, for the line numbered `line`.
pub open spec fn advance_outcome(ev: LineEvent, line: u64) -> Advance {
    match ev {
        LineEvent::End => Advance::Finished,
        LineEvent::Unparsable => Advance::Skipped(Skip::InvalidJson(line)),
        LineEvent::Parsed(JsonValue::Object(fields)) => match record_time(fields_view(fields@)) {
            Some(_) => Advance::Ready,
            None => Advance::Skipped(Skip::BadTime(line)),
        },
        LineEvent::Parsed(_) => Advance::Skipped(Skip::InvalidJson(line)),
    }
}

/// One input's cursor: a line counter, a completion flag and at most one buffered record.
pub struct LogFile {
    name: String,
    id: usize,
    line: u64,
    is_completed: bool,
    next: Option<Line>,
}

impl LogFile {
    pub closed spec fn spec_name(&self) -> Seq<char> {
        self.name@
    }

    pub closed spec fn spec_id(&self) -> usize {
        self.id
    }

    /// The number of lines read so far.
    pub closed spec fn spec_line(&self) -> u64 {
        self.line
    }

    pub closed spec fn spec_completed(&self) -> bool {
        self.is_completed
    }

    /// The buffered record, if any.
    pub closed spec fn spec_next(&self) -> Option<Line> {
        self.next
    }

    /// A fresh cursor over the input called `name`; `id` tells the caller's inputs apart.
    pub fn new(name: String, id: usize) -> (r: LogFile)
        ensures
            r.spec_name() == name@,
            r.spec_id() == id,
            r.spec_line() == 0,
            !r.spec_completed(),
            r.spec_next() is None,
    {
        LogFile { name, id, line: 0, is_completed: false, next: None }
    }

    pub fn name(&self) -> (r: &String)
        ensures
            r@ == self.spec_name(),
    {
        &self.name
    }

    pub fn id(&self) -> (r: usize)
        ensures
            r == self.spec_id(),
    {
        self.id
    }

    /// Whether a record is buffered.
    pub fn has_next(&self) -> (r: bool)
        ensures
            r == self.spec_next() is Some,
    {
        self.next.is_some()
    }

    pub fn is_completed(&self) -> (r: bool)
        ensures
            r == self.spec_completed(),
    {
        self.is_completed
    }

    /// The timestamp of the buffered record.
    pub fn time(&self) -> (r: Timestamp)
        requires
            self.spec_next() is Some,
        ensures
            r == self.spec_next()->Some_0.time,
    {
        self.next.as_ref().unwrap().time
    }

    /// Hands out the buffered record.
    pub fn take(&mut self) -> (r: Line)
        requires
            old(self).spec_next() is Some,
        ensures
            r == old(self).spec_next()->Some_0,
            final(self).spec_next() is None,
            final(self).spec_name() == old(self).spec_name(),
            final(self).spec_id() == old(self).spec_id(),
            final(self).spec_line() == old(self).spec_line(),
            final(self).spec_completed() == old(self).spec_completed(),
    {
        self.next.take().unwrap()
    }

    /// Takes in what the next line held. The end of input completes the stream; a line
    /// that is not a JSON object, or whose `time` is missing or unreadable, is skipped; an
    /// object with a good `time` becomes the buffered record. A completed stream stays so.
    pub fn advance(&mut self, ev: LineEvent) -> (r: Advance)
        requires
            old(self).spec_completed() || old(self).spec_next() is None,
        ensures
            final(self).spec_name() == old(self).spec_name(),
            final(self).spec_id() == old(self).spec_id(),
            old(self).spec_completed() ==> r == Advance::Finished && final(self).spec_completed()
                && final(self).spec_line() == old(self).spec_line() && final(self).spec_next() == old(self).spec_next(),
            !old(self).spec_completed() ==> final(self).spec_line() == if old(self).spec_line() < u64::MAX {
                old(self).spec_line() + 1
            } else {
                old(self).spec_line() as int
            },
            !old(self).spec_completed() ==> r == advance_outcome(ev, old(self).spec_line()),
            !old(self).spec_completed() ==> match ev {
                LineEvent::End => r == Advance::Finished && final(self).spec_completed() && final(self).spec_next() is None,
                LineEvent::Unparsable => r == Advance::Skipped(Skip::InvalidJson(old(self).spec_line()))
                    && !final(self).spec_completed() && final(self).spec_next() is None,
                LineEvent::Parsed(JsonValue::Object(fields)) => match record_time(fields_view(fields@)) {
                    Some(t) => r == Advance::Ready && !final(self).spec_completed() && final(self).spec_next() == Some(
                        Line {
                            value: fields,
                            time: t,
                            src: FileSource { file: final(self).spec_next()->Some_0.src.file, line: old(self).spec_line() },
                        },
                    ) && final(self).spec_next()->Some_0.src.file@ == old(self).spec_name(),
                    None => r == Advance::Skipped(Skip::BadTime(old(self).spec_line()))
                        && !final(self).spec_completed() && final(self).spec_next() is None,
                },
                LineEvent::Parsed(_) => r == Advance::Skipped(Skip::InvalidJson(old(self).spec_line()))
                    && !final(self).spec_completed() && final(self).spec_next() is None,
            },
    {
        if self.is_completed {
            return Advance::Finished;
        }
        let line = self.line;
        if self.line < u64::MAX {
            self.line = self.line + 1;
        }
        match ev {
            LineEvent::End => {
                self.is_completed = true;
                Advance::Finished
            },
            LineEvent::Unparsable => Advance::Skipped(Skip::InvalidJson(line)),
            LineEvent::Parsed(JsonValue::Object(fields)) => {
                let key = "time".to_owned();
                proof {
                    reveal_strlit("time");
                    assert(key@ =~= time_key());
                }
                let time = match get_field(&fields, &key) {
                    Some(JsonValue::Str(s)) => Timestamp::parse(s.as_str()),
                    _ => None,
                };
                match time {
                    Some(t) => {
                        let src = FileSource { file: self.name.clone(), line };
                        self.next = Some(Line { value: fields, time: t, src });
                        Advance::Ready
                    },
                    None => Advance::Skipped(Skip::BadTime(line)),
                }
            },
            LineEvent::Parsed(_) => Advance::Skipped(Skip::InvalidJson(line)),
        }
    }
}

/// Whether a stream holds a buffered record and has not ended.
pub open spec fn holds_record(l: LogFile) -> bool {
    l.spec_next() is Some && !l.spec_completed()
}

/// The number of streams in `logs` that hold a buffered record.
pub open spec fn buffered(logs: Seq<LogFile>) -> nat
    decreases logs.len(),
{
    if logs.len() == 0 {
        0
    } else {
        buffered(logs.drop_last()) + if logs.last().spec_next() is Some { 1nat } else { 0nat }
    }
}

proof fn lemma_buffered_concat(a: Seq<LogFile>, b: Seq<LogFile>)
    ensures
        buffered(a + b) == buffered(a) + buffered(b),
    decreases b.len(),
{
    if b.len() == 0 {
        assert(a + b =~= a);
    } else {
        lemma_buffered_concat(a, b.drop_last());
        assert((a + b).drop_last() =~= a + b.drop_last());
    }
}

proof fn lemma_buffered_remove(s: Seq<LogFile>, i: int)
    requires
        0 <= i < s.len(),
    ensures
        buffered(s) == buffered(s.remove(i)) + if s[i].spec_next() is Some { 1nat } else { 0nat },
{
    let a = s.subrange(0, i);
    let b = s.subrange(i + 1, s.len() as int);
    let one = seq![s[i]];
    assert(s =~= a + (one + b));
    assert(s.remove(i) =~= a + b);
    lemma_buffered_concat(a, one + b);
    lemma_buffered_concat(one, b);
    lemma_buffered_concat(a, b);
    assert(one.drop_last() =~= Seq::<LogFile>::empty());
    assert(buffered(Seq::<LogFile>::empty()) == 0);
    assert(one.last() == s[i]);
    assert(buffered(one) == buffered(one.drop_last()) + if s[i].spec_next() is Some { 1nat } else { 0nat });
}

proof fn lemma_buffered_update(s: Seq<LogFile>, i: int, x: LogFile)
    requires
        0 <= i < s.len(),
    ensures
        buffered(s.update(i, x)) + (if s[i].spec_next() is Some { 1nat } else { 0nat })
            == buffered(s) + (if x.spec_next() is Some { 1nat } else { 0nat }),
{
    lemma_buffered_remove(s, i);
    lemma_buffered_remove(s.update(i, x), i);
    assert(s.update(i, x).remove(i) =~= s.remove(i));
}

/// The chronological merge of several streams.
///
/// Each `pull` hands out the buffered record with the earliest timestamp (the first such
/// stream wins a tie) and leaves its stream waiting for input; `refill` then steps that
/// stream with the next line of its input until it buffers a record again or ends, and an
/// ended stream leaves the set.
pub struct Aggregator {
    logs: Vec<LogFile>,
    pending: Option<usize>,
    last: Ghost<Option<Timestamp>>,
    sorted: Ghost<bool>,
    accepted: Ghost<nat>,
    emitted: Ghost<nat>,
}

impl Aggregator {
    /// The streams in the set, in their order.
    pub closed spec fn sources(&self) -> Seq<LogFile> {
        self.logs@
    }

    /// The position of the stream that waits for input, if one does.
    pub closed spec fn spec_pending(&self) -> Option<usize> {
        self.pending
    }

    /// The timestamp of the record handed out last.
    pub closed spec fn spec_last(&self) -> Option<Timestamp> {
        self.last@
    }

    /// Whether every stream so far delivered its records in non-decreasing time.
    pub closed spec fn spec_sorted(&self) -> bool {
        self.sorted@
    }

    /// Records taken in by the merge.
    pub closed spec fn spec_accepted(&self) -> nat {
        self.accepted@
    }

    /// Records handed out by the merge.
    pub closed spec fn spec_emitted(&self) -> nat {
        self.emitted@
    }

    pub closed spec fn wf(&self) -> bool {
        &&& self.pending matches Some(p) ==> p < self.logs@.len() && self.logs@[p as int].spec_next() is None
            && !self.logs@[p as int].spec_completed() && self.last@ is Some
        &&& forall|i: int|
            0 <= i < self.logs@.len() && self.pending != Some(i as usize) ==> (#[trigger] self.logs@[i]).spec_next() is Some
                && !self.logs@[i].spec_completed()
        &&& self.sorted@ ==> forall|i: int|
            0 <= i < self.logs@.len() ==> ((#[trigger] self.logs@[i]).spec_next() matches Some(l) ==> (
            self.last@ matches Some(t) ==> !before(l.time, t)))
        &&& self.accepted@ == self.emitted@ + buffered(self.logs@)
    }

    /// A merge of the streams of `logs` that hold a record, in their order; the others
    /// (empty or exhausted inputs) are dropped.
    pub fn new(logs: Vec<LogFile>) -> (r: Aggregator)
        ensures
            r.wf(),
            r.sources() == logs@.filter(|l: LogFile| holds_record(l)),
            r.spec_pending() is None,
            r.spec_last() is None,
            r.spec_sorted(),
            r.spec_emitted() == 0,
            r.spec_accepted() == buffered(r.sources()),
            forall|i: int| 0 <= i < r.sources().len() ==> (#[trigger] r.sources()[i]).spec_next() is Some,
    {
        let n0 = logs.len();
        let ghost orig = logs@;
        let ghost pred = |l: LogFile| holds_record(l);
        let mut kept: Vec<LogFile> = Vec::new();
        let mut rest = logs;
        let mut k: usize = 0;
        proof {
            assert(orig.subrange(0, 0) =~= Seq::<LogFile>::empty());
            reveal(Seq::filter);
            assert(kept@ =~= orig.subrange(0, 0).filter(pred));
            assert(rest@ =~= orig.subrange(0, orig.len() as int));
        }
        while rest.len() > 0
            invariant
                0 <= k <= orig.len(),
                orig.len() == n0,
                pred == (|l: LogFile| holds_record(l)),
                rest@ == orig.subrange(k as int, orig.len() as int),
                kept@ == orig.subrange(0, k as int).filter(pred),
                forall|i: int| 0 <= i < kept@.len() ==> (#[trigger] kept@[i]).spec_next() is Some && !kept@[i].spec_completed(),
            decreases rest@.len(),
        {
            let log = rest.remove(0);
            let keep = log.has_next() && !log.is_completed();
            proof {
                assert(log == orig[k as int]);
                assert(keep == pred(log));
                reveal(Seq::filter);
                let p = orig.subrange(0, k as int + 1);
                assert(p.drop_last() =~= orig.subrange(0, k as int));
                assert(p.last() == log);
                assert(p.filter(pred) == if pred(log) { kept@.push(log) } else { kept@ });
                assert(rest@ =~= orig.subrange(k as int + 1, orig.len() as int));
            }
            if keep {
                kept.push(log);
            }
            k = k + 1;
        }
        proof {
            assert(orig.subrange(0, k as int) =~= orig);
        }
        let ghost start = buffered(kept@);
        Aggregator {
            logs: kept,
            pending: None,
            last: Ghost(None),
            sorted: Ghost(true),
            accepted: Ghost(start),
            emitted: Ghost(0),
        }
    }

    /// The number of streams in the set.
    pub fn len(&self) -> (r: usize)
        ensures
            r == self.sources().len(),
    {
        self.logs.len()
    }

    /// The caller's id of the stream that waits for input, if one does.
    pub fn pending_id(&self) -> (r: Option<usize>)
        requires
            self.wf(),
        ensures
            self.spec_pending() is None ==> r is None,
            self.spec_pending() matches Some(p) ==> r == Some(self.sources()[p as int].spec_id()),
    {
        match self.pending {
            Some(p) => Some(self.logs[p].id()),
            None => None,
        }
    }

    /// Hands out the earliest buffered record (the first stream wins a tie) with the id of
    /// its stream, which then waits for input; `None` once the set is empty.
    pub fn pull(&mut self) -> (r: Option<(Line, usize)>)
        requires
            old(self).wf(),
            old(self).spec_pending() is None,
        ensures
            final(self).wf(),
            final(self).spec_accepted() == old(self).spec_accepted(),
            final(self).spec_sorted() == old(self).spec_sorted(),
            r is None <==> old(self).sources().len() == 0,
            r is None ==> final(self).sources() == old(self).sources() && final(self).spec_pending() is None
                && final(self).spec_emitted() == old(self).spec_emitted(),
            r matches Some((line, id)) ==> {
                &&& final(self).spec_pending() matches Some(m) && {
                    &&& m < old(self).sources().len()
                    &&& old(self).sources()[m as int].spec_next() == Some(line)
                    &&& id == old(self).sources()[m as int].spec_id()
                    &&& forall|j: int| 0 <= j < old(self).sources().len() ==> ((#[trigger] old(self).sources()[j]).spec_next() matches Some(l) ==> !before(l.time, line.time))
                    &&& forall|j: int| 0 <= j < m ==> ((#[trigger] old(self).sources()[j]).spec_next() matches Some(l) ==> before(line.time, l.time))
                    &&& final(self).sources().len() == old(self).sources().len()
                    &&& final(self).sources()[m as int].spec_next() is None
                    &&& final(self).sources()[m as int].spec_id() == id
                    &&& forall|j: int| 0 <= j < old(self).sources().len() && j != m ==> #[trigger] final(self).sources()[j] == old(self).sources()[j]
                }
                &&& final(self).spec_emitted() == old(self).spec_emitted() + 1
                &&& final(self).spec_last() == Some(line.time)
                &&& (old(self).spec_sorted() ==> (old(self).spec_last() matches Some(p) ==> !before(line.time, p)))
            },
    {
        let n = self.logs.len();
        if n == 0 {
            return None;
        }
        let mut m: usize = 0;
        let mut j: usize = 1;
        while j < n
            invariant
                n == self.logs@.len(),
                self.wf(),
                self.pending is None,
                0 <= m < j <= n,
                forall|k: int| 0 <= k < j ==> !before((#[trigger] self.logs@[k]).spec_next()->Some_0.time, self.logs@[m as int].spec_next()->Some_0.time),
                forall|k: int| 0 <= k < m ==> before(self.logs@[m as int].spec_next()->Some_0.time, (#[trigger] self.logs@[k]).spec_next()->Some_0.time),
            decreases n - j,
        {
            assert(self.logs@[j as int].spec_next() is Some);
            assert(self.logs@[m as int].spec_next() is Some);
            let tj = self.logs[j].time();
            let tm = self.logs[m].time();
            if tj.is_before(&tm) {
                proof {
                    assert forall|k: int| 0 <= k < j implies !before((#[trigger] self.logs@[k]).spec_next()->Some_0.time, tj) by {
                        let tk = self.logs@[k].spec_next()->Some_0.time;
                        lemma_before_total(tk, tm);
                        lemma_before_transitive(tk, tm, tj);
                        lemma_before_transitive(tj, tm, tk);
                        lemma_before_total(tj, tk);
                    }
                    assert forall|k: int| 0 <= k < j implies before(tj, (#[trigger] self.logs@[k]).spec_next()->Some_0.time) by {
                        let tk = self.logs@[k].spec_next()->Some_0.time;
                        lemma_before_total(tk, tm);
                        lemma_before_transitive(tj, tm, tk);
                    }
                }
                m = j;
            }
            j = j + 1;
        }
        let ghost old_logs = self.logs@;
        let mut log = self.logs.remove(m);
        let line = log.take();
        proof {
            lemma_buffered_update(old_logs, m as int, log);
        }
        self.logs.insert(m, log);
        proof {
            assert(self.logs@ =~= old_logs.update(m as int, log));
        }
        let ghost prev = self.last@;
        self.pending = Some(m);
        let ghost now_last = Some(line.time);
        let ghost now_emitted = self.emitted@ + 1;
        self.last = Ghost(now_last);
        self.emitted = Ghost(now_emitted);
        let id = self.logs[m].id();
        proof {
            assert forall|k: int| 0 <= k < self.logs@.len() implies ((#[trigger] self.logs@[k]).spec_next() matches Some(l) ==> !before(l.time, line.time)) by {
                if k != m {
                    assert(self.logs@[k] == old_logs[k]);
                }
            }
            if self.sorted@ {
                if let Some(p) = prev {
                    assert(old_logs[m as int].spec_next() matches Some(l) && l.time == line.time);
                }
            }
        }
        Some((line, id))
    }

    /// Steps the waiting stream with what the next line of its input held. When the stream
    /// buffers a record or ends, nothing waits any more, and an ended stream leaves the set.
    pub fn refill(&mut self, ev: LineEvent) -> (r: Advance)
        requires
            old(self).wf(),
            old(self).spec_pending() is Some,
        ensures
            final(self).wf(),
            final(self).spec_emitted() == old(self).spec_emitted(),
            final(self).spec_last() == old(self).spec_last(),
            r == advance_outcome(ev, old(self).sources()[old(self).spec_pending()->Some_0 as int].spec_line()),
            r == Advance::Ready ==> (ev matches LineEvent::Parsed(JsonValue::Object(fields)) && (final(self).sources()[old(self).spec_pending()->Some_0 as int].spec_next() matches Some(l) && l.value == fields
                && Some(l.time) == record_time(fields_view(fields@)))),
            r is Skipped ==> final(self).spec_pending() == old(self).spec_pending()
                && final(self).sources().len() == old(self).sources().len()
                && final(self).spec_accepted() == old(self).spec_accepted()
                && final(self).spec_sorted() == old(self).spec_sorted(),
            r == Advance::Finished ==> final(self).spec_pending() is None
                && final(self).sources() == old(self).sources().remove(old(self).spec_pending()->Some_0 as int)
                && final(self).spec_accepted() == old(self).spec_accepted()
                && final(self).spec_sorted() == old(self).spec_sorted(),
            r == Advance::Ready ==> final(self).spec_pending() is None && {
                let p = old(self).spec_pending()->Some_0 as int;
                &&& final(self).sources().len() == old(self).sources().len()
                &&& final(self).sources()[p].spec_next() matches Some(l) && final(self).spec_sorted() == (old(self).spec_sorted()
                    && !before(l.time, old(self).spec_last()->Some_0))
                &&& forall|j: int| 0 <= j < old(self).sources().len() && j != p ==> #[trigger] final(self).sources()[j] == old(self).sources()[j]
            } && final(self).spec_accepted() == old(self).spec_accepted() + 1,
    {
        let p = match self.pending {
            Some(p) => p,
            None => {
                return Advance::Finished;
            },
        };
        let n0 = self.logs.len();
        let ghost old_logs = self.logs@;
        assert(old_logs == old(self).logs@);
        assert(old(self).pending == Some(p));
        let mut log = self.logs.remove(p);
        let r = log.advance(ev);
        match r {
            Advance::Ready => {
                proof {
                    lemma_buffered_update(old_logs, p as int, log);
                }
                let t = log.time();
                let ghost last = self.last@->Some_0;
                let ghost now_sorted = self.sorted@ && !before(t, last);
                let ghost now_accepted = self.accepted@ + 1;
                self.sorted = Ghost(now_sorted);
                self.accepted = Ghost(now_accepted);
                self.logs.insert(p, log);
                self.pending = None;
                proof {
                    assert(self.logs@ =~= old_logs.update(p as int, log));
                    assert forall|i: int| 0 <= i < self.logs@.len() && self.pending != Some(i as usize) implies (#[trigger] self.logs@[i]).spec_next() is Some
                        && !self.logs@[i].spec_completed() by {
                        if i != p {
                            assert(old(self).pending != Some(i as usize));
                            assert(old(self).logs@[i].spec_next() is Some);
                            assert(self.logs@[i] == old_logs[i]);
                        } else {
                            assert(self.logs@[i] == log);
                        }
                    }
                }
            },
            Advance::Finished => {
                proof {
                    lemma_buffered_remove(old_logs, p as int);
                    assert forall|i: int| 0 <= i < self.logs@.len() implies (#[trigger] self.logs@[i]).spec_next() is Some
                        && !self.logs@[i].spec_completed() by {
                        if i < p {
                            assert(old(self).pending != Some(i as usize));
                            assert(old(self).logs@[i].spec_next() is Some);
                            assert(self.logs@[i] == old_logs[i]);
                        } else {
                            assert(old(self).pending != Some((i + 1) as usize));
                            assert(old(self).logs@[i + 1].spec_next() is Some);
                            assert(self.logs@[i] == old_logs[i + 1]);
                        }
                    }
                }
                self.pending = None;
            },
            Advance::Skipped(_) => {
                proof {
                    lemma_buffered_update(old_logs, p as int, log);
                }
                self.logs.insert(p, log);
                proof {
                    assert(self.logs@ =~= old_logs.update(p as int, log));
                }
            },
        }
        r
    }
}

/// When the set is empty and nothing waits, every record the merge took in has been
/// handed out, and none twice.
pub proof fn lemma_drained_merge_is_complete(agg: Aggregator)
    requires
        agg.wf(),
        agg.sources().len() == 0,
    ensures
        agg.spec_accepted() == agg.spec_emitted(),
{
    reveal_with_fuel(buffered, 1);
}

} // verus!
