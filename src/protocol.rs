//! The line protocol: how a text log is cut into lines and fields, and the
//! two-state parser that rebuilds records from those lines.
//!
//! A line whose trimmed text starts with `[` opens a record; the text
//! between the brackets is its RFC 3339 timestamp. A blank line is ignored.
//! Any other line is a process line of seven comma-separated fields, which
//! belongs to the record opened last.

use vstd::prelude::*;

use crate::decimal::{parse_unsigned, read_unsigned};
use crate::record::{ProcessInfo, ProcessModel, Record, RecordModel};
use crate::text::{chars_of, string_of};
use crate::timestamp::{Timestamp, rfc3339_read};

verus! {

/// Unicode `White_Space`, the characters that `str::trim` removes.
pub open spec fn is_ws(c: char) -> bool {
    ('\u{9}' <= c && c <= '\u{d}') || c == ' ' || c == '\u{85}' || c == '\u{a0}' || c
        == '\u{1680}' || ('\u{2000}' <= c && c <= '\u{200a}') || c == '\u{2028}' || c
        == '\u{2029}' || c == '\u{202f}' || c == '\u{205f}' || c == '\u{3000}'
}

/// Whitespace, or with `brackets` the characters `[` and `]`.
pub open spec fn strippable(c: char, brackets: bool) -> bool {
    if brackets {
        c == '[' || c == ']'
    } else {
        is_ws(c)
    }
}

pub open spec fn strip_start(s: Seq<char>, brackets: bool) -> Seq<char>
    decreases s.len(),
{
    if s.len() > 0 && strippable(s[0], brackets) {
        strip_start(s.skip(1), brackets)
    } else {
        s
    }
}

pub open spec fn strip_end(s: Seq<char>, brackets: bool) -> Seq<char>
    decreases s.len(),
{
    if s.len() > 0 && strippable(s.last(), brackets) {
        strip_end(s.drop_last(), brackets)
    } else {
        s
    }
}

pub open spec fn trim(s: Seq<char>) -> Seq<char> {
    strip_end(strip_start(s, false), false)
}

/// The timestamp text of a line that opens a record.
pub open spec fn stamp_content(line: Seq<char>) -> Seq<char> {
    strip_end(strip_start(trim(line), true), true)
}

/// Index of the first `c` in `s`, or the length of `s` when there is none.
pub open spec fn first_index(s: Seq<char>, c: char) -> nat
    decreases s.len(),
{
    if s.len() == 0 {
        0
    } else if s[0] == c {
        0
    } else {
        1 + first_index(s.skip(1), c)
    }
}

/// The pieces of `s` between occurrences of `c` (as `str::split`).
pub open spec fn split_on(s: Seq<char>, c: char) -> Seq<Seq<char>>
    decreases s.len(),
{
    let i = first_index(s, c);
    if i < s.len() {
        seq![s.take(i as int)] + split_on(s.skip(i + 1 as int), c)
    } else {
        seq![s]
    }
}

pub open spec fn strip_cr(s: Seq<char>) -> Seq<char> {
    if s.len() > 0 && s.last() == '\r' {
        s.drop_last()
    } else {
        s
    }
}

/// The lines of `s` (as `str::lines`): ended by `\n` or `\r\n`, the last
/// one possibly unterminated.
pub open spec fn lines_of(s: Seq<char>) -> Seq<Seq<char>>
    decreases s.len(),
{
    if s.len() == 0 {
        Seq::empty()
    } else {
        let i = first_index(s, '\n');
        if i < s.len() {
            seq![strip_cr(s.take(i as int))] + lines_of(s.skip(i + 1 as int))
        } else {
            seq![s]
        }
    }
}

/// The snapshot that a process line denotes, when it has seven fields and
/// its five numbers parse.
pub open spec fn read_process(line: Seq<char>) -> Option<ProcessModel> {
    let f = split_on(line, ',');
    if f.len() != 7 {
        None
    } else {
        match (
            read_unsigned(f[2], u32::MAX as nat),
            read_unsigned(f[3], u64::MAX as nat),
            read_unsigned(f[4], u32::MAX as nat),
            read_unsigned(f[5], u64::MAX as nat),
            read_unsigned(f[6], u64::MAX as nat),
        ) {
            (Some(parent), Some(start), Some(pid), Some(rss), Some(virt)) => Some(
                ProcessModel {
                    name: f[0],
                    cmd: f[1],
                    pid: pid as u32,
                    parent: parent as u32,
                    start_time: start as u64,
                    resident_memory: rss as u64,
                    virtual_memory: virt as u64,
                },
            ),
            _ => None,
        }
    }
}

#[derive(Clone, Copy, Debug, PartialEq, Eq, Structural)]
pub enum ParseErrorKind {
    /// A process line came before any timestamp line.
    ProtocolOrder,
    /// A process line without seven fields, or with a field that is not a
    /// number in range.
    MalformedRecord,
    /// A bracketed line whose content is not an RFC 3339 date-time.
    BadTimestamp,
}

/// Why a log could not be read, and the line at fault.
#[derive(Clone, Debug)]
pub struct ParseError {
    pub kind: ParseErrorKind,
    pub line: String,
}

impl View for ParseError {
    type V = (ParseErrorKind, Seq<char>);

    open spec fn view(&self) -> (ParseErrorKind, Seq<char>) {
        (self.kind, self.line@)
    }
}

/// The parser's state: the records closed so far and the one still open.
pub struct ParserModel {
    pub records: Seq<RecordModel>,
    pub current: Option<RecordModel>,
}

pub open spec fn initial_state() -> ParserModel {
    ParserModel { records: Seq::empty(), current: None }
}

/// The records closed so far, then the open one if any.
pub open spec fn flushed(st: ParserModel) -> Seq<RecordModel> {
    match st.current {
        Some(r) => st.records.push(r),
        None => st.records,
    }
}

pub open spec fn timestamp_step(st: ParserModel, line: Seq<char>) -> Result<
    ParserModel,
    (ParseErrorKind, Seq<char>),
> {
    match rfc3339_read(stamp_content(line)) {
        Some(ts) => Ok(
            ParserModel {
                records: flushed(st),
                current: Some(RecordModel { timestamp: ts, processes: Seq::empty() }),
            },
        ),
        None => Err((ParseErrorKind::BadTimestamp, line)),
    }
}

pub open spec fn process_step(st: ParserModel, line: Seq<char>) -> Result<
    ParserModel,
    (ParseErrorKind, Seq<char>),
> {
    match st.current {
        None => Err((ParseErrorKind::ProtocolOrder, line)),
        Some(r) => match read_process(line) {
            None => Err((ParseErrorKind::MalformedRecord, line)),
            Some(p) => Ok(
                ParserModel {
                    records: st.records,
                    current: Some(
                        RecordModel { timestamp: r.timestamp, processes: r.processes.push(p) },
                    ),
                },
            ),
        },
    }
}

/// One transition of the parser on one line.
pub open spec fn step(st: ParserModel, line: Seq<char>) -> Result<
    ParserModel,
    (ParseErrorKind, Seq<char>),
> {
    let t = trim(line);
    if t.len() > 0 && t[0] == '[' {
        timestamp_step(st, line)
    } else if t.len() == 0 {
        Ok(st)
    } else {
        process_step(st, line)
    }
}

/// The parser run over `lines`, stopping at the first error.
pub open spec fn run(st: ParserModel, lines: Seq<Seq<char>>) -> Result<
    ParserModel,
    (ParseErrorKind, Seq<char>),
>
    decreases lines.len(),
{
    if lines.len() == 0 {
        Ok(st)
    } else {
        match step(st, lines[0]) {
            Err(e) => Err(e),
            Ok(next) => run(next, lines.skip(1)),
        }
    }
}

/// The records that a whole log denotes, or the first error in it.
pub open spec fn parse_text(text: Seq<char>) -> Result<
    Seq<RecordModel>,
    (ParseErrorKind, Seq<char>),
> {
    match run(initial_state(), lines_of(text)) {
        Ok(st) => Ok(flushed(st)),
        Err(e) => Err(e),
    }
}

pub open spec fn record_models(v: Seq<Record>) -> Seq<RecordModel> {
    v.map_values(|r: Record| r@)
}

pub proof fn lemma_first_index_at(s: Seq<char>, c: char, k: int)
    requires
        0 <= k <= s.len(),
        forall|j: int| 0 <= j < k ==> s[j] != c,
        k == s.len() || s[k] == c,
    ensures
        first_index(s, c) == k,
    decreases k,
{
    if k > 0 {
        lemma_first_index_at(s.skip(1), c, k - 1);
    }
}

fn strippable_exec(c: char, brackets: bool) -> (r: bool)
    ensures
        r == strippable(c, brackets),
{
    if brackets {
        c == '[' || c == ']'
    } else {
        ('\u{9}' <= c && c <= '\u{d}') || c == ' ' || c == '\u{85}' || c == '\u{a0}' || c
            == '\u{1680}' || ('\u{2000}' <= c && c <= '\u{200a}') || c == '\u{2028}' || c
            == '\u{2029}' || c == '\u{202f}' || c == '\u{205f}' || c == '\u{3000}'
    }
}

/// The bounds of `v[lo..hi]` with strippable characters removed from both
/// ends.
fn strip_bounds(v: &Vec<char>, lo: usize, hi: usize, brackets: bool) -> (r: (usize, usize))
    requires
        lo <= hi <= v@.len(),
    ensures
        lo <= r.0 <= r.1 <= hi,
        v@.subrange(r.0 as int, r.1 as int) == strip_end(
            strip_start(v@.subrange(lo as int, hi as int), brackets),
            brackets,
        ),
{
    let mut a: usize = lo;
    while a < hi && strippable_exec(v[a], brackets)
        invariant
            lo <= a <= hi <= v@.len(),
            strip_start(v@.subrange(lo as int, hi as int), brackets) == strip_start(
                v@.subrange(a as int, hi as int),
                brackets,
            ),
        decreases hi - a,
    {
        assert(v@.subrange(a as int, hi as int).skip(1) =~= v@.subrange(a + 1, hi as int));
        a = a + 1;
    }
    assert(strip_start(v@.subrange(a as int, hi as int), brackets) == v@.subrange(
        a as int,
        hi as int,
    ));
    let mut e: usize = hi;
    while e > a && strippable_exec(v[e - 1], brackets)
        invariant
            lo <= a <= e <= hi <= v@.len(),
            strip_end(v@.subrange(a as int, hi as int), brackets) == strip_end(
                v@.subrange(a as int, e as int),
                brackets,
            ),
        decreases e,
    {
        assert(v@.subrange(a as int, e as int).drop_last() =~= v@.subrange(a as int, e - 1));
        e = e - 1;
    }
    assert(strip_end(v@.subrange(a as int, e as int), brackets) == v@.subrange(
        a as int,
        e as int,
    ));
    (a, e)
}

/// The bounds of each comma-separated field of `v`.
fn split_commas(v: &Vec<char>) -> (r: Vec<(usize, usize)>)
    ensures
        forall|k: int| 0 <= k < r@.len() ==> (#[trigger] r@[k]).0 <= r@[k].1 <= v@.len(),
        r@.map_values(|p: (usize, usize)| v@.subrange(p.0 as int, p.1 as int)) == split_on(
            v@,
            ',',
        ),
{
    let mut r: Vec<(usize, usize)> = Vec::new();
    let mut start: usize = 0;
    let mut i: usize = 0;
    assert(v@.skip(0) =~= v@);
    while i < v.len()
        invariant
            start <= i <= v@.len(),
            forall|k: int| 0 <= k < r@.len() ==> (#[trigger] r@[k]).0 <= r@[k].1 <= v@.len(),
            forall|j: int| start <= j < i ==> v@[j] != ',',
            split_on(v@, ',') == r@.map_values(
                |p: (usize, usize)| v@.subrange(p.0 as int, p.1 as int),
            ) + split_on(v@.skip(start as int), ','),
        decreases v.len() - i,
    {
        if v[i] == ',' {
            let ghost s = v@.skip(start as int);
            proof {
                lemma_first_index_at(s, ',', i - start);
                assert(s.take(i - start) =~= v@.subrange(start as int, i as int));
                assert(s.skip(i - start + 1) =~= v@.skip(i + 1));
            }
            let ghost before = r@;
            r.push((start, i));
            assert(r@.map_values(|p: (usize, usize)| v@.subrange(p.0 as int, p.1 as int))
                =~= before.map_values(|p: (usize, usize)| v@.subrange(p.0 as int, p.1 as int))
                + seq![v@.subrange(start as int, i as int)]);
            start = i + 1;
        }
        i = i + 1;
    }
    let ghost s = v@.skip(start as int);
    proof {
        lemma_first_index_at(s, ',', i - start);
        assert(s =~= v@.subrange(start as int, i as int));
    }
    let ghost before = r@;
    r.push((start, i));
    assert(r@.map_values(|p: (usize, usize)| v@.subrange(p.0 as int, p.1 as int)) =~= before.map_values(
        |p: (usize, usize)| v@.subrange(p.0 as int, p.1 as int),
    ) + seq![v@.subrange(start as int, i as int)]);
    r
}

/// The string of `v[lo..hi]`.
fn slice_string(v: &Vec<char>, lo: usize, hi: usize) -> (r: String)
    requires
        lo <= hi <= v@.len(),
    ensures
        r@ == v@.subrange(lo as int, hi as int),
{
    let mut out: Vec<char> = Vec::new();
    let mut i: usize = lo;
    while i < hi
        invariant
            lo <= i <= hi <= v@.len(),
            out@ == v@.subrange(lo as int, i as int),
        decreases hi - i,
    {
        out.push(v[i]);
        assert(out@ =~= v@.subrange(lo as int, i + 1));
        i = i + 1;
    }
    string_of(&out)
}

/// Rebuilds records from the lines of a log, one line at a time.
pub struct Parser {
    current_record: Option<Record>,
    records: Vec<Record>,
}

impl View for Parser {
    type V = ParserModel;

    closed spec fn view(&self) -> ParserModel {
        ParserModel {
            records: record_models(self.records@),
            current: match self.current_record {
                Some(r) => Some(r@),
                None => None,
            },
        }
    }
}

impl Parser {
    /// A parser that has seen no line yet.
    pub fn new() -> (r: Parser)
        ensures
            r@ == initial_state(),
    {
        let r = Parser { current_record: None, records: Vec::new() };
        assert(r@.records =~= Seq::<RecordModel>::empty());
        r
    }

    /// Every record seen, the open one last.
    pub fn records(self) -> (r: Vec<Record>)
        ensures
            record_models(r@) == flushed(self@),
    {
        let mut out = self.records;
        let ghost before = out@;
        match self.current_record {
            Some(rec) => {
                out.push(rec);
                assert(record_models(out@) =~= record_models(before).push(rec@));
            },
            None => {},
        }
        out
    }

    /// Handles a line that opens a record: the open record, if any, is
    /// closed and a new one with the line's timestamp is opened.
    pub fn process_timestamp_line(&mut self, line: &str) -> (r: Result<(), ParseError>)
        ensures
            match timestamp_step(old(self)@, line@) {
                Ok(st) => r is Ok && final(self)@ == st,
                Err(e) => r is Err && r->Err_0@ == e && final(self)@ == old(self)@,
            },
    {
        let v = chars_of(line);
        assert(v@.subrange(0, v@.len() as int) =~= v@);
        let (a, b) = strip_bounds(&v, 0, v.len(), false);
        let (c, d) = strip_bounds(&v, a, b, true);
        let content = slice_string(&v, c, d);
        match Timestamp::parse(content.as_str()) {
            None => Err(ParseError { kind: ParseErrorKind::BadTimestamp, line: string_of(&v) }),
            Some(ts) => {
                let ghost before = self.records@;
                match self.current_record.take() {
                    Some(rec) => {
                        self.records.push(rec);
                        assert(record_models(self.records@) =~= record_models(before).push(
                            rec@,
                        ));
                    },
                    None => {},
                }
                let fresh = Record { timestamp: ts, processes: Vec::new() };
                assert(fresh@.processes =~= Seq::<ProcessModel>::empty());
                self.current_record = Some(fresh);
                Ok(())
            },
        }
    }

    /// Handles a process line: its snapshot joins the open record.
    pub fn process_record_line(&mut self, line: &str) -> (r: Result<(), ParseError>)
        ensures
            match process_step(old(self)@, line@) {
                Ok(st) => r is Ok && final(self)@ == st,
                Err(e) => r is Err && r->Err_0@ == e && final(self)@ == old(self)@,
            },
    {
        let v = chars_of(line);
        if self.current_record.is_none() {
            return Err(ParseError { kind: ParseErrorKind::ProtocolOrder, line: string_of(&v) });
        }
        let f = split_commas(&v);
        let ghost pieces = split_on(line@, ',');
        proof {
            if f@.len() == 7 {
                assert(pieces[2] == v@.subrange(f@[2].0 as int, f@[2].1 as int));
                assert(pieces[3] == v@.subrange(f@[3].0 as int, f@[3].1 as int));
                assert(pieces[4] == v@.subrange(f@[4].0 as int, f@[4].1 as int));
                assert(pieces[5] == v@.subrange(f@[5].0 as int, f@[5].1 as int));
                assert(pieces[6] == v@.subrange(f@[6].0 as int, f@[6].1 as int));
            }
        }
        if f.len() != 7 {
            return Err(ParseError { kind: ParseErrorKind::MalformedRecord, line: string_of(&v) });
        }
        let parent = parse_unsigned(&v, f[2].0, f[2].1, 0xffff_ffff);
        let start_time = parse_unsigned(&v, f[3].0, f[3].1, 0xffff_ffff_ffff_ffff);
        let pid = parse_unsigned(&v, f[4].0, f[4].1, 0xffff_ffff);
        let resident_memory = parse_unsigned(&v, f[5].0, f[5].1, 0xffff_ffff_ffff_ffff);
        let virtual_memory = parse_unsigned(&v, f[6].0, f[6].1, 0xffff_ffff_ffff_ffff);
        match (parent, start_time, pid, resident_memory, virtual_memory) {
            (Some(parent), Some(start_time), Some(pid), Some(resident_memory), Some(virtual_memory)) => {
                let name = slice_string(&v, f[0].0, f[0].1);
                let cmd = slice_string(&v, f[1].0, f[1].1);
                assert(pieces[0] == v@.subrange(f@[0].0 as int, f@[0].1 as int));
                assert(pieces[1] == v@.subrange(f@[1].0 as int, f@[1].1 as int));
                let process = ProcessInfo {
                    name,
                    pid: pid as u32,
                    cmd,
                    parent: parent as u32,
                    start_time,
                    resident_memory,
                    virtual_memory,
                };
                assert(read_process(line@) == Some(process@));
                match self.current_record.take() {
                    Some(mut rec) => {
                        rec.add_process(process);
                        self.current_record = Some(rec);
                    },
                    None => {},
                }
                Ok(())
            },
            _ => Err(ParseError { kind: ParseErrorKind::MalformedRecord, line: string_of(&v) }),
        }
    }

    /// Handles one line of a log.
    pub fn process_line(&mut self, line: &str) -> (r: Result<(), ParseError>)
        ensures
            match step(old(self)@, line@) {
                Ok(st) => r is Ok && final(self)@ == st,
                Err(e) => r is Err && r->Err_0@ == e && final(self)@ == old(self)@,
            },
    {
        let v = chars_of(line);
        assert(v@.subrange(0, v@.len() as int) =~= v@);
        let (a, b) = strip_bounds(&v, 0, v.len(), false);
        if a < b && v[a] == '[' {
            self.process_timestamp_line(line)
        } else if a == b {
            Ok(())
        } else {
            self.process_record_line(line)
        }
    }
}

/// Reads a whole log: the records it holds, in order, or the first line at
/// fault.
pub fn parse_log(text: &str) -> (r: Result<Vec<Record>, ParseError>)
    ensures
        match parse_text(text@) {
            Ok(rs) => r is Ok && record_models(r->Ok_0@) == rs,
            Err(e) => r is Err && r->Err_0@ == e,
        },
{
    let v = chars_of(text);
    let mut parser = Parser::new();
    let mut pos: usize = 0;
    assert(v@.skip(0) =~= v@);
    while pos < v.len()
        invariant
            pos <= v@.len(),
            v@ == text@,
            run(initial_state(), lines_of(text@)) == run(parser@, lines_of(v@.skip(pos as int))),
        decreases v.len() - pos,
    {
        let ghost s = v@.skip(pos as int);
        let mut i: usize = pos;
        while i < v.len() && v[i] != '\n'
            invariant
                pos <= i <= v@.len(),
                forall|j: int| pos <= j < i ==> v@[j] != '\n',
            decreases v.len() - i,
        {
            i = i + 1;
        }
        proof {
            lemma_first_index_at(s, '\n', i - pos);
        }
        let mut end: usize = i;
        if i < v.len() && end > pos && v[end - 1] == '\r' {
            end = end - 1;
        }
        let line = slice_string(&v, pos, end);
        let ghost lines = lines_of(s);
        let next: usize = if i < v.len() {
            i + 1
        } else {
            i
        };
        proof {
            if i < v.len() {
                assert(s.take(i - pos) =~= v@.subrange(pos as int, i as int));
                assert(s.skip(i - pos + 1) =~= v@.skip(next as int));
                assert(line@ =~= strip_cr(s.take(i - pos)));
                assert(lines.skip(1) =~= lines_of(v@.skip(next as int)));
            } else {
                assert(s =~= v@.subrange(pos as int, i as int));
                assert(v@.skip(next as int) =~= Seq::<char>::empty());
                assert(lines.skip(1) =~= lines_of(v@.skip(next as int)));
            }
            assert(lines[0] == line@);
        }
        match parser.process_line(line.as_str()) {
            Err(e) => {
                return Err(e);
            },
            Ok(()) => {},
        }
        pos = next;
    }
    assert(v@.skip(pos as int) =~= Seq::<char>::empty());
    Ok(parser.records())
}

}