//! Process snapshots and the time-series records that group them, with the
//! text each one is written as.

use vstd::prelude::*;

use crate::decimal::{decimal_text, push_decimal};
use crate::text::{push_chars, string_of};
use crate::timestamp::{rfc3339_text, Timestamp};

verus! {

/// What a process snapshot holds.
pub struct ProcessModel {
    pub name: Seq<char>,
    pub cmd: Seq<char>,
    pub pid: u32,
    pub parent: u32,
    pub start_time: u64,
    pub resident_memory: u64,
    pub virtual_memory: u64,
}

/// One process's observed metrics at a point in time.
#[derive(Clone, Debug)]
pub struct ProcessInfo {
    pub name: String,
    pub pid: u32,
    pub cmd: String,
    pub parent: u32,
    pub start_time: u64,
    pub resident_memory: u64,
    pub virtual_memory: u64,
}

impl View for ProcessInfo {
    type V = ProcessModel;

    open spec fn view(&self) -> ProcessModel {
        ProcessModel {
            name: self.name@,
            cmd: self.cmd@,
            pid: self.pid,
            parent: self.parent,
            start_time: self.start_time,
            resident_memory: self.resident_memory,
            virtual_memory: self.virtual_memory,
        }
    }
}

pub open spec fn process_models(v: Seq<ProcessInfo>) -> Seq<ProcessModel> {
    v.map_values(|p: ProcessInfo| p@)
}

/// A free-text field holds neither the field delimiter nor a line break.
pub open spec fn is_clean(s: Seq<char>) -> bool {
    forall|i: int| 0 <= i < s.len() ==> #[trigger] s[i] != ',' && s[i] != '\n'
}

/// `s` with each comma replaced by `_` and each line feed removed.
pub open spec fn sanitized(s: Seq<char>) -> Seq<char>
    decreases s.len(),
{
    if s.len() == 0 {
        s
    } else if s.last() == ',' {
        sanitized(s.drop_last()).push('_')
    } else if s.last() == '\n' {
        sanitized(s.drop_last())
    } else {
        sanitized(s.drop_last()).push(s.last())
    }
}

/// The words of a command line joined by single spaces.
pub open spec fn joined(parts: Seq<Seq<char>>) -> Seq<char>
    decreases parts.len(),
{
    if parts.len() == 0 {
        Seq::empty()
    } else if parts.len() == 1 {
        parts[0]
    } else {
        joined(parts.drop_last()) + seq![' '] + parts.last()
    }
}

/// The text line of one snapshot:
/// `name,cmd,parent,start_time,pid,resident_memory,virtual_memory`.
pub open spec fn process_line(p: ProcessModel) -> Seq<char> {
    p.name + seq![','] + p.cmd + seq![','] + decimal_text(p.parent as nat) + seq![',']
        + decimal_text(p.start_time as nat) + seq![','] + decimal_text(p.pid as nat) + seq![',']
        + decimal_text(p.resident_memory as nat) + seq![','] + decimal_text(
        p.virtual_memory as nat,
    )
}

/// The lines of these snapshots, each ended by a line feed.
pub open spec fn lines_text(ps: Seq<ProcessModel>) -> Seq<char>
    decreases ps.len(),
{
    if ps.len() == 0 {
        Seq::empty()
    } else {
        lines_text(ps.drop_last()) + process_line(ps.last()) + seq!['\n']
    }
}

/// `s` (ascending by resident memory) with `x` placed after every snapshot
/// whose resident memory is not larger.
pub open spec fn insert_by_rss(s: Seq<ProcessModel>, x: ProcessModel) -> Seq<ProcessModel>
    decreases s.len(),
{
    if s.len() == 0 {
        seq![x]
    } else if s.last().resident_memory <= x.resident_memory {
        s.push(x)
    } else {
        insert_by_rss(s.drop_last(), x).push(s.last())
    }
}

/// The stable sort of `s` ascending by resident memory: equal keys keep
/// their order.
pub open spec fn sort_by_rss(s: Seq<ProcessModel>) -> Seq<ProcessModel>
    decreases s.len(),
{
    if s.len() == 0 {
        s
    } else {
        insert_by_rss(sort_by_rss(s.drop_last()), s.last())
    }
}

/// What a time-series record holds.
pub struct RecordModel {
    pub timestamp: (i64, u32),
    pub processes: Seq<ProcessModel>,
}

/// The text of a record: its bracketed timestamp line, then one line per
/// snapshot, lowest resident memory first.
pub open spec fn record_text(r: RecordModel) -> Seq<char> {
    seq!['['] + rfc3339_text(r.timestamp.0, r.timestamp.1) + seq![']', '\n'] + lines_text(
        sort_by_rss(r.processes),
    )
}

/// The snapshots of all processes observed at one instant.
#[derive(Clone, Debug)]
pub struct Record {
    pub timestamp: Timestamp,
    pub processes: Vec<ProcessInfo>,
}

impl View for Record {
    type V = RecordModel;

    open spec fn view(&self) -> RecordModel {
        RecordModel { timestamp: self.timestamp@, processes: process_models(self.processes@) }
    }
}

/// Replaces each comma of `s` by `_` and drops each line feed.
pub fn sanitize(s: &str) -> (r: String)
    ensures
        r@ == sanitized(s@),
        is_clean(r@),
{
    let v = crate::text::chars_of(s);
    let mut out: Vec<char> = Vec::new();
    let mut i: usize = 0;
    while i < v.len()
        invariant
            i <= v@.len(),
            v@ == s@,
            out@ == sanitized(v@.take(i as int)),
            is_clean(out@),
        decreases v.len() - i,
    {
        let c = v[i];
        assert(v@.take(i + 1).drop_last() =~= v@.take(i as int));
        if c == ',' {
            out.push('_');
        } else if c != '\n' {
            out.push(c);
        }
        i = i + 1;
    }
    assert(v@.take(i as int) =~= v@);
    string_of(&out)
}

impl ProcessInfo {
    /// A snapshot from what the operating system reports: the command line's
    /// words are joined by spaces, both free-text fields are sanitized, and a
    /// missing parent becomes `0`.
    pub fn from_parts(
        name: &str,
        cmd_parts: &Vec<String>,
        pid: u32,
        parent: Option<u32>,
        start_time: u64,
        resident_memory: u64,
        virtual_memory: u64,
    ) -> (r: ProcessInfo)
        ensures
            r@.name == sanitized(name@),
            r@.cmd == sanitized(joined(cmd_parts@.map_values(|w: String| w@))),
            r.pid == pid,
            r.parent == (match parent {
                Some(p) => p,
                None => 0u32,
            }),
            r.start_time == start_time,
            r.resident_memory == resident_memory,
            r.virtual_memory == virtual_memory,
    {
        let ghost words = cmd_parts@.map_values(|w: String| w@);
        let mut cmd: Vec<char> = Vec::new();
        let mut k: usize = 0;
        while k < cmd_parts.len()
            invariant
                k <= cmd_parts@.len(),
                words == cmd_parts@.map_values(|w: String| w@),
                cmd@ == joined(words.take(k as int)),
            decreases cmd_parts.len() - k,
        {
            assert(words.take(k + 1).drop_last() =~= words.take(k as int));
            if k > 0 {
                cmd.push(' ');
            }
            push_chars(&mut cmd, cmd_parts[k].as_str());
            proof {
                if k == 0 {
                    assert(cmd@ =~= joined(words.take(1)));
                } else {
                    assert(cmd@ =~= joined(words.take(k + 1)));
                }
            }
            k = k + 1;
        }
        assert(words.take(k as int) =~= words);
        let joined_cmd = string_of(&cmd);
        let parent_pid: u32 = match parent {
            Some(p) => p,
            None => 0,
        };
        ProcessInfo {
            name: sanitize(name),
            pid,
            cmd: sanitize(joined_cmd.as_str()),
            parent: parent_pid,
            start_time,
            resident_memory,
            virtual_memory,
        }
    }

    /// A copy of this snapshot.
    pub fn duplicate(&self) -> (r: ProcessInfo)
        ensures
            r@ == self@,
    {
        ProcessInfo {
            name: self.name.clone(),
            pid: self.pid,
            cmd: self.cmd.clone(),
            parent: self.parent,
            start_time: self.start_time,
            resident_memory: self.resident_memory,
            virtual_memory: self.virtual_memory,
        }
    }

    /// Appends the text line of this snapshot, without a line feed.
    pub fn push_line(&self, out: &mut Vec<char>)
        ensures
            final(out)@ == old(out)@ + process_line(self@),
    {
        push_chars(out, self.name.as_str());
        out.push(',');
        push_chars(out, self.cmd.as_str());
        out.push(',');
        push_decimal(out, self.parent as u64);
        out.push(',');
        push_decimal(out, self.start_time);
        out.push(',');
        push_decimal(out, self.pid as u64);
        out.push(',');
        push_decimal(out, self.resident_memory);
        out.push(',');
        push_decimal(out, self.virtual_memory);
        assert(final(out)@ =~= old(out)@ + process_line(self@));
    }

    /// The text line of this snapshot.
    pub fn to_string(&self) -> (r: String)
        ensures
            r@ == process_line(self@),
    {
        let mut out: Vec<char> = Vec::new();
        self.push_line(&mut out);
        assert(out@ =~= process_line(self@));
        string_of(&out)
    }
}

/// A copy of `ps`, stably sorted ascending by resident memory.
pub fn sorted_by_rss(ps: &Vec<ProcessInfo>) -> (r: Vec<ProcessInfo>)
    ensures
        process_models(r@) == sort_by_rss(process_models(ps@)),
{
    let ghost all = process_models(ps@);
    let mut out: Vec<ProcessInfo> = Vec::new();
    let mut k: usize = 0;
    assert(all.take(0) =~= Seq::<ProcessModel>::empty());
    assert(process_models(out@) =~= sort_by_rss(all.take(0)));
    while k < ps.len()
        invariant
            k <= ps@.len(),
            all == process_models(ps@),
            process_models(out@) == sort_by_rss(all.take(k as int)),
        decreases ps.len() - k,
    {
        let x = ps[k].duplicate();
        let ghost s = process_models(out@);
        let mut j: usize = out.len();
        assert(s.take(j as int) =~= s);
        assert(s.skip(j as int) =~= Seq::<ProcessModel>::empty());
        assert(insert_by_rss(s, x@) =~= insert_by_rss(s.take(j as int), x@) + s.skip(j as int));
        while j > 0 && out[j - 1].resident_memory > x.resident_memory
            invariant
                j <= out@.len(),
                s == process_models(out@),
                insert_by_rss(s, x@) == insert_by_rss(s.take(j as int), x@) + s.skip(j as int),
            decreases j,
        {
            proof {
                let t = s.take(j as int);
                assert(t.drop_last() =~= s.take(j - 1));
                assert(t.last() == s[j - 1]);
                assert(insert_by_rss(s.take(j - 1), x@).push(s[j - 1]) + s.skip(j as int)
                    =~= insert_by_rss(s.take(j - 1), x@) + s.skip(j - 1));
            }
            j = j - 1;
        }
        proof {
            let t = s.take(j as int);
            if j > 0 {
                assert(t.last() == s[j - 1]);
            }
            assert(insert_by_rss(t, x@) == t.push(x@));
        }
        out.insert(j, x);
        proof {
            assert(all.take(k + 1).drop_last() =~= all.take(k as int));
            assert(all.take(k + 1).last() == ps@[k as int]@);
            assert(process_models(out@) =~= s.take(j as int).push(x@) + s.skip(j as int));
        }
        k = k + 1;
    }
    assert(all.take(k as int) =~= all);
    out
}

impl Record {
    /// Appends a snapshot to this record.
    pub fn add_process(&mut self, process: ProcessInfo)
        ensures
            final(self)@ == (RecordModel {
                timestamp: old(self)@.timestamp,
                processes: old(self)@.processes.push(process@),
            }),
    {
        self.processes.push(process);
        assert(final(self)@.processes =~= old(self)@.processes.push(process@));
    }

    /// Appends the text of this record.
    pub fn push_text(&self, out: &mut Vec<char>)
        ensures
            final(out)@ == old(out)@ + record_text(self@),
    {
        let ghost start = out@;
        out.push('[');
        let stamp = self.timestamp.to_rfc3339();
        push_chars(out, stamp.as_str());
        out.push(']');
        out.push('\n');
        let ghost head = out@;
        let sorted = sorted_by_rss(&self.processes);
        let ghost ps = process_models(sorted@);
        let mut k: usize = 0;
        assert(ps.take(0) =~= Seq::<ProcessModel>::empty());
        assert(out@ =~= head + lines_text(ps.take(0)));
        while k < sorted.len()
            invariant
                k <= sorted@.len(),
                ps == process_models(sorted@),
                out@ == head + lines_text(ps.take(k as int)),
            decreases sorted.len() - k,
        {
            sorted[k].push_line(out);
            out.push('\n');
            assert(ps.take(k + 1).drop_last() =~= ps.take(k as int));
            assert(out@ =~= head + lines_text(ps.take(k + 1)));
            k = k + 1;
        }
        assert(ps.take(k as int) =~= ps);
        assert(out@ =~= start + record_text(self@));
    }

    /// The text of this record.
    pub fn to_string(&self) -> (r: String)
        ensures
            r@ == record_text(self@),
    {
        let mut out: Vec<char> = Vec::new();
        self.push_text(&mut out);
        assert(out@ =~= record_text(self@));
        string_of(&out)
    }
}

}
