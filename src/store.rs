//! The bounded history of records: a FIFO of fixed capacity that evicts its
//! oldest record to make room, and writes itself out as one text.

use std::collections::VecDeque;
use vstd::prelude::*;

use crate::record::{Record, RecordModel, record_text};
use crate::text::string_of;

verus! {

/// Why a store could not be configured.
#[derive(Clone, Copy, Debug, PartialEq, Eq, Structural)]
pub enum ConfigError {
    /// A capacity of zero records.
    ZeroCapacity,
    /// A sampling period that is zero or not shorter than the history window.
    PeriodNotShorterThanHistory,
    /// A duration text that does not read as one.
    InvalidDuration,
}

/// The whole seconds of the duration that parse_duration reads from a text,
/// if it reads one.
pub uninterp spec fn duration_secs_read(s: Seq<char>) -> Option<u64>;

/// Relies on `parse_duration::parse`, a function of its input alone, and on
/// `Duration::as_secs` for its whole seconds.
#[verifier::external_body]
fn read_duration_secs(s: &str) -> (r: Option<u64>)
    ensures
        r == duration_secs_read(s@),
{
    parse_duration::parse(s).ok().map(|d| d.as_secs())
}

/// Reads a duration setting (such as `60s` or `2h`) as whole seconds.
pub fn parse_duration_secs(s: &str) -> (r: Result<u64, ConfigError>)
    ensures
        match duration_secs_read(s@) {
            Some(secs) => r == Ok::<u64, ConfigError>(secs),
            None => r == Err::<u64, ConfigError>(ConfigError::InvalidDuration),
        },
{
    match read_duration_secs(s) {
        Some(secs) => Ok(secs),
        None => Err(ConfigError::InvalidDuration),
    }
}

/// The contents after appending `r` to `contents` in a store of capacity
/// `cap`: when full, the oldest record leaves first.
pub open spec fn after_insert(cap: nat, contents: Seq<RecordModel>, r: RecordModel) -> Seq<
    RecordModel,
> {
    if contents.len() >= cap {
        contents.skip(1).push(r)
    } else {
        contents.push(r)
    }
}

/// The contents after appending each of `xs` in turn.
pub open spec fn after_inserts(cap: nat, contents: Seq<RecordModel>, xs: Seq<RecordModel>) -> Seq<
    RecordModel,
>
    decreases xs.len(),
{
    if xs.len() == 0 {
        contents
    } else {
        after_insert(cap, after_inserts(cap, contents, xs.drop_last()), xs.last())
    }
}

/// The text of a whole history: each record followed by a blank line.
pub open spec fn history_text(rs: Seq<RecordModel>) -> Seq<char>
    decreases rs.len(),
{
    if rs.len() == 0 {
        Seq::empty()
    } else {
        history_text(rs.drop_last()) + record_text(rs.last()) + seq!['\n']
    }
}

/// The number of records kept for a history window sampled every `period`
/// seconds, or `None` when the period is zero or not shorter than the window.
pub open spec fn capacity_for(period_secs: u64, history_secs: u64) -> Option<nat> {
    if period_secs == 0 || period_secs >= history_secs {
        None
    } else {
        Some((history_secs / period_secs) as nat)
    }
}

/// Eviction keeps exactly the most recent records: after any sequence of
/// inserts into an empty store of capacity `cap`, it holds the last
/// `min(n, cap)` of the `n` records inserted, in insertion order. In
/// particular, once `n >= cap` it holds `cap` records.
pub proof fn lemma_fifo_eviction(cap: nat, xs: Seq<RecordModel>)
    requires
        cap >= 1,
    ensures
        after_inserts(cap, Seq::empty(), xs).len() == if xs.len() < cap {
            xs.len()
        } else {
            cap
        },
        after_inserts(cap, Seq::empty(), xs) == xs.skip(
            xs.len() - if xs.len() < cap {
                xs.len()
            } else {
                cap
            },
        ),
    decreases xs.len(),
{
    if xs.len() > 0 {
        let prev = xs.drop_last();
        lemma_fifo_eviction(cap, prev);
        let r = after_inserts(cap, Seq::empty(), prev);
        if prev.len() >= cap {
            assert(r.skip(1).push(xs.last()) =~= xs.skip(xs.len() - cap));
        } else {
            assert(r.push(xs.last()) =~= xs.skip(0));
        }
    } else {
        assert(xs.skip(0) =~= xs);
    }
}

/// A fixed-capacity FIFO of records, oldest first.
#[derive(Debug)]
pub struct SnapshotStore {
    records: VecDeque<Record>,
    capacity: u64,
}

impl View for SnapshotStore {
    type V = Seq<RecordModel>;

    closed spec fn view(&self) -> Seq<RecordModel> {
        self.records@.map_values(|r: Record| r@)
    }
}

impl SnapshotStore {
    /// The capacity is positive and not exceeded.
    pub closed spec fn wf(&self) -> bool {
        1 <= self.capacity && self.records@.len() <= self.capacity
    }

    /// The most records this store keeps.
    pub closed spec fn cap(&self) -> nat {
        self.capacity as nat
    }

    /// An empty store that keeps at most `capacity` records.
    pub fn new(capacity: u64) -> (r: Result<SnapshotStore, ConfigError>)
        ensures
            capacity == 0 <==> r is Err,
            r matches Err(e) ==> e == ConfigError::ZeroCapacity,
            r matches Ok(s) ==> s.wf() && s@.len() == 0 && s.cap() == capacity,
    {
        if capacity == 0 {
            return Err(ConfigError::ZeroCapacity);
        }
        let s = SnapshotStore { records: VecDeque::new(), capacity };
        assert(s@ =~= Seq::<RecordModel>::empty());
        Ok(s)
    }

    /// An empty store sized for a history window of `history_secs` seconds
    /// sampled every `period_secs` seconds: it keeps
    /// `history_secs / period_secs` records.
    pub fn from_durations(period_secs: u64, history_secs: u64) -> (r: Result<
        SnapshotStore,
        ConfigError,
    >)
        ensures
            r is Err <==> capacity_for(period_secs, history_secs) is None,
            r matches Err(e) ==> e == ConfigError::PeriodNotShorterThanHistory,
            r matches Ok(s) ==> s.wf() && s@.len() == 0 && s.cap() == capacity_for(
                period_secs,
                history_secs,
            )->0,
    {
        if period_secs == 0 || period_secs >= history_secs {
            return Err(ConfigError::PeriodNotShorterThanHistory);
        }
        let capacity: u64 = history_secs / period_secs;
        assert(capacity >= 1) by (nonlinear_arith)
            requires
                capacity == history_secs / period_secs,
                0 < period_secs < history_secs,
        ;
        let s = SnapshotStore { records: VecDeque::new(), capacity };
        assert(s@ =~= Seq::<RecordModel>::empty());
        Ok(s)
    }

    pub fn len(&self) -> (r: usize)
        ensures
            r == self@.len(),
    {
        self.records.len()
    }

    pub fn capacity(&self) -> (r: u64)
        ensures
            r == self.cap(),
    {
        self.capacity
    }

    /// Appends a record, evicting the oldest first when the store is full.
    pub fn insert_record(&mut self, record: Record)
        requires
            old(self).wf(),
        ensures
            final(self).wf(),
            final(self)@ == after_insert(old(self).cap(), old(self)@, record@),
            final(self).cap() == old(self).cap(),
            final(self)@.len() <= final(self).cap(),
    {
        let ghost before = self.records@;
        if self.records.len() as u64 >= self.capacity {
            self.records.pop_front();
            assert(self.records@ =~= before.skip(1));
        }
        let ghost mid = self.records@;
        self.records.push_back(record);
        assert(self@ =~= after_insert(old(self).cap(), old(self)@, record@));
    }

    /// The record at position `i`, oldest first.
    pub fn get(&self, i: usize) -> (r: &Record)
        requires
            i < self@.len(),
        ensures
            r@ == self@[i as int],
    {
        &self.records[i]
    }

    /// The text of every record, oldest first, each followed by a blank line.
    pub fn to_string(&self) -> (r: String)
        ensures
            r@ == history_text(self@),
    {
        let ghost rs = self@;
        let mut out: Vec<char> = Vec::new();
        let mut k: usize = 0;
        assert(rs.take(0) =~= Seq::<RecordModel>::empty());
        while k < self.records.len()
            invariant
                k <= rs.len(),
                rs == self@,
                out@ == history_text(rs.take(k as int)),
            decreases rs.len() - k,
        {
            self.records[k].push_text(&mut out);
            out.push('\n');
            assert(rs.take(k + 1).drop_last() =~= rs.take(k as int));
            assert(out@ =~= history_text(rs.take(k + 1)));
            k = k + 1;
        }
        assert(rs.take(k as int) =~= rs);
        string_of(&out)
    }
}

}
