//! The round trip of the line protocol: reading back the text of a history
//! gives its records, each with its snapshots in written order.

use vstd::prelude::*;

use crate::decimal::{decimal_text, lemma_decimal_text, read_unsigned, unsigned_body};
use crate::protocol::{
    first_index, flushed, initial_state, is_ws, lemma_first_index_at, lines_of, parse_text,
    process_step, read_process, run, split_on, step, strip_cr, strip_end, strip_start, trim,
    ParserModel, stamp_content,
};
use crate::record::{
    insert_by_rss, is_clean, lines_text, process_line, record_text, sort_by_rss, ProcessModel,
    RecordModel,
};
use crate::store::history_text;
use crate::timestamp::{is_stamp_char, rfc3339_read, rfc3339_text};

verus! {

/// A snapshot that can be written and read back: its free-text fields hold
/// no comma or line feed, and its name does not open with `[` once leading
/// whitespace is skipped.
pub open spec fn writable_process(p: ProcessModel) -> bool {
    &&& is_clean(p.name)
    &&& is_clean(p.cmd)
    &&& !(strip_start(p.name, false).len() > 0 && strip_start(p.name, false)[0] == '[')
}

/// The text chrono writes for the instant is a non-empty RFC 3339 text that
/// chrono reads back as the same instant.
pub open spec fn stamp_reads_back(t: (i64, u32)) -> bool {
    let s = rfc3339_text(t.0, t.1);
    &&& s.len() > 0
    &&& forall|i: int| 0 <= i < s.len() ==> is_stamp_char(#[trigger] s[i])
    &&& rfc3339_read(s) == Some(t)
}

/// A record that can be written and read back.
pub open spec fn writable_record(r: RecordModel) -> bool {
    &&& stamp_reads_back(r.timestamp)
    &&& forall|i: int| 0 <= i < r.processes.len() ==> writable_process(#[trigger] r.processes[i])
}

/// The record with its snapshots in the order they are written: ascending
/// by resident memory, ties in their original order.
pub open spec fn normalized(r: RecordModel) -> RecordModel {
    RecordModel { timestamp: r.timestamp, processes: sort_by_rss(r.processes) }
}

pub open spec fn no_char(s: Seq<char>, c: char) -> bool {
    forall|i: int| 0 <= i < s.len() ==> s[i] != c
}

spec fn ends_line(s: Seq<char>) -> bool {
    s.len() == 0 || s.last() == '\n'
}

spec fn stamp_line(t: (i64, u32)) -> Seq<char> {
    seq!['['] + rfc3339_text(t.0, t.1) + seq![']']
}

spec fn process_lines(ps: Seq<ProcessModel>) -> Seq<Seq<char>>
    decreases ps.len(),
{
    if ps.len() == 0 {
        Seq::empty()
    } else {
        process_lines(ps.drop_last()).push(process_line(ps.last()))
    }
}

spec fn record_lines(r: RecordModel) -> Seq<Seq<char>> {
    seq![stamp_line(r.timestamp)] + process_lines(sort_by_rss(r.processes))
}

spec fn history_lines(rs: Seq<RecordModel>) -> Seq<Seq<char>>
    decreases rs.len(),
{
    if rs.len() == 0 {
        Seq::empty()
    } else {
        history_lines(rs.drop_last()) + record_lines(rs.last()) + seq![Seq::<char>::empty()]
    }
}

proof fn lemma_no_char_concat(a: Seq<char>, b: Seq<char>, c: char)
    requires
        no_char(a, c),
        no_char(b, c),
    ensures
        no_char(a + b, c),
{
    assert forall|i: int| 0 <= i < (a + b).len() implies (a + b)[i] != c by {
        if i >= a.len() {
            assert((a + b)[i] == b[i - a.len()]);
        }
    }
}

proof fn lemma_first_index_props(s: Seq<char>, c: char)
    ensures
        first_index(s, c) <= s.len(),
        forall|j: int| 0 <= j < first_index(s, c) ==> s[j] != c,
        first_index(s, c) < s.len() ==> s[first_index(s, c) as int] == c,
    decreases s.len(),
{
    if s.len() > 0 && s[0] != c {
        lemma_first_index_props(s.skip(1), c);
        assert forall|j: int| 0 <= j < first_index(s, c) implies s[j] != c by {
            if j > 0 {
                assert(s[j] == s.skip(1)[j - 1]);
            }
        }
    }
}

proof fn lemma_lines_concat(a: Seq<char>, b: Seq<char>)
    requires
        ends_line(a),
    ensures
        lines_of(a + b) == lines_of(a) + lines_of(b),
    decreases a.len(),
{
    if a.len() == 0 {
        assert(a + b =~= b);
        assert(lines_of(a) =~= Seq::<Seq<char>>::empty());
        assert(lines_of(a) + lines_of(b) =~= lines_of(b));
    } else {
        lemma_first_index_props(a, '\n');
        let i = first_index(a, '\n');
        if i == a.len() {
            assert(a[a.len() - 1] != '\n');
        }
        assert(i < a.len());
        let ab = a + b;
        assert forall|j: int| 0 <= j < i implies ab[j] != '\n' by {
            assert(ab[j] == a[j]);
        }
        lemma_first_index_at(ab, '\n', i as int);
        let rest = a.skip(i + 1 as int);
        assert(ab.take(i as int) =~= a.take(i as int));
        assert(ab.skip(i + 1 as int) =~= rest + b);
        if rest.len() > 0 {
            assert(rest.last() == a.last());
        }
        lemma_lines_concat(rest, b);
        assert(lines_of(ab) == seq![strip_cr(a.take(i as int))] + lines_of(rest + b));
        assert(lines_of(a) == seq![strip_cr(a.take(i as int))] + lines_of(rest));
        assert(lines_of(ab) =~= lines_of(a) + lines_of(b));
    }
}

proof fn lemma_line_alone(l: Seq<char>)
    requires
        no_char(l, '\n'),
        l.len() == 0 || l.last() != '\r',
    ensures
        lines_of(l + seq!['\n']) == seq![l],
{
    let s = l + seq!['\n'];
    assert forall|j: int| 0 <= j < l.len() implies s[j] != '\n' by {
        assert(s[j] == l[j]);
    }
    lemma_first_index_at(s, '\n', l.len() as int);
    assert(s.take(l.len() as int) =~= l);
    assert(s.skip(l.len() + 1 as int) =~= Seq::<char>::empty());
    assert(strip_cr(l) == l);
    assert(lines_of(Seq::<char>::empty()) =~= Seq::<Seq<char>>::empty());
    assert(lines_of(s) =~= seq![l]);
}

proof fn lemma_strip_start_head(s: Seq<char>, brackets: bool)
    ensures
        strip_start(s, brackets).len() > 0 ==> !crate::protocol::strippable(
            strip_start(s, brackets)[0],
            brackets,
        ),
    decreases s.len(),
{
    if s.len() > 0 && crate::protocol::strippable(s[0], brackets) {
        lemma_strip_start_head(s.skip(1), brackets);
    }
}

proof fn lemma_strip_start_concat(a: Seq<char>, b: Seq<char>)
    requires
        b.len() > 0,
        !is_ws(b[0]),
    ensures
        strip_start(a + b, false) == if strip_start(a, false).len() > 0 {
            strip_start(a, false) + b
        } else {
            b
        },
    decreases a.len(),
{
    if a.len() == 0 {
        assert(a + b =~= b);
    } else if is_ws(a[0]) {
        assert((a + b)[0] == a[0]);
        assert((a + b).skip(1) =~= a.skip(1) + b);
        lemma_strip_start_concat(a.skip(1), b);
    } else {
        assert((a + b)[0] == a[0]);
    }
}

proof fn lemma_strip_end_head(t: Seq<char>)
    requires
        t.len() > 0,
        !is_ws(t[0]),
    ensures
        strip_end(t, false).len() > 0,
        strip_end(t, false)[0] == t[0],
    decreases t.len(),
{
    if is_ws(t.last()) {
        assert(t.len() >= 2);
        lemma_strip_end_head(t.drop_last());
    }
}

proof fn lemma_split_field(a: Seq<char>, b: Seq<char>)
    requires
        no_char(a, ','),
    ensures
        split_on(a + seq![','] + b, ',') == seq![a] + split_on(b, ','),
{
    let s = a + seq![','] + b;
    assert forall|j: int| 0 <= j < a.len() implies s[j] != ',' by {
        assert(s[j] == a[j]);
    }
    lemma_first_index_at(s, ',', a.len() as int);
    assert(s.take(a.len() as int) =~= a);
    assert(s.skip(a.len() + 1 as int) =~= b);
}

proof fn lemma_split_last(d: Seq<char>)
    requires
        no_char(d, ','),
    ensures
        split_on(d, ',') == seq![d],
{
    lemma_first_index_at(d, ',', d.len() as int);
}

proof fn lemma_decimal_field(n: nat, max: nat)
    requires
        n <= max,
    ensures
        read_unsigned(decimal_text(n), max) == Some(n),
        no_char(decimal_text(n), ','),
        no_char(decimal_text(n), '\n'),
        decimal_text(n).last() != '\r',
{
    lemma_decimal_text(n);
    let d = decimal_text(n);
    assert(unsigned_body(d) == d);
    assert forall|i: int| 0 <= i < d.len() implies d[i] != ',' && d[i] != '\n' by {
        assert(crate::decimal::is_digit(d[i]));
    }
    assert(d.last() == d[d.len() - 1]);
}

spec fn numbers_tail(p: ProcessModel) -> Seq<char> {
    let comma = seq![','];
    decimal_text(p.parent as nat) + comma + (decimal_text(p.start_time as nat) + comma + (
    decimal_text(p.pid as nat) + comma + (decimal_text(p.resident_memory as nat) + comma
        + decimal_text(p.virtual_memory as nat))))
}

proof fn lemma_line_shape(p: ProcessModel)
    ensures
        process_line(p) == p.name + seq![','] + (p.cmd + seq![','] + numbers_tail(p)),
{
    assert(process_line(p) =~= p.name + seq![','] + (p.cmd + seq![','] + numbers_tail(p)));
}

proof fn lemma_numbers_tail(p: ProcessModel)
    ensures
        no_char(numbers_tail(p), '\n'),
        numbers_tail(p).len() > 0,
        numbers_tail(p).last() == decimal_text(p.virtual_memory as nat).last(),
        split_on(numbers_tail(p), ',') == seq![
            decimal_text(p.parent as nat),
            decimal_text(p.start_time as nat),
            decimal_text(p.pid as nat),
            decimal_text(p.resident_memory as nat),
            decimal_text(p.virtual_memory as nat),
        ],
{
    let comma = seq![','];
    let d1 = decimal_text(p.parent as nat);
    let d2 = decimal_text(p.start_time as nat);
    let d3 = decimal_text(p.pid as nat);
    let d4 = decimal_text(p.resident_memory as nat);
    let d5 = decimal_text(p.virtual_memory as nat);
    lemma_decimal_field(p.parent as nat, u32::MAX as nat);
    lemma_decimal_field(p.start_time as nat, u64::MAX as nat);
    lemma_decimal_field(p.pid as nat, u32::MAX as nat);
    lemma_decimal_field(p.resident_memory as nat, u64::MAX as nat);
    lemma_decimal_field(p.virtual_memory as nat, u64::MAX as nat);
    lemma_decimal_text(p.virtual_memory as nat);
    let t4 = d4 + comma + d5;
    let t3 = d3 + comma + t4;
    let t2 = d2 + comma + t3;
    lemma_split_field(d1, t2);
    lemma_split_field(d2, t3);
    lemma_split_field(d3, t4);
    lemma_split_field(d4, d5);
    lemma_split_last(d5);
    assert(split_on(numbers_tail(p), ',') =~= seq![d1, d2, d3, d4, d5]);
    assert(no_char(comma, '\n'));
    lemma_no_char_concat(d4, comma, '\n');
    lemma_no_char_concat(d4 + comma, d5, '\n');
    lemma_no_char_concat(d3, comma, '\n');
    lemma_no_char_concat(d3 + comma, t4, '\n');
    lemma_no_char_concat(d2, comma, '\n');
    lemma_no_char_concat(d2 + comma, t3, '\n');
    lemma_no_char_concat(d1, comma, '\n');
    lemma_no_char_concat(d1 + comma, t2, '\n');
    assert(t4.last() == d5.last());
    assert(t3.last() == t4.last());
    assert(t2.last() == t3.last());
}

proof fn lemma_process_fields(p: ProcessModel)
    requires
        writable_process(p),
    ensures
        read_process(process_line(p)) == Some(p),
{
    lemma_line_shape(p);
    lemma_numbers_tail(p);
    lemma_decimal_field(p.parent as nat, u32::MAX as nat);
    lemma_decimal_field(p.start_time as nat, u64::MAX as nat);
    lemma_decimal_field(p.pid as nat, u32::MAX as nat);
    lemma_decimal_field(p.resident_memory as nat, u64::MAX as nat);
    lemma_decimal_field(p.virtual_memory as nat, u64::MAX as nat);
    let t0 = p.cmd + seq![','] + numbers_tail(p);
    assert(no_char(p.name, ','));
    assert(no_char(p.cmd, ','));
    lemma_split_field(p.name, t0);
    lemma_split_field(p.cmd, numbers_tail(p));
    let f = split_on(process_line(p), ',');
    assert(f =~= seq![
        p.name,
        p.cmd,
        decimal_text(p.parent as nat),
        decimal_text(p.start_time as nat),
        decimal_text(p.pid as nat),
        decimal_text(p.resident_memory as nat),
        decimal_text(p.virtual_memory as nat),
    ]);
}

proof fn lemma_process_breaks(p: ProcessModel)
    requires
        writable_process(p),
    ensures
        no_char(process_line(p), '\n'),
        process_line(p).last() != '\r',
        process_line(p).len() > 0,
{
    lemma_line_shape(p);
    lemma_numbers_tail(p);
    lemma_decimal_field(p.virtual_memory as nat, u64::MAX as nat);
    let comma = seq![','];
    let t0 = p.cmd + comma + numbers_tail(p);
    assert(no_char(comma, '\n'));
    assert(no_char(p.name, '\n'));
    assert(no_char(p.cmd, '\n'));
    lemma_no_char_concat(p.cmd, comma, '\n');
    lemma_no_char_concat(p.cmd + comma, numbers_tail(p), '\n');
    lemma_no_char_concat(p.name, comma, '\n');
    lemma_no_char_concat(p.name + comma, t0, '\n');
    assert(t0.last() == numbers_tail(p).last());
    assert(process_line(p).last() == t0.last());
}

proof fn lemma_process_trim(p: ProcessModel)
    requires
        writable_process(p),
    ensures
        trim(process_line(p)).len() > 0,
        trim(process_line(p))[0] != '[',
{
    lemma_line_shape(p);
    let b = seq![','] + (p.cmd + seq![','] + numbers_tail(p));
    assert(process_line(p) =~= p.name + b);
    lemma_strip_start_concat(p.name, b);
    lemma_strip_start_head(p.name, false);
    let s1 = strip_start(process_line(p), false);
    assert(s1.len() > 0 && !is_ws(s1[0]) && s1[0] != '[');
    lemma_strip_end_head(s1);
}

proof fn lemma_process_line(p: ProcessModel)
    requires
        writable_process(p),
    ensures
        no_char(process_line(p), '\n'),
        process_line(p).last() != '\r',
        process_line(p).len() > 0,
        trim(process_line(p)).len() > 0,
        trim(process_line(p))[0] != '[',
        read_process(process_line(p)) == Some(p),
{
    lemma_process_fields(p);
    lemma_process_breaks(p);
    lemma_process_trim(p);
}

proof fn lemma_run_concat(st: ParserModel, a: Seq<Seq<char>>, b: Seq<Seq<char>>)
    ensures
        run(st, a + b) == match run(st, a) {
            Ok(s) => run(s, b),
            Err(e) => Err(e),
        },
    decreases a.len(),
{
    if a.len() == 0 {
        assert(a + b =~= b);
    } else {
        assert((a + b)[0] == a[0]);
        assert((a + b).skip(1) =~= a.skip(1) + b);
        match step(st, a[0]) {
            Ok(s) => {
                lemma_run_concat(s, a.skip(1), b);
            },
            Err(_) => {},
        }
    }
}

proof fn lemma_run_single(st: ParserModel, l: Seq<char>)
    ensures
        run(st, seq![l]) == step(st, l),
{
    assert(seq![l].skip(1) =~= Seq::<Seq<char>>::empty());
    assert(seq![l][0] == l);
    match step(st, l) {
        Ok(n) => {
            assert(run(n, Seq::<Seq<char>>::empty()) == Ok::<
                ParserModel,
                (crate::protocol::ParseErrorKind, Seq<char>),
            >(n));
        },
        Err(_) => {},
    }
}

proof fn lemma_insert_writable(t: Seq<ProcessModel>, x: ProcessModel)
    requires
        forall|i: int| 0 <= i < t.len() ==> writable_process(#[trigger] t[i]),
        writable_process(x),
    ensures
        forall|i: int|
            0 <= i < insert_by_rss(t, x).len() ==> writable_process(
                #[trigger] insert_by_rss(t, x)[i],
            ),
    decreases t.len(),
{
    if t.len() > 0 && t.last().resident_memory > x.resident_memory {
        lemma_insert_writable(t.drop_last(), x);
        let s = insert_by_rss(t.drop_last(), x);
        assert forall|i: int| 0 <= i < s.push(t.last()).len() implies writable_process(
            #[trigger] s.push(t.last())[i],
        ) by {
            if i < s.len() {
                assert(s.push(t.last())[i] == s[i]);
            } else {
                assert(writable_process(t[t.len() - 1]));
            }
        }
    }
}

proof fn lemma_sort_writable(s: Seq<ProcessModel>)
    requires
        forall|i: int| 0 <= i < s.len() ==> writable_process(#[trigger] s[i]),
    ensures
        forall|i: int|
            0 <= i < sort_by_rss(s).len() ==> writable_process(#[trigger] sort_by_rss(s)[i]),
    decreases s.len(),
{
    if s.len() > 0 {
        lemma_sort_writable(s.drop_last());
        assert(writable_process(s[s.len() - 1]));
        lemma_insert_writable(sort_by_rss(s.drop_last()), s.last());
    }
}

proof fn lemma_lines_text(ps: Seq<ProcessModel>)
    requires
        forall|i: int| 0 <= i < ps.len() ==> writable_process(#[trigger] ps[i]),
    ensures
        lines_of(lines_text(ps)) == process_lines(ps),
        ends_line(lines_text(ps)),
    decreases ps.len(),
{
    if ps.len() > 0 {
        let prev = ps.drop_last();
        lemma_lines_text(prev);
        let l = process_line(ps.last());
        assert(writable_process(ps[ps.len() - 1]));
        lemma_process_line(ps.last());
        lemma_line_alone(l);
        assert(lines_text(ps) =~= lines_text(prev) + (l + seq!['\n']));
        lemma_lines_concat(lines_text(prev), l + seq!['\n']);
        assert(lines_of(lines_text(ps)) =~= process_lines(ps));
    } else {
        assert(lines_of(lines_text(ps)) =~= process_lines(ps));
    }
}

proof fn lemma_record_text(r: RecordModel)
    requires
        writable_record(r),
    ensures
        lines_of(record_text(r)) == record_lines(r),
        record_text(r).len() > 0,
        record_text(r).last() == '\n',
{
    let sorted = sort_by_rss(r.processes);
    lemma_sort_writable(r.processes);
    lemma_lines_text(sorted);
    let sl = stamp_line(r.timestamp);
    let t = rfc3339_text(r.timestamp.0, r.timestamp.1);
    assert forall|i: int| 0 <= i < sl.len() implies sl[i] != '\n' by {
        if 0 < i < sl.len() - 1 {
            assert(sl[i] == t[i - 1]);
            assert(is_stamp_char(t[i - 1]));
        }
    }
    assert(sl.last() == ']');
    lemma_line_alone(sl);
    let head = sl + seq!['\n'];
    assert(record_text(r) =~= head + lines_text(sorted));
    lemma_lines_concat(head, lines_text(sorted));
    assert(lines_of(record_text(r)) =~= record_lines(r));
    let body = lines_text(sorted);
    if body.len() > 0 {
        assert(record_text(r).last() == body.last());
    }
}

proof fn lemma_history_text(rs: Seq<RecordModel>)
    requires
        forall|i: int| 0 <= i < rs.len() ==> writable_record(#[trigger] rs[i]),
    ensures
        lines_of(history_text(rs)) == history_lines(rs),
        ends_line(history_text(rs)),
    decreases rs.len(),
{
    if rs.len() == 0 {
        assert(lines_of(history_text(rs)) =~= history_lines(rs));
    } else {
        let prev = rs.drop_last();
        assert forall|i: int| 0 <= i < prev.len() implies writable_record(#[trigger] prev[i]) by {
            assert(prev[i] == rs[i]);
        }
        lemma_history_text(prev);
        assert(writable_record(rs[rs.len() - 1]));
        lemma_record_text(rs.last());
        let h = history_text(prev);
        let rt = record_text(rs.last());
        lemma_lines_concat(h, rt);
        assert((h + rt).last() == rt.last());
        lemma_line_alone(Seq::<char>::empty());
        assert(Seq::<char>::empty() + seq!['\n'] =~= seq!['\n']);
        lemma_lines_concat(h + rt, seq!['\n']);
        assert(lines_of(history_text(rs)) =~= history_lines(rs));
    }
}

proof fn lemma_stamp_step(st: ParserModel, r: RecordModel)
    requires
        stamp_reads_back(r.timestamp),
    ensures
        step(st, stamp_line(r.timestamp)) == Ok::<ParserModel, (crate::protocol::ParseErrorKind, Seq<char>)>(
            ParserModel {
                records: flushed(st),
                current: Some(RecordModel { timestamp: r.timestamp, processes: Seq::empty() }),
            },
        ),
{
    let t = rfc3339_text(r.timestamp.0, r.timestamp.1);
    let l = stamp_line(r.timestamp);
    assert(l[0] == '[');
    assert(l.last() == ']');
    assert(strip_start(l, false) == l);
    assert(strip_end(l, false) == l);
    assert(trim(l) == l);
    assert(l.skip(1) =~= t + seq![']']);
    assert(is_stamp_char(t[0]));
    assert((t + seq![']'])[0] == t[0]);
    assert(strip_start(l, true) == strip_start(t + seq![']'], true));
    assert(strip_start(t + seq![']'], true) == t + seq![']']);
    assert((t + seq![']']).drop_last() =~= t);
    assert(is_stamp_char(t[t.len() - 1]));
    assert(strip_end(t + seq![']'], true) == strip_end(t, true));
    assert(strip_end(t, true) == t);
    assert(stamp_content(l) == t);
}

proof fn lemma_process_lines_run(st: ParserModel, ps: Seq<ProcessModel>)
    requires
        st.current is Some,
        forall|i: int| 0 <= i < ps.len() ==> writable_process(#[trigger] ps[i]),
    ensures
        run(st, process_lines(ps)) == Ok::<ParserModel, (crate::protocol::ParseErrorKind, Seq<char>)>(
            ParserModel {
                records: st.records,
                current: Some(
                    RecordModel {
                        timestamp: st.current->0.timestamp,
                        processes: st.current->0.processes + ps,
                    },
                ),
            },
        ),
    decreases ps.len(),
{
    if ps.len() == 0 {
        assert(st.current->0.processes + ps =~= st.current->0.processes);
    } else {
        let prev = ps.drop_last();
        lemma_process_lines_run(st, prev);
        let mid = ParserModel {
            records: st.records,
            current: Some(
                RecordModel {
                    timestamp: st.current->0.timestamp,
                    processes: st.current->0.processes + prev,
                },
            ),
        };
        let l = process_line(ps.last());
        assert(writable_process(ps[ps.len() - 1]));
        lemma_process_line(ps.last());
        lemma_run_concat(st, process_lines(prev), seq![l]);
        assert(process_lines(ps) == process_lines(prev) + seq![l]);
        lemma_run_single(mid, l);
        assert((st.current->0.processes + prev).push(ps.last()) =~= st.current->0.processes + ps);
        assert(step(mid, l) == process_step(mid, l));
    }
}

proof fn lemma_record_run(st: ParserModel, r: RecordModel)
    requires
        writable_record(r),
    ensures
        run(st, record_lines(r)) == Ok::<ParserModel, (crate::protocol::ParseErrorKind, Seq<char>)>(
            ParserModel { records: flushed(st), current: Some(normalized(r)) },
        ),
{
    let sl = stamp_line(r.timestamp);
    lemma_stamp_step(st, r);
    let opened = ParserModel {
        records: flushed(st),
        current: Some(RecordModel { timestamp: r.timestamp, processes: Seq::empty() }),
    };
    lemma_run_concat(st, seq![sl], process_lines(sort_by_rss(r.processes)));
    lemma_run_single(st, sl);
    lemma_sort_writable(r.processes);
    lemma_process_lines_run(opened, sort_by_rss(r.processes));
    assert(Seq::<ProcessModel>::empty() + sort_by_rss(r.processes) =~= sort_by_rss(r.processes));
}

proof fn lemma_history_run(st: ParserModel, rs: Seq<RecordModel>)
    requires
        forall|i: int| 0 <= i < rs.len() ==> writable_record(#[trigger] rs[i]),
    ensures
        run(st, history_lines(rs)) is Ok,
        flushed(run(st, history_lines(rs))->Ok_0) == flushed(st) + rs.map_values(
            |r: RecordModel| normalized(r),
        ),
    decreases rs.len(),
{
    if rs.len() == 0 {
        assert(rs.map_values(|r: RecordModel| normalized(r)) =~= Seq::<RecordModel>::empty());
        assert(flushed(st) + Seq::<RecordModel>::empty() =~= flushed(st));
    } else {
        let prev = rs.drop_last();
        let r = rs.last();
        assert forall|i: int| 0 <= i < prev.len() implies writable_record(#[trigger] prev[i]) by {
            assert(prev[i] == rs[i]);
        }
        assert(writable_record(rs[rs.len() - 1]));
        lemma_history_run(st, prev);
        let s1 = run(st, history_lines(prev))->Ok_0;
        lemma_record_run(s1, r);
        let s2 = ParserModel { records: flushed(s1), current: Some(normalized(r)) };
        lemma_run_concat(st, history_lines(prev), record_lines(r));
        lemma_run_concat(st, history_lines(prev) + record_lines(r), seq![Seq::<char>::empty()]);
        lemma_run_single(s2, Seq::<char>::empty());
        assert(trim(Seq::<char>::empty()).len() == 0);
        assert(rs.map_values(|r: RecordModel| normalized(r)) =~= prev.map_values(
            |r: RecordModel| normalized(r),
        ).push(normalized(r)));
        assert(flushed(s2) =~= flushed(st) + rs.map_values(|r: RecordModel| normalized(r)));
    }
}

/// Reading back the text of a history gives its records, each with its
/// snapshots in the order they are written (ascending by resident memory,
/// ties kept in order), for every history whose records can be written:
/// free-text fields without commas or line feeds, no name that opens with
/// `[`, and timestamps whose text chrono reads back as the same instant.
pub proof fn lemma_round_trip(rs: Seq<RecordModel>)
    requires
        forall|i: int| 0 <= i < rs.len() ==> writable_record(#[trigger] rs[i]),
    ensures
        parse_text(history_text(rs)) == Ok::<
            Seq<RecordModel>,
            (crate::protocol::ParseErrorKind, Seq<char>),
        >(rs.map_values(|r: RecordModel| normalized(r))),
{
    lemma_history_text(rs);
    lemma_history_run(initial_state(), rs);
    assert(flushed(initial_state()) =~= Seq::<RecordModel>::empty());
    assert(Seq::<RecordModel>::empty() + rs.map_values(|r: RecordModel| normalized(r)) =~= rs.map_values(
        |r: RecordModel| normalized(r),
    ));
}

}
