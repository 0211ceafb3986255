//! Aggregate statistics over parsed log entries.

use vstd::prelude::*;
use crate::datetime::DateTime;
use crate::log_level::LogLevel;
use crate::parser::LogEntry;
use crate::text::same_text;
use crate::tally::{
    count, distinct_in_order, first_max, first_max_index, first_min, first_min_index,
    lemma_count_bound, lemma_distinct_unique, lemma_first_max_index, lemma_first_max_index_step,
    lemma_first_min_index, lemma_first_min_index_step, lemma_tally_step, tally, count_in,
    lemma_count_in_tally, lemma_count_pair_bound, lemma_count_in_at, lemma_tally_sum, sum_counts,
    lemma_distinct_in,
};

verus! {

/// Counts, busiest component and hour, and the time span of a set of entries.
///
/// Each count list holds the keys that occur, in order of first appearance,
/// with their numbers of occurrences.
#[derive(Debug)]
pub struct Statistics {
    pub total_entries: usize,
    pub entries_by_level: Vec<(LogLevel, usize)>,
    pub entries_by_component: Vec<(String, usize)>,
    pub entries_by_hour: Vec<(u8, usize)>,
    pub error_count: usize,
    pub most_active_component: Option<String>,
    pub peak_hour: Option<u8>,
    pub first_entry: Option<DateTime>,
    pub last_entry: Option<DateTime>,
}

/// The levels of the entries, in order.
pub open spec fn level_keys(es: Seq<LogEntry>) -> Seq<LogLevel> {
    es.map_values(|e: LogEntry| e.level)
}

/// The components of the entries, in order.
pub open spec fn component_keys(es: Seq<LogEntry>) -> Seq<Seq<char>> {
    es.map_values(|e: LogEntry| e.component@)
}

/// The hours of the entries' timestamps, in order.
pub open spec fn hour_keys(es: Seq<LogEntry>) -> Seq<u8> {
    es.map_values(|e: LogEntry| e.timestamp.hour)
}

/// The entries' timestamps, each with its ordering key.
pub open spec fn stamps(es: Seq<LogEntry>) -> Seq<(DateTime, nat)> {
    es.map_values(|e: LogEntry| (e.timestamp, e.timestamp.seconds()))
}

/// A count list as keys with numbers.
pub open spec fn level_counts_view(v: Seq<(LogLevel, usize)>) -> Seq<(LogLevel, nat)> {
    v.map_values(|p: (LogLevel, usize)| (p.0, p.1 as nat))
}

/// A count list as keys with numbers.
pub open spec fn component_counts_view(v: Seq<(String, usize)>) -> Seq<(Seq<char>, nat)> {
    v.map_values(|p: (String, usize)| (p.0@, p.1 as nat))
}

/// A count list as keys with numbers.
pub open spec fn hour_counts_view(v: Seq<(u8, usize)>) -> Seq<(u8, nat)> {
    v.map_values(|p: (u8, usize)| (p.0, p.1 as nat))
}

/// An optional string as an optional text.
pub open spec fn opt_view(o: Option<String>) -> Option<Seq<char>> {
    match o {
        Some(s) => Some(s@),
        None => None,
    }
}

/// The statistics `st` are those of the entries `es`.
pub open spec fn describes(st: Statistics, es: Seq<LogEntry>) -> bool {
    &&& st.total_entries == es.len()
    &&& level_counts_view(st.entries_by_level@) == tally(level_keys(es))
    &&& component_counts_view(st.entries_by_component@) == tally(component_keys(es))
    &&& hour_counts_view(st.entries_by_hour@) == tally(hour_keys(es))
    &&& st.error_count == count(level_keys(es), LogLevel::Error) + count(
        level_keys(es),
        LogLevel::Fatal,
    )
    &&& opt_view(st.most_active_component) == first_max(tally(component_keys(es)))
    &&& st.peak_hour == first_max(tally(hour_keys(es)))
    &&& st.first_entry == first_min(stamps(es))
    &&& st.last_entry == first_max(stamps(es))
}

/// Law: the statistics of a set of entries agree with themselves: every count
/// list adds up to the number of entries, errors are no more than entries, the
/// earliest timestamp is no later than the latest (and both exist exactly when
/// there are entries), and no hour or component outnumbers the peak hour or
/// the most active component.
pub proof fn lemma_statistics_consistent(st: Statistics, es: Seq<LogEntry>)
    requires
        describes(st, es),
    ensures
        sum_counts(level_counts_view(st.entries_by_level@)) == st.total_entries,
        sum_counts(component_counts_view(st.entries_by_component@)) == st.total_entries,
        sum_counts(hour_counts_view(st.entries_by_hour@)) == st.total_entries,
        st.error_count <= st.total_entries,
        st.first_entry is Some <==> st.total_entries > 0,
        st.last_entry is Some <==> st.total_entries > 0,
        st.peak_hour is Some <==> st.total_entries > 0,
        st.most_active_component is Some <==> st.total_entries > 0,
        st.first_entry matches Some(f) ==> st.last_entry matches Some(l) && f.seconds()
            <= l.seconds(),
        forall|i: int|
            0 <= i < es.len() ==> st.first_entry->0.seconds() <= (#[trigger] es[i]).timestamp.seconds()
                <= st.last_entry->0.seconds(),
        st.peak_hour matches Some(h) ==> forall|i: int|
            0 <= i < st.entries_by_hour.len() ==> (#[trigger] st.entries_by_hour@[i]).1 <= count_in(
                hour_counts_view(st.entries_by_hour@),
                h,
            ),
        st.most_active_component matches Some(c) ==> forall|i: int|
            0 <= i < st.entries_by_component.len() ==> (#[trigger] st.entries_by_component@[i]).1
                <= count_in(component_counts_view(st.entries_by_component@), c@),
{
    lemma_tally_sum(level_keys(es));
    lemma_tally_sum(component_keys(es));
    lemma_tally_sum(hour_keys(es));
    lemma_count_pair_bound(level_keys(es), LogLevel::Error, LogLevel::Fatal);
    let ts = stamps(es);
    let th = tally(hour_keys(es));
    let tc = tally(component_keys(es));
    lemma_tally_len(hour_keys(es));
    lemma_tally_len(component_keys(es));
    if es.len() > 0 {
        lemma_first_min_index(ts);
        lemma_first_max_index(ts);
        assert forall|i: int| 0 <= i < es.len() implies st.first_entry->0.seconds() <= (
        #[trigger] es[i]).timestamp.seconds() <= st.last_entry->0.seconds() by {
            assert(ts[i].1 == es[i].timestamp.seconds());
        }
        lemma_first_max_index(th);
        lemma_first_max_index(tc);
        let jh = first_max_index(th);
        let jc = first_max_index(tc);
        lemma_count_in_tally(hour_keys(es), th[jh].0);
        lemma_count_in_tally(component_keys(es), tc[jc].0);
        lemma_tally_entry(hour_keys(es), jh);
        lemma_tally_entry(component_keys(es), jc);
        assert forall|i: int| 0 <= i < st.entries_by_hour.len() implies (
        #[trigger] st.entries_by_hour@[i]).1 <= count_in(
            hour_counts_view(st.entries_by_hour@),
            st.peak_hour->0,
        ) by {
            assert(th[i].1 == st.entries_by_hour@[i].1);
        }
        assert forall|i: int| 0 <= i < st.entries_by_component.len() implies (
        #[trigger] st.entries_by_component@[i]).1 <= count_in(
            component_counts_view(st.entries_by_component@),
            st.most_active_component->0@,
        ) by {
            assert(tc[i].1 == st.entries_by_component@[i].1);
        }
    }
}

/// The keys of a count list are pairwise distinct.
pub open spec fn keys_distinct<K>(t: Seq<(K, nat)>) -> bool {
    forall|a: int, b: int| 0 <= a < b < t.len() ==> (#[trigger] t[a]).0 != (#[trigger] t[b]).0
}

/// The keys of a tally are pairwise distinct.
proof fn lemma_tally_keys_distinct<K>(s: Seq<K>)
    ensures
        keys_distinct(tally(s)),
{
    lemma_distinct_unique(s);
    let t = tally(s);
    assert forall|a: int, b: int| 0 <= a < b < t.len() implies (#[trigger] t[a]).0 != (
    #[trigger] t[b]).0 by {
        assert(t[a].0 == distinct_in_order(s)[a]);
        assert(t[b].0 == distinct_in_order(s)[b]);
    }
}

/// Law: each count list of the statistics of a set of entries names every
/// key once.
pub proof fn lemma_statistics_keys_distinct(st: Statistics, es: Seq<LogEntry>)
    requires
        describes(st, es),
    ensures
        st.well_formed(),
        keys_distinct(level_counts_view(st.entries_by_level@)),
        keys_distinct(component_counts_view(st.entries_by_component@)),
        keys_distinct(hour_counts_view(st.entries_by_hour@)),
{
    lemma_tally_keys_distinct(level_keys(es));
    lemma_tally_keys_distinct(component_keys(es));
    lemma_tally_keys_distinct(hour_keys(es));
}

/// The entries whose timestamp has hour `h`.
pub open spec fn entries_in_hour(es: Seq<LogEntry>, h: u8) -> Seq<LogEntry> {
    es.filter(|e: LogEntry| e.timestamp.hour == h)
}

/// The entries at level `l`.
pub open spec fn entries_at_level(es: Seq<LogEntry>, l: LogLevel) -> Seq<LogEntry> {
    es.filter(|e: LogEntry| e.level == l)
}

/// The entries of component `c`.
pub open spec fn entries_of_component(es: Seq<LogEntry>, c: Seq<char>) -> Seq<LogEntry> {
    es.filter(|e: LogEntry| e.component@ == c)
}

/// The entries at level `Error` or `Fatal`.
pub open spec fn error_entries(es: Seq<LogEntry>) -> Seq<LogEntry> {
    es.filter(|e: LogEntry| e.level == LogLevel::Error || e.level == LogLevel::Fatal)
}

proof fn lemma_hour_count(es: Seq<LogEntry>, h: u8)
    ensures
        count(hour_keys(es), h) == entries_in_hour(es, h).len(),
    decreases es.len(),
{
    reveal(Seq::filter);
    if es.len() > 0 {
        lemma_hour_count(es.drop_last(), h);
        assert(hour_keys(es).drop_last() =~= hour_keys(es.drop_last()));
    }
}

proof fn lemma_level_count(es: Seq<LogEntry>, l: LogLevel)
    ensures
        count(level_keys(es), l) == entries_at_level(es, l).len(),
    decreases es.len(),
{
    reveal(Seq::filter);
    if es.len() > 0 {
        lemma_level_count(es.drop_last(), l);
        assert(level_keys(es).drop_last() =~= level_keys(es.drop_last()));
    }
}

proof fn lemma_component_count(es: Seq<LogEntry>, c: Seq<char>)
    ensures
        count(component_keys(es), c) == entries_of_component(es, c).len(),
    decreases es.len(),
{
    reveal(Seq::filter);
    if es.len() > 0 {
        lemma_component_count(es.drop_last(), c);
        assert(component_keys(es).drop_last() =~= component_keys(es.drop_last()));
    }
}

proof fn lemma_error_count(es: Seq<LogEntry>)
    ensures
        count(level_keys(es), LogLevel::Error) + count(level_keys(es), LogLevel::Fatal)
            == error_entries(es).len(),
    decreases es.len(),
{
    reveal(Seq::filter);
    if es.len() > 0 {
        lemma_error_count(es.drop_last());
        assert(level_keys(es).drop_last() =~= level_keys(es.drop_last()));
    }
}

/// Law: the statistics count real entries. Each count list gives, for each
/// of its keys, the number of entries with that key; the error count is the
/// number of entries at `Error` or `Fatal`; and the first and last
/// timestamps, the peak hour and the most active component are those of
/// some entry.
pub proof fn lemma_statistics_count_entries(st: Statistics, es: Seq<LogEntry>)
    requires
        describes(st, es),
    ensures
        forall|i: int|
            0 <= i < st.entries_by_level.len() ==> (#[trigger] st.entries_by_level@[i]).1
                == entries_at_level(es, st.entries_by_level@[i].0).len(),
        forall|i: int|
            0 <= i < st.entries_by_component.len() ==> (#[trigger] st.entries_by_component@[i]).1
                == entries_of_component(es, st.entries_by_component@[i].0@).len(),
        forall|i: int|
            0 <= i < st.entries_by_hour.len() ==> (#[trigger] st.entries_by_hour@[i]).1
                == entries_in_hour(es, st.entries_by_hour@[i].0).len(),
        st.error_count == error_entries(es).len(),
        st.first_entry matches Some(f) ==> exists|i: int|
            0 <= i < es.len() && (#[trigger] es[i]).timestamp == f,
        st.last_entry matches Some(l) ==> exists|i: int|
            0 <= i < es.len() && (#[trigger] es[i]).timestamp == l,
        st.peak_hour matches Some(h) ==> exists|i: int|
            0 <= i < es.len() && (#[trigger] es[i]).timestamp.hour == h,
        st.most_active_component matches Some(c) ==> exists|i: int|
            0 <= i < es.len() && (#[trigger] es[i]).component@ == c@,
{
    let tl = tally(level_keys(es));
    let tc = tally(component_keys(es));
    let th = tally(hour_keys(es));
    assert forall|i: int| 0 <= i < st.entries_by_level.len() implies (
    #[trigger] st.entries_by_level@[i]).1 == entries_at_level(es, st.entries_by_level@[i].0).len() by {
        assert(tl[i] == (st.entries_by_level@[i].0, st.entries_by_level@[i].1 as nat));
        lemma_tally_entry(level_keys(es), i);
        lemma_level_count(es, st.entries_by_level@[i].0);
    }
    assert forall|i: int| 0 <= i < st.entries_by_component.len() implies (
    #[trigger] st.entries_by_component@[i]).1 == entries_of_component(
        es,
        st.entries_by_component@[i].0@,
    ).len() by {
        assert(tc[i] == (st.entries_by_component@[i].0@, st.entries_by_component@[i].1 as nat));
        lemma_tally_entry(component_keys(es), i);
        lemma_component_count(es, st.entries_by_component@[i].0@);
    }
    assert forall|i: int| 0 <= i < st.entries_by_hour.len() implies (
    #[trigger] st.entries_by_hour@[i]).1 == entries_in_hour(es, st.entries_by_hour@[i].0).len() by {
        assert(th[i] == (st.entries_by_hour@[i].0, st.entries_by_hour@[i].1 as nat));
        lemma_tally_entry(hour_keys(es), i);
        lemma_hour_count(es, st.entries_by_hour@[i].0);
    }
    lemma_error_count(es);
    let ts = stamps(es);
    if es.len() > 0 {
        lemma_first_min_index(ts);
        lemma_first_max_index(ts);
        let a = first_min_index(ts);
        let b = first_max_index(ts);
        assert(ts[a].0 == es[a].timestamp);
        assert(ts[b].0 == es[b].timestamp);
    }
    lemma_tally_len(hour_keys(es));
    lemma_tally_len(component_keys(es));
    if let Some(h) = st.peak_hour {
        lemma_first_max_index(th);
        let j = first_max_index(th);
        lemma_distinct_in(hour_keys(es));
        assert(th[j].0 == distinct_in_order(hour_keys(es))[j]);
        let i = choose|i: int| 0 <= i < hour_keys(es).len() && hour_keys(es)[i] == th[j].0;
        assert(es[i].timestamp.hour == h);
    }
    if let Some(c) = st.most_active_component {
        lemma_first_max_index(tc);
        let j = first_max_index(tc);
        lemma_distinct_in(component_keys(es));
        assert(tc[j].0 == distinct_in_order(component_keys(es))[j]);
        let i = choose|i: int| 0 <= i < component_keys(es).len() && component_keys(es)[i] == tc[j].0;
        assert(es[i].component@ == c@);
    }
}

/// A tally is empty exactly when nothing was counted.
proof fn lemma_tally_len<K>(s: Seq<K>)
    ensures
        tally(s).len() == 0 <==> s.len() == 0,
{
    lemma_tally_sum(s);
    if s.len() == 0 {
        assert(tally(s) =~= Seq::<(K, nat)>::empty());
    } else if tally(s).len() == 0 {
        assert(sum_counts(tally(s)) == 0);
    }
}

/// The entry of a tally at `j` records the count of its key.
proof fn lemma_tally_entry<K>(s: Seq<K>, j: int)
    requires
        0 <= j < tally(s).len(),
    ensures
        tally(s)[j].1 == count(s, tally(s)[j].0),
{
}

/// Counts the levels of the entries.
fn tally_levels(es: &[LogEntry]) -> (out: Vec<(LogLevel, usize)>)
    ensures
        level_counts_view(out@) == tally(level_keys(es@)),
{
    let ghost keys = level_keys(es@);
    let mut out: Vec<(LogLevel, usize)> = Vec::new();
    assert(keys.take(0) =~= Seq::<LogLevel>::empty());
    assert(level_counts_view(out@) =~= tally(keys.take(0)));
    let mut i: usize = 0;
    while i < es.len()
        invariant
            i <= es.len(),
            keys == level_keys(es@),
            level_counts_view(out@) == tally(keys.take(i as int)),
        decreases es.len() - i,
    {
        let k = es[i].level;
        assert(keys[i as int] == k);
        proof {
            lemma_tally_step(keys, i as int);
            lemma_distinct_unique(keys.take(i as int));
        }
        let ghost t = tally(keys.take(i as int));
        let ghost d = distinct_in_order(keys.take(i as int));
        let mut j: usize = 0;
        let mut found = false;
        while j < out.len()
            invariant_except_break
                !found,
            invariant
                j <= out.len(),
                level_counts_view(out@) == t,
                t.len() == d.len(),
                forall|m: int| 0 <= m < j ==> #[trigger] out@[m].0 != k,
            ensures
                j <= out.len(),
                level_counts_view(out@) == t,
                forall|m: int| 0 <= m < j ==> #[trigger] out@[m].0 != k,
                found ==> j < out.len() && out@[j as int].0 == k,
                !found ==> j == out.len(),
            decreases out.len() - j,
        {
            if out[j].0 == k {
                found = true;
                break;
            }
            j += 1;
        }
        if found {
            assert(t[j as int].0 == d[j as int]);
            proof {
                lemma_count_bound(keys.take(i as int), k);
            }
            let n = out[j].1;
            out.set(j, (k, n + 1));
            proof {
                let jj = choose|jj: int|
                    0 <= jj < d.len() && d[jj] == keys[i as int] && tally(keys.take(i + 1))
                        == t.update(jj, (keys[i as int], t[jj].1 + 1));
                assert(jj == j);
                assert(level_counts_view(out@) =~= tally(keys.take(i + 1)));
            }
        } else {
            proof {
                assert forall|m: int| 0 <= m < d.len() implies d[m] != k by {
                    assert(t[m].0 == d[m]);
                    assert(out@[m].0 != k);
                }
            }
            out.push((k, 1));
            assert(level_counts_view(out@) =~= tally(keys.take(i + 1)));
        }
        i += 1;
    }
    assert(keys.take(es.len() as int) =~= keys);
    out
}

/// Counts the components of the entries.
fn tally_components(es: &[LogEntry]) -> (out: Vec<(String, usize)>)
    ensures
        component_counts_view(out@) == tally(component_keys(es@)),
{
    let ghost keys = component_keys(es@);
    let mut out: Vec<(String, usize)> = Vec::new();
    assert(keys.take(0) =~= Seq::<Seq<char>>::empty());
    assert(component_counts_view(out@) =~= tally(keys.take(0)));
    let mut i: usize = 0;
    while i < es.len()
        invariant
            i <= es.len(),
            keys == component_keys(es@),
            component_counts_view(out@) == tally(keys.take(i as int)),
        decreases es.len() - i,
    {
        let k = &es[i].component;
        assert(keys[i as int] == k@);
        proof {
            lemma_tally_step(keys, i as int);
            lemma_distinct_unique(keys.take(i as int));
        }
        let ghost t = tally(keys.take(i as int));
        let ghost d = distinct_in_order(keys.take(i as int));
        let mut j: usize = 0;
        let mut found = false;
        while j < out.len()
            invariant_except_break
                !found,
            invariant
                j <= out.len(),
                component_counts_view(out@) == t,
                t.len() == d.len(),
                forall|m: int| 0 <= m < j ==> #[trigger] out@[m].0@ != k@,
            ensures
                j <= out.len(),
                component_counts_view(out@) == t,
                forall|m: int| 0 <= m < j ==> #[trigger] out@[m].0@ != k@,
                found ==> j < out.len() && out@[j as int].0@ == k@,
                !found ==> j == out.len(),
            decreases out.len() - j,
        {
            if out[j].0 == *k {
                found = true;
                break;
            }
            j += 1;
        }
        if found {
            assert(t[j as int].0 == d[j as int]);
            proof {
                lemma_count_bound(keys.take(i as int), k@);
            }
            let n = out[j].1;
            out.set(j, (k.clone(), n + 1));
            proof {
                let jj = choose|jj: int|
                    0 <= jj < d.len() && d[jj] == keys[i as int] && tally(keys.take(i + 1))
                        == t.update(jj, (keys[i as int], t[jj].1 + 1));
                assert(jj == j);
                assert(component_counts_view(out@) =~= tally(keys.take(i + 1)));
            }
        } else {
            proof {
                assert forall|m: int| 0 <= m < d.len() implies d[m] != k@ by {
                    assert(t[m].0 == d[m]);
                    assert(out@[m].0@ != k@);
                }
            }
            out.push((k.clone(), 1));
            assert(component_counts_view(out@) =~= tally(keys.take(i + 1)));
        }
        i += 1;
    }
    assert(keys.take(es.len() as int) =~= keys);
    out
}

/// Counts the hours of the entries' timestamps.
fn tally_hours(es: &[LogEntry]) -> (out: Vec<(u8, usize)>)
    ensures
        hour_counts_view(out@) == tally(hour_keys(es@)),
{
    let ghost keys = hour_keys(es@);
    let mut out: Vec<(u8, usize)> = Vec::new();
    assert(keys.take(0) =~= Seq::<u8>::empty());
    assert(hour_counts_view(out@) =~= tally(keys.take(0)));
    let mut i: usize = 0;
    while i < es.len()
        invariant
            i <= es.len(),
            keys == hour_keys(es@),
            hour_counts_view(out@) == tally(keys.take(i as int)),
        decreases es.len() - i,
    {
        let k = es[i].timestamp.hour;
        assert(keys[i as int] == k);
        proof {
            lemma_tally_step(keys, i as int);
            lemma_distinct_unique(keys.take(i as int));
        }
        let ghost t = tally(keys.take(i as int));
        let ghost d = distinct_in_order(keys.take(i as int));
        let mut j: usize = 0;
        let mut found = false;
        while j < out.len()
            invariant_except_break
                !found,
            invariant
                j <= out.len(),
                hour_counts_view(out@) == t,
                t.len() == d.len(),
                forall|m: int| 0 <= m < j ==> #[trigger] out@[m].0 != k,
            ensures
                j <= out.len(),
                hour_counts_view(out@) == t,
                forall|m: int| 0 <= m < j ==> #[trigger] out@[m].0 != k,
                found ==> j < out.len() && out@[j as int].0 == k,
                !found ==> j == out.len(),
            decreases out.len() - j,
        {
            if out[j].0 == k {
                found = true;
                break;
            }
            j += 1;
        }
        if found {
            assert(t[j as int].0 == d[j as int]);
            proof {
                lemma_count_bound(keys.take(i as int), k);
            }
            let n = out[j].1;
            out.set(j, (k, n + 1));
            proof {
                let jj = choose|jj: int|
                    0 <= jj < d.len() && d[jj] == keys[i as int] && tally(keys.take(i + 1))
                        == t.update(jj, (keys[i as int], t[jj].1 + 1));
                assert(jj == j);
                assert(hour_counts_view(out@) =~= tally(keys.take(i + 1)));
            }
        } else {
            proof {
                assert forall|m: int| 0 <= m < d.len() implies d[m] != k by {
                    assert(t[m].0 == d[m]);
                    assert(out@[m].0 != k);
                }
            }
            out.push((k, 1));
            assert(hour_counts_view(out@) =~= tally(keys.take(i + 1)));
        }
        i += 1;
    }
    assert(keys.take(es.len() as int) =~= keys);
    out
}

/// A count list with its counts as numbers.
spec fn pair_counts<K>(v: Seq<(K, usize)>) -> Seq<(K, nat)> {
    v.map_values(|p: (K, usize)| (p.0, p.1 as nat))
}

/// Where the first largest count stands depends on the counts alone.
proof fn lemma_first_max_index_counts<A, B>(t1: Seq<(A, nat)>, t2: Seq<(B, nat)>)
    requires
        t1.len() == t2.len(),
        forall|i: int| 0 <= i < t1.len() ==> (#[trigger] t1[i]).1 == (#[trigger] t2[i]).1,
    ensures
        first_max_index(t1) == first_max_index(t2),
    decreases t1.len(),
{
    if t1.len() > 1 {
        let p1 = t1.drop_last();
        let p2 = t2.drop_last();
        assert forall|i: int| 0 <= i < p1.len() implies (#[trigger] p1[i]).1 == (#[trigger] p2[i]).1 by {
            assert(p1[i] == t1[i] && p2[i] == t2[i]);
        }
        lemma_first_max_index_counts(p1, p2);
        lemma_first_max_index(p1);
    }
}

/// The position of the first largest count of a non-empty count list.
fn first_max_position<K>(v: &Vec<(K, usize)>) -> (j: usize)
    requires
        v.len() > 0,
    ensures
        j < v.len(),
        j == first_max_index(pair_counts(v@)),
{
    let ghost t = pair_counts(v@);
    let mut best: usize = 0;
    let mut i: usize = 1;
    assert(t.take(1).len() == 1);
    while i < v.len()
        invariant
            1 <= i <= v.len(),
            t == pair_counts(v@),
            best < i,
            best == first_max_index(t.take(i as int)),
        decreases v.len() - i,
    {
        proof {
            lemma_first_max_index_step(t, i as int);
        }
        if v[i].1 > v[best].1 {
            best = i;
        }
        i += 1;
    }
    assert(t.take(v.len() as int) =~= t);
    best
}

/// The first component with the largest count.
fn busiest_component(v: &Vec<(String, usize)>) -> (r: Option<String>)
    ensures
        opt_view(r) == first_max(component_counts_view(v@)),
{
    if v.len() == 0 {
        return None;
    }
    let j = first_max_position(v);
    proof {
        lemma_first_max_index_counts(pair_counts(v@), component_counts_view(v@));
    }
    Some(v[j].0.clone())
}

/// The first hour with the largest count.
fn busiest_hour(v: &Vec<(u8, usize)>) -> (r: Option<u8>)
    ensures
        r == first_max(hour_counts_view(v@)),
{
    if v.len() == 0 {
        return None;
    }
    let j = first_max_position(v);
    assert(pair_counts(v@) =~= hour_counts_view(v@));
    Some(v[j].0)
}

/// The timestamps of the first earliest and the first latest entry.
fn time_span(es: &[LogEntry]) -> (r: (Option<DateTime>, Option<DateTime>))
    ensures
        r.0 == first_min(stamps(es@)),
        r.1 == first_max(stamps(es@)),
{
    let ghost t = stamps(es@);
    if es.len() == 0 {
        return (None, None);
    }
    let mut lo: usize = 0;
    let mut hi: usize = 0;
    let mut i: usize = 1;
    assert(t.take(1).len() == 1);
    while i < es.len()
        invariant
            1 <= i <= es.len(),
            t == stamps(es@),
            lo < i,
            hi < i,
            lo == first_min_index(t.take(i as int)),
            hi == first_max_index(t.take(i as int)),
        decreases es.len() - i,
    {
        proof {
            lemma_first_min_index_step(t, i as int);
            lemma_first_max_index_step(t, i as int);
        }
        let s = es[i].timestamp.to_seconds();
        if s < es[lo].timestamp.to_seconds() {
            lo = i;
        }
        if s > es[hi].timestamp.to_seconds() {
            hi = i;
        }
        i += 1;
    }
    assert(t.take(es.len() as int) =~= t);
    (Some(es[lo].timestamp), Some(es[hi].timestamp))
}

impl Statistics {
    /// Each count list names every key once, as a map from keys to counts
    /// would.
    pub open spec fn well_formed(self) -> bool {
        &&& keys_distinct(level_counts_view(self.entries_by_level@))
        &&& keys_distinct(component_counts_view(self.entries_by_component@))
        &&& keys_distinct(hour_counts_view(self.entries_by_hour@))
    }

    /// Aggregates the entries: counts per level, component and hour, the
    /// error count (`Error` and `Fatal`), the first busiest component and
    /// hour, and the first earliest and first latest timestamps.
    pub fn from_entries(entries: &[LogEntry]) -> (st: Statistics)
        ensures
            describes(st, entries@),
            st.well_formed(),
    {
        let entries_by_level = tally_levels(entries);
        let entries_by_component = tally_components(entries);
        let entries_by_hour = tally_hours(entries);
        let (first_entry, last_entry) = time_span(entries);
        let errors = lookup_level(&entries_by_level, LogLevel::Error);
        let fatals = lookup_level(&entries_by_level, LogLevel::Fatal);
        proof {
            lemma_count_in_tally(level_keys(entries@), LogLevel::Error);
            lemma_count_in_tally(level_keys(entries@), LogLevel::Fatal);
            lemma_count_pair_bound(level_keys(entries@), LogLevel::Error, LogLevel::Fatal);
        }
        let most_active_component = busiest_component(&entries_by_component);
        let peak_hour = busiest_hour(&entries_by_hour);
        proof {
            lemma_tally_keys_distinct(level_keys(entries@));
            lemma_tally_keys_distinct(component_keys(entries@));
            lemma_tally_keys_distinct(hour_keys(entries@));
        }
        Statistics {
            total_entries: entries.len(),
            entries_by_level,
            entries_by_component,
            entries_by_hour,
            error_count: errors + fatals,
            most_active_component,
            peak_hour,
            first_entry,
            last_entry,
        }
    }

    /// The number of entries at `level`.
    pub fn level_count(&self, level: LogLevel) -> (n: usize)
        ensures
            n == count_in(level_counts_view(self.entries_by_level@), level),
    {
        lookup_level(&self.entries_by_level, level)
    }

    /// The number of entries of `component`.
    pub fn component_count(&self, component: &str) -> (n: usize)
        ensures
            n == count_in(component_counts_view(self.entries_by_component@), component@),
    {
        let ghost t = component_counts_view(self.entries_by_component@);
        let v = &self.entries_by_component;
        assert(v@ == self.entries_by_component@);
        let mut j: usize = 0;
        while j < v.len()
            invariant
                j <= v.len(),
                t == component_counts_view(v@),
                v@ == self.entries_by_component@,
                forall|m: int| 0 <= m < j ==> (#[trigger] t[m]).0 != component@,
            decreases v.len() - j,
        {
            assert(t[j as int].0 == v@[j as int].0@);
            if same_text(v[j].0.as_str(), component) {
                proof {
                    lemma_count_in_at(t, j as int, component@);
                }
                assert(t[j as int].1 == v@[j as int].1);
                return v[j].1;
            }
            j += 1;
        }
        proof {
            lemma_count_in_at(t, j as int, component@);
        }
        0
    }

    /// The number of entries whose timestamp has hour `hour`.
    pub fn hour_count(&self, hour: u8) -> (n: usize)
        ensures
            n == count_in(hour_counts_view(self.entries_by_hour@), hour),
    {
        let ghost t = hour_counts_view(self.entries_by_hour@);
        let v = &self.entries_by_hour;
        assert(v@ == self.entries_by_hour@);
        let mut j: usize = 0;
        while j < v.len()
            invariant
                j <= v.len(),
                t == hour_counts_view(v@),
                v@ == self.entries_by_hour@,
                forall|m: int| 0 <= m < j ==> (#[trigger] t[m]).0 != hour,
            decreases v.len() - j,
        {
            if v[j].0 == hour {
                proof {
                    lemma_count_in_at(t, j as int, hour);
                }
                assert(t[j as int].1 == v@[j as int].1);
                return v[j].1;
            }
            j += 1;
        }
        proof {
            lemma_count_in_at(t, j as int, hour);
        }
        0
    }
}

/// The count recorded for `level`.
fn lookup_level(v: &Vec<(LogLevel, usize)>, level: LogLevel) -> (n: usize)
    ensures
        n == count_in(level_counts_view(v@), level),
{
    let ghost t = level_counts_view(v@);
    let mut j: usize = 0;
    while j < v.len()
        invariant
            j <= v.len(),
            t == level_counts_view(v@),
            forall|m: int| 0 <= m < j ==> (#[trigger] t[m]).0 != level,
        decreases v.len() - j,
    {
        if v[j].0 == level {
            proof {
                lemma_count_in_at(t, j as int, level);
            }
            return v[j].1;
        }
        j += 1;
    }
    proof {
        lemma_count_in_at(t, j as int, level);
    }
    0
}

} // verus!
