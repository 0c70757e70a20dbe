//! The per-tick and per-region tables that the exporters write for a
//! player sequence.
use vstd::prelude::*;
use crate::features::{feature_name, FeatureSet};
use crate::sequence::{ActiveRegion, PlayerSequence, RegionEndReason};

verus! {

/// The region resolves to indices and its index range (cut at `n`) holds `i`.
pub open spec fn region_holds_index(r: ActiveRegion, n: int, i: int) -> bool {
    &&& r.start_idx matches Some(s)
    &&& r.end_idx matches Some(e)
    &&& s <= i < e
    &&& i < n
}

/// The last of the first `upto` regions whose index range holds tick `i`.
pub open spec fn region_of_tick(rs: Seq<ActiveRegion>, n: int, i: int, upto: int) -> Option<int>
    decreases upto,
{
    if upto <= 0 {
        None
    } else if region_holds_index(rs[upto - 1], n, i) {
        Some(upto - 1)
    } else {
        region_of_tick(rs, n, i, upto - 1)
    }
}

/// Per-tick region columns: region index, team, practice flag, end reason
/// value. Ticks in no region get 0, 0, false and the value of `Unknown`.
pub struct RegionColumns {
    pub region_ids: Vec<u32>,
    pub region_teams: Vec<i32>,
    pub region_practices: Vec<bool>,
    pub region_end_reasons: Vec<u8>,
}

/// The column values of tick `i` given the region found for it.
pub open spec fn tick_region_values(rs: Seq<ActiveRegion>, found: Option<int>) -> (u32, i32, bool, u8) {
    match found {
        Some(k) => ((k as usize) as u32, rs[k].team, rs[k].practice, rs[k].end_reason.code()),
        None => (0, 0, false, RegionEndReason::Unknown.code()),
    }
}

impl RegionColumns {
    /// The columns hold, at every tick `i < n`, the values of the last region
    /// among the first `upto` whose index range holds `i`.
    pub open spec fn describe(&self, rs: Seq<ActiveRegion>, n: int, upto: int) -> bool {
        &&& self.region_ids@.len() == n
        &&& self.region_teams@.len() == n
        &&& self.region_practices@.len() == n
        &&& self.region_end_reasons@.len() == n
        &&& forall|i: int|
            0 <= i < n ==> #[trigger] self.region_ids@[i] == tick_region_values(rs, region_of_tick(rs, n, i, upto)).0
        &&& forall|i: int|
            0 <= i < n ==> #[trigger] self.region_teams@[i] == tick_region_values(rs, region_of_tick(rs, n, i, upto)).1
        &&& forall|i: int|
            0 <= i < n ==> #[trigger] self.region_practices@[i] == tick_region_values(rs, region_of_tick(rs, n, i, upto)).2
        &&& forall|i: int|
            0 <= i < n ==> #[trigger] self.region_end_reasons@[i] == tick_region_values(rs, region_of_tick(rs, n, i, upto)).3
    }
}

fn fill_range<T: Copy>(v: &mut Vec<T>, from: usize, to: usize, x: T)
    requires
        to <= old(v)@.len(),
    ensures
        final(v)@.len() == old(v)@.len(),
        forall|t: int|
            0 <= t < old(v)@.len() ==> #[trigger] final(v)@[t] == if from <= t < to {
                x
            } else {
                old(v)@[t]
            },
{
    let mut i: usize = from;
    while i < to
        invariant
            to <= v@.len(),
            v@.len() == old(v)@.len(),
            from <= i,
            i == from || i <= to,
            forall|t: int|
                0 <= t < v@.len() ==> #[trigger] v@[t] == if from <= t < i {
                    x
                } else {
                    old(v)@[t]
                },
        decreases to - i,
    {
        v.set(i, x);
        i = i + 1;
    }
}

/// Map each tick of a sequence to its region: when index ranges overlap,
/// the later region wins; ticks in no region get default values.
pub fn region_columns(seq: &PlayerSequence) -> (cols: RegionColumns)
    ensures
        cols.describe(seq.active_regions@, seq.data@.len() as int, seq.active_regions@.len() as int),
{
    let n = seq.data.len();
    let regions = &seq.active_regions;
    let mut ids: Vec<u32> = vec![0u32; n];
    let mut teams: Vec<i32> = vec![0i32; n];
    let mut practices: Vec<bool> = vec![false; n];
    let mut reasons: Vec<u8> = vec![RegionEndReason::Unknown.as_u8(); n];
    let mut r: usize = 0;
    while r < regions.len()
        invariant
            r <= regions@.len(),
            n == seq.data@.len(),
            regions == &seq.active_regions,
            (RegionColumns { region_ids: ids, region_teams: teams, region_practices: practices, region_end_reasons: reasons }).describe(regions@, n as int, r as int),
        decreases regions@.len() - r,
    {
        let region = regions[r];
        let ghost (ids0, teams0, pr0, re0) = (ids@, teams@, practices@, reasons@);
        let ghost rs = regions@;
        match (region.start_idx, region.end_idx) {
            (Some(start), Some(end)) => {
                let stop = if end < n { end } else { n };
                fill_range(&mut ids, start, stop, r as u32);
                fill_range(&mut teams, start, stop, region.team);
                fill_range(&mut practices, start, stop, region.practice);
                fill_range(&mut reasons, start, stop, region.end_reason.as_u8());
            },
            _ => {},
        }
        proof {
            assert forall|t: int| #![trigger ids@[t]] 0 <= t < n implies {
                let v = tick_region_values(rs, region_of_tick(rs, n as int, t, r + 1));
                &&& ids@[t] == v.0
                &&& teams@[t] == v.1
                &&& practices@[t] == v.2
                &&& reasons@[t] == v.3
            } by {
                if region_holds_index(rs[r as int], n as int, t) {
                    assert(region_of_tick(rs, n as int, t, r + 1) == Some(r as int));
                } else {
                    assert(region_of_tick(rs, n as int, t, r + 1) == region_of_tick(rs, n as int, t, r as int));
                    assert(ids@[t] == ids0[t]);
                    assert(teams@[t] == teams0[t]);
                    assert(practices@[t] == pr0[t]);
                    assert(reasons@[t] == re0[t]);
                }
            }
        }
        r = r + 1;
    }
    RegionColumns { region_ids: ids, region_teams: teams, region_practices: practices, region_end_reasons: reasons }
}

/// Per-region tables: tick ranges (start, end pairs), index ranges
/// (start, end pairs, 0 where unresolved), teams, practice flags (0/1) and
/// end reason values.
pub struct RegionTable {
    pub ticks: Vec<i64>,
    pub indices: Vec<u64>,
    pub teams: Vec<i32>,
    pub practice: Vec<u8>,
    pub end_reasons: Vec<u8>,
}

/// A resolved index, or 0 when unresolved.
pub open spec fn index_or_zero(i: Option<usize>) -> u64 {
    match i {
        Some(x) => x as u64,
        None => 0,
    }
}

/// Build the per-region tables of a list of regions.
pub fn region_table(regions: &[ActiveRegion]) -> (t: RegionTable)
    ensures
        t.ticks@.len() == 2 * regions@.len(),
        t.indices@.len() == 2 * regions@.len(),
        t.teams@.len() == regions@.len(),
        t.practice@.len() == regions@.len(),
        t.end_reasons@.len() == regions@.len(),
        forall|k: int| #![trigger regions@[k]]
            0 <= k < regions@.len() ==> {
                let r = regions@[k];
                &&& t.ticks@[2 * k] == r.start_tick
                &&& t.ticks@[2 * k + 1] == r.end_tick
                &&& t.indices@[2 * k] == index_or_zero(r.start_idx)
                &&& t.indices@[2 * k + 1] == index_or_zero(r.end_idx)
                &&& t.teams@[k] == r.team
                &&& t.practice@[k] == (if r.practice { 1u8 } else { 0u8 })
                &&& t.end_reasons@[k] == r.end_reason.code()
            },
{
    let mut t = RegionTable {
        ticks: Vec::new(),
        indices: Vec::new(),
        teams: Vec::new(),
        practice: Vec::new(),
        end_reasons: Vec::new(),
    };
    let mut k: usize = 0;
    while k < regions.len()
        invariant
            k <= regions@.len(),
            t.ticks@.len() == 2 * k,
            t.indices@.len() == 2 * k,
            t.teams@.len() == k,
            t.practice@.len() == k,
            t.end_reasons@.len() == k,
            forall|j: int| #![trigger regions@[j]]
                0 <= j < k ==> {
                    let r = regions@[j];
                    &&& t.ticks@[2 * j] == r.start_tick
                    &&& t.ticks@[2 * j + 1] == r.end_tick
                    &&& t.indices@[2 * j] == index_or_zero(r.start_idx)
                    &&& t.indices@[2 * j + 1] == index_or_zero(r.end_idx)
                    &&& t.teams@[j] == r.team
                    &&& t.practice@[j] == (if r.practice { 1u8 } else { 0u8 })
                    &&& t.end_reasons@[j] == r.end_reason.code()
                },
        decreases regions@.len() - k,
    {
        let r = regions[k];
        t.ticks.push(r.start_tick);
        t.ticks.push(r.end_tick);
        let s: u64 = match r.start_idx {
            Some(x) => x as u64,
            None => 0,
        };
        let e: u64 = match r.end_idx {
            Some(x) => x as u64,
            None => 0,
        };
        t.indices.push(s);
        t.indices.push(e);
        t.teams.push(r.team);
        t.practice.push(if r.practice { 1u8 } else { 0u8 });
        t.end_reasons.push(r.end_reason.as_u8());
        k = k + 1;
    }
    t
}

/// Names of the per-tick metadata and region columns, in table order.
pub open spec fn metadata_columns() -> Seq<Seq<char>> {
    seq![
        "seq_id"@,
        "player_name"@,
        "team"@,
        "map_name"@,
        "time_of_day"@,
        "timeout_code"@,
        "tick"@,
        "region_id"@,
        "region_team"@,
        "region_practice"@,
        "region_end_reason"@,
    ]
}

/// Column names of a per-tick table: the metadata and region columns, then
/// one column per selected feature, in selection order.
pub fn column_names(feature_set: &FeatureSet) -> (names: Vec<&'static str>)
    ensures
        names@.len() == metadata_columns().len() + feature_set@.len(),
        forall|i: int| 0 <= i < metadata_columns().len() ==> #[trigger] names@[i]@ == metadata_columns()[i],
        forall|j: int|
            0 <= j < feature_set@.len() ==> #[trigger] names@[metadata_columns().len() + j]@ == feature_name(
                feature_set@[j],
            ),
{
    let mut names: Vec<&'static str> = vec![
        "seq_id",
        "player_name",
        "team",
        "map_name",
        "time_of_day",
        "timeout_code",
        "tick",
        "region_id",
        "region_team",
        "region_practice",
        "region_end_reason",
    ];
    let m: usize = names.len();
    assert(m == metadata_columns().len());
    let features = feature_set.names();
    let mut j: usize = 0;
    while j < features.len()
        invariant
            m == metadata_columns().len(),
            j <= features@.len(),
            features@.len() == feature_set@.len(),
            forall|i: int| 0 <= i < features@.len() ==> #[trigger] features@[i]@ == feature_name(feature_set@[i]),
            names@.len() == m + j,
            forall|i: int| 0 <= i < m ==> #[trigger] names@[i]@ == metadata_columns()[i],
            forall|i: int| 0 <= i < j ==> #[trigger] names@[m + i]@ == feature_name(feature_set@[i]),
        decreases features@.len() - j,
    {
        names.push(features[j]);
        j = j + 1;
    }
    names
}

/// Numbering of the sequences a writer has written: sequences without data
/// are skipped, every other one takes the next index.
pub struct SequenceCounter {
    written: usize,
}

impl View for SequenceCounter {
    type V = nat;

    closed spec fn view(&self) -> nat {
        self.written as nat
    }
}

impl SequenceCounter {
    /// No sequence written yet.
    pub fn new() -> (c: Self)
        ensures
            c@ == 0,
    {
        SequenceCounter { written: 0 }
    }

    /// Number of sequences written so far.
    pub fn sequences_written(&self) -> (n: usize)
        ensures
            n == self@,
    {
        self.written
    }

    /// The index of a sequence with `n_ticks` ticks: the number written so
    /// far; the count goes up by one unless the sequence has no data.
    pub fn number_sequence(&mut self, n_ticks: usize) -> (idx: usize)
        requires
            n_ticks > 0 ==> old(self)@ < usize::MAX,
        ensures
            idx == old(self)@,
            final(self)@ == if n_ticks == 0 {
                old(self)@
            } else {
                old(self)@ + 1
            },
    {
        let idx = self.written;
        if n_ticks > 0 {
            self.written = self.written + 1;
        }
        idx
    }
}

/// The sequences with at least `min_ticks` ticks of data, in order.
pub open spec fn long_sequences(seqs: Seq<PlayerSequence>, min_ticks: usize) -> Seq<PlayerSequence>
    decreases seqs.len(),
{
    if seqs.len() == 0 {
        Seq::empty()
    } else {
        let before = long_sequences(seqs.drop_last(), min_ticks);
        if seqs.last().data@.len() >= min_ticks {
            before.push(seqs.last())
        } else {
            before
        }
    }
}

/// Drop the sequences with fewer than `min_ticks` ticks of data, keeping
/// the others in order.
pub fn drop_short_sequences(seqs: &mut Vec<PlayerSequence>, min_ticks: usize)
    ensures
        final(seqs)@ == long_sequences(old(seqs)@, min_ticks),
{
    let ghost all = seqs@;
    let total = seqs.len();
    let mut rest: Vec<PlayerSequence> = Vec::new();
    std::mem::swap(seqs, &mut rest);
    let mut i: usize = 0;
    while rest.len() > 0
        invariant
            i + rest@.len() == all.len(),
            all.len() == total,
            rest@ == all.skip(i as int),
            seqs@ == long_sequences(all.take(i as int), min_ticks),
        decreases rest@.len(),
    {
        let s = rest.remove(0);
        proof {
            assert(s == all[i as int]);
            assert(rest@ =~= all.skip(i + 1));
            assert(all.take(i + 1).drop_last() =~= all.take(i as int));
            assert(all.take(i + 1).last() == s);
        }
        if s.data.len() >= min_ticks {
            seqs.push(s);
        }
        i = i + 1;
    }
    proof {
        assert(all.take(i as int) =~= all);
    }
}

} // verus!
