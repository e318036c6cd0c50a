//! The read sub-protocol: serving a `GetRecords` request from the durable
//! record run.
//!
//! A read walks the offsets of `[from, min(to, local_tail - 1)]`. A region at
//! or below the trim point is reported as a single leading trim gap. Records
//! that fail the key filter are coalesced into filtered gaps; offsets that
//! hold no record are skipped silently. An optional byte budget bounds the
//! cumulative payload size, softly for the first data record: the first data
//! record is always emitted, later ones only while budget remains.

use vstd::prelude::*;
use crate::types::{offset_min, min_offset, OFFSET_OLDEST};
use crate::records::{KeyFilter, Keys, Record, keys_pass_filter, record_passes_filter};
use crate::messages::{MaybeRecord, Records, Status};
use crate::logstore::{MemLogStore, has_off, rec_at, same_record};

verus! {

/// The mathematical shape of one read-response entry.
pub enum ReadEntryModel {
    DataAt { keys: Keys, payload: Seq<u8> },
    TrimGapTo(u64),
    FilteredGapTo(u64),
}

/// The mathematical shape of a read result: the emitted entries and the
/// offset at which the reader would resume.
pub struct ReadModel {
    pub entries: Seq<(u64, ReadEntryModel)>,
    pub next: u64,
}

/// The view of one emitted entry.
pub open spec fn entry_view(e: (u64, MaybeRecord)) -> (u64, ReadEntryModel) {
    match e.1 {
        MaybeRecord::Data(r) => (e.0, ReadEntryModel::DataAt { keys: r.keys, payload: r.payload@ }),
        MaybeRecord::TrimGap { to } => (e.0, ReadEntryModel::TrimGapTo(to)),
        MaybeRecord::FilteredGap { to } => (e.0, ReadEntryModel::FilteredGapTo(to)),
    }
}

/// The view of an emitted entry sequence.
pub open spec fn entries_view(s: Seq<(u64, MaybeRecord)>) -> Seq<(u64, ReadEntryModel)> {
    s.map(|i: int, e: (u64, MaybeRecord)| entry_view(e))
}

/// Remaining budget after emitting `size` payload bytes; never below zero.
pub open spec fn budget_sub(budget: Option<int>, size: int) -> Option<int> {
    match budget {
        Option::Some(b) => if b - size >= 0 {
            Option::Some(b - size)
        } else {
            Option::Some(0int)
        },
        Option::None => Option::None,
    }
}

/// Whether the budget bars emitting a further data record.
pub open spec fn budget_spent(budget: Option<int>) -> bool {
    match budget {
        Option::Some(b) => b <= 0,
        Option::None => false,
    }
}

/// A pending filtered gap extended over one more filtered offset.
pub open spec fn gap_extend(gap: Option<(u64, u64)>, pos: u64) -> Option<(u64, u64)> {
    match gap {
        Option::Some((s, _)) => Option::Some((s, pos)),
        Option::None => Option::Some((pos, pos)),
    }
}

/// The entries a pending filtered gap contributes once it is flushed.
pub open spec fn gap_entries(gap: Option<(u64, u64)>) -> Seq<(u64, ReadEntryModel)> {
    match gap {
        Option::Some((s, e)) => seq![(s, ReadEntryModel::FilteredGapTo(e))],
        Option::None => Seq::empty(),
    }
}

/// The scan over `[pos, end]`: which entries are emitted and where the reader
/// resumes, given the budget left, whether a data record was already emitted,
/// and the pending filtered gap.
pub open spec fn scan_model(
    recs: Seq<(u64, Record)>,
    filter: KeyFilter,
    pos: u64,
    end: u64,
    budget: Option<int>,
    data_seen: bool,
    gap: Option<(u64, u64)>,
) -> ReadModel
    decreases end + 1 - pos,
        when end < u64::MAX
{
    if pos > end {
        ReadModel { entries: gap_entries(gap), next: (end + 1) as u64 }
    } else if !has_off(recs, pos) {
        scan_model(recs, filter, (pos + 1) as u64, end, budget, data_seen, gap)
    } else if keys_pass_filter(rec_at(recs, pos).keys, filter) {
        if data_seen && budget_spent(budget) {
            ReadModel { entries: gap_entries(gap), next: pos }
        } else {
            let r = rec_at(recs, pos);
            let rest = scan_model(
                recs,
                filter,
                (pos + 1) as u64,
                end,
                budget_sub(budget, r.payload@.len() as int),
                true,
                Option::None,
            );
            ReadModel {
                entries: gap_entries(gap)
                    + seq![(pos, ReadEntryModel::DataAt { keys: r.keys, payload: r.payload@ })]
                    + rest.entries,
                next: rest.next,
            }
        }
    } else {
        scan_model(recs, filter, (pos + 1) as u64, end, budget, data_seen, gap_extend(gap, pos))
    }
}

/// The full model of a read over `[from, to]` against a loglet whose local
/// tail is `tail` and whose trim point is `trim`.
pub open spec fn read_model(
    recs: Seq<(u64, Record)>,
    trim: u64,
    tail: u64,
    from: u64,
    to: u64,
    filter: KeyFilter,
    budget: Option<int>,
) -> ReadModel {
    if from >= tail {
        ReadModel { entries: Seq::empty(), next: from }
    } else {
        let to_eff = offset_min(to, (tail - 1) as u64);
        if from <= trim {
            let gap_to = offset_min(trim, to_eff);
            let rest = scan_model(
                recs, filter, (gap_to + 1) as u64, to_eff, budget, false, Option::None);
            ReadModel {
                entries: seq![(from, ReadEntryModel::TrimGapTo(gap_to))] + rest.entries,
                next: rest.next,
            }
        } else {
            scan_model(recs, filter, from, to_eff, budget, false, Option::None)
        }
    }
}

/// The view of an executable byte budget.
pub open spec fn budget_view(b: Option<usize>) -> Option<int> {
    match b {
        Option::Some(x) => Option::Some(x as int),
        Option::None => Option::None,
    }
}

impl MemLogStore {
    /// Serves a read over `[from_offset, to_offset]` against the durable run,
    /// using the loglet's current in-memory tail, seal flag and trim point.
    /// The result is exactly [`read_model`] of those inputs.
    pub fn read_records(
        &self,
        from_offset: u64,
        to_offset: u64,
        filter: KeyFilter,
        budget: Option<usize>,
        local_tail: u64,
        sealed: bool,
        trim_point: u64,
    ) -> (r: Records)
        requires
            self.wf(),
            from_offset <= to_offset,
            OFFSET_OLDEST <= local_tail,
            trim_point < local_tail,
        ensures
            r.local_tail == local_tail,
            r.sealed == sealed,
            r.status == Status::Okay,
            entries_view(r.records@) == read_model(
                self.records@, trim_point, local_tail, from_offset, to_offset, filter,
                budget_view(budget),
            ).entries,
            r.next_offset == read_model(
                self.records@, trim_point, local_tail, from_offset, to_offset, filter,
                budget_view(budget),
            ).next,
    {
        let ghost model = read_model(
            self.records@, trim_point, local_tail, from_offset, to_offset, filter,
            budget_view(budget));
        let mut out: Vec<(u64, MaybeRecord)> = Vec::new();
        if from_offset >= local_tail {
            proof {
                assert(entries_view(out@) =~= model.entries);
            }
            return Records {
                local_tail,
                sealed,
                next_offset: from_offset,
                records: out,
                status: Status::Okay,
            };
        }
        let to_eff = min_offset(to_offset, local_tail - 1);
        let mut pos: u64;
        if from_offset <= trim_point {
            let gap_to = min_offset(trim_point, to_eff);
            out.push((from_offset, MaybeRecord::TrimGap { to: gap_to }));
            pos = gap_to + 1;
        } else {
            pos = from_offset;
        }
        let mut budget_left: Option<usize> = budget;
        let mut data_seen: bool = false;
        let mut gap: Option<(u64, u64)> = Option::None;
        let mut next_offset: u64 = 0;
        let mut stopped = false;
        proof {
            assert(model.entries =~= entries_view(out@) + scan_model(
                self.records@, filter, pos, to_eff, budget_view(budget_left), data_seen, gap,
            ).entries);
        }
        while pos <= to_eff && !stopped
            invariant
                self.wf(),
                OFFSET_OLDEST <= local_tail,
                to_eff < local_tail,
                !stopped ==> {
                    &&& model.entries == entries_view(out@) + scan_model(
                        self.records@, filter, pos, to_eff, budget_view(budget_left),
                        data_seen, gap,
                    ).entries
                    &&& model.next == scan_model(
                        self.records@, filter, pos, to_eff, budget_view(budget_left),
                        data_seen, gap,
                    ).next
                    &&& pos <= to_eff + 1
                },
                stopped ==> {
                    &&& model.entries == entries_view(out@)
                    &&& model.next == next_offset
                },
            decreases to_eff + 1 - pos, if stopped { 0int } else { 1int },
        {
            let ghost pre_out = out@;
            let ghost pre_scan = scan_model(
                self.records@, filter, pos, to_eff, budget_view(budget_left), data_seen, gap);
            match self.get_record(pos) {
                Option::None => {
                    pos = pos + 1;
                    proof {
                        assert(pre_scan == scan_model(
                            self.records@, filter, pos, to_eff, budget_view(budget_left),
                            data_seen, gap));
                    }
                },
                Option::Some(rec) => {
                    let ghost stored = rec_at(self.records@, pos);
                    proof {
                        assert(same_record(*rec, stored));
                    }
                    if record_passes_filter(rec.keys, filter) {
                        let spent = match budget_left {
                            Option::Some(b) => b == 0,
                            Option::None => false,
                        };
                        proof {
                            assert(spent == budget_spent(budget_view(budget_left)));
                        }
                        if data_seen && spent {
                            if let Option::Some((s, e)) = gap {
                                out.push((s, MaybeRecord::FilteredGap { to: e }));
                            }
                            next_offset = pos;
                            stopped = true;
                            proof {
                                assert(entries_view(out@) =~= entries_view(pre_out)
                                    + gap_entries(gap));
                                assert(pre_scan.entries == gap_entries(gap));
                                assert(model.entries =~= entries_view(out@));
                            }
                        } else {
                            if let Option::Some((s, e)) = gap {
                                out.push((s, MaybeRecord::FilteredGap { to: e }));
                            }
                            let ghost mid_out = out@;
                            let ghost old_budget = budget_view(budget_left);
                            let copied = rec.copy();
                            let size = copied.payload.len();
                            out.push((pos, MaybeRecord::Data(copied)));
                            budget_left = match budget_left {
                                Option::Some(b) => Option::Some(b.saturating_sub(size)),
                                Option::None => Option::None,
                            };
                            let ghost old_gap = gap;
                            gap = Option::None;
                            data_seen = true;
                            pos = pos + 1;
                            proof {
                                assert(entries_view(mid_out) =~= entries_view(pre_out)
                                    + gap_entries(old_gap));
                                assert(entries_view(out@) =~= entries_view(mid_out)
                                    + seq![(
                                        (pos - 1) as u64,
                                        ReadEntryModel::DataAt {
                                            keys: stored.keys,
                                            payload: stored.payload@,
                                        },
                                    )]);
                                assert(budget_view(budget_left) == budget_sub(
                                    old_budget, stored.payload@.len() as int));
                            }
                        }
                    } else {
                        let ghost old_gap = gap;
                        gap = Option::Some(match gap {
                            Option::Some((s, _)) => (s, pos),
                            Option::None => (pos, pos),
                        });
                        pos = pos + 1;
                        proof {
                            assert(gap == gap_extend(old_gap, (pos - 1) as u64));
                            assert(pre_scan == scan_model(
                                self.records@, filter, pos, to_eff, budget_view(budget_left),
                                data_seen, gap));
                        }
                    }
                },
            }
        }
        if !stopped {
            if let Option::Some((s, e)) = gap {
                out.push((s, MaybeRecord::FilteredGap { to: e }));
            }
            next_offset = to_eff + 1;
            proof {
                assert(entries_view(out@) =~= model.entries);
            }
        }
        Records { local_tail, sealed, next_offset, records: out, status: Status::Okay }
    }
}

/// The scan proper never emits a trim gap: trim gaps come only from the
/// leading trim check of [`read_model`].
proof fn lemma_scan_no_trim_gap(
    recs: Seq<(u64, Record)>,
    filter: KeyFilter,
    pos: u64,
    end: u64,
    budget: Option<int>,
    data_seen: bool,
    gap: Option<(u64, u64)>,
)
    requires
        end < u64::MAX,
    ensures
        forall|i: int|
            0 <= i < scan_model(recs, filter, pos, end, budget, data_seen, gap).entries.len()
            ==> !(#[trigger] scan_model(recs, filter, pos, end, budget, data_seen, gap)
                .entries[i].1 is TrimGapTo),
    decreases end + 1 - pos,
{
    if pos > end {
    } else if !has_off(recs, pos) {
        lemma_scan_no_trim_gap(recs, filter, (pos + 1) as u64, end, budget, data_seen, gap);
    } else if keys_pass_filter(rec_at(recs, pos).keys, filter) {
        if data_seen && budget_spent(budget) {
        } else {
            let r = rec_at(recs, pos);
            lemma_scan_no_trim_gap(
                recs,
                filter,
                (pos + 1) as u64,
                end,
                budget_sub(budget, r.payload@.len() as int),
                true,
                Option::None,
            );
        }
    } else {
        lemma_scan_no_trim_gap(
            recs, filter, (pos + 1) as u64, end, budget, data_seen, gap_extend(gap, pos));
    }
}

/// Reads across a trimmed region begin with exactly one trim gap, whose end
/// is the smaller of the trim point and the requested upper bound. No other
/// entry of the response is a trim gap.
pub proof fn lemma_read_trim_gap(
    recs: Seq<(u64, Record)>,
    trim: u64,
    tail: u64,
    from: u64,
    to: u64,
    filter: KeyFilter,
    budget: Option<int>,
)
    requires
        OFFSET_OLDEST <= tail,
        trim < tail,
        from <= to,
        from <= trim,
    ensures
        read_model(recs, trim, tail, from, to, filter, budget).entries.len() >= 1,
        read_model(recs, trim, tail, from, to, filter, budget).entries[0]
            == (from, ReadEntryModel::TrimGapTo(offset_min(trim, to))),
        forall|i: int|
            1 <= i < read_model(recs, trim, tail, from, to, filter, budget).entries.len()
            ==> !(#[trigger] read_model(recs, trim, tail, from, to, filter, budget)
                .entries[i].1 is TrimGapTo),
{
    let to_eff = offset_min(to, (tail - 1) as u64);
    let gap_to = offset_min(trim, to_eff);
    assert(gap_to == offset_min(trim, to));
    lemma_scan_no_trim_gap(
        recs, filter, (gap_to + 1) as u64, to_eff, budget, false, Option::None);
}

/// The scan emits a data record whenever a passing record exists in its range
/// and no data record was emitted yet: the budget is soft for the first data
/// record.
proof fn lemma_scan_finds_data(
    recs: Seq<(u64, Record)>,
    filter: KeyFilter,
    pos: u64,
    end: u64,
    budget: Option<int>,
    gap: Option<(u64, u64)>,
)
    requires
        end < u64::MAX,
        exists|o: u64|
            pos <= o <= end && #[trigger] has_off(recs, o)
                && keys_pass_filter(rec_at(recs, o).keys, filter),
    ensures
        exists|i: int|
            0 <= i < scan_model(recs, filter, pos, end, budget, false, gap).entries.len()
                && #[trigger] scan_model(recs, filter, pos, end, budget, false, gap)
                    .entries[i].1 is DataAt,
    decreases end + 1 - pos,
{
    let o = choose|o: u64|
        pos <= o <= end && #[trigger] has_off(recs, o)
            && keys_pass_filter(rec_at(recs, o).keys, filter);
    let m = scan_model(recs, filter, pos, end, budget, false, gap);
    if !has_off(recs, pos) {
        assert(o != pos);
        lemma_scan_finds_data(recs, filter, (pos + 1) as u64, end, budget, gap);
    } else if keys_pass_filter(rec_at(recs, pos).keys, filter) {
        let k = gap_entries(gap).len() as int;
        assert(m.entries[k].1 is DataAt);
    } else {
        assert(o != pos);
        lemma_scan_finds_data(
            recs, filter, (pos + 1) as u64, end, budget, gap_extend(gap, pos));
    }
}

/// Whatever the byte budget, a read returns at least one data record whenever
/// a passing record exists in the readable part of the requested range.
pub proof fn lemma_read_returns_data(
    recs: Seq<(u64, Record)>,
    trim: u64,
    tail: u64,
    from: u64,
    to: u64,
    filter: KeyFilter,
    budget: Option<int>,
)
    requires
        OFFSET_OLDEST <= tail,
        trim < tail,
        from <= to,
        exists|o: u64|
            from <= o <= to && trim < o < tail && #[trigger] has_off(recs, o)
                && keys_pass_filter(rec_at(recs, o).keys, filter),
    ensures
        exists|i: int|
            0 <= i < read_model(recs, trim, tail, from, to, filter, budget).entries.len()
                && #[trigger] read_model(recs, trim, tail, from, to, filter, budget)
                    .entries[i].1 is DataAt,
{
    let o = choose|o: u64|
        from <= o <= to && trim < o < tail && #[trigger] has_off(recs, o)
            && keys_pass_filter(rec_at(recs, o).keys, filter);
    let m = read_model(recs, trim, tail, from, to, filter, budget);
    assert(from < tail);
    let to_eff = offset_min(to, (tail - 1) as u64);
    assert(o <= to_eff);
    if from <= trim {
        let gap_to = offset_min(trim, to_eff);
        assert(gap_to + 1 <= o);
        lemma_scan_finds_data(recs, filter, (gap_to + 1) as u64, to_eff, budget, Option::None);
        let rest = scan_model(recs, filter, (gap_to + 1) as u64, to_eff, budget, false,
            Option::None);
        let i = choose|i: int| 0 <= i < rest.entries.len() && #[trigger] rest.entries[i].1 is DataAt;
        assert(m.entries[i + 1].1 is DataAt);
    } else {
        lemma_scan_finds_data(recs, filter, from, to_eff, budget, Option::None);
    }
}

} // verus!
