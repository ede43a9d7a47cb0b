//! Change-point maps: sparse, tick-sorted lists of (tick, value) samples
//! representing a step function, answering "what is the effective value at
//! tick T" by the change with the largest tick at or before T.
//!
//! Two instances are derived from a track's meta events: the tempo map
//! (beats per minute) and the time-signature map (numerator, denominator).

use crate::order::SortOrder;
use crate::order::insertion_sort;
use crate::order::lemma_sort_ordered_weight_sorted;
use crate::order::sort_ordered;
use vstd::prelude::*;

verus! {

/// Change-point entries are ordered by tick alone; the stable sort keeps
/// the relative order of entries at equal ticks.
impl<V> SortOrder for (u64, V) {
    open spec fn comes_after(self, other: Self) -> bool {
        self.0 > other.0
    }

    fn check_comes_after(&self, other: &Self) -> (r: bool) {
        self.0 > other.0
    }
}

/// The weight a change-point list is ordered by: the tick of each entry.
pub open spec fn pair_tick_weight<V>() -> spec_fn((u64, V)) -> int {
    |p: (u64, V)| p.0 as int
}

/// Entries sorted by non-decreasing tick.
pub open spec fn tick_sorted<V>(s: Seq<(u64, V)>) -> bool {
    forall|i: int, j: int| 0 <= i < j < s.len() ==> (#[trigger] s[i]).0 <= (#[trigger] s[j]).0
}

proof fn lemma_sorted_changes_tick_sorted<V>(s: Seq<(u64, V)>)
    ensures
        tick_sorted(sort_ordered(s)),
{
    lemma_sort_ordered_weight_sorted(s, pair_tick_weight::<V>());
    assert forall|i: int, j: int|
        0 <= i < j < sort_ordered(s).len() implies (#[trigger] sort_ordered(s)[i]).0 <= (
    #[trigger] sort_ordered(s)[j]).0 by {
        assert(pair_tick_weight::<V>()(sort_ordered(s)[i]) <= pair_tick_weight::<V>()(
            sort_ordered(s)[j],
        ));
    }
}

/// The entry a lookup at `tick` returns: among the entries whose tick is at
/// or before `tick`, the one with the largest tick, and of those the
/// latest-listed. None when every entry lies after `tick`.
pub open spec fn latest_at<V>(s: Seq<(u64, V)>, tick: u64) -> Option<(u64, V)>
    decreases s.len(),
{
    if s.len() == 0 {
        None
    } else {
        let prev = latest_at(s.drop_last(), tick);
        let x = s.last();
        if x.0 <= tick && (prev is None || x.0 >= prev->Some_0.0) {
            Some(x)
        } else {
            prev
        }
    }
}

/// What `latest_at` returns: an entry at or before the queried tick whose
/// tick no eligible entry exceeds, or nothing when no entry is eligible.
pub proof fn lemma_latest_at_props<V>(s: Seq<(u64, V)>, tick: u64)
    ensures
        match latest_at(s, tick) {
            Some(p) => p.0 <= tick && s.contains(p) && forall|k: int|
                0 <= k < s.len() && (#[trigger] s[k]).0 <= tick ==> s[k].0 <= p.0,
            None => forall|k: int| 0 <= k < s.len() ==> (#[trigger] s[k]).0 > tick,
        },
    decreases s.len(),
{
    if s.len() > 0 {
        let dl = s.drop_last();
        lemma_latest_at_props(dl, tick);
        assert(forall|k: int| 0 <= k < dl.len() ==> dl[k] == s[k]);
        match latest_at(s, tick) {
            Some(p) => {
                if p == s.last() && !(latest_at(dl, tick) is Some && latest_at(
                    dl,
                    tick,
                )->Some_0 == p) {
                    assert(s[s.len() - 1] == p);
                } else {
                    let i = choose|i: int| 0 <= i < dl.len() && dl[i] == p;
                    assert(s[i] == p);
                }
            },
            None => {},
        }
    }
}

/// A failure while decoding a tempo or time-signature meta payload. The
/// payload either has the wrong length for its kind, or names a tempo of
/// zero microseconds per quarter note, which no beats-per-minute value can
/// represent.
#[derive(Debug, PartialEq, Eq, Structural)]
pub enum MetaDecodeError {
    PayloadLength,
    ZeroTempo,
}

/// The microseconds-per-quarter-note value encoded big-endian in the first
/// three bytes of a tempo payload.
pub open spec fn tempo_usec_of(data: Seq<u8>) -> int {
    data[0] * 0x10000 + data[1] * 0x100 + data[2]
}

/// Two to the given power, truncated to a byte: exponents of eight or more
/// give zero.
pub open spec fn pow2_u8(e: u8) -> u8 {
    if e < 8 {
        1u8 << e
    } else {
        0u8
    }
}

/// Decodes a tempo meta payload: three bytes of big-endian microseconds per
/// quarter note, converted to integer beats per minute, truncating.
/// A payload of any other length, or one naming zero microseconds, is a
/// decode error.
pub fn decode_tempo(data: &Vec<u8>) -> (r: Result<u16, MetaDecodeError>)
    ensures
        data@.len() != 3 ==> r == Err::<u16, MetaDecodeError>(MetaDecodeError::PayloadLength),
        data@.len() == 3 && tempo_usec_of(data@) == 0 ==> r == Err::<u16, MetaDecodeError>(
            MetaDecodeError::ZeroTempo,
        ),
        data@.len() == 3 && tempo_usec_of(data@) != 0 ==> r == Ok::<u16, MetaDecodeError>(
            ((60_000_000 as int / tempo_usec_of(data@)) as u16),
        ),
{
    if data.len() != 3 {
        return Err(MetaDecodeError::PayloadLength);
    }
    let usec: u32 = (data[0] as u32) * 0x10000 + (data[1] as u32) * 0x100 + (data[2] as u32);
    if usec == 0 {
        return Err(MetaDecodeError::ZeroTempo);
    }
    let bpm: u32 = 60_000_000 / usec;
    Ok(#[verifier::truncate] (bpm as u16))
}

/// Decodes a time-signature meta payload of four bytes: the numerator, the
/// denominator as a power of two, and the two clock fields this map does
/// not interpret. A payload of any other length is a decode error.
pub fn decode_time_signature(data: &Vec<u8>) -> (r: Result<(u8, u8), MetaDecodeError>)
    ensures
        data@.len() != 4 ==> r == Err::<(u8, u8), MetaDecodeError>(MetaDecodeError::PayloadLength),
        data@.len() == 4 ==> r == Ok::<(u8, u8), MetaDecodeError>((data@[0], pow2_u8(data@[1]))),
{
    if data.len() != 4 {
        return Err(MetaDecodeError::PayloadLength);
    }
    let e = data[1];
    let dd: u8 = if e < 8 {
        1u8 << e
    } else {
        0u8
    };
    Ok((data[0], dd))
}

/// The filter `delete` applies: keep every entry other than the one given.
pub open spec fn keep_other<V>(d: (u64, V)) -> spec_fn((u64, V)) -> bool {
    |e: (u64, V)| e != d
}

/// A map of tempo changes: entries `(abs_tick, beats_per_minute)`.
#[derive(Debug, Clone, PartialEq, Eq)]
pub struct TempoInfo {
    pub changes: Vec<(u64, u16)>,
}

impl TempoInfo {
    /// A map from a list of changes; sorts them by tick when asked, keeping
    /// the relative order of entries at equal ticks.
    pub fn new(changes: Vec<(u64, u16)>, need_sort: bool) -> (r: TempoInfo)
        ensures
            need_sort ==> r.changes@ == sort_ordered(changes@) && tick_sorted(r.changes@),
            !need_sort ==> r.changes@ == changes@,
    {
        let mut changes = changes;
        let ghost pre = changes@;
        if need_sort {
            insertion_sort(&mut changes);
            proof {
                lemma_sorted_changes_tick_sorted(pre);
            }
        }
        TempoInfo { changes }
    }

    /// Adds one change and re-sorts the list by tick.
    pub fn append(&mut self, change: (u64, u16))
        ensures
            final(self).changes@ == sort_ordered(old(self).changes@.push(change)),
            tick_sorted(final(self).changes@),
    {
        self.changes.push(change);
        let ghost pushed = self.changes@;
        insertion_sort(&mut self.changes);
        proof {
            lemma_sorted_changes_tick_sorted(pushed);
        }
    }

    /// Removes every entry exactly equal to the given change.
    pub fn delete(&mut self, deleted: (u64, u16))
        ensures
            final(self).changes@ == old(self).changes@.filter(keep_other(deleted)),
    {
        delete_matching_u16(&mut self.changes, deleted);
    }

    /// The tempo in effect at `abs_tick`: the value of the change with the
    /// largest tick at or before it, or None when no change has happened by
    /// then. Returns Some exactly when some entry's tick is at or before
    /// `abs_tick`.
    pub fn tempo(&self, abs_tick: u64) -> (r: Option<u16>)
        ensures
            r == match latest_at(self.changes@, abs_tick) {
                Some(p) => Some(p.1),
                None => None::<u16>,
            },
            (r is Some) <==> exists|k: int|
                0 <= k < self.changes@.len() && (#[trigger] self.changes@[k]).0 <= abs_tick,
    {
        let r = lookup_latest_u16(&self.changes, abs_tick);
        proof {
            lemma_latest_at_props(self.changes@, abs_tick);
            if latest_at(self.changes@, abs_tick) is Some {
                let p = latest_at(self.changes@, abs_tick)->Some_0;
                let i = choose|i: int|
                    0 <= i < self.changes@.len() && #[trigger] self.changes@[i] == p;
                assert(self.changes@[i].0 <= abs_tick);
            }
        }
        match r {
            Some(p) => Some(p.1),
            None => None,
        }
    }
}

/// A map of time-signature changes: entries
/// `(abs_tick, (numerator, denominator))`.
#[derive(Debug, Clone, PartialEq, Eq)]
pub struct TimeSignatureInfo {
    pub changes: Vec<(u64, (u8, u8))>,
}

impl TimeSignatureInfo {
    /// A map from a list of changes; sorts them by tick when asked, keeping
    /// the relative order of entries at equal ticks.
    pub fn new(changes: Vec<(u64, (u8, u8))>, need_sort: bool) -> (r: TimeSignatureInfo)
        ensures
            need_sort ==> r.changes@ == sort_ordered(changes@) && tick_sorted(r.changes@),
            !need_sort ==> r.changes@ == changes@,
    {
        let mut changes = changes;
        let ghost pre = changes@;
        if need_sort {
            insertion_sort(&mut changes);
            proof {
                lemma_sorted_changes_tick_sorted(pre);
            }
        }
        TimeSignatureInfo { changes }
    }

    /// Adds one change and re-sorts the list by tick.
    pub fn append(&mut self, change: (u64, (u8, u8)))
        ensures
            final(self).changes@ == sort_ordered(old(self).changes@.push(change)),
            tick_sorted(final(self).changes@),
    {
        self.changes.push(change);
        let ghost pushed = self.changes@;
        insertion_sort(&mut self.changes);
        proof {
            lemma_sorted_changes_tick_sorted(pushed);
        }
    }

    /// Removes every entry exactly equal to the given change.
    pub fn delete(&mut self, deleted: (u64, (u8, u8)))
        ensures
            final(self).changes@ == old(self).changes@.filter(keep_other(deleted)),
    {
        delete_matching_ts(&mut self.changes, deleted);
    }

    /// The time signature in effect at `abs_tick`, or None when no change
    /// has happened by then. Returns Some exactly when some entry's tick is
    /// at or before `abs_tick`.
    pub fn time_signature(&self, abs_tick: u64) -> (r: Option<(u8, u8)>)
        ensures
            r == match latest_at(self.changes@, abs_tick) {
                Some(p) => Some(p.1),
                None => None::<(u8, u8)>,
            },
            (r is Some) <==> exists|k: int|
                0 <= k < self.changes@.len() && (#[trigger] self.changes@[k]).0 <= abs_tick,
    {
        let r = lookup_latest_ts(&self.changes, abs_tick);
        proof {
            lemma_latest_at_props(self.changes@, abs_tick);
            if latest_at(self.changes@, abs_tick) is Some {
                let p = latest_at(self.changes@, abs_tick)->Some_0;
                let i = choose|i: int|
                    0 <= i < self.changes@.len() && #[trigger] self.changes@[i] == p;
                assert(self.changes@[i].0 <= abs_tick);
            }
        }
        match r {
            Some(p) => Some(p.1),
            None => None,
        }
    }

    /// The time signature in effect at each of the given ticks; an error
    /// when any tick lies before the first change.
    pub fn measure_of_abs_ticks(&self, abs_ticks: &Vec<u64>) -> (r: Result<Vec<(u8, u8)>, ()>)
        ensures
            match r {
                Ok(v) => v@.len() == abs_ticks@.len() && forall|k: int|
                    0 <= k < abs_ticks@.len() ==> latest_at(self.changes@, abs_ticks@[k]) is Some
                        && v@[k] == latest_at(self.changes@, #[trigger] abs_ticks@[k])->Some_0.1,
                Err(u) => exists|k: int|
                    0 <= k < abs_ticks@.len() && latest_at(
                        self.changes@,
                        #[trigger] abs_ticks@[k],
                    ) is None,
            },
    {
        let mut out: Vec<(u8, u8)> = Vec::new();
        let n = abs_ticks.len();
        let mut k: usize = 0;
        while k < n
            invariant
                k <= n,
                n == abs_ticks@.len(),
                out@.len() == k,
                forall|m: int|
                    0 <= m < k ==> latest_at(self.changes@, abs_ticks@[m]) is Some && out@[m]
                        == latest_at(self.changes@, #[trigger] abs_ticks@[m])->Some_0.1,
            decreases n - k,
        {
            match self.time_signature(abs_ticks[k]) {
                Some(ts) => {
                    out.push(ts);
                },
                None => {
                    return Err(());
                },
            }
            k += 1;
        }
        Ok(out)
    }
}

fn lookup_latest_u16(changes: &Vec<(u64, u16)>, tick: u64) -> (r: Option<(u64, u16)>)
    ensures
        r == latest_at(changes@, tick),
{
    let mut best: Option<(u64, u16)> = None;
    let n = changes.len();
    let mut i: usize = 0;
    while i < n
        invariant
            i <= n,
            n == changes@.len(),
            best == latest_at(changes@.take(i as int), tick),
        decreases n - i,
    {
        let cur = changes[i];
        proof {
            assert(changes@.take(i + 1).drop_last() =~= changes@.take(i as int));
            assert(changes@.take(i + 1).last() == changes@[i as int]);
        }
        if cur.0 <= tick {
            best = match best {
                Some(b) => if cur.0 >= b.0 {
                    Some(cur)
                } else {
                    Some(b)
                },
                None => Some(cur),
            };
        }
        i += 1;
    }
    proof {
        assert(changes@.take(n as int) =~= changes@);
    }
    best
}

fn lookup_latest_ts(changes: &Vec<(u64, (u8, u8))>, tick: u64) -> (r: Option<(u64, (u8, u8))>)
    ensures
        r == latest_at(changes@, tick),
{
    let mut best: Option<(u64, (u8, u8))> = None;
    let n = changes.len();
    let mut i: usize = 0;
    while i < n
        invariant
            i <= n,
            n == changes@.len(),
            best == latest_at(changes@.take(i as int), tick),
        decreases n - i,
    {
        let cur = changes[i];
        proof {
            assert(changes@.take(i + 1).drop_last() =~= changes@.take(i as int));
            assert(changes@.take(i + 1).last() == changes@[i as int]);
        }
        if cur.0 <= tick {
            best = match best {
                Some(b) => if cur.0 >= b.0 {
                    Some(cur)
                } else {
                    Some(b)
                },
                None => Some(cur),
            };
        }
        i += 1;
    }
    proof {
        assert(changes@.take(n as int) =~= changes@);
    }
    best
}

fn delete_matching_u16(changes: &mut Vec<(u64, u16)>, deleted: (u64, u16))
    ensures
        final(changes)@ == old(changes)@.filter(keep_other(deleted)),
{
    let ghost orig = changes@;
    let mut out: Vec<(u64, u16)> = Vec::new();
    proof {
        reveal(Seq::filter);
        assert(orig.take(0).filter(keep_other(deleted)) =~= Seq::<(u64, u16)>::empty());
    }
    let n = changes.len();
    let mut i: usize = 0;
    while i < n
        invariant
            i <= n,
            n == changes@.len(),
            changes@ == orig,
            out@ == orig.take(i as int).filter(keep_other(deleted)),
        decreases n - i,
    {
        let cur = changes[i];
        proof {
            reveal(Seq::filter);
            let pred = keep_other(deleted);
            let t1 = orig.take(i + 1);
            assert(t1.drop_last() =~= orig.take(i as int));
            assert(t1.last() == orig[i as int]);
            assert(t1.filter(pred) == if pred(orig[i as int]) {
                orig.take(i as int).filter(pred).push(orig[i as int])
            } else {
                orig.take(i as int).filter(pred)
            });
            assert(pred(orig[i as int]) == (orig[i as int] != deleted));
            assert((cur == deleted) == (cur.0 == deleted.0 && cur.1 == deleted.1));
        }
        if !(cur.0 == deleted.0 && cur.1 == deleted.1) {
            out.push(cur);
        }
        i += 1;
    }
    proof {
        assert(orig.take(n as int) =~= orig);
    }
    *changes = out;
}

fn delete_matching_ts(changes: &mut Vec<(u64, (u8, u8))>, deleted: (u64, (u8, u8)))
    ensures
        final(changes)@ == old(changes)@.filter(keep_other(deleted)),
{
    let ghost orig = changes@;
    let mut out: Vec<(u64, (u8, u8))> = Vec::new();
    proof {
        reveal(Seq::filter);
        assert(orig.take(0).filter(keep_other(deleted)) =~= Seq::<(u64, (u8, u8))>::empty());
    }
    let n = changes.len();
    let mut i: usize = 0;
    while i < n
        invariant
            i <= n,
            n == changes@.len(),
            changes@ == orig,
            out@ == orig.take(i as int).filter(keep_other(deleted)),
        decreases n - i,
    {
        let cur = changes[i];
        proof {
            reveal(Seq::filter);
            let pred = keep_other(deleted);
            let t1 = orig.take(i + 1);
            assert(t1.drop_last() =~= orig.take(i as int));
            assert(t1.last() == orig[i as int]);
            assert(t1.filter(pred) == if pred(orig[i as int]) {
                orig.take(i as int).filter(pred).push(orig[i as int])
            } else {
                orig.take(i as int).filter(pred)
            });
            assert(pred(orig[i as int]) == (orig[i as int] != deleted));
            assert((cur == deleted) == (cur.0 == deleted.0 && cur.1.0 == deleted.1.0
                && cur.1.1 == deleted.1.1));
        }
        if !(cur.0 == deleted.0 && cur.1.0 == deleted.1.0 && cur.1.1 == deleted.1.1) {
            out.push(cur);
        }
        i += 1;
    }
    proof {
        assert(orig.take(n as int) =~= orig);
    }
    *changes = out;
}

} // verus!
