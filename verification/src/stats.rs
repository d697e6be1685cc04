//! The statistics aggregate: per-key press counts, a bounded recent-key
//! sequence, per-day buckets, and derived typing speed.
//!
//! All operations are specified against [`StatsView`], the mathematical model
//! of the aggregate, and preserve the well-formedness invariant [`StatsView::wf`]:
//! the per-key counts sum to the total keystroke counter, the recent sequence
//! is bounded, day keys and key codes are unique, and each day bucket's key
//! distribution sums to that bucket's keystroke count.

use vstd::prelude::*;

verus! {

/// Number of recent key identifiers retained by the aggregate.
pub const RECENT_CAP: usize = 100;

/// Seconds in one calendar day; day buckets are keyed by `timestamp / SECS_PER_DAY`.
pub const SECS_PER_DAY: u64 = 86400;

/// A key transition reported by the input device: value 1 is a press,
/// 0 a release, 2 an auto-repeat.
#[derive(Clone, Copy, Debug, PartialEq, Eq, Structural)]
pub enum KeyTransition {
    Up,
    Down,
    Repeat,
}

/// A single observed key transition. Hold durations are deliberately not
/// modelled: only `Down` transitions mutate the aggregate.
#[derive(Clone, Copy, Debug, PartialEq, Eq, Structural)]
pub struct KeyPress {
    /// Numeric key code from the input device.
    pub code: u16,
    /// Which transition was observed.
    pub transition: KeyTransition,
    /// Wall-clock time of the event, in seconds since the Unix epoch.
    pub timestamp: u64,
}

/// A closed typing session archived by the aggregate.
#[derive(Clone, Copy, Debug, PartialEq, Eq, Structural)]
pub struct TypingSession {
    /// Session start, in seconds since the Unix epoch.
    pub start: u64,
    /// Session end, in seconds since the Unix epoch.
    pub end: u64,
    /// Keystrokes observed during the session.
    pub keystrokes: u64,
    /// Typing speed over the session in hundredths of words per minute,
    /// when one could be computed.
    pub wpm_hundredths: Option<u64>,
}

/// Statistics aggregated over one calendar day.
#[derive(Clone, Debug, PartialEq, Eq)]
pub struct DayStats {
    /// Total keystrokes for the day.
    pub keystrokes: u64,
    /// Number of typing sessions for the day.
    pub sessions: u64,
    /// Hour of day with most activity (0-23), when known.
    pub most_active_hour: Option<u8>,
    /// Presses per key code for the day; codes are unique.
    pub key_distribution: Vec<(u16, u64)>,
}

/// The statistics aggregate.
#[derive(Clone, Debug, PartialEq, Eq)]
pub struct KeyStats {
    /// Presses per key code; codes are unique, in order of first press.
    pub key_counts: Vec<(u16, u64)>,
    /// The most recent key codes, oldest first, at most [`RECENT_CAP`] entries.
    pub key_sequences: Vec<u16>,
    /// When the current session started, in seconds since the Unix epoch.
    pub session_start: u64,
    /// Total keystrokes since the session started.
    pub total_keystrokes: u64,
    /// Archive of closed past sessions.
    pub typing_sessions: Vec<TypingSession>,
    /// Per-day buckets keyed by day number (`timestamp / SECS_PER_DAY`);
    /// day numbers are unique.
    pub daily_stats: Vec<(u64, DayStats)>,
}

/// Mathematical model of a day bucket.
#[verifier::ext_equal]
pub struct DayView {
    pub keystrokes: u64,
    pub sessions: u64,
    pub most_active_hour: Option<u8>,
    pub key_distribution: Seq<(u16, u64)>,
}

/// Mathematical model of the aggregate.
#[verifier::ext_equal]
pub struct StatsView {
    pub key_counts: Seq<(u16, u64)>,
    pub key_sequences: Seq<u16>,
    pub session_start: u64,
    pub total_keystrokes: u64,
    pub typing_sessions: Seq<TypingSession>,
    pub daily_stats: Seq<(u64, DayView)>,
}

impl View for DayStats {
    type V = DayView;

    open spec fn view(&self) -> DayView {
        DayView {
            keystrokes: self.keystrokes,
            sessions: self.sessions,
            most_active_hour: self.most_active_hour,
            key_distribution: self.key_distribution@,
        }
    }
}

/// The model of a day-bucket vector: each bucket replaced by its model.
pub open spec fn day_view(s: Seq<(u64, DayStats)>) -> Seq<(u64, DayView)> {
    s.map_values(|p: (u64, DayStats)| (p.0, p.1@))
}

impl View for KeyStats {
    type V = StatsView;

    open spec fn view(&self) -> StatsView {
        StatsView {
            key_counts: self.key_counts@,
            key_sequences: self.key_sequences@,
            session_start: self.session_start,
            total_keystrokes: self.total_keystrokes,
            typing_sessions: self.typing_sessions@,
            daily_stats: day_view(self.daily_stats@),
        }
    }
}

/// Sum of the per-key counts of `s`.
pub open spec fn sum_counts(s: Seq<(u16, u64)>) -> int
    decreases s.len(),
{
    if s.len() == 0 {
        0
    } else {
        sum_counts(s.drop_last()) + s.last().1
    }
}

/// Sum of the per-day keystroke counts of `s`.
pub open spec fn sum_day_keystrokes(s: Seq<(u64, DayView)>) -> int
    decreases s.len(),
{
    if s.len() == 0 {
        0
    } else {
        sum_day_keystrokes(s.drop_last()) + s.last().1.keystrokes
    }
}

/// All key codes in `s` are distinct.
pub open spec fn keys_distinct(s: Seq<(u16, u64)>) -> bool {
    forall|i: int, j: int| 0 <= i < j < s.len() ==> s[i].0 != s[j].0
}

/// All day numbers in `s` are distinct.
pub open spec fn days_distinct(s: Seq<(u64, DayView)>) -> bool {
    forall|i: int, j: int| 0 <= i < j < s.len() ==> s[i].0 != s[j].0
}

/// Some entry of `s` carries key code `code`.
pub open spec fn has_key(s: Seq<(u16, u64)>, code: u16) -> bool {
    exists|i: int| 0 <= i < s.len() && s[i].0 == code
}

/// Index of the entry carrying `code`; meaningful when `has_key` holds and
/// the codes are distinct.
pub open spec fn key_index(s: Seq<(u16, u64)>, code: u16) -> int {
    choose|i: int| 0 <= i < s.len() && s[i].0 == code
}

/// The count recorded for `code`, zero when absent.
pub open spec fn count_of(s: Seq<(u16, u64)>, code: u16) -> u64 {
    if has_key(s, code) {
        s[key_index(s, code)].1
    } else {
        0
    }
}

/// Some entry of `s` is the bucket of day `day`.
pub open spec fn has_day(s: Seq<(u64, DayView)>, day: u64) -> bool {
    exists|i: int| 0 <= i < s.len() && s[i].0 == day
}

/// Index of the bucket of day `day`; meaningful when `has_day` holds and
/// the day numbers are distinct.
pub open spec fn day_index(s: Seq<(u64, DayView)>, day: u64) -> int {
    choose|i: int| 0 <= i < s.len() && s[i].0 == day
}

/// One more press of `code`: the entry carrying `code` is incremented,
/// or a fresh entry with count 1 is appended.
pub open spec fn bump_key(s: Seq<(u16, u64)>, code: u16) -> Seq<(u16, u64)> {
    if has_key(s, code) {
        let i = key_index(s, code);
        s.update(i, (code, (s[i].1 + 1) as u64))
    } else {
        s.push((code, 1u64))
    }
}

/// A fresh day bucket holding the single press of `code`.
pub open spec fn fresh_day(code: u16) -> DayView {
    DayView {
        keystrokes: 1,
        sessions: 0,
        most_active_hour: None,
        key_distribution: seq![(code, 1u64)],
    }
}

/// One more press of `code` on day `day`: the bucket of `day` has its
/// keystroke count and its distribution entry for `code` incremented, or a
/// fresh bucket is appended.
pub open spec fn bump_day(s: Seq<(u64, DayView)>, day: u64, code: u16) -> Seq<(u64, DayView)> {
    if has_day(s, day) {
        let i = day_index(s, day);
        let d = s[i].1;
        s.update(
            i,
            (
                day,
                DayView {
                    keystrokes: (d.keystrokes + 1) as u64,
                    sessions: d.sessions,
                    most_active_hour: d.most_active_hour,
                    key_distribution: bump_key(d.key_distribution, code),
                },
            ),
        )
    } else {
        s.push((day, fresh_day(code)))
    }
}

/// `code` appended to the recent sequence, evicting the oldest entry once
/// the sequence would exceed [`RECENT_CAP`].
pub open spec fn push_recent(s: Seq<u16>, code: u16) -> Seq<u16> {
    let t = s.push(code);
    if t.len() > RECENT_CAP {
        t.drop_first()
    } else {
        t
    }
}

impl DayView {
    /// Well-formed day bucket: distribution codes are unique and sum to the
    /// bucket's keystroke count.
    pub open spec fn wf(self) -> bool {
        &&& keys_distinct(self.key_distribution)
        &&& sum_counts(self.key_distribution) == self.keystrokes
    }
}

impl StatsView {
    /// Well-formed aggregate: unique key codes whose counts sum to the total
    /// keystroke counter, a bounded recent sequence, and unique well-formed
    /// day buckets whose keystroke counts also sum to the total.
    pub open spec fn wf(self) -> bool {
        &&& keys_distinct(self.key_counts)
        &&& sum_counts(self.key_counts) == self.total_keystrokes
        &&& self.key_sequences.len() <= RECENT_CAP
        &&& days_distinct(self.daily_stats)
        &&& (forall|i: int| 0 <= i < self.daily_stats.len() ==> (#[trigger] self.daily_stats[i].1).wf())
        &&& sum_day_keystrokes(self.daily_stats) == self.total_keystrokes
    }

    /// The empty aggregate whose session starts at `now`.
    pub open spec fn fresh(now: u64) -> StatsView {
        StatsView {
            key_counts: Seq::empty(),
            key_sequences: Seq::empty(),
            session_start: now,
            total_keystrokes: 0,
            typing_sessions: Seq::empty(),
            daily_stats: Seq::empty(),
        }
    }

    /// The aggregate after one press of `code` at wall-clock time `now`.
    pub open spec fn record(self, code: u16, now: u64) -> StatsView {
        StatsView {
            key_counts: bump_key(self.key_counts, code),
            key_sequences: push_recent(self.key_sequences, code),
            session_start: self.session_start,
            total_keystrokes: (self.total_keystrokes + 1) as u64,
            typing_sessions: self.typing_sessions,
            daily_stats: bump_day(self.daily_stats, (now / SECS_PER_DAY) as u64, code),
        }
    }
}

/// Typing speed in hundredths of words per minute: a word is five
/// keystrokes, elapsed time has whole-second resolution. Absent below five
/// keystrokes or when no whole second has elapsed; saturates at `u64::MAX`.
pub open spec fn spec_wpm(total: u64, start: u64, now: u64) -> Option<u64> {
    if total < 5 {
        None
    } else if now <= start {
        None
    } else {
        let v = total * 1200 / (now - start);
        Some(
            if v > u64::MAX {
                u64::MAX
            } else {
                v as u64
            },
        )
    }
}

/// Ranking order for the top-key listing: higher count first, ties broken
/// by smaller key code.
pub open spec fn ranks_before(a: (u16, u64), b: (u16, u64)) -> bool {
    a.1 > b.1 || (a.1 == b.1 && a.0 < b.0)
}

/// Every earlier entry ranks before every later one.
pub open spec fn sorted_by_rank(s: Seq<(u16, u64)>) -> bool {
    forall|i: int, j: int|
        0 <= i < j < s.len() ==> ranks_before(#[trigger] s[i], #[trigger] s[j])
}

/// Decodes a raw transition value from the device boundary: 0 is a
/// release, 1 a press, 2 an auto-repeat; anything else is unknown and
/// yields `None`.
pub fn transition_from_value(value: i32) -> (r: Option<KeyTransition>)
    ensures
        r == if value == 0 {
            Some(KeyTransition::Up)
        } else if value == 1 {
            Some(KeyTransition::Down)
        } else if value == 2 {
            Some(KeyTransition::Repeat)
        } else {
            None::<KeyTransition>
        },
{
    if value == 0 {
        Some(KeyTransition::Up)
    } else if value == 1 {
        Some(KeyTransition::Down)
    } else if value == 2 {
        Some(KeyTransition::Repeat)
    } else {
        None
    }
}

/// Exec comparison deciding [`ranks_before`].
fn rank_lt(a: (u16, u64), b: (u16, u64)) -> (r: bool)
    ensures
        r == ranks_before(a, b),
{
    a.1 > b.1 || (a.1 == b.1 && a.0 < b.0)
}

/// `e` occurs in `s`.
pub open spec fn in_seq(s: Seq<(u16, u64)>, e: (u16, u64)) -> bool {
    exists|p: int| 0 <= p < s.len() && s[p] == e
}

/// Inserts `x` into a rank-sorted vector, keeping it sorted; `x`'s code
/// must not occur yet.
fn insert_sorted(v: &mut Vec<(u16, u64)>, x: (u16, u64))
    requires
        sorted_by_rank(old(v)@),
        forall|p: int| 0 <= p < old(v)@.len() ==> (#[trigger] old(v)@[p]).0 != x.0,
    ensures
        final(v)@.len() == old(v)@.len() + 1,
        sorted_by_rank(final(v)@),
        in_seq(final(v)@, x),
        forall|e: (u16, u64)| #[trigger] in_seq(old(v)@, e) ==> in_seq(final(v)@, e),
        forall|e: (u16, u64)| #[trigger] in_seq(final(v)@, e) ==> e == x || in_seq(old(v)@, e),
{
    let mut pos: usize = 0;
    while pos < v.len() && rank_lt(v[pos], x)
        invariant
            0 <= pos <= v@.len(),
            v@ == old(v)@,
            forall|j: int| 0 <= j < pos ==> ranks_before(#[trigger] v@[j], x),
        decreases v@.len() - pos,
    {
        pos = pos + 1;
    }
    proof {
        if pos < v@.len() {
            assert(!ranks_before(v@[pos as int], x));
            assert(v@[pos as int].0 != x.0);
            assert(ranks_before(x, v@[pos as int]));
        }
    }
    let ghost s0 = v@;
    v.insert(pos, x);
    proof {
        assert(v@ =~= s0.insert(pos as int, x));
        assert(forall|q: int| 0 <= q < pos ==> v@[q] == s0[q]);
        assert(v@[pos as int] == x);
        assert(forall|q: int| pos < q < v@.len() ==> v@[q] == s0[q - 1]);
        assert forall|p: int, q: int| 0 <= p < q < v@.len() implies ranks_before(
            #[trigger] v@[p],
            #[trigger] v@[q],
        ) by {
            if p < pos && q == pos {
            } else if p == pos && q > pos {
                assert(ranks_before(x, s0[pos as int]));
                assert(sorted_by_rank(s0));
            } else if p < pos && q > pos {
                if q - 1 == pos {
                    assert(ranks_before(s0[p], x));
                } else {
                    assert(ranks_before(s0[p], s0[q - 1]));
                }
            } else if p > pos && q > pos {
                assert(ranks_before(s0[p - 1], s0[q - 1]));
            }
        }
        assert(in_seq(v@, x)) by {
            assert(v@[pos as int] == x);
        }
        assert forall|e: (u16, u64)| #[trigger] in_seq(s0, e) implies in_seq(v@, e) by {
            let p = choose|p: int| 0 <= p < s0.len() && s0[p] == e;
            if p < pos {
                assert(v@[p] == e);
            } else {
                assert(v@[p + 1] == e);
            }
        }
        assert forall|e: (u16, u64)| #[trigger] in_seq(v@, e) implies e == x || in_seq(
            s0,
            e,
        ) by {
            let p = choose|p: int| 0 <= p < v@.len() && v@[p] == e;
            if p < pos {
                assert(s0[p] == e);
            } else if p > pos {
                assert(s0[p - 1] == e);
            }
        }
    }
}

/// Every count is bounded by the sum of all counts.
pub proof fn lemma_elem_le_sum(s: Seq<(u16, u64)>, i: int)
    requires
        0 <= i < s.len(),
    ensures
        s[i].1 <= sum_counts(s),
        sum_counts(s) >= 0,
    decreases s.len(),
{
    if i == s.len() - 1 {
        lemma_sum_nonneg(s.drop_last());
    } else {
        lemma_elem_le_sum(s.drop_last(), i);
    }
}

/// The sum of counts is never negative.
pub proof fn lemma_sum_nonneg(s: Seq<(u16, u64)>)
    ensures
        sum_counts(s) >= 0,
    decreases s.len(),
{
    if s.len() > 0 {
        lemma_sum_nonneg(s.drop_last());
    }
}

/// Replacing one entry changes the sum by the difference of the counts.
pub proof fn lemma_sum_update(s: Seq<(u16, u64)>, i: int, x: (u16, u64))
    requires
        0 <= i < s.len(),
    ensures
        sum_counts(s.update(i, x)) == sum_counts(s) - s[i].1 + x.1,
    decreases s.len(),
{
    if i == s.len() - 1 {
        assert(s.update(i, x).drop_last() =~= s.drop_last());
        assert(s.update(i, x).last() == x);
    } else {
        assert(s.update(i, x).drop_last() =~= s.drop_last().update(i, x));
        assert(s.update(i, x).last() == s.last());
        lemma_sum_update(s.drop_last(), i, x);
    }
}

/// Every day bucket's keystroke count is bounded by the sum over all days.
pub proof fn lemma_day_elem_le_sum(s: Seq<(u64, DayView)>, i: int)
    requires
        0 <= i < s.len(),
    ensures
        s[i].1.keystrokes <= sum_day_keystrokes(s),
        sum_day_keystrokes(s) >= 0,
    decreases s.len(),
{
    if i == s.len() - 1 {
        lemma_day_sum_nonneg(s.drop_last());
    } else {
        lemma_day_elem_le_sum(s.drop_last(), i);
    }
}

/// The sum of day keystroke counts is never negative.
pub proof fn lemma_day_sum_nonneg(s: Seq<(u64, DayView)>)
    ensures
        sum_day_keystrokes(s) >= 0,
    decreases s.len(),
{
    if s.len() > 0 {
        lemma_day_sum_nonneg(s.drop_last());
    }
}

/// Replacing one day bucket changes the sum by the difference of the counts.
pub proof fn lemma_day_sum_update(s: Seq<(u64, DayView)>, i: int, x: (u64, DayView))
    requires
        0 <= i < s.len(),
    ensures
        sum_day_keystrokes(s.update(i, x)) == sum_day_keystrokes(s) - s[i].1.keystrokes
            + x.1.keystrokes,
    decreases s.len(),
{
    if i == s.len() - 1 {
        assert(s.update(i, x).drop_last() =~= s.drop_last());
        assert(s.update(i, x).last() == x);
    } else {
        assert(s.update(i, x).drop_last() =~= s.drop_last().update(i, x));
        assert(s.update(i, x).last() == s.last());
        lemma_day_sum_update(s.drop_last(), i, x);
    }
}

/// Concatenated count lists sum part by part.
pub proof fn lemma_sum_concat(a: Seq<(u16, u64)>, b: Seq<(u16, u64)>)
    ensures
        sum_counts(a + b) == sum_counts(a) + sum_counts(b),
    decreases b.len(),
{
    if b.len() == 0 {
        assert(a + b =~= a);
    } else {
        assert((a + b).drop_last() =~= a + b.drop_last());
        assert((a + b).last() == b.last());
        lemma_sum_concat(a, b.drop_last());
    }
}

/// Concatenated day lists sum part by part.
pub proof fn lemma_day_sum_concat(a: Seq<(u64, DayView)>, b: Seq<(u64, DayView)>)
    ensures
        sum_day_keystrokes(a + b) == sum_day_keystrokes(a) + sum_day_keystrokes(b),
    decreases b.len(),
{
    if b.len() == 0 {
        assert(a + b =~= a);
    } else {
        assert((a + b).drop_last() =~= a + b.drop_last());
        assert((a + b).last() == b.last());
        lemma_day_sum_concat(a, b.drop_last());
    }
}

/// Decides whether the key codes of `v` are distinct.
pub fn check_keys_distinct(v: &Vec<(u16, u64)>) -> (r: bool)
    ensures
        r == keys_distinct(v@),
{
    let n = v.len();
    let mut i: usize = 0;
    while i < n
        invariant
            n == v@.len(),
            0 <= i <= n,
            forall|p: int, q: int| 0 <= p < q < v@.len() && p < i ==> v@[p].0 != v@[q].0,
        decreases n - i,
    {
        let mut j: usize = i + 1;
        while j < n
            invariant
                n == v@.len(),
                0 <= i < j <= n,
                forall|q: int| i < q < j ==> v@[i as int].0 != v@[q].0,
            decreases n - j,
        {
            if v[i].0 == v[j].0 {
                return false;
            }
            j = j + 1;
        }
        i = i + 1;
    }
    true
}

/// Sums the counts of `v`, or `None` when the sum exceeds `u64::MAX`.
pub fn sum_counts_checked(v: &Vec<(u16, u64)>) -> (r: Option<u64>)
    ensures
        r matches Some(s) ==> s == sum_counts(v@),
        r is None ==> sum_counts(v@) > u64::MAX,
{
    let n = v.len();
    let mut acc: u64 = 0;
    let mut i: usize = 0;
    while i < n
        invariant
            n == v@.len(),
            0 <= i <= n,
            acc == sum_counts(v@.take(i as int)),
        decreases n - i,
    {
        let c = v[i].1;
        proof {
            assert(v@.take(i + 1).drop_last() =~= v@.take(i as int));
            assert(v@.take(i + 1).last() == v@[i as int]);
        }
        if acc > u64::MAX - c {
            proof {
                assert(sum_counts(v@.take(i + 1)) > u64::MAX);
                lemma_sum_concat(v@.take(i + 1), v@.skip(i + 1));
                assert(v@.take(i + 1) + v@.skip(i + 1) =~= v@);
                lemma_sum_nonneg(v@.skip(i + 1));
            }
            return None;
        }
        acc = acc + c;
        i = i + 1;
    }
    proof {
        assert(v@.take(n as int) =~= v@);
    }
    Some(acc)
}

/// Decides whether the day numbers of `v` are distinct.
pub fn check_days_distinct(v: &Vec<(u64, DayStats)>) -> (r: bool)
    ensures
        r == days_distinct(day_view(v@)),
{
    let n = v.len();
    let mut i: usize = 0;
    while i < n
        invariant
            n == v@.len(),
            0 <= i <= n,
            forall|p: int, q: int| 0 <= p < q < v@.len() && p < i ==> v@[p].0 != v@[q].0,
        decreases n - i,
    {
        let mut j: usize = i + 1;
        while j < n
            invariant
                n == v@.len(),
                0 <= i < j <= n,
                forall|q: int| i < q < j ==> v@[i as int].0 != v@[q].0,
            decreases n - j,
        {
            if v[i].0 == v[j].0 {
                proof {
                    assert(day_view(v@)[i as int].0 == v@[i as int].0);
                    assert(day_view(v@)[j as int].0 == v@[j as int].0);
                }
                return false;
            }
            j = j + 1;
        }
        i = i + 1;
    }
    proof {
        assert forall|p: int, q: int|
            0 <= p < q < day_view(v@).len() implies (#[trigger] day_view(v@)[p]).0 != (
        #[trigger] day_view(v@)[q]).0 by {
            assert(day_view(v@)[p].0 == v@[p].0);
            assert(day_view(v@)[q].0 == v@[q].0);
        }
    }
    true
}

/// Sums the day keystroke counts of `v`, or `None` when the sum exceeds
/// `u64::MAX`.
pub fn sum_days_checked(v: &Vec<(u64, DayStats)>) -> (r: Option<u64>)
    ensures
        r matches Some(s) ==> s == sum_day_keystrokes(day_view(v@)),
        r is None ==> sum_day_keystrokes(day_view(v@)) > u64::MAX,
{
    let ghost dv = day_view(v@);
    let n = v.len();
    let mut acc: u64 = 0;
    let mut i: usize = 0;
    while i < n
        invariant
            n == v@.len(),
            dv == day_view(v@),
            dv.len() == n,
            0 <= i <= n,
            acc == sum_day_keystrokes(dv.take(i as int)),
        decreases n - i,
    {
        let c = v[i].1.keystrokes;
        proof {
            assert(dv.take(i + 1).drop_last() =~= dv.take(i as int));
            assert(dv.take(i + 1).last() == dv[i as int]);
            assert(dv[i as int].1.keystrokes == v@[i as int].1.keystrokes);
        }
        if acc > u64::MAX - c {
            proof {
                assert(sum_day_keystrokes(dv.take(i + 1)) > u64::MAX);
                lemma_day_sum_concat(dv.take(i + 1), dv.skip(i + 1));
                assert(dv.take(i + 1) + dv.skip(i + 1) =~= dv);
                lemma_day_sum_nonneg(dv.skip(i + 1));
            }
            return None;
        }
        acc = acc + c;
        i = i + 1;
    }
    proof {
        assert(dv.take(n as int) =~= dv);
    }
    Some(acc)
}

/// With distinct codes, any entry carrying `code` is the one `key_index` picks.
pub proof fn lemma_key_index_unique(s: Seq<(u16, u64)>, i: int)
    requires
        keys_distinct(s),
        0 <= i < s.len(),
    ensures
        has_key(s, s[i].0),
        key_index(s, s[i].0) == i,
{
    let code = s[i].0;
    assert(has_key(s, code));
    let j = key_index(s, code);
    assert(0 <= j < s.len() && s[j].0 == code);
    if i < j {
        assert(s[i].0 != s[j].0);
    } else if j < i {
        assert(s[j].0 != s[i].0);
    }
}

/// With distinct day numbers, any bucket of `day` is the one `day_index` picks.
pub proof fn lemma_day_index_unique(s: Seq<(u64, DayView)>, i: int)
    requires
        days_distinct(s),
        0 <= i < s.len(),
    ensures
        has_day(s, s[i].0),
        day_index(s, s[i].0) == i,
{
    let day = s[i].0;
    assert(has_day(s, day));
    let j = day_index(s, day);
    assert(0 <= j < s.len() && s[j].0 == day);
    if i < j {
        assert(s[i].0 != s[j].0);
    } else if j < i {
        assert(s[j].0 != s[i].0);
    }
}

/// Bumping a key keeps the codes distinct and raises the sum by one.
pub proof fn lemma_bump_key(s: Seq<(u16, u64)>, code: u16)
    requires
        keys_distinct(s),
        count_of(s, code) < u64::MAX,
    ensures
        keys_distinct(bump_key(s, code)),
        sum_counts(bump_key(s, code)) == sum_counts(s) + 1,
        count_of(bump_key(s, code), code) == count_of(s, code) + 1,
{
    let t = bump_key(s, code);
    if has_key(s, code) {
        let i = key_index(s, code);
        assert(0 <= i < s.len() && s[i].0 == code);
        lemma_sum_update(s, i, (code, (s[i].1 + 1) as u64));
        assert forall|p: int, q: int| 0 <= p < q < t.len() implies t[p].0 != t[q].0 by {
            assert(s[p].0 != s[q].0);
        }
        lemma_key_index_unique(t, i);
    } else {
        assert(t.drop_last() =~= s);
        assert forall|p: int, q: int| 0 <= p < q < t.len() implies t[p].0 != t[q].0 by {
            if q < s.len() {
                assert(s[p].0 != s[q].0);
            } else {
                assert(t[q].0 == code);
                assert(!(s[p].0 == code)) by {
                    if s[p].0 == code {
                        assert(has_key(s, code));
                    }
                }
            }
        }
        lemma_key_index_unique(t, s.len() as int);
    }
}

/// The presses of `events` whose transition is `Down`, in order.
pub open spec fn downs(events: Seq<KeyPress>) -> Seq<KeyPress> {
    events.filter(|p: KeyPress| p.transition == KeyTransition::Down)
}

/// No more presses come out of the `Down` filter than went in.
pub proof fn lemma_downs_len(events: Seq<KeyPress>)
    ensures
        downs(events).len() <= events.len(),
    decreases events.len(),
{
    reveal(Seq::filter);
    if events.len() > 0 {
        lemma_downs_len(events.drop_last());
    }
}

/// The key codes of a press sequence, in order.
pub open spec fn codes_of(ps: Seq<KeyPress>) -> Seq<u16> {
    ps.map_values(|p: KeyPress| p.code)
}

/// The last [`RECENT_CAP`] entries of a full key history (all of it when
/// shorter).
pub open spec fn recent_window(s: Seq<u16>) -> Seq<u16> {
    if s.len() <= RECENT_CAP {
        s
    } else {
        s.skip(s.len() - RECENT_CAP)
    }
}

impl StatsView {
    /// The aggregate after recording every press of `ps`, in order.
    pub open spec fn record_all(self, ps: Seq<KeyPress>) -> StatsView
        decreases ps.len(),
    {
        if ps.len() == 0 {
            self
        } else {
            self.record_all(ps.drop_last()).record(ps.last().code, ps.last().timestamp)
        }
    }
}

/// Recording one press preserves well-formedness and raises the total by
/// one; the session start and archive are untouched.
pub proof fn lemma_record_preserves_wf(v: StatsView, code: u16, now: u64)
    requires
        v.wf(),
        v.total_keystrokes < u64::MAX,
    ensures
        v.record(code, now).wf(),
        v.record(code, now).total_keystrokes == v.total_keystrokes + 1,
        v.record(code, now).session_start == v.session_start,
        v.record(code, now).typing_sessions == v.typing_sessions,
{
    if has_key(v.key_counts, code) {
        lemma_elem_le_sum(v.key_counts, key_index(v.key_counts, code));
    }
    lemma_bump_key(v.key_counts, code);
    let day = (now / SECS_PER_DAY) as u64;
    if has_day(v.daily_stats, day) {
        let i = day_index(v.daily_stats, day);
        lemma_day_elem_le_sum(v.daily_stats, i);
        let d = v.daily_stats[i].1;
        assert(d.wf());
        if has_key(d.key_distribution, code) {
            lemma_elem_le_sum(d.key_distribution, key_index(d.key_distribution, code));
        }
    }
    lemma_bump_day(v.daily_stats, day, code);
}

/// Recording a press sequence preserves well-formedness and raises the
/// total by the number of presses. In particular the count invariant —
/// the per-key counts sum to the total — holds after every call.
pub proof fn lemma_record_all_wf(v: StatsView, ps: Seq<KeyPress>)
    requires
        v.wf(),
        v.total_keystrokes + ps.len() <= u64::MAX,
    ensures
        v.record_all(ps).wf(),
        v.record_all(ps).total_keystrokes == v.total_keystrokes + ps.len(),
        v.record_all(ps).session_start == v.session_start,
        sum_counts(v.record_all(ps).key_counts) == v.total_keystrokes + ps.len(),
    decreases ps.len(),
{
    if ps.len() > 0 {
        lemma_record_all_wf(v, ps.drop_last());
        lemma_record_preserves_wf(v.record_all(ps.drop_last()), ps.last().code, ps.last().timestamp);
    }
}

/// Pushing onto a trimmed history window is the same as trimming the
/// extended history.
proof fn lemma_window_absorb(h: Seq<u16>, c: u16)
    ensures
        push_recent(recent_window(h), c) == recent_window(h.push(c)),
{
    if h.len() < RECENT_CAP {
        assert(push_recent(recent_window(h), c) =~= recent_window(h.push(c)));
    } else {
        assert(push_recent(recent_window(h), c) =~= recent_window(h.push(c)));
    }
}

/// Bounded recency: after recording `ps`, the recent sequence is exactly
/// the last [`RECENT_CAP`] entries (all of them when fewer) of the key
/// history — the starting recent sequence followed by the recorded codes,
/// in call order.
pub proof fn lemma_bounded_recency(v: StatsView, ps: Seq<KeyPress>)
    requires
        v.key_sequences.len() <= RECENT_CAP,
    ensures
        v.record_all(ps).key_sequences == recent_window(v.key_sequences + codes_of(ps)),
        v.record_all(ps).key_sequences.len() == if v.key_sequences.len() + ps.len() <= RECENT_CAP {
            (v.key_sequences.len() + ps.len()) as int
        } else {
            RECENT_CAP as int
        },
    decreases ps.len(),
{
    if ps.len() == 0 {
        assert(v.key_sequences + codes_of(ps) =~= v.key_sequences);
    } else {
        lemma_bounded_recency(v, ps.drop_last());
        let h = v.key_sequences + codes_of(ps.drop_last());
        lemma_window_absorb(h, ps.last().code);
        assert(h.push(ps.last().code) =~= v.key_sequences + codes_of(ps));
    }
}

/// Bounded recency from an empty aggregate: after recording `ps`, the
/// recent sequence is exactly the last [`RECENT_CAP`] recorded key codes
/// (all of them when fewer), in call order.
pub proof fn lemma_recency_from_fresh(now: u64, ps: Seq<KeyPress>)
    ensures
        StatsView::fresh(now).record_all(ps).key_sequences == recent_window(codes_of(ps)),
        StatsView::fresh(now).record_all(ps).key_sequences.len() == if ps.len() <= RECENT_CAP {
            ps.len() as int
        } else {
            RECENT_CAP as int
        },
{
    lemma_bounded_recency(StatsView::fresh(now), ps);
    assert(Seq::<u16>::empty() + codes_of(ps) =~= codes_of(ps));
}

/// Bumping a day keeps the day numbers distinct, keeps every bucket
/// well-formed, and raises the sum of day keystroke counts by one.
pub proof fn lemma_bump_day(s: Seq<(u64, DayView)>, day: u64, code: u16)
    requires
        days_distinct(s),
        forall|i: int| 0 <= i < s.len() ==> (#[trigger] s[i].1).wf(),
        has_day(s, day) ==> s[day_index(s, day)].1.keystrokes < u64::MAX && count_of(
            s[day_index(s, day)].1.key_distribution,
            code,
        ) < u64::MAX,
    ensures
        days_distinct(bump_day(s, day, code)),
        forall|i: int|
            0 <= i < bump_day(s, day, code).len() ==> (#[trigger] bump_day(s, day, code)[i].1).wf(),
        sum_day_keystrokes(bump_day(s, day, code)) == sum_day_keystrokes(s) + 1,
{
    let t = bump_day(s, day, code);
    if has_day(s, day) {
        let i = day_index(s, day);
        assert(0 <= i < s.len() && s[i].0 == day);
        let d = s[i].1;
        lemma_bump_key(d.key_distribution, code);
        lemma_day_sum_update(s, i, t[i]);
        assert forall|p: int, q: int| 0 <= p < q < t.len() implies t[p].0 != t[q].0 by {
            assert(s[p].0 != s[q].0);
        }
        assert forall|p: int| 0 <= p < t.len() implies (#[trigger] t[p].1).wf() by {
            if p != i {
                assert(t[p].1 == s[p].1);
            }
        }
    } else {
        assert(t.drop_last() =~= s);
        assert(sum_counts(seq![(code, 1u64)].drop_last()) == 0);
        assert(fresh_day(code).wf());
        assert forall|p: int, q: int| 0 <= p < q < t.len() implies t[p].0 != t[q].0 by {
            if q < s.len() {
                assert(s[p].0 != s[q].0);
            } else {
                assert(t[q].0 == day);
                if s[p].0 == day {
                    assert(has_day(s, day));
                }
            }
        }
        assert forall|p: int| 0 <= p < t.len() implies (#[trigger] t[p].1).wf() by {
            if p < s.len() {
                assert(t[p].1 == s[p].1);
            }
        }
    }
}

/// Increments the count of `code` in a per-key count vector, appending a
/// fresh entry with count 1 when `code` is absent.
fn bump_count_vec(v: &mut Vec<(u16, u64)>, code: u16)
    requires
        keys_distinct(old(v)@),
        count_of(old(v)@, code) < u64::MAX,
    ensures
        final(v)@ == bump_key(old(v)@, code),
{
    let n = v.len();
    let mut i: usize = 0;
    while i < n
        invariant
            n == v@.len(),
            0 <= i <= n,
            keys_distinct(v@),
            count_of(v@, code) < u64::MAX,
            v@ == old(v)@,
            forall|j: int| 0 <= j < i ==> v@[j].0 != code,
        decreases n - i,
    {
        if v[i].0 == code {
            proof {
                lemma_key_index_unique(v@, i as int);
            }
            let c = v[i].1;
            assert(c == count_of(v@, code));
            v[i] = (code, c + 1);
            assert(v@ =~= bump_key(old(v)@, code));
            return ;
        }
        i = i + 1;
    }
    assert(!has_key(v@, code));
    v.push((code, 1));
    assert(v@ =~= bump_key(old(v)@, code));
}

/// Applies one press of `code` to the bucket of `day`, appending a fresh
/// bucket when the day is absent.
fn bump_day_vec(v: &mut Vec<(u64, DayStats)>, day: u64, code: u16)
    requires
        days_distinct(day_view(old(v)@)),
        forall|i: int|
            0 <= i < old(v)@.len() ==> (#[trigger] day_view(old(v)@)[i].1).wf(),
        has_day(day_view(old(v)@), day) ==> {
            let d = day_view(old(v)@)[day_index(day_view(old(v)@), day)].1;
            d.keystrokes < u64::MAX && count_of(d.key_distribution, code) < u64::MAX
        },
    ensures
        day_view(final(v)@) == bump_day(day_view(old(v)@), day, code),
{
    let ghost dv0 = day_view(old(v)@);
    let n = v.len();
    let mut i: usize = 0;
    while i < n
        invariant
            n == v@.len(),
            0 <= i <= n,
            v@ == old(v)@,
            dv0 == day_view(old(v)@),
            days_distinct(dv0),
            forall|j: int| 0 <= j < v@.len() ==> (#[trigger] dv0[j].1).wf(),
            has_day(dv0, day) ==> {
                let d = dv0[day_index(dv0, day)].1;
                d.keystrokes < u64::MAX && count_of(d.key_distribution, code) < u64::MAX
            },
            forall|j: int| 0 <= j < i ==> v@[j].0 != day,
        decreases n - i,
    {
        if v[i].0 == day {
            proof {
                assert(dv0[i as int] == (v@[i as int].0, v@[i as int].1@));
                lemma_day_index_unique(dv0, i as int);
            }
            let mut entry = v.remove(i);
            assert(entry.1@ == dv0[i as int].1);
            entry.1.keystrokes = entry.1.keystrokes + 1;
            bump_count_vec(&mut entry.1.key_distribution, code);
            v.insert(i, entry);
            proof {
                assert(v@ =~= old(v)@.update(i as int, entry));
                assert forall|j: int| 0 <= j < v@.len() implies day_view(v@)[j] == bump_day(
                    dv0,
                    day,
                    code,
                )[j] by {
                    assert(day_view(v@)[j] == (v@[j].0, v@[j].1@));
                    if j != i {
                        assert(v@[j] == old(v)@[j]);
                    }
                }
                assert(day_view(v@) =~= bump_day(dv0, day, code));
            }
            return ;
        }
        i = i + 1;
    }
    proof {
        assert forall|j: int| 0 <= j < dv0.len() implies dv0[j].0 != day by {
            assert(dv0[j] == (v@[j].0, v@[j].1@));
        }
        assert(!has_day(dv0, day));
    }
    let mut dist: Vec<(u16, u64)> = Vec::new();
    dist.push((code, 1));
    v.push(
        (
            day,
            DayStats {
                keystrokes: 1,
                sessions: 0,
                most_active_hour: None,
                key_distribution: dist,
            },
        ),
    );
    proof {
        assert forall|j: int| 0 <= j < v@.len() implies day_view(v@)[j] == bump_day(
            dv0,
            day,
            code,
        )[j] by {
            assert(day_view(v@)[j] == (v@[j].0, v@[j].1@));
            if j < dv0.len() {
                assert(v@[j] == old(v)@[j]);
            } else {
                assert(v@[j].1@.key_distribution =~= seq![(code, 1u64)]);
                assert(v@[j].1@ =~= fresh_day(code));
            }
        }
        assert(day_view(v@) =~= bump_day(dv0, day, code));
    }
}

impl KeyStats {
    /// Well-formed aggregate; see [`StatsView::wf`].
    pub open spec fn wf(self) -> bool {
        self@.wf()
    }

    /// Records one key press: increments the count of `code` (creating its
    /// entry at 1 when absent), increments the total, appends `code` to the
    /// recent sequence evicting the oldest entry beyond [`RECENT_CAP`], and
    /// updates the day bucket of `now` (seconds since the Unix epoch).
    /// Key-up and key-repeat transitions never reach this operation.
    pub fn add_keypress(&mut self, code: u16, now: u64)
        requires
            old(self).wf(),
            old(self).total_keystrokes < u64::MAX,
        ensures
            final(self)@ == old(self)@.record(code, now),
            final(self).wf(),
            final(self).total_keystrokes == old(self).total_keystrokes + 1,
            sum_counts(final(self)@.key_counts) == final(self).total_keystrokes,
    {
        let ghost v0 = self@;
        proof {
            if has_key(v0.key_counts, code) {
                lemma_key_index_unique(v0.key_counts, key_index(v0.key_counts, code));
                lemma_elem_le_sum(v0.key_counts, key_index(v0.key_counts, code));
            }
        }
        bump_count_vec(&mut self.key_counts, code);
        proof {
            lemma_bump_key(v0.key_counts, code);
        }
        self.total_keystrokes = self.total_keystrokes + 1;
        self.key_sequences.push(code);
        if self.key_sequences.len() > RECENT_CAP {
            self.key_sequences.remove(0);
        }
        proof {
            assert(self.key_sequences@ =~= push_recent(v0.key_sequences, code));
        }
        let day = now / SECS_PER_DAY;
        proof {
            if has_day(v0.daily_stats, day) {
                let i = day_index(v0.daily_stats, day);
                lemma_day_index_unique(v0.daily_stats, i);
                lemma_day_elem_le_sum(v0.daily_stats, i);
                let d = v0.daily_stats[i].1;
                if has_key(d.key_distribution, code) {
                    lemma_key_index_unique(d.key_distribution, key_index(d.key_distribution, code));
                    lemma_elem_le_sum(d.key_distribution, key_index(d.key_distribution, code));
                }
            }
        }
        bump_day_vec(&mut self.daily_stats, day, code);
        proof {
            lemma_bump_day(v0.daily_stats, day, code);
            assert(self@ =~= v0.record(code, now));
        }
    }

    /// Creates an empty aggregate whose session starts at `now`
    /// (seconds since the Unix epoch).
    pub fn new(now: u64) -> (s: KeyStats)
        ensures
            s@ == StatsView::fresh(now),
            s.wf(),
    {
        let s = KeyStats {
            key_counts: Vec::new(),
            key_sequences: Vec::new(),
            session_start: now,
            total_keystrokes: 0,
            typing_sessions: Vec::new(),
            daily_stats: Vec::new(),
        };
        proof {
            assert(s@.daily_stats =~= StatsView::fresh(now).daily_stats);
            assert(s@ == StatsView::fresh(now));
        }
        s
    }

    /// Typing speed for the current session, in hundredths of words per
    /// minute (rounded down; a word is five keystrokes), at wall-clock
    /// time `now` (seconds since the Unix epoch). Absent below five
    /// keystrokes and whenever no whole second has elapsed since the
    /// session started; huge values saturate at `u64::MAX` hundredths.
    pub fn get_wpm(&self, now: u64) -> (r: Option<u64>)
        ensures
            r == spec_wpm(self.total_keystrokes, self.session_start, now),
    {
        if self.total_keystrokes < 5 {
            return None;
        }
        if now <= self.session_start {
            return None;
        }
        let elapsed = now - self.session_start;
        let v = (self.total_keystrokes as u128) * 1200 / (elapsed as u128);
        if v > u64::MAX as u128 {
            Some(u64::MAX)
        } else {
            Some(v as u64)
        }
    }

    /// The `limit` most pressed keys with their counts, ordered by count
    /// descending; ties are broken by key code ascending (the documented
    /// deterministic tie-break).
    #[verifier::rlimit(100)]
    pub fn get_top_keys(&self, limit: usize) -> (r: Vec<(u16, u64)>)
        requires
            self.wf(),
        ensures
            r@.len() == if limit <= self@.key_counts.len() {
                limit as int
            } else {
                self@.key_counts.len() as int
            },
            sorted_by_rank(r@),
            forall|i: int|
                0 <= i < r@.len() ==> has_key(self@.key_counts, (#[trigger] r@[i]).0) && r@[i].1
                    == count_of(self@.key_counts, r@[i].0),
            forall|i: int|
                0 <= i < self@.key_counts.len() && !has_key(r@, (#[trigger] self@.key_counts[i]).0)
                    ==> forall|j: int|
                    0 <= j < r@.len() ==> ranks_before(#[trigger] r@[j], self@.key_counts[i]),
    {
        let ghost kc = self@.key_counts;
        let n = self.key_counts.len();
        let mut sorted: Vec<(u16, u64)> = Vec::new();
        let mut i: usize = 0;
        while i < n
            invariant
                n == kc.len(),
                kc == self@.key_counts,
                keys_distinct(kc),
                0 <= i <= n,
                sorted@.len() == i,
                sorted_by_rank(sorted@),
                forall|j: int| 0 <= j < i ==> in_seq(sorted@, #[trigger] kc[j]),
                forall|e: (u16, u64)|
                    #[trigger] in_seq(sorted@, e) ==> exists|j: int| 0 <= j < i && kc[j] == e,
            decreases n - i,
        {
            let x = self.key_counts[i];
            proof {
                assert forall|p: int| 0 <= p < sorted@.len() implies (#[trigger] sorted@[p]).0
                    != x.0 by {
                    assert(in_seq(sorted@, sorted@[p]));
                    let j = choose|j: int| 0 <= j < i && kc[j] == sorted@[p];
                    assert(kc[j].0 != kc[i as int].0);
                }
            }
            let ghost prev = sorted@;
            insert_sorted(&mut sorted, x);
            proof {
                assert forall|j: int| 0 <= j < i + 1 implies in_seq(
                    sorted@,
                    #[trigger] kc[j],
                ) by {
                    if j < i {
                        assert(in_seq(prev, kc[j]));
                    }
                }
                assert forall|e: (u16, u64)| #[trigger] in_seq(sorted@, e) implies exists|j: int|
                    0 <= j < i + 1 && kc[j] == e by {
                    if e == x {
                        assert(kc[i as int] == e);
                    } else {
                        assert(in_seq(prev, e));
                        let j = choose|j: int| 0 <= j < i && kc[j] == e;
                        assert(0 <= j < i + 1 && kc[j] == e);
                    }
                }
            }
            i = i + 1;
        }
        let ghost full = sorted@;
        if limit < sorted.len() {
            sorted.truncate(limit);
        }
        proof {
            assert(sorted@ =~= full.take(sorted@.len() as int));
            assert forall|q: int|
                0 <= q < sorted@.len() implies has_key(kc, (#[trigger] sorted@[q]).0) && sorted@[q].1
                == count_of(kc, sorted@[q].0) by {
                assert(in_seq(full, full[q]));
                let j = choose|j: int| 0 <= j < n && kc[j] == full[q];
                lemma_key_index_unique(kc, j);
            }
            let m = sorted@.len() as int;
            assert forall|j: int|
                0 <= j < kc.len() && !has_key(
                    sorted@,
                    (#[trigger] kc[j]).0,
                ) implies forall|q: int| 0 <= q < m ==> ranks_before(
                #[trigger] sorted@[q],
                kc[j],
            ) by {
                assert(in_seq(full, kc[j]));
                let p = choose|p: int| 0 <= p < full.len() && full[p] == kc[j];
                assert(p >= m) by {
                    if p < m {
                        assert(sorted@[p] == kc[j]);
                    }
                }
                assert forall|q: int| 0 <= q < m implies ranks_before(
                    #[trigger] sorted@[q],
                    kc[j],
                ) by {
                    assert(ranks_before(full[q], full[p]));
                }
            }
        }
        sorted
    }

    /// Decides well-formedness; used to validate decoded aggregates.
    pub fn check_wf(&self) -> (r: bool)
        ensures
            r == self.wf(),
    {
        if !check_keys_distinct(&self.key_counts) {
            return false;
        }
        match sum_counts_checked(&self.key_counts) {
            None => {
                return false;
            },
            Some(t) => {
                if t != self.total_keystrokes {
                    return false;
                }
            },
        }
        if self.key_sequences.len() > RECENT_CAP {
            return false;
        }
        if !check_days_distinct(&self.daily_stats) {
            return false;
        }
        let ghost dv = day_view(self.daily_stats@);
        let n = self.daily_stats.len();
        let mut i: usize = 0;
        while i < n
            invariant
                n == self.daily_stats@.len(),
                dv == day_view(self.daily_stats@),
                dv.len() == n,
                0 <= i <= n,
                forall|j: int| 0 <= j < i ==> (#[trigger] dv[j].1).wf(),
            decreases n - i,
        {
            proof {
                assert(dv[i as int].1 == self.daily_stats@[i as int].1@);
            }
            if !check_keys_distinct(&self.daily_stats[i].1.key_distribution) {
                proof {
                    assert(!dv[i as int].1.wf());
                }
                return false;
            }
            match sum_counts_checked(&self.daily_stats[i].1.key_distribution) {
                None => {
                    proof {
                        assert(!dv[i as int].1.wf());
                    }
                    return false;
                },
                Some(t) => {
                    if t != self.daily_stats[i].1.keystrokes {
                        proof {
                            assert(!dv[i as int].1.wf());
                        }
                        return false;
                    }
                },
            }
            proof {
                assert(dv[i as int].1.wf());
            }
            i = i + 1;
        }
        match sum_days_checked(&self.daily_stats) {
            None => {
                return false;
            },
            Some(t) => {
                if t != self.total_keystrokes {
                    return false;
                }
            },
        }
        true
    }

    /// The recorded press count of `code`, zero when `code` was never
    /// pressed.
    pub fn get_count(&self, code: u16) -> (r: u64)
        requires
            self.wf(),
        ensures
            r == count_of(self@.key_counts, code),
    {
        let n = self.key_counts.len();
        let mut i: usize = 0;
        while i < n
            invariant
                n == self.key_counts@.len(),
                0 <= i <= n,
                keys_distinct(self@.key_counts),
                forall|j: int| 0 <= j < i ==> self.key_counts@[j].0 != code,
            decreases n - i,
        {
            if self.key_counts[i].0 == code {
                proof {
                    lemma_key_index_unique(self@.key_counts, i as int);
                }
                return self.key_counts[i].1;
            }
            i = i + 1;
        }
        assert(!has_key(self@.key_counts, code));
        0
    }

    /// Discards every statistic and starts a fresh session at `now`:
    /// the counts, the recent sequence, the day buckets and the session
    /// archive are emptied together with the total, and `session_start`
    /// becomes `now` — a full replacement, never a partial clear.
    pub fn reset(&mut self, now: u64)
        ensures
            final(self)@ == StatsView::fresh(now),
            final(self).wf(),
    {
        let s = KeyStats::new(now);
        *self = s;
    }
}

} // verus!
