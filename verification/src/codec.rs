//! Durable text encoding of the aggregate, with a proved round trip.
//!
//! The format is line-based and human-diffable: one decimal number per
//! line, ending in a newline. The first number is a format version; the
//! remaining numbers flatten the aggregate with explicit length prefixes.
//! [`decode`] accepts exactly the well-formed aggregates and tolerates any
//! corrupt input by returning `None`; [`lemma_round_trip`] proves that
//! decoding an encoding restores the aggregate.

use vstd::prelude::*;

use crate::stats::DayStats;
use crate::stats::day_view;
use crate::stats::DayView;
use crate::stats::KeyStats;
use crate::stats::StatsView;
use crate::stats::TypingSession;

verus! {

/// Version number leading every encoded aggregate.
pub const FORMAT_VERSION: u64 = 1;

/// ASCII newline, the line terminator of the format.
pub const NEWLINE: u8 = 10;

/// ASCII decimal digit.
pub open spec fn is_digit(b: u8) -> bool {
    48 <= b <= 57
}

/// Every byte of `s` is an ASCII decimal digit.
pub open spec fn all_digits(s: Seq<u8>) -> bool {
    forall|i: int| 0 <= i < s.len() ==> is_digit(#[trigger] s[i])
}

/// The decimal digits of `n`, most significant first.
pub open spec fn dec_digits(n: nat) -> Seq<u8>
    decreases n,
{
    if n < 10 {
        seq![(48 + n) as u8]
    } else {
        dec_digits(n / 10).push((48 + n % 10) as u8)
    }
}

/// The value of a digit run, most significant first.
pub open spec fn val_of(s: Seq<u8>) -> int
    decreases s.len(),
{
    if s.len() == 0 {
        0
    } else {
        val_of(s.drop_last()) * 10 + s.last() - 48
    }
}

/// Rendering `n` yields at least one digit, only digits, and a run whose
/// value is `n` again.
pub proof fn lemma_dec_digits(n: nat)
    ensures
        dec_digits(n).len() >= 1,
        all_digits(dec_digits(n)),
        val_of(dec_digits(n)) == n,
    decreases n,
{
    if n < 10 {
        assert(dec_digits(n) =~= seq![(48 + n) as u8]);
        assert(val_of(dec_digits(n)) == val_of(dec_digits(n).drop_last()) * 10 + (48 + n) - 48);
        assert(dec_digits(n).drop_last() =~= Seq::<u8>::empty());
    } else {
        lemma_dec_digits(n / 10);
        let d = (48 + n % 10) as u8;
        assert(dec_digits(n) == dec_digits(n / 10).push(d));
        assert(dec_digits(n).drop_last() =~= dec_digits(n / 10));
        assert(dec_digits(n).last() == d);
        assert(n / 10 * 10 + n % 10 == n) by {
            vstd::arithmetic::div_mod::lemma_fundamental_div_mod(n as int, 10);
        }
        assert forall|i: int| 0 <= i < dec_digits(n).len() implies is_digit(
            #[trigger] dec_digits(n)[i],
        ) by {
            if i < dec_digits(n / 10).len() {
                assert(dec_digits(n)[i] == dec_digits(n / 10)[i]);
            }
        }
    }
}

/// Index of the first newline of `s`, or -1 when there is none.
pub open spec fn find_nl(s: Seq<u8>) -> int
    decreases s.len(),
{
    if s.len() == 0 {
        -1
    } else if s[0] == NEWLINE {
        0
    } else {
        let r = find_nl(s.drop_first());
        if r < 0 {
            -1
        } else {
            r + 1
        }
    }
}

/// What `find_nl` finds: the first newline when there is one.
pub proof fn lemma_find_nl(s: Seq<u8>)
    ensures
        find_nl(s) < 0 ==> forall|j: int| 0 <= j < s.len() ==> s[j] != NEWLINE,
        find_nl(s) >= 0 ==> {
            &&& find_nl(s) < s.len()
            &&& s[find_nl(s)] == NEWLINE
            &&& forall|j: int| 0 <= j < find_nl(s) ==> s[j] != NEWLINE
        },
    decreases s.len(),
{
    if s.len() == 0 {
    } else if s[0] == NEWLINE {
    } else {
        lemma_find_nl(s.drop_first());
        let r = find_nl(s.drop_first());
        if r < 0 {
            assert forall|j: int| 0 <= j < s.len() implies s[j] != NEWLINE by {
                if j > 0 {
                    assert(s.drop_first()[j - 1] != NEWLINE);
                }
            }
        } else {
            assert(s[r + 1] == s.drop_first()[r]);
            assert forall|j: int| 0 <= j < r + 1 implies s[j] != NEWLINE by {
                if j > 0 {
                    assert(s.drop_first()[j - 1] != NEWLINE);
                }
            }
        }
    }
}

/// The numbers of `s`, one per newline-terminated line of decimal digits;
/// `None` on any stray byte, unterminated line, empty line, or value
/// beyond `u64::MAX`.
pub open spec fn parse_nums(s: Seq<u8>) -> Option<Seq<u64>>
    decreases s.len(),
{
    if s.len() == 0 {
        Some(Seq::empty())
    } else {
        let k = find_nl(s);
        if !(0 <= k < s.len()) {
            None
        } else {
            let line = s.take(k);
            if line.len() >= 1 && all_digits(line) && val_of(line) <= u64::MAX {
                match parse_nums(s.skip(k + 1)) {
                    None => None,
                    Some(ns) => Some(seq![val_of(line) as u64] + ns),
                }
            } else {
                None
            }
        }
    }
}

/// One line per number: its decimal digits and a newline.
pub open spec fn render(ns: Seq<u64>) -> Seq<u8>
    decreases ns.len(),
{
    if ns.len() == 0 {
        Seq::empty()
    } else {
        dec_digits(ns[0] as nat).push(NEWLINE) + render(ns.drop_first())
    }
}

/// Parsing a rendering restores the numbers.
pub proof fn lemma_parse_render(ns: Seq<u64>)
    ensures
        parse_nums(render(ns)) == Some(ns),
    decreases ns.len(),
{
    if ns.len() == 0 {
        assert(render(ns).len() == 0);
        assert(parse_nums(render(ns)) == Some(Seq::<u64>::empty()));
        assert(ns =~= Seq::<u64>::empty());
    } else {
        let n = ns[0];
        lemma_dec_digits(n as nat);
        let digits = dec_digits(n as nat);
        let m = digits.len() as int;
        let s = render(ns);
        assert(s == digits.push(NEWLINE) + render(ns.drop_first()));
        assert(s.len() == m + 1 + render(ns.drop_first()).len());
        assert forall|j: int| 0 <= j < m implies s[j] != NEWLINE by {
            assert(s[j] == digits[j]);
            assert(is_digit(digits[j]));
        }
        assert(s[m] == NEWLINE);
        lemma_find_nl(s);
        assert(find_nl(s) == m) by {
            let k = find_nl(s);
            if k < 0 {
                assert(s[m] != NEWLINE);
            } else if k < m {
                assert(s[k] != NEWLINE);
            } else if k > m {
                assert(s[m] != NEWLINE);
            }
        }
        assert(s.take(m) =~= digits);
        assert(s.skip(m + 1) =~= render(ns.drop_first()));
        lemma_parse_render(ns.drop_first());
        assert(val_of(digits) == n);
        assert(parse_nums(s) == Some(seq![n] + ns.drop_first()));
        assert(seq![n] + ns.drop_first() =~= ns);
    }
}

/// Flattened per-key counts: code then count, for each entry in order.
pub open spec fn flat_pairs(ps: Seq<(u16, u64)>) -> Seq<u64>
    decreases ps.len(),
{
    if ps.len() == 0 {
        Seq::empty()
    } else {
        seq![ps[0].0 as u64, ps[0].1] + flat_pairs(ps.drop_first())
    }
}

/// Flattened recent-key codes.
pub open spec fn flat_codes(cs: Seq<u16>) -> Seq<u64>
    decreases cs.len(),
{
    if cs.len() == 0 {
        Seq::empty()
    } else {
        seq![cs[0] as u64] + flat_codes(cs.drop_first())
    }
}

/// One archived session: start, end, keystrokes, then its typing speed as
/// a presence flag and a value.
pub open spec fn flat_session(t: TypingSession) -> Seq<u64> {
    seq![
        t.start,
        t.end,
        t.keystrokes,
        if t.wpm_hundredths is Some {
            1u64
        } else {
            0u64
        },
        match t.wpm_hundredths {
            Some(w) => w,
            None => 0u64,
        },
    ]
}

/// Flattened session archive.
pub open spec fn flat_sessions(ts: Seq<TypingSession>) -> Seq<u64>
    decreases ts.len(),
{
    if ts.len() == 0 {
        Seq::empty()
    } else {
        flat_session(ts[0]) + flat_sessions(ts.drop_first())
    }
}

/// One day bucket: day number, keystrokes, sessions, the most active hour
/// as a presence flag and a value, then the length-prefixed distribution.
pub open spec fn flat_day(d: (u64, DayView)) -> Seq<u64> {
    seq![
        d.0,
        d.1.keystrokes,
        d.1.sessions,
        if d.1.most_active_hour is Some {
            1u64
        } else {
            0u64
        },
        match d.1.most_active_hour {
            Some(h) => h as u64,
            None => 0u64,
        },
        d.1.key_distribution.len() as u64,
    ] + flat_pairs(d.1.key_distribution)
}

/// Flattened day buckets.
pub open spec fn flat_days(ds: Seq<(u64, DayView)>) -> Seq<u64>
    decreases ds.len(),
{
    if ds.len() == 0 {
        Seq::empty()
    } else {
        flat_day(ds[0]) + flat_days(ds.drop_first())
    }
}

/// The whole aggregate as numbers: version, session start, total, then
/// the four length-prefixed collections.
pub open spec fn flat(v: StatsView) -> Seq<u64> {
    seq![FORMAT_VERSION, v.session_start, v.total_keystrokes, v.key_counts.len() as u64]
        + flat_pairs(v.key_counts) + seq![v.key_sequences.len() as u64] + flat_codes(
        v.key_sequences,
    ) + seq![v.typing_sessions.len() as u64] + flat_sessions(v.typing_sessions) + seq![
        v.daily_stats.len() as u64,
    ] + flat_days(v.daily_stats)
}

/// Collection lengths fit the length prefixes; true of every aggregate
/// held in vectors.
pub open spec fn bounded(v: StatsView) -> bool {
    &&& v.key_counts.len() <= u64::MAX
    &&& v.key_sequences.len() <= u64::MAX
    &&& v.typing_sessions.len() <= u64::MAX
    &&& v.daily_stats.len() <= u64::MAX
    &&& forall|i: int|
        0 <= i < v.daily_stats.len() ==> (#[trigger] v.daily_stats[i]).1.key_distribution.len()
            <= u64::MAX
}

/// Reads `k` per-key count entries at cursor `i`.
pub open spec fn read_pairs(ns: Seq<u64>, i: int, k: nat) -> Option<(Seq<(u16, u64)>, int)>
    decreases k,
{
    if k == 0 {
        Some((Seq::empty(), i))
    } else if 0 <= i && i + 2 <= ns.len() && ns[i] <= u16::MAX {
        match read_pairs(ns, i + 2, (k - 1) as nat) {
            None => None,
            Some((tail, j)) => Some((seq![(ns[i] as u16, ns[i + 1])] + tail, j)),
        }
    } else {
        None
    }
}

/// Reads `k` recent-key codes at cursor `i`.
pub open spec fn read_codes(ns: Seq<u64>, i: int, k: nat) -> Option<(Seq<u16>, int)>
    decreases k,
{
    if k == 0 {
        Some((Seq::empty(), i))
    } else if 0 <= i && i + 1 <= ns.len() && ns[i] <= u16::MAX {
        match read_codes(ns, i + 1, (k - 1) as nat) {
            None => None,
            Some((tail, j)) => Some((seq![ns[i] as u16] + tail, j)),
        }
    } else {
        None
    }
}

/// Reads `k` archived sessions at cursor `i`.
pub open spec fn read_sessions(ns: Seq<u64>, i: int, k: nat) -> Option<(Seq<TypingSession>, int)>
    decreases k,
{
    if k == 0 {
        Some((Seq::empty(), i))
    } else if 0 <= i && i + 5 <= ns.len() && ns[i + 3] <= 1 {
        match read_sessions(ns, i + 5, (k - 1) as nat) {
            None => None,
            Some((tail, j)) => Some(
                (
                    seq![
                        TypingSession {
                            start: ns[i],
                            end: ns[i + 1],
                            keystrokes: ns[i + 2],
                            wpm_hundredths: if ns[i + 3] == 1 {
                                Some(ns[i + 4])
                            } else {
                                None
                            },
                        },
                    ] + tail,
                    j,
                ),
            ),
        }
    } else {
        None
    }
}

/// Reads `k` day buckets at cursor `i`.
pub open spec fn read_days(ns: Seq<u64>, i: int, k: nat) -> Option<(Seq<(u64, DayView)>, int)>
    decreases k,
{
    if k == 0 {
        Some((Seq::empty(), i))
    } else if 0 <= i && i + 6 <= ns.len() && ns[i + 3] <= 1 && ns[i + 4] <= u8::MAX {
        match read_pairs(ns, i + 6, ns[i + 5] as nat) {
            None => None,
            Some((dist, j)) => match read_days(ns, j, (k - 1) as nat) {
                None => None,
                Some((tail, j2)) => Some(
                    (
                        seq![
                            (
                                ns[i],
                                DayView {
                                    keystrokes: ns[i + 1],
                                    sessions: ns[i + 2],
                                    most_active_hour: if ns[i + 3] == 1 {
                                        Some(ns[i + 4] as u8)
                                    } else {
                                        None
                                    },
                                    key_distribution: dist,
                                },
                            ),
                        ] + tail,
                        j2,
                    ),
                ),
            },
        }
    } else {
        None
    }
}

/// Rebuilds an aggregate from the flattened numbers; `None` on any
/// malformed or trailing data.
pub open spec fn unflat(ns: Seq<u64>) -> Option<StatsView> {
    if ns.len() < 4 || ns[0] != FORMAT_VERSION {
        None
    } else {
        match read_pairs(ns, 4, ns[3] as nat) {
            None => None,
            Some((kc, i1)) => if 0 <= i1 < ns.len() {
                match read_codes(ns, i1 + 1, ns[i1] as nat) {
                    None => None,
                    Some((ks, i2)) => if 0 <= i2 < ns.len() {
                        match read_sessions(ns, i2 + 1, ns[i2] as nat) {
                            None => None,
                            Some((ts, i3)) => if 0 <= i3 < ns.len() {
                                match read_days(ns, i3 + 1, ns[i3] as nat) {
                                    None => None,
                                    Some((ds, i4)) => if i4 == ns.len() {
                                        Some(
                                            StatsView {
                                                key_counts: kc,
                                                key_sequences: ks,
                                                session_start: ns[1],
                                                total_keystrokes: ns[2],
                                                typing_sessions: ts,
                                                daily_stats: ds,
                                            },
                                        )
                                    } else {
                                        None
                                    },
                                }
                            } else {
                                None
                            },
                        }
                    } else {
                        None
                    },
                }
            } else {
                None
            },
        }
    }
}

/// What an encoded aggregate's bytes hold.
pub open spec fn spec_encode(v: StatsView) -> Seq<u8> {
    render(flat(v))
}

/// What decoding yields: the well-formed aggregate the bytes encode, or
/// `None` on anything malformed.
pub open spec fn spec_decode(s: Seq<u8>) -> Option<StatsView> {
    match parse_nums(s) {
        None => None,
        Some(ns) => match unflat(ns) {
            None => None,
            Some(v) => if v.wf() {
                Some(v)
            } else {
                None
            },
        },
    }
}

/// A flattened count list holds two numbers per entry.
pub proof fn lemma_flat_pairs_len(ps: Seq<(u16, u64)>)
    ensures
        flat_pairs(ps).len() == 2 * ps.len(),
    decreases ps.len(),
{
    if ps.len() > 0 {
        lemma_flat_pairs_len(ps.drop_first());
    }
}

/// A flattened code list holds one number per entry.
pub proof fn lemma_flat_codes_len(cs: Seq<u16>)
    ensures
        flat_codes(cs).len() == cs.len(),
    decreases cs.len(),
{
    if cs.len() > 0 {
        lemma_flat_codes_len(cs.drop_first());
    }
}

/// A flattened session archive holds five numbers per entry.
pub proof fn lemma_flat_sessions_len(ts: Seq<TypingSession>)
    ensures
        flat_sessions(ts).len() == 5 * ts.len(),
    decreases ts.len(),
{
    if ts.len() > 0 {
        lemma_flat_sessions_len(ts.drop_first());
    }
}

/// Reading flattened count entries back restores them and leaves the
/// cursor right after them.
pub proof fn lemma_read_pairs_inv(ns: Seq<u64>, i: int, ps: Seq<(u16, u64)>)
    requires
        0 <= i,
        i + 2 * ps.len() <= ns.len(),
        ns.subrange(i, i + 2 * ps.len()) == flat_pairs(ps),
    ensures
        read_pairs(ns, i, ps.len()) == Some((ps, i + 2 * ps.len())),
    decreases ps.len(),
{
    lemma_flat_pairs_len(ps);
    if ps.len() == 0 {
        assert(read_pairs(ns, i, 0) == Some((Seq::<(u16, u64)>::empty(), i)));
        assert(ps =~= Seq::<(u16, u64)>::empty());
    } else {
        let sub = ns.subrange(i, i + 2 * ps.len());
        assert(ns[i] == sub[0]);
        assert(ns[i + 1] == sub[1]);
        assert(sub[0] == ps[0].0 as u64);
        assert(sub[1] == ps[0].1);
        lemma_flat_pairs_len(ps.drop_first());
        assert(ns.subrange(i + 2, i + 2 + 2 * ps.drop_first().len()) =~= flat_pairs(
            ps.drop_first(),
        )) by {
            assert forall|q: int| 0 <= q < 2 * ps.drop_first().len() implies ns.subrange(
                i + 2,
                i + 2 + 2 * ps.drop_first().len(),
            )[q] == flat_pairs(ps.drop_first())[q] by {
                assert(ns[i + 2 + q] == sub[2 + q]);
                assert(sub[2 + q] == flat_pairs(ps)[2 + q]);
                assert(flat_pairs(ps)[2 + q] == flat_pairs(ps.drop_first())[q]);
            }
        }
        lemma_read_pairs_inv(ns, i + 2, ps.drop_first());
        assert(seq![(ns[i] as u16, ns[i + 1])] + ps.drop_first() =~= ps);
    }
}

/// Reading flattened codes back restores them.
pub proof fn lemma_read_codes_inv(ns: Seq<u64>, i: int, cs: Seq<u16>)
    requires
        0 <= i,
        i + cs.len() <= ns.len(),
        ns.subrange(i, i + cs.len()) == flat_codes(cs),
    ensures
        read_codes(ns, i, cs.len()) == Some((cs, i + cs.len())),
    decreases cs.len(),
{
    lemma_flat_codes_len(cs);
    if cs.len() == 0 {
        assert(cs =~= Seq::<u16>::empty());
    } else {
        let sub = ns.subrange(i, i + cs.len());
        assert(ns[i] == sub[0]);
        assert(sub[0] == cs[0] as u64);
        lemma_flat_codes_len(cs.drop_first());
        assert(ns.subrange(i + 1, i + 1 + cs.drop_first().len()) =~= flat_codes(
            cs.drop_first(),
        )) by {
            assert forall|q: int| 0 <= q < cs.drop_first().len() implies ns.subrange(
                i + 1,
                i + 1 + cs.drop_first().len(),
            )[q] == flat_codes(cs.drop_first())[q] by {
                assert(ns[i + 1 + q] == sub[1 + q]);
                assert(sub[1 + q] == flat_codes(cs)[1 + q]);
                assert(flat_codes(cs)[1 + q] == flat_codes(cs.drop_first())[q]);
            }
        }
        lemma_read_codes_inv(ns, i + 1, cs.drop_first());
        assert(seq![ns[i] as u16] + cs.drop_first() =~= cs);
    }
}

/// Reading flattened sessions back restores them.
pub proof fn lemma_read_sessions_inv(ns: Seq<u64>, i: int, ts: Seq<TypingSession>)
    requires
        0 <= i,
        i + 5 * ts.len() <= ns.len(),
        ns.subrange(i, i + 5 * ts.len()) == flat_sessions(ts),
    ensures
        read_sessions(ns, i, ts.len()) == Some((ts, i + 5 * ts.len())),
    decreases ts.len(),
{
    lemma_flat_sessions_len(ts);
    if ts.len() == 0 {
        assert(ts =~= Seq::<TypingSession>::empty());
    } else {
        let sub = ns.subrange(i, i + 5 * ts.len());
        let t = ts[0];
        assert forall|q: int| 0 <= q < 5 implies ns[i + q] == flat_session(t)[q] by {
            assert(ns[i + q] == sub[q]);
            assert(sub[q] == flat_sessions(ts)[q]);
        }
        assert(ns[i + 3] == flat_session(t)[3]);
        assert(ns[i + 3] <= 1);
        lemma_flat_sessions_len(ts.drop_first());
        assert(ns.subrange(i + 5, i + 5 + 5 * ts.drop_first().len()) =~= flat_sessions(
            ts.drop_first(),
        )) by {
            assert forall|q: int| 0 <= q < 5 * ts.drop_first().len() implies ns.subrange(
                i + 5,
                i + 5 + 5 * ts.drop_first().len(),
            )[q] == flat_sessions(ts.drop_first())[q] by {
                assert(ns[i + 5 + q] == sub[5 + q]);
                assert(sub[5 + q] == flat_sessions(ts)[5 + q]);
                assert(flat_sessions(ts)[5 + q] == flat_sessions(ts.drop_first())[q]);
            }
        }
        lemma_read_sessions_inv(ns, i + 5, ts.drop_first());
        let read0 = TypingSession {
            start: ns[i],
            end: ns[i + 1],
            keystrokes: ns[i + 2],
            wpm_hundredths: if ns[i + 3] == 1 {
                Some(ns[i + 4])
            } else {
                None
            },
        };
        assert(read0 == t) by {
            if t.wpm_hundredths is Some {
                assert(ns[i + 3] == 1);
                assert(ns[i + 4] == t.wpm_hundredths->0);
            } else {
                assert(ns[i + 3] == 0);
            }
        }
        assert(seq![read0] + ts.drop_first() =~= ts);
    }
}

/// Reading flattened day buckets back restores them.
pub proof fn lemma_read_days_inv(ns: Seq<u64>, i: int, ds: Seq<(u64, DayView)>)
    requires
        0 <= i,
        i + flat_days(ds).len() <= ns.len(),
        ns.subrange(i, i + flat_days(ds).len()) == flat_days(ds),
        forall|q: int| 0 <= q < ds.len() ==> (#[trigger] ds[q]).1.key_distribution.len()
            <= u64::MAX,
    ensures
        read_days(ns, i, ds.len()) == Some((ds, i + flat_days(ds).len())),
    decreases ds.len(),
{
    if ds.len() == 0 {
        assert(ds =~= Seq::<(u64, DayView)>::empty());
    } else {
        let d = ds[0];
        let dist = d.1.key_distribution;
        lemma_flat_pairs_len(dist);
        let head = flat_day(d);
        let hlen = head.len() as int;
        assert(hlen == 6 + 2 * dist.len());
        let sub = ns.subrange(i, i + flat_days(ds).len());
        assert(flat_days(ds) == head + flat_days(ds.drop_first()));
        assert forall|q: int| 0 <= q < hlen implies ns[i + q] == head[q] by {
            assert(ns[i + q] == sub[q]);
            assert(sub[q] == flat_days(ds)[q]);
        }
        assert(head[0] == d.0);
        assert(head[1] == d.1.keystrokes);
        assert(head[2] == d.1.sessions);
        assert(head[3] == if d.1.most_active_hour is Some {
            1u64
        } else {
            0u64
        });
        assert(head[4] == match d.1.most_active_hour {
            Some(hr) => hr as u64,
            None => 0u64,
        });
        assert(head[5] == dist.len() as u64);
        assert(ns[i + 3] <= 1 && ns[i + 4] <= u8::MAX) by {
            assert(ns[i + 3] == head[3]);
            assert(ns[i + 4] == head[4]);
        }
        assert(ns[i + 5] == head[5]);
        assert(ns[i + 5] == dist.len() as u64);
        assert(ns.subrange(i + 6, i + 6 + 2 * dist.len()) =~= flat_pairs(dist)) by {
            assert forall|q: int| 0 <= q < 2 * dist.len() implies ns.subrange(
                i + 6,
                i + 6 + 2 * dist.len(),
            )[q] == flat_pairs(dist)[q] by {
                assert(ns[i + 6 + q] == sub[6 + q]);
                assert(sub[6 + q] == flat_days(ds)[6 + q]);
                assert(flat_days(ds)[6 + q] == head[6 + q]);
                assert(head[6 + q] == flat_pairs(dist)[q]);
            }
        }
        lemma_read_pairs_inv(ns, i + 6, dist);
        assert(read_pairs(ns, i + 6, ns[i + 5] as nat) == Some((dist, i + hlen)));
        assert(ns.subrange(i + hlen, i + hlen + flat_days(ds.drop_first()).len()) =~= flat_days(
            ds.drop_first(),
        )) by {
            assert forall|q: int| 0 <= q < flat_days(ds.drop_first()).len() implies ns.subrange(
                i + hlen,
                i + hlen + flat_days(ds.drop_first()).len(),
            )[q] == flat_days(ds.drop_first())[q] by {
                assert(ns[i + hlen + q] == sub[hlen + q]);
                assert(sub[hlen + q] == flat_days(ds)[hlen + q]);
                assert(flat_days(ds)[hlen + q] == flat_days(ds.drop_first())[q]);
            }
        }
        assert forall|q: int| 0 <= q < ds.drop_first().len() implies (#[trigger] ds.drop_first()[q]).1.key_distribution.len()
            <= u64::MAX by {
            assert(ds.drop_first()[q] == ds[q + 1]);
        }
        lemma_read_days_inv(ns, i + hlen, ds.drop_first());
        let read0 = (
            ns[i],
            DayView {
                keystrokes: ns[i + 1],
                sessions: ns[i + 2],
                most_active_hour: if ns[i + 3] == 1 {
                    Some(ns[i + 4] as u8)
                } else {
                    None
                },
                key_distribution: dist,
            },
        );
        assert(read0.0 == d.0) by {
            assert(ns[i] == head[0]);
        }
        assert(read0.1 =~= d.1) by {
            assert(ns[i + 1] == head[1]);
            assert(ns[i + 2] == head[2]);
            assert(ns[i + 3] == head[3]);
            assert(ns[i + 4] == head[4]);
            if d.1.most_active_hour is Some {
                assert(ns[i + 3] == 1);
                assert(ns[i + 4] == d.1.most_active_hour->0 as u64);
            } else {
                assert(ns[i + 3] == 0);
            }
        }
        assert(seq![read0] + ds.drop_first() =~= ds);
    }
}

/// Rebuilding from a flattening restores the aggregate.
pub proof fn lemma_unflat_flat(v: StatsView)
    requires
        bounded(v),
    ensures
        unflat(flat(v)) == Some(v),
{
    let ns = flat(v);
    let b = flat_pairs(v.key_counts).len() as int;
    let d = flat_codes(v.key_sequences).len() as int;
    let f = flat_sessions(v.typing_sessions).len() as int;
    let h = flat_days(v.daily_stats).len() as int;
    lemma_flat_pairs_len(v.key_counts);
    lemma_flat_codes_len(v.key_sequences);
    lemma_flat_sessions_len(v.typing_sessions);
    assert(ns.len() == 4 + b + 1 + d + 1 + f + 1 + h);
    assert(ns[0] == FORMAT_VERSION);
    assert(ns[1] == v.session_start);
    assert(ns[2] == v.total_keystrokes);
    assert(ns[3] == v.key_counts.len() as u64);
    assert(ns.subrange(4, 4 + b) =~= flat_pairs(v.key_counts));
    lemma_read_pairs_inv(ns, 4, v.key_counts);
    let i1 = 4 + b;
    assert(ns[i1] == v.key_sequences.len() as u64);
    assert(ns.subrange(i1 + 1, i1 + 1 + d) =~= flat_codes(v.key_sequences));
    lemma_read_codes_inv(ns, i1 + 1, v.key_sequences);
    let i2 = i1 + 1 + d;
    assert(ns[i2] == v.typing_sessions.len() as u64);
    assert(ns.subrange(i2 + 1, i2 + 1 + f) =~= flat_sessions(v.typing_sessions));
    lemma_read_sessions_inv(ns, i2 + 1, v.typing_sessions);
    let i3 = i2 + 1 + f;
    assert(ns[i3] == v.daily_stats.len() as u64);
    assert(ns.subrange(i3 + 1, i3 + 1 + h) =~= flat_days(v.daily_stats));
    lemma_read_days_inv(ns, i3 + 1, v.daily_stats);
    let i4 = i3 + 1 + h;
    assert(i4 == ns.len());
    assert(unflat(ns) == Some(
        StatsView {
            key_counts: v.key_counts,
            key_sequences: v.key_sequences,
            session_start: ns[1],
            total_keystrokes: ns[2],
            typing_sessions: v.typing_sessions,
            daily_stats: v.daily_stats,
        },
    ));
    assert(StatsView {
        key_counts: v.key_counts,
        key_sequences: v.key_sequences,
        session_start: ns[1],
        total_keystrokes: ns[2],
        typing_sessions: v.typing_sessions,
        daily_stats: v.daily_stats,
    } =~= v);
}

/// Appending a count entry extends its flattening at the end.
proof fn lemma_flat_pairs_snoc(ps: Seq<(u16, u64)>, p: (u16, u64))
    ensures
        flat_pairs(ps.push(p)) == flat_pairs(ps) + seq![p.0 as u64, p.1],
    decreases ps.len(),
{
    reveal_with_fuel(flat_pairs, 3);
    if ps.len() == 0 {
        assert(ps.push(p).drop_first() =~= Seq::<(u16, u64)>::empty());
        assert(flat_pairs(ps.push(p)) =~= flat_pairs(ps) + seq![p.0 as u64, p.1]);
    } else {
        assert(ps.push(p).drop_first() =~= ps.drop_first().push(p));
        lemma_flat_pairs_snoc(ps.drop_first(), p);
        assert(flat_pairs(ps.push(p)) =~= flat_pairs(ps) + seq![p.0 as u64, p.1]);
    }
}

/// Appending a code extends its flattening at the end.
proof fn lemma_flat_codes_snoc(cs: Seq<u16>, c: u16)
    ensures
        flat_codes(cs.push(c)) == flat_codes(cs) + seq![c as u64],
    decreases cs.len(),
{
    reveal_with_fuel(flat_codes, 3);
    if cs.len() == 0 {
        assert(cs.push(c).drop_first() =~= Seq::<u16>::empty());
        assert(flat_codes(cs.push(c)) =~= flat_codes(cs) + seq![c as u64]);
    } else {
        assert(cs.push(c).drop_first() =~= cs.drop_first().push(c));
        lemma_flat_codes_snoc(cs.drop_first(), c);
        assert(flat_codes(cs.push(c)) =~= flat_codes(cs) + seq![c as u64]);
    }
}

/// Appending a session extends its flattening at the end.
proof fn lemma_flat_sessions_snoc(ts: Seq<TypingSession>, t: TypingSession)
    ensures
        flat_sessions(ts.push(t)) == flat_sessions(ts) + flat_session(t),
    decreases ts.len(),
{
    reveal_with_fuel(flat_sessions, 3);
    if ts.len() == 0 {
        assert(ts.push(t).drop_first() =~= Seq::<TypingSession>::empty());
        assert(flat_sessions(ts.push(t)) =~= flat_sessions(ts) + flat_session(t));
    } else {
        assert(ts.push(t).drop_first() =~= ts.drop_first().push(t));
        lemma_flat_sessions_snoc(ts.drop_first(), t);
        assert(flat_sessions(ts.push(t)) =~= flat_sessions(ts) + flat_session(t));
    }
}

/// Appending a day bucket extends its flattening at the end.
proof fn lemma_flat_days_snoc(ds: Seq<(u64, DayView)>, d: (u64, DayView))
    ensures
        flat_days(ds.push(d)) == flat_days(ds) + flat_day(d),
    decreases ds.len(),
{
    reveal_with_fuel(flat_days, 3);
    if ds.len() == 0 {
        assert(ds.push(d).drop_first() =~= Seq::<(u64, DayView)>::empty());
        assert(flat_days(ds.push(d)) =~= flat_days(ds) + flat_day(d));
    } else {
        assert(ds.push(d).drop_first() =~= ds.drop_first().push(d));
        lemma_flat_days_snoc(ds.drop_first(), d);
        assert(flat_days(ds.push(d)) =~= flat_days(ds) + flat_day(d));
    }
}

/// Appending a number extends a rendering by one line.
proof fn lemma_render_snoc(ns: Seq<u64>, n: u64)
    ensures
        render(ns.push(n)) == render(ns) + dec_digits(n as nat).push(NEWLINE),
    decreases ns.len(),
{
    reveal_with_fuel(render, 3);
    if ns.len() == 0 {
        assert(ns.push(n).drop_first() =~= Seq::<u64>::empty());
        assert(render(ns.push(n)) =~= render(ns) + dec_digits(n as nat).push(NEWLINE));
    } else {
        assert(ns.push(n).drop_first() =~= ns.drop_first().push(n));
        lemma_render_snoc(ns.drop_first(), n);
        assert(render(ns.push(n)) =~= render(ns) + dec_digits(n as nat).push(NEWLINE));
    }
}

/// Appends one line to `out`: the decimal digits of `n` and a newline.
fn push_dec(out: &mut Vec<u8>, n: u64)
    ensures
        final(out)@ == old(out)@ + dec_digits(n as nat).push(NEWLINE),
{
    if n == 0 {
        out.push(48);
        out.push(NEWLINE);
        proof {
            assert(dec_digits(0) =~= seq![48u8]);
            assert(out@ =~= old(out)@ + dec_digits(0).push(NEWLINE));
        }
        return ;
    }
    let mut tmp: Vec<u8> = Vec::new();
    let ghost mut done: Seq<u8> = Seq::empty();
    let mut m = n;
    while m > 0
        invariant
            m > 0 ==> dec_digits(n as nat) == dec_digits(m as nat) + done,
            m == 0 ==> dec_digits(n as nat) == done,
            tmp@.len() == done.len(),
            forall|q: int| 0 <= q < tmp@.len() ==> tmp@[q] == done[done.len() - 1 - q],
        decreases m,
    {
        let d = 48 + (m % 10) as u8;
        let ghost done0 = done;
        tmp.push(d);
        proof {
            done = seq![d] + done0;
        }
        proof {
            if m / 10 > 0 {
                assert(dec_digits(m as nat) == dec_digits((m as nat) / 10).push(d));
                assert(dec_digits((m as nat) / 10).push(d) + done0 =~= dec_digits((m as nat) / 10)
                    + done);
                assert((m / 10) as nat == (m as nat) / 10);
            } else {
                assert(m < 10);
                assert(dec_digits(m as nat) =~= seq![d]);
                assert(dec_digits(m as nat) + done0 =~= done);
            }
            assert forall|q: int| 0 <= q < tmp@.len() implies tmp@[q] == done[done.len() - 1
                - q] by {
                if q < tmp@.len() - 1 {
                    assert(tmp@[q] == done0[done0.len() - 1 - q]);
                    assert(done[done.len() - 1 - q] == done0[done0.len() - 1 - q]);
                }
            }
        }
        m = m / 10;
    }
    let count = tmp.len();
    let mut q: usize = 0;
    while q < count
        invariant
            count == tmp@.len(),
            tmp@.len() == done.len(),
            0 <= q <= count,
            dec_digits(n as nat) == done,
            forall|p: int| 0 <= p < tmp@.len() ==> tmp@[p] == done[done.len() - 1 - p],
            out@ == old(out)@ + done.take(q as int),
        decreases count - q,
    {
        out.push(tmp[count - 1 - q]);
        proof {
            assert(tmp@[count - 1 - q] == done[q as int]);
            assert(done.take(q + 1) =~= done.take(q as int).push(done[q as int]));
            assert(out@ =~= old(out)@ + done.take(q + 1));
        }
        q = q + 1;
    }
    out.push(NEWLINE);
    proof {
        assert(done.take(done.len() as int) =~= done);
        assert(out@ =~= old(out)@ + dec_digits(n as nat).push(NEWLINE));
    }
}

/// Encodes the aggregate as the durable line-based text, as bytes.
pub fn encode(s: &KeyStats) -> (out: Vec<u8>)
    ensures
        out@ == spec_encode(s@),
{
    let mut nums: Vec<u64> = Vec::new();
    nums.push(FORMAT_VERSION);
    nums.push(s.session_start);
    nums.push(s.total_keystrokes);
    nums.push(s.key_counts.len() as u64);
    let ghost header = nums@;
    let ghost kc = s@.key_counts;
    let n1 = s.key_counts.len();
    let mut i: usize = 0;
    while i < n1
        invariant
            n1 == kc.len(),
            kc == s@.key_counts,
            0 <= i <= n1,
            header == seq![
                FORMAT_VERSION,
                s.session_start,
                s.total_keystrokes,
                (kc.len() as u64),
            ],
            nums@ == header + flat_pairs(kc.take(i as int)),
        decreases n1 - i,
    {
        let p = s.key_counts[i];
        nums.push(p.0 as u64);
        nums.push(p.1);
        proof {
            lemma_flat_pairs_snoc(kc.take(i as int), p);
            assert(kc.take(i + 1) =~= kc.take(i as int).push(p));
            assert(nums@ =~= header + flat_pairs(kc.take(i + 1)));
        }
        i = i + 1;
    }
    proof {
        assert(kc.take(n1 as int) =~= kc);
    }
    nums.push(s.key_sequences.len() as u64);
    let ghost pre2 = nums@;
    let ghost ks = s@.key_sequences;
    let n2 = s.key_sequences.len();
    let mut i2: usize = 0;
    while i2 < n2
        invariant
            n2 == ks.len(),
            ks == s@.key_sequences,
            0 <= i2 <= n2,
            nums@ == pre2 + flat_codes(ks.take(i2 as int)),
        decreases n2 - i2,
    {
        let c = s.key_sequences[i2];
        nums.push(c as u64);
        proof {
            lemma_flat_codes_snoc(ks.take(i2 as int), c);
            assert(ks.take(i2 + 1) =~= ks.take(i2 as int).push(c));
            assert(nums@ =~= pre2 + flat_codes(ks.take(i2 + 1)));
        }
        i2 = i2 + 1;
    }
    proof {
        assert(ks.take(n2 as int) =~= ks);
    }
    nums.push(s.typing_sessions.len() as u64);
    let ghost pre3 = nums@;
    let ghost ts = s@.typing_sessions;
    let n3 = s.typing_sessions.len();
    let mut i3: usize = 0;
    while i3 < n3
        invariant
            n3 == ts.len(),
            ts == s@.typing_sessions,
            0 <= i3 <= n3,
            nums@ == pre3 + flat_sessions(ts.take(i3 as int)),
        decreases n3 - i3,
    {
        let t = s.typing_sessions[i3];
        nums.push(t.start);
        nums.push(t.end);
        nums.push(t.keystrokes);
        match t.wpm_hundredths {
            Some(w) => {
                nums.push(1);
                nums.push(w);
            },
            None => {
                nums.push(0);
                nums.push(0);
            },
        }
        proof {
            lemma_flat_sessions_snoc(ts.take(i3 as int), t);
            assert(ts.take(i3 + 1) =~= ts.take(i3 as int).push(t));
            assert(nums@ =~= pre3 + flat_sessions(ts.take(i3 + 1)));
        }
        i3 = i3 + 1;
    }
    proof {
        assert(ts.take(n3 as int) =~= ts);
    }
    nums.push(s.daily_stats.len() as u64);
    let ghost pre4 = nums@;
    let ghost ds = s@.daily_stats;
    let n4 = s.daily_stats.len();
    let mut i4: usize = 0;
    while i4 < n4
        invariant
            n4 == s.daily_stats@.len(),
            ds == s@.daily_stats,
            ds.len() == n4,
            0 <= i4 <= n4,
            nums@ == pre4 + flat_days(ds.take(i4 as int)),
        decreases n4 - i4,
    {
        let ghost dv = ds[i4 as int];
        let day = s.daily_stats[i4].0;
        proof {
            assert(ds[i4 as int] == (s.daily_stats@[i4 as int].0, s.daily_stats@[i4 as int].1@));
        }
        nums.push(day);
        let ghost before_bucket = nums@;
        let n_dist = s.daily_stats[i4].1.key_distribution.len();
        nums.push(s.daily_stats[i4].1.keystrokes);
        nums.push(s.daily_stats[i4].1.sessions);
        match s.daily_stats[i4].1.most_active_hour {
            Some(h) => {
                nums.push(1);
                nums.push(h as u64);
            },
            None => {
                nums.push(0);
                nums.push(0);
            },
        }
        nums.push(n_dist as u64);
        let ghost pre_dist = nums@;
        let ghost dist = dv.1.key_distribution;
        let mut i5: usize = 0;
        while i5 < n_dist
            invariant
                i4 < s.daily_stats@.len(),
                dist == s.daily_stats@[i4 as int].1@.key_distribution,
                n_dist == dist.len(),
                0 <= i5 <= n_dist,
                nums@ == pre_dist + flat_pairs(dist.take(i5 as int)),
            decreases n_dist - i5,
        {
            let p = s.daily_stats[i4].1.key_distribution[i5];
            nums.push(p.0 as u64);
            nums.push(p.1);
            proof {
                lemma_flat_pairs_snoc(dist.take(i5 as int), p);
                assert(dist.take(i5 + 1) =~= dist.take(i5 as int).push(p));
                assert(nums@ =~= pre_dist + flat_pairs(dist.take(i5 + 1)));
            }
            i5 = i5 + 1;
        }
        proof {
            assert(dist.take(n_dist as int) =~= dist);
            lemma_flat_days_snoc(ds.take(i4 as int), dv);
            assert(ds.take(i4 + 1) =~= ds.take(i4 as int).push(dv));
            assert(nums@ =~= pre4 + flat_days(ds.take(i4 + 1)));
        }
        i4 = i4 + 1;
    }
    proof {
        assert(ds.take(n4 as int) =~= ds);
        assert(nums@ =~= flat(s@));
    }
    let total = nums.len();
    let mut out: Vec<u8> = Vec::new();
    let mut j: usize = 0;
    while j < total
        invariant
            total == nums@.len(),
            0 <= j <= total,
            out@ == render(nums@.take(j as int)),
        decreases total - j,
    {
        push_dec(&mut out, nums[j]);
        proof {
            lemma_render_snoc(nums@.take(j as int), nums@[j as int]);
            assert(nums@.take(j + 1) =~= nums@.take(j as int).push(nums@[j as int]));
        }
        j = j + 1;
    }
    proof {
        assert(nums@.take(total as int) =~= nums@);
    }
    out
}

/// Parses the lines of `bs` from byte `i` on, appending the numbers to
/// `out`; `false` exactly when the suffix is malformed.
fn parse_from(bs: &Vec<u8>, i: usize, out: &mut Vec<u64>) -> (ok: bool)
    requires
        i <= bs@.len(),
    ensures
        ok ==> (parse_nums(bs@.skip(i as int)) matches Some(ns) && final(out)@ == old(out)@
            + ns),
        !ok ==> parse_nums(bs@.skip(i as int)) is None,
    decreases bs@.len() - i,
{
    let ghost s = bs@.skip(i as int);
    if i == bs.len() {
        proof {
            assert(s =~= Seq::<u8>::empty());
            assert(out@ =~= old(out)@ + Seq::<u64>::empty());
        }
        return true;
    }
    let mut j = i;
    let mut acc: u64 = 0;
    let mut overflow = false;
    while j < bs.len() && bs[j] != NEWLINE
        invariant
            i <= j <= bs@.len(),
            s == bs@.skip(i as int),
            i < bs@.len(),
            forall|q: int| i <= q < j ==> bs@[q] != NEWLINE,
            all_digits(bs@.subrange(i as int, j as int)),
            !overflow ==> acc == val_of(bs@.subrange(i as int, j as int)) && acc <= u64::MAX,
            overflow ==> val_of(bs@.subrange(i as int, j as int)) > u64::MAX,
        decreases bs@.len() - j,
    {
        let b = bs[j];
        let ghost line0 = bs@.subrange(i as int, j as int);
        proof {
            assert(bs@.subrange(i as int, j + 1).drop_last() =~= line0);
            assert(bs@.subrange(i as int, j + 1).last() == b);
        }
        if b < 48 || b > 57 {
            proof {
                lemma_find_nl(s);
                let k = find_nl(s);
                if 0 <= k < s.len() {
                    assert forall|q: int| 0 <= q <= j - i implies s[q] != NEWLINE by {
                        assert(s[q] == bs@[i + q]);
                        if q < j - i {
                            assert(bs@[i + q] != NEWLINE);
                        } else {
                            assert(bs@[j as int] == b);
                        }
                    }
                    assert(k > j - i) by {
                        assert(s[k] == NEWLINE);
                    }
                    let line = s.take(k);
                    assert(line[j - i] == s[j - i]);
                    assert(s[j - i] == b);
                    assert(!is_digit(b));
                    assert(!all_digits(line));
                }
            }
            return false;
        }
        proof {
            assert(is_digit(b));
            assert(val_of(bs@.subrange(i as int, j + 1)) == val_of(line0) * 10 + b - 48);
        }
        if !overflow {
            if acc > (u64::MAX - (b - 48) as u64) / 10 {
                overflow = true;
                proof {
                    assert(acc * 10 + (b - 48) > u64::MAX) by (nonlinear_arith)
                        requires
                            acc > (u64::MAX - (b - 48) as u64) / 10,
                            (u64::MAX - (b - 48) as u64) / 10
                                == ((u64::MAX - (b - 48) as u64) as int) / 10,
                            0 <= (b - 48) < 10,
                    ;
                }
            } else {
                acc = acc * 10 + (b - 48) as u64;
            }
        } else {
            proof {
                assert(val_of(line0) > u64::MAX);
                assert(val_of(bs@.subrange(i as int, j + 1)) > u64::MAX) by (nonlinear_arith)
                    requires
                        val_of(bs@.subrange(i as int, j + 1)) == val_of(line0) * 10 + b - 48,
                        val_of(line0) > u64::MAX,
                        b >= 48,
                ;
            }
        }
        j = j + 1;
    }
    let ghost line = bs@.subrange(i as int, j as int);
    if j == bs.len() {
        proof {
            lemma_find_nl(s);
            let k = find_nl(s);
            if k >= 0 {
                assert(s[k] == NEWLINE);
                assert(s[k] == bs@[i + k]);
            }
        }
        return false;
    }
    proof {
        assert(bs@[j as int] == NEWLINE);
        lemma_find_nl(s);
        let k = find_nl(s);
        assert(s[j - i] == NEWLINE);
        if k < 0 {
        } else if k < j - i {
            assert(s[k] == bs@[i + k]);
            assert(bs@[i + k] != NEWLINE);
        } else if k > j - i {
        }
        assert(k == j - i);
        assert(s.take(j - i) =~= line);
    }
    if j == i {
        return false;
    }
    if overflow {
        return false;
    }
    let val = acc;
    out.push(val);
    let ghost mid = out@;
    let ok = parse_from(bs, j + 1, out);
    proof {
        assert(s.skip(j - i + 1) =~= bs@.skip(j + 1));
    }
    if !ok {
        return false;
    }
    proof {
        let ns_rest = parse_nums(bs@.skip(j + 1))->0;
        assert(parse_nums(s) == Some(seq![val] + ns_rest));
        assert(out@ == mid + ns_rest);
        assert(mid =~= old(out)@ + seq![val]);
        assert(out@ =~= old(out)@ + (seq![val] + ns_rest));
    }
    true
}

/// Reads `k` count entries at cursor `i`, appending them to `out`.
fn read_pairs_exec(ns: &Vec<u64>, i: usize, k: u64, out: &mut Vec<(u16, u64)>) -> (r: Option<
    usize,
>)
    requires
        i <= ns@.len(),
    ensures
        match read_pairs(ns@, i as int, k as nat) {
            Some(p) => r matches Some(j) && (j == p.1 && j <= ns@.len() && final(out)@ == old(
                out,
            )@ + p.0),
            None => r is None,
        },
    decreases k,
{
    if k == 0 {
        proof {
            assert(out@ =~= old(out)@ + Seq::<(u16, u64)>::empty());
        }
        return Some(i);
    }
    if ns.len() - i < 2 {
        return None;
    }
    let code = ns[i];
    let cnt = ns[i + 1];
    if code > 65535 {
        return None;
    }
    out.push((code as u16, cnt));
    let ghost mid = out@;
    let r = read_pairs_exec(ns, i + 2, k - 1, out);
    match r {
        None => None,
        Some(j) => {
            proof {
                let tail = (read_pairs(ns@, i + 2, (k - 1) as nat)->0).0;
                assert(out@ == mid + tail);
                assert(mid =~= old(out)@ + seq![(code as u16, cnt)]);
                assert(out@ =~= old(out)@ + (seq![(code as u16, cnt)] + tail));
            }
            Some(j)
        },
    }
}

/// Reads `k` recent-key codes at cursor `i`, appending them to `out`.
fn read_codes_exec(ns: &Vec<u64>, i: usize, k: u64, out: &mut Vec<u16>) -> (r: Option<usize>)
    requires
        i <= ns@.len(),
    ensures
        match read_codes(ns@, i as int, k as nat) {
            Some(p) => r matches Some(j) && (j == p.1 && j <= ns@.len() && final(out)@ == old(
                out,
            )@ + p.0),
            None => r is None,
        },
    decreases k,
{
    if k == 0 {
        proof {
            assert(out@ =~= old(out)@ + Seq::<u16>::empty());
        }
        return Some(i);
    }
    if ns.len() - i < 1 {
        return None;
    }
    let code = ns[i];
    if code > 65535 {
        return None;
    }
    out.push(code as u16);
    let ghost mid = out@;
    let r = read_codes_exec(ns, i + 1, k - 1, out);
    match r {
        None => None,
        Some(j) => {
            proof {
                let tail = (read_codes(ns@, i + 1, (k - 1) as nat)->0).0;
                assert(out@ == mid + tail);
                assert(mid =~= old(out)@ + seq![code as u16]);
                assert(out@ =~= old(out)@ + (seq![code as u16] + tail));
            }
            Some(j)
        },
    }
}

/// Reads `k` archived sessions at cursor `i`, appending them to `out`.
fn read_sessions_exec(ns: &Vec<u64>, i: usize, k: u64, out: &mut Vec<TypingSession>) -> (r: Option<
    usize,
>)
    requires
        i <= ns@.len(),
    ensures
        match read_sessions(ns@, i as int, k as nat) {
            Some(p) => r matches Some(j) && (j == p.1 && j <= ns@.len() && final(out)@ == old(
                out,
            )@ + p.0),
            None => r is None,
        },
    decreases k,
{
    if k == 0 {
        proof {
            assert(out@ =~= old(out)@ + Seq::<TypingSession>::empty());
        }
        return Some(i);
    }
    if ns.len() - i < 5 {
        return None;
    }
    let flag = ns[i + 3];
    if flag > 1 {
        return None;
    }
    let t = TypingSession {
        start: ns[i],
        end: ns[i + 1],
        keystrokes: ns[i + 2],
        wpm_hundredths: if flag == 1 {
            Some(ns[i + 4])
        } else {
            None
        },
    };
    out.push(t);
    let ghost mid = out@;
    let r = read_sessions_exec(ns, i + 5, k - 1, out);
    match r {
        None => None,
        Some(j) => {
            proof {
                let tail = (read_sessions(ns@, i + 5, (k - 1) as nat)->0).0;
                assert(out@ == mid + tail);
                assert(mid =~= old(out)@ + seq![t]);
                assert(out@ =~= old(out)@ + (seq![t] + tail));
            }
            Some(j)
        },
    }
}

/// Reads `k` day buckets at cursor `i`, appending them to `out`.
fn read_days_exec(ns: &Vec<u64>, i: usize, k: u64, out: &mut Vec<(u64, DayStats)>) -> (r: Option<
    usize,
>)
    requires
        i <= ns@.len(),
    ensures
        match read_days(ns@, i as int, k as nat) {
            Some(p) => r matches Some(j) && (j == p.1 && j <= ns@.len() && day_view(
                final(out)@,
            ) == day_view(old(out)@) + p.0),
            None => r is None,
        },
    decreases k,
{
    if k == 0 {
        proof {
            assert(day_view(out@) =~= day_view(old(out)@) + Seq::<(u64, DayView)>::empty());
        }
        return Some(i);
    }
    if ns.len() - i < 6 {
        return None;
    }
    let flag = ns[i + 3];
    let hour = ns[i + 4];
    if flag > 1 {
        return None;
    }
    if hour > 255 {
        return None;
    }
    let mut dist: Vec<(u16, u64)> = Vec::new();
    let j1 = match read_pairs_exec(ns, i + 6, ns[i + 5], &mut dist) {
        None => {
            return None;
        },
        Some(j1) => j1,
    };
    let d = DayStats {
        keystrokes: ns[i + 1],
        sessions: ns[i + 2],
        most_active_hour: if flag == 1 {
            Some(hour as u8)
        } else {
            None
        },
        key_distribution: dist,
    };
    let ghost dv = (ns@[i as int], d@);
    out.push((ns[i], d));
    let ghost mid = out@;
    let r = read_days_exec(ns, j1, k - 1, out);
    match r {
        None => None,
        Some(j) => {
            proof {
                let tail = (read_days(ns@, j1 as int, (k - 1) as nat)->0).0;
                assert(day_view(out@) == day_view(mid) + tail);
                assert(day_view(mid) =~= day_view(old(out)@) + seq![dv]);
                assert(day_view(out@) =~= day_view(old(out)@) + (seq![dv] + tail));
            }
            Some(j)
        },
    }
}

/// Decodes persisted bytes into the well-formed aggregate they encode;
/// `None` on any corrupt input.
pub fn decode(bytes: &Vec<u8>) -> (r: Option<KeyStats>)
    ensures
        r matches Some(s) ==> (spec_decode(bytes@) == Some(s@) && s.wf()),
        r is None ==> spec_decode(bytes@) is None,
{
    let mut nums: Vec<u64> = Vec::new();
    let ok = parse_from(bytes, 0, &mut nums);
    proof {
        assert(bytes@.skip(0) =~= bytes@);
    }
    if !ok {
        return None;
    }
    proof {
        assert(nums@ =~= parse_nums(bytes@)->0);
    }
    if nums.len() < 4 {
        return None;
    }
    if nums[0] != FORMAT_VERSION {
        return None;
    }
    let mut kc: Vec<(u16, u64)> = Vec::new();
    let i1 = match read_pairs_exec(&nums, 4, nums[3], &mut kc) {
        None => {
            return None;
        },
        Some(j) => j,
    };
    proof {
        assert(kc@ =~= (read_pairs(nums@, 4, nums@[3] as nat)->0).0);
    }
    if i1 >= nums.len() {
        return None;
    }
    let mut ks: Vec<u16> = Vec::new();
    let i2 = match read_codes_exec(&nums, i1 + 1, nums[i1], &mut ks) {
        None => {
            return None;
        },
        Some(j) => j,
    };
    proof {
        assert(ks@ =~= (read_codes(nums@, i1 + 1, nums@[i1 as int] as nat)->0).0);
    }
    if i2 >= nums.len() {
        return None;
    }
    let mut ts: Vec<TypingSession> = Vec::new();
    let i3 = match read_sessions_exec(&nums, i2 + 1, nums[i2], &mut ts) {
        None => {
            return None;
        },
        Some(j) => j,
    };
    proof {
        assert(ts@ =~= (read_sessions(nums@, i2 + 1, nums@[i2 as int] as nat)->0).0);
    }
    if i3 >= nums.len() {
        return None;
    }
    let mut ds: Vec<(u64, DayStats)> = Vec::new();
    let i4 = match read_days_exec(&nums, i3 + 1, nums[i3], &mut ds) {
        None => {
            return None;
        },
        Some(j) => j,
    };
    proof {
        assert(day_view(ds@) =~= (read_days(nums@, i3 + 1, nums@[i3 as int] as nat)->0).0);
    }
    if i4 != nums.len() {
        return None;
    }
    let s = KeyStats {
        key_counts: kc,
        key_sequences: ks,
        session_start: nums[1],
        total_keystrokes: nums[2],
        typing_sessions: ts,
        daily_stats: ds,
    };
    proof {
        assert(s@ =~= unflat(nums@)->0);
    }
    if !s.check_wf() {
        return None;
    }
    Some(s)
}

/// Restores an aggregate from a persisted file's bytes; corrupt bytes are
/// silently discarded in favour of a fresh aggregate starting at `now`
/// (a caller with no file at all calls [`KeyStats::new`] directly).
pub fn restore(bytes: &Vec<u8>, now: u64) -> (s: KeyStats)
    ensures
        s.wf(),
        match spec_decode(bytes@) {
            Some(v) => s@ == v,
            None => s@ == StatsView::fresh(now),
        },
{
    match decode(bytes) {
        Some(s) => s,
        None => KeyStats::new(now),
    }
}

/// Persistence round trip: decoding an encoding restores the aggregate,
/// for every well-formed aggregate whose collections fit the format's
/// length prefixes (every aggregate held in vectors does).
pub proof fn lemma_round_trip(v: StatsView)
    requires
        v.wf(),
        bounded(v),
    ensures
        spec_decode(spec_encode(v)) == Some(v),
{
    lemma_parse_render(flat(v));
    lemma_unflat_flat(v);
}

/// Every aggregate held in vectors fits the format's length prefixes.
pub proof fn lemma_vec_aggregate_bounded(s: KeyStats)
    ensures
        bounded(s@),
{
    vstd::std_specs::vec::axiom_spec_len(&s.key_counts);
    vstd::std_specs::vec::axiom_spec_len(&s.key_sequences);
    vstd::std_specs::vec::axiom_spec_len(&s.typing_sessions);
    vstd::std_specs::vec::axiom_spec_len(&s.daily_stats);
    assert forall|i: int|
        0 <= i < s@.daily_stats.len() implies (#[trigger] s@.daily_stats[i]).1.key_distribution.len()
        <= u64::MAX by {
        assert(s@.daily_stats[i].1 == s.daily_stats@[i].1@);
        vstd::std_specs::vec::axiom_spec_len(&s.daily_stats@[i].1.key_distribution);
    }
}

} // verus!
