//! Housekeeping schedules: `"MM HH DOW"` cron strings (minute, hour, `*` or
//! 1–7 for the weekday) and the seconds until a schedule next fires.

use vstd::prelude::*;

verus! {

use vstd::string::StringSliceAdditionalSpecFns;

/// A daily or weekly schedule.
#[derive(Debug, Clone, Copy, PartialEq, Eq, Structural)]
pub enum SimpleCron {
    EveryDay { hour: u32, minute: u32 },
    EveryWeek { day: u32, hour: u32, minute: u32 },
}

/// Background tasks the housekeeper schedules.
#[derive(Debug, Clone, Copy, PartialEq, Eq, Structural)]
pub enum Event {
    PurgeAccounts,
    PurgeBlobs,
    SnapshotLog,
    CompactDb,
    Exit,
}

/// The space-separated fields of a byte string.
pub open spec fn spec_fields(bytes: Seq<u8>, cur: Seq<u8>) -> Seq<Seq<u8>>
    decreases bytes.len(),
{
    if bytes.len() == 0 {
        seq![cur]
    } else if bytes[0] == 32 {
        seq![cur] + spec_fields(bytes.drop_first(), Seq::<u8>::empty())
    } else {
        spec_fields(bytes.drop_first(), cur.push(bytes[0]))
    }
}

/// The number a field of digits denotes, `None` when empty or non-digit.
pub open spec fn spec_digits_val(s: Seq<u8>) -> Option<int>
    decreases s.len(),
{
    if s.len() == 0 {
        Option::None
    } else if s.len() == 1 {
        if 48 <= s[0] <= 57 {
            Some((s[0] - 48) as int)
        } else {
            Option::None
        }
    } else {
        match spec_digits_val(s.drop_last()) {
            Option::None => Option::None,
            Option::Some(v) => if 48 <= s.last() <= 57 && v <= 0xFFFF_FFFF {
                Some(v * 10 + (s.last() - 48))
            } else {
                Option::None
            },
        }
    }
}

/// What a cron string parses to: minute then hour then weekday fields, the
/// weekday `*` for daily or `1` through `7` for weekly.
pub open spec fn spec_parse_cron(bytes: Seq<u8>) -> Option<SimpleCron> {
    let fields = spec_fields(bytes, Seq::<u8>::empty());
    if fields.len() < 3 {
        Option::None
    } else {
        match (spec_digits_val(fields[0]), spec_digits_val(fields[1])) {
            (Option::Some(minute), Option::Some(hour)) => if minute <= 59 && hour <= 23 {
                if fields[2] =~= seq![42u8] {
                    Some(SimpleCron::EveryDay { hour: hour as u32, minute: minute as u32 })
                } else {
                    match spec_digits_val(fields[2]) {
                        Option::Some(day) => if 1 <= day <= 7 {
                            Some(
                                SimpleCron::EveryWeek {
                                    day: day as u32,
                                    hour: hour as u32,
                                    minute: minute as u32,
                                },
                            )
                        } else {
                            Option::None
                        },
                        Option::None => Option::None,
                    }
                }
            } else {
                Option::None
            },
            _ => Option::None,
        }
    }
}

/// Gather the space-separated fields of a byte slice.
#[verifier::loop_isolation(false)]
fn split_fields(bytes: &[u8]) -> (r: Vec<Vec<u8>>)
    ensures
        r@.map_values(|f: Vec<u8>| f@) == spec_fields(bytes@, Seq::<u8>::empty()),
{
    let n = bytes.len();
    let mut out: Vec<Vec<u8>> = Vec::new();
    let mut cur: Vec<u8> = Vec::new();
    let mut i: usize = 0;
    proof {
        assert(bytes@.skip(0) =~= bytes@);
        assert(out@.map_values(|f: Vec<u8>| f@) =~= Seq::<Seq<u8>>::empty());
        assert(Seq::<Seq<u8>>::empty() + spec_fields(bytes@, Seq::<u8>::empty()) =~= spec_fields(
            bytes@,
            Seq::<u8>::empty(),
        ));
    }
    while i < n
        invariant
            i <= n,
            spec_fields(bytes@, Seq::<u8>::empty()) == out@.map_values(|f: Vec<u8>| f@)
                + spec_fields(bytes@.skip(i as int), cur@),
        decreases n - i,
    {
        let b = bytes[i];
        proof {
            assert(bytes@.skip(i as int).drop_first() =~= bytes@.skip(i + 1));
        }
        if b == 32 {
            let ghost before = out@;
            out.push(cur);
            proof {
                assert(out@.map_values(|f: Vec<u8>| f@) =~= before.map_values(|f: Vec<u8>| f@)
                    + seq![cur@]);
            }
            cur = Vec::new();
        } else {
            cur.push(b);
        }
        i = i + 1;
    }
    assert(bytes@.skip(n as int) =~= Seq::<u8>::empty());
    let ghost before = out@;
    out.push(cur);
    proof {
        assert(out@.map_values(|f: Vec<u8>| f@) =~= before.map_values(|f: Vec<u8>| f@) + seq![
            cur@,
        ]);
        assert(out@.map_values(|f: Vec<u8>| f@) =~= spec_fields(bytes@, Seq::<u8>::empty()));
    }
    out
}

/// The number a digit field denotes.
#[verifier::loop_isolation(false)]
fn digits_val(s: &Vec<u8>) -> (r: Option<u32>)
    ensures
        match r {
            Some(v) => spec_digits_val(s@) == Some(v as int),
            None => spec_digits_val(s@) is None || (spec_digits_val(s@) matches Some(v) && v
                > u32::MAX),
        },
{
    let n = s.len();
    if n == 0 {
        return None;
    }
    let mut acc: u64 = 0;
    let mut i: usize = 0;
    while i < n
        invariant
            i <= n,
            n == s@.len(),
            n >= 1,
            i > 0 ==> spec_digits_val(s@.take(i as int)) == Some(acc as int),
            i == 0 ==> acc == 0,
            acc <= 0xFFFF_FFFF * 10 + 9,
        decreases n - i,
    {
        let b = s[i];
        if b < 48 || b > 57 {
            proof {
                lemma_digits_prefix_none(s@, i as int);
            }
            return None;
        }
        if acc > 0xFFFF_FFFF {
            proof {
                lemma_digits_grow(s@, i as int, acc as int);
            }
            return None;
        }
        acc = acc * 10 + ((b - 48) as u64);
        proof {
            assert(s@.take(i + 1).drop_last() =~= s@.take(i as int));
            assert(s@.take(i + 1).last() == s@[i as int]);
        }
        i = i + 1;
    }
    assert(s@.take(n as int) =~= s@);
    if acc > u32::MAX as u64 {
        return None;
    }
    Some(acc as u32)
}

/// A non-digit byte anywhere makes the whole field parse to nothing.
proof fn lemma_digits_prefix_none(s: Seq<u8>, i: int)
    requires
        0 <= i < s.len(),
        !(48 <= s[i] <= 57),
    ensures
        spec_digits_val(s.take(s.len() as int)) is None,
        spec_digits_val(s) is None,
    decreases s.len(),
{
    if s.len() > 0 {
        if i < s.len() - 1 {
            lemma_digits_prefix_none(s.drop_last(), i);
        }
        assert(s.take(s.len() as int) =~= s);
    }
}

/// A parsed prefix already past `u32::MAX` keeps any longer parse past it.
proof fn lemma_digits_grow(s: Seq<u8>, i: int, acc: int)
    requires
        0 <= i < s.len(),
        spec_digits_val(s.take(i)) == Some(acc),
        acc > u32::MAX,
    ensures
        spec_digits_val(s) is None || (spec_digits_val(s) matches Some(v) && v > u32::MAX),
    decreases s.len() - i,
{
    if i == s.len() - 1 {
        assert(s.take(s.len() as int) =~= s);
        assert(s.drop_last() =~= s.take(i));
    } else {
        if 48 <= s.take(i + 1).last() <= 57 && acc <= 0xFFFF_FFFF {
            assert(s.take(i + 1).drop_last() =~= s.take(i));
            lemma_digits_grow(s, i + 1, acc * 10 + (s[i] - 48));
        } else {
            assert(s.take(i + 1).drop_last() =~= s.take(i));
            lemma_digits_none_extends(s, i + 1);
        }
    }
}

/// Once a prefix fails to parse, every longer prefix fails.
proof fn lemma_digits_none_extends(s: Seq<u8>, k: int)
    requires
        0 < k <= s.len(),
        spec_digits_val(s.take(k)) is None,
    ensures
        spec_digits_val(s) is None,
    decreases s.len() - k,
{
    if k == s.len() {
        assert(s.take(k) =~= s);
    } else {
        assert(s.take(k + 1).drop_last() =~= s.take(k));
        assert(s.take(k + 1).len() > 1 || s.take(k).len() == 0);
        lemma_digits_none_extends(s, k + 1);
    }
}

impl SimpleCron {
    /// Parse a `"MM HH DOW"` schedule; `None` rejects bad shapes and
    /// out-of-range fields.
    pub fn parse(value: &str) -> (r: Option<SimpleCron>)
        ensures
            r == spec_parse_cron(value.spec_bytes()),
    {
        let bytes = value.as_bytes();
        let fields = split_fields(bytes);
        if fields.len() < 3 {
            return None;
        }
        let minute = match digits_val(&fields[0]) {
            Some(v) => v,
            None => {
                return None;
            },
        };
        let hour = match digits_val(&fields[1]) {
            Some(v) => v,
            None => {
                return None;
            },
        };
        if !(minute <= 59 && hour <= 23) {
            return None;
        }
        let f2 = &fields[2];
        if f2.len() == 1 && f2[0] == 42 {
            assert(f2@ =~= seq![42u8]);
            return Some(SimpleCron::EveryDay { hour, minute });
        }
        assert(!(f2@ =~= seq![42u8]));
        let day = match digits_val(f2) {
            Some(v) => v,
            None => {
                return None;
            },
        };
        if 1 <= day && day <= 7 {
            Some(SimpleCron::EveryWeek { day, hour, minute })
        } else {
            None
        }
    }

    /// Seconds from a local civil time until this schedule next fires.
    /// `second_of_day` counts from local midnight; `weekday` counts from
    /// Monday as one.  Local clock jumps are not modelled: days are 86400
    /// civil seconds.
    pub fn time_to_next_at(&self, second_of_day: u32, weekday: u32) -> (r: u64)
        requires
            second_of_day < 86400,
            1 <= weekday <= 7,
        ensures
            ({
                let target = (spec_cron_hour(*self) * 3600 + spec_cron_minute(*self) * 60) as int;
                match *self {
                    SimpleCron::EveryDay { .. } => r == (if target > second_of_day {
                        target - second_of_day
                    } else {
                        target + 86400 - second_of_day
                    }),
                    SimpleCron::EveryWeek { day, .. } => {
                        let days_ahead = ((day + 7 - weekday) % 7) as int;
                        if days_ahead == 0 && target <= second_of_day {
                            r == target + 7 * 86400 - second_of_day
                        } else {
                            r == days_ahead * 86400 + target - second_of_day
                        }
                    },
                }
            }),
    {
        match self {
            SimpleCron::EveryDay { hour, minute } => {
                let target: u64 = (*hour as u64) * 3600 + (*minute as u64) * 60;
                if target > second_of_day as u64 {
                    target - second_of_day as u64
                } else {
                    target + 86400 - second_of_day as u64
                }
            },
            SimpleCron::EveryWeek { day, hour, minute } => {
                let target: u64 = (*hour as u64) * 3600 + (*minute as u64) * 60;
                let days_ahead: u64 = ((*day as u64) + 7 - (weekday as u64)) % 7;
                if days_ahead == 0 && target <= second_of_day as u64 {
                    target + 7 * 86400 - second_of_day as u64
                } else {
                    days_ahead * 86400 + target - second_of_day as u64
                }
            },
        }
    }

    /// Seconds until this schedule next fires, read off the local clock.
    /// Bounded by one week whatever the clock returns.
    pub fn time_to_next(&self) -> (r: u64)
        ensures
            r <= 7 * 86400 + 86400,
    {
        let (second_of_day, weekday) = crate::timeutil::local_now_fields();
        let r = self.time_to_next_at(second_of_day, weekday);
        if r > 7 * 86400 + 86400 {
            7 * 86400 + 86400
        } else {
            r
        }
    }
}

pub open spec fn spec_cron_hour(c: SimpleCron) -> u32 {
    match c {
        SimpleCron::EveryDay { hour, .. } => hour,
        SimpleCron::EveryWeek { hour, .. } => hour,
    }
}

pub open spec fn spec_cron_minute(c: SimpleCron) -> u32 {
    match c {
        SimpleCron::EveryDay { minute, .. } => minute,
        SimpleCron::EveryWeek { minute, .. } => minute,
    }
}

} // verus!
