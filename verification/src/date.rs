//! JMAP `Date` values: parsing from RFC 3339 text, conversion to and from
//! Unix timestamps, and formatting back to canonical text.

use vstd::prelude::*;

verus! {

use vstd::string::StringSliceAdditionalSpecFns;

/// A civil date-time with an explicit UTC offset, as carried in JMAP
/// `Date` properties.
#[derive(Debug, Clone, PartialEq, Eq, Hash, Structural)]
pub struct JMAPDate {
    pub year: u16,
    pub month: u8,
    pub day: u8,
    pub hour: u8,
    pub minute: u8,
    pub second: u8,
    pub tz_before_gmt: bool,
    pub tz_hour: u8,
    pub tz_minute: u8,
}

impl Default for JMAPDate {
    fn default() -> (d: Self)
        ensures
            d == (JMAPDate {
                year: 0,
                month: 0,
                day: 0,
                hour: 0,
                minute: 0,
                second: 0,
                tz_before_gmt: false,
                tz_hour: 0,
                tz_minute: 0,
            }),
    {
        JMAPDate {
            year: 0,
            month: 0,
            day: 0,
            hour: 0,
            minute: 0,
            second: 0,
            tz_before_gmt: false,
            tz_hour: 0,
            tz_minute: 0,
        }
    }
}

/// Field ranges accepted by the rest of the system: years 1970 through 3000,
/// calendar months and days, and a well-formed UTC offset.
pub open spec fn spec_is_valid(d: JMAPDate) -> bool {
    &&& 1970 <= d.year <= 3000
    &&& 1 <= d.month <= 12
    &&& 1 <= d.day <= 31
    &&& d.hour <= 23
    &&& d.minute <= 59
    &&& d.second <= 59
    &&& d.tz_hour <= 23
    &&& d.tz_minute <= 59
}

impl JMAPDate {
    /// Whether every field lies in the range the rest of the system
    /// accepts.
    pub fn is_valid(&self) -> (r: bool)
        ensures
            r == spec_is_valid(*self),
    {
        self.tz_hour <= 23 && 1970 <= self.year && self.year <= 3000 && self.tz_minute <= 59 && 1
            <= self.month && self.month <= 12 && 1 <= self.day && self.day <= 31 && self.hour <= 23
            && self.minute <= 59 && self.second <= 59
    }
}

pub open spec fn pow10(e: int) -> int
    decreases e,
{
    if e <= 0 {
        1
    } else {
        10 * pow10(e - 1)
    }
}

/// State of the date scanner: which dash-, colon- or dot-separated field is
/// being read (`pos`), the digits gathered so far for each field (`parts`),
/// how many digits each field still accepts (`sizes`), whether digits are
/// being skipped (fractional seconds), and the sign of the UTC offset.
pub struct DateScan {
    pub pos: int,
    pub parts: Seq<int>,
    pub sizes: Seq<int>,
    pub skip_digits: bool,
    pub is_plus: bool,
}

/// Number of digits field `p` accepts: four for the year, two for the rest.
pub open spec fn field_width(p: int) -> int {
    if p == 0 {
        4
    } else {
        2
    }
}

pub open spec fn scan_init() -> DateScan {
    DateScan {
        pos: 0,
        parts: seq![0, 0, 0, 0, 0, 0, 0, 0],
        sizes: seq![4, 2, 2, 2, 2, 2, 2, 2],
        skip_digits: false,
        is_plus: true,
    }
}

/// One byte of input advances the scanner; `None` rejects the text.
/// Bytes that are not digits or one of `-T:+.` are ignored, as the trailing
/// `Z` of a UTC date is.
pub open spec fn scan_step(st: DateScan, ch: u8) -> Option<DateScan> {
    if 48 <= ch <= 57 && !st.skip_digits {
        if st.sizes[st.pos] > 0 {
            Some(DateScan {
                parts: st.parts.update(
                    st.pos,
                    st.parts[st.pos] + (ch - 48) * pow10(st.sizes[st.pos] - 1),
                ),
                sizes: st.sizes.update(st.pos, st.sizes[st.pos] - 1),
                ..st
            })
        } else {
            None
        }
    } else if ch == 45 {  // '-'
        if st.pos <= 1 {
            Some(DateScan { pos: st.pos + 1, ..st })
        } else if st.pos == 5 {
            Some(DateScan { pos: 6, is_plus: false, skip_digits: false, ..st })
        } else {
            None
        }
    } else if ch == 84 {  // 'T'
        if st.pos == 2 {
            Some(DateScan { pos: 3, ..st })
        } else {
            None
        }
    } else if ch == 58 {  // ':'
        if st.pos == 3 || st.pos == 4 || st.pos == 6 {
            Some(DateScan { pos: st.pos + 1, ..st })
        } else {
            None
        }
    } else if ch == 43 {  // '+'
        if st.pos == 5 {
            Some(DateScan { pos: 6, skip_digits: false, ..st })
        } else {
            None
        }
    } else if ch == 46 {  // '.'
        if st.pos == 5 {
            Some(DateScan { skip_digits: true, ..st })
        } else {
            None
        }
    } else {
        Some(st)
    }
}

pub open spec fn scan_bytes(bytes: Seq<u8>) -> Option<DateScan>
    decreases bytes.len(),
{
    if bytes.len() == 0 {
        Some(scan_init())
    } else {
        match scan_bytes(bytes.drop_last()) {
            Option::None => Option::None,
            Option::Some(st) => scan_step(st, bytes.last()),
        }
    }
}

pub open spec fn date_of_scan(st: DateScan) -> JMAPDate {
    JMAPDate {
        year: st.parts[0] as u16,
        month: st.parts[1] as u8,
        day: st.parts[2] as u8,
        hour: st.parts[3] as u8,
        minute: st.parts[4] as u8,
        second: st.parts[5] as u8,
        tz_hour: st.parts[6] as u8,
        tz_minute: st.parts[7] as u8,
        tz_before_gmt: !st.is_plus,
    }
}

/// What `parse` returns for a given byte sequence: run the scanner over all
/// bytes; the text is a date when the scanner accepts every byte and at
/// least the seconds field was reached.
pub open spec fn spec_parse_date(bytes: Seq<u8>) -> Option<JMAPDate> {
    match scan_bytes(bytes) {
        Option::None => Option::None,
        Option::Some(st) => if st.pos >= 5 {
            Some(date_of_scan(st))
        } else {
            Option::None
        },
    }
}

/// Scanner invariant: field cursor stays within the eight fields, and each
/// gathered field value leaves room for its remaining digits.
pub open spec fn scan_inv(st: DateScan) -> bool {
    &&& 0 <= st.pos <= 7
    &&& st.parts.len() == 8
    &&& st.sizes.len() == 8
    &&& forall|p: int|
        0 <= p < 8 ==> 0 <= #[trigger] st.sizes[p] <= field_width(p) && 0 <= st.parts[p]
            && st.parts[p] + pow10(st.sizes[p]) <= pow10(field_width(p))
}

proof fn lemma_scan_step_inv(st: DateScan, ch: u8)
    requires
        scan_inv(st),
        scan_step(st, ch) is Some,
    ensures
        scan_inv(scan_step(st, ch).unwrap()),
{
    let st2 = scan_step(st, ch).unwrap();
    if 48 <= ch <= 57 && !st.skip_digits {
        let p = st.pos;
        let s = st.sizes[p];
        lemma_pow10_pos(s - 1);
        assert(pow10(s) == 10 * pow10(s - 1));
        assert((ch - 48) * pow10(s - 1) + pow10(s - 1) <= 10 * pow10(s - 1)) by (nonlinear_arith)
            requires
                ch - 48 <= 9,
                pow10(s - 1) >= 1,
        ;
        assert((ch - 48) * pow10(s - 1) >= 0) by (nonlinear_arith)
            requires
                ch >= 48,
                pow10(s - 1) >= 1,
        ;
        assert(st2.parts[p] + pow10(st2.sizes[p]) <= pow10(field_width(p)));
        assert(0 <= st2.parts[p]);
        assert(forall|q: int| 0 <= q < 8 && q != p ==> st2.sizes[q] == st.sizes[q]);
        assert(forall|q: int| 0 <= q < 8 && q != p ==> st2.parts[q] == st.parts[q]);
        assert(0 <= st2.pos <= 7);
        assert(st2.parts.len() == 8);
        assert(st2.sizes.len() == 8);
        assert(forall|q: int|
            0 <= q < 8 ==> 0 <= #[trigger] st2.sizes[q] <= field_width(q) && 0 <= st2.parts[q]
                && st2.parts[q] + pow10(st2.sizes[q]) <= pow10(field_width(q)));
        assert(scan_inv(st2));
    } else {
        assert(st2.parts == st.parts);
        assert(st2.sizes == st.sizes);
        assert(0 <= st2.pos <= 7);
        assert(scan_inv(st2));
    }
}

/// Once the scanner has rejected a prefix, every longer prefix is rejected.
proof fn lemma_scan_none_extends(bytes: Seq<u8>, k: int, m: int)
    requires
        0 <= k <= m <= bytes.len(),
        scan_bytes(bytes.take(k)) is None,
    ensures
        scan_bytes(bytes.take(m)) is None,
    decreases m - k,
{
    if m > k {
        lemma_scan_none_extends(bytes, k, m - 1);
        assert(bytes.take(m).drop_last() =~= bytes.take(m - 1));
        assert(bytes.take(m).len() == m);
    }
}

proof fn lemma_pow10_pos(e: int)
    ensures
        pow10(e) >= 1,
    decreases e,
{
    if e > 0 {
        lemma_pow10_pos(e - 1);
    }
}

proof fn lemma_pow10_small()
    ensures
        pow10(0) == 1,
        pow10(1) == 10,
        pow10(2) == 100,
        pow10(3) == 1000,
        pow10(4) == 10000,
{
    reveal_with_fuel(pow10, 6);
}

fn pow10_exec(e: u32) -> (r: u32)
    requires
        e <= 3,
    ensures
        r == pow10(e as int),
        r <= 1000,
{
    proof {
        lemma_pow10_small();
    }
    match e {
        0 => 1,
        1 => 10,
        2 => 100,
        _ => 1000,
    }
}

impl JMAPDate {
    /// Parse an RFC 3339 date-time such as `2004-06-28T23:43:45.000Z` or
    /// `1969-02-13T23:32:00-03:30`.  Fractional seconds are accepted and
    /// discarded; the offset defaults to `+00:00` when absent.
    pub fn parse(value: &str) -> (r: Option<JMAPDate>)
        ensures
            r == spec_parse_date(value.spec_bytes()),
    {
        let bytes: &[u8] = value.as_bytes();
        let n = bytes.len();
        let mut pos: usize = 0;
        let mut parts: Vec<u32> = Vec::new();
        let mut sizes: Vec<u32> = Vec::new();
        parts.push(0);
        parts.push(0);
        parts.push(0);
        parts.push(0);
        parts.push(0);
        parts.push(0);
        parts.push(0);
        parts.push(0);
        sizes.push(4);
        sizes.push(2);
        sizes.push(2);
        sizes.push(2);
        sizes.push(2);
        sizes.push(2);
        sizes.push(2);
        sizes.push(2);
        let mut skip_digits = false;
        let mut is_plus = true;

        proof {
            lemma_pow10_small();
            assert(bytes@.take(0) =~= Seq::<u8>::empty());
            assert(parts@.map_values(|x: u32| x as int) =~= seq![0int, 0, 0, 0, 0, 0, 0, 0]);
            assert(sizes@.map_values(|x: u32| x as int) =~= seq![4int, 2, 2, 2, 2, 2, 2, 2]);
        }

        let mut i: usize = 0;
        while i < n
            invariant
                n == bytes@.len(),
                i <= n,
                bytes@ == value.spec_bytes(),
                parts@.len() == 8,
                sizes@.len() == 8,
                scan_bytes(bytes@.take(i as int)) == Some(
                    DateScan {
                        pos: pos as int,
                        parts: parts@.map_values(|x: u32| x as int),
                        sizes: sizes@.map_values(|x: u32| x as int),
                        skip_digits: skip_digits,
                        is_plus: is_plus,
                    },
                ),
                scan_inv(
                    DateScan {
                        pos: pos as int,
                        parts: parts@.map_values(|x: u32| x as int),
                        sizes: sizes@.map_values(|x: u32| x as int),
                        skip_digits: skip_digits,
                        is_plus: is_plus,
                    },
                ),
            decreases n - i,
        {
            let ghost st = DateScan {
                pos: pos as int,
                parts: parts@.map_values(|x: u32| x as int),
                sizes: sizes@.map_values(|x: u32| x as int),
                skip_digits: skip_digits,
                is_plus: is_plus,
            };
            let ch = bytes[i];
            proof {
                assert(bytes@.take(i + 1).drop_last() =~= bytes@.take(i as int));
                assert(bytes@.take(i + 1).last() == ch);
                if scan_step(st, ch) is Some {
                    lemma_scan_step_inv(st, ch);
                } else {
                    lemma_scan_none_extends(bytes@, i + 1, n as int);
                    assert(bytes@.take(n as int) =~= bytes@);
                }
            }
            if 48 <= ch && ch <= 57 && !skip_digits {
                let sz = sizes[pos];
                if sz > 0 {
                    proof {
                        lemma_pow10_pos(sz - 1);
                        lemma_pow10_small();
                    }
                    let p10 = pow10_exec(sz - 1);
                    let d = (ch - 48) as u32;
                    assert(d * p10 <= 9 * 1000) by (nonlinear_arith)
                        requires
                            d <= 9,
                            p10 <= 1000,
                    ;
                    let add = d * p10;
                    let cur = parts[pos];
                    assert(cur + add + pow10(sz - 1) <= pow10(field_width(pos as int))) by {
                        assert((ch - 48) * pow10(sz - 1) + pow10(sz - 1) <= 10 * pow10(sz - 1))
                            by (nonlinear_arith)
                            requires
                                ch - 48 <= 9,
                                pow10(sz - 1) >= 1,
                        ;
                        assert(10 * pow10(sz - 1) == pow10(sz as int));
                    }
                    parts.set(pos, cur + add);
                    sizes.set(pos, sz - 1);
                    proof {
                        assert(parts@.map_values(|x: u32| x as int) =~= st.parts.update(
                            st.pos,
                            st.parts[st.pos] + (ch - 48) * pow10(st.sizes[st.pos] - 1),
                        ));
                        assert(sizes@.map_values(|x: u32| x as int) =~= st.sizes.update(
                            st.pos,
                            st.sizes[st.pos] - 1,
                        ));
                    }
                } else {
                    return None;
                }
            } else if ch == 45 {
                if pos <= 1 {
                    pos = pos + 1;
                } else if pos == 5 {
                    pos = 6;
                    is_plus = false;
                    skip_digits = false;
                } else {
                    return None;
                }
            } else if ch == 84 {
                if pos == 2 {
                    pos = 3;
                } else {
                    return None;
                }
            } else if ch == 58 {
                if pos == 3 || pos == 4 || pos == 6 {
                    pos = pos + 1;
                } else {
                    return None;
                }
            } else if ch == 43 {
                if pos == 5 {
                    pos = 6;
                    skip_digits = false;
                } else {
                    return None;
                }
            } else if ch == 46 {
                if pos == 5 {
                    skip_digits = true;
                } else {
                    return None;
                }
            }
            i = i + 1;
        }

        assert(bytes@.take(n as int) =~= bytes@);

        if pos >= 5 {
            proof {
                lemma_pow10_small();
            }
            Some(
                JMAPDate {
                    year: parts[0] as u16,
                    month: parts[1] as u8,
                    day: parts[2] as u8,
                    hour: parts[3] as u8,
                    minute: parts[4] as u8,
                    second: parts[5] as u8,
                    tz_hour: parts[6] as u8,
                    tz_minute: parts[7] as u8,
                    tz_before_gmt: !is_plus,
                },
            )
        } else {
            None
        }
    }
}

/// Decimal digit character for `v` in `0 ..= 9`.
pub open spec fn digit_char(v: int) -> char {
    ((48 + v) as u8) as char
}

/// Two decimal digits, zero padded.
pub open spec fn two_digit_chars(v: int) -> Seq<char> {
    seq![digit_char(v / 10 % 10), digit_char(v % 10)]
}

/// Four decimal digits, zero padded.
pub open spec fn four_digit_chars(v: int) -> Seq<char> {
    seq![
        digit_char(v / 1000 % 10),
        digit_char(v / 100 % 10),
        digit_char(v / 10 % 10),
        digit_char(v % 10),
    ]
}

/// Canonical RFC 3339 text of a date: `YYYY-MM-DDTHH:MM:SS` followed by `Z`
/// for a zero offset, else by the signed `HH:MM` offset.
pub open spec fn spec_format_date(d: JMAPDate) -> Seq<char> {
    let stem = four_digit_chars(d.year as int) + seq!['-'] + two_digit_chars(d.month as int)
        + seq!['-'] + two_digit_chars(d.day as int) + seq!['T'] + two_digit_chars(d.hour as int)
        + seq![':'] + two_digit_chars(d.minute as int) + seq![':'] + two_digit_chars(
        d.second as int,
    );
    if d.tz_hour != 0 || d.tz_minute != 0 {
        let sign: char = if d.tz_before_gmt {
            '-'
        } else {
            '+'
        };
        stem + seq![sign] + two_digit_chars(d.tz_hour as int) + seq![':'] + two_digit_chars(
            d.tz_minute as int,
        )
    } else {
        stem + seq!['Z']
    }
}

/// Unix timestamp of a date, derived from the days-from-civil formula: the
/// year is rebased to March (so leap days fall at the end), whole years and
/// accumulated leap days are converted to days, and the UTC offset is folded
/// back in (an offset west of Greenwich adds to the timestamp).
pub open spec fn spec_timestamp(d: JMAPDate) -> int {
    let month = d.month as int;
    let carry: int = if month < 3 {
        1
    } else {
        0
    };
    let m_adj: int = if month < 3 {
        month + 9
    } else {
        month - 3
    };
    let y_adj = d.year + 4800 - carry;
    let month_days = (m_adj * 62719 + 769) / 2048;
    let leap_days = y_adj / 4 - y_adj / 100 + y_adj / 400;
    (y_adj * 365 + leap_days + month_days + (d.day - 1) - 2472632) * 86400 + d.hour * 3600
        + d.minute * 60 + d.second + (d.tz_hour * 3600 + d.tz_minute * 60) * (
    if d.tz_before_gmt {
        1int
    } else {
        -1
    })
}

/// Inverse of `spec_timestamp` on the seconds-of-day and days-since-epoch
/// split, using the civil-from-days formula.  Subtractions that cannot go
/// negative are written saturating so the formula is total.
pub open spec fn spec_from_timestamp(timestamp: int) -> JMAPDate {
    let z = timestamp / 86400 + 719468;
    let seconds = timestamp % 86400;
    let era = z / 146097;
    let doe = z - era * 146097;
    let yoe = (doe - doe / 1460 + doe / 36524 - doe / 146096) / 365;
    let y = yoe + era * 400;
    let start_of_year = 365 * yoe + yoe / 4 - yoe / 100;
    let doy: int = if doe >= start_of_year {
        doe - start_of_year
    } else {
        0
    };
    let mp = (5 * doy + 2) / 153;
    let month_start = (153 * mp + 2) / 5;
    let d: int = if doy >= month_start {
        doy - month_start + 1
    } else {
        1
    };
    let m: int = if mp < 10 {
        mp + 3
    } else {
        mp - 9
    };
    JMAPDate {
        year: (y + if m <= 2 {
            1int
        } else {
            0
        }) as u16,
        month: m as u8,
        day: d as u8,
        hour: (seconds / 3600) as u8,
        minute: ((seconds / 60) % 60) as u8,
        second: (seconds % 60) as u8,
        tz_before_gmt: false,
        tz_hour: 0,
        tz_minute: 0,
    }
}

impl JMAPDate {
    /// Seconds since the Unix epoch of this date-time, offset applied.
    pub fn timestamp(&self) -> (r: i64)
        ensures
            r == spec_timestamp(*self),
    {
        let month = self.month as u32;
        let carry: i64 = if month < 3 {
            1
        } else {
            0
        };
        let m_adj: u32 = if month < 3 {
            month + 9
        } else {
            month - 3
        };
        let y_adj: u64 = self.year as u64 + 4800 - (carry as u64);
        let month_days: u32 = (m_adj * 62719 + 769) / 2048;
        let leap_days: i64 = (y_adj / 4) as i64 - (y_adj / 100) as i64 + (y_adj / 400) as i64;
        let days: i64 = (y_adj as i64) * 365 + leap_days + month_days as i64 + (self.day as i64 - 1)
            - 2472632;
        let sign: i64 = if self.tz_before_gmt {
            1
        } else {
            -1
        };
        days * 86400 + self.hour as i64 * 3600 + self.minute as i64 * 60 + self.second as i64 + (
        self.tz_hour as i64 * 3600 + self.tz_minute as i64 * 60) * sign
    }

    /// Civil date for a non-negative Unix timestamp, with a zero UTC offset.
    pub fn from_timestamp(timestamp: i64) -> (r: Self)
        requires
            timestamp >= 0,
        ensures
            r == spec_from_timestamp(timestamp as int),
    {
        let ts = timestamp as u64;
        proof {
            vstd::arithmetic::div_mod::lemma_div_nonincreasing(ts as int, 86400);
        }
        let z: u64 = ts / 86400 + 719468;
        let seconds: u64 = ts % 86400;
        let era: u64 = z / 146097;
        proof {
            vstd::arithmetic::div_mod::lemma_fundamental_div_mod(z as int, 146097);
            vstd::arithmetic::div_mod::lemma_mod_division_less_than_divisor(z as int, 146097);
            vstd::arithmetic::div_mod::lemma_div_pos_is_pos(z as int, 146097);
            vstd::arithmetic::div_mod::lemma_div_nonincreasing(z as int, 146097);
        }
        let doe: u64 = z - era * 146097;
        proof {
            vstd::arithmetic::div_mod::lemma_div_nonincreasing(doe as int, 1460);
            vstd::arithmetic::div_mod::lemma_div_is_ordered_by_denominator(
                doe as int,
                36524,
                146096,
            );
            vstd::arithmetic::div_mod::lemma_div_pos_is_pos(doe as int, 36524);
            vstd::arithmetic::div_mod::lemma_div_pos_is_pos(doe as int, 146096);
        }
        let acc: u64 = doe - doe / 1460 + doe / 36524 - doe / 146096;
        proof {
            vstd::arithmetic::div_mod::lemma_div_nonincreasing(acc as int, 365);
        }
        let yoe: u64 = acc / 365;
        let y: u64 = yoe + era * 400;
        proof {
            vstd::arithmetic::div_mod::lemma_div_is_ordered_by_denominator(yoe as int, 4, 100);
            vstd::arithmetic::div_mod::lemma_div_pos_is_pos(yoe as int, 100);
        }
        let start_of_year: u64 = 365 * yoe + yoe / 4 - yoe / 100;
        let doy: u64 = if doe >= start_of_year {
            doe - start_of_year
        } else {
            0
        };
        let mp: u64 = (5 * doy + 2) / 153;
        proof {
            vstd::arithmetic::div_mod::lemma_div_nonincreasing((5 * doy + 2) as int, 153);
        }
        let month_start: u64 = (153 * mp + 2) / 5;
        let d: u64 = if doy >= month_start {
            doy - month_start + 1
        } else {
            1
        };
        let m: u64 = if mp < 10 {
            mp + 3
        } else {
            mp - 9
        };
        let year_add: u64 = if m <= 2 {
            1
        } else {
            0
        };
        JMAPDate {
            year: (#[verifier::truncate] ((y + year_add) as u16)),
            month: (#[verifier::truncate] (m as u8)),
            day: (#[verifier::truncate] (d as u8)),
            hour: (#[verifier::truncate] ((seconds / 3600) as u8)),
            minute: (#[verifier::truncate] (((seconds / 60) % 60) as u8)),
            second: (#[verifier::truncate] ((seconds % 60) as u8)),
            tz_before_gmt: false,
            tz_hour: 0,
            tz_minute: 0,
        }
    }
}

fn push_digit(s: &mut String, v: u8)
    requires
        v <= 9,
    ensures
        final(s)@ == old(s)@ + seq![digit_char(v as int)],
{
    let piece: &str = match v {
        0 => "0",
        1 => "1",
        2 => "2",
        3 => "3",
        4 => "4",
        5 => "5",
        6 => "6",
        7 => "7",
        8 => "8",
        _ => "9",
    };
    proof {
        reveal_strlit("0");
        reveal_strlit("1");
        reveal_strlit("2");
        reveal_strlit("3");
        reveal_strlit("4");
        reveal_strlit("5");
        reveal_strlit("6");
        reveal_strlit("7");
        reveal_strlit("8");
        reveal_strlit("9");
        assert(piece@ =~= seq![digit_char(v as int)]);
    }
    s.append(piece);
}

fn push_two_digits(s: &mut String, v: u8)
    requires
        v <= 99,
    ensures
        final(s)@ == old(s)@ + two_digit_chars(v as int),
{
    push_digit(s, v / 10);
    push_digit(s, v % 10);
    assert(s@ =~= old(s)@ + two_digit_chars(v as int));
}

fn push_four_digits(s: &mut String, v: u16)
    requires
        v <= 9999,
    ensures
        final(s)@ == old(s)@ + four_digit_chars(v as int),
{
    push_digit(s, (v / 1000 % 10) as u8);
    push_digit(s, (v / 100 % 10) as u8);
    push_digit(s, (v / 10 % 10) as u8);
    push_digit(s, (v % 10) as u8);
    assert(s@ =~= old(s)@ + four_digit_chars(v as int));
}

impl JMAPDate {
    /// Canonical RFC 3339 text of this date, as sent back to JMAP clients.
    pub fn to_rfc3339(&self) -> (r: String)
        requires
            self.year <= 9999,
            self.month <= 99,
            self.day <= 99,
            self.hour <= 99,
            self.minute <= 99,
            self.second <= 99,
            self.tz_hour <= 99,
            self.tz_minute <= 99,
    ensures
            r@ == spec_format_date(*self),
    {
        let mut s = String::new();
        push_four_digits(&mut s, self.year);
        proof {
            reveal_strlit("-");
            reveal_strlit("T");
            reveal_strlit(":");
            reveal_strlit("+");
            reveal_strlit("Z");
        }
        s.append("-");
        push_two_digits(&mut s, self.month);
        s.append("-");
        push_two_digits(&mut s, self.day);
        s.append("T");
        push_two_digits(&mut s, self.hour);
        s.append(":");
        push_two_digits(&mut s, self.minute);
        s.append(":");
        push_two_digits(&mut s, self.second);
        if self.tz_hour != 0 || self.tz_minute != 0 {
            if self.tz_before_gmt {
                s.append("-");
            } else {
                s.append("+");
            }
            push_two_digits(&mut s, self.tz_hour);
            s.append(":");
            push_two_digits(&mut s, self.tz_minute);
            assert(s@ =~= spec_format_date(*self));
        } else {
            s.append("Z");
            assert(s@ =~= spec_format_date(*self));
        }
        s
    }
}

} // verus!
