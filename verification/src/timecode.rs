//! Timecodes: an absolute millisecond offset, parsed from and formatted as the
//! `H+:MM:SS,mmm` textual form.

use vstd::prelude::*;

use crate::digits::{
    all_digits, decimal_digits, digits_val, is_digit, lemma_decimal_digits_wf,
    lemma_digits_val_decimal, lemma_zero_pad, parse_decimal, push_decimal_padded, zero_pad,
};
use crate::errors::{ErrModel, SrtError};
use crate::lines::{find_byte, find_byte_from, lemma_find_byte_is, lemma_find_byte_none, subvec};

verus! {

/// Hours part of a millisecond offset.
pub open spec fn spec_hours(ms: nat) -> nat {
    ms / 3600000
}

/// Minutes part of a millisecond offset.
pub open spec fn spec_minutes(ms: nat) -> nat {
    (ms % 3600000) / 60000
}

/// Seconds part of a millisecond offset.
pub open spec fn spec_seconds(ms: nat) -> nat {
    ((ms % 3600000) % 60000) / 1000
}

/// Sub-second milliseconds part of a millisecond offset.
pub open spec fn spec_millis(ms: nat) -> nat {
    ((ms % 3600000) % 60000) % 1000
}

/// The canonical `HH:MM:SS,mmm` text of a millisecond offset: minutes, seconds
/// and milliseconds zero-padded to widths 2, 2 and 3; hours zero-padded to at
/// least 2 digits but unbounded above.
pub open spec fn spec_fmt_timecode(ms: nat) -> Seq<u8> {
    zero_pad(decimal_digits(spec_hours(ms)), 2) + seq![58u8] + zero_pad(
        decimal_digits(spec_minutes(ms)),
        2,
    ) + seq![58u8] + zero_pad(decimal_digits(spec_seconds(ms)), 2) + seq![44u8] + zero_pad(
        decimal_digits(spec_millis(ms)),
        3,
    )
}

/// A timecode field parses as a non-negative integer: nonempty, digits only.
pub open spec fn field_ok(f: Seq<u8>) -> bool {
    f.len() >= 1 && all_digits(f)
}

/// The millisecond offset a timecode string names, or `None` when it is
/// malformed: split at the first comma, the part before it split on colons
/// into exactly three integer fields, the part after it one integer field;
/// offsets beyond the machine's range are rejected as malformed.
pub open spec fn spec_parse_timecode(t: Seq<u8>) -> Option<nat> {
    match find_byte(t, 44) {
        None => None,
        Some(ci) => {
            let hms = t.take(ci);
            let msf = t.skip(ci + 1);
            match find_byte(hms, 58) {
                None => None,
                Some(c1) => {
                    let hf = hms.take(c1);
                    let rest = hms.skip(c1 + 1);
                    match find_byte(rest, 58) {
                        None => None,
                        Some(c2) => {
                            let mf = rest.take(c2);
                            let sf = rest.skip(c2 + 1);
                            if find_byte(sf, 58) is Some {
                                None
                            } else if field_ok(hf) && field_ok(mf) && field_ok(sf) && field_ok(
                                msf,
                            ) {
                                let v = ((digits_val(hf) * 60 + digits_val(mf)) * 60 + digits_val(
                                    sf,
                                )) * 1000 + digits_val(msf);
                                if v <= u64::MAX {
                                    Some(v)
                                } else {
                                    None
                                }
                            } else {
                                None
                            }
                        },
                    }
                },
            }
        },
    }
}

/// A timecode split into its rendered fields.
#[derive(Debug, Clone, Copy, PartialEq, Eq, Structural)]
pub struct TimeSegments {
    pub hours: u64,
    pub minutes: u64,
    pub seconds: u64,
    pub milliseconds: u64,
}

/// An absolute time offset, stored as integer milliseconds.
#[derive(Debug, Clone, Copy, PartialEq, Eq, Structural)]
pub struct TimeCode {
    pub milliseconds: u64,
}

impl View for TimeCode {
    type V = nat;

    open spec fn view(&self) -> nat {
        self.milliseconds as nat
    }
}

impl TimeCode {
    /// Splits the offset into hours, minutes, seconds and milliseconds.
    pub fn get_time_segments(&self) -> (r: TimeSegments)
        ensures
            r.hours as nat == spec_hours(self@),
            r.minutes as nat == spec_minutes(self@),
            r.seconds as nat == spec_seconds(self@),
            r.milliseconds as nat == spec_millis(self@),
            r.minutes < 60,
            r.seconds < 60,
            r.milliseconds < 1000,
            ((r.hours * 60 + r.minutes) * 60 + r.seconds) * 1000 + r.milliseconds == self@,
    {
        let mut remainder = self.milliseconds;
        let h = remainder / 3600000;
        remainder = remainder - h * 3600000;
        let m = remainder / 60000;
        remainder = remainder - m * 60000;
        let s = remainder / 1000;
        let mils = remainder - s * 1000;
        TimeSegments { hours: h, minutes: m, seconds: s, milliseconds: mils }
    }

    /// Renders the offset as `HH:MM:SS,mmm` text.
    pub fn to_text(&self) -> (r: Vec<u8>)
        ensures
            r@ == spec_fmt_timecode(self@),
    {
        let segments = self.get_time_segments();
        let mut out: Vec<u8> = Vec::new();
        push_decimal_padded(&mut out, segments.hours, 2);
        out.push(58);
        push_decimal_padded(&mut out, segments.minutes, 2);
        out.push(58);
        push_decimal_padded(&mut out, segments.seconds, 2);
        out.push(44);
        push_decimal_padded(&mut out, segments.milliseconds, 3);
        proof {
            assert(out@ =~= spec_fmt_timecode(self@));
        }
        out
    }

    /// Parses `H+:MM:SS,mmm` text into a timecode; a string the grammar does
    /// not cover yields a `MalformedTimecode` error carrying that string.
    pub fn build_from_str(text: &Vec<u8>) -> (r: Result<TimeCode, SrtError>)
        ensures
            match r {
                Ok(tc) => spec_parse_timecode(text@) == Some(tc@),
                Err(e) => spec_parse_timecode(text@) == None::<nat> && e@ == (ErrModel::Timecode {
                    text: text@,
                }),
            },
    {
        let n = text.len();
        proof {
            assert(text@.skip(0) =~= text@);
        }
        let ci = match find_byte_from(text, 44, 0) {
            Some(i) => i,
            None => {
                return Err(timecode_error(text));
            },
        };
        let hms = subvec(text, 0, ci);
        let msf = subvec(text, ci + 1, n);
        proof {
            assert(hms@ =~= text@.take(ci as int));
            assert(msf@ =~= text@.skip(ci + 1));
            assert(hms@.skip(0) =~= hms@);
        }
        let hn = hms.len();
        let c1 = match find_byte_from(&hms, 58, 0) {
            Some(i) => i,
            None => {
                return Err(timecode_error(text));
            },
        };
        let hf = subvec(&hms, 0, c1);
        let rest = subvec(&hms, c1 + 1, hn);
        proof {
            assert(hf@ =~= hms@.take(c1 as int));
            assert(rest@ =~= hms@.skip(c1 + 1));
            assert(rest@.skip(0) =~= rest@);
        }
        let rn = rest.len();
        let c2 = match find_byte_from(&rest, 58, 0) {
            Some(i) => i,
            None => {
                return Err(timecode_error(text));
            },
        };
        let mf = subvec(&rest, 0, c2);
        let sf = subvec(&rest, c2 + 1, rn);
        proof {
            assert(mf@ =~= rest@.take(c2 as int));
            assert(sf@ =~= rest@.skip(c2 + 1));
            assert(sf@.skip(0) =~= sf@);
        }
        if let Some(_) = find_byte_from(&sf, 58, 0) {
            return Err(timecode_error(text));
        }
        let hv = match parse_decimal(&hf) {
            Some(v) => v,
            None => {
                proof {
                    lemma_field_overflow(text@, hf@, mf@, sf@, msf@);
                }
                return Err(timecode_error(text));
            },
        };
        let mv = match parse_decimal(&mf) {
            Some(v) => v,
            None => {
                proof {
                    lemma_field_overflow(text@, hf@, mf@, sf@, msf@);
                }
                return Err(timecode_error(text));
            },
        };
        let sv = match parse_decimal(&sf) {
            Some(v) => v,
            None => {
                proof {
                    lemma_field_overflow(text@, hf@, mf@, sf@, msf@);
                }
                return Err(timecode_error(text));
            },
        };
        let msv = match parse_decimal(&msf) {
            Some(v) => v,
            None => {
                proof {
                    lemma_field_overflow(text@, hf@, mf@, sf@, msf@);
                }
                return Err(timecode_error(text));
            },
        };
        let v: u128 = ((hv as u128 * 60 + mv as u128) * 60 + sv as u128) * 1000 + msv as u128;
        if v > u64::MAX as u128 {
            return Err(timecode_error(text));
        }
        Ok(TimeCode { milliseconds: v as u64 })
    }
}

/// A `MalformedTimecode` error carrying the offending text.
fn timecode_error(text: &Vec<u8>) -> (e: SrtError)
    ensures
        e@ == (ErrModel::Timecode { text: text@ }),
{
    let copy = subvec(text, 0, text.len());
    proof {
        assert(copy@ =~= text@);
    }
    SrtError::MalformedTimecode { text: copy }
}

/// When one timecode field is all digits but names a value beyond the
/// machine's range, the whole timecode value is out of range too.
proof fn lemma_field_overflow(t: Seq<u8>, hf: Seq<u8>, mf: Seq<u8>, sf: Seq<u8>, msf: Seq<u8>)
    requires
        field_ok(hf) && field_ok(mf) && field_ok(sf) && field_ok(msf) ==> digits_val(hf) > u64::MAX
            || digits_val(mf) > u64::MAX || digits_val(sf) > u64::MAX || digits_val(msf)
            > u64::MAX,
    ensures
        field_ok(hf) && field_ok(mf) && field_ok(sf) && field_ok(msf) ==> ((digits_val(hf) * 60
            + digits_val(mf)) * 60 + digits_val(sf)) * 1000 + digits_val(msf) > u64::MAX,
{
}

/// Every byte of a formatted timecode is a digit, a colon or a comma.
pub proof fn lemma_fmt_timecode_bytes(ms: nat)
    ensures
        forall|j: int|
            0 <= j < spec_fmt_timecode(ms).len() ==> is_digit(#[trigger] spec_fmt_timecode(ms)[j])
                || spec_fmt_timecode(ms)[j] == 58 || spec_fmt_timecode(ms)[j] == 44,
{
    lemma_decimal_digits_wf(spec_hours(ms));
    lemma_decimal_digits_wf(spec_minutes(ms));
    lemma_decimal_digits_wf(spec_seconds(ms));
    lemma_decimal_digits_wf(spec_millis(ms));
    lemma_zero_pad(decimal_digits(spec_hours(ms)), 2);
    lemma_zero_pad(decimal_digits(spec_minutes(ms)), 2);
    lemma_zero_pad(decimal_digits(spec_seconds(ms)), 2);
    lemma_zero_pad(decimal_digits(spec_millis(ms)), 3);
    let hp = zero_pad(decimal_digits(spec_hours(ms)), 2);
    let mp = zero_pad(decimal_digits(spec_minutes(ms)), 2);
    let sp = zero_pad(decimal_digits(spec_seconds(ms)), 2);
    let msp = zero_pad(decimal_digits(spec_millis(ms)), 3);
    let t = spec_fmt_timecode(ms);
    assert forall|j: int|
        0 <= j < t.len() implies is_digit(t[j]) || t[j] == 58 || t[j] == 44 by {
        let a = hp.len() as int;
        let b = a + 1 + mp.len();
        let c = b + 1 + sp.len();
        if j < a {
            assert(t[j] == hp[j] && is_digit(hp[j]));
        } else if j == a {
            assert(t[j] == 58);
        } else if j < b {
            assert(t[j] == mp[j - a - 1] && is_digit(mp[j - a - 1]));
        } else if j == b {
            assert(t[j] == 58);
        } else if j < c {
            assert(t[j] == sp[j - b - 1] && is_digit(sp[j - b - 1]));
        } else if j == c {
            assert(t[j] == 44);
        } else {
            assert(t[j] == msp[j - c - 1] && is_digit(msp[j - c - 1]));
        }
    }
}

/// Parsing the canonical text of an offset gives back that offset.
pub proof fn lemma_timecode_round_trip(ms: nat)
    requires
        ms <= u64::MAX,
    ensures
        spec_parse_timecode(spec_fmt_timecode(ms)) == Some(ms),
{
    let h = spec_hours(ms);
    let m = spec_minutes(ms);
    let s = spec_seconds(ms);
    let mil = spec_millis(ms);
    lemma_decimal_digits_wf(h);
    lemma_decimal_digits_wf(m);
    lemma_decimal_digits_wf(s);
    lemma_decimal_digits_wf(mil);
    lemma_zero_pad(decimal_digits(h), 2);
    lemma_zero_pad(decimal_digits(m), 2);
    lemma_zero_pad(decimal_digits(s), 2);
    lemma_zero_pad(decimal_digits(mil), 3);
    lemma_digits_val_decimal(h);
    lemma_digits_val_decimal(m);
    lemma_digits_val_decimal(s);
    lemma_digits_val_decimal(mil);
    let hp = zero_pad(decimal_digits(h), 2);
    let mp = zero_pad(decimal_digits(m), 2);
    let sp = zero_pad(decimal_digits(s), 2);
    let msp = zero_pad(decimal_digits(mil), 3);
    let t = spec_fmt_timecode(ms);
    let pre = hp + seq![58u8] + mp + seq![58u8] + sp;
    assert(t =~= pre + seq![44u8] + msp);

    // the first comma stands right after the three colon-separated fields
    assert forall|j: int| 0 <= j < pre.len() implies pre[j] != 44 by {
        if j < hp.len() {
            assert(pre[j] == hp[j] && is_digit(hp[j]));
        } else if j == hp.len() {
            assert(pre[j] == 58);
        } else if j < hp.len() + 1 + mp.len() {
            assert(pre[j] == mp[j - hp.len() - 1] && is_digit(mp[j - hp.len() - 1]));
        } else if j == hp.len() + 1 + mp.len() {
            assert(pre[j] == 58);
        } else {
            assert(pre[j] == sp[j - hp.len() - mp.len() - 2] && is_digit(
                sp[j - hp.len() - mp.len() - 2],
            ));
        }
    }
    assert(t[pre.len() as int] == 44);
    assert(forall|j: int| 0 <= j < pre.len() ==> t[j] == pre[j]);
    lemma_find_byte_is(t, 44, pre.len() as int);
    assert(t.take(pre.len() as int) =~= pre);
    assert(t.skip(pre.len() as int + 1) =~= msp);

    // the first colon stands right after the hours field
    assert forall|j: int| 0 <= j < hp.len() implies pre[j] != 58 by {
        assert(pre[j] == hp[j] && is_digit(hp[j]));
    }
    assert(pre[hp.len() as int] == 58);
    lemma_find_byte_is(pre, 58, hp.len() as int);
    assert(pre.take(hp.len() as int) =~= hp);
    let rest = mp + seq![58u8] + sp;
    assert(pre.skip(hp.len() as int + 1) =~= rest);

    // the second colon stands right after the minutes field
    assert forall|j: int| 0 <= j < mp.len() implies rest[j] != 58 by {
        assert(rest[j] == mp[j] && is_digit(mp[j]));
    }
    assert(rest[mp.len() as int] == 58);
    lemma_find_byte_is(rest, 58, mp.len() as int);
    assert(rest.take(mp.len() as int) =~= mp);
    assert(rest.skip(mp.len() as int + 1) =~= sp);

    // the seconds field holds no further colon
    assert forall|j: int| 0 <= j < sp.len() implies sp[j] != 58 by {
        assert(is_digit(sp[j]));
    }
    lemma_find_byte_none(sp, 58);

    assert(field_ok(hp) && field_ok(mp) && field_ok(sp) && field_ok(msp));
    assert(digits_val(hp) == h && digits_val(mp) == m && digits_val(sp) == s && digits_val(msp)
        == mil);
    let v = ((h * 60 + m) * 60 + s) * 1000 + mil;
    assert(ms == 3600000 * h + ms % 3600000);
    assert(ms % 3600000 == 60000 * m + (ms % 3600000) % 60000);
    assert((ms % 3600000) % 60000 == 1000 * s + mil);
    assert(v == ms);
}

} // verus!
