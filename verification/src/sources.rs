//! Sourcing data from delimited text files: the configuration of a
//! file source and the decoding of one record into attribute
//! updates.  Reading the file itself is left to the caller.

use vstd::prelude::*;

verus! {

use vstd::string::StrSliceExecFns;

use crate::Eid;
use crate::collection::Diff;
use crate::value::{Val, Value};

/// A local filesystem data source.
pub struct CsvFile {
    /// Path to a file on each worker's local filesystem.
    pub path: String,
    /// Does the file include a header?
    pub has_headers: bool,
    /// Column delimiter to use.
    pub delimiter: u8,
    /// Comment symbol to use.
    pub comment: Option<u8>,
    /// Allow flexible length records?
    pub flexible: bool,
    /// The column offsets and the type tags of the values that
    /// should be introduced.
    pub schema: Vec<(usize, Value)>,
}

/// Whether a character is a decimal digit.
pub open spec fn is_dec_digit(c: char) -> bool {
    '0' <= c <= '9'
}

/// The numeric value of a digit character.
pub open spec fn digit_value(c: char) -> int {
    c as int - '0' as int
}

/// Whether every character is a decimal digit.
pub open spec fn all_digits(s: Seq<char>) -> bool {
    forall|i: int| 0 <= i < s.len() ==> is_dec_digit(#[trigger] s[i])
}

/// The number a digit string denotes.
pub open spec fn dec_value(s: Seq<char>) -> int
    decreases s.len(),
{
    if s.len() == 0 {
        0
    } else {
        dec_value(s.drop_last()) * 10 + digit_value(s.last())
    }
}

/// A digit string denotes at least what any prefix of it denotes.
proof fn lemma_dec_prefix_monotone(s: Seq<char>, k: int)
    requires
        all_digits(s),
        0 <= k <= s.len(),
    ensures
        dec_value(s) >= dec_value(s.take(k)),
        dec_value(s) >= 0,
    decreases s.len() - k,
{
    lemma_dec_nonneg(s.take(k));
    if k == s.len() {
        assert(s.take(k) =~= s);
    } else {
        lemma_dec_prefix_monotone(s, k + 1);
        assert(s.take(k + 1).drop_last() =~= s.take(k));
        assert(s.take(k + 1).last() == s[k]);
        lemma_dec_nonneg(s.take(k));
        assert(dec_value(s.take(k + 1)) == dec_value(s.take(k)) * 10 + digit_value(s[k]));
        assert(dec_value(s.take(k)) * 10 >= dec_value(s.take(k))) by (nonlinear_arith)
            requires
                dec_value(s.take(k)) >= 0,
        ;
    }
}

/// Digit strings denote non-negative numbers.
proof fn lemma_dec_nonneg(s: Seq<char>)
    ensures
        all_digits(s) ==> dec_value(s) >= 0,
    decreases s.len(),
{
    if s.len() > 0 {
        assert forall|i: int|
            0 <= i < s.drop_last().len() implies is_dec_digit(#[trigger] s.drop_last()[i])
            || !all_digits(s) by {
            assert(s.drop_last()[i] == s[i]);
        }
        lemma_dec_nonneg(s.drop_last());
        if all_digits(s) {
            assert(all_digits(s.drop_last()));
            assert(dec_value(s.drop_last()) * 10 >= 0) by (nonlinear_arith)
                requires
                    dec_value(s.drop_last()) >= 0,
            ;
        }
    }
}

/// Whether a string is a well-formed unsigned decimal that fits the
/// entity id space.
pub open spec fn valid_eid_str(s: Seq<char>) -> bool {
    s.len() > 0 && all_digits(s) && dec_value(s) <= u64::MAX
}

/// Parses an unsigned decimal entity id; `None` exactly on strings
/// that are empty, hold a non-digit, or denote a number out of
/// range.
pub fn parse_eid(s: &str) -> (r: Option<Eid>)
    ensures
        r is Some <==> valid_eid_str(s@),
        r matches Some(v) ==> v == dec_value(s@),
{
    let n = s.unicode_len();
    if n == 0 {
        return None;
    }
    let mut acc: u64 = 0;
    let mut i: usize = 0;
    while i < n
        invariant
            i <= n,
            n == s@.len(),
            all_digits(s@.take(i as int)),
            acc == dec_value(s@.take(i as int)),
        decreases n - i,
    {
        let c = s.get_char(i);
        proof {
            assert(s@.take(i + 1).drop_last() =~= s@.take(i as int));
            assert(s@.take(i + 1).last() == s@[i as int]);
        }
        if c < '0' || c > '9' {
            return None;
        }
        let d: u32 = (c as u32) - ('0' as u32);
        proof {
            assert forall|j: int| 0 <= j < i + 1 implies is_dec_digit(#[trigger] s@.take(
                i + 1,
            )[j]) by {
                if j < i {
                    assert(s@.take(i + 1)[j] == s@.take(i as int)[j]);
                }
            }
        }
        if acc > (u64::MAX - (d as u64)) / 10 {
            proof {
                lemma_dec_nonneg(s@.take(i as int));
                assert(acc * 10 + d > u64::MAX) by (nonlinear_arith)
                    requires
                        acc > (u64::MAX - (d as u64)) / 10,
                        0 <= d <= 9,
                ;
                assert(dec_value(s@.take(i + 1)) > u64::MAX);
                if all_digits(s@) {
                    lemma_dec_prefix_monotone(s@, i + 1);
                }
            }
            return None;
        }
        proof {
            assert(acc * 10 + d <= u64::MAX) by (nonlinear_arith)
                requires
                    acc <= (u64::MAX - (d as u64)) / 10,
                    0 <= d <= 9,
            ;
        }
        acc = acc * 10 + (d as u64);
        i = i + 1;
    }
    proof {
        assert(s@.take(n as int) =~= s@);
    }
    Some(acc)
}

/// Whether a string is a well-formed signed decimal that fits a
/// 64-bit signed integer: an optional minus sign, then digits.
pub open spec fn valid_number_str(s: Seq<char>) -> bool {
    if s.len() > 0 && s[0] == '-' {
        let digits = s.subrange(1, s.len() as int);
        digits.len() > 0 && all_digits(digits) && dec_value(digits) <= 0x8000_0000_0000_0000
    } else {
        s.len() > 0 && all_digits(s) && dec_value(s) <= i64::MAX
    }
}

/// The number a signed decimal string denotes.
pub open spec fn signed_value(s: Seq<char>) -> int {
    if s.len() > 0 && s[0] == '-' {
        -dec_value(s.subrange(1, s.len() as int))
    } else {
        dec_value(s)
    }
}

/// Parses a signed decimal number; `None` exactly on strings that
/// are not an optional minus sign followed by digits denoting a
/// number in 64-bit signed range.
pub fn parse_number(s: &str) -> (r: Option<i64>)
    ensures
        r is Some <==> valid_number_str(s@),
        r matches Some(v) ==> v == signed_value(s@),
{
    let n = s.unicode_len();
    if n == 0 {
        return None;
    }
    let negative = s.get_char(0) == '-';
    let rest = if negative {
        s.substring_char(1, n)
    } else {
        s
    };
    match parse_eid(rest) {
        None => {
            proof {
                if !negative {
                    assert(!valid_eid_str(s@));
                    if s@.len() > 0 && all_digits(s@) && dec_value(s@) <= i64::MAX {
                        assert(dec_value(s@) <= u64::MAX);
                    }
                }
            }
            None
        },
        Some(magnitude) => {
            if negative {
                if magnitude > 0x8000_0000_0000_0000u64 {
                    return None;
                }
                if magnitude == 0x8000_0000_0000_0000u64 {
                    return Some(i64::MIN);
                }
                Some(-(magnitude as i64))
            } else {
                if magnitude > i64::MAX as u64 {
                    return None;
                }
                Some(magnitude as i64)
            }
        },
    }
}

/// Everything that can go wrong decoding one record.
#[derive(Debug)]
pub enum DecodeError {
    /// The key column does not parse as an entity id.
    BadEid,
    /// A column tagged as a number does not parse.
    BadNumber(usize),
    /// A column tagged as an entity id does not parse.
    BadEidColumn(usize),
    /// The record is shorter than an offset the schema names.
    ShortRecord(usize),
    /// The schema names a type tag other than string, number or
    /// entity id.
    UnsupportedType(usize),
}

/// The decoded view of one schema column applied to one record.
pub open spec fn decoded_column(tag: Val, field: Seq<char>) -> Option<Val> {
    match tag {
        Val::Str(_) => Some(Val::Str(field)),
        Val::Number(_) => if valid_number_str(field) {
            Some(Val::Number(signed_value(field) as i64))
        } else {
            None
        },
        Val::Eid(_) => if valid_eid_str(field) {
            Some(Val::Eid(dec_value(field) as u64))
        } else {
            None
        },
        _ => None,
    }
}

/// Whether the whole record decodes under the schema: the key column
/// parses as an entity id, every named offset exists, and every
/// tagged column parses.
pub open spec fn record_decodes(record: Seq<Seq<char>>, schema: Seq<(usize, Val)>) -> bool {
    &&& record.len() > 0
    &&& valid_eid_str(record[0])
    &&& forall|k: int|
        0 <= k < schema.len() ==> (#[trigger] schema[k]).0 < record.len() && decoded_column(
            schema[k].1,
            record[schema[k].0 as int],
        ) is Some
}

/// The updates one record introduces: for each schema column, the
/// key entity paired with the decoded value, at the given time, with
/// count one.
pub open spec fn decoded_record(
    record: Seq<Seq<char>>,
    schema: Seq<(usize, Val)>,
    time: u64,
) -> Seq<(usize, ((Val, Val), u64, Diff))> {
    Seq::new(
        schema.len(),
        |k: int|
            (
                k as usize,
                (
                    (
                        Val::Eid(dec_value(record[0]) as u64),
                        decoded_column(schema[k].1, record[schema[k].0 as int])->Some_0,
                    ),
                    time,
                    1isize,
                ),
            ),
    )
}

impl CsvFile {
    /// Whether this worker owns the datum: data is partitioned round
    /// robin across workers.
    pub fn worker_owns(datum_index: usize, num_workers: usize, worker_index: usize) -> (r: bool)
        requires
            num_workers > 0,
        ensures
            r == (datum_index % num_workers == worker_index),
    {
        datum_index % num_workers == worker_index
    }

    /// Decodes one record of fields into attribute updates under this
    /// source's schema: one `(schema position, ((entity, value),
    /// time, diff))` tuple per schema column, the first field always
    /// parsed as the key entity id.  Fails exactly on records the
    /// schema does not fit, naming what went wrong.
    pub fn decode_record(&self, record: &Vec<String>, time: u64) -> (r: Result<
        Vec<(usize, ((Value, Value), u64, Diff))>,
        DecodeError,
    >)
        ensures
            r is Ok <==> record_decodes(record.deep_view(), self.schema.deep_view()),
            r matches Ok(out) ==> out.deep_view() == decoded_record(
                record.deep_view(),
                self.schema.deep_view(),
                time,
            ),
    {
        let ghost rec = record.deep_view();
        let ghost sch = self.schema.deep_view();
        if record.len() == 0 {
            return Err(DecodeError::BadEid);
        }
        let eid = match parse_eid(record[0].as_str()) {
            None => {
                return Err(DecodeError::BadEid);
            },
            Some(e) => e,
        };
        let mut out: Vec<(usize, ((Value, Value), u64, Diff))> = Vec::new();
        let mut k: usize = 0;
        while k < self.schema.len()
            invariant
                k <= self.schema@.len(),
                self.schema@.len() == sch.len(),
                sch == self.schema.deep_view(),
                rec == record.deep_view(),
                record@.len() == rec.len(),
                rec.len() > 0,
                valid_eid_str(rec[0]),
                eid == dec_value(rec[0]),
                forall|k2: int|
                    0 <= k2 < k ==> (#[trigger] sch[k2]).0 < rec.len() && decoded_column(
                        sch[k2].1,
                        rec[sch[k2].0 as int],
                    ) is Some,
                out.deep_view().len() == k,
                forall|k2: int|
                    0 <= k2 < k ==> out.deep_view()[k2] == decoded_record(rec, sch, time)[k2],
            decreases self.schema@.len() - k,
        {
            let offset = self.schema[k].0;
            if offset >= record.len() {
                return Err(DecodeError::ShortRecord(k));
            }
            proof {
                assert(sch[k as int].0 == offset);
                assert(rec[offset as int] == record@[offset as int]@);
            }
            let v: Value = match &self.schema[k].1 {
                Value::String(_) => Value::String(record[offset].clone()),
                Value::Number(_) => {
                    match parse_number(record[offset].as_str()) {
                        None => {
                            return Err(DecodeError::BadNumber(k));
                        },
                        Some(x) => Value::Number(x),
                    }
                },
                Value::Eid(_) => {
                    match parse_eid(record[offset].as_str()) {
                        None => {
                            return Err(DecodeError::BadEidColumn(k));
                        },
                        Some(x) => Value::Eid(x),
                    }
                },
                _ => {
                    return Err(DecodeError::UnsupportedType(k));
                },
            };
            proof {
                assert(decoded_column(sch[k as int].1, rec[sch[k as int].0 as int]) == Some(v@));
            }
            let ghost prev = out.deep_view();
            let ghost pushed = ((Val::Eid(eid), v@), time, 1isize);
            out.push((k, ((Value::Eid(eid), v), time, 1)));
            proof {
                assert(out.deep_view() =~= prev.push((k as usize, pushed)));
                assert(out.deep_view()[k as int] == decoded_record(rec, sch, time)[k as int]);
            }
            k = k + 1;
        }
        proof {
            assert(out.deep_view() =~= decoded_record(rec, sch, time));
        }
        Ok(out)
    }
}

} // verus!
