//! The text records in which bucket state is stored.
//!
//! A bucket record is `tokens:last_refill_secs:last_refill_nanos`: the token
//! count as floating-point text, then the time of the last refill in whole
//! seconds and nanoseconds. The limit record written when a limit is set adds
//! the capacity and the refill rate as two more fields.

use vstd::prelude::*;
use vstd::string::*;

use crate::error::LimiterError;
use crate::text::{
    decimal_string, decimal_text, is_float_literal, is_float_text, parse_u32, parse_u64,
    parse_unsigned, split_fields, split_on, texts, lemma_float_literal_no_colon,
    lemma_decimal_text_no_colon, lemma_split_three, lemma_parse_decimal_text, lemma_split_append_field,
};

verus! {

/// The fields of a bucket record. The token count stays in its text form;
/// it is text that `str::parse::<f64>` accepts.
#[derive(Debug)]
pub struct BucketRecord {
    pub tokens: String,
    pub last_refill_secs: u64,
    pub last_refill_nanos: u32,
}

/// The text of a bucket record.
pub open spec fn record_text(tokens: Seq<char>, secs: nat, nanos: nat) -> Seq<char> {
    tokens + seq![':'] + decimal_text(secs) + seq![':'] + decimal_text(nanos)
}

/// What reading a bucket record gives: its three fields, or the message of the
/// first check that fails (field count, then tokens, seconds, nanoseconds).
pub open spec fn record_result(s: Seq<char>) -> Result<(Seq<char>, nat, nat), Seq<char>> {
    let parts = split_on(s, ':');
    if parts.len() != 3 {
        Err("invalid bucket state format"@)
    } else if !is_float_literal(parts[0]) {
        Err("invalid tokens"@)
    } else if parse_unsigned(parts[1], u64::MAX as nat) is None {
        Err("invalid last_refill_secs"@)
    } else if parse_unsigned(parts[2], u32::MAX as nat) is None {
        Err("invalid last_refill_nanos"@)
    } else {
        Ok(
            (
                parts[0],
                parse_unsigned(parts[1], u64::MAX as nat)->0,
                parse_unsigned(parts[2], u32::MAX as nat)->0,
            ),
        )
    }
}

fn storage_error(message: &str) -> (e: LimiterError)
    ensures
        e matches LimiterError::Storage(m) && m@ == message@,
{
    LimiterError::Storage(String::from_str(message))
}

/// Reads a bucket record.
pub fn parse_record(s: &str) -> (r: Result<BucketRecord, LimiterError>)
    ensures
        match r {
            Ok(rec) => record_result(s@) == Ok::<(Seq<char>, nat, nat), Seq<char>>(
                (rec.tokens@, rec.last_refill_secs as nat, rec.last_refill_nanos as nat),
            ),
            Err(e) => e matches LimiterError::Storage(m) && record_result(s@) == Err::<
                (Seq<char>, nat, nat),
                Seq<char>,
            >(m@),
        },
{
    let parts = split_fields(s, ':');
    proof {
        assert(texts(parts@).len() == parts@.len());
    }
    if parts.len() != 3 {
        return Err(storage_error("invalid bucket state format"));
    }
    proof {
        assert(texts(parts@)[0] == parts@[0]@);
        assert(texts(parts@)[1] == parts@[1]@);
        assert(texts(parts@)[2] == parts@[2]@);
    }
    if !is_float_text(parts[0].as_str()) {
        return Err(storage_error("invalid tokens"));
    }
    let secs = match parse_u64(parts[1].as_str()) {
        Some(v) => v,
        None => {
            return Err(storage_error("invalid last_refill_secs"));
        },
    };
    let nanos = match parse_u32(parts[2].as_str()) {
        Some(v) => v,
        None => {
            return Err(storage_error("invalid last_refill_nanos"));
        },
    };
    Ok(BucketRecord { tokens: parts[0].clone(), last_refill_secs: secs, last_refill_nanos: nanos })
}

/// Writes a bucket record.
pub fn format_record(tokens: &str, secs: u64, nanos: u32) -> (s: String)
    ensures
        s@ == record_text(tokens@, secs as nat, nanos as nat),
        is_float_literal(tokens@) ==> record_result(s@) == Ok::<(Seq<char>, nat, nat), Seq<char>>(
            (tokens@, secs as nat, nanos as nat),
        ),
{
    proof {
        reveal_strlit(":");
    }
    let mut s = String::from_str(tokens);
    s.append(":");
    s.append(decimal_string(secs).as_str());
    s.append(":");
    s.append(decimal_string(nanos as u64).as_str());
    proof {
        assert(s@ =~= record_text(tokens@, secs as nat, nanos as nat));
        if is_float_literal(tokens@) {
            law_record_roundtrip(tokens@, secs, nanos);
        }
    }
    s
}

/// The state recovered from a record already stored for a key when its limit
/// is set: the token text when it is a number, and the refill time.
#[derive(Debug)]
pub struct RecoveredState {
    pub tokens: Option<String>,
    pub last_refill_secs: u64,
    pub last_refill_nanos: u32,
}

/// The value of an unsigned field, or zero when it does not parse.
pub open spec fn parsed_or_zero(s: Seq<char>, max: nat) -> nat {
    match parse_unsigned(s, max) {
        Some(v) => v,
        None => 0,
    }
}

/// Recovers the state from a stored record: with at least three fields, the
/// first is kept as the token text when it is a number, and the second and
/// third give the refill time, each zero when it does not parse; a record with
/// fewer fields gives no token text and time zero.
pub fn recover_state(raw: &str) -> (r: RecoveredState)
    ensures
        ({
            let parts = split_on(raw@, ':');
            if parts.len() >= 3 {
                &&& (r.tokens is Some <==> is_float_literal(parts[0]))
                &&& (r.tokens matches Some(t) ==> t@ == parts[0])
                &&& r.last_refill_secs == parsed_or_zero(parts[1], u64::MAX as nat)
                &&& r.last_refill_nanos == parsed_or_zero(parts[2], u32::MAX as nat)
            } else {
                &&& r.tokens is None
                &&& r.last_refill_secs == 0
                &&& r.last_refill_nanos == 0
            }
        }),
{
    let parts = split_fields(raw, ':');
    proof {
        assert(texts(parts@).len() == parts@.len());
    }
    if parts.len() < 3 {
        return RecoveredState { tokens: None, last_refill_secs: 0, last_refill_nanos: 0 };
    }
    proof {
        assert(texts(parts@)[0] == parts@[0]@);
        assert(texts(parts@)[1] == parts@[1]@);
        assert(texts(parts@)[2] == parts@[2]@);
    }
    let tokens = if is_float_text(parts[0].as_str()) {
        Some(parts[0].clone())
    } else {
        None
    };
    let secs = match parse_u64(parts[1].as_str()) {
        Some(v) => v,
        None => 0,
    };
    let nanos = match parse_u32(parts[2].as_str()) {
        Some(v) => v,
        None => 0,
    };
    RecoveredState { tokens, last_refill_secs: secs, last_refill_nanos: nanos }
}

/// The text of a limit record: a bucket record, then the capacity and the
/// refill rate text.
pub open spec fn limit_record_text(
    tokens: Seq<char>,
    secs: nat,
    nanos: nat,
    capacity: nat,
    rate: Seq<char>,
) -> Seq<char> {
    record_text(tokens, secs, nanos) + seq![':'] + decimal_text(capacity) + seq![':'] + rate
}

/// Writes a limit record.
pub fn format_limit_record(tokens: &str, secs: u64, nanos: u32, capacity: u64, rate: &str) -> (s: String)
    ensures
        s@ == limit_record_text(tokens@, secs as nat, nanos as nat, capacity as nat, rate@),
        is_float_literal(tokens@) && is_float_literal(rate@) ==> limit_fields_are(
            s@,
            tokens@,
            secs,
            nanos,
            capacity,
            rate@,
        ),
{
    proof {
        reveal_strlit(":");
    }
    let mut s = format_record(tokens, secs, nanos);
    s.append(":");
    s.append(decimal_string(capacity).as_str());
    s.append(":");
    s.append(rate);
    proof {
        assert(s@ =~= limit_record_text(tokens@, secs as nat, nanos as nat, capacity as nat, rate@));
        if is_float_literal(tokens@) && is_float_literal(rate@) {
            law_limit_record_roundtrip(tokens@, secs, nanos, capacity, rate@);
        }
    }
    s
}


/// Splitting `text` at `:` gives five fields: the token text, the decimal
/// seconds, nanoseconds and capacity (each reading back as the given number),
/// and the rate text.
pub open spec fn limit_fields_are(
    text: Seq<char>,
    tokens: Seq<char>,
    secs: u64,
    nanos: u32,
    capacity: u64,
    rate: Seq<char>,
) -> bool {
    let f = split_on(text, ':');
    &&& f.len() == 5
    &&& f[0] == tokens
    &&& parse_unsigned(f[1], u64::MAX as nat) == Some(secs as nat)
    &&& parse_unsigned(f[2], u32::MAX as nat) == Some(nanos as nat)
    &&& parse_unsigned(f[3], u64::MAX as nat) == Some(capacity as nat)
    &&& f[4] == rate
}

/// Reading a written limit record field by field gives back every value it
/// was written from: the token text, the refill time, the capacity as given,
/// and the rate text, for token and rate texts that `str::parse::<f64>` accepts.
pub proof fn law_limit_record_roundtrip(
    tokens: Seq<char>,
    secs: u64,
    nanos: u32,
    capacity: u64,
    rate: Seq<char>,
)
    requires
        is_float_literal(tokens),
        is_float_literal(rate),
    ensures
        limit_fields_are(
            limit_record_text(tokens, secs as nat, nanos as nat, capacity as nat, rate),
            tokens,
            secs,
            nanos,
            capacity,
            rate,
        ),
{
    let ds = decimal_text(secs as nat);
    let dn = decimal_text(nanos as nat);
    let dc = decimal_text(capacity as nat);
    lemma_float_literal_no_colon(tokens);
    lemma_float_literal_no_colon(rate);
    lemma_decimal_text_no_colon(secs as nat);
    lemma_decimal_text_no_colon(nanos as nat);
    lemma_decimal_text_no_colon(capacity as nat);
    lemma_split_three(tokens, ds, dn, ':');
    let r = tokens + seq![':'] + ds + seq![':'] + dn;
    lemma_split_append_field(r, dc, ':');
    lemma_split_append_field(r + seq![':'] + dc, rate, ':');
    assert(limit_record_text(tokens, secs as nat, nanos as nat, capacity as nat, rate)
        =~= r + seq![':'] + dc + seq![':'] + rate);
    assert(split_on(r + seq![':'] + dc + seq![':'] + rate, ':') =~= seq![tokens, ds, dn, dc, rate]);
    lemma_parse_decimal_text(secs as nat, u64::MAX as nat);
    lemma_parse_decimal_text(nanos as nat, u32::MAX as nat);
    lemma_parse_decimal_text(capacity as nat, u64::MAX as nat);
}

/// Reading a written bucket record gives back the fields it was written from,
/// for every token text that `str::parse::<f64>` accepts.
pub proof fn law_record_roundtrip(tokens: Seq<char>, secs: u64, nanos: u32)
    requires
        is_float_literal(tokens),
    ensures
        record_result(record_text(tokens, secs as nat, nanos as nat)) == Ok::<
            (Seq<char>, nat, nat),
            Seq<char>,
        >((tokens, secs as nat, nanos as nat)),
{
    lemma_float_literal_no_colon(tokens);
    lemma_decimal_text_no_colon(secs as nat);
    lemma_decimal_text_no_colon(nanos as nat);
    lemma_split_three(tokens, decimal_text(secs as nat), decimal_text(nanos as nat), ':');
    lemma_parse_decimal_text(secs as nat, u64::MAX as nat);
    lemma_parse_decimal_text(nanos as nat, u32::MAX as nat);
}

} // verus!
