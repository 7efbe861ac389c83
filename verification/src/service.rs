//! The request logic of the limiter service: where a key's bucket is stored,
//! how many tokens a request takes, and the default capacity setting.

use vstd::prelude::*;
use vstd::string::*;

use crate::text::{parse_u64, parse_unsigned};

verus! {

/// The capacity used for keys without a limit of their own, unless configured.
pub const DEFAULT_CAPACITY: u64 = 100;

/// The storage key of a rate-limit key: the key behind the `limiter:` prefix.
pub open spec fn storage_key(key: Seq<char>) -> Seq<char> {
    "limiter:"@ + key
}

/// The storage key under which the bucket of `key` is kept.
pub fn redis_key(key: &str) -> (k: String)
    ensures
        k@ == storage_key(key@),
        k@.len() == key@.len() + 8,
        k@.take(8) == "limiter:"@,
        k@.skip(8) == key@,
{
    let k = String::from_str("limiter:").concat(key);
    proof {
        law_storage_key_parts(key@);
    }
    k
}

/// A storage key is the eight-character `limiter:` prefix followed by the
/// whole key: dropping the prefix gives back the key.
pub proof fn law_storage_key_parts(key: Seq<char>)
    ensures
        storage_key(key).len() == key.len() + 8,
        storage_key(key).take(8) == "limiter:"@,
        storage_key(key).skip(8) == key,
{
    reveal_strlit("limiter:");
    assert(storage_key(key).take(8) =~= "limiter:"@);
    assert(storage_key(key).skip(8) =~= key);
}

/// Distinct keys have distinct storage keys, so no two keys share a bucket.
pub proof fn law_storage_keys_distinct(key1: Seq<char>, key2: Seq<char>)
    ensures
        key1 != key2 ==> storage_key(key1) != storage_key(key2),
{
    law_storage_key_parts(key1);
    law_storage_key_parts(key2);
}

/// The number of tokens a request takes: the requested number, and at least one.
pub fn tokens_to_consume(requested: u32) -> (n: u32)
    ensures
        n == if requested >= 1 { requested } else { 1 },
{
    if requested >= 1 {
        requested
    } else {
        1
    }
}

/// The answer to an allow request.
pub struct AllowOutcome {
    pub allowed: bool,
    pub message: String,
}

/// The answer to an allow request from the reply of the allow script: granted
/// with no message when the script answers 1, else refused as rate limited.
pub fn allow_outcome(script_result: i32) -> (r: AllowOutcome)
    ensures
        r.allowed == (script_result == 1),
        r.allowed ==> r.message@ == Seq::<char>::empty(),
        !r.allowed ==> r.message@ == "rate limited"@,
{
    if script_result == 1 {
        AllowOutcome { allowed: true, message: String::new() }
    } else {
        AllowOutcome { allowed: false, message: String::from_str("rate limited") }
    }
}

/// The default capacity from its setting: the setting's value when it is an
/// unsigned integer that fits in 64 bits, else [`DEFAULT_CAPACITY`].
pub fn capacity_setting(value: Option<&str>) -> (c: u64)
    ensures
        c == match value {
            Some(v) => match parse_unsigned(v@, u64::MAX as nat) {
                Some(n) => n,
                None => DEFAULT_CAPACITY as nat,
            },
            None => DEFAULT_CAPACITY as nat,
        },
{
    match value {
        Some(v) => match parse_u64(v) {
            Some(n) => n,
            None => DEFAULT_CAPACITY,
        },
        None => DEFAULT_CAPACITY,
    }
}

} // verus!
