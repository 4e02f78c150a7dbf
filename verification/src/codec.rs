//! The wire codec: commands out of JSON documents, messages into them.
//!
//! Inbound, a frame's text is one JSON object whose sole key names the
//! command. Outbound, every reply is one JSON object whose sole key
//! names the message. The decoding below is lenient exactly where the
//! wire format says a field may be absent or null.

use vstd::prelude::*;
use crate::clock::{format_rfc3339, rfc3339_of, RFC3339_MAX, RFC3339_MIN};
use crate::command::{Command, CommandV, Value, ValueV};
use crate::db::{Data, DataV};
use crate::json::{jv, jv_obj, JsonV, JsonValue};
use crate::message::{Message, MessageV, StatusMessage, StatusMessageV};
use crate::numbers::{dec_digits, dec_int, dec_to_u64, dec_val, i64_to_dec, is_digit, is_digit_at, u64_to_dec};
use crate::strutil::{chars_to_string, str_eq, str_to_chars};

verus! {

/// The value under the first member holding key `k`, if any.
pub open spec fn obj_get(ms: Seq<(Seq<char>, JsonV)>, k: Seq<char>) -> Option<JsonV>
    decreases ms,
{
    if ms.len() == 0 {
        None
    } else if ms[0].0 == k {
        Some(ms[0].1)
    } else {
        obj_get(ms.drop_first(), k)
    }
}

/// No two members share a key.
pub open spec fn no_dup_keys(ms: Seq<(Seq<char>, JsonV)>) -> bool {
    forall|i: int, j: int| 0 <= i < j < ms.len() ==> ms[i].0 != ms[j].0
}

/// Every member's key lies in `allowed`.
pub open spec fn keys_within(ms: Seq<(Seq<char>, JsonV)>, allowed: Set<Seq<char>>) -> bool {
    forall|i: int| 0 <= i < ms.len() ==> allowed.contains(#[trigger] ms[i].0)
}

/// The member at `i` is the one `obj_get` finds when no earlier member
/// holds its key.
pub proof fn lemma_obj_get_at(ms: Seq<(Seq<char>, JsonV)>, k: Seq<char>, i: int)
    requires
        0 <= i < ms.len(),
        ms[i].0 == k,
        forall|j: int| 0 <= j < i ==> ms[j].0 != k,
    ensures
        obj_get(ms, k) == Some(ms[i].1),
    decreases i,
{
    if i > 0 {
        lemma_obj_get_at(ms.drop_first(), k, i - 1);
    }
}

/// A key no member holds is not found.
pub proof fn lemma_obj_get_none(ms: Seq<(Seq<char>, JsonV)>, k: Seq<char>)
    requires
        forall|j: int| 0 <= j < ms.len() ==> ms[j].0 != k,
    ensures
        obj_get(ms, k) is None,
    decreases ms.len(),
{
    if ms.len() > 0 {
        lemma_obj_get_none(ms.drop_first(), k);
    }
}

/// Every character is a decimal digit.
pub open spec fn all_digits(s: Seq<char>) -> bool {
    forall|i: int| 0 <= i < s.len() ==> is_digit(#[trigger] s[i])
}

/// The integer a number lexeme spells, when it spells one: digits with an
/// optional leading minus sign, no fraction, no exponent.
pub open spec fn int_of_lexeme(lex: Seq<char>) -> Option<int> {
    if lex.len() >= 2 && lex[0] == '-' && all_digits(lex.subrange(1, lex.len() as int)) {
        Some(-(dec_val(lex.subrange(1, lex.len() as int)) as int))
    } else if lex.len() >= 1 && all_digits(lex) {
        Some(dec_val(lex) as int)
    } else {
        None
    }
}

/// The payload a data document stands for: an object with the one key
/// `string`, `json` or `int`.
pub open spec fn decode_data(j: JsonV) -> Option<DataV> {
    match j {
        JsonV::Obj(ms) => if ms.len() == 1 {
            let tag = ms[0].0;
            let body = ms[0].1;
            if tag == "string"@ {
                match body {
                    JsonV::Str(s) => Some(DataV::String(s)),
                    _ => None,
                }
            } else if tag == "json"@ {
                Some(DataV::Json(body))
            } else if tag == "int"@ {
                match body {
                    JsonV::Num(lex) => match int_of_lexeme(lex) {
                        Some(v) => if i64::MIN <= v <= i64::MAX {
                            Some(DataV::Int(v as i64))
                        } else {
                            None
                        },
                        None => None,
                    },
                    _ => None,
                }
            } else {
                None
            }
        } else {
            None
        },
        _ => None,
    }
}

/// The time to live a value object carries: absent or null means none; a
/// number must be whole, unsigned and fit 32 bits. The outer `Option` is
/// the verdict, the inner the time to live.
pub open spec fn decode_expiry(ms: Seq<(Seq<char>, JsonV)>) -> Option<Option<u32>> {
    match obj_get(ms, "expiry"@) {
        None => Some(None),
        Some(JsonV::Null) => Some(None),
        Some(JsonV::Num(lex)) => if lex.len() >= 1 && all_digits(lex) && dec_val(lex)
            <= u32::MAX {
            Some(Some(dec_val(lex) as u32))
        } else {
            None
        },
        Some(_) => None,
    }
}

/// The written value a value document stands for: an object holding
/// `data` and optionally `expiry`, nothing else, no key twice.
pub open spec fn decode_value(j: JsonV) -> Option<ValueV> {
    match j {
        JsonV::Obj(ms) => if no_dup_keys(ms) && keys_within(ms, set!["data"@, "expiry"@])
            && obj_get(ms, "data"@) is Some {
            match decode_data(obj_get(ms, "data"@)->0) {
                Some(d) => match decode_expiry(ms) {
                    Some(e) => Some(ValueV { data: d, expiry: e }),
                    None => None,
                },
                None => None,
            }
        } else {
            None
        },
        _ => None,
    }
}

/// The command a document stands for: an object whose sole key names the
/// command and holds its fields, each field object free of unknown and
/// repeated keys.
pub open spec fn decode_command(j: JsonV) -> Option<CommandV> {
    match j {
        JsonV::Obj(top) => if top.len() == 1 {
            let tag = top[0].0;
            let body = top[0].1;
            if tag == "subscribe_broadcast"@ {
                match body {
                    JsonV::Obj(ms) => if no_dup_keys(ms) && keys_within(
                        ms,
                        set!["channel"@, "subscribe_to_self"@],
                    ) {
                        match obj_get(ms, "channel"@) {
                            Some(JsonV::Str(channel)) => match obj_get(
                                ms,
                                "subscribe_to_self"@,
                            ) {
                                None => Some(
                                    CommandV::SubscribeBroadcast {
                                        channel,
                                        subscribe_to_self: false,
                                    },
                                ),
                                Some(JsonV::Bool(b)) => Some(
                                    CommandV::SubscribeBroadcast {
                                        channel,
                                        subscribe_to_self: b,
                                    },
                                ),
                                Some(_) => None,
                            },
                            _ => None,
                        }
                    } else {
                        None
                    },
                    _ => None,
                }
            } else if tag == "unsubscribe_broadcast"@ {
                match body {
                    JsonV::Str(channel) => Some(CommandV::UnsubscribeBroadcast(channel)),
                    _ => None,
                }
            } else if tag == "send_broadcast"@ {
                match body {
                    JsonV::Obj(ms) => if no_dup_keys(ms) && keys_within(
                        ms,
                        set!["channel"@, "message"@],
                    ) {
                        match (obj_get(ms, "channel"@), obj_get(ms, "message"@)) {
                            (Some(JsonV::Str(channel)), Some(JsonV::Str(message))) => Some(
                                CommandV::SendBroadcast { channel, message },
                            ),
                            _ => None,
                        }
                    } else {
                        None
                    },
                    _ => None,
                }
            } else if tag == "set"@ {
                match body {
                    JsonV::Obj(ms) => if no_dup_keys(ms) && keys_within(
                        ms,
                        set!["key"@, "value"@],
                    ) {
                        match (obj_get(ms, "key"@), obj_get(ms, "value"@)) {
                            (Some(JsonV::Str(key)), Some(value_doc)) => match decode_value(
                                value_doc,
                            ) {
                                Some(value) => Some(CommandV::SetValue { key, value }),
                                None => None,
                            },
                            _ => None,
                        }
                    } else {
                        None
                    },
                    _ => None,
                }
            } else if tag == "get"@ {
                match body {
                    JsonV::Obj(ms) => if no_dup_keys(ms) && keys_within(ms, set!["key"@]) {
                        match obj_get(ms, "key"@) {
                            Some(JsonV::Str(key)) => Some(CommandV::Get { key }),
                            _ => None,
                        }
                    } else {
                        None
                    },
                    _ => None,
                }
            } else {
                None
            }
        } else {
            None
        },
        _ => None,
    }
}

/// The position of the first member holding key `k`, if any.
fn find_key(ms: &Vec<(String, JsonValue)>, k: &str) -> (r: Option<usize>)
    ensures
        match r {
            Some(i) => i < ms@.len() && ms@[i as int].0@ == k@ && obj_get(jv_obj(ms@), k@)
                == Some(jv(ms@[i as int].1)),
            None => obj_get(jv_obj(ms@), k@) is None,
        },
{
    proof {
        crate::json::lemma_jv_obj(ms@);
    }
    let n: usize = ms.len();
    let mut i: usize = 0;
    while i < n
        invariant
            i <= n,
            n == ms@.len(),
            forall|j: int| 0 <= j < i ==> ms@[j].0@ != k@,
        decreases n - i,
    {
        if str_eq(ms[i].0.as_str(), k) {
            proof {
                crate::json::lemma_jv_obj(ms@);
                lemma_obj_get_at(jv_obj(ms@), k@, i as int);
            }
            return Some(i);
        }
        i += 1;
    }
    proof {
        crate::json::lemma_jv_obj(ms@);
        lemma_obj_get_none(jv_obj(ms@), k@);
    }
    None
}

/// Does any key repeat?
fn has_dup_keys(ms: &Vec<(String, JsonValue)>) -> (r: bool)
    ensures
        r == !no_dup_keys(jv_obj(ms@)),
{
    proof {
        crate::json::lemma_jv_obj(ms@);
    }
    let n: usize = ms.len();
    let mut i: usize = 0;
    while i < n
        invariant
            i <= n,
            n == ms@.len(),
            forall|a: int, b: int| 0 <= a < b < ms@.len() && a < i ==> ms@[a].0@ != ms@[b].0@,
        decreases n - i,
    {
        let mut j: usize = i + 1;
        while j < n
            invariant
                i < j <= n,
                n == ms@.len(),
                forall|b: int| i < b < j ==> ms@[i as int].0@ != ms@[b].0@,
            decreases n - j,
        {
            if str_eq(ms[i].0.as_str(), ms[j].0.as_str()) {
                proof {
                    crate::json::lemma_jv_obj(ms@);
                    assert(jv_obj(ms@)[i as int].0 == jv_obj(ms@)[j as int].0);
                }
                return true;
            }
            j += 1;
        }
        i += 1;
    }
    proof {
        crate::json::lemma_jv_obj(ms@);
    }
    false
}

/// Does every key lie among the two given?
fn keys_within_two(ms: &Vec<(String, JsonValue)>, a: &str, b: &str) -> (r: bool)
    ensures
        r == keys_within(jv_obj(ms@), set![a@, b@]),
{
    proof {
        crate::json::lemma_jv_obj(ms@);
    }
    let n: usize = ms.len();
    let mut i: usize = 0;
    while i < n
        invariant
            i <= n,
            n == ms@.len(),
            forall|j: int| 0 <= j < i ==> ms@[j].0@ == a@ || ms@[j].0@ == b@,
        decreases n - i,
    {
        if !(str_eq(ms[i].0.as_str(), a) || str_eq(ms[i].0.as_str(), b)) {
            proof {
                crate::json::lemma_jv_obj(ms@);
                assert(!set![a@, b@].contains(jv_obj(ms@)[i as int].0));
            }
            return false;
        }
        i += 1;
    }
    proof {
        crate::json::lemma_jv_obj(ms@);
        assert forall|j: int| 0 <= j < jv_obj(ms@).len() implies set![a@, b@].contains(
            #[trigger] jv_obj(ms@)[j].0,
        ) by {
            assert(ms@[j].0@ == a@ || ms@[j].0@ == b@);
        }
    }
    true
}

/// Does every key equal the one given?
fn keys_within_one(ms: &Vec<(String, JsonValue)>, a: &str) -> (r: bool)
    ensures
        r == keys_within(jv_obj(ms@), set![a@]),
{
    proof {
        crate::json::lemma_jv_obj(ms@);
    }
    let n: usize = ms.len();
    let mut i: usize = 0;
    while i < n
        invariant
            i <= n,
            n == ms@.len(),
            forall|j: int| 0 <= j < i ==> ms@[j].0@ == a@,
        decreases n - i,
    {
        if !str_eq(ms[i].0.as_str(), a) {
            proof {
                crate::json::lemma_jv_obj(ms@);
                assert(!set![a@].contains(jv_obj(ms@)[i as int].0));
            }
            return false;
        }
        i += 1;
    }
    proof {
        crate::json::lemma_jv_obj(ms@);
        assert forall|j: int| 0 <= j < jv_obj(ms@).len() implies set![a@].contains(
            #[trigger] jv_obj(ms@)[j].0,
        ) by {
            assert(ms@[j].0@ == a@);
        }
    }
    true
}

/// Are the characters in `s@[from..to]` all digits?
fn all_digits_range(s: &Vec<char>, from: usize, to: usize) -> (r: bool)
    requires
        from <= to <= s@.len(),
    ensures
        r == all_digits(s@.subrange(from as int, to as int)),
        r == (forall|j: int| from <= j < to ==> is_digit(#[trigger] s@[j])),
{
    let mut i: usize = from;
    while i < to
        invariant
            from <= i <= to <= s@.len(),
            forall|j: int| from <= j < i ==> is_digit(#[trigger] s@[j]),
        decreases to - i,
    {
        let c: char = s[i];
        if !is_digit_at(c) {
            proof {
                assert(!is_digit(s@.subrange(from as int, to as int)[i - from]));
            }
            return false;
        }
        i += 1;
    }
    proof {
        assert forall|j: int| 0 <= j < to - from implies is_digit(
            #[trigger] s@.subrange(from as int, to as int)[j],
        ) by {
            assert(s@.subrange(from as int, to as int)[j] == s@[from + j]);
        }
    }
    true
}

/// The signed integer a lexeme spells, when one fits 64 bits.
fn int_of_lexeme_at(lex: &str) -> (r: Option<i64>)
    ensures
        match r {
            Some(v) => int_of_lexeme(lex@) == Some(v as int),
            None => int_of_lexeme(lex@) is None || !(i64::MIN <= int_of_lexeme(lex@)->0
                <= i64::MAX),
        },
{
    let chars = str_to_chars(lex);
    let n: usize = chars.len();
    if n >= 2 && chars[0] == '-' {
        if !all_digits_range(&chars, 1, n) {
            return None;
        }
        match dec_to_u64(&chars, 1, n) {
            Some(v) => {
                if v <= 9223372036854775807u64 {
                    Some(-(v as i64))
                } else if v == 9223372036854775808u64 {
                    Some(i64::MIN)
                } else {
                    None
                }
            },
            None => None,
        }
    } else if n >= 1 && all_digits_range(&chars, 0, n) {
        proof {
            assert(chars@.subrange(0, n as int) =~= lex@);
        }
        match dec_to_u64(&chars, 0, n) {
            Some(v) => {
                if v <= 9223372036854775807u64 {
                    Some(v as i64)
                } else {
                    None
                }
            },
            None => None,
        }
    } else {
        proof {
            if n >= 1 {
                assert(chars@.subrange(0, n as int) =~= lex@);
            }
        }
        None
    }
}

/// The payload a data document stands for.
pub fn decode_data_at(doc: &JsonValue) -> (r: Option<Data>)
    ensures
        match r {
            Some(d) => decode_data(jv(*doc)) == Some(d@),
            None => decode_data(jv(*doc)) is None,
        },
{
    match doc {
        JsonValue::Obj(ms) => {
            proof {
                crate::json::lemma_jv_obj(ms@);
            }
            if ms.len() != 1 {
                return None;
            }
            let tag = &ms[0].0;
            let body = &ms[0].1;
            if str_eq(tag.as_str(), "string") {
                match body {
                    JsonValue::Str(s) => Some(Data::String(s.clone())),
                    _ => None,
                }
            } else if str_eq(tag.as_str(), "json") {
                Some(Data::Json(body.clone()))
            } else if str_eq(tag.as_str(), "int") {
                match body {
                    JsonValue::Num(lex) => match int_of_lexeme_at(lex.as_str()) {
                        Some(v) => Some(Data::Int(v)),
                        None => None,
                    },
                    _ => None,
                }
            } else {
                None
            }
        },
        _ => None,
    }
}

/// The written value a value document stands for.
pub fn decode_value_at(doc: &JsonValue) -> (r: Option<Value>)
    ensures
        match r {
            Some(v) => decode_value(jv(*doc)) == Some(v@),
            None => decode_value(jv(*doc)) is None,
        },
{
    match doc {
        JsonValue::Obj(ms) => {
            proof {
                crate::json::lemma_jv_obj(ms@);
            }
            if has_dup_keys(ms) {
                return None;
            }
            if !keys_within_two(ms, "data", "expiry") {
                return None;
            }
            let data_at = match find_key(ms, "data") {
                Some(i) => i,
                None => {
                    return None;
                },
            };
            let data = match decode_data_at(&ms[data_at].1) {
                Some(d) => d,
                None => {
                    return None;
                },
            };
            let expiry: Option<u32> = match find_key(ms, "expiry") {
                None => None,
                Some(i) => {
                    match &ms[i].1 {
                        JsonValue::Null => None,
                        JsonValue::Num(lex) => {
                            let chars = str_to_chars(lex.as_str());
                            let n: usize = chars.len();
                            proof {
                                assert(chars@.subrange(0, n as int) =~= lex@);
                            }
                            if n >= 1 && all_digits_range(&chars, 0, n) {
                                match dec_to_u64(&chars, 0, n) {
                                    Some(v) => {
                                        if v <= 0xFFFF_FFFFu64 {
                                            Some(v as u32)
                                        } else {
                                            return None;
                                        }
                                    },
                                    None => {
                                        return None;
                                    },
                                }
                            } else {
                                return None;
                            }
                        },
                        _ => {
                            return None;
                        },
                    }
                },
            };
            Some(Value { data, expiry })
        },
        _ => None,
    }
}

/// The command a document stands for.
pub fn decode_command_at(doc: &JsonValue) -> (r: Option<Command>)
    ensures
        match r {
            Some(c) => decode_command(jv(*doc)) == Some(c@),
            None => decode_command(jv(*doc)) is None,
        },
{
    match doc {
        JsonValue::Obj(top) => {
            proof {
                crate::json::lemma_jv_obj(top@);
            }
            if top.len() != 1 {
                return None;
            }
            let tag = &top[0].0;
            let body = &top[0].1;
            if str_eq(tag.as_str(), "subscribe_broadcast") {
                match body {
                    JsonValue::Obj(ms) => {
                        proof {
                            crate::json::lemma_jv_obj(ms@);
                        }
                        if has_dup_keys(ms) || !keys_within_two(
                            ms,
                            "channel",
                            "subscribe_to_self",
                        ) {
                            return None;
                        }
                        let channel = match find_key(ms, "channel") {
                            Some(i) => match &ms[i].1 {
                                JsonValue::Str(s) => s.clone(),
                                _ => {
                                    return None;
                                },
                            },
                            None => {
                                return None;
                            },
                        };
                        let subscribe_to_self: bool = match find_key(ms, "subscribe_to_self") {
                            None => false,
                            Some(i) => match &ms[i].1 {
                                JsonValue::Bool(b) => *b,
                                _ => {
                                    return None;
                                },
                            },
                        };
                        Some(Command::SubscribeBroadcast { channel, subscribe_to_self })
                    },
                    _ => None,
                }
            } else if str_eq(tag.as_str(), "unsubscribe_broadcast") {
                match body {
                    JsonValue::Str(channel) => Some(
                        Command::UnsubscribeBroadcast(channel.clone()),
                    ),
                    _ => None,
                }
            } else if str_eq(tag.as_str(), "send_broadcast") {
                match body {
                    JsonValue::Obj(ms) => {
                        proof {
                            crate::json::lemma_jv_obj(ms@);
                        }
                        if has_dup_keys(ms) || !keys_within_two(ms, "channel", "message") {
                            return None;
                        }
                        let channel = match find_key(ms, "channel") {
                            Some(i) => match &ms[i].1 {
                                JsonValue::Str(s) => s.clone(),
                                _ => {
                                    return None;
                                },
                            },
                            None => {
                                return None;
                            },
                        };
                        let message = match find_key(ms, "message") {
                            Some(i) => match &ms[i].1 {
                                JsonValue::Str(s) => s.clone(),
                                _ => {
                                    return None;
                                },
                            },
                            None => {
                                return None;
                            },
                        };
                        Some(Command::SendBroadcast { channel, message })
                    },
                    _ => None,
                }
            } else if str_eq(tag.as_str(), "set") {
                match body {
                    JsonValue::Obj(ms) => {
                        proof {
                            crate::json::lemma_jv_obj(ms@);
                        }
                        if has_dup_keys(ms) || !keys_within_two(ms, "key", "value") {
                            return None;
                        }
                        let key = match find_key(ms, "key") {
                            Some(i) => match &ms[i].1 {
                                JsonValue::Str(s) => s.clone(),
                                _ => {
                                    return None;
                                },
                            },
                            None => {
                                return None;
                            },
                        };
                        let value = match find_key(ms, "value") {
                            Some(i) => match decode_value_at(&ms[i].1) {
                                Some(v) => v,
                                None => {
                                    return None;
                                },
                            },
                            None => {
                                return None;
                            },
                        };
                        Some(Command::SetValue { key, value })
                    },
                    _ => None,
                }
            } else if str_eq(tag.as_str(), "get") {
                match body {
                    JsonValue::Obj(ms) => {
                        proof {
                            crate::json::lemma_jv_obj(ms@);
                        }
                        if has_dup_keys(ms) || !keys_within_one(ms, "key") {
                            return None;
                        }
                        let key = match find_key(ms, "key") {
                            Some(i) => match &ms[i].1 {
                                JsonValue::Str(s) => s.clone(),
                                _ => {
                                    return None;
                                },
                            },
                            None => {
                                return None;
                            },
                        };
                        Some(Command::Get { key })
                    },
                    _ => None,
                }
            } else {
                None
            }
        },
        _ => None,
    }
}

/// How a payload is written: an object with the one key `string`, `json`
/// or `int`.
pub open spec fn encode_data(d: DataV) -> JsonV {
    match d {
        DataV::String(s) => JsonV::Obj(seq![("string"@, JsonV::Str(s))]),
        DataV::Json(j) => JsonV::Obj(seq![("json"@, j)]),
        DataV::Int(i) => JsonV::Obj(seq![("int"@, JsonV::Num(dec_int(i as int)))]),
    }
}

/// How a written value is sent back in a command echo: data first, then
/// the time to live, null when there is none.
pub open spec fn encode_value(v: ValueV) -> JsonV {
    JsonV::Obj(
        seq![
            ("data"@, encode_data(v.data)),
            (
                "expiry"@,
                match v.expiry {
                    Some(s) => JsonV::Num(dec_digits(s as nat)),
                    None => JsonV::Null,
                },
            ),
        ],
    )
}

/// How a command is written: one object whose sole key names it, every
/// optional field written out.
pub open spec fn encode_command(c: CommandV) -> JsonV {
    match c {
        CommandV::SubscribeBroadcast { channel, subscribe_to_self } => JsonV::Obj(
            seq![
                (
                    "subscribe_broadcast"@,
                    JsonV::Obj(
                        seq![
                            ("channel"@, JsonV::Str(channel)),
                            ("subscribe_to_self"@, JsonV::Bool(subscribe_to_self)),
                        ],
                    ),
                ),
            ],
        ),
        CommandV::UnsubscribeBroadcast(channel) => JsonV::Obj(
            seq![("unsubscribe_broadcast"@, JsonV::Str(channel))],
        ),
        CommandV::SendBroadcast { channel, message } => JsonV::Obj(
            seq![
                (
                    "send_broadcast"@,
                    JsonV::Obj(
                        seq![
                            ("channel"@, JsonV::Str(channel)),
                            ("message"@, JsonV::Str(message)),
                        ],
                    ),
                ),
            ],
        ),
        CommandV::SetValue { key, value } => JsonV::Obj(
            seq![
                (
                    "set"@,
                    JsonV::Obj(
                        seq![("key"@, JsonV::Str(key)), ("value"@, encode_value(value))],
                    ),
                ),
            ],
        ),
        CommandV::Get { key } => JsonV::Obj(
            seq![("get"@, JsonV::Obj(seq![("key"@, JsonV::Str(key))]))],
        ),
    }
}

/// How a stored value is written: its payload, and its expiry as an
/// RFC 3339 instant, null when it never expires or lies outside that
/// calendar.
pub open spec fn encode_stored_value(v: crate::db::ValueV) -> JsonV {
    JsonV::Obj(
        seq![
            ("data"@, encode_data(v.data)),
            (
                "expiry"@,
                match v.expiry {
                    Some(e) => if RFC3339_MIN <= e <= RFC3339_MAX {
                        JsonV::Str(rfc3339_of(e as int))
                    } else {
                        JsonV::Null
                    },
                    None => JsonV::Null,
                },
            ),
        ],
    )
}

/// How an outcome is written: the word `ok`, or an error object.
pub open spec fn encode_status(s: StatusMessageV) -> JsonV {
    match s {
        StatusMessageV::Okay => JsonV::Str("ok"@),
        StatusMessageV::Error { message, operation } => JsonV::Obj(
            seq![
                (
                    "error"@,
                    JsonV::Obj(
                        seq![
                            ("message"@, JsonV::Str(message)),
                            (
                                "operation"@,
                                match operation {
                                    Some(c) => encode_command(c),
                                    None => JsonV::Null,
                                },
                            ),
                        ],
                    ),
                ),
            ],
        ),
    }
}

/// How a message to the client is written: one object whose sole key
/// names it.
pub open spec fn encode_message(m: MessageV) -> JsonV {
    match m {
        MessageV::ClientId(id) => JsonV::Obj(seq![("client_id"@, JsonV::Str(id))]),
        MessageV::BroadcastMessage(b) => JsonV::Obj(
            seq![
                (
                    "broadcast_message"@,
                    JsonV::Obj(
                        seq![
                            ("client_id"@, JsonV::Str(b.client_id)),
                            ("channel"@, JsonV::Str(b.channel)),
                            ("message"@, JsonV::Str(b.message)),
                        ],
                    ),
                ),
            ],
        ),
        MessageV::Get(v) => JsonV::Obj(
            seq![
                (
                    "get"@,
                    match v {
                        Some(value) => encode_stored_value(value),
                        None => JsonV::Null,
                    },
                ),
            ],
        ),
        MessageV::Status(s) => JsonV::Obj(seq![("status"@, encode_status(s))]),
    }
}

/// One member under one key, as a document.
fn obj1(key: &str, value: JsonValue) -> (r: JsonValue)
    ensures
        jv(r) == JsonV::Obj(seq![(key@, jv(value))]),
{
    let ghost gv = jv(value);
    let mut ms: Vec<(String, JsonValue)> = Vec::new();
    ms.push((key.to_owned(), value));
    let r = JsonValue::Obj(ms);
    proof {
        crate::json::lemma_jv_obj(ms@);
        assert(jv_obj(ms@) =~= seq![(key@, gv)]);
    }
    r
}

/// Two members under two keys, in order, as a document.
fn obj2(key1: &str, value1: JsonValue, key2: &str, value2: JsonValue) -> (r: JsonValue)
    ensures
        jv(r) == JsonV::Obj(seq![(key1@, jv(value1)), (key2@, jv(value2))]),
{
    let ghost g1 = jv(value1);
    let ghost g2 = jv(value2);
    let mut ms: Vec<(String, JsonValue)> = Vec::new();
    ms.push((key1.to_owned(), value1));
    ms.push((key2.to_owned(), value2));
    let r = JsonValue::Obj(ms);
    proof {
        crate::json::lemma_jv_obj(ms@);
        assert(jv_obj(ms@) =~= seq![(key1@, g1), (key2@, g2)]);
    }
    r
}

/// Three members under three keys, in order, as a document.
fn obj3(
    key1: &str,
    value1: JsonValue,
    key2: &str,
    value2: JsonValue,
    key3: &str,
    value3: JsonValue,
) -> (r: JsonValue)
    ensures
        jv(r) == JsonV::Obj(
            seq![(key1@, jv(value1)), (key2@, jv(value2)), (key3@, jv(value3))],
        ),
{
    let ghost g1 = jv(value1);
    let ghost g2 = jv(value2);
    let ghost g3 = jv(value3);
    let mut ms: Vec<(String, JsonValue)> = Vec::new();
    ms.push((key1.to_owned(), value1));
    ms.push((key2.to_owned(), value2));
    ms.push((key3.to_owned(), value3));
    let r = JsonValue::Obj(ms);
    proof {
        crate::json::lemma_jv_obj(ms@);
        assert(jv_obj(ms@) =~= seq![(key1@, g1), (key2@, g2), (key3@, g3)]);
    }
    r
}

/// The payload as a document.
pub fn encode_data_at(d: &Data) -> (r: JsonValue)
    ensures
        jv(r) == encode_data(d@),
{
    match d {
        Data::String(s) => obj1("string", JsonValue::Str(s.clone())),
        Data::Json(j) => obj1("json", j.clone()),
        Data::Int(i) => {
            let lexeme = i64_to_dec(*i);
            obj1("int", JsonValue::Num(chars_to_string(&lexeme)))
        },
    }
}

/// The written value as a document.
pub fn encode_value_at(v: &Value) -> (r: JsonValue)
    ensures
        jv(r) == encode_value(v@),
{
    let expiry = match v.expiry {
        Some(s) => {
            let digits = u64_to_dec(s as u64);
            JsonValue::Num(chars_to_string(&digits))
        },
        None => JsonValue::Null,
    };
    let data = encode_data_at(&v.data);
    let r = obj2("data", data, "expiry", expiry);
    proof {
        assert(jv(r)->Obj_0 =~= encode_value(v@)->Obj_0);
    }
    r
}

/// The command as a document, every optional field written out.
pub fn encode_command_at(c: &Command) -> (r: JsonValue)
    ensures
        jv(r) == encode_command(c@),
{
    match c {
        Command::SubscribeBroadcast { channel, subscribe_to_self } => obj1(
            "subscribe_broadcast",
            obj2(
                "channel",
                JsonValue::Str(channel.clone()),
                "subscribe_to_self",
                JsonValue::Bool(*subscribe_to_self),
            ),
        ),
        Command::UnsubscribeBroadcast(channel) => obj1(
            "unsubscribe_broadcast",
            JsonValue::Str(channel.clone()),
        ),
        Command::SendBroadcast { channel, message } => obj1(
            "send_broadcast",
            obj2(
                "channel",
                JsonValue::Str(channel.clone()),
                "message",
                JsonValue::Str(message.clone()),
            ),
        ),
        Command::SetValue { key, value } => obj1(
            "set",
            obj2("key", JsonValue::Str(key.clone()), "value", encode_value_at(value)),
        ),
        Command::Get { key } => obj1("get", obj1("key", JsonValue::Str(key.clone()))),
    }
}

/// The stored value as a document.
pub fn encode_stored_value_at(v: &crate::db::Value) -> (r: JsonValue)
    ensures
        jv(r) == encode_stored_value(v@),
{
    let expiry = match v.expiry {
        Some(e) => {
            if RFC3339_MIN <= e && e <= RFC3339_MAX {
                JsonValue::Str(format_rfc3339(e))
            } else {
                JsonValue::Null
            }
        },
        None => JsonValue::Null,
    };
    let data = encode_data_at(&v.data);
    let r = obj2("data", data, "expiry", expiry);
    proof {
        assert(jv(r)->Obj_0 =~= encode_stored_value(v@)->Obj_0);
    }
    r
}

/// The outcome as a document.
pub fn encode_status_at(s: &StatusMessage) -> (r: JsonValue)
    ensures
        jv(r) == encode_status(s@),
{
    match s {
        StatusMessage::Okay => {
            let text = "ok".to_owned();
            proof {
                assert(text@ == "ok"@);
            }
            JsonValue::Str(text)
        },
        StatusMessage::Error { message, operation } => {
            let ghost target = encode_status(s@);
            let op = match operation {
                Some(c) => encode_command_at(c),
                None => JsonValue::Null,
            };
            let inner = obj2("message", JsonValue::Str(message.clone()), "operation", op);
            proof {
                assert(jv(inner)->Obj_0 =~= target->Obj_0[0].1->Obj_0);
            }
            let r = obj1("error", inner);
            proof {
                assert(jv(r)->Obj_0 =~= target->Obj_0);
            }
            r
        },
    }
}

/// The message as a document.
pub fn encode_message_at(m: &Message) -> (r: JsonValue)
    ensures
        jv(r) == encode_message(m@),
{
    match m {
        Message::ClientId(id) => obj1("client_id", JsonValue::Str(id.clone())),
        Message::BroadcastMessage(b) => obj1(
            "broadcast_message",
            obj3(
                "client_id",
                JsonValue::Str(b.client_id.clone()),
                "channel",
                JsonValue::Str(b.channel.clone()),
                "message",
                JsonValue::Str(b.message.clone()),
            ),
        ),
        Message::Get(v) => {
            let body = match v {
                Some(value) => encode_stored_value_at(value),
                None => JsonValue::Null,
            };
            obj1("get", body)
        },
        Message::Status(s) => obj1("status", encode_status_at(s)),
    }
}

/// The message as one line of JSON text, ready to send as a Text frame.
pub fn message_to_string(m: &Message) -> (r: String)
    ensures
        r@ == crate::jsontext::ser_value(encode_message(m@)),
{
    let doc = encode_message_at(m);
    crate::jsontext::json_to_string(&doc)
}

/// The command one frame's text stands for, when it is a JSON document
/// in the wire format.
pub open spec fn command_of_text(t: Seq<char>) -> Option<CommandV> {
    match crate::jsontext::parse_text(t) {
        Some(j) => decode_command(j),
        None => None,
    }
}

/// Decode one frame's text into a command.
pub fn decode_command_text(text: &str) -> (r: Option<Command>)
    ensures
        match r {
            Some(c) => command_of_text(text@) == Some(c@),
            None => command_of_text(text@) is None,
        },
{
    match crate::jsontext::parse_json(text) {
        Some(doc) => decode_command_at(&doc),
        None => None,
    }
}

/// An unsigned lexeme in canonical spelling: exactly how its own value
/// is spelled, so without leading zeros.
pub open spec fn canonical_unsigned(lex: Seq<char>) -> bool {
    lex == dec_digits(dec_val(lex))
}

/// A signed lexeme in canonical spelling: it spells an integer, and is
/// exactly how that integer is spelled, so without leading zeros and
/// without a minus sign on zero.
pub open spec fn canonical_int(lex: Seq<char>) -> bool {
    match int_of_lexeme(lex) {
        Some(v) => lex == dec_int(v),
        None => false,
    }
}

/// A command document with nothing left implicit: the optional fields
/// written out and the number lexemes canonical, so that re-encoding can
/// write the very same fields.
pub open spec fn explicit_command_json(j: JsonV) -> bool {
    match j {
        JsonV::Obj(top) => top.len() == 1 && {
            let tag = top[0].0;
            let body = top[0].1;
            if tag == "subscribe_broadcast"@ {
                match body {
                    JsonV::Obj(ms) => obj_get(ms, "subscribe_to_self"@) is Some,
                    _ => false,
                }
            } else if tag == "set"@ {
                match body {
                    JsonV::Obj(ms) => match obj_get(ms, "value"@) {
                        Some(JsonV::Obj(vs)) => obj_get(vs, "expiry"@) is Some && (match obj_get(
                            vs,
                            "expiry"@,
                        ) {
                            Some(JsonV::Num(lex)) => canonical_unsigned(lex),
                            _ => true,
                        }) && (match obj_get(vs, "data"@) {
                            Some(JsonV::Obj(ds)) => ds.len() == 1 && (ds[0].0 == "int"@
                                ==> (match ds[0].1 {
                                JsonV::Num(lex2) => canonical_int(lex2),
                                _ => true,
                            })),
                            _ => true,
                        }),
                        _ => false,
                    },
                    _ => false,
                }
            } else {
                true
            }
        },
        _ => false,
    }
}

/// Two member lists carry the same fields: no key twice on either side,
/// and each key bound to the same value, in whatever order.
pub open spec fn obj_sim(a: Seq<(Seq<char>, JsonV)>, b: Seq<(Seq<char>, JsonV)>) -> bool {
    no_dup_keys(a) && no_dup_keys(b) && forall|k: Seq<char>| obj_get(a, k) == obj_get(b, k)
}

/// Two command documents say the same thing: the same sole tag, and the
/// same fields under it, member order immaterial at every level the wire
/// format has an object.
pub open spec fn command_json_sim(a: JsonV, b: JsonV) -> bool {
    match (a, b) {
        (JsonV::Obj(ta), JsonV::Obj(tb)) => ta.len() == 1 && tb.len() == 1 && ta[0].0
            == tb[0].0 && {
            let tag = ta[0].0;
            if tag == "unsubscribe_broadcast"@ {
                ta[0].1 == tb[0].1
            } else if tag == "set"@ {
                match (ta[0].1, tb[0].1) {
                    (JsonV::Obj(ma), JsonV::Obj(mb)) => no_dup_keys(ma) && no_dup_keys(mb)
                        && (forall|k: Seq<char>| k != "value"@ ==> obj_get(ma, k) == obj_get(
                        mb,
                        k,
                    )) && (match (obj_get(ma, "value"@), obj_get(mb, "value"@)) {
                        (Some(JsonV::Obj(va)), Some(JsonV::Obj(vb))) => obj_sim(va, vb),
                        _ => false,
                    }),
                    _ => false,
                }
            } else {
                match (ta[0].1, tb[0].1) {
                    (JsonV::Obj(ma), JsonV::Obj(mb)) => obj_sim(ma, mb),
                    _ => false,
                }
            }
        },
        _ => false,
    }
}

/// What `obj_get` finds in a one-member list.
proof fn lemma_obj_get_one(a: Seq<char>, x: JsonV, k: Seq<char>)
    ensures
        obj_get(seq![(a, x)], a) == Some(x),
        k != a ==> obj_get(seq![(a, x)], k) is None,
{
    if k != a {
        lemma_obj_get_none(seq![(a, x)], k);
    }
}

/// What `obj_get` finds in a two-member list with distinct keys.
proof fn lemma_obj_get_two(a: Seq<char>, x: JsonV, b: Seq<char>, y: JsonV, k: Seq<char>)
    requires
        a != b,
    ensures
        obj_get(seq![(a, x), (b, y)], a) == Some(x),
        obj_get(seq![(a, x), (b, y)], b) == Some(y),
        k != a && k != b ==> obj_get(seq![(a, x), (b, y)], k) is None,
{
    let two = seq![(a, x), (b, y)];
    lemma_obj_get_at(two, a, 0);
    lemma_obj_get_at(two, b, 1);
    if k != a && k != b {
        lemma_obj_get_none(two, k);
    }
}

/// A key outside every member's key is not found.
proof fn lemma_obj_get_outside(ms: Seq<(Seq<char>, JsonV)>, allowed: Set<Seq<char>>, k: Seq<char>)
    requires
        keys_within(ms, allowed),
        !allowed.contains(k),
    ensures
        obj_get(ms, k) is None,
{
    assert forall|j: int| 0 <= j < ms.len() implies ms[j].0 != k by {
        assert(allowed.contains(ms[j].0));
    }
    lemma_obj_get_none(ms, k);
}

/// Round trip: a command document that decodes, with its optional fields
/// written out and its number lexemes canonical, re-encodes to a
/// semantically equal document: the same fields under the same keys,
/// member order immaterial.
pub proof fn lemma_command_round_trip(j: JsonV)
    requires
        decode_command(j) is Some,
        explicit_command_json(j),
    ensures
        command_json_sim(encode_command(decode_command(j)->0), j),
{
    reveal_strlit("subscribe_broadcast");
    reveal_strlit("unsubscribe_broadcast");
    reveal_strlit("send_broadcast");
    reveal_strlit("set");
    reveal_strlit("get");
    reveal_strlit("channel");
    reveal_strlit("subscribe_to_self");
    reveal_strlit("message");
    reveal_strlit("key");
    reveal_strlit("value");
    reveal_strlit("data");
    reveal_strlit("expiry");
    reveal_strlit("string");
    reveal_strlit("json");
    reveal_strlit("int");
    assert("subscribe_broadcast"@.len() == 19);
    assert("unsubscribe_broadcast"@.len() == 21);
    assert("send_broadcast"@.len() == 14);
    assert("set"@.len() == 3);
    assert("get"@.len() == 3);
    assert("get"@[0] == 'g' && "set"@[0] == 's');
    assert("channel"@.len() == 7);
    assert("subscribe_to_self"@.len() == 17);
    assert("message"@[0] == 'm' && "channel"@[0] == 'c');
    assert("key"@.len() == 3);
    assert("value"@.len() == 5);
    assert("data"@.len() == 4);
    assert("expiry"@.len() == 6);
    assert("key"@ != "value"@ && "data"@ != "expiry"@ && "channel"@ != "message"@
        && "channel"@ != "subscribe_to_self"@ && "set"@ != "get"@);
    let top = j->Obj_0;
    let tag = top[0].0;
    let body = top[0].1;
    let c = decode_command(j)->0;
    let e = encode_command(c);
    assert(top =~= seq![top[0]]);
    if tag == "subscribe_broadcast"@ {
        let ms = body->Obj_0;
        let channel = obj_get(ms, "channel"@)->0->Str_0;
        let sts = obj_get(ms, "subscribe_to_self"@)->0->Bool_0;
        let enc = seq![
            ("channel"@, JsonV::Str(channel)),
            ("subscribe_to_self"@, JsonV::Bool(sts)),
        ];
        assert forall|k: Seq<char>| true implies #[trigger] obj_get(enc, k) == obj_get(ms, k) by {
            lemma_obj_get_two(
                "channel"@,
                JsonV::Str(channel),
                "subscribe_to_self"@,
                JsonV::Bool(sts),
                k,
            );
            if k != "channel"@ && k != "subscribe_to_self"@ {
                lemma_obj_get_outside(ms, set!["channel"@, "subscribe_to_self"@], k);
            }
        }
        assert(e->Obj_0 =~= seq![("subscribe_broadcast"@, JsonV::Obj(enc))]);
        assert(no_dup_keys(enc));
        assert(no_dup_keys(ms));
        assert(obj_sim(enc, ms));
        assert(command_json_sim(e, j));
    } else if tag == "unsubscribe_broadcast"@ {
        assert(command_json_sim(e, j));
    } else if tag == "send_broadcast"@ {
        let ms = body->Obj_0;
        let channel = obj_get(ms, "channel"@)->0->Str_0;
        let message = obj_get(ms, "message"@)->0->Str_0;
        let enc = seq![("channel"@, JsonV::Str(channel)), ("message"@, JsonV::Str(message))];
        assert forall|k: Seq<char>| true implies #[trigger] obj_get(enc, k) == obj_get(ms, k) by {
            lemma_obj_get_two(
                "channel"@,
                JsonV::Str(channel),
                "message"@,
                JsonV::Str(message),
                k,
            );
            if k != "channel"@ && k != "message"@ {
                lemma_obj_get_outside(ms, set!["channel"@, "message"@], k);
            }
        }
        assert(e->Obj_0 =~= seq![("send_broadcast"@, JsonV::Obj(enc))]);
        assert(no_dup_keys(enc));
        assert(no_dup_keys(ms));
        assert(obj_sim(enc, ms));
        assert(command_json_sim(e, j));
    } else if tag == "set"@ {
        let ms = body->Obj_0;
        let key = obj_get(ms, "key"@)->0->Str_0;
        let vdoc = obj_get(ms, "value"@)->0;
        let vs = vdoc->Obj_0;
        let value = decode_value(vdoc)->0;
        let enc_value = encode_value(value);
        let enc = seq![("key"@, JsonV::Str(key)), ("value"@, enc_value)];
        assert forall|k: Seq<char>| k != "value"@ implies #[trigger] obj_get(enc, k) == obj_get(
            ms,
            k,
        ) by {
            lemma_obj_get_two("key"@, JsonV::Str(key), "value"@, enc_value, k);
            if k != "key"@ && k != "value"@ {
                lemma_obj_get_outside(ms, set!["key"@, "value"@], k);
            }
        }
        lemma_obj_get_two("key"@, JsonV::Str(key), "value"@, enc_value, "value"@);
        assert(obj_get(enc, "value"@) == Some(enc_value));
        // the value object: data is re-encoded equal, expiry likewise
        let data_doc = obj_get(vs, "data"@)->0;
        let ds = data_doc->Obj_0;
        assert(ds =~= seq![ds[0]]);
        let enc_data = encode_data(value.data);
        if ds[0].0 == "string"@ {
            assert(enc_data == data_doc);
        } else if ds[0].0 == "json"@ {
            assert(enc_data == data_doc);
        } else {
            assert(ds[0].0 == "int"@);
            let lex2 = ds[0].1->Num_0;
            let v = int_of_lexeme(lex2)->0;
            assert(value.data == DataV::Int(v as i64));
            assert(dec_int((v as i64) as int) == lex2);
            assert(enc_data == data_doc);
        }
        let enc_expiry: JsonV = match value.expiry {
            Some(ttl) => JsonV::Num(dec_digits(ttl as nat)),
            None => JsonV::Null,
        };
        let expiry_doc = obj_get(vs, "expiry"@)->0;
        match expiry_doc {
            JsonV::Null => {
                assert(value.expiry is None);
                assert(enc_expiry == expiry_doc);
            },
            JsonV::Num(lex) => {
                assert(canonical_unsigned(lex));
                assert(value.expiry == Some(dec_val(lex) as u32));
                assert(dec_digits((dec_val(lex) as u32) as nat) == lex);
                assert(enc_expiry == expiry_doc);
            },
            _ => {
                assert(false);
            },
        }
        let enc_vs = seq![("data"@, enc_data), ("expiry"@, enc_expiry)];
        assert forall|k: Seq<char>| true implies #[trigger] obj_get(enc_vs, k) == obj_get(
            vs,
            k,
        ) by {
            lemma_obj_get_two("data"@, enc_data, "expiry"@, enc_expiry, k);
            if k != "data"@ && k != "expiry"@ {
                lemma_obj_get_outside(vs, set!["data"@, "expiry"@], k);
            }
        }
        assert(obj_sim(enc_vs, vs));
        assert(e->Obj_0 =~= seq![("set"@, JsonV::Obj(enc))]);
        assert(no_dup_keys(enc));
        assert(no_dup_keys(ms));
        assert(obj_get(enc, "value"@) == Some(enc_value));
        assert(enc_value->Obj_0 =~= enc_vs);
        assert(obj_get(ms, "value"@) == Some(vdoc));
        assert(vdoc->Obj_0 == vs);
        assert(command_json_sim(e, j));
    } else {
        assert(tag == "get"@);
        let ms = body->Obj_0;
        let key = obj_get(ms, "key"@)->0->Str_0;
        let enc = seq![("key"@, JsonV::Str(key))];
        assert forall|k: Seq<char>| true implies #[trigger] obj_get(enc, k) == obj_get(ms, k) by {
            lemma_obj_get_one("key"@, JsonV::Str(key), k);
            if k != "key"@ {
                lemma_obj_get_outside(ms, set!["key"@], k);
            }
        }
        assert(e->Obj_0 =~= seq![("get"@, JsonV::Obj(enc))]);
        assert(no_dup_keys(enc));
        assert(no_dup_keys(ms));
        assert(obj_sim(enc, ms));
        assert(command_json_sim(e, j));
    }
}

/// A spelled unsigned number reads back as its value.
proof fn lemma_dec_lexeme_val(n: nat)
    ensures
        all_digits(dec_digits(n)),
        dec_digits(n).len() >= 1,
        dec_digits(n)[0] != '-',
        dec_val(dec_digits(n)) == n,
{
    crate::numbers::lemma_dec_digits_val(n);
    assert(is_digit(dec_digits(n)[0]));
}

/// A spelled signed number reads back as its value.
proof fn lemma_int_lexeme_roundtrip(n: int)
    requires
        i64::MIN <= n <= i64::MAX,
    ensures
        int_of_lexeme(dec_int(n)) == Some(n),
{
    let lex = dec_int(n);
    if n < 0 {
        let mag = (-n) as nat;
        lemma_dec_lexeme_val(mag);
        assert(lex == seq!['-'] + dec_digits(mag));
        assert(lex[0] == (seq!['-'] + dec_digits(mag))[0]);
        assert(lex.len() >= 2);
        assert(lex.subrange(1, lex.len() as int) =~= dec_digits(mag));
        assert(int_of_lexeme(lex) == Some(-(dec_val(dec_digits(mag)) as int)));
    } else {
        lemma_dec_lexeme_val(n as nat);
        assert(lex == dec_digits(n as nat));
        assert(!(lex.len() >= 2 && lex[0] == '-'));
        assert(int_of_lexeme(lex) == Some(dec_val(dec_digits(n as nat)) as int));
    }
}

/// Decoding what was encoded gives the command back: the codec loses
/// nothing, whatever the command holds.
pub proof fn lemma_command_encode_decode(c: CommandV)
    ensures
        decode_command(encode_command(c)) == Some(c),
{
    reveal_strlit("subscribe_broadcast");
    reveal_strlit("unsubscribe_broadcast");
    reveal_strlit("send_broadcast");
    reveal_strlit("set");
    reveal_strlit("get");
    reveal_strlit("channel");
    reveal_strlit("subscribe_to_self");
    reveal_strlit("message");
    reveal_strlit("key");
    reveal_strlit("value");
    reveal_strlit("data");
    reveal_strlit("expiry");
    reveal_strlit("string");
    reveal_strlit("json");
    reveal_strlit("int");
    assert("subscribe_broadcast"@.len() == 19);
    assert("unsubscribe_broadcast"@.len() == 21);
    assert("send_broadcast"@.len() == 14);
    assert("set"@.len() == 3);
    assert("get"@.len() == 3);
    assert("get"@[0] == 'g' && "set"@[0] == 's');
    assert("channel"@.len() == 7);
    assert("subscribe_to_self"@.len() == 17);
    assert("message"@[0] == 'm' && "channel"@[0] == 'c');
    assert("key"@.len() == 3);
    assert("value"@.len() == 5);
    assert("data"@.len() == 4);
    assert("expiry"@.len() == 6);
    assert("key"@ != "value"@ && "data"@ != "expiry"@ && "channel"@ != "message"@
        && "channel"@ != "subscribe_to_self"@ && "set"@ != "get"@);
    let e = encode_command(c);
    match c {
        CommandV::SubscribeBroadcast { channel, subscribe_to_self } => {
            let ms = seq![
                ("channel"@, JsonV::Str(channel)),
                ("subscribe_to_self"@, JsonV::Bool(subscribe_to_self)),
            ];
            lemma_obj_get_two(
                "channel"@,
                JsonV::Str(channel),
                "subscribe_to_self"@,
                JsonV::Bool(subscribe_to_self),
                "channel"@,
            );
            assert(keys_within(ms, set!["channel"@, "subscribe_to_self"@]));
        },
        CommandV::UnsubscribeBroadcast(channel) => {},
        CommandV::SendBroadcast { channel, message } => {
            let ms = seq![("channel"@, JsonV::Str(channel)), ("message"@, JsonV::Str(message))];
            lemma_obj_get_two(
                "channel"@,
                JsonV::Str(channel),
                "message"@,
                JsonV::Str(message),
                "channel"@,
            );
            assert(keys_within(ms, set!["channel"@, "message"@]));
        },
        CommandV::SetValue { key, value } => {
            let vdoc = encode_value(value);
            let ms = seq![("key"@, JsonV::Str(key)), ("value"@, vdoc)];
            lemma_obj_get_two("key"@, JsonV::Str(key), "value"@, vdoc, "key"@);
            assert(keys_within(ms, set!["key"@, "value"@]));
            // the value object reads back
            let ddoc = encode_data(value.data);
            let edoc: JsonV = match value.expiry {
                Some(ttl) => JsonV::Num(dec_digits(ttl as nat)),
                None => JsonV::Null,
            };
            let vs = seq![("data"@, ddoc), ("expiry"@, edoc)];
            lemma_obj_get_two("data"@, ddoc, "expiry"@, edoc, "data"@);
            assert(keys_within(vs, set!["data"@, "expiry"@]));
            assert("string"@.len() == 6);
            assert("json"@.len() == 4);
            assert("int"@.len() == 3);
            assert("string"@[0] == 's' && "json"@[0] == 'j' && "int"@[0] == 'i');
            match value.data {
                DataV::String(t) => {
                    assert(decode_data(ddoc) == Some(value.data));
                },
                DataV::Json(j) => {
                    assert(decode_data(ddoc) == Some(value.data));
                },
                DataV::Int(n) => {
                    lemma_int_lexeme_roundtrip(n as int);
                    assert(decode_data(ddoc) == Some(value.data));
                },
            }
            match value.expiry {
                Some(ttl) => {
                    lemma_dec_lexeme_val(ttl as nat);
                    assert(decode_expiry(vs) == Some(Some(ttl)));
                },
                None => {
                    assert(decode_expiry(vs) == Some(None::<u32>));
                },
            }
            assert(no_dup_keys(vs));
            assert(obj_get(vs, "data"@) == Some(ddoc));
            assert(obj_get(vs, "expiry"@) == Some(edoc));
            assert(value == ValueV { data: value.data, expiry: value.expiry });
            assert(vdoc->Obj_0 =~= vs);
            assert(vdoc == JsonV::Obj(vdoc->Obj_0));
            assert(decode_value(vdoc) == Some(value));
        },
        CommandV::Get { key } => {
            let ms = seq![("key"@, JsonV::Str(key))];
            lemma_obj_get_one("key"@, JsonV::Str(key), "key"@);
            assert(keys_within(ms, set!["key"@]));
        },
    }
}

/// The one payload a command can carry that must itself be writable as
/// text: a stored JSON document.
pub open spec fn wf_command_payload(c: CommandV) -> bool {
    match c {
        CommandV::SetValue { value, .. } => match value.data {
            DataV::Json(j) => crate::jsontext::wf_json(j),
            _ => true,
        },
        _ => true,
    }
}

/// What the encoder writes is a well-formed document, whenever the
/// carried JSON payload is.
pub proof fn lemma_encode_command_wf(c: CommandV)
    requires
        wf_command_payload(c),
    ensures
        crate::jsontext::wf_json(encode_command(c)),
{
    let e = encode_command(c);
    match c {
        CommandV::SubscribeBroadcast { channel, subscribe_to_self } => {
            let body = JsonV::Obj(
                seq![
                    ("channel"@, JsonV::Str(channel)),
                    ("subscribe_to_self"@, JsonV::Bool(subscribe_to_self)),
                ],
            );
            crate::jsontext::lemma_wf_members_two(
                ("channel"@, JsonV::Str(channel)),
                ("subscribe_to_self"@, JsonV::Bool(subscribe_to_self)),
            );
            crate::jsontext::lemma_wf_members_one(("subscribe_broadcast"@, body));
        },
        CommandV::UnsubscribeBroadcast(channel) => {
            crate::jsontext::lemma_wf_members_one(
                ("unsubscribe_broadcast"@, JsonV::Str(channel)),
            );
        },
        CommandV::SendBroadcast { channel, message } => {
            let body = JsonV::Obj(
                seq![("channel"@, JsonV::Str(channel)), ("message"@, JsonV::Str(message))],
            );
            crate::jsontext::lemma_wf_members_two(
                ("channel"@, JsonV::Str(channel)),
                ("message"@, JsonV::Str(message)),
            );
            crate::jsontext::lemma_wf_members_one(("send_broadcast"@, body));
        },
        CommandV::SetValue { key, value } => {
            let ddoc = encode_data(value.data);
            match value.data {
                DataV::String(t) => {
                    crate::jsontext::lemma_wf_members_one(("string"@, JsonV::Str(t)));
                },
                DataV::Json(j) => {
                    crate::jsontext::lemma_wf_members_one(("json"@, j));
                },
                DataV::Int(n) => {
                    crate::jsontext::lemma_dec_int_wf(n as int);
                    crate::jsontext::lemma_wf_members_one(
                        ("int"@, JsonV::Num(dec_int(n as int))),
                    );
                },
            }
            let edoc: JsonV = match value.expiry {
                Some(ttl) => JsonV::Num(dec_digits(ttl as nat)),
                None => JsonV::Null,
            };
            match value.expiry {
                Some(ttl) => {
                    crate::jsontext::lemma_dec_digits_wf(ttl as nat);
                },
                None => {},
            }
            crate::jsontext::lemma_wf_members_two(("data"@, ddoc), ("expiry"@, edoc));
            let vdoc = encode_value(value);
            assert(vdoc->Obj_0 =~= seq![("data"@, ddoc), ("expiry"@, edoc)]);
            assert(crate::jsontext::wf_json(vdoc));
            crate::jsontext::lemma_wf_members_two(
                ("key"@, JsonV::Str(key)),
                ("value"@, vdoc),
            );
            let body = JsonV::Obj(seq![("key"@, JsonV::Str(key)), ("value"@, vdoc)]);
            crate::jsontext::lemma_wf_members_one(("set"@, body));
        },
        CommandV::Get { key } => {
            let body = JsonV::Obj(seq![("key"@, JsonV::Str(key))]);
            crate::jsontext::lemma_wf_members_one(("key"@, JsonV::Str(key)));
            crate::jsontext::lemma_wf_members_one(("get"@, body));
        },
    }
}

/// Round trip through the wire itself: the text written for an encoded
/// command reads back as one document and decodes to the very command.
pub proof fn lemma_command_text_round_trip(c: CommandV)
    requires
        wf_command_payload(c),
    ensures
        command_of_text(crate::jsontext::ser_value(encode_command(c))) == Some(c),
{
    lemma_encode_command_wf(c);
    crate::jsontext::lemma_text_round_trip(encode_command(c));
    lemma_command_encode_decode(c);
}

/// What must itself be writable inside a message: a stored JSON
/// document, or the payload of an echoed command.
pub open spec fn wf_message_payload(m: MessageV) -> bool {
    match m {
        MessageV::Get(Some(v)) => match v.data {
            DataV::Json(j) => crate::jsontext::wf_json(j),
            _ => true,
        },
        MessageV::Status(StatusMessageV::Error { operation: Some(c), .. }) => {
            wf_command_payload(c)
        },
        _ => true,
    }
}

/// What the encoder writes for a payload is a well-formed document,
/// whenever a carried JSON document is.
proof fn lemma_encode_data_wf(d: DataV)
    requires
        match d {
            DataV::Json(j) => crate::jsontext::wf_json(j),
            _ => true,
        },
    ensures
        crate::jsontext::wf_json(encode_data(d)),
{
    match d {
        DataV::String(t) => {
            crate::jsontext::lemma_wf_members_one(("string"@, JsonV::Str(t)));
        },
        DataV::Json(j) => {
            crate::jsontext::lemma_wf_members_one(("json"@, j));
        },
        DataV::Int(n) => {
            crate::jsontext::lemma_dec_int_wf(n as int);
            crate::jsontext::lemma_wf_members_one(("int"@, JsonV::Num(dec_int(n as int))));
        },
    }
}

/// What the encoder writes for a message is a well-formed document,
/// whenever its payloads are.
pub proof fn lemma_encode_message_wf(m: MessageV)
    requires
        wf_message_payload(m),
    ensures
        crate::jsontext::wf_json(encode_message(m)),
{
    match m {
        MessageV::ClientId(id) => {
            crate::jsontext::lemma_wf_members_one(("client_id"@, JsonV::Str(id)));
        },
        MessageV::BroadcastMessage(b) => {
            crate::jsontext::lemma_wf_members_three(
                ("client_id"@, JsonV::Str(b.client_id)),
                ("channel"@, JsonV::Str(b.channel)),
                ("message"@, JsonV::Str(b.message)),
            );
            let body = JsonV::Obj(
                seq![
                    ("client_id"@, JsonV::Str(b.client_id)),
                    ("channel"@, JsonV::Str(b.channel)),
                    ("message"@, JsonV::Str(b.message)),
                ],
            );
            crate::jsontext::lemma_wf_members_one(("broadcast_message"@, body));
        },
        MessageV::Get(v) => {
            let body: JsonV = match v {
                Some(value) => encode_stored_value(value),
                None => JsonV::Null,
            };
            match v {
                Some(value) => {
                    lemma_encode_data_wf(value.data);
                    let edoc: JsonV = match value.expiry {
                        Some(e) => if RFC3339_MIN <= e <= RFC3339_MAX {
                            JsonV::Str(rfc3339_of(e as int))
                        } else {
                            JsonV::Null
                        },
                        None => JsonV::Null,
                    };
                    crate::jsontext::lemma_wf_members_two(
                        ("data"@, encode_data(value.data)),
                        ("expiry"@, edoc),
                    );
                    assert(body->Obj_0 =~= seq![
                        ("data"@, encode_data(value.data)),
                        ("expiry"@, edoc),
                    ]);
                },
                None => {},
            }
            crate::jsontext::lemma_wf_members_one(("get"@, body));
        },
        MessageV::Status(st) => {
            let body = encode_status(st);
            match st {
                StatusMessageV::Okay => {},
                StatusMessageV::Error { message, operation } => {
                    let op: JsonV = match operation {
                        Some(c) => encode_command(c),
                        None => JsonV::Null,
                    };
                    match operation {
                        Some(c) => {
                            lemma_encode_command_wf(c);
                        },
                        None => {},
                    }
                    crate::jsontext::lemma_wf_members_two(
                        ("message"@, JsonV::Str(message)),
                        ("operation"@, op),
                    );
                    let inner = JsonV::Obj(
                        seq![("message"@, JsonV::Str(message)), ("operation"@, op)],
                    );
                    crate::jsontext::lemma_wf_members_one(("error"@, inner));
                    assert(body->Obj_0.len() == 1);
                    assert(body->Obj_0[0].1->Obj_0 =~= inner->Obj_0);
                    assert(body->Obj_0[0].1 == inner);
                    assert(body->Obj_0 =~= seq![("error"@, inner)]);
                },
            }
            crate::jsontext::lemma_wf_members_one(("status"@, body));
        },
    }
}

/// Every reply the writer sends is one well-formed document: its text
/// reads back as exactly the encoded message.
pub proof fn lemma_message_text_round_trip(m: MessageV)
    requires
        wf_message_payload(m),
    ensures
        crate::jsontext::parse_text(crate::jsontext::ser_value(encode_message(m)))
            == Some(encode_message(m)),
{
    lemma_encode_message_wf(m);
    crate::jsontext::lemma_text_round_trip(encode_message(m));
}

} // verus!
