use vstd::prelude::*;
use vstd::string::*;
use vstd::utf8::encode_utf8;
use std::collections::VecDeque;
use crate::model::{RespType, RespValue, elems_view, values_view};
use crate::numbers::{parse_i32_spec, parse_usize_spec, parse_i32_str, parse_usize_str};
use crate::text::{strs_view, split_crlf, split_once_space, split_once_space_str, tokenize_resp_string};

verus! {

/// Why a RESP message could not be read.
#[derive(Debug, PartialEq, Eq)]
pub enum ParseFault {
    /// A value was expected, but the tokens ran out.
    NoTokens,
    /// An integer value is not a decimal `i32`.
    InvalidInteger,
    /// A bulk string announces a negative length other than -1.
    InvalidBulkLength,
    /// A bulk string announces a length but its text is missing.
    BulkMissing,
    /// A bulk string's text does not have the announced length in bytes.
    BulkLengthMismatch,
    /// A bulk string's length is not a decimal `i32`.
    UnreadableBulkLength,
    /// An array's length is not a decimal `usize`.
    UnreadableArrayLength,
    /// A token starts with none of `*`, `+`, `-`, `:`, `$`.
    InvalidTypeMarker,
    /// A token is shorter than two characters or starts with a non-ASCII
    /// character, or an error token has no space: such input is not a message
    /// at all, and reading it stops.
    Malformed,
}

/// The message that reports a fault.
pub open spec fn fault_message(f: ParseFault) -> Seq<char> {
    match f {
        ParseFault::NoTokens => "No token strings in vector slice"@,
        ParseFault::InvalidInteger => "failed to parse an integer value"@,
        ParseFault::InvalidBulkLength => "Invalid bulk string length"@,
        ParseFault::BulkMissing => "Bulk string missing."@,
        ParseFault::BulkLengthMismatch => "Bulk string has incorrect length"@,
        ParseFault::UnreadableBulkLength => "Failed to parse string length of bulk string"@,
        ParseFault::UnreadableArrayLength => "Failed to parse array length."@,
        ParseFault::InvalidTypeMarker => "Invalid token, first character must be *,+,-,: or $"@,
        ParseFault::Malformed => Seq::empty(),
    }
}

/// The number of bytes of the UTF-8 encoding of `t`, as `str::len` reports it.
pub open spec fn byte_len(t: Seq<char>) -> usize {
    encode_utf8(t).len() as usize
}

/// A token can be split into its type marker and its text: it has at least two
/// characters and the first is ASCII.
pub open spec fn token_head_ok(t: Seq<char>) -> bool {
    t.len() >= 2 && (t[0] as int) < 128
}

/// Puts `pre` in front of the values that `r` read.
pub open spec fn prefix_values(
    pre: Seq<RespValue>,
    r: Result<(Seq<RespValue>, Seq<Seq<char>>), ParseFault>,
) -> Result<(Seq<RespValue>, Seq<Seq<char>>), ParseFault> {
    match r {
        Ok((vs, rest)) => Ok((pre + vs, rest)),
        Err(e) => Err(e),
    }
}

/// Reads one value from the front of `toks`; gives it with the tokens left.
pub open spec fn parse_one(toks: Seq<Seq<char>>) -> Result<(RespValue, Seq<Seq<char>>), ParseFault>
    decreases toks.len(), 0nat,
{
    if toks.len() == 0 {
        Err(ParseFault::NoTokens)
    } else {
        let t = toks[0];
        let rest = toks.drop_first();
        if !token_head_ok(t) {
            Err(ParseFault::Malformed)
        } else {
            let c = t[0];
            let info = t.drop_first();
            if c == '+' {
                Ok((RespValue::SimpleString(info), rest))
            } else if c == '-' {
                match split_once_space(info) {
                    Some((a, b)) => Ok((RespValue::RespError(a, b), rest)),
                    None => Err(ParseFault::Malformed),
                }
            } else if c == ':' {
                match parse_i32_spec(info) {
                    Some(v) => Ok((RespValue::Integer(v), rest)),
                    None => Err(ParseFault::InvalidInteger),
                }
            } else if c == '$' {
                match parse_i32_spec(info) {
                    Some(n) => if n == -1 {
                        Ok((RespValue::BulkString(None), rest))
                    } else if n < -1 {
                        Err(ParseFault::InvalidBulkLength)
                    } else if rest.len() == 0 {
                        Err(ParseFault::BulkMissing)
                    } else if byte_len(rest[0]) != n as usize {
                        Err(ParseFault::BulkLengthMismatch)
                    } else {
                        Ok((RespValue::BulkString(Some(rest[0])), rest.drop_first()))
                    },
                    None => Err(ParseFault::UnreadableBulkLength),
                }
            } else if c == '*' {
                match parse_usize_spec(info) {
                    Some(n) => match parse_many(rest, n) {
                        Ok((vs, r)) => Ok((RespValue::Array(vs), r)),
                        Err(e) => Err(e),
                    },
                    None => Err(ParseFault::UnreadableArrayLength),
                }
            } else {
                Err(ParseFault::InvalidTypeMarker)
            }
        }
    }
}

/// Reads `n` values, one after another, from the front of `toks`.
pub open spec fn parse_many(toks: Seq<Seq<char>>, n: usize) -> Result<(Seq<RespValue>, Seq<Seq<char>>), ParseFault>
    decreases toks.len(), n as nat + 1,
{
    if n == 0 {
        Ok((Seq::empty(), toks))
    } else {
        match parse_one(toks) {
            Ok((v, r)) => if r.len() < toks.len() {
                prefix_values(seq![v], parse_many(r, (n - 1) as usize))
            } else {
                Err(ParseFault::NoTokens)
            },
            Err(e) => Err(e),
        }
    }
}

/// Reads values until the tokens are used up.
pub open spec fn parse_all(toks: Seq<Seq<char>>) -> Result<Seq<RespValue>, ParseFault>
    decreases toks.len(),
{
    if toks.len() == 0 {
        Ok(Seq::empty())
    } else {
        match parse_one(toks) {
            Ok((v, r)) => if r.len() < toks.len() {
                match parse_all(r) {
                    Ok(vs) => Ok(seq![v] + vs),
                    Err(e) => Err(e),
                }
            } else {
                Err(ParseFault::NoTokens)
            },
            Err(e) => Err(e),
        }
    }
}

/// What reading a whole message gives.
pub open spec fn parse_resp_spec(input: Seq<char>) -> Result<Seq<RespValue>, ParseFault> {
    parse_all(split_crlf(input).drop_last())
}

/// Reading stops at `r` because the input is malformed.
pub open spec fn is_malformed<T>(r: Result<T, ParseFault>) -> bool {
    r matches Err(ParseFault::Malformed)
}

/// How many lines a value takes on the wire: two for a bulk string with its
/// text, its own line plus those of its elements for an array, one otherwise.
pub open spec fn value_lines(v: RespValue) -> nat
    decreases v,
{
    match v {
        RespValue::BulkString(Some(_)) => 2,
        RespValue::Array(vs) => 1 + values_lines(vs),
        _ => 1,
    }
}

/// How many lines several values take on the wire.
pub open spec fn values_lines(vs: Seq<RespValue>) -> nat
    decreases vs,
{
    if vs.len() == 0 {
        0
    } else {
        value_lines(vs[0]) + values_lines(vs.drop_first())
    }
}

/// A value read uses exactly its own number of lines, at least one.
pub proof fn lemma_parse_one_lines(toks: Seq<Seq<char>>)
    ensures
        parse_one(toks) matches Ok((v, rest)) ==> 1 <= value_lines(v) <= toks.len() && rest
            == toks.skip(value_lines(v) as int),
    decreases toks.len(), 0nat,
{
    if toks.len() > 0 && token_head_ok(toks[0]) {
        let rest0 = toks.drop_first();
        assert(rest0 =~= toks.skip(1));
        if toks[0][0] == '*' {
            if let Some(n) = parse_usize_spec(toks[0].drop_first()) {
                lemma_parse_many_lines(rest0, n);
                if let Ok((vs, r)) = parse_many(rest0, n) {
                    assert(rest0.skip(values_lines(vs) as int) =~= toks.skip(1 + values_lines(vs) as int));
                }
            }
        } else if toks[0][0] == '$' && rest0.len() > 0 {
            assert(rest0.drop_first() =~= toks.skip(2));
        }
    }
}

/// Values read, `n` of them, use exactly their own number of lines.
pub proof fn lemma_parse_many_lines(toks: Seq<Seq<char>>, n: usize)
    ensures
        parse_many(toks, n) matches Ok((vs, rest)) ==> vs.len() == n && values_lines(vs)
            <= toks.len() && rest == toks.skip(values_lines(vs) as int),
    decreases toks.len(), n as nat + 1,
{
    if n == 0 {
        if let Ok((vs, rest)) = parse_many(toks, n) {
            assert(toks.skip(0) =~= toks);
        }
    } else {
        lemma_parse_one_lines(toks);
        if let Ok((v, r)) = parse_one(toks) {
            if r.len() < toks.len() {
                lemma_parse_many_lines(r, (n - 1) as usize);
                if let Ok((vs2, rest)) = parse_many(r, (n - 1) as usize) {
                    let vs = seq![v] + vs2;
                    assert(vs.drop_first() =~= vs2);
                    assert(vs[0] == v);
                    assert(r.skip(values_lines(vs2) as int) =~= toks.skip(
                        (value_lines(v) + values_lines(vs2)) as int,
                    ));
                }
            }
        }
    }
}

/// The type marker of a token and the text after it.
fn parse_command_token<'a>(command_string: &'a str) -> (r: (char, &'a str))
    requires
        token_head_ok(command_string@),
    ensures
        r.0 == command_string@[0],
        r.1@ == command_string@.drop_first(),
{
    let len = command_string.unicode_len();
    let c = command_string.get_char(0);
    let rest = command_string.substring_char(1, len);
    assert(rest@ =~= command_string@.drop_first());
    (c, rest)
}

/// Whether a token can be split into its type marker and its text.
fn command_token_ok(t: &str) -> (b: bool)
    ensures
        b == token_head_ok(t@),
{
    t.unicode_len() >= 2 && (t.get_char(0) as u32) < 128
}

/// `r` is what `spec` describes.
pub open spec fn one_matches<'a>(
    spec: Result<(RespValue, Seq<Seq<char>>), ParseFault>,
    r: Result<(RespType<'a>, VecDeque<&'a str>), ParseFault>,
) -> bool {
    match spec {
        Ok((v, rest)) => r matches Ok((t, q)) && t@ == v && strs_view(q@) == rest,
        Err(f) => r matches Err(g) && g == f,
    }
}

/// Reads one value from the front of the tokens and gives it with the tokens left.
fn parse_one_resp_token<'a>(tokens: VecDeque<&'a str>) -> (r: Result<
    (RespType<'a>, VecDeque<&'a str>),
    ParseFault,
>)
    requires
        !is_malformed(parse_one(strs_view(tokens@))),
    ensures
        one_matches(parse_one(strs_view(tokens@)), r),
        r matches Ok((t, q)) ==> strs_view(q@) == strs_view(tokens@).skip(value_lines(t@) as int),
    decreases tokens@.len(),
{
    let mut token_strings = tokens;
    let ghost toks = strs_view(token_strings@);
    proof {
        lemma_parse_one_lines(toks);
    }
    let ghost orig_len = token_strings@.len();
    let first_token = match token_strings.pop_front() {
        Some(token_string) => token_string,
        None => {
            return Err(ParseFault::NoTokens);
        },
    };
    proof {
        assert(strs_view(token_strings@) =~= toks.drop_first());
        assert(first_token@ == toks[0]);
    }
    let (command, command_info) = parse_command_token(first_token);
    if command == '+' {
        Ok((RespType::SimpleString(command_info), token_strings))
    } else if command == '-' {
        match split_once_space_str(command_info) {
            Some((error_type, error_message)) => Ok(
                (RespType::RespError((error_type, error_message)), token_strings),
            ),
            None => vstd::pervasive::unreached(),
        }
    } else if command == ':' {
        match parse_i32_str(command_info) {
            Some(value) => Ok((RespType::Integer(value), token_strings)),
            None => Err(ParseFault::InvalidInteger),
        }
    } else if command == '$' {
        match parse_i32_str(command_info) {
            Some(expected_string_length) => {
                if expected_string_length == -1 {
                    Ok((RespType::BulkString(None), token_strings))
                } else if expected_string_length < -1 {
                    Err(ParseFault::InvalidBulkLength)
                } else {
                    let ghost rest = strs_view(token_strings@);
                    let string = match token_strings.pop_front() {
                        Some(string) => string,
                        None => {
                            return Err(ParseFault::BulkMissing);
                        },
                    };
                    proof {
                        assert(strs_view(token_strings@) =~= rest.drop_first());
                        assert(string@ == rest[0]);
                    }
                    if string.len() != expected_string_length as usize {
                        return Err(ParseFault::BulkLengthMismatch);
                    }
                    Ok((RespType::BulkString(Some(string)), token_strings))
                }
            },
            None => Err(ParseFault::UnreadableBulkLength),
        }
    } else if command == '*' {
        match parse_usize_str(command_info) {
            Some(expected_array_length) => {
                let ghost rest = strs_view(token_strings@);
                let mut acc: Vec<Box<RespType<'a>>> = Vec::new();
                let mut tail = token_strings;
                let mut i: usize = 0;
                proof {
                    assert(elems_view(acc@) =~= Seq::<RespValue>::empty());
                    assert(prefix_values(Seq::empty(), parse_many(rest, expected_array_length))
                        =~= parse_many(rest, expected_array_length)) by {
                        if let Ok((vs, r)) = parse_many(rest, expected_array_length) {
                            assert(Seq::<RespValue>::empty() + vs =~= vs);
                        }
                    }
                }
                while i < expected_array_length
                    invariant
                        i <= expected_array_length,
                        tail@.len() < orig_len,
                        orig_len == tokens@.len(),
                        toks == strs_view(tokens@),
                        !is_malformed(parse_one(toks)),
                        parse_one(toks) == (match parse_many(rest, expected_array_length) {
                            Ok((vs, r)) => Ok((RespValue::Array(vs), r)),
                            Err(e) => Err(e),
                        }),
                        parse_many(rest, expected_array_length) == prefix_values(
                            elems_view(acc@),
                            parse_many(strs_view(tail@), (expected_array_length - i) as usize),
                        ),
                    decreases expected_array_length - i,
                {
                    let ghost cur = strs_view(tail@);
                    let ghost m = (expected_array_length - i) as usize;
                    proof {
                        lemma_parse_one_lines(cur);
                    }
                    match parse_one_resp_token(tail) {
                        Ok((token, next_tail)) => {
                            let ghost before = acc@;
                            acc.push(Box::new(token));
                            proof {
                                assert(acc@.drop_last() =~= before);
                                assert(elems_view(acc@) == elems_view(before).push(token@));
                                let x = parse_many(strs_view(next_tail@), (m - 1) as usize);
                                if let Ok((vs, r)) = x {
                                    assert(elems_view(before) + (seq![token@] + vs)
                                        =~= elems_view(before).push(token@) + vs);
                                }
                            }
                            tail = next_tail;
                        },
                        Err(e) => {
                            assert(parse_many(cur, m) == Err::<(Seq<RespValue>, Seq<Seq<char>>), ParseFault>(e));
                            return Err(e);
                        },
                    }
                    i += 1;
                }
                Ok((RespType::Array(acc), tail))
            },
            None => Err(ParseFault::UnreadableArrayLength),
        }
    } else {
        Err(ParseFault::InvalidTypeMarker)
    }
}

/// `r` is what `spec` describes, after the values already in `acc`.
pub open spec fn all_matches<'a>(
    spec: Result<Seq<RespValue>, ParseFault>,
    acc: Seq<RespValue>,
    r: Result<Vec<RespType<'a>>, ParseFault>,
) -> bool {
    match spec {
        Ok(vs) => r matches Ok(out) && values_view(out@) == acc + vs,
        Err(f) => r matches Err(g) && g == f,
    }
}

/// Reads values until the tokens are used up, after those already in `acc`.
fn _parse_token_strings<'a>(token_strings: VecDeque<&'a str>, acc: Vec<RespType<'a>>) -> (r:
    Result<Vec<RespType<'a>>, ParseFault>)
    requires
        !is_malformed(parse_all(strs_view(token_strings@))),
    ensures
        all_matches(parse_all(strs_view(token_strings@)), values_view(acc@), r),
    decreases token_strings@.len(),
{
    let mut acc = acc;
    let ghost toks = strs_view(token_strings@);
    if token_strings.len() == 0 {
        assert(values_view(acc@) + Seq::<RespValue>::empty() =~= values_view(acc@));
        Ok(acc)
    } else {
        proof {
            lemma_parse_one_lines(toks);
        }
        match parse_one_resp_token(token_strings) {
            Ok((token, tail)) => {
                let ghost before = values_view(acc@);
                acc.push(token);
                assert(values_view(acc@) =~= before.push(token@));
                let r = _parse_token_strings(tail, acc);
                proof {
                    if let Ok(vs) = parse_all(strs_view(tail@)) {
                        assert(before + (seq![token@] + vs) =~= before.push(token@) + vs);
                    }
                }
                r
            },
            Err(error_string) => Err(error_string),
        }
    }
}

/// Reads values until the tokens are used up.
fn parse_token_strings<'a>(token_strings: VecDeque<&'a str>) -> (r: Result<
    Vec<RespType<'a>>,
    ParseFault,
>)
    requires
        !is_malformed(parse_all(strs_view(token_strings@))),
    ensures
        all_matches(parse_all(strs_view(token_strings@)), Seq::empty(), r),
{
    let acc: Vec<RespType<'a>> = Vec::new();
    assert(values_view(acc@) =~= Seq::<RespValue>::empty());
    _parse_token_strings(token_strings, acc)
}

/// The message that reports a fault.
fn fault_message_str(f: ParseFault) -> (m: &'static str)
    requires
        f != ParseFault::Malformed,
    ensures
        m@ == fault_message(f),
{
    match f {
        ParseFault::NoTokens => "No token strings in vector slice",
        ParseFault::InvalidInteger => "failed to parse an integer value",
        ParseFault::InvalidBulkLength => "Invalid bulk string length",
        ParseFault::BulkMissing => "Bulk string missing.",
        ParseFault::BulkLengthMismatch => "Bulk string has incorrect length",
        ParseFault::UnreadableBulkLength => "Failed to parse string length of bulk string",
        ParseFault::UnreadableArrayLength => "Failed to parse array length.",
        ParseFault::InvalidTypeMarker => "Invalid token, first character must be *,+,-,: or $",
        ParseFault::Malformed => "",
    }
}

/// Reading `input` is not stopped by malformed input.
pub open spec fn parse_resp_defined(input: Seq<char>) -> bool {
    !(parse_resp_spec(input) matches Err(ParseFault::Malformed))
}

/// `r` is what reading `input` gives: every value, or the message of the first fault.
pub open spec fn parse_resp_matches<'a>(
    input: Seq<char>,
    r: Result<Vec<RespType<'a>>, &'static str>,
) -> bool {
    match parse_resp_spec(input) {
        Ok(vs) => r matches Ok(out) && values_view(out@) == vs,
        Err(f) => r matches Err(m) && m@ == fault_message(f),
    }
}

/// Follows the reading of one value at `pos` without building it: where
/// reading would stop and why, or the position just after the value's lines.
fn scan_one(toks: &VecDeque<&str>, pos: usize) -> (r: Result<usize, ParseFault>)
    requires
        pos <= toks@.len(),
    ensures
        match parse_one(strs_view(toks@).skip(pos as int)) {
            Ok((v, rest)) => r matches Ok(next) && next == pos + value_lines(v) && next
                <= toks@.len() && rest == strs_view(toks@).skip(next as int),
            Err(f) => r matches Err(g) && g == f,
        },
    decreases toks@.len() - pos,
{
    let ghost v = strs_view(toks@);
    let ghost s = v.skip(pos as int);
    proof {
        lemma_parse_one_lines(s);
    }
    if pos >= toks.len() {
        return Err(ParseFault::NoTokens);
    }
    let t: &str = toks[pos];
    proof {
        assert(s[0] == t@);
        assert(s.drop_first() =~= v.skip(pos + 1));
    }
    if !command_token_ok(t) {
        return Err(ParseFault::Malformed);
    }
    let (command, info) = parse_command_token(t);
    if command == '+' {
        Ok(pos + 1)
    } else if command == '-' {
        match split_once_space_str(info) {
            Some(_) => Ok(pos + 1),
            None => Err(ParseFault::Malformed),
        }
    } else if command == ':' {
        match parse_i32_str(info) {
            Some(_) => Ok(pos + 1),
            None => Err(ParseFault::InvalidInteger),
        }
    } else if command == '$' {
        match parse_i32_str(info) {
            Some(n) => {
                if n == -1 {
                    Ok(pos + 1)
                } else if n < -1 {
                    Err(ParseFault::InvalidBulkLength)
                } else if pos + 1 >= toks.len() {
                    Err(ParseFault::BulkMissing)
                } else {
                    let data: &str = toks[pos + 1];
                    proof {
                        assert(s.drop_first()[0] == data@);
                        assert(s.drop_first().drop_first() =~= v.skip(pos + 2));
                    }
                    if data.len() != n as usize {
                        Err(ParseFault::BulkLengthMismatch)
                    } else {
                        Ok(pos + 2)
                    }
                }
            },
            None => Err(ParseFault::UnreadableBulkLength),
        }
    } else if command == '*' {
        match parse_usize_str(info) {
            Some(n) => {
                let ghost rest = s.drop_first();
                let ghost mut vals: Seq<RespValue> = Seq::empty();
                let mut p: usize = pos + 1;
                let mut i: usize = 0;
                proof {
                    assert(v.skip(p as int) =~= rest);
                    assert(prefix_values(Seq::empty(), parse_many(rest, n)) =~= parse_many(rest, n))
                        by {
                        if let Ok((vs, r)) = parse_many(rest, n) {
                            assert(Seq::<RespValue>::empty() + vs =~= vs);
                        }
                    }
                }
                while i < n
                    invariant
                        i <= n,
                        pos < p <= toks@.len(),
                        v == strs_view(toks@),
                        s == v.skip(pos as int),
                        rest == s.drop_first(),
                        p == pos + 1 + values_lines(vals),
                        parse_one(s) == (match parse_many(rest, n) {
                            Ok((vs, r)) => Ok((RespValue::Array(vs), r)),
                            Err(e) => Err(e),
                        }),
                        parse_many(rest, n) == prefix_values(
                            vals,
                            parse_many(v.skip(p as int), (n - i) as usize),
                        ),
                    decreases n - i,
                {
                    let ghost cur = v.skip(p as int);
                    let ghost m = (n - i) as usize;
                    match scan_one(toks, p) {
                        Ok(next) => {
                            let ghost val = parse_one(cur)->Ok_0.0;
                            proof {
                                lemma_values_lines_push(vals, val);
                                let x = parse_many(v.skip(next as int), (m - 1) as usize);
                                if let Ok((vs, r)) = x {
                                    assert(vals + (seq![val] + vs) =~= vals.push(val) + vs);
                                }
                                vals = vals.push(val);
                            }
                            p = next;
                        },
                        Err(e) => {
                            assert(parse_many(cur, m) == Err::<(Seq<RespValue>, Seq<Seq<char>>), ParseFault>(e));
                            return Err(e);
                        },
                    }
                    i += 1;
                }
                proof {
                    assert(vals + Seq::<RespValue>::empty() =~= vals);
                }
                Ok(p)
            },
            None => Err(ParseFault::UnreadableArrayLength),
        }
    } else {
        Err(ParseFault::InvalidTypeMarker)
    }
}

/// Adding a value to a list adds its lines.
proof fn lemma_values_lines_push(vs: Seq<RespValue>, v: RespValue)
    ensures
        values_lines(vs.push(v)) == values_lines(vs) + value_lines(v),
    decreases vs.len(),
{
    assert(vs.push(v)[0] == (if vs.len() == 0 { v } else { vs[0] }));
    if vs.len() == 0 {
        assert(vs.push(v).drop_first() =~= Seq::<RespValue>::empty());
        assert(values_lines(Seq::<RespValue>::empty()) == 0);
    } else {
        lemma_values_lines_push(vs.drop_first(), v);
        assert(vs.push(v).drop_first() =~= vs.drop_first().push(v));
    }
}

/// Whether reading the tokens would stop on malformed input.
fn parse_stops(toks: &VecDeque<&str>) -> (b: bool)
    ensures
        b == is_malformed(parse_all(strs_view(toks@))),
{
    let ghost v = strs_view(toks@);
    let mut pos: usize = 0;
    assert(v.skip(0) =~= v);
    while pos < toks.len()
        invariant
            pos <= toks@.len(),
            v == strs_view(toks@),
            is_malformed(parse_all(v)) == is_malformed(parse_all(v.skip(pos as int))),
        decreases toks@.len() - pos,
    {
        match scan_one(toks, pos) {
            Ok(next) => {
                pos = next;
            },
            Err(f) => {
                return match f {
                    ParseFault::Malformed => true,
                    _ => false,
                };
            },
        }
    }
    assert(v.skip(pos as int) =~= Seq::<Seq<char>>::empty());
    false
}

/// The values read, or the message of the fault; the tokens are not malformed.
fn read_tokens<'a>(token_strings: VecDeque<&'a str>) -> (r: Result<Vec<RespType<'a>>, &'static str>)
    requires
        !is_malformed(parse_all(strs_view(token_strings@))),
    ensures
        match parse_all(strs_view(token_strings@)) {
            Ok(vs) => r matches Ok(out) && values_view(out@) == vs,
            Err(f) => r matches Err(m) && m@ == fault_message(f),
        },
{
    match parse_token_strings(token_strings) {
        Ok(values) => {
            assert(Seq::<RespValue>::empty() + values_view(values@) =~= values_view(values@));
            Ok(values)
        },
        Err(fault) => Err(fault_message_str(fault)),
    }
}

/// Reads a whole RESP message; gives `None` where the input is malformed (a
/// token shorter than two characters or starting with a non-ASCII character,
/// or an error token without a space), where reading cannot go on.
pub fn checked_parse_resp<'a>(input_string: &'a str) -> (r: Option<
    Result<Vec<RespType<'a>>, &'static str>,
>)
    ensures
        parse_resp_defined(input_string@) <==> r is Some,
        r matches Some(res) ==> parse_resp_matches(input_string@, res),
{
    let token_strings = tokenize_resp_string(input_string);
    if parse_stops(&token_strings) {
        None
    } else {
        Some(read_tokens(token_strings))
    }
}

/// Reads a whole RESP message: every value in it, or the message of the first
/// fault. The input must not be malformed (see [`checked_parse_resp`]).
pub fn parse_resp<'a>(input_string: &'a str) -> (r: Result<Vec<RespType<'a>>, &'static str>)
    requires
        parse_resp_defined(input_string@),
    ensures
        parse_resp_matches(input_string@, r),
{
    let token_strings = tokenize_resp_string(input_string);
    read_tokens(token_strings)
}

} // verus!
