use vstd::prelude::*;
use vstd::utf8::encode_utf8;
use crate::model::RespValue;
use crate::numbers::{
    decimal, int_chars, all_digits, is_digit, lemma_decimal, parse_i32_spec, parse_usize_spec,
    digits_value,
};
use crate::parser::{
    ParseFault, parse_one, parse_many, parse_all, parse_resp_spec, byte_len, prefix_values,
    parse_resp_defined, token_head_ok, lemma_parse_many_lines,
};
use crate::serializer::{serialize_value, serialize_values, display_list, display_value};
use crate::text::{crlf, crlf_at, split_crlf, prepend_first, split_once_space, lemma_split_crlf_len};
use crate::commands::{cli_words_value, resp_to_command_spec, CommandValue};
use crate::redis_commands::execute_command_spec;

verus! {

/// No `"\r\n"` occurs in `s`.
pub open spec fn no_crlf(s: Seq<char>) -> bool {
    forall|i: int| !#[trigger] crlf_at(s, i)
}

/// No space occurs in `s`.
pub open spec fn no_space(s: Seq<char>) -> bool {
    forall|i: int| 0 <= i < s.len() ==> s[i] != ' '
}

/// A value that reads back as itself from its wire form: texts hold no
/// `"\r\n"`, simple strings are not empty, an error's type holds no space, a
/// bulk string is present and fits an `i32` length in bytes, and an array's
/// elements are such values.
pub open spec fn value_wf(v: RespValue) -> bool
    decreases v,
{
    match v {
        RespValue::SimpleString(s) => s.len() > 0 && no_crlf(s),
        RespValue::RespError(a, b) => no_space(a) && no_crlf(a) && no_crlf(b),
        RespValue::Integer(_) => true,
        RespValue::BulkString(None) => false,
        RespValue::BulkString(Some(s)) => no_crlf(s) && encode_utf8(s).len() <= i32::MAX,
        RespValue::Array(vs) => vs.len() <= usize::MAX && values_wf(vs),
    }
}

/// Every value of `vs` reads back as itself.
pub open spec fn values_wf(vs: Seq<RespValue>) -> bool
    decreases vs,
{
    if vs.len() == 0 {
        true
    } else {
        value_wf(vs[0]) && values_wf(vs.drop_first())
    }
}

/// The lines of the wire form of a value.
pub open spec fn value_tokens(v: RespValue) -> Seq<Seq<char>>
    decreases v,
{
    match v {
        RespValue::SimpleString(s) => seq![seq!['+'] + s],
        RespValue::RespError(a, b) => seq![seq!['-'] + a + seq![' '] + b],
        RespValue::Integer(i) => seq![seq![':'] + int_chars(i as int)],
        RespValue::BulkString(None) => seq![seq!['$', '-', '1'], Seq::empty()],
        RespValue::BulkString(Some(s)) => seq![seq!['$'] + decimal(byte_len(s) as nat), s],
        RespValue::Array(vs) => seq![seq!['*'] + decimal(vs.len())] + values_tokens(vs),
    }
}

/// The lines of the wire forms of several values.
pub open spec fn values_tokens(vs: Seq<RespValue>) -> Seq<Seq<char>>
    decreases vs,
{
    if vs.len() == 0 {
        Seq::empty()
    } else {
        value_tokens(vs[0]) + values_tokens(vs.drop_first())
    }
}

/// Each line followed by `"\r\n"`.
pub open spec fn join_lines(ts: Seq<Seq<char>>) -> Seq<char>
    decreases ts.len(),
{
    if ts.len() == 0 {
        Seq::empty()
    } else {
        ts[0] + crlf() + join_lines(ts.drop_first())
    }
}

proof fn lemma_join_lines_concat(a: Seq<Seq<char>>, b: Seq<Seq<char>>)
    ensures
        join_lines(a + b) == join_lines(a) + join_lines(b),
    decreases a.len(),
{
    if a.len() == 0 {
        assert(a + b =~= b);
        assert(Seq::<char>::empty() + join_lines(b) =~= join_lines(b));
    } else {
        assert((a + b).drop_first() =~= a.drop_first() + b);
        lemma_join_lines_concat(a.drop_first(), b);
        assert((a + b)[0] == a[0]);
        assert(a[0] + crlf() + (join_lines(a.drop_first()) + join_lines(b)) =~= a[0] + crlf()
            + join_lines(a.drop_first()) + join_lines(b));
    }
}

proof fn lemma_serialize_values_front(vs: Seq<RespValue>)
    requires
        vs.len() > 0,
    ensures
        serialize_values(vs) == serialize_value(vs[0]) + serialize_values(vs.drop_first()),
    decreases vs.len(),
{
    if vs.len() == 1 {
        assert(vs.drop_last() =~= Seq::<RespValue>::empty());
        assert(vs.drop_first() =~= Seq::<RespValue>::empty());
        assert(Seq::<char>::empty() + serialize_value(vs[0]) =~= serialize_value(vs[0]));
        assert(serialize_value(vs[0]) + Seq::<char>::empty() =~= serialize_value(vs[0]));
    } else {
        lemma_serialize_values_front(vs.drop_last());
        assert(vs.drop_last().drop_first() =~= vs.drop_first().drop_last());
        assert(vs.drop_first().last() == vs.last());
        assert(vs.drop_last()[0] == vs[0]);
        assert(serialize_value(vs[0]) + serialize_values(vs.drop_first().drop_last())
            + serialize_value(vs.last()) =~= serialize_value(vs[0]) + (serialize_values(
            vs.drop_first().drop_last(),
        ) + serialize_value(vs.last())));
    }
}

/// The wire form of a value is its lines, each followed by `"\r\n"`.
proof fn lemma_serialize_value_lines(v: RespValue)
    ensures
        serialize_value(v) == join_lines(value_tokens(v)),
    decreases v,
{
    let e = Seq::<char>::empty();
    assert(join_lines(Seq::<Seq<char>>::empty()) == e);
    match v {
        RespValue::Array(vs) => {
            lemma_serialize_values_lines(vs);
            let head = seq![seq!['*'] + decimal(vs.len())];
            lemma_join_lines_concat(head, values_tokens(vs));
            assert(head.drop_first() =~= Seq::<Seq<char>>::empty());
            assert(join_lines(Seq::<Seq<char>>::empty()) == e);
            assert(join_lines(head) == head[0] + crlf() + join_lines(head.drop_first()));
            assert(head[0] + crlf() + e =~= head[0] + crlf());
            assert(join_lines(head) == seq!['*'] + decimal(vs.len()) + crlf());
            assert(value_tokens(v) == head + values_tokens(vs));
            assert(serialize_value(v) == seq!['*'] + decimal(vs.len()) + crlf() + serialize_values(vs));
            assert(serialize_value(v) =~= join_lines(value_tokens(v)));
        },
        RespValue::BulkString(Some(s)) => {
            let ts = value_tokens(v);
            assert(ts.drop_first().drop_first() =~= Seq::<Seq<char>>::empty());
            assert(ts.drop_first()[0] == s);
            assert(join_lines(ts.drop_first()) == s + crlf() + join_lines(ts.drop_first().drop_first()));
            assert(join_lines(ts) == ts[0] + crlf() + join_lines(ts.drop_first()));
            assert(s + crlf() + e =~= s + crlf());
            assert(seq!['$'] + decimal(byte_len(s) as nat) + crlf() + s + crlf() =~= ts[0] + crlf()
                + (s + crlf()));
            assert(serialize_value(v) =~= join_lines(value_tokens(v)));
        },
        RespValue::BulkString(None) => {
            let ts = value_tokens(v);
            assert(ts.drop_first().drop_first() =~= Seq::<Seq<char>>::empty());
            assert(ts.drop_first()[0] == e);
            assert(join_lines(ts.drop_first()) == e + crlf() + join_lines(ts.drop_first().drop_first()));
            assert(join_lines(ts) == ts[0] + crlf() + join_lines(ts.drop_first()));
            assert(seq!['$', '-', '1'] + crlf() + crlf() =~= ts[0] + crlf() + (e + crlf() + e));
            assert(serialize_value(v) =~= join_lines(value_tokens(v)));
        },
        _ => {
            let ts = value_tokens(v);
            assert(ts.drop_first() =~= Seq::<Seq<char>>::empty());
            assert(ts[0] + crlf() + e =~= ts[0] + crlf());
            assert(serialize_value(v) =~= ts[0] + crlf());
            assert(serialize_value(v) =~= join_lines(value_tokens(v)));
        },
    }
}

/// The wire form of several values is their lines, each followed by `"\r\n"`.
proof fn lemma_serialize_values_lines(vs: Seq<RespValue>)
    ensures
        serialize_values(vs) == join_lines(values_tokens(vs)),
    decreases vs,
{
    if vs.len() > 0 {
        lemma_serialize_values_front(vs);
        lemma_serialize_value_lines(vs[0]);
        lemma_serialize_values_lines(vs.drop_first());
        lemma_join_lines_concat(value_tokens(vs[0]), values_tokens(vs.drop_first()));
    }
}

proof fn lemma_no_crlf_concat(a: Seq<char>, b: Seq<char>)
    requires
        no_crlf(a),
        no_crlf(b),
        a.len() > 0 && b.len() > 0 && a.last() == '\r' ==> b[0] != '\n',
    ensures
        no_crlf(a + b),
{
    assert forall|i: int| !#[trigger] crlf_at(a + b, i) by {
        if crlf_at(a + b, i) {
            if i + 1 < a.len() {
                assert(crlf_at(a, i));
            } else if i >= a.len() {
                assert(crlf_at(b, i - a.len()));
            } else {
                assert((a + b)[i] == a.last());
                assert((a + b)[i + 1] == b[0]);
            }
        }
    }
}

proof fn lemma_no_crlf_char(c: char)
    requires
        c != '\r',
    ensures
        no_crlf(seq![c]),
{
    assert forall|i: int| !#[trigger] crlf_at(seq![c], i) by {}
}

proof fn lemma_digits_no_crlf(s: Seq<char>)
    requires
        all_digits(s),
    ensures
        no_crlf(s),
        s.len() > 0 ==> s.last() != '\r',
{
    assert forall|i: int| !#[trigger] crlf_at(s, i) by {
        if crlf_at(s, i) {
            assert(is_digit(s[i]));
        }
    }
    if s.len() > 0 {
        assert(is_digit(s[s.len() - 1]));
    }
}

/// Splitting a line followed by `"\r\n"` gives the line, then the rest split.
proof fn lemma_split_line(t: Seq<char>, rest: Seq<char>)
    requires
        no_crlf(t),
    ensures
        split_crlf(t + crlf() + rest) == seq![t] + split_crlf(rest),
    decreases t.len(),
{
    let s = t + crlf() + rest;
    if t.len() == 0 {
        assert(t =~= Seq::<char>::empty());
        assert(s =~= crlf() + rest);
        assert(crlf_at(s, 0));
        assert(s.skip(2) =~= rest);
    } else {
        if t.len() >= 2 {
            assert(!crlf_at(t, 0));
            assert(s[1] == t[1]);
        } else {
            assert(s[1] == '\r');
        }
        assert(!crlf_at(s, 0));
        let t2 = t.drop_first();
        assert forall|i: int| !#[trigger] crlf_at(t2, i) by {
            if crlf_at(t2, i) {
                assert(crlf_at(t, i + 1));
            }
        }
        lemma_split_line(t2, rest);
        assert(s.drop_first() =~= t2 + crlf() + rest);
        lemma_split_crlf_len(rest);
        assert(seq![s[0]] + t2 =~= t);
        assert(prepend_first(seq![s[0]], seq![t2] + split_crlf(rest)) =~= seq![t] + split_crlf(
            rest,
        ));
    }
}

/// Splitting lines, each followed by `"\r\n"`, gives the lines back.
proof fn lemma_split_lines(ts: Seq<Seq<char>>, rest: Seq<char>)
    requires
        forall|i: int| 0 <= i < ts.len() ==> no_crlf(#[trigger] ts[i]),
    ensures
        split_crlf(join_lines(ts) + rest) == ts + split_crlf(rest),
    decreases ts.len(),
{
    if ts.len() == 0 {
        assert(Seq::<char>::empty() + rest =~= rest);
        assert(ts + split_crlf(rest) =~= split_crlf(rest));
    } else {
        let tail = ts.drop_first();
        assert forall|i: int| 0 <= i < tail.len() implies no_crlf(#[trigger] tail[i]) by {
            assert(tail[i] == ts[i + 1]);
        }
        lemma_split_lines(tail, rest);
        assert(no_crlf(ts[0]));
        lemma_split_line(ts[0], join_lines(tail) + rest);
        assert(join_lines(ts) + rest =~= ts[0] + crlf() + (join_lines(tail) + rest));
        assert(seq![ts[0]] + (tail + split_crlf(rest)) =~= ts + split_crlf(rest));
    }
}

proof fn lemma_split_once_space_at(a: Seq<char>, b: Seq<char>)
    requires
        no_space(a),
    ensures
        split_once_space(a + seq![' '] + b) == Some((a, b)),
    decreases a.len(),
{
    let s = a + seq![' '] + b;
    if a.len() == 0 {
        assert(s.drop_first() =~= b);
    } else {
        lemma_split_once_space_at(a.drop_first(), b);
        assert(s.drop_first() =~= a.drop_first() + seq![' '] + b);
        assert(seq![a[0]] + a.drop_first() =~= a);
    }
}

/// Reading back the decimal notation of an `i32`, as it is written on the wire
/// and printed, gives the same integer.
pub proof fn lemma_parse_i32_int_chars(i: i32)
    ensures
        parse_i32_spec(int_chars(i as int)) == Some(i),
{
    if i < 0 {
        let m = (-i) as nat;
        lemma_decimal(m);
        let s = seq!['-'] + decimal(m);
        assert(s.drop_first() =~= decimal(m));
    } else {
        lemma_decimal(i as nat);
        assert(is_digit(decimal(i as nat)[0]));
    }
}

proof fn lemma_parse_usize_decimal(n: nat)
    requires
        n <= usize::MAX,
    ensures
        parse_usize_spec(decimal(n)) == Some(n as usize),
{
    lemma_decimal(n);
    assert(is_digit(decimal(n)[0]));
}

proof fn lemma_parse_i32_decimal(n: nat)
    requires
        n <= i32::MAX,
    ensures
        parse_i32_spec(decimal(n)) == Some(n as i32),
{
    lemma_decimal(n);
    assert(is_digit(decimal(n)[0]));
}

/// Every line of `ts` is free of `"\r\n"`.
pub open spec fn lines_ok(ts: Seq<Seq<char>>) -> bool {
    forall|i: int| 0 <= i < ts.len() ==> no_crlf(#[trigger] ts[i])
}

proof fn lemma_lines_ok_concat(a: Seq<Seq<char>>, b: Seq<Seq<char>>)
    requires
        lines_ok(a),
        lines_ok(b),
    ensures
        lines_ok(a + b),
{
    assert forall|i: int| 0 <= i < (a + b).len() implies no_crlf(#[trigger] (a + b)[i]) by {
        if i < a.len() {
            assert((a + b)[i] == a[i]);
        } else {
            assert((a + b)[i] == b[i - a.len()]);
        }
    }
}

proof fn lemma_marker_line(c: char, s: Seq<char>)
    requires
        c != '\r',
        no_crlf(s),
    ensures
        no_crlf(seq![c] + s),
{
    lemma_no_crlf_char(c);
    lemma_no_crlf_concat(seq![c], s);
}

proof fn lemma_marker_digits_line(c: char, s: Seq<char>)
    requires
        c != '\r',
        all_digits(s),
    ensures
        no_crlf(seq![c] + s),
{
    lemma_digits_no_crlf(s);
    lemma_marker_line(c, s);
}

/// The lines of a readable value hold no `"\r\n"` and there is at least one.
proof fn lemma_value_tokens_lines(v: RespValue)
    requires
        value_wf(v),
    ensures
        value_tokens(v).len() >= 1,
        lines_ok(value_tokens(v)),
    decreases v,
{
    let ts = value_tokens(v);
    match v {
        RespValue::SimpleString(s) => {
            lemma_marker_line('+', s);
        },
        RespValue::RespError(a, b) => {
            lemma_marker_line('-', a);
            lemma_no_crlf_char(' ');
            lemma_no_crlf_concat(seq!['-'] + a, seq![' ']);
            lemma_no_crlf_concat(seq!['-'] + a + seq![' '], b);
        },
        RespValue::Integer(i) => {
            if i < 0 {
                lemma_decimal((-i) as nat);
                lemma_marker_digits_line('-', decimal((-i) as nat));
                lemma_marker_line(':', seq!['-'] + decimal((-i) as nat));
                assert(seq![':'] + int_chars(i as int) =~= seq![':'] + (seq!['-'] + decimal(
                    (-i) as nat,
                )));
            } else {
                lemma_decimal(i as nat);
                lemma_marker_digits_line(':', decimal(i as nat));
            }
        },
        RespValue::BulkString(Some(s)) => {
            lemma_decimal(byte_len(s) as nat);
            lemma_marker_digits_line('$', decimal(byte_len(s) as nat));
        },
        RespValue::BulkString(None) => {},
        RespValue::Array(vs) => {
            lemma_decimal(vs.len());
            lemma_marker_digits_line('*', decimal(vs.len()));
            lemma_values_tokens_lines(vs);
            lemma_lines_ok_concat(seq![seq!['*'] + decimal(vs.len())], values_tokens(vs));
        },
    }
}

/// The lines of readable values hold no `"\r\n"`.
proof fn lemma_values_tokens_lines(vs: Seq<RespValue>)
    requires
        values_wf(vs),
    ensures
        lines_ok(values_tokens(vs)),
    decreases vs,
{
    if vs.len() > 0 {
        lemma_value_tokens_lines(vs[0]);
        lemma_values_tokens_lines(vs.drop_first());
        lemma_lines_ok_concat(value_tokens(vs[0]), values_tokens(vs.drop_first()));
    }
}

/// A readable value is read back from the front of its lines.
proof fn lemma_parse_value(v: RespValue, rest: Seq<Seq<char>>)
    requires
        value_wf(v),
    ensures
        parse_one(value_tokens(v) + rest) == Ok::<(RespValue, Seq<Seq<char>>), ParseFault>((v, rest)),
    decreases v,
{
    let ts = value_tokens(v);
    let toks = ts + rest;
    lemma_value_tokens_lines(v);
    assert(toks[0] == ts[0]);
    assert(toks.drop_first() =~= ts.drop_first() + rest);
    let t = ts[0];
    match v {
        RespValue::SimpleString(s) => {
            assert(t.drop_first() =~= s);
            assert(ts.drop_first() + rest =~= rest);
        },
        RespValue::RespError(a, b) => {
            assert(t.drop_first() =~= a + seq![' '] + b);
            lemma_split_once_space_at(a, b);
            assert(ts.drop_first() + rest =~= rest);
        },
        RespValue::Integer(i) => {
            lemma_parse_i32_int_chars(i);
            if i < 0 {
                lemma_decimal((-i) as nat);
            } else {
                lemma_decimal(i as nat);
            }
            assert(t.drop_first() =~= int_chars(i as int));
            assert(ts.drop_first() + rest =~= rest);
        },
        RespValue::BulkString(Some(s)) => {
            let n = byte_len(s) as nat;
            lemma_parse_i32_decimal(n);
            lemma_decimal(n);
            assert(t.drop_first() =~= decimal(n));
            let r2 = ts.drop_first() + rest;
            assert(r2[0] == s);
            assert(r2.drop_first() =~= rest);
        },
        RespValue::BulkString(None) => {},
        RespValue::Array(vs) => {
            lemma_parse_usize_decimal(vs.len());
            lemma_decimal(vs.len());
            assert(t.drop_first() =~= decimal(vs.len()));
            assert(ts.drop_first() =~= values_tokens(vs));
            lemma_parse_values(vs, rest);
        },
    }
}

/// Readable values are read back, in order, from the front of their lines.
proof fn lemma_parse_values(vs: Seq<RespValue>, rest: Seq<Seq<char>>)
    requires
        values_wf(vs),
        vs.len() <= usize::MAX,
    ensures
        parse_many(values_tokens(vs) + rest, vs.len() as usize) == Ok::<
            (Seq<RespValue>, Seq<Seq<char>>),
            ParseFault,
        >((vs, rest)),
    decreases vs,
{
    if vs.len() == 0 {
        assert(values_tokens(vs) + rest =~= rest);
        assert(vs =~= Seq::<RespValue>::empty());
    } else {
        let tail = vs.drop_first();
        let r = values_tokens(tail) + rest;
        let toks = values_tokens(vs) + rest;
        assert(toks =~= value_tokens(vs[0]) + r);
        lemma_parse_value(vs[0], r);
        lemma_value_tokens_lines(vs[0]);
        lemma_parse_values(tail, rest);
        let n = vs.len() as usize;
        assert(((n - 1) as usize) == tail.len() as usize);
        assert(parse_one(toks) == Ok::<(RespValue, Seq<Seq<char>>), ParseFault>((vs[0], r)));
        assert(r.len() < toks.len());
        assert(parse_many(r, (n - 1) as usize) == Ok::<(Seq<RespValue>, Seq<Seq<char>>), ParseFault>((tail, rest)));
        assert(parse_many(toks, n) == prefix_values(seq![vs[0]], parse_many(r, (n - 1) as usize)));
        assert(seq![vs[0]] + tail =~= vs);
        assert(prefix_values(seq![vs[0]], parse_many(r, (n - 1) as usize)) == Ok::<
            (Seq<RespValue>, Seq<Seq<char>>),
            ParseFault,
        >((seq![vs[0]] + tail, rest)));
        assert(parse_many(toks, n) == Ok::<(Seq<RespValue>, Seq<Seq<char>>), ParseFault>((vs, rest)));
    }
}

/// Readable values are read back from exactly their lines.
proof fn lemma_parse_all_values(vs: Seq<RespValue>)
    requires
        values_wf(vs),
    ensures
        parse_all(values_tokens(vs)) == Ok::<Seq<RespValue>, ParseFault>(vs),
    decreases vs,
{
    if vs.len() == 0 {
        assert(vs =~= Seq::<RespValue>::empty());
    } else {
        let tail = vs.drop_first();
        let r = values_tokens(tail);
        lemma_parse_value(vs[0], r);
        lemma_value_tokens_lines(vs[0]);
        lemma_parse_all_values(tail);
        let toks = values_tokens(vs);
        assert(toks =~= value_tokens(vs[0]) + r);
        assert(r + Seq::<Seq<char>>::empty() =~= r);
        assert(value_tokens(vs[0]) + r == value_tokens(vs[0]) + r);
        assert(parse_one(toks) == Ok::<(RespValue, Seq<Seq<char>>), ParseFault>((vs[0], r)));
        assert(seq![vs[0]] + tail =~= vs);
        assert(parse_all(toks) == Ok::<Seq<RespValue>, ParseFault>(vs));
    }
}

/// Reading back the wire form that `serialize_resp` writes for readable values
/// gives the same values, and reading it is never stopped as malformed.
pub proof fn lemma_serialize_parse_roundtrip(vs: Seq<RespValue>)
    requires
        values_wf(vs),
    ensures
        parse_resp_defined(serialize_values(vs)),
        parse_resp_spec(serialize_values(vs)) == Ok::<Seq<RespValue>, ParseFault>(vs),
{
    lemma_serialize_values_lines(vs);
    lemma_values_tokens_lines(vs);
    let e = Seq::<char>::empty();
    lemma_split_lines(values_tokens(vs), e);
    assert(serialize_values(vs) + e =~= serialize_values(vs));
    assert(split_crlf(e) =~= seq![e]);
    assert((values_tokens(vs) + seq![e]).drop_last() =~= values_tokens(vs));
    lemma_parse_all_values(vs);
}

/// Values that are each readable make a readable list.
pub proof fn lemma_values_wf(vs: Seq<RespValue>)
    requires
        forall|i: int| 0 <= i < vs.len() ==> value_wf(#[trigger] vs[i]),
    ensures
        values_wf(vs),
    decreases vs.len(),
{
    if vs.len() > 0 {
        let tail = vs.drop_first();
        assert forall|i: int| 0 <= i < tail.len() implies value_wf(#[trigger] tail[i]) by {
            assert(tail[i] == vs[i + 1]);
        }
        lemma_values_wf(tail);
    }
}

/// A command line whose words hold no `"\r\n"` and fit an `i32` length in
/// bytes goes over the wire as the array of bulk strings that
/// `cli_tokens_to_resp` makes, and is read back as that array.
pub proof fn lemma_cli_command_roundtrip(words: Seq<&str>)
    requires
        words.len() <= usize::MAX,
        forall|i: int|
            0 <= i < words.len() ==> no_crlf(#[trigger] words[i]@) && encode_utf8(words[i]@).len()
                <= i32::MAX,
    ensures
        parse_resp_spec(serialize_values(seq![cli_words_value(words)])) == Ok::<
            Seq<RespValue>,
            ParseFault,
        >(seq![cli_words_value(words)]),
{
    let v = cli_words_value(words);
    let elems = Seq::new(words.len(), |i: int| RespValue::BulkString(Some(words[i]@)));
    assert forall|i: int| 0 <= i < elems.len() implies value_wf(#[trigger] elems[i]) by {
        assert(no_crlf(words[i]@));
    }
    lemma_values_wf(elems);
    assert(value_wf(v));
    let one = seq![v];
    assert(one[0] == v);
    lemma_values_wf(one);
    lemma_serialize_parse_roundtrip(one);
}

/// The value read from the front of `toks` writes its numbers as the wire
/// form does: an integer, a bulk-string length and an array length in the
/// shortest decimal form (no `+`, no leading zero, no `-0`), and no null bulk
/// string; the same holds of an array's elements.
pub open spec fn canon_one(toks: Seq<Seq<char>>) -> bool
    decreases toks.len(), 0nat,
{
    if toks.len() == 0 {
        false
    } else {
        let t = toks[0];
        let info = t.drop_first();
        if !token_head_ok(t) {
            false
        } else if t[0] == ':' {
            parse_i32_spec(info) matches Some(v) && info == int_chars(v as int)
        } else if t[0] == '$' {
            parse_i32_spec(info) matches Some(n) && n >= 0 && info == decimal(n as nat)
        } else if t[0] == '*' {
            parse_usize_spec(info) matches Some(n) && info == decimal(n as nat) && canon_many(
                toks.drop_first(),
                n,
            )
        } else {
            true
        }
    }
}

/// The `n` values read one after another from the front of `toks` write their
/// numbers as the wire form does.
pub open spec fn canon_many(toks: Seq<Seq<char>>, n: usize) -> bool
    decreases toks.len(), n as nat + 1,
{
    if n == 0 {
        true
    } else {
        canon_one(toks) && match parse_one(toks) {
            Ok((_, r)) => r.len() < toks.len() && canon_many(r, (n - 1) as usize),
            Err(_) => false,
        }
    }
}

/// All values read from `toks` write their numbers as the wire form does.
pub open spec fn canon_all(toks: Seq<Seq<char>>) -> bool
    decreases toks.len(),
{
    if toks.len() == 0 {
        true
    } else {
        canon_one(toks) && match parse_one(toks) {
            Ok((_, r)) => r.len() < toks.len() && canon_all(r),
            Err(_) => false,
        }
    }
}

/// A message in the form that `serialize_resp` writes: empty or ending in
/// `"\r\n"`, with every number written canonically.
pub open spec fn canonical_message(s: Seq<char>) -> bool {
    ends_terminated(s) && canon_all(split_crlf(s).drop_last())
}

proof fn lemma_split_once_space_join(s: Seq<char>)
    ensures
        split_once_space(s) matches Some((a, b)) ==> s == a + seq![' '] + b,
    decreases s.len(),
{
    if s.len() > 0 {
        lemma_split_once_space_join(s.drop_first());
        if s[0] == ' ' {
            assert(s =~= Seq::<char>::empty() + seq![' '] + s.drop_first());
        } else if let Some((a, b)) = split_once_space(s.drop_first()) {
            assert(s.drop_first() == a + seq![' '] + b);
            assert(s =~= seq![s[0]] + s.drop_first());
            assert(s =~= (seq![s[0]] + a) + seq![' '] + b);
        }
    }
}

/// A canonical value read from the front of `toks` was written there as its lines.
proof fn lemma_canon_one_tokens(toks: Seq<Seq<char>>)
    ensures
        canon_one(toks) ==> (parse_one(toks) matches Ok((v, rest)) ==> toks == value_tokens(v)
            + rest),
    decreases toks.len(), 0nat,
{
    if canon_one(toks) {
        if let Ok((v, rest)) = parse_one(toks) {
            let t = toks[0];
            let info = t.drop_first();
            let rest0 = toks.drop_first();
            assert(t =~= seq![t[0]] + info);
            if t[0] == '+' {
                assert(toks =~= seq![t] + rest0);
                assert(value_tokens(v) =~= seq![t]);
            } else if t[0] == '-' {
                lemma_split_once_space_join(info);
                let (a, b) = split_once_space(info)->Some_0;
                assert(info == a + seq![' '] + b);
                assert(seq!['-'] + a + seq![' '] + b =~= seq!['-'] + info);
                assert(toks =~= seq![t] + rest0);
                assert(value_tokens(v) =~= seq![t]);
            } else if t[0] == ':' {
                assert(toks =~= seq![t] + rest0);
                assert(value_tokens(v) =~= seq![t]);
            } else if t[0] == '$' {
                let n = parse_i32_spec(info)->Some_0;
                let data = rest0[0];
                assert(byte_len(data) as nat == n as nat);
                assert(toks =~= seq![t, data] + rest0.drop_first());
                assert(value_tokens(v) =~= seq![t, data]);
            } else if t[0] == '*' {
                let n = parse_usize_spec(info)->Some_0;
                lemma_canon_many_tokens(rest0, n);
                lemma_parse_many_lines(rest0, n);
                let vs = parse_many(rest0, n)->Ok_0.0;
                assert(toks =~= seq![t] + rest0);
                assert(seq![t] + (values_tokens(vs) + rest) =~= (seq![t] + values_tokens(vs))
                    + rest);
            }
        }
    }
}

/// Canonical values read one after another were written there as their lines.
proof fn lemma_canon_many_tokens(toks: Seq<Seq<char>>, n: usize)
    ensures
        canon_many(toks, n) ==> (parse_many(toks, n) matches Ok((vs, rest)) ==> toks
            == values_tokens(vs) + rest),
    decreases toks.len(), n as nat + 1,
{
    if canon_many(toks, n) {
        if let Ok((vs, rest)) = parse_many(toks, n) {
            if n == 0 {
                assert(vs =~= Seq::<RespValue>::empty());
                assert(toks =~= values_tokens(vs) + rest);
            } else {
                lemma_canon_one_tokens(toks);
                let (v, r) = parse_one(toks)->Ok_0;
                lemma_canon_many_tokens(r, (n - 1) as usize);
                let vs2 = parse_many(r, (n - 1) as usize)->Ok_0.0;
                assert(vs =~= seq![v] + vs2);
                assert(vs.drop_first() =~= vs2);
                assert(vs[0] == v);
                assert(toks =~= value_tokens(v) + (values_tokens(vs2) + rest));
                assert(value_tokens(v) + (values_tokens(vs2) + rest) =~= (value_tokens(v)
                    + values_tokens(vs2)) + rest);
            }
        }
    }
}

/// Canonical values read until the end were written there as their lines.
proof fn lemma_canon_all_tokens(toks: Seq<Seq<char>>)
    ensures
        canon_all(toks) ==> (parse_all(toks) matches Ok(vs) ==> toks == values_tokens(vs)),
    decreases toks.len(),
{
    if canon_all(toks) {
        if let Ok(vs) = parse_all(toks) {
            if toks.len() == 0 {
                assert(vs =~= Seq::<RespValue>::empty());
            } else {
                lemma_canon_one_tokens(toks);
                let (v, r) = parse_one(toks)->Ok_0;
                lemma_canon_all_tokens(r);
                let vs2 = parse_all(r)->Ok_0;
                assert(vs =~= seq![v] + vs2);
                assert(vs.drop_first() =~= vs2);
                assert(vs[0] == v);
                assert(toks =~= value_tokens(v) + values_tokens(vs2));
            }
        }
    }
}

/// Joining the lines of `s` back, each followed by `"\r\n"`, and adding the
/// text after the last terminator gives `s`.
proof fn lemma_join_split(s: Seq<char>)
    ensures
        join_lines(split_crlf(s).drop_last()) + split_crlf(s).last() == s,
    decreases s.len(),
{
    let e = Seq::<char>::empty();
    assert(join_lines(Seq::<Seq<char>>::empty()) == e);
    if s.len() == 0 {
        assert(split_crlf(s) =~= seq![e]);
        assert(seq![e].drop_last() =~= Seq::<Seq<char>>::empty());
        assert(s =~= e);
        assert(e + e =~= e);
    } else if crlf_at(s, 0) {
        let r = split_crlf(s.skip(2));
        lemma_split_crlf_len(s.skip(2));
        lemma_join_split(s.skip(2));
        let x = seq![e] + r.drop_last();
        assert((seq![e] + r).drop_last() =~= x);
        assert(x[0] == e);
        assert(x.drop_first() =~= r.drop_last());
        assert(join_lines(x) == x[0] + crlf() + join_lines(x.drop_first()));
        assert((seq![e] + r).last() == r.last());
        assert(s =~= crlf() + s.skip(2));
        assert(e + crlf() + join_lines(r.drop_last()) + r.last() =~= crlf() + (join_lines(
            r.drop_last(),
        ) + r.last()));
    } else {
        let r = split_crlf(s.drop_first());
        lemma_split_crlf_len(s.drop_first());
        lemma_join_split(s.drop_first());
        let p = seq![s[0]];
        let big = prepend_first(p, r);
        assert(s =~= p + s.drop_first());
        if r.len() == 1 {
            assert(r.drop_last() =~= Seq::<Seq<char>>::empty());
            assert(big.drop_last() =~= Seq::<Seq<char>>::empty());
            assert(e + r.last() =~= r.last());
            assert(e + big.last() =~= big.last());
        } else {
            let x = r.drop_last();
            let y = big.drop_last();
            assert(y =~= prepend_first(p, x));
            assert(y[0] == p + x[0]);
            assert(y.drop_first() =~= x.drop_first());
            assert(join_lines(y) == y[0] + crlf() + join_lines(y.drop_first()));
            assert(join_lines(x) == x[0] + crlf() + join_lines(x.drop_first()));
            assert(big.last() == r.last());
            assert(p + x[0] + crlf() + join_lines(x.drop_first()) + r.last() =~= p + (x[0]
                + crlf() + join_lines(x.drop_first()) + r.last()));
        }
    }
}

/// Writing back the values read from a canonical message gives the message:
/// what `parse_resp` reads, `serialize_resp` writes as the same text.
pub proof fn lemma_parse_serialize_roundtrip(s: Seq<char>)
    requires
        canonical_message(s),
        parse_resp_spec(s) is Ok,
    ensures
        serialize_values(parse_resp_spec(s)->Ok_0) == s,
{
    let toks = split_crlf(s).drop_last();
    let vs = parse_resp_spec(s)->Ok_0;
    lemma_canon_all_tokens(toks);
    lemma_serialize_values_lines(vs);
    lemma_join_split(s);
    assert(join_lines(toks) + Seq::<char>::empty() =~= join_lines(toks));
}

/// Only the first element of a command decides the answer: two commands with
/// the same first element get the same answer whatever their parameters, and
/// the answer is `PONG` exactly when that element is the bulk string `PING`.
pub proof fn lemma_execute_command_first_element(es1: Seq<RespValue>, es2: Seq<RespValue>)
    requires
        es1.len() > 0,
        es2.len() > 0,
        es1[0] == es2[0],
    ensures
        execute_command_spec(RespValue::Array(es1)) == execute_command_spec(RespValue::Array(es2)),
        execute_command_spec(RespValue::Array(es1)) is Ok <==> es1[0] == RespValue::BulkString(
            Some("PING"@),
        ),
        execute_command_spec(RespValue::Array(es1)) is Ok ==> execute_command_spec(
            RespValue::Array(es1),
        ) == Ok::<RespValue, Seq<char>>(RespValue::SimpleString("PONG"@)),
{
}

/// `s` is empty or ends with `"\r\n"`: nothing follows its last terminator.
pub open spec fn ends_terminated(s: Seq<char>) -> bool {
    split_crlf(s).last() == Seq::<char>::empty()
}

/// Splitting a terminated text followed by another splits each of them.
proof fn lemma_split_concat(a: Seq<char>, b: Seq<char>)
    requires
        ends_terminated(a),
    ensures
        split_crlf(a + b) == split_crlf(a).drop_last() + split_crlf(b),
    decreases a.len(),
{
    let e = Seq::<char>::empty();
    lemma_split_crlf_len(a);
    lemma_split_crlf_len(b);
    if a.len() == 0 {
        assert(a + b =~= b);
        assert(split_crlf(a) =~= seq![e]);
        assert(seq![e].drop_last() + split_crlf(b) =~= split_crlf(b));
    } else if crlf_at(a, 0) {
        let a2 = a.skip(2);
        lemma_split_crlf_len(a2);
        assert(split_crlf(a).last() == split_crlf(a2).last());
        lemma_split_concat(a2, b);
        assert(crlf_at(a + b, 0));
        assert((a + b).skip(2) =~= a2 + b);
        assert((seq![e] + split_crlf(a2)).drop_last() =~= seq![e] + split_crlf(a2).drop_last());
        assert(seq![e] + (split_crlf(a2).drop_last() + split_crlf(b)) =~= (seq![e]
            + split_crlf(a2).drop_last()) + split_crlf(b));
    } else {
        let a1 = a.drop_first();
        let r = split_crlf(a1);
        lemma_split_crlf_len(a1);
        let p = seq![a[0]];
        if r.len() == 1 {
            assert(split_crlf(a).last() == p + r[0]);
            assert((p + r[0]).len() > 0);
        }
        assert(r.len() > 1);
        assert(split_crlf(a).last() == r.last());
        lemma_split_concat(a1, b);
        if a.len() == 1 {
            assert(a1 =~= e);
            assert(r =~= seq![e]);
        }
        assert((a + b)[0] == a[0]);
        assert((a + b)[1] == a[1]);
        assert(!crlf_at(a + b, 0));
        assert((a + b).drop_first() =~= a1 + b);
        let x = r.drop_last();
        assert(prepend_first(p, x + split_crlf(b)) =~= prepend_first(p, x) + split_crlf(b));
        assert(prepend_first(p, r).drop_last() =~= prepend_first(p, x));
    }
}

/// Text without `"\r\n"` splits into itself alone.
proof fn lemma_split_no_crlf(r: Seq<char>)
    requires
        no_crlf(r),
    ensures
        split_crlf(r) == seq![r],
    decreases r.len(),
{
    if r.len() == 0 {
        assert(r =~= Seq::<char>::empty());
    } else {
        assert(!crlf_at(r, 0));
        let r1 = r.drop_first();
        assert forall|i: int| !#[trigger] crlf_at(r1, i) by {
            if crlf_at(r1, i) {
                assert(crlf_at(r, i + 1));
            }
        }
        lemma_split_no_crlf(r1);
        assert(seq![r[0]] + r1 =~= r);
        assert(prepend_first(seq![r[0]], seq![r1]) =~= seq![r]);
    }
}

/// More lines after a value do not change how it is read.
proof fn lemma_parse_one_prefix(toks: Seq<Seq<char>>, more: Seq<Seq<char>>)
    ensures
        parse_one(toks) matches Ok((v, r)) ==> parse_one(toks + more) == Ok::<
            (RespValue, Seq<Seq<char>>),
            ParseFault,
        >((v, r + more)),
    decreases toks.len(), 0nat,
{
    if let Ok((v, r)) = parse_one(toks) {
        let all = toks + more;
        let rest0 = toks.drop_first();
        assert(all[0] == toks[0]);
        assert(all.drop_first() =~= rest0 + more);
        let t = toks[0];
        if t[0] == '$' && rest0.len() > 0 {
            assert((rest0 + more)[0] == rest0[0]);
            assert((rest0 + more).drop_first() =~= rest0.drop_first() + more);
        }
        if t[0] == '*' {
            let n = parse_usize_spec(t.drop_first())->Some_0;
            lemma_parse_many_prefix(rest0, more, n);
        }
    }
}

/// More lines after several values do not change how they are read.
proof fn lemma_parse_many_prefix(toks: Seq<Seq<char>>, more: Seq<Seq<char>>, n: usize)
    ensures
        parse_many(toks, n) matches Ok((vs, r)) ==> parse_many(toks + more, n) == Ok::<
            (Seq<RespValue>, Seq<Seq<char>>),
            ParseFault,
        >((vs, r + more)),
    decreases toks.len(), n as nat + 1,
{
    if let Ok((vs, r)) = parse_many(toks, n) {
        if n > 0 {
            let (v, r1) = parse_one(toks)->Ok_0;
            lemma_parse_one_prefix(toks, more);
            lemma_parse_many_prefix(r1, more, (n - 1) as usize);
        }
    }
}

/// Reading lines that hold whole values, then more lines, reads the values of both.
proof fn lemma_parse_all_concat(ta: Seq<Seq<char>>, tb: Seq<Seq<char>>)
    requires
        parse_all(ta) is Ok,
        parse_all(tb) is Ok,
    ensures
        parse_all(ta + tb) == Ok::<Seq<RespValue>, ParseFault>(
            parse_all(ta)->Ok_0 + parse_all(tb)->Ok_0,
        ),
    decreases ta.len(),
{
    let y = parse_all(tb)->Ok_0;
    if ta.len() == 0 {
        assert(ta + tb =~= tb);
        assert(parse_all(ta)->Ok_0 =~= Seq::<RespValue>::empty());
        assert(Seq::<RespValue>::empty() + y =~= y);
    } else {
        let (v, r) = parse_one(ta)->Ok_0;
        lemma_parse_one_prefix(ta, tb);
        lemma_parse_all_concat(r, tb);
        let x2 = parse_all(r)->Ok_0;
        assert(seq![v] + (x2 + y) =~= (seq![v] + x2) + y);
    }
}

/// Reading a terminated message followed by another reads the values of the
/// first, then those of the second.
pub proof fn lemma_parse_concat(a: Seq<char>, b: Seq<char>)
    requires
        ends_terminated(a),
        parse_resp_spec(a) is Ok,
        parse_resp_spec(b) is Ok,
    ensures
        parse_resp_spec(a + b) == Ok::<Seq<RespValue>, ParseFault>(
            parse_resp_spec(a)->Ok_0 + parse_resp_spec(b)->Ok_0,
        ),
{
    lemma_split_concat(a, b);
    lemma_split_crlf_len(b);
    let ta = split_crlf(a).drop_last();
    let tb = split_crlf(b).drop_last();
    assert((ta + split_crlf(b)).drop_last() =~= ta + tb);
    lemma_parse_all_concat(ta, tb);
}

/// Text after the last `"\r\n"` of a message is dropped: it changes nothing
/// that reading gives, a fault or malformed input included.
pub proof fn lemma_unterminated_tail_dropped(s: Seq<char>, r: Seq<char>)
    requires
        ends_terminated(s),
        no_crlf(r),
    ensures
        parse_resp_spec(s + r) == parse_resp_spec(s),
{
    lemma_split_concat(s, r);
    lemma_split_no_crlf(r);
    assert((split_crlf(s).drop_last() + seq![r]).drop_last() =~= split_crlf(s).drop_last());
}

/// A value that reads back from its lines taken one by one: as `value_wf`,
/// but texts may hold anything and a bulk string may be null.
pub open spec fn value_readable(v: RespValue) -> bool
    decreases v,
{
    match v {
        RespValue::SimpleString(s) => s.len() > 0,
        RespValue::RespError(a, _) => no_space(a),
        RespValue::Integer(_) => true,
        RespValue::BulkString(None) => true,
        RespValue::BulkString(Some(s)) => encode_utf8(s).len() <= i32::MAX,
        RespValue::Array(vs) => vs.len() <= usize::MAX && values_readable(vs),
    }
}

/// Every value of `vs` reads back from its lines.
pub open spec fn values_readable(vs: Seq<RespValue>) -> bool
    decreases vs,
{
    if vs.len() == 0 {
        true
    } else {
        value_readable(vs[0]) && values_readable(vs.drop_first())
    }
}

/// The lines that stand for a value: its type marker and text, a bulk string's
/// length line then its text (a null bulk string the single line `$-1`), an
/// array's length line then its elements' lines.
pub open spec fn read_lines(v: RespValue) -> Seq<Seq<char>>
    decreases v,
{
    match v {
        RespValue::SimpleString(s) => seq![seq!['+'] + s],
        RespValue::RespError(a, b) => seq![seq!['-'] + a + seq![' '] + b],
        RespValue::Integer(i) => seq![seq![':'] + int_chars(i as int)],
        RespValue::BulkString(None) => seq![seq!['$', '-', '1']],
        RespValue::BulkString(Some(s)) => seq![seq!['$'] + decimal(byte_len(s) as nat), s],
        RespValue::Array(vs) => seq![seq!['*'] + decimal(vs.len())] + read_lines_list(vs),
    }
}

/// The lines that stand for several values, one after another.
pub open spec fn read_lines_list(vs: Seq<RespValue>) -> Seq<Seq<char>>
    decreases vs,
{
    if vs.len() == 0 {
        Seq::empty()
    } else {
        read_lines(vs[0]) + read_lines_list(vs.drop_first())
    }
}

proof fn lemma_parse_i32_minus_one()
    ensures
        parse_i32_spec(seq!['-', '1']) == Some(-1i32),
{
    let s = seq!['-', '1'];
    let d = s.drop_first();
    assert(d =~= seq!['1']);
    assert(d.drop_last() =~= Seq::<char>::empty());
    assert(digits_value(Seq::<char>::empty()) == 0);
    assert(d.last() == '1');
    assert(is_digit(d[0]));
    assert(all_digits(d));
    assert(digits_value(d) == 1);
}

/// Every value, a null bulk string in an array included, is read from the
/// front of its lines as exactly itself, with the following lines left over.
pub proof fn lemma_read_value(v: RespValue, rest: Seq<Seq<char>>)
    requires
        value_readable(v),
    ensures
        read_lines(v).len() >= 1,
        parse_one(read_lines(v) + rest) == Ok::<(RespValue, Seq<Seq<char>>), ParseFault>((v, rest)),
    decreases v,
{
    let ts = read_lines(v);
    let toks = ts + rest;
    assert(toks[0] == ts[0]);
    assert(toks.drop_first() =~= ts.drop_first() + rest);
    let t = ts[0];
    match v {
        RespValue::SimpleString(s) => {
            assert(t.drop_first() =~= s);
            assert(ts.drop_first() + rest =~= rest);
        },
        RespValue::RespError(a, b) => {
            assert(t.drop_first() =~= a + seq![' '] + b);
            lemma_split_once_space_at(a, b);
            assert(ts.drop_first() + rest =~= rest);
        },
        RespValue::Integer(i) => {
            lemma_parse_i32_int_chars(i);
            if i < 0 {
                lemma_decimal((-i) as nat);
            } else {
                lemma_decimal(i as nat);
            }
            assert(t.drop_first() =~= int_chars(i as int));
            assert(ts.drop_first() + rest =~= rest);
        },
        RespValue::BulkString(Some(s)) => {
            let n = byte_len(s) as nat;
            lemma_parse_i32_decimal(n);
            lemma_decimal(n);
            assert(t.drop_first() =~= decimal(n));
            let r2 = ts.drop_first() + rest;
            assert(r2[0] == s);
            assert(r2.drop_first() =~= rest);
        },
        RespValue::BulkString(None) => {
            lemma_parse_i32_minus_one();
            assert(t.drop_first() =~= seq!['-', '1']);
            assert(ts.drop_first() + rest =~= rest);
        },
        RespValue::Array(vs) => {
            lemma_parse_usize_decimal(vs.len());
            lemma_decimal(vs.len());
            assert(t.drop_first() =~= decimal(vs.len()));
            assert(ts.drop_first() =~= read_lines_list(vs));
            lemma_read_values(vs, rest);
        },
    }
}

/// Several values are read, in order, from the front of their lines.
pub proof fn lemma_read_values(vs: Seq<RespValue>, rest: Seq<Seq<char>>)
    requires
        values_readable(vs),
        vs.len() <= usize::MAX,
    ensures
        parse_many(read_lines_list(vs) + rest, vs.len() as usize) == Ok::<
            (Seq<RespValue>, Seq<Seq<char>>),
            ParseFault,
        >((vs, rest)),
    decreases vs,
{
    if vs.len() == 0 {
        assert(read_lines_list(vs) + rest =~= rest);
        assert(vs =~= Seq::<RespValue>::empty());
    } else {
        let tail = vs.drop_first();
        let r = read_lines_list(tail) + rest;
        let toks = read_lines_list(vs) + rest;
        assert(toks =~= read_lines(vs[0]) + r);
        lemma_read_value(vs[0], r);
        lemma_read_values(tail, rest);
        let n = vs.len() as usize;
        assert(((n - 1) as usize) == tail.len() as usize);
        assert(parse_one(toks) == Ok::<(RespValue, Seq<Seq<char>>), ParseFault>((vs[0], r)));
        assert(r.len() < toks.len());
        assert(seq![vs[0]] + tail =~= vs);
        assert(prefix_values(seq![vs[0]], parse_many(r, (n - 1) as usize)) == Ok::<
            (Seq<RespValue>, Seq<Seq<char>>),
            ParseFault,
        >((seq![vs[0]] + tail, rest)));
    }
}

/// An element of an array is read exactly as the same lines read alone: the
/// first of the values read one after another is the value read from the
/// front, and as many values are read as were asked for.
pub proof fn lemma_parse_many_first(toks: Seq<Seq<char>>, n: usize)
    ensures
        parse_many(toks, n) matches Ok((vs, r)) ==> vs.len() == n,
        (n > 0 && parse_many(toks, n) is Ok) ==> (parse_one(toks) is Ok
            && parse_many(toks, n)->Ok_0.0[0] == parse_one(toks)->Ok_0.0),
{
    lemma_parse_many_lines(toks, n);
}

/// A command is `SET` exactly for an array of three elements whose first is the
/// bulk string `SET` and whose second is a bulk string: its key; the third,
/// whatever it is, is the value. `GET` takes exactly a key, `PING` at most a
/// message, and what is not an array is refused.
pub proof fn lemma_command_shapes(c: RespValue)
    ensures
        !(c is Array) ==> resp_to_command_spec(c) is Err,
        resp_to_command_spec(c) matches Ok(CommandValue::Store(k, v)) ==> (c is Array && c->Array_0.len()
            == 3 && c->Array_0[0] == RespValue::BulkString(Some("SET"@)) && c->Array_0[1]
            == RespValue::BulkString(Some(k)) && c->Array_0[2] == v),
        resp_to_command_spec(c) matches Ok(CommandValue::Read(k)) ==> (c is Array && c->Array_0.len()
            == 2 && c->Array_0[0] == RespValue::BulkString(Some("GET"@)) && c->Array_0[1]
            == RespValue::BulkString(Some(k))),
        resp_to_command_spec(c) matches Ok(CommandValue::PingReply(m)) ==> (c is Array
            && c->Array_0[0] == RespValue::BulkString(Some("PING"@)) && ((c->Array_0.len() == 1 && m
            == "PONG"@) || (c->Array_0.len() == 2 && c->Array_0[1] == RespValue::BulkString(
            Some(m),
        )))),
        (c is Array && c->Array_0.len() > 0 && c->Array_0[0] == RespValue::BulkString(Some("SET"@))
            && c->Array_0.len() != 3) ==> resp_to_command_spec(c) is Err,
        (c is Array && c->Array_0.len() == 3 && c->Array_0[0] == RespValue::BulkString(Some("SET"@))
            && c->Array_0[1] is BulkString && c->Array_0[1]->BulkString_0 is Some) ==> resp_to_command_spec(c)
            == Ok::<CommandValue, Seq<char>>(
            CommandValue::Store(k_of(c->Array_0[1]), c->Array_0[2]),
        ),
{
    reveal_strlit("SET");
    reveal_strlit("GET");
    reveal_strlit("PING");
    assert("SET"@ != "PING"@) by {
        assert("SET"@[0] != "PING"@[0]);
    }
    assert("SET"@ != "GET"@) by {
        assert("SET"@[0] != "GET"@[0]);
    }
    if let RespValue::Array(es) = c {
        if es.len() > 0 {
            let ps = es.drop_first();
            if ps.len() > 0 {
                assert(ps[0] == es[1]);
            }
            if ps.len() > 1 {
                assert(ps[1] == es[2]);
            }
        }
    }
}

/// The text of a bulk string that holds one.
pub open spec fn k_of(v: RespValue) -> Seq<char> {
    match v {
        RespValue::BulkString(Some(s)) => s,
        _ => Seq::empty(),
    }
}

/// A command is answered only if it is a non-empty array whose first element
/// is the bulk string `PING`, and then with `PONG`; whatever is not an array,
/// a bulk string included, is refused.
pub proof fn lemma_execute_command_answers(c: RespValue)
    ensures
        !(c is Array) ==> execute_command_spec(c) is Err,
        execute_command_spec(c) is Ok ==> (c is Array && c->Array_0.len() > 0 && c->Array_0[0]
            == RespValue::BulkString(Some("PING"@)) && execute_command_spec(c) == Ok::<
            RespValue,
            Seq<char>,
        >(RespValue::SimpleString("PONG"@))),
        (c is Array && c->Array_0.len() > 0 && c->Array_0[0] == RespValue::BulkString(Some("PING"@)))
            ==> execute_command_spec(c) == Ok::<RespValue, Seq<char>>(
            RespValue::SimpleString("PONG"@),
        ),
{
}

/// The printed elements of two non-empty lists, one after the other, are the
/// printed elements of each, separated by `", "`; a single element prints as
/// itself and no element as nothing.
pub proof fn lemma_display_list_concat(vs: Seq<RespValue>, ws: Seq<RespValue>)
    requires
        vs.len() > 0,
        ws.len() > 0,
    ensures
        display_list(vs + ws) == display_list(vs) + ", "@ + display_list(ws),
        display_list(seq![ws[0]]) == display_value(ws[0]),
        display_list(Seq::<RespValue>::empty()) == Seq::<char>::empty(),
    decreases ws.len(),
{
    let all = vs + ws;
    if ws.len() == 1 {
        assert(all.drop_last() =~= vs);
        assert(all.last() == ws[0]);
        assert(display_list(ws) == display_value(ws[0]));
    } else {
        let w2 = ws.drop_last();
        lemma_display_list_concat(vs, w2);
        assert(all.drop_last() =~= vs + w2);
        assert(all.last() == ws.last());
        assert(display_list(ws) == display_list(w2) + ", "@ + display_value(ws.last()));
        assert(display_list(vs) + ", "@ + display_list(w2) + ", "@ + display_value(ws.last())
            =~= display_list(vs) + ", "@ + (display_list(w2) + ", "@ + display_value(ws.last())));
    }
    assert(seq![ws[0]].len() == 1);
}

/// A command line becomes an array with one element per word, the bulk string
/// of that word, whatever the number of words.
pub proof fn lemma_cli_words(words: Seq<&str>)
    ensures
        cli_words_value(words) is Array,
        cli_words_value(words)->Array_0.len() == words.len(),
        forall|i: int|
            0 <= i < words.len() ==> #[trigger] cli_words_value(words)->Array_0[i]
                == RespValue::BulkString(Some(words[i]@)),
{
}

} // verus!
