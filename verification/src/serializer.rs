use vstd::prelude::*;
use vstd::string::*;
use crate::model::{RespType, RespValue, elems_view, values_view};
use crate::numbers::{decimal, int_chars, i32_string, usize_string};
use crate::parser::byte_len;
use crate::text::crlf;

verus! {

/// The wire form of one value.
pub open spec fn serialize_value(v: RespValue) -> Seq<char>
    decreases v,
{
    match v {
        RespValue::SimpleString(s) => seq!['+'] + s + crlf(),
        RespValue::Integer(i) => seq![':'] + int_chars(i as int) + crlf(),
        RespValue::RespError(a, b) => seq!['-'] + a + seq![' '] + b + crlf(),
        RespValue::BulkString(None) => seq!['$', '-', '1'] + crlf() + crlf(),
        RespValue::BulkString(Some(s)) => seq!['$'] + decimal(byte_len(s) as nat) + crlf() + s
            + crlf(),
        RespValue::Array(vs) => seq!['*'] + decimal(vs.len()) + crlf() + serialize_values(vs),
    }
}

/// The wire forms of several values, one after another.
pub open spec fn serialize_values(vs: Seq<RespValue>) -> Seq<char>
    decreases vs,
{
    if vs.len() == 0 {
        Seq::empty()
    } else {
        serialize_values(vs.drop_last()) + serialize_value(vs.last())
    }
}

/// Appending a value to a list appends its wire form.
pub proof fn lemma_serialize_values_push(vs: Seq<RespValue>, v: RespValue)
    ensures
        serialize_values(vs.push(v)) == serialize_values(vs) + serialize_value(v),
{
    assert(vs.push(v).drop_last() =~= vs);
}

/// The model of the first `i + 1` boxed values extends that of the first `i`.
pub proof fn lemma_elems_view_take(s: Seq<Box<RespType>>, i: int)
    requires
        0 <= i < s.len(),
    ensures
        elems_view(s.take(i + 1)) == elems_view(s.take(i)).push(crate::model::resp_view(*s[i])),
{
    assert(s.take(i + 1).drop_last() =~= s.take(i));
}

/// The wire form of one value. It never fails.
pub fn serialize_one_resp(resp_token: &RespType) -> (r: Result<String, &'static str>)
    ensures
        r matches Ok(s) && s@ == serialize_value(resp_token@),
    decreases resp_token,
{
    proof {
        reveal_strlit("+");
        reveal_strlit(":");
        reveal_strlit("-");
        reveal_strlit(" ");
        reveal_strlit("$-1");
        reveal_strlit("$");
        reveal_strlit("*");
        reveal_strlit("\r\n");
    }
    match resp_token {
        RespType::SimpleString(string) => {
            let mut out = String::from_str("+");
            out.append(string);
            out.append("\r\n");
            Ok(out)
        },
        RespType::Integer(number) => {
            let mut out = String::from_str(":");
            let digits = i32_string(*number);
            out.append(digits.as_str());
            out.append("\r\n");
            Ok(out)
        },
        RespType::RespError((error_type, error_message)) => {
            let mut out = String::from_str("-");
            out.append(error_type);
            out.append(" ");
            out.append(error_message);
            out.append("\r\n");
            Ok(out)
        },
        RespType::BulkString(None) => {
            let mut out = String::from_str("$-1");
            out.append("\r\n");
            out.append("\r\n");
            Ok(out)
        },
        RespType::BulkString(Some(string)) => {
            let mut out = String::from_str("$");
            let length = usize_string(string.len());
            out.append(length.as_str());
            out.append("\r\n");
            out.append(string);
            out.append("\r\n");
            Ok(out)
        },
        RespType::Array(vector) => {
            let mut prefix = String::from_str("*");
            let length = usize_string(vector.len());
            prefix.append(length.as_str());
            prefix.append("\r\n");
            let mut suffix = String::new();
            let mut i: usize = 0;
            assert(vector@.take(0) =~= Seq::<Box<RespType>>::empty());
            while i < vector.len()
                invariant
                    i <= vector@.len(),
                    *resp_token == RespType::Array(*vector),
                    suffix@ == serialize_values(elems_view(vector@.take(i as int))),
                decreases vector@.len() - i,
            {
                assert(decreases_to!(*resp_token => (*resp_token)->Array_0));
                assert(decreases_to!(*vector => vector@));
                assert(decreases_to!(vector@ => vector@[i as int]));
                let string = match serialize_one_resp(&vector[i]) {
                    Ok(string) => string,
                    Err(e) => {
                        return Err(e);
                    },
                };
                proof {
                    lemma_elems_view_take(vector@, i as int);
                    lemma_serialize_values_push(elems_view(vector@.take(i as int)), crate::model::resp_view(*vector@[i as int]));
                }
                suffix.append(string.as_str());
                i += 1;
            }
            assert(vector@.take(vector@.len() as int) =~= vector@);
            proof {
                crate::model::lemma_elems_view(vector@);
            }
            prefix.append(suffix.as_str());
            Ok(prefix)
        },
    }
}

/// The wire form of a list of values, one after another. It never fails.
pub fn serialize_resp(resp_tokens: &Vec<RespType>) -> (r: Result<String, &'static str>)
    ensures
        r matches Ok(s) && s@ == serialize_values(values_view(resp_tokens@)),
{
    let mut acc = String::new();
    let mut i: usize = 0;
    assert(values_view(resp_tokens@.take(0)) =~= Seq::<RespValue>::empty());
    while i < resp_tokens.len()
        invariant
            i <= resp_tokens@.len(),
            acc@ == serialize_values(values_view(resp_tokens@.take(i as int))),
        decreases resp_tokens@.len() - i,
    {
        let next_string = match serialize_one_resp(&resp_tokens[i]) {
            Ok(string) => string,
            Err(e) => {
                return Err(e);
            },
        };
        proof {
            assert(values_view(resp_tokens@.take(i + 1)) =~= values_view(
                resp_tokens@.take(i as int),
            ).push(resp_tokens@[i as int]@));
            lemma_serialize_values_push(
                values_view(resp_tokens@.take(i as int)),
                resp_tokens@[i as int]@,
            );
        }
        acc.append(next_string.as_str());
        i += 1;
    }
    assert(resp_tokens@.take(resp_tokens@.len() as int) =~= resp_tokens@);
    Ok(acc)
}

/// How a value prints for a reader.
pub open spec fn display_value(v: RespValue) -> Seq<char>
    decreases v,
{
    match v {
        RespValue::SimpleString(s) => "SimpleString(\""@ + s + "\")"@,
        RespValue::RespError(a, b) => "Error("@ + a + ", "@ + b + ")"@,
        RespValue::Integer(i) => "Integer("@ + int_chars(i as int) + ")"@,
        RespValue::BulkString(Some(s)) => "BulkString(\""@ + s + "\")"@,
        RespValue::BulkString(None) => "BulkString(None)"@,
        RespValue::Array(vs) => "Array["@ + display_list(vs) + "]"@,
    }
}

/// How the elements of an array print: each value, separated by `", "`.
pub open spec fn display_list(vs: Seq<RespValue>) -> Seq<char>
    decreases vs,
{
    if vs.len() == 0 {
        Seq::empty()
    } else if vs.len() == 1 {
        display_value(vs[0])
    } else {
        display_list(vs.drop_last()) + ", "@ + display_value(vs.last())
    }
}

impl<'a> RespType<'a> {
    /// How the value prints for a reader, e.g. `Array[SimpleString("OK"), Integer(1)]`.
    pub fn to_string(&self) -> (out: String)
        ensures
            out@ == display_value(self@),
        decreases self,
    {
        match self {
            RespType::SimpleString(string) => {
                let mut out = String::from_str("SimpleString(\"");
                out.append(string);
                out.append("\")");
                out
            },
            RespType::RespError((error_type, error_message)) => {
                let mut out = String::from_str("Error(");
                out.append(error_type);
                out.append(", ");
                out.append(error_message);
                out.append(")");
                out
            },
            RespType::Integer(integer) => {
                let mut out = String::from_str("Integer(");
                let digits = i32_string(*integer);
                out.append(digits.as_str());
                out.append(")");
                out
            },
            RespType::BulkString(Some(string)) => {
                let mut out = String::from_str("BulkString(\"");
                out.append(string);
                out.append("\")");
                out
            },
            RespType::BulkString(None) => String::from_str("BulkString(None)"),
            RespType::Array(tokens) => {
                let mut out = String::from_str("Array[");
                let mut body = String::new();
                let n = tokens.len();
                let mut index: usize = 0;
                proof {
                    reveal_strlit("");
                    crate::model::lemma_elems_view(tokens@);
                }
                while index < n
                    invariant
                        n == tokens@.len(),
                        index <= n,
                        *self == RespType::Array(*tokens),
                        elems_view(tokens@).len() == n,
                        body@ == (if index == 0 {
                            Seq::<char>::empty()
                        } else {
                            display_list(elems_view(tokens@.take(index as int))) + (if index < n {
                                ", "@
                            } else {
                                ""@
                            })
                        }),
                    decreases n - index,
                {
                    assert(decreases_to!(*self => (*self)->Array_0));
                    assert(decreases_to!(*tokens => tokens@));
                    assert(decreases_to!(tokens@ => tokens@[index as int]));
                    let text = tokens[index].to_string();
                    proof {
                        lemma_elems_view_take(tokens@, index as int);
                        let prev = elems_view(tokens@.take(index as int));
                        let cur = elems_view(tokens@.take(index + 1));
                        crate::model::lemma_elems_view(tokens@.take(index + 1));
                        if index == 0 {
                            assert(tokens@.take(0) =~= Seq::<Box<RespType>>::empty());
                            assert(cur.len() == 1);
                            assert(display_list(cur) == display_value(cur[0]));
                            assert(Seq::<char>::empty() + text@ =~= text@);
                        } else {
                            assert(cur.drop_last() =~= prev);
                            assert(display_list(cur) == display_list(prev) + ", "@ + display_value(cur.last()));
                        }
                    }
                    body.append(text.as_str());
                    let separator = if index == n - 1 { "" } else { ", " };
                    body.append(separator);
                    index += 1;
                    proof {
                        reveal_strlit("");
                        if index == n {
                            assert(body@ =~= display_list(elems_view(tokens@.take(index as int))));
                        }
                    }
                }
                proof {
                    reveal_strlit("");
                    assert(tokens@.take(n as int) =~= tokens@);
                    if n == 0 {
                        assert(elems_view(tokens@) =~= Seq::<RespValue>::empty());
                    }
                }
                out.append(body.as_str());
                out.append("]");
                out
            },
        }
    }
}

} // verus!
