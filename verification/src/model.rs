use vstd::prelude::*;

verus! {

/// A RESP value as it appears on the wire, borrowing its text from the input.
#[derive(Debug, PartialEq, Eq)]
pub enum RespType<'a> {
    SimpleString(&'a str),
    RespError((&'a str, &'a str)),
    Integer(i32),
    BulkString(Option<&'a str>),
    Array(Vec<Box<RespType<'a>>>),
}

/// The mathematical model of a [`RespType`]: text is a sequence of characters.
pub enum RespValue {
    SimpleString(Seq<char>),
    RespError(Seq<char>, Seq<char>),
    Integer(i32),
    BulkString(Option<Seq<char>>),
    Array(Seq<RespValue>),
}

/// The model of every element of an array, in order.
pub open spec fn elems_view<'a>(s: Seq<Box<RespType<'a>>>) -> Seq<RespValue>
    decreases s,
{
    if s.len() == 0 {
        Seq::empty()
    } else {
        elems_view(s.drop_last()).push(resp_view(*s.last()))
    }
}

/// The model of one value.
pub open spec fn resp_view<'a>(t: RespType<'a>) -> RespValue
    decreases t,
{
    match t {
        RespType::SimpleString(s) => RespValue::SimpleString(s@),
        RespType::RespError((a, b)) => RespValue::RespError(a@, b@),
        RespType::Integer(i) => RespValue::Integer(i),
        RespType::BulkString(o) => RespValue::BulkString(
            match o {
                Some(s) => Some(s@),
                None => None,
            },
        ),
        RespType::Array(v) => RespValue::Array(elems_view(v@)),
    }
}

/// The model of boxed values has one entry per value, each the model of the value.
pub proof fn lemma_elems_view(s: Seq<Box<RespType>>)
    ensures
        elems_view(s).len() == s.len(),
        forall|i: int| 0 <= i < s.len() ==> #[trigger] elems_view(s)[i] == resp_view(*s[i]),
    decreases s.len(),
{
    if s.len() > 0 {
        lemma_elems_view(s.drop_last());
    }
}

/// The model of each value of a list, in order.
pub open spec fn values_view<'a>(v: Seq<RespType<'a>>) -> Seq<RespValue> {
    Seq::new(v.len(), |i: int| v[i]@)
}

impl<'a> View for RespType<'a> {
    type V = RespValue;

    open spec fn view(&self) -> RespValue {
        resp_view(*self)
    }
}

} // verus!
