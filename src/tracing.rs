//! Propagation of the trace context across HTTP calls.

use vstd::prelude::*;
use vstd::string::*;
use crate::text::str_eq;

verus! {

/// The header that carries the trace context.
pub const TRACE_HEADER_NAME: &'static str = "uber-trace-id";

/// The value of the first header named `name`, if any.
pub open spec fn header_value(headers: Seq<(Seq<char>, Seq<char>)>, name: Seq<char>) -> Option<Seq<char>>
    decreases headers.len(),
{
    if headers.len() == 0 {
        None
    } else if headers[0].0 == name {
        Some(headers[0].1)
    } else {
        header_value(headers.drop_first(), name)
    }
}

/// The views of header pairs.
pub open spec fn header_views(v: Seq<(String, String)>) -> Seq<(Seq<char>, Seq<char>)> {
    v.map_values(|h: (String, String)| (h.0@, h.1@))
}

/// The trace context of an inbound request: the value of its first trace header.
pub fn extract_trace_context(headers: &Vec<(String, String)>) -> (r: Option<String>)
    ensures
        match r {
            Some(v) => header_value(header_views(headers@), TRACE_HEADER_NAME@) == Some(v@),
            None => header_value(header_views(headers@), TRACE_HEADER_NAME@) is None,
        },
{
    let ghost hv = header_views(headers@);
    let mut i: usize = 0;
    assert(hv.skip(0) =~= hv);
    while i < headers.len()
        invariant
            hv == header_views(headers@),
            i <= headers.len(),
            header_value(hv, TRACE_HEADER_NAME@) == header_value(hv.skip(i as int), TRACE_HEADER_NAME@),
        decreases headers.len() - i,
    {
        proof {
            assert(hv.skip(i as int)[0] == (headers@[i as int].0@, headers@[i as int].1@));
            assert(hv.skip(i as int).drop_first() =~= hv.skip(i + 1));
        }
        if str_eq(headers[i].0.as_str(), TRACE_HEADER_NAME) {
            return Some(headers[i].1.clone());
        }
        i = i + 1;
    }
    proof {
        assert(hv.skip(i as int) =~= Seq::<(Seq<char>, Seq<char>)>::empty());
    }
    None
}

/// Adds the trace header carrying `context` to outbound headers.
pub fn inject_trace_context(headers: &mut Vec<(String, String)>, context: &str)
    ensures
        header_views(final(headers)@) == header_views(old(headers)@).push((TRACE_HEADER_NAME@, context@)),
{
    let ghost before = header_views(headers@);
    headers.push((String::from_str(TRACE_HEADER_NAME), String::from_str(context)));
    assert(header_views(headers@) =~= before.push((TRACE_HEADER_NAME@, context@)));
}

} // verus!
