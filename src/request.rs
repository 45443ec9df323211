//! Checks on an incoming graph request: the accepted media type, the
//! mandatory query parameters, and the parameters handed to the plugins.

use vstd::prelude::*;
use crate::errors::GraphError;
use crate::metadata::{Metadata, map_of};
use crate::text::{contains_str, insert_sorted, str_eq, strictly_sorted, views};

verus! {

/// The media type in which graphs are served.
pub const CONTENT_TYPE: &'static str = "application/json";

/// The percent-decoded key/value pairs of a query string, in order.
pub uninterp spec fn query_pairs_of(q: Seq<char>) -> Seq<(Seq<char>, Seq<char>)>;

/// The views of a vector of string pairs.
pub open spec fn pair_views(v: Seq<(String, String)>) -> Seq<(Seq<char>, Seq<char>)> {
    v.map_values(|p: (String, String)| (p.0@, p.1@))
}

/// The keys of a query string, repeated keys included.
pub open spec fn query_keys_of(q: Seq<char>) -> Seq<Seq<char>> {
    query_pairs_of(q).map_values(|p: (Seq<char>, Seq<char>)| p.0)
}

/// Relies on `url::form_urlencoded::parse`: the `application/x-www-form-urlencoded`
/// pairs of the query, decoded, in order; an empty query has none.
#[verifier::external_body]
fn decode_query(query: &str) -> (r: Vec<(String, String)>)
    ensures
        pair_views(r@) == query_pairs_of(query@),
        query@.len() == 0 ==> r@.len() == 0,
{
    url::form_urlencoded::parse(query.as_bytes()).into_owned().collect()
}

/// The keys of the pairs.
pub fn keys_of(pairs: &Vec<(String, String)>) -> (r: Vec<String>)
    ensures
        views(r@) == pair_views(pairs@).map_values(|p: (Seq<char>, Seq<char>)| p.0),
{
    let mut out: Vec<String> = Vec::new();
    let mut i: usize = 0;
    while i < pairs.len()
        invariant
            i <= pairs.len(),
            views(out@) == pair_views(pairs@).map_values(|p: (Seq<char>, Seq<char>)| p.0).subrange(
                0,
                i as int,
            ),
        decreases pairs.len() - i,
    {
        let ghost o = views(out@);
        out.push(pairs[i].0.clone());
        assert(views(out@) =~= o.push(pairs@[i as int].0@));
        i = i + 1;
    }
    assert(pair_views(pairs@).map_values(|p: (Seq<char>, Seq<char>)| p.0).subrange(0, i as int)
        =~= pair_views(pairs@).map_values(|p: (Seq<char>, Seq<char>)| p.0));
    out
}

/// The members of `required` that `keys` lacks, each once, sorted.
pub fn missing_params(required: &Vec<String>, keys: &Vec<String>) -> (r: Vec<String>)
    ensures
        strictly_sorted(views(r@)),
        forall|x: Seq<char>| #[trigger]
            views(r@).contains(x) <==> views(required@).contains(x) && !views(keys@).contains(x),
{
    let mut missing: Vec<String> = Vec::new();
    let mut i: usize = 0;
    while i < required.len()
        invariant
            i <= required.len(),
            strictly_sorted(views(missing@)),
            forall|x: Seq<char>| #[trigger]
                views(missing@).contains(x) <==> views(required@).subrange(0, i as int).contains(x)
                    && !views(keys@).contains(x),
        decreases required.len() - i,
    {
        let p = required[i].clone();
        let ghost pre = views(required@).subrange(0, i as int);
        let ghost post = views(required@).subrange(0, i + 1);
        proof {
            assert(post =~= pre.push(p@));
            assert forall|x: Seq<char>| #[trigger] post.contains(x) <==> pre.contains(x) || x == p@ by {
                if post.contains(x) {
                    let k = choose|k: int| 0 <= k < post.len() && post[k] == x;
                    if k < pre.len() {
                        assert(pre[k] == x);
                    }
                }
                if pre.contains(x) {
                    let k = choose|k: int| 0 <= k < pre.len() && pre[k] == x;
                    assert(post[k] == x);
                }
                if x == p@ {
                    assert(post[i as int] == x);
                }
            }
        }
        if !contains_str(keys, p.as_str()) && !contains_str(&missing, p.as_str()) {
            insert_sorted(&mut missing, p);
        }
        i = i + 1;
    }
    assert(views(required@).subrange(0, i as int) =~= views(required@));
    missing
}

/// Succeeds if `keys` holds every member of `required`; otherwise fails with
/// `MissingParams` listing the absent ones, each once, sorted.
pub fn check_query_keys(required: &Vec<String>, keys: &Vec<String>) -> (r: Result<(), GraphError>)
    ensures
        r is Ok <==> forall|x: Seq<char>|
            views(required@).contains(x) ==> #[trigger] views(keys@).contains(x),
        r matches Err(e) ==> e matches GraphError::MissingParams(m) && strictly_sorted(views(m@))
            && forall|x: Seq<char>| #[trigger]
            views(m@).contains(x) <==> views(required@).contains(x) && !views(keys@).contains(x),
{
    let missing = missing_params(required, keys);
    if missing.len() == 0 {
        proof {
            assert forall|x: Seq<char>| views(required@).contains(x) implies #[trigger] views(keys@).contains(x) by {
                if !views(keys@).contains(x) {
                    assert(views(missing@).contains(x));
                }
            }
        }
        Ok(())
    } else {
        proof {
            let x = views(missing@)[0];
            assert(views(missing@).contains(x));
        }
        Err(GraphError::MissingParams(missing))
    }
}

/// Makes sure `query` holds every mandatory parameter key. Repeated keys are
/// allowed; the keys are compared after percent-decoding.
pub fn ensure_query_params(required: &Vec<String>, query: &str) -> (r: Result<(), GraphError>)
    ensures
        r is Ok <==> forall|x: Seq<char>|
            views(required@).contains(x) ==> #[trigger] query_keys_of(query@).contains(x),
        r matches Err(e) ==> e matches GraphError::MissingParams(m) && strictly_sorted(views(m@))
            && forall|x: Seq<char>| #[trigger]
            views(m@).contains(x) <==> views(required@).contains(x) && !query_keys_of(query@).contains(x),
{
    if required.len() == 0 {
        return Ok(());
    }
    let pairs = decode_query(query);
    let keys = keys_of(&pairs);
    assert(views(keys@) =~= query_keys_of(query@));
    check_query_keys(required, &keys)
}

/// Makes sure the client accepts `content_type`: `accept` is the value of its
/// `Accept` header, if it sent one.
pub fn ensure_content_type(accept: Option<&str>, content_type: &str) -> (r: Result<(), GraphError>)
    ensures
        r is Ok <==> (accept matches Some(a) && a@ == content_type@),
        r matches Err(e) ==> e == GraphError::InvalidContentType,
{
    match accept {
        Some(a) => {
            if str_eq(a, content_type) {
                Ok(())
            } else {
                Err(GraphError::InvalidContentType)
            }
        },
        None => Err(GraphError::InvalidContentType),
    }
}

/// The checks made on every graph request before any plugin runs: first the
/// media type, then the mandatory parameters.
pub fn check_request(
    accept: Option<&str>,
    content_type: &str,
    required: &Vec<String>,
    query: &str,
) -> (r: Result<(), GraphError>)
    ensures
        !(accept matches Some(a) && a@ == content_type@) ==> r == Err::<(), GraphError>(
            GraphError::InvalidContentType,
        ),
        (accept matches Some(a) && a@ == content_type@) ==> (r is Ok <==> forall|x: Seq<char>|
            views(required@).contains(x) ==> #[trigger] query_keys_of(query@).contains(x)),
        (accept matches Some(a) && a@ == content_type@) ==> (r matches Err(e) ==> e matches GraphError::MissingParams(m)
            && strictly_sorted(views(m@)) && forall|x: Seq<char>| #[trigger]
            views(m@).contains(x) <==> views(required@).contains(x) && !query_keys_of(query@).contains(x)),
{
    ensure_content_type(accept, content_type)?;
    ensure_query_params(required, query)
}

/// The parameters that the pairs stand for: a later pair wins over an earlier one with the same key.
pub fn params_from_pairs(pairs: &Vec<(String, String)>) -> (r: Metadata)
    ensures
        r.wf(),
        r@ == map_of(pair_views(pairs@)),
{
    let mut m = Metadata::new();
    let mut i: usize = 0;
    while i < pairs.len()
        invariant
            i <= pairs.len(),
            m.wf(),
            m@ == map_of(pair_views(pairs@).subrange(0, i as int)),
        decreases pairs.len() - i,
    {
        proof {
            assert(pair_views(pairs@).subrange(0, i + 1).drop_last() =~= pair_views(pairs@).subrange(0, i as int));
        }
        let _ = m.insert(pairs[i].0.clone(), pairs[i].1.clone());
        i = i + 1;
    }
    assert(pair_views(pairs@).subrange(0, i as int) =~= pair_views(pairs@));
    m
}

/// The parameters of a query string: decoded, a later value winning over an
/// earlier one with the same key.
pub fn parse_query_params(query: &str) -> (r: Metadata)
    ensures
        r.wf(),
        r@ == map_of(query_pairs_of(query@)),
{
    let pairs = decode_query(query);
    params_from_pairs(&pairs)
}

} // verus!
