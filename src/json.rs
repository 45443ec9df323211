//! The JSON text of a graph document:
//! `{"nodes":[{"version":..,"payload":..,"metadata":{..}},..],"edges":[[i,j],..]}`.

use vstd::prelude::*;
use vstd::string::*;
use crate::graph::{Graph, GraphDocument, Release, document_of};
use crate::metadata::Metadata;

verus! {

/// A lowercase hexadecimal digit, for `d < 16`.
pub open spec fn hex_digit(d: nat) -> char {
    "0123456789abcdef"@[d as int]
}

/// How one character stands inside a JSON string literal: `"` and `\` and
/// the control characters with a short form get a backslash escape, the other
/// control characters below U+0020 a `\u00XX` escape, the rest themselves.
pub open spec fn escape_char(c: char) -> Seq<char> {
    if c == '"' {
        seq!['\\', '"']
    } else if c == '\\' {
        seq!['\\', '\\']
    } else if c == '\x08' {
        seq!['\\', 'b']
    } else if c == '\t' {
        seq!['\\', 't']
    } else if c == '\n' {
        seq!['\\', 'n']
    } else if c == '\x0C' {
        seq!['\\', 'f']
    } else if c == '\r' {
        seq!['\\', 'r']
    } else if (c as u32) < 0x20 {
        seq!['\\', 'u', '0', '0', hex_digit((c as u32 / 16) as nat), hex_digit((c as u32 % 16) as nat)]
    } else {
        seq![c]
    }
}

/// Every character of `s`, escaped.
pub open spec fn escape_all(s: Seq<char>) -> Seq<char>
    decreases s.len(),
{
    if s.len() == 0 {
        Seq::empty()
    } else {
        escape_all(s.drop_last()) + escape_char(s.last())
    }
}

/// The JSON string literal that stands for `s`: quoted, characters escaped.
pub open spec fn json_string_of(s: Seq<char>) -> Seq<char> {
    seq!['"'] + escape_all(s) + seq!['"']
}

/// Relies on `serde_json::to_string` on a `str`: serializing a string never
/// fails, and gives the quoted literal with serde_json's escapes.
#[verifier::external_body]
fn quote(s: &str) -> (r: Result<String, String>)
    ensures
        r is Ok,
        r matches Ok(q) ==> q@ == json_string_of(s@),
{
    serde_json::to_string(s).map_err(|e| e.to_string())
}

/// `items` joined with commas.
pub open spec fn comma_join(items: Seq<Seq<char>>) -> Seq<char>
    decreases items.len(),
{
    if items.len() == 0 {
        Seq::empty()
    } else if items.len() == 1 {
        items[0]
    } else {
        comma_join(items.drop_last()) + ","@ + items.last()
    }
}

/// The decimal digit for `d < 10`.
pub open spec fn digit(d: nat) -> char {
    "0123456789"@[d as int]
}

/// The decimal form of `n`.
pub open spec fn decimal_of(n: nat) -> Seq<char>
    decreases n,
{
    if n < 10 {
        seq![digit(n)]
    } else {
        decimal_of(n / 10).push(digit(n % 10))
    }
}

/// One metadata entry as a JSON member.
pub open spec fn entry_json(e: (Seq<char>, Seq<char>)) -> Seq<char> {
    json_string_of(e.0) + ":"@ + json_string_of(e.1)
}

/// A metadata map as a JSON object, entries in stored order.
pub open spec fn metadata_json(m: Metadata) -> Seq<char> {
    "{"@ + comma_join(m.entry_views().map_values(|e: (Seq<char>, Seq<char>)| entry_json(e))) + "}"@
}

/// A release as a JSON object.
pub open spec fn release_json(r: Release) -> Seq<char> {
    "{\"version\":"@ + json_string_of(r.version@) + ",\"payload\":"@ + json_string_of(r.payload@)
        + ",\"metadata\":"@ + metadata_json(r.metadata) + "}"@
}

/// An edge as a JSON array of two positions.
pub open spec fn edge_json(e: (u64, u64)) -> Seq<char> {
    "["@ + decimal_of(e.0 as nat) + ","@ + decimal_of(e.1 as nat) + "]"@
}

/// The JSON text of a document.
pub open spec fn document_json(d: GraphDocument) -> Seq<char> {
    "{\"nodes\":["@ + comma_join(d.nodes@.map_values(|r: Release| release_json(r)))
        + "],\"edges\":["@ + comma_join(d.edges@.map_values(|e: (u64, u64)| edge_json(e))) + "]}"@
}

proof fn lemma_comma_join_step(items: Seq<Seq<char>>, i: int)
    requires
        0 <= i < items.len(),
    ensures
        comma_join(items.subrange(0, i + 1)) == if i == 0 {
            items[0]
        } else {
            comma_join(items.subrange(0, i)) + ","@ + items[i]
        },
{
    let t = items.subrange(0, i + 1);
    assert(t.drop_last() =~= items.subrange(0, i));
    if i == 0 {
        assert(t.len() == 1);
    }
}

/// The decimal form of `n`.
pub fn decimal(n: u64) -> (r: String)
    ensures
        r@ == decimal_of(n as nat),
    decreases n,
{
    let digits = "0123456789";
    proof {
        reveal_strlit("0123456789");
    }
    let d = (n % 10) as usize;
    let last = String::from_str(digits.substring_char(d, d + 1));
    assert(last@ =~= seq![digit(d as nat)]);
    if n < 10 {
        last
    } else {
        let mut r = decimal(n / 10);
        r.append(last.as_str());
        assert(r@ =~= decimal_of((n / 10) as nat).push(digit((n % 10) as nat)));
        r
    }
}

fn metadata_to_json(m: &Metadata) -> (r: String)
    requires
        m.wf(),
    ensures
        r@ == metadata_json(*m),
{
    let ghost items = m.entry_views().map_values(|e: (Seq<char>, Seq<char>)| entry_json(e));
    let n = m.len();
    let mut out = String::from_str("{");
    let mut i: usize = 0;
    while i < n
        invariant
            m.wf(),
            n == m.entry_views().len(),
            items == m.entry_views().map_values(|e: (Seq<char>, Seq<char>)| entry_json(e)),
            i <= n,
            out@ == "{"@ + comma_join(items.subrange(0, i as int)),
        decreases n - i,
    {
        let (k, v) = m.entry_at(i);
        let qk = quote(k.as_str()).unwrap();
        let qv = quote(v.as_str()).unwrap();
        proof {
            lemma_comma_join_step(items, i as int);
        }
        let ghost out0 = out@;
        if i > 0 {
            out.append(",");
        }
        out.append(qk.as_str());
        out.append(":");
        out.append(qv.as_str());
        proof {
            assert(items[i as int] == entry_json(m.entry_views()[i as int]));
            assert(out@ =~= "{"@ + comma_join(items.subrange(0, i + 1)));
        }
        i = i + 1;
    }
    out.append("}");
    proof {
        assert(items.subrange(0, n as int) =~= items);
        assert(out@ =~= metadata_json(*m));
    }
    out
}

fn release_to_json(r: &Release) -> (s: String)
    requires
        r.metadata.wf(),
    ensures
        s@ == release_json(*r),
{
    let qv = quote(r.version.as_str()).unwrap();
    let qp = quote(r.payload.as_str()).unwrap();
    let md = metadata_to_json(&r.metadata);
    let mut out = String::from_str("{\"version\":");
    out.append(qv.as_str());
    out.append(",\"payload\":");
    out.append(qp.as_str());
    out.append(",\"metadata\":");
    out.append(md.as_str());
    out.append("}");
    assert(out@ =~= release_json(*r));
    out
}

/// The JSON text of a document.
pub fn document_to_json(d: &GraphDocument) -> (r: String)
    ensures
        r@ == document_json(*d),
{
    let ghost nodes = d.nodes@.map_values(|r: Release| release_json(r));
    let ghost edges = d.edges@.map_values(|e: (u64, u64)| edge_json(e));
    let mut out = String::from_str("{\"nodes\":[");
    let mut i: usize = 0;
    while i < d.nodes.len()
        invariant
            nodes == d.nodes@.map_values(|r: Release| release_json(r)),
            i <= d.nodes.len(),
            out@ == "{\"nodes\":["@ + comma_join(nodes.subrange(0, i as int)),
        decreases d.nodes.len() - i,
    {
        d.nodes[i].metadata.check_wf();
        proof {
            lemma_comma_join_step(nodes, i as int);
        }
        let item = release_to_json(&d.nodes[i]);
        if i > 0 {
            out.append(",");
        }
        out.append(item.as_str());
        proof {
            assert(out@ =~= "{\"nodes\":["@ + comma_join(nodes.subrange(0, i + 1)));
        }
        i = i + 1;
    }
    proof {
        assert(nodes.subrange(0, d.nodes.len() as int) =~= nodes);
    }
    out.append("],\"edges\":[");
    let ghost head = out@;
    let mut j: usize = 0;
    while j < d.edges.len()
        invariant
            edges == d.edges@.map_values(|e: (u64, u64)| edge_json(e)),
            j <= d.edges.len(),
            out@ == head + comma_join(edges.subrange(0, j as int)),
        decreases d.edges.len() - j,
    {
        proof {
            lemma_comma_join_step(edges, j as int);
        }
        let (a, b) = d.edges[j];
        if j > 0 {
            out.append(",");
        }
        out.append("[");
        let da = decimal(a);
        out.append(da.as_str());
        out.append(",");
        let db = decimal(b);
        out.append(db.as_str());
        out.append("]");
        proof {
            assert(edges[j as int] == edge_json((a, b)));
            assert(out@ =~= head + comma_join(edges.subrange(0, j + 1)));
        }
        j = j + 1;
    }
    proof {
        assert(edges.subrange(0, d.edges.len() as int) =~= edges);
    }
    out.append("]}");
    assert(out@ =~= document_json(*d));
    out
}

impl Graph {
    /// The JSON text of this graph's document.
    pub fn to_json(&self) -> (r: String)
        ensures
            exists|d: GraphDocument| d@ == document_of(self@) && r@ == #[trigger] document_json(d),
    {
        self.check_wf();
        let d = self.to_document();
        let r = document_to_json(&d);
        assert(d@ == document_of(self@) && r@ == document_json(d));
        r
    }
}

} // verus!
