//! Rendering selected rows as delimited text or JSON.
//!
//! Plain output joins the selected values with commas, whatever the input
//! delimiter was. JSON output is one value per row: an array of the selected
//! values when no header is known, or an object keyed by the selected header
//! fields when one is. The object keeps the pairs in first-occurrence order;
//! a repeated header name keeps one pair whose value is the last one seen,
//! as a keyed map would.

use vstd::prelude::*;

use crate::model::ResultRow;
use crate::model::Target;
use crate::model::selected_of;

verus! {

/// Declares serde_json's error type, so that values of it can be carried
/// through; nothing is assumed about what such a value holds.
#[verifier::external_type_specification]
#[verifier::external_body]
pub struct ExJsonError(serde_json::Error);

/// A row could not be rendered as JSON; carries the serializer's error.
#[derive(Debug)]
pub struct RenderError(pub serde_json::Error);

/// The JSON string literal (quoted and escaped) for the given characters.
pub uninterp spec fn json_string_of(s: Seq<char>) -> Seq<char>;

/// Relies on serde_json::to_string for a `String` value: the JSON string
/// literal for exactly those characters, quoted and escaped, depending on
/// nothing but the characters themselves. The call always succeeds: its one
/// error path is an I/O error from the writer, and the writer it serializes
/// into is a byte vector, whose writes cannot fail.
#[verifier::external_body]
fn json_quote(s: &String) -> (r: Result<String, serde_json::Error>)
    ensures
        r is Ok,
        r matches Ok(q) ==> q@ == json_string_of(s@),
{
    serde_json::to_string(s)
}

/// The values joined with commas: plain delimited output for one row.
pub open spec fn csv_line(vals: Seq<String>) -> Seq<char>
    decreases vals.len(),
{
    if vals.len() == 0 {
        Seq::empty()
    } else if vals.len() == 1 {
        vals[0]@
    } else {
        csv_line(vals.drop_last()) + seq![','] + vals.last()@
    }
}

/// The JSON array holding the values' string literals, in order.
pub open spec fn json_array_of(vals: Seq<String>) -> Seq<char> {
    seq!['['] + json_array_items(vals) + seq![']']
}

/// The comma-separated items inside a JSON array of strings.
pub open spec fn json_array_items(vals: Seq<String>) -> Seq<char>
    decreases vals.len(),
{
    if vals.len() == 0 {
        Seq::empty()
    } else if vals.len() == 1 {
        json_string_of(vals[0]@)
    } else {
        json_array_items(vals.drop_last()) + seq![','] + json_string_of(vals.last()@)
    }
}

/// The position of the first pair whose key reads `k`, or -1 if none does.
pub open spec fn key_index(pairs: Seq<(String, String)>, k: Seq<char>) -> int
    decreases pairs.len(),
{
    if pairs.len() == 0 {
        -1
    } else if pairs[0].0@ == k {
        0
    } else {
        let r = key_index(pairs.drop_first(), k);
        if r < 0 {
            -1
        } else {
            r + 1
        }
    }
}

/// Putting one key and value into an association list with a keyed map's
/// insertion behavior: a new key is appended, a present key keeps its place
/// and its stored spelling but takes the new value.
pub open spec fn insert_pair(acc: Seq<(String, String)>, key: String, val: String) -> Seq<
    (String, String),
> {
    let i = key_index(acc, key@);
    if i < 0 {
        acc.push((key, val))
    } else {
        acc.update(i, (acc[i].0, val))
    }
}

/// The association list built from the first `n` header/value pairs, in
/// first-occurrence order with a repeated key taking the latest value.
pub open spec fn obj_pairs_upto(keys: Seq<String>, vals: Seq<String>, n: int) -> Seq<
    (String, String),
>
    decreases n,
{
    if n <= 0 {
        Seq::empty()
    } else {
        insert_pair(obj_pairs_upto(keys, vals, n - 1), keys[n - 1], vals[n - 1])
    }
}

/// The association list for a whole row zipped against the headers; the
/// shorter side bounds how many pairs there are.
pub open spec fn obj_pairs(keys: Seq<String>, vals: Seq<String>) -> Seq<(String, String)> {
    if keys.len() <= vals.len() {
        obj_pairs_upto(keys, vals, keys.len() as int)
    } else {
        obj_pairs_upto(keys, vals, vals.len() as int)
    }
}

/// The JSON object holding each pair's key and value as string literals, in
/// the pairs' order.
pub open spec fn json_object_of(pairs: Seq<(String, String)>) -> Seq<char> {
    seq!['{'] + json_object_items(pairs) + seq!['}']
}

/// The comma-separated `"key":"value"` entries inside a JSON object.
pub open spec fn json_object_items(pairs: Seq<(String, String)>) -> Seq<char>
    decreases pairs.len(),
{
    if pairs.len() == 0 {
        Seq::empty()
    } else if pairs.len() == 1 {
        json_string_of(pairs[0].0@) + seq![':'] + json_string_of(pairs[0].1@)
    } else {
        json_object_items(pairs.drop_last()) + seq![','] + json_string_of(pairs.last().0@)
            + seq![':'] + json_string_of(pairs.last().1@)
    }
}

/// A match at `j`, with no match before it, pins the key's position.
proof fn lemma_key_index_found(pairs: Seq<(String, String)>, k: Seq<char>, j: int)
    requires
        0 <= j < pairs.len(),
        pairs[j].0@ == k,
        forall|t: int| 0 <= t < j ==> pairs[t].0@ != k,
    ensures
        key_index(pairs, k) == j,
    decreases pairs.len(),
{
    if j > 0 {
        lemma_key_index_found(pairs.drop_first(), k, j - 1);
    }
}

/// With no match anywhere, the key has no position.
proof fn lemma_key_index_none(pairs: Seq<(String, String)>, k: Seq<char>)
    requires
        forall|t: int| 0 <= t < pairs.len() ==> pairs[t].0@ != k,
    ensures
        key_index(pairs, k) == -1,
    decreases pairs.len(),
{
    if pairs.len() > 0 {
        lemma_key_index_none(pairs.drop_first(), k);
    }
}

/// Renders selected rows, one at a time: plain comma-joined text, or JSON
/// arrays, or JSON objects keyed by the selected header fields when a header
/// row was given.
pub struct ResultWriter {
    /// Whether rows are rendered as JSON rather than plain text.
    pub json: bool,
    /// The selected header fields, when the input's first row named columns.
    pub headers: Option<ResultRow>,
}

impl ResultWriter {
    /// A writer for the given output mode; a header row, when there is one,
    /// is itself run through the selector, so that its fields line up with
    /// every selected data row.
    pub fn new(json: bool, target: &Target, headers: Option<Vec<String>>) -> (w: ResultWriter)
        ensures
            w.json == json,
            match headers {
                Some(h) => w.headers matches Some(sel) && sel.0@ == selected_of(
                    target.ranges@,
                    h@,
                ),
                None => w.headers is None,
            },
    {
        ResultWriter {
            json,
            headers: match headers {
                Some(h) => Some(target.select(&h)),
                None => None,
            },
        }
    }

    /// The row's values joined with commas. The output separator is a comma
    /// no matter what delimiter the input used.
    pub fn write_csv(&self, r: ResultRow) -> (out: String)
        ensures
            out@ == csv_line(r.0@),
    {
        let mut out = String::new();
        let n = r.0.len();
        let mut i: usize = 0;
        proof {
            reveal_strlit(",");
            assert(r.0@.subrange(0, 0) =~= Seq::<String>::empty());
        }
        while i < n
            invariant
                n == r.0@.len(),
                i <= n,
                out@ == csv_line(r.0@.subrange(0, i as int)),
            decreases n - i,
        {
            let ghost prefix = r.0@.subrange(0, i as int);
            let ghost next = r.0@.subrange(0, i + 1 as int);
            proof {
                reveal_strlit(",");
                assert(next.drop_last() =~= prefix);
                assert(next.last() == r.0@[i as int]);
            }
            if i > 0 {
                out.append(",");
            }
            out.append(r.0[i].as_str());
            proof {
                if i == 0 {
                    assert(out@ =~= csv_line(next));
                } else {
                    assert(out@ =~= csv_line(prefix) + seq![','] + r.0@[i as int]@);
                }
            }
            i = i + 1;
        }
        proof {
            assert(r.0@.subrange(0, n as int) =~= r.0@);
        }
        out
    }

    /// The row as a JSON array of its values, in order.
    pub fn write_json_array(&self, r: ResultRow) -> (out: Result<String, RenderError>)
        ensures
            out matches Ok(s) && s@ == json_array_of(r.0@),
    {
        let mut out = String::new();
        proof {
            reveal_strlit("[");
            reveal_strlit("]");
            reveal_strlit(",");
            assert(r.0@.subrange(0, 0) =~= Seq::<String>::empty());
        }
        out.append("[");
        let n = r.0.len();
        let mut i: usize = 0;
        assert(out@ =~= seq!['['] + json_array_items(r.0@.subrange(0, 0)));
        while i < n
            invariant
                n == r.0@.len(),
                i <= n,
                out@ == seq!['['] + json_array_items(r.0@.subrange(0, i as int)),
            decreases n - i,
        {
            let ghost prefix = r.0@.subrange(0, i as int);
            let ghost next = r.0@.subrange(0, i + 1 as int);
            proof {
                reveal_strlit(",");
                assert(next.drop_last() =~= prefix);
                assert(next.last() == r.0@[i as int]);
            }
            if i > 0 {
                out.append(",");
            }
            let q = match json_quote(&r.0[i]) {
                Ok(q) => q,
                Err(e) => {
                    return Err(RenderError(e));
                },
            };
            out.append(q.as_str());
            proof {
                if i == 0 {
                    assert(out@ =~= seq!['['] + json_array_items(next));
                } else {
                    assert(out@ =~= seq!['['] + (json_array_items(prefix) + seq![',']
                        + json_string_of(r.0@[i as int]@)));
                }
            }
            i = i + 1;
        }
        proof {
            reveal_strlit("]");
            assert(r.0@.subrange(0, n as int) =~= r.0@);
        }
        out.append("]");
        proof {
            assert(out@ =~= json_array_of(r.0@));
        }
        Ok(out)
    }

    /// The row as a JSON object: the selected header fields as keys, the
    /// row's values as values, pairs in first-occurrence order with a
    /// repeated key taking the latest value.
    pub fn write_json_object(&self, r: ResultRow) -> (out: Result<String, RenderError>)
        requires
            self.headers is Some,
        ensures
            out is Ok,
            self.headers matches Some(h) ==> (out matches Ok(s) && s@ == json_object_of(
                obj_pairs(h.0@, r.0@),
            )),
    {
        match &self.headers {
            Some(h) => json_object_string(h, &r),
            None => unreached(),
        }
    }

    /// The row rendered for the selected output mode: a JSON array when no
    /// header is known, a JSON object keyed by the header otherwise.
    pub fn write_json(&self, r: ResultRow) -> (out: Result<String, RenderError>)
        ensures
            out is Ok,
            self.headers is None ==> (out matches Ok(s) && s@ == json_array_of(r.0@)),
            self.headers matches Some(h) ==> (out matches Ok(s) && s@ == json_object_of(
                obj_pairs(h.0@, r.0@),
            )),
    {
        if self.headers.is_none() {
            self.write_json_array(r)
        } else {
            self.write_json_object(r)
        }
    }
}

/// The keys and values paired up, deduplicated, and rendered as one JSON
/// object.
fn json_object_string(keys: &ResultRow, vals: &ResultRow) -> (out: Result<String, RenderError>)
    ensures
        out matches Ok(s) && s@ == json_object_of(obj_pairs(keys.0@, vals.0@)),
{
    let m = if keys.0.len() <= vals.0.len() {
        keys.0.len()
    } else {
        vals.0.len()
    };
    let mut pairs: Vec<(String, String)> = Vec::new();
    let mut i: usize = 0;
    while i < m
        invariant
            m <= keys.0@.len(),
            m <= vals.0@.len(),
            i <= m,
            pairs@ == obj_pairs_upto(keys.0@, vals.0@, i as int),
        decreases m - i,
    {
        let key = keys.0[i].clone();
        let val = vals.0[i].clone();
        let ghost acc = pairs@;
        let plen = pairs.len();
        let mut j: usize = 0;
        let mut found: bool = false;
        while !found && j < plen
            invariant
                plen == pairs@.len(),
                j <= plen,
                key == keys.0@[i as int],
                i < keys.0@.len(),
                acc == pairs@,
                !found ==> forall|t: int| 0 <= t < j ==> pairs@[t].0@ != key@,
                found ==> j < plen && pairs@[j as int].0@ == key@ && forall|t: int|
                    0 <= t < j ==> pairs@[t].0@ != key@,
            decreases plen - j + (if found {
                0int
            } else {
                1int
            }),
        {
            if pairs[j].0 == key {
                found = true;
            } else {
                j = j + 1;
            }
        }
        if found {
            proof {
                lemma_key_index_found(acc, key@, j as int);
            }
            let kept = pairs[j].0.clone();
            pairs[j] = (kept, val);
            proof {
                assert(pairs@ =~= insert_pair(acc, keys.0@[i as int], vals.0@[i as int]));
            }
        } else {
            proof {
                lemma_key_index_none(acc, key@);
            }
            pairs.push((key, val));
            proof {
                assert(pairs@ =~= insert_pair(acc, keys.0@[i as int], vals.0@[i as int]));
            }
        }
        i = i + 1;
    }
    proof {
        assert(pairs@ == obj_pairs(keys.0@, vals.0@));
    }
    let mut out = String::new();
    proof {
        reveal_strlit("{");
        assert(pairs@.subrange(0, 0) =~= Seq::<(String, String)>::empty());
    }
    out.append("{");
    let n = pairs.len();
    let mut k: usize = 0;
    assert(out@ =~= seq!['{'] + json_object_items(pairs@.subrange(0, 0)));
    while k < n
        invariant
            n == pairs@.len(),
            k <= n,
            pairs@ == obj_pairs(keys.0@, vals.0@),
            out@ == seq!['{'] + json_object_items(pairs@.subrange(0, k as int)),
        decreases n - k,
    {
        let ghost prefix = pairs@.subrange(0, k as int);
        let ghost next = pairs@.subrange(0, k + 1 as int);
        proof {
            reveal_strlit(",");
            reveal_strlit(":");
            assert(next.drop_last() =~= prefix);
            assert(next.last() == pairs@[k as int]);
        }
        if k > 0 {
            out.append(",");
        }
        let qk = match json_quote(&pairs[k].0) {
            Ok(q) => q,
            Err(e) => {
                return Err(RenderError(e));
            },
        };
        out.append(qk.as_str());
        out.append(":");
        let qv = match json_quote(&pairs[k].1) {
            Ok(q) => q,
            Err(e) => {
                return Err(RenderError(e));
            },
        };
        out.append(qv.as_str());
        proof {
            if k == 0 {
                assert(out@ =~= seq!['{'] + json_object_items(next));
            } else {
                assert(out@ =~= seq!['{'] + (json_object_items(prefix) + seq![',']
                    + json_string_of(pairs@[k as int].0@) + seq![':'] + json_string_of(
                    pairs@[k as int].1@,
                )));
            }
        }
        k = k + 1;
    }
    proof {
        reveal_strlit("}");
        assert(pairs@.subrange(0, n as int) =~= pairs@);
    }
    out.append("}");
    proof {
        assert(out@ =~= json_object_of(obj_pairs(keys.0@, vals.0@)));
    }
    Ok(out)
}

} // verus!
