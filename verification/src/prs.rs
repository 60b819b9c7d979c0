//! Reading the PR-listing tool's structured output: a JSON array of
//! records, each carrying a head branch name and a PR number. Any
//! malformed output degrades to no pairs at all — PR annotation is
//! best-effort and never an error.

use vstd::prelude::*;

verus! {

/// serde_json's JSON value type, opaque to the verifier; values of it
/// are only carried between the trusted calls below.
#[verifier::external_type_specification]
#[verifier::external_body]
pub struct ExValue(serde_json::Value);

/// What `serde_json::from_slice` parses the bytes into: the document,
/// or nothing when the bytes are not well-formed JSON. The result
/// depends on the bytes alone.
pub uninterp spec fn json_doc_of(bytes: Seq<u8>) -> Option<serde_json::Value>;

/// The elements of a JSON array value, nothing for any other value.
pub uninterp spec fn json_items_of(v: serde_json::Value) -> Option<Seq<serde_json::Value>>;

/// The member a JSON object holds under a key, nothing when the value
/// is no object or has no such member.
pub uninterp spec fn json_member_of(v: serde_json::Value, key: Seq<char>) -> Option<
    serde_json::Value,
>;

/// The text of a JSON string value, nothing for any other value.
pub uninterp spec fn json_text_of(v: serde_json::Value) -> Option<Seq<char>>;

/// The number of a JSON integer value representable in 64 unsigned
/// bits, nothing otherwise.
pub uninterp spec fn json_num_of(v: serde_json::Value) -> Option<u64>;

/// Relies on serde_json::from_slice: parses JSON text into a value,
/// `None` when the bytes are not well-formed JSON.
#[verifier::external_body]
fn json_parse(bytes: &[u8]) -> (r: Option<serde_json::Value>)
    ensures
        r == json_doc_of(bytes@),
{
    serde_json::from_slice(bytes).ok()
}

/// Relies on serde_json::Value::as_array: the array's elements when the
/// value is a JSON array, `None` otherwise.
#[verifier::external_body]
fn json_as_array<'a>(v: &'a serde_json::Value) -> (r: Option<&'a Vec<serde_json::Value>>)
    ensures
        match r {
            Some(a) => json_items_of(*v) == Some(a@),
            None => json_items_of(*v) is None,
        },
{
    v.as_array()
}

/// Relies on serde_json::Value::get: the member under `key` when the
/// value is a JSON object with that key, `None` otherwise.
#[verifier::external_body]
fn json_get<'a>(v: &'a serde_json::Value, key: &str) -> (r: Option<&'a serde_json::Value>)
    ensures
        match r {
            Some(m) => json_member_of(*v, key@) == Some(*m),
            None => json_member_of(*v, key@) is None,
        },
{
    v.get(key)
}

/// Relies on serde_json::Value::as_str: the text when the value is a
/// JSON string, `None` otherwise.
#[verifier::external_body]
fn json_as_string(v: &serde_json::Value) -> (r: Option<String>)
    ensures
        match r {
            Some(s) => json_text_of(*v) == Some(s@),
            None => json_text_of(*v) is None,
        },
{
    match v.as_str() {
        Some(s) => Some(s.to_owned()),
        None => None,
    }
}

/// Relies on serde_json::Value::as_u64: the number when the value is a
/// JSON integer representable in 64 unsigned bits, `None` otherwise.
#[verifier::external_body]
fn json_as_u64(v: &serde_json::Value) -> (r: Option<u64>)
    ensures
        r == json_num_of(*v),
{
    v.as_u64()
}

/// The name/number pair one element of the PR listing yields: its
/// `headRefName` text with its `number`, when the element has both and
/// the number fits 32 unsigned bits; nothing otherwise.
pub open spec fn pr_pair_of(v: serde_json::Value) -> Option<(Seq<char>, u32)> {
    match json_member_of(v, "headRefName"@) {
        Some(name_value) => match json_text_of(name_value) {
            Some(name) => match json_member_of(v, "number"@) {
                Some(number_value) => match json_num_of(number_value) {
                    Some(n) => if n <= u32::MAX {
                        Some((name, n as u32))
                    } else {
                        None
                    },
                    None => None,
                },
                None => None,
            },
            None => None,
        },
        None => None,
    }
}

/// The pair of every element, when each yields one.
pub open spec fn pr_pair_values(items: Seq<serde_json::Value>) -> Seq<(Seq<char>, u32)> {
    items.map_values(|v: serde_json::Value| pr_pair_of(v).unwrap())
}

/// The pairs the PR-listing tool's whole output yields: one per
/// element when the bytes parse as a JSON array whose every element
/// yields a pair; otherwise no pairs at all, exactly as deserializing
/// the whole array into typed records would fail wholesale.
pub open spec fn pr_pairs_of(bytes: Seq<u8>) -> Seq<(Seq<char>, u32)> {
    match json_doc_of(bytes) {
        Some(doc) => match json_items_of(doc) {
            Some(items) => if forall|m: int|
                0 <= m < items.len() ==> pr_pair_of(#[trigger] items[m]) is Some {
                pr_pair_values(items)
            } else {
                Seq::<(Seq<char>, u32)>::empty()
            },
            None => Seq::<(Seq<char>, u32)>::empty(),
        },
        None => Seq::<(Seq<char>, u32)>::empty(),
    }
}

/// The views of the name/number pairs.
pub open spec fn pairs_view(ps: Seq<(String, u32)>) -> Seq<(Seq<char>, u32)> {
    ps.map_values(|p: (String, u32)| (p.0@, p.1))
}

fn no_pairs() -> (r: Vec<(String, u32)>)
    ensures
        pairs_view(r@) == Seq::<(Seq<char>, u32)>::empty(),
{
    let r: Vec<(String, u32)> = Vec::new();
    proof {
        assert(pairs_view(r@) =~= Seq::<(Seq<char>, u32)>::empty());
    }
    r
}

/// The name/number pairs in the PR-listing tool's output, as
/// [`pr_pairs_of`] describes them: anything malformed — not JSON, not
/// an array, any one element without a string `headRefName` or a
/// `number` fitting 32 unsigned bits — yields the empty listing.
#[verifier::loop_isolation(false)]
pub fn pr_pairs_from_json(bytes: &[u8]) -> (r: Vec<(String, u32)>)
    ensures
        pairs_view(r@) == pr_pairs_of(bytes@),
{
    let parsed = match json_parse(bytes) {
        Some(v) => v,
        None => {
            return no_pairs();
        },
    };
    let arr = match json_as_array(&parsed) {
        Some(a) => a,
        None => {
            return no_pairs();
        },
    };
    let count: usize = arr.len();
    let mut out: Vec<(String, u32)> = Vec::new();
    let mut i: usize = 0;
    proof {
        assert(arr@.subrange(0, 0) =~= Seq::<serde_json::Value>::empty());
        assert(pairs_view(out@) =~= pr_pair_values(arr@.subrange(0, 0)));
    }
    while i < count
        invariant
            i <= count,
            forall|m: int| 0 <= m < i ==> pr_pair_of(#[trigger] arr@[m]) is Some,
            pairs_view(out@) == pr_pair_values(arr@.subrange(0, i as int)),
        decreases count - i,
    {
        let item = &arr[i];
        let name_value = match json_get(item, "headRefName") {
            Some(v) => v,
            None => {
                assert(pr_pair_of(arr@[i as int]) is None);
                return no_pairs();
            },
        };
        let name = match json_as_string(name_value) {
            Some(s) => s,
            None => {
                assert(pr_pair_of(arr@[i as int]) is None);
                return no_pairs();
            },
        };
        let number_value = match json_get(item, "number") {
            Some(v) => v,
            None => {
                assert(pr_pair_of(arr@[i as int]) is None);
                return no_pairs();
            },
        };
        let number = match json_as_u64(number_value) {
            Some(u) => u,
            None => {
                assert(pr_pair_of(arr@[i as int]) is None);
                return no_pairs();
            },
        };
        if number > u32::MAX as u64 {
            assert(pr_pair_of(arr@[i as int]) is None);
            return no_pairs();
        }
        proof {
            assert(pr_pair_of(arr@[i as int]) == Some((name@, number as u32)));
        }
        let ghost nv = name@;
        out.push((name, number as u32));
        i = i + 1;
        proof {
            let pre = arr@.subrange(0, i - 1);
            let post = arr@.subrange(0, i as int);
            assert(post.drop_last() =~= pre);
            assert(post.last() == arr@[i - 1]);
            assert forall|m: int| 0 <= m < i implies pairs_view(out@)[m] == pr_pair_values(
                post,
            )[m] by {
                assert(pr_pair_values(post)[m] == pr_pair_of(post[m]).unwrap());
                assert(post[m] == arr@[m]);
                if m < i - 1 {
                    assert(pairs_view(out@)[m] == pr_pair_values(pre)[m]);
                    assert(pr_pair_values(pre)[m] == pr_pair_of(pre[m]).unwrap());
                    assert(pre[m] == arr@[m]);
                } else {
                    assert(out@[m] == out@.last());
                    assert(pairs_view(out@)[m] == (nv, number as u32));
                }
            }
            assert(pairs_view(out@) =~= pr_pair_values(post));
        }
    }
    proof {
        assert(arr@.subrange(0, count as int) =~= arr@);
    }
    out
}

} // verus!
