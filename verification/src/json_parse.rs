//! JSON benchmark: a document is parsed into an owned tree of values, kept
//! alive in the benchmark state, and its nodes are counted.
use vstd::prelude::*;

verus! {

/// A JSON value. Numbers keep their text; the tree shape is what the benchmark counts.
pub enum JsonValue {
    Null,
    Bool(bool),
    Number(String),
    String(String),
    Array(Vec<JsonValue>),
    Object(Vec<(String, JsonValue)>),
}

/// Number of nodes in `v`: one for a scalar, and one more than its children for a container.
pub open spec fn node_total(v: JsonValue) -> nat
    decreases v,
{
    match v {
        JsonValue::Array(items) => 1 + items_total(items@),
        JsonValue::Object(members) => 1 + members_total(members@),
        _ => 1,
    }
}

/// Number of nodes in the values `s`.
pub open spec fn items_total(s: Seq<JsonValue>) -> nat
    decreases s,
{
    if s.len() == 0 {
        0
    } else {
        items_total(s.drop_last()) + node_total(s.last())
    }
}

/// Number of nodes in the member values of `s`.
pub open spec fn members_total(s: Seq<(String, JsonValue)>) -> nat
    decreases s,
{
    if s.len() == 0 {
        0
    } else {
        members_total(s.drop_last()) + node_total(s.last().1)
    }
}


proof fn lemma_items_prefix(s: Seq<JsonValue>, i: int)
    requires
        0 <= i <= s.len(),
    ensures
        items_total(s.take(i)) <= items_total(s),
        i == s.len() ==> items_total(s.take(i)) == items_total(s),
        i < s.len() ==> items_total(s.take(i + 1)) == items_total(s.take(i)) + node_total(s[i]),
    decreases s.len() - i,
{
    if i < s.len() {
        assert(s.take(i + 1).drop_last() =~= s.take(i));
        lemma_items_prefix(s, i + 1);
    } else {
        assert(s.take(i) =~= s);
    }
}

proof fn lemma_members_prefix(s: Seq<(String, JsonValue)>, i: int)
    requires
        0 <= i <= s.len(),
    ensures
        members_total(s.take(i)) <= members_total(s),
        i == s.len() ==> members_total(s.take(i)) == members_total(s),
        i < s.len() ==> members_total(s.take(i + 1)) == members_total(s.take(i)) + node_total(s[i].1),
    decreases s.len() - i,
{
    if i < s.len() {
        assert(s.take(i + 1).drop_last() =~= s.take(i));
        lemma_members_prefix(s, i + 1);
    } else {
        assert(s.take(i) =~= s);
    }
}

/// Recursively counts every node in `value`: each scalar counts as one node and each
/// container additionally counts itself.
pub fn count_nodes(value: &JsonValue) -> (r: u64)
    requires
        node_total(*value) <= u64::MAX,
    ensures
        r == node_total(*value),
    decreases value,
{
    match value {
        JsonValue::Array(items) => {
            let mut sum: u64 = 0;
            let mut i: usize = 0;
            while i < items.len()
                invariant
                    *value == JsonValue::Array(*items),
                    i <= items@.len(),
                    1 + items_total(items@) <= u64::MAX,
                    sum == items_total(items@.take(i as int)),
                decreases items@.len() - i,
            {
                proof {
                    lemma_items_prefix(items@, i as int);
                    lemma_items_prefix(items@, i + 1);
                }
                proof {
                    assert(decreases_to!(*value => (*value)->Array_0));
                    assert(decreases_to!(*items => items@));
                    assert(decreases_to!(items@ => items@[i as int]));
                }
                let c = count_nodes(&items[i]);
                sum = sum + c;
                i = i + 1;
            }
            proof {
                lemma_items_prefix(items@, i as int);
            }
            1 + sum
        },
        JsonValue::Object(members) => {
            let mut sum: u64 = 0;
            let mut i: usize = 0;
            while i < members.len()
                invariant
                    *value == JsonValue::Object(*members),
                    i <= members@.len(),
                    1 + members_total(members@) <= u64::MAX,
                    sum == members_total(members@.take(i as int)),
                decreases members@.len() - i,
            {
                proof {
                    lemma_members_prefix(members@, i as int);
                    lemma_members_prefix(members@, i + 1);
                }
                proof {
                    assert(decreases_to!(*value => (*value)->Object_0));
                    assert(decreases_to!(*members => members@));
                    assert(decreases_to!(members@ => members@[i as int]));
                    assert(decreases_to!(members@[i as int] => members@[i as int].1));
                }
                let c = count_nodes(&members[i].1);
                sum = sum + c;
                i = i + 1;
            }
            proof {
                lemma_members_prefix(members@, i as int);
            }
            1 + sum
        },
        _ => 1,
    }
}


#[verifier::external_type_specification]
#[verifier::external_body]
pub struct ExJsonDom(serde_json::Value);

/// The tree that `serde_json::from_slice` parses from `input` into a
/// `serde_json::Value`, as a `JsonValue` (members in the order the parsed map holds
/// them, numbers as `serde_json` prints them), or `None` when `input` is not a JSON
/// document.
pub uninterp spec fn parsed_document(input: Seq<u8>) -> Option<JsonValue>;

/// Calls `serde_json::from_slice::<serde_json::Value>` and turns the tree it returns
/// into a `JsonValue` node by node; `None` when parsing fails.
#[verifier::external_body]
fn parse_document(input: &[u8]) -> (r: Option<JsonValue>)
    ensures
        r == parsed_document(input@),
{
    serde_json::from_slice::<serde_json::Value>(input).ok().map(|v| dom_to_value(&v))
}

/// Turns a `serde_json::Value` into a `JsonValue`, variant for variant.
#[verifier::external_body]
fn dom_to_value(value: &serde_json::Value) -> JsonValue {
    match value {
        serde_json::Value::Null => JsonValue::Null,
        serde_json::Value::Bool(b) => JsonValue::Bool(*b),
        serde_json::Value::Number(n) => JsonValue::Number(n.to_string()),
        serde_json::Value::String(s) => JsonValue::String(s.clone()),
        serde_json::Value::Array(items) => JsonValue::Array(items.iter().map(dom_to_value).collect()),
        serde_json::Value::Object(m) => JsonValue::Object(m.iter().map(|(k, v)| (k.clone(), dom_to_value(v))).collect()),
    }
}

/// State of the benchmark.
pub struct Data {
    /// The JSON document to parse, filled in by the host.
    input: Vec<u8>,
    /// The most recently parsed document, kept so that its allocations stay live.
    value: JsonValue,
}

impl Data {
    pub closed spec fn input_bytes(&self) -> Seq<u8> {
        self.input@
    }

    pub closed spec fn document(&self) -> JsonValue {
        self.value
    }

    /// The input buffer, for the parser.
    pub fn input(&self) -> (r: &[u8])
        ensures
            r@ == self.input_bytes(),
    {
        self.input.as_slice()
    }

    /// The input buffer, for the host to fill with a document.
    pub fn input_mut(&mut self) -> (r: &mut [u8])
        ensures
            r@ == old(self).input_bytes(),
            final(self).input_bytes() == final(r)@,
            final(self).document() == old(self).document(),
    {
        self.input.as_mut_slice()
    }
}

/// Reserves a zeroed input buffer of `size` bytes; the document is `null`.
pub fn setup(size: usize) -> (r: Box<Data>)
    ensures
        r.input_bytes() == Seq::new(size as nat, |i: int| 0u8),
        r.document() == JsonValue::Null,
{
    let r = Box::new(Data { input: vec![0u8; size], value: JsonValue::Null });
    proof {
        assert(r.input@ =~= Seq::new(size as nat, |i: int| 0u8));
    }
    r
}

/// Parses the input as a JSON document and keeps the tree as the current document.
/// Returns whether the input was a valid document; when it was not, the previous
/// document stays.
pub fn run(data: &mut Data) -> (ok: bool)
    ensures
        final(data).input_bytes() == old(data).input_bytes(),
        ok == (parsed_document(old(data).input_bytes()) is Some),
        ok ==> final(data).document() == parsed_document(old(data).input_bytes())->0,
        !ok ==> final(data).document() == old(data).document(),
{
    match parse_document(data.input.as_slice()) {
        Some(parsed) => {
            data.value = parsed;
            true
        },
        None => false,
    }
}

/// Returns the total number of nodes in the most recently parsed document.
pub fn node_count(data: &Data) -> (r: u64)
    requires
        node_total(data.document()) <= u64::MAX,
    ensures
        r == node_total(data.document()),
{
    count_nodes(&data.value)
}


/// Counts the nodes of `value` like `count_nodes`, or `None` when the count does not
/// fit in a `u64`.
pub fn count_nodes_checked(value: &JsonValue) -> (r: Option<u64>)
    ensures
        r == (if node_total(*value) <= u64::MAX { Some(node_total(*value) as u64) } else { None }),
    decreases value,
{
    match value {
        JsonValue::Array(items) => {
            let mut sum: u64 = 0;
            let mut i: usize = 0;
            while i < items.len()
                invariant
                    *value == JsonValue::Array(*items),
                    i <= items@.len(),
                    sum == items_total(items@.take(i as int)),
                decreases items@.len() - i,
            {
                proof {
                    lemma_items_prefix(items@, i as int);
                    lemma_items_prefix(items@, i + 1);
                    assert(decreases_to!(*value => (*value)->Array_0));
                    assert(decreases_to!(*items => items@));
                    assert(decreases_to!(items@ => items@[i as int]));
                }
                match count_nodes_checked(&items[i]) {
                    Some(c) => {
                        if c > u64::MAX - sum {
                            return None;
                        }
                        sum = sum + c;
                    },
                    None => {
                        return None;
                    },
                }
                i = i + 1;
            }
            proof {
                lemma_items_prefix(items@, i as int);
            }
            if sum == u64::MAX {
                return None;
            }
            Some(1 + sum)
        },
        JsonValue::Object(members) => {
            let mut sum: u64 = 0;
            let mut i: usize = 0;
            while i < members.len()
                invariant
                    *value == JsonValue::Object(*members),
                    i <= members@.len(),
                    sum == members_total(members@.take(i as int)),
                decreases members@.len() - i,
            {
                proof {
                    lemma_members_prefix(members@, i as int);
                    lemma_members_prefix(members@, i + 1);
                    assert(decreases_to!(*value => (*value)->Object_0));
                    assert(decreases_to!(*members => members@));
                    assert(decreases_to!(members@ => members@[i as int]));
                    assert(decreases_to!(members@[i as int] => members@[i as int].1));
                }
                match count_nodes_checked(&members[i].1) {
                    Some(c) => {
                        if c > u64::MAX - sum {
                            return None;
                        }
                        sum = sum + c;
                    },
                    None => {
                        return None;
                    },
                }
                i = i + 1;
            }
            proof {
                lemma_members_prefix(members@, i as int);
            }
            if sum == u64::MAX {
                return None;
            }
            Some(1 + sum)
        },
        _ => Some(1),
    }
}

/// The number of nodes in the current document, or `None` when it does not fit in a
/// `u64`.
pub fn node_count_checked(data: &Data) -> (r: Option<u64>)
    ensures
        r == (if node_total(data.document()) <= u64::MAX { Some(node_total(data.document()) as u64) } else { None }),
{
    count_nodes_checked(&data.value)
}

/// Every value counts at least itself: scalars count one node, and a container one
/// more than the nodes of its children.
pub proof fn lemma_node_total_laws(v: JsonValue)
    ensures
        node_total(v) >= 1,
        v is Array ==> node_total(v) == 1 + items_total(v->Array_0@),
        v is Object ==> node_total(v) == 1 + members_total(v->Object_0@),
        !(v is Array || v is Object) ==> node_total(v) == 1,
{
}

} // verus!
