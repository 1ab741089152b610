//! JSON values as the Raven configuration holds them, and the deep merge of
//! an override into a configuration.

use vstd::prelude::*;

verus! {

/// A JSON value. Numbers are kept as their text; an object is a list of
/// entries in which a later entry overrides an earlier one with the same key.
pub enum JsonValue {
    Null,
    Bool(bool),
    Number(String),
    Str(String),
    Array(Vec<JsonValue>),
    Object(Vec<(String, JsonValue)>),
}

/// A JSON value as mathematics: an object is a map from keys to values.
pub enum Json {
    Null,
    Bool(bool),
    Number(Seq<char>),
    Str(Seq<char>),
    Array(Seq<Json>),
    Object(Map<Seq<char>, Json>),
}

/// The model of a JSON value.
pub open spec fn json_view(v: JsonValue) -> Json
    decreases v,
{
    match v {
        JsonValue::Null => Json::Null,
        JsonValue::Bool(b) => Json::Bool(b),
        JsonValue::Number(n) => Json::Number(n@),
        JsonValue::Str(s) => Json::Str(s@),
        JsonValue::Array(a) => Json::Array(array_view(a@)),
        JsonValue::Object(e) => Json::Object(entries_view(e@)),
    }
}

/// The models of the items of an array.
pub open spec fn array_view(s: Seq<JsonValue>) -> Seq<Json>
    decreases s,
{
    if s.len() == 0 {
        Seq::empty()
    } else {
        array_view(s.drop_last()).push(json_view(s.last()))
    }
}

/// The map that a list of object entries stands for: each key maps to the
/// value of its last entry.
pub open spec fn entries_view(s: Seq<(String, JsonValue)>) -> Map<Seq<char>, Json>
    decreases s,
{
    if s.len() == 0 {
        Map::empty()
    } else {
        entries_view(s.drop_last()).insert(s.last().0@, json_view(s.last().1))
    }
}

impl View for JsonValue {
    type V = Json;

    open spec fn view(&self) -> Json {
        json_view(*self)
    }
}

/// Every object in the value, at every depth, has distinct keys (as JSON
/// objects parsed from text do).
pub open spec fn json_wf(v: JsonValue) -> bool
    decreases v,
{
    match v {
        JsonValue::Array(a) => array_wf(a@),
        JsonValue::Object(e) => entries_wf(e@),
        _ => true,
    }
}

/// Every item of the array is well formed.
pub open spec fn array_wf(s: Seq<JsonValue>) -> bool
    decreases s,
{
    s.len() == 0 || (array_wf(s.drop_last()) && json_wf(s.last()))
}

/// The entries have distinct keys and well-formed values.
pub open spec fn entries_wf(s: Seq<(String, JsonValue)>) -> bool
    decreases s,
{
    s.len() == 0 || (entries_wf(s.drop_last()) && json_wf(s.last().1) && !entries_view(
        s.drop_last(),
    ).dom().contains(s.last().0@))
}

/// The value that an object's entry for `k` is merged into: the base's value
/// for `k` when that is an object, an empty object otherwise.
pub open spec fn child_of(b: Map<Seq<char>, Json>, k: Seq<char>) -> Json {
    if b.dom().contains(k) && b[k] is Object {
        b[k]
    } else {
        Json::Object(Map::empty())
    }
}

/// Deep merge of `over` into `base`: when both are objects, objects merge
/// recursively, a null deletes the key, and every other value replaces the
/// base's value entirely; otherwise the base stays as it is.
pub open spec fn merge_json(base: Json, over: Json) -> Json
    decreases over, 2int,
{
    match over {
        Json::Object(_) => match base {
            Json::Object(b) => Json::Object(merge_objects(b, over)),
            _ => base,
        },
        _ => base,
    }
}

/// The merge of the entries of the object `over` into the object `b`.
pub open spec fn merge_objects(b: Map<Seq<char>, Json>, over: Json) -> Map<Seq<char>, Json>
    decreases over, 1int,
{
    match over {
        Json::Object(o) => Map::new(
            |k: Seq<char>|
                (b.dom().contains(k) && !o.dom().contains(k)) || (o.dom().contains(k) && !(o[k] is Null)),
            |k: Seq<char>| merged_value(b, over, k),
        ),
        _ => b,
    }
}

/// The merged value for key `k`: the override's value merged into the base's
/// when it is an object, the override's value when it is anything else, and
/// the base's value when the override has none.
pub open spec fn merged_value(b: Map<Seq<char>, Json>, over: Json, k: Seq<char>) -> Json
    decreases over, 0int,
{
    match over {
        Json::Object(o) => {
            if o.dom().contains(k) {
                if o[k] is Object {
                    merge_json(child_of(b, k), o[k])
                } else {
                    o[k]
                }
            } else {
                b[k]
            }
        },
        _ => b[k],
    }
}

proof fn lemma_array_view_push(s: Seq<JsonValue>, x: JsonValue)
    ensures
        array_view(s.push(x)) == array_view(s).push(json_view(x)),
{
    assert(s.push(x).drop_last() =~= s);
}

proof fn lemma_entries_view_push(s: Seq<(String, JsonValue)>, e: (String, JsonValue))
    ensures
        entries_view(s.push(e)) == entries_view(s).insert(e.0@, json_view(e.1)),
{
    assert(s.push(e).drop_last() =~= s);
}

/// A list of entries joined to another stands for the first map overridden
/// by the second.
proof fn lemma_entries_view_append(a: Seq<(String, JsonValue)>, b: Seq<(String, JsonValue)>)
    ensures
        entries_view(a + b) == entries_view(a).union_prefer_right(entries_view(b)),
    decreases b.len(),
{
    if b.len() == 0 {
        assert(a + b =~= a);
        assert(entries_view(a).union_prefer_right(Map::empty()) =~= entries_view(a));
    } else {
        lemma_entries_view_append(a, b.drop_last());
        assert((a + b).drop_last() =~= a + b.drop_last());
        assert(entries_view(a + b) =~= entries_view(a).union_prefer_right(entries_view(b)));
    }
}

/// Without an entry for `k`, the map has no value for `k`.
pub(crate) proof fn lemma_entries_view_absent(s: Seq<(String, JsonValue)>, k: Seq<char>)
    requires
        forall|j: int| 0 <= j < s.len() ==> (#[trigger] s[j]).0@ != k,
    ensures
        !entries_view(s).dom().contains(k),
    decreases s.len(),
{
    if s.len() > 0 {
        assert forall|j: int| 0 <= j < s.drop_last().len() implies (#[trigger] s.drop_last()[j]).0@ != k by {
            assert(s.drop_last()[j] == s[j]);
        }
        lemma_entries_view_absent(s.drop_last(), k);
    }
}

/// The value for `k` is that of the last entry for `k`.
pub(crate) proof fn lemma_entries_view_last(s: Seq<(String, JsonValue)>, p: int)
    requires
        0 <= p < s.len(),
        forall|j: int| p < j < s.len() ==> (#[trigger] s[j]).0@ != s[p].0@,
    ensures
        entries_view(s).dom().contains(s[p].0@),
        entries_view(s)[s[p].0@] == json_view(s[p].1),
    decreases s.len(),
{
    if p < s.len() - 1 {
        assert forall|j: int| p < j < s.drop_last().len() implies (#[trigger] s.drop_last()[j]).0@
            != s.drop_last()[p].0@ by {
            assert(s.drop_last()[j] == s[j]);
        }
        lemma_entries_view_last(s.drop_last(), p);
        assert(s.drop_last()[p] == s[p]);
    }
}

/// Removing an entry changes the map at most at that entry's key.
proof fn lemma_entries_view_remove(s: Seq<(String, JsonValue)>, p: int)
    requires
        0 <= p < s.len(),
    ensures
        entries_view(s.remove(p)).remove(s[p].0@) == entries_view(s).remove(s[p].0@),
{
    let a = s.take(p);
    let b = s.skip(p + 1);
    assert(s.remove(p) =~= a + b);
    assert(s =~= a.push(s[p]) + b);
    lemma_entries_view_append(a, b);
    lemma_entries_view_append(a.push(s[p]), b);
    lemma_entries_view_push(a, s[p]);
    assert(entries_view(s.remove(p)).remove(s[p].0@) =~= entries_view(s).remove(s[p].0@));
}

proof fn lemma_entries_wf_prefix(s: Seq<(String, JsonValue)>, i: int)
    requires
        entries_wf(s),
        0 <= i <= s.len(),
    ensures
        entries_wf(s.take(i)),
    decreases s.len(),
{
    if i == s.len() {
        assert(s.take(i) =~= s);
    } else {
        lemma_entries_wf_prefix(s.drop_last(), i);
        assert(s.drop_last().take(i) =~= s.take(i));
    }
}

/// A copy of a JSON value.
#[verifier::loop_isolation(false)]
pub fn copy_json(v: &JsonValue) -> (r: JsonValue)
    ensures
        r@ == v@,
    decreases v,
{
    match v {
        JsonValue::Null => JsonValue::Null,
        JsonValue::Bool(b) => JsonValue::Bool(*b),
        JsonValue::Number(n) => JsonValue::Number(n.clone()),
        JsonValue::Str(s) => JsonValue::Str(s.clone()),
        JsonValue::Array(a) => {
            let mut out: Vec<JsonValue> = Vec::new();
            let mut i: usize = 0;
            while i < a.len()
                invariant
                    0 <= i <= a@.len(),
                    array_view(out@) == array_view(a@.take(i as int)),
                decreases a@.len() - i,
            {
                proof {
                    assert(decreases_to!(*v => v->Array_0));
                    assert(decreases_to!(*a => a@));
                    assert(decreases_to!(a@ => a@[i as int]));
                }
                let c = copy_json(&a[i]);
                proof {
                    lemma_array_view_push(out@, c);
                    lemma_array_view_push(a@.take(i as int), a@[i as int]);
                    assert(a@.take(i + 1) =~= a@.take(i as int).push(a@[i as int]));
                }
                out.push(c);
                i = i + 1;
            }
            assert(a@.take(a@.len() as int) =~= a@);
            JsonValue::Array(out)
        },
        JsonValue::Object(e) => {
            let mut out: Vec<(String, JsonValue)> = Vec::new();
            let mut i: usize = 0;
            while i < e.len()
                invariant
                    0 <= i <= e@.len(),
                    entries_view(out@) == entries_view(e@.take(i as int)),
                decreases e@.len() - i,
            {
                proof {
                    assert(decreases_to!(*v => v->Object_0));
                    assert(decreases_to!(*e => e@));
                    assert(decreases_to!(e@ => e@[i as int]));
                    assert(decreases_to!(e@[i as int] => e@[i as int].1));
                }
                let c = copy_json(&e[i].1);
                let k = e[i].0.clone();
                proof {
                    lemma_entries_view_push(out@, (k, c));
                    lemma_entries_view_push(e@.take(i as int), e@[i as int]);
                    assert(e@.take(i + 1) =~= e@.take(i as int).push(e@[i as int]));
                }
                out.push((k, c));
                i = i + 1;
            }
            assert(e@.take(e@.len() as int) =~= e@);
            JsonValue::Object(out)
        },
    }
}

/// Position of the last entry whose key is `k`.
fn find_last_key(entries: &Vec<(String, JsonValue)>, k: &String) -> (r: Option<usize>)
    ensures
        r matches Some(p) ==> p < entries@.len() && entries@[p as int].0@ == k@ && forall|j: int|
            p < j < entries@.len() ==> (#[trigger] entries@[j]).0@ != k@,
        r is None ==> forall|j: int| 0 <= j < entries@.len() ==> (#[trigger] entries@[j]).0@ != k@,
{
    let mut i: usize = entries.len();
    while i > 0
        invariant
            0 <= i <= entries@.len(),
            forall|j: int| i <= j < entries@.len() ==> (#[trigger] entries@[j]).0@ != k@,
        decreases i,
    {
        i = i - 1;
        if entries[i].0 == *k {
            return Some(i);
        }
    }
    None
}

/// Remove every entry whose key is `k`.
fn remove_key(entries: &mut Vec<(String, JsonValue)>, k: &String)
    ensures
        entries_view(final(entries)@) == entries_view(old(entries)@).remove(k@),
{
    let ghost target = entries_view(entries@).remove(k@);
    let mut done = false;
    while !done
        invariant
            entries_view(entries@).remove(k@) == target,
            done ==> entries_view(entries@) == target,
        decreases entries@.len(), if done { 0int } else { 1int },
    {
        match find_last_key(entries, k) {
            Some(p) => {
                proof {
                    lemma_entries_view_remove(entries@, p as int);
                }
                entries.remove(p);
            },
            None => {
                proof {
                    lemma_entries_view_absent(entries@, k@);
                    assert(entries_view(entries@).remove(k@) =~= entries_view(entries@));
                }
                done = true;
            },
        }
    }
}

/// Maps that agree away from `k` agree everywhere once `k` is set.
proof fn lemma_map_insert_after_remove(a: Map<Seq<char>, Json>, b: Map<Seq<char>, Json>, k: Seq<char>, x: Json)
    requires
        a.remove(k) == b.remove(k),
    ensures
        a.insert(k, x) == b.insert(k, x),
{
    let ai = a.insert(k, x);
    let bi = b.insert(k, x);
    assert forall|j: Seq<char>| #[trigger] ai.dom().contains(j) == bi.dom().contains(j) by {
        if j != k {
            assert(a.remove(k).dom().contains(j) == a.dom().contains(j));
            assert(b.remove(k).dom().contains(j) == b.dom().contains(j));
        }
    }
    assert(ai.dom() =~= bi.dom());
    assert forall|j: Seq<char>| #[trigger] ai.dom().contains(j) implies ai[j] == bi[j] by {
        if j != k {
            assert(a.remove(k).dom().contains(j) == a.dom().contains(j));
            assert(a.remove(k)[j] == a[j]);
            assert(b.remove(k)[j] == b[j]);
        }
    }
    assert(a.insert(k, x) =~= b.insert(k, x));
}

/// Merging an override map that has no entry for `k` yet, extended by the
/// entry `(k, v)`: the result for the smaller map, with `k` removed for a
/// null, merged with the base's child for an object, and set to `v` otherwise.
proof fn lemma_merge_objects_step(b: Map<Seq<char>, Json>, p: Map<Seq<char>, Json>, k: Seq<char>, v: Json)
    requires
        !p.dom().contains(k),
    ensures
        child_of(merge_objects(b, Json::Object(p)), k) == child_of(b, k),
        v is Null ==> merge_objects(b, Json::Object(p.insert(k, v))) == merge_objects(b, Json::Object(p)).remove(k),
        v is Object ==> merge_objects(b, Json::Object(p.insert(k, v))) == merge_objects(
            b,
            Json::Object(p),
        ).insert(k, merge_json(child_of(b, k), v)),
        !(v is Null) && !(v is Object) ==> merge_objects(b, Json::Object(p.insert(k, v))) == merge_objects(
            b,
            Json::Object(p),
        ).insert(k, v),
{
    let r = merge_objects(b, Json::Object(p));
    let r2 = merge_objects(b, Json::Object(p.insert(k, v)));
    assert(r.dom().contains(k) == b.dom().contains(k));
    if b.dom().contains(k) {
        assert(r[k] == merged_value(b, Json::Object(p), k));
    }
    if v is Null {
        assert(r2 =~= r.remove(k));
    } else if v is Object {
        assert(r2 =~= r.insert(k, merge_json(child_of(b, k), v)));
    } else {
        assert(r2 =~= r.insert(k, v));
    }
}

/// Merge the object `v` into the object that `entries` holds for `k`
/// (an empty object when it holds none, or something else), and set `k` to
/// the result.
fn merge_object_entry(entries: &mut Vec<(String, JsonValue)>, k: &String, v: &JsonValue)
    requires
        json_wf(*v),
        v is Object,
    ensures
        entries_view(final(entries)@) == entries_view(old(entries)@).insert(
            k@,
            merge_json(child_of(entries_view(old(entries)@), k@), v@),
        ),
    decreases v, 1int,
{
    let ghost before = entries@;
    let found = find_last_key(entries, k);
    let mut child = match found {
        Some(p) => {
            proof {
                lemma_entries_view_last(entries@, p as int);
                lemma_entries_view_remove(entries@, p as int);
            }
            let (_, c) = entries.remove(p);
            match c {
                JsonValue::Object(ce) => JsonValue::Object(ce),
                _ => JsonValue::Object(Vec::new()),
            }
        },
        None => {
            proof {
                lemma_entries_view_absent(entries@, k@);
            }
            JsonValue::Object(Vec::new())
        },
    };
    assert(child@ == child_of(entries_view(before), k@));
    deep_merge(&mut child, v);
    let ghost removed = entries@;
    assert(entries_view(removed).remove(k@) == entries_view(before).remove(k@)) by {
        if found is None {
            assert(removed == before);
        } else {
            assert(removed == before.remove(found->0 as int));
        }
    }
    let key = k.clone();
    proof {
        lemma_entries_view_push(removed, (key, child));
        lemma_map_insert_after_remove(entries_view(removed), entries_view(before), k@, child@);
    }
    entries.push((key, child));
}

/// Deep-merge `over` into `base`: objects merge recursively, null deletes the
/// key, and everything else (arrays, strings, numbers, booleans) replaces
/// entirely; nothing changes unless both are objects.
#[verifier::loop_isolation(false)]
pub fn deep_merge(base: &mut JsonValue, over: &JsonValue)
    requires
        json_wf(*over),
    ensures
        final(base)@ == merge_json(old(base)@, over@),
    decreases over, 0int,
{
    let oentries = match over {
        JsonValue::Object(e) => e,
        _ => {
            return;
        },
    };
    let mut b = JsonValue::Null;
    std::mem::swap(&mut b, base);
    let mut bentries = match b {
        JsonValue::Object(e) => e,
        other => {
            *base = other;
            return;
        },
    };
    let ghost b0 = entries_view(bentries@);
    assert(merge_objects(b0, Json::Object(entries_view(oentries@.take(0)))) =~= b0);
    let mut i: usize = 0;
    while i < oentries.len()
        invariant
            0 <= i <= oentries@.len(),
            entries_view(bentries@) == merge_objects(b0, Json::Object(entries_view(oentries@.take(i as int)))),
        decreases oentries@.len() - i,
    {
        let ghost pre = oentries@.take(i as int);
        let ghost cur = oentries@.take(i + 1);
        proof {
            lemma_entries_wf_prefix(oentries@, i + 1);
            assert(cur.drop_last() =~= pre);
            assert(cur.last() == oentries@[i as int]);
            lemma_entries_view_push(pre, oentries@[i as int]);
            assert(cur =~= pre.push(oentries@[i as int]));
        }
        let k = &oentries[i].0;
        let v = &oentries[i].1;
        proof {
            lemma_merge_objects_step(b0, entries_view(pre), k@, v@);
        }
        match v {
            JsonValue::Null => {
                remove_key(&mut bentries, k);
            },
            JsonValue::Object(_) => {
                proof {
                    assert(decreases_to!(*over => over->Object_0));
                    assert(decreases_to!(over->Object_0 => over->Object_0@));
                    assert(decreases_to!(over->Object_0@ => over->Object_0@[i as int]));
                    assert(decreases_to!(over->Object_0@[i as int] => over->Object_0@[i as int].1));
                }
                merge_object_entry(&mut bentries, k, v);
            },
            _ => {
                let c = copy_json(v);
                let key = k.clone();
                proof {
                    lemma_entries_view_push(bentries@, (key, c));
                }
                bentries.push((key, c));
            },
        }
        i = i + 1;
    }
    assert(oentries@.take(oentries@.len() as int) =~= oentries@);
    *base = JsonValue::Object(bentries);
}

/// Merging an empty object changes nothing, and neither does merging into or
/// from anything that is not an object.
pub proof fn lemma_merge_trivial(base: Json, over: Json)
    ensures
        over == Json::Object(Map::empty()) ==> merge_json(base, over) == base,
        !(over is Object) ==> merge_json(base, over) == base,
        !(base is Object) ==> merge_json(base, over) == base,
{
    if over == Json::Object(Map::<Seq<char>, Json>::empty()) {
        if let Json::Object(b) = base {
            assert(merge_objects(b, over) =~= b);
        }
    }
}

/// What a merge of two objects does to each key: a null in the override
/// deletes the key, an object in the override is merged into the base's
/// value for the key (or into an empty object when that is not an object),
/// any other value of the override replaces the base's value, and keys that
/// the override does not name keep the base's value.
pub proof fn lemma_merge_keys(b: Map<Seq<char>, Json>, o: Map<Seq<char>, Json>, k: Seq<char>)
    ensures
        ({
            let m = merge_json(Json::Object(b), Json::Object(o));
            &&& m is Object
            &&& o.dom().contains(k) && o[k] is Null ==> !m->Object_0.dom().contains(k)
            &&& o.dom().contains(k) && o[k] is Object ==> m->Object_0.dom().contains(k)
                && m->Object_0[k] == merge_json(child_of(b, k), o[k])
            &&& o.dom().contains(k) && !(o[k] is Null) && !(o[k] is Object) ==> m->Object_0.dom().contains(k)
                && m->Object_0[k] == o[k]
            &&& !o.dom().contains(k) ==> (m->Object_0.dom().contains(k) == b.dom().contains(k)) && (
            b.dom().contains(k) ==> m->Object_0[k] == b[k])
        }),
{
}

/// Applying the same override twice gives what applying it once gives.
pub proof fn lemma_merge_idempotent(base: Json, over: Json)
    ensures
        merge_json(merge_json(base, over), over) == merge_json(base, over),
    decreases over,
{
    if let Json::Object(o) = over {
        if let Json::Object(b) = base {
            let m = merge_objects(b, over);
            let mm = merge_objects(m, over);
            assert forall|k: Seq<char>| #[trigger] mm.dom().contains(k) implies mm[k] == m[k] by {
                if o.dom().contains(k) && o[k] is Object {
                    assert(child_of(m, k) == merge_json(child_of(b, k), o[k]));
                    lemma_merge_idempotent(child_of(b, k), o[k]);
                }
            }
            assert(mm =~= m);
        }
    }
}

/// The models of an array's items, item by item.
pub(crate) proof fn lemma_array_view_items(s: Seq<JsonValue>)
    ensures
        array_view(s).len() == s.len(),
        forall|i: int| 0 <= i < s.len() ==> #[trigger] array_view(s)[i] == json_view(s[i]),
    decreases s.len(),
{
    if s.len() > 0 {
        lemma_array_view_items(s.drop_last());
        assert forall|i: int| 0 <= i < s.len() implies #[trigger] array_view(s)[i] == json_view(s[i]) by {
            if i < s.len() - 1 {
                assert(s.drop_last()[i] == s[i]);
            }
        }
    }
}

/// Position of the last entry whose key is `k`.
pub(crate) fn find_last_key_str(entries: &Vec<(String, JsonValue)>, k: &str) -> (r: Option<usize>)
    ensures
        r matches Some(p) ==> p < entries@.len() && entries@[p as int].0@ == k@ && forall|j: int|
            p < j < entries@.len() ==> (#[trigger] entries@[j]).0@ != k@,
        r is None ==> forall|j: int| 0 <= j < entries@.len() ==> (#[trigger] entries@[j]).0@ != k@,
{
    let mut i: usize = entries.len();
    while i > 0
        invariant
            0 <= i <= entries@.len(),
            forall|j: int| i <= j < entries@.len() ==> (#[trigger] entries@[j]).0@ != k@,
        decreases i,
    {
        i = i - 1;
        if crate::text::str_equal(entries[i].0.as_str(), k) {
            return Some(i);
        }
    }
    None
}

/// The value that an object's entries hold for `k`, if any.
pub fn object_get<'a>(entries: &'a Vec<(String, JsonValue)>, k: &str) -> (r: Option<&'a JsonValue>)
    ensures
        r is Some == entries_view(entries@).dom().contains(k@),
        r matches Some(v) ==> v@ == entries_view(entries@)[k@],
{
    match find_last_key_str(entries, k) {
        Some(p) => {
            proof {
                lemma_entries_view_last(entries@, p as int);
            }
            Some(&entries[p].1)
        },
        None => {
            proof {
                lemma_entries_view_absent(entries@, k@);
            }
            None
        },
    }
}

} // verus!
