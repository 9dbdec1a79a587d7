//! The tagged-union result type of a parse, and its mathematical view.
//!
//! A parsed document is a tree of [`YamlValue`]s. Mappings are kept as vectors
//! of key/value pairs with unique keys, preserving insertion order for
//! deterministic iteration; a later insertion of an existing key overwrites
//! the earlier value in place (last write wins). A floating-point scalar keeps
//! its source text: classification is exact while the tree itself stays free
//! of machine floating point.

use vstd::prelude::*;

verus! {

broadcast use vstd::std_specs::vec::axiom_vec_index_decreases;

/// A node of a parsed value tree.
#[derive(Debug, PartialEq)]
pub enum YamlValue {
    /// A textual scalar, either bare or quoted.
    String(String),
    /// A 64-bit signed integer scalar.
    Integer(i64),
    /// A floating-point scalar, kept as its (trimmed) source text.
    Float(String),
    /// A boolean scalar.
    Boolean(bool),
    /// An ordered sequence of values.
    Array(Vec<YamlValue>),
    /// A mapping from string keys to values; keys are unique and keep
    /// insertion order.
    Object(Vec<(String, YamlValue)>),
    /// The null scalar.
    Null,
}

/// The mathematical shadow of [`YamlValue`]: the same tree over `Seq<char>`
/// instead of `String`. Contracts and the parsing specification speak of this
/// type.
#[verifier::ext_equal]
pub enum ValueView {
    Str(Seq<char>),
    Int(i64),
    Float(Seq<char>),
    Bool(bool),
    Arr(Seq<ValueView>),
    Obj(Seq<(Seq<char>, ValueView)>),
    Null,
}

impl YamlValue {
    /// The tree this value stands for, with every `String` replaced by its
    /// character sequence.
    pub open spec fn view(self) -> ValueView
        decreases self,
    {
        match self {
            YamlValue::String(s) => ValueView::Str(s@),
            YamlValue::Integer(i) => ValueView::Int(i),
            YamlValue::Float(t) => ValueView::Float(t@),
            YamlValue::Boolean(b) => ValueView::Bool(b),
            YamlValue::Array(items) => ValueView::Arr(
                Seq::new(
                    items@.len(),
                    |i: int|
                        if 0 <= i < items@.len() {
                            items@[i].view()
                        } else {
                            ValueView::Null
                        },
                ),
            ),
            YamlValue::Object(entries) => ValueView::Obj(
                Seq::new(
                    entries@.len(),
                    |i: int|
                        if 0 <= i < entries@.len() {
                            (entries@[i].0@, entries@[i].1.view())
                        } else {
                            (Seq::empty(), ValueView::Null)
                        },
                ),
            ),
            YamlValue::Null => ValueView::Null,
        }
    }
}

/// The view of a vector of mapping entries.
pub open spec fn entries_view(es: Seq<(String, YamlValue)>) -> Seq<(Seq<char>, ValueView)> {
    Seq::new(
        es.len(),
        |i: int|
            if 0 <= i < es.len() {
                (es[i].0@, es[i].1.view())
            } else {
                (Seq::empty(), ValueView::Null)
            },
    )
}

/// The view of a vector of sequence elements.
pub open spec fn items_view(items: Seq<YamlValue>) -> Seq<ValueView> {
    Seq::new(
        items.len(),
        |i: int|
            if 0 <= i < items.len() {
                items[i].view()
            } else {
                ValueView::Null
            },
    )
}

pub proof fn lemma_object_view(entries: Vec<(String, YamlValue)>)
    ensures
        YamlValue::Object(entries).view() == ValueView::Obj(entries_view(entries@)),
{
    let a = YamlValue::Object(entries).view()->Obj_0;
    let b = entries_view(entries@);
    assert(a =~= b);
}

pub proof fn lemma_array_view(items: Vec<YamlValue>)
    ensures
        YamlValue::Array(items).view() == ValueView::Arr(items_view(items@)),
{
    let a = YamlValue::Array(items).view()->Arr_0;
    let b = items_view(items@);
    assert(a =~= b);
}

/// The value bound to `key` among `entries`: the first entry with that key,
/// if any. When the keys are unique the first match is the only one.
pub open spec fn obj_lookup(entries: Seq<(Seq<char>, ValueView)>, key: Seq<char>) -> Option<
    ValueView,
>
    decreases entries.len(),
{
    if entries.len() == 0 {
        None
    } else if entries[0].0 == key {
        Some(entries[0].1)
    } else {
        obj_lookup(entries.drop_first(), key)
    }
}

/// Map insertion with last-write-wins semantics: an existing key keeps its
/// position and takes the new value; a new key is appended.
pub open spec fn obj_insert(
    entries: Seq<(Seq<char>, ValueView)>,
    key: Seq<char>,
    value: ValueView,
) -> Seq<(Seq<char>, ValueView)>
    decreases entries.len(),
{
    if entries.len() == 0 {
        seq![(key, value)]
    } else if entries[0].0 == key {
        seq![(key, value)] + entries.drop_first()
    } else {
        seq![entries[0]] + obj_insert(entries.drop_first(), key, value)
    }
}

/// No two entries bind the same key.
pub open spec fn obj_keys_unique(entries: Seq<(Seq<char>, ValueView)>) -> bool {
    forall|i: int, j: int|
        0 <= i < j < entries.len() ==> entries[i].0 != entries[j].0
}

/// A well-formed tree: every mapping anywhere in it binds each key once.
pub open spec fn wf_value(v: ValueView) -> bool
    decreases v,
{
    match v {
        ValueView::Arr(items) => forall|i: int|
            0 <= i < items.len() ==> wf_value(#[trigger] items[i]),
        ValueView::Obj(es) => obj_keys_unique(es) && forall|i: int|
            0 <= i < es.len() ==> wf_value(#[trigger] es[i].1),
        _ => true,
    }
}

/// Insertion keeps every bound value either already present or the one
/// inserted, so it preserves the well-formedness of the values.
pub proof fn lemma_insert_values_wf(
    es: Seq<(Seq<char>, ValueView)>,
    key: Seq<char>,
    value: ValueView,
)
    requires
        forall|i: int| 0 <= i < es.len() ==> wf_value(#[trigger] es[i].1),
        wf_value(value),
    ensures
        forall|i: int|
            0 <= i < obj_insert(es, key, value).len() ==> wf_value(
                #[trigger] obj_insert(es, key, value)[i].1,
            ),
    decreases es.len(),
{
    let r = obj_insert(es, key, value);
    if es.len() == 0 {
        assert(r[0].1 == value);
    } else if es[0].0 == key {
        assert forall|i: int| 0 <= i < r.len() implies wf_value(#[trigger] r[i].1) by {
            if i == 0 {
                assert(r[0].1 == value);
            } else {
                assert(r[i].1 == es[i].1);
            }
        }
    } else {
        assert forall|i: int| 0 <= i < es.drop_first().len() implies wf_value(
            #[trigger] es.drop_first()[i].1,
        ) by {
            assert(es.drop_first()[i] == es[i + 1]);
        }
        lemma_insert_values_wf(es.drop_first(), key, value);
        let tail = obj_insert(es.drop_first(), key, value);
        assert forall|i: int| 0 <= i < r.len() implies wf_value(#[trigger] r[i].1) by {
            assert(r == seq![es[0]] + tail);
            if i == 0 {
                assert(r[0].1 == es[0].1);
            } else {
                assert(r[i].1 == tail[i - 1].1);
            }
        }
    }
}

/// A structural copy of a value tree.
#[verifier::loop_isolation(false)]
fn deep_copy(v: &YamlValue) -> (r: YamlValue)
    ensures
        r@ == v@,
    decreases v,
{
    match v {
        YamlValue::String(s) => YamlValue::String(s.clone()),
        YamlValue::Integer(i) => YamlValue::Integer(*i),
        YamlValue::Float(t) => YamlValue::Float(t.clone()),
        YamlValue::Boolean(b) => YamlValue::Boolean(*b),
        YamlValue::Null => YamlValue::Null,
        YamlValue::Array(items) => {
            let mut out: Vec<YamlValue> = Vec::new();
            let mut i: usize = 0;
            while i < items.len()
                invariant
                    i <= items.len(),
                    out@.len() == i as int,
                    forall|j: int| 0 <= j < i as int ==> out@[j].view() == items@[j].view(),
                decreases items@.len() - i as int,
            {
                let c = deep_copy(&items[i]);
                out.push(c);
                i = i + 1;
            }
            proof {
                lemma_array_view(*items);
                lemma_array_view(out);
                assert(items_view(out@) =~= items_view(items@));
            }
            YamlValue::Array(out)
        },
        YamlValue::Object(entries) => {
            let out = clone_entries(entries);
            proof {
                lemma_object_view(*entries);
                lemma_object_view(out);
            }
            YamlValue::Object(out)
        },
    }
}

/// A structural copy of a vector of mapping entries.
#[verifier::loop_isolation(false)]
pub fn clone_entries(entries: &Vec<(String, YamlValue)>) -> (out: Vec<(String, YamlValue)>)
    ensures
        entries_view(out@) == entries_view(entries@),
    decreases entries,
{
    let mut out: Vec<(String, YamlValue)> = Vec::new();
    let mut i: usize = 0;
    while i < entries.len()
        invariant
            i <= entries.len(),
            out@.len() == i as int,
            forall|j: int|
                0 <= j < i as int ==> out@[j].0@ == entries@[j].0@ && out@[j].1.view()
                    == entries@[j].1.view(),
        decreases entries@.len() - i as int,
    {
        let k = entries[i].0.clone();
        let c = deep_copy(&entries[i].1);
        out.push((k, c));
        i = i + 1;
    }
    proof {
        assert(entries_view(out@) =~= entries_view(entries@));
    }
    out
}

/// A short name for a value's kind, used in error messages.
pub fn value_desc(v: &YamlValue) -> (r: &'static str)
    ensures
        r@ == spec_value_desc(v@),
{
    match v {
        YamlValue::String(_) => "String",
        YamlValue::Integer(_) => "Integer",
        YamlValue::Float(_) => "Float",
        YamlValue::Boolean(_) => "Boolean",
        YamlValue::Array(_) => "Array",
        YamlValue::Object(_) => "Object",
        YamlValue::Null => "Null",
    }
}

/// A short name for a value's kind.
pub open spec fn spec_value_desc(v: ValueView) -> Seq<char> {
    match v {
        ValueView::Str(_) => "String"@,
        ValueView::Int(_) => "Integer"@,
        ValueView::Float(_) => "Float"@,
        ValueView::Bool(_) => "Boolean"@,
        ValueView::Arr(_) => "Array"@,
        ValueView::Obj(_) => "Object"@,
        ValueView::Null => "Null"@,
    }
}

impl Clone for YamlValue {
    /// A clone is structurally equal to the original.
    fn clone(&self) -> (r: Self)
        ensures
            r@ == self@,
    {
        deep_copy(self)
    }
}

/// The entry bound to `key`, if any.
pub fn object_get<'a>(entries: &'a Vec<(String, YamlValue)>, key: &str) -> (r: Option<
    &'a YamlValue,
>)
    ensures
        match r {
            Some(v) => obj_lookup(entries_view(entries@), key@) == Some(v@),
            None => obj_lookup(entries_view(entries@), key@) is None,
        },
{
    let owned: String = key.to_owned();
    let ghost es = entries_view(entries@);
    proof {
        assert(es.skip(0) =~= es);
    }
    let mut i: usize = 0;
    while i < entries.len()
        invariant
            i <= entries.len(),
            owned@ == key@,
            es == entries_view(entries@),
            obj_lookup(es, key@) == obj_lookup(es.skip(i as int), key@),
        decreases entries@.len() - i as int,
    {
        if entries[i].0 == owned {
            proof {
                assert(es.skip(i as int)[0] == es[i as int]);
            }
            return Some(&entries[i].1);
        }
        proof {
            assert(es.skip(i as int)[0] == es[i as int]);
            assert(es.skip(i as int).drop_first() =~= es.skip(i as int + 1));
        }
        i = i + 1;
    }
    proof {
        assert(es.skip(i as int).len() == 0);
    }
    None
}

proof fn lemma_obj_insert_at(es: Seq<(Seq<char>, ValueView)>, key: Seq<char>, value: ValueView, i: int)
    requires
        0 <= i < es.len(),
        es[i].0 == key,
        forall|j: int| 0 <= j < i ==> es[j].0 != key,
    ensures
        obj_insert(es, key, value) =~= es.update(i, (key, value)),
    decreases i,
{
    if i == 0 {
    } else {
        lemma_obj_insert_at(es.drop_first(), key, value, i - 1);
    }
}

proof fn lemma_obj_insert_missing(es: Seq<(Seq<char>, ValueView)>, key: Seq<char>, value: ValueView)
    requires
        forall|j: int| 0 <= j < es.len() ==> es[j].0 != key,
    ensures
        obj_insert(es, key, value) =~= es.push((key, value)),
    decreases es.len(),
{
    if es.len() > 0 {
        lemma_obj_insert_missing(es.drop_first(), key, value);
    }
}

/// Bind `key` to `value` among `entries`: an existing key keeps its position
/// and takes the new value (last write wins), a new key is appended.
pub fn object_insert(entries: &mut Vec<(String, YamlValue)>, key: String, value: YamlValue)
    ensures
        entries_view(final(entries)@) == obj_insert(entries_view(old(entries)@), key@, value@),
{
    let ghost es = entries_view(old(entries)@);
    let mut i: usize = 0;
    while i < entries.len()
        invariant
            i <= entries.len(),
            *entries == *old(entries),
            es == entries_view(entries@),
            forall|j: int| 0 <= j < i as int ==> es[j].0 != key@,
        decreases entries@.len() - i as int,
    {
        if entries[i].0 == key {
            proof {
                lemma_obj_insert_at(es, key@, value@, i as int);
            }
            entries[i] = (key, value);
            proof {
                assert(entries_view(entries@) =~= es.update(i as int, (key@, value@)));
            }
            return ;
        }
        i = i + 1;
    }
    proof {
        lemma_obj_insert_missing(es, key@, value@);
    }
    entries.push((key, value));
    proof {
        assert(entries_view(entries@) =~= es.push((key@, value@)));
    }
}

/// After an insertion the inserted key is bound to the new value: the last
/// write wins.
pub proof fn lemma_insert_lookup_same(
    es: Seq<(Seq<char>, ValueView)>,
    key: Seq<char>,
    value: ValueView,
)
    ensures
        obj_lookup(obj_insert(es, key, value), key) == Some(value),
    decreases es.len(),
{
    if es.len() > 0 && es[0].0 != key {
        lemma_insert_lookup_same(es.drop_first(), key, value);
        assert((seq![es[0]] + obj_insert(es.drop_first(), key, value)).drop_first() =~= obj_insert(
            es.drop_first(),
            key,
            value,
        ));
    }
}

/// An insertion leaves every other key's binding unchanged.
pub proof fn lemma_insert_lookup_other(
    es: Seq<(Seq<char>, ValueView)>,
    key: Seq<char>,
    value: ValueView,
    other: Seq<char>,
)
    requires
        other != key,
    ensures
        obj_lookup(obj_insert(es, key, value), other) == obj_lookup(es, other),
    decreases es.len(),
{
    if es.len() == 0 {
        let r = seq![(key, value)];
        assert(obj_insert(es, key, value) == r);
        assert(r.len() == 1 && r[0] == (key, value));
        assert(r.drop_first().len() == 0);
        assert(obj_lookup(r.drop_first(), other) is None);
        assert(obj_lookup(r, other) is None);
        assert(obj_lookup(es, other) is None);
    } else if es[0].0 == key {
        let r = seq![(key, value)] + es.drop_first();
        assert(obj_insert(es, key, value) == r);
        assert(r[0] == (key, value));
        assert(r.len() > 0);
        assert(r.drop_first() =~= es.drop_first());
        assert(obj_lookup(r, other) == obj_lookup(r.drop_first(), other));
        assert(obj_lookup(es, other) == obj_lookup(es.drop_first(), other));
    } else {
        lemma_insert_lookup_other(es.drop_first(), key, value, other);
        let tail = obj_insert(es.drop_first(), key, value);
        let r = seq![es[0]] + tail;
        assert(obj_insert(es, key, value) == r);
        assert(r[0] == es[0]);
        assert(r.len() > 0);
        assert(r.drop_first() =~= tail);
        if es[0].0 == other {
            assert(obj_lookup(r, other) == Some(es[0].1));
            assert(obj_lookup(es, other) == Some(es[0].1));
        } else {
            assert(obj_lookup(r, other) == obj_lookup(tail, other));
            assert(obj_lookup(es, other) == obj_lookup(es.drop_first(), other));
        }
    }
}

/// Insertion preserves the uniqueness of keys.
pub proof fn lemma_insert_keys_unique(
    es: Seq<(Seq<char>, ValueView)>,
    key: Seq<char>,
    value: ValueView,
)
    requires
        obj_keys_unique(es),
    ensures
        obj_keys_unique(obj_insert(es, key, value)),
    decreases es.len(),
{
    if es.len() == 0 {
    } else if es[0].0 == key {
        assert forall|i: int, j: int|
            0 <= i < j < obj_insert(es, key, value).len() implies obj_insert(es, key, value)[i].0
            != obj_insert(es, key, value)[j].0 by {
            assert(obj_insert(es, key, value) =~= seq![(key, value)] + es.drop_first());
        }
    } else {
        assert forall|a: int, b: int|
            0 <= a < b < es.drop_first().len() implies es.drop_first()[a].0
            != es.drop_first()[b].0 by {
            assert(es.drop_first()[a] == es[a + 1]);
            assert(es.drop_first()[b] == es[b + 1]);
        }
        lemma_insert_keys_unique(es.drop_first(), key, value);
        lemma_insert_preserves_keys(es.drop_first(), key, value);
        assert forall|i: int, j: int|
            0 <= i < j < obj_insert(es, key, value).len() implies obj_insert(es, key, value)[i].0
            != obj_insert(es, key, value)[j].0 by {
            let tail = obj_insert(es.drop_first(), key, value);
            assert(obj_insert(es, key, value) == seq![es[0]] + tail);
            if i == 0 {
                assert(obj_insert(es, key, value)[j].0 == tail[j - 1].0);
            }
        }
    }
}

/// Every key present after an insertion is the inserted key or one that was
/// already present.
pub proof fn lemma_insert_preserves_keys(
    es: Seq<(Seq<char>, ValueView)>,
    key: Seq<char>,
    value: ValueView,
)
    ensures
        forall|i: int|
            0 <= i < obj_insert(es, key, value).len() ==> (#[trigger] obj_insert(
                es,
                key,
                value,
            )[i].0 == key || exists|j: int|
                0 <= j < es.len() && es[j].0 == obj_insert(es, key, value)[i].0),
    decreases es.len(),
{
    if es.len() == 0 {
    } else if es[0].0 == key {
    } else {
        lemma_insert_preserves_keys(es.drop_first(), key, value);
        let r = obj_insert(es, key, value);
        let tail = obj_insert(es.drop_first(), key, value);
        assert forall|i: int|
            0 <= i < r.len() implies (#[trigger] r[i].0 == key || exists|j: int|
                0 <= j < es.len() && es[j].0 == r[i].0) by {
            assert(r == seq![es[0]] + tail);
            if i == 0 {
                assert(es[0].0 == r[0].0);
            } else {
                assert(r[i] == tail[i - 1]);
                if tail[i - 1].0 != key {
                    let j = choose|j: int|
                        0 <= j < es.drop_first().len() && es.drop_first()[j].0 == tail[i - 1].0;
                    assert(es[j + 1].0 == r[i].0);
                }
            }
        }
    }
}

} // verus!
