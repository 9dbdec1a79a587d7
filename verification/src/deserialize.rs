//! The projection layer: type-directed conversion from a generic value tree
//! to caller-defined shapes, plus required/optional field extraction.
//!
//! Each participating type implements [`YamlDeserialize`]: a spec predicate
//! saying which trees convert, a spec relation tying a convertible tree to
//! the converted value, and the conversion itself, which succeeds exactly on
//! convertible trees and otherwise fails with an invalid-value error.

use crate::error::{ErrView, YamlError};
use crate::value::{
    clone_entries, items_view, lemma_array_view, lemma_object_view, obj_lookup, object_get,
    spec_value_desc, value_desc, ValueView, YamlValue,
};
use vstd::prelude::*;
use vstd::string::StringExecFns;

verus! {

/// The text of the invalid-value message that names the expected and the
/// found kind.
pub open spec fn mismatch_msg(expected: Seq<char>, v: ValueView) -> Seq<char> {
    "Expected "@ + expected + ", found "@ + spec_value_desc(v)
}

/// A type that a value tree can be projected onto.
pub trait YamlDeserialize: Sized {
    /// Which trees convert to `Self`. A verified implementation overrides
    /// this; the default admits every tree, so that ordinary implementations
    /// outside the verifier need not state one.
    open spec fn spec_convertible(v: ValueView) -> bool {
        true
    }

    /// How a convertible tree relates to the value it converts to. A
    /// verified implementation overrides this; the default relates any pair.
    open spec fn spec_from_yaml(v: ValueView, r: Self) -> bool {
        true
    }

    /// The exact error a tree that does not convert fails with. A verified
    /// implementation overrides this; the default is never reached because
    /// the default `spec_convertible` admits every tree.
    open spec fn spec_conversion_err(v: ValueView) -> ErrView {
        ErrView::Invalid(Seq::empty())
    }

    /// Converts a tree to `Self`: succeeds exactly on convertible trees, and
    /// fails on any other with the invalid-value error the implementation
    /// states.
    fn from_yaml(value: &YamlValue) -> (r: Result<Self, YamlError>)
        ensures
            match r {
                Ok(x) => Self::spec_convertible(value@) && Self::spec_from_yaml(value@, x),
                Err(e) => !Self::spec_convertible(value@) && e@ is Invalid && e@
                    == Self::spec_conversion_err(value@),
            },
    ;
}

/// Field-directed conversion: build `Self` from one named field of a mapping.
pub trait FromYamlField: Sized {
    fn from_yaml_field(value: &YamlValue, field_name: &str) -> Result<Self, YamlError>;
}

/// The invalid-value error whose message names the expected and the found
/// kind.
fn type_mismatch(expected: &str, value: &YamlValue) -> (e: YamlError)
    ensures
        e@ == ErrView::Invalid(mismatch_msg(expected@, value@)),
{
    let mut m: String = "Expected ".to_owned();
    m.append(expected);
    m.append(", found ");
    m.append(value_desc(value));
    YamlError::InvalidValue(m)
}

impl YamlDeserialize for String {
    /// A textual scalar.
    open spec fn spec_convertible(v: ValueView) -> bool {
        v is Str
    }

    open spec fn spec_from_yaml(v: ValueView, r: Self) -> bool {
        v == ValueView::Str(r@)
    }

    open spec fn spec_conversion_err(v: ValueView) -> ErrView {
        ErrView::Invalid(mismatch_msg("string"@, v))
    }

    fn from_yaml(value: &YamlValue) -> (r: Result<Self, YamlError>) {
        match value {
            YamlValue::String(s) => Ok(s.clone()),
            _ => Err(type_mismatch("string", value)),
        }
    }
}

impl YamlDeserialize for i64 {
    /// An integer scalar.
    open spec fn spec_convertible(v: ValueView) -> bool {
        v is Int
    }

    open spec fn spec_from_yaml(v: ValueView, r: Self) -> bool {
        v == ValueView::Int(r)
    }

    open spec fn spec_conversion_err(v: ValueView) -> ErrView {
        ErrView::Invalid(mismatch_msg("integer"@, v))
    }

    fn from_yaml(value: &YamlValue) -> (r: Result<Self, YamlError>) {
        match value {
            YamlValue::Integer(i) => Ok(*i),
            _ => Err(type_mismatch("integer", value)),
        }
    }
}

impl YamlDeserialize for i32 {
    /// An integer scalar, truncated to 32 bits.
    open spec fn spec_convertible(v: ValueView) -> bool {
        v is Int
    }

    open spec fn spec_from_yaml(v: ValueView, r: Self) -> bool {
        v matches ValueView::Int(i) && r == i as i32
    }

    open spec fn spec_conversion_err(v: ValueView) -> ErrView {
        ErrView::Invalid(mismatch_msg("integer"@, v))
    }

    fn from_yaml(value: &YamlValue) -> (r: Result<Self, YamlError>) {
        match value {
            YamlValue::Integer(i) => Ok(
                #[verifier::truncate]
                (*i as i32),
            ),
            _ => Err(type_mismatch("integer", value)),
        }
    }
}

impl YamlDeserialize for bool {
    /// A boolean scalar.
    open spec fn spec_convertible(v: ValueView) -> bool {
        v is Bool
    }

    open spec fn spec_from_yaml(v: ValueView, r: Self) -> bool {
        v == ValueView::Bool(r)
    }

    open spec fn spec_conversion_err(v: ValueView) -> ErrView {
        ErrView::Invalid(mismatch_msg("boolean"@, v))
    }

    fn from_yaml(value: &YamlValue) -> (r: Result<Self, YamlError>) {
        match value {
            YamlValue::Boolean(b) => Ok(*b),
            _ => Err(type_mismatch("boolean", value)),
        }
    }
}

/// The index of the first element of `a` that does not convert to `T`
/// (meaningful only when one exists).
pub open spec fn first_unconvertible<T: YamlDeserialize>(a: Seq<ValueView>) -> int
    decreases a.len(),
{
    if a.len() == 0 {
        0
    } else if !T::spec_convertible(a[0]) {
        0
    } else {
        1 + first_unconvertible::<T>(a.drop_first())
    }
}

proof fn lemma_first_unconvertible<T: YamlDeserialize>(a: Seq<ValueView>, i: int)
    requires
        0 <= i < a.len(),
        forall|j: int| 0 <= j < i ==> T::spec_convertible(#[trigger] a[j]),
        !T::spec_convertible(a[i]),
    ensures
        first_unconvertible::<T>(a) == i,
    decreases i,
{
    if i > 0 {
        assert forall|j: int| 0 <= j < i - 1 implies T::spec_convertible(
            #[trigger] a.drop_first()[j],
        ) by {
            assert(a.drop_first()[j] == a[j + 1]);
        }
        assert(a.drop_first()[i - 1] == a[i]);
        lemma_first_unconvertible::<T>(a.drop_first(), i - 1);
    }
}

impl<T: YamlDeserialize> YamlDeserialize for Vec<T> {
    /// A sequence whose every element converts to `T`.
    open spec fn spec_convertible(v: ValueView) -> bool {
        v matches ValueView::Arr(a) && forall|i: int|
            0 <= i < a.len() ==> T::spec_convertible(#[trigger] a[i])
    }

    open spec fn spec_from_yaml(v: ValueView, r: Self) -> bool {
        v matches ValueView::Arr(a) && r@.len() == a.len() && forall|i: int|
            0 <= i < a.len() ==> T::spec_from_yaml(#[trigger] a[i], r@[i])
    }

    /// A tree that is no sequence names the found kind; a sequence with an
    /// element that does not convert fails with the first such element's own
    /// conversion error.
    open spec fn spec_conversion_err(v: ValueView) -> ErrView {
        if !(v is Arr) {
            ErrView::Invalid(mismatch_msg("array"@, v))
        } else {
            T::spec_conversion_err(v->Arr_0[first_unconvertible::<T>(v->Arr_0)])
        }
    }

    fn from_yaml(value: &YamlValue) -> (r: Result<Self, YamlError>) {
        match value {
            YamlValue::Array(items) => {
                proof {
                    lemma_array_view(*items);
                }
                let ghost a = items_view(items@);
                let mut out: Vec<T> = Vec::new();
                let mut i: usize = 0;
                while i < items.len()
                    invariant
                        i <= items.len(),
                        a == items_view(items@),
                        value@ == ValueView::Arr(a),
                        out@.len() == i as int,
                        forall|j: int| 0 <= j < i as int ==> T::spec_convertible(#[trigger] a[j]),
                        forall|j: int|
                            0 <= j < i as int ==> T::spec_from_yaml(#[trigger] a[j], out@[j]),
                    decreases items@.len() - i as int,
                {
                    proof {
                        assert(a[i as int] == items@[i as int]@);
                    }
                    match T::from_yaml(&items[i]) {
                        Ok(x) => {
                            out.push(x);
                        },
                        Err(e) => {
                            proof {
                                assert(!T::spec_convertible(a[i as int]));
                                if Self::spec_convertible(value@) {
                                    let aa = value@->Arr_0;
                                    assert(aa == a);
                                    assert(aa[i as int] == a[i as int]);
                                    assert(T::spec_convertible(aa[i as int]));
                                }
                                lemma_first_unconvertible::<T>(a, i as int);
                                assert(value@->Arr_0 == a);
                            }
                            return Err(e);
                        },
                    }
                    i = i + 1;
                }
                Ok(out)
            },
            _ => Err(type_mismatch("array", value)),
        }
    }
}

impl<T: YamlDeserialize> YamlDeserialize for Option<T> {
    /// Null converts to an absent value; anything else must convert to `T`.
    open spec fn spec_convertible(v: ValueView) -> bool {
        v is Null || T::spec_convertible(v)
    }

    open spec fn spec_from_yaml(v: ValueView, r: Self) -> bool {
        if v is Null {
            r is None
        } else {
            r matches Some(x) && T::spec_from_yaml(v, x)
        }
    }

    /// A non-null tree that does not convert fails with the delegate's own
    /// conversion error; a null tree always converts.
    open spec fn spec_conversion_err(v: ValueView) -> ErrView {
        T::spec_conversion_err(v)
    }

    fn from_yaml(value: &YamlValue) -> (r: Result<Self, YamlError>) {
        match value {
            YamlValue::Null => Ok(None),
            other => match T::from_yaml(other) {
                Ok(x) => Ok(Some(x)),
                Err(e) => Err(e),
            },
        }
    }
}

impl YamlDeserialize for YamlValue {
    /// The raw passthrough of a mapping.
    open spec fn spec_convertible(v: ValueView) -> bool {
        v is Obj
    }

    open spec fn spec_from_yaml(v: ValueView, r: Self) -> bool {
        r@ == v
    }

    open spec fn spec_conversion_err(v: ValueView) -> ErrView {
        ErrView::Invalid(mismatch_msg("object"@, v))
    }

    fn from_yaml(value: &YamlValue) -> (r: Result<Self, YamlError>) {
        match value {
            YamlValue::Object(entries) => {
                let out = clone_entries(entries);
                proof {
                    lemma_object_view(*entries);
                    lemma_object_view(out);
                }
                Ok(YamlValue::Object(out))
            },
            _ => Err(type_mismatch("object", value)),
        }
    }
}

/// Extracts a required field from a mapping and converts it: the value must
/// be a mapping, the key must be present, and the field must convert, else
/// the call fails with an invalid-value error naming what went wrong.
pub fn extract_field<T: YamlDeserialize>(value: &YamlValue, field_name: &str) -> (r: Result<
    T,
    YamlError,
>)
    ensures
        match r {
            Ok(x) => ({
                &&& value@ matches ValueView::Obj(es)
                &&& obj_lookup(value@->Obj_0, field_name@) matches Some(f)
                &&& T::spec_convertible(obj_lookup(value@->Obj_0, field_name@)->0)
                &&& T::spec_from_yaml(obj_lookup(value@->Obj_0, field_name@)->0, x)
            }),
            Err(e) => e@ is Invalid && (match value@ {
                ValueView::Obj(es) => (match obj_lookup(es, field_name@) {
                    Some(f) => !T::spec_convertible(f) && e@ == T::spec_conversion_err(f),
                    None => e@ == ErrView::Invalid("Missing field: "@ + field_name@),
                }),
                _ => e@ == ErrView::Invalid(
                    "Expected object to extract field "@ + field_name@ + ", found "@
                        + spec_value_desc(value@),
                ),
            }),
        },
{
    match value {
        YamlValue::Object(entries) => {
            proof {
                lemma_object_view(*entries);
            }
            match object_get(entries, field_name) {
                Some(fv) => T::from_yaml(fv),
                None => {
                    let mut m: String = "Missing field: ".to_owned();
                    m.append(field_name);
                    Err(YamlError::InvalidValue(m))
                },
            }
        },
        _ => {
            let mut m: String = "Expected object to extract field ".to_owned();
            m.append(field_name);
            m.append(", found ");
            m.append(value_desc(value));
            Err(YamlError::InvalidValue(m))
        },
    }
}

/// Extracts an optional field from a mapping: a missing key is an absent
/// result, not an error, but a present field that does not convert still
/// fails, as does a value that is not a mapping.
pub fn extract_optional_field<T: YamlDeserialize>(value: &YamlValue, field_name: &str) -> (r:
    Result<Option<T>, YamlError>)
    ensures
        match r {
            Ok(x) => ({
                &&& value@ matches ValueView::Obj(es)
                &&& (match obj_lookup(value@->Obj_0, field_name@) {
                    None => x is None,
                    Some(f) => x matches Some(y) && T::spec_convertible(f) && T::spec_from_yaml(
                        f,
                        y,
                    ),
                })
            }),
            Err(e) => e@ is Invalid && (match value@ {
                ValueView::Obj(es) => (match obj_lookup(es, field_name@) {
                    Some(f) => !T::spec_convertible(f) && e@ == T::spec_conversion_err(f),
                    None => false,
                }),
                _ => e@ == ErrView::Invalid(
                    "Expected object to extract field "@ + field_name@ + ", found "@
                        + spec_value_desc(value@),
                ),
            }),
        },
{
    match value {
        YamlValue::Object(entries) => {
            proof {
                lemma_object_view(*entries);
            }
            match object_get(entries, field_name) {
                Some(fv) => match T::from_yaml(fv) {
                    Ok(x) => Ok(Some(x)),
                    Err(e) => Err(e),
                },
                None => Ok(None),
            }
        },
        _ => {
            let mut m: String = "Expected object to extract field ".to_owned();
            m.append(field_name);
            m.append(", found ");
            m.append(value_desc(value));
            Err(YamlError::InvalidValue(m))
        },
    }
}

} // verus!
