//! Optional values as keys and values: a byte that says whether there is one, and the value.
//!
//! Where the value's type has a fixed width, so has the optional value.

use crate::types::name::{join, TypeName};
use crate::types::{Key, Value};
use std::cmp::Ordering;
use vstd::prelude::*;

verus! {

/// The bytes behind the first one.
pub open spec fn behind(b: Seq<u8>) -> Seq<u8> {
    b.skip(1)
}

/// So many zero bytes.
pub open spec fn zero_bytes(n: nat) -> Seq<u8> {
    Seq::new(n, |i: int| 0u8)
}

impl<T: Value> Value for Option<T> {
    type SelfType<'a> = Option<T::SelfType<'a>>;

    type Model = Option<T::Model>;

    open spec fn model<'a>(v: Option<T::SelfType<'a>>) -> Option<T::Model> {
        match v {
            Some(x) => Some(T::model(x)),
            None => None,
        }
    }

    open spec fn encode(m: Option<T::Model>) -> Seq<u8> {
        match m {
            Some(x) => seq![1u8] + T::encode(x),
            None => seq![0u8] + (match T::width() {
                Some(w) => zero_bytes(w),
                None => Seq::empty(),
            }),
        }
    }

    open spec fn encodable(m: Option<T::Model>) -> bool {
        match m {
            Some(x) => T::encodable(x),
            None => true,
        }
    }

    open spec fn accepts(b: Seq<u8>) -> bool {
        b.len() > 0 && (b[0] == 0 || b[0] == 1 && T::accepts(behind(b)))
    }

    open spec fn decode(b: Seq<u8>) -> Option<T::Model> {
        if b[0] == 1 {
            Some(T::decode(behind(b)))
        } else {
            None
        }
    }

    open spec fn width() -> Option<nat> {
        match T::width() {
            Some(w) => Some(w + 1),
            None => None,
        }
    }

    open spec fn width_fits() -> bool {
        T::width_fits() && (T::width() matches Some(w) ==> w + 1 <= usize::MAX)
    }

    open spec fn origin() -> crate::types::name::TypeClassification {
        crate::types::name::TypeClassification::Internal
    }

    open spec fn label() -> Seq<char> {
        "Option<"@ + T::label() + ">"@
    }

    proof fn decode_of_encode(m: Option<T::Model>) {
        if let Some(x) = m {
            T::decode_of_encode(x);
            assert(behind(Self::encode(m)) =~= T::encode(x));
        }
    }

    fn fixed_width() -> (w: Option<usize>) {
        match T::fixed_width() {
            Some(w) => Some(w + 1),
            None => None,
        }
    }

    fn from_bytes<'a>(data: &'a [u8]) -> (v: Option<T::SelfType<'a>>) {
        if data[0] == 1 {
            let rest: &'a [u8] = vstd::slice::slice_subrange(data, 1, data.len());
            assert(rest@ =~= behind(data@));
            Some(T::from_bytes(rest))
        } else {
            None
        }
    }

    fn as_bytes<'a, 'b: 'a>(value: &'a Option<T::SelfType<'b>>) -> (b: Vec<u8>) {
        let mut result: Vec<u8> = Vec::new();
        match value {
            Some(inner) => {
                result.push(1);
                let rest: Vec<u8> = T::as_bytes(inner);
                result.extend_from_slice(rest.as_slice());
                assert(result@ =~= seq![1u8] + rest@);
            },
            None => {
                result.push(0);
                if let Some(width) = T::fixed_width() {
                    let mut i: usize = 0;
                    while i < width
                        invariant
                            i <= width,
                            result@ =~= seq![0u8] + zero_bytes(i as nat),
                        decreases width - i,
                    {
                        result.push(0);
                        i = i + 1;
                    }
                }
                assert(result@ =~= Self::encode(None));
            },
        }
        result
    }

    fn name_of_type() -> (t: TypeName) {
        let inner = T::name_of_type();
        TypeName::internal(join("Option<", inner.name(), ">").as_str())
    }
}

impl<T: Key> Key for Option<T> {
    open spec fn le(a: Seq<u8>, b: Seq<u8>) -> bool {
        a[0] == 0 || b[0] == 1 && T::le(behind(a), behind(b))
    }

    open spec fn model_le(m: Option<T::Model>, n: Option<T::Model>) -> bool {
        match (m, n) {
            (None, _) => true,
            (Some(_), None) => false,
            (Some(x), Some(y)) => T::model_le(x, y),
        }
    }

    proof fn le_total(a: Seq<u8>, b: Seq<u8>) {
        if a[0] == 1 && b[0] == 1 {
            T::le_total(behind(a), behind(b));
        }
    }

    proof fn le_transitive(a: Seq<u8>, b: Seq<u8>, c: Seq<u8>) {
        if a[0] == 1 {
            T::le_transitive(behind(a), behind(b), behind(c));
        }
    }

    proof fn le_of_encode(m: Option<T::Model>, n: Option<T::Model>) {
        if let Some(x) = m {
            assert(behind(Self::encode(m)) =~= T::encode(x));
            if let Some(y) = n {
                assert(behind(Self::encode(n)) =~= T::encode(y));
                T::le_of_encode(x, y);
            }
        }
    }

    fn compare(data1: &[u8], data2: &[u8]) -> (o: Ordering) {
        if data1[0] == 0 {
            if data2[0] == 0 {
                Ordering::Equal
            } else {
                Ordering::Less
            }
        } else if data2[0] == 0 {
            Ordering::Greater
        } else {
            let rest1: &[u8] = vstd::slice::slice_subrange(data1, 1, data1.len());
            let rest2: &[u8] = vstd::slice::slice_subrange(data2, 1, data2.len());
            assert(rest1@ =~= behind(data1@));
            assert(rest2@ =~= behind(data2@));
            T::compare(rest1, rest2)
        }
    }
}

} // verus!
