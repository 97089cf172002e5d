//! Names of types, as they are stored.

use crate::error::TypeNameError;
use vstd::prelude::*;
use vstd::string::StringExecFns;
use vstd::utf8::{decode_utf8, encode_utf8, valid_utf8};

verus! {

/// Whether a type belongs to the engine or to its user.
#[derive(Debug, Clone, Copy, PartialEq, Eq, Structural)]
pub enum TypeClassification {
    Internal,
    UserDefined,
}

impl TypeClassification {
    /// The byte that stands for it.
    pub open spec fn code(self) -> u8 {
        match self {
            TypeClassification::Internal => 1,
            TypeClassification::UserDefined => 2,
        }
    }

    fn to_byte(&self) -> (b: u8)
        ensures
            b == self.code(),
    {
        match self {
            TypeClassification::Internal => 1,
            TypeClassification::UserDefined => 2,
        }
    }

    fn from_byte(value: u8) -> (r: Result<Self, TypeNameError>)
        ensures
            match r {
                Ok(c) => c.code() == value,
                Err(e) => value != 1 && value != 2 && e == TypeNameError::UnknownClassification(
                    value,
                ),
            },
    {
        match value {
            1 => Ok(TypeClassification::Internal),
            2 => Ok(TypeClassification::UserDefined),
            v => Err(TypeNameError::UnknownClassification(v)),
        }
    }
}

/// The name of a type.
#[derive(Debug, Clone, PartialEq, Eq)]
pub struct TypeName {
    pub classification: TypeClassification,
    pub name: String,
}

/// The bytes as text, or `None` where they are not valid UTF-8.
///
/// This is `std::str::from_utf8`: it accepts exactly the valid encodings, and the text that
/// it gives is the one that they encode.
#[verifier::external_body]
pub(crate) fn text(bytes: &[u8]) -> (s: Option<&str>)
    ensures
        s is Some <==> valid_utf8(bytes@),
        s matches Some(t) ==> t@ == decode_utf8(bytes@),
{
    match std::str::from_utf8(bytes) {
        Ok(t) => Some(t),
        Err(_) => None,
    }
}

/// The first `n` bytes are valid UTF-8, and no more of the first ones are.
pub open spec fn valid_up_to(bytes: Seq<u8>, n: int) -> bool {
    &&& 0 <= n <= bytes.len()
    &&& valid_utf8(bytes.take(n))
    &&& forall|m: int| n < m <= bytes.len() ==> !valid_utf8(#[trigger] bytes.take(m))
}

/// How many of the first bytes are valid UTF-8.
fn count_valid(bytes: &[u8]) -> (n: usize)
    ensures
        valid_up_to(bytes@, n as int),
{
    let mut n: usize = bytes.len();
    while n > 0
        invariant
            n <= bytes@.len(),
            forall|m: int| n < m <= bytes@.len() ==> !valid_utf8(#[trigger] bytes@.take(m)),
        decreases n,
    {
        let first: &[u8] = vstd::slice::slice_subrange(bytes, 0, n);
        assert(first@ =~= bytes@.take(n as int));
        if text(first).is_some() {
            return n;
        }
        n = n - 1;
    }
    assert(bytes@.take(0) =~= Seq::<u8>::empty());
    n
}

/// Three texts behind each other.
pub(crate) fn join(a: &str, b: &str, c: &str) -> (s: String)
    ensures
        s@ == a@ + b@ + c@,
{
    a.to_owned().concat(b).concat(c)
}

/// The decimal digits of a number, without leading zeros.
pub open spec fn digits(n: nat) -> Seq<char>
    decreases n,
{
    if n < 10 {
        seq![(48 + n) as char]
    } else {
        digits(n / 10).push((48 + n % 10) as char)
    }
}

/// One digit.
fn digit_text(d: usize) -> (s: &'static str)
    requires
        d < 10,
    ensures
        s@ == seq![(48 + d) as char],
{
    let s: &'static str = match d {
        0 => "0",
        1 => "1",
        2 => "2",
        3 => "3",
        4 => "4",
        5 => "5",
        6 => "6",
        7 => "7",
        8 => "8",
        _ => "9",
    };
    proof {
        reveal_strlit("0");
        reveal_strlit("1");
        reveal_strlit("2");
        reveal_strlit("3");
        reveal_strlit("4");
        reveal_strlit("5");
        reveal_strlit("6");
        reveal_strlit("7");
        reveal_strlit("8");
        reveal_strlit("9");
        assert(s@ =~= seq![(48 + d) as char]);
    }
    s
}

/// The number in digits.
pub(crate) fn decimal_text(n: usize) -> (s: String)
    ensures
        s@ == digits(n as nat),
    decreases n,
{
    if n < 10 {
        digit_text(n).to_owned()
    } else {
        let s: String = decimal_text(n / 10).concat(digit_text(n % 10));
        assert(s@ =~= digits(n as nat));
        s
    }
}

/// Names of which the same is stored are the same, so that a stored name is read back.
pub proof fn law_stored_name_is_read(a: TypeName, b: TypeName)
    requires
        a.stored() == b.stored(),
    ensures
        a.classification == b.classification,
        a.name@ == b.name@,
{
    assert(a.stored()[0] == a.classification.code());
    assert(b.stored()[0] == b.classification.code());
    assert(a.stored().skip(1) =~= encode_utf8(a.name@));
    assert(b.stored().skip(1) =~= encode_utf8(b.name@));
    vstd::utf8::encode_utf8_decode_utf8(a.name@);
    vstd::utf8::encode_utf8_decode_utf8(b.name@);
}

impl TypeName {
    /// What is stored of a name.
    pub open spec fn stored(&self) -> Seq<u8> {
        seq![self.classification.code()] + encode_utf8(self.name@)
    }

    /// The name of a type of the user's.
    pub fn new(name: &str) -> (t: Self)
        ensures
            t.classification is UserDefined,
            t.name@ == name@,
    {
        TypeName { classification: TypeClassification::UserDefined, name: name.to_owned() }
    }

    /// The name of a type of the engine's.
    pub fn internal(name: &str) -> (t: Self)
        ensures
            t.classification is Internal,
            t.name@ == name@,
    {
        TypeName { classification: TypeClassification::Internal, name: name.to_owned() }
    }

    /// The bytes that are stored of the name.
    pub fn to_bytes(&self) -> (b: Vec<u8>)
        ensures
            b@ == self.stored(),
    {
        let mut result: Vec<u8> = Vec::new();
        result.push(self.classification.to_byte());
        let rest: &[u8] = self.name.as_str().as_bytes();
        let ghost first = result@;
        result.extend_from_slice(rest);
        assert(result@ =~= first + rest@);
        result
    }

    /// The name that the bytes were stored of.
    pub fn from_bytes(bytes: &[u8]) -> (r: Result<Self, TypeNameError>)
        ensures
            match r {
                Ok(t) => bytes@ == t.stored(),
                Err(e) => if bytes@.len() == 0 {
                    e == TypeNameError::Empty
                } else if bytes@[0] != 1 && bytes@[0] != 2 {
                    e == TypeNameError::UnknownClassification(bytes@[0])
                } else {
                    &&& !valid_utf8(bytes@.skip(1))
                    &&& e matches TypeNameError::InvalidUtf8(n) && valid_up_to(
                        bytes@.skip(1),
                        n as int,
                    )
                },
            },
    {
        if bytes.len() == 0 {
            return Err(TypeNameError::Empty);
        }
        let classification = match TypeClassification::from_byte(bytes[0]) {
            Ok(c) => c,
            Err(e) => {
                return Err(e);
            },
        };
        let rest: &[u8] = vstd::slice::slice_subrange(bytes, 1, bytes.len());
        assert(rest@ =~= bytes@.skip(1));
        match text(rest) {
            Some(s) => {
                let t = TypeName { classification, name: s.to_owned() };
                proof {
                    vstd::utf8::decode_utf8_encode_utf8(rest@);
                }
                assert(bytes@ =~= t.stored());
                Ok(t)
            },
            None => Err(TypeNameError::InvalidUtf8(count_valid(rest))),
        }
    }

    /// The name alone.
    pub fn name(&self) -> (s: &str)
        ensures
            s@ == self.name@,
    {
        self.name.as_str()
    }
}

} // verus!
