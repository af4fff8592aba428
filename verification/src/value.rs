//! The JSON tree.

use vstd::prelude::*;
use vstd::string::*;
use crate::error::Error;
use crate::grammar::value_at;
use crate::model::Json;
use crate::number::Number;
use crate::object::{compare_keys, Object};
use crate::parser::Parser;
use crate::text::Order;

verus! {

/// A JSON element.
/// Can be a null, bool, number, string, array or object.
#[derive(Debug, Eq, Hash)]
pub enum Value {
    /// A null value.
    Null,
    /// A boolean value.
    /// `true` or `false`.
    Bool(bool),
    /// A number value.
    Number(Number),
    /// A string value.
    String(String),
    /// An array value.
    /// Contains a vector of `Value`s.
    Array(Vec<Value>),
    /// An object value.
    /// Contains its members, sorted by their keys.
    Object(Object),
}

impl View for Value {
    type V = Json;

    open spec fn view(&self) -> Json
        decreases self,
    {
        match self {
            Value::Null => Json::Null,
            Value::Bool(b) => Json::Bool(*b),
            Value::Number(n) => Json::Number(n@),
            Value::String(s) => Json::String(s@),
            Value::Array(v) => Json::Array(
                Seq::new(
                    v.len() as nat,
                    |i: int|
                        if 0 <= i < v.len() {
                            v[i].view()
                        } else {
                            Json::Null
                        },
                ),
            ),
            Value::Object(o) => Json::Object(o.view()),
        }
    }
}

impl Value {
    /// Checks if the value is null.
    pub fn is_null(&self) -> (r: bool)
        ensures
            r == (self is Null),
    {
        matches!(self, Value::Null)
    }

    /// Checks if the value is a boolean.
    pub fn is_bool(&self) -> (r: bool)
        ensures
            r == (self is Bool),
    {
        matches!(self, Value::Bool(_))
    }

    /// Checks if the value is a number.
    pub fn is_number(&self) -> (r: bool)
        ensures
            r == (self is Number),
    {
        matches!(self, Value::Number(_))
    }

    /// Checks if the value is a string.
    pub fn is_string(&self) -> (r: bool)
        ensures
            r == (self is String),
    {
        matches!(self, Value::String(_))
    }

    /// Checks if the value is an array.
    pub fn is_array(&self) -> (r: bool)
        ensures
            r == (self is Array),
    {
        matches!(self, Value::Array(_))
    }

    /// Checks if the value is an object.
    pub fn is_object(&self) -> (r: bool)
        ensures
            r == (self is Object),
    {
        matches!(self, Value::Object(_))
    }

    /// Returns the boolean if the value is one.
    /// Otherwise, returns `None`.
    pub fn as_bool(&self) -> (r: Option<&bool>)
        ensures
            r == (match self {
                Value::Bool(v) => Some(v),
                _ => None,
            }),
    {
        match self {
            Value::Bool(v) => Some(v),
            _ => None,
        }
    }

    /// Returns the number if the value is one.
    /// Otherwise, returns `None`.
    pub fn as_number(&self) -> (r: Option<&Number>)
        ensures
            r == (match self {
                Value::Number(v) => Some(v),
                _ => None,
            }),
    {
        match self {
            Value::Number(v) => Some(v),
            _ => None,
        }
    }

    /// Returns the string if the value is one.
    /// Otherwise, returns `None`.
    pub fn as_string(&self) -> (r: Option<&String>)
        ensures
            r == (match self {
                Value::String(v) => Some(v),
                _ => None,
            }),
    {
        match self {
            Value::String(v) => Some(v),
            _ => None,
        }
    }

    /// Returns the items if the value is an array.
    /// Otherwise, returns `None`.
    pub fn as_array(&self) -> (r: Option<&Vec<Value>>)
        ensures
            r == (match self {
                Value::Array(v) => Some(v),
                _ => None,
            }),
    {
        match self {
            Value::Array(v) => Some(v),
            _ => None,
        }
    }

    /// Returns the members if the value is an object.
    /// Otherwise, returns `None`.
    pub fn as_object(&self) -> (r: Option<&Object>)
        ensures
            r == (match self {
                Value::Object(v) => Some(v),
                _ => None,
            }),
    {
        match self {
            Value::Object(v) => Some(v),
            _ => None,
        }
    }

    /// Returns the boolean, to be changed in place, if the value is one.
    /// Otherwise, returns `None`. The value stays a boolean.
    pub fn as_mut_bool(&mut self) -> (r: Option<&mut bool>)
        ensures
            match r {
                Some(v) => *old(self) == Value::Bool(*v) && *final(self) == Value::Bool(*final(v)),
                None => !(*old(self) is Bool) && *final(self) == *old(self),
            },
    {
        match self {
            Value::Bool(v) => Some(v),
            _ => None,
        }
    }

    /// Returns the number, to be changed in place, if the value is one.
    /// Otherwise, returns `None`. The value stays a number.
    pub fn as_mut_number(&mut self) -> (r: Option<&mut Number>)
        ensures
            match r {
                Some(v) => *old(self) == Value::Number(*v) && *final(self) == Value::Number(
                    *final(v),
                ),
                None => !(*old(self) is Number) && *final(self) == *old(self),
            },
    {
        match self {
            Value::Number(v) => Some(v),
            _ => None,
        }
    }

    /// Returns the string, to be changed in place, if the value is one.
    /// Otherwise, returns `None`. The value stays a string.
    pub fn as_mut_string(&mut self) -> (r: Option<&mut String>)
        ensures
            match r {
                Some(v) => *old(self) == Value::String(*v) && *final(self) == Value::String(
                    *final(v),
                ),
                None => !(*old(self) is String) && *final(self) == *old(self),
            },
    {
        match self {
            Value::String(v) => Some(v),
            _ => None,
        }
    }

    /// Returns the items, to be changed in place, if the value is an array.
    /// Otherwise, returns `None`. The value stays an array.
    pub fn as_mut_array(&mut self) -> (r: Option<&mut Vec<Value>>)
        ensures
            match r {
                Some(v) => *old(self) == Value::Array(*v) && *final(self) == Value::Array(*final(v)),
                None => !(*old(self) is Array) && *final(self) == *old(self),
            },
    {
        match self {
            Value::Array(v) => Some(v),
            _ => None,
        }
    }

    /// Returns the members, to be changed in place, if the value is an
    /// object. Otherwise, returns `None`. The value stays an object.
    pub fn as_mut_object(&mut self) -> (r: Option<&mut Object>)
        ensures
            match r {
                Some(v) => *old(self) == Value::Object(*v) && *final(self) == Value::Object(
                    *final(v),
                ),
                None => !(*old(self) is Object) && *final(self) == *old(self),
            },
    {
        match self {
            Value::Object(v) => Some(v),
            _ => None,
        }
    }

    /// Reads the value with which `s` starts. What follows the value in `s`
    /// is not looked at.
    pub fn from_str(s: &str) -> (r: Result<Value, Error>)
        ensures
            match value_at(s.spec_bytes(), 0) {
                Ok((j, _)) => r matches Ok(v) && v@ == j,
                Err(e) => r == Err::<Value, Error>(e),
            },
    {
        let mut parser = Parser::new(s);
        parser.parse()
    }
}

impl PartialEq for Value {
    /// Two values are equal where they are the same tree: the same variant
    /// with equal content, arrays item by item, objects member by member.
    fn eq(&self, other: &Value) -> (r: bool)
        decreases self,
    {
        match (self, other) {
            (Value::Null, Value::Null) => true,
            (Value::Bool(a), Value::Bool(b)) => *a == *b,
            (Value::Number(a), Value::Number(b)) => *a == *b,
            (Value::String(a), Value::String(b)) => matches!(
                compare_keys(a.as_str(), b.as_str()),
                Order::Equal
            ),
            (Value::Array(a), Value::Array(b)) => {
                if a.len() != b.len() {
                    proof {
                        assert(self@->Array_0.len() != other@->Array_0.len());
                    }
                    return false;
                }
                let mut i: usize = 0;
                while i < a.len()
                    invariant
                        i <= a.len(),
                        a.len() == b.len(),
                        *self == Value::Array(*a),
                        *other == Value::Array(*b),
                        forall|k: int| 0 <= k < i ==> (#[trigger] a[k])@ == b[k]@,
                    decreases a.len() - i,
                {
                    if !(a[i] == b[i]) {
                        proof {
                            assert(self@->Array_0[i as int] == a[i as int]@);
                            assert(other@->Array_0[i as int] == b[i as int]@);
                        }
                        return false;
                    }
                    i += 1;
                }
                proof {
                    assert(self@->Array_0 =~= other@->Array_0);
                }
                true
            },
            (Value::Object(a), Value::Object(b)) => *a == *b,
            _ => false,
        }
    }
}

impl vstd::std_specs::cmp::PartialEqSpecImpl for Value {
    open spec fn obeys_eq_spec() -> bool {
        true
    }

    open spec fn eq_spec(&self, other: &Value) -> bool {
        self@ == other@
    }
}

impl std::str::FromStr for Value {
    type Err = Error;

    /// Reads the value with which `s` starts, as [`Value::from_str`] does.
    fn from_str(s: &str) -> (r: Result<Value, Error>)
        ensures
            match value_at(s.spec_bytes(), 0) {
                Ok((j, _)) => r matches Ok(v) && v@ == j,
                Err(e) => r == Err::<Value, Error>(e),
            },
    {
        Value::from_str(s)
    }
}

/// Reads the value with which `text` starts: the parse of a whole document.
pub fn parse(text: &str) -> (r: Result<Value, Error>)
    ensures
        match value_at(text.spec_bytes(), 0) {
            Ok((j, _)) => r matches Ok(v) && v@ == j,
            Err(e) => r == Err::<Value, Error>(e),
        },
{
    Value::from_str(text)
}

} // verus!
