//! JSON values, as far as the engine reads them.

use vstd::prelude::*;

use crate::double::Double;
use crate::text::{opt_str, str_eq};

verus! {

/// A JSON value. Of an object's fields with the same name the last one counts.
#[derive(Debug)]
pub enum Json {
    Null,
    Bool(bool),
    /// A number as a double, and as an integer where it is one that fits.
    Number { value: Double, whole: Option<i64> },
    Text(String),
    List(Vec<Json>),
    Object(Vec<(String, Json)>),
}

/// The last field with the given name.
pub open spec fn last_field(fields: Seq<(String, Json)>, name: Seq<char>) -> Option<Json>
    decreases fields.len(),
{
    if fields.len() == 0 {
        None
    } else if fields.last().0@ == name {
        Some(fields.last().1)
    } else {
        last_field(fields.drop_last(), name)
    }
}

impl Json {
    /// The field of an object.
    pub open spec fn field(self, name: Seq<char>) -> Option<Json> {
        match self {
            Json::Object(fields) => last_field(fields@, name),
            _ => None,
        }
    }

    pub open spec fn text(self) -> Option<Seq<char>> {
        match self {
            Json::Text(s) => Some(s@),
            _ => None,
        }
    }

    pub open spec fn items(self) -> Option<Seq<Json>> {
        match self {
            Json::List(v) => Some(v@),
            _ => None,
        }
    }

    pub open spec fn double(self) -> Option<Double> {
        match self {
            Json::Number { value, .. } => Some(value),
            _ => None,
        }
    }

    pub open spec fn integer(self) -> Option<i64> {
        match self {
            Json::Number { whole, .. } => whole,
            _ => None,
        }
    }

    pub fn get(&self, name: &str) -> (r: Option<&Json>)
        ensures
            match r {
                Some(j) => self.field(name@) == Some(*j),
                None => self.field(name@) is None,
            },
    {
        match self {
            Json::Object(fields) => {
                let mut n: usize = fields.len();
                assert(fields@.take(n as int) =~= fields@);
                while n > 0
                    invariant
                        n <= fields@.len(),
                        self.field(name@) == last_field(fields@, name@),
                        last_field(fields@, name@) == last_field(fields@.take(n as int), name@),
                    decreases n,
                {
                    assert(fields@.take(n as int).drop_last() =~= fields@.take(n - 1));
                    if str_eq(fields[n - 1].0.as_str(), name) {
                        return Some(&fields[n - 1].1);
                    }
                    n -= 1;
                }
                None
            },
            _ => None,
        }
    }

    pub fn as_str(&self) -> (r: Option<&str>)
        ensures
            opt_str(r) == self.text(),
    {
        match self {
            Json::Text(s) => Some(s.as_str()),
            _ => None,
        }
    }

    pub fn as_array(&self) -> (r: Option<&Vec<Json>>)
        ensures
            match r {
                Some(v) => self.items() == Some(v@),
                None => self.items() is None,
            },
    {
        match self {
            Json::List(v) => Some(v),
            _ => None,
        }
    }

    pub fn as_double(&self) -> (r: Option<Double>)
        ensures
            r == self.double(),
    {
        match self {
            Json::Number { value, .. } => Some(*value),
            _ => None,
        }
    }

    pub fn as_integer(&self) -> (r: Option<i64>)
        ensures
            r == self.integer(),
    {
        match self {
            Json::Number { whole, .. } => *whole,
            _ => None,
        }
    }
}

/// The text of an optional value.
pub open spec fn text_in(j: Option<Json>) -> Option<Seq<char>> {
    match j {
        Some(v) => v.text(),
        None => None,
    }
}

/// The list of an optional value.
pub open spec fn items_in(j: Option<Json>) -> Option<Seq<Json>> {
    match j {
        Some(v) => v.items(),
        None => None,
    }
}

/// The number of an optional value.
pub open spec fn double_in(j: Option<Json>) -> Option<Double> {
    match j {
        Some(v) => v.double(),
        None => None,
    }
}

/// The integer of an optional value.
pub open spec fn integer_in(j: Option<Json>) -> Option<i64> {
    match j {
        Some(v) => v.integer(),
        None => None,
    }
}

/// The item of a list at the given position.
pub open spec fn item_at(items: Seq<Json>, i: int) -> Option<Json> {
    if 0 <= i < items.len() {
        Some(items[i])
    } else {
        None
    }
}

/// The text of a field.
pub fn field_str<'a>(j: &'a Json, name: &str) -> (r: Option<&'a str>)
    ensures
        opt_str(r) == text_in(j.field(name@)),
{
    match j.get(name) {
        Some(v) => v.as_str(),
        None => None,
    }
}

/// The list of a field.
pub fn field_list<'a>(j: &'a Json, name: &str) -> (r: Option<&'a Vec<Json>>)
    ensures
        match r {
            Some(v) => items_in(j.field(name@)) == Some(v@),
            None => items_in(j.field(name@)) is None,
        },
{
    match j.get(name) {
        Some(v) => v.as_array(),
        None => None,
    }
}

/// The number of a field.
pub fn field_double(j: &Json, name: &str) -> (r: Option<Double>)
    ensures
        r == double_in(j.field(name@)),
{
    match j.get(name) {
        Some(v) => v.as_double(),
        None => None,
    }
}

/// The text of an item.
pub fn item_str<'a>(items: &'a Vec<Json>, i: usize) -> (r: Option<&'a str>)
    ensures
        opt_str(r) == text_in(item_at(items@, i as int)),
{
    if i < items.len() {
        items[i].as_str()
    } else {
        None
    }
}

/// The number of an item.
pub fn item_double(items: &Vec<Json>, i: usize) -> (r: Option<Double>)
    ensures
        r == double_in(item_at(items@, i as int)),
{
    if i < items.len() {
        items[i].as_double()
    } else {
        None
    }
}

} // verus!
