//! Dynamically tagged cell payloads.
//!
//! A transaction log holds cells of different payload types side by side, so
//! the committed contents of a cell are stored as a tagged [`Value`].  The
//! typed view on top of it is the [`Payload`] trait: a payload type knows its
//! tag, injects itself into a `Value`, and extracts itself from a `Value`
//! carrying the same tag.

use vstd::prelude::*;

verus! {

/// The kind of payload a cell holds; fixed for the whole life of the cell.
#[derive(Clone, Copy, PartialEq, Eq, Structural)]
pub enum Tag {
    Int,
    Ints,
    Text,
}

/// Mathematical model of a payload value.
pub ghost enum ValueModel {
    Int(int),
    Ints(Seq<int>),
    Text(Seq<char>),
}

impl ValueModel {
    /// The tag of the payload kind this model belongs to.
    pub open spec fn tag(self) -> Tag {
        match self {
            ValueModel::Int(_) => Tag::Int,
            ValueModel::Ints(_) => Tag::Ints,
            ValueModel::Text(_) => Tag::Text,
        }
    }
}

/// A tagged payload: what a cell stores and a transaction log carries.
pub enum Value {
    Int(i64),
    Ints(Vec<i64>),
    Text(String),
}

impl View for Value {
    type V = ValueModel;

    open spec fn view(&self) -> ValueModel {
        match self {
            Value::Int(n) => ValueModel::Int(*n as int),
            Value::Ints(v) => ValueModel::Ints(v@.map_values(|x: i64| x as int)),
            Value::Text(s) => ValueModel::Text(s@),
        }
    }
}

impl Value {
    /// An owned copy with the same model.
    pub fn duplicate(&self) -> (r: Value)
        ensures
            r@ == self@,
    {
        match self {
            Value::Int(n) => Value::Int(*n),
            Value::Ints(v) => {
                let mut w: Vec<i64> = Vec::new();
                let mut i: usize = 0;
                while i < v.len()
                    invariant
                        i <= v.len(),
                        w@ =~= v@.subrange(0, i as int),
                    decreases v.len() - i,
                {
                    w.push(v[i]);
                    i += 1;
                }
                proof {
                    assert(w@ =~= v@);
                }
                Value::Ints(w)
            },
            Value::Text(s) => Value::Text(s.clone()),
        }
    }
}

/// A payload type: a typed face over [`Value`] with a fixed tag.
///
/// `of_value` asks for a value of the matching tag; the library keeps every
/// cell at one tag forever, so a typed handle can always extract.
pub trait Payload: Sized {
    /// The tag of values this type is stored under.
    spec fn tag_of() -> Tag;

    /// The model of this payload.
    spec fn model(self) -> ValueModel;

    /// Inject into a tagged value.
    fn to_value(self) -> (v: Value)
        ensures
            v@ == self.model(),
            v@.tag() == Self::tag_of(),
    ;

    /// Extract from a tagged value of the matching tag.
    fn of_value(v: Value) -> (r: Self)
        requires
            v@.tag() == Self::tag_of(),
        ensures
            r.model() == v@,
    ;
}

impl Payload for Vec<i64> {
    open spec fn tag_of() -> Tag {
        Tag::Ints
    }

    open spec fn model(self) -> ValueModel {
        ValueModel::Ints(self@.map_values(|x: i64| x as int))
    }

    fn to_value(self) -> (v: Value) {
        Value::Ints(self)
    }

    fn of_value(v: Value) -> (r: Self) {
        match v {
            Value::Ints(w) => w,
            _ => vstd::pervasive::unreached(),
        }
    }
}

impl Payload for String {
    open spec fn tag_of() -> Tag {
        Tag::Text
    }

    open spec fn model(self) -> ValueModel {
        ValueModel::Text(self@)
    }

    fn to_value(self) -> (v: Value) {
        Value::Text(self)
    }

    fn of_value(v: Value) -> (r: Self) {
        match v {
            Value::Text(t) => t,
            _ => vstd::pervasive::unreached(),
        }
    }
}

impl Payload for i64 {
    open spec fn tag_of() -> Tag {
        Tag::Int
    }

    open spec fn model(self) -> ValueModel {
        ValueModel::Int(self as int)
    }

    fn to_value(self) -> (v: Value) {
        Value::Int(self)
    }

    fn of_value(v: Value) -> (r: Self) {
        match v {
            Value::Int(n) => n,
            _ => vstd::pervasive::unreached(),
        }
    }
}

} // verus!
