//! Arrowhead marker kinds.
//!
//! Each distinct kind is emitted once as a reusable definition; connector
//! lines reference it through the identifier [`Markers::get_id`] returns.

use vstd::prelude::*;

verus! {

/// The arrowhead kinds a message connector can carry.
#[derive(Clone, Copy, Debug, PartialEq, Eq, Hash, Structural)]
pub enum Markers {
    NoArrow,
    Array,
}

impl Markers {
    /// The reference a line attribute uses to point at this marker's
    /// definition; the bare kind carries no arrowhead and so no reference.
    pub fn get_id(&self) -> (r: Option<String>)
        ensures
            match r {
                Option::Some(s) => *self is Array && s@ == "url(#marker-1)"@,
                Option::None => *self is NoArrow,
            },
    {
        match self {
            Markers::NoArrow => Option::None,
            Markers::Array => Option::Some("url(#marker-1)".to_owned()),
        }
    }

    /// The stable identifier under which this marker kind is defined.
    pub fn get_as_id(&self) -> (r: String)
        ensures
            *self is NoArrow ==> r@ == "marker-0"@,
            *self is Array ==> r@ == "marker-1"@,
    {
        match self {
            Markers::NoArrow => "marker-0".to_owned(),
            Markers::Array => "marker-1".to_owned(),
        }
    }
}

} // verus!
