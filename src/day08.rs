//! Node names of a desert map: three characters each.

use vstd::prelude::*;
use vstd::string::StrSliceExecFns;

verus! {

/// A node's three-character name.
#[derive(PartialEq, Eq, Structural, Clone, Copy, Debug, Hash)]
pub struct NodeIdentifier(pub char, pub char, pub char);

impl NodeIdentifier {
    /// The node every walk starts from, `AAA`.
    pub fn start() -> (r: NodeIdentifier)
        ensures
            r == NodeIdentifier('A', 'A', 'A'),
    {
        NodeIdentifier('A', 'A', 'A')
    }

    /// Whether this is the node a walk ends at, `ZZZ`.
    pub fn is_end(&self) -> (r: bool)
        ensures
            r == (self.0 == 'Z' && self.1 == 'Z' && self.2 == 'Z'),
    {
        self.0 == 'Z' && self.1 == 'Z' && self.2 == 'Z'
    }

    /// Whether a ghost starts here: the name ends in `A`.
    pub fn is_ghost_start(&self) -> (r: bool)
        ensures
            r == (self.2 == 'A'),
    {
        self.2 == 'A'
    }

    /// Whether a ghost stops here: the name ends in `Z`.
    pub fn is_ghost_end(&self) -> (r: bool)
        ensures
            r == (self.2 == 'Z'),
    {
        self.2 == 'Z'
    }

    /// The name made of the first three characters of `value`, if it has
    /// that many.
    pub fn parse(value: &str) -> (r: Option<NodeIdentifier>)
        ensures
            match r {
                Some(n) => value@.len() >= 3 && n == NodeIdentifier(value@[0], value@[1], value@[2]),
                None => value@.len() < 3,
            },
    {
        if value.unicode_len() < 3 {
            None
        } else {
            Some(NodeIdentifier(value.get_char(0), value.get_char(1), value.get_char(2)))
        }
    }
}

} // verus!
