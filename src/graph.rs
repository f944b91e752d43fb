//! Nodes and directed edges of the input graph.

use vstd::prelude::*;
use vstd::string::*;

use crate::sets::SetItem;

verus! {

/// A node of the input graph: an identifier and an opaque payload.
#[derive(Debug)]
pub struct Node {
    id: String,
    data: String,
}

/// The view of a node is its identifier and its payload.
impl View for Node {
    type V = (Seq<char>, Seq<char>);

    closed spec fn view(&self) -> (Seq<char>, Seq<char>) {
        (self.id@, self.data@)
    }
}

impl Node {
    pub fn new(id: String, data: String) -> (r: Node)
        ensures
            r@ == (id@, data@),
    {
        Node { id, data }
    }

    pub fn get_id(&self) -> (r: &String)
        ensures
            r@ == self@.0,
    {
        &self.id
    }

    pub fn get_data(&self) -> (r: &String)
        ensures
            r@ == self@.1,
    {
        &self.data
    }
}

impl Clone for Node {
    fn clone(&self) -> (r: Self)
        ensures
            r@ == self@,
    {
        Node { id: self.id.clone(), data: self.data.clone() }
    }
}

/// A directed edge between two node identifiers. Its view is the pair
/// `(from, to)`.
#[derive(Debug, Hash)]
pub struct Edge {
    from: String,
    to: String,
}

impl View for Edge {
    type V = (Seq<char>, Seq<char>);

    closed spec fn view(&self) -> (Seq<char>, Seq<char>) {
        (self.from@, self.to@)
    }
}

impl Edge {
    pub fn new(from: &str, to: &str) -> (r: Edge)
        ensures
            r@ == (from@, to@),
    {
        Edge { from: from.to_owned(), to: to.to_owned() }
    }

    pub fn from_ids(from: String, to: String) -> (r: Edge)
        ensures
            r@ == (from@, to@),
    {
        Edge { from, to }
    }

    pub fn get_from(&self) -> (r: String)
        ensures
            r@ == self@.0,
    {
        self.from.clone()
    }

    pub fn get_to(&self) -> (r: String)
        ensures
            r@ == self@.1,
    {
        self.to.clone()
    }

    pub fn from_ref(&self) -> (r: &String)
        ensures
            r@ == self@.0,
    {
        &self.from
    }

    pub fn to_ref(&self) -> (r: &String)
        ensures
            r@ == self@.1,
    {
        &self.to
    }

    /// `from` and `to` joined with `-`.
    pub fn get_id(&self) -> (r: String)
        ensures
            r@ == self@.0 + seq!['-'] + self@.1,
    {
        let mut r = self.from.clone();
        proof {
            reveal_strlit("-");
        }
        r.append("-");
        r.append(self.to.as_str());
        r
    }
}

impl SetItem for Edge {
    fn same(&self, other: &Self) -> (r: bool) {
        self.from == other.from && self.to == other.to
    }

    fn duplicate(&self) -> (r: Self) {
        Edge { from: self.from.clone(), to: self.to.clone() }
    }
}

impl PartialEq for Edge {
    fn eq(&self, other: &Self) -> (r: bool) {
        self.same(other)
    }
}

impl vstd::std_specs::cmp::PartialEqSpecImpl for Edge {
    open spec fn obeys_eq_spec() -> bool {
        true
    }

    open spec fn eq_spec(&self, other: &Self) -> bool {
        self@ == other@
    }
}

impl Eq for Edge {

}

impl Clone for Edge {
    fn clone(&self) -> (r: Self)
        ensures
            r@ == self@,
    {
        self.duplicate()
    }
}

} // verus!
