use vstd::prelude::*;

verus! {

/// A graph payload: a value with a textual form. Serialization writes this
/// form; it is the only capability the container asks of a payload.
pub trait AsText: Sized {
    /// The payload's text, as a mathematical sequence of characters.
    spec fn text_spec(&self) -> Seq<char>;

    /// The payload's text, as an owned string.
    fn to_text(&self) -> (r: String)
        ensures
            r@ == self.text_spec(),
    ;
}

impl AsText for String {
    open spec fn text_spec(&self) -> Seq<char> {
        self@
    }

    fn to_text(&self) -> (r: String) {
        self.clone()
    }
}

/// One graph vertex: a caller-assigned identifier, a payload, and the
/// ordered list of outbound edge targets, each named by identifier.
pub struct Node<T> {
    pub id: i32,
    pub data: T,
    pub edges: Vec<i32>,
}

impl<T> Node<T> {
    /// A fresh node with no outbound edges.
    pub fn new(id: i32, data: T) -> (n: Node<T>)
        ensures
            n.id == id,
            n.data == data,
            n.edges@ == Seq::<i32>::empty(),
    {
        Node { id, data, edges: Vec::new() }
    }

    /// Appends one outbound edge target; insertion order is kept.
    pub fn add_edge(&mut self, edge: i32)
        ensures
            final(self).id == old(self).id,
            final(self).data == old(self).data,
            final(self).edges@ == old(self).edges@.push(edge),
    {
        self.edges.push(edge);
    }
}

} // verus!
