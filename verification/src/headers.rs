//! A list of headers, in the order in which they were added.

use crate::text::same_text;
use vstd::prelude::*;

verus! {

/// A header name with its value.
pub type Field = (Seq<char>, Seq<char>);

/// The views of a list of exec name/value pairs.
pub open spec fn field_views(pairs: Seq<(String, String)>) -> Seq<Field> {
    pairs.map_values(|p: (String, String)| (p.0@, p.1@))
}

/// Header names and values, in the order in which they were added. A name may
/// occur more than once.
#[derive(Debug, PartialEq, Eq)]
pub struct Headers {
    fields: Vec<(String, String)>,
}

impl View for Headers {
    type V = Seq<Field>;

    closed spec fn view(&self) -> Seq<Field> {
        field_views(self.fields@)
    }
}

impl Headers {
    /// No headers.
    pub fn new() -> (r: Self)
        ensures
            r@ == Seq::<Field>::empty(),
    {
        let r = Headers { fields: Vec::new() };
        assert(r@ =~= Seq::<Field>::empty());
        r
    }

    /// How many headers there are.
    pub fn len(&self) -> (n: usize)
        ensures
            n == self@.len(),
    {
        self.fields.len()
    }

    /// The `i`-th header.
    pub fn at(&self, i: usize) -> (field: (&str, &str))
        requires
            i < self@.len(),
        ensures
            (field.0@, field.1@) == self@[i as int],
    {
        (self.fields[i].0.as_str(), self.fields[i].1.as_str())
    }

    /// Adds a header after those that there are.
    pub fn push(&mut self, name: String, value: String)
        ensures
            final(self)@ == old(self)@.push((name@, value@)),
    {
        let ghost before = self@;
        let ghost added = (name@, value@);
        self.fields.push((name, value));
        assert(self@ =~= before.push(added));
    }

    /// Whether two lists of headers are equal.
    pub fn same(&self, other: &Headers) -> (r: bool)
        ensures
            r == (self@ == other@),
    {
        if self.len() != other.len() {
            return false;
        }
        let mut i: usize = 0;
        while i < self.len()
            invariant
                i <= self@.len(),
                self@.len() == other@.len(),
                self@.take(i as int) == other@.take(i as int),
            decreases self@.len() - i,
        {
            let (name, value) = self.at(i);
            let (other_name, other_value) = other.at(i);
            if !same_text(name, other_name) || !same_text(value, other_value) {
                assert(self@[i as int] != other@[i as int]);
                return false;
            }
            assert(self@.take(i + 1) =~= self@.take(i as int).push(self@[i as int]));
            assert(other@.take(i + 1) =~= other@.take(i as int).push(other@[i as int]));
            i = i + 1;
        }
        assert(self@.take(i as int) =~= self@);
        assert(other@.take(i as int) =~= other@);
        true
    }
}

impl Clone for Headers {
    fn clone(&self) -> (r: Self)
        ensures
            r@ == self@,
    {
        let mut fields: Vec<(String, String)> = Vec::with_capacity(self.fields.len());
        let mut i: usize = 0;
        while i < self.fields.len()
            invariant
                i <= self.fields.len(),
                field_views(fields@) == self@.take(i as int),
            decreases self.fields.len() - i,
        {
            let ghost copied = field_views(fields@);
            fields.push((self.fields[i].0.clone(), self.fields[i].1.clone()));
            assert(field_views(fields@) =~= copied.push(self@[i as int]));
            i = i + 1;
            assert(field_views(fields@) =~= self@.take(i as int));
        }
        assert(self@.take(i as int) =~= self@);
        Headers { fields }
    }
}

impl Default for Headers {
    fn default() -> (r: Self)
        ensures
            r@ == Seq::<Field>::empty(),
    {
        Headers::new()
    }
}

} // verus!
