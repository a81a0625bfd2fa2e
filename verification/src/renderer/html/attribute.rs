//! One attribute of a start tag.
use vstd::prelude::*;

verus! {

/// What an attribute holds: its name and its value.
pub struct AttributeView {
    pub name: Seq<char>,
    pub value: Seq<char>,
}

/// A name and a value, each built one character at a time.
#[derive(Debug, PartialEq, Eq)]
pub struct Attribute {
    name: String,
    value: String,
}

impl View for Attribute {
    type V = AttributeView;

    closed spec fn view(&self) -> AttributeView {
        AttributeView { name: self.name@, value: self.value@ }
    }
}

impl Clone for Attribute {
    fn clone(&self) -> (r: Self)
        ensures
            r@ == self@,
    {
        Attribute { name: self.name.clone(), value: self.value.clone() }
    }
}

impl Attribute {
    /// An attribute with an empty name and an empty value.
    pub fn new() -> (r: Self)
        ensures
            r@ == (AttributeView { name: Seq::empty(), value: Seq::empty() }),
    {
        Self { name: String::new(), value: String::new() }
    }

    /// Appends `c` to the name.
    pub fn add_name_char(&mut self, c: char)
        ensures
            final(self)@ == (AttributeView { name: old(self)@.name.push(c), value: old(self)@.value }),
    {
        self.name.push(c);
    }

    /// Appends `c` to the value.
    pub fn add_value_char(&mut self, c: char)
        ensures
            final(self)@ == (AttributeView { name: old(self)@.name, value: old(self)@.value.push(c) }),
    {
        self.value.push(c);
    }

    /// The name.
    pub fn name(&self) -> (r: String)
        ensures
            r@ == self@.name,
    {
        self.name.clone()
    }

    /// The value.
    pub fn value(&self) -> (r: String)
        ensures
            r@ == self@.value,
    {
        self.value.clone()
    }
}

} // verus!
