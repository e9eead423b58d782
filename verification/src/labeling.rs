//! Runtime labels for identifier domains: a label names the kind of entity
//! an identifier belongs to, and participates only in display, never in
//! equality or ordering.

use vstd::prelude::*;
use core::marker::PhantomData;

verus! {

/// Supplies the label text for one identifier domain.
pub trait Labeling: Sized {
    /// The label as a mathematical string.
    spec fn label_spec(&self) -> Seq<char>;

    /// The label text.
    fn label(&self) -> (r: String)
        ensures
            r@ == self.label_spec(),
    ;
}

/// Relies on `pretty_type_name::pretty_type_name`: the short rendering of a
/// type's name, without module paths. The text is decided by the compiler's
/// type naming, so nothing is stated of it.
#[verifier::external_body]
fn pretty_name_of<T: ?Sized>() -> String {
    pretty_type_name::pretty_type_name::<T>()
}

/// Labels a domain with the short rendering of its type name, captured once
/// at construction.
pub struct MakeLabeling<T: ?Sized> {
    label: String,
    marker: PhantomData<T>,
}

impl<T: ?Sized> MakeLabeling<T> {
    /// A labeling holding the short rendering of `T`'s name.
    pub fn new() -> Self {
        MakeLabeling { label: pretty_name_of::<T>(), marker: PhantomData }
    }
}

impl<T: ?Sized> Labeling for MakeLabeling<T> {
    closed spec fn label_spec(&self) -> Seq<char> {
        self.label@
    }

    fn label(&self) -> (r: String) {
        self.label.clone()
    }
}

impl<T: ?Sized> Clone for MakeLabeling<T> {
    /// A copy carrying the same label text.
    fn clone(&self) -> (r: Self)
        ensures
            r.label_spec() == self.label_spec(),
    {
        MakeLabeling { label: self.label.clone(), marker: PhantomData }
    }
}

impl<T: ?Sized> Default for MakeLabeling<T> {
    /// The same labeling [`MakeLabeling::new`] builds.
    fn default() -> Self {
        MakeLabeling::new()
    }
}

/// Labels a domain with caller-chosen text.
pub struct CustomLabeling {
    label: String,
}

impl CustomLabeling {
    /// A labeling holding exactly the given text.
    pub fn new(label: &str) -> (r: Self)
        ensures
            r.label_spec() == label@,
    {
        CustomLabeling { label: label.to_owned() }
    }
}

impl Labeling for CustomLabeling {
    closed spec fn label_spec(&self) -> Seq<char> {
        self.label@
    }

    fn label(&self) -> (r: String) {
        self.label.clone()
    }
}

impl Clone for CustomLabeling {
    /// A copy carrying the same label text.
    fn clone(&self) -> (r: Self)
        ensures
            r.label_spec() == self.label_spec(),
    {
        CustomLabeling { label: self.label.clone() }
    }
}

/// Labels a domain with the empty string.
#[derive(Copy, Clone)]
pub struct NoLabeling;

impl Labeling for NoLabeling {
    open spec fn label_spec(&self) -> Seq<char> {
        Seq::empty()
    }

    fn label(&self) -> (r: String) {
        String::new()
    }
}

/// The labeler of a labeled domain type.
pub fn summon<T: crate::label::Label>() -> T::Labeler {
    T::labeler()
}

} // verus!
