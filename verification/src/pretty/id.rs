//! The labeled identifier: a numeric snowflake seed together with its pretty
//! rendering and a runtime label naming the owning domain. Equality and
//! ordering compare only the numeric seed; the label participates only in
//! display.

use vstd::prelude::*;
use core::marker::PhantomData;
use crate::label::Label;
use crate::labeling::Labeling;
use crate::pretty::codec::Codec;
use crate::pretty::prettifier::{IdPrettifier, prettify_spec};
use crate::pretty::chars::string_push;
use crate::snowflake::Id as SnowflakeId;

verus! {

/// An identifier of the domain `T`: the raw seed, its pretty rendering, and
/// the domain's label.
pub struct Id<T: ?Sized> {
    label: String,
    snowflake: SnowflakeId,
    pretty: String,
    marker: PhantomData<T>,
}

impl<T: ?Sized> Id<T> {
    /// The label text.
    pub closed spec fn spec_label(&self) -> Seq<char> {
        self.label@
    }

    /// The numeric seed.
    pub closed spec fn spec_num(&self) -> int {
        self.snowflake.spec_num()
    }

    /// The pretty rendering.
    pub closed spec fn spec_pretty(&self) -> Seq<char> {
        self.pretty@
    }

    /// An identifier whose pretty form is computed by the given prettifier.
    pub fn new<C: Codec>(label: &str, snowflake: SnowflakeId, prettifier: &IdPrettifier<C>) -> (r:
        Self)
        requires
            prettifier.wf(),
            0 <= snowflake.spec_num(),
        ensures
            r.spec_label() == label@,
            r.spec_num() == snowflake.spec_num(),
            r.spec_pretty() == prettify_spec(prettifier.model(), snowflake.spec_num()),
    {
        let pretty = prettifier.prettify(snowflake.num());
        Id { label: label.to_owned(), snowflake, pretty, marker: PhantomData }
    }

    /// An identifier assembled from parts already at hand.
    pub fn direct(label: &str, snowflake: SnowflakeId, pretty: &str) -> (r: Self)
        ensures
            r.spec_label() == label@,
            r.spec_num() == snowflake.spec_num(),
            r.spec_pretty() == pretty@,
    {
        Id { label: label.to_owned(), snowflake, pretty: pretty.to_owned(), marker: PhantomData }
    }

    /// The same identifier re-labeled for another domain: the seed and the
    /// pretty form are unchanged; only the label is replaced.
    pub fn relabel<B: Label>(&self) -> (r: Id<B>)
        ensures
            r.spec_num() == self.spec_num(),
            r.spec_pretty() == self.spec_pretty(),
    {
        let labeler = B::labeler();
        let label = labeler.label();
        Id {
            label,
            snowflake: self.snowflake,
            pretty: self.pretty.clone(),
            marker: PhantomData,
        }
    }

    /// The label text.
    pub fn label(&self) -> (r: &str)
        ensures
            r@ == self.spec_label(),
    {
        self.label.as_str()
    }

    /// The pretty rendering.
    pub fn pretty(&self) -> (r: &str)
        ensures
            r@ == self.spec_pretty(),
    {
        self.pretty.as_str()
    }

    /// The numeric seed.
    pub fn num(&self) -> (r: i64)
        ensures
            r as int == self.spec_num(),
    {
        self.snowflake.num()
    }

    /// The display form: the pretty rendering alone for an empty label, and
    /// `label::pretty` otherwise.
    pub fn pretty_label(&self) -> (r: String)
        ensures
            self.spec_label().len() == 0 ==> r@ == self.spec_pretty(),
            self.spec_label().len() > 0 ==> r@ == self.spec_label() + seq![':', ':']
                + self.spec_pretty(),
    {
        if self.label.as_str().unicode_len() == 0 {
            self.pretty.clone()
        } else {
            let mut out = self.label.clone();
            string_push(&mut out, ':');
            string_push(&mut out, ':');
            out.append(self.pretty.as_str());
            proof {
                assert(self.label@.push(':').push(':') + self.pretty@
                    =~= self.label@ + seq![':', ':'] + self.pretty@);
            }
            out
        }
    }
}

impl<T: ?Sized> Clone for Id<T> {
    /// A copy with the same label, seed, and pretty form.
    fn clone(&self) -> (r: Self)
        ensures
            r.spec_label() == self.spec_label(),
            r.spec_num() == self.spec_num(),
            r.spec_pretty() == self.spec_pretty(),
    {
        Id {
            label: self.label.clone(),
            snowflake: self.snowflake,
            pretty: self.pretty.clone(),
            marker: PhantomData,
        }
    }
}

impl<T: ?Sized> PartialEq for Id<T> {
    /// Equality compares only the numeric seed; the label is display-only.
    fn eq(&self, other: &Self) -> (r: bool) {
        self.snowflake.num() == other.snowflake.num()
    }
}

impl<T: ?Sized> Eq for Id<T> {}

impl<T: ?Sized> vstd::std_specs::cmp::PartialEqSpecImpl for Id<T> {
    open spec fn obeys_eq_spec() -> bool {
        true
    }

    open spec fn eq_spec(&self, other: &Self) -> bool {
        self.spec_num() == other.spec_num()
    }
}

impl<T: ?Sized> PartialOrd for Id<T> {
    /// Ordering compares only the numeric seed; the label is display-only.
    fn partial_cmp(&self, other: &Self) -> (r: Option<core::cmp::Ordering>) {
        if self.snowflake.num() < other.snowflake.num() {
            Some(core::cmp::Ordering::Less)
        } else if self.snowflake.num() == other.snowflake.num() {
            Some(core::cmp::Ordering::Equal)
        } else {
            Some(core::cmp::Ordering::Greater)
        }
    }
}

impl<T: ?Sized> vstd::std_specs::cmp::PartialOrdSpecImpl for Id<T> {
    open spec fn obeys_partial_cmp_spec() -> bool {
        true
    }

    open spec fn partial_cmp_spec(&self, other: &Self) -> Option<core::cmp::Ordering> {
        if self.spec_num() < other.spec_num() {
            Some(core::cmp::Ordering::Less)
        } else if self.spec_num() == other.spec_num() {
            Some(core::cmp::Ordering::Equal)
        } else {
            Some(core::cmp::Ordering::Greater)
        }
    }
}

} // verus!
