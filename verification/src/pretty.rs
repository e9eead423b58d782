//! The identifier-formatting engine: a positional-base string codec, a
//! single-digit error-detecting checksum, and the partition/padding/
//! alternation algorithm that combines them into a reversible pretty
//! representation.

pub mod chars;
pub mod codec;
pub mod damm;
pub mod id;
pub mod laws;
pub mod numeral;
pub mod prettifier;

use vstd::prelude::*;
use core::marker::PhantomData;

pub use codec::{Alphabet, AlphabetCodec, Codec};
pub use id::Id;
pub use prettifier::{ConversionError, IdPrettifier};

use crate::label::Label;
use crate::labeling::Labeling;
use crate::pretty::prettifier::prettify_spec;
use crate::snowflake::{Generator, IdGenerator, LazyGenerator, RealTimeGenerator,
    SnowflakeIdGenerator};
use crate::MachineNode;

verus! {

/// A generator of labeled, prettified identifiers: a snowflake generator, a
/// prettifier, and a labeling for the owning domain, bundled together.
pub struct PrettyIdGenerator<T, L: Labeling + Clone, G: IdGenerator, C: Codec> {
    generator: SnowflakeIdGenerator<G>,
    prettifier: IdPrettifier<C>,
    labeling: L,
    marker: PhantomData<T>,
}

impl<T, L: Labeling + Clone, G: IdGenerator, C: Codec> PrettyIdGenerator<T, L, G, C> {
    /// The prettifier configuration in use.
    pub closed spec fn spec_prettifier(&self) -> IdPrettifier<C> {
        self.prettifier
    }

    /// The labeling in use.
    pub closed spec fn spec_labeling(&self) -> L {
        self.labeling
    }

    /// The generator is usable: its prettifier configuration is.
    pub open spec fn wf(&self) -> bool {
        self.spec_prettifier().wf()
    }

    /// A single-node generator with an explicit labeling.
    pub fn single_node_labeling(labeling: L, prettifier: IdPrettifier<C>) -> (r: Self)
        ensures
            r.spec_prettifier() == prettifier,
            r.spec_labeling() == labeling,
    {
        let generator = SnowflakeIdGenerator::single_node();
        PrettyIdGenerator { generator, prettifier, labeling, marker: PhantomData }
    }

    /// A distributed generator with an explicit labeling.
    pub fn distributed_labeling(
        machine_node: MachineNode,
        labeling: L,
        prettifier: IdPrettifier<C>,
    ) -> (r: Self)
        ensures
            r.spec_prettifier() == prettifier,
            r.spec_labeling() == labeling,
    {
        let generator = SnowflakeIdGenerator::distributed(machine_node);
        PrettyIdGenerator { generator, prettifier, labeling, marker: PhantomData }
    }

    /// The next labeled identifier. The raw seed comes from the clock, so
    /// only its relation to the rendering is promised: whenever the seed is
    /// representable (non-negative), the pretty form is its exact rendering
    /// under this generator's configuration.
    pub fn next_id(&mut self) -> (r: Id<T>)
        requires
            old(self).wf(),
        ensures
            final(self).spec_prettifier() == old(self).spec_prettifier(),
            final(self).spec_labeling() == old(self).spec_labeling(),
            r.spec_label() == old(self).spec_labeling().label_spec(),
            0 <= r.spec_num() ==> r.spec_pretty() == prettify_spec(
                old(self).spec_prettifier().model(),
                r.spec_num(),
            ),
            r.spec_num() < 0 ==> r.spec_pretty() == Seq::<char>::empty(),
    {
        let label = self.labeling.label();
        let seed = self.generator.next_id();
        if seed.num() >= 0 {
            Id::new(label.as_str(), seed, &self.prettifier)
        } else {
            proof {
                reveal_strlit("");
                assert(""@ =~= Seq::<char>::empty());
            }
            Id::direct(label.as_str(), seed, "")
        }
    }
}

impl<T: Label, G: IdGenerator, C: Codec> PrettyIdGenerator<T, <T as Label>::Labeler, G, C> {
    /// A single-node generator labeled by the domain type.
    pub fn single_node(prettifier: IdPrettifier<C>) -> (r: Self)
        ensures
            r.spec_prettifier() == prettifier,
    {
        Self::single_node_labeling(T::labeler(), prettifier)
    }

    /// A distributed generator labeled by the domain type.
    pub fn distributed(machine_node: MachineNode, prettifier: IdPrettifier<C>) -> (r: Self)
        ensures
            r.spec_prettifier() == prettifier,
    {
        Self::distributed_labeling(machine_node, T::labeler(), prettifier)
    }

    /// A borrow of the prettifier in use.
    pub fn prettifier(&self) -> (r: &IdPrettifier<C>)
        ensures
            r == self.spec_prettifier(),
    {
        &self.prettifier
    }
}

impl<T: Label> PrettyIdGenerator<T, <T as Label>::Labeler, RealTimeGenerator, AlphabetCodec> {
    /// A distributed generator with the real-time strategy and the default
    /// prettifier.
    pub fn distributed_realtime(machine_node: MachineNode) -> (r: Self)
        ensures
            r.wf(),
    {
        Self::distributed(machine_node, IdPrettifier::default())
    }
}

impl<T: Label> PrettyIdGenerator<T, <T as Label>::Labeler, Generator, AlphabetCodec> {
    /// A distributed generator with the basic strategy and the default
    /// prettifier.
    pub fn distributed_basic(machine_node: MachineNode) -> (r: Self)
        ensures
            r.wf(),
    {
        Self::distributed(machine_node, IdPrettifier::default())
    }
}

impl<T: Label> PrettyIdGenerator<T, <T as Label>::Labeler, LazyGenerator, AlphabetCodec> {
    /// A distributed generator with the lazy strategy and the default
    /// prettifier.
    pub fn distributed_lazy(machine_node: MachineNode) -> (r: Self)
        ensures
            r.wf(),
    {
        Self::distributed(machine_node, IdPrettifier::default())
    }
}

impl<T: Label> Default for PrettyIdGenerator<
    T,
    <T as Label>::Labeler,
    RealTimeGenerator,
    AlphabetCodec,
> {
    /// A single-node real-time generator with the default prettifier.
    fn default() -> (r: Self)
        ensures
            r.wf(),
    {
        Self::single_node(IdPrettifier::default())
    }
}

impl<T: Label> Default for PrettyIdGenerator<
    T,
    <T as Label>::Labeler,
    Generator,
    AlphabetCodec,
> {
    /// A single-node basic generator with the default prettifier.
    fn default() -> (r: Self)
        ensures
            r.wf(),
    {
        Self::single_node(IdPrettifier::default())
    }
}

impl<T: Label> Default for PrettyIdGenerator<
    T,
    <T as Label>::Labeler,
    LazyGenerator,
    AlphabetCodec,
> {
    /// A single-node lazy generator with the default prettifier.
    fn default() -> (r: Self)
        ensures
            r.wf(),
    {
        Self::single_node(IdPrettifier::default())
    }
}

} // verus!
