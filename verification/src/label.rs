//! Domain types that can label their identifiers: each labeled type picks a
//! labeler that renders the domain's name.

use vstd::prelude::*;
use crate::labeling::{Labeling, MakeLabeling, NoLabeling};

verus! {

/// A type whose identifiers carry a label naming the type.
pub trait Label {
    /// The labeling used for this domain.
    type Labeler: Labeling + Clone;

    /// The labeler for this domain.
    fn labeler() -> Self::Labeler;
}

impl Label for () {
    type Labeler = NoLabeling;

    fn labeler() -> Self::Labeler {
        NoLabeling
    }
}

impl<T: Label> Label for Option<T> {
    type Labeler = <T as Label>::Labeler;

    fn labeler() -> Self::Labeler {
        <T as Label>::labeler()
    }
}

impl<T: Label, E> Label for Result<T, E> {
    type Labeler = <T as Label>::Labeler;

    fn labeler() -> Self::Labeler {
        <T as Label>::labeler()
    }
}

impl Label for bool {
    type Labeler = MakeLabeling<Self>;

    fn labeler() -> Self::Labeler {
        MakeLabeling::new()
    }
}

impl Label for char {
    type Labeler = MakeLabeling<Self>;

    fn labeler() -> Self::Labeler {
        MakeLabeling::new()
    }
}

impl Label for i8 {
    type Labeler = MakeLabeling<Self>;

    fn labeler() -> Self::Labeler {
        MakeLabeling::new()
    }
}

impl Label for i32 {
    type Labeler = MakeLabeling<Self>;

    fn labeler() -> Self::Labeler {
        MakeLabeling::new()
    }
}

impl Label for i64 {
    type Labeler = MakeLabeling<Self>;

    fn labeler() -> Self::Labeler {
        MakeLabeling::new()
    }
}

impl Label for i128 {
    type Labeler = MakeLabeling<Self>;

    fn labeler() -> Self::Labeler {
        MakeLabeling::new()
    }
}

impl Label for isize {
    type Labeler = MakeLabeling<Self>;

    fn labeler() -> Self::Labeler {
        MakeLabeling::new()
    }
}

impl Label for u8 {
    type Labeler = MakeLabeling<Self>;

    fn labeler() -> Self::Labeler {
        MakeLabeling::new()
    }
}

impl Label for u16 {
    type Labeler = MakeLabeling<Self>;

    fn labeler() -> Self::Labeler {
        MakeLabeling::new()
    }
}

impl Label for u32 {
    type Labeler = MakeLabeling<Self>;

    fn labeler() -> Self::Labeler {
        MakeLabeling::new()
    }
}

impl Label for u64 {
    type Labeler = MakeLabeling<Self>;

    fn labeler() -> Self::Labeler {
        MakeLabeling::new()
    }
}

impl Label for u128 {
    type Labeler = MakeLabeling<Self>;

    fn labeler() -> Self::Labeler {
        MakeLabeling::new()
    }
}

impl Label for usize {
    type Labeler = MakeLabeling<Self>;

    fn labeler() -> Self::Labeler {
        MakeLabeling::new()
    }
}

impl Label for String {
    type Labeler = MakeLabeling<Self>;

    fn labeler() -> Self::Labeler {
        MakeLabeling::new()
    }
}

impl<'a> Label for &'a str {
    type Labeler = MakeLabeling<Self>;

    fn labeler() -> Self::Labeler {
        MakeLabeling::new()
    }
}

} // verus!
