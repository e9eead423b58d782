use pretty_snowflake::{
    Alphabet, AlphabetCodec, CustomLabeling, Id, IdPrettifier, Label, LabeledRealtimeIdGenerator,
    LazyGenerator, MakeLabeling, PrettyIdGenerator,
};
use regex::Regex;

struct Zed;

impl Label for Zed {
    type Labeler = MakeLabeling<Zed>;

    fn labeler() -> Self::Labeler {
        MakeLabeling::default()
    }
}

struct NonLabelZed;

struct Foo;

impl Label for Foo {
    type Labeler = CustomLabeling;

    fn labeler() -> Self::Labeler {
        CustomLabeling::new("MyFooferNut")
    }
}

fn make_generator<T: Label>() -> LabeledRealtimeIdGenerator<T> {
    PrettyIdGenerator::single_node(IdPrettifier::<AlphabetCodec>::default())
}

#[test]
fn test_present_example_of_usage() {
    // create an instance of it
    let mut generator: LabeledRealtimeIdGenerator<Zed> =
        PrettyIdGenerator::single_node(IdPrettifier::default());

    // generate ids
    let actual: Id<Zed> = generator.next_id();
    let actual_str: String = actual.clone().pretty().to_string();
    assert!(!actual_str.is_empty());

    let re = Regex::new(r##"[A-Z]{4}-[0-9]{5}-[A-Z]{4}-[0-9]{5}"##).unwrap();
    assert!(re.is_match(&actual_str));

    // or it might be used just for encoding existing ids
    let prettifier = IdPrettifier::<AlphabetCodec>::default();
    let id = prettifier.prettify(100);
    assert_eq!(&id, "AAAA-00000-AAAA-01007");

    // get the seed back
    let origin = prettifier.to_id_seed(&id).unwrap();
    assert_eq!(origin, 100);

    // use a custom prettifier
    let custom_prettifier = IdPrettifier {
        encoder: AlphabetCodec::new(Alphabet::new("ABC")),
        parts_size: 4,
        delimiter: "_".to_string(),
        leading_zeros: false,
        ..IdPrettifier::default()
    };
    let custom_id = custom_prettifier.prettify(1234567);
    assert_eq!(&custom_id, "BCAACAB_5671");
}

#[test]
fn test_non_label_custom_generator() {
    let mut generator: PrettyIdGenerator<NonLabelZed, CustomLabeling, LazyGenerator, AlphabetCodec> =
        PrettyIdGenerator::single_node_labeling(
            CustomLabeling::new("Zedster"),
            IdPrettifier::default(),
        );

    let actual = generator.next_id();
    assert_eq!(actual.pretty_label(), format!("Zedster::{}", actual.pretty()))
}

#[test]
fn test_labeled_generator() {
    let mut generator: PrettyIdGenerator<Foo, CustomLabeling, LazyGenerator, AlphabetCodec> =
        PrettyIdGenerator::single_node(IdPrettifier::default());

    let actual = generator.next_id();
    assert_eq!(actual.pretty_label(), format!("MyFooferNut::{}", actual.pretty()))
}

#[test]
fn test_partial_ord() {
    let mut generator = make_generator::<()>();
    let a = generator.next_id();
    let b = generator.next_id();
    assert!(a < b);
}

#[test]
fn test_display() {
    let mut generator = make_generator();
    let a: Id<Foo> = generator.next_id();
    assert_eq!(a.pretty_label(), format!("MyFooferNut::{}", a.pretty()));
}

#[test]
fn test_debug() {
    let mut generator = make_generator();
    let a: Id<Foo> = generator.next_id();
    assert_eq!(a.pretty_label(), format!("MyFooferNut::{}", a.pretty()));
}

#[test]
fn test_id_cross_conversion() {
    let mut generator = make_generator();
    let a: Id<String> = generator.next_id();
    let before = a.pretty_label();
    assert_eq!(format!("String::{}", a.pretty()), before);

    let b: Id<usize> = a.relabel();
    let after = b.pretty_label();
    assert_eq!(format!("usize::{}", b.pretty()), after);
}

#[test]
fn test_id_accessors() {
    let prettifier = IdPrettifier::<AlphabetCodec>::default();
    let id: Id<Zed> = Id::new("Zed", 100i64.into(), &prettifier);
    assert_eq!(id.label(), "Zed");
    assert_eq!(id.num(), 100);
    assert_eq!(id.pretty(), "AAAA-00000-AAAA-01007");
    assert_eq!(id.pretty_label(), "Zed::AAAA-00000-AAAA-01007");

    let direct: Id<Zed> = Id::direct("", 100i64.into(), "AAAA-00000-AAAA-01007");
    assert_eq!(direct.pretty_label(), "AAAA-00000-AAAA-01007");
    assert!(id == direct);
}

#[test]
fn test_equality_ignores_label() {
    let prettifier = IdPrettifier::<AlphabetCodec>::default();
    let a: Id<Zed> = Id::direct("one", 7i64.into(), &prettifier.prettify(7));
    let b: Id<Zed> = Id::direct("two", 7i64.into(), &prettifier.prettify(7));
    let c: Id<Zed> = Id::direct("one", 8i64.into(), &prettifier.prettify(8));
    assert!(a == b);
    assert!(a != c);
    assert!(a < c);
}
