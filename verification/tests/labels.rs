use std::marker::PhantomData;

use pretty_snowflake::{summon, CustomLabeling, Label, Labeling, MakeLabeling, NoLabeling};

struct Foo;
struct Zed;
struct Bar<T> {
    marker: PhantomData<T>,
}

#[test]
fn labeling_test_make_labeling() {
    let foo: MakeLabeling<Foo> = MakeLabeling::default();
    let bar_foo: MakeLabeling<Bar<Foo>> = MakeLabeling::default();
    let bar_zed: MakeLabeling<Bar<Zed>> = MakeLabeling::default();

    assert_ne!(foo.label(), bar_foo.label());
    assert_ne!(bar_zed.label(), bar_foo.label());
    assert_eq!(foo.label(), "Foo");
    assert_eq!(bar_foo.label(), "Bar<Foo>");
    assert_eq!(bar_zed.label(), "Bar<Zed>");
}

#[test]
fn labeling_test_custom_labeling() {
    let foo = CustomLabeling::new("Foo");
    let bar = CustomLabeling::new("Bar");

    assert_ne!(foo.label(), bar.label());
    assert_eq!(foo.label(), "Foo");
    assert_eq!(bar.label(), "Bar");
}

#[test]
fn labeling_test_empty_labeling() {
    assert_eq!(NoLabeling.label(), String::default());
    assert_eq!(NoLabeling.label(), NoLabeling.label());
}

#[test]
fn labeling_test_clone_make_labeling() {
    let expected: MakeLabeling<Foo> = MakeLabeling::default();
    let actual = expected.clone();
    assert_eq!(actual.label(), expected.label())
}

#[test]
fn tests_test_make_labeling() {
    let foo: MakeLabeling<Foo> = MakeLabeling::default();
    let bar_foo: MakeLabeling<Bar<Foo>> = MakeLabeling::default();
    let bar_zed: MakeLabeling<Bar<Zed>> = MakeLabeling::default();

    assert_ne!(foo.label(), bar_foo.label());
    assert_ne!(bar_zed.label(), bar_foo.label());
    assert_eq!(foo.label(), "Foo");
    assert_eq!(bar_foo.label(), "Bar<Foo>");
    assert_eq!(bar_zed.label(), "Bar<Zed>");
}

#[test]
fn tests_test_custom_labeling() {
    let foo = CustomLabeling::new("Foo");
    let bar = CustomLabeling::new("Bar");

    assert_ne!(foo.label(), bar.label());
    assert_eq!(foo.label(), "Foo");
    assert_eq!(bar.label(), "Bar");
}

#[test]
fn tests_test_empty_labeling() {
    assert_eq!(NoLabeling.label(), String::default());
    assert_eq!(NoLabeling.label(), NoLabeling.label());
}

#[test]
fn tests_test_clone_make_labeling() {
    let expected: MakeLabeling<Foo> = MakeLabeling::default();
    let actual = expected.clone();
    assert_eq!(actual.label(), expected.label())
}

#[test]
fn test_unit_labeler() {
    let actual = summon::<()>();
    assert_eq!(actual.label(), "");
}

#[test]
fn test_i64_labeler() {
    let l = i64::labeler();
    let actual = l.label();
    assert_eq!(actual, "i64");
}

#[test]
fn test_str_labeler() {
    let actual = summon::<&str>().label();
    assert_eq!(actual, "&str");
}
