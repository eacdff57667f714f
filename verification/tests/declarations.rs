use paras_inherent::pallet_decl::{
    ArgumentPath, ArgumentSegment, GenericArgument, Ident, ItemType, PalletDeclaration, Path,
    PathArguments, PathSegment, TypePath,
};
use proc_macro2::Span;

fn ident(name: &str) -> Ident {
    Ident { name: name.to_string(), raw: false }
}

fn item(name: &str, attrs: &[&str]) -> ItemType {
    ItemType {
        attrs: attrs.iter().map(|a| a.to_string()).collect(),
        ident: ident(name),
    }
}

fn plain(name: &str) -> PathSegment {
    PathSegment { ident: ident(name), arguments: PathArguments::Absent }
}

fn generic(name: &str, args: Vec<GenericArgument>) -> PathSegment {
    PathSegment {
        ident: ident(name),
        arguments: PathArguments::AngleBracketed { turbofish: true, args },
    }
}

fn path(segments: Vec<PathSegment>) -> TypePath {
    TypePath { qself: None, path: Path { leading_colon: false, segments } }
}

fn argument(names: &[&str]) -> ArgumentPath {
    ArgumentPath {
        qself: None,
        leading_colon: false,
        segments: names
            .iter()
            .map(|name| ArgumentSegment { ident: ident(name), arguments: None })
            .collect(),
    }
}

fn type_arg(name: &str) -> GenericArgument {
    GenericArgument::TypePath(argument(&[name]))
}

#[test]
fn declaration_without_instance() {
    let given = path(vec![plain("frame_system")]);
    let d = PalletDeclaration::try_from(
        Span::call_site(),
        &item("System", &["#[runtime::pallet_index(0)]"]),
        &given,
    )
    .unwrap();
    assert_eq!(d.name, ident("System"));
    assert_eq!(d.attrs, vec!["#[runtime::pallet_index(0)]".to_string()]);
    assert_eq!(d.path, given.path);
    assert_eq!(d.instance, None);
}

#[test]
fn declaration_with_instance() {
    let given = path(vec![generic("pallet_collective", vec![type_arg("Instance1")])]);
    let d =
        PalletDeclaration::try_from(Span::call_site(), &item("Council", &[]), &given).unwrap();
    assert_eq!(d.name, ident("Council"));
    assert_eq!(d.instance, Some(ident("Instance1")));
    assert_eq!(d.path, path(vec![plain("pallet_collective")]).path);
}

#[test]
fn instance_comes_from_the_first_segment_with_arguments() {
    let given = path(vec![
        generic("outer", vec![]),
        generic("middle", vec![type_arg("One"), type_arg("Two")]),
        generic("inner", vec![type_arg("Three")]),
    ]);
    let d = PalletDeclaration::try_from(Span::call_site(), &item("A", &[]), &given).unwrap();
    assert_eq!(d.instance, Some(ident("One")));
    assert_eq!(
        d.path,
        path(vec![
            generic("outer", vec![]),
            plain("middle"),
            generic("inner", vec![type_arg("Three")]),
        ])
        .path
    );
}

#[test]
fn other_arguments_pick_no_instance() {
    let other = GenericArgument::Other("'static".to_string());
    let given = path(vec![
        generic("a", vec![other, type_arg("One")]),
        generic("b", vec![type_arg("Two")]),
    ]);
    let d = PalletDeclaration::try_from(Span::call_site(), &item("A", &[]), &given).unwrap();
    assert_eq!(d.instance, None);
    assert_eq!(d.path, given.path);

    let call = PathSegment {
        ident: ident("Fn"),
        arguments: PathArguments::Parenthesized("(u8)".to_string()),
    };
    let given = path(vec![call, generic("b", vec![type_arg("Two")])]);
    let d = PalletDeclaration::try_from(Span::call_site(), &item("A", &[]), &given).unwrap();
    assert_eq!(d.instance, None);
    assert_eq!(d.path, given.path);
}

#[test]
fn checked_declaration_refuses_what_is_no_identifier() {
    let check = |arg: ArgumentPath| {
        let given = path(vec![generic("pallet", vec![GenericArgument::TypePath(arg)])]);
        PalletDeclaration::try_from_checked(Span::call_site(), &item("A", &[]), &given)
    };
    // a::B
    assert_eq!(check(argument(&["a", "B"])), None);
    // ::B
    assert_eq!(check(ArgumentPath { leading_colon: true, ..argument(&["B"]) }), None);
    // <T>::B
    assert_eq!(check(ArgumentPath { qself: Some("T".to_string()), ..argument(&["B"]) }), None);
    // Vec<u8>
    let mut vec = argument(&["Vec"]);
    vec.segments[0].arguments = Some("< u8 >".to_string());
    assert_eq!(check(vec), None);
    // r#type
    let mut raw = argument(&["type"]);
    raw.segments[0].ident.raw = true;
    assert_eq!(check(raw), None);

    let d = check(argument(&["Instance2"])).unwrap();
    assert_eq!(d.instance, Some(ident("Instance2")));
    assert_eq!(d.path, path(vec![plain("pallet")]).path);
    let given = path(vec![plain("frame_system")]);
    let d = PalletDeclaration::try_from_checked(Span::call_site(), &item("A", &[]), &given);
    assert_eq!(d.unwrap().path, given.path);
}

#[test]
fn single_identifiers_are_told_from_other_paths() {
    assert_eq!(argument(&["X"]).single_ident(), Some(&ident("X")));
    assert_eq!(argument(&["X", "Y"]).single_ident(), None);
    assert_eq!(argument(&[]).single_ident(), None);
}

#[test]
fn declare_takes_the_instance_as_it_is() {
    let given = TypePath {
        qself: Some("Vec<T>".to_string()),
        path: Path {
            leading_colon: true,
            segments: vec![plain("a"), generic("b", vec![type_arg("X")])],
        },
    };
    let d = PalletDeclaration::declare(&item("A", &["#[x]"]), &given, Some(ident("Y")));
    assert_eq!(d.instance, Some(ident("Y")));
    assert_eq!(
        d.path,
        Path { leading_colon: true, segments: vec![plain("a"), plain("b")] }
    );
    let d = PalletDeclaration::declare(&item("A", &["#[x]"]), &given, None);
    assert_eq!(d.instance, None);
    assert_eq!(d.path, given.path);
}
