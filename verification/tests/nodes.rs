use ruulang::parser::descent::DescendableChildren;
use ruulang::parser::parse_location::{Context, DescentContext, Identifier, IdentifierKind, Parsed};
use ruulang::parser::ruulang_ast::Grant;
use ruulang::utils::with_origin::WithOrigin;

#[test]
fn nodes_are_built_and_rebuilt() {
    let node = Parsed::new(
        "data".to_string(),
        Some((1, 4)),
        Some("file".to_string()),
        Some("doc".to_string()),
    );
    let other = node.as_with_data(7u8.to_string());
    assert_eq!(other.loc, Some((1, 4)));
    assert_eq!(other.file_name, Some("file".to_string()));
    assert_eq!(other.docstring, Some("doc".to_string()));
    assert_eq!(other.data, "7");
    let (swapped, old) = node.into_with_data("new".to_string());
    assert_eq!(old, "data");
    assert_eq!(swapped.data, "new");
    assert_eq!(swapped.loc, Some((1, 4)));
    let (renamed, old_name) = swapped.into_with_filename("other".to_string());
    assert_eq!(old_name, Some("file".to_string()));
    assert_eq!(renamed.file_name, Some("other".to_string()));
    let (undocumented, old_doc) = renamed.into_with_docstring(None);
    assert_eq!(old_doc, Some("doc".to_string()));
    assert_eq!(undocumented.docstring, None);
    assert_eq!(undocumented.data, "new");
    let placed = Parsed::new_at_loc((2, 3), "x".to_string());
    assert_eq!(placed.loc, Some((2, 3)));
    assert_eq!(placed.file_name, None);
    assert_eq!(placed.docstring, None);
    let copy = placed.clone();
    assert_eq!(copy.loc, Some((2, 3)));
    assert_eq!(copy.data, "x");
}

#[test]
fn origins_travel_with_their_values() {
    let tagged = WithOrigin::new(3u32, "a/b".to_string());
    let other = tagged.as_with_data("x");
    assert_eq!(other.origin, "a/b");
    assert_eq!(other.data, "x");
    let mapped = tagged.map(|n| n + 1);
    assert_eq!(mapped.data, 4);
    assert_eq!(mapped.origin, "a/b");
}

#[test]
fn nodes_say_what_they_are_called() {
    let id = Identifier::new("User".to_string(), IdentifierKind::Entity);
    let (context, name) = id.context_and_name();
    assert!(matches!(context, Context::Identifier(i) if i.value == "User"));
    assert_eq!(name, Some("User".to_string()));
    let copy = id.clone();
    assert_eq!(copy.value, "User");
    assert_eq!(copy.kind, IdentifierKind::Entity);
    let grant = Grant::new(vec!["a".to_string(), "b".to_string()]);
    let (context, name) = grant.context_and_name();
    assert!(matches!(context, Context::Grant(_)));
    assert_eq!(name, Some("a.b".to_string()));
    let doc = "d".to_string();
    let step = DescentContext::new(Context::Empty, None, Some(&doc));
    assert!(matches!(step.context, Context::Empty));
    assert_eq!(step.docstring, Some(&doc));
    assert_eq!(step.name, None);
}
