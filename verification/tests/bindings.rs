use srgn::ranges::ByteRange;
use srgn::scoping::regex::CaptureGroup;
use srgn::scoping::scope::{CaptureBindings, ScopeContext};

#[test]
fn capture_groups_are_told_apart_by_kind_and_by_name_or_number() {
    let named = CaptureGroup::Named("1".to_owned());
    let numbered = CaptureGroup::Numbered(1);
    assert!(named.same_as(&CaptureGroup::Named("1".to_owned())));
    assert!(numbered.same_as(&CaptureGroup::Numbered(1)));
    assert!(!named.same_as(&numbered));
    assert!(!numbered.same_as(&CaptureGroup::Numbered(2)));
    assert!(!named.same_as(&CaptureGroup::Named("2".to_owned())));
    assert_eq!(named.clone(), named);
}

#[test]
fn binding_and_looking_up() {
    let mut bindings = CaptureBindings::new();
    assert_eq!(bindings.len(), 0);
    assert!(bindings.get(&CaptureGroup::Numbered(0)).is_none());
    bindings.insert(CaptureGroup::Numbered(0), "whole".to_owned(), ByteRange::new(3, 8));
    bindings.insert(CaptureGroup::Named("part".to_owned()), "ol".to_owned(), ByteRange::new(5, 7));
    bindings.insert(CaptureGroup::Numbered(0), "again".to_owned(), ByteRange::new(0, 5));
    assert_eq!(bindings.len(), 3);
    let found = bindings.get(&CaptureGroup::Numbered(0)).unwrap();
    assert_eq!((found.text.as_str(), found.range), ("again", ByteRange::new(0, 5)));
    let found = bindings.get(&CaptureGroup::Named("part".to_owned())).unwrap();
    assert_eq!((found.text.as_str(), found.range), ("ol", ByteRange::new(5, 7)));
    assert!(bindings.get(&CaptureGroup::Named("0".to_owned())).is_none());
    assert_eq!(bindings.clone(), bindings);
    let context = ScopeContext::CaptureGroups(bindings);
    assert_eq!(context.clone(), context);
}
