use srgn::actions::replace::Replacement;
use srgn::actions::{Action, ActionError};
use srgn::ranges::{ByteRange, Ranges};
use srgn::scoping::regex::CaptureGroup;
use srgn::scoping::scope::{CaptureBindings, RangesWithContext, ScopeContext, Scoper};
use srgn::scoping::view::{
    ApplyError, ContextConflict, Fragment, ScopedView, ScopedViewBuilder, Status,
};
use srgn::stages::{LowerStage, UpperStage};

/// A scoper that finds what it was told to find.
struct Fixed(Vec<(usize, usize, Option<Vec<(CaptureGroup, String)>>)>);

impl Scoper for Fixed {
    fn scope_raw(&self, _input: &str) -> RangesWithContext {
        found(&self.0)
    }
}

fn found(ranges: &[(usize, usize, Option<Vec<(CaptureGroup, String)>>)]) -> RangesWithContext {
    let mut found = RangesWithContext::new();
    for (start, end, groups) in ranges {
        let context = groups.as_ref().map(|groups| {
            let mut bindings = CaptureBindings::new();
            for (group, text) in groups {
                bindings.insert(group.clone(), text.clone(), ByteRange::new(*start, *end));
            }
            ScopeContext::CaptureGroups(bindings)
        });
        found.push(ByteRange::new(*start, *end), context);
    }
    found
}

fn plain(ranges: &[(usize, usize)]) -> RangesWithContext {
    found(&ranges.iter().map(|&(start, end)| (start, end, None)).collect::<Vec<_>>())
}

fn parts(view: &ScopedView) -> Vec<(usize, usize, String, Status)> {
    (0..view.len())
        .map(|index| {
            let Fragment { range, content, status, .. } = view.get(index);
            (range.start, range.end, content.clone(), *status)
        })
        .collect()
}

fn part(start: usize, end: usize, content: &str, status: Status) -> (usize, usize, String, Status) {
    (start, end, content.to_owned(), status)
}

#[test]
fn the_whole_input_starts_in_scope() {
    let view = ScopedViewBuilder::new("hello").build();
    assert_eq!(parts(&view), vec![part(0, 5, "hello", Status::InScope)]);
    assert_eq!(view.to_string(), "hello");
    assert!(view.has_any_in_scope());
}

#[test]
fn an_empty_input_has_no_parts() {
    let mut view = ScopedViewBuilder::new("").build();
    assert_eq!(view.len(), 0);
    assert!(!view.has_any_in_scope());
    view.map(&Replacement::try_from("x".to_owned()).unwrap()).unwrap();
    assert_eq!(view.to_string(), "");
}

#[test]
fn exploding_cuts_the_input_into_parts() {
    let mut builder = ScopedViewBuilder::new("hello world!");
    assert_eq!(builder.explode_with(plain(&[(0, 5), (6, 11)])), Ok(()));
    let view = builder.build();
    assert_eq!(
        parts(&view),
        vec![
            part(0, 5, "hello", Status::InScope),
            part(5, 6, " ", Status::OutOfScope),
            part(6, 11, "world", Status::InScope),
            part(11, 12, "!", Status::OutOfScope),
        ]
    );
    assert_eq!(view.to_string(), "hello world!");
}

#[test]
fn scopers_narrow_one_another() {
    let mut builder = ScopedViewBuilder::new("0123456789");
    builder.explode(&Fixed(vec![(2, 8, None)])).unwrap();
    builder.explode(&Fixed(vec![(0, 4, None), (6, 10, None)])).unwrap();
    let view = builder.build();
    assert_eq!(
        parts(&view),
        vec![
            part(0, 2, "01", Status::OutOfScope),
            part(2, 4, "23", Status::InScope),
            part(4, 6, "45", Status::OutOfScope),
            part(6, 8, "67", Status::InScope),
            part(8, 10, "89", Status::OutOfScope),
        ]
    );
    assert_eq!(view.to_string(), "0123456789");
}

#[test]
fn touching_ranges_stay_separate_parts() {
    let mut builder = ScopedViewBuilder::new("aabb");
    builder.explode_with(plain(&[(0, 2), (2, 4)])).unwrap();
    let view = builder.build();
    assert_eq!(
        parts(&view),
        vec![part(0, 2, "aa", Status::InScope), part(2, 4, "bb", Status::InScope)]
    );
}

#[test]
fn nothing_found_puts_everything_out_of_scope() {
    let mut builder = ScopedViewBuilder::new("ab");
    builder.explode_with(plain(&[])).unwrap();
    let mut view = builder.build();
    assert_eq!(parts(&view), vec![part(0, 2, "ab", Status::OutOfScope)]);
    assert!(!view.has_any_in_scope());
    view.map(&UpperStage::default()).unwrap();
    assert_eq!(view.to_string(), "ab");
}

#[test]
fn a_scope_is_checked_against_the_input() {
    assert!(plain(&[(0, 2), (2, 3)]).is_scope_of("äb"));
    assert!(!plain(&[(0, 1)]).is_scope_of("äb"));
    assert!(!plain(&[(0, 4)]).is_scope_of("äb"));
    assert!(!plain(&[(2, 2)]).is_scope_of("äb"));
    assert!(!plain(&[(2, 3), (0, 2)]).is_scope_of("äb"));
    assert!(!plain(&[(0, 3), (2, 3)]).is_scope_of("äb"));
}

#[test]
fn actions_apply_to_what_is_in_scope_only() {
    let mut builder = ScopedViewBuilder::new("hello world!");
    builder.explode_with(plain(&[(6, 11)])).unwrap();
    let mut view = builder.build();
    assert_eq!(view.map(&UpperStage::default()), Ok(()));
    assert_eq!(view.to_string(), "hello WORLD!");
    assert_eq!(
        parts(&view),
        vec![
            part(0, 6, "hello ", Status::OutOfScope),
            part(6, 11, "WORLD", Status::InScope),
            part(11, 12, "!", Status::OutOfScope),
        ]
    );
}

#[test]
fn actions_apply_one_after_another() {
    let mut builder = ScopedViewBuilder::new("Hello World");
    builder.explode_with(plain(&[(0, 5)])).unwrap();
    let mut view = builder.build();
    let actions: Vec<Box<dyn Action>> = vec![
        Box::new(UpperStage::default()),
        Box::new(LowerStage::default()),
    ];
    assert_eq!(view.apply(&actions), Ok(()));
    assert_eq!(view.to_string(), "hello World");
}

#[test]
fn no_actions_change_nothing() {
    let mut view = ScopedViewBuilder::new("Hello").build();
    assert_eq!(view.apply(&[]), Ok(()));
    assert_eq!(view.to_string(), "Hello");
}

#[test]
fn replacement_takes_what_the_match_has_captured() {
    let named = |name: &str| CaptureGroup::Named(name.to_owned());
    let mut builder = ScopedViewBuilder::new("a=1, b=2");
    builder
        .explode_with(found(&[
            (
                0,
                3,
                Some(vec![(named("key"), "a".to_owned()), (named("value"), "1".to_owned())]),
            ),
            (
                5,
                8,
                Some(vec![(named("key"), "b".to_owned()), (named("value"), "2".to_owned())]),
            ),
        ]))
        .unwrap();
    let mut view = builder.build();
    let replacement = Replacement::try_from("${value}=$key".to_owned()).unwrap();
    assert_eq!(view.map(&replacement), Ok(()));
    assert_eq!(view.to_string(), "1=a, 2=b");
}

#[test]
fn a_missing_group_fails_and_leaves_the_view_as_it_was() {
    let named = |name: &str| CaptureGroup::Named(name.to_owned());
    let mut builder = ScopedViewBuilder::new("ab");
    builder
        .explode_with(found(&[
            (0, 1, Some(vec![(named("x"), "a".to_owned())])),
            (1, 2, Some(vec![(named("y"), "b".to_owned())])),
        ]))
        .unwrap();
    let mut view = builder.build();
    let actions: Vec<Box<dyn Action>> = vec![
        Box::new(UpperStage::default()),
        Box::new(Replacement::try_from("<$x>".to_owned()).unwrap()),
        Box::new(LowerStage::default()),
    ];
    assert_eq!(
        view.apply(&actions),
        Err(ApplyError {
            action: 1,
            fragment: 1,
            cause: ActionError::MissingCaptureGroup {
                missing: named("x"),
                available: vec![named("y")],
            },
        })
    );
    assert_eq!(view.to_string(), "AB");
}

#[test]
fn without_context_a_replacement_is_its_template() {
    let mut builder = ScopedViewBuilder::new("hyphenated-variable-name");
    builder.explode_with(plain(&[(10, 11), (19, 20)])).unwrap();
    let mut view = builder.build();
    view.map(&Replacement::try_from("_".to_owned()).unwrap()).unwrap();
    assert_eq!(view.to_string(), "hyphenated_variable_name");
}

#[test]
fn only_one_scoper_may_bring_contexts() {
    let group = CaptureGroup::Numbered(0);
    let mut builder = ScopedViewBuilder::new("abcd");
    assert_eq!(
        builder.explode_with(found(&[(0, 2, Some(vec![(group.clone(), "ab".to_owned())]))])),
        Ok(())
    );
    assert_eq!(
        builder.explode_with(found(&[(1, 3, Some(vec![(group.clone(), "bc".to_owned())]))])),
        Err(ContextConflict)
    );
    assert_eq!(builder.explode_with(plain(&[(1, 3)])), Ok(()));
    let mut view = builder.build();
    view.map(&Replacement::try_from("<$0>".to_owned()).unwrap()).unwrap();
    assert_eq!(view.to_string(), "a<ab>cd");
}

#[test]
fn contexts_come_from_whichever_scoper_brings_them() {
    let group = CaptureGroup::Numbered(0);
    let mut builder = ScopedViewBuilder::new("abcd");
    builder.explode_with(plain(&[(1, 4)])).unwrap();
    builder
        .explode_with(found(&[(0, 2, Some(vec![(group.clone(), "ab".to_owned())]))]))
        .unwrap();
    let view = builder.build();
    let contexts: Vec<bool> = (0..view.len()).map(|k| view.get(k).context.is_some()).collect();
    assert_eq!(contexts, vec![false, true, false]);
}

#[test]
fn views_of_non_ascii_text() {
    let mut builder = ScopedViewBuilder::new("aäß🦀");
    builder.explode_with(plain(&[(1, 5)])).unwrap();
    let mut view = builder.build();
    view.map(&UpperStage::default()).unwrap();
    assert_eq!(view.to_string(), "aÄẞ🦀");
}

#[test]
fn ranges_convert_to_a_scope_without_contexts() {
    let ranges = Ranges::from_vec(vec![ByteRange::new(0, 1), ByteRange::new(2, 3)]);
    let found = RangesWithContext::from_ranges(&ranges);
    assert_eq!(found.len(), 2);
    assert!(!found.brings_context());
    assert_eq!(found.ranges(), ranges);
    assert_eq!(found.get(1).range, ByteRange::new(2, 3));
}
