use srgn::actions::replace::Replacement;
use srgn::ranges::ByteRange;
use srgn::scoping::regex::{
    bind, scope_from_matches, CaptureGroup, FoundGroup, InvalidPattern, PatternScoper,
};
use srgn::scoping::scope::{RangesWithContext, ScopeContext, Scoper};
use srgn::scoping::view::ScopedViewBuilder;

fn group(name: Option<&str>, range: Option<(usize, usize)>) -> FoundGroup {
    FoundGroup {
        name: name.map(str::to_owned),
        range: range.map(|(start, end)| ByteRange::new(start, end)),
    }
}

fn listed(found: &RangesWithContext) -> Vec<(usize, usize, Option<Vec<(CaptureGroup, String)>>)> {
    (0..found.len())
        .map(|index| {
            let entry = found.get(index);
            let context = entry.context.as_ref().map(|context| {
                let ScopeContext::CaptureGroups(bindings) = context;
                bindings
                    .groups()
                    .into_iter()
                    .map(|group| {
                        let text = bindings.get(&group).unwrap().text.clone();
                        (group, text)
                    })
                    .collect()
            });
            (entry.range.start, entry.range.end, context)
        })
        .collect()
}

fn replaced(pattern: &str, input: &str, template: &str) -> String {
    let mut builder = ScopedViewBuilder::new(input);
    builder.explode(&PatternScoper::new(pattern).unwrap()).unwrap();
    let mut view = builder.build();
    view.map(&Replacement::try_from(template.to_owned()).unwrap()).unwrap();
    view.to_string()
}

#[test]
fn a_pattern_must_compile() {
    assert!(PatternScoper::new(r"\d+").is_ok());
    let refused = PatternScoper::new(r"foo(bar").unwrap_err();
    assert_eq!(refused.pattern, "foo(bar");
    assert!(matches!(refused, InvalidPattern { cause: regex::Error::Syntax(_), .. }));
}

#[test]
fn matches_without_groups_bring_nothing_with_them() {
    let scoper = PatternScoper::new(r"\d+").unwrap();
    assert_eq!(listed(&scoper.scope_raw("a1b22c")), vec![(1, 2, None), (3, 5, None)]);
}

#[test]
fn matches_with_groups_bring_what_was_captured() {
    let scoper = PatternScoper::new(r"(?<key>\w)=(\d)?").unwrap();
    let named = |name: &str| CaptureGroup::Named(name.to_owned());
    assert_eq!(
        listed(&scoper.scope_raw("a=1, ä=")),
        vec![
            (
                0,
                3,
                Some(vec![
                    (CaptureGroup::Numbered(0), "a=1".to_owned()),
                    (named("key"), "a".to_owned()),
                    (CaptureGroup::Numbered(2), "1".to_owned()),
                ])
            ),
            (
                5,
                8,
                Some(vec![
                    (CaptureGroup::Numbered(0), "ä=".to_owned()),
                    (named("key"), "ä".to_owned()),
                ])
            ),
        ]
    );
}

#[test]
fn empty_matches_put_nothing_in_scope() {
    let scoper = PatternScoper::new(r"x*").unwrap();
    assert_eq!(listed(&scoper.scope_raw("axxb")), vec![(1, 3, None)]);
    assert!(scoper.scope_raw("axxb").is_scope_of("axxb"));
}

#[test]
fn what_is_found_is_taken_only_where_it_fits_the_input() {
    let input = "aäb";
    let matches = vec![
        vec![group(None, Some((0, 1)))],
        vec![group(None, Some((0, 3)))],
        vec![group(None, Some((2, 3)))],
        vec![group(None, Some((1, 1)))],
        vec![],
        vec![group(None, None)],
        vec![group(None, Some((3, 4))), group(Some("n"), Some((3, 9))), group(None, None)],
    ];
    assert_eq!(
        listed(&scope_from_matches(input, &matches)),
        vec![(0, 1, None), (3, 4, Some(vec![(CaptureGroup::Numbered(0), "b".to_owned())]))]
    );
}

#[test]
fn groups_are_bound_by_name_or_else_by_number() {
    let bindings = bind(
        "abc",
        &vec![
            group(None, Some((0, 3))),
            group(Some("first"), Some((0, 1))),
            group(None, None),
            group(None, Some((2, 3))),
        ],
    );
    assert_eq!(
        bindings.groups(),
        vec![
            CaptureGroup::Numbered(0),
            CaptureGroup::Named("first".to_owned()),
            CaptureGroup::Numbered(3)
        ]
    );
    let bound = bindings.get(&CaptureGroup::Numbered(3)).unwrap();
    assert_eq!((bound.text.as_str(), bound.range), ("c", ByteRange::new(2, 3)));
    assert!(bindings.get(&CaptureGroup::Numbered(2)).is_none());
}

#[test]
fn variables_take_what_the_groups_have_captured() {
    assert_eq!(
        replaced(r"(?<var>\w+)@(\w+)", "say Rust@lang!", "Hello $var World"),
        "say Hello Rust World!"
    );
    assert_eq!(replaced(r"(\w)(\w)", "abcd", "$2${1}"), "badc");
    assert_eq!(replaced(r"(\w)(\w)", "abcd", "<$0>"), "<ab><cd>");
    assert_eq!(replaced(r"\w{2}", "abcd", "<$0>"), "<$0><$0>");
}

#[test]
fn a_variable_without_its_group_is_an_error() {
    let mut builder = ScopedViewBuilder::new("ab");
    builder.explode(&PatternScoper::new(r"(?<defined>\w)").unwrap()).unwrap();
    let mut view = builder.build();
    let error = view.map(&Replacement::try_from("$undefined".to_owned()).unwrap()).unwrap_err();
    assert_eq!((error.action, error.fragment), (0, 0));
    assert_eq!(view.to_string(), "ab");
}

#[test]
fn what_a_match_brings_stands_in_the_input() {
    let input = "key=väl, k2=v2";
    let found = PatternScoper::new(r"(?<key>\w+)=(\w+)").unwrap().scope_raw(input);
    assert_eq!(found.len(), 2);
    for index in 0..found.len() {
        let entry = found.get(index);
        let Some(ScopeContext::CaptureGroups(bindings)) = &entry.context else {
            panic!("a match of a pattern with groups brings them with it");
        };
        let groups = bindings.groups();
        assert_eq!(bindings.get(&groups[0]).unwrap().range, entry.range);
        for group in &groups {
            let bound = bindings.get(group).unwrap();
            assert_eq!(bound.text, &input[bound.range.start..bound.range.end]);
        }
    }
}

#[test]
fn a_scoper_can_be_made_of_a_compiled_pattern() {
    let scoper = PatternScoper::from_compiled("a+", regex::Regex::new("a+")).unwrap();
    assert_eq!(listed(&scoper.scope_raw("baab")), vec![(1, 3, None)]);
    let refused = PatternScoper::from_compiled("(", regex::Regex::new("(")).unwrap_err();
    assert_eq!(refused.pattern, "(");
    assert_eq!(refused.cause, regex::Regex::new("(").unwrap_err());
}
