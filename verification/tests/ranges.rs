use srgn::ranges::{ByteRange, Ranges};

fn ranges(pairs: &[(usize, usize)]) -> Ranges {
    Ranges::from_vec(pairs.iter().map(|&(start, end)| ByteRange::new(start, end)).collect())
}

fn merged(pairs: &[(usize, usize)]) -> Ranges {
    let mut set = ranges(pairs);
    set.merge();
    set
}

fn pairs(ranges: &Ranges) -> Vec<(usize, usize)> {
    ranges.to_vec().iter().map(|range| (range.start, range.end)).collect()
}

const SAMPLES: [&[(usize, usize)]; 8] = [
    &[],
    &[(0, 10)],
    &[(3, 3)],
    &[(8, 10), (0, 2), (2, 4), (3, 5), (7, 7)],
    &[(1, 2), (3, 4), (5, 6)],
    &[(0, 4), (1, 2), (2, 9), (9, 10)],
    &[(5, 1), (6, 7)],
    &[(4, 6), (4, 5), (0, 1), (4, 8)],
];

#[test]
fn byte_ranges() {
    assert_eq!(ByteRange::new(2, 5).len(), 3);
    assert_eq!(ByteRange::new(5, 2).len(), 0);
    assert!(!ByteRange::new(2, 5).is_empty());
    assert!(ByteRange::new(2, 2).is_empty());
    assert!(ByteRange::new(5, 2).is_empty());
}

#[test]
fn holding_ranges() {
    let mut set = Ranges::new();
    assert!(set.is_empty());
    set.push(ByteRange::new(1, 2));
    set.push(ByteRange::new(0, 1));
    assert_eq!(set.len(), 2);
    assert_eq!(set.get(1), ByteRange::new(0, 1));
    assert_eq!(pairs(&set.clone()), vec![(1, 2), (0, 1)]);
}

#[test]
fn merge_joins_overlapping_and_touching_ranges() {
    assert_eq!(pairs(&merged(&[(8, 10), (0, 2), (2, 4), (3, 5), (7, 7)])), vec![(0, 5), (8, 10)]);
    assert_eq!(pairs(&merged(&[(1, 2), (3, 4)])), vec![(1, 2), (3, 4)]);
    assert_eq!(pairs(&merged(&[(0, 4), (1, 2)])), vec![(0, 4)]);
    assert_eq!(pairs(&merged(&[])), vec![]);
}

#[test]
fn merge_leaves_out_what_covers_nothing() {
    assert_eq!(pairs(&merged(&[(3, 3)])), vec![]);
    assert_eq!(pairs(&merged(&[(5, 1), (6, 7)])), vec![(6, 7)]);
}

#[test]
fn merge_is_idempotent_and_leaves_no_two_ranges_overlapping_or_touching() {
    for sample in SAMPLES {
        let once = merged(sample);
        let mut twice = once.clone();
        twice.merge();
        assert_eq!(twice, once);
        assert!(once.is_normalized());
        for pair in pairs(&once).windows(2) {
            assert!(pair[0].1 < pair[1].0);
        }
    }
}

#[test]
fn telling_normal_form() {
    assert!(ranges(&[]).is_normalized());
    assert!(ranges(&[(0, 1), (2, 3)]).is_normalized());
    assert!(!ranges(&[(0, 1), (1, 3)]).is_normalized());
    assert!(!ranges(&[(2, 3), (0, 1)]).is_normalized());
    assert!(!ranges(&[(0, 0)]).is_normalized());
    assert!(!ranges(&[(0, 2), (1, 3)]).is_normalized());
}

#[test]
fn subtract_takes_out_what_the_other_covers() {
    let a = ranges(&[(0, 10), (20, 30)]);
    assert_eq!(pairs(&a.subtract(&ranges(&[(2, 4), (8, 22), (29, 40)]))), vec![(0, 2), (4, 8), (22, 29)]);
    assert_eq!(pairs(&a.subtract(&ranges(&[]))), vec![(0, 10), (20, 30)]);
    assert_eq!(pairs(&a.subtract(&a)), vec![]);
    assert_eq!(pairs(&ranges(&[]).subtract(&a)), vec![]);
    assert_eq!(pairs(&a.subtract(&ranges(&[(10, 20)]))), vec![(0, 10), (20, 30)]);
    assert_eq!(
        pairs(&ranges(&[(0, usize::MAX)]).subtract(&ranges(&[(1, usize::MAX - 1)]))),
        vec![(0, 1), (usize::MAX - 1, usize::MAX)]
    );
}

#[test]
fn intersect_keeps_what_both_cover() {
    let a = ranges(&[(0, 10), (20, 30)]);
    assert_eq!(
        pairs(&a.intersect(&ranges(&[(2, 4), (8, 22), (29, 40)]))),
        vec![(2, 4), (8, 10), (20, 22), (29, 30)]
    );
    assert_eq!(pairs(&a.intersect(&ranges(&[(10, 20)]))), vec![]);
    assert_eq!(pairs(&a.intersect(&a)), vec![(0, 10), (20, 30)]);
}

#[test]
fn what_is_left_and_what_is_shared_make_up_the_whole() {
    for left in SAMPLES {
        for right in SAMPLES {
            let a = merged(left);
            let b = merged(right);
            let mut both = a.subtract(&b).to_vec();
            both.extend(a.intersect(&b).to_vec());
            let mut both = Ranges::from_vec(both);
            both.merge();
            assert_eq!(both, a);
        }
    }
}

#[test]
fn invert_gives_the_gaps() {
    assert_eq!(pairs(&ranges(&[(2, 4), (6, 8)]).invert(10)), vec![(0, 2), (4, 6), (8, 10)]);
    assert_eq!(pairs(&ranges(&[(0, 4), (6, 10)]).invert(10)), vec![(4, 6)]);
    assert_eq!(pairs(&ranges(&[(6, 8), (2, 4), (3, 7)]).invert(10)), vec![(0, 2), (8, 10)]);
}

#[test]
fn invert_at_the_edges() {
    assert_eq!(pairs(&ranges(&[]).invert(10)), vec![(0, 10)]);
    assert_eq!(pairs(&ranges(&[(0, 10)]).invert(10)), vec![]);
    assert_eq!(pairs(&ranges(&[(0, 4), (4, 10)]).invert(10)), vec![]);
    assert_eq!(pairs(&ranges(&[]).invert(0)), vec![]);
    assert_eq!(pairs(&ranges(&[(2, 4)]).invert(0)), vec![]);
    assert_eq!(pairs(&ranges(&[(2, 20)]).invert(10)), vec![(0, 2)]);
    assert_eq!(pairs(&ranges(&[(12, 20)]).invert(10)), vec![(0, 10)]);
}

#[test]
fn inverting_twice_gives_back_what_was_merged() {
    for sample in SAMPLES {
        let set = ranges(sample);
        assert_eq!(set.invert(10).invert(10), merged(sample));
    }
}
