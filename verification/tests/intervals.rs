use gritql::intervals::{
    earliest_deadline_sort, get_top_level_intervals, get_top_level_intervals_in_range,
    pop_out_of_range_intervals, Effect, EffectKind, EffectRange, Interval,
};

#[derive(Clone, Debug)]
struct TestEffect {
    interval: (u32, u32),
}

impl TestEffect {
    fn new(interval: (u32, u32)) -> Self {
        Self { interval }
    }
}

impl Interval for TestEffect {
    fn span(&self) -> (u32, u32) {
        self.interval
    }

    fn interval(&self) -> (u32, u32) {
        self.interval
    }
}

impl From<(u32, u32)> for TestEffect {
    fn from(interval: (u32, u32)) -> Self {
        Self::new(interval)
    }
}

fn vec_into(v: &[(u32, u32)]) -> Vec<TestEffect> {
    v.iter().map(|e| TestEffect::from(*e)).collect()
}

fn vec_back<T>(v: &[T]) -> Vec<(u32, u32)>
where
    T: Interval,
{
    v.iter().map(|e| e.interval()).collect()
}

#[test]
fn test_simple() {
    let mut list = vec_into(&[(0, 1), (1, 2), (2, 3), (3, 4)]);
    assert!(earliest_deadline_sort(&mut list));
    let list = get_top_level_intervals(list);
    println!("{:?}", vec_back(&list));
}

#[test]
fn test_reverse() {
    let mut list = vec_into(&[(3, 4), (2, 3), (1, 2), (0, 1)]);
    assert!(earliest_deadline_sort(&mut list));
    let list = get_top_level_intervals(list);
    println!("{:?}", vec_back(&list));
}

#[test]
fn test_nested_left() {
    let mut list = vec_into(&[(0, 1), (0, 2), (0, 3), (0, 4)]);
    assert!(earliest_deadline_sort(&mut list));
    let list = get_top_level_intervals(list);
    println!("{:?}", vec_back(&list));
    assert!(vec_back(&list) == vec![(0, 4)])
}

#[test]
fn test_nested_right() {
    let mut list = vec_into(&[(1, 5), (2, 5), (3, 5), (4, 5)]);
    assert!(earliest_deadline_sort(&mut list));
    let list = get_top_level_intervals(list);
    println!("{:?}", vec_back(&list));
    assert!(vec_back(&list) == vec![(1, 5)])
}

#[test]
fn overlapping_intervals() {
    let mut list = vec_into(&[(0, 1), (0, 2), (1, 2), (1, 3)]);
    assert!(!earliest_deadline_sort(&mut list));
}

#[test]
fn another_overlap() {
    let mut list = vec_into(&[(0, 1), (0, 2), (1, 2), (1, 3), (2, 3), (2, 4)]);
    assert!(!earliest_deadline_sort(&mut list));
}

#[test]
fn multiple_top_level_intervals() {
    let mut list = vec_into(&[(0, 1), (2, 5), (0, 2), (2, 4), (3, 4), (1, 2), (2, 3)]);
    assert!(earliest_deadline_sort(&mut list));
    let list = get_top_level_intervals(list);
    println!("{:?}", vec_back(&list));
    assert!(vec_back(&list) == vec![(2, 5), (0, 2)])
}

#[test]
fn sort_orders_by_end_then_start_descending() {
    let mut list = vec_into(&[(0, 4), (3, 4), (1, 2), (0, 2)]);
    assert!(earliest_deadline_sort(&mut list));
    assert_eq!(vec_back(&list), vec![(1, 2), (0, 2), (3, 4), (0, 4)]);
}

#[derive(Debug)]
struct Tagged(u32, u32, char);

impl Interval for Tagged {
    fn span(&self) -> (u32, u32) {
        (self.0, self.1)
    }

    fn interval(&self) -> (u32, u32) {
        (self.0, self.1)
    }
}

#[test]
fn sort_is_stable_for_equal_spans() {
    let mut list = vec![Tagged(0, 2, 'a'), Tagged(0, 1, 'b'), Tagged(0, 2, 'c'), Tagged(0, 2, 'd')];
    assert!(earliest_deadline_sort(&mut list));
    let tags: Vec<char> = list.iter().map(|t| t.2).collect();
    assert_eq!(tags, vec!['b', 'a', 'c', 'd']);
}

#[test]
fn sort_of_crossing_spans_separated_by_a_neighbour_passes_the_check() {
    // (0, 2) and (1, 3) cross, but they are not neighbours after sorting.
    let mut list = vec_into(&[(0, 2), (2, 3), (1, 3)]);
    assert!(earliest_deadline_sort(&mut list));
    let top = get_top_level_intervals(list);
    assert_eq!(vec_back(&top), vec![(1, 3)]);
}

#[test]
fn empty_and_single_lists_sort_fine() {
    let mut empty: Vec<TestEffect> = vec![];
    assert!(earliest_deadline_sort(&mut empty));
    assert!(get_top_level_intervals(empty).is_empty());
    let mut one = vec_into(&[(4, 7)]);
    assert!(earliest_deadline_sort(&mut one));
    assert_eq!(vec_back(&get_top_level_intervals(one)), vec![(4, 7)]);
}

#[test]
fn ranges_are_intervals() {
    let mut list = vec![3u32..5, 0..1, 1..5];
    assert!(earliest_deadline_sort(&mut list));
    assert_eq!(list, vec![0..1, 3..5, 1..5]);
}

fn effect_range(start: u32, end: u32, kind: EffectKind, tag: u32) -> EffectRange<u32, ()> {
    EffectRange {
        range: start..end,
        effect: Effect {
            binding: tag,
            pattern: (),
            kind,
        },
    }
}

#[test]
fn top_level_in_range_keeps_inserts_and_stops_left_of_range() {
    let effects = vec![
        effect_range(0, 2, EffectKind::Rewrite, 0),
        effect_range(3, 4, EffectKind::Rewrite, 1),
        effect_range(5, 5, EffectKind::Insert, 2),
        effect_range(4, 6, EffectKind::Rewrite, 3),
        effect_range(3, 7, EffectKind::Rewrite, 4),
    ];
    let top = get_top_level_intervals_in_range(effects, 3, 8);
    let tags: Vec<u32> = top.iter().map(|e| e.effect.binding).collect();
    assert_eq!(tags, vec![4, 2]);

    let effects = vec![
        effect_range(0, 2, EffectKind::Rewrite, 0),
        effect_range(3, 4, EffectKind::Rewrite, 1),
        effect_range(5, 5, EffectKind::Insert, 2),
        effect_range(4, 6, EffectKind::Rewrite, 3),
    ];
    let top = get_top_level_intervals_in_range(effects, 3, 8);
    let tags: Vec<u32> = top.iter().map(|e| e.effect.binding).collect();
    assert_eq!(tags, vec![3, 2, 1]);
}

#[test]
fn pop_out_of_range_stops_at_first_earlier_start() {
    let mut stack = vec![0u32..10, 2..3, 6..9, 7..8];
    pop_out_of_range_intervals(&(4u32..6), &mut stack);
    assert_eq!(stack, vec![0..10, 2..3]);
    let mut stack = vec![5u32..6, 1..2];
    pop_out_of_range_intervals(&(0u32..3), &mut stack);
    assert_eq!(stack, vec![5..6, 1..2]);
    let mut stack = vec![5u32..6, 7..9];
    pop_out_of_range_intervals(&(0u32..3), &mut stack);
    assert!(stack.is_empty());
}
