use visionmagic::aggregation::Processor;
use visionmagic::color::Color;
use visionmagic::input::{Cluster, Input};
use visionmagic::params::Params;

/// A 3 x 3 grid of single pixels, aggregate `p + 1` on pixel `p`.
fn singles() -> Input {
    Input {
        width: 3,
        height: 3,
        cluster_indices: vec![0; 9],
        clusters: (0..9)
            .map(|p| Cluster { indices: vec![p], color: Color::new(p as u8, 0, 0) })
            .collect(),
    }
}

fn fed(params: Params, input: Input) -> Processor {
    let mut stage = Processor::new();
    stage.config(params);
    assert!(stage.input(input));
    stage
}

#[test]
fn the_least_score_wins() {
    let mut stage = fed(Params { deviation: 0, min_size: 32 }, singles());
    assert_eq!(stage.candidates(), vec![2, 4]);
    assert!(!stage.step(&vec![9, 3]));
    assert_eq!(stage.get_agg(1).area(), 0);
    assert_eq!(stage.get_agg(4).indices(), &vec![3, 0]);
    assert_eq!(stage.owner(0), 4);
}

#[test]
fn equal_scores_go_to_the_lowest_id() {
    let mut stage = fed(Params { deviation: 0, min_size: 32 }, singles());
    assert!(!stage.step(&vec![5, 5]));
    assert_eq!(stage.get_agg(2).indices(), &vec![1, 0]);
    assert_eq!(stage.get_agg(4).indices(), &vec![3]);
    assert_eq!(stage.owner(0), 2);
}

#[test]
fn a_merge_appends_the_pixels_in_order_and_empties_the_source() {
    let input = Input {
        width: 4,
        height: 1,
        cluster_indices: vec![0; 4],
        clusters: vec![
            Cluster { indices: vec![1, 0], color: Color::new(1, 1, 1) },
            Cluster { indices: vec![3, 2], color: Color::new(2, 2, 2) },
        ],
    };
    let mut stage = fed(Params { deviation: 0, min_size: 64 }, input);
    assert!(!stage.step(&vec![0]));
    assert_eq!(stage.get_agg(1).indices(), &Vec::<u32>::new());
    assert_eq!(stage.get_agg(2).indices(), &vec![3, 2, 1, 0]);
    assert_eq!(stage.get_agg(1).color(), Color::new(1, 1, 1));
    assert_eq!(stage.get_agg(2).color(), Color::new(2, 2, 2));
    assert_eq!((0..4).map(|p| stage.owner(p)).collect::<Vec<_>>(), vec![2, 2, 2, 2]);
}

#[test]
fn a_chain_of_merges_carries_the_pixels_along() {
    let mut stage = fed(Params { deviation: 0, min_size: 1024 }, singles());
    assert!(!stage.step(&vec![0, 1]));
    assert_eq!(stage.get_agg(2).indices(), &vec![1, 0]);
    assert_eq!(stage.candidates(), vec![3, 4, 5]);
    assert!(!stage.step(&vec![0, 7, 7]));
    assert_eq!(stage.get_agg(2).area(), 0);
    assert_eq!(stage.get_agg(3).indices(), &vec![2, 1, 0]);
    assert_eq!(stage.candidates(), vec![4, 5, 6]);
    assert!(!stage.step(&vec![0, 0, 0]));
    assert_eq!(stage.get_agg(3).area(), 0);
    assert_eq!(stage.get_agg(4).indices(), &vec![3, 2, 1, 0]);
    assert_eq!(stage.steps(), 3);
    assert_eq!(stage.candidates(), vec![5, 6, 7]);
    assert!(!stage.step(&vec![1, 1, 1]));
    assert_eq!(stage.get_agg(4).area(), 0);
    assert_eq!(stage.get_agg(5).indices(), &vec![4, 3, 2, 1, 0]);
}

#[test]
fn an_aggregate_of_two_pixels_is_not_tiny_at_a_minimum_size_of_32() {
    let mut stage = fed(Params { deviation: 0, min_size: 32 }, singles());
    assert!(!stage.step(&vec![0, 1]));
    assert_eq!(stage.get_agg(2).indices(), &vec![1, 0]);
    assert!(!stage.step(&vec![0, 7, 7]));
    assert_eq!(stage.get_agg(2).indices(), &vec![1, 0]);
    assert_eq!(stage.get_agg(3).indices(), &vec![2]);
}

#[test]
fn an_aggregate_without_pixels_is_passed_over() {
    let mut emptied = fed(Params { deviation: 0, min_size: 0 }, Input {
        width: 2,
        height: 1,
        cluster_indices: vec![0; 2],
        clusters: vec![
            Cluster { indices: vec![], color: Color::new(0, 0, 0) },
            Cluster { indices: vec![0, 1], color: Color::new(0, 0, 0) },
        ],
    });
    assert!(emptied.candidates().is_empty());
    assert!(!emptied.tick(|_, _| -1));
    assert_eq!(emptied.steps(), 1);
    assert_eq!(emptied.get_agg(1).area(), 0);
    assert_eq!(emptied.get_agg(2).indices(), &vec![0, 1]);
    assert!(!emptied.tick(|_, _| -1));
    assert!(emptied.tick(|_, _| -1));
}

#[test]
fn a_later_aggregate_sees_the_partition_after_earlier_merges() {
    let mut stage = fed(Params { deviation: 0, min_size: 32 }, singles());
    assert!(!stage.step(&vec![0, 1]));
    assert_eq!(stage.candidates(), vec![3, 4, 5]);
}

#[test]
fn the_cursor_visits_every_aggregate_once() {
    let mut stage = fed(Params { deviation: 0, min_size: 0 }, singles());
    let mut visited = Vec::new();
    while !stage.done() {
        visited.push(stage.steps() + 1);
        let scores = vec![0; stage.candidates().len()];
        assert!(!stage.step(&scores));
        assert!(stage.started());
    }
    assert_eq!(visited, (1..=9).collect::<Vec<_>>());
    assert!(stage.step(&vec![]));
    assert_eq!(stage.steps(), 9);
}

#[test]
fn the_metric_is_asked_for_each_candidate_in_order() {
    let stage_input = singles();
    let mut stage = fed(Params { deviation: 0, min_size: 0 }, stage_input);
    let asked = std::cell::RefCell::new(Vec::new());
    assert!(!stage.tick(|a, b| {
        asked.borrow_mut().push((a.r, b.r));
        0
    }));
    assert_eq!(*asked.borrow(), vec![(0, 1), (0, 3)]);
    asked.borrow_mut().clear();
    assert!(!stage.tick(|a, b| {
        asked.borrow_mut().push((a.r, b.r));
        0
    }));
    assert_eq!(*asked.borrow(), vec![(1, 0), (1, 2), (1, 4)]);
}

#[test]
fn progress_is_always_full() {
    let mut stage = fed(Params::default(), singles());
    assert_eq!(stage.progress(), 100);
    stage.tick(|_, _| 0);
    assert_eq!(stage.progress(), 100);
    while !stage.tick(|_, _| 0) {}
    assert_eq!(stage.progress(), 100);
}
