use visionmagic::aggregation::Processor;
use visionmagic::color::Color;
use visionmagic::input::{Cluster, Input};
use visionmagic::params::Params;

fn singles(width: u32, height: u32) -> Input {
    let n = width * height;
    Input {
        width,
        height,
        cluster_indices: vec![0; n as usize],
        clusters: (0..n)
            .map(|p| Cluster { indices: vec![p], color: Color::new(p as u8, 0, 0) })
            .collect(),
    }
}

fn fed(input: Input) -> Processor {
    let mut stage = Processor::new();
    assert!(stage.input(input));
    stage
}

#[test]
fn centre_pixel_has_four_neighbours_in_ascending_order() {
    let stage = fed(singles(3, 3));
    assert_eq!(stage.neighbours_of(5), vec![2, 4, 6, 8]);
}

#[test]
fn corners_have_two_neighbours() {
    let stage = fed(singles(3, 3));
    assert_eq!(stage.neighbours_of(1), vec![2, 4]);
    assert_eq!(stage.neighbours_of(3), vec![2, 6]);
    assert_eq!(stage.neighbours_of(7), vec![4, 8]);
    assert_eq!(stage.neighbours_of(9), vec![6, 8]);
}

#[test]
fn row_ends_do_not_touch_the_next_row() {
    let stage = fed(singles(2, 2));
    assert_eq!(stage.neighbours_of(2), vec![1, 4]);
    assert_eq!(stage.neighbours_of(3), vec![1, 4]);
}

#[test]
fn single_row_and_single_column() {
    let row = fed(singles(4, 1));
    assert_eq!(row.neighbours_of(1), vec![2]);
    assert_eq!(row.neighbours_of(2), vec![1, 3]);
    assert_eq!(row.neighbours_of(4), vec![3]);
    let column = fed(singles(1, 4));
    assert_eq!(column.neighbours_of(1), vec![2]);
    assert_eq!(column.neighbours_of(3), vec![2, 4]);
}

#[test]
fn sentinel_has_no_neighbours_and_is_nobodys_neighbour() {
    let stage = fed(singles(3, 3));
    assert!(stage.neighbours_of(0).is_empty());
    for id in 1..stage.len() {
        let list = stage.neighbours_of(id);
        assert!(!list.contains(&0));
        assert!(!list.contains(&id));
    }
}

#[test]
fn neighbours_are_distinct_however_long_the_border() {
    let c = Color::new(1, 2, 3);
    let input = Input {
        width: 4,
        height: 2,
        cluster_indices: vec![0; 8],
        clusters: vec![
            Cluster { indices: vec![4, 5, 6, 7], color: c },
            Cluster { indices: vec![3, 2], color: c },
            Cluster { indices: vec![0, 1], color: c },
        ],
    };
    let stage = fed(input);
    assert_eq!(stage.neighbours_of(1), vec![2, 3]);
    assert_eq!(stage.neighbours_of(2), vec![1, 3]);
    assert_eq!(stage.neighbours_of(3), vec![1, 2]);
}

#[test]
fn candidates_follow_the_cursor() {
    let mut stage = Processor::new();
    stage.config(Params { deviation: 0, min_size: 0 });
    assert!(stage.input(singles(3, 1)));
    assert_eq!(stage.candidates(), vec![2]);
    assert!(!stage.step(&vec![1_000_000]));
    assert_eq!(stage.candidates(), vec![1, 3]);
    assert!(!stage.step(&vec![1_000_000, 1_000_000]));
    assert_eq!(stage.candidates(), vec![2]);
    assert!(!stage.step(&vec![1_000_000]));
    assert!(stage.candidates().is_empty());
    assert!(stage.step(&vec![]));
}
