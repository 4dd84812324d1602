use visionmagic::aggregation::Processor;
use visionmagic::color::Color;
use visionmagic::input::{Cluster, Input};
use visionmagic::params::Params;

fn cluster(indices: Vec<u32>) -> Cluster {
    Cluster { indices, color: Color::new(9, 9, 9) }
}

fn grid(width: u32, height: u32, lists: Vec<Vec<u32>>) -> Input {
    Input {
        width,
        height,
        cluster_indices: vec![0; (width * height) as usize],
        clusters: lists.into_iter().map(cluster).collect(),
    }
}

#[test]
fn a_partition_is_accepted() {
    let input = grid(2, 2, vec![vec![3, 0], vec![1], vec![2]]);
    assert!(input.owners().is_some());
    let mut stage = Processor::new();
    assert!(stage.input(input));
    assert_eq!((stage.width(), stage.height()), (2, 2));
    assert_eq!(stage.len(), 4);
    assert_eq!(stage.steps(), 0);
    assert!(!stage.started());
    assert!(!stage.done());
    assert_eq!(stage.get_agg(0).area(), 0);
    assert_eq!(stage.get_agg(0).color(), Color { r: 0, g: 0, b: 0, a: 255 });
    assert_eq!(stage.get_agg(1).indices(), &vec![3, 0]);
    assert_eq!(stage.get_agg(2).indices(), &vec![1]);
    assert_eq!(stage.get_agg(3).indices(), &vec![2]);
    assert_eq!(stage.get_agg(1).color(), Color::new(9, 9, 9));
    assert_eq!((0..4).map(|p| stage.owner(p)).collect::<Vec<_>>(), vec![1, 2, 3, 1]);
}

#[test]
fn owners_are_one_more_than_the_cluster() {
    let input = grid(3, 1, vec![vec![2], vec![], vec![0, 1]]);
    assert_eq!(input.owners(), Some(vec![3, 3, 1]));
}

#[test]
fn an_empty_grid_is_a_partition() {
    let mut stage = Processor::new();
    assert!(stage.input(grid(0, 0, vec![])));
    assert_eq!(stage.len(), 1);
    assert!(stage.done());
    assert!(stage.tick(|_, _| 0));
    let image = stage.output();
    assert_eq!((image.width, image.height), (0, 0));
    assert!(image.pixels.is_empty());
}

#[test]
fn a_flat_index_of_the_wrong_length_is_refused() {
    let mut input = grid(2, 2, vec![vec![0, 1, 2, 3]]);
    input.cluster_indices.pop();
    assert!(input.owners().is_none());
    let mut input = grid(2, 2, vec![vec![0, 1, 2, 3]]);
    input.cluster_indices.push(0);
    assert!(!Processor::new().input(input));
}

#[test]
fn a_pixel_outside_the_grid_is_refused() {
    assert!(grid(2, 2, vec![vec![0, 1, 2, 3, 4]]).owners().is_none());
    assert!(!Processor::new().input(grid(2, 2, vec![vec![0, 1, 2], vec![4]])));
}

#[test]
fn a_pixel_listed_twice_is_refused() {
    assert!(!Processor::new().input(grid(2, 2, vec![vec![0, 1, 2, 3, 1]])));
    assert!(!Processor::new().input(grid(2, 2, vec![vec![0, 1, 2, 3], vec![3]])));
}

#[test]
fn a_pixel_left_out_is_refused() {
    assert!(!Processor::new().input(grid(2, 2, vec![vec![0, 1], vec![3]])));
    assert!(!Processor::new().input(grid(2, 2, vec![])));
}

#[test]
fn a_refused_input_leaves_the_stage_as_it_was() {
    let mut stage = Processor::new();
    stage.config(Params { deviation: 5, min_size: 7 });
    assert!(stage.input(grid(2, 1, vec![vec![0], vec![1]])));
    assert!(!stage.step(&vec![0]));
    assert!(!stage.input(grid(2, 2, vec![vec![0, 1], vec![3]])));
    assert_eq!((stage.width(), stage.height()), (2, 1));
    assert_eq!(stage.len(), 3);
    assert_eq!(stage.steps(), 1);
    assert_eq!(stage.params(), Params { deviation: 5, min_size: 7 });
    assert_eq!(stage.get_agg(2).indices(), &vec![1, 0]);
}

#[test]
fn a_new_input_replaces_the_old_and_restarts() {
    let mut stage = Processor::new();
    stage.config(Params { deviation: 5, min_size: 64 });
    assert!(stage.input(grid(2, 1, vec![vec![0], vec![1]])));
    assert!(!stage.step(&vec![0]));
    assert!(stage.started());
    assert!(stage.input(grid(1, 3, vec![vec![0, 1, 2]])));
    assert!(!stage.started());
    assert_eq!(stage.len(), 2);
    assert_eq!((stage.width(), stage.height()), (1, 3));
    assert_eq!(stage.params(), Params { deviation: 5, min_size: 64 });
    assert_eq!(stage.get_agg(1).indices(), &vec![0, 1, 2]);
}

#[test]
fn a_stage_that_was_not_fed_is_done() {
    let mut stage = Processor::new();
    assert_eq!(stage.len(), 0);
    assert!(stage.done());
    assert!(stage.tick(|_, _| 0));
    assert!(stage.step(&vec![]));
    assert!(!stage.started());
    assert_eq!(stage.params(), Params::default());
    assert_eq!(stage.progress(), 100);
}

#[test]
fn config_sets_the_thresholds_before_the_first_step() {
    let mut stage = Processor::default();
    assert!(stage.config(Params { deviation: 1, min_size: 2 }));
    assert_eq!(stage.params(), Params { deviation: 1, min_size: 2 });
    assert!(stage.input(grid(2, 1, vec![vec![0], vec![1]])));
    assert!(stage.config(Params { deviation: 3, min_size: 4 }));
    assert_eq!(stage.params(), Params { deviation: 3, min_size: 4 });
    assert_eq!(stage.len(), 3);
}
