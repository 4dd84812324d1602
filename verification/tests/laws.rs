use visionmagic::aggregation::Processor;
use visionmagic::color::Color;
use visionmagic::input::{Cluster, Input};
use visionmagic::params::Params;

fn metric(a: Color, b: Color) -> i32 {
    let d = |x: u8, y: u8| (x as i32 - y as i32).abs();
    40 * (d(a.r, b.r) + d(a.g, b.g) + d(a.b, b.b))
}

/// A 6 x 4 grid cut into nine clusters of areas 1 to 6 with assorted colors.
fn patchwork() -> Input {
    let lists: Vec<Vec<u32>> = vec![
        vec![0, 1, 6, 7],
        vec![2],
        vec![3, 4, 5, 9, 10, 11],
        vec![8],
        vec![12, 18],
        vec![13, 14, 19],
        vec![15, 16, 17],
        vec![20, 21],
        vec![22, 23],
    ];
    let colors = [
        (10, 10, 10),
        (12, 10, 10),
        (200, 10, 10),
        (11, 11, 11),
        (10, 10, 60),
        (90, 90, 90),
        (201, 11, 10),
        (90, 91, 90),
        (0, 255, 0),
    ];
    Input {
        width: 6,
        height: 4,
        cluster_indices: vec![0; 24],
        clusters: lists
            .into_iter()
            .zip(colors)
            .map(|(indices, (r, g, b))| Cluster { indices, color: Color::new(r, g, b) })
            .collect(),
    }
}

fn fed(params: Params) -> Processor {
    let mut stage = Processor::new();
    stage.config(params);
    assert!(stage.input(patchwork()));
    stage
}

fn areas(stage: &Processor) -> Vec<usize> {
    (0..stage.len()).map(|id| stage.get_agg(id).area()).collect()
}

fn lists(stage: &Processor) -> Vec<Vec<u32>> {
    (0..stage.len()).map(|id| stage.get_agg(id).indices().clone()).collect()
}

fn owners(stage: &Processor) -> Vec<usize> {
    (0..24).map(|p| stage.owner(p)).collect()
}

fn assert_partition(stage: &Processor) {
    assert_eq!(stage.get_agg(0).area(), 0);
    let mut seen = vec![0u32; 24];
    for id in 1..stage.len() {
        for &p in stage.get_agg(id).indices() {
            assert!(p < 24);
            seen[p as usize] += 1;
            assert_eq!(stage.owner(p as usize), id);
        }
    }
    assert_eq!(seen, vec![1; 24]);
    for p in 0..24 {
        assert!(stage.owner(p) != 0);
    }
}

const LOOSE: Params = Params { deviation: 1000, min_size: 32 };

#[test]
fn lists_partition_the_grid_after_every_step() {
    let mut stage = fed(LOOSE);
    assert_partition(&stage);
    let mut steps = 0;
    while !stage.tick(metric) {
        assert_partition(&stage);
        steps += 1;
    }
    assert_partition(&stage);
    assert_eq!(steps, 9);
}

#[test]
fn total_area_is_conserved() {
    let mut stage = fed(LOOSE);
    assert_eq!(areas(&stage).iter().sum::<usize>(), 24);
    while !stage.tick(metric) {
        assert_eq!(areas(&stage).iter().sum::<usize>(), 24);
    }
}

#[test]
fn live_aggregates_never_increase() {
    let mut stage = fed(LOOSE);
    let live = |stage: &Processor| areas(stage).iter().filter(|&&a| a > 0).count();
    let mut before = live(&stage);
    assert_eq!(before, 9);
    let mut merges = 0;
    while !stage.tick(metric) {
        let after = live(&stage);
        assert!(after == before || after + 1 == before);
        merges += before - after;
        before = after;
    }
    assert!(merges > 0);
    assert_eq!(before, 9 - merges);
}

#[test]
fn colors_never_change() {
    let mut stage = fed(LOOSE);
    let colors = |stage: &Processor| -> Vec<Color> {
        (0..stage.len()).map(|id| stage.get_agg(id).color()).collect()
    };
    let before = colors(&stage);
    while !stage.tick(metric) {}
    assert_eq!(colors(&stage), before);
}

#[test]
fn a_finished_run_stays_finished_and_unchanged() {
    let mut stage = fed(LOOSE);
    while !stage.tick(metric) {}
    let (l, o, s) = (lists(&stage), owners(&stage), stage.steps());
    for _ in 0..3 {
        assert!(stage.tick(metric));
        assert!(stage.step(&vec![]));
        assert!(stage.done());
        assert_eq!(lists(&stage), l);
        assert_eq!(owners(&stage), o);
        assert_eq!(stage.steps(), s);
    }
    assert_eq!(s, 9);
}

#[test]
fn equal_runs_paint_equal_rasters() {
    let mut first = fed(LOOSE);
    let mut second = fed(LOOSE);
    while !first.tick(metric) {}
    while !second.tick(|a, b| metric(a, b)) {}
    assert_eq!(lists(&first), lists(&second));
    assert_eq!(owners(&first), owners(&second));
    assert_eq!(first.output().pixels, second.output().pixels);
}

#[test]
fn tick_is_a_step_with_the_scores_of_the_metric() {
    let mut ticked = fed(LOOSE);
    let mut stepped = fed(LOOSE);
    loop {
        let scores: Vec<i32> = if stepped.done() {
            vec![]
        } else {
            let mine = stepped.get_agg(stepped.steps() + 1).color();
            stepped
                .candidates()
                .iter()
                .map(|&id| metric(mine, stepped.get_agg(id).color()))
                .collect()
        };
        let a = ticked.tick(metric);
        let b = stepped.step(&scores);
        assert_eq!(a, b);
        assert_eq!(lists(&ticked), lists(&stepped));
        assert_eq!(owners(&ticked), owners(&stepped));
        if a {
            break;
        }
    }
}

#[test]
fn strict_thresholds_merge_nothing() {
    let mut stage = fed(Params { deviation: 0, min_size: 0 });
    let before = lists(&stage);
    while !stage.tick(metric) {}
    assert_eq!(lists(&stage), before);
}

#[test]
fn patchwork_ends_in_the_expected_partition() {
    // 1 joins 2 (score 80), 2 joins 4 (120), 3 joins 7 (80), 6 joins 8 (40);
    // the closest neighbours of 4, 5, 7, 8 and 9 are 2040 or more away.
    let mut stage = fed(LOOSE);
    while !stage.tick(metric) {}
    assert_eq!(
        lists(&stage),
        vec![
            vec![],
            vec![],
            vec![],
            vec![],
            vec![8, 2, 0, 1, 6, 7],
            vec![12, 18],
            vec![],
            vec![15, 16, 17, 3, 4, 5, 9, 10, 11],
            vec![20, 21, 13, 14, 19],
            vec![22, 23],
        ]
    );
}
