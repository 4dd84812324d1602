use visionmagic::aggregation::Processor;
use visionmagic::color::Color;
use visionmagic::input::{Cluster, Input};
use visionmagic::params::Params;

fn two_by_two() -> Input {
    Input {
        width: 2,
        height: 2,
        cluster_indices: vec![0; 4],
        clusters: vec![
            Cluster { indices: vec![3, 0], color: Color { r: 1, g: 2, b: 3, a: 4 } },
            Cluster { indices: vec![1], color: Color::new(50, 60, 70) },
            Cluster { indices: vec![2], color: Color::new(0, 0, 0) },
        ],
    }
}

fn finished(params: Params, input: Input) -> Processor {
    let mut stage = Processor::new();
    stage.config(params);
    assert!(stage.input(input));
    while !stage.tick(|_, _| 1_000_000) {}
    stage
}

#[test]
fn raster_has_the_color_of_the_owner_of_each_pixel() {
    let mut stage = finished(Params { deviation: 0, min_size: 0 }, two_by_two());
    let image = stage.output();
    assert_eq!(image.width, 2);
    assert_eq!(image.height, 2);
    assert_eq!(
        image.pixels,
        vec![1, 2, 3, 4, 50, 60, 70, 255, 0, 0, 0, 255, 1, 2, 3, 4]
    );
}

#[test]
fn raster_is_read_back_by_coordinates() {
    let mut stage = finished(Params { deviation: 0, min_size: 0 }, two_by_two());
    let image = stage.output();
    let at = |x, y| {
        let c = image.get_pixel(x, y);
        (c.r, c.g, c.b, c.a)
    };
    assert_eq!(at(0, 0), (1, 2, 3, 4));
    assert_eq!(at(1, 0), (50, 60, 70, 255));
    assert_eq!(at(0, 1), (0, 0, 0, 255));
    assert_eq!(at(1, 1), (1, 2, 3, 4));
}

#[test]
fn raster_of_a_wide_grid_keeps_rows_apart() {
    let input = Input {
        width: 3,
        height: 2,
        cluster_indices: vec![0; 6],
        clusters: vec![
            Cluster { indices: vec![0, 1, 2], color: Color::new(9, 8, 7) },
            Cluster { indices: vec![5, 4, 3], color: Color::new(6, 5, 4) },
        ],
    };
    let mut stage = finished(Params { deviation: 0, min_size: 0 }, input);
    let image = stage.output();
    assert_eq!((image.width, image.height), (3, 2));
    assert_eq!(
        image.pixels,
        vec![9, 8, 7, 255, 9, 8, 7, 255, 9, 8, 7, 255, 6, 5, 4, 255, 6, 5, 4, 255, 6, 5, 4, 255]
    );
}

#[test]
fn merged_pixels_take_the_color_of_the_absorbing_aggregate() {
    let mut stage = finished(Params { deviation: 0, min_size: 64 }, two_by_two());
    assert_eq!(stage.get_agg(1).area(), 0);
    assert_eq!(stage.get_agg(2).area(), 0);
    assert_eq!(stage.get_agg(3).indices(), &vec![2, 1, 3, 0]);
    let image = stage.output();
    assert_eq!(image.pixels, vec![0, 0, 0, 255].repeat(4));
}

#[test]
fn output_leaves_the_stage_as_it_is() {
    let mut stage = finished(Params { deviation: 0, min_size: 0 }, two_by_two());
    let first = stage.output().pixels;
    let second = stage.output().pixels;
    assert_eq!(first, second);
    assert_eq!(stage.steps(), 3);
    assert_eq!(stage.get_agg(1).indices(), &vec![3, 0]);
}
