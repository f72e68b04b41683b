use pixel_canvas::{GraphicImage, Radius, Rgb8Pixel};

const RED: Rgb8Pixel = Rgb8Pixel { r: 255, g: 0, b: 0 };
const BLACK: Rgb8Pixel = Rgb8Pixel { r: 0, g: 0, b: 0 };

fn snapshot(canvas: &GraphicImage) -> (u32, u32, Vec<Rgb8Pixel>) {
    let buffer = canvas.to_image().to_rgb8().expect("an RGB image");
    (buffer.width(), buffer.height(), buffer.as_slice().to_vec())
}

/// The logical points whose pixel is not black, sorted by x, then y.
fn colored(canvas: &GraphicImage) -> Vec<(u32, u32)> {
    let (width, height, pixels) = snapshot(canvas);
    let mut points = Vec::new();
    for (i, p) in pixels.iter().enumerate() {
        if *p != BLACK {
            let i = i as u32;
            points.push((i % width, height - 1 - i / width));
        }
    }
    points.sort();
    points
}

#[test]
fn new_canvas_is_black() {
    let canvas = GraphicImage::new(4, 3);
    let (width, height, pixels) = snapshot(&canvas);
    assert_eq!((width, height), (4, 3));
    assert_eq!(pixels, vec![BLACK; 12]);
}

#[test]
fn set_pixel_off_canvas_changes_nothing() {
    let mut canvas = GraphicImage::new(4, 3);
    canvas.set_pixel((4, 0), RED);
    canvas.set_pixel((0, 3), RED);
    canvas.set_pixel((u32::MAX, u32::MAX), RED);
    assert_eq!(snapshot(&canvas).2, vec![BLACK; 12]);
}

#[test]
fn set_pixel_stores_in_flipped_row() {
    let mut canvas = GraphicImage::new(4, 3);
    canvas.set_pixel((1, 0), RED);
    let (_, _, pixels) = snapshot(&canvas);
    let mut expected = vec![BLACK; 12];
    expected[(3 - 0 - 1) * 4 + 1] = RED;
    assert_eq!(pixels, expected);

    let green = Rgb8Pixel { r: 0, g: 200, b: 7 };
    canvas.set_pixel((3, 2), green);
    expected[0 * 4 + 3] = green;
    assert_eq!(snapshot(&canvas).2, expected);
}

#[test]
fn vertical_line_leaves_out_higher_end() {
    let mut canvas = GraphicImage::new(8, 8);
    canvas.line_from_to((3, 2), (3, 5), RED);
    assert_eq!(colored(&canvas), vec![(3, 2), (3, 3), (3, 4)]);

    let mut reversed = GraphicImage::new(8, 8);
    reversed.line_from_to((3, 5), (3, 2), RED);
    assert_eq!(colored(&reversed), vec![(3, 2), (3, 3), (3, 4)]);
}

#[test]
fn diagonal_line_follows_y_equals_x() {
    let mut canvas = GraphicImage::new(5, 5);
    canvas.line_from_to((0, 0), (4, 4), RED);
    assert_eq!(colored(&canvas), vec![(0, 0), (1, 1), (2, 2), (3, 3)]);
}

#[test]
fn falling_line_from_right_to_left() {
    let mut canvas = GraphicImage::new(5, 5);
    canvas.line_from_to((4, 0), (0, 4), RED);
    assert_eq!(colored(&canvas), vec![(0, 4), (1, 3), (2, 2), (3, 1)]);
}

#[test]
fn line_row_rounds_half_up() {
    let mut canvas = GraphicImage::new(5, 5);
    canvas.line_from_to((0, 0), (2, 1), RED);
    assert_eq!(colored(&canvas), vec![(0, 0), (1, 1)]);

    let mut shallow = GraphicImage::new(8, 8);
    shallow.line_from_to((0, 1), (6, 3), RED);
    assert_eq!(colored(&shallow), vec![(0, 1), (1, 1), (2, 2), (3, 2), (4, 2), (5, 3)]);
}

#[test]
fn line_to_continues_from_cursor() {
    let mut canvas = GraphicImage::new(8, 8);
    canvas.line_from_to((1, 1), (5, 5), RED);
    canvas.line_to((5, 1), RED);
    assert_eq!(
        colored(&canvas),
        vec![(1, 1), (2, 2), (3, 3), (4, 4), (5, 1), (5, 2), (5, 3), (5, 4)]
    );
}

#[test]
fn line_to_starts_at_origin_on_fresh_canvas() {
    let mut canvas = GraphicImage::new(4, 4);
    canvas.line_to((0, 3), RED);
    assert_eq!(colored(&canvas), vec![(0, 0), (0, 1), (0, 2)]);
}

#[test]
fn line_off_canvas_is_clipped() {
    let mut canvas = GraphicImage::new(3, 3);
    canvas.line_from_to((1, 0), (1, 100), RED);
    canvas.line_from_to((0, 2), (50, 2), RED);
    assert_eq!(colored(&canvas), vec![(0, 2), (1, 0), (1, 1), (1, 2), (2, 2)]);
}

#[test]
fn circle_stays_within_radius() {
    let mut canvas = GraphicImage::new(11, 11);
    canvas.circle((5, 5), Radius::whole(3), RED);
    let points = colored(&canvas);
    assert_eq!(points, vec![(3, 2), (3, 7), (7, 2), (7, 7)]);
    for &(x, y) in &points {
        for mirror in [(10 - x, y), (x, 10 - y), (10 - x, 10 - y)] {
            assert!(points.iter().any(|&(a, b)| {
                (a as i64 - mirror.0 as i64).abs() <= 1 && (b as i64 - mirror.1 as i64).abs() <= 1
            }));
        }
    }
    for (x, y) in points {
        assert!((x as i64 - 5).abs() <= 3 + 1);
        assert!((y as i64 - 5).abs() <= 3 + 1);
    }
}

#[test]
fn circle_with_half_pixel_radius() {
    let mut canvas = GraphicImage::new(11, 11);
    canvas.circle((5, 5), Radius::new(5, 2).expect("a radius"), RED);
    assert_eq!(
        colored(&canvas),
        vec![(3, 3), (3, 4), (3, 5), (3, 6), (7, 3), (7, 4), (7, 5), (7, 6)]
    );
}

#[test]
fn circle_columns_round_down_on_left_and_to_nearest_on_right() {
    let mut canvas = GraphicImage::new(13, 13);
    canvas.circle((6, 6), Radius::new(7, 2).expect("a radius"), RED);
    assert_eq!(
        colored(&canvas),
        vec![
            (3, 4), (3, 5), (3, 6), (3, 7), (4, 3), (4, 8),
            (8, 3), (8, 8), (9, 4), (9, 5), (9, 6), (9, 7)
        ]
    );
}

#[test]
fn circle_larger_than_canvas_is_clipped() {
    let mut canvas = GraphicImage::new(20, 20);
    canvas.circle((10, 3), Radius::whole(9), RED);
    assert_eq!(
        colored(&canvas),
        vec![
            (2, 6), (2, 7), (3, 8), (4, 9), (5, 10), (7, 11),
            (13, 11), (15, 10), (16, 9), (17, 8), (18, 6), (18, 7)
        ]
    );
}

#[test]
fn radius_needs_nonzero_denominator() {
    assert!(Radius::new(3, 0).is_none());
    assert!(Radius::new(0, 5).is_some());
}

#[test]
fn circle_below_one_pixel_draws_nothing() {
    let mut canvas = GraphicImage::new(7, 7);
    canvas.circle((3, 3), Radius::new(1, 2).expect("a radius"), RED);
    assert_eq!(colored(&canvas), vec![]);
}

#[test]
fn circle_near_corner_is_clipped() {
    let mut canvas = GraphicImage::new(5, 5);
    canvas.circle((1, 1), Radius::whole(3), RED);
    assert_eq!(colored(&canvas), vec![(3, 3)]);
}

#[test]
fn circle_moves_cursor_to_center() {
    let mut canvas = GraphicImage::new(11, 11);
    canvas.line_from_to((0, 0), (9, 9), BLACK);
    canvas.circle((4, 6), Radius::whole(2), BLACK);
    canvas.line_to((4, 9), RED);
    assert_eq!(colored(&canvas), vec![(4, 6), (4, 7), (4, 8)]);
}

#[test]
fn snapshots_are_equal_and_independent() {
    let mut canvas = GraphicImage::new(4, 4);
    canvas.set_pixel((2, 1), RED);
    let first = snapshot(&canvas);
    let second = snapshot(&canvas);
    assert_eq!(first, second);
    assert_eq!((first.0, first.1), (4, 4));

    let mut copy = canvas.to_image().to_rgb8().expect("an RGB image");
    copy.make_mut_slice()[0] = RED;
    assert_eq!(snapshot(&canvas), first);

    canvas.set_pixel((0, 0), RED);
    assert_eq!(first.2[12], BLACK);
    assert_ne!(snapshot(&canvas), first);
}

#[test]
fn zero_radius_circle_draws_nothing() {
    let mut canvas = GraphicImage::new(6, 6);
    canvas.circle((3, 3), Radius::whole(0), RED);
    assert_eq!(colored(&canvas), vec![]);
}

#[test]
fn negative_radius_circle_draws_nothing() {
    let mut canvas = GraphicImage::new(6, 6);
    canvas.circle((3, 3), Radius::new(-5, 2).expect("a radius"), RED);
    assert_eq!(colored(&canvas), vec![]);
    canvas.line_to((3, 5), RED);
    assert_eq!(colored(&canvas), vec![(3, 3), (3, 4)]);
}

#[test]
fn zero_length_line_draws_nothing() {
    let mut canvas = GraphicImage::new(6, 6);
    canvas.line_from_to((2, 2), (2, 2), RED);
    assert_eq!(colored(&canvas), vec![]);
}

#[test]
fn empty_canvas_ignores_drawing() {
    let mut canvas = GraphicImage::new(0, 0);
    canvas.set_pixel((0, 0), RED);
    canvas.line_from_to((0, 0), (5, 3), RED);
    canvas.circle((1, 1), Radius::whole(4), RED);
    let (width, height, pixels) = snapshot(&canvas);
    assert_eq!((width, height), (0, 0));
    assert!(pixels.is_empty());
}
