use circlez::{Change, Image};

fn patterned(width: u32, height: u32) -> Image {
    let mut image = Image::blank(width, height);
    for y in 0..height {
        for x in 0..width {
            if (x + y) % 2 == 0 {
                image.set_color_at([x, y], [(20 * x) as u8, (30 * y) as u8, 77]);
            }
        }
    }
    image
}

#[test]
fn pixel_loss_sums_the_squared_channel_differences() {
    assert_eq!(Image::pixel_loss([10, 20, 30], [13, 16, 30]), 25);
    assert_eq!(Image::pixel_loss([13, 16, 30], [10, 20, 30]), 25);
    assert_eq!(Image::pixel_loss([0, 0, 0], [1, 2, 3]), 14);
    assert_eq!(Image::pixel_loss([255, 0, 0], [31, 0, 0]), 50176);
}

#[test]
fn pixel_loss_does_not_wrap_around() {
    assert_eq!(Image::pixel_loss([0, 0, 0], [255, 255, 255]), 195075);
    assert_eq!(Image::pixel_loss([255, 255, 255], [0, 0, 0]), 195075);
    assert_eq!(Image::pixel_loss([0, 255, 0], [255, 0, 255]), 195075);
    assert_eq!(Image::pixel_loss([1, 0, 0], [255, 0, 0]), 64516);
}

#[test]
fn pixel_loss_is_zero_only_for_equal_colours() {
    let samples: [[u8; 3]; 6] =
        [[0, 0, 0], [255, 255, 255], [1, 0, 0], [0, 1, 0], [0, 0, 1], [128, 64, 32]];
    for a in samples {
        for b in samples {
            let loss = Image::pixel_loss(a, b);
            assert_eq!(loss == 0, a == b);
            assert!(loss <= 195075);
        }
    }
}

#[test]
fn loss_delta_of_a_worsening_write_is_positive() {
    let target = Image::blank(4, 4);
    let approx = Image::blank(4, 4);
    let changes: Vec<Change> = vec![([1, 1], [255, 255, 255])];
    assert_eq!(Image::loss_delta(&target, &approx, &changes), 195075);
}

#[test]
fn loss_delta_of_an_improving_write_is_negative() {
    let mut target = Image::blank(4, 4);
    target.set_color_at([2, 3], [100, 0, 0]);
    let approx = Image::blank(4, 4);
    let changes: Vec<Change> = vec![([2, 3], [90, 0, 0])];
    assert_eq!(Image::loss_delta(&target, &approx, &changes), 100 - 10000);
    let exact: Vec<Change> = vec![([2, 3], [100, 0, 0])];
    assert_eq!(Image::loss_delta(&target, &approx, &exact), -10000);
}

#[test]
fn loss_delta_of_nothing_is_zero() {
    let target = patterned(5, 4);
    let approx = Image::blank(5, 4);
    assert_eq!(Image::loss_delta(&target, &approx, &[]), 0);
    let same: Vec<Change> = vec![([1, 2], approx.color_at([1, 2]))];
    assert_eq!(Image::loss_delta(&target, &approx, &same), 0);
}

#[test]
fn loss_delta_counts_a_repeated_position_each_time() {
    let mut target = Image::blank(4, 4);
    target.set_color_at([0, 0], [10, 0, 0]);
    let approx = Image::blank(4, 4);
    let once: Vec<Change> = vec![([0, 0], [10, 0, 0])];
    let twice: Vec<Change> = vec![([0, 0], [10, 0, 0]), ([0, 0], [10, 0, 0])];
    assert_eq!(Image::loss_delta(&target, &approx, &once), -100);
    assert_eq!(Image::loss_delta(&target, &approx, &twice), -200);
}

#[test]
fn loss_delta_does_not_write() {
    let target = patterned(6, 6);
    let approx = Image::blank(6, 6);
    let before = approx.clone();
    let changes: Vec<Change> = vec![([0, 0], [1, 2, 3]), ([5, 5], [4, 5, 6])];
    Image::loss_delta(&target, &approx, &changes);
    assert_eq!(approx, before);
}

#[test]
fn total_loss_adds_up_every_pixel() {
    let mut target = Image::blank(3, 2);
    target.set_color_at([0, 0], [3, 0, 0]);
    target.set_color_at([2, 1], [0, 4, 0]);
    let mut approx = Image::blank(3, 2);
    assert_eq!(Image::total_loss(&target, &approx), 25);
    approx.set_color_at([1, 0], [0, 0, 2]);
    assert_eq!(Image::total_loss(&target, &approx), 29);
    assert_eq!(Image::total_loss(&target, &target), 0);
    assert_eq!(Image::total_loss(&Image::blank(0, 0), &Image::blank(0, 0)), 0);
}

#[test]
fn loss_delta_is_the_change_in_total_loss_for_distinct_positions() {
    let target = patterned(7, 5);
    let mut approx = Image::blank(7, 5);
    approx.set_color_at([3, 3], [200, 200, 200]);
    let changes: Vec<Change> = vec![
        ([0, 0], [0, 0, 70]),
        ([3, 3], [50, 80, 80]),
        ([6, 4], [255, 255, 255]),
        ([2, 2], [40, 60, 77]),
        ([1, 0], [9, 9, 9]),
    ];
    let before = Image::total_loss(&target, &approx) as i128;
    let delta = Image::loss_delta(&target, &approx, &changes);
    approx.apply(&changes);
    let after = Image::total_loss(&target, &approx) as i128;
    assert_eq!(after - before, delta);
}

#[test]
fn total_loss_moves_by_the_delta_of_the_writes_that_stay() {
    let target = patterned(7, 5);
    let mut approx = Image::blank(7, 5);
    approx.set_color_at([2, 2], [1, 2, 3]);
    let changes: Vec<Change> = vec![
        ([2, 2], [200, 0, 0]),
        ([4, 0], [80, 0, 70]),
        ([2, 2], [40, 60, 70]),
        ([4, 0], [0, 0, 0]),
        ([2, 2], [40, 60, 77]),
    ];
    let staying: Vec<Change> = vec![([4, 0], [0, 0, 0]), ([2, 2], [40, 60, 77])];
    let before = Image::total_loss(&target, &approx) as i128;
    let settled = Image::loss_delta(&target, &approx, &staying);
    let counted = Image::loss_delta(&target, &approx, &changes);
    approx.apply(&changes);
    let after = Image::total_loss(&target, &approx) as i128;
    assert_eq!(after - before, settled);
    assert_ne!(after - before, counted);
}

#[test]
fn negative_delta_on_distinct_positions_lowers_the_total_loss() {
    let target = patterned(7, 5);
    let mut approx = Image::blank(7, 5);
    let changes: Vec<Change> =
        vec![([0, 0], [0, 0, 70]), ([2, 2], [40, 60, 77]), ([1, 0], [9, 9, 9])];
    let before = Image::total_loss(&target, &approx);
    let delta = Image::loss_delta(&target, &approx, &changes);
    assert!(delta < 0);
    approx.apply(&changes);
    assert!(Image::total_loss(&target, &approx) < before);
}
