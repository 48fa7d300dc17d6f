use circlez::{
    best_color, best_member, compose, compose_image, export_bytes, new_ensemble, next_action,
    pack_color, run_member, run_round, Image, RoundAction,
};

fn strip(colors: &[[u8; 3]]) -> Image {
    let mut bytes: Vec<u8> = Vec::new();
    for c in colors {
        bytes.extend_from_slice(c);
    }
    Image::from_raw(colors.len() as u32, 1, &bytes).unwrap()
}

fn red_dot() -> Image {
    let mut image = Image::blank(8, 8);
    image.set_color_at([4, 4], [255, 0, 0]);
    image
}

#[test]
fn pack_color_puts_red_highest() {
    assert_eq!(pack_color([1, 2, 3]), 0x0001_0203);
    assert_eq!(pack_color([255, 0, 0]), 0x00ff_0000);
    assert_eq!(pack_color([0, 255, 0]), 0x0000_ff00);
    assert_eq!(pack_color([0, 0, 255]), 0x0000_00ff);
    assert_eq!(pack_color([255, 255, 255]), 0x00ff_ffff);
    assert_eq!(pack_color([0, 0, 0]), 0);
    assert_eq!(pack_color([18, 52, 86]), u32::from_be_bytes([0, 18, 52, 86]));
}

#[test]
fn best_member_has_the_least_loss() {
    let target = strip(&[[10, 10, 10], [200, 200, 200]]);
    let images = vec![
        strip(&[[0, 0, 0], [0, 0, 0]]),
        strip(&[[255, 255, 255], [255, 255, 255]]),
        strip(&[[10, 10, 12], [100, 100, 100]]),
    ];
    assert_eq!(best_member(&target, &images, [0, 0]), 2);
    assert_eq!(best_member(&target, &images, [1, 0]), 1);
    assert_eq!(best_color(&target, &images, [0, 0]), [10, 10, 12]);
    assert_eq!(best_color(&target, &images, [1, 0]), [255, 255, 255]);
}

#[test]
fn first_member_wins_a_tie() {
    let target = strip(&[[10, 10, 10]]);
    let images = vec![
        strip(&[[50, 10, 10]]),
        strip(&[[11, 10, 10]]),
        strip(&[[9, 10, 10]]),
        strip(&[[10, 10, 11]]),
    ];
    assert_eq!(best_member(&target, &images, [0, 0]), 1);
    assert_eq!(best_color(&target, &images, [0, 0]), [11, 10, 10]);
    let same = vec![strip(&[[7, 7, 7]]), strip(&[[7, 7, 7]])];
    assert_eq!(best_member(&target, &same, [0, 0]), 0);
}

#[test]
fn single_member_is_the_composition() {
    let target = red_dot();
    let mut member = Image::blank(8, 8);
    member.set_color_at([1, 1], [9, 9, 9]);
    member.set_color_at([4, 4], [1, 2, 3]);
    let images = vec![member.clone()];
    assert_eq!(compose_image(&target, &images), member);
}

#[test]
fn compose_fills_the_display_buffer_row_by_row() {
    let mut target = Image::blank(2, 2);
    target.set_color_at([1, 0], [200, 200, 200]);
    target.set_color_at([0, 1], [0, 100, 0]);
    let mut first = Image::blank(2, 2);
    first.set_color_at([0, 1], [0, 90, 0]);
    first.set_color_at([1, 1], [1, 1, 1]);
    let mut second = Image::blank(2, 2);
    second.set_color_at([1, 0], [255, 255, 255]);
    second.set_color_at([0, 1], [0, 120, 0]);
    let images = vec![first, second];
    let mut canvas: Vec<u32> = vec![7; 4];
    compose(&mut canvas, &target, &images);
    assert_eq!(canvas, vec![0, 0x00ff_ffff, 0x0000_5a00, 0]);
}

#[test]
fn compose_leaves_the_rest_of_a_longer_buffer() {
    let target = Image::blank(2, 1);
    let images = vec![strip(&[[1, 1, 1], [2, 2, 2]])];
    let mut canvas: Vec<u32> = vec![9, 9, 9, 9, 9];
    compose(&mut canvas, &target, &images);
    assert_eq!(canvas, vec![0x0001_0101, 0x0002_0202, 9, 9, 9]);
}

#[test]
fn composition_is_at_least_as_good_as_every_member() {
    let target = red_dot();
    let mut images = new_ensemble(&target, 4);
    run_round(&target, &mut images, 300);
    let output = compose_image(&target, &images);
    for y in 0..8 {
        for x in 0..8 {
            let wanted = target.color_at([x, y]);
            let got = Image::pixel_loss(wanted, output.color_at([x, y]));
            for member in &images {
                assert!(got <= Image::pixel_loss(wanted, member.color_at([x, y])));
            }
            assert_eq!(output.color_at([x, y]), best_color(&target, &images, [x, y]));
        }
    }
    let whole = Image::total_loss(&target, &output);
    for member in &images {
        assert!(whole <= Image::total_loss(&target, member));
    }
}

#[test]
fn display_buffer_matches_the_composed_image() {
    let target = red_dot();
    let mut images = new_ensemble(&target, 3);
    run_round(&target, &mut images, 200);
    let output = compose_image(&target, &images);
    let mut canvas: Vec<u32> = vec![0; 64];
    compose(&mut canvas, &target, &images);
    for y in 0..8u32 {
        for x in 0..8u32 {
            assert_eq!(canvas[(y * 8 + x) as usize], pack_color(output.color_at([x, y])));
        }
    }
}

#[test]
fn exporting_twice_gives_the_same_bytes() {
    let target = red_dot();
    let mut images = new_ensemble(&target, 3);
    run_round(&target, &mut images, 500);
    let first = export_bytes(&target, &images);
    let second = export_bytes(&target, &images);
    assert_eq!(first.len(), 8 * 8 * 3);
    assert_eq!(first, second);
    assert_eq!(first, compose_image(&target, &images).to_bytes());
}

#[test]
fn export_holds_the_best_colours_in_rows() {
    let target = strip(&[[10, 10, 10], [200, 200, 200], [0, 0, 0]]);
    let images = vec![
        strip(&[[0, 0, 0], [0, 0, 0], [5, 5, 5]]),
        strip(&[[255, 255, 255], [250, 240, 230], [4, 4, 4]]),
    ];
    assert_eq!(export_bytes(&target, &images), vec![0, 0, 0, 250, 240, 230, 4, 4, 4]);
}

#[test]
fn new_ensemble_is_all_black() {
    let target = red_dot();
    let images = new_ensemble(&target, 5);
    assert_eq!(images.len(), 5);
    for member in &images {
        assert_eq!(*member, Image::blank(8, 8));
    }
    assert!(new_ensemble(&target, 0).is_empty());
}

#[test]
fn run_member_counts_accepted_steps() {
    let target = red_dot();
    let mut approx = Image::blank(8, 8);
    assert_eq!(run_member(&target, &mut approx, 0), 0);
    assert_eq!(approx, Image::blank(8, 8));
    let accepted = run_member(&target, &mut approx, 5000);
    assert!(accepted >= 1 && accepted <= 5000);
    assert_ne!(approx, Image::blank(8, 8));
    let black = Image::blank(8, 8);
    let mut still = Image::blank(8, 8);
    assert_eq!(run_member(&black, &mut still, 200), 0);
    assert_eq!(still, black);
}

#[test]
fn run_member_takes_every_step() {
    let mut target = Image::blank(4, 4);
    for y in 0..4 {
        for x in 0..4 {
            target.set_color_at([x, y], [255, 255, 255]);
        }
    }
    let mut approx = Image::blank(4, 4);
    assert_eq!(run_member(&target, &mut approx, 1), 1);
    let mut other = Image::blank(4, 4);
    let accepted = run_member(&target, &mut other, 400);
    assert!(accepted >= 4 && accepted <= 16);
    assert_eq!(other, target);
}

#[test]
fn run_round_takes_every_step_of_every_member() {
    let mut target = Image::blank(4, 4);
    for y in 0..4 {
        for x in 0..4 {
            target.set_color_at([x, y], [255, 255, 255]);
        }
    }
    let mut images = new_ensemble(&target, 3);
    assert_eq!(run_round(&target, &mut images, 1), vec![1, 1, 1]);
    for member in &images {
        assert_ne!(*member, Image::blank(4, 4));
    }
    let mut none = new_ensemble(&target, 2);
    assert_eq!(run_round(&target, &mut none, 0), vec![0, 0]);
    assert_eq!(none, new_ensemble(&target, 2));
}

#[test]
fn one_iteration_on_a_black_target_changes_nothing() {
    let target = Image::blank(4, 4);
    let mut images = new_ensemble(&target, 1);
    let accepted = run_round(&target, &mut images, 1);
    assert_eq!(accepted, vec![0]);
    assert_eq!(images[0], Image::blank(4, 4));
}

#[test]
fn run_round_runs_every_member() {
    let target = red_dot();
    let mut images = new_ensemble(&target, 3);
    let accepted = run_round(&target, &mut images, 5000);
    assert_eq!(accepted.len(), 3);
    assert_eq!(images.len(), 3);
    for (member, count) in images.iter().zip(accepted.iter()) {
        assert!(*count >= 1 && *count <= 5000);
        assert_eq!(member.width(), 8);
        assert_eq!(member.height(), 8);
        let loss = Image::pixel_loss(target.color_at([4, 4]), member.color_at([4, 4]));
        assert!(loss < 65025);
    }
}

#[test]
fn search_goes_on_while_the_display_is_open() {
    assert_eq!(next_action(true, false), RoundAction::Search);
    assert_eq!(next_action(true, true), RoundAction::Export);
    assert_eq!(next_action(false, false), RoundAction::Export);
    assert_eq!(next_action(false, true), RoundAction::Export);
}
