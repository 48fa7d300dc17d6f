use circlez::{Color, Image};

fn gradient(width: u32, height: u32) -> Image {
    let mut bytes: Vec<u8> = Vec::new();
    for y in 0..height {
        for x in 0..width {
            bytes.push(x as u8);
            bytes.push(y as u8);
            bytes.push((x + 10 * y) as u8);
        }
    }
    Image::from_raw(width, height, &bytes).unwrap()
}

#[test]
fn blank_image_is_black() {
    let image = Image::blank(5, 3);
    assert_eq!(image.width(), 5);
    assert_eq!(image.height(), 3);
    for y in 0..3 {
        for x in 0..5 {
            assert_eq!(image.color_at([x, y]), [0, 0, 0]);
        }
    }
    assert_eq!(image.to_bytes(), vec![0u8; 45]);
}

#[test]
fn blank_image_may_be_empty() {
    let image = Image::blank(0, 7);
    assert_eq!(image.width(), 0);
    assert_eq!(image.height(), 7);
    assert!(image.to_bytes().is_empty());
}

#[test]
fn from_raw_reads_rows_of_triples() {
    let bytes: Vec<u8> = vec![1, 2, 3, 4, 5, 6, 7, 8, 9, 10, 11, 12, 13, 14, 15, 16, 17, 18];
    let image = Image::from_raw(3, 2, &bytes).unwrap();
    assert_eq!(image.width(), 3);
    assert_eq!(image.height(), 2);
    assert_eq!(image.color_at([0, 0]), [1, 2, 3]);
    assert_eq!(image.color_at([1, 0]), [4, 5, 6]);
    assert_eq!(image.color_at([2, 0]), [7, 8, 9]);
    assert_eq!(image.color_at([0, 1]), [10, 11, 12]);
    assert_eq!(image.color_at([1, 1]), [13, 14, 15]);
    assert_eq!(image.color_at([2, 1]), [16, 17, 18]);
}

#[test]
fn from_raw_refuses_a_wrong_length() {
    assert!(Image::from_raw(2, 2, &[0u8; 11]).is_none());
    assert!(Image::from_raw(2, 2, &[0u8; 13]).is_none());
    assert!(Image::from_raw(2, 2, &[]).is_none());
    assert!(Image::from_raw(0, 0, &[0u8; 3]).is_none());
    assert!(Image::from_raw(2, 2, &[0u8; 12]).is_some());
    assert!(Image::from_raw(0, 5, &[]).is_some());
}

#[test]
fn to_bytes_gives_back_what_from_raw_read() {
    let bytes: Vec<u8> = (0..48).map(|i| (i * 5) as u8).collect();
    let image = Image::from_raw(4, 4, &bytes).unwrap();
    assert_eq!(image.to_bytes(), bytes);
}

#[test]
fn set_color_at_changes_one_pixel() {
    let mut image = gradient(4, 3);
    let before = image.clone();
    image.set_color_at([2, 1], [200, 100, 50]);
    for y in 0..3 {
        for x in 0..4 {
            let expected: Color = if x == 2 && y == 1 {
                [200, 100, 50]
            } else {
                before.color_at([x, y])
            };
            assert_eq!(image.color_at([x, y]), expected);
        }
    }
    assert_eq!(image.width(), 4);
    assert_eq!(image.height(), 3);
}

#[test]
fn color_at_mut_hands_out_the_pixel() {
    let mut image = gradient(4, 3);
    {
        let color = image.color_at_mut([3, 2]);
        assert_eq!(*color, [3, 2, 23]);
        color[1] = 99;
    }
    assert_eq!(image.color_at([3, 2]), [3, 99, 23]);
    *image.color_at_mut([0, 0]) = [7, 8, 9];
    assert_eq!(image.color_at([0, 0]), [7, 8, 9]);
    assert_eq!(image.color_at([1, 0]), [1, 0, 1]);
}

#[test]
fn locate_accepts_only_positions_inside() {
    let image = Image::blank(4, 3);
    assert_eq!(image.locate(0, 0), Some([0, 0]));
    assert_eq!(image.locate(3, 2), Some([3, 2]));
    assert_eq!(image.locate(4, 2), None);
    assert_eq!(image.locate(3, 3), None);
    assert_eq!(image.locate(-1, 0), None);
    assert_eq!(image.locate(0, -1), None);
    assert_eq!(image.locate(isize::MAX, 0), None);
    assert_eq!(image.locate(isize::MIN, isize::MIN), None);
}

#[test]
fn apply_writes_in_order() {
    let mut image = Image::blank(3, 3);
    image.apply(&[([0, 0], [1, 1, 1]), ([2, 1], [2, 2, 2]), ([0, 0], [3, 3, 3])]);
    assert_eq!(image.color_at([0, 0]), [3, 3, 3]);
    assert_eq!(image.color_at([2, 1]), [2, 2, 2]);
    assert_eq!(image.color_at([1, 1]), [0, 0, 0]);
    let before = image.clone();
    image.apply(&[]);
    assert_eq!(image, before);
}
