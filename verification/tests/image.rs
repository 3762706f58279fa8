use path_tracer::image::{pixel_at, write_ppm};

#[test]
fn the_stream_starts_at_the_top_left() {
    assert_eq!(pixel_at(0, 4, 3), Some((0, 2)));
}

#[test]
fn the_stream_runs_along_each_row_and_down_the_rows() {
    let mut cells = vec![];
    let mut index = 0;
    while let Some(cell) = pixel_at(index, 3, 2) {
        cells.push(cell);
        index += 1;
    }
    assert_eq!(cells, vec![(0, 1), (1, 1), (2, 1), (0, 0), (1, 0), (2, 0)]);
}

#[test]
fn the_stream_is_the_order_of_the_nested_loops() {
    let (width, height) = (7, 5);
    let mut index = 0;
    for j in (0..height).rev() {
        for i in 0..width {
            assert_eq!(pixel_at(index, width, height), Some((i, j)));
            index += 1;
        }
    }
    assert_eq!(pixel_at(index, width, height), None);
}

#[test]
fn the_stream_ends_after_the_last_pixel() {
    assert_eq!(pixel_at(11, 4, 3), Some((3, 0)));
    assert_eq!(pixel_at(12, 4, 3), None);
    assert_eq!(pixel_at(usize::MAX, 4, 3), None);
}

#[test]
fn a_picture_without_a_side_has_no_pixels() {
    assert_eq!(pixel_at(0, 0, 3), None);
    assert_eq!(pixel_at(0, 4, 0), None);
    assert_eq!(pixel_at(0, -4, 3), None);
    assert_eq!(pixel_at(0, 4, -3), None);
    assert_eq!(pixel_at(0, -4, -3), None);
}

#[test]
fn the_largest_picture_is_indexed() {
    let side = i32::MAX;
    assert_eq!(pixel_at(0, side, side), Some((0, side - 1)));
    assert_eq!(pixel_at(side as usize, side, side), Some((0, side - 2)));
    let last = (side as usize) * (side as usize) - 1;
    assert_eq!(pixel_at(last, side, side), Some((side - 1, 0)));
    assert_eq!(pixel_at(last + 1, side, side), None);
}

#[test]
fn ppm_of_two_pixels() {
    let text = write_ppm(&vec![255, 0, 7, 10, 100, 200], 2, 1);
    assert_eq!(String::from_utf8(text).unwrap(), "P3\n2 1\n255\n255 0 7\n10 100 200\n");
}

#[test]
fn ppm_of_no_pixels_is_the_head() {
    let text = write_ppm(&vec![], 1200, 800);
    assert_eq!(String::from_utf8(text).unwrap(), "P3\n1200 800\n255\n");
}

#[test]
fn ppm_leaves_out_an_unfinished_pixel() {
    let text = write_ppm(&vec![1, 2, 3, 4, 5], 1, 1);
    assert_eq!(String::from_utf8(text).unwrap(), "P3\n1 1\n255\n1 2 3\n");
}

#[test]
fn ppm_writes_the_sides_as_they_are_given() {
    let text = write_ppm(&vec![], -5, 0);
    assert_eq!(String::from_utf8(text).unwrap(), "P3\n-5 0\n255\n");
    let text = write_ppm(&vec![], i32::MIN, i32::MAX);
    assert_eq!(String::from_utf8(text).unwrap(), "P3\n-2147483648 2147483647\n255\n");
}

#[test]
fn ppm_agrees_with_the_formatter() {
    let mut buf = vec![];
    for k in 0..=255u8 {
        buf.push(k);
        buf.push(255 - k);
        buf.push(k / 2);
    }
    let mut expected = format!("P3\n{} {}\n255\n", 16, 16);
    for pixel in buf.chunks_exact(3) {
        expected.push_str(&format!("{} {} {}\n", pixel[0], pixel[1], pixel[2]));
    }
    assert_eq!(String::from_utf8(write_ppm(&buf, 16, 16)).unwrap(), expected);
}
