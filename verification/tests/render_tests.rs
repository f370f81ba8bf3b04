use aurora::render::{assemble, divide_frame, section_pixels, FrameSection, Image, PixelColour};
use aurora::BLOCK_SIZE;

fn rasterize(width: u32, height: u32, sections: &[FrameSection]) -> Vec<u32> {
    let mut marks = vec![0u32; (width as usize) * (height as usize)];
    for s in sections {
        assert!(s.width > 0 && s.height > 0);
        assert!(s.x + s.width <= width);
        assert!(s.y + s.height <= height);
        for x in s.x..s.x + s.width {
            for y in s.y..s.y + s.height {
                marks[(y as usize) * (width as usize) + (x as usize)] += 1;
            }
        }
    }
    marks
}

#[test]
fn tiling_covers_every_pixel_exactly_once() {
    for (width, height) in [
        (130u32, 65u32),
        (8, 8),
        (7, 5),
        (64, 64),
        (1, 1),
        (0, 10),
        (10, 0),
        (16, 3),
        (3, 16),
    ] {
        let sections = divide_frame(width, height);
        let marks = rasterize(width, height, &sections);
        assert!(marks.iter().all(|&m| m == 1));
        let area: u64 = sections
            .iter()
            .map(|s| (s.width as u64) * (s.height as u64))
            .sum();
        assert_eq!(area, (width as u64) * (height as u64));
    }
}

#[test]
fn tiling_example_counts() {
    assert_eq!(BLOCK_SIZE, 8);
    // 130 x 65 with 8-pixel blocks: 16 x 8 full tiles, 8 right-edge
    // tiles, 16 bottom tiles and one corner tile.
    let sections = divide_frame(130, 65);
    assert_eq!(sections.len(), 16 * 8 + 8 + 16 + 1);
    let area: u64 = sections
        .iter()
        .map(|s| (s.width as u64) * (s.height as u64))
        .sum();
    assert_eq!(area, 8450);

    let full = sections
        .iter()
        .filter(|s| s.width == 8 && s.height == 8)
        .count();
    let right = sections
        .iter()
        .filter(|s| s.width == 2 && s.height == 8)
        .count();
    let bottom = sections
        .iter()
        .filter(|s| s.width == 8 && s.height == 1)
        .count();
    let corner = sections
        .iter()
        .filter(|s| s.width == 2 && s.height == 1)
        .count();
    assert_eq!(full, 128);
    assert_eq!(right, 8);
    assert_eq!(bottom, 16);
    assert_eq!(corner, 1);
}

#[test]
fn tiling_exact_multiple_has_only_full_tiles() {
    let sections = divide_frame(64, 32);
    assert_eq!(sections.len(), 8 * 4);
    assert!(sections.iter().all(|s| s.width == 8 && s.height == 8));
}

#[test]
fn image_starts_black_and_records_pixels() {
    let mut img = Image::new(4, 3);
    assert_eq!(img.width, 4);
    assert_eq!(img.height, 3);
    assert_eq!(img.pixels.len(), 12);
    assert!(img.pixels.iter().all(|&p| p == [0, 0, 0]));

    img.put_pixel(2, 1, [9, 8, 7]);
    assert_eq!(img.pixels[1 * 4 + 2], [9, 8, 7]);
    assert_eq!(img.pixels[0], [0, 0, 0]);
}

#[test]
fn assemble_writes_messages_last_wins() {
    let messages = vec![
        PixelColour { x: 0, y: 0, rgb: [1, 1, 1] },
        PixelColour { x: 1, y: 1, rgb: [2, 2, 2] },
        PixelColour { x: 0, y: 0, rgb: [3, 3, 3] },
    ];
    let img = assemble(2, 2, &messages);
    assert_eq!(img.pixels[0], [3, 3, 3]);
    assert_eq!(img.pixels[1 * 2 + 1], [2, 2, 2]);
    assert_eq!(img.pixels[1], [0, 0, 0]);
    assert_eq!(img.pixels[1 * 2 + 0], [0, 0, 0]);
}

#[test]
fn assemble_is_order_independent_for_distinct_pixels() {
    let m1 = vec![
        PixelColour { x: 0, y: 0, rgb: [1, 0, 0] },
        PixelColour { x: 1, y: 0, rgb: [0, 1, 0] },
        PixelColour { x: 0, y: 1, rgb: [0, 0, 1] },
        PixelColour { x: 1, y: 1, rgb: [5, 5, 5] },
    ];
    let mut m2 = m1.clone();
    m2.reverse();
    m2.swap(1, 2);
    let img1 = assemble(2, 2, &m1);
    let img2 = assemble(2, 2, &m2);
    assert_eq!(img1.pixels, img2.pixels);
}

#[test]
fn section_pixels_enumerates_column_major() {
    let s = FrameSection { x: 10, y: 20, width: 2, height: 3 };
    let pixels = section_pixels(&s);
    assert_eq!(
        pixels,
        vec![(10, 20), (10, 21), (10, 22), (11, 20), (11, 21), (11, 22)]
    );
}

#[test]
fn section_pixels_cover_section_once() {
    let sections = divide_frame(13, 9);
    let mut marks = vec![0u32; 13 * 9];
    for s in &sections {
        for (x, y) in section_pixels(s) {
            marks[(y as usize) * 13 + (x as usize)] += 1;
        }
    }
    assert!(marks.iter().all(|&m| m == 1));
}
