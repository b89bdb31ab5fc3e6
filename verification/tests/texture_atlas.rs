use sixtyfps_interpreter::texture_atlas::{add_border, Region, TextureAtlas};

fn overlap(a: &Region, b: &Region) -> bool {
    a.x < b.x + b.width && b.x < a.x + a.width && a.y < b.y + b.height && b.y < a.y + a.height
}

#[test]
fn regions_do_not_overlap_and_pages_open_when_needed() {
    let mut atlas = TextureAtlas::new();
    assert_eq!(atlas.page_count(), 0);
    let mut given = Vec::new();
    for k in 0..9 {
        let a = atlas.allocate_region(1000, 1000).unwrap();
        assert_eq!((a.texture_coordinates.width, a.texture_coordinates.height), (1000, 1000));
        assert!(a.texture_coordinates.x >= 0 && a.texture_coordinates.x + 1000 <= 2048);
        assert!(a.texture_coordinates.y >= 0 && a.texture_coordinates.y + 1000 <= 2048);
        // Four regions of this size go on a page.
        assert_eq!(a.atlas, k / 4);
        assert_eq!(a.new_page, k % 4 == 0);
        given.push(a);
    }
    assert_eq!(atlas.page_count(), 3);
    for (i, a) in given.iter().enumerate() {
        for b in given.iter().skip(i + 1) {
            assert!(a.atlas != b.atlas || !overlap(&a.texture_coordinates, &b.texture_coordinates));
        }
    }
    // Room that is given back is found again on the page it was on.
    assert!(atlas.release(&given[1]));
    assert!(!atlas.release(&given[1]));
    let again = atlas.allocate_region(900, 900).unwrap();
    assert_eq!(again.atlas, 0);
    assert!(!again.new_page);
    assert_eq!(atlas.page_count(), 3);
}

#[test]
fn no_room_for_what_is_empty_or_larger_than_a_page() {
    let mut atlas = TextureAtlas::new();
    assert!(atlas.allocate_region(0, 10).is_none());
    assert!(atlas.allocate_region(10, -1).is_none());
    assert!(atlas.allocate_region(2049, 1).is_none());
    assert_eq!(atlas.page_count(), 0);
    assert!(atlas.allocate_region(2048, 2048).is_some());
    assert_eq!(atlas.page_count(), 1);
    assert!(atlas.allocate_image_in_atlas(2047, 1, &vec![0; 2047 * 4]).is_none());
    assert!(atlas.allocate_image_in_atlas(0, 1, &[]).is_none());
    assert!(atlas.allocate_image_in_atlas(2, 2, &[0; 15]).is_none());
    assert_eq!(atlas.page_count(), 1);
}

fn pixels(numbers: &[u8]) -> Vec<u8> {
    numbers.iter().flat_map(|n| [*n, n + 100, n + 200, 255]).collect()
}

#[test]
fn image_gets_a_border_of_one_pixel() {
    let mut atlas = TextureAtlas::new();
    let data = pixels(&[7; 200]);
    let (first, image) = atlas.allocate_image_in_atlas(10, 20, &data).unwrap();
    assert_eq!(first.texture_coordinates, Region { x: 1, y: 1, width: 10, height: 20 });
    assert!(first.new_page);
    assert_eq!(image, pixels(&[7; 12 * 22]));
    let (second, _) = atlas.allocate_image_in_atlas(5, 5, &pixels(&[1; 25])).unwrap();
    assert_eq!(second.atlas, 0);
    assert!(!second.new_page);
    let with_border = |r: &Region| Region {
        x: r.x - 1,
        y: r.y - 1,
        width: r.width + 2,
        height: r.height + 2,
    };
    assert!(!overlap(
        &with_border(&first.texture_coordinates),
        &with_border(&second.texture_coordinates)
    ));
    assert!(atlas.release(&first));
    assert!(atlas.release(&second));
}

#[test]
fn border_repeats_the_edges_of_the_image() {
    let image = pixels(&[
        1, 2, 3,
        4, 5, 6,
    ]);
    let expected = pixels(&[
        1, 1, 2, 3, 3,
        1, 1, 2, 3, 3,
        4, 4, 5, 6, 6,
        4, 4, 5, 6, 6,
    ]);
    assert_eq!(add_border(3, 2, &image), Some(expected));
    assert_eq!(add_border(1, 1, &[9, 8, 7, 6]), Some([9, 8, 7, 6].repeat(9)));
    // Every pixel is the nearest pixel of the image.
    let (w, h) = (4usize, 3usize);
    let numbers: Vec<u8> = (0..12).collect();
    let bordered = add_border(4, 3, &pixels(&numbers)).unwrap();
    assert_eq!(bordered.len(), (w + 2) * (h + 2) * 4);
    for y in 0..h + 2 {
        for x in 0..w + 2 {
            let from = (y.clamp(1, h) - 1) * w + (x.clamp(1, w) - 1);
            let at = (y * (w + 2) + x) * 4;
            assert_eq!(&bordered[at..at + 4], &pixels(&numbers)[from * 4..from * 4 + 4]);
        }
    }
    assert_eq!(add_border(0, 2, &[]), None);
    assert_eq!(add_border(2, 0, &[]), None);
    assert_eq!(add_border(3, 2, &image[1..]), None);
    assert_eq!(add_border(2, 3, &image).map(|b| b.len()), Some(4 * 5 * 4));
    assert!(add_border(2046, 1, &vec![0; 2046 * 4]).is_some());
    assert_eq!(add_border(2047, 1, &vec![0; 2047 * 4]), None);
    assert_eq!(add_border(1, 2047, &vec![0; 2047 * 4]), None);
}

#[test]
fn there_is_room_for_whatever_fits_a_page() {
    let mut atlas = TextureAtlas::new();
    // A page that is all free takes what is as large as a page, and nothing else then.
    for k in 0..3 {
        let full = atlas.allocate_region(2048, 2048).unwrap();
        assert_eq!(full.texture_coordinates, Region { x: 0, y: 0, width: 2048, height: 2048 });
        assert_eq!((full.atlas, full.new_page), (k, true));
    }
    assert_eq!(atlas.page_count(), 3);
    for (width, height) in [(1, 1), (2048, 1), (1, 2048), (300, 31), (17, 900)] {
        let found = atlas.allocate_region(width, height).unwrap();
        assert_eq!((found.texture_coordinates.width, found.texture_coordinates.height), (width, height));
    }
    for (width, height) in [(0, 1), (1, 0), (-5, 5), (2049, 1), (1, 2049), (i32::MAX, i32::MAX)] {
        let pages = atlas.page_count();
        assert_eq!(atlas.allocate_region(width, height), None);
        assert_eq!(atlas.page_count(), pages);
    }
    // Every image that can have a border finds room.
    let (largest, image) = atlas.allocate_image_in_atlas(2046, 2046, &vec![9; 2046 * 2046 * 4]).unwrap();
    assert_eq!(largest.texture_coordinates, Region { x: 1, y: 1, width: 2046, height: 2046 });
    assert!(largest.new_page);
    assert_eq!(image.len(), 2048 * 2048 * 4);
}

#[test]
fn page_that_was_given_back_whole_is_used_again() {
    let mut atlas = TextureAtlas::new();
    let full = atlas.allocate_region(2048, 2048).unwrap();
    assert!(atlas.release(&full));
    let again = atlas.allocate_region(2048, 2048).unwrap();
    assert_eq!((again.atlas, again.new_page), (0, false));
    assert!(atlas.release(&again));
    let parts: Vec<_> = (0..4).map(|_| atlas.allocate_region(1024, 1024).unwrap()).collect();
    assert!(parts.iter().all(|p| p.atlas == 0));
    for part in &parts {
        assert!(atlas.release(part));
    }
    let whole = atlas.allocate_region(2048, 2048).unwrap();
    assert_eq!((whole.atlas, atlas.page_count()), (0, 1));
}
