use glam::DVec3;
use renderer::Image;

#[test]
fn get_tile_works() {
    let img = Image::new((100, 100));

    let tile = img.get_tile((0, 0), (100, 100));

    assert_eq!(tile.origin, (0, 0));
    assert_eq!(tile.size, (100, 100));

    assert_eq!(tile.get_xy(0), (0, 0));
    assert_eq!(tile.get_xy((100 * 100) - 1), (99, 99));

    let tile = img.get_tile((50, 50), (50, 50));
    assert_eq!(tile.origin, (50, 50));
    assert_eq!(tile.size, (50, 50));

    assert_eq!(tile.get_xy(0), (50, 50));
    assert_eq!(tile.get_xy(49), (99, 50));
}

#[test]
fn get_tile_on_boundary() {
    let img = Image::new((100, 100));
    let tile = img.get_tile((90, 0), (50, 50));

    assert_eq!(tile.origin, (90, 0));
    assert_eq!(tile.size, (10, 50));
    assert_eq!(tile.get_xy(10), (90, 1));
}

#[test]
fn merge_tile_works() {
    let mut img = Image::new((4, 4));
    let mut tile = img.get_tile((0, 0), (2, 2));
    let mut tile_2 = img.get_tile((2, 2), (2, 2));

    for i in 0..4 {
        tile.pixels[i] = DVec3::new(10., 10., 10.);
        tile_2.pixels[i] = DVec3::new(100., 100., 100.);
    }

    img.merge_tile(tile);
    img.merge_tile(tile_2);

    assert_eq!(img.data[0], DVec3::new(10., 10., 10.));
    assert_eq!(img.data[1], DVec3::new(10., 10., 10.));
    assert_eq!(img.data[4], DVec3::new(10., 10., 10.));
    assert_eq!(img.data[5], DVec3::new(10., 10., 10.));

    assert_eq!(img.data[10], DVec3::new(100., 100., 100.));
    assert_eq!(img.data[11], DVec3::new(100., 100., 100.));
    assert_eq!(img.data[14], DVec3::new(100., 100., 100.));
    assert_eq!(img.data[15], DVec3::new(100., 100., 100.));

    assert_eq!(img.data[2], DVec3::ZERO);
    assert_eq!(img.data[3], DVec3::ZERO);
    assert_eq!(img.data[6], DVec3::ZERO);
    assert_eq!(img.data[7], DVec3::ZERO);
    assert_eq!(img.data[8], DVec3::ZERO);
    assert_eq!(img.data[9], DVec3::ZERO);
    assert_eq!(img.data[12], DVec3::ZERO);
    assert_eq!(img.data[13], DVec3::ZERO);
}

#[test]
fn it_works() {
    assert_eq!(2 + 2, 4);
}

#[test]
fn new_image_is_black_and_full() {
    let img = Image::new((3, 2));
    assert_eq!(img.size, (3, 2));
    assert_eq!(img.data.len(), 6);
    for pixel in img.data.iter() {
        assert_eq!(*pixel, DVec3::ZERO);
    }
}

#[test]
fn empty_image_has_no_pixels() {
    let img = Image::new((0, 5));
    assert_eq!(img.data.len(), 0);
    assert!(img.get(0, 0).is_none());
}

#[test]
fn put_then_get_reads_back() {
    let mut img = Image::new((3, 2));
    let red = DVec3::new(1.0, 0.0, 0.0);
    img.put(2, 1, &red);
    assert_eq!(img.get(2, 1), Some(&red));
    assert_eq!(img.data[5], red);
    for i in 0..5 {
        assert_eq!(img.data[i], DVec3::ZERO);
    }
}

#[test]
fn get_past_the_end_is_none() {
    let img = Image::new((3, 2));
    assert!(img.get(0, 2).is_none());
    assert!(img.get(3, 1).is_none());
    assert!(img.get(u32::MAX, u32::MAX).is_none());
    assert!(img.get(2, 1).is_some());
}

#[test]
fn get_reads_row_major() {
    let mut img = Image::new((3, 2));
    let c = DVec3::new(0.5, 0.25, 0.125);
    img.put(0, 1, &c);
    // column 3 of row 0 is the same position as column 0 of row 1
    assert_eq!(img.get(3, 0), Some(&c));
}

#[test]
fn texel_clamps_to_last_column_and_row() {
    let mut img = Image::new((3, 2));
    let corner = DVec3::new(0.1, 0.2, 0.3);
    let inner = DVec3::new(0.4, 0.5, 0.6);
    img.put(2, 1, &corner);
    img.put(1, 0, &inner);
    assert_eq!(img.texel(2, 1), corner);
    assert_eq!(img.texel(3, 2), corner);
    assert_eq!(img.texel(100, 100), corner);
    assert_eq!(img.texel(1, 0), inner);
    assert_eq!(img.texel(0, 0), DVec3::ZERO);
}

#[test]
fn clone_keeps_size_and_pixels() {
    let mut img = Image::new((2, 2));
    img.put(1, 1, &DVec3::new(3.0, 2.0, 1.0));
    let copy = img.clone();
    assert_eq!(copy.size, img.size);
    assert_eq!(copy.data, img.data);
}

#[test]
fn tile_pixels_are_black_and_counted() {
    let img = Image::new((10, 7));
    let tile = img.get_tile((8, 4), (4, 4));
    assert_eq!(tile.size, (2, 3));
    assert_eq!(tile.pixels.len(), 6);
    for pixel in tile.pixels.iter() {
        assert_eq!(*pixel, DVec3::ZERO);
    }
    let empty = img.get_tile((10, 7), (4, 4));
    assert_eq!(empty.size, (0, 0));
    assert_eq!(empty.pixels.len(), 0);
}

#[test]
fn merge_places_each_tile_pixel() {
    let mut img = Image::new((5, 4));
    let mut tile = img.get_tile((3, 1), (4, 2));
    assert_eq!(tile.size, (2, 2));
    for i in 0..4 {
        tile.pixels[i] = DVec3::splat(i as f64 + 1.0);
    }
    img.merge_tile(tile);
    for y in 0..4u32 {
        for x in 0..5u32 {
            let expected = if (3..5).contains(&x) && (1..3).contains(&y) {
                DVec3::splat(((y - 1) * 2 + (x - 3)) as f64 + 1.0)
            } else {
                DVec3::ZERO
            };
            assert_eq!(img.get(x, y), Some(&expected));
        }
    }
}
