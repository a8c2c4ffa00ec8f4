use renderer::Image;
use renderer::TileGrid;

#[test]
fn counts_round_up() {
    let grid = TileGrid::new((100, 56), 16);
    assert_eq!(grid.counts(), (7, 4));
    let exact = TileGrid::new((64, 32), 16);
    assert_eq!(exact.counts(), (4, 2));
    let none = TileGrid::new((0, 10), 16);
    assert_eq!(none.counts(), (0, 1));
    let wide = TileGrid::new((u32::MAX, 1), 1);
    assert_eq!(wide.counts(), (u32::MAX, 1));
}

#[test]
fn origins_go_row_by_row() {
    let grid = TileGrid::new((100, 56), 16);
    assert_eq!(grid.origin(0), (0, 0));
    assert_eq!(grid.origin(1), (16, 0));
    assert_eq!(grid.origin(6), (96, 0));
    assert_eq!(grid.origin(7), (0, 16));
    assert_eq!(grid.origin(27), (96, 48));
}

#[test]
fn every_pixel_lies_in_exactly_one_tile() {
    let size = (37u32, 23u32);
    let grid = TileGrid::new(size, 8);
    let (across, down) = grid.counts();
    let img = Image::new(size);
    let mut seen = vec![0u32; (size.0 * size.1) as usize];
    for index in 0..across * down {
        let tile = img.get_tile(grid.origin(index), (8, 8));
        for k in 0..tile.size.0 * tile.size.1 {
            let (x, y) = tile.get_xy(k);
            assert!(x < size.0 && y < size.1);
            seen[(y * size.0 + x) as usize] += 1;
        }
    }
    for count in seen {
        assert_eq!(count, 1);
    }
}
