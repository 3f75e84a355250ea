use hopfield_canvas::gen_image;
use hopfield_canvas::Cell;

#[test]
fn test_image_generation() {
    let width = 20;
    let height = 15;
    let image = gen_image(height, width);

    // Check dimensions
    assert_eq!(image.len(), (width * height) as usize);

    // Verify all cells are valid
    assert!(image
        .iter()
        .all(|&cell| cell == Cell::White || cell == Cell::Black));
}

#[test]
fn test_image_profile_deterministic_columns() {
    // With a width of 8 the ramp spans two columns per border: the outermost
    // columns have whiteness probability 0, every other column probability 1,
    // so the whole image is determined.
    let image = gen_image(3, 8);
    assert_eq!(image.len(), 24);
    for (i, &cell) in image.iter().enumerate() {
        let col = i % 8;
        if col == 0 || col == 7 {
            assert_eq!(cell, Cell::Black);
        } else {
            assert_eq!(cell, Cell::White);
        }
    }
}

#[test]
fn test_image_center_band_clean() {
    // Width 20: the ramp spans columns 0..5, the clean band columns 5..15.
    let width = 20usize;
    let image = gen_image(10, width as u32);
    for (i, &cell) in image.iter().enumerate() {
        let col = i % width;
        if (5..15).contains(&col) {
            assert_eq!(cell, Cell::White);
        }
        if col == 0 || col == width - 1 {
            assert_eq!(cell, Cell::Black);
        }
    }
}

#[test]
fn test_image_empty_surface() {
    let image = gen_image(0, 8);
    assert!(image.is_empty());
}
