use similar_images::fingerprint::{
    fingerprint, fingerprint_of_cells, fingerprint_of_grid, pack_channels, pack_grid, pack_pixel,
};
use similar_images::raster::DecodedImage;
use similar_images::resample::{luminance, resample};

const FIELDS: u64 = (1 << 48) | (1 << 32) | (1 << 16);

fn image_of(width: u32, height: u32, pixel: impl Fn(u32, u32) -> [u8; 4]) -> DecodedImage {
    let mut samples = Vec::new();
    for y in 0..height {
        for x in 0..width {
            samples.extend_from_slice(&pixel(x, y));
        }
    }
    DecodedImage::new(width, height, samples).expect("samples fit the dimensions")
}

fn gray(level: u8) -> [u8; 4] {
    [level, level, level, 255]
}

#[test]
fn channels_are_packed_sixteen_bits_apart() {
    assert_eq!(pack_channels(1, 2, 3, 4), 0x0001_0002_0003_0004);
    assert_eq!(pack_channels(255, 255, 255, 255), 0x00ff_00ff_00ff_00ff);
    assert_eq!(pack_channels(0, 0, 0, 0), 0);
    assert_eq!(pack_channels(0xab, 0, 0, 0), 0x00ab_0000_0000_0000);
    assert_eq!(pack_channels(0, 0, 0, 0xcd), 0xcd);
}

#[test]
fn missing_channels_count_as_zero() {
    assert_eq!(pack_pixel(&[]), 0);
    assert_eq!(pack_pixel(&[7]), 7 << 48);
    assert_eq!(pack_pixel(&[7, 9]), (7 << 48) | (9 << 32));
    assert_eq!(pack_pixel(&[1, 2, 3]), 0x0001_0002_0003_0000);
    assert_eq!(pack_pixel(&[1, 2, 3, 4]), 0x0001_0002_0003_0004);
}

#[test]
fn channels_beyond_the_fourth_do_not_count() {
    assert_eq!(pack_pixel(&[1, 2, 3, 4, 5, 6]), 0x0001_0002_0003_0004);
}

#[test]
fn uniform_cells_give_zero() {
    assert_eq!(fingerprint_of_cells(&[0; 64]), 0);
    assert_eq!(fingerprint_of_cells(&[12345; 64]), 0);
    assert_eq!(fingerprint_of_cells(&[u64::MAX; 64]), 0);
}

#[test]
fn bit_is_set_where_cell_is_above_the_mean() {
    let mut cells = [0u64; 64];
    for (i, cell) in cells.iter_mut().enumerate() {
        *cell = i as u64;
    }
    // The sum is 2016 and the mean 31, rounded down from 31.5.
    assert_eq!(fingerprint_of_cells(&cells), 0xffff_ffff_0000_0000);
}

#[test]
fn cell_equal_to_the_mean_is_not_set() {
    let mut cells = [10u64; 64];
    cells[5] = 11;
    // The mean is 10, rounded down: only cell 5 is above it.
    assert_eq!(fingerprint_of_cells(&cells), 1 << 5);
    cells[5] = 9;
    // The mean is 9, rounded down: all but cell 5 are above it.
    assert_eq!(fingerprint_of_cells(&cells), !(1u64 << 5));
}

#[test]
fn mean_is_the_sum_divided_by_sixty_four_rounded_down() {
    let mut cells = [0u64; 64];
    cells[0] = 63;
    assert_eq!(fingerprint_of_cells(&cells), 1);
    cells[0] = 64;
    cells[1] = 1;
    // The sum is 65 and the mean 1: cell 1 is at the mean, not above it.
    assert_eq!(fingerprint_of_cells(&cells), 1);
    cells[1] = 2;
    assert_eq!(fingerprint_of_cells(&cells), 0b11);
}

#[test]
fn highest_and_lowest_bits_stand_for_last_and_first_cell() {
    let mut cells = [0u64; 64];
    cells[63] = 1000;
    assert_eq!(fingerprint_of_cells(&cells), 1 << 63);
    cells[63] = 0;
    cells[0] = 1000;
    assert_eq!(fingerprint_of_cells(&cells), 1);
}

#[test]
fn large_cells_do_not_overflow_the_sum() {
    let mut cells = [u64::MAX; 64];
    cells[7] = u64::MAX - 1;
    assert_eq!(fingerprint_of_cells(&cells), !(1u64 << 7));
}

#[test]
fn lower_half_dark_and_light_are_complements_there() {
    let mut dark = [0u64; 64];
    let mut light = [0u64; 64];
    for i in 0..32 {
        let value = 100 + (i as u64) * 3;
        dark[i] = value;
        light[i] = value;
    }
    for i in 32..64 {
        dark[i] = 0;
        light[i] = 255;
    }
    let of_dark = fingerprint_of_cells(&dark);
    let of_light = fingerprint_of_cells(&light);
    assert_eq!(of_dark >> 32, 0);
    assert_eq!(of_light >> 32, 0xffff_ffff);
    assert_eq!((of_dark ^ of_light) >> 32, 0xffff_ffff);
}

#[test]
fn grid_is_packed_pixel_by_pixel() {
    let mut grid = Vec::new();
    for i in 0..64u8 {
        grid.extend_from_slice(&[i, i + 1, i + 2, 255]);
    }
    let cells = pack_grid(&grid);
    for i in 0..64u64 {
        assert_eq!(cells[i as usize], (i << 48) | ((i + 1) << 32) | ((i + 2) << 16) | 255);
    }
}

#[test]
fn fingerprint_of_grid_follows_the_cells() {
    let mut grid = Vec::new();
    for i in 0..64u8 {
        let level = if i % 2 == 0 { 200 } else { 20 };
        grid.extend_from_slice(&gray(level));
    }
    assert_eq!(fingerprint_of_grid(&grid), 0x5555_5555_5555_5555);
    assert_eq!(fingerprint_of_grid(&grid), fingerprint_of_cells(&pack_grid(&grid)));
}

#[test]
fn first_channel_outweighs_the_others() {
    let mut grid = vec![0u8; 256];
    // Cell 0 has the first channel at 1; cell 1 has all others at 255.
    grid[0] = 1;
    grid[5] = 255;
    grid[6] = 255;
    grid[7] = 255;
    let cells = pack_grid(&grid);
    assert_eq!(cells[0], 1 << 48);
    assert_eq!(cells[1], 0x0000_00ff_00ff_00ff);
    // The mean is a little above the sixty-fourth part of cell 0, far above cell 1.
    assert_eq!(fingerprint_of_grid(&grid), 0b01);
}

#[test]
fn image_needs_four_samples_for_each_pixel() {
    assert!(DecodedImage::new(2, 2, vec![0; 16]).is_some());
    assert!(DecodedImage::new(2, 2, vec![0; 15]).is_none());
    assert!(DecodedImage::new(2, 2, vec![0; 17]).is_none());
    assert!(DecodedImage::new(0, 0, Vec::new()).is_some());
    assert!(DecodedImage::new(0, 5, Vec::new()).is_some());
    assert!(DecodedImage::new(0, 0, vec![1]).is_none());
}

#[test]
fn image_gives_back_what_it_was_made_of() {
    let samples: Vec<u8> = (0..24).collect();
    let image = DecodedImage::new(3, 2, samples.clone()).unwrap();
    assert_eq!(image.width(), 3);
    assert_eq!(image.height(), 2);
    assert_eq!(image.samples(), &samples);
}

#[test]
fn luminance_weighs_the_colours() {
    let image = DecodedImage::new(
        2,
        2,
        vec![255, 0, 0, 255, 0, 255, 0, 128, 0, 0, 255, 0, 255, 255, 255, 7],
    )
    .unwrap();
    // 2126, 7152 and 722 parts in ten thousand, rounded down; alpha as it is.
    assert_eq!(luminance(&image), vec![54, 255, 182, 128, 18, 0, 255, 7]);
}

#[test]
fn luminance_of_gray_is_the_gray() {
    let image = image_of(4, 1, |x, _| gray((x * 60) as u8));
    assert_eq!(luminance(&image), vec![0, 255, 60, 255, 120, 255, 180, 255]);
}

#[test]
fn resampled_grid_has_sixty_four_pixels() {
    let large = image_of(16, 16, |x, y| gray((x * y) as u8));
    assert_eq!(resample(&large).len(), 256);
    let small = image_of(3, 2, |x, y| gray((40 * x + y) as u8));
    assert_eq!(resample(&small).len(), 256);
    let wide = image_of(100, 1, |x, _| gray(x as u8));
    assert_eq!(resample(&wide).len(), 256);
}

#[test]
fn image_of_grid_size_is_resampled_to_its_luminance() {
    let image = image_of(8, 8, |x, y| [(x * 30) as u8, (y * 30) as u8, 0, (x + y) as u8]);
    let gray = luminance(&image);
    let grid = resample(&image);
    for i in 0..64 {
        let (level, alpha) = (gray[2 * i], gray[2 * i + 1]);
        assert_eq!(&grid[4 * i..4 * i + 4], &[level, level, level, alpha]);
    }
}

#[test]
fn fingerprint_is_the_same_each_time() {
    let image = image_of(37, 23, |x, y| [(x * 7) as u8, (y * 11) as u8, (x * y) as u8, 255]);
    let first = fingerprint(&image);
    assert_eq!(fingerprint(&image), first);
    let again = image_of(37, 23, |x, y| [(x * 7) as u8, (y * 11) as u8, (x * y) as u8, 255]);
    assert_eq!(fingerprint(&again), first);
    assert_eq!(fingerprint_of_grid(&resample(&image)), first);
}

#[test]
fn uniform_image_has_fingerprint_zero() {
    for (width, height) in [(1, 1), (8, 8), (16, 16), (13, 7), (3, 50)] {
        for pixel in [[0, 0, 0, 0], [255, 255, 255, 255], [10, 200, 90, 255], [1, 2, 3, 4]] {
            let image = image_of(width, height, |_, _| pixel);
            assert_eq!(fingerprint(&image), 0, "{width}x{height} of {pixel:?}");
        }
    }
}

#[test]
fn empty_image_has_fingerprint_zero() {
    let image = DecodedImage::new(0, 0, Vec::new()).unwrap();
    assert_eq!(resample(&image), vec![0u8; 256]);
    assert_eq!(fingerprint(&image), 0);
}

#[test]
fn ramp_of_grid_size_sets_the_brighter_half() {
    // Gray levels 0, 4, .., 252 in scan order: the mean level is 126.
    let image = image_of(8, 8, |x, y| gray(((y * 8 + x) * 4) as u8));
    let grid = resample(&image);
    let cells = pack_grid(&grid);
    assert_eq!(cells[10], 40 * FIELDS + 255);
    assert_eq!(fingerprint(&image), 0xffff_ffff_0000_0000);
}

#[test]
fn dark_and_light_lower_halves_flip_the_upper_bits() {
    let dark = image_of(16, 16, |_, y| if y < 8 { gray(128) } else { gray(0) });
    let light = image_of(16, 16, |_, y| if y < 8 { gray(128) } else { gray(255) });
    let of_dark = fingerprint(&dark);
    let of_light = fingerprint(&light);
    assert_eq!(of_dark, 0x0000_0000_ffff_ffff);
    assert_eq!(of_light, 0xffff_ffff_0000_0000);
    assert_eq!(of_dark >> 32, !(of_light >> 32) & 0xffff_ffff);
}

#[test]
fn left_and_right_halves_show_in_each_row() {
    let image = image_of(32, 32, |x, _| if x < 16 { gray(250) } else { gray(5) });
    assert_eq!(fingerprint(&image), 0x0f0f_0f0f_0f0f_0f0f);
}

#[test]
fn alpha_alone_can_set_a_bit() {
    // Same colour everywhere; one pixel of the grid is more opaque.
    let image = image_of(8, 8, |x, y| if (x, y) == (2, 1) { [9, 9, 9, 200] } else { [9, 9, 9, 100] });
    assert_eq!(fingerprint(&image), 1 << 10);
}
