use brot::canvas::Colour;
use brot::grid::PixelGrid;
use brot::iterate::Outcome;
use brot::normalize::background_colour;
use brot::normalize::linear_level;
use brot::normalize::render;
use brot::normalize::shade_cell;
use brot::normalize::sqrt_level;
use brot::normalize::to_colour;
use brot::normalize::to_colour1;
use brot::normalize::RenderError;
use brot::normalize::Transfer;

fn rgba(red: u8, green: u8, blue: u8, alpha: u8) -> Colour {
    Colour { red, green, blue, alpha }
}

fn grid_of(width: u32, height: u32, values: &[u32]) -> PixelGrid {
    let mut grid = PixelGrid::new(width, height).unwrap();
    for (loc, &v) in values.iter().enumerate() {
        grid.record(loc, Outcome::Diverged(v)).unwrap();
    }
    grid
}

fn bytes(grid: &PixelGrid, transfer: Transfer, curve: &Vec<u8>) -> Vec<u8> {
    match render(grid, transfer, curve) {
        Ok(canvas) => canvas.into_frame().rgba,
        Err(e) => panic!("not rendered: {:?}", e),
    }
}

fn log_curve(maximum: u32) -> Vec<u8> {
    let mut curve = vec![0u8; maximum as usize + 1];
    for v in 1..=maximum {
        curve[v as usize] = (255.0 * f64::from(v).ln() / f64::from(maximum).ln()).floor() as u8;
    }
    curve
}

#[test]
fn background_is_black_and_translucent() {
    assert_eq!(background_colour(), rgba(0, 0, 0, 220));
}

#[test]
fn logarithmic_colour_of_a_cell() {
    assert_eq!(to_colour(0, 10, 99), rgba(0, 0, 0, 220));
    assert_eq!(to_colour(5, 10, 201), rgba(0, 100, 201, 255));
    assert_eq!(to_colour(10, 10, 255), rgba(0, 127, 255, 255));
    assert_eq!(to_colour(1, 10, 0), rgba(0, 0, 0, 255));
}

#[test]
fn logarithmic_colour_of_a_degenerate_grid_is_background() {
    assert_eq!(to_colour(1, 1, 99), rgba(0, 0, 0, 220));
    assert_eq!(to_colour(0, 0, 99), rgba(0, 0, 0, 220));
    assert_eq!(to_colour1(1, 1, 99), rgba(0, 0, 0, 220));
    assert_eq!(to_colour1(0, 0, 99), rgba(0, 0, 0, 220));
}

#[test]
fn power_law_colour_of_a_cell() {
    assert_eq!(to_colour1(0, 10, 99), rgba(0, 0, 0, 220));
    assert_eq!(to_colour1(5, 10, 201), rgba(50, 100, 201, 255));
    assert_eq!(to_colour1(10, 10, 255), rgba(63, 127, 255, 255));
}

#[test]
fn linear_level_is_the_floor_of_the_ratio() {
    assert_eq!(linear_level(0, 7), 0);
    assert_eq!(linear_level(7, 7), 255);
    assert_eq!(linear_level(1, 2), 127);
    assert_eq!(linear_level(1, 3), 85);
    assert_eq!(linear_level(2, 3), 170);
    assert_eq!(linear_level(1, 4), 63);
    assert_eq!(linear_level(1, 255), 1);
    assert_eq!(linear_level(1, 256), 0);
}

#[test]
fn linear_level_of_large_counters() {
    assert_eq!(linear_level(u32::MAX, u32::MAX), 255);
    assert_eq!(linear_level(u32::MAX - 1, u32::MAX), 254);
    assert_eq!(linear_level(1, u32::MAX), 0);
    assert_eq!(linear_level(16_843_010, u32::MAX), 1);
    assert_eq!(linear_level(16_843_009, u32::MAX), 1);
    assert_eq!(linear_level(16_843_008, u32::MAX), 0);
}

#[test]
fn sqrt_level_is_the_floor_of_the_root() {
    assert_eq!(sqrt_level(0, 5), 0);
    assert_eq!(sqrt_level(5, 5), 255);
    assert_eq!(sqrt_level(1, 4), 127);
    assert_eq!(sqrt_level(1, 2), 180);
    assert_eq!(sqrt_level(1, 3), 147);
    assert_eq!(sqrt_level(2, 3), 208);
    assert_eq!(sqrt_level(1, 65025), 1);
    assert_eq!(sqrt_level(1, 65026), 0);
    assert_eq!(sqrt_level(4, 65025), 2);
    assert_eq!(sqrt_level(3, 65025), 1);
}

#[test]
fn sqrt_level_of_large_counters() {
    assert_eq!(sqrt_level(u32::MAX, u32::MAX), 255);
    assert_eq!(sqrt_level(u32::MAX - 1, u32::MAX), 254);
    assert_eq!(sqrt_level(1, u32::MAX), 0);
    assert_eq!(sqrt_level(1 << 30, u32::MAX), 127);
}

#[test]
fn sqrt_level_agrees_with_the_root_away_from_the_steps() {
    for maximum in [1u32, 2, 3, 10, 100, 12345] {
        for v in 0..=maximum.min(200) {
            let exact = 255.0 * (f64::from(v) / f64::from(maximum)).sqrt();
            if (exact - exact.round()).abs() > 1e-6 {
                assert_eq!(sqrt_level(v, maximum), exact.floor() as u8);
            }
        }
    }
}

#[test]
fn shade_of_one_cell_under_each_transfer() {
    let curve: Vec<u8> = vec![0, 0, 127, 202, 255];
    assert_eq!(shade_cell(Transfer::Identity, 0, 4, &curve), rgba(0, 0, 0, 220));
    assert_eq!(shade_cell(Transfer::Identity, 3, 4, &curve), rgba(255, 255, 255, 255));
    assert_eq!(shade_cell(Transfer::Logarithmic, 3, 4, &curve), rgba(0, 101, 202, 255));
    assert_eq!(shade_cell(Transfer::PowerLaw, 3, 4, &curve), rgba(50, 101, 202, 255));
    assert_eq!(shade_cell(Transfer::LinearRatio, 3, 4, &curve), rgba(0, 191, 191, 255));
    assert_eq!(shade_cell(Transfer::SqrtRatio, 3, 4, &curve), rgba(0, 220, 220, 255));
    assert_eq!(shade_cell(Transfer::LinearRatio, 0, 4, &curve), rgba(0, 0, 0, 255));
    assert_eq!(shade_cell(Transfer::LinearRatio, 0, 0, &curve), rgba(0, 0, 0, 220));
    assert_eq!(shade_cell(Transfer::SqrtRatio, 0, 0, &curve), rgba(0, 0, 0, 220));
}

#[test]
fn identity_rendering_is_binary() {
    let grid = grid_of(2, 2, &[0, 1, 2, 4]);
    assert_eq!(
        bytes(&grid, Transfer::Identity, &Vec::new()),
        vec![0, 0, 0, 220, 255, 255, 255, 255, 255, 255, 255, 255, 255, 255, 255, 255]
    );
}

#[test]
fn linear_rendering() {
    let grid = grid_of(2, 2, &[0, 1, 2, 4]);
    assert_eq!(
        bytes(&grid, Transfer::LinearRatio, &Vec::new()),
        vec![0, 0, 0, 255, 0, 63, 63, 255, 0, 127, 127, 255, 0, 255, 255, 255]
    );
}

#[test]
fn sqrt_rendering() {
    let grid = grid_of(2, 2, &[0, 1, 2, 4]);
    assert_eq!(
        bytes(&grid, Transfer::SqrtRatio, &Vec::new()),
        vec![0, 0, 0, 255, 0, 127, 127, 255, 0, 180, 180, 255, 0, 255, 255, 255]
    );
}

#[test]
fn logarithmic_rendering() {
    let grid = grid_of(2, 2, &[0, 1, 2, 4]);
    let curve: Vec<u8> = vec![0, 0, 127, 202, 255];
    assert_eq!(log_curve(4), curve);
    assert_eq!(
        bytes(&grid, Transfer::Logarithmic, &curve),
        vec![0, 0, 0, 220, 0, 0, 0, 255, 0, 63, 127, 255, 0, 127, 255, 255]
    );
}

#[test]
fn power_law_rendering() {
    let grid = grid_of(2, 2, &[0, 1, 2, 4]);
    let curve: Vec<u8> = vec![0, 0, 63, 160, 255];
    assert_eq!(
        bytes(&grid, Transfer::PowerLaw, &curve),
        vec![0, 0, 0, 220, 0, 0, 0, 255, 15, 31, 63, 255, 63, 127, 255, 255]
    );
}

#[test]
fn curve_must_reach_the_largest_value() {
    let grid = grid_of(2, 2, &[0, 1, 2, 4]);
    for transfer in [Transfer::Logarithmic, Transfer::PowerLaw] {
        for len in 0..5usize {
            assert!(matches!(
                render(&grid, transfer, &vec![9u8; len]),
                Err(RenderError::CurveTooShort)
            ));
        }
        assert!(render(&grid, transfer, &vec![9u8; 5]).is_ok());
        assert!(render(&grid, transfer, &vec![9u8; 50]).is_ok());
    }
    for transfer in [Transfer::Identity, Transfer::LinearRatio, Transfer::SqrtRatio] {
        assert!(render(&grid, transfer, &Vec::new()).is_ok());
    }
}

#[test]
fn grid_with_largest_value_one_is_all_background_under_logarithms() {
    let grid = grid_of(2, 2, &[0, 1, 0, 1]);
    let all_background: Vec<u8> = [0u8, 0, 0, 220].repeat(4);
    assert_eq!(bytes(&grid, Transfer::Logarithmic, &Vec::new()), all_background);
    assert_eq!(bytes(&grid, Transfer::PowerLaw, &Vec::new()), all_background);
    assert_eq!(
        bytes(&grid, Transfer::LinearRatio, &Vec::new()),
        vec![0, 0, 0, 255, 0, 255, 255, 255, 0, 0, 0, 255, 0, 255, 255, 255]
    );
}

#[test]
fn empty_grid_is_all_background_under_every_transfer() {
    let grid = PixelGrid::new(2, 3).unwrap();
    let all_background: Vec<u8> = [0u8, 0, 0, 220].repeat(6);
    for transfer in [
        Transfer::Identity,
        Transfer::Logarithmic,
        Transfer::PowerLaw,
        Transfer::LinearRatio,
        Transfer::SqrtRatio,
    ] {
        assert_eq!(bytes(&grid, transfer, &Vec::new()), all_background);
    }
}

#[test]
fn rendering_twice_gives_the_same_bytes() {
    let grid = grid_of(3, 2, &[0, 7, 2, 9, 4, 1]);
    let curve = log_curve(9);
    for transfer in [
        Transfer::Identity,
        Transfer::Logarithmic,
        Transfer::PowerLaw,
        Transfer::LinearRatio,
        Transfer::SqrtRatio,
    ] {
        let first = bytes(&grid, transfer, &curve);
        let second = bytes(&grid, transfer, &curve);
        assert_eq!(first, second);
        assert_eq!(first.len(), 24);
    }
    assert_eq!(grid.cells().clone(), vec![0, 7, 2, 9, 4, 1]);
}

#[test]
fn rendering_keeps_rows_and_columns_apart() {
    let grid = grid_of(3, 2, &[0, 1, 2, 3, 4, 5]);
    let frame = render(&grid, Transfer::LinearRatio, &Vec::new()).unwrap_or_else(|e| panic!("{:?}", e)).into_frame();
    assert_eq!(frame.width, 3);
    assert_eq!(frame.height, 2);
    assert_eq!(
        frame.rgba,
        vec![
            0, 0, 0, 255, 0, 51, 51, 255, 0, 102, 102, 255, 0, 153, 153, 255, 0, 204, 204, 255,
            0, 255, 255, 255
        ]
    );
}

#[test]
fn rendered_bytes_make_up_a_picture_of_the_same_extent() {
    let grid = grid_of(2, 3, &[0, 1, 2, 3, 4, 5]);
    let frame = match render(&grid, Transfer::LinearRatio, &Vec::new()) {
        Ok(canvas) => canvas.into_frame(),
        Err(e) => panic!("not rendered: {:?}", e),
    };
    assert_eq!(frame.width, 2);
    assert_eq!(frame.height, 3);
    let picture = image::RgbaImage::from_raw(frame.width, frame.height, frame.rgba).unwrap();
    assert_eq!(picture.get_pixel(0, 0).0, [0, 0, 0, 255]);
    assert_eq!(picture.get_pixel(1, 0).0, [0, 51, 51, 255]);
    assert_eq!(picture.get_pixel(0, 1).0, [0, 102, 102, 255]);
    assert_eq!(picture.get_pixel(1, 1).0, [0, 153, 153, 255]);
    assert_eq!(picture.get_pixel(0, 2).0, [0, 204, 204, 255]);
    assert_eq!(picture.get_pixel(1, 2).0, [0, 255, 255, 255]);
}

#[test]
fn picture_without_pixels() {
    let grid = PixelGrid::new(0, 7).unwrap();
    let frame = match render(&grid, Transfer::Logarithmic, &Vec::new()) {
        Ok(canvas) => canvas.into_frame(),
        Err(e) => panic!("not rendered: {:?}", e),
    };
    assert_eq!(frame.width, 0);
    assert_eq!(frame.height, 7);
    assert_eq!(frame.rgba, Vec::<u8>::new());
}
