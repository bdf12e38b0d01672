use thumbnailer::plan::{
    plan, Filter, Pass, ScaleError, SHARPEN_SIGMA_BITS, SHARPEN_THRESHOLD,
};
use thumbnailer::ratio::Ratio;

fn parsed(value: f32) -> Ratio {
    Ratio::from_bits(value.to_bits()).unwrap()
}

fn triangle(width: u32, height: u32) -> Pass {
    Pass { width, height, filter: Filter::Triangle }
}

fn catmull_rom(width: u32, height: u32) -> Pass {
    Pass { width, height, filter: Filter::CatmullRom }
}

/// The passes as the loop over a single-precision ratio finds them.
fn by_machine(width: u32, height: u32, ratio: f32) -> Option<Vec<Pass>> {
    let mut list = Vec::new();
    let (mut w, mut h, mut r) = (width, height, ratio);
    while r < 0.5 {
        w /= 2;
        h /= 2;
        if w == 0 || h == 0 {
            return None;
        }
        list.push(triangle(w, h));
        r *= 2.0;
    }
    if w == 0 || h == 0 {
        return None;
    }
    if r != 1.0 {
        list.push(catmull_rom(((w as f32) * r) as u32, ((h as f32) * r) as u32));
    }
    Some(list)
}

fn next(state: &mut u64) -> u64 {
    *state = state.wrapping_mul(6364136223846793005).wrapping_add(1442695040888963407);
    *state >> 11
}

#[test]
fn one_half_takes_the_fine_pass_alone() {
    assert_eq!(plan(1000, 800, parsed(0.5)), Ok(vec![catmull_rom(500, 400)]));
}

#[test]
fn one_quarter_halves_once() {
    assert_eq!(plan(1000, 800, parsed(0.25)), Ok(vec![triangle(500, 400), catmull_rom(250, 200)]));
}

#[test]
fn one_eighth_halves_twice() {
    assert_eq!(
        plan(1000, 800, parsed(0.125)),
        Ok(vec![triangle(500, 400), triangle(250, 200), catmull_rom(125, 100)])
    );
}

#[test]
fn just_below_one_half_halves_once() {
    let list = plan(1000, 800, parsed(0.499)).unwrap();
    assert_eq!(list, vec![triangle(500, 400), catmull_rom(499, 399)]);
    let list = plan(1000, 800, parsed(0.49999997)).unwrap();
    assert_eq!(list.len(), 2);
    assert_eq!(list[0], triangle(500, 400));
    assert_eq!(list[1].filter, Filter::CatmullRom);
}

#[test]
fn just_above_one_half_does_not_halve() {
    assert_eq!(plan(1000, 800, parsed(0.501)), Ok(vec![catmull_rom(501, 400)]));
    assert_eq!(plan(1000, 800, parsed(0.50000006)).unwrap().len(), 1);
}

#[test]
fn one_resizes_nothing() {
    assert_eq!(plan(1000, 800, parsed(1.0)), Ok(vec![]));
    assert_eq!(plan(1, 1, parsed(1.0)), Ok(vec![]));
    assert_eq!(plan(u32::MAX, u32::MAX, parsed(1.0)), Ok(vec![]));
}

#[test]
fn a_small_ratio_halves_many_times() {
    let list = plan(1000, 800, parsed(0.01)).unwrap();
    assert_eq!(
        list,
        vec![
            triangle(500, 400),
            triangle(250, 200),
            triangle(125, 100),
            triangle(62, 50),
            triangle(31, 25),
            triangle(15, 12),
            catmull_rom(9, 7),
        ]
    );
}

#[test]
fn odd_lengths_are_halved_downwards() {
    assert_eq!(plan(1001, 799, parsed(0.25)), Ok(vec![triangle(500, 399), catmull_rom(250, 199)]));
}

#[test]
fn halving_to_nothing_is_refused() {
    assert_eq!(plan(1, 1, parsed(0.25)), Err(ScaleError::Degenerate));
    assert_eq!(plan(1000, 1, parsed(0.25)), Err(ScaleError::Degenerate));
    assert_eq!(plan(1, 1000, parsed(0.25)), Err(ScaleError::Degenerate));
    assert_eq!(plan(3, 1000, parsed(0.125)), Err(ScaleError::Degenerate));
    assert_eq!(plan(1000, 800, parsed(0.0001)), Err(ScaleError::Degenerate));
    assert_eq!(plan(u32::MAX, u32::MAX, Ratio::from_bits(1).unwrap()), Err(ScaleError::Degenerate));
    assert_eq!(plan(u32::MAX, u32::MAX, parsed(1.0e-10)), Err(ScaleError::Degenerate));
}

#[test]
fn an_image_without_pixels_is_refused() {
    assert_eq!(plan(0, 0, parsed(1.0)), Err(ScaleError::Degenerate));
    assert_eq!(plan(0, 10, parsed(0.5)), Err(ScaleError::Degenerate));
    assert_eq!(plan(10, 0, parsed(0.75)), Err(ScaleError::Degenerate));
    assert_eq!(plan(0, 0, parsed(0.1)), Err(ScaleError::Degenerate));
}

#[test]
fn the_fine_pass_may_leave_nothing() {
    // only halving is guarded: the last pass takes the floor as it comes
    assert_eq!(plan(1, 1, parsed(0.5)), Ok(vec![catmull_rom(0, 0)]));
    assert_eq!(plan(3, 1000, parsed(0.25)), Ok(vec![triangle(1, 500), catmull_rom(0, 250)]));
}

#[test]
fn halving_stops_at_one_pixel() {
    assert_eq!(plan(2, 2, parsed(0.25)), Ok(vec![triangle(1, 1), catmull_rom(0, 0)]));
    assert_eq!(plan(2, 2, parsed(0.125)), Err(ScaleError::Degenerate));
}

#[test]
fn the_largest_image_is_planned() {
    let list = plan(u32::MAX, u32::MAX, parsed(0.25)).unwrap();
    assert_eq!(list, vec![triangle(2147483647, 2147483647), catmull_rom(1073741824, 1073741824)]);
}

#[test]
fn plans_agree_with_the_machine() {
    let mut state = 7u64;
    for round in 0..30000 {
        let bits = 1 + (next(&mut state) % 0x3F80_0000) as u32;
        let bits = if round % 2 == 0 { bits | 0x3C00_0000 } else { bits };
        let bits = bits.min(0x3F80_0000);
        let width = (next(&mut state) >> (next(&mut state) % 40)) as u32;
        let height = (next(&mut state) >> (next(&mut state) % 40)) as u32;
        let ratio = Ratio::from_bits(bits).unwrap();
        let expected = by_machine(width, height, f32::from_bits(bits));
        assert_eq!(plan(width, height, ratio).ok(), expected);
    }
}

#[test]
fn every_pass_shrinks() {
    let mut state = 11u64;
    for _ in 0..20000 {
        let bits = 0x3A00_0000 + (next(&mut state) % 0x0580_0001) as u32;
        let width = 1 + (next(&mut state) % 70000) as u32;
        let height = 1 + (next(&mut state) % 70000) as u32;
        if let Ok(list) = plan(width, height, Ratio::from_bits(bits).unwrap()) {
            let (mut w, mut h) = (width, height);
            for (at, pass) in list.iter().enumerate() {
                assert!(w > 0 && h > 0);
                assert!(pass.width <= w && pass.height <= h);
                let last = at + 1 == list.len();
                assert_eq!(pass.filter == Filter::CatmullRom, last && bits != 0x3F80_0000);
                if pass.filter == Filter::Triangle {
                    assert_eq!((pass.width, pass.height), (w / 2, h / 2));
                } else {
                    assert!(pass.width < w && pass.height < h);
                }
                w = pass.width;
                h = pass.height;
            }
        }
    }
}

#[test]
fn the_final_size_is_within_a_pixel_of_the_exact_product() {
    let mut state = 13u64;
    for _ in 0..20000 {
        let bits = 0x3A00_0000 + (next(&mut state) % 0x0580_0001) as u32;
        let width = 1 + (next(&mut state) % 16777216) as u32;
        let height = 1 + (next(&mut state) % 70000) as u32;
        let ratio = f32::from_bits(bits);
        if let Ok(list) = plan(width, height, Ratio::from_bits(bits).unwrap()) {
            let (w, h) = match list.last() {
                Some(pass) => (pass.width, pass.height),
                None => (width, height),
            };
            let exact_w = ((width as f64) * (ratio as f64)).floor() as i64;
            let exact_h = ((height as f64) * (ratio as f64)).floor() as i64;
            assert!((w as i64 - exact_w).abs() <= 1);
            assert!((h as i64 - exact_h).abs() <= 1);
        }
    }
}

#[test]
fn up_to_25_bits_the_final_size_is_within_two_pixels() {
    let ratio = Ratio::from_bits(0x3F52_E246).unwrap();
    let list = plan(19980591, 1, ratio).unwrap();
    assert_eq!(list, vec![catmull_rom(16459316, 0)]);
    let exact = ((19980591.0f64) * (f32::from_bits(0x3F52_E246) as f64)).floor();
    assert_eq!(exact, 16459314.0);
    let mut state = 23u64;
    for _ in 0..20000 {
        let bits = 0x3A00_0000 + (next(&mut state) % 0x0580_0001) as u32;
        let halvings = (0x3F00_0000u32.saturating_sub(bits) + 0x7F_FFFF) >> 23;
        let width = (1 + next(&mut state) % (1u64 << (25 + halvings).min(32))) as u32;
        let ratio = f32::from_bits(bits);
        if let Ok(list) = plan(width, 1 << halvings, Ratio::from_bits(bits).unwrap()) {
            let w = list.last().map_or(width, |pass| pass.width);
            let exact = ((width as f64) * (ratio as f64)).floor() as i64;
            assert!((w as i64 - exact).abs() <= 2, "{} {:#x}", width, bits);
        }
    }
}

#[test]
fn beyond_25_bits_the_final_size_strays_from_the_exact_product() {
    let ratio = Ratio::from_bits(0x3F75_40EF).unwrap();
    let list = plan(50099198, 1, ratio).unwrap();
    assert_eq!(list, vec![catmull_rom(47996140, 0)]);
    let exact = ((50099198.0f64) * (f32::from_bits(0x3F75_40EF) as f64)).floor();
    assert_eq!(exact, 47996136.0);
    let list = plan(2147483775, 2147483775, parsed(0.75)).unwrap();
    assert_eq!(list, vec![catmull_rom(1610612736, 1610612736)]);
    assert_eq!(((2147483775.0f64) * 0.75).floor(), 1610612831.0);
}

#[test]
fn with_ratio_one_the_size_stays() {
    for (width, height) in [(1u32, 1u32), (37, 53), (65535, 1), (16777217, 3), (u32::MAX, 7)] {
        assert_eq!(plan(width, height, parsed(1.0)), Ok(vec![]));
    }
}

#[test]
fn the_unsharp_mask_is_set_to_one_and_a_half_and_five() {
    assert_eq!(f32::from_bits(SHARPEN_SIGMA_BITS), 1.5);
    assert_eq!(SHARPEN_THRESHOLD, 5);
}
