use qwen3_burn::float::{add_floats, divide_floats, is_below};

/// Floats of all kinds: around the ends of the range and of the subnormal ones, and in between.
fn samples() -> Vec<u32> {
    let mut all = vec![0, 1, 2, 3, 0x7f_fffe, 0x7f_ffff, 0x80_0000, 0x80_0001, 0xff_ffff];
    all.extend([0x100_0000, 0x3f7f_ffff, 0x3f80_0000, 0x3f80_0001, 0x4b7f_ffff, 0x4b80_0000]);
    all.extend([0x7f7f_fffe, 0x7f7f_ffff, 0x7f00_0000, 0x7f80_0000, 0x7fc0_0000]);
    let mut x = 0x1234_5678_9abc_def1u64;
    for i in 0..150u32 {
        x ^= x << 13;
        x ^= x >> 7;
        x ^= x << 17;
        let word = (x >> 33) as u32 % 0x7f80_0000;
        all.push(word);
        // Near one, so that sums and quotients meet the middles between floats.
        all.push(0x3f00_0000 + word % 0x180_0000);
        all.push(0x3c00_0000 + (i << 19));
    }
    let negative: Vec<u32> = all.iter().map(|b| b | 0x8000_0000).collect();
    all.extend(negative);
    all
}

fn same(a: u32, b: f32) -> bool {
    let a = f32::from_bits(a);
    a == b || (a.is_nan() && b.is_nan())
}

#[test]
fn sums_are_those_of_the_machine() {
    let all = samples();
    for &a in &all {
        for &b in &all {
            let want = f32::from_bits(a) + f32::from_bits(b);
            assert!(same(add_floats(a, b), want), "{a:#x} {b:#x}");
        }
    }
}

#[test]
fn quotients_are_those_of_the_machine() {
    let all = samples();
    for &a in all.iter().filter(|a| f32::from_bits(**a).is_finite()) {
        for &b in all.iter().filter(|b| (1..0x7f80_0000).contains(*b)) {
            let want = f32::from_bits(a) / f32::from_bits(b);
            assert!(same(divide_floats(a, b), want), "{a:#x} {b:#x}");
        }
    }
}

#[test]
fn ties_go_to_the_even_float() {
    let tie = (2.0f32).powi(-24).to_bits();
    assert_eq!(add_floats(0x3f80_0000, tie), 0x3f80_0000);
    assert_eq!(add_floats(0x3f80_0001, tie), 0x3f80_0002);
    // The least float and half of it.
    assert_eq!(divide_floats(1, 2.0f32.to_bits()), 0);
    assert_eq!(divide_floats(3, 2.0f32.to_bits()), 2);
}

#[test]
fn draws_are_ordered_among_the_floats() {
    for bits in samples() {
        for draw in [0u32, 1, 2, 0x40_0000, 0x80_0000, 0xff_fffe, 0xff_ffff] {
            let r = draw as f32 / (1u32 << 24) as f32;
            assert_eq!(is_below(draw, bits), r < f32::from_bits(bits));
        }
    }
}
