use tract_parcel::binary32::{
    divide, eq, from_i32, from_u64, le, lt, multiply, nan, plus, to_i32,
};

struct Lcg(u64);

impl Lcg {
    fn next(&mut self) -> u32 {
        self.0 = self.0.wrapping_mul(6364136223846793005).wrapping_add(1442695040888963407);
        (self.0 >> 32) as u32
    }
}

fn edge_patterns() -> Vec<u32> {
    vec![
        0x0000_0000, 0x8000_0000, 0x0000_0001, 0x8000_0001, 0x0000_0002, 0x0000_0003,
        0x007F_FFFF, 0x807F_FFFF, 0x0080_0000, 0x8080_0000, 0x0080_0001, 0x00FF_FFFF,
        0x0100_0000, 0x3380_0000, 0x3400_0000, 0x3EAA_AAAB, 0x3F00_0000, 0x3F7F_FFFF,
        0x3F80_0000, 0xBF80_0000, 0x3F80_0001, 0x3FC0_0000, 0x4000_0000, 0x4040_0000,
        0x3DCC_CCCD, 0x3F35_04F3, 0x3F13_CD3A, 0x447A_4000, 0x4B00_0000, 0x4B7F_FFFF,
        0x4B80_0000, 0x4B80_0001, 0x4EFF_FFFF, 0x4F00_0000, 0xCF00_0000, 0xCF00_0001,
        0x4F80_0000, 0x5F00_0000, 0x7F00_0000, 0x7F7F_FFFF, 0xFF7F_FFFF, 0x7F80_0000,
        0xFF80_0000, 0x7F80_0001, 0x7FC0_0000, 0xFFC0_0000, 0x7FFF_FFFF,
    ]
}

fn agree(ours: u32, theirs: f32) -> bool {
    if theirs.is_nan() {
        nan(ours)
    } else {
        ours == theirs.to_bits()
    }
}

#[test]
fn multiplication_matches_the_machine_on_edge_patterns() {
    for &a in edge_patterns().iter() {
        for &b in edge_patterns().iter() {
            let theirs = f32::from_bits(a) * f32::from_bits(b);
            assert!(agree(multiply(a, b), theirs), "{:08x} * {:08x}", a, b);
        }
    }
}

#[test]
fn division_matches_the_machine_on_edge_patterns() {
    for &a in edge_patterns().iter() {
        for &b in edge_patterns().iter() {
            let theirs = f32::from_bits(a) / f32::from_bits(b);
            assert!(agree(divide(a, b), theirs), "{:08x} / {:08x}", a, b);
        }
    }
}

#[test]
fn addition_matches_the_machine_on_edge_patterns() {
    for &a in edge_patterns().iter() {
        for &b in edge_patterns().iter() {
            let (a, b) = (a & 0x7FFF_FFFF, b & 0x7FFF_FFFF);
            let theirs = f32::from_bits(a) + f32::from_bits(b);
            assert!(agree(plus(a, b), theirs), "{:08x} + {:08x}", a, b);
        }
    }
}

#[test]
fn multiplication_matches_the_machine_on_many_patterns() {
    let mut g = Lcg(1);
    for _ in 0..200_000 {
        let (a, b) = (g.next(), g.next());
        let theirs = f32::from_bits(a) * f32::from_bits(b);
        assert!(agree(multiply(a, b), theirs), "{:08x} * {:08x}", a, b);
    }
}

#[test]
fn division_matches_the_machine_on_many_patterns() {
    let mut g = Lcg(2);
    for _ in 0..200_000 {
        let (a, b) = (g.next(), g.next());
        let theirs = f32::from_bits(a) / f32::from_bits(b);
        assert!(agree(divide(a, b), theirs), "{:08x} / {:08x}", a, b);
    }
}

#[test]
fn division_matches_the_machine_on_close_exponents() {
    let mut g = Lcg(3);
    for _ in 0..200_000 {
        let a = g.next();
        let shift = g.next() % 48;
        let field = ((a >> 23) & 0xFF) as i64 + shift as i64 - 24;
        let field = field.clamp(0, 255) as u32;
        let b = (g.next() & 0x807F_FFFF) | (field << 23);
        let theirs = f32::from_bits(a) / f32::from_bits(b);
        assert!(agree(divide(a, b), theirs), "{:08x} / {:08x}", a, b);
    }
}

#[test]
fn products_near_the_smallest_numbers_match_the_machine() {
    let mut g = Lcg(4);
    for _ in 0..200_000 {
        let a = (g.next() & 0x807F_FFFF) | ((g.next() % 64) << 23);
        let b = (g.next() & 0x807F_FFFF) | ((96 + g.next() % 64) << 23);
        let theirs = f32::from_bits(a) * f32::from_bits(b);
        assert!(agree(multiply(a, b), theirs), "{:08x} * {:08x}", a, b);
        let theirs = f32::from_bits(a) / f32::from_bits(b);
        assert!(agree(divide(a, b), theirs), "{:08x} / {:08x}", a, b);
    }
}

#[test]
fn addition_matches_the_machine_on_many_patterns() {
    let mut g = Lcg(5);
    for _ in 0..200_000 {
        let a = g.next() & 0x7FFF_FFFF;
        let shift = g.next() % 60;
        let field = ((a >> 23) & 0xFF) as i64 + shift as i64 - 30;
        let field = field.clamp(0, 255) as u32;
        let b = (g.next() & 0x007F_FFFF) | (field << 23);
        let theirs = f32::from_bits(a) + f32::from_bits(b);
        assert!(agree(plus(a, b), theirs), "{:08x} + {:08x}", a, b);
        let c = g.next() & 0x7FFF_FFFF;
        let theirs = f32::from_bits(a) + f32::from_bits(c);
        assert!(agree(plus(a, c), theirs), "{:08x} + {:08x}", a, c);
    }
}

#[test]
fn integers_convert_as_the_machine_converts_them() {
    let edges: [i32; 16] = [
        0, 1, -1, 2, 1001, 2035, 16777215, 16777216, 16777217, 16777218, 16777219, -16777217,
        33554433, i32::MAX, i32::MIN, i32::MIN + 1,
    ];
    for &p in edges.iter() {
        assert_eq!(from_i32(p), (p as f32).to_bits(), "{}", p);
    }
    let mut g = Lcg(6);
    for _ in 0..200_000 {
        let p = g.next() as i32;
        assert_eq!(from_i32(p), (p as f32).to_bits(), "{}", p);
        let q = p >> (g.next() % 32);
        assert_eq!(from_i32(q), (q as f32).to_bits(), "{}", q);
    }
}

#[test]
fn counts_convert_as_the_machine_converts_them() {
    let edges: [u64; 10] = [
        0, 1, 3, 16777216, 16777217, 16777219, 1 << 40, (1 << 40) + (1 << 16), u64::MAX,
        u64::MAX - (1 << 39),
    ];
    for &c in edges.iter() {
        assert_eq!(from_u64(c), (c as f32).to_bits(), "{}", c);
    }
    let mut g = Lcg(7);
    for _ in 0..200_000 {
        let c = ((g.next() as u64) << 32 | g.next() as u64) >> (g.next() % 64);
        assert_eq!(from_u64(c), (c as f32).to_bits(), "{}", c);
    }
}

#[test]
fn numbers_truncate_as_the_machine_truncates_them() {
    for &b in edge_patterns().iter() {
        assert_eq!(to_i32(b), f32::from_bits(b) as i32, "{:08x}", b);
    }
    let mut g = Lcg(8);
    for _ in 0..200_000 {
        let b = g.next();
        assert_eq!(to_i32(b), f32::from_bits(b) as i32, "{:08x}", b);
        let c = (b & 0x807F_FFFF) | ((120 + g.next() % 44) << 23);
        assert_eq!(to_i32(c), f32::from_bits(c) as i32, "{:08x}", c);
    }
}

#[test]
fn comparisons_match_the_machine() {
    for &a in edge_patterns().iter() {
        for &b in edge_patterns().iter() {
            let (x, y) = (f32::from_bits(a), f32::from_bits(b));
            assert_eq!(lt(a, b), x < y, "{:08x} < {:08x}", a, b);
            assert_eq!(le(a, b), x <= y, "{:08x} <= {:08x}", a, b);
            assert_eq!(eq(a, b), x == y, "{:08x} == {:08x}", a, b);
        }
    }
    let mut g = Lcg(9);
    for _ in 0..200_000 {
        let (a, b) = (g.next(), g.next());
        let (x, y) = (f32::from_bits(a), f32::from_bits(b));
        assert_eq!(lt(a, b), x < y);
        assert_eq!(le(a, b), x <= y);
        assert_eq!(eq(a, b), x == y);
    }
}

#[test]
fn one_third_is_the_nearest_number_to_it() {
    assert_eq!(divide(0x3F80_0000, 0x4040_0000), 0x3EAA_AAAB);
    assert_eq!(multiply(0x4040_0000, 0x3EAA_AAAB), 0x3F80_0000);
    assert_eq!(plus(0x3F80_0000, 0x3F80_0000), 0x4000_0000);
}
