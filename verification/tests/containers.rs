use kernel::bitfield::Bitfield;
use kernel::math::ceil_div;
use kernel::math::integer_linear_interpolation;
use kernel::math::pow2;
use kernel::math::pseudo_rand;

#[test]
fn bitfield_set0() {
    let mut bitfield = Bitfield::new(42).unwrap();
    assert_eq!(bitfield.len(), 42);
    for i in 0..bitfield.len() {
        assert!(!bitfield.is_set(i));
    }
    for i in 0..bitfield.len() {
        bitfield.set(i);
    }
    for i in 0..bitfield.len() {
        assert!(bitfield.is_set(i));
    }
    assert_eq!(bitfield.set_count(), 42);
}

#[test]
fn bitfield_clear0() {
    let mut bitfield = Bitfield::new(42).unwrap();
    assert_eq!(bitfield.len(), 42);
    for i in 0..bitfield.len() {
        bitfield.set(i);
    }
    for i in 0..bitfield.len() {
        assert!(bitfield.is_set(i));
    }
    for i in 0..bitfield.len() {
        bitfield.clear(i);
    }
    for i in 0..bitfield.len() {
        assert!(!bitfield.is_set(i));
    }
    assert_eq!(bitfield.set_count(), 0);
}

#[test]
fn bitfield_counts_each_bit_once() {
    let mut bitfield = Bitfield::new(10).unwrap();
    assert_eq!(bitfield.mem_size(), 2);
    bitfield.set(3);
    bitfield.set(3);
    bitfield.set(9);
    assert_eq!(bitfield.set_count(), 2);
    assert!(bitfield.is_set(3));
    assert!(!bitfield.is_set(4));
    bitfield.clear(4);
    assert_eq!(bitfield.set_count(), 2);
    bitfield.clear(3);
    assert_eq!(bitfield.set_count(), 1);
    assert!(bitfield.is_set(9));
    assert_eq!(Bitfield::new(0).unwrap().mem_size(), 0);
    assert_eq!(Bitfield::new(8).unwrap().mem_size(), 1);
    assert_eq!(Bitfield::new(9).unwrap().mem_size(), 2);
}

#[test]
fn gcd() {
    assert_eq!(kernel::math::gcd(2, 2), 2);
    assert_eq!(kernel::math::gcd(4, 2), 2);
    assert_eq!(kernel::math::gcd(4, 4), 4);
    assert_eq!(kernel::math::gcd(8, 12), 4);
    assert_eq!(kernel::math::gcd(48, 18), 6);
    assert_eq!(kernel::math::gcd(0, 5), 5);
    assert_eq!(kernel::math::gcd(5, 0), 5);
    assert_eq!(kernel::math::gcd(0, 0), 0);
    assert_eq!(kernel::math::gcd(17, 5), 1);
}

#[test]
fn ceil_div_values() {
    assert_eq!(ceil_div(0, 8), 0);
    assert_eq!(ceil_div(1, 8), 1);
    assert_eq!(ceil_div(8, 8), 1);
    assert_eq!(ceil_div(9, 8), 2);
    assert_eq!(ceil_div(42, 8), 6);
    assert_eq!(ceil_div(usize::MAX, 1), usize::MAX);
    assert_eq!(ceil_div(usize::MAX, usize::MAX), 1);
}

#[test]
fn pow2_values() {
    assert_eq!(pow2(0), 1);
    assert_eq!(pow2(1), 2);
    assert_eq!(pow2(10), 1024);
    assert_eq!(pow2(63), 1u64 << 63);
}

#[test]
fn interpolation_values() {
    assert_eq!(integer_linear_interpolation(5, 0, 0, 10, 100), 50);
    assert_eq!(integer_linear_interpolation(0, 0, 7, 10, 100), 7);
    assert_eq!(integer_linear_interpolation(10, 0, 7, 10, 100), 100);
    assert_eq!(integer_linear_interpolation(1, 0, 0, 3, 10), 3);
    assert_eq!(integer_linear_interpolation(1, 0, 0, 3, -10), -3);
    assert_eq!(integer_linear_interpolation(2, 3, 10, 0, 0), 7);
    assert_eq!(integer_linear_interpolation(-1, 0, 0, 3, 10), -3);
    assert_eq!(integer_linear_interpolation(i64::MIN, 0, 0, 2, 1), i64::MIN / 2);
    assert_eq!(integer_linear_interpolation(i64::MIN, 0, 3, -2, 4), 4611686018427387907);
    assert_eq!(integer_linear_interpolation(5, 0, 9, i64::MIN, 10), 9);
    assert_eq!(integer_linear_interpolation(i64::MIN, 0, 1, i64::MIN, 2), 2);
    assert_eq!(integer_linear_interpolation(i64::MIN, 0, -1, -1, 0), i64::MAX);
}

#[test]
fn pseudo_rand_values() {
    assert_eq!(pseudo_rand(1, 2, 3, 7), 5);
    assert_eq!(pseudo_rand(0, 1103515245, 12345, 1 << 31), 12345);
    assert_eq!(pseudo_rand(12345, 1103515245, 12345, 1 << 31), 1406932606);
    assert_eq!(pseudo_rand(u32::MAX, u32::MAX, u32::MAX, 1000), 0);
}
