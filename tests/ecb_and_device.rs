use glassworks::{ecb_calc, Device};

#[test]
fn ecb_calc_is_correct() {
    let test = [0x00, 0x00, 0x00, 0x00, 0x00, 0x00, 0x00, 0x00, 0x00, 0x00, 0x00, 0x00, 0x00, 0x00, 0x00, 0x00, 0x00, 0x00, 0x00, 0x00, 0x00, 0x00, 0x00, 0x00, 0x00, 0x00, 0x00, 0x00, 0x00, 0x00, 0x00, 0x00, 0x00, 0x00, 0x00, 0x00, 0x00, 0x00, 0x00, 0x00, 0x00, 0x00, 0x00, 0x00, 0x00, 0x00, 0x00, 0x00, 0x00, 0x00, 0x00, 0x00, 0x00, 0x00, 0x00, 0x00, 0x00, 0x00, 0x00, 0x00, 0x00, 0x00, 0x00, 0x00, 0x00, 0x00, 0x00, 0x00, 0x00, 0x00, 0x00, 0x00, 0x00, 0x00, 0x00, 0x00, 0x00, 0x00, 0x00, 0x00, 0x00, 0x00, 0x00, 0x00, 0x00, 0x00, 0x00, 0x00, 0x00, 0x00, 0x00, 0x00, 0x00, 0x00, 0x00, 0x00, 0x00, 0x00, 0x00, 0x00, 0x00, 0x00, 0x00, 0x00];
    assert_eq!(ecb_calc(&test), 0x67);
    let test = [0x00, 0x00, 0x00, 0x00, 0x00, 0x00, 0x00, 0x00, 0x00, 0x00, 0x00, 0x00, 0x00, 0x00, 0x00, 0x00, 0x00, 0x00, 0x00, 0x00, 0x00, 0x00, 0x00, 0x00, 0x00, 0x00, 0x00, 0x00, 0x00, 0x00, 0x00, 0x00, 0x00, 0x00, 0x00, 0x00, 0x00, 0x00, 0x00, 0x00, 0x00, 0x00, 0x00, 0x00, 0x00, 0x00, 0x00, 0x00, 0x00, 0x00, 0x00, 0x00, 0x00, 0x00, 0x00, 0x00, 0x00, 0x00, 0x00, 0x00, 0x00, 0x00, 0x00, 0x00, 0x00, 0x00, 0x00, 0x00, 0x00, 0x00, 0x00, 0x00, 0x00, 0x00, 0x00, 0x00, 0x00, 0x00, 0x00, 0x00, 0x20, 0x02, 0x00, 0x00, 0x00, 0x00, 0x00, 0x00, 0x00, 0x10, 0x00, 0x00, 0x01, 0x00, 0x00, 0x10, 0x00, 0x00, 0x01, 0x00, 0x00, 0x00, 0x00, 0x00];
    assert_eq!(ecb_calc(&test), 0xAB);
}

#[test]
fn ecb_single_byte_is_itself() {
    assert_eq!(ecb_calc(&[0x5a]), 0x5a);
    assert_eq!(ecb_calc(&[0xff]), 0xff);
}

#[test]
fn ecb_exact_values() {
    // 1, then 1 + 0 + 1 (no carry out of the previous step)
    assert_eq!(ecb_calc(&[1, 0]), 2);
    // 255 + 1 + 1 = 257 sets bit 8, so the next step adds no carry: 1 + 0 + 0
    assert_eq!(ecb_calc(&[255, 1, 0]), 1);
    // 0, 0 + 1 + 1 = 2, 2 + 255 + 1 = 258
    assert_eq!(ecb_calc(&[0, 1, 255]), 2);
    assert_eq!(ecb_calc(&[0, 0, 0]), 2);
}

#[test]
fn ecb_is_deterministic() {
    let p: Vec<u8> = (0..200u32).map(|i| (i * 37 % 256) as u8).collect();
    let q = p.clone();
    assert_eq!(ecb_calc(&p), ecb_calc(&q));
    assert_eq!(ecb_calc(&p), ecb_calc(&p));
}

#[test]
fn ecb_is_order_sensitive() {
    let p = [255u8, 1, 0];
    let mut r = p;
    r.reverse();
    assert_ne!(ecb_calc(&p), ecb_calc(&r));
}

#[test]
fn device_lookup() {
    assert_eq!(Device::try_from_jtag(0x1390E01D), Some(Device::Mpa1016));
    assert_eq!(Device::try_from_jtag(0x1391E01D), Some(Device::Mpa1036));
    assert_eq!(Device::try_from_jtag(0x1393401D), Some(Device::Mpa1064));
    assert_eq!(Device::try_from_jtag(0x1392001D), Some(Device::Mpa1100));
    assert_eq!(Device::try_from_jtag(0x1392001C), None);
    assert_eq!(Device::try_from_jtag(0), None);
    assert_eq!(Device::try_from_jtag(u32::MAX), None);
}

#[test]
fn device_geometry() {
    assert_eq!((Device::Mpa1016.rows(), Device::Mpa1016.bytes_per_row()), (95, 72));
    assert_eq!((Device::Mpa1036.rows(), Device::Mpa1036.bytes_per_row()), (139, 105));
    assert_eq!((Device::Mpa1064.rows(), Device::Mpa1064.bytes_per_row()), (183, 138));
    assert_eq!((Device::Mpa1100.rows(), Device::Mpa1100.bytes_per_row()), (227, 170));
}
