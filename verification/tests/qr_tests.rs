use rusty::pack::pack_colors;
use rusty::qr::{generate_qr_lv_img_data, QrError};
use rusty::rusty_add;

#[test]
fn it_works() {
    let result = rusty_add(2, 2);
    assert_eq!(result, 4);
}

#[test]
fn pack_colors_all_dark() {
    let pixels = vec![true; 8];
    assert_eq!(pack_colors(&pixels), 0xFF);
}

#[test]
fn pack_colors_partial_run_pads_light() {
    let pixels = vec![true, false, true];
    assert_eq!(pack_colors(&pixels), 0xA0);
}

#[test]
fn pack_colors_empty() {
    let pixels: Vec<bool> = Vec::new();
    assert_eq!(pack_colors(&pixels), 0x00);
}

#[test]
fn pack_colors_msb_first() {
    let pixels = vec![true, false, false, true, true, true, false, true];
    assert_eq!(pack_colors(&pixels), 0x9D);
}

#[test]
fn hello_scale_one() {
    let mut buf = vec![0u8; 100];
    let info = generate_qr_lv_img_data(b"HELLO", 1, &mut buf).unwrap();
    assert_eq!(info.width, 21);
    assert_eq!(info.height, 21);
    assert_eq!(info.data_len, 63);
    // The finder patterns are fixed by the QR standard: row 0 starts with
    // seven dark modules and a light separator, and ends with seven dark
    // modules in columns 14..=20.
    assert_eq!(buf[0], 0xFE);
    assert_eq!(buf[2], 0xF8);
    // Bottom row of the bottom-left finder: same leading pattern.
    assert_eq!(buf[60], 0xFE);
}

#[test]
fn hello_scale_four() {
    let mut buf = vec![0u8; 2000];
    let info = generate_qr_lv_img_data(b"HELLO", 4, &mut buf).unwrap();
    assert_eq!(info.width, 84);
    assert_eq!(info.height, 84);
    assert_eq!(info.data_len, 924);
    // Scaled row 0 starts with two dark modules stretched to 8 pixels.
    assert_eq!(buf[0], 0xFF);
}

#[test]
fn bytes_written_matches_row_formula() {
    let mut buf = vec![0u8; 4000];
    let info = generate_qr_lv_img_data(b"HELLO", 5, &mut buf).unwrap();
    assert_eq!(info.width, 105);
    assert_eq!(info.height, 105);
    // 105 rows of ceil(105 / 8) == 14 bytes each.
    assert_eq!(info.data_len, 105 * 14);
}

#[test]
fn deterministic_across_buffer_sizes() {
    let mut small = vec![0u8; 1000];
    let mut large = vec![0xEEu8; 2000];
    let a = generate_qr_lv_img_data(b"HELLO", 4, &mut small).unwrap();
    let b = generate_qr_lv_img_data(b"HELLO", 4, &mut large).unwrap();
    assert_eq!(a.data_len, b.data_len);
    assert_eq!(a.width, b.width);
    assert_eq!(small[..a.data_len], large[..b.data_len]);
}

#[test]
fn zero_module_size_fails() {
    let mut buf = vec![0xABu8; 64];
    let r = generate_qr_lv_img_data(b"HELLO", 0, &mut buf);
    assert_eq!(r.unwrap_err(), QrError::InvalidInput);
    assert!(buf.iter().all(|&b| b == 0xAB));
}

#[test]
fn zero_module_size_fails_even_for_bad_message() {
    let long = vec![b'a'; 3000];
    let mut buf = vec![0xABu8; 64];
    let r = generate_qr_lv_img_data(&long, 0, &mut buf);
    assert_eq!(r.unwrap_err(), QrError::InvalidInput);
    assert!(buf.iter().all(|&b| b == 0xAB));
}

#[test]
fn message_too_long_fails() {
    let long = vec![b'a'; 3000];
    let mut buf = vec![0x11u8; 4096];
    let r = generate_qr_lv_img_data(&long, 1, &mut buf);
    assert_eq!(r.unwrap_err(), QrError::EncodingFailure);
    assert!(buf.iter().all(|&b| b == 0x11));
}

#[test]
fn dimension_overflow_fails_before_writing() {
    // 21 * 4000 == 84000 does not fit the 16-bit dimensions.
    let mut buf = vec![0x5Au8; 256];
    let r = generate_qr_lv_img_data(b"HELLO", 4000, &mut buf);
    assert_eq!(r.unwrap_err(), QrError::DimensionOverflow);
    assert!(buf.iter().all(|&b| b == 0x5A));
}

#[test]
fn buffer_too_small_fails() {
    let mut buf = vec![0u8; 62];
    let r = generate_qr_lv_img_data(b"HELLO", 1, &mut buf);
    assert_eq!(r.unwrap_err(), QrError::BufferTooSmall);
    assert_eq!(buf.len(), 62);
}

#[test]
fn empty_buffer_fails() {
    let mut buf: Vec<u8> = Vec::new();
    let r = generate_qr_lv_img_data(b"HELLO", 1, &mut buf);
    assert_eq!(r.unwrap_err(), QrError::BufferTooSmall);
    assert!(buf.is_empty());
}

#[test]
fn bytes_after_image_stay_untouched() {
    let mut buf = vec![0x77u8; 100];
    let info = generate_qr_lv_img_data(b"HELLO", 1, &mut buf).unwrap();
    assert_eq!(info.data_len, 63);
    assert!(buf[63..].iter().all(|&b| b == 0x77));
    assert_eq!(buf[0], 0xFE);
}

/// Reads pixel (`px`, `py`) of a packed 1-bit-per-pixel row-major bitmap.
fn unpack_pixel(data: &[u8], width: usize, py: usize, px: usize) -> bool {
    let row_bytes = (width + 7) / 8;
    let byte = data[py * row_bytes + px / 8];
    (byte >> (7 - (px % 8))) & 1 == 1
}

#[test]
fn unpack_and_downsample_reconstructs_modules() {
    let mut base = vec![0u8; 100];
    let a = generate_qr_lv_img_data(b"HELLO", 1, &mut base).unwrap();
    let n = a.width as usize;

    let mut scaled = vec![0u8; 4000];
    let b = generate_qr_lv_img_data(b"HELLO", 3, &mut scaled).unwrap();
    assert_eq!(b.width as usize, 3 * n);

    for my in 0..n {
        for mx in 0..n {
            let module = unpack_pixel(&base, n, my, mx);
            // Every pixel of the 3-by-3 block carries the module's color.
            for dy in 0..3 {
                for dx in 0..3 {
                    let px = unpack_pixel(&scaled, 3 * n, 3 * my + dy, 3 * mx + dx);
                    assert_eq!(px, module);
                }
            }
        }
    }
}
