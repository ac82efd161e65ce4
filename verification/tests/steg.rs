use rmsteg::pixel::{Pixel, PixelGrid};
use rmsteg::random_matrix::RandMatrix;
use rmsteg::steganography::RMSteg;
use rmsteg::StegError;

fn grid(width: usize, height: usize, red: u8) -> PixelGrid {
    let mut pixels = Vec::new();
    for _ in 0..width * height {
        pixels.push(Pixel { r: red, g: 7, b: 8, a: 9 });
    }
    PixelGrid { width, height, pixels }
}

#[test]
fn matrix_is_deterministic() {
    let m1 = RandMatrix::from_seed_u64(19990529);
    let m2 = RandMatrix::from_seed_u64(19990529);
    for x in 0..256 {
        for y in 0..256 {
            assert_eq!(
                m1.get_val_from_random_matrix(x, y),
                m2.get_val_from_random_matrix(x, y)
            );
        }
    }
}

#[test]
fn matrix_depends_on_seed() {
    let m1 = RandMatrix::from_seed_u64(1);
    let m2 = RandMatrix::from_seed_u64(2);
    let mut differs = false;
    for x in 0..256 {
        for y in 0..256 {
            if m1.get_val_from_random_matrix(x, y) != m2.get_val_from_random_matrix(x, y) {
                differs = true;
            }
        }
    }
    assert!(differs);
}

#[test]
fn matrix_values_are_digits() {
    let m = RandMatrix::from_seed_u64(77);
    for x in 0..256 {
        for y in 0..256 {
            assert!(m.get_val_from_random_matrix(x, y) < 9);
        }
    }
}

#[test]
fn transform_roundtrip_all_bytes() {
    for b in 0..=255u8 {
        let digits = RMSteg::transform(&[b]);
        assert_eq!(digits.len(), 3);
        for &d in digits.iter() {
            assert!(d < 9);
        }
        let back = RMSteg::re_transform(digits);
        assert_eq!(back, vec![b]);
    }
}

#[test]
fn transform_exact_digits() {
    // 65 = 0*81 + 7*9 + 2
    assert_eq!(RMSteg::transform(b"A"), vec![0, 7, 2]);
    assert_eq!(RMSteg::transform(&[255]), vec![3, 1, 3]);
    assert_eq!(RMSteg::transform(&[]), Vec::<u8>::new());
}

#[test]
fn length_prefix_roundtrip() {
    for n in [0usize, 1, 8, 9, 80, 81, 728, 729, 6560, 6561, 59047, 59048] {
        let mut prefix = RMSteg::transform_length_prefix(n);
        assert_eq!(prefix.len(), 5);
        let back = RMSteg::re_transform_length_prefix(&mut prefix) as usize;
        assert_eq!(back, n);
        assert!(prefix.is_empty());
    }
}

#[test]
fn length_prefix_exact_digits() {
    assert_eq!(RMSteg::transform_length_prefix(0), vec![0, 0, 0, 0, 0]);
    assert_eq!(RMSteg::transform_length_prefix(3), vec![0, 0, 0, 0, 3]);
    assert_eq!(RMSteg::transform_length_prefix(59048), vec![8, 8, 8, 8, 8]);
}

#[test]
fn capacity_rule_both_sides() {
    // (5-1)*(5-1)/2 = 8, so 8 > len+5 holds exactly for digit lengths < 3.
    assert!(!RMSteg::is_payload_to_large(0, 5, 5));
    assert!(RMSteg::is_payload_to_large(3, 5, 5));
    // A 2 by 2 carrier never fits anything: (1*1)/2 = 0.
    assert!(RMSteg::is_payload_to_large(0, 2, 2));
}

#[test]
fn embed_refuses_tiny_carrier() {
    let steg = RMSteg::new(19990529);
    let carrier = grid(2, 2, 100);
    assert!(matches!(steg.embed(&carrier, b"A"), Err(StegError::CapacityExceeded)));
    assert!(matches!(steg.embed(&carrier, b""), Err(StegError::CapacityExceeded)));
}

#[test]
fn embed_boundary_carrier() {
    let steg = RMSteg::new(19990529);
    // 5 by 5 fits the empty stream (8 > 5) but not one byte (8 > 8 fails).
    let carrier = grid(5, 5, 100);
    assert!(steg.embed(&carrier, b"").is_ok());
    assert!(matches!(steg.embed(&carrier, b"A"), Err(StegError::CapacityExceeded)));
}

#[test]
fn embed_extract_single_char() {
    let steg = RMSteg::new(19990529);
    let carrier = grid(8, 8, 100);
    let stego = steg.embed(&carrier, b"A").unwrap();
    assert_eq!(stego.width, 8);
    assert_eq!(stego.height, 8);
    assert_eq!(steg.extract(&stego), Ok(String::from("A")));
}

#[test]
fn embed_extract_longer_text() {
    let steg = RMSteg::new(4711);
    let carrier = grid(40, 40, 123);
    let text = "Luweiba Never Give Up!";
    let stego = steg.embed(&carrier, text.as_bytes()).unwrap();
    assert_eq!(steg.extract(&stego), Ok(String::from(text)));
}

#[test]
fn embed_extract_empty_payload() {
    let steg = RMSteg::new(19990529);
    let carrier = grid(6, 6, 50);
    let stego = steg.embed(&carrier, b"").unwrap();
    assert_eq!(steg.extract(&stego), Ok(String::new()));
    assert_eq!(steg.extract_bytes(&stego), Vec::<u8>::new());
}

#[test]
fn tail_pixels_unchanged() {
    let steg = RMSteg::new(19990529);
    let carrier = grid(8, 8, 100);
    let stego = steg.embed(&carrier, b"A").unwrap();
    // The stream holds 5 prefix digits plus 3 payload digits: 16 pixels.
    for i in 16..64 {
        assert_eq!(stego.pixels[i], carrier.pixels[i]);
    }
    // The other channels are preserved everywhere.
    for i in 0..64 {
        assert_eq!(stego.pixels[i].g, 7);
        assert_eq!(stego.pixels[i].b, 8);
        assert_eq!(stego.pixels[i].a, 9);
    }
}

#[test]
fn extract_rejects_invalid_utf8() {
    let steg = RMSteg::new(19990529);
    let carrier = grid(8, 8, 100);
    let stego = steg.embed(&carrier, &[0xFF]).unwrap();
    assert_eq!(steg.extract_bytes(&stego), vec![0xFF]);
    assert_eq!(steg.extract(&stego), Err(StegError::MalformedPayload));
}

#[test]
fn search_finds_every_digit_in_clean_window() {
    let m = RandMatrix::from_seed_u64(19990529);
    for d in 0..9u8 {
        let (x, y) = m.search_val(100, 100, d);
        assert_eq!(m.get_val_from_random_matrix(x as usize, y as usize), d);
    }
}

#[test]
fn search_miss_returns_input_unchanged() {
    let m = RandMatrix::from_seed_u64(19990529);
    // No cell holds 9, so the scan always misses and falls back.
    assert_eq!(m.search_val(10, 20, 9), (10, 20));
}

#[test]
fn search_checked_reports_misses() {
    let m = RandMatrix::from_seed_u64(19990529);
    assert_eq!(m.search_val_checked(10, 20, 9), None);
    let found = m.search_val_checked(100, 100, 4);
    assert_eq!(found, Some(m.search_val(100, 100, 4)));
}
