use lsb_image::Carrier;
use lsb_image::ImageDecoder;
use lsb_image::ImageEncoder;
use lsb_image::PixelGenerator;
use lsb_image::StegoError;
use std::collections::HashSet;

#[test]
fn test_pixel_generator() {
    let mut gen = PixelGenerator::new(114514, 120, 240);
    // should have 120 * 240 pixels after 120 * 240 next() calls
    for _ in 0..(120 * 240) {
        gen.next().unwrap();
    }
    assert_eq!(gen.emitted_count(), 120 * 240);
    // should generate same sequence of pixels with the same seed
    let mut gen = PixelGenerator::new(114514, 120, 240);
    let mut gen2 = PixelGenerator::new(114514, 120, 240);
    for _ in 0..(120 * 240) {
        assert_eq!(gen.next().unwrap(), gen2.next().unwrap());
    }
}

#[test]
fn test_pixel_generator_excess_next_call() {
    let mut gen = PixelGenerator::new(114514, 120, 240);
    // after 120 * 240 next() calls the generator must refuse, not wrap
    for _ in 0..(120 * 240) {
        gen.next().unwrap();
    }
    assert_eq!(gen.next(), Err(StegoError::CapacityExhausted));
    assert_eq!(gen.next(), Err(StegoError::CapacityExhausted));
}

#[test]
fn test_pixel_generator_emits_whole_grid_once() {
    let mut gen = PixelGenerator::new(7, 16, 9);
    let mut seen: HashSet<(u32, u32)> = HashSet::new();
    for _ in 0..(16 * 9) {
        let (x, y) = gen.next().unwrap();
        assert!(x < 16 && y < 9);
        assert!(seen.insert((x, y)), "coordinate emitted twice");
    }
    assert_eq!(seen.len(), 16 * 9);
    assert_eq!(gen.next(), Err(StegoError::CapacityExhausted));
}

fn generate_test_image(width: u32, height: u32) -> Carrier {
    Carrier::new(width, height)
}

#[test]
fn test_image_encoder_decoder_single_write() {
    let img = generate_test_image(100, 100);
    let seed = 114514;
    let s = "situ2001, 114514 1919810";

    let mut encoder = ImageEncoder::new(img, seed);
    encoder.write_str(s).unwrap();

    let mut decoder = ImageDecoder::new(encoder.get_back_image(), seed);
    assert_eq!(decoder.read().unwrap(), s);
}

#[test]
fn test_image_encoder_decoder_multiple_write() {
    let img = generate_test_image(100, 100);
    let seed = 114514;
    let s = "situ2001, 114514 1919810";

    let mut encoder = ImageEncoder::new(img, seed);
    encoder.write_str(s).unwrap();
    encoder.write_str(s).unwrap();
    encoder.write_str(s).unwrap();
    encoder.write_str(s).unwrap();
    encoder.write_str(s).unwrap();

    let mut decoder = ImageDecoder::new(encoder.get_back_image(), seed);
    assert_eq!(decoder.read().unwrap(), s);
    assert_eq!(decoder.read().unwrap(), s);
    assert_eq!(decoder.read().unwrap(), s);
    assert_eq!(decoder.read().unwrap(), s);
    assert_eq!(decoder.read().unwrap(), s);
    // a sixth read finds no record on the blank remainder
    assert_eq!(decoder.read(), None);
}

#[test]
fn test_image_read_times_more_than_write() {
    let img = generate_test_image(100, 100);
    let seed = 1919810;
    let s = "situ2001 114514 1919810";

    let mut encoder = ImageEncoder::new(img, seed);
    encoder.write_str(s).unwrap();

    let mut decoder = ImageDecoder::new(encoder.get_back_image(), seed);
    assert_eq!(decoder.read(), Some(String::from(s)));
    assert_eq!(decoder.read(), None);
    assert_eq!(decoder.read(), None);
}

#[test]
fn test_image_excess_write() {
    // 100 addressable bits cannot hold a 23-byte payload and its header
    let img = generate_test_image(10, 10);
    let seed = 1;
    let s = "situ2001 114514 1919810";

    let mut encoder = ImageEncoder::new(img, seed);
    assert_eq!(encoder.write_str(s), Err(StegoError::InsufficientCapacity));
    // the refusal left the carrier untouched
    let img = encoder.get_back_image();
    assert!(img.bytes().iter().all(|&b| b == 0));
}

#[test]
fn test_image_excess_write_metadata() {
    // 16 addressable bits cannot even hold the header
    let img = generate_test_image(4, 4);
    let seed = 1;
    let s = "situ2001 114514 1919810";

    let mut encoder = ImageEncoder::new(img, seed);
    assert_eq!(encoder.write_str(s), Err(StegoError::InsufficientCapacity));
    let img = encoder.get_back_image();
    assert!(img.bytes().iter().all(|&b| b == 0));
}

#[test]
fn test_read_all_concatenates_records() {
    let img = generate_test_image(64, 64);
    let seed = 42;

    let mut encoder = ImageEncoder::new(img, seed);
    encoder.write_str("alpha").unwrap();
    encoder.write_str("beta").unwrap();
    encoder.write_str("gamma").unwrap();

    let mut decoder = ImageDecoder::new(encoder.get_back_image(), seed);
    assert_eq!(decoder.read_all(), Some(String::from("alphabetagamma")));
}

#[test]
fn test_read_all_empty_signal() {
    let img = generate_test_image(32, 32);
    let mut decoder = ImageDecoder::new(img, 5);
    // a blank carrier holds no record: the empty signal, not an empty string
    assert_eq!(decoder.read_all(), None);
}

#[test]
fn test_read_on_blank_carrier_is_no_record() {
    let img = generate_test_image(16, 16);
    let mut decoder = ImageDecoder::new(img, 99);
    assert_eq!(decoder.read(), None);
    let img2 = generate_test_image(16, 16);
    let mut decoder2 = ImageDecoder::new(img2, 99);
    assert_eq!(decoder2.read_header(), Err(StegoError::NoRecord));
}

#[test]
fn test_header_vec_exact_bytes() {
    assert_eq!(lsb_image::encoder::header_vec(0), b"{{0}}".to_vec());
    assert_eq!(lsb_image::encoder::header_vec(24), b"{{24}}".to_vec());
    assert_eq!(lsb_image::encoder::header_vec(1049), b"{{1049}}".to_vec());
}

/// Writes the bytes of `payload` bit by bit (most significant bit first)
/// into the least-significant bits of the carrier, along the coordinate
/// sequence of `seed`.
fn embed_raw(img: &mut Carrier, seed: u64, payload: &[u8]) {
    let (w, h) = img.dimensions();
    let mut gen = PixelGenerator::new(seed, w, h);
    for &b in payload {
        for i in 0..8 {
            let bit = (b >> (7 - i)) & 1;
            let (x, y) = gen.next().unwrap();
            let v = img.get_channel(x, y);
            img.set_channel(x, y, (v & 0xfe) | bit);
        }
    }
}

#[test]
fn test_malformed_length_field() {
    // a header whose field between the braces is not a decimal number
    let mut img = generate_test_image(20, 20);
    embed_raw(&mut img, 3, b"{{a}}");
    let mut decoder = ImageDecoder::new(img, 3);
    assert_eq!(decoder.read_header(), Err(StegoError::MalformedLength));

    // an empty field is refused as well
    let mut img = generate_test_image(20, 20);
    embed_raw(&mut img, 3, b"{{}}");
    let mut decoder = ImageDecoder::new(img, 3);
    assert_eq!(decoder.read_header(), Err(StegoError::MalformedLength));
}

#[test]
fn test_header_parsed_from_raw_bits() {
    // a header planted by an independent generator with the same seed is
    // found by the decoder: the coordinate sequences coincide
    let mut img = generate_test_image(20, 20);
    embed_raw(&mut img, 77, b"{{123}}");
    let mut decoder = ImageDecoder::new(img, 77);
    assert_eq!(decoder.read_header(), Ok(123));
}

#[test]
fn test_wrong_seed_finds_nothing_on_blank_remainder() {
    // decoding with another seed walks other coordinates; on this carrier
    // the first two bytes it assembles are not the opening braces
    let img = generate_test_image(50, 50);
    let mut encoder = ImageEncoder::new(img, 1000);
    encoder.write_str("hidden").unwrap();
    let carrier = encoder.get_back_image();
    let mut decoder = ImageDecoder::new(carrier, 1001);
    assert_eq!(decoder.read(), None);
}

#[test]
fn test_read_str_beyond_capacity() {
    let img = generate_test_image(4, 4);
    let mut decoder = ImageDecoder::new(img, 8);
    assert_eq!(decoder.read_str(1000), Err(StegoError::CapacityExhausted));
}

#[test]
fn test_write_changes_only_lsb_plane() {
    let mut data = Vec::new();
    for i in 0..(12 * 12) {
        data.push((i % 251) as u8);
    }
    let img = Carrier::from_bytes(12, 12, data.clone());
    let mut encoder = ImageEncoder::new(img, 6);
    encoder.write_str("ab").unwrap();
    let out = encoder.get_back_image();
    for (a, b) in out.bytes().iter().zip(data.iter()) {
        assert_eq!(a & 0xfe, b & 0xfe);
    }
    // and the record still decodes from the noisy carrier
    let mut decoder = ImageDecoder::new(out, 6);
    assert_eq!(decoder.read(), Some(String::from("ab")));
}

#[test]
fn test_exact_capacity_roundtrip() {
    // 8 * (5 + 4) = 72 bits exactly fill a 9x8 grid
    let img = generate_test_image(9, 8);
    let mut encoder = ImageEncoder::new(img, 12);
    encoder.write_str("abcd").unwrap();
    let mut decoder = ImageDecoder::new(encoder.get_back_image(), 12);
    assert_eq!(decoder.read(), Some(String::from("abcd")));
    assert_eq!(decoder.read(), None);
}
