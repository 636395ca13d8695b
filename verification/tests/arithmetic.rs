use nnue_rs::error::Error;
use nnue_rs::leb128;
use nnue_rs::reader::{read_i16_raw, read_i32_raw, read_i8_raw, read_u32, Reader};
use nnue_rs::simd::{
    add_i16, add_i8_i16, clip_u8, dot_u8_i8, dot_u8_i8_scalar, pairwise_clip_mul,
    pairwise_clip_mul_scalar, sub_i16, sub_i8_i16,
};

#[test]
fn exact_dot_products() {
    assert_eq!(dot_u8_i8(&[1, 2, 3], &[4, -5, 6]), 12);
    assert_eq!(dot_u8_i8(&[], &[]), 0);
    // the shorter one counts
    assert_eq!(dot_u8_i8(&[255, 255], &[-128]), -32640);
    let input: Vec<u8> = (0..300).map(|i| (i * 7 % 256) as u8).collect();
    let weights: Vec<i8> = (0..300).map(|i| (i * 11 % 256) as u8 as i8).collect();
    let sum: i32 = input.iter().zip(&weights).map(|(&a, &w)| a as i32 * w as i32).sum();
    assert_eq!(dot_u8_i8(&input, &weights), sum);
    assert_eq!(dot_u8_i8_scalar(&input, &weights), sum);
}

#[test]
fn longest_exact_dot_product() {
    assert_eq!(dot_u8_i8(&vec![255; 65793], &vec![-128; 65793]), -2147483520);
}

#[test]
fn pairwise_activation() {
    let mut out = [9u8; 4];
    pairwise_clip_mul(&[300, -5, 100, 254], &[100, 80, 100, 254], &mut out, 254, 9);
    assert_eq!(out, [49, 0, 19, 126]);
    pairwise_clip_mul_scalar(&[300, -5, 100, 255], &[100, 80, 100, 255], &mut out, 255, 9);
    assert_eq!(out, [49, 0, 19, 127]);
}

#[test]
fn clipped_activation() {
    let mut out = [9u8; 5];
    clip_u8(&[-5, 0, 50, 127, 200], &mut out);
    assert_eq!(out, [0, 0, 50, 127, 127]);
}

#[test]
fn rows_wrap_around_and_cancel() {
    let mut acc = [32767i16, -32768, 5];
    add_i16(&mut acc, &[1, -1, 2]);
    assert_eq!(acc, [-32768, 32767, 7]);
    sub_i16(&mut acc, &[1, -1, 2]);
    assert_eq!(acc, [32767, -32768, 5]);
    add_i8_i16(&mut acc, &[127, -128, -7]);
    assert_eq!(acc, [-32642, 32640, -2]);
    sub_i8_i16(&mut acc, &[127, -128, -7]);
    assert_eq!(acc, [32767, -32768, 5]);
}

#[test]
fn reads_little_endian_numbers() {
    let bytes = [0x78, 0x56, 0x34, 0x12, 0xff, 0xff, 0xff, 0xff, 0xfe, 0xff, 0x01, 0x80, 0x80];
    let mut reader = Reader::new(&bytes);
    assert_eq!(read_u32(&mut reader), Ok(0x1234_5678));
    assert_eq!(read_i32_raw(&mut reader, 1), Ok(vec![-1]));
    assert_eq!(read_i16_raw(&mut reader, 2), Ok(vec![-2, -32767]));
    assert_eq!(reader.remaining(), 1);
    assert_eq!(reader.take(2), Err(Error::UnexpectedEof));
    assert_eq!(read_i8_raw(&mut reader, 1), Ok(vec![-128]));
    assert_eq!(read_u32(&mut reader), Err(Error::UnexpectedEof));
    assert_eq!(read_i32_raw(&mut reader, usize::MAX), Err(Error::UnexpectedEof));
    assert_eq!(read_i16_raw(&mut reader, usize::MAX), Err(Error::UnexpectedEof));
}

fn block(data: &[u8]) -> Vec<u8> {
    let mut out = b"COMPRESSED_LEB128".to_vec();
    out.extend_from_slice(&(data.len() as u32).to_le_bytes());
    out.extend_from_slice(data);
    out
}

#[test]
fn reads_variable_length_numbers() {
    let bytes = block(&[0x00, 0x3f, 0x40, 0x7f, 0xc0, 0x00, 0xbf, 0x7f, 0x80, 0x80, 0x7e]);
    let mut reader = Reader::new(&bytes);
    assert_eq!(
        leb128::read_i16(&mut reader, 7),
        Ok(vec![0, 63, -64, -1, 64, -65, -32768])
    );
    assert_eq!(reader.remaining(), 0);
    let bytes = block(&[0xff, 0xff, 0xff, 0xff, 0x07, 0x80, 0x80, 0x80, 0x80, 0x78]);
    let mut reader = Reader::new(&bytes);
    assert_eq!(leb128::read_i32(&mut reader, 2), Ok(vec![i32::MAX, i32::MIN]));
}

#[test]
fn refuses_bad_variable_length_numbers() {
    let bad = Err(Error::InvalidData("bad LEB128 data"));
    // too many bytes to a number
    assert_eq!(leb128::read_i16(&mut Reader::new(&block(&[0x80, 0x80, 0x80, 0])), 1), bad);
    // a number that does not end
    assert_eq!(leb128::read_i16(&mut Reader::new(&block(&[0x80])), 1), bad);
    // numbers left over
    assert_eq!(leb128::read_i16(&mut Reader::new(&block(&[1, 2])), 1), bad);
    assert_eq!(leb128::read_i16(&mut Reader::new(&block(&[])), 0), Ok(vec![]));
    let cut = block(&[1, 2]);
    assert_eq!(
        leb128::read_i16(&mut Reader::new(&cut[..cut.len() - 1]), 2),
        Err(Error::UnexpectedEof)
    );
}
