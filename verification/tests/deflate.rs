use profiling2::deflate::{
    decode_byte, decode_for_print, decode_print_bytes, decompress, decompress_bytes,
    decompress_string, DecompressionError,
};

const BLOB: &str = "vbvplnmuuudP1phkk4IRkvWHySqRGljgKqquqc6C81KxTp89YlM3nv6Q)dSB2XU1)dccIZsj)ceXfhRto4GV2NTupt3ZHlNZ5E1QLkctjjGOCYQhgfXJ3nKNInOzOd2RslFbGaHRddJI9S639ZT(A7boIRX3690RZx6J23)yQaXsOyXX6fxyPo3KHIbIKwUIPr1ZkyAyw1X0yF1ynhGNuDhpR3MBm8SgOg8druQy90qoJrarPEahq0aGWWEwFR25zEJgKqcIE(iv7ck1or4eCCeogU0VrkIHDRlRhe209oEgqj4uXgE2BQw2PojwuUON9IkUMUFiplgEzTCiL0s6DWy(kQ(OpPp6Z0NI584lsIqa(imf1EsC1Mg3Ykp1(VLAkl1MyP2SN4C)HCLxbji5LiC9r0KMi5F)HrOR)vigtshQO9KhtG8NiWWjAVpnSmqQ5zzx)08H9)5x";

const COMPRESSED: [u8; 345] = [85, 80, 61, 75, 195, 80, 20, 53, 164, 245, 115, 40, 10, 46, 174, 74, 5, 135, 24, 11, 173, 224, 146, 24, 36, 4, 81, 144, 160, 115, 124, 77, 94, 237, 195, 247, 242, 98, 222, 77, 165, 171, 255, 192, 110, 118, 236, 214, 255, 32, 8, 226, 44, 37, 191, 64, 196, 197, 177, 78, 14, 14, 190, 246, 217, 82, 207, 116, 207, 225, 114, 206, 185, 87, 171, 165, 34, 76, 73, 2, 162, 156, 172, 30, 70, 17, 143, 119, 67, 158, 98, 131, 102, 232, 96, 175, 210, 242, 5, 32, 16, 174, 195, 48, 138, 61, 171, 223, 253, 220, 250, 218, 30, 56, 226, 26, 223, 122, 79, 175, 243, 165, 143, 246, 253, 99, 42, 16, 75, 40, 22, 199, 122, 113, 97, 169, 115, 147, 161, 24, 136, 164, 229, 138, 105, 84, 207, 10, 166, 97, 86, 29, 211, 216, 87, 99, 205, 1, 158, 84, 119, 60, 235, 109, 110, 12, 207, 26, 168, 193, 15, 17, 165, 98, 61, 13, 57, 99, 4, 68, 169, 7, 28, 16, 13, 128, 48, 236, 89, 223, 106, 231, 153, 55, 26, 36, 36, 136, 158, 143, 84, 187, 160, 212, 78, 132, 19, 28, 71, 56, 134, 75, 191, 145, 34, 134, 221, 186, 172, 7, 97, 211, 189, 227, 25, 80, 130, 83, 177, 225, 217, 155, 106, 217, 169, 147, 88, 148, 139, 158, 189, 168, 184, 166, 251, 33, 207, 98, 120, 89, 203, 33, 37, 45, 233, 29, 140, 249, 138, 234, 163, 79, 250, 232, 51, 125, 138, 57, 143, 47, 146, 8, 1, 62, 194, 20, 181, 39, 113, 181, 105, 220, 178, 242, 212, 254, 91, 106, 202, 82, 155, 88, 106, 179, 39, 206, 253, 33, 87, 94, 65, 130, 228, 37, 194, 245, 17, 77, 154, 72, 254, 253, 97, 132, 174, 127, 133, 24, 147, 116, 168, 104, 79, 30, 19, 200, 159, 8, 12, 39, 218, 251, 52, 44, 3, 169, 121, 150, 93, 63, 205, 135, 253, 159, 95];
const STREAM: [u8; 480] = [1, 54, 114, 115, 99, 114, 105, 112, 116, 115, 38, 112, 17, 65, 100, 100, 111, 110, 47, 99, 111, 114, 101, 46, 108, 117, 97, 58, 49, 50, 118, 82, 115, 116, 97, 116, 115, 70, 66, 109, 101, 97, 110, 72, 63, 169, 154, 233, 36, 242, 39, 208, 66, 115, 107, 101, 119, 72, 191, 206, 6, 15, 228, 121, 145, 188, 114, 115, 97, 109, 112, 108, 101, 115, 74, 3, 5, 7, 9, 146, 113, 117, 97, 110, 116, 105, 108, 101, 115, 38, 50, 48, 46, 53, 80, 4, 48, 46, 48, 53, 66, 48, 46, 55, 53, 80, 4, 48, 46, 48, 54, 66, 116, 111, 112, 53, 42, 72, 63, 224, 0, 0, 0, 0, 0, 0, 72, 63, 208, 0, 0, 0, 0, 0, 0, 82, 99, 97, 108, 108, 115, 21, 114, 99, 111, 109, 109, 105, 116, 115, 15, 162, 116, 111, 116, 97, 108, 95, 116, 105, 109, 101, 72, 63, 248, 0, 0, 0, 0, 0, 0, 194, 111, 102, 102, 105, 99, 105, 97, 108, 84, 105, 109, 101, 72, 64, 4, 0, 0, 0, 0, 0, 0, 146, 100, 101, 112, 101, 110, 100, 101, 110, 116, 96, 82, 102, 114, 97, 109, 101, 70, 98, 115, 107, 101, 116, 99, 104, 70, 130, 111, 117, 116, 108, 105, 101, 114, 115, 26, 72, 64, 35, 0, 0, 0, 0, 0, 0, 66, 98, 105, 110, 115, 38, 5, 72, 64, 8, 0, 0, 0, 0, 0, 0, 1, 3, 82, 99, 111, 117, 110, 116, 196, 18, 210, 116, 114, 105, 118, 105, 97, 108, 95, 99, 111, 117, 110, 116, 11, 82, 99, 97, 108, 108, 115, 3, 114, 99, 111, 109, 109, 105, 116, 115, 3, 162, 116, 111, 116, 97, 108, 95, 116, 105, 109, 101, 5, 210, 111, 110, 85, 112, 100, 97, 116, 101, 68, 101, 108, 97, 121, 70, 98, 115, 107, 101, 116, 99, 104, 54, 130, 111, 117, 116, 108, 105, 101, 114, 115, 10, 82, 99, 111, 117, 110, 116, 1, 210, 116, 114, 105, 118, 105, 97, 108, 95, 99, 111, 117, 110, 116, 1, 82, 99, 97, 108, 108, 115, 1, 114, 99, 111, 109, 109, 105, 116, 115, 1, 162, 116, 111, 116, 97, 108, 95, 116, 105, 109, 101, 72, 0, 0, 0, 0, 0, 0, 0, 0, 210, 115, 107, 101, 116, 99, 104, 95, 112, 97, 114, 97, 109, 115, 70, 82, 97, 108, 112, 104, 97, 72, 63, 169, 153, 153, 153, 153, 153, 154, 82, 103, 97, 109, 109, 97, 72, 63, 241, 153, 153, 153, 153, 153, 154, 162, 98, 105, 110, 95, 111, 102, 102, 115, 101, 116, 76, 1, 226, 116, 114, 105, 118, 105, 97, 108, 95, 99, 117, 116, 111, 102, 102, 72, 63, 64, 98, 77, 210, 241, 169, 252];

#[test]
fn decode_byte_covers_the_alphabet() {
    let alphabet = b"abcdefghijklmnopqrstuvwxyzABCDEFGHIJKLMNOPQRSTUVWXYZ0123456789()";
    for (digit, c) in alphabet.iter().enumerate() {
        assert_eq!(decode_byte(*c).unwrap(), digit as u8);
    }
}

#[test]
fn decode_byte_takes_the_letter_a_for_zero() {
    assert_eq!(decode_byte(97).unwrap(), 0);
}

#[test]
fn decode_byte_refuses_everything_else() {
    let alphabet = b"abcdefghijklmnopqrstuvwxyzABCDEFGHIJKLMNOPQRSTUVWXYZ0123456789()";
    for b in 0..=255u8 {
        if !alphabet.contains(&b) {
            match decode_byte(b) {
                Err(DecompressionError::InvalidPrintByte(seen)) => assert_eq!(seen, b),
                other => panic!("byte {} gave {:?}", b, other),
            }
        }
    }
}

#[test]
fn decode_one_group() {
    // digits 1, 2, 3, 4: 1 + 2*64 + 3*4096 + 4*262144 = 1060993 = 0x103081
    assert_eq!(decode_for_print("bcde").unwrap(), vec![0x81, 0x30, 0x10]);
}

#[test]
fn decode_two_groups() {
    assert_eq!(decode_for_print("bcdebcde").unwrap(), vec![0x81, 0x30, 0x10, 0x81, 0x30, 0x10]);
}

#[test]
fn decode_drops_the_bits_left_over() {
    assert_eq!(decode_for_print("").unwrap(), Vec::<u8>::new());
    assert_eq!(decode_for_print("b").unwrap(), Vec::<u8>::new());
    // 1 + 2*64 = 129: one byte, four bits dropped
    assert_eq!(decode_for_print("bc").unwrap(), vec![0x81]);
    // 1 + 2*64 + 3*4096 = 12417 = 0x3081: two bytes, two bits dropped
    assert_eq!(decode_for_print("bcd").unwrap(), vec![0x81, 0x30]);
    assert_eq!(decode_for_print("bcdeb").unwrap(), vec![0x81, 0x30, 0x10]);
    assert_eq!(decode_for_print("bcdebc").unwrap(), vec![0x81, 0x30, 0x10, 0x81]);
    assert_eq!(decode_for_print("bcdebcd").unwrap(), vec![0x81, 0x30, 0x10, 0x81, 0x30]);
}

#[test]
fn decode_reports_the_first_invalid_byte() {
    match decode_for_print("ab!d#fgh") {
        Err(DecompressionError::InvalidPrintByte(b)) => assert_eq!(b, b'!'),
        other => panic!("{:?}", other),
    }
    match decode_for_print("abcdefg ") {
        Err(DecompressionError::InvalidPrintByte(b)) => assert_eq!(b, b' '),
        other => panic!("{:?}", other),
    }
    match decode_print_bytes(&[97, 200, 97, 97]) {
        Err(DecompressionError::InvalidPrintByte(b)) => assert_eq!(b, 200),
        other => panic!("{:?}", other),
    }
}

#[test]
fn decode_matches_the_reference_encoder() {
    assert_eq!(BLOB.len(), 460);
    let decoded = decode_for_print(BLOB).unwrap();
    assert_eq!(decoded.len(), 345);
    assert_eq!(decoded, COMPRESSED.to_vec());
}

fn encode_for_print(data: &[u8]) -> String {
    let alphabet = b"abcdefghijklmnopqrstuvwxyzABCDEFGHIJKLMNOPQRSTUVWXYZ0123456789()";
    let mut out = String::new();
    let mut chunks = data.chunks_exact(3);
    for chunk in &mut chunks {
        let mut cache = chunk[0] as u32 + chunk[1] as u32 * 256 + chunk[2] as u32 * 65536;
        for _ in 0..4 {
            out.push(alphabet[(cache % 64) as usize] as char);
            cache /= 64;
        }
    }
    let mut cache = 0u32;
    let mut bits = 0i32;
    for b in chunks.remainder() {
        cache += (*b as u32) << bits;
        bits += 8;
    }
    while bits > 0 {
        out.push(alphabet[(cache % 64) as usize] as char);
        cache /= 64;
        bits -= 6;
    }
    out
}

#[test]
fn decode_then_encode_gives_the_blob_back() {
    let decoded = decode_for_print(BLOB).unwrap();
    assert_eq!(encode_for_print(&decoded), BLOB);
    let decoded = decode_for_print("bcde()Z9").unwrap();
    assert_eq!(encode_for_print(&decoded), "bcde()Z9");
}

#[test]
fn decompress_inflates_the_decoded_bytes() {
    let inflated = decompress(BLOB).unwrap();
    assert_eq!(inflated.len(), 480);
    assert_eq!(inflated, STREAM.to_vec());
    assert_eq!(decompress_bytes(BLOB.as_bytes()).unwrap(), STREAM.to_vec());
}

#[test]
fn decompress_reports_a_corrupt_stream() {
    // a block of the reserved type: the digits 7, 0, 0, 0 give the byte 7
    match decompress("haaa") {
        Err(DecompressionError::DeflateError(_)) => {}
        other => panic!("{:?}", other),
    }
}

#[test]
fn decompress_reports_an_invalid_byte() {
    match decompress("ha~a") {
        Err(DecompressionError::InvalidPrintByte(b)) => assert_eq!(b, b'~'),
        other => panic!("{:?}", other),
    }
}

#[test]
fn decompress_string_gives_text() {
    // "hello" in one stored block: 01 05 00 fa ff h e l l o
    let blob = "buaa6)pALXgBVb";
    assert_eq!(decompress(blob).unwrap(), b"hello".to_vec());
    assert_eq!(decompress_string(blob).unwrap(), "hello");
    // the recording is no text
    match decompress_string(BLOB) {
        Err(DecompressionError::InvalidText) => {}
        other => panic!("{:?}", other),
    }
    match decompress_string("ha~a") {
        Err(DecompressionError::InvalidPrintByte(b)) => assert_eq!(b, b'~'),
        other => panic!("{:?}", other),
    }
}
