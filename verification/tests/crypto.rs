//! Decryption of segments and samples.

use aes::cipher::block_padding::Pkcs7;
use aes::cipher::{BlockEncryptMut, KeyIvInit};
use udemyget::crypto::{aes128_cbc_decrypt_inplace, cbc_combine, CbcError};
use udemyget::segment::{
    compute_iv, decrypt_aes128, decrypt_segment, is_segment_readable, iv_is_readable, parse_hex_iv,
    DecryptError, EncMethod, EncryptionInfo, Incomplete, SegmentBuffer, SegmentWriter,
};
use udemyget::ts::SampleKeyLength;

const KEY: [u8; 16] = [
    0x2b, 0x7e, 0x15, 0x16, 0x28, 0xae, 0xd2, 0xa6, 0xab, 0xf7, 0x15, 0x88, 0x09, 0xcf, 0x4f, 0x3c,
];
const IV: [u8; 16] = [0, 1, 2, 3, 4, 5, 6, 7, 8, 9, 10, 11, 12, 13, 14, 15];

const CIPHER: [u8; 32] = [
    0x76, 0x49, 0xab, 0xac, 0x81, 0x19, 0xb2, 0x46, 0xce, 0xe9, 0x8e, 0x9b, 0x12, 0xe9, 0x19, 0x7d,
    0x50, 0x86, 0xcb, 0x9b, 0x50, 0x72, 0x19, 0xee, 0x95, 0xdb, 0x11, 0x3a, 0x91, 0x76, 0x78, 0xb2,
];
const PLAIN: [u8; 32] = [
    0x6b, 0xc1, 0xbe, 0xe2, 0x2e, 0x40, 0x9f, 0x96, 0xe9, 0x3d, 0x7e, 0x11, 0x73, 0x93, 0x17, 0x2a,
    0xae, 0x2d, 0x8a, 0x57, 0x1e, 0x03, 0xac, 0x9c, 0x9e, 0xb7, 0x6f, 0xac, 0x45, 0xaf, 0x8e, 0x51,
];

fn encrypt(data: &[u8], iv: &[u8; 16]) -> Vec<u8> {
    let enc = cbc::Encryptor::<aes::Aes128>::new_from_slices(&KEY, iv).unwrap();
    let mut buf = vec![0u8; data.len() + 16];
    buf[..data.len()].copy_from_slice(data);
    enc.encrypt_padded_mut::<Pkcs7>(&mut buf, data.len()).unwrap().to_vec()
}

fn whole(iv: Option<[u8; 16]>) -> EncryptionInfo {
    EncryptionInfo { method: EncMethod::Aes128, key: KEY.to_vec(), iv }
}

#[test]
fn cbc_decrypts_whole_blocks() {
    let mut buf = CIPHER.to_vec();
    aes128_cbc_decrypt_inplace(&mut buf, &KEY, &IV);
    assert_eq!(buf, PLAIN.to_vec());
}

#[test]
fn blocks_are_combined() {
    let out = cbc_combine(&[0xf0; 16], &IV);
    for i in 0..16 {
        assert_eq!(out[i], 0xf0 ^ i as u8);
    }
}

#[test]
fn cbc_keeps_what_is_no_block() {
    let mut buf = CIPHER[..16].to_vec();
    buf.extend_from_slice(&[1, 2, 3]);
    aes128_cbc_decrypt_inplace(&mut buf, &KEY, &IV);
    assert_eq!(buf[..16], PLAIN[..16]);
    assert_eq!(buf[16..], [1, 2, 3]);

    let mut short = vec![9u8; 15];
    aes128_cbc_decrypt_inplace(&mut short, &KEY, &IV);
    assert_eq!(short, vec![9u8; 15]);
}

#[test]
fn whole_segments_are_decrypted_and_unpadded() {
    for n in [0usize, 1, 15, 16, 17, 100] {
        let data: Vec<u8> = (0..n).map(|i| i as u8).collect();
        let sealed = encrypt(&data, &IV);
        assert_eq!(decrypt_aes128(&whole(Some(IV)), sealed, 3, 7), Ok(data));
    }
}

#[test]
fn segment_number_serves_as_iv() {
    let data = b"segment number eleven".to_vec();
    let mut iv = [0u8; 16];
    iv[15] = 11;
    let sealed = encrypt(&data, &iv);
    assert_eq!(decrypt_aes128(&whole(None), sealed, 4, 7), Ok(data));
}

#[test]
fn bad_keys_and_bad_padding_are_refused() {
    let short = EncryptionInfo { method: EncMethod::Aes128, key: vec![1, 2, 3], iv: Some(IV) };
    assert_eq!(decrypt_aes128(&short, CIPHER.to_vec(), 0, 0), Err(CbcError::KeyLength));
    assert_eq!(decrypt_aes128(&whole(Some(IV)), CIPHER.to_vec(), 0, 0), Err(CbcError::Padding));
    assert_eq!(decrypt_aes128(&whole(Some(IV)), vec![], 0, 0), Err(CbcError::Padding));
    assert_eq!(decrypt_aes128(&whole(Some(IV)), vec![0; 17], 0, 0), Err(CbcError::Padding));
}

#[test]
fn errors_of_decryption_are_described() {
    assert_eq!(DecryptError::Cbc(CbcError::KeyLength).message(), "AES init: InvalidLength");
    assert_eq!(DecryptError::Cbc(CbcError::Padding).message(), "AES decrypt: UnpadError");
    assert_eq!(
        DecryptError::SampleKey(SampleKeyLength(15)).message(),
        "SAMPLE-AES key must be 16 bytes, got 15"
    );
}

#[test]
fn iv_attributes_are_read() {
    assert_eq!(
        parse_hex_iv("0x9c7db8778570d05c3177c349fd9236aa"),
        [
            0x9c, 0x7d, 0xb8, 0x77, 0x85, 0x70, 0xd0, 0x5c, 0x31, 0x77, 0xc3, 0x49, 0xfd, 0x92,
            0x36, 0xaa
        ]
    );
    let mut ten = [0u8; 16];
    ten[14] = 0x0A;
    ten[15] = 0xbc;
    assert_eq!(parse_hex_iv("0Xabc"), ten);
    assert_eq!(parse_hex_iv("0x0xabc"), ten);
    assert_eq!(parse_hex_iv(""), [0u8; 16]);
    // What is no number counts as 0, and a sign may stand for the first digit.
    let mut odd = [0u8; 16];
    odd[14] = 5;
    assert_eq!(parse_hex_iv("+5zz"), odd);
    // Digits after the 32nd do not count.
    assert_eq!(parse_hex_iv("000102030405060708090a0b0c0d0e0fFF"), IV);
}

#[test]
fn iv_attributes_that_cut_characters_are_told_apart() {
    assert!(iv_is_readable("0x12"));
    assert!(iv_is_readable("éa"));
    assert!(!iv_is_readable("é"));
}

#[test]
fn ivs_are_computed() {
    assert_eq!(compute_iv(&Some(IV), 5, 9), IV);
    let mut want = [0u8; 16];
    want[14] = 0x01;
    want[15] = 0x04;
    assert_eq!(compute_iv(&None, 4, 0x100), want);
}

#[test]
fn derived_ivs_differ() {
    let ivs: Vec<[u8; 16]> = (0..600).map(|i| compute_iv(&None, i, 0xfe)).collect();
    for i in 0..600 {
        for j in 0..i {
            assert_ne!(ivs[i], ivs[j]);
        }
    }
}

#[test]
fn written_ivs_are_read_back() {
    let iv: [u8; 16] = [0x0a, 0xff, 0x10, 0, 1, 2, 3, 4, 5, 6, 7, 8, 9, 0xab, 0xcd, 0xef];
    let text: String = iv.iter().map(|b| format!("{b:02x}")).collect();
    assert_eq!(parse_hex_iv(&format!("0x{text}")), iv);
}

#[test]
fn segments_pass_through_where_there_is_no_key() {
    assert_eq!(decrypt_segment(&None, vec![1, 2, 3], 0, 0), Ok(vec![1, 2, 3]));
}

#[test]
fn sample_keys_have_sixteen_bytes() {
    let info =
        EncryptionInfo { method: EncMethod::SampleAes, key: vec![0; 8], iv: Some(IV) };
    assert_eq!(
        decrypt_segment(&Some(info), vec![1, 2, 3], 0, 0),
        Err(DecryptError::SampleKey(SampleKeyLength(8)))
    );
}

#[test]
fn segment_numbers_have_a_limit() {
    let last = Some(whole(None));
    assert!(is_segment_readable(&last, &vec![], 0, u64::MAX));
    assert!(!is_segment_readable(&last, &vec![], 1, u64::MAX));
    assert!(is_segment_readable(&Some(whole(Some(IV))), &vec![], 1, u64::MAX));
}

#[test]
fn buffer_hands_out_segments_in_order() {
    let mut b = SegmentBuffer::new();
    assert_eq!(b.accept(2, vec![2]), Vec::<Vec<u8>>::new());
    assert_eq!(b.accept(0, vec![0]), vec![vec![0]]);
    assert_eq!(b.written(), 1);
    assert_eq!(b.accept(1, vec![1]), vec![vec![1], vec![2]]);
    assert_eq!(b.finish(3), Ok(()));
    assert_eq!(b.finish(4), Err(Incomplete { written: 3, total: 4 }));
    assert_eq!(Incomplete { written: 3, total: 4 }.message(), "only 3/4 segments written");
}

#[test]
fn writer_decrypts_segments_in_order() {
    let texts: Vec<Vec<u8>> = vec![b"first".to_vec(), b"second".to_vec(), b"third".to_vec()];
    let sealed: Vec<Vec<u8>> = texts
        .iter()
        .enumerate()
        .map(|(i, t)| {
            let mut iv = [0u8; 16];
            iv[15] = 40 + i as u8;
            encrypt(t, &iv)
        })
        .collect();
    for order in [[0usize, 1, 2], [2, 1, 0], [1, 2, 0], [0, 2, 1]] {
        let mut w = SegmentWriter::new(Some(whole(None)), 40);
        let mut file: Vec<u8> = Vec::new();
        for i in order {
            assert!(w.can_take(i, &sealed[i]));
            let written = w.take(i, sealed[i].clone());
            assert!(written.error.is_none());
            for s in written.segments {
                file.extend_from_slice(&s);
            }
        }
        assert_eq!(file, b"firstsecondthird".to_vec());
        assert_eq!(w.finish(3), Ok(()));
    }
}

#[test]
fn writer_stops_at_a_segment_that_cannot_be_decrypted() {
    let mut iv1 = [0u8; 16];
    iv1[15] = 2;
    let mut w = SegmentWriter::new(Some(whole(None)), 0);
    assert!(w.take(1, CIPHER.to_vec()).segments.is_empty());
    assert!(w.take(2, encrypt(b"last", &iv1)).segments.is_empty());
    let written = w.take(0, encrypt(b"good", &[0u8; 16]));
    assert_eq!(written.segments, vec![b"good".to_vec()]);
    assert_eq!(written.error, Some(DecryptError::Cbc(CbcError::Padding)));
}

#[test]
fn limits_count_only_when_a_segment_is_decrypted() {
    // Segment 1 has no number of 64 bits, which matters when its turn comes.
    let mut w = SegmentWriter::new(Some(whole(None)), u64::MAX);
    assert!(w.can_take(1, &CIPHER.to_vec()));
    assert!(w.take(1, CIPHER.to_vec()).segments.is_empty());
    let last = encrypt(b"last", &[0, 0, 0, 0, 0, 0, 0, 0, 255, 255, 255, 255, 255, 255, 255, 255]);
    assert!(!w.can_take(0, &last));
    // Where segment 0 cannot be decrypted, its turn does not come.
    assert!(w.can_take(0, &vec![1, 2, 3]));
    let written = w.take(0, vec![1, 2, 3]);
    assert!(written.segments.is_empty());
    assert_eq!(written.error, Some(DecryptError::Cbc(CbcError::Padding)));
}
