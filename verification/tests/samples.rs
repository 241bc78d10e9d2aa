//! Sample encryption inside transport streams.

use aes::cipher::block_padding::NoPadding;
use aes::cipher::{BlockEncryptMut, KeyIvInit};
use udemyget::ts::{
    decrypt_aac_pes_payload, decrypt_h264_pes_payload, decrypt_sample_aes_ts, find_av_pids,
    pes_header_len, pes_headers_fit, SampleKeyLength, NO_PID,
};

const KEY: [u8; 16] = [7; 16];
const IV: [u8; 16] = [9; 16];

/// `data` with its whole blocks encrypted.
fn seal(data: &[u8]) -> Vec<u8> {
    let whole = data.len() / 16 * 16;
    let mut out = data.to_vec();
    let enc = cbc::Encryptor::<aes::Aes128>::new_from_slices(&KEY, &IV).unwrap();
    enc.encrypt_padded_mut::<NoPadding>(&mut out[..whole], whole).unwrap();
    out
}

fn packet(pid: u16, start: bool, payload: &[u8]) -> Vec<u8> {
    assert!(payload.len() <= 184);
    let flags = if start { 0x40 } else { 0 };
    let mut p = vec![0x47, flags | (pid >> 8) as u8, pid as u8];
    let gap = 184 - payload.len();
    if gap == 0 {
        p.push(0x10);
    } else {
        p.push(0x30);
        p.push((gap - 1) as u8);
        p.extend(std::iter::repeat(0xff).take(gap - 1));
    }
    p.extend_from_slice(payload);
    assert_eq!(p.len(), 188);
    p
}

fn pat(pmt: u16) -> Vec<u8> {
    // Pointer field, table id, length 17, stream id, version, numbers, two entries,
    // checksum.
    let mut s = vec![0, 0x00, 0xb0, 17, 0, 1, 0xc1, 0, 0];
    s.extend_from_slice(&[0, 0, 0xe0, 0x10]);
    s.extend_from_slice(&[0, 1, 0xe0 | (pmt >> 8) as u8, pmt as u8]);
    s.extend_from_slice(&[1, 2, 3, 4]);
    packet(0, true, &s)
}

fn pmt(pid: u16, streams: &[(u8, u16)]) -> Vec<u8> {
    let len = 9 + 5 * streams.len() + 4;
    let mut s = vec![0, 0x02, 0xb0, len as u8, 0, 1, 0xc1, 0, 0, 0xe1, 0x00, 0xf0, 0];
    for (kind, es) in streams {
        s.extend_from_slice(&[*kind, 0xe0 | (es >> 8) as u8, *es as u8, 0xf0, 0]);
    }
    s.extend_from_slice(&[1, 2, 3, 4]);
    packet(pid, true, &s)
}

#[test]
fn streams_are_found() {
    let mut d = vec![1, 2, 3];
    d.extend(pat(0x1000));
    d.extend(pmt(0x1000, &[(0x06, 0x90), (0x0f, 0x101), (0x1b, 0x100), (0x1b, 0x1ff)]));
    assert_eq!(find_av_pids(&d), (0x100, 0x101));
}

#[test]
fn streams_may_be_absent() {
    assert_eq!(find_av_pids(&[]), (NO_PID, NO_PID));
    assert_eq!(find_av_pids(&pat(0x1000)), (NO_PID, NO_PID));
    let mut d = pat(0x20);
    d.extend(pmt(0x20, &[(0x11, 0x55)]));
    assert_eq!(find_av_pids(&d), (NO_PID, 0x55));
}

#[test]
fn pes_headers_are_measured() {
    assert_eq!(pes_header_len(&[0; 8]), 0);
    let mut pes = [0u8; 20];
    pes[8] = 5;
    assert_eq!(pes_header_len(&pes), 14);
}

fn nal(kind: u8, body: &[u8]) -> Vec<u8> {
    let mut n = vec![0, 0, 0, 1, kind];
    n.extend_from_slice(body);
    n
}

#[test]
fn slices_are_decrypted_after_their_lead() {
    let lead: Vec<u8> = (0..32).map(|i| 100 + i).collect();
    let rest: Vec<u8> = (0..40).map(|i| 200u8.wrapping_add(i)).collect();
    let mut clear = lead.clone();
    clear.extend_from_slice(&rest);
    let mut sealed = lead.clone();
    sealed.extend(seal(&rest));
    for kind in [0x65u8, 0x61] {
        let mut payload = nal(kind, &sealed);
        decrypt_h264_pes_payload(&mut payload, &KEY, &IV, false);
        assert_eq!(payload, nal(kind, &clear));
    }
    // Other units, and units that are no longer than the lead, stay as they are.
    let mut payload = nal(0x67, &sealed);
    decrypt_h264_pes_payload(&mut payload, &KEY, &IV, false);
    assert_eq!(payload, nal(0x67, &sealed));
    let mut payload = nal(0x65, &lead);
    decrypt_h264_pes_payload(&mut payload, &KEY, &IV, false);
    assert_eq!(payload, nal(0x65, &lead));
}

fn frame(body: &[u8]) -> Vec<u8> {
    let len = body.len() + 7;
    let mut f = vec![
        0xff,
        0xf1,
        0x50,
        0x80 | (len >> 11) as u8,
        (len >> 3) as u8,
        ((len << 5) as u8) | 0x1f,
        0xfc,
    ];
    f.extend_from_slice(body);
    f
}

#[test]
fn audio_frames_are_decrypted_after_their_header() {
    let body: Vec<u8> = (0..37).collect();
    let tiny: Vec<u8> = (0..9).collect();
    let mut payload = frame(&seal(&body));
    payload.extend(frame(&tiny));
    payload.extend(frame(&seal(&body)));
    let mut want = frame(&body);
    want.extend(frame(&tiny));
    want.extend(frame(&body));
    decrypt_aac_pes_payload(&mut payload, &KEY, &IV, false);
    assert_eq!(payload, want);
}

#[test]
fn audio_segments_are_decrypted() {
    let body: Vec<u8> = (0..64).map(|i| 3 * i + 1).collect();
    let mut pes = vec![0, 0, 1, 0xc0, 0, 0, 0x80, 0, 2, 0xaa, 0xbb];
    let mut plain_pes = pes.clone();
    pes.extend(frame(&seal(&body)));
    plain_pes.extend(frame(&body));
    let mut d = pat(0x1000);
    d.extend(pmt(0x1000, &[(0x0f, 0x101)]));
    let mut want = d.clone();
    d.extend(packet(0x101, true, &pes));
    d.extend(packet(0x102, true, &pes));
    want.extend(packet(0x101, true, &plain_pes));
    want.extend(packet(0x102, true, &pes));
    assert!(pes_headers_fit(&d));
    assert_eq!(decrypt_sample_aes_ts(&d, &KEY, &IV), Ok(want));
}

/// A segment with a video stream on 0x100 whose payloads are `pes`, cut at `cuts`.
fn video_segment(pes: &[u8], cuts: &[usize]) -> Vec<u8> {
    let mut d = pat(0x1000);
    d.extend(pmt(0x1000, &[(0x1b, 0x100), (0x0f, 0x101)]));
    let mut from = 0;
    for cut in cuts.iter().copied().chain([pes.len()]) {
        d.extend(packet(0x100, from == 0, &pes[from..cut]));
        // Packets on other PIDs, and bytes between packets, do not matter.
        d.extend(packet(0x1fff, false, &[0; 184]));
        d.extend([1, 2, 3]);
        from = cut;
    }
    d
}

#[test]
fn slices_are_decrypted_across_packets() {
    let header = [0, 0, 1, 0xe0, 0, 0, 0x80, 0, 3, 0xaa, 0xbb, 0xcc];
    let lead: Vec<u8> = (0..32).map(|i| 100 + i).collect();
    let rest: Vec<u8> = (0..407u32).map(|i| (i * 7 + 5) as u8).collect();
    let mut pes = header.to_vec();
    pes.extend(nal(0x09, &[0xf0]));
    let mut plain = pes.clone();
    for body in [seal(&rest), seal(&rest[..100])] {
        pes.extend(nal(0x65, &lead));
        pes.extend(body);
    }
    for body in [&rest[..], &rest[..100]] {
        plain.extend(nal(0x65, &lead));
        plain.extend(body);
    }
    // Cuts inside the PES header, a start code, a lead, and blocks.
    for cuts in [
        vec![184, 368, 552],
        vec![5, 100, 200, 300, 400, 500],
        vec![14, 19, 40, 200, 380, 560],
        vec![9, 20, 55, 71, 240, 420, 590],
    ] {
        let d = video_segment(&pes, &cuts);
        assert!(pes_headers_fit(&d));
        assert_eq!(decrypt_sample_aes_ts(&d, &KEY, &IV), Ok(video_segment(&plain, &cuts)));
    }
}

#[test]
fn pes_packets_end_where_the_next_one_starts() {
    let header = [0, 0, 1, 0xc0, 0, 0, 0x80, 0, 0];
    let body: Vec<u8> = (0..200).collect();
    let build = |sealed: bool| {
        let unit = if sealed { frame(&seal(&body)) } else { frame(&body) };
        let mut d = pat(0x1000);
        d.extend(pmt(0x1000, &[(0x0f, 0x101)]));
        // The rest of a PES packet that began in an earlier segment.
        d.extend(packet(0x101, false, &unit[..150]));
        d.extend(packet(0x101, false, &unit[150..]));
        for _ in 0..2 {
            let mut pes = header.to_vec();
            pes.extend(&unit);
            d.extend(packet(0x101, true, &pes[..184]));
            d.extend(packet(0x101, false, &pes[184..]));
        }
        // The frame of a PES packet that ends too early is kept as it is.
        let mut pes = header.to_vec();
        pes.extend(frame(&seal(&body)));
        d.extend(packet(0x101, true, &pes[..184]));
        d.extend(packet(0x101, true, &header));
        d
    };
    assert_eq!(decrypt_sample_aes_ts(&build(true), &KEY, &IV), Ok(build(false)));
}

#[test]
fn segments_without_streams_stay_as_they_are() {
    let d = packet(0x33, true, &[5; 100]);
    assert_eq!(decrypt_sample_aes_ts(&d, &KEY, &IV), Ok(d));
}

#[test]
fn keys_of_another_length_are_refused() {
    assert_eq!(decrypt_sample_aes_ts(&[1, 2], &[0; 17], &IV), Err(SampleKeyLength(17)));
}

#[test]
fn headers_that_are_cut_off_are_told_apart() {
    let mut d = pat(0x1000);
    d.extend(pmt(0x1000, &[(0x0f, 0x101)]));
    let mut pes = vec![0, 0, 1, 0xc0, 0, 0, 0x80, 0, 200];
    pes.extend([1u8; 20]);
    d.extend(packet(0x101, true, &pes));
    assert!(!pes_headers_fit(&d));
    // The header goes on in the next packet.
    d.extend(packet(0x101, false, &[1; 184]));
    assert!(pes_headers_fit(&d));
    assert_eq!(decrypt_sample_aes_ts(&d, &KEY, &IV), Ok(d.clone()));
}
