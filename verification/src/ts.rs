//! SAMPLE-AES decryption inside MPEG transport streams.
//!
//! SAMPLE-AES encrypts the samples inside PES packets with AES-128-CBC. A PES packet is
//! spread over the payloads of several TS packets; it is reassembled, decrypted as a
//! whole, and put back:
//!
//! * Video (H.264): NAL units of type 1 (P slice) and 5 (IDR) are encrypted. The
//!   first 32 bytes after the NAL type byte are clear, the 16-byte blocks after
//!   them are not.
//! * Audio (AAC): the payload of each ADTS frame, after its 7- or 9-byte header,
//!   is encrypted as far as it forms whole blocks.
//! * The initialisation vector is reset at the start of each NAL unit or frame.

use crate::crypto::{aes128_cbc_decrypt_inplace, cbc_plain};
use vstd::prelude::*;
use vstd::slice::{slice_subrange, slice_to_vec};

verus! {

/// First byte of every TS packet.
pub const TS_SYNC: u8 = 0x47;

/// Length of a TS packet.
pub const TS_SIZE: usize = 188;

/// Leading bytes of each NAL unit payload that are left unencrypted.
pub const CLEAR_NAL: usize = 32;

/// Stands for a PID that was not found. Real PIDs have 13 bits.
pub const NO_PID: u16 = 0xFFFF;

/// The number of bytes of `d` from `i` on.
pub open spec fn left(d: Seq<u8>, i: int) -> nat {
    if i < d.len() {
        (d.len() - i) as nat
    } else {
        0
    }
}

/// The 13-bit number whose upper five bits are the low bits of `hi`.
pub open spec fn number13(hi: u8, lo: u8) -> u16 {
    ((hi % 32) * 256 + lo) as u16
}

/// The 12-bit number whose upper four bits are the low bits of `hi`.
pub open spec fn number12(hi: u8, lo: u8) -> int {
    (hi % 16) * 256 + lo
}

fn read13(hi: u8, lo: u8) -> (n: u16)
    ensures
        n == number13(hi, lo),
        n < 0x2000,
{
    assert((((hi & 0x1F) as u16) << 8) | (lo as u16) == (hi % 32) * 256 + lo) by (bit_vector);
    (((hi & 0x1F) as u16) << 8) | lo as u16
}

fn read12(hi: u8, lo: u8) -> (n: usize)
    ensures
        n == number12(hi, lo),
        n < 0x1000,
{
    assert((((hi & 0x0F) as u16) << 8) | (lo as u16) == (hi % 16) * 256 + lo) by (bit_vector);
    ((((hi & 0x0F) as u16) << 8) | lo as u16) as usize
}

// ---------------------------------------------------------------- TS packets

/// Whether a TS packet starts at `i`.
pub open spec fn packet_at(d: Seq<u8>, i: int) -> bool {
    i + 188 <= d.len() && d[i] == TS_SYNC
}

/// PID of the packet at `i`.
pub open spec fn pid_at(d: Seq<u8>, i: int) -> u16 {
    number13(d[i + 1], d[i + 2])
}

/// The payload unit start indicator of the packet at `i`.
pub open spec fn starts_unit(d: Seq<u8>, i: int) -> bool {
    d[i + 1] / 64 % 2 == 1
}

/// Where the payload of the packet at `i` starts: after the four header bytes and,
/// where the header announces one, the adaptation field.
pub open spec fn payload_start(d: Seq<u8>, i: int) -> int {
    i + 4 + if d[i + 3] / 32 % 2 == 1 {
        1 + d[i + 4] as int
    } else {
        0
    }
}

/// The fields of one packet header.
struct Header {
    pid: u16,
    pusi: bool,
    payload: usize,
}

fn read_header(d: &[u8], i: usize) -> (h: Header)
    requires
        i + 188 <= d.len(),
    ensures
        h.pid == pid_at(d@, i as int),
        h.pid < 0x2000,
        h.pusi == starts_unit(d@, i as int),
        h.payload == payload_start(d@, i as int) - i,
        4 <= h.payload <= 260,
{
    let flags: u8 = d[i + 1];
    let control: u8 = d[i + 3];
    assert((flags & 0x40 != 0) == (flags / 64 % 2 == 1)) by (bit_vector);
    assert(((control >> 4) & 0x3) & 0x2 != 0 <==> control / 32 % 2 == 1) by (bit_vector);
    let adaptation: usize = if ((control >> 4) & 0x3) & 0x2 != 0 {
        1 + d[i + 4] as usize
    } else {
        0
    };
    Header { pid: read13(d[i + 1], d[i + 2]), pusi: flags & 0x40 != 0, payload: 4 + adaptation }
}

// ------------------------------------------------------------ program tables

/// Where the table section in the packet at `i` starts: after the pointer field
/// and the bytes that it skips.
pub open spec fn section_start(d: Seq<u8>, i: int) -> int {
    payload_start(d, i) + 1 + d[payload_start(d, i)]
}

/// Whether the packet at `i` carries, from its start, a section of table `table`
/// on `pid`.
pub open spec fn has_section(d: Seq<u8>, i: int, pid: u16, table: u8) -> bool {
    &&& pid_at(d, i) == pid
    &&& starts_unit(d, i)
    &&& payload_start(d, i) + 12 < i + 188
    &&& section_start(d, i) + 12 <= i + 188
    &&& d[section_start(d, i)] == table
}

/// End of the entries of the section at `sec`: the section length counts from
/// after the length field and takes in a four-byte checksum.
pub open spec fn section_end(d: Seq<u8>, sec: int) -> int {
    sec + 3 + number12(d[sec + 1], d[sec + 2]) - 4
}

/// The PMT PID of the first program (number other than 0) among the PAT entries
/// from `e` to `end`.
pub open spec fn first_program(d: Seq<u8>, e: int, end: int) -> Option<u16>
    decreases left(d, e),
{
    if e + 4 <= end && e + 4 <= d.len() {
        if d[e] != 0 || d[e + 1] != 0 {
            Some(number13(d[e + 2], d[e + 3]))
        } else {
            first_program(d, e + 4, end)
        }
    } else {
        None
    }
}

/// The PMT PID that the packet at `i` gives, if it carries a PAT that lists a program.
pub open spec fn program_in(d: Seq<u8>, i: int) -> Option<u16> {
    if has_section(d, i, 0, 0x00) {
        first_program(d, section_start(d, i) + 8, section_end(d, section_start(d, i)))
    } else {
        None
    }
}

/// The PMT PID of the first packet from `i` on that gives one.
pub open spec fn program_from(d: Seq<u8>, i: int) -> Option<u16>
    decreases left(d, i),
{
    if i + 188 > d.len() {
        None
    } else if !packet_at(d, i) {
        program_from(d, i + 1)
    } else if program_in(d, i) is Some {
        program_in(d, i)
    } else {
        program_from(d, i + 188)
    }
}

/// The elementary streams (type and PID) that the PMT entries from `e` to `end` list.
pub open spec fn stream_entries(d: Seq<u8>, e: int, end: int) -> Seq<(u8, u16)>
    decreases left(d, e),
{
    if e + 5 <= end && e + 5 <= d.len() {
        seq![(d[e], number13(d[e + 1], d[e + 2]))] + stream_entries(
            d,
            e + 5 + number12(d[e + 3], d[e + 4]),
            end,
        )
    } else {
        seq![]
    }
}

/// The elementary streams that the packet at `i` lists, if it carries the PMT on `pmt`.
pub open spec fn streams_in(d: Seq<u8>, i: int, pmt: u16) -> Seq<(u8, u16)> {
    if has_section(d, i, pmt, 0x02) {
        let sec = section_start(d, i);
        stream_entries(d, sec + 12 + number12(d[sec + 10], d[sec + 11]), section_end(d, sec))
    } else {
        seq![]
    }
}

/// The elementary streams that all packets from `i` on list, in order.
pub open spec fn streams_from(d: Seq<u8>, i: int, pmt: u16) -> Seq<(u8, u16)>
    decreases left(d, i),
{
    if i + 188 > d.len() {
        seq![]
    } else if !packet_at(d, i) {
        streams_from(d, i + 1, pmt)
    } else {
        streams_in(d, i, pmt) + streams_from(d, i + 188, pmt)
    }
}

/// H.264 or H.265.
pub open spec fn is_video(kind: u8) -> bool {
    kind == 0x1B || kind == 0x24
}

/// AAC.
pub open spec fn is_audio(kind: u8) -> bool {
    kind == 0x0F || kind == 0x11
}

/// PID of the first video stream.
pub open spec fn first_video(streams: Seq<(u8, u16)>) -> u16
    decreases streams.len(),
{
    if streams.len() == 0 {
        NO_PID
    } else if is_video(streams[0].0) {
        streams[0].1
    } else {
        first_video(streams.skip(1))
    }
}

/// PID of the first audio stream.
pub open spec fn first_audio(streams: Seq<(u8, u16)>) -> u16
    decreases streams.len(),
{
    if streams.len() == 0 {
        NO_PID
    } else if is_audio(streams[0].0) {
        streams[0].1
    } else {
        first_audio(streams.skip(1))
    }
}

/// The video and audio PIDs of a transport stream.
pub open spec fn av_pids(d: Seq<u8>) -> (u16, u16) {
    match program_from(d, 0) {
        Some(pmt) => (first_video(streams_from(d, 0, pmt)), first_audio(streams_from(d, 0, pmt))),
        None => (NO_PID, NO_PID),
    }
}

/// `pid`, or `rest` where nothing was found yet.
pub open spec fn or_else(pid: u16, rest: u16) -> u16 {
    if pid == NO_PID {
        rest
    } else {
        pid
    }
}

proof fn lemma_first_of_concat(a: Seq<(u8, u16)>, b: Seq<(u8, u16)>)
    requires
        forall|k: int| 0 <= k < a.len() ==> (#[trigger] a[k]).1 != NO_PID,
    ensures
        first_video(a + b) == or_else(first_video(a), first_video(b)),
        first_audio(a + b) == or_else(first_audio(a), first_audio(b)),
    decreases a.len(),
{
    if a.len() == 0 {
        assert(a + b =~= b);
    } else {
        assert((a + b).skip(1) =~= a.skip(1) + b);
        lemma_first_of_concat(a.skip(1), b);
    }
}

proof fn lemma_entries_have_pids(d: Seq<u8>, e: int, end: int)
    ensures
        forall|k: int|
            0 <= k < stream_entries(d, e, end).len() ==> (#[trigger] stream_entries(
                d,
                e,
                end,
            )[k]).1 < 0x2000,
    decreases left(d, e),
{
    if e + 5 <= end && e + 5 <= d.len() {
        let next = e + 5 + number12(d[e + 3], d[e + 4]);
        lemma_entries_have_pids(d, next, end);
        let all = stream_entries(d, e, end);
        assert forall|k: int| 0 <= k < all.len() implies (#[trigger] all[k]).1 < 0x2000 by {
            if k > 0 {
                assert(all[k] == stream_entries(d, next, end)[k - 1]);
            }
        }
    }
}

/// The section of `table` on `pid` in the packet at `i`: its start, where it has one.
fn find_section(d: &[u8], i: usize, pid: u16, table: u8) -> (sec: Option<usize>)
    requires
        i + 188 <= d.len(),
    ensures
        match sec {
            Some(sec) => {
                &&& has_section(d@, i as int, pid, table)
                &&& sec == section_start(d@, i as int)
                &&& sec + 12 <= i + 188
                &&& sec >= 5
            },
            None => !has_section(d@, i as int, pid, table),
        },
{
    let h = read_header(d, i);
    if h.pid == pid && h.pusi && h.payload + 12 < TS_SIZE {
        let off: usize = i + h.payload;
        let skip: usize = h.payload + 1 + d[off] as usize;
        if skip + 12 <= TS_SIZE && d[i + skip] == table {
            return Some(i + skip);
        }
    }
    None
}

/// End of the entries of the section at `sec`, or the end of the data where the
/// section claims to go on after it.
fn clipped_section_end(d: &[u8], sec: usize) -> (end: usize)
    requires
        5 <= sec,
        sec + 12 <= d.len(),
    ensures
        end <= d.len(),
        end <= section_end(d@, sec as int),
        end == d.len() || end == section_end(d@, sec as int),
{
    let len: usize = read12(d[sec + 1], d[sec + 2]);
    if len <= d.len() - sec {
        sec + len - 1
    } else {
        d.len()
    }
}

/// The program that the PAT packet at `i` gives.
fn read_program(d: &[u8], i: usize) -> (pid: Option<u16>)
    requires
        i + 188 <= d.len(),
    ensures
        pid == program_in(d@, i as int),
        pid is Some ==> pid->0 != NO_PID,
{
    let sec: usize = match find_section(d, i, 0, 0x00) {
        Some(sec) => sec,
        None => return None,
    };
    let end: usize = clipped_section_end(d, sec);
    let ghost full_end = section_end(d@, sec as int);
    let mut e: usize = sec + 8;
    while e <= end && end - e >= 4
        invariant
            end <= d.len(),
            end <= full_end,
            end == d.len() || end == full_end,
            program_in(d@, i as int) == first_program(d@, e as int, full_end),
        decreases d.len() - e,
    {
        if d[e] != 0 || d[e + 1] != 0 {
            return Some(read13(d[e + 2], d[e + 3]));
        }
        e += 4;
    }
    None
}

/// Takes the first video and the first audio PID out of the entries of the PMT
/// packet at `i`, keeping what was found before.
fn read_streams(d: &[u8], i: usize, pmt: u16, video: u16, audio: u16) -> (pids: (u16, u16))
    requires
        i + 188 <= d.len(),
    ensures
        pids.0 == or_else(video, first_video(streams_in(d@, i as int, pmt))),
        pids.1 == or_else(audio, first_audio(streams_in(d@, i as int, pmt))),
{
    let sec: usize = match find_section(d, i, pmt, 0x02) {
        Some(sec) => sec,
        None => return (video, audio),
    };
    let end: usize = clipped_section_end(d, sec);
    let info: usize = read12(d[sec + 10], d[sec + 11]);
    let ghost full_end = section_end(d@, sec as int);
    if info > d.len() - (sec + 12) {
        return (video, audio);
    }
    let mut found: (u16, u16) = (video, audio);
    let mut e: usize = sec + 12 + info;
    let ghost all = streams_in(d@, i as int, pmt);
    while e <= end && end - e >= 5
        invariant
            end <= d.len(),
            end <= full_end,
            end == d.len() || end == full_end,
            all == streams_in(d@, i as int, pmt),
            or_else(video, first_video(all)) == or_else(
                found.0,
                first_video(stream_entries(d@, e as int, full_end)),
            ),
            or_else(audio, first_audio(all)) == or_else(
                found.1,
                first_audio(stream_entries(d@, e as int, full_end)),
            ),
        decreases d.len() - e,
    {
        let kind: u8 = d[e];
        let pid: u16 = read13(d[e + 1], d[e + 2]);
        let info: usize = read12(d[e + 3], d[e + 4]);
        proof {
            let rest = stream_entries(d@, e + 5 + info, full_end);
            assert(stream_entries(d@, e as int, full_end).skip(1) =~= rest);
        }
        if (kind == 0x1B || kind == 0x24) && found.0 == NO_PID {
            found.0 = pid;
        } else if (kind == 0x0F || kind == 0x11) && found.1 == NO_PID {
            found.1 = pid;
        }
        if info > end - (e + 5) {
            proof {
                let rest = stream_entries(d@, e + 5 + info, full_end);
                assert(first_video(rest) == NO_PID && first_audio(rest) == NO_PID);
            }
            return found;
        }
        e += 5 + info;
    }
    found
}

/// Finds the video and audio PIDs by reading the PAT, then the PMT. Returns
/// `(video_pid, audio_pid)`, with [`NO_PID`] for one that was not found.
pub fn find_av_pids(data: &[u8]) -> (pids: (u16, u16))
    ensures
        pids == av_pids(data@),
{
    let mut program: Option<u16> = None;
    let mut i: usize = 0;
    while program.is_none() && i <= data.len() && data.len() - i >= TS_SIZE
        invariant
            i <= data.len(),
            program is Some ==> program->0 != NO_PID,
            program_from(data@, 0) == match program {
                Some(pid) => program,
                None => program_from(data@, i as int),
            },
        decreases (if program is None { 1int } else { 0int }), data.len() - i,
    {
        if data[i] != TS_SYNC {
            i += 1;
        } else {
            program = read_program(data, i);
            i += TS_SIZE;
        }
    }
    let pmt: u16 = match program {
        Some(pid) => pid,
        None => return (NO_PID, NO_PID),
    };
    let mut video: u16 = NO_PID;
    let mut audio: u16 = NO_PID;
    i = 0;
    while data.len() - i >= TS_SIZE
        invariant
            i <= data.len(),
            first_video(streams_from(data@, 0, pmt)) == or_else(
                video,
                first_video(streams_from(data@, i as int, pmt)),
            ),
            first_audio(streams_from(data@, 0, pmt)) == or_else(
                audio,
                first_audio(streams_from(data@, i as int, pmt)),
            ),
        decreases data.len() - i,
    {
        if data[i] != TS_SYNC {
            i += 1;
        } else {
            proof {
                let d = data@;
                let sec = section_start(d, i as int);
                lemma_entries_have_pids(
                    d,
                    sec + 12 + number12(d[sec + 10], d[sec + 11]),
                    section_end(d, sec),
                );
                lemma_first_of_concat(
                    streams_in(d, i as int, pmt),
                    streams_from(d, i + 188, pmt),
                );
            }
            let found: (u16, u16) = read_streams(data, i, pmt, video, audio);
            video = found.0;
            audio = found.1;
            i += TS_SIZE;
        }
    }
    (video, audio)
}

// ------------------------------------------------------------------- samples

/// `s` with the bytes from `from` to `to` decrypted.
pub open spec fn range_plain(
    s: Seq<u8>,
    from: int,
    to: int,
    key: Seq<u8>,
    iv: Seq<u8>,
) -> Seq<u8> {
    s.take(from) + cbc_plain(key, iv, s.subrange(from, to)) + s.skip(to)
}

fn decrypt_range(buf: &mut [u8], from: usize, to: usize, key: &[u8; 16], iv: &[u8; 16])
    requires
        from <= to <= old(buf)@.len(),
    ensures
        final(buf)@ == range_plain(old(buf)@, from as int, to as int, key@, iv@),
{
    let ghost before = buf@;
    let (_, tail) = buf.split_at_mut(from);
    let ghost tail_before = tail@;
    assert(tail_before.take(to - from) =~= before.subrange(from as int, to as int));
    assert(tail_before.skip(to - from) =~= before.skip(to as int));
    let (enc, _) = tail.split_at_mut(to - from);
    assert(enc@ =~= before.subrange(from as int, to as int));
    aes128_cbc_decrypt_inplace(enc, key, iv);
}

/// Length of the H.264 start code (`00 00 00 01` or `00 00 01`) that `s` begins
/// with; 0 if it begins with none.
pub open spec fn start_code(s: Seq<u8>) -> int {
    if s.len() >= 4 && s[0] == 0 && s[1] == 0 && s[2] == 0 && s[3] == 1 {
        4
    } else if s.len() >= 3 && s[0] == 0 && s[1] == 0 && s[2] == 1 {
        3
    } else {
        0
    }
}

/// The first position from `from` on where a start code begins, or the end of `s`.
pub open spec fn nal_end(s: Seq<u8>, from: int) -> int
    decreases left(s, from),
{
    if from + 3 > s.len() {
        s.len() as int
    } else if start_code(s.skip(from)) > 0 {
        from
    } else {
        nal_end(s, from + 1)
    }
}

/// Whether NAL units with this type byte are encrypted: P slices and IDR slices.
pub open spec fn encrypted_nal(first: u8) -> bool {
    first % 32 == 1 || first % 32 == 5
}

/// A NAL unit with its start code of length `code`, decrypted: what comes after the
/// type byte and the clear lead is encrypted in the slice types.
pub open spec fn nal_plain(unit: Seq<u8>, code: int, key: Seq<u8>, iv: Seq<u8>) -> Seq<u8> {
    if encrypted_nal(unit[code]) && code + 1 + 32 < unit.len() {
        range_plain(unit, code + 1 + 32, unit.len() as int, key, iv)
    } else {
        unit
    }
}

/// An H.264 byte stream with its NAL units decrypted. A start code counts only
/// with at least one more byte than it can take behind it.
pub open spec fn h264_plain(s: Seq<u8>, key: Seq<u8>, iv: Seq<u8>) -> Seq<u8>
    decreases s.len(),
    via h264_plain_decreases
{
    if s.len() <= 4 {
        s
    } else if start_code(s) == 0 {
        s.take(1) + h264_plain(s.skip(1), key, iv)
    } else {
        let code = start_code(s);
        let end = nal_end(s, code + 1);
        nal_plain(s.take(end), code, key, iv) + h264_plain(s.skip(end), key, iv)
    }
}

#[via_fn]
proof fn h264_plain_decreases(s: Seq<u8>, key: Seq<u8>, iv: Seq<u8>) {
    if s.len() > 4 && start_code(s) > 0 {
        lemma_nal_end_bounds(s, start_code(s) + 1);
    }
}

proof fn lemma_nal_end_bounds(s: Seq<u8>, from: int)
    requires
        0 <= from <= s.len(),
    ensures
        from <= nal_end(s, from) <= s.len(),
    decreases left(s, from),
{
    if from + 3 <= s.len() && start_code(s.skip(from)) == 0 {
        lemma_nal_end_bounds(s, from + 1);
    }
}

/// Length of a start code at `pos`.
fn start_code_at(s: &[u8], pos: usize) -> (len: usize)
    requires
        pos <= s.len(),
    ensures
        len == start_code(s@.skip(pos as int)),
        len <= s.len() - pos,
{
    let left: usize = s.len() - pos;
    if left >= 4 && s[pos] == 0 && s[pos + 1] == 0 && s[pos + 2] == 0 && s[pos + 3] == 1 {
        4
    } else if left >= 3 && s[pos] == 0 && s[pos + 1] == 0 && s[pos + 2] == 1 {
        3
    } else {
        0
    }
}

fn find_nal_end(s: &[u8], pos: usize, from: usize) -> (end: usize)
    requires
        pos <= from <= s.len(),
    ensures
        end - pos == nal_end(s@.skip(pos as int), from - pos),
        from <= end <= s.len(),
{
    let ghost rest = s@.skip(pos as int);
    let mut e: usize = from;
    while s.len() - e >= 3
        invariant
            pos <= from <= e <= s.len(),
            rest == s@.skip(pos as int),
            nal_end(rest, from - pos) == nal_end(rest, e - pos),
        decreases s.len() - e,
    {
        assert(rest.skip(e - pos) =~= s@.skip(e as int));
        if start_code_at(s, e) > 0 {
            return e;
        }
        e += 1;
    }
    s.len()
}

/// Decrypts the NAL unit from `pos` to `end`, which a start code of length `code`
/// opens, in place.
fn decrypt_nal(
    stream: &mut [u8],
    pos: usize,
    code: usize,
    end: usize,
    key: &[u8; 16],
    iv: &[u8; 16],
)
    requires
        pos + code < end <= old(stream)@.len(),
    ensures
        final(stream)@ == old(stream)@.take(pos as int) + nal_plain(
            old(stream)@.subrange(pos as int, end as int),
            code as int,
            key@,
            iv@,
        ) + old(stream)@.skip(end as int),
{
    let ghost before = stream@;
    let ghost unit = before.subrange(pos as int, end as int);
    let start: usize = pos + code;
    let first: u8 = stream[start];
    assert((first & 0x1F) == first % 32) by (bit_vector);
    let kind: u8 = first & 0x1F;
    if (kind == 1 || kind == 5) && end - start > 1 + CLEAR_NAL {
        let clear_end: usize = start + 1 + CLEAR_NAL;
        decrypt_range(stream, clear_end, end, key, iv);
        proof {
            let from = clear_end - pos;
            assert(unit.subrange(from, unit.len() as int) =~= before.subrange(
                clear_end as int,
                end as int,
            ));
            assert(before.take(clear_end as int) =~= before.take(pos as int) + unit.take(from));
            assert(stream@ =~= before.take(pos as int) + range_plain(
                unit,
                from,
                unit.len() as int,
                key@,
                iv@,
            ) + before.skip(end as int));
        }
    } else {
        assert(stream@ =~= before.take(pos as int) + unit + before.skip(end as int));
    }
}

proof fn lemma_nal_plain_len(unit: Seq<u8>, code: int, key: Seq<u8>, iv: Seq<u8>)
    requires
        0 <= code < unit.len(),
    ensures
        nal_plain(unit, code, key, iv).len() == unit.len(),
{
}

/// What one step of a walk over a stream adds to the finished part.
proof fn lemma_walk_step(
    done: Seq<u8>,
    step: Seq<u8>,
    rest: Seq<u8>,
    after: Seq<u8>,
    stream: Seq<u8>,
    pos: int,
    end: int,
)
    requires
        done.len() == pos,
        step.len() == end - pos,
        stream == done + step + after,
    ensures
        stream.take(end) == done + step,
        stream.skip(end) == after,
        done + (step + rest) == stream.take(end) + rest,
{
    assert(stream.take(end) =~= done + step);
    assert(stream.skip(end) =~= after);
    assert(done + (step + rest) =~= (done + step) + rest);
}

/// Decrypts the NAL units of an H.264 byte stream in place.
fn decrypt_nals(stream: &mut [u8], key: &[u8; 16], iv: &[u8; 16])
    ensures
        final(stream)@ == h264_plain(old(stream)@, key@, iv@),
{
    let ghost whole = stream@;
    let len: usize = stream.len();
    let mut pos: usize = 0;
    assert(whole.skip(0) =~= whole);
    assert(whole.take(0) + h264_plain(whole, key@, iv@) =~= h264_plain(whole, key@, iv@));
    while len - pos > 4
        invariant
            pos <= len,
            len == stream@.len(),
            len == whole.len(),
            stream@.skip(pos as int) == whole.skip(pos as int),
            h264_plain(whole, key@, iv@) == stream@.take(pos as int) + h264_plain(
                whole.skip(pos as int),
                key@,
                iv@,
            ),
        decreases len - pos,
    {
        let ghost rest = whole.skip(pos as int);
        let ghost before = stream@;
        let ghost done = before.take(pos as int);
        let code: usize = start_code_at(stream, pos);
        let end: usize = if code == 0 {
            pos + 1
        } else {
            find_nal_end(stream, pos, pos + code + 1)
        };
        assert(whole.skip(end as int) =~= rest.skip(end - pos));
        assert(before.skip(end as int) =~= rest.skip(end - pos));
        assert(before.subrange(pos as int, end as int) =~= rest.take(end - pos));
        let ghost step;
        if code == 0 {
            proof {
                step = rest.take(1);
                assert(stream@ =~= done + step + before.skip(end as int));
            }
        } else {
            proof {
                step = nal_plain(rest.take(end - pos), code as int, key@, iv@);
                lemma_nal_plain_len(rest.take(end - pos), code as int, key@, iv@);
            }
            decrypt_nal(stream, pos, code, end, key, iv);
        }
        proof {
            lemma_walk_step(
                done,
                step,
                h264_plain(rest.skip(end - pos), key@, iv@),
                before.skip(end as int),
                stream@,
                pos as int,
                end as int,
            );
        }
        pos = end;
    }
    assert(stream@ =~= stream@.take(pos as int) + stream@.skip(pos as int));
}

/// Whether `s` begins with an ADTS sync word.
pub open spec fn adts_sync(s: Seq<u8>) -> bool {
    s[0] == 0xFF && s[1] / 16 == 0xF
}

/// Length of the ADTS header that `s` begins with: two bytes more where a checksum
/// is present.
pub open spec fn adts_header_len(s: Seq<u8>) -> int {
    if s[1] % 2 == 1 {
        7
    } else {
        9
    }
}

/// The 13-bit frame length, header included, in the ADTS header that `s` begins with.
pub open spec fn adts_frame_len(s: Seq<u8>) -> int {
    (s[3] % 4) * 2048 + s[4] * 8 + s[5] / 32
}

/// An AAC stream with its ADTS frames decrypted. Bytes before a sync word are kept;
/// the walk ends at a frame that is shorter than its header or not all there.
pub open spec fn aac_plain(s: Seq<u8>, key: Seq<u8>, iv: Seq<u8>) -> Seq<u8>
    decreases s.len(),
{
    if s.len() <= 7 {
        s
    } else if !adts_sync(s) {
        s.take(1) + aac_plain(s.skip(1), key, iv)
    } else if adts_frame_len(s) < adts_header_len(s) || adts_frame_len(s) > s.len() {
        s
    } else {
        let frame = s.take(adts_frame_len(s));
        range_plain(frame, adts_header_len(s), frame.len() as int, key, iv) + aac_plain(
            s.skip(adts_frame_len(s)),
            key,
            iv,
        )
    }
}

fn frame_len_of(b3: u8, b4: u8, b5: u8) -> (len: usize)
    ensures
        len == (b3 % 4) * 2048 + b4 * 8 + b5 / 32,
        len < 0x2000,
{
    assert(((((b3 & 0x03) as u16) << 11) | ((b4 as u16) << 3) | ((b5 >> 5) as u16)) == (b3 % 4)
        * 2048 + b4 * 8 + b5 / 32) by (bit_vector);
    ((((b3 & 0x03) as u16) << 11) | ((b4 as u16) << 3) | ((b5 >> 5) as u16)) as usize
}

/// Decrypts the ADTS frames of an AAC stream in place.
fn decrypt_frames(stream: &mut [u8], key: &[u8; 16], iv: &[u8; 16])
    ensures
        final(stream)@ == aac_plain(old(stream)@, key@, iv@),
{
    let ghost whole = stream@;
    let len: usize = stream.len();
    let mut pos: usize = 0;
    assert(whole.skip(0) =~= whole);
    assert(whole.take(0) + aac_plain(whole, key@, iv@) =~= aac_plain(whole, key@, iv@));
    while len - pos > 7
        invariant
            pos <= len,
            len == stream@.len(),
            whole == old(stream)@,
            len == whole.len(),
            stream@.skip(pos as int) == whole.skip(pos as int),
            aac_plain(whole, key@, iv@) == stream@.take(pos as int) + aac_plain(
                whole.skip(pos as int),
                key@,
                iv@,
            ),
        decreases len - pos,
    {
        let ghost rest = whole.skip(pos as int);
        let ghost before = stream@;
        let ghost done = before.take(pos as int);
        let second: u8 = stream[pos + 1];
        assert(stream@[pos as int] == rest[0] && second == rest[1]);
        assert(((second & 0xF0) == 0xF0) == (second / 16 == 0xF)) by (bit_vector);
        assert((second & 0x01) == second % 2) by (bit_vector);
        let ghost step;
        let end: usize;
        if stream[pos] != 0xFF || (second & 0xF0) != 0xF0 {
            end = pos + 1;
            proof {
                step = rest.take(1);
                assert(stream@ =~= done + step + before.skip(end as int));
            }
        } else {
            let header: usize = if (second & 0x01) == 1 {
                7
            } else {
                9
            };
            let frame: usize = frame_len_of(stream[pos + 3], stream[pos + 4], stream[pos + 5]);
            assert(frame == adts_frame_len(rest));
            if frame < header || frame > len - pos {
                assert(stream@ =~= stream@.take(pos as int) + stream@.skip(pos as int));
                return;
            }
            end = pos + frame;
            let ghost unit = rest.take(frame as int);
            decrypt_range(stream, pos + header, end, key, iv);
            proof {
                step = range_plain(unit, header as int, frame as int, key@, iv@);
                assert(unit =~= before.subrange(pos as int, end as int));
                assert(unit.subrange(header as int, frame as int) =~= before.subrange(
                    pos + header,
                    end as int,
                ));
                assert(before.take(pos + header) =~= done + unit.take(header as int));
                assert(unit.skip(frame as int) =~= seq![]);
                assert(stream@ =~= done + step + before.skip(end as int));
            }
        }
        proof {
            assert(whole.skip(end as int) =~= rest.skip(end - pos));
            assert(before.skip(end as int) =~= rest.skip(end - pos));
            lemma_walk_step(
                done,
                step,
                aac_plain(rest.skip(end - pos), key@, iv@),
                before.skip(end as int),
                stream@,
                pos as int,
                end as int,
            );
        }
        pos = end;
    }
    assert(stream@ =~= stream@.take(pos as int) + stream@.skip(pos as int));
}

// --------------------------------------------------------------- PES packets

/// Length of the PES packet header that `pes` begins with: nine fixed bytes and as
/// many more as the ninth says. 0 where the fixed bytes are not all there.
pub open spec fn pes_header(pes: Seq<u8>) -> int {
    if pes.len() < 9 {
        0
    } else {
        9 + pes[8]
    }
}

/// Where the sample data of a payload start: after the PES header, where the
/// payload begins a PES packet.
pub open spec fn samples_start(payload: Seq<u8>, pusi: bool) -> int {
    if pusi {
        pes_header(payload)
    } else {
        0
    }
}

/// Returns the length of a PES packet header.
pub fn pes_header_len(pes: &[u8]) -> (len: usize)
    ensures
        len == pes_header(pes@),
{
    if pes.len() < 9 {
        return 0;
    }
    9 + pes[8] as usize
}

/// A payload of an H.264 stream, decrypted.
pub open spec fn h264_payload_plain(
    payload: Seq<u8>,
    pusi: bool,
    key: Seq<u8>,
    iv: Seq<u8>,
) -> Seq<u8> {
    let start = samples_start(payload, pusi);
    payload.take(start) + h264_plain(payload.skip(start), key, iv)
}

/// A payload of an AAC stream, decrypted.
pub open spec fn aac_payload_plain(
    payload: Seq<u8>,
    pusi: bool,
    key: Seq<u8>,
    iv: Seq<u8>,
) -> Seq<u8> {
    let start = samples_start(payload, pusi);
    payload.take(start) + aac_plain(payload.skip(start), key, iv)
}

/// Decrypts an H.264 PES payload in place.
pub fn decrypt_h264_pes_payload(payload: &mut [u8], key: &[u8; 16], iv: &[u8; 16], pusi: bool)
    requires
        samples_start(old(payload)@, pusi) <= old(payload)@.len(),
    ensures
        final(payload)@ == h264_payload_plain(old(payload)@, pusi, key@, iv@),
{
    let start: usize = if pusi {
        pes_header_len(payload)
    } else {
        0
    };
    let (_, stream) = payload.split_at_mut(start);
    decrypt_nals(stream, key, iv);
}

/// Decrypts an AAC PES payload in place.
pub fn decrypt_aac_pes_payload(payload: &mut [u8], key: &[u8; 16], iv: &[u8; 16], pusi: bool)
    requires
        samples_start(old(payload)@, pusi) <= old(payload)@.len(),
    ensures
        final(payload)@ == aac_payload_plain(old(payload)@, pusi, key@, iv@),
{
    let start: usize = if pusi {
        pes_header_len(payload)
    } else {
        0
    };
    let (_, stream) = payload.split_at_mut(start);
    decrypt_frames(stream, key, iv);
}

// --------------------------------------------------------- taking streams out

/// Bytes of an elementary stream, and whether a PES packet starts with them.
#[verifier::ext_equal]
pub struct Piece {
    pub starts: bool,
    pub bytes: Seq<u8>,
}

/// Whether the packet at `i` is on `pid` and has a payload.
pub open spec fn carries(d: Seq<u8>, i: int, pid: u16) -> bool {
    pid_at(d, i) == pid && payload_start(d, i) < i + 188
}

/// The payload of the packet at `i`.
pub open spec fn payload_at(d: Seq<u8>, i: int) -> Piece {
    Piece { starts: starts_unit(d, i), bytes: d.subrange(payload_start(d, i), i + 188) }
}

/// The payloads on `pid` in the packets from `i` on, in order.
pub open spec fn payloads_from(d: Seq<u8>, i: int, pid: u16) -> Seq<Piece>
    decreases left(d, i),
{
    if i + 188 > d.len() {
        seq![]
    } else if !packet_at(d, i) {
        payloads_from(d, i + 1, pid)
    } else if carries(d, i, pid) {
        seq![payload_at(d, i)] + payloads_from(d, i + 188, pid)
    } else {
        payloads_from(d, i + 188, pid)
    }
}

/// The PES packets that payloads make up, reassembled: each goes from one unit start to
/// the next. What comes before the first unit start is the rest of a PES packet whose
/// start is not there.
pub open spec fn pes_packets(payloads: Seq<Piece>) -> Seq<Piece>
    decreases payloads.len(),
{
    if payloads.len() == 0 {
        seq![]
    } else {
        let before = pes_packets(payloads.drop_last());
        let next = payloads.last();
        if next.starts || before.len() == 0 {
            before.push(next)
        } else {
            before.drop_last().push(
                Piece { starts: before.last().starts, bytes: before.last().bytes + next.bytes },
            )
        }
    }
}

/// The PES packets of the stream on `pid`.
pub open spec fn stream_packets(d: Seq<u8>, pid: u16) -> Seq<Piece> {
    pes_packets(payloads_from(d, 0, pid))
}

/// A reassembled PES packet.
struct PesPacket {
    starts: bool,
    bytes: Vec<u8>,
}

impl View for PesPacket {
    type V = Piece;

    closed spec fn view(&self) -> Piece {
        Piece { starts: self.starts, bytes: self.bytes@ }
    }
}

/// What `packets` hold.
spec fn packet_views(packets: Seq<PesPacket>) -> Seq<Piece> {
    packets.map_values(|p: PesPacket| p@)
}

fn append_bytes(bytes: &mut Vec<u8>, more: &[u8])
    ensures
        final(bytes)@ == old(bytes)@ + more@,
{
    let ghost before = bytes@;
    bytes.extend_from_slice(more);
    assert(bytes@ =~= before + more@);
}

/// Collects the PES packets of the stream on `pid`.
fn collect_packets(data: &[u8], pid: u16) -> (packets: Vec<PesPacket>)
    ensures
        packet_views(packets@) == stream_packets(data@, pid),
{
    let mut packets: Vec<PesPacket> = Vec::new();
    let ghost all = payloads_from(data@, 0, pid);
    let ghost mut seen: Seq<Piece> = seq![];
    let mut i: usize = 0;
    assert(packet_views(packets@) =~= seq![]);
    assert(seen + payloads_from(data@, 0, pid) =~= all);
    while data.len() - i >= TS_SIZE
        invariant
            i <= data.len(),
            all == seen + payloads_from(data@, i as int, pid),
            packet_views(packets@) == pes_packets(seen),
        decreases data.len() - i,
    {
        if data[i] != TS_SYNC {
            i += 1;
            continue;
        }
        let h = read_header(data, i);
        if h.pid == pid && h.payload < TS_SIZE {
            let payload = slice_subrange(data, i + h.payload, i + TS_SIZE);
            let ghost next = payload_at(data@, i as int);
            let ghost before = packet_views(packets@);
            assert(before.len() == packets.len());
            proof {
                assert(payload@ == next.bytes);
                assert(seen.push(next).drop_last() =~= seen);
                assert(all =~= seen.push(next) + payloads_from(data@, i + 188, pid));
            }
            let open: Option<PesPacket> = if h.pusi {
                None
            } else {
                packets.pop()
            };
            let packet = match open {
                Some(mut packet) => {
                    assert(before.last() == packet@);
                    append_bytes(&mut packet.bytes, payload);
                    packet
                },
                None => PesPacket { starts: h.pusi, bytes: slice_to_vec(payload) },
            };
            packets.push(packet);
            proof {
                assert(packet_views(packets@) =~= pes_packets(seen.push(next)));
                seen = seen.push(next);
            }
        }
        i += TS_SIZE;
    }
    assert(all =~= seen);
    packets
}

// ---------------------------------------------------------- decrypting streams

/// A PES packet of a video or an audio stream, decrypted as a whole.
pub open spec fn pes_plain(packet: Piece, video: bool, key: Seq<u8>, iv: Seq<u8>) -> Seq<u8> {
    if video {
        h264_payload_plain(packet.bytes, packet.starts, key, iv)
    } else {
        aac_payload_plain(packet.bytes, packet.starts, key, iv)
    }
}

/// The bytes of a stream, with its PES packets decrypted.
pub open spec fn stream_plain(packets: Seq<Piece>, video: bool, key: Seq<u8>, iv: Seq<u8>) -> Seq<u8>
    decreases packets.len(),
{
    if packets.len() == 0 {
        seq![]
    } else {
        stream_plain(packets.drop_last(), video, key, iv) + pes_plain(
            packets.last(),
            video,
            key,
            iv,
        )
    }
}

/// Whether the PES header of a packet ends within it.
pub open spec fn header_fits(packet: Piece) -> bool {
    samples_start(packet.bytes, packet.starts) <= packet.bytes.len()
}

/// Whether that holds of all `packets`.
pub open spec fn all_headers_fit(packets: Seq<Piece>) -> bool {
    forall|k: int| 0 <= k < packets.len() ==> header_fits(#[trigger] packets[k])
}

/// Whether no PES header of the video or the audio stream of a segment is cut off.
pub open spec fn headers_fit(d: Seq<u8>) -> bool {
    &&& all_headers_fit(stream_packets(d, av_pids(d).0))
    &&& all_headers_fit(stream_packets(d, av_pids(d).1))
}

fn packet_headers_fit(packets: &Vec<PesPacket>) -> (fit: bool)
    ensures
        fit == all_headers_fit(packet_views(packets@)),
{
    let ghost shown = packet_views(packets@);
    let mut k: usize = 0;
    while k < packets.len()
        invariant
            k <= packets.len(),
            shown == packet_views(packets@),
            forall|j: int| 0 <= j < k ==> header_fits(#[trigger] shown[j]),
        decreases packets.len() - k,
    {
        assert(shown[k as int] == packets@[k as int]@);
        let bytes = packets[k].bytes.as_slice();
        if packets[k].starts && pes_header_len(bytes) > bytes.len() {
            assert(!header_fits(shown[k as int]));
            return false;
        }
        k += 1;
    }
    true
}

/// Tells whether no PES header of the video or the audio stream of `data` is cut off.
/// Only such a segment can be decrypted.
pub fn pes_headers_fit(data: &[u8]) -> (fit: bool)
    ensures
        fit == headers_fit(data@),
{
    let pids: (u16, u16) = find_av_pids(data);
    packet_headers_fit(&collect_packets(data, pids.0)) && packet_headers_fit(
        &collect_packets(data, pids.1),
    )
}

/// Decrypts the PES packets of a video or an audio stream, and gives its bytes.
fn decrypt_packets(packets: &Vec<PesPacket>, video: bool, key: &[u8; 16], iv: &[u8; 16]) -> (stream:
    Vec<u8>)
    requires
        all_headers_fit(packet_views(packets@)),
    ensures
        stream@ == stream_plain(packet_views(packets@), video, key@, iv@),
{
    let ghost shown = packet_views(packets@);
    let mut stream: Vec<u8> = Vec::new();
    let mut k: usize = 0;
    assert(stream@ =~= stream_plain(shown.take(0), video, key@, iv@));
    while k < packets.len()
        invariant
            k <= packets.len(),
            shown == packet_views(packets@),
            all_headers_fit(shown),
            stream@ == stream_plain(shown.take(k as int), video, key@, iv@),
        decreases packets.len() - k,
    {
        let packet = &packets[k];
        let ghost before = stream@;
        assert(shown[k as int] == packet@);
        assert(header_fits(shown[k as int]));
        let start: usize = stream.len();
        append_bytes(&mut stream, packet.bytes.as_slice());
        let bytes = stream.as_mut_slice();
        let (_, tail) = bytes.split_at_mut(start);
        assert(tail@ =~= packet.bytes@);
        if video {
            decrypt_h264_pes_payload(tail, key, iv, packet.starts);
        } else {
            decrypt_aac_pes_payload(tail, key, iv, packet.starts);
        }
        proof {
            assert(stream@ =~= before + pes_plain(packet@, video, key@, iv@));
            assert(shown.take(k + 1).drop_last() =~= shown.take(k as int));
            assert(shown.take(k + 1).last() == packet@);
        }
        k += 1;
    }
    assert(shown.take(k as int) =~= shown);
    stream
}

// --------------------------------------------------------- putting streams back

/// The part of a segment from `i` on, with the bytes `video` and `audio` in place of the
/// payloads on the two PIDs. Everything else is kept.
pub open spec fn refilled(
    d: Seq<u8>,
    i: int,
    pids: (u16, u16),
    video: Seq<u8>,
    audio: Seq<u8>,
) -> Seq<u8>
    decreases left(d, i),
{
    let start = payload_start(d, i);
    let n = i + 188 - start;
    if i + 188 > d.len() {
        d.skip(i)
    } else if !packet_at(d, i) {
        d.subrange(i, i + 1) + refilled(d, i + 1, pids, video, audio)
    } else if carries(d, i, pids.0) {
        d.subrange(i, start) + video.take(n) + refilled(d, i + 188, pids, video.skip(n), audio)
    } else if carries(d, i, pids.1) {
        d.subrange(i, start) + audio.take(n) + refilled(d, i + 188, pids, video, audio.skip(n))
    } else {
        d.subrange(i, i + 188) + refilled(d, i + 188, pids, video, audio)
    }
}

/// A SAMPLE-AES segment, decrypted: the PES packets of its video and its audio stream are
/// reassembled, decrypted, and put back in the place where they were.
pub open spec fn segment_plain(d: Seq<u8>, key: Seq<u8>, iv: Seq<u8>) -> Seq<u8> {
    let pids = av_pids(d);
    refilled(
        d,
        0,
        pids,
        stream_plain(stream_packets(d, pids.0), true, key, iv),
        stream_plain(stream_packets(d, pids.1), false, key, iv),
    )
}

/// The bytes of `pieces`, one after the other.
pub open spec fn joined_bytes(pieces: Seq<Piece>) -> Seq<u8>
    decreases pieces.len(),
{
    if pieces.len() == 0 {
        seq![]
    } else {
        joined_bytes(pieces.drop_last()) + pieces.last().bytes
    }
}

proof fn lemma_joined_concat(a: Seq<Piece>, b: Seq<Piece>)
    ensures
        joined_bytes(a + b) == joined_bytes(a) + joined_bytes(b),
    decreases b.len(),
{
    if b.len() == 0 {
        assert(a + b =~= a);
        assert(joined_bytes(a) + joined_bytes(b) =~= joined_bytes(a));
    } else {
        assert((a + b).drop_last() =~= a + b.drop_last());
        lemma_joined_concat(a, b.drop_last());
        assert(joined_bytes(a + b) =~= joined_bytes(a) + joined_bytes(b));
    }
}

proof fn lemma_joined_first(first: Piece, rest: Seq<Piece>)
    ensures
        joined_bytes(seq![first] + rest) == first.bytes + joined_bytes(rest),
{
    lemma_joined_concat(seq![first], rest);
    assert(seq![first].drop_last() =~= seq![]);
    assert(joined_bytes(seq![first].drop_last()) =~= seq![]);
    assert(joined_bytes(seq![first]) =~= first.bytes);
}

/// Reassembling keeps the bytes and their order.
pub proof fn law_reassembling_keeps_the_bytes(payloads: Seq<Piece>)
    ensures
        joined_bytes(pes_packets(payloads)) == joined_bytes(payloads),
    decreases payloads.len(),
{
    if payloads.len() > 0 {
        let before = pes_packets(payloads.drop_last());
        let next = payloads.last();
        law_reassembling_keeps_the_bytes(payloads.drop_last());
        if next.starts || before.len() == 0 {
            assert(before.push(next).drop_last() =~= before);
        } else {
            let whole = Piece {
                starts: before.last().starts,
                bytes: before.last().bytes + next.bytes,
            };
            let head = before.drop_last();
            assert(head.push(whole).drop_last() =~= head);
            assert(joined_bytes(head) + (before.last().bytes + next.bytes) =~= joined_bytes(before)
                + next.bytes);
        }
    }
}

proof fn lemma_stream_plain_len(packets: Seq<Piece>, video: bool, key: Seq<u8>, iv: Seq<u8>)
    requires
        all_headers_fit(packets),
    ensures
        stream_plain(packets, video, key, iv).len() == joined_bytes(packets).len(),
    decreases packets.len(),
{
    if packets.len() > 0 {
        let before = packets.drop_last();
        assert forall|k: int| 0 <= k < before.len() implies header_fits(#[trigger] before[k]) by {
            assert(before[k] == packets[k]);
        }
        lemma_stream_plain_len(before, video, key, iv);
        assert(header_fits(packets[packets.len() - 1]));
        law_pes_packet_keeps_its_header(packets.last(), video, key, iv);
    }
}

/// Puts the bytes of the two streams in place of the payloads on their PIDs.
fn refill(data: &[u8], pids: (u16, u16), video: &Vec<u8>, audio: &Vec<u8>) -> (out: Vec<u8>)
    requires
        video@.len() >= joined_bytes(payloads_from(data@, 0, pids.0)).len(),
        audio@.len() >= joined_bytes(payloads_from(data@, 0, pids.1)).len(),
    ensures
        out@ == refilled(data@, 0, pids, video@, audio@),
{
    let ghost whole = refilled(data@, 0, pids, video@, audio@);
    let mut out: Vec<u8> = Vec::new();
    let mut v: usize = 0;
    let mut a: usize = 0;
    let mut i: usize = 0;
    assert(video@.skip(0) =~= video@);
    assert(audio@.skip(0) =~= audio@);
    assert(out@ + whole =~= whole);
    while data.len() - i >= TS_SIZE
        invariant
            i <= data.len(),
            v <= video.len(),
            a <= audio.len(),
            video.len() - v >= joined_bytes(payloads_from(data@, i as int, pids.0)).len(),
            audio.len() - a >= joined_bytes(payloads_from(data@, i as int, pids.1)).len(),
            whole == out@ + refilled(
                data@,
                i as int,
                pids,
                video@.skip(v as int),
                audio@.skip(a as int),
            ),
        decreases data.len() - i,
    {
        let ghost before = out@;
        let ghost rest_video = video@.skip(v as int);
        let ghost rest_audio = audio@.skip(a as int);
        let end: usize;
        if data[i] != TS_SYNC {
            end = i + 1;
            append_bytes(&mut out, slice_subrange(data, i, end));
        } else {
            end = i + TS_SIZE;
            let h = read_header(data, i);
            proof {
                let next = payload_at(data@, i as int);
                lemma_joined_first(next, payloads_from(data@, i + 188, pids.0));
                lemma_joined_first(next, payloads_from(data@, i + 188, pids.1));
            }
            if h.payload < TS_SIZE && (h.pid == pids.0 || h.pid == pids.1) {
                let n: usize = TS_SIZE - h.payload;
                append_bytes(&mut out, slice_subrange(data, i, i + h.payload));
                if h.pid == pids.0 {
                    append_bytes(&mut out, slice_subrange(video.as_slice(), v, v + n));
                    assert(video@.subrange(v as int, v + n) =~= rest_video.take(n as int));
                    assert(rest_video.skip(n as int) =~= video@.skip(v + n));
                    v += n;
                } else {
                    append_bytes(&mut out, slice_subrange(audio.as_slice(), a, a + n));
                    assert(audio@.subrange(a as int, a + n) =~= rest_audio.take(n as int));
                    assert(rest_audio.skip(n as int) =~= audio@.skip(a + n));
                    a += n;
                }
            } else {
                append_bytes(&mut out, slice_subrange(data, i, end));
            }
        }
        proof {
            let rest = refilled(
                data@,
                end as int,
                pids,
                video@.skip(v as int),
                audio@.skip(a as int),
            );
            let step = out@.skip(before.len() as int);
            assert(refilled(data@, i as int, pids, rest_video, rest_audio) =~= step + rest);
            assert(before + (step + rest) =~= out@ + rest);
        }
        i = end;
    }
    append_bytes(&mut out, slice_subrange(data, i, data.len()));
    assert(data@.subrange(i as int, data@.len() as int) =~= data@.skip(i as int));
    out
}

/// The key of a SAMPLE-AES segment is not 16 bytes long but this many.
#[derive(Clone, Copy, Debug, PartialEq, Eq, Structural)]
pub struct SampleKeyLength(pub usize);

/// Decrypts a full SAMPLE-AES MPEG-TS segment.
pub fn decrypt_sample_aes_ts(data: &[u8], key: &[u8], iv: &[u8; 16]) -> (plain: Result<
    Vec<u8>,
    SampleKeyLength,
>)
    requires
        key@.len() == 16 ==> headers_fit(data@),
    ensures
        match plain {
            Ok(bytes) => key@.len() == 16 && bytes@ == segment_plain(data@, key@, iv@),
            Err(e) => key@.len() != 16 && e == SampleKeyLength(key.len()),
        },
{
    if key.len() != 16 {
        return Err(SampleKeyLength(key.len()));
    }
    let mut key16: [u8; 16] = [0u8; 16];
    let mut k: usize = 0;
    while k < 16
        invariant
            k <= 16,
            key@.len() == 16,
            forall|j: int| 0 <= j < k ==> #[trigger] key16@[j] == key@[j],
        decreases 16 - k,
    {
        key16[k] = key[k];
        k += 1;
    }
    assert(key16@ =~= key@);
    let pids: (u16, u16) = find_av_pids(data);
    let video = decrypt_packets(&collect_packets(data, pids.0), true, &key16, iv);
    let audio = decrypt_packets(&collect_packets(data, pids.1), false, &key16, iv);
    proof {
        lemma_stream_plain_len(stream_packets(data@, pids.0), true, key@, iv@);
        lemma_stream_plain_len(stream_packets(data@, pids.1), false, key@, iv@);
        law_reassembling_keeps_the_bytes(payloads_from(data@, 0, pids.0));
        law_reassembling_keeps_the_bytes(payloads_from(data@, 0, pids.1));
    }
    Ok(refill(data, pids, &video, &audio))
}

// ---------------------------------------------------------------------- laws

/// Decrypting an H.264 stream keeps its length.
pub proof fn law_h264_keeps_length(s: Seq<u8>, key: Seq<u8>, iv: Seq<u8>)
    ensures
        h264_plain(s, key, iv).len() == s.len(),
    decreases s.len(),
{
    if s.len() > 4 {
        if start_code(s) == 0 {
            law_h264_keeps_length(s.skip(1), key, iv);
        } else {
            let code = start_code(s);
            let end = nal_end(s, code + 1);
            lemma_nal_end_bounds(s, code + 1);
            lemma_nal_plain_len(s.take(end), code, key, iv);
            law_h264_keeps_length(s.skip(end), key, iv);
        }
    }
}

/// Decrypting an AAC stream keeps its length.
pub proof fn law_aac_keeps_length(s: Seq<u8>, key: Seq<u8>, iv: Seq<u8>)
    ensures
        aac_plain(s, key, iv).len() == s.len(),
    decreases s.len(),
{
    if s.len() > 7 {
        if !adts_sync(s) {
            law_aac_keeps_length(s.skip(1), key, iv);
        } else if adts_header_len(s) <= adts_frame_len(s) <= s.len() {
            law_aac_keeps_length(s.skip(adts_frame_len(s)), key, iv);
        }
    }
}

/// Decrypting a PES packet keeps its length and, where it is all there, its header.
pub proof fn law_pes_packet_keeps_its_header(
    packet: Piece,
    video: bool,
    key: Seq<u8>,
    iv: Seq<u8>,
)
    requires
        header_fits(packet),
    ensures
        pes_plain(packet, video, key, iv).len() == packet.bytes.len(),
        pes_plain(packet, video, key, iv).take(samples_start(packet.bytes, packet.starts))
            == packet.bytes.take(samples_start(packet.bytes, packet.starts)),
{
    let start = samples_start(packet.bytes, packet.starts);
    law_h264_keeps_length(packet.bytes.skip(start), key, iv);
    law_aac_keeps_length(packet.bytes.skip(start), key, iv);
    assert(pes_plain(packet, video, key, iv).take(start) =~= packet.bytes.take(start));
}

/// The start code, the type byte and the 32 bytes after it are clear in every NAL
/// unit, and only units of the two slice types change at all.
pub proof fn law_nal_lead_is_clear(unit: Seq<u8>, code: int, key: Seq<u8>, iv: Seq<u8>)
    requires
        0 <= code < unit.len(),
    ensures
        forall|i: int|
            0 <= i < unit.len() && i < code + 1 + 32 ==> #[trigger] nal_plain(
                unit,
                code,
                key,
                iv,
            )[i] == unit[i],
        !encrypted_nal(unit[code]) ==> nal_plain(unit, code, key, iv) == unit,
{
}

/// A PID that was found has 13 bits, so that it is never taken for [`NO_PID`].
pub proof fn law_found_pids_have_13_bits(d: Seq<u8>)
    ensures
        av_pids(d).0 == NO_PID || av_pids(d).0 < 0x2000,
        av_pids(d).1 == NO_PID || av_pids(d).1 < 0x2000,
{
    if let Some(pmt) = program_from(d, 0) {
        lemma_streams_have_pids(d, 0, pmt);
        lemma_first_is_listed(streams_from(d, 0, pmt));
    }
}

proof fn lemma_streams_have_pids(d: Seq<u8>, i: int, pmt: u16)
    ensures
        forall|k: int|
            0 <= k < streams_from(d, i, pmt).len() ==> (#[trigger] streams_from(
                d,
                i,
                pmt,
            )[k]).1 < 0x2000,
    decreases left(d, i),
{
    if i + 188 <= d.len() {
        if !packet_at(d, i) {
            lemma_streams_have_pids(d, i + 1, pmt);
            assert(streams_from(d, i, pmt) == streams_from(d, i + 1, pmt));
        } else {
            let sec = section_start(d, i);
            let here = streams_in(d, i, pmt);
            lemma_entries_have_pids(
                d,
                sec + 12 + number12(d[sec + 10], d[sec + 11]),
                section_end(d, sec),
            );
            lemma_streams_have_pids(d, i + 188, pmt);
            let all = streams_from(d, i, pmt);
            assert forall|k: int| 0 <= k < all.len() implies (#[trigger] all[k]).1 < 0x2000 by {
                if k < here.len() {
                    assert(all[k] == here[k]);
                } else {
                    assert(all[k] == streams_from(d, i + 188, pmt)[k - here.len()]);
                }
            }
        }
    }
}

proof fn lemma_first_is_listed(streams: Seq<(u8, u16)>)
    requires
        forall|k: int| 0 <= k < streams.len() ==> (#[trigger] streams[k]).1 < 0x2000,
    ensures
        first_video(streams) == NO_PID || first_video(streams) < 0x2000,
        first_audio(streams) == NO_PID || first_audio(streams) < 0x2000,
    decreases streams.len(),
{
    if streams.len() > 0 {
        lemma_first_is_listed(streams.skip(1));
    }
}

/// Whether byte `j` lies in a payload on one of two PIDs, in a packet from `i` on.
pub open spec fn in_payload(d: Seq<u8>, i: int, pids: (u16, u16), j: int) -> bool
    decreases left(d, i),
{
    if i + 188 > d.len() {
        false
    } else if !packet_at(d, i) {
        in_payload(d, i + 1, pids, j)
    } else {
        ||| (carries(d, i, pids.0) || carries(d, i, pids.1)) && payload_start(d, i) <= j < i + 188
        ||| in_payload(d, i + 188, pids, j)
    }
}

/// Whether two streams have enough bytes for the payloads from `i` on.
spec fn enough(d: Seq<u8>, i: int, pids: (u16, u16), video: Seq<u8>, audio: Seq<u8>) -> bool {
    &&& video.len() >= joined_bytes(payloads_from(d, i, pids.0)).len()
    &&& audio.len() >= joined_bytes(payloads_from(d, i, pids.1)).len()
}

/// What is left of two streams after the packet at `i`.
spec fn after_packet(
    d: Seq<u8>,
    i: int,
    pids: (u16, u16),
    video: Seq<u8>,
    audio: Seq<u8>,
) -> (Seq<u8>, Seq<u8>) {
    let n = i + 188 - payload_start(d, i);
    if carries(d, i, pids.0) {
        (video.skip(n), audio)
    } else if carries(d, i, pids.1) {
        (video, audio.skip(n))
    } else {
        (video, audio)
    }
}

proof fn lemma_still_enough(
    d: Seq<u8>,
    i: int,
    pids: (u16, u16),
    video: Seq<u8>,
    audio: Seq<u8>,
)
    requires
        0 <= i,
        packet_at(d, i),
        enough(d, i, pids, video, audio),
    ensures
        carries(d, i, pids.0) ==> video.len() >= i + 188 - payload_start(d, i),
        carries(d, i, pids.1) ==> audio.len() >= i + 188 - payload_start(d, i),
        enough(
            d,
            i + 188,
            pids,
            after_packet(d, i, pids, video, audio).0,
            after_packet(d, i, pids, video, audio).1,
        ),
{
    lemma_joined_first(payload_at(d, i), payloads_from(d, i + 188, pids.0));
    lemma_joined_first(payload_at(d, i), payloads_from(d, i + 188, pids.1));
}

proof fn lemma_refilled(
    d: Seq<u8>,
    i: int,
    pids: (u16, u16),
    video: Seq<u8>,
    audio: Seq<u8>,
    j: int,
)
    requires
        0 <= i <= d.len(),
        enough(d, i, pids, video, audio),
    ensures
        refilled(d, i, pids, video, audio).len() == d.len() - i,
        i <= j < d.len() && !in_payload(d, i, pids, j) ==> refilled(
            d,
            i,
            pids,
            video,
            audio,
        )[j - i] == d[j],
    decreases left(d, i),
{
    if i + 188 <= d.len() {
        if !packet_at(d, i) {
            lemma_refilled(d, i + 1, pids, video, audio, j);
        } else {
            let (v, a) = after_packet(d, i, pids, video, audio);
            lemma_still_enough(d, i, pids, video, audio);
            lemma_refilled(d, i + 188, pids, v, a, j);
        }
    }
}

proof fn lemma_streams_are_enough(d: Seq<u8>, key: Seq<u8>, iv: Seq<u8>)
    requires
        headers_fit(d),
    ensures
        ({
            let pids = av_pids(d);
            let video = stream_plain(stream_packets(d, pids.0), true, key, iv);
            let audio = stream_plain(stream_packets(d, pids.1), false, key, iv);
            &&& video.len() == joined_bytes(payloads_from(d, 0, pids.0)).len()
            &&& audio.len() == joined_bytes(payloads_from(d, 0, pids.1)).len()
        }),
{
    let pids = av_pids(d);
    lemma_stream_plain_len(stream_packets(d, pids.0), true, key, iv);
    lemma_stream_plain_len(stream_packets(d, pids.1), false, key, iv);
    law_reassembling_keeps_the_bytes(payloads_from(d, 0, pids.0));
    law_reassembling_keeps_the_bytes(payloads_from(d, 0, pids.1));
}

/// Decrypting a segment keeps its length, and every byte that does not lie in a payload
/// of the video or the audio stream: the packet headers, the packets on other PIDs and
/// the bytes between packets.
pub proof fn law_only_payloads_change(d: Seq<u8>, key: Seq<u8>, iv: Seq<u8>, j: int)
    requires
        headers_fit(d),
    ensures
        segment_plain(d, key, iv).len() == d.len(),
        0 <= j < d.len() && !in_payload(d, 0, av_pids(d), j) ==> segment_plain(d, key, iv)[j]
            == d[j],
{
    let pids = av_pids(d);
    lemma_streams_are_enough(d, key, iv);
    lemma_refilled(
        d,
        0,
        pids,
        stream_plain(stream_packets(d, pids.0), true, key, iv),
        stream_plain(stream_packets(d, pids.1), false, key, iv),
        j,
    );
}

proof fn lemma_no_payloads(d: Seq<u8>, i: int)
    requires
        0 <= i,
    ensures
        payloads_from(d, i, NO_PID).len() == 0,
    decreases left(d, i),
{
    if i + 188 <= d.len() {
        if !packet_at(d, i) {
            lemma_no_payloads(d, i + 1);
        } else {
            lemma_no_payloads(d, i + 188);
        }
    }
}

proof fn lemma_nothing_refilled(d: Seq<u8>, i: int, video: Seq<u8>, audio: Seq<u8>)
    requires
        0 <= i <= d.len(),
    ensures
        refilled(d, i, (NO_PID, NO_PID), video, audio) == d.skip(i),
    decreases left(d, i),
{
    if i + 188 <= d.len() {
        if !packet_at(d, i) {
            lemma_nothing_refilled(d, i + 1, video, audio);
            assert(d.skip(i) =~= d.subrange(i, i + 1) + d.skip(i + 1));
        } else {
            lemma_nothing_refilled(d, i + 188, video, audio);
            assert(d.skip(i) =~= d.subrange(i, i + 188) + d.skip(i + 188));
        }
    }
}

/// A segment in which neither a video nor an audio stream is found is kept as it is.
pub proof fn law_segment_without_streams_is_kept(d: Seq<u8>, key: Seq<u8>, iv: Seq<u8>)
    requires
        av_pids(d) == (NO_PID, NO_PID),
    ensures
        headers_fit(d),
        segment_plain(d, key, iv) == d,
{
    lemma_no_payloads(d, 0);
    lemma_nothing_refilled(
        d,
        0,
        stream_plain(stream_packets(d, NO_PID), true, key, iv),
        stream_plain(stream_packets(d, NO_PID), false, key, iv),
    );
    assert(d.skip(0) =~= d);
}

/// Whether two lists of pieces differ in nothing but the values of their bytes.
pub open spec fn same_shape(a: Seq<Piece>, b: Seq<Piece>) -> bool {
    &&& a.len() == b.len()
    &&& forall|k: int|
        #![trigger a[k]]
        #![trigger b[k]]
        0 <= k < a.len() ==> a[k].starts == b[k].starts && a[k].bytes.len() == b[k].bytes.len()
}

proof fn lemma_reassembled_shape(a: Seq<Piece>, b: Seq<Piece>)
    requires
        same_shape(a, b),
    ensures
        same_shape(pes_packets(a), pes_packets(b)),
    decreases a.len(),
{
    if a.len() > 0 {
        assert(same_shape(a.drop_last(), b.drop_last())) by {
            assert forall|k: int| 0 <= k < a.len() - 1 implies a.drop_last()[k].starts
                == b.drop_last()[k].starts && a.drop_last()[k].bytes.len()
                == b.drop_last()[k].bytes.len() by {
                assert(a.drop_last()[k] == a[k]);
            }
        }
        lemma_reassembled_shape(a.drop_last(), b.drop_last());
        assert(a[a.len() - 1].starts == b[b.len() - 1].starts);
        let pa = pes_packets(a.drop_last());
        let pb = pes_packets(b.drop_last());
        if pa.len() > 0 {
            assert(pa[pa.len() - 1].starts == pb[pb.len() - 1].starts);
        }
    }
}

/// Lists of pieces of the same shape with the same bytes are the same.
proof fn lemma_same_pieces(a: Seq<Piece>, b: Seq<Piece>)
    requires
        same_shape(a, b),
        joined_bytes(a) == joined_bytes(b),
    ensures
        a == b,
    decreases a.len(),
{
    if a.len() > 0 {
        let a0 = a.drop_last();
        let b0 = b.drop_last();
        assert(same_shape(a0, b0)) by {
            assert forall|k: int| 0 <= k < a0.len() implies a0[k].starts == b0[k].starts
                && a0[k].bytes.len() == b0[k].bytes.len() by {
                assert(a0[k] == a[k]);
            }
        }
        assert(a[a.len() - 1].bytes.len() == b[a.len() - 1].bytes.len());
        assert(a.last().bytes.len() == b.last().bytes.len());
        let all = joined_bytes(a);
        assert(all.len() == joined_bytes(a0).len() + a.last().bytes.len());
        assert(all.len() == joined_bytes(b0).len() + b.last().bytes.len());
        let n = joined_bytes(a0).len() as int;
        assert(joined_bytes(b0).len() == n);
        assert(joined_bytes(a0) =~= all.take(n));
        assert(joined_bytes(b0) =~= all.take(n));
        assert(a.last().bytes =~= all.skip(n));
        assert(b.last().bytes =~= all.skip(n));
        lemma_same_pieces(a0, b0);
        assert(a =~= a0.push(a.last()));
        assert(b =~= b0.push(b.last()));
    } else {
        assert(a =~= b);
    }
}

/// What is taken out of a segment that was refilled are the bytes that were put in.
proof fn lemma_refilled_payloads(
    d: Seq<u8>,
    i: int,
    pids: (u16, u16),
    video: Seq<u8>,
    audio: Seq<u8>,
    out: Seq<u8>,
)
    requires
        0 <= i <= d.len(),
        enough(d, i, pids, video, audio),
        out.len() == d.len(),
        out.skip(i) == refilled(d, i, pids, video, audio),
    ensures
        same_shape(payloads_from(out, i, pids.0), payloads_from(d, i, pids.0)),
        joined_bytes(payloads_from(out, i, pids.0)) == video.take(
            joined_bytes(payloads_from(d, i, pids.0)).len() as int,
        ),
        pids.0 != pids.1 ==> {
            &&& same_shape(payloads_from(out, i, pids.1), payloads_from(d, i, pids.1))
            &&& joined_bytes(payloads_from(out, i, pids.1)) == audio.take(
                joined_bytes(payloads_from(d, i, pids.1)).len() as int,
            )
        },
    decreases left(d, i),
{
    let here = refilled(d, i, pids, video, audio);
    if i + 188 > d.len() {
        assert(video.take(0) =~= seq![]);
        assert(audio.take(0) =~= seq![]);
    } else if !packet_at(d, i) {
        assert(here[0] == d[i]);
        assert(out[i] == out.skip(i)[0]);
        lemma_refilled(d, i + 1, pids, video, audio, i);
        assert(out.skip(i + 1) =~= out.skip(i).skip(1));
        assert(here.skip(1) =~= refilled(d, i + 1, pids, video, audio));
        lemma_refilled_payloads(d, i + 1, pids, video, audio, out);
    } else {
        let start = payload_start(d, i);
        let n = i + 188 - start;
        let (v, a) = after_packet(d, i, pids, video, audio);
        let rest = refilled(d, i + 188, pids, v, a);
        lemma_still_enough(d, i, pids, video, audio);
        lemma_refilled(d, i + 188, pids, v, a, i);
        let head = if carries(d, i, pids.0) || carries(d, i, pids.1) {
            start
        } else {
            i + 188
        };
        assert(4 <= start - i);
        assert forall|k: int| i <= k < head implies #[trigger] out[k] == d[k] by {
            assert(out[k] == out.skip(i)[k - i]);
            assert(here[k - i] == d[k]);
        }
        assert(out.skip(i + 188) =~= out.skip(i).skip(188));
        assert(here.skip(188) =~= rest);
        lemma_refilled_payloads(d, i + 188, pids, v, a, out);
        assert(out[i] == d[i] && out[i + 1] == d[i + 1] && out[i + 2] == d[i + 2] && out[i + 3]
            == d[i + 3]);
        assert(d[i + 3] / 32 % 2 == 1 ==> out[i + 4] == d[i + 4]);
        assert(payload_start(out, i) == start);
        let was = payload_at(d, i);
        let now = payload_at(out, i);
        lemma_joined_first(was, payloads_from(d, i + 188, pids.0));
        lemma_joined_first(was, payloads_from(d, i + 188, pids.1));
        lemma_joined_first(now, payloads_from(out, i + 188, pids.0));
        lemma_joined_first(now, payloads_from(out, i + 188, pids.1));
        if carries(d, i, pids.0) {
            assert(now.bytes =~= video.take(n)) by {
                assert forall|k: int| 0 <= k < n implies #[trigger] now.bytes[k] == video[k] by {
                    assert(now.bytes[k] == out.skip(i)[start - i + k]);
                    assert(here[start - i + k] == video[k]);
                }
            }
            let m = joined_bytes(payloads_from(d, i + 188, pids.0)).len() as int;
            assert(video.take(n) + video.skip(n).take(m) =~= video.take(n + m));
        } else if carries(d, i, pids.1) {
            assert(now.bytes =~= audio.take(n)) by {
                assert forall|k: int| 0 <= k < n implies #[trigger] now.bytes[k] == audio[k] by {
                    assert(now.bytes[k] == out.skip(i)[start - i + k]);
                    assert(here[start - i + k] == audio[k]);
                }
            }
            let m = joined_bytes(payloads_from(d, i + 188, pids.1)).len() as int;
            assert(audio.take(n) + audio.skip(n).take(m) =~= audio.take(n + m));
        }
    }
}

/// `packets`, each decrypted as a whole.
pub open spec fn packets_plain(packets: Seq<Piece>, video: bool, key: Seq<u8>, iv: Seq<u8>) -> Seq<
    Piece,
> {
    packets.map_values(
        |p: Piece| Piece { starts: p.starts, bytes: pes_plain(p, video, key, iv) },
    )
}

proof fn lemma_packets_plain(packets: Seq<Piece>, video: bool, key: Seq<u8>, iv: Seq<u8>)
    requires
        all_headers_fit(packets),
    ensures
        same_shape(packets_plain(packets, video, key, iv), packets),
        joined_bytes(packets_plain(packets, video, key, iv)) == stream_plain(
            packets,
            video,
            key,
            iv,
        ),
    decreases packets.len(),
{
    let plain = packets_plain(packets, video, key, iv);
    assert forall|k: int| 0 <= k < packets.len() implies plain[k].starts == packets[k].starts
        && plain[k].bytes.len() == packets[k].bytes.len() by {
        assert(header_fits(packets[k]));
        law_pes_packet_keeps_its_header(packets[k], video, key, iv);
    }
    if packets.len() > 0 {
        let before = packets.drop_last();
        assert forall|k: int| 0 <= k < before.len() implies header_fits(#[trigger] before[k]) by {
            assert(before[k] == packets[k]);
        }
        lemma_packets_plain(before, video, key, iv);
        assert(plain.drop_last() =~= packets_plain(before, video, key, iv));
    }
}

/// The PES packets of a decrypted segment are those of the segment, each decrypted as a
/// whole, however many TS packets it is spread over.
pub proof fn law_pes_packets_are_decrypted_as_a_whole(d: Seq<u8>, key: Seq<u8>, iv: Seq<u8>)
    requires
        headers_fit(d),
    ensures
        stream_packets(segment_plain(d, key, iv), av_pids(d).0) == packets_plain(
            stream_packets(d, av_pids(d).0),
            true,
            key,
            iv,
        ),
        av_pids(d).0 != av_pids(d).1 ==> stream_packets(segment_plain(d, key, iv), av_pids(d).1)
            == packets_plain(stream_packets(d, av_pids(d).1), false, key, iv),
{
    let pids = av_pids(d);
    let out = segment_plain(d, key, iv);
    let video = stream_plain(stream_packets(d, pids.0), true, key, iv);
    let audio = stream_plain(stream_packets(d, pids.1), false, key, iv);
    lemma_streams_are_enough(d, key, iv);
    lemma_refilled(d, 0, pids, video, audio, 0);
    assert(out.skip(0) =~= out);
    lemma_refilled_payloads(d, 0, pids, video, audio, out);
    lemma_decrypted_stream(d, out, pids.0, true, key, iv);
    if pids.0 != pids.1 {
        lemma_decrypted_stream(d, out, pids.1, false, key, iv);
    }
}

proof fn lemma_decrypted_stream(
    d: Seq<u8>,
    out: Seq<u8>,
    pid: u16,
    video: bool,
    key: Seq<u8>,
    iv: Seq<u8>,
)
    requires
        all_headers_fit(stream_packets(d, pid)),
        same_shape(payloads_from(out, 0, pid), payloads_from(d, 0, pid)),
        joined_bytes(payloads_from(out, 0, pid)) == stream_plain(
            stream_packets(d, pid),
            video,
            key,
            iv,
        ).take(joined_bytes(payloads_from(d, 0, pid)).len() as int),
    ensures
        stream_packets(out, pid) == packets_plain(stream_packets(d, pid), video, key, iv),
{
    let packets = stream_packets(d, pid);
    let stream = stream_plain(packets, video, key, iv);
    lemma_reassembled_shape(payloads_from(out, 0, pid), payloads_from(d, 0, pid));
    lemma_packets_plain(packets, video, key, iv);
    lemma_stream_plain_len(packets, video, key, iv);
    law_reassembling_keeps_the_bytes(payloads_from(out, 0, pid));
    law_reassembling_keeps_the_bytes(payloads_from(d, 0, pid));
    assert(stream.take(stream.len() as int) =~= stream);
    let plain = packets_plain(packets, video, key, iv);
    let now = stream_packets(out, pid);
    assert(same_shape(now, plain)) by {
        assert forall|k: int| 0 <= k < now.len() implies now[k].starts == plain[k].starts
            && now[k].bytes.len() == plain[k].bytes.len() by {
            assert(packets[k].starts == now[k].starts);
        }
    }
    lemma_same_pieces(now, plain);
}

// ------------------------------------------------------- laws on H.264 streams

/// Whether the bytes `00 00 01` stand at `i`.
pub open spec fn marks_unit(s: Seq<u8>, i: int) -> bool {
    0 <= i && i + 2 < s.len() && s[i] == 0 && s[i + 1] == 0 && s[i + 2] == 1
}

/// Whether the bytes `00 00 01` stand nowhere in `s`.
pub open spec fn has_no_mark(s: Seq<u8>) -> bool {
    forall|i: int| !#[trigger] marks_unit(s, i)
}

/// Whether `s` begins with `00 00 01` or `00 00 00 01`.
pub open spec fn opens_unit(s: Seq<u8>) -> bool {
    marks_unit(s, 0) || (s.len() > 0 && s[0] == 0 && marks_unit(s, 1))
}

proof fn lemma_start_code_is(s: Seq<u8>, i: int)
    requires
        0 <= i <= s.len(),
    ensures
        start_code(s.skip(i)) > 0 <==> marks_unit(s, i) || (i < s.len() && s[i] == 0 && marks_unit(
            s,
            i + 1,
        )),
        start_code(s.skip(i)) > 0 ==> start_code(s.skip(i)) == if marks_unit(s, i) {
            3int
        } else {
            4int
        },
{
}

/// A stream in which the bytes `00 00 01` stand nowhere is kept as it is.
pub proof fn law_streams_without_units_stay(s: Seq<u8>, key: Seq<u8>, iv: Seq<u8>)
    requires
        has_no_mark(s),
    ensures
        h264_plain(s, key, iv) == s,
    decreases s.len(),
{
    if s.len() > 4 {
        assert(s.skip(0) =~= s);
        lemma_start_code_is(s, 0);
        let rest = s.skip(1);
        assert forall|i: int| !#[trigger] marks_unit(rest, i) by {
            assert(!marks_unit(s, i + 1));
        }
        law_streams_without_units_stay(rest, key, iv);
        assert(s =~= s.take(1) + rest);
    }
}

/// No start code begins at `from` or later.
proof fn lemma_no_more_units(s: Seq<u8>, from: int)
    requires
        0 <= from <= s.len(),
        forall|i: int| i >= from ==> !#[trigger] marks_unit(s, i),
    ensures
        nal_end(s, from) == s.len(),
    decreases s.len() - from,
{
    if from + 3 <= s.len() {
        lemma_start_code_is(s, from);
        lemma_no_more_units(s, from + 1);
    }
}

/// A stream with one unit: the bytes before its start code stay, and so does the unit, but
/// for what `nal_plain` does with it.
proof fn lemma_one_unit(p: Seq<u8>, unit: Seq<u8>, key: Seq<u8>, iv: Seq<u8>)
    requires
        has_no_mark(p),
        unit.len() >= 4,
        marks_unit(unit, 0),
        forall|i: int| i > 0 ==> !#[trigger] marks_unit(unit, i),
    ensures
        h264_plain(p + unit, key, iv) == p + nal_plain(unit, 3, key, iv),
    decreases p.len(),
{
    let s = p + unit;
    assert forall|i: int| #[trigger] marks_unit(s, i) implies i == p.len() by {
        if i + 2 < p.len() {
            assert(!marks_unit(p, i));
        } else if i > p.len() {
            assert(!marks_unit(unit, i - p.len()));
        }
    }
    assert(marks_unit(s, p.len() as int));
    assert(s.skip(0) =~= s);
    lemma_start_code_is(s, 0);
    if s.len() <= 4 {
        assert(p =~= seq![]);
        assert(nal_plain(unit, 3, key, iv) == unit);
    } else if p.len() == 0 {
        assert(s =~= unit);
        lemma_no_more_units(s, 4);
        assert(s.take(s.len() as int) =~= s);
        assert(h264_plain(s.skip(s.len() as int), key, iv) =~= seq![]);
        assert(h264_plain(s, key, iv) =~= nal_plain(unit, 3, key, iv));
        assert(p + nal_plain(unit, 3, key, iv) =~= nal_plain(unit, 3, key, iv));
    } else if p.len() == 1 && p[0] == 0 {
        lemma_no_more_units(s, 5);
        assert(s.take(s.len() as int) =~= s);
        assert(h264_plain(s.skip(s.len() as int), key, iv) =~= seq![]);
        assert(h264_plain(s, key, iv) =~= nal_plain(s, 4, key, iv));
        if encrypted_nal(unit[3]) && 3 + 1 + 32 < unit.len() {
            assert(s.subrange(37, s.len() as int) =~= unit.subrange(36, unit.len() as int));
            assert(nal_plain(s, 4, key, iv) =~= p + nal_plain(unit, 3, key, iv));
        } else {
            assert(nal_plain(s, 4, key, iv) == s);
        }
    } else {
        assert(start_code(s) == 0);
        let rest = p.skip(1);
        assert forall|i: int| !#[trigger] marks_unit(rest, i) by {
            assert(!marks_unit(p, i + 1));
        }
        lemma_one_unit(rest, unit, key, iv);
        assert(s.skip(1) =~= rest + unit);
        assert(s.take(1) + (rest + nal_plain(unit, 3, key, iv)) =~= p + nal_plain(
            unit,
            3,
            key,
            iv,
        ));
    }
}

/// In a unit of a slice (type 1 or 5), opened by `00 00 01` with any number of zeros before
/// it, what comes after the type byte and 32 more bytes is decrypted, and all else stays.
pub proof fn law_slices_are_decrypted(
    p: Seq<u8>,
    t: u8,
    lead: Seq<u8>,
    c: Seq<u8>,
    key: Seq<u8>,
    iv: Seq<u8>,
)
    requires
        has_no_mark(p),
        t % 32 == 1 || t % 32 == 5,
        lead.len() == 32,
        has_no_mark(seq![t] + lead + c),
    ensures
        h264_plain(p + seq![0u8, 0, 1, t] + lead + c, key, iv) == p + seq![0u8, 0, 1, t] + lead
            + cbc_plain(key, iv, c),
{
    let unit = seq![0u8, 0, 1, t] + lead + c;
    let tail = seq![t] + lead + c;
    assert forall|i: int| i > 0 implies !#[trigger] marks_unit(unit, i) by {
        if i >= 3 {
            assert(!marks_unit(tail, i - 3));
        }
    }
    assert(marks_unit(unit, 0));
    lemma_one_unit(p, unit, key, iv);
    assert(p + seq![0u8, 0, 1, t] + lead + c =~= p + unit);
    assert(unit.subrange(36, unit.len() as int) =~= c);
    assert(unit.take(36) =~= seq![0u8, 0, 1, t] + lead);
    assert(cbc_plain(key, iv, seq![]) =~= seq![]);
    assert(p + nal_plain(unit, 3, key, iv) =~= p + seq![0u8, 0, 1, t] + lead + cbc_plain(
        key,
        iv,
        c,
    ));
}

/// A unit of another type stays as it is, and so does one that is not longer than its lead.
pub proof fn law_other_units_stay(p: Seq<u8>, t: u8, body: Seq<u8>, key: Seq<u8>, iv: Seq<u8>)
    requires
        has_no_mark(p),
        (t % 32 != 1 && t % 32 != 5) || body.len() <= 32,
        has_no_mark(seq![t] + body),
    ensures
        h264_plain(p + seq![0u8, 0, 1, t] + body, key, iv) == p + seq![0u8, 0, 1, t] + body,
{
    let unit = seq![0u8, 0, 1, t] + body;
    let tail = seq![t] + body;
    assert forall|i: int| i > 0 implies !#[trigger] marks_unit(unit, i) by {
        if i >= 3 {
            assert(!marks_unit(tail, i - 3));
        }
    }
    assert(marks_unit(unit, 0));
    lemma_one_unit(p, unit, key, iv);
    assert(p + seq![0u8, 0, 1, t] + body =~= p + unit);
}

/// The end of a unit does not move where another stream, which opens with a unit, follows.
proof fn lemma_nal_end_before(a: Seq<u8>, b: Seq<u8>, from: int)
    requires
        0 <= from <= a.len(),
        stand_apart(a, b),
    ensures
        nal_end(a + b, from) == nal_end(a, from),
    decreases a.len() - from,
{
    let s = a + b;
    lemma_start_code_is(s, from);
    lemma_start_code_is(a, from);
    if from == a.len() {
        assert(marks_unit(b, 0) ==> marks_unit(s, from));
        assert(marks_unit(b, 1) ==> marks_unit(s, from + 1));
    } else {
        lemma_same_marks(a, b, from);
        lemma_same_marks(a, b, from + 1);
        lemma_nal_end_before(a, b, from + 1);
    }
}

proof fn lemma_same_marks(a: Seq<u8>, b: Seq<u8>, i: int)
    requires
        0 <= i <= a.len(),
        a.len() > 0,
        stand_apart(a, b),
    ensures
        i < a.len() ==> marks_unit(a + b, i) == marks_unit(a, i),
        i < a.len() && a[i] == 0 ==> marks_unit(a + b, i + 1) == marks_unit(a, i + 1),
{
}

/// Whether `b` opens with a start code that does not begin in `a` already: one with three
/// zeros does not, nor does one with two of them behind another byte than 0.
pub open spec fn stand_apart(a: Seq<u8>, b: Seq<u8>) -> bool {
    opens_unit(b) && (a.len() == 0 || a.last() != 0 || !marks_unit(b, 0))
}

/// A unit ends where the next start code, `00 00 01` or `00 00 00 01`, begins: what stands
/// before it and what follows from there on are decrypted each for itself. What stands
/// before it does not end between a start code and its type byte.
pub proof fn law_units_end_at_the_next_start_code(
    a: Seq<u8>,
    b: Seq<u8>,
    key: Seq<u8>,
    iv: Seq<u8>,
)
    requires
        stand_apart(a, b),
        !marks_unit(a, a.len() - 3),
    ensures
        h264_plain(a + b, key, iv) == h264_plain(a, key, iv) + h264_plain(b, key, iv),
    decreases a.len(),
{
    let s = a + b;
    let after = h264_plain(b, key, iv);
    if a.len() == 0 {
        assert(s =~= b);
        assert(h264_plain(a, key, iv) + after =~= after);
    } else if s.len() <= 4 {
        assert(b.len() <= 4);
    } else {
        lemma_same_step(a, b);
        let code = start_code(a);
        let end = step_end(a);
        let rest = a.skip(end);
        let step = if code == 0 {
            a.take(1)
        } else {
            nal_plain(a.take(end), code, key, iv)
        };
        assert(h264_plain(s, key, iv) == step + h264_plain(rest + b, key, iv));
        assert(marks_unit(rest, rest.len() - 3) ==> marks_unit(a, a.len() - 3));
        assert(rest.len() > 0 ==> rest.last() == a.last());
        law_units_end_at_the_next_start_code(rest, b, key, iv);
        assert(h264_plain(a, key, iv) == step + h264_plain(rest, key, iv)) by {
            if a.len() <= 4 {
                lemma_short_step(a, code, end, key, iv);
            }
        }
        lemma_joined(step, h264_plain(rest, key, iv), after);
    }
}

proof fn lemma_joined(a: Seq<u8>, b: Seq<u8>, c: Seq<u8>)
    ensures
        a + (b + c) == (a + b) + c,
{
    assert(a + (b + c) =~= (a + b) + c);
}

/// Where the first step of a walk over `s` ends.
spec fn step_end(s: Seq<u8>) -> int {
    if start_code(s) == 0 {
        1
    } else {
        nal_end(s, start_code(s) + 1)
    }
}

proof fn lemma_same_step(a: Seq<u8>, b: Seq<u8>)
    requires
        a.len() > 0,
        stand_apart(a, b),
        !marks_unit(a, a.len() - 3),
    ensures
        start_code(a + b) == start_code(a),
        start_code(a) >= 0,
        step_end(a + b) == step_end(a),
        1 <= step_end(a) <= a.len(),
        start_code(a) > 0 ==> start_code(a) < step_end(a),
        (a + b).take(step_end(a)) == a.take(step_end(a)),
        (a + b).skip(step_end(a)) == a.skip(step_end(a)) + b,
{
    let s = a + b;
    assert(s.skip(0) =~= s);
    assert(a.skip(0) =~= a);
    lemma_start_code_is(s, 0);
    lemma_start_code_is(a, 0);
    lemma_same_marks(a, b, 0);
    let code = start_code(a);
    if code > 0 {
        assert(a.len() >= code + 1);
        lemma_nal_end_before(a, b, code + 1);
        lemma_nal_end_bounds(a, code + 1);
    }
    assert(s.take(step_end(a)) =~= a.take(step_end(a)));
    assert(s.skip(step_end(a)) =~= a.skip(step_end(a)) + b);
}

proof fn lemma_short_step(a: Seq<u8>, code: int, end: int, key: Seq<u8>, iv: Seq<u8>)
    requires
        1 <= end <= a.len() <= 4,
        0 <= code,
        code > 0 ==> code < end,
    ensures
        h264_plain(a, key, iv) == (if code == 0 {
            a.take(end)
        } else {
            nal_plain(a.take(end), code, key, iv)
        }) + h264_plain(a.skip(end), key, iv),
{
    assert(a =~= a.take(end) + a.skip(end));
}

// ---------------------------------------------------------- laws on AAC streams

/// Whether a header of seven bytes, or of nine where a checksum is announced, opens a frame
/// of `len` bytes in all.
pub open spec fn opens_frame(h: Seq<u8>, len: int) -> bool {
    &&& h.len() == 7 || h.len() == 9
    &&& h[0] == 0xFF
    &&& h[1] / 16 == 15
    &&& h[1] % 2 == 1 <==> h.len() == 7
    &&& len == (h[3] % 4) * 2048 + h[4] * 8 + h[5] / 32
}

/// In every frame of an AAC stream the header stays and the rest is decrypted, each frame
/// with the initialisation vector.
pub proof fn law_frames_are_decrypted(
    h: Seq<u8>,
    body: Seq<u8>,
    rest: Seq<u8>,
    key: Seq<u8>,
    iv: Seq<u8>,
)
    requires
        opens_frame(h, (h.len() + body.len()) as int),
    ensures
        aac_plain(h + body + rest, key, iv) == h + cbc_plain(key, iv, body) + aac_plain(
            rest,
            key,
            iv,
        ),
{
    let s = h + body + rest;
    let n = (h.len() + body.len()) as int;
    if s.len() <= 7 {
        assert(cbc_plain(key, iv, body) =~= body);
        assert(s =~= h + cbc_plain(key, iv, body) + aac_plain(rest, key, iv));
    } else {
        assert(s.take(n) =~= h + body);
        assert(s.skip(n) =~= rest);
        assert((h + body).subrange(h.len() as int, n) =~= body);
        assert(range_plain(h + body, h.len() as int, n, key, iv) =~= h + cbc_plain(key, iv, body));
    }
}

/// Bytes at which no frame opens stay as they are, and the search goes on behind them.
pub proof fn law_bytes_between_frames_stay(p: Seq<u8>, rest: Seq<u8>, key: Seq<u8>, iv: Seq<u8>)
    requires
        forall|i: int|
            0 <= i < p.len() && i + 1 < p.len() + rest.len() ==> !(#[trigger] (p + rest)[i] == 0xFF
                && (p + rest)[i + 1] / 16 == 15),
    ensures
        aac_plain(p + rest, key, iv) == p + aac_plain(rest, key, iv),
    decreases p.len(),
{
    let s = p + rest;
    if p.len() == 0 {
        assert(s =~= rest);
        assert(p + aac_plain(rest, key, iv) =~= aac_plain(rest, key, iv));
    } else if s.len() > 7 {
        assert(!(s[0] == 0xFF && s[1] / 16 == 15));
        let fewer = p.skip(1);
        assert(s.skip(1) =~= fewer + rest);
        assert forall|i: int|
            0 <= i < fewer.len() && i + 1 < fewer.len() + rest.len() implies !(#[trigger] (fewer
            + rest)[i] == 0xFF && (fewer + rest)[i + 1] / 16 == 15) by {
            assert((fewer + rest)[i] == s[i + 1]);
            assert((fewer + rest)[i + 1] == s[i + 2]);
        }
        law_bytes_between_frames_stay(fewer, rest, key, iv);
        assert(s.take(1) + (fewer + aac_plain(rest, key, iv)) =~= p + aac_plain(rest, key, iv));
    }
}

/// A frame that is not all there, or whose length is less than its header, ends the stream:
/// it stays as it is, with what follows.
pub proof fn law_broken_frames_stay(s: Seq<u8>, key: Seq<u8>, iv: Seq<u8>)
    requires
        s.len() > 7,
        s[0] == 0xFF,
        s[1] / 16 == 15,
        ({
            let len = (s[3] % 4) * 2048 + s[4] * 8 + s[5] / 32;
            len > s.len() || len < 7 || (s[1] % 2 == 0 && len < 9)
        }),
    ensures
        aac_plain(s, key, iv) == s,
{
}

// ----------------------------------------------------------- laws on PES packets

/// In a PES packet the nine fixed bytes and as many more as the ninth says stay, and what
/// follows is decrypted. A packet whose start is not there is decrypted from its first byte.
pub proof fn law_samples_follow_the_header(
    fixed: Seq<u8>,
    more: Seq<u8>,
    samples: Seq<u8>,
    key: Seq<u8>,
    iv: Seq<u8>,
)
    requires
        fixed.len() == 9,
        fixed[8] == more.len(),
    ensures
        header_fits(Piece { starts: true, bytes: fixed + more + samples }),
        pes_plain(Piece { starts: true, bytes: fixed + more + samples }, true, key, iv) == fixed
            + more + h264_plain(samples, key, iv),
        pes_plain(Piece { starts: true, bytes: fixed + more + samples }, false, key, iv) == fixed
            + more + aac_plain(samples, key, iv),
        pes_plain(Piece { starts: false, bytes: samples }, true, key, iv) == h264_plain(
            samples,
            key,
            iv,
        ),
        pes_plain(Piece { starts: false, bytes: samples }, false, key, iv) == aac_plain(
            samples,
            key,
            iv,
        ),
{
    let bytes = fixed + more + samples;
    let n = (9 + more.len()) as int;
    assert(bytes.take(n) =~= fixed + more);
    assert(bytes.skip(n) =~= samples);
    assert(samples.take(0) =~= seq![]);
    assert(samples.skip(0) =~= samples);
    assert(seq![] + h264_plain(samples, key, iv) =~= h264_plain(samples, key, iv));
    assert(seq![] + aac_plain(samples, key, iv) =~= aac_plain(samples, key, iv));
}

/// A PES packet is made up of a payload that starts one and of all that follow it up to the
/// next that does; the packets before it are not touched.
pub proof fn law_packets_go_from_start_to_start(
    before: Seq<Piece>,
    first: Piece,
    rest: Seq<Piece>,
)
    requires
        first.starts || before.len() == 0,
        forall|k: int| 0 <= k < rest.len() ==> !(#[trigger] rest[k]).starts,
    ensures
        pes_packets(before + seq![first] + rest) == pes_packets(before).push(
            Piece { starts: first.starts, bytes: first.bytes + joined_bytes(rest) },
        ),
    decreases rest.len(),
{
    let all = before + seq![first] + rest;
    if rest.len() == 0 {
        assert(all.drop_last() =~= before);
        assert(all.last() == first);
        assert(first.bytes + joined_bytes(rest) =~= first.bytes);
    } else {
        let fewer = rest.drop_last();
        assert forall|k: int| 0 <= k < fewer.len() implies !(#[trigger] fewer[k]).starts by {
            assert(fewer[k] == rest[k]);
        }
        law_packets_go_from_start_to_start(before, first, fewer);
        assert(all.drop_last() =~= before + seq![first] + fewer);
        assert(all.last() == rest.last());
        assert(!rest[rest.len() - 1].starts);
        let was = pes_packets(before + seq![first] + fewer);
        assert(was.drop_last() =~= pes_packets(before));
        assert(first.bytes + joined_bytes(fewer) + rest.last().bytes =~= first.bytes
            + joined_bytes(rest));
    }
}

// ------------------------------------------------------------ laws on TS packets

/// Where the payload of a packet of 188 bytes starts: behind four bytes, and behind the
/// adaptation field and its length where the header announces one.
pub open spec fn payload_offset(packet: Seq<u8>) -> int {
    if (packet[3] / 32) % 2 == 0 {
        4
    } else {
        5 + packet[4]
    }
}

proof fn lemma_payloads_shift(a: Seq<u8>, d: Seq<u8>, i: int, pid: u16)
    requires
        0 <= i,
    ensures
        payloads_from(a + d, a.len() + i, pid) == payloads_from(d, i, pid),
    decreases left(d, i),
{
    let s = a + d;
    let n = a.len() as int;
    if i + 188 <= d.len() {
        assert(forall|k: int| 0 <= k < 188 ==> s[n + i + k] == #[trigger] d[i + k]);
        assert(s[n + i] == d[i + 0]);
        if !packet_at(d, i) {
            lemma_payloads_shift(a, d, i + 1, pid);
        } else {
            assert(s[n + i + 1] == d[i + 1] && s[n + i + 2] == d[i + 2] && s[n + i + 3] == d[i + 3]
                && s[n + i + 4] == d[i + 4]);
            lemma_payloads_shift(a, d, i + 188, pid);
            if carries(d, i, pid) {
                assert(payload_at(s, n + i).bytes =~= payload_at(d, i).bytes);
            }
        }
    }
}

/// A packet hands its payload to the stream on its PID, in the order of the packets, and to
/// no other.
pub proof fn law_packets_give_their_payloads(packet: Seq<u8>, d: Seq<u8>, pid: u16)
    requires
        packet.len() == 188,
        packet[0] == 0x47,
    ensures
        pid == (packet[1] % 32) * 256 + packet[2] && payload_offset(packet) < 188 ==> payloads_from(
            packet + d,
            0,
            pid,
        ) == seq![
            Piece {
                starts: (packet[1] / 64) % 2 == 1,
                bytes: packet.skip(payload_offset(packet)),
            },
        ] + payloads_from(d, 0, pid),
        pid != (packet[1] % 32) * 256 + packet[2] || payload_offset(packet) >= 188
            ==> payloads_from(packet + d, 0, pid) == payloads_from(d, 0, pid),
{
    let s = packet + d;
    lemma_payloads_shift(packet, d, 0, pid);
    assert(packet_at(s, 0));
    assert(payload_start(s, 0) == payload_offset(packet));
    if carries(s, 0, pid) {
        assert(payload_at(s, 0).bytes =~= packet.skip(payload_offset(packet)));
    }
}

/// A byte that is not the first of a packet is passed over.
pub proof fn law_other_bytes_are_passed_over(b: u8, d: Seq<u8>, pid: u16)
    requires
        b != 0x47,
    ensures
        payloads_from(seq![b] + d, 0, pid) == payloads_from(d, 0, pid),
        program_from(seq![b] + d, 0) == program_from(d, 0),
        streams_from(seq![b] + d, 0, pid) == streams_from(d, 0, pid),
{
    let s = seq![b] + d;
    assert(s[0] == b);
    lemma_payloads_shift(seq![b], d, 0, pid);
    lemma_tables_shift(seq![b], d, 0, pid);
}

proof fn lemma_entries_shift(a: Seq<u8>, d: Seq<u8>, e: int, end: int)
    requires
        0 <= e,
    ensures
        first_program(a + d, a.len() + e, a.len() + end) == first_program(d, e, end),
        stream_entries(a + d, a.len() + e, a.len() + end) == stream_entries(d, e, end),
    decreases left(d, e),
{
    let s = a + d;
    let n = a.len() as int;
    if e + 4 <= end && e + 4 <= d.len() {
        assert(s[n + e] == d[e] && s[n + e + 1] == d[e + 1] && s[n + e + 2] == d[e + 2] && s[n + e
            + 3] == d[e + 3]);
        lemma_entries_shift(a, d, e + 4, end);
        if e + 5 <= end && e + 5 <= d.len() {
            assert(s[n + e + 4] == d[e + 4]);
            lemma_entries_shift(a, d, e + 5 + number12(d[e + 3], d[e + 4]), end);
        }
    }
}

proof fn lemma_tables_shift(a: Seq<u8>, d: Seq<u8>, i: int, pmt: u16)
    requires
        0 <= i,
    ensures
        program_from(a + d, a.len() + i) == program_from(d, i),
        streams_from(a + d, a.len() + i, pmt) == streams_from(d, i, pmt),
    decreases left(d, i),
{
    let s = a + d;
    let n = a.len() as int;
    if i + 188 <= d.len() {
        assert(s[n + i] == d[i]);
        if !packet_at(d, i) {
            lemma_tables_shift(a, d, i + 1, pmt);
        } else {
            lemma_tables_shift(a, d, i + 188, pmt);
            assert(s[n + i + 1] == d[i + 1] && s[n + i + 2] == d[i + 2] && s[n + i + 3] == d[i + 3]
                && s[n + i + 4] == d[i + 4]);
            let start = payload_start(d, i);
            assert(payload_start(s, n + i) == n + start);
            if start + 12 < i + 188 {
                assert(s[n + start] == d[start]);
                let sec = section_start(d, i);
                assert(section_start(s, n + i) == n + sec);
                if sec + 12 <= i + 188 {
                    assert(s[n + sec] == d[sec] && s[n + sec + 1] == d[sec + 1] && s[n + sec + 2]
                        == d[sec + 2] && s[n + sec + 10] == d[sec + 10] && s[n + sec + 11] == d[sec
                        + 11]);
                    assert(section_end(s, n + sec) == n + section_end(d, sec));
                    lemma_entries_shift(a, d, sec + 8, section_end(d, sec));
                    lemma_entries_shift(
                        a,
                        d,
                        sec + 12 + number12(d[sec + 10], d[sec + 11]),
                        section_end(d, sec),
                    );
                }
            }
        }
    }
}

/// Whether a packet of 188 bytes starts a section of table `table` on `pid`, at `sec`:
/// behind the pointer byte that opens the payload and the bytes that it tells to skip.
pub open spec fn starts_section(packet: Seq<u8>, pid: u16, table: u8, sec: int) -> bool {
    &&& packet.len() == 188
    &&& packet[0] == 0x47
    &&& (packet[1] % 32) * 256 + packet[2] == pid
    &&& (packet[1] / 64) % 2 == 1
    &&& payload_offset(packet) < 176
    &&& sec == payload_offset(packet) + 1 + packet[payload_offset(packet)]
    &&& sec <= 176
    &&& packet[sec] == table
}

/// The length of the section at `sec`, counted from behind the length field.
pub open spec fn section_len(packet: Seq<u8>, sec: int) -> int {
    (packet[sec + 1] % 16) * 256 + packet[sec + 2]
}

/// Whether the entry number `j` of four bytes, counted from `e` on, has the program number 0.
pub open spec fn is_no_program(s: Seq<u8>, e: int, j: int) -> bool {
    s[e + 4 * j] == 0 && s[e + 4 * j + 1] == 0
}

/// The program table (on PID 0) gives the PID that stands in its first entry whose program
/// number is not 0. The entries have four bytes each, from eight bytes behind the start of
/// the section to four bytes before its end.
pub proof fn law_the_first_program_counts(packet: Seq<u8>, d: Seq<u8>, sec: int, k: int)
    requires
        starts_section(packet, 0, 0x00, sec),
        0 <= k,
        sec + 8 + 4 * k + 4 <= sec + 3 + section_len(packet, sec) - 4,
        sec + 8 + 4 * k + 4 <= 188,
        !is_no_program(packet, sec + 8, k),
        forall|j: int| 0 <= j < k ==> #[trigger] is_no_program(packet, sec + 8, j),
    ensures
        program_from(packet + d, 0) == Some(
            ((packet[sec + 8 + 4 * k + 2] % 32) * 256 + packet[sec + 8 + 4 * k + 3]) as u16,
        ),
{
    let s = packet + d;
    assert(forall|i: int| 0 <= i < 188 ==> s[i] == #[trigger] packet[i]);
    assert(section_start(s, 0) == sec);
    let end = section_end(s, sec);
    assert(end == sec + 3 + section_len(packet, sec) - 4);
    assert forall|j: int| 0 <= j < k implies #[trigger] is_no_program(s, sec + 8, j) by {
        assert(is_no_program(packet, sec + 8, j));
    }
    lemma_first_program(s, sec + 8, end, k);
}

proof fn lemma_first_program(s: Seq<u8>, e: int, end: int, k: int)
    requires
        0 <= e,
        0 <= k,
        e + 4 * k + 4 <= end,
        e + 4 * k + 4 <= s.len(),
        !is_no_program(s, e, k),
        forall|j: int| 0 <= j < k ==> #[trigger] is_no_program(s, e, j),
    ensures
        first_program(s, e, end) == Some(number13(s[e + 4 * k + 2], s[e + 4 * k + 3])),
    decreases k,
{
    if k > 0 {
        assert(is_no_program(s, e, 0));
        assert forall|j: int| 0 <= j < k - 1 implies #[trigger] is_no_program(s, e + 4, j) by {
            assert(is_no_program(s, e, j + 1));
        }
        assert(e + 4 + 4 * (k - 1) == e + 4 * k);
        lemma_first_program(s, e + 4, end, k - 1);
    }
}

/// A packet that is not the start of a section on PID 0 gives no program: the search goes
/// on in the next packet.
pub proof fn law_other_packets_give_no_program(packet: Seq<u8>, d: Seq<u8>)
    requires
        packet.len() == 188,
        packet[0] == 0x47,
        (packet[1] % 32) * 256 + packet[2] != 0 || (packet[1] / 64) % 2 == 0,
    ensures
        program_from(packet + d, 0) == program_from(d, 0),
{
    lemma_tables_shift(packet, d, 0, 0);
}

/// The streams of a program are those that its table (on the PID that the program table
/// gives) lists, behind a descriptor part whose length the table tells. An entry has five
/// bytes, the type, the PID and the length of a descriptor part that follows it. What later
/// packets list comes behind that.
pub proof fn law_streams_are_listed(packet: Seq<u8>, d: Seq<u8>, pmt: u16, sec: int)
    requires
        starts_section(packet, pmt, 0x02, sec),
    ensures
        streams_from(packet + d, 0, pmt) == stream_entries(
            packet + d,
            sec + 12 + (packet[sec + 10] % 16) * 256 + packet[sec + 11],
            sec + 3 + section_len(packet, sec) - 4,
        ) + streams_from(d, 0, pmt),
{
    let s = packet + d;
    assert(forall|i: int| 0 <= i < 188 ==> s[i] == #[trigger] packet[i]);
    assert(section_start(s, 0) == sec);
    lemma_tables_shift(packet, d, 0, pmt);
}

/// The entries of a table of streams follow each other, each with its descriptor part.
pub proof fn law_stream_entries_follow_each_other(
    before: Seq<u8>,
    entry: Seq<u8>,
    info: Seq<u8>,
    d: Seq<u8>,
    end: int,
)
    requires
        entry.len() == 5,
        (entry[3] % 16) * 256 + entry[4] == info.len(),
    ensures
        before.len() + 5 <= end ==> stream_entries(
            before + entry + info + d,
            before.len() as int,
            end,
        ) == seq![(entry[0], ((entry[1] % 32) * 256 + entry[2]) as u16)] + stream_entries(
            before + entry + info + d,
            (before.len() + 5 + info.len()) as int,
            end,
        ),
        before.len() + 5 > end ==> stream_entries(
            before + entry + info + d,
            before.len() as int,
            end,
        ).len() == 0,
{
    let s = before + entry + info + d;
    let e = before.len() as int;
    assert(s[e] == entry[0] && s[e + 1] == entry[1] && s[e + 2] == entry[2] && s[e + 3] == entry[3]
        && s[e + 4] == entry[4]);
}

/// A packet on another PID, or one that does not start a section, lists no streams.
pub proof fn law_other_packets_list_no_streams(packet: Seq<u8>, d: Seq<u8>, pmt: u16)
    requires
        packet.len() == 188,
        packet[0] == 0x47,
        (packet[1] % 32) * 256 + packet[2] != pmt || (packet[1] / 64) % 2 == 0,
    ensures
        streams_from(packet + d, 0, pmt) == streams_from(d, 0, pmt),
{
    lemma_tables_shift(packet, d, 0, pmt);
    assert(seq![] + streams_from(d, 0, pmt) =~= streams_from(d, 0, pmt));
}

/// The video stream is the first one of type `1B` or `24`, the audio stream the first one of
/// type `0F` or `11`.
pub proof fn law_the_first_streams_count(d: Seq<u8>, pmt: u16, k: int)
    requires
        program_from(d, 0) == Some(pmt),
        0 <= k < streams_from(d, 0, pmt).len(),
    ensures
        ({
            let streams = streams_from(d, 0, pmt);
            let kind = streams[k].0;
            &&& (kind == 0x1B || kind == 0x24) && (forall|j: int|
                0 <= j < k ==> (#[trigger] streams[j]).0 != 0x1B && streams[j].0 != 0x24)
                ==> av_pids(d).0 == streams[k].1
            &&& (kind == 0x0F || kind == 0x11) && (forall|j: int|
                0 <= j < k ==> (#[trigger] streams[j]).0 != 0x0F && streams[j].0 != 0x11)
                ==> av_pids(d).1 == streams[k].1
        }),
{
    lemma_first_stream(streams_from(d, 0, pmt), k);
}

proof fn lemma_first_stream(streams: Seq<(u8, u16)>, k: int)
    requires
        0 <= k < streams.len(),
    ensures
        (streams[k].0 == 0x1B || streams[k].0 == 0x24) && (forall|j: int|
            0 <= j < k ==> (#[trigger] streams[j]).0 != 0x1B && streams[j].0 != 0x24)
            ==> first_video(streams) == streams[k].1,
        (streams[k].0 == 0x0F || streams[k].0 == 0x11) && (forall|j: int|
            0 <= j < k ==> (#[trigger] streams[j]).0 != 0x0F && streams[j].0 != 0x11)
            ==> first_audio(streams) == streams[k].1,
    decreases k,
{
    if k > 0 {
        let rest = streams.skip(1);
        lemma_first_stream(rest, k - 1);
        assert(forall|j: int| 0 <= j < rest.len() ==> #[trigger] rest[j] == streams[j + 1]);
        assert(streams[0] == streams[0]);
    }
}

/// Without a program, or without a stream of such a type, no PID is found.
pub proof fn law_missing_streams_are_not_found(d: Seq<u8>)
    ensures
        program_from(d, 0) is None ==> av_pids(d) == (0xFFFFu16, 0xFFFFu16),
        program_from(d, 0) matches Some(pmt) ==> ((forall|j: int|
            0 <= j < streams_from(d, 0, pmt).len() ==> (#[trigger] streams_from(d, 0, pmt)[j]).0
                != 0x1B && streams_from(d, 0, pmt)[j].0 != 0x24) ==> av_pids(d).0 == 0xFFFF),
        program_from(d, 0) matches Some(pmt) ==> ((forall|j: int|
            0 <= j < streams_from(d, 0, pmt).len() ==> (#[trigger] streams_from(d, 0, pmt)[j]).0
                != 0x0F && streams_from(d, 0, pmt)[j].0 != 0x11) ==> av_pids(d).1 == 0xFFFF),
{
    if let Some(pmt) = program_from(d, 0) {
        lemma_no_stream(streams_from(d, 0, pmt));
    }
}

proof fn lemma_no_stream(streams: Seq<(u8, u16)>)
    ensures
        (forall|j: int|
            0 <= j < streams.len() ==> (#[trigger] streams[j]).0 != 0x1B && streams[j].0 != 0x24)
            ==> first_video(streams) == 0xFFFF,
        (forall|j: int|
            0 <= j < streams.len() ==> (#[trigger] streams[j]).0 != 0x0F && streams[j].0 != 0x11)
            ==> first_audio(streams) == 0xFFFF,
    decreases streams.len(),
{
    if streams.len() > 0 {
        let rest = streams.skip(1);
        lemma_no_stream(rest);
        assert(forall|j: int| 0 <= j < rest.len() ==> #[trigger] rest[j] == streams[j + 1]);
        assert(streams[0] == streams[0]);
    }
}

/// What starts a PES packet but has fewer than nine bytes has no header: it is decrypted
/// from its first byte.
pub proof fn law_short_packets_have_no_header(bytes: Seq<u8>, key: Seq<u8>, iv: Seq<u8>)
    requires
        bytes.len() < 9,
    ensures
        header_fits(Piece { starts: true, bytes }),
        pes_plain(Piece { starts: true, bytes }, true, key, iv) == h264_plain(bytes, key, iv),
        pes_plain(Piece { starts: true, bytes }, false, key, iv) == aac_plain(bytes, key, iv),
{
    assert(bytes.take(0) =~= seq![]);
    assert(bytes.skip(0) =~= bytes);
    assert(seq![] + h264_plain(bytes, key, iv) =~= h264_plain(bytes, key, iv));
    assert(seq![] + aac_plain(bytes, key, iv) =~= aac_plain(bytes, key, iv));
}

} // verus!
