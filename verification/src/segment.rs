//! Media segments: decrypting one, and putting them in order.

use crate::crypto::{
    cbc_pkcs7_decrypt, cbc_pkcs7_plain, cbc_plain, law_bad_ciphertexts_are_refused,
    law_padding_is_cut_off, CbcError,
};
use crate::text::{chars_of, decimal, push_decimal, text_of};
use crate::ts::{
    decrypt_sample_aes_ts, headers_fit, law_only_payloads_change, segment_plain, SampleKeyLength,
};
use std::collections::BTreeMap;
use vstd::prelude::*;
use vstd::string::*;
use vstd::utf8::{
    encode_utf8, encode_utf8_valid_utf8, is_ascii_chars, is_ascii_chars_encode_utf8,
    is_char_boundary, is_char_boundary_iff_not_is_continuation_byte,
    is_char_boundary_start_end_of_seq, is_continuation_byte,
};

verus! {

// -------------------------------------------------------- initialisation vector

/// `s` without any number of `0x` (with the letter `x`) at its start.
pub open spec fn without_marks(s: Seq<char>, x: char) -> Seq<char>
    decreases s.len(),
{
    if s.len() >= 2 && s[0] == '0' && s[1] == x {
        without_marks(s.skip(2), x)
    } else {
        s
    }
}

/// The hexadecimal digits of an IV attribute.
pub open spec fn iv_digits(s: Seq<char>) -> Seq<char> {
    without_marks(without_marks(s, 'x'), 'X')
}

/// How many zeros are put before the digits, to make 32 characters of them.
pub open spec fn iv_padding(digits: Seq<char>) -> int {
    if digits.len() < 32 {
        32 - digits.len()
    } else {
        0
    }
}

/// Byte number `j` of the padded digits.
pub open spec fn iv_text_byte(digits: Seq<char>, j: int) -> u8 {
    if j < iv_padding(digits) {
        48
    } else {
        encode_utf8(digits)[j - iv_padding(digits)]
    }
}

/// The value of a hexadecimal digit.
pub open spec fn hex_value(b: u8) -> Option<u8> {
    if 48 <= b <= 57 {
        Some((b - 48) as u8)
    } else if 97 <= b <= 102 {
        Some((b - 87) as u8)
    } else if 65 <= b <= 70 {
        Some((b - 55) as u8)
    } else {
        None
    }
}

/// The value of two characters as a hexadecimal number, in which a `+` may stand for
/// the first digit; 0 where they are none.
pub open spec fn hex_pair(hi: u8, lo: u8) -> u8 {
    match (hex_value(hi), hex_value(lo)) {
        (Some(h), Some(l)) => (h * 16 + l) as u8,
        (None, Some(l)) => if hi == 43 {
            l
        } else {
            0
        },
        _ => 0,
    }
}

/// The initialisation vector that an IV attribute writes: the first 32 characters
/// of the digits, filled up with zeros on the left.
pub open spec fn hex_iv(s: Seq<char>) -> Seq<u8> {
    Seq::new(
        16,
        |i: int|
            hex_pair(iv_text_byte(iv_digits(s), i * 2), iv_text_byte(iv_digits(s), i * 2 + 1)),
    )
}

/// Whether the padded digits can be cut into 16 pieces of two bytes: no cut falls
/// inside a character. Texts in ASCII always can.
pub open spec fn iv_readable(s: Seq<char>) -> bool {
    let digits = iv_digits(s);
    forall|i: int|
        0 <= i <= 16 && i * 2 > iv_padding(digits) ==> #[trigger] is_char_boundary(
            encode_utf8(digits),
            i * 2 - iv_padding(digits),
        )
}

fn skip_marks(chars: &Vec<char>, from: usize, x: char) -> (to: usize)
    requires
        from <= chars.len(),
    ensures
        from <= to <= chars.len(),
        without_marks(chars@.skip(from as int), x) == chars@.skip(to as int),
{
    let mut to: usize = from;
    while chars.len() - to >= 2 && chars[to] == '0' && chars[to + 1] == x
        invariant
            from <= to <= chars.len(),
            without_marks(chars@.skip(from as int), x) == without_marks(
                chars@.skip(to as int),
                x,
            ),
        decreases chars.len() - to,
    {
        assert(chars@.skip(to as int).skip(2) =~= chars@.skip(to + 2));
        to += 2;
    }
    to
}

fn digits_of(s: &str) -> (digits: String)
    ensures
        digits@ == iv_digits(s@),
{
    let chars = chars_of(s);
    assert(chars@.skip(0) =~= chars@);
    let from: usize = skip_marks(&chars, 0, 'x');
    let from2: usize = skip_marks(&chars, from, 'X');
    let digits = text_of(&chars, from2, chars.len());
    assert(digits@ =~= chars@.skip(from2 as int));
    digits
}

/// Tells whether an IV attribute can be read by [`parse_hex_iv`].
pub fn iv_is_readable(s: &str) -> (readable: bool)
    ensures
        readable == iv_readable(s@),
{
    let digits = digits_of(s);
    let len: usize = chars_of(digits.as_str()).len();
    let pad: usize = if len < 32 {
        32 - len
    } else {
        0
    };
    let mut i: usize = 0;
    while i <= 16
        invariant
            i <= 17,
            digits@ == iv_digits(s@),
            pad == iv_padding(digits@),
            forall|k: int|
                0 <= k < i && k * 2 > pad ==> #[trigger] is_char_boundary(
                    encode_utf8(digits@),
                    k * 2 - pad,
                ),
        decreases 17 - i,
    {
        if i * 2 > pad && !digits.as_str().is_char_boundary(i * 2 - pad) {
            assert(!is_char_boundary(encode_utf8(digits@), i * 2 - pad));
            return false;
        }
        i += 1;
    }
    true
}

proof fn lemma_utf8_len(chars: Seq<char>)
    ensures
        encode_utf8(chars).len() >= chars.len(),
    decreases chars.len(),
{
    if chars.len() > 0 {
        lemma_utf8_len(chars.drop_first());
    }
}

fn hex_digit(b: u8) -> (v: Option<u8>)
    ensures
        v == hex_value(b),
        v matches Some(n) ==> n < 16,
{
    if 48 <= b && b <= 57 {
        Some(b - 48)
    } else if 97 <= b && b <= 102 {
        Some(b - 87)
    } else if 65 <= b && b <= 70 {
        Some(b - 55)
    } else {
        None
    }
}

/// Reads an IV attribute, such as `0x9c7db8778570d05c3177c349fd9236aa`.
pub fn parse_hex_iv(s: &str) -> (iv: [u8; 16])
    requires
        iv_readable(s@),
    ensures
        iv@ == hex_iv(s@),
{
    let digits = digits_of(s);
    let text = digits.as_str();
    let len: usize = chars_of(text).len();
    let pad: usize = if len < 32 {
        32 - len
    } else {
        0
    };
    let bytes = text.as_bytes();
    proof {
        lemma_utf8_len(digits@);
    }
    let mut iv: [u8; 16] = [0u8; 16];
    let mut i: usize = 0;
    while i < 16
        invariant
            i <= 16,
            digits@ == iv_digits(s@),
            pad == iv_padding(digits@),
            bytes@ == encode_utf8(digits@),
            bytes@.len() + pad >= 32,
            forall|k: int| 0 <= k < i ==> #[trigger] iv@[k] == hex_iv(s@)[k],
        decreases 16 - i,
    {
        let hi: u8 = if i * 2 < pad {
            48
        } else {
            bytes[i * 2 - pad]
        };
        let lo: u8 = if i * 2 + 1 < pad {
            48
        } else {
            bytes[i * 2 + 1 - pad]
        };
        iv[i] = match (hex_digit(hi), hex_digit(lo)) {
            (Some(h), Some(l)) => h * 16 + l,
            (None, Some(l)) => if hi == 43 {
                l
            } else {
                0
            },
            _ => 0,
        };
        i += 1;
    }
    assert(iv@ =~= hex_iv(s@));
    iv
}

/// The lower-case hexadecimal digit of `n`.
pub open spec fn hex_digit_char(n: int) -> char
    recommends
        0 <= n < 16,
{
    if n < 10 {
        (48 + n) as char
    } else {
        (87 + n) as char
    }
}

/// `bytes` in hexadecimal digits.
pub open spec fn hex_text(bytes: Seq<u8>) -> Seq<char> {
    Seq::new(
        2 * bytes.len(),
        |i: int|
            hex_digit_char(
                if i % 2 == 0 {
                    bytes[i / 2] as int / 16
                } else {
                    bytes[i / 2] as int % 16
                },
            ),
    )
}

proof fn lemma_without_marks(s: Seq<char>, x: char)
    requires
        is_ascii_chars(s),
    ensures
        is_ascii_chars(without_marks(s, x)),
    decreases s.len(),
{
    if s.len() >= 2 && s[0] == '0' && s[1] == x {
        let rest = s.skip(2);
        assert forall|i: int| 0 <= i < rest.len() implies '\0' <= #[trigger] rest[i]
            <= '\u{7f}' by {
            assert(rest[i] == s[i + 2]);
        }
        lemma_without_marks(rest, x);
    }
}

/// Every attribute in ASCII can be read.
pub proof fn law_ascii_ivs_are_readable(s: Seq<char>)
    requires
        is_ascii_chars(s),
    ensures
        iv_readable(s),
{
    let digits = iv_digits(s);
    let pad = iv_padding(digits);
    let bytes = encode_utf8(digits);
    lemma_without_marks(s, 'x');
    lemma_without_marks(without_marks(s, 'x'), 'X');
    is_ascii_chars_encode_utf8(digits);
    encode_utf8_valid_utf8(digits);
    assert forall|i: int| 0 <= i <= 16 && i * 2 > pad implies #[trigger] is_char_boundary(
        bytes,
        i * 2 - pad,
    ) by {
        let k = i * 2 - pad;
        if k < bytes.len() {
            assert(bytes[k] == digits[k] as u8);
            assert(digits[k] <= '\u{7f}');
            assert(!is_continuation_byte(bytes[k]));
            is_char_boundary_iff_not_is_continuation_byte(bytes, k);
        } else {
            is_char_boundary_start_end_of_seq(bytes);
        }
    }
}

/// A vector that is written in hexadecimal digits is read back.
pub proof fn law_written_iv_is_read_back(iv: Seq<u8>)
    requires
        iv.len() == 16,
    ensures
        iv_readable(seq!['0', 'x'] + hex_text(iv)),
        hex_iv(seq!['0', 'x'] + hex_text(iv)) == iv,
{
    let text = seq!['0', 'x'] + hex_text(iv);
    let digits = hex_text(iv);
    assert forall|i: int| 0 <= i < digits.len() implies '\0' <= #[trigger] digits[i] <= '\u{7f}'
        && digits[i] != 'x' && digits[i] != 'X' by {}
    assert(text.skip(2) =~= digits);
    assert(without_marks(text, 'x') == without_marks(digits, 'x'));
    assert(iv_digits(text) == digits);
    assert(is_ascii_chars(digits));
    is_ascii_chars_encode_utf8(digits);
    let bytes = encode_utf8(digits);
    assert forall|i: int| 0 <= i < 16 implies #[trigger] hex_iv(text)[i] == iv[i] by {
        let hi = digits[i * 2];
        let lo = digits[i * 2 + 1];
        assert(hi == hex_digit_char(iv[i] as int / 16));
        assert(lo == hex_digit_char(iv[i] as int % 16));
        assert(bytes[i * 2] == hi as u8);
        assert(bytes[i * 2 + 1] == lo as u8);
    }
    assert(hex_iv(text) =~= iv);
    assert(is_ascii_chars(text));
    law_ascii_ivs_are_readable(text);
}

/// The eight bytes of `n`, the most significant first.
pub open spec fn big_endian(n: u64) -> Seq<u8> {
    Seq::new(8, |j: int| ((n >> ((56 - 8 * j) as u64)) & 0xff) as u8)
}

/// The initialisation vector of a segment: the one that the playlist gives, or else
/// the number of the segment in the stream as a 16-byte big-endian number.
pub open spec fn iv_for(explicit: Option<[u8; 16]>, seg_idx: usize, media_seq: u64) -> Seq<u8> {
    match explicit {
        Some(iv) => iv@,
        None => Seq::new(8, |j: int| 0u8) + big_endian((media_seq + seg_idx) as u64),
    }
}

/// Whether the number of a segment in the stream is within the range of 64 bits, or
/// is not needed.
pub open spec fn has_iv(explicit: Option<[u8; 16]>, seg_idx: usize, media_seq: u64) -> bool {
    explicit is Some || media_seq + seg_idx <= u64::MAX
}

/// Computes the initialisation vector of a segment.
pub fn compute_iv(explicit: &Option<[u8; 16]>, seg_idx: usize, media_seq: u64) -> (iv: [u8; 16])
    requires
        has_iv(*explicit, seg_idx, media_seq),
    ensures
        iv@ == iv_for(*explicit, seg_idx, media_seq),
{
    if let Some(iv) = explicit {
        return *iv;
    }
    let seq: u64 = media_seq + seg_idx as u64;
    let mut iv: [u8; 16] = [0u8; 16];
    let mut j: usize = 0;
    while j < 8
        invariant
            j <= 8,
            forall|k: int| 0 <= k < 8 ==> #[trigger] iv@[k] == 0,
            forall|k: int| 8 <= k < 8 + j ==> #[trigger] iv@[k] == big_endian(seq)[k - 8],
        decreases 8 - j,
    {
        iv[8 + j] = ((seq >> ((56 - 8 * j) as u64)) & 0xff) as u8;
        j += 1;
    }
    assert(iv@ =~= iv_for(*explicit, seg_idx, media_seq));
    iv
}

/// Segments for which the playlist gives no initialisation vector have vectors of their
/// own.
pub proof fn law_segments_have_ivs_of_their_own(i: usize, j: usize, media_seq: u64)
    requires
        has_iv(None, i, media_seq),
        has_iv(None, j, media_seq),
        i != j,
    ensures
        iv_for(None, i, media_seq) != iv_for(None, j, media_seq),
{
    let a = (media_seq + i) as u64;
    let b = (media_seq + j) as u64;
    let x = iv_for(None, i, media_seq);
    let y = iv_for(None, j, media_seq);
    if x == y {
        assert forall|k: int| 0 <= k < 8 implies #[trigger] big_endian(a)[k]
            == big_endian(b)[k] by {
            assert(x[8 + k] == big_endian(a)[k]);
            assert(y[8 + k] == big_endian(b)[k]);
        }
        assert(big_endian(a)[0] == big_endian(b)[0] && big_endian(a)[1] == big_endian(b)[1]);
        assert(big_endian(a)[2] == big_endian(b)[2] && big_endian(a)[3] == big_endian(b)[3]);
        assert(big_endian(a)[4] == big_endian(b)[4] && big_endian(a)[5] == big_endian(b)[5]);
        assert(big_endian(a)[6] == big_endian(b)[6] && big_endian(a)[7] == big_endian(b)[7]);
        assert(a == b) by (bit_vector)
            requires
                ((a >> 56u64) & 0xff) as u8 == ((b >> 56u64) & 0xff) as u8,
                ((a >> 48u64) & 0xff) as u8 == ((b >> 48u64) & 0xff) as u8,
                ((a >> 40u64) & 0xff) as u8 == ((b >> 40u64) & 0xff) as u8,
                ((a >> 32u64) & 0xff) as u8 == ((b >> 32u64) & 0xff) as u8,
                ((a >> 24u64) & 0xff) as u8 == ((b >> 24u64) & 0xff) as u8,
                ((a >> 16u64) & 0xff) as u8 == ((b >> 16u64) & 0xff) as u8,
                ((a >> 8u64) & 0xff) as u8 == ((b >> 8u64) & 0xff) as u8,
                ((a >> 0u64) & 0xff) as u8 == ((b >> 0u64) & 0xff) as u8,
        ;
    }
}

// -------------------------------------------------------------------- decryption

/// How the segments of a playlist are encrypted.
#[derive(Clone, Copy, Debug, PartialEq, Eq, Structural)]
pub enum EncMethod {
    /// Each segment as a whole.
    Aes128,
    /// The samples inside the segments.
    SampleAes,
}

/// What is needed to decrypt the segments of a playlist.
#[derive(Clone, Debug)]
pub struct EncryptionInfo {
    pub method: EncMethod,
    pub key: Vec<u8>,
    pub iv: Option<[u8; 16]>,
}

/// Why a segment could not be decrypted.
#[derive(Clone, Copy, Debug, PartialEq, Eq, Structural)]
pub enum DecryptError {
    Cbc(CbcError),
    SampleKey(SampleKeyLength),
}

impl DecryptError {
    /// The text of the error.
    pub open spec fn text(self) -> Seq<char> {
        match self {
            DecryptError::Cbc(CbcError::KeyLength) => "AES init: InvalidLength"@,
            DecryptError::Cbc(CbcError::Padding) => "AES decrypt: UnpadError"@,
            DecryptError::SampleKey(SampleKeyLength(n)) => "SAMPLE-AES key must be 16 bytes, got "@
                + decimal(n as nat),
        }
    }

    /// Gives the text of the error.
    pub fn message(&self) -> (s: String)
        ensures
            s@ == self.text(),
    {
        match self {
            DecryptError::Cbc(CbcError::KeyLength) => "AES init: InvalidLength".to_owned(),
            DecryptError::Cbc(CbcError::Padding) => "AES decrypt: UnpadError".to_owned(),
            DecryptError::SampleKey(SampleKeyLength(n)) => {
                let mut s = "SAMPLE-AES key must be 16 bytes, got ".to_owned();
                push_decimal(&mut s, *n as u64);
                s
            },
        }
    }
}

/// Decrypts a segment that is encrypted as a whole, with PKCS#7 padding.
pub fn decrypt_aes128(
    enc: &EncryptionInfo,
    buf: Vec<u8>,
    seg_idx: usize,
    media_seq: u64,
) -> (plain: Result<Vec<u8>, CbcError>)
    requires
        has_iv(enc.iv, seg_idx, media_seq),
    ensures
        match plain {
            Ok(bytes) => cbc_pkcs7_plain(enc.key@, iv_for(enc.iv, seg_idx, media_seq), buf@) == Ok::<
                Seq<u8>,
                CbcError,
            >(bytes@),
            Err(e) => cbc_pkcs7_plain(enc.key@, iv_for(enc.iv, seg_idx, media_seq), buf@) == Err::<
                Seq<u8>,
                CbcError,
            >(e),
        },
{
    let iv: [u8; 16] = compute_iv(&enc.iv, seg_idx, media_seq);
    cbc_pkcs7_decrypt(enc.key.as_slice(), &iv, buf)
}

/// Whether a segment can be decrypted without running into a limit.
pub open spec fn segment_readable(
    enc: Option<EncryptionInfo>,
    data: Seq<u8>,
    seg_idx: usize,
    media_seq: u64,
) -> bool {
    match enc {
        Some(e) => {
            &&& has_iv(e.iv, seg_idx, media_seq)
            &&& e.method == EncMethod::SampleAes && e.key@.len() == 16 ==> headers_fit(data)
        },
        None => true,
    }
}

/// What is written to the output for a segment.
pub open spec fn segment_output(
    enc: Option<EncryptionInfo>,
    data: Seq<u8>,
    seg_idx: usize,
    media_seq: u64,
) -> Result<Seq<u8>, DecryptError> {
    match enc {
        None => Ok(data),
        Some(e) => {
            let iv = iv_for(e.iv, seg_idx, media_seq);
            match e.method {
                EncMethod::Aes128 => match cbc_pkcs7_plain(e.key@, iv, data) {
                    Ok(plain) => Ok(plain),
                    Err(e) => Err(DecryptError::Cbc(e)),
                },
                EncMethod::SampleAes => if e.key@.len() == 16 {
                    Ok(segment_plain(data, e.key@, iv))
                } else {
                    Err(DecryptError::SampleKey(SampleKeyLength(e.key@.len() as usize)))
                },
            }
        },
    }
}

/// Tells whether a segment can be decrypted without running into a limit.
pub fn is_segment_readable(
    enc: &Option<EncryptionInfo>,
    data: &Vec<u8>,
    seg_idx: usize,
    media_seq: u64,
) -> (readable: bool)
    ensures
        readable == segment_readable(*enc, data@, seg_idx, media_seq),
{
    match enc {
        Some(e) => {
            (e.iv.is_some() || seg_idx as u64 <= u64::MAX - media_seq) && (e.method
                != EncMethod::SampleAes || e.key.len() != 16 || crate::ts::pes_headers_fit(
                data.as_slice(),
            ))
        },
        None => true,
    }
}

/// Turns a downloaded segment into what is written to the output.
pub fn decrypt_segment(
    enc: &Option<EncryptionInfo>,
    data: Vec<u8>,
    seg_idx: usize,
    media_seq: u64,
) -> (output: Result<Vec<u8>, DecryptError>)
    requires
        segment_readable(*enc, data@, seg_idx, media_seq),
    ensures
        match output {
            Ok(bytes) => segment_output(*enc, data@, seg_idx, media_seq) == Ok::<
                Seq<u8>,
                DecryptError,
            >(bytes@),
            Err(e) => segment_output(*enc, data@, seg_idx, media_seq) == Err::<
                Seq<u8>,
                DecryptError,
            >(e),
        },
{
    match enc {
        None => Ok(data),
        Some(e) => {
            match e.method {
                EncMethod::Aes128 => match decrypt_aes128(e, data, seg_idx, media_seq) {
                    Ok(plain) => Ok(plain),
                    Err(error) => Err(DecryptError::Cbc(error)),
                },
                EncMethod::SampleAes => {
                    let iv: [u8; 16] = compute_iv(&e.iv, seg_idx, media_seq);
                    match decrypt_sample_aes_ts(data.as_slice(), e.key.as_slice(), &iv) {
                        Ok(plain) => Ok(plain),
                        Err(error) => Err(DecryptError::SampleKey(error)),
                    }
                },
            }
        },
    }
}

// ---------------------------------------------------------------------- ordering

/// Puts segments that arrive in any order into the order of the stream.
pub struct SegmentBuffer {
    next: usize,
    pending: BTreeMap<usize, Vec<u8>>,
}

/// What a [`SegmentBuffer`] holds: the number of the segment to hand out next, and
/// the segments that wait for an earlier one.
#[verifier::ext_equal]
pub struct BufferView {
    pub next: int,
    pub pending: Map<usize, Seq<u8>>,
}

impl View for SegmentBuffer {
    type V = BufferView;

    closed spec fn view(&self) -> BufferView {
        BufferView {
            next: self.next as int,
            pending: self.pending@.map_values(|data: Vec<u8>| data@),
        }
    }
}

/// The bytes of `segments`.
pub open spec fn segment_bytes(segments: Seq<Vec<u8>>) -> Seq<Seq<u8>> {
    segments.map_values(|data: Vec<u8>| data@)
}

/// Whether `m` gives `data` for `i`.
pub open spec fn maps_to<D>(m: Map<usize, D>, i: usize, data: D) -> bool {
    m.contains_key(i) && m[i] == data
}

/// What happens when segment `idx` arrives: the segments that follow on those handed
/// out before, up to the first one that is missing, are handed out in order; the
/// others wait.
pub open spec fn hands_out(
    before: BufferView,
    idx: usize,
    data: Seq<u8>,
    ready: Seq<Seq<u8>>,
    after: BufferView,
) -> bool {
    let all = before.pending.insert(idx, data);
    &&& after.next == before.next + ready.len()
    &&& after.next <= usize::MAX
    &&& forall|k: int|
        0 <= k < ready.len() ==> maps_to(all, (before.next + k) as usize, #[trigger] ready[k])
    &&& !all.contains_key(after.next as usize)
    &&& after.pending == all.remove_keys(
        Set::new(|i: usize| before.next <= i < after.next),
    )
}

/// Fewer segments than the playlist lists were handed out.
#[derive(Clone, Copy, Debug, PartialEq, Eq, Structural)]
pub struct Incomplete {
    pub written: usize,
    pub total: usize,
}

impl Incomplete {
    /// The text of the error.
    pub open spec fn text(self) -> Seq<char> {
        "only "@ + decimal(self.written as nat) + "/"@ + decimal(self.total as nat)
            + " segments written"@
    }

    /// Gives the text of the error.
    pub fn message(&self) -> (s: String)
        ensures
            s@ == self.text(),
    {
        let mut s = "only ".to_owned();
        push_decimal(&mut s, self.written as u64);
        s.append("/");
        push_decimal(&mut s, self.total as u64);
        s.append(" segments written");
        s
    }
}

/// What is said when no more segments come, after `written` of `total` were handed out.
pub open spec fn finished(written: int, total: usize) -> Result<(), Incomplete> {
    if written < total {
        Err(Incomplete { written: written as usize, total })
    } else {
        Ok(())
    }
}

impl SegmentBuffer {
    /// A buffer that waits for segment 0.
    pub fn new() -> (b: Self)
        ensures
            b@ == (BufferView { next: 0, pending: Map::empty() }),
            b.wf(),
    {
        let b = SegmentBuffer { next: 0, pending: BTreeMap::new() };
        assert(b@.pending =~= Map::empty());
        b
    }

    /// No segment that waits has the largest number of all.
    pub closed spec fn wf(&self) -> bool {
        !self.pending@.contains_key(usize::MAX)
    }

    /// How many segments were handed out.
    pub fn written(&self) -> (n: usize)
        ensures
            n == self@.next,
    {
        self.next
    }

    /// Tells whether segment `i` waits for an earlier one.
    fn waits(&self, i: usize) -> (found: bool)
        ensures
            found == self@.pending.contains_key(i),
    {
        broadcast use vstd::std_specs::btree::group_btree_axioms;

        self.pending.contains_key(&i)
    }

    /// Gives segment `i`, which waits for an earlier one.
    fn waiting(&self, i: usize) -> (data: Vec<u8>)
        requires
            self@.pending.contains_key(i),
        ensures
            data@ == self@.pending[i],
    {
        broadcast use vstd::std_specs::btree::group_btree_axioms;

        match self.pending.get(&i) {
            Some(data) => data.clone(),
            None => Vec::new(),
        }
    }

    /// Takes in segment `idx` and hands out those that are ready, in order.
    pub fn accept(&mut self, idx: usize, data: Vec<u8>) -> (ready: Vec<Vec<u8>>)
        requires
            old(self).wf(),
            idx < usize::MAX,
        ensures
            final(self).wf(),
            hands_out(old(self)@, idx, data@, segment_bytes(ready@), final(self)@),
    {
        broadcast use vstd::std_specs::btree::group_btree_axioms;

        let ghost start = self.next;
        let ghost bytes = data@;
        self.pending.insert(idx, data);
        let ghost all = self.pending@;
        let mut ready: Vec<Vec<u8>> = Vec::new();
        loop
            invariant
                start <= self.next,
                ready.len() == self.next - start,
                !all.contains_key(usize::MAX),
                forall|k: int|
                    0 <= k < ready.len() ==> maps_to(
                        all,
                        (start + k) as usize,
                        #[trigger] ready@[k],
                    ),
                self.pending@ == all.remove_keys(Set::new(|i: usize| start <= i < self.next)),
            ensures
                !all.contains_key(self.next),
            decreases usize::MAX - self.next,
        {
            let next: usize = self.next;
            match self.pending.remove(&next) {
                Some(segment) => {
                    assert(all.contains_key(next) && all[next] == segment);
                    let ghost before = ready@;
                    ready.push(segment);
                    self.next = next + 1;
                    assert forall|k: int| 0 <= k < ready.len() implies maps_to(
                        all,
                        (start + k) as usize,
                        #[trigger] ready@[k],
                    ) by {
                        if k < before.len() {
                            assert(ready@[k] == before[k]);
                        } else {
                            assert((start + k) as usize == next);
                        }
                    }
                    assert(self.pending@ =~= all.remove_keys(
                        Set::new(|i: usize| start <= i < self.next),
                    ));
                },
                None => {
                    break;
                },
            }
        }
        proof {
            let shown = all.map_values(|data: Vec<u8>| data@);
            let out = segment_bytes(ready@);
            assert forall|k: int| 0 <= k < out.len() implies maps_to(
                shown,
                (start + k) as usize,
                #[trigger] out[k],
            ) by {
                assert(maps_to(all, (start + k) as usize, ready@[k]));
            }
            assert(shown =~= old(self)@.pending.insert(idx, bytes));
            assert(self@.pending =~= shown.remove_keys(
                Set::new(|i: usize| old(self)@.next <= i < self@.next),
            ));
        }
        ready
    }

    /// Checks, when no more segments will come, that all `total` were handed out.
    pub fn finish(&self, total: usize) -> (done: Result<(), Incomplete>)
        ensures
            match done {
                Ok(_) => self@.next >= total,
                Err(e) => self@.next < total && e.written == self@.next && e.total == total,
            },
            done == finished(self@.next, total),
    {
        if self.next < total {
            Err(Incomplete { written: self.next, total })
        } else {
            Ok(())
        }
    }
}

/// The segments that `outs` hand out, one after the other.
pub open spec fn handed_out(outs: Seq<Seq<Seq<u8>>>) -> Seq<Seq<u8>>
    decreases outs.len(),
{
    if outs.len() == 0 {
        seq![]
    } else {
        handed_out(outs.drop_last()) + outs.last()
    }
}

/// Whether segment `i` is among `arrivals`, with the bytes `data`.
pub open spec fn arrived(arrivals: Seq<(usize, Seq<u8>)>, i: usize, data: Seq<u8>) -> bool {
    arrivals.contains((i, data))
}

/// Whether segment `i` is among `arrivals`.
pub open spec fn has_arrived(arrivals: Seq<(usize, Seq<u8>)>, i: usize) -> bool {
    exists|data: Seq<u8>| #[trigger] arrived(arrivals, i, data)
}

/// Whether `states` and `outs` are what a buffer goes through and hands out while
/// `arrivals` come in.
pub open spec fn buffer_run(
    arrivals: Seq<(usize, Seq<u8>)>,
    states: Seq<BufferView>,
    outs: Seq<Seq<Seq<u8>>>,
) -> bool {
    &&& states.len() == arrivals.len() + 1
    &&& outs.len() == arrivals.len()
    &&& states[0] == (BufferView { next: 0, pending: Map::empty() })
    &&& forall|m: int|
        0 <= m < arrivals.len() ==> hands_out(
            #[trigger] states[m],
            arrivals[m].0,
            arrivals[m].1,
            outs[m],
            states[m + 1],
        )
}

/// Whether no segment arrives twice.
pub open spec fn no_repeats(arrivals: Seq<(usize, Seq<u8>)>) -> bool {
    forall|a: int, b: int|
        0 <= a < b < arrivals.len() ==> (#[trigger] arrivals[a]).0 != (#[trigger] arrivals[b]).0
}

/// Whatever order the segments arrive in, they are handed out in the order of the
/// stream: segment 0 first, each exactly once and with its own bytes, up to the
/// first one that has not arrived.
pub proof fn law_segments_come_out_in_order(
    arrivals: Seq<(usize, Seq<u8>)>,
    states: Seq<BufferView>,
    outs: Seq<Seq<Seq<u8>>>,
)
    requires
        buffer_run(arrivals, states, outs),
        no_repeats(arrivals),
    ensures
        handed_out(outs).len() == states.last().next,
        forall|k: int|
            0 <= k < handed_out(outs).len() ==> arrived(
                arrivals,
                k as usize,
                #[trigger] handed_out(outs)[k],
            ),
        !has_arrived(arrivals, states.last().next as usize),
{
    lemma_buffer_run(arrivals, states, outs);
    if arrivals.len() > 0 {
        let m = arrivals.len() - 1;
        let all = states[m].pending.insert(arrivals[m].0, arrivals[m].1);
        assert(hands_out(states[m], arrivals[m].0, arrivals[m].1, outs[m], states[m + 1]));
        assert(!all.contains_key(states.last().next as usize));
        assert(!states.last().pending.contains_key(states.last().next as usize));
    }
}

proof fn lemma_buffer_run(
    arrivals: Seq<(usize, Seq<u8>)>,
    states: Seq<BufferView>,
    outs: Seq<Seq<Seq<u8>>>,
)
    requires
        buffer_run(arrivals, states, outs),
        no_repeats(arrivals),
    ensures
        0 <= states.last().next <= usize::MAX,
        handed_out(outs).len() == states.last().next,
        forall|k: int|
            0 <= k < handed_out(outs).len() ==> arrived(
                arrivals,
                k as usize,
                #[trigger] handed_out(outs)[k],
            ),
        forall|i: usize, data: Seq<u8>|
            #[trigger] arrived(arrivals, i, data) && i >= states.last().next ==> {
                &&& states.last().pending.contains_key(i)
                &&& states.last().pending[i] == data
            },
        forall|i: usize|
            #[trigger] states.last().pending.contains_key(i) ==> {
                &&& i >= states.last().next
                &&& arrived(arrivals, i, states.last().pending[i])
            },
    decreases arrivals.len(),
{
    if arrivals.len() > 0 {
        let m = arrivals.len() - 1;
        let arrivals0 = arrivals.drop_last();
        let states0 = states.drop_last();
        let outs0 = outs.drop_last();
        assert(buffer_run(arrivals0, states0, outs0)) by {
            assert forall|k: int| 0 <= k < arrivals0.len() implies hands_out(
                #[trigger] states0[k],
                arrivals0[k].0,
                arrivals0[k].1,
                outs0[k],
                states0[k + 1],
            ) by {
                assert(states0[k] == states[k]);
            }
        }
        lemma_buffer_run(arrivals0, states0, outs0);
        let before = states[m];
        let after = states[m + 1];
        let idx = arrivals[m].0;
        let data = arrivals[m].1;
        assert(states0.last() == before);
        assert(hands_out(before, idx, data, outs[m], after));
        let all = before.pending.insert(idx, data);
        assert forall|i: usize, d: Seq<u8>| arrived(arrivals0, i, d) implies arrived(
            arrivals,
            i,
            d,
        ) && i != idx by {
            let a = choose|a: int| 0 <= a < arrivals0.len() && arrivals0[a] == (i, d);
            assert(arrivals[a] == (i, d));
        }
        assert(arrived(arrivals, idx, data)) by {
            assert(arrivals[m] == (idx, data));
        }
        // The newcomer was not handed out before.
        if idx < before.next {
            assert(arrived(arrivals0, idx, handed_out(outs0)[idx as int]));
            assert(false);
        }
        let total = handed_out(outs);
        let old_total = handed_out(outs0);
        assert forall|k: int| 0 <= k < total.len() implies arrived(
            arrivals,
            k as usize,
            #[trigger] total[k],
        ) by {
            if k < old_total.len() {
                assert(total[k] == old_total[k]);
            } else {
                let j = k - old_total.len();
                assert(total[k] == outs[m][j]);
                assert(maps_to(all, (before.next + j) as usize, outs[m][j]));
                if k as usize != idx {
                    assert(before.pending.contains_key(k as usize));
                }
            }
        }
        assert forall|i: usize, d: Seq<u8>|
            #[trigger] arrived(arrivals, i, d) && i >= after.next implies after.pending.contains_key(
            i,
        ) && after.pending[i] == d by {
            let a = choose|a: int| 0 <= a < arrivals.len() && arrivals[a] == (i, d);
            if a < m {
                assert(arrivals0[a] == (i, d));
                assert(arrived(arrivals0, i, d));
                assert(before.pending.contains_key(i));
            }
            assert(all.contains_key(i));
        }
        assert forall|i: usize| #[trigger] after.pending.contains_key(i) implies i >= after.next
            && arrived(arrivals, i, after.pending[i]) by {
            assert(all.contains_key(i));
            if i != idx {
                assert(before.pending.contains_key(i));
            }
        }
    }
}

/// When every segment of a playlist of `total` has arrived, all of them have been
/// handed out.
pub proof fn law_complete_stream_is_handed_out(
    arrivals: Seq<(usize, Seq<u8>)>,
    states: Seq<BufferView>,
    outs: Seq<Seq<Seq<u8>>>,
    total: usize,
)
    requires
        buffer_run(arrivals, states, outs),
        no_repeats(arrivals),
        forall|i: usize| i < total ==> #[trigger] has_arrived(arrivals, i),
    ensures
        states.last().next >= total,
{
    law_segments_come_out_in_order(arrivals, states, outs);
    lemma_buffer_run(arrivals, states, outs);
    if states.last().next < total {
        assert(has_arrived(arrivals, states.last().next as usize));
    }
}

// ----------------------------------------------------------------------- writing

/// Puts segments in order and decrypts them.
pub struct SegmentWriter {
    buffer: SegmentBuffer,
    enc: Option<EncryptionInfo>,
    media_seq: u64,
}

/// What is to be appended to the file.
#[derive(Debug)]
pub struct Written {
    /// The segments, in order.
    pub segments: Vec<Vec<u8>>,
    /// Why the segment after them could not be decrypted. There is nothing to be
    /// written after that.
    pub error: Option<DecryptError>,
}

/// Whether `segments` are what the segments `ready` are decrypted to, from number
/// `first` on: all of them, or those before the first one that cannot be decrypted.
pub open spec fn decrypts(
    enc: Option<EncryptionInfo>,
    media_seq: u64,
    first: int,
    ready: Seq<Seq<u8>>,
    segments: Seq<Seq<u8>>,
    error: Option<DecryptError>,
) -> bool {
    &&& forall|k: int|
        0 <= k < segments.len() ==> segment_output(
            enc,
            ready[k],
            (first + k) as usize,
            media_seq,
        ) == Ok::<Seq<u8>, DecryptError>(#[trigger] segments[k])
    &&& match error {
        None => segments.len() == ready.len(),
        Some(e) => segments.len() < ready.len() && segment_output(
            enc,
            ready[segments.len() as int],
            (first + segments.len()) as usize,
            media_seq,
        ) == Err::<Seq<u8>, DecryptError>(e),
    }
}

/// Whether segment `i` is handed out and decrypted when the segments from `from` on are
/// those in `all`: none before it is missing, and none before it fails.
pub open spec fn comes_up(
    enc: Option<EncryptionInfo>,
    media_seq: u64,
    from: int,
    all: Map<usize, Seq<u8>>,
    i: usize,
) -> bool {
    &&& from <= i
    &&& all.contains_key(i)
    &&& forall|j: usize|
        from <= j < i ==> #[trigger] all.contains_key(j) && segment_output(
            enc,
            all[j],
            j,
            media_seq,
        ) is Ok
}

/// What a [`SegmentWriter`] holds.
#[verifier::ext_equal]
pub struct WriterView {
    pub buffer: BufferView,
    pub enc: Option<EncryptionInfo>,
    pub media_seq: u64,
}

impl View for SegmentWriter {
    type V = WriterView;

    closed spec fn view(&self) -> WriterView {
        WriterView { buffer: self.buffer@, enc: self.enc, media_seq: self.media_seq }
    }
}

impl WriterView {
    /// Whether no segment that is decrypted when segment `idx` arrives runs into a limit.
    pub open spec fn takes(self, idx: usize, data: Seq<u8>) -> bool {
        let all = self.buffer.pending.insert(idx, data);
        forall|i: usize| #[trigger]
            comes_up(self.enc, self.media_seq, self.buffer.next, all, i) ==> segment_readable(
                self.enc,
                all[i],
                i,
                self.media_seq,
            )
    }
}

impl SegmentWriter {
    /// No segment that waits has the largest number of all.
    pub closed spec fn wf(&self) -> bool {
        self.buffer.wf()
    }

    /// A writer that waits for segment 0.
    pub fn new(enc: Option<EncryptionInfo>, media_seq: u64) -> (w: Self)
        ensures
            w.wf(),
            w@ == (WriterView {
                buffer: BufferView { next: 0, pending: Map::empty() },
                enc,
                media_seq,
            }),
    {
        SegmentWriter { buffer: SegmentBuffer::new(), enc, media_seq }
    }

    /// Tells whether one of the segments from the next one up to `end` cannot be
    /// decrypted.
    fn fails_before(&self, end: usize, idx: usize, data: &Vec<u8>) -> (fails: bool)
        requires
            self@.buffer.next <= end,
            forall|j: usize|
                self@.buffer.next <= j < end ==> #[trigger] self@.buffer.pending.insert(
                    idx,
                    data@,
                ).contains_key(j) && segment_readable(
                    self@.enc,
                    self@.buffer.pending.insert(idx, data@)[j],
                    j,
                    self@.media_seq,
                ),
        ensures
            fails == exists|j: usize|
                self@.buffer.next <= j < end && #[trigger] segment_output(
                    self@.enc,
                    self@.buffer.pending.insert(idx, data@)[j],
                    j,
                    self@.media_seq,
                ) is Err,
    {
        let ghost all = self@.buffer.pending.insert(idx, data@);
        let mut k: usize = self.buffer.next;
        while k < end
            invariant
                self@.buffer.next <= k <= end,
                all == self@.buffer.pending.insert(idx, data@),
                forall|j: usize|
                    self@.buffer.next <= j < end ==> #[trigger] all.contains_key(j)
                        && segment_readable(self@.enc, all[j], j, self@.media_seq),
                forall|j: usize|
                    self@.buffer.next <= j < k ==> #[trigger] segment_output(
                        self@.enc,
                        all[j],
                        j,
                        self@.media_seq,
                    ) is Ok,
            decreases end - k,
        {
            assert(all.contains_key(k));
            let segment: Vec<u8> = if k == idx {
                data.clone()
            } else {
                self.buffer.waiting(k)
            };
            assert(segment@ == all[k]);
            if decrypt_segment(&self.enc, segment, k, self.media_seq).is_err() {
                return true;
            }
            k += 1;
        }
        false
    }

    /// Tells whether [`SegmentWriter::take`] can take a segment: none of those that are
    /// decrypted when it arrives runs into a limit.
    pub fn can_take(&self, idx: usize, data: &Vec<u8>) -> (can: bool)
        requires
            self.wf(),
            idx < usize::MAX,
        ensures
            can == self@.takes(idx, data@),
    {
        let ghost all = self@.buffer.pending.insert(idx, data@);
        let mut k: usize = self.buffer.next;
        while k == idx || self.buffer.waits(k)
            invariant
                self.wf(),
                idx < usize::MAX,
                self@.buffer.next <= k,
                all == self@.buffer.pending.insert(idx, data@),
                forall|j: usize|
                    self@.buffer.next <= j < k ==> #[trigger] all.contains_key(j)
                        && segment_readable(self@.enc, all[j], j, self@.media_seq),
            decreases usize::MAX - k,
        {
            assert(all.contains_key(k));
            let readable: bool = if k == idx {
                is_segment_readable(&self.enc, data, k, self.media_seq)
            } else {
                let segment: Vec<u8> = self.buffer.waiting(k);
                assert(segment@ == all[k]);
                is_segment_readable(&self.enc, &segment, k, self.media_seq)
            };
            assert(readable == segment_readable(self@.enc, all[k], k, self@.media_seq));
            if !readable {
                let fails: bool = self.fails_before(k, idx, data);
                proof {
                    if fails {
                        let j = choose|j: usize|
                            self@.buffer.next <= j < k && #[trigger] segment_output(
                                self@.enc,
                                all[j],
                                j,
                                self@.media_seq,
                            ) is Err;
                        assert forall|i: usize| #[trigger]
                            comes_up(
                                self@.enc,
                                self@.media_seq,
                                self@.buffer.next,
                                all,
                                i,
                            ) implies segment_readable(self@.enc, all[i], i, self@.media_seq) by {
                            if i >= k {
                                assert(all.contains_key(j));
                            } else {
                                assert(all.contains_key(i));
                            }
                        }
                    } else {
                        assert(comes_up(self@.enc, self@.media_seq, self@.buffer.next, all, k));
                    }
                }
                return fails;
            }
            let ghost last = k;
            k += 1;
            assert forall|j: usize| self@.buffer.next <= j < k implies #[trigger] all.contains_key(
                j,
            ) && segment_readable(self@.enc, all[j], j, self@.media_seq) by {
                assert(j < last || j == last);
            }
        }
        proof {
            assert(!all.contains_key(k));
            assert forall|i: usize| #[trigger]
                comes_up(
                    self@.enc,
                    self@.media_seq,
                    self@.buffer.next,
                    all,
                    i,
                ) implies segment_readable(self@.enc, all[i], i, self@.media_seq) by {
                assert(all.contains_key(i));
                if i > k {
                    assert(all.contains_key(k));
                }
            }
        }
        true
    }

    /// Takes in segment `idx`, and gives what is to be appended to the file.
    pub fn take(&mut self, idx: usize, data: Vec<u8>) -> (written: Written)
        requires
            old(self).wf(),
            idx < usize::MAX,
            old(self)@.takes(idx, data@),
        ensures
            final(self).wf(),
            final(self)@.enc == old(self)@.enc,
            final(self)@.media_seq == old(self)@.media_seq,
            exists|ready: Seq<Seq<u8>>|
                #![trigger hands_out(old(self)@.buffer, idx, data@, ready, final(self)@.buffer)]
                hands_out(old(self)@.buffer, idx, data@, ready, final(self)@.buffer) && decrypts(
                    old(self)@.enc,
                    old(self)@.media_seq,
                    old(self)@.buffer.next,
                    ready,
                    segment_bytes(written.segments@),
                    written.error,
                ),
    {
        let first: usize = self.buffer.written();
        let ghost before = self.buffer@;
        let ghost bytes = data@;
        let ghost start = self@;
        let ready = self.buffer.accept(idx, data);
        let ghost shown = segment_bytes(ready@);
        proof {
            assert(hands_out(before, idx, bytes, shown, self.buffer@));
            let all = before.pending.insert(idx, bytes);
            assert forall|k: int| 0 <= k < ready.len() && all_decrypt(
                self.enc,
                self.media_seq,
                first as int,
                shown,
                k,
            ) implies segment_readable(
                self.enc,
                (#[trigger] ready@[k])@,
                (first + k) as usize,
                self.media_seq,
            ) by {
                let i = (first + k) as usize;
                assert(shown[k] == ready@[k]@);
                assert(maps_to(all, i, shown[k]));
                assert forall|j: usize| first <= j < i implies #[trigger] all.contains_key(j)
                    && segment_output(self.enc, all[j], j, self.media_seq) is Ok by {
                    assert(maps_to(all, (first + (j - first)) as usize, shown[j - first]));
                    assert(segment_output(
                        self.enc,
                        shown[j - first],
                        (first + (j - first)) as usize,
                        self.media_seq,
                    ) is Ok);
                }
                assert(comes_up(start.enc, start.media_seq, start.buffer.next, all, i));
            }
        }
        let written = decrypt_all(&self.enc, self.media_seq, first, ready);
        proof {
            assert(hands_out(old(self)@.buffer, idx, bytes, shown, self@.buffer));
            assert(decrypts(
                self.enc,
                self.media_seq,
                old(self)@.buffer.next,
                shown,
                segment_bytes(written.segments@),
                written.error,
            ));
        }
        written
    }

    /// Checks, when no more segments will come, that all `total` were handed out.
    pub fn finish(&self, total: usize) -> (done: Result<(), Incomplete>)
        ensures
            match done {
                Ok(_) => self@.buffer.next >= total,
                Err(e) => self@.buffer.next < total && e.written == self@.buffer.next && e.total
                    == total,
            },
            done == finished(self@.buffer.next, total),
    {
        self.buffer.finish(total)
    }
}

/// Whether the first `n` of the segments `ready`, the first of which has the number
/// `first`, can be decrypted.
spec fn all_decrypt(
    enc: Option<EncryptionInfo>,
    media_seq: u64,
    first: int,
    ready: Seq<Seq<u8>>,
    n: int,
) -> bool {
    forall|j: int|
        0 <= j < n ==> segment_output(
            enc,
            #[trigger] ready[j],
            (first + j) as usize,
            media_seq,
        ) is Ok
}

fn decrypt_all(
    enc: &Option<EncryptionInfo>,
    media_seq: u64,
    first: usize,
    ready: Vec<Vec<u8>>,
) -> (written: Written)
    requires
        first + ready.len() <= usize::MAX,
        forall|k: int|
            0 <= k < ready.len() && all_decrypt(
                *enc,
                media_seq,
                first as int,
                segment_bytes(ready@),
                k,
            ) ==> segment_readable(
                *enc,
                (#[trigger] ready@[k])@,
                (first + k) as usize,
                media_seq,
            ),
    ensures
        decrypts(
            *enc,
            media_seq,
            first as int,
            segment_bytes(ready@),
            segment_bytes(written.segments@),
            written.error,
        ),
{
    let ghost shown = segment_bytes(ready@);
    let mut segments: Vec<Vec<u8>> = Vec::new();
    let mut k: usize = 0;
    while k < ready.len()
        invariant
            k <= ready.len(),
            k == segments.len(),
            shown == segment_bytes(ready@),
            first + ready.len() <= usize::MAX,
            forall|k: int|
                0 <= k < ready.len() && all_decrypt(
                    *enc,
                    media_seq,
                    first as int,
                    shown,
                    k,
                ) ==> segment_readable(
                    *enc,
                    (#[trigger] ready@[k])@,
                    (first + k) as usize,
                    media_seq,
                ),
            forall|j: int|
                0 <= j < segments.len() ==> segment_output(
                    *enc,
                    shown[j],
                    (first + j) as usize,
                    media_seq,
                ) == Ok::<Seq<u8>, DecryptError>((#[trigger] segments@[j])@),
        decreases ready.len() - k,
    {
        assert(shown[k as int] == ready@[k as int]@);
        assert(all_decrypt(*enc, media_seq, first as int, shown, k as int)) by {
            assert forall|j: int| 0 <= j < k implies segment_output(
                *enc,
                #[trigger] shown[j],
                (first + j) as usize,
                media_seq,
            ) is Ok by {
                assert(segment_output(*enc, shown[j], (first + j) as usize, media_seq) == Ok::<
                    Seq<u8>,
                    DecryptError,
                >(segments@[j]@));
            }
        }
        match decrypt_segment(enc, ready[k].clone(), first + k, media_seq) {
            Ok(plain) => {
                segments.push(plain);
            },
            Err(e) => {
                return Written { segments, error: Some(e) };
            },
        }
        k += 1;
    }
    Written { segments, error: None }
}

/// Whether `outs` is what is written while `arrivals` come in, when every segment can be
/// decrypted.
pub open spec fn writer_run(
    enc: Option<EncryptionInfo>,
    media_seq: u64,
    arrivals: Seq<(usize, Seq<u8>)>,
    states: Seq<BufferView>,
    readies: Seq<Seq<Seq<u8>>>,
    outs: Seq<Seq<Seq<u8>>>,
) -> bool {
    &&& buffer_run(arrivals, states, readies)
    &&& outs.len() == arrivals.len()
    &&& forall|m: int|
        0 <= m < arrivals.len() ==> decrypts(
            enc,
            media_seq,
            states[m].next,
            readies[m],
            #[trigger] outs[m],
            None,
        )
}

/// Whether segment `k` of the stream arrived and was decrypted to `plain`.
pub open spec fn is_plain_of(
    enc: Option<EncryptionInfo>,
    media_seq: u64,
    arrivals: Seq<(usize, Seq<u8>)>,
    k: usize,
    plain: Seq<u8>,
) -> bool {
    exists|data: Seq<u8>| #[trigger]
        arrived(arrivals, k, data) && segment_output(enc, data, k, media_seq) == Ok::<
            Seq<u8>,
            DecryptError,
        >(plain)
}

/// Whatever order the segments arrive in, what is written is segment 0 decrypted, then
/// segment 1 decrypted, and so on, up to the first one that has not arrived.
pub proof fn law_decrypted_segments_are_written_in_order(
    enc: Option<EncryptionInfo>,
    media_seq: u64,
    arrivals: Seq<(usize, Seq<u8>)>,
    states: Seq<BufferView>,
    readies: Seq<Seq<Seq<u8>>>,
    outs: Seq<Seq<Seq<u8>>>,
)
    requires
        writer_run(enc, media_seq, arrivals, states, readies, outs),
        no_repeats(arrivals),
    ensures
        handed_out(outs).len() == states.last().next,
        forall|k: int|
            0 <= k < handed_out(outs).len() ==> is_plain_of(
                enc,
                media_seq,
                arrivals,
                k as usize,
                #[trigger] handed_out(outs)[k],
            ),
        !has_arrived(arrivals, states.last().next as usize),
{
    law_segments_come_out_in_order(arrivals, states, readies);
    lemma_buffer_run(arrivals, states, readies);
    lemma_written(enc, media_seq, arrivals, states, readies, outs);
    let total = handed_out(outs);
    assert forall|k: int| 0 <= k < total.len() implies is_plain_of(
        enc,
        media_seq,
        arrivals,
        k as usize,
        #[trigger] total[k],
    ) by {
        assert(arrived(arrivals, k as usize, handed_out(readies)[k]));
    }
}

proof fn lemma_written(
    enc: Option<EncryptionInfo>,
    media_seq: u64,
    arrivals: Seq<(usize, Seq<u8>)>,
    states: Seq<BufferView>,
    readies: Seq<Seq<Seq<u8>>>,
    outs: Seq<Seq<Seq<u8>>>,
)
    requires
        writer_run(enc, media_seq, arrivals, states, readies, outs),
        no_repeats(arrivals),
    ensures
        handed_out(outs).len() == handed_out(readies).len(),
        handed_out(readies).len() == states.last().next,
        forall|k: int|
            0 <= k < handed_out(outs).len() ==> segment_output(
                enc,
                handed_out(readies)[k],
                k as usize,
                media_seq,
            ) == Ok::<Seq<u8>, DecryptError>(#[trigger] handed_out(outs)[k]),
    decreases arrivals.len(),
{
    if arrivals.len() > 0 {
        let m = arrivals.len() - 1;
        let arrivals0 = arrivals.drop_last();
        let states0 = states.drop_last();
        let readies0 = readies.drop_last();
        let outs0 = outs.drop_last();
        assert(buffer_run(arrivals0, states0, readies0)) by {
            assert forall|k: int| 0 <= k < arrivals0.len() implies hands_out(
                #[trigger] states0[k],
                arrivals0[k].0,
                arrivals0[k].1,
                readies0[k],
                states0[k + 1],
            ) by {
                assert(states0[k] == states[k]);
            }
        }
        assert forall|k: int| 0 <= k < arrivals0.len() implies decrypts(
            enc,
            media_seq,
            states0[k].next,
            readies0[k],
            #[trigger] outs0[k],
            None,
        ) by {
            assert(outs0[k] == outs[k]);
        }
        lemma_written(enc, media_seq, arrivals0, states0, readies0, outs0);
        lemma_buffer_run(arrivals0, states0, readies0);
        assert(states0.last() == states[m]);
        assert(hands_out(states[m], arrivals[m].0, arrivals[m].1, readies[m], states[m + 1]));
        assert(decrypts(enc, media_seq, states[m].next, readies[m], outs[m], None));
        let n = handed_out(readies0).len();
        let total = handed_out(outs);
        assert forall|k: int| 0 <= k < total.len() implies segment_output(
            enc,
            handed_out(readies)[k],
            k as usize,
            media_seq,
        ) == Ok::<Seq<u8>, DecryptError>(#[trigger] total[k]) by {
            if k < n {
                assert(total[k] == handed_out(outs0)[k]);
                assert(handed_out(readies)[k] == handed_out(readies0)[k]);
            } else {
                assert(total[k] == outs[m][k - n]);
                assert(handed_out(readies)[k] == readies[m][k - n]);
            }
        }
    }
}

// ------------------------------------------------------------ laws on segments

/// The value of a hexadecimal digit in either case.
pub open spec fn digit_of(c: char) -> Option<int> {
    if '0' <= c && c <= '9' {
        Some(c as int - '0' as int)
    } else if 'a' <= c && c <= 'f' {
        Some(c as int - 'a' as int + 10)
    } else if 'A' <= c && c <= 'F' {
        Some(c as int - 'A' as int + 10)
    } else {
        None
    }
}

/// Digit number `j` of 32 hexadecimal digits, of which `digits` are the last ones and the
/// others are 0.
pub open spec fn filled_digit(digits: Seq<char>, j: int) -> int {
    if j < 32 - digits.len() {
        0
    } else {
        digit_of(digits[j - (32 - digits.len())])->0
    }
}

proof fn lemma_marks_are_cut_off(mark: Seq<char>, digits: Seq<char>)
    requires
        forall|i: int| 0 <= i < digits.len() ==> digit_of(#[trigger] digits[i]) is Some,
        mark == Seq::<char>::empty() || mark == seq!['0', 'x'] || mark == seq!['0', 'X'],
    ensures
        iv_digits(mark + digits) == digits,
        is_ascii_chars(digits),
        is_ascii_chars(mark + digits),
{
    let s = mark + digits;
    assert(digits.len() >= 2 ==> digit_of(digits[1]) is Some);
    assert(without_marks(digits, 'x') == digits);
    assert(without_marks(digits, 'X') == digits);
    if mark.len() == 0 {
        assert(s =~= digits);
    } else {
        assert(s.skip(2) =~= digits);
        if mark[1] == 'x' {
            assert(without_marks(s, 'x') == without_marks(digits, 'x'));
        } else {
            assert(without_marks(s, 'x') == s);
            assert(without_marks(s, 'X') == without_marks(digits, 'X'));
        }
    }
    assert forall|i: int| 0 <= i < digits.len() implies '\0' <= #[trigger] digits[i]
        <= '\u{7f}' by {
        assert(digit_of(digits[i]) is Some);
    }
}

/// An IV attribute of up to 32 hexadecimal digits in either case, with or without a `0x` or
/// `0X` before them, is the number that the digits write: each byte takes two of them, and
/// zeros stand for those that are missing on the left.
pub proof fn law_iv_digits_are_read_in_pairs(mark: Seq<char>, digits: Seq<char>, i: int)
    requires
        digits.len() <= 32,
        forall|j: int| 0 <= j < digits.len() ==> digit_of(#[trigger] digits[j]) is Some,
        mark == Seq::<char>::empty() || mark == seq!['0', 'x'] || mark == seq!['0', 'X'],
        0 <= i < 16,
    ensures
        iv_readable(mark + digits),
        hex_iv(mark + digits).len() == 16,
        hex_iv(mark + digits)[i] == filled_digit(digits, 2 * i) * 16 + filled_digit(
            digits,
            2 * i + 1,
        ),
{
    let s = mark + digits;
    lemma_marks_are_cut_off(mark, digits);
    law_ascii_ivs_are_readable(s);
    is_ascii_chars_encode_utf8(digits);
    let bytes = encode_utf8(digits);
    let pad = 32 - digits.len();
    if i * 2 >= pad {
        assert(digit_of(digits[i * 2 - pad]) is Some);
        assert(bytes[i * 2 - pad] == digits[i * 2 - pad] as u8);
    }
    if i * 2 + 1 >= pad {
        assert(digit_of(digits[i * 2 + 1 - pad]) is Some);
        assert(bytes[i * 2 + 1 - pad] == digits[i * 2 + 1 - pad] as u8);
    }
}

/// Of more than 32 hexadecimal digits the first 32 count.
pub proof fn law_only_32_iv_digits_count(digits: Seq<char>, more: Seq<char>)
    requires
        digits.len() == 32,
        forall|j: int| 0 <= j < digits.len() ==> digit_of(#[trigger] digits[j]) is Some,
        forall|j: int| 0 <= j < more.len() ==> digit_of(#[trigger] more[j]) is Some,
    ensures
        hex_iv(digits + more) == hex_iv(digits),
{
    let all = digits + more;
    assert forall|j: int| 0 <= j < all.len() implies digit_of(#[trigger] all[j]) is Some by {
        if j < 32 {
            assert(all[j] == digits[j]);
        } else {
            assert(all[j] == more[j - 32]);
        }
    }
    lemma_marks_are_cut_off(seq![], digits);
    lemma_marks_are_cut_off(seq![], all);
    assert(seq![] + digits =~= digits);
    assert(seq![] + all =~= all);
    is_ascii_chars_encode_utf8(digits);
    is_ascii_chars_encode_utf8(all);
    assert forall|i: int| 0 <= i < 16 implies #[trigger] hex_iv(all)[i] == hex_iv(digits)[i] by {
        assert(encode_utf8(all)[i * 2] == all[i * 2] as u8);
        assert(encode_utf8(digits)[i * 2] == digits[i * 2] as u8);
        assert(encode_utf8(all)[i * 2 + 1] == all[i * 2 + 1] as u8);
        assert(encode_utf8(digits)[i * 2 + 1] == digits[i * 2 + 1] as u8);
    }
    assert(hex_iv(all) =~= hex_iv(digits));
}

/// The number that bytes write, the most significant first.
pub open spec fn number_of(bytes: Seq<u8>) -> int
    decreases bytes.len(),
{
    if bytes.len() == 0 {
        0
    } else {
        number_of(bytes.drop_last()) * 256 + bytes.last()
    }
}

/// The vector that the playlist gives is used for every segment; without one, the vector of
/// a segment is 16 bytes that write its number in the stream.
pub proof fn law_ivs_count_the_segments(iv: [u8; 16], seg_idx: usize, media_seq: u64)
    ensures
        has_iv(Some(iv), seg_idx, media_seq),
        iv_for(Some(iv), seg_idx, media_seq) == iv@,
        media_seq + seg_idx <= u64::MAX ==> {
            &&& has_iv(None, seg_idx, media_seq)
            &&& iv_for(None, seg_idx, media_seq).len() == 16
            &&& number_of(iv_for(None, seg_idx, media_seq)) == media_seq + seg_idx
        },
{
    if media_seq + seg_idx <= u64::MAX {
        let n = (media_seq + seg_idx) as u64;
        let x = iv_for(None, seg_idx, media_seq);
        assert forall|k: int| 0 <= k <= 8 implies number_of(#[trigger] x.take(k)) == 0 by {
            lemma_number_of_zeros(x.take(k));
        }
        assert(number_of(x.take(8)) == 0);
        let b = big_endian(n);
        assert(forall|k: int| 0 <= k < 8 ==> x[8 + k] == #[trigger] b[k]);
        assert(x.take(9).drop_last() =~= x.take(8) && x.take(9).last() == b[0]);
        assert(x.take(10).drop_last() =~= x.take(9) && x.take(10).last() == b[1]);
        assert(x.take(11).drop_last() =~= x.take(10) && x.take(11).last() == b[2]);
        assert(x.take(12).drop_last() =~= x.take(11) && x.take(12).last() == b[3]);
        assert(x.take(13).drop_last() =~= x.take(12) && x.take(13).last() == b[4]);
        assert(x.take(14).drop_last() =~= x.take(13) && x.take(14).last() == b[5]);
        assert(x.take(15).drop_last() =~= x.take(14) && x.take(15).last() == b[6]);
        assert(x.take(16).drop_last() =~= x.take(15) && x.take(16).last() == b[7]);
        assert(x.take(16) =~= x);
        assert(number_of(x.take(9)) == b[0]);
        assert(number_of(x.take(10)) == number_of(x.take(9)) * 256 + b[1]);
        assert(number_of(x.take(11)) == number_of(x.take(10)) * 256 + b[2]);
        assert(number_of(x.take(12)) == number_of(x.take(11)) * 256 + b[3]);
        assert(number_of(x.take(13)) == number_of(x.take(12)) * 256 + b[4]);
        assert(number_of(x.take(14)) == number_of(x.take(13)) * 256 + b[5]);
        assert(number_of(x.take(15)) == number_of(x.take(14)) * 256 + b[6]);
        assert(number_of(x.take(16)) == number_of(x.take(15)) * 256 + b[7]);
        lemma_bytes_of(n);
    }
}

proof fn lemma_number_of_zeros(bytes: Seq<u8>)
    requires
        forall|i: int| 0 <= i < bytes.len() ==> #[trigger] bytes[i] == 0,
    ensures
        number_of(bytes) == 0,
    decreases bytes.len(),
{
    if bytes.len() > 0 {
        assert forall|i: int| 0 <= i < bytes.drop_last().len() implies #[trigger] bytes.drop_last()[i]
            == 0 by {
            assert(bytes.drop_last()[i] == bytes[i]);
        }
        lemma_number_of_zeros(bytes.drop_last());
        assert(bytes[bytes.len() - 1] == 0);
    }
}

proof fn lemma_bytes_of(n: u64)
    ensures
        n == ((((((big_endian(n)[0] * 256 + big_endian(n)[1]) * 256 + big_endian(n)[2]) * 256
            + big_endian(n)[3]) * 256 + big_endian(n)[4]) * 256 + big_endian(n)[5]) * 256
            + big_endian(n)[6]) * 256 + big_endian(n)[7],
{
    let b = big_endian(n);
    assert(b[0] == ((n >> 56u64) & 0xff) as u8 && b[1] == ((n >> 48u64) & 0xff) as u8);
    assert(b[2] == ((n >> 40u64) & 0xff) as u8 && b[3] == ((n >> 32u64) & 0xff) as u8);
    assert(b[4] == ((n >> 24u64) & 0xff) as u8 && b[5] == ((n >> 16u64) & 0xff) as u8);
    assert(b[6] == ((n >> 8u64) & 0xff) as u8 && b[7] == ((n >> 0u64) & 0xff) as u8);
    assert((n >> 56u64) == ((n >> 56u64) & 0xff) as u8) by (bit_vector);
    assert((n >> 48u64) == (n >> 56u64) * 256 + ((n >> 48u64) & 0xff) as u8) by (bit_vector);
    assert((n >> 40u64) == (n >> 48u64) * 256 + ((n >> 40u64) & 0xff) as u8) by (bit_vector);
    assert((n >> 32u64) == (n >> 40u64) * 256 + ((n >> 32u64) & 0xff) as u8) by (bit_vector);
    assert((n >> 24u64) == (n >> 32u64) * 256 + ((n >> 24u64) & 0xff) as u8) by (bit_vector);
    assert((n >> 16u64) == (n >> 24u64) * 256 + ((n >> 16u64) & 0xff) as u8) by (bit_vector);
    assert((n >> 8u64) == (n >> 16u64) * 256 + ((n >> 8u64) & 0xff) as u8) by (bit_vector);
    assert(n == (n >> 8u64) * 256 + ((n >> 0u64) & 0xff) as u8) by (bit_vector);
}

/// A segment without encryption is written as it is.
pub proof fn law_clear_segments_are_written(data: Seq<u8>, seg_idx: usize, media_seq: u64)
    ensures
        segment_readable(None, data, seg_idx, media_seq),
        segment_output(None, data, seg_idx, media_seq) == Ok::<Seq<u8>, DecryptError>(data),
{
}

/// A segment that is encrypted as a whole is written without its padding, decrypted with
/// the vector of its own number.
pub proof fn law_whole_segments_are_decrypted(
    enc: EncryptionInfo,
    data: Seq<u8>,
    text: Seq<u8>,
    n: u8,
    seg_idx: usize,
    media_seq: u64,
)
    requires
        enc.method == EncMethod::Aes128,
        enc.key@.len() == 16,
        1 <= n <= 16,
        data.len() % 16 == 0,
        cbc_plain(enc.key@, iv_for(enc.iv, seg_idx, media_seq), data) == text + Seq::new(
            n as nat,
            |i: int| n,
        ),
    ensures
        segment_output(Some(enc), data, seg_idx, media_seq) == Ok::<Seq<u8>, DecryptError>(text),
{
    law_padding_is_cut_off(enc.key@, iv_for(enc.iv, seg_idx, media_seq), data, text, n);
}

/// A segment whose samples are encrypted is written with the same length, decrypted with
/// the vector of its own number.
pub proof fn law_segments_with_samples_are_decrypted(
    enc: EncryptionInfo,
    data: Seq<u8>,
    seg_idx: usize,
    media_seq: u64,
)
    requires
        enc.method == EncMethod::SampleAes,
        enc.key@.len() == 16,
        segment_readable(Some(enc), data, seg_idx, media_seq),
    ensures
        segment_output(Some(enc), data, seg_idx, media_seq) == Ok::<Seq<u8>, DecryptError>(
            segment_plain(data, enc.key@, iv_for(enc.iv, seg_idx, media_seq)),
        ),
        segment_output(Some(enc), data, seg_idx, media_seq)->Ok_0.len() == data.len(),
{
    law_only_payloads_change(data, enc.key@, iv_for(enc.iv, seg_idx, media_seq), 0);
}

/// A segment of which nothing can be made is an error: with a key of another length than 16
/// bytes, and, where it is encrypted as a whole, with a length that is no positive number
/// of blocks.
pub proof fn law_bad_segments_are_errors(
    enc: EncryptionInfo,
    data: Seq<u8>,
    seg_idx: usize,
    media_seq: u64,
)
    ensures
        enc.method == EncMethod::Aes128 && enc.key@.len() != 16 ==> segment_output(
            Some(enc),
            data,
            seg_idx,
            media_seq,
        ) == Err::<Seq<u8>, DecryptError>(DecryptError::Cbc(CbcError::KeyLength)),
        enc.method == EncMethod::SampleAes && enc.key@.len() != 16 ==> segment_output(
            Some(enc),
            data,
            seg_idx,
            media_seq,
        ) == Err::<Seq<u8>, DecryptError>(
            DecryptError::SampleKey(SampleKeyLength(enc.key@.len() as usize)),
        ),
        enc.method == EncMethod::Aes128 && enc.key@.len() == 16 && (data.len() == 0 || data.len()
            % 16 != 0) ==> segment_output(Some(enc), data, seg_idx, media_seq) == Err::<
            Seq<u8>,
            DecryptError,
        >(DecryptError::Cbc(CbcError::Padding)),
{
    law_bad_ciphertexts_are_refused(enc.key@, iv_for(enc.iv, seg_idx, media_seq), data);
}

/// A stream is finished exactly when no fewer segments were written than the playlist
/// lists; the error tells both numbers.
pub proof fn law_streams_are_finished_when_all_is_written(written: usize, total: usize)
    ensures
        finished(written as int, total) is Ok <==> total <= written,
        finished(written as int, total) matches Err(e) ==> e.text() == "only "@ + decimal(
            written as nat,
        ) + "/"@ + decimal(total as nat) + " segments written"@,
{
}

/// A `0x` before an attribute does not count, however often it stands there.
pub proof fn law_marks_do_not_count(s: Seq<char>)
    ensures
        hex_iv(seq!['0', 'x'] + s) == hex_iv(s),
        iv_readable(seq!['0', 'x'] + s) == iv_readable(s),
{
    let marked = seq!['0', 'x'] + s;
    assert(marked.skip(2) =~= s);
    assert(without_marks(marked, 'x') == without_marks(s, 'x'));
    assert(hex_iv(marked) =~= hex_iv(s));
}

/// Two characters that write no number stand for 0: those of which the second is no digit,
/// and those of which the first is none either, unless it is a `+`, which counts as 0.
pub proof fn law_other_characters_stand_for_zero(s: Seq<char>, i: int)
    requires
        s.len() == 32,
        is_ascii_chars(s),
        s[1] != 'x' && s[1] != 'X',
        0 <= i < 16,
    ensures
        digit_of(s[2 * i + 1]) is None ==> hex_iv(s)[i] == 0,
        digit_of(s[2 * i]) is None && s[2 * i] != '+' ==> hex_iv(s)[i] == 0,
        s[2 * i] == '+' ==> (digit_of(s[2 * i + 1]) matches Some(v) ==> hex_iv(s)[i] == v),
{
    assert(iv_digits(s) == s);
    is_ascii_chars_encode_utf8(s);
    let bytes = encode_utf8(s);
    assert(bytes[2 * i] == s[2 * i] as u8);
    assert(bytes[2 * i + 1] == s[2 * i + 1] as u8);
    lemma_hex_value_is(s[2 * i]);
    lemma_hex_value_is(s[2 * i + 1]);
    assert(i * 2 == 2 * i);
    lemma_plus_is(s[2 * i]);
}

proof fn lemma_hex_value_is(c: char)
    requires
        '\0' <= c <= '\u{7f}',
    ensures
        digit_of(c) is None ==> hex_value(c as u8) is None,
        digit_of(c) matches Some(v) ==> hex_value(c as u8) == Some(v as u8),
{
}

proof fn lemma_plus_is(c: char)
    requires
        '\0' <= c <= '\u{7f}',
    ensures
        c as u8 == 43 <==> c == '+',
{
}

/// Segments are written up to the first one that cannot be decrypted, and none is held back
/// before that; its error is told, and there is none where all can be decrypted.
pub proof fn law_a_bad_segment_ends_the_output(
    enc: Option<EncryptionInfo>,
    media_seq: u64,
    first: int,
    ready: Seq<Seq<u8>>,
    segments: Seq<Seq<u8>>,
    error: Option<DecryptError>,
    k: int,
)
    requires
        decrypts(enc, media_seq, first, ready, segments, error),
        0 <= k < ready.len(),
    ensures
        k < segments.len() ==> segment_output(enc, ready[k], (first + k) as usize, media_seq)
            == Ok::<Seq<u8>, DecryptError>(segments[k]),
        k == segments.len() ==> error is Some && segment_output(
            enc,
            ready[k],
            (first + k) as usize,
            media_seq,
        ) == Err::<Seq<u8>, DecryptError>(error->0),
        error is None <==> segments.len() == ready.len(),
        segments.len() <= ready.len(),
{
    if k < segments.len() {
        assert(segments[k] == segments[k]);
    }
}

/// What was wrong with a segment is told: what the cipher found, or how long the key is.
pub proof fn law_bad_segments_are_told(n: usize)
    ensures
        DecryptError::Cbc(CbcError::KeyLength).text() == "AES init: InvalidLength"@,
        DecryptError::Cbc(CbcError::Padding).text() == "AES decrypt: UnpadError"@,
        DecryptError::SampleKey(SampleKeyLength(n)).text()
            == "SAMPLE-AES key must be 16 bytes, got "@ + decimal(n as nat),
{
}

/// A segment can be decrypted unless its number is out of range while it needs a vector of
/// its own, or the header of one of its PES packets is cut off while its samples are
/// decrypted.
pub proof fn law_segments_can_be_decrypted(
    enc: EncryptionInfo,
    data: Seq<u8>,
    seg_idx: usize,
    media_seq: u64,
)
    requires
        enc.iv is Some || media_seq + seg_idx < 0x1_0000_0000_0000_0000,
    ensures
        enc.method == EncMethod::Aes128 ==> segment_readable(Some(enc), data, seg_idx, media_seq),
        enc.key@.len() != 16 ==> segment_readable(Some(enc), data, seg_idx, media_seq),
        headers_fit(data) ==> segment_readable(Some(enc), data, seg_idx, media_seq),
{
}

} // verus!
