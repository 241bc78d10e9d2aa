//! AES-128-CBC decryption of HLS media segments and samples.

use aes::cipher::block_padding::Pkcs7;
use aes::cipher::generic_array::GenericArray;
use aes::cipher::{BlockDecrypt, BlockDecryptMut, KeyInit, KeyIvInit};
use vstd::prelude::*;

verus! {

/// Length of an AES block, and of an AES-128 key, in bytes.
pub const BLOCK: usize = 16;

/// The 16-byte plaintext of one 16-byte `block` under AES-128 with the 16-byte `key`.
pub uninterp spec fn aes128_plain_block(key: Seq<u8>, block: Seq<u8>) -> Seq<u8>;

/// Decrypts one block with `aes::Aes128` (`KeyInit::new`, then
/// `BlockDecrypt::decrypt_block`). Trusted: the result is a function of the key
/// and the block alone, and it is what [`aes128_plain_block`] names.
#[verifier::external_body]
fn aes128_decrypt_block(key: &[u8; 16], block: &[u8; 16]) -> (plain: [u8; 16])
    ensures
        plain@ == aes128_plain_block(key@, block@),
{
    let cipher = aes::Aes128::new(GenericArray::from_slice(key));
    let mut out = GenericArray::clone_from_slice(block);
    cipher.decrypt_block(&mut out);
    out.into()
}

/// Block number `n` of `data`.
pub open spec fn block_of(data: Seq<u8>, n: int) -> Seq<u8> {
    data.subrange(n * 16, n * 16 + 16)
}

/// The byte that CBC combines with the decrypted byte at `i`: the ciphertext one
/// block earlier, or the initialisation vector in the first block.
pub open spec fn cbc_mask(iv: Seq<u8>, data: Seq<u8>, i: int) -> u8 {
    if i < 16 {
        iv[i]
    } else {
        data[i - 16]
    }
}

/// AES-128-CBC decryption of the whole blocks of `data`. Trailing bytes that do
/// not form a full block are kept as they are.
pub open spec fn cbc_plain(key: Seq<u8>, iv: Seq<u8>, data: Seq<u8>) -> Seq<u8> {
    Seq::new(
        data.len(),
        |i: int|
            if i < data.len() / 16 * 16 {
                aes128_plain_block(key, block_of(data, i / 16))[i % 16] ^ cbc_mask(iv, data, i)
            } else {
                data[i]
            },
    )
}

/// Combines a decrypted block with the ciphertext before it.
pub fn cbc_combine(plain: &[u8; 16], mask: &[u8; 16]) -> (out: [u8; 16])
    ensures
        forall|i: int| 0 <= i < 16 ==> #[trigger] out@[i] == plain@[i] ^ mask@[i],
{
    let mut out: [u8; 16] = [0u8; 16];
    let mut j: usize = 0;
    while j < BLOCK
        invariant
            j <= 16,
            forall|i: int| 0 <= i < j ==> #[trigger] out@[i] == plain@[i] ^ mask@[i],
        decreases 16 - j,
    {
        out[j] = plain[j] ^ mask[j];
        j += 1;
    }
    out
}

/// AES-128-CBC decrypts the block-aligned prefix of `buf` in place. Trailing
/// bytes that do not form a full block are left unchanged.
pub fn aes128_cbc_decrypt_inplace(buf: &mut [u8], key: &[u8; 16], iv: &[u8; 16])
    ensures
        final(buf)@ == cbc_plain(key@, iv@, old(buf)@),
{
    let ghost data = buf@;
    let blocks: usize = buf.len() / BLOCK;
    let mut prev: [u8; 16] = *iv;
    let mut b: usize = 0;
    while b < blocks
        invariant
            b <= blocks,
            blocks == data.len() / 16,
            buf@.len() == data.len(),
            data.len() <= usize::MAX,
            forall|i: int|
                0 <= i < 16 ==> #[trigger] prev@[i] == cbc_mask(iv@, data, b * 16 + i),
            forall|i: int|
                0 <= i < b * 16 ==> #[trigger] buf@[i] == cbc_plain(key@, iv@, data)[i],
            forall|i: int| b * 16 <= i < data.len() ==> #[trigger] buf@[i] == data[i],
        decreases blocks - b,
    {
        let off: usize = b * BLOCK;
        let mut cipher_block: [u8; 16] = [0u8; 16];
        let mut j: usize = 0;
        while j < BLOCK
            invariant
                j <= 16,
                off == b * 16,
                off + 16 <= data.len(),
                buf@.len() == data.len(),
                forall|i: int| off <= i < data.len() ==> #[trigger] buf@[i] == data[i],
                forall|i: int| 0 <= i < j ==> #[trigger] cipher_block@[i] == data[off + i],
            decreases 16 - j,
        {
            cipher_block[j] = buf[off + j];
            j += 1;
        }
        assert(cipher_block@ =~= block_of(data, b as int));
        let plain: [u8; 16] = aes128_decrypt_block(key, &cipher_block);
        let clear: [u8; 16] = cbc_combine(&plain, &prev);
        proof {
            assert forall|i: int| 0 <= i < 16 implies #[trigger] clear@[i] == cbc_plain(
                key@,
                iv@,
                data,
            )[off + i] by {
                assert((off + i) / 16 == b && (off + i) % 16 == i);
                assert(prev@[i] == cbc_mask(iv@, data, b * 16 + i));
            }
        }
        j = 0;
        while j < BLOCK
            invariant
                j <= 16,
                off == b * 16,
                off + 16 <= data.len(),
                buf@.len() == data.len(),
                forall|i: int|
                    0 <= i < 16 ==> #[trigger] clear@[i] == cbc_plain(key@, iv@, data)[off + i],
                forall|i: int|
                    0 <= i < off + j ==> #[trigger] buf@[i] == cbc_plain(key@, iv@, data)[i],
                forall|i: int| off + j <= i < data.len() ==> #[trigger] buf@[i] == data[i],
            decreases 16 - j,
        {
            assert(clear@[j as int] == cbc_plain(key@, iv@, data)[off + j]);
            buf[off + j] = clear[j];
            j += 1;
        }
        prev = cipher_block;
        b += 1;
    }
    assert(buf@ =~= cbc_plain(key@, iv@, data));
}

/// Why a segment could not be decrypted.
#[derive(Clone, Copy, Debug, PartialEq, Eq, Structural)]
pub enum CbcError {
    /// The key is not 16 bytes long.
    KeyLength,
    /// The ciphertext is not a positive number of whole blocks, or its padding is malformed.
    Padding,
}

/// Whether `plain` is a positive number of blocks and ends in PKCS#7 padding:
/// `n` bytes of value `n`, with `n` from 1 to 16.
pub open spec fn pkcs7_padded(plain: Seq<u8>) -> bool {
    &&& plain.len() > 0
    &&& plain.len() % 16 == 0
    &&& 1 <= plain.last() <= 16
    &&& forall|i: int|
        plain.len() - plain.last() <= i < plain.len() ==> #[trigger] plain[i] == plain.last()
}

/// `plain` without its PKCS#7 padding.
pub open spec fn pkcs7_unpadded(plain: Seq<u8>) -> Seq<u8> {
    plain.subrange(0, plain.len() - plain.last())
}

/// What CBC decryption followed by PKCS#7 unpadding gives.
pub open spec fn cbc_pkcs7_plain(key: Seq<u8>, iv: Seq<u8>, data: Seq<u8>) -> Result<
    Seq<u8>,
    CbcError,
> {
    if key.len() != 16 {
        Err(CbcError::KeyLength)
    } else if !pkcs7_padded(cbc_plain(key, iv, data)) {
        Err(CbcError::Padding)
    } else {
        Ok(pkcs7_unpadded(cbc_plain(key, iv, data)))
    }
}

/// Decrypts a whole buffer with `cbc::Decryptor<aes::Aes128>`
/// (`KeyIvInit::new_from_slices`, then `BlockDecryptMut::decrypt_padded_mut`).
/// Trusted: a key of another length than 16 is refused; otherwise the blocks are
/// decrypted in CBC mode, a length that is not a positive multiple of the block
/// size or a malformed PKCS#7 padding is refused, and the padding is cut off.
#[verifier::external_body]
pub(crate) fn cbc_pkcs7_decrypt(key: &[u8], iv: &[u8; 16], data: Vec<u8>) -> (plain: Result<
    Vec<u8>,
    CbcError,
>)
    ensures
        match plain {
            Ok(bytes) => cbc_pkcs7_plain(key@, iv@, data@) == Ok::<Seq<u8>, CbcError>(bytes@),
            Err(e) => cbc_pkcs7_plain(key@, iv@, data@) == Err::<Seq<u8>, CbcError>(e),
        },
{
    let mut buf = data;
    let dec = match cbc::Decryptor::<aes::Aes128>::new_from_slices(key, iv) {
        Ok(dec) => dec,
        Err(_) => return Err(CbcError::KeyLength),
    };
    match dec.decrypt_padded_mut::<Pkcs7>(&mut buf) {
        Ok(out) => Ok(out.to_vec()),
        Err(_) => Err(CbcError::Padding),
    }
}

/// Decryption goes on from block to block: what comes after whole blocks is decrypted with
/// the last of them in place of the initialisation vector.
pub proof fn law_blocks_are_chained(key: Seq<u8>, iv: Seq<u8>, first: Seq<u8>, rest: Seq<u8>)
    requires
        first.len() >= 16,
        first.len() % 16 == 0,
    ensures
        cbc_plain(key, iv, first + rest) == cbc_plain(key, iv, first) + cbc_plain(
            key,
            first.skip(first.len() - 16),
            rest,
        ),
{
    let n = first.len() as int;
    let data = first + rest;
    let after = cbc_plain(key, first.skip(n - 16), rest);
    let whole = cbc_plain(key, iv, data);
    assert forall|i: int| 0 <= i < data.len() implies whole[i] == (cbc_plain(key, iv, first)
        + after)[i] by {
        if i < n {
            assert(i / 16 * 16 + 16 <= n);
            assert(block_of(data, i / 16) =~= block_of(first, i / 16));
        } else {
            let j = i - n;
            assert(i / 16 == n / 16 + j / 16 && i % 16 == j % 16);
            assert(data.len() / 16 * 16 == n + rest.len() / 16 * 16);
            if j < rest.len() / 16 * 16 {
                assert(j / 16 * 16 + 16 <= rest.len());
                assert(i / 16 * 16 == n + j / 16 * 16);
                assert(block_of(data, i / 16) =~= block_of(rest, j / 16));
            }
        }
    }
    assert(whole =~= cbc_plain(key, iv, first) + after);
}

/// One block is decrypted and combined with the initialisation vector; less than a block
/// stays as it is.
pub proof fn law_single_blocks_use_the_vector(key: Seq<u8>, iv: Seq<u8>, data: Seq<u8>, i: int)
    ensures
        data.len() == 16 && 0 <= i < 16 ==> cbc_plain(key, iv, data)[i] == aes128_plain_block(
            key,
            data,
        )[i] ^ iv[i],
        data.len() < 16 ==> cbc_plain(key, iv, data) == data,
{
    if data.len() == 16 {
        assert(block_of(data, 0) =~= data);
    }
    if data.len() < 16 {
        assert(cbc_plain(key, iv, data) =~= data);
    }
}

/// Where the decrypted blocks are a text and a padding of `n` bytes of value `n`, from one
/// to a whole block, the text is what is handed back.
pub proof fn law_padding_is_cut_off(key: Seq<u8>, iv: Seq<u8>, data: Seq<u8>, text: Seq<u8>, n: u8)
    requires
        key.len() == 16,
        1 <= n <= 16,
        data.len() % 16 == 0,
        cbc_plain(key, iv, data) == text + Seq::new(n as nat, |i: int| n),
    ensures
        cbc_pkcs7_plain(key, iv, data) == Ok::<Seq<u8>, CbcError>(text),
{
    let plain = cbc_plain(key, iv, data);
    assert(plain.last() == n);
    assert(plain.len() == data.len());
    assert(pkcs7_unpadded(plain) =~= text);
}

/// A key of another length, no data at all, data that are not whole blocks, and blocks that
/// end in 0 or in more than a block are refused.
pub proof fn law_bad_ciphertexts_are_refused(key: Seq<u8>, iv: Seq<u8>, data: Seq<u8>)
    ensures
        key.len() != 16 ==> cbc_pkcs7_plain(key, iv, data) == Err::<Seq<u8>, CbcError>(
            CbcError::KeyLength,
        ),
        key.len() == 16 && (data.len() == 0 || data.len() % 16 != 0) ==> cbc_pkcs7_plain(
            key,
            iv,
            data,
        ) == Err::<Seq<u8>, CbcError>(CbcError::Padding),
        key.len() == 16 && data.len() > 0 && !(1 <= cbc_plain(key, iv, data).last() <= 16)
            ==> cbc_pkcs7_plain(key, iv, data) == Err::<Seq<u8>, CbcError>(CbcError::Padding),
{
}

} // verus!
