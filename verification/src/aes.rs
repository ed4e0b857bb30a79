//! AES-128 in ECB mode with PKCS#7 padding.
//!
//! The cipher is stated as in FIPS 197: bytes are elements of a field with 256
//! elements, a block is a sequence of sixteen bytes in column order. Only
//! decryption is executable; encryption exists as a specification, which
//! decryption is proved to invert.

pub mod field;

use vstd::prelude::*;

verus! {

// ---------------------------------------------------------------------------
// One block
// ---------------------------------------------------------------------------

/// The bytes of two blocks combined by exclusive or.
pub open spec fn add_round_key(s: Seq<u8>, k: Seq<u8>) -> Seq<u8> {
    Seq::new(16, |i: int| s[i] ^ k[i])
}

pub open spec fn sub_bytes(s: Seq<u8>) -> Seq<u8> {
    Seq::new(16, |i: int| field::sbox(s[i]))
}

pub open spec fn inv_sub_bytes(s: Seq<u8>) -> Seq<u8> {
    Seq::new(16, |i: int| field::inv_sbox(s[i]))
}

/// Row `i % 4` moves left by `i % 4` columns.
pub open spec fn shift_rows(s: Seq<u8>) -> Seq<u8> {
    Seq::new(16, |i: int| s[(i + 4 * (i % 4)) % 16])
}

/// Row `i % 4` moves right by `i % 4` columns.
pub open spec fn inv_shift_rows(s: Seq<u8>) -> Seq<u8> {
    Seq::new(16, |i: int| s[(i + 12 * (i % 4)) % 16])
}

/// The byte `k` rows below the byte `i`, in the same column.
pub open spec fn below(s: Seq<u8>, i: int, k: int) -> u8 {
    s[4 * (i / 4) + (i % 4 + k) % 4]
}

pub open spec fn mix_columns(s: Seq<u8>) -> Seq<u8> {
    Seq::new(16, |i: int| field::mix_byte(s[i], below(s, i, 1), below(s, i, 2), below(s, i, 3)))
}

pub open spec fn inv_mix_columns(s: Seq<u8>) -> Seq<u8> {
    Seq::new(16, |i: int| field::inv_mix_byte(s[i], below(s, i, 1), below(s, i, 2), below(s, i, 3)))
}

/// The constant of the key schedule in round `r`, counted from one.
pub open spec fn round_constant(r: nat) -> u8
    decreases r,
{
    if r <= 1 {
        1
    } else {
        field::xtime(round_constant((r - 1) as nat))
    }
}

/// Byte `i` of the round key that follows `k`.
pub open spec fn next_key_byte(k: Seq<u8>, constant: u8, i: int) -> u8
    decreases i,
{
    if i < 4 {
        k[i] ^ field::sbox(k[12 + (i + 1) % 4]) ^ (if i == 0 {
            constant
        } else {
            0
        })
    } else {
        k[i] ^ next_key_byte(k, constant, i - 4)
    }
}

/// The round key `r` of `key`.
pub open spec fn round_key(key: Seq<u8>, r: nat) -> Seq<u8>
    decreases r,
{
    if r == 0 {
        key
    } else {
        Seq::new(
            16,
            |i: int| next_key_byte(round_key(key, (r - 1) as nat), round_constant(r), i),
        )
    }
}

/// The state of encryption after the whitening and `r` full rounds.
pub open spec fn forward(key: Seq<u8>, block: Seq<u8>, r: nat) -> Seq<u8>
    decreases r,
{
    if r == 0 {
        add_round_key(block, round_key(key, 0))
    } else {
        add_round_key(
            mix_columns(shift_rows(sub_bytes(forward(key, block, (r - 1) as nat)))),
            round_key(key, r),
        )
    }
}

/// Encryption of one block.
#[verifier::opaque]
pub open spec fn encrypt_block(key: Seq<u8>, block: Seq<u8>) -> Seq<u8> {
    add_round_key(shift_rows(sub_bytes(forward(key, block, 9))), round_key(key, 10))
}

/// The block whose encryption is in state `s` after `r` full rounds.
pub open spec fn backward(key: Seq<u8>, s: Seq<u8>, r: nat) -> Seq<u8>
    decreases r,
{
    if r == 0 {
        add_round_key(s, round_key(key, 0))
    } else {
        backward(
            key,
            inv_sub_bytes(inv_shift_rows(inv_mix_columns(add_round_key(s, round_key(key, r))))),
            (r - 1) as nat,
        )
    }
}

/// Decryption of one block.
#[verifier::opaque]
pub open spec fn decrypt_block(key: Seq<u8>, block: Seq<u8>) -> Seq<u8> {
    backward(key, inv_sub_bytes(inv_shift_rows(add_round_key(block, round_key(key, 10)))), 9)
}

proof fn lemma_add_round_key_twice(s: Seq<u8>, k: Seq<u8>)
    requires
        s.len() == 16,
    ensures
        add_round_key(add_round_key(s, k), k) == s,
{
    assert forall|i: int| 0 <= i < 16 implies (s[i] ^ k[i]) ^ k[i] == s[i] by {
        let a = s[i];
        let b = k[i];
        assert((a ^ b) ^ b == a) by (bit_vector);
    }
    assert(add_round_key(add_round_key(s, k), k) =~= s);
}

/// Going down a column by `k` and then by `m` rows, counted around.
proof fn lemma_below(s: Seq<u8>, i: int, k: int, m: int)
    requires
        0 <= i < 16,
        0 <= k < 4,
        0 <= m < 4,
    ensures
        0 <= 4 * (i / 4) + (i % 4 + k) % 4 < 16,
        below(s, 4 * (i / 4) + (i % 4 + k) % 4, m) == below(s, i, (k + m) % 4),
{
    let j = 4 * (i / 4) + (i % 4 + k) % 4;
    assert(j / 4 == i / 4);
    assert(j % 4 == (i % 4 + k) % 4);
    assert((j % 4 + m) % 4 == (i % 4 + (k + m) % 4) % 4);
}

/// A column around the byte `i`, mixed or unmixed, in terms of the column before.
proof fn lemma_mixed_below(s: Seq<u8>, i: int, k: int)
    requires
        0 <= i < 16,
        0 <= k < 4,
    ensures
        below(mix_columns(s), i, k) == field::mix_byte(
            below(s, i, k),
            below(s, i, (k + 1) % 4),
            below(s, i, (k + 2) % 4),
            below(s, i, (k + 3) % 4),
        ),
        below(inv_mix_columns(s), i, k) == field::inv_mix_byte(
            below(s, i, k),
            below(s, i, (k + 1) % 4),
            below(s, i, (k + 2) % 4),
            below(s, i, (k + 3) % 4),
        ),
{
    lemma_below(s, i, k, 1);
    lemma_below(s, i, k, 2);
    lemma_below(s, i, k, 3);
}

proof fn lemma_mix_columns_inverse(s: Seq<u8>)
    requires
        s.len() == 16,
    ensures
        inv_mix_columns(mix_columns(s)) == s,
        mix_columns(inv_mix_columns(s)) == s,
{
    assert forall|i: int| 0 <= i < 16 implies inv_mix_columns(mix_columns(s))[i] == s[i]
        && mix_columns(inv_mix_columns(s))[i] == s[i] by {
        lemma_mixed_below(s, i, 1);
        lemma_mixed_below(s, i, 2);
        lemma_mixed_below(s, i, 3);
        assert(below(s, i, 0) == s[i]);
        field::lemma_mix_byte_inverse(s[i], below(s, i, 1), below(s, i, 2), below(s, i, 3));
    }
    assert(inv_mix_columns(mix_columns(s)) =~= s);
    assert(mix_columns(inv_mix_columns(s)) =~= s);
}

proof fn lemma_shift_rows_inverse(s: Seq<u8>)
    requires
        s.len() == 16,
    ensures
        inv_shift_rows(shift_rows(s)) == s,
        shift_rows(inv_shift_rows(s)) == s,
{
    assert forall|i: int| 0 <= i < 16 implies inv_shift_rows(shift_rows(s))[i] == s[i]
        && shift_rows(inv_shift_rows(s))[i] == s[i] by {
        let r = i % 4;
        let left = (i + 4 * r) % 16;
        let right = (i + 12 * r) % 16;
        assert(left % 4 == r && right % 4 == r);
        assert((left + 12 * r) % 16 == i && (right + 4 * r) % 16 == i);
    }
    assert(inv_shift_rows(shift_rows(s)) =~= s);
    assert(shift_rows(inv_shift_rows(s)) =~= s);
}

proof fn lemma_sub_bytes_inverse(s: Seq<u8>)
    requires
        s.len() == 16,
    ensures
        inv_sub_bytes(sub_bytes(s)) == s,
        sub_bytes(inv_sub_bytes(s)) == s,
{
    assert forall|i: int| 0 <= i < 16 implies inv_sub_bytes(sub_bytes(s))[i] == s[i] && sub_bytes(
        inv_sub_bytes(s),
    )[i] == s[i] by {
        field::law_sbox_inverse(s[i]);
    }
    assert(inv_sub_bytes(sub_bytes(s)) =~= s);
    assert(sub_bytes(inv_sub_bytes(s)) =~= s);
}

/// The substitution and the row shift, undone in reverse order.
proof fn lemma_sub_shift_inverse(s: Seq<u8>)
    requires
        s.len() == 16,
    ensures
        inv_sub_bytes(inv_shift_rows(shift_rows(sub_bytes(s)))) == s,
        shift_rows(sub_bytes(inv_sub_bytes(inv_shift_rows(s)))) == s,
{
    lemma_shift_rows_inverse(sub_bytes(s));
    lemma_sub_bytes_inverse(s);
    lemma_sub_bytes_inverse(inv_shift_rows(s));
    lemma_shift_rows_inverse(s);
}

proof fn lemma_forward_len(key: Seq<u8>, block: Seq<u8>, r: nat)
    ensures
        forward(key, block, r).len() == 16,
{
}

proof fn lemma_backward_len(key: Seq<u8>, s: Seq<u8>, r: nat)
    ensures
        backward(key, s, r).len() == 16,
    decreases r,
{
    if r > 0 {
        lemma_backward_len(
            key,
            inv_sub_bytes(inv_shift_rows(inv_mix_columns(add_round_key(s, round_key(key, r))))),
            (r - 1) as nat,
        );
    }
}

proof fn lemma_backward_forward(key: Seq<u8>, block: Seq<u8>, r: nat)
    requires
        block.len() == 16,
    ensures
        backward(key, forward(key, block, r), r) == block,
    decreases r,
{
    if r == 0 {
        lemma_add_round_key_twice(block, round_key(key, 0));
    } else {
        let s = forward(key, block, (r - 1) as nat);
        lemma_forward_len(key, block, (r - 1) as nat);
        let mixed = mix_columns(shift_rows(sub_bytes(s)));
        lemma_add_round_key_twice(mixed, round_key(key, r));
        lemma_mix_columns_inverse(shift_rows(sub_bytes(s)));
        lemma_sub_shift_inverse(s);
        lemma_backward_forward(key, block, (r - 1) as nat);
    }
}

proof fn lemma_forward_backward(key: Seq<u8>, s: Seq<u8>, r: nat)
    requires
        s.len() == 16,
    ensures
        forward(key, backward(key, s, r), r) == s,
    decreases r,
{
    if r == 0 {
        lemma_add_round_key_twice(s, round_key(key, 0));
    } else {
        let unkeyed = add_round_key(s, round_key(key, r));
        let unmixed = inv_mix_columns(unkeyed);
        let t = inv_sub_bytes(inv_shift_rows(unmixed));
        lemma_forward_backward(key, t, (r - 1) as nat);
        lemma_sub_shift_inverse(unmixed);
        lemma_mix_columns_inverse(unkeyed);
        lemma_add_round_key_twice(s, round_key(key, r));
    }
}

/// Decryption and encryption of a block undo each other.
pub proof fn law_block_round_trip(key: Seq<u8>, block: Seq<u8>)
    requires
        block.len() == 16,
    ensures
        decrypt_block(key, encrypt_block(key, block)) == block,
        encrypt_block(key, decrypt_block(key, block)) == block,
        encrypt_block(key, block).len() == 16,
        decrypt_block(key, block).len() == 16,
{
    reveal(encrypt_block);
    reveal(decrypt_block);
    let s = forward(key, block, 9);
    lemma_forward_len(key, block, 9);
    lemma_add_round_key_twice(shift_rows(sub_bytes(s)), round_key(key, 10));
    lemma_sub_shift_inverse(s);
    lemma_backward_forward(key, block, 9);

    let unkeyed = add_round_key(block, round_key(key, 10));
    let t = inv_sub_bytes(inv_shift_rows(unkeyed));
    lemma_backward_len(key, t, 9);
    lemma_forward_backward(key, t, 9);
    lemma_sub_shift_inverse(unkeyed);
    lemma_add_round_key_twice(block, round_key(key, 10));
}

// ---------------------------------------------------------------------------
// Messages
// ---------------------------------------------------------------------------

/// Why a message could not be decrypted.
#[derive(Clone, Copy, Debug, PartialEq, Eq, Structural)]
pub enum AesError {
    /// The length is zero or no multiple of the block size.
    Length,
    /// The last block does not end in PKCS#7 padding.
    Padding,
}

impl AesError {
    /// The message of the error.
    pub open spec fn spec_message(self) -> Seq<char> {
        match self {
            AesError::Length => "密文长度不是 16 的正整数倍"@,
            AesError::Padding => "PKCS#7 填充无效"@,
        }
    }

    /// The message of the error.
    pub fn message(self) -> (text: &'static str)
        ensures
            text@ == self.spec_message(),
    {
        match self {
            AesError::Length => "密文长度不是 16 的正整数倍",
            AesError::Padding => "PKCS#7 填充无效",
        }
    }
}

/// The block of `data` that holds the byte `i`.
pub open spec fn block_of(data: Seq<u8>, i: int) -> Seq<u8> {
    data.subrange(16 * (i / 16), 16 * (i / 16) + 16)
}

/// Encryption block by block.
pub open spec fn ecb_encrypt(key: Seq<u8>, data: Seq<u8>) -> Seq<u8> {
    Seq::new(data.len(), |i: int| encrypt_block(key, block_of(data, i))[i % 16])
}

/// Decryption block by block.
pub open spec fn ecb_decrypt(key: Seq<u8>, data: Seq<u8>) -> Seq<u8> {
    Seq::new(data.len(), |i: int| decrypt_block(key, block_of(data, i))[i % 16])
}

/// A message filled up to whole blocks: each added byte is the number of added bytes.
pub open spec fn pkcs7_pad(message: Seq<u8>) -> Seq<u8> {
    let n = 16 - message.len() % 16;
    message + Seq::new(n as nat, |i: int| n as u8)
}

/// The message before padding, if the data ends in valid padding.
pub open spec fn pkcs7_unpad(data: Seq<u8>) -> Option<Seq<u8>> {
    let n = data.last() as int;
    if 1 <= n <= 16 && n <= data.len() && (forall|i: int|
        data.len() - n <= i < data.len() ==> data[i] == n) {
        Some(data.take(data.len() - n))
    } else {
        None
    }
}

/// What a ciphertext holds under `key`.
pub open spec fn decrypted(key: Seq<u8>, data: Seq<u8>) -> Result<Seq<u8>, AesError> {
    if data.len() == 0 || data.len() % 16 != 0 {
        Err(AesError::Length)
    } else {
        match pkcs7_unpad(ecb_decrypt(key, data)) {
            Some(message) => Ok(message),
            None => Err(AesError::Padding),
        }
    }
}

/// The blocks of the encrypted and of the decrypted data.
proof fn lemma_ecb_blocks(key: Seq<u8>, data: Seq<u8>, i: int)
    requires
        data.len() % 16 == 0,
        0 <= i < data.len(),
    ensures
        block_of(ecb_encrypt(key, data), i) == encrypt_block(key, block_of(data, i)),
        block_of(ecb_decrypt(key, data), i) == decrypt_block(key, block_of(data, i)),
{
    let b = i / 16;
    let block = block_of(data, i);
    law_block_round_trip(key, block);
    assert forall|j: int| 16 * b <= j < 16 * b + 16 implies #[trigger] block_of(data, j)
        == block by {
        assert(j / 16 == b);
    }
    assert forall|k: int| 0 <= k < 16 implies block_of(ecb_encrypt(key, data), i)[k]
        == encrypt_block(key, block)[k] && block_of(ecb_decrypt(key, data), i)[k] == decrypt_block(
        key,
        block,
    )[k] by {
        let j = 16 * b + k;
        assert(block_of(data, j) == block);
        assert(j % 16 == k);
    }
    assert(block_of(ecb_encrypt(key, data), i) =~= encrypt_block(key, block));
    assert(block_of(ecb_decrypt(key, data), i) =~= decrypt_block(key, block));
}

proof fn lemma_ecb_inverse(key: Seq<u8>, data: Seq<u8>)
    requires
        data.len() % 16 == 0,
    ensures
        ecb_decrypt(key, ecb_encrypt(key, data)) == data,
        ecb_encrypt(key, ecb_decrypt(key, data)) == data,
{
    let locked = ecb_encrypt(key, data);
    let opened = ecb_decrypt(key, data);
    assert forall|i: int| 0 <= i < data.len() implies ecb_decrypt(key, locked)[i] == data[i]
        && ecb_encrypt(key, opened)[i] == data[i] by {
        lemma_ecb_blocks(key, data, i);
        law_block_round_trip(key, block_of(data, i));
        assert(block_of(data, i)[i % 16] == data[i]);
    }
    assert(ecb_decrypt(key, locked) =~= data);
    assert(ecb_encrypt(key, opened) =~= data);
}

/// Blocks are treated one by one: what whole blocks become does not depend on
/// what follows them, nor the other way round.
pub proof fn law_blocks_are_independent(key: Seq<u8>, head: Seq<u8>, rest: Seq<u8>)
    requires
        head.len() % 16 == 0,
        rest.len() % 16 == 0,
    ensures
        ecb_decrypt(key, head + rest) == ecb_decrypt(key, head) + ecb_decrypt(key, rest),
        ecb_encrypt(key, head + rest) == ecb_encrypt(key, head) + ecb_encrypt(key, rest),
{
    let whole = head + rest;
    let n = head.len() as int;
    assert forall|i: int| 0 <= i < n implies #[trigger] block_of(whole, i) == block_of(head, i) by {
        assert(block_of(whole, i) =~= block_of(head, i));
    }
    assert forall|i: int| n <= i < whole.len() implies #[trigger] block_of(whole, i) == block_of(
        rest,
        i - n,
    ) && i % 16 == (i - n) % 16 by {
        assert(16 * (i / 16) - n == 16 * ((i - n) / 16));
        assert(block_of(whole, i) =~= block_of(rest, i - n));
    }
    assert(ecb_decrypt(key, whole) =~= ecb_decrypt(key, head) + ecb_decrypt(key, rest));
    assert(ecb_encrypt(key, whole) =~= ecb_encrypt(key, head) + ecb_encrypt(key, rest));
}

/// One block by itself is decrypted as a block, and as many bytes come out as go
/// in.
pub proof fn law_single_block(key: Seq<u8>, block: Seq<u8>, data: Seq<u8>)
    requires
        block.len() == 16,
    ensures
        ecb_decrypt(key, block) == decrypt_block(key, block),
        ecb_encrypt(key, block) == encrypt_block(key, block),
        ecb_decrypt(key, data).len() == data.len(),
{
    law_block_round_trip(key, block);
    assert forall|i: int| 0 <= i < 16 implies #[trigger] block_of(block, i) == block by {
        assert(block_of(block, i) =~= block);
    }
    assert(ecb_decrypt(key, block) =~= decrypt_block(key, block));
    assert(ecb_encrypt(key, block) =~= encrypt_block(key, block));
}

/// Padding fills up to a whole number of blocks with one to sixteen bytes, each
/// of which is their number, and leaves the message in front of them as it is.
pub proof fn law_padding(message: Seq<u8>)
    ensures
        ({
            let padded = pkcs7_pad(message);
            let n = padded.len() - message.len();
            &&& padded.len() % 16 == 0
            &&& 1 <= n <= 16
            &&& padded.take(message.len() as int) == message
            &&& forall|i: int| message.len() <= i < padded.len() ==> #[trigger] padded[i] == n
        }),
{
    assert(pkcs7_pad(message).take(message.len() as int) =~= message);
}

/// A ciphertext is refused for its length exactly if it is empty or has no whole
/// number of blocks, and else for its padding exactly if it is the encryption of
/// no padded message.
pub proof fn law_refused_ciphertexts(key: Seq<u8>, data: Seq<u8>)
    ensures
        decrypted(key, data) == Err::<Seq<u8>, AesError>(AesError::Length) <==> data.len() == 0
            || data.len() % 16 != 0,
        decrypted(key, data) is Ok <==> exists|message: Seq<u8>|
            data == ecb_encrypt(key, #[trigger] pkcs7_pad(message)),
{
    if decrypted(key, data) is Ok {
        law_accepted_is_encrypted(key, data);
        let message = decrypted(key, data)->Ok_0;
        assert(data == ecb_encrypt(key, pkcs7_pad(message)));
    }
    if exists|message: Seq<u8>| data == ecb_encrypt(key, #[trigger] pkcs7_pad(message)) {
        let message = choose|message: Seq<u8>|
            data == ecb_encrypt(key, #[trigger] pkcs7_pad(message));
        law_decrypt_inverts_encrypt(key, message);
    }
}

/// The rows of a block of four by four bytes, in columns: row `r` moves left by
/// `r` columns, counted around.
pub proof fn law_rows_move(s: Seq<u8>, row: int, column: int)
    requires
        0 <= row < 4,
        0 <= column < 4,
    ensures
        shift_rows(s)[4 * column + row] == s[4 * ((column + row) % 4) + row],
        inv_shift_rows(s)[4 * ((column + row) % 4) + row] == s[4 * column + row],
{
    let i = 4 * column + row;
    assert(i % 4 == row);
    assert((i + 4 * row) % 16 == 4 * ((column + row) % 4) + row);
    let k = 4 * ((column + row) % 4) + row;
    assert(k % 4 == row);
    assert((k + 12 * row) % 16 == i);
}

/// Each byte of a column becomes the sum of twice itself, three times the byte
/// below it, and the two others, counted around.
pub proof fn law_columns_mix(s: Seq<u8>, row: int, column: int)
    requires
        0 <= row < 4,
        0 <= column < 4,
    ensures
        mix_columns(s)[4 * column + row] == field::gf_mul(s[4 * column + row], 2) ^ field::gf_mul(
            s[4 * column + (row + 1) % 4],
            3,
        ) ^ s[4 * column + (row + 2) % 4] ^ s[4 * column + (row + 3) % 4],
{
    reveal(field::mix_byte);
    let i = 4 * column + row;
    assert(i / 4 == column && i % 4 == row);
}

/// The constants of the ten rounds.
proof fn lemma_round_constants(r: nat)
    requires
        1 <= r <= 10,
    ensures
        round_constant(r) == seq![1u8, 2, 4, 8, 16, 32, 64, 128, 27, 54][r - 1],
{
    reveal_with_fuel(round_constant, 11);
    assert(field::xtime(1) == 2 && field::xtime(2) == 4 && field::xtime(4) == 8 && field::xtime(8)
        == 16 && field::xtime(16) == 32 && field::xtime(32) == 64 && field::xtime(64) == 128
        && field::xtime(128) == 27 && field::xtime(27) == 54) by (bit_vector);
}

/// The round keys: the first is the key. In each of the ten that follow, a byte is
/// that of the key before, combined with the byte four places in front of it;
/// for the first four bytes that is a substituted one of the last four bytes of
/// the key before, turned by one, and for the very first also the constant of the
/// round.
pub proof fn law_round_keys(key: Seq<u8>, r: nat, i: int)
    requires
        1 <= r <= 10,
        0 <= i < 16,
    ensures
        round_key(key, 0) == key,
        ({
            let before = round_key(key, (r - 1) as nat);
            let constant = seq![1u8, 2, 4, 8, 16, 32, 64, 128, 27, 54][r - 1];
            round_key(key, r)[i] == (if i >= 4 {
                before[i] ^ round_key(key, r)[i - 4]
            } else {
                before[i] ^ field::sbox(before[12 + (i + 1) % 4]) ^ (if i == 0 {
                    constant
                } else {
                    0
                })
            })
        }),
{
    lemma_round_constants(r);
}

proof fn lemma_states(key: Seq<u8>, block: Seq<u8>, states: Seq<Seq<u8>>, r: nat)
    requires
        states.len() == 10,
        states[0] == add_round_key(block, key),
        forall|k: int|
            0 <= k < 9 ==> #[trigger] is_round(key, states, k),
        r <= 9,
    ensures
        forward(key, block, r) == states[r as int],
    decreases r,
{
    if r > 0 {
        lemma_states(key, block, states, (r - 1) as nat);
        assert(is_round(key, states, r - 1));
    }
}

/// Whether a full round leads from state `k` to the next: substitute, move the
/// rows, mix the columns, and combine with the round key.
pub open spec fn is_round(key: Seq<u8>, states: Seq<Seq<u8>>, k: int) -> bool {
    states[k + 1] == add_round_key(
        mix_columns(shift_rows(sub_bytes(states[k]))),
        round_key(key, (k + 1) as nat),
    )
}

/// Encryption of a block: combine with the key, nine full rounds, and a tenth
/// without the mixing. Bytes are combined by exclusive or.
pub proof fn law_ten_rounds(key: Seq<u8>, block: Seq<u8>, states: Seq<Seq<u8>>, i: int)
    requires
        block.len() == 16,
        states.len() == 10,
        states[0].len() == 16,
        forall|k: int| 0 <= k < 16 ==> #[trigger] states[0][k] == block[k] ^ key[k],
        forall|k: int| 0 <= k < 9 ==> #[trigger] is_round(key, states, k),
        0 <= i < 16,
    ensures
        encrypt_block(key, block)[i] == field::sbox(states[9][(i + 4 * (i % 4)) % 16]) ^ round_key(
            key,
            10,
        )[i],
{
    reveal(encrypt_block);
    assert(states[0] =~= add_round_key(block, key));
    lemma_states(key, block, states, 9);
}

/// A message that was padded and encrypted is decrypted to itself.
pub proof fn law_decrypt_inverts_encrypt(key: Seq<u8>, message: Seq<u8>)
    ensures
        decrypted(key, ecb_encrypt(key, pkcs7_pad(message))) == Ok::<Seq<u8>, AesError>(message),
{
    let padded = pkcs7_pad(message);
    lemma_ecb_inverse(key, padded);
    assert(padded.take(message.len() as int) =~= message);
}

/// A ciphertext that is accepted is the encryption of the padded message that
/// comes out, so no two ciphertexts decrypt to one message.
pub proof fn law_accepted_is_encrypted(key: Seq<u8>, data: Seq<u8>)
    requires
        decrypted(key, data) is Ok,
    ensures
        data == ecb_encrypt(key, pkcs7_pad(decrypted(key, data)->Ok_0)),
{
    lemma_ecb_inverse(key, data);
    let opened = ecb_decrypt(key, data);
    let message = pkcs7_unpad(opened)->Some_0;
    assert(pkcs7_pad(message) =~= opened);
}

/// A key made ready for decryption.
struct Schedule {
    round_keys: Vec<[u8; 16]>,
    inv_table: Vec<u8>,
}

/// The byte-wise exclusive or of two blocks.
fn xor_block(a: &[u8; 16], b: &[u8; 16]) -> (out: [u8; 16])
    ensures
        out@ == add_round_key(a@, b@),
{
    let mut out: [u8; 16] = [0u8; 16];
    let mut i: usize = 0;
    while i < 16
        invariant
            i <= 16,
            forall|k: int| 0 <= k < i ==> out@[k] == a@[k] ^ b@[k],
        decreases 16 - i,
    {
        out[i] = a[i] ^ b[i];
        i = i + 1;
    }
    assert(out@ =~= add_round_key(a@, b@));
    out
}

/// The round key after `k`.
fn next_round_key(k: &[u8; 16], constant: u8) -> (out: [u8; 16])
    ensures
        out@ == Seq::new(16, |i: int| next_key_byte(k@, constant, i)),
{
    let mut out: [u8; 16] = [0u8; 16];
    let mut i: usize = 0;
    while i < 16
        invariant
            i <= 16,
            forall|j: int| 0 <= j < i ==> out@[j] == next_key_byte(k@, constant, j),
        decreases 16 - i,
    {
        if i < 4 {
            let turned: u8 = field::substitute(k[12 + (i + 1) % 4]);
            out[i] = k[i] ^ turned ^ (if i == 0 {
                constant
            } else {
                0
            });
        } else {
            let above: u8 = out[i - 4];
            out[i] = k[i] ^ above;
        }
        i = i + 1;
    }
    assert(out@ =~= Seq::new(16, |i: int| next_key_byte(k@, constant, i)));
    out
}

/// Undoes the mixing of the columns.
fn unmix(s: &[u8; 16]) -> (out: [u8; 16])
    ensures
        out@ == inv_mix_columns(s@),
{
    let mut out: [u8; 16] = [0u8; 16];
    let mut i: usize = 0;
    while i < 16
        invariant
            i <= 16,
            forall|j: int| 0 <= j < i ==> out@[j] == inv_mix_columns(s@)[j],
        decreases 16 - i,
    {
        let top: usize = 4 * (i / 4);
        let row: usize = i % 4;
        out[i] = field::inverse_mix(
            s[i],
            s[top + (row + 1) % 4],
            s[top + (row + 2) % 4],
            s[top + (row + 3) % 4],
        );
        i = i + 1;
    }
    assert(out@ =~= inv_mix_columns(s@));
    out
}

impl Schedule {
    /// Whether the tables belong to `key`.
    spec fn serves(self, key: Seq<u8>) -> bool {
        &&& self.round_keys@.len() == 11
        &&& forall|r: int|
            0 <= r < 11 ==> (#[trigger] self.round_keys@[r])@ == round_key(key, r as nat)
        &&& self.inv_table@.len() == 256
        &&& forall|b: int|
            0 <= b < 256 ==> #[trigger] self.inv_table@[b] == field::inv_sbox(b as u8)
    }

    fn new(key: &[u8; 16]) -> (schedule: Self)
        ensures
            schedule.serves(key@),
    {
        let mut round_keys: Vec<[u8; 16]> = Vec::new();
        round_keys.push(*key);
        let mut constant: u8 = 1;
        let mut r: usize = 1;
        while r < 11
            invariant
                1 <= r <= 11,
                round_keys@.len() == r,
                constant == round_constant(r as nat),
                forall|q: int|
                    0 <= q < r ==> (#[trigger] round_keys@[q])@ == round_key(key@, q as nat),
            decreases 11 - r,
        {
            let next: [u8; 16] = next_round_key(&round_keys[r - 1], constant);
            assert(next@ =~= round_key(key@, r as nat));
            round_keys.push(next);
            constant = field::times_x(constant);
            r = r + 1;
        }
        let mut inv_table: Vec<u8> = Vec::new();
        let mut b: usize = 0;
        while b < 256
            invariant
                b <= 256,
                inv_table@.len() == b,
                forall|c: int| 0 <= c < b ==> #[trigger] inv_table@[c] == field::inv_sbox(c as u8),
            decreases 256 - b,
        {
            inv_table.push(field::inverse_substitute(b as u8));
            b = b + 1;
        }
        Schedule { round_keys, inv_table }
    }

    /// Undoes the row shift and the substitution.
    fn unsubstitute(&self, s: &[u8; 16], Ghost(key): Ghost<Seq<u8>>) -> (out: [u8; 16])
        requires
            self.serves(key),
        ensures
            out@ == inv_sub_bytes(inv_shift_rows(s@)),
    {
        let mut out: [u8; 16] = [0u8; 16];
        let mut i: usize = 0;
        while i < 16
            invariant
                i <= 16,
                self.serves(key),
                forall|j: int| 0 <= j < i ==> out@[j] == inv_sub_bytes(inv_shift_rows(s@))[j],
            decreases 16 - i,
        {
            let byte: u8 = s[(i + 12 * (i % 4)) % 16];
            out[i] = self.inv_table[byte as usize];
            i = i + 1;
        }
        assert(out@ =~= inv_sub_bytes(inv_shift_rows(s@)));
        out
    }

    fn decrypt_block(&self, block: &[u8; 16], Ghost(key): Ghost<Seq<u8>>) -> (out: [u8; 16])
        requires
            self.serves(key),
        ensures
            out@ == decrypt_block(key, block@),
    {
        proof {
            reveal(decrypt_block);
        }
        let whitened: [u8; 16] = xor_block(block, &self.round_keys[10]);
        let mut s: [u8; 16] = self.unsubstitute(&whitened, Ghost(key));
        let mut r: usize = 9;
        while r > 0
            invariant
                r <= 9,
                self.serves(key),
                backward(key, s@, r as nat) == decrypt_block(key, block@),
            decreases r,
        {
            let unkeyed: [u8; 16] = xor_block(&s, &self.round_keys[r]);
            let unmixed: [u8; 16] = unmix(&unkeyed);
            s = self.unsubstitute(&unmixed, Ghost(key));
            r = r - 1;
        }
        xor_block(&s, &self.round_keys[0])
    }
}

/// Decrypts a message: AES-128, block by block, with PKCS#7 padding checked
/// and removed.
pub fn decrypt_ecb_pkcs7(key: &[u8; 16], data: &[u8]) -> (message: Result<Vec<u8>, AesError>)
    ensures
        match message {
            Ok(m) => decrypted(key@, data@) == Ok::<Seq<u8>, AesError>(m@),
            Err(e) => decrypted(key@, data@) == Err::<Seq<u8>, AesError>(e),
        },
{
    if data.len() == 0 || data.len() % 16 != 0 {
        return Err(AesError::Length);
    }
    let schedule: Schedule = Schedule::new(key);
    let mut out: Vec<u8> = Vec::with_capacity(data.len());
    let mut start: usize = 0;
    while start < data.len()
        invariant
            start <= data.len(),
            start % 16 == 0,
            data.len() % 16 == 0,
            schedule.serves(key@),
            out@.len() == start,
            forall|i: int| 0 <= i < start ==> #[trigger] out@[i] == ecb_decrypt(key@, data@)[i],
        decreases data.len() - start,
    {
        let mut block: [u8; 16] = [0u8; 16];
        let mut i: usize = 0;
        while i < 16
            invariant
                i <= 16,
                start + 16 <= data.len(),
                forall|k: int| 0 <= k < i ==> block@[k] == data@[start + k],
            decreases 16 - i,
        {
            block[i] = data[start + i];
            i = i + 1;
        }
        assert(block@ =~= block_of(data@, start as int));
        let opened: [u8; 16] = schedule.decrypt_block(&block, Ghost(key@));
        i = 0;
        while i < 16
            invariant
                i <= 16,
                start % 16 == 0,
                start + 16 <= data.len(),
                opened@ == decrypt_block(key@, block_of(data@, start as int)),
                out@.len() == start + i,
                forall|k: int|
                    0 <= k < start + i ==> #[trigger] out@[k] == ecb_decrypt(key@, data@)[k],
            decreases 16 - i,
        {
            assert(block_of(data@, start + i) == block_of(data@, start as int));
            out.push(opened[i]);
            i = i + 1;
        }
        start = start + 16;
    }
    assert(out@ =~= ecb_decrypt(key@, data@));
    let n: usize = out[out.len() - 1] as usize;
    if n == 0 || n > 16 {
        return Err(AesError::Padding);
    }
    let kept: usize = out.len() - n;
    let mut i: usize = kept;
    while i < out.len()
        invariant
            kept <= i <= out.len(),
            kept == out.len() - n,
            1 <= n <= 16,
            n == out@.last(),
            out@ == ecb_decrypt(key@, data@),
            data@.len() > 0,
            data@.len() % 16 == 0,
            forall|k: int| kept <= k < i ==> out@[k] == n,
        decreases out.len() - i,
    {
        if out[i] as usize != n {
            return Err(AesError::Padding);
        }
        i = i + 1;
    }
    out.truncate(kept);
    Ok(out)
}

} // verus!
