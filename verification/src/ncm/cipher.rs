//! The stream cipher over the audio.
//!
//! The stream key shuffles a table of all byte values. The key stream is read
//! from the table by position alone: nothing changes while it is used.

use vstd::prelude::*;

verus! {

/// A table with the entries `i` and `j` exchanged.
pub open spec fn swapped(table: Seq<u8>, i: int, j: int) -> Seq<u8> {
    table.update(i, table[j]).update(j, table[i])
}

/// The table that holds every byte value at its own index.
pub open spec fn identity_table() -> Seq<u8> {
    Seq::new(256, |i: int| i as u8)
}

/// The index that step `i` of the shuffle exchanges with `i`, after the index `j`.
pub open spec fn next_index(table: Seq<u8>, j: int, key: Seq<u8>, i: int) -> int {
    (j + table[i] + key[i % (key.len() as int)]) % 256
}

/// The table after `n` steps of the shuffle, and the index last exchanged.
pub open spec fn shuffled(key: Seq<u8>, n: nat) -> (Seq<u8>, int)
    decreases n,
{
    if n == 0 {
        (identity_table(), 0)
    } else {
        let (table, j) = shuffled(key, (n - 1) as nat);
        let k = next_index(table, j, key, n - 1);
        (swapped(table, n - 1, k), k)
    }
}

/// The table of a stream key.
pub open spec fn key_table(key: Seq<u8>) -> Seq<u8> {
    shuffled(key, 256).0
}

/// The byte of the key stream at `position`.
pub open spec fn key_byte(table: Seq<u8>, position: int) -> u8 {
    let j = (position + 1) % 256;
    let a = table[j] as int;
    let b = table[(a + j) % 256] as int;
    table[(a + b) % 256]
}

/// `bytes` under the key stream that starts at `offset`.
pub open spec fn applied(table: Seq<u8>, bytes: Seq<u8>, offset: int) -> Seq<u8> {
    Seq::new(bytes.len(), |i: int| bytes[i] ^ key_byte(table, offset + i))
}

/// Whether a table holds every byte value exactly once.
pub open spec fn is_permutation(table: Seq<u8>) -> bool {
    &&& table.len() == 256
    &&& table.no_duplicates()
    &&& forall|b: u8| #[trigger] table.contains(b)
}

proof fn lemma_swap_keeps_permutation(table: Seq<u8>, i: int, j: int)
    requires
        is_permutation(table),
        0 <= i < 256,
        0 <= j < 256,
    ensures
        is_permutation(swapped(table, i, j)),
{
    let out = swapped(table, i, j);
    assert forall|b: u8| #[trigger] out.contains(b) by {
        assert(table.contains(b));
        let k = choose|k: int| 0 <= k < table.len() && table[k] == b;
        if k == i {
            assert(out[j] == b);
        } else if k == j {
            assert(out[i] == b);
        } else {
            assert(out[k] == b);
        }
    }
}

proof fn lemma_shuffled(key: Seq<u8>, n: nat)
    requires
        key.len() > 0,
        n <= 256,
    ensures
        is_permutation(shuffled(key, n).0),
        0 <= shuffled(key, n).1 < 256,
    decreases n,
{
    if n == 0 {
        let table = identity_table();
        assert forall|b: u8| #[trigger] table.contains(b) by {
            assert(table[b as int] == b);
        }
    } else {
        lemma_shuffled(key, (n - 1) as nat);
        let (table, j) = shuffled(key, (n - 1) as nat);
        let k = next_index(table, j, key, n - 1);
        lemma_swap_keeps_permutation(table, n - 1, k);
    }
}

/// Every stream key gives a table that holds each byte value exactly once.
pub proof fn law_table_is_permutation(key: Seq<u8>)
    requires
        key.len() > 0,
    ensures
        is_permutation(key_table(key)),
{
    lemma_shuffled(key, 256);
}

proof fn lemma_same_shuffle(key: Seq<u8>, other: Seq<u8>, n: nat)
    requires
        key.len() > 0,
        other.len() > 0,
        n <= 256,
        forall|i: int|
            0 <= i < 256 ==> #[trigger] key[i % (key.len() as int)] == other[i % (
            other.len() as int)],
    ensures
        shuffled(key, n) == shuffled(other, n),
    decreases n,
{
    if n > 0 {
        lemma_same_shuffle(key, other, (n - 1) as nat);
        assert(key[(n - 1) % (key.len() as int)] == other[(n - 1) % (other.len() as int)]);
    }
}

/// A key is repeated as often as it takes: two keys that agree in the first 256
/// bytes of their repetitions give one table.
pub proof fn law_key_repeats(key: Seq<u8>, other: Seq<u8>)
    requires
        key.len() > 0,
        other.len() > 0,
        forall|i: int|
            0 <= i < 256 ==> #[trigger] key[i % (key.len() as int)] == other[i % (
            other.len() as int)],
    ensures
        key_table(key) == key_table(other),
{
    lemma_same_shuffle(key, other, 256);
}

/// The indices that a key exchanges in the 256 steps of its shuffle.
pub open spec fn exchanges(key: Seq<u8>) -> Seq<int> {
    Seq::new(256, |i: int| shuffled(key, (i + 1) as nat).1)
}

proof fn lemma_same_exchanges(key: Seq<u8>, other: Seq<u8>, n: nat)
    requires
        key.len() > 0,
        other.len() > 0,
        n <= 256,
        exchanges(key) == exchanges(other),
    ensures
        shuffled(key, n) == shuffled(other, n),
        forall|i: int|
            0 <= i < n ==> #[trigger] key[i % (key.len() as int)] == other[i % (
            other.len() as int)],
    decreases n,
{
    if n > 0 {
        lemma_same_exchanges(key, other, (n - 1) as nat);
        lemma_shuffled(key, (n - 1) as nat);
        let i = n - 1;
        assert(exchanges(key)[i] == exchanges(other)[i]);
        assert(exchanges(key)[i] == shuffled(key, n).1);
        assert(exchanges(other)[i] == shuffled(other, n).1);
        let (table, j) = shuffled(key, (n - 1) as nat);
        assert(shuffled(other, (n - 1) as nat) == (table, j));
        assert(shuffled(key, n).1 == next_index(table, j, key, i));
        assert(shuffled(other, n).1 == next_index(table, j, other, i));
        let x = key[i % (key.len() as int)];
        let y = other[i % (other.len() as int)];
        assert((j + table[i] + x) % 256 == (j + table[i] + y) % 256);
        assert(x == y);
    }
}

/// Every one of the first 256 bytes of a repeated key takes part in the shuffle:
/// two keys that exchange the same indices agree in all of them.
#[verifier::rlimit(40)]
pub proof fn law_every_key_byte_takes_part(key: Seq<u8>, other: Seq<u8>)
    requires
        key.len() > 0,
        other.len() > 0,
        exchanges(key) == exchanges(other),
    ensures
        forall|i: int|
            0 <= i < 256 ==> #[trigger] key[i % (key.len() as int)] == other[i % (
            other.len() as int)],
        key.len() == other.len() && key.len() <= 256 ==> key == other,
{
    lemma_same_exchanges(key, other, 256);
    if key.len() == other.len() && key.len() <= 256 {
        assert forall|i: int| 0 <= i < key.len() implies key[i] == other[i] by {
            vstd::arithmetic::div_mod::lemma_small_mod(i as nat, key.len());
            assert(key[i % (key.len() as int)] == other[i % (other.len() as int)]);
        }
        assert(key =~= other);
    }
}

/// Whether `after` is `before` with the entries `i` and `j` exchanged.
pub open spec fn are_exchanged(before: Seq<u8>, after: Seq<u8>, i: int, j: int) -> bool {
    &&& after.len() == before.len()
    &&& after[i] == before[j]
    &&& after[j] == before[i]
    &&& forall|k: int|
        0 <= k < before.len() && k != i && k != j ==> #[trigger] after[k] == before[k]
}

/// Whether exchange `i` leads from one table to the next: that of entry `i` with
/// the one whose index is the sum of the last index, of entry `i` and of byte `i`
/// of the repeated key, counted around in 256.
pub open spec fn is_exchange(
    key: Seq<u8>,
    tables: Seq<Seq<u8>>,
    indices: Seq<int>,
    i: int,
) -> bool {
    &&& indices[i + 1] == (indices[i] + tables[i][i] + key[i % (key.len() as int)]) % 256
    &&& are_exchanged(tables[i], tables[i + 1], i, indices[i + 1])
}

proof fn lemma_exchanges_lead_to(
    key: Seq<u8>,
    tables: Seq<Seq<u8>>,
    indices: Seq<int>,
    n: nat,
)
    requires
        key.len() > 0,
        n <= 256,
        tables.len() == 257,
        indices.len() == 257,
        tables[0].len() == 256,
        forall|k: int| 0 <= k < 256 ==> #[trigger] tables[0][k] == k,
        indices[0] == 0,
        forall|i: int| 0 <= i < 256 ==> #[trigger] is_exchange(key, tables, indices, i),
    ensures
        shuffled(key, n) == (tables[n as int], indices[n as int]),
    decreases n,
{
    if n == 0 {
        assert(tables[0] =~= identity_table());
    } else {
        let i = n - 1;
        lemma_exchanges_lead_to(key, tables, indices, (n - 1) as nat);
        lemma_shuffled(key, (n - 1) as nat);
        assert(is_exchange(key, tables, indices, i));
        assert(tables[i + 1] =~= swapped(tables[i], i, indices[i + 1]));
    }
}

/// The table of a key is what 256 exchanges make of all byte values in their
/// order, one after the other.
#[verifier::rlimit(40)]
pub proof fn law_table_comes_from_exchanges(
    key: Seq<u8>,
    tables: Seq<Seq<u8>>,
    indices: Seq<int>,
)
    requires
        key.len() > 0,
        tables.len() == 257,
        indices.len() == 257,
        tables[0].len() == 256,
        forall|k: int| 0 <= k < 256 ==> #[trigger] tables[0][k] == k,
        indices[0] == 0,
        forall|i: int| 0 <= i < 256 ==> #[trigger] is_exchange(key, tables, indices, i),
    ensures
        key_table(key) == tables[256],
        exchanges(key) == indices.skip(1),
{
    lemma_exchanges_lead_to(key, tables, indices, 256);
    assert forall|i: int| 0 <= i < 256 implies exchanges(key)[i] == #[trigger] indices.skip(1)[i] by {
        lemma_exchanges_lead_to(key, tables, indices, (i + 1) as nat);
    }
    assert(exchanges(key) =~= indices.skip(1));
}

/// A key written twice in a row gives the table of the key.
pub proof fn law_doubled_key(key: Seq<u8>)
    requires
        key.len() > 0,
    ensures
        key_table(key + key) == key_table(key),
{
    let n = key.len() as int;
    let twice = key + key;
    assert forall|i: int| 0 <= i < 256 implies #[trigger] key[i % n] == twice[i % (
    twice.len() as int)] by {
        let r = i % (2 * n);
        vstd::arithmetic::div_mod::lemma_mod_mod(i, n, 2);
        vstd::arithmetic::div_mod::lemma_mod_bound(i, 2 * n);
        assert(n * 2 == 2 * n);
        assert(r % n == i % n);
        if r < n {
            vstd::arithmetic::div_mod::lemma_small_mod(r as nat, n as nat);
        } else {
            vstd::arithmetic::div_mod::lemma_small_mod((r - n) as nat, n as nat);
            vstd::arithmetic::div_mod::lemma_mod_sub_multiples_vanish(r, n);
        }
    }
    law_key_repeats(key, twice);
}

/// Data treated in two parts, the second at its own offset, comes out as data
/// treated at once.
pub proof fn law_chunk_independence(table: Seq<u8>, first: Seq<u8>, second: Seq<u8>, offset: int)
    ensures
        applied(table, first + second, offset) == applied(table, first, offset) + applied(
            table,
            second,
            offset + first.len(),
        ),
{
    assert(applied(table, first + second, offset) =~= applied(table, first, offset) + applied(
        table,
        second,
        offset + first.len(),
    ));
}

/// Chunks treated one after the other, each at its own offset.
pub open spec fn applied_in_chunks(table: Seq<u8>, chunks: Seq<Seq<u8>>, offset: int) -> Seq<u8>
    decreases chunks.len(),
{
    if chunks.len() == 0 {
        seq![]
    } else {
        applied(table, chunks.first(), offset) + applied_in_chunks(
            table,
            chunks.drop_first(),
            offset + chunks.first().len(),
        )
    }
}

/// However data is cut into chunks, it comes out as data treated at once.
pub proof fn law_any_chunks(table: Seq<u8>, chunks: Seq<Seq<u8>>, offset: int)
    ensures
        applied_in_chunks(table, chunks, offset) == applied(table, chunks.flatten(), offset),
    decreases chunks.len(),
{
    if chunks.len() == 0 {
        assert(applied(table, chunks.flatten(), offset) =~= seq![]);
    } else {
        let rest = chunks.drop_first();
        law_any_chunks(table, rest, offset + chunks.first().len());
        law_chunk_independence(table, chunks.first(), rest.flatten(), offset);
    }
}

/// The cipher applied twice at one offset gives the data back.
pub proof fn law_involution(table: Seq<u8>, bytes: Seq<u8>, offset: int)
    ensures
        applied(table, applied(table, bytes, offset), offset) == bytes,
{
    assert forall|i: int| 0 <= i < bytes.len() implies applied(
        table,
        applied(table, bytes, offset),
        offset,
    )[i] == bytes[i] by {
        let a = bytes[i];
        let k = key_byte(table, offset + i);
        assert((a ^ k) ^ k == a) by (bit_vector);
    }
    assert(applied(table, applied(table, bytes, offset), offset) =~= bytes);
}

/// Each byte is combined with an entry of the table that is found in two steps.
/// With `j` one more than the position of the byte, counted around in 256: entry
/// `j` is `a`, the entry `a` places behind `j` is `b`, and the entry at the sum of
/// `a` and `b` is the one.
pub proof fn law_key_stream(table: Seq<u8>, bytes: Seq<u8>, offset: int, i: int, a: u8, b: u8)
    requires
        table.len() == 256,
        0 <= i < bytes.len(),
        table[(offset + i + 1) % 256] == a,
        table[((offset + i + 1) % 256 + a) % 256] == b,
    ensures
        applied(table, bytes, offset).len() == bytes.len(),
        applied(table, bytes, offset)[i] == bytes[i] ^ table[(a + b) % 256],
{
}

proof fn lemma_around(n: int, r: int, q: int)
    requires
        n == 256 * q + r,
        0 <= r < 256,
    ensures
        n % 256 == r,
{
}

proof fn lemma_shifts_add_up(m: int, shift: int)
    ensures
        ({
            let j = m % 256;
            let a = (j + shift) % 256;
            let b = ((a + j) % 256 + shift) % 256;
            ((a + b) % 256 + shift) % 256 == (3 * m + 4 * shift) % 256
        }),
{
    let j = m % 256;
    let a = (j + shift) % 256;
    let x = (a + j) % 256;
    let b = (x + shift) % 256;
    let y = (a + b) % 256;
    let k = (y + shift) % 256;
    let q = (y + shift) / 256 + (a + b) / 256 + (x + shift) / 256 + (a + j) / 256 + 2 * ((j + shift)
        / 256) + 3 * (m / 256);
    assert(y + shift == 256 * ((y + shift) / 256) + k);
    assert(a + b == 256 * ((a + b) / 256) + y);
    assert(x + shift == 256 * ((x + shift) / 256) + b);
    assert(a + j == 256 * ((a + j) / 256) + x);
    assert(j + shift == 256 * ((j + shift) / 256) + a);
    assert(m == 256 * (m / 256) + j);
    lemma_around(3 * m + 4 * shift, k, q);
}

/// The key stream of a table that is all byte values in their order, moved on by
/// `shift`: at every position it is three times one more than the position, and
/// four times `shift`.
#[verifier::rlimit(40)]
pub proof fn law_key_stream_of_shifted_table(table: Seq<u8>, shift: int, n: nat, offset: int, i: int)
    requires
        table.len() == 256,
        forall|k: int| 0 <= k < 256 ==> #[trigger] table[k] == (k + shift) % 256,
        0 <= i < n,
    ensures
        applied(table, Seq::new(n, |k: int| 0u8), offset)[i] == (3 * (offset + i + 1) + 4 * shift)
            % 256,
{
    let m = offset + i + 1;
    let j = m % 256;
    let a = table[j];
    let x = (a + j) % 256;
    let b = table[x];
    let y = (a + b) % 256;
    let k = table[y];
    lemma_shifts_add_up(m, shift);
    assert(0u8 ^ k == k) by (bit_vector);
}

/// The key stream depends on the position alone: what is combined with a byte
/// does not depend on the data.
pub proof fn law_key_stream_ignores_data(
    table: Seq<u8>,
    one: Seq<u8>,
    other: Seq<u8>,
    one_offset: int,
    other_offset: int,
    i: int,
    k: int,
)
    requires
        0 <= i < one.len(),
        0 <= k < other.len(),
        one_offset + i == other_offset + k,
    ensures
        applied(table, one, one_offset)[i] ^ one[i] == applied(table, other, other_offset)[k]
            ^ other[k],
{
    let x = one[i];
    let y = other[k];
    let z = key_byte(table, one_offset + i);
    assert((x ^ z) ^ x == (y ^ z) ^ y) by (bit_vector);
}

/// The key stream repeats every 256 bytes.
pub proof fn law_key_stream_period(table: Seq<u8>, position: int)
    ensures
        key_byte(table, position + 256) == key_byte(table, position),
{
    lemma_around(position + 256 + 1, (position + 1) % 256, (position + 1) / 256 + 1);
}

/// The cipher of one container.
pub struct StreamCipher {
    table: [u8; 256],
}

impl View for StreamCipher {
    type V = Seq<u8>;

    /// The shuffled table.
    closed spec fn view(&self) -> Seq<u8> {
        self.table@
    }
}

impl StreamCipher {
    /// The cipher of a stream key.
    pub fn new(key: &[u8]) -> (cipher: Self)
        requires
            key@.len() > 0,
        ensures
            cipher@ == key_table(key@),
            is_permutation(cipher@),
    {
        let mut table: [u8; 256] = [0u8; 256];
        let mut i: usize = 0;
        while i < 256
            invariant
                i <= 256,
                forall|k: int| 0 <= k < i ==> table@[k] == k as u8,
            decreases 256 - i,
        {
            table[i] = i as u8;
            i = i + 1;
        }
        assert(table@ =~= identity_table());
        let mut j: usize = 0;
        i = 0;
        while i < 256
            invariant
                i <= 256,
                j < 256,
                key@.len() > 0,
                (table@, j as int) == shuffled(key@, i as nat),
            decreases 256 - i,
        {
            let sum: usize = j + table[i] as usize + key[i % key.len()] as usize;
            assert(sum & 0xff == sum % 256) by (bit_vector);
            j = sum & 0xff;
            let a: u8 = table[i];
            let b: u8 = table[j];
            table[i] = b;
            table[j] = a;
            i = i + 1;
            assert(table@ =~= shuffled(key@, i as nat).0);
        }
        proof {
            law_table_is_permutation(key@);
        }
        StreamCipher { table }
    }

    /// Applies the key stream that starts at `offset`.
    pub fn apply(&self, bytes: &mut [u8], offset: usize)
        requires
            offset + old(bytes)@.len() <= usize::MAX,
        ensures
            final(bytes)@ == applied(self@, old(bytes)@, offset as int),
    {
        let ghost before = bytes@;
        let mut index: usize = 0;
        while index < bytes.len()
            invariant
                index <= bytes.len(),
                bytes@.len() == before.len(),
                offset + before.len() <= usize::MAX,
                forall|k: int|
                    0 <= k < index ==> bytes@[k] == before[k] ^ key_byte(self@, offset + k),
                forall|k: int| index <= k < before.len() ==> bytes@[k] == before[k],
            decreases bytes.len() - index,
        {
            let position: usize = offset + index + 1;
            assert(position & 0xff == position % 256) by (bit_vector);
            let j: usize = position & 0xff;
            let a: usize = self.table[j] as usize;
            let aj: usize = a + j;
            assert(aj & 0xff == aj % 256) by (bit_vector);
            let b: usize = self.table[aj & 0xff] as usize;
            let ab: usize = a + b;
            assert(ab & 0xff == ab % 256) by (bit_vector);
            bytes[index] = bytes[index] ^ self.table[ab & 0xff];
            index = index + 1;
        }
        assert(bytes@ =~= applied(self@, before, offset as int));
    }
}

} // verus!
