//! Conversions between integer vectors and their byte and bit encodings.
use vstd::prelude::*;

verus! {

/// `256^n`.
pub open spec fn pow256(n: nat) -> nat
    decreases n,
{
    if n == 0 {
        1
    } else {
        256 * pow256((n - 1) as nat)
    }
}

/// The number that the bytes `s` encode, least significant byte first.
pub open spec fn le_value(s: Seq<u8>) -> nat
    decreases s.len(),
{
    if s.len() == 0 {
        0
    } else {
        s[0] as nat + 256 * le_value(s.drop_first())
    }
}

/// The number that the bytes `s` encode, most significant byte first.
pub open spec fn be_value(s: Seq<u8>) -> nat
    decreases s.len(),
{
    if s.len() == 0 {
        0
    } else {
        be_value(s.drop_last()) * 256 + s.last() as nat
    }
}

/// The `k`-th chunk of `width` bytes of `s`.
pub open spec fn chunk(s: Seq<u8>, width: int, k: int) -> Seq<u8> {
    s.subrange(width * k, width * k + width)
}

/// `x` halved `k` times.
pub open spec fn shift(x: nat, k: nat) -> nat
    decreases k,
{
    if k == 0 {
        x
    } else {
        shift(x, (k - 1) as nat) / 2
    }
}

/// The number of binary digits of `x` (0 for 0).
pub open spec fn bit_len(x: nat) -> nat
    decreases x,
{
    if x == 0 {
        0
    } else {
        1 + bit_len(x / 2)
    }
}

/// Byte `i` of the little-endian encoding of the 64-bit words `v`, word after word.
pub open spec fn le_byte_of_words(v: Seq<u64>, i: int) -> u8 {
    ((v[i / 8] as nat / pow256((i % 8) as nat)) % 256) as u8
}

/// The `k`-th little-endian 64-bit word of `m`.
pub open spec fn word_at(m: Seq<u8>, k: int) -> u64 {
    le_value(chunk(m, 8, k)) as u64
}

/// The little-endian 64-bit words of `m`; a trailing part shorter than a
/// word is left out.
pub open spec fn words(m: Seq<u8>) -> Seq<u64> {
    Seq::new(m.len() / 8, |k: int| word_at(m, k))
}

/// The little-endian bytes of the words `v`, word after word.
pub open spec fn le_bytes_of_words(v: Seq<u64>) -> Seq<u8> {
    Seq::new((v.len() * 8) as nat, |i: int| le_byte_of_words(v, i))
}

/// The `n` little-endian base-256 digits of `x`.
pub open spec fn digits256(x: nat, n: nat) -> Seq<u8> {
    Seq::new(n, |j: int| ((x / pow256(j as nat)) % 256) as u8)
}

/// The value of the numbers `b`, least significant first, as binary digits.
pub open spec fn bits_value(b: Seq<u64>) -> nat
    decreases b.len(),
{
    if b.len() == 0 {
        0
    } else {
        b[0] as nat + 2 * bits_value(b.drop_first())
    }
}

proof fn lemma_le_value_digits(x: nat, n: nat)
    ensures
        le_value(digits256(x, n)) == x % pow256(n),
    decreases n,
{
    if n == 0 {
        assert(digits256(x, 0) =~= Seq::<u8>::empty());
    } else {
        let d = digits256(x, n);
        assert forall|j: int| 0 <= j < n - 1 implies #[trigger] d.drop_first()[j] == digits256(x / 256, (n - 1) as nat)[j] by {
            lemma_pow256_pos(j as nat);
            vstd::arithmetic::div_mod::lemma_div_denominator(x as int, 256, pow256(j as nat) as int);
            assert(pow256((j + 1) as nat) == 256 * pow256(j as nat));
        }
        assert(d.drop_first() =~= digits256(x / 256, (n - 1) as nat));
        lemma_le_value_digits(x / 256, (n - 1) as nat);
        assert(pow256(0) == 1);
        assert(x / 1 == x);
        assert(x / pow256(0) == x);
        assert(d[0] == ((x / pow256(0)) % 256) as u8);
        assert(d[0] as nat == x % 256);
        lemma_pow256_pos((n - 1) as nat);
        vstd::arithmetic::div_mod::lemma_mod_breakdown(x as int, 256, pow256((n - 1) as nat) as int);
    }
}

/// Reading back as little-endian words the bytes that the words `v` are
/// written to gives `v`.
pub proof fn lemma_words_of_le_bytes(v: Seq<u64>)
    ensures
        words(le_bytes_of_words(v)) == v,
{
    let b = le_bytes_of_words(v);
    assert(b.len() / 8 == v.len()) by (nonlinear_arith)
        requires b.len() == v.len() * 8;
    assert forall|k: int| 0 <= k < v.len() implies #[trigger] word_at(b, k) == v[k] by {
        assert forall|j: int| 0 <= j < 8 implies #[trigger] chunk(b, 8, k)[j] == digits256(v[k] as nat, 8)[j] by {
            assert((8 * k + j) / 8 == k && (8 * k + j) % 8 == j) by (nonlinear_arith)
                requires 0 <= j < 8;
            assert(8 * k + j < b.len()) by (nonlinear_arith)
                requires 0 <= j < 8, 0 <= k < v.len(), b.len() == v.len() * 8;
        }
        assert(chunk(b, 8, k) =~= digits256(v[k] as nat, 8));
        lemma_le_value_digits(v[k] as nat, 8);
        lemma_pow256_values();
    }
    assert(words(b) =~= v);
}

/// Binary digits, least significant first, recompose the number they were
/// taken from, however many zeros follow.
pub proof fn lemma_bits_recompose(x: nat, b: Seq<u64>)
    requires
        b.len() >= bit_len(x),
        forall|i: int| 0 <= i < b.len() ==> #[trigger] b[i] as nat == shift(x, i as nat) % 2,
    ensures
        bits_value(b) == x,
    decreases b.len(),
{
    if b.len() == 0 {
    } else {
        let t = b.drop_first();
        assert forall|i: int| 0 <= i < t.len() implies #[trigger] t[i] as nat == shift(x / 2, i as nat) % 2 by {
            lemma_shift_succ(x, i as nat);
            assert(t[i] == b[i + 1]);
        }
        if x > 0 {
            assert(bit_len(x) == 1 + bit_len(x / 2));
        } else {
            assert(bit_len(0) == 0);
        }
        lemma_bits_recompose(x / 2, t);
        assert(b[0] as nat == x % 2);
    }
}

pub proof fn lemma_pow256_pos(n: nat)
    ensures
        pow256(n) >= 1,
    decreases n,
{
    if n > 0 {
        lemma_pow256_pos((n - 1) as nat);
    }
}

proof fn lemma_pow256_values()
    ensures
        pow256(7) == 0x100_0000_0000_0000,
        pow256(8) == 0x1_0000_0000_0000_0000,
        pow256(15) == 0x100_0000_0000_0000_0000_0000_0000_0000,
        pow256(16) == 0x1_0000_0000_0000_0000_0000_0000_0000_0000,
{
    reveal_with_fuel(pow256, 17);
}

proof fn lemma_pow256_mono(a: nat, b: nat)
    requires
        a <= b,
    ensures
        pow256(a) <= pow256(b),
    decreases b,
{
    if a < b {
        lemma_pow256_mono(a, (b - 1) as nat);
        lemma_pow256_pos((b - 1) as nat);
    }
}

/// Peeling the first byte of a range of bytes.
proof fn lemma_le_value_step(s: Seq<u8>, a: int, b: int)
    requires
        0 <= a < b <= s.len(),
    ensures
        le_value(s.subrange(a, b)) == s[a] as nat + 256 * le_value(s.subrange(a + 1, b)),
{
    assert(s.subrange(a, b).drop_first() =~= s.subrange(a + 1, b));
}

/// Appending one byte to a range of bytes, most significant first.
proof fn lemma_be_value_step(s: Seq<u8>, a: int, b: int)
    requires
        0 <= a < b <= s.len(),
    ensures
        be_value(s.subrange(a, b)) == be_value(s.subrange(a, b - 1)) * 256 + s[b - 1] as nat,
{
    assert(s.subrange(a, b).drop_last() =~= s.subrange(a, b - 1));
}

/// Reads the little-endian 64-bit word at `start`.
fn le_u64_at(input: &Vec<u8>, start: usize) -> (v: u64)
    requires
        start + 8 <= input.len(),
    ensures
        v as nat == le_value(input@.subrange(start as int, start + 8)),
{
    let mut v: u64 = 0;
    let mut k: usize = 8;
    proof {
        lemma_pow256_values();
        assert(input@.subrange(start + 8, start + 8) =~= Seq::<u8>::empty());
    }
    while k > 0
        invariant
            start + 8 <= input.len(),
            k <= 8,
            v as nat == le_value(input@.subrange(start + k, start + 8)),
            v < pow256((8 - k) as nat),
        decreases k,
    {
        proof {
            lemma_pow256_values();
            lemma_le_value_step(input@, start + k - 1, start + 8);
            lemma_pow256_mono((8 - k) as nat, 7);
            assert(v * 256 + (input@[start + k - 1] as nat) < 256 * pow256((8 - k) as nat)) by (nonlinear_arith)
                requires v < pow256((8 - k) as nat), input@[start + k - 1] < 256;
            assert(v * 256 + (input@[start + k - 1] as nat) < 0x1_0000_0000_0000_0000) by (nonlinear_arith)
                requires v < 0x100_0000_0000_0000, input@[start + k - 1] < 256;
        }
        k = k - 1;
        v = v * 256 + input[start + k] as u64;
    }
    v
}

/// Reads the little-endian 128-bit word at `start`.
fn le_u128_at(input: &Vec<u8>, start: usize) -> (v: u128)
    requires
        start + 16 <= input.len(),
    ensures
        v as nat == le_value(input@.subrange(start as int, start + 16)),
{
    let mut v: u128 = 0;
    let mut k: usize = 16;
    proof {
        lemma_pow256_values();
        assert(input@.subrange(start + 16, start + 16) =~= Seq::<u8>::empty());
    }
    while k > 0
        invariant
            start + 16 <= input.len(),
            k <= 16,
            v as nat == le_value(input@.subrange(start + k, start + 16)),
            v < pow256((16 - k) as nat),
        decreases k,
    {
        proof {
            lemma_pow256_values();
            lemma_le_value_step(input@, start + k - 1, start + 16);
            lemma_pow256_mono((16 - k) as nat, 15);
            assert(v * 256 + (input@[start + k - 1] as nat) < 256 * pow256((16 - k) as nat)) by (nonlinear_arith)
                requires v < pow256((16 - k) as nat), input@[start + k - 1] < 256;
            assert(v * 256 + (input@[start + k - 1] as nat) < 0x1_0000_0000_0000_0000_0000_0000_0000_0000) by (nonlinear_arith)
                requires v < 0x100_0000_0000_0000_0000_0000_0000_0000, input@[start + k - 1] < 256;
        }
        k = k - 1;
        v = v * 256 + input[start + k] as u128;
    }
    v
}

/// Reads the big-endian 64-bit word at `start`.
fn be_u64_at(input: &Vec<u8>, start: usize) -> (v: u64)
    requires
        start + 8 <= input.len(),
    ensures
        v as nat == be_value(input@.subrange(start as int, start + 8)),
{
    let mut v: u64 = 0;
    let mut k: usize = 0;
    proof {
        lemma_pow256_values();
        assert(input@.subrange(start as int, start as int) =~= Seq::<u8>::empty());
    }
    while k < 8
        invariant
            start + 8 <= input.len(),
            k <= 8,
            v as nat == be_value(input@.subrange(start as int, start + k)),
            v < pow256(k as nat),
        decreases 8 - k,
    {
        proof {
            lemma_pow256_values();
            lemma_be_value_step(input@, start as int, start + k + 1);
            lemma_pow256_mono(k as nat, 7);
            assert(v * 256 + (input@[start + k] as nat) < pow256(k as nat) * 256) by (nonlinear_arith)
                requires v < pow256(k as nat), input@[start + k] < 256;
            assert(v * 256 + (input@[start + k] as nat) < 0x1_0000_0000_0000_0000) by (nonlinear_arith)
                requires v < 0x100_0000_0000_0000, input@[start + k] < 256;
        }
        v = v * 256 + input[start + k] as u64;
        k = k + 1;
    }
    v
}

/// Decodes consecutive little-endian 128-bit words. A trailing remainder of
/// fewer than 8 bytes is ignored; any other input length but zero is refused.
pub fn read_le_u128(input: Vec<u8>) -> (res: Vec<u128>)
    requires
        input.len() == 0 || (input.len() >= 16 && input.len() % 16 < 8),
    ensures
        res.len() == input.len() / 16,
        forall|k: int|
            0 <= k < res.len() ==> #[trigger] res[k] as nat == le_value(chunk(input@, 16, k)),
{
    let mut res = Vec::<u128>::new();
    if input.len() == 0 {
        return res;
    }
    let n = input.len() / 16;
    let mut k: usize = 0;
    while k < n
        invariant
            n == input.len() / 16,
            k <= n,
            res.len() == k,
            forall|j: int| 0 <= j < k ==> #[trigger] res[j] as nat == le_value(chunk(input@, 16, j)),
        decreases n - k,
    {
        let v = le_u128_at(&input, 16 * k);
        res.push(v);
        k = k + 1;
    }
    res
}

/// Decodes consecutive little-endian 64-bit words. A trailing remainder of
/// fewer than 8 bytes is ignored; a non-empty input shorter than 8 bytes is
/// refused.
pub fn read_le_u64(input: Vec<u8>) -> (res: Vec<u64>)
    requires
        input.len() == 0 || input.len() >= 8,
    ensures
        res.len() == input.len() / 8,
        forall|k: int|
            0 <= k < res.len() ==> #[trigger] res[k] as nat == le_value(chunk(input@, 8, k)),
        res@ == words(input@),
{
    read_le_usize(&input)
}

/// Decodes consecutive little-endian 64-bit words, as `read_le_u64` does.
pub fn read_le_usize(input: &Vec<u8>) -> (res: Vec<u64>)
    requires
        input.len() == 0 || input.len() >= 8,
    ensures
        res.len() == input.len() / 8,
        forall|k: int|
            0 <= k < res.len() ==> #[trigger] res[k] as nat == le_value(chunk(input@, 8, k)),
        res@ == words(input@),
{
    let mut res = Vec::<u64>::new();
    if input.len() == 0 {
        proof {
            assert(res@ =~= words(input@));
        }
        return res;
    }
    let n = input.len() / 8;
    let mut k: usize = 0;
    while k < n
        invariant
            n == input.len() / 8,
            k <= n,
            res.len() == k,
            forall|j: int| 0 <= j < k ==> #[trigger] res[j] as nat == le_value(chunk(input@, 8, j)),
        decreases n - k,
    {
        let v = le_u64_at(input, 8 * k);
        res.push(v);
        k = k + 1;
    }
    proof {
        assert forall|j: int| 0 <= j < res.len() implies #[trigger] res@[j] == word_at(input@, j) by {
            lemma_le_value_u64(chunk(input@, 8, j));
        }
        assert(res@ =~= words(input@));
    }
    res
}

/// Decodes consecutive big-endian 64-bit words; the input must hold at least
/// one word, and a trailing remainder of fewer than 8 bytes is ignored.
pub fn read_be_u64(input: Vec<u8>) -> (res: Vec<u64>)
    requires
        input.len() >= 8,
    ensures
        res.len() == input.len() / 8,
        forall|k: int|
            0 <= k < res.len() ==> #[trigger] res[k] as nat == be_value(chunk(input@, 8, k)),
{
    let mut res = Vec::<u64>::new();
    let n = input.len() / 8;
    let mut k: usize = 0;
    while k < n
        invariant
            n == input.len() / 8,
            k <= n,
            res.len() == k,
            forall|j: int| 0 <= j < k ==> #[trigger] res[j] as nat == be_value(chunk(input@, 8, j)),
        decreases n - k,
    {
        let v = be_u64_at(&input, 8 * k);
        res.push(v);
        k = k + 1;
    }
    res
}

/// Writes the 64-bit words `v` as bytes, each word least significant byte first.
pub fn write_u64_le_u8(v: &[u64]) -> (res: Vec<u8>)
    requires
        v.len() * 8 <= usize::MAX,
    ensures
        res.len() == v.len() * 8,
        forall|i: int| 0 <= i < res.len() ==> #[trigger] res[i] == le_byte_of_words(v@, i),
        res@ == le_bytes_of_words(v@),
{
    let mut res = Vec::<u8>::new();
    let mut k: usize = 0;
    while k < v.len()
        invariant
            v.len() * 8 <= usize::MAX,
            k <= v.len(),
            res.len() == 8 * k,
            forall|i: int| 0 <= i < res.len() ==> #[trigger] res[i] == le_byte_of_words(v@, i),
        decreases v.len() - k,
    {
        let word = v[k];
        let mut x: u64 = word;
        let mut b: usize = 0;
        proof {
            assert(pow256(0) == 1);
            assert(word as nat / 1 == word as nat);
        }
        while b < 8
            invariant
                k < v.len(),
                word == v@[k as int],
                b <= 8,
                res.len() == 8 * k + b,
                x as nat == word as nat / pow256(b as nat),
                forall|i: int| 0 <= i < res.len() ==> #[trigger] res[i] == le_byte_of_words(v@, i),
            decreases 8 - b,
        {
            proof {
                let i = 8 * k + b;
                assert(i / 8 == k as int && i % 8 == b as int) by (nonlinear_arith)
                    requires i == 8 * k + b, b < 8;
                lemma_pow256_pos(b as nat);
                vstd::arithmetic::div_mod::lemma_div_denominator(word as int, pow256(b as nat) as int, 256);
            }
            res.push((x % 256) as u8);
            x = x / 256;
            b = b + 1;
        }
        k = k + 1;
    }
    proof {
        assert(res@ =~= le_bytes_of_words(v@));
    }
    res
}

proof fn lemma_shift_succ(x: nat, k: nat)
    ensures
        shift(x, k + 1) == shift(x / 2, k),
    decreases k,
{
    assert(shift(x, k + 1) == shift(x, k) / 2);
    if k > 0 {
        lemma_shift_succ(x, (k - 1) as nat);
        assert(shift(x / 2, k) == shift(x / 2, (k - 1) as nat) / 2);
    }
}

pub(crate) proof fn lemma_shift_bit_len(x: nat, k: nat)
    ensures
        k < bit_len(x) ==> shift(x, k) > 0,
        k >= bit_len(x) ==> shift(x, k) == 0,
    decreases x, k,
{
    if x == 0 {
        if k > 0 {
            lemma_shift_bit_len(x, (k - 1) as nat);
        }
    } else if k == 0 {
    } else {
        lemma_shift_succ(x, (k - 1) as nat);
        lemma_shift_bit_len(x / 2, (k - 1) as nat);
    }
}

/// The binary digits of `input`, least significant first, padded with zeros
/// to at least `size` digits.
pub fn into_be_u64_vec(input: u64, size: usize) -> (bits: Vec<u64>)
    ensures
        bits.len() == if bit_len(input as nat) >= size { bit_len(input as nat) } else { size as nat },
        forall|i: int| 0 <= i < bits.len() ==> #[trigger] bits[i] as nat == shift(input as nat, i as nat) % 2,
{
    let mut bits = Vec::<u64>::new();
    let mut x: u64 = input;
    while x > 0
        invariant
            bits.len() <= 64,
            x as nat == shift(input as nat, bits.len() as nat),
            bits.len() <= bit_len(input as nat),
            forall|i: int| 0 <= i < bits.len() ==> #[trigger] bits[i] as nat == shift(input as nat, i as nat) % 2,
        decreases x,
    {
        proof {
            lemma_shift_bit_len(input as nat, bits.len() as nat);
            lemma_bit_len_bound(input as nat);
        }
        bits.push(x % 2);
        x = x / 2;
    }
    proof {
        lemma_shift_bit_len(input as nat, bits.len() as nat);
    }
    let start = bits.len();
    let mut j: usize = start;
    while j < size
        invariant
            start == bit_len(input as nat),
            start <= j,
            j == start || j <= size,
            bits.len() == j,
            forall|i: int| 0 <= i < bits.len() ==> #[trigger] bits[i] as nat == shift(input as nat, i as nat) % 2,
        decreases size - j,
    {
        proof {
            lemma_shift_bit_len(input as nat, j as nat);
        }
        bits.push(0);
        j = j + 1;
    }
    bits
}

/// `2^n`.
pub open spec fn pow2n(n: nat) -> nat
    decreases n,
{
    if n == 0 {
        1
    } else {
        2 * pow2n((n - 1) as nat)
    }
}

pub(crate) proof fn lemma_bit_len_bound(x: nat)
    requires
        x < 0x1_0000_0000_0000_0000,
    ensures
        bit_len(x) <= 64,
{
    assert(pow2n(64) == 0x1_0000_0000_0000_0000) by {
        reveal_with_fuel(pow2n, 65);
    }
    lemma_bit_len_le(x, 64);
}

proof fn lemma_bit_len_le(x: nat, n: nat)
    requires
        x < pow2n(n),
    ensures
        bit_len(x) <= n,
    decreases n,
{
    if x > 0 && n > 0 {
        lemma_bit_len_le(x / 2, (n - 1) as nat);
    }
}

/// Eight bytes encode a number below 2^64.
pub proof fn lemma_le_value_u64(s: Seq<u8>)
    requires
        s.len() == 8,
    ensures
        le_value(s) < 0x1_0000_0000_0000_0000,
{
    lemma_le_value_bound(s);
    lemma_pow256_values();
}

/// `n` bytes encode a number below `256^n`.
pub proof fn lemma_le_value_bound(s: Seq<u8>)
    ensures
        le_value(s) < pow256(s.len()),
    decreases s.len(),
{
    if s.len() > 0 {
        lemma_le_value_bound(s.drop_first());
        assert(s[0] as nat + 256 * le_value(s.drop_first()) < 256 * pow256((s.len() - 1) as nat)) by (nonlinear_arith)
            requires s[0] < 256, le_value(s.drop_first()) < pow256((s.len() - 1) as nat);
    }
}

} // verus!
