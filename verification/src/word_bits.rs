use vstd::prelude::*;

verus! {

/// Bit `b` of the 64-bit word `w`.
pub open spec fn word_bit(w: u64, b: u64) -> bool {
    (w >> b) & 1u64 == 1u64
}

pub proof fn lemma_bit_zero(j: u64)
    requires
        j < 64,
    ensures
        !word_bit(0u64, j),
{
    assert(((0u64 >> j) & 1u64) != 1u64) by (bit_vector)
        requires
            j < 64u64,
    ;
}

pub proof fn lemma_bit_single(s: u64, j: u64)
    requires
        s < 64,
        j < 64,
    ensures
        word_bit(1u64 << s, j) == (j == s),
{
    assert((((1u64 << s) >> j) & 1u64 == 1u64) == (j == s)) by (bit_vector)
        requires
            s < 64u64,
            j < 64u64,
    ;
}

pub proof fn lemma_bit_test(a: u64, s: u64)
    requires
        s < 64,
    ensures
        ((a & (1u64 << s)) != 0) == word_bit(a, s),
{
    assert(((a & (1u64 << s)) != 0u64) == ((a >> s) & 1u64 == 1u64)) by (bit_vector)
        requires
            s < 64u64,
    ;
}

pub proof fn lemma_bit_or(a: u64, b: u64, j: u64)
    requires
        j < 64,
    ensures
        word_bit(a | b, j) == (word_bit(a, j) || word_bit(b, j)),
{
    assert((((a | b) >> j) & 1u64 == 1u64) == (((a >> j) & 1u64 == 1u64) || ((b >> j) & 1u64
        == 1u64))) by (bit_vector)
        requires
            j < 64u64,
    ;
}

pub proof fn lemma_bit_and(a: u64, b: u64, j: u64)
    requires
        j < 64,
    ensures
        word_bit(a & b, j) == (word_bit(a, j) && word_bit(b, j)),
{
    assert((((a & b) >> j) & 1u64 == 1u64) == (((a >> j) & 1u64 == 1u64) && ((b >> j) & 1u64
        == 1u64))) by (bit_vector)
        requires
            j < 64u64,
    ;
}

pub proof fn lemma_bit_and_not(a: u64, b: u64, j: u64)
    requires
        j < 64,
    ensures
        word_bit(a & !b, j) == (word_bit(a, j) && !word_bit(b, j)),
{
    assert((((a & !b) >> j) & 1u64 == 1u64) == (((a >> j) & 1u64 == 1u64) && !((b >> j) & 1u64
        == 1u64))) by (bit_vector)
        requires
            j < 64u64,
    ;
}

pub proof fn lemma_bit_xor(a: u64, b: u64, j: u64)
    requires
        j < 64,
    ensures
        word_bit(a ^ b, j) == (word_bit(a, j) != word_bit(b, j)),
{
    assert((((a ^ b) >> j) & 1u64 == 1u64) == (((a >> j) & 1u64 == 1u64) != ((b >> j) & 1u64
        == 1u64))) by (bit_vector)
        requires
            j < 64u64,
    ;
}

/// If no bit from `n` upward is set, shifting right by `n` leaves nothing.
proof fn lemma_high_bits_clear(x: u64, n: u64)
    requires
        n < 64,
        forall|j: u64| n <= j < 64 ==> !#[trigger] word_bit(x, j),
    ensures
        x >> n == 0,
    decreases 64 - n,
{
    if n == 63 {
        assert(!word_bit(x, 63));
        assert(((x >> 63u64) & 1u64) != 1u64 ==> x >> 63u64 == 0u64) by (bit_vector);
    } else {
        lemma_high_bits_clear(x, (n + 1) as u64);
        assert(!word_bit(x, n));
        let m = (n + 1) as u64;
        assert(((x >> n) & 1u64) != 1u64 && x >> m == 0u64 ==> x >> n == 0u64) by (bit_vector)
            requires
                n < 63u64,
                m == n + 1,
        ;
    }
}

/// Shifting right by `s` leaves nothing exactly when no bit from `s` upward
/// is set.
pub proof fn lemma_shift_clear(x: u64, s: u64)
    requires
        s < 64,
    ensures
        (x >> s == 0) == (forall|j: u64| s <= j < 64 ==> !#[trigger] word_bit(x, j)),
{
    if x >> s == 0 {
        assert forall|j: u64| s <= j < 64 implies !#[trigger] word_bit(x, j) by {
            assert(((x >> s) == 0u64 && s <= j && j < 64u64) ==> ((x >> j) & 1u64) != 1u64)
                by (bit_vector);
        }
    }
    if forall|j: u64| s <= j < 64 ==> !#[trigger] word_bit(x, j) {
        lemma_high_bits_clear(x, s);
    }
}

/// A word with no bit set is zero.
pub proof fn lemma_word_zero(x: u64)
    requires
        forall|j: u64| j < 64 ==> !#[trigger] word_bit(x, j),
    ensures
        x == 0,
{
    lemma_high_bits_clear(x, 0);
    assert(x >> 0u64 == x) by (bit_vector);
}

/// Two words with the same bits are equal.
pub proof fn lemma_word_ext(a: u64, b: u64)
    requires
        forall|j: u64| j < 64 ==> #[trigger] word_bit(a, j) == word_bit(b, j),
    ensures
        a == b,
{
    assert forall|j: u64| j < 64 implies !#[trigger] word_bit(a ^ b, j) by {
        lemma_bit_xor(a, b, j);
        assert(word_bit(a, j) == word_bit(b, j));
    }
    lemma_word_zero(a ^ b);
    assert(a ^ b == 0u64 ==> a == b) by (bit_vector);
}

} // verus!
