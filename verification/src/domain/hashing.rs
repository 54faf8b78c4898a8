//! Integer mixing used for stable ids and fingerprints.

use vstd::arithmetic::div_mod::{lemma_mul_mod_noop_left, lemma_mul_mod_noop_right, lemma_small_mod};
use vstd::prelude::*;

verus! {

/// 64-bit finalizer: spreads every input bit over the whole word.
pub open spec fn mixed(x: u64) -> u64 {
    let a = (x ^ (x >> 30u64)).wrapping_mul(0xBF58_476D_1CE4_E5B9);
    let b = (a ^ (a >> 27u64)).wrapping_mul(0x94D0_49BB_1331_11EB);
    b ^ (b >> 31u64)
}

pub fn mix64(x: u64) -> (r: u64)
    ensures
        r == mixed(x),
{
    let a: u64 = (x ^ (x >> 30u64)).wrapping_mul(0xBF58_476D_1CE4_E5B9);
    let b: u64 = (a ^ (a >> 27u64)).wrapping_mul(0x94D0_49BB_1331_11EB);
    b ^ (b >> 31u64)
}

/// A factor with an inverse modulo 2^64 keeps products apart.
pub proof fn lemma_products_differ(x: u64, y: u64, factor: u64, inverse: u64)
    requires
        factor * inverse % 0x1_0000_0000_0000_0000 == 1,
        x.wrapping_mul(factor) == y.wrapping_mul(factor),
    ensures
        x == y,
{
    let m: int = 0x1_0000_0000_0000_0000;
    let (f, i) = (factor as int, inverse as int);
    lemma_product_undone(x, f, i);
    lemma_product_undone(y, f, i);
    assert(x * f % m == y * f % m);
}

proof fn lemma_product_undone(x: u64, f: int, i: int)
    requires
        f * i % 0x1_0000_0000_0000_0000 == 1,
    ensures
        (x * f % 0x1_0000_0000_0000_0000) * i % 0x1_0000_0000_0000_0000 == x,
{
    let m: int = 0x1_0000_0000_0000_0000;
    lemma_mul_mod_noop_left(x * f, i, m);
    assert(x * f * i == x * (f * i)) by (nonlinear_arith);
    lemma_mul_mod_noop_right(x as int, f * i, m);
    lemma_small_mod(x as nat, m as nat);
}

/// Mixing keeps values apart: no two words mix to the same one.
pub proof fn law_mixing_keeps_apart(x: u64, y: u64)
    requires
        x != y,
    ensures
        mixed(x) != mixed(y),
{
    let (a, b) = (x ^ (x >> 30u64), y ^ (y >> 30u64));
    assert(x ^ (x >> 30u64) == y ^ (y >> 30u64) ==> x == y) by (bit_vector);
    let (c, d) = (a.wrapping_mul(0xBF58_476D_1CE4_E5B9), b.wrapping_mul(0xBF58_476D_1CE4_E5B9));
    if c == d {
        lemma_products_differ(a, b, 0xBF58_476D_1CE4_E5B9, 0x96DE_1B17_3F11_9089);
    }
    let (e, f) = (c ^ (c >> 27u64), d ^ (d >> 27u64));
    assert(c ^ (c >> 27u64) == d ^ (d >> 27u64) ==> c == d) by (bit_vector);
    let (g, h) = (e.wrapping_mul(0x94D0_49BB_1331_11EB), f.wrapping_mul(0x94D0_49BB_1331_11EB));
    if g == h {
        lemma_products_differ(e, f, 0x94D0_49BB_1331_11EB, 0x3196_42B2_D24D_8EC3);
    }
    assert(g ^ (g >> 31u64) == h ^ (h >> 31u64) ==> g == h) by (bit_vector);
}

/// Running hash of the first `n` words: each word is folded in, then the whole
/// is multiplied.
pub open spec fn folded(words: Seq<u32>, n: nat) -> u64
    decreases n,
{
    if n == 0 {
        0xCBF2_9CE4_8422_2325u64
    } else {
        (folded(words, (n - 1) as nat) ^ (words[n - 1] as u64)).wrapping_mul(0x100_0000_01B3)
    }
}

pub open spec fn words_hash(words: Seq<u32>) -> u64 {
    mixed(folded(words, words.len()))
}

/// Folding a word in keeps apart what was apart, in the hash so far or in the word.
proof fn lemma_folds_differ(h: u64, k: u64, v: u32, w: u32)
    requires
        (h == k && v != w) || (h != k && v == w),
    ensures
        (h ^ (v as u64)).wrapping_mul(0x100_0000_01B3) != (k ^ (w as u64)).wrapping_mul(
            0x100_0000_01B3,
        ),
{
    let (a, b) = (v as u64, w as u64);
    assert(h == k && a != b ==> h ^ a != k ^ b) by (bit_vector);
    assert(h != k && a == b ==> h ^ a != k ^ b) by (bit_vector);
    if (h ^ a).wrapping_mul(0x100_0000_01B3) == (k ^ b).wrapping_mul(0x100_0000_01B3) {
        lemma_products_differ(h ^ a, k ^ b, 0x100_0000_01B3, 0xCE96_5057_AFF6_957B);
    }
}

proof fn lemma_folded_update(words: Seq<u32>, at: int, word: u32, n: nat)
    requires
        0 <= at < words.len(),
        n <= words.len(),
        word != words[at],
    ensures
        n <= at ==> folded(words.update(at, word), n) == folded(words, n),
        n > at ==> folded(words.update(at, word), n) != folded(words, n),
    decreases n,
{
    if n > 0 {
        let m = (n - 1) as nat;
        let changed = words.update(at, word);
        lemma_folded_update(words, at, word, m);
        if n > at {
            lemma_folds_differ(folded(changed, m), folded(words, m), changed[n - 1], words[n - 1]);
        }
    }
}

/// One changed word always changes the hash.
pub proof fn law_one_word_changes_the_hash(words: Seq<u32>, at: int, word: u32)
    requires
        0 <= at < words.len(),
        word != words[at],
    ensures
        words_hash(words.update(at, word)) != words_hash(words),
{
    lemma_folded_update(words, at, word, words.len());
    law_mixing_keeps_apart(
        folded(words.update(at, word), words.len()),
        folded(words, words.len()),
    );
}

/// Hash of the first `count` of the words.
pub fn hash_words(words: &[u32], count: usize) -> (hash: u64)
    requires
        count <= words@.len(),
    ensures
        hash == words_hash(words@.take(count as int)),
{
    let mut hash: u64 = 0xCBF2_9CE4_8422_2325u64;
    let mut i: usize = 0;
    let ghost part = words@.take(count as int);
    while i < count
        invariant
            i <= count <= words@.len(),
            part == words@.take(count as int),
            hash == folded(part, i as nat),
        decreases count - i,
    {
        hash = (hash ^ (words[i] as u64)).wrapping_mul(0x100_0000_01B3);
        i = i + 1;
    }
    mix64(hash)
}

pub open spec fn low_word(x: u64) -> u32 {
    (x & 0xFFFF_FFFFu64) as u32
}

pub open spec fn high_word(x: u64) -> u32 {
    (x >> 32u64) as u32
}

pub open spec fn joined(low: u32, high: u32) -> u64 {
    (low as u64) | ((high as u64) << 32u64)
}

pub fn low_half(x: u64) -> (w: u32)
    ensures
        w == low_word(x),
{
    (x & 0xFFFF_FFFFu64) as u32
}

pub fn high_half(x: u64) -> (w: u32)
    ensures
        w == high_word(x),
{
    (x >> 32u64) as u32
}

pub fn join_halves(low: u32, high: u32) -> (x: u64)
    ensures
        x == joined(low, high),
{
    (low as u64) | ((high as u64) << 32u64)
}

/// Splitting into halves and joining them are inverse to each other.
pub proof fn law_halves(x: u64, low: u32, high: u32)
    ensures
        joined(low_word(x), high_word(x)) == x,
        low_word(joined(low, high)) == low,
        high_word(joined(low, high)) == high,
{
    assert((((x & 0xFFFF_FFFFu64) as u32) as u64) | ((((x >> 32u64) as u32) as u64) << 32u64) == x)
        by (bit_vector);
    assert((((low as u64) | ((high as u64) << 32u64)) & 0xFFFF_FFFFu64) as u32 == low)
        by (bit_vector);
    assert((((low as u64) | ((high as u64) << 32u64)) >> 32u64) as u32 == high) by (bit_vector);
}

} // verus!
