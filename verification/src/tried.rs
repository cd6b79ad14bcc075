//! The bitmap in which a request remembers the peers it has tried.
//!
//! Bit `i` stands for the peer at position `i` of the list that the request
//! is on. The words come from the host, which sizes them for the longest list
//! of the upstream.
use vstd::prelude::*;

verus! {

/// How many peers one word of the bitmap stands for.
pub const PTR_BITS: usize = usize::BITS as usize;

/// The bitmap has a bit for each of the first `n` peers.
pub open spec fn covers(words: Seq<usize>, n: int) -> bool {
    n <= words.len() * usize::BITS
}

/// The peer at position `i` has been tried.
pub open spec fn is_tried(words: Seq<usize>, i: int) -> bool {
    words[i / (usize::BITS as int)] & (1usize << ((i % (usize::BITS as int)) as usize)) != 0
}

/// The bitmap with the bit of position `i` set.
pub open spec fn with_tried(words: Seq<usize>, i: int) -> Seq<usize> {
    let w = i / (usize::BITS as int);
    words.update(w, words[w] | (1usize << ((i % (usize::BITS as int)) as usize)))
}

/// The number of words that hold a bit for each of `n` peers.
pub open spec fn words_for(n: int) -> int {
    (n + usize::BITS - 1) / (usize::BITS as int)
}

/// The bitmap with the words of the first `n` peers zeroed.
pub open spec fn cleared(words: Seq<usize>, n: int) -> Seq<usize> {
    Seq::new(words.len(), |w: int| if w < words_for(n) { 0usize } else { words[w] })
}

proof fn lemma_position(words: Seq<usize>, i: int)
    requires
        0 <= i,
        covers(words, i + 1),
    ensures
        0 <= i / (usize::BITS as int) < words.len(),
        0 <= i % (usize::BITS as int) < usize::BITS,
        i == (usize::BITS as int) * (i / (usize::BITS as int)) + i % (usize::BITS as int),
{
    let b = usize::BITS as int;
    vstd::arithmetic::div_mod::lemma_fundamental_div_mod(i, b);
    vstd::arithmetic::div_mod::lemma_mod_bound(i, b);
    vstd::arithmetic::div_mod::lemma_div_pos_is_pos(i, b);
    assert(words.len() * usize::BITS == b * words.len()) by (nonlinear_arith)
        requires
            b == usize::BITS as int,
    ;
    vstd::arithmetic::div_mod::lemma_multiply_divide_lt(i, b, words.len() as int);
}

/// Marking one position as tried marks that position and leaves every other
/// one as it was.
pub proof fn lemma_with_tried(words: Seq<usize>, i: int, j: int)
    requires
        0 <= i,
        0 <= j,
        covers(words, i + 1),
        covers(words, j + 1),
    ensures
        is_tried(with_tried(words, i), j) <==> (i == j || is_tried(words, j)),
{
    lemma_position(words, i);
    lemma_position(words, j);
    let b = usize::BITS as int;
    let w = words[i / b];
    let p = (i % b) as usize;
    let q = (j % b) as usize;
    if i / b == j / b {
        assert((w | (1usize << p)) & (1usize << q) != 0 <==> (p == q || w & (1usize << q) != 0))
            by (bit_vector)
            requires
                p < usize::BITS,
                q < usize::BITS,
        ;
    }
}

/// Clearing the words of the first `n` positions leaves none of them tried.
pub proof fn lemma_cleared(words: Seq<usize>, n: int, i: int)
    requires
        0 <= i < n,
        words_for(n) <= words.len(),
    ensures
        covers(words, n),
        !is_tried(cleared(words, n), i),
{
    let b = usize::BITS as int;
    vstd::arithmetic::div_mod::lemma_fundamental_div_mod(n + b - 1, b);
    vstd::arithmetic::div_mod::lemma_mod_bound(n + b - 1, b);
    assert(words.len() * usize::BITS >= b * words_for(n)) by (nonlinear_arith)
        requires
            b == usize::BITS as int,
            words_for(n) <= words.len(),
    ;
    lemma_position(words, i);
    vstd::arithmetic::div_mod::lemma_div_is_ordered(i + b, n + b - 1, b);
    vstd::arithmetic::div_mod::lemma_div_plus_one(i, b);
    let q = (i % b) as usize;
    assert(0usize & (1usize << q) == 0) by (bit_vector);
}

/// The bit of a position is the one that a shift by the position's remainder
/// brings to the front of the word of its quotient, `usize::BITS` to a word.
pub proof fn law_bits_are_in_order(words: Seq<usize>, w: int, q: int)
    requires
        0 <= w < words.len(),
        0 <= q < usize::BITS,
    ensures
        is_tried(words, w * usize::BITS + q) <==> (words[w] >> (q as usize)) & 1usize == 1usize,
{
    let b = usize::BITS as int;
    let i = w * b + q;
    assert(b * w == w * b) by (nonlinear_arith);
    vstd::arithmetic::div_mod::lemma_fundamental_div_mod_converse(i, b, w, q);
    let x = words[w];
    let s = q as usize;
    assert(x & (1usize << s) != 0 <==> (x >> s) & 1usize == 1usize) by (bit_vector)
        requires
            s < usize::BITS,
    ;
}

/// The words for `n` peers have a bit for each of them, and one word less has
/// not. A bitmap has bits for `n` peers exactly when it has that many words.
pub proof fn law_words_are_just_enough(words: Seq<usize>, n: int)
    requires
        0 <= n,
    ensures
        n <= words_for(n) * usize::BITS,
        n > 0 ==> (words_for(n) - 1) * usize::BITS < n,
        n == 0 ==> words_for(n) == 0,
        covers(words, n) <==> words_for(n) <= words.len(),
{
    let b = usize::BITS as int;
    vstd::arithmetic::div_mod::lemma_fundamental_div_mod(n + b - 1, b);
    vstd::arithmetic::div_mod::lemma_mod_bound(n + b - 1, b);
    let q = (n + b - 1) / b;
    let r = (n + b - 1) % b;
    let k = words.len() as int;
    assert(n <= q * b && (n <= k * b <==> q <= k)) by (nonlinear_arith)
        requires
            n + b - 1 == b * q + r,
            0 <= r < b,
    ;
    assert((q - 1) * b < n || n == 0) by (nonlinear_arith)
        requires
            n + b - 1 == b * q + r,
            0 <= r < b,
            n >= 0,
    ;
    if n == 0 {
        vstd::arithmetic::div_mod::lemma_fundamental_div_mod_converse(b - 1, b, 0, b - 1);
    }
}

/// Clearing the bits of `n` peers leaves every word after theirs as it was.
pub proof fn law_clearing_stops(words: Seq<usize>, n: int, w: int)
    requires
        0 <= n <= w * usize::BITS,
        0 <= w < words.len(),
    ensures
        cleared(words, n).len() == words.len(),
        cleared(words, n)[w] == words[w],
{
    law_words_are_just_enough(words, n);
    assert(words_for(n) <= w) by (nonlinear_arith)
        requires
            n <= w * usize::BITS,
            n > 0 ==> (words_for(n) - 1) * usize::BITS < n,
            n == 0 ==> words_for(n) == 0,
            n >= 0,
            w >= 0,
    ;
}

/// Whether the peer at `index` has been tried.
pub fn tried_bit(words: &Vec<usize>, index: usize) -> (r: bool)
    requires
        covers(words@, index + 1),
    ensures
        r == is_tried(words@, index as int),
{
    proof {
        lemma_position(words@, index as int);
    }
    let n: usize = index / PTR_BITS;
    let m: usize = 1usize << (index % PTR_BITS);
    words[n] & m != 0
}

/// Mark the peer at `index` as tried.
pub fn mark_tried(words: &mut Vec<usize>, index: usize)
    requires
        covers(old(words)@, index + 1),
    ensures
        final(words)@ == with_tried(old(words)@, index as int),
{
    proof {
        lemma_position(words@, index as int);
    }
    let n: usize = index / PTR_BITS;
    let m: usize = 1usize << (index % PTR_BITS);
    words[n] = words[n] | m;
}

/// The number of words that hold a bit for each of `number` peers.
pub fn words_needed(number: usize) -> (r: usize)
    ensures
        r == words_for(number as int),
{
    let mut n: usize = number / PTR_BITS;
    if number % PTR_BITS != 0 {
        proof {
            assert(number / PTR_BITS < usize::MAX) by (nonlinear_arith)
                requires
                    PTR_BITS >= 2,
                    number <= usize::MAX,
            ;
        }
        n = n + 1;
    }
    proof {
        let b = usize::BITS as int;
        let r = number as int % b;
        let q = number as int / b;
        vstd::arithmetic::div_mod::lemma_fundamental_div_mod(number as int, b);
        vstd::arithmetic::div_mod::lemma_mod_bound(number as int, b);
        if r == 0 {
            vstd::arithmetic::div_mod::lemma_fundamental_div_mod_converse(
                number + b - 1,
                b,
                q,
                b - 1,
            );
        } else {
            assert(b * (q + 1) == b * q + b) by (nonlinear_arith);
            vstd::arithmetic::div_mod::lemma_fundamental_div_mod_converse(
                number + b - 1,
                b,
                q + 1,
                r - 1,
            );
        }
        assert(n == words_for(number as int));
    }
    n
}

/// Whether the bitmap has a bit for each of the first `number` peers.
pub fn has_bits_for(words: &Vec<usize>, number: usize) -> (r: bool)
    ensures
        r == covers(words@, number as int),
{
    let n: usize = words_needed(number);
    proof {
        let b = usize::BITS as int;
        let k = words@.len() as int;
        let x = number as int;
        vstd::arithmetic::div_mod::lemma_fundamental_div_mod(x + b - 1, b);
        vstd::arithmetic::div_mod::lemma_mod_bound(x + b - 1, b);
        let q = (x + b - 1) / b;
        let r = (x + b - 1) % b;
        assert(x <= k * b <==> q <= k) by (nonlinear_arith)
            requires
                x + b - 1 == b * q + r,
                0 <= r < b,
        ;
    }
    n <= words.len()
}

/// Zero the words that hold the bits of the first `number` peers.
pub fn clear_tried(words: &mut Vec<usize>, number: usize)
    requires
        words_for(number as int) <= old(words)@.len(),
    ensures
        final(words)@ == cleared(old(words)@, number as int),
{
    let n: usize = words_needed(number);
    let mut i: usize = 0;
    while i < n
        invariant
            i <= n,
            n == words_for(number as int),
            n <= words@.len(),
            words@.len() == old(words)@.len(),
            forall|w: int| 0 <= w < i ==> words@[w] == 0,
            forall|w: int| i <= w < words@.len() ==> words@[w] == old(words)@[w],
        decreases n - i,
    {
        words[i] = 0;
        i = i + 1;
    }
    assert(words@ =~= cleared(old(words)@, number as int));
}

} // verus!
