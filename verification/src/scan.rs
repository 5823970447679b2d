//! Summing a byte buffer as little-endian `u64` words.

use vstd::prelude::*;

verus! {

/// `2^64`, the modulus of `u64` wrapping arithmetic.
pub open spec fn word_modulus() -> nat {
    0x1_0000_0000_0000_0000nat
}

/// The little-endian value of the eight bytes of `s` that start at `i`.
pub open spec fn le_word_at(s: Seq<u8>, i: int) -> nat {
    s[i] as nat + 0x100 * s[i + 1] as nat + 0x1_0000 * s[i + 2] as nat + 0x100_0000 * s[i
        + 3] as nat + 0x1_0000_0000 * s[i + 4] as nat + 0x100_0000_0000 * s[i + 5] as nat
        + 0x1_0000_0000_0000 * s[i + 6] as nat + 0x100_0000_0000_0000 * s[i + 7] as nat
}

/// The exact (unwrapped) sum of the little-endian `u64` words of `s`, taken in
/// whole 8-byte chunks from the front; a tail of fewer than 8 bytes adds nothing.
pub open spec fn word_sum(s: Seq<u8>) -> nat
    decreases s.len(),
{
    if s.len() < 8 {
        0
    } else {
        le_word_at(s, 0) + word_sum(s.skip(8))
    }
}

/// What `scan` returns: the word sum of `s`, wrapped to 64 bits.
pub open spec fn scan_spec(s: Seq<u8>) -> u64 {
    (word_sum(s) % word_modulus()) as u64
}

fn load_le_word(buf: &[u8], i: usize) -> (w: u64)
    requires
        i + 8 <= buf@.len(),
    ensures
        w as nat == le_word_at(buf@, i as int),
{
    (buf[i] as u64) + 0x100 * (buf[i + 1] as u64) + 0x1_0000 * (buf[i + 2] as u64) + 0x100_0000
        * (buf[i + 3] as u64) + 0x1_0000_0000 * (buf[i + 4] as u64) + 0x100_0000_0000 * (buf[i
        + 5] as u64) + 0x1_0000_0000_0000 * (buf[i + 6] as u64) + 0x100_0000_0000_0000 * (buf[i
        + 7] as u64)
}

/// Splitting a buffer after a whole number of words splits its word sum.
pub proof fn lemma_word_sum_append(a: Seq<u8>, b: Seq<u8>)
    requires
        a.len() % 8 == 0,
    ensures
        word_sum(a + b) == word_sum(a) + word_sum(b),
    decreases a.len(),
{
    if a.len() == 0 {
        assert(a + b =~= b);
    } else {
        lemma_word_sum_append(a.skip(8), b);
        assert((a + b).skip(8) =~= a.skip(8) + b);
        assert(le_word_at(a + b, 0) == le_word_at(a, 0));
    }
}

/// The word sum of the first `i + 8` bytes is that of the first `i` plus the
/// word at `i`.
proof fn lemma_word_sum_take_step(s: Seq<u8>, i: int)
    requires
        0 <= i,
        i % 8 == 0,
        i + 8 <= s.len(),
    ensures
        word_sum(s.take(i + 8)) == word_sum(s.take(i)) + le_word_at(s, i),
{
    let w = s.subrange(i, i + 8);
    assert(s.take(i + 8) =~= s.take(i) + w);
    lemma_word_sum_append(s.take(i), w);
    assert(w.skip(8).len() == 0);
    assert(word_sum(w.skip(8)) == 0);
    assert(le_word_at(w, 0) == le_word_at(s, i));
    assert(word_sum(w) == le_word_at(w, 0) + word_sum(w.skip(8)));
}

/// Adds up `buf` as little-endian `u64` words, wrapping at 64 bits; a tail of
/// fewer than 8 bytes is not read.
pub fn scan(buf: &[u8]) -> (acc: u64)
    ensures
        acc == scan_spec(buf@),
{
    let n = buf.len();
    let whole = n - n % 8;
    let mut acc: u64 = 0;
    let mut i: usize = 0;
    assert(word_sum(buf@.take(0)) == 0);
    while i < whole
        invariant
            whole == n - n % 8,
            n == buf@.len(),
            i % 8 == 0,
            i <= whole,
            acc as nat == word_sum(buf@.take(i as int)) % word_modulus(),
        decreases whole - i,
    {
        let w = load_le_word(buf, i);
        proof {
            lemma_word_sum_take_step(buf@, i as int);
        }
        proof {
            vstd::arithmetic::div_mod::lemma_add_mod_noop(
                word_sum(buf@.take(i as int)) as int,
                w as int,
                word_modulus() as int,
            );
        }
        acc = acc.wrapping_add(w);
        i = i + 8;
    }
    proof {
        let s = buf@;
        assert(s =~= s.take(whole as int) + s.skip(whole as int));
        lemma_word_sum_append(s.take(whole as int), s.skip(whole as int));
        assert(word_sum(s.skip(whole as int)) == 0);
    }
    acc
}

/// The buffer cut into consecutive pieces of `per` bytes, the last one possibly
/// shorter: what `<[u8]>::chunks(per)` yields. There are none when `per` is 0.
pub open spec fn chunks(s: Seq<u8>, per: nat) -> Seq<Seq<u8>>
    decreases s.len(),
{
    if per == 0 || s.len() == 0 {
        Seq::empty()
    } else if s.len() <= per {
        seq![s]
    } else {
        seq![s.take(per as int)] + chunks(s.skip(per as int), per)
    }
}

/// The exact sum of a sequence of words.
pub open spec fn words_total(ws: Seq<u64>) -> nat
    decreases ws.len(),
{
    if ws.len() == 0 {
        0
    } else {
        ws[0] as nat + words_total(ws.drop_first())
    }
}

/// The sum of a sequence of words, wrapped to 64 bits.
pub open spec fn wrapping_total(ws: Seq<u64>) -> u64 {
    (words_total(ws) % word_modulus()) as u64
}

/// The scan of each chunk, in chunk order.
pub open spec fn chunk_scans(s: Seq<u8>, per: nat) -> Seq<u64> {
    chunks(s, per).map_values(|c: Seq<u8>| scan_spec(c))
}

/// Scanning a buffer piece by piece and folding the results gives the scan of
/// the whole buffer, provided every piece but the last is a whole number of
/// words long.
pub proof fn lemma_chunked_scan_agrees(s: Seq<u8>, per: nat)
    requires
        per > 0,
        per % 8 == 0,
    ensures
        wrapping_total(chunk_scans(s, per)) == scan_spec(s),
    decreases s.len(),
{
    let m = word_modulus() as int;
    if s.len() == 0 {
        assert(chunk_scans(s, per).len() == 0);
        assert(word_sum(s) == 0);
    } else if s.len() <= per {
        let cs = chunk_scans(s, per);
        assert(cs =~= seq![scan_spec(s)]);
        assert(cs.drop_first().len() == 0);
        assert(words_total(cs) == scan_spec(s) as nat + words_total(cs.drop_first()));
        vstd::arithmetic::div_mod::lemma_mod_twice(word_sum(s) as int, m);
    } else {
        let head = s.take(per as int);
        let tail = s.skip(per as int);
        lemma_chunked_scan_agrees(tail, per);
        let cs = chunk_scans(s, per);
        assert(chunks(s, per) =~= seq![head] + chunks(tail, per));
        assert(cs.drop_first() =~= chunk_scans(tail, per));
        assert(cs[0] == scan_spec(head));
        assert(s =~= head + tail);
        lemma_word_sum_append(head, tail);
        let x = word_sum(head) as int;
        let y = words_total(chunk_scans(tail, per)) as int;
        vstd::arithmetic::div_mod::lemma_add_mod_noop(x, y, m);
        vstd::arithmetic::div_mod::lemma_add_mod_noop(x, word_sum(tail) as int, m);
        vstd::arithmetic::div_mod::lemma_mod_twice(x, m);
        vstd::arithmetic::div_mod::lemma_mod_twice(y, m);
        assert(words_total(cs) == (x % m) + y);
    }
}

/// The word sum of a buffer is that of the words before `i`, plus the word at
/// `i`, plus that of the rest.
proof fn lemma_word_sum_split_at(s: Seq<u8>, i: int)
    requires
        0 <= i,
        i % 8 == 0,
        i + 8 <= s.len(),
    ensures
        word_sum(s) == word_sum(s.take(i)) + le_word_at(s, i) + word_sum(s.skip(i + 8)),
{
    lemma_word_sum_take_step(s, i);
    assert(s =~= s.take(i + 8) + s.skip(i + 8));
    lemma_word_sum_append(s.take(i + 8), s.skip(i + 8));
}

/// Changing any one byte of a word changes the word's value by a nonzero
/// amount less than `2^64` in size.
proof fn lemma_le_word_one_byte(a: Seq<u8>, b: Seq<u8>, i: int, p: int)
    requires
        0 <= i <= p < i + 8,
        i + 8 <= a.len(),
        a.len() == b.len(),
        a[p] != b[p],
        forall|k: int| 0 <= k < a.len() && k != p ==> a[k] == b[k],
    ensures
        le_word_at(a, i) != le_word_at(b, i),
        -(word_modulus() as int) < le_word_at(a, i) - le_word_at(b, i) < word_modulus(),
{
    assert(a[i] == b[i] || p == i);
    assert(a[i + 1] == b[i + 1] || p == i + 1);
    assert(a[i + 2] == b[i + 2] || p == i + 2);
    assert(a[i + 3] == b[i + 3] || p == i + 3);
    assert(a[i + 4] == b[i + 4] || p == i + 4);
    assert(a[i + 5] == b[i + 5] || p == i + 5);
    assert(a[i + 6] == b[i + 6] || p == i + 6);
    assert(a[i + 7] == b[i + 7] || p == i + 7);
}

/// The scan reads every byte of every whole word: two buffers that differ in
/// exactly one byte, outside the tail of fewer than 8 bytes, scan to
/// different values.
pub proof fn lemma_scan_sees_every_word_byte(a: Seq<u8>, b: Seq<u8>, p: int)
    requires
        a.len() == b.len(),
        0 <= p < a.len() - a.len() % 8,
        a[p] != b[p],
        forall|k: int| 0 <= k < a.len() && k != p ==> a[k] == b[k],
    ensures
        scan_spec(a) != scan_spec(b),
{
    let m = word_modulus() as int;
    let i = p - p % 8;
    assert(i % 8 == 0 && i + 8 <= a.len()) by {
        vstd::arithmetic::div_mod::lemma_fundamental_div_mod(p, 8);
        vstd::arithmetic::div_mod::lemma_fundamental_div_mod(a.len() as int, 8);
        vstd::arithmetic::div_mod::lemma_mod_multiples_basic(p / 8, 8);
    }
    lemma_word_sum_split_at(a, i);
    lemma_word_sum_split_at(b, i);
    assert(a.take(i) =~= b.take(i));
    assert(a.skip(i + 8) =~= b.skip(i + 8));
    lemma_le_word_one_byte(a, b, i, p);
    let x = word_sum(a) as int;
    let y = word_sum(b) as int;
    assert(x != y && -m < x - y < m);
    if x % m == y % m {
        vstd::arithmetic::div_mod::lemma_mod_equivalence(x, y, m);
        vstd::arithmetic::div_mod::lemma_fundamental_div_mod(x - y, m);
        assert(false) by (nonlinear_arith)
            requires
                (x - y) % m == 0,
                x - y == m * ((x - y) / m) + (x - y) % m,
                x != y,
                -m < x - y < m,
                m > 0,
        ;
    }
}

/// `a / b` rounded up, as `usize::div_ceil` computes it.
pub open spec fn ceil_div(a: nat, b: nat) -> nat {
    if a % b == 0 {
        a / b
    } else {
        a / b + 1
    }
}

/// The smallest multiple of 8 that is at least `x`, as `next_multiple_of(8)`
/// computes it.
pub open spec fn round_up_to_word(x: nat) -> nat {
    if x % 8 == 0 {
        x
    } else {
        (x + (8 - x % 8)) as nat
    }
}

/// The piece length a parallel scan of `len` bytes on `threads` threads uses:
/// an even share, rounded up to whole words, and never under one word.
pub open spec fn parallel_chunk_len_spec(len: nat, threads: nat) -> nat {
    let per = round_up_to_word(ceil_div(len, threads));
    if per < 8 {
        8
    } else {
        per
    }
}

/// The piece length of a parallel scan, stated by what it is: a whole number
/// of words, at least one word, long enough that `threads` pieces cover the
/// buffer, and the shortest such length: one word less would leave part of
/// the buffer for an extra piece.
pub proof fn lemma_parallel_chunk_len_is_least_cover(len: nat, threads: nat)
    requires
        threads > 1,
        len > 0,
    ensures
        parallel_chunk_len_spec(len, threads) % 8 == 0,
        parallel_chunk_len_spec(len, threads) >= 8,
        parallel_chunk_len_spec(len, threads) * threads >= len,
        parallel_chunk_len_spec(len, threads) == 8 || (parallel_chunk_len_spec(len, threads) - 8)
            * threads < len,
{
    let t = threads as int;
    let l = len as int;
    let q = l / t;
    let rem = l % t;
    vstd::arithmetic::div_mod::lemma_fundamental_div_mod(l, t);
    let c = ceil_div(len, threads) as int;
    assert(c * t >= l && (c - 1) * t < l) by (nonlinear_arith)
        requires
            l == t * q + rem,
            0 <= rem < t,
            c == if rem == 0 {
                q
            } else {
                q + 1
            },
            t > 1,
            l > 0,
    ;
    let x = c as int;
    let r = round_up_to_word(c as nat) as int;
    assert(r % 8 == 0 && x <= r < x + 8) by {
        if x % 8 != 0 {
            vstd::arithmetic::div_mod::lemma_fundamental_div_mod(x, 8);
            vstd::arithmetic::div_mod::lemma_mod_multiples_basic(x / 8 + 1, 8);
        }
    }
    let per = parallel_chunk_len_spec(len, threads) as int;
    if r < 8 {
        assert(per == 8);
        assert(per * t >= l) by (nonlinear_arith)
            requires
                per >= x,
                x * t >= l,
                t > 1,
        ;
    } else {
        assert(per == r);
        assert(per * t >= l && (per == 8 || (per - 8) * t < l)) by (nonlinear_arith)
            requires
                per >= x,
                per < x + 8,
                x * t >= l,
                (x - 1) * t < l,
                t > 1,
        ;
    }
}

/// A non-empty buffer cut into pieces of `per` bytes has as many pieces as it
/// takes to cover it, and no more.
pub proof fn lemma_chunk_count(s: Seq<u8>, per: nat)
    requires
        per > 0,
        s.len() > 0,
    ensures
        chunks(s, per).len() * per >= s.len(),
        (chunks(s, per).len() - 1) * per < s.len(),
    decreases s.len(),
{
    if s.len() > per {
        lemma_chunk_count(s.skip(per as int), per);
        let n = chunks(s.skip(per as int), per).len() as int;
        assert(chunks(s, per).len() == n + 1);
        assert((n + 1) * per >= s.len() && n * per < s.len()) by (nonlinear_arith)
            requires
                n * per >= s.len() - per,
                (n - 1) * per < s.len() - per,
        ;
    } else {
        assert(chunks(s, per).len() == 1);
        assert(1 * per == per);
    }
}

/// A parallel scan of a non-empty buffer on `threads` threads cuts it into at
/// most `threads` pieces, every one but the last a whole number of words.
pub proof fn lemma_parallel_pieces_fit_threads(s: Seq<u8>, threads: nat)
    requires
        threads > 1,
        s.len() > 0,
    ensures
        chunks(s, parallel_chunk_len_spec(s.len(), threads)).len() <= threads,
        forall|k: int|
            0 <= k < chunks(s, parallel_chunk_len_spec(s.len(), threads)).len() - 1 ==> (#[trigger] chunks(
                s,
                parallel_chunk_len_spec(s.len(), threads),
            )[k]).len() % 8 == 0,
{
    let per = parallel_chunk_len_spec(s.len(), threads);
    lemma_parallel_chunk_len_is_least_cover(s.len(), threads);
    lemma_chunk_count(s, per);
    let n = chunks(s, per).len() as int;
    assert(n <= threads) by (nonlinear_arith)
        requires
            (n - 1) * per < s.len(),
            per * threads >= s.len(),
            per > 0,
    ;
    lemma_inner_chunks_full(s, per);
}

/// Every piece but the last is exactly `per` bytes long.
proof fn lemma_inner_chunks_full(s: Seq<u8>, per: nat)
    requires
        per > 0,
    ensures
        forall|k: int| 0 <= k < chunks(s, per).len() - 1 ==> (#[trigger] chunks(s, per)[k]).len() == per,
    decreases s.len(),
{
    if s.len() > per {
        lemma_inner_chunks_full(s.skip(per as int), per);
        let c = chunks(s, per);
        let rest = chunks(s.skip(per as int), per);
        assert(c =~= seq![s.take(per as int)] + rest);
        assert forall|k: int| 0 <= k < c.len() - 1 implies (#[trigger] c[k]).len() == per by {
            if k > 0 {
                assert(c[k] == rest[k - 1]);
            }
        }
    }
}

/// How a parallel scan splits a buffer of `len` bytes across `threads`
/// threads: `None` when it does not split at all (one thread or fewer, or an
/// empty buffer) and scans serially, else the length of each piece.
pub fn parallel_chunk_len(len: usize, threads: usize) -> (per: Option<usize>)
    ensures
        (threads <= 1 || len == 0) ==> per is None,
        (threads > 1 && len > 0) ==> per == Some(
            parallel_chunk_len_spec(len as nat, threads as nat) as usize,
        ),
        per matches Some(p) ==> {
            &&& p % 8 == 0
            &&& p >= 8
            &&& p * threads >= len
            &&& p == 8 || (p - 8) * threads < len
        },
{
    if threads <= 1 || len == 0 {
        return None;
    }
    proof {
        vstd::arithmetic::div_mod::lemma_div_is_ordered_by_denominator(
            len as int,
            2,
            threads as int,
        );
    }
    proof {
        lemma_parallel_chunk_len_is_least_cover(len as nat, threads as nat);
    }
    let q = len / threads;
    let ceil = if len % threads == 0 {
        q
    } else {
        q + 1
    };
    let up = if ceil % 8 == 0 {
        ceil
    } else {
        ceil + (8 - ceil % 8)
    };
    if up < 8 {
        Some(8)
    } else {
        Some(up)
    }
}

/// A parallel scan, which scans the pieces that `parallel_chunk_len` chooses
/// and folds the results, returns what a serial scan returns.
pub proof fn lemma_parallel_scan_agrees(s: Seq<u8>, threads: nat)
    requires
        threads > 1,
        s.len() > 0,
    ensures
        wrapping_total(chunk_scans(s, parallel_chunk_len_spec(s.len(), threads))) == scan_spec(s),
{
    let x = ceil_div(s.len(), threads);
    let per = parallel_chunk_len_spec(s.len(), threads);
    if x % 8 != 0 {
        assert((x + (8 - x % 8)) % 8 == 0) by {
            vstd::arithmetic::div_mod::lemma_fundamental_div_mod(x as int, 8);
            vstd::arithmetic::div_mod::lemma_mod_multiples_basic(x as int / 8 + 1, 8);
        }
    }
    assert(per % 8 == 0);
    lemma_chunked_scan_agrees(s, per);
}

/// Folds per-chunk scan results into one, wrapping at 64 bits.
pub fn combine_partials(partials: &[u64]) -> (total: u64)
    ensures
        total == wrapping_total(partials@),
{
    let mut acc: u64 = 0;
    let mut i: usize = 0;
    assert(partials@.skip(0) =~= partials@);
    while i < partials.len()
        invariant
            i <= partials@.len(),
            (acc as nat + words_total(partials@.skip(i as int))) % word_modulus()
                == words_total(partials@) % word_modulus(),
        decreases partials.len() - i,
    {
        let ghost rest = partials@.skip(i as int);
        proof {
            assert(rest.drop_first() =~= partials@.skip(i + 1));
            vstd::arithmetic::div_mod::lemma_add_mod_noop(
                acc as int + partials@[i as int] as int,
                words_total(partials@.skip(i + 1)) as int,
                word_modulus() as int,
            );
            vstd::arithmetic::div_mod::lemma_mod_twice(
                acc as int + partials@[i as int] as int,
                word_modulus() as int,
            );
        }
        acc = acc.wrapping_add(partials[i]);
        i = i + 1;
    }
    proof {
        assert(partials@.skip(i as int).len() == 0);
        vstd::arithmetic::div_mod::lemma_small_mod(acc as nat, word_modulus());
    }
    acc
}

} // verus!
