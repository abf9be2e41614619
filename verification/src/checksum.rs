//! The Internet one's-complement checksum of RFC 1071, shared by the
//! IPv4 header and the UDP pseudo-header checksum.

use vstd::arithmetic::div_mod::{
    lemma_fundamental_div_mod, lemma_mod_division_less_than_divisor, lemma_mod_multiples_vanish,
};
use vstd::prelude::*;

verus! {

/// The 16-bit big-endian words of a byte string; an odd final byte is
/// padded with a zero low byte.
pub open spec fn spec_words(b: Seq<u8>) -> Seq<u16>
    decreases b.len(),
{
    if b.len() == 0 {
        Seq::empty()
    } else if b.len() == 1 {
        seq![((b[0] as int) * 256) as u16]
    } else {
        seq![((b[0] as int) * 256 + b[1] as int) as u16] + spec_words(b.skip(2))
    }
}

/// The plain integer sum of a word sequence.
pub open spec fn spec_sum(ws: Seq<u16>) -> int
    decreases ws.len(),
{
    if ws.len() == 0 {
        0
    } else {
        ws[0] + spec_sum(ws.skip(1))
    }
}

/// The one's-complement canonical form of a non-negative sum: the value
/// in `0..=0xffff` congruent to it modulo 0xffff, with zero only for a
/// zero sum.  Folding the carry back into the low 16 bits until none is
/// left computes exactly this.
pub open spec fn spec_oc_canon(n: int) -> int {
    if n <= 0 {
        0
    } else {
        (n - 1) % 0xffff + 1
    }
}

/// The RFC 1071 checksum of a byte string: the complement of the
/// one's-complement sum of its big-endian words.
pub open spec fn spec_checksum(b: Seq<u8>) -> u16 {
    (0xffff - spec_oc_canon(spec_sum(spec_words(b)))) as u16
}

/// Word sums are non-negative and bounded by the word count.
pub proof fn lemma_sum_bounds(ws: Seq<u16>)
    ensures
        0 <= spec_sum(ws) <= ws.len() * 0xffff,
    decreases ws.len(),
{
    if ws.len() == 0 {
    } else {
        lemma_sum_bounds(ws.skip(1));
        assert(ws.skip(1).len() == ws.len() - 1);
        assert((ws.len() - 1) * 0xffff == ws.len() * 0xffff - 0xffff) by (nonlinear_arith);
    }
}

/// A byte string has at most as many words as bytes.
pub proof fn lemma_words_len(b: Seq<u8>)
    ensures
        spec_words(b).len() <= b.len(),
    decreases b.len(),
{
    if b.len() >= 2 {
        lemma_words_len(b.skip(2));
    }
}

/// Summing distributes over concatenation.
pub proof fn lemma_sum_append(a: Seq<u16>, b: Seq<u16>)
    ensures
        spec_sum(a + b) == spec_sum(a) + spec_sum(b),
    decreases a.len(),
{
    if a.len() == 0 {
        assert(a + b =~= b);
    } else {
        lemma_sum_append(a.skip(1), b);
        assert((a + b).skip(1) =~= a.skip(1) + b);
        assert((a + b)[0] == a[0]);
    }
}

/// Splitting a byte string at an even offset splits its words.
pub proof fn lemma_words_append(a: Seq<u8>, b: Seq<u8>)
    requires
        a.len() % 2 == 0,
    ensures
        spec_words(a + b) == spec_words(a) + spec_words(b),
    decreases a.len(),
{
    if a.len() == 0 {
        assert(a + b =~= b);
        assert(spec_words(a) =~= Seq::<u16>::empty());
        assert(spec_words(a) + spec_words(b) =~= spec_words(b));
    } else {
        assert(a.len() >= 2);
        lemma_words_append(a.skip(2), b);
        let c = a + b;
        assert(c.len() >= 2);
        assert(c[0] == a[0] && c[1] == a[1]);
        assert(c.skip(2) =~= a.skip(2) + b);
        assert(spec_words(c) == seq![((a[0] as int) * 256 + a[1] as int) as u16] + (spec_words(
            a.skip(2),
        ) + spec_words(b)));
        assert(spec_words(c) =~= spec_words(a) + spec_words(b));
    }
}

/// The canonical form is congruent to the sum modulo 0xffff.
pub proof fn lemma_oc_canon_mod(n: int)
    requires
        n >= 0,
    ensures
        (n - spec_oc_canon(n)) % 0xffff == 0,
{
    if n > 0 {
        lemma_fundamental_div_mod(n - 1, 0xffff);
        let q = (n - 1) / 0xffff;
        assert(n - spec_oc_canon(n) == 0xffff * q);
        lemma_mod_multiples_vanish(q, 0, 0xffff);
    }
}

/// Any value in `1..=0xffff` congruent to a positive sum modulo 0xffff
/// is its canonical form.
pub proof fn lemma_oc_canon_unique(n: int, x: int)
    requires
        n > 0,
        1 <= x <= 0xffff,
        (n - x) % 0xffff == 0,
    ensures
        spec_oc_canon(n) == x,
{
    let c = spec_oc_canon(n);
    lemma_mod_division_less_than_divisor(n - 1, 0xffff);
    assert(1 <= c <= 0xffff);
    lemma_oc_canon_mod(n);
    lemma_fundamental_div_mod(n - c, 0xffff);
    lemma_fundamental_div_mod(n - x, 0xffff);
    let qc = (n - c) / 0xffff;
    let qx = (n - x) / 0xffff;
    assert(n - c == 0xffff * qc);
    assert(n - x == 0xffff * qx);
    assert(x - c == 0xffff * (qc - qx)) by (nonlinear_arith)
        requires
            n - c == 0xffff * qc,
            n - x == 0xffff * qx,
    ;
    assert(-0xffff < x - c < 0xffff);
    assert(qc == qx) by (nonlinear_arith)
        requires
            x - c == 0xffff * (qc - qx),
            -0xffff < x - c < 0xffff,
    ;
}

/// The RFC 1071 Internet checksum of `data`.
#[verifier::loop_isolation(false)]
pub fn checksum(data: &[u8]) -> (r: u16)
    requires
        data@.len() <= 0xffff,
    ensures
        r == spec_checksum(data@),
{
    let ghost total = spec_sum(spec_words(data@));
    let mut acc: u64 = 0;
    let mut i: usize = 0;
    proof {
        assert(data@.take(0) =~= Seq::<u8>::empty());
        assert(spec_words(Seq::<u8>::empty()) =~= Seq::<u16>::empty());
        lemma_sum_bounds(spec_words(data@));
    }
    while i + 2 <= data.len()
        invariant
            i % 2 == 0,
            i <= data@.len(),
            acc == spec_sum(spec_words(data@.take(i as int))),
            acc <= 0xffff * (data@.len() as int),
        decreases data@.len() - i,
    {
        let w: u64 = (data[i] as u64) * 256 + (data[i + 1] as u64);
        proof {
            let pre = data@.take(i as int);
            let pair = data@.subrange(i as int, i + 2);
            assert(data@.take(i + 2) =~= pre + pair);
            lemma_words_append(pre, pair);
            assert(pair[0] == data@[i as int] && pair[1] == data@[i + 1]);
            assert(pair.skip(2) =~= Seq::<u8>::empty());
            assert(spec_words(pair) =~= seq![
                ((pair[0] as int) * 256 + pair[1] as int) as u16,
            ]);
            lemma_sum_append(spec_words(pre), spec_words(pair));
            assert(spec_words(pair).skip(1) =~= Seq::<u16>::empty());
            assert(spec_sum(spec_words(pair)) == spec_words(pair)[0] + spec_sum(
                Seq::<u16>::empty(),
            ));
            assert(spec_sum(spec_words(pair)) == w);
            lemma_sum_bounds(spec_words(data@.take(i + 2)));
            lemma_words_len(data@.take(i + 2));
            assert(spec_words(data@.take(i + 2)).len() <= data@.len());
            assert(spec_words(data@.take(i + 2)).len() * 0xffff <= data@.len() * 0xffff)
                by (nonlinear_arith)
                requires
                    spec_words(data@.take(i + 2)).len() <= data@.len(),
            ;
        }
        acc = acc + w;
        i = i + 2;
    }
    if i < data.len() {
        let w: u64 = (data[i] as u64) * 256;
        proof {
            let pre = data@.take(i as int);
            let pair = data@.subrange(i as int, i + 1);
            assert(data@.take(i + 1) =~= pre + pair);
            lemma_words_append(pre, pair);
            assert(pair[0] == data@[i as int]);
            assert(spec_words(pair) =~= seq![((pair[0] as int) * 256) as u16]);
            lemma_sum_append(spec_words(pre), spec_words(pair));
            assert(spec_words(pair).skip(1) =~= Seq::<u16>::empty());
            assert(spec_sum(spec_words(pair)) == spec_words(pair)[0] + spec_sum(
                Seq::<u16>::empty(),
            ));
            assert(spec_sum(spec_words(pair)) == w);
            lemma_sum_bounds(spec_words(data@.take(i + 1)));
            lemma_words_len(data@.take(i + 1));
            assert(spec_words(data@.take(i + 1)).len() <= data@.len());
            assert(spec_words(data@.take(i + 1)).len() * 0xffff <= data@.len() * 0xffff)
                by (nonlinear_arith)
                requires
                    spec_words(data@.take(i + 1)).len() <= data@.len(),
            ;
        }
        acc = acc + w;
        i = i + 1;
    }
    proof {
        assert(data@.take(data@.len() as int) =~= data@);
        assert(acc == total);
        assert(0xffff * (data@.len() as int) < 0x100000000int) by (nonlinear_arith)
            requires
                data@.len() <= 0xffff,
        ;
    }
    while acc > 0xffff
        invariant
            acc <= 0xffff * (data@.len() as int) || acc <= 0xffff,
            total > 0 ==> acc > 0 && (total - acc) % 0xffff == 0,
            total == 0 ==> acc == 0,
            acc <= total,
        decreases acc,
    {
        let hi: u64 = acc / 65536;
        let lo: u64 = acc % 65536;
        proof {
            lemma_fundamental_div_mod(acc as int, 65536);
            assert(acc == 65536 * (acc as int / 65536) + acc as int % 65536);
            assert(hi >= 1);
            let n: int = hi as int + lo as int;
            assert(acc - n == 0xffff * (hi as int));
            lemma_mod_multiples_vanish(hi as int, total - n, 0xffff);
            assert((0xffff * (hi as int) + (total - n)) % 0xffff == (total - n) % 0xffff);
            assert(0xffff * (hi as int) + (total - n) == total - acc + (acc - n) + 0xffff * (
            hi as int));
            assert((total - acc) % 0xffff == 0 ==> (total - n) % 0xffff == 0);
        }
        acc = hi + lo;
    }
    proof {
        if total > 0 {
            lemma_oc_canon_unique(total, acc as int);
        }
        assert(acc as int == spec_oc_canon(total));
    }
    (0xffffu64 - acc) as u16
}

} // verus!
