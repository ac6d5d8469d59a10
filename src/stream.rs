use vstd::prelude::*;
use crate::word::{field, lemma_bit_of_field, lemma_field_bound, lemma_bit_of_join, read_field, write_field};

verus! {

/// The `n` bits (`n < 64`) that start at absolute bit position `p` of the stream
/// formed by the words of `s`, most significant bit first, right-aligned.
/// Such a run lies in one word or straddles two neighbouring words.
pub open spec fn read_bits(s: Seq<u64>, p: int, n: int) -> u64 {
    let w = p / 64;
    let off = p % 64;
    if off + n <= 64 {
        field(s[w], off as u64, n as u64)
    } else {
        let l = off + n - 64;
        (field(s[w], off as u64, (64 - off) as u64) << (l as u64)) | field(s[w + 1], 0, l as u64)
    }
}

/// `t` is `s` with at most the bits of `[p, p + n)` changed: every run of bits of
/// a word that lies outside that range is the same in both.
pub open spec fn agree_outside(s: Seq<u64>, t: Seq<u64>, p: int, n: int) -> bool {
    &&& s.len() == t.len()
    &&& forall|k: int, c: u64, m: u64|
        #![trigger field(t[k], c, m)]
        0 <= k < s.len() && c + m <= 64 && (64 * k + c + m <= p || p + n <= 64 * k + c)
            ==> field(t[k], c, m) == field(s[k], c, m)
}

/// A run of bits disjoint from the changed range reads the same.
pub proof fn lemma_read_outside(s: Seq<u64>, t: Seq<u64>, p: int, n: int, q: int, n2: int)
    requires
        agree_outside(s, t, p, n),
        0 <= q,
        0 <= n2 < 64,
        q < 64 * s.len(),
        q + n2 <= 64 * s.len(),
        q + n2 <= p || p + n <= q,
    ensures
        read_bits(t, q, n2) == read_bits(s, q, n2),
{
    let w = q / 64;
    let off = q % 64;
    if off + n2 <= 64 {
        assert(field(t[w], off as u64, n2 as u64) == field(s[w], off as u64, n2 as u64));
    } else {
        let l = off + n2 - 64;
        assert(field(t[w], off as u64, (64 - off) as u64) == field(s[w], off as u64, (64 - off) as u64));
        assert(field(t[w + 1], 0, l as u64) == field(s[w + 1], 0, l as u64));
    }
}

/// Reads the `n` bits at absolute position `p`.
pub fn read_at(s: &Vec<u64>, p: usize, n: u64) -> (r: u64)
    requires
        n < 64,
        p < 64 * s@.len(),
        p + n <= 64 * s@.len(),
    ensures
        r == read_bits(s@, p as int, n as int),
        r >> n == 0,
{
    let w = p / 64;
    let off = (p % 64) as u64;
    if off + n <= 64 {
        read_field(s[w], off, n)
    } else {
        let l = off + n - 64;
        let h = 64 - off;
        let hi = read_field(s[w], off, h);
        let lo = read_field(s[w + 1], 0, l);
        let r = (hi << l) | lo;
        assert(r >> n == 0) by (bit_vector)
            requires
                r == (hi << l) | lo,
                hi >> h == 0,
                lo >> l == 0,
                h + l == n,
                n < 64,
        ;
        r
    }
}

/// Overwrites the `n` bits at absolute position `p` with `v`, keeping all others.
pub fn write_at(s: &mut Vec<u64>, p: usize, n: u64, v: u64)
    requires
        n < 64,
        p < 64 * old(s)@.len(),
        p + n <= 64 * old(s)@.len(),
        v >> n == 0,
    ensures
        read_bits(final(s)@, p as int, n as int) == v,
        agree_outside(old(s)@, final(s)@, p as int, n as int),
{
    let w = p / 64;
    let off = (p % 64) as u64;
    if off + n <= 64 {
        let x = write_field(s[w], off, n, v);
        s.set(w, x);
    } else {
        let l = off + n - 64;
        let h = 64 - off;
        let hi = v >> l;
        let lo = v & !(u64::MAX << l);
        assert(hi >> h == 0 && lo >> l == 0 && (hi << l) | lo == v) by (bit_vector)
            requires
                hi == v >> l,
                lo == v & !(u64::MAX << l),
                h + l == n,
                0 < l < 64,
                n < 64,
                v >> n == 0,
        ;
        let x = write_field(s[w], off, h, hi);
        s.set(w, x);
        let y = write_field(s[w + 1], 0, l, lo);
        s.set(w + 1, y);
    }
}

/// Each bit of the stream inside a run is the matching bit of the value read
/// from that run.
pub proof fn lemma_bit_of_run(s: Seq<u64>, p: int, n: int, q: int)
    requires
        0 <= p <= q < p + n,
        0 < n < 64,
        p + n <= 64 * s.len(),
    ensures
        field(s[q / 64], (q % 64) as u64, 1) == (read_bits(s, p, n) >> ((p + n - 1 - q) as u64)) & 1,
{
    let w = p / 64;
    let off = p % 64;
    let t = q - p;
    if off + n <= 64 {
        assert(q / 64 == w && q % 64 == off + t);
        lemma_bit_of_field(s[w], off as u64, n as u64, t as u64);
    } else {
        let h = 64 - off;
        let l = off + n - 64;
        let hi = field(s[w], off as u64, h as u64);
        let lo = field(s[w + 1], 0, l as u64);
        lemma_field_bound(s[w], off as u64, h as u64);
        lemma_field_bound(s[w + 1], 0, l as u64);
        lemma_bit_of_join(hi, lo, h as u64, l as u64, t as u64);
        if t < h {
            assert(q / 64 == w && q % 64 == off + t);
            lemma_bit_of_field(s[w], off as u64, h as u64, t as u64);
        } else {
            assert(q / 64 == w + 1 && q % 64 == t - h);
            lemma_bit_of_field(s[w + 1], 0, l as u64, (t - h) as u64);
        }
    }
}

} // verus!
