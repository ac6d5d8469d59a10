use vstd::prelude::*;

verus! {

/// Number of bits in one storage word.
pub const WORD_BITS: u64 = 64;

/// The `n` low-order bits set (all bits when `n >= 64`).
pub open spec fn low_mask(n: u64) -> u64 {
    !(u64::MAX << n)
}

/// The `len` bits of `w` that start `off` bits below its most significant bit,
/// right-aligned. Offsets count from the most significant end of the word.
pub open spec fn field(w: u64, off: u64, len: u64) -> u64 {
    (w >> ((64 - off - len) as u64)) & low_mask(len)
}

/// Reads `len` bits of `w` at offset `off` (from the most significant end).
pub fn read_field(w: u64, off: u64, len: u64) -> (r: u64)
    requires
        off + len <= 64,
        len < 64,
    ensures
        r == field(w, off, len),
        r >> len == 0,
{
    if len == 0 {
        assert(field(w, off, 0) == 0) by (bit_vector)
            requires
                off <= 64,
        ;
        assert(0u64 >> len == 0) by (bit_vector);
        return 0;
    }
    let s: u64 = 64 - off - len;
    let r = (w >> s) & !(u64::MAX << len);
    assert(r >> len == 0) by (bit_vector)
        requires
            r == (w >> s) & !(u64::MAX << len),
            len < 64,
    ;
    r
}

/// Replaces the `len` bits of `w` at offset `off` with `v`, keeping all other bits.
pub fn write_field(w: u64, off: u64, len: u64, v: u64) -> (r: u64)
    requires
        off + len <= 64,
        len < 64,
        v >> len == 0,
    ensures
        field(r, off, len) == v,
        forall|c: u64, m: u64|
            #![trigger field(r, c, m)]
            c + m <= 64 && (c + m <= off || off + len <= c) ==> field(r, c, m) == field(w, c, m),
{
    if len == 0 {
        assert(v == 0 && field(w, off, 0) == 0) by (bit_vector)
            requires
                off <= 64,
                v >> len == 0,
                len == 0,
        ;
        return w;
    }
    let s: u64 = 64 - off - len;
    let m: u64 = !(u64::MAX << len) << s;
    let r = (w & !m) | (v << s);
    assert(field(r, off, len) == v) by (bit_vector)
        requires
            r == (w & !m) | (v << s),
            m == !(u64::MAX << len) << s,
            s == 64 - off - len,
            off + len <= 64,
            0 < len < 64,
            v >> len == 0,
    ;
    assert(r & !m == w & !m) by (bit_vector)
        requires
            r == (w & !m) | (v << s),
            m == !(u64::MAX << len) << s,
            s == 64 - off - len,
            0 < len < 64,
            v >> len == 0,
    ;
    assert forall|c: u64, k: u64|
        #![trigger field(r, c, k)]
        c + k <= 64 && (c + k <= off || off + len <= c) implies field(r, c, k) == field(w, c, k) by {
        lemma_field_outside(r, w, m, off, len, c, k);
    }
    r
}

/// Two words that agree outside the mask of the region `[off, off + len)` agree
/// on every region disjoint from it.
proof fn lemma_field_outside(r: u64, w: u64, m: u64, off: u64, len: u64, c: u64, k: u64)
    requires
        r & !m == w & !m,
        m == !(u64::MAX << len) << ((64 - off - len) as u64),
        off + len <= 64,
        0 < len < 64,
        c + k <= 64,
        c + k <= off || off + len <= c,
    ensures
        field(r, c, k) == field(w, c, k),
{
    let t: u64 = (64 - c - k) as u64;
    let fm: u64 = low_mask(k) << t;
    assert(fm & m == 0) by (bit_vector)
        requires
            fm == !(u64::MAX << k) << t,
            t == 64 - c - k,
            m == !(u64::MAX << len) << ((64 - off - len) as u64),
            off + len <= 64,
            0 < len < 64,
            c + k <= 64,
            c + k <= off || off + len <= c,
    ;
    assert(field(r, c, k) == (r & fm) >> t && field(w, c, k) == (w & fm) >> t) by (bit_vector)
        requires
            fm == !(u64::MAX << k) << t,
            t == 64 - c - k,
            c + k <= 64,
    ;
    assert((r & fm) == (w & fm)) by (bit_vector)
        requires
            fm & m == 0,
            r & !m == w & !m,
    ;
}

/// A run of `n` bits is below `2^n`.
pub proof fn lemma_field_bound(w: u64, off: u64, n: u64)
    requires
        off + n <= 64,
        n < 64,
    ensures
        field(w, off, n) >> n == 0,
{
    assert(field(w, off, n) >> n == 0) by (bit_vector)
        requires
            off + n <= 64,
            n < 64,
    ;
}

/// One bit of a run is the matching bit of the value read from the run.
pub proof fn lemma_bit_of_field(w: u64, off: u64, n: u64, t: u64)
    requires
        off + n <= 64,
        t < n,
    ensures
        field(w, (off + t) as u64, 1) == (field(w, off, n) >> ((n - 1 - t) as u64)) & 1,
{
    assert(field(w, (off + t) as u64, 1) == (field(w, off, n) >> ((n - 1 - t) as u64)) & 1)
        by (bit_vector)
        requires
            off + n <= 64,
            t < n,
    ;
}

/// The bits of `(hi << l) | lo`, a value of `h + l` bits, are those of `hi`
/// and then those of `lo`.
pub proof fn lemma_bit_of_join(hi: u64, lo: u64, h: u64, l: u64, t: u64)
    requires
        hi >> h == 0,
        lo >> l == 0,
        0 < h,
        0 < l,
        h + l < 64,
        t < h + l,
    ensures
        t < h ==> ((hi << l) | lo) >> ((h + l - 1 - t) as u64) & 1 == (hi >> ((h - 1 - t) as u64)) & 1,
        t >= h ==> ((hi << l) | lo) >> ((h + l - 1 - t) as u64) & 1 == (lo >> ((l - 1 - (t - h)) as u64)) & 1,
{
    if t < h {
        assert(((hi << l) | lo) >> ((h + l - 1 - t) as u64) & 1 == (hi >> ((h - 1 - t) as u64)) & 1)
            by (bit_vector)
            requires
                hi >> h == 0,
                lo >> l == 0,
                0 < h,
                0 < l,
                h + l < 64,
                t < h,
        ;
    } else {
        assert(((hi << l) | lo) >> ((h + l - 1 - t) as u64) & 1 == (lo >> ((l - 1 - (t - h)) as u64)) & 1)
            by (bit_vector)
            requires
                hi >> h == 0,
                lo >> l == 0,
                0 < h,
                0 < l,
                h + l < 64,
                h <= t < h + l,
        ;
    }
}

/// A run of `m + 1` bits is its first `m` bits followed by the next one.
proof fn lemma_field_grow(w: u64, c: u64, m: u64)
    requires
        c + m < 64,
    ensures
        field(w, c, (m + 1) as u64) == (field(w, c, m) << 1) | field(w, (c + m) as u64, 1),
{
    assert(field(w, c, (m + 1) as u64) == (field(w, c, m) << 1) | field(w, (c + m) as u64, 1))
        by (bit_vector)
        requires
            c + m < 64,
    ;
}

/// Two words that agree on the first `m` one-bit runs agree on the run of
/// the first `m` bits.
proof fn lemma_prefix_from_bits(a: u64, b: u64, m: u64)
    requires
        m <= 64,
        forall|c: u64| c < m ==> #[trigger] field(a, c, 1) == field(b, c, 1),
    ensures
        field(a, 0, m) == field(b, 0, m),
    decreases m,
{
    if m == 0 {
        assert(field(a, 0, 0) == 0 && field(b, 0, 0) == 0) by (bit_vector);
    } else {
        let k = (m - 1) as u64;
        lemma_prefix_from_bits(a, b, k);
        lemma_field_grow(a, 0, k);
        lemma_field_grow(b, 0, k);
        assert(field(a, k, 1) == field(b, k, 1));
    }
}

/// Two words with the same bits are the same word.
pub proof fn lemma_word_from_bits(a: u64, b: u64)
    requires
        forall|c: u64| c < 64 ==> #[trigger] field(a, c, 1) == field(b, c, 1),
    ensures
        a == b,
{
    lemma_prefix_from_bits(a, b, 64);
    assert(field(a, 0, 64) == a && field(b, 0, 64) == b) by (bit_vector);
}

} // verus!
