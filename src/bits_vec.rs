use vstd::prelude::*;
use std::marker::PhantomData;
use crate::codec::ReprUsize;
use vstd::std_specs::cmp::PartialEqSpec;
use crate::stream::{agree_outside, lemma_bit_of_run, lemma_read_outside, read_at, read_bits, write_at};
use crate::word::{field, lemma_word_from_bits, WORD_BITS};
use vstd::arithmetic::div_mod::lemma_fundamental_div_mod;

verus! {

/// The largest number of bits that a vector may hold in all.
pub const MAX_BITS: usize = usize::MAX - 128;

/// `len` elements of `bits` bits each fit the machine's limits.
pub open spec fn can_hold(len: nat, bits: usize) -> bool {
    len <= usize::MAX && len * bits <= MAX_BITS
}

/// `code` has no bits set at or above position `bits`: `code < 2^bits`.
pub open spec fn fits(code: usize, bits: usize) -> bool {
    (code as u64) >> (bits as u64) == 0
}

/// The run of bits that holds element `i` of a stream of `bits`-wide elements.
pub open spec fn run(s: Seq<u64>, bits: int, i: int) -> u64 {
    read_bits(s, i * bits, bits)
}

/// Element `i` of a stream of `bits`-wide elements.
pub open spec fn element(s: Seq<u64>, bits: int, i: int) -> usize {
    run(s, bits, i) as usize
}

/// Elements before `j` end where element `j` starts, or earlier.
proof fn lemma_before(i: int, j: int, bits: int)
    requires
        0 <= i < j,
        0 <= bits,
    ensures
        i * bits + bits <= j * bits,
{
    assert(i * bits + bits <= j * bits) by (nonlinear_arith)
        requires
            0 <= i < j,
            0 <= bits,
    ;
}

/// Reading from a stream is unchanged by words appended after it.
proof fn lemma_read_prefix(s: Seq<u64>, t: Seq<u64>, q: int, n: int)
    requires
        t.subrange(0, s.len() as int) == s,
        s.len() <= t.len(),
        0 <= q,
        0 <= n < 64,
        q < 64 * s.len(),
        q + n <= 64 * s.len(),
    ensures
        read_bits(t, q, n) == read_bits(s, q, n),
{
    let w = q / 64;
    assert(t[w] == s[w]);
    if q % 64 + n > 64 {
        assert(t[w + 1] == s[w + 1]);
    }
}

/// An element that ends inside the stream starts inside it.
proof fn lemma_start_inside(i: int, bits: int, len: int)
    requires
        0 <= i,
        0 <= bits,
        i * bits + bits <= 64 * len,
        len >= 1,
    ensures
        i * bits < 64 * len,
{
    if bits == 0 {
        assert(i * bits == 0) by (nonlinear_arith)
            requires
                bits == 0,
        ;
    }
}

/// Reading words appended after a stream of whole words reads them alone.
proof fn lemma_read_shift(s: Seq<u64>, t: Seq<u64>, q: int, n: int)
    requires
        0 <= q,
        0 <= n < 64,
        q < 64 * t.len(),
        q + n <= 64 * t.len(),
    ensures
        read_bits(s + t, 64 * s.len() + q, n) == read_bits(t, q, n),
{
    let u = s + t;
    let w = q / 64;
    assert((64 * s.len() + q) / 64 == s.len() + w);
    assert((64 * s.len() + q) % 64 == q % 64);
    assert(u[s.len() + w] == t[w]);
    if q % 64 + n > 64 {
        assert(u[s.len() + w + 1] == t[w + 1]);
    }
}

/// A width that fills whole words after 64 elements.
proof fn lemma_full_after_64(len: int, bits: int, leftover: int)
    requires
        64 * len == 64 * bits + leftover,
        0 <= leftover < 64,
    ensures
        leftover == 0,
{
}

/// Fewer elements fit where more do.
proof fn lemma_can_hold_less(a: nat, b: nat, bits: usize)
    requires
        a <= b,
        can_hold(b, bits),
    ensures
        can_hold(a, bits),
{
    assert(a * bits <= b * bits) by (nonlinear_arith)
        requires
            a <= b,
    ;
}

/// The all-zero word has every run of bits zero.
proof fn lemma_zero_field(c: u64, m: u64)
    ensures
        field(0, c, m) == 0,
{
    assert(field(0, c, m) == 0) by (bit_vector);
}

/// A growable sequence of fixed-width unsigned codes, packed most significant bit
/// first into 64-bit words with no padding between elements.
#[derive(Hash)]
pub struct BitsVec<T: ReprUsize> {
    inner: Vec<u64>,
    units: usize,
    bits: usize,
    max_bits: usize,
    leftover: usize,
    _marker: PhantomData<T>,
}

impl<T: ReprUsize> BitsVec<T> {
    /// The codes held, in order.
    pub closed spec fn view(&self) -> Seq<usize> {
        Seq::new(self.units as nat, |i: int| element(self.inner@, self.bits as int, i))
    }

    /// The width of each element in bits.
    pub closed spec fn spec_bits(&self) -> usize {
        self.bits
    }

    /// The storage words.
    pub closed spec fn words(&self) -> Seq<u64> {
        self.inner@
    }

    /// The bits committed to storage: all bits of the words but the free low
    /// bits of the last word.
    pub closed spec fn committed_bits(&self) -> int {
        64 * self.inner@.len() - self.leftover
    }

    /// The representation invariant: the width is below one word; the words
    /// hold exactly the committed bits plus the free bits of the last word, which
    /// are zero; at least one word exists.
    pub closed spec fn wf(&self) -> bool {
        &&& self.bits < 64
        &&& self.max_bits == 64
        &&& self.inner@.len() >= 1
        &&& self.units * self.bits <= MAX_BITS
        &&& 64 * self.inner@.len() == self.units * self.bits + self.leftover
        &&& self.leftover <= 64
        &&& (self.leftover == 64 <==> self.units * self.bits == 0)
        &&& forall|k: int, c: u64, m: u64|
            #![trigger field(self.inner@[k], c, m)]
            0 <= k < self.inner@.len() && c + m <= 64 && 64 * k + c >= self.units * self.bits
                ==> field(self.inner@[k], c, m) == 0
        &&& forall|i: int|
            0 <= i < self.units ==> fits(#[trigger] self@[i], self.bits)
                && run(self.inner@, self.bits as int, i) <= usize::MAX
    }

    /// An empty vector of `bits`-wide elements: one zero word.
    pub fn new(bits: usize) -> (r: BitsVec<T>)
        requires
            bits < 64,
        ensures
            r.wf(),
            r@ == Seq::<usize>::empty(),
            r.spec_bits() == bits,
            r.words() == seq![0u64],
    {
        let max: usize = WORD_BITS as usize;
        let r = BitsVec {
            inner: vec![0],
            units: 0,
            bits: bits,
            max_bits: max,
            leftover: max,
            _marker: PhantomData,
        };
        proof {
            assert forall|k: int, c: u64, m: u64|
                #![trigger field(r.inner@[k], c, m)]
                0 <= k < r.inner@.len() && c + m <= 64 implies field(r.inner@[k], c, m) == 0 by {
                lemma_zero_field(c, m);
            }
            assert(r@ =~= Seq::<usize>::empty());
        }
        r
    }

    /// Appends `value`.
    pub fn push(&mut self, value: T)
        requires
            old(self).wf(),
            fits(value.code_of(), old(self).spec_bits()),
            can_hold(old(self)@.len() + 1, old(self).spec_bits()),
        ensures
            final(self).wf(),
            final(self)@ == old(self)@.push(value.code_of()),
            final(self).spec_bits() == old(self).spec_bits(),
    {
        let code = value.into_usize();
        self.push_code(code);
    }

    /// Appends `code`, packed into the `bits` bits that follow the last element;
    /// when the last word has fewer free bits than that, the element is split
    /// across it and a new word.
    fn push_code(&mut self, code: usize)
        requires
            old(self).wf(),
            fits(code, old(self).spec_bits()),
            can_hold(old(self)@.len() + 1, old(self).spec_bits()),
        ensures
            final(self).wf(),
            final(self)@ == old(self)@.push(code),
            final(self).spec_bits() == old(self).spec_bits(),
            final(self).units == old(self).units + 1,
    {
        let ghost s0 = self.inner@;
        let p: usize = self.units * self.bits;
        if self.leftover < self.bits {
            self.inner.push(0);
            self.leftover = self.leftover + self.max_bits;
        }
        let ghost s1 = self.inner@;
        proof {
            if self.bits == 0 {
                assert(self.units * self.bits == 0) by (nonlinear_arith)
                    requires
                        self.bits == 0,
                ;
            }
            assert forall|i: int| 0 <= i < self.units implies
                run(s1, self.bits as int, i) == run(s0, self.bits as int, i) by {
                lemma_before(i, self.units as int, self.bits as int);
                lemma_start_inside(i, self.bits as int, s0.len() as int);
                assert(s1.subrange(0, s0.len() as int) =~= s0);
                lemma_read_prefix(s0, s1, i * self.bits, self.bits as int);
            }
        }
        write_at(&mut self.inner, p, self.bits as u64, code as u64);
        let ghost s2 = self.inner@;
        self.leftover = self.leftover - self.bits;
        self.units = self.units + 1;
        proof {
            let b = self.bits as int;
            let n = self.units as int;
            assert(n * b == (n - 1) * b + b) by (nonlinear_arith);
            assert forall|i: int| 0 <= i < n - 1 implies
                run(s2, b, i) == run(s0, b, i) by {
                lemma_before(i, n - 1, b);
                lemma_start_inside(i, b, s1.len() as int);
                lemma_read_outside(s1, s2, p as int, b, i * b, b);
            }
            assert forall|k: int, c: u64, m: u64|
                #![trigger field(s2[k], c, m)]
                0 <= k < s2.len() && c + m <= 64 && 64 * k + c >= n * b
                    implies field(s2[k], c, m) == 0 by {
                if k < s0.len() {
                    assert(s1[k] == s0[k]);
                } else {
                    lemma_zero_field(c, m);
                }
            }
            assert(self@ =~= old(self)@.push(code));
            if b == 0 {
                assert(n * b == 0) by (nonlinear_arith)
                    requires
                        b == 0,
                ;
            } else {
                assert(n * b > 0) by (nonlinear_arith)
                    requires
                        b > 0,
                        n > 0,
                ;
            }
            assert forall|i: int| 0 <= i < n implies fits(#[trigger] self@[i], self.bits)
                && run(self.inner@, self.bits as int, i) <= usize::MAX by {
                if i < n - 1 {
                    assert(self@[i] == old(self)@[i]);
                }
            }
        }
    }

    /// The code at index `i`, read from the word or the two words it occupies.
    fn code_at(&self, i: usize) -> (r: usize)
        requires
            self.wf(),
            i < self@.len(),
        ensures
            r == self@[i as int],
    {
        proof {
            lemma_before(i as int, self.units as int, self.bits as int);
            lemma_start_inside(i as int, self.bits as int, self.inner@.len() as int);
        }
        let r = read_at(&self.inner, i * self.bits, self.bits as u64);
        r as usize
    }

    /// The element at index `i`.
    pub fn get(&self, i: usize) -> (r: T)
        requires
            self.wf(),
            i < self@.len(),
        ensures
            r == T::value_of(self@[i as int]),
    {
        T::from_usize(self.code_at(i))
    }

    /// The element at index `i`, or `None` when `i` is out of bounds.
    pub fn checked_get(&self, i: usize) -> (r: Option<T>)
        requires
            self.wf(),
        ensures
            i < self@.len() ==> r == Some(T::value_of(self@[i as int])),
            i >= self@.len() ==> r.is_none(),
    {
        if i >= self.units {
            return None;
        }
        Some(T::from_usize(self.code_at(i)))
    }

    /// Replaces the element at index `i` with `value`, leaving every other bit of
    /// the storage as it was.
    pub fn set(&mut self, i: usize, value: T)
        requires
            old(self).wf(),
            i < old(self)@.len(),
            fits(value.code_of(), old(self).spec_bits()),
        ensures
            final(self).wf(),
            final(self)@ == old(self)@.update(i as int, value.code_of()),
            final(self).spec_bits() == old(self).spec_bits(),
            final(self).words().len() == old(self).words().len(),
            agree_outside(
                old(self).words(),
                final(self).words(),
                i * old(self).spec_bits(),
                old(self).spec_bits() as int,
            ),
    {
        let code = value.into_usize();
        let ghost s0 = self.inner@;
        proof {
            lemma_before(i as int, self.units as int, self.bits as int);
            lemma_start_inside(i as int, self.bits as int, self.inner@.len() as int);
        }
        let p: usize = i * self.bits;
        write_at(&mut self.inner, p, self.bits as u64, code as u64);
        proof {
            let b = self.bits as int;
            let n = self.units as int;
            assert forall|j: int| 0 <= j < n && j != i implies
                run(self.inner@, b, j) == run(s0, b, j) by {
                if j < i {
                    lemma_before(j, i as int, b);
                } else {
                    lemma_before(i as int, j, b);
                    lemma_before(j, n, b);
                }
                lemma_start_inside(j, b, s0.len() as int);
                lemma_read_outside(s0, self.inner@, p as int, b, j * b, b);
            }
            assert(self@ =~= old(self)@.update(i as int, value.code_of()));
            assert forall|j: int| 0 <= j < n implies fits(#[trigger] self@[j], self.bits)
                && run(self.inner@, self.bits as int, j) <= usize::MAX by {
                if j != i {
                    assert(self@[j] == old(self)@[j]);
                }
            }
        }
    }

    /// Makes room for at least `additional` more elements: about
    /// `additional * bits / 64 + 1` more words.
    pub fn reserve(&mut self, additional: usize)
        requires
            old(self).wf(),
        ensures
            final(self).wf(),
            final(self)@ == old(self)@,
            final(self).spec_bits() == old(self).spec_bits(),
            final(self).words() == old(self).words(),
    {
        let words: usize = if self.bits == 0 {
            1
        } else if additional <= (usize::MAX - 64) / self.bits {
            proof {
                assert(additional * self.bits <= usize::MAX - 64) by (nonlinear_arith)
                    requires
                        additional <= (usize::MAX - 64) as int / self.bits as int,
                        self.bits > 0,
                ;
            }
            additional * self.bits / self.max_bits + 1
        } else {
            usize::MAX / self.max_bits
        };
        self.inner.reserve(words);
        proof {
            assert(self@ =~= old(self)@);
        }
    }

    /// An empty vector of `bits`-wide elements with room for `capacity` elements.
    pub fn with_capacity(bits: usize, capacity: usize) -> (r: BitsVec<T>)
        requires
            bits < 64,
        ensures
            r.wf(),
            r@ == Seq::<usize>::empty(),
            r.spec_bits() == bits,
            r.words() == seq![0u64],
    {
        let mut vec = BitsVec::new(bits);
        vec.reserve(capacity);
        vec
    }

    /// Empties the vector, keeping its width: one zero word again.
    pub fn clear(&mut self)
        requires
            old(self).wf(),
        ensures
            final(self).wf(),
            final(self)@ == Seq::<usize>::empty(),
            final(self).spec_bits() == old(self).spec_bits(),
            final(self).words() == seq![0u64],
    {
        let bits = self.bits;
        *self = BitsVec::new(bits);
    }

    /// A vector of `bits`-wide elements holding `length` copies of `value`.
    pub fn with_elements(bits: usize, length: usize, value: T) -> (r: BitsVec<T>)
        requires
            bits < 64,
            length > 0,
            fits(value.code_of(), bits),
            can_hold(length as nat, bits),
        ensures
            r.wf(),
            r@ == Seq::new(length as nat, |_i: int| value.code_of()),
            r.spec_bits() == bits,
    {
        let mut vec = BitsVec::new(bits);
        vec.extend_with_element(length, value);
        proof {
            assert(vec@ =~= Seq::new(length as nat, |_i: int| value.code_of()));
        }
        vec
    }

    /// Appends copies of `value` until the vector holds `length` elements.
    ///
    /// Elements go one by one until the last word is full; then whole words are
    /// copied from a block that holds copies of `value` and ends on a word
    /// boundary itself; what is left after the last whole block goes one by one.
    pub fn extend_with_element(&mut self, length: usize, value: T)
        requires
            old(self).wf(),
            length > old(self)@.len(),
            fits(value.code_of(), old(self).spec_bits()),
            can_hold(length as nat, old(self).spec_bits()),
        ensures
            final(self).wf(),
            final(self)@ == old(self)@ + Seq::new(
                (length - old(self)@.len()) as nat,
                |_i: int| value.code_of(),
            ),
            final(self).spec_bits() == old(self).spec_bits(),
    {
        let code = value.into_usize();
        let ghost start = self.units as int;
        let ghost first = old(self)@;
        let mut remain: usize = length - self.units;
        self.reserve(remain);
        while self.leftover > 0
            invariant
                self.wf(),
                remain >= 1,
                self.units + remain == length,
                self.units >= start,
                start == first.len(),
                first == old(self)@,
                code == value.code_of(),
                self.bits == old(self).bits,
                fits(code, self.bits),
                can_hold(length as nat, self.bits),
                self@ == first + Seq::new((self.units - start) as nat, |_i: int| code),
            decreases remain,
        {
            proof {
                lemma_can_hold_less(self.units as nat + 1, length as nat, self.bits);
            }
            self.push_code(code);
            remain = remain - 1;
            proof {
                assert(self@ =~= first + Seq::new((self.units - start) as nat, |_i: int| code));
            }
            if remain == 0 {
                proof {
                    assert(self@ =~= old(self)@ + Seq::new(
                        (length - old(self)@.len()) as nat,
                        |_i: int| value.code_of(),
                    ));
                }
                return;
            }
        }
        proof {
            if self.bits == 0 {
                assert(self.units * self.bits == 0) by (nonlinear_arith)
                    requires
                        self.bits == 0,
                ;
            }
        }
        let mut temp: BitsVec<T> = BitsVec::new(self.bits);
        proof {
            assert(temp@.len() == 0);
        }
        temp.reserve(if remain < self.max_bits { remain } else { self.max_bits });
        proof {
            lemma_can_hold_less(1, 64, self.bits);
        }
        temp.push_code(code);
        while temp.leftover > 0
            invariant
                temp.wf(),
                temp.bits == self.bits,
                1 <= temp.units <= 64,
                0 < self.bits < 64,
                fits(code, self.bits),
                temp@ == Seq::new(temp.units as nat, |_i: int| code),
            decreases 64 - temp.units,
        {
            if temp.units == 64 {
                proof {
                    assert(temp.units * temp.bits == 64 * temp.bits);
                    assert(temp.units * temp.bits > 0) by (nonlinear_arith)
                        requires
                            temp.units == 64,
                            temp.bits > 0,
                    ;
                    lemma_full_after_64(temp.inner@.len() as int, temp.bits as int, temp.leftover as int);
                }
            }
            proof {
                lemma_can_hold_less(temp.units as nat + 1, 64, self.bits);
            }
            temp.push_code(code);
            proof {
                assert(temp@ =~= Seq::new(temp.units as nat, |_i: int| code));
            }
        }
        while remain >= temp.units
            invariant
                self.wf(),
                temp.wf(),
                self.leftover == 0,
                temp.leftover == 0,
                temp.bits == self.bits,
                temp.units >= 1,
                self.units + remain == length,
                self.units >= start,
                start == first.len(),
                first == old(self)@,
                code == value.code_of(),
                self.bits == old(self).bits,
                fits(code, self.bits),
                can_hold(length as nat, self.bits),
                temp@ == Seq::new(temp.units as nat, |_i: int| code),
                self@ == first + Seq::new((self.units - start) as nat, |_i: int| code),
            decreases remain,
        {
            proof {
                lemma_can_hold_less(self.units as nat + temp.units as nat, length as nat, self.bits);
            }
            self.append_aligned(&temp);
            remain = remain - temp.units;
            proof {
                assert(self@ =~= first + Seq::new((self.units - start) as nat, |_i: int| code));
            }
        }
        let mut k: usize = 0;
        while k < remain
            invariant
                self.wf(),
                k <= remain,
                self.units + remain - k == length,
                self.units >= start,
                start == first.len(),
                first == old(self)@,
                code == value.code_of(),
                self.bits == old(self).bits,
                fits(code, self.bits),
                can_hold(length as nat, self.bits),
                self@ == first + Seq::new((self.units - start) as nat, |_i: int| code),
            decreases remain - k,
        {
            proof {
                lemma_can_hold_less(self.units as nat + 1, length as nat, self.bits);
            }
            self.push_code(code);
            k = k + 1;
            proof {
                assert(self@ =~= first + Seq::new((self.units - start) as nat, |_i: int| code));
            }
        }
        proof {
            assert(self@ =~= old(self)@ + Seq::new(
                (length - old(self)@.len()) as nat,
                |_i: int| value.code_of(),
            ));
        }
    }

    /// Appends the words of `other`; both end on a word boundary, so its
    /// elements follow this vector's as they are.
    fn append_aligned(&mut self, other: &BitsVec<T>)
        requires
            old(self).wf(),
            other.wf(),
            old(self).leftover == 0,
            other.leftover == 0,
            other.bits == old(self).bits,
            can_hold(old(self)@.len() + other@.len(), old(self).bits),
        ensures
            final(self).wf(),
            final(self).leftover == 0,
            final(self).bits == old(self).bits,
            final(self)@ == old(self)@ + other@,
    {
        let ghost s0 = self.inner@;
        let mut k: usize = 0;
        while k < other.inner.len()
            invariant
                k <= other.inner@.len(),
                self.inner@ == s0 + other.inner@.subrange(0, k as int),
                s0 == old(self).inner@,
                self.units == old(self).units,
                self.bits == old(self).bits,
                self.max_bits == old(self).max_bits,
                self.leftover == old(self).leftover,
            decreases other.inner@.len() - k,
        {
            self.inner.push(other.inner[k]);
            k = k + 1;
            proof {
                assert(self.inner@ =~= s0 + other.inner@.subrange(0, k as int));
            }
        }
        proof {
            assert(old(self)@.len() == self.units && other@.len() == other.units);
        }
        self.units = self.units + other.units;
        proof {
            assert(other.inner@.subrange(0, other.inner@.len() as int) =~= other.inner@);
            let b = self.bits as int;
            let n0 = old(self).units as int;
            let s1 = self.inner@;
            assert(self.units * b == n0 * b + other.units * b) by (nonlinear_arith)
                requires
                    self.units == n0 + other.units,
            ;
            assert forall|i: int| 0 <= i < n0 implies run(s1, b, i) == run(s0, b, i) by {
                lemma_before(i, n0, b);
                lemma_start_inside(i, b, s0.len() as int);
                assert(s1.subrange(0, s0.len() as int) =~= s0);
                lemma_read_prefix(s0, s1, i * b, b);
            }
            assert forall|j: int| 0 <= j < other.units implies
                run(s1, b, n0 + j) == run(other.inner@, b, j) by {
                lemma_before(j, other.units as int, b);
                lemma_start_inside(j, b, other.inner@.len() as int);
                assert((n0 + j) * b == n0 * b + j * b) by (nonlinear_arith);
                lemma_read_shift(s0, other.inner@, j * b, b);
            }
            assert(self@ =~= old(self)@ + other@);
            assert forall|i: int| 0 <= i < self.units implies fits(#[trigger] self@[i], self.bits)
                && run(self.inner@, self.bits as int, i) <= usize::MAX by {
                if i < n0 {
                    assert(self@[i] == old(self)@[i]);
                } else {
                    assert(self@[i] == other@[i - n0]);
                    assert(i == n0 + (i - n0));
                }
            }
        }
    }

    /// A borrowing iterator over the elements, front to back.
    pub fn iter(&self) -> (r: Iter<'_, T>)
        requires
            self.wf(),
        ensures
            r.wf(),
            r@ == self@,
    {
        let r = Iter { vec: self, front: 0, back: self.units };
        proof {
            assert(self@.subrange(0, self.units as int) =~= self@);
        }
        r
    }

    /// A consuming iterator over the elements, front to back.
    pub fn into_iter(self) -> (r: IntoIter<T>)
        requires
            self.wf(),
        ensures
            r.wf(),
            r@ == self@,
    {
        let back = self.units;
        let r = IntoIter { vec: self, front: 0, back: back };
        proof {
            assert(r.vec@.subrange(0, back as int) =~= r.vec@);
        }
        r
    }

    /// The decoded elements, in order: what a debug listing of the vector shows.
    pub fn to_vec(&self) -> (r: Vec<T>)
        requires
            self.wf(),
        ensures
            r@.len() == self@.len(),
            forall|i: int| 0 <= i < self@.len() ==> #[trigger] r@[i] == T::value_of(self@[i]),
    {
        let mut r: Vec<T> = Vec::new();
        let mut i: usize = 0;
        while i < self.units
            invariant
                self.wf(),
                i <= self@.len(),
                r@.len() == i,
                forall|j: int| 0 <= j < i ==> #[trigger] r@[j] == T::value_of(self@[j]),
            decreases self@.len() - i,
        {
            r.push(self.get(i));
            i = i + 1;
        }
        r
    }

    /// The number of elements.
    pub fn len(&self) -> (r: usize)
        requires
            self.wf(),
        ensures
            r == self@.len(),
    {
        self.units
    }

    /// Whether the vector holds no element.
    pub fn is_empty(&self) -> (r: bool)
        requires
            self.wf(),
        ensures
            r == (self@.len() == 0),
    {
        self.units == 0
    }

    /// The number of storage words.
    pub fn inner_len(&self) -> (r: usize)
        ensures
            r == self.words().len(),
    {
        self.inner.len()
    }
}

/// However many elements a vector holds, whether or not they end on a word
/// boundary, exactly `len * bits` bits are committed, and fewer than a whole
/// word is left free (a whole word only while nothing is committed).
pub proof fn lemma_committed_bits<T: ReprUsize>(v: BitsVec<T>)
    requires
        v.wf(),
    ensures
        v.committed_bits() == v@.len() * v.spec_bits(),
        0 <= 64 * v.words().len() - v.committed_bits() <= 64,
        v.committed_bits() > 0 ==> 64 * v.words().len() - v.committed_bits() < 64,
        v.words().len() >= 1,
        v.words().len() == if v@.len() * v.spec_bits() == 0 {
            1
        } else {
            (v@.len() * v.spec_bits() + 63) / 64
        },
        v.spec_bits() < 64,
        forall|i: int| 0 <= i < v@.len() ==> fits(#[trigger] v@[i], v.spec_bits()),
{
}

/// The layout of a vector's storage: code `i` is the run of `bits` bits that
/// starts at bit `i * bits` of the words read most significant bit first, and
/// every bit after the last element is zero.
pub proof fn lemma_layout<T: ReprUsize>(v: BitsVec<T>)
    requires
        v.wf(),
    ensures
        forall|i: int|
            0 <= i < v@.len() ==> #[trigger] v@[i] == element(v.words(), v.spec_bits() as int, i)
                && run(v.words(), v.spec_bits() as int, i) == v@[i] as u64,
        forall|k: int, c: u64, m: u64|
            #![trigger field(v.words()[k], c, m)]
            0 <= k < v.words().len() && c + m <= 64 && 64 * k + c >= v@.len() * v.spec_bits()
                ==> field(v.words()[k], c, m) == 0,
{
    assert forall|i: int| 0 <= i < v@.len() implies #[trigger] v@[i] == element(
        v.words(),
        v.spec_bits() as int,
        i,
    ) && run(v.words(), v.spec_bits() as int, i) == v@[i] as u64 by {
        assert(0 <= i < v.units);
        assert(fits(v@[i], v.bits));
    }
}

/// Equal vectors hold the same codes: `==` compares width, length and words,
/// and these fix the codes.
pub proof fn lemma_eq_same_codes<T: ReprUsize>(a: BitsVec<T>, b: BitsVec<T>)
    requires
        a.wf(),
        b.wf(),
        a.eq_spec(&b),
    ensures
        a@ == b@,
{
    assert(a.units == a@.len() && b.units == b@.len());
    assert(a@ =~= b@);
}

/// The storage of a vector follows from its width and its codes alone: two
/// vectors of one width that hold the same codes have the same words.
pub proof fn lemma_storage_canonical<T: ReprUsize>(a: BitsVec<T>, b: BitsVec<T>)
    requires
        a.wf(),
        b.wf(),
        a.spec_bits() == b.spec_bits(),
        a@ == b@,
    ensures
        a.words() == b.words(),
{
    let n = a.units as int;
    let bits = a.bits as int;
    assert(a@.len() == a.units);
    assert(b@.len() == b.units);
    let sa = a.inner@;
    let sb = b.inner@;
    assert(sa.len() == sb.len());
    assert forall|k: int| 0 <= k < sa.len() implies sa[k] == sb[k] by {
        assert forall|c: u64| c < 64 implies #[trigger] field(sa[k], c, 1) == field(sb[k], c, 1) by {
            let q = 64 * k + c;
            if q >= n * bits {
                assert(field(sa[k], c, 1) == 0);
                assert(field(sb[k], c, 1) == 0);
            } else {
                if bits == 0 {
                    assert(n * bits == 0) by (nonlinear_arith)
                        requires
                            bits == 0,
                    ;
                }
                let i = q / bits;
                lemma_fundamental_div_mod(q, bits);
                assert(i * bits <= q < i * bits + bits) by (nonlinear_arith)
                    requires
                        q == bits * i + q % bits,
                        0 <= q % bits < bits,
                ;
                assert(0 <= i) by (nonlinear_arith)
                    requires
                        i * bits <= q < i * bits + bits,
                        0 <= q,
                        bits > 0,
                ;
                if i >= n {
                    assert(i * bits >= n * bits) by (nonlinear_arith)
                        requires
                            i >= n,
                            bits > 0,
                    ;
                }
                assert(i < n);
                lemma_before(i, n, bits);
                assert(a@[i] == b@[i]);
                assert(0 <= i < a.units);
                assert(fits(a@[i], a.bits));
                assert(run(sa, bits, i) <= usize::MAX);
                assert(fits(b@[i], b.bits) && run(sb, bits, i) <= usize::MAX);
                assert(run(sa, bits, i) == run(sb, bits, i));
                lemma_bit_of_run(sa, i * bits, bits, q);
                lemma_bit_of_run(sb, i * bits, bits, q);
                assert(q / 64 == k && q % 64 == c);
            }
        }
        lemma_word_from_bits(sa[k], sb[k]);
    }
    assert(sa =~= sb);
}

impl<T: ReprUsize + PartialEq> BitsVec<T> {
    /// Whether some element equals `element`.
    pub fn contains(&self, element: &T) -> (r: bool)
        requires
            self.wf(),
        ensures
            T::obeys_eq_spec() ==> (r <==> exists|i: int|
                0 <= i < self@.len() && (#[trigger] T::value_of(self@[i])).eq_spec(element)),
    {
        let mut i: usize = 0;
        while i < self.units
            invariant
                self.wf(),
                i <= self@.len(),
                T::obeys_eq_spec() ==> forall|j: int|
                    0 <= j < i ==> !(#[trigger] T::value_of(self@[j])).eq_spec(element),
            decreases self@.len() - i,
        {
            let x = self.get(i);
            if x == *element {
                return true;
            }
            i = i + 1;
        }
        false
    }
}

/// A copy holds the same codes at the same width in the same words.
impl<T: ReprUsize> Clone for BitsVec<T> {
    fn clone(&self) -> (r: BitsVec<T>)
        ensures
            r@ == self@,
            r.spec_bits() == self.spec_bits(),
            r.words() == self.words(),
            self.wf() ==> r.wf(),
    {
        let mut inner: Vec<u64> = Vec::new();
        let mut k: usize = 0;
        while k < self.inner.len()
            invariant
                k <= self.inner@.len(),
                inner@ == self.inner@.subrange(0, k as int),
            decreases self.inner@.len() - k,
        {
            inner.push(self.inner[k]);
            k = k + 1;
            proof {
                assert(inner@ =~= self.inner@.subrange(0, k as int));
            }
        }
        proof {
            assert(inner@ =~= self.inner@);
        }
        let r = BitsVec {
            inner: inner,
            units: self.units,
            bits: self.bits,
            max_bits: self.max_bits,
            leftover: self.leftover,
            _marker: PhantomData,
        };
        proof {
            assert(r@ =~= self@);
        }
        r
    }
}

/// Two vectors are equal when they hold as many elements of the same width in
/// the same storage words, word for word.
impl<T: ReprUsize> PartialEq for BitsVec<T> {
    fn eq(&self, other: &BitsVec<T>) -> (r: bool) {
        if self.units != other.units || self.bits != other.bits {
            return false;
        }
        if self.inner.len() != other.inner.len() {
            return false;
        }
        let mut k: usize = 0;
        while k < self.inner.len()
            invariant
                self.inner@.len() == other.inner@.len(),
                k <= self.inner@.len(),
                forall|j: int| 0 <= j < k ==> self.inner@[j] == other.inner@[j],
            decreases self.inner@.len() - k,
        {
            if self.inner[k] != other.inner[k] {
                return false;
            }
            k = k + 1;
        }
        proof {
            assert(self.inner@ =~= other.inner@);
        }
        true
    }
}

impl<T: ReprUsize> vstd::std_specs::cmp::PartialEqSpecImpl for BitsVec<T> {
    open spec fn obeys_eq_spec() -> bool {
        true
    }

    open spec fn eq_spec(&self, other: &BitsVec<T>) -> bool {
        &&& self@.len() == other@.len()
        &&& self.spec_bits() == other.spec_bits()
        &&& self.words() == other.words()
    }
}

/// A borrowing iterator over the elements of a vector, from both ends.
pub struct Iter<'a, T: ReprUsize> {
    vec: &'a BitsVec<T>,
    front: usize,
    back: usize,
}

impl<'a, T: ReprUsize> Iter<'a, T> {
    /// The codes not yet handed out, in order.
    pub closed spec fn view(&self) -> Seq<usize> {
        self.vec@.subrange(self.front as int, self.back as int)
    }

    pub closed spec fn wf(&self) -> bool {
        self.vec.wf() && self.front <= self.back <= self.vec@.len()
    }

    /// The next element from the front.
    pub fn next(&mut self) -> (r: Option<T>)
        requires
            old(self).wf(),
        ensures
            final(self).wf(),
            old(self)@.len() > 0 ==> r == Some(T::value_of(old(self)@[0]))
                && final(self)@ == old(self)@.drop_first(),
            old(self)@.len() == 0 ==> r.is_none() && final(self)@ == old(self)@,
    {
        if self.front >= self.back {
            return None;
        }
        let x = self.vec.get(self.front);
        self.front = self.front + 1;
        proof {
            assert(self@ =~= old(self)@.drop_first());
        }
        Some(x)
    }

    /// The next element from the back.
    pub fn next_back(&mut self) -> (r: Option<T>)
        requires
            old(self).wf(),
        ensures
            final(self).wf(),
            old(self)@.len() > 0 ==> r == Some(T::value_of(old(self)@.last()))
                && final(self)@ == old(self)@.drop_last(),
            old(self)@.len() == 0 ==> r.is_none() && final(self)@ == old(self)@,
    {
        if self.front >= self.back {
            return None;
        }
        self.back = self.back - 1;
        let x = self.vec.get(self.back);
        proof {
            assert(self@ =~= old(self)@.drop_last());
        }
        Some(x)
    }

    /// The exact number of elements left, as lower and upper bound.
    pub fn size_hint(&self) -> (r: (usize, Option<usize>))
        requires
            self.wf(),
        ensures
            r.0 == self@.len(),
            r.1 == Some(self@.len() as usize),
    {
        let n = self.back - self.front;
        (n, Some(n))
    }

    /// The number of elements left.
    pub fn len(&self) -> (r: usize)
        requires
            self.wf(),
        ensures
            r == self@.len(),
    {
        self.back - self.front
    }
}

/// A consuming iterator over the elements of a vector, from both ends.
pub struct IntoIter<T: ReprUsize> {
    vec: BitsVec<T>,
    front: usize,
    back: usize,
}

impl<T: ReprUsize> IntoIter<T> {
    /// The codes not yet handed out, in order.
    pub closed spec fn view(&self) -> Seq<usize> {
        self.vec@.subrange(self.front as int, self.back as int)
    }

    pub closed spec fn wf(&self) -> bool {
        self.vec.wf() && self.front <= self.back <= self.vec@.len()
    }

    /// The next element from the front.
    pub fn next(&mut self) -> (r: Option<T>)
        requires
            old(self).wf(),
        ensures
            final(self).wf(),
            old(self)@.len() > 0 ==> r == Some(T::value_of(old(self)@[0]))
                && final(self)@ == old(self)@.drop_first(),
            old(self)@.len() == 0 ==> r.is_none() && final(self)@ == old(self)@,
    {
        if self.front >= self.back {
            return None;
        }
        let x = self.vec.get(self.front);
        self.front = self.front + 1;
        proof {
            assert(self@ =~= old(self)@.drop_first());
        }
        Some(x)
    }

    /// The next element from the back.
    pub fn next_back(&mut self) -> (r: Option<T>)
        requires
            old(self).wf(),
        ensures
            final(self).wf(),
            old(self)@.len() > 0 ==> r == Some(T::value_of(old(self)@.last()))
                && final(self)@ == old(self)@.drop_last(),
            old(self)@.len() == 0 ==> r.is_none() && final(self)@ == old(self)@,
    {
        if self.front >= self.back {
            return None;
        }
        self.back = self.back - 1;
        let x = self.vec.get(self.back);
        proof {
            assert(self@ =~= old(self)@.drop_last());
        }
        Some(x)
    }

    /// The number of elements left.
    pub fn len(&self) -> (r: usize)
        requires
            self.wf(),
        ensures
            r == self@.len(),
    {
        self.back - self.front
    }
}

} // verus!
