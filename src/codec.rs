use vstd::prelude::*;

verus! {

/// How a value of an element type is stored: as an unsigned code, and back.
///
/// The vector stores `into_usize` of each element and hands back `from_usize`
/// of the stored code. A code must fit in the vector's element width, which is
/// the caller's duty.
pub trait ReprUsize: Sized {
    /// The code that `into_usize` gives for `self`.
    spec fn code_of(self) -> usize;

    /// The value that `from_usize` gives for `code`.
    spec fn value_of(code: usize) -> Self;

    fn from_usize(i: usize) -> (r: Self)
        ensures
            r == Self::value_of(i),
    ;

    fn into_usize(self) -> (r: usize)
        ensures
            r == self.code_of(),
    ;
}

/// `false` is stored as 0 and `true` as 1; any nonzero code reads as `true`.
impl ReprUsize for bool {
    open spec fn code_of(self) -> usize {
        if self { 1 } else { 0 }
    }

    open spec fn value_of(code: usize) -> bool {
        code != 0
    }

    fn from_usize(i: usize) -> (r: bool) {
        i != 0
    }

    fn into_usize(self) -> (r: usize) {
        if self { 1 } else { 0 }
    }
}

/// A character is stored as the low byte of its scalar value, and a code reads
/// back as the character of its low byte: exact for characters below 256.
impl ReprUsize for char {
    open spec fn code_of(self) -> usize {
        ((self as u32) as u8) as usize
    }

    open spec fn value_of(code: usize) -> char {
        (code as u8) as char
    }

    fn from_usize(i: usize) -> (r: char) {
        #[verifier::truncate]
        (i as u8) as char
    }

    fn into_usize(self) -> (r: usize) {
        #[verifier::truncate]
        ((self as u32) as u8) as usize
    }
}

/// Stored by an integer cast, which zero-extends (or, for wider values than a
/// `usize`, truncates) as `as` does.
impl ReprUsize for u8 {
    open spec fn code_of(self) -> usize {
        self as usize
    }

    open spec fn value_of(code: usize) -> u8 {
        code as u8
    }

    fn from_usize(i: usize) -> (r: u8) {
        #[verifier::truncate]
        (i as u8)
    }

    fn into_usize(self) -> (r: usize) {
        #[verifier::truncate]
        (self as usize)
    }
}

/// Stored by an integer cast, which zero-extends (or, for wider values than a
/// `usize`, truncates) as `as` does.
impl ReprUsize for u16 {
    open spec fn code_of(self) -> usize {
        self as usize
    }

    open spec fn value_of(code: usize) -> u16 {
        code as u16
    }

    fn from_usize(i: usize) -> (r: u16) {
        #[verifier::truncate]
        (i as u16)
    }

    fn into_usize(self) -> (r: usize) {
        #[verifier::truncate]
        (self as usize)
    }
}

/// Stored by an integer cast, which zero-extends (or, for wider values than a
/// `usize`, truncates) as `as` does.
impl ReprUsize for u32 {
    open spec fn code_of(self) -> usize {
        self as usize
    }

    open spec fn value_of(code: usize) -> u32 {
        code as u32
    }

    fn from_usize(i: usize) -> (r: u32) {
        #[verifier::truncate]
        (i as u32)
    }

    fn into_usize(self) -> (r: usize) {
        #[verifier::truncate]
        (self as usize)
    }
}

/// Stored by an integer cast, which zero-extends (or, for wider values than a
/// `usize`, truncates) as `as` does.
impl ReprUsize for u64 {
    open spec fn code_of(self) -> usize {
        self as usize
    }

    open spec fn value_of(code: usize) -> u64 {
        code as u64
    }

    fn from_usize(i: usize) -> (r: u64) {
        #[verifier::truncate]
        (i as u64)
    }

    fn into_usize(self) -> (r: usize) {
        #[verifier::truncate]
        (self as usize)
    }
}

/// Stored by an integer cast, which zero-extends (or, for wider values than a
/// `usize`, truncates) as `as` does.
impl ReprUsize for usize {
    open spec fn code_of(self) -> usize {
        self as usize
    }

    open spec fn value_of(code: usize) -> usize {
        code as usize
    }

    fn from_usize(i: usize) -> (r: usize) {
        #[verifier::truncate]
        (i as usize)
    }

    fn into_usize(self) -> (r: usize) {
        #[verifier::truncate]
        (self as usize)
    }
}

/// Stored by an integer cast, which sign-extends into a `usize` and truncates
/// back, as `as` does.
impl ReprUsize for i8 {
    open spec fn code_of(self) -> usize {
        self as usize
    }

    open spec fn value_of(code: usize) -> i8 {
        code as i8
    }

    fn from_usize(i: usize) -> (r: i8) {
        #[verifier::truncate]
        (i as i8)
    }

    fn into_usize(self) -> (r: usize) {
        #[verifier::truncate]
        (self as usize)
    }
}

/// Stored by an integer cast, which sign-extends into a `usize` and truncates
/// back, as `as` does.
impl ReprUsize for i16 {
    open spec fn code_of(self) -> usize {
        self as usize
    }

    open spec fn value_of(code: usize) -> i16 {
        code as i16
    }

    fn from_usize(i: usize) -> (r: i16) {
        #[verifier::truncate]
        (i as i16)
    }

    fn into_usize(self) -> (r: usize) {
        #[verifier::truncate]
        (self as usize)
    }
}

/// Stored by an integer cast, which sign-extends into a `usize` and truncates
/// back, as `as` does.
impl ReprUsize for i32 {
    open spec fn code_of(self) -> usize {
        self as usize
    }

    open spec fn value_of(code: usize) -> i32 {
        code as i32
    }

    fn from_usize(i: usize) -> (r: i32) {
        #[verifier::truncate]
        (i as i32)
    }

    fn into_usize(self) -> (r: usize) {
        #[verifier::truncate]
        (self as usize)
    }
}

/// Stored by an integer cast, which sign-extends into a `usize` and truncates
/// back, as `as` does.
impl ReprUsize for i64 {
    open spec fn code_of(self) -> usize {
        self as usize
    }

    open spec fn value_of(code: usize) -> i64 {
        code as i64
    }

    fn from_usize(i: usize) -> (r: i64) {
        #[verifier::truncate]
        (i as i64)
    }

    fn into_usize(self) -> (r: usize) {
        #[verifier::truncate]
        (self as usize)
    }
}

/// Stored by an integer cast, which sign-extends into a `usize` and truncates
/// back, as `as` does.
impl ReprUsize for isize {
    open spec fn code_of(self) -> usize {
        self as usize
    }

    open spec fn value_of(code: usize) -> isize {
        code as isize
    }

    fn from_usize(i: usize) -> (r: isize) {
        #[verifier::truncate]
        (i as isize)
    }

    fn into_usize(self) -> (r: usize) {
        #[verifier::truncate]
        (self as usize)
    }
}

/// A boolean reads back as itself.
pub proof fn lemma_bool_round_trip(b: bool)
    ensures
        <bool as ReprUsize>::value_of(b.code_of()) == b,
{
}

/// A character below 256 reads back as itself.
pub proof fn lemma_char_round_trip(c: char)
    requires
        (c as u32) < 256,
    ensures
        <char as ReprUsize>::value_of(c.code_of()) == c,
{
}

/// An unsigned integer that fits in a `usize` reads back as itself.
pub proof fn lemma_u8_round_trip(v: u8)
    requires
        v <= usize::MAX,
    ensures
        <u8 as ReprUsize>::value_of(v.code_of()) == v,
{
}

/// An unsigned integer that fits in a `usize` reads back as itself.
pub proof fn lemma_u16_round_trip(v: u16)
    requires
        v <= usize::MAX,
    ensures
        <u16 as ReprUsize>::value_of(v.code_of()) == v,
{
}

/// An unsigned integer that fits in a `usize` reads back as itself.
pub proof fn lemma_u32_round_trip(v: u32)
    requires
        v <= usize::MAX,
    ensures
        <u32 as ReprUsize>::value_of(v.code_of()) == v,
{
}

/// An unsigned integer that fits in a `usize` reads back as itself.
pub proof fn lemma_u64_round_trip(v: u64)
    requires
        v <= usize::MAX,
    ensures
        <u64 as ReprUsize>::value_of(v.code_of()) == v,
{
}

/// An unsigned integer that fits in a `usize` reads back as itself.
pub proof fn lemma_usize_round_trip(v: usize)
    requires
        v <= usize::MAX,
    ensures
        <usize as ReprUsize>::value_of(v.code_of()) == v,
{
}

} // verus!
