use vstd::prelude::*;
use crate::bits_vec::{lemma_committed_bits, lemma_storage_canonical, BitsVec};
use crate::codec::ReprUsize;
use vstd::std_specs::cmp::PartialEqSpec;

verus! {

/// A change to a vector's codes: a push, or a set at an index.
pub enum Edit {
    Append { code: usize },
    Assign { index: usize, code: usize },
}

/// The codes after applying `edits` in order, as `push` and `set` change them
/// (a set past the end changes nothing, as no set there is allowed).
pub open spec fn after_edits(codes: Seq<usize>, edits: Seq<Edit>) -> Seq<usize>
    decreases edits.len(),
{
    if edits.len() == 0 {
        codes
    } else {
        let c = after_edits(codes, edits.drop_last());
        match edits.last() {
            Edit::Append { code } => c.push(code),
            Edit::Assign { index, code } => if index < c.len() {
                c.update(index as int, code)
            } else {
                c
            },
        }
    }
}

/// Round trip: a value whose code is stored at index `i` reads back through
/// `get` as itself, whatever pushes and sets at other indices follow, provided
/// its codec decodes its code to it (as it does for booleans, bytes and
/// unsigned integers that fit the width).
pub proof fn lemma_round_trip<T: ReprUsize>(codes: Seq<usize>, i: int, value: T, edits: Seq<Edit>)
    requires
        0 <= i < codes.len(),
        codes[i] == value.code_of(),
        T::value_of(value.code_of()) == value,
        forall|k: int| 0 <= k < edits.len() ==> match #[trigger] edits[k] {
            Edit::Assign { index, code: _ } => index != i,
            Edit::Append { code: _ } => true,
        },
    ensures
        i < after_edits(codes, edits).len(),
        T::value_of(after_edits(codes, edits)[i]) == value,
    decreases edits.len(),
{
    if edits.len() > 0 {
        let rest = edits.drop_last();
        assert forall|k: int| 0 <= k < rest.len() implies match #[trigger] rest[k] {
            Edit::Assign { index, code: _ } => index != i,
            Edit::Append { code: _ } => true,
        } by {
            assert(rest[k] == edits[k]);
        }
        lemma_round_trip(codes, i, value, rest);
        assert(edits.last() == edits[edits.len() - 1]);
    }
}

/// The same law on a vector: if its codes are those reached from `codes` by
/// such edits, `get(i)` hands back `value`.
pub proof fn lemma_round_trip_in_vector<T: ReprUsize>(
    v: BitsVec<T>,
    codes: Seq<usize>,
    i: int,
    value: T,
    edits: Seq<Edit>,
)
    requires
        v@ == after_edits(codes, edits),
        0 <= i < codes.len(),
        codes[i] == value.code_of(),
        T::value_of(value.code_of()) == value,
        forall|k: int| 0 <= k < edits.len() ==> match #[trigger] edits[k] {
            Edit::Assign { index, code: _ } => index != i,
            Edit::Append { code: _ } => true,
        },
    ensures
        i < v@.len(),
        T::value_of(v@[i]) == value,
{
    lemma_round_trip(codes, i, value, edits);
}

/// Pushes only: each adds one code.
pub proof fn lemma_appends_length(codes: Seq<usize>, edits: Seq<Edit>)
    requires
        forall|k: int| 0 <= k < edits.len() ==> (#[trigger] edits[k]) is Append,
    ensures
        after_edits(codes, edits).len() == codes.len() + edits.len(),
    decreases edits.len(),
{
    if edits.len() > 0 {
        let rest = edits.drop_last();
        assert forall|k: int| 0 <= k < rest.len() implies (#[trigger] rest[k]) is Append by {
            assert(rest[k] == edits[k]);
        }
        lemma_appends_length(codes, rest);
        assert(edits.last() == edits[edits.len() - 1]);
    }
}

/// After `n` pushes onto a new vector, it holds `n` elements, and its words
/// are exactly enough for `n * bits` bits: one word while nothing is
/// committed, else `ceil(n * bits / 64)`, with no spare word on a boundary.
pub proof fn lemma_length_after_pushes<T: ReprUsize>(v: BitsVec<T>, edits: Seq<Edit>)
    requires
        v.wf(),
        v@ == after_edits(Seq::empty(), edits),
        forall|k: int| 0 <= k < edits.len() ==> (#[trigger] edits[k]) is Append,
    ensures
        v@.len() == edits.len(),
        v.words().len() == if edits.len() * v.spec_bits() == 0 {
            1
        } else {
            (edits.len() * v.spec_bits() + 63) / 64
        },
{
    lemma_appends_length(Seq::empty(), edits);
    lemma_committed_bits(v);
}

/// Setting index `i` reads back the new code there, and every other index
/// reads what it read before.
pub proof fn lemma_set_then_get<T: ReprUsize>(before: BitsVec<T>, after: BitsVec<T>, i: int, value: T)
    requires
        0 <= i < before@.len(),
        after@ == before@.update(i, value.code_of()),
    ensures
        T::value_of(after@[i]) == T::value_of(value.code_of()),
        after@.len() == before@.len(),
        forall|j: int| 0 <= j < before@.len() && j != i ==> after@[j] == before@[j],
{
}

/// `length` pushes of one code onto an empty vector give `length` copies of it.
proof fn lemma_pushes(code: usize, length: nat)
    ensures
        after_edits(Seq::empty(), Seq::new(length, |_k: int| Edit::Append { code })) == Seq::new(
            length,
            |_k: int| code,
        ),
    decreases length,
{
    if length > 0 {
        let edits = Seq::new(length, |_k: int| Edit::Append { code });
        assert(edits.drop_last() =~= Seq::new((length - 1) as nat, |_k: int| Edit::Append { code }));
        lemma_pushes(code, (length - 1) as nat);
        assert(Seq::new((length - 1) as nat, |_k: int| code).push(code) =~= Seq::new(
            length,
            |_k: int| code,
        ));
    }
}

/// Bulk fill and one push at a time give equal vectors: a vector that
/// `with_elements(bits, length, value)` built is `==` to one built by `length`
/// pushes of `value` onto `new(bits)`.
pub proof fn lemma_bulk_fill_equivalence<T: ReprUsize>(
    filled: BitsVec<T>,
    pushed: BitsVec<T>,
    value: T,
    length: nat,
)
    requires
        filled.wf(),
        pushed.wf(),
        filled.spec_bits() == pushed.spec_bits(),
        filled@ == Seq::new(length, |_k: int| value.code_of()),
        pushed@ == after_edits(
            Seq::empty(),
            Seq::new(length, |_k: int| Edit::Append { code: value.code_of() }),
        ),
    ensures
        filled.eq_spec(&pushed),
{
    lemma_pushes(value.code_of(), length);
    lemma_storage_canonical(filled, pushed);
}

} // verus!
