//! The entries of a folder, in the order in which they are worked through.

use vstd::prelude::*;
use itertools::Itertools;

verus! {

/// Lexicographic order of byte strings: the first byte in which the two
/// differ decides, and a string comes before every longer one that starts
/// with it.
pub open spec fn lex_le(a: Seq<u8>, b: Seq<u8>) -> bool
    decreases a.len(),
{
    if a.len() == 0 {
        true
    } else if b.len() == 0 {
        false
    } else if a[0] != b[0] {
        a[0] < b[0]
    } else {
        lex_le(a.skip(1), b.skip(1))
    }
}

/// The byte strings behind a sequence of names.
pub open spec fn names_view(v: Seq<Vec<u8>>) -> Seq<Seq<u8>> {
    Seq::new(v.len(), |i: int| v[i]@)
}

/// Each name stands before all that follow it.
pub open spec fn is_sorted(names: Seq<Seq<u8>>) -> bool {
    forall|i: int, j: int|
        0 <= i <= j < names.len() ==> lex_le(#[trigger] names[i], #[trigger] names[j])
}

/// `sorted` holds the names of `listing`, each as often as it is there, in
/// lexicographic order.
pub open spec fn is_sorted_listing(sorted: Seq<Seq<u8>>, listing: Seq<Seq<u8>>) -> bool {
    &&& is_sorted(sorted)
    &&& sorted.to_multiset() == listing.to_multiset()
}

/// `Itertools::sorted` on the names: it collects them, sorts them with the
/// stable sort of slices by the order of `Vec<u8>`, which is lexicographic
/// by bytes, and hands them out again. So the result holds the same names,
/// each as often as before, in ascending order.
#[verifier::external_body]
pub(crate) fn sorted_names(names: Vec<Vec<u8>>) -> (sorted: Vec<Vec<u8>>)
    ensures
        is_sorted_listing(names_view(sorted@), names_view(names@)),
{
    names.into_iter().sorted().collect()
}

/// Two byte strings that each stand before the other are the same.
pub proof fn lemma_lex_le_antisymmetric(a: Seq<u8>, b: Seq<u8>)
    requires
        lex_le(a, b),
        lex_le(b, a),
    ensures
        a == b,
    decreases a.len(),
{
    if a.len() == 0 {
        assert(a =~= b);
    } else {
        lemma_lex_le_antisymmetric(a.skip(1), b.skip(1));
        assert(a =~= seq![a[0]] + a.skip(1));
        assert(b =~= seq![b[0]] + b.skip(1));
    }
}

/// The order in which a listing is worked through depends on the names
/// alone: two sorted listings of the same names are the same.
pub proof fn lemma_sorted_listing_unique(a: Seq<Seq<u8>>, b: Seq<Seq<u8>>, listing: Seq<Seq<u8>>)
    requires
        is_sorted_listing(a, listing),
        is_sorted_listing(b, listing),
    ensures
        a == b,
    decreases a.len(),
{
    broadcast use vstd::multiset::group_multiset_axioms;

    a.to_multiset_ensures();
    b.to_multiset_ensures();
    assert(a.len() == b.len());
    if a.len() == 0 {
        assert(a =~= b);
    } else {
        assert(b.to_multiset().contains(a[0]));
        assert(a.to_multiset().contains(b[0]));
        let i = choose|i: int| 0 <= i < b.len() && #[trigger] b[i] == a[0];
        let j = choose|j: int| 0 <= j < a.len() && #[trigger] a[j] == b[0];
        assert(lex_le(b[0], b[i]));
        assert(lex_le(a[0], a[j]));
        lemma_lex_le_antisymmetric(a[0], b[0]);
        let rest_a = a.drop_first();
        let rest_b = b.drop_first();
        assert(rest_a =~= a.remove(0));
        assert(rest_b =~= b.remove(0));
        assert(rest_a.to_multiset() =~= a.to_multiset().remove(a[0]));
        assert(rest_b.to_multiset() =~= b.to_multiset().remove(b[0]));
        assert(is_sorted(rest_a)) by {
            assert forall|s: int, t: int| 0 <= s <= t < rest_a.len() implies lex_le(
                #[trigger] rest_a[s],
                #[trigger] rest_a[t],
            ) by {
                assert(lex_le(a[s + 1], a[t + 1]));
            }
        }
        assert(is_sorted(rest_b)) by {
            assert forall|s: int, t: int| 0 <= s <= t < rest_b.len() implies lex_le(
                #[trigger] rest_b[s],
                #[trigger] rest_b[t],
            ) by {
                assert(lex_le(b[s + 1], b[t + 1]));
            }
        }
        lemma_sorted_listing_unique(rest_a, rest_b, rest_a);
        assert(a =~= seq![a[0]] + rest_a);
        assert(b =~= seq![b[0]] + rest_b);
    }
}

/// The entries of a folder in the order in which they are worked through.
pub fn sort_listing(names: Vec<Vec<u8>>) -> (sorted: Vec<Vec<u8>>)
    ensures
        is_sorted_listing(names_view(sorted@), names_view(names@)),
        sorted@.len() == names@.len(),
{
    let sorted = sorted_names(names);
    proof {
        names_view(sorted@).to_multiset_ensures();
        names_view(names@).to_multiset_ensures();
    }
    sorted
}

} // verus!
