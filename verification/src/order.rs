//! The order in which command sequences are preferred: shorter first, and
//! among equally long ones the one whose first differing command comes
//! earlier in the enumeration of the commands.

use vstd::prelude::*;
use crate::moves::Move;

verus! {

/// `a` and `b` are equally long, and at the first place where they differ
/// the command of `a` comes earlier in the enumeration.
pub open spec fn lex_less(a: Seq<Move>, b: Seq<Move>) -> bool {
    &&& a.len() == b.len()
    &&& exists|k: int| #[trigger] first_difference(a, b, k) && a[k].rank() < b[k].rank()
}

/// `k` is the first index at which `a` and `b` hold different commands.
pub open spec fn first_difference(a: Seq<Move>, b: Seq<Move>, k: int) -> bool {
    &&& 0 <= k < a.len()
    &&& k < b.len()
    &&& a[k] != b[k]
    &&& forall|j: int| 0 <= j < k ==> a[j] == b[j]
}

/// `a` is preferred to `b`: it is shorter, or as long and smaller in the
/// lexicographic order of the commands.
pub open spec fn comes_before(a: Seq<Move>, b: Seq<Move>) -> bool {
    a.len() < b.len() || lex_less(a, b)
}

/// `a` is `b` or is preferred to it.
pub open spec fn not_after(a: Seq<Move>, b: Seq<Move>) -> bool {
    a == b || comes_before(a, b)
}

/// Appending one command to each of two equally long sequences: the longer
/// ones compare as the shorter ones do, and the appended commands decide
/// only where the shorter ones are equal.
pub proof fn lemma_lex_push(a: Seq<Move>, b: Seq<Move>, x: Move, y: Move)
    requires
        a.len() == b.len(),
    ensures
        lex_less(a.push(x), b.push(y)) <==> lex_less(a, b) || (a == b && x.rank() < y.rank()),
{
    let ax = a.push(x);
    let by = b.push(y);
    if lex_less(ax, by) {
        let k = choose|k: int| #[trigger] first_difference(ax, by, k) && ax[k].rank() < by[k].rank();
        if k < a.len() {
            assert(first_difference(a, b, k)) by {
                assert forall|j: int| 0 <= j < k implies a[j] == b[j] by {
                    assert(ax[j] == a[j] && by[j] == b[j]);
                }
            }
        } else {
            assert forall|j: int| 0 <= j < a.len() implies a[j] == b[j] by {
                assert(ax[j] == a[j] && by[j] == b[j]);
            }
            assert(a =~= b);
        }
    }
    if lex_less(a, b) {
        let k = choose|k: int| #[trigger] first_difference(a, b, k) && a[k].rank() < b[k].rank();
        assert(first_difference(ax, by, k));
    }
    if a == b && x.rank() < y.rank() {
        assert(first_difference(ax, by, a.len() as int));
    }
}

/// No sequence is lexicographically smaller than itself, and of two
/// sequences at most one is smaller than the other.
pub proof fn lemma_lex_asymmetric(a: Seq<Move>, b: Seq<Move>)
    ensures
        !(lex_less(a, b) && lex_less(b, a)),
        lex_less(a, b) ==> a != b,
{
    // A first difference of `a` and `b` is one of `b` and `a` too, and the
    // command of only one of them is the earlier one there.
}

/// The lexicographic order is transitive.
pub proof fn lemma_lex_transitive(a: Seq<Move>, b: Seq<Move>, c: Seq<Move>)
    requires
        lex_less(a, b),
        lex_less(b, c),
    ensures
        lex_less(a, c),
{
    let k1 = choose|k: int| #[trigger] first_difference(a, b, k) && a[k].rank() < b[k].rank();
    let k2 = choose|k: int| #[trigger] first_difference(b, c, k) && b[k].rank() < c[k].rank();
    let k = if k1 <= k2 {
        k1
    } else {
        k2
    };
    assert(first_difference(a, c, k));
}

/// Two equally long sequences are equal, or one is lexicographically
/// smaller than the other.
pub proof fn lemma_lex_total(a: Seq<Move>, b: Seq<Move>)
    requires
        a.len() == b.len(),
    ensures
        a == b || lex_less(a, b) || lex_less(b, a),
    decreases a.len(),
{
    if a.len() > 0 {
        let a0 = a.drop_last();
        let b0 = b.drop_last();
        lemma_lex_total(a0, b0);
        assert(a =~= a0.push(a.last()));
        assert(b =~= b0.push(b.last()));
        lemma_lex_push(a0, b0, a.last(), b.last());
        lemma_lex_push(b0, a0, b.last(), a.last());
    }
}

/// Of two different sequences exactly one is preferred to the other.
pub proof fn lemma_order_total(a: Seq<Move>, b: Seq<Move>)
    ensures
        a == b || comes_before(a, b) || comes_before(b, a),
        !(comes_before(a, b) && comes_before(b, a)),
        comes_before(a, b) ==> a != b,
{
    if a.len() == b.len() {
        lemma_lex_total(a, b);
        lemma_lex_asymmetric(a, b);
    }
}

/// Preference is transitive.
pub proof fn lemma_order_transitive(a: Seq<Move>, b: Seq<Move>, c: Seq<Move>)
    requires
        not_after(a, b),
        not_after(b, c),
    ensures
        not_after(a, c),
        comes_before(a, b) || comes_before(b, c) ==> comes_before(a, c),
{
    if lex_less(a, b) && lex_less(b, c) {
        lemma_lex_transitive(a, b, c);
    }
}

/// Appending commands keeps the preference between two sequences, and
/// between equal sequences the appended commands decide.
pub proof fn lemma_order_push(a: Seq<Move>, b: Seq<Move>, x: Move, y: Move)
    ensures
        comes_before(a, b) ==> comes_before(a.push(x), b.push(y)),
        comes_before(a.push(x), b.push(y)) <==> comes_before(a, b) || (a == b && x.rank()
            < y.rank()),
{
    if a.len() == b.len() {
        lemma_lex_push(a, b, x, y);
    }
}

} // verus!
