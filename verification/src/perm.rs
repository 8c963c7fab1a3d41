//! Permutations of column indices, stored as a pair of mutually inverse
//! index arrays.

use vstd::prelude::*;

verus! {

/// A bijection between original and new column indices of an `n`-column
/// matrix: `orig2new[c]` is the new position of original column `c`, and
/// `new2orig[p]` is the original column placed at position `p`. The two
/// arrays are inverses of each other.
#[derive(Clone, Debug)]
pub struct Perm {
    pub orig2new: Vec<usize>,
    pub new2orig: Vec<usize>,
}

impl Perm {
    /// Both arrays have length `n`, all entries are below `n`, and the
    /// arrays invert each other.
    pub open spec fn wf(self, n: int) -> bool {
        &&& self.orig2new@.len() == n
        &&& self.new2orig@.len() == n
        &&& forall|i: int| 0 <= i < n ==> (#[trigger] self.orig2new@[i] as int) < n
        &&& forall|i: int| 0 <= i < n ==> (#[trigger] self.new2orig@[i] as int) < n
        &&& forall|i: int| 0 <= i < n ==> self.orig2new@[#[trigger] self.new2orig@[i] as int] == i
        &&& forall|i: int| 0 <= i < n ==> self.new2orig@[#[trigger] self.orig2new@[i] as int] == i
    }
}

/// Law: the forward array is determined by the inverse one. Two well-formed
/// permutations that agree on `new2orig` agree on `orig2new` as well.
pub proof fn lemma_perm_inverse_unique(p1: Perm, p2: Perm, n: int)
    requires
        p1.wf(n),
        p2.wf(n),
        p1.new2orig@ == p2.new2orig@,
    ensures
        p1.orig2new@ == p2.orig2new@,
{
    assert forall|c: int| 0 <= c < n implies p1.orig2new@[c] == p2.orig2new@[c] by {
        let o1 = p1.orig2new@[c] as int;
        assert(p1.new2orig@[o1] == c);
        assert(p2.orig2new@[(p2.new2orig@[o1]) as int] == o1);
    }
    assert(p1.orig2new@ =~= p2.orig2new@);
}

} // verus!
