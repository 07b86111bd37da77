//! Integer indices of grid cells.
use vstd::prelude::*;

use crate::text::{push_signed_decimal, signed_decimal};

verus! {

/// The index of a cell of a regular grid, or, for a mesh grid, `[vertex id, 0, 0]`.
#[derive(Clone, Copy, PartialEq, Eq, PartialOrd, Ord, Hash, Debug)]
pub struct Index(pub [isize; 3]);

impl Index {
    /// Make a fake index, `[n, 0, 0]`: mesh grids have no real indices for their
    /// points, so a point is named by its id in the first component.
    pub fn fake(n: isize) -> (r: Index)
        ensures
            r.0@ == seq![n, 0isize, 0isize],
    {
        let r = Index([n, 0, 0]);
        assert(r.0@ =~= seq![n, 0isize, 0isize]);
        r
    }

    /// The first component.
    pub fn x(&self) -> (r: isize)
        ensures
            r == self.0@[0],
    {
        self.0[0]
    }

    /// The second component.
    pub fn y(&self) -> (r: isize)
        ensures
            r == self.0@[1],
    {
        self.0[1]
    }

    /// The third component.
    pub fn z(&self) -> (r: isize)
        ensures
            r == self.0@[2],
    {
        self.0[2]
    }

    /// The index as `[x, y, z]`.
    pub fn text(&self) -> (s: String)
        ensures
            s@ == seq!['['] + signed_decimal(self.0@[0] as int) + seq![',', ' '] + signed_decimal(
                self.0@[1] as int,
            ) + seq![',', ' '] + signed_decimal(self.0@[2] as int) + seq![']'],
    {
        proof {
            reveal_strlit("[");
            reveal_strlit(", ");
            reveal_strlit("]");
        }
        let mut s = String::new();
        s.append("[");
        push_signed_decimal(&mut s, self.0[0]);
        s.append(", ");
        push_signed_decimal(&mut s, self.0[1]);
        s.append(", ");
        push_signed_decimal(&mut s, self.0[2]);
        s.append("]");
        assert(s@ =~= seq!['['] + signed_decimal(self.0@[0] as int) + seq![',', ' '] + signed_decimal(
            self.0@[1] as int,
        ) + seq![',', ' '] + signed_decimal(self.0@[2] as int) + seq![']']);
        s
    }

    /// Componentwise sum fits in `isize`.
    pub open spec fn can_add(self, rhs: Index) -> bool {
        forall|j: int| 0 <= j < 3 ==> isize::MIN <= #[trigger] self.0@[j] + rhs.0@[j] <= isize::MAX
    }

    /// The componentwise sum.
    pub fn add(self, rhs: Index) -> (r: Index)
        requires
            self.can_add(rhs),
        ensures
            forall|j: int| 0 <= j < 3 ==> #[trigger] r.0@[j] == self.0@[j] + rhs.0@[j],
    {
        assert(isize::MIN <= self.0@[0] + rhs.0@[0] <= isize::MAX);
        assert(isize::MIN <= self.0@[1] + rhs.0@[1] <= isize::MAX);
        assert(isize::MIN <= self.0@[2] + rhs.0@[2] <= isize::MAX);
        let r = Index([self.0[0] + rhs.0[0], self.0[1] + rhs.0[1], self.0[2] + rhs.0[2]]);
        assert forall|j: int| 0 <= j < 3 implies #[trigger] r.0@[j] == self.0@[j] + rhs.0@[j] by {
            if j == 0 {
            } else if j == 1 {
            } else {
            }
        }
        r
    }

    /// Adds `rhs` componentwise.
    pub fn add_assign(&mut self, rhs: Index)
        requires
            old(self).can_add(rhs),
        ensures
            forall|j: int| 0 <= j < 3 ==> #[trigger] final(self).0@[j] == old(self).0@[j] + rhs.0@[j],
    {
        *self = self.add(rhs);
    }
}

} // verus!
