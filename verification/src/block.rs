//! 2x2 blocks of palette indices and the horizontal mirror transform.

use vstd::prelude::*;

verus! {

/// A 2x2 patch of palette indices, flattened row-major:
/// `a` is top-left, `b` top-right, `c` bottom-left, `d` bottom-right.
#[derive(PartialEq, Eq, Structural, Clone, Copy, Debug)]
pub struct Block {
    pub a: usize,
    pub b: usize,
    pub c: usize,
    pub d: usize,
}

impl Block {
    /// Horizontal mirror (reflection across the vertical centerline):
    /// the two columns are swapped within each row.
    pub open spec fn spec_mirror(self) -> Block {
        Block { a: self.b, b: self.a, c: self.d, d: self.c }
    }

    pub fn mirror(self) -> (r: Block)
        ensures
            r == self.spec_mirror(),
    {
        Block { a: self.b, b: self.a, c: self.d, d: self.c }
    }

    /// Lexicographic order on the tuple `(a, b, c, d)`.
    pub open spec fn spec_le(self, other: Block) -> bool {
        if self.a != other.a {
            self.a < other.a
        } else if self.b != other.b {
            self.b < other.b
        } else if self.c != other.c {
            self.c < other.c
        } else {
            self.d <= other.d
        }
    }

    /// The canonical representative of the mirror orbit `{self, mirror(self)}`:
    /// the lexicographically smaller of the two.
    pub open spec fn spec_canonical(self) -> Block {
        if self.spec_le(self.spec_mirror()) {
            self
        } else {
            self.spec_mirror()
        }
    }

    pub fn canonical(self) -> (r: Block)
        ensures
            r == self.spec_canonical(),
    {
        let m = self.mirror();
        if self.a != m.a {
            if self.a < m.a { self } else { m }
        } else if self.b != m.b {
            if self.b < m.b { self } else { m }
        } else if self.c != m.c {
            if self.c < m.c { self } else { m }
        } else {
            if self.d <= m.d { self } else { m }
        }
    }

    /// The block mentions palette index `x` in some cell.
    pub open spec fn spec_refs(self, x: nat) -> bool {
        self.a == x || self.b == x || self.c == x || self.d == x
    }

    pub fn refs(self, x: usize) -> (r: bool)
        ensures
            r == self.spec_refs(x as nat),
    {
        self.a == x || self.b == x || self.c == x || self.d == x
    }

    /// Re-aim the block's indices after the palette element at `x` was
    /// removed: indices above `x` shift down by one, the rest stay.
    pub open spec fn spec_shift_removed(self, x: nat) -> Block {
        Block {
            a: if self.a > x { (self.a - 1) as usize } else { self.a },
            b: if self.b > x { (self.b - 1) as usize } else { self.b },
            c: if self.c > x { (self.c - 1) as usize } else { self.c },
            d: if self.d > x { (self.d - 1) as usize } else { self.d },
        }
    }

    pub fn shift_removed(self, x: usize) -> (r: Block)
        ensures
            r == self.spec_shift_removed(x as nat),
    {
        Block {
            a: if self.a > x { self.a - 1 } else { self.a },
            b: if self.b > x { self.b - 1 } else { self.b },
            c: if self.c > x { self.c - 1 } else { self.c },
            d: if self.d > x { self.d - 1 } else { self.d },
        }
    }

    /// Every index of the block references an element of a palette of length `n`.
    pub open spec fn spec_in_range(self, n: nat) -> bool {
        self.a < n && self.b < n && self.c < n && self.d < n
    }

    pub fn in_range(self, n: usize) -> (r: bool)
        ensures
            r == self.spec_in_range(n as nat),
    {
        self.a < n && self.b < n && self.c < n && self.d < n
    }
}

/// Law: the horizontal mirror is an involution; mirroring twice
/// gives the original block back.
pub proof fn lemma_mirror_involution(b: Block)
    ensures
        b.spec_mirror().spec_mirror() == b,
{
}

/// The canonical representative is the same for both members of an orbit.
pub proof fn lemma_canonical_of_mirror(b: Block)
    ensures
        b.spec_mirror().spec_canonical() == b.spec_canonical(),
{
}

/// The canonical representative is a member of the orbit.
pub proof fn lemma_canonical_in_orbit(b: Block)
    ensures
        b.spec_canonical() == b || b.spec_canonical() == b.spec_mirror(),
{
}

/// Shifting after a removal is injective on blocks that do not mention
/// the removed index.
pub proof fn lemma_shift_removed_injective(b1: Block, b2: Block, x: nat)
    requires
        !b1.spec_refs(x),
        !b2.spec_refs(x),
        b1.spec_shift_removed(x) == b2.spec_shift_removed(x),
    ensures
        b1 == b2,
{
}

/// A block in range of `n` that does not mention the removed index `x`
/// stays in range of the shrunk palette after shifting.
pub proof fn lemma_shift_removed_in_range(b: Block, x: nat, n: nat)
    requires
        b.spec_in_range(n),
        !b.spec_refs(x),
        x < n,
    ensures
        b.spec_shift_removed(x).spec_in_range((n - 1) as nat),
{
}

} // verus!
