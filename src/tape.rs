use vstd::prelude::*;

verus! {

/// A value that can be stored in one cell of a tape.
pub trait TapeData: Sized + Copy {
    /// The value every cell holds after a reset.
    spec fn spec_zero() -> Self;

    /// The value after one increment.
    spec fn spec_increase(self) -> Self;

    /// The value after one decrement.
    spec fn spec_decrease(self) -> Self;

    /// The zero value.
    fn zero() -> (r: Self)
        ensures
            r == Self::spec_zero(),
    ;

    /// Increase this value by one step.
    fn increase(&mut self)
        ensures
            *final(self) == old(self).spec_increase(),
    ;

    /// Decrease this value by one step.
    fn decrease(&mut self)
        ensures
            *final(self) == old(self).spec_decrease(),
    ;

    /// Whether this value is the zero value.
    fn is_zero(&self) -> (r: bool)
        ensures
            r == (*self == Self::spec_zero()),
    ;
}

impl TapeData for u8 {
    open spec fn spec_zero() -> u8 {
        0
    }

    open spec fn spec_increase(self) -> u8 {
        if self == 255 { 0 } else { (self + 1) as u8 }
    }

    open spec fn spec_decrease(self) -> u8 {
        if self == 0 { 255 } else { (self - 1) as u8 }
    }

    fn zero() -> (r: u8) {
        0
    }

    fn increase(&mut self) {
        *self = self.wrapping_add(1);
    }

    fn decrease(&mut self) {
        *self = self.wrapping_sub(1);
    }

    fn is_zero(&self) -> (r: bool) {
        *self == 0
    }
}

/// Byte-addressable, resettable storage of cells.
///
/// A tape is seen as a cell for every index and a set of indices that can be
/// accessed; the set never changes.
pub trait Tape: Sized {
    /// The type of the cells.
    type Data: TapeData;

    /// Whether the cell at `index` can be accessed.
    spec fn in_range(&self, index: int) -> bool;

    /// The value of the cell at `index`.
    spec fn cell(&self, index: int) -> Self::Data;

    /// How many cells the tape stores now; a growing tape stores more after
    /// an access past its end.
    spec fn size(&self) -> nat;

    /// The cell at `index`, or `None` where it is out of range.
    fn get_data_at(&mut self, index: usize) -> (r: Option<&Self::Data>)
        ensures
            r is Some <==> old(self).in_range(index as int),
            r is Some ==> index < usize::MAX && *r->0 == old(self).cell(index as int),
            final(self).size() == if r is Some && index >= old(self).size() {
                index + 1
            } else {
                old(self).size() as int
            },
            forall|i: int| #[trigger] final(self).in_range(i) == old(self).in_range(i),
            forall|i: int| #[trigger] final(self).cell(i) == old(self).cell(i),
    ;

    /// The cell at `index` for writing, or `None` where it is out of range.
    fn get_data_at_mut(&mut self, index: usize) -> (r: Option<&mut Self::Data>)
        ensures
            r is Some <==> old(self).in_range(index as int),
            forall|i: int| #[trigger] final(self).in_range(i) == old(self).in_range(i),
            final(self).size() == if r is Some && index >= old(self).size() {
                index + 1
            } else {
                old(self).size() as int
            },
            match r {
                Some(d) => {
                    &&& index < usize::MAX
                    &&& *d == old(self).cell(index as int)
                    &&& final(self).cell(index as int) == *final(d)
                    &&& forall|i: int| i != index ==> #[trigger] final(self).cell(i) == old(self).cell(i)
                },
                None => forall|i: int| #[trigger] final(self).cell(i) == old(self).cell(i),
            },
    ;

    /// Set every cell to zero.
    fn reset(&mut self)
        ensures
            final(self).size() == old(self).size(),
            forall|i: int| #[trigger] final(self).in_range(i) == old(self).in_range(i),
            forall|i: int| #[trigger] final(self).cell(i) == Self::Data::spec_zero(),
    ;
}

/// A tape that grows on demand: every index below `usize::MAX` can be
/// accessed, and cells past the end read as zero until touched.
impl<D: TapeData> Tape for Vec<D> {
    type Data = D;

    open spec fn in_range(&self, index: int) -> bool {
        0 <= index < usize::MAX
    }

    open spec fn cell(&self, index: int) -> D {
        if 0 <= index < self@.len() {
            self@[index]
        } else {
            D::spec_zero()
        }
    }

    open spec fn size(&self) -> nat {
        self@.len()
    }

    fn get_data_at(&mut self, index: usize) -> (r: Option<&D>) {
        if index == usize::MAX {
            return None;
        }
        grow_to(self, index);
        assert(self.cell(index as int) == self@[index as int]);
        Some(&self[index])
    }

    fn get_data_at_mut(&mut self, index: usize) -> (r: Option<&mut D>) {
        if index == usize::MAX {
            return None;
        }
        grow_to(self, index);
        assert(self.cell(index as int) == self@[index as int]);
        let r = &mut self[index];
        Some(r)
    }

    fn reset(&mut self) {
        let n = self.len();
        let mut i: usize = 0;
        while i < n
            invariant
                n == self@.len(),
                i <= n,
                forall|j: int| 0 <= j < i ==> self@[j] == D::spec_zero(),
            decreases n - i,
        {
            self.set(i, D::zero());
            i = i + 1;
        }
    }
}

/// Extend `v` with zero cells until `index` is a valid position.
fn grow_to<D: TapeData>(v: &mut Vec<D>, index: usize)
    requires
        index < usize::MAX,
    ensures
        final(v)@.len() == if index < old(v)@.len() {
            old(v)@.len() as int
        } else {
            index + 1
        },
        forall|i: int| #[trigger] final(v).cell(i) == old(v).cell(i),
        forall|i: int| 0 <= i < old(v)@.len() ==> #[trigger] final(v)@[i] == old(v)@[i],
        forall|i: int| old(v)@.len() <= i < final(v)@.len() ==> #[trigger] final(v)@[i] == D::spec_zero(),
{
    while v.len() <= index
        invariant
            index < usize::MAX,
            v@.len() >= old(v)@.len(),
            v@.len() == old(v)@.len() || v@.len() <= index + 1,
            forall|i: int| #[trigger] v.cell(i) == old(v).cell(i),
            forall|i: int| 0 <= i < old(v)@.len() ==> #[trigger] v@[i] == old(v)@[i],
            forall|i: int| old(v)@.len() <= i < v@.len() ==> #[trigger] v@[i] == D::spec_zero(),
        decreases index + 1 - v@.len(),
    {
        let ghost before = *v;
        v.push(D::zero());
        assert forall|i: int| #[trigger] v.cell(i) == before.cell(i) by {
            if 0 <= i < before@.len() {
                assert(v@[i] == before@[i]);
            }
        }
    }
}

/// A tape of fixed capacity `N`: indices from `N` on are out of range.
impl<D: TapeData, const N: usize> Tape for [D; N] {
    type Data = D;

    open spec fn in_range(&self, index: int) -> bool {
        0 <= index < N && index < usize::MAX
    }

    open spec fn cell(&self, index: int) -> D {
        if 0 <= index < N {
            self@[index]
        } else {
            D::spec_zero()
        }
    }

    open spec fn size(&self) -> nat {
        N as nat
    }

    fn get_data_at(&mut self, index: usize) -> (r: Option<&D>) {
        if index < N && index < usize::MAX {
            Some(&self[index])
        } else {
            None
        }
    }

    fn get_data_at_mut(&mut self, index: usize) -> (r: Option<&mut D>) {
        if index < N && index < usize::MAX {
            Some(&mut self[index])
        } else {
            None
        }
    }

    fn reset(&mut self) {
        let mut i: usize = 0;
        while i < N
            invariant
                i <= N,
                forall|j: int| 0 <= j < i ==> self@[j] == D::spec_zero(),
            decreases N - i,
        {
            self[i] = D::zero();
            i = i + 1;
        }
    }
}

/// A borrowed slice as a tape of fixed capacity: indices from its length on
/// are out of range.
impl<'a, D: TapeData> Tape for &'a mut [D] {
    type Data = D;

    open spec fn in_range(&self, index: int) -> bool {
        0 <= index < self@.len() && index < usize::MAX
    }

    open spec fn cell(&self, index: int) -> D {
        if 0 <= index < self@.len() {
            self@[index]
        } else {
            D::spec_zero()
        }
    }

    open spec fn size(&self) -> nat {
        self@.len()
    }

    fn get_data_at(&mut self, index: usize) -> (r: Option<&D>) {
        if index < self.len() && index < usize::MAX {
            Some(&self[index])
        } else {
            None
        }
    }

    fn get_data_at_mut(&mut self, index: usize) -> (r: Option<&mut D>) {
        if index < self.len() && index < usize::MAX {
            Some(&mut self[index])
        } else {
            None
        }
    }

    fn reset(&mut self) {
        let n = self.len();
        let mut i: usize = 0;
        while i < n
            invariant
                n == self@.len(),
                i <= n,
                forall|j: int| 0 <= j < i ==> self@[j] == D::spec_zero(),
            decreases n - i,
        {
            self[i] = D::zero();
            i = i + 1;
        }
    }
}

} // verus!
