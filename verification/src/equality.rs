//! Equality of digests and ids: two are equal where their bytes are.

use crate::hash::HashBytes;
use crate::obj::ID;
use vstd::prelude::*;
use vstd::std_specs::cmp::PartialEqSpecImpl;

verus! {

impl<const N: usize> PartialEq for HashBytes<N> {
    fn eq(&self, other: &Self) -> (r: bool) {
        let a = self.as_bytes().as_slice();
        let b = other.as_bytes().as_slice();
        let mut i: usize = 0;
        while i < a.len()
            invariant
                a@ == self@,
                b@ == other@,
                a@.len() == b@.len(),
                i <= a@.len(),
                a@.take(i as int) == b@.take(i as int),
            decreases a@.len() - i,
        {
            if a[i] != b[i] {
                assert(self@[i as int] != other@[i as int]);
                return false;
            }
            assert(a@.take(i + 1) =~= a@.take(i as int).push(a@[i as int]));
            assert(b@.take(i + 1) =~= b@.take(i as int).push(b@[i as int]));
            i += 1;
        }
        assert(a@ =~= a@.take(i as int));
        assert(b@ =~= b@.take(i as int));
        true
    }
}

impl<const N: usize> PartialEqSpecImpl for HashBytes<N> {
    open spec fn obeys_eq_spec() -> bool {
        true
    }

    open spec fn eq_spec(&self, other: &Self) -> bool {
        self@ == other@
    }
}

impl PartialEq for ID {
    fn eq(&self, other: &Self) -> (r: bool) {
        match (self, other) {
            (ID::SHA1(a), ID::SHA1(b)) => a == b,
        }
    }
}

impl PartialEqSpecImpl for ID {
    open spec fn obeys_eq_spec() -> bool {
        true
    }

    open spec fn eq_spec(&self, other: &Self) -> bool {
        self.bytes() == other.bytes()
    }
}

} // verus!
