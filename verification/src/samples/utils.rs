//! A module with one public function.

use vstd::prelude::*;

verus! {

pub fn helper() -> (r: i32)
    ensures
        r == 42,
{
    42
}

} // verus!
