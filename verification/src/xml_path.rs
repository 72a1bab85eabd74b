//! Matching of structured-markup element paths: the current open-element
//! stack against an expected absolute path.

use vstd::prelude::*;

verus! {

/// Are the two element paths the same: equal length and equal names at
/// every depth?
pub fn path_vec_eq(left_path: &Vec<String>, right_path: Vec<&str>) -> (r: bool)
    ensures
        r == (left_path@.len() == right_path@.len() && forall|i: int|
            0 <= i < left_path@.len() ==> (#[trigger] left_path@[i])@ == right_path@[i]@),
{
    if left_path.len() != right_path.len() {
        return false;
    }
    let mut i: usize = 0;
    while i < left_path.len()
        invariant
            left_path@.len() == right_path@.len(),
            i <= left_path@.len(),
            forall|i2: int| 0 <= i2 < i ==> (#[trigger] left_path@[i2])@ == right_path@[i2]@,
        decreases left_path@.len() - i,
    {
        let expected = right_path[i].to_owned();
        if left_path[i] != expected {
            return false;
        }
        i = i + 1;
    }
    true
}

} // verus!
