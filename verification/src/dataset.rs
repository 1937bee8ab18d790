//! Class labels of a face dataset: each class name gets the index of its
//! first appearance.

use vstd::prelude::*;
use crate::text::{str_eq, string_from};

verus! {

/// The class label of `name`: the position of its first occurrence in
/// `names`, or, when it is new, the next free label (appended).
pub fn class_label(names: &mut Vec<String>, name: &str) -> (r: usize)
    ensures
        (exists|k: int| 0 <= k < old(names)@.len() && #[trigger] old(names)@[k]@ == name@) ==> {
            &&& final(names)@ == old(names)@
            &&& r < old(names)@.len()
            &&& old(names)@[r as int]@ == name@
            &&& forall|k: int| 0 <= k < r ==> #[trigger] old(names)@[k]@ != name@
        },
        (forall|k: int| 0 <= k < old(names)@.len() ==> #[trigger] old(names)@[k]@ != name@) ==> {
            &&& r == old(names)@.len()
            &&& final(names)@.len() == old(names)@.len() + 1
            &&& final(names)@.subrange(0, r as int) == old(names)@
            &&& final(names)@[r as int]@ == name@
        },
{
    let n = names.len();
    let mut k: usize = 0;
    while k < n
        invariant
            n == names@.len(),
            names@ == old(names)@,
            k <= n,
            forall|j: int| 0 <= j < k ==> #[trigger] names@[j]@ != name@,
        decreases n - k,
    {
        if str_eq(names[k].as_str(), name) {
            return k;
        }
        k = k + 1;
    }
    names.push(string_from(name));
    proof {
        assert(names@.subrange(0, n as int) =~= old(names)@);
    }
    n
}

} // verus!
