//! Lookup in a static phoneme table: a list of named parameter records in
//! which the first record of a name is the one that counts.

use vstd::prelude::*;

use crate::banks::str_eq;

verus! {

/// `k` is the index of the first row named `name`, or `-1` when none is.
pub open spec fn is_first_row<P>(t: Seq<(&str, P)>, name: Seq<char>, k: int) -> bool {
    ||| (k == -1 && forall|j: int| 0 <= j < t.len() ==> (#[trigger] t[j]).0@ != name)
    ||| (0 <= k < t.len() && t[k].0@ == name && forall|j: int| 0 <= j < k ==> (#[trigger] t[j]).0@ != name)
}

/// The parameters of the first row named `name`, if any.
pub open spec fn table_lookup<P>(t: Seq<(&str, P)>, name: Seq<char>) -> Option<P> {
    if exists|k: int| 0 <= k < t.len() && is_first_row(t, name, k) {
        let k = choose|k: int| 0 <= k < t.len() && is_first_row(t, name, k);
        Some(t[k].1)
    } else {
        None
    }
}

/// The parameters of the first row of `table` named `name`, or `None`.
pub fn lookup_row<P: Copy>(table: &[(&str, P)], name: &str) -> (r: Option<P>)
    ensures
        r == table_lookup(table@, name@),
{
    let mut i: usize = 0;
    while i < table.len()
        invariant
            i <= table.len(),
            forall|j: int| 0 <= j < i ==> (#[trigger] table@[j]).0@ != name@,
        decreases table.len() - i,
    {
        let (n, p) = table[i];
        if str_eq(n, name) {
            proof {
                assert(is_first_row(table@, name@, i as int));
                let k = choose|k: int| 0 <= k < table@.len() && is_first_row(table@, name@, k);
                if k < i {
                    assert(table@[k].0@ != name@);
                } else if k > i {
                    assert(table@[i as int].0@ == name@);
                }
            }
            return Some(p);
        }
        i += 1;
    }
    None
}

} // verus!
