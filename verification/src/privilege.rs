//! Whether the scan runs with the privileges that show every port.

use vstd::prelude::*;
use crate::text::{chars_of, trim, trim_bounds};

verus! {

/// Whether the output of `id -u` names the superuser: the text, without
/// surrounding white space, is exactly `0`.
pub fn is_superuser_id(id_output: &str) -> (b: bool)
    ensures
        b == (trim(id_output@) == "0"@),
{
    let v = chars_of(id_output);
    let (lo, hi) = trim_bounds(&v);
    proof {
        reveal_strlit("0");
    }
    let b = hi > lo && hi - lo == 1 && v[lo] == '0';
    proof {
        let t = v@.subrange(lo as int, hi as int);
        assert("0"@ == seq!['0']);
        if b {
            assert(t[0] == v@[lo as int]);
            assert(t =~= "0"@);
        } else if t == "0"@ {
            assert(t[0] == '0');
        }
    }
    b
}

} // verus!
