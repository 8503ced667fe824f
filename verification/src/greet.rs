//! The one decision behind the greeting program: whether a name should be
//! greeted at all, namely whether it begins with the letter W in either case.

use vstd::prelude::*;
use vstd::string::StrSliceExecFns;

verus! {

/// True exactly when the name's first character is `W` or `w`.
pub open spec fn spec_begins_with_w(name: Seq<char>) -> bool {
    name.len() > 0 && (name[0] == 'W' || name[0] == 'w')
}

/// Decides whether a name is greeted: it must begin with `W` or `w`.
pub fn begins_with_w(name: &str) -> (r: bool)
    ensures
        r == spec_begins_with_w(name@),
{
    if name.unicode_len() == 0 {
        false
    } else {
        let c = name.get_char(0);
        c == 'W' || c == 'w'
    }
}

} // verus!
