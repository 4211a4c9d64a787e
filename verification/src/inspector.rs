//! The target-name match of the process inspector. The host enumerates the
//! process table and decodes each image name; the decision whether a name is
//! the monitored target is made here: trailing NUL padding is ignored and
//! the comparison is ASCII case-insensitive.

use crate::ascii::byte_to_lower;
use crate::ascii::to_lower;
use vstd::prelude::*;

verus! {

/// The target's image name, `dwm.exe`, as lower-case bytes.
pub open spec fn target_name() -> Seq<u8> {
    seq![100u8, 119u8, 109u8, 46u8, 101u8, 120u8, 101u8]
}

/// `name` with its trailing NUL bytes removed, as a fixed-width decoded
/// image name carries them.
pub open spec fn trim_trailing_nuls(name: Seq<u8>) -> Seq<u8>
    decreases name.len(),
{
    if name.len() > 0 && name.last() == 0 {
        trim_trailing_nuls(name.drop_last())
    } else {
        name
    }
}

/// Whether `name`, after trailing NULs are dropped, equals the target's
/// image name up to ASCII case.
pub open spec fn spec_is_target_name(name: Seq<u8>) -> bool {
    let t = trim_trailing_nuls(name);
    t.len() == target_name().len() && (forall|i: int|
        0 <= i < t.len() ==> to_lower(t[i]) == target_name()[i])
}

/// Decides whether a decoded image name is the monitored target: trailing
/// NUL padding is ignored and ASCII letters match regardless of case.
pub fn is_target_name(name: &[u8]) -> (r: bool)
    ensures
        r == spec_is_target_name(name@),
{
    let mut end: usize = name.len();
    proof {
        assert(name@.subrange(0, name@.len() as int) =~= name@);
    }
    while end > 0 && name[end - 1] == 0
        invariant
            end <= name.len(),
            trim_trailing_nuls(name@) == trim_trailing_nuls(name@.subrange(0, end as int)),
        decreases end,
    {
        proof {
            assert(name@.subrange(0, end as int).drop_last() =~= name@.subrange(0, end - 1));
        }
        end = end - 1;
    }
    proof {
        assert(trim_trailing_nuls(name@.subrange(0, end as int)) =~= name@.subrange(0, end as int));
    }
    if end != 7 {
        return false;
    }
    let mut i: usize = 0;
    while i < 7
        invariant
            0 <= i <= 7,
            end == 7,
            end <= name.len(),
            trim_trailing_nuls(name@) =~= name@.subrange(0, 7),
            forall|j: int| 0 <= j < i ==> to_lower(name@.subrange(0, 7)[j]) == target_name()[j],
        decreases 7 - i,
    {
        if byte_to_lower(name[i]) != target_byte(i) {
            assert(to_lower(name@.subrange(0, 7)[i as int]) != target_name()[i as int]);
            return false;
        }
        i = i + 1;
    }
    true
}

/// The byte of the target's image name at a given position.
fn target_byte(i: usize) -> (r: u8)
    requires
        i < 7,
    ensures
        r == target_name()[i as int],
{
    if i == 0 {
        100
    } else if i == 1 {
        119
    } else if i == 2 {
        109
    } else if i == 3 {
        46
    } else if i == 4 {
        101
    } else if i == 5 {
        120
    } else {
        101
    }
}

} // verus!
