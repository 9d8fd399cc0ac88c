//! The walker's skip rule for filesystem noise entries.
//!
//! An entry is noise when its name starts with the hidden-metadata prefix
//! `._`, or equals the reserved folder-display metadata filename
//! `.DS_Store`.  Noise entries are excluded from snapshots, so they are
//! never created, copied or deleted.

use vstd::prelude::*;

verus! {

/// Byte value of `.`.
pub const DOT: u8 = 46;

/// Byte value of `_`.
pub const UNDERSCORE: u8 = 95;

/// The reserved filename `.DS_Store`, as bytes.
pub open spec fn ds_store_name() -> Seq<u8> {
    seq![46u8, 68u8, 83u8, 95u8, 83u8, 116u8, 111u8, 114u8, 101u8]
}

/// Whether an entry name is filesystem noise: it starts with `._` or
/// equals `.DS_Store`.
pub open spec fn spec_is_noise_name(name: Seq<u8>) -> bool {
    ||| (name.len() >= 2 && name[0] == DOT && name[1] == UNDERSCORE)
    ||| name == ds_store_name()
}

/// Whether any component of a relative path is a noise name.  Snapshots
/// built by a walker that applies the skip rule contain no such path.
pub open spec fn spec_path_has_noise(path: Seq<Seq<u8>>) -> bool {
    exists|i: int| 0 <= i < path.len() && spec_is_noise_name(path[i])
}

/// The walker's skip test on one entry name.
pub fn is_noise_name(name: &[u8]) -> (r: bool)
    ensures
        r == spec_is_noise_name(name@),
{
    if name.len() >= 2 && name[0] == DOT && name[1] == UNDERSCORE {
        return true;
    }
    if name.len() != 9 {
        proof {
            assert(name@ != ds_store_name());
        }
        return false;
    }
    // 68 'D', 83 'S', 116 't', 111 'o', 114 'r', 101 'e'
    let r = name[0] == 46 && name[1] == 68 && name[2] == 83 && name[3] == 95 && name[4] == 83
        && name[5] == 116 && name[6] == 111 && name[7] == 114 && name[8] == 101;
    proof {
        if r {
            assert(name@ =~= ds_store_name());
        } else {
            assert(name@ != ds_store_name());
        }
    }
    r
}

} // verus!
