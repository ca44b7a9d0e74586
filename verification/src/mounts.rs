//! The rule deciding which mounted filesystems are offered as scan targets.
//!
//! Enumerating the mounts is the platform layer's job; it hands each
//! mount's source and mount point in here as plain strings.

use vstd::prelude::*;

verus! {

/// `p` is a prefix of `s`.
pub open spec fn spec_str_prefix(s: Seq<char>, p: Seq<char>) -> bool {
    p.len() <= s.len() && s.subrange(0, p.len() as int) == p
}

/// The mount-listing policy (for Unix-style mount tables): show a mount
/// exactly when it is backed by a `/dev/` device and is not one of the EFI
/// system partitions.
pub open spec fn spec_mount_is_shown(from: Seq<char>, on: Seq<char>) -> bool {
    &&& spec_str_prefix(from, seq!['/', 'd', 'e', 'v', '/'])
    &&& on != seq!['/', 'e', 's', 'p']
    &&& on != seq!['/', 'e', 'f', 'i']
    &&& on != seq!['/', 'b', 'o', 'o', 't', '/', 'e', 'f', 'i']
}

/// Character-wise string equality.
fn str_eq(a: &str, b: &str) -> (r: bool)
    ensures
        r == (a@ == b@),
{
    let alen = a.unicode_len();
    let blen = b.unicode_len();
    if alen != blen {
        proof {
            assert(a@ != b@);
        }
        return false;
    }
    let mut k: usize = 0;
    while k < alen
        invariant
            alen == a@.len(),
            alen == b@.len(),
            0 <= k <= alen,
            forall|j: int| 0 <= j < k ==> a@[j] == b@[j],
        decreases alen - k,
    {
        if a.get_char(k) != b.get_char(k) {
            return false;
        }
        k = k + 1;
    }
    proof {
        assert(a@ =~= b@);
    }
    true
}

/// Decides whether a mount appears in the scan-target list, from its
/// source (`fs_mounted_from`) and its mount point (`fs_mounted_on`).
pub fn mount_is_shown(fs_mounted_from: &str, fs_mounted_on: &str) -> (r: bool)
    ensures
        r == spec_mount_is_shown(fs_mounted_from@, fs_mounted_on@),
{
    proof {
        reveal_strlit("/dev/");
        reveal_strlit("/esp");
        reveal_strlit("/efi");
        reveal_strlit("/boot/efi");
        assert("/dev/"@ =~= seq!['/', 'd', 'e', 'v', '/']);
        assert("/esp"@ =~= seq!['/', 'e', 's', 'p']);
        assert("/efi"@ =~= seq!['/', 'e', 'f', 'i']);
        assert("/boot/efi"@ =~= seq!['/', 'b', 'o', 'o', 't', '/', 'e', 'f', 'i']);
    }
    let from_len = fs_mounted_from.unicode_len();
    if from_len < 5 {
        return false;
    }
    if !str_eq(fs_mounted_from.substring_char(0, 5), "/dev/") {
        return false;
    }
    if str_eq(fs_mounted_on, "/esp") {
        return false;
    }
    if str_eq(fs_mounted_on, "/efi") {
        return false;
    }
    if str_eq(fs_mounted_on, "/boot/efi") {
        return false;
    }
    true
}

} // verus!
