//! Recognition of encrypted variable files by their metadata keys.
use vstd::prelude::*;

use crate::text::{contains_seq, contains_slice, str_to_chars};

verus! {

/// True when the raw text carries both metadata keys that an encrypted
/// document always contains: a `sops:` root key and a `mac:` entry.
pub fn is_sops_encrypted(content: &str) -> (r: bool)
    ensures
        r == (contains_seq(content@, "sops:"@) && contains_seq(content@, "mac:"@)),
{
    let chars = str_to_chars(content);
    let key_a = str_to_chars("sops:");
    let key_b = str_to_chars("mac:");
    contains_slice(chars.as_slice(), key_a.as_slice()) && contains_slice(
        chars.as_slice(),
        key_b.as_slice(),
    )
}

} // verus!
