//! Comparing strings character by character.
use vstd::prelude::*;
use vstd::string::StrSliceExecFns;

verus! {

/// Whether `text` begins with `prefix`.
pub fn starts_with(text: &str, prefix: &str) -> (yes: bool)
    ensures
        yes == prefix@.is_prefix_of(text@),
{
    let wanted: usize = prefix.unicode_len();
    let given: usize = text.unicode_len();
    if given < wanted {
        return false;
    }
    let mut i: usize = 0;
    while i < wanted
        invariant
            wanted == prefix@.len(),
            given == text@.len(),
            wanted <= given,
            i <= wanted,
            forall|j: int| 0 <= j < i ==> text@[j] == prefix@[j],
        decreases wanted - i,
    {
        if text.get_char(i) != prefix.get_char(i) {
            assert(text@.subrange(0, wanted as int)[i as int] != prefix@[i as int]);
            return false;
        }
        i += 1;
    }
    assert(prefix@ =~= text@.subrange(0, wanted as int));
    true
}

/// Whether `left` and `right` hold the same characters.
pub fn same_text(left: &str, right: &str) -> (yes: bool)
    ensures
        yes == (left@ == right@),
{
    if left.unicode_len() != right.unicode_len() {
        return false;
    }
    let yes = starts_with(left, right);
    proof {
        if yes {
            assert(left@ =~= left@.subrange(0, right@.len() as int));
        }
    }
    yes
}

} // verus!
