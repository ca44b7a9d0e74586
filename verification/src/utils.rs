//! Small display helpers shared by the rendering layer.

use vstd::prelude::*;

use crate::bytes_display::spec_bytes_display;

verus! {

/// Renders a byte count for labels and tooltips; see
/// [`crate::bytes_display::bytes_display`].
pub fn bytes_display(bytes: u64) -> (s: String)
    ensures
        s@ == spec_bytes_display(bytes),
{
    crate::bytes_display::bytes_display(bytes)
}

/// Shortens `s` to at most `max_chars` characters, replacing the tail with
/// an ellipsis: a string of `max_chars` or fewer characters is returned
/// unchanged (whatever the budget), a longer one keeps its first
/// `max_chars - 3` characters and gains `"..."`, which needs a budget of at
/// least the ellipsis itself. Counts characters, so it is safe on any text.
pub fn abbreviate_string(s: &str, max_chars: usize) -> (r: String)
    requires
        max_chars >= 3 || s@.len() <= max_chars,
    ensures
        s@.len() <= max_chars ==> r@ == s@,
        s@.len() > max_chars ==> r@ == s@.subrange(0, max_chars - 3) + seq!['.', '.', '.'],
{
    let len = s.unicode_len();
    if len <= max_chars {
        s.to_owned()
    } else {
        let mut r = s.substring_char(0, max_chars - 3).to_owned();
        proof {
            reveal_strlit("...");
            assert("..."@ =~= seq!['.', '.', '.']);
        }
        r.append("...");
        r
    }
}

} // verus!
