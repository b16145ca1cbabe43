//! Unicode identifier classification for object keys.
//!
//! A key renders as a bare dotted segment in Gron-style output only when it
//! is lexically a valid identifier: its first character is in the Unicode
//! XID_Start class and every later character is in XID_Continue.

use vstd::prelude::*;
use vstd::string::StrSliceExecFns;

verus! {

/// Whether a character is in the Unicode XID_Start class.
pub uninterp spec fn xid_start(c: char) -> bool;

/// Whether a character is in the Unicode XID_Continue class.
pub uninterp spec fn xid_continue(c: char) -> bool;

/// Relies on unicode_ident::is_xid_start: membership in XID_Start, a fixed
/// property of the character.
#[verifier::external_body]
fn is_xid_start_char(c: char) -> (r: bool)
    ensures
        r == xid_start(c),
{
    unicode_ident::is_xid_start(c)
}

/// Relies on unicode_ident::is_xid_continue: membership in XID_Continue, a
/// fixed property of the character.
#[verifier::external_body]
fn is_xid_continue_char(c: char) -> (r: bool)
    ensures
        r == xid_continue(c),
{
    unicode_ident::is_xid_continue(c)
}

/// A nonempty string whose first character starts an identifier and whose
/// remaining characters may continue one.
pub open spec fn spec_is_identifier(s: Seq<char>) -> bool {
    s.len() > 0 && xid_start(s[0]) && forall|j: int| 1 <= j < s.len() ==> xid_continue(s[j])
}

/// Decide whether an object key can be rendered as a bare identifier.
pub fn is_identifier(s: &str) -> (r: bool)
    ensures
        r == spec_is_identifier(s@),
{
    let n = s.unicode_len();
    if n == 0 {
        return false;
    }
    if !is_xid_start_char(s.get_char(0)) {
        return false;
    }
    let mut i: usize = 1;
    while i < n
        invariant
            n == s@.len(),
            1 <= i <= n,
            xid_start(s@[0]),
            forall|j: int| 1 <= j < i ==> xid_continue(s@[j]),
        decreases n - i,
    {
        if !is_xid_continue_char(s.get_char(i)) {
            return false;
        }
        i = i + 1;
    }
    true
}

} // verus!
