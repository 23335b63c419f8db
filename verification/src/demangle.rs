//! The narrow demangle fix-up. The profiler demangles Rust symbols only
//! partially and leaves the trailing hash in place, so a name arrives as
//! `std::panicking::try::do_call::h16e73fdb7a1790eb`. The fix-up strips
//! that trailing `::h` plus sixteen hexadecimal digits; every other name
//! passes through unchanged. This is not a general demangler.

use vstd::prelude::*;
use vstd::string::StrSliceExecFns;

use crate::strutil::is_digit_char;
use crate::strutil::matches_at;
use crate::strutil::spec_is_digit;
use crate::strutil::spec_occurs_at;

verus! {

/// `c` is an ASCII hexadecimal digit.
pub open spec fn spec_is_hex_digit(c: char) -> bool {
    spec_is_digit(c) || c == 'a' || c == 'b' || c == 'c' || c == 'd' || c == 'e' || c == 'f'
        || c == 'A' || c == 'B' || c == 'C' || c == 'D' || c == 'E' || c == 'F'
}

pub fn is_hex_digit_char(c: char) -> (r: bool)
    ensures
        r == spec_is_hex_digit(c),
{
    is_digit_char(c) || c == 'a' || c == 'b' || c == 'c' || c == 'd' || c == 'e' || c == 'f'
        || c == 'A' || c == 'B' || c == 'C' || c == 'D' || c == 'E' || c == 'F'
}

/// `s` ends with `::h` followed by sixteen hexadecimal digits, the
/// hash that a partially demangled Rust symbol still carries.
pub open spec fn spec_has_trailing_hash(s: Seq<char>) -> bool {
    &&& s.len() >= 19
    &&& spec_occurs_at(s, "::h"@, s.len() - 19)
    &&& forall|i: int| s.len() - 16 <= i < s.len() ==> spec_is_hex_digit(s[i])
}

/// The symbol with its trailing hash stripped when one is present,
/// and unchanged otherwise.
pub open spec fn spec_fix_symbol(s: Seq<char>) -> Seq<char> {
    if spec_has_trailing_hash(s) {
        s.subrange(0, s.len() - 19)
    } else {
        s
    }
}

/// Strips the trailing `::h<16 hex digits>` hash from a partially
/// demangled Rust symbol; any other symbol is returned unchanged.
pub fn fix_partially_demangled_rust_symbol<'a>(sym: &'a str) -> (r: &'a str)
    ensures
        r@ == spec_fix_symbol(sym@),
{
    let n = sym.unicode_len();
    if n < 19 {
        return sym;
    }
    if !matches_at(sym, "::h", n - 19) {
        return sym;
    }
    let mut i = n - 16;
    while i < n
        invariant
            n - 16 <= i <= n,
            n == sym@.len(),
            n >= 19,
            spec_occurs_at(sym@, "::h"@, n - 19),
            forall|k: int| n - 16 <= k < i ==> spec_is_hex_digit(sym@[k]),
        decreases n - i,
    {
        if !is_hex_digit_char(sym.get_char(i)) {
            return sym;
        }
        i = i + 1;
    }
    sym.substring_char(0, n - 19)
}

} // verus!
