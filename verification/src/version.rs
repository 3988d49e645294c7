//! Schema version of the incident document.
use vstd::prelude::*;
use crate::text::chars_of;

verus! {

/// The version string that every produced incident document carries.
pub const SCHEMA_VERSION: &'static str = "1.0.0";

/// The text before the first `.` (all of `s` when it has none): the first
/// item that `split('.')` yields.
pub open spec fn first_segment(s: Seq<char>) -> Seq<char>
    decreases s.len(),
{
    if s.len() == 0 || s[0] == '.' {
        Seq::empty()
    } else {
        seq![s[0]] + first_segment(s.drop_first())
    }
}

/// Whether a document of schema version `version` can be read by this
/// library: its major component (the text before the first `.`) is `1`.
pub fn major_compatible(version: &str) -> (r: bool)
    ensures
        r == (first_segment(version@) == seq!['1']),
{
    let cs = chars_of(version);
    let ghost s = version@;
    if cs.len() >= 1 && cs[0] == '1' {
        assert(first_segment(s) == seq!['1'] + first_segment(s.drop_first()));
        if cs.len() == 1 || cs[1] == '.' {
            assert(first_segment(s.drop_first()) =~= Seq::<char>::empty());
            assert(first_segment(s) =~= seq!['1']);
            true
        } else {
            assert(first_segment(s.drop_first()).len() >= 1);
            assert((seq!['1'] + first_segment(s.drop_first())).len() >= 2);
            false
        }
    } else {
        if cs.len() >= 1 && cs[0] != '.' {
            assert(first_segment(s) == seq![s[0]] + first_segment(s.drop_first()));
            assert(first_segment(s)[0] != seq!['1'][0]);
        } else {
            assert(first_segment(s).len() == 0);
        }
        false
    }
}

} // verus!
