//! Small things to do with text: finding a name in a list, reading numbers.

use crate::data_schema::texts;
use vstd::prelude::*;
use vstd::string::StringExecFns;

verus! {

/// The number that the text `s` spells as an unsigned 32-bit decimal, if it
/// spells one.
pub uninterp spec fn parsed_u32(s: Seq<char>) -> Option<u32>;

/// The number that the text `s` spells as an unsigned 64-bit decimal, if it
/// spells one.
pub uninterp spec fn parsed_u64(s: Seq<char>) -> Option<u64>;

/// `str::parse::<u32>`, its error dropped: the result is a function of the
/// text alone.
#[verifier::external_body]
pub(crate) fn parse_u32(s: &str) -> (r: Option<u32>)
    ensures
        r == parsed_u32(s@),
{
    s.parse::<u32>().ok()
}

/// `str::parse::<u64>`, its error dropped: the result is a function of the
/// text alone.
#[verifier::external_body]
pub(crate) fn parse_u64(s: &str) -> (r: Option<u64>)
    ensures
        r == parsed_u64(s@),
{
    s.parse::<u64>().ok()
}

/// The number a cell stands for: what the text spells, or `None` for an
/// empty cell or one that spells no number.
pub open spec fn cell_u32(cell: Option<Seq<char>>) -> Option<u32> {
    match cell {
        Some(s) => parsed_u32(s),
        None => None,
    }
}

/// Reads a cell as an unsigned 32-bit number.
pub fn read_u32(cell: &Option<String>) -> (r: Option<u32>)
    ensures
        r == cell_u32(
            match *cell {
                Some(s) => Some(s@),
                None => None,
            },
        ),
{
    match cell {
        Some(s) => parse_u32(s.as_str()),
        None => None,
    }
}

/// Whether the list `names` holds the text `name`.
pub fn contains_name(names: &Vec<String>, name: &str) -> (r: bool)
    ensures
        r == texts(names@).contains(name@),
{
    let wanted = String::from_str(name);
    let mut i: usize = 0;
    while i < names.len()
        invariant
            i <= names@.len(),
            wanted@ == name@,
            forall|j: int| 0 <= j < i ==> texts(names@)[j] != name@,
        decreases names@.len() - i,
    {
        if names[i] == wanted {
            proof {
                assert(texts(names@)[i as int] == name@);
            }
            return true;
        }
        i = i + 1;
    }
    false
}

} // verus!
