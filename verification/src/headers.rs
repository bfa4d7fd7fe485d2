use vstd::prelude::*;

use crate::text::{lines_view, lower_byte, split_nl, to_lower_b, trimmed, trimmed_from};

verus! {

// ---------------------------------------------------------------------------
// Header fields: a message's headers are `name: value` lines, the name
// matched case-insensitively; only the first occurrence of a name counts.
// ---------------------------------------------------------------------------

/// Whether `line` opens a header field of the given name: the line starts
/// with the name, compared byte-wise after ASCII lower-casing, followed by a
/// colon.
pub open spec fn header_match(line: Seq<u8>, name: Seq<u8>) -> bool {
    &&& line.len() > name.len()
    &&& forall|i: int| 0 <= i < name.len() ==> to_lower_b(line[i]) == to_lower_b(name[i])
    &&& line[name.len() as int] == 58u8
}

/// The value of the first header field of the given name among `lines`:
/// what follows the colon, with surrounding whitespace removed.
pub open spec fn header_value_in(lines: Seq<Seq<u8>>, name: Seq<u8>) -> Option<Seq<u8>>
    decreases lines.len(),
{
    if lines.len() == 0 {
        Option::None
    } else if header_match(lines[0], name) {
        Option::Some(trimmed(lines[0].skip(name.len() as int + 1)))
    } else {
        header_value_in(lines.drop_first(), name)
    }
}

/// The header value of `name` in a raw message blob, line structure included.
pub open spec fn header_value_of(content: Seq<u8>, name: Seq<u8>) -> Option<Seq<u8>> {
    header_value_in(split_nl(content), name)
}

/// The view of an optional byte vector.
pub open spec fn opt_view(o: Option<Vec<u8>>) -> Option<Seq<u8>> {
    match o {
        Option::Some(v) => Option::Some(v@),
        Option::None => Option::None,
    }
}

/// Executable test of `header_match`.
#[verifier::loop_isolation(false)]
pub fn line_matches_header(line: &Vec<u8>, name: &[u8]) -> (r: bool)
    ensures
        r == header_match(line@, name@),
{
    if line.len() <= name.len() {
        return false;
    }
    if line[name.len()] != 58 {
        return false;
    }
    let mut i: usize = 0;
    while i < name.len()
        invariant
            0 <= i <= name@.len(),
            forall|j: int| 0 <= j < i ==> to_lower_b(line@[j]) == to_lower_b(name@[j]),
        decreases name@.len() - i,
    {
        if lower_byte(line[i]) != lower_byte(name[i]) {
            return false;
        }
        i = i + 1;
    }
    true
}

/// Finds the first header field of the given name among `lines` and returns
/// its trimmed value.
#[verifier::loop_isolation(false)]
pub fn find_header_value(lines: &Vec<Vec<u8>>, name: &[u8]) -> (r: Option<Vec<u8>>)
    ensures
        opt_view(r) == header_value_in(lines_view(lines@), name@),
{
    let ghost lv = lines_view(lines@);
    let mut i: usize = 0;
    proof {
        assert(lv.skip(0) =~= lv);
    }
    while i < lines.len()
        invariant
            0 <= i <= lv.len(),
            lv.len() == lines@.len(),
            header_value_in(lv, name@) == header_value_in(lv.skip(i as int), name@),
        decreases lv.len() - i,
    {
        proof {
            assert(lv.skip(i as int)[0] == lv[i as int]);
            assert(lv[i as int] == lines@[i as int]@);
        }
        if line_matches_header(&lines[i], name) {
            let line_len: usize = lines[i].len();
            assert(name@.len() < line_len);
            let v = trimmed_from(&lines[i], name.len() + 1);
            return Some(v);
        }
        proof {
            assert(lv.skip(i as int).drop_first() =~= lv.skip(i + 1));
        }
        i = i + 1;
    }
    None
}

} // verus!
