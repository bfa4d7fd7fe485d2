use vstd::prelude::*;

use crate::headers::{find_header_value, header_value_of, opt_view};
use crate::outside::{format_mbox_date, mbox_date_of};
use crate::text::{
    lex_le, lemma_lex_le_refl, lemma_lex_le_total, lemma_lex_le_trans, no_nl, push_all,
    split_lines,
};
use crate::SetupError;

verus! {

// ---------------------------------------------------------------------------
// Packing a directory of eml files into one mbox archive: for each message,
// an envelope line is synthesized from its `From` and `Date` headers, and
// the raw content follows, closed by exactly one blank line.
// ---------------------------------------------------------------------------

/// The header name `from`.
pub open spec fn from_name() -> Seq<u8> {
    seq![102u8, 114u8, 111u8, 109u8]
}

/// The header name `date`.
pub open spec fn date_name() -> Seq<u8> {
    seq![100u8, 97u8, 116u8, 101u8]
}

/// The address used when no sender can be extracted:
/// `unknown@example.com`.
pub open spec fn placeholder_addr() -> Seq<u8> {
    seq![
        117u8, 110u8, 107u8, 110u8, 111u8, 119u8, 110u8, 64u8, 101u8, 120u8, 97u8, 109u8, 112u8,
        108u8, 101u8, 46u8, 99u8, 111u8, 109u8,
    ]
}

/// The date used when none can be parsed: `Mon Jan 01 00:00:00 2024`.
pub open spec fn placeholder_date() -> Seq<u8> {
    seq![
        77u8, 111u8, 110u8, 32u8, 74u8, 97u8, 110u8, 32u8, 48u8, 49u8, 32u8, 48u8, 48u8, 58u8,
        48u8, 48u8, 58u8, 48u8, 48u8, 32u8, 50u8, 48u8, 50u8, 52u8,
    ]
}

/// The first position of `b` in `v` at or after `from`, or `v.len()`.
pub open spec fn find_byte(v: Seq<u8>, b: u8, from: int) -> int
    decreases v.len() - from,
{
    if from < 0 || from >= v.len() {
        v.len() as int
    } else if v[from] == b {
        from
    } else {
        find_byte(v, b, from + 1)
    }
}

pub proof fn lemma_find_byte_bounds(v: Seq<u8>, b: u8, from: int)
    requires
        0 <= from,
    ensures
        from <= v.len() ==> from <= find_byte(v, b, from) <= v.len(),
        from > v.len() ==> find_byte(v, b, from) == v.len(),
        find_byte(v, b, from) < v.len() ==> v[find_byte(v, b, from)] == b,
    decreases v.len() - from,
{
    if 0 <= from < v.len() && v[from] != b {
        lemma_find_byte_bounds(v, b, from + 1);
    }
}

/// The address part of a `From` header value: the bytes strictly between
/// the first `<` and the first `>` after it; the whole value when it has no
/// `<`; nothing usable when a `<` is never closed.
pub open spec fn angle_addr(v: Seq<u8>) -> Option<Seq<u8>> {
    let i = find_byte(v, 60u8, 0);
    if i == v.len() {
        Option::Some(v)
    } else {
        let j = find_byte(v, 62u8, i + 1);
        if j == v.len() {
            Option::None
        } else {
            Option::Some(v.subrange(i + 1, j))
        }
    }
}

/// The sender written into the envelope line for a message.
pub open spec fn sender_of(content: Seq<u8>) -> Seq<u8> {
    match header_value_of(content, from_name()) {
        Option::None => placeholder_addr(),
        Option::Some(v) => match angle_addr(v) {
            Option::None => placeholder_addr(),
            Option::Some(a) => a,
        },
    }
}

/// The date written into the envelope line for a message. A parsed date is
/// used only when it is newline-free, which the fixed format guarantees;
/// anything else falls back to the placeholder, so the envelope always
/// stays a single line.
pub open spec fn date_of(content: Seq<u8>) -> Seq<u8> {
    match header_value_of(content, date_name()) {
        Option::None => placeholder_date(),
        Option::Some(v) => match mbox_date_of(v) {
            Option::None => placeholder_date(),
            Option::Some(d) => if no_nl(d) {
                d
            } else {
                placeholder_date()
            },
        },
    }
}

/// The envelope line derived from a message: `From <sender> <date>`.
pub open spec fn envelope_line_of(content: Seq<u8>) -> Seq<u8> {
    seq![70u8, 114u8, 111u8, 109u8, 32u8] + sender_of(content) + seq![32u8] + date_of(content)
}

/// What is appended after a message so that exactly one blank line closes
/// it: nothing if it already ends in two newlines, one newline if it ends in
/// one, two newlines otherwise.
pub open spec fn trailing_pad(c: Seq<u8>) -> Seq<u8> {
    if c.len() >= 2 && c[c.len() - 1] == 10u8 && c[c.len() - 2] == 10u8 {
        Seq::empty()
    } else if c.len() >= 1 && c[c.len() - 1] == 10u8 {
        seq![10u8]
    } else {
        seq![10u8, 10u8]
    }
}

/// One message's contribution to the archive: envelope line, newline, the
/// raw content, and the closing pad.
pub open spec fn mbox_record_of(c: Seq<u8>) -> Seq<u8> {
    envelope_line_of(c) + seq![10u8] + c + trailing_pad(c)
}

/// Executable search for a byte.
#[verifier::loop_isolation(false)]
fn find_byte_in(v: &Vec<u8>, b: u8, from: usize) -> (r: usize)
    ensures
        r as int == find_byte(v@, b, from as int),
        from <= r <= v@.len() || (from > v@.len() && r == v@.len()),
{
    let mut i: usize = from;
    while i < v.len()
        invariant
            from <= i,
            find_byte(v@, b, from as int) == find_byte(v@, b, i as int),
        decreases v@.len() - i,
    {
        if v[i] == b {
            return i;
        }
        i = i + 1;
    }
    v.len()
}

/// Copies `v[a..b]`.
#[verifier::loop_isolation(false)]
fn copy_range(v: &Vec<u8>, a: usize, b: usize) -> (r: Vec<u8>)
    requires
        a <= b <= v@.len(),
    ensures
        r@ =~~= v@.subrange(a as int, b as int),
{
    let mut r: Vec<u8> = Vec::new();
    let mut i: usize = a;
    while i < b
        invariant
            a <= i <= b,
            r@ =~~= v@.subrange(a as int, i as int),
        decreases b - i,
    {
        r.push(v[i]);
        proof {
            assert(v@.subrange(a as int, i + 1) =~= v@.subrange(a as int, i as int).push(
            v@[i as int]));
        }
        i = i + 1;
    }
    r
}

/// The placeholder sender, as bytes.
fn placeholder_addr_vec() -> (r: Vec<u8>)
    ensures
        r@ == placeholder_addr(),
{
    let mut r: Vec<u8> = Vec::new();
    r.push(117);
    r.push(110);
    r.push(107);
    r.push(110);
    r.push(111);
    r.push(119);
    r.push(110);
    r.push(64);
    r.push(101);
    r.push(120);
    r.push(97);
    r.push(109);
    r.push(112);
    r.push(108);
    r.push(101);
    r.push(46);
    r.push(99);
    r.push(111);
    r.push(109);
    proof {
        assert(r@ =~= placeholder_addr());
    }
    r
}

/// The placeholder date, as bytes.
fn placeholder_date_vec() -> (r: Vec<u8>)
    ensures
        r@ == placeholder_date(),
{
    let mut r: Vec<u8> = Vec::new();
    r.push(77);
    r.push(111);
    r.push(110);
    r.push(32);
    r.push(74);
    r.push(97);
    r.push(110);
    r.push(32);
    r.push(48);
    r.push(49);
    r.push(32);
    r.push(48);
    r.push(48);
    r.push(58);
    r.push(48);
    r.push(48);
    r.push(58);
    r.push(48);
    r.push(48);
    r.push(32);
    r.push(50);
    r.push(48);
    r.push(50);
    r.push(52);
    proof {
        assert(r@ =~= placeholder_date());
    }
    r
}

/// Builds the whole mbox record for one message.
pub fn mbox_record(content: &[u8]) -> (r: Vec<u8>)
    ensures
        r@ == mbox_record_of(content@),
{
    let lines = split_lines(content);
    // Sender.
    let mut fname: Vec<u8> = Vec::new();
    fname.push(102);
    fname.push(114);
    fname.push(111);
    fname.push(109);
    proof {
        assert(fname@ =~= from_name());
    }
    let sender: Vec<u8> = match find_header_value(&lines, fname.as_slice()) {
        None => placeholder_addr_vec(),
        Some(v) => {
            let i = find_byte_in(&v, 60, 0);
            if i == v.len() {
                v
            } else {
                let j = find_byte_in(&v, 62, i + 1);
                if j == v.len() {
                    placeholder_addr_vec()
                } else {
                    copy_range(&v, i + 1, j)
                }
            }
        },
    };
    proof {
        assert(sender@ == sender_of(content@));
    }
    // Date.
    let mut dname: Vec<u8> = Vec::new();
    dname.push(100);
    dname.push(97);
    dname.push(116);
    dname.push(101);
    proof {
        assert(dname@ =~= date_name());
    }
    let date: Vec<u8> = match find_header_value(&lines, dname.as_slice()) {
        None => placeholder_date_vec(),
        Some(v) => match format_mbox_date(v.as_slice()) {
            None => placeholder_date_vec(),
            Some(d) => d,
        },
    };
    proof {
        assert(date@ == date_of(content@));
    }
    // Assemble.
    let mut r: Vec<u8> = Vec::new();
    r.push(70);
    r.push(114);
    r.push(111);
    r.push(109);
    r.push(32);
    push_all(&mut r, sender.as_slice());
    r.push(32);
    push_all(&mut r, date.as_slice());
    proof {
        assert(r@ =~~= envelope_line_of(content@));
    }
    r.push(10);
    push_all(&mut r, content);
    let n = content.len();
    if n >= 2 && content[n - 1] == 10 && content[n - 2] == 10 {
    } else if n >= 1 && content[n - 1] == 10 {
        r.push(10);
    } else {
        r.push(10);
        r.push(10);
    }
    proof {
        assert(r@ =~~= mbox_record_of(content@));
    }
    r
}

// ---------------------------------------------------------------------------
// The pipeline: sort the inputs by path, pack each readable one, count the
// rest as errors.
// ---------------------------------------------------------------------------

/// One discovered eml file: its path and its content, or nothing when the
/// file could not be read.
#[derive(Debug)]
pub struct EmlInput {
    pub path: Vec<u8>,
    pub content: Option<Vec<u8>>,
}

/// The outcome of packing: the archive bytes and the two counters of the
/// summary line.
#[derive(Debug)]
pub struct MboxReport {
    pub output: Vec<u8>,
    pub converted: usize,
    pub errors: usize,
}

pub open spec fn sorted_by_path(files: Seq<EmlInput>) -> bool {
    forall|i: int, j: int| 0 <= i < j < files.len() ==> lex_le(files[i].path@, files[j].path@)
}

/// How many inputs were readable.
pub open spec fn count_ok(files: Seq<EmlInput>) -> int
    decreases files.len(),
{
    if files.len() == 0 {
        0
    } else {
        (if files[0].content is Some {
            1int
        } else {
            0int
        }) + count_ok(files.drop_first())
    }
}

proof fn lemma_count_ok_remove(s: Seq<EmlInput>, i: int)
    requires
        0 <= i < s.len(),
    ensures
        count_ok(s) == count_ok(s.remove(i)) + (if s[i].content is Some {
            1int
        } else {
            0int
        }),
    decreases s.len(),
{
    if i == 0 {
        assert(s.remove(0) =~= s.drop_first());
    } else {
        lemma_count_ok_remove(s.drop_first(), i - 1);
        assert(s.remove(i).drop_first() =~= s.drop_first().remove(i - 1));
        assert(s.remove(i)[0] == s[0]);
        assert(s.drop_first()[i - 1] == s[i]);
    }
}

/// The count of readable inputs depends only on which inputs there are,
/// not on their order.
proof fn lemma_count_ok_permutation(a: Seq<EmlInput>, b: Seq<EmlInput>)
    requires
        a.to_multiset() == b.to_multiset(),
    ensures
        count_ok(a) == count_ok(b),
    decreases a.len(),
{
    broadcast use vstd::seq_lib::group_to_multiset_ensures;

    if a.len() == 0 {
        assert(b.to_multiset().len() == 0);
        assert(b.len() == 0);
    } else {
        let x = a.first();
        assert(a.contains(x));
        assert(b.to_multiset().count(x) > 0);
        assert(b.contains(x));
        let i = choose|i: int| 0 <= i < b.len() && b[i] == x;
        assert(a.remove(0).to_multiset() =~= a.to_multiset().remove(x));
        assert(b.remove(i).to_multiset() =~= b.to_multiset().remove(x));
        lemma_count_ok_permutation(a.remove(0), b.remove(i));
        lemma_count_ok_remove(a, 0);
        lemma_count_ok_remove(b, i);
    }
}

/// The archive built from the readable inputs, in order.
pub open spec fn pack_bytes(files: Seq<EmlInput>) -> Seq<u8>
    decreases files.len(),
{
    if files.len() == 0 {
        Seq::empty()
    } else {
        (match files[0].content {
            Option::Some(c) => mbox_record_of(c@),
            Option::None => Seq::empty(),
        }) + pack_bytes(files.drop_first())
    }
}

/// Sorts the inputs by path, byte-wise lexicographically.
#[verifier::loop_isolation(false)]
pub fn sort_by_path(files: Vec<EmlInput>) -> (r: Vec<EmlInput>)
    ensures
        r@.to_multiset() == files@.to_multiset(),
        sorted_by_path(r@),
        r@.len() == files@.len(),
{
    broadcast use vstd::seq_lib::group_to_multiset_ensures;

    let mut rest = files;
    let mut out: Vec<EmlInput> = Vec::new();
    while rest.len() > 0
        invariant
            out@.to_multiset().add(rest@.to_multiset()) == files@.to_multiset(),
            out@.len() + rest@.len() == files@.len(),
            sorted_by_path(out@),
            forall|i: int, j: int|
                0 <= i < out@.len() && 0 <= j < rest@.len() ==> lex_le(
                    out@[i].path@,
                    rest@[j].path@,
                ),
        decreases rest@.len(),
    {
        // Find the least remaining path.
        let mut m: usize = 0;
        let mut j: usize = 1;
        proof {
            lemma_lex_le_refl(rest@[0].path@);
        }
        while j < rest.len()
            invariant
                0 <= m < j <= rest@.len(),
                forall|k: int| 0 <= k < j ==> lex_le(rest@[m as int].path@, rest@[k].path@),
            decreases rest@.len() - j,
        {
            if crate::text::lex_le_bytes(&rest[j].path, &rest[m].path) {
                proof {
                    assert forall|k: int| 0 <= k < j + 1 implies lex_le(
                        rest@[j as int].path@,
                        rest@[k].path@,
                    ) by {
                        if k == j {
                            lemma_lex_le_refl(rest@[j as int].path@);
                        } else {
                            lemma_lex_le_trans(
                                rest@[j as int].path@,
                                rest@[m as int].path@,
                                rest@[k].path@,
                            );
                        }
                    }
                }
                m = j;
            } else {
                proof {
                    lemma_lex_le_total(rest@[j as int].path@, rest@[m as int].path@);
                }
            }
            j = j + 1;
        }
        let ghost old_out = out@;
        let ghost old_rest = rest@;
        let item = rest.remove(m);
        out.push(item);
        proof {
            assert(out@.to_multiset().add(rest@.to_multiset()) =~~= files@.to_multiset());
            assert forall|i: int, j2: int|
                0 <= i < out@.len() && 0 <= j2 < rest@.len() implies lex_le(
                out@[i].path@,
                rest@[j2].path@,
            ) by {
                let p = if j2 < m { j2 } else { j2 + 1 };
                assert(rest@[j2] == old_rest[p]);
                if i < old_out.len() {
                    assert(lex_le(old_out[i].path@, old_rest[p].path@));
                } else {
                    assert(out@[i] == old_rest[m as int]);
                    assert(lex_le(old_rest[m as int].path@, old_rest[p].path@));
                }
            }
            assert forall|i: int, j2: int| 0 <= i < j2 < out@.len() implies lex_le(
                out@[i].path@,
                out@[j2].path@,
            ) by {
                if j2 < out@.len() - 1 {
                    assert(lex_le(old_out[i].path@, old_out[j2].path@));
                } else {
                    assert(out@[j2] == old_rest[m as int]);
                }
            }
        }
    }
    out
}

/// The eml-to-mbox conversion command, as parsed from the command line.
pub struct ConvertToMboxCommand {
    pub input_directory: Vec<u8>,
    pub output_file: Vec<u8>,
    pub overwrite: bool,
}

impl ConvertToMboxCommand {
    /// The value of the first header field of `header_name` in a raw
    /// message, whitespace-trimmed; the name is matched case-insensitively.
    pub fn get_header_value(content: &[u8], header_name: &[u8]) -> (r: Option<Vec<u8>>)
        ensures
            opt_view(r) == header_value_of(content@, header_name@),
    {
        let lines = split_lines(content);
        find_header_value(&lines, header_name)
    }

    /// Packs the discovered eml files into one archive. Refuses to replace
    /// an existing output without the overwrite flag, and an empty input
    /// set; otherwise packs the readable files in path order and counts the
    /// unreadable ones as errors.
    pub fn run(&self, output_exists: bool, files: Vec<EmlInput>) -> (r: Result<
        MboxReport,
        SetupError,
    >)
        ensures
            (output_exists && !self.overwrite) ==> r == Result::<MboxReport, SetupError>::Err(
                SetupError::OutputFileExists,
            ),
            (!(output_exists && !self.overwrite) && files@.len() == 0) ==> r == Result::<
                MboxReport,
                SetupError,
            >::Err(SetupError::NoEmlFiles),
            (!(output_exists && !self.overwrite) && files@.len() > 0) ==> (r matches Ok(rep) && {
                &&& rep.converted as int == count_ok(files@)
                &&& rep.converted as int + rep.errors as int == files@.len()
                &&& exists|g: Seq<EmlInput>|
                    {
                        &&& g.to_multiset() == files@.to_multiset()
                        &&& sorted_by_path(g)
                        &&& rep.output@ == pack_bytes(g)
                    }
            }),
    {
        if output_exists && !self.overwrite {
            return Err(SetupError::OutputFileExists);
        }
        if files.len() == 0 {
            return Err(SetupError::NoEmlFiles);
        }
        let sorted = sort_by_path(files);
        let ghost g = sorted@;
        let mut output: Vec<u8> = Vec::new();
        let mut converted: usize = 0;
        let mut errors: usize = 0;
        let mut i: usize = 0;
        proof {
            assert(g.skip(0) =~= g);
        }
        #[verifier::loop_isolation(false)]
        while i < sorted.len()
            invariant
                0 <= i <= g.len(),
                converted as int + errors as int == i as int,
                pack_bytes(g) == output@ + pack_bytes(g.skip(i as int)),
                count_ok(g) == converted as int + count_ok(g.skip(i as int)),
            decreases g.len() - i,
        {
            proof {
                assert(g.skip(i as int)[0] == g[i as int]);
                assert(g.skip(i as int).drop_first() =~= g.skip(i + 1));
            }
            match &sorted[i].content {
                Some(c) => {
                    let ghost out0 = output@;
                    let rec = mbox_record(c.as_slice());
                    push_all(&mut output, rec.as_slice());
                    converted = converted + 1;
                    proof {
                        assert(output@ + pack_bytes(g.skip(i + 1)) =~= out0 + (rec@ + pack_bytes(
                        g.skip(i + 1))));
                    }
                },
                None => {
                    errors = errors + 1;
                },
            }
            i = i + 1;
        }
        proof {
            assert(pack_bytes(g.skip(g.len() as int)) =~= Seq::<u8>::empty());
            assert(output@ + Seq::<u8>::empty() =~= output@);
            lemma_count_ok_permutation(g, files@);
        }
        Ok(MboxReport { output, converted, errors })
    }
}

} // verus!
