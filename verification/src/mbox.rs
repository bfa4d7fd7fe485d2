use vstd::prelude::*;

use crate::headers::{find_header_value, header_value_in, opt_view};
use crate::outside::{sanitize_component, sanitized_of};
use crate::text::{lines_view, push_all};
use crate::SetupError;

verus! {

// ---------------------------------------------------------------------------
// Segmenting an mbox line stream into messages.
//
// A message starts after a line with the literal prefix `From ` (the mbox
// envelope line) and runs up to, but excluding, the next such line or the end
// of the stream. Lines before the first envelope line are discarded. A line
// that could not be read ends the stream: the segmenter reports it as one
// failed unit, discards any partially collected message, and yields nothing
// further.
// ---------------------------------------------------------------------------

/// One line handed to the segmenter: its bytes, or the mark of a read that
/// failed.
pub enum LineRead {
    Line(Vec<u8>),
    Failed,
}

/// The mathematical value of one input line.
pub enum LineV {
    Good(Seq<u8>),
    Bad,
}

/// Reported once for a line that could not be read.
#[derive(Clone, Copy, Debug, PartialEq, Eq, Structural)]
pub struct LineReadError;

pub open spec fn stream_view(s: Seq<LineRead>) -> Seq<LineV> {
    s.map_values(
        |lr: LineRead|
            match lr {
                LineRead::Line(v) => LineV::Good(v@),
                LineRead::Failed => LineV::Bad,
            },
    )
}

/// The boundary predicate: a line opens a new message when it starts with
/// the five bytes `From ` (no escaping of look-alike body lines is done).
pub open spec fn is_boundary(l: Seq<u8>) -> bool {
    l.len() >= 5 && l[0] == 70u8 && l[1] == 114u8 && l[2] == 111u8 && l[3] == 109u8 && l[4]
        == 32u8
}

/// Executable boundary test.
pub fn is_envelope_line(l: &Vec<u8>) -> (r: bool)
    ensures
        r == is_boundary(l@),
{
    l.len() >= 5 && l[0] == 70 && l[1] == 114 && l[2] == 111 && l[3] == 109 && l[4] == 32
}

/// Where the scan for the next envelope line stops: just past the first
/// boundary line at or after `pos`, or at the first unreadable line or the
/// end of the stream.
pub open spec fn skip_phase(s: Seq<LineV>, pos: int) -> int
    decreases s.len() - pos,
{
    if pos < 0 || pos >= s.len() {
        pos
    } else {
        match s[pos] {
            LineV::Good(l) => if is_boundary(l) {
                pos + 1
            } else {
                skip_phase(s, pos + 1)
            },
            LineV::Bad => pos,
        }
    }
}

/// How collecting one message from `pos` ends.
pub enum Collect {
    /// A full message, stopped by the boundary line at `at` (not consumed).
    Msg { data: Seq<Seq<u8>>, at: int },
    /// The stream ended; `data` is the partial message collected.
    End { data: Seq<Seq<u8>> },
    /// An unreadable line was hit and consumed; the scan stands at `at`.
    Fail { at: int },
}

pub open spec fn collect_phase(s: Seq<LineV>, pos: int) -> Collect
    decreases s.len() - pos,
{
    if pos < 0 || pos >= s.len() {
        Collect::End { data: Seq::empty() }
    } else {
        match s[pos] {
            LineV::Bad => Collect::Fail { at: pos + 1 },
            LineV::Good(l) => {
                if is_boundary(l) {
                    Collect::Msg { data: Seq::empty(), at: pos }
                } else {
                    match collect_phase(s, pos + 1) {
                        Collect::Msg { data, at } => Collect::Msg { data: seq![l] + data, at },
                        Collect::End { data } => Collect::End { data: seq![l] + data },
                        Collect::Fail { at } => Collect::Fail { at },
                    }
                }
            },
        }
    }
}

/// Collecting with `pre` already gathered.
pub open spec fn combine_collect(pre: Seq<Seq<u8>>, c: Collect) -> Collect {
    match c {
        Collect::Msg { data, at } => Collect::Msg { data: pre + data, at },
        Collect::End { data } => Collect::End { data: pre + data },
        Collect::Fail { at } => Collect::Fail { at },
    }
}

/// What one `next_message` call does from a given position: its result and
/// the position and finished flag it leaves behind.
pub struct StepR {
    pub r: Option<Result<Seq<Seq<u8>>, ()>>,
    pub at: int,
    pub finished: bool,
}

pub open spec fn step(s: Seq<LineV>, pos: int) -> StepR {
    let p = skip_phase(s, pos);
    match collect_phase(s, p) {
        Collect::Msg { data, at } => StepR { r: Option::Some(Result::Ok(data)), at, finished: false },
        Collect::End { data } => StepR {
            r: if data.len() > 0 {
                Option::Some(Result::Ok(data))
            } else {
                Option::None
            },
            at: s.len() as int,
            finished: true,
        },
        Collect::Fail { at } => StepR { r: Option::Some(Result::Err(())), at, finished: true },
    }
}

pub proof fn lemma_skip_phase_bounds(s: Seq<LineV>, pos: int)
    requires
        0 <= pos,
    ensures
        pos <= skip_phase(s, pos),
        pos <= s.len() ==> skip_phase(s, pos) <= s.len(),
        skip_phase(s, pos) == pos ==> (pos >= s.len() || s[pos] is Bad),
    decreases s.len() - pos,
{
    if pos < s.len() {
        match s[pos] {
            LineV::Good(l) => {
                if !is_boundary(l) {
                    lemma_skip_phase_bounds(s, pos + 1);
                }
            },
            LineV::Bad => {},
        }
    }
}

pub proof fn lemma_collect_bounds(s: Seq<LineV>, pos: int)
    requires
        0 <= pos,
    ensures
        collect_phase(s, pos) matches Collect::Msg { data, at } ==> (pos <= at < s.len() && (
        s[at] matches LineV::Good(l) && is_boundary(l))),
        collect_phase(s, pos) matches Collect::Fail { at } ==> pos < at <= s.len(),
    decreases s.len() - pos,
{
    if 0 <= pos < s.len() {
        match s[pos] {
            LineV::Bad => {},
            LineV::Good(l) => {
                if !is_boundary(l) {
                    lemma_collect_bounds(s, pos + 1);
                }
            },
        }
    }
}

/// The sequence of results that repeated `next_message` calls will yield
/// from a given segmenter state.
pub open spec fn results_from(s: Seq<LineV>, pos: int, finished: bool) -> Seq<
    Result<Seq<Seq<u8>>, ()>,
>
    decreases (if finished {
        0int
    } else {
        s.len() - pos + 2
    }) via results_from_decreases
{
    if finished || pos < 0 {
        Seq::empty()
    } else {
        let st = step(s, pos);
        match st.r {
            Option::None => Seq::empty(),
            Option::Some(x) => seq![x] + results_from(s, st.at, st.finished),
        }
    }
}

#[via_fn]
proof fn results_from_decreases(s: Seq<LineV>, pos: int, finished: bool) {
    if !finished && pos >= 0 {
        lemma_skip_phase_bounds(s, pos);
        let p = skip_phase(s, pos);
        lemma_collect_bounds(s, p);
        match collect_phase(s, p) {
            Collect::Msg { data, at } => {
                assert(p != pos);
                assert(at > pos);
            },
            Collect::End { data } => {
                if data.len() > 0 {
                    assert(pos <= s.len());
                }
            },
            Collect::Fail { at } => {},
        }
    }
}

/// The full yield of a fresh segmenter over a stream.
pub open spec fn segment(s: Seq<LineV>) -> Seq<Result<Seq<Seq<u8>>, ()>> {
    results_from(s, 0, false)
}

// ---------------------------------------------------------------------------
// The segmenter itself: a forward-only cursor over the lines already read.
// ---------------------------------------------------------------------------

pub struct MboxParser {
    pub lines: Vec<LineRead>,
    pub pos: usize,
    pub finished: bool,
}

/// The view of a result returned by `next_message`.
pub open spec fn result_view(r: Option<Result<Vec<Vec<u8>>, LineReadError>>) -> Option<
    Result<Seq<Seq<u8>>, ()>,
> {
    match r {
        Option::None => Option::None,
        Option::Some(Result::Ok(v)) => Option::Some(Result::Ok(lines_view(v@))),
        Option::Some(Result::Err(_)) => Option::Some(Result::Err(())),
    }
}

/// Copies a byte line.
#[verifier::loop_isolation(false)]
fn copy_bytes(v: &Vec<u8>) -> (r: Vec<u8>)
    ensures
        r@ == v@,
{
    let mut r: Vec<u8> = Vec::new();
    let mut i: usize = 0;
    while i < v.len()
        invariant
            0 <= i <= v@.len(),
            r@ =~~= v@.take(i as int),
        decreases v@.len() - i,
    {
        r.push(v[i]);
        proof {
            assert(v@.take(i + 1) =~= v@.take(i as int).push(v@[i as int]));
        }
        i = i + 1;
    }
    proof {
        assert(v@.take(v@.len() as int) =~= v@);
    }
    r
}

impl MboxParser {
    pub open spec fn stream(self) -> Seq<LineV> {
        stream_view(self.lines@)
    }

    /// A fresh segmenter over the given lines.
    pub fn new(lines: Vec<LineRead>) -> (r: MboxParser)
        ensures
            r.lines@ == lines@,
            r.pos == 0,
            !r.finished,
    {
        MboxParser { lines, pos: 0, finished: false }
    }

    /// Yields the next message: the lines strictly between the next envelope
    /// line and the one after it (or the end of the stream), an error for an
    /// unreadable line, or nothing once the stream is exhausted.
    #[verifier::loop_isolation(false)]
    pub fn next_message(&mut self) -> (r: Option<Result<Vec<Vec<u8>>, LineReadError>>)
        ensures
            final(self).lines@ == old(self).lines@,
            old(self).finished ==> r is None && final(self).pos == old(self).pos
                && final(self).finished,
            !old(self).finished ==> {
                let st = step(old(self).stream(), old(self).pos as int);
                &&& final(self).pos as int == st.at
                &&& final(self).finished == st.finished
                &&& result_view(r) == st.r
            },
    {
        if self.finished {
            return None;
        }
        let ghost s = self.stream();
        let ghost start0 = self.pos as int;
        let n = self.lines.len();
        proof {
            assert(s.len() == n as int);
        }
        if self.pos >= n {
            self.pos = n;
            self.finished = true;
            return None;
        }
        // Scan to just past the next envelope line.
        let mut scanning = true;
        while scanning
            invariant
                self.lines@ == old(self).lines@,
                !self.finished,
                self.pos as int <= s.len(),
                scanning ==> skip_phase(s, start0) == skip_phase(s, self.pos as int),
                !scanning ==> self.pos as int == skip_phase(s, start0),
            decreases s.len() - self.pos as int + (if scanning {
                1int
            } else {
                0int
            }),
        {
            if self.pos >= n {
                scanning = false;
            } else {
                proof {
                    assert(s[self.pos as int] == (match self.lines@[self.pos as int] {
                        LineRead::Line(v) => LineV::Good(v@),
                        LineRead::Failed => LineV::Bad,
                    }));
                }
                let mut advance = false;
                match &self.lines[self.pos] {
                    LineRead::Failed => {
                        scanning = false;
                    },
                    LineRead::Line(l) => {
                        if is_envelope_line(l) {
                            advance = true;
                            scanning = false;
                        } else {
                            advance = true;
                        }
                    },
                }
                if advance {
                    self.pos = self.pos + 1;
                }
            }
        }
        let ghost mstart = self.pos as int;
        let mut data: Vec<Vec<u8>> = Vec::new();
        proof {
            let c = collect_phase(s, mstart);
            match c {
                Collect::Msg { data: d, at } => {
                    assert(Seq::<Seq<u8>>::empty() + d =~= d);
                },
                Collect::End { data: d } => {
                    assert(Seq::<Seq<u8>>::empty() + d =~= d);
                },
                Collect::Fail { at } => {},
            }
            assert(lines_view(data@) =~= Seq::<Seq<u8>>::empty());
        }
        // Collect the message's lines up to the next envelope line.
        let mut at_end = false;
        while !at_end
            invariant
                self.lines@ == old(self).lines@,
                !self.finished,
                self.pos as int <= s.len(),
                !at_end ==> collect_phase(s, mstart) == combine_collect(
                    lines_view(data@),
                    collect_phase(s, self.pos as int),
                ),
                at_end ==> collect_phase(s, mstart) == (Collect::End { data: lines_view(data@) }),
            decreases s.len() - self.pos as int + (if at_end {
                0int
            } else {
                1int
            }),
        {
            if self.pos >= n {
                proof {
                    assert(collect_phase(s, self.pos as int) == (Collect::End {
                        data: Seq::<Seq<u8>>::empty(),
                    }));
                    assert(lines_view(data@) + Seq::<Seq<u8>>::empty() =~= lines_view(data@));
                }
                at_end = true;
            } else {
                proof {
                    assert(s[self.pos as int] == (match self.lines@[self.pos as int] {
                        LineRead::Line(v) => LineV::Good(v@),
                        LineRead::Failed => LineV::Bad,
                    }));
                }
                let mut keep: Option<Vec<u8>> = None;
                match &self.lines[self.pos] {
                    LineRead::Failed => {
                        self.pos = self.pos + 1;
                        self.finished = true;
                        return Some(Err(LineReadError));
                    },
                    LineRead::Line(l) => {
                        if is_envelope_line(l) {
                            proof {
                                let dv = lines_view(data@);
                                assert(dv + Seq::<Seq<u8>>::empty() =~= dv);
                            }
                            return Some(Ok(data));
                        }
                        keep = Some(copy_bytes(l));
                    },
                }
                let line = match keep {
                    Some(v) => v,
                    None => Vec::new(),
                };
                proof {
                    let lv = s[self.pos as int]->Good_0;
                    assert(line@ == lv);
                    match collect_phase(s, self.pos as int + 1) {
                        Collect::Msg { data: d, at } => {
                            assert(lines_view(data@.push(line)) =~= lines_view(data@).push(
                            line@));
                            assert(lines_view(data@) + (seq![lv] + d) =~= lines_view(
                            data@).push(line@) + d);
                        },
                        Collect::End { data: d } => {
                            assert(lines_view(data@.push(line)) =~= lines_view(data@).push(
                            line@));
                            assert(lines_view(data@) + (seq![lv] + d) =~= lines_view(
                            data@).push(line@) + d);
                        },
                        Collect::Fail { at } => {},
                    }
                }
                data.push(line);
                self.pos = self.pos + 1;
            }
        }
        self.finished = true;
        self.pos = n;
        if data.len() > 0 {
            Some(Ok(data))
        } else {
            None
        }
    }
}

// ---------------------------------------------------------------------------
// The mbox-to-eml pipeline: segment the archive, name each message by a
// zero-padded index and its sanitized subject, isolate per-unit failures.
// ---------------------------------------------------------------------------

/// The header name `subject`.
pub open spec fn subject_name() -> Seq<u8> {
    seq![115u8, 117u8, 98u8, 106u8, 101u8, 99u8, 116u8]
}

/// The sanitized subject of a message, or nothing when the header is
/// missing or its value empty.
pub open spec fn subject_of(lines: Seq<Seq<u8>>) -> Option<Seq<u8>> {
    match header_value_in(lines, subject_name()) {
        Option::None => Option::None,
        Option::Some(v) => if v.len() == 0 {
            Option::None
        } else {
            Option::Some(sanitized_of(v))
        },
    }
}

/// The decimal digits of `n`.
pub open spec fn dec_rep(n: int) -> Seq<u8>
    decreases n,
{
    if n < 10 {
        seq![(48 + n) as u8]
    } else {
        dec_rep(n / 10).push((48 + n % 10) as u8)
    }
}

/// The decimal digits of `n`, zero-padded to at least four.
pub open spec fn padded4(n: int) -> Seq<u8> {
    let d = dec_rep(n);
    if d.len() >= 4 {
        d
    } else {
        Seq::new((4 - d.len()) as nat, |i: int| 48u8) + d
    }
}

/// The output file name for message number `idx`: `NNNN_subject.eml`, or
/// `NNNN.eml` without a usable subject.
pub open spec fn name_with(idx: int, subj: Option<Seq<u8>>) -> Seq<u8> {
    padded4(idx) + (match subj {
        Option::None => Seq::<u8>::empty(),
        Option::Some(s) => seq![95u8] + s,
    }) + seq![46u8, 101u8, 109u8, 108u8]
}

/// One planned output file.
pub struct FileV {
    pub name: Seq<u8>,
    pub lines: Seq<Seq<u8>>,
}

/// The files planned for a sequence of segmenter results, numbering the
/// messages from `idx` in the order they are produced; failed units yield
/// no file and no number.
pub open spec fn plan_from(results: Seq<Result<Seq<Seq<u8>>, ()>>, idx: int) -> Seq<FileV>
    decreases results.len(),
{
    if results.len() == 0 {
        Seq::empty()
    } else {
        match results[0] {
            Result::Ok(m) => seq![FileV { name: name_with(idx, subject_of(m)), lines: m }]
                + plan_from(results.drop_first(), idx + 1),
            Result::Err(_) => plan_from(results.drop_first(), idx),
        }
    }
}

/// How many of the results are failed units.
pub open spec fn err_count(results: Seq<Result<Seq<Seq<u8>>, ()>>) -> int
    decreases results.len(),
{
    if results.len() == 0 {
        0
    } else {
        (if results[0] is Err {
            1int
        } else {
            0int
        }) + err_count(results.drop_first())
    }
}

/// One extracted message, ready to be written.
#[derive(Debug)]
pub struct EmlFile {
    pub name: Vec<u8>,
    pub lines: Vec<Vec<u8>>,
}

pub open spec fn files_view(v: Seq<EmlFile>) -> Seq<FileV> {
    v.map_values(|f: EmlFile| FileV { name: f.name@, lines: lines_view(f.lines@) })
}

/// The outcome of extraction: the planned files and the count of failed
/// units.
#[derive(Debug)]
pub struct EmlReport {
    pub files: Vec<EmlFile>,
    pub read_errors: usize,
}

/// Executable decimal digits.
fn dec_digits(n: usize) -> (r: Vec<u8>)
    ensures
        r@ == dec_rep(n as int),
    decreases n,
{
    if n < 10 {
        let mut r: Vec<u8> = Vec::new();
        r.push(48 + n as u8);
        proof {
            assert(r@ =~= dec_rep(n as int));
        }
        r
    } else {
        let mut r = dec_digits(n / 10);
        r.push(48 + (n % 10) as u8);
        proof {
            assert(r@ =~= dec_rep(n as int));
        }
        r
    }
}

/// Builds the output file name for one message.
#[verifier::loop_isolation(false)]
fn file_name_for(idx: usize, subject: &Option<Vec<u8>>) -> (r: Vec<u8>)
    ensures
        r@ == name_with(idx as int, opt_view(*subject)),
{
    let digits = dec_digits(idx);
    let mut r: Vec<u8> = Vec::new();
    let mut k: usize = digits.len();
    proof {
        assert(r@ =~= Seq::new((k - digits@.len()) as nat, |i: int| 48u8));
    }
    while k < 4
        invariant
            digits@.len() <= k,
            k <= 4 || k == digits@.len(),
            r@ =~~= Seq::new((k - digits@.len()) as nat, |i: int| 48u8),
        decreases 4 - k,
    {
        r.push(48);
        k = k + 1;
        proof {
            assert(Seq::new((k - digits@.len()) as nat, |i: int| 48u8) =~= Seq::new(
                ((k - 1) - digits@.len()) as nat,
                |i: int| 48u8,
            ).push(48u8));
        }
    }
    push_all(&mut r, digits.as_slice());
    proof {
        assert(r@ =~~= padded4(idx as int));
    }
    match subject {
        None => {},
        Some(s) => {
            r.push(95);
            push_all(&mut r, s.as_slice());
        },
    }
    r.push(46);
    r.push(101);
    r.push(109);
    r.push(108);
    proof {
        assert(r@ =~~= name_with(idx as int, opt_view(*subject)));
    }
    r
}

/// The mbox-to-eml conversion command, as parsed from the command line.
pub struct ConvertToEmlCommand {
    pub input_file: Vec<u8>,
    pub output_directory: Vec<u8>,
    pub overwrite: bool,
}

impl ConvertToEmlCommand {
    /// The sanitized subject of a message's lines, if one is present and
    /// non-empty.
    pub fn extract_subject(content: &Vec<Vec<u8>>) -> (r: Option<Vec<u8>>)
        ensures
            opt_view(r) == subject_of(lines_view(content@)),
    {
        let mut sname: Vec<u8> = Vec::new();
        sname.push(115);
        sname.push(117);
        sname.push(98);
        sname.push(106);
        sname.push(101);
        sname.push(99);
        sname.push(116);
        proof {
            assert(sname@ =~= subject_name());
        }
        match find_header_value(content, sname.as_slice()) {
            None => None,
            Some(v) => {
                if v.len() == 0 {
                    None
                } else {
                    Some(sanitize_component(v.as_slice()))
                }
            },
        }
    }

    /// Extracts every message of the archive. Refuses a missing input file
    /// and an existing output directory without the overwrite flag;
    /// otherwise plans one output file per segmented message, numbered in
    /// order, and counts each failed unit.
    #[verifier::loop_isolation(false)]
    pub fn run(&self, input_exists: bool, output_dir_exists: bool, lines: Vec<LineRead>) -> (r:
        Result<EmlReport, SetupError>)
        ensures
            !input_exists ==> r == Result::<EmlReport, SetupError>::Err(
                SetupError::InputFileMissing,
            ),
            (input_exists && output_dir_exists && !self.overwrite) ==> r == Result::<
                EmlReport,
                SetupError,
            >::Err(SetupError::OutputDirectoryExists),
            (input_exists && !(output_dir_exists && !self.overwrite)) ==> (r matches Ok(rep) && {
                let res = segment(stream_view(lines@));
                &&& files_view(rep.files@) == plan_from(res, 0)
                &&& rep.read_errors as int == err_count(res)
            }),
    {
        if !input_exists {
            return Err(SetupError::InputFileMissing);
        }
        if output_dir_exists && !self.overwrite {
            return Err(SetupError::OutputDirectoryExists);
        }
        let ghost s = stream_view(lines@);
        let mut parser = MboxParser::new(lines);
        let mut files: Vec<EmlFile> = Vec::new();
        let mut read_errors: usize = 0;
        let mut done = false;
        proof {
            assert(files_view(files@) =~= Seq::<FileV>::empty());
            assert(files_view(files@) + plan_from(results_from(s, 0, false), 0) =~= plan_from(
                segment(s),
                0,
            ));
        }
        while !done
            invariant
                parser.stream() == s,
                parser.pos as int <= s.len(),
                files@.len() + read_errors as int <= parser.pos as int,
                !done ==> plan_from(segment(s), 0) == files_view(files@) + plan_from(
                    results_from(s, parser.pos as int, parser.finished),
                    files@.len() as int,
                ),
                !done ==> err_count(segment(s)) == read_errors as int + err_count(
                    results_from(s, parser.pos as int, parser.finished),
                ),
                done ==> plan_from(segment(s), 0) == files_view(files@),
                done ==> err_count(segment(s)) == read_errors as int,
            decreases (if done {
                0int
            } else {
                results_from(s, parser.pos as int, parser.finished).len() as int + 1
            }),
        {
            let ghost pos0 = parser.pos as int;
            let ghost fin0 = parser.finished;
            let ghost rem0 = results_from(s, pos0, fin0);
            let ghost nf = files@.len() as int;
            proof {
                if !fin0 {
                    lemma_skip_phase_bounds(s, pos0);
                    lemma_collect_bounds(s, skip_phase(s, pos0));
                }
            }
            let res = parser.next_message();
            match res {
                None => {
                    proof {
                        assert(rem0 =~= Seq::<Result<Seq<Seq<u8>>, ()>>::empty());
                        assert(files_view(files@) + plan_from(rem0, nf) =~= files_view(files@));
                    }
                    done = true;
                },
                Some(Ok(msgs)) => {
                    proof {
                        let st = step(s, pos0);
                        assert(rem0 == seq![st.r->Some_0] + results_from(s, st.at, st.finished));
                        assert(rem0.drop_first() =~= results_from(s, st.at, st.finished));
                        assert(rem0[0] == Result::<Seq<Seq<u8>>, ()>::Ok(lines_view(msgs@)));
                    }
                    let subject = Self::extract_subject(&msgs);
                    let name = file_name_for(files.len(), &subject);
                    let ghost fv0 = files_view(files@);
                    let f = EmlFile { name, lines: msgs };
                    proof {
                        let fvnew = FileV {
                            name: name_with(nf, subject_of(rem0[0]->Ok_0)),
                            lines: rem0[0]->Ok_0,
                        };
                        assert(files_view(files@.push(f)) =~= fv0.push(fvnew));
                        assert(fv0 + (seq![fvnew] + plan_from(rem0.drop_first(), nf + 1)) =~= (
                        fv0.push(fvnew)) + plan_from(rem0.drop_first(), nf + 1));
                    }
                    files.push(f);
                },
                Some(Err(_)) => {
                    proof {
                        let st = step(s, pos0);
                        assert(rem0 == seq![st.r->Some_0] + results_from(s, st.at, st.finished));
                        assert(rem0.drop_first() =~= results_from(s, st.at, st.finished));
                        assert(rem0[0] is Err);
                    }
                    read_errors = read_errors + 1;
                },
            }
        }
        Ok(EmlReport { files, read_errors })
    }
}

// ---------------------------------------------------------------------------
// The yield count of the segmenter on a fully readable stream.
// ---------------------------------------------------------------------------

/// Whether a stream line is a readable envelope line.
pub open spec fn line_is_boundary(lv: LineV) -> bool {
    lv matches LineV::Good(l) && is_boundary(l)
}

/// A stream in which every line was read.
pub open spec fn all_good(s: Seq<LineV>) -> bool {
    forall|i: int| 0 <= i < s.len() ==> !(#[trigger] s[i] is Bad)
}

/// The number of envelope lines at or after `pos`.
pub open spec fn boundary_count_from(s: Seq<LineV>, pos: int) -> int
    decreases s.len() - pos,
{
    if pos < 0 || pos >= s.len() {
        0
    } else {
        (if line_is_boundary(s[pos]) {
            1int
        } else {
            0int
        }) + boundary_count_from(s, pos + 1)
    }
}

/// The number of envelope lines in the stream.
pub open spec fn boundary_count(s: Seq<LineV>) -> int {
    boundary_count_from(s, 0)
}

proof fn lemma_bc_zero(s: Seq<LineV>, pos: int)
    requires
        0 <= pos,
        boundary_count_from(s, pos) == 0,
    ensures
        forall|j: int| pos <= j < s.len() ==> !line_is_boundary(#[trigger] s[j]),
    decreases s.len() - pos,
{
    if pos < s.len() {
        assert(boundary_count_from(s, pos + 1) >= 0) by {
            lemma_bc_nonneg(s, pos + 1);
        }
        lemma_bc_zero(s, pos + 1);
    }
}

proof fn lemma_bc_nonneg(s: Seq<LineV>, pos: int)
    ensures
        boundary_count_from(s, pos) >= 0,
    decreases s.len() - pos,
{
    if 0 <= pos < s.len() {
        lemma_bc_nonneg(s, pos + 1);
    }
}

proof fn lemma_skip_phase_good(s: Seq<LineV>, pos: int)
    requires
        all_good(s),
        0 <= pos <= s.len(),
    ensures
        pos <= skip_phase(s, pos) <= s.len(),
        (skip_phase(s, pos) == s.len() && boundary_count_from(s, pos) == 0) || (skip_phase(s, pos)
            > pos && line_is_boundary(s[skip_phase(s, pos) - 1]) && boundary_count_from(s, pos) == 1
            + boundary_count_from(s, skip_phase(s, pos))),
    decreases s.len() - pos,
{
    if pos == s.len() {
    } else {
        match s[pos] {
            LineV::Good(l) => {
                if !is_boundary(l) {
                    lemma_skip_phase_good(s, pos + 1);
                }
            },
            LineV::Bad => {
                assert(false);
            },
        }
    }
}

proof fn lemma_collect_good(s: Seq<LineV>, pos: int)
    requires
        all_good(s),
        0 <= pos <= s.len(),
    ensures
        collect_phase(s, pos) matches Collect::Msg { data, at } ==> (pos <= at < s.len()
            && line_is_boundary(s[at]) && boundary_count_from(s, pos) == boundary_count_from(
            s,
            at,
        ) && data.len() == at - pos),
        collect_phase(s, pos) matches Collect::End { data } ==> (boundary_count_from(s, pos) == 0
            && data.len() == s.len() - pos),
        !(collect_phase(s, pos) is Fail),
    decreases s.len() - pos,
{
    if pos == s.len() {
    } else {
        match s[pos] {
            LineV::Good(l) => {
                if !is_boundary(l) {
                    lemma_collect_good(s, pos + 1);
                }
            },
            LineV::Bad => {
                assert(false);
            },
        }
    }
}

proof fn lemma_results_count_from(s: Seq<LineV>, pos: int)
    requires
        all_good(s),
        0 <= pos <= s.len(),
    ensures
        boundary_count_from(s, pos) == 0 ==> results_from(s, pos, false).len() == 0,
        boundary_count_from(s, pos) > 0 ==> results_from(s, pos, false).len()
            == boundary_count_from(s, pos) - (if line_is_boundary(s.last()) {
            1int
        } else {
            0int
        }),
        forall|k: int|
            0 <= k < results_from(s, pos, false).len() ==> results_from(s, pos, false)[k] is Ok,
    decreases s.len() - pos,
{
    let n = boundary_count_from(s, pos);
    let p = skip_phase(s, pos);
    lemma_skip_phase_good(s, pos);
    lemma_collect_good(s, p);
    lemma_bc_nonneg(s, p);
    let st = step(s, pos);
    match collect_phase(s, p) {
        Collect::End { data } => {
            if p == s.len() && boundary_count_from(s, pos) == 0 {
                assert(data.len() == 0);
                assert(results_from(s, pos, false) =~= Seq::<Result<Seq<Seq<u8>>, ()>>::empty());
            } else {
                assert(boundary_count_from(s, p) == 0);
                assert(n == 1);
                if p == s.len() {
                    assert(data.len() == 0);
                    assert(line_is_boundary(s[s.len() - 1]));
                    assert(results_from(s, pos, false) =~= Seq::<
                        Result<Seq<Seq<u8>>, ()>,
                    >::empty());
                } else {
                    assert(data.len() > 0);
                    lemma_bc_zero(s, p);
                    assert(!line_is_boundary(s[s.len() - 1]));
                    assert(results_from(s, st.at, st.finished) =~= Seq::<
                        Result<Seq<Seq<u8>>, ()>,
                    >::empty());
                    assert(results_from(s, pos, false) =~= seq![st.r->Some_0]);
                }
            }
        },
        Collect::Msg { data, at } => {
            assert(p > pos || (p == s.len() && n == 0));
            assert(st.at == at && !st.finished);
            lemma_bc_nonneg(s, at + 1);
            assert(boundary_count_from(s, at) == 1 + boundary_count_from(s, at + 1));
            assert(boundary_count_from(s, at) >= 1);
            assert(n == 1 + boundary_count_from(s, at));
            lemma_results_count_from(s, at);
            let rest = results_from(s, at, false);
            assert(results_from(s, pos, false) == seq![st.r->Some_0] + rest);
            if boundary_count_from(s, at) > 0 {
                assert(rest.len() == boundary_count_from(s, at) - (if line_is_boundary(
                    s.last(),
                ) {
                    1int
                } else {
                    0int
                }));
            }
            assert forall|k: int| 0 <= k < results_from(s, pos, false).len() implies results_from(
                s,
                pos,
                false,
            )[k] is Ok by {
                if k > 0 {
                    assert(results_from(s, pos, false)[k] == rest[k - 1]);
                }
            }
        },
        Collect::Fail { at } => {
            assert(false);
        },
    }
}

/// On a fully readable stream with `N` envelope lines the segmenter yields
/// exactly `N` messages, or `N - 1` when the stream ends in an envelope
/// line (the empty final message is discarded); every yielded unit
/// succeeds.
pub proof fn lemma_segmenter_yield_count(s: Seq<LineV>)
    requires
        all_good(s),
    ensures
        boundary_count(s) == 0 ==> segment(s).len() == 0,
        boundary_count(s) > 0 ==> segment(s).len() == boundary_count(s) - (if line_is_boundary(
            s.last(),
        ) {
            1int
        } else {
            0int
        }),
        forall|k: int| 0 <= k < segment(s).len() ==> segment(s)[k] is Ok,
{
    lemma_results_count_from(s, 0);
}

} // verus!
