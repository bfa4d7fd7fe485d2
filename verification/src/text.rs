use vstd::prelude::*;

verus! {

// ---------------------------------------------------------------------------
// Byte-level text primitives shared by both conversion directions: splitting
// a byte blob into lines, ASCII case folding, whitespace trimming, and a
// lexicographic order on byte strings.
// ---------------------------------------------------------------------------

/// The views of a vector of byte lines.
pub open spec fn lines_view(v: Seq<Vec<u8>>) -> Seq<Seq<u8>> {
    v.map_values(|x: Vec<u8>| x@)
}

/// ASCII whitespace, the bytes that trimming removes from line ends.
pub open spec fn is_space_b(b: u8) -> bool {
    b == 32 || (9 <= b && b <= 13)
}

/// ASCII lower-casing of one byte.
pub open spec fn to_lower_b(b: u8) -> u8 {
    if 65 <= b && b <= 90 {
        (b + 32) as u8
    } else {
        b
    }
}

/// Executable ASCII lower-casing.
pub fn lower_byte(b: u8) -> (r: u8)
    ensures
        r == to_lower_b(b),
{
    if 65 <= b && b <= 90 {
        b + 32
    } else {
        b
    }
}

pub open spec fn no_nl(l: Seq<u8>) -> bool {
    forall|j: int| 0 <= j < l.len() ==> l[j] != 10u8
}

/// The lines of a byte string: segments between newline bytes, a trailing
/// newline closing the last line rather than opening an empty one.
pub open spec fn split_nl(s: Seq<u8>) -> Seq<Seq<u8>>
    decreases s.len(),
{
    if s.len() == 0 {
        Seq::empty()
    } else if s[0] == 10u8 {
        seq![Seq::<u8>::empty()] + split_nl(s.drop_first())
    } else {
        let rest = split_nl(s.drop_first());
        if rest.len() == 0 {
            seq![s]
        } else {
            seq![seq![s[0]] + rest[0]] + rest.drop_first()
        }
    }
}

pub proof fn lemma_split_nl_nonempty(s: Seq<u8>)
    requires
        s.len() > 0,
    ensures
        split_nl(s).len() > 0,
{
}

/// A byte string without newlines splits into itself as the single line.
pub proof fn lemma_split_nl_whole(s: Seq<u8>)
    requires
        s.len() > 0,
        no_nl(s),
    ensures
        split_nl(s) =~~= seq![s],
    decreases s.len(),
{
    if s.len() == 1 {
        assert(s.drop_first().len() == 0);
        assert(split_nl(s.drop_first()) =~= Seq::<Seq<u8>>::empty());
    } else {
        lemma_split_nl_whole(s.drop_first());
        assert(seq![s[0]] + s.drop_first() =~= s);
    }
}

/// A newline-free prefix closed by a newline is the first line; the rest of
/// the string splits on its own.
pub proof fn lemma_split_nl_line(s: Seq<u8>, t: Seq<u8>)
    requires
        no_nl(s),
    ensures
        split_nl(s + seq![10u8] + t) =~~= seq![s] + split_nl(t),
    decreases s.len(),
{
    let u = s + seq![10u8] + t;
    if s.len() == 0 {
        assert(u =~= seq![10u8] + t);
        assert(u[0] == 10u8);
        assert(u.drop_first() =~= t);
    } else {
        assert(u[0] == s[0]);
        assert(u[0] != 10u8);
        assert(u.drop_first() =~= s.drop_first() + seq![10u8] + t);
        lemma_split_nl_line(s.drop_first(), t);
        let rest = split_nl(u.drop_first());
        assert(rest =~~= seq![s.drop_first()] + split_nl(t));
        assert(rest.len() > 0);
        assert(rest[0] == s.drop_first());
        assert(seq![u[0]] + rest[0] =~= s);
        assert(rest.drop_first() =~= split_nl(t));
    }
}

/// Splitting distributes over concatenation when the first part ends in a
/// newline.
pub proof fn lemma_split_nl_concat(a: Seq<u8>, b: Seq<u8>)
    requires
        a.len() > 0,
        a.last() == 10u8,
    ensures
        split_nl(a + b) =~~= split_nl(a) + split_nl(b),
    decreases a.len(),
{
    let u = a + b;
    if a.len() == 1 {
        assert(u[0] == 10u8);
        assert(u.drop_first() =~= b);
        assert(a.drop_first() =~= Seq::<u8>::empty());
    } else {
        assert(a.drop_first().len() > 0);
        assert(a.drop_first().last() == 10u8);
        lemma_split_nl_concat(a.drop_first(), b);
        assert(u.drop_first() =~= a.drop_first() + b);
        if u[0] == 10u8 {
            assert(a[0] == 10u8);
        } else {
            let rest = split_nl(u.drop_first());
            let ra = split_nl(a.drop_first());
            assert(rest =~~= ra + split_nl(b));
            lemma_split_nl_nonempty(a.drop_first());
            assert(ra.len() > 0);
            assert(rest[0] == ra[0]);
            assert(rest.drop_first() =~= ra.drop_first() + split_nl(b));
            assert(seq![seq![u[0]] + rest[0]] + (ra.drop_first() + split_nl(b)) =~~= (
            seq![seq![a[0]] + ra[0]] + ra.drop_first()) + split_nl(b));
        }
    }
}

/// No line produced by splitting contains a newline byte.
pub proof fn lemma_split_nl_elements(s: Seq<u8>)
    ensures
        forall|k: int| 0 <= k < split_nl(s).len() ==> no_nl(#[trigger] split_nl(s)[k]),
    decreases s.len(),
{
    if s.len() > 0 {
        lemma_split_nl_elements(s.drop_first());
    }
    assert forall|k: int| 0 <= k < split_nl(s).len() implies no_nl(#[trigger] split_nl(s)[k]) by {
        let rest = split_nl(s.drop_first());
        if s.len() == 0 {
        } else if s[0] == 10u8 {
            if k == 0 {
                assert(no_nl(Seq::<u8>::empty()));
            } else {
                assert(split_nl(s)[k] == rest[k - 1]);
                assert(no_nl(rest[k - 1]));
            }
        } else if rest.len() == 0 {
            if s.drop_first().len() > 0 {
                lemma_split_nl_nonempty(s.drop_first());
            }
            assert(s.len() == 1);
            assert(no_nl(s));
        } else {
            if k == 0 {
                assert(no_nl(rest[0]));
                let e = seq![s[0]] + rest[0];
                assert(split_nl(s)[0] == e);
                assert forall|j: int| 0 <= j < e.len() implies e[j] != 10u8 by {
                    if j > 0 {
                        assert(e[j] == rest[0][j - 1]);
                    }
                }
            } else {
                assert(split_nl(s)[k] == rest.drop_first()[k - 1]);
                assert(rest.drop_first()[k - 1] == rest[k]);
                assert(no_nl(rest[k]));
            }
        }
    }
}

/// Splits a byte blob into its lines.
#[verifier::loop_isolation(false)]
pub fn split_lines(content: &[u8]) -> (r: Vec<Vec<u8>>)
    ensures
        lines_view(r@) =~~= split_nl(content@),
{
    let mut r: Vec<Vec<u8>> = Vec::new();
    let mut cur: Vec<u8> = Vec::new();
    let mut i: usize = 0;
    proof {
        assert(cur@ + content@.skip(0) =~= content@);
        assert(lines_view(r@) + split_nl(cur@ + content@.skip(0)) =~~= split_nl(content@));
    }
    while i < content.len()
        invariant
            0 <= i <= content@.len(),
            no_nl(cur@),
            split_nl(content@) =~~= lines_view(r@) + split_nl(cur@ + content@.skip(i as int)),
        decreases content@.len() - i,
    {
        let b = content[i];
        if b == 10 {
            proof {
                lemma_split_nl_line(cur@, content@.skip(i as int + 1));
                assert(cur@ + content@.skip(i as int) =~= cur@ + seq![10u8] + content@.skip(
                i as int + 1));
                assert(lines_view(r@.push(cur)) =~= lines_view(r@).push(cur@));
            }
            r.push(cur);
            cur = Vec::new();
        } else {
            proof {
                assert(cur@.push(b) + content@.skip(i as int + 1) =~= cur@ + content@.skip(
                i as int));
            }
            cur.push(b);
        }
        i = i + 1;
    }
    proof {
        assert(cur@ + content@.skip(i as int) =~= cur@);
    }
    if cur.len() > 0 {
        proof {
            lemma_split_nl_whole(cur@);
            assert(lines_view(r@.push(cur)) =~= lines_view(r@).push(cur@));
        }
        r.push(cur);
    }
    r
}

/// A single newline splits into one empty line.
pub proof fn lemma_split_nl_single_nl()
    ensures
        split_nl(seq![10u8]) =~~= seq![Seq::<u8>::empty()],
{
    let one = seq![10u8];
    assert(one.len() == 1 && one[0] == 10u8);
    assert(one.drop_first().len() == 0);
    assert(split_nl(one.drop_first()) =~= Seq::<Seq<u8>>::empty());
    assert(split_nl(one) =~= seq![Seq::<u8>::empty()] + split_nl(one.drop_first()));
    assert(seq![Seq::<u8>::empty()] + Seq::<Seq<u8>>::empty() =~= seq![Seq::<u8>::empty()]);
}

/// Closing an open last line with a newline adds no line.
pub proof fn lemma_split_nl_close(c: Seq<u8>)
    requires
        c.len() > 0,
        c.last() != 10u8,
    ensures
        split_nl(c + seq![10u8]) =~~= split_nl(c),
    decreases c.len(),
{
    let u = c + seq![10u8];
    if c.len() == 1 {
        assert(u[0] == c[0]);
        assert(u[0] != 10u8);
        assert(u.drop_first() =~= seq![10u8]);
        lemma_split_nl_single_nl();
        let rest = split_nl(u.drop_first());
        assert(rest =~~= seq![Seq::<u8>::empty()]);
        assert(split_nl(u) == seq![seq![u[0]] + rest[0]] + rest.drop_first());
        assert(seq![u[0]] + rest[0] =~= c);
        assert(rest.drop_first() =~= Seq::<Seq<u8>>::empty());
        assert(split_nl(u) =~~= seq![c]);
        assert(c.drop_first().len() == 0);
        assert(split_nl(c.drop_first()) =~= Seq::<Seq<u8>>::empty());
        assert(split_nl(c) =~~= seq![c]);
    } else {
        assert(c.drop_first().len() > 0);
        assert(c.drop_first().last() == c.last());
        lemma_split_nl_close(c.drop_first());
        assert(u.drop_first() =~= c.drop_first() + seq![10u8]);
        if u[0] == 10u8 {
            assert(c[0] == 10u8);
        } else {
            lemma_split_nl_nonempty(c.drop_first());
        }
    }
}

// ---------------------------------------------------------------------------
// Trimming
// ---------------------------------------------------------------------------

pub open spec fn trim_start(s: Seq<u8>) -> Seq<u8>
    decreases s.len(),
{
    if s.len() > 0 && is_space_b(s[0]) {
        trim_start(s.drop_first())
    } else {
        s
    }
}

pub open spec fn trim_end(s: Seq<u8>) -> Seq<u8>
    decreases s.len(),
{
    if s.len() > 0 && is_space_b(s.last()) {
        trim_end(s.drop_last())
    } else {
        s
    }
}

/// A byte string with the ASCII whitespace at both ends removed.
pub open spec fn trimmed(s: Seq<u8>) -> Seq<u8> {
    trim_end(trim_start(s))
}

proof fn lemma_trim_start_at(s: Seq<u8>, k: int)
    requires
        0 <= k <= s.len(),
        forall|j: int| 0 <= j < k ==> is_space_b(s[j]),
        k == s.len() || !is_space_b(s[k]),
    ensures
        trim_start(s) == s.skip(k),
    decreases k,
{
    if k == 0 {
        assert(s.skip(0) =~= s);
    } else {
        assert(is_space_b(s[0]));
        lemma_trim_start_at(s.drop_first(), k - 1);
        assert(s.drop_first().skip(k - 1) =~= s.skip(k));
    }
}

proof fn lemma_trim_end_at(s: Seq<u8>, k: int)
    requires
        0 <= k <= s.len(),
        forall|j: int| k <= j < s.len() ==> is_space_b(s[j]),
        k == 0 || !is_space_b(s[k - 1]),
    ensures
        trim_end(s) == s.take(k),
    decreases s.len() - k,
{
    if k == s.len() {
        assert(s.take(k) =~= s);
    } else {
        assert(is_space_b(s.last()));
        lemma_trim_end_at(s.drop_last(), k);
        assert(s.drop_last().take(k) =~= s.take(k));
    }
}

proof fn lemma_trim_start_no_nl(s: Seq<u8>)
    requires
        no_nl(s),
    ensures
        no_nl(trim_start(s)),
    decreases s.len(),
{
    if s.len() > 0 && is_space_b(s[0]) {
        assert(no_nl(s.drop_first()));
        lemma_trim_start_no_nl(s.drop_first());
    }
}

proof fn lemma_trim_end_no_nl(s: Seq<u8>)
    requires
        no_nl(s),
    ensures
        no_nl(trim_end(s)),
    decreases s.len(),
{
    if s.len() > 0 && is_space_b(s.last()) {
        assert(no_nl(s.drop_last()));
        lemma_trim_end_no_nl(s.drop_last());
    }
}

/// Trimming a newline-free byte string leaves it newline-free.
pub proof fn lemma_trimmed_no_nl(s: Seq<u8>)
    requires
        no_nl(s),
    ensures
        no_nl(trimmed(s)),
{
    lemma_trim_start_no_nl(s);
    lemma_trim_end_no_nl(trim_start(s));
}

/// Copies `line[start..]` with surrounding ASCII whitespace removed.
#[verifier::loop_isolation(false)]
pub fn trimmed_from(line: &Vec<u8>, start: usize) -> (r: Vec<u8>)
    requires
        start <= line@.len(),
    ensures
        r@ =~~= trimmed(line@.skip(start as int)),
{
    let ghost s = line@.skip(start as int);
    let mut lo: usize = start;
    while lo < line.len() && is_space_byte(line[lo])
        invariant
            start <= lo <= line@.len(),
            forall|j: int| start <= j < lo ==> is_space_b(line@[j]),
        decreases line@.len() - lo,
    {
        lo = lo + 1;
    }
    let mut hi: usize = line.len();
    while hi > lo && is_space_byte(line[hi - 1])
        invariant
            lo <= hi <= line@.len(),
            forall|j: int| hi <= j < line@.len() ==> is_space_b(line@[j]),
        decreases hi,
    {
        hi = hi - 1;
    }
    proof {
        lemma_trim_start_at(s, lo - start);
        assert(trim_start(s) =~= line@.subrange(lo as int, line@.len() as int));
        lemma_trim_end_at(trim_start(s), hi - lo);
        assert(trim_start(s).take(hi - lo) =~= line@.subrange(lo as int, hi as int));
    }
    let mut r: Vec<u8> = Vec::new();
    let mut i: usize = lo;
    while i < hi
        invariant
            lo <= i <= hi <= line@.len(),
            r@ =~~= line@.subrange(lo as int, i as int),
        decreases hi - i,
    {
        r.push(line[i]);
        proof {
            assert(line@.subrange(lo as int, i + 1) =~= line@.subrange(lo as int, i as int).push(
            line@[i as int]));
        }
        i = i + 1;
    }
    r
}

/// Appends all of `src` to `out`.
#[verifier::loop_isolation(false)]
pub fn push_all(out: &mut Vec<u8>, src: &[u8])
    ensures
        final(out)@ =~~= old(out)@ + src@,
{
    let mut i: usize = 0;
    while i < src.len()
        invariant
            0 <= i <= src@.len(),
            out@ =~~= old(out)@ + src@.take(i as int),
        decreases src@.len() - i,
    {
        out.push(src[i]);
        proof {
            assert(src@.take(i + 1) =~= src@.take(i as int).push(src@[i as int]));
        }
        i = i + 1;
    }
    proof {
        assert(src@.take(src@.len() as int) =~= src@);
    }
}

/// Executable test for ASCII whitespace.
pub fn is_space_byte(b: u8) -> (r: bool)
    ensures
        r == is_space_b(b),
{
    b == 32 || (9 <= b && b <= 13)
}

// ---------------------------------------------------------------------------
// Lexicographic order on byte strings, for sorting input paths.
// ---------------------------------------------------------------------------

/// Byte-wise lexicographic order: `a` sorts at or before `b`.
pub open spec fn lex_le(a: Seq<u8>, b: Seq<u8>) -> bool
    decreases a.len(),
{
    if a.len() == 0 {
        true
    } else if b.len() == 0 {
        false
    } else if a[0] < b[0] {
        true
    } else if a[0] > b[0] {
        false
    } else {
        lex_le(a.drop_first(), b.drop_first())
    }
}

pub proof fn lemma_lex_le_refl(a: Seq<u8>)
    ensures
        lex_le(a, a),
    decreases a.len(),
{
    if a.len() > 0 {
        lemma_lex_le_refl(a.drop_first());
    }
}

pub proof fn lemma_lex_le_total(a: Seq<u8>, b: Seq<u8>)
    ensures
        lex_le(a, b) || lex_le(b, a),
    decreases a.len(),
{
    if a.len() > 0 && b.len() > 0 && a[0] == b[0] {
        lemma_lex_le_total(a.drop_first(), b.drop_first());
    }
}

pub proof fn lemma_lex_le_trans(a: Seq<u8>, b: Seq<u8>, c: Seq<u8>)
    requires
        lex_le(a, b),
        lex_le(b, c),
    ensures
        lex_le(a, c),
    decreases a.len(),
{
    if a.len() > 0 && b.len() > 0 && c.len() > 0 && a[0] == b[0] && b[0] == c[0] {
        lemma_lex_le_trans(a.drop_first(), b.drop_first(), c.drop_first());
    }
}

/// Executable byte-wise lexicographic comparison.
#[verifier::loop_isolation(false)]
pub fn lex_le_bytes(a: &Vec<u8>, b: &Vec<u8>) -> (r: bool)
    ensures
        r == lex_le(a@, b@),
{
    let mut i: usize = 0;
    proof {
        assert(a@.skip(0) =~= a@);
        assert(b@.skip(0) =~= b@);
    }
    loop
        invariant
            0 <= i <= a@.len(),
            i <= b@.len(),
            lex_le(a@, b@) == lex_le(a@.skip(i as int), b@.skip(i as int)),
        decreases a@.len() - i,
    {
        if i >= a.len() {
            return true;
        }
        if i >= b.len() {
            return false;
        }
        let x = a[i];
        let y = b[i];
        if x < y {
            return true;
        }
        if x > y {
            return false;
        }
        proof {
            assert(a@.skip(i as int).drop_first() =~= a@.skip(i + 1));
            assert(b@.skip(i as int).drop_first() =~= b@.skip(i + 1));
        }
        i = i + 1;
    }
}

} // verus!
