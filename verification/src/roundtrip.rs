use vstd::prelude::*;

use crate::eml::{
    date_of, envelope_line_of, from_name, mbox_record_of, sender_of, trailing_pad,
};
use crate::headers::{header_match, header_value_in, header_value_of};
use crate::mbox::{
    collect_phase, is_boundary, results_from, segment, skip_phase, step, Collect, LineV,
};
use crate::text::{
    lemma_split_nl_close, lemma_split_nl_concat, lemma_split_nl_elements, lemma_split_nl_line,
    lemma_split_nl_nonempty, lemma_split_nl_single_nl, lemma_trimmed_no_nl, no_nl, split_nl,
};

verus! {

// ---------------------------------------------------------------------------
// The round trip: packing messages into an archive and segmenting the
// archive's lines again yields the same messages, each changed only by the
// one trailing-blank-line normalization.
// ---------------------------------------------------------------------------

/// The archive built by packing the given message contents in order.
pub open spec fn archive_of(contents: Seq<Seq<u8>>) -> Seq<u8>
    decreases contents.len(),
{
    if contents.len() == 0 {
        Seq::empty()
    } else {
        mbox_record_of(contents.first()) + archive_of(contents.drop_first())
    }
}

/// The lines a message occupies in the archive: its own lines after the
/// trailing normalization.
pub open spec fn body_lines(c: Seq<u8>) -> Seq<Seq<u8>> {
    split_nl(c + trailing_pad(c))
}

/// The archive's lines, message by message.
pub open spec fn flat_lines(contents: Seq<Seq<u8>>) -> Seq<Seq<u8>>
    decreases contents.len(),
{
    if contents.len() == 0 {
        Seq::empty()
    } else {
        seq![envelope_line_of(contents.first())] + body_lines(contents.first()) + flat_lines(
            contents.drop_first(),
        )
    }
}

/// A line stream in which every line reads successfully.
pub open spec fn good_stream(ls: Seq<Seq<u8>>) -> Seq<LineV> {
    ls.map_values(|l: Seq<u8>| LineV::Good(l))
}

/// A message content that the unescaped boundary convention can carry: none
/// of its lines starts with `From `.
pub open spec fn content_safe(c: Seq<u8>) -> bool {
    forall|k: int| 0 <= k < split_nl(c).len() ==> !is_boundary(#[trigger] split_nl(c)[k])
}

proof fn lemma_header_value_no_nl(lines: Seq<Seq<u8>>, name: Seq<u8>)
    requires
        forall|k: int| 0 <= k < lines.len() ==> no_nl(#[trigger] lines[k]),
    ensures
        header_value_in(lines, name) matches Some(v) ==> no_nl(v),
    decreases lines.len(),
{
    if lines.len() > 0 {
        if header_match(lines[0], name) {
            assert(no_nl(lines[0]));
            assert(no_nl(lines[0].skip(name.len() as int + 1)));
            lemma_trimmed_no_nl(lines[0].skip(name.len() as int + 1));
        } else {
            lemma_header_value_no_nl(lines.drop_first(), name);
        }
    }
}

/// The synthesized envelope is one newline-free line, and it satisfies the
/// boundary predicate.
proof fn lemma_envelope_line(c: Seq<u8>)
    ensures
        no_nl(envelope_line_of(c)),
        is_boundary(envelope_line_of(c)),
{
    let snd = sender_of(c);
    let dt = date_of(c);
    assert(no_nl(crate::eml::placeholder_addr()));
    assert(no_nl(crate::eml::placeholder_date()));
    lemma_split_nl_elements(c);
    lemma_header_value_no_nl(split_nl(c), from_name());
    match header_value_of(c, from_name()) {
        Option::None => {},
        Option::Some(v) => {
            assert(no_nl(v));
            let i = crate::eml::find_byte(v, 60u8, 0);
            crate::eml::lemma_find_byte_bounds(v, 60u8, 0);
            if i < v.len() {
                crate::eml::lemma_find_byte_bounds(v, 62u8, i + 1);
            }
            match crate::eml::angle_addr(v) {
                Option::None => {},
                Option::Some(a) => {
                    assert(no_nl(a));
                },
            }
        },
    }
    assert(no_nl(snd));
    assert(no_nl(dt));
    let e = envelope_line_of(c);
    assert forall|j: int| 0 <= j < e.len() implies e[j] != 10u8 by {
        let p = seq![70u8, 114u8, 111u8, 109u8, 32u8];
        if j < 5 {
            assert(e[j] == p[j]);
        } else if j < 5 + snd.len() {
            assert(e[j] == snd[j - 5]);
        } else if j == 5 + snd.len() {
            assert(e[j] == 32u8);
        } else {
            assert(e[j] == dt[j - 6 - snd.len()]);
        }
    }
    assert(e[0] == 70u8 && e[1] == 114u8 && e[2] == 111u8 && e[3] == 109u8 && e[4] == 32u8);
}

/// After normalization a message's bytes always end in a blank line, its
/// lines are non-empty as a sequence, and for a safe content none of them
/// is a boundary.
proof fn lemma_body_lines(c: Seq<u8>)
    ensures
        (c + trailing_pad(c)).len() > 0,
        (c + trailing_pad(c)).last() == 10u8,
        body_lines(c).len() > 0,
        content_safe(c) ==> forall|k: int|
            0 <= k < body_lines(c).len() ==> !is_boundary(#[trigger] body_lines(c)[k]),
{
    let pad = trailing_pad(c);
    let b = c + pad;
    if c.len() >= 2 && c[c.len() - 1] == 10u8 && c[c.len() - 2] == 10u8 {
        assert(b =~= c);
        lemma_split_nl_nonempty(c);
    } else if c.len() >= 1 && c[c.len() - 1] == 10u8 {
        lemma_split_nl_concat(c, seq![10u8]);
        assert(b =~= c + seq![10u8]);
        lemma_split_nl_single_nl();
        assert(body_lines(c) =~~= split_nl(c) + seq![Seq::<u8>::empty()]);
    } else if c.len() > 0 {
        lemma_split_nl_close(c);
        lemma_split_nl_concat(c + seq![10u8], seq![10u8]);
        assert(b =~= (c + seq![10u8]) + seq![10u8]);
        lemma_split_nl_single_nl();
        assert(body_lines(c) =~~= split_nl(c) + seq![Seq::<u8>::empty()]);
    } else {
        assert(b =~= seq![10u8, 10u8]);
        assert(b[0] == 10u8);
        assert(b.drop_first() =~= seq![10u8]);
        lemma_split_nl_single_nl();
        assert(split_nl(b) =~~= seq![Seq::<u8>::empty(), Seq::<u8>::empty()]);
    }
}

/// The archive splits into exactly the packed messages' lines.
proof fn lemma_archive_lines(contents: Seq<Seq<u8>>)
    ensures
        split_nl(archive_of(contents)) =~~= flat_lines(contents),
    decreases contents.len(),
{
    if contents.len() == 0 {
    } else {
        let c0 = contents.first();
        let env = envelope_line_of(c0);
        let b = c0 + trailing_pad(c0);
        let rec = mbox_record_of(c0);
        lemma_envelope_line(c0);
        lemma_body_lines(c0);
        lemma_archive_lines(contents.drop_first());
        assert(rec =~= (env + seq![10u8]) + b);
        assert(rec.len() > 0 && rec.last() == 10u8);
        assert(archive_of(contents) =~= rec + archive_of(contents.drop_first()));
        lemma_split_nl_concat(rec, archive_of(contents.drop_first()));
        assert(env + seq![10u8] + b =~= rec);
        lemma_split_nl_line(env, b);
        assert(split_nl(rec) =~~= seq![env] + body_lines(c0));
        assert(flat_lines(contents) =~~= (seq![env] + body_lines(c0)) + flat_lines(
            contents.drop_first(),
        ));
    }
}

/// The views of a run of readable, non-boundary lines, collected up to a
/// boundary or the end.
proof fn lemma_collect_block(s: Seq<LineV>, pos: int, end: int)
    requires
        0 <= pos <= end <= s.len(),
        forall|j: int|
            pos <= j < end ==> (#[trigger] s[j] is Good && !is_boundary(s[j]->Good_0)),
        end == s.len() || (s[end] is Good && is_boundary(s[end]->Good_0)),
    ensures
        collect_phase(s, pos) == (if end < s.len() {
            Collect::Msg {
                data: s.subrange(pos, end).map_values(|lv: LineV| lv->Good_0),
                at: end,
            }
        } else {
            Collect::End { data: s.subrange(pos, end).map_values(|lv: LineV| lv->Good_0) }
        }),
    decreases end - pos,
{
    let views = s.subrange(pos, end).map_values(|lv: LineV| lv->Good_0);
    if pos == end {
        assert(views =~= Seq::<Seq<u8>>::empty());
    } else {
        lemma_collect_block(s, pos + 1, end);
        let sub = s.subrange(pos + 1, end).map_values(|lv: LineV| lv->Good_0);
        assert(views =~= seq![s[pos]->Good_0] + sub);
    }
}

/// Segmenting a stream laid out as packed messages yields those messages.
proof fn lemma_seg_from(s: Seq<LineV>, pos: int, contents: Seq<Seq<u8>>)
    requires
        0 <= pos <= s.len(),
        s.skip(pos) == good_stream(flat_lines(contents)),
        forall|i: int| 0 <= i < contents.len() ==> content_safe(#[trigger] contents[i]),
    ensures
        results_from(s, pos, false).len() == contents.len(),
        forall|i: int|
            0 <= i < contents.len() ==> results_from(s, pos, false)[i] == Result::<
                Seq<Seq<u8>>,
                (),
            >::Ok(body_lines(contents[i])),
    decreases contents.len(),
{
    if contents.len() == 0 {
        assert(s.skip(pos).len() == 0);
        assert(pos == s.len());
        assert(results_from(s, pos, false) =~= Seq::<Result<Seq<Seq<u8>>, ()>>::empty());
    } else {
        let c0 = contents.first();
        let env = envelope_line_of(c0);
        let bl = body_lines(c0);
        let rest = contents.drop_first();
        lemma_envelope_line(c0);
        lemma_body_lines(c0);
        assert(flat_lines(contents) =~= (seq![env] + bl) + flat_lines(rest));
        assert(s.skip(pos).len() == 1 + bl.len() + flat_lines(rest).len());
        assert(s[pos] == s.skip(pos)[0]);
        assert(s.skip(pos)[0] == LineV::Good(env));
        assert(skip_phase(s, pos) == pos + 1);
        let end = pos + 1 + bl.len();
        assert forall|j: int|
            pos + 1 <= j < end implies (#[trigger] s[j] is Good && !is_boundary(
            s[j]->Good_0,
        )) by {
            assert(s[j] == s.skip(pos)[j - pos]);
            assert(s.skip(pos)[j - pos] == LineV::Good(bl[j - pos - 1]));
        }
        if flat_lines(rest).len() > 0 {
            assert(s[end] == s.skip(pos)[end - pos]);
            assert(s.skip(pos)[end - pos] == LineV::Good(flat_lines(rest)[0]));
            assert(rest.len() > 0);
            assert(flat_lines(rest)[0] == envelope_line_of(rest.first()));
            lemma_envelope_line(rest.first());
        } else {
            assert(end == s.len());
        }
        lemma_collect_block(s, pos + 1, end);
        let views = s.subrange(pos + 1, end).map_values(|lv: LineV| lv->Good_0);
        assert(views =~= bl) by {
            assert forall|k: int| 0 <= k < bl.len() implies views[k] == bl[k] by {
                assert(s.subrange(pos + 1, end)[k] == s.skip(pos)[k + 1]);
                assert(s.skip(pos)[k + 1] == LineV::Good(bl[k]));
            }
        }
        let st = step(s, pos);
        if end < s.len() {
            assert(st.r == Option::Some(Result::<Seq<Seq<u8>>, ()>::Ok(bl)));
            assert(st.at == end && !st.finished);
            assert(s.skip(end) == good_stream(flat_lines(rest))) by {
                assert(s.skip(end) =~= s.skip(pos).skip(end - pos));
                assert(s.skip(pos).skip(end - pos) =~= good_stream(flat_lines(rest)));
            }
            lemma_seg_from(s, end, rest);
            let r = results_from(s, pos, false);
            assert(r == seq![st.r->Some_0] + results_from(s, end, false));
            assert forall|i: int| 0 <= i < contents.len() implies r[i] == Result::<
                Seq<Seq<u8>>,
                (),
            >::Ok(body_lines(contents[i])) by {
                if i > 0 {
                    assert(r[i] == results_from(s, end, false)[i - 1]);
                    assert(contents[i] == rest[i - 1]);
                }
            }
        } else {
            assert(rest.len() == 0) by {
                if rest.len() > 0 {
                    assert(flat_lines(rest).len() > 0);
                }
            }
            assert(bl.len() > 0);
            assert(st.r == Option::Some(Result::<Seq<Seq<u8>>, ()>::Ok(bl)));
            assert(st.at == s.len() && st.finished);
            let r = results_from(s, pos, false);
            assert(results_from(s, st.at, st.finished) =~= Seq::<Result<Seq<Seq<u8>>, ()>>::empty());
            assert(r == seq![st.r->Some_0] + results_from(s, st.at, st.finished));
            assert(seq![st.r->Some_0] + Seq::<Result<Seq<Seq<u8>>, ()>>::empty() =~= seq![st.r->Some_0]);
        }
    }
}

/// The round trip: packing messages and re-segmenting the archive's lines
/// yields the same number of messages, each with exactly its original
/// lines after the one trailing-blank-line normalization. It holds for
/// contents none of whose own lines starts with `From `; a message
/// carrying such a lookalike line is split there, the known limit of the
/// unescaped boundary convention.
pub proof fn lemma_round_trip(contents: Seq<Seq<u8>>)
    requires
        forall|i: int| 0 <= i < contents.len() ==> content_safe(#[trigger] contents[i]),
    ensures
        segment(good_stream(split_nl(archive_of(contents)))).len() == contents.len(),
        forall|i: int|
            0 <= i < contents.len() ==> segment(good_stream(split_nl(archive_of(contents))))[i]
                == Result::<Seq<Seq<u8>>, ()>::Ok(
                split_nl(contents[i] + trailing_pad(contents[i])),
            ),
{
    lemma_archive_lines(contents);
    let s = good_stream(flat_lines(contents));
    assert(good_stream(split_nl(archive_of(contents))) == s);
    assert(s.skip(0) =~= s);
    lemma_seg_from(s, 0, contents);
}

} // verus!
