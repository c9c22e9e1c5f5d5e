//! What holds of every pass of the extractor.
use vstd::prelude::*;
use crate::extractor::{
    emits, extract_all, extract_from, field_marker, is_boundary, line_payload, next_slots,
    overwrite, records_of, result_view, scan_fields, step_output, Data, FieldError, Record, Slots,
};
use crate::numeric::{decode_payload, parse_hex_byte, split_colons};
use crate::text::value_after;

verus! {

/// A slot after a line follows that line's marker for the field.
pub proof fn lemma_scan_slot(s: Slots, line: Seq<char>, k: int)
    requires
        0 <= k < 5,
    ensures
        scan_fields(s, line).slot(k) == overwrite(s.slot(k), value_after(line, field_marker(k))),
{
}

/// Slots are complete when each of the five holds a value.
pub proof fn lemma_complete_slots(s: Slots)
    ensures
        s.complete() <==> forall|k: int| 0 <= k < 5 ==> (#[trigger] s.slot(k)) is Some,
{
    if !s.complete() {
        if s.src_port is None {
            assert(s.slot(0) is None);
        } else if s.dst_port is None {
            assert(s.slot(1) is None);
        } else if s.src_addr is None {
            assert(s.slot(2) is None);
        } else if s.dst_addr is None {
            assert(s.slot(3) is None);
        } else {
            assert(s.slot(4) is None);
        }
    }
}

/// A frame boundary empties all five slots, whatever they held, and gives
/// no record.
pub proof fn lemma_boundary_clears(s: Slots, line: Seq<char>)
    requires
        is_boundary(line),
    ensures
        next_slots(s, line) == Slots::empty(),
        step_output(s, line) == Ok::<Option<Record>, FieldError>(None),
{
}

/// After a frame boundary, lines that leave one field uncaptured give no
/// record, up to and including the payload line that follows them.
pub proof fn lemma_incomplete_frame_gives_nothing(
    s: Slots,
    boundary: Seq<char>,
    between: Seq<Seq<char>>,
    payload_line: Seq<char>,
    k: int,
)
    requires
        is_boundary(boundary),
        0 <= k < 5,
        forall|i: int| 0 <= i < between.len() ==> value_after(#[trigger] between[i], field_marker(k)) is None,
    ensures
        extract_from(s, seq![boundary] + between + seq![payload_line]) == Ok::<Seq<Record>, FieldError>(
            Seq::empty(),
        ),
{
    let lines = seq![boundary] + between + seq![payload_line];
    assert(lines[0] == boundary);
    assert(lines.drop_first() =~= between + seq![payload_line]);
    lemma_missing_field_gives_nothing(Slots::empty(), between + seq![payload_line], k);
    assert(Seq::<Record>::empty() + Seq::<Record>::empty() =~= Seq::<Record>::empty());
}

/// From slots that lack field `k`, lines that do not capture it before the
/// last one give no record.
proof fn lemma_missing_field_gives_nothing(s: Slots, lines: Seq<Seq<char>>, k: int)
    requires
        0 <= k < 5,
        s.slot(k) is None,
        forall|i: int| 0 <= i < lines.len() - 1 ==> value_after(#[trigger] lines[i], field_marker(k)) is None,
    ensures
        extract_from(s, lines) == Ok::<Seq<Record>, FieldError>(Seq::empty()),
    decreases lines.len(),
{
    if lines.len() > 0 {
        lemma_complete_slots(s);
        let n = next_slots(s, lines[0]);
        if lines.len() > 1 {
            lemma_scan_slot(s, lines[0], k);
            assert(n.slot(k) is None);
            let rest = lines.drop_first();
            assert forall|i: int| 0 <= i < rest.len() - 1 implies value_after(
                #[trigger] rest[i],
                field_marker(k),
            ) is None by {
                assert(rest[i] == lines[i + 1]);
            }
            lemma_missing_field_gives_nothing(n, rest, k);
        }
        assert(Seq::<Record>::empty() + Seq::<Record>::empty() =~= Seq::<Record>::empty());
    }
}

/// A record empties all five slots, so a payload line that follows it at
/// once gives no second record.
pub proof fn lemma_record_consumes_slots(s: Slots, line: Seq<char>, next_line: Seq<char>)
    requires
        emits(s, line),
    ensures
        next_slots(s, line) == Slots::empty(),
        !emits(next_slots(s, line), next_line),
        step_output(next_slots(s, line), next_line) == Ok::<Option<Record>, FieldError>(None),
{
}

/// A payload value with a piece that is no hexadecimal byte gives no record,
/// and the slots change only as the line's field markers say; a line with no
/// field marker leaves them as they were.
pub proof fn lemma_bad_payload_skipped(s: Slots, line: Seq<char>, text: Seq<char>, j: int)
    requires
        !is_boundary(line),
        value_after(line, crate::extractor::payload_marker()) == Some(text),
        0 <= j < split_colons(text).len(),
        parse_hex_byte(split_colons(text)[j]) is None,
    ensures
        decode_payload(text) is None,
        step_output(s, line) == Ok::<Option<Record>, FieldError>(None),
        next_slots(s, line) == scan_fields(s, line),
        (forall|k: int| 0 <= k < 5 ==> value_after(line, #[trigger] field_marker(k)) is None)
            ==> next_slots(s, line) == s,
{
    assert(line_payload(line) is None);
    if forall|k: int| 0 <= k < 5 ==> value_after(line, #[trigger] field_marker(k)) is None {
        assert(value_after(line, field_marker(0)) is None);
        assert(value_after(line, field_marker(1)) is None);
        assert(value_after(line, field_marker(2)) is None);
        assert(value_after(line, field_marker(3)) is None);
        assert(value_after(line, field_marker(4)) is None);
    }
}

/// Two passes over the same lines give the same result: what `read_buf`
/// returns is fixed by the text of the lines.
pub proof fn lemma_pass_is_deterministic(
    lines: Seq<Seq<char>>,
    first: Result<Vec<Data>, FieldError>,
    second: Result<Vec<Data>, FieldError>,
)
    requires
        result_view(first) == extract_all(lines),
        result_view(second) == extract_all(lines),
    ensures
        result_view(first) == result_view(second),
{
}

/// The positions of the lines that give a record, in a pass over `lines`
/// started with slots `s`.
pub open spec fn record_lines(s: Slots, lines: Seq<Seq<char>>) -> Seq<int>
    decreases lines.len(),
{
    if lines.len() == 0 {
        Seq::empty()
    } else {
        let rest = record_lines(next_slots(s, lines[0]), lines.drop_first()).map_values(
            |j: int| j + 1,
        );
        if emits(s, lines[0]) {
            seq![0int] + rest
        } else {
            rest
        }
    }
}

/// Records come out in the order of their payload lines: the `i`-th record
/// carries the payload of the `i`-th line that gives one, and those lines
/// stand in increasing order.
pub proof fn lemma_records_in_line_order(s: Slots, lines: Seq<Seq<char>>, rs: Seq<Record>)
    requires
        extract_from(s, lines) == Ok::<Seq<Record>, FieldError>(rs),
    ensures
        rs.len() == record_lines(s, lines).len(),
        forall|i: int|
            0 <= i < rs.len() ==> 0 <= #[trigger] record_lines(s, lines)[i] < lines.len(),
        forall|i: int, j: int|
            0 <= i < j < rs.len() ==> record_lines(s, lines)[i] < record_lines(s, lines)[j],
        forall|i: int|
            0 <= i < rs.len() ==> (#[trigger] rs[i]).payload == line_payload(
                lines[record_lines(s, lines)[i]],
            )->Some_0,
    decreases lines.len(),
{
    if lines.len() > 0 {
        let n = next_slots(s, lines[0]);
        let tail = lines.drop_first();
        let o = step_output(s, lines[0])->Ok_0;
        let more = extract_from(n, tail)->Ok_0;
        assert(rs == records_of(o) + more);
        lemma_records_in_line_order(n, tail, more);
        let idx = record_lines(s, lines);
        let sub = record_lines(n, tail);
        if emits(s, lines[0]) {
            assert(idx == seq![0int] + sub.map_values(|j: int| j + 1));
            assert forall|i: int| 0 <= i < rs.len() implies 0 <= #[trigger] idx[i] < lines.len() by {
                if i > 0 {
                    assert(idx[i] == sub[i - 1] + 1);
                }
            }
            assert forall|i: int, j: int| 0 <= i < j < rs.len() implies idx[i] < idx[j] by {
                if i > 0 {
                    assert(idx[i] == sub[i - 1] + 1);
                }
                assert(idx[j] == sub[j - 1] + 1);
            }
            assert forall|i: int| 0 <= i < rs.len() implies (#[trigger] rs[i]).payload == line_payload(
                lines[idx[i]],
            )->Some_0 by {
                if i > 0 {
                    assert(idx[i] == sub[i - 1] + 1);
                    assert(rs[i] == more[i - 1]);
                    assert(lines[idx[i]] == tail[sub[i - 1]]);
                }
            }
        } else {
            assert(rs =~= more);
            assert(idx == sub.map_values(|j: int| j + 1));
            assert forall|i: int| 0 <= i < rs.len() implies (#[trigger] rs[i]).payload == line_payload(
                lines[idx[i]],
            )->Some_0 by {
                assert(lines[idx[i]] == tail[sub[i]]);
            }
        }
    }
}

/// The slots after a pass over `lines` started with slots `s`.
pub open spec fn run_slots(s: Slots, lines: Seq<Seq<char>>) -> Slots
    decreases lines.len(),
{
    if lines.len() == 0 {
        s
    } else {
        run_slots(next_slots(s, lines[0]), lines.drop_first())
    }
}

/// Some line of `lines` before position `j` captures field `k`.
pub open spec fn captured_before(lines: Seq<Seq<char>>, j: int, k: int) -> bool {
    exists|i: int| 0 <= i < j && (#[trigger] value_after(lines[i], field_marker(k))) is Some
}

/// A frame as the exporter writes it: a boundary line, then lines with no
/// boundary, of which at most one carries a payload that decodes, and that
/// one only after lines that capture each of the five fields.
pub open spec fn is_frame(f: Seq<Seq<char>>) -> bool {
    &&& f.len() >= 1
    &&& is_boundary(f[0])
    &&& forall|i: int| 1 <= i < f.len() ==> !is_boundary(#[trigger] f[i])
    &&& forall|i: int, j: int|
        1 <= i < j < f.len() && (#[trigger] line_payload(f[i])) is Some
            ==> (#[trigger] line_payload(f[j])) is None
    &&& forall|j: int, k: int|
        1 <= j < f.len() && 0 <= k < 5 && (#[trigger] line_payload(f[j])) is Some
            ==> #[trigger] captured_before(f.drop_first(), j - 1, k)
}

/// Whether a line of frame `f` after its boundary carries a payload that
/// decodes.
pub open spec fn has_payload(f: Seq<Seq<char>>) -> bool {
    exists|j: int| 1 <= j < f.len() && (#[trigger] line_payload(f[j])) is Some
}

/// The lines of `frames`, one frame after another.
pub open spec fn concat_frames(frames: Seq<Seq<Seq<char>>>) -> Seq<Seq<char>>
    decreases frames.len(),
{
    if frames.len() == 0 {
        Seq::empty()
    } else {
        frames[0] + concat_frames(frames.drop_first())
    }
}

/// How many of `frames` carry a payload that decodes.
pub open spec fn frames_with_payload(frames: Seq<Seq<Seq<char>>>) -> nat
    decreases frames.len(),
{
    if frames.len() == 0 {
        0
    } else {
        (if has_payload(frames[0]) {
            1nat
        } else {
            0nat
        }) + frames_with_payload(frames.drop_first())
    }
}

proof fn lemma_record_lines_append(s: Slots, a: Seq<Seq<char>>, b: Seq<Seq<char>>)
    ensures
        record_lines(s, a + b).len() == record_lines(s, a).len() + record_lines(
            run_slots(s, a),
            b,
        ).len(),
    decreases a.len(),
{
    if a.len() == 0 {
        assert(a + b =~= b);
    } else {
        assert((a + b)[0] == a[0]);
        assert((a + b).drop_first() =~= a.drop_first() + b);
        lemma_record_lines_append(next_slots(s, a[0]), a.drop_first(), b);
    }
}

proof fn lemma_no_payload_no_record(s: Slots, g: Seq<Seq<char>>)
    requires
        forall|i: int| 0 <= i < g.len() ==> (#[trigger] line_payload(g[i])) is None,
    ensures
        record_lines(s, g).len() == 0,
    decreases g.len(),
{
    if g.len() > 0 {
        let rest = g.drop_first();
        assert forall|i: int| 0 <= i < rest.len() implies (#[trigger] line_payload(rest[i])) is None by {
            assert(rest[i] == g[i + 1]);
        }
        lemma_no_payload_no_record(next_slots(s, g[0]), rest);
    }
}

/// The lines of a frame after its boundary, from slots `s`.
proof fn lemma_frame_body(s: Slots, g: Seq<Seq<char>>)
    requires
        forall|i: int| 0 <= i < g.len() ==> !is_boundary(#[trigger] g[i]),
        forall|i: int, j: int|
            0 <= i < j < g.len() && (#[trigger] line_payload(g[i])) is Some
                ==> (#[trigger] line_payload(g[j])) is None,
        forall|j: int, k: int|
            0 <= j < g.len() && 0 <= k < 5 && (#[trigger] line_payload(g[j])) is Some
                ==> s.slot(k) is Some || #[trigger] captured_before(g, j, k),
    ensures
        record_lines(s, g).len() == (if exists|j: int|
            0 <= j < g.len() && (#[trigger] line_payload(g[j])) is Some {
            1int
        } else {
            0int
        }),
    decreases g.len(),
{
    if g.len() > 0 {
        let rest = g.drop_first();
        let n = next_slots(s, g[0]);
        if line_payload(g[0]) is Some {
            assert forall|k: int| 0 <= k < 5 implies (#[trigger] s.slot(k)) is Some by {
                assert(line_payload(g[0]) is Some);
                assert(!captured_before(g, 0, k));
            }
            lemma_complete_slots(s);
            assert(emits(s, g[0]));
            assert forall|i: int| 0 <= i < rest.len() implies (#[trigger] line_payload(rest[i])) is None by {
                assert(rest[i] == g[i + 1]);
                assert(line_payload(g[0]) is Some);
            }
            lemma_no_payload_no_record(n, rest);
        } else {
            assert(!emits(s, g[0]));
            assert(n == scan_fields(s, g[0]));
            assert forall|i: int| 0 <= i < rest.len() implies !is_boundary(#[trigger] rest[i]) by {
                assert(rest[i] == g[i + 1]);
            }
            assert forall|i: int, j: int|
                0 <= i < j < rest.len() && (#[trigger] line_payload(rest[i])) is Some
                    implies (#[trigger] line_payload(rest[j])) is None by {
                assert(rest[i] == g[i + 1]);
                assert(rest[j] == g[j + 1]);
                assert(line_payload(g[i + 1]) is Some);
            }
            assert forall|j: int, k: int|
                0 <= j < rest.len() && 0 <= k < 5 && (#[trigger] line_payload(rest[j])) is Some
                    implies n.slot(k) is Some || #[trigger] captured_before(rest, j, k) by {
                assert(rest[j] == g[j + 1]);
                assert(line_payload(g[j + 1]) is Some);
                lemma_scan_slot(s, g[0], k);
                if s.slot(k) is None && n.slot(k) is None {
                    assert(captured_before(g, j + 1, k));
                    let i = choose|i: int|
                        0 <= i < j + 1 && (#[trigger] value_after(g[i], field_marker(k))) is Some;
                    assert(i != 0);
                    assert(rest[i - 1] == g[i]);
                    assert(value_after(rest[i - 1], field_marker(k)) is Some);
                }
            }
            lemma_frame_body(n, rest);
            if exists|j: int| 0 <= j < g.len() && (#[trigger] line_payload(g[j])) is Some {
                let j = choose|j: int| 0 <= j < g.len() && (#[trigger] line_payload(g[j])) is Some;
                assert(rest[j - 1] == g[j]);
                assert(line_payload(rest[j - 1]) is Some);
            }
            if exists|j: int| 0 <= j < rest.len() && (#[trigger] line_payload(rest[j])) is Some {
                let j = choose|j: int|
                    0 <= j < rest.len() && (#[trigger] line_payload(rest[j])) is Some;
                assert(rest[j] == g[j + 1]);
                assert(line_payload(g[j + 1]) is Some);
            }
        }
    }
}

/// One frame gives one record position when it carries a payload that
/// decodes, and none otherwise, from any slots.
proof fn lemma_one_frame(s: Slots, f: Seq<Seq<char>>)
    requires
        is_frame(f),
    ensures
        record_lines(s, f).len() == (if has_payload(f) {
            1int
        } else {
            0int
        }),
{
    let g = f.drop_first();
    assert(!emits(s, f[0]));
    assert(next_slots(s, f[0]) == Slots::empty());
    assert forall|i: int| 0 <= i < g.len() implies !is_boundary(#[trigger] g[i]) by {
        assert(g[i] == f[i + 1]);
    }
    assert forall|i: int, j: int|
        0 <= i < j < g.len() && (#[trigger] line_payload(g[i])) is Some
            implies (#[trigger] line_payload(g[j])) is None by {
        assert(g[i] == f[i + 1]);
        assert(g[j] == f[j + 1]);
        assert(line_payload(f[i + 1]) is Some);
    }
    assert forall|j: int, k: int|
        0 <= j < g.len() && 0 <= k < 5 && (#[trigger] line_payload(g[j])) is Some
            implies Slots::empty().slot(k) is Some || #[trigger] captured_before(g, j, k) by {
        assert(g[j] == f[j + 1]);
        assert(line_payload(f[j + 1]) is Some);
        assert(captured_before(f.drop_first(), j + 1 - 1, k));
    }
    lemma_frame_body(Slots::empty(), g);
    if has_payload(f) {
        let j = choose|j: int| 1 <= j < f.len() && (#[trigger] line_payload(f[j])) is Some;
        assert(g[j - 1] == f[j]);
        assert(line_payload(g[j - 1]) is Some);
    }
    if exists|j: int| 0 <= j < g.len() && (#[trigger] line_payload(g[j])) is Some {
        let j = choose|j: int| 0 <= j < g.len() && (#[trigger] line_payload(g[j])) is Some;
        assert(g[j] == f[j + 1]);
        assert(line_payload(f[j + 1]) is Some);
    }
}

proof fn lemma_frames_record_lines(s: Slots, frames: Seq<Seq<Seq<char>>>)
    requires
        forall|i: int| 0 <= i < frames.len() ==> is_frame(#[trigger] frames[i]),
    ensures
        record_lines(s, concat_frames(frames)).len() == frames_with_payload(frames),
    decreases frames.len(),
{
    if frames.len() > 0 {
        let f = frames[0];
        let rest = frames.drop_first();
        assert(is_frame(frames[0]));
        assert forall|i: int| 0 <= i < rest.len() implies is_frame(#[trigger] rest[i]) by {
            assert(rest[i] == frames[i + 1]);
        }
        lemma_record_lines_append(s, f, concat_frames(rest));
        lemma_one_frame(s, f);
        lemma_frames_record_lines(run_slots(s, f), rest);
    }
}

/// Over well-formed frames, a pass gives one record for each frame that
/// carries a payload that decodes, and no other: there are as many record
/// lines as such frames, and as many records when every port parses.
pub proof fn lemma_one_record_per_frame(frames: Seq<Seq<Seq<char>>>)
    requires
        forall|i: int| 0 <= i < frames.len() ==> is_frame(#[trigger] frames[i]),
    ensures
        record_lines(Slots::empty(), concat_frames(frames)).len() == frames_with_payload(frames),
        extract_all(concat_frames(frames)) matches Ok(rs) ==> rs.len() == frames_with_payload(
            frames,
        ),
{
    lemma_frames_record_lines(Slots::empty(), frames);
    if extract_all(concat_frames(frames)) is Ok {
        lemma_records_in_line_order(
            Slots::empty(),
            concat_frames(frames),
            extract_all(concat_frames(frames))->Ok_0,
        );
    }
}

} // verus!
