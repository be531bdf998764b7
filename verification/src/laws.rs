//! Laws that relate parsing and serialization, proved once for all inputs.

use vstd::prelude::*;

use crate::digits::{
    decimal_digits, is_digit, lemma_decimal_digits_wf, lemma_digits_val_decimal,
    spec_parse_decimal,
};
use crate::document::{
    content_wf, entry_wf, spec_entries_from, spec_entry_of_record, spec_parse_ident,
    spec_parse_srt, spec_render_doc, spec_render_entry, spec_render_tail, spec_timestamp,
    EntryModel,
};
use crate::errors::ErrModel;
use crate::lines::{
    block_no_newline, block_wf, blocks_of, join_lines, lemma_blocks_concat,
    lemma_blocks_no_newline, lemma_blocks_wf, lemma_find_byte_is, lemma_find_byte_none,
    lemma_join_split_lines, lemma_split_join, lemma_split_lines_app, lemma_split_lines_single,
    lemma_split_lines_wf, no_newline, split_lines,
};
use crate::parser::{
    arrow, spec_parse_records, spec_record_of_block, spec_records_from, spec_split_timerange,
    RecModel,
};
use crate::timecode::{
    lemma_fmt_timecode_bytes, lemma_timecode_round_trip, spec_fmt_timecode, spec_parse_timecode,
};

verus! {

/// Each block from `idx` on yields exactly the record at its position of a
/// successful record fold.
proof fn lemma_records_pointwise(blocks: Seq<Seq<Seq<u8>>>, idx: nat)
    requires
        spec_records_from(blocks, idx) is Ok,
    ensures
        spec_records_from(blocks, idx)->Ok_0.len() == blocks.len(),
        forall|n: int|
            0 <= n < blocks.len() ==> #[trigger] spec_record_of_block(blocks[n], (idx + n) as nat)
                == Ok::<RecModel, ErrModel>(spec_records_from(blocks, idx)->Ok_0[n]),
    decreases blocks.len(),
{
    if blocks.len() > 0 {
        lemma_records_pointwise(blocks.drop_first(), idx + 1);
        let rs = spec_records_from(blocks, idx)->Ok_0;
        let rest = spec_records_from(blocks.drop_first(), idx + 1)->Ok_0;
        let r0 = spec_record_of_block(blocks[0], idx)->Ok_0;
        assert(spec_records_from(blocks, idx) == Ok::<Seq<RecModel>, ErrModel>(seq![r0] + rest));
        assert forall|n: int|
            0 <= n < blocks.len() implies #[trigger] spec_record_of_block(
            blocks[n],
            (idx + n) as nat,
        ) == Ok::<RecModel, ErrModel>(rs[n]) by {
            if n == 0 {
                assert(rs[0] == r0);
            } else {
                assert(spec_record_of_block(
                    blocks.drop_first()[n - 1],
                    (idx + 1 + (n - 1)) as nat,
                ) == Ok::<RecModel, ErrModel>(rest[n - 1]));
                assert(blocks.drop_first()[n - 1] == blocks[n]);
                assert(rs[n] == rest[n - 1]);
            }
        }
    }
}

/// Each record from `idx` on yields exactly the entry at its position of a
/// successful entry fold.
proof fn lemma_entries_pointwise(rs: Seq<RecModel>, idx: nat)
    requires
        spec_entries_from(rs, idx) is Ok,
    ensures
        spec_entries_from(rs, idx)->Ok_0.len() == rs.len(),
        forall|n: int|
            0 <= n < rs.len() ==> #[trigger] spec_entry_of_record(rs[n], (idx + n) as nat) == Ok::<
                EntryModel,
                ErrModel,
            >(spec_entries_from(rs, idx)->Ok_0[n]),
    decreases rs.len(),
{
    if rs.len() > 0 {
        lemma_entries_pointwise(rs.drop_first(), idx + 1);
        let es = spec_entries_from(rs, idx)->Ok_0;
        let rest = spec_entries_from(rs.drop_first(), idx + 1)->Ok_0;
        let e0 = spec_entry_of_record(rs[0], idx)->Ok_0;
        assert(spec_entries_from(rs, idx) == Ok::<Seq<EntryModel>, ErrModel>(seq![e0] + rest));
        assert forall|n: int|
            0 <= n < rs.len() implies #[trigger] spec_entry_of_record(rs[n], (idx + n) as nat)
                == Ok::<EntryModel, ErrModel>(es[n]) by {
            if n == 0 {
                assert(es[0] == e0);
            } else {
                assert(spec_entry_of_record(rs.drop_first()[n - 1], (idx + 1 + (n - 1)) as nat)
                    == Ok::<EntryModel, ErrModel>(rest[n - 1]));
                assert(rs.drop_first()[n - 1] == rs[n]);
                assert(es[n] == rest[n - 1]);
            }
        }
    }
}

/// Order preservation: a parsed document has exactly one entry per clip block
/// of the input, and its Nth entry is the one that the Nth block yields.
pub proof fn lemma_order_preservation(s: Seq<u8>, es: Seq<EntryModel>)
    requires
        spec_parse_srt(s) == Ok::<Seq<EntryModel>, ErrModel>(es),
    ensures
        es.len() == blocks_of(split_lines(s)).len(),
        forall|n: int|
            0 <= n < es.len() ==> (#[trigger] spec_record_of_block(
                blocks_of(split_lines(s))[n],
                n as nat,
            )) is Ok && spec_entry_of_record(
                spec_record_of_block(blocks_of(split_lines(s))[n], n as nat)->Ok_0,
                n as nat,
            ) == Ok::<EntryModel, ErrModel>(es[n]),
{
    let blocks = blocks_of(split_lines(s));
    let rs = spec_parse_records(s)->Ok_0;
    lemma_records_pointwise(blocks, 0);
    lemma_entries_pointwise(rs, 0);
    assert(spec_entries_from(rs, 0) == Ok::<Seq<EntryModel>, ErrModel>(es));
    assert forall|n: int|
        0 <= n < es.len() implies (#[trigger] spec_record_of_block(blocks[n], n as nat)) is Ok
        && spec_entry_of_record(spec_record_of_block(blocks[n], n as nat)->Ok_0, n as nat) == Ok::<
        EntryModel,
        ErrModel,
    >(es[n]) by {
        assert(spec_record_of_block(blocks[n], (0 + n) as nat) == Ok::<RecModel, ErrModel>(rs[n]));
        assert(spec_entry_of_record(rs[n], (0 + n) as nat) == Ok::<EntryModel, ErrModel>(es[n]));
        assert((0 + n) as nat == n as nat);
    }
}


/// The content that a block suffix joins to is well-formed content.
proof fn lemma_content_wf_of_block(b: Seq<Seq<u8>>, k: int)
    requires
        block_wf(b),
        block_no_newline(b),
        1 <= k < b.len(),
    ensures
        content_wf(join_lines(b.skip(k))),
{
    let ls = b.skip(k);
    assert(ls.len() >= 1);
    assert forall|i: int| 0 <= i < ls.len() implies no_newline(#[trigger] ls[i]) by {
        assert(ls[i] == b[i + k]);
    }
    lemma_split_join(ls);
    assert forall|i: int|
        0 <= i < split_lines(join_lines(ls)).len() implies (#[trigger] split_lines(
        join_lines(ls),
    )[i]).len() != 0 by {
        assert(split_lines(join_lines(ls))[i] == ls[i]);
        assert(ls[i] == b[i + k]);
    }
}

/// Every entry of a successful parse is well-formed.
pub proof fn lemma_parse_entries_wf(s: Seq<u8>, es: Seq<EntryModel>)
    requires
        spec_parse_srt(s) == Ok::<Seq<EntryModel>, ErrModel>(es),
    ensures
        forall|n: int| 0 <= n < es.len() ==> entry_wf(#[trigger] es[n]),
{
    let lns = split_lines(s);
    let blocks = blocks_of(lns);
    lemma_order_preservation(s, es);
    lemma_split_lines_wf(s);
    lemma_blocks_wf(lns);
    lemma_blocks_no_newline(lns);
    assert forall|n: int| 0 <= n < es.len() implies entry_wf(#[trigger] es[n]) by {
        let b = blocks[n];
        let rec = spec_record_of_block(b, n as nat)->Ok_0;
        assert(spec_entry_of_record(rec, n as nat) == Ok::<EntryModel, ErrModel>(es[n]));
        assert(block_wf(b));
        assert(block_no_newline(b));
        if spec_split_timerange(b[0]) is Some {
            lemma_content_wf_of_block(b, 1);
        } else {
            lemma_content_wf_of_block(b, 2);
        }
    }
}

/// The lines of one rendered entry: identifier line when present, the
/// time-range line, then the lines of the content.
pub open spec fn entry_lines(e: EntryModel) -> Seq<Seq<u8>> {
    (match e.identifier {
        Some(n) => seq![decimal_digits(n)],
        None => Seq::<Seq<u8>>::empty(),
    }) + seq![spec_timestamp(e)] + split_lines(e.content)
}

/// The clip record that re-parsing one rendered entry yields.
pub open spec fn rec_of_entry(e: EntryModel) -> RecModel {
    RecModel {
        identifier: match e.identifier {
            Some(n) => Some(decimal_digits(n)),
            None => None,
        },
        start_text: spec_fmt_timecode(e.start),
        stop_text: spec_fmt_timecode(e.stop),
        content: e.content,
    }
}

/// A rendered time-range line splits back into its two timecode texts, and
/// holds no newline.
proof fn lemma_split_timerange_timestamp(e: EntryModel)
    ensures
        spec_split_timerange(spec_timestamp(e)) == Some(
            (spec_fmt_timecode(e.start), spec_fmt_timecode(e.stop)),
        ),
        no_newline(spec_timestamp(e)),
        spec_timestamp(e).len() >= 5,
{
    let f1 = spec_fmt_timecode(e.start);
    let f2 = spec_fmt_timecode(e.stop);
    let ts = spec_timestamp(e);
    lemma_fmt_timecode_bytes(e.start);
    lemma_fmt_timecode_bytes(e.stop);
    assert forall|j: int| 0 <= j < f1.len() implies ts[j] == f1[j] && ts[j] != 32 by {
        assert(is_digit(f1[j]) || f1[j] == 58 || f1[j] == 44);
    }
    assert(ts[f1.len() as int] == 32);
    lemma_find_byte_is(ts, 32, f1.len() as int);
    assert(f1.len() + 5 <= ts.len());
    assert(ts.subrange(f1.len() as int, f1.len() as int + 5) =~= arrow());
    assert(ts.take(f1.len() as int) =~= f1);
    assert(ts.skip(f1.len() as int + 5) =~= f2);
    assert forall|j: int| 0 <= j < ts.len() implies ts[j] != 10 by {
        if j < f1.len() {
            assert(ts[j] == f1[j] && (is_digit(f1[j]) || f1[j] == 58 || f1[j] == 44));
        } else if j < f1.len() + 5 {
            assert(ts[j] == arrow()[j - f1.len()]);
        } else {
            assert(ts[j] == f2[j - f1.len() - 5]);
            assert(is_digit(f2[j - f1.len() - 5]) || f2[j - f1.len() - 5] == 58 || f2[j - f1.len()
                - 5] == 44);
        }
    }
}

/// A rendered entry splits back into its lines.
proof fn lemma_split_render_entry(e: EntryModel)
    requires
        entry_wf(e),
    ensures
        split_lines(spec_render_entry(e)) == entry_lines(e),
{
    let ts = spec_timestamp(e);
    lemma_split_timerange_timestamp(e);
    match e.identifier {
        None => {
            assert(spec_render_entry(e) =~= ts + seq![10u8] + e.content);
            lemma_split_lines_app(ts, e.content);
            lemma_split_lines_single(ts);
            assert(split_lines(spec_render_entry(e)) =~~= entry_lines(e));
        },
        Some(n) => {
            lemma_decimal_digits_wf(n);
            let d = decimal_digits(n);
            assert forall|j: int| 0 <= j < d.len() implies d[j] != 10 by {
                assert(is_digit(d[j]));
            }
            assert(spec_render_entry(e) =~= d + seq![10u8] + (ts + seq![10u8] + e.content));
            lemma_split_lines_app(d, ts + seq![10u8] + e.content);
            lemma_split_lines_app(ts, e.content);
            lemma_split_lines_single(d);
            lemma_split_lines_single(ts);
            assert(split_lines(spec_render_entry(e)) =~~= entry_lines(e));
        },
    }
}

/// Re-parsing the lines of a rendered entry yields its clip record, whatever
/// index the block stands at; the lines form a well-formed, newline-free block.
proof fn lemma_record_of_entry_lines(e: EntryModel, idx: nat)
    requires
        entry_wf(e),
    ensures
        spec_record_of_block(entry_lines(e), idx) == Ok::<RecModel, ErrModel>(rec_of_entry(e)),
        block_wf(entry_lines(e)),
        block_no_newline(entry_lines(e)),
{
    let el = entry_lines(e);
    let cls = split_lines(e.content);
    let ts = spec_timestamp(e);
    lemma_split_timerange_timestamp(e);
    lemma_split_lines_wf(e.content);
    lemma_join_split_lines(e.content);
    match e.identifier {
        Some(n) => {
            lemma_decimal_digits_wf(n);
            let d = decimal_digits(n);
            assert(el[0] == d);
            assert(el[1] == ts);
            assert forall|j: int| 0 <= j < d.len() implies d[j] != 32 by {
                assert(is_digit(d[j]));
            }
            lemma_find_byte_none(d, 32);
            assert(spec_split_timerange(el[0]) is None);
            assert(el.len() == 2 + cls.len() && el.len() >= 3);
            assert(el.skip(2) =~= cls);
            assert(join_lines(el.skip(2)) == e.content);
            assert(spec_record_of_block(el, idx)->Ok_0 =~= rec_of_entry(e));
            assert forall|j: int| 0 <= j < el.len() implies (#[trigger] el[j]).len() != 0 by {
                if j >= 2 {
                    assert(el[j] == cls[j - 2]);
                }
            }
            assert forall|j: int| 0 <= j < el.len() implies no_newline(#[trigger] el[j]) by {
                if j >= 2 {
                    assert(el[j] == cls[j - 2]);
                }
            }
        },
        None => {
            assert(el[0] == ts);
            assert(el.len() == 1 + cls.len() && el.len() >= 2);
            assert(el.skip(1) =~= cls);
            assert(join_lines(el.skip(1)) == e.content);
            assert(spec_record_of_block(el, idx)->Ok_0 =~= rec_of_entry(e));
            assert forall|j: int| 0 <= j < el.len() implies (#[trigger] el[j]).len() != 0 by {
                if j >= 1 {
                    assert(el[j] == cls[j - 1]);
                }
            }
            assert forall|j: int| 0 <= j < el.len() implies no_newline(#[trigger] el[j]) by {
                if j >= 1 {
                    assert(el[j] == cls[j - 1]);
                }
            }
        },
    }
}

/// Converting the re-parsed record of a rendered entry yields the entry back.
proof fn lemma_entry_of_rec_of(e: EntryModel, idx: nat)
    requires
        entry_wf(e),
    ensures
        spec_entry_of_record(rec_of_entry(e), idx) == Ok::<EntryModel, ErrModel>(e),
{
    lemma_timecode_round_trip(e.start);
    lemma_timecode_round_trip(e.stop);
    match e.identifier {
        Some(n) => {
            lemma_decimal_digits_wf(n);
            lemma_digits_val_decimal(n);
            assert(spec_parse_decimal(decimal_digits(n)) == Some(n as u64));
            assert(spec_parse_ident(rec_of_entry(e).identifier) == Some(n));
        },
        None => {},
    }
    assert(spec_entry_of_record(rec_of_entry(e), idx)->Ok_0 =~= e);
}

/// The blocks of the text after the first entry are the line blocks of the
/// remaining entries, in order.
proof fn lemma_blocks_render_tail(es: Seq<EntryModel>)
    requires
        forall|n: int| 0 <= n < es.len() ==> entry_wf(#[trigger] es[n]),
    ensures
        blocks_of(split_lines(spec_render_tail(es))) == Seq::new(
            es.len(),
            |n: int| entry_lines(es[n]),
        ),
    decreases es.len(),
{
    if es.len() == 0 {
        let empty_line = seq![Seq::<u8>::empty()];
        assert(split_lines(spec_render_tail(es)) == empty_line);
        assert(empty_line.drop_first() =~= Seq::<Seq<u8>>::empty());
        assert(blocks_of(empty_line) == blocks_of(Seq::<Seq<u8>>::empty()));
        assert(blocks_of(split_lines(spec_render_tail(es))) =~~= Seq::new(
            es.len(),
            |n: int| entry_lines(es[n]),
        ));
    } else {
        let e = es[0];
        let t = spec_render_tail(es);
        let ee = spec_render_entry(e);
        let rest = spec_render_tail(es.drop_first());
        lemma_blocks_render_tail(es.drop_first());
        lemma_record_of_entry_lines(e, 0);
        lemma_split_render_entry(e);
        assert(t =~= Seq::<u8>::empty() + seq![10u8] + (ee + seq![10u8] + rest));
        lemma_split_lines_app(Seq::<u8>::empty(), ee + seq![10u8] + rest);
        lemma_split_lines_app(ee, rest);
        let x = entry_lines(e) + split_lines(rest);
        assert(split_lines(t) =~~= seq![Seq::<u8>::empty()] + x);
        assert((seq![Seq::<u8>::empty()] + x).drop_first() =~= x);
        assert(blocks_of(split_lines(t)) == blocks_of(x));
        if es.drop_first().len() == 0 {
            assert(rest =~= Seq::<u8>::empty());
            assert(split_lines(rest)[0].len() == 0);
        } else {
            assert(rest[0] == 10);
            assert(split_lines(rest)[0].len() == 0);
        }
        lemma_blocks_concat(entry_lines(e), split_lines(rest));
        assert forall|n: int|
            0 <= n < es.len() implies (seq![entry_lines(e)] + blocks_of(split_lines(rest)))[n]
            == entry_lines(es[n]) by {
            if n > 0 {
                assert(blocks_of(split_lines(rest))[n - 1] == entry_lines(es.drop_first()[n - 1]));
                assert(es.drop_first()[n - 1] == es[n]);
            }
        }
        assert(blocks_of(split_lines(t)) =~~= Seq::new(es.len(), |n: int| entry_lines(es[n])));
    }
}

/// Folding the rendered entry blocks yields the re-parsed records.
proof fn lemma_records_fold_render(es: Seq<EntryModel>, idx: nat)
    requires
        forall|n: int| 0 <= n < es.len() ==> entry_wf(#[trigger] es[n]),
    ensures
        spec_records_from(Seq::new(es.len(), |n: int| entry_lines(es[n])), idx) == Ok::<
            Seq<RecModel>,
            ErrModel,
        >(Seq::new(es.len(), |n: int| rec_of_entry(es[n]))),
    decreases es.len(),
{
    let blocks = Seq::new(es.len(), |n: int| entry_lines(es[n]));
    let recs = Seq::new(es.len(), |n: int| rec_of_entry(es[n]));
    if es.len() == 0 {
        assert(recs =~= Seq::<RecModel>::empty());
    } else {
        lemma_record_of_entry_lines(es[0], idx);
        lemma_records_fold_render(es.drop_first(), idx + 1);
        let dblocks = Seq::new(es.drop_first().len(), |n: int| entry_lines(es.drop_first()[n]));
        let drecs = Seq::new(es.drop_first().len(), |n: int| rec_of_entry(es.drop_first()[n]));
        assert(blocks.drop_first() =~= dblocks);
        assert(blocks[0] == entry_lines(es[0]));
        assert(spec_records_from(blocks, idx) == Ok::<Seq<RecModel>, ErrModel>(
            seq![rec_of_entry(es[0])] + drecs,
        ));
        assert(seq![rec_of_entry(es[0])] + drecs =~= recs);
    }
}

/// Folding the re-parsed records yields the entries back.
proof fn lemma_entries_fold_render(es: Seq<EntryModel>, idx: nat)
    requires
        forall|n: int| 0 <= n < es.len() ==> entry_wf(#[trigger] es[n]),
    ensures
        spec_entries_from(Seq::new(es.len(), |n: int| rec_of_entry(es[n])), idx) == Ok::<
            Seq<EntryModel>,
            ErrModel,
        >(es),
    decreases es.len(),
{
    let recs = Seq::new(es.len(), |n: int| rec_of_entry(es[n]));
    if es.len() == 0 {
        assert(es =~= Seq::<EntryModel>::empty());
    } else {
        lemma_entry_of_rec_of(es[0], idx);
        lemma_entries_fold_render(es.drop_first(), idx + 1);
        let drecs = Seq::new(es.drop_first().len(), |n: int| rec_of_entry(es.drop_first()[n]));
        assert(recs.drop_first() =~= drecs);
        assert(recs[0] == rec_of_entry(es[0]));
        assert(spec_entries_from(recs, idx) == Ok::<Seq<EntryModel>, ErrModel>(
            seq![es[0]] + es.drop_first(),
        ));
        assert(seq![es[0]] + es.drop_first() =~= es);
    }
}

/// Re-serialization of well-formed entries: parsing the rendered text of any
/// sequence of well-formed entries yields those entries back.
pub proof fn lemma_reserialize_wf(es: Seq<EntryModel>)
    requires
        forall|n: int| 0 <= n < es.len() ==> entry_wf(#[trigger] es[n]),
    ensures
        spec_parse_srt(spec_render_doc(es)) == Ok::<Seq<EntryModel>, ErrModel>(es),
{
    let doc = spec_render_doc(es);
    if es.len() == 0 {
        let empty_line = seq![Seq::<u8>::empty()];
        assert(split_lines(doc) == empty_line);
        assert(empty_line.drop_first() =~= Seq::<Seq<u8>>::empty());
        assert(blocks_of(empty_line) == blocks_of(Seq::<Seq<u8>>::empty()));
        assert(spec_parse_records(doc) == Ok::<Seq<RecModel>, ErrModel>(Seq::<RecModel>::empty()));
        assert(spec_parse_srt(doc) == Ok::<Seq<EntryModel>, ErrModel>(Seq::<EntryModel>::empty()));
        assert(Seq::<EntryModel>::empty() =~= es);
    } else {
        let e = es[0];
        let ee = spec_render_entry(e);
        let tail = spec_render_tail(es.drop_first());
        assert(doc == ee + seq![10u8] + tail);
        lemma_split_lines_app(ee, tail);
        lemma_split_render_entry(e);
        lemma_blocks_render_tail(es.drop_first());
        lemma_record_of_entry_lines(e, 0);
        if es.drop_first().len() == 0 {
            assert(tail =~= Seq::<u8>::empty());
            assert(split_lines(tail)[0].len() == 0);
        } else {
            assert(tail[0] == 10);
            assert(split_lines(tail)[0].len() == 0);
        }
        lemma_blocks_concat(entry_lines(e), split_lines(tail));
        assert forall|n: int|
            0 <= n < es.len() implies (seq![entry_lines(e)] + blocks_of(split_lines(tail)))[n]
            == entry_lines(es[n]) by {
            if n > 0 {
                assert(blocks_of(split_lines(tail))[n - 1] == entry_lines(es.drop_first()[n - 1]));
                assert(es.drop_first()[n - 1] == es[n]);
            }
        }
        assert(split_lines(doc) == split_lines(ee) + split_lines(tail));
        assert(blocks_of(split_lines(doc)) =~~= Seq::new(es.len(), |n: int| entry_lines(es[n])));
        lemma_records_fold_render(es, 0);
        lemma_entries_fold_render(es, 0);
    }
}

/// Idempotent re-serialization: for a document produced by a successful parse,
/// parsing its rendered SubRip text succeeds and yields the same entries;
/// rendering writes no identifier line for an absent identifier, so absent
/// identifiers stay absent.
pub proof fn lemma_reserialize(s: Seq<u8>, es: Seq<EntryModel>)
    requires
        spec_parse_srt(s) == Ok::<Seq<EntryModel>, ErrModel>(es),
    ensures
        spec_parse_srt(spec_render_doc(es)) == Ok::<Seq<EntryModel>, ErrModel>(es),
{
    lemma_parse_entries_wf(s, es);
    lemma_reserialize_wf(es);
}

} // verus!
