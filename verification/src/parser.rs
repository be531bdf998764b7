//! The SubRip grammar: text splits into blank-line-separated clip blocks; a
//! block holds an optional identifier line, a time-range line, and one or more
//! content lines. The parser yields one clip record per block, in input order,
//! and fails on the first structural violation.

use vstd::prelude::*;

use crate::errors::{ErrModel, SrtError};
use crate::lines::{
    block_wf, blocks_of, find_byte, find_byte_from, group_blocks, join_lines, lemma_blocks_wf,
    split_lines, split_lines_exec, subvec,
};

verus! {

/// Model of one clip record: the raw identifier line if one was present, the
/// raw start and stop timecode texts, and the content text.
#[verifier::ext_equal]
pub ghost struct RecModel {
    pub identifier: Option<Seq<u8>>,
    pub start_text: Seq<u8>,
    pub stop_text: Seq<u8>,
    pub content: Seq<u8>,
}

/// One grammar-matched clip: raw identifier text (when the clip had an
/// identifier line), raw start/stop timecode texts, and raw content text.
#[derive(Debug)]
pub struct ClipRecord {
    pub identifier: Option<Vec<u8>>,
    pub start_text: Vec<u8>,
    pub stop_text: Vec<u8>,
    pub content: Vec<u8>,
}

impl DeepView for ClipRecord {
    type V = RecModel;

    open spec fn deep_view(&self) -> RecModel {
        RecModel {
            identifier: match self.identifier {
                Some(v) => Some(v@),
                None => None,
            },
            start_text: self.start_text@,
            stop_text: self.stop_text@,
            content: self.content@,
        }
    }
}

/// The separator between the two timecodes of a time-range line.
pub open spec fn arrow() -> Seq<u8> {
    seq![32u8, 45u8, 45u8, 62u8, 32u8]
}

/// Splits a time-range line at its separator: the first space must begin
/// `" --> "`; the texts before and after are the start and stop timecodes.
pub open spec fn spec_split_timerange(l: Seq<u8>) -> Option<(Seq<u8>, Seq<u8>)> {
    match find_byte(l, 32) {
        None => None,
        Some(i) => if i + 5 <= l.len() && l.subrange(i, i + 5) == arrow() {
            Some((l.take(i), l.skip(i + 5)))
        } else {
            None
        },
    }
}

/// The clip record of one block, or the structural error: a block whose first
/// line is a time range has no identifier; otherwise the first line is the
/// identifier line and the second must be a time range; at least one content
/// line must follow.
pub open spec fn spec_record_of_block(b: Seq<Seq<u8>>, idx: nat) -> Result<RecModel, ErrModel> {
    match spec_split_timerange(b[0]) {
        Some(tr) => if b.len() >= 2 {
            Ok(
                RecModel {
                    identifier: None,
                    start_text: tr.0,
                    stop_text: tr.1,
                    content: join_lines(b.skip(1)),
                },
            )
        } else {
            Err(ErrModel::Clip { clip: idx })
        },
        None => if b.len() < 2 {
            Err(ErrModel::Header { clip: idx, text: b[0] })
        } else {
            match spec_split_timerange(b[1]) {
                Some(tr) => if b.len() >= 3 {
                    Ok(
                        RecModel {
                            identifier: Some(b[0]),
                            start_text: tr.0,
                            stop_text: tr.1,
                            content: join_lines(b.skip(2)),
                        },
                    )
                } else {
                    Err(ErrModel::Clip { clip: idx })
                },
                None => Err(ErrModel::Header { clip: idx, text: b[1] }),
            }
        },
    }
}

/// The records of the blocks from `idx` on: all of them in order, or the
/// first block's error.
pub open spec fn spec_records_from(blocks: Seq<Seq<Seq<u8>>>, idx: nat) -> Result<
    Seq<RecModel>,
    ErrModel,
>
    decreases blocks.len(),
{
    if blocks.len() == 0 {
        Ok(Seq::empty())
    } else {
        match spec_record_of_block(blocks[0], idx) {
            Err(e) => Err(e),
            Ok(r) => match spec_records_from(blocks.drop_first(), idx + 1) {
                Err(e) => Err(e),
                Ok(rs) => Ok(seq![r] + rs),
            },
        }
    }
}

/// The clip records of a whole subtitle text, or its first structural error.
pub open spec fn spec_parse_records(s: Seq<u8>) -> Result<Seq<RecModel>, ErrModel> {
    spec_records_from(blocks_of(split_lines(s)), 0)
}

/// Copies a byte vector.
pub(crate) fn copy_bytes(v: &Vec<u8>) -> (r: Vec<u8>)
    ensures
        r@ == v@,
{
    let r = subvec(v, 0, v.len());
    proof {
        assert(r@ =~= v@);
    }
    r
}

/// Splits a time-range line into its start and stop timecode texts.
pub fn split_timerange(line: &Vec<u8>) -> (r: Option<(Vec<u8>, Vec<u8>)>)
    ensures
        match r {
            Some(p) => spec_split_timerange(line@) == Some((p.0@, p.1@)),
            None => spec_split_timerange(line@) == None::<(Seq<u8>, Seq<u8>)>,
        },
{
    let n = line.len();
    proof {
        assert(line@.skip(0) =~= line@);
    }
    let i = match find_byte_from(line, 32, 0) {
        Some(i) => i,
        None => {
            return None;
        },
    };
    if n - i < 5 {
        return None;
    }
    proof {
        assert(line@.subrange(i as int, i + 5)[1] == line@[i + 1]);
        assert(line@.subrange(i as int, i + 5)[2] == line@[i + 2]);
        assert(line@.subrange(i as int, i + 5)[3] == line@[i + 3]);
        assert(line@.subrange(i as int, i + 5)[4] == line@[i + 4]);
    }
    proof {
        crate::lines::lemma_find_byte(line@, 32);
        assert(line@[i as int] == 32);
        assert(line@.subrange(i as int, i + 5)[0] == line@[i as int]);
    }
    if line[i + 1] == 45 && line[i + 2] == 45 && line[i + 3] == 62 && line[i + 4] == 32 {
        proof {
            assert(line@.subrange(i as int, i + 5) =~= arrow());
        }
        let a = subvec(line, 0, i);
        let b = subvec(line, i + 5, n);
        proof {
            assert(a@ =~= line@.take(i as int));
            assert(b@ =~= line@.skip(i + 5));
        }
        Some((a, b))
    } else {
        proof {
            assert(line@.subrange(i as int, i + 5) != arrow());
        }
        None
    }
}

/// Joins the lines of `block` from index `k` on with newlines between them.
pub(crate) fn join_from(block: &Vec<Vec<u8>>, k: usize) -> (r: Vec<u8>)
    requires
        k < block@.len(),
    ensures
        r@ == join_lines(block.deep_view().skip(k as int)),
    decreases block@.len() - k,
{
    let ghost dv = block.deep_view();
    proof {
        assert(block@[k as int].deep_view() =~= block@[k as int]@);
        assert(dv[k as int] == block@[k as int]@);
    }
    let nb = block.len();
    let lv = &block[k];
    let mut out = subvec(lv, 0, lv.len());
    proof {
        assert(out@ =~= dv[k as int]);
    }
    if k + 1 < nb {
        out.push(10);
        let mut rest = join_from(block, k + 1);
        out.append(&mut rest);
        proof {
            assert(dv.skip(k as int).drop_first() =~= dv.skip(k + 1));
            assert(dv.skip(k as int)[0] == dv[k as int]);
            assert(out@ =~= join_lines(dv.skip(k as int)));
        }
    } else {
        proof {
            assert(dv.skip(k as int).len() == 1);
            assert(dv.skip(k as int)[0] == dv[k as int]);
            assert(out@ =~= join_lines(dv.skip(k as int)));
        }
    }
    out
}

/// Turns one block into a clip record, or reports how the block violates the
/// grammar; `idx` is the block's position, carried into errors.
pub fn record_of_block(block: &Vec<Vec<u8>>, idx: usize) -> (r: Result<ClipRecord, SrtError>)
    requires
        block_wf(block.deep_view()),
    ensures
        match r {
            Ok(rec) => spec_record_of_block(block.deep_view(), idx as nat) == Ok::<
                RecModel,
                ErrModel,
            >(rec.deep_view()),
            Err(e) => spec_record_of_block(block.deep_view(), idx as nat) == Err::<
                RecModel,
                ErrModel,
            >(e@),
        },
{
    let ghost bdv = block.deep_view();
    proof {
        assert forall|t: int| 0 <= t < bdv.len() implies bdv[t] == block@[t]@ by {
            assert(block@[t].deep_view() =~= block@[t]@);
        }
    }
    let n = block.len();
    match split_timerange(&block[0]) {
        Some((start_text, stop_text)) => {
            if n < 2 {
                return Err(SrtError::MalformedClip { clip: idx });
            }
            let content = join_from(block, 1);
            Ok(ClipRecord { identifier: None, start_text, stop_text, content })
        },
        None => {
            if n < 2 {
                return Err(SrtError::MalformedHeader { clip: idx, text: copy_bytes(&block[0]) });
            }
            match split_timerange(&block[1]) {
                Some((start_text, stop_text)) => {
                    if n < 3 {
                        return Err(SrtError::MalformedClip { clip: idx });
                    }
                    let identifier = copy_bytes(&block[0]);
                    let content = join_from(block, 2);
                    Ok(
                        ClipRecord {
                            identifier: Some(identifier),
                            start_text,
                            stop_text,
                            content,
                        },
                    )
                },
                None => Err(
                    SrtError::MalformedHeader { clip: idx, text: copy_bytes(&block[1]) },
                ),
            }
        },
    }
}

/// The SubRip grammar parser.
pub struct SRTParser;

impl SRTParser {
    /// Parses subtitle text into clip records, one per block, in input order;
    /// the first structural violation fails the whole parse.
    pub fn parse(text: &Vec<u8>) -> (r: Result<Vec<ClipRecord>, SrtError>)
        ensures
            match r {
                Ok(recs) => spec_parse_records(text@) == Ok::<Seq<RecModel>, ErrModel>(
                    recs.deep_view(),
                ),
                Err(e) => spec_parse_records(text@) == Err::<Seq<RecModel>, ErrModel>(e@),
            },
    {
        let lines = split_lines_exec(text);
        let blocks = group_blocks(lines);
        let ghost bdv = blocks.deep_view();
        proof {
            lemma_blocks_wf(split_lines(text@));
            assert(bdv.skip(0) =~= bdv);
        }
        let n = blocks.len();
        let mut recs: Vec<ClipRecord> = Vec::new();
        let mut i: usize = 0;
        while i < n
            invariant
                i <= n,
                n == bdv.len(),
                bdv == blocks.deep_view(),
                blocks@.len() == n,
                forall|k: int| 0 <= k < bdv.len() ==> block_wf(#[trigger] bdv[k]),
                bdv == blocks_of(split_lines(text@)),
                match spec_records_from(bdv.skip(i as int), i as nat) {
                    Ok(rs) => spec_records_from(bdv, 0) == Ok::<Seq<RecModel>, ErrModel>(
                        recs.deep_view() + rs,
                    ),
                    Err(e) => spec_records_from(bdv, 0) == Err::<Seq<RecModel>, ErrModel>(e),
                },
            decreases n - i,
        {
            let block = &blocks[i];
            proof {
                assert(block.deep_view() == bdv[i as int]);
                assert(bdv.skip(i as int)[0] == bdv[i as int]);
                assert(bdv.skip(i as int).drop_first() =~= bdv.skip(i + 1));
            }
            match record_of_block(block, i) {
                Err(e) => {
                    proof {
                        assert(spec_records_from(bdv.skip(i as int), i as nat) == Err::<
                            Seq<RecModel>,
                            ErrModel,
                        >(e@));
                    }
                    return Err(e);
                },
                Ok(rec) => {
                    let ghost prev = recs.deep_view();
                    let ghost rdv = rec.deep_view();
                    recs.push(rec);
                    proof {
                        assert(recs.deep_view() =~= prev.push(rdv));
                        match spec_records_from(bdv.skip(i + 1), (i + 1) as nat) {
                            Ok(rs) => {
                                assert(spec_records_from(bdv.skip(i as int), i as nat) == Ok::<
                                    Seq<RecModel>,
                                    ErrModel,
                                >(seq![rdv] + rs));
                                assert(prev + (seq![rdv] + rs) =~= recs.deep_view() + rs);
                            },
                            Err(_) => {},
                        }
                    }
                    i = i + 1;
                },
            }
        }
        proof {
            assert(bdv.skip(n as int) =~= Seq::<Seq<Seq<u8>>>::empty());
            assert(recs.deep_view() + Seq::<RecModel>::empty() =~= recs.deep_view());
        }
        Ok(recs)
    }
}

} // verus!
