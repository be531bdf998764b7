//! The document model: subtitle entries built from parsed clip records, the
//! document that owns them in input order, and the SubRip text serializer.

use vstd::prelude::*;

use crate::digits::{decimal_digits, parse_decimal, push_decimal, spec_parse_decimal};
use crate::errors::{ErrModel, SrtError};
use crate::parser::{arrow, copy_bytes, spec_parse_records, ClipRecord, RecModel, SRTParser};
use crate::timecode::{spec_fmt_timecode, spec_parse_timecode, TimeCode};

verus! {

/// Model of one subtitle entry: optional identifier, start and stop offsets
/// in milliseconds, and the literal content text.
#[verifier::ext_equal]
pub ghost struct EntryModel {
    pub identifier: Option<nat>,
    pub start: nat,
    pub stop: nat,
    pub content: Seq<u8>,
}

/// The identifier an identifier line names: a present but non-numeric (or
/// oversized) identifier degrades to absent rather than failing.
pub open spec fn spec_parse_ident(o: Option<Seq<u8>>) -> Option<nat> {
    match o {
        None => None,
        Some(t) => match spec_parse_decimal(t) {
            Some(v) => Some(v as nat),
            None => None,
        },
    }
}

/// The entry a clip record converts to, or a build error naming the clip
/// index and the malformed timecode.
pub open spec fn spec_entry_of_record(r: RecModel, idx: nat) -> Result<EntryModel, ErrModel> {
    match spec_parse_timecode(r.start_text) {
        None => Err(
            ErrModel::Build {
                clip: idx,
                cause: Box::new(ErrModel::Timecode { text: r.start_text }),
            },
        ),
        Some(st) => match spec_parse_timecode(r.stop_text) {
            None => Err(
                ErrModel::Build {
                    clip: idx,
                    cause: Box::new(ErrModel::Timecode { text: r.stop_text }),
                },
            ),
            Some(sp) => Ok(
                EntryModel {
                    identifier: spec_parse_ident(r.identifier),
                    start: st,
                    stop: sp,
                    content: r.content,
                },
            ),
        },
    }
}

/// The entries of the records from `idx` on: all of them in order, or the
/// first record's error.
pub open spec fn spec_entries_from(rs: Seq<RecModel>, idx: nat) -> Result<Seq<EntryModel>, ErrModel>
    decreases rs.len(),
{
    if rs.len() == 0 {
        Ok(Seq::empty())
    } else {
        match spec_entry_of_record(rs[0], idx) {
            Err(e) => Err(e),
            Ok(entry) => match spec_entries_from(rs.drop_first(), idx + 1) {
                Err(e) => Err(e),
                Ok(es) => Ok(seq![entry] + es),
            },
        }
    }
}

/// The document a whole subtitle text parses to, or its first error.
pub open spec fn spec_parse_srt(s: Seq<u8>) -> Result<Seq<EntryModel>, ErrModel> {
    match spec_parse_records(s) {
        Err(e) => Err(e),
        Ok(rs) => spec_entries_from(rs, 0),
    }
}

/// The time-range line of an entry.
pub open spec fn spec_timestamp(e: EntryModel) -> Seq<u8> {
    spec_fmt_timecode(e.start) + arrow() + spec_fmt_timecode(e.stop)
}

/// The SubRip text of one entry: identifier line when present, time-range
/// line, then the content.
pub open spec fn spec_render_entry(e: EntryModel) -> Seq<u8> {
    (match e.identifier {
        Some(n) => decimal_digits(n) + seq![10u8],
        None => Seq::empty(),
    }) + spec_timestamp(e) + seq![10u8] + e.content
}

/// The text after the first entry: each further entry preceded by a blank
/// line and followed by a newline.
pub open spec fn spec_render_tail(es: Seq<EntryModel>) -> Seq<u8>
    decreases es.len(),
{
    if es.len() == 0 {
        Seq::empty()
    } else {
        seq![10u8] + spec_render_entry(es[0]) + seq![10u8] + spec_render_tail(es.drop_first())
    }
}

/// The SubRip text of a document: entries in order, separated by one blank
/// line, the last followed by a newline.
pub open spec fn spec_render_doc(es: Seq<EntryModel>) -> Seq<u8> {
    if es.len() == 0 {
        Seq::empty()
    } else {
        spec_render_entry(es[0]) + seq![10u8] + spec_render_tail(es.drop_first())
    }
}

/// Content text as the grammar yields it: one or more lines, none blank (so
/// the text is nonempty, and no newline starts it, ends it, or doubles up).
pub open spec fn content_wf(c: Seq<u8>) -> bool {
    forall|i: int|
        0 <= i < crate::lines::split_lines(c).len() ==> (#[trigger] crate::lines::split_lines(
            c,
        )[i]).len() != 0
}

/// An entry as a successful parse yields it: well-formed content, and offsets
/// and identifier within the machine's range.
pub open spec fn entry_wf(e: EntryModel) -> bool {
    &&& content_wf(e.content)
    &&& e.start <= u64::MAX
    &&& e.stop <= u64::MAX
    &&& match e.identifier {
        Some(n) => n <= u64::MAX,
        None => true,
    }
}

/// One subtitle entry: optional identifier, start and stop timecodes, and the
/// literal multi-line content text.
#[derive(Debug)]
pub struct Subtitle {
    pub identifier: Option<u64>,
    pub start: TimeCode,
    pub stop: TimeCode,
    pub content: Vec<u8>,
}

impl View for Subtitle {
    type V = EntryModel;

    open spec fn view(&self) -> EntryModel {
        EntryModel {
            identifier: match self.identifier {
                Some(n) => Some(n as nat),
                None => None,
            },
            start: self.start@,
            stop: self.stop@,
            content: self.content@,
        }
    }
}

impl DeepView for Subtitle {
    type V = EntryModel;

    open spec fn deep_view(&self) -> EntryModel {
        self.view()
    }
}

impl Subtitle {
    /// Renders the entry's time-range line.
    pub fn timestamp(&self) -> (r: Vec<u8>)
        ensures
            r@ == spec_timestamp(self@),
    {
        let mut out = self.start.to_text();
        out.push(32);
        out.push(45);
        out.push(45);
        out.push(62);
        out.push(32);
        let mut stop_text = self.stop.to_text();
        out.append(&mut stop_text);
        proof {
            assert(out@ =~= spec_timestamp(self@));
        }
        out
    }

    /// Renders the entry as SubRip text, without a trailing newline.
    pub fn as_subrip(&self) -> (r: Vec<u8>)
        ensures
            r@ == spec_render_entry(self@),
    {
        let mut out: Vec<u8> = Vec::new();
        if let Some(n) = self.identifier {
            push_decimal(&mut out, n);
            out.push(10);
        }
        let mut ts = self.timestamp();
        out.append(&mut ts);
        out.push(10);
        let mut content = copy_bytes(&self.content);
        out.append(&mut content);
        proof {
            assert(out@ =~= spec_render_entry(self@));
        }
        out
    }
}

/// The ordered collection of subtitle entries a successful parse yields.
#[derive(Debug)]
pub struct Document {
    pub subtitles: Vec<Subtitle>,
}

impl View for Document {
    type V = Seq<EntryModel>;

    open spec fn view(&self) -> Seq<EntryModel> {
        self.subtitles.deep_view()
    }
}

impl Document {
    /// Builds a document from parsed clip records: identifiers degrade to
    /// absent when non-numeric, timecode texts must parse; the construction
    /// is atomic, failing on the first bad clip with its index.
    pub fn build_document(records: &Vec<ClipRecord>) -> (r: Result<Document, SrtError>)
        ensures
            match r {
                Ok(d) => spec_entries_from(records.deep_view(), 0) == Ok::<
                    Seq<EntryModel>,
                    ErrModel,
                >(d@),
                Err(e) => spec_entries_from(records.deep_view(), 0) == Err::<
                    Seq<EntryModel>,
                    ErrModel,
                >(e@),
            },
    {
        let ghost rdv = records.deep_view();
        proof {
            assert(rdv.skip(0) =~= rdv);
        }
        let n = records.len();
        let mut subtitles: Vec<Subtitle> = Vec::new();
        let mut i: usize = 0;
        while i < n
            invariant
                i <= n,
                n == rdv.len(),
                rdv == records.deep_view(),
                records@.len() == n,
                match spec_entries_from(rdv.skip(i as int), i as nat) {
                    Ok(es) => spec_entries_from(rdv, 0) == Ok::<Seq<EntryModel>, ErrModel>(
                        subtitles.deep_view() + es,
                    ),
                    Err(e) => spec_entries_from(rdv, 0) == Err::<Seq<EntryModel>, ErrModel>(e),
                },
            decreases n - i,
        {
            let rec = &records[i];
            proof {
                assert(rec.deep_view() == rdv[i as int]);
                assert(rdv.skip(i as int)[0] == rdv[i as int]);
                assert(rdv.skip(i as int).drop_first() =~= rdv.skip(i + 1));
            }
            let start = match TimeCode::build_from_str(&rec.start_text) {
                Ok(tc) => tc,
                Err(e) => {
                    return Err(SrtError::DocumentBuildFailed { clip: i, cause: Box::new(e) });
                },
            };
            let stop = match TimeCode::build_from_str(&rec.stop_text) {
                Ok(tc) => tc,
                Err(e) => {
                    return Err(SrtError::DocumentBuildFailed { clip: i, cause: Box::new(e) });
                },
            };
            let identifier: Option<u64> = match &rec.identifier {
                Some(t) => parse_decimal(t),
                None => None,
            };
            let content = copy_bytes(&rec.content);
            let entry = Subtitle { identifier, start, stop, content };
            proof {
                assert(entry@ =~= spec_entry_of_record(rdv[i as int], i as nat)->Ok_0);
            }
            let ghost prev = subtitles.deep_view();
            let ghost edv = entry@;
            subtitles.push(entry);
            proof {
                assert(subtitles.deep_view() =~= prev.push(edv));
                match spec_entries_from(rdv.skip(i + 1), (i + 1) as nat) {
                    Ok(es) => {
                        assert(spec_entries_from(rdv.skip(i as int), i as nat) == Ok::<
                            Seq<EntryModel>,
                            ErrModel,
                        >(seq![edv] + es));
                        assert(prev + (seq![edv] + es) =~= subtitles.deep_view() + es);
                    },
                    Err(_) => {},
                }
            }
            i = i + 1;
        }
        proof {
            assert(rdv.skip(n as int) =~= Seq::<RecModel>::empty());
            assert(subtitles.deep_view() + Seq::<EntryModel>::empty() =~= subtitles.deep_view());
        }
        Ok(Document { subtitles })
    }

    /// Parses whole subtitle text into a document: grammar, then timecode
    /// conversion; any failure aborts with no partial document.
    pub fn from_srt(text: &Vec<u8>) -> (r: Result<Document, SrtError>)
        ensures
            match r {
                Ok(d) => spec_parse_srt(text@) == Ok::<Seq<EntryModel>, ErrModel>(d@),
                Err(e) => spec_parse_srt(text@) == Err::<Seq<EntryModel>, ErrModel>(e@),
            },
    {
        match SRTParser::parse(text) {
            Err(e) => Err(e),
            Ok(records) => Document::build_document(&records),
        }
    }

    /// Renders the document back to SubRip text: entries in order, separated
    /// by one blank line, the last followed by a newline.
    pub fn render_subrip(&self) -> (r: Vec<u8>)
        ensures
            r@ == spec_render_doc(self@),
    {
        let mut out: Vec<u8> = Vec::new();
        let n = self.subtitles.len();
        if n == 0 {
            return out;
        }
        proof {
            assert(self@[0] == self.subtitles@[0]@);
        }
        let mut first = self.subtitles[0].as_subrip();
        out.append(&mut first);
        out.push(10);
        proof {
            assert(self@.skip(1) =~= self@.drop_first());
            assert(out@ =~= spec_render_entry(self@[0]) + seq![10u8]);
        }
        let mut i: usize = 1;
        while i < n
            invariant
                1 <= i <= n,
                n == self@.len(),
                spec_render_doc(self@) == out@ + spec_render_tail(self@.skip(i as int)),
            decreases n - i,
        {
            out.push(10);
            proof {
                assert(self@[i as int] == self.subtitles@[i as int]@);
            }
            let mut entry_text = self.subtitles[i].as_subrip();
            out.append(&mut entry_text);
            out.push(10);
            proof {
                assert(self@.skip(i as int)[0] == self@[i as int]);
                assert(self@.skip(i as int).drop_first() =~= self@.skip(i + 1));
                assert(spec_render_tail(self@.skip(i as int)) == seq![10u8] + spec_render_entry(
                    self@[i as int],
                ) + seq![10u8] + spec_render_tail(self@.skip(i + 1)));
                assert(spec_render_doc(self@) =~= out@ + spec_render_tail(self@.skip(i + 1)));
            }
            i = i + 1;
        }
        proof {
            assert(self@.skip(n as int) =~= Seq::<EntryModel>::empty());
            assert(out@ =~= spec_render_doc(self@));
        }
        out
    }
}

} // verus!
