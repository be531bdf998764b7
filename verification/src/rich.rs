//! The rich-document serializer: renders a document as an ordered sequence of
//! styled paragraph descriptors for an external document builder.

use vstd::prelude::*;

use crate::document::{spec_timestamp, Document, EntryModel};
use crate::parser::copy_bytes;

verus! {

/// The named paragraph style a descriptor carries.
#[derive(Debug, Clone, Copy, PartialEq, Eq, Structural)]
pub enum ParagraphStyle {
    Timestamp,
    MainContent,
}

/// Model of one styled paragraph.
#[verifier::ext_equal]
pub ghost struct ParaModel {
    pub style: ParagraphStyle,
    pub text: Seq<u8>,
}

/// One styled paragraph descriptor.
#[derive(Debug)]
pub struct RichParagraph {
    pub style: ParagraphStyle,
    pub text: Vec<u8>,
}

impl DeepView for RichParagraph {
    type V = ParaModel;

    open spec fn deep_view(&self) -> ParaModel {
        ParaModel { style: self.style, text: self.text@ }
    }
}

/// The paragraph sequence of a document: per entry, in order, one paragraph
/// styled `Timestamp` holding its time-range line and one styled
/// `MainContent` holding its content.
pub open spec fn spec_render_rich(es: Seq<EntryModel>) -> Seq<ParaModel> {
    Seq::new(
        2 * es.len(),
        |j: int|
            if j % 2 == 0 {
                ParaModel { style: ParagraphStyle::Timestamp, text: spec_timestamp(es[j / 2]) }
            } else {
                ParaModel { style: ParagraphStyle::MainContent, text: es[j / 2].content }
            },
    )
}

impl Document {
    /// Renders the document as styled paragraph descriptors, two per entry.
    pub fn render_rich(&self) -> (r: Vec<RichParagraph>)
        ensures
            r.deep_view() == spec_render_rich(self@),
    {
        let mut out: Vec<RichParagraph> = Vec::new();
        let n = self.subtitles.len();
        let mut i: usize = 0;
        while i < n
            invariant
                i <= n,
                n == self@.len(),
                out.deep_view() == spec_render_rich(self@).take(2 * i as int),
            decreases n - i,
        {
            proof {
                assert(self@[i as int] == self.subtitles@[i as int]@);
            }
            let sub = &self.subtitles[i];
            let ts = sub.timestamp();
            let ghost tsv = ts@;
            let ghost prev = out.deep_view();
            out.push(RichParagraph { style: ParagraphStyle::Timestamp, text: ts });
            proof {
                assert(out.deep_view() =~= prev.push(
                    ParaModel { style: ParagraphStyle::Timestamp, text: tsv },
                ));
            }
            let content = copy_bytes(&sub.content);
            let ghost cv = content@;
            let ghost prev2 = out.deep_view();
            out.push(RichParagraph { style: ParagraphStyle::MainContent, text: content });
            proof {
                assert(out.deep_view() =~= prev2.push(
                    ParaModel { style: ParagraphStyle::MainContent, text: cv },
                ));
                assert(tsv == spec_timestamp(self@[i as int]));
                assert(cv == self@[i as int].content);
                assert(out.deep_view() =~~= spec_render_rich(self@).take(2 * (i + 1)));
            }
            i = i + 1;
        }
        proof {
            assert(spec_render_rich(self@).take(2 * n as int) =~= spec_render_rich(self@));
        }
        out
    }
}

} // verus!
