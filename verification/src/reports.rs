//! Editability reports of recognized slides, and merging the reports of a
//! deck's pages into one.
use vstd::prelude::*;
use crate::ooxml::{dec, push_decimal};
use crate::text::{owned, push_string, views};

verus! {

/// What could be made editable on a slide.
#[derive(Clone, Debug)]
pub struct EditabilityReport {
    pub slide: u32,
    pub editable_text_bodies: u32,
    pub accepted_ocr_lines: u32,
    pub omitted_ocr_lines: u32,
    pub ocr_corrections: u32,
    pub native_shapes: u32,
    pub native_lines: u32,
    pub pictures: u32,
    pub issues: Vec<String>,
    pub limitations: Vec<String>,
}

pub const NO_SLIDES: &'static str = "No slides processed";

/// The counts that merging sums: editable text bodies (0), accepted OCR
/// lines (1), omitted OCR lines (2) and OCR corrections (3).
pub open spec fn count_of(r: EditabilityReport, which: int) -> u32 {
    if which == 0 {
        r.editable_text_bodies
    } else if which == 1 {
        r.accepted_ocr_lines
    } else if which == 2 {
        r.omitted_ocr_lines
    } else {
        r.ocr_corrections
    }
}

/// The sum of one count over the first `n` reports.
pub open spec fn total(reports: Seq<EditabilityReport>, n: int, which: int) -> int
    decreases n,
{
    if n <= 0 {
        0
    } else {
        total(reports, n - 1, which) + count_of(reports[n - 1], which) as int
    }
}

/// `Slide {i}: {text}`.
pub open spec fn slide_note(i: nat, text: Seq<char>) -> Seq<char> {
    "Slide "@ + dec(i) + ": "@ + text
}

/// The notes of one report, each prefixed with its slide number `i`.
pub open spec fn notes_of(i: nat, notes: Seq<Seq<char>>) -> Seq<Seq<char>> {
    notes.map_values(|t: Seq<char>| slide_note(i, t))
}

/// The issues of the first `n` reports, report `k` numbered `k + 1`.
pub open spec fn all_issues(reports: Seq<EditabilityReport>, n: int) -> Seq<Seq<char>>
    decreases n,
{
    if n <= 0 {
        seq![]
    } else {
        all_issues(reports, n - 1) + notes_of(n as nat, views(reports[n - 1].issues@))
    }
}

/// The limitations of the first `n` reports, numbered likewise.
pub open spec fn all_limitations(reports: Seq<EditabilityReport>, n: int) -> Seq<Seq<char>>
    decreases n,
{
    if n <= 0 {
        seq![]
    } else {
        all_limitations(reports, n - 1) + notes_of(n as nat, views(reports[n - 1].limitations@))
    }
}

/// The four counts summed over all reports fit in `u32` (the running sums
/// never pass the final ones).
pub open spec fn totals_fit(reports: Seq<EditabilityReport>) -> bool {
    forall|which: int| 0 <= which < 4 ==> #[trigger] total(reports, reports.len() as int, which) <= u32::MAX
}

proof fn lemma_total_monotone(reports: Seq<EditabilityReport>, n: int, m: int, which: int)
    requires
        0 <= n <= m <= reports.len(),
    ensures
        0 <= total(reports, n, which) <= total(reports, m, which),
    decreases m,
{
    if n < m {
        lemma_total_monotone(reports, n, m - 1, which);
    } else if n > 0 {
        lemma_total_monotone(reports, n - 1, n - 1, which);
    }
}

/// Appends `Slide {i}: {text}` for each note.
fn push_notes(out: &mut Vec<String>, i: usize, notes: &Vec<String>)
    ensures
        views(final(out)@) == views(old(out)@) + notes_of(i as nat, views(notes@)),
{
    let mut k: usize = 0;
    while k < notes.len()
        invariant
            0 <= k <= notes@.len(),
            views(out@) == views(old(out)@) + notes_of(i as nat, views(notes@).take(k as int)),
        decreases notes@.len() - k,
    {
        let mut s = owned("Slide ");
        push_decimal(&mut s, i as u64);
        s.append(": ");
        s.append(notes[k].as_str());
        push_string(out, s);
        proof {
            assert(views(notes@).take(k + 1) =~= views(notes@).take(k as int).push(notes@[k as int]@));
            assert(notes_of(i as nat, views(notes@).take(k + 1)) =~= notes_of(i as nat, views(notes@).take(k as int)).push(
                slide_note(i as nat, notes@[k as int]@),
            ));
            assert(views(out@) =~= views(old(out)@) + notes_of(i as nat, views(notes@).take(k + 1)));
        }
        k = k + 1;
    }
    proof {
        assert(views(notes@).take(notes@.len() as int) =~= views(notes@));
    }
}

/// The report of a deck, from the reports of its pages: the text and OCR
/// counts are summed, and each issue and limitation is kept with its page
/// number; shapes, lines and pictures are left at zero. When no page was
/// processed the report says so.
pub fn merge_editability_reports(reports: &[EditabilityReport], any_pages: bool) -> (r: EditabilityReport)
    requires
        any_pages ==> totals_fit(reports@),
    ensures
        r.slide == 0,
        r.native_shapes == 0 && r.native_lines == 0 && r.pictures == 0,
        !any_pages ==> {
            &&& r.editable_text_bodies == 0 && r.accepted_ocr_lines == 0
            &&& r.omitted_ocr_lines == 0 && r.ocr_corrections == 0
            &&& views(r.issues@) == seq![NO_SLIDES@]
            &&& r.limitations@.len() == 0
        },
        any_pages ==> {
            &&& r.editable_text_bodies == total(reports@, reports@.len() as int, 0)
            &&& r.accepted_ocr_lines == total(reports@, reports@.len() as int, 1)
            &&& r.omitted_ocr_lines == total(reports@, reports@.len() as int, 2)
            &&& r.ocr_corrections == total(reports@, reports@.len() as int, 3)
            &&& views(r.issues@) == all_issues(reports@, reports@.len() as int)
            &&& views(r.limitations@) == all_limitations(reports@, reports@.len() as int)
        },
{
    if !any_pages {
        let mut issues: Vec<String> = Vec::new();
        push_string(&mut issues, owned(NO_SLIDES));
        proof {
            assert(views(issues@) =~= seq![NO_SLIDES@]);
        }
        return EditabilityReport {
            slide: 0,
            editable_text_bodies: 0,
            accepted_ocr_lines: 0,
            omitted_ocr_lines: 0,
            ocr_corrections: 0,
            native_shapes: 0,
            native_lines: 0,
            pictures: 0,
            issues,
            limitations: Vec::new(),
        };
    }
    let mut editable: u32 = 0;
    let mut accepted: u32 = 0;
    let mut omitted: u32 = 0;
    let mut corrections: u32 = 0;
    let mut issues: Vec<String> = Vec::new();
    let mut limitations: Vec<String> = Vec::new();
    proof {
        assert(views(issues@) =~= Seq::<Seq<char>>::empty());
        assert(views(limitations@) =~= Seq::<Seq<char>>::empty());
    }
    let mut i: usize = 0;
    while i < reports.len()
        invariant
            0 <= i <= reports@.len(),
            totals_fit(reports@),
            editable == total(reports@, i as int, 0),
            accepted == total(reports@, i as int, 1),
            omitted == total(reports@, i as int, 2),
            corrections == total(reports@, i as int, 3),
            views(issues@) == all_issues(reports@, i as int),
            views(limitations@) == all_limitations(reports@, i as int),
        decreases reports@.len() - i,
    {
        let rep = &reports[i];
        proof {
            assert(total(reports@, reports@.len() as int, 0) <= u32::MAX);
            assert(total(reports@, reports@.len() as int, 1) <= u32::MAX);
            assert(total(reports@, reports@.len() as int, 2) <= u32::MAX);
            assert(total(reports@, reports@.len() as int, 3) <= u32::MAX);
            lemma_total_monotone(reports@, i + 1, reports@.len() as int, 0);
            lemma_total_monotone(reports@, i + 1, reports@.len() as int, 1);
            lemma_total_monotone(reports@, i + 1, reports@.len() as int, 2);
            lemma_total_monotone(reports@, i + 1, reports@.len() as int, 3);
        }
        editable = editable + rep.editable_text_bodies;
        accepted = accepted + rep.accepted_ocr_lines;
        omitted = omitted + rep.omitted_ocr_lines;
        corrections = corrections + rep.ocr_corrections;
        push_notes(&mut issues, i + 1, &rep.issues);
        push_notes(&mut limitations, i + 1, &rep.limitations);
        i = i + 1;
    }
    EditabilityReport {
        slide: 0,
        editable_text_bodies: editable,
        accepted_ocr_lines: accepted,
        omitted_ocr_lines: omitted,
        ocr_corrections: corrections,
        native_shapes: 0,
        native_lines: 0,
        pictures: 0,
        issues,
        limitations,
    }
}

} // verus!
