//! The sidecar label format: one box per line, five space-separated fields
//! `class x y width height`.
//!
//! This module works on the fields as text. Turning a field into a number,
//! and a number into a field, belongs to the caller.
use vstd::prelude::*;

use crate::text::{is_space, is_word, lemma_words_append_word, lemma_words_space, split_words, words};

verus! {

/// The five fields of one well-formed label line, as written in the file.
pub struct LabelFields {
    pub class: String,
    pub x: String,
    pub y: String,
    pub width: String,
    pub height: String,
}

impl LabelFields {
    /// The fields in file order.
    pub open spec fn tokens(&self) -> Seq<Seq<char>> {
        seq![self.class@, self.x@, self.y@, self.width@, self.height@]
    }

    /// Every field can be written and read back as one word.
    pub open spec fn is_plain(&self) -> bool {
        is_word(self.class@) && is_word(self.x@) && is_word(self.y@) && is_word(self.width@)
            && is_word(self.height@)
    }
}

/// What reading a label file gives: the well-formed lines, and how many
/// lines were passed over because they did not hold exactly five fields.
pub struct LabelRead {
    pub records: Vec<LabelFields>,
    pub skipped: usize,
}

/// The fields of each record, in order.
pub open spec fn record_tokens(v: Seq<LabelFields>) -> Seq<Seq<Seq<char>>> {
    v.map_values(|r: LabelFields| r.tokens())
}

/// The word lists of the lines that split into exactly five words.
pub open spec fn kept_records(lines: Seq<Seq<char>>) -> Seq<Seq<Seq<char>>>
    decreases lines.len(),
{
    if lines.len() == 0 {
        Seq::empty()
    } else {
        let k = kept_records(lines.drop_last());
        let w = words(lines.last());
        if w.len() == 5 {
            k.push(w)
        } else {
            k
        }
    }
}

/// The first word of each line that has one.
pub open spec fn leading_words(lines: Seq<Seq<char>>) -> Seq<Seq<char>>
    decreases lines.len(),
{
    if lines.len() == 0 {
        Seq::empty()
    } else {
        let k = leading_words(lines.drop_last());
        let w = words(lines.last());
        if w.len() > 0 {
            k.push(w[0])
        } else {
            k
        }
    }
}

pub open spec fn space() -> Seq<char> {
    seq![' ']
}

/// The line written for one record.
pub open spec fn line_of(r: LabelFields) -> Seq<char> {
    r.class@ + space() + r.x@ + space() + r.y@ + space() + r.width@ + space() + r.height@
}

/// Reads the lines of a label file. A line that does not split into exactly
/// five words is skipped and counted; nothing is parsed as a number here.
pub fn read_labels(lines: &Vec<String>) -> (r: LabelRead)
    ensures
        record_tokens(r.records@) == kept_records(lines.deep_view()),
        r.skipped + r.records@.len() == lines@.len(),
{
    let mut records: Vec<LabelFields> = Vec::new();
    let mut skipped: usize = 0;
    let mut i: usize = 0;
    while i < lines.len()
        invariant
            i <= lines@.len(),
            skipped + records@.len() == i,
            record_tokens(records@) == kept_records(lines.deep_view().subrange(0, i as int)),
        decreases lines@.len() - i,
    {
        let ghost pre = lines.deep_view().subrange(0, i as int);
        assert(lines.deep_view().subrange(0, i + 1).drop_last() =~= pre);
        let ws = split_words(lines[i].as_str());
        if ws.len() == 5 {
            let rec = LabelFields {
                class: ws[0].clone(),
                x: ws[1].clone(),
                y: ws[2].clone(),
                width: ws[3].clone(),
                height: ws[4].clone(),
            };
            assert(rec.tokens() =~= ws.deep_view());
            let ghost before = records@;
            records.push(rec);
            assert(record_tokens(records@) =~= record_tokens(before).push(rec.tokens()));
        } else {
            skipped = skipped + 1;
        }
        i = i + 1;
    }
    assert(lines.deep_view().subrange(0, i as int) =~= lines.deep_view());
    LabelRead { records, skipped }
}

/// The first word of each line that has one: the class field of every
/// annotation, whether or not the rest of the line is well formed.
pub fn first_words(lines: &Vec<String>) -> (r: Vec<String>)
    ensures
        r.deep_view() == leading_words(lines.deep_view()),
{
    let mut out: Vec<String> = Vec::new();
    let mut i: usize = 0;
    while i < lines.len()
        invariant
            i <= lines@.len(),
            out.deep_view() == leading_words(lines.deep_view().subrange(0, i as int)),
        decreases lines@.len() - i,
    {
        assert(lines.deep_view().subrange(0, i + 1).drop_last() =~= lines.deep_view().subrange(
            0,
            i as int,
        ));
        let ws = split_words(lines[i].as_str());
        if ws.len() > 0 {
            out.push(ws[0].clone());
            assert(out.deep_view() =~= leading_words(lines.deep_view().subrange(0, i + 1)));
        }
        i = i + 1;
    }
    assert(lines.deep_view().subrange(0, i as int) =~= lines.deep_view());
    out
}

/// The line for one record: its fields in order, one space between them.
pub fn format_line(r: &LabelFields) -> (line: String)
    ensures
        line@ == line_of(*r),
{
    let sp = " ";
    proof {
        reveal_strlit(" ");
    }
    assert(sp@ =~= space());
    let mut line = r.class.clone();
    line.append(sp);
    line.append(r.x.as_str());
    line.append(sp);
    line.append(r.y.as_str());
    line.append(sp);
    line.append(r.width.as_str());
    line.append(sp);
    line.append(r.height.as_str());
    line
}

/// The lines of a label file holding `records`, in order.
pub fn write_labels(records: &Vec<LabelFields>) -> (lines: Vec<String>)
    ensures
        lines.deep_view() == records@.map_values(|r: LabelFields| line_of(r)),
{
    let mut out: Vec<String> = Vec::new();
    let mut i: usize = 0;
    while i < records.len()
        invariant
            i <= records@.len(),
            out.deep_view() == records@.subrange(0, i as int).map_values(
                |r: LabelFields| line_of(r),
            ),
        decreases records@.len() - i,
    {
        let line = format_line(&records[i]);
        let ghost before = out.deep_view();
        out.push(line);
        assert(out.deep_view() =~= before.push(line_of(records@[i as int])));
        assert(out.deep_view() =~= records@.subrange(0, i + 1).map_values(
            |r: LabelFields| line_of(r),
        ));
        i = i + 1;
    }
    assert(records@.subrange(0, i as int) =~= records@);
    out
}

/// A plain record's line splits back into exactly its five fields.
pub proof fn lemma_line_words(r: LabelFields)
    requires
        r.is_plain(),
    ensures
        words(line_of(r)) == r.tokens(),
{
    let sp = space();
    let e = Seq::<char>::empty();
    assert(is_space(' '));
    let a0 = r.class@;
    assert(e + a0 =~= a0);
    lemma_words_append_word(e, a0);
    assert(words(e) =~= Seq::<Seq<char>>::empty());
    let a1 = a0 + sp;
    lemma_words_space(a0, ' ');
    assert(a0.push(' ') =~= a1);
    lemma_words_append_word(a1, r.x@);
    let b1 = a1 + r.x@;
    let a2 = b1 + sp;
    lemma_words_space(b1, ' ');
    assert(b1.push(' ') =~= a2);
    lemma_words_append_word(a2, r.y@);
    let b2 = a2 + r.y@;
    let a3 = b2 + sp;
    lemma_words_space(b2, ' ');
    assert(b2.push(' ') =~= a3);
    lemma_words_append_word(a3, r.width@);
    let b3 = a3 + r.width@;
    let a4 = b3 + sp;
    lemma_words_space(b3, ' ');
    assert(b3.push(' ') =~= a4);
    lemma_words_append_word(a4, r.height@);
    assert(a4 + r.height@ == line_of(r));
    assert(words(line_of(r)) =~= r.tokens());
}

/// Writing plain records and reading the lines back gives the same records,
/// field for field, in the same order, with no line skipped.
pub proof fn lemma_labels_round_trip(records: Seq<LabelFields>)
    requires
        forall|i: int| 0 <= i < records.len() ==> (#[trigger] records[i]).is_plain(),
    ensures
        kept_records(records.map_values(|r: LabelFields| line_of(r))) == record_tokens(records),
        kept_records(records.map_values(|r: LabelFields| line_of(r))).len() == records.len(),
    decreases records.len(),
{
    if records.len() > 0 {
        let init = records.drop_last();
        lemma_labels_round_trip(init);
        let lines = records.map_values(|r: LabelFields| line_of(r));
        assert(lines.drop_last() =~= init.map_values(|r: LabelFields| line_of(r)));
        lemma_line_words(records.last());
        assert(record_tokens(records) =~= record_tokens(init).push(records.last().tokens()));
    }
}

} // verus!
