//! The parser entry point: segmentation followed by hierarchy building, with
//! the laws that hold of every parse.

use vstd::prelude::*;
use crate::schema::Memo;
use crate::schema::MemoModel;
use crate::schema::memo_wf;
use crate::schema::memos_view;
use crate::segment::parse_flat;
use crate::segment::segment_text;
use crate::segment::lemma_segment_text_tidy;
use crate::segment::lemma_seg_run_blank;
use crate::hierarchy::build_forest;
use crate::hierarchy::flat_of;
use crate::hierarchy::flatten_forest;
use crate::hierarchy::lemma_build_forest_complete;
use crate::hierarchy::build_hierarchy;
use crate::hierarchy::forest_ok;
use crate::hierarchy::hier_run;
use crate::hierarchy::lemma_build_forest_ok;
use crate::hierarchy::lemma_tree_ok_wf;
use crate::hierarchy::tree_ok;
use crate::lines::lemma_lines_of_blank;
use crate::lines::lines_of;
use crate::text::is_space;

verus! {

/// The forest a text parses to: its flat document-order nodes, folded into
/// nested trees.
pub open spec fn parse_text(s: Seq<char>) -> Seq<MemoModel> {
    build_forest(segment_text(s))
}

/// Law: every root of every parse is a well-shaped tree — its content is
/// whitespace-trimmed, its code blocks carry no leading or trailing blank
/// lines, and every child sits strictly deeper than its parent — and so is
/// every node below it.
pub proof fn lemma_parse_text_ok(s: Seq<char>)
    ensures
        forest_ok(parse_text(s)),
{
    lemma_segment_text_tidy(s);
    lemma_build_forest_ok(segment_text(s));
}

/// Law: every node of every parse keeps the level invariant: each child's
/// level is strictly greater than its parent's, though not necessarily by
/// one.
pub proof fn lemma_parse_forest_wf(s: Seq<char>)
    ensures
        forall|i: int| 0 <= i < parse_text(s).len() ==> memo_wf(#[trigger] parse_text(s)[i]),
{
    lemma_parse_text_ok(s);
    assert forall|i: int| 0 <= i < parse_text(s).len() implies memo_wf(
        #[trigger] parse_text(s)[i],
    ) by {
        lemma_tree_ok_wf(parse_text(s)[i]);
    }
}

/// Law: parsing loses, duplicates and reorders nothing. Laying the parsed
/// forest back out flat — each parent before its children, siblings in
/// document order — gives back exactly the flat node sequence the segmenter
/// read off the text.
pub proof fn lemma_parse_keeps_document_order(s: Seq<char>)
    ensures
        flatten_forest(parse_text(s)) == segment_text(s),
{
    lemma_build_forest_complete(segment_text(s));
    lemma_segment_text_tidy(s);
    let flats = segment_text(s);
    assert forall|i: int| 0 <= i < flats.len() implies flats.map_values(
        |m: MemoModel| flat_of(m),
    )[i] == flats[i] by {
        assert(flats[i].children == Seq::<MemoModel>::empty());
        assert(flat_of(flats[i]) == flats[i]);
    }
    assert(flats.map_values(|m: MemoModel| flat_of(m)) =~= flats);
}

/// Law: an empty or all-whitespace input parses to the empty forest.
pub proof fn lemma_blank_input_empty(s: Seq<char>)
    requires
        forall|i: int| 0 <= i < s.len() ==> is_space(s[i]),
    ensures
        parse_text(s) == Seq::<MemoModel>::empty(),
{
    lemma_lines_of_blank(s);
    lemma_seg_run_blank(lines_of(s));
    assert(segment_text(s) =~= Seq::<MemoModel>::empty());
    assert(hier_run(segment_text(s)) == (Seq::<MemoModel>::empty(), Seq::<MemoModel>::empty()));
    assert(parse_text(s) =~= Seq::<MemoModel>::empty());
}

/// Parses a whole text into its memo forest. Total: every input yields a
/// forest, in document order, every tree of it well shaped.
pub fn parse_memo(content: &str) -> (r: Vec<Memo>)
    ensures
        memos_view(r@) == parse_text(content@),
        forest_ok(memos_view(r@)),
        forall|i: int| 0 <= i < r@.len() ==> memo_wf(#[trigger] memos_view(r@)[i]),
{
    let flat_memos = parse_flat(content);
    let r = build_hierarchy(flat_memos);
    proof {
        lemma_parse_text_ok(content@);
        lemma_parse_forest_wf(content@);
    }
    r
}

} // verus!
