//! The segmenter: one pass over the lines of the input, producing the flat
//! document-order sequence of memo nodes, with fence state tracked and each
//! node's body handed through description extraction. The whole pass is
//! modelled by a step function over a small machine state, and the executable
//! code is proved to follow it line by line.

use vstd::prelude::*;
use vstd::string::StrSliceExecFns;
use vstd::string::StringExecFns;
use crate::schema::BlockModel;
use crate::schema::Level;
use crate::schema::Memo;
use crate::schema::MemoBuilder;
use crate::schema::MemoModel;
use crate::schema::memos_view;
use crate::schema::opt_str_view;
use crate::text::char_run_from;
use crate::text::find_pat_from;
use crate::text::is_space_char;
use crate::text::lemma_char_run_from_is;
use crate::text::lemma_ws_run_from_is;
use crate::text::match_at;
use crate::text::ws_run_from;
use crate::text::ws_trim;
use crate::text::find_pat;
use crate::text::trim_ws;
use crate::lines::blank_trim;
use crate::lines::lines_of;
use crate::lines::split_lines;
use crate::lines::strs_view;
use crate::lines::trim_blank_lines;

verus! {

/// The opening description marker.
pub open spec fn desc_open() -> Seq<char> {
    seq!['<', 'd', 'e', 's', 'c', '>']
}

/// The closing description marker.
pub open spec fn desc_close() -> Seq<char> {
    seq!['<', '/', 'd', 'e', 's', 'c', '>']
}

/// Description extraction from a raw body: the first opening marker and the
/// first closing marker after it bound the description, which is cut out of
/// the body; without both markers the body is returned unchanged and there
/// is no description.
pub open spec fn extract_desc(s: Seq<char>) -> (Seq<char>, Option<Seq<char>>) {
    match find_pat_from(s, desc_open(), 0) {
        Some(i) => match find_pat_from(s, desc_close(), i) {
            Some(j) => (
                s.subrange(0, i as int) + s.subrange(
                    j as int + desc_close().len(),
                    s.len() as int,
                ),
                Some(s.subrange(i as int + desc_open().len(), j as int)),
            ),
            None => (s, None),
        },
        None => (s, None),
    }
}

/// A closing marker found at or after an opening marker starts at least one
/// whole opening marker later: the two cannot overlap.
pub proof fn lemma_desc_no_overlap(s: Seq<char>, i: nat, j: nat)
    requires
        match_at(s, desc_open(), i),
        match_at(s, desc_close(), j),
        i <= j,
    ensures
        j >= i + desc_open().len(),
{
    if j < i + 6 {
        let d = j - i;
        assert(s[j as int] == desc_close()[0]);
        assert(s[j as int + 1] == desc_close()[1]);
        if d == 0 {
            assert(s[i as int + 1] == desc_open()[1]);
        } else if d == 1 {
            assert(s[i as int + 1] == desc_open()[1]);
        } else if d == 2 {
            assert(s[i as int + 2] == desc_open()[2]);
        } else if d == 3 {
            assert(s[i as int + 3] == desc_open()[3]);
        } else if d == 4 {
            assert(s[i as int + 4] == desc_open()[4]);
        } else {
            assert(s[i as int + 5] == desc_open()[5]);
        }
    }
}

/// Extracts the description from a raw body: the text strictly between the
/// first `<desc>` and the first `</desc>` after it. The cleaned body is what
/// stood before the opening marker joined directly to what stood after the
/// closing one. An unterminated opening marker is not a marker at all: the
/// body comes back unchanged and the description is `None`.
pub fn extract_description(content: &str) -> (r: (String, Option<String>))
    ensures
        r.0@ == extract_desc(content@).0,
        opt_str_view(r.1) == extract_desc(content@).1,
{
    let open_tag = "<desc>";
    let close_tag = "</desc>";
    proof {
        reveal_strlit("<desc>");
        reveal_strlit("</desc>");
        assert(open_tag@ =~= desc_open());
        assert(close_tag@ =~= desc_close());
    }
    match find_pat(content, open_tag, 0) {
        Some(i) => {
            match find_pat(content, close_tag, i) {
                Some(j) => {
                    proof {
                        crate::text::lemma_find_pat_from(content@, desc_open(), 0);
                        crate::text::lemma_find_pat_from(content@, desc_close(), i as nat);
                        lemma_desc_no_overlap(content@, i as nat, j as nat);
                    }
                    let n = content.unicode_len();
                    let before = content.substring_char(0, i);
                    let after = content.substring_char(j + 7, n);
                    let cleaned = before.to_owned().concat(after);
                    let desc = content.substring_char(i + 6, j).to_owned();
                    (cleaned, Some(desc))
                },
                None => (content.to_owned(), None),
            }
        },
        None => (content.to_owned(), None),
    }
}

/// A fence delimiter line: after left whitespace, three backticks.
pub open spec fn is_fence_line(l: Seq<char>) -> bool {
    let k = ws_run_from(l, 0);
    k + 3 <= l.len() && l[k as int] == '`' && l[k as int + 1] == '`' && l[k as int + 2] == '`'
}

/// The language tag of an opening fence line: everything after the three
/// backticks, kept as written.
pub open spec fn fence_lang(l: Seq<char>) -> Seq<char> {
    l.subrange(ws_run_from(l, 0) as int + 3, l.len() as int)
}

/// A heading line: the raw line starts with a marker character.
pub open spec fn is_heading_line(l: Seq<char>) -> bool {
    l.len() > 0 && l[0] == '#'
}

/// The level of a heading line: one less than the length of its leading
/// marker run, held at the largest representable depth for degenerate runs
/// of more than 256 markers.
pub open spec fn heading_level(l: Seq<char>) -> u8 {
    let cnt = char_run_from(l, '#', 0);
    if cnt >= 256 {
        255u8
    } else {
        (cnt - 1) as u8
    }
}

/// The title of a heading line: what follows the marker run, whitespace
/// trimmed.
pub open spec fn heading_title(l: Seq<char>) -> Seq<char> {
    ws_trim(l.subrange(char_run_from(l, '#', 0) as int, l.len() as int))
}

/// Splits a fence delimiter line into its language tag, or refuses the line.
pub fn fence_split<'a>(line: &'a str) -> (r: Option<&'a str>)
    ensures
        match r {
            Some(l) => is_fence_line(line@) && l@ == fence_lang(line@),
            None => !is_fence_line(line@),
        },
{
    let n: usize = line.unicode_len();
    let mut k: usize = 0;
    while k < n && is_space_char(line.get_char(k))
        invariant
            0 <= k <= n,
            n == line@.len(),
            forall|j: int| 0 <= j < k ==> crate::text::is_space(line@[j]),
        decreases n - k,
    {
        k += 1;
    }
    proof {
        lemma_ws_run_from_is(line@, 0, k as nat);
    }
    if n - k >= 3 && line.get_char(k) == '`' && line.get_char(k + 1) == '`' && line.get_char(k + 2)
        == '`' {
        Some(line.substring_char(k + 3, n))
    } else {
        None
    }
}

/// Splits a heading line into its level and trimmed title, or refuses the
/// line.
pub fn heading_parts(line: &str) -> (r: Option<(Level, String)>)
    ensures
        match r {
            Some(p) => is_heading_line(line@) && p.0@ == heading_level(line@) && p.1@
                == heading_title(line@),
            None => !is_heading_line(line@),
        },
{
    let n: usize = line.unicode_len();
    if n == 0 {
        return None;
    }
    if line.get_char(0) != '#' {
        return None;
    }
    let mut cnt: usize = 1;
    while cnt < n && line.get_char(cnt) == '#'
        invariant
            1 <= cnt <= n,
            n == line@.len(),
            forall|j: int| 0 <= j < cnt ==> line@[j] == '#',
        decreases n - cnt,
    {
        cnt += 1;
    }
    proof {
        lemma_char_run_from_is(line@, '#', 0, cnt as nat);
    }
    let lvl: u8 = if cnt > 255 {
        255
    } else {
        (cnt - 1) as u8
    };
    let rest: &str = line.substring_char(cnt, n);
    let title: &str = trim_ws(rest);
    Some((Level::new(lvl), title.to_owned()))
}

/// An open node under construction: its heading, the body text gathered so
/// far, and the code blocks closed so far.
pub struct OpenSeg {
    pub level: u8,
    pub title: Seq<char>,
    pub body: Seq<char>,
    pub blocks: Seq<BlockModel>,
}

/// An open fence: the pending language tag and the code gathered so far.
pub struct FenceSeg {
    pub lang: Seq<char>,
    pub code: Seq<char>,
}

/// The segmenter state after some prefix of the lines: the nodes already
/// finalized, the node still open, and the fence still open.
pub struct SegState {
    pub done: Seq<MemoModel>,
    pub open: Option<OpenSeg>,
    pub fence: Option<FenceSeg>,
}

/// The state before any line.
pub open spec fn seg_init() -> SegState {
    SegState { done: Seq::empty(), open: None, fence: None }
}

/// An open node finalized: its body goes through description extraction, the
/// cleaned body is whitespace-trimmed into the content, and the node becomes
/// a flat memo with no children.
pub open spec fn finalize_open(o: OpenSeg) -> MemoModel {
    MemoModel {
        level: o.level,
        title: o.title,
        description: extract_desc(o.body).1,
        content: Some(ws_trim(extract_desc(o.body).0)),
        code_blocks: o.blocks,
        children: Seq::empty(),
    }
}

/// One line of segmentation. Inside a fence, a fence delimiter closes the
/// block and hands it (blank-line trimmed) to the open node, or drops it
/// when no node is open; any other line is code, headings included. Outside
/// a fence, a fence delimiter opens one, a heading finalizes the open node
/// and opens a new one, and any other line joins the open node's body, with
/// a newline, or is dropped when no node is open yet.
pub open spec fn seg_step(st: SegState, line: Seq<char>) -> SegState {
    match st.fence {
        Some(f) => {
            if is_fence_line(line) {
                SegState {
                    open: match st.open {
                        Some(o) => Some(
                            OpenSeg {
                                blocks: o.blocks.push(
                                    BlockModel { language: f.lang, code: blank_trim(f.code) },
                                ),
                                ..o
                            },
                        ),
                        None => None,
                    },
                    fence: None,
                    ..st
                }
            } else {
                SegState { fence: Some(FenceSeg { code: f.code + line + seq!['\n'], ..f }), ..st }
            }
        },
        None => {
            if is_fence_line(line) {
                SegState { fence: Some(FenceSeg { lang: fence_lang(line), code: Seq::empty() }), ..st }
            } else if is_heading_line(line) {
                SegState {
                    done: match st.open {
                        Some(o) => st.done.push(finalize_open(o)),
                        None => st.done,
                    },
                    open: Some(
                        OpenSeg {
                            level: heading_level(line),
                            title: heading_title(line),
                            body: Seq::empty(),
                            blocks: Seq::empty(),
                        },
                    ),
                    fence: None,
                }
            } else {
                match st.open {
                    Some(o) => SegState {
                        open: Some(OpenSeg { body: o.body + line + seq!['\n'], ..o }),
                        ..st
                    },
                    None => st,
                }
            }
        },
    }
}

/// The segmenter state after all the given lines.
pub open spec fn seg_run(lines: Seq<Seq<char>>) -> SegState
    decreases lines.len(),
{
    if lines.len() == 0 {
        seg_init()
    } else {
        seg_step(seg_run(lines.drop_last()), lines.last())
    }
}

/// The flat node sequence at end of input: a node still open is finalized
/// like any other; an unclosed fence is dropped.
pub open spec fn seg_finish(st: SegState) -> Seq<MemoModel> {
    match st.open {
        Some(o) => st.done.push(finalize_open(o)),
        None => st.done,
    }
}

/// The flat document-order node sequence of a whole text.
pub open spec fn segment_text(s: Seq<char>) -> Seq<MemoModel> {
    seg_finish(seg_run(lines_of(s)))
}

/// Finalizes a node under construction against the body text gathered for
/// it.
fn finalize_node(b: MemoBuilder, body: &str) -> (r: Memo)
    requires
        b@.description is None,
        b@.content is None,
        b@.children == Seq::<MemoModel>::empty(),
    ensures
        r@ == finalize_open(
            OpenSeg { level: b@.level, title: b@.title, body: body@, blocks: b@.code_blocks },
        ),
{
    let parts = extract_description(body);
    let trimmed: &str = trim_ws(parts.0.as_str());
    let mut fb = b.content(trimmed.to_owned());
    match parts.1 {
        Some(d) => {
            fb = fb.description(d);
        },
        None => {},
    }
    fb.build()
}

/// One pass over the lines of `content`, producing the flat document-order
/// sequence of memo nodes, none of them with children.
pub fn parse_flat(content: &str) -> (r: Vec<Memo>)
    ensures
        memos_view(r@) == segment_text(content@),
{
    let lines: Vec<&str> = split_lines(content);
    let ghost lns = lines_of(content@);
    let mut memos: Vec<Memo> = Vec::new();
    let mut current: Option<MemoBuilder> = None;
    let mut in_code: bool = false;
    let mut code = String::new();
    let mut lang = String::new();
    let mut body = String::new();
    let mut idx: usize = 0;
    proof {
        assert(lns.take(0) =~= Seq::<Seq<char>>::empty());
        assert(memos_view(memos@) =~= Seq::<MemoModel>::empty());
    }
    while idx < lines.len()
        invariant
            0 <= idx <= lines@.len(),
            strs_view(lines@) == lns,
            memos_view(memos@) == seg_run(lns.take(idx as int)).done,
            in_code <==> seg_run(lns.take(idx as int)).fence is Some,
            in_code ==> seg_run(lns.take(idx as int)).fence == Some(
                FenceSeg { lang: lang@, code: code@ },
            ),
            match current {
                Some(b) => seg_run(lns.take(idx as int)).open == Some(
                    OpenSeg {
                        level: b@.level,
                        title: b@.title,
                        body: body@,
                        blocks: b@.code_blocks,
                    },
                ) && b@.description is None && b@.content is None && b@.children == Seq::<
                    MemoModel,
                >::empty(),
                None => seg_run(lns.take(idx as int)).open is None,
            },
        decreases lines@.len() - idx,
    {
        let line: &str = lines[idx];
        let ghost pre = seg_run(lns.take(idx as int));
        proof {
            assert(lns.take(idx as int + 1).drop_last() =~= lns.take(idx as int));
            assert(lns.take(idx as int + 1).last() == lns[idx as int]);
            assert(lns[idx as int] == line@);
            assert(seg_run(lns.take(idx as int + 1)) == seg_step(pre, line@));
        }
        let fence_tag = fence_split(line);
        if in_code {
            if fence_tag.is_some() {
                let trimmed = trim_blank_lines(code.as_str());
                match current {
                    Some(b) => {
                        let nb = b.add_code_block(lang, trimmed);
                        current = Some(nb);
                    },
                    None => {
                        current = None;
                    },
                }
                lang = String::new();
                code = String::new();
                in_code = false;
            } else {
                code.append(line);
                code.append("\n");
                proof {
                    reveal_strlit("\n");
                    assert("\n"@ =~= seq!['\n']);
                }
            }
        } else {
            match fence_tag {
                Some(tag) => {
                    lang = tag.to_owned();
                    code = String::new();
                    in_code = true;
                },
                None => {
                    match heading_parts(line) {
                        Some(parts) => {
                            let prev = current;
                            match prev {
                                Some(b) => {
                                    let done = finalize_node(b, body.as_str());
                                    proof {
                                        assert(memos_view(memos@.push(done)) =~= memos_view(
                                            memos@,
                                        ).push(done@));
                                    }
                                    memos.push(done);
                                },
                                None => {},
                            }
                            body = String::new();
                            let nb = MemoBuilder::new(parts.0, parts.1);
                            current = Some(nb);
                        },
                        None => {
                            body.append(line);
                            body.append("\n");
                            proof {
                                reveal_strlit("\n");
                                assert("\n"@ =~= seq!['\n']);
                            }
                        },
                    }
                },
            }
        }
        idx += 1;
    }
    proof {
        assert(lns.take(idx as int) =~= lns);
    }
    match current {
        Some(b) => {
            let done = finalize_node(b, body.as_str());
            proof {
                assert(memos_view(memos@.push(done)) =~= memos_view(memos@).push(done@));
            }
            memos.push(done);
        },
        None => {},
    }
    memos
}


/// Tidiness of one node as the segmenter emits it: it has a content string,
/// whitespace-trimmed, and every code block is free of leading and trailing
/// blank lines.
pub open spec fn node_tidy(m: MemoModel) -> bool {
    &&& match m.content {
        Some(c) => crate::text::ws_trimmed(c),
        None => false,
    }
    &&& blocks_tidy(m.code_blocks)
}

/// Every code block in the list is free of leading and trailing blank lines.
pub open spec fn blocks_tidy(bs: Seq<BlockModel>) -> bool {
    forall|i: int| 0 <= i < bs.len() ==> crate::lines::no_blank_edges((#[trigger] bs[i]).code)
}

/// The segmenter invariant: every finalized node is tidy and childless, and
/// the open node's blocks are tidy.
pub open spec fn seg_state_tidy(st: SegState) -> bool {
    &&& forall|i: int| 0 <= i < st.done.len() ==> node_tidy(#[trigger] st.done[i])
    &&& forall|i: int|
        0 <= i < st.done.len() ==> (#[trigger] st.done[i]).children == Seq::<MemoModel>::empty()
    &&& match st.open {
        Some(o) => blocks_tidy(o.blocks),
        None => true,
    }
}

/// A node finalized from tidy blocks is tidy and childless.
pub proof fn lemma_finalize_tidy(o: OpenSeg)
    requires
        blocks_tidy(o.blocks),
    ensures
        node_tidy(finalize_open(o)),
        finalize_open(o).children == Seq::<MemoModel>::empty(),
{
    crate::text::lemma_ws_trim_trimmed(extract_desc(o.body).0);
}

/// One segmentation step keeps the segmenter invariant.
pub proof fn lemma_seg_step_tidy(st: SegState, line: Seq<char>)
    requires
        seg_state_tidy(st),
    ensures
        seg_state_tidy(seg_step(st, line)),
{
    let post = seg_step(st, line);
    match st.fence {
        Some(f) => {
            if is_fence_line(line) {
                match st.open {
                    Some(o) => {
                        crate::lines::lemma_blank_trim_no_blank_edges(f.code);
                        let nb = BlockModel { language: f.lang, code: blank_trim(f.code) };
                        assert forall|i: int|
                            0 <= i < o.blocks.push(nb).len() implies crate::lines::no_blank_edges(
                            (#[trigger] o.blocks.push(nb)[i]).code,
                        ) by {
                            if i < o.blocks.len() {
                                assert(o.blocks.push(nb)[i] == o.blocks[i]);
                            }
                        }
                    },
                    None => {},
                }
            }
        },
        None => {
            if is_fence_line(line) {
            } else if is_heading_line(line) {
                match st.open {
                    Some(o) => {
                        lemma_finalize_tidy(o);
                        assert forall|i: int|
                            0 <= i < post.done.len() implies node_tidy(#[trigger] post.done[i]) by {
                            if i < st.done.len() {
                                assert(post.done[i] == st.done[i]);
                            }
                        }
                        assert forall|i: int|
                            0 <= i < post.done.len() implies (#[trigger] post.done[i]).children
                            == Seq::<MemoModel>::empty() by {
                            if i < st.done.len() {
                                assert(post.done[i] == st.done[i]);
                            }
                        }
                    },
                    None => {},
                }
            }
        },
    }
}

/// The segmenter invariant holds after any sequence of lines.
pub proof fn lemma_seg_run_tidy(lines: Seq<Seq<char>>)
    ensures
        seg_state_tidy(seg_run(lines)),
    decreases lines.len(),
{
    if lines.len() > 0 {
        lemma_seg_run_tidy(lines.drop_last());
        lemma_seg_step_tidy(seg_run(lines.drop_last()), lines.last());
    }
}

/// Every flat node the segmenter emits for a text is tidy and childless.
pub proof fn lemma_segment_text_tidy(s: Seq<char>)
    ensures
        forall|i: int| 0 <= i < segment_text(s).len() ==> node_tidy(#[trigger] segment_text(s)[i]),
        forall|i: int|
            0 <= i < segment_text(s).len() ==> (#[trigger] segment_text(s)[i]).children == Seq::<
                MemoModel,
            >::empty(),
{
    lemma_seg_run_tidy(lines_of(s));
    let st = seg_run(lines_of(s));
    match st.open {
        Some(o) => {
            lemma_finalize_tidy(o);
            assert forall|i: int|
                0 <= i < segment_text(s).len() implies node_tidy(#[trigger] segment_text(s)[i]) by {
                if i < st.done.len() {
                    assert(segment_text(s)[i] == st.done[i]);
                }
            }
            assert forall|i: int|
                0 <= i < segment_text(s).len() implies (#[trigger] segment_text(
                s,
            )[i]).children == Seq::<MemoModel>::empty() by {
                if i < st.done.len() {
                    assert(segment_text(s)[i] == st.done[i]);
                }
            }
        },
        None => {},
    }
}


/// A blank line is neither a fence delimiter nor a heading, and adds nothing
/// to a machine with no open node: segmentation of blank lines goes nowhere.
pub proof fn lemma_seg_run_blank(lines: Seq<Seq<char>>)
    requires
        forall|i: int| 0 <= i < lines.len() ==> crate::lines::is_blank(#[trigger] lines[i]),
    ensures
        seg_run(lines) == seg_init(),
    decreases lines.len(),
{
    if lines.len() > 0 {
        let prefix = lines.drop_last();
        let l = lines.last();
        assert forall|i: int| 0 <= i < prefix.len() implies crate::lines::is_blank(
            #[trigger] prefix[i],
        ) by {
            assert(prefix[i] == lines[i]);
        }
        lemma_seg_run_blank(prefix);
        lemma_ws_run_from_is(l, 0, l.len());
        assert(!is_fence_line(l));
        if l.len() > 0 {
            assert(crate::text::is_space(l[0]));
            assert(!is_heading_line(l));
        }
        assert(seg_step(seg_init(), l) == seg_init());
    }
}

} // verus!
