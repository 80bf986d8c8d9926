//! The data model: heading levels, code blocks, memo nodes and their builder,
//! plus the directory-listing shapes handed to outside collaborators.

use vstd::prelude::*;
use vstd::string::StringExecFns;
use vstd::string::StrSliceExecFns;

verus! {

/// Mathematical model of a code block: a language tag and the block body.
pub struct BlockModel {
    pub language: Seq<char>,
    pub code: Seq<char>,
}

/// Mathematical model of a memo node. `level` is the zero-indexed heading
/// depth; `children` are in document order.
pub struct MemoModel {
    pub level: u8,
    pub title: Seq<char>,
    pub description: Option<Seq<char>>,
    pub content: Option<Seq<char>>,
    pub code_blocks: Seq<BlockModel>,
    pub children: Seq<MemoModel>,
}

/// Zero-indexed heading depth: a line opening with `n` marker characters has
/// level `n - 1`.
#[derive(Debug, Clone, Copy, PartialEq, Eq)]
pub struct Level(pub(crate) u8);

impl View for Level {
    type V = u8;

    open(crate) spec fn view(&self) -> u8 {
        self.0
    }
}

/// A fenced code block: the language tag that followed the opening fence and
/// the block body.
#[derive(Debug, Clone, PartialEq)]
pub struct CodeBlock {
    pub language: String,
    pub code: String,
}

impl View for CodeBlock {
    type V = BlockModel;

    open spec fn view(&self) -> BlockModel {
        BlockModel { language: self.language@, code: self.code@ }
    }
}

/// One node of the output forest. Immutable once built; every child's level
/// is strictly greater than its parent's (see [`memo_wf`]).
#[derive(Debug, PartialEq)]
pub struct Memo {
    pub(crate) level: Level,
    pub(crate) title: String,
    pub(crate) description: Option<String>,
    pub(crate) content: Option<String>,
    pub(crate) code_blocks: Vec<CodeBlock>,
    pub(crate) children: Vec<Memo>,
}

/// The model of a memo node, recursively over its children.
pub open(crate) spec fn memo_view(m: Memo) -> MemoModel
    decreases m,
{
    MemoModel {
        level: m.level@,
        title: m.title@,
        description: opt_str_view(m.description),
        content: opt_str_view(m.content),
        code_blocks: m.code_blocks@.map_values(|b: CodeBlock| b@),
        children: memos_view(m.children@),
    }
}

/// The models of a sequence of memo nodes, elementwise.
pub open(crate) spec fn memos_view(s: Seq<Memo>) -> Seq<MemoModel>
    decreases s,
{
    Seq::new(s.len(), |i: int| if 0 <= i < s.len() { memo_view(s[i]) } else { arbitrary() })
}

impl View for Memo {
    type V = MemoModel;

    open(crate) spec fn view(&self) -> MemoModel {
        memo_view(*self)
    }
}

/// The view of an optional owned string.
pub open spec fn opt_str_view(o: Option<String>) -> Option<Seq<char>> {
    match o {
        Some(s) => Some(s@),
        None => None,
    }
}

/// The models of the code blocks of a vector, elementwise.
pub open spec fn blocks_view(s: Seq<CodeBlock>) -> Seq<BlockModel> {
    s.map_values(|b: CodeBlock| b@)
}

/// Well-formedness of a memo node: every child sits strictly deeper than its
/// parent (not necessarily one level deeper), recursively.
pub open spec fn memo_wf(m: MemoModel) -> bool
    decreases m,
{
    forall|i: int|
        0 <= i < m.children.len() ==> (#[trigger] m.children[i]).level > m.level && memo_wf(
            m.children[i],
        )
}

impl Level {
    /// A level of the given depth.
    pub fn new(level: u8) -> (r: Self)
        ensures
            r@ == level,
    {
        Level(level)
    }

    /// Whether `line` starts with at least `self + 1` marker characters, the
    /// run that opens a heading of this depth.
    pub fn match_line(&self, line: &str) -> (r: bool)
        ensures
            r == marker_run_at_least(line@, self@ as nat + 1),
    {
        let need: usize = self.0 as usize + 1;
        let n: usize = line.unicode_len();
        if n < need {
            return false;
        }
        let mut i: usize = 0;
        while i < need
            invariant
                0 <= i <= need,
                need == self@ as nat + 1,
                need <= n == line@.len(),
                forall|j: int| 0 <= j < i ==> line@[j] == '#',
            decreases need - i,
        {
            if line.get_char(i) != '#' {
                return false;
            }
            i += 1;
        }
        true
    }

    /// The root depth.
    pub fn root() -> (r: Self)
        ensures
            r@ == 0,
    {
        Level(0)
    }

    /// The next depth down.
    pub fn child(&self) -> (r: Self)
        requires
            self@ < 255,
        ensures
            r@ == self@ + 1,
    {
        Level(self.0 + 1)
    }

    /// The depth as an integer.
    pub fn level(&self) -> (r: u8)
        ensures
            r == self@,
    {
        self.0
    }
}

/// Whether the first `n` characters of `s` exist and are all `#`.
pub open spec fn marker_run_at_least(s: Seq<char>, n: nat) -> bool {
    n <= s.len() && forall|j: int| 0 <= j < n ==> s[j] == '#'
}

/// Mutable accumulator for one memo node; frozen into a [`Memo`] by
/// [`MemoBuilder::build`].
pub struct MemoBuilder {
    pub(crate) level: Level,
    pub(crate) title: String,
    pub(crate) description: Option<String>,
    pub(crate) content: Option<String>,
    pub(crate) code_blocks: Vec<CodeBlock>,
    pub(crate) children: Vec<Memo>,
}

impl View for MemoBuilder {
    type V = MemoModel;

    open(crate) spec fn view(&self) -> MemoModel {
        MemoModel {
            level: self.level@,
            title: self.title@,
            description: opt_str_view(self.description),
            content: opt_str_view(self.content),
            code_blocks: blocks_view(self.code_blocks@),
            children: memos_view(self.children@),
        }
    }
}

impl MemoBuilder {
    /// A fresh node of the given level and title, with everything else empty.
    pub fn new(level: Level, title: String) -> (r: Self)
        ensures
            r@ == (MemoModel {
                level: level@,
                title: title@,
                description: None,
                content: None,
                code_blocks: Seq::empty(),
                children: Seq::empty(),
            }),
    {
        let r = MemoBuilder {
            level,
            title,
            description: None,
            content: None,
            code_blocks: Vec::new(),
            children: Vec::new(),
        };
        proof {
            assert(r@.code_blocks =~= Seq::<BlockModel>::empty());
            assert(r@.children =~= Seq::<MemoModel>::empty());
        }
        r
    }

    /// Replaces the description.
    pub fn description(self, description: String) -> (r: Self)
        ensures
            r@ == (MemoModel { description: Some(description@), ..self@ }),
    {
        MemoBuilder { description: Some(description), ..self }
    }

    /// Replaces the content.
    pub fn content(self, content: String) -> (r: Self)
        ensures
            r@ == (MemoModel { content: Some(content@), ..self@ }),
    {
        MemoBuilder { content: Some(content), ..self }
    }

    /// Appends to the content, starting from empty where none was set.
    pub fn append_content(self, additional_content: &str) -> (r: Self)
        ensures
            r@ == (MemoModel {
                content: Some(opt_seq_or_empty(self@.content) + additional_content@),
                ..self@
            }),
    {
        let MemoBuilder { level, title, description, content, code_blocks, children } = self;
        let current: String = match content {
            Some(c) => c,
            None => String::new(),
        };
        let joined = current.concat(additional_content);
        MemoBuilder { level, title, description, content: Some(joined), code_blocks, children }
    }

    /// Appends a code block.
    pub fn add_code_block(self, language: String, code: String) -> (r: Self)
        ensures
            r@ == (MemoModel {
                code_blocks: self@.code_blocks.push(
                    BlockModel { language: language@, code: code@ },
                ),
                ..self@
            }),
    {
        let MemoBuilder { level, title, description, content, mut code_blocks, children } = self;
        code_blocks.push(CodeBlock { language, code });
        let r = MemoBuilder { level, title, description, content, code_blocks, children };
        proof {
            assert(r@.code_blocks =~= self@.code_blocks.push(
                BlockModel { language: language@, code: code@ },
            ));
        }
        r
    }

    /// Appends a child node.
    pub fn add_child(self, child: Memo) -> (r: Self)
        ensures
            r@ == (MemoModel { children: self@.children.push(child@), ..self@ }),
    {
        let MemoBuilder { level, title, description, content, code_blocks, mut children } = self;
        children.push(child);
        let r = MemoBuilder { level, title, description, content, code_blocks, children };
        proof {
            assert(r@.children =~= self@.children.push(child@));
        }
        r
    }

    /// Freezes the accumulator into an immutable node with the same fields.
    pub fn build(self) -> (r: Memo)
        ensures
            r@ == self@,
    {
        let MemoBuilder { level, title, description, content, code_blocks, children } = self;
        Memo { level, title, description, content, code_blocks, children }
    }

    /// The node's level.
    pub fn level(&self) -> (r: &Level)
        ensures
            r@ == self@.level,
    {
        &self.level
    }
}

impl Memo {
    /// The node's level.
    pub fn level(&self) -> (r: &Level)
        ensures
            r@ == self@.level,
    {
        &self.level
    }

    /// The node's title.
    pub fn title(&self) -> (r: &String)
        ensures
            r@ == self@.title,
    {
        &self.title
    }

    /// The node's content, `None` only when the node was built without one.
    pub fn content(&self) -> (r: &Option<String>)
        ensures
            opt_str_view(*r) == self@.content,
    {
        &self.content
    }

    /// The node's description, `None` unless a well-formed description tag
    /// was found in its body.
    pub fn description(&self) -> (r: &Option<String>)
        ensures
            opt_str_view(*r) == self@.description,
    {
        &self.description
    }

    /// The node's code blocks, in document order.
    pub fn code_blocks(&self) -> (r: &Vec<CodeBlock>)
        ensures
            blocks_view(r@) == self@.code_blocks,
    {
        &self.code_blocks
    }

    /// The node's children, in document order.
    pub fn children(&self) -> (r: &Vec<Memo>)
        ensures
            memos_view(r@) == self@.children,
    {
        &self.children
    }
}

/// The empty sequence where no content was set.
pub open spec fn opt_seq_or_empty(o: Option<Seq<char>>) -> Seq<char> {
    match o {
        Some(s) => s,
        None => Seq::empty(),
    }
}

/// A directory listing: memo file names here, and the subdirectories that
/// hold memo files somewhere below them.
#[derive(Debug, PartialEq)]
pub struct DirectoryTree {
    pub path: String,
    pub files: Vec<String>,
    pub subdirectories: Vec<DirectoryTree>,
}

/// Whether a directory listing holds a memo file anywhere, recursively.
pub open spec fn tree_has_files(t: DirectoryTree) -> bool
    decreases t,
{
    t.files@.len() > 0 || exists|i: int|
        0 <= i < t.subdirectories@.len() && tree_has_files(#[trigger] t.subdirectories@[i])
}

/// Whether the directory tree contains any memo files, recursively.
pub fn has_fmemo_files(tree: &DirectoryTree) -> (r: bool)
    ensures
        r == tree_has_files(*tree),
    decreases *tree,
{
    if tree.files.len() > 0 {
        return true;
    }
    let mut i: usize = 0;
    while i < tree.subdirectories.len()
        invariant
            0 <= i <= tree.subdirectories@.len(),
            forall|j: int| 0 <= j < i ==> !tree_has_files(#[trigger] tree.subdirectories@[j]),
        decreases tree.subdirectories@.len() - i,
    {
        if has_fmemo_files(&tree.subdirectories[i]) {
            return true;
        }
        i += 1;
    }
    false
}

/// The memo nodes of one parsed file, with its modification time in seconds
/// where the caller knows it.
#[derive(Debug, PartialEq)]
pub struct FileContent {
    pub memos: Vec<Memo>,
    pub last_modified: Option<u64>,
}

/// A change notice for one watched file: its path and the freshly parsed
/// forest.
#[derive(Debug)]
pub struct FileChangeNotification {
    pub file_path: String,
    pub memos: Vec<Memo>,
}


/// The last index before `i` holding a dot, if any.
pub open spec fn find_dot_back(s: Seq<char>, i: nat) -> Option<nat>
    decreases i,
{
    if i == 0 || i > s.len() {
        None
    } else if s[i - 1] == '.' {
        Some((i - 1) as nat)
    } else {
        find_dot_back(s, (i - 1) as nat)
    }
}

/// The last dot is the unique dot position with no dot after it.
pub proof fn lemma_find_dot_back_is(s: Seq<char>, i: nat, k: nat)
    requires
        k < i <= s.len(),
        s[k as int] == '.',
        forall|j: int| k < j < i ==> s[j] != '.',
    ensures
        find_dot_back(s, i) == Some(k),
    decreases i,
{
    if k < i - 1 {
        lemma_find_dot_back_is(s, (i - 1) as nat, k);
    }
}

/// When nothing before `i` is a dot, there is none to find.
pub proof fn lemma_find_dot_back_none(s: Seq<char>, i: nat)
    requires
        i <= s.len(),
        forall|j: int| 0 <= j < i ==> s[j] != '.',
    ensures
        find_dot_back(s, i) is None,
    decreases i,
{
    if i > 0 {
        lemma_find_dot_back_none(s, (i - 1) as nat);
    }
}

/// A memo file name: its extension — what follows the last dot, provided
/// something other than that extension stands before the dot — names one of
/// the two memo formats.
pub open spec fn memo_file_name(s: Seq<char>) -> bool {
    match find_dot_back(s, s.len()) {
        Some(d) => d > 0 && (s.subrange(d as int + 1, s.len() as int) =~= seq![
            'f',
            'm',
            'e',
            'm',
            'o',
        ] || s.subrange(d as int + 1, s.len() as int) =~= seq!['m', 'd']),
        None => false,
    }
}

/// Whether a bare file name carries one of the two memo extensions. A name
/// that is nothing but a dotted extension, as hidden files are named, does
/// not count.
pub fn is_memo_file_name(name: &str) -> (r: bool)
    ensures
        r == memo_file_name(name@),
{
    let n: usize = name.unicode_len();
    let mut i: usize = n;
    while i > 0 && name.get_char(i - 1) != '.'
        invariant
            0 <= i <= n,
            n == name@.len(),
            forall|j: int| i <= j < n ==> name@[j] != '.',
        decreases i,
    {
        i -= 1;
    }
    if i == 0 {
        proof {
            lemma_find_dot_back_none(name@, name@.len());
        }
        return false;
    }
    let d: usize = i - 1;
    proof {
        lemma_find_dot_back_is(name@, name@.len(), d as nat);
    }
    if d == 0 {
        return false;
    }
    let ext: &str = name.substring_char(d + 1, n);
    let fmemo_hit: bool = compare_str(ext, "fmemo");
    let md_hit: bool = compare_str(ext, "md");
    proof {
        reveal_strlit("fmemo");
        reveal_strlit("md");
        assert("fmemo"@ =~= seq!['f', 'm', 'e', 'm', 'o']);
        assert("md"@ =~= seq!['m', 'd']);
    }
    fmemo_hit || md_hit
}

/// Character-for-character equality of two borrowed strings.
fn compare_str(a: &str, b: &str) -> (r: bool)
    ensures
        r == (a@ == b@),
{
    let n: usize = a.unicode_len();
    let m: usize = b.unicode_len();
    if n != m {
        proof {
            assert(a@.len() != b@.len());
        }
        return false;
    }
    let mut i: usize = 0;
    while i < n
        invariant
            0 <= i <= n,
            n == a@.len(),
            n == b@.len(),
            forall|j: int| 0 <= j < i ==> a@[j] == b@[j],
        decreases n - i,
    {
        if a.get_char(i) != b.get_char(i) {
            return false;
        }
        i += 1;
    }
    proof {
        assert(a@ =~= b@);
    }
    true
}

} // verus!
