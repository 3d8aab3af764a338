//! The diff engine and the status resolver: line-level hunks between two
//! text versions, unified-diff rendering, the staging façade, and the
//! three-way classification of working-tree files.

use vstd::prelude::*;
use vstd::string::{StrSliceExecFns, StringExecFns};
use vstd::utf8::encode_utf8;

use crate::cogit::{dec_tree, parse_commit, parse_tree, CogitRepository, TreeEntry, TreeEntryV,
    WorkFile};
use crate::errors::CogitError;
use crate::hashing::sha256_hex_of;
use crate::staging::{StagingArea, StagingEntryV};
use crate::text::{append_decimal, chars_to_string, spec_decimal, str_eq};

verus! {

// ---------------------------------------------------------------------------
// Data model
// ---------------------------------------------------------------------------
/// What happened to one line.
#[derive(Clone, Copy, Debug, PartialEq, Eq, Structural)]
pub enum LineChangeType {
    /// The line is new.
    Added,
    /// The line is gone.
    Removed,
    /// The line is unchanged context.
    Context,
}

/// One line of a diff.
#[derive(Debug)]
pub struct DiffLine {
    pub line_number: usize,
    pub content: String,
    pub change_type: LineChangeType,
}

/// The mathematical image of a diff line.
pub struct DiffLineV {
    pub line_number: int,
    pub content: Seq<char>,
    pub change_type: LineChangeType,
}

impl View for DiffLine {
    type V = DiffLineV;

    open spec fn view(&self) -> DiffLineV {
        DiffLineV {
            line_number: self.line_number as int,
            content: self.content@,
            change_type: self.change_type,
        }
    }
}

impl DeepView for DiffLine {
    type V = DiffLineV;

    open spec fn deep_view(&self) -> DiffLineV {
        self@
    }
}

/// One contiguous block of added, removed and context lines.
#[derive(Debug)]
pub struct DiffHunk {
    pub old_start: usize,
    pub old_count: usize,
    pub new_start: usize,
    pub new_count: usize,
    pub lines: Vec<DiffLine>,
}

/// The mathematical image of a hunk.
pub struct DiffHunkV {
    pub old_start: int,
    pub old_count: int,
    pub new_start: int,
    pub new_count: int,
    pub lines: Seq<DiffLineV>,
}

impl View for DiffHunk {
    type V = DiffHunkV;

    open spec fn view(&self) -> DiffHunkV {
        DiffHunkV {
            old_start: self.old_start as int,
            old_count: self.old_count as int,
            new_start: self.new_start as int,
            new_count: self.new_count as int,
            lines: self.lines.deep_view(),
        }
    }
}

impl DeepView for DiffHunk {
    type V = DiffHunkV;

    open spec fn deep_view(&self) -> DiffHunkV {
        self@
    }
}

/// What happened to one file.
#[derive(Clone, Copy, Debug, PartialEq, Eq, Structural)]
pub enum FileChangeType {
    /// The file is new.
    Added,
    /// The file changed.
    Modified,
    /// The file is gone.
    Deleted,
    /// The file moved; tracking renames is left open.
    Renamed,
}

/// A complete diff of one file.
#[derive(Debug)]
pub struct FileDiff {
    pub file_path: String,
    pub old_hash: Option<String>,
    pub new_hash: String,
    pub change_type: FileChangeType,
    pub hunks: Vec<DiffHunk>,
    pub patch_content: String,
    pub created_at: i64,
}

/// How a working-tree file relates to the staging area and the head commit.
#[derive(Clone, Copy, Debug, PartialEq, Eq, Structural)]
pub enum WorkingTreeStatus {
    /// Tracked nowhere.
    Untracked,
    /// Changed since it was staged or committed.
    Modified,
    /// Staged with exactly its current content.
    Staged,
    /// Gone from the working tree; no classification rule produces it yet.
    Deleted,
    /// Identical to the head commit's version.
    Unchanged,
}

/// One working-tree file with the three hashes its classification reads.
#[derive(Debug)]
pub struct FileStatus {
    pub file_path: String,
    pub working_tree_hash: Option<String>,
    pub index_hash: Option<String>,
    pub head_hash: Option<String>,
    pub status: WorkingTreeStatus,
}

/// The mathematical image of a file status.
pub struct FileStatusV {
    pub file_path: Seq<char>,
    pub working_tree_hash: Option<Seq<char>>,
    pub index_hash: Option<Seq<char>>,
    pub head_hash: Option<Seq<char>>,
    pub status: WorkingTreeStatus,
}

impl View for FileStatus {
    type V = FileStatusV;

    open spec fn view(&self) -> FileStatusV {
        FileStatusV {
            file_path: self.file_path@,
            working_tree_hash: self.working_tree_hash.deep_view(),
            index_hash: self.index_hash.deep_view(),
            head_hash: self.head_hash.deep_view(),
            status: self.status,
        }
    }
}

impl DeepView for FileStatus {
    type V = FileStatusV;

    open spec fn deep_view(&self) -> FileStatusV {
        self@
    }
}

// ---------------------------------------------------------------------------
// Status classification
// ---------------------------------------------------------------------------
/// The classification of one path from its three optional hashes, in order:
/// staged and equal to the working copy; staged and different (or the
/// working copy absent); unstaged, committed and equal; unstaged, committed
/// and different; known nowhere.
pub open spec fn spec_classify(
    staged: Option<Seq<char>>,
    head: Option<Seq<char>>,
    working: Option<Seq<char>>,
) -> WorkingTreeStatus {
    match staged {
        Some(s) => if working is Some && s == working->0 {
            WorkingTreeStatus::Staged
        } else {
            WorkingTreeStatus::Modified
        },
        None => match head {
            Some(h) => if working is Some && h == working->0 {
                WorkingTreeStatus::Unchanged
            } else {
                WorkingTreeStatus::Modified
            },
            None => WorkingTreeStatus::Untracked,
        },
    }
}

/// Classifies one path. The result is a pure function of the three optional
/// hash inputs and of nothing else.
pub fn classify(
    staged: Option<&String>,
    head: Option<&String>,
    working: Option<&String>,
) -> (r: WorkingTreeStatus)
    ensures
        r == spec_classify(
            match staged {
                Option::Some(s) => Option::Some(s@),
                Option::None => Option::None,
            },
            match head {
                Option::Some(h) => Option::Some(h@),
                Option::None => Option::None,
            },
            match working {
                Option::Some(w) => Option::Some(w@),
                Option::None => Option::None,
            },
        ),
{
    match staged {
        Some(s) => match working {
            Some(w) => {
                if *s == *w {
                    WorkingTreeStatus::Staged
                } else {
                    WorkingTreeStatus::Modified
                }
            },
            None => WorkingTreeStatus::Modified,
        },
        None => match head {
            Some(h) => match working {
                Some(w) => {
                    if *h == *w {
                        WorkingTreeStatus::Unchanged
                    } else {
                        WorkingTreeStatus::Modified
                    }
                },
                None => WorkingTreeStatus::Modified,
            },
            None => WorkingTreeStatus::Untracked,
        },
    }
}

// ---------------------------------------------------------------------------
// Line splitting
// ---------------------------------------------------------------------------
/// Drops one trailing carriage return: the line body of a `\r\n` ending.
pub open spec fn strip_cr(l: Seq<char>) -> Seq<char> {
    if l.len() > 0 && l.last() == '\r' {
        l.drop_last()
    } else {
        l
    }
}

/// The position of the first line feed, or the length when there is none.
pub open spec fn first_nl(s: Seq<char>) -> nat
    decreases s.len(),
{
    if s.len() == 0 {
        0
    } else if s[0] == '\n' {
        0
    } else {
        1 + first_nl(s.skip(1))
    }
}

/// `first_nl` names the first line feed: nothing before it is one, and it is
/// one unless it is the length.
pub proof fn lemma_first_nl(s: Seq<char>)
    ensures
        first_nl(s) <= s.len(),
        forall|k: int| 0 <= k < first_nl(s) ==> s[k] != '\n',
        first_nl(s) < s.len() ==> s[first_nl(s) as int] == '\n',
    decreases s.len(),
{
    if s.len() > 0 && s[0] != '\n' {
        lemma_first_nl(s.skip(1));
        assert(forall|k: int| 0 <= k < s.skip(1).len() ==> #[trigger] s.skip(1)[k] == s[k + 1]);
        assert forall|k: int| 0 <= k < first_nl(s) implies s[k] != '\n' by {
            if k > 0 {
                assert(s.skip(1)[k - 1] != '\n');
            }
        }
        if first_nl(s) < s.len() {
            assert(s.skip(1)[first_nl(s.skip(1)) as int] == '\n');
        }
    }
}

/// The lines of a text: split at line feeds, with a carriage return before a
/// line feed dropped, and no final empty line after a trailing line feed.
pub open spec fn spec_lines(s: Seq<char>) -> Seq<Seq<char>>
    decreases s.len(),
{
    if s.len() == 0 {
        Seq::empty()
    } else {
        let i = first_nl(s);
        if i >= s.len() {
            seq![s]
        } else {
            seq![strip_cr(s.subrange(0, i as int))] + spec_lines(
                s.subrange(i as int + 1, s.len() as int),
            )
        }
    }
}

/// Splits a text into its lines.
pub fn split_lines(s: &str) -> (r: Vec<String>)
    ensures
        r.deep_view() == spec_lines(s@),
{
    let n = s.unicode_len();
    let mut lines: Vec<String> = Vec::new();
    let mut pos: usize = 0;
    proof {
        assert(s@.subrange(0, n as int) =~= s@);
        assert(lines.deep_view() =~= Seq::<Seq<char>>::empty());
        assert(lines.deep_view() + spec_lines(s@) =~= spec_lines(s@));
    }
    while pos < n
        invariant
            n == s@.len(),
            pos <= n,
            lines.deep_view() + spec_lines(s@.subrange(pos as int, n as int)) == spec_lines(s@),
        decreases n - pos,
    {
        let mut j: usize = pos;
        while j < n && s.get_char(j) != '\n'
            invariant
                n == s@.len(),
                pos <= j <= n,
                forall|k: int| pos <= k < j ==> s@[k] != '\n',
            decreases n - j,
        {
            j = j + 1;
        }
        let terminated = j < n;
        let end: usize = if terminated && j > pos && s.get_char(j - 1) == '\r' {
            j - 1
        } else {
            j
        };
        let mut cs: Vec<char> = Vec::new();
        let mut k: usize = pos;
        proof {
            assert(cs@ =~= s@.subrange(pos as int, pos as int));
        }
        while k < end
            invariant
                n == s@.len(),
                pos <= k <= end <= n,
                cs@ == s@.subrange(pos as int, k as int),
            decreases end - k,
        {
            cs.push(s.get_char(k));
            k = k + 1;
            proof {
                assert(cs@ =~= s@.subrange(pos as int, k as int));
            }
        }
        let line = chars_to_string(&cs);
        let ghost t = s@.subrange(pos as int, n as int);
        proof {
            lemma_first_nl(t);
            assert(forall|k: int| 0 <= k < t.len() ==> t[k] == s@[pos + k]);
            assert(first_nl(t) == j - pos) by {
                if first_nl(t) < j - pos {
                    assert(t[first_nl(t) as int] == '\n');
                } else if first_nl(t) > j - pos {
                    assert(j < n);
                    assert(t[j - pos] == '\n');
                }
            }
        }
        let ghost old_lines = lines.deep_view();
        lines.push(line);
        if terminated {
            proof {
                assert(t.subrange(0, j - pos) =~= s@.subrange(pos as int, j as int));
                assert(strip_cr(s@.subrange(pos as int, j as int)) =~= s@.subrange(
                    pos as int,
                    end as int,
                )) by {
                    if j > pos && s@[j - 1] == '\r' {
                        assert(s@.subrange(pos as int, j as int).drop_last() =~= s@.subrange(
                            pos as int,
                            j - 1,
                        ));
                    }
                }
                assert(line@ == s@.subrange(pos as int, end as int));
                assert(t.subrange(j - pos + 1, t.len() as int) =~= s@.subrange(
                    j + 1 as int,
                    n as int,
                ));
                assert(spec_lines(t) == seq![strip_cr(t.subrange(0, j - pos))] + spec_lines(
                    s@.subrange(j + 1 as int, n as int),
                ));
                assert(lines.deep_view() =~= old_lines.push(line@));
                assert(lines.deep_view() + spec_lines(s@.subrange(j + 1 as int, n as int))
                    =~= old_lines + spec_lines(t));
            }
            pos = j + 1;
        } else {
            proof {
                assert(end == n);
                assert(line@ == t);
                assert(spec_lines(t) == seq![t]);
                assert(lines.deep_view() =~= old_lines.push(line@));
                assert(s@.subrange(n as int, n as int) =~= Seq::<char>::empty());
                assert(lines.deep_view() + spec_lines(s@.subrange(n as int, n as int))
                    =~= old_lines + spec_lines(t));
            }
            pos = n;
        }
    }
    proof {
        assert(s@.subrange(n as int, n as int) =~= Seq::<char>::empty());
        assert(lines.deep_view() + Seq::<Seq<char>>::empty() =~= lines.deep_view());
    }
    lines
}

// ---------------------------------------------------------------------------
// Hunk computation
// ---------------------------------------------------------------------------
/// The diff walk from cursors `oi` and `ni`: equal lines become context and
/// both cursors advance; a mismatch becomes one removed and one added line
/// and both advance; an exhausted side flushes the rest of the other as all
/// removed or all added. Line numbers count from one on each side.
pub open spec fn spec_diff_lines(
    ol: Seq<Seq<char>>,
    nl: Seq<Seq<char>>,
    oi: int,
    ni: int,
) -> Seq<DiffLineV>
    recommends
        0 <= oi <= ol.len(),
        0 <= ni <= nl.len(),
    decreases ol.len() - oi + nl.len() - ni,
{
    if oi < 0 || ni < 0 || oi > ol.len() || ni > nl.len() {
        Seq::empty()
    } else if oi < ol.len() && ni < nl.len() {
        if ol[oi] == nl[ni] {
            seq![
                DiffLineV {
                    line_number: oi + 1,
                    content: ol[oi],
                    change_type: LineChangeType::Context,
                },
            ] + spec_diff_lines(ol, nl, oi + 1, ni + 1)
        } else {
            seq![
                DiffLineV {
                    line_number: oi + 1,
                    content: ol[oi],
                    change_type: LineChangeType::Removed,
                },
                DiffLineV { line_number: ni + 1, content: nl[ni], change_type: LineChangeType::Added },
            ] + spec_diff_lines(ol, nl, oi + 1, ni + 1)
        }
    } else if oi < ol.len() {
        seq![
            DiffLineV { line_number: oi + 1, content: ol[oi], change_type: LineChangeType::Removed },
        ] + spec_diff_lines(ol, nl, oi + 1, ni)
    } else if ni < nl.len() {
        seq![
            DiffLineV { line_number: ni + 1, content: nl[ni], change_type: LineChangeType::Added },
        ] + spec_diff_lines(ol, nl, oi, ni + 1)
    } else {
        Seq::empty()
    }
}

/// The hunks of a diff between two texts: none when the walk emits nothing,
/// otherwise exactly one hunk that starts at line one on both sides and
/// spans all lines of both.
pub open spec fn spec_hunks(ol: Seq<Seq<char>>, nl: Seq<Seq<char>>) -> Seq<DiffHunkV> {
    let body = spec_diff_lines(ol, nl, 0, 0);
    if body.len() == 0 {
        Seq::empty()
    } else {
        seq![
            DiffHunkV {
                old_start: 1,
                old_count: ol.len() as int,
                new_start: 1,
                new_count: nl.len() as int,
                lines: body,
            },
        ]
    }
}

/// The all-added lines of a brand-new file.
pub open spec fn spec_addition_lines(nl: Seq<Seq<char>>) -> Seq<DiffLineV> {
    Seq::new(
        nl.len(),
        |i: int| DiffLineV { line_number: i + 1, content: nl[i], change_type: LineChangeType::Added },
    )
}

/// The single hunk of a brand-new file: no old lines, every new line added.
pub open spec fn spec_addition_hunk(nl: Seq<Seq<char>>) -> DiffHunkV {
    DiffHunkV {
        old_start: 0,
        old_count: 0,
        new_start: 1,
        new_count: nl.len() as int,
        lines: spec_addition_lines(nl),
    }
}

/// The diff engine: line-level comparison and patch rendering.
pub struct DiffEngine {}

impl DiffEngine {
    /// A new diff engine.
    pub fn new() -> (r: DiffEngine) {
        DiffEngine {  }
    }

    /// Computes the hunks between two text versions by the lockstep walk.
    pub fn calculate_hunks(&self, old_content: &str, new_content: &str) -> (r: Result<
        Vec<DiffHunk>,
        CogitError,
    >)
        ensures
            r is Ok,
            (r->Ok_0).deep_view() == spec_hunks(spec_lines(old_content@), spec_lines(new_content@)),
    {
        let old_lines = split_lines(old_content);
        let new_lines = split_lines(new_content);
        let ghost ol = old_lines.deep_view();
        let ghost nl = new_lines.deep_view();
        let on = old_lines.len();
        let nn = new_lines.len();
        let mut body: Vec<DiffLine> = Vec::new();
        let mut oi: usize = 0;
        let mut ni: usize = 0;
        proof {
            assert(body.deep_view() =~= Seq::<DiffLineV>::empty());
            assert(body.deep_view() + spec_diff_lines(ol, nl, 0, 0) =~= spec_diff_lines(
                ol,
                nl,
                0,
                0,
            ));
        }
        while oi < on || ni < nn
            invariant
                on == ol.len(),
                nn == nl.len(),
                ol == old_lines.deep_view(),
                nl == new_lines.deep_view(),
                oi <= on,
                ni <= nn,
                body.deep_view() + spec_diff_lines(ol, nl, oi as int, ni as int) == spec_diff_lines(
                    ol,
                    nl,
                    0,
                    0,
                ),
            decreases on - oi + nn - ni,
        {
            let ghost body0 = body.deep_view();
            let ghost oi0 = oi as int;
            let ghost ni0 = ni as int;
            if oi < on && ni < nn {
                if old_lines[oi] == new_lines[ni] {
                    body.push(
                        DiffLine {
                            line_number: oi + 1,
                            content: old_lines[oi].clone(),
                            change_type: LineChangeType::Context,
                        },
                    );
                    oi = oi + 1;
                    ni = ni + 1;
                    proof {
                        assert(body.deep_view() =~= body0.push(
                            DiffLineV {
                                line_number: oi0 + 1,
                                content: ol[oi0],
                                change_type: LineChangeType::Context,
                            },
                        ));
                        assert(body.deep_view() + spec_diff_lines(ol, nl, oi0 + 1, ni0 + 1)
                            =~= body0 + spec_diff_lines(ol, nl, oi0, ni0));
                    }
                } else {
                    body.push(
                        DiffLine {
                            line_number: oi + 1,
                            content: old_lines[oi].clone(),
                            change_type: LineChangeType::Removed,
                        },
                    );
                    body.push(
                        DiffLine {
                            line_number: ni + 1,
                            content: new_lines[ni].clone(),
                            change_type: LineChangeType::Added,
                        },
                    );
                    oi = oi + 1;
                    ni = ni + 1;
                    proof {
                        assert(body.deep_view() =~= body0.push(
                            DiffLineV {
                                line_number: oi0 + 1,
                                content: ol[oi0],
                                change_type: LineChangeType::Removed,
                            },
                        ).push(
                            DiffLineV {
                                line_number: ni0 + 1,
                                content: nl[ni0],
                                change_type: LineChangeType::Added,
                            },
                        ));
                        assert(body.deep_view() + spec_diff_lines(ol, nl, oi0 + 1, ni0 + 1)
                            =~= body0 + spec_diff_lines(ol, nl, oi0, ni0));
                    }
                }
            } else if oi < on {
                body.push(
                    DiffLine {
                        line_number: oi + 1,
                        content: old_lines[oi].clone(),
                        change_type: LineChangeType::Removed,
                    },
                );
                oi = oi + 1;
                proof {
                    assert(body.deep_view() =~= body0.push(
                        DiffLineV {
                            line_number: oi0 + 1,
                            content: ol[oi0],
                            change_type: LineChangeType::Removed,
                        },
                    ));
                    assert(body.deep_view() + spec_diff_lines(ol, nl, oi0 + 1, ni0) =~= body0
                        + spec_diff_lines(ol, nl, oi0, ni0));
                }
            } else {
                body.push(
                    DiffLine {
                        line_number: ni + 1,
                        content: new_lines[ni].clone(),
                        change_type: LineChangeType::Added,
                    },
                );
                ni = ni + 1;
                proof {
                    assert(body.deep_view() =~= body0.push(
                        DiffLineV {
                            line_number: ni0 + 1,
                            content: nl[ni0],
                            change_type: LineChangeType::Added,
                        },
                    ));
                    assert(body.deep_view() + spec_diff_lines(ol, nl, oi0, ni0 + 1) =~= body0
                        + spec_diff_lines(ol, nl, oi0, ni0));
                }
            }
        }
        proof {
            assert(spec_diff_lines(ol, nl, on as int, nn as int) =~= Seq::<DiffLineV>::empty());
            assert(body.deep_view() + Seq::<DiffLineV>::empty() =~= body.deep_view());
        }
        if body.len() == 0 {
            let hunks: Vec<DiffHunk> = Vec::new();
            proof {
                assert(hunks.deep_view() =~= spec_hunks(ol, nl));
            }
            Ok(hunks)
        } else {
            let mut hunks: Vec<DiffHunk> = Vec::new();
            hunks.push(
                DiffHunk { old_start: 1, old_count: on, new_start: 1, new_count: nn, lines: body },
            );
            proof {
                assert(hunks.deep_view() =~= spec_hunks(ol, nl));
            }
            Ok(hunks)
        }
    }

    /// The hunk for a brand-new file: every line of the content, added.
    pub fn create_addition_hunk(&self, content: &str) -> (r: DiffHunk)
        ensures
            r@ == spec_addition_hunk(spec_lines(content@)),
    {
        let lines = split_lines(content);
        let ghost nl = lines.deep_view();
        let count = lines.len();
        let mut diff_lines: Vec<DiffLine> = Vec::new();
        for i in 0..count
            invariant
                count == nl.len(),
                nl == lines.deep_view(),
                diff_lines.deep_view() == spec_addition_lines(nl).subrange(0, i as int),
            decreases count - i,
        {
            let ghost before = diff_lines.deep_view();
            diff_lines.push(
                DiffLine {
                    line_number: i + 1,
                    content: lines[i].clone(),
                    change_type: LineChangeType::Added,
                },
            );
            proof {
                assert(spec_addition_lines(nl)[i as int] == DiffLineV {
                    line_number: i + 1,
                    content: nl[i as int],
                    change_type: LineChangeType::Added,
                });
                assert(spec_addition_lines(nl).subrange(0, i + 1) =~= spec_addition_lines(
                    nl,
                ).subrange(0, i as int).push(spec_addition_lines(nl)[i as int]));
                assert(diff_lines.deep_view() =~= before.push(spec_addition_lines(nl)[i as int]));
            }
        }
        let r = DiffHunk {
            old_start: 0,
            old_count: 0,
            new_start: 1,
            new_count: count,
            lines: diff_lines,
        };
        proof {
            assert(spec_addition_lines(nl).subrange(0, count as int) =~= spec_addition_lines(nl));
            assert(r@.lines =~= spec_addition_lines(nl));
        }
        r
    }

    /// Renders hunks as a unified-diff patch for one file.
    pub fn generate_patch_content(&self, hunks: &Vec<DiffHunk>, file_path: &str) -> (r: Result<
        String,
        CogitError,
    >)
        ensures
            r is Ok,
            (r->Ok_0)@ == spec_patch(hunks.deep_view(), file_path@),
    {
        let mut patch = String::new();
        proof {
            reveal_strlit("--- a/");
            reveal_strlit("+++ b/");
            reveal_strlit("\n");
            reveal_strlit("@@ -");
            reveal_strlit(",");
            reveal_strlit(" +");
            reveal_strlit(" @@\n");
            reveal_strlit("+");
            reveal_strlit("-");
            reveal_strlit(" ");
        }
        patch.append("--- a/");
        patch.append(file_path);
        patch.append("\n");
        patch.append("+++ b/");
        patch.append(file_path);
        patch.append("\n");
        let ghost header = patch@;
        let ghost hv = hunks.deep_view();
        let n = hunks.len();
        for i in 0..n
            invariant
                n == hv.len(),
                hv == hunks.deep_view(),
                patch@ == header + spec_hunks_text(hv.subrange(0, i as int)),
            decreases n - i,
        {
            append_hunk(&mut patch, &hunks[i]);
            proof {
                assert(hv.subrange(0, i + 1) =~= hv.subrange(0, i as int).push(hv[i as int]));
                lemma_hunks_text_snoc(hv.subrange(0, i as int), hv[i as int]);
                assert(patch@ =~= header + spec_hunks_text(hv.subrange(0, i + 1)));
            }
        }
        proof {
            assert(hv.subrange(0, n as int) =~= hv);
        }
        Ok(patch)
    }
}

/// Appends one diff line, with its marker and a line feed.
fn append_patch_line(patch: &mut String, l: &DiffLine)
    ensures
        final(patch)@ == old(patch)@ + spec_patch_line(l@),
{
    proof {
        reveal_strlit("+");
        reveal_strlit("-");
        reveal_strlit(" ");
        reveal_strlit("\n");
    }
    match l.change_type {
        LineChangeType::Added => patch.append("+"),
        LineChangeType::Removed => patch.append("-"),
        LineChangeType::Context => patch.append(" "),
    }
    patch.append(l.content.as_str());
    patch.append("\n");
    proof {
        assert(patch@ =~= old(patch)@ + spec_patch_line(l@));
    }
}

/// Appends one whole hunk: its header line, then its lines.
fn append_hunk(patch: &mut String, h: &DiffHunk)
    ensures
        final(patch)@ == old(patch)@ + spec_hunk_text(h@),
{
    proof {
        reveal_strlit("@@ -");
        reveal_strlit(",");
        reveal_strlit(" +");
        reveal_strlit(" @@\n");
    }
    patch.append("@@ -");
    append_decimal(patch, h.old_start as u64);
    patch.append(",");
    append_decimal(patch, h.old_count as u64);
    patch.append(" +");
    append_decimal(patch, h.new_start as u64);
    patch.append(",");
    append_decimal(patch, h.new_count as u64);
    patch.append(" @@\n");
    let ghost after_header = patch@;
    proof {
        assert(after_header =~= old(patch)@ + spec_hunk_header(h@));
    }
    let m = h.lines.len();
    let ghost lv = h.lines.deep_view();
    for k in 0..m
        invariant
            m == lv.len(),
            lv == h.lines.deep_view(),
            patch@ == after_header + spec_patch_lines_prefix(lv, k as int),
        decreases m - k,
    {
        append_patch_line(patch, &h.lines[k]);
        proof {
            lemma_patch_lines_prefix_snoc(lv, k as int);
            assert(patch@ =~= after_header + spec_patch_lines_prefix(lv, k + 1));
        }
    }
    proof {
        lemma_patch_lines_prefix_full(lv);
        assert(patch@ =~= old(patch)@ + spec_hunk_text(h@));
    }
}

// ---------------------------------------------------------------------------
// Patch rendering
// ---------------------------------------------------------------------------
/// The one-character marker of a diff line.
pub open spec fn line_prefix(t: LineChangeType) -> Seq<char> {
    match t {
        LineChangeType::Added => "+"@,
        LineChangeType::Removed => "-"@,
        LineChangeType::Context => " "@,
    }
}

/// One rendered diff line: marker, content, line feed.
pub open spec fn spec_patch_line(l: DiffLineV) -> Seq<char> {
    line_prefix(l.change_type) + l.content + "\n"@
}

/// The first `k` diff lines, rendered.
pub open spec fn spec_patch_lines_prefix(ls: Seq<DiffLineV>, k: int) -> Seq<char>
    decreases k,
{
    if k <= 0 {
        Seq::empty()
    } else {
        spec_patch_lines_prefix(ls, k - 1) + spec_patch_line(ls[k - 1])
    }
}

/// One more rendered line extends the prefix by that line.
proof fn lemma_patch_lines_prefix_snoc(ls: Seq<DiffLineV>, k: int)
    requires
        0 <= k,
    ensures
        spec_patch_lines_prefix(ls, k + 1) == spec_patch_lines_prefix(ls, k) + spec_patch_line(
            ls[k],
        ),
{
}

/// The full rendering is the prefix of all lines.
proof fn lemma_patch_lines_prefix_full(ls: Seq<DiffLineV>)
    ensures
        spec_patch_lines(ls) == spec_patch_lines_prefix(ls, ls.len() as int),
    decreases ls.len(),
{
    if ls.len() > 0 {
        lemma_patch_lines_prefix_full(ls.drop_last());
        lemma_patch_lines_eq(ls);
    }
}

/// Rendering all lines equals rendering all but the last, then the last.
proof fn lemma_patch_lines_eq(ls: Seq<DiffLineV>)
    requires
        ls.len() > 0,
    ensures
        spec_patch_lines(ls) == spec_patch_lines(ls.drop_last()) + spec_patch_line(ls.last()),
        spec_patch_lines_prefix(ls, ls.len() as int) == spec_patch_lines_prefix(
            ls.drop_last(),
            ls.len() - 1,
        ) + spec_patch_line(ls.last()),
    decreases ls.len(),
{
    if ls.len() == 1 {
        assert(ls.drop_last() =~= Seq::<DiffLineV>::empty());
        assert(spec_patch_lines(ls.skip(1)) == Seq::<char>::empty()) by {
            assert(ls.skip(1) =~= Seq::<DiffLineV>::empty());
        }
        assert(spec_patch_lines(ls) =~= spec_patch_lines(ls.drop_last()) + spec_patch_line(
            ls.last(),
        ));
        assert(spec_patch_lines_prefix(ls, 0) == Seq::<char>::empty());
        assert(spec_patch_lines_prefix(ls.drop_last(), 0) == Seq::<char>::empty());
        assert(spec_patch_lines_prefix(ls, 1) =~= spec_patch_lines_prefix(ls.drop_last(), 0)
            + spec_patch_line(ls.last()));
    } else {
        let tail = ls.skip(1);
        lemma_patch_lines_eq(tail);
        assert(tail.drop_last() =~= ls.drop_last().skip(1));
        assert(tail.last() == ls.last());
        assert(ls.drop_last()[0] == ls[0]);
        assert(spec_patch_lines(ls) == spec_patch_line(ls[0]) + spec_patch_lines(tail));
        assert(spec_patch_lines(ls.drop_last()) == spec_patch_line(ls[0]) + spec_patch_lines(
            tail.drop_last(),
        ));
        assert(spec_patch_lines(ls) =~= spec_patch_lines(ls.drop_last()) + spec_patch_line(
            ls.last(),
        ));
        lemma_prefix_index_shift(ls);
        assert(spec_patch_lines_prefix(ls, ls.len() as int) =~= spec_patch_lines_prefix(
            ls.drop_last(),
            ls.len() - 1,
        ) + spec_patch_line(ls.last()));
    }
}

/// A rendering prefix never reads past its bound, so dropping the last line
/// leaves every shorter prefix unchanged.
proof fn lemma_prefix_index_shift(ls: Seq<DiffLineV>)
    requires
        ls.len() > 0,
    ensures
        forall|k: int|
            0 <= k <= ls.len() - 1 ==> spec_patch_lines_prefix(ls, k) == #[trigger]
            spec_patch_lines_prefix(ls.drop_last(), k),
{
    assert forall|k: int| 0 <= k <= ls.len() - 1 implies spec_patch_lines_prefix(ls, k)
        == #[trigger] spec_patch_lines_prefix(ls.drop_last(), k) by {
        lemma_prefix_index_shift_one(ls, k);
    }
}

/// The prefix of `k` lines agrees between a list and the list without its
/// last element, for `k` within both.
proof fn lemma_prefix_index_shift_one(ls: Seq<DiffLineV>, k: int)
    requires
        ls.len() > 0,
        0 <= k <= ls.len() - 1,
    ensures
        spec_patch_lines_prefix(ls, k) == spec_patch_lines_prefix(ls.drop_last(), k),
    decreases k,
{
    if k > 0 {
        lemma_prefix_index_shift_one(ls, k - 1);
        assert(ls.drop_last()[k - 1] == ls[k - 1]);
    }
}

/// All diff lines of a hunk, rendered in order.
pub open spec fn spec_patch_lines(ls: Seq<DiffLineV>) -> Seq<char>
    decreases ls.len(),
{
    if ls.len() == 0 {
        Seq::empty()
    } else {
        spec_patch_line(ls[0]) + spec_patch_lines(ls.skip(1))
    }
}

/// A hunk's header line: the old and new start and count.
pub open spec fn spec_hunk_header(h: DiffHunkV) -> Seq<char> {
    "@@ -"@ + spec_decimal(h.old_start as nat) + ","@ + spec_decimal(h.old_count as nat) + " +"@
        + spec_decimal(h.new_start as nat) + ","@ + spec_decimal(h.new_count as nat) + " @@\n"@
}

/// A whole rendered hunk: its header, then its lines.
pub open spec fn spec_hunk_text(h: DiffHunkV) -> Seq<char> {
    spec_hunk_header(h) + spec_patch_lines(h.lines)
}

/// All hunks, rendered in order.
pub open spec fn spec_hunks_text(hs: Seq<DiffHunkV>) -> Seq<char>
    decreases hs.len(),
{
    if hs.len() == 0 {
        Seq::empty()
    } else {
        spec_hunks_text(hs.drop_last()) + spec_hunk_text(hs.last())
    }
}

/// One more rendered hunk extends the rendering by that hunk.
proof fn lemma_hunks_text_snoc(hs: Seq<DiffHunkV>, h: DiffHunkV)
    ensures
        spec_hunks_text(hs.push(h)) == spec_hunks_text(hs) + spec_hunk_text(h),
{
    assert(hs.push(h).drop_last() =~= hs);
    assert(hs.push(h).last() == h);
}

/// The full unified-diff text for one file: the two file headers, then the
/// rendered hunks.
pub open spec fn spec_patch(hs: Seq<DiffHunkV>, path: Seq<char>) -> Seq<char> {
    "--- a/"@ + path + "\n"@ + "+++ b/"@ + path + "\n"@ + spec_hunks_text(hs)
}

// ---------------------------------------------------------------------------
// File diffs
// ---------------------------------------------------------------------------
impl DiffEngine {
    /// The diff between two versions of a file: an all-added hunk for a new
    /// file, the lockstep hunks for a changed one, with the rendered patch;
    /// fails with `NoChangesToCommit` exactly when the versions are equal.
    pub fn calculate_file_diff(
        &self,
        file_path: &str,
        old_content: Option<&str>,
        new_content: &str,
        now: i64,
    ) -> (r: Result<FileDiff, CogitError>)
        ensures
            (r is Err <==> match old_content {
                Option::Some(o) => o@ == new_content@,
                Option::None => false,
            }),
            match r {
                Ok(fd) => {
                    &&& fd.file_path@ == file_path@
                    &&& fd.created_at == now
                    &&& fd.new_hash@ == sha256_hex_of(encode_utf8(new_content@))
                    &&& match old_content {
                        Option::None => {
                            &&& fd.old_hash is None
                            &&& fd.change_type == FileChangeType::Added
                            &&& fd.hunks.deep_view() == seq![
                                spec_addition_hunk(spec_lines(new_content@)),
                            ]
                        },
                        Option::Some(o) => {
                            &&& fd.old_hash.deep_view() == Option::Some(
                                sha256_hex_of(encode_utf8(o@)),
                            )
                            &&& fd.change_type == FileChangeType::Modified
                            &&& fd.hunks.deep_view() == spec_hunks(
                                spec_lines(o@),
                                spec_lines(new_content@),
                            )
                        },
                    }
                    &&& fd.patch_content@ == spec_patch(fd.hunks.deep_view(), file_path@)
                },
                Err(e) => e == CogitError::NoChangesToCommit,
            },
    {
        let new_hash = CogitRepository::calculate_hash(new_content.as_bytes());
        match old_content {
            Some(o) => {
                if str_eq(o, new_content) {
                    return Err(CogitError::NoChangesToCommit);
                }
                let old_hash = CogitRepository::calculate_hash(o.as_bytes());
                let hunks = match self.calculate_hunks(o, new_content) {
                    Err(_) => {
                        proof {
                            assert(false);
                        }
                        return Err(CogitError::NoChangesToCommit);
                    },
                    Ok(h) => h,
                };
                let patch_content = match self.generate_patch_content(&hunks, file_path) {
                    Err(_) => {
                        proof {
                            assert(false);
                        }
                        return Err(CogitError::NoChangesToCommit);
                    },
                    Ok(p) => p,
                };
                Ok(
                    FileDiff {
                        file_path: file_path.to_owned(),
                        old_hash: Some(old_hash),
                        new_hash,
                        change_type: FileChangeType::Modified,
                        hunks,
                        patch_content,
                        created_at: now,
                    },
                )
            },
            None => {
                let hunk = self.create_addition_hunk(new_content);
                let mut hunks: Vec<DiffHunk> = Vec::new();
                hunks.push(hunk);
                proof {
                    assert(hunks.deep_view() =~= seq![spec_addition_hunk(spec_lines(new_content@))]);
                }
                let patch_content = match self.generate_patch_content(&hunks, file_path) {
                    Err(_) => {
                        proof {
                            assert(false);
                        }
                        return Err(CogitError::NoChangesToCommit);
                    },
                    Ok(p) => p,
                };
                Ok(
                    FileDiff {
                        file_path: file_path.to_owned(),
                        old_hash: None,
                        new_hash,
                        change_type: FileChangeType::Added,
                        hunks,
                        patch_content,
                        created_at: now,
                    },
                )
            },
        }
    }
}

// ---------------------------------------------------------------------------
// Status resolution
// ---------------------------------------------------------------------------
/// The head commit's tree entries: empty with no commits, and empty — as the
/// most defensive reading — when the tree object is missing or undecodable.
pub open spec fn spec_head_entries(repo: &CogitRepository) -> Seq<TreeEntryV> {
    if repo.hist().len() == 0 {
        Seq::empty()
    } else {
        let th = repo.hist().last().tree_hash;
        if !repo.store_map().contains_key(th) {
            Seq::empty()
        } else {
            match dec_tree(repo.store_map()[th]) {
                None => Seq::empty(),
                Some(es) => es,
            }
        }
    }
}

/// The name-to-hash map of a tree's file entries; a later entry wins.
pub open spec fn tree_files_map(s: Seq<TreeEntryV>) -> Map<Seq<char>, Seq<char>>
    decreases s.len(),
{
    if s.len() == 0 {
        Map::empty()
    } else {
        let rest = tree_files_map(s.drop_last());
        if s.last().is_file {
            rest.insert(s.last().name, s.last().hash)
        } else {
            rest
        }
    }
}

/// The status record of one working-tree file, from its three hashes.
pub open spec fn spec_file_status(
    f: crate::cogit::WorkFileV,
    staged: Map<Seq<char>, StagingEntryV>,
    head: Map<Seq<char>, Seq<char>>,
) -> FileStatusV {
    let w = Option::Some(sha256_hex_of(f.data));
    let s = if staged.contains_key(f.name) {
        Option::Some(staged[f.name].content_hash)
    } else {
        Option::None
    };
    let h = if head.contains_key(f.name) {
        Option::Some(head[f.name])
    } else {
        Option::None
    };
    FileStatusV {
        file_path: f.name,
        working_tree_hash: w,
        index_hash: s,
        head_hash: h,
        status: spec_classify(s, h, w),
    }
}

/// The hash that the head tree assigns to `path`, if any file entry carries
/// that name; the last one wins.
fn head_hash_lookup(entries: &Vec<TreeEntry>, path: &str) -> (r: Option<String>)
    ensures
        match r {
            Some(h) => tree_files_map(entries.deep_view()).contains_key(path@) && tree_files_map(
                entries.deep_view(),
            )[path@] == h@,
            None => !tree_files_map(entries.deep_view()).contains_key(path@),
        },
{
    let n = entries.len();
    let ghost dv = entries.deep_view();
    let mut i: usize = n;
    proof {
        assert(dv.subrange(0, n as int) =~= dv);
    }
    while i > 0
        invariant
            i <= n,
            n == dv.len(),
            dv == entries.deep_view(),
            tree_files_map(dv).contains_key(path@) == tree_files_map(
                dv.subrange(0, i as int),
            ).contains_key(path@),
            tree_files_map(dv).contains_key(path@) ==> tree_files_map(dv)[path@]
                == tree_files_map(dv.subrange(0, i as int))[path@],
        decreases i,
    {
        let e = &entries[i - 1];
        let ghost pre = dv.subrange(0, i as int);
        proof {
            assert(pre.drop_last() =~= dv.subrange(0, i - 1));
            assert(pre.last() == dv[i - 1]);
        }
        if e.is_file && str_eq(e.name.as_str(), path) {
            return Some(e.hash.clone());
        }
        i = i - 1;
    }
    proof {
        assert(dv.subrange(0, 0) =~= Seq::<TreeEntryV>::empty());
    }
    None
}

impl DiffEngine {
    /// The head commit's tree entries, read from the object store; empty when
    /// there is no commit yet or the tree cannot be read back.
    fn get_head_files(&self, repo: &CogitRepository) -> (r: Vec<TreeEntry>)
        requires
            repo.wf(),
        ensures
            r.deep_view() == spec_head_entries(repo),
    {
        proof {
            repo.lemma_wf_chain_of();
            if repo.hist().len() > 0 {
                assert(repo.hist()[repo.hist().len() - 1] == repo.hist().last());
            }
        }
        let h = match repo.head() {
            None => {
                let r: Vec<TreeEntry> = Vec::new();
                proof {
                    assert(r.deep_view() =~= spec_head_entries(repo));
                }
                return r;
            },
            Some(h) => h,
        };
        let bytes = match repo.object_store().load(&h) {
            Err(_) => {
                proof {
                    assert(false);
                }
                return Vec::new();
            },
            Ok(b) => b,
        };
        let (_message, _timestamp, _parent, tree_hash) = match parse_commit(&bytes) {
            None => {
                proof {
                    assert(false);
                }
                return Vec::new();
            },
            Some(p) => p,
        };
        proof {
            assert(tree_hash@ == repo.hist().last().tree_hash);
        }
        let tree_bytes = match repo.object_store().load(&tree_hash) {
            Err(_) => {
                let r: Vec<TreeEntry> = Vec::new();
                proof {
                    assert(r.deep_view() =~= spec_head_entries(repo));
                }
                return r;
            },
            Ok(b) => b,
        };
        match parse_tree(&tree_bytes) {
            None => {
                let r: Vec<TreeEntry> = Vec::new();
                proof {
                    assert(r.deep_view() =~= spec_head_entries(repo));
                }
                r
            },
            Some(entries) => entries,
        }
    }

    /// Classifies every handed working-tree file against the staging area and
    /// the head commit's tree, in order.
    pub fn get_status(
        &self,
        working: &Vec<WorkFile>,
        staging: &StagingArea,
        repo: &CogitRepository,
    ) -> (r: Result<Vec<FileStatus>, CogitError>)
        requires
            staging.wf(),
            repo.wf(),
        ensures
            r is Ok,
            ({
                let out = r->Ok_0;
                &&& out@.len() == working@.len()
                &&& forall|i: int|
                    0 <= i < out@.len() ==> (#[trigger] out@[i])@ == spec_file_status(
                        working.deep_view()[i],
                        staging.as_map(),
                        tree_files_map(spec_head_entries(repo)),
                    )
            }),
    {
        let head_entries = self.get_head_files(repo);
        let n = working.len();
        let mut out: Vec<FileStatus> = Vec::new();
        for i in 0..n
            invariant
                n == working@.len(),
                staging.wf(),
                head_entries.deep_view() == spec_head_entries(repo),
                out@.len() == i,
                forall|j: int|
                    0 <= j < i ==> (#[trigger] out@[j])@ == spec_file_status(
                        working.deep_view()[j],
                        staging.as_map(),
                        tree_files_map(spec_head_entries(repo)),
                    ),
            decreases n - i,
        {
            let f = &working[i];
            let working_hash = CogitRepository::calculate_hash(f.data.as_slice());
            let index_hash: Option<String> = match staging.lookup(f.name.as_str()) {
                Some(e) => Some(e.content_hash.clone()),
                None => None,
            };
            let head_hash = head_hash_lookup(&head_entries, f.name.as_str());
            let status = classify(
                match &index_hash {
                    Some(s) => Some(s),
                    None => None,
                },
                match &head_hash {
                    Some(h) => Some(h),
                    None => None,
                },
                Some(&working_hash),
            );
            out.push(
                FileStatus {
                    file_path: f.name.clone(),
                    working_tree_hash: Some(working_hash),
                    index_hash,
                    head_hash,
                    status,
                },
            );
        }
        Ok(out)
    }

    /// Stages one file: records its current content hash and size under its
    /// path, overwriting any earlier entry.
    pub fn add_to_staging(
        &self,
        staging: &mut StagingArea,
        file_path: &str,
        content: &Vec<u8>,
        now: i64,
    ) -> (r: Result<(), CogitError>)
        requires
            old(staging).wf(),
        ensures
            r is Ok,
            final(staging).wf(),
            final(staging).stamp() == now,
            final(staging).as_map() == old(staging).as_map().insert(
                file_path@,
                StagingEntryV {
                    file_path: file_path@,
                    content_hash: sha256_hex_of(content@),
                    file_size: content@.len() as u64,
                    staged_at: now,
                },
            ),
    {
        staging.add(file_path, content, now);
        Ok(())
    }

    /// Rebuilds the staging area from its persisted bytes; an absent file
    /// means an empty staging area stamped with `now`. Fails with
    /// `SerializationError` exactly when the bytes are malformed or stage
    /// some path twice.
    pub fn load_staging_area(&self, data: Option<&Vec<u8>>, now: i64) -> (r: Result<
        StagingArea,
        CogitError,
    >)
        ensures
            r is Ok <==> match data {
                Option::Some(b) => match crate::staging::dec_staging(b@) {
                    Option::Some((es, _)) => crate::assoc::distinct_keys(
                        crate::staging::entries_assoc(es),
                    ),
                    Option::None => false,
                },
                Option::None => true,
            },
            match r {
                Ok(area) => {
                    &&& area.wf()
                    &&& match data {
                        Option::None => {
                            &&& area.entries_seq().len() == 0
                            &&& area.stamp() == now
                        },
                        Option::Some(b) => {
                            &&& crate::staging::dec_staging(b@) == Option::Some(
                                (area.entries_seq(), area.stamp()),
                            )
                        },
                    }
                },
                Err(e) => e == CogitError::SerializationError,
            },
    {
        match data {
            None => Ok(StagingArea::empty(now)),
            Some(b) => {
                let (entries, last_updated) = match crate::staging::parse_staging(b) {
                    None => {
                        return Err(CogitError::SerializationError);
                    },
                    Some(x) => x,
                };
                StagingArea::from_entries(entries, last_updated)
            },
        }
    }

    /// Serializes the staging area for persistence.
    pub fn save_staging_area(&self, staging: &StagingArea) -> (r: Vec<u8>)
        ensures
            r@ == crate::staging::enc_staging(staging.entries_seq(), staging.stamp()),
    {
        crate::staging::encode_staging(staging)
    }
}

} // verus!
