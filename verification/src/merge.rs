use vstd::prelude::*;
use crate::change::{markdown_of, ChangeData, TinyChange};
use crate::config::CommandOpts;
use crate::section::{find_section_spec, heading_matches};
use crate::text::{is_blank_seq, is_ws_char, join_lines, join_lines_spec, split_lines, split_lines_spec, str_eq, trim_spec, trim_str};

verus! {

/// Options of the merge step: whether merged fragment files are kept.
#[derive(Debug, Default, Clone)]
pub struct MergeArgs {
    pub keep: bool,
}

/// Why a merge failed before any text was produced: foreign content between
/// the category subsections, or no heading to anchor on at all.
#[derive(Debug)]
pub enum MergeError {
    UnexpectedContent { line: usize, content: String },
    NoAnchorSection,
}

/// The same failures, over character sequences: what the contracts speak of.
pub enum MergeErrorData {
    UnexpectedContent { line: int, content: Seq<char> },
    NoAnchorSection,
}

impl View for MergeError {
    type V = MergeErrorData;

    open spec fn view(&self) -> MergeErrorData {
        match self {
            MergeError::UnexpectedContent { line, content } => MergeErrorData::UnexpectedContent {
                line: *line as int,
                content: content@,
            },
            MergeError::NoAnchorSection => MergeErrorData::NoAnchorSection,
        }
    }
}

// ---------------------------------------------------------------------------
// Rendering the merged block
// ---------------------------------------------------------------------------

/// Whether any change among the first `k` has the given kind.
pub open spec fn has_cat(changes: Seq<ChangeData>, cat: Seq<char>) -> bool {
    exists|i: int| 0 <= i < changes.len() && changes[i].kind == cat
}

/// The rendered entries of the changes `[0, k)` whose kind is `cat`, in input
/// order, each followed by a line feed.
pub open spec fn entries_pre(changes: Seq<ChangeData>, cat: Seq<char>, k: int) -> Seq<char>
    decreases k,
{
    if k <= 0 {
        Seq::empty()
    } else {
        let entry = if changes[k - 1].kind == cat {
            markdown_of(changes[k - 1]) + "\n"@
        } else {
            Seq::empty()
        };
        entries_pre(changes, cat, k - 1) + entry
    }
}

/// One category's block: nothing at all when the category has neither new
/// entries nor an existing body; else its heading, the trimmed existing body
/// (if any), then the new entries.
pub open spec fn cat_block(cat: Seq<char>, body: Option<Seq<char>>, changes: Seq<ChangeData>) -> Seq<
    char,
> {
    if !has_cat(changes, cat) && body is None {
        Seq::empty()
    } else {
        let existing = match body {
            None => Seq::<char>::empty(),
            Some(b) => trim_spec(b) + "\n"@,
        };
        "\n### "@ + cat + "\n\n"@ + existing + entries_pre(changes, cat, changes.len() as int)
    }
}

/// The body handed down for category `k`, when existing bodies are given.
pub open spec fn body_at(bodies: Option<Seq<Option<Seq<char>>>>, k: int) -> Option<Seq<char>> {
    match bodies {
        None => None,
        Some(bs) => bs[k],
    }
}

/// The blocks of the categories `[0, k)`, in category order.
pub open spec fn render_pre(
    cats: Seq<Seq<char>>,
    changes: Seq<ChangeData>,
    bodies: Option<Seq<Option<Seq<char>>>>,
    k: int,
) -> Seq<char>
    decreases k,
{
    if k <= 0 {
        Seq::empty()
    } else {
        render_pre(cats, changes, bodies, k - 1) + cat_block(cats[k - 1], body_at(bodies, k - 1), changes)
    }
}

/// The whole rendered block, all categories in order.
pub open spec fn render_block(
    cats: Seq<Seq<char>>,
    changes: Seq<ChangeData>,
    bodies: Option<Seq<Option<Seq<char>>>>,
) -> Seq<char> {
    render_pre(cats, changes, bodies, cats.len() as int)
}

// ---------------------------------------------------------------------------
// Category ordering determinism
// ---------------------------------------------------------------------------

/// The heading text that opens a category's block.
pub open spec fn cat_heading(cat: Seq<char>) -> Seq<char> {
    "\n### "@ + cat + "\n\n"@
}

/// Whether a category renders at all: it has new entries or an existing body.
pub open spec fn cat_emitted(
    cats: Seq<Seq<char>>,
    changes: Seq<ChangeData>,
    bodies: Option<Seq<Option<Seq<char>>>>,
    k: int,
) -> bool {
    has_cat(changes, cats[k]) || body_at(bodies, k) is Some
}

/// Where category `k`'s block begins in the rendered text.
pub open spec fn block_offset(
    cats: Seq<Seq<char>>,
    changes: Seq<ChangeData>,
    bodies: Option<Seq<Option<Seq<char>>>>,
    k: int,
) -> int {
    render_pre(cats, changes, bodies, k).len() as int
}

proof fn lemma_render_pre_mono(
    cats: Seq<Seq<char>>,
    changes: Seq<ChangeData>,
    bodies: Option<Seq<Option<Seq<char>>>>,
    k1: int,
    k2: int,
)
    requires
        k1 <= k2,
    ensures
        block_offset(cats, changes, bodies, k1) <= block_offset(cats, changes, bodies, k2),
    decreases k2 - k1,
{
    if k1 < k2 {
        lemma_render_pre_mono(cats, changes, bodies, k1, k2 - 1);
    }
}

proof fn lemma_render_pre_prefix(
    cats: Seq<Seq<char>>,
    changes: Seq<ChangeData>,
    bodies: Option<Seq<Option<Seq<char>>>>,
    k: int,
    m: int,
)
    requires
        0 <= k <= m,
    ensures
        block_offset(cats, changes, bodies, k) <= block_offset(cats, changes, bodies, m),
        render_pre(cats, changes, bodies, m).subrange(
            0,
            block_offset(cats, changes, bodies, k),
        ) == render_pre(cats, changes, bodies, k),
    decreases m - k,
{
    lemma_render_pre_mono(cats, changes, bodies, k, m);
    if k < m {
        lemma_render_pre_prefix(cats, changes, bodies, k, m - 1);
        assert(render_pre(cats, changes, bodies, m).subrange(
            0,
            block_offset(cats, changes, bodies, k),
        ) =~= render_pre(cats, changes, bodies, k));
    } else {
        assert(render_pre(cats, changes, bodies, m).subrange(
            0,
            block_offset(cats, changes, bodies, k),
        ) =~= render_pre(cats, changes, bodies, k));
    }
}

/// An emitted category's block stands at its offset and opens with its own
/// heading.
proof fn lemma_block_heading_at(
    cats: Seq<Seq<char>>,
    changes: Seq<ChangeData>,
    bodies: Option<Seq<Option<Seq<char>>>>,
    k: int,
)
    requires
        0 <= k < cats.len(),
        cat_emitted(cats, changes, bodies, k),
    ensures
        block_offset(cats, changes, bodies, k) + cat_heading(cats[k]).len() <= block_offset(
            cats,
            changes,
            bodies,
            k + 1,
        ),
        render_block(cats, changes, bodies).subrange(
            block_offset(cats, changes, bodies, k),
            block_offset(cats, changes, bodies, k) + cat_heading(cats[k]).len(),
        ) == cat_heading(cats[k]),
{
    let off = block_offset(cats, changes, bodies, k);
    let blk = cat_block(cats[k], body_at(bodies, k), changes);
    let hd = cat_heading(cats[k]);
    assert(render_pre(cats, changes, bodies, k + 1) == render_pre(cats, changes, bodies, k) + blk);
    assert(hd.len() <= blk.len());
    assert(forall|j: int| 0 <= j < hd.len() ==> blk[j] == hd[j]);
    lemma_render_pre_prefix(cats, changes, bodies, k + 1, cats.len() as int);
    let whole = render_block(cats, changes, bodies);
    let pre1 = render_pre(cats, changes, bodies, k + 1);
    let off1 = block_offset(cats, changes, bodies, k + 1);
    assert(whole.subrange(0, off1) == pre1);
    assert(forall|j: int| 0 <= j < hd.len() ==> pre1[off + j] == blk[j]);
    assert(forall|j: int|
        0 <= j < hd.len() ==> #[trigger] whole[off + j] == whole.subrange(0, off1)[off + j]);
    assert(whole.subrange(off, off + hd.len() as int) =~= hd);
}

/// Category ordering determinism: when two categories both render, the block
/// of the category that comes first in the configured order stands earlier in
/// the rendered text, each block opening with its own `### <category>`
/// heading. The rendering order is the category order, never input order.
pub proof fn lemma_category_order(
    cats: Seq<Seq<char>>,
    changes: Seq<ChangeData>,
    bodies: Option<Seq<Option<Seq<char>>>>,
    i: int,
    j: int,
)
    requires
        0 <= i < j < cats.len(),
        cat_emitted(cats, changes, bodies, i),
        cat_emitted(cats, changes, bodies, j),
    ensures
        block_offset(cats, changes, bodies, i) + cat_heading(cats[i]).len() <= block_offset(
            cats,
            changes,
            bodies,
            j,
        ),
        render_block(cats, changes, bodies).subrange(
            block_offset(cats, changes, bodies, i),
            block_offset(cats, changes, bodies, i) + cat_heading(cats[i]).len(),
        ) == cat_heading(cats[i]),
        render_block(cats, changes, bodies).subrange(
            block_offset(cats, changes, bodies, j),
            block_offset(cats, changes, bodies, j) + cat_heading(cats[j]).len(),
        ) == cat_heading(cats[j]),
{
    lemma_block_heading_at(cats, changes, bodies, i);
    lemma_block_heading_at(cats, changes, bodies, j);
    lemma_render_pre_mono(cats, changes, bodies, i + 1, j);
}

// ---------------------------------------------------------------------------
// The merge model
// ---------------------------------------------------------------------------

/// The section range found for each category inside the unreleased section
/// (its own heading line excluded), in category order.
pub open spec fn cat_ranges(
    lines: Seq<Seq<char>>,
    us: int,
    ue: int,
    cats: Seq<Seq<char>>,
) -> Seq<Option<(int, int)>> {
    Seq::new(cats.len(), |k: int| find_section_spec(lines, us + 1, ue, false, cats[k]))
}

/// A category section's body: everything after its heading line, joined.
pub open spec fn body_of(lines: Seq<Seq<char>>, r: (int, int)) -> Seq<char> {
    join_lines_spec(lines.subrange(r.0 + 1, r.1))
}

/// The existing body of each category, where its section was found.
pub open spec fn bodies_of(lines: Seq<Seq<char>>, rs: Seq<Option<(int, int)>>) -> Seq<
    Option<Seq<char>>,
> {
    Seq::new(rs.len(), |k: int| match rs[k] {
        None => None,
        Some(r) => Some(body_of(lines, r)),
    })
}

/// Least section start among the ranges `[0, k)` that were found.
pub open spec fn min_start_pre(rs: Seq<Option<(int, int)>>, k: int) -> Option<int>
    decreases k,
{
    if k <= 0 {
        None
    } else {
        let m = min_start_pre(rs, k - 1);
        match rs[k - 1] {
            None => m,
            Some(r) => match m {
                None => Some(r.0),
                Some(v) => if r.0 < v {
                    Some(r.0)
                } else {
                    Some(v)
                },
            },
        }
    }
}

/// Greatest section end among the ranges `[0, k)` that were found.
pub open spec fn max_end_pre(rs: Seq<Option<(int, int)>>, k: int) -> Option<int>
    decreases k,
{
    if k <= 0 {
        None
    } else {
        let m = max_end_pre(rs, k - 1);
        match rs[k - 1] {
            None => m,
            Some(r) => match m {
                None => Some(r.1),
                Some(v) => if r.1 > v {
                    Some(r.1)
                } else {
                    Some(v)
                },
            },
        }
    }
}

/// Whether `idx` lies inside one of the found category ranges.
pub open spec fn in_found_range(rs: Seq<Option<(int, int)>>, idx: int) -> bool {
    exists|k: int| 0 <= k < rs.len() && (#[trigger] rs[k] matches Some(r) && r.0 <= idx < r.1)
}

/// First line in `[i, end)` that is neither blank nor inside a found category
/// range: content the merge refuses to touch.
pub open spec fn first_violation(
    lines: Seq<Seq<char>>,
    rs: Seq<Option<(int, int)>>,
    i: int,
    end: int,
) -> Option<int>
    decreases end - i,
{
    if i < 0 || i >= end {
        None
    } else if !is_blank_seq(lines[i]) && !in_found_range(rs, i) {
        Some(i)
    } else {
        first_violation(lines, rs, i + 1, end)
    }
}

/// Walk back from `i` over blank lines: where the splice really starts.
pub open spec fn cut_back(lines: Seq<Seq<char>>, i: int) -> int
    decreases i,
{
    if i > 0 && is_blank_seq(lines[i - 1]) {
        cut_back(lines, i - 1)
    } else {
        i
    }
}

/// The whole merge as a function of the category order, the decoded changes,
/// and the old document text (or its absence): either the new document text or
/// the error that stops the merge.
pub open spec fn merge_spec(
    cats: Seq<Seq<char>>,
    changes: Seq<ChangeData>,
    old: Option<Seq<char>>,
) -> Result<Seq<char>, MergeErrorData> {
    match old {
        None => Ok("# Changelog\n\n## [Unreleased]\n"@ + render_block(cats, changes, None)),
        Some(text) => {
            let lines = split_lines_spec(text);
            let n = lines.len() as int;
            match find_section_spec(lines, 0, n, false, "unreleased"@) {
                Some(u) => {
                    let rs = cat_ranges(lines, u.0, u.1, cats);
                    let earliest = match min_start_pre(rs, rs.len() as int) {
                        None => u.1,
                        Some(v) => v,
                    };
                    let latest = match max_end_pre(rs, rs.len() as int) {
                        None => u.1,
                        Some(v) => v,
                    };
                    let viol = if min_start_pre(rs, rs.len() as int) is Some {
                        first_violation(lines, rs, earliest, latest)
                    } else {
                        None
                    };
                    match viol {
                        Some(idx) => Err(
                            MergeErrorData::UnexpectedContent {
                                line: idx + 1,
                                content: lines[idx],
                            },
                        ),
                        None => {
                            let content = render_block(cats, changes, Some(bodies_of(lines, rs)));
                            let cut = cut_back(lines, earliest);
                            Ok(
                                join_lines_spec(
                                    lines.subrange(0, cut) + seq![content] + lines.subrange(
                                        latest,
                                        n,
                                    ),
                                ),
                            )
                        },
                    }
                },
                None => match find_section_spec(lines, 0, n, true, "changelog"@) {
                    Some(c) => {
                        let content = render_block(cats, changes, None);
                        let pre = if c.1 > 0 && is_blank_seq(lines[c.1 - 1]) {
                            lines.subrange(0, c.1 - 1)
                        } else {
                            lines.subrange(0, c.1)
                        };
                        Ok(
                            join_lines_spec(
                                pre + seq!["\n## [Unreleased]"@, content] + lines.subrange(c.1, n),
                            ),
                        )
                    },
                    None => Err(MergeErrorData::NoAnchorSection),
                },
            }
        },
    }
}

proof fn lemma_single_found_folds(rs: Seq<Option<(int, int)>>, ki: int, cs: int, ce: int, m: int)
    requires
        0 <= ki < rs.len(),
        rs[ki] == Some((cs, ce)),
        forall|j: int| 0 <= j < rs.len() && j != ki ==> rs[j] is None,
        0 <= m <= rs.len(),
    ensures
        min_start_pre(rs, m) == if m <= ki {
            None::<int>
        } else {
            Some(cs)
        },
        max_end_pre(rs, m) == if m <= ki {
            None::<int>
        } else {
            Some(ce)
        },
    decreases m,
{
    if m > 0 {
        lemma_single_found_folds(rs, ki, cs, ce, m - 1);
    }
}

proof fn lemma_no_violation(lines: Seq<Seq<char>>, rs: Seq<Option<(int, int)>>, i: int, end: int)
    requires
        forall|idx: int| i <= idx < end ==> in_found_range(rs, idx),
    ensures
        first_violation(lines, rs, i, end) is None,
    decreases end - i,
{
    if !(i < 0 || i >= end) {
        assert(in_found_range(rs, i));
        lemma_no_violation(lines, rs, i + 1, end);
    }
}

proof fn lemma_render_single_body(cats: Seq<Seq<char>>, bodies: Seq<Option<Seq<char>>>, ki: int, m: int)
    requires
        bodies.len() == cats.len(),
        0 <= ki < cats.len(),
        bodies[ki] is Some,
        forall|j: int| 0 <= j < cats.len() && j != ki ==> bodies[j] is None,
        0 <= m <= cats.len(),
    ensures
        render_pre(cats, Seq::<ChangeData>::empty(), Some(bodies), m) == if m <= ki {
            Seq::<char>::empty()
        } else {
            cat_block(cats[ki], bodies[ki], Seq::<ChangeData>::empty())
        },
    decreases m,
{
    if m > 0 {
        lemma_render_single_body(cats, bodies, ki, m - 1);
        let ec = Seq::<ChangeData>::empty();
        if m - 1 != ki {
            assert(!has_cat(ec, cats[m - 1]));
            assert(cat_block(cats[m - 1], None, ec) == Seq::<char>::empty());
            assert(render_pre(cats, ec, Some(bodies), m) =~= render_pre(cats, ec, Some(bodies), m - 1));
        } else {
            assert(render_pre(cats, ec, Some(bodies), m) =~= cat_block(cats[ki], bodies[ki], ec));
        }
    }
}

/// Structural violation detection: when the category sections found inside
/// the unreleased section leave a non-blank line uncovered between the first
/// of them and the last, the merge refuses the document and names that line
/// by its 1-based number, together with the line's text.
pub proof fn lemma_violation_detected(
    cats: Seq<Seq<char>>,
    changes: Seq<ChangeData>,
    text: Seq<char>,
    us: int,
    ue: int,
    es: int,
    ls: int,
    idx: int,
)
    requires
        find_section_spec(
            split_lines_spec(text),
            0,
            split_lines_spec(text).len() as int,
            false,
            "unreleased"@,
        ) == Some((us, ue)),
        min_start_pre(
            cat_ranges(split_lines_spec(text), us, ue, cats),
            cats.len() as int,
        ) == Some(es),
        max_end_pre(
            cat_ranges(split_lines_spec(text), us, ue, cats),
            cats.len() as int,
        ) == Some(ls),
        first_violation(
            split_lines_spec(text),
            cat_ranges(split_lines_spec(text), us, ue, cats),
            es,
            ls,
        ) == Some(idx),
    ensures
        merge_spec(cats, changes, Some(text)) == Err::<Seq<char>, MergeErrorData>(
            MergeErrorData::UnexpectedContent {
                line: idx + 1,
                content: split_lines_spec(text)[idx],
            },
        ),
{
}

proof fn lemma_body_shape(lines: Seq<Seq<char>>, cs: int, ce: int)
    requires
        0 <= cs,
        cs + 4 <= ce,
        ce <= lines.len(),
        lines[cs + 1].len() == 0,
        lines[ce - 1].len() == 0,
    ensures
        body_of(lines, (cs, ce)) == "\n"@ + join_lines_spec(lines.subrange(cs + 2, ce - 1))
            + "\n"@,
{
    reveal_strlit("\n");
    let nl = "\n"@;
    let entries = lines.subrange(cs + 2, ce - 1);
    assert(entries.len() > 0);
    let e_join = join_lines_spec(entries);
    let empty_line = Seq::<char>::empty();
    assert(lines[cs + 1] =~= empty_line);
    assert(lines[ce - 1] =~= empty_line);
    assert(lines.subrange(cs + 1, ce) =~= (seq![empty_line] + entries).push(empty_line));
    crate::text::lemma_join_snoc(seq![empty_line] + entries, empty_line);
    crate::text::lemma_join_cons(empty_line, entries);
    assert(body_of(lines, (cs, ce)) =~= nl + e_join + nl);
}

proof fn lemma_entries_bare(lines: Seq<Seq<char>>, lo: int, hi: int)
    requires
        0 <= lo < hi <= lines.len(),
        forall|i: int| lo <= i < hi ==> lines[i].len() > 0,
    ensures
        join_lines_spec(lines.subrange(lo, hi)).len() > 0,
        join_lines_spec(lines.subrange(lo, hi))[0] == lines[lo][0],
        join_lines_spec(lines.subrange(lo, hi)).last() == lines[hi - 1].last(),
{
    let entries = lines.subrange(lo, hi);
    assert(entries.len() > 0);
    let e_join = join_lines_spec(entries);
    let e0 = entries[0];
    let erest = entries.subrange(1, entries.len() as int);
    assert(entries =~= seq![e0] + erest);
    crate::text::lemma_join_cons(e0, erest);
    assert(e0.len() > 0);
    let elast = entries[entries.len() - 1];
    let einit = entries.subrange(0, entries.len() - 1);
    assert(entries =~= einit.push(elast));
    crate::text::lemma_join_snoc(einit, elast);
    assert(elast.len() > 0);
    assert(elast == lines[hi - 1]);
}

proof fn lemma_canonical_body_trim(lines: Seq<Seq<char>>, cs: int, ce: int)
    requires
        0 <= cs,
        cs + 4 <= ce,
        ce <= lines.len(),
        lines[cs + 1].len() == 0,
        lines[ce - 1].len() == 0,
        forall|i: int| cs + 2 <= i < ce - 1 ==> lines[i].len() > 0,
        !is_ws_char(lines[cs + 2][0]),
        !is_ws_char(lines[ce - 2][lines[ce - 2].len() - 1]),
    ensures
        trim_spec(body_of(lines, (cs, ce))) == join_lines_spec(lines.subrange(cs + 2, ce - 1)),
{
    reveal_strlit("\n");
    let nl = "\n"@;
    let e_join = join_lines_spec(lines.subrange(cs + 2, ce - 1));
    lemma_body_shape(lines, cs, ce);
    lemma_entries_bare(lines, cs + 2, ce - 1);
    assert(forall|j: int| 0 <= j < nl.len() ==> is_ws_char(nl[j]));
    crate::text::lemma_trim_ws_around(nl, e_join, nl);
    assert(nl + e_join + nl =~= nl + (e_join + nl));
}

proof fn lemma_canonical_block_join(
    lines: Seq<Seq<char>>,
    cat: Seq<char>,
    us: int,
    cs: int,
    ce: int,
)
    requires
        0 <= us,
        cs == us + 2,
        cs + 4 <= ce,
        ce <= lines.len(),
        lines[us + 1].len() == 0,
        lines[cs] == "### "@ + cat,
        lines[cs + 1].len() == 0,
        lines[ce - 1].len() == 0,
    ensures
        join_lines_spec(lines.subrange(us + 1, ce)) == "\n### "@ + cat + "\n\n"@
            + join_lines_spec(lines.subrange(cs + 2, ce - 1)) + "\n"@,
{
    reveal_strlit("\n");
    reveal_strlit("\n\n");
    reveal_strlit("### ");
    reveal_strlit("\n### ");
    let nl = "\n"@;
    let entries = lines.subrange(cs + 2, ce - 1);
    assert(entries.len() > 0);
    let e_join = join_lines_spec(entries);
    let empty_line = Seq::<char>::empty();
    assert(lines[us + 1] =~= empty_line);
    assert(lines[cs + 1] =~= empty_line);
    assert(lines[ce - 1] =~= empty_line);
    let middle = lines.subrange(us + 1, ce);
    let inner3 = entries.push(empty_line);
    let inner2 = seq![empty_line] + inner3;
    let inner1 = seq![lines[cs]] + inner2;
    assert(middle =~= seq![empty_line] + inner1);
    crate::text::lemma_join_snoc(entries, empty_line);
    assert(join_lines_spec(inner3) == e_join + nl + empty_line);
    crate::text::lemma_join_cons(empty_line, inner3);
    assert(join_lines_spec(inner2) == empty_line + nl + (e_join + nl + empty_line));
    crate::text::lemma_join_cons(lines[cs], inner2);
    crate::text::lemma_join_cons(empty_line, inner1);
    assert(join_lines_spec(middle) == empty_line + nl + (lines[cs] + nl + (empty_line + nl + (
    e_join + nl + empty_line))));
    assert(join_lines_spec(middle) =~= "\n### "@ + cat + "\n\n"@ + e_join + nl);
}

/// Replacing the lines `[a, b)` by the single line that is their join leaves
/// the joined document unchanged.
proof fn lemma_splice_join(lines: Seq<Seq<char>>, content: Seq<char>, a: int, b: int)
    requires
        0 < a < b <= lines.len(),
        content == join_lines_spec(lines.subrange(a, b)),
    ensures
        join_lines_spec(
            lines.subrange(0, a) + seq![content] + lines.subrange(b, lines.len() as int),
        ) == join_lines_spec(lines),
{
    reveal_strlit("\n");
    let nl = "\n"@;
    let n = lines.len() as int;
    let before = lines.subrange(0, a);
    let middle = lines.subrange(a, b);
    let after = lines.subrange(b, n);
    assert(lines =~= before + middle + after);
    crate::text::lemma_join_append(before, middle);
    let out_lines = before + seq![content] + after;
    crate::text::lemma_join_snoc(before, content);
    assert(before.push(content) =~= before + seq![content]);
    if after.len() == 0 {
        assert(before + middle =~= lines);
        assert(out_lines =~= before + seq![content]);
        assert(join_lines_spec(out_lines) == join_lines_spec(before) + nl + content);
        assert(join_lines_spec(lines) == join_lines_spec(before) + nl + join_lines_spec(middle));
    } else {
        crate::text::lemma_join_append(before + middle, after);
        crate::text::lemma_join_append(before + seq![content], after);
        crate::text::lemma_join_append(before, seq![content]);
        assert(join_lines_spec(seq![content]) == content);
        assert((before + middle) + after =~= lines);
        assert((before + seq![content]) + after =~= out_lines);
        assert(join_lines_spec(out_lines) == (join_lines_spec(before) + nl + content) + nl
            + join_lines_spec(after));
        assert(join_lines_spec(lines) == (join_lines_spec(before) + nl + join_lines_spec(middle))
            + nl + join_lines_spec(after));
    }
}

/// No-op merge: merging an empty record set into a well-formed document
/// returns the document unchanged. Well-formed means the document is in the
/// shape the merger itself writes: its lines joined give the text back; an
/// unreleased section holds exactly one category section, `### <category>`,
/// set off by single blank lines, whose entry lines start and end bare; and
/// no other category heading appears. The parameters name the unreleased
/// heading line `us`, its section end `ue`, the category's index `ki`, its
/// heading line `cs` and its section end `ce`.
#[verifier::rlimit(100)]
pub proof fn lemma_noop_merge_identity(
    cats: Seq<Seq<char>>,
    text: Seq<char>,
    us: int,
    ue: int,
    ki: int,
    cs: int,
    ce: int,
)
    requires
        ({
            let lines = split_lines_spec(text);
            let n = lines.len() as int;
            &&& join_lines_spec(lines) == text
            &&& 0 <= us
            &&& cs == us + 2
            &&& cs + 4 <= ce
            &&& ce <= ue <= n
            &&& 0 <= ki < cats.len()
            &&& heading_matches(lines[us], "unreleased"@)
            &&& (forall|i: int| 0 <= i < us ==> !heading_matches(lines[i], "unreleased"@))
            &&& (forall|i: int|
                us < i < ue ==> !crate::section::section_closes(
                    lines[i],
                    crate::section::hash_prefix_len(lines[us]) as int,
                    false,
                ))
            &&& (ue == n || crate::section::section_closes(
                lines[ue],
                crate::section::hash_prefix_len(lines[us]) as int,
                false,
            ))
            &&& lines[cs] == "### "@ + cats[ki]
            &&& heading_matches(lines[cs], cats[ki])
            &&& (forall|i: int| us + 1 <= i < cs ==> !heading_matches(lines[i], cats[ki]))
            &&& (forall|i: int|
                cs < i < ce ==> !crate::section::section_closes(
                    lines[i],
                    crate::section::hash_prefix_len(lines[cs]) as int,
                    false,
                ))
            &&& (ce == ue || crate::section::section_closes(
                lines[ce],
                crate::section::hash_prefix_len(lines[cs]) as int,
                false,
            ))
            &&& (forall|k: int, i: int|
                0 <= k < cats.len() && k != ki && us + 1 <= i < ue ==> !heading_matches(
                    lines[i],
                    cats[k],
                ))
            &&& lines[us + 1].len() == 0
            &&& lines[cs + 1].len() == 0
            &&& lines[ce - 1].len() == 0
            &&& (forall|i: int| cs + 2 <= i < ce - 1 ==> lines[i].len() > 0)
            &&& !is_ws_char(lines[cs + 2][0])
            &&& !is_ws_char(lines[ce - 2][lines[ce - 2].len() - 1])
        }),
    ensures
        merge_spec(cats, Seq::<ChangeData>::empty(), Some(text)) == Ok::<Seq<char>, MergeErrorData>(
            text,
        ),
{
    reveal_strlit("\n");
    reveal_strlit("\n\n");
    reveal_strlit("### ");
    reveal_strlit("\n### ");

    let lines = split_lines_spec(text);
    let n = lines.len() as int;
    let du = crate::section::hash_prefix_len(lines[us]) as int;
    let dc = crate::section::hash_prefix_len(lines[cs]) as int;
    let ec = Seq::<ChangeData>::empty();
    let nl = "\n"@;

    // the unreleased section is found at [us, ue)
    crate::section::lemma_find_start_is(lines, 0, n, "unreleased"@, us);
    crate::section::lemma_find_end_is(lines, us + 1, n, du, false, ue);
    assert(find_section_spec(lines, 0, n, false, "unreleased"@) == Some((us, ue)));

    // the one category section is found at [cs, ce); every other category is not
    let rs = cat_ranges(lines, us, ue, cats);
    crate::section::lemma_find_start_is(lines, us + 1, ue, cats[ki], cs);
    crate::section::lemma_find_end_is(lines, cs + 1, ue, dc, false, ce);
    assert(rs[ki] == Some((cs, ce)));
    assert forall|k: int| 0 <= k < cats.len() && k != ki implies rs[k] is None by {
        assert(forall|i: int| us + 1 <= i < ue ==> !heading_matches(lines[i], cats[k]));
        crate::section::lemma_find_start_is(lines, us + 1, ue, cats[k], ue);
    }
    lemma_single_found_folds(rs, ki, cs, ce, rs.len() as int);

    // nothing between the first section start and the last section end is loose
    assert forall|idx: int| cs <= idx < ce implies in_found_range(rs, idx) by {
        assert(rs[ki] matches Some(r) && r.0 <= idx < r.1);
    }
    lemma_no_violation(lines, rs, cs, ce);

    // the cut walks back over the one blank line to just after the heading
    assert(is_blank_seq(lines[cs - 1]));
    assert(lines[us].len() > 0 && lines[us][0] == '#');
    assert(!is_blank_seq(lines[us]));
    assert(cut_back(lines, cs) == cut_back(lines, us + 1));
    assert(cut_back(lines, us + 1) == us + 1);

    // rendering the empty record set over the extracted bodies gives back
    // the one category block, which joins the replaced lines letter for letter
    let body = body_of(lines, (cs, ce));
    let bodies = bodies_of(lines, rs);
    assert(bodies[ki] == Some(body));
    assert(forall|j: int| 0 <= j < cats.len() && j != ki ==> bodies[j] is None);
    lemma_render_single_body(cats, bodies, ki, cats.len() as int);
    let content = render_block(cats, ec, Some(bodies));
    assert(!has_cat(ec, cats[ki]));
    assert(entries_pre(ec, cats[ki], 0) == Seq::<char>::empty());
    lemma_canonical_body_trim(lines, cs, ce);
    lemma_canonical_block_join(lines, cats[ki], us, cs, ce);
    let e_join = join_lines_spec(lines.subrange(cs + 2, ce - 1));
    assert(content =~= "\n### "@ + cats[ki] + "\n\n"@ + e_join + nl);
    assert(content == join_lines_spec(lines.subrange(us + 1, ce)));

    // splicing the block back in place of those lines rebuilds the document
    lemma_splice_join(lines, content, us + 1, ce);
    assert(merge_spec(cats, ec, Some(text)) == Ok::<Seq<char>, MergeErrorData>(
        join_lines_spec(lines.subrange(0, us + 1) + seq![content] + lines.subrange(ce, n)),
    ));
}

proof fn lemma_tail_body_trim(lines: Seq<Seq<char>>, cs: int)
    requires
        0 <= cs,
        cs + 3 <= lines.len(),
        lines[cs + 1].len() == 0,
        forall|i: int| cs + 2 <= i < lines.len() ==> lines[i].len() > 0,
        !is_ws_char(lines[cs + 2][0]),
        !is_ws_char(lines[lines.len() - 1][lines[lines.len() - 1].len() - 1]),
    ensures
        trim_spec(body_of(lines, (cs, lines.len() as int))) == join_lines_spec(
            lines.subrange(cs + 2, lines.len() as int),
        ),
{
    reveal_strlit("\n");
    let nl = "\n"@;
    let n = lines.len() as int;
    let entries = lines.subrange(cs + 2, n);
    assert(entries.len() > 0);
    let e_join = join_lines_spec(entries);
    let body = body_of(lines, (cs, n));
    let empty_line = Seq::<char>::empty();
    assert(lines[cs + 1] =~= empty_line);
    assert(lines.subrange(cs + 1, n) =~= seq![empty_line] + entries);
    crate::text::lemma_join_cons(empty_line, entries);
    assert(body =~= nl + e_join);

    lemma_entries_bare(lines, cs + 2, n);
    assert(e_join.len() > 0);
    assert(!is_ws_char(e_join[0]));
    assert(!is_ws_char(e_join[e_join.len() - 1]));
    assert(trim_spec(e_join) == e_join);
    assert(forall|j: int| 0 <= j < nl.len() ==> is_ws_char(nl[j]));
    crate::text::lemma_trim_ws_prefix(nl, e_join);
    assert(trim_spec(body) == e_join);
}

proof fn lemma_tail_block_join(lines: Seq<Seq<char>>, cat: Seq<char>, us: int, cs: int)
    requires
        0 <= us,
        cs == us + 2,
        cs + 3 <= lines.len(),
        lines[us + 1].len() == 0,
        lines[cs] == "### "@ + cat,
        lines[cs + 1].len() == 0,
    ensures
        join_lines_spec(lines.subrange(us + 1, lines.len() as int)) == "\n### "@ + cat + "\n\n"@
            + join_lines_spec(lines.subrange(cs + 2, lines.len() as int)),
{
    reveal_strlit("\n");
    reveal_strlit("\n\n");
    reveal_strlit("### ");
    reveal_strlit("\n### ");
    let nl = "\n"@;
    let n = lines.len() as int;
    let entries = lines.subrange(cs + 2, n);
    assert(entries.len() > 0);
    let e_join = join_lines_spec(entries);
    let empty_line = Seq::<char>::empty();
    assert(lines[us + 1] =~= empty_line);
    assert(lines[cs + 1] =~= empty_line);
    let middle = lines.subrange(us + 1, n);
    let inner2 = seq![empty_line] + entries;
    let inner1 = seq![lines[cs]] + inner2;
    assert(middle =~= seq![empty_line] + inner1);
    crate::text::lemma_join_cons(empty_line, entries);
    crate::text::lemma_join_cons(lines[cs], inner2);
    crate::text::lemma_join_cons(empty_line, inner1);
    assert(join_lines_spec(middle) == empty_line + nl + (lines[cs] + nl + (nl + e_join)));
    assert(join_lines_spec(middle) =~= "\n### "@ + cat + "\n\n"@ + e_join);
}

/// No-op merge, for a document whose one category section runs to the end of
/// the text: the shape a fresh merge writes. The text ends with the line feed
/// the merger leaves, its lines joined give the text without that line feed,
/// and the sections are laid out as in `lemma_noop_merge_identity`; merging an
/// empty record set returns the text unchanged.
pub proof fn lemma_noop_merge_identity_at_end(
    cats: Seq<Seq<char>>,
    text: Seq<char>,
    us: int,
    ki: int,
    cs: int,
)
    requires
        ({
            let lines = split_lines_spec(text);
            let n = lines.len() as int;
            &&& text.len() > 0
            &&& text[text.len() - 1] == '\n'
            &&& join_lines_spec(lines) == text.subrange(0, text.len() - 1)
            &&& 0 <= us
            &&& cs == us + 2
            &&& cs + 3 <= n
            &&& 0 <= ki < cats.len()
            &&& heading_matches(lines[us], "unreleased"@)
            &&& (forall|i: int| 0 <= i < us ==> !heading_matches(lines[i], "unreleased"@))
            &&& (forall|i: int|
                us < i < n ==> !crate::section::section_closes(
                    lines[i],
                    crate::section::hash_prefix_len(lines[us]) as int,
                    false,
                ))
            &&& lines[cs] == "### "@ + cats[ki]
            &&& heading_matches(lines[cs], cats[ki])
            &&& (forall|i: int| us + 1 <= i < cs ==> !heading_matches(lines[i], cats[ki]))
            &&& (forall|i: int|
                cs < i < n ==> !crate::section::section_closes(
                    lines[i],
                    crate::section::hash_prefix_len(lines[cs]) as int,
                    false,
                ))
            &&& (forall|k: int, i: int|
                0 <= k < cats.len() && k != ki && us + 1 <= i < n ==> !heading_matches(
                    lines[i],
                    cats[k],
                ))
            &&& lines[us + 1].len() == 0
            &&& lines[cs + 1].len() == 0
            &&& (forall|i: int| cs + 2 <= i < n ==> lines[i].len() > 0)
            &&& !is_ws_char(lines[cs + 2][0])
            &&& !is_ws_char(lines[n - 1][lines[n - 1].len() - 1])
        }),
    ensures
        merge_spec(cats, Seq::<ChangeData>::empty(), Some(text)) == Ok::<Seq<char>, MergeErrorData>(
            text,
        ),
{
    reveal_strlit("\n");
    reveal_strlit("\n\n");
    reveal_strlit("### ");
    reveal_strlit("\n### ");
    let nl = "\n"@;

    let lines = split_lines_spec(text);
    let n = lines.len() as int;
    let du = crate::section::hash_prefix_len(lines[us]) as int;
    let dc = crate::section::hash_prefix_len(lines[cs]) as int;
    let ec = Seq::<ChangeData>::empty();

    // both section searches run to the very end of the document
    crate::section::lemma_find_start_is(lines, 0, n, "unreleased"@, us);
    crate::section::lemma_find_end_is(lines, us + 1, n, du, false, n);
    assert(find_section_spec(lines, 0, n, false, "unreleased"@) == Some((us, n)));
    let rs = cat_ranges(lines, us, n, cats);
    crate::section::lemma_find_start_is(lines, us + 1, n, cats[ki], cs);
    crate::section::lemma_find_end_is(lines, cs + 1, n, dc, false, n);
    assert(rs[ki] == Some((cs, n)));
    assert forall|k: int| 0 <= k < cats.len() && k != ki implies rs[k] is None by {
        assert(forall|i: int| us + 1 <= i < n ==> !heading_matches(lines[i], cats[k]));
        crate::section::lemma_find_start_is(lines, us + 1, n, cats[k], n);
    }
    lemma_single_found_folds(rs, ki, cs, n, rs.len() as int);
    assert forall|idx: int| cs <= idx < n implies in_found_range(rs, idx) by {
        assert(rs[ki] matches Some(r) && r.0 <= idx < r.1);
    }
    lemma_no_violation(lines, rs, cs, n);
    assert(is_blank_seq(lines[cs - 1]));
    assert(lines[us].len() > 0 && lines[us][0] == '#');
    assert(!is_blank_seq(lines[us]));
    assert(cut_back(lines, cs) == cut_back(lines, us + 1));
    assert(cut_back(lines, us + 1) == us + 1);

    // the body, its trim, and the joined tail lines
    let e_join = join_lines_spec(lines.subrange(cs + 2, n));
    lemma_tail_body_trim(lines, cs);
    lemma_tail_block_join(lines, cats[ki], us, cs);

    // the empty record set renders the one category block back
    let body = body_of(lines, (cs, n));
    let bodies = bodies_of(lines, rs);
    assert(bodies[ki] == Some(body));
    assert(forall|j: int| 0 <= j < cats.len() && j != ki ==> bodies[j] is None);
    lemma_render_single_body(cats, bodies, ki, cats.len() as int);
    let content = render_block(cats, ec, Some(bodies));
    assert(!has_cat(ec, cats[ki]));
    assert(entries_pre(ec, cats[ki], 0) == Seq::<char>::empty());
    assert(content =~= "\n### "@ + cats[ki] + "\n\n"@ + e_join + nl);
    let middle = lines.subrange(us + 1, n);
    assert(join_lines_spec(middle) == "\n### "@ + cats[ki] + "\n\n"@ + e_join);

    // splicing puts the final line feed back as the last line's own ending
    let before = lines.subrange(0, us + 1);
    let out_lines = before + seq![content];
    assert(lines =~= before + middle);
    crate::text::lemma_join_append(before, middle);
    crate::text::lemma_join_snoc(before, content);
    assert(before.push(content) =~= out_lines);
    assert(join_lines_spec(out_lines) == join_lines_spec(before) + nl + content);
    assert(join_lines_spec(lines) == join_lines_spec(before) + nl + join_lines_spec(middle));
    assert(join_lines_spec(out_lines) =~= join_lines_spec(lines) + nl);
    assert(join_lines_spec(out_lines) =~= text);
    assert(lines.subrange(0, us + 1) + seq![content] + lines.subrange(n, n) =~= out_lines);
    assert(merge_spec(cats, ec, Some(text)) == Ok::<Seq<char>, MergeErrorData>(
        join_lines_spec(lines.subrange(0, us + 1) + seq![content] + lines.subrange(n, n)),
    ));
}

/// Render the changes grouped by category, in category order: each category
/// that has new entries or an existing body becomes a `### <category>` heading
/// followed by the trimmed existing body and the new entries.
#[verifier::rlimit(30)]
pub fn format_changesets(
    opts: &CommandOpts,
    all_changes: &Vec<TinyChange>,
    existing_sections: Option<&Vec<Option<String>>>,
) -> (r: String)
    requires
        match existing_sections {
            Some(v) => v@.len() == opts.categories_view().len(),
            None => true,
        },
    ensures
        r@ == render_block(
            opts.categories_view(),
            all_changes.deep_view(),
            match existing_sections {
                None => None,
                Some(v) => Some(v.deep_view()),
            },
        ),
{
    let ghost catsv = opts.categories_view();
    let ghost chv = all_changes.deep_view();
    let ghost bview: Option<Seq<Option<Seq<char>>>> = match existing_sections {
        None => None,
        Some(v) => Some(v.deep_view()),
    };
    let cats = opts.categories();
    let mut builder = String::new();
    let mut idx: usize = 0;
    #[verifier::loop_isolation(false)]
    while idx < cats.len()
        invariant
            0 <= idx <= cats.len(),
            builder@ == render_pre(catsv, chv, bview, idx as int),
        decreases cats.len() - idx,
    {
        let ghost at_start = builder@;
        let cat = &cats[idx];
        proof {
            assert(cat@ == catsv[idx as int]);
        }
        let existing: Option<&String> = match existing_sections {
            None => None,
            Some(v) => match &v[idx] {
                None => None,
                Some(s) => Some(s),
            },
        };
        proof {
            assert(match existing {
                None => body_at(bview, idx as int) is None,
                Some(s) => body_at(bview, idx as int) == Some(s@),
            });
        }
        let mut any = false;
        let mut t: usize = 0;
        #[verifier::loop_isolation(false)]
        while t < all_changes.len()
            invariant
                0 <= t <= all_changes.len(),
                any <==> exists|i: int| 0 <= i < t && chv[i].kind == catsv[idx as int],
            decreases all_changes.len() - t,
        {
            if str_eq(all_changes[t].kind.as_str(), cat.as_str()) {
                proof {
                    assert(chv[t as int].kind == catsv[idx as int]);
                }
                any = true;
            }
            t = t + 1;
        }
        proof {
            assert(any == has_cat(chv, catsv[idx as int]));
        }
        if any || existing.is_some() {
            builder.append("\n### ");
            builder.append(cat.as_str());
            builder.append("\n\n");
            if let Some(ex) = existing {
                let trimmed = trim_str(ex.as_str());
                builder.append(trimmed.as_str());
                builder.append("\n");
            }
            let ghost before_entries = builder@;
            let mut t2: usize = 0;
            #[verifier::loop_isolation(false)]
            while t2 < all_changes.len()
                invariant
                    0 <= t2 <= all_changes.len(),
                    builder@ == before_entries + entries_pre(chv, catsv[idx as int], t2 as int),
                decreases all_changes.len() - t2,
            {
                let ch = &all_changes[t2];
                if str_eq(ch.kind.as_str(), cat.as_str()) {
                    let md = ch.as_markdown().to_string();
                    builder.append(md.as_str());
                    builder.append("\n");
                    proof {
                        assert(builder@ =~= before_entries
                            + entries_pre(chv, catsv[idx as int], t2 + 1));
                    }
                } else {
                    proof {
                        assert(builder@ =~= before_entries
                            + entries_pre(chv, catsv[idx as int], t2 + 1));
                    }
                }
                t2 = t2 + 1;
            }
            proof {
                assert(builder@ =~= at_start
                    + cat_block(catsv[idx as int], body_at(bview, idx as int), chv));
                assert(builder@ =~= render_pre(catsv, chv, bview, idx + 1));
            }
        } else {
            proof {
                assert(cat_block(catsv[idx as int], body_at(bview, idx as int), chv)
                    =~= Seq::<char>::empty());
                assert(builder@ =~= render_pre(catsv, chv, bview, idx + 1));
            }
        }
        idx = idx + 1;
    }
    builder
}

// ---------------------------------------------------------------------------
// The merge itself
// ---------------------------------------------------------------------------

/// Append clones of `lines[from..to]` to `out`.
#[verifier::loop_isolation(false)]
fn append_range(out: &mut Vec<String>, lines: &Vec<String>, from: usize, to: usize)
    requires
        from <= to <= lines@.len(),
    ensures
        final(out).deep_view() == old(out).deep_view() + lines.deep_view().subrange(
            from as int,
            to as int,
        ),
{
    let mut k = from;
    proof {
        assert(out.deep_view() =~= old(out).deep_view() + lines.deep_view().subrange(
            from as int,
            from as int,
        ));
    }
    while k < to
        invariant
            from <= k <= to,
            out.deep_view() =~= old(out).deep_view() + lines.deep_view().subrange(
                from as int,
                k as int,
            ),
        decreases to - k,
    {
        let ghost prev = out.deep_view();
        let line = lines[k].clone();
        proof {
            assert(line@ == lines.deep_view()[k as int]);
        }
        out.push(line);
        proof {
            assert(out.deep_view() =~= prev.push(lines.deep_view()[k as int]));
            assert(out.deep_view() =~= old(out).deep_view() + lines.deep_view().subrange(
                from as int,
                k + 1,
            ));
        }
        k = k + 1;
    }
}

/// The text of an optional document.
pub open spec fn opt_str_view(o: Option<&String>) -> Option<Seq<char>> {
    match o {
        None => None,
        Some(s) => Some(s@),
    }
}

/// An optional line range, over mathematical integers.
pub open spec fn opt_range_view(o: Option<(usize, usize)>) -> Option<(int, int)> {
    match o {
        None => None,
        Some(p) => Some((p.0 as int, p.1 as int)),
    }
}

/// Compute the new changelog text from the old document text (or its absence)
/// and the decoded changes: locate or create the unreleased section and its
/// category subsections, refuse foreign content between them, and splice the
/// freshly rendered block in, keeping every other line as it was. Returns
/// exactly what `merge_spec` says.
#[verifier::loop_isolation(false)]
#[verifier::rlimit(60)]
pub fn merge_changelog(
    opts: &CommandOpts,
    old_content: Option<&String>,
    all_changes: &Vec<TinyChange>,
) -> (r: Result<String, MergeError>)
    ensures
        match r {
            Ok(s) => merge_spec(opts.categories_view(), all_changes.deep_view(), opt_str_view(old_content))
                == Ok::<Seq<char>, MergeErrorData>(s@),
            Err(e) => merge_spec(opts.categories_view(), all_changes.deep_view(), opt_str_view(old_content))
                == Err::<Seq<char>, MergeErrorData>(e@),
        },
{
    let ghost catsv = opts.categories_view();
    let ghost chv = all_changes.deep_view();
    let text = match old_content {
        None => {
            let content = format_changesets(opts, all_changes, None);
            let mut out = String::new();
            out.append("# Changelog\n\n## [Unreleased]\n");
            out.append(content.as_str());
            proof {
                assert(out@ =~= "# Changelog\n\n## [Unreleased]\n"@ + render_block(
                    catsv,
                    chv,
                    None,
                ));
            }
            return Ok(out);
        },
        Some(t) => t,
    };
    let lines = split_lines(text.as_str());
    let ghost lsv = lines.deep_view();
    let n = lines.len();
    proof {
        assert(n == lsv.len());
    }
    match crate::section::find_section(&lines, 0, n, false, "unreleased") {
        Some((us, ue)) => {
            let cats = opts.categories();
            let ghost rsv = cat_ranges(lsv, us as int, ue as int, catsv);
            let mut ranges: Vec<Option<(usize, usize)>> = Vec::new();
            let mut bodies: Vec<Option<String>> = Vec::new();
            let mut k: usize = 0;
            while k < cats.len()
                invariant
                    0 <= k <= cats.len(),
                    ranges@.len() == k as int,
                    bodies@.len() == k as int,
                    forall|j: int| 0 <= j < k ==> opt_range_view(ranges@[j]) == rsv[j],
                    forall|j: int| 0 <= j < k ==> bodies.deep_view()[j] == bodies_of(lsv, rsv)[j],
                decreases cats.len() - k,
            {
                proof {
                    assert(cats.deep_view()[k as int] == catsv[k as int]);
                }
                let ghost prev_r = ranges@;
                let ghost prev_b = bodies.deep_view();
                match crate::section::find_section(&lines, us + 1, ue, false, cats[k].as_str()) {
                    Some((s, e)) => {
                        let mut body_lines: Vec<String> = Vec::new();
                        append_range(&mut body_lines, &lines, s + 1, e);
                        let body = join_lines(&body_lines);
                        proof {
                            assert(body_lines.deep_view() =~= lsv.subrange(s + 1, e as int));
                            assert(body@ == body_of(lsv, (s as int, e as int)));
                            assert(rsv[k as int] == Some((s as int, e as int)));
                        }
                        ranges.push(Some((s, e)));
                        bodies.push(Some(body));
                        proof {
                            assert(bodies.deep_view() =~= prev_b.push(Some(body@)));
                            assert(bodies_of(lsv, rsv)[k as int] == Some(
                                body_of(lsv, (s as int, e as int)),
                            ));
                        }
                    },
                    None => {
                        proof {
                            assert(rsv[k as int] is None);
                        }
                        ranges.push(None);
                        bodies.push(None);
                        proof {
                            assert(bodies.deep_view() =~= prev_b.push(None));
                            assert(bodies_of(lsv, rsv)[k as int] is None);
                        }
                    },
                }
                k = k + 1;
            }
            let mut any = false;
            let mut earliest: usize = ue;
            let mut latest: usize = ue;
            let mut m: usize = 0;
            while m < ranges.len()
                invariant
                    0 <= m <= ranges@.len(),
                    any == (min_start_pre(rsv, m as int) is Some),
                    any == (max_end_pre(rsv, m as int) is Some),
                    any ==> min_start_pre(rsv, m as int) == Some(earliest as int),
                    any ==> max_end_pre(rsv, m as int) == Some(latest as int),
                    any ==> us < earliest && earliest < latest && latest <= ue,
                    !any ==> earliest == ue && latest == ue,
                decreases ranges@.len() - m,
            {
                let rg = ranges[m];
                proof {
                    assert(opt_range_view(rg) == rsv[m as int]);
                    crate::section::lemma_find_section_spec_bounds(
                        lsv,
                        us + 1,
                        ue as int,
                        false,
                        catsv[m as int],
                    );
                }
                if let Some(p) = rg {
                    let (s, e) = p;
                    if !any {
                        any = true;
                        earliest = s;
                        latest = e;
                    } else {
                        if s < earliest {
                            earliest = s;
                        }
                        if e > latest {
                            latest = e;
                        }
                    }
                }
                m = m + 1;
            }
            let ghost spec_earliest = match min_start_pre(rsv, rsv.len() as int) {
                None => ue as int,
                Some(v) => v,
            };
            let ghost spec_latest = match max_end_pre(rsv, rsv.len() as int) {
                None => ue as int,
                Some(v) => v,
            };
            proof {
                assert(earliest as int == spec_earliest);
                assert(latest as int == spec_latest);
            }
            if any {
                let mut idx: usize = earliest;
                while idx < latest
                    invariant
                        earliest <= idx <= latest,
                        first_violation(lsv, rsv, earliest as int, latest as int)
                            == first_violation(lsv, rsv, idx as int, latest as int),
                    decreases latest - idx,
                {
                    if !crate::text::is_blank(lines[idx].as_str()) {
                        let mut inr = false;
                        let mut w: usize = 0;
                        while w < ranges.len()
                            invariant
                                0 <= w <= ranges@.len(),
                                inr == exists|j: int|
                                    0 <= j < w && (#[trigger] rsv[j] matches Some(rr) && rr.0 <= idx
                                        < rr.1),
                            decreases ranges@.len() - w,
                        {
                            let rg = ranges[w];
                            proof {
                                assert(opt_range_view(rg) == rsv[w as int]);
                            }
                            if let Some(p) = rg {
                                if p.0 <= idx && idx < p.1 {
                                    proof {
                                        assert(rsv[w as int] matches Some(rr) && rr.0 <= idx < rr.1);
                                    }
                                    inr = true;
                                }
                            }
                            w = w + 1;
                        }
                        proof {
                            assert(inr == in_found_range(rsv, idx as int));
                        }
                        if !inr {
                            return Err(
                                MergeError::UnexpectedContent {
                                    line: idx + 1,
                                    content: lines[idx].clone(),
                                },
                            );
                        }
                    }
                    idx = idx + 1;
                }
            }
            proof {
                assert(bodies.deep_view() =~= bodies_of(lsv, rsv));
            }
            let content = format_changesets(opts, all_changes, Some(&bodies));
            let ghost contentv = content@;
            let mut cut: usize = earliest;
            while cut > 0 && crate::text::is_blank(lines[cut - 1].as_str())
                invariant
                    0 <= cut <= earliest,
                    cut_back(lsv, earliest as int) == cut_back(lsv, cut as int),
                decreases cut,
            {
                cut = cut - 1;
            }
            proof {
                assert(cut_back(lsv, earliest as int) == cut as int);
            }
            let mut out: Vec<String> = Vec::new();
            append_range(&mut out, &lines, 0, cut);
            out.push(content);
            append_range(&mut out, &lines, latest, n);
            proof {
                assert(out.deep_view() =~= lsv.subrange(0, cut as int) + seq![contentv]
                    + lsv.subrange(latest as int, n as int));
            }
            Ok(join_lines(&out))
        },
        None => match crate::section::find_section(&lines, 0, n, true, "changelog") {
            Some((_cs, ce)) => {
                let content = format_changesets(opts, all_changes, None);
                let ghost contentv = content@;
                let mut out: Vec<String> = Vec::new();
                if ce > 0 && crate::text::is_blank(lines[ce - 1].as_str()) {
                    append_range(&mut out, &lines, 0, ce - 1);
                } else {
                    append_range(&mut out, &lines, 0, ce);
                }
                let ghost prev = out.deep_view();
                out.push(String::from_str("\n## [Unreleased]"));
                out.push(content);
                append_range(&mut out, &lines, ce, n);
                proof {
                    assert(out.deep_view() =~= prev + seq!["\n## [Unreleased]"@, contentv]
                        + lsv.subrange(ce as int, n as int));
                }
                Ok(join_lines(&out))
            },
            None => Err(MergeError::NoAnchorSection),
        },
    }
}

} // verus!
