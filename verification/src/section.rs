use vstd::prelude::*;
use crate::text::{is_ws, is_ws_char};

verus! {

// ---------------------------------------------------------------------------
// Heading lines
// ---------------------------------------------------------------------------

/// The number of leading `#` characters.
pub open spec fn hash_prefix_len(s: Seq<char>) -> nat
    decreases s.len(),
{
    if s.len() > 0 && s[0] == '#' {
        1 + hash_prefix_len(s.subrange(1, s.len() as int))
    } else {
        0
    }
}

/// The number of leading white-space characters.
pub open spec fn ws_prefix_len(s: Seq<char>) -> nat
    decreases s.len(),
{
    if s.len() > 0 && is_ws_char(s[0]) {
        1 + ws_prefix_len(s.subrange(1, s.len() as int))
    } else {
        0
    }
}

/// A line is a heading exactly when it starts with a `#`.
pub open spec fn is_heading(line: Seq<char>) -> bool {
    line.len() > 0 && line[0] == '#'
}

pub proof fn lemma_hash_prefix_is(s: Seq<char>, k: int)
    requires
        0 <= k <= s.len(),
        forall|j: int| 0 <= j < k ==> s[j] == '#',
        k == s.len() || s[k] != '#',
    ensures
        hash_prefix_len(s) == k,
    decreases s.len(),
{
    if s.len() > 0 && s[0] == '#' {
        let t = s.subrange(1, s.len() as int);
        assert(forall|j: int| 0 <= j < k - 1 ==> t[j] == s[j + 1]);
        lemma_hash_prefix_is(t, k - 1);
    }
}

pub proof fn lemma_ws_prefix_is(s: Seq<char>, k: int)
    requires
        0 <= k <= s.len(),
        forall|j: int| 0 <= j < k ==> is_ws_char(s[j]),
        k == s.len() || !is_ws_char(s[k]),
    ensures
        ws_prefix_len(s) == k,
    decreases s.len(),
{
    if s.len() > 0 && is_ws_char(s[0]) {
        let t = s.subrange(1, s.len() as int);
        assert(forall|j: int| 0 <= j < k - 1 ==> t[j] == s[j + 1]);
        lemma_ws_prefix_is(t, k - 1);
    }
}

/// The heading depth of a line: how many `#` characters open it.
#[verifier::loop_isolation(false)]
pub fn heading_depth(line: &str) -> (d: usize)
    ensures
        d == hash_prefix_len(line@),
{
    let n = line.unicode_len();
    let mut h: usize = 0;
    while h < n && line.get_char(h) == '#'
        invariant
            0 <= h <= n,
            n == line@.len(),
            forall|j: int| 0 <= j < h ==> line@[j] == '#',
        decreases n - h,
    {
        h = h + 1;
    }
    proof {
        lemma_hash_prefix_is(line@, h as int);
    }
    h
}

// ---------------------------------------------------------------------------
// Case-insensitive, bracket-tolerant heading match
// ---------------------------------------------------------------------------

/// A character's code point with an ASCII capital letter folded to its small
/// form: the match on heading words ignores ASCII case.
pub open spec fn fold_char(c: char) -> int {
    let u = c as u32;
    if 65 <= u && u <= 90 {
        u + 32
    } else {
        u as int
    }
}

fn fold_c(c: char) -> (r: u32)
    ensures
        r as int == fold_char(c),
{
    let u = c as u32;
    if 65 <= u && u <= 90 {
        u + 32
    } else {
        u
    }
}

/// Whether a heading line matches a section word: one or more `#`, optional
/// white space, an optional `[`, optional white space, then the word itself,
/// compared ignoring ASCII case; anything may follow.
pub open spec fn heading_matches(line: Seq<char>, word: Seq<char>) -> bool {
    let h = hash_prefix_len(line) as int;
    if h == 0 {
        false
    } else {
        let r1 = line.subrange(h, line.len() as int);
        let w1 = ws_prefix_len(r1) as int;
        let r2 = r1.subrange(w1, r1.len() as int);
        let r3 = if r2.len() > 0 && r2[0] == '[' {
            r2.subrange(1, r2.len() as int)
        } else {
            r2
        };
        let w2 = ws_prefix_len(r3) as int;
        let r4 = r3.subrange(w2, r3.len() as int);
        word.len() <= r4.len() && (forall|j: int|
            0 <= j < word.len() ==> fold_char(r4[j]) == fold_char(word[j]))
    }
}

/// Whether `line` is a heading for `word`, per `heading_matches`.
#[verifier::loop_isolation(false)]
pub fn heading_matches_line(line: &str, word: &str) -> (r: bool)
    ensures
        r == heading_matches(line@, word@),
{
    let n = line.unicode_len();
    let mut h: usize = 0;
    while h < n && line.get_char(h) == '#'
        invariant
            0 <= h <= n,
            n == line@.len(),
            forall|j: int| 0 <= j < h ==> line@[j] == '#',
        decreases n - h,
    {
        h = h + 1;
    }
    proof {
        lemma_hash_prefix_is(line@, h as int);
    }
    if h == 0 {
        return false;
    }
    let ghost r1 = line@.subrange(h as int, n as int);
    let mut p: usize = h;
    while p < n && is_ws(line.get_char(p))
        invariant
            h <= p <= n,
            n == line@.len(),
            forall|j: int| h <= j < p ==> is_ws_char(line@[j]),
        decreases n - p,
    {
        p = p + 1;
    }
    proof {
        assert(forall|j: int| 0 <= j < p - h ==> r1[j] == line@[j + h] && is_ws_char(r1[j]));
        lemma_ws_prefix_is(r1, p - h);
    }
    let ghost r2 = r1.subrange(p - h, r1.len() as int);
    let mut q: usize = p;
    if q < n && line.get_char(q) == '[' {
        q = q + 1;
    }
    let ghost r3 = if r2.len() > 0 && r2[0] == '[' {
        r2.subrange(1, r2.len() as int)
    } else {
        r2
    };
    proof {
        assert(r3 =~= line@.subrange(q as int, n as int));
    }
    let mut t: usize = q;
    while t < n && is_ws(line.get_char(t))
        invariant
            q <= t <= n,
            n == line@.len(),
            forall|j: int| q <= j < t ==> is_ws_char(line@[j]),
        decreases n - t,
    {
        t = t + 1;
    }
    proof {
        assert(forall|j: int| 0 <= j < t - q ==> r3[j] == line@[j + q] && is_ws_char(r3[j]));
        lemma_ws_prefix_is(r3, t - q);
    }
    let ghost r4 = r3.subrange(t - q, r3.len() as int);
    proof {
        assert(r4 =~= line@.subrange(t as int, n as int));
    }
    let m = word.unicode_len();
    if m > n - t {
        return false;
    }
    let mut j: usize = 0;
    while j < m
        invariant
            0 <= j <= m,
            m == word@.len(),
            t + m <= n,
            n == line@.len(),
            r4 == line@.subrange(t as int, n as int),
            forall|k: int| 0 <= k < j ==> fold_char(r4[k]) == fold_char(word@[k]),
        decreases m - j,
    {
        if fold_c(line.get_char(t + j)) != fold_c(word.get_char(j)) {
            return false;
        }
        j = j + 1;
    }
    true
}

// ---------------------------------------------------------------------------
// Locating a section
// ---------------------------------------------------------------------------

/// Index of the first heading in `[i, end)` that matches `word`.
pub open spec fn find_start(lines: Seq<Seq<char>>, i: int, end: int, word: Seq<char>) -> Option<
    int,
>
    decreases end - i,
{
    if i < 0 || i >= end {
        None
    } else if heading_matches(lines[i], word) {
        Some(i)
    } else {
        find_start(lines, i + 1, end, word)
    }
}

/// Whether a line terminates a section that opened at `depth`: any heading if
/// depth matching is ignored, else a heading whose depth is no greater.
pub open spec fn section_closes(line: Seq<char>, depth: int, ignore: bool) -> bool {
    is_heading(line) && (ignore || hash_prefix_len(line) <= depth)
}

/// Index of the first line in `[i, end)` that closes a section of the given
/// depth, or `end` when none does.
pub open spec fn find_end(lines: Seq<Seq<char>>, i: int, end: int, depth: int, ignore: bool) -> int
    decreases end - i,
{
    if i < 0 || i >= end {
        end
    } else if section_closes(lines[i], depth, ignore) {
        i
    } else {
        find_end(lines, i + 1, end, depth, ignore)
    }
}

/// The section for `word` within `[start, end)`: the first matching heading
/// line through (exclusive) the line that closes it.
pub open spec fn find_section_spec(
    lines: Seq<Seq<char>>,
    start: int,
    end: int,
    ignore: bool,
    word: Seq<char>,
) -> Option<(int, int)> {
    match find_start(lines, start, end, word) {
        None => None,
        Some(s) => Some(
            (s, find_end(lines, s + 1, end, hash_prefix_len(lines[s]) as int, ignore)),
        ),
    }
}

pub proof fn lemma_find_start_bounds(lines: Seq<Seq<char>>, i: int, end: int, word: Seq<char>)
    ensures
        match find_start(lines, i, end, word) {
            Some(s) => i <= s < end,
            None => true,
        },
    decreases end - i,
{
    if !(i < 0 || i >= end) && !heading_matches(lines[i], word) {
        lemma_find_start_bounds(lines, i + 1, end, word);
    }
}

pub proof fn lemma_find_end_bounds(lines: Seq<Seq<char>>, i: int, end: int, depth: int, ignore: bool)
    requires
        0 <= i <= end,
    ensures
        i <= find_end(lines, i, end, depth, ignore) <= end,
    decreases end - i,
{
    if !(i < 0 || i >= end) && !section_closes(lines[i], depth, ignore) {
        lemma_find_end_bounds(lines, i + 1, end, depth, ignore);
    }
}

/// The first matching heading is pinned down by its characteristic
/// properties; `k == end` stands for no match at all.
pub proof fn lemma_find_start_is(
    lines: Seq<Seq<char>>,
    i: int,
    end: int,
    word: Seq<char>,
    k: int,
)
    requires
        0 <= i <= k <= end,
        forall|j: int| i <= j < k ==> !heading_matches(lines[j], word),
        k == end || heading_matches(lines[k], word),
    ensures
        find_start(lines, i, end, word) == if k == end {
            None::<int>
        } else {
            Some(k)
        },
    decreases k - i,
{
    if i < k {
        lemma_find_start_is(lines, i + 1, end, word, k);
    }
}

/// The line that closes a section is pinned down the same way.
pub proof fn lemma_find_end_is(
    lines: Seq<Seq<char>>,
    i: int,
    end: int,
    depth: int,
    ignore: bool,
    k: int,
)
    requires
        0 <= i <= k <= end,
        forall|j: int| i <= j < k ==> !section_closes(lines[j], depth, ignore),
        k == end || section_closes(lines[k], depth, ignore),
    ensures
        find_end(lines, i, end, depth, ignore) == k,
    decreases k - i,
{
    if i < k {
        lemma_find_end_is(lines, i + 1, end, depth, ignore, k);
    }
}

/// A found section lies inside the searched range, and is never empty.
pub proof fn lemma_find_section_spec_bounds(
    lines: Seq<Seq<char>>,
    start: int,
    end: int,
    ignore: bool,
    word: Seq<char>,
)
    requires
        0 <= start,
    ensures
        match find_section_spec(lines, start, end, ignore, word) {
            Some(r) => start <= r.0 < r.1 <= end,
            None => true,
        },
{
    lemma_find_start_bounds(lines, start, end, word);
    match find_start(lines, start, end, word) {
        Some(s) => {
            lemma_find_end_bounds(lines, s + 1, end, hash_prefix_len(lines[s]) as int, ignore);
        },
        None => {},
    }
}

/// Find the section in `lines[start..end]` whose heading matches `word`: the
/// range from that heading up to the next heading that closes it (one of
/// equal-or-lesser depth, or, when `ignore_depth` is set, the very next
/// heading), else to `end`.
#[verifier::loop_isolation(false)]
pub fn find_section(
    lines: &Vec<String>,
    start: usize,
    end: usize,
    ignore_depth: bool,
    word: &str,
) -> (r: Option<(usize, usize)>)
    requires
        start <= end <= lines@.len(),
    ensures
        match r {
            Some(p) => {
                &&& find_section_spec(lines.deep_view(), start as int, end as int, ignore_depth, word@)
                    == Some((p.0 as int, p.1 as int))
                &&& start <= p.0 < p.1 <= end
            },
            None => find_section_spec(lines.deep_view(), start as int, end as int, ignore_depth, word@)
                is None,
        },
{
    let ghost lsv = lines.deep_view();
    let ghost wv = word@;
    let mut i: usize = start;
    while i < end && !heading_matches_line(lines[i].as_str(), word)
        invariant
            start <= i <= end <= lines@.len(),
            lsv == lines.deep_view(),
            find_start(lsv, start as int, end as int, wv) == find_start(lsv, i as int, end as int, wv),
        decreases end - i,
    {
        i = i + 1;
    }
    if i >= end {
        return None;
    }
    let s = i;
    let d = heading_depth(lines[s].as_str());
    let mut j: usize = s + 1;
    while j < end && !line_closes(lines[j].as_str(), d, ignore_depth)
        invariant
            s + 1 <= j <= end <= lines@.len(),
            lsv == lines.deep_view(),
            d == hash_prefix_len(lsv[s as int]),
            find_end(lsv, s + 1, end as int, d as int, ignore_depth)
                == find_end(lsv, j as int, end as int, d as int, ignore_depth),
        decreases end - j,
    {
        j = j + 1;
    }
    Some((s, j))
}

/// Whether the line closes a section of the given depth.
fn line_closes(line: &str, depth: usize, ignore_depth: bool) -> (r: bool)
    ensures
        r == section_closes(line@, depth as int, ignore_depth),
{
    let n = line.unicode_len();
    if n == 0 || line.get_char(0) != '#' {
        return false;
    }
    if ignore_depth {
        return true;
    }
    heading_depth(line) <= depth
}

} // verus!
