use vstd::prelude::*;

verus! {

// ---------------------------------------------------------------------------
// Character classification
// ---------------------------------------------------------------------------

/// The Unicode white-space code points: the set that `str::trim` and the
/// `\s` character class recognize.
pub open spec fn is_ws_char(c: char) -> bool {
    let u = c as u32;
    (0x09 <= u && u <= 0x0D) || u == 0x20 || u == 0x85 || u == 0xA0 || u == 0x1680
        || (0x2000 <= u && u <= 0x200A) || u == 0x2028 || u == 0x2029 || u == 0x202F
        || u == 0x205F || u == 0x3000
}

pub fn is_ws(c: char) -> (r: bool)
    ensures
        r == is_ws_char(c),
{
    let u = c as u32;
    (0x09 <= u && u <= 0x0D) || u == 0x20 || u == 0x85 || u == 0xA0 || u == 0x1680
        || (0x2000 <= u && u <= 0x200A) || u == 0x2028 || u == 0x2029 || u == 0x202F
        || u == 0x205F || u == 0x3000
}

/// A sequence of characters is blank when every character is white space.
pub open spec fn is_blank_seq(s: Seq<char>) -> bool {
    forall|i: int| 0 <= i < s.len() ==> is_ws_char(s[i])
}

// ---------------------------------------------------------------------------
// First occurrence of a character
// ---------------------------------------------------------------------------

/// Index of the first occurrence of `c` in `s`, or `s.len()` if absent.
pub open spec fn first_occ(s: Seq<char>, c: char) -> nat
    decreases s.len(),
{
    if s.len() == 0 {
        0
    } else if s[0] == c {
        0
    } else {
        1 + first_occ(s.subrange(1, s.len() as int), c)
    }
}

pub proof fn lemma_first_occ_bounds(s: Seq<char>, c: char)
    ensures
        first_occ(s, c) <= s.len(),
        first_occ(s, c) < s.len() ==> s[first_occ(s, c) as int] == c,
        forall|j: int| 0 <= j < first_occ(s, c) ==> s[j] != c,
    decreases s.len(),
{
    if s.len() > 0 && s[0] != c {
        let t = s.subrange(1, s.len() as int);
        lemma_first_occ_bounds(t, c);
        assert(forall|j: int| 1 <= j < first_occ(s, c) ==> s[j] == t[j - 1] && t[j - 1] != c);
    }
}

/// The first occurrence is pinned down by its characteristic properties.
pub proof fn lemma_first_occ_is(s: Seq<char>, c: char, k: int)
    requires
        0 <= k <= s.len(),
        forall|j: int| 0 <= j < k ==> s[j] != c,
        k == s.len() || s[k] == c,
    ensures
        first_occ(s, c) == k,
    decreases s.len(),
{
    if s.len() > 0 && s[0] != c {
        let t = s.subrange(1, s.len() as int);
        assert(forall|j: int| 0 <= j < k - 1 ==> t[j] != c);
        lemma_first_occ_is(t, c, k - 1);
    }
}

// ---------------------------------------------------------------------------
// Trimming white space
// ---------------------------------------------------------------------------

/// The input without its leading white space.
pub open spec fn trim_start_spec(s: Seq<char>) -> Seq<char>
    decreases s.len(),
{
    if s.len() > 0 && is_ws_char(s[0]) {
        trim_start_spec(s.subrange(1, s.len() as int))
    } else {
        s
    }
}

/// The input without its trailing white space.
pub open spec fn trim_end_spec(s: Seq<char>) -> Seq<char>
    decreases s.len(),
{
    if s.len() > 0 && is_ws_char(s[s.len() - 1]) {
        trim_end_spec(s.subrange(0, s.len() - 1))
    } else {
        s
    }
}

/// What `str::trim` returns: the input without leading and trailing white space.
pub open spec fn trim_spec(s: Seq<char>) -> Seq<char> {
    trim_end_spec(trim_start_spec(s))
}

pub proof fn lemma_trim_start_at(s: Seq<char>, a: int)
    requires
        0 <= a <= s.len(),
        forall|j: int| 0 <= j < a ==> is_ws_char(s[j]),
        a == s.len() || !is_ws_char(s[a]),
    ensures
        trim_start_spec(s) =~= s.subrange(a, s.len() as int),
    decreases s.len(),
{
    if s.len() > 0 && is_ws_char(s[0]) {
        let t = s.subrange(1, s.len() as int);
        assert(a >= 1);
        assert(forall|j: int| 0 <= j < a - 1 ==> t[j] == s[j + 1] && is_ws_char(t[j]));
        lemma_trim_start_at(t, a - 1);
    }
}

pub proof fn lemma_trim_end_at(s: Seq<char>, b: int)
    requires
        0 <= b <= s.len(),
        forall|j: int| b <= j < s.len() ==> is_ws_char(s[j]),
        b == 0 || !is_ws_char(s[b - 1]),
    ensures
        trim_end_spec(s) =~= s.subrange(0, b),
    decreases s.len(),
{
    if s.len() > 0 && is_ws_char(s[s.len() - 1]) {
        let t = s.subrange(0, s.len() - 1);
        assert(b < s.len());
        assert(forall|j: int| b <= j < t.len() ==> t[j] == s[j] && is_ws_char(t[j]));
        lemma_trim_end_at(t, b);
    }
}

/// `str::trim`: drop leading and trailing white space, by characters.
#[verifier::loop_isolation(false)]
pub fn trim_str(s: &str) -> (r: String)
    ensures
        r@ == trim_spec(s@),
{
    let n = s.unicode_len();
    let mut a: usize = 0;
    while a < n && is_ws(s.get_char(a))
        invariant
            0 <= a <= n,
            n == s@.len(),
            forall|j: int| 0 <= j < a ==> is_ws_char(s@[j]),
        decreases n - a,
    {
        a = a + 1;
    }
    let mut b: usize = n;
    while b > a && is_ws(s.get_char(b - 1))
        invariant
            a <= b <= n,
            n == s@.len(),
            a == n || !is_ws_char(s@[a as int]),
            forall|j: int| b <= j < n ==> is_ws_char(s@[j]),
        decreases b,
    {
        b = b - 1;
    }
    proof {
        lemma_trim_start_at(s@, a as int);
        let t = s@.subrange(a as int, s@.len() as int);
        assert(forall|j: int| b - a <= j < t.len() ==> t[j] == s@[j + a] && is_ws_char(t[j]));
        lemma_trim_end_at(t, b - a);
        assert(t.subrange(0, b - a) =~= s@.subrange(a as int, b as int));
    }
    s.substring_char(a, b).to_owned()
}

/// Whether the line holds only white space.
#[verifier::loop_isolation(false)]
pub fn is_blank(s: &str) -> (r: bool)
    ensures
        r == is_blank_seq(s@),
{
    let n = s.unicode_len();
    let mut i: usize = 0;
    while i < n
        invariant
            0 <= i <= n,
            n == s@.len(),
            forall|j: int| 0 <= j < i ==> is_ws_char(s@[j]),
        decreases n - i,
    {
        if !is_ws(s.get_char(i)) {
            return false;
        }
        i = i + 1;
    }
    true
}

// ---------------------------------------------------------------------------
// Splitting a document into lines, and joining lines back
// ---------------------------------------------------------------------------

/// Drop one carriage return at the end, if present: what `str::lines` does to
/// each segment that ends just before a line feed.
pub open spec fn strip_cr(s: Seq<char>) -> Seq<char> {
    if s.len() > 0 && s[s.len() - 1] == '\r' {
        s.subrange(0, s.len() - 1)
    } else {
        s
    }
}

/// What `str::lines` yields: segments split at `\n`, a `\r` just before each
/// `\n` dropped, and no final empty segment for a trailing line feed.
pub open spec fn split_lines_spec(s: Seq<char>) -> Seq<Seq<char>>
    decreases s.len(),
{
    if s.len() == 0 {
        Seq::empty()
    } else {
        let i = first_occ(s, '\n') as int;
        if i >= s.len() {
            seq![s]
        } else {
            seq![strip_cr(s.subrange(0, i))] + split_lines_spec(s.subrange(i + 1, s.len() as int))
        }
    }
}

/// The lines of [0, k) joined with a line feed between each two.
pub open spec fn join_pre(lines: Seq<Seq<char>>, k: int) -> Seq<char>
    decreases k,
{
    if k <= 0 {
        Seq::empty()
    } else if k == 1 {
        lines[0]
    } else {
        join_pre(lines, k - 1) + "\n"@ + lines[k - 1]
    }
}

/// All lines joined with a line feed between each two.
pub open spec fn join_lines_spec(lines: Seq<Seq<char>>) -> Seq<char> {
    join_pre(lines, lines.len() as int)
}

#[verifier::loop_isolation(false)]
pub fn split_lines(s: &str) -> (v: Vec<String>)
    ensures
        v.deep_view() == split_lines_spec(s@),
{
    let n = s.unicode_len();
    let mut v: Vec<String> = Vec::new();
    let mut i: usize = 0;
    proof {
        assert(s@.subrange(0, n as int) =~= s@);
        assert(v.deep_view() =~= Seq::<Seq<char>>::empty());
    }
    while i < n
        invariant
            0 <= i <= n,
            n == s@.len(),
            split_lines_spec(s@) =~= v.deep_view() + split_lines_spec(s@.subrange(i as int, n as int)),
        decreases n - i,
    {
        let ghost prev = v.deep_view();
        let ghost rest = s@.subrange(i as int, n as int);
        let mut j: usize = i;
        while j < n && s.get_char(j) != '\n'
            invariant
                i <= j <= n,
                n == s@.len(),
                forall|k: int| i <= k < j ==> s@[k] != '\n',
            decreases n - j,
        {
            j = j + 1;
        }
        proof {
            assert(forall|k: int| 0 <= k < j - i ==> rest[k] == s@[k + i] && rest[k] != '\n');
            lemma_first_occ_is(rest, '\n', j - i);
        }
        if j < n {
            let line: String = if j > i && s.get_char(j - 1) == '\r' {
                s.substring_char(i, j - 1).to_owned()
            } else {
                s.substring_char(i, j).to_owned()
            };
            proof {
                assert(rest.subrange(0, j - i) =~= s@.subrange(i as int, j as int));
                assert(strip_cr(rest.subrange(0, j - i)) =~= line@);
                assert(rest.subrange(j - i + 1, rest.len() as int)
                    =~= s@.subrange(j + 1, n as int));
            }
            v.push(line);
            proof {
                assert(v.deep_view() =~= prev + seq![strip_cr(rest.subrange(0, j - i))]);
                assert(split_lines_spec(s@) =~= v.deep_view()
                    + split_lines_spec(s@.subrange(j + 1 as int, n as int)));
            }
            i = j + 1;
        } else {
            let line: String = s.substring_char(i, n).to_owned();
            proof {
                assert(line@ =~= rest);
            }
            v.push(line);
            proof {
                assert(v.deep_view() =~= prev + seq![rest]);
                assert(s@.subrange(n as int, n as int).len() == 0);
                assert(split_lines_spec(s@) =~= v.deep_view()
                    + split_lines_spec(s@.subrange(n as int, n as int)));
            }
            i = n;
        }
    }
    proof {
        assert(s@.subrange(n as int, n as int).len() == 0);
        assert(v.deep_view() =~= v.deep_view() + split_lines_spec(s@.subrange(i as int, n as int)));
    }
    v
}

#[verifier::loop_isolation(false)]
pub fn join_lines(v: &Vec<String>) -> (r: String)
    ensures
        r@ == join_lines_spec(v.deep_view()),
{
    let mut r = String::new();
    let mut i: usize = 0;
    while i < v.len()
        invariant
            0 <= i <= v.len(),
            r@ == join_pre(v.deep_view(), i as int),
        decreases v.len() - i,
    {
        if i > 0 {
            r.append("\n");
        }
        r.append(v[i].as_str());
        i = i + 1;
    }
    r
}

// ---------------------------------------------------------------------------
// How splitting, joining and trimming interact
// ---------------------------------------------------------------------------

/// Splitting peels off a line-feed-free prefix as its first line.
pub proof fn lemma_split_lines_concat(x: Seq<char>, y: Seq<char>)
    requires
        forall|j: int| 0 <= j < x.len() ==> x[j] != '\n',
    ensures
        split_lines_spec(x + seq!['\n'] + y) == seq![strip_cr(x)] + split_lines_spec(y),
{
    let s = x + seq!['\n'] + y;
    assert(forall|j: int| 0 <= j < x.len() ==> s[j] == x[j]);
    assert(s[x.len() as int] == '\n');
    lemma_first_occ_is(s, '\n', x.len() as int);
    assert(s.subrange(0, x.len() as int) =~= x);
    assert(s.subrange(x.len() as int + 1, s.len() as int) =~= y);
}

proof fn lemma_join_pre_cons(x: Seq<char>, ls: Seq<Seq<char>>, k: int)
    requires
        0 <= k <= ls.len(),
    ensures
        join_pre(seq![x] + ls, k + 1) == if k == 0 {
            x
        } else {
            x + "\n"@ + join_pre(ls, k)
        },
    decreases k,
{
    let m = seq![x] + ls;
    if k == 0 {
        assert(join_pre(m, 1) == m[0]);
    } else {
        lemma_join_pre_cons(x, ls, k - 1);
        assert(m[k] == ls[k - 1]);
        if k == 1 {
            assert(join_pre(m, 2) == join_pre(m, 1) + "\n"@ + m[1]);
        } else {
            assert(join_pre(m, k + 1) == join_pre(m, k) + "\n"@ + m[k]);
            assert((x + "\n"@ + join_pre(ls, k - 1)) + "\n"@ + ls[k - 1] =~= x + "\n"@ + (join_pre(
                ls,
                k - 1,
            ) + "\n"@ + ls[k - 1]));
        }
    }
}

/// Joining a non-empty line list puts its first line first.
pub proof fn lemma_join_cons(x: Seq<char>, ls: Seq<Seq<char>>)
    ensures
        join_lines_spec(seq![x] + ls) == if ls.len() == 0 {
            x
        } else {
            x + "\n"@ + join_lines_spec(ls)
        },
{
    lemma_join_pre_cons(x, ls, ls.len() as int);
    assert((seq![x] + ls).len() == ls.len() + 1);
}

/// Joining the lines of a text gives the text back, as long as the text has
/// no carriage return and no trailing line feed.
pub proof fn lemma_join_split_id(m: Seq<char>)
    requires
        forall|j: int| 0 <= j < m.len() ==> m[j] != '\r',
        m.len() == 0 || m[m.len() - 1] != '\n',
    ensures
        join_lines_spec(split_lines_spec(m)) == m,
    decreases m.len(),
{
    reveal_strlit("\n");
    if m.len() == 0 {
    } else {
        lemma_first_occ_bounds(m, '\n');
        let i = first_occ(m, '\n') as int;
        if i >= m.len() {
            assert(split_lines_spec(m) == seq![m]);
            assert(join_lines_spec(seq![m]) == m);
        } else {
            let x = m.subrange(0, i);
            let y = m.subrange(i + 1, m.len() as int);
            assert(m[m.len() - 1] != '\n');
            assert(i < m.len() - 1);
            assert(y.len() > 0);
            assert(m =~= x + seq!['\n'] + y);
            lemma_split_lines_concat(x, y);
            assert(strip_cr(x) == x);
            lemma_join_split_id(y);
            assert(split_lines_spec(y).len() > 0);
            lemma_join_cons(x, split_lines_spec(y));
            assert("\n"@ =~= seq!['\n']);
            assert(x + "\n"@ + y =~= m);
        }
    }
}

proof fn lemma_join_pre_agree(ls1: Seq<Seq<char>>, ls2: Seq<Seq<char>>, k: int)
    requires
        k <= ls1.len(),
        k <= ls2.len(),
        forall|j: int| 0 <= j < k ==> ls1[j] == ls2[j],
    ensures
        join_pre(ls1, k) == join_pre(ls2, k),
    decreases k,
{
    if k > 1 {
        lemma_join_pre_agree(ls1, ls2, k - 1);
    }
}

/// Joining a line list with one more line at its end.
pub proof fn lemma_join_snoc(ls: Seq<Seq<char>>, y: Seq<char>)
    ensures
        join_lines_spec(ls.push(y)) == if ls.len() == 0 {
            y
        } else {
            join_lines_spec(ls) + "\n"@ + y
        },
{
    let m = ls.push(y);
    if ls.len() == 0 {
        assert(join_pre(m, 1) == m[0]);
    } else {
        lemma_join_pre_agree(m, ls, ls.len() as int);
        assert(join_pre(m, m.len() as int) == join_pre(m, ls.len() as int) + "\n"@
            + m[ls.len() as int]);
    }
}

/// Joining distributes over concatenation of non-empty line lists.
pub proof fn lemma_join_append(xs: Seq<Seq<char>>, ys: Seq<Seq<char>>)
    requires
        xs.len() > 0,
        ys.len() > 0,
    ensures
        join_lines_spec(xs + ys) == join_lines_spec(xs) + "\n"@ + join_lines_spec(ys),
    decreases ys.len(),
{
    let y = ys[ys.len() - 1];
    let ys0 = ys.subrange(0, ys.len() - 1);
    assert(xs + ys =~= (xs + ys0).push(y));
    lemma_join_snoc(xs + ys0, y);
    if ys0.len() == 0 {
        assert(xs + ys0 =~= xs);
        lemma_join_snoc(Seq::<Seq<char>>::empty(), y);
        assert(ys =~= Seq::<Seq<char>>::empty().push(y));
    } else {
        lemma_join_append(xs, ys0);
        lemma_join_snoc(ys0, y);
        assert(ys =~= ys0.push(y));
        assert((join_lines_spec(xs) + "\n"@ + join_lines_spec(ys0)) + "\n"@ + y =~= join_lines_spec(
            xs,
        ) + "\n"@ + (join_lines_spec(ys0) + "\n"@ + y));
    }
}

/// White space around a sequence with bare ends trims away.
pub proof fn lemma_trim_ws_around(p: Seq<char>, a: Seq<char>, q: Seq<char>)
    requires
        forall|j: int| 0 <= j < p.len() ==> is_ws_char(p[j]),
        forall|j: int| 0 <= j < q.len() ==> is_ws_char(q[j]),
        a.len() > 0,
        !is_ws_char(a[0]),
        !is_ws_char(a[a.len() - 1]),
    ensures
        trim_spec(p + a + q) == a,
{
    let s = p + a + q;
    assert(forall|j: int| 0 <= j < p.len() ==> is_ws_char(s[j]));
    assert(!is_ws_char(s[p.len() as int]));
    lemma_trim_start_at(s, p.len() as int);
    let t = s.subrange(p.len() as int, s.len() as int);
    assert(t =~= a + q);
    assert(forall|j: int| a.len() <= j < t.len() ==> is_ws_char(t[j]));
    assert(!is_ws_char(t[a.len() - 1]));
    lemma_trim_end_at(t, a.len() as int);
    assert(t.subrange(0, a.len() as int) =~= a);
}

pub proof fn lemma_trim_start_shorter(s: Seq<char>)
    ensures
        trim_start_spec(s).len() <= s.len(),
        s.len() > 0 && is_ws_char(s[0]) ==> trim_start_spec(s).len() < s.len(),
    decreases s.len(),
{
    if s.len() > 0 && is_ws_char(s[0]) {
        lemma_trim_start_shorter(s.subrange(1, s.len() as int));
    }
}

pub proof fn lemma_trim_end_shorter(s: Seq<char>)
    ensures
        trim_end_spec(s).len() <= s.len(),
        s.len() > 0 && is_ws_char(s[s.len() - 1]) ==> trim_end_spec(s).len() < s.len(),
    decreases s.len(),
{
    if s.len() > 0 && is_ws_char(s[s.len() - 1]) {
        lemma_trim_end_shorter(s.subrange(0, s.len() - 1));
    }
}

/// A non-empty sequence that equals its own trim has no white space at
/// either end.
pub proof fn lemma_trimmed_ends(s: Seq<char>)
    requires
        trim_spec(s) == s,
        s.len() > 0,
    ensures
        !is_ws_char(s[0]),
        !is_ws_char(s[s.len() - 1]),
{
    lemma_trim_start_shorter(s);
    lemma_trim_end_shorter(trim_start_spec(s));
    if is_ws_char(s[0]) {
        assert(trim_spec(s).len() < s.len());
    }
    if !is_ws_char(s[0]) && is_ws_char(s[s.len() - 1]) {
        assert(trim_start_spec(s) == s);
        assert(trim_spec(s).len() < s.len());
    }
}

/// White space in front of an already-trimmed sequence trims away.
pub proof fn lemma_trim_ws_prefix(p: Seq<char>, a: Seq<char>)
    requires
        forall|j: int| 0 <= j < p.len() ==> is_ws_char(p[j]),
        a.len() > 0,
        trim_spec(a) == a,
    ensures
        trim_spec(p + a) == a,
{
    lemma_trimmed_ends(a);
    let s = p + a;
    assert(forall|j: int| 0 <= j < p.len() ==> is_ws_char(s[j]));
    assert(!is_ws_char(s[p.len() as int]));
    lemma_trim_start_at(s, p.len() as int);
    assert(s.subrange(p.len() as int, s.len() as int) =~= a);
    assert(trim_end_spec(a) == a);
}

// ---------------------------------------------------------------------------
// String equality
// ---------------------------------------------------------------------------

#[verifier::loop_isolation(false)]
pub fn str_eq(a: &str, b: &str) -> (r: bool)
    ensures
        r == (a@ == b@),
{
    let an = a.unicode_len();
    let bn = b.unicode_len();
    if an != bn {
        return false;
    }
    let mut i: usize = 0;
    while i < an
        invariant
            0 <= i <= an,
            an == a@.len() && an == b@.len(),
            forall|j: int| 0 <= j < i ==> a@[j] == b@[j],
        decreases an - i,
    {
        if a.get_char(i) != b.get_char(i) {
            return false;
        }
        i = i + 1;
    }
    proof {
        assert(a@ =~= b@);
    }
    true
}

} // verus!
