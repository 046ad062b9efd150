use vstd::prelude::*;
use crate::config::CommandOpts;
use crate::text::{
    first_occ, join_lines, join_lines_spec, lemma_first_occ_is, split_lines, split_lines_spec,
    str_eq, strip_cr, trim_spec, trim_str,
};

verus! {

/// A single pending change: what one fragment file holds.
#[derive(Debug, Clone, Hash)]
pub struct TinyChange {
    pub kind: String,
    pub message: String,
    pub author: String,
}

/// The mathematical content of a change: its three fields as character
/// sequences.
pub struct ChangeData {
    pub kind: Seq<char>,
    pub message: Seq<char>,
    pub author: Seq<char>,
}

impl View for TinyChange {
    type V = ChangeData;

    open spec fn view(&self) -> ChangeData {
        ChangeData { kind: self.kind@, message: self.message@, author: self.author@ }
    }
}

impl DeepView for TinyChange {
    type V = ChangeData;

    open spec fn deep_view(&self) -> ChangeData {
        self.view()
    }
}

/// Why decoding a fragment failed.
#[derive(Debug)]
pub enum FormatError {
    MissingAuthor,
    MalformedAuthor,
    WrongAuthorLabel(String),
    MissingKind,
    MalformedKind,
    WrongKindLabel(String),
    MissingSeparator,
    EmptyAuthor,
    EmptyKind,
    EmptyMessage,
    UnknownKind(String),
}

/// The same failures, over character sequences: what the contracts speak of.
pub enum FormatErrorData {
    MissingAuthor,
    MalformedAuthor,
    WrongAuthorLabel(Seq<char>),
    MissingKind,
    MalformedKind,
    WrongKindLabel(Seq<char>),
    MissingSeparator,
    EmptyAuthor,
    EmptyKind,
    EmptyMessage,
    UnknownKind(Seq<char>),
}

impl View for FormatError {
    type V = FormatErrorData;

    open spec fn view(&self) -> FormatErrorData {
        match self {
            FormatError::MissingAuthor => FormatErrorData::MissingAuthor,
            FormatError::MalformedAuthor => FormatErrorData::MalformedAuthor,
            FormatError::WrongAuthorLabel(s) => FormatErrorData::WrongAuthorLabel(s@),
            FormatError::MissingKind => FormatErrorData::MissingKind,
            FormatError::MalformedKind => FormatErrorData::MalformedKind,
            FormatError::WrongKindLabel(s) => FormatErrorData::WrongKindLabel(s@),
            FormatError::MissingSeparator => FormatErrorData::MissingSeparator,
            FormatError::EmptyAuthor => FormatErrorData::EmptyAuthor,
            FormatError::EmptyKind => FormatErrorData::EmptyKind,
            FormatError::EmptyMessage => FormatErrorData::EmptyMessage,
            FormatError::UnknownKind(s) => FormatErrorData::UnknownKind(s@),
        }
    }
}

// ---------------------------------------------------------------------------
// Line-ending normalization
// ---------------------------------------------------------------------------

/// Every `\r\n` pair and every lone `\r` becomes a single `\n`; everything
/// else is kept as it is.
pub open spec fn normalize_nl_spec(s: Seq<char>) -> Seq<char>
    decreases s.len(),
{
    if s.len() == 0 {
        Seq::empty()
    } else if s[0] == '\r' && s.len() >= 2 && s[1] == '\n' {
        seq!['\n'] + normalize_nl_spec(s.subrange(2, s.len() as int))
    } else if s[0] == '\r' {
        seq!['\n'] + normalize_nl_spec(s.subrange(1, s.len() as int))
    } else {
        seq![s[0]] + normalize_nl_spec(s.subrange(1, s.len() as int))
    }
}

/// Relies on `normalize_line_endings::normalized`: its iterator turns every
/// `\r\n` pair and every lone `\r` into one `\n` and hands every other
/// character through unchanged.
#[verifier::external_body]
fn normalize_newlines(s: &str) -> (r: String)
    ensures
        r@ == normalize_nl_spec(s@),
{
    normalize_line_endings::normalized(s.chars()).collect()
}

// ---------------------------------------------------------------------------
// Splitting a field line at its first colon
// ---------------------------------------------------------------------------

/// What `str::split_once(":")` returns: the text before and after the first
/// colon, or nothing when there is no colon.
pub open spec fn split_colon_spec(line: Seq<char>) -> Option<(Seq<char>, Seq<char>)> {
    let i = first_occ(line, ':') as int;
    if i < line.len() {
        Some((line.subrange(0, i), line.subrange(i + 1, line.len() as int)))
    } else {
        None
    }
}

#[verifier::loop_isolation(false)]
fn split_colon(line: &str) -> (r: Option<(String, String)>)
    ensures
        match r {
            Some(p) => split_colon_spec(line@) == Some((p.0@, p.1@)),
            None => split_colon_spec(line@) is None,
        },
{
    let n = line.unicode_len();
    let mut i: usize = 0;
    while i < n && line.get_char(i) != ':'
        invariant
            0 <= i <= n,
            n == line@.len(),
            forall|j: int| 0 <= j < i ==> line@[j] != ':',
        decreases n - i,
    {
        i = i + 1;
    }
    proof {
        lemma_first_occ_is(line@, ':', i as int);
    }
    if i < n {
        Some((line.substring_char(0, i).to_owned(), line.substring_char(i + 1, n).to_owned()))
    } else {
        None
    }
}

// ---------------------------------------------------------------------------
// Category membership
// ---------------------------------------------------------------------------

pub open spec fn cats_contain(cats: Seq<Seq<char>>, s: Seq<char>) -> bool {
    exists|k: int| 0 <= k < cats.len() && cats[k] == s
}

#[verifier::loop_isolation(false)]
fn contains_str(cats: &Vec<String>, s: &str) -> (r: bool)
    ensures
        r == cats_contain(cats.deep_view(), s@),
{
    let mut k: usize = 0;
    while k < cats.len()
        invariant
            0 <= k <= cats.len(),
            forall|j: int| 0 <= j < k ==> cats.deep_view()[j] != s@,
        decreases cats.len() - k,
    {
        if str_eq(cats[k].as_str(), s) {
            assert(cats.deep_view()[k as int] == s@);
            return true;
        }
        k = k + 1;
    }
    false
}

// ---------------------------------------------------------------------------
// The fragment codec
// ---------------------------------------------------------------------------

/// The on-disk form of a change: an author line, a kind line, a `---`
/// separator, then the message verbatim.
pub open spec fn serialize_spec(c: ChangeData) -> Seq<char> {
    "- Author: "@ + c.author + "\n"@ + "- Kind: "@ + c.kind + "\n"@ + "---"@ + "\n"@ + c.message
}

/// First line index at or after `i` whose line is not empty; `lines.len()`
/// when only empty lines remain.
pub open spec fn next_nonempty(lines: Seq<Seq<char>>, i: int) -> int
    decreases lines.len() - i,
{
    if i < 0 || i >= lines.len() {
        lines.len() as int
    } else if lines[i].len() == 0 {
        next_nonempty(lines, i + 1)
    } else {
        i
    }
}

proof fn lemma_next_nonempty_is(lines: Seq<Seq<char>>, from: int, k: int)
    requires
        0 <= from <= k <= lines.len(),
        forall|j: int| from <= j < k ==> lines[j].len() == 0,
        k == lines.len() || lines[k].len() > 0,
    ensures
        next_nonempty(lines, from) == k,
    decreases k - from,
{
    if from < k {
        lemma_next_nonempty_is(lines, from + 1, k);
    }
}

/// What decoding fragment text yields: the strict line-oriented state machine
/// over the text's lines — author line, blank lines, kind line, blank lines,
/// `---`, then the message — or the first failure it runs into.
pub open spec fn deserialize_spec(cats: Seq<Seq<char>>, content: Seq<char>) -> Result<
    ChangeData,
    FormatErrorData,
> {
    let lines = split_lines_spec(content);
    if lines.len() == 0 {
        Err(FormatErrorData::MissingAuthor)
    } else {
        match split_colon_spec(lines[0]) {
            None => Err(FormatErrorData::MalformedAuthor),
            Some((f1, v1)) => if f1 != "- Author"@ {
                Err(FormatErrorData::WrongAuthorLabel(f1))
            } else {
                let author = trim_spec(v1);
                let i = next_nonempty(lines, 1);
                if i >= lines.len() {
                    Err(FormatErrorData::MissingKind)
                } else {
                    match split_colon_spec(lines[i]) {
                        None => Err(FormatErrorData::MalformedKind),
                        Some((f2, v2)) => if f2 != "- Kind"@ {
                            Err(FormatErrorData::WrongKindLabel(f2))
                        } else {
                            let kind = trim_spec(v2);
                            let j = next_nonempty(lines, i + 1);
                            if j >= lines.len() || lines[j] != "---"@ {
                                Err(FormatErrorData::MissingSeparator)
                            } else {
                                let message = normalize_nl_spec(
                                    trim_spec(
                                        join_lines_spec(
                                            lines.subrange(j + 1, lines.len() as int),
                                        ),
                                    ),
                                );
                                if author.len() == 0 {
                                    Err(FormatErrorData::EmptyAuthor)
                                } else if kind.len() == 0 {
                                    Err(FormatErrorData::EmptyKind)
                                } else if message.len() == 0 {
                                    Err(FormatErrorData::EmptyMessage)
                                } else if !cats_contain(cats, kind) {
                                    Err(FormatErrorData::UnknownKind(kind))
                                } else {
                                    Ok(ChangeData { kind, message, author })
                                }
                            }
                        },
                    }
                }
            },
        }
    }
}

// ---------------------------------------------------------------------------
// Rendering a change as a changelog bullet line
// ---------------------------------------------------------------------------

/// The message lines after the first, each on its own line indented by two
/// spaces: the lines of `[1, k)`.
pub open spec fn indent_pre(ls: Seq<Seq<char>>, k: int) -> Seq<char>
    decreases k,
{
    if k <= 1 {
        Seq::empty()
    } else {
        indent_pre(ls, k - 1) + "\n  "@ + ls[k - 1]
    }
}

/// A change as a changelog entry: one-line messages become
/// `- <message> (by <author>)`; multi-line messages become `- ` and the first
/// line, the other lines indented by two spaces, then a `  By: <author>` line.
pub open spec fn markdown_of(c: ChangeData) -> Seq<char> {
    if first_occ(c.message, '\n') >= c.message.len() {
        "- "@ + c.message + " (by "@ + c.author + ")"@
    } else {
        let ls = split_lines_spec(c.message);
        "- "@ + ls[0] + indent_pre(ls, ls.len() as int) + "\n  By: "@ + c.author
    }
}

/// A change viewed as changelog text.
pub struct MarkdownChange<'a> {
    pub change: &'a TinyChange,
}

impl<'a> MarkdownChange<'a> {
    /// The changelog bullet entry for the change.
    #[verifier::loop_isolation(false)]
    pub fn to_string(&self) -> (r: String)
        ensures
            r@ == markdown_of(self.change@),
    {
        let msg = self.change.message.as_str();
        let n = msg.unicode_len();
        let mut i: usize = 0;
        while i < n && msg.get_char(i) != '\n'
            invariant
                0 <= i <= n,
                n == msg@.len(),
                forall|j: int| 0 <= j < i ==> msg@[j] != '\n',
            decreases n - i,
        {
            i = i + 1;
        }
        proof {
            lemma_first_occ_is(msg@, '\n', i as int);
        }
        let mut r = String::new();
        if i == n {
            r.append("- ");
            r.append(msg);
            r.append(" (by ");
            r.append(self.change.author.as_str());
            r.append(")");
            proof {
                assert(r@ =~= markdown_of(self.change@));
            }
        } else {
            let ls = split_lines(msg);
            let ghost lsv = ls.deep_view();
            proof {
                assert(lsv.len() > 0);
            }
            r.append("- ");
            r.append(ls[0].as_str());
            let mut k: usize = 1;
            proof {
                assert(r@ =~= "- "@ + lsv[0] + indent_pre(lsv, 1));
            }
            while k < ls.len()
                invariant
                    1 <= k <= ls.len(),
                    lsv == ls.deep_view(),
                    r@ == "- "@ + lsv[0] + indent_pre(lsv, k as int),
                decreases ls.len() - k,
            {
                r.append("\n  ");
                r.append(ls[k].as_str());
                proof {
                    assert(r@ =~= "- "@ + lsv[0] + indent_pre(lsv, k + 1));
                }
                k = k + 1;
            }
            r.append("\n  By: ");
            r.append(self.change.author.as_str());
            proof {
                assert(r@ =~= markdown_of(self.change@));
            }
        }
        r
    }
}

/// A text without carriage returns is already normalized.
pub proof fn lemma_normalize_id(s: Seq<char>)
    requires
        forall|j: int| 0 <= j < s.len() ==> s[j] != '\r',
    ensures
        normalize_nl_spec(s) == s,
    decreases s.len(),
{
    if s.len() > 0 {
        let t = s.subrange(1, s.len() as int);
        lemma_normalize_id(t);
        assert(seq![s[0]] + t =~= s);
    }
}

/// Round trip: decoding an encoded change gives the change back. The change
/// must be one a fragment can carry: author and kind are non-empty, trimmed,
/// and hold no line feed; the message is non-empty, trimmed, already in
/// normalized line-ending form (no carriage return); and the kind is one of
/// the configured categories.
pub proof fn lemma_round_trip(cats: Seq<Seq<char>>, c: ChangeData)
    requires
        c.author.len() > 0,
        trim_spec(c.author) == c.author,
        forall|j: int| 0 <= j < c.author.len() ==> c.author[j] != '\n',
        c.kind.len() > 0,
        trim_spec(c.kind) == c.kind,
        forall|j: int| 0 <= j < c.kind.len() ==> c.kind[j] != '\n',
        c.message.len() > 0,
        trim_spec(c.message) == c.message,
        forall|j: int| 0 <= j < c.message.len() ==> c.message[j] != '\r',
        cats_contain(cats, c.kind),
    ensures
        deserialize_spec(cats, serialize_spec(c)) == Ok::<ChangeData, FormatErrorData>(c),
{
    reveal_strlit("- Author: ");
    reveal_strlit("- Author");
    reveal_strlit("- Kind: ");
    reveal_strlit("- Kind");
    reveal_strlit("---");
    reveal_strlit("\n");

    crate::text::lemma_trimmed_ends(c.author);
    crate::text::lemma_trimmed_ends(c.kind);
    crate::text::lemma_trimmed_ends(c.message);

    let x1 = "- Author: "@ + c.author;
    let x2 = "- Kind: "@ + c.kind;
    let x3 = "---"@;
    let s = serialize_spec(c);
    assert(s =~= x1 + seq!['\n'] + (x2 + seq!['\n'] + (x3 + seq!['\n'] + c.message)));

    // the document splits into the three header lines and the message lines
    assert(forall|j: int| 0 <= j < x1.len() ==> x1[j] != '\n');
    crate::text::lemma_split_lines_concat(x1, x2 + seq!['\n'] + (x3 + seq!['\n'] + c.message));
    assert(forall|j: int| 0 <= j < x2.len() ==> x2[j] != '\n');
    crate::text::lemma_split_lines_concat(x2, x3 + seq!['\n'] + c.message);
    assert(forall|j: int| 0 <= j < x3.len() ==> x3[j] != '\n');
    crate::text::lemma_split_lines_concat(x3, c.message);
    assert(strip_cr(x1) == x1);
    assert(strip_cr(x2) == x2);
    assert(strip_cr(x3) == x3);
    let lines = split_lines_spec(s);
    let ml = split_lines_spec(c.message);
    assert(lines =~= seq![x1, x2, x3] + ml);
    assert(c.message.len() > 0);
    assert(ml.len() > 0);

    // the author line
    assert(lines[0] == x1);
    assert(forall|j: int| 0 <= j < 8 ==> x1[j] != ':');
    assert(x1[8] == ':');
    lemma_first_occ_is(x1, ':', 8);
    assert(x1.subrange(0, 8) =~= "- Author"@);
    let v1 = x1.subrange(9, x1.len() as int);
    assert(v1 =~= seq![' '] + c.author);
    crate::text::lemma_trim_ws_prefix(seq![' '], c.author);
    assert(trim_spec(v1) == c.author);

    // the kind line
    assert(next_nonempty(lines, 1) == 1) by {
        assert(lines[1].len() > 0);
    }
    assert(lines[1] == x2);
    assert(forall|j: int| 0 <= j < 6 ==> x2[j] != ':');
    assert(x2[6] == ':');
    lemma_first_occ_is(x2, ':', 6);
    assert(x2.subrange(0, 6) =~= "- Kind"@);
    let v2 = x2.subrange(7, x2.len() as int);
    assert(v2 =~= seq![' '] + c.kind);
    crate::text::lemma_trim_ws_prefix(seq![' '], c.kind);
    assert(trim_spec(v2) == c.kind);

    // the separator line
    assert(next_nonempty(lines, 2) == 2) by {
        assert(lines[2].len() > 0);
    }
    assert(lines[2] == "---"@);

    // the message
    assert(lines.subrange(3, lines.len() as int) =~= ml);
    crate::text::lemma_join_split_id(c.message);
    lemma_normalize_id(c.message);
}

impl TinyChange {
    /// View the change as changelog text.
    pub fn as_markdown(&self) -> (m: MarkdownChange)
        ensures
            m.change == self,
    {
        MarkdownChange { change: self }
    }

    /// Encode the change as fragment text.
    pub fn serialize(&self) -> (r: String)
        ensures
            r@ == serialize_spec(self@),
    {
        let mut r = String::new();
        r.append("- Author: ");
        r.append(self.author.as_str());
        r.append("\n");
        r.append("- Kind: ");
        r.append(self.kind.as_str());
        r.append("\n");
        r.append("---");
        r.append("\n");
        r.append(self.message.as_str());
        r
    }

    /// Decode fragment text, strictly: the exact field labels, blank lines
    /// only between fields, a `---` separator, then the message, which is
    /// trimmed and gets its line endings normalized. Fails with the first
    /// deviation; succeeds exactly when `deserialize_spec` does.
    #[verifier::loop_isolation(false)]
    pub fn deserialize(opts: &CommandOpts, content: String) -> (r: Result<TinyChange, FormatError>)
        ensures
            match r {
                Ok(c) => deserialize_spec(opts.categories_view(), content@)
                    == Ok::<ChangeData, FormatErrorData>(c@),
                Err(e) => deserialize_spec(opts.categories_view(), content@)
                    == Err::<ChangeData, FormatErrorData>(e@),
            },
    {
        let lines = split_lines(content.as_str());
        if lines.len() == 0 {
            return Err(FormatError::MissingAuthor);
        }
        let (field1, value1) = match split_colon(lines[0].as_str()) {
            None => {
                return Err(FormatError::MalformedAuthor);
            },
            Some(p) => p,
        };
        if !str_eq(field1.as_str(), "- Author") {
            return Err(FormatError::WrongAuthorLabel(field1));
        }
        let author = trim_str(value1.as_str());

        let mut i: usize = 1;
        while i < lines.len() && lines[i].as_str().unicode_len() == 0
            invariant
                1 <= i <= lines.len(),
                forall|j: int| 1 <= j < i ==> lines.deep_view()[j].len() == 0,
        decreases lines.len() - i,
        {
            i = i + 1;
        }
        proof {
            lemma_next_nonempty_is(lines.deep_view(), 1, i as int);
        }
        if i >= lines.len() {
            return Err(FormatError::MissingKind);
        }
        let (field2, value2) = match split_colon(lines[i].as_str()) {
            None => {
                return Err(FormatError::MalformedKind);
            },
            Some(p) => p,
        };
        if !str_eq(field2.as_str(), "- Kind") {
            return Err(FormatError::WrongKindLabel(field2));
        }
        let kind = trim_str(value2.as_str());

        let mut j: usize = i + 1;
        while j < lines.len() && lines[j].as_str().unicode_len() == 0
            invariant
                i + 1 <= j <= lines.len(),
                forall|k: int| i + 1 <= k < j ==> lines.deep_view()[k].len() == 0,
        decreases lines.len() - j,
        {
            j = j + 1;
        }
        proof {
            lemma_next_nonempty_is(lines.deep_view(), i + 1, j as int);
        }
        if j >= lines.len() || !str_eq(lines[j].as_str(), "---") {
            return Err(FormatError::MissingSeparator);
        }

        let mut rest: Vec<String> = Vec::new();
        let mut k: usize = j + 1;
        proof {
            assert(rest.deep_view() =~= lines.deep_view().subrange(j + 1, k as int));
        }
        while k < lines.len()
            invariant
                j + 1 <= k <= lines.len(),
                rest.deep_view() =~= lines.deep_view().subrange(j + 1, k as int),
            decreases lines.len() - k,
        {
            let ghost prev_dv = rest.deep_view();
            let line = lines[k].clone();
            proof {
                assert(line@ == lines.deep_view()[k as int]);
            }
            rest.push(line);
            proof {
                assert(rest.deep_view() =~= prev_dv.push(lines.deep_view()[k as int]));
                assert(rest.deep_view() =~= lines.deep_view().subrange(j + 1, k + 1 as int));
            }
            k = k + 1;
        }
        let joined = join_lines(&rest);
        let trimmed = trim_str(joined.as_str());
        let message = normalize_newlines(trimmed.as_str());

        if author.as_str().unicode_len() == 0 {
            return Err(FormatError::EmptyAuthor);
        }
        if kind.as_str().unicode_len() == 0 {
            return Err(FormatError::EmptyKind);
        }
        if message.as_str().unicode_len() == 0 {
            return Err(FormatError::EmptyMessage);
        }
        if !contains_str(opts.categories(), kind.as_str()) {
            return Err(FormatError::UnknownKind(kind));
        }
        Ok(TinyChange { kind, message, author })
    }
}

} // verus!
