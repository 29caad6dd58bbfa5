//! Normalization of a submission: the files found in it, their language,
//! content hash and sizes, and the sorted concatenation of its source files.

use crate::text::{chars_of, is_whitespace_char};
use sha1::{Digest, Sha1};
use vstd::prelude::*;
use vstd::string::StringExecFns;

verus! {

/// Language of a file, told by its extension.
#[derive(Clone, Copy, Debug, PartialEq, Eq, Structural)]
pub enum SourceLanguage {
    Rust,
    Python,
    Text,
    Unknown,
}

/// One file of a submission.
#[derive(Clone, Debug)]
pub struct ProcessedFile {
    /// Path relative to the submission root, components joined by `/`.
    pub relative_path: String,
    pub content: String,
    pub language: SourceLanguage,
    pub sha1_hash: String,
    /// Number of characters of `content`.
    pub char_length: usize,
    /// Number of lines of `content`.
    pub line_count: usize,
}

/// A submission ready for comparison. Its files are keyed by relative path:
/// see `files_sorted`.
#[derive(Clone, Debug)]
pub struct NormalizedProject {
    pub project_id: String,
    pub files: Vec<ProcessedFile>,
    pub concatenated_source_code: Option<String>,
    pub concatenated_source_hash: Option<String>,
}

/// Errors of project normalization.
#[derive(Clone, Copy, Debug, PartialEq, Eq, Structural)]
pub enum ProjectProcessorError {
    IoError,
    WalkDirError,
}

/// Index of the last occurrence of `c` in `s`, or -1.
pub open spec fn last_index_of(s: Seq<char>, c: char) -> int
    decreases s.len(),
{
    if s.len() == 0 {
        -1
    } else if s.last() == c {
        s.len() - 1
    } else {
        last_index_of(s.drop_last(), c)
    }
}

proof fn lemma_last_index_bounds(s: Seq<char>, c: char)
    ensures
        -1 <= last_index_of(s, c) < s.len(),
        last_index_of(s, c) >= 0 ==> s[last_index_of(s, c)] == c,
    decreases s.len(),
{
    if s.len() > 0 && s.last() != c {
        lemma_last_index_bounds(s.drop_last(), c);
    }
}

/// The last component of a `/`-separated path.
pub open spec fn file_name_of(path: Seq<char>) -> Seq<char> {
    path.subrange(last_index_of(path, '/') + 1, path.len() as int)
}

/// The extension of a path as `Path::extension` gives it: what follows the
/// last `.` of the file name, unless that dot starts the name or the name is
/// `..`.
pub open spec fn extension_of(path: Seq<char>) -> Option<Seq<char>> {
    let name = file_name_of(path);
    let d = last_index_of(name, '.');
    if name == seq!['.', '.'] || d <= 0 {
        None
    } else {
        Some(name.subrange(d + 1, name.len() as int))
    }
}

/// Index just past the last `c` among `cs[from..]`, or `from` when there is
/// none: the start of what follows the last `c`.
fn after_last(cs: &Vec<char>, from: usize, c: char) -> (r: usize)
    requires
        from <= cs@.len(),
    ensures
        r == from + last_index_of(cs@.subrange(from as int, cs@.len() as int), c) + 1,
        from <= r <= cs@.len(),
{
    let mut r: usize = from;
    let mut i: usize = from;
    while i < cs.len()
        invariant
            from <= i <= cs@.len(),
            r == from + last_index_of(cs@.subrange(from as int, i as int), c) + 1,
            from <= r <= i,
        decreases cs@.len() - i,
    {
        proof {
            assert(cs@.subrange(from as int, i + 1).drop_last() =~= cs@.subrange(
                from as int,
                i as int,
            ));
            lemma_last_index_bounds(cs@.subrange(from as int, i as int), c);
        }
        if cs[i] == c {
            r = i + 1;
        }
        i = i + 1;
    }
    r
}

/// The extension of a path, as `extension_of` describes it.
pub fn path_extension(path: &str) -> (r: Option<String>)
    ensures
        r is Some <==> extension_of(path@) is Some,
        r is Some ==> r->0@ == extension_of(path@)->0,
{
    let cs = chars_of(path);
    let n = cs.len();
    let start = after_last(&cs, 0, '/');
    let after_dot = after_last(&cs, start, '.');
    let ghost name = file_name_of(path@);
    proof {
        assert(cs@.subrange(0, n as int) =~= cs@);
        assert(name =~= cs@.subrange(start as int, n as int));
    }
    let is_dotdot = n - start == 2 && cs[start] == '.' && cs[start + 1] == '.';
    proof {
        if is_dotdot {
            assert(name =~= seq!['.', '.']);
        } else if name.len() == 2 {
            assert(name[0] == cs@[start as int] && name[1] == cs@[start + 1]);
        }
    }
    if is_dotdot || after_dot - start <= 1 {
        return None;
    }
    let mut ext = String::new();
    let mut i: usize = after_dot;
    while i < n
        invariant
            after_dot <= i <= n,
            n == cs@.len(),
            ext@ =~= cs@.subrange(after_dot as int, i as int),
        decreases n - i,
    {
        ext.push(cs[i]);
        i = i + 1;
    }
    Some(ext)
}

/// `a` orders before `b` character by character, a proper prefix first.
pub open spec fn seq_less(a: Seq<char>, b: Seq<char>) -> bool
    decreases a.len(),
{
    if a.len() == 0 {
        b.len() > 0
    } else if b.len() == 0 {
        false
    } else if a[0] != b[0] {
        path_char_rank(a[0]) < path_char_rank(b[0])
    } else {
        seq_less(a.drop_first(), b.drop_first())
    }
}

/// Rank of a character in path order: the separator before every other
/// character, so that paths compare component by component.
pub open spec fn path_char_rank(c: char) -> int {
    if c == '/' {
        -1
    } else {
        (c as u32) as int
    }
}

/// The files are listed in strictly increasing path order, so each path
/// occurs once.
pub open spec fn files_sorted(files: Seq<ProcessedFile>) -> bool {
    forall|i: int, j: int|
        0 <= i < j < files.len() ==> seq_less(
            #[trigger] files[i].relative_path@,
            #[trigger] files[j].relative_path@,
        )
}

/// Whether two strings hold the same characters.
fn same_chars(a: &str, b: &str) -> (r: bool)
    ensures
        r == (a@ == b@),
{
    let x = chars_of(a);
    let y = chars_of(b);
    if x.len() != y.len() {
        return false;
    }
    let mut i: usize = 0;
    while i < x.len()
        invariant
            x@ == a@,
            y@ == b@,
            x@.len() == y@.len(),
            i <= x@.len(),
            x@.subrange(0, i as int) == y@.subrange(0, i as int),
        decreases x@.len() - i,
    {
        if x[i] != y[i] {
            proof {
                if a@ == b@ {
                    assert(x@[i as int] == y@[i as int]);
                }
            }
            return false;
        }
        assert(x@.subrange(0, i + 1) =~= x@.subrange(0, i as int).push(x@[i as int]));
        assert(y@.subrange(0, i + 1) =~= y@.subrange(0, i as int).push(y@[i as int]));
        i = i + 1;
    }
    assert(x@ =~= x@.subrange(0, i as int));
    assert(y@ =~= y@.subrange(0, i as int));
    true
}

/// The language of a file, by the extension of its path.
pub open spec fn language_of(path: Seq<char>) -> SourceLanguage {
    match extension_of(path) {
        Some(e) => if e == "rs"@ {
            SourceLanguage::Rust
        } else if e == "py"@ {
            SourceLanguage::Python
        } else if e == "txt"@ || e == "c"@ {
            SourceLanguage::Text
        } else {
            SourceLanguage::Unknown
        },
        None => SourceLanguage::Unknown,
    }
}

/// Classifies a file by its extension: `rs` is Rust, `py` is Python, `txt`
/// and `c` are text, anything else is unknown.
pub fn detect_language(path: &str) -> (r: SourceLanguage)
    ensures
        r == language_of(path@),
{
    match path_extension(path) {
        Some(e) => {
            if same_chars(e.as_str(), "rs") {
                SourceLanguage::Rust
            } else if same_chars(e.as_str(), "py") {
                SourceLanguage::Python
            } else if same_chars(e.as_str(), "txt") || same_chars(e.as_str(), "c") {
                SourceLanguage::Text
            } else {
                SourceLanguage::Unknown
            }
        },
        None => SourceLanguage::Unknown,
    }
}

/// Number of newline characters in `s`.
pub open spec fn newline_count(s: Seq<char>) -> nat
    decreases s.len(),
{
    if s.len() == 0 {
        0
    } else {
        newline_count(s.drop_last()) + if s.last() == '\n' {
            1nat
        } else {
            0nat
        }
    }
}

/// Number of lines of `s` as `str::lines` counts them: one per newline, and
/// one more for text after the last newline.
pub open spec fn line_count_of(s: Seq<char>) -> nat {
    if s.len() > 0 && s.last() != '\n' {
        newline_count(s) + 1
    } else {
        newline_count(s)
    }
}

proof fn lemma_newline_count_bound(s: Seq<char>)
    ensures
        newline_count(s) <= s.len(),
    decreases s.len(),
{
    if s.len() > 0 {
        lemma_newline_count_bound(s.drop_last());
    }
}

/// Counts the characters and lines of a text.
pub fn count_chars_and_lines(content: &str) -> (r: (usize, usize))
    ensures
        r.0 == content@.len(),
        r.1 == line_count_of(content@),
{
    let cs = chars_of(content);
    let mut newlines: usize = 0;
    let mut i: usize = 0;
    while i < cs.len()
        invariant
            i <= cs@.len(),
            newlines == newline_count(cs@.subrange(0, i as int)),
        decreases cs@.len() - i,
    {
        proof {
            assert(cs@.subrange(0, i + 1).drop_last() =~= cs@.subrange(0, i as int));
            lemma_newline_count_bound(cs@.subrange(0, i as int));
        }
        if cs[i] == '\n' {
            newlines = newlines + 1;
        }
        i = i + 1;
    }
    assert(cs@.subrange(0, i as int) =~= cs@);
    let n = cs.len();
    if n > 0 && cs[n - 1] != '\n' {
        proof {
            lemma_newline_count_bound(cs@.drop_last());
            assert(cs@.drop_last().len() < cs@.len());
        }
        (n, newlines + 1)
    } else {
        (n, newlines)
    }
}

/// `s` without its leading whitespace.
pub open spec fn trim_start_of(s: Seq<char>) -> Seq<char>
    decreases s.len(),
{
    if s.len() > 0 && is_whitespace_char(s[0]) {
        trim_start_of(s.drop_first())
    } else {
        s
    }
}

/// `s` without its trailing whitespace.
pub open spec fn trim_end_of(s: Seq<char>) -> Seq<char>
    decreases s.len(),
{
    if s.len() > 0 && is_whitespace_char(s.last()) {
        trim_end_of(s.drop_last())
    } else {
        s
    }
}

/// `s` without leading or trailing whitespace.
pub open spec fn trim_of(s: Seq<char>) -> Seq<char> {
    trim_end_of(trim_start_of(s))
}

proof fn lemma_trim_start(s: Seq<char>, i: int)
    requires
        0 <= i <= s.len(),
        forall|k: int| 0 <= k < i ==> is_whitespace_char(#[trigger] s[k]),
        i == s.len() || !is_whitespace_char(s[i]),
    ensures
        trim_start_of(s) == s.subrange(i, s.len() as int),
    decreases i,
{
    if i > 0 {
        lemma_trim_start(s.drop_first(), i - 1);
        assert(s.drop_first().subrange(i - 1, s.len() - 1) =~= s.subrange(i, s.len() as int));
    } else {
        assert(s.subrange(0, s.len() as int) =~= s);
    }
}

proof fn lemma_trim_end(s: Seq<char>, j: int)
    requires
        0 <= j <= s.len(),
        forall|k: int| j <= k < s.len() ==> is_whitespace_char(#[trigger] s[k]),
        j == 0 || !is_whitespace_char(s[j - 1]),
    ensures
        trim_end_of(s) == s.subrange(0, j),
    decreases s.len() - j,
{
    if j < s.len() {
        lemma_trim_end(s.drop_last(), j);
        assert(s.drop_last().subrange(0, j) =~= s.subrange(0, j));
    } else {
        assert(s.subrange(0, j) =~= s);
    }
}

/// The characters `cs[lo..hi]` as a string.
fn string_of(cs: &Vec<char>, lo: usize, hi: usize) -> (r: String)
    requires
        lo <= hi <= cs@.len(),
    ensures
        r@ == cs@.subrange(lo as int, hi as int),
{
    let mut r = String::new();
    let mut i: usize = lo;
    while i < hi
        invariant
            lo <= i <= hi <= cs@.len(),
            r@ =~= cs@.subrange(lo as int, i as int),
        decreases hi - i,
    {
        r.push(cs[i]);
        i = i + 1;
    }
    r
}

/// `cs[lo..hi]` without leading or trailing whitespace.
fn trimmed(cs: &Vec<char>, lo: usize, hi: usize) -> (r: String)
    requires
        lo <= hi <= cs@.len(),
    ensures
        r@ == trim_of(cs@.subrange(lo as int, hi as int)),
{
    let ghost s = cs@.subrange(lo as int, hi as int);
    let mut a: usize = lo;
    while a < hi && cs[a].is_whitespace()
        invariant
            lo <= a <= hi <= cs@.len(),
            forall|k: int| lo <= k < a ==> is_whitespace_char(#[trigger] cs@[k]),
        decreases hi - a,
    {
        a = a + 1;
    }
    proof {
        assert forall|k: int| 0 <= k < a - lo implies is_whitespace_char(#[trigger] s[k]) by {
            assert(s[k] == cs@[lo + k]);
        }
        lemma_trim_start(s, a - lo);
    }
    let mut b: usize = hi;
    while b > a && cs[b - 1].is_whitespace()
        invariant
            lo <= a <= b <= hi <= cs@.len(),
            forall|k: int| b <= k < hi ==> is_whitespace_char(#[trigger] cs@[k]),
        decreases b - a,
    {
        b = b - 1;
    }
    proof {
        let t = s.subrange(a - lo, s.len() as int);
        assert(t =~= cs@.subrange(a as int, hi as int));
        assert forall|k: int| b - a <= k < t.len() implies is_whitespace_char(#[trigger] t[k]) by {
            assert(t[k] == cs@[a + k]);
        }
        lemma_trim_end(t, b - a);
        assert(t.subrange(0, b - a) =~= cs@.subrange(a as int, b as int));
    }
    string_of(cs, a, b)
}

/// Line-splitting state after reading `s`: the lines ended by a newline,
/// without it (nor a carriage return before it), and the line still open.
pub open spec fn line_scan(s: Seq<char>) -> (Seq<Seq<char>>, Seq<char>)
    decreases s.len(),
{
    if s.len() == 0 {
        (Seq::empty(), Seq::empty())
    } else {
        let (ended, open) = line_scan(s.drop_last());
        if s.last() == '\n' {
            (ended.push(strip_carriage_return(open)), Seq::empty())
        } else {
            (ended, open.push(s.last()))
        }
    }
}

/// `l` without one trailing carriage return.
pub open spec fn strip_carriage_return(l: Seq<char>) -> Seq<char> {
    if l.len() > 0 && l.last() == '\r' {
        l.drop_last()
    } else {
        l
    }
}

/// The lines of `s` as `str::lines` yields them.
pub open spec fn lines_of(s: Seq<char>) -> Seq<Seq<char>> {
    let (ended, open) = line_scan(s);
    if open.len() > 0 {
        ended.push(open)
    } else {
        ended
    }
}

/// A trimmed `.gitignore` line names an ignored entry: it is not empty, not a
/// comment, and holds no wildcard and no negation.
pub open spec fn is_literal_ignore_line(t: Seq<char>) -> bool {
    &&& t.len() > 0
    &&& t[0] != '#'
    &&& !t.contains('*')
    &&& !t.contains('!')
}

/// The ignored entries named by a sequence of `.gitignore` lines, in order.
pub open spec fn ignore_entries_of(lines: Seq<Seq<char>>) -> Seq<Seq<char>>
    decreases lines.len(),
{
    if lines.len() == 0 {
        Seq::empty()
    } else {
        let pre = ignore_entries_of(lines.drop_last());
        let t = trim_of(lines.last());
        if is_literal_ignore_line(t) {
            pre.push(t)
        } else {
            pre
        }
    }
}

/// Entries ignored in every project: version-control, build-output and
/// dependency directories, binary, log, archive and documentation files,
/// and licenses.
pub open spec fn default_ignore_entries() -> Seq<Seq<char>> {
    seq![
        "target/"@,
        "node_modules/"@,
        "dist/"@,
        "build/"@,
        ".next/"@,
        ".git/"@,
        ".svn/"@,
        ".hg/"@,
        ".idea/"@,
        ".vscode/"@,
        ".vscode\\"@,
        ".exe"@,
        ".DS_Store"@,
        ".dll"@,
        ".lock"@,
        ".log"@,
        ".zip"@,
        ".md"@,
        ".github/"@,
        ".github\\"@,
        "LICENSE"@,
    ]
}

/// The views of a sequence of strings.
pub open spec fn views_of(v: Seq<String>) -> Seq<Seq<char>> {
    v.map_values(|s: String| s@)
}

/// Whether `s` holds `c`.
fn has_char(s: &String, c: char) -> (r: bool)
    ensures
        r == s@.contains(c),
{
    let cs = chars_of(s.as_str());
    let mut i: usize = 0;
    while i < cs.len()
        invariant
            cs@ == s@,
            i <= cs@.len(),
            forall|k: int| 0 <= k < i ==> cs@[k] != c,
        decreases cs@.len() - i,
    {
        if cs[i] == c {
            return true;
        }
        i = i + 1;
    }
    false
}

/// Adds the entry named by the line `cs[lo..hi]`, if it names one.
fn add_ignore_line(entries: &mut Vec<String>, cs: &Vec<char>, lo: usize, hi: usize)
    requires
        lo <= hi <= cs@.len(),
    ensures
        views_of(final(entries)@) == if is_literal_ignore_line(
            trim_of(cs@.subrange(lo as int, hi as int)),
        ) {
            views_of(old(entries)@).push(trim_of(cs@.subrange(lo as int, hi as int)))
        } else {
            views_of(old(entries)@)
        },
{
    let t = trimmed(cs, lo, hi);
    let tc = chars_of(t.as_str());
    if tc.len() > 0 && tc[0] != '#' && !has_char(&t, '*') && !has_char(&t, '!') {
        let ghost before = entries@;
        entries.push(t);
        assert(views_of(entries@) =~= views_of(before).push(t@));
    }
}

/// The entries named by the lines of a `.gitignore` text, in order.
fn gitignore_entries(content: &str) -> (r: Vec<String>)
    ensures
        views_of(r@) == ignore_entries_of(lines_of(content@)),
{
    let cs = chars_of(content);
    let mut r: Vec<String> = Vec::new();
    let mut start: usize = 0;
    let mut i: usize = 0;
    while i < cs.len()
        invariant
            i <= cs@.len(),
            start <= i,
            line_scan(cs@.subrange(0, i as int)).1 == cs@.subrange(start as int, i as int),
            views_of(r@) == ignore_entries_of(line_scan(cs@.subrange(0, i as int)).0),
        decreases cs@.len() - i,
    {
        let ghost pre = cs@.subrange(0, i as int);
        assert(cs@.subrange(0, i + 1).drop_last() =~= pre);
        if cs[i] == '\n' {
            let end = if i > start && cs[i - 1] == '\r' {
                i - 1
            } else {
                i
            };
            proof {
                let open = cs@.subrange(start as int, i as int);
                assert(strip_carriage_return(open) =~= cs@.subrange(start as int, end as int));
                let ended = line_scan(pre).0.push(strip_carriage_return(open));
                assert(ended.drop_last() =~= line_scan(pre).0);
            }
            add_ignore_line(&mut r, &cs, start, end);
            start = i + 1;
        } else {
            assert(cs@.subrange(start as int, i + 1) =~= cs@.subrange(start as int, i as int).push(
                cs@[i as int],
            ));
        }
        i = i + 1;
    }
    assert(cs@.subrange(0, i as int) =~= cs@);
    if start < cs.len() {
        proof {
            let (ended, open) = line_scan(cs@);
            assert(ended.push(open).drop_last() =~= ended);
        }
        add_ignore_line(&mut r, &cs, start, cs.len());
    }
    r
}

/// The ignored entries of a project: the fixed defaults, then the entries
/// that the project's `.gitignore` text names, if it has one.
pub fn build_blacklist(gitignore_content: Option<&str>) -> (r: Vec<String>)
    ensures
        views_of(r@) == match gitignore_content {
            Some(g) => default_ignore_entries() + ignore_entries_of(lines_of(g@)),
            None => default_ignore_entries(),
        },
{
    let mut r: Vec<String> = Vec::new();
    r.push(String::from_str("target/"));
    r.push(String::from_str("node_modules/"));
    r.push(String::from_str("dist/"));
    r.push(String::from_str("build/"));
    r.push(String::from_str(".next/"));
    r.push(String::from_str(".git/"));
    r.push(String::from_str(".svn/"));
    r.push(String::from_str(".hg/"));
    r.push(String::from_str(".idea/"));
    r.push(String::from_str(".vscode/"));
    r.push(String::from_str(".vscode\\"));
    r.push(String::from_str(".exe"));
    r.push(String::from_str(".DS_Store"));
    r.push(String::from_str(".dll"));
    r.push(String::from_str(".lock"));
    r.push(String::from_str(".log"));
    r.push(String::from_str(".zip"));
    r.push(String::from_str(".md"));
    r.push(String::from_str(".github/"));
    r.push(String::from_str(".github\\"));
    r.push(String::from_str("LICENSE"));
    assert(views_of(r@) =~= default_ignore_entries());
    match gitignore_content {
        Some(g) => {
            let extra = gitignore_entries(g);
            let ghost before = r@;
            let mut i: usize = 0;
            while i < extra.len()
                invariant
                    i <= extra@.len(),
                    views_of(r@) =~= views_of(before) + views_of(extra@).subrange(0, i as int),
                decreases extra@.len() - i,
            {
                let ghost prev = r@;
                r.push(copy_string(&extra[i]));
                assert(views_of(r@) =~= views_of(prev).push(extra@[i as int]@));
                i = i + 1;
            }
            assert(views_of(extra@).subrange(0, i as int) =~= views_of(extra@));
        },
        None => {},
    }
    r
}

fn copy_string(s: &String) -> (r: String)
    ensures
        r@ == s@,
{
    s.clone()
}

/// `needle` occurs in `hay` at offset `i`.
pub open spec fn occurs_at(hay: Seq<char>, needle: Seq<char>, i: int) -> bool {
    0 <= i && i + needle.len() <= hay.len() && hay.subrange(i, i + needle.len()) == needle
}

/// `needle` occurs somewhere in `hay`.
pub open spec fn has_substring(hay: Seq<char>, needle: Seq<char>) -> bool {
    exists|i: int| occurs_at(hay, needle, i)
}

/// Whether `needle` occurs at offset `i` of `hay`.
fn matches_at(hay: &Vec<char>, needle: &Vec<char>, i: usize) -> (r: bool)
    requires
        i + needle@.len() <= hay@.len(),
    ensures
        r == occurs_at(hay@, needle@, i as int),
{
    let hay_len = hay.len();
    let mut k: usize = 0;
    while k < needle.len()
        invariant
            hay_len == hay@.len(),
            i + needle@.len() <= hay@.len(),
            k <= needle@.len(),
            hay@.subrange(i as int, i + k) == needle@.subrange(0, k as int),
        decreases needle@.len() - k,
    {
        if hay[i + k] != needle[k] {
            proof {
                if occurs_at(hay@, needle@, i as int) {
                    assert(hay@.subrange(i as int, i + needle@.len())[k as int] == hay@[i + k]);
                }
            }
            return false;
        }
        assert(hay@.subrange(i as int, i + k + 1) =~= hay@.subrange(i as int, i + k).push(hay@[i + k]));
        assert(needle@.subrange(0, k + 1) =~= needle@.subrange(0, k as int).push(needle@[k as int]));
        k = k + 1;
    }
    assert(needle@.subrange(0, k as int) =~= needle@);
    true
}

/// Whether `needle` occurs in `hay`.
pub fn contains_substring(hay: &str, needle: &str) -> (r: bool)
    ensures
        r == has_substring(hay@, needle@),
{
    let h = chars_of(hay);
    let n = chars_of(needle);
    if n.len() == 0 {
        assert(hay@.subrange(0, 0) =~= needle@);
        assert(occurs_at(hay@, needle@, 0));
        return true;
    }
    if n.len() > h.len() {
        proof {
            if has_substring(hay@, needle@) {
                let i = choose|i: int| occurs_at(hay@, needle@, i);
            }
        }
        return false;
    }
    let hlen = h.len();
    let last = hlen - n.len();
    let mut i: usize = 0;
    while i <= last
        invariant
            hlen == h@.len(),
            h@ == hay@,
            n@ == needle@,
            last == h@.len() - n@.len(),
            n@.len() > 0,
            i <= last + 1,
            forall|j: int| 0 <= j < i ==> !occurs_at(hay@, needle@, j),
        decreases last + 1 - i,
    {
        if matches_at(&h, &n, i) {
            return true;
        }
        i = i + 1;
    }
    proof {
        if has_substring(hay@, needle@) {
            let j = choose|j: int| occurs_at(hay@, needle@, j);
            assert(j <= last);
        }
    }
    false
}

/// Some ignored entry occurs in the path.
pub open spec fn path_is_ignored(path: Seq<char>, ignored: Seq<String>) -> bool {
    exists|k: int| 0 <= k < ignored.len() && has_substring(path, (#[trigger] ignored[k])@)
}

/// Whether some ignored entry occurs in the path.
pub fn is_ignored_path(path: &str, ignored: &Vec<String>) -> (r: bool)
    ensures
        r == path_is_ignored(path@, ignored@),
{
    let mut k: usize = 0;
    while k < ignored.len()
        invariant
            k <= ignored@.len(),
            forall|j: int| 0 <= j < k ==> !has_substring(path@, (#[trigger] ignored@[j])@),
        decreases ignored@.len() - k,
    {
        if contains_substring(path, ignored[k].as_str()) {
            return true;
        }
        k = k + 1;
    }
    false
}

/// The lower-case hexadecimal SHA-1 digest of the UTF-8 encoding of a text.
pub uninterp spec fn sha1_hex_of(s: Seq<char>) -> Seq<char>;

/// Relies on sha1's `Sha1::digest` of the UTF-8 bytes, written in lower-case
/// hexadecimal: a function of the text alone.
#[verifier::external_body]
fn sha1_hex(content: &str) -> (r: String)
    ensures
        r@ == sha1_hex_of(content@),
{
    format!("{:x}", Sha1::digest(content.as_bytes()))
}

/// The SHA-1 digest of a text, in lower-case hexadecimal.
pub fn calculate_file_sha1(content: &str) -> (r: String)
    ensures
        r@ == sha1_hex_of(content@),
{
    sha1_hex(content)
}

proof fn lemma_seq_less_irreflexive(a: Seq<char>)
    ensures
        !seq_less(a, a),
    decreases a.len(),
{
    if a.len() > 0 {
        lemma_seq_less_irreflexive(a.drop_first());
    }
}

proof fn lemma_seq_less_transitive(a: Seq<char>, b: Seq<char>, c: Seq<char>)
    requires
        seq_less(a, b),
        seq_less(b, c),
    ensures
        seq_less(a, c),
    decreases a.len(),
{
    if a.len() > 0 && b.len() > 0 && c.len() > 0 {
        if a[0] == b[0] && b[0] == c[0] {
            lemma_seq_less_transitive(a.drop_first(), b.drop_first(), c.drop_first());
        }
    }
}

proof fn lemma_seq_less_total(a: Seq<char>, b: Seq<char>)
    requires
        a != b,
    ensures
        seq_less(a, b) || seq_less(b, a),
    decreases a.len(),
{
    if a.len() == 0 {
        assert(b.len() > 0) by {
            if b.len() == 0 {
                assert(a =~= b);
            }
        }
    } else if b.len() > 0 && a[0] != b[0] {
        if (a[0] as u32) == (b[0] as u32) {
            vstd::utf8::char_u32_cast(a[0], a[0] as u32);
            vstd::utf8::char_u32_cast(b[0], b[0] as u32);
        }
    } else if b.len() > 0 && a[0] == b[0] {
        if a.drop_first() == b.drop_first() {
            assert(a =~= seq![a[0]] + a.drop_first());
            assert(b =~= seq![b[0]] + b.drop_first());
        }
        lemma_seq_less_total(a.drop_first(), b.drop_first());
    }
}

proof fn lemma_seq_less_suffix(a: Seq<char>, b: Seq<char>, i: int)
    requires
        0 <= i <= a.len(),
        i <= b.len(),
        a.subrange(0, i) == b.subrange(0, i),
    ensures
        seq_less(a, b) == seq_less(a.subrange(i, a.len() as int), b.subrange(i, b.len() as int)),
    decreases i,
{
    if i > 0 {
        assert(a[0] == a.subrange(0, i)[0]);
        assert(b[0] == b.subrange(0, i)[0]);
        assert(a.drop_first().subrange(0, i - 1) =~= a.subrange(1, i));
        assert(b.drop_first().subrange(0, i - 1) =~= b.subrange(1, i));
        assert(a.subrange(1, i) =~= a.subrange(0, i).drop_first());
        assert(b.subrange(1, i) =~= b.subrange(0, i).drop_first());
        lemma_seq_less_suffix(a.drop_first(), b.drop_first(), i - 1);
        assert(a.drop_first().subrange(i - 1, a.len() - 1) =~= a.subrange(i, a.len() as int));
        assert(b.drop_first().subrange(i - 1, b.len() - 1) =~= b.subrange(i, b.len() as int));
    } else {
        assert(a.subrange(0, a.len() as int) =~= a);
        assert(b.subrange(0, b.len() as int) =~= b);
    }
}

/// Whether path `a` orders before path `b`.
pub fn path_less(a: &str, b: &str) -> (r: bool)
    ensures
        r == seq_less(a@, b@),
{
    let x = chars_of(a);
    let y = chars_of(b);
    let mut i: usize = 0;
    while i < x.len() && i < y.len() && x[i] == y[i]
        invariant
            x@ == a@,
            y@ == b@,
            i <= x@.len(),
            i <= y@.len(),
            x@.subrange(0, i as int) == y@.subrange(0, i as int),
        decreases x@.len() - i,
    {
        assert(x@.subrange(0, i + 1) =~= x@.subrange(0, i as int).push(x@[i as int]));
        assert(y@.subrange(0, i + 1) =~= y@.subrange(0, i as int).push(y@[i as int]));
        i = i + 1;
    }
    proof {
        lemma_seq_less_suffix(x@, y@, i as int);
    }
    let ghost xs = x@.subrange(i as int, x@.len() as int);
    let ghost ys = y@.subrange(i as int, y@.len() as int);
    if i == x.len() {
        i < y.len()
    } else if i == y.len() {
        false
    } else {
        assert(xs[0] == x@[i as int] && ys[0] == y@[i as int]);
        let cx = x[i];
        let cy = y[i];
        if cx == '/' {
            true
        } else if cy == '/' {
            false
        } else {
            (cx as u32) < (cy as u32)
        }
    }
}

/// A file found in a submission, as the walk over its directory reports it.
pub struct WalkEntry {
    /// The full path of the file, as walked.
    pub path: String,
    /// The components of the path below the submission root.
    pub relative_components: Vec<String>,
    /// The content, when it could be read as text.
    pub content: Option<String>,
}

/// Components joined by `/`.
pub open spec fn join_path(parts: Seq<Seq<char>>) -> Seq<char>
    decreases parts.len(),
{
    if parts.len() == 0 {
        Seq::empty()
    } else if parts.len() == 1 {
        parts[0]
    } else {
        join_path(parts.drop_last()).push('/') + parts.last()
    }
}

/// The key of a file: its path below the submission root, without a leading
/// component equal to the project identifier.
pub open spec fn relative_key(parts: Seq<Seq<char>>, project_id: Seq<char>) -> Seq<char> {
    if parts.len() > 0 && parts[0] == project_id {
        join_path(parts.drop_first())
    } else {
        join_path(parts)
    }
}

/// Components `parts[from..]` joined by `/`.
fn join_components(parts: &Vec<String>, from: usize) -> (r: String)
    requires
        from <= parts@.len(),
    ensures
        r@ == join_path(views_of(parts@).subrange(from as int, parts@.len() as int)),
{
    let ghost v = views_of(parts@);
    let mut r = String::new();
    let mut i: usize = from;
    assert(v.subrange(from as int, from as int) =~= Seq::<Seq<char>>::empty());
    while i < parts.len()
        invariant
            v == views_of(parts@),
            from <= i <= parts@.len(),
            r@ == join_path(v.subrange(from as int, i as int)),
        decreases parts@.len() - i,
    {
        let ghost pre = v.subrange(from as int, i as int);
        assert(v.subrange(from as int, i + 1).drop_last() =~= pre);
        if i > from {
            r.push('/');
        } else {
            assert(v.subrange(from as int, i + 1) =~= seq![v[i as int]]);
        }
        r.append(parts[i].as_str());
        i = i + 1;
    }
    r
}

/// The key of a walked file, as `relative_key` describes it.
pub fn relative_path_of(parts: &Vec<String>, project_id: &str) -> (r: String)
    ensures
        r@ == relative_key(views_of(parts@), project_id@),
{
    let ghost v = views_of(parts@);
    if parts.len() > 0 && same_chars(parts[0].as_str(), project_id) {
        assert(v.subrange(1, v.len() as int) =~= v.drop_first());
        join_components(parts, 1)
    } else {
        assert(v.subrange(0, v.len() as int) =~= v);
        join_components(parts, 0)
    }
}

/// Some file of `files` is `f`.
pub open spec fn holds_file(files: Seq<ProcessedFile>, f: ProcessedFile) -> bool {
    exists|i: int| 0 <= i < files.len() && #[trigger] files[i] == f
}

/// Some file of `files` has path `p`.
pub open spec fn holds_path(files: Seq<ProcessedFile>, p: Seq<char>) -> bool {
    exists|i: int| 0 <= i < files.len() && (#[trigger] files[i]).relative_path@ == p
}

/// Adds `f` to the sorted files, replacing the file with the same path.
fn upsert_file(files: &mut Vec<ProcessedFile>, f: ProcessedFile)
    requires
        files_sorted(old(files)@),
    ensures
        files_sorted(final(files)@),
        holds_file(final(files)@, f),
        forall|g: ProcessedFile|
            holds_file(final(files)@, g) ==> g == f || (holds_file(old(files)@, g)
                && g.relative_path@ != f.relative_path@),
        forall|g: ProcessedFile|
            holds_file(old(files)@, g) && g.relative_path@ != f.relative_path@ ==> holds_file(
                final(files)@,
                g,
            ),
{
    let ghost old_s = files@;
    let n = files.len();
    let mut p: usize = 0;
    while p < n && path_less(files[p].relative_path.as_str(), f.relative_path.as_str())
        invariant
            n == files@.len(),
            files@ == old_s,
            p <= n,
            forall|k: int| 0 <= k < p ==> seq_less(
                (#[trigger] old_s[k]).relative_path@,
                f.relative_path@,
            ),
        decreases n - p,
    {
        p = p + 1;
    }
    let replace = p < n && same_chars(files[p].relative_path.as_str(), f.relative_path.as_str());
    let ghost fp = f;
    proof {
        assert forall|k: int| p <= k < n implies seq_less(
            fp.relative_path@,
            (#[trigger] old_s[k]).relative_path@,
        ) || (k == p && replace) by {
            let q = old_s[p as int].relative_path@;
            if q != fp.relative_path@ {
                lemma_seq_less_total(q, fp.relative_path@);
                if k > p {
                    lemma_seq_less_transitive(fp.relative_path@, q, old_s[k].relative_path@);
                }
            } else if k > p {
                assert(seq_less(q, old_s[k].relative_path@));
            }
        }
    }
    if replace {
        files.set(p, f);
        proof {
            assert(files@[p as int] == fp);
            assert forall|g: ProcessedFile| holds_file(files@, g) implies g == fp || (holds_file(
                old_s,
                g,
            ) && g.relative_path@ != fp.relative_path@) by {
                let i = choose|i: int| 0 <= i < files@.len() && #[trigger] files@[i] == g;
                if i != p {
                    assert(old_s[i] == g);
                    lemma_seq_less_irreflexive(fp.relative_path@);
                }
            }
            assert forall|g: ProcessedFile|
                holds_file(old_s, g) && g.relative_path@ != fp.relative_path@ implies holds_file(
                files@,
                g,
            ) by {
                let i = choose|i: int| 0 <= i < old_s.len() && #[trigger] old_s[i] == g;
                assert(i != p);
                assert(files@[i] == g);
            }
        }
    } else {
        files.insert(p, f);
        proof {
            assert(files@[p as int] == fp);
            assert forall|i: int, j: int| 0 <= i < j < files@.len() implies seq_less(
                (#[trigger] files@[i]).relative_path@,
                (#[trigger] files@[j]).relative_path@,
            ) by {
                if j < p {
                    assert(files@[i] == old_s[i] && files@[j] == old_s[j]);
                } else if j == p {
                    assert(files@[i] == old_s[i]);
                } else if i == p {
                    assert(files@[j] == old_s[j - 1]);
                } else if i < p {
                    assert(files@[i] == old_s[i] && files@[j] == old_s[j - 1]);
                    lemma_seq_less_transitive(
                        old_s[i].relative_path@,
                        fp.relative_path@,
                        old_s[j - 1].relative_path@,
                    );
                } else {
                    assert(files@[i] == old_s[i - 1] && files@[j] == old_s[j - 1]);
                }
            }
            assert forall|g: ProcessedFile| holds_file(files@, g) implies g == fp || (holds_file(
                old_s,
                g,
            ) && g.relative_path@ != fp.relative_path@) by {
                let i = choose|i: int| 0 <= i < files@.len() && #[trigger] files@[i] == g;
                if i < p {
                    assert(old_s[i] == g);
                    lemma_seq_less_irreflexive(fp.relative_path@);
                } else if i > p {
                    assert(old_s[i - 1] == g);
                    lemma_seq_less_irreflexive(fp.relative_path@);
                }
            }
            assert forall|g: ProcessedFile|
                holds_file(old_s, g) && g.relative_path@ != fp.relative_path@ implies holds_file(
                files@,
                g,
            ) by {
                let i = choose|i: int| 0 <= i < old_s.len() && #[trigger] old_s[i] == g;
                if i < p {
                    assert(files@[i] == g);
                } else {
                    assert(files@[i + 1] == g);
                }
            }
        }
    }
}

/// A walked file takes part: no ignored entry occurs in its path, and its
/// content could be read as text.
pub open spec fn accepted_entry(e: WalkEntry, ignored: Seq<String>) -> bool {
    !path_is_ignored(e.path@, ignored) && e.content is Some
}

/// The key under which a walked file is stored.
pub open spec fn entry_key(e: WalkEntry, project_id: Seq<char>) -> Seq<char> {
    relative_key(views_of(e.relative_components@), project_id)
}

/// `f` records the walked file `e`.
pub open spec fn describes_entry(f: ProcessedFile, e: WalkEntry, project_id: Seq<char>) -> bool {
    &&& e.content is Some
    &&& f.relative_path@ == entry_key(e, project_id)
    &&& f.content@ == e.content->0@
    &&& f.language == language_of(e.path@)
    &&& f.sha1_hash@ == sha1_hex_of(e.content->0@)
    &&& f.char_length == e.content->0@.len()
    &&& f.line_count == line_count_of(e.content->0@)
}

/// `f` records `entries[k]`, the last of `entries[..n]` that takes part under
/// its key.
pub open spec fn latest_entry_within(
    f: ProcessedFile,
    entries: Seq<WalkEntry>,
    ignored: Seq<String>,
    project_id: Seq<char>,
    k: int,
    n: int,
) -> bool {
    &&& 0 <= k < n
    &&& accepted_entry(entries[k], ignored)
    &&& describes_entry(f, entries[k], project_id)
    &&& forall|k2: int|
        k < k2 < n && accepted_entry(#[trigger] entries[k2], ignored) ==> entry_key(
            entries[k2],
            project_id,
        ) != entry_key(entries[k], project_id)
}

/// Separator between the files of the concatenated source.
pub open spec fn file_separator() -> Seq<char> {
    "\n\n---FILE_SEPARATOR---\n\n"@
}

/// A stored file joins the concatenated source: Rust and Python files, and
/// text files with the `c` extension.
pub open spec fn joins_concatenated_source(f: ProcessedFile) -> bool {
    ||| f.language == SourceLanguage::Rust
    ||| f.language == SourceLanguage::Python
    ||| (f.language == SourceLanguage::Text && extension_of(f.relative_path@) == Some("c"@))
}

/// The contents of the files that join the concatenated source, in order.
pub open spec fn source_contents(files: Seq<ProcessedFile>) -> Seq<Seq<char>>
    decreases files.len(),
{
    if files.len() == 0 {
        Seq::empty()
    } else {
        let pre = source_contents(files.drop_last());
        if joins_concatenated_source(files.last()) {
            pre.push(files.last().content@)
        } else {
            pre
        }
    }
}

/// The parts joined with `sep` between consecutive parts.
pub open spec fn join_with(parts: Seq<Seq<char>>, sep: Seq<char>) -> Seq<char>
    decreases parts.len(),
{
    if parts.len() == 0 {
        Seq::empty()
    } else if parts.len() == 1 {
        parts[0]
    } else {
        join_with(parts.drop_last(), sep) + sep + parts.last()
    }
}

/// The record of a walked file whose content was read.
fn file_of_entry(e: &WalkEntry, project_id: &str) -> (f: ProcessedFile)
    requires
        e.content is Some,
    ensures
        describes_entry(f, *e, project_id@),
{
    let content = match &e.content {
        Some(c) => c,
        None => {
            assert(false);
            unreached()
        },
    };
    let (char_length, line_count) = count_chars_and_lines(content.as_str());
    ProcessedFile {
        relative_path: relative_path_of(&e.relative_components, project_id),
        content: copy_string(content),
        language: detect_language(e.path.as_str()),
        sha1_hash: calculate_file_sha1(content.as_str()),
        char_length,
        line_count,
    }
}

fn joins_source(f: &ProcessedFile) -> (r: bool)
    ensures
        r == joins_concatenated_source(*f),
{
    match f.language {
        SourceLanguage::Rust | SourceLanguage::Python => true,
        SourceLanguage::Text => match path_extension(f.relative_path.as_str()) {
            Some(e) => same_chars(e.as_str(), "c"),
            None => false,
        },
        SourceLanguage::Unknown => false,
    }
}

/// The source files' contents joined by the separator, in path order; none
/// when no file joins.
fn concatenate_sources(files: &Vec<ProcessedFile>) -> (r: Option<String>)
    ensures
        r is Some <==> source_contents(files@).len() > 0,
        r is Some ==> r->0@ == join_with(source_contents(files@), file_separator()),
{
    let mut out = String::new();
    let mut any = false;
    let mut i: usize = 0;
    while i < files.len()
        invariant
            i <= files@.len(),
            any <==> source_contents(files@.subrange(0, i as int)).len() > 0,
            out@ == join_with(source_contents(files@.subrange(0, i as int)), file_separator()),
        decreases files@.len() - i,
    {
        let ghost pre = files@.subrange(0, i as int);
        assert(files@.subrange(0, i + 1).drop_last() =~= pre);
        if joins_source(&files[i]) {
            let ghost parts = source_contents(pre);
            let ghost c = files@[i as int].content@;
            assert(source_contents(files@.subrange(0, i + 1)) == parts.push(c));
            assert(parts.push(c).drop_last() =~= parts);
            if any {
                out.append("\n\n---FILE_SEPARATOR---\n\n");
            } else {
                assert(parts.push(c) =~= seq![c]);
            }
            out.append(files[i].content.as_str());
            any = true;
        }
        i = i + 1;
    }
    assert(files@.subrange(0, i as int) =~= files@);
    if any {
        Some(out)
    } else {
        None
    }
}

/// Builds the normalized project from the files of a walked submission:
/// every file that no ignored entry occurs in and whose content could be
/// read is stored under its key, a later file replacing an earlier one with
/// the same key; the files are kept in path order; the Rust, Python and C
/// sources are concatenated in that order and hashed.
pub fn normalize_project(project_id: &str, entries: &Vec<WalkEntry>, ignored: &Vec<String>) -> (r:
    NormalizedProject)
    ensures
        r.project_id@ == project_id@,
        files_sorted(r.files@),
        forall|f: ProcessedFile|
            holds_file(r.files@, f) ==> exists|k: int|
                latest_entry_within(f, entries@, ignored@, project_id@, k, entries@.len() as int),
        forall|k: int|
            0 <= k < entries@.len() && accepted_entry(#[trigger] entries@[k], ignored@) ==> holds_path(
                r.files@,
                entry_key(entries@[k], project_id@),
            ),
        r.concatenated_source_code is Some <==> source_contents(r.files@).len() > 0,
        r.concatenated_source_code is Some ==> r.concatenated_source_code->0@ == join_with(
            source_contents(r.files@),
            file_separator(),
        ),
        r.concatenated_source_hash is Some <==> r.concatenated_source_code is Some,
        r.concatenated_source_hash is Some ==> r.concatenated_source_hash->0@ == sha1_hex_of(
            r.concatenated_source_code->0@,
        ),
{
    let ghost es = entries@;
    let ghost id = project_id@;
    let mut files: Vec<ProcessedFile> = Vec::new();
    let mut k: usize = 0;
    while k < entries.len()
        invariant
            es == entries@,
            id == project_id@,
            k <= es.len(),
            files_sorted(files@),
            forall|f: ProcessedFile|
                holds_file(files@, f) ==> exists|k1: int|
                    latest_entry_within(f, es, ignored@, id, k1, k as int),
            forall|k1: int|
                0 <= k1 < k && accepted_entry(#[trigger] es[k1], ignored@) ==> holds_path(
                    files@,
                    entry_key(es[k1], id),
                ),
        decreases es.len() - k,
    {
        let e = &entries[k];
        let ghost next = k + 1;
        let skip = is_ignored_path(e.path.as_str(), ignored) || e.content.is_none();
        if !skip {
            let f = file_of_entry(e, project_id);
            let ghost old_files = files@;
            upsert_file(&mut files, f);
            proof {
                assert forall|g: ProcessedFile| holds_file(files@, g) implies exists|k1: int|
                    latest_entry_within(g, es, ignored@, id, k1, next) by {
                    if g == f {
                        assert(latest_entry_within(g, es, ignored@, id, k as int, next));
                    } else {
                        let k1 = choose|k1: int| latest_entry_within(g, es, ignored@, id, k1, k as int);
                        assert(latest_entry_within(g, es, ignored@, id, k1, next));
                    }
                }
                assert forall|k1: int|
                    0 <= k1 < k + 1 && accepted_entry(#[trigger] es[k1], ignored@) implies holds_path(
                    files@,
                    entry_key(es[k1], id),
                ) by {
                    let key = entry_key(es[k1], id);
                    if key == f.relative_path@ {
                        let i = choose|i: int| 0 <= i < files@.len() && #[trigger] files@[i] == f;
                        assert(files@[i].relative_path@ == key);
                    } else {
                        let i = choose|i: int|
                            0 <= i < old_files.len() && (#[trigger] old_files[i]).relative_path@
                                == key;
                        assert(holds_file(old_files, old_files[i]));
                        let j = choose|j: int| 0 <= j < files@.len() && #[trigger] files@[j] == old_files[i];
                        assert(files@[j].relative_path@ == key);
                    }
                }
            }
        } else {
            proof {
                assert forall|f: ProcessedFile| holds_file(files@, f) implies exists|k1: int|
                    latest_entry_within(f, es, ignored@, id, k1, next) by {
                    let k1 = choose|k1: int| latest_entry_within(f, es, ignored@, id, k1, k as int);
                    assert(latest_entry_within(f, es, ignored@, id, k1, next));
                }
            }
        }
        k = k + 1;
    }
    let concatenated = concatenate_sources(&files);
    let hash = match &concatenated {
        Some(c) => Some(calculate_file_sha1(c.as_str())),
        None => None,
    };
    NormalizedProject {
        project_id: copy_string_of_str(project_id),
        files,
        concatenated_source_code: concatenated,
        concatenated_source_hash: hash,
    }
}

fn copy_string_of_str(s: &str) -> (r: String)
    ensures
        r@ == s@,
{
    String::from_str(s)
}

} // verus!
