//! Repository sources: classifying user input, GitHub URL and slug parsing,
//! and parsing what `git log` and `git for-each-ref` print.
use vstd::prelude::*;
use crate::model::{opt_view, Commit, Release};
use crate::text::{
    ascii_alnum, chars_of, find_char, lead_ws, lines_exec, lines_spec, parse_i64, parse_i64_spec,
    push_str, rfind_char, slice_range, split_exec, split_on, splitn_exec, splitn_on, starts_with,
    starts_with_exec, string_of, to_lowercase, trim, trim_chars, trim_end_char, trim_end_char_exec,
    trim_end_seq, trim_end_seq_exec, unicode_lowercase, unicode_whitespace, has_sub, contains_seq,
    is_whitespace, contains_char, push_char, lower_chars, seq_eq,
};

verus! {

/// A repository ready to be read: where its git directory is, and what to
/// call it.
#[derive(Debug, Clone)]
pub struct PreparedRepo {
    pub git_dir: String,
    /// `owner/repo` when the repository lives on GitHub.
    pub slug: Option<String>,
    /// Web URL for the repository, when known.
    pub url: Option<String>,
    pub display_name: String,
    pub branch: String,
    /// True for a cloned remote (has an `origin` to fetch from); false for a
    /// local checkout. Drives whether freshness is checked via `git ls-remote`.
    pub is_remote: bool,
}

/// Where a repository comes from.
#[derive(Debug, Clone)]
pub enum Source {
    /// A local checkout at the given path.
    Local,
    /// A remote to clone, with its GitHub slug when known.
    Remote { clone_url: String, slug: Option<String> },
}

/// Why an input names no repository.
#[derive(Debug, Clone, Copy, PartialEq, Eq)]
pub enum PrepareError {
    /// Not a local path, an `owner/repo` GitHub slug, or a git URL.
    Unrecognised,
}

// ---------------------------------------------------------------------------
// GitHub URLs and slugs
// ---------------------------------------------------------------------------
/// The prefixes under which GitHub repository URLs are recognised, in the
/// order they are tried.
pub open spec fn github_prefixes() -> Seq<Seq<char>> {
    seq!["git@github.com:"@, "https://github.com/"@, "http://github.com/"@, "ssh://git@github.com/"@, "github.com/"@]
}

/// `u` without the first recognised GitHub prefix among the first `n`.
pub open spec fn strip_github(u: Seq<char>, n: int) -> Option<Seq<char>>
    decreases n,
{
    if n <= 0 {
        None
    } else {
        match strip_github(u, n - 1) {
            Some(r) => Some(r),
            None => {
                let p = github_prefixes()[n - 1];
                if starts_with(u, p) {
                    Some(u.skip(p.len() as int))
                } else {
                    None
                }
            },
        }
    }
}

/// The `owner/repo` of a GitHub URL: trimmed, without trailing slashes and
/// `.git`, after a recognised prefix, the first two `/`-separated parts,
/// both nonempty.
pub open spec fn github_slug(url: Seq<char>) -> Option<Seq<char>> {
    let u = trim_end_seq(trim_end_char(trim(url), '/'), ".git"@);
    match strip_github(u, 5) {
        None => None,
        Some(rest) => {
            let parts = splitn_on(rest, '/', 3);
            if parts.len() >= 2 && parts[0].len() > 0 && parts[1].len() > 0 {
                Some(parts[0] + seq!['/'] + parts[1])
            } else {
                None
            }
        },
    }
}

proof fn lemma_strip_stable(u: Seq<char>, m: int, n: int)
    requires
        m <= n,
        strip_github(u, m) is Some,
    ensures
        strip_github(u, n) == strip_github(u, m),
    decreases n - m,
{
    if m < n {
        lemma_strip_stable(u, m, n - 1);
    }
}

/// The text after the first recognised GitHub prefix of `u`.
fn strip_github_exec(u: &Vec<char>) -> (r: Option<Vec<char>>)
    ensures
        match r {
            Some(v) => strip_github(u@, 5) == Some(v@),
            None => strip_github(u@, 5) is None,
        },
{
    let prefixes = [
        chars_of("git@github.com:"),
        chars_of("https://github.com/"),
        chars_of("http://github.com/"),
        chars_of("ssh://git@github.com/"),
        chars_of("github.com/"),
    ];
    let mut k: usize = 0;
    while k < 5
        invariant
            k <= 5,
            forall|j: int| 0 <= j < 5 ==> (#[trigger] prefixes@[j])@ == github_prefixes()[j],
            strip_github(u@, k as int) is None,
        decreases 5 - k,
    {
        let p = &prefixes[k];
        if starts_with_exec(u, p) {
            let rest = slice_range(u, p.len(), u.len());
            assert(rest@ =~= u@.skip(p@.len() as int));
            proof {
                assert(strip_github(u@, k + 1) == Some(rest@));
                lemma_strip_stable(u@, k + 1, 5);
            }
            return Some(rest);
        }
        k += 1;
    }
    None
}

/// Extract `owner/repo` from common GitHub URL shapes.
pub fn parse_github_url(url: &str) -> (r: Option<String>)
    ensures
        opt_chars(r) == github_slug(url@),
{
    let t = trim_chars(&chars_of(url));
    let t = trim_end_char_exec(&t, '/');
    let dot_git = chars_of(".git");
    let u = trim_end_seq_exec(&t, &dot_git);
    let rest = match strip_github_exec(&u) {
        Some(rest) => rest,
        None => {
            return None;
        },
    };
    let parts = splitn_exec(&rest, '/', 3);
    let ghost pv = parts@.map_values(|p: Vec<char>| p@);
    if parts.len() < 2 || parts[0].len() == 0 || parts[1].len() == 0 {
        proof {
            if parts@.len() >= 2 {
                assert(pv[0] == parts@[0]@);
                assert(pv[1] == parts@[1]@);
            }
        }
        return None;
    }
    let mut out = string_of(&parts[0]);
    push_char(&mut out, '/');
    let second = string_of(&parts[1]);
    push_str(&mut out, second.as_str());
    proof {
        assert(pv[0] == parts@[0]@);
        assert(pv[1] == parts@[1]@);
        assert(out@ =~= pv[0] + seq!['/'] + pv[1]);
    }
    Some(out)
}

/// The view of an optional string.
pub open spec fn opt_chars(o: Option<String>) -> Option<Seq<char>> {
    match o {
        Some(s) => Some(s@),
        None => None,
    }
}

/// A character allowed in a slug part: ASCII alphanumerics, `-`, `_`, `.`.
pub open spec fn slug_char(c: char) -> bool {
    ascii_alnum(c) || c == '-' || c == '_' || c == '.'
}

/// `owner/repo`: exactly two nonempty parts of slug characters.
pub open spec fn is_slug(s: Seq<char>) -> bool {
    let parts = split_on(s, '/');
    parts.len() == 2 && forall|k: int| 0 <= k < 2 ==> (#[trigger] parts[k]).len() > 0 && forall|i: int|
        0 <= i < parts[k].len() ==> slug_char(#[trigger] parts[k][i])
}

/// Whether all characters of `s` are slug characters.
fn all_slug_chars(s: &Vec<char>) -> (r: bool)
    ensures
        r == forall|i: int| 0 <= i < s@.len() ==> slug_char(#[trigger] s@[i]),
{
    let mut i: usize = 0;
    while i < s.len()
        invariant
            i <= s@.len(),
            forall|j: int| 0 <= j < i ==> slug_char(#[trigger] s@[j]),
        decreases s@.len() - i,
    {
        let c = s[i];
        if !(('0' <= c && c <= '9') || ('a' <= c && c <= 'z') || ('A' <= c && c <= 'Z') || c == '-' || c == '_' || c == '.') {
            return false;
        }
        i += 1;
    }
    true
}

/// Whether the input is an `owner/repo` GitHub slug.
pub fn looks_like_slug(s: &str) -> (r: bool)
    ensures
        r == is_slug(s@),
{
    let cs = chars_of(s);
    let parts = split_exec(&cs, '/');
    let ghost pv = parts@.map_values(|p: Vec<char>| p@);
    if parts.len() != 2 {
        return false;
    }
    proof {
        assert(pv[0] == parts@[0]@);
        assert(pv[1] == parts@[1]@);
    }
    let ok0 = parts[0].len() > 0 && all_slug_chars(&parts[0]);
    let ok1 = parts[1].len() > 0 && all_slug_chars(&parts[1]);
    proof {
        if !ok0 {
            assert(!(pv[0].len() > 0 && forall|i: int| 0 <= i < pv[0].len() ==> slug_char(#[trigger] pv[0][i])));
        }
        if !ok1 {
            assert(!(pv[1].len() > 0 && forall|i: int| 0 <= i < pv[1].len() ==> slug_char(#[trigger] pv[1][i])));
        }
    }
    ok0 && ok1
}


/// A bare GitHub owner name: trimmed, nonempty, with no `/`, `:` or `.`, not
/// an existing path, not starting with `-`, and only ASCII alphanumerics and
/// `-`.
pub open spec fn is_owner(input: Seq<char>, path_exists: bool) -> bool {
    let s = trim(input);
    &&& s.len() > 0
    &&& !s.contains('/') && !s.contains(':') && !s.contains('.')
    &&& !path_exists
    &&& s[0] != '-'
    &&& forall|i: int| 0 <= i < s.len() ==> ascii_alnum(#[trigger] s[i]) || s[i] == '-'
}

/// A bare GitHub owner name (org or user): a single token, not a local path,
/// not a slug, not a URL. Used to decide whether to expand the input into all
/// of that owner's repositories. `path_exists` tells whether the trimmed
/// input names an existing path.
pub fn looks_like_owner(input: &str, path_exists: bool) -> (r: bool)
    ensures
        r == is_owner(input@, path_exists),
{
    let s = trim_chars(&chars_of(input));
    if s.len() == 0 || contains_char(&s, '/') || contains_char(&s, ':') || contains_char(&s, '.') {
        return false;
    }
    if path_exists {
        return false;
    }
    if s[0] == '-' {
        return false;
    }
    let mut i: usize = 0;
    while i < s.len()
        invariant
            i <= s@.len(),
            s@ == trim(input@),
            forall|j: int| 0 <= j < i ==> ascii_alnum(#[trigger] s@[j]) || s@[j] == '-',
        decreases s@.len() - i,
    {
        let c = s[i];
        if !(('0' <= c && c <= '9') || ('a' <= c && c <= 'z') || ('A' <= c && c <= 'Z') || c == '-') {
            assert(!(ascii_alnum(s@[i as int]) || s@[i as int] == '-'));
            return false;
        }
        i += 1;
    }
    true
}

/// A character kept by `sanitize`.
pub open spec fn safe_char(c: char) -> bool {
    ascii_alnum(c) || c == '-' || c == '.'
}

/// `s` with every character other than ASCII alphanumerics, `-` and `.`
/// replaced by `-`.
pub open spec fn sanitized(s: Seq<char>) -> Seq<char> {
    s.map_values(|c: char| if safe_char(c) { c } else { '-' })
}

/// Make a string safe as a single path component.
pub fn sanitize(s: &str) -> (r: String)
    ensures
        r@ == sanitized(s@),
{
    let cs = chars_of(s);
    let mut out = String::new();
    let mut i: usize = 0;
    while i < cs.len()
        invariant
            i <= cs@.len(),
            cs@ == s@,
            out@ == sanitized(cs@.take(i as int)),
        decreases cs@.len() - i,
    {
        let c = cs[i];
        let keep = ('0' <= c && c <= '9') || ('a' <= c && c <= 'z') || ('A' <= c && c <= 'Z') || c == '-' || c == '.';
        push_char(&mut out, if keep { c } else { '-' });
        i += 1;
        assert(out@ =~= sanitized(cs@.take(i as int)));
    }
    assert(cs@.take(i as int) =~= cs@);
    out
}

// ---------------------------------------------------------------------------
// Co-author trailers
// ---------------------------------------------------------------------------
/// The `(name, email)` of a `Co-authored-by` value `Name <email>`: the name
/// trimmed, the email trimmed and lowercased; `None` when both are empty or
/// the value is blank. A value without a `<…>` pair is all name.
pub open spec fn coauthor_of(raw: Seq<char>) -> Option<(Seq<char>, Seq<char>)> {
    match coauthor_parts_of(raw) {
        None => None,
        Some((name, None)) => coauthor_from_spec(name, None),
        Some((name, Some(email))) => coauthor_from_spec(name, Some(unicode_lowercase(email))),
    }
}

/// The parts of a `Co-authored-by` value before the email is lowercased:
/// `None` when the value is blank; else the trimmed name, with the trimmed
/// text between the first `<` and the last `>` when they form a pair, or
/// the whole trimmed value as the name when they do not.
pub open spec fn coauthor_parts_of(raw: Seq<char>) -> Option<(Seq<char>, Option<Seq<char>>)> {
    let s = trim(raw);
    if s.len() == 0 {
        None
    } else if exists|lt: int, gt: int| #[trigger] first_lt(s, lt) && #[trigger] last_gt(s, gt) && gt > lt {
        let lt = choose|lt: int| #[trigger] first_lt(s, lt);
        let gt = choose|gt: int| #[trigger] last_gt(s, gt);
        Some((trim(s.take(lt)), Some(trim(s.subrange(lt + 1, gt)))))
    } else {
        Some((s, None))
    }
}

/// A co-author from its name and its email, already lowercased: none when
/// both are empty; a value without an email is all name.
pub open spec fn coauthor_from_spec(name: Seq<char>, email: Option<Seq<char>>) -> Option<(Seq<char>, Seq<char>)> {
    match email {
        None => Some((name, Seq::empty())),
        Some(e) => if e.len() > 0 || name.len() > 0 {
            Some((name, e))
        } else {
            None
        },
    }
}

/// A co-author from its name and its email, already lowercased: `None`
/// when both are empty.
pub fn coauthor_from(name: String, email: Option<String>) -> (r: Option<(String, String)>)
    ensures
        match r {
            Some((n, e)) => coauthor_from_spec(name@, opt_view(email)) == Some((n@, e@)),
            None => coauthor_from_spec(name@, opt_view(email)) is None,
        },
{
    match email {
        None => Some((name, String::new())),
        Some(e) => {
            if chars_of(e.as_str()).len() > 0 || chars_of(name.as_str()).len() > 0 {
                Some((name, e))
            } else {
                None
            }
        },
    }
}

/// `i` is the index of the first `<` of `s`.
pub open spec fn first_lt(s: Seq<char>, i: int) -> bool {
    0 <= i < s.len() && s[i] == '<' && forall|j: int| 0 <= j < i ==> s[j] != '<'
}

/// `i` is the index of the last `>` of `s`.
pub open spec fn last_gt(s: Seq<char>, i: int) -> bool {
    0 <= i < s.len() && s[i] == '>' && forall|j: int| i < j < s.len() ==> s[j] != '>'
}

/// Split a `Co-authored-by` value (`Name <email>`) into its trimmed name
/// and, when there is a `<…>` pair, its trimmed email as written.
pub fn coauthor_parts(raw: &str) -> (r: Option<(String, Option<String>)>)
    ensures
        match r {
            Some((n, e)) => coauthor_parts_of(raw@) == Some((n@, opt_view(e))),
            None => coauthor_parts_of(raw@) is None,
        },
{
    let s = trim_chars(&chars_of(raw));
    if s.len() == 0 {
        return None;
    }
    let lt = find_char(&s, '<');
    let gt = rfind_char(&s, '>');
    match (lt, gt) {
        (Some(lt), Some(gt)) => {
            if gt > lt {
                proof {
                    assert(first_lt(s@, lt as int));
                    assert(last_gt(s@, gt as int));
                    let l2 = choose|l: int| #[trigger] first_lt(s@, l);
                    let g2 = choose|g: int| #[trigger] last_gt(s@, g);
                    assert(l2 == lt as int);
                    assert(g2 == gt as int);
                }
                let name = trim_chars(&slice_range(&s, 0, lt));
                let email = trim_chars(&slice_range(&s, lt + 1, gt));
                proof {
                    assert(s@.subrange(0, lt as int) =~= s@.take(lt as int));
                }
                return Some((string_of(&name), Some(string_of(&email))));
            }
        },
        _ => {},
    }
    proof {
        assert forall|l: int, g: int| #[trigger] first_lt(s@, l) && #[trigger] last_gt(s@, g) implies g <= l by {
            match lt {
                Some(a) => {
                    assert(l == a as int);
                    match gt {
                        Some(b) => assert(g == b as int),
                        None => assert(s@.contains('>')) by { assert(s@[g] == '>'); },
                    }
                },
                None => assert(s@.contains('<')) by { assert(s@[l] == '<'); },
            }
        }
    }
    Some((string_of(&s), None))
}

/// Parse a `Co-authored-by` value (`Name <email>`) into `(name, email)`,
/// the email lowercased.
pub fn parse_coauthor(raw: &str) -> (r: Option<(String, String)>)
    ensures
        match r {
            Some((n, e)) => coauthor_of(raw@) == Some((n@, e@)),
            None => coauthor_of(raw@) is None,
        },
{
    match coauthor_parts(raw) {
        None => None,
        Some((name, None)) => coauthor_from(name, None),
        Some((name, Some(email))) => coauthor_from(name, Some(to_lowercase(email.as_str()))),
    }
}

// ---------------------------------------------------------------------------
// Tags
// ---------------------------------------------------------------------------
/// The release on one `name<TAB>timestamp` line: the name trimmed and
/// nonempty, the timestamp (trimmed) a positive integer.
pub open spec fn tag_of(line: Seq<char>) -> Option<(Seq<char>, i64)> {
    let parts = splitn_on(line, '\t', 2);
    if parts.len() < 2 {
        None
    } else {
        match parse_i64_spec(trim(parts[1])) {
            Some(ts) => if trim(parts[0]).len() > 0 && ts > 0 {
                Some((trim(parts[0]), ts))
            } else {
                None
            },
            None => None,
        }
    }
}

/// The releases of the lines, in order, skipping lines that are none.
pub open spec fn tags_of(lines: Seq<Seq<char>>) -> Seq<(Seq<char>, i64)>
    decreases lines.len(),
{
    if lines.len() == 0 {
        Seq::empty()
    } else {
        let p = tags_of(lines.drop_last());
        match tag_of(lines.last()) {
            Some(t) => p.push(t),
            None => p,
        }
    }
}

/// The view of a list of releases.
pub open spec fn releases_view(v: Seq<Release>) -> Seq<(Seq<char>, i64)> {
    v.map_values(|r: Release| (r.name@, r.ts))
}

/// The release on one line, if any.
fn tag_line(line: &Vec<char>) -> (r: Option<Release>)
    ensures
        match r {
            Some(rel) => tag_of(line@) == Some((rel.name@, rel.ts)),
            None => tag_of(line@) is None,
        },
{
    let parts = splitn_exec(line, '\t', 2);
    let ghost pv = parts@.map_values(|p: Vec<char>| p@);
    if parts.len() < 2 {
        return None;
    }
    proof {
        assert(pv[0] == parts@[0]@);
        assert(pv[1] == parts@[1]@);
    }
    let ts = match parse_i64(&trim_chars(&parts[1])) {
        Some(ts) => ts,
        None => {
            return None;
        },
    };
    let name = trim_chars(&parts[0]);
    if name.len() > 0 && ts > 0 {
        Some(Release { name: string_of(&name), ts })
    } else {
        None
    }
}

/// Read the tags that `git for-each-ref --sort=creatordate
/// --format=%(refname:short)%09%(creatordate:unix) refs/tags` printed: one
/// release per line with a nonempty name and a positive date, in order.
pub fn read_tags(out: &str) -> (r: Vec<Release>)
    ensures
        releases_view(r@) == tags_of(lines_spec(out@)),
{
    let lines = lines_exec(&chars_of(out));
    let ghost lv = lines@.map_values(|p: Vec<char>| p@);
    let mut r: Vec<Release> = Vec::new();
    let mut k: usize = 0;
    while k < lines.len()
        invariant
            k <= lines@.len(),
            lv == lines@.map_values(|p: Vec<char>| p@),
            releases_view(r@) == tags_of(lv.take(k as int)),
        decreases lines@.len() - k,
    {
        proof {
            assert(lv.take(k + 1).drop_last() =~= lv.take(k as int));
            assert(lv.take(k + 1).last() == lines@[k as int]@);
        }
        let ghost r0 = r@;
        match tag_line(&lines[k]) {
            Some(rel) => {
                r.push(rel);
                assert(releases_view(r@) =~= releases_view(r0).push((rel.name@, rel.ts)));
            },
            None => {},
        }
        k += 1;
    }
    assert(lv.take(k as int) =~= lv);
    r
}

// ---------------------------------------------------------------------------
// Commits
// ---------------------------------------------------------------------------
/// The plain-value view of a commit: `(sha, ts, name, email, co-authors)`.
pub type CommitView = (Seq<char>, i64, Seq<char>, Seq<char>, Seq<(Seq<char>, Seq<char>)>);

/// The view of a commit.
pub open spec fn commit_view(c: Commit) -> CommitView {
    (c.sha@, c.ts, c.name@, c.email@, c.coauthors@.map_values(|p: (String, String)| (p.0@, p.1@)))
}

/// The co-authors of the trailer values `vals`, in order: those that parse,
/// with an email other than the author's.
pub open spec fn coauthors_of(vals: Seq<Seq<char>>, email: Seq<char>) -> Seq<(Seq<char>, Seq<char>)>
    decreases vals.len(),
{
    if vals.len() == 0 {
        Seq::empty()
    } else {
        let p = coauthors_of(vals.drop_last(), email);
        match coauthor_of(vals.last()) {
            Some(c) => if c.1 != email {
                p.push(c)
            } else {
                p
            },
            None => p,
        }
    }
}

/// The commit in one `git log` record: `sha TAB ts TAB name TAB email
/// [TAB trailers]`, trailers separated by `\x1f`. The timestamp must parse;
/// the name is trimmed and the email trimmed and lowercased.
pub open spec fn record_commit(rec: Seq<char>) -> Option<CommitView> {
    let parts = splitn_on(rec, '\t', 5);
    if parts.len() < 4 {
        None
    } else {
        match parse_i64_spec(parts[1]) {
            None => None,
            Some(ts) => {
                let email = unicode_lowercase(trim(parts[3]));
                let co = if parts.len() == 5 {
                    coauthors_of(split_on(parts[4], '\x1f'), email)
                } else {
                    Seq::empty()
                };
                Some((parts[0], ts, trim(parts[2]), email, co))
            },
        }
    }
}

/// The commits of the records, in order, skipping records that are none.
pub open spec fn commits_of(recs: Seq<Seq<char>>) -> Seq<CommitView>
    decreases recs.len(),
{
    if recs.len() == 0 {
        Seq::empty()
    } else {
        let p = commits_of(recs.drop_last());
        match record_commit(recs.last()) {
            Some(c) => p.push(c),
            None => p,
        }
    }
}

/// The co-authors named by a trailer block.
fn coauthors_exec(block: &Vec<char>, email: &Vec<char>) -> (r: Vec<(String, String)>)
    ensures
        r@.map_values(|p: (String, String)| (p.0@, p.1@)) == coauthors_of(split_on(block@, '\x1f'), email@),
{
    let vals = split_exec(block, '\x1f');
    let ghost vv = vals@.map_values(|p: Vec<char>| p@);
    let mut r: Vec<(String, String)> = Vec::new();
    let mut k: usize = 0;
    while k < vals.len()
        invariant
            k <= vals@.len(),
            vv == vals@.map_values(|p: Vec<char>| p@),
            r@.map_values(|p: (String, String)| (p.0@, p.1@)) == coauthors_of(vv.take(k as int), email@),
        decreases vals@.len() - k,
    {
        proof {
            assert(vv.take(k + 1).drop_last() =~= vv.take(k as int));
            assert(vv.take(k + 1).last() == vals@[k as int]@);
        }
        let ghost r0 = r@.map_values(|p: (String, String)| (p.0@, p.1@));
        let raw = string_of(&vals[k]);
        match parse_coauthor(raw.as_str()) {
            Some((n, e)) => {
                let ec = chars_of(e.as_str());
                if !seq_eq(&ec, email) {
                    r.push((n, e));
                    assert(r@.map_values(|p: (String, String)| (p.0@, p.1@)) =~= r0.push((n@, e@)));
                }
            },
            None => {},
        }
        k += 1;
    }
    assert(vv.take(k as int) =~= vv);
    r
}

/// The commit in one record, if any.
fn record_exec(rec: &Vec<char>) -> (r: Option<Commit>)
    ensures
        match r {
            Some(c) => record_commit(rec@) == Some(commit_view(c)) && c.src == 0,
            None => record_commit(rec@) is None,
        },
{
    let parts = splitn_exec(rec, '\t', 5);
    let ghost pv = parts@.map_values(|p: Vec<char>| p@);
    if parts.len() < 4 {
        return None;
    }
    proof {
        assert(pv[0] == parts@[0]@);
        assert(pv[1] == parts@[1]@);
        assert(pv[2] == parts@[2]@);
        assert(pv[3] == parts@[3]@);
        if parts@.len() == 5 {
            assert(pv[4] == parts@[4]@);
        }
    }
    let ts = match parse_i64(&parts[1]) {
        Some(ts) => ts,
        None => {
            return None;
        },
    };
    let email = lower_chars(&trim_chars(&parts[3]));
    let coauthors = if parts.len() == 5 {
        coauthors_exec(&parts[4], &email)
    } else {
        Vec::new()
    };
    let c = Commit {
        sha: string_of(&parts[0]),
        ts,
        name: string_of(&trim_chars(&parts[2])),
        email: string_of(&email),
        coauthors,
        src: 0,
    };
    proof {
        if parts@.len() != 5 {
            assert(c.coauthors@.map_values(|p: (String, String)| (p.0@, p.1@)) =~= Seq::<(Seq<char>, Seq<char>)>::empty());
        }
    }
    Some(c)
}

/// Parse what `git log` printed with records separated by `\x1e`, fields by
/// tabs, and `Co-authored-by` trailers joined with `\x1f`: one commit per
/// well-formed record, in order, each with source index 0.
pub fn parse_commits(text: &str) -> (r: Vec<Commit>)
    ensures
        r@.map_values(|c: Commit| commit_view(c)) == commits_of(split_on(text@, '\x1e')),
        forall|k: int| 0 <= k < r@.len() ==> (#[trigger] r@[k]).src == 0,
{
    let recs = split_exec(&chars_of(text), '\x1e');
    let ghost rv = recs@.map_values(|p: Vec<char>| p@);
    let mut r: Vec<Commit> = Vec::new();
    let mut k: usize = 0;
    while k < recs.len()
        invariant
            k <= recs@.len(),
            rv == recs@.map_values(|p: Vec<char>| p@),
            r@.map_values(|c: Commit| commit_view(c)) == commits_of(rv.take(k as int)),
            forall|k2: int| 0 <= k2 < r@.len() ==> (#[trigger] r@[k2]).src == 0,
        decreases recs@.len() - k,
    {
        proof {
            assert(rv.take(k + 1).drop_last() =~= rv.take(k as int));
            assert(rv.take(k + 1).last() == recs@[k as int]@);
        }
        let ghost r0 = r@;
        match record_exec(&recs[k]) {
            Some(c) => {
                r.push(c);
                assert(r@.map_values(|c: Commit| commit_view(c)) =~= r0.map_values(|c: Commit| commit_view(c)).push(commit_view(c)));
            },
            None => {},
        }
        k += 1;
    }
    assert(rv.take(k as int) =~= rv);
    r
}

// ---------------------------------------------------------------------------
// Preparing a source
// ---------------------------------------------------------------------------
/// The web page of a GitHub repository or user.
pub open spec fn github_page(slug: Seq<char>) -> Seq<char> {
    "https://github.com/"@ + slug
}

/// Where a repository comes from, given whether the input names an existing
/// path: that path; the clone URL of a GitHub URL or `owner/repo` slug; any
/// other URL (`://` or `git@`); or nothing.
pub open spec fn source_of(input: Seq<char>, path_exists: bool) -> Option<(Seq<char>, Option<Seq<char>>)> {
    if path_exists {
        None
    } else if github_slug(input) is Some {
        Some((github_page(github_slug(input)->0) + ".git"@, github_slug(input)))
    } else if is_slug(input) {
        Some((github_page(input) + ".git"@, Some(input)))
    } else if has_sub(input, "://"@) || starts_with(input, "git@"@) {
        Some((input, None))
    } else {
        None
    }
}

/// Resolve user input (local path, `owner/repo` slug, or git URL) into where
/// to read history from. `path_exists` tells whether the input names an
/// existing path, which wins.
pub fn prepare(input: &str, path_exists: bool) -> (r: Result<Source, PrepareError>)
    ensures
        match r {
            Ok(Source::Local) => path_exists,
            Ok(Source::Remote { clone_url, slug }) => source_of(input@, path_exists) == Some((clone_url@, opt_chars(slug))),
            Err(_) => !path_exists && source_of(input@, false) is None,
        },
{
    if path_exists {
        return Ok(Source::Local);
    }
    match parse_github_url(input) {
        Some(slug) => {
            let mut url = "https://github.com/".to_string();
            push_str(&mut url, slug.as_str());
            push_str(&mut url, ".git");
            return Ok(Source::Remote { clone_url: url, slug: Some(slug) });
        },
        None => {},
    }
    if looks_like_slug(input) {
        let mut url = "https://github.com/".to_string();
        push_str(&mut url, input);
        push_str(&mut url, ".git");
        return Ok(Source::Remote { clone_url: url, slug: Some(input.to_string()) });
    }
    let cs = chars_of(input);
    if contains_seq(&cs, &chars_of("://")) || starts_with_exec(&cs, &chars_of("git@")) {
        return Ok(Source::Remote { clone_url: input.to_string(), slug: None });
    }
    Err(PrepareError::Unrecognised)
}

/// The name of a remote repository without a slug: the last `/`-separated
/// part of its URL, without trailing `.git`.
pub open spec fn url_basename(clone_url: Seq<char>) -> Seq<char> {
    let t = trim_end_seq(clone_url, ".git"@);
    let parts = split_on(t, '/');
    parts.last()
}

/// A repository read from a cached clone of `clone_url` in `git_dir`, on
/// `branch`.
pub fn remote_repo(clone_url: &str, slug: Option<String>, git_dir: String, branch: String) -> (r: PreparedRepo)
    ensures
        r.git_dir@ == git_dir@,
        opt_chars(r.slug) == opt_chars(slug),
        opt_chars(r.url) == (match slug {
            Some(s) => Some(github_page(s@)),
            None => None,
        }),
        r.display_name@ == (match slug {
            Some(s) => s@,
            None => url_basename(clone_url@),
        }),
        r.branch@ == branch@,
        r.is_remote,
{
    let display_name = match &slug {
        Some(s) => s.clone(),
        None => {
            let t = trim_end_seq_exec(&chars_of(clone_url), &chars_of(".git"));
            let parts = split_exec(&t, '/');
            let last = parts.len() - 1;
            proof {
                assert(parts@.map_values(|p: Vec<char>| p@).last() == parts@[last as int]@);
            }
            string_of(&parts[last])
        },
    };
    let url = match &slug {
        Some(s) => {
            let mut u = "https://github.com/".to_string();
            push_str(&mut u, s.as_str());
            Some(u)
        },
        None => None,
    };
    PreparedRepo { git_dir, slug, url, display_name, branch, is_remote: true }
}

/// A local checkout in `git_dir` on `branch`, whose `origin` remote is
/// `origin` (if it has one) and whose directory is called `dir_name` (if it
/// has a name).
pub fn local_repo(git_dir: String, origin: Option<&str>, dir_name: Option<String>, branch: String) -> (r: PreparedRepo)
    ensures
        r.git_dir@ == git_dir@,
        opt_chars(r.slug) == (match origin {
            Some(o) => github_slug(o@),
            None => None,
        }),
        opt_chars(r.url) == (match opt_chars(r.slug) {
            Some(s) => Some(github_page(s)),
            None => None,
        }),
        r.display_name@ == (match opt_chars(r.slug) {
            Some(s) => s,
            None => match dir_name {
                Some(d) => d@,
                None => "repository"@,
            },
        }),
        r.branch@ == branch@,
        !r.is_remote,
{
    let slug = match origin {
        Some(o) => parse_github_url(o),
        None => None,
    };
    let display_name = match &slug {
        Some(s) => s.clone(),
        None => match dir_name {
            Some(d) => d,
            None => "repository".to_string(),
        },
    };
    let url = match &slug {
        Some(s) => {
            let mut u = "https://github.com/".to_string();
            push_str(&mut u, s.as_str());
            Some(u)
        },
        None => None,
    };
    PreparedRepo { git_dir, slug, url, display_name, branch, is_remote: false }
}

/// The directory name under which a remote is cloned: its slug, or else its
/// URL, made safe as a path component.
pub fn clone_key(clone_url: &str, slug: &Option<String>) -> (r: String)
    ensures
        r@ == sanitized(match slug {
            Some(s) => s@,
            None => clone_url@,
        }),
{
    match slug {
        Some(s) => sanitize(s.as_str()),
        None => sanitize(clone_url),
    }
}

/// The branch to read: the requested one, else the checkout's current
/// branch (`head`, when it is on one), else `HEAD`.
pub fn resolve_branch(requested: Option<&str>, head: Option<String>) -> (r: String)
    ensures
        r@ == (match requested {
            Some(b) => b@,
            None => match head {
                Some(h) => h@,
                None => "HEAD"@,
            },
        }),
{
    match requested {
        Some(b) => b.to_string(),
        None => match head {
            Some(h) => h,
            None => "HEAD".to_string(),
        },
    }
}

/// The first whitespace-separated word of `s`, if any.
pub open spec fn first_word(s: Seq<char>) -> Option<Seq<char>> {
    let rest = s.skip(lead_ws(s) as int);
    if rest.len() == 0 {
        None
    } else {
        Some(rest.take(word_len(rest) as int))
    }
}

/// The number of leading non-whitespace characters.
pub open spec fn word_len(s: Seq<char>) -> nat
    decreases s.len(),
{
    if s.len() > 0 && !unicode_whitespace(s[0]) {
        1 + word_len(s.drop_first())
    } else {
        0
    }
}

proof fn lemma_word_len(s: Seq<char>, i: int)
    requires
        0 <= i <= s.len(),
        forall|j: int| 0 <= j < i ==> !unicode_whitespace(#[trigger] s[j]),
        i == s.len() || unicode_whitespace(s[i]),
    ensures
        word_len(s) == i,
    decreases i,
{
    if i > 0 {
        assert forall|j: int| 0 <= j < i - 1 implies !unicode_whitespace(#[trigger] s.drop_first()[j]) by {
            assert(s.drop_first()[j] == s[j + 1]);
        }
        if i < s.len() {
            assert(s.drop_first()[i - 1] == s[i]);
        }
        lemma_word_len(s.drop_first(), i - 1);
    }
}

proof fn lemma_lead_ws(s: Seq<char>, i: int)
    requires
        0 <= i <= s.len(),
        forall|j: int| 0 <= j < i ==> unicode_whitespace(#[trigger] s[j]),
        i == s.len() || !unicode_whitespace(s[i]),
    ensures
        lead_ws(s) == i,
    decreases i,
{
    if i > 0 {
        assert forall|j: int| 0 <= j < i - 1 implies unicode_whitespace(#[trigger] s.drop_first()[j]) by {
            assert(s.drop_first()[j] == s[j + 1]);
        }
        if i < s.len() {
            assert(s.drop_first()[i - 1] == s[i]);
        }
        lemma_lead_ws(s.drop_first(), i - 1);
    }
}

/// The tip a remote reports: the first word of what `git ls-remote origin
/// <branch>` printed (`ls_remote`, when it ran). A local checkout has none.
pub fn remote_tip(repo: &PreparedRepo, ls_remote: Option<&str>) -> (r: Option<String>)
    ensures
        opt_chars(r) == (if !repo.is_remote {
            None
        } else {
            match ls_remote {
                Some(out) => first_word(out@),
                None => None,
            }
        }),
{
    if !repo.is_remote {
        return None;
    }
    let out = match ls_remote {
        Some(o) => chars_of(o),
        None => {
            return None;
        },
    };
    let mut a: usize = 0;
    while a < out.len() && is_whitespace(out[a])
        invariant
            a <= out@.len(),
            forall|j: int| 0 <= j < a ==> unicode_whitespace(#[trigger] out@[j]),
        decreases out@.len() - a,
    {
        a += 1;
    }
    proof {
        lemma_lead_ws(out@, a as int);
    }
    if a == out.len() {
        return None;
    }
    let mut b: usize = a;
    while b < out.len() && !is_whitespace(out[b])
        invariant
            a <= b <= out@.len(),
            forall|j: int| a <= j < b ==> !unicode_whitespace(#[trigger] out@[j]),
        decreases out@.len() - b,
    {
        b += 1;
    }
    proof {
        let rest = out@.skip(a as int);
        assert forall|j: int| 0 <= j < b - a implies !unicode_whitespace(#[trigger] rest[j]) by {
            assert(rest[j] == out@[a + j]);
        }
        if b < out@.len() {
            assert(rest[b - a] == out@[b as int]);
        }
        lemma_word_len(rest, b - a);
        assert(rest.take(b - a) =~= out@.subrange(a as int, b as int));
    }
    Some(string_of(&slice_range(&out, a, b)))
}
} // verus!
