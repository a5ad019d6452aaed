//! The interactive HTML page: its options, and filling the page template
//! with the title and the serialised data.
use vstd::prelude::*;
use crate::text::{chars_of, occurs_at, occurs_at_exec, push_char, push_str};
use crate::theme::Theme;

verus! {

/// Options of the interactive page.
pub struct HtmlOptions {
    pub accent: String,
    pub by_affiliation: bool,
    pub unaffiliated_label: String,
    /// Initial "Min commits" filter value in the page.
    pub min_commits: u32,
    /// Initial "Show top" row cap.
    pub max_contributors: usize,
    /// Initial row order: `first` / `last` / `commits` / `duration` / `name`.
    pub sort: String,
    /// Show bot accounts on load.
    pub include_bots: bool,
    /// Custom themes to register in the page (built-ins live in the template).
    pub custom_themes: Vec<Theme>,
    /// Theme ids to offer in the menu, in order.
    pub theme_order: Vec<String>,
    /// Initial theme id; `None` follows the OS light/dark preference. A saved
    /// choice in `localStorage` still wins.
    pub default_theme: Option<String>,
    /// Hide the theme switcher and pin the page to one theme.
    pub lock_theme: bool,
}

impl Default for HtmlOptions {
    fn default() -> (r: Self)
        ensures
            r.accent@ == "#2f6feb"@,
            !r.by_affiliation,
            r.unaffiliated_label@ == "Unaffiliated"@,
            r.min_commits == 1,
            r.max_contributors == 40,
            r.sort@ == "first"@,
            !r.include_bots,
            r.custom_themes@.len() == 0,
            r.theme_order@.map_values(|s: String| s@) == seq!["light"@, "dark"@, "wikipedia"@],
            r.default_theme is None,
            !r.lock_theme,
    {
        let theme_order = vec!["light".to_string(), "dark".to_string(), "wikipedia".to_string()];
        assert(theme_order@.map_values(|s: String| s@) =~= seq!["light"@, "dark"@, "wikipedia"@]);
        HtmlOptions {
            accent: "#2f6feb".to_string(),
            by_affiliation: false,
            unaffiliated_label: "Unaffiliated".to_string(),
            min_commits: 1,
            max_contributors: 40,
            sort: "first".to_string(),
            include_bots: false,
            custom_themes: Vec::new(),
            theme_order,
            default_theme: None,
            lock_theme: false,
        }
    }
}

/// The markup for one character of page text.
pub open spec fn html_esc_char(c: char) -> Seq<char> {
    if c == '&' {
        "&amp;"@
    } else if c == '<' {
        "&lt;"@
    } else if c == '>' {
        "&gt;"@
    } else {
        seq![c]
    }
}

/// `s` with `&`, `<` and `>` replaced by entities.
pub open spec fn html_escaped(s: Seq<char>) -> Seq<char>
    decreases s.len(),
{
    if s.len() == 0 {
        Seq::empty()
    } else {
        html_escaped(s.drop_last()) + html_esc_char(s.last())
    }
}

/// Escape text for HTML element content.
pub fn html_escape(s: &str) -> (r: String)
    ensures
        r@ == html_escaped(s@),
{
    let cs = chars_of(s);
    let mut out = String::new();
    let mut i: usize = 0;
    while i < cs.len()
        invariant
            i <= cs@.len(),
            cs@ == s@,
            out@ == html_escaped(cs@.take(i as int)),
        decreases cs@.len() - i,
    {
        let c = cs[i];
        proof {
            assert(cs@.take(i + 1).drop_last() =~= cs@.take(i as int));
        }
        if c == '&' {
            push_str(&mut out, "&amp;");
        } else if c == '<' {
            push_str(&mut out, "&lt;");
        } else if c == '>' {
            push_str(&mut out, "&gt;");
        } else {
            push_char(&mut out, c);
        }
        i += 1;
    }
    assert(cs@.take(i as int) =~= cs@);
    out
}

/// `s` from index `i` on with every occurrence of `p` (nonempty), found left
/// to right without overlap, replaced by `w` (`str::replace`).
pub open spec fn replace_from(s: Seq<char>, p: Seq<char>, w: Seq<char>, i: int) -> Seq<char>
    decreases s.len() - i,
{
    if i < 0 || i >= s.len() || p.len() == 0 {
        if 0 <= i <= s.len() {
            s.skip(i)
        } else {
            Seq::empty()
        }
    } else if occurs_at(s, p, i) {
        w + replace_from(s, p, w, i + p.len())
    } else {
        seq![s[i]] + replace_from(s, p, w, i + 1)
    }
}

/// `s` with every occurrence of `p` replaced by `w`.
pub open spec fn replace_all(s: Seq<char>, p: Seq<char>, w: Seq<char>) -> Seq<char> {
    replace_from(s, p, w, 0)
}

/// Escaped page text holds no `<` or `>`, so it cannot open markup.
pub proof fn law_html_escaped_is_inert(s: Seq<char>)
    ensures
        forall|k: int| 0 <= k < html_escaped(s).len() ==> #[trigger] html_escaped(s)[k] != '<' && html_escaped(s)[k] != '>',
    decreases s.len(),
{
    reveal_strlit("&amp;");
    reveal_strlit("&lt;");
    reveal_strlit("&gt;");
    if s.len() > 0 {
        law_html_escaped_is_inert(s.drop_last());
        let p = html_escaped(s.drop_last());
        let e = html_esc_char(s.last());
        assert forall|k: int| 0 <= k < html_escaped(s).len() implies #[trigger] html_escaped(s)[k] != '<'
            && html_escaped(s)[k] != '>' by {
            if k < p.len() {
                assert(html_escaped(s)[k] == p[k]);
            } else {
                assert(html_escaped(s)[k] == e[k - p.len()]);
            }
        }
    }
}

/// No `<` in `t` is followed by `/`.
pub open spec fn no_close_tag(t: Seq<char>) -> bool {
    forall|k: int| 0 <= k < t.len() - 1 ==> !(#[trigger] t[k] == '<' && t[k + 1] == '/')
}

proof fn lemma_no_close_from(s: Seq<char>, i: int)
    requires
        0 <= i <= s.len(),
    ensures
        no_close_tag(replace_from(s, "</"@, "<\\/"@, i)),
        replace_from(s, "</"@, "<\\/"@, i).len() > 0 ==> replace_from(s, "</"@, "<\\/"@, i)[0] != '/' || (i < s.len()
            && s[i] == '/'),
    decreases s.len() - i,
{
    reveal_strlit("</");
    reveal_strlit("<\\/");
    let p = "</"@;
    let w = "<\\/"@;
    let r = replace_from(s, p, w, i);
    if i < s.len() {
        lemma_no_close_from(s, i + 1);
        if occurs_at(s, p, i) {
            lemma_no_close_from(s, i + 2);
            let rest = replace_from(s, p, w, i + 2);
            assert(r == w + rest);
            assert forall|k: int| 0 <= k < r.len() - 1 implies !(#[trigger] r[k] == '<' && r[k + 1] == '/') by {
                if k + 1 < 3 {
                    assert(r[k] == w[k] && r[k + 1] == w[k + 1]);
                } else if k >= 3 {
                    assert(r[k] == rest[k - 3] && r[k + 1] == rest[k - 2]);
                } else {
                    assert(r[k] == w[2]);
                }
            }
        } else {
            let rest = replace_from(s, p, w, i + 1);
            assert(r == seq![s[i]] + rest);
            assert forall|k: int| 0 <= k < r.len() - 1 implies !(#[trigger] r[k] == '<' && r[k + 1] == '/') by {
                if k == 0 {
                    assert(r[0] == s[i] && r[1] == rest[0]);
                    if s[i] == '<' && rest[0] == '/' {
                        assert(i + 1 < s.len() && s[i + 1] == '/');
                        assert(s.subrange(i, i + 2) =~= p);
                        assert(occurs_at(s, p, i));
                    }
                } else {
                    assert(r[k] == rest[k - 1] && r[k + 1] == rest[k]);
                }
            }
        }
    } else {
        assert(r.len() == 0);
    }
}

/// The data embedded in the page never holds `</`, so nothing in it can end
/// the script element it sits in.
pub proof fn law_data_cannot_close_script(d: Seq<char>)
    ensures
        no_close_tag(replace_all(d, "</"@, "<\\/"@)),
{
    lemma_no_close_from(d, 0);
}

/// Every occurrence of the nonempty `p` in `s` replaced by `w`.
pub fn replace_str(s: &str, p: &str, w: &str) -> (r: String)
    requires
        p@.len() > 0,
    ensures
        r@ == replace_all(s@, p@, w@),
{
    let cs = chars_of(s);
    let ps = chars_of(p);
    let mut out = String::new();
    let mut i: usize = 0;
    while i < cs.len()
        invariant
            i <= cs@.len(),
            cs@ == s@,
            ps@ == p@,
            p@.len() > 0,
            out@ + replace_from(cs@, ps@, w@, i as int) == replace_all(cs@, ps@, w@),
        decreases cs@.len() - i,
    {
        let ghost o0 = out@;
        if occurs_at_exec(&cs, &ps, i) {
            push_str(&mut out, w);
            proof {
                assert(o0 + (w@ + replace_from(cs@, ps@, w@, i + ps@.len())) =~= out@ + replace_from(cs@, ps@, w@, i + ps@.len()));
            }
            i += ps.len();
        } else {
            push_char(&mut out, cs[i]);
            proof {
                assert(o0 + (seq![cs@[i as int]] + replace_from(cs@, ps@, w@, i + 1)) =~= out@ + replace_from(cs@, ps@, w@, i + 1));
            }
            i += 1;
        }
    }
    proof {
        assert(replace_from(cs@, ps@, w@, i as int) =~= Seq::<char>::empty());
        assert(out@ + Seq::<char>::empty() =~= out@);
    }
    out
}

/// The page title for a repository.
pub open spec fn page_title(repo_name: Seq<char>) -> Seq<char> {
    repo_name + " · contributors"@
}

/// The page: the template with `__PAGE_TITLE__` replaced by the escaped
/// title, then `__DATA__` by the data, in which `</` is written `<\/` so it
/// cannot close the script element.
pub open spec fn page_of(template: Seq<char>, repo_name: Seq<char>, data_json: Seq<char>) -> Seq<char> {
    replace_all(
        replace_all(template, "__PAGE_TITLE__"@, html_escaped(page_title(repo_name))),
        "__DATA__"@,
        replace_all(data_json, "</"@, "<\\/"@),
    )
}

/// Fill the page template with the title of repository `repo_name` and the
/// serialised page data.
pub fn fill_page(template: &str, repo_name: &str, data_json: &str) -> (r: String)
    ensures
        r@ == page_of(template@, repo_name@, data_json@),
{
    proof {
        reveal_strlit("__PAGE_TITLE__");
        reveal_strlit("__DATA__");
        reveal_strlit("</");
    }
    let json = replace_str(data_json, "</", "<\\/");
    let mut title = repo_name.to_string();
    push_str(&mut title, " · contributors");
    let escaped = html_escape(title.as_str());
    let with_title = replace_str(template, "__PAGE_TITLE__", escaped.as_str());
    replace_str(with_title.as_str(), "__DATA__", json.as_str())
}

} // verus!
