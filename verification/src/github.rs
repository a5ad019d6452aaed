//! GitHub enrichment, apart from the network: recognising noreply
//! addresses, cleaning profile fields, choosing what to look up, applying
//! what came back, and turning downloaded avatars into data URIs.
pub mod avatars;
pub mod enrich;
pub mod listing;

use vstd::prelude::*;
use base64::Engine;
use crate::model::opt_view;
use crate::text::{
    chars_of, cut_at, cut_at_exec, ends_with, ends_with_exec, parse_u64, parse_u64_spec, push_char, push_str,
    slice_range, splitn_exec, splitn_on, starts_with, starts_with_exec, string_of, trim, trim_chars,
    trim_start_char, trim_start_char_exec, u64_to_string, decimal,
};

verus! {

// ---------------------------------------------------------------------------
// Noreply addresses
// ---------------------------------------------------------------------------
/// The domain of GitHub's noreply addresses.
pub open spec fn noreply_suffix() -> Seq<char> {
    "@users.noreply.github.com"@
}

/// The `(user id, login)` of a GitHub noreply address:
/// `12345+login@users.noreply.github.com` (the id when it parses) or the
/// older `login@users.noreply.github.com`.
pub open spec fn noreply_of(email: Seq<char>) -> Option<(Option<u64>, Seq<char>)> {
    if !ends_with(email, noreply_suffix()) {
        None
    } else {
        let local = email.take(email.len() - noreply_suffix().len());
        let parts = splitn_on(local, '+', 2);
        if parts.len() == 2 {
            Some((parse_u64_spec(parts[0]), parts[1]))
        } else {
            Some((None, local))
        }
    }
}

/// Parse GitHub noreply addresses: `12345+login@users.noreply.github.com`
/// or the older `login@users.noreply.github.com`.
pub fn parse_noreply(email: &str) -> (r: Option<(Option<u64>, String)>)
    ensures
        match r {
            Some((id, login)) => noreply_of(email@) == Some((id, login@)),
            None => noreply_of(email@) is None,
        },
{
    let e = chars_of(email);
    let suffix = chars_of("@users.noreply.github.com");
    if !ends_with_exec(&e, &suffix) {
        return None;
    }
    let local = slice_range(&e, 0, e.len() - suffix.len());
    assert(local@ =~= e@.take(e@.len() - suffix@.len()));
    let parts = splitn_exec(&local, '+', 2);
    let ghost pv = parts@.map_values(|p: Vec<char>| p@);
    if parts.len() == 2 {
        proof {
            assert(pv[0] == parts@[0]@);
            assert(pv[1] == parts@[1]@);
        }
        let id = parse_u64(&parts[0]);
        Some((id, string_of(&parts[1])))
    } else {
        Some((None, string_of(&local)))
    }
}

/// The avatar GitHub serves for a noreply identity: by user id when known,
/// else by login.
pub open spec fn noreply_avatar(id: Option<u64>, login: Seq<char>) -> Seq<char> {
    match id {
        Some(n) => "https://avatars.githubusercontent.com/u/"@ + decimal(n as nat) + "?v=4"@,
        None => "https://avatars.githubusercontent.com/"@ + login,
    }
}

/// The avatar URL of a noreply identity.
pub(crate) fn noreply_avatar_exec(id: Option<u64>, login: &str) -> (r: String)
    ensures
        r@ == noreply_avatar(id, login@),
{
    match id {
        Some(n) => {
            let mut s = "https://avatars.githubusercontent.com/u/".to_string();
            push_str(&mut s, u64_to_string(n).as_str());
            push_str(&mut s, "?v=4");
            s
        },
        None => {
            let mut s = "https://avatars.githubusercontent.com/".to_string();
            push_str(&mut s, login);
            s
        },
    }
}

// ---------------------------------------------------------------------------
// Profile fields
// ---------------------------------------------------------------------------
/// `trim_end_matches` of the punctuation `.`, `,`, `;`, `|` and `/`.
pub open spec fn trim_end_punct(s: Seq<char>) -> Seq<char>
    decreases s.len(),
{
    if s.len() > 0 && (s.last() == '.' || s.last() == ',' || s.last() == ';' || s.last() == '|' || s.last() == '/') {
        trim_end_punct(s.drop_last())
    } else {
        s
    }
}

/// The company field cleaned into a group name: the first of several
/// affiliations (separated by ` | `, ` / `, `;`, ` · ` or `,`), without a
/// leading `@` or a trailing ` @org` handle or punctuation; nothing when
/// that leaves it empty or longer than 60 characters.
pub open spec fn company_of(raw: Seq<char>) -> Option<Seq<char>> {
    let s1 = cut_at(cut_at(cut_at(cut_at(cut_at(trim(raw), " | "@), " / "@), ";"@), " · "@), ","@);
    let s2 = trim(trim_start_char(trim(s1), '@'));
    let s3 = cut_at(s2, " @"@);
    let s4 = trim(trim_end_punct(trim(s3)));
    if s4.len() == 0 || s4.len() > 60 {
        None
    } else {
        Some(s4)
    }
}

/// `trim_end_matches` of the punctuation `.`, `,`, `;`, `|` and `/`.
fn trim_end_punct_exec(s: &Vec<char>) -> (r: Vec<char>)
    ensures
        r@ == trim_end_punct(s@),
{
    let mut n: usize = s.len();
    assert(s@.take(n as int) =~= s@);
    while n > 0 && (s[n - 1] == '.' || s[n - 1] == ',' || s[n - 1] == ';' || s[n - 1] == '|' || s[n - 1] == '/')
        invariant
            n <= s@.len(),
            trim_end_punct(s@) == trim_end_punct(s@.take(n as int)),
        decreases n,
    {
        assert(s@.take(n as int).drop_last() =~= s@.take(n - 1));
        n -= 1;
    }
    slice_range(s, 0, n)
}

/// Clean up the free-text GitHub `company` field into a usable group name.
/// Handles common patterns like "@seqeralabs", "QBiC @qbicsoftware", and
/// multi-affiliation strings ("Seqera | SciLifeLab" → "Seqera").
pub fn normalize_company(raw: &str) -> (r: Option<String>)
    ensures
        opt_view(r) == company_of(raw@),
{
    proof {
        reveal_strlit(" | ");
        reveal_strlit(" / ");
        reveal_strlit(";");
        reveal_strlit(" · ");
        reveal_strlit(",");
        reveal_strlit(" @");
    }
    let mut s = trim_chars(&chars_of(raw));
    s = cut_at_exec(&s, &chars_of(" | "));
    s = cut_at_exec(&s, &chars_of(" / "));
    s = cut_at_exec(&s, &chars_of(";"));
    s = cut_at_exec(&s, &chars_of(" · "));
    s = cut_at_exec(&s, &chars_of(","));
    s = trim_chars(&trim_start_char_exec(&trim_chars(&s), '@'));
    s = cut_at_exec(&s, &chars_of(" @"));
    s = trim_chars(&trim_end_punct_exec(&trim_chars(&s)));
    if s.len() == 0 || s.len() > 60 {
        None
    } else {
        Some(string_of(&s))
    }
}

/// A profile's display name: trimmed, if anything is left.
pub open spec fn profile_name_of(name: Option<Seq<char>>) -> Option<Seq<char>> {
    match name {
        Some(n) => if trim(n).len() > 0 {
            Some(trim(n))
        } else {
            None
        },
        None => None,
    }
}

/// The `(display name, affiliation)` of a user profile with the given
/// `name` and `company` fields.
pub fn profile_from(name: Option<&str>, company: Option<&str>) -> (r: (Option<String>, Option<String>))
    ensures
        opt_view(r.0) == profile_name_of(match name {
            Some(n) => Some(n@),
            None => None,
        }),
        opt_view(r.1) == (match company {
            Some(c) => company_of(c@),
            None => None,
        }),
{
    let n = match name {
        Some(n) => {
            let t = trim_chars(&chars_of(n));
            if t.len() > 0 {
                Some(string_of(&t))
            } else {
                None
            }
        },
        None => None,
    };
    let c = match company {
        Some(c) => normalize_company(c),
        None => None,
    };
    (n, c)
}

/// A repository description: trimmed, if anything is left.
pub fn clean_description(d: Option<&str>) -> (r: Option<String>)
    ensures
        opt_view(r) == profile_name_of(match d {
            Some(x) => Some(x@),
            None => None,
        }),
{
    match d {
        Some(x) => {
            let t = trim_chars(&chars_of(x));
            if t.len() > 0 {
                Some(string_of(&t))
            } else {
                None
            }
        },
        None => None,
    }
}

/// The GitHub account of a commit author: its login, and its avatar URL or
/// the one GitHub serves by login.
pub fn author_from(login: &str, avatar_url: Option<&str>) -> (r: (String, String))
    ensures
        r.0@ == login@,
        r.1@ == (match avatar_url {
            Some(a) => a@,
            None => "https://avatars.githubusercontent.com/"@ + login@,
        }),
{
    let avatar = match avatar_url {
        Some(a) => a.to_string(),
        None => {
            let mut s = "https://avatars.githubusercontent.com/".to_string();
            push_str(&mut s, login);
            s
        },
    };
    (login.to_string(), avatar)
}

// ---------------------------------------------------------------------------
// Avatars as data URIs
// ---------------------------------------------------------------------------
/// The character of a base64 digit (the standard alphabet).
pub open spec fn b64_digit(v: nat) -> char {
    if v < 26 {
        ('A' as nat + v) as char
    } else if v < 52 {
        ('a' as nat + (v - 26)) as char
    } else if v < 62 {
        ('0' as nat + (v - 52)) as char
    } else if v == 62 {
        '+'
    } else {
        '/'
    }
}

/// Standard base64 with padding (RFC 4648): each three bytes become four
/// digits of six bits; a final one or two bytes are padded with `=`.
pub open spec fn base64_of(b: Seq<u8>) -> Seq<char>
    decreases b.len(),
{
    if b.len() == 0 {
        Seq::empty()
    } else if b.len() == 1 {
        seq![b64_digit(b[0] as nat / 4), b64_digit((b[0] as nat % 4) * 16), '=', '=']
    } else if b.len() == 2 {
        seq![
            b64_digit(b[0] as nat / 4),
            b64_digit((b[0] as nat % 4) * 16 + b[1] as nat / 16),
            b64_digit((b[1] as nat % 16) * 4),
            '=',
        ]
    } else {
        seq![
            b64_digit(b[0] as nat / 4),
            b64_digit((b[0] as nat % 4) * 16 + b[1] as nat / 16),
            b64_digit((b[1] as nat % 16) * 4 + b[2] as nat / 64),
            b64_digit(b[2] as nat % 64),
        ] + base64_of(b.skip(3))
    }
}

/// `base64::engine::general_purpose::STANDARD.encode`: the standard base64
/// alphabet with padding, as the crate documents it.
#[verifier::external_body]
fn base64_standard(bytes: &[u8]) -> (r: String)
    ensures
        r@ == base64_of(bytes@),
{
    base64::engine::general_purpose::STANDARD.encode(bytes)
}

/// The content type to embed: the served one when it is an image, else
/// `image/png`.
pub open spec fn image_type(ct: Seq<char>) -> Seq<char> {
    if starts_with(ct, "image/"@) {
        ct
    } else {
        "image/png"@
    }
}

/// A data URI holding an image.
pub open spec fn data_uri_of(bytes: Seq<u8>, ct: Seq<char>) -> Seq<char> {
    "data:"@ + image_type(ct) + ";base64,"@ + base64_of(bytes)
}

/// Embed downloaded image bytes, served with content type `ct`, as a data URI.
pub fn data_uri(bytes: &[u8], ct: &str) -> (r: String)
    ensures
        r@ == data_uri_of(bytes@, ct@),
{
    let c = chars_of(ct);
    let kind = if starts_with_exec(&c, &chars_of("image/")) {
        ct.to_string()
    } else {
        "image/png".to_string()
    };
    let mut s = "data:".to_string();
    push_str(&mut s, kind.as_str());
    push_str(&mut s, ";base64,");
    push_str(&mut s, base64_standard(bytes).as_str());
    s
}

/// The cache key of an owner's avatar at a size.
pub fn owner_avatar_key(login: &str, size: u32) -> (r: String)
    ensures
        r@ == "owner:"@ + login@ + seq![':'] + decimal(size as nat),
{
    let mut s = "owner:".to_string();
    push_str(&mut s, login);
    push_char(&mut s, ':');
    push_str(&mut s, u64_to_string(size as u64).as_str());
    s
}

/// Where to download an owner's avatar at a size.
pub fn owner_avatar_url(login: &str, size: u32) -> (r: String)
    ensures
        r@ == "https://avatars.githubusercontent.com/"@ + login@ + "?s="@ + decimal(size as nat),
{
    let mut s = "https://avatars.githubusercontent.com/".to_string();
    push_str(&mut s, login);
    push_str(&mut s, "?s=");
    push_str(&mut s, u64_to_string(size as u64).as_str());
    s
}

/// The cache key of an avatar URL at a size.
pub fn avatar_key(url: &str, size: u32) -> (r: String)
    ensures
        r@ == url@ + seq!['|'] + decimal(size as nat),
{
    let mut s = url.to_string();
    push_char(&mut s, '|');
    push_str(&mut s, u64_to_string(size as u64).as_str());
    s
}

/// An avatar URL asking for a size: `s=` added as a further query
/// parameter, or as the first.
pub fn sized_avatar_url(url: &str, size: u32) -> (r: String)
    ensures
        r@ == url@ + (if url@.contains('?') {
            "&s="@
        } else {
            "?s="@
        }) + decimal(size as nat),
{
    let mut s = url.to_string();
    if crate::text::contains_char(&chars_of(url), '?') {
        push_str(&mut s, "&s=");
    } else {
        push_str(&mut s, "?s=");
    }
    push_str(&mut s, u64_to_string(size as u64).as_str());
    s
}

} // verus!
