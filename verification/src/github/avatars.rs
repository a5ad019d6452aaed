//! Embedding avatars as data URIs: which URLs to download, what the cache
//! already holds, and replacing each remote URL by its image.
use vstd::prelude::*;
use crate::cache::{avatar_answer, same_except, AvatarRec, CacheFile, Caches};
use crate::github::{avatar_key, data_uri, data_uri_of, owner_avatar_key};
use crate::identity::{contains_str, views};
use crate::model::{opt_view, Contributor};
use crate::text::{chars_of, decimal, starts_with, starts_with_exec, str_eq};

verus! {

/// The cache key of an avatar URL at a size.
pub open spec fn avatar_key_of(url: Seq<char>, size: u32) -> Seq<char> {
    url + seq!['|'] + decimal(size as nat)
}

/// The cache key of an owner's avatar at a size.
pub open spec fn owner_key_of(login: Seq<char>, size: u32) -> Seq<char> {
    "owner:"@ + login + seq![':'] + decimal(size as nat)
}

/// The avatar URLs of the contributors that are not embedded yet (not
/// `data:` URIs), once each, in order of first appearance.
pub open spec fn remote_avatars(cs: Seq<Contributor>) -> Seq<Seq<char>>
    decreases cs.len(),
{
    if cs.len() == 0 {
        Seq::empty()
    } else {
        let prev = remote_avatars(cs.drop_last());
        match cs.last().avatar {
            Some(u) => if !starts_with(u@, "data:"@) && !prev.contains(u@) {
                prev.push(u@)
            } else {
                prev
            },
            None => prev,
        }
    }
}

/// The avatar URLs to embed: every remote one, once, in order.
pub fn avatar_urls(contributors: &[Contributor]) -> (r: Vec<String>)
    ensures
        views(r@) == remote_avatars(contributors@),
{
    let mut urls: Vec<String> = Vec::new();
    let mut i: usize = 0;
    while i < contributors.len()
        invariant
            i <= contributors@.len(),
            views(urls@) == remote_avatars(contributors@.take(i as int)),
        decreases contributors@.len() - i,
    {
        assert(contributors@.take(i + 1).drop_last() =~= contributors@.take(i as int));
        assert(contributors@.take(i + 1).last() == contributors@[i as int]);
        match &contributors[i].avatar {
            Some(u) => {
                if !starts_with_exec(&chars_of(u.as_str()), &chars_of("data:")) && !contains_str(&urls, u.as_str()) {
                    let ghost u0 = urls@;
                    urls.push(u.clone());
                    assert(views(urls@) =~= views(u0).push(u@));
                }
            },
            None => {},
        }
        i += 1;
    }
    assert(contributors@.take(i as int) =~= contributors@);
    urls
}

/// The view of a list of `(URL, data URI)` pairs.
pub open spec fn embedded_views(v: Seq<(String, String)>) -> Seq<(Seq<char>, Seq<char>)> {
    v.map_values(|t: (String, String)| (t.0@, t.1@))
}

/// The URLs whose avatar at `size` is cached and fresh, with its data URI.
pub open spec fn cached_avatars_of(c: Caches, urls: Seq<Seq<char>>, size: u32) -> Seq<(Seq<char>, Seq<char>)>
    decreases urls.len(),
{
    if urls.len() == 0 {
        Seq::empty()
    } else {
        let prev = cached_avatars_of(c, urls.drop_last(), size);
        match avatar_answer(c, avatar_key_of(urls.last(), size)) {
            Some(d) => prev.push((urls.last(), d)),
            None => prev,
        }
    }
}

/// The URLs whose avatar at `size` is to be downloaded, in order.
pub open spec fn uncached_avatars(c: Caches, urls: Seq<Seq<char>>, size: u32) -> Seq<Seq<char>>
    decreases urls.len(),
{
    if urls.len() == 0 {
        Seq::empty()
    } else {
        let prev = uncached_avatars(c, urls.drop_last(), size);
        if avatar_answer(c, avatar_key_of(urls.last(), size)) is Some {
            prev
        } else {
            prev.push(urls.last())
        }
    }
}

/// Split avatar URLs into those cached at `size`, with their data URI, and
/// those to download.
pub fn cached_avatars(caches: &Caches, urls: &[String], size: u32) -> (r: (Vec<(String, String)>, Vec<String>))
    ensures
        embedded_views(r.0@) == cached_avatars_of(*caches, views(urls@), size),
        views(r.1@) == uncached_avatars(*caches, views(urls@), size),
{
    let ghost uv = views(urls@);
    let mut hit: Vec<(String, String)> = Vec::new();
    let mut miss: Vec<String> = Vec::new();
    let mut i: usize = 0;
    while i < urls.len()
        invariant
            i <= urls@.len(),
            uv == views(urls@),
            embedded_views(hit@) == cached_avatars_of(*caches, uv.take(i as int), size),
            views(miss@) == uncached_avatars(*caches, uv.take(i as int), size),
        decreases urls@.len() - i,
    {
        assert(uv.take(i + 1).drop_last() =~= uv.take(i as int));
        assert(uv.take(i + 1).last() == urls@[i as int]@);
        let key = avatar_key(urls[i].as_str(), size);
        match caches.avatar(key.as_str()) {
            Some(d) => {
                let ghost h0 = hit@;
                hit.push((urls[i].clone(), d));
                assert(embedded_views(hit@) =~= embedded_views(h0).push((urls@[i as int]@, d@)));
            },
            None => {
                let ghost m0 = miss@;
                miss.push(urls[i].clone());
                assert(views(miss@) =~= views(m0).push(urls@[i as int]@));
            },
        }
        i += 1;
    }
    assert(uv.take(i as int) =~= uv);
    (hit, miss)
}

/// The data URI `v` lists for `url`: its last entry.
pub open spec fn data_in(v: Seq<(String, String)>, url: Seq<char>) -> Option<String>
    decreases v.len(),
{
    if v.len() == 0 {
        None
    } else if v.last().0@ == url {
        Some(v.last().1)
    } else {
        data_in(v.drop_last(), url)
    }
}

/// The data URI of an avatar URL: a downloaded one, else a cached one.
pub open spec fn data_for(cached: Seq<(String, String)>, fetched: Seq<(String, String)>, url: Seq<char>) -> Option<String> {
    match data_in(fetched, url) {
        Some(d) => Some(d),
        None => data_in(cached, url),
    }
}

/// The avatar cache after recording each download at `size`, in order, as
/// fetched at `now`.
pub open spec fn avatars_after(m: Map<Seq<char>, AvatarRec>, fetched: Seq<(String, String)>, size: u32, now: i64) -> Map<
    Seq<char>,
    AvatarRec,
>
    decreases fetched.len(),
{
    if fetched.len() == 0 {
        m
    } else {
        avatars_after(m, fetched.drop_last(), size, now).insert(
            avatar_key_of(fetched.last().0@, size),
            AvatarRec { data: fetched.last().1, ts: now },
        )
    }
}

/// The avatar a contributor shows after embedding: the data URI of its URL
/// when there is one.
pub open spec fn embedded_avatar(
    c: Contributor,
    cached: Seq<(String, String)>,
    fetched: Seq<(String, String)>,
) -> Option<String> {
    match c.avatar {
        Some(u) => match data_for(cached, fetched, u@) {
            Some(d) => Some(d),
            None => c.avatar,
        },
        None => None,
    }
}

fn data_in_exec(v: &[(String, String)], url: &str) -> (r: Option<String>)
    ensures
        r == data_in(v@, url@),
{
    let mut k: usize = v.len();
    assert(v@.take(k as int) =~= v@);
    while k > 0
        invariant
            k <= v@.len(),
            data_in(v@, url@) == data_in(v@.take(k as int), url@),
        decreases k,
    {
        assert(v@.take(k as int).drop_last() =~= v@.take(k - 1));
        if str_eq(v[k - 1].0.as_str(), url) {
            return Some(v[k - 1].1.clone());
        }
        k -= 1;
    }
    None
}

/// Record the downloaded avatars (`(URL, data URI)`, fetched at `size`) in
/// the cache, and replace every contributor's avatar URL that has a data
/// URI, downloaded or cached, by it.
pub fn apply_avatars(
    contributors: &mut [Contributor],
    caches: &mut Caches,
    size: u32,
    cached: &[(String, String)],
    fetched: &[(String, String)],
)
    ensures
        final(contributors)@.len() == old(contributors)@.len(),
        forall|i: int|
            0 <= i < old(contributors)@.len() ==> #[trigger] final(contributors)@[i] == (Contributor {
                avatar: embedded_avatar(old(contributors)@[i], cached@, fetched@),
                ..old(contributors)@[i]
            }),
        final(caches).avatar_map() == avatars_after(old(caches).avatar_map(), fetched@, size, old(caches).now_of()),
        fetched@.len() > 0 ==> same_except(*old(caches), *final(caches), CacheFile::Avatars),
        fetched@.len() == 0 ==> *final(caches) == *old(caches),
{
    let ghost c0 = *caches;
    let mut k: usize = 0;
    while k < fetched.len()
        invariant
            k <= fetched@.len(),
            c0 == *old(caches),
            caches.avatar_map() == avatars_after(c0.avatar_map(), fetched@.take(k as int), size, c0.now_of()),
            k > 0 ==> same_except(c0, *caches, CacheFile::Avatars),
            k == 0 ==> *caches == c0,
        decreases fetched@.len() - k,
    {
        assert(fetched@.take(k + 1).drop_last() =~= fetched@.take(k as int));
        assert(fetched@.take(k + 1).last() == fetched@[k as int]);
        caches.put_avatar(avatar_key(fetched[k].0.as_str(), size), fetched[k].1.clone());
        k += 1;
    }
    assert(fetched@.take(k as int) =~= fetched@);
    let ghost cs0 = contributors@;
    let mut i: usize = 0;
    while i < contributors.len()
        invariant
            i <= contributors@.len(),
            cs0 == old(contributors)@,
            contributors@.len() == cs0.len(),
            forall|j: int| i <= j < cs0.len() ==> contributors@[j] == cs0[j],
            forall|j: int|
                0 <= j < i ==> #[trigger] contributors@[j] == (Contributor {
                    avatar: embedded_avatar(cs0[j], cached@, fetched@),
                    ..cs0[j]
                }),
        decreases cs0.len() - i,
    {
        let found = match &contributors[i].avatar {
            Some(u) => match data_in_exec(fetched, u.as_str()) {
                Some(d) => Some(d),
                None => data_in_exec(cached, u.as_str()),
            },
            None => None,
        };
        match found {
            Some(d) => {
                contributors[i].avatar = Some(d);
            },
            None => {},
        }
        i += 1;
    }
}

/// `fetched` holds, in order, each download `(URL, bytes, content type)`
/// as its URL with the data URI of its bytes.
pub open spec fn uris_of(downloads: Seq<(String, Vec<u8>, String)>, fetched: Seq<(String, String)>) -> bool {
    &&& fetched.len() == downloads.len()
    &&& forall|k: int|
        0 <= k < fetched.len() ==> (#[trigger] fetched[k]).0 == downloads[k].0 && fetched[k].1@ == data_uri_of(
            downloads[k].1@,
            downloads[k].2@,
        )
}

/// Turn each downloaded avatar `(URL, bytes, content type)` into its URL
/// and data URI, in order.
pub fn download_uris(downloads: &[(String, Vec<u8>, String)]) -> (r: Vec<(String, String)>)
    ensures
        uris_of(downloads@, r@),
{
    let mut out: Vec<(String, String)> = Vec::new();
    let mut k: usize = 0;
    while k < downloads.len()
        invariant
            k <= downloads@.len(),
            out@.len() == k,
            forall|j: int|
                0 <= j < k ==> (#[trigger] out@[j]).0 == downloads@[j].0 && out@[j].1@ == data_uri_of(
                    downloads@[j].1@,
                    downloads@[j].2@,
                ),
        decreases downloads@.len() - k,
    {
        let d = data_uri(downloads[k].1.as_slice(), downloads[k].2.as_str());
        out.push((downloads[k].0.clone(), d));
        k += 1;
    }
    out
}

/// No URL that `remote_avatars` lists is a `data:` URI.
pub proof fn lemma_remote_not_data(cs: Seq<Contributor>)
    ensures
        forall|k: int| 0 <= k < remote_avatars(cs).len() ==> !starts_with(#[trigger] remote_avatars(cs)[k], "data:"@),
    decreases cs.len(),
{
    if cs.len() > 0 {
        let p = cs.drop_last();
        lemma_remote_not_data(p);
        let prev = remote_avatars(p);
        assert forall|k: int| 0 <= k < remote_avatars(cs).len() implies !starts_with(
            #[trigger] remote_avatars(cs)[k],
            "data:"@,
        ) by {
            if k < prev.len() {
                assert(remote_avatars(cs)[k] == prev[k]);
            }
        }
    }
}

/// The URLs found in the cache are among those asked about.
pub proof fn lemma_cached_from(c: Caches, urls: Seq<Seq<char>>, size: u32)
    ensures
        forall|k: int| 0 <= k < cached_avatars_of(c, urls, size).len() ==> urls.contains(#[trigger] cached_avatars_of(c, urls, size)[k].0),
        forall|k: int| 0 <= k < uncached_avatars(c, urls, size).len() ==> urls.contains(#[trigger] uncached_avatars(c, urls, size)[k]),
    decreases urls.len(),
{
    if urls.len() > 0 {
        let p = urls.drop_last();
        lemma_cached_from(c, p, size);
        assert forall|k: int| 0 <= k < cached_avatars_of(c, urls, size).len() implies urls.contains(
            #[trigger] cached_avatars_of(c, urls, size)[k].0,
        ) by {
            if k < cached_avatars_of(c, p, size).len() {
                let u = cached_avatars_of(c, p, size)[k].0;
                let j = choose|j: int| 0 <= j < p.len() && p[j] == u;
                assert(urls[j] == u);
            } else {
                assert(urls[urls.len() - 1] == urls.last());
            }
        }
        assert forall|k: int| 0 <= k < uncached_avatars(c, urls, size).len() implies urls.contains(
            #[trigger] uncached_avatars(c, urls, size)[k],
        ) by {
            if k < uncached_avatars(c, p, size).len() {
                let u = uncached_avatars(c, p, size)[k];
                let j = choose|j: int| 0 <= j < p.len() && p[j] == u;
                assert(urls[j] == u);
            } else {
                assert(urls[urls.len() - 1] == urls.last());
            }
        }
    }
}

/// A data URI that `v` lists for `url` comes from an entry for `url`.
pub proof fn lemma_data_in_from(v: Seq<(String, String)>, url: Seq<char>)
    ensures
        data_in(v, url) is Some ==> exists|k: int| 0 <= k < v.len() && (#[trigger] v[k]).0@ == url,
    decreases v.len(),
{
    if v.len() > 0 && v.last().0@ != url {
        lemma_data_in_from(v.drop_last(), url);
        if data_in(v, url) is Some {
            let k = choose|k: int| 0 <= k < v.drop_last().len() && (#[trigger] v.drop_last()[k]).0@ == url;
            assert(v[k] == v.drop_last()[k]);
        }
    } else if v.len() > 0 {
        assert(v[v.len() - 1] == v.last());
    }
}

/// The cached data URI of an owner's avatar at `size`, if fresh.
pub fn cached_owner_avatar(caches: &Caches, login: &str, size: u32) -> (r: Option<String>)
    ensures
        opt_view(r) == avatar_answer(*caches, owner_key_of(login@, size)),
{
    let key = owner_avatar_key(login, size);
    caches.avatar(key.as_str())
}

/// Turn a downloaded owner avatar (`bytes`, served as `content_type`) into
/// a data URI and cache it under the owner's key at `size`.
pub fn store_owner_avatar(caches: &mut Caches, login: &str, size: u32, bytes: &[u8], content_type: &str) -> (r: String)
    ensures
        r@ == data_uri_of(bytes@, content_type@),
        final(caches).avatar_map() == old(caches).avatar_map().insert(
            owner_key_of(login@, size),
            AvatarRec { data: r, ts: old(caches).now_of() },
        ),
        same_except(*old(caches), *final(caches), CacheFile::Avatars),
{
    let data = data_uri(bytes, content_type);
    caches.put_avatar(owner_avatar_key(login, size), data.clone());
    data
}

} // verus!
