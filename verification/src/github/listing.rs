//! Listing every repository of a GitHub org or user, page by page: which
//! page to ask for next, what to keep from each, and when to stop.
use vstd::prelude::*;
use crate::cache::{same_except, CacheFile, Caches, OrgRec};
use crate::identity::views;
use crate::text::{chars_of, decimal, push_str, seq_eq, split_exec, split_on, str_eq, u64_to_string};

verus! {

/// The kind of account whose repositories are listed.
#[derive(Debug, Clone, Copy, PartialEq, Eq)]
pub enum AccountKind {
    Org,
    User,
}

impl AccountKind {
    /// Whether this is an organisation.
    pub fn is_org(&self) -> (r: bool)
        ensures
            r == (*self == AccountKind::Org),
    {
        match self {
            AccountKind::Org => true,
            AccountKind::User => false,
        }
    }
}

/// The path segment of the API for an account kind.
pub open spec fn kind_name(k: AccountKind) -> Seq<char> {
    match k {
        AccountKind::Org => "orgs"@,
        AccountKind::User => "users"@,
    }
}

/// The URL of page `page` (of a hundred repositories) of an owner's list.
pub open spec fn page_url(k: AccountKind, owner: Seq<char>, page: nat) -> Seq<char> {
    "https://api.github.com/"@ + kind_name(k) + "/"@ + owner + "/repos?per_page=100&page="@ + decimal(page)
}

/// The reply to a page request.
pub enum PageReply {
    /// The request failed.
    Unavailable,
    /// The answer was not a list.
    NotAList,
    /// The repositories on the page: whether each is a fork, and its
    /// `owner/repo` name when it has one.
    Repos(Vec<(bool, Option<String>)>),
}

/// The names of the repositories on a page that are not forks, in order.
pub open spec fn page_slugs(items: Seq<(bool, Option<String>)>) -> Seq<Seq<char>>
    decreases items.len(),
{
    if items.len() == 0 {
        Seq::empty()
    } else {
        let p = page_slugs(items.drop_last());
        match items.last().1 {
            Some(n) => if !items.last().0 {
                p.push(n@)
            } else {
                p
            },
            None => p,
        }
    }
}

/// The state of a listing: whose repositories, of which kind of account,
/// the page asked for, whether any page was answered, and the names so far.
pub struct ListingView {
    pub owner: Seq<char>,
    pub kind: AccountKind,
    pub page: nat,
    pub reached: bool,
    pub slugs: Seq<Seq<char>>,
}

/// A listing of an owner's repositories, waiting for a page.
pub struct RepoListing {
    owner: String,
    kind: AccountKind,
    page: u64,
    reached: bool,
    slugs: Vec<String>,
}

impl View for RepoListing {
    type V = ListingView;

    closed spec fn view(&self) -> ListingView {
        ListingView {
            owner: self.owner@,
            kind: self.kind,
            page: self.page as nat,
            reached: self.reached,
            slugs: views(self.slugs@),
        }
    }
}

/// What a listing needs next, or its outcome.
pub enum ListingStep {
    /// Fetch this URL and resume with the reply.
    Fetch(RepoListing, String),
    /// The `owner/repo` names of the owner's repositories.
    Finished(Vec<String>),
}

/// When the pages of one kind of account end: the names gathered, if a page
/// was answered and any were found; else the same owner as a user, after
/// trying it as an org; else nothing.
pub open spec fn kind_done(l: ListingView, r: ListingStep) -> bool {
    if l.reached && l.slugs.len() > 0 {
        match r {
            ListingStep::Finished(v) => views(v@) == l.slugs,
            _ => false,
        }
    } else if l.kind == AccountKind::Org {
        match r {
            ListingStep::Fetch(next, url) => next@ == (ListingView {
                owner: l.owner,
                kind: AccountKind::User,
                page: 1,
                reached: false,
                slugs: Seq::empty(),
            }) && url@ == page_url(AccountKind::User, l.owner, 1),
            _ => false,
        }
    } else {
        match r {
            ListingStep::Finished(v) => v@.len() == 0,
            _ => false,
        }
    }
}

fn page_url_exec(k: AccountKind, owner: &str, page: u64) -> (r: String)
    ensures
        r@ == page_url(k, owner@, page as nat),
{
    let mut s = "https://api.github.com/".to_string();
    match k {
        AccountKind::Org => push_str(&mut s, "orgs"),
        AccountKind::User => push_str(&mut s, "users"),
    }
    push_str(&mut s, "/");
    push_str(&mut s, owner);
    push_str(&mut s, "/repos?per_page=100&page=");
    push_str(&mut s, u64_to_string(page).as_str());
    s
}

/// List every repository under a GitHub org or user, as `owner/repo`
/// names: forks are skipped, archived repositories kept. The owner is
/// tried as an org first and as a user after, so either kind of account
/// works; the list is empty if the owner cannot be listed. Starts with the
/// first page of the org listing.
pub fn list_owner_repos(owner: &str) -> (r: ListingStep)
    ensures
        match r {
            ListingStep::Fetch(l, url) => l@ == (ListingView {
                owner: owner@,
                kind: AccountKind::Org,
                page: 1,
                reached: false,
                slugs: Seq::empty(),
            }) && url@ == page_url(AccountKind::Org, owner@, 1),
            _ => false,
        },
{
    let l = RepoListing { owner: owner.to_string(), kind: AccountKind::Org, page: 1, reached: false, slugs: Vec::new() };
    assert(views(l.slugs@) =~= Seq::<Seq<char>>::empty());
    ListingStep::Fetch(l, page_url_exec(AccountKind::Org, owner, 1))
}

impl RepoListing {
    /// The page asked for.
    pub fn page(&self) -> (r: u64)
        ensures
            r as nat == self@.page,
    {
        self.page
    }

    /// The end of the pages of this kind of account.
    fn kind_end(self) -> (r: ListingStep)
        ensures
            kind_done(self@, r),
    {
        if self.reached && self.slugs.len() > 0 {
            ListingStep::Finished(self.slugs)
        } else if self.kind.is_org() {
            let url = page_url_exec(AccountKind::User, self.owner.as_str(), 1);
            let next = RepoListing { owner: self.owner, kind: AccountKind::User, page: 1, reached: false, slugs: Vec::new() };
            assert(views(next.slugs@) =~= Seq::<Seq<char>>::empty());
            ListingStep::Fetch(next, url)
        } else {
            ListingStep::Finished(Vec::new())
        }
    }

    /// Resume with the reply to the page asked for. A failed request or an
    /// answer that is no list ends this kind of account; a page keeps the
    /// names of its repositories that are not forks, and a full page (of a
    /// hundred) asks for the next.
    pub fn resume(self, reply: PageReply) -> (r: ListingStep)
        requires
            self@.page < u64::MAX,
        ensures
            match reply {
                PageReply::Unavailable => kind_done(self@, r),
                PageReply::NotAList => kind_done(ListingView { reached: true, ..self@ }, r),
                PageReply::Repos(items) => {
                    let l = ListingView { reached: true, slugs: self@.slugs + page_slugs(items@), ..self@ };
                    if items@.len() < 100 {
                        kind_done(l, r)
                    } else {
                        match r {
                            ListingStep::Fetch(next, url) => next@ == (ListingView { page: l.page + 1, ..l })
                                && url@ == page_url(l.kind, l.owner, l.page + 1),
                            _ => false,
                        }
                    }
                },
            },
    {
        match reply {
            PageReply::Unavailable => self.kind_end(),
            PageReply::NotAList => {
                let l = RepoListing { reached: true, ..self };
                l.kind_end()
            },
            PageReply::Repos(items) => {
                let mut slugs = self.slugs;
                let ghost s0 = views(slugs@);
                let mut k: usize = 0;
                while k < items.len()
                    invariant
                        k <= items@.len(),
                        views(slugs@) == s0 + page_slugs(items@.take(k as int)),
                    decreases items@.len() - k,
                {
                    assert(items@.take(k + 1).drop_last() =~= items@.take(k as int));
                    assert(items@.take(k + 1).last() == items@[k as int]);
                    if !items[k].0 {
                        match &items[k].1 {
                            Some(n) => {
                                let ghost v0 = views(slugs@);
                                slugs.push(n.clone());
                                assert(views(slugs@) =~= v0.push(n@));
                                assert(s0 + page_slugs(items@.take(k + 1)) =~= (s0 + page_slugs(items@.take(k as int))).push(n@));
                            },
                            None => {},
                        }
                    }
                    k += 1;
                }
                assert(items@.take(k as int) =~= items@);
                let l = RepoListing { owner: self.owner, kind: self.kind, page: self.page, reached: true, slugs };
                if items.len() < 100 {
                    l.kind_end()
                } else {
                    let page = l.page + 1;
                    let url = page_url_exec(l.kind, l.owner.as_str(), page);
                    ListingStep::Fetch(RepoListing { page, ..l }, url)
                }
            },
        }
    }
}

/// The name of a repository: the part of its `owner/repo` after the last `/`.
pub open spec fn repo_name(slug: Seq<char>) -> Seq<char> {
    split_on(slug, '/').last()
}

/// Whether the listed repository `slug` is one to skip: some entry of
/// `excludes` names it as `owner/repo` or by its name alone.
pub fn repo_excluded(slug: &str, excludes: &[String]) -> (r: bool)
    ensures
        r == exists|k: int|
            0 <= k < excludes@.len() && ((#[trigger] excludes@[k])@ == slug@ || excludes@[k]@ == repo_name(slug@)),
{
    let parts = split_exec(&chars_of(slug), '/');
    let last = parts.len() - 1;
    let ghost pv = parts@.map_values(|p: Vec<char>| p@);
    assert(pv.last() == parts@[last as int]@);
    let name = &parts[last];
    let mut k: usize = 0;
    while k < excludes.len()
        invariant
            k <= excludes@.len(),
            name@ == repo_name(slug@),
            forall|j: int| 0 <= j < k ==> (#[trigger] excludes@[j])@ != slug@ && excludes@[j]@ != repo_name(slug@),
        decreases excludes@.len() - k,
    {
        if str_eq(excludes[k].as_str(), slug) || seq_eq(&chars_of(excludes[k].as_str()), name) {
            return true;
        }
        k += 1;
    }
    false
}

/// Record an owner's freshly listed repositories in the cache, unless the
/// listing came back empty (a failed or rate-limited listing is not worth
/// keeping), and hand them on.
pub fn record_owner_repos(caches: &mut Caches, owner: &str, repos: Vec<String>) -> (r: Vec<String>)
    ensures
        r@ == repos@,
        repos@.len() > 0 ==> final(caches).org_map() == old(caches).org_map().insert(
            owner@,
            OrgRec { repos, ts: old(caches).now_of() },
        ) && same_except(*old(caches), *final(caches), CacheFile::Orgs),
        repos@.len() == 0 ==> *final(caches) == *old(caches),
{
    let out = repos.clone();
    proof {
        assert forall|k: int| 0 <= k < out@.len() implies out@[k] == repos@[k] by {
            assert(cloned::<String>(repos[k], out[k]));
        }
        assert(out@ =~= repos@);
    }
    if repos.len() > 0 {
        caches.put_org_repos(owner.to_string(), repos);
    }
    out
}

} // verus!
