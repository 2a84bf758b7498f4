use vstd::prelude::*;
use crate::item::{NewsItem, RawEntry, has_content, normalizes_to, opt_text};
use crate::store::{merge_items, merged};

verus! {

/// Why one feed endpoint contributed nothing.
#[derive(Clone, Copy, Debug, PartialEq, Eq, Structural)]
pub enum FetchError {
    /// The endpoint could not be reached or did not answer in time.
    Unreachable,
    /// The endpoint answered with something that is not a feed document.
    Malformed,
}

/// The entries of every feed that was fetched, in endpoint order.
pub open spec fn fetched_entries(s: Seq<Result<Vec<RawEntry>, FetchError>>) -> Seq<RawEntry>
    decreases s.len(),
{
    if s.len() == 0 {
        Seq::empty()
    } else {
        fetched_entries(s.drop_last()) + match s.last() {
            Ok(v) => v@,
            Err(_) => Seq::empty(),
        }
    }
}

/// The positions of the endpoints that failed, in order.
pub open spec fn failed_endpoints(s: Seq<Result<Vec<RawEntry>, FetchError>>) -> Seq<int>
    decreases s.len(),
{
    if s.len() == 0 {
        Seq::empty()
    } else if s.last() is Err {
        failed_endpoints(s.drop_last()).push(s.len() - 1)
    } else {
        failed_endpoints(s.drop_last())
    }
}

/// The entries that carry both a title and a description, in order.
pub open spec fn content_entries(s: Seq<RawEntry>) -> Seq<RawEntry>
    decreases s.len(),
{
    if s.len() == 0 {
        Seq::empty()
    } else if has_content(s.last()) {
        content_entries(s.drop_last()).push(s.last())
    } else {
        content_entries(s.drop_last())
    }
}

/// `items` is what normalizing `entries` under `root` gives: one item for each
/// entry with content, in order; entries without content are dropped.
pub open spec fn normalized_all(entries: Seq<RawEntry>, root: Seq<char>, items: Seq<NewsItem>) -> bool {
    &&& items.len() == content_entries(entries).len()
    &&& forall|i: int|
        0 <= i < items.len() ==> normalizes_to(content_entries(entries)[i], root, #[trigger] items[i])
}

/// An image to cache: where it is fetched from and where it is stored.
pub struct ImageJob {
    pub url: String,
    pub path: String,
}

pub open spec fn job_view(j: ImageJob) -> (Seq<char>, Seq<char>) {
    (j.url@, j.path@)
}

pub open spec fn lists_url(jobs: Seq<(Seq<char>, Seq<char>)>, url: Seq<char>) -> bool {
    exists|k: int| 0 <= k < jobs.len() && #[trigger] jobs[k].0 == url
}

/// One job per distinct image URL of `items`, taken from the first item that
/// names it, in order.
pub open spec fn planned_jobs(items: Seq<NewsItem>) -> Seq<(Seq<char>, Seq<char>)>
    decreases items.len(),
{
    if items.len() == 0 {
        Seq::empty()
    } else {
        let p = planned_jobs(items.drop_last());
        match (items.last().image_url, items.last().image_path) {
            (Some(u), Some(path)) => if lists_url(p, u@) {
                p
            } else {
                p.push((u@, path@))
            },
            _ => p,
        }
    }
}

/// The jobs whose image is not cached yet: job `i` is kept unless
/// `cached[i]` is true.
pub open spec fn uncached_jobs(jobs: Seq<(Seq<char>, Seq<char>)>, cached: Seq<bool>) -> Seq<
    (Seq<char>, Seq<char>),
>
    decreases jobs.len(),
{
    if jobs.len() == 0 {
        Seq::empty()
    } else {
        let i = jobs.len() - 1;
        let p = uncached_jobs(jobs.drop_last(), cached);
        if i < cached.len() && cached[i] {
            p
        } else {
            p.push(jobs.last())
        }
    }
}

/// No two jobs share a URL.
pub open spec fn distinct_urls(jobs: Seq<(Seq<char>, Seq<char>)>) -> bool {
    forall|a: int, b: int| 0 <= a < b < jobs.len() ==> (#[trigger] jobs[a]).0 != (#[trigger] jobs[b]).0
}

/// Items naming the same image share one job: no URL is planned twice.
pub proof fn lemma_planned_distinct(items: Seq<NewsItem>)
    ensures
        distinct_urls(planned_jobs(items)),
    decreases items.len(),
{
    if items.len() > 0 {
        lemma_planned_distinct(items.drop_last());
        let p = planned_jobs(items.drop_last());
        let r = planned_jobs(items);
        if r != p {
            assert forall|a: int, b: int| 0 <= a < b < r.len() implies (#[trigger] r[a]).0 != (
            #[trigger] r[b]).0 by {
                if b == r.len() - 1 {
                    assert(r[a] == p[a]);
                }
            }
        }
    }
}

/// `y` is a job of `jobs` whose cached flag is not set.
pub open spec fn uncached_job_of(
    jobs: Seq<(Seq<char>, Seq<char>)>,
    cached: Seq<bool>,
    y: (Seq<char>, Seq<char>),
) -> bool {
    exists|m: int| 0 <= m < jobs.len() && !(m < cached.len() && cached[m]) && #[trigger] jobs[m] == y
}

proof fn lemma_uncached_from(jobs: Seq<(Seq<char>, Seq<char>)>, cached: Seq<bool>)
    ensures
        forall|x: int|
            0 <= x < uncached_jobs(jobs, cached).len() ==> #[trigger] uncached_job_of(
                jobs,
                cached,
                uncached_jobs(jobs, cached)[x],
            ),
    decreases jobs.len(),
{
    if jobs.len() > 0 {
        let d = jobs.drop_last();
        lemma_uncached_from(d, cached);
        let u = uncached_jobs(jobs, cached);
        let ud = uncached_jobs(d, cached);
        assert forall|x: int| 0 <= x < u.len() implies #[trigger] uncached_job_of(jobs, cached, u[x]) by {
            if x < ud.len() {
                assert(u[x] == ud[x]);
                assert(uncached_job_of(d, cached, ud[x]));
                let m = choose|m: int|
                    0 <= m < d.len() && !(m < cached.len() && cached[m]) && #[trigger] d[m] == ud[x];
                assert(jobs[m] == d[m]);
                assert(0 <= m < jobs.len() && !(m < cached.len() && cached[m]) && jobs[m] == u[x]);
            } else {
                let m = jobs.len() - 1;
                assert(u != ud);
                assert(!(m < cached.len() && cached[m]));
                assert(u[x] == jobs[m]);
            }
        }
    }
}

/// An image whose file is already cached is not downloaded again: when the
/// flag of the job for its URL is set, no job left to run names that URL.
pub proof fn lemma_cached_image_not_fetched(items: Seq<NewsItem>, cached: Seq<bool>, k: int)
    requires
        0 <= k < planned_jobs(items).len(),
        k < cached.len(),
        cached[k],
    ensures
        !lists_url(uncached_jobs(planned_jobs(items), cached), planned_jobs(items)[k].0),
{
    let jobs = planned_jobs(items);
    let u = uncached_jobs(jobs, cached);
    lemma_planned_distinct(items);
    lemma_uncached_from(jobs, cached);
    if lists_url(u, jobs[k].0) {
        let x = choose|x: int| 0 <= x < u.len() && #[trigger] u[x].0 == jobs[k].0;
        assert(uncached_job_of(jobs, cached, u[x]));
        let m = choose|m: int|
            0 <= m < jobs.len() && !(m < cached.len() && cached[m]) && #[trigger] jobs[m] == u[x];
        if m < k {
            assert(jobs[m].0 != jobs[k].0);
        } else {
            assert(jobs[k].0 != jobs[m].0);
        }
    }
}

/// Flattens the per-endpoint outcomes: the entries of every endpoint that
/// succeeded, in endpoint order, and the positions of those that failed. A
/// failed endpoint contributes no entries and stops no other.
pub fn gather_entries(results: Vec<Result<Vec<RawEntry>, FetchError>>) -> (r: (
    Vec<RawEntry>,
    Vec<usize>,
))
    ensures
        r.0@ == fetched_entries(results@),
        r.1@.map_values(|i: usize| i as int) == failed_endpoints(results@),
{
    let ghost orig = results@;
    let total = results.len();
    let mut rest = results;
    let mut entries: Vec<RawEntry> = Vec::new();
    let mut failed: Vec<usize> = Vec::new();
    let mut i: usize = 0;
    while rest.len() > 0
        invariant
            i + rest@.len() == orig.len(),
            orig.len() == total,
            rest@ == orig.subrange(i as int, orig.len() as int),
            entries@ == fetched_entries(orig.subrange(0, i as int)),
            failed@.map_values(|k: usize| k as int) == failed_endpoints(orig.subrange(0, i as int)),
        decreases rest@.len(),
    {
        let x = rest.remove(0);
        assert(x == orig[i as int]);
        assert(orig.subrange(0, i + 1).drop_last() =~= orig.subrange(0, i as int));
        match x {
            Ok(v) => {
                let mut v = v;
                entries.append(&mut v);
            },
            Err(_) => {
                failed.push(i);
                assert(failed@.map_values(|k: usize| k as int) =~= failed_endpoints(
                    orig.subrange(0, i as int),
                ).push(i as int));
            },
        }
        i = i + 1;
        assert(rest@ =~= orig.subrange(i as int, orig.len() as int));
    }
    assert(orig.subrange(0, orig.len() as int) =~= orig);
    (entries, failed)
}

/// A failed endpoint contributes nothing and takes nothing from the others:
/// the entries gathered are those gathered without it.
pub proof fn lemma_failed_endpoint_isolated(s: Seq<Result<Vec<RawEntry>, FetchError>>, i: int)
    requires
        0 <= i < s.len(),
        s[i] is Err,
    ensures
        fetched_entries(s) == fetched_entries(s.remove(i)),
    decreases s.len(),
{
    if i == s.len() - 1 {
        assert(s.remove(i) =~= s.drop_last());
        assert(fetched_entries(s) =~= fetched_entries(s.drop_last()));
    } else {
        lemma_failed_endpoint_isolated(s.drop_last(), i);
        assert(s.remove(i).drop_last() =~= s.drop_last().remove(i));
        assert(s.remove(i).last() == s.last());
    }
}

/// Normalizes each entry under `cache_dir`, dropping those that lack a title
/// or a description.
pub fn normalize_all(entries: Vec<RawEntry>, cache_dir: &str) -> (r: Vec<NewsItem>)
    ensures
        normalized_all(entries@, cache_dir@, r@),
{
    let ghost orig = entries@;
    let mut rest = entries;
    let mut items: Vec<NewsItem> = Vec::new();
    while rest.len() > 0
        invariant
            rest@.len() <= orig.len(),
            rest@ == orig.subrange(orig.len() - rest@.len(), orig.len() as int),
            normalized_all(orig.subrange(0, orig.len() - rest@.len()), cache_dir@, items@),
        decreases rest@.len(),
    {
        let ghost i = orig.len() - rest@.len();
        let x = rest.remove(0);
        assert(x == orig[i]);
        let ghost pre = orig.subrange(0, i);
        assert(orig.subrange(0, i + 1).drop_last() =~= pre);
        match NewsItem::new(x, cache_dir) {
            Ok(it) => {
                items.push(it);
            },
            Err(_) => {},
        }
        assert(rest@ =~= orig.subrange(orig.len() - rest@.len(), orig.len() as int));
    }
    assert(orig.subrange(0, orig.len() as int) =~= orig);
    items
}

fn job_listed(jobs: &Vec<ImageJob>, url: &String) -> (r: bool)
    ensures
        r == lists_url(jobs@.map_values(|j: ImageJob| job_view(j)), url@),
{
    let ghost views = jobs@.map_values(|j: ImageJob| job_view(j));
    let mut k: usize = 0;
    while k < jobs.len()
        invariant
            k <= jobs@.len(),
            views == jobs@.map_values(|j: ImageJob| job_view(j)),
            forall|a: int| 0 <= a < k ==> #[trigger] views[a].0 != url@,
        decreases jobs@.len() - k,
    {
        if jobs[k].url.eq(url) {
            assert(views[k as int].0 == url@);
            return true;
        }
        k = k + 1;
    }
    false
}

/// The images to cache for `items`: one job per distinct image URL, so two
/// items naming the same image share one download.
pub fn image_jobs(items: &Vec<NewsItem>) -> (r: Vec<ImageJob>)
    ensures
        r@.map_values(|j: ImageJob| job_view(j)) == planned_jobs(items@),
{
    let mut jobs: Vec<ImageJob> = Vec::new();
    let mut i: usize = 0;
    while i < items.len()
        invariant
            i <= items@.len(),
            jobs@.map_values(|j: ImageJob| job_view(j)) == planned_jobs(items@.subrange(0, i as int)),
        decreases items@.len() - i,
    {
        assert(items@.subrange(0, i + 1).drop_last() =~= items@.subrange(0, i as int));
        let it = &items[i];
        match (&it.image_url, &it.image_path) {
            (Some(u), Some(p)) => {
                if !job_listed(&jobs, u) {
                    jobs.push(ImageJob { url: u.clone(), path: p.clone() });
                    assert(jobs@.map_values(|j: ImageJob| job_view(j)) =~= planned_jobs(
                        items@.subrange(0, i as int),
                    ).push((u@, p@)));
                }
            },
            _ => {},
        }
        i = i + 1;
    }
    assert(items@.subrange(0, items@.len() as int) =~= items@);
    jobs
}

/// The jobs still to run: job `i` is dropped when `cached[i]` says its file
/// already exists; a job with no such entry is kept.
pub fn pending_downloads(jobs: Vec<ImageJob>, cached: &Vec<bool>) -> (r: Vec<ImageJob>)
    ensures
        r@.map_values(|j: ImageJob| job_view(j)) == uncached_jobs(
            jobs@.map_values(|j: ImageJob| job_view(j)),
            cached@,
        ),
{
    let ghost orig = jobs@.map_values(|j: ImageJob| job_view(j));
    let n = jobs.len();
    let mut rest = jobs;
    let mut kept: Vec<ImageJob> = Vec::new();
    let mut i: usize = 0;
    while rest.len() > 0
        invariant
            i + rest@.len() == n,
            orig.len() == n,
            rest@.map_values(|j: ImageJob| job_view(j)) == orig.subrange(i as int, n as int),
            kept@.map_values(|j: ImageJob| job_view(j)) == uncached_jobs(
                orig.subrange(0, i as int),
                cached@,
            ),
        decreases rest@.len(),
    {
        let ghost rv = rest@;
        let x = rest.remove(0);
        assert(job_view(x) == rv.map_values(|j: ImageJob| job_view(j))[0]);
        assert(orig.subrange(0, i + 1).drop_last() =~= orig.subrange(0, i as int));
        let skip = i < cached.len() && cached[i];
        if !skip {
            kept.push(x);
            assert(kept@.map_values(|j: ImageJob| job_view(j)) =~= uncached_jobs(
                orig.subrange(0, i as int),
                cached@,
            ).push(orig[i as int]));
        }
        i = i + 1;
        assert(rest@ =~= rv.subrange(1, rv.len() as int));
        assert forall|k: int| 0 <= k < rest@.len() implies #[trigger] job_view(rest@[k]) == orig[i + k] by {
            assert(rest@[k] == rv[k + 1]);
            assert(rv.map_values(|j: ImageJob| job_view(j))[k + 1] == orig.subrange(i - 1, n as int)[k + 1]);
        }
        assert(rest@.map_values(|j: ImageJob| job_view(j)) =~= orig.subrange(i as int, n as int));
    }
    assert(orig.subrange(0, n as int) =~= orig);
    kept
}

/// The outcome of one fetch-merge cycle.
pub struct NewsCycle {
    /// The merged store, oldest first, to be persisted.
    pub store: Vec<NewsItem>,
    /// The images named by the fresh items, one per URL.
    pub downloads: Vec<ImageJob>,
    /// The positions of the endpoints that failed.
    pub failed_feeds: Vec<usize>,
}

/// One fetch-merge cycle on what was fetched: the entries of the endpoints
/// that succeeded are normalized under `cache_dir`, their images planned, and
/// the items merged into the previously stored ones.
pub fn read_news(
    stored: Vec<NewsItem>,
    fetched: Vec<Result<Vec<RawEntry>, FetchError>>,
    cache_dir: &str,
) -> (r: NewsCycle)
    ensures
        exists|fresh: Seq<NewsItem>|
            #[trigger] normalized_all(fetched_entries(fetched@), cache_dir@, fresh) && r.store@
                == merged(stored@ + fresh) && r.downloads@.map_values(|j: ImageJob| job_view(j))
                == planned_jobs(fresh),
        r.failed_feeds@.map_values(|i: usize| i as int) == failed_endpoints(fetched@),
        (forall|i: int| 0 <= i < stored@.len() ==> (#[trigger] stored@[i]).wf()) ==> forall|i: int|
            0 <= i < r.store@.len() ==> (#[trigger] r.store@[i]).wf(),
{
    let (entries, failed_feeds) = gather_entries(fetched);
    let fresh = normalize_all(entries, cache_dir);
    let downloads = image_jobs(&fresh);
    let ghost f = fresh@;
    let ghost s0 = stored@;
    proof {
        assert forall|i: int| 0 <= i < f.len() implies (#[trigger] f[i]).wf() by {
            assert(normalizes_to(content_entries(fetched_entries(fetched@))[i], cache_dir@, f[i]));
        }
        if forall|i: int| 0 <= i < s0.len() ==> (#[trigger] s0[i]).wf() {
            assert forall|i: int| 0 <= i < (s0 + f).len() implies (#[trigger] (s0 + f)[i]).wf() by {
                if i < s0.len() {
                    assert((s0 + f)[i] == s0[i]);
                } else {
                    assert((s0 + f)[i] == f[i - s0.len()]);
                }
            }
        }
    }
    let store = merge_items(stored, fresh);
    assert(normalized_all(fetched_entries(fetched@), cache_dir@, f));
    NewsCycle { store, downloads, failed_feeds }
}

} // verus!
