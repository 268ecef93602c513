//! Bounded same-host crawl for URL ingestion: a visited list, a depth-bounded
//! work stack, and the decisions of which page to fetch next and which links
//! to follow. The fetching itself is outside work driven by the host.

use vstd::prelude::*;
use crate::textutil::str_eq;

verus! {

/// What parsing a URL yields for its host: `None` where the text is no URL
/// at all, `Some(None)` where it parses but has no host, `Some(Some(h))`
/// where it has host `h`.
pub uninterp spec fn url_host_of(s: Seq<char>) -> Option<Option<Seq<char>>>;

/// Relies on url::Url::parse and Url::host_str: a URL's host is a function
/// of the URL text alone.
#[verifier::external_body]
fn parse_host(u: &str) -> (r: Option<Option<String>>)
    ensures
        match r {
            Option::Some(Option::Some(h)) => url_host_of(u@) == Option::Some(
                Option::Some(h@),
            ),
            Option::Some(Option::None) => url_host_of(u@) == Option::Some(
                Option::<Seq<char>>::None,
            ),
            Option::None => url_host_of(u@) is None,
        },
{
    match url::Url::parse(u) {
        Ok(parsed) => Some(parsed.host_str().map(|h| h.to_string())),
        Err(_) => None,
    }
}

/// Whether two URLs both parse and name the same host (or both none).
pub open spec fn same_host(a: Seq<char>, b: Seq<char>) -> bool {
    url_host_of(a) is Some && url_host_of(b) is Some && url_host_of(a).unwrap() == url_host_of(
        b,
    ).unwrap()
}

/// Whether a URL occurs in the visited list.
pub open spec fn seq_contains_str(vs: Seq<String>, x: Seq<char>) -> bool {
    exists|i: int| 0 <= i < vs.len() && #[trigger] vs[i]@ == x
}

fn contains_str(v: &Vec<String>, s: &str) -> (r: bool)
    ensures
        r == seq_contains_str(v@, s@),
{
    let n = v.len();
    let mut i: usize = 0;
    while i < n
        invariant
            i <= n,
            n == v@.len(),
            forall|j: int| 0 <= j < i ==> #[trigger] v@[j]@ != s@,
        decreases n - i,
    {
        if str_eq(v[i].as_str(), s) {
            return true;
        }
        i += 1;
    }
    false
}

/// The view of the work stack: URL text and depth.
pub open spec fn queue_view(q: Seq<(String, usize)>) -> Seq<(Seq<char>, int)> {
    q.map_values(|p: (String, usize)| (p.0@, p.1 as int))
}

/// Picking the next page: entries are popped off the stack; one that is too
/// deep or already visited is discarded; the first acceptable one is the
/// pick, and the rest of the stack remains.
pub open spec fn spec_pick(
    queue: Seq<(Seq<char>, int)>,
    visited: Seq<String>,
    maxd: int,
) -> (Seq<(Seq<char>, int)>, Option<(Seq<char>, int)>)
    decreases queue.len(),
{
    if queue.len() == 0 {
        (queue, Option::None)
    } else {
        let top = queue.last();
        let rest = queue.drop_last();
        if top.1 > maxd || seq_contains_str(visited, top.0) {
            spec_pick(rest, visited, maxd)
        } else {
            (rest, Option::Some(top))
        }
    }
}

/// The stack after enqueueing the same-host, unvisited links of a page, each
/// one level deeper.
pub open spec fn spec_enqueue(
    queue: Seq<(Seq<char>, int)>,
    visited: Seq<String>,
    base: Seq<char>,
    links: Seq<Seq<char>>,
    depth: int,
) -> Seq<(Seq<char>, int)>
    decreases links.len(),
{
    if links.len() == 0 {
        queue
    } else {
        let l = links[0];
        let q2 = if same_host(base, l) && !seq_contains_str(visited, l) {
            queue.push((l, depth + 1))
        } else {
            queue
        };
        spec_enqueue(q2, visited, base, links.skip(1), depth)
    }
}

/// The crawl state: the starting URL, the depth bound, the pages already
/// visited, and the work stack of pages to visit.
pub struct ScrapeCrawler {
    pub base_url: String,
    pub max_depth: usize,
    pub visited: Vec<String>,
    pub queue: Vec<(String, usize)>,
}

/// The depth bound of a crawl: the requested bound, one where none was
/// given, and never more than three.
pub fn effective_depth(requested: Option<usize>) -> (r: usize)
    ensures
        r == (match requested {
            Option::Some(d) => if d <= 3 {
                d as int
            } else {
                3
            },
            Option::None => 1,
        }),
{
    match requested {
        Some(d) => if d <= 3 {
            d
        } else {
            3
        },
        None => 1,
    }
}

impl ScrapeCrawler {
    /// A fresh crawl: nothing visited, the starting URL on the stack at
    /// depth zero.
    pub fn new(base_url: String, max_depth: usize) -> (r: ScrapeCrawler)
        ensures
            r.base_url@ == base_url@,
            r.max_depth == max_depth,
            r.visited@ == Seq::<String>::empty(),
            queue_view(r.queue@) =~= seq![(base_url@, 0int)],
    {
        let first = base_url.clone();
        let mut queue: Vec<(String, usize)> = Vec::new();
        queue.push((first, 0));
        ScrapeCrawler { base_url, max_depth, visited: Vec::new(), queue }
    }

    /// Pops work until an unvisited page within the depth bound is found;
    /// that page is marked visited and returned with its depth. `None` means
    /// the crawl is finished.
    pub fn next_target(&mut self) -> (r: Option<(String, usize)>)
        ensures
            final(self).base_url == old(self).base_url,
            final(self).max_depth == old(self).max_depth,
            ({
                let (q2, pick) = spec_pick(
                    queue_view(old(self).queue@),
                    old(self).visited@,
                    old(self).max_depth as int,
                );
                match r {
                    Option::Some(p) => pick == Option::Some((p.0@, p.1 as int)) && queue_view(
                        final(self).queue@,
                    ) == q2 && final(self).visited@.len() == old(self).visited@.len() + 1 && final(self).visited@[old(self).visited@.len() as int]@ == p.0@ && forall|i: int|
                        0 <= i < old(self).visited@.len() ==> final(self).visited@[i] == old(self).visited@[i],
                    Option::None => pick is None && queue_view(final(self).queue@) == q2 && final(self).visited@ == old(self).visited@,
                }
            }),
    {
        loop
            invariant_except_break
                self.base_url == old(self).base_url,
                self.max_depth == old(self).max_depth,
                self.visited@ == old(self).visited@,
                spec_pick(
                    queue_view(old(self).queue@),
                    old(self).visited@,
                    old(self).max_depth as int,
                ) == spec_pick(queue_view(self.queue@), self.visited@, self.max_depth as int),
            ensures
                self.base_url == old(self).base_url,
                self.max_depth == old(self).max_depth,
                ({
                    let (q2, pick) = spec_pick(
                        queue_view(old(self).queue@),
                        old(self).visited@,
                        old(self).max_depth as int,
                    );
                    pick is None && queue_view(self.queue@) == q2 && self.visited@ == old(self).visited@
                }),
            decreases self.queue@.len(),
        {
            let ghost qv_before = queue_view(self.queue@);
            let top = match self.queue.pop() {
                Some(t) => t,
                None => {
                    proof {
                        assert(qv_before.len() == 0);
                    }
                    break;
                },
            };
            proof {
                assert(qv_before.last() == (top.0@, top.1 as int));
                assert(queue_view(self.queue@) =~= qv_before.drop_last());
            }
            let too_deep = top.1 > self.max_depth;
            let seen = contains_str(&self.visited, top.0.as_str());
            if !too_deep && !seen {
                let marked = top.0.clone();
                self.visited.push(marked);
                return Some(top);
            }
        }
        None
    }

    /// Whether links found at this depth are followed: only strictly inside
    /// the depth bound.
    pub fn follow_links(&self, depth: usize) -> (r: bool)
        ensures
            r == (depth < self.max_depth),
    {
        depth < self.max_depth
    }

    /// Pushes every link of a page that names the same host as the crawl's
    /// starting URL and was not visited yet, one level deeper than the page
    /// it was found on.
    pub fn enqueue_links(&mut self, links: &Vec<String>, depth: usize)
        requires
            depth < usize::MAX,
        ensures
            final(self).base_url == old(self).base_url,
            final(self).max_depth == old(self).max_depth,
            final(self).visited@ == old(self).visited@,
            queue_view(final(self).queue@) == spec_enqueue(
                queue_view(old(self).queue@),
                old(self).visited@,
                old(self).base_url@,
                links@.map_values(|l: String| l@),
                depth as int,
            ),
    {
        let n = links.len();
        let ghost lviews = links@.map_values(|l: String| l@);
        let mut i: usize = 0;
        proof {
            assert(lviews.skip(0) =~= lviews);
        }
        while i < n
            invariant
                i <= n,
                n == links@.len(),
                lviews == links@.map_values(|l: String| l@),
                self.base_url == old(self).base_url,
                self.max_depth == old(self).max_depth,
                self.visited@ == old(self).visited@,
                depth < usize::MAX,
                spec_enqueue(
                    queue_view(old(self).queue@),
                    old(self).visited@,
                    old(self).base_url@,
                    lviews,
                    depth as int,
                ) == spec_enqueue(
                    queue_view(self.queue@),
                    self.visited@,
                    self.base_url@,
                    lviews.skip(i as int),
                    depth as int,
                ),
            decreases n - i,
        {
            proof {
                assert(lviews.skip(i as int)[0] == lviews[i as int]);
                assert(lviews.skip(i as int).skip(1) =~= lviews.skip(i as int + 1));
            }
            let base_h = parse_host(self.base_url.as_str());
            let link_h = parse_host(links[i].as_str());
            let same = match (base_h, link_h) {
                (Some(Some(a)), Some(Some(b))) => str_eq(a.as_str(), b.as_str()),
                (Some(None), Some(None)) => true,
                _ => false,
            };
            let seen = contains_str(&self.visited, links[i].as_str());
            if same && !seen {
                let ghost qv_before = queue_view(self.queue@);
                let link = links[i].clone();
                self.queue.push((link, depth + 1));
                proof {
                    assert(queue_view(self.queue@) =~= qv_before.push(
                        (lviews[i as int], depth as int + 1),
                    ));
                }
            }
            i += 1;
        }
        proof {
            assert(lviews.skip(n as int) =~= Seq::<Seq<char>>::empty());
        }
    }
}

} // verus!
