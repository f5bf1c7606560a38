//! The bounded in-memory cache of feed entries: a *raw* collection of freshly
//! fetched posts and a *published* collection, the externally served
//! snapshot. Both are capped; when an insert or a replacement would overflow a
//! cap, the tail (most recently appended) is dropped so that the earliest
//! entries are retained.
use vstd::prelude::*;

use crate::text::dec_digits;
use crate::text::u64_to_string;

verus! {

/// Default cap of the raw collection.
pub const RAW_CACHE_CAPACITY: usize = 1000;

/// Default cap of the published collection.
pub const CACHE_CAPACITY: usize = 100;

/// A single feed entry.
///
/// `url` is present for every entry that reaches the raw collection; `score`
/// and `time` are the optional fields of the richer wire variant.
#[derive(Debug)]
pub struct Post {
    pub title: String,
    pub url: Option<String>,
    pub score: Option<u64>,
    pub time: Option<u64>,
}

/// The mathematical value of a [`Post`]: its strings as character sequences.
pub struct PostView {
    pub title: Seq<char>,
    pub url: Option<Seq<char>>,
    pub score: Option<u64>,
    pub time: Option<u64>,
}

impl View for Post {
    type V = PostView;

    open spec fn view(&self) -> PostView {
        PostView {
            title: self.title@,
            url: match self.url {
                Some(u) => Some(u@),
                None => None,
            },
            score: self.score,
            time: self.time,
        }
    }
}

impl Clone for Post {
    fn clone(&self) -> (r: Self)
        ensures
            r@ == self@,
    {
        Post {
            title: self.title.clone(),
            url: match &self.url {
                Some(u) => Some(u.clone()),
                None => None,
            },
            score: self.score,
            time: self.time,
        }
    }
}

/// The views of a sequence of posts.
pub open spec fn posts_view(v: Seq<Post>) -> Seq<PostView> {
    v.map_values(|p: Post| p@)
}

/// Every post of the sequence carries a URL.
pub open spec fn urls_present(s: Seq<PostView>) -> bool {
    forall|i: int| 0 <= i < s.len() ==> (#[trigger] s[i]).url is Some
}

/// A source of feed entries backed by the two bounded collections.
///
/// Every operation preserves the container invariant: neither collection ever
/// grows past its cap, and every raw entry carries a URL.
pub trait Source {
    /// The raw (unfiltered, freshly fetched) collection.
    spec fn raw_view(&self) -> Seq<PostView>;

    /// The published (externally served) collection.
    spec fn published_view(&self) -> Seq<PostView>;

    /// Cap of the raw collection.
    spec fn raw_cap(&self) -> nat;

    /// Cap of the published collection.
    spec fn published_cap(&self) -> nat;

    /// The container invariant.
    spec fn inv(&self) -> bool;

    /// The invariant bounds both collections by their caps.
    proof fn inv_bounds(&self)
        requires
            self.inv(),
        ensures
            self.raw_view().len() <= self.raw_cap(),
            self.published_view().len() <= self.published_cap(),
            self.raw_cap() >= 1,
            self.published_cap() >= 1,
            urls_present(self.raw_view()),
    ;

    /// A point-in-time copy of the published collection.
    fn pull(&self) -> (r: Vec<Post>)
        requires
            self.inv(),
        ensures
            posts_view(r@) == self.published_view(),
    ;

    /// A point-in-time copy of the raw collection.
    fn pull_raw(&self) -> (r: Vec<Post>)
        requires
            self.inv(),
        ensures
            posts_view(r@) == self.raw_view(),
    ;

    /// Wholesale replacement of the published collection. A sequence longer
    /// than the cap is cut back to `cap - 1` entries, keeping the earliest.
    fn push_unconditional(&mut self, posts: Vec<Post>)
        requires
            old(self).inv(),
        ensures
            final(self).inv(),
            final(self).raw_view() == old(self).raw_view(),
            final(self).raw_cap() == old(self).raw_cap(),
            final(self).published_cap() == old(self).published_cap(),
            final(self).published_view() == if posts@.len() > old(self).published_cap() {
                posts_view(posts@).take(old(self).published_cap() - 1)
            } else {
                posts_view(posts@)
            },
    ;

    /// Empties the raw collection; the published one is untouched.
    fn empty(&mut self)
        requires
            old(self).inv(),
        ensures
            final(self).inv(),
            final(self).raw_view() == Seq::<PostView>::empty(),
            final(self).published_view() == old(self).published_view(),
            final(self).raw_cap() == old(self).raw_cap(),
            final(self).published_cap() == old(self).published_cap(),
    ;
}

/// Why one fetch cycle failed.
#[derive(Debug, PartialEq, Eq, Structural, Clone, Copy)]
pub enum FetchError {
    /// The network call itself failed; the cycle is skipped.
    Transport,
    /// The listing reply was not a JSON array of ids; the cycle is skipped.
    Decode,
}

/// What the listing endpoint's reply decodes to, when it is a JSON array of
/// unsigned 64-bit ids.
pub uninterp spec fn listing_ids_of(body: Seq<char>) -> Option<Seq<u64>>;

/// Relies on serde_json::from_str deserializing into `Vec<u64>`: the ids of a
/// listing reply, `None` when the body is not a JSON array of unsigned 64-bit
/// integers. The result depends on the body alone.
#[verifier::external_body]
fn decode_listing(body: &str) -> (r: Option<Vec<u64>>)
    ensures
        r is Some <==> listing_ids_of(body@) is Some,
        r matches Some(v) ==> v@ == listing_ids_of(body@)->Some_0,
{
    serde_json::from_str::<Vec<u64>>(body).ok()
}

/// Decodes a listing reply into the ids whose details are to be fetched.
/// Fails with `Decode` exactly when the reply is not a JSON array of ids.
pub fn parse_listing(body: &str) -> (r: Result<Vec<u64>, FetchError>)
    ensures
        listing_ids_of(body@) is None <==> r == Err::<Vec<u64>, FetchError>(FetchError::Decode),
        listing_ids_of(body@) matches Some(ids) ==> r is Ok && r->Ok_0@ == ids,
{
    match decode_listing(body) {
        Some(ids) => Ok(ids),
        None => Err(FetchError::Decode),
    }
}

/// The value of `title`, and of `url` when present, in a detail reply.
pub uninterp spec fn detail_post_of(body: Seq<char>) -> Option<(Seq<char>, Option<Seq<char>>)>;

/// Relies on serde_json::from_str and serde_json::Value::{get, as_str}: the
/// `title` string and the optional `url` string of a detail record, `None`
/// when the body is not a JSON object with a string `title`. The result
/// depends on the body alone.
#[verifier::external_body]
fn decode_detail(body: &str) -> (r: Option<Post>)
    ensures
        r is Some <==> detail_post_of(body@) is Some,
        r matches Some(p) ==> {
            &&& p.title@ == detail_post_of(body@)->Some_0.0
            &&& (match p.url {
                Some(u) => detail_post_of(body@)->Some_0.1 == Some(u@),
                None => detail_post_of(body@)->Some_0.1 is None,
            })
            &&& p.score is None
            &&& p.time is None
        },
{
    let v: serde_json::Value = serde_json::from_str(body).ok()?;
    let title = v.get("title")?.as_str()?.to_string();
    let url = v.get("url").and_then(|u| u.as_str()).map(|u| u.to_string());
    Some(Post { title, url, score: None, time: None })
}

/// The URL of the detail record for one id.
pub open spec fn detail_url_spec(id: u64) -> Seq<char> {
    "https://hacker-news.firebaseio.com/v0/item/"@ + dec_digits(id as nat) + ".json"@
}

/// Builds the URL of the detail record for one id.
pub fn detail_url(id: u64) -> (r: String)
    ensures
        r@ == detail_url_spec(id),
{
    let mut s = String::from_str("https://hacker-news.firebaseio.com/v0/item/");
    let id_s = u64_to_string(id);
    s.append(id_s.as_str());
    s.append(".json");
    proof {
        assert(s@ =~= detail_url_spec(id));
    }
    s
}

/// The Hacker News source: two bounded collections under one owner.
pub struct HackerNews {
    raw_posts: Vec<Post>,
    posts: Vec<Post>,
    raw_capacity: usize,
    capacity: usize,
}

/// Clones a list of posts, preserving its value.
fn clone_posts(v: &Vec<Post>) -> (r: Vec<Post>)
    ensures
        posts_view(r@) == posts_view(v@),
{
    let mut out: Vec<Post> = Vec::new();
    let mut i: usize = 0;
    proof {
        assert(posts_view(out@) =~= posts_view(v@.take(0)));
    }
    while i < v.len()
        invariant
            0 <= i <= v@.len(),
            posts_view(out@) == posts_view(v@.take(i as int)),
        decreases v@.len() - i,
    {
        let p = (&v[i]).clone();
        out.push(p);
        proof {
            assert(posts_view(out@) =~= posts_view(v@.take(i as int)).push(p@));
            assert(posts_view(v@.take(i + 1)) =~= posts_view(v@.take(i as int)).push(v@[i as int]@));
        }
        i = i + 1;
    }
    proof {
        assert(v@.take(v@.len() as int) =~= v@);
    }
    out
}

impl HackerNews {
    /// A fresh, empty source with the default caps.
    pub fn new() -> (r: HackerNews)
        ensures
            r.inv(),
            r.raw_view() == Seq::<PostView>::empty(),
            r.published_view() == Seq::<PostView>::empty(),
            r.raw_cap() == RAW_CACHE_CAPACITY as nat,
            r.published_cap() == CACHE_CAPACITY as nat,
    {
        HackerNews {
            raw_posts: Vec::new(),
            posts: Vec::new(),
            raw_capacity: RAW_CACHE_CAPACITY,
            capacity: CACHE_CAPACITY,
        }
    }

    /// A fresh, empty source with chosen caps (both at least 1).
    pub fn with_capacities(raw_capacity: usize, capacity: usize) -> (r: HackerNews)
        requires
            raw_capacity >= 1,
            capacity >= 1,
        ensures
            r.inv(),
            r.raw_view() == Seq::<PostView>::empty(),
            r.published_view() == Seq::<PostView>::empty(),
            r.raw_cap() == raw_capacity as nat,
            r.published_cap() == capacity as nat,
    {
        HackerNews { raw_posts: Vec::new(), posts: Vec::new(), raw_capacity, capacity }
    }

    /// Appends one post at the tail of the raw collection. If the collection
    /// is already full, it is first cut back to `cap - 1` entries — the tail
    /// is dropped, the earliest entries are retained — so the new length is
    /// again exactly the cap.
    pub fn append_raw(&mut self, post: Post)
        requires
            old(self).inv(),
            post.url is Some,
        ensures
            final(self).inv(),
            final(self).published_view() == old(self).published_view(),
            final(self).raw_cap() == old(self).raw_cap(),
            final(self).published_cap() == old(self).published_cap(),
            final(self).raw_view() == if old(self).raw_view().len() < old(self).raw_cap() {
                old(self).raw_view().push(post@)
            } else {
                old(self).raw_view().take(old(self).raw_cap() - 1).push(post@)
            },
    {
        let ghost pre = self.raw_posts@;
        if self.raw_posts.len() >= self.raw_capacity {
            self.raw_posts.truncate(self.raw_capacity - 1);
            proof {
                assert(posts_view(self.raw_posts@)
                    =~= posts_view(pre).take(self.raw_capacity - 1));
            }
        }
        let ghost mid = self.raw_posts@;
        self.raw_posts.push(post);
        proof {
            assert(posts_view(self.raw_posts@) =~= posts_view(mid).push(post@));
        }
    }

    /// Appends the outcome of one detail fetch: a post without a URL is
    /// dropped, any other is appended to the raw collection.
    pub fn ingest(&mut self, post: Post)
        requires
            old(self).inv(),
        ensures
            final(self).inv(),
            final(self).published_view() == old(self).published_view(),
            final(self).raw_cap() == old(self).raw_cap(),
            final(self).published_cap() == old(self).published_cap(),
            final(self).raw_view() == if post.url is None {
                old(self).raw_view()
            } else if old(self).raw_view().len() < old(self).raw_cap() {
                old(self).raw_view().push(post@)
            } else {
                old(self).raw_view().take(old(self).raw_cap() - 1).push(post@)
            },
    {
        if post.url.is_some() {
            self.append_raw(post);
        }
    }

    /// Takes one detail reply: a body that decodes to a post with a URL is
    /// appended to the raw collection, any other reply is dropped.
    pub fn ingest_detail(&mut self, body: &str)
        requires
            old(self).inv(),
        ensures
            final(self).inv(),
            final(self).published_view() == old(self).published_view(),
            final(self).raw_cap() == old(self).raw_cap(),
            final(self).published_cap() == old(self).published_cap(),
            final(self).raw_view() == (match detail_post_of(body@) {
                Some(rec) => {
                    if rec.1 is Some {
                        let pv = PostView { title: rec.0, url: rec.1, score: None, time: None };
                        if old(self).raw_view().len() < old(self).raw_cap() {
                            old(self).raw_view().push(pv)
                        } else {
                            old(self).raw_view().take(old(self).raw_cap() - 1).push(pv)
                        }
                    } else {
                        old(self).raw_view()
                    }
                },
                None => old(self).raw_view(),
            }),
    {
        match decode_detail(body) {
            Some(p) => {
                proof {
                    let rec = detail_post_of(body@)->Some_0;
                    assert(p@ == PostView { title: rec.0, url: rec.1, score: None, time: None });
                }
                self.ingest(p);
            },
            None => (),
        }
    }
}

impl Source for HackerNews {
    closed spec fn raw_view(&self) -> Seq<PostView> {
        posts_view(self.raw_posts@)
    }

    closed spec fn published_view(&self) -> Seq<PostView> {
        posts_view(self.posts@)
    }

    closed spec fn raw_cap(&self) -> nat {
        self.raw_capacity as nat
    }

    closed spec fn published_cap(&self) -> nat {
        self.capacity as nat
    }

    closed spec fn inv(&self) -> bool {
        &&& self.raw_posts@.len() <= self.raw_capacity
        &&& self.posts@.len() <= self.capacity
        &&& self.raw_capacity >= 1
        &&& self.capacity >= 1
        &&& urls_present(self.raw_view())
    }

    proof fn inv_bounds(&self) {
    }

    fn pull(&self) -> (r: Vec<Post>) {
        clone_posts(&self.posts)
    }

    fn pull_raw(&self) -> (r: Vec<Post>) {
        clone_posts(&self.raw_posts)
    }

    fn push_unconditional(&mut self, posts: Vec<Post>) {
        let ghost incoming = posts@;
        self.posts = posts;
        if self.posts.len() > self.capacity {
            self.posts.truncate(self.capacity - 1);
            proof {
                assert(posts_view(self.posts@)
                    =~= posts_view(incoming).take(self.capacity - 1));
            }
        }
    }

    fn empty(&mut self) {
        self.raw_posts.clear();
        proof {
            assert(posts_view(self.raw_posts@) =~= Seq::<PostView>::empty());
        }
    }
}

} // verus!
