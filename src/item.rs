use vstd::prelude::*;
use vstd::string::*;
use vstd::utf8::encode_utf8;

verus! {

/// An instant with the fixed UTC offset it was written in.
///
/// `secs` counts whole seconds since 1970-01-01T00:00:00Z and `nanos` the
/// nanoseconds past them; `offset` is the number of seconds east of UTC. Two
/// timestamps are ordered by the instant alone.
#[derive(Clone, Copy, Debug, PartialEq, Eq, Structural)]
pub struct Timestamp {
    pub secs: i64,
    pub nanos: u32,
    pub offset: i32,
}

/// What chrono's RFC-822-style parse (`"%a, %d %b %Y %H:%M:%S %z"`) yields for
/// a string: the instant (seconds, nanoseconds) and offset, or nothing when the text does not parse.
pub uninterp spec fn rfc822_stamp(s: Seq<char>) -> Option<(i64, u32, i32)>;

/// What chrono's ISO-8601 offset-timestamp parse yields for a string.
pub uninterp spec fn iso8601_stamp(s: Seq<char>) -> Option<(i64, u32, i32)>;

pub open spec fn stamp_of(p: Option<(i64, u32, i32)>) -> Option<Timestamp> {
    match p {
        Some((secs, nanos, offset)) => Some(Timestamp { secs, nanos, offset }),
        None => None,
    }
}

/// Relies on `chrono::DateTime::parse_from_str` with the RFC-822-style format,
/// then `timestamp`, `timestamp_subsec_nanos` and `offset().local_minus_utc()`
/// to read the result.
#[verifier::external_body]
fn parse_rfc822(s: &str) -> (r: Option<(i64, u32, i32)>)
    ensures
        r == rfc822_stamp(s@),
{
    chrono::DateTime::parse_from_str(s, "%a, %d %b %Y %H:%M:%S %z").ok().map(
        |d| (d.timestamp(), d.timestamp_subsec_nanos(), d.offset().local_minus_utc()),
    )
}

/// Relies on `FromStr for chrono::DateTime<FixedOffset>` (RFC 3339 / ISO 8601),
/// then `timestamp`, `timestamp_subsec_nanos` and `offset().local_minus_utc()`
/// to read the result.
#[verifier::external_body]
fn parse_iso8601(s: &str) -> (r: Option<(i64, u32, i32)>)
    ensures
        r == iso8601_stamp(s@),
{
    s.parse::<chrono::DateTime<chrono::FixedOffset>>().ok().map(
        |d| (d.timestamp(), d.timestamp_subsec_nanos(), d.offset().local_minus_utc()),
    )
}

/// One unprocessed entry of a feed, holding the fields that normalization reads.
///
/// `dc_dates` are the entry's Dublin Core dates in document order;
/// `thumbnail_urls` holds, for each media-thumbnail extension of the entry in
/// document order, its `url` attribute if it has one.
pub struct RawEntry {
    pub title: Option<String>,
    pub description: Option<String>,
    pub pub_date: Option<String>,
    pub dc_dates: Vec<String>,
    pub thumbnail_urls: Vec<Option<String>>,
}

/// The canonical, durable representation of one news entry.
///
/// `raw_date` is the entry's native publish-date text exactly as it was read;
/// it takes part in the identity of the item. `publish_date` is what that text
/// (or the Dublin Core fallback) parses to. `image_path` points into the image
/// cache whether or not the file has been downloaded yet.
pub struct NewsItem {
    pub title: Option<String>,
    pub description: Option<String>,
    pub raw_date: Option<String>,
    pub publish_date: Option<Timestamp>,
    pub image_url: Option<String>,
    pub image_path: Option<String>,
    pub digest: [u8; 32],
}

/// Why an entry could not become a `NewsItem`.
#[derive(Clone, Copy, Debug, PartialEq, Eq, Structural)]
pub enum NormalizeError {
    /// The entry lacks the title or the description that the digest covers.
    MissingContent,
}

pub open spec fn opt_text(o: Option<String>) -> Option<Seq<char>> {
    match o {
        Some(s) => Some(s@),
        None => None,
    }
}

/// The publish date: the native one when it parsed, else the fallback.
pub open spec fn pick_date(native: Option<Timestamp>, fallback: Option<Timestamp>) -> Option<
    Timestamp,
> {
    if native.is_some() {
        native
    } else {
        fallback
    }
}

/// What the native publish-date field of an entry parses to.
pub open spec fn native_date(e: RawEntry) -> Option<Timestamp> {
    match e.pub_date {
        Some(s) => stamp_of(rfc822_stamp(s@)),
        None => None,
    }
}

/// What the first Dublin Core date of an entry parses to.
pub open spec fn dublin_core_date(e: RawEntry) -> Option<Timestamp> {
    if e.dc_dates@.len() > 0 {
        stamp_of(iso8601_stamp(e.dc_dates@[0]@))
    } else {
        None
    }
}

pub open spec fn entry_date(e: RawEntry) -> Option<Timestamp> {
    pick_date(native_date(e), dublin_core_date(e))
}

/// The `url` attribute of the entry's first media thumbnail, if any.
pub open spec fn entry_image_url(e: RawEntry) -> Option<Seq<char>> {
    if e.thumbnail_urls@.len() > 0 {
        opt_text(e.thumbnail_urls@[0])
    } else {
        None
    }
}

pub open spec fn https_scheme() -> Seq<char> {
    seq!['h', 't', 't', 'p', 's', ':', '/', '/']
}

pub open spec fn http_scheme() -> Seq<char> {
    seq!['h', 't', 't', 'p', ':', '/', '/']
}

pub open spec fn has_prefix(s: Seq<char>, p: Seq<char>) -> bool {
    p.len() <= s.len() && s.subrange(0, p.len() as int) == p
}

/// A URL without its leading `https://` or `http://`.
pub open spec fn strip_scheme(url: Seq<char>) -> Seq<char> {
    if has_prefix(url, https_scheme()) {
        url.skip(8)
    } else if has_prefix(url, http_scheme()) {
        url.skip(7)
    } else {
        url
    }
}

/// `rest` joined under directory `root` with one `/` between them.
pub open spec fn join_path(root: Seq<char>, rest: Seq<char>) -> Seq<char> {
    if root.len() == 0 {
        rest
    } else if root.last() == '/' {
        root + rest
    } else {
        root + seq!['/'] + rest
    }
}

/// Where the image at `url` is cached under `root`.
pub open spec fn image_path_of(url: Seq<char>, root: Seq<char>) -> Seq<char> {
    join_path(root, strip_scheme(url))
}

/// What BLAKE3 hashes `data` to.
pub uninterp spec fn blake3_of(data: Seq<u8>) -> Seq<u8>;

/// The digest of an item's content: the title's UTF-8 bytes, then the
/// description's.
pub open spec fn content_digest_of(title: Seq<char>, description: Seq<char>) -> Seq<u8> {
    blake3_of(encode_utf8(title) + encode_utf8(description))
}

pub open spec fn has_content(e: RawEntry) -> bool {
    e.title.is_some() && e.description.is_some()
}

/// `it` is what normalizing entry `e` under cache root `root` gives.
pub open spec fn normalizes_to(e: RawEntry, root: Seq<char>, it: NewsItem) -> bool {
    &&& has_content(e)
    &&& it.title == e.title
    &&& it.description == e.description
    &&& it.raw_date == e.pub_date
    &&& it.publish_date == entry_date(e)
    &&& opt_text(it.image_url) == entry_image_url(e)
    &&& opt_text(it.image_path) == match entry_image_url(e) {
        Some(u) => Some(image_path_of(u, root)),
        None => None,
    }
    &&& it.digest@ == content_digest_of(e.title.unwrap()@, e.description.unwrap()@)
}

/// Two entries with the same image URL, normalized under the same cache
/// root, get the same image path, whatever else they hold.
pub proof fn lemma_same_url_same_path(
    e1: RawEntry,
    e2: RawEntry,
    root: Seq<char>,
    it1: NewsItem,
    it2: NewsItem,
)
    requires
        normalizes_to(e1, root, it1),
        normalizes_to(e2, root, it2),
        entry_image_url(e1) is Some,
        entry_image_url(e1) == entry_image_url(e2),
    ensures
        opt_text(it1.image_path) is Some,
        opt_text(it1.image_path) == opt_text(it2.image_path),
{
}

/// Relies on `blake3::hash`: the 32-byte BLAKE3 hash of `data`.
#[verifier::external_body]
fn blake3_hash(data: &[u8]) -> (r: [u8; 32])
    ensures
        r@ == blake3_of(data@),
{
    *blake3::hash(data).as_bytes()
}

/// The content digest over `title` then `description`.
pub fn content_digest(title: &str, description: &str) -> (r: [u8; 32])
    ensures
        r@ == content_digest_of(title@, description@),
{
    let mut data = title.as_bytes_vec();
    let mut tail = description.as_bytes_vec();
    data.append(&mut tail);
    blake3_hash(data.as_slice())
}

/// The publish date: `native` when it is present, else `fallback`.
pub fn resolve_publish_date(native: Option<Timestamp>, fallback: Option<Timestamp>) -> (r: Option<
    Timestamp,
>)
    ensures
        r == pick_date(native, fallback),
{
    match native {
        Some(d) => Some(d),
        None => fallback,
    }
}

fn to_stamp(p: Option<(i64, u32, i32)>) -> (r: Option<Timestamp>)
    ensures
        r == stamp_of(p),
{
    match p {
        Some((secs, nanos, offset)) => Some(Timestamp { secs, nanos, offset }),
        None => None,
    }
}

/// The publish date of an entry: its native date parsed RFC-822-style; when
/// that is absent or does not parse, its first Dublin Core date parsed as an
/// ISO-8601 offset timestamp; else none.
pub fn publish_date(item: &RawEntry) -> (r: Option<Timestamp>)
    ensures
        r == entry_date(*item),
{
    let native = match &item.pub_date {
        Some(s) => to_stamp(parse_rfc822(s.as_str())),
        None => None,
    };
    let fallback = if item.dc_dates.len() > 0 {
        to_stamp(parse_iso8601(item.dc_dates[0].as_str()))
    } else {
        None
    };
    resolve_publish_date(native, fallback)
}

/// Whether `s` starts with `p`.
fn starts_with(s: &str, p: &str) -> (r: bool)
    ensures
        r == has_prefix(s@, p@),
{
    let n = s.unicode_len();
    let m = p.unicode_len();
    if m > n {
        return false;
    }
    let mut i: usize = 0;
    while i < m
        invariant
            m == p@.len(),
            n == s@.len(),
            m <= n,
            i <= m,
            forall|k: int| 0 <= k < i ==> s@[k] == p@[k],
        decreases m - i,
    {
        if s.get_char(i) != p.get_char(i) {
            assert(s@.subrange(0, m as int)[i as int] != p@[i as int]);
            return false;
        }
        i = i + 1;
    }
    assert(s@.subrange(0, m as int) =~= p@);
    true
}

/// The cache path of the image at `url`: the URL without its `https://` or
/// `http://` scheme, joined under `cache_root`.
pub fn image_path_for(url: &str, cache_root: &str) -> (r: String)
    ensures
        r@ == image_path_of(url@, cache_root@),
{
    proof {
        reveal_strlit("https://");
        reveal_strlit("http://");
        reveal_strlit("/");
        assert("https://"@ =~= https_scheme());
        assert("http://"@ =~= http_scheme());
        assert("/"@ =~= seq!['/']);
    }
    let n = url.unicode_len();
    let rest = if starts_with(url, "https://") {
        url.substring_char(8, n)
    } else if starts_with(url, "http://") {
        url.substring_char(7, n)
    } else {
        url
    };
    assert(rest@ =~= strip_scheme(url@));
    let m = cache_root.unicode_len();
    if m == 0 {
        return rest.to_owned();
    }
    let mut r = String::from_str(cache_root);
    if cache_root.get_char(m - 1) != '/' {
        r.append("/");
    }
    r.append(rest);
    r
}

fn first_thumbnail(urls: &Vec<Option<String>>) -> (r: Option<String>)
    ensures
        opt_text(r) == (if urls@.len() > 0 {
            opt_text(urls@[0])
        } else {
            None
        }),
{
    if urls.len() == 0 {
        return None;
    }
    match &urls[0] {
        Some(u) => Some(u.clone()),
        None => None,
    }
}

impl NewsItem {
    /// A well-formed item has a title and a description, and its digest is
    /// the content digest of the two.
    pub open spec fn wf(self) -> bool {
        &&& self.title is Some
        &&& self.description is Some
        &&& self.digest@ == content_digest_of(self.title.unwrap()@, self.description.unwrap()@)
    }

    /// Normalizes `item` with images cached under `cache_dir`; fails with
    /// `MissingContent` exactly when the title or the description is absent.
    pub fn new(item: RawEntry, cache_dir: &str) -> (r: Result<NewsItem, NormalizeError>)
        ensures
            has_content(item) <==> r.is_ok(),
            r matches Ok(it) ==> normalizes_to(item, cache_dir@, it) && it.wf(),
            r matches Err(e) ==> e == NormalizeError::MissingContent,
    {
        let pub_date = publish_date(&item);
        let image_url = first_thumbnail(&item.thumbnail_urls);
        let image_path = match &image_url {
            Some(u) => Some(image_path_for(u.as_str(), cache_dir)),
            None => None,
        };
        let digest = match (&item.title, &item.description) {
            (Some(t), Some(d)) => content_digest(t.as_str(), d.as_str()),
            _ => {
                return Err(NormalizeError::MissingContent);
            },
        };
        let RawEntry { title, description, pub_date: raw_date, dc_dates: _, thumbnail_urls: _ } =
            item;
        Ok(NewsItem { title, description, raw_date, publish_date: pub_date, image_url, image_path, digest })
    }

    pub fn pub_date(&self) -> (r: Option<Timestamp>)
        ensures
            r == self.publish_date,
    {
        self.publish_date
    }

    /// The content digest: that of the title's bytes, then the description's.
    pub fn digest(&self) -> (r: [u8; 32])
        requires
            self.wf(),
        ensures
            r@ == content_digest_of(self.title.unwrap()@, self.description.unwrap()@),
    {
        self.digest
    }

    pub fn title(&self) -> (r: Option<&str>)
        ensures
            r matches Some(t) ==> self.title matches Some(s) && t@ == s@,
            r is None <==> self.title is None,
    {
        match &self.title {
            Some(t) => Some(t.as_str()),
            None => None,
        }
    }

    pub fn description(&self) -> (r: Option<&str>)
        ensures
            r matches Some(t) ==> self.description matches Some(s) && t@ == s@,
            r is None <==> self.description is None,
    {
        match &self.description {
            Some(t) => Some(t.as_str()),
            None => None,
        }
    }

    pub fn image_url(&self) -> (r: Option<String>)
        ensures
            opt_text(r) == opt_text(self.image_url),
    {
        match &self.image_url {
            Some(u) => Some(u.clone()),
            None => None,
        }
    }
}

} // verus!
