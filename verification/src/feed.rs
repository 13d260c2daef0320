//! Feed data: raw entries as the parser yields them, finished items, and
//! the trusted call into the RSS parser.

use vstd::prelude::*;

verus! {

/// A channel entry as parsed: the title and the enclosure URL may each be
/// absent.
pub struct RawEntry {
    pub title: Option<String>,
    pub url: Option<String>,
}

/// Mathematical value of a raw entry.
pub struct RawEntryView {
    pub title: Option<Seq<char>>,
    pub url: Option<Seq<char>>,
}

impl View for RawEntry {
    type V = RawEntryView;

    open spec fn view(&self) -> RawEntryView {
        RawEntryView {
            title: match self.title {
                Some(t) => Some(t@),
                None => None,
            },
            url: match self.url {
                Some(u) => Some(u@),
                None => None,
            },
        }
    }
}

/// An item ready for selection and download: a present title and a present
/// enclosure URL.
pub struct FeedItem {
    pub title: String,
    pub url: String,
}

/// Mathematical value of a feed item.
pub struct FeedItemView {
    pub title: Seq<char>,
    pub url: Seq<char>,
}

impl View for FeedItem {
    type V = FeedItemView;

    open spec fn view(&self) -> FeedItemView {
        FeedItemView { title: self.title@, url: self.url@ }
    }
}

impl Clone for FeedItem {
    fn clone(&self) -> (r: FeedItem)
        ensures
            r@ == self@,
    {
        FeedItem { title: self.title.clone(), url: self.url.clone() }
    }
}

/// The values of a sequence of raw entries.
pub open spec fn entries_view(v: Seq<RawEntry>) -> Seq<RawEntryView> {
    v.map_values(|e: RawEntry| e@)
}

/// The values of a sequence of feed items.
pub open spec fn items_view(v: Seq<FeedItem>) -> Seq<FeedItemView> {
    v.map_values(|it: FeedItem| it@)
}

/// The feed bytes did not parse as an RSS channel.
#[derive(Debug, PartialEq, Eq, Structural)]
pub struct ParseError;

/// What the RSS parser yields for given bytes, each channel item projected
/// to its title and its enclosure's URL: parsing is a function of the bytes
/// alone.
pub uninterp spec fn rss_entries(bytes: Seq<u8>) -> Seq<RawEntryView>;

/// Whether the RSS parser accepts given bytes as a well-formed channel:
/// acceptance, too, is a function of the bytes alone.
pub uninterp spec fn rss_parses(bytes: Seq<u8>) -> bool;

#[verifier::external_type_specification]
#[verifier::external_body]
pub struct ExRssError(rss::Error);

/// Relies on `rss::Channel::read_from`: it parses the bytes into a channel
/// whose items carry an optional title and an optional enclosure with a URL,
/// and fails exactly on input that is not a well-formed RSS channel; reading
/// from a byte slice, it depends on nothing but the bytes.
#[verifier::external_body]
fn parse_rss(bytes: &[u8]) -> (r: Result<Vec<RawEntry>, rss::Error>)
    ensures
        r is Ok <==> rss_parses(bytes@),
        r matches Ok(v) ==> entries_view(v@) == rss_entries(bytes@),
{
    match rss::Channel::read_from(bytes) {
        Ok(ch) => Ok(
            ch.items.into_iter().map(
                |it| RawEntry { title: it.title, url: it.enclosure.map(|e| e.url) },
            ).collect(),
        ),
        Err(e) => Err(e),
    }
}

/// Parses feed bytes into the channel's raw entries; succeeds exactly when
/// the parser accepts the bytes, and fails with `ParseError` otherwise.
pub fn parse_feed(bytes: &[u8]) -> (r: Result<Vec<RawEntry>, ParseError>)
    ensures
        r is Ok <==> rss_parses(bytes@),
        r matches Ok(v) ==> entries_view(v@) == rss_entries(bytes@),
{
    match parse_rss(bytes) {
        Ok(v) => Ok(v),
        Err(_) => Err(ParseError),
    }
}

} // verus!
