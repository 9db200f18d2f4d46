//! The episode record and the failure taxonomy of the feed pipeline.

use vstd::prelude::*;

verus! {

/// Mathematical view of an episode: its fields as plain sequences and an
/// unbounded integer timestamp.
pub ghost struct EpisodeView {
    pub url: Seq<u8>,
    pub title: Seq<u8>,
    pub published_at: int,
    pub raw_xml: Seq<u8>,
}

/// One feed entry: media URL, title, publish timestamp (Unix seconds of the
/// timezone-naive local date-time), and the raw `<item>` fragment kept for
/// diagnostics. Immutable once constructed; `url` and `title` are non-empty.
#[derive(Clone, Debug)]
pub struct Episode {
    pub url: Vec<u8>,
    pub title: Vec<u8>,
    pub published_at: i64,
    pub raw_xml: Vec<u8>,
}

impl View for Episode {
    type V = EpisodeView;

    open spec fn view(&self) -> EpisodeView {
        EpisodeView {
            url: self.url@,
            title: self.title@,
            published_at: self.published_at as int,
            raw_xml: self.raw_xml@,
        }
    }
}

impl Episode {
    /// A well-formed episode has a non-empty URL and a non-empty title.
    pub open spec fn wf(self) -> bool {
        self.url@.len() > 0 && self.title@.len() > 0
    }
}

/// Why one `<item>` fragment did not become an episode.
#[derive(Clone, Copy, Debug, PartialEq, Eq, Structural)]
pub enum ItemError {
    /// The fragment was scanned to its end, but a required field never
    /// appeared (or was empty). Each flag marks one absent field.
    Missing { title: bool, pub_date: bool, enclosure: bool },
    /// The publish-date text is not a valid RFC 2822 date-time; `offset` is
    /// the byte offset of the date element within the fragment.
    BadDate { offset: usize },
    /// The fragment's own markup is broken (an unclosed tag or a malformed
    /// attribute); `offset` is the byte offset where scanning stopped.
    Malformed { offset: usize },
}

/// A top-level defect of the feed document, fatal to the whole parse.
#[derive(Clone, Copy, Debug, PartialEq, Eq, Structural)]
pub struct DocumentError {
    /// Byte offset in the document where scanning stopped.
    pub offset: usize,
}

impl Episode {
    /// Builder with required fields: assembles an episode only when every
    /// field is present and non-empty; otherwise reports, as one unit, the
    /// full set of fields that are missing.
    pub fn from_parts(
        title: Option<Vec<u8>>,
        published_at: Option<i64>,
        url: Option<Vec<u8>>,
        raw_xml: Vec<u8>,
    ) -> (r: Result<Episode, ItemError>)
        ensures
            r matches Ok(e) ==> {
                &&& title matches Some(t) && e.title == t && t@.len() > 0
                &&& published_at matches Some(p) && e.published_at == p
                &&& url matches Some(u) && e.url == u && u@.len() > 0
                &&& e.raw_xml == raw_xml
                &&& e.wf()
            },
            r matches Err(err) ==> err == (ItemError::Missing {
                title: !(title matches Some(t) && t@.len() > 0),
                pub_date: published_at is None,
                enclosure: !(url matches Some(u) && u@.len() > 0),
            }),
            (r is Ok) == {
                &&& title matches Some(t) && t@.len() > 0
                &&& published_at is Some
                &&& url matches Some(u) && u@.len() > 0
            },
    {
        let title_ok = match &title {
            Some(t) => t.len() > 0,
            None => false,
        };
        let url_ok = match &url {
            Some(u) => u.len() > 0,
            None => false,
        };
        let date_ok = published_at.is_some();
        if title_ok && date_ok && url_ok {
            match (title, published_at, url) {
                (Some(t), Some(p), Some(u)) => Ok(Episode {
                    url: u,
                    title: t,
                    published_at: p,
                    raw_xml: raw_xml,
                }),
                _ => {
                    assert(false);
                    Err(ItemError::Missing { title: true, pub_date: true, enclosure: true })
                },
            }
        } else {
            Err(ItemError::Missing {
                title: !title_ok,
                pub_date: !date_ok,
                enclosure: !url_ok,
            })
        }
    }
}

} // verus!
