//! The feed parser: streams over the top-level document, hands each
//! `<item>`'s inner fragment to the item parser, collects the successes in
//! document order, and keeps a record of each failed item instead of
//! aborting the feed. Only broken top-level markup is fatal.

use vstd::prelude::*;
use crate::ascii::{LANGLE, RANGLE, SLASH};
use crate::episode::{Episode, EpisodeView, ItemError, DocumentError};
use crate::item::{item_name, item_pat, spec_parse_item, parse_item};
use crate::scan::{
    find_from, tag_is_close, tag_name, tag_self_closes, spec_find_close, find_byte,
    tag_name_range, range_matches, find_close_tag, lemma_find_from, lemma_find_close_bounds,
};
use vstd::slice::{slice_subrange, slice_to_vec};

verus! {

/// The inner ranges `(start, end)` of every `<item>` element from position
/// `i` on, in document order; `Err(off)` when the top-level markup itself is
/// broken (a `<` with no `>`, or an `<item>` that never closes), with the
/// byte offset where scanning stopped.
pub open spec fn spec_item_ranges(s: Seq<u8>, i: int) -> Result<Seq<(int, int)>, int>
    decreases s.len() - i,
    via spec_item_ranges_dec
{
    match find_from(s, i, LANGLE) {
        None => Ok(Seq::empty()),
        Some(lt) => match find_from(s, lt + 1, RANGLE) {
            None => Err(lt),
            Some(gt) => {
                if !tag_is_close(s, lt, gt) && !tag_self_closes(s, lt, gt) && tag_name(s, lt, gt)
                    == item_name() {
                    match spec_find_close(s, gt + 1, item_name()) {
                        Err(off) => Err(off),
                        Ok((clt, cgt)) => match spec_item_ranges(s, cgt + 1) {
                            Err(off) => Err(off),
                            Ok(rest) => Ok(seq![(gt + 1, clt)] + rest),
                        },
                    }
                } else {
                    spec_item_ranges(s, gt + 1)
                }
            },
        },
    }
}

#[via_fn]
proof fn spec_item_ranges_dec(s: Seq<u8>, i: int) {
    if i >= 0 {
        lemma_find_from(s, i, LANGLE);
        if let Some(lt) = find_from(s, i, LANGLE) {
            lemma_find_from(s, lt + 1, RANGLE);
            if let Some(gt) = find_from(s, lt + 1, RANGLE) {
                lemma_find_close_bounds(s, gt + 1, item_name());
            }
        }
    }
}

/// The fragments named by `ranges`, each as its own byte sequence.
pub open spec fn frags_of(s: Seq<u8>, ranges: Seq<(int, int)>) -> Seq<Seq<u8>>
    decreases ranges.len(),
{
    if ranges.len() == 0 {
        Seq::empty()
    } else {
        frags_of(s, ranges.drop_last()).push(
            s.subrange(ranges.last().0, ranges.last().1),
        )
    }
}

/// Splits fragments into parsed episodes and failure records, keeping
/// document order within each side.
pub open spec fn split_items(frags: Seq<Seq<u8>>) -> (Seq<EpisodeView>, Seq<(Seq<u8>, ItemError)>)
    decreases frags.len(),
{
    if frags.len() == 0 {
        (Seq::empty(), Seq::empty())
    } else {
        let rest = split_items(frags.drop_last());
        match spec_parse_item(frags.last()) {
            Ok(ev) => (rest.0.push(ev), rest.1),
            Err(e) => (rest.0, rest.1.push((frags.last(), e))),
        }
    }
}

/// Partial-failure containment: every item fragment lands on exactly one
/// side. Among N items of which M fail, the parse yields exactly N - M
/// episodes and M failure records; one bad item never displaces a good one
/// and never aborts the feed.
pub proof fn lemma_split_accounts_for_all(frags: Seq<Seq<u8>>)
    ensures
        split_items(frags).0.len() + split_items(frags).1.len() == frags.len(),
    decreases frags.len(),
{
    if frags.len() > 0 {
        lemma_split_accounts_for_all(frags.drop_last());
    }
}

/// The whole feed parse: the episodes of the items that parse and the
/// failure record of each item that does not, or the document-level error.
pub open spec fn spec_parse_feed(s: Seq<u8>) -> Result<
    (Seq<EpisodeView>, Seq<(Seq<u8>, ItemError)>),
    int,
> {
    match spec_item_ranges(s, 0) {
        Err(off) => Err(off),
        Ok(ranges) => Ok(split_items(frags_of(s, ranges))),
    }
}

/// One item that did not become an episode: its raw fragment and why.
pub struct FailureRecord {
    pub fragment: Vec<u8>,
    pub error: ItemError,
}

impl View for FailureRecord {
    type V = (Seq<u8>, ItemError);

    open spec fn view(&self) -> (Seq<u8>, ItemError) {
        (self.fragment@, self.error)
    }
}

/// What one run over the feed document produced: the episode sequence and
/// the per-item failures that were tolerated along the way.
pub struct FeedOutcome {
    pub episodes: Vec<Episode>,
    pub failures: Vec<FailureRecord>,
}

/// Parses the whole feed document. Episodes arrive in document order; a
/// failed item is recorded, never fatal; broken top-level markup is the one
/// fatal outcome, reported with its byte offset.
pub fn parse_rss(rss_xml: &Vec<u8>) -> (r: Result<FeedOutcome, DocumentError>)
    ensures
        match r {
            Ok(out) => spec_parse_feed(rss_xml@) matches Ok(pair)
                && out.episodes@.map_values(|e: Episode| e@) == pair.0
                && out.failures@.map_values(|f: FailureRecord| f@) == pair.1
                && (forall|k: int| 0 <= k < out.episodes@.len() ==> (#[trigger] out.episodes@[k]).wf()),
            Err(d) => spec_parse_feed(rss_xml@) == Err::<(Seq<EpisodeView>, Seq<(Seq<u8>, ItemError)>), int>(
                d.offset as int,
            ),
        },
{
    let item_p = item_pat();
    let s = rss_xml;
    let mut episodes: Vec<Episode> = Vec::new();
    let mut failures: Vec<FailureRecord> = Vec::new();
    let ghost mut acc: Seq<(int, int)> = Seq::empty();
    let mut pos: usize = 0;
    loop
        invariant_except_break
            s@ == rss_xml@,
            pos <= s@.len(),
            item_p@ == item_name(),
            spec_item_ranges(s@, 0) == (match spec_item_ranges(s@, pos as int) {
                Ok(rest) => Ok::<Seq<(int, int)>, int>(acc + rest),
                Err(off) => Err::<Seq<(int, int)>, int>(off),
            }),
            episodes@.map_values(|e: Episode| e@) == split_items(frags_of(s@, acc)).0,
            failures@.map_values(|f: FailureRecord| f@) == split_items(frags_of(s@, acc)).1,
            forall|k: int| 0 <= k < episodes@.len() ==> (#[trigger] episodes@[k]).wf(),
        ensures
            spec_item_ranges(s@, 0) == Ok::<Seq<(int, int)>, int>(acc),
            episodes@.map_values(|e: Episode| e@) == split_items(frags_of(s@, acc)).0,
            failures@.map_values(|f: FailureRecord| f@) == split_items(frags_of(s@, acc)).1,
            forall|k: int| 0 <= k < episodes@.len() ==> (#[trigger] episodes@[k]).wf(),
        decreases s@.len() - pos,
    {
        match find_byte(s, pos, LANGLE) {
            None => {
                proof {
                    assert(spec_item_ranges(s@, pos as int)
                        == Ok::<Seq<(int, int)>, int>(Seq::empty()));
                    assert(acc + Seq::<(int, int)>::empty() =~= acc);
                }
                break;
            },
            Some(lt) => {
                let slen = s.len();
                match find_byte(s, lt + 1, RANGLE) {
                    None => {
                        proof {
                            assert(spec_item_ranges(s@, pos as int)
                                == Err::<Seq<(int, int)>, int>(lt as int));
                        }
                        return Err(DocumentError { offset: lt });
                    },
                    Some(gt) => {
                        let close = lt + 1 < gt && s[lt + 1] == SLASH;
                        let selfc = !close && gt > lt + 1 && s[gt - 1] == SLASH;
                        let (ns, ne) = tag_name_range(s, lt, gt);
                        if !close && !selfc && range_matches(s, ns, ne, &item_p) {
                            match find_close_tag(s, gt + 1, &item_p) {
                                Err(off) => {
                                    proof {
                                        assert(spec_item_ranges(s@, pos as int)
                                            == Err::<Seq<(int, int)>, int>(off as int));
                                    }
                                    return Err(DocumentError { offset: off });
                                },
                                Ok((clt, cgt)) => {
                                    let frag = slice_to_vec(
                                        slice_subrange(s.as_slice(), gt + 1, clt),
                                    );
                                    let ghost acc0 = acc;
                                    let ghost rng = (gt + 1 as int, clt as int);
                                    let ghost eps0 = episodes@;
                                    let ghost fails0 = failures@;
                                    match parse_item(&frag) {
                                        Ok(e) => {
                                            episodes.push(e);
                                        },
                                        Err(err) => {
                                            failures.push(FailureRecord {
                                                fragment: frag,
                                                error: err,
                                            });
                                        },
                                    }
                                    proof {
                                        acc = acc0.push(rng);
                                        assert(acc.drop_last() =~= acc0);
                                        assert(frags_of(s@, acc) =~= frags_of(s@, acc0).push(
                                            s@.subrange(rng.0, rng.1),
                                        ));
                                        let frags1 = frags_of(s@, acc);
                                        assert(frags1.drop_last() =~= frags_of(s@, acc0));
                                        assert(frags1.last() == s@.subrange(rng.0, rng.1));
                                        match spec_parse_item(s@.subrange(rng.0, rng.1)) {
                                            Ok(ev) => {
                                                assert(episodes@ =~= eps0.push(
                                                    episodes@[eps0.len() as int],
                                                ));
                                                assert(episodes@.map_values(|e: Episode| e@)
                                                    =~= eps0.map_values(|e: Episode| e@).push(ev));
                                                assert(failures@.map_values(
                                                    |f: FailureRecord| f@,
                                                ) =~= fails0.map_values(|f: FailureRecord| f@));
                                            },
                                            Err(err2) => {
                                                assert(failures@ =~= fails0.push(
                                                    failures@[fails0.len() as int],
                                                ));
                                                assert(failures@.map_values(
                                                    |f: FailureRecord| f@,
                                                ) =~= fails0.map_values(|f: FailureRecord| f@).push(
                                                    (s@.subrange(rng.0, rng.1), err2),
                                                ));
                                                assert(episodes@.map_values(|e: Episode| e@)
                                                    =~= eps0.map_values(|e: Episode| e@));
                                            },
                                        }
                                        match spec_item_ranges(s@, cgt + 1 as int) {
                                            Ok(rest) => {
                                                assert(acc0 + (seq![rng] + rest) =~= acc + rest);
                                            },
                                            Err(_) => {},
                                        }
                                    }
                                    pos = cgt + 1;
                                },
                            }
                        } else {
                            proof {
                                assert(spec_item_ranges(s@, pos as int)
                                    == spec_item_ranges(s@, gt + 1 as int));
                            }
                            pos = gt + 1;
                        }
                    },
                }
            },
        }
    }
    Ok(FeedOutcome { episodes, failures })
}

} // verus!
