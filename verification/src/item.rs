//! The item parser: one `<item>` fragment in, one episode or one structured
//! failure out.
//!
//! The fragment is scanned tag by tag in document order. Three elements are
//! recognized by name — a `title` element (its text), a `pubDate` element
//! (its text, read as an RFC 2822 date-time), and an `enclosure` element (its
//! `url` attribute, with the five standard XML entities unescaped). Every
//! other element is skipped. When the fragment is exhausted, the episode is
//! assembled only if all three fields were found; otherwise the failure names
//! the absent fields as one unit.

use vstd::prelude::*;
use crate::ascii::{LANGLE, RANGLE, SLASH, AMP, SEMI, EQUALS, DQUOTE, SQUOTE};
use crate::episode::{Episode, EpisodeView, ItemError};
use crate::scan::{
    find_from, find_before, ws_from, key_end, delim_from, tag_is_close, tag_name,
    tag_self_closes, spec_find_close, find_byte, find_byte_before, skip_ws, scan_key_end,
    scan_delim, tag_name_range, range_matches, find_close_tag, lemma_find_from,
    lemma_find_before, lemma_ws_from, lemma_key_end,
    lemma_find_close_bounds,
};
use vstd::slice::{slice_subrange, slice_to_vec};

verus! {

// ---- recognized names, as byte sequences ----

/// `item`
pub open spec fn item_name() -> Seq<u8> {
    seq![105u8, 116u8, 101u8, 109u8]
}

/// `title`
pub open spec fn title_name() -> Seq<u8> {
    seq![116u8, 105u8, 116u8, 108u8, 101u8]
}

/// `pubDate`
pub open spec fn pubdate_name() -> Seq<u8> {
    seq![112u8, 117u8, 98u8, 68u8, 97u8, 116u8, 101u8]
}

/// `enclosure`
pub open spec fn enclosure_name() -> Seq<u8> {
    seq![101u8, 110u8, 99u8, 108u8, 111u8, 115u8, 117u8, 114u8, 101u8]
}

/// `url`
pub open spec fn url_key() -> Seq<u8> {
    seq![117u8, 114u8, 108u8]
}

/// The `item` name as a vector, for byte comparison.
pub fn item_pat() -> (r: Vec<u8>)
    ensures
        r@ == item_name(),
{
    let mut v: Vec<u8> = Vec::new();
    v.push(105);
    v.push(116);
    v.push(101);
    v.push(109);
    proof {
        assert(v@ =~= item_name());
    }
    v
}

fn title_pat() -> (r: Vec<u8>)
    ensures
        r@ == title_name(),
{
    let mut v: Vec<u8> = Vec::new();
    v.push(116);
    v.push(105);
    v.push(116);
    v.push(108);
    v.push(101);
    proof {
        assert(v@ =~= title_name());
    }
    v
}

fn pubdate_pat() -> (r: Vec<u8>)
    ensures
        r@ == pubdate_name(),
{
    let mut v: Vec<u8> = Vec::new();
    v.push(112);
    v.push(117);
    v.push(98);
    v.push(68);
    v.push(97);
    v.push(116);
    v.push(101);
    proof {
        assert(v@ =~= pubdate_name());
    }
    v
}

fn enclosure_pat() -> (r: Vec<u8>)
    ensures
        r@ == enclosure_name(),
{
    let mut v: Vec<u8> = Vec::new();
    v.push(101);
    v.push(110);
    v.push(99);
    v.push(108);
    v.push(111);
    v.push(115);
    v.push(117);
    v.push(114);
    v.push(101);
    proof {
        assert(v@ =~= enclosure_name());
    }
    v
}

fn url_pat() -> (r: Vec<u8>)
    ensures
        r@ == url_key(),
{
    let mut v: Vec<u8> = Vec::new();
    v.push(117);
    v.push(114);
    v.push(108);
    proof {
        assert(v@ =~= url_key());
    }
    v
}

// ---- entity unescaping (the five standard XML entities) ----

/// `amp` -> `&`, `lt` -> `<`, `gt` -> `>`, `quot` -> `"`, `apos` -> `'`.
pub open spec fn entity_of(e: Seq<u8>) -> Option<u8> {
    if e == seq![97u8, 109u8, 112u8] {
        Some(AMP)
    } else if e == seq![108u8, 116u8] {
        Some(LANGLE)
    } else if e == seq![103u8, 116u8] {
        Some(RANGLE)
    } else if e == seq![113u8, 117u8, 111u8, 116u8] {
        Some(DQUOTE)
    } else if e == seq![97u8, 112u8, 111u8, 115u8] {
        Some(SQUOTE)
    } else {
        None
    }
}

/// Unescaped form of `v` from position `i` on: plain bytes pass through, an
/// `&name;` reference becomes its entity byte, and a dangling `&` or an
/// unknown entity is an error.
pub open spec fn spec_unescape_from(v: Seq<u8>, i: int) -> Result<Seq<u8>, ()>
    decreases v.len() - i,
    via spec_unescape_from_dec
{
    if i < 0 || i >= v.len() {
        Ok(Seq::empty())
    } else if v[i] != AMP {
        match spec_unescape_from(v, i + 1) {
            Ok(r) => Ok(seq![v[i]] + r),
            Err(e) => Err(e),
        }
    } else {
        match find_from(v, i + 1, SEMI) {
            None => Err(()),
            Some(sc) => match entity_of(v.subrange(i + 1, sc)) {
                None => Err(()),
                Some(b) => match spec_unescape_from(v, sc + 1) {
                    Ok(r) => Ok(seq![b] + r),
                    Err(e) => Err(e),
                },
            },
        }
    }
}

#[via_fn]
proof fn spec_unescape_from_dec(v: Seq<u8>, i: int) {
    if 0 <= i < v.len() && v[i] == AMP {
        lemma_find_from(v, i + 1, SEMI);
    }
}

/// Unescaped form of a whole attribute value.
pub open spec fn spec_unescape(v: Seq<u8>) -> Result<Seq<u8>, ()> {
    spec_unescape_from(v, 0)
}

/// Replaces the five standard entity references in `v`, or reports a
/// malformed reference.
pub fn unescape(v: &Vec<u8>) -> (r: Result<Vec<u8>, ()>)
    ensures
        match r {
            Ok(u) => spec_unescape(v@) == Ok::<Seq<u8>, ()>(u@),
            Err(_) => spec_unescape(v@) is Err,
        },
{
    let amp_p = {
        let mut p: Vec<u8> = Vec::new();
        p.push(97);
        p.push(109);
        p.push(112);
        p
    };
    let lt_p = {
        let mut p: Vec<u8> = Vec::new();
        p.push(108);
        p.push(116);
        p
    };
    let gt_p = {
        let mut p: Vec<u8> = Vec::new();
        p.push(103);
        p.push(116);
        p
    };
    let quot_p = {
        let mut p: Vec<u8> = Vec::new();
        p.push(113);
        p.push(117);
        p.push(111);
        p.push(116);
        p
    };
    let apos_p = {
        let mut p: Vec<u8> = Vec::new();
        p.push(97);
        p.push(112);
        p.push(111);
        p.push(115);
        p
    };
    proof {
        assert(amp_p@ =~= seq![97u8, 109u8, 112u8]);
        assert(lt_p@ =~= seq![108u8, 116u8]);
        assert(gt_p@ =~= seq![103u8, 116u8]);
        assert(quot_p@ =~= seq![113u8, 117u8, 111u8, 116u8]);
        assert(apos_p@ =~= seq![97u8, 112u8, 111u8, 115u8]);
    }
    let mut out: Vec<u8> = Vec::new();
    let mut pos: usize = 0;
    loop
        invariant_except_break
            pos <= v@.len(),
            spec_unescape(v@) == (match spec_unescape_from(v@, pos as int) {
                Ok(r) => Ok::<Seq<u8>, ()>(out@ + r),
                Err(e) => Err::<Seq<u8>, ()>(e),
            }),
            amp_p@ == seq![97u8, 109u8, 112u8],
            lt_p@ == seq![108u8, 116u8],
            gt_p@ == seq![103u8, 116u8],
            quot_p@ == seq![113u8, 117u8, 111u8, 116u8],
            apos_p@ == seq![97u8, 112u8, 111u8, 115u8],
        ensures
            spec_unescape(v@) == Ok::<Seq<u8>, ()>(out@),
        decreases v@.len() - pos,
    {
        if pos >= v.len() {
            proof {
                assert(spec_unescape_from(v@, pos as int) == Ok::<Seq<u8>, ()>(Seq::empty()));
                assert(out@ + Seq::<u8>::empty() =~= out@);
            }
            break;
        }
        let b = v[pos];
        if b != AMP {
            let ghost out0 = out@;
            out.push(b);
            proof {
                assert(out@ =~= out0 + seq![b]);
                match spec_unescape_from(v@, pos + 1 as int) {
                    Ok(r) => {
                        assert(out0 + (seq![b] + r) =~= out@ + r);
                    },
                    Err(_) => {},
                }
            }
            pos = pos + 1;
        } else {
            match find_byte(v, pos + 1, SEMI) {
                None => {
                    return Err(());
                },
                Some(sc) => {
                    let mapped: Option<u8> = if range_matches(v, pos + 1, sc, &amp_p) {
                        Some(AMP)
                    } else if range_matches(v, pos + 1, sc, &lt_p) {
                        Some(LANGLE)
                    } else if range_matches(v, pos + 1, sc, &gt_p) {
                        Some(RANGLE)
                    } else if range_matches(v, pos + 1, sc, &quot_p) {
                        Some(DQUOTE)
                    } else if range_matches(v, pos + 1, sc, &apos_p) {
                        Some(SQUOTE)
                    } else {
                        None
                    };
                    proof {
                        assert(entity_of(v@.subrange(pos + 1 as int, sc as int)) == mapped);
                    }
                    match mapped {
                        None => {
                            return Err(());
                        },
                        Some(eb) => {
                            let ghost out0 = out@;
                            out.push(eb);
                            proof {
                                assert(out@ =~= out0 + seq![eb]);
                                match spec_unescape_from(v@, sc + 1 as int) {
                                    Ok(r) => {
                                        assert(out0 + (seq![eb] + r) =~= out@ + r);
                                    },
                                    Err(_) => {},
                                }
                            }
                            pos = sc + 1;
                        },
                    }
                },
            }
        }
    }
    Ok(out)
}

// ---- the enclosure's url attribute ----

/// Scans `name="value"` attributes in `[i, end)` and yields the unescaped
/// value of the last `url` attribute, `None` when there is none, or an error
/// for malformed attribute syntax or a bad entity reference.
pub open spec fn spec_url_attr(s: Seq<u8>, i: int, end: int) -> Result<Option<Seq<u8>>, ()>
    decreases end - i,
    via spec_url_attr_dec
{
    let j = ws_from(s, i, end);
    if j >= end {
        Ok(None)
    } else {
        let ke = key_end(s, j, end);
        let eq = ws_from(s, ke, end);
        if eq >= end || s[eq] != EQUALS {
            Err(())
        } else {
            let vq = ws_from(s, eq + 1, end);
            if vq >= end || (s[vq] != DQUOTE && s[vq] != SQUOTE) {
                Err(())
            } else {
                match find_before(s, vq + 1, end, s[vq]) {
                    None => Err(()),
                    Some(cq) => {
                        let rest = spec_url_attr(s, cq + 1, end);
                        if s.subrange(j, ke) == url_key() {
                            match spec_unescape(s.subrange(vq + 1, cq)) {
                                Err(e) => Err(e),
                                Ok(u) => match rest {
                                    Err(e2) => Err(e2),
                                    Ok(Some(u2)) => Ok(Some(u2)),
                                    Ok(None) => Ok(Some(u)),
                                },
                            }
                        } else {
                            rest
                        }
                    },
                }
            }
        }
    }
}

#[via_fn]
proof fn spec_url_attr_dec(s: Seq<u8>, i: int, end: int) {
    if 0 <= i && i <= end {
        lemma_ws_from(s, i, end);
        let j = ws_from(s, i, end);
        if j < end {
            lemma_key_end(s, j, end);
            let ke = key_end(s, j, end);
            lemma_ws_from(s, ke, end);
            let eq = ws_from(s, ke, end);
            if eq < end && s[eq] == EQUALS {
                lemma_ws_from(s, eq + 1, end);
                let vq = ws_from(s, eq + 1, end);
                if vq < end && (s[vq] == DQUOTE || s[vq] == SQUOTE) {
                    lemma_find_before(s, vq + 1, end, s[vq]);
                }
            }
        }
    }
}

/// Scans the attribute region of an `enclosure` tag for its `url` value.
pub fn scan_url_attr(s: &Vec<u8>, from: usize, end: usize) -> (r: Result<Option<Vec<u8>>, ()>)
    requires
        from <= end <= s@.len(),
    ensures
        match r {
            Ok(Some(u)) => spec_url_attr(s@, from as int, end as int)
                == Ok::<Option<Seq<u8>>, ()>(Some(u@)),
            Ok(None) => spec_url_attr(s@, from as int, end as int)
                == Ok::<Option<Seq<u8>>, ()>(None),
            Err(_) => spec_url_attr(s@, from as int, end as int) is Err,
        },
{
    let url_p = url_pat();
    let mut cur: Option<Vec<u8>> = None;
    let mut pos = from;
    loop
        invariant_except_break
            from <= pos <= end <= s@.len(),
            url_p@ == url_key(),
            spec_url_attr(s@, from as int, end as int) == (match spec_url_attr(
                s@,
                pos as int,
                end as int,
            ) {
                Err(e) => Err::<Option<Seq<u8>>, ()>(e),
                Ok(Some(u2)) => Ok::<Option<Seq<u8>>, ()>(Some(u2)),
                Ok(None) => Ok::<Option<Seq<u8>>, ()>(match cur {
                    Some(u) => Some(u@),
                    None => None,
                }),
            }),
        ensures
            match cur {
                Some(u) => spec_url_attr(s@, from as int, end as int)
                    == Ok::<Option<Seq<u8>>, ()>(Some(u@)),
                None => spec_url_attr(s@, from as int, end as int)
                    == Ok::<Option<Seq<u8>>, ()>(None),
            },
        decreases end - pos,
    {
        let j = skip_ws(s, pos, end);
        if j >= end {
            break;
        }
        let ke = scan_key_end(s, j, end);
        let eq = skip_ws(s, ke, end);
        if eq >= end || s[eq] != EQUALS {
            return Err(());
        }
        let vq = skip_ws(s, eq + 1, end);
        if vq >= end {
            return Err(());
        }
        let q = s[vq];
        if q != DQUOTE && q != SQUOTE {
            return Err(());
        }
        match find_byte_before(s, vq + 1, end, q) {
            None => {
                return Err(());
            },
            Some(cq) => {
                if range_matches(s, j, ke, &url_p) {
                    let raw = slice_to_vec(slice_subrange(s.as_slice(), vq + 1, cq));
                    match unescape(&raw) {
                        Err(_) => {
                            return Err(());
                        },
                        Ok(u) => {
                            cur = Some(u);
                        },
                    }
                }
                pos = cq + 1;
            },
        }
    }
    match cur {
        Some(u) => Ok(Some(u)),
        None => Ok(None),
    }
}

// ---- the publish date ----

/// What chrono's RFC 2822 parser yields for these bytes, normalized to the
/// Unix timestamp of the timezone-naive local date-time; `None` when the
/// bytes are not UTF-8 or not a valid RFC 2822 date-time. A function of the
/// bytes alone.
pub uninterp spec fn rfc2822_local_timestamp(s: Seq<u8>) -> Option<i64>;

/// Relies on chrono's `DateTime::parse_from_rfc2822` to read an RFC 2822
/// date-time; the offset's wall-clock date-time (`naive_local`) is read as a
/// Unix timestamp. The result depends on the input bytes alone.
#[verifier::external_body]
fn parse_date_time(s: &Vec<u8>) -> (r: Option<i64>)
    ensures
        r == rfc2822_local_timestamp(s@),
{
    match core::str::from_utf8(s.as_slice()) {
        Ok(text) => match chrono::DateTime::parse_from_rfc2822(text) {
            Ok(dt) => Some(dt.naive_local().and_utc().timestamp()),
            Err(_) => None,
        },
        Err(_) => None,
    }
}

// ---- the fragment scan ----

/// The optional fields collected while scanning one fragment.
pub ghost struct ItemFields {
    pub title: Option<Seq<u8>>,
    pub pub_ts: Option<i64>,
    pub url: Option<Seq<u8>>,
}

/// No field collected yet.
pub open spec fn empty_fields() -> ItemFields {
    ItemFields { title: None, pub_ts: None, url: None }
}

/// The view of the scanner's executable state.
pub open spec fn fields_view(
    title: Option<Vec<u8>>,
    pub_ts: Option<i64>,
    url: Option<Vec<u8>>,
) -> ItemFields {
    ItemFields {
        title: match title {
            Some(t) => Some(t@),
            None => None,
        },
        pub_ts: pub_ts,
        url: match url {
            Some(u) => Some(u@),
            None => None,
        },
    }
}

/// One pass over the fragment from position `i`, folding recognized elements
/// into the field state. Later occurrences of an element overwrite earlier
/// ones. Close tags and unrecognized elements are skipped. A `<` with no
/// closing `>`, an unclosed recognized element, or a malformed attribute
/// list stops the scan with a failure.
pub open spec fn spec_scan_item(s: Seq<u8>, i: int, st: ItemFields) -> Result<ItemFields, ItemError>
    decreases s.len() - i,
    via spec_scan_item_dec
{
    match find_from(s, i, LANGLE) {
        None => Ok(st),
        Some(lt) => match find_from(s, lt + 1, RANGLE) {
            None => Err(ItemError::Malformed { offset: lt as usize }),
            Some(gt) => {
                if tag_is_close(s, lt, gt) {
                    spec_scan_item(s, gt + 1, st)
                } else if tag_name(s, lt, gt) == title_name() {
                    if tag_self_closes(s, lt, gt) {
                        spec_scan_item(s, gt + 1, ItemFields { title: Some(Seq::empty()), ..st })
                    } else {
                        match spec_find_close(s, gt + 1, title_name()) {
                            Err(_) => Err(ItemError::Malformed { offset: lt as usize }),
                            Ok((clt, cgt)) => spec_scan_item(
                                s,
                                cgt + 1,
                                ItemFields { title: Some(s.subrange(gt + 1, clt)), ..st },
                            ),
                        }
                    }
                } else if tag_name(s, lt, gt) == pubdate_name() {
                    if tag_self_closes(s, lt, gt) {
                        match rfc2822_local_timestamp(Seq::empty()) {
                            None => Err(ItemError::BadDate { offset: lt as usize }),
                            Some(ts) => spec_scan_item(
                                s,
                                gt + 1,
                                ItemFields { pub_ts: Some(ts), ..st },
                            ),
                        }
                    } else {
                        match spec_find_close(s, gt + 1, pubdate_name()) {
                            Err(_) => Err(ItemError::Malformed { offset: lt as usize }),
                            Ok((clt, cgt)) => match rfc2822_local_timestamp(
                                s.subrange(gt + 1, clt),
                            ) {
                                None => Err(ItemError::BadDate { offset: lt as usize }),
                                Some(ts) => spec_scan_item(
                                    s,
                                    cgt + 1,
                                    ItemFields { pub_ts: Some(ts), ..st },
                                ),
                            },
                        }
                    }
                } else if tag_name(s, lt, gt) == enclosure_name() {
                    let aend = if tag_self_closes(s, lt, gt) {
                        gt - 1
                    } else {
                        gt
                    };
                    match spec_url_attr(s, delim_from(s, lt + 1, aend), aend) {
                        Err(_) => Err(ItemError::Malformed { offset: lt as usize }),
                        Ok(None) => spec_scan_item(s, gt + 1, st),
                        Ok(Some(u)) => spec_scan_item(s, gt + 1, ItemFields { url: Some(u), ..st }),
                    }
                } else {
                    spec_scan_item(s, gt + 1, st)
                }
            },
        },
    }
}

#[via_fn]
proof fn spec_scan_item_dec(s: Seq<u8>, i: int, st: ItemFields) {
    if i >= 0 {
        lemma_find_from(s, i, LANGLE);
        if let Some(lt) = find_from(s, i, LANGLE) {
            lemma_find_from(s, lt + 1, RANGLE);
            if let Some(gt) = find_from(s, lt + 1, RANGLE) {
                lemma_find_close_bounds(s, gt + 1, title_name());
                lemma_find_close_bounds(s, gt + 1, pubdate_name());
            }
        }
    }
}

/// What one fragment means: the scan's fields assembled into an episode when
/// all of them were found non-empty, or the failure that stopped or ended
/// the scan. The fragment itself is retained as the episode's raw form.
pub open spec fn spec_parse_item(s: Seq<u8>) -> Result<EpisodeView, ItemError> {
    match spec_scan_item(s, 0, empty_fields()) {
        Err(e) => Err(e),
        Ok(st) => {
            let title_ok = st.title matches Some(t) && t.len() > 0;
            let url_ok = st.url matches Some(u) && u.len() > 0;
            if title_ok && st.pub_ts is Some && url_ok {
                Ok(EpisodeView {
                    url: st.url->Some_0,
                    title: st.title->Some_0,
                    published_at: st.pub_ts->Some_0 as int,
                    raw_xml: s,
                })
            } else {
                Err(ItemError::Missing {
                    title: !title_ok,
                    pub_date: st.pub_ts is None,
                    enclosure: !url_ok,
                })
            }
        },
    }
}

/// Parses one `<item>` fragment into an episode, or reports why it is not
/// one: broken markup, a bad publish date, or missing fields.
pub fn parse_item(fragment: &Vec<u8>) -> (r: Result<Episode, ItemError>)
    ensures
        match spec_parse_item(fragment@) {
            Ok(ev) => r matches Ok(e) && e@ == ev && e.wf(),
            Err(err) => r matches Err(e2) && e2 == err,
        },
{
    let title_p = title_pat();
    let pubdate_p = pubdate_pat();
    let enclosure_p = enclosure_pat();
    let s = fragment;
    let mut title: Option<Vec<u8>> = None;
    let mut pub_ts: Option<i64> = None;
    let mut url: Option<Vec<u8>> = None;
    let mut pos: usize = 0;
    loop
        invariant_except_break
            s@ == fragment@,
            pos <= s@.len(),
            title_p@ == title_name(),
            pubdate_p@ == pubdate_name(),
            enclosure_p@ == enclosure_name(),
            spec_scan_item(s@, 0, empty_fields()) == spec_scan_item(
                s@,
                pos as int,
                fields_view(title, pub_ts, url),
            ),
        ensures
            spec_scan_item(s@, 0, empty_fields()) == Ok::<ItemFields, ItemError>(
                fields_view(title, pub_ts, url),
            ),
        decreases s@.len() - pos,
    {
        let slen = s.len();
        match find_byte(s, pos, LANGLE) {
            None => {
                break;
            },
            Some(lt) => {
                match find_byte(s, lt + 1, RANGLE) {
                    None => {
                        proof {
                            assert(spec_scan_item(s@, pos as int, fields_view(title, pub_ts, url))
                                == Err::<ItemFields, ItemError>(
                                    ItemError::Malformed { offset: lt as usize },
                                ));
                        }
                        return Err(ItemError::Malformed { offset: lt });
                    },
                    Some(gt) => {
                        let ghost fv0 = fields_view(title, pub_ts, url);
                        let close = lt + 1 < gt && s[lt + 1] == SLASH;
                        if close {
                            proof {
                                assert(spec_scan_item(s@, pos as int, fv0)
                                    == spec_scan_item(s@, gt + 1 as int, fv0));
                            }
                            pos = gt + 1;
                        } else {
                            let (ns, ne) = tag_name_range(s, lt, gt);
                            let selfc = gt > lt + 1 && s[gt - 1] == SLASH;
                            if range_matches(s, ns, ne, &title_p) {
                                if selfc {
                                    title = Some(Vec::new());
                                    proof {
                                        assert(fields_view(title, pub_ts, url)
                                            == (ItemFields { title: Some(Seq::<u8>::empty()), ..fv0 }));
                                        assert(spec_scan_item(s@, pos as int, fv0)
                                            == spec_scan_item(
                                                s@,
                                                gt + 1 as int,
                                                fields_view(title, pub_ts, url),
                                            ));
                                    }
                                    pos = gt + 1;
                                } else {
                                    match find_close_tag(s, gt + 1, &title_p) {
                                        Err(_) => {
                                            proof {
                                                assert(spec_scan_item(s@, pos as int, fv0)
                                                    == Err::<ItemFields, ItemError>(
                                                        ItemError::Malformed { offset: lt as usize },
                                                    ));
                                            }
                                            return Err(ItemError::Malformed { offset: lt });
                                        },
                                        Ok((clt, cgt)) => {
                                            let text = slice_to_vec(
                                                slice_subrange(s.as_slice(), gt + 1, clt),
                                            );
                                            title = Some(text);
                                            proof {
                                                assert(fields_view(title, pub_ts, url) == (ItemFields {
                                                    title: Some(s@.subrange(gt + 1 as int, clt as int)),
                                                    ..fv0
                                                }));
                                                assert(spec_scan_item(s@, pos as int, fv0)
                                                    == spec_scan_item(
                                                        s@,
                                                        cgt + 1 as int,
                                                        fields_view(title, pub_ts, url),
                                                    ));
                                            }
                                            pos = cgt + 1;
                                        },
                                    }
                                }
                            } else if range_matches(s, ns, ne, &pubdate_p) {
                                if selfc {
                                    let text: Vec<u8> = Vec::new();
                                    match parse_date_time(&text) {
                                        None => {
                                            proof {
                                                assert(spec_scan_item(s@, pos as int, fv0)
                                                    == Err::<ItemFields, ItemError>(
                                                        ItemError::BadDate { offset: lt as usize },
                                                    ));
                                            }
                                            return Err(ItemError::BadDate { offset: lt });
                                        },
                                        Some(ts) => {
                                            pub_ts = Some(ts);
                                            proof {
                                                assert(fields_view(title, pub_ts, url)
                                                    == (ItemFields { pub_ts: Some(ts), ..fv0 }));
                                                assert(spec_scan_item(s@, pos as int, fv0)
                                                    == spec_scan_item(
                                                        s@,
                                                        gt + 1 as int,
                                                        fields_view(title, pub_ts, url),
                                                    ));
                                            }
                                            pos = gt + 1;
                                        },
                                    }
                                } else {
                                    match find_close_tag(s, gt + 1, &pubdate_p) {
                                        Err(_) => {
                                            proof {
                                                assert(spec_scan_item(s@, pos as int, fv0)
                                                    == Err::<ItemFields, ItemError>(
                                                        ItemError::Malformed { offset: lt as usize },
                                                    ));
                                            }
                                            return Err(ItemError::Malformed { offset: lt });
                                        },
                                        Ok((clt, cgt)) => {
                                            let text = slice_to_vec(
                                                slice_subrange(s.as_slice(), gt + 1, clt),
                                            );
                                            match parse_date_time(&text) {
                                                None => {
                                                    proof {
                                                        assert(spec_scan_item(s@, pos as int, fv0)
                                                            == Err::<ItemFields, ItemError>(
                                                                ItemError::BadDate { offset: lt as usize },
                                                            ));
                                                    }
                                                    return Err(ItemError::BadDate { offset: lt });
                                                },
                                                Some(ts) => {
                                                    pub_ts = Some(ts);
                                                    proof {
                                                        assert(fields_view(title, pub_ts, url)
                                                            == (ItemFields { pub_ts: Some(ts), ..fv0 }));
                                                        assert(spec_scan_item(s@, pos as int, fv0)
                                                            == spec_scan_item(
                                                                s@,
                                                                cgt + 1 as int,
                                                                fields_view(title, pub_ts, url),
                                                            ));
                                                    }
                                                    pos = cgt + 1;
                                                },
                                            }
                                        },
                                    }
                                }
                            } else if range_matches(s, ns, ne, &enclosure_p) {
                                let aend = if selfc {
                                    gt - 1
                                } else {
                                    gt
                                };
                                let astart = scan_delim(s, lt + 1, aend);
                                match scan_url_attr(s, astart, aend) {
                                    Err(_) => {
                                        proof {
                                            assert(spec_scan_item(s@, pos as int, fv0)
                                                == Err::<ItemFields, ItemError>(
                                                    ItemError::Malformed { offset: lt as usize },
                                                ));
                                        }
                                        return Err(ItemError::Malformed { offset: lt });
                                    },
                                    Ok(found) => {
                                        if let Some(u) = found {
                                            url = Some(u);
                                        }
                                        proof {
                                            assert(spec_scan_item(s@, pos as int, fv0)
                                                == spec_scan_item(
                                                    s@,
                                                    gt + 1 as int,
                                                    fields_view(title, pub_ts, url),
                                                ));
                                        }
                                        pos = gt + 1;
                                    },
                                }
                            } else {
                                proof {
                                    assert(spec_scan_item(s@, pos as int, fv0)
                                        == spec_scan_item(
                                            s@,
                                            gt + 1 as int,
                                            fv0,
                                        ));
                                }
                                pos = gt + 1;
                            }
                        }
                    },
                }
            },
        }
    }
    Episode::from_parts(title, pub_ts, url, fragment.clone())
}

} // verus!
