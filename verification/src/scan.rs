//! Byte-level scanning over a feed document: first-occurrence search, tag
//! boundaries, tag names, and the search for a matching close tag.
//!
//! The dialect is the fixed RSS shape this pipeline reads: a tag runs from a
//! `<` to the next `>`; a close tag has `/` right after the `<`; a tag's name
//! runs to the first whitespace or `/`; a start tag whose last byte before
//! `>` is `/` is self-closing.

use vstd::prelude::*;
use crate::ascii::{LANGLE, RANGLE, SLASH, SPACE, TAB, CR, LF, EQUALS};

verus! {

/// First position at or after `i` holding byte `b`, if any.
pub open spec fn find_from(s: Seq<u8>, i: int, b: u8) -> Option<int>
    decreases s.len() - i,
{
    if i < 0 || i >= s.len() {
        None
    } else if s[i] == b {
        Some(i)
    } else {
        find_from(s, i + 1, b)
    }
}

/// What a `find_from` answer means position by position.
pub proof fn lemma_find_from(s: Seq<u8>, i: int, b: u8)
    requires
        i >= 0,
    ensures
        match find_from(s, i, b) {
            Some(j) => i <= j < s.len() && s[j] == b && (forall|k: int| i <= k < j ==> s[k] != b),
            None => forall|k: int| i <= k < s.len() ==> s[k] != b,
        },
    decreases s.len() - i,
{
    if i < s.len() && s[i] != b {
        lemma_find_from(s, i + 1, b);
    }
}

/// Finds the first `b` at or after `from`.
pub fn find_byte(s: &Vec<u8>, from: usize, b: u8) -> (r: Option<usize>)
    ensures
        match r {
            Some(j) => from <= j < s@.len() && s@[j as int] == b
                && find_from(s@, from as int, b) == Some(j as int),
            None => find_from(s@, from as int, b) is None,
        },
{
    let mut i = from;
    while i < s.len()
        invariant
            from <= i,
            find_from(s@, from as int, b) == find_from(s@, i as int, b),
        decreases s@.len() - i,
    {
        if s[i] == b {
            return Some(i);
        }
        i += 1;
    }
    None
}

/// Bytes that end a tag name.
pub open spec fn is_name_delim(b: u8) -> bool {
    b == SPACE || b == TAB || b == CR || b == LF || b == SLASH
}

/// First name-delimiter position in `[i, end)`, or `end` if there is none.
pub open spec fn delim_from(s: Seq<u8>, i: int, end: int) -> int
    decreases end - i,
{
    if i < 0 || i >= end || i >= s.len() {
        end
    } else if is_name_delim(s[i]) {
        i
    } else {
        delim_from(s, i + 1, end)
    }
}

/// Finds the first name delimiter in `[from, end)`, or returns `end`.
pub fn scan_delim(s: &Vec<u8>, from: usize, end: usize) -> (r: usize)
    requires
        from <= end <= s@.len(),
    ensures
        r == delim_from(s@, from as int, end as int),
        from <= r <= end,
{
    let mut i = from;
    while i < end
        invariant
            from <= i <= end <= s@.len(),
            delim_from(s@, from as int, end as int) == delim_from(s@, i as int, end as int),
        decreases end - i,
    {
        let b = s[i];
        if b == SPACE || b == TAB || b == CR || b == LF || b == SLASH {
            return i;
        }
        i += 1;
    }
    i
}

/// A tag spanning `[lt, gt]` is a close tag when `/` follows its `<`.
pub open spec fn tag_is_close(s: Seq<u8>, lt: int, gt: int) -> bool {
    lt + 1 < gt && s[lt + 1] == SLASH
}

/// Where a tag's name begins: after `<`, or after `</` for a close tag.
pub open spec fn name_start(s: Seq<u8>, lt: int, gt: int) -> int {
    if tag_is_close(s, lt, gt) {
        lt + 2
    } else {
        lt + 1
    }
}

/// The tag's name: from its name start to the first delimiter before `>`.
pub open spec fn tag_name(s: Seq<u8>, lt: int, gt: int) -> Seq<u8> {
    s.subrange(name_start(s, lt, gt), delim_from(s, name_start(s, lt, gt), gt))
}

/// A start tag whose final byte before `>` is `/` closes itself.
pub open spec fn tag_self_closes(s: Seq<u8>, lt: int, gt: int) -> bool {
    !tag_is_close(s, lt, gt) && lt + 1 < gt && s[gt - 1] == SLASH
}

/// Computes the name range of the tag spanning `[lt, gt]`.
pub fn tag_name_range(s: &Vec<u8>, lt: usize, gt: usize) -> (r: (usize, usize))
    requires
        lt < gt < s@.len(),
    ensures
        r.0 == name_start(s@, lt as int, gt as int),
        r.1 == delim_from(s@, r.0 as int, gt as int),
        lt < r.0 <= r.1 <= gt,
        tag_name(s@, lt as int, gt as int) == s@.subrange(r.0 as int, r.1 as int),
{
    let ns = if lt + 1 < gt && s[lt + 1] == SLASH {
        lt + 2
    } else {
        lt + 1
    };
    let ne = scan_delim(s, ns, gt);
    (ns, ne)
}

/// Does `s[ns..ne]` spell exactly `pat`?
pub fn range_matches(s: &Vec<u8>, ns: usize, ne: usize, pat: &Vec<u8>) -> (r: bool)
    requires
        ns <= ne <= s@.len(),
    ensures
        r == (s@.subrange(ns as int, ne as int) == pat@),
{
    if ne - ns != pat.len() {
        proof {
            assert(s@.subrange(ns as int, ne as int).len() == ne - ns);
        }
        return false;
    }
    let mut i: usize = 0;
    while i < pat.len()
        invariant
            ns <= ne <= s@.len(),
            ne - ns == pat@.len(),
            i <= pat@.len(),
            forall|k: int| 0 <= k < i ==> s@[ns + k] == pat@[k],
        decreases pat@.len() - i,
    {
        if s[ns + i] != pat[i] {
            proof {
                assert(s@.subrange(ns as int, ne as int)[i as int] == s@[ns + i]);
            }
            return false;
        }
        i += 1;
    }
    proof {
        assert(s@.subrange(ns as int, ne as int) =~= pat@);
    }
    true
}

/// Whitespace bytes between attributes.
pub open spec fn is_ws(b: u8) -> bool {
    b == SPACE || b == TAB || b == CR || b == LF
}

/// First non-whitespace position in `[i, end)`, or `end` if there is none.
pub open spec fn ws_from(s: Seq<u8>, i: int, end: int) -> int
    decreases end - i,
{
    if i < 0 || i >= end || i >= s.len() {
        end
    } else if is_ws(s[i]) {
        ws_from(s, i + 1, end)
    } else {
        i
    }
}

pub proof fn lemma_ws_from(s: Seq<u8>, i: int, end: int)
    requires
        0 <= i <= end,
    ensures
        i <= ws_from(s, i, end) <= end,
    decreases end - i,
{
    if i < end && i < s.len() && is_ws(s[i]) {
        lemma_ws_from(s, i + 1, end);
    }
}

/// Skips whitespace: first non-whitespace position in `[from, end)`, or `end`.
pub fn skip_ws(s: &Vec<u8>, from: usize, end: usize) -> (r: usize)
    requires
        from <= end <= s@.len(),
    ensures
        r == ws_from(s@, from as int, end as int),
        from <= r <= end,
{
    let mut i = from;
    while i < end
        invariant
            from <= i <= end <= s@.len(),
            ws_from(s@, from as int, end as int) == ws_from(s@, i as int, end as int),
        decreases end - i,
    {
        let b = s[i];
        if !(b == SPACE || b == TAB || b == CR || b == LF) {
            return i;
        }
        i += 1;
    }
    i
}

/// End of an attribute key: first `=` or whitespace in `[i, end)`, or `end`.
pub open spec fn key_end(s: Seq<u8>, i: int, end: int) -> int
    decreases end - i,
{
    if i < 0 || i >= end || i >= s.len() {
        end
    } else if s[i] == EQUALS || is_ws(s[i]) {
        i
    } else {
        key_end(s, i + 1, end)
    }
}

pub proof fn lemma_key_end(s: Seq<u8>, i: int, end: int)
    requires
        0 <= i <= end,
    ensures
        i <= key_end(s, i, end) <= end,
    decreases end - i,
{
    if i < end && i < s.len() && !(s[i] == EQUALS || is_ws(s[i])) {
        lemma_key_end(s, i + 1, end);
    }
}

/// Finds the end of an attribute key starting at `from`.
pub fn scan_key_end(s: &Vec<u8>, from: usize, end: usize) -> (r: usize)
    requires
        from <= end <= s@.len(),
    ensures
        r == key_end(s@, from as int, end as int),
        from <= r <= end,
{
    let mut i = from;
    while i < end
        invariant
            from <= i <= end <= s@.len(),
            key_end(s@, from as int, end as int) == key_end(s@, i as int, end as int),
        decreases end - i,
    {
        let b = s[i];
        if b == EQUALS || b == SPACE || b == TAB || b == CR || b == LF {
            return i;
        }
        i += 1;
    }
    i
}

/// First position of `b` in `[i, end)`, if any.
pub open spec fn find_before(s: Seq<u8>, i: int, end: int, b: u8) -> Option<int>
    decreases end - i,
{
    if i < 0 || i >= end || i >= s.len() {
        None
    } else if s[i] == b {
        Some(i)
    } else {
        find_before(s, i + 1, end, b)
    }
}

pub proof fn lemma_find_before(s: Seq<u8>, i: int, end: int, b: u8)
    requires
        i >= 0,
    ensures
        find_before(s, i, end, b) matches Some(j) ==> i <= j < end && j < s.len() && s[j] == b,
    decreases end - i,
{
    if 0 <= i && i < end && i < s.len() && s[i] != b {
        lemma_find_before(s, i + 1, end, b);
    }
}

/// Finds the first `b` in `[from, end)`.
pub fn find_byte_before(s: &Vec<u8>, from: usize, end: usize, b: u8) -> (r: Option<usize>)
    requires
        from <= end <= s@.len(),
    ensures
        match r {
            Some(j) => from <= j < end && s@[j as int] == b
                && find_before(s@, from as int, end as int, b) == Some(j as int),
            None => find_before(s@, from as int, end as int, b) is None,
        },
{
    let mut i = from;
    while i < end
        invariant
            from <= i <= end <= s@.len(),
            find_before(s@, from as int, end as int, b)
                == find_before(s@, i as int, end as int, b),
        decreases end - i,
    {
        if s[i] == b {
            return Some(i);
        }
        i += 1;
    }
    None
}

/// The next close tag named `name` at or after `i`: `Ok((lt, gt))` bounds it,
/// `Err(off)` reports the offset where scanning ran out of document.
pub open spec fn spec_find_close(s: Seq<u8>, i: int, name: Seq<u8>) -> Result<(int, int), int>
    decreases s.len() - i,
    via spec_find_close_dec
{
    match find_from(s, i, LANGLE) {
        None => Err(s.len() as int),
        Some(lt) => match find_from(s, lt + 1, RANGLE) {
            None => Err(lt),
            Some(gt) => if tag_is_close(s, lt, gt) && tag_name(s, lt, gt) == name {
                Ok((lt, gt))
            } else {
                spec_find_close(s, gt + 1, name)
            },
        },
    }
}

#[via_fn]
proof fn spec_find_close_dec(s: Seq<u8>, i: int, name: Seq<u8>) {
    if i >= 0 {
        lemma_find_from(s, i, LANGLE);
        if let Some(lt) = find_from(s, i, LANGLE) {
            lemma_find_from(s, lt + 1, RANGLE);
        }
    }
}

/// Bounds of a successful close-tag search.
pub proof fn lemma_find_close_bounds(s: Seq<u8>, i: int, name: Seq<u8>)
    requires
        i >= 0,
    ensures
        match spec_find_close(s, i, name) {
            Ok((lt, gt)) => i <= lt < gt < s.len(),
            Err(off) => 0 <= off <= s.len(),
        },
    decreases s.len() - i,
{
    lemma_find_from(s, i, LANGLE);
    if let Some(lt) = find_from(s, i, LANGLE) {
        lemma_find_from(s, lt + 1, RANGLE);
        if let Some(gt) = find_from(s, lt + 1, RANGLE) {
            if !(tag_is_close(s, lt, gt) && tag_name(s, lt, gt) == name) {
                lemma_find_close_bounds(s, gt + 1, name);
            }
        }
    }
}

/// Finds the next close tag named `name` at or after `from`.
pub fn find_close_tag(s: &Vec<u8>, from: usize, name: &Vec<u8>) -> (r: Result<(usize, usize), usize>)
    ensures
        match r {
            Ok((lt, gt)) => from <= lt < gt < s@.len()
                && spec_find_close(s@, from as int, name@) == Ok::<(int, int), int>((lt as int, gt as int)),
            Err(off) => off <= s@.len()
                && spec_find_close(s@, from as int, name@) == Err::<(int, int), int>(off as int),
        },
{
    let mut pos = from;
    loop
        invariant
            from <= pos,
            spec_find_close(s@, from as int, name@) == spec_find_close(s@, pos as int, name@),
        decreases s@.len() - pos,
    {
        match find_byte(s, pos, LANGLE) {
            None => {
                return Err(s.len());
            },
            Some(lt) => {
                let slen = s.len();
                match find_byte(s, lt + 1, RANGLE) {
                    None => {
                        return Err(lt);
                    },
                    Some(gt) => {
                        let (ns, ne) = tag_name_range(s, lt, gt);
                        let close = lt + 1 < gt && s[lt + 1] == SLASH;
                        if close && range_matches(s, ns, ne, name) {
                            return Ok((lt, gt));
                        }
                        proof {
                            assert(spec_find_close(s@, pos as int, name@)
                                == spec_find_close(s@, gt + 1 as int, name@));
                        }
                        pos = gt + 1;
                    },
                }
            },
        }
    }
}

} // verus!
