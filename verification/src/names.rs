//! Filename policy: a deterministic, filesystem-safe pair of names for each
//! episode, derived from its publish timestamp and sanitized title.
//!
//! The base name is `<timestamp>-<sanitized title>`; the in-progress file
//! carries the `.part` extension and the committed file the `.mp3` extension.

use vstd::prelude::*;
use crate::episode::Episode;
use crate::ascii::{SPACE, COLON, SLASH, HYPHEN, UNDERSCORE, DQUOTE, SQUOTE, STAR, DOT,
    DIGIT_3, L_A, L_M, L_P, L_R, L_T};

verus! {

/// Decimal digit sequence of a non-negative number, most significant first.
pub open spec fn dec_digits(n: nat) -> Seq<u8>
    decreases n,
{
    if n < 10 {
        seq![(48 + n) as u8]
    } else {
        dec_digits(n / 10).push((48 + n % 10) as u8)
    }
}

/// Decimal representation of a signed number, with a leading `-` if negative.
pub open spec fn dec_of(n: int) -> Seq<u8> {
    if n < 0 {
        seq![HYPHEN] + dec_digits((-n) as nat)
    } else {
        dec_digits(n as nat)
    }
}

/// What one title byte contributes to the sanitized name: spaces become
/// underscores, colons and slashes become hyphens, quote characters are
/// removed, and asterisks become a literal `a`.
pub open spec fn sanitize_byte(b: u8) -> Seq<u8> {
    if b == SPACE {
        seq![UNDERSCORE]
    } else if b == COLON {
        seq![HYPHEN]
    } else if b == SLASH {
        seq![HYPHEN]
    } else if b == DQUOTE {
        Seq::empty()
    } else if b == SQUOTE {
        Seq::empty()
    } else if b == STAR {
        seq![L_A]
    } else {
        seq![b]
    }
}

/// The sanitized form of a whole title.
pub open spec fn sanitized(title: Seq<u8>) -> Seq<u8>
    decreases title.len(),
{
    if title.len() == 0 {
        Seq::empty()
    } else {
        sanitized(title.drop_last()) + sanitize_byte(title.last())
    }
}

/// `<timestamp>-<sanitized title>`, shared by both derived names.
pub open spec fn base_name_of(ts: int, title: Seq<u8>) -> Seq<u8> {
    dec_of(ts) + seq![HYPHEN] + sanitized(title)
}

/// Name of the committed media file.
pub open spec fn final_name_of(ts: int, title: Seq<u8>) -> Seq<u8> {
    base_name_of(ts, title) + seq![DOT, L_M, L_P, DIGIT_3]
}

/// Name of the in-progress temporary file.
pub open spec fn temp_name_of(ts: int, title: Seq<u8>) -> Seq<u8> {
    base_name_of(ts, title) + seq![DOT, L_P, L_A, L_R, L_T]
}

/// The temporary name and the final name never coincide, so a rename from
/// one to the other is never a self-rename.
pub proof fn lemma_temp_final_distinct(ts: int, title: Seq<u8>)
    ensures
        temp_name_of(ts, title) != final_name_of(ts, title),
{
    assert(temp_name_of(ts, title).len() == base_name_of(ts, title).len() + 5);
    assert(final_name_of(ts, title).len() == base_name_of(ts, title).len() + 4);
}

fn dec_digits_exec(n: u64) -> (r: Vec<u8>)
    ensures
        r@ == dec_digits(n as nat),
{
    let mut out: Vec<u8> = Vec::new();
    let mut m: u64 = n;
    loop
        invariant_except_break
            dec_digits(n as nat) == dec_digits(m as nat) + out@,
        ensures
            dec_digits(n as nat) == out@,
        decreases m,
    {
        let d: u8 = (m % 10) as u8 + 48;
        if m < 10 {
            let ghost out0 = out@;
            out.insert(0, d);
            proof {
                assert(dec_digits(m as nat) == seq![d]);
                assert(out@ =~= seq![d] + out0);
                assert(dec_digits(n as nat) =~= out@);
            }
            break;
        }
        let ghost m0 = m as nat;
        let ghost out0 = out@;
        out.insert(0, d);
        m = m / 10;
        proof {
            assert(dec_digits(m0) == dec_digits(m0 / 10).push((48 + m0 % 10) as u8));
            assert((48 + m0 % 10) as u8 == d);
            assert(dec_digits(m0) =~= dec_digits(m as nat) + seq![d]);
            assert(out@ =~= seq![d] + out0);
            assert(dec_digits(m as nat) + out@ =~= (dec_digits(m as nat) + seq![d]) + out0);
        }
    }
    out
}

/// Decimal rendering of a signed 64-bit number as ASCII bytes.
pub fn dec_of_exec(n: i64) -> (r: Vec<u8>)
    ensures
        r@ == dec_of(n as int),
{
    if n >= 0 {
        dec_digits_exec(n as u64)
    } else {
        let wide: i128 = -(n as i128);
        assert(0 < wide <= u64::MAX);
        let mag: u64 = wide as u64;
        let mut out = dec_digits_exec(mag);
        out.insert(0, HYPHEN);
        proof {
            assert(out@ =~= seq![HYPHEN] + dec_digits(mag as nat));
            assert((-(n as int)) as nat == mag as nat);
        }
        out
    }
}

/// Sanitized form of a title, byte for byte as `sanitized` describes.
pub fn sanitize_title(title: &Vec<u8>) -> (r: Vec<u8>)
    ensures
        r@ == sanitized(title@),
{
    let mut out: Vec<u8> = Vec::new();
    let mut i: usize = 0;
    while i < title.len()
        invariant
            i <= title@.len(),
            out@ == sanitized(title@.take(i as int)),
        decreases title@.len() - i,
    {
        let b = title[i];
        if b == SPACE {
            out.push(UNDERSCORE);
        } else if b == COLON {
            out.push(HYPHEN);
        } else if b == SLASH {
            out.push(HYPHEN);
        } else if b == DQUOTE {
        } else if b == SQUOTE {
        } else if b == STAR {
            out.push(L_A);
        } else {
            out.push(b);
        }
        proof {
            let t = title@;
            assert(t.take(i + 1 as int).drop_last() =~= t.take(i as int));
            assert(t.take(i + 1 as int).last() == t[i as int]);
            assert(sanitized(t.take(i + 1 as int))
                == sanitized(t.take(i as int)) + sanitize_byte(t[i as int]));
            assert(out@ =~= sanitized(t.take(i as int)) + sanitize_byte(t[i as int]));
        }
        i += 1;
    }
    proof {
        assert(title@.take(title@.len() as int) =~= title@);
    }
    out
}

/// Derives the `(temp_name, final_name)` pair for an episode: a pure
/// function of its publish timestamp and title alone.
pub fn derive_names(episode: &Episode) -> (r: (Vec<u8>, Vec<u8>))
    ensures
        r.0@ == temp_name_of(episode.published_at as int, episode.title@),
        r.1@ == final_name_of(episode.published_at as int, episode.title@),
{
    let mut base = dec_of_exec(episode.published_at);
    base.push(HYPHEN);
    let mut sane = sanitize_title(&episode.title);
    base.append(&mut sane);
    proof {
        assert(base@ =~= base_name_of(episode.published_at as int, episode.title@));
    }
    let mut temp = base.clone();
    temp.push(DOT);
    temp.push(L_P);
    temp.push(L_A);
    temp.push(L_R);
    temp.push(L_T);
    let mut fin = base;
    fin.push(DOT);
    fin.push(L_M);
    fin.push(L_P);
    fin.push(DIGIT_3);
    proof {
        assert(temp@ =~= temp_name_of(episode.published_at as int, episode.title@));
        assert(fin@ =~= final_name_of(episode.published_at as int, episode.title@));
    }
    (temp, fin)
}

} // verus!
