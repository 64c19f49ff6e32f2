//! Incremental, Unicode-correct substring search over configuration lines.
//!
//! Case folding can change a character's byte length, so byte offsets into
//! the lowercased text are not valid offsets into the original. The search
//! therefore records, for every character of the lowercased text, the
//! original character it came from, and translates every match through that
//! mapping before reporting byte ranges into the original string.

use crate::config_text::fmt_u64;
use vstd::prelude::*;
use vstd::string::StrSliceExecFns;
use vstd::string::StringExecFns;
use vstd::utf8::encode_scalar;
use vstd::utf8::encode_utf8;
use vstd::utf8::is_char_boundary;

verus! {

/// Name for what `char::to_lowercase` yields: the lowercase mapping of one
/// character, as one or more characters, depending on the character alone.
pub uninterp spec fn char_lower(c: char) -> Seq<char>;

/// Relies on `char::to_lowercase`: yields the lowercase mapping of the
/// character as one or more characters, a function of the character alone.
#[verifier::external_body]
fn lower_char(c: char) -> (r: Vec<char>)
    ensures
        r@ == char_lower(c),
        r@.len() >= 1,
{
    c.to_lowercase().collect()
}

/// The lowercase folding of a character sequence: each character replaced by
/// its lowercase mapping.
pub open spec fn lowered(s: Seq<char>) -> Seq<char>
    decreases s.len(),
{
    if s.len() == 0 {
        Seq::empty()
    } else {
        lowered(s.drop_last()) + char_lower(s.last())
    }
}

/// For every character of the lowercase folding of `s`, the index of the
/// original character it came from.
pub open spec fn lower_origins(s: Seq<char>) -> Seq<int>
    decreases s.len(),
{
    if s.len() == 0 {
        Seq::empty()
    } else {
        lower_origins(s.drop_last()) + Seq::new(char_lower(s.last()).len(), |x: int| s.len() - 1)
    }
}

/// The byte offset of character `i` of `s` in the UTF-8 encoding of `s`.
pub open spec fn byte_off(s: Seq<char>, i: int) -> int {
    encode_utf8(s.take(i)).len() as int
}

/// The starts of the leftmost non-overlapping matches of `lq` in `ll` at or
/// after `from`, in order.
pub open spec fn greedy_matches(ll: Seq<char>, lq: Seq<char>, from: int) -> Seq<int>
    decreases ll.len() - from
        when 0 <= from && lq.len() > 0
{
    if from + lq.len() > ll.len() {
        Seq::empty()
    } else if ll.subrange(from, from + lq.len()) == lq {
        seq![from] + greedy_matches(ll, lq, from + lq.len())
    } else {
        greedy_matches(ll, lq, from + 1)
    }
}

/// True when the lowercase folding of `line` contains the lowercase folding
/// of the (non-empty) query.
pub open spec fn line_matches(line: Seq<char>, query: Seq<char>) -> bool {
    &&& query.len() > 0
    &&& exists|p: int|
        0 <= p && p + lowered(query).len() <= lowered(line).len() && #[trigger] lowered(
            line,
        ).subrange(p, p + lowered(query).len()) == lowered(query)
}

/// The indices of the lines whose lowercase folding contains the lowercase
/// folding of the query, in order.
pub open spec fn matching_indices(lines: Seq<String>, query: Seq<char>) -> Seq<int>
    decreases lines.len(),
{
    if lines.len() == 0 {
        Seq::empty()
    } else {
        matching_indices(lines.drop_last(), query) + (if line_matches(lines.last()@, query) {
            seq![lines.len() - 1]
        } else {
            Seq::empty()
        })
    }
}

/// The origin map has one entry per folded character.
proof fn lemma_origins_len(s: Seq<char>)
    ensures
        lower_origins(s).len() == lowered(s).len(),
    decreases s.len(),
{
    if s.len() > 0 {
        lemma_origins_len(s.drop_last());
    }
}

/// Encoding one more character appends that character's encoding.
proof fn lemma_encode_utf8_push(s: Seq<char>, c: char)
    ensures
        encode_utf8(s.push(c)) == encode_utf8(s) + encode_scalar(c as u32),
    decreases s.len(),
{
    if s.len() == 0 {
        reveal_with_fuel(encode_utf8, 3);
        assert(s.push(c)[0] == c);
        assert(s.push(c).drop_first() =~= Seq::<char>::empty());
        assert(encode_utf8(s.push(c)) =~= encode_utf8(s) + encode_scalar(c as u32));
    } else {
        assert(s.push(c)[0] == s[0]);
        assert(s.push(c).drop_first() =~= s.drop_first().push(c));
        lemma_encode_utf8_push(s.drop_first(), c);
        assert(encode_utf8(s.push(c)) == encode_scalar(s[0] as u32) + encode_utf8(
            s.drop_first().push(c),
        ));
        assert(encode_scalar(s[0] as u32) + (encode_utf8(s.drop_first()) + encode_scalar(
            c as u32,
        )) =~= encode_utf8(s) + encode_scalar(c as u32));
    }
}

/// The byte offset of the next character adds that character's encoded
/// length; encoded lengths are one to four bytes.
proof fn lemma_byte_off_step(s: Seq<char>, i: int)
    requires
        0 <= i < s.len(),
    ensures
        byte_off(s, i + 1) == byte_off(s, i) + encode_scalar(s[i] as u32).len(),
        1 <= encode_scalar(s[i] as u32).len() <= 4,
{
    assert(s.take(i + 1) == s.take(i).push(s[i]));
    lemma_encode_utf8_push(s.take(i), s[i]);
}

/// Encoding a concatenation concatenates the encodings.
proof fn lemma_encode_utf8_concat(a: Seq<char>, b: Seq<char>)
    ensures
        encode_utf8(a + b) == encode_utf8(a) + encode_utf8(b),
    decreases a.len(),
{
    if a.len() == 0 {
        reveal_with_fuel(encode_utf8, 2);
        assert(a + b =~= b);
        assert(encode_utf8(a) + encode_utf8(b) =~= encode_utf8(b));
    } else {
        assert((a + b)[0] == a[0]);
        assert((a + b).drop_first() =~= a.drop_first() + b);
        lemma_encode_utf8_concat(a.drop_first(), b);
        assert(encode_scalar(a[0] as u32) + (encode_utf8(a.drop_first()) + encode_utf8(b))
            =~= encode_utf8(a) + encode_utf8(b));
    }
}

/// A prefix's byte offset never exceeds the whole encoding's length.
proof fn lemma_byte_off_le_total(s: Seq<char>, i: int)
    requires
        0 <= i <= s.len(),
    ensures
        byte_off(s, i) <= encode_utf8(s).len(),
{
    assert(s.take(i) + s.skip(i) =~= s);
    lemma_encode_utf8_concat(s.take(i), s.skip(i));
}

/// Every origin index points at a character of the original sequence.
proof fn lemma_lower_origins_in_range(s: Seq<char>)
    ensures
        forall|k: int|
            0 <= k < lower_origins(s).len() ==> 0 <= #[trigger] lower_origins(s)[k] < s.len(),
    decreases s.len(),
{
    if s.len() > 0 {
        lemma_lower_origins_in_range(s.drop_last());
        assert forall|k: int|
            0 <= k < lower_origins(s).len() implies 0 <= #[trigger] lower_origins(s)[k]
            < s.len() by {
            if k < lower_origins(s.drop_last()).len() {
                assert(lower_origins(s)[k] == lower_origins(s.drop_last())[k]);
            } else {
                assert(lower_origins(s)[k] == s.len() - 1);
            }
        }
    }
}

/// Origin indices never decrease along the folded text.
proof fn lemma_lower_origins_monotone(s: Seq<char>)
    ensures
        forall|k1: int, k2: int|
            0 <= k1 <= k2 < lower_origins(s).len() ==> #[trigger] lower_origins(s)[k1]
                <= #[trigger] lower_origins(s)[k2],
    decreases s.len(),
{
    if s.len() > 0 {
        lemma_lower_origins_monotone(s.drop_last());
        lemma_lower_origins_in_range(s.drop_last());
        assert forall|k1: int, k2: int|
            0 <= k1 <= k2 < lower_origins(s).len() implies #[trigger] lower_origins(s)[k1]
            <= #[trigger] lower_origins(s)[k2] by {
            let pl = lower_origins(s.drop_last()).len() as int;
            if k2 < pl {
                assert(lower_origins(s)[k1] == lower_origins(s.drop_last())[k1]);
                assert(lower_origins(s)[k2] == lower_origins(s.drop_last())[k2]);
            } else if k1 < pl {
                assert(lower_origins(s)[k1] == lower_origins(s.drop_last())[k1]);
                assert(lower_origins(s.drop_last())[k1] < s.drop_last().len());
                assert(lower_origins(s)[k2] == s.len() - 1);
            } else {
                assert(lower_origins(s)[k1] == s.len() - 1);
                assert(lower_origins(s)[k2] == s.len() - 1);
            }
        }
    }
}

/// Byte offsets never decrease along the character indices.
proof fn lemma_byte_off_mono(s: Seq<char>, i: int, j: int)
    requires
        0 <= i <= j <= s.len(),
    ensures
        byte_off(s, i) <= byte_off(s, j),
    decreases j - i,
{
    if i < j {
        lemma_byte_off_step(s, i);
        lemma_byte_off_mono(s, i + 1, j);
    }
}

/// The byte offset of any character index is a character boundary of the
/// encoded text.
proof fn lemma_byte_off_boundary(s: Seq<char>, i: int)
    requires
        0 <= i <= s.len(),
    ensures
        is_char_boundary(encode_utf8(s), byte_off(s, i)),
    decreases i,
{
    vstd::utf8::encode_utf8_valid_utf8(s);
    if i == 0 {
        assert(s.take(0) =~= Seq::<char>::empty());
        reveal_with_fuel(encode_utf8, 2);
        assert(byte_off(s, 0) == 0);
    } else {
        let bytes = encode_utf8(s);
        vstd::utf8::encode_utf8_first_scalar(s);
        let flen = vstd::utf8::length_of_first_scalar(bytes);
        assert(flen == encode_scalar(s[0] as u32).len());
        assert(flen >= 1);
        assert(encode_utf8(s) == encode_scalar(s[0] as u32) + encode_utf8(s.drop_first()));
        assert(vstd::utf8::pop_first_scalar(bytes) =~= encode_utf8(s.drop_first()));
        assert(s.take(i) =~= seq![s[0]] + s.drop_first().take(i - 1));
        lemma_encode_utf8_concat(seq![s[0]], s.drop_first().take(i - 1));
        assert(encode_utf8(seq![s[0]]) =~= encode_scalar(s[0] as u32)) by {
            reveal_with_fuel(encode_utf8, 2);
            assert(seq![s[0]].drop_first() =~= Seq::<char>::empty());
        }
        assert(byte_off(s, i) == flen + byte_off(s.drop_first(), i - 1));
        lemma_byte_off_le_total(s, i);
        lemma_byte_off_boundary(s.drop_first(), i - 1);
        assert(is_char_boundary(bytes, byte_off(s, i)));
    }
}

/// The UTF-8 length of one character, from its scalar value.
fn char_utf8_len(c: char) -> (n: usize)
    ensures
        n as int == encode_scalar(c as u32).len(),
        1 <= n <= 4,
{
    let u = c as u32;
    if u < 0x80 {
        1
    } else if u < 0x800 {
        2
    } else if u < 0x10000 {
        3
    } else {
        4
    }
}

/// The lowercase folding of the characters of `s`, with, for each folded
/// character, the index of the original character it came from.
fn fold_chars(s: &str) -> (r: (Vec<char>, Vec<usize>))
    ensures
        r.0@ == lowered(s@),
        r.0@.len() >= s@.len(),
        r.1@.len() == r.0@.len(),
        forall|k: int| 0 <= k < r.1@.len() ==> r.1@[k] as int == lower_origins(s@)[k],
        forall|k: int| 0 <= k < r.1@.len() ==> (#[trigger] r.1@[k]) < s@.len(),
{
    let n = s.unicode_len();
    proof {
        assert(s@.take(0) =~= Seq::<char>::empty());
        assert(lowered(s@.take(0)) =~= Seq::<char>::empty());
        assert(lower_origins(s@.take(0)) =~= Seq::<int>::empty());
    }
    let mut ll: Vec<char> = Vec::new();
    let mut origins: Vec<usize> = Vec::new();
    let mut i: usize = 0;
    while i < n
        invariant
            i <= n,
            n == s@.len(),
            ll@ == lowered(s@.take(i as int)),
            ll@.len() >= i,
            origins@.len() == ll@.len(),
            forall|k: int|
                0 <= k < origins@.len() ==> origins@[k] as int == lower_origins(s@.take(i as int))[
                k],
            forall|k: int| 0 <= k < origins@.len() ==> (#[trigger] origins@[k]) < i,
        decreases n - i,
    {
        let c = s.get_char(i);
        let low = lower_char(c);
        let m = low.len();
        let ghost ll0 = ll@;
        let ghost origins0 = origins@;
        let mut t: usize = 0;
        while t < m
            invariant
                t <= m,
                i < n,
                n == s@.len(),
                m == char_lower(s@[i as int]).len(),
                low@ == char_lower(s@[i as int]),
                ll@ == ll0 + low@.take(t as int),
                origins0.len() == ll0.len(),
                origins@.len() == ll@.len(),
                forall|k: int| 0 <= k < origins0.len() ==> origins@[k] == origins0[k],
                forall|k: int|
                    origins0.len() <= k < origins@.len() ==> (#[trigger] origins@[k]) == i,
            decreases m - t,
        {
            ll.push(low[t]);
            origins.push(i);
            proof {
                assert(low@.take(t + 1) == low@.take(t as int).push(low@[t as int]));
                assert(ll@ =~= ll0 + low@.take(t + 1));
            }
            t = t + 1;
        }
        proof {
            assert(low@.take(m as int) == low@);
            assert(s@.take(i + 1).drop_last() == s@.take(i as int));
            assert(s@.take(i + 1).last() == s@[i as int]);
            assert(ll@ == lowered(s@.take(i + 1)));
            assert(lower_origins(s@.take(i + 1)) == lower_origins(s@.take(i as int)) + Seq::new(
                char_lower(s@[i as int]).len(),
                |x: int| i as int,
            ));
            lemma_origins_len(s@.take(i as int));
            lemma_origins_len(s@.take(i + 1));
            assert(lower_origins(s@.take(i as int)).len() == ll0.len());
            assert(origins@.len() == ll0.len() + char_lower(s@[i as int]).len());
            assert forall|k: int|
                0 <= k < origins@.len() implies origins@[k] as int == lower_origins(
                s@.take(i + 1),
            )[k] by {
                if k < origins0.len() {
                    assert(origins@[k] == origins0[k]);
                    assert(origins0[k] as int == lower_origins(s@.take(i as int))[k]);
                    assert(lower_origins(s@.take(i + 1))[k] == lower_origins(s@.take(i as int))[k]);
                } else {
                    assert(origins@[k] == i);
                    assert(lower_origins(s@.take(i + 1))[k] == Seq::new(
                        char_lower(s@[i as int]).len(),
                        |x: int| i as int,
                    )[k - ll0.len()]);
                    assert(lower_origins(s@.take(i + 1))[k] == i as int);
                }
            }
            assert forall|k: int|
                0 <= k < origins@.len() implies (#[trigger] origins@[k]) < i + 1 by {
                if k < origins0.len() {
                    assert(origins@[k] == origins0[k]);
                }
            }
        }
        i = i + 1;
    }
    proof {
        assert(s@.take(n as int) == s@);
        lemma_origins_len(s@);
    }
    (ll, origins)
}

/// The byte offset of every character of `s`, plus the total byte length as
/// a final entry.
fn byte_offsets(s: &str) -> (offs: Vec<usize>)
    requires
        encode_utf8(s@).len() <= usize::MAX,
    ensures
        offs@.len() == s@.len() + 1,
        forall|i: int| 0 <= i <= s@.len() ==> offs@[i] as int == byte_off(s@, i),
{
    let n = s.unicode_len();
    proof {
        assert(s@.take(0) =~= Seq::<char>::empty());
        reveal_with_fuel(encode_utf8, 2);
        assert(byte_off(s@, 0) == 0);
    }
    let mut offs: Vec<usize> = Vec::new();
    let mut byte_pos: usize = 0;
    let mut i: usize = 0;
    while i < n
        invariant
            i <= n,
            n == s@.len(),
            encode_utf8(s@).len() <= usize::MAX,
            offs@.len() == i,
            forall|x: int| 0 <= x < i ==> offs@[x] as int == byte_off(s@, x),
            byte_pos as int == byte_off(s@, i as int),
        decreases n - i,
    {
        let c = s.get_char(i);
        offs.push(byte_pos);
        proof {
            lemma_byte_off_step(s@, i as int);
            lemma_byte_off_le_total(s@, i + 1);
        }
        let step = char_utf8_len(c);
        byte_pos = byte_pos + step;
        i = i + 1;
    }
    offs.push(byte_pos);
    proof {
        assert(s@.take(n as int) == s@);
        assert(offs@[n as int] == byte_pos);
    }
    offs
}

/// True when `lq` occurs in `ll` starting at `p`.
fn match_at(ll: &Vec<char>, lq: &Vec<char>, p: usize) -> (r: bool)
    requires
        p + lq@.len() <= ll@.len(),
    ensures
        r == (ll@.subrange(p as int, p + lq@.len()) == lq@),
{
    let m = lq.len();
    let n = ll.len();
    let mut t: usize = 0;
    while t < m
        invariant
            t <= m,
            m == lq@.len(),
            n == ll@.len(),
            p + m <= n,
            forall|x: int| 0 <= x < t ==> ll@[p + x] == lq@[x],
        decreases m - t,
    {
        if ll[p + t] != lq[t] {
            proof {
                assert(ll@.subrange(p as int, p + lq@.len())[t as int] == ll@[p + t]);
            }
            return false;
        }
        t = t + 1;
    }
    proof {
        assert(ll@.subrange(p as int, p + lq@.len()) =~= lq@);
    }
    true
}

/// Every greedy match start is in range: the match fits inside the text.
proof fn lemma_greedy_in_range(ll: Seq<char>, lq: Seq<char>, from: int)
    requires
        0 <= from,
        lq.len() > 0,
    ensures
        forall|t: int|
            0 <= t < greedy_matches(ll, lq, from).len() ==> from <= #[trigger] greedy_matches(
                ll,
                lq,
                from,
            )[t] && greedy_matches(ll, lq, from)[t] + lq.len() <= ll.len(),
    decreases ll.len() - from,
{
    if from + lq.len() > ll.len() {
    } else if ll.subrange(from, from + lq.len()) == lq {
        lemma_greedy_in_range(ll, lq, from + lq.len());
        assert forall|t: int|
            0 <= t < greedy_matches(ll, lq, from).len() implies from <= #[trigger] greedy_matches(
            ll,
            lq,
            from,
        )[t] && greedy_matches(ll, lq, from)[t] + lq.len() <= ll.len() by {
            if t > 0 {
                assert(greedy_matches(ll, lq, from)[t] == greedy_matches(ll, lq, from + lq.len())[t
                    - 1]);
            }
        }
    } else {
        lemma_greedy_in_range(ll, lq, from + 1);
        assert(greedy_matches(ll, lq, from) == greedy_matches(ll, lq, from + 1));
    }
}

/// The greedy match starts of `lq` in `ll`, in order.
fn find_matches(ll: &Vec<char>, lq: &Vec<char>) -> (starts: Vec<usize>)
    requires
        lq@.len() > 0,
    ensures
        starts@.len() == greedy_matches(ll@, lq@, 0).len(),
        forall|t: int|
            0 <= t < starts@.len() ==> starts@[t] as int == greedy_matches(ll@, lq@, 0)[t],
{
    let mut starts: Vec<usize> = Vec::new();
    let m = lq.len();
    let n = ll.len();
    if m > n {
        proof {
            assert(greedy_matches(ll@, lq@, 0) =~= Seq::<int>::empty());
            assert(starts_ints(starts@) =~= Seq::<int>::empty());
        }
        return starts;
    }
    let mut p: usize = 0;
    while p <= n - m
        invariant
            m == lq@.len(),
            n == ll@.len(),
            m > 0,
            m <= n,
            p <= n,
            greedy_matches(ll@, lq@, 0) == starts_ints(starts@) + greedy_matches(
                ll@,
                lq@,
                p as int,
            ),
            forall|t: int| 0 <= t < starts@.len() ==> (#[trigger] starts@[t]) < p,
        decreases n - p,
    {
        let ghost starts0 = starts@;
        if match_at(ll, lq, p) {
            starts.push(p);
            proof {
                assert(greedy_matches(ll@, lq@, p as int) == seq![p as int] + greedy_matches(
                    ll@,
                    lq@,
                    p + m,
                ));
                assert(starts_ints(starts@) =~= starts_ints(starts0) + seq![p as int]);
                assert(starts_ints(starts0) + (seq![p as int] + greedy_matches(ll@, lq@, p + m))
                    =~= starts_ints(starts@) + greedy_matches(ll@, lq@, p + m));
            }
            p = p + m;
        } else {
            proof {
                assert(greedy_matches(ll@, lq@, p as int) == greedy_matches(ll@, lq@, p + 1));
            }
            p = p + 1;
        }
    }
    proof {
        assert(greedy_matches(ll@, lq@, p as int) =~= Seq::<int>::empty());
        assert(greedy_matches(ll@, lq@, 0) =~= starts_ints(starts@));
    }
    starts
}

/// The starts as mathematical integers.
spec fn starts_ints(starts: Seq<usize>) -> Seq<int> {
    starts.map(|i: int, x: usize| x as int)
}

/// Find case-insensitive matches of `query` in `line`, returning byte ranges
/// into the original string. Matching is over the lowercase foldings; every
/// reported offset is the byte offset of an original character (or the end
/// of the string), so slicing the original text at these offsets is safe
/// even when case folding changes byte lengths.
pub fn case_insensitive_byte_ranges(line: &str, query: &str) -> (r: Vec<(usize, usize)>)
    requires
        encode_utf8(line@).len() <= usize::MAX,
    ensures
        query@.len() == 0 ==> r@.len() == 0,
        query@.len() > 0 ==> {
            let ll = lowered(line@);
            let lq = lowered(query@);
            let lo = lower_origins(line@);
            let ms = greedy_matches(ll, lq, 0);
            &&& r@.len() == ms.len()
            &&& forall|t: int|
                0 <= t < ms.len() ==> (#[trigger] r@[t]).0 as int == byte_off(line@, lo[ms[t]])
                    && r@[t].1 as int == (if ms[t] + lq.len() < ll.len() {
                    byte_off(line@, lo[ms[t] + lq.len()])
                } else {
                    encode_utf8(line@).len() as int
                })
        },
        forall|t: int|
            0 <= t < r@.len() ==> (#[trigger] r@[t]).0 <= r@[t].1 && r@[t].1 as int <= encode_utf8(
                line@,
            ).len() && is_char_boundary(encode_utf8(line@), r@[t].0 as int) && is_char_boundary(
                encode_utf8(line@),
                r@[t].1 as int,
            ),
{
    let mut r: Vec<(usize, usize)> = Vec::new();
    if query.is_empty() {
        return r;
    }
    let (ll, origins) = fold_chars(line);
    let (lq, _q_origins) = fold_chars(query);
    let offs = byte_offsets(line);
    let starts = find_matches(&ll, &lq);
    let m = lq.len();
    let n = ll.len();
    let count = starts.len();
    proof {
        lemma_greedy_in_range(ll@, lq@, 0);
        lemma_origins_len(line@);
    }
    let mut t: usize = 0;
    while t < count
        invariant
            t <= count,
            count == starts@.len(),
            m == lq@.len(),
            n == ll@.len(),
            m > 0,
            ll@ == lowered(line@),
            lq@ == lowered(query@),
            starts@.len() == greedy_matches(ll@, lq@, 0).len(),
            forall|x: int|
                0 <= x < starts@.len() ==> starts@[x] as int == greedy_matches(ll@, lq@, 0)[x],
            forall|x: int|
                0 <= x < starts@.len() ==> 0 <= #[trigger] greedy_matches(ll@, lq@, 0)[x]
                    && greedy_matches(ll@, lq@, 0)[x] + m <= n,
            origins@.len() == n,
            lower_origins(line@).len() == n,
            forall|k: int| 0 <= k < n ==> origins@[k] as int == lower_origins(line@)[k],
            forall|k: int| 0 <= k < n ==> (#[trigger] origins@[k]) < line@.len(),
            offs@.len() == line@.len() + 1,
            forall|i: int| 0 <= i <= line@.len() ==> offs@[i] as int == byte_off(line@, i),
            r@.len() == t,
            forall|x: int|
                0 <= x < t ==> {
                    let ms = greedy_matches(ll@, lq@, 0);
                    (#[trigger] r@[x]).0 as int == byte_off(line@, lower_origins(line@)[ms[x]])
                        && r@[x].1 as int == (if ms[x] + m < n {
                        byte_off(line@, lower_origins(line@)[ms[x] + m])
                    } else {
                        encode_utf8(line@).len() as int
                    })
                },
            forall|x: int|
                0 <= x < t ==> (#[trigger] r@[x]).0 <= r@[x].1 && r@[x].1 as int <= encode_utf8(
                    line@,
                ).len() && is_char_boundary(encode_utf8(line@), r@[x].0 as int)
                    && is_char_boundary(encode_utf8(line@), r@[x].1 as int),
        decreases count - t,
    {
        let p = starts[t];
        let o = origins[p];
        let b0 = offs[o];
        let e = p + m;
        let b1 = if e < n {
            offs[origins[e]]
        } else {
            offs[offs.len() - 1]
        };
        r.push((b0, b1));
        proof {
            assert(offs@[offs@.len() - 1] as int == byte_off(line@, line@.len() as int));
            assert(byte_off(line@, line@.len() as int) == encode_utf8(line@).len()) by {
                assert(line@.take(line@.len() as int) == line@);
            }
            lemma_lower_origins_in_range(line@);
            lemma_lower_origins_monotone(line@);
            lemma_byte_off_boundary(line@, o as int);
            lemma_byte_off_le_total(line@, o as int);
            if e < n {
                assert(lower_origins(line@)[p as int] <= lower_origins(line@)[e as int]);
                lemma_byte_off_mono(line@, o as int, origins@[e as int] as int);
                lemma_byte_off_boundary(line@, origins@[e as int] as int);
                lemma_byte_off_le_total(line@, origins@[e as int] as int);
            } else {
                lemma_byte_off_mono(line@, o as int, line@.len() as int);
                lemma_byte_off_boundary(line@, line@.len() as int);
            }
        }
        t = t + 1;
    }
    r
}

/// Configuration panel state: scrolling, the incremental search query, its
/// matches and the persistent match cursor.
#[derive(Debug)]
pub struct ConfigPanelState {
    pub scroll_v: u16,
    pub scroll_h: u16,
    pub search: String,
    pub search_active: bool,
    pub match_indices: Vec<usize>,
    pub current_match: usize,
}

impl Default for ConfigPanelState {
    /// The inactive state: no scrolling, no query, no matches.
    fn default() -> (s: Self)
        ensures
            s.scroll_v == 0,
            s.scroll_h == 0,
            s.search@ == Seq::<char>::empty(),
            !s.search_active,
            s.match_indices@ == Seq::<usize>::empty(),
            s.current_match == 0,
    {
        ConfigPanelState {
            scroll_v: 0,
            scroll_h: 0,
            search: String::new(),
            search_active: false,
            match_indices: Vec::new(),
            current_match: 0,
        }
    }
}

impl ConfigPanelState {
    /// Create a new inactive state.
    pub fn new() -> (s: Self)
        ensures
            s.scroll_v == 0,
            s.scroll_h == 0,
            s.search@ == Seq::<char>::empty(),
            !s.search_active,
            s.match_indices@ == Seq::<usize>::empty(),
            s.current_match == 0,
    {
        Self::default()
    }

    /// Reset scroll and search state, as when a different run is selected.
    pub fn reset(&mut self)
        ensures
            final (self).scroll_v == 0,
            final (self).scroll_h == 0,
            final (self).search@ == Seq::<char>::empty(),
            !final (self).search_active,
            final (self).match_indices@ == Seq::<usize>::empty(),
            final (self).current_match == 0,
    {
        self.scroll_v = 0;
        self.scroll_h = 0;
        self.search = String::new();
        self.search_active = false;
        self.match_indices = Vec::new();
        self.current_match = 0;
    }

    /// Recompute which lines match the current query, case-insensitively. An
    /// empty query yields no matches rather than matching everything; a
    /// stale cursor that is now out of bounds resets to 0.
    pub fn update_config_search_matches(&mut self, lines: &Vec<String>)
        ensures
            final (self).scroll_v == old(self).scroll_v,
            final (self).scroll_h == old(self).scroll_h,
            final (self).search == old(self).search,
            final (self).search_active == old(self).search_active,
            old(self).search@.len() == 0 ==> final (self).match_indices@ == Seq::<usize>::empty(),
            old(self).search@.len() > 0 ==> {
                let ms = matching_indices(lines@, old(self).search@);
                &&& final (self).match_indices@.len() == ms.len()
                &&& forall|x: int|
                    0 <= x < ms.len() ==> (#[trigger] final (self).match_indices@[x]) as int
                        == ms[x]
            },
            final (self).current_match == (if old(self).current_match >= final (
            self).match_indices@.len() {
                0int
            } else {
                old(self).current_match as int
            }),
    {
        self.match_indices = Vec::new();
        if self.search.as_str().is_empty() {
            if self.current_match >= self.match_indices.len() {
                self.current_match = 0;
            }
            return ;
        }
        let (lq, _o) = fold_chars(self.search.as_str());
        proof {
            assert(lines@.take(0) =~= Seq::<String>::empty());
            assert(matching_indices(lines@.take(0), self.search@) =~= Seq::<int>::empty());
        }
        let n = lines.len();
        let mut idx: usize = 0;
        let mut found: Vec<usize> = Vec::new();
        while idx < n
            invariant
                idx <= n,
                n == lines@.len(),
                lq@ == lowered(self.search@),
                self.search@.len() > 0,
                lq@.len() > 0,
                found@.len() == matching_indices(lines@.take(idx as int), self.search@).len(),
                forall|x: int|
                    0 <= x < found@.len() ==> (#[trigger] found@[x]) as int == matching_indices(
                        lines@.take(idx as int),
                        self.search@,
                    )[x],
            decreases n - idx,
        {
            let ghost found0 = found@;
            let is_match = line_contains(lines[idx].as_str(), &lq);
            if is_match {
                found.push(idx);
            }
            proof {
                assert(lines@.take(idx + 1).drop_last() == lines@.take(idx as int));
                assert(lines@.take(idx + 1).last() == lines@[idx as int]);
                assert(line_matches(lines@[idx as int]@, self.search@) == is_match);
            }
            idx = idx + 1;
        }
        proof {
            assert(lines@.take(n as int) == lines@);
        }
        self.match_indices = found;
        if self.current_match >= self.match_indices.len() {
            self.current_match = 0;
        }
    }

    /// Advance the match cursor with wraparound; a no-op without matches.
    /// Scrolls so the matched line is visible.
    pub fn next_config_match(&mut self)
        requires
            old(self).match_indices@.len() > 0 ==> old(self).current_match < old(
                self,
            ).match_indices@.len(),
        ensures
            old(self).match_indices@.len() == 0 ==> *final (self) == *old(self),
            old(self).match_indices@.len() > 0 ==> {
                &&& final (self).current_match as int == (old(self).current_match + 1) % (old(
                self).match_indices@.len() as int)
                &&& final (self).match_indices == old(self).match_indices
                &&& final (self).search == old(self).search
                &&& final (self).search_active == old(self).search_active
                &&& final (self).scroll_h == old(self).scroll_h
            },
            old(self).match_indices@.len() > 0 && final (self).current_match < final (
            self).match_indices@.len() ==> final (self).scroll_v == final (self).match_indices@[
            final (self).current_match as int] as u16,
    {
        if self.match_indices.len() == 0 {
            return ;
        }
        self.current_match = (self.current_match + 1) % self.match_indices.len();
        self.scroll_to_current_match();
    }

    /// Retreat the match cursor with wraparound; a no-op without matches.
    /// Scrolls so the matched line is visible.
    pub fn prev_config_match(&mut self)
        requires
            old(self).match_indices@.len() > 0 ==> old(self).current_match < old(
                self,
            ).match_indices@.len(),
        ensures
            old(self).match_indices@.len() == 0 ==> *final (self) == *old(self),
            old(self).match_indices@.len() > 0 ==> {
                &&& final (self).current_match == (if old(self).current_match == 0 {
                    old(self).match_indices@.len() - 1
                } else {
                    old(self).current_match - 1
                })
                &&& final (self).match_indices == old(self).match_indices
                &&& final (self).search == old(self).search
                &&& final (self).search_active == old(self).search_active
                &&& final (self).scroll_h == old(self).scroll_h
            },
            old(self).match_indices@.len() > 0 && final (self).current_match < final (
            self).match_indices@.len() ==> final (self).scroll_v == final (self).match_indices@[
            final (self).current_match as int] as u16,
    {
        if self.match_indices.len() == 0 {
            return ;
        }
        if self.current_match == 0 {
            self.current_match = self.match_indices.len() - 1;
        } else {
            self.current_match = self.current_match - 1;
        }
        self.scroll_to_current_match();
    }

    /// Scroll so the current match's line is visible.
    pub fn scroll_to_current_match(&mut self)
        ensures
            final (self).current_match == old(self).current_match,
            final (self).match_indices == old(self).match_indices,
            final (self).search == old(self).search,
            final (self).search_active == old(self).search_active,
            final (self).scroll_h == old(self).scroll_h,
            old(self).current_match < old(self).match_indices@.len() ==> final (self).scroll_v
                == old(self).match_indices@[old(self).current_match as int] as u16,
            old(self).current_match >= old(self).match_indices@.len() ==> final (self).scroll_v
                == old(self).scroll_v,
    {
        if self.current_match < self.match_indices.len() {
            let line_idx = self.match_indices[self.current_match];
            self.scroll_v = #[verifier::truncate] (line_idx as u16);
        }
    }

    /// The configuration panel title: the query and the match position when a
    /// search is active or present, a plain title otherwise.
    pub fn panel_title(&self) -> (r: String)
        ensures
            self.search@.len() == 0 && !self.search_active ==> r@ == " Config "@,
            self.match_indices@.len() == 0 && self.search@.len() > 0 ==> r@ == (if self
                .search_active {
                " Config [/"@
            } else {
                " Config ["@
            }) + self.search@ + "] (no matches) "@,
            self.match_indices@.len() == 0 && self.search@.len() == 0 && self.search_active ==> r@
                == " Config [/"@ + self.search@ + "] "@,
            self.match_indices@.len() > 0 && self.current_match < self.match_indices@.len() && (
            self.search_active || self.search@.len() > 0) ==> r@
                == (if self.search_active {
                " Config [/"@
            } else {
                " Config ["@
            }) + self.search@ + "] ("@ + crate::config_text::dec_digits(
                self.current_match + 1,
            ) + "/"@ + crate::config_text::dec_digits(self.match_indices@.len() as int) + ") "@,
    {
        proof {
            reveal_strlit(" Config ");
            reveal_strlit(" Config [/");
            reveal_strlit(" Config [");
            reveal_strlit("] (no matches) ");
            reveal_strlit("] (");
            reveal_strlit("/");
            reveal_strlit(") ");
            reveal_strlit("] ");
        }
        if !self.search_active && self.search.as_str().is_empty() {
            return " Config ".to_owned();
        }
        let mut r = if self.search_active {
            " Config [/".to_owned()
        } else {
            " Config [".to_owned()
        };
        r.append(self.search.as_str());
        if self.match_indices.len() == 0 {
            if self.search.as_str().is_empty() {
                r.append("] ");
            } else {
                r.append("] (no matches) ");
            }
        } else {
            r.append("] (");
            let pos: u64 = if self.current_match < self.match_indices.len() {
                (self.current_match + 1) as u64
            } else {
                self.current_match as u64
            };
            let pos_text = fmt_u64(pos);
            r.append(pos_text.as_str());
            r.append("/");
            let total_text = fmt_u64(self.match_indices.len() as u64);
            r.append(total_text.as_str());
            r.append(") ");
        }
        proof {
            if self.match_indices@.len() > 0 && self.current_match < self.match_indices@.len()
                && (self.search_active || self.search@.len() > 0) {
                assert(r@ =~= (if self.search_active {
                    " Config [/"@
                } else {
                    " Config ["@
                }) + self.search@ + "] ("@ + crate::config_text::dec_digits(
                    self.current_match + 1,
                ) + "/"@ + crate::config_text::dec_digits(self.match_indices@.len() as int)
                    + ") "@);
            }
            if self.match_indices@.len() == 0 && self.search@.len() > 0 {
                assert(r@ =~= (if self.search_active {
                    " Config [/"@
                } else {
                    " Config ["@
                }) + self.search@ + "] (no matches) "@);
            }
            if self.match_indices@.len() == 0 && self.search@.len() == 0 && self.search_active {
                assert(r@ =~= " Config [/"@ + self.search@ + "] "@);
            }
        }
        r
    }
}

/// True when the lowercase folding of `line` contains `lq`, the lowercase
/// folding of a non-empty query.
fn line_contains(line: &str, lq: &Vec<char>) -> (r: bool)
    requires
        lq@.len() > 0,
    ensures
        r == exists|p: int|
            0 <= p && p + lq@.len() <= lowered(line@).len() && #[trigger] lowered(line@).subrange(
                p,
                p + lq@.len(),
            ) == lq@,
{
    let (ll, _o) = fold_chars(line);
    let m = lq.len();
    let n = ll.len();
    if m > n {
        return false;
    }
    let mut p: usize = 0;
    while p <= n - m
        invariant
            m == lq@.len(),
            n == ll@.len(),
            m > 0,
            m <= n,
            p <= n,
            ll@ == lowered(line@),
            forall|x: int|
                0 <= x < p ==> #[trigger] lowered(line@).subrange(x, x + lq@.len()) != lq@,
        decreases n - p,
    {
        if match_at(&ll, lq, p) {
            return true;
        }
        p = p + 1;
    }
    false
}

} // verus!
