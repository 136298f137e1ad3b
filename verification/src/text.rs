//! Splitting text the way `str::split`, `split_terminator` and `split_once`
//! do, over bytes and over characters, with the specifications the protocol
//! parsers are stated in.

use vstd::prelude::*;
use vstd::utf8::{decode_utf8, valid_utf8};

verus! {

/// Position of the first `x` in `s`.
pub open spec fn first_index<A>(s: Seq<A>, x: A) -> Option<int>
    decreases s.len(),
{
    if s.len() == 0 {
        None
    } else if s[0] == x {
        Some(0)
    } else {
        match first_index(s.drop_first(), x) {
            Some(i) => Some(i + 1),
            None => None,
        }
    }
}

/// The pieces of `s` between occurrences of `x` (as `str::split`): always at
/// least one piece.
pub open spec fn split_on<A>(s: Seq<A>, x: A) -> Seq<Seq<A>>
    decreases s.len(),
{
    match first_index(s, x) {
        None => seq![s],
        Some(i) => {
            if 0 <= i < s.len() {
                seq![s.take(i)] + split_on(s.skip(i + 1), x)
            } else {
                seq![s]
            }
        },
    }
}

/// `split_on` without an empty last piece (as `str::split_terminator`).
pub open spec fn split_terminator<A>(s: Seq<A>, x: A) -> Seq<Seq<A>> {
    let pieces = split_on(s, x);
    if pieces.last().len() == 0 {
        pieces.drop_last()
    } else {
        pieces
    }
}

/// The parts before and after the first `x` (as `str::split_once`).
pub open spec fn split_once<A>(s: Seq<A>, x: A) -> Option<(Seq<A>, Seq<A>)> {
    match first_index(s, x) {
        None => None,
        Some(i) => Some((s.take(i), s.skip(i + 1))),
    }
}

/// The pieces of `s` that index ranges `ranges` cut out.
pub open spec fn range_pieces<A>(s: Seq<A>, ranges: Seq<(usize, usize)>) -> Seq<Seq<A>> {
    Seq::new(ranges.len(), |k: int| s.subrange(ranges[k].0 as int, ranges[k].1 as int))
}

/// `first_index` finds an occurrence, and nothing before it matches.
pub proof fn lemma_first_index<A>(s: Seq<A>, x: A)
    ensures
        match first_index(s, x) {
            Some(i) => 0 <= i < s.len() && s[i] == x && forall|j: int| 0 <= j < i ==> s[j] != x,
            None => forall|j: int| 0 <= j < s.len() ==> s[j] != x,
        },
    decreases s.len(),
{
    if s.len() > 0 && s[0] != x {
        lemma_first_index(s.drop_first(), x);
        match first_index(s.drop_first(), x) {
            Some(i) => {
                assert forall|j: int| 0 <= j < i + 1 implies s[j] != x by {
                    if j > 0 {
                        assert(s[j] == s.drop_first()[j - 1]);
                    }
                }
            },
            None => {
                assert forall|j: int| 0 <= j < s.len() implies s[j] != x by {
                    if j > 0 {
                        assert(s[j] == s.drop_first()[j - 1]);
                    }
                }
            },
        }
    }
}

/// The first index at or after `from` where `s` holds `x`.
pub fn find_byte(s: &[u8], from: usize, x: u8) -> (i: Option<usize>)
    requires
        from <= s@.len(),
    ensures
        match first_index(s@.skip(from as int), x) {
            Some(k) => 0 <= k && from + k < s@.len() && i == Some((from + k) as usize),
            None => i is None,
        },
        i matches Some(j) ==> from <= j < s@.len() && s@[j as int] == x,
{
    let mut i = from;
    while i < s.len()
        invariant
            from <= i <= s@.len(),
            forall|j: int| from <= j < i ==> s@[j] != x,
        decreases s@.len() - i,
    {
        if s[i] == x {
            proof {
                let t = s@.skip(from as int);
                lemma_first_index(t, x);
                assert(t[i - from] == x);
                match first_index(t, x) {
                    Some(k) => {
                        if k < i - from {
                            assert(t[k] == s@[from + k]);
                        }
                    },
                    None => {},
                }
            }
            return Some(i);
        }
        i = i + 1;
    }
    proof {
        let t = s@.skip(from as int);
        lemma_first_index(t, x);
        match first_index(t, x) {
            Some(k) => {
                assert(t[k] == s@[from + k]);
            },
            None => {},
        }
    }
    None
}

/// The index ranges of the pieces `split_on` cuts `s` into at `x`.
pub fn split_bytes(s: &[u8], x: u8) -> (ranges: Vec<(usize, usize)>)
    ensures
        forall|k: int| 0 <= k < ranges@.len() ==> #[trigger] ranges@[k].0 <= ranges@[k].1 <= s@.len(),
        range_pieces(s@, ranges@) == split_on(s@, x),
{
    let mut ranges: Vec<(usize, usize)> = Vec::new();
    let mut start: usize = 0;
    let n = s.len();
    assert(s@.skip(0) =~= s@);
    loop
        invariant
            n == s@.len(),
            start <= s@.len(),
            split_on(s@, x) == range_pieces(s@, ranges@)
                + split_on(s@.skip(start as int), x),
            forall|k: int|
                0 <= k < ranges@.len() ==> #[trigger] ranges@[k].0 <= ranges@[k].1 <= s@.len(),
        decreases s@.len() - start,
    {
        let ghost rest = s@.skip(start as int);
        proof {
            lemma_first_index(rest, x);
        }
        match find_byte(s, start, x) {
            None => {
                let ghost prefix = range_pieces(s@, ranges@);
                let ghost old_ranges = ranges@;
                ranges.push((start, s.len()));
                assert forall|k: int| 0 <= k < ranges@.len() implies #[trigger] ranges@[k].0 <= ranges@[k].1 <= s@.len() by {
                    if k < old_ranges.len() {
                        assert(ranges@[k] == old_ranges[k]);
                    }
                }
                assert(s@.subrange(start as int, s@.len() as int) =~= rest);
                assert(range_pieces(s@, ranges@)
                    =~= prefix + seq![rest]);
                assert(split_on(rest, x) == seq![rest]);
                return ranges;
            },
            Some(i) => {
                let ghost prefix = range_pieces(s@, ranges@);
                let ghost k = i - start;
                assert(first_index(rest, x) == Some(k));
                let ghost old_ranges = ranges@;
                ranges.push((start, i));
                assert forall|k: int| 0 <= k < ranges@.len() implies #[trigger] ranges@[k].0 <= ranges@[k].1 <= s@.len() by {
                    if k < old_ranges.len() {
                        assert(ranges@[k] == old_ranges[k]);
                    }
                }
                assert(s@.subrange(start as int, i as int) =~= rest.take(k));
                assert(rest.skip(k + 1) =~= s@.skip(i + 1));
                assert(range_pieces(s@, ranges@)
                    =~= prefix + seq![rest.take(k)]);
                start = i + 1;
            },
        }
    }
}

/// The first index at or after `from` where the characters `s` hold `x`.
pub fn find_char(s: &[char], from: usize, x: char) -> (i: Option<usize>)
    requires
        from <= s@.len(),
    ensures
        match first_index(s@.skip(from as int), x) {
            Some(k) => 0 <= k && from + k < s@.len() && i == Some((from + k) as usize),
            None => i is None,
        },
        i matches Some(j) ==> from <= j < s@.len() && s@[j as int] == x,
{
    let mut i = from;
    while i < s.len()
        invariant
            from <= i <= s@.len(),
            forall|j: int| from <= j < i ==> s@[j] != x,
        decreases s@.len() - i,
    {
        if s[i] == x {
            proof {
                let t = s@.skip(from as int);
                lemma_first_index(t, x);
                assert(t[i - from] == x);
                match first_index(t, x) {
                    Some(k) => {
                        if k < i - from {
                            assert(t[k] == s@[from + k]);
                        }
                    },
                    None => {},
                }
            }
            return Some(i);
        }
        i = i + 1;
    }
    proof {
        let t = s@.skip(from as int);
        lemma_first_index(t, x);
        match first_index(t, x) {
            Some(k) => {
                assert(t[k] == s@[from + k]);
            },
            None => {},
        }
    }
    None
}

/// The index ranges of the pieces `split_on` cuts the characters `s` into at `x`.
pub fn split_chars(s: &[char], x: char) -> (ranges: Vec<(usize, usize)>)
    ensures
        forall|k: int| 0 <= k < ranges@.len() ==> #[trigger] ranges@[k].0 <= ranges@[k].1 <= s@.len(),
        range_pieces(s@, ranges@) == split_on(s@, x),
{
    let mut ranges: Vec<(usize, usize)> = Vec::new();
    let mut start: usize = 0;
    let n = s.len();
    assert(s@.skip(0) =~= s@);
    loop
        invariant
            n == s@.len(),
            start <= s@.len(),
            split_on(s@, x) == range_pieces(s@, ranges@)
                + split_on(s@.skip(start as int), x),
            forall|k: int|
                0 <= k < ranges@.len() ==> #[trigger] ranges@[k].0 <= ranges@[k].1 <= s@.len(),
        decreases s@.len() - start,
    {
        let ghost rest = s@.skip(start as int);
        proof {
            lemma_first_index(rest, x);
        }
        match find_char(s, start, x) {
            None => {
                let ghost prefix = range_pieces(s@, ranges@);
                let ghost old_ranges = ranges@;
                ranges.push((start, s.len()));
                assert forall|k: int| 0 <= k < ranges@.len() implies #[trigger] ranges@[k].0 <= ranges@[k].1 <= s@.len() by {
                    if k < old_ranges.len() {
                        assert(ranges@[k] == old_ranges[k]);
                    }
                }
                assert(s@.subrange(start as int, s@.len() as int) =~= rest);
                assert(range_pieces(s@, ranges@)
                    =~= prefix + seq![rest]);
                assert(split_on(rest, x) == seq![rest]);
                return ranges;
            },
            Some(i) => {
                let ghost prefix = range_pieces(s@, ranges@);
                let ghost k = i - start;
                assert(first_index(rest, x) == Some(k));
                let ghost old_ranges = ranges@;
                ranges.push((start, i));
                assert forall|k: int| 0 <= k < ranges@.len() implies #[trigger] ranges@[k].0 <= ranges@[k].1 <= s@.len() by {
                    if k < old_ranges.len() {
                        assert(ranges@[k] == old_ranges[k]);
                    }
                }
                assert(s@.subrange(start as int, i as int) =~= rest.take(k));
                assert(rest.skip(k + 1) =~= s@.skip(i + 1));
                assert(range_pieces(s@, ranges@)
                    =~= prefix + seq![rest.take(k)]);
                start = i + 1;
            },
        }
    }
}

/// The characters of `s`.
pub fn chars_of(s: &str) -> (v: Vec<char>)
    ensures
        v@ == s@,
{
    let n = s.unicode_len();
    let mut v: Vec<char> = Vec::new();
    let mut i: usize = 0;
    while i < n
        invariant
            n == s@.len(),
            i <= n,
            v@ == s@.take(i as int),
        decreases n - i,
    {
        v.push(s.get_char(i));
        assert(s@.take(i + 1) == s@.take(i as int).push(s@[i as int]));
        i = i + 1;
    }
    assert(s@.take(n as int) == s@);
    v
}

/// Appends `c` to `s`: `String::push`.
#[verifier::external_body]
pub(crate) fn push_char(s: &mut String, c: char)
    ensures
        final(s)@ == old(s)@.push(c),
{
    s.push(c)
}

/// The string made of `chars[lo..hi]`.
pub fn string_of(chars: &Vec<char>, lo: usize, hi: usize) -> (s: String)
    requires
        lo <= hi <= chars@.len(),
    ensures
        s@ == chars@.subrange(lo as int, hi as int),
{
    let mut s = String::new();
    let mut i = lo;
    while i < hi
        invariant
            lo <= i <= hi <= chars@.len(),
            s@ == chars@.subrange(lo as int, i as int),
        decreases hi - i,
    {
        push_char(&mut s, chars[i]);
        assert(chars@.subrange(lo as int, i + 1) == chars@.subrange(lo as int, i as int).push(chars@[i as int]));
        i = i + 1;
    }
    s
}

/// The pieces `split_terminator` cuts the characters `s` into at `x`, as
/// index ranges.
pub fn split_terminator_chars(s: &[char], x: char) -> (ranges: Vec<(usize, usize)>)
    ensures
        forall|k: int| 0 <= k < ranges@.len() ==> #[trigger] ranges@[k].0 <= ranges@[k].1 <= s@.len(),
        range_pieces(s@, ranges@) == split_terminator(s@, x),
{
    let mut ranges = split_chars(s, x);
    let ghost pieces = split_on(s@, x);
    if ranges.len() > 0 && ranges[ranges.len() - 1].0 == ranges[ranges.len() - 1].1 {
        assert(pieces.last() == s@.subrange(ranges@[ranges@.len() - 1].0 as int, ranges@[ranges@.len() - 1].1 as int));
        let ghost before = ranges@;
        ranges.pop();
        assert(range_pieces(s@, ranges@) =~= pieces.drop_last());
        assert forall|k: int| 0 <= k < ranges@.len() implies #[trigger] ranges@[k].0 <= ranges@[k].1 <= s@.len() by {
            assert(ranges@[k] == before[k]);
        }
    } else if ranges.len() > 0 {
        assert(pieces.last() == s@.subrange(ranges@[ranges@.len() - 1].0 as int, ranges@[ranges@.len() - 1].1 as int));
    }
    ranges
}

/// What `String::from_utf8_lossy` makes of `bytes`.
pub uninterp spec fn utf8_lossy(bytes: Seq<u8>) -> Seq<char>;

/// `String::from_utf8_lossy(bytes)`, owned: the text of `bytes`, where each
/// invalid sequence becomes U+FFFD; named `utf8_lossy`. Valid UTF-8 decodes
/// to the characters it encodes.
#[verifier::external_body]
pub(crate) fn decode_lossy(bytes: &[u8]) -> (s: String)
    ensures
        s@ == utf8_lossy(bytes@),
        valid_utf8(bytes@) ==> s@ == decode_utf8(bytes@),
{
    String::from_utf8_lossy(bytes).into_owned()
}

} // verus!
