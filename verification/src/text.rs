//! Byte-level text model shared by the collector's parsers.
//!
//! The kernel-exposed sources this library reads are line-oriented ASCII
//! text.  This module fixes the mathematical meaning of splitting such text
//! into lines and whitespace-separated tokens, of reading unsigned decimal
//! numbers permissively (malformed input yields a definite value rather than
//! an error), and of the small string utilities the collector needs, and it
//! provides executable functions proved against those definitions.

use vstd::prelude::*;

verus! {

// ---------------------------------------------------------------------------
// Whitespace, lines and tokens
// ---------------------------------------------------------------------------

/// ASCII whitespace that separates tokens within one line: space, tab,
/// carriage return.  Line feeds never occur inside a line.
pub open spec fn is_ws(b: u8) -> bool {
    b == 32 || b == 9 || b == 13
}

/// Whitespace stripped from the ends of a short process name: token
/// whitespace together with the line feed.
pub open spec fn is_trim_ws(b: u8) -> bool {
    is_ws(b) || b == 10
}

/// The lines of `s`: maximal runs separated by line feeds (byte 10), with the
/// final empty segment after a trailing line feed dropped, so that an empty
/// text and a text ending in a line feed produce no trailing empty line.
pub open spec fn lines_of(s: Seq<u8>) -> Seq<Seq<u8>>
    decreases s.len(),
{
    if s.len() == 0 {
        Seq::empty()
    } else if s[0] == 10 {
        seq![Seq::<u8>::empty()] + lines_of(s.drop_first())
    } else {
        let rest = lines_of(s.drop_first());
        if rest.len() == 0 {
            seq![seq![s[0]]]
        } else {
            seq![seq![s[0]] + rest[0]] + rest.drop_first()
        }
    }
}

/// The whitespace-separated tokens of one line: the maximal runs of
/// non-whitespace bytes, in order.
pub open spec fn tokens_of(s: Seq<u8>) -> Seq<Seq<u8>>
    decreases s.len(),
{
    if s.len() == 0 {
        Seq::empty()
    } else if is_ws(s[0]) {
        tokens_of(s.drop_first())
    } else {
        let rest = tokens_of(s.drop_first());
        if s.len() > 1 && !is_ws(s[1]) {
            seq![seq![s[0]] + rest[0]] + rest.drop_first()
        } else {
            seq![seq![s[0]]] + rest
        }
    }
}

/// A non-empty run of non-whitespace bytes followed by whitespace or the end
/// of the line is the first token; what follows it tokenizes independently.
proof fn lemma_tokens_head(s: Seq<u8>, j: int)
    requires
        0 < j <= s.len(),
        forall|k: int| 0 <= k < j ==> !is_ws(s[k]),
        j == s.len() || is_ws(s[j]),
    ensures
        tokens_of(s) == seq![s.subrange(0, j)] + tokens_of(s.subrange(j, s.len() as int)),
    decreases j,
{
    if j == 1 {
        if s.len() == 1 {
            assert(s.subrange(1, 1) =~= Seq::<u8>::empty());
            assert(s.drop_first() =~= Seq::<u8>::empty());
            assert(s.subrange(0, 1) =~= seq![s[0]]);
            assert(tokens_of(s) =~~= seq![s.subrange(0, 1)] + tokens_of(
                s.subrange(1, s.len() as int),
            ));
        } else {
            assert(is_ws(s[1]));
            assert(s.drop_first() =~= s.subrange(1, s.len() as int));
            assert(s.subrange(0, 1) =~= seq![s[0]]);
            assert(tokens_of(s) =~~= seq![s.subrange(0, 1)] + tokens_of(
                s.subrange(1, s.len() as int),
            ));
        }
    } else {
        let d = s.drop_first();
        assert(d =~= s.subrange(1, s.len() as int));
        assert(forall|k: int| 0 <= k < j - 1 ==> !is_ws(d[k]));
        lemma_tokens_head(d, j - 1);
        let rest = tokens_of(d);
        assert(rest == seq![d.subrange(0, j - 1)] + tokens_of(d.subrange(j - 1, d.len() as int)));
        assert(rest[0] == d.subrange(0, j - 1));
        assert(seq![s[0]] + rest[0] =~= s.subrange(0, j));
        assert(rest.drop_first() =~= tokens_of(d.subrange(j - 1, d.len() as int)));
        assert(d.subrange(j - 1, d.len() as int) =~= s.subrange(j, s.len() as int));
        assert(!is_ws(s[1]));
        assert(tokens_of(s) == seq![seq![s[0]] + rest[0]] + rest.drop_first());
        assert(tokens_of(s) =~~= seq![s.subrange(0, j)] + tokens_of(s.subrange(j, s.len() as int)));
    }
}

/// A non-empty run without line feeds, up to a line feed or the end of the
/// text, is the first line; what follows the line feed splits independently.
proof fn lemma_lines_head(s: Seq<u8>, j: int)
    requires
        0 <= j <= s.len(),
        forall|k: int| 0 <= k < j ==> s[k] != 10,
        j == s.len() || s[j] == 10,
    ensures
        j == s.len() && j > 0 ==> lines_of(s) == seq![s],
        j < s.len() ==> lines_of(s) == seq![s.subrange(0, j)] + lines_of(
            s.subrange(j + 1, s.len() as int),
        ),
    decreases j,
{
    if j == 0 {
        if j < s.len() {
            assert(s[0] == 10);
            assert(s.drop_first() =~= s.subrange(1, s.len() as int));
            assert(s.subrange(0, 0) =~= Seq::<u8>::empty());
            assert(lines_of(s) =~~= seq![s.subrange(0, 0)] + lines_of(
                s.subrange(1, s.len() as int),
            ));
        }
    } else {
        let d = s.drop_first();
        assert(d =~= s.subrange(1, s.len() as int));
        lemma_lines_head(d, j - 1);
        if j == s.len() {
            if s.len() == 1 {
                assert(lines_of(d).len() == 0);
                assert(lines_of(s) == seq![seq![s[0]]]);
                assert(seq![s[0]] =~= s);
            } else {
                let rest = lines_of(d);
                assert(rest == seq![d]);
                assert(seq![s[0]] + rest[0] =~= s);
                assert(rest.drop_first() =~= Seq::<Seq<u8>>::empty());
                assert(lines_of(s) =~~= seq![s]);
            }
        } else {
            let rest = lines_of(d);
            assert(rest == seq![d.subrange(0, j - 1)] + lines_of(d.subrange(j, d.len() as int)));
            assert(rest.len() > 0);
            assert(rest[0] == d.subrange(0, j - 1));
            assert(seq![s[0]] + rest[0] =~= s.subrange(0, j));
            assert(rest.drop_first() =~= lines_of(d.subrange(j, d.len() as int)));
            assert(d.subrange(j, d.len() as int) =~= s.subrange(j + 1, s.len() as int));
            assert(lines_of(s) =~~= seq![s.subrange(0, j)] + lines_of(
                s.subrange(j + 1, s.len() as int),
            ));
        }
    }
}

// ---------------------------------------------------------------------------
// Unsigned decimal numbers
// ---------------------------------------------------------------------------

/// An ASCII decimal digit.
pub open spec fn is_digit(b: u8) -> bool {
    48 <= b <= 57
}

pub open spec fn all_digits(s: Seq<u8>) -> bool {
    forall|i: int| 0 <= i < s.len() ==> is_digit(s[i])
}

/// The value of a digit sequence read as a decimal number.
pub open spec fn dec_val(s: Seq<u8>) -> int
    decreases s.len(),
{
    if s.len() == 0 {
        0
    } else {
        dec_val(s.drop_last()) * 10 + (s.last() - 48)
    }
}

proof fn lemma_dec_val_nonneg(s: Seq<u8>)
    requires
        all_digits(s),
    ensures
        dec_val(s) >= 0,
    decreases s.len(),
{
    if s.len() > 0 {
        assert(all_digits(s.drop_last()));
        lemma_dec_val_nonneg(s.drop_last());
    }
}

/// The digits of an unsigned decimal token: a single leading plus sign is
/// accepted and ignored, as the standard unsigned parser does.
pub open spec fn digits_part(t: Seq<u8>) -> Seq<u8> {
    if t.len() > 0 && t[0] == 43 {
        t.drop_first()
    } else {
        t
    }
}

/// Whether a token is a well-formed unsigned decimal number whose value is at
/// most `max`.
pub open spec fn parses_as_uint(t: Seq<u8>, max: int) -> bool {
    let d = digits_part(t);
    d.len() > 0 && all_digits(d) && dec_val(d) <= max
}

/// The permissive reading of a counter value: a well-formed number in range
/// gives its value; anything else gives 0.
pub open spec fn u64_of_token(t: Seq<u8>) -> u64 {
    if parses_as_uint(t, u64::MAX as int) {
        dec_val(digits_part(t)) as u64
    } else {
        0
    }
}

/// The strict reading of an identifier: a well-formed number in range gives
/// its value, anything else fails.
pub open spec fn u32_result(t: Seq<u8>) -> Option<u32> {
    if parses_as_uint(t, u32::MAX as int) {
        Some(dec_val(digits_part(t)) as u32)
    } else {
        None
    }
}

// ---------------------------------------------------------------------------
// Trimming and substring search
// ---------------------------------------------------------------------------

pub open spec fn trim_front(s: Seq<u8>) -> Seq<u8>
    decreases s.len(),
{
    if s.len() > 0 && is_trim_ws(s[0]) {
        trim_front(s.drop_first())
    } else {
        s
    }
}

pub open spec fn trim_back(s: Seq<u8>) -> Seq<u8>
    decreases s.len(),
{
    if s.len() > 0 && is_trim_ws(s.last()) {
        trim_back(s.drop_last())
    } else {
        s
    }
}

/// Whitespace stripped from both ends, as the short process name source is
/// cleaned up.
pub open spec fn trim_of(s: Seq<u8>) -> Seq<u8> {
    trim_back(trim_front(s))
}

/// Whether `needle` occurs contiguously anywhere in `hay`.
pub open spec fn contains_seq(hay: Seq<u8>, needle: Seq<u8>) -> bool {
    exists|i: int|
        0 <= i && i + needle.len() <= hay.len() && #[trigger] hay.subrange(
            i,
            i + needle.len() as int,
        ) == needle
}

/// The decimal digits of a non-negative number, most significant first.
pub open spec fn dec_digits_of(n: int) -> Seq<u8>
    decreases n,
{
    if n < 10 {
        seq![(48 + n) as u8]
    } else {
        dec_digits_of(n / 10) + seq![(48 + n % 10) as u8]
    }
}

// ---------------------------------------------------------------------------
// Executable counterparts
// ---------------------------------------------------------------------------

/// Whether two byte strings hold the same bytes.
pub fn bytes_eq(a: &[u8], b: &[u8]) -> (r: bool)
    ensures
        r <==> a@ == b@,
{
    if a.len() != b.len() {
        assert(a@ != b@);
        return false;
    }
    let n = a.len();
    let mut i: usize = 0;
    while i < n
        invariant
            n == a.len() == b.len(),
            0 <= i <= n,
            forall|k: int| 0 <= k < i ==> a@[k] == b@[k],
        decreases n - i,
    {
        if a[i] != b[i] {
            assert(a@ != b@);
            return false;
        }
        i += 1;
    }
    assert(a@ =~= b@);
    true
}

fn is_ws_byte(b: u8) -> (r: bool)
    ensures
        r == is_ws(b),
{
    b == 32 || b == 9 || b == 13
}

/// Splits a text into its lines.
pub fn split_lines(s: &[u8]) -> (r: Vec<Vec<u8>>)
    ensures
        r.deep_view() == lines_of(s@),
{
    let mut r: Vec<Vec<u8>> = Vec::new();
    let mut i: usize = 0;
    proof {
        assert(s@.skip(0) =~= s@);
        assert(r.deep_view() + lines_of(s@.skip(0)) =~~= lines_of(s@));
    }
    while i < s.len()
        invariant
            0 <= i <= s@.len(),
            r.deep_view() + lines_of(s@.skip(i as int)) =~~= lines_of(s@),
        decreases s@.len() - i,
    {
        let ghost start_tail = s@.skip(i as int);
        let mut j: usize = i;
        while j < s.len() && s[j] != 10
            invariant
                i <= j <= s@.len(),
                forall|k: int| i <= k < j ==> s@[k] != 10,
            decreases s@.len() - j,
        {
            j += 1;
        }
        let mut line: Vec<u8> = Vec::new();
        let mut k: usize = i;
        while k < j
            invariant
                i <= k <= j <= s@.len(),
                line@ =~= s@.subrange(i as int, k as int),
            decreases j - k,
        {
            line.push(s[k]);
            k += 1;
        }
        assert(line@ =~= start_tail.subrange(0, j - i));
        proof {
            assert(forall|t: int| 0 <= t < j - i ==> start_tail[t] != 10);
            assert(j < s@.len() ==> start_tail[j - i] == 10);
            lemma_lines_head(start_tail, j - i);
        }
        let old_r = Ghost(r.deep_view());
        r.push(line);
        assert(r.deep_view() =~~= old_r@.push(line@));
        if j < s.len() {
            proof {
                assert(start_tail.subrange(j - i + 1, start_tail.len() as int) =~= s@.skip(
                    j + 1 as int,
                ));
                assert(r.deep_view() + lines_of(s@.skip(j + 1 as int)) =~~= lines_of(s@));
            }
            i = j + 1;
        } else {
            proof {
                assert(start_tail.subrange(0, j - i) =~= start_tail);
                assert(lines_of(start_tail) == seq![start_tail]);
                assert(lines_of(s@.skip(s@.len() as int)) =~~= Seq::<Seq<u8>>::empty());
                assert(r.deep_view() + lines_of(s@.skip(s@.len() as int)) =~~= lines_of(s@));
            }
            i = s.len();
        }
    }
    assert(s@.skip(i as int) =~= Seq::<u8>::empty());
    assert(r.deep_view() =~~= lines_of(s@));
    r
}

/// Splits one line into its whitespace-separated tokens.
pub fn tokenize(s: &[u8]) -> (r: Vec<Vec<u8>>)
    ensures
        r.deep_view() == tokens_of(s@),
{
    let mut r: Vec<Vec<u8>> = Vec::new();
    let mut i: usize = 0;
    proof {
        assert(s@.skip(0) =~= s@);
        assert(r.deep_view() + tokens_of(s@.skip(0)) =~~= tokens_of(s@));
    }
    while i < s.len()
        invariant
            0 <= i <= s@.len(),
            r.deep_view() + tokens_of(s@.skip(i as int)) =~~= tokens_of(s@),
        decreases s@.len() - i,
    {
        if is_ws_byte(s[i]) {
            proof {
                let tail = s@.skip(i as int);
                assert(tail.drop_first() =~= s@.skip(i + 1));
                assert(tokens_of(tail) == tokens_of(s@.skip(i + 1)));
            }
            i += 1;
        } else {
            let ghost start_tail = s@.skip(i as int);
            let mut j: usize = i + 1;
            while j < s.len() && !is_ws_byte(s[j])
                invariant
                    i < j <= s@.len(),
                    forall|k: int| i <= k < j ==> !is_ws(s@[k]),
                    !is_ws(s@[i as int]),
                decreases s@.len() - j,
            {
                j += 1;
            }
            let mut tok: Vec<u8> = Vec::new();
            let mut k: usize = i;
            while k < j
                invariant
                    i <= k <= j <= s@.len(),
                    tok@ =~= s@.subrange(i as int, k as int),
                decreases j - k,
            {
                tok.push(s[k]);
                k += 1;
            }
            assert(tok@ =~= start_tail.subrange(0, j - i));
            proof {
                assert(forall|t: int| 0 <= t < j - i ==> !is_ws(start_tail[t]));
                assert(j < s@.len() ==> is_ws(start_tail[j - i]));
                lemma_tokens_head(start_tail, j - i);
                assert(start_tail.subrange(j - i, start_tail.len() as int) =~= s@.skip(j as int));
            }
            let old_r = Ghost(r.deep_view());
            r.push(tok);
            assert(r.deep_view() =~~= old_r@.push(tok@));
            assert(r.deep_view() + tokens_of(s@.skip(j as int)) =~~= tokens_of(s@));
            i = j;
        }
    }
    assert(s@.skip(i as int) =~= Seq::<u8>::empty());
    assert(r.deep_view() =~~= tokens_of(s@));
    r
}

/// Reads a token as an unsigned 64-bit counter value; malformed or
/// out-of-range tokens read as 0.
pub fn parse_u64_or_zero(t: &[u8]) -> (r: u64)
    ensures
        r == u64_of_token(t@),
{
    let start: usize = if t.len() > 0 && t[0] == 43 {
        1
    } else {
        0
    };
    let ghost d = digits_part(t@);
    proof {
        assert(d =~= t@.subrange(start as int, t@.len() as int));
    }
    if start == t.len() {
        assert(d.len() == 0);
        return 0;
    }
    let mut acc: u128 = 0;
    let mut over: bool = false;
    let mut i: usize = start;
    while i < t.len()
        invariant
            start <= i <= t@.len(),
            d == digits_part(t@),
            d =~= t@.subrange(start as int, t@.len() as int),
            all_digits(d.take(i - start)),
            !over ==> acc == dec_val(d.take(i - start)) && acc <= u64::MAX,
            over ==> dec_val(d.take(i - start)) > u64::MAX,
        decreases t@.len() - i,
    {
        let b = t[i];
        if b < 48 || b > 57 {
            proof {
                assert(d[i - start] == b);
                assert(!is_digit(d[i - start]));
                assert(!all_digits(d));
                assert(!parses_as_uint(t@, u64::MAX as int));
            }
            return 0;
        }
        let ghost prev = d.take(i - start);
        let ghost cur = d.take(i - start + 1);
        proof {
            assert(cur.drop_last() =~= prev);
            assert(cur.last() == d[i - start]);
            assert(dec_val(cur) == dec_val(prev) * 10 + (b - 48));
            lemma_dec_val_nonneg(prev);
        }
        if over {
            proof {
                assert(dec_val(cur) > u64::MAX);
            }
        } else {
            let next: u128 = acc * 10 + (b - 48) as u128;
            if next > u64::MAX as u128 {
                over = true;
                proof {
                    assert(dec_val(cur) > u64::MAX);
                }
            } else {
                acc = next;
            }
        }
        i += 1;
    }
    proof {
        assert(d.take(t@.len() - start) =~= d);
    }
    if over {
        assert(!parses_as_uint(t@, u64::MAX as int));
        0
    } else {
        assert(parses_as_uint(t@, u64::MAX as int));
        acc as u64
    }
}

/// Reads a token as an unsigned 32-bit identifier; malformed or out-of-range
/// tokens fail.
pub fn parse_u32_token(t: &[u8]) -> (r: Option<u32>)
    ensures
        r == u32_result(t@),
{
    let start: usize = if t.len() > 0 && t[0] == 43 {
        1
    } else {
        0
    };
    let ghost d = digits_part(t@);
    proof {
        assert(d =~= t@.subrange(start as int, t@.len() as int));
    }
    if start == t.len() {
        assert(d.len() == 0);
        return None;
    }
    let mut acc: u64 = 0;
    let mut over: bool = false;
    let mut i: usize = start;
    while i < t.len()
        invariant
            start <= i <= t@.len(),
            d == digits_part(t@),
            d =~= t@.subrange(start as int, t@.len() as int),
            all_digits(d.take(i - start)),
            !over ==> acc == dec_val(d.take(i - start)) && acc <= u32::MAX,
            over ==> dec_val(d.take(i - start)) > u32::MAX,
        decreases t@.len() - i,
    {
        let b = t[i];
        if b < 48 || b > 57 {
            proof {
                assert(d[i - start] == b);
                assert(!is_digit(d[i - start]));
                assert(!all_digits(d));
                assert(!parses_as_uint(t@, u32::MAX as int));
            }
            return None;
        }
        let ghost prev = d.take(i - start);
        let ghost cur = d.take(i - start + 1);
        proof {
            assert(cur.drop_last() =~= prev);
            assert(cur.last() == d[i - start]);
            assert(dec_val(cur) == dec_val(prev) * 10 + (b - 48));
            lemma_dec_val_nonneg(prev);
        }
        if over {
            proof {
                assert(dec_val(cur) > u32::MAX);
            }
        } else {
            let next: u64 = acc * 10 + (b - 48) as u64;
            if next > u32::MAX as u64 {
                over = true;
                proof {
                    assert(dec_val(cur) > u32::MAX);
                }
            } else {
                acc = next;
            }
        }
        i += 1;
    }
    proof {
        assert(d.take(t@.len() - start) =~= d);
    }
    if over {
        assert(!parses_as_uint(t@, u32::MAX as int));
        None
    } else {
        assert(parses_as_uint(t@, u32::MAX as int));
        Some(acc as u32)
    }
}

/// Strips whitespace from both ends of a byte string.
pub fn trim_bytes(s: &[u8]) -> (r: Vec<u8>)
    ensures
        r@ == trim_of(s@),
{
    let mut a: usize = 0;
    proof {
        assert(s@.skip(0) =~= s@);
    }
    while a < s.len() && (is_ws_byte(s[a]) || s[a] == 10)
        invariant
            0 <= a <= s@.len(),
            trim_front(s@) == trim_front(s@.skip(a as int)),
            forall|k: int| 0 <= k < a ==> is_trim_ws(s@[k]),
        decreases s@.len() - a,
    {
        proof {
            let tail = s@.skip(a as int);
            assert(tail.drop_first() =~= s@.skip(a + 1));
            assert(trim_front(tail) == trim_front(s@.skip(a + 1)));
        }
        a += 1;
    }
    proof {
        let tail = s@.skip(a as int);
        assert(trim_front(tail) == tail);
    }
    let ghost fr = trim_front(s@);
    proof {
        assert(fr =~= s@.subrange(a as int, s@.len() as int));
    }
    let mut b: usize = s.len();
    while b > a && (is_ws_byte(s[b - 1]) || s[b - 1] == 10)
        invariant
            a <= b <= s@.len(),
            fr == trim_front(s@),
            fr =~= s@.subrange(a as int, s@.len() as int),
            trim_back(fr) == trim_back(s@.subrange(a as int, b as int)),
        decreases b,
    {
        proof {
            let cur = s@.subrange(a as int, b as int);
            assert(cur.last() == s@[b - 1]);
            assert(cur.drop_last() =~= s@.subrange(a as int, b - 1));
            assert(trim_back(cur) == trim_back(s@.subrange(a as int, b - 1)));
        }
        b -= 1;
    }
    proof {
        let cur = s@.subrange(a as int, b as int);
        if cur.len() > 0 {
            assert(cur.last() == s@[b - 1]);
        }
        assert(trim_back(cur) == cur);
    }
    let mut r: Vec<u8> = Vec::new();
    let mut k: usize = a;
    while k < b
        invariant
            a <= k <= b <= s@.len(),
            r@ =~= s@.subrange(a as int, k as int),
        decreases b - k,
    {
        r.push(s[k]);
        k += 1;
    }
    assert(r@ =~= s@.subrange(a as int, b as int));
    r
}

fn match_at(hay: &[u8], i: usize, needle: &[u8]) -> (r: bool)
    requires
        i + needle@.len() <= hay@.len(),
    ensures
        r <==> hay@.subrange(i as int, i + needle@.len() as int) == needle@,
{
    let m = needle.len();
    let n = hay.len();
    let mut k: usize = 0;
    while k < m
        invariant
            0 <= k <= m == needle@.len(),
            n == hay@.len(),
            i + m <= n,
            forall|t: int| 0 <= t < k ==> hay@[i + t] == needle@[t],
        decreases m - k,
    {
        if hay[i + k] != needle[k] {
            assert(hay@.subrange(i as int, i + needle@.len() as int)[k as int] != needle@[k as int]);
            return false;
        }
        k += 1;
    }
    assert(hay@.subrange(i as int, i + needle@.len() as int) =~= needle@);
    true
}

/// Whether `needle` occurs contiguously anywhere in `hay`.
pub fn contains_bytes(hay: &[u8], needle: &[u8]) -> (r: bool)
    ensures
        r == contains_seq(hay@, needle@),
{
    if needle.len() > hay.len() {
        assert(!contains_seq(hay@, needle@));
        return false;
    }
    if needle.len() == 0 {
        proof {
            assert(hay@.subrange(0, 0 + needle@.len() as int) =~= needle@);
            assert(contains_seq(hay@, needle@));
        }
        return true;
    }
    let n = hay.len();
    let m = needle.len();
    let last = n - m;
    let mut i: usize = 0;
    while i <= last
        invariant
            0 <= i <= last + 1,
            1 <= m == needle@.len(),
            n == hay@.len(),
            last == n - m,
            forall|t: int|
                0 <= t < i ==> #[trigger] hay@.subrange(t, t + needle@.len() as int) != needle@,
        decreases last + 1 - i,
    {
        if match_at(hay, i, needle) {
            assert(contains_seq(hay@, needle@));
            return true;
        }
        i += 1;
    }
    assert(!contains_seq(hay@, needle@));
    false
}

/// Renders an unsigned identifier in decimal.
pub fn u32_to_dec(n: u32) -> (r: Vec<u8>)
    ensures
        r@ == dec_digits_of(n as int),
    decreases n,
{
    if n < 10 {
        let mut r: Vec<u8> = Vec::new();
        r.push(48 + n as u8);
        assert(r@ =~= dec_digits_of(n as int));
        r
    } else {
        let mut r = u32_to_dec(n / 10);
        r.push(48 + (n % 10) as u8);
        assert(r@ =~= dec_digits_of(n as int));
        r
    }
}

} // verus!
