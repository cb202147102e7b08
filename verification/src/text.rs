//! Character-level helpers shared by the parsers: whitespace, trimming,
//! ASCII case folding, searching and decimal rendering, each stated over
//! the `Seq<char>` view of a string.
use vstd::prelude::*;

verus! {

/// The Unicode `White_Space` property, the notion of whitespace that
/// `char::is_whitespace` and `str::trim` use.
pub open spec fn is_space(c: char) -> bool {
    ||| ('\u{9}' <= c && c <= '\u{d}')
    ||| c == ' '
    ||| c == '\u{85}'
    ||| c == '\u{a0}'
    ||| c == '\u{1680}'
    ||| ('\u{2000}' <= c && c <= '\u{200a}')
    ||| c == '\u{2028}'
    ||| c == '\u{2029}'
    ||| c == '\u{202f}'
    ||| c == '\u{205f}'
    ||| c == '\u{3000}'
}

/// Decides `is_space`.
pub fn is_space_char(c: char) -> (r: bool)
    ensures
        r == is_space(c),
{
    ('\u{9}' <= c && c <= '\u{d}') || c == ' ' || c == '\u{85}' || c == '\u{a0}' || c == '\u{1680}'
        || ('\u{2000}' <= c && c <= '\u{200a}') || c == '\u{2028}' || c == '\u{2029}' || c
        == '\u{202f}' || c == '\u{205f}' || c == '\u{3000}'
}

/// `s` without its leading characters that satisfy `p`.
pub open spec fn strip_start(s: Seq<char>, p: spec_fn(char) -> bool) -> Seq<char>
    decreases s.len(),
{
    if s.len() > 0 && p(s[0]) {
        strip_start(s.drop_first(), p)
    } else {
        s
    }
}

/// `s` without its trailing characters that satisfy `p`.
pub open spec fn strip_end(s: Seq<char>, p: spec_fn(char) -> bool) -> Seq<char>
    decreases s.len(),
{
    if s.len() > 0 && p(s.last()) {
        strip_end(s.drop_last(), p)
    } else {
        s
    }
}

/// The predicate of whitespace.
pub open spec fn space_pred() -> spec_fn(char) -> bool {
    |c: char| is_space(c)
}

/// The predicate that holds of one character only.
pub open spec fn char_pred(x: char) -> spec_fn(char) -> bool {
    |c: char| c == x
}

/// `str::trim_start`: leading whitespace removed.
pub open spec fn trim_start(s: Seq<char>) -> Seq<char> {
    strip_start(s, space_pred())
}

/// `str::trim_end`: trailing whitespace removed.
pub open spec fn trim_end(s: Seq<char>) -> Seq<char> {
    strip_end(s, space_pred())
}

/// `str::trim`: leading and trailing whitespace removed.
pub open spec fn trim(s: Seq<char>) -> Seq<char> {
    trim_end(trim_start(s))
}

/// `str::trim_matches(x)`: every leading and trailing `x` removed.
pub open spec fn trim_char(s: Seq<char>, x: char) -> Seq<char> {
    strip_end(strip_start(s, char_pred(x)), char_pred(x))
}

/// Skipping a prefix of `k` characters that satisfy `p`, stopping at one that
/// does not, is what `strip_start` does.
pub proof fn lemma_strip_start_skip(s: Seq<char>, p: spec_fn(char) -> bool, k: int)
    requires
        0 <= k <= s.len(),
        forall|i: int| 0 <= i < k ==> #[trigger] p(s[i]),
        k < s.len() ==> !p(s[k]),
    ensures
        strip_start(s, p) == s.skip(k),
    decreases k,
{
    if k == 0 {
        assert(s.skip(0) =~= s);
    } else {
        let t = s.drop_first();
        assert(forall|i: int| 0 <= i < k - 1 ==> t[i] == s[i + 1]);
        assert forall|i: int| 0 <= i < k - 1 implies #[trigger] p(t[i]) by {
            assert(p(s[i + 1]));
        }
        if k - 1 < t.len() {
            assert(t[k - 1] == s[k]);
        }
        lemma_strip_start_skip(t, p, k - 1);
        assert(t.skip(k - 1) =~= s.skip(k));
    }
}

/// Dropping a suffix from position `k` of characters that satisfy `p`, the
/// one before it failing `p`, is what `strip_end` does.
pub proof fn lemma_strip_end_take(s: Seq<char>, p: spec_fn(char) -> bool, k: int)
    requires
        0 <= k <= s.len(),
        forall|i: int| k <= i < s.len() ==> #[trigger] p(s[i]),
        k > 0 ==> !p(s[k - 1]),
    ensures
        strip_end(s, p) == s.take(k),
    decreases s.len() - k,
{
    if k == s.len() {
        assert(s.take(k) =~= s);
    } else {
        let t = s.drop_last();
        assert(p(s[s.len() - 1]));
        assert forall|i: int| k <= i < t.len() implies #[trigger] p(t[i]) by {
            assert(t[i] == s[i]);
            assert(p(s[i]));
        }
        if k > 0 {
            assert(t[k - 1] == s[k - 1]);
        }
        lemma_strip_end_take(t, p, k);
        assert(t.take(k) =~= s.take(k));
    }
}

/// A text that is not empty and neither starts nor ends with whitespace:
/// what `trim` leaves when anything is left.
pub open spec fn is_trimmed_nonempty(s: Seq<char>) -> bool {
    s.len() > 0 && !is_space(s[0]) && !is_space(s.last())
}

/// What `strip_start` leaves does not start with a stripped character.
proof fn lemma_strip_start_first(s: Seq<char>, p: spec_fn(char) -> bool)
    ensures
        strip_start(s, p).len() > 0 ==> !p(strip_start(s, p)[0]),
    decreases s.len(),
{
    if s.len() > 0 && p(s[0]) {
        lemma_strip_start_first(s.drop_first(), p);
    }
}

/// What `strip_end` leaves is a prefix that does not end with a stripped
/// character.
proof fn lemma_strip_end_prefix(s: Seq<char>, p: spec_fn(char) -> bool)
    ensures
        strip_end(s, p).len() <= s.len(),
        strip_end(s, p) == s.take(strip_end(s, p).len() as int),
        strip_end(s, p).len() > 0 ==> !p(strip_end(s, p).last()),
    decreases s.len(),
{
    if s.len() > 0 && p(s.last()) {
        let t = s.drop_last();
        lemma_strip_end_prefix(t, p);
        assert(t.take(strip_end(t, p).len() as int) =~= s.take(strip_end(t, p).len() as int));
    } else {
        assert(s.take(s.len() as int) =~= s);
    }
}

/// What `strip_start` leaves is a suffix.
proof fn lemma_strip_start_suffix(s: Seq<char>, p: spec_fn(char) -> bool)
    ensures
        strip_start(s, p).len() <= s.len(),
        strip_start(s, p) == s.skip(s.len() - strip_start(s, p).len()),
    decreases s.len(),
{
    if s.len() > 0 && p(s[0]) {
        let t = s.drop_first();
        lemma_strip_start_suffix(t, p);
        assert(t.skip(t.len() - strip_start(t, p).len()) =~= s.skip(
            s.len() - strip_start(t, p).len(),
        ));
    } else {
        assert(s.skip(0) =~= s);
    }
}

/// Stripping both ends keeps out a character that the text does not hold.
pub proof fn lemma_strip_keeps_absent(s: Seq<char>, p: spec_fn(char) -> bool, c: char)
    requires
        !s.contains(c),
    ensures
        !strip_end(strip_start(s, p), p).contains(c),
{
    let t = strip_start(s, p);
    let u = strip_end(t, p);
    lemma_strip_start_suffix(s, p);
    lemma_strip_end_prefix(t, p);
    let k = s.len() - t.len();
    if u.contains(c) {
        let i = choose|i: int| 0 <= i < u.len() && u[i] == c;
        assert(u[i] == t[i]);
        assert(t[i] == s[k + i]);
        assert(s.contains(c));
    }
}

/// Trimming leaves either nothing or a trimmed non-empty text.
pub proof fn lemma_trim_clean(s: Seq<char>)
    ensures
        trim(s).len() > 0 ==> is_trimmed_nonempty(trim(s)),
{
    let t = trim_start(s);
    lemma_strip_start_first(s, space_pred());
    lemma_strip_end_prefix(t, space_pred());
    if trim(s).len() > 0 {
        assert(trim(s)[0] == t[0]);
        assert(!space_pred()(trim(s).last()));
    }
}

/// Appends one character: `String::push`.
#[verifier::external_body]
pub(crate) fn push_char(s: &mut String, c: char)
    ensures
        final(s)@ == old(s)@.push(c),
{
    s.push(c);
}

/// The characters of a string, in order.
pub fn chars_of(s: &str) -> (v: Vec<char>)
    ensures
        v@ == s@,
{
    let mut v: Vec<char> = Vec::new();
    for c in it: s.chars()
        invariant
            v@ == it.seq().take(it.index() as int),
    {
        v.push(c);
    }
    v
}

/// A string made of the characters `cs[lo..hi]`.
pub fn string_of_range(cs: &[char], lo: usize, hi: usize) -> (s: String)
    requires
        lo <= hi <= cs@.len(),
    ensures
        s@ == cs@.subrange(lo as int, hi as int),
{
    let mut s = String::new();
    let mut i = lo;
    while i < hi
        invariant
            lo <= i <= hi <= cs@.len(),
            s@ == cs@.subrange(lo as int, i as int),
        decreases hi - i,
    {
        push_char(&mut s, cs[i]);
        assert(cs@.subrange(lo as int, i + 1) =~= cs@.subrange(lo as int, i as int).push(cs@[i as int]));
        i += 1;
    }
    s
}

/// A string made of all the characters of `cs`.
pub fn string_of(cs: &[char]) -> (s: String)
    ensures
        s@ == cs@,
{
    let s = string_of_range(cs, 0, cs.len());
    assert(cs@.subrange(0, cs@.len() as int) =~= cs@);
    s
}

/// The first position at or after `lo` whose character is not whitespace
/// (or `cs.len()`); a start past the end is returned as it is.
pub fn skip_whitespace(cs: &[char], lo: usize) -> (r: usize)
    ensures
        lo > cs@.len() ==> r == lo,
        lo <= cs@.len() ==> lo <= r <= cs@.len(),
        forall|i: int| lo <= i < r ==> is_space(#[trigger] cs@[i]),
        lo <= cs@.len() && r < cs@.len() ==> !is_space(cs@[r as int]),
{
    if lo > cs.len() {
        return lo;
    }
    let mut i = lo;
    while i < cs.len() && is_space_char(cs[i])
        invariant
            lo <= i <= cs@.len(),
            forall|j: int| lo <= j < i ==> is_space(#[trigger] cs@[j]),
        decreases cs@.len() - i,
    {
        i += 1;
    }
    i
}

/// The position after the last character of `cs[lo..hi]` that is not
/// whitespace (or `lo`).
pub fn trim_end_pos(cs: &[char], lo: usize, hi: usize) -> (r: usize)
    requires
        lo <= hi <= cs@.len(),
    ensures
        lo <= r <= hi,
        forall|i: int| r <= i < hi ==> is_space(#[trigger] cs@[i]),
        r > lo ==> !is_space(cs@[r - 1]),
{
    let mut j = hi;
    while j > lo && is_space_char(cs[j - 1])
        invariant
            lo <= j <= hi <= cs@.len(),
            forall|i: int| j <= i < hi ==> is_space(#[trigger] cs@[i]),
        decreases j,
    {
        j -= 1;
    }
    j
}

/// `trim` on the characters `cs[lo..hi]` is `cs[a..b]` for the returned pair.
pub fn trim_bounds(cs: &[char], lo: usize, hi: usize) -> (r: (usize, usize))
    requires
        lo <= hi <= cs@.len(),
    ensures
        lo <= r.0 <= r.1 <= hi,
        cs@.subrange(r.0 as int, r.1 as int) == trim(cs@.subrange(lo as int, hi as int)),
{
    let ghost s = cs@.subrange(lo as int, hi as int);
    let mut a = lo;
    while a < hi && is_space_char(cs[a])
        invariant
            lo <= a <= hi <= cs@.len(),
            forall|j: int| lo <= j < a ==> is_space(#[trigger] cs@[j]),
        decreases hi - a,
    {
        a += 1;
    }
    proof {
        assert forall|i: int| 0 <= i < a - lo implies #[trigger] space_pred()(s[i]) by {
            assert(s[i] == cs@[lo + i]);
        }
        lemma_strip_start_skip(s, space_pred(), a - lo);
    }
    let b = trim_end_pos(cs, a, hi);
    proof {
        let t = s.skip(a - lo);
        assert(t =~= cs@.subrange(a as int, hi as int));
        assert forall|i: int| b - a <= i < t.len() implies #[trigger] space_pred()(t[i]) by {
            assert(t[i] == cs@[a + i]);
        }
        if b > a {
            assert(t[b - a - 1] == cs@[b - 1]);
        }
        lemma_strip_end_take(t, space_pred(), b - a);
        assert(t.take(b - a) =~= cs@.subrange(a as int, b as int));
    }
    (a, b)
}

/// `str::trim`, giving an owned string.
pub fn trim_string(s: &str) -> (r: String)
    ensures
        r@ == trim(s@),
{
    let cs = chars_of(s);
    let (a, b) = trim_bounds(cs.as_slice(), 0, cs.len());
    assert(cs@.subrange(0, cs@.len() as int) =~= cs@);
    string_of_range(cs.as_slice(), a, b)
}

/// ASCII lower case of one character (`char::to_ascii_lowercase`).
pub open spec fn ascii_lower(c: char) -> char {
    if 'A' <= c && c <= 'Z' {
        ((c as u32) + 32) as char
    } else {
        c
    }
}

/// `str::to_ascii_lowercase` on the `Seq<char>` view.
pub open spec fn ascii_lower_seq(s: Seq<char>) -> Seq<char> {
    s.map_values(|c: char| ascii_lower(c))
}

/// Lower-casing twice is lower-casing once.
pub proof fn lemma_ascii_lower_idempotent(s: Seq<char>)
    ensures
        ascii_lower_seq(ascii_lower_seq(s)) == ascii_lower_seq(s),
{
    assert forall|i: int| 0 <= i < s.len() implies ascii_lower(ascii_lower(s[i])) == ascii_lower(
        s[i],
    ) by {
        let c = s[i];
        if 'A' <= c && c <= 'Z' {
            assert(((c as u32) + 32) as char == ((c as u32) + 32) as char);
        }
    }
    assert(ascii_lower_seq(ascii_lower_seq(s)) =~= ascii_lower_seq(s));
}

/// Decides `ascii_lower`.
pub fn ascii_lower_char(c: char) -> (r: char)
    ensures
        r == ascii_lower(c),
{
    if 'A' <= c && c <= 'Z' {
        let b = (c as u8) + 32;
        b as char
    } else {
        c
    }
}

/// `ascii_lower_seq` of `cs`, in a vector.
pub fn ascii_lower_vec(cs: &[char]) -> (r: Vec<char>)
    ensures
        r@ == ascii_lower_seq(cs@),
{
    let mut r: Vec<char> = Vec::new();
    for i in 0..cs.len()
        invariant
            r@ =~= ascii_lower_seq(cs@.take(i as int)),
    {
        r.push(ascii_lower_char(cs[i]));
        assert(cs@.take(i + 1) =~= cs@.take(i as int).push(cs@[i as int]));
    }
    assert(cs@.take(cs@.len() as int) =~= cs@);
    r
}

/// `needle` occurs in `hay` starting at position `i`.
pub open spec fn occurs_at(hay: Seq<char>, needle: Seq<char>, i: int) -> bool {
    0 <= i && i + needle.len() <= hay.len() && hay.subrange(i, i + needle.len()) == needle
}

/// `str::contains` with a string pattern.
pub open spec fn contains_seq(hay: Seq<char>, needle: Seq<char>) -> bool {
    exists|i: int| occurs_at(hay, needle, i)
}

/// `str::starts_with` with a string pattern.
pub open spec fn starts_with_seq(hay: Seq<char>, needle: Seq<char>) -> bool {
    occurs_at(hay, needle, 0)
}

/// Decides `occurs_at`.
pub fn occurs_at_exec(hay: &[char], needle: &[char], i: usize) -> (r: bool)
    ensures
        r == occurs_at(hay@, needle@, i as int),
{
    if i > hay.len() || needle.len() > hay.len() - i {
        return false;
    }
    let mut j: usize = 0;
    while j < needle.len()
        invariant
            i + needle@.len() <= hay.len(),
            0 <= j <= needle@.len(),
            forall|k: int| 0 <= k < j ==> hay@[i + k] == needle@[k],
        decreases needle@.len() - j,
    {
        if hay[i + j] != needle[j] {
            assert(hay@.subrange(i as int, i + needle@.len())[j as int] != needle@[j as int]);
            return false;
        }
        j += 1;
    }
    assert(hay@.subrange(i as int, i + needle@.len()) =~= needle@);
    true
}

/// Decides `contains_seq`.
pub fn contains_exec(hay: &[char], needle: &[char]) -> (r: bool)
    ensures
        r == contains_seq(hay@, needle@),
{
    let mut i: usize = 0;
    loop
        invariant
            0 <= i <= hay@.len(),
            forall|k: int| 0 <= k < i ==> !occurs_at(hay@, needle@, k),
        decreases hay@.len() - i,
    {
        if occurs_at_exec(hay, needle, i) {
            return true;
        }
        if i == hay.len() {
            assert forall|k: int| !occurs_at(hay@, needle@, k) by {
                if 0 <= k < i {
                }
            }
            return false;
        }
        i += 1;
    }
}

/// A decimal digit character.
pub open spec fn digit_char(d: nat) -> char {
    ((d + 48) as u32) as char
}

/// The decimal rendering of `n`, as `Display` for an unsigned integer writes it.
pub open spec fn decimal(n: nat) -> Seq<char>
    decreases n,
{
    if n < 10 {
        seq![digit_char(n)]
    } else {
        decimal(n / 10).push(digit_char(n % 10))
    }
}

/// Decides `decimal`.
pub fn decimal_string(n: usize) -> (s: String)
    ensures
        s@ == decimal(n as nat),
    decreases n,
{
    if n < 10 {
        let mut s = String::new();
        let b = (n as u8) + 48;
        push_char(&mut s, b as char);
        s
    } else {
        let mut s = decimal_string(n / 10);
        let b = ((n % 10) as u8) + 48;
        push_char(&mut s, b as char);
        s
    }
}

/// `trim_char(cs[lo..hi], x)` is `cs[a..b]` for the returned pair.
pub fn strip_char_bounds(cs: &[char], lo: usize, hi: usize, x: char) -> (r: (usize, usize))
    requires
        lo <= hi <= cs@.len(),
    ensures
        lo <= r.0 <= r.1 <= hi,
        cs@.subrange(r.0 as int, r.1 as int) == trim_char(cs@.subrange(lo as int, hi as int), x),
{
    let ghost s = cs@.subrange(lo as int, hi as int);
    let mut a = lo;
    while a < hi && cs[a] == x
        invariant
            lo <= a <= hi <= cs@.len(),
            forall|j: int| lo <= j < a ==> #[trigger] cs@[j] == x,
        decreases hi - a,
    {
        a += 1;
    }
    proof {
        assert forall|i: int| 0 <= i < a - lo implies #[trigger] char_pred(x)(s[i]) by {
            assert(s[i] == cs@[lo + i]);
        }
        lemma_strip_start_skip(s, char_pred(x), a - lo);
    }
    let mut b = hi;
    while b > a && cs[b - 1] == x
        invariant
            lo <= a <= b <= hi <= cs@.len(),
            forall|j: int| b <= j < hi ==> #[trigger] cs@[j] == x,
        decreases b,
    {
        b -= 1;
    }
    proof {
        let t = s.skip(a - lo);
        assert(t =~= cs@.subrange(a as int, hi as int));
        assert forall|i: int| b - a <= i < t.len() implies #[trigger] char_pred(x)(t[i]) by {
            assert(t[i] == cs@[a + i]);
        }
        if b > a {
            assert(t[b - a - 1] == cs@[b - 1]);
        }
        lemma_strip_end_take(t, char_pred(x), b - a);
        assert(t.take(b - a) =~= cs@.subrange(a as int, b as int));
    }
    (a, b)
}

} // verus!
