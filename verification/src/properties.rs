//! The Java properties format: physical lines, backslash continuations,
//! comments, key/value separators and escapes.
use vstd::prelude::*;
use crate::error::ConfigError;
use crate::text::{
    char_pred, chars_of, decimal, decimal_string, is_space, is_space_char, push_char, skip_whitespace,
    string_of, strip_end, trim_start, lemma_strip_end_take, lemma_strip_start_skip, space_pred,
};
use crate::value::{OrderedMap, assoc_insert};

verus! {

// ---------------------------------------------------------------------------
// Physical and logical lines
// ---------------------------------------------------------------------------
/// The state after reading `n` characters of `s` while cutting it at line
/// feeds: the finished lines and the current one.
pub open spec fn line_state(s: Seq<char>, n: nat) -> (Seq<Seq<char>>, Seq<char>)
    decreases n,
{
    if n == 0 {
        (Seq::empty(), Seq::empty())
    } else {
        let (done, cur) = line_state(s, (n - 1) as nat);
        if s[n - 1] == '\n' {
            (done.push(cur), Seq::empty())
        } else {
            (done, cur.push(s[n - 1]))
        }
    }
}

/// The lines of `s` as `str::lines` cuts them before carriage returns are
/// dropped: text between line feeds, the final line feed being optional.
pub open spec fn physical_lines(s: Seq<char>) -> Seq<Seq<char>> {
    let (done, cur) = line_state(s, s.len());
    if cur.len() > 0 {
        done.push(cur)
    } else {
        done
    }
}

/// A line without its trailing carriage returns.
pub open spec fn strip_cr(line: Seq<char>) -> Seq<char> {
    strip_end(line, char_pred('\r'))
}

/// The number of backslashes that end `s`.
pub open spec fn trailing_backslashes(s: Seq<char>) -> nat
    decreases s.len(),
{
    if s.len() > 0 && s.last() == '\\' {
        trailing_backslashes(s.drop_last()) + 1
    } else {
        0
    }
}

/// A line continues on the next one when it ends with an odd number of
/// backslashes.
pub open spec fn continues(line: Seq<char>) -> bool {
    trailing_backslashes(line) % 2 == 1
}

/// A comment line: its first non-whitespace character is `#` or `!`.
pub open spec fn is_comment_line(line: Seq<char>) -> bool {
    let t = trim_start(line);
    t.len() > 0 && (t[0] == '#' || t[0] == '!')
}

/// The state after the first `n` physical lines: the finished logical lines,
/// each with the number of the physical line it starts on, and the logical
/// line still open, if any.
///
/// A comment line that starts a logical line stands alone, as in the Java
/// properties format: a trailing backslash does not continue it. Any other
/// line that continues loses its final backslash; a line that follows a
/// continued one is appended without its leading whitespace.
pub open spec fn logical_state(lines: Seq<Seq<char>>, n: nat) -> (
    Seq<(nat, Seq<char>)>,
    Option<(nat, Seq<char>)>,
)
    decreases n,
{
    if n == 0 {
        (Seq::empty(), None)
    } else {
        let (done, cur) = logical_state(lines, (n - 1) as nat);
        let line = strip_cr(lines[n - 1]);
        if cur is None && is_comment_line(line) {
            (done.push((n, line)), None)
        } else {
            let buf = match cur {
                Some((number, text)) => (number, text + trim_start(line)),
                None => (n, line),
            };
            if continues(line) {
                (done, Some((buf.0, buf.1.drop_last())))
            } else {
                (done.push(buf), None)
            }
        }
    }
}

/// The logical lines of `s`, each with the number of its first physical line.
pub open spec fn logical_lines_of(s: Seq<char>) -> Seq<(nat, Seq<char>)> {
    let lines = physical_lines(s);
    let (done, cur) = logical_state(lines, lines.len());
    match cur {
        Some(e) => done.push(e),
        None => done,
    }
}

// ---------------------------------------------------------------------------
// Entries
// ---------------------------------------------------------------------------
/// The position of the first separator (`=`, `:` or whitespace) at or after
/// `i` that no backslash escapes; `escaped` says whether the character at `i`
/// is escaped.
pub open spec fn separator_from(t: Seq<char>, i: int, escaped: bool) -> Option<int>
    decreases t.len() - i,
{
    if i < 0 || i >= t.len() {
        None
    } else if escaped {
        separator_from(t, i + 1, false)
    } else if t[i] == '\\' {
        separator_from(t, i + 1, true)
    } else if t[i] == '=' || t[i] == ':' || is_space(t[i]) {
        Some(i)
    } else {
        separator_from(t, i + 1, false)
    }
}

/// The first position at or after `i` whose character is not whitespace.
pub open spec fn skip_space_from(t: Seq<char>, i: int) -> int
    decreases t.len() - i,
{
    if 0 <= i < t.len() && is_space(t[i]) {
        skip_space_from(t, i + 1)
    } else {
        i
    }
}

/// Where the value starts after a separator at `p`: whitespace, then at most
/// one `=` or `:` when the separator was whitespace, then whitespace.
pub open spec fn value_start(t: Seq<char>, p: int) -> int {
    let after = if is_space(t[p]) {
        let q = skip_space_from(t, p + 1);
        if q < t.len() && (t[q] == '=' || t[q] == ':') {
            q + 1
        } else {
            q
        }
    } else {
        p + 1
    };
    skip_space_from(t, after)
}

/// The raw key and raw value of an entry line.
pub open spec fn split_entry_of(t: Seq<char>) -> (Seq<char>, Seq<char>) {
    match separator_from(t, 0, false) {
        None => (t, Seq::empty()),
        Some(p) => (t.take(p), t.skip(value_start(t, p))),
    }
}

/// A key character that needs no escape: not a separator, not whitespace,
/// not a backslash.
pub open spec fn plain_key_char(c: char) -> bool {
    c != '=' && c != ':' && c != '\\' && !is_space(c)
}

/// An entry line made of a plain key, `=` or `:`, and a value that does not
/// start with whitespace splits into exactly that key and that value.
pub proof fn lemma_split_plain_entry(k: Seq<char>, sep: char, v: Seq<char>)
    requires
        sep == '=' || sep == ':',
        forall|i: int| 0 <= i < k.len() ==> plain_key_char(#[trigger] k[i]),
        v.len() == 0 || !is_space(v[0]),
    ensures
        split_entry_of(k + seq![sep] + v) == (k, v),
{
    let t = k + seq![sep] + v;
    lemma_plain_key_scan(t, k.len() as int, 0);
    assert(t[k.len() as int] == sep);
    assert(!is_space(sep));
    let a: int = k.len() as int + 1;
    if v.len() > 0 {
        assert(t[a] == v[0]);
    }
    assert(skip_space_from(t, a) == a);
    assert(t.take(k.len() as int) =~= k);
    assert(t.skip(a) =~= v);
}

/// Scanning a plain key finds the separator right after it.
proof fn lemma_plain_key_scan(t: Seq<char>, n: int, i: int)
    requires
        0 <= i <= n < t.len(),
        forall|j: int| 0 <= j < n ==> plain_key_char(#[trigger] t[j]),
        t[n] == '=' || t[n] == ':',
    ensures
        separator_from(t, i, false) == Some(n),
    decreases n - i,
{
    if i < n {
        assert(plain_key_char(t[i]));
        lemma_plain_key_scan(t, n, i + 1);
    }
}

// ---------------------------------------------------------------------------
// Escapes
// ---------------------------------------------------------------------------
/// Why an escape sequence is refused.
pub enum EscapeFault {
    /// Fewer than four bytes follow `\u`.
    ShortUnicode,
    /// The four characters after `\u` are not a hexadecimal number.
    InvalidUnicode(Seq<char>),
    /// The number after `\u` is not a Unicode scalar value.
    InvalidCodePoint(Seq<char>),
}

/// The character a one-letter escape stands for.
pub open spec fn escaped_char(e: char) -> char {
    if e == 't' {
        '\t'
    } else if e == 'r' {
        '\r'
    } else if e == 'n' {
        '\n'
    } else if e == 'f' {
        '\u{c}'
    } else {
        e
    }
}

/// The number of bytes of the UTF-8 encoding of `c`.
pub open spec fn utf8_width(c: char) -> nat {
    let v = c as u32;
    if v < 0x80 {
        1
    } else if v < 0x800 {
        2
    } else if v < 0x10000 {
        3
    } else {
        4
    }
}

/// The number of bytes of the UTF-8 encoding of `s`.
pub open spec fn utf8_len(s: Seq<char>) -> nat
    decreases s.len(),
{
    if s.len() == 0 {
        0
    } else {
        utf8_len(s.drop_last()) + utf8_width(s.last())
    }
}

/// The value of a hexadecimal digit, if `c` is one.
pub open spec fn hex_digit(c: char) -> Option<nat> {
    let v = c as u32;
    if 48 <= v && v <= 57 {
        Some((v - 48) as nat)
    } else if 97 <= v && v <= 102 {
        Some((v - 87) as nat)
    } else if 65 <= v && v <= 70 {
        Some((v - 55) as nat)
    } else {
        None
    }
}

/// The value of a sequence of hexadecimal digits.
pub open spec fn hex_digits_value(s: Seq<char>) -> Option<nat>
    decreases s.len(),
{
    if s.len() == 0 {
        Some(0)
    } else {
        match (hex_digits_value(s.drop_last()), hex_digit(s.last())) {
            (Some(v), Some(d)) => Some(v * 16 + d),
            _ => None,
        }
    }
}

/// `u32::from_str_radix(s, 16)` on a short string: an optional `+`, then at
/// least one hexadecimal digit.
pub open spec fn hex_value(s: Seq<char>) -> Option<nat> {
    let digits = if s.len() > 0 && s[0] == '+' {
        s.drop_first()
    } else {
        s
    };
    if digits.len() == 0 {
        None
    } else {
        hex_digits_value(digits)
    }
}

/// A Unicode scalar value: what `char::from_u32` accepts.
pub open spec fn is_scalar_value(v: nat) -> bool {
    v < 0xD800 || (0xE000 <= v && v <= 0x10FFFF)
}

/// `c` in front of a successful result.
pub open spec fn prepend(c: char, r: Result<Seq<char>, EscapeFault>) -> Result<Seq<char>, EscapeFault> {
    match r {
        Ok(s) => Ok(seq![c] + s),
        Err(e) => Err(e),
    }
}

/// The characters that `s` denotes once its escapes are resolved: `\t`,
/// `\r`, `\n`, `\f` and `\uXXXX` as in Java, a backslash before any other
/// character stands for that character, and a lone final backslash for
/// itself.
pub open spec fn unescape_of(s: Seq<char>) -> Result<Seq<char>, EscapeFault>
    decreases s.len(),
{
    if s.len() == 0 {
        Ok(Seq::empty())
    } else if s[0] != '\\' {
        prepend(s[0], unescape_of(s.drop_first()))
    } else if s.len() == 1 {
        Ok(seq!['\\'])
    } else if s[1] != 'u' {
        prepend(escaped_char(s[1]), unescape_of(s.skip(2)))
    } else {
        let code = s.subrange(2, if s.len() < 6 { s.len() as int } else { 6 });
        if utf8_len(code) != 4 {
            Err(EscapeFault::ShortUnicode)
        } else {
            match hex_value(code) {
                None => Err(EscapeFault::InvalidUnicode(code)),
                Some(v) => if is_scalar_value(v) {
                    prepend(v as char, unescape_of(s.skip(2 + code.len() as int)))
                } else {
                    Err(EscapeFault::InvalidCodePoint(code))
                },
            }
        }
    }
}

/// The message for a refused escape.
pub open spec fn fault_message(e: EscapeFault) -> Seq<char> {
    match e {
        EscapeFault::ShortUnicode => "expected four hexadecimal digits after \\u"@,
        EscapeFault::InvalidUnicode(code) => "invalid unicode escape \\u"@ + code,
        EscapeFault::InvalidCodePoint(code) => "invalid unicode code point "@ + code,
    }
}

/// The reason given for a refused escape on physical line `line`.
pub open spec fn fault_reason(line: nat, e: EscapeFault) -> Seq<char> {
    "line "@ + decimal(line) + ": "@ + fault_message(e)
}

// ---------------------------------------------------------------------------
// Documents
// ---------------------------------------------------------------------------
/// Whether a logical line, once its leading whitespace is gone, holds no
/// entry: it is blank or a comment.
pub open spec fn is_blank_or_comment(t: Seq<char>) -> bool {
    t.len() == 0 || t[0] == '#' || t[0] == '!'
}

/// The entries read from the first `n` logical lines, key order kept, a later
/// entry for a key replacing an earlier one; or the first refused escape,
/// with the line it is on.
pub open spec fn entries_state(lines: Seq<(nat, Seq<char>)>, n: nat) -> Result<
    Seq<(Seq<char>, Seq<char>)>,
    (nat, EscapeFault),
>
    decreases n,
{
    if n == 0 {
        Ok(Seq::empty())
    } else {
        match entries_state(lines, (n - 1) as nat) {
            Err(e) => Err(e),
            Ok(m) => {
                let (number, line) = lines[n - 1];
                let t = trim_start(line);
                if is_blank_or_comment(t) {
                    Ok(m)
                } else {
                    let (k, v) = split_entry_of(t);
                    match unescape_of(k) {
                        Err(f) => Err((number, f)),
                        Ok(key) => match unescape_of(v) {
                            Err(f) => Err((number, f)),
                            Ok(value) => Ok(assoc_insert(m, key, value)),
                        },
                    }
                }
            },
        }
    }
}

/// What a properties text holds: its entries in key order, or the first
/// refused escape with its line.
pub open spec fn properties_of(s: Seq<char>) -> Result<Seq<(Seq<char>, Seq<char>)>, (nat, EscapeFault)> {
    let lines = logical_lines_of(s);
    entries_state(lines, lines.len())
}

// ---------------------------------------------------------------------------
// Executable parser
// ---------------------------------------------------------------------------
/// The views of a sequence of character vectors.
pub open spec fn vecs_view(v: Seq<Vec<char>>) -> Seq<Seq<char>> {
    v.map_values(|l: Vec<char>| l@)
}

/// The views of numbered character vectors.
pub open spec fn numbered_view(v: Seq<(usize, Vec<char>)>) -> Seq<(nat, Seq<char>)> {
    v.map_values(|e: (usize, Vec<char>)| (e.0 as nat, e.1@))
}

/// Cuts `cs` into its physical lines.
pub fn split_lines(cs: &[char]) -> (r: Vec<Vec<char>>)
    ensures
        vecs_view(r@) == physical_lines(cs@),
{
    let mut done: Vec<Vec<char>> = Vec::new();
    let mut cur: Vec<char> = Vec::new();
    for i in 0..cs.len()
        invariant
            line_state(cs@, i as nat) == (vecs_view(done@), cur@),
    {
        if cs[i] == '\n' {
            let ghost d = done@;
            done.push(cur);
            cur = Vec::new();
            proof {
                assert(vecs_view(done@) =~= vecs_view(d).push(vecs_view(done@).last()));
                assert(cur@ =~= Seq::<char>::empty());
            }
        } else {
            cur.push(cs[i]);
        }
    }
    if cur.len() > 0 {
        let ghost d = done@;
        done.push(cur);
        proof {
            assert(vecs_view(done@) =~= vecs_view(d).push(vecs_view(done@).last()));
        }
    }
    done
}

/// The length of `line` once its trailing carriage returns are dropped.
pub fn strip_cr_len(line: &[char]) -> (n: usize)
    ensures
        n <= line@.len(),
        line@.take(n as int) == strip_cr(line@),
{
    let mut j = line.len();
    while j > 0 && line[j - 1] == '\r'
        invariant
            j <= line@.len(),
            forall|i: int| j <= i < line@.len() ==> #[trigger] line@[i] == '\r',
        decreases j,
    {
        j -= 1;
    }
    proof {
        assert forall|i: int| j <= i < line@.len() implies #[trigger] char_pred('\r')(line@[i]) by {
        }
        lemma_strip_end_take(line@, char_pred('\r'), j as int);
    }
    j
}

/// Counting backslashes from the end of a sequence.
proof fn lemma_trailing_backslashes(s: Seq<char>, j: int)
    requires
        0 <= j <= s.len(),
        forall|i: int| j <= i < s.len() ==> #[trigger] s[i] == '\\',
        j > 0 ==> s[j - 1] != '\\',
    ensures
        trailing_backslashes(s) == s.len() - j,
    decreases s.len() - j,
{
    if j < s.len() {
        let t = s.drop_last();
        assert forall|i: int| j <= i < t.len() implies #[trigger] t[i] == '\\' by {
            assert(t[i] == s[i]);
        }
        if j > 0 {
            assert(t[j - 1] == s[j - 1]);
        }
        lemma_trailing_backslashes(t, j);
    }
}

/// Whether the line continues on the next one.
pub fn has_continuation(line: &[char]) -> (b: bool)
    ensures
        b == continues(line@),
{
    let mut j = line.len();
    while j > 0 && line[j - 1] == '\\'
        invariant
            j <= line@.len(),
            forall|i: int| j <= i < line@.len() ==> #[trigger] line@[i] == '\\',
        decreases j,
    {
        j -= 1;
    }
    proof {
        lemma_trailing_backslashes(line@, j as int);
    }
    (line.len() - j) % 2 == 1
}

/// The logical lines of a properties text, each with the number of the
/// physical line it starts on.
pub fn logical_lines(input: &str) -> (r: Vec<(usize, Vec<char>)>)
    ensures
        numbered_view(r@) == logical_lines_of(input@),
{
    let cs = chars_of(input);
    let lines = split_lines(cs.as_slice());
    let ghost phys = vecs_view(lines@);
    let mut done: Vec<(usize, Vec<char>)> = Vec::new();
    let mut cur: Option<(usize, Vec<char>)> = None;
    for idx in 0..lines.len()
        invariant
            phys == vecs_view(lines@),
            phys == physical_lines(input@),
            logical_state(phys, idx as nat) == (numbered_view(done@), match cur {
                Some(e) => Some((e.0 as nat, e.1@)),
                None => None,
            }),
            forall|i: int| 0 <= i < done@.len() ==> #[trigger] done@[i].0 <= idx,
            cur matches Some(e) ==> e.0 <= idx,
    {
        let raw = &lines[idx];
        let n = strip_cr_len(raw.as_slice());
        let mut line: Vec<char> = Vec::new();
        for k in 0..n
            invariant
                n <= raw@.len(),
                line@ == raw@.take(k as int),
        {
            line.push(raw[k]);
            assert(raw@.take(k + 1) =~= raw@.take(k as int).push(raw@[k as int]));
        }
        assert(line@ == strip_cr(phys[idx as int]));
        let ghost before_done = done@;
        let starts_comment = match cur {
            None => {
                let a = skip_whitespace(line.as_slice(), 0);
                proof {
                    assert forall|i: int| 0 <= i < a implies #[trigger] space_pred()(line@[i]) by {
                    }
                    lemma_strip_start_skip(line@, space_pred(), a as int);
                    if a < line@.len() {
                        assert(trim_start(line@)[0] == line@[a as int]);
                    }
                }
                a < line.len() && (line[a] == '#' || line[a] == '!')
            },
            Some(_) => false,
        };
        if starts_comment {
            done.push((idx + 1, line));
            proof {
                assert(numbered_view(done@) =~= numbered_view(before_done).push(
                    numbered_view(done@).last(),
                ));
            }
        } else {
            let cont = has_continuation(line.as_slice());
            let (number, mut buf) = match cur {
                Some((number, mut text)) => {
                    let a = skip_whitespace(line.as_slice(), 0);
                    proof {
                        assert forall|i: int| 0 <= i < a implies #[trigger] space_pred()(line@[i]) by {
                        }
                        lemma_strip_start_skip(line@, space_pred(), a as int);
                    }
                    let ghost t0 = text@;
                    for k in a..line.len()
                        invariant
                            a <= line@.len(),
                            text@ == t0 + line@.subrange(a as int, k as int),
                    {
                        text.push(line[k]);
                        assert(line@.subrange(a as int, k + 1) =~= line@.subrange(a as int, k as int).push(
                            line@[k as int],
                        ));
                    }
                    assert(line@.subrange(a as int, line@.len() as int) =~= line@.skip(a as int));
                    (number, text)
                },
                None => (idx + 1, line),
            };
            if cont {
                let ghost b = buf@;
                buf.pop();
                cur = Some((number, buf));
                proof {
                    assert(buf@ =~= b.drop_last());
                }
            } else {
                done.push((number, buf));
                cur = None;
                proof {
                    assert(numbered_view(done@) =~= numbered_view(before_done).push(
                        numbered_view(done@).last(),
                    ));
                }
            }
        }
    }
    match cur {
        Some(e) => {
            let ghost d = done@;
            done.push(e);
            proof {
                assert(numbered_view(done@) =~= numbered_view(d).push(numbered_view(done@).last()));
            }
        },
        None => {},
    }
    done
}


/// `skip_space_from` is what `skip_whitespace` computes.
proof fn lemma_skip_space_from(t: Seq<char>, i: int, r: int)
    requires
        0 <= i <= r <= t.len(),
        forall|j: int| i <= j < r ==> is_space(#[trigger] t[j]),
        r < t.len() ==> !is_space(t[r]),
    ensures
        skip_space_from(t, i) == r,
    decreases r - i,
{
    if i < r {
        lemma_skip_space_from(t, i + 1, r);
    }
}

/// Where the key of an entry line ends and where its value starts.
pub fn split_entry(t: &[char]) -> (r: (usize, usize))
    ensures
        r.0 <= r.1 <= t@.len(),
        split_entry_of(t@) == (t@.take(r.0 as int), t@.skip(r.1 as int)),
{
    let mut i: usize = 0;
    let mut escaped = false;
    let mut sep: Option<usize> = None;
    while i < t.len() && sep.is_none()
        invariant
            0 <= i <= t@.len(),
            sep is None ==> separator_from(t@, 0, false) == separator_from(t@, i as int, escaped),
            sep matches Some(p) ==> separator_from(t@, 0, false) == Some(p as int) && p < t@.len(),
        decreases t@.len() - i + (if sep is None { 1int } else { 0int }),
    {
        if escaped {
            escaped = false;
            i += 1;
        } else if t[i] == '\\' {
            escaped = true;
            i += 1;
        } else if t[i] == '=' || t[i] == ':' || is_space_char(t[i]) {
            assert(separator_from(t@, i as int, false) == Some(i as int));
            sep = Some(i);
        } else {
            i += 1;
        }
    }
    match sep {
        None => {
            assert(separator_from(t@, i as int, escaped) is None);
            assert(t@.take(t@.len() as int) =~= t@);
            assert(t@.skip(t@.len() as int) =~= Seq::<char>::empty());
            (t.len(), t.len())
        },
        Some(p) => {
            let after = if is_space_char(t[p]) {
                let q = skip_whitespace(t, p + 1);
                proof {
                    lemma_skip_space_from(t@, p + 1, q as int);
                }
                if q < t.len() && (t[q] == '=' || t[q] == ':') {
                    q + 1
                } else {
                    q
                }
            } else {
                p + 1
            };
            let v = skip_whitespace(t, after);
            proof {
                lemma_skip_space_from(t@, after as int, v as int);
            }
            (p, v)
        },
    }
}

/// A refused escape, as the parser finds it.
pub enum EscapeError {
    /// Fewer than four bytes follow `\u`.
    ShortUnicode,
    /// The four characters after `\u` are not a hexadecimal number.
    InvalidUnicode(Vec<char>),
    /// The number after `\u` is not a Unicode scalar value.
    InvalidCodePoint(Vec<char>),
}

impl View for EscapeError {
    type V = EscapeFault;

    open spec fn view(&self) -> EscapeFault {
        match self {
            EscapeError::ShortUnicode => EscapeFault::ShortUnicode,
            EscapeError::InvalidUnicode(c) => EscapeFault::InvalidUnicode(c@),
            EscapeError::InvalidCodePoint(c) => EscapeFault::InvalidCodePoint(c@),
        }
    }
}

/// `char::from_u32`: the character with code `v`, when `v` is a Unicode
/// scalar value.
#[verifier::external_body]
fn char_from_u32(v: u32) -> (r: Option<char>)
    ensures
        r is Some <==> is_scalar_value(v as nat),
        r matches Some(c) ==> c == (v as nat) as char,
{
    char::from_u32(v)
}

/// The number of UTF-8 bytes of `cs`.
fn utf8_len_of(cs: &[char]) -> (n: usize)
    requires
        cs@.len() <= 4,
    ensures
        n == utf8_len(cs@),
{
    let mut n: usize = 0;
    for k in 0..cs.len()
        invariant
            cs@.len() <= 4,
            n == utf8_len(cs@.take(k as int)),
            n <= 4 * k,
    {
        let c = cs[k];
        let w: usize = if (c as u32) < 0x80 {
            1
        } else if (c as u32) < 0x800 {
            2
        } else if (c as u32) < 0x10000 {
            3
        } else {
            4
        };
        assert(cs@.take(k + 1).drop_last() =~= cs@.take(k as int));
        n = n + w;
    }
    assert(cs@.take(cs@.len() as int) =~= cs@);
    n
}

/// The value of a hexadecimal digit.
fn hex_digit_of(c: char) -> (r: Option<u32>)
    ensures
        match (r, hex_digit(c)) {
            (Some(v), Some(d)) => v == d && v < 16,
            (None, None) => true,
            _ => false,
        },
{
    let v = c as u32;
    if 48 <= v && v <= 57 {
        Some(v - 48)
    } else if 97 <= v && v <= 102 {
        Some(v - 87)
    } else if 65 <= v && v <= 70 {
        Some(v - 55)
    } else {
        None
    }
}

/// `u32::from_str_radix(code, 16)` for a code of at most four characters.
fn hex_parse(code: &[char]) -> (r: Option<u32>)
    requires
        code@.len() <= 4,
    ensures
        match (r, hex_value(code@)) {
            (Some(v), Some(w)) => v == w,
            (None, None) => true,
            _ => false,
        },
{
    let start: usize = if code.len() > 0 && code[0] == '+' { 1 } else { 0 };
    let ghost digits = if code@.len() > 0 && code@[0] == '+' { code@.drop_first() } else { code@ };
    assert(digits =~= code@.skip(start as int));
    if start == code.len() {
        assert(digits.len() == 0);
        return None;
    }
    let mut v: u32 = 0;
    let mut k: usize = start;
    while k < code.len()
        invariant
            start <= k <= code@.len() <= 4,
            digits == code@.skip(start as int),
            digits == (if code@.len() > 0 && code@[0] == '+' { code@.drop_first() } else { code@ }),
            hex_digits_value(digits.take(k - start)) == Some(v as nat),
            k - start <= 1 ==> v < 16,
            k - start <= 2 ==> v < 256,
            k - start <= 3 ==> v < 4096,
            v < 65536,
            k - start == 0 ==> v == 0,
        decreases code@.len() - k,
    {
        match hex_digit_of(code[k]) {
            None => {
                proof {
                    assert(digits[k - start] == code@[k as int]);
                    lemma_hex_digits_fail(digits, k - start);
                    assert(hex_digits_value(digits) is None);
                    assert(digits.len() > 0);
                    assert(hex_value(code@) is None);
                }
                return None;
            },
            Some(d) => {
                assert(digits.take(k - start + 1).drop_last() =~= digits.take(k - start));
                assert(digits.take(k - start + 1).last() == code@[k as int]);
                v = v * 16 + d;
                k += 1;
            },
        }
    }
    assert(digits.take(k - start) =~= digits);
    Some(v)
}

/// A hexadecimal digit in either case: `0`-`9`, `a`-`f` or `A`-`F`.
pub open spec fn is_hex_char(c: char) -> bool {
    ('0' <= c && c <= '9') || ('a' <= c && c <= 'f') || ('A' <= c && c <= 'F')
}

/// The number a hexadecimal digit stands for: `0`-`9` for themselves, `a`-`f`
/// and `A`-`F` for ten to fifteen.
pub open spec fn hex_char_value(c: char) -> nat {
    if '0' <= c && c <= '9' {
        ((c as u32) - ('0' as u32)) as nat
    } else if 'a' <= c && c <= 'f' {
        ((c as u32) - ('a' as u32) + 10) as nat
    } else {
        ((c as u32) - ('A' as u32) + 10) as nat
    }
}

/// Every hexadecimal digit, in either case, is read as the number it
/// stands for, and no other character is read as a digit.
pub proof fn lemma_hex_digit_cases(c: char)
    ensures
        is_hex_char(c) ==> hex_digit(c) == Some(hex_char_value(c)),
        !is_hex_char(c) ==> hex_digit(c) is None,
{
}

/// A `\u` escape of four hexadecimal digits, in either case, stands for the
/// character with the code they spell when that code is a Unicode scalar
/// value, and is refused as an invalid code point otherwise.
pub proof fn lemma_unicode_escape(h: Seq<char>)
    requires
        h.len() == 4,
        forall|i: int| 0 <= i < 4 ==> is_hex_char(#[trigger] h[i]),
    ensures
        ({
            let v = hex_char_value(h[0]) * 4096 + hex_char_value(h[1]) * 256 + hex_char_value(h[2])
                * 16 + hex_char_value(h[3]);
            &&& is_scalar_value(v) ==> unescape_of(seq!['\\', 'u'] + h) == Ok::<
                Seq<char>,
                EscapeFault,
            >(seq![v as char])
            &&& !is_scalar_value(v) ==> unescape_of(seq!['\\', 'u'] + h) == Err::<
                Seq<char>,
                EscapeFault,
            >(EscapeFault::InvalidCodePoint(h))
        }),
{
    let s = seq!['\\', 'u'] + h;
    assert(is_hex_char(h[0]) && is_hex_char(h[1]) && is_hex_char(h[2]) && is_hex_char(h[3]));
    let code = s.subrange(2, 6);
    assert(code =~= h);
    assert(s[0] == '\\' && s[1] == 'u' && s.len() == 6);
    let h3 = h.drop_last();
    let h2 = h3.drop_last();
    let h1 = h2.drop_last();
    assert(h1.drop_last() =~= Seq::<char>::empty());
    assert(h1.last() == h[0] && h2.last() == h[1] && h3.last() == h[2] && h.last() == h[3]);
    assert(utf8_len(h1.drop_last()) == 0);
    assert(utf8_len(h1) == 1);
    assert(utf8_len(h2) == 2);
    assert(utf8_len(h3) == 3);
    assert(utf8_len(h) == 4);
    lemma_hex_digit_cases(h[0]);
    lemma_hex_digit_cases(h[1]);
    lemma_hex_digit_cases(h[2]);
    lemma_hex_digit_cases(h[3]);
    assert(hex_digits_value(h1.drop_last()) == Some(0nat));
    assert(hex_digits_value(h1) == Some(hex_char_value(h[0])));
    assert(hex_digits_value(h2) == Some(hex_char_value(h[0]) * 16 + hex_char_value(h[1])));
    assert(hex_digits_value(h3) == Some(
        (hex_char_value(h[0]) * 16 + hex_char_value(h[1])) * 16 + hex_char_value(h[2]),
    ));
    assert(h[0] != '+');
    assert(hex_value(h) == hex_digits_value(h));
    let v = hex_char_value(h[0]) * 4096 + hex_char_value(h[1]) * 256 + hex_char_value(h[2]) * 16
        + hex_char_value(h[3]);
    assert(hex_value(code) == Some(v));
    assert(s.skip(6) =~= Seq::<char>::empty());
    assert(unescape_of(s.skip(6)) == Ok::<Seq<char>, EscapeFault>(Seq::empty()));
    if is_scalar_value(v) {
        assert(unescape_of(s) == prepend(v as char, unescape_of(s.skip(6))));
        assert(seq![v as char] + Seq::<char>::empty() =~= seq![v as char]);
    } else {
        assert(unescape_of(s) == Err::<Seq<char>, EscapeFault>(EscapeFault::InvalidCodePoint(code)));
    }
}

/// A non-digit anywhere makes the whole sequence fail.
proof fn lemma_hex_digits_fail(s: Seq<char>, i: int)
    requires
        0 <= i < s.len(),
        hex_digit(s[i]) is None,
    ensures
        hex_digits_value(s) is None,
    decreases s.len(),
{
    if i < s.len() - 1 {
        lemma_hex_digits_fail(s.drop_last(), i);
    }
}

/// The result of resolving escapes with `p` in front of it.
pub open spec fn after_prefix(p: Seq<char>, r: Result<Seq<char>, EscapeFault>) -> Result<Seq<char>, EscapeFault> {
    match r {
        Ok(s) => Ok(p + s),
        Err(e) => Err(e),
    }
}

/// One step of `unescape_of` at position `i`.
proof fn lemma_unescape_at(s: Seq<char>, i: int)
    requires
        0 <= i < s.len(),
    ensures
        s[i] != '\\' ==> unescape_of(s.skip(i)) == prepend(s[i], unescape_of(s.skip(i + 1))),
        s[i] == '\\' && i + 1 == s.len() ==> unescape_of(s.skip(i)) == Ok::<
            Seq<char>,
            EscapeFault,
        >(seq!['\\']),
        s[i] == '\\' && i + 1 < s.len() && s[i + 1] != 'u' ==> unescape_of(s.skip(i)) == prepend(
            escaped_char(s[i + 1]),
            unescape_of(s.skip(i + 2)),
        ),
        s[i] == '\\' && i + 1 < s.len() && s[i + 1] == 'u' ==> ({
            let end = if s.len() - i < 6 { s.len() as int } else { i + 6 };
            let code = s.subrange(i + 2, end);
            unescape_of(s.skip(i)) == if utf8_len(code) != 4 {
                Err(EscapeFault::ShortUnicode)
            } else {
                match hex_value(code) {
                    None => Err(EscapeFault::InvalidUnicode(code)),
                    Some(v) => if is_scalar_value(v) {
                        prepend(v as char, unescape_of(s.skip(end)))
                    } else {
                        Err(EscapeFault::InvalidCodePoint(code))
                    },
                }
            }
        }),
{
    let rest = s.skip(i);
    assert(rest.drop_first() =~= s.skip(i + 1));
    if i + 1 < s.len() {
        assert(rest.skip(2) =~= s.skip(i + 2));
        let end = if s.len() - i < 6 { s.len() as int } else { i + 6 };
        let code = rest.subrange(2, if rest.len() < 6 { rest.len() as int } else { 6 });
        assert(code =~= s.subrange(i + 2, end));
        assert(rest.skip(2 + code.len() as int) =~= s.skip(end));
    }
}

/// Resolving escapes after a prefix and then a character.
proof fn lemma_after_prefix_prepend(p: Seq<char>, c: char, r: Result<Seq<char>, EscapeFault>)
    ensures
        after_prefix(p, prepend(c, r)) == after_prefix(p.push(c), r),
{
    match r {
        Ok(x) => {
            assert(p + (seq![c] + x) =~= p.push(c) + x);
        },
        Err(_) => {},
    }
}

/// Resolves the escapes of `s`.
pub fn unescape(s: &[char]) -> (r: Result<Vec<char>, EscapeError>)
    ensures
        match (r, unescape_of(s@)) {
            (Ok(v), Ok(w)) => v@ == w,
            (Err(e), Err(f)) => e@ == f,
            _ => false,
        },
{
    let mut out: Vec<char> = Vec::new();
    let mut i: usize = 0;
    assert(s@.skip(0) =~= s@);
    while i < s.len()
        invariant
            0 <= i <= s@.len(),
            unescape_of(s@) == after_prefix(out@, unescape_of(s@.skip(i as int))),
        decreases s@.len() - i,
    {
        proof {
            lemma_unescape_at(s@, i as int);
        }
        let c = s[i];
        if c != '\\' {
            proof {
                lemma_after_prefix_prepend(out@, c, unescape_of(s@.skip(i + 1)));
            }
            out.push(c);
            i += 1;
        } else if i + 1 == s.len() {
            out.push('\\');
            return Ok(out);
        } else if s[i + 1] != 'u' {
            let e = s[i + 1];
            let x = if e == 't' {
                '\t'
            } else if e == 'r' {
                '\r'
            } else if e == 'n' {
                '\n'
            } else if e == 'f' {
                '\u{c}'
            } else {
                e
            };
            proof {
                lemma_after_prefix_prepend(out@, x, unescape_of(s@.skip(i + 2)));
            }
            out.push(x);
            i += 2;
        } else {
            let end: usize = if s.len() - i < 6 { s.len() } else { i + 6 };
            let mut code: Vec<char> = Vec::new();
            for k in i + 2..end
                invariant
                    i + 2 <= end <= s@.len(),
                    code@ == s@.subrange(i + 2, k as int),
            {
                code.push(s[k]);
                assert(s@.subrange(i + 2, k + 1) =~= s@.subrange(i + 2, k as int).push(s@[k as int]));
            }
            if utf8_len_of(code.as_slice()) != 4 {
                return Err(EscapeError::ShortUnicode);
            }
            match hex_parse(code.as_slice()) {
                None => {
                    return Err(EscapeError::InvalidUnicode(code));
                },
                Some(v) => {
                    match char_from_u32(v) {
                        None => {
                            return Err(EscapeError::InvalidCodePoint(code));
                        },
                        Some(x) => {
                            proof {
                                lemma_after_prefix_prepend(out@, x, unescape_of(s@.skip(end as int)));
                            }
                            out.push(x);
                            i = end;
                        },
                    }
                },
            }
        }
    }
    assert(s@.skip(i as int) =~= Seq::<char>::empty());
    assert(out@ + Seq::<char>::empty() =~= out@);
    Ok(out)
}

/// The reason text for a refused escape on a line.
pub fn fault_reason_string(line: usize, e: &EscapeError) -> (r: String)
    ensures
        r@ == fault_reason(line as nat, e@),
{
    let mut r = String::new();
    r.append("line ");
    let d = decimal_string(line);
    r.append(d.as_str());
    r.append(": ");
    match e {
        EscapeError::ShortUnicode => {
            r.append("expected four hexadecimal digits after \\u");
        },
        EscapeError::InvalidUnicode(code) => {
            r.append("invalid unicode escape \\u");
            let c = string_of(code.as_slice());
            r.append(c.as_str());
        },
        EscapeError::InvalidCodePoint(code) => {
            r.append("invalid unicode code point ");
            let c = string_of(code.as_slice());
            r.append(c.as_str());
        },
    }
    proof {
        let m = fault_message(e@);
        assert(r@ =~= "line "@ + decimal(line as nat) + ": "@ + m);
    }
    r
}

/// The characters `cs[lo..hi]`, in a new vector.
fn copy_range(cs: &[char], lo: usize, hi: usize) -> (v: Vec<char>)
    requires
        lo <= hi <= cs@.len(),
    ensures
        v@ == cs@.subrange(lo as int, hi as int),
{
    let mut v: Vec<char> = Vec::new();
    for k in lo..hi
        invariant
            lo <= hi <= cs@.len(),
            v@ == cs@.subrange(lo as int, k as int),
    {
        v.push(cs[k]);
        assert(cs@.subrange(lo as int, k + 1) =~= cs@.subrange(lo as int, k as int).push(cs@[k as int]));
    }
    v
}

/// Parses a Java properties text into its entries, keyed and ordered by
/// key; a refused escape is reported with `origin` and its line number.
pub fn parse(input: &str, origin: &str) -> (r: Result<OrderedMap<String>, ConfigError>)
    ensures
        match (r, properties_of(input@)) {
            (Ok(m), Ok(entries)) => m@ == entries,
            (Err(ConfigError::Properties { origin: o, reason }), Err((line, fault))) => o@ == origin@
                && reason@ == fault_reason(line, fault),
            _ => false,
        },
{
    let lines = logical_lines(input);
    let ghost ll = numbered_view(lines@);
    let mut map: OrderedMap<String> = OrderedMap::new();
    for n in 0..lines.len()
        invariant
            ll == numbered_view(lines@),
            ll == logical_lines_of(input@),
            entries_state(ll, n as nat) == Ok::<Seq<(Seq<char>, Seq<char>)>, (nat, EscapeFault)>(map@),
    {
        let number = lines[n].0;
        let line = &lines[n].1;
        let a = skip_whitespace(line.as_slice(), 0);
        proof {
            assert forall|i: int| 0 <= i < a implies #[trigger] space_pred()(line@[i]) by {
            }
            lemma_strip_start_skip(line@, space_pred(), a as int);
        }
        let t = copy_range(line.as_slice(), a, line.len());
        assert(t@ =~= trim_start(ll[n as int].1));
        if t.len() == 0 || t[0] == '#' || t[0] == '!' {
        } else {
            let (ke, vs) = split_entry(t.as_slice());
            let k = copy_range(t.as_slice(), 0, ke);
            let v = copy_range(t.as_slice(), vs, t.len());
            assert(k@ =~= t@.take(ke as int));
            assert(v@ =~= t@.skip(vs as int));
            let key = match unescape(k.as_slice()) {
                Ok(key) => key,
                Err(e) => {
                    let reason = fault_reason_string(number, &e);
                    proof {
                        lemma_entries_err(ll, n as nat, (number as nat, e@));
                    }
                    return Err(ConfigError::Properties { origin: origin.to_owned(), reason });
                },
            };
            let value = match unescape(v.as_slice()) {
                Ok(value) => value,
                Err(e) => {
                    let reason = fault_reason_string(number, &e);
                    proof {
                        lemma_entries_err(ll, n as nat, (number as nat, e@));
                    }
                    return Err(ConfigError::Properties { origin: origin.to_owned(), reason });
                },
            };
            map.insert(string_of(key.as_slice()), string_of(value.as_slice()));
        }
    }
    Ok(map)
}

/// Once a line is refused, the refusal stands whatever follows.
proof fn lemma_entries_err(
    lines: Seq<(nat, Seq<char>)>,
    n: nat,
    e: (nat, EscapeFault),
)
    requires
        n < lines.len(),
        entries_state(lines, n + 1) == Err::<Seq<(Seq<char>, Seq<char>)>, (nat, EscapeFault)>(e),
    ensures
        entries_state(lines, lines.len()) == Err::<Seq<(Seq<char>, Seq<char>)>, (nat, EscapeFault)>(e),
    decreases lines.len() - n,
{
    if n + 1 < lines.len() {
        lemma_entries_err(lines, n + 1, e);
    }
}

} // verus!
