//! Binding flat property maps into nested values: property paths such as
//! `servers[0].host`, their insertion into a value tree, and the coercion of
//! string scalars into booleans and numbers.
use vstd::prelude::*;
use crate::float_text::{finite_float_text, float_text_is_finite};
use crate::text::{
    ascii_lower_seq, ascii_lower_vec, chars_of, string_of_range, strip_char_bounds, trim, trim_bounds,
    trim_char,
};
use crate::value::{
    JsonNumber, JsonValue, JsonView, NumberView, OrderedMap, RawJson, RawView, assoc_get,
    assoc_insert, assoc_insert_all, chars_lt, json_seq_view, lemma_assoc_get_insert,
    lemma_assoc_insert_remove, lemma_json_view, lemma_item_decreases, lemma_member_decreases,
    lemma_raw_item_decreases, lemma_raw_member_decreases, lemma_raw_view,
};

verus! {

broadcast use {lemma_json_view, lemma_raw_view};

/// Controls how string scalars are converted before typed deserialization.
///
/// `Smart` is useful when configuration originates from Java properties or
/// other string-only sources and should still bind into numeric or boolean
/// fields.
#[derive(Debug, Clone, Copy, PartialEq, Eq, Structural)]
pub enum ScalarCoercion {
    /// Preserve all string values as strings.
    Preserve,
    /// Convert obvious scalar strings such as `"true"` or `"8080"` into native values.
    Smart,
}

impl Default for ScalarCoercion {
    fn default() -> (r: Self)
        ensures
            r == ScalarCoercion::Smart,
    {
        ScalarCoercion::Smart
    }
}

/// One step of a property path.
#[derive(Debug, Clone, PartialEq, Eq)]
pub enum PathSegment {
    /// An object member.
    Field(String),
    /// An array element.
    Index(usize),
}

/// What a `PathSegment` holds.
pub enum SegmentView {
    Field(Seq<char>),
    Index(usize),
}

impl View for PathSegment {
    type V = SegmentView;

    open spec fn view(&self) -> SegmentView {
        match self {
            PathSegment::Field(s) => SegmentView::Field(s@),
            PathSegment::Index(i) => SegmentView::Index(*i),
        }
    }
}

/// The views of a sequence of segments.
pub open spec fn segments_view(v: Seq<PathSegment>) -> Seq<SegmentView> {
    v.map_values(|s: PathSegment| s@)
}

// ---------------------------------------------------------------------------
// Property paths
// ---------------------------------------------------------------------------
/// `segs` with the pending field name `buf` added, when there is one.
pub open spec fn flush(segs: Seq<SegmentView>, buf: Seq<char>) -> Seq<SegmentView> {
    if buf.len() > 0 {
        segs.push(SegmentView::Field(buf))
    } else {
        segs
    }
}

/// The number of characters from `j` up to the next `]` or the end.
pub open spec fn bracket_len(cs: Seq<char>, j: int) -> nat
    decreases cs.len() - j,
{
    if j < 0 || j >= cs.len() || cs[j] == ']' {
        0
    } else {
        bracket_len(cs, j + 1) + 1
    }
}

/// A bracket token without surrounding whitespace, then without surrounding
/// double quotes, then without surrounding single quotes.
pub open spec fn clean_token(t: Seq<char>) -> Seq<char> {
    trim_char(trim_char(trim(t), '"'), '\'')
}

/// Every character of `s` is an ASCII digit.
pub open spec fn all_digits(s: Seq<char>) -> bool {
    forall|i: int| 0 <= i < s.len() ==> '0' <= #[trigger] s[i] && s[i] <= '9'
}

/// The value of a sequence of decimal digits.
pub open spec fn decimal_value(s: Seq<char>) -> nat
    decreases s.len(),
{
    if s.len() == 0 {
        0
    } else {
        decimal_value(s.drop_last()) * 10 + ((s.last() as u32) - 48) as nat
    }
}

/// `str::parse::<usize>`: an optional `+` and at least one digit, the value
/// fitting in `usize`.
pub open spec fn usize_value(t: Seq<char>) -> Option<usize> {
    let digits = if t.len() > 0 && t[0] == '+' {
        t.drop_first()
    } else {
        t
    };
    if digits.len() > 0 && all_digits(digits) && decimal_value(digits) <= usize::MAX {
        Some(decimal_value(digits) as usize)
    } else {
        None
    }
}

/// The segment that a bracket token gives: an index when it is a number, a
/// field when it is other non-empty text, nothing when it is empty.
pub open spec fn bracket_segment(segs: Seq<SegmentView>, tok: Seq<char>) -> Seq<SegmentView> {
    match usize_value(tok) {
        Some(p) => segs.push(SegmentView::Index(p)),
        None => if tok.len() > 0 {
            segs.push(SegmentView::Field(tok))
        } else {
            segs
        },
    }
}

/// The segments of a property path read from position `i` on, given the
/// segments `segs` already read and the pending field name `buf`: dots
/// separate field names, brackets hold an index or a field name.
pub open spec fn path_from(cs: Seq<char>, i: int, segs: Seq<SegmentView>, buf: Seq<char>) -> Seq<
    SegmentView,
>
    decreases cs.len() - i,
{
    if i < 0 || i >= cs.len() {
        flush(segs, buf)
    } else if cs[i] == '.' {
        path_from(cs, i + 1, flush(segs, buf), Seq::empty())
    } else if cs[i] == '[' {
        let c = i + 1 + bracket_len(cs, i + 1);
        proof {
            lemma_bracket_len_bound(cs, i + 1);
        }
        let tok = clean_token(cs.subrange(i + 1, c));
        let next = if c < cs.len() {
            c + 1
        } else {
            c
        };
        path_from(cs, next, bracket_segment(flush(segs, buf), tok), Seq::empty())
    } else {
        path_from(cs, i + 1, segs, buf.push(cs[i]))
    }
}

/// The segments of a property path such as `servers[0].host`.
pub open spec fn property_path(s: Seq<char>) -> Seq<SegmentView> {
    path_from(s, 0, Seq::empty(), Seq::empty())
}

/// `bracket_len` stays within the text.
pub proof fn lemma_bracket_len_bound(cs: Seq<char>, j: int)
    requires
        0 <= j,
    ensures
        j <= cs.len() ==> j + bracket_len(cs, j) <= cs.len(),
    decreases cs.len() - j,
{
    if j < cs.len() && cs[j] != ']' {
        lemma_bracket_len_bound(cs, j + 1);
    }
}

/// `bracket_len` counts up to the first `]`.
proof fn lemma_bracket_len(cs: Seq<char>, j: int, k: int)
    requires
        0 <= j <= k <= cs.len(),
        forall|m: int| j <= m < k ==> #[trigger] cs[m] != ']',
        k < cs.len() ==> cs[k] == ']',
    ensures
        bracket_len(cs, j) == k - j,
    decreases k - j,
{
    if j < k {
        lemma_bracket_len(cs, j + 1, k);
    }
}

/// The value of the digits of `cs[lo..hi]`, if they fit in `usize`.
fn parse_usize(cs: &[char], lo: usize, hi: usize) -> (r: Option<usize>)
    requires
        lo <= hi <= cs@.len(),
    ensures
        r == usize_value(cs@.subrange(lo as int, hi as int)),
{
    let ghost t = cs@.subrange(lo as int, hi as int);
    let start = if lo < hi && cs[lo] == '+' { lo + 1 } else { lo };
    let ghost digits = if t.len() > 0 && t[0] == '+' { t.drop_first() } else { t };
    assert(digits =~= cs@.subrange(start as int, hi as int));
    if start == hi {
        return None;
    }
    let mut v: usize = 0;
    let mut k = start;
    while k < hi
        invariant
            lo <= start <= k <= hi <= cs@.len(),
            digits == cs@.subrange(start as int, hi as int),
            digits == (if t.len() > 0 && t[0] == '+' { t.drop_first() } else { t }),
            t == cs@.subrange(lo as int, hi as int),
            all_digits(digits.take(k - start)),
            decimal_value(digits.take(k - start)) == v,
        decreases hi - k,
    {
        let c = cs[k];
        assert(digits[k - start] == c);
        if !('0' <= c && c <= '9') {
            assert(!all_digits(digits));
            return None;
        }
        let d = (c as u32 - 48) as usize;
        assert(digits.take(k - start + 1).drop_last() =~= digits.take(k - start));
        assert(digits.take(k - start + 1).last() == c);
        match v.checked_mul(10) {
            None => {
                proof {
                    lemma_decimal_prefix_bound(digits, k - start + 1);
                }
                return None;
            },
            Some(w) => match w.checked_add(d) {
                None => {
                    proof {
                        lemma_decimal_prefix_bound(digits, k - start + 1);
                    }
                    return None;
                },
                Some(x) => {
                    v = x;
                },
            },
        }
        k += 1;
    }
    assert(digits.take(k - start) =~= digits);
    Some(v)
}

/// The value of digits is at least the value of any prefix of them.
proof fn lemma_decimal_prefix_bound(s: Seq<char>, n: int)
    requires
        0 <= n <= s.len(),
        all_digits(s.take(n)),
    ensures
        all_digits(s) ==> decimal_value(s.take(n)) <= decimal_value(s),
    decreases s.len() - n,
{
    if n < s.len() && all_digits(s) {
        lemma_decimal_prefix_bound(s, n + 1);
        assert(s.take(n + 1).drop_last() =~= s.take(n));
    }
    if n == s.len() {
        assert(s.take(n) =~= s);
    }
}

/// Adds the pending field name to the segments.
fn flush_buffer(segments: &mut Vec<PathSegment>, buffer: &mut Vec<char>)
    ensures
        segments_view(final(segments)@) == flush(segments_view(old(segments)@), old(buffer)@),
        final(buffer)@ == Seq::<char>::empty(),
{
    if buffer.len() > 0 {
        let name = string_of_range(buffer.as_slice(), 0, buffer.len());
        assert(buffer@.subrange(0, buffer@.len() as int) =~= buffer@);
        let ghost old_segs = segments@;
        segments.push(PathSegment::Field(name));
        assert(segments_view(segments@) =~= segments_view(old_segs).push(SegmentView::Field(name@)));
    }
    *buffer = Vec::new();
}

/// Splits a property path such as `servers[0].host` into its segments.
pub fn parse_property_path(path: &str) -> (r: Vec<PathSegment>)
    ensures
        segments_view(r@) == property_path(path@),
{
    let cs = chars_of(path);
    let mut segments: Vec<PathSegment> = Vec::new();
    let mut buffer: Vec<char> = Vec::new();
    let mut index: usize = 0;
    assert(segments_view(segments@) =~= Seq::<SegmentView>::empty());
    while index < cs.len()
        invariant
            cs@ == path@,
            0 <= index <= cs@.len(),
            property_path(path@) == path_from(cs@, index as int, segments_view(segments@), buffer@),
        decreases cs@.len() - index,
    {
        let c = cs[index];
        if c == '.' {
            flush_buffer(&mut segments, &mut buffer);
            index += 1;
        } else if c == '[' {
            flush_buffer(&mut segments, &mut buffer);
            index += 1;
            let start = index;
            while index < cs.len() && cs[index] != ']'
                invariant
                    start <= index <= cs@.len(),
                    forall|m: int| start <= m < index ==> #[trigger] cs@[m] != ']',
                decreases cs@.len() - index,
            {
                index += 1;
            }
            proof {
                lemma_bracket_len(cs@, start as int, index as int);
            }
            let (a1, b1) = trim_bounds(cs.as_slice(), start, index);
            let (a2, b2) = strip_char_bounds(cs.as_slice(), a1, b1, '"');
            let (a3, b3) = strip_char_bounds(cs.as_slice(), a2, b2, '\'');
            let ghost tok = cs@.subrange(a3 as int, b3 as int);
            assert(tok == clean_token(cs@.subrange(start as int, index as int)));
            let ghost before = segments_view(segments@);
            match parse_usize(cs.as_slice(), a3, b3) {
                Some(position) => {
                    segments.push(PathSegment::Index(position));
                    assert(segments_view(segments@) =~= before.push(SegmentView::Index(position)));
                },
                None => {
                    if a3 < b3 {
                        let name = string_of_range(cs.as_slice(), a3, b3);
                        segments.push(PathSegment::Field(name));
                        assert(segments_view(segments@) =~= before.push(SegmentView::Field(name@)));
                    }
                },
            }
            if index < cs.len() && cs[index] == ']' {
                index += 1;
            }
        } else {
            buffer.push(c);
            index += 1;
        }
    }
    flush_buffer(&mut segments, &mut buffer);
    segments
}

// ---------------------------------------------------------------------------
// Inserting along a path
// ---------------------------------------------------------------------------
/// The empty container that the next segment needs.
pub open spec fn empty_container(next: SegmentView) -> JsonView {
    match next {
        SegmentView::Field(_) => JsonView::Object(Seq::empty()),
        SegmentView::Index(_) => JsonView::Array(Seq::empty()),
    }
}

/// Whether `v` is the kind of container that the next segment needs.
pub open spec fn fits_container(v: JsonView, next: SegmentView) -> bool {
    match next {
        SegmentView::Field(_) => v is Object,
        SegmentView::Index(_) => v is Array,
    }
}

/// `a` extended with nulls so that position `p` exists.
pub open spec fn pad_to(a: Seq<JsonView>, p: nat) -> Seq<JsonView> {
    if a.len() <= p {
        a + Seq::new((p + 1 - a.len()) as nat, |i: int| JsonView::Null)
    } else {
        a
    }
}

/// `target` with `value` placed at the end of the path `segs`: each field
/// segment makes its place an object, each index segment an array padded
/// with nulls; a container of the wrong kind met on the way is replaced by
/// an empty one.
pub open spec fn insert_path_of(target: JsonView, segs: Seq<SegmentView>, value: JsonView) -> JsonView
    decreases segs.len(),
{
    if segs.len() == 0 {
        value
    } else {
        match segs[0] {
            SegmentView::Field(name) => {
                let obj = match target {
                    JsonView::Object(m) => m,
                    _ => Seq::empty(),
                };
                if segs.len() == 1 {
                    JsonView::Object(assoc_insert(obj, name, value))
                } else {
                    let child = match assoc_get(obj, name) {
                        Some(c) => if fits_container(c, segs[1]) {
                            c
                        } else {
                            empty_container(segs[1])
                        },
                        None => empty_container(segs[1]),
                    };
                    JsonView::Object(
                        assoc_insert(obj, name, insert_path_of(child, segs.drop_first(), value)),
                    )
                }
            },
            SegmentView::Index(p) => {
                let arr = pad_to(
                    match target {
                        JsonView::Array(a) => a,
                        _ => Seq::empty(),
                    },
                    p as nat,
                );
                if segs.len() == 1 {
                    JsonView::Array(arr.update(p as int, value))
                } else {
                    let cur = arr[p as int];
                    let child = if fits_container(cur, segs[1]) {
                        cur
                    } else {
                        empty_container(segs[1])
                    };
                    JsonView::Array(arr.update(p as int, insert_path_of(child, segs.drop_first(), value)))
                }
            },
        }
    }
}

/// The value found by following `segs` from `v`.
pub open spec fn get_path(v: JsonView, segs: Seq<SegmentView>) -> Option<JsonView>
    decreases segs.len(),
{
    if segs.len() == 0 {
        Some(v)
    } else {
        match segs[0] {
            SegmentView::Field(name) => match v {
                JsonView::Object(m) => match assoc_get(m, name) {
                    Some(c) => get_path(c, segs.drop_first()),
                    None => None,
                },
                _ => None,
            },
            SegmentView::Index(p) => match v {
                JsonView::Array(a) => if p < a.len() {
                    get_path(a[p as int], segs.drop_first())
                } else {
                    None
                },
                _ => None,
            },
        }
    }
}

/// Every index of the path leaves room to extend an array up to it.
pub open spec fn indexes_fit(segs: Seq<SegmentView>) -> bool {
    forall|i: int| 0 <= i < segs.len() ==> (#[trigger] segs[i] matches SegmentView::Index(p) ==> p
        < usize::MAX)
}

/// The empty container that the next segment needs.
fn empty_container_for(next: &PathSegment) -> (v: JsonValue)
    ensures
        v@ == empty_container(next@),
{
    match next {
        PathSegment::Field(_) => {
            let m: OrderedMap<JsonValue> = OrderedMap::new();
            let v = JsonValue::Object(m);
            assert(v@ == JsonView::Object(m@));
            v
        },
        PathSegment::Index(_) => {
            let a: Vec<JsonValue> = Vec::new();
            let v = JsonValue::Array(a);
            assert(json_seq_view(a@) =~= Seq::<JsonView>::empty());
            v
        },
    }
}

/// Whether `v` is the kind of container that the next segment needs.
fn matches_container(v: &JsonValue, next: &PathSegment) -> (b: bool)
    ensures
        b == fits_container(v@, next@),
{
    match next {
        PathSegment::Field(_) => v.is_object(),
        PathSegment::Index(_) => v.is_array(),
    }
}

impl JsonValue {
    /// Whether the value is an object.
    pub fn is_object(&self) -> (b: bool)
        ensures
            b == self@ is Object,
    {
        match self {
            JsonValue::Object(_) => true,
            _ => false,
        }
    }

    /// Whether the value is an array.
    pub fn is_array(&self) -> (b: bool)
        ensures
            b == self@ is Array,
    {
        match self {
            JsonValue::Array(_) => true,
            _ => false,
        }
    }
}

/// Places `value` at the end of the path `segs[start..]` inside `target`.
pub fn insert_path(target: JsonValue, segs: &[PathSegment], start: usize, value: JsonValue) -> (r:
    JsonValue)
    requires
        start <= segs@.len(),
        indexes_fit(segments_view(segs@)),
    ensures
        r@ == insert_path_of(target@, segments_view(segs@).skip(start as int), value@),
    decreases segs@.len() - start,
{
    let ghost rest = segments_view(segs@).skip(start as int);
    if start == segs.len() {
        return value;
    }
    assert(rest[0] == segs@[start as int]@);
    assert(rest.drop_first() =~= segments_view(segs@).skip(start + 1));
    match &segs[start] {
        PathSegment::Field(name) => {
            let mut obj = match target {
                JsonValue::Object(m) => m,
                _ => OrderedMap::new(),
            };
            if start + 1 == segs.len() {
                obj.insert(name.clone(), value);
                JsonValue::Object(obj)
            } else {
                let next = &segs[start + 1];
                assert(rest[1] == next@);
                let ghost obj_view = obj@;
                obj.lemma_sorted();
                let existing = obj.remove(name.as_str());
                let child = match existing {
                    Some(c) => if matches_container(&c, next) {
                        c
                    } else {
                        empty_container_for(next)
                    },
                    None => empty_container_for(next),
                };
                let inner = insert_path(child, segs, start + 1, value);
                proof {
                    lemma_assoc_insert_remove(obj_view, name@, inner@);
                }
                obj.insert(name.clone(), inner);
                JsonValue::Object(obj)
            }
        },
        PathSegment::Index(position) => {
            let p = *position;
            assert(segments_view(segs@)[start as int] == SegmentView::Index(p));
            let mut arr = match target {
                JsonValue::Array(a) => a,
                _ => Vec::new(),
            };
            let ghost a0 = json_seq_view(arr@);
            while arr.len() <= p
                invariant
                    p < usize::MAX,
                    json_seq_view(arr@) == a0 + Seq::new(
                        (arr@.len() - a0.len()) as nat,
                        |i: int| JsonView::Null,
                    ),
                    arr@.len() >= a0.len(),
                    arr@.len() > a0.len() ==> arr@.len() <= p + 1,
                decreases p + 1 - arr@.len(),
            {
                let ghost before = json_seq_view(arr@);
                let null = JsonValue::Null;
                assert(null@ == JsonView::Null);
                arr.push(null);
                assert(json_seq_view(arr@) =~= before.push(JsonView::Null));
                assert(json_seq_view(arr@) =~= a0 + Seq::new(
                    (arr@.len() - a0.len()) as nat,
                    |i: int| JsonView::Null,
                ));
            }
            assert(json_seq_view(arr@) =~= pad_to(a0, p as nat));
            if start + 1 == segs.len() {
                let ghost padded = json_seq_view(arr@);
                arr.set(p, value);
                assert(json_seq_view(arr@) =~= padded.update(p as int, value@));
                JsonValue::Array(arr)
            } else {
                let next = &segs[start + 1];
                assert(rest[1] == next@);
                let ghost padded = json_seq_view(arr@);
                let cur = arr.remove(p);
                let child = if matches_container(&cur, next) {
                    cur
                } else {
                    empty_container_for(next)
                };
                let inner = insert_path(child, segs, start + 1, value);
                arr.insert(p, inner);
                assert(json_seq_view(arr@) =~= padded.update(p as int, inner@));
                JsonValue::Array(arr)
            }
        },
    }
}

/// Read after write along a path: following the path that a value was just
/// placed at finds that value.
pub proof fn lemma_get_insert_path(target: JsonView, segs: Seq<SegmentView>, value: JsonView)
    ensures
        get_path(insert_path_of(target, segs, value), segs) == Some(value),
    decreases segs.len(),
{
    if segs.len() > 0 {
        let rest = segs.drop_first();
        match segs[0] {
            SegmentView::Field(name) => {
                let obj = match target {
                    JsonView::Object(m) => m,
                    _ => Seq::empty(),
                };
                if segs.len() == 1 {
                    lemma_assoc_get_insert(obj, name, value, name);
                } else {
                    let child = match assoc_get(obj, name) {
                        Some(c) => if fits_container(c, segs[1]) {
                            c
                        } else {
                            empty_container(segs[1])
                        },
                        None => empty_container(segs[1]),
                    };
                    lemma_get_insert_path(child, rest, value);
                    lemma_assoc_get_insert(obj, name, insert_path_of(child, rest, value), name);
                }
            },
            SegmentView::Index(p) => {
                if segs.len() > 1 {
                    let arr = pad_to(
                        match target {
                            JsonView::Array(a) => a,
                            _ => Seq::empty(),
                        },
                        p as nat,
                    );
                    let cur = arr[p as int];
                    let child = if fits_container(cur, segs[1]) {
                        cur
                    } else {
                        empty_container(segs[1])
                    };
                    lemma_get_insert_path(child, rest, value);
                }
            },
        }
    }
}

/// Two path segments of one kind: both fields or both indexes.
pub open spec fn same_kind(a: SegmentView, b: SegmentView) -> bool {
    (a is Field && b is Field) || (a is Index && b is Index)
}

/// `q` branches off `p`: they agree up to some segment, where they differ
/// but are of one kind.
pub open spec fn branches_off(p: Seq<SegmentView>, q: Seq<SegmentView>) -> bool {
    exists|k: int|
        #![trigger p[k], q[k]]
        0 <= k < p.len() && k < q.len() && p.take(k) == q.take(k) && p[k] != q[k] && same_kind(
            p[k],
            q[k],
        )
}

/// Frame law: placing a value along a path leaves every other path that
/// branches off it, and leads somewhere in the target, where it was.
pub proof fn lemma_insert_path_frame(
    target: JsonView,
    segs: Seq<SegmentView>,
    value: JsonView,
    q: Seq<SegmentView>,
    k: int,
)
    requires
        0 <= k < segs.len(),
        k < q.len(),
        segs.take(k) == q.take(k),
        segs[k] != q[k],
        same_kind(segs[k], q[k]),
        get_path(target, q) is Some,
    ensures
        get_path(insert_path_of(target, segs, value), q) == get_path(target, q),
    decreases k,
{
    let qr = q.drop_first();
    if k > 0 {
        assert(segs[0] == segs.take(k)[0]);
        assert(q[0] == q.take(k)[0]);
    }
    match segs[0] {
        SegmentView::Field(a) => {
            let m = target->Object_0;
            match q[0] {
                SegmentView::Field(b) => {},
                SegmentView::Index(_) => {},
            }
            assert(target is Object);
            if k == 0 {
                let b = q[0]->Field_0;
                if segs.len() == 1 {
                    lemma_assoc_get_insert(m, a, value, b);
                } else {
                    let child = match assoc_get(m, a) {
                        Some(c) => if fits_container(c, segs[1]) {
                            c
                        } else {
                            empty_container(segs[1])
                        },
                        None => empty_container(segs[1]),
                    };
                    lemma_assoc_get_insert(m, a, insert_path_of(child, segs.drop_first(), value), b);
                }
            } else {
                let c = assoc_get(m, a)->Some_0;
                assert(assoc_get(m, a) is Some);
                assert(get_path(c, qr) is Some);
                if k == 1 {
                    assert(same_kind(segs[1], q[1]));
                } else {
                    assert(segs[1] == segs.take(k)[1]);
                    assert(q[1] == q.take(k)[1]);
                }
                assert(qr[0] == q[1]);
                assert(fits_container(c, segs[1]));
                let sr = segs.drop_first();
                assert(sr.take(k - 1) =~= qr.take(k - 1)) by {
                    assert forall|j: int| 0 <= j < k - 1 implies #[trigger] sr.take(k - 1)[j] == qr.take(k - 1)[j] by {
                        assert(sr[j] == segs.take(k)[j + 1]);
                        assert(qr[j] == q.take(k)[j + 1]);
                    }
                }
                lemma_insert_path_frame(c, sr, value, qr, k - 1);
                lemma_assoc_get_insert(m, a, insert_path_of(c, sr, value), a);
            }
        },
        SegmentView::Index(p) => {
            match q[0] {
                SegmentView::Field(b) => {},
                SegmentView::Index(_) => {},
            }
            assert(target is Array);
            let a0 = target->Array_0;
            let arr = pad_to(a0, p as nat);
            if k == 0 {
                let p2 = q[0]->Index_0;
                assert(p2 < a0.len());
                assert(arr[p2 as int] == a0[p2 as int]);
            } else {
                assert(p < a0.len());
                assert(arr == a0);
                let c = a0[p as int];
                assert(get_path(c, qr) is Some);
                if k == 1 {
                    assert(same_kind(segs[1], q[1]));
                } else {
                    assert(segs[1] == segs.take(k)[1]);
                    assert(q[1] == q.take(k)[1]);
                }
                assert(qr[0] == q[1]);
                assert(fits_container(c, segs[1]));
                let sr = segs.drop_first();
                assert(sr.take(k - 1) =~= qr.take(k - 1)) by {
                    assert forall|j: int| 0 <= j < k - 1 implies #[trigger] sr.take(k - 1)[j] == qr.take(k - 1)[j] by {
                        assert(sr[j] == segs.take(k)[j + 1]);
                        assert(qr[j] == q.take(k)[j + 1]);
                    }
                }
                lemma_insert_path_frame(c, sr, value, qr, k - 1);
            }
        },
    }
}

// ---------------------------------------------------------------------------
// Scalar coercion
// ---------------------------------------------------------------------------
/// `s` without a leading minus sign.
pub open spec fn unsigned_part(s: Seq<char>) -> Seq<char> {
    if s.len() > 0 && s[0] == '-' {
        s.drop_first()
    } else {
        s
    }
}

/// An optional minus sign, then decimal digits without a superfluous leading
/// zero.
pub open spec fn looks_like_integer_of(s: Seq<char>) -> bool {
    let d = unsigned_part(s);
    s.len() > 0 && d.len() > 0 && all_digits(d) && !(d.len() > 1 && d[0] == '0')
}

/// The signed value of an integer-looking text.
pub open spec fn integer_value(s: Seq<char>) -> int {
    if s.len() > 0 && s[0] == '-' {
        -(decimal_value(unsigned_part(s)) as int)
    } else {
        decimal_value(unsigned_part(s)) as int
    }
}

/// The first position at or after `i` whose character is not an ASCII digit.
pub open spec fn digits_end(s: Seq<char>, i: int) -> int
    decreases s.len() - i,
{
    if 0 <= i < s.len() && '0' <= s[i] && s[i] <= '9' {
        digits_end(s, i + 1)
    } else {
        i
    }
}

/// The decimal syntax that `f64::from_str` accepts: an optional sign, digits
/// with at most one decimal point and at least one digit, then an optional
/// exponent of `e` or `E`, an optional sign and at least one digit.
pub open spec fn decimal_float_syntax(s: Seq<char>) -> bool {
    let a = if s.len() > 0 && (s[0] == '+' || s[0] == '-') {
        1int
    } else {
        0int
    };
    let i1 = digits_end(s, a);
    let has_point = i1 < s.len() && s[i1] == '.';
    let i2 = if has_point {
        digits_end(s, i1 + 1)
    } else {
        i1
    };
    let mantissa_digits = (i1 - a) + (if has_point {
        i2 - i1 - 1
    } else {
        0
    });
    mantissa_digits > 0 && (i2 == s.len() || ((s[i2] == 'e' || s[i2] == 'E') && ({
        let b = i2 + 1;
        let b2 = if b < s.len() && (s[b] == '+' || s[b] == '-') {
            b + 1
        } else {
            b
        };
        let e = digits_end(s, b2);
        e > b2 && e == s.len()
    })))
}

/// A text with a decimal point or an exponent that `f64::from_str` accepts
/// (its spellings of infinity and NaN have neither).
pub open spec fn looks_like_float_of(s: Seq<char>) -> bool {
    s.len() > 0 && (s.contains('.') || s.contains('e') || s.contains('E')) && decimal_float_syntax(s)
}

/// The integer an integer-looking text stands for, when it fits in `i64`
/// or `u64`.
pub open spec fn integer_of(s: Seq<char>) -> Option<NumberView> {
    if looks_like_integer_of(s) && i64::MIN <= integer_value(s) && integer_value(s) <= u64::MAX {
        let v = integer_value(s);
        Some(
            if v < 0 {
                NumberView::NegInt(v as i64)
            } else {
                NumberView::PosInt(v as u64)
            },
        )
    } else {
        None
    }
}

/// The number a scalar text stands for: an integer that fits in `i64` or
/// `u64`, or a floating-point text, with a decimal point or an exponent,
/// whose value is finite as a binary64 number.
pub open spec fn number_of(s: Seq<char>) -> Option<NumberView> {
    match integer_of(s) {
        Some(n) => Some(n),
        None => if looks_like_float_of(s) && finite_float_text(s) {
            Some(NumberView::Float(s))
        } else {
            None
        },
    }
}

/// What smart coercion makes of a string: `true` and `false` in any ASCII
/// case become booleans, numbers become numbers, anything else stays.
pub open spec fn coerce_string_of(s: Seq<char>) -> JsonView {
    if ascii_lower_seq(s) == seq!['t', 'r', 'u', 'e'] {
        JsonView::Bool(true)
    } else if ascii_lower_seq(s) == seq!['f', 'a', 'l', 's', 'e'] {
        JsonView::Bool(false)
    } else {
        match number_of(s) {
            Some(n) => JsonView::Number(n),
            None => JsonView::String(s),
        }
    }
}

/// Smart coercion reads decimal integers: digits without a superfluous
/// leading zero become the number they spell when it fits in `u64`, and
/// with a minus sign in front the negative number when it fits in `i64`.
pub proof fn lemma_coerce_integers(t: Seq<char>)
    requires
        t.len() > 0,
        all_digits(t),
        t.len() == 1 || t[0] != '0',
    ensures
        decimal_value(t) <= u64::MAX ==> coerce_string_of(t) == JsonView::Number(
            NumberView::PosInt(decimal_value(t) as u64),
        ),
        0 < decimal_value(t) <= 0x8000_0000_0000_0000 ==> coerce_string_of(seq!['-'] + t)
            == JsonView::Number(NumberView::NegInt((-(decimal_value(t) as int)) as i64)),
{
    assert('0' <= t[0] && t[0] <= '9');
    assert(ascii_lower_seq(t)[0] == t[0]);
    assert(ascii_lower_seq(t) != seq!['t', 'r', 'u', 'e']);
    assert(ascii_lower_seq(t) != seq!['f', 'a', 'l', 's', 'e']);
    assert(t[0] != '-');
    assert(unsigned_part(t) == t);
    let n = seq!['-'] + t;
    assert(n[0] == '-');
    assert(unsigned_part(n) =~= t);
    assert(ascii_lower_seq(n)[0] == '-');
    assert(ascii_lower_seq(n) != seq!['t', 'r', 'u', 'e']);
    assert(ascii_lower_seq(n) != seq!['f', 'a', 'l', 's', 'e']);
}

/// A value with its strings coerced, everywhere in the tree, when the mode
/// is `Smart`.
pub open spec fn coerce_view(v: JsonView, c: ScalarCoercion) -> JsonView
    decreases v,
{
    match v {
        JsonView::Array(a) => JsonView::Array(
            Seq::new(
                a.len(),
                |i: int|
                    if 0 <= i < a.len() {
                        coerce_view(a[i], c)
                    } else {
                        JsonView::Null
                    },
            ),
        ),
        JsonView::Object(m) => JsonView::Object(
            Seq::new(
                m.len(),
                |i: int|
                    if 0 <= i < m.len() {
                        (m[i].0, coerce_view(m[i].1, c))
                    } else {
                        (Seq::empty(), JsonView::Null)
                    },
            ),
        ),
        JsonView::String(s) => if c == ScalarCoercion::Smart {
            coerce_string_of(s)
        } else {
            JsonView::String(s)
        },
        _ => v,
    }
}

/// Whether `s` is an optional minus sign and digits without a superfluous
/// leading zero.
pub fn looks_like_integer(s: &[char]) -> (b: bool)
    ensures
        b == looks_like_integer_of(s@),
{
    if s.len() == 0 {
        return false;
    }
    let start: usize = if s[0] == '-' { 1 } else { 0 };
    assert(unsigned_part(s@) =~= s@.skip(start as int));
    if start == s.len() {
        return false;
    }
    let mut k = start;
    while k < s.len()
        invariant
            start <= k <= s@.len(),
            unsigned_part(s@) == s@.skip(start as int),
            forall|j: int| start <= j < k ==> '0' <= #[trigger] s@[j] && s@[j] <= '9',
        decreases s@.len() - k,
    {
        if !('0' <= s[k] && s[k] <= '9') {
            assert(unsigned_part(s@)[k - start] == s@[k as int]);
            return false;
        }
        k += 1;
    }
    assert forall|j: int| 0 <= j < unsigned_part(s@).len() implies '0' <= #[trigger] unsigned_part(
        s@,
    )[j] && unsigned_part(s@)[j] <= '9' by {
        assert(unsigned_part(s@)[j] == s@[j + start]);
    }
    assert(unsigned_part(s@)[0] == s@[start as int]);
    !(s.len() - start > 1 && s[start] == '0')
}

/// The first position at or after `i` whose character is not a digit.
pub(crate) fn digits_end_exec(s: &[char], i: usize) -> (r: usize)
    requires
        i <= s@.len(),
    ensures
        r == digits_end(s@, i as int),
        i <= r <= s@.len(),
{
    let mut k = i;
    while k < s.len() && '0' <= s[k] && s[k] <= '9'
        invariant
            i <= k <= s@.len(),
            digits_end(s@, i as int) == digits_end(s@, k as int),
        decreases s@.len() - k,
    {
        k += 1;
    }
    k
}

/// Whether `s` has the decimal syntax that `f64::from_str` accepts.
pub fn decimal_float_syntax_exec(s: &[char]) -> (b: bool)
    ensures
        b == decimal_float_syntax(s@),
{
    let a: usize = if s.len() > 0 && (s[0] == '+' || s[0] == '-') { 1 } else { 0 };
    let i1 = digits_end_exec(s, a);
    let has_point = i1 < s.len() && s[i1] == '.';
    let i2 = if has_point { digits_end_exec(s, i1 + 1) } else { i1 };
    let mantissa_digits = (i1 - a) + (if has_point { i2 - i1 - 1 } else { 0 });
    if mantissa_digits == 0 {
        return false;
    }
    if i2 == s.len() {
        return true;
    }
    if !(s[i2] == 'e' || s[i2] == 'E') {
        return false;
    }
    let b = i2 + 1;
    let b2 = if b < s.len() && (s[b] == '+' || s[b] == '-') { b + 1 } else { b };
    let e = digits_end_exec(s, b2);
    e > b2 && e == s.len()
}

/// Whether `c` occurs in `s`.
fn has_char(s: &[char], c: char) -> (b: bool)
    ensures
        b == s@.contains(c),
{
    for k in 0..s.len()
        invariant
            forall|j: int| 0 <= j < k ==> s@[j] != c,
    {
        if s[k] == c {
            assert(s@[k as int] == c);
            return true;
        }
    }
    false
}

/// Whether `s` has a decimal point or an exponent and the syntax of a
/// floating-point number.
pub fn looks_like_float(s: &[char]) -> (b: bool)
    ensures
        b == looks_like_float_of(s@),
{
    s.len() > 0 && (has_char(s, '.') || has_char(s, 'e') || has_char(s, 'E'))
        && decimal_float_syntax_exec(s)
}

/// The value of the digits `s[lo..]`, when it fits in `u64`.
fn digits_u64(s: &[char], lo: usize) -> (r: Option<u64>)
    requires
        lo <= s@.len(),
        all_digits(s@.skip(lo as int)),
    ensures
        match r {
            Some(v) => v == decimal_value(s@.skip(lo as int)),
            None => decimal_value(s@.skip(lo as int)) > u64::MAX,
        },
{
    let ghost d = s@.skip(lo as int);
    let mut v: u64 = 0;
    let mut k = lo;
    while k < s.len()
        invariant
            lo <= k <= s@.len(),
            d == s@.skip(lo as int),
            all_digits(d),
            decimal_value(d.take(k - lo)) == v,
        decreases s@.len() - k,
    {
        let c = s[k];
        assert(d[k - lo] == c);
        let digit = (c as u32 - 48) as u64;
        assert(d.take(k - lo + 1).drop_last() =~= d.take(k - lo));
        assert(d.take(k - lo + 1).last() == c);
        match v.checked_mul(10) {
            None => {
                proof {
                    lemma_decimal_prefix_bound(d, k - lo + 1);
                }
                return None;
            },
            Some(w) => match w.checked_add(digit) {
                None => {
                    proof {
                        lemma_decimal_prefix_bound(d, k - lo + 1);
                    }
                    return None;
                },
                Some(x) => {
                    v = x;
                },
            },
        }
        k += 1;
    }
    assert(d.take(k - lo) =~= d);
    Some(v)
}

/// The integer an integer-looking text stands for, when it fits.
fn parse_integer(s: &[char]) -> (r: Option<JsonNumber>)
    ensures
        match (r, integer_of(s@)) {
            (Some(n), Some(m)) => n@ == m,
            (None, None) => true,
            _ => false,
        },
{
    if looks_like_integer(s) {
        let negative = s[0] == '-';
        let start: usize = if negative { 1 } else { 0 };
        assert(unsigned_part(s@) =~= s@.skip(start as int));
        match digits_u64(s, start) {
            Some(v) => {
                if negative {
                    if v <= 9223372036854775808u64 {
                        let n: i128 = -(v as i128);
                        if n == 0 {
                            return Some(JsonNumber::PosInt(0));
                        }
                        return Some(JsonNumber::NegInt(n as i64));
                    }
                } else {
                    return Some(JsonNumber::PosInt(v));
                }
            },
            None => {},
        }
    }
    None
}

/// The number a scalar text stands for.
pub fn parse_number(s: &[char]) -> (r: Option<JsonNumber>)
    ensures
        match (r, number_of(s@)) {
            (Some(n), Some(m)) => n@ == m,
            (None, None) => true,
            _ => false,
        },
{
    match parse_integer(s) {
        Some(n) => Some(n),
        None => {
            if looks_like_float(s) && float_text_is_finite(s) {
                let text = string_of_range(s, 0, s.len());
                assert(s@.subrange(0, s@.len() as int) =~= s@);
                Some(JsonNumber::Float(text))
            } else {
                None
            }
        },
    }
}

/// The number a parser's number text stands for: an integer when it is one
/// that fits in `i64` or `u64`, a floating-point number by its text
/// otherwise.
pub open spec fn raw_number_of(t: Seq<char>) -> NumberView {
    match integer_of(t) {
        Some(n) => n,
        None => NumberView::Float(t),
    }
}

/// The value a raw tree stands for: numbers classified, and each object's
/// members inserted in turn, so that a later member for a key replaces an
/// earlier one and the keys come out in order.
pub open spec fn json_of_raw(r: RawView) -> JsonView
    decreases r,
{
    match r {
        RawView::Null => JsonView::Null,
        RawView::Bool(b) => JsonView::Bool(b),
        RawView::Number(t) => JsonView::Number(raw_number_of(t)),
        RawView::String(s) => JsonView::String(s),
        RawView::Array(a) => JsonView::Array(
            Seq::new(
                a.len(),
                |i: int|
                    if 0 <= i < a.len() {
                        json_of_raw(a[i])
                    } else {
                        JsonView::Null
                    },
            ),
        ),
        RawView::Object(m) => JsonView::Object(assoc_insert_all(Seq::empty(), raw_members_json(m))),
    }
}

/// The members of a raw object, each value turned into the value it stands
/// for, in the order they come.
pub open spec fn raw_members_json(m: Seq<(Seq<char>, RawView)>) -> Seq<(Seq<char>, JsonView)>
    decreases m,
{
    Seq::new(
        m.len(),
        |i: int|
            if 0 <= i < m.len() {
                (m[i].0, json_of_raw(m[i].1))
            } else {
                (Seq::empty(), JsonView::Null)
            },
    )
}

/// A parser's tree keeps its shape: null, booleans and strings stay as
/// they are, an array keeps its length and has each item converted, and a
/// decimal integer text without superfluous leading zeros that fits in
/// `u64` becomes that integer.
pub proof fn lemma_raw_shape_kept(b: bool, s: Seq<char>, a: Seq<RawView>, t: Seq<char>)
    ensures
        json_of_raw(RawView::Null) == JsonView::Null,
        json_of_raw(RawView::Bool(b)) == JsonView::Bool(b),
        json_of_raw(RawView::String(s)) == JsonView::String(s),
        json_of_raw(RawView::Array(a)) is Array,
        json_of_raw(RawView::Array(a))->Array_0.len() == a.len(),
        forall|i: int|
            0 <= i < a.len() ==> json_of_raw(RawView::Array(a))->Array_0[i] == json_of_raw(
                #[trigger] a[i],
            ),
        t.len() > 0 && all_digits(t) && (t.len() == 1 || t[0] != '0') && decimal_value(t)
            <= u64::MAX ==> json_of_raw(RawView::Number(t)) == JsonView::Number(
            NumberView::PosInt(decimal_value(t) as u64),
        ),
{
    if t.len() > 0 && all_digits(t) && (t.len() == 1 || t[0] != '0') && decimal_value(t) <= u64::MAX {
        assert(t[0] != '-');
        assert(unsigned_part(t) == t);
        assert(integer_value(t) == decimal_value(t));
    }
}

/// Each member of a parser's object whose key no later member repeats is
/// found under its key, converted: no member is lost.
pub proof fn lemma_raw_members_kept(m: Seq<(Seq<char>, RawView)>, i: int)
    requires
        0 <= i < m.len(),
        forall|j: int| i < j < m.len() ==> #[trigger] m[j].0 != m[i].0,
    ensures
        assoc_get(json_of_raw(RawView::Object(m))->Object_0, m[i].0) == Some(json_of_raw(m[i].1)),
{
    let es = raw_members_json(m);
    lemma_insert_all_last_wins(Seq::empty(), es, i);
}

/// Looking up, after inserting every entry in turn, a key that no entry
/// after position `i` repeats finds the entry at `i`.
proof fn lemma_insert_all_last_wins(base: Seq<(Seq<char>, JsonView)>, es: Seq<(Seq<char>, JsonView)>, i: int)
    requires
        0 <= i < es.len(),
        forall|j: int| i < j < es.len() ==> #[trigger] es[j].0 != es[i].0,
    ensures
        assoc_get(assoc_insert_all(base, es), es[i].0) == Some(es[i].1),
    decreases es.len(),
{
    let k = es[i].0;
    let prev = assoc_insert_all(base, es.drop_last());
    lemma_assoc_get_insert(prev, es.last().0, es.last().1, k);
    if i < es.len() - 1 {
        assert forall|j: int| i < j < es.drop_last().len() implies #[trigger] es.drop_last()[j].0
            != es.drop_last()[i].0 by {
            assert(es.drop_last()[j] == es[j]);
        }
        lemma_insert_all_last_wins(base, es.drop_last(), i);
    }
}

/// Builds the value a raw tree stands for.
pub fn json_from_raw(raw: &RawJson) -> (j: JsonValue)
    ensures
        j@ == json_of_raw(raw@),
    decreases raw,
{
    match raw {
        RawJson::Null => JsonValue::Null,
        RawJson::Bool(b) => JsonValue::Bool(*b),
        RawJson::String(s) => JsonValue::String(s.clone()),
        RawJson::Number(t) => {
            let cs = chars_of(t.as_str());
            assert(raw@ == RawView::Number(t@));
            match parse_integer(cs.as_slice()) {
                Some(n) => JsonValue::Number(n),
                None => JsonValue::Number(JsonNumber::Float(t.clone())),
            }
        },
        RawJson::Array(items) => {
            let ghost a = raw@->Array_0;
            let mut out: Vec<JsonValue> = Vec::new();
            for i in 0..items.len()
                invariant
                    *raw == RawJson::Array(*items),
                    a == items@.map_values(|x: RawJson| x@),
                    json_seq_view(out@) =~= Seq::new(i as nat, |j: int| json_of_raw(a[j])),
            {
                proof {
                    lemma_raw_item_decreases(*raw, i as int);
                }
                let x = json_from_raw(&items[i]);
                let ghost before = json_seq_view(out@);
                out.push(x);
                assert(json_seq_view(out@) =~= before.push(x@));
            }
            let r = JsonValue::Array(out);
            assert(json_seq_view(out@) =~= json_of_raw(raw@)->Array_0);
            r
        },
        RawJson::Object(members) => {
            let ghost m = raw@->Object_0;
            let mut pairs: Vec<(String, JsonValue)> = Vec::new();
            for i in 0..members.len()
                invariant
                    *raw == RawJson::Object(*members),
                    m == members@.map_values(|e: (String, RawJson)| (e.0@, e.1@)),
                    pairs@.map_values(|e: (String, JsonValue)| (e.0@, e.1@)) =~= Seq::new(
                        i as nat,
                        |j: int| (m[j].0, json_of_raw(m[j].1)),
                    ),
            {
                proof {
                    lemma_raw_member_decreases(*raw, i as int);
                }
                let key = members[i].0.clone();
                let x = json_from_raw(&members[i].1);
                let ghost before = pairs@.map_values(|e: (String, JsonValue)| (e.0@, e.1@));
                pairs.push((key, x));
                assert(pairs@.map_values(|e: (String, JsonValue)| (e.0@, e.1@)) =~= before.push(
                    (m[i as int].0, x@),
                ));
            }
            let ghost ps = pairs@.map_values(|e: (String, JsonValue)| (e.0@, e.1@));
            let map = OrderedMap::from_pairs(pairs);
            assert(ps =~= raw_members_json(m));
            let r = JsonValue::Object(map);
            r
        },
    }
}

/// Whether the characters are `expected` once ASCII letters are lower-cased.
fn lower_equals(lower: &[char], expected: &[char]) -> (b: bool)
    ensures
        b == (lower@ == expected@),
{
    if lower.len() != expected.len() {
        return false;
    }
    for k in 0..lower.len()
        invariant
            lower@.len() == expected@.len(),
            forall|j: int| 0 <= j < k ==> lower@[j] == expected@[j],
    {
        if lower[k] != expected[k] {
            return false;
        }
    }
    assert(lower@ =~= expected@);
    true
}

/// What smart coercion makes of a string.
pub fn coerce_string(s: &str) -> (v: JsonValue)
    ensures
        v@ == coerce_string_of(s@),
{
    let cs = chars_of(s);
    let lower = ascii_lower_vec(cs.as_slice());
    let t = ['t', 'r', 'u', 'e'];
    let f = ['f', 'a', 'l', 's', 'e'];
    assert(t@ =~= seq!['t', 'r', 'u', 'e']);
    assert(f@ =~= seq!['f', 'a', 'l', 's', 'e']);
    if lower_equals(lower.as_slice(), t.as_slice()) {
        return JsonValue::Bool(true);
    }
    if lower_equals(lower.as_slice(), f.as_slice()) {
        return JsonValue::Bool(false);
    }
    match parse_number(cs.as_slice()) {
        Some(n) => JsonValue::Number(n),
        None => {
            let t = string_of_range(cs.as_slice(), 0, cs.len());
            assert(cs@.subrange(0, cs@.len() as int) =~= cs@);
            JsonValue::String(t)
        },
    }
}

/// A copy of a number.
fn copy_number(n: &JsonNumber) -> (r: JsonNumber)
    ensures
        r@ == n@,
{
    match n {
        JsonNumber::PosInt(u) => JsonNumber::PosInt(*u),
        JsonNumber::NegInt(i) => JsonNumber::NegInt(*i),
        JsonNumber::Float(s) => JsonNumber::Float(s.clone()),
    }
}

/// A copy of `value` with its strings coerced as `coercion` says.
pub fn coerce_json_value(value: &JsonValue, coercion: ScalarCoercion) -> (r: JsonValue)
    ensures
        r@ == coerce_view(value@, coercion),
    decreases value,
{
    match value {
        JsonValue::Array(items) => {
            let mut out: Vec<JsonValue> = Vec::new();
            for i in 0..items.len()
                invariant
                    *value == JsonValue::Array(*items),
                    json_seq_view(out@) =~= Seq::new(
                        i as nat,
                        |j: int| coerce_view(json_seq_view(items@)[j], coercion),
                    ),
            {
                proof {
                    lemma_item_decreases(*value, i as int);
                }
                let x = coerce_json_value(&items[i], coercion);
                let ghost before = json_seq_view(out@);
                out.push(x);
                assert(json_seq_view(out@) =~= before.push(x@));
                assert(json_seq_view(items@)[i as int] == items@[i as int]@);
            }
            let r = JsonValue::Array(out);
            assert(json_seq_view(out@) =~= coerce_view(value@, coercion)->Array_0);
            r
        },
        JsonValue::Object(members) => {
            members.lemma_sorted();
            let mut out: OrderedMap<JsonValue> = OrderedMap::new();
            let n = members.len();
            for i in 0..n
                invariant
                    *value == JsonValue::Object(*members),
                    n == members@.len(),
                    out@ =~= Seq::new(
                        i as nat,
                        |j: int| (members@[j].0, coerce_view(members@[j].1, coercion)),
                    ),
                    crate::value::sorted_keys(members@),
            {
                let key = members.key_at(i).clone();
                let x = members.value_at(i);
                proof {
                    lemma_member_decreases(*value, i as int);
                }
                let y = coerce_json_value(x, coercion);
                assert forall|j: int| 0 <= j < out@.len() implies chars_lt(#[trigger] out@[j].0, key@) by {
                    assert(out@[j].0 == members@[j].0);
                }
                out.push_last(key, y);
            }
            let r = JsonValue::Object(out);
            assert(out@ =~= coerce_view(value@, coercion)->Object_0);
            r
        },
        JsonValue::String(s) => {
            if coercion == ScalarCoercion::Smart {
                coerce_string(s.as_str())
            } else {
                JsonValue::String(s.clone())
            }
        },
        JsonValue::Null => JsonValue::Null,
        JsonValue::Bool(b) => JsonValue::Bool(*b),
        JsonValue::Number(n) => JsonValue::Number(copy_number(n)),
    }
}

impl Clone for JsonValue {
    /// A copy of the whole tree.
    fn clone(&self) -> (r: Self)
        ensures
            r@ == self@,
    {
        proof {
            lemma_coerce_preserve_identity(self@);
        }
        coerce_json_value(self, ScalarCoercion::Preserve)
    }
}

/// Coercion with `Preserve` changes nothing.
pub proof fn lemma_coerce_preserve_identity(v: JsonView)
    ensures
        coerce_view(v, ScalarCoercion::Preserve) == v,
    decreases v,
{
    match v {
        JsonView::Array(a) => {
            assert forall|i: int| 0 <= i < a.len() implies coerce_view(
                a[i],
                ScalarCoercion::Preserve,
            ) == a[i] by {
                lemma_coerce_preserve_identity(a[i]);
            }
            assert(coerce_view(v, ScalarCoercion::Preserve)->Array_0 =~= a);
        },
        JsonView::Object(m) => {
            assert forall|i: int| 0 <= i < m.len() implies coerce_view(
                m[i].1,
                ScalarCoercion::Preserve,
            ) == m[i].1 by {
                lemma_coerce_preserve_identity(m[i].1);
            }
            assert(coerce_view(v, ScalarCoercion::Preserve)->Object_0 =~= m);
        },
        _ => {},
    }
}

/// Coercing a coerced value changes nothing more.
pub proof fn lemma_coerce_idempotent(v: JsonView, c: ScalarCoercion)
    ensures
        coerce_view(coerce_view(v, c), c) == coerce_view(v, c),
    decreases v,
{
    match v {
        JsonView::Array(a) => {
            let once = coerce_view(v, c)->Array_0;
            assert forall|i: int| 0 <= i < a.len() implies coerce_view(once[i], c) == once[i] by {
                lemma_coerce_idempotent(a[i], c);
            }
            assert(coerce_view(coerce_view(v, c), c)->Array_0 =~= once);
        },
        JsonView::Object(m) => {
            let once = coerce_view(v, c)->Object_0;
            assert forall|i: int| 0 <= i < m.len() implies coerce_view(once[i].1, c) == once[i].1 by {
                lemma_coerce_idempotent(m[i].1, c);
            }
            assert(coerce_view(coerce_view(v, c), c)->Object_0 =~= once);
        },
        _ => {},
    }
}

// ---------------------------------------------------------------------------
// Flat maps to nested values
// ---------------------------------------------------------------------------
/// The value built from the first `n` entries of a flat map: starting from
/// an empty object, each entry whose key has a path places its coerced value
/// there, in key order.
pub open spec fn nested_state(entries: Seq<(Seq<char>, JsonView)>, n: nat, c: ScalarCoercion) -> JsonView
    decreases n,
{
    if n == 0 {
        JsonView::Object(Seq::empty())
    } else {
        let root = nested_state(entries, (n - 1) as nat, c);
        let segs = property_path(entries[n - 1].0);
        if segs.len() == 0 {
            root
        } else {
            insert_path_of(root, segs, coerce_view(entries[n - 1].1, c))
        }
    }
}

/// The nested value that a flat map binds into.
pub open spec fn nested_of(entries: Seq<(Seq<char>, JsonView)>, c: ScalarCoercion) -> JsonView {
    nested_state(entries, entries.len(), c)
}

/// Every key's path leaves room to extend arrays up to its indexes.
pub open spec fn keys_insertable<X>(entries: Seq<(Seq<char>, X)>) -> bool {
    forall|i: int| 0 <= i < entries.len() ==> indexes_fit(property_path(#[trigger] entries[i].0))
}

/// A flat map of strings seen as a flat map of string values.
pub open spec fn string_entries(entries: Seq<(Seq<char>, Seq<char>)>) -> Seq<(Seq<char>, JsonView)> {
    entries.map_values(|e: (Seq<char>, Seq<char>)| (e.0, JsonView::String(e.1)))
}

/// Every entry of a flat map is found at its path in the nested value when
/// the path of each later entry branches off it: no entry is dropped by
/// those that follow.
pub proof fn lemma_nested_entry_found(entries: Seq<(Seq<char>, JsonView)>, c: ScalarCoercion, i: int)
    requires
        0 <= i < entries.len(),
        property_path(entries[i].0).len() > 0,
        forall|j: int|
            i < j < entries.len() && property_path(#[trigger] entries[j].0).len() > 0 ==> branches_off(
                property_path(entries[j].0),
                property_path(entries[i].0),
            ),
    ensures
        get_path(nested_of(entries, c), property_path(entries[i].0)) == Some(
            coerce_view(entries[i].1, c),
        ),
{
    lemma_nested_entry_kept(entries, c, i, entries.len());
}

/// The entry at `i` stays at its path while the later entries up to `n`
/// are placed.
proof fn lemma_nested_entry_kept(entries: Seq<(Seq<char>, JsonView)>, c: ScalarCoercion, i: int, n: nat)
    requires
        0 <= i < n <= entries.len(),
        property_path(entries[i].0).len() > 0,
        forall|j: int|
            i < j < entries.len() && property_path(#[trigger] entries[j].0).len() > 0 ==> branches_off(
                property_path(entries[j].0),
                property_path(entries[i].0),
            ),
    ensures
        get_path(nested_state(entries, n, c), property_path(entries[i].0)) == Some(
            coerce_view(entries[i].1, c),
        ),
    decreases n,
{
    let q = property_path(entries[i].0);
    if n == i + 1 {
        lemma_get_insert_path(
            nested_state(entries, i as nat, c),
            q,
            coerce_view(entries[i].1, c),
        );
    } else {
        lemma_nested_entry_kept(entries, c, i, (n - 1) as nat);
        let segs = property_path(entries[n - 1].0);
        if segs.len() > 0 {
            assert(branches_off(segs, q));
            let k = choose|k: int|
                #![trigger segs[k], q[k]]
                0 <= k < segs.len() && k < q.len() && segs.take(k) == q.take(k) && segs[k] != q[k]
                    && same_kind(segs[k], q[k]);
            lemma_insert_path_frame(
                nested_state(entries, (n - 1) as nat, c),
                segs,
                coerce_view(entries[n - 1].1, c),
                q,
                k,
            );
        }
    }
}

/// Builds a nested value from a flat map whose keys are property paths.
pub fn nested_value_from_flat_map(flat: &OrderedMap<JsonValue>, coercion: ScalarCoercion) -> (r:
    JsonValue)
    requires
        keys_insertable(flat@),
    ensures
        r@ == nested_of(flat@, coercion),
{
    let m: OrderedMap<JsonValue> = OrderedMap::new();
    let mut root = JsonValue::Object(m);
    let n = flat.len();
    for i in 0..n
        invariant
            n == flat@.len(),
            keys_insertable(flat@),
            root@ == nested_state(flat@, i as nat, coercion),
    {
        let segments = parse_property_path(flat.key_at(i).as_str());
        if segments.len() > 0 {
            let value = coerce_json_value(flat.value_at(i), coercion);
            proof {
                assert(indexes_fit(property_path(flat@[i as int].0)));
                assert(segments_view(segments@).skip(0) =~= segments_view(segments@));
            }
            root = insert_path(root, segments.as_slice(), 0, value);
        }
    }
    root
}

/// Builds a nested value from a flat map of strings whose keys are property
/// paths.
pub fn nested_value_from_string_map(flat: &OrderedMap<String>, coercion: ScalarCoercion) -> (r:
    JsonValue)
    requires
        keys_insertable(flat@),
    ensures
        r@ == nested_of(string_entries(flat@), coercion),
{
    let ghost entries = string_entries(flat@);
    let m: OrderedMap<JsonValue> = OrderedMap::new();
    let mut root = JsonValue::Object(m);
    let n = flat.len();
    for i in 0..n
        invariant
            n == flat@.len(),
            entries == string_entries(flat@),
            keys_insertable(flat@),
            root@ == nested_state(entries, i as nat, coercion),
    {
        assert(entries[i as int] == (flat@[i as int].0, JsonView::String(flat@[i as int].1)));
        let segments = parse_property_path(flat.key_at(i).as_str());
        if segments.len() > 0 {
            let s = JsonValue::String(flat.value_at(i).clone());
            let value = coerce_json_value(&s, coercion);
            proof {
                assert(indexes_fit(property_path(flat@[i as int].0)));
                assert(segments_view(segments@).skip(0) =~= segments_view(segments@));
            }
            root = insert_path(root, segments.as_slice(), 0, value);
        }
    }
    root
}

/// The entry placed last into a nested value is found at its path.
pub proof fn lemma_nested_last_entry(entries: Seq<(Seq<char>, JsonView)>, c: ScalarCoercion)
    requires
        entries.len() > 0,
        property_path(entries.last().0).len() > 0,
    ensures
        get_path(nested_of(entries, c), property_path(entries.last().0)) == Some(
            coerce_view(entries.last().1, c),
        ),
{
    let n = entries.len();
    lemma_get_insert_path(
        nested_state(entries, (n - 1) as nat, c),
        property_path(entries[n - 1].0),
        coerce_view(entries[n - 1].1, c),
    );
}


// ---------------------------------------------------------------------------
// Coercion and nesting commute
// ---------------------------------------------------------------------------
/// The members of an object with their values coerced.
pub open spec fn coerce_members(m: Seq<(Seq<char>, JsonView)>, c: ScalarCoercion) -> Seq<
    (Seq<char>, JsonView),
> {
    Seq::new(m.len(), |i: int| (m[i].0, coerce_view(m[i].1, c)))
}

/// The items of an array, each coerced.
pub open spec fn coerce_items(a: Seq<JsonView>, c: ScalarCoercion) -> Seq<JsonView> {
    Seq::new(a.len(), |i: int| coerce_view(a[i], c))
}

/// Coercion acts on an object's values and an array's items, and keeps
/// every other value out of the container kinds.
proof fn lemma_coerce_shape(v: JsonView, c: ScalarCoercion)
    ensures
        v matches JsonView::Object(m) ==> coerce_view(v, c) == JsonView::Object(coerce_members(m, c)),
        v matches JsonView::Array(a) ==> coerce_view(v, c) == JsonView::Array(coerce_items(a, c)),
        coerce_view(v, c) is Object <==> v is Object,
        coerce_view(v, c) is Array <==> v is Array,
{
    match v {
        JsonView::Object(m) => {
            assert(coerce_view(v, c)->Object_0 =~= coerce_members(m, c));
        },
        JsonView::Array(a) => {
            assert(coerce_view(v, c)->Array_0 =~= coerce_items(a, c));
        },
        _ => {},
    }
}

/// Looking up in coerced members finds the coerced value.
proof fn lemma_coerce_members_get(m: Seq<(Seq<char>, JsonView)>, k: Seq<char>, c: ScalarCoercion)
    ensures
        assoc_get(coerce_members(m, c), k) == match assoc_get(m, k) {
            Some(x) => Some(coerce_view(x, c)),
            None => None,
        },
    decreases m.len(),
{
    if m.len() > 0 {
        assert(coerce_members(m, c).drop_first() =~= coerce_members(m.drop_first(), c));
        lemma_coerce_members_get(m.drop_first(), k, c);
    }
}

/// Inserting into coerced members is coercing after inserting.
proof fn lemma_coerce_members_insert(
    m: Seq<(Seq<char>, JsonView)>,
    k: Seq<char>,
    x: JsonView,
    c: ScalarCoercion,
)
    ensures
        coerce_members(assoc_insert(m, k, x), c) == assoc_insert(
            coerce_members(m, c),
            k,
            coerce_view(x, c),
        ),
    decreases m.len(),
{
    let cm = coerce_members(m, c);
    if m.len() == 0 {
        assert(coerce_members(assoc_insert(m, k, x), c) =~= seq![(k, coerce_view(x, c))]);
    } else {
        assert(cm.drop_first() =~= coerce_members(m.drop_first(), c));
        assert(cm[0].0 == m[0].0);
        if m[0].0 == k {
            assert(coerce_members(assoc_insert(m, k, x), c) =~= seq![(k, coerce_view(x, c))]
                + cm.drop_first());
        } else if chars_lt(k, m[0].0) {
            assert(coerce_members(assoc_insert(m, k, x), c) =~= seq![(k, coerce_view(x, c))] + cm);
        } else {
            lemma_coerce_members_insert(m.drop_first(), k, x, c);
            assert(coerce_members(assoc_insert(m, k, x), c) =~= seq![cm[0]] + coerce_members(
                assoc_insert(m.drop_first(), k, x),
                c,
            ));
        }
    }
}

/// Coercing a value placed along a path is placing the coerced value into
/// the coerced target.
proof fn lemma_coerce_insert_path(
    target: JsonView,
    segs: Seq<SegmentView>,
    value: JsonView,
    c: ScalarCoercion,
)
    ensures
        coerce_view(insert_path_of(target, segs, value), c) == insert_path_of(
            coerce_view(target, c),
            segs,
            coerce_view(value, c),
        ),
    decreases segs.len(),
{
    if segs.len() > 0 {
        let rest = segs.drop_first();
        let ct = coerce_view(target, c);
        lemma_coerce_shape(target, c);
        match segs[0] {
            SegmentView::Field(name) => {
                let obj = match target {
                    JsonView::Object(m) => m,
                    _ => Seq::empty(),
                };
                let cobj = match ct {
                    JsonView::Object(m) => m,
                    _ => Seq::empty(),
                };
                assert(cobj =~= coerce_members(obj, c));
                if segs.len() == 1 {
                    lemma_coerce_members_insert(obj, name, value, c);
                    lemma_coerce_shape(JsonView::Object(assoc_insert(obj, name, value)), c);
                } else {
                    let child = match assoc_get(obj, name) {
                        Some(x) => if fits_container(x, segs[1]) {
                            x
                        } else {
                            empty_container(segs[1])
                        },
                        None => empty_container(segs[1]),
                    };
                    lemma_coerce_members_get(obj, name, c);
                    match assoc_get(obj, name) {
                        Some(x) => lemma_coerce_shape(x, c),
                        None => {},
                    }
                    lemma_coerce_shape(empty_container(segs[1]), c);
                    assert(coerce_members(Seq::<(Seq<char>, JsonView)>::empty(), c) =~= Seq::<
                        (Seq<char>, JsonView),
                    >::empty());
                    assert(coerce_items(Seq::<JsonView>::empty(), c) =~= Seq::<JsonView>::empty());
                    lemma_coerce_insert_path(child, rest, value, c);
                    let inner = insert_path_of(child, rest, value);
                    lemma_coerce_members_insert(obj, name, inner, c);
                    lemma_coerce_shape(JsonView::Object(assoc_insert(obj, name, inner)), c);
                }
            },
            SegmentView::Index(p) => {
                let a = match target {
                    JsonView::Array(a) => a,
                    _ => Seq::empty(),
                };
                let ca = match ct {
                    JsonView::Array(a) => a,
                    _ => Seq::empty(),
                };
                assert(ca =~= coerce_items(a, c));
                let arr = pad_to(a, p as nat);
                assert(pad_to(ca, p as nat) =~= coerce_items(arr, c));
                if segs.len() == 1 {
                    lemma_coerce_shape(JsonView::Array(arr.update(p as int, value)), c);
                    assert(coerce_items(arr.update(p as int, value), c) =~= coerce_items(arr, c).update(
                        p as int,
                        coerce_view(value, c),
                    ));
                } else {
                    let cur = arr[p as int];
                    let child = if fits_container(cur, segs[1]) {
                        cur
                    } else {
                        empty_container(segs[1])
                    };
                    lemma_coerce_shape(cur, c);
                    lemma_coerce_shape(empty_container(segs[1]), c);
                    assert(coerce_members(Seq::<(Seq<char>, JsonView)>::empty(), c) =~= Seq::<
                        (Seq<char>, JsonView),
                    >::empty());
                    assert(coerce_items(Seq::<JsonView>::empty(), c) =~= Seq::<JsonView>::empty());
                    lemma_coerce_insert_path(child, rest, value, c);
                    let inner = insert_path_of(child, rest, value);
                    lemma_coerce_shape(JsonView::Array(arr.update(p as int, inner)), c);
                    assert(coerce_items(arr.update(p as int, inner), c) =~= coerce_items(arr, c).update(
                        p as int,
                        coerce_view(inner, c),
                    ));
                }
            },
        }
    }
}

/// Coercion after nesting, entry by entry.
proof fn lemma_coerce_nested_state(entries: Seq<(Seq<char>, JsonView)>, n: nat, c: ScalarCoercion)
    ensures
        coerce_view(nested_state(entries, n, ScalarCoercion::Preserve), c) == nested_state(entries, n, c),
    decreases n,
{
    if n == 0 {
        lemma_coerce_shape(JsonView::Object(Seq::empty()), c);
        assert(coerce_members(Seq::<(Seq<char>, JsonView)>::empty(), c) =~= Seq::<
            (Seq<char>, JsonView),
        >::empty());
    } else {
        lemma_coerce_nested_state(entries, (n - 1) as nat, c);
        let segs = property_path(entries[n - 1].0);
        if segs.len() > 0 {
            let v = entries[n - 1].1;
            lemma_coerce_preserve_identity(v);
            lemma_coerce_insert_path(
                nested_state(entries, (n - 1) as nat, ScalarCoercion::Preserve),
                segs,
                v,
                c,
            );
        }
    }
}

/// Coercing the value that a flat map nests into without coercion gives
/// the value it nests into with coercion: coercing strings after binding a
/// flat map and while binding it agree.
pub proof fn lemma_coerce_after_nesting(entries: Seq<(Seq<char>, JsonView)>, c: ScalarCoercion)
    ensures
        coerce_view(nested_of(entries, ScalarCoercion::Preserve), c) == nested_of(entries, c),
{
    lemma_coerce_nested_state(entries, entries.len(), c);
}

} // verus!
