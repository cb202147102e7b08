//! Keyed collections ordered by key, and the JSON-like value tree that
//! configuration documents bind into.
//!
//! Keys are ordered as `String`'s `Ord` orders them: lexicographically by
//! character code (the order of their UTF-8 bytes).
use vstd::prelude::*;
use crate::text::chars_of;

verus! {

/// Strict lexicographic order of character sequences.
pub open spec fn chars_lt(a: Seq<char>, b: Seq<char>) -> bool
    decreases a.len(),
{
    if a.len() == 0 {
        b.len() > 0
    } else if b.len() == 0 {
        false
    } else if a[0] < b[0] {
        true
    } else if b[0] < a[0] {
        false
    } else {
        chars_lt(a.drop_first(), b.drop_first())
    }
}

/// No sequence is below itself.
pub proof fn lemma_chars_lt_irreflexive(a: Seq<char>)
    ensures
        !chars_lt(a, a),
    decreases a.len(),
{
    if a.len() > 0 {
        lemma_chars_lt_irreflexive(a.drop_first());
    }
}

/// The order is transitive.
pub proof fn lemma_chars_lt_transitive(a: Seq<char>, b: Seq<char>, c: Seq<char>)
    requires
        chars_lt(a, b),
        chars_lt(b, c),
    ensures
        chars_lt(a, c),
    decreases a.len(),
{
    if a.len() > 0 && b.len() > 0 && c.len() > 0 {
        if a[0] == b[0] && b[0] == c[0] {
            lemma_chars_lt_transitive(a.drop_first(), b.drop_first(), c.drop_first());
        }
    }
}

/// Two distinct sequences are ordered one way or the other, never both.
pub proof fn lemma_chars_lt_total(a: Seq<char>, b: Seq<char>)
    ensures
        a != b ==> (chars_lt(a, b) || chars_lt(b, a)),
        !(chars_lt(a, b) && chars_lt(b, a)),
    decreases a.len(),
{
    if a.len() > 0 && b.len() > 0 {
        lemma_chars_lt_total(a.drop_first(), b.drop_first());
        if a[0] == b[0] && a.drop_first() == b.drop_first() {
            assert(a =~= seq![a[0]] + a.drop_first());
            assert(b =~= seq![b[0]] + b.drop_first());
        }
    } else if a.len() == 0 && b.len() == 0 {
        assert(a =~= b);
    }
}

/// Decides `chars_lt`.
pub fn chars_less(a: &[char], b: &[char]) -> (r: bool)
    ensures
        r == chars_lt(a@, b@),
{
    let mut i: usize = 0;
    assert(a@.skip(0) =~= a@);
    assert(b@.skip(0) =~= b@);
    while i < a.len() && i < b.len() && a[i] == b[i]
        invariant
            0 <= i <= a@.len(),
            i <= b@.len(),
            chars_lt(a@, b@) == chars_lt(a@.skip(i as int), b@.skip(i as int)),
        decreases a@.len() - i,
    {
        assert(a@.skip(i as int).drop_first() =~= a@.skip(i + 1));
        assert(b@.skip(i as int).drop_first() =~= b@.skip(i + 1));
        i += 1;
    }
    if i == a.len() {
        i < b.len()
    } else if i == b.len() {
        false
    } else {
        a[i] < b[i]
    }
}

/// Keys of `s` strictly increase.
pub open spec fn sorted_keys<X>(s: Seq<(Seq<char>, X)>) -> bool {
    forall|i: int, j: int| 0 <= i < j < s.len() ==> chars_lt(#[trigger] s[i].0, #[trigger] s[j].0)
}

/// The value stored under `k`: that of the first entry with that key.
pub open spec fn assoc_get<X>(s: Seq<(Seq<char>, X)>, k: Seq<char>) -> Option<X>
    decreases s.len(),
{
    if s.len() == 0 {
        None
    } else if s[0].0 == k {
        Some(s[0].1)
    } else {
        assoc_get(s.drop_first(), k)
    }
}

/// Inserting `k` with `x` into a key-ordered sequence: the entry for `k` is
/// replaced where it stands, or a new one goes before the first greater key.
pub open spec fn assoc_insert<X>(s: Seq<(Seq<char>, X)>, k: Seq<char>, x: X) -> Seq<(Seq<char>, X)>
    decreases s.len(),
{
    if s.len() == 0 {
        seq![(k, x)]
    } else if s[0].0 == k {
        seq![(k, x)] + s.drop_first()
    } else if chars_lt(k, s[0].0) {
        seq![(k, x)] + s
    } else {
        seq![s[0]] + assoc_insert(s.drop_first(), k, x)
    }
}

/// `s` without its first entry for `k`.
pub open spec fn assoc_remove<X>(s: Seq<(Seq<char>, X)>, k: Seq<char>) -> Seq<(Seq<char>, X)>
    decreases s.len(),
{
    if s.len() == 0 {
        s
    } else if s[0].0 == k {
        s.drop_first()
    } else {
        seq![s[0]] + assoc_remove(s.drop_first(), k)
    }
}

/// `m` with every entry of `entries` inserted in turn.
pub open spec fn assoc_insert_all<X>(m: Seq<(Seq<char>, X)>, entries: Seq<(Seq<char>, X)>) -> Seq<
    (Seq<char>, X),
>
    decreases entries.len(),
{
    if entries.len() == 0 {
        m
    } else {
        assoc_insert(assoc_insert_all(m, entries.drop_last()), entries.last().0, entries.last().1)
    }
}

/// The keys of `s`, in order.
pub open spec fn assoc_keys<X>(s: Seq<(Seq<char>, X)>) -> Seq<Seq<char>> {
    s.map_values(|e: (Seq<char>, X)| e.0)
}

/// When every entry before position `i` has a key other than `k`, the lookup
/// starts at `i`.
pub proof fn lemma_assoc_get_skip<X>(s: Seq<(Seq<char>, X)>, k: Seq<char>, i: int)
    requires
        0 <= i <= s.len(),
        forall|j: int| 0 <= j < i ==> #[trigger] s[j].0 != k,
    ensures
        assoc_get(s, k) == assoc_get(s.skip(i), k),
    decreases i,
{
    if i > 0 {
        let t = s.drop_first();
        assert forall|j: int| 0 <= j < i - 1 implies #[trigger] t[j].0 != k by {
            assert(t[j] == s[j + 1]);
        }
        lemma_assoc_get_skip(t, k, i - 1);
        assert(t.skip(i - 1) =~= s.skip(i));
    } else {
        assert(s.skip(0) =~= s);
    }
}

/// When every entry before position `i` has a key below `k`, insertion keeps
/// that prefix and acts on the rest.
pub proof fn lemma_assoc_insert_skip<X>(s: Seq<(Seq<char>, X)>, k: Seq<char>, x: X, i: int)
    requires
        0 <= i <= s.len(),
        forall|j: int| 0 <= j < i ==> chars_lt(#[trigger] s[j].0, k),
    ensures
        assoc_insert(s, k, x) == s.take(i) + assoc_insert(s.skip(i), k, x),
    decreases i,
{
    if i > 0 {
        let t = s.drop_first();
        assert forall|j: int| 0 <= j < i - 1 implies chars_lt(#[trigger] t[j].0, k) by {
            assert(t[j] == s[j + 1]);
        }
        lemma_assoc_insert_skip(t, k, x, i - 1);
        assert(chars_lt(s[0].0, k));
        lemma_chars_lt_irreflexive(k);
        lemma_chars_lt_total(s[0].0, k);
        assert(t.skip(i - 1) =~= s.skip(i));
        assert(s.take(i) =~= seq![s[0]] + t.take(i - 1));
    } else {
        assert(s.skip(0) =~= s);
        assert(s.take(0) =~= Seq::<(Seq<char>, X)>::empty());
    }
}

/// When every entry before position `i` has a key other than `k`, removal
/// keeps that prefix and acts on the rest.
pub proof fn lemma_assoc_remove_skip<X>(s: Seq<(Seq<char>, X)>, k: Seq<char>, i: int)
    requires
        0 <= i <= s.len(),
        forall|j: int| 0 <= j < i ==> #[trigger] s[j].0 != k,
    ensures
        assoc_remove(s, k) == s.take(i) + assoc_remove(s.skip(i), k),
    decreases i,
{
    if i > 0 {
        let t = s.drop_first();
        assert forall|j: int| 0 <= j < i - 1 implies #[trigger] t[j].0 != k by {
            assert(t[j] == s[j + 1]);
        }
        lemma_assoc_remove_skip(t, k, i - 1);
        assert(t.skip(i - 1) =~= s.skip(i));
        assert(s.take(i) =~= seq![s[0]] + t.take(i - 1));
    } else {
        assert(s.skip(0) =~= s);
        assert(s.take(0) =~= Seq::<(Seq<char>, X)>::empty());
    }
}

/// Read after write: the key just inserted gives the value just inserted,
/// and every other key gives what it gave before.
pub proof fn lemma_assoc_get_insert<X>(s: Seq<(Seq<char>, X)>, k: Seq<char>, x: X, q: Seq<char>)
    ensures
        assoc_get(assoc_insert(s, k, x), q) == if q == k {
            Some(x)
        } else {
            assoc_get(s, q)
        },
    decreases s.len(),
{
    let r = assoc_insert(s, k, x);
    if s.len() > 0 {
        if s[0].0 == k {
            assert(r[0] == (k, x));
            assert(r.drop_first() =~= s.drop_first());
        } else if chars_lt(k, s[0].0) {
            assert(r[0] == (k, x));
            assert(r.drop_first() =~= s);
        } else {
            assert(r[0] == s[0]);
            lemma_assoc_get_insert(s.drop_first(), k, x, q);
            assert(r.drop_first() =~= assoc_insert(s.drop_first(), k, x));
        }
    } else {
        assert(r[0] == (k, x));
        assert(assoc_get(r.drop_first(), q) is None);
    }
}

/// Removal forgets `k` and keeps every other key, in a key-ordered sequence.
pub proof fn lemma_assoc_get_remove<X>(s: Seq<(Seq<char>, X)>, k: Seq<char>, q: Seq<char>)
    requires
        sorted_keys(s),
    ensures
        assoc_get(assoc_remove(s, k), q) == if q == k {
            None
        } else {
            assoc_get(s, q)
        },
    decreases s.len(),
{
    if s.len() > 0 {
        let t = s.drop_first();
        assert(sorted_keys(t)) by {
            assert forall|i: int, j: int| 0 <= i < j < t.len() implies chars_lt(
                #[trigger] t[i].0,
                #[trigger] t[j].0,
            ) by {
                assert(t[i] == s[i + 1] && t[j] == s[j + 1]);
            }
        }
        if s[0].0 == k {
            if q == k {
                lemma_sorted_absent(s);
            }
        } else {
            lemma_assoc_get_remove(t, k, q);
            assert((seq![s[0]] + assoc_remove(t, k)).drop_first() =~= assoc_remove(t, k));
        }
    }
}

/// In a key-ordered sequence the first key does not occur again.
pub proof fn lemma_sorted_absent<X>(s: Seq<(Seq<char>, X)>)
    requires
        sorted_keys(s),
        s.len() > 0,
    ensures
        assoc_get(s.drop_first(), s[0].0) is None,
{
    let t = s.drop_first();
    assert forall|j: int| 0 <= j < t.len() implies #[trigger] t[j].0 != s[0].0 by {
        assert(t[j] == s[j + 1]);
        assert(chars_lt(s[0].0, s[j + 1].0));
        lemma_chars_lt_irreflexive(s[0].0);
    }
    lemma_assoc_get_skip(t, s[0].0, t.len() as int);
}

/// Insertion keeps a sequence ordered by key.
pub proof fn lemma_assoc_insert_sorted<X>(s: Seq<(Seq<char>, X)>, k: Seq<char>, x: X)
    requires
        sorted_keys(s),
    ensures
        sorted_keys(assoc_insert(s, k, x)),
        forall|q: Seq<char>| #[trigger] assoc_keys(assoc_insert(s, k, x)).contains(q) ==> (q == k
            || assoc_keys(s).contains(q)),
    decreases s.len(),
{
    let r = assoc_insert(s, k, x);
    if s.len() == 0 {
        assert forall|q: Seq<char>| #[trigger] assoc_keys(r).contains(q) implies q == k by {
            let i = choose|i: int| 0 <= i < assoc_keys(r).len() && assoc_keys(r)[i] == q;
        }
    } else {
        let t = s.drop_first();
        assert(sorted_keys(t)) by {
            assert forall|i: int, j: int| 0 <= i < j < t.len() implies chars_lt(
                #[trigger] t[i].0,
                #[trigger] t[j].0,
            ) by {
                assert(t[i] == s[i + 1] && t[j] == s[j + 1]);
            }
        }
        if s[0].0 == k {
            assert forall|i: int, j: int| 0 <= i < j < r.len() implies chars_lt(
                #[trigger] r[i].0,
                #[trigger] r[j].0,
            ) by {
                assert(r[i].0 == s[i].0 && r[j].0 == s[j].0);
            }
            assert forall|q: Seq<char>| #[trigger] assoc_keys(r).contains(q) implies (q == k
                || assoc_keys(s).contains(q)) by {
                let i = choose|i: int| 0 <= i < assoc_keys(r).len() && assoc_keys(r)[i] == q;
                assert(assoc_keys(s)[i] == q);
            }
        } else if chars_lt(k, s[0].0) {
            assert forall|i: int, j: int| 0 <= i < j < r.len() implies chars_lt(
                #[trigger] r[i].0,
                #[trigger] r[j].0,
            ) by {
                if i == 0 {
                    if j > 1 {
                        assert(chars_lt(s[0].0, s[j - 1].0));
                        lemma_chars_lt_transitive(k, s[0].0, s[j - 1].0);
                    }
                } else {
                    assert(r[i] == s[i - 1] && r[j] == s[j - 1]);
                }
            }
            assert forall|q: Seq<char>| #[trigger] assoc_keys(r).contains(q) implies (q == k
                || assoc_keys(s).contains(q)) by {
                let i = choose|i: int| 0 <= i < assoc_keys(r).len() && assoc_keys(r)[i] == q;
                if i > 0 {
                    assert(assoc_keys(s)[i - 1] == q);
                }
            }
        } else {
            lemma_assoc_insert_sorted(t, k, x);
            let rt = assoc_insert(t, k, x);
            lemma_chars_lt_total(s[0].0, k);
            assert forall|i: int, j: int| 0 <= i < j < r.len() implies chars_lt(
                #[trigger] r[i].0,
                #[trigger] r[j].0,
            ) by {
                if i == 0 {
                    assert(r[j] == rt[j - 1]);
                    assert(assoc_keys(rt)[j - 1] == rt[j - 1].0);
                    assert(assoc_keys(rt).contains(rt[j - 1].0));
                    if rt[j - 1].0 != k {
                        let m = choose|m: int|
                            0 <= m < assoc_keys(t).len() && assoc_keys(t)[m] == rt[j - 1].0;
                        assert(t[m] == s[m + 1]);
                    }
                } else {
                    assert(r[i] == rt[i - 1] && r[j] == rt[j - 1]);
                }
            }
            assert forall|q: Seq<char>| #[trigger] assoc_keys(r).contains(q) implies (q == k
                || assoc_keys(s).contains(q)) by {
                let i = choose|i: int| 0 <= i < assoc_keys(r).len() && assoc_keys(r)[i] == q;
                if i > 0 {
                    assert(assoc_keys(rt)[i - 1] == q);
                    assert(assoc_keys(rt).contains(q));
                    if q != k {
                        let m = choose|m: int| 0 <= m < assoc_keys(t).len() && assoc_keys(t)[m] == q;
                        assert(assoc_keys(s)[m + 1] == q);
                    }
                } else {
                    assert(assoc_keys(s)[0] == q);
                }
            }
        }
    }
}

/// A map from string keys, kept in increasing key order with one entry per
/// key, iterated in the order of a `BTreeMap<String, V>`.
#[derive(Debug, PartialEq)]
pub struct OrderedMap<V> {
    entries: Vec<(String, V)>,
}

impl<V: View> View for OrderedMap<V> {
    type V = Seq<(Seq<char>, V::V)>;

    closed spec fn view(&self) -> Seq<(Seq<char>, V::V)> {
        Seq::new(self.entries@.len(), |i: int| (self.entries@[i].0@, self.entries@[i].1@))
    }
}

impl<V> OrderedMap<V> {
    /// Keys strictly increase.
    #[verifier::type_invariant]
    closed spec fn wf(self) -> bool {
        forall|i: int, j: int|
            0 <= i < j < self.entries@.len() ==> chars_lt(
                #[trigger] self.entries@[i].0@,
                #[trigger] self.entries@[j].0@,
            )
    }
}

impl<V: View> OrderedMap<V> {
    /// The view is ordered by key.
    pub fn lemma_sorted(&self)
        ensures
            sorted_keys(self@),
    {
        proof {
            use_type_invariant(self);
        }
    }

    /// An empty map.
    pub fn new() -> (m: Self)
        ensures
            m@ == Seq::<(Seq<char>, V::V)>::empty(),
    {
        let m = OrderedMap { entries: Vec::new() };
        assert(m@ =~= Seq::<(Seq<char>, V::V)>::empty());
        m
    }

    /// The number of entries.
    pub fn len(&self) -> (n: usize)
        ensures
            n == self@.len(),
    {
        self.entries.len()
    }

    /// Whether the map has no entry.
    pub fn is_empty(&self) -> (b: bool)
        ensures
            b == (self@.len() == 0),
    {
        self.entries.len() == 0
    }

    /// The key of the entry at position `i` in key order.
    pub fn key_at(&self, i: usize) -> (k: &String)
        requires
            i < self@.len(),
        ensures
            k@ == self@[i as int].0,
    {
        &self.entries[i].0
    }

    /// The value stored at position `i` in key order.
    pub closed spec fn member(&self, i: int) -> V {
        self.entries@[i].1
    }

    /// The value of the entry at position `i` in key order.
    pub fn value_at(&self, i: usize) -> (v: &V)
        requires
            i < self@.len(),
        ensures
            v@ == self@[i as int].1,
            *v == self.member(i as int),
    {
        &self.entries[i].1
    }

    /// The first position whose key is not below `key`, and whether its key
    /// is `key`.
    fn seek(&self, key: &[char]) -> (r: (usize, bool))
        ensures
            r.0 <= self@.len(),
            forall|j: int| 0 <= j < r.0 ==> chars_lt(#[trigger] self@[j].0, key@),
            r.0 < self@.len() ==> !chars_lt(self@[r.0 as int].0, key@),
            r.1 == (r.0 < self@.len() && self@[r.0 as int].0 == key@),
    {
        let mut i: usize = 0;
        while i < self.entries.len()
            invariant
                0 <= i <= self@.len(),
                self@.len() == self.entries@.len(),
                forall|j: int| 0 <= j < i ==> chars_lt(#[trigger] self@[j].0, key@),
            decreases self@.len() - i,
        {
            let k = chars_of(self.entries[i].0.as_str());
            assert(k@ == self@[i as int].0);
            if !chars_less(k.as_slice(), key) {
                let same = !chars_less(key, k.as_slice());
                proof {
                    lemma_chars_lt_total(k@, key@);
                    if k@ == key@ {
                        lemma_chars_lt_irreflexive(k@);
                    }
                }
                return (i, same);
            }
            i += 1;
        }
        (i, false)
    }

    /// In a key-ordered map, the keys before the seek position differ from
    /// the key sought, and so do the ones after it when it is not there.
    proof fn lemma_seek_facts(&self, key: Seq<char>, i: int)
        requires
            sorted_keys(self@),
            0 <= i <= self@.len(),
            forall|j: int| 0 <= j < i ==> chars_lt(#[trigger] self@[j].0, key),
            i < self@.len() ==> !chars_lt(self@[i].0, key),
        ensures
            forall|j: int| 0 <= j < i ==> #[trigger] self@[j].0 != key,
            forall|j: int| i < j < self@.len() ==> #[trigger] self@[j].0 != key,
    {
        assert forall|j: int| 0 <= j < i implies #[trigger] self@[j].0 != key by {
            lemma_chars_lt_irreflexive(key);
        }
        assert forall|j: int| i < j < self@.len() implies #[trigger] self@[j].0 != key by {
            assert(chars_lt(self@[i].0, self@[j].0));
            if self@[j].0 == key {
                lemma_chars_lt_total(self@[i].0, key);
                if self@[i].0 == key {
                    lemma_chars_lt_irreflexive(key);
                }
            }
        }
    }

    /// The value stored under `key`.
    pub fn get(&self, key: &str) -> (r: Option<&V>)
        ensures
            assoc_get(self@, key@) == match r {
                Some(v) => Some(v@),
                None => None::<V::V>,
            },
    {
        proof {
            use_type_invariant(self);
        }
        let k = chars_of(key);
        let (i, found) = self.seek(k.as_slice());
        proof {
            self.lemma_seek_facts(key@, i as int);
            lemma_assoc_get_skip(self@, key@, i as int);
            if !found {
                lemma_assoc_get_skip(self@, key@, self@.len() as int);
                let t = self@.skip(i as int);
                assert forall|j: int| 0 <= j < t.len() implies #[trigger] t[j].0 != key@ by {
                    assert(t[j] == self@[i + j]);
                }
                lemma_assoc_get_skip(t, key@, t.len() as int);
            }
        }
        if found {
            Some(&self.entries[i].1)
        } else {
            None
        }
    }

    /// Whether `key` has an entry.
    pub fn contains_key(&self, key: &str) -> (b: bool)
        ensures
            b == assoc_get(self@, key@) is Some,
    {
        self.get(key).is_some()
    }

    /// Stores `value` under `key`, replacing any value stored there before.
    pub fn insert(&mut self, key: String, value: V)
        ensures
            final(self)@ == assoc_insert(old(self)@, key@, value@),
    {
        proof {
            use_type_invariant(&*self);
        }
        let k = chars_of(key.as_str());
        let (i, found) = self.seek(k.as_slice());
        let ghost old_view = self@;
        proof {
            lemma_assoc_insert_skip(old_view, key@, value@, i as int);
        }
        if found {
            let ghost t = old_view.skip(i as int);
            let mut entries: Vec<(String, V)> = Vec::new();
            std::mem::swap(&mut entries, &mut self.entries);
            entries.set(i, (key, value));
            self.entries = entries;
            proof {
                assert(self@ =~= old_view.take(i as int) + (seq![(k@, value@)] + t.drop_first()));
            }
        } else {
            proof {
                let t = old_view.skip(i as int);
                if i < old_view.len() {
                    lemma_chars_lt_total(old_view[i as int].0, key@);
                }
                assert(assoc_insert(t, key@, value@) == seq![(key@, value@)] + t);
                assert forall|j: int| 0 <= j < i implies chars_lt(
                    #[trigger] self.entries@[j].0@,
                    key@,
                ) by {
                    assert(self.entries@[j].0@ == old_view[j].0);
                }
                assert forall|j: int| i <= j < self.entries@.len() implies chars_lt(
                    key@,
                    #[trigger] self.entries@[j].0@,
                ) by {
                    assert(self.entries@[j].0@ == old_view[j].0);
                    if j > i {
                        assert(chars_lt(old_view[i as int].0, old_view[j].0));
                        lemma_chars_lt_transitive(key@, old_view[i as int].0, old_view[j].0);
                    }
                }
            }
            let mut entries: Vec<(String, V)> = Vec::new();
            std::mem::swap(&mut entries, &mut self.entries);
            entries.insert(i, (key, value));
            self.entries = entries;
            proof {
                assert(self@ =~= old_view.take(i as int) + (seq![(k@, value@)] + old_view.skip(
                    i as int,
                )));
            }
        }
    }

    /// Takes out the value stored under `key`, if any.
    pub fn remove(&mut self, key: &str) -> (r: Option<V>)
        ensures
            assoc_get(old(self)@, key@) == match r {
                Some(v) => Some(v@),
                None => None::<V::V>,
            },
            final(self)@ == assoc_remove(old(self)@, key@),
    {
        proof {
            use_type_invariant(&*self);
        }
        let k = chars_of(key);
        let (i, found) = self.seek(k.as_slice());
        let ghost old_view = self@;
        proof {
            self.lemma_seek_facts(key@, i as int);
            lemma_assoc_get_skip(old_view, key@, i as int);
            lemma_assoc_remove_skip(old_view, key@, i as int);
        }
        if found {
            let mut entries: Vec<(String, V)> = Vec::new();
            std::mem::swap(&mut entries, &mut self.entries);
            let (_, v) = entries.remove(i);
            self.entries = entries;
            proof {
                assert(self@ =~= old_view.take(i as int) + old_view.skip(i as int).drop_first());
            }
            Some(v)
        } else {
            proof {
                let t = old_view.skip(i as int);
                assert forall|j: int| 0 <= j < t.len() implies #[trigger] t[j].0 != key@ by {
                    assert(t[j] == old_view[i + j]);
                }
                lemma_assoc_get_skip(t, key@, t.len() as int);
                lemma_assoc_remove_skip(t, key@, t.len() as int);
                assert(t.skip(t.len() as int) =~= Seq::<(Seq<char>, V::V)>::empty());
                assert(t.take(t.len() as int) =~= t);
                assert(old_view.take(i as int) + t =~= old_view);
            }
            None
        }
    }

    /// A map holding the given entries, each inserted in turn, so that a
    /// later entry for a key replaces an earlier one.
    pub fn from_pairs(pairs: Vec<(String, V)>) -> (m: Self)
        ensures
            m@ == assoc_insert_all(
                Seq::empty(),
                pairs@.map_values(|e: (String, V)| (e.0@, e.1@)),
            ),
    {
        let ghost ps = pairs@.map_values(|e: (String, V)| (e.0@, e.1@));
        let ghost orig = pairs@;
        let mut m = OrderedMap::new();
        let mut rest = pairs;
        let n = rest.len();
        for i in 0..n
            invariant
                n == orig.len(),
                ps == orig.map_values(|e: (String, V)| (e.0@, e.1@)),
                rest@ == orig.skip(i as int),
                m@ == assoc_insert_all(Seq::empty(), ps.take(i as int)),
        {
            let (k, v) = rest.remove(0);
            proof {
                assert(ps.take(i + 1).drop_last() =~= ps.take(i as int));
                assert(ps[i as int] == (orig[i as int].0@, orig[i as int].1@));
                assert(rest@ =~= orig.skip(i + 1));
            }
            m.insert(k, v);
        }
        assert(ps.take(n as int) =~= ps);
        m
    }

    /// The entries in key order.
    pub fn into_entries(self) -> (v: Vec<(String, V)>)
        ensures
            v@.len() == self@.len(),
            forall|i: int|
                0 <= i < v@.len() ==> (#[trigger] v@[i]).0@ == self@[i].0 && v@[i].1@ == self@[i].1,
    {
        self.entries
    }
}

impl Clone for OrderedMap<String> {
    fn clone(&self) -> (r: Self)
        ensures
            r@ == self@,
    {
        proof {
            use_type_invariant(self);
        }
        let mut entries: Vec<(String, String)> = Vec::new();
        for i in 0..self.entries.len()
            invariant
                entries@.len() == i,
                forall|a: int, b: int|
                    0 <= a < b < self.entries@.len() ==> chars_lt(
                        #[trigger] self.entries@[a].0@,
                        #[trigger] self.entries@[b].0@,
                    ),
                forall|j: int|
                    0 <= j < i ==> (#[trigger] entries@[j]).0@ == self.entries@[j].0@
                        && entries@[j].1@ == self.entries@[j].1@,
        {
            let k = self.entries[i].0.clone();
            let v = self.entries[i].1.clone();
            entries.push((k, v));
        }
        let r = OrderedMap { entries };
        assert(r@ =~= self@);
        r
    }
}

impl Clone for OrderedMap<JsonValue> {
    fn clone(&self) -> (r: Self)
        ensures
            r@ == self@,
    {
        proof {
            use_type_invariant(self);
        }
        let mut entries: Vec<(String, JsonValue)> = Vec::new();
        for i in 0..self.entries.len()
            invariant
                entries@.len() == i,
                forall|a: int, b: int|
                    0 <= a < b < self.entries@.len() ==> chars_lt(
                        #[trigger] self.entries@[a].0@,
                        #[trigger] self.entries@[b].0@,
                    ),
                forall|j: int|
                    0 <= j < i ==> (#[trigger] entries@[j]).0@ == self.entries@[j].0@
                        && entries@[j].1@ == self.entries@[j].1@,
        {
            let k = self.entries[i].0.clone();
            let v = self.entries[i].1.clone();
            entries.push((k, v));
        }
        let r = OrderedMap { entries };
        assert(r@ =~= self@);
        r
    }
}

/// A JSON number: a non-negative integer, a negative integer, or a
/// floating-point number carried as the decimal text it is written with.
#[derive(Debug, Clone, PartialEq)]
pub enum JsonNumber {
    /// An integer from 0 to `u64::MAX`.
    PosInt(u64),
    /// A negative integer.
    NegInt(i64),
    /// A floating-point number, by its decimal text. The texts the library
    /// makes have finite values; the number itself is read where the value
    /// leaves the library.
    Float(String),
}

/// A JSON-like configuration value. Object members are kept in key order.
#[derive(Debug, PartialEq)]
pub enum JsonValue {
    Null,
    Bool(bool),
    Number(JsonNumber),
    String(String),
    Array(Vec<JsonValue>),
    Object(OrderedMap<JsonValue>),
}

/// What a `JsonNumber` holds.
pub enum NumberView {
    PosInt(u64),
    NegInt(i64),
    Float(Seq<char>),
}

/// What a `JsonValue` holds.
pub enum JsonView {
    Null,
    Bool(bool),
    Number(NumberView),
    String(Seq<char>),
    Array(Seq<JsonView>),
    Object(Seq<(Seq<char>, JsonView)>),
}

impl View for JsonNumber {
    type V = NumberView;

    open spec fn view(&self) -> NumberView {
        match self {
            JsonNumber::PosInt(u) => NumberView::PosInt(*u),
            JsonNumber::NegInt(i) => NumberView::NegInt(*i),
            JsonNumber::Float(s) => NumberView::Float(s@),
        }
    }
}

/// The view of a value, member by member.
pub closed spec fn json_view(j: JsonValue) -> JsonView
    decreases j,
{
    match j {
        JsonValue::Null => JsonView::Null,
        JsonValue::Bool(b) => JsonView::Bool(b),
        JsonValue::Number(n) => JsonView::Number(n@),
        JsonValue::String(s) => JsonView::String(s@),
        JsonValue::Array(v) => JsonView::Array(
            Seq::new(
                v@.len(),
                |i: int|
                    if 0 <= i < v@.len() {
                        json_view(v@[i])
                    } else {
                        JsonView::Null
                    },
            ),
        ),
        JsonValue::Object(m) => JsonView::Object(
            Seq::new(
                m.entries@.len(),
                |i: int|
                    if 0 <= i < m.entries@.len() {
                        (m.entries@[i].0@, json_view(m.entries@[i].1))
                    } else {
                        (Seq::empty(), JsonView::Null)
                    },
            ),
        ),
    }
}

impl View for JsonValue {
    type V = JsonView;

    open spec fn view(&self) -> JsonView {
        json_view(*self)
    }
}

/// The view of each element of a vector of values.
pub open spec fn json_seq_view(v: Seq<JsonValue>) -> Seq<JsonView> {
    v.map_values(|x: JsonValue| x@)
}

/// The view of a value is made of the views of its parts.
pub broadcast proof fn lemma_json_view(j: JsonValue)
    ensures
        #[trigger] json_view(j) == match j {
            JsonValue::Null => JsonView::Null,
            JsonValue::Bool(b) => JsonView::Bool(b),
            JsonValue::Number(n) => JsonView::Number(n@),
            JsonValue::String(s) => JsonView::String(s@),
            JsonValue::Array(v) => JsonView::Array(json_seq_view(v@)),
            JsonValue::Object(m) => JsonView::Object(m@),
        },
{
    match j {
        JsonValue::Array(v) => {
            assert(json_view(j)->Array_0 =~= json_seq_view(v@));
        },
        JsonValue::Object(m) => {
            assert(json_view(j)->Object_0 =~= m@);
        },
        _ => {},
    }
}

/// A JSON tree as a parser hands it over: each number by the text it is
/// written with, object members in the order they come.
#[derive(Debug)]
pub enum RawJson {
    Null,
    Bool(bool),
    Number(String),
    String(String),
    Array(Vec<RawJson>),
    Object(Vec<(String, RawJson)>),
}

/// What a `RawJson` holds.
pub enum RawView {
    Null,
    Bool(bool),
    Number(Seq<char>),
    String(Seq<char>),
    Array(Seq<RawView>),
    Object(Seq<(Seq<char>, RawView)>),
}

/// The view of a raw tree, part by part.
pub closed spec fn raw_view(r: RawJson) -> RawView
    decreases r,
{
    match r {
        RawJson::Null => RawView::Null,
        RawJson::Bool(b) => RawView::Bool(b),
        RawJson::Number(t) => RawView::Number(t@),
        RawJson::String(s) => RawView::String(s@),
        RawJson::Array(v) => RawView::Array(
            Seq::new(
                v@.len(),
                |i: int|
                    if 0 <= i < v@.len() {
                        raw_view(v@[i])
                    } else {
                        RawView::Null
                    },
            ),
        ),
        RawJson::Object(m) => RawView::Object(
            Seq::new(
                m@.len(),
                |i: int|
                    if 0 <= i < m@.len() {
                        (m@[i].0@, raw_view(m@[i].1))
                    } else {
                        (Seq::empty(), RawView::Null)
                    },
            ),
        ),
    }
}

impl View for RawJson {
    type V = RawView;

    open spec fn view(&self) -> RawView {
        raw_view(*self)
    }
}

/// The view of a raw tree is made of the views of its parts.
pub broadcast proof fn lemma_raw_view(r: RawJson)
    ensures
        #[trigger] raw_view(r) == match r {
            RawJson::Null => RawView::Null,
            RawJson::Bool(b) => RawView::Bool(b),
            RawJson::Number(t) => RawView::Number(t@),
            RawJson::String(s) => RawView::String(s@),
            RawJson::Array(v) => RawView::Array(v@.map_values(|x: RawJson| x@)),
            RawJson::Object(m) => RawView::Object(
                m@.map_values(|e: (String, RawJson)| (e.0@, e.1@)),
            ),
        },
{
    match r {
        RawJson::Array(v) => {
            assert(raw_view(r)->Array_0 =~= v@.map_values(|x: RawJson| x@));
        },
        RawJson::Object(m) => {
            assert(raw_view(r)->Object_0 =~= m@.map_values(|e: (String, RawJson)| (e.0@, e.1@)));
        },
        _ => {},
    }
}

/// An item of a raw array is smaller than the array.
pub proof fn lemma_raw_item_decreases(r: RawJson, i: int)
    requires
        r is Array,
        0 <= i < r->Array_0@.len(),
    ensures
        decreases_to!(r => r->Array_0@[i]),
{
    let a = r->Array_0;
    assert(decreases_to!(r => a));
    assert(decreases_to!(a => a@));
    assert(decreases_to!(a@ => a@[i]));
}

/// A member value of a raw object is smaller than the object.
pub proof fn lemma_raw_member_decreases(r: RawJson, i: int)
    requires
        r is Object,
        0 <= i < r->Object_0@.len(),
    ensures
        decreases_to!(r => r->Object_0@[i].1),
{
    let m = r->Object_0;
    assert(decreases_to!(r => m));
    assert(decreases_to!(m => m@));
    assert(decreases_to!(m@ => m@[i]));
    assert(decreases_to!(m@[i] => m@[i].1));
}

impl<V: View> OrderedMap<V> {
    /// Appends an entry whose key is above every key present.
    pub fn push_last(&mut self, key: String, value: V)
        requires
            forall|i: int| 0 <= i < old(self)@.len() ==> chars_lt(#[trigger] old(self)@[i].0, key@),
        ensures
            final(self)@ == old(self)@.push((key@, value@)),
    {
        proof {
            use_type_invariant(&*self);
        }
        let ghost old_view = self@;
        proof {
            assert forall|i: int| 0 <= i < self.entries@.len() implies chars_lt(
                #[trigger] self.entries@[i].0@,
                key@,
            ) by {
                assert(self.entries@[i].0@ == old_view[i].0);
            }
        }
        let mut entries: Vec<(String, V)> = Vec::new();
        std::mem::swap(&mut entries, &mut self.entries);
        entries.push((key, value));
        self.entries = entries;
        assert(self@ =~= old_view.push((key@, value@)));
    }
}

/// Insertion after removal of the same key is insertion alone, in a
/// key-ordered sequence.
pub proof fn lemma_assoc_insert_remove<X>(s: Seq<(Seq<char>, X)>, k: Seq<char>, x: X)
    requires
        sorted_keys(s),
    ensures
        assoc_insert(assoc_remove(s, k), k, x) == assoc_insert(s, k, x),
    decreases s.len(),
{
    if s.len() > 0 {
        let t = s.drop_first();
        assert(sorted_keys(t)) by {
            assert forall|i: int, j: int| 0 <= i < j < t.len() implies chars_lt(
                #[trigger] t[i].0,
                #[trigger] t[j].0,
            ) by {
                assert(t[i] == s[i + 1] && t[j] == s[j + 1]);
            }
        }
        if s[0].0 == k {
            if t.len() > 0 {
                assert(chars_lt(s[0].0, t[0].0));
                lemma_chars_lt_irreflexive(k);
            }
        } else if chars_lt(k, s[0].0) {
            lemma_assoc_remove_absent(s, k);
        } else {
            lemma_assoc_insert_remove(t, k, x);
            let r = assoc_remove(s, k);
            assert(r == seq![s[0]] + assoc_remove(t, k));
            assert(r[0] == s[0]);
            assert(r.drop_first() =~= assoc_remove(t, k));
        }
    }
}

/// Removing a key below every key present changes nothing.
proof fn lemma_assoc_remove_absent<X>(s: Seq<(Seq<char>, X)>, k: Seq<char>)
    requires
        sorted_keys(s),
        s.len() > 0,
        chars_lt(k, s[0].0),
    ensures
        assoc_remove(s, k) == s,
    decreases s.len(),
{
    lemma_chars_lt_irreflexive(k);
    let t = s.drop_first();
    if t.len() > 0 {
        assert(sorted_keys(t)) by {
            assert forall|i: int, j: int| 0 <= i < j < t.len() implies chars_lt(
                #[trigger] t[i].0,
                #[trigger] t[j].0,
            ) by {
                assert(t[i] == s[i + 1] && t[j] == s[j + 1]);
            }
        }
        assert(chars_lt(s[0].0, t[0].0));
        lemma_chars_lt_transitive(k, s[0].0, t[0].0);
        lemma_assoc_remove_absent(t, k);
    }
    assert(s[0].0 != k);
    assert(assoc_remove(s, k) == seq![s[0]] + assoc_remove(t, k));
    assert(assoc_remove(t, k) == t);
    assert(seq![s[0]] + t =~= s);
}

/// A member of an object is smaller than the object.
pub proof fn lemma_member_decreases(j: JsonValue, i: int)
    requires
        j is Object,
        0 <= i < j->Object_0@.len(),
    ensures
        decreases_to!(j => j->Object_0.member(i)),
{
    let m = j->Object_0;
    assert(decreases_to!(j => m));
    assert(decreases_to!(m => m.entries));
    assert(decreases_to!(m.entries => m.entries@));
    assert(decreases_to!(m.entries@ => m.entries@[i]));
    assert(decreases_to!(m.entries@[i] => m.entries@[i].1));
}

/// An element of an array is smaller than the array.
pub proof fn lemma_item_decreases(j: JsonValue, i: int)
    requires
        j is Array,
        0 <= i < j->Array_0@.len(),
    ensures
        decreases_to!(j => j->Array_0@[i]),
{
    let a = j->Array_0;
    assert(decreases_to!(j => a));
    assert(decreases_to!(a => a@));
    assert(decreases_to!(a@ => a@[i]));
}

} // verus!
