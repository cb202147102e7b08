//! The Spring Cloud Config `Environment` payload and the precedence of its
//! property sources.
use vstd::prelude::*;
use crate::binding::{ScalarCoercion, keys_insertable, nested_of, nested_value_from_flat_map};
use crate::value::{
    JsonValue, JsonView, OrderedMap, assoc_get, assoc_insert, chars_lt, lemma_assoc_get_insert,
    lemma_chars_lt_irreflexive, sorted_keys,
};

verus! {

/// Spring Cloud Config `Environment` payload returned by `/{application}/{profile}`.
#[derive(Debug, PartialEq)]
pub struct Environment {
    /// Application name resolved by the Config Server.
    pub name: String,
    /// Active profiles returned by the Config Server.
    pub profiles: Vec<String>,
    /// Git label, branch, tag, or commit used by the Config Server.
    pub label: Option<String>,
    /// Backend version metadata, when available.
    pub version: Option<String>,
    /// Backend state metadata, when available.
    pub state: Option<String>,
    /// Ordered property sources. Earlier entries have higher precedence.
    pub property_sources: Vec<PropertySource>,
}

/// A single Spring property source within an [`Environment`].
#[derive(Debug, PartialEq)]
pub struct PropertySource {
    /// Property source name as reported by Spring Cloud Config.
    pub name: String,
    /// Flat key-value properties from the source.
    pub source: OrderedMap<JsonValue>,
}

/// The entries of each property source, in order.
pub open spec fn sources_view(sources: Seq<PropertySource>) -> Seq<Seq<(Seq<char>, JsonView)>> {
    sources.map_values(|p: PropertySource| p.source@)
}

/// `m` with the first `n` entries of `entries` inserted in order.
pub open spec fn insert_all(m: Seq<(Seq<char>, JsonView)>, entries: Seq<(Seq<char>, JsonView)>, n: nat) -> Seq<
    (Seq<char>, JsonView),
>
    decreases n,
{
    if n == 0 || n > entries.len() {
        m
    } else {
        assoc_insert(insert_all(m, entries, (n - 1) as nat), entries[n - 1].0, entries[n - 1].1)
    }
}

/// The merge of the sources from position `i` on: each source is laid over
/// the merge of the ones after it.
pub open spec fn merged_from(sources: Seq<Seq<(Seq<char>, JsonView)>>, i: int) -> Seq<
    (Seq<char>, JsonView),
>
    decreases sources.len() - i,
{
    if i < 0 || i >= sources.len() {
        Seq::empty()
    } else {
        insert_all(merged_from(sources, i + 1), sources[i], sources[i].len())
    }
}

/// The effective flat map of an environment's sources.
pub open spec fn effective_of(sources: Seq<Seq<(Seq<char>, JsonView)>>) -> Seq<(Seq<char>, JsonView)> {
    merged_from(sources, 0)
}

/// The value of `k` in the first source, from position `i` on, that has it.
pub open spec fn first_source_value(sources: Seq<Seq<(Seq<char>, JsonView)>>, k: Seq<char>, i: int) -> Option<
    JsonView,
>
    decreases sources.len() - i,
{
    if i < 0 || i >= sources.len() {
        None
    } else {
        match assoc_get(sources[i], k) {
            Some(v) => Some(v),
            None => first_source_value(sources, k, i + 1),
        }
    }
}

/// Looking a key up after inserting a key-ordered run of entries: the run's
/// value when the run has the key, the earlier one otherwise.
pub proof fn lemma_get_insert_all(
    m: Seq<(Seq<char>, JsonView)>,
    entries: Seq<(Seq<char>, JsonView)>,
    n: nat,
    k: Seq<char>,
)
    requires
        sorted_keys(entries),
        n <= entries.len(),
    ensures
        assoc_get(insert_all(m, entries, n), k) == match assoc_get(entries.take(n as int), k) {
            Some(v) => Some(v),
            None => assoc_get(m, k),
        },
    decreases n,
{
    if n == 0 {
        assert(entries.take(0).len() == 0);
    } else {
        lemma_get_insert_all(m, entries, (n - 1) as nat, k);
        let e = entries[n - 1];
        lemma_assoc_get_insert(insert_all(m, entries, (n - 1) as nat), e.0, e.1, k);
        lemma_get_push(entries.take(n - 1), e, k);
        assert(entries.take(n as int) =~= entries.take(n - 1).push(e));
        if k == e.0 {
            assert forall|j: int| 0 <= j < n - 1 implies #[trigger] entries.take(n - 1)[j].0 != k by {
                assert(chars_lt(entries[j].0, entries[n - 1].0));
                lemma_chars_lt_irreflexive(k);
            }
            lemma_get_absent(entries.take(n - 1), k);
        }
    }
}

/// Looking up in a sequence extended at the end.
proof fn lemma_get_push(s: Seq<(Seq<char>, JsonView)>, e: (Seq<char>, JsonView), k: Seq<char>)
    ensures
        assoc_get(s.push(e), k) == match assoc_get(s, k) {
            Some(v) => Some(v),
            None => if e.0 == k {
                Some(e.1)
            } else {
                None
            },
        },
    decreases s.len(),
{
    if s.len() == 0 {
        assert(s.push(e).drop_first().len() == 0);
        assert(assoc_get(s.push(e).drop_first(), k) is None);
    } else {
        lemma_get_push(s.drop_first(), e, k);
        assert(s.push(e).drop_first() =~= s.drop_first().push(e));
    }
}

/// A key that no entry has is not found.
proof fn lemma_get_absent(s: Seq<(Seq<char>, JsonView)>, k: Seq<char>)
    requires
        forall|j: int| 0 <= j < s.len() ==> #[trigger] s[j].0 != k,
    ensures
        assoc_get(s, k) is None,
    decreases s.len(),
{
    if s.len() > 0 {
        let t = s.drop_first();
        assert forall|j: int| 0 <= j < t.len() implies #[trigger] t[j].0 != k by {
            assert(t[j] == s[j + 1]);
        }
        lemma_get_absent(t, k);
    }
}

/// Source precedence: in the effective map a key has the value of the first
/// (highest-precedence) source that has it, and no value when none has it.
pub proof fn lemma_effective_precedence(sources: Seq<Seq<(Seq<char>, JsonView)>>, k: Seq<char>, i: int)
    requires
        0 <= i,
        forall|j: int| 0 <= j < sources.len() ==> sorted_keys(#[trigger] sources[j]),
    ensures
        assoc_get(merged_from(sources, i), k) == first_source_value(sources, k, i),
    decreases sources.len() - i,
{
    if i < sources.len() {
        lemma_effective_precedence(sources, k, i + 1);
        let s = sources[i];
        assert(sorted_keys(s));
        lemma_get_insert_all(merged_from(sources, i + 1), s, s.len(), k);
        assert(s.take(s.len() as int) =~= s);
    }
}

impl Clone for PropertySource {
    fn clone(&self) -> (r: Self)
        ensures
            r.name@ == self.name@,
            r.source@ == self.source@,
    {
        PropertySource { name: self.name.clone(), source: self.source.clone() }
    }
}

impl Clone for Environment {
    fn clone(&self) -> (r: Self)
        ensures
            r.name@ == self.name@,
            r.profiles@ == self.profiles@,
            r.label == self.label,
            r.version == self.version,
            r.state == self.state,
            r.sources() == self.sources(),
    {
        let mut property_sources: Vec<PropertySource> = Vec::new();
        for i in 0..self.property_sources.len()
            invariant
                property_sources@.len() == i,
                forall|j: int|
                    0 <= j < i ==> (#[trigger] property_sources@[j]).source@
                        == self.property_sources@[j].source@,
        {
            property_sources.push(self.property_sources[i].clone());
        }
        let r = Environment {
            name: self.name.clone(),
            profiles: self.profiles.clone(),
            label: self.label.clone(),
            version: self.version.clone(),
            state: self.state.clone(),
            property_sources,
        };
        assert(r.sources() =~= self.sources());
        r
    }
}

impl Environment {
    /// The entries of each property source.
    pub open spec fn sources(&self) -> Seq<Seq<(Seq<char>, JsonView)>> {
        sources_view(self.property_sources@)
    }

    /// Returns the effective flat property map after applying Spring
    /// property-source precedence: sources earlier in the list win.
    pub fn effective_properties(&self) -> (m: OrderedMap<JsonValue>)
        ensures
            m@ == effective_of(self.sources()),
            forall|k: Seq<char>| #[trigger]
                assoc_get(m@, k) == first_source_value(self.sources(), k, 0),
    {
        let ghost sources = self.sources();
        let mut merged: OrderedMap<JsonValue> = OrderedMap::new();
        let mut i = self.property_sources.len();
        while i > 0
            invariant
                sources == self.sources(),
                i <= sources.len(),
                sources.len() == self.property_sources@.len(),
                merged@ == merged_from(sources, i as int),
                forall|j: int| i <= j < sources.len() ==> sorted_keys(#[trigger] sources[j]),
            decreases i,
        {
            i -= 1;
            let source = &self.property_sources[i].source;
            source.lemma_sorted();
            assert(sources[i as int] == source@);
            let ghost base = merged@;
            assert(base == merged_from(sources, i + 1));
            let n = source.len();
            for j in 0..n
                invariant
                    n == source@.len(),
                    merged@ == insert_all(base, source@, j as nat),
            {
                let key = source.key_at(j).clone();
                let value = source.value_at(j).clone();
                merged.insert(key, value);
            }
        }
        proof {
            assert forall|k: Seq<char>| #[trigger]
                assoc_get(merged@, k) == first_source_value(sources, k, 0) by {
                lemma_effective_precedence(sources, k, 0);
            }
        }
        merged
    }

    /// Converts the effective flat property map into a nested value without
    /// scalar coercion.
    pub fn to_value(&self) -> (v: JsonValue)
        requires
            keys_insertable(effective_of(self.sources())),
        ensures
            v@ == nested_of(effective_of(self.sources()), ScalarCoercion::Preserve),
    {
        self.to_value_with_coercion(ScalarCoercion::Preserve)
    }

    /// Converts the effective flat property map into a nested value, its
    /// strings coerced as `coercion` says.
    pub fn to_value_with_coercion(&self, coercion: ScalarCoercion) -> (v: JsonValue)
        requires
            keys_insertable(effective_of(self.sources())),
        ensures
            v@ == nested_of(effective_of(self.sources()), coercion),
    {
        let flat = self.effective_properties();
        nested_value_from_flat_map(&flat, coercion)
    }
}

} // verus!
