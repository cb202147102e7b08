//! Validated requests for the Spring Cloud Config `Environment` and
//! plain-text resource endpoints.
use vstd::prelude::*;
use crate::error::ConfigError;
use crate::text::{
    char_pred, chars_of, is_trimmed_nonempty, lemma_strip_keeps_absent, lemma_trim_clean, space_pred, push_char, string_of_range,
    strip_char_bounds, trim, trim_char, trim_string,
};

verus! {

/// Output format for the Spring alternative-format environment endpoints.
#[derive(Debug, Clone, Copy, PartialEq, Eq)]
pub enum EnvironmentFormat {
    /// YAML output using the `.yml` suffix.
    Yml,
    /// YAML output using the `.yaml` suffix.
    Yaml,
    /// Java properties output using the `.properties` suffix.
    Properties,
}

/// The URL suffix of each format.
pub open spec fn format_suffix(f: EnvironmentFormat) -> Seq<char> {
    match f {
        EnvironmentFormat::Yml => ".yml"@,
        EnvironmentFormat::Yaml => ".yaml"@,
        EnvironmentFormat::Properties => ".properties"@,
    }
}

impl EnvironmentFormat {
    /// The URL suffix that selects this format.
    pub fn suffix(self) -> (s: &'static str)
        ensures
            s@ == format_suffix(self),
    {
        match self {
            EnvironmentFormat::Yml => ".yml",
            EnvironmentFormat::Yaml => ".yaml",
            EnvironmentFormat::Properties => ".properties",
        }
    }
}

/// The character views of a sequence of strings.
pub open spec fn strings_view(v: Seq<String>) -> Seq<Seq<char>> {
    v.map_values(|s: String| s@)
}

/// The character views of a sequence of string slices.
pub open spec fn strs_view(v: Seq<&str>) -> Seq<Seq<char>> {
    v.map_values(|s: &str| s@)
}

/// The profiles that are kept: each one trimmed, the empty ones dropped,
/// the order kept.
pub open spec fn kept_profiles(ps: Seq<Seq<char>>) -> Seq<Seq<char>>
    decreases ps.len(),
{
    if ps.len() == 0 {
        Seq::empty()
    } else {
        let rest = kept_profiles(ps.drop_last());
        if trim(ps.last()).len() > 0 {
            rest.push(trim(ps.last()))
        } else {
            rest
        }
    }
}

/// A label as stored: trimmed, and absent when nothing is left.
pub open spec fn label_value(label: Seq<char>) -> Option<Seq<char>> {
    if trim(label).len() == 0 {
        None
    } else {
        Some(trim(label))
    }
}

/// `s` with every backslash turned into a slash.
pub open spec fn slashes(s: Seq<char>) -> Seq<char> {
    s.map_values(|c: char| if c == '\\' { '/' } else { c })
}

/// The resource path as stored: backslashes made slashes, leading and
/// trailing slashes removed, then trimmed.
pub open spec fn resource_path_value(path: Seq<char>) -> Seq<char> {
    trim(trim_char(slashes(path), '/'))
}

/// Profiles joined by commas.
pub open spec fn join_commas(ps: Seq<Seq<char>>) -> Seq<char>
    decreases ps.len(),
{
    if ps.len() == 0 {
        Seq::empty()
    } else if ps.len() == 1 {
        ps[0]
    } else {
        join_commas(ps.drop_last()) + seq![','] + ps.last()
    }
}

/// The state after reading `n` characters of `s` while cutting it at
/// slashes: the finished non-empty segments and the current one.
pub open spec fn segment_state(s: Seq<char>, n: nat) -> (Seq<Seq<char>>, Seq<char>)
    decreases n,
{
    if n == 0 {
        (Seq::empty(), Seq::empty())
    } else {
        let (done, cur) = segment_state(s, (n - 1) as nat);
        if s[n - 1] == '/' {
            (if cur.len() > 0 {
                done.push(cur)
            } else {
                done
            }, Seq::empty())
        } else {
            (done, cur.push(s[n - 1]))
        }
    }
}

/// The non-empty pieces of `s` between slashes, in order.
pub open spec fn path_segments_of(s: Seq<char>) -> Seq<Seq<char>> {
    let (done, cur) = segment_state(s, s.len());
    if cur.len() > 0 {
        done.push(cur)
    } else {
        done
    }
}

/// What an `EnvironmentRequest` holds.
pub struct EnvironmentRequestView {
    pub application: Seq<char>,
    pub profiles: Seq<Seq<char>>,
    pub label: Option<Seq<char>>,
    pub resolve_placeholders: bool,
}

/// What a `ResourceRequest` holds.
pub struct ResourceRequestView {
    pub application: Seq<char>,
    pub profiles: Seq<Seq<char>>,
    pub label: Option<Seq<char>>,
    pub path: Seq<char>,
}

/// The view of an optional string.
pub open spec fn opt_view(o: Option<String>) -> Option<Seq<char>> {
    match o {
        Some(s) => Some(s@),
        None => None,
    }
}

/// The view of an optional string slice.
pub open spec fn opt_str_view(o: Option<&str>) -> Option<Seq<char>> {
    match o {
        Some(s) => Some(s@),
        None => None,
    }
}

/// Profiles as a request holds them: at least one, each trimmed and
/// non-empty.
pub open spec fn profiles_clean(ps: Seq<Seq<char>>) -> bool {
    ps.len() > 0 && forall|i: int| 0 <= i < ps.len() ==> is_trimmed_nonempty(#[trigger] ps[i])
}

/// A label as a request holds it: absent, or trimmed and non-empty.
pub open spec fn label_clean(l: Option<Seq<char>>) -> bool {
    l matches Some(x) ==> is_trimmed_nonempty(x)
}

/// Every kept profile is trimmed and non-empty.
proof fn lemma_kept_profiles_clean(ps: Seq<Seq<char>>)
    ensures
        forall|i: int|
            0 <= i < kept_profiles(ps).len() ==> is_trimmed_nonempty(#[trigger] kept_profiles(ps)[i]),
    decreases ps.len(),
{
    if ps.len() > 0 {
        let rest = kept_profiles(ps.drop_last());
        lemma_kept_profiles_clean(ps.drop_last());
        lemma_trim_clean(ps.last());
        assert forall|i: int| 0 <= i < kept_profiles(ps).len() implies is_trimmed_nonempty(
            #[trigger] kept_profiles(ps)[i],
        ) by {
            if i < rest.len() {
                assert(kept_profiles(ps)[i] == rest[i]);
            }
        }
    }
}

/// A stored label is clean.
proof fn lemma_label_clean(label: Seq<char>)
    ensures
        label_clean(label_value(label)),
{
    lemma_trim_clean(label);
}

/// A stored resource path holds no backslash.
proof fn lemma_path_has_no_backslash(path: Seq<char>)
    ensures
        !resource_path_value(path).contains('\\'),
{
    let s = slashes(path);
    if s.contains('\\') {
        let i = choose|i: int| 0 <= i < s.len() && s[i] == '\\';
        assert(s[i] == (if path[i] == '\\' { '/' } else { path[i] }));
    }
    lemma_strip_keeps_absent(s, char_pred('/'), '\\');
    lemma_strip_keeps_absent(trim_char(s, '/'), space_pred(), '\\');
}

/// The kept profiles are exactly the trimmed profiles that are not empty,
/// in their order: trimming each one and dropping the empty ones, with no
/// bound on how many are kept.
pub proof fn lemma_kept_profiles_filter(ps: Seq<Seq<char>>)
    ensures
        kept_profiles(ps) == ps.map_values(|p: Seq<char>| trim(p)).filter(
            |p: Seq<char>| p.len() > 0,
        ),
    decreases ps.len(),
{
    let f = |p: Seq<char>| trim(p);
    let keep = |p: Seq<char>| p.len() > 0;
    reveal(Seq::filter);
    if ps.len() == 0 {
        assert(ps.map_values(f) =~= Seq::<Seq<char>>::empty());
    } else {
        lemma_kept_profiles_filter(ps.drop_last());
        let m = ps.map_values(f);
        assert(m.drop_last() =~= ps.drop_last().map_values(f));
        assert(m.last() == trim(ps.last()));
        assert(m.len() > 0);
        assert(m.filter(keep) == if keep(m.last()) {
            m.drop_last().filter(keep).push(m.last())
        } else {
            m.drop_last().filter(keep)
        });
    }
}

/// Trims a required value, failing with `error` when nothing is left.
pub fn sanitize_required(value: &str, error: ConfigError) -> (r: Result<String, ConfigError>)
    ensures
        trim(value@).len() == 0 ==> r == Err::<String, ConfigError>(error),
        trim(value@).len() > 0 ==> (r matches Ok(s) && s@ == trim(value@)),
{
    let value = trim_string(value);
    if value.as_str().is_empty() {
        Err(error)
    } else {
        Ok(value)
    }
}

/// Trims each profile and drops the empty ones; fails when none is left.
pub fn sanitize_profiles(profiles: &[&str]) -> (r: Result<Vec<String>, ConfigError>)
    ensures
        kept_profiles(strs_view(profiles@)).len() == 0 ==> r matches Err(ConfigError::EmptyProfiles),
        kept_profiles(strs_view(profiles@)).len() > 0 ==> (r matches Ok(v) && strings_view(v@)
            == kept_profiles(strs_view(profiles@))),
{
    let mut out: Vec<String> = Vec::new();
    let ghost ps = strs_view(profiles@);
    for i in 0..profiles.len()
        invariant
            ps == strs_view(profiles@),
            strings_view(out@) == kept_profiles(ps.take(i as int)),
    {
        let t = trim_string(profiles[i]);
        proof {
            assert(ps.take(i + 1).drop_last() =~= ps.take(i as int));
            assert(ps.take(i + 1).last() == profiles@[i as int]@);
        }
        if !t.as_str().is_empty() {
            out.push(t);
            proof {
                assert(strings_view(out@) =~= kept_profiles(ps.take(i as int)).push(t@));
            }
        }
    }
    proof {
        assert(ps.take(profiles@.len() as int) =~= ps);
    }
    if out.len() == 0 {
        Err(ConfigError::EmptyProfiles)
    } else {
        Ok(out)
    }
}

/// Turns backslashes into slashes and strips leading and trailing slashes.
pub fn normalize_resource_path(path: &str) -> (r: String)
    ensures
        r@ == trim_char(slashes(path@), '/'),
{
    let cs = chars_of(path);
    let mut v: Vec<char> = Vec::new();
    for i in 0..cs.len()
        invariant
            cs@ == path@,
            v@ =~= slashes(cs@.take(i as int)),
    {
        if cs[i] == '\\' {
            v.push('/');
        } else {
            v.push(cs[i]);
        }
        assert(cs@.take(i + 1) =~= cs@.take(i as int).push(cs@[i as int]));
    }
    assert(cs@.take(cs@.len() as int) =~= cs@);
    assert(v@.subrange(0, v@.len() as int) =~= v@);
    let (a, b) = strip_char_bounds(v.as_slice(), 0, v.len(), '/');
    string_of_range(v.as_slice(), a, b)
}

/// Joins the strings with commas.
pub fn join_with_commas(items: &[String]) -> (r: String)
    ensures
        r@ == join_commas(strings_view(items@)),
{
    let mut r = String::new();
    let ghost ps = strings_view(items@);
    for i in 0..items.len()
        invariant
            ps == strings_view(items@),
            r@ == join_commas(ps.take(i as int)),
    {
        proof {
            assert(ps.take(i + 1).drop_last() =~= ps.take(i as int));
            assert(ps.take(i + 1).last() == items@[i as int]@);
        }
        if i > 0 {
            push_char(&mut r, ',');
            r.append(items[i].as_str());
        } else {
            r.append(items[i].as_str());
            proof {
                assert(ps.take(0).len() == 0);
                assert(r@ =~= ps.take(1)[0]);
            }
        }
    }
    proof {
        assert(ps.take(items@.len() as int) =~= ps);
    }
    r
}

/// The non-empty pieces between slashes.
pub fn split_path_segments(s: &str) -> (r: Vec<String>)
    ensures
        strings_view(r@) == path_segments_of(s@),
{
    let cs = chars_of(s);
    let mut done: Vec<String> = Vec::new();
    let mut start: usize = 0;
    for i in 0..cs.len()
        invariant
            cs@ == s@,
            start <= i,
            segment_state(cs@, i as nat) == (strings_view(done@), cs@.subrange(start as int, i as int)),
            forall|j: int| start <= j < i ==> #[trigger] cs@[j] != '/',
    {
        let ghost prev = segment_state(cs@, i as nat);
        if cs[i] == '/' {
            if start < i {
                let seg = string_of_range(cs.as_slice(), start, i);
                done.push(seg);
                proof {
                    assert(strings_view(done@) =~= prev.0.push(prev.1));
                }
            } else {
                proof {
                    assert(prev.1.len() == 0);
                }
            }
            start = i + 1;
            proof {
                assert(cs@.subrange(start as int, i + 1) =~= Seq::<char>::empty());
            }
        } else {
            proof {
                assert(cs@.subrange(start as int, i + 1) =~= cs@.subrange(start as int, i as int).push(
                    cs@[i as int],
                ));
            }
        }
    }
    if start < cs.len() {
        let seg = string_of_range(cs.as_slice(), start, cs.len());
        done.push(seg);
        proof {
            assert(strings_view(done@) =~= segment_state(cs@, cs@.len()).0.push(
                segment_state(cs@, cs@.len()).1,
            ));
        }
    }
    done
}

/// A request for the Spring `Environment` endpoint.
#[derive(Debug, PartialEq, Eq)]
pub struct EnvironmentRequest {
    application: String,
    profiles: Vec<String>,
    label: Option<String>,
    resolve_placeholders: bool,
}

impl View for EnvironmentRequest {
    type V = EnvironmentRequestView;

    closed spec fn view(&self) -> EnvironmentRequestView {
        EnvironmentRequestView {
            application: self.application@,
            profiles: strings_view(self.profiles@),
            label: opt_view(self.label),
            resolve_placeholders: self.resolve_placeholders,
        }
    }
}

impl Clone for EnvironmentRequest {
    fn clone(&self) -> (r: Self)
        ensures
            r@ == self@,
    {
        proof {
            use_type_invariant(self);
        }
        EnvironmentRequest {
            application: self.application.clone(),
            profiles: self.profiles.clone(),
            label: self.label.clone(),
            resolve_placeholders: self.resolve_placeholders,
        }
    }
}

impl EnvironmentRequest {
    /// The application name is trimmed and non-empty, there is at least one
    /// profile, each trimmed and non-empty, and a label is trimmed and
    /// non-empty when present.
    #[verifier::type_invariant]
    closed spec fn wf(self) -> bool {
        &&& is_trimmed_nonempty(self.application@)
        &&& profiles_clean(strings_view(self.profiles@))
        &&& label_clean(opt_view(self.label))
    }

    /// Creates a new environment request: the application name and the
    /// profiles are trimmed, empty profiles dropped.
    pub fn new(application: &str, profiles: &[&str]) -> (r: Result<Self, ConfigError>)
        ensures
            trim(application@).len() == 0 ==> r matches Err(ConfigError::EmptyApplication),
            trim(application@).len() > 0 && kept_profiles(strs_view(profiles@)).len() == 0 ==> r matches Err(
                ConfigError::EmptyProfiles,
            ),
            trim(application@).len() > 0 && kept_profiles(strs_view(profiles@)).len() > 0 ==> (r matches Ok(
                req,
            ) && req@ == EnvironmentRequestView {
                application: trim(application@),
                profiles: kept_profiles(strs_view(profiles@)),
                label: None,
                resolve_placeholders: false,
            }),
    {
        proof {
            lemma_trim_clean(application@);
            lemma_kept_profiles_clean(strs_view(profiles@));
        }
        let application = match sanitize_required(application, ConfigError::EmptyApplication) {
            Ok(a) => a,
            Err(e) => return Err(e),
        };
        let profiles = match sanitize_profiles(profiles) {
            Ok(p) => p,
            Err(e) => return Err(e),
        };
        Ok(EnvironmentRequest { application, profiles, label: None, resolve_placeholders: false })
    }

    /// Overrides the git label, branch, tag, or commit for this request; a
    /// blank label clears it.
    pub fn label(self, label: &str) -> (r: Self)
        ensures
            r@ == (EnvironmentRequestView { label: label_value(label@), ..self@ }),
    {
        proof {
            lemma_label_clean(label@);
        }
        let t = trim_string(label);
        let label = if t.as_str().is_empty() {
            None
        } else {
            Some(t)
        };
        proof {
            use_type_invariant(&self);
        }
        EnvironmentRequest { label, ..self }
    }

    /// Controls the `resolvePlaceholders` query parameter used by YAML and
    /// properties endpoints.
    pub fn resolve_placeholders(self, enabled: bool) -> (r: Self)
        ensures
            r@ == (EnvironmentRequestView { resolve_placeholders: enabled, ..self@ }),
    {
        proof {
            use_type_invariant(&self);
        }
        EnvironmentRequest { resolve_placeholders: enabled, ..self }
    }

    /// Returns the application name.
    pub fn application(&self) -> (s: &str)
        ensures
            s@ == self@.application,
            is_trimmed_nonempty(s@),
    {
        proof {
            use_type_invariant(self);
        }
        self.application.as_str()
    }

    /// Returns the active profiles in request order.
    pub fn profiles(&self) -> (p: &[String])
        ensures
            strings_view(p@) == self@.profiles,
            profiles_clean(strings_view(p@)),
    {
        proof {
            use_type_invariant(self);
        }
        self.profiles.as_slice()
    }

    /// Returns the explicit label, when set.
    pub fn label_ref(&self) -> (l: Option<&str>)
        ensures
            opt_str_view(l) == self@.label,
            label_clean(opt_str_view(l)),
    {
        proof {
            use_type_invariant(self);
        }
        match &self.label {
            Some(l) => Some(l.as_str()),
            None => None,
        }
    }

    /// Returns whether placeholder resolution should be requested for
    /// alternative formats.
    pub fn resolve_placeholders_enabled(&self) -> (b: bool)
        ensures
            b == self@.resolve_placeholders,
    {
        self.resolve_placeholders
    }

    /// The profiles joined by commas, as they go into the request URL.
    pub fn joined_profiles(&self) -> (s: String)
        ensures
            s@ == join_commas(self@.profiles),
    {
        join_with_commas(self.profiles.as_slice())
    }
}

/// A request for the plain-text Spring resource endpoint.
#[derive(Debug, PartialEq, Eq)]
pub struct ResourceRequest {
    application: String,
    profiles: Vec<String>,
    label: Option<String>,
    path: String,
}

impl View for ResourceRequest {
    type V = ResourceRequestView;

    closed spec fn view(&self) -> ResourceRequestView {
        ResourceRequestView {
            application: self.application@,
            profiles: strings_view(self.profiles@),
            label: opt_view(self.label),
            path: self.path@,
        }
    }
}

impl Clone for ResourceRequest {
    fn clone(&self) -> (r: Self)
        ensures
            r@ == self@,
    {
        proof {
            use_type_invariant(self);
        }
        ResourceRequest {
            application: self.application.clone(),
            profiles: self.profiles.clone(),
            label: self.label.clone(),
            path: self.path.clone(),
        }
    }
}

impl ResourceRequest {
    /// As for an environment request, and the path is trimmed and non-empty.
    #[verifier::type_invariant]
    closed spec fn wf(self) -> bool {
        &&& is_trimmed_nonempty(self.application@)
        &&& profiles_clean(strings_view(self.profiles@))
        &&& label_clean(opt_view(self.label))
        &&& is_trimmed_nonempty(self.path@)
        &&& !self.path@.contains('\\')
    }

    /// Creates a new resource request: the application name, the profiles
    /// and the normalized path are trimmed, empty profiles dropped.
    pub fn new(application: &str, profiles: &[&str], path: &str) -> (r: Result<Self, ConfigError>)
        ensures
            trim(application@).len() == 0 ==> r matches Err(ConfigError::EmptyApplication),
            trim(application@).len() > 0 && kept_profiles(strs_view(profiles@)).len() == 0 ==> r matches Err(
                ConfigError::EmptyProfiles,
            ),
            trim(application@).len() > 0 && kept_profiles(strs_view(profiles@)).len() > 0
                && resource_path_value(path@).len() == 0 ==> r matches Err(
                ConfigError::EmptyResourcePath,
            ),
            trim(application@).len() > 0 && kept_profiles(strs_view(profiles@)).len() > 0
                && resource_path_value(path@).len() > 0 ==> (r matches Ok(req) && req@
                == ResourceRequestView {
                application: trim(application@),
                profiles: kept_profiles(strs_view(profiles@)),
                label: None,
                path: resource_path_value(path@),
            }),
    {
        proof {
            lemma_trim_clean(application@);
            lemma_kept_profiles_clean(strs_view(profiles@));
        }
        let application = match sanitize_required(application, ConfigError::EmptyApplication) {
            Ok(a) => a,
            Err(e) => return Err(e),
        };
        let profiles = match sanitize_profiles(profiles) {
            Ok(p) => p,
            Err(e) => return Err(e),
        };
        let ghost raw_path = path@;
        let normalized = normalize_resource_path(path);
        let path = match sanitize_required(normalized.as_str(), ConfigError::EmptyResourcePath) {
            Ok(p) => p,
            Err(e) => return Err(e),
        };
        proof {
            lemma_trim_clean(normalized@);
            lemma_path_has_no_backslash(raw_path);
        }
        Ok(ResourceRequest { application, profiles, label: None, path })
    }

    /// Overrides the git label, branch, tag, or commit for this request; a
    /// blank label clears it.
    pub fn label(self, label: &str) -> (r: Self)
        ensures
            r@ == (ResourceRequestView { label: label_value(label@), ..self@ }),
    {
        proof {
            lemma_label_clean(label@);
        }
        let t = trim_string(label);
        let label = if t.as_str().is_empty() {
            None
        } else {
            Some(t)
        };
        proof {
            use_type_invariant(&self);
        }
        ResourceRequest { label, ..self }
    }

    /// Returns the application name.
    pub fn application(&self) -> (s: &str)
        ensures
            s@ == self@.application,
            is_trimmed_nonempty(s@),
    {
        proof {
            use_type_invariant(self);
        }
        self.application.as_str()
    }

    /// Returns the active profiles in request order.
    pub fn profiles(&self) -> (p: &[String])
        ensures
            strings_view(p@) == self@.profiles,
            profiles_clean(strings_view(p@)),
    {
        proof {
            use_type_invariant(self);
        }
        self.profiles.as_slice()
    }

    /// Returns the explicit label, when set.
    pub fn label_ref(&self) -> (l: Option<&str>)
        ensures
            opt_str_view(l) == self@.label,
            label_clean(opt_str_view(l)),
    {
        proof {
            use_type_invariant(self);
        }
        match &self.label {
            Some(l) => Some(l.as_str()),
            None => None,
        }
    }

    /// Returns the resource path.
    pub fn path(&self) -> (s: &str)
        ensures
            s@ == self@.path,
            is_trimmed_nonempty(s@),
            !s@.contains('\\'),
    {
        proof {
            use_type_invariant(self);
        }
        self.path.as_str()
    }

    /// The profiles joined by commas, as they go into the request URL.
    pub fn joined_profiles(&self) -> (s: String)
        ensures
            s@ == join_commas(self@.profiles),
    {
        join_with_commas(self.profiles.as_slice())
    }

    /// The non-empty pieces of the path between slashes.
    pub fn path_segments(&self) -> (v: Vec<String>)
        ensures
            strings_view(v@) == path_segments_of(self@.path),
    {
        split_path_segments(self.path.as_str())
    }
}

} // verus!
