use vstd::prelude::*;

use crate::config::{pairs_view, params_view, UrlParts};
use crate::text::{push_char, split_char, split_string, splitn2, splitn2_str, strings_view};

verus! {

/// A base URL held as plain parts: everything before the path, and the
/// path segments. Composition below is textual; segments and parameters
/// are written as given, so a configuration that needs percent-encoding
/// must carry its parts already encoded.
pub struct BaseUrl {
    pub prefix: String,
    pub segments: Vec<String>,
}

impl BaseUrl {
    pub open spec fn bv(&self) -> (Seq<char>, Seq<Seq<char>>) {
        (self.prefix@, strings_view(self.segments@))
    }
}

/// What parsing a base URL yields: the text before the path, without a
/// trailing slash, and the path segments — or nothing when the text is
/// not an absolute URL that can serve as a base, or carries a query or
/// fragment. The outcome depends on the text alone.
pub uninterp spec fn base_parts(s: Seq<char>) -> Option<(Seq<char>, Seq<Seq<char>>)>;

/// Relies on `url::Url::parse`: parses and normalizes an absolute URL,
/// refusing one that cannot be a base; the scheme and authority are
/// handed back serialized, and the path split at every slash.
#[verifier::external_body]
pub fn parse_base_url(s: &str) -> (r: Option<BaseUrl>)
    ensures
        r is Some <==> base_parts(s@) is Some,
        r matches Some(b) ==> base_parts(s@) matches Some(p) && b.prefix@ == p.0 && strings_view(
            b.segments@,
        ) == p.1,
{
    let mut u = url::Url::parse(s).ok()?;
    if u.cannot_be_a_base() || u.query().is_some() || u.fragment().is_some() {
        return None;
    }
    let segments: Vec<String> = u.path_segments()?.map(|x| x.to_string()).collect();
    u.set_path("");
    let mut prefix = u.to_string();
    if prefix.ends_with('/') {
        prefix.pop();
    }
    Some(BaseUrl { prefix, segments })
}

/// Position of the first entry under a key in an association list.
pub open spec fn assoc_ix<T>(ps: Seq<(Seq<char>, T)>, k: Seq<char>) -> Option<nat>
    decreases ps.len(),
{
    if ps.len() == 0 {
        None
    } else if ps[0].0 == k {
        Some(0)
    } else {
        match assoc_ix(ps.drop_first(), k) {
            Some(i) => Some(1 + i),
            None => None,
        }
    }
}

pub proof fn lemma_assoc_ix_at<T>(ps: Seq<(Seq<char>, T)>, k: Seq<char>, i: int)
    requires
        0 <= i <= ps.len(),
        forall|j: int| 0 <= j < i ==> ps[j].0 != k,
    ensures
        i == ps.len() ==> assoc_ix(ps, k) is None,
        i < ps.len() && ps[i].0 == k ==> assoc_ix(ps, k) == Some(i as nat),
    decreases i,
{
    if i > 0 {
        assert(forall|j: int| 0 <= j < i - 1 ==> ps.drop_first()[j].0 != k);
        lemma_assoc_ix_at(ps.drop_first(), k, i - 1);
    }
}

/// Sets a query parameter: replaces the entry under the key in place, or
/// appends a new one.
pub open spec fn upsert(
    ps: Seq<(Seq<char>, Seq<char>)>,
    k: Seq<char>,
    v: Seq<char>,
) -> Seq<(Seq<char>, Seq<char>)> {
    match assoc_ix(ps, k) {
        Some(i) => ps.update(i as int, (k, v)),
        None => ps.push((k, v)),
    }
}

/// The texts of a list that are not empty, in order.
pub open spec fn nonempty_texts(ss: Seq<Seq<char>>) -> Seq<Seq<char>>
    decreases ss.len(),
{
    if ss.len() == 0 {
        Seq::empty()
    } else if ss.last().len() > 0 {
        nonempty_texts(ss.drop_last()).push(ss.last())
    } else {
        nonempty_texts(ss.drop_last())
    }
}

/// `/`-prefixed concatenation of path segments.
pub open spec fn slash_join(ss: Seq<Seq<char>>) -> Seq<char>
    decreases ss.len(),
{
    if ss.len() == 0 {
        Seq::empty()
    } else {
        slash_join(ss.drop_last()) + seq!['/'] + ss.last()
    }
}

/// The path text of a composed URL: `/` alone for no segments.
pub open spec fn path_text(ss: Seq<Seq<char>>) -> Seq<char> {
    if ss.len() == 0 {
        seq!['/']
    } else {
        slash_join(ss)
    }
}

/// The query text of a composed URL: `k=v` pairs joined with `&`.
pub open spec fn params_text(ps: Seq<(Seq<char>, Seq<char>)>) -> Seq<char>
    decreases ps.len(),
{
    if ps.len() == 0 {
        Seq::empty()
    } else if ps.len() == 1 {
        ps[0].0 + seq!['='] + ps[0].1
    } else {
        params_text(ps.drop_last()) + seq!['&'] + ps.last().0 + seq!['='] + ps.last().1
    }
}

/// Why an endpoint URL shorthand is refused.
#[derive(Clone, Copy, PartialEq, Eq, Structural, Debug)]
pub enum UrlError {
    UnknownPathName,
    UnknownParamName,
    PathRequired,
}

/// An endpoint URL shorthand, parsed: an optional path name before `?`,
/// and the parameter names after it, `&`-separated, empty names dropped.
#[derive(Debug, PartialEq, Eq)]
pub struct PathDsl {
    pub name: Option<String>,
    pub params: Option<Vec<String>>,
}

impl PathDsl {
    pub open spec fn dv(&self) -> (Option<Seq<char>>, Option<Seq<Seq<char>>>) {
        (
            match self.name {
                Some(ref n) => Some(n@),
                None => None,
            },
            match self.params {
                Some(ref ps) => Some(strings_view(ps@)),
                None => None,
            },
        )
    }
}

/// What parsing the shorthand yields.
pub open spec fn spec_path_dsl(s: Seq<char>) -> (Option<Seq<char>>, Option<Seq<Seq<char>>>) {
    let (name_part, rest) = splitn2(s, '?');
    let name = if name_part.len() == 0 {
        None
    } else {
        Some(name_part)
    };
    match rest {
        None => (name, None),
        Some(params_dsl) => (
            name,
            Some(
                if params_dsl.len() == 0 {
                    Seq::empty()
                } else {
                    nonempty_texts(split_char(params_dsl, '&'))
                },
            ),
        ),
    }
}

impl PathDsl {
    /// Parses an endpoint URL shorthand.
    pub fn parse(path_dsl: &str) -> (r: PathDsl)
        ensures
            r.dv() == spec_path_dsl(path_dsl@),
    {
        let (name_part, rest) = splitn2_str(path_dsl, '?');
        let name = if name_part.unicode_len() == 0 {
            None
        } else {
            Some(name_part)
        };
        match rest {
            None => {
                let r = PathDsl { name, params: None };
                proof {
                    assert(r.dv() =~~= spec_path_dsl(path_dsl@));
                }
                r
            },
            Some(params_dsl) => {
                if params_dsl.unicode_len() == 0 {
                    let r = PathDsl { name, params: Some(Vec::new()) };
                    proof {
                        assert(strings_view(Seq::<String>::empty()) =~= Seq::<Seq<char>>::empty());
                        assert(r.dv() =~~= spec_path_dsl(path_dsl@));
                    }
                    r
                } else {
                    let pieces = split_string(params_dsl.as_str(), '&');
                    let mut kept: Vec<String> = Vec::new();
                    let mut i: usize = 0;
                    let ghost all = strings_view(pieces@);
                    while i < pieces.len()
                        invariant
                            i <= pieces@.len(),
                            all == strings_view(pieces@),
                            strings_view(kept@) == nonempty_texts(all.take(i as int)),
                        decreases pieces@.len() - i,
                    {
                        let ghost prev = strings_view(kept@);
                        proof {
                            assert(all.take(i + 1 as int).drop_last() =~= all.take(i as int));
                            assert(all.take(i + 1 as int).last() == pieces@[i as int]@);
                        }
                        if pieces[i].unicode_len() > 0 {
                            let piece = String::from_str(pieces[i].as_str());
                            kept.push(piece);
                            proof {
                                assert(strings_view(kept@) =~= prev.push(pieces@[i as int]@));
                            }
                        }
                        i = i + 1;
                    }
                    proof {
                        assert(all.take(pieces@.len() as int) =~= all);
                    }
                    let r = PathDsl { name, params: Some(kept) };
                    proof {
                        assert(r.dv() =~~= spec_path_dsl(path_dsl@));
                    }
                    r
                }
            },
        }
    }
}

/// The path and query changes that an endpoint's URL settings make to the
/// base URL.
pub struct UrlPatch {
    pub path_segments: Vec<String>,
    pub query_params: Vec<(String, String)>,
}

impl UrlPatch {
    pub open spec fn pv(&self) -> (Seq<Seq<char>>, Seq<(Seq<char>, Seq<char>)>) {
        (strings_view(self.path_segments@), pairs_view(self.query_params@))
    }
}

impl Default for UrlPatch {
    /// An empty patch: no segments, no parameters.
    fn default() -> (r: UrlPatch)
        ensures
            r.pv().0 == Seq::<Seq<char>>::empty(),
            r.pv().1 == Seq::<(Seq<char>, Seq<char>)>::empty(),
    {
        let r = UrlPatch { path_segments: Vec::new(), query_params: Vec::new() };
        proof {
            assert(r.pv().0 =~= Seq::<Seq<char>>::empty());
            assert(r.pv().1 =~= Seq::<(Seq<char>, Seq<char>)>::empty());
        }
        r
    }
}

/// One `k[=v]` piece of a literal query applied to the parameters.
pub open spec fn apply_query_piece(
    ps: Seq<(Seq<char>, Seq<char>)>,
    piece: Seq<char>,
) -> Seq<(Seq<char>, Seq<char>)> {
    let (k, v) = splitn2(piece, '=');
    upsert(
        ps,
        k,
        match v {
            Some(t) => t,
            None => Seq::empty(),
        },
    )
}

/// A whole literal query applied to the parameters, piece by piece.
pub open spec fn apply_query(
    ps: Seq<(Seq<char>, Seq<char>)>,
    pieces: Seq<Seq<char>>,
) -> Seq<(Seq<char>, Seq<char>)>
    decreases pieces.len(),
{
    if pieces.len() == 0 {
        ps
    } else {
        apply_query(apply_query_piece(ps, pieces[0]), pieces.drop_first())
    }
}

/// What a literal `path[?query]` does to a patch: the path, split at every
/// slash, replaces the segments, and each `k[=v]` of the query sets a
/// parameter.
pub open spec fn spec_add_path_with_query(
    patch: (Seq<Seq<char>>, Seq<(Seq<char>, Seq<char>)>),
    s: Seq<char>,
) -> (Seq<Seq<char>>, Seq<(Seq<char>, Seq<char>)>) {
    let (path, q) = splitn2(s, '?');
    (
        split_char(path, '/'),
        match q {
            None => patch.1,
            Some(query) => apply_query(patch.1, split_char(query, '&')),
        },
    )
}

impl UrlPatch {
    /// Applies a literal `path[?query]` to the patch.
    #[verifier::loop_isolation(false)]
    pub fn add_path_with_query(&mut self, path_with_query: &str)
        ensures
            final(self).pv() == spec_add_path_with_query(old(self).pv(), path_with_query@),
    {
        let (path, q) = splitn2_str(path_with_query, '?');
        self.path_segments = split_string(path.as_str(), '/');
        let ghost segs1 = strings_view(self.path_segments@);
        match q {
            None => {
                proof {
                    assert(final(self).pv() =~~= spec_add_path_with_query(
                        old(self).pv(),
                        path_with_query@,
                    ));
                }
            },
            Some(query) => {
                let pieces = split_string(query.as_str(), '&');
                let ghost all = strings_view(pieces@);
                let ghost params0 = pairs_view(self.query_params@);
                let mut i: usize = 0;
                proof {
                    assert(all.skip(0) =~= all);
                }
                while i < pieces.len()
                    invariant
                        i <= pieces@.len(),
                        strings_view(self.path_segments@) == segs1,
                        apply_query(pairs_view(self.query_params@), all.skip(i as int))
                            == apply_query(params0, all),
                    decreases pieces@.len() - i,
                {
                    proof {
                        assert(all.skip(i as int)[0] == pieces@[i as int]@);
                        assert(all.skip(i as int).drop_first() =~= all.skip(i as int + 1));
                    }
                    let (k, v) = splitn2_str(pieces[i].as_str(), '=');
                    let vtext = match v {
                        Some(t) => t,
                        None => String::new(),
                    };
                    self.set_param(k, vtext);
                    i = i + 1;
                }
                proof {
                    assert(all.skip(pieces@.len() as int) =~= Seq::<Seq<char>>::empty());
                    assert(final(self).pv() =~~= spec_add_path_with_query(
                        old(self).pv(),
                        path_with_query@,
                    ));
                }
            },
        }
    }

    /// Sets one query parameter: replaces the entry under the key, or
    /// appends a new one.
    #[verifier::loop_isolation(false)]
    fn set_param(&mut self, k: String, v: String)
        ensures
            final(self).path_segments@ == old(self).path_segments@,
            pairs_view(final(self).query_params@) == upsert(
                pairs_view(old(self).query_params@),
                k@,
                v@,
            ),
    {
        let ghost ps = pairs_view(self.query_params@);
        let n = self.query_params.len();
        let mut i: usize = 0;
        while i < n
            invariant
                i <= n,
                self.query_params@ == old(self).query_params@,
                self.path_segments@ == old(self).path_segments@,
                forall|j: int| 0 <= j < i ==> ps[j].0 != k@,
            decreases n - i,
        {
            if crate::text::str_eq(self.query_params[i].0.as_str(), k.as_str()) {
                proof {
                    assert(ps[i as int].0 == k@);
                    lemma_assoc_ix_at(ps, k@, i as int);
                }
                let mut rebuilt: Vec<(String, String)> = Vec::new();
                let mut j: usize = 0;
                while j < n
                    invariant
                        i < n,
                        j <= n,
                        rebuilt@.len() == j,
                        self.query_params@ == old(self).query_params@,
                        self.path_segments@ == old(self).path_segments@,
                        forall|m: int| 0 <= m < j && m != i ==> (#[trigger] rebuilt@[m].0@,
                            rebuilt@[m].1@) == ps[m],
                        i < j ==> (rebuilt@[i as int].0@, rebuilt@[i as int].1@) == (k@, v@),
                    decreases n - j,
                {
                    if j == i {
                        rebuilt.push((k.clone(), v.clone()));
                    } else {
                        let name = self.query_params[j].0.clone();
                        let value = self.query_params[j].1.clone();
                        rebuilt.push((name, value));
                    }
                    j = j + 1;
                }
                self.query_params = rebuilt;
                proof {
                    assert(pairs_view(self.query_params@) =~= ps.update(i as int, (k@, v@)));
                }
                return;
            }
            i = i + 1;
        }
        proof {
            lemma_assoc_ix_at(ps, k@, n as int);
        }
        self.query_params.push((k, v));
        proof {
            assert(pairs_view(self.query_params@) =~= ps.push((k@, v@)));
        }
    }
}


/// One parameter name resolved after another against the endpoint's named
/// parameters, each setting its entry, starting from no parameters.
pub open spec fn resolve_params_from(
    acc: Seq<(Seq<char>, Seq<char>)>,
    pparams: Seq<(Seq<char>, (Seq<char>, Option<Seq<char>>))>,
    keys: Seq<Seq<char>>,
) -> Result<Seq<(Seq<char>, Seq<char>)>, UrlError>
    decreases keys.len(),
{
    if keys.len() == 0 {
        Ok(acc)
    } else {
        match assoc_ix(pparams, keys[0]) {
            None => Err(UrlError::UnknownParamName),
            Some(i) => resolve_params_from(
                upsert(
                    acc,
                    pparams[i as int].1.0,
                    match pparams[i as int].1.1 {
                        Some(v) => v,
                        None => Seq::empty(),
                    },
                ),
                pparams,
                keys.drop_first(),
            ),
        }
    }
}

/// What an endpoint URL setting does to a patch: a text that starts with
/// `/` is a literal path and query; anything else is a shorthand whose
/// path name must resolve against the endpoint's named paths and whose
/// parameter names must resolve against its named parameters. Parameter
/// names given replace all parameters of the patch; a shorthand without
/// a path name keeps the patch's segments, or is refused where a path is
/// mandatory.
pub open spec fn spec_add_endpoint_url(
    patch: (Seq<Seq<char>>, Seq<(Seq<char>, Seq<char>)>),
    s: Seq<char>,
    paths: Seq<(Seq<char>, Seq<char>)>,
    pparams: Seq<(Seq<char>, (Seq<char>, Option<Seq<char>>))>,
    mandatory: bool,
) -> Result<(Seq<Seq<char>>, Seq<(Seq<char>, Seq<char>)>), UrlError> {
    if s.len() > 0 && s[0] == '/' {
        Ok(spec_add_path_with_query(patch, s.drop_first()))
    } else {
        let (name, params) = spec_path_dsl(s);
        let segs1 = match name {
            Some(key) => match assoc_ix(paths, key) {
                Some(i) => Ok(split_char(paths[i as int].1, '/')),
                None => Err(UrlError::UnknownPathName),
            },
            None => if mandatory {
                Err(UrlError::PathRequired)
            } else {
                Ok(patch.0)
            },
        };
        match segs1 {
            Err(e) => Err(e),
            Ok(segs) => match params {
                None => Ok((segs, patch.1)),
                Some(keys) => match resolve_params_from(Seq::empty(), pparams, keys) {
                    Ok(qs) => Ok((segs, qs)),
                    Err(e) => Err(e),
                },
            },
        }
    }
}

/// What composing a base URL with a patch yields: the base's segments,
/// less one trailing empty segment, then the patch's non-empty segments;
/// then `?` and the parameters.
pub open spec fn spec_apply(
    b: (Seq<char>, Seq<Seq<char>>),
    p: (Seq<Seq<char>>, Seq<(Seq<char>, Seq<char>)>),
) -> Seq<char> {
    let kept = if b.1.len() > 0 && b.1.last().len() == 0 {
        b.1.drop_last()
    } else {
        b.1
    };
    let segs = kept + nonempty_texts(p.0);
    b.0 + path_text(segs) + seq!['?'] + params_text(p.1)
}

fn find_pair_ix(ps: &Vec<(String, String)>, key: &str) -> (r: Option<usize>)
    ensures
        r is Some <==> assoc_ix(pairs_view(ps@), key@) is Some,
        r matches Some(i) ==> assoc_ix(pairs_view(ps@), key@) == Some(i as nat) && i < ps@.len(),
{
    let ghost pv = pairs_view(ps@);
    let n = ps.len();
    let mut i: usize = 0;
    while i < n
        invariant
            n == ps@.len(),
            i <= n,
            pv == pairs_view(ps@),
            forall|j: int| 0 <= j < i ==> pv[j].0 != key@,
        decreases n - i,
    {
        if crate::text::str_eq(ps[i].0.as_str(), key) {
            proof {
                lemma_assoc_ix_at(pv, key@, i as int);
            }
            return Some(i);
        }
        i = i + 1;
    }
    proof {
        lemma_assoc_ix_at(pv, key@, n as int);
    }
    None
}

fn find_param_ix(ps: &Vec<(String, crate::config::QueryParam)>, key: &str) -> (r: Option<usize>)
    ensures
        r is Some <==> assoc_ix(params_view(ps@), key@) is Some,
        r matches Some(i) ==> assoc_ix(params_view(ps@), key@) == Some(i as nat) && i < ps@.len(),
{
    let ghost pv = params_view(ps@);
    let n = ps.len();
    let mut i: usize = 0;
    while i < n
        invariant
            n == ps@.len(),
            i <= n,
            pv == params_view(ps@),
            forall|j: int| 0 <= j < i ==> pv[j].0 != key@,
        decreases n - i,
    {
        if crate::text::str_eq(ps[i].0.as_str(), key) {
            proof {
                lemma_assoc_ix_at(pv, key@, i as int);
            }
            return Some(i);
        }
        i = i + 1;
    }
    proof {
        lemma_assoc_ix_at(pv, key@, n as int);
    }
    None
}

fn upsert_pairs(ps: &mut Vec<(String, String)>, k: String, v: String)
    ensures
        pairs_view(final(ps)@) == upsert(pairs_view(old(ps)@), k@, v@),
{
    let ghost pv = pairs_view(ps@);
    match find_pair_ix(ps, k.as_str()) {
        Some(i) => {
            let n = ps.len();
            let mut rebuilt: Vec<(String, String)> = Vec::new();
            let mut j: usize = 0;
            #[verifier::loop_isolation(false)]
            while j < n
                invariant
                    j <= n,
                    rebuilt@.len() == j,
                    ps@ == old(ps)@,
                    forall|m: int| 0 <= m < j && m != i ==> (#[trigger] rebuilt@[m].0@,
                        rebuilt@[m].1@) == pv[m],
                    i < j ==> (rebuilt@[i as int].0@, rebuilt@[i as int].1@) == (k@, v@),
                decreases n - j,
            {
                if j == i {
                    rebuilt.push((k.clone(), v.clone()));
                } else {
                    let name = ps[j].0.clone();
                    let value = ps[j].1.clone();
                    rebuilt.push((name, value));
                }
                j = j + 1;
            }
            *ps = rebuilt;
            proof {
                assert(pairs_view(ps@) =~= pv.update(i as int, (k@, v@)));
            }
        },
        None => {
            ps.push((k, v));
            proof {
                assert(pairs_view(ps@) =~= pv.push((k@, v@)));
            }
        },
    }
}

fn dup_strings(ss: &Vec<String>) -> (r: Vec<String>)
    ensures
        strings_view(r@) == strings_view(ss@),
{
    let mut r: Vec<String> = Vec::new();
    let mut i: usize = 0;
    while i < ss.len()
        invariant
            i <= ss@.len(),
            r@.len() == i,
            forall|j: int| 0 <= j < i ==> #[trigger] r@[j]@ == ss@[j]@,
        decreases ss@.len() - i,
    {
        r.push(ss[i].clone());
        i = i + 1;
    }
    proof {
        assert(strings_view(r@) =~= strings_view(ss@));
    }
    r
}

impl UrlPatch {
    /// Applies an endpoint URL setting to the patch; on a refusal the
    /// patch is left as it was.
    #[verifier::loop_isolation(false)]
    pub fn add_endpoint_url(
        &mut self,
        path_or_dsl: &str,
        url_parts: &UrlParts,
        is_path_mandatory: bool,
    ) -> (r: Result<(), UrlError>)
        ensures
            r is Ok <==> spec_add_endpoint_url(
                old(self).pv(),
                path_or_dsl@,
                pairs_view(url_parts.paths@),
                params_view(url_parts.params@),
                is_path_mandatory,
            ) is Ok,
            r is Ok ==> final(self).pv() == spec_add_endpoint_url(
                old(self).pv(),
                path_or_dsl@,
                pairs_view(url_parts.paths@),
                params_view(url_parts.params@),
                is_path_mandatory,
            )->Ok_0,
            r matches Err(e) ==> spec_add_endpoint_url(
                old(self).pv(),
                path_or_dsl@,
                pairs_view(url_parts.paths@),
                params_view(url_parts.params@),
                is_path_mandatory,
            ) matches Err(e2) && e == e2 && final(self).pv() == old(self).pv(),
    {
        let ghost paths = pairs_view(url_parts.paths@);
        let ghost pparams = params_view(url_parts.params@);
        let n = path_or_dsl.unicode_len();
        if n > 0 && path_or_dsl.get_char(0) == '/' {
            let rest = path_or_dsl.substring_char(1, n);
            proof {
                assert(rest@ =~= path_or_dsl@.drop_first());
            }
            self.add_path_with_query(rest);
            return Ok(());
        }
        let dsl = PathDsl::parse(path_or_dsl);
        let new_segs: Vec<String> = match &dsl.name {
            Some(key) => {
                match find_pair_ix(&url_parts.paths, key.as_str()) {
                    Some(i) => split_string(url_parts.paths[i].1.as_str(), '/'),
                    None => {
                        return Err(UrlError::UnknownPathName);
                    },
                }
            },
            None => {
                if is_path_mandatory {
                    return Err(UrlError::PathRequired);
                }
                dup_strings(&self.path_segments)
            },
        };
        match &dsl.params {
            None => {
                self.path_segments = new_segs;
                proof {
                    assert(final(self).pv() =~~= spec_add_endpoint_url(
                        old(self).pv(),
                        path_or_dsl@,
                        paths,
                        pparams,
                        is_path_mandatory,
                    )->Ok_0);
                }
                Ok(())
            },
            Some(keys) => {
                let ghost keysv = strings_view(keys@);
                let mut acc: Vec<(String, String)> = Vec::new();
                let mut i: usize = 0;
                proof {
                    assert(pairs_view(acc@) =~= Seq::<(Seq<char>, Seq<char>)>::empty());
                    assert(keysv.skip(0) =~= keysv);
                }
                while i < keys.len()
                    invariant
                        i <= keys@.len(),
                        resolve_params_from(pairs_view(acc@), pparams, keysv.skip(i as int))
                            == resolve_params_from(
                            Seq::<(Seq<char>, Seq<char>)>::empty(),
                            pparams,
                            keysv,
                        ),
                    decreases keys@.len() - i,
                {
                    proof {
                        assert(keysv.skip(i as int)[0] == keys@[i as int]@);
                        assert(keysv.skip(i as int).drop_first() =~= keysv.skip(i as int + 1));
                    }
                    match find_param_ix(&url_parts.params, keys[i].as_str()) {
                        None => {
                            return Err(UrlError::UnknownParamName);
                        },
                        Some(pix) => {
                            let pname = url_parts.params[pix].1.name.clone();
                            let pvalue = match &url_parts.params[pix].1.value {
                                Some(v) => v.clone(),
                                None => String::new(),
                            };
                            upsert_pairs(&mut acc, pname, pvalue);
                        },
                    }
                    i = i + 1;
                }
                proof {
                    assert(keysv.skip(keys@.len() as int) =~= Seq::<Seq<char>>::empty());
                }
                self.path_segments = new_segs;
                self.query_params = acc;
                proof {
                    assert(final(self).pv() =~~= spec_add_endpoint_url(
                        old(self).pv(),
                        path_or_dsl@,
                        paths,
                        pparams,
                        is_path_mandatory,
                    )->Ok_0);
                }
                Ok(())
            },
        }
    }

    /// Composes the base URL with this patch into the final URL text.
    #[verifier::loop_isolation(false)]
    #[verifier::rlimit(80)]
    pub fn apply(&self, base: &BaseUrl) -> (r: String)
        ensures
            r@ == spec_apply(base.bv(), self.pv()),
    {
        let ghost bsegs = strings_view(base.segments@);
        let ghost kept = if bsegs.len() > 0 && bsegs.last().len() == 0 {
            bsegs.drop_last()
        } else {
            bsegs
        };
        let nb = base.segments.len();
        let m = if nb > 0 && base.segments[nb - 1].unicode_len() == 0 {
            nb - 1
        } else {
            nb
        };
        let mut segs: Vec<String> = Vec::new();
        let mut i: usize = 0;
        proof {
            assert(kept =~= bsegs.take(m as int));
        }
        while i < m
            invariant
                i <= m,
                segs@.len() == i,
                forall|j: int| 0 <= j < i ==> #[trigger] segs@[j]@ == kept[j],
            decreases m - i,
        {
            segs.push(base.segments[i].clone());
            i = i + 1;
        }
        proof {
            assert(strings_view(segs@) =~= kept);
        }
        let ghost psegs = strings_view(self.path_segments@);
        let mut i: usize = 0;
        while i < self.path_segments.len()
            invariant
                i <= self.path_segments@.len(),
                strings_view(segs@) == kept + nonempty_texts(psegs.take(i as int)),
            decreases self.path_segments@.len() - i,
        {
            let ghost prev = strings_view(segs@);
            proof {
                assert(psegs.take(i + 1 as int).drop_last() =~= psegs.take(i as int));
                assert(psegs.take(i + 1 as int).last() == psegs[i as int]);
            }
            if self.path_segments[i].unicode_len() > 0 {
                segs.push(self.path_segments[i].clone());
                proof {
                    assert(strings_view(segs@) =~= prev.push(psegs[i as int]));
                }
            }
            i = i + 1;
        }
        proof {
            assert(psegs.take(self.path_segments@.len() as int) =~= psegs);
        }
        let ghost allsegs = kept + nonempty_texts(psegs);
        let mut out = String::new();
        out.append(base.prefix.as_str());
        if segs.len() == 0 {
            push_char(&mut out, '/');
            proof {
                assert(out@ =~= base.prefix@ + path_text(allsegs));
            }
        } else {
            let ghost sv = strings_view(segs@);
            let mut i: usize = 0;
            while i < segs.len()
                invariant
                    i <= segs@.len(),
                    sv == strings_view(segs@),
                    out@ == base.prefix@ + slash_join(sv.take(i as int)),
                decreases segs@.len() - i,
            {
                proof {
                    assert(sv.take(i + 1 as int).drop_last() =~= sv.take(i as int));
                    assert(sv.take(i + 1 as int).last() == segs@[i as int]@);
                }
                push_char(&mut out, '/');
                out.append(segs[i].as_str());
                i = i + 1;
            }
            proof {
                assert(sv.take(segs@.len() as int) =~= sv);
                assert(out@ =~= base.prefix@ + path_text(allsegs));
            }
        }
        push_char(&mut out, '?');
        let ghost upto_q = base.prefix@ + path_text(allsegs) + seq!['?'];
        let ghost qv = pairs_view(self.query_params@);
        let mut i: usize = 0;
        proof {
            assert(out@ =~= upto_q + params_text(qv.take(0)));
        }
        while i < self.query_params.len()
            invariant
                i <= self.query_params@.len(),
                qv == pairs_view(self.query_params@),
                out@ == upto_q + params_text(qv.take(i as int)),
            decreases self.query_params@.len() - i,
        {
            proof {
                assert(qv.take(i + 1 as int).drop_last() =~= qv.take(i as int));
                assert(qv.take(i + 1 as int).last() == qv[i as int]);
                assert(qv.take(i + 1 as int)[0] == qv[0]);
            }
            if i > 0 {
                push_char(&mut out, '&');
            }
            out.append(self.query_params[i].0.as_str());
            push_char(&mut out, '=');
            out.append(self.query_params[i].1.as_str());
            i = i + 1;
        }
        proof {
            assert(qv.take(self.query_params@.len() as int) =~= qv);
            assert(out@ =~= spec_apply(base.bv(), self.pv()));
        }
        out
    }
}

/// Why an endpoint URL override from the command line is refused.
#[derive(Clone, Copy, PartialEq, Eq, Structural, Debug)]
pub enum EndpointUrlError {
    MissingEndpointId,
    MissingEndpointUrl,
}

/// What splitting an `id:url` override yields: the id before the first
/// colon and the URL setting after it; a text without a colon is refused,
/// an empty one for want of an id.
pub open spec fn spec_parse_endpoint_url(s: Seq<char>) -> Result<
    (Seq<char>, Seq<char>),
    EndpointUrlError,
> {
    let (head, rest) = splitn2(s, ':');
    match rest {
        None => if head.len() == 0 {
            Err(EndpointUrlError::MissingEndpointId)
        } else {
            Err(EndpointUrlError::MissingEndpointUrl)
        },
        Some(r) => Ok((head, r)),
    }
}

/// Splits an `id:url` override from the command line.
pub fn parse_endpoint_url(url_dsl: &str) -> (r: Result<(String, String), EndpointUrlError>)
    ensures
        r is Ok <==> spec_parse_endpoint_url(url_dsl@) is Ok,
        r matches Ok(p) ==> spec_parse_endpoint_url(url_dsl@) matches Ok(sp) && p.0@ == sp.0
            && p.1@ == sp.1,
        r matches Err(e) ==> spec_parse_endpoint_url(url_dsl@) matches Err(e2) && e == e2,
{
    let (head, rest) = splitn2_str(url_dsl, ':');
    match rest {
        None => {
            if head.unicode_len() == 0 {
                Err(EndpointUrlError::MissingEndpointId)
            } else {
                Err(EndpointUrlError::MissingEndpointUrl)
            }
        },
        Some(r) => Ok((head, r)),
    }
}


/// Finds the first override entry under an endpoint id.
pub fn find_override(ps: &Vec<(String, String)>, key: &str) -> (r: Option<usize>)
    ensures
        r is Some <==> assoc_ix(pairs_view(ps@), key@) is Some,
        r matches Some(i) ==> assoc_ix(pairs_view(ps@), key@) == Some(i as nat) && i < ps@.len(),
{
    find_pair_ix(ps, key)
}


/// Composing a URL is pure: the same base parts and the same patch always
/// yield the byte-identical URL text, however often and wherever composed.
pub proof fn lemma_compose_pure(
    b1: (Seq<char>, Seq<Seq<char>>),
    p1: (Seq<Seq<char>>, Seq<(Seq<char>, Seq<char>)>),
    b2: (Seq<char>, Seq<Seq<char>>),
    p2: (Seq<Seq<char>>, Seq<(Seq<char>, Seq<char>)>),
)
    requires
        b1 == b2,
        p1 == p2,
    ensures
        spec_apply(b1, p1) == spec_apply(b2, p2),
{
}

} // verus!
