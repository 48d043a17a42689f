use vstd::prelude::*;

use crate::config::{
    labels_view,
    metrics_view,
    pairs_view,
    params_view,
    raw_filters_view,
    Config,
    Endpoint,
    Filter,
    GlobalLabels,
    Label,
    Metric,
    MetricType,
    MetricV,
};
use crate::filters::{create_filter, ArgsError, FilterCreateError, FilterV, PreparedFilter};
use crate::json::{JsonValue, JV};
use crate::selector::{
    rooted_expr,
    sel_find,
    sel_steps_view,
    spec_compile,
    FoundMatch,
    JsonSelector,
    SelStepV,
    StepV,
};
use crate::text::{dec_str, push_char, u64_to_string};
use crate::tmpl::{
    placeholders_view,
    spec_string_with_placeholders,
    string_with_placeholders,
    Placeholder,
    PlaceholderV,
    Var,
    VarV,
};
use crate::urls::{
    assoc_ix,
    spec_add_endpoint_url,
    spec_add_path_with_query,
    spec_apply,
    BaseUrl,
    UrlError,
    UrlPatch,
};

verus! {

/// Why a configuration is refused at compile time.
#[derive(Clone, Copy, PartialEq, Eq, Structural, Debug)]
pub enum ConfigError {
    TemplateSyntax,
    SelectorSyntax,
    UnknownFilter,
    FilterArgs(ArgsError),
    UnknownPathName,
    UnknownParamName,
    PathRequired,
}

pub open spec fn url_error_to_config(e: UrlError) -> ConfigError {
    match e {
        UrlError::UnknownPathName => ConfigError::UnknownPathName,
        UrlError::UnknownParamName => ConfigError::UnknownParamName,
        UrlError::PathRequired => ConfigError::PathRequired,
    }
}

fn map_url_error(e: UrlError) -> (r: ConfigError)
    ensures
        r == url_error_to_config(e),
{
    match e {
        UrlError::UnknownPathName => ConfigError::UnknownPathName,
        UrlError::UnknownParamName => ConfigError::UnknownParamName,
        UrlError::PathRequired => ConfigError::PathRequired,
    }
}

/// Why one sample is skipped at extraction time.
#[derive(Clone, Copy, PartialEq, Eq, Structural, Debug)]
pub enum ResolveError {
    PathIndexOutOfRange(u32),
    RootNotAllowed,
}

impl ResolveError {
    pub open spec fn msg_spec(self) -> Seq<char> {
        match self {
            ResolveError::PathIndexOutOfRange(ix) => "Invalid path index: "@ + dec_str(ix as nat),
            ResolveError::RootNotAllowed => "Root element is not supported"@,
        }
    }

    /// The text this error carries into a warning.
    pub fn msg(&self) -> (r: String)
        ensures
            r@ == self.msg_spec(),
    {
        match self {
            ResolveError::PathIndexOutOfRange(ix) => {
                let mut s = String::new();
                s.append("Invalid path index: ");
                let digits = u64_to_string(*ix as u64);
                s.append(digits.as_str());
                s
            },
            ResolveError::RootNotAllowed => String::from_str("Root element is not supported"),
        }
    }
}

/// One compiled node of a template: a literal, a path index, or a
/// compiled selector.
pub enum PreparedPlaceholder {
    Text(String),
    VarIx(u32),
    VarIdent(JsonSelector),
}

/// Spec-level form of a compiled template node.
pub ghost enum PlaceV {
    Text(Seq<char>),
    VarIx(u32),
    VarIdent(Seq<SelStepV>),
}

impl PreparedPlaceholder {
    pub open spec fn ppv(&self) -> PlaceV {
        match self {
            PreparedPlaceholder::Text(t) => PlaceV::Text(t@),
            PreparedPlaceholder::VarIx(ix) => PlaceV::VarIx(*ix),
            PreparedPlaceholder::VarIdent(sel) => PlaceV::VarIdent(sel_steps_view(sel.steps@)),
        }
    }
}

pub open spec fn places_view(ps: Seq<PreparedPlaceholder>) -> Seq<PlaceV> {
    Seq::new(ps.len(), |i: int| if 0 <= i < ps.len() {
        ps[i].ppv()
    } else {
        PlaceV::Text(Seq::empty())
    })
}

/// What one parsed template node compiles to.
pub open spec fn spec_compile_place(p: PlaceholderV) -> Result<PlaceV, ConfigError> {
    match p {
        PlaceholderV::Text(t) => Ok(PlaceV::Text(t)),
        PlaceholderV::Var(VarV::PathPart(n)) => Ok(PlaceV::VarIx(n)),
        PlaceholderV::Var(VarV::Selector(sel)) => match spec_compile(sel) {
            Some(steps) => Ok(PlaceV::VarIdent(steps)),
            None => Err(ConfigError::SelectorSyntax),
        },
    }
}

pub open spec fn spec_compile_places(ps: Seq<PlaceholderV>) -> Result<Seq<PlaceV>, ConfigError>
    decreases ps.len(),
{
    if ps.len() == 0 {
        Ok(Seq::empty())
    } else {
        match spec_compile_place(ps[0]) {
            Err(e) => Err(e),
            Ok(p) => match spec_compile_places(ps.drop_first()) {
                Err(e) => Err(e),
                Ok(rest) => Ok(seq![p] + rest),
            },
        }
    }
}

/// What compiling a template yields: an empty text compiles to the empty
/// template; anything else must parse, and each selector placeholder must
/// compile.
pub open spec fn spec_compile_template(s: Seq<char>) -> Result<Seq<PlaceV>, ConfigError> {
    if s.len() == 0 {
        Ok(Seq::empty())
    } else {
        match spec_string_with_placeholders(s) {
            None => Err(ConfigError::TemplateSyntax),
            Some((_, ps)) => spec_compile_places(ps),
        }
    }
}

/// A generic shape of list compilation: everything compiled so far,
/// prepended to the outcome for the rest.
pub open spec fn prepend_ok<T, E>(pre: Seq<T>, r: Result<Seq<T>, E>) -> Result<Seq<T>, E> {
    match r {
        Ok(s) => Ok(pre + s),
        Err(e) => Err(e),
    }
}

/// A compiled template: the nodes evaluated against each match.
pub struct TemplateProcessor {
    pub tmpl: Vec<PreparedPlaceholder>,
}

impl TemplateProcessor {
    pub open spec fn tv(&self) -> Seq<PlaceV> {
        places_view(self.tmpl@)
    }

    /// Compiles a template text.
    #[verifier::loop_isolation(false)]
    pub fn create_from(tmpl: &str) -> (r: Result<TemplateProcessor, ConfigError>)
        ensures
            r is Ok <==> spec_compile_template(tmpl@) is Ok,
            r matches Ok(t) ==> spec_compile_template(tmpl@) matches Ok(tv) && t.tv() == tv,
            r matches Err(e) ==> spec_compile_template(tmpl@) matches Err(e2) && e == e2,
    {
        if tmpl.unicode_len() == 0 {
            let r = TemplateProcessor { tmpl: Vec::new() };
            proof {
                assert(r.tv() =~= Seq::<PlaceV>::empty());
            }
            return Ok(r);
        }
        match string_with_placeholders(tmpl) {
            None => Err(ConfigError::TemplateSyntax),
            Some((_, places)) => {
                let ghost pv = placeholders_view(places@);
                let mut out: Vec<PreparedPlaceholder> = Vec::new();
                let mut i: usize = 0;
                proof {
                    assert(pv.skip(0) =~= pv);
                }
                while i < places.len()
                    invariant
                        i <= places@.len(),
                        spec_compile_places(pv) == prepend_ok(
                            places_view(out@),
                            spec_compile_places(pv.skip(i as int)),
                        ),
                    decreases places@.len() - i,
                {
                    let ghost prev = places_view(out@);
                    proof {
                        assert(pv.skip(i as int)[0] == places@[i as int].pv());
                        assert(pv.skip(i as int).drop_first() =~= pv.skip(i as int + 1));
                    }
                    match &places[i] {
                        Placeholder::Text(t) => {
                            out.push(PreparedPlaceholder::Text(t.clone()));
                        },
                        Placeholder::Var(Var::PathPart(n)) => {
                            out.push(PreparedPlaceholder::VarIx(*n));
                        },
                        Placeholder::Var(Var::Selector(sel)) => {
                            match JsonSelector::new(sel.as_str()) {
                                Some(compiled) => {
                                    out.push(PreparedPlaceholder::VarIdent(compiled));
                                },
                                None => {
                                    return Err(ConfigError::SelectorSyntax);
                                },
                            }
                        },
                    }
                    proof {
                        assert(places_view(out@) =~= prev.push(out@.last().ppv()));
                        assert(spec_compile_place(pv.skip(i as int)[0]) == Ok::<
                            PlaceV,
                            ConfigError,
                        >(out@.last().ppv()));
                        assert(spec_compile_places(pv.skip(i as int)) == (
                        match spec_compile_places(pv.skip(i as int + 1)) {
                            Ok(rest) => Ok::<Seq<PlaceV>, ConfigError>(
                                seq![out@.last().ppv()] + rest,
                            ),
                            Err(e) => Err(e),
                        }));
                        let p = out@.last().ppv();
                        if spec_compile_places(pv.skip(i as int + 1)) is Ok {
                            let rest = spec_compile_places(pv.skip(i as int + 1))->Ok_0;
                            assert(prev.push(p) + rest =~= prev + (seq![p] + rest));
                        }
                        assert(spec_compile_places(pv) == prepend_ok(
                            places_view(out@),
                            spec_compile_places(pv.skip(i as int + 1)),
                        ));
                    }
                    i = i + 1;
                }
                proof {
                    assert(pv.skip(places@.len() as int) =~= Seq::<PlaceholderV>::empty());
                }
                let r = TemplateProcessor { tmpl: out };
                proof {
                    assert(spec_compile_template(tmpl@) matches Ok(tv) && r.tv() =~= tv);
                }
                Ok(r)
            },
        }
    }
}

/// What one template node contributes for a match: a literal's text; for a
/// path index, the step one past it on the match's path, a key as itself
/// and an array position in decimal; for a selector, the first scalar it
/// finds within the matched value, or nothing.
pub open spec fn spec_node_text(p: PlaceV, value: JV, path: Seq<StepV>) -> Result<
    Seq<char>,
    ResolveError,
> {
    match p {
        PlaceV::Text(t) => Ok(t),
        PlaceV::VarIx(ix) => {
            if ix + 1 >= path.len() {
                Err(ResolveError::PathIndexOutOfRange(ix))
            } else {
                match path[ix as int + 1] {
                    StepV::Key(k) => Ok(k),
                    StepV::Index(x) => Ok(dec_str(x as nat)),
                    StepV::Root => Err(ResolveError::RootNotAllowed),
                }
            }
        },
        PlaceV::VarIdent(steps) => {
            let ms = sel_find(steps, value, seq![StepV::Root]);
            if ms.len() == 0 {
                Ok(Seq::empty())
            } else {
                match ms[0].0 {
                    JV::Str(s) => Ok(s),
                    JV::Bool(b) => Ok(
                        if b {
                            "true"@
                        } else {
                            "false"@
                        },
                    ),
                    JV::Num(t) => Ok(t),
                    _ => Ok(Seq::empty()),
                }
            }
        },
    }
}

/// What applying a template to a match yields: the nodes' texts joined,
/// or the first error among them.
pub open spec fn spec_apply_template(tmpl: Seq<PlaceV>, value: JV, path: Seq<StepV>) -> Result<
    Seq<char>,
    ResolveError,
>
    decreases tmpl.len(),
{
    if tmpl.len() == 0 {
        Ok(Seq::empty())
    } else {
        match spec_apply_template(tmpl.drop_last(), value, path) {
            Err(e) => Err(e),
            Ok(pre) => match spec_node_text(tmpl.last(), value, path) {
                Err(e) => Err(e),
                Ok(t) => Ok(pre + t),
            },
        }
    }
}

proof fn lemma_apply_prefix_err(tmpl: Seq<PlaceV>, value: JV, path: Seq<StepV>, i: int)
    requires
        0 <= i <= tmpl.len(),
        spec_apply_template(tmpl.take(i), value, path) is Err,
    ensures
        spec_apply_template(tmpl, value, path) == spec_apply_template(tmpl.take(i), value, path),
    decreases tmpl.len() - i,
{
    if i == tmpl.len() {
        assert(tmpl.take(i) =~= tmpl);
    } else {
        assert(tmpl.take(i + 1).drop_last() =~= tmpl.take(i));
        lemma_apply_prefix_err(tmpl, value, path, i + 1);
    }
}

impl TemplateProcessor {
    /// Evaluates the template against one match.
    #[verifier::loop_isolation(false)]
    pub fn apply(&self, found: &FoundMatch) -> (r: Result<String, ResolveError>)
        ensures
            r is Ok <==> spec_apply_template(
                self.tv(),
                found.value.jv(),
                crate::selector::steps_view(found.path@),
            ) is Ok,
            r matches Ok(t) ==> spec_apply_template(
                self.tv(),
                found.value.jv(),
                crate::selector::steps_view(found.path@),
            ) matches Ok(tv) && t@ == tv,
            r matches Err(e) ==> spec_apply_template(
                self.tv(),
                found.value.jv(),
                crate::selector::steps_view(found.path@),
            ) matches Err(e2) && e == e2,
    {
        let ghost value = found.value.jv();
        let ghost path = crate::selector::steps_view(found.path@);
        let ghost tv = self.tv();
        let mut text = String::new();
        let mut i: usize = 0;
        proof {
            assert(tv.take(0) =~= Seq::<PlaceV>::empty());
        }
        while i < self.tmpl.len()
            invariant
                i <= self.tmpl@.len(),
                spec_apply_template(tv.take(i as int), value, path) == Ok::<
                    Seq<char>,
                    ResolveError,
                >(text@),
            decreases self.tmpl@.len() - i,
        {
            proof {
                assert(tv.take(i + 1 as int).drop_last() =~= tv.take(i as int));
                assert(tv.take(i + 1 as int).last() == self.tmpl@[i as int].ppv());
            }
            match &self.tmpl[i] {
                PreparedPlaceholder::Text(t) => {
                    text.append(t.as_str());
                },
                PreparedPlaceholder::VarIx(path_ix) => {
                    let ix = *path_ix;
                    if (ix as u64) + 1 >= (found.path.len() as u64) {
                        proof {
                            assert(spec_apply_template(tv.take(i + 1 as int), value, path)
                                == Err::<Seq<char>, ResolveError>(
                                ResolveError::PathIndexOutOfRange(ix),
                            ));
                            lemma_apply_prefix_err(tv, value, path, i + 1 as int);
                        }
                        return Err(ResolveError::PathIndexOutOfRange(ix));
                    }
                    let pix = ((ix as u64) + 1) as usize;
                    proof {
                        assert(path[pix as int] == found.path@[pix as int].sv());
                    }
                    match &found.path[pix] {
                        crate::selector::Step::Key(key) => {
                            text.append(key.as_str());
                        },
                        crate::selector::Step::Index(x) => {
                            let digits = u64_to_string(*x);
                            text.append(digits.as_str());
                        },
                        crate::selector::Step::Root => {
                            proof {
                                assert(spec_apply_template(tv.take(i + 1 as int), value, path)
                                    == Err::<Seq<char>, ResolveError>(
                                    ResolveError::RootNotAllowed,
                                ));
                                lemma_apply_prefix_err(tv, value, path, i + 1 as int);
                            }
                            return Err(ResolveError::RootNotAllowed);
                        },
                    }
                },
                PreparedPlaceholder::VarIdent(sel) => {
                    let ms = sel.find(&found.value);
                    if ms.len() > 0 {
                        proof {
                            assert(crate::selector::matches_view(ms@)[0] == ms@[0].mv());
                        }
                        match &ms[0].value {
                            JsonValue::Str(s) => {
                                text.append(s.as_str());
                            },
                            JsonValue::Bool(b) => {
                                proof {
                                    reveal_strlit("true");
                                    reveal_strlit("false");
                                }
                                if *b {
                                    text.append("true");
                                } else {
                                    text.append("false");
                                }
                            },
                            JsonValue::Num(t) => {
                                text.append(t.as_str());
                            },
                            _ => {
                                proof {
                                    assert(!(ms@[0].value.jv() is Str) && !(ms@[0].value.jv()
                                        is Bool) && !(ms@[0].value.jv() is Num));
                                }
                            },
                        }
                    }
                },
            }
            i = i + 1;
        }
        proof {
            assert(tv.take(self.tmpl@.len() as int) =~= tv);
        }
        Ok(text)
    }
}


/// A compiled label: its name and the template of its value.
pub struct PreparedLabel {
    pub name: String,
    pub value_processor: TemplateProcessor,
}

impl PreparedLabel {
    pub open spec fn plv(&self) -> (Seq<char>, Seq<PlaceV>) {
        (self.name@, self.value_processor.tv())
    }

    /// Compiles one label.
    pub fn create_from(label: &Label) -> (r: Result<PreparedLabel, ConfigError>)
        ensures
            r is Ok <==> spec_prepare_label(label.lv()) is Ok,
            r matches Ok(pl) ==> spec_prepare_label(label.lv()) matches Ok(plv) && pl.plv() == plv,
            r matches Err(e) ==> spec_prepare_label(label.lv()) matches Err(e2) && e == e2,
    {
        match TemplateProcessor::create_from(label.value.as_str()) {
            Ok(vp) => Ok(PreparedLabel { name: label.name.clone(), value_processor: vp }),
            Err(e) => Err(e),
        }
    }
}

/// What compiling one label yields: its value template compiled.
pub open spec fn spec_prepare_label(l: (Seq<char>, Seq<char>)) -> Result<
    (Seq<char>, Seq<PlaceV>),
    ConfigError,
> {
    match spec_compile_template(l.1) {
        Ok(t) => Ok((l.0, t)),
        Err(e) => Err(e),
    }
}

/// What compiling a label list yields: each label compiled, or the first
/// error.
pub open spec fn spec_prepare_labels(ls: Seq<(Seq<char>, Seq<char>)>) -> Result<
    Seq<(Seq<char>, Seq<PlaceV>)>,
    ConfigError,
>
    decreases ls.len(),
{
    if ls.len() == 0 {
        Ok(Seq::empty())
    } else {
        match spec_prepare_label(ls[0]) {
            Err(e) => Err(e),
            Ok(pl) => match spec_prepare_labels(ls.drop_first()) {
                Err(e) => Err(e),
                Ok(rest) => Ok(seq![pl] + rest),
            },
        }
    }
}

/// The compiled labels of one scope, in configuration order.
pub struct PreparedLabels {
    pub labels: Vec<PreparedLabel>,
}

pub open spec fn prepared_labels_view(ls: Seq<PreparedLabel>) -> Seq<(Seq<char>, Seq<PlaceV>)> {
    Seq::new(ls.len(), |i: int| if 0 <= i < ls.len() {
        ls[i].plv()
    } else {
        (Seq::empty(), Seq::empty())
    })
}

impl PreparedLabels {
    pub open spec fn plsv(&self) -> Seq<(Seq<char>, Seq<PlaceV>)> {
        prepared_labels_view(self.labels@)
    }

    /// Compiles a label list.
    #[verifier::loop_isolation(false)]
    pub fn create_from(labels: &Vec<Label>) -> (r: Result<PreparedLabels, ConfigError>)
        ensures
            r is Ok <==> spec_prepare_labels(labels_view(labels@)) is Ok,
            r matches Ok(pls) ==> spec_prepare_labels(labels_view(labels@)) matches Ok(v)
                && pls.plsv() == v,
            r matches Err(e) ==> spec_prepare_labels(labels_view(labels@)) matches Err(e2)
                && e == e2,
    {
        let ghost lv = labels_view(labels@);
        let mut out: Vec<PreparedLabel> = Vec::new();
        let mut i: usize = 0;
        proof {
            assert(lv.skip(0) =~= lv);
        }
        while i < labels.len()
            invariant
                i <= labels@.len(),
                spec_prepare_labels(lv) == prepend_ok(
                    prepared_labels_view(out@),
                    spec_prepare_labels(lv.skip(i as int)),
                ),
            decreases labels@.len() - i,
        {
            let ghost prev = prepared_labels_view(out@);
            proof {
                assert(lv.skip(i as int)[0] == labels@[i as int].lv());
                assert(lv.skip(i as int).drop_first() =~= lv.skip(i as int + 1));
            }
            match PreparedLabel::create_from(&labels[i]) {
                Err(e) => {
                    return Err(e);
                },
                Ok(pl) => {
                    out.push(pl);
                    proof {
                        let p = out@.last().plv();
                        assert(prepared_labels_view(out@) =~= prev.push(p));
                        if spec_prepare_labels(lv.skip(i as int + 1)) is Ok {
                            let rest = spec_prepare_labels(lv.skip(i as int + 1))->Ok_0;
                            assert(prev.push(p) + rest =~= prev + (seq![p] + rest));
                        }
                        assert(spec_prepare_labels(lv) == prepend_ok(
                            prepared_labels_view(out@),
                            spec_prepare_labels(lv.skip(i as int + 1)),
                        ));
                    }
                },
            }
            i = i + 1;
        }
        proof {
            assert(lv.skip(labels@.len() as int) =~= Seq::<(Seq<char>, Seq<char>)>::empty());
        }
        let r = PreparedLabels { labels: out };
        proof {
            assert(spec_prepare_labels(lv) matches Ok(v) && r.plsv() =~= v);
        }
        Ok(r)
    }
}

/// What one filter entry compiles to, through the registry.
pub open spec fn spec_prepare_filter(f: (Seq<char>, JV)) -> Result<FilterV, ConfigError> {
    match crate::filters::spec_create_filter(f.0, f.1) {
        Ok(fv) => Ok(fv),
        Err(FilterCreateError::UnknownFilter) => Err(ConfigError::UnknownFilter),
        Err(FilterCreateError::Args(e)) => Err(ConfigError::FilterArgs(e)),
    }
}

/// What compiling the filter entries yields: each built, or the first
/// error.
pub open spec fn spec_prepare_filters(fs: Seq<(Seq<char>, JV)>) -> Result<Seq<FilterV>, ConfigError>
    decreases fs.len(),
{
    if fs.len() == 0 {
        Ok(Seq::empty())
    } else {
        match spec_prepare_filter(fs[0]) {
            Err(e) => Err(e),
            Ok(fv) => match spec_prepare_filters(fs.drop_first()) {
                Err(e) => Err(e),
                Ok(rest) => Ok(seq![fv] + rest),
            },
        }
    }
}

pub open spec fn prepared_filters_view(fs: Seq<PreparedFilter>) -> Seq<FilterV> {
    Seq::new(fs.len(), |i: int| if 0 <= i < fs.len() {
        fs[i].fv()
    } else {
        FilterV::Const(JV::Null)
    })
}

impl Filter {
    /// Resolves this filter entry against the registry and builds it.
    pub fn prepare(&self) -> (r: Result<PreparedFilter, ConfigError>)
        ensures
            r is Ok <==> spec_prepare_filter(self.fv()) is Ok,
            r matches Ok(f) ==> spec_prepare_filter(self.fv()) matches Ok(fv) && f.fv() == fv,
            r matches Err(e) ==> spec_prepare_filter(self.fv()) matches Err(e2) && e == e2,
    {
        match create_filter(self.name.as_str(), &self.args) {
            Ok(f) => Ok(f),
            Err(FilterCreateError::UnknownFilter) => Err(ConfigError::UnknownFilter),
            Err(FilterCreateError::Args(e)) => Err(ConfigError::FilterArgs(e)),
        }
    }
}

/// Spec-level form of a compiled metric.
#[verifier::ext_equal]
pub ghost struct PreparedMetricV {
    pub selector: Seq<SelStepV>,
    pub metric_type: Option<MetricType>,
    pub name: Option<Seq<char>>,
    pub name_tmpl: Option<Seq<PlaceV>>,
    pub filters: Seq<FilterV>,
    pub labels: Seq<(Seq<char>, Seq<PlaceV>)>,
    pub children: Seq<PreparedMetricV>,
}

/// What compiling one metric yields: the child's type inherited from the
/// parent when unset; the name template compiled where a name is present;
/// the path compiled; the filters built; the labels compiled; and the
/// children below it, inheriting its type.
pub open spec fn spec_prepare_metric(m: MetricV, parent: Option<MetricType>) -> Result<
    PreparedMetricV,
    ConfigError,
>
    decreases m,
{
    let mt = if m.metric_type is Some {
        m.metric_type
    } else {
        parent
    };
    let name_tmpl = match m.name {
        None => Ok(None),
        Some(n) => match spec_compile_template(n) {
            Ok(t) => Ok(Some(t)),
            Err(e) => Err(e),
        },
    };
    match name_tmpl {
        Err(e) => Err(e),
        Ok(nt) => match spec_compile(m.path) {
            None => Err(ConfigError::SelectorSyntax),
            Some(steps) => match spec_prepare_filters(m.modifiers) {
                Err(e) => Err(e),
                Ok(fs) => match spec_prepare_labels(m.labels) {
                    Err(e) => Err(e),
                    Ok(ls) => match spec_prepare_metrics(m.metrics, mt) {
                        Err(e) => Err(e),
                        Ok(cs) => Ok(
                            PreparedMetricV {
                                selector: steps,
                                metric_type: mt,
                                name: m.name,
                                name_tmpl: nt,
                                filters: fs,
                                labels: ls,
                                children: cs,
                            },
                        ),
                    },
                },
            },
        },
    }
}

/// What compiling a metric list yields: each metric compiled, or the
/// first error.
pub open spec fn spec_prepare_metrics(ms: Seq<MetricV>, parent: Option<MetricType>) -> Result<
    Seq<PreparedMetricV>,
    ConfigError,
>
    decreases ms,
{
    if ms.len() == 0 {
        Ok(Seq::empty())
    } else {
        match spec_prepare_metric(ms[0], parent) {
            Err(e) => Err(e),
            Ok(pm) => match spec_prepare_metrics(ms.drop_first(), parent) {
                Err(e) => Err(e),
                Ok(rest) => Ok(seq![pm] + rest),
            },
        }
    }
}

/// One compiled metric of the prepared plan.
pub struct PreparedMetric {
    pub selector: JsonSelector,
    pub metric_type: Option<MetricType>,
    pub name: Option<String>,
    pub name_processor: Option<TemplateProcessor>,
    pub filters: Vec<PreparedFilter>,
    pub labels: PreparedLabels,
    pub metrics: PreparedMetrics,
}

/// The compiled metrics of one level of the plan.
pub struct PreparedMetrics(pub Vec<PreparedMetric>);

impl PreparedMetric {
    pub open spec fn pmv(&self) -> PreparedMetricV
        decreases self,
    {
        PreparedMetricV {
            selector: sel_steps_view(self.selector.steps@),
            metric_type: self.metric_type,
            name: match self.name {
                Some(ref n) => Some(n@),
                None => None,
            },
            name_tmpl: match self.name_processor {
                Some(ref t) => Some(t.tv()),
                None => None,
            },
            filters: prepared_filters_view(self.filters@),
            labels: self.labels.plsv(),
            children: Seq::new(self.metrics.0@.len(), |i: int| if 0 <= i < self.metrics.0@.len() {
                self.metrics.0@[i].pmv()
            } else {
                arbitrary()
            }),
        }
    }
}

impl PreparedMetrics {
    pub open spec fn pmsv(&self) -> Seq<PreparedMetricV> {
        prepared_metrics_view(self.0@)
    }

    /// The metrics of this level.
    pub fn iter(&self) -> (r: &Vec<PreparedMetric>)
        ensures
            r@ == self.0@,
    {
        &self.0
    }
}

pub open spec fn prepared_metrics_view(ms: Seq<PreparedMetric>) -> Seq<PreparedMetricV> {
    Seq::new(ms.len(), |i: int| if 0 <= i < ms.len() {
        ms[i].pmv()
    } else {
        arbitrary()
    })
}

impl PreparedMetric {
    /// Compiles one metric of the raw configuration.
    #[verifier::loop_isolation(false)]
    pub fn create_from(metric: &Metric, parent_metric_type: Option<MetricType>) -> (r: Result<
        PreparedMetric,
        ConfigError,
    >)
        ensures
            r is Ok <==> spec_prepare_metric(metric.mv(), parent_metric_type) is Ok,
            r matches Ok(pm) ==> spec_prepare_metric(metric.mv(), parent_metric_type) matches Ok(v)
                && pm.pmv() == v,
            r matches Err(e) ==> spec_prepare_metric(metric.mv(), parent_metric_type) matches Err(
                e2,
            ) && e == e2,
        decreases metric,
    {
        let ghost mv = metric.mv();
        let metric_type = match metric.metric_type {
            Some(t) => Some(t),
            None => parent_metric_type,
        };
        let name: Option<String> = match &metric.name {
            Some(n) => Some(n.clone()),
            None => None,
        };
        let name_processor: Option<TemplateProcessor> = match &metric.name {
            Some(n) => {
                match TemplateProcessor::create_from(n.as_str()) {
                    Ok(t) => Some(t),
                    Err(e) => {
                        return Err(e);
                    },
                }
            },
            None => None,
        };
        let selector = match JsonSelector::new(metric.path.as_str()) {
            Some(s) => s,
            None => {
                return Err(ConfigError::SelectorSyntax);
            },
        };
        let ghost fsv = raw_filters_view(metric.modifiers@);
        let mut prepared_filters: Vec<PreparedFilter> = Vec::new();
        let mut i: usize = 0;
        proof {
            assert(fsv.skip(0) =~= fsv);
        }
        while i < metric.modifiers.len()
            invariant
                i <= metric.modifiers@.len(),
                spec_prepare_filters(fsv) == prepend_ok(
                    prepared_filters_view(prepared_filters@),
                    spec_prepare_filters(fsv.skip(i as int)),
                ),
            decreases metric.modifiers@.len() - i,
        {
            let ghost prev = prepared_filters_view(prepared_filters@);
            proof {
                assert(fsv.skip(i as int)[0] == metric.modifiers@[i as int].fv());
                assert(fsv.skip(i as int).drop_first() =~= fsv.skip(i as int + 1));
            }
            match metric.modifiers[i].prepare() {
                Err(e) => {
                    return Err(e);
                },
                Ok(f) => {
                    prepared_filters.push(f);
                    proof {
                        let p = prepared_filters@.last().fv();
                        assert(prepared_filters_view(prepared_filters@) =~= prev.push(p));
                        if spec_prepare_filters(fsv.skip(i as int + 1)) is Ok {
                            let rest = spec_prepare_filters(fsv.skip(i as int + 1))->Ok_0;
                            assert(prev.push(p) + rest =~= prev + (seq![p] + rest));
                        }
                        assert(spec_prepare_filters(fsv) == prepend_ok(
                            prepared_filters_view(prepared_filters@),
                            spec_prepare_filters(fsv.skip(i as int + 1)),
                        ));
                    }
                },
            }
            i = i + 1;
        }
        proof {
            assert(fsv.skip(metric.modifiers@.len() as int) =~= Seq::<(Seq<char>, JV)>::empty());
        }
        let labels = match PreparedLabels::create_from(&metric.labels) {
            Ok(ls) => ls,
            Err(e) => {
                return Err(e);
            },
        };
        proof {
            assert(decreases_to!(*metric => metric.metrics@));
            assert(mv.metrics =~= metrics_view(metric.metrics@));
        }
        let children = match PreparedMetrics::create_from(&metric.metrics, metric_type) {
            Ok(cs) => cs,
            Err(e) => {
                return Err(e);
            },
        };
        let r = PreparedMetric {
            selector,
            metric_type,
            name,
            name_processor,
            filters: prepared_filters,
            labels,
            metrics: children,
        };
        proof {
            let v = spec_prepare_metric(mv, parent_metric_type)->Ok_0;
            assert(r.pmv().selector == v.selector);
            assert(r.pmv().metric_type == v.metric_type);
            assert(r.pmv().name == v.name);
            assert(r.pmv().name_tmpl == v.name_tmpl);
            assert(r.pmv().filters == v.filters);
            assert(r.pmv().labels == v.labels);
            assert(r.pmv().children =~= children.pmsv());
            assert(r.pmv().children == v.children);
            assert(r.pmv() =~~= v);
        }
        Ok(r)
    }
}

impl PreparedMetrics {
    /// Compiles a metric list of the raw configuration.
    #[verifier::loop_isolation(false)]
    pub fn create_from(metrics: &Vec<Metric>, metric_type: Option<MetricType>) -> (r: Result<
        PreparedMetrics,
        ConfigError,
    >)
        ensures
            r is Ok <==> spec_prepare_metrics(metrics_view(metrics@), metric_type) is Ok,
            r matches Ok(pms) ==> spec_prepare_metrics(metrics_view(metrics@), metric_type)
                matches Ok(v) && pms.pmsv() == v,
            r matches Err(e) ==> spec_prepare_metrics(metrics_view(metrics@), metric_type)
                matches Err(e2) && e == e2,
        decreases metrics@,
    {
        let ghost msv = metrics_view(metrics@);
        let mut out: Vec<PreparedMetric> = Vec::new();
        let mut i: usize = 0;
        proof {
            assert(msv.skip(0) =~= msv);
        }
        while i < metrics.len()
            invariant
                i <= metrics@.len(),
                spec_prepare_metrics(msv, metric_type) == prepend_ok(
                    prepared_metrics_view(out@),
                    spec_prepare_metrics(msv.skip(i as int), metric_type),
                ),
            decreases metrics@.len() - i,
        {
            let ghost prev = prepared_metrics_view(out@);
            proof {
                assert(msv.skip(i as int)[0] == metrics@[i as int].mv());
                assert(msv.skip(i as int).drop_first() =~= msv.skip(i as int + 1));
                assert(msv.skip(i as int).drop_first() == msv.skip(i as int).drop_first());
                assert(decreases_to!(metrics@ => metrics@[i as int]));
            }
            match PreparedMetric::create_from(&metrics[i], metric_type) {
                Err(e) => {
                    return Err(e);
                },
                Ok(pm) => {
                    out.push(pm);
                    proof {
                        let p = prepared_metrics_view(out@).last();
                        assert(prepared_metrics_view(out@) =~= prev.push(p));
                        if spec_prepare_metrics(msv.skip(i as int + 1), metric_type) is Ok {
                            let rest = spec_prepare_metrics(
                                msv.skip(i as int + 1),
                                metric_type,
                            )->Ok_0;
                            assert(prev.push(p) + rest =~= prev + (seq![p] + rest));
                        }
                        assert(spec_prepare_metrics(msv, metric_type) == prepend_ok(
                            prepared_metrics_view(out@),
                            spec_prepare_metrics(msv.skip(i as int + 1), metric_type),
                        ));
                    }
                },
            }
            i = i + 1;
        }
        proof {
            assert(msv.skip(metrics@.len() as int) =~= Seq::<MetricV>::empty());
        }
        let r = PreparedMetrics(out);
        proof {
            assert(spec_prepare_metrics(msv, metric_type) matches Ok(v) && r.pmsv() =~= v);
        }
        Ok(r)
    }
}


/// Spec-level form of a raw endpoint.
#[verifier::ext_equal]
pub ghost struct EndpointV {
    pub id: Option<Seq<char>>,
    pub url: Seq<char>,
    pub paths: Seq<(Seq<char>, Seq<char>)>,
    pub params: Seq<(Seq<char>, (Seq<char>, Option<Seq<char>>))>,
    pub name: Seq<char>,
    pub metrics: Seq<MetricV>,
}

pub open spec fn endpoint_view(e: &Endpoint) -> EndpointV {
    EndpointV {
        id: match e.id {
            Some(ref s) => Some(s@),
            None => None,
        },
        url: e.url@,
        paths: pairs_view(e.url_parts.paths@),
        params: params_view(e.url_parts.params@),
        name: e.name@,
        metrics: metrics_view(e.metrics@),
    }
}

/// Spec-level form of a compiled endpoint.
#[verifier::ext_equal]
pub ghost struct PreparedEndpointV {
    pub id: Option<Seq<char>>,
    pub url: Seq<char>,
    pub name: Seq<char>,
    pub metrics: Seq<PreparedMetricV>,
}

/// What compiling an endpoint yields: its URL setting, then any override
/// from the command line, applied to the base URL; and its metrics
/// compiled with no inherited type.
pub open spec fn spec_prepare_endpoint(
    e: EndpointV,
    base: (Seq<char>, Seq<Seq<char>>),
    override_url: Option<Seq<char>>,
) -> Result<PreparedEndpointV, ConfigError> {
    let p0 = (Seq::<Seq<char>>::empty(), Seq::<(Seq<char>, Seq<char>)>::empty());
    match spec_add_endpoint_url(p0, e.url, e.paths, e.params, true) {
        Err(ue) => Err(url_error_to_config(ue)),
        Ok(p1) => {
            let p2r = match override_url {
                None => Ok(p1),
                Some(o) => spec_add_endpoint_url(p1, o, e.paths, e.params, false),
            };
            match p2r {
                Err(ue) => Err(url_error_to_config(ue)),
                Ok(p2) => match spec_prepare_metrics(e.metrics, None) {
                    Err(ce) => Err(ce),
                    Ok(ms) => Ok(
                        PreparedEndpointV {
                            id: e.id,
                            url: spec_apply(base, p2),
                            name: e.name,
                            metrics: ms,
                        },
                    ),
                },
            }
        },
    }
}

/// One compiled endpoint of the prepared plan.
pub struct PreparedEndpoint {
    pub id: Option<String>,
    pub url: String,
    pub name: String,
    pub metrics: PreparedMetrics,
}

impl PreparedEndpoint {
    pub open spec fn pev(&self) -> PreparedEndpointV {
        PreparedEndpointV {
            id: match self.id {
                Some(ref s) => Some(s@),
                None => None,
            },
            url: self.url@,
            name: self.name@,
            metrics: self.metrics.pmsv(),
        }
    }

    /// Compiles one endpoint against the base URL and an optional
    /// override of its URL setting.
    pub fn create_from(
        endpoint: &Endpoint,
        base_url: &BaseUrl,
        overriden_endpoint_url: Option<&String>,
    ) -> (r: Result<PreparedEndpoint, ConfigError>)
        ensures
            r is Ok <==> spec_prepare_endpoint(
                endpoint_view(endpoint),
                base_url.bv(),
                match overriden_endpoint_url {
                    Some(o) => Some(o@),
                    None => None,
                },
            ) is Ok,
            r matches Ok(pe) ==> spec_prepare_endpoint(
                endpoint_view(endpoint),
                base_url.bv(),
                match overriden_endpoint_url {
                    Some(o) => Some(o@),
                    None => None,
                },
            ) matches Ok(v) && pe.pev() == v,
            r matches Err(e) ==> spec_prepare_endpoint(
                endpoint_view(endpoint),
                base_url.bv(),
                match overriden_endpoint_url {
                    Some(o) => Some(o@),
                    None => None,
                },
            ) matches Err(e2) && e == e2,
    {
        let mut url_patch = UrlPatch::default();
        proof {
            assert(url_patch.pv().0 =~= Seq::<Seq<char>>::empty());
            assert(url_patch.pv().1 =~= Seq::<(Seq<char>, Seq<char>)>::empty());
        }
        match url_patch.add_endpoint_url(endpoint.url.as_str(), &endpoint.url_parts, true) {
            Ok(()) => {},
            Err(ue) => {
                return Err(map_url_error(ue));
            },
        }
        match overriden_endpoint_url {
            Some(o) => {
                match url_patch.add_endpoint_url(o.as_str(), &endpoint.url_parts, false) {
                    Ok(()) => {},
                    Err(ue) => {
                        return Err(map_url_error(ue));
                    },
                }
            },
            None => {},
        }
        let url = url_patch.apply(base_url);
        let metrics = match PreparedMetrics::create_from(&endpoint.metrics, None) {
            Ok(ms) => ms,
            Err(e) => {
                return Err(e);
            },
        };
        let id: Option<String> = match &endpoint.id {
            Some(s) => Some(s.clone()),
            None => None,
        };
        let r = PreparedEndpoint { id, url, name: endpoint.name.clone(), metrics };
        proof {
            let v = spec_prepare_endpoint(
                endpoint_view(endpoint),
                base_url.bv(),
                match overriden_endpoint_url {
                    Some(o) => Some(o@),
                    None => None,
                },
            )->Ok_0;
            assert(r.pev() =~~= v);
        }
        Ok(r)
    }
}

/// What compiling one global-labels entry yields: its URL taken as a
/// literal path and query against the base URL, and its labels compiled.
pub open spec fn spec_prepare_global(
    g: (Seq<char>, Seq<(Seq<char>, Seq<char>)>),
    base: (Seq<char>, Seq<Seq<char>>),
) -> Result<(Seq<char>, Seq<(Seq<char>, Seq<PlaceV>)>), ConfigError> {
    let p0 = (Seq::<Seq<char>>::empty(), Seq::<(Seq<char>, Seq<char>)>::empty());
    let patch = spec_add_path_with_query(p0, g.0);
    match spec_prepare_labels(g.1) {
        Err(e) => Err(e),
        Ok(ls) => Ok((spec_apply(base, patch), ls)),
    }
}

pub open spec fn global_view(g: &GlobalLabels) -> (Seq<char>, Seq<(Seq<char>, Seq<char>)>) {
    (g.url@, labels_view(g.labels@))
}

/// One compiled global-labels entry: the URL to fetch at startup and the
/// compiled labels to resolve from its document.
pub struct PreparedGlobalLabels {
    pub url: String,
    pub labels: PreparedLabels,
}

impl PreparedGlobalLabels {
    pub open spec fn pgv(&self) -> (Seq<char>, Seq<(Seq<char>, Seq<PlaceV>)>) {
        (self.url@, self.labels.plsv())
    }

    /// Compiles one global-labels entry.
    pub fn create_from(global_labels: &GlobalLabels, base_url: &BaseUrl) -> (r: Result<
        PreparedGlobalLabels,
        ConfigError,
    >)
        ensures
            r is Ok <==> spec_prepare_global(global_view(global_labels), base_url.bv()) is Ok,
            r matches Ok(pg) ==> spec_prepare_global(global_view(global_labels), base_url.bv())
                matches Ok(v) && pg.pgv() == v,
            r matches Err(e) ==> spec_prepare_global(global_view(global_labels), base_url.bv())
                matches Err(e2) && e == e2,
    {
        let mut url_patch = UrlPatch::default();
        proof {
            assert(url_patch.pv().0 =~= Seq::<Seq<char>>::empty());
            assert(url_patch.pv().1 =~= Seq::<(Seq<char>, Seq<char>)>::empty());
        }
        url_patch.add_path_with_query(global_labels.url.as_str());
        let url = url_patch.apply(base_url);
        match PreparedLabels::create_from(&global_labels.labels) {
            Ok(ls) => {
                let r = PreparedGlobalLabels { url, labels: ls };
                Ok(r)
            },
            Err(e) => Err(e),
        }
    }
}

/// Spec-level form of the whole raw configuration.
#[verifier::ext_equal]
pub ghost struct ConfigV {
    pub namespace: Option<Seq<char>>,
    pub global_labels: Seq<(Seq<char>, Seq<(Seq<char>, Seq<char>)>)>,
    pub endpoints: Seq<EndpointV>,
}

pub open spec fn config_view(c: &Config) -> ConfigV {
    ConfigV {
        namespace: match c.namespace {
            Some(ref s) => Some(s@),
            None => None,
        },
        global_labels: Seq::new(c.global_labels@.len(), |i: int| if 0 <= i
            < c.global_labels@.len() {
            global_view(&c.global_labels@[i])
        } else {
            (Seq::empty(), Seq::empty())
        }),
        endpoints: Seq::new(c.endpoints@.len(), |i: int| if 0 <= i < c.endpoints@.len() {
            endpoint_view(&c.endpoints@[i])
        } else {
            arbitrary()
        }),
    }
}

/// Spec-level form of the prepared plan.
#[verifier::ext_equal]
pub ghost struct PreparedConfigV {
    pub namespace: Option<Seq<char>>,
    pub global_labels: Seq<(Seq<char>, Seq<(Seq<char>, Seq<PlaceV>)>)>,
    pub endpoints: Seq<PreparedEndpointV>,
}

pub open spec fn spec_prepare_globals(
    gs: Seq<(Seq<char>, Seq<(Seq<char>, Seq<char>)>)>,
    base: (Seq<char>, Seq<Seq<char>>),
) -> Result<Seq<(Seq<char>, Seq<(Seq<char>, Seq<PlaceV>)>)>, ConfigError>
    decreases gs.len(),
{
    if gs.len() == 0 {
        Ok(Seq::empty())
    } else {
        match spec_prepare_global(gs[0], base) {
            Err(e) => Err(e),
            Ok(g) => match spec_prepare_globals(gs.drop_first(), base) {
                Err(e) => Err(e),
                Ok(rest) => Ok(seq![g] + rest),
            },
        }
    }
}

/// The override a command-line `id:url` list gives an endpoint: the URL
/// setting under the first entry that carries the endpoint's id.
pub open spec fn spec_override_for(
    e: EndpointV,
    overrides: Seq<(Seq<char>, Seq<char>)>,
) -> Option<Seq<char>> {
    match e.id {
        None => None,
        Some(id) => match assoc_ix(overrides, id) {
            Some(i) => Some(overrides[i as int].1),
            None => None,
        },
    }
}

pub open spec fn spec_prepare_endpoints(
    es: Seq<EndpointV>,
    base: (Seq<char>, Seq<Seq<char>>),
    overrides: Seq<(Seq<char>, Seq<char>)>,
) -> Result<Seq<PreparedEndpointV>, ConfigError>
    decreases es.len(),
{
    if es.len() == 0 {
        Ok(Seq::empty())
    } else {
        match spec_prepare_endpoint(es[0], base, spec_override_for(es[0], overrides)) {
            Err(e) => Err(e),
            Ok(pe) => match spec_prepare_endpoints(es.drop_first(), base, overrides) {
                Err(e) => Err(e),
                Ok(rest) => Ok(seq![pe] + rest),
            },
        }
    }
}

/// What compiling the whole configuration yields.
pub open spec fn spec_prepare_config(
    c: ConfigV,
    base: (Seq<char>, Seq<Seq<char>>),
    overrides: Seq<(Seq<char>, Seq<char>)>,
) -> Result<PreparedConfigV, ConfigError> {
    match spec_prepare_globals(c.global_labels, base) {
        Err(e) => Err(e),
        Ok(gs) => match spec_prepare_endpoints(c.endpoints, base, overrides) {
            Err(e) => Err(e),
            Ok(es) => Ok(
                PreparedConfigV { namespace: c.namespace, global_labels: gs, endpoints: es },
            ),
        },
    }
}

/// The prepared plan: the whole configuration compiled against a base URL.
pub struct PreparedConfig {
    pub namespace: Option<String>,
    pub global_labels: Vec<PreparedGlobalLabels>,
    pub endpoints: Vec<PreparedEndpoint>,
}

pub open spec fn prepared_globals_view(gs: Seq<PreparedGlobalLabels>) -> Seq<
    (Seq<char>, Seq<(Seq<char>, Seq<PlaceV>)>),
> {
    Seq::new(gs.len(), |i: int| if 0 <= i < gs.len() {
        gs[i].pgv()
    } else {
        (Seq::empty(), Seq::empty())
    })
}

pub open spec fn prepared_endpoints_view(es: Seq<PreparedEndpoint>) -> Seq<PreparedEndpointV> {
    Seq::new(es.len(), |i: int| if 0 <= i < es.len() {
        es[i].pev()
    } else {
        arbitrary()
    })
}

impl PreparedConfig {
    pub open spec fn pcv(&self) -> PreparedConfigV {
        PreparedConfigV {
            namespace: match self.namespace {
                Some(ref s) => Some(s@),
                None => None,
            },
            global_labels: prepared_globals_view(self.global_labels@),
            endpoints: prepared_endpoints_view(self.endpoints@),
        }
    }

    /// Compiles the whole configuration.
    #[verifier::loop_isolation(false)]
    pub fn create_from(
        config: &Config,
        base_url: &BaseUrl,
        override_endpoint_urls: &Vec<(String, String)>,
    ) -> (r: Result<PreparedConfig, ConfigError>)
        ensures
            r is Ok <==> spec_prepare_config(
                config_view(config),
                base_url.bv(),
                pairs_view(override_endpoint_urls@),
            ) is Ok,
            r matches Ok(pc) ==> spec_prepare_config(
                config_view(config),
                base_url.bv(),
                pairs_view(override_endpoint_urls@),
            ) matches Ok(v) && pc.pcv() == v,
            r matches Err(e) ==> spec_prepare_config(
                config_view(config),
                base_url.bv(),
                pairs_view(override_endpoint_urls@),
            ) matches Err(e2) && e == e2,
    {
        let ghost cv = config_view(config);
        let ghost base = base_url.bv();
        let ghost ov = pairs_view(override_endpoint_urls@);
        let mut prepared_global_labels: Vec<PreparedGlobalLabels> = Vec::new();
        let mut i: usize = 0;
        proof {
            assert(cv.global_labels.skip(0) =~= cv.global_labels);
        }
        while i < config.global_labels.len()
            invariant
                i <= config.global_labels@.len(),
                spec_prepare_globals(cv.global_labels, base) == prepend_ok(
                    prepared_globals_view(prepared_global_labels@),
                    spec_prepare_globals(cv.global_labels.skip(i as int), base),
                ),
            decreases config.global_labels@.len() - i,
        {
            let ghost prev = prepared_globals_view(prepared_global_labels@);
            proof {
                assert(cv.global_labels.skip(i as int)[0] == global_view(
                    &config.global_labels@[i as int],
                ));
                assert(cv.global_labels.skip(i as int).drop_first() =~= cv.global_labels.skip(
                    i as int + 1,
                ));
            }
            match PreparedGlobalLabels::create_from(&config.global_labels[i], base_url) {
                Err(e) => {
                    return Err(e);
                },
                Ok(pg) => {
                    prepared_global_labels.push(pg);
                    proof {
                        let p = prepared_globals_view(prepared_global_labels@).last();
                        assert(prepared_globals_view(prepared_global_labels@) =~= prev.push(p));
                        if spec_prepare_globals(cv.global_labels.skip(i as int + 1), base) is Ok {
                            let rest = spec_prepare_globals(
                                cv.global_labels.skip(i as int + 1),
                                base,
                            )->Ok_0;
                            assert(prev.push(p) + rest =~= prev + (seq![p] + rest));
                        }
                        assert(spec_prepare_globals(cv.global_labels, base) == prepend_ok(
                            prepared_globals_view(prepared_global_labels@),
                            spec_prepare_globals(cv.global_labels.skip(i as int + 1), base),
                        ));
                    }
                },
            }
            i = i + 1;
        }
        proof {
            assert(cv.global_labels.skip(config.global_labels@.len() as int) =~= Seq::<
                (Seq<char>, Seq<(Seq<char>, Seq<char>)>),
            >::empty());
        }
        let mut prepared_endpoints: Vec<PreparedEndpoint> = Vec::new();
        let mut i: usize = 0;
        proof {
            assert(cv.endpoints.skip(0) =~= cv.endpoints);
        }
        while i < config.endpoints.len()
            invariant
                i <= config.endpoints@.len(),
                spec_prepare_globals(cv.global_labels, base) is Ok,
                prepared_globals_view(prepared_global_labels@) == spec_prepare_globals(
                    cv.global_labels,
                    base,
                )->Ok_0,
                spec_prepare_endpoints(cv.endpoints, base, ov) == prepend_ok(
                    prepared_endpoints_view(prepared_endpoints@),
                    spec_prepare_endpoints(cv.endpoints.skip(i as int), base, ov),
                ),
            decreases config.endpoints@.len() - i,
        {
            let ghost prev = prepared_endpoints_view(prepared_endpoints@);
            proof {
                assert(cv.endpoints.skip(i as int)[0] == endpoint_view(
                    &config.endpoints@[i as int],
                ));
                assert(cv.endpoints.skip(i as int).drop_first() =~= cv.endpoints.skip(
                    i as int + 1,
                ));
            }
            let endpoint = &config.endpoints[i];
            let mut override_url: Option<&String> = None;
            match &endpoint.id {
                Some(id) => {
                    match crate::urls::find_override(override_endpoint_urls, id.as_str()) {
                        Some(ix) => {
                            override_url = Some(&override_endpoint_urls[ix].1);
                        },
                        None => {},
                    }
                },
                None => {},
            }
            proof {
                assert((match override_url {
                    Some(o) => Some(o@),
                    None => None,
                }) == spec_override_for(cv.endpoints.skip(i as int)[0], ov));
            }
            match PreparedEndpoint::create_from(endpoint, base_url, override_url) {
                Err(e) => {
                    return Err(e);
                },
                Ok(pe) => {
                    prepared_endpoints.push(pe);
                    proof {
                        let p = prepared_endpoints_view(prepared_endpoints@).last();
                        assert(prepared_endpoints_view(prepared_endpoints@) =~= prev.push(p));
                        if spec_prepare_endpoints(cv.endpoints.skip(i as int + 1), base, ov)
                            is Ok {
                            let rest = spec_prepare_endpoints(
                                cv.endpoints.skip(i as int + 1),
                                base,
                                ov,
                            )->Ok_0;
                            assert(prev.push(p) + rest =~= prev + (seq![p] + rest));
                        }
                        assert(spec_prepare_endpoints(cv.endpoints, base, ov) == prepend_ok(
                            prepared_endpoints_view(prepared_endpoints@),
                            spec_prepare_endpoints(cv.endpoints.skip(i as int + 1), base, ov),
                        ));
                    }
                },
            }
            i = i + 1;
        }
        proof {
            assert(cv.endpoints.skip(config.endpoints@.len() as int) =~= Seq::<EndpointV>::empty());
        }
        let namespace: Option<String> = match &config.namespace {
            Some(s) => Some(s.clone()),
            None => None,
        };
        let r = PreparedConfig {
            namespace,
            global_labels: prepared_global_labels,
            endpoints: prepared_endpoints,
        };
        proof {
            let v = spec_prepare_config(cv, base, ov)->Ok_0;
            assert(r.pcv() =~~= v);
        }
        Ok(r)
    }
}

impl Config {
    /// Compiles this configuration against a base URL and the command
    /// line's endpoint URL overrides.
    pub fn prepare(&self, base_url: &BaseUrl, override_endpoint_urls: &Vec<(String, String)>) -> (r:
        Result<PreparedConfig, ConfigError>)
        ensures
            r is Ok <==> spec_prepare_config(
                config_view(self),
                base_url.bv(),
                pairs_view(override_endpoint_urls@),
            ) is Ok,
            r matches Ok(pc) ==> spec_prepare_config(
                config_view(self),
                base_url.bv(),
                pairs_view(override_endpoint_urls@),
            ) matches Ok(v) && pc.pcv() == v,
            r matches Err(e) ==> spec_prepare_config(
                config_view(self),
                base_url.bv(),
                pairs_view(override_endpoint_urls@),
            ) matches Err(e2) && e == e2,
    {
        PreparedConfig::create_from(self, base_url, override_endpoint_urls)
    }
}

} // verus!
