use vstd::prelude::*;

use crate::config::{pairs_view, MetricType};
use crate::filters::{spec_apply, FilterError, FilterV, PreparedFilter};
use crate::json::{JsonValue, JV};
use crate::labels::{
    label_insert,
    label_lookup,
    label_or_insert,
    lemma_insert_sorted,
    inherit_sorted_label,
    set_sorted_label,
    sorted_labels,
};
use crate::prepare::{
    prepared_metrics_view,
    spec_apply_template,
    PlaceV,
    PreparedEndpoint,
    PreparedLabels,
    PreparedMetric,
    PreparedMetricV,
    PreparedMetrics,
    ResolveError,
};
use crate::selector::{sel_find, steps_view, FoundMatch, StepV};
use crate::text::{dec_str, escape_label_value, escape_text, push_char, u64_to_string};

verus! {

/// How loud a message of the extraction engine is.
#[derive(Clone, Copy, PartialEq, Eq, Structural, Debug)]
pub enum Level {
    Error,
    Warn,
    Info,
    Debug,
    Trace,
}

pub open spec fn warns_view(ws: Seq<(Level, String)>) -> Seq<(Level, Seq<char>)> {
    Seq::new(ws.len(), |i: int| if 0 <= i < ws.len() {
        (ws[i].0, ws[i].1@)
    } else {
        (Level::Warn, Seq::empty())
    })
}

/// Spec-level form of a resolved metric.
#[verifier::ext_equal]
pub ghost struct RMetricV {
    pub name: Seq<char>,
    pub metric_type: Option<MetricType>,
    pub labels: Seq<(Seq<char>, Seq<char>)>,
}

/// A metric instance with a concrete name, type and labels, ready to emit.
/// Labels are held sorted by key.
#[derive(Debug)]
pub struct ResolvedMetric {
    pub name: String,
    pub metric_type: Option<MetricType>,
    pub labels: Vec<(String, String)>,
}

impl ResolvedMetric {
    pub open spec fn rv(&self) -> RMetricV {
        RMetricV {
            name: self.name@,
            metric_type: self.metric_type,
            labels: pairs_view(self.labels@),
        }
    }

    /// The labels stand sorted strictly by key.
    pub open spec fn wf(&self) -> bool {
        sorted_labels(pairs_view(self.labels@))
    }
}

/// The labels a list of pairs settles into, each set in turn.
pub open spec fn root_labels(ps: Seq<(Seq<char>, Seq<char>)>) -> Seq<(Seq<char>, Seq<char>)>
    decreases ps.len(),
{
    if ps.len() == 0 {
        Seq::empty()
    } else {
        label_insert(root_labels(ps.drop_last()), ps.last().0, ps.last().1)
    }
}

impl ResolvedMetric {
    /// The root context of an emission: the namespace as its name, no
    /// type, and the given pairs as labels.
    #[verifier::loop_isolation(false)]
    pub fn new_root(name: String, labels: Vec<(String, String)>) -> (r: ResolvedMetric)
        ensures
            r.rv().name == name@,
            r.rv().metric_type is None,
            r.rv().labels == root_labels(pairs_view(labels@)),
            r.wf(),
    {
        let ghost psv = pairs_view(labels@);
        let mut sorted: Vec<(String, String)> = Vec::new();
        let mut i: usize = 0;
        proof {
            assert(pairs_view(sorted@) =~= Seq::<(Seq<char>, Seq<char>)>::empty());
            assert(psv.take(0) =~= Seq::<(Seq<char>, Seq<char>)>::empty());
            assert(root_labels(psv.take(0)) =~= Seq::<(Seq<char>, Seq<char>)>::empty());
        }
        while i < labels.len()
            invariant
                i <= labels@.len(),
                pairs_view(sorted@) == root_labels(psv.take(i as int)),
                sorted_labels(pairs_view(sorted@)),
            decreases labels@.len() - i,
        {
            proof {
                assert(psv.take(i + 1 as int).drop_last() =~= psv.take(i as int));
                assert(psv.take(i + 1 as int).last() == psv[i as int]);
                lemma_insert_sorted(pairs_view(sorted@), psv[i as int].0, psv[i as int].1);
            }
            let k = labels[i].0.clone();
            let v = labels[i].1.clone();
            set_sorted_label(&mut sorted, k, v);
            i = i + 1;
        }
        proof {
            assert(psv.take(labels@.len() as int) =~= psv);
        }
        ResolvedMetric { name, metric_type: None, labels: sorted }
    }
}

/// The labels a child keeps after inheriting from a parent: each parent
/// label fills its key only where the child left it unset.
pub open spec fn inherit_all(
    child: Seq<(Seq<char>, Seq<char>)>,
    parent: Seq<(Seq<char>, Seq<char>)>,
) -> Seq<(Seq<char>, Seq<char>)>
    decreases parent.len(),
{
    if parent.len() == 0 {
        child
    } else {
        inherit_all(label_or_insert(child, parent[0].0, parent[0].1), parent.drop_first())
    }
}

/// The name a merged metric carries: the parent's name, an underscore and
/// the child's name, with an empty side absorbed.
pub open spec fn merged_name(parent: Seq<char>, child: Seq<char>) -> Seq<char> {
    if parent.len() == 0 {
        child
    } else if child.len() == 0 {
        parent
    } else {
        parent + seq!['_'] + child
    }
}

/// What merging a resolved metric with its parent context yields.
pub open spec fn spec_merge(child: RMetricV, parent: RMetricV) -> RMetricV {
    RMetricV {
        name: merged_name(parent.name, child.name),
        metric_type: child.metric_type,
        labels: inherit_all(child.labels, parent.labels),
    }
}

pub proof fn lemma_inherit_all_sorted(
    child: Seq<(Seq<char>, Seq<char>)>,
    parent: Seq<(Seq<char>, Seq<char>)>,
)
    requires
        sorted_labels(child),
    ensures
        sorted_labels(inherit_all(child, parent)),
    decreases parent.len(),
{
    if parent.len() > 0 {
        lemma_insert_sorted(child, parent[0].0, parent[0].1);
        lemma_inherit_all_sorted(
            label_or_insert(child, parent[0].0, parent[0].1),
            parent.drop_first(),
        );
    }
}

impl ResolvedMetric {
    /// Joins this metric with the context it was resolved under: the names
    /// joined with an underscore, an empty side absorbed, and the parent's
    /// labels inherited where this metric sets no value of its own.
    #[verifier::loop_isolation(false)]
    pub fn merge_with_parent(self, parent: &ResolvedMetric) -> (r: ResolvedMetric)
        requires
            self.wf(),
        ensures
            r.rv() == spec_merge(self.rv(), parent.rv()),
            r.wf(),
    {
        let ghost childv = self.rv();
        let mut merged = self;
        if parent.name.unicode_len() == 0 {
        } else if merged.name.unicode_len() == 0 {
            merged.name = parent.name.clone();
        } else {
            let mut joined = parent.name.clone();
            push_char(&mut joined, '_');
            joined.append(merged.name.as_str());
            merged.name = joined;
        }
        let ghost parentv = pairs_view(parent.labels@);
        let mut i: usize = 0;
        proof {
            assert(parentv.skip(0) =~= parentv);
        }
        while i < parent.labels.len()
            invariant
                i <= parent.labels@.len(),
                sorted_labels(pairs_view(merged.labels@)),
                inherit_all(pairs_view(merged.labels@), parentv.skip(i as int)) == inherit_all(
                    childv.labels,
                    parentv,
                ),
                merged.name@ == merged_name(parent.rv().name, childv.name),
                merged.metric_type == childv.metric_type,
            decreases parent.labels@.len() - i,
        {
            proof {
                assert(parentv.skip(i as int)[0] == parentv[i as int]);
                assert(parentv.skip(i as int).drop_first() =~= parentv.skip(i as int + 1));
                lemma_insert_sorted(
                    pairs_view(merged.labels@),
                    parentv[i as int].0,
                    parentv[i as int].1,
                );
            }
            let k = parent.labels[i].0.clone();
            let v = parent.labels[i].1.clone();
            inherit_sorted_label(&mut merged.labels, k, v);
            i = i + 1;
        }
        proof {
            assert(parentv.skip(parent.labels@.len() as int) =~= Seq::<
                (Seq<char>, Seq<char>),
            >::empty());
        }
        merged
    }
}

/// The name derived from a match path where a metric declares none: the
/// steps past the root joined with underscores, a key as itself and an
/// array position in decimal.
pub open spec fn step_name(s: StepV) -> Seq<char> {
    match s {
        StepV::Root => Seq::empty(),
        StepV::Key(k) => k,
        StepV::Index(i) => dec_str(i as nat),
    }
}

pub open spec fn name_from_path(path: Seq<StepV>) -> Seq<char>
    decreases path.len(),
{
    if path.len() == 0 {
        Seq::empty()
    } else {
        name_from_path(path.drop_last()) + (if path.len() - 1 > 1 {
            seq!['_']
        } else {
            Seq::empty()
        }) + step_name(path.last())
    }
}

/// Derives a metric name from a match path.
#[verifier::loop_isolation(false)]
pub fn derive_name_from_path(path: &Vec<crate::selector::Step>) -> (r: String)
    ensures
        r@ == name_from_path(steps_view(path@)),
{
    let ghost pv = steps_view(path@);
    let mut out = String::new();
    let mut i: usize = 0;
    proof {
        assert(pv.take(0) =~= Seq::<StepV>::empty());
    }
    while i < path.len()
        invariant
            i <= path@.len(),
            out@ == name_from_path(pv.take(i as int)),
        decreases path@.len() - i,
    {
        proof {
            assert(pv.take(i + 1 as int).drop_last() =~= pv.take(i as int));
            assert(pv.take(i + 1 as int).last() == path@[i as int].sv());
        }
        if i > 1 {
            push_char(&mut out, '_');
        }
        match &path[i] {
            crate::selector::Step::Root => {},
            crate::selector::Step::Key(k) => {
                out.append(k.as_str());
            },
            crate::selector::Step::Index(x) => {
                let digits = u64_to_string(*x);
                out.append(digits.as_str());
            },
        }
        i = i + 1;
    }
    proof {
        assert(pv.take(path@.len() as int) =~= pv);
    }
    out
}


/// What resolving the labels of one match yields: each label's template
/// evaluated, its value escaped, and the result set under the label's
/// name, keys kept sorted; or the first error.
pub open spec fn srl(
    ls: Seq<(Seq<char>, Seq<PlaceV>)>,
    value: JV,
    path: Seq<StepV>,
    acc: Seq<(Seq<char>, Seq<char>)>,
) -> Result<Seq<(Seq<char>, Seq<char>)>, ResolveError>
    decreases ls.len(),
{
    if ls.len() == 0 {
        Ok(acc)
    } else {
        match spec_apply_template(ls[0].1, value, path) {
            Err(e) => Err(e),
            Ok(v) => srl(ls.drop_first(), value, path, label_insert(acc, ls[0].0, escape_text(v))),
        }
    }
}

pub open spec fn spec_resolve_labels(
    ls: Seq<(Seq<char>, Seq<PlaceV>)>,
    value: JV,
    path: Seq<StepV>,
) -> Result<Seq<(Seq<char>, Seq<char>)>, ResolveError> {
    srl(ls, value, path, Seq::empty())
}

pub proof fn lemma_srl_sorted(
    ls: Seq<(Seq<char>, Seq<PlaceV>)>,
    value: JV,
    path: Seq<StepV>,
    acc: Seq<(Seq<char>, Seq<char>)>,
)
    requires
        sorted_labels(acc),
    ensures
        srl(ls, value, path, acc) matches Ok(r) ==> sorted_labels(r),
    decreases ls.len(),
{
    if ls.len() > 0 {
        match spec_apply_template(ls[0].1, value, path) {
            Err(e) => {},
            Ok(v) => {
                lemma_insert_sorted(acc, ls[0].0, escape_text(v));
                lemma_srl_sorted(
                    ls.drop_first(),
                    value,
                    path,
                    label_insert(acc, ls[0].0, escape_text(v)),
                );
            },
        }
    }
}

impl PreparedLabels {
    /// Resolves this label list against one match: each value template
    /// evaluated and the value escaped, under sorted keys.
    #[verifier::loop_isolation(false)]
    pub fn resolve(&self, found: &FoundMatch) -> (r: Result<Vec<(String, String)>, ResolveError>)
        ensures
            r is Ok <==> spec_resolve_labels(
                self.plsv(),
                found.value.jv(),
                steps_view(found.path@),
            ) is Ok,
            r matches Ok(ls) ==> spec_resolve_labels(
                self.plsv(),
                found.value.jv(),
                steps_view(found.path@),
            ) matches Ok(v) && pairs_view(ls@) == v && sorted_labels(pairs_view(ls@)),
            r matches Err(e) ==> spec_resolve_labels(
                self.plsv(),
                found.value.jv(),
                steps_view(found.path@),
            ) matches Err(e2) && e == e2,
    {
        let ghost lsv = self.plsv();
        let ghost value = found.value.jv();
        let ghost path = steps_view(found.path@);
        let mut acc: Vec<(String, String)> = Vec::new();
        let mut i: usize = 0;
        proof {
            assert(pairs_view(acc@) =~= Seq::<(Seq<char>, Seq<char>)>::empty());
            assert(lsv.skip(0) =~= lsv);
        }
        while i < self.labels.len()
            invariant
                i <= self.labels@.len(),
                sorted_labels(pairs_view(acc@)),
                srl(lsv.skip(i as int), value, path, pairs_view(acc@)) == spec_resolve_labels(
                    lsv,
                    value,
                    path,
                ),
            decreases self.labels@.len() - i,
        {
            proof {
                assert(lsv.skip(i as int)[0] == self.labels@[i as int].plv());
                assert(lsv.skip(i as int).drop_first() =~= lsv.skip(i as int + 1));
            }
            match self.labels[i].value_processor.apply(found) {
                Err(e) => {
                    return Err(e);
                },
                Ok(label_value) => {
                    let escapes = crate::text::should_escape_label_value(label_value.as_str());
                    let safe_value = if escapes == 0 {
                        proof {
                            crate::text::lemma_escape_identity(label_value@);
                        }
                        label_value
                    } else {
                        escape_label_value(label_value.as_str())
                    };
                    proof {
                        lemma_insert_sorted(
                            pairs_view(acc@),
                            self.labels@[i as int].name@,
                            safe_value@,
                        );
                    }
                    let name = self.labels[i].name.clone();
                    set_sorted_label(&mut acc, name, safe_value);
                },
            }
            i = i + 1;
        }
        proof {
            assert(lsv.skip(self.labels@.len() as int) =~= Seq::<
                (Seq<char>, Seq<PlaceV>),
            >::empty());
        }
        Ok(acc)
    }
}

/// What resolving one match into a metric instance yields: the name from
/// its template, or derived from the path where the metric declares no
/// name; the metric's type; and its labels resolved.
pub open spec fn spec_resolve(m: PreparedMetricV, value: JV, path: Seq<StepV>) -> Result<
    RMetricV,
    ResolveError,
> {
    let name = match m.name_tmpl {
        Some(t) => spec_apply_template(t, value, path),
        None => Ok(name_from_path(path)),
    };
    match name {
        Err(e) => Err(e),
        Ok(n) => match spec_resolve_labels(m.labels, value, path) {
            Err(e) => Err(e),
            Ok(ls) => Ok(RMetricV { name: n, metric_type: m.metric_type, labels: ls }),
        },
    }
}

impl PreparedMetric {
    /// Resolves one match of this metric's selector into a metric
    /// instance.
    pub fn resolve(&self, found: &FoundMatch) -> (r: Result<ResolvedMetric, ResolveError>)
        ensures
            r is Ok <==> spec_resolve(self.pmv(), found.value.jv(), steps_view(found.path@)) is Ok,
            r matches Ok(rm) ==> spec_resolve(self.pmv(), found.value.jv(), steps_view(found.path@))
                matches Ok(v) && rm.rv() == v && rm.wf(),
            r matches Err(e) ==> spec_resolve(self.pmv(), found.value.jv(), steps_view(found.path@))
                matches Err(e2) && e == e2,
    {
        let name = match &self.name_processor {
            Some(name_processor) => {
                match name_processor.apply(found) {
                    Ok(n) => n,
                    Err(e) => {
                        return Err(e);
                    },
                }
            },
            None => derive_name_from_path(&found.path),
        };
        match self.labels.resolve(found) {
            Err(e) => Err(e),
            Ok(ls) => {
                proof {
                    if spec_resolve_labels(
                        self.pmv().labels,
                        found.value.jv(),
                        steps_view(found.path@),
                    ) is Ok {
                        lemma_srl_sorted(
                            self.pmv().labels,
                            found.value.jv(),
                            steps_view(found.path@),
                            Seq::empty(),
                        );
                    }
                }
                Ok(ResolvedMetric { name, metric_type: self.metric_type, labels: ls })
            },
        }
    }
}

/// The type a sample is emitted with: the declared type, else the type
/// already seen for the name, else one inferred from the value — a number
/// or boolean as a gauge, a string as untyped. A declared type that
/// disagrees with the seen one, or a value of another kind, yields none.
pub open spec fn decide_type(
    declared: Option<MetricType>,
    seen: Option<MetricType>,
    v: JV,
) -> Option<MetricType> {
    match (declared, seen) {
        (Some(m), None) => Some(m),
        (None, Some(s)) => Some(s),
        (Some(m), Some(s)) => if m == s {
            Some(s)
        } else {
            None
        },
        (None, None) => match v {
            JV::Str(_) => Some(MetricType::Untyped),
            JV::Num(_) => Some(MetricType::Gauge),
            JV::Bool(_) => Some(MetricType::Gauge),
            _ => None,
        },
    }
}

/// Whether a value may be written under a type: numbers always; booleans
/// under gauge or untyped; strings only untyped.
pub open spec fn check_value_spec(v: JV, t: MetricType) -> bool {
    match v {
        JV::Num(_) => true,
        JV::Bool(_) => t != MetricType::Counter,
        JV::Str(_) => t == MetricType::Untyped,
        _ => false,
    }
}

/// The rendered sample value: a number's canonical text, a boolean as 1
/// or 0, a string verbatim.
pub open spec fn render_value(v: JV) -> Seq<char> {
    match v {
        JV::Num(t) => t,
        JV::Bool(b) => if b {
            seq!['1']
        } else {
            seq!['0']
        },
        JV::Str(s) => s,
        _ => Seq::empty(),
    }
}

/// One emitted sample line: whether it carries a `# TYPE` header, the
/// type it was emitted under, and its name, labels and rendered value.
#[verifier::ext_equal]
pub ghost struct LineV {
    pub header: bool,
    pub mtype: MetricType,
    pub name: Seq<char>,
    pub labels: Seq<(Seq<char>, Seq<char>)>,
    pub value: Seq<char>,
}

/// What one dump yields: nothing when no type can be decided or the value
/// does not fit it; else the line, with a header exactly when the name has
/// not been seen.
pub open spec fn spec_dump(rm: RMetricV, v: JV, seen: Option<MetricType>) -> Option<LineV> {
    match decide_type(rm.metric_type, seen, v) {
        None => None,
        Some(t) => if !check_value_spec(v, t) {
            None
        } else {
            Some(
                LineV {
                    header: seen is None,
                    mtype: t,
                    name: rm.name,
                    labels: rm.labels,
                    value: render_value(v),
                },
            )
        },
    }
}

/// The label block text: `k="v"` pairs joined with commas.
pub open spec fn label_pair_text(l: (Seq<char>, Seq<char>)) -> Seq<char> {
    l.0 + seq!['=', '"'] + l.1 + seq!['"']
}

pub open spec fn label_pairs_text(ls: Seq<(Seq<char>, Seq<char>)>) -> Seq<char>
    decreases ls.len(),
{
    if ls.len() == 0 {
        Seq::empty()
    } else if ls.len() == 1 {
        label_pair_text(ls[0])
    } else {
        label_pairs_text(ls.drop_last()) + seq![','] + label_pair_text(ls.last())
    }
}

pub open spec fn render_labels(ls: Seq<(Seq<char>, Seq<char>)>) -> Seq<char> {
    if ls.len() == 0 {
        Seq::empty()
    } else {
        seq!['{'] + label_pairs_text(ls) + seq!['}']
    }
}

/// The text of one emitted line, header included where it carries one.
pub open spec fn render_line(l: LineV) -> Seq<char> {
    (if l.header {
        "# TYPE "@ + l.name + seq![' '] + l.mtype.keyword_spec() + seq!['\n']
    } else {
        Seq::empty()
    }) + l.name + render_labels(l.labels) + seq![' '] + l.value + seq!['\n']
}

pub open spec fn render_lines(ls: Seq<LineV>) -> Seq<char>
    decreases ls.len(),
{
    if ls.len() == 0 {
        Seq::empty()
    } else {
        render_line(ls[0]) + render_lines(ls.drop_first())
    }
}

pub proof fn lemma_render_lines_concat(a: Seq<LineV>, b: Seq<LineV>)
    ensures
        render_lines(a + b) == render_lines(a) + render_lines(b),
    decreases a.len(),
{
    if a.len() == 0 {
        assert(a + b =~= b);
        assert(render_lines(a) + render_lines(b) =~= render_lines(b));
    } else {
        assert((a + b).drop_first() =~= a.drop_first() + b);
        lemma_render_lines_concat(a.drop_first(), b);
        assert((a + b)[0] == a[0]);
        assert(render_lines(a + b) =~= render_lines(a) + render_lines(b));
    }
}

impl ResolvedMetric {
    /// Writes one label value, quoted.
    pub fn dump_label_value(&self, value: &str, buf: &mut String)
        ensures
            final(buf)@ == old(buf)@ + seq!['"'] + value@ + seq!['"'],
    {
        push_char(buf, '"');
        buf.append(value);
        push_char(buf, '"');
    }

    /// Writes the sample's name and its label block.
    #[verifier::loop_isolation(false)]
    pub fn dump_metric(&self, buf: &mut String)
        ensures
            final(buf)@ == old(buf)@ + self.rv().name + render_labels(self.rv().labels),
    {
        buf.append(self.name.as_str());
        if self.labels.len() > 0 {
            let ghost lsv = pairs_view(self.labels@);
            push_char(buf, '{');
            let ghost base = buf@;
            let mut i: usize = 0;
            proof {
                assert(lsv.take(0) =~= Seq::<(Seq<char>, Seq<char>)>::empty());
            }
            while i < self.labels.len()
                invariant
                    i <= self.labels@.len(),
                    buf@ == base + label_pairs_text(lsv.take(i as int)),
                decreases self.labels@.len() - i,
            {
                proof {
                    assert(lsv.take(i + 1 as int).drop_last() =~= lsv.take(i as int));
                    assert(lsv.take(i + 1 as int).last() == lsv[i as int]);
                    assert(lsv.take(i + 1 as int)[0] == lsv[0]);
                }
                if i > 0 {
                    push_char(buf, ',');
                }
                buf.append(self.labels[i].0.as_str());
                push_char(buf, '=');
                self.dump_label_value(self.labels[i].1.as_str(), buf);
                i = i + 1;
            }
            proof {
                assert(lsv.take(self.labels@.len() as int) =~= lsv);
            }
            push_char(buf, '}');
            proof {
                assert(buf@ =~= old(buf)@ + self.rv().name + render_labels(self.rv().labels));
            }
        } else {
            proof {
                assert(buf@ =~= old(buf)@ + self.rv().name + render_labels(self.rv().labels));
            }
        }
    }

    /// Whether the value may be written under the type.
    pub fn check_value(&self, value: &JsonValue, metric_type: MetricType) -> (r: bool)
        ensures
            r == check_value_spec(value.jv(), metric_type),
    {
        match value {
            JsonValue::Num(_) => true,
            JsonValue::Bool(_) => match metric_type {
                MetricType::Gauge => true,
                MetricType::Untyped => true,
                MetricType::Counter => false,
            },
            JsonValue::Str(_) => match metric_type {
                MetricType::Untyped => true,
                MetricType::Gauge => false,
                MetricType::Counter => false,
            },
            _ => false,
        }
    }

    /// Writes the sample's value.
    pub fn dump_value(&self, value: &JsonValue, buf: &mut String)
        requires
            value.is_scalar_spec(),
        ensures
            final(buf)@ == old(buf)@ + render_value(value.jv()),
    {
        match value {
            JsonValue::Num(v) => {
                buf.append(v.as_str());
            },
            JsonValue::Bool(b) => {
                if *b {
                    push_char(buf, '1');
                } else {
                    push_char(buf, '0');
                }
            },
            JsonValue::Str(v) => {
                buf.append(v.as_str());
            },
            _ => {
                proof {
                    assert(false);
                }
            },
        }
    }

    /// Writes one sample: decides the effective type, checks the value
    /// against it, writes the `# TYPE` header where the name is new, then
    /// the sample line. Hands back the type written, or nothing when the
    /// sample is dropped, leaving the buffer untouched.
    pub fn dump(&self, value: &JsonValue, seen_metric_type: Option<MetricType>, buf: &mut String)
        -> (r: Option<MetricType>)
        ensures
            r is Some <==> spec_dump(self.rv(), value.jv(), seen_metric_type) is Some,
            r matches Some(t) ==> spec_dump(self.rv(), value.jv(), seen_metric_type) matches Some(
                line,
            ) && t == line.mtype && final(buf)@ == old(buf)@ + render_line(line),
            r is None ==> final(buf)@ == old(buf)@,
    {
        proof {
            reveal_strlit("# TYPE ");
        }
        let metric_type: MetricType = match (self.metric_type, seen_metric_type) {
            (Some(mtype), None) => mtype,
            (None, Some(mtype)) => mtype,
            (Some(mtype), Some(seen)) => {
                if mtype != seen {
                    return None;
                }
                seen
            },
            (None, None) => {
                match value {
                    JsonValue::Str(_) => MetricType::Untyped,
                    JsonValue::Num(_) => MetricType::Gauge,
                    JsonValue::Bool(_) => MetricType::Gauge,
                    _ => {
                        return None;
                    },
                }
            },
        };
        if !self.check_value(value, metric_type) {
            return None;
        }
        if seen_metric_type.is_none() {
            buf.append("# TYPE ");
            buf.append(self.name.as_str());
            push_char(buf, ' ');
            buf.append(metric_type.keyword());
            push_char(buf, '\n');
        }
        self.dump_metric(buf);
        push_char(buf, ' ');
        self.dump_value(value, buf);
        push_char(buf, '\n');
        proof {
            let line = spec_dump(self.rv(), value.jv(), seen_metric_type)->Some_0;
            assert(buf@ =~= old(buf)@ + render_line(line));
        }
        Some(metric_type)
    }
}


/// The type already emitted for a name, if any.
pub open spec fn seen_lookup(seen: Seq<(Seq<char>, MetricType)>, name: Seq<char>) -> Option<
    MetricType,
>
    decreases seen.len(),
{
    if seen.len() == 0 {
        None
    } else if seen[0].0 == name {
        Some(seen[0].1)
    } else {
        seen_lookup(seen.drop_first(), name)
    }
}

pub open spec fn seen_view(sv: Seq<(String, MetricType)>) -> Seq<(Seq<char>, MetricType)> {
    Seq::new(sv.len(), |i: int| if 0 <= i < sv.len() {
        (sv[i].0@, sv[i].1)
    } else {
        (Seq::empty(), MetricType::Gauge)
    })
}

pub open spec fn filter_warn_text(e: FilterError) -> Seq<char> {
    "Error when applying filter: "@ + (match e {
        FilterError::InvalidType => "Invalid type"@,
    })
}

pub open spec fn dump_warn_text(name: Seq<char>) -> Seq<char> {
    "Error when dumping metric: "@ + name
}

/// What running the filter chain left to right yields: the transformed
/// value, or the first filter's refusal.
pub open spec fn spec_apply_filters(fs: Seq<FilterV>, v: JV) -> Result<JV, FilterError>
    decreases fs.len(),
{
    if fs.len() == 0 {
        Ok(v)
    } else {
        match spec_apply(fs[0], v) {
            Err(e) => Err(e),
            Ok(v2) => spec_apply_filters(fs.drop_first(), v2),
        }
    }
}

/// What one leaf sample contributes: a warning and no line when a filter
/// refuses the value or the dump drops it; else its line, the name's type
/// recorded on first emission.
pub open spec fn emit_sample(
    filters: Seq<FilterV>,
    jv0: JV,
    rm: RMetricV,
    seen: Seq<(Seq<char>, MetricType)>,
) -> (Seq<LineV>, Seq<(Level, Seq<char>)>, Seq<(Seq<char>, MetricType)>) {
    match spec_apply_filters(filters, jv0) {
        Err(e) => (Seq::empty(), seq![(Level::Warn, filter_warn_text(e))], seen),
        Ok(v) => {
            let st = seen_lookup(seen, rm.name);
            match spec_dump(rm, v, st) {
                None => (Seq::empty(), seq![(Level::Warn, dump_warn_text(rm.name))], seen),
                Some(line) => (
                    seq![line],
                    Seq::empty(),
                    if st is None {
                        seen.push((rm.name, line.mtype))
                    } else {
                        seen
                    },
                ),
            }
        },
    }
}

/// What a leaf metric's whole context list contributes, in order.
pub open spec fn emit_samples(
    filters: Seq<FilterV>,
    state: Seq<(JV, RMetricV)>,
    seen: Seq<(Seq<char>, MetricType)>,
) -> (Seq<LineV>, Seq<(Level, Seq<char>)>, Seq<(Seq<char>, MetricType)>)
    decreases state.len(),
{
    if state.len() == 0 {
        (Seq::empty(), Seq::empty(), seen)
    } else {
        let first = emit_sample(filters, state[0].0, state[0].1, seen);
        let rest = emit_samples(filters, state.drop_first(), first.2);
        (first.0 + rest.0, first.1 + rest.1, rest.2)
    }
}

/// What resolving a metric against the matches under one parent yields:
/// each match resolved and merged with the parent, a failing match skipped
/// with a warning.
pub open spec fn resolve_matches(
    m: PreparedMetricV,
    ms: Seq<(JV, Seq<StepV>)>,
    pm: RMetricV,
) -> (Seq<(JV, RMetricV)>, Seq<(Level, Seq<char>)>)
    decreases ms.len(),
{
    if ms.len() == 0 {
        (Seq::empty(), Seq::empty())
    } else {
        let rest = resolve_matches(m, ms.drop_first(), pm);
        match spec_resolve(m, ms[0].0, ms[0].1) {
            Ok(rm) => (seq![(ms[0].0, spec_merge(rm, pm))] + rest.0, rest.1),
            Err(e) => (rest.0, seq![(Level::Warn, e.msg_spec())] + rest.1),
        }
    }
}

/// What resolving a metric against its whole parent context yields: the
/// selector run within each parent's value, in order.
pub open spec fn resolve_ctx(m: PreparedMetricV, ctx: Seq<(JV, RMetricV)>) -> (
    Seq<(JV, RMetricV)>,
    Seq<(Level, Seq<char>)>,
)
    decreases ctx.len(),
{
    if ctx.len() == 0 {
        (Seq::empty(), Seq::empty())
    } else {
        let first = resolve_matches(m, sel_find(m.selector, ctx[0].0, seq![StepV::Root]), ctx[0].1);
        let rest = resolve_ctx(m, ctx.drop_first());
        (first.0 + rest.0, first.1 + rest.1)
    }
}

/// What one metric of the plan contributes: its context resolved; a leaf
/// emits one sample per context entry, and a parent walks its children
/// under the resolved context.
pub open spec fn emit_metric(
    m: PreparedMetricV,
    ctx: Seq<(JV, RMetricV)>,
    seen: Seq<(Seq<char>, MetricType)>,
) -> (Seq<LineV>, Seq<(Level, Seq<char>)>, Seq<(Seq<char>, MetricType)>)
    decreases m, 0nat,
{
    let sw = resolve_ctx(m, ctx);
    if m.children.len() == 0 {
        let r = emit_samples(m.filters, sw.0, seen);
        (r.0, sw.1 + r.1, r.2)
    } else {
        let r = emit_list(m.children, sw.0, seen);
        (r.0, sw.1 + r.1, r.2)
    }
}

/// What one level of the plan contributes, metric by metric in
/// configuration order, the seen types threaded through.
pub open spec fn emit_list(
    ms: Seq<PreparedMetricV>,
    ctx: Seq<(JV, RMetricV)>,
    seen: Seq<(Seq<char>, MetricType)>,
) -> (Seq<LineV>, Seq<(Level, Seq<char>)>, Seq<(Seq<char>, MetricType)>)
    decreases ms, 1nat,
{
    if ms.len() == 0 {
        (Seq::empty(), Seq::empty(), seen)
    } else {
        let first = emit_metric(ms[0], ctx, seen);
        let rest = emit_list(ms.drop_first(), ctx, first.2);
        (first.0 + rest.0, first.1 + rest.1, rest.2)
    }
}

pub open spec fn ctx_view(ctx: Seq<(JsonValue, ResolvedMetric)>) -> Seq<(JV, RMetricV)> {
    Seq::new(ctx.len(), |i: int| if 0 <= i < ctx.len() {
        (ctx[i].0.jv(), ctx[i].1.rv())
    } else {
        (JV::Null, arbitrary())
    })
}

pub open spec fn ctx_wf(ctx: Seq<(JsonValue, ResolvedMetric)>) -> bool {
    forall|i: int| 0 <= i < ctx.len() ==> (#[trigger] ctx[i].1).wf()
}

impl ResolvedMetric {
    /// Structural copy; the copy has the same model.
    pub fn duplicate(&self) -> (r: ResolvedMetric)
        ensures
            r.rv() == self.rv(),
            self.wf() ==> r.wf(),
    {
        let mut labels: Vec<(String, String)> = Vec::new();
        let mut i: usize = 0;
        while i < self.labels.len()
            invariant
                i <= self.labels@.len(),
                labels@.len() == i,
                forall|j: int| 0 <= j < i ==> (#[trigger] labels@[j].0@, labels@[j].1@)
                    == pairs_view(self.labels@)[j],
            decreases self.labels@.len() - i,
        {
            let k = self.labels[i].0.clone();
            let v = self.labels[i].1.clone();
            labels.push((k, v));
            i = i + 1;
        }
        proof {
            assert(pairs_view(labels@) =~= pairs_view(self.labels@));
        }
        let r = ResolvedMetric { name: self.name.clone(), metric_type: self.metric_type, labels };
        proof {
            assert(r.rv() =~~= self.rv());
        }
        r
    }
}

/// Runs the filter chain on one value.
#[verifier::loop_isolation(false)]
fn run_filters(filters: &Vec<PreparedFilter>, value: &JsonValue) -> (r: Result<
    JsonValue,
    FilterError,
>)
    ensures
        r is Ok <==> spec_apply_filters(
            crate::prepare::prepared_filters_view(filters@),
            value.jv(),
        ) is Ok,
        r matches Ok(v) ==> spec_apply_filters(
            crate::prepare::prepared_filters_view(filters@),
            value.jv(),
        ) matches Ok(sv) && v.jv() == sv,
        r matches Err(e) ==> spec_apply_filters(
            crate::prepare::prepared_filters_view(filters@),
            value.jv(),
        ) matches Err(e2) && e == e2,
{
    let ghost fv = crate::prepare::prepared_filters_view(filters@);
    let mut cur = value.duplicate();
    let mut i: usize = 0;
    proof {
        assert(fv.skip(0) =~= fv);
    }
    while i < filters.len()
        invariant
            i <= filters@.len(),
            spec_apply_filters(fv.skip(i as int), cur.jv()) == spec_apply_filters(fv, value.jv()),
        decreases filters@.len() - i,
    {
        proof {
            assert(fv.skip(i as int)[0] == filters@[i as int].fv());
            assert(fv.skip(i as int).drop_first() =~= fv.skip(i as int + 1));
        }
        match filters[i].apply(&cur) {
            Ok(v2) => {
                cur = v2;
            },
            Err(e) => {
                return Err(e);
            },
        }
        i = i + 1;
    }
    proof {
        assert(fv.skip(filters@.len() as int) =~= Seq::<FilterV>::empty());
    }
    Ok(cur)
}

/// Looks up the type already emitted for a name.
#[verifier::loop_isolation(false)]
fn seen_get(seen: &Vec<(String, MetricType)>, name: &String) -> (r: Option<MetricType>)
    ensures
        r == seen_lookup(seen_view(seen@), name@),
{
    let ghost sv = seen_view(seen@);
    let mut i: usize = 0;
    proof {
        assert(sv.skip(0) =~= sv);
    }
    while i < seen.len()
        invariant
            i <= seen@.len(),
            seen_lookup(sv.skip(i as int), name@) == seen_lookup(sv, name@),
        decreases seen@.len() - i,
    {
        proof {
            assert(sv.skip(i as int)[0] == sv[i as int]);
            assert(sv.skip(i as int).drop_first() =~= sv.skip(i as int + 1));
        }
        if crate::text::str_eq(seen[i].0.as_str(), name.as_str()) {
            return Some(seen[i].1);
        }
        i = i + 1;
    }
    proof {
        assert(sv.skip(seen@.len() as int) =~= Seq::<(Seq<char>, MetricType)>::empty());
    }
    None
}

/// Resolves a metric against the matches under one parent, appending the
/// resolved pairs and any warnings.
#[verifier::loop_isolation(false)]
fn resolve_matches_into(
    m: &PreparedMetric,
    finds: &Vec<FoundMatch>,
    parent: &ResolvedMetric,
    state: &mut Vec<(JsonValue, ResolvedMetric)>,
    warns: &mut Vec<(Level, String)>,
)
    requires
        parent.wf(),
    ensures
        ctx_view(final(state)@) == ctx_view(old(state)@) + resolve_matches(
            m.pmv(),
            crate::selector::matches_view(finds@),
            parent.rv(),
        ).0,
        warns_view(final(warns)@) == warns_view(old(warns)@) + resolve_matches(
            m.pmv(),
            crate::selector::matches_view(finds@),
            parent.rv(),
        ).1,
        ctx_wf(old(state)@) ==> ctx_wf(final(state)@),
{
    proof {
        reveal_strlit("Invalid path index: ");
        reveal_strlit("Root element is not supported");
    }
    let ghost mv = m.pmv();
    let ghost fvs = crate::selector::matches_view(finds@);
    let ghost pv = parent.rv();
    let ghost state0 = ctx_view(state@);
    let ghost warns0 = warns_view(warns@);
    let mut j: usize = 0;
    proof {
        assert(fvs.skip(0) =~= fvs);
    }
    while j < finds.len()
        invariant
            j <= finds@.len(),
            ctx_view(state@) + resolve_matches(mv, fvs.skip(j as int), pv).0 == state0
                + resolve_matches(mv, fvs, pv).0,
            warns_view(warns@) + resolve_matches(mv, fvs.skip(j as int), pv).1 == warns0
                + resolve_matches(mv, fvs, pv).1,
            ctx_wf(old(state)@) ==> ctx_wf(state@),
        decreases finds@.len() - j,
    {
        proof {
            assert(fvs.skip(j as int)[0] == finds@[j as int].mv());
            assert(fvs.skip(j as int).drop_first() =~= fvs.skip(j as int + 1));
        }
        match m.resolve(&finds[j]) {
            Ok(rm) => {
                let ghost sprev = ctx_view(state@);
                let merged = rm.merge_with_parent(parent);
                let dup = finds[j].value.duplicate();
                state.push((dup, merged));
                proof {
                    assert(ctx_view(state@) =~= sprev.push(
                        (finds@[j as int].value.jv(), merged.rv()),
                    ));
                    assert(sprev.push((finds@[j as int].value.jv(), merged.rv()))
                        + resolve_matches(mv, fvs.skip(j as int + 1), pv).0 =~= sprev + (seq![
                        (finds@[j as int].value.jv(), merged.rv()),
                    ] + resolve_matches(mv, fvs.skip(j as int + 1), pv).0));
                }
            },
            Err(e) => {
                let ghost wprev = warns_view(warns@);
                let msg = e.msg();
                warns.push((Level::Warn, msg));
                proof {
                    assert(warns_view(warns@) =~= wprev.push((Level::Warn, e.msg_spec())));
                    assert(wprev.push((Level::Warn, e.msg_spec())) + resolve_matches(
                        mv,
                        fvs.skip(j as int + 1),
                        pv,
                    ).1 =~= wprev + (seq![(Level::Warn, e.msg_spec())] + resolve_matches(
                        mv,
                        fvs.skip(j as int + 1),
                        pv,
                    ).1));
                }
            },
        }
        j = j + 1;
    }
    proof {
        assert(fvs.skip(finds@.len() as int) =~= Seq::<(JV, Seq<StepV>)>::empty());
        assert(ctx_view(state@) + Seq::<(JV, RMetricV)>::empty() =~= ctx_view(state@));
        assert(warns_view(warns@) + Seq::<(Level, Seq<char>)>::empty() =~= warns_view(warns@));
    }
}

/// Resolves a metric against its whole parent context.
#[verifier::loop_isolation(false)]
fn resolve_context(
    m: &PreparedMetric,
    ctx: &Vec<(JsonValue, ResolvedMetric)>,
    warns: &mut Vec<(Level, String)>,
) -> (state: Vec<(JsonValue, ResolvedMetric)>)
    requires
        ctx_wf(ctx@),
    ensures
        ctx_view(state@) == resolve_ctx(m.pmv(), ctx_view(ctx@)).0,
        warns_view(final(warns)@) == warns_view(old(warns)@) + resolve_ctx(
            m.pmv(),
            ctx_view(ctx@),
        ).1,
        ctx_wf(state@),
{
    let ghost mv = m.pmv();
    let ghost cv = ctx_view(ctx@);
    let ghost warns0 = warns_view(warns@);
    let mut state: Vec<(JsonValue, ResolvedMetric)> = Vec::new();
    let mut i: usize = 0;
    proof {
        assert(cv.skip(0) =~= cv);
        assert(ctx_view(state@) =~= Seq::<(JV, RMetricV)>::empty());
    }
    while i < ctx.len()
        invariant
            i <= ctx@.len(),
            ctx_view(state@) + resolve_ctx(mv, cv.skip(i as int)).0 == resolve_ctx(mv, cv).0,
            warns_view(warns@) + resolve_ctx(mv, cv.skip(i as int)).1 == warns0 + resolve_ctx(
                mv,
                cv,
            ).1,
            ctx_wf(state@),
        decreases ctx@.len() - i,
    {
        proof {
            assert(cv.skip(i as int)[0] == cv[i as int]);
            assert(cv.skip(i as int).drop_first() =~= cv.skip(i as int + 1));
            assert(ctx@[i as int].1.wf());
        }
        let finds = m.selector.find(&ctx[i].0);
        proof {
            assert(mv.selector == crate::selector::sel_steps_view(m.selector.steps@));
        }
        resolve_matches_into(m, &finds, &ctx[i].1, &mut state, warns);
        proof {
            let first = resolve_matches(mv, crate::selector::matches_view(finds@), cv[i as int].1);
            let rest = resolve_ctx(mv, cv.skip(i as int + 1));
            assert(ctx_view(state@) + rest.0 =~= resolve_ctx(mv, cv).0);
            assert(warns_view(warns@) + rest.1 =~= warns0 + resolve_ctx(mv, cv).1);
        }
        i = i + 1;
    }
    proof {
        assert(cv.skip(ctx@.len() as int) =~= Seq::<(JV, RMetricV)>::empty());
        assert(ctx_view(state@) + Seq::<(JV, RMetricV)>::empty() =~= ctx_view(state@));
        assert(warns_view(warns@) + Seq::<(Level, Seq<char>)>::empty() =~= warns_view(warns@));
    }
    state
}

/// Emits the samples of one leaf metric over its resolved context.
#[verifier::loop_isolation(false)]
fn process_samples(
    m: &PreparedMetric,
    state: &Vec<(JsonValue, ResolvedMetric)>,
    seen: &mut Vec<(String, MetricType)>,
    out: &mut String,
    warns: &mut Vec<(Level, String)>,
)
    ensures
        ({
            let r = emit_samples(m.pmv().filters, ctx_view(state@), seen_view(old(seen)@));
            final(out)@ == old(out)@ + render_lines(r.0) && warns_view(final(warns)@) == warns_view(
                old(warns)@,
            ) + r.1 && seen_view(final(seen)@) == r.2
        }),
{
    proof {
        reveal_strlit("Error when applying filter: ");
        reveal_strlit("Error when dumping metric: ");
        reveal_strlit("Invalid type");
    }
    let ghost fl = m.pmv().filters;
    let ghost sv = ctx_view(state@);
    let ghost out0 = out@;
    let ghost warns0 = warns_view(warns@);
    let ghost seen0 = seen_view(seen@);
    let mut i: usize = 0;
    let ghost mut done_lines = Seq::<LineV>::empty();
    let ghost mut done_warns = Seq::<(Level, Seq<char>)>::empty();
    proof {
        assert(sv.skip(0) =~= sv);
        assert(out0 + render_lines(done_lines) =~= out0);
        assert(warns0 + done_warns =~= warns0);
    }
    while i < state.len()
        invariant
            i <= state@.len(),
            out@ == out0 + render_lines(done_lines),
            warns_view(warns@) == warns0 + done_warns,
            emit_samples(fl, sv, seen0) == ({
                let rest = emit_samples(fl, sv.skip(i as int), seen_view(seen@));
                (done_lines + rest.0, done_warns + rest.1, rest.2)
            }),
        decreases state@.len() - i,
    {
        proof {
            assert(sv.skip(i as int)[0] == sv[i as int]);
            assert(sv.skip(i as int).drop_first() =~= sv.skip(i as int + 1));
            assert(sv[i as int] == (state@[i as int].0.jv(), state@[i as int].1.rv()));
        }
        let ghost step = emit_sample(fl, sv[i as int].0, sv[i as int].1, seen_view(seen@));
        match run_filters(&m.filters, &state[i].0) {
            Err(e) => {
                let ghost wprev = warns_view(warns@);
                let mut msg = String::new();
                msg.append("Error when applying filter: ");
                let tail = e.msg();
                msg.append(tail.as_str());
                warns.push((Level::Warn, msg));
                proof {
                    assert(warns_view(warns@) =~= wprev.push((Level::Warn, filter_warn_text(e))));
                    done_warns = done_warns.push((Level::Warn, filter_warn_text(e)));
                    assert(warns_view(warns@) =~= warns0 + done_warns);
                }
            },
            Ok(v) => {
                let st = seen_get(seen, &state[i].1.name);
                let ghost outprev = out@;
                match state[i].1.dump(&v, st, out) {
                    Some(t) => {
                        let ghost line = spec_dump(
                            state@[i as int].1.rv(),
                            v.jv(),
                            st,
                        )->Some_0;
                        if st.is_none() {
                            let ghost seenprev = seen_view(seen@);
                            let nm = state[i].1.name.clone();
                            seen.push((nm, t));
                            proof {
                                assert(seen_view(seen@) =~= seenprev.push(
                                    (state@[i as int].1.name@, t),
                                ));
                            }
                        }
                        proof {
                            assert(seq![line][0] == line);
                            assert(seq![line].drop_first() =~= Seq::<LineV>::empty());
                            assert(render_lines(seq![line]) =~= render_line(line) + render_lines(
                                Seq::<LineV>::empty(),
                            ));
                            assert(render_lines(seq![line]) =~= render_line(line));
                            lemma_render_lines_concat(done_lines, seq![line]);
                            done_lines = done_lines + seq![line];
                            assert(out@ =~= out0 + render_lines(done_lines));
                        }
                    },
                    None => {
                        let ghost wprev = warns_view(warns@);
                        let mut msg = String::new();
                        msg.append("Error when dumping metric: ");
                        msg.append(state[i].1.name.as_str());
                        warns.push((Level::Warn, msg));
                        proof {
                            assert(warns_view(warns@) =~= wprev.push(
                                (Level::Warn, dump_warn_text(state@[i as int].1.name@)),
                            ));
                            done_warns = done_warns.push(
                                (Level::Warn, dump_warn_text(state@[i as int].1.name@)),
                            );
                            assert(warns_view(warns@) =~= warns0 + done_warns);
                        }
                    },
                }
            },
        }
        proof {
            let rest = emit_samples(fl, sv.skip(i as int + 1), seen_view(seen@));
            assert(done_lines + rest.0 =~= emit_samples(fl, sv, seen0).0);
            assert(done_warns + rest.1 =~= emit_samples(fl, sv, seen0).1);
            assert(rest.2 == emit_samples(fl, sv, seen0).2);
        }
        i = i + 1;
    }
    proof {
        assert(sv.skip(state@.len() as int) =~= Seq::<(JV, RMetricV)>::empty());
        assert(done_lines + Seq::<LineV>::empty() =~= done_lines);
        assert(done_warns + Seq::<(Level, Seq<char>)>::empty() =~= done_warns);
    }
}

/// Walks one metric of the plan.
#[verifier::loop_isolation(false)]
fn process_metric(
    m: &PreparedMetric,
    ctx: &Vec<(JsonValue, ResolvedMetric)>,
    seen: &mut Vec<(String, MetricType)>,
    out: &mut String,
    warns: &mut Vec<(Level, String)>,
)
    requires
        ctx_wf(ctx@),
    ensures
        ({
            let r = emit_metric(m.pmv(), ctx_view(ctx@), seen_view(old(seen)@));
            final(out)@ == old(out)@ + render_lines(r.0) && warns_view(final(warns)@) == warns_view(
                old(warns)@,
            ) + r.1 && seen_view(final(seen)@) == r.2
        }),
    decreases m, 0nat,
{
    let ghost mv = m.pmv();
    let ghost cv = ctx_view(ctx@);
    let ghost warns0 = warns_view(warns@);
    let state = resolve_context(m, ctx, warns);
    let ghost w0 = resolve_ctx(mv, cv).1;
    if m.metrics.0.len() == 0 {
        let ghost before_warns = warns_view(warns@);
        process_samples(m, &state, seen, out, warns);
        proof {
            let r = emit_samples(mv.filters, ctx_view(state@), seen_view(old(seen)@));
            assert(warns_view(warns@) =~= warns0 + (w0 + r.1));
            assert(mv.children.len() == 0);
        }
    } else {
        proof {
            assert(decreases_to!(*m => m.metrics));
            assert(decreases_to!(m.metrics => m.metrics.0@));
            assert(mv.children =~= prepared_metrics_view(m.metrics.0@));
            assert(mv.children.len() > 0);
        }
        process_list(&m.metrics.0, &state, seen, out, warns);
        proof {
            let r = emit_list(mv.children, ctx_view(state@), seen_view(old(seen)@));
            assert(warns_view(warns@) =~= warns0 + (w0 + r.1));
        }
    }
}

/// Walks one level of the plan.
#[verifier::loop_isolation(false)]
fn process_list(
    ms: &Vec<PreparedMetric>,
    ctx: &Vec<(JsonValue, ResolvedMetric)>,
    seen: &mut Vec<(String, MetricType)>,
    out: &mut String,
    warns: &mut Vec<(Level, String)>,
)
    requires
        ctx_wf(ctx@),
    ensures
        ({
            let r = emit_list(prepared_metrics_view(ms@), ctx_view(ctx@), seen_view(old(seen)@));
            final(out)@ == old(out)@ + render_lines(r.0) && warns_view(final(warns)@) == warns_view(
                old(warns)@,
            ) + r.1 && seen_view(final(seen)@) == r.2
        }),
    decreases ms@, 1nat,
{
    let ghost msv = prepared_metrics_view(ms@);
    let ghost cv = ctx_view(ctx@);
    let ghost out0 = out@;
    let ghost warns0 = warns_view(warns@);
    let ghost seen0 = seen_view(seen@);
    let mut i: usize = 0;
    let ghost mut done_lines = Seq::<LineV>::empty();
    let ghost mut done_warns = Seq::<(Level, Seq<char>)>::empty();
    proof {
        assert(msv.skip(0) =~= msv);
        assert(out0 + render_lines(done_lines) =~= out0);
        assert(warns0 + done_warns =~= warns0);
    }
    while i < ms.len()
        invariant
            i <= ms@.len(),
            out@ == out0 + render_lines(done_lines),
            warns_view(warns@) == warns0 + done_warns,
            emit_list(msv, cv, seen0) == ({
                let rest = emit_list(msv.skip(i as int), cv, seen_view(seen@));
                (done_lines + rest.0, done_warns + rest.1, rest.2)
            }),
        decreases ms@.len() - i,
    {
        proof {
            assert(msv.skip(i as int)[0] == ms@[i as int].pmv());
            assert(msv.skip(i as int).drop_first() =~= msv.skip(i as int + 1));
            assert(decreases_to!(ms@ => ms@[i as int]));
        }
        let ghost step = emit_metric(ms@[i as int].pmv(), cv, seen_view(seen@));
        process_metric(&ms[i], ctx, seen, out, warns);
        proof {
            lemma_render_lines_concat(done_lines, step.0);
            done_lines = done_lines + step.0;
            done_warns = done_warns + step.1;
            assert(out@ =~= out0 + render_lines(done_lines));
            assert(warns_view(warns@) =~= warns0 + done_warns);
            let rest = emit_list(msv.skip(i as int + 1), cv, seen_view(seen@));
            assert(done_lines + rest.0 =~= emit_list(msv, cv, seen0).0);
            assert(done_warns + rest.1 =~= emit_list(msv, cv, seen0).1);
            assert(rest.2 == emit_list(msv, cv, seen0).2);
        }
        i = i + 1;
    }
    proof {
        assert(msv.skip(ms@.len() as int) =~= Seq::<PreparedMetricV>::empty());
        assert(done_lines + Seq::<LineV>::empty() =~= done_lines);
        assert(done_warns + Seq::<(Level, Seq<char>)>::empty() =~= done_warns);
    }
}

impl PreparedMetrics {
    /// Walks the plan over a document under a root context and writes
    /// Prometheus text into the buffer, handing back the warnings raised.
    pub fn process(&self, root_metric: &ResolvedMetric, json: &JsonValue, buf: &mut Vec<u8>) -> (
        warns: Vec<(Level, String)>)
        requires
            root_metric.wf(),
        ensures
            ({
                let r = emit_list(
                    self.pmsv(),
                    seq![(json.jv(), root_metric.rv())],
                    Seq::empty(),
                );
                final(buf)@ == old(buf)@ + vstd::utf8::encode_utf8(render_lines(r.0))
                    && warns_view(warns@) == r.1
            }),
    {
        let mut out = String::new();
        let mut warns: Vec<(Level, String)> = Vec::new();
        let mut seen: Vec<(String, MetricType)> = Vec::new();
        let mut ctx: Vec<(JsonValue, ResolvedMetric)> = Vec::new();
        ctx.push((json.duplicate(), root_metric.duplicate()));
        proof {
            assert(ctx_view(ctx@) =~= seq![(json.jv(), root_metric.rv())]);
            assert(seen_view(seen@) =~= Seq::<(Seq<char>, MetricType)>::empty());
            assert(warns_view(warns@) =~= Seq::<(Level, Seq<char>)>::empty());
        }
        process_list(&self.0, &ctx, &mut seen, &mut out, &mut warns);
        proof {
            let r = emit_list(self.pmsv(), seq![(json.jv(), root_metric.rv())], Seq::empty());
            assert(out@ =~= render_lines(r.0));
            assert(warns_view(warns@) =~= r.1);
        }
        let bytes = out.as_str().as_bytes();
        let ghost buf0 = buf@;
        let mut i: usize = 0;
        while i < bytes.len()
            invariant
                i <= bytes@.len(),
                buf@ == buf0 + bytes@.take(i as int),
            decreases bytes@.len() - i,
        {
            proof {
                assert(bytes@.take(i + 1 as int) =~= bytes@.take(i as int).push(
                    bytes@[i as int],
                ));
            }
            buf.push(bytes[i]);
            i = i + 1;
        }
        proof {
            assert(bytes@.take(bytes@.len() as int) =~= bytes@);
            assert(buf@ =~= buf0 + bytes@);
        }
        warns
    }
}

impl PreparedEndpoint {
    /// What the endpoint contributes as its own context: its name, no
    /// type, no labels, merged with the given root.
    pub open spec fn endpoint_root(&self, root: RMetricV) -> RMetricV {
        spec_merge(
            RMetricV {
                name: self.name@,
                metric_type: None,
                labels: Seq::empty(),
            },
            root,
        )
    }

    /// Processes one endpoint's document: the endpoint's name joined under
    /// the root context, then the plan walked over the document.
    pub fn process(&self, root_metric: &ResolvedMetric, json: &JsonValue, buf: &mut Vec<u8>) -> (
        warns: Vec<(Level, String)>)
        requires
            root_metric.wf(),
        ensures
            ({
                let r = emit_list(
                    self.metrics.pmsv(),
                    seq![(json.jv(), self.endpoint_root(root_metric.rv()))],
                    Seq::empty(),
                );
                final(buf)@ == old(buf)@ + vstd::utf8::encode_utf8(render_lines(r.0))
                    && warns_view(warns@) == r.1
            }),
    {
        let own = ResolvedMetric {
            name: self.name.clone(),
            metric_type: None,
            labels: Vec::new(),
        };
        proof {
            assert(pairs_view(own.labels@) =~= Seq::<(Seq<char>, Seq<char>)>::empty());
            assert(own.wf());
            assert(own.rv() =~~= RMetricV {
                name: self.name@,
                metric_type: None,
                labels: Seq::empty(),
            });
        }
        let endpoint_metric = own.merge_with_parent(root_metric);
        self.metrics.process(&endpoint_metric, json, buf)
    }
}


proof fn lemma_inherit_preserves(
    c: Seq<(Seq<char>, Seq<char>)>,
    ps: Seq<(Seq<char>, Seq<char>)>,
    k: Seq<char>,
)
    requires
        sorted_labels(c),
        label_lookup(c, k) is Some,
    ensures
        label_lookup(inherit_all(c, ps), k) == label_lookup(c, k),
        sorted_labels(inherit_all(c, ps)),
    decreases ps.len(),
{
    if ps.len() == 0 {
    } else {
        crate::labels::lemma_or_insert_lookup(c, ps[0].0, ps[0].1, k);
        lemma_insert_sorted(c, ps[0].0, ps[0].1);
        lemma_inherit_preserves(label_or_insert(c, ps[0].0, ps[0].1), ps.drop_first(), k);
    }
}

proof fn lemma_inherit_fills(
    c: Seq<(Seq<char>, Seq<char>)>,
    ps: Seq<(Seq<char>, Seq<char>)>,
    k: Seq<char>,
    v: Seq<char>,
)
    requires
        sorted_labels(c),
        sorted_labels(ps),
        label_lookup(ps, k) == Some(v),
        label_lookup(c, k) is None,
    ensures
        label_lookup(inherit_all(c, ps), k) == Some(v),
    decreases ps.len(),
{
    assert(ps.len() > 0);
    crate::labels::lemma_or_insert_lookup(c, ps[0].0, ps[0].1, k);
    lemma_insert_sorted(c, ps[0].0, ps[0].1);
    let c2 = label_or_insert(c, ps[0].0, ps[0].1);
    if ps[0].0 == k {
        assert(ps[0].1 == v);
        assert(label_lookup(c2, k) == Some(v));
        lemma_inherit_preserves(c2, ps.drop_first(), k);
    } else {
        crate::labels::lemma_sorted_drop_first(ps);
        assert(label_lookup(ps.drop_first(), k) == Some(v));
        lemma_inherit_fills(c2, ps.drop_first(), k, v);
    }
}

/// Inheritance keeps a parent's label on every merged metric that does not
/// set the key itself, and never overwrites one the child sets: the
/// child's own value always wins.
pub proof fn lemma_label_inheritance(
    child: RMetricV,
    parent: RMetricV,
    k: Seq<char>,
    v: Seq<char>,
)
    requires
        sorted_labels(child.labels),
        sorted_labels(parent.labels),
    ensures
        label_lookup(parent.labels, k) == Some(v) && label_lookup(child.labels, k) is None
            ==> label_lookup(spec_merge(child, parent).labels, k) == Some(v),
        label_lookup(child.labels, k) is Some ==> label_lookup(spec_merge(child, parent).labels, k)
            == label_lookup(child.labels, k),
{
    if label_lookup(child.labels, k) is Some {
        lemma_inherit_preserves(child.labels, parent.labels, k);
    } else if label_lookup(parent.labels, k) == Some(v) {
        lemma_inherit_fills(child.labels, parent.labels, k, v);
    }
}

/// Applying an empty filter list is a no-op on every value.
pub proof fn lemma_empty_filters_identity(v: JV)
    ensures
        spec_apply_filters(Seq::empty(), v) == Ok::<JV, FilterError>(v),
{
}

#[verifier::spinoff_prover]
proof fn lemma_resolve_matches_sorted(
    m: PreparedMetricV,
    ms: Seq<(JV, Seq<StepV>)>,
    pm: RMetricV,
)
    requires
        sorted_labels(pm.labels),
    ensures
        forall|i: int| 0 <= i < resolve_matches(m, ms, pm).0.len() ==> sorted_labels(
            #[trigger] resolve_matches(m, ms, pm).0[i].1.labels,
        ),
    decreases ms.len(),
{
    if ms.len() > 0 {
        lemma_resolve_matches_sorted(m, ms.drop_first(), pm);
        match spec_resolve(m, ms[0].0, ms[0].1) {
            Ok(rm) => {
                lemma_srl_sorted(m.labels, ms[0].0, ms[0].1, Seq::empty());
                lemma_inherit_all_sorted(rm.labels, pm.labels);
                let full = resolve_matches(m, ms, pm).0;
                let rest = resolve_matches(m, ms.drop_first(), pm).0;
                assert(forall|i: int| 1 <= i < full.len() ==> full[i] == rest[i - 1]);
                assert(full[0].1 == spec_merge(rm, pm));
            },
            Err(e) => {},
        }
    }
}

#[verifier::spinoff_prover]
proof fn lemma_resolve_ctx_sorted(m: PreparedMetricV, ctx: Seq<(JV, RMetricV)>)
    requires
        forall|i: int| 0 <= i < ctx.len() ==> sorted_labels(#[trigger] ctx[i].1.labels),
    ensures
        forall|i: int| 0 <= i < resolve_ctx(m, ctx).0.len() ==> sorted_labels(
            #[trigger] resolve_ctx(m, ctx).0[i].1.labels,
        ),
    decreases ctx.len(),
{
    if ctx.len() > 0 {
        assert(sorted_labels(ctx[0].1.labels));
        lemma_resolve_matches_sorted(m, sel_find(m.selector, ctx[0].0, seq![StepV::Root]), ctx[0].1);
        assert forall|i: int| 0 <= i < ctx.drop_first().len() implies sorted_labels(
            #[trigger] ctx.drop_first()[i].1.labels,
        ) by {
            assert(ctx.drop_first()[i] == ctx[i + 1]);
        }
        lemma_resolve_ctx_sorted(m, ctx.drop_first());
        let first = resolve_matches(m, sel_find(m.selector, ctx[0].0, seq![StepV::Root]), ctx[0].1);
        let rest = resolve_ctx(m, ctx.drop_first());
        let full = resolve_ctx(m, ctx).0;
        assert forall|i: int| 0 <= i < full.len() implies sorted_labels(
            #[trigger] full[i].1.labels,
        ) by {
            if i < first.0.len() {
                assert(full[i] == first.0[i]);
                assert(sorted_labels(first.0[i].1.labels));
            } else {
                assert(full[i] == rest.0[i - first.0.len()]);
                assert(sorted_labels(rest.0[i - first.0.len()].1.labels));
            }
        }
    }
}

proof fn lemma_emit_samples_sorted(
    filters: Seq<FilterV>,
    state: Seq<(JV, RMetricV)>,
    seen: Seq<(Seq<char>, MetricType)>,
)
    requires
        forall|i: int| 0 <= i < state.len() ==> sorted_labels(#[trigger] state[i].1.labels),
    ensures
        forall|i: int| 0 <= i < emit_samples(filters, state, seen).0.len() ==> sorted_labels(
            #[trigger] emit_samples(filters, state, seen).0[i].labels,
        ),
    decreases state.len(),
{
    if state.len() > 0 {
        let first = emit_sample(filters, state[0].0, state[0].1, seen);
        assert forall|i: int| 0 <= i < state.drop_first().len() implies sorted_labels(
            #[trigger] state.drop_first()[i].1.labels,
        ) by {
            assert(state.drop_first()[i] == state[i + 1]);
        }
        lemma_emit_samples_sorted(filters, state.drop_first(), first.2);
        let rest = emit_samples(filters, state.drop_first(), first.2);
        let full = emit_samples(filters, state, seen).0;
        assert(sorted_labels(state[0].1.labels));
        assert(forall|i: int| 0 <= i < first.0.len() ==> full[i] == first.0[i]);
        assert(forall|i: int| first.0.len() <= i < full.len() ==> full[i] == rest.0[
            i - first.0.len()
        ]);
        assert(forall|i: int| 0 <= i < first.0.len() ==> sorted_labels(
            #[trigger] first.0[i].labels,
        ));
    }
}

proof fn lemma_emit_metric_sorted(
    m: PreparedMetricV,
    ctx: Seq<(JV, RMetricV)>,
    seen: Seq<(Seq<char>, MetricType)>,
)
    requires
        forall|i: int| 0 <= i < ctx.len() ==> sorted_labels(#[trigger] ctx[i].1.labels),
    ensures
        forall|i: int| 0 <= i < emit_metric(m, ctx, seen).0.len() ==> sorted_labels(
            #[trigger] emit_metric(m, ctx, seen).0[i].labels,
        ),
    decreases m, 0nat,
{
    let sw = resolve_ctx(m, ctx);
    lemma_resolve_ctx_sorted(m, ctx);
    if m.children.len() == 0 {
        lemma_emit_samples_sorted(m.filters, sw.0, seen);
    } else {
        lemma_emit_list_sorted(m.children, sw.0, seen);
    }
}

proof fn lemma_emit_list_sorted(
    ms: Seq<PreparedMetricV>,
    ctx: Seq<(JV, RMetricV)>,
    seen: Seq<(Seq<char>, MetricType)>,
)
    requires
        forall|i: int| 0 <= i < ctx.len() ==> sorted_labels(#[trigger] ctx[i].1.labels),
    ensures
        forall|i: int| 0 <= i < emit_list(ms, ctx, seen).0.len() ==> sorted_labels(
            #[trigger] emit_list(ms, ctx, seen).0[i].labels,
        ),
    decreases ms, 1nat,
{
    if ms.len() > 0 {
        let first = emit_metric(ms[0], ctx, seen);
        lemma_emit_metric_sorted(ms[0], ctx, seen);
        lemma_emit_list_sorted(ms.drop_first(), ctx, first.2);
        let rest = emit_list(ms.drop_first(), ctx, first.2);
        let full = emit_list(ms, ctx, seen).0;
        assert(forall|i: int| 0 <= i < first.0.len() ==> full[i] == first.0[i]);
        assert(forall|i: int| first.0.len() <= i < full.len() ==> full[i] == rest.0[
            i - first.0.len()
        ]);
    }
}

/// On every emitted sample the label keys stand in strict lexicographic
/// order, provided every metric of the starting context carries sorted
/// labels.
pub proof fn lemma_label_ordering(
    ms: Seq<PreparedMetricV>,
    ctx: Seq<(JV, RMetricV)>,
    seen: Seq<(Seq<char>, MetricType)>,
)
    requires
        forall|i: int| 0 <= i < ctx.len() ==> sorted_labels(#[trigger] ctx[i].1.labels),
    ensures
        forall|i: int| 0 <= i < emit_list(ms, ctx, seen).0.len() ==> sorted_labels(
            #[trigger] emit_list(ms, ctx, seen).0[i].labels,
        ),
{
    lemma_emit_list_sorted(ms, ctx, seen);
}


/// The per-name bookkeeping one emission segment obeys: names already
/// seen keep their recorded type, and every line's type is the one
/// recorded under its name afterwards.
pub open spec fn types_ok(
    seen0: Seq<(Seq<char>, MetricType)>,
    lines: Seq<LineV>,
    seen1: Seq<(Seq<char>, MetricType)>,
) -> bool {
    &&& forall|n: Seq<char>| seen_lookup(seen0, n) is Some ==> #[trigger] seen_lookup(seen1, n)
        == seen_lookup(seen0, n)
    &&& forall|i: int| 0 <= i < lines.len() ==> seen_lookup(seen1, (#[trigger] lines[i]).name)
        == Some(lines[i].mtype)
}

#[verifier::spinoff_prover]
proof fn lemma_seen_push_lookup(
    seen: Seq<(Seq<char>, MetricType)>,
    x: (Seq<char>, MetricType),
    n: Seq<char>,
)
    ensures
        seen_lookup(seen.push(x), n) == (match seen_lookup(seen, n) {
            Some(t) => Some(t),
            None => if x.0 == n {
                Some(x.1)
            } else {
                None
            },
        }),
    decreases seen.len(),
{
    if seen.len() == 0 {
        assert(seen.push(x)[0] == x);
        assert(seen.push(x).drop_first() =~= Seq::<(Seq<char>, MetricType)>::empty());
        assert(seen_lookup(Seq::<(Seq<char>, MetricType)>::empty(), n) is None);
        assert(seen_lookup(seen, n) is None);
    } else {
        assert(seen.push(x)[0] == seen[0]);
        assert(seen.push(x).drop_first() =~= seen.drop_first().push(x));
        lemma_seen_push_lookup(seen.drop_first(), x, n);
        if seen[0].0 == n {
            assert(seen_lookup(seen.push(x), n) == Some(seen[0].1));
            assert(seen_lookup(seen, n) == Some(seen[0].1));
        } else {
            assert(seen_lookup(seen.push(x), n) == seen_lookup(
                seen.drop_first().push(x),
                n,
            ));
            assert(seen_lookup(seen, n) == seen_lookup(seen.drop_first(), n));
        }
    }
}

proof fn lemma_emit_sample_types(
    filters: Seq<FilterV>,
    jv0: JV,
    rm: RMetricV,
    seen: Seq<(Seq<char>, MetricType)>,
)
    ensures
        types_ok(seen, emit_sample(filters, jv0, rm, seen).0, emit_sample(filters, jv0, rm, seen).2),
{
    let r = emit_sample(filters, jv0, rm, seen);
    match spec_apply_filters(filters, jv0) {
        Err(e) => {},
        Ok(v) => {
            let st = seen_lookup(seen, rm.name);
            match spec_dump(rm, v, st) {
                None => {},
                Some(line) => {
                    assert(line.name == rm.name);
                    if st is None {
                        assert forall|n: Seq<char>| true implies #[trigger] seen_lookup(
                            seen.push((rm.name, line.mtype)),
                            n,
                        ) == (match seen_lookup(seen, n) {
                            Some(t) => Some(t),
                            None => if rm.name == n {
                                Some(line.mtype)
                            } else {
                                None
                            },
                        }) by {
                            lemma_seen_push_lookup(seen, (rm.name, line.mtype), n);
                        }
                        assert(r.0[0] == line);
                    } else {
                        assert(line.mtype == st->Some_0);
                        assert(r.0[0] == line);
                    }
                },
            }
        },
    }
}

proof fn lemma_types_ok_compose(
    seen0: Seq<(Seq<char>, MetricType)>,
    l1: Seq<LineV>,
    seen1: Seq<(Seq<char>, MetricType)>,
    l2: Seq<LineV>,
    seen2: Seq<(Seq<char>, MetricType)>,
)
    requires
        types_ok(seen0, l1, seen1),
        types_ok(seen1, l2, seen2),
    ensures
        types_ok(seen0, l1 + l2, seen2),
{
    let l = l1 + l2;
    assert(forall|i: int| 0 <= i < l1.len() ==> l[i] == l1[i]);
    assert(forall|i: int| l1.len() <= i < l.len() ==> l[i] == l2[i - l1.len()]);
    assert forall|i: int| 0 <= i < l.len() implies seen_lookup(seen2, (#[trigger] l[i]).name)
        == Some(l[i].mtype) by {
        if i < l1.len() {
            assert(seen_lookup(seen1, l1[i].name) == Some(l1[i].mtype));
        } else {
            assert(seen_lookup(seen2, l2[i - l1.len()].name) == Some(l2[i - l1.len()].mtype));
        }
    }
}

proof fn lemma_emit_samples_types(
    filters: Seq<FilterV>,
    state: Seq<(JV, RMetricV)>,
    seen: Seq<(Seq<char>, MetricType)>,
)
    ensures
        types_ok(seen, emit_samples(filters, state, seen).0, emit_samples(filters, state, seen).2),
    decreases state.len(),
{
    if state.len() == 0 {
    } else {
        let first = emit_sample(filters, state[0].0, state[0].1, seen);
        lemma_emit_sample_types(filters, state[0].0, state[0].1, seen);
        lemma_emit_samples_types(filters, state.drop_first(), first.2);
        let rest = emit_samples(filters, state.drop_first(), first.2);
        lemma_types_ok_compose(seen, first.0, first.2, rest.0, rest.2);
    }
}

proof fn lemma_emit_metric_types(
    m: PreparedMetricV,
    ctx: Seq<(JV, RMetricV)>,
    seen: Seq<(Seq<char>, MetricType)>,
)
    ensures
        types_ok(seen, emit_metric(m, ctx, seen).0, emit_metric(m, ctx, seen).2),
    decreases m, 0nat,
{
    let sw = resolve_ctx(m, ctx);
    if m.children.len() == 0 {
        lemma_emit_samples_types(m.filters, sw.0, seen);
    } else {
        lemma_emit_list_types(m.children, sw.0, seen);
    }
}

proof fn lemma_emit_list_types(
    ms: Seq<PreparedMetricV>,
    ctx: Seq<(JV, RMetricV)>,
    seen: Seq<(Seq<char>, MetricType)>,
)
    ensures
        types_ok(seen, emit_list(ms, ctx, seen).0, emit_list(ms, ctx, seen).2),
    decreases ms, 1nat,
{
    if ms.len() == 0 {
    } else {
        let first = emit_metric(ms[0], ctx, seen);
        lemma_emit_metric_types(ms[0], ctx, seen);
        lemma_emit_list_types(ms.drop_first(), ctx, first.2);
        let rest = emit_list(ms.drop_first(), ctx, first.2);
        lemma_types_ok_compose(seen, first.0, first.2, rest.0, rest.2);
    }
}

/// Type consistency of one emission: any two lines that carry the same
/// metric name were emitted under the same type.
pub proof fn lemma_type_consistency(ms: Seq<PreparedMetricV>, ctx: Seq<(JV, RMetricV)>)
    ensures
        ({
            let lines = emit_list(ms, ctx, Seq::empty()).0;
            forall|i: int, j: int| 0 <= i < lines.len() && 0 <= j < lines.len()
                && (#[trigger] lines[i]).name == (#[trigger] lines[j]).name ==> lines[i].mtype
                == lines[j].mtype
        }),
{
    lemma_emit_list_types(ms, ctx, Seq::empty());
}


/// How many lines of a segment carry a given metric name.
pub open spec fn line_count(lines: Seq<LineV>, n: Seq<char>) -> nat
    decreases lines.len(),
{
    if lines.len() == 0 {
        0
    } else {
        (if lines[0].name == n {
            1nat
        } else {
            0nat
        }) + line_count(lines.drop_first(), n)
    }
}

/// How many lines of a segment carry a `# TYPE` header for a given name.
pub open spec fn header_count(lines: Seq<LineV>, n: Seq<char>) -> nat
    decreases lines.len(),
{
    if lines.len() == 0 {
        0
    } else {
        (if lines[0].name == n && lines[0].header {
            1nat
        } else {
            0nat
        }) + header_count(lines.drop_first(), n)
    }
}

proof fn lemma_counts_concat(a: Seq<LineV>, b: Seq<LineV>, n: Seq<char>)
    ensures
        line_count(a + b, n) == line_count(a, n) + line_count(b, n),
        header_count(a + b, n) == header_count(a, n) + header_count(b, n),
    decreases a.len(),
{
    if a.len() == 0 {
        assert(a + b =~= b);
    } else {
        assert((a + b).drop_first() =~= a.drop_first() + b);
        assert((a + b)[0] == a[0]);
        lemma_counts_concat(a.drop_first(), b, n);
    }
}

/// The header bookkeeping one emission segment obeys, counted per name: a
/// name already seen gets no header; a name no longer unseen was emitted;
/// a name that stays unseen was not emitted; and an unseen name that is
/// emitted gets its header exactly once.
pub open spec fn headers_ok(
    seen0: Seq<(Seq<char>, MetricType)>,
    lines: Seq<LineV>,
    seen1: Seq<(Seq<char>, MetricType)>,
) -> bool {
    &&& forall|n: Seq<char>| seen_lookup(seen0, n) is Some ==> #[trigger] header_count(lines, n)
        == 0
    &&& forall|n: Seq<char>| seen_lookup(seen1, n) is None ==> #[trigger] line_count(lines, n)
        == 0
    &&& forall|n: Seq<char>| seen_lookup(seen0, n) is None && #[trigger] line_count(lines, n)
        == 0 ==> seen_lookup(seen1, n) is None
    &&& forall|n: Seq<char>| seen_lookup(seen0, n) is None && #[trigger] line_count(lines, n)
        >= 1 ==> header_count(lines, n) == 1
}

proof fn lemma_emit_sample_headers(
    filters: Seq<FilterV>,
    jv0: JV,
    rm: RMetricV,
    seen: Seq<(Seq<char>, MetricType)>,
)
    ensures
        headers_ok(seen, emit_sample(filters, jv0, rm, seen).0, emit_sample(filters, jv0, rm, seen).2),
{
    let r = emit_sample(filters, jv0, rm, seen);
    lemma_emit_sample_types(filters, jv0, rm, seen);
    match spec_apply_filters(filters, jv0) {
        Err(e) => {
            assert(forall|n: Seq<char>| #[trigger] line_count(r.0, n) == 0);
            assert(forall|n: Seq<char>| #[trigger] header_count(r.0, n) == 0);
        },
        Ok(v) => {
            let st = seen_lookup(seen, rm.name);
            match spec_dump(rm, v, st) {
                None => {
                    assert(forall|n: Seq<char>| #[trigger] line_count(r.0, n) == 0);
                    assert(forall|n: Seq<char>| #[trigger] header_count(r.0, n) == 0);
                },
                Some(line) => {
                    assert(r.0[0] == line);
                    assert(r.0.drop_first() =~= Seq::<LineV>::empty());
                    assert forall|n: Seq<char>| true implies #[trigger] line_count(r.0, n) == (
                    if line.name == n {
                        1nat
                    } else {
                        0nat
                    }) by {
                        assert(line_count(r.0.drop_first(), n) == 0);
                    }
                    assert forall|n: Seq<char>| true implies #[trigger] header_count(r.0, n) == (
                    if line.name == n && line.header {
                        1nat
                    } else {
                        0nat
                    }) by {
                        assert(header_count(r.0.drop_first(), n) == 0);
                    }
                    if st is None {
                        assert forall|n: Seq<char>| true implies #[trigger] seen_lookup(
                            r.2,
                            n,
                        ) == (match seen_lookup(seen, n) {
                            Some(t) => Some(t),
                            None => if rm.name == n {
                                Some(line.mtype)
                            } else {
                                None
                            },
                        }) by {
                            lemma_seen_push_lookup(seen, (rm.name, line.mtype), n);
                        }
                    }
                },
            }
        },
    }
}

proof fn lemma_headers_ok_compose(
    seen0: Seq<(Seq<char>, MetricType)>,
    l1: Seq<LineV>,
    seen1: Seq<(Seq<char>, MetricType)>,
    l2: Seq<LineV>,
    seen2: Seq<(Seq<char>, MetricType)>,
)
    requires
        types_ok(seen0, l1, seen1),
        types_ok(seen1, l2, seen2),
        headers_ok(seen0, l1, seen1),
        headers_ok(seen1, l2, seen2),
    ensures
        headers_ok(seen0, l1 + l2, seen2),
{
    let l = l1 + l2;
    assert forall|n: Seq<char>| true implies #[trigger] line_count(l, n) == line_count(l1, n)
        + line_count(l2, n) && header_count(l, n) == header_count(l1, n) + header_count(
        l2,
        n,
    ) by {
        lemma_counts_concat(l1, l2, n);
    }
    assert forall|n: Seq<char>| seen_lookup(seen0, n) is Some implies #[trigger] header_count(
        l,
        n,
    ) == 0 by {
        lemma_counts_concat(l1, l2, n);
        assert(seen_lookup(seen1, n) is Some);
        assert(header_count(l1, n) == 0);
        assert(header_count(l2, n) == 0);
    }
    assert forall|n: Seq<char>| seen_lookup(seen2, n) is None implies #[trigger] line_count(
        l,
        n,
    ) == 0 by {
        lemma_counts_concat(l1, l2, n);
        assert(line_count(l2, n) == 0);
        assert(seen_lookup(seen1, n) is None) by {
            if seen_lookup(seen1, n) is Some {
                assert(seen_lookup(seen2, n) == seen_lookup(seen1, n));
            }
        }
        assert(line_count(l1, n) == 0);
    }
    assert forall|n: Seq<char>|
        seen_lookup(seen0, n) is None && #[trigger] line_count(l, n) == 0 implies seen_lookup(
        seen2,
        n,
    ) is None by {
        lemma_counts_concat(l1, l2, n);
        assert(line_count(l1, n) == 0);
        assert(seen_lookup(seen1, n) is None);
        assert(line_count(l2, n) == 0);
    }
    assert forall|n: Seq<char>|
        seen_lookup(seen0, n) is None && #[trigger] line_count(l, n) >= 1 implies header_count(
        l,
        n,
    ) == 1 by {
        if line_count(l1, n) >= 1 {
            assert(header_count(l1, n) == 1);
            assert(seen_lookup(seen1, n) is Some) by {
                if seen_lookup(seen1, n) is None {
                    assert(line_count(l1, n) == 0);
                }
            }
            assert(header_count(l2, n) == 0);
        } else {
            assert(seen_lookup(seen1, n) is None);
            assert(line_count(l2, n) >= 1);
            assert(header_count(l2, n) == 1);
            assert(header_count(l1, n) <= line_count(l1, n)) by {
                lemma_header_le_line(l1, n);
            }
        }
    }
}

proof fn lemma_header_le_line(lines: Seq<LineV>, n: Seq<char>)
    ensures
        header_count(lines, n) <= line_count(lines, n),
    decreases lines.len(),
{
    if lines.len() > 0 {
        lemma_header_le_line(lines.drop_first(), n);
    }
}

proof fn lemma_emit_samples_headers(
    filters: Seq<FilterV>,
    state: Seq<(JV, RMetricV)>,
    seen: Seq<(Seq<char>, MetricType)>,
)
    ensures
        headers_ok(seen, emit_samples(filters, state, seen).0, emit_samples(filters, state, seen).2),
    decreases state.len(),
{
    if state.len() == 0 {
    } else {
        let first = emit_sample(filters, state[0].0, state[0].1, seen);
        lemma_emit_sample_types(filters, state[0].0, state[0].1, seen);
        lemma_emit_samples_types(filters, state.drop_first(), first.2);
        lemma_emit_sample_headers(filters, state[0].0, state[0].1, seen);
        lemma_emit_samples_headers(filters, state.drop_first(), first.2);
        let rest = emit_samples(filters, state.drop_first(), first.2);
        lemma_headers_ok_compose(seen, first.0, first.2, rest.0, rest.2);
    }
}

proof fn lemma_emit_metric_headers(
    m: PreparedMetricV,
    ctx: Seq<(JV, RMetricV)>,
    seen: Seq<(Seq<char>, MetricType)>,
)
    ensures
        headers_ok(seen, emit_metric(m, ctx, seen).0, emit_metric(m, ctx, seen).2),
    decreases m, 0nat,
{
    let sw = resolve_ctx(m, ctx);
    if m.children.len() == 0 {
        lemma_emit_samples_headers(m.filters, sw.0, seen);
    } else {
        lemma_emit_list_headers(m.children, sw.0, seen);
    }
}

proof fn lemma_emit_list_headers(
    ms: Seq<PreparedMetricV>,
    ctx: Seq<(JV, RMetricV)>,
    seen: Seq<(Seq<char>, MetricType)>,
)
    ensures
        headers_ok(seen, emit_list(ms, ctx, seen).0, emit_list(ms, ctx, seen).2),
    decreases ms, 1nat,
{
    if ms.len() == 0 {
    } else {
        let first = emit_metric(ms[0], ctx, seen);
        lemma_emit_metric_types(ms[0], ctx, seen);
        lemma_emit_list_types(ms.drop_first(), ctx, first.2);
        lemma_emit_metric_headers(ms[0], ctx, seen);
        lemma_emit_list_headers(ms.drop_first(), ctx, first.2);
        let rest = emit_list(ms.drop_first(), ctx, first.2);
        lemma_headers_ok_compose(seen, first.0, first.2, rest.0, rest.2);
    }
}

/// Header uniqueness of one emission: a name that is emitted at all gets
/// its `# TYPE` header exactly once, and a name never emitted gets none.
pub proof fn lemma_header_once(ms: Seq<PreparedMetricV>, ctx: Seq<(JV, RMetricV)>)
    ensures
        ({
            let lines = emit_list(ms, ctx, Seq::empty()).0;
            forall|n: Seq<char>| #[trigger] header_count(lines, n) == (if line_count(lines, n)
                >= 1 {
                1nat
            } else {
                0nat
            })
        }),
{
    lemma_emit_list_headers(ms, ctx, Seq::empty());
    let lines = emit_list(ms, ctx, Seq::<(Seq<char>, MetricType)>::empty()).0;
    assert(forall|n: Seq<char>| seen_lookup(Seq::<(Seq<char>, MetricType)>::empty(), n) is None);
    assert forall|n: Seq<char>| true implies #[trigger] header_count(lines, n) == (
    if line_count(lines, n) >= 1 {
        1nat
    } else {
        0nat
    }) by {
        if line_count(lines, n) == 0 {
            lemma_header_le_line(lines, n);
        }
    }
}

} // verus!
