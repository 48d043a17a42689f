use vstd::prelude::*;

use crate::json::{JsonValue, JV};

verus! {

/// The Prometheus type attached to an emitted time series.
#[derive(Clone, Copy, PartialEq, Eq, Structural, Debug)]
pub enum MetricType {
    Gauge,
    Counter,
    Untyped,
}

impl MetricType {
    /// The keyword that names this type in a `# TYPE` header line.
    pub fn keyword(&self) -> (r: &'static str)
        ensures
            r@ == self.keyword_spec(),
    {
        proof {
            reveal_strlit("gauge");
            reveal_strlit("counter");
            reveal_strlit("untyped");
        }
        match self {
            MetricType::Gauge => "gauge",
            MetricType::Counter => "counter",
            MetricType::Untyped => "untyped",
        }
    }

    pub open spec fn keyword_spec(self) -> Seq<char> {
        match self {
            MetricType::Gauge => "gauge"@,
            MetricType::Counter => "counter"@,
            MetricType::Untyped => "untyped"@,
        }
    }
}

/// A label of the raw configuration: a name and a value template.
pub struct Label {
    pub name: String,
    pub value: String,
}

impl Label {
    pub open spec fn lv(&self) -> (Seq<char>, Seq<char>) {
        (self.name@, self.value@)
    }
}

pub open spec fn labels_view(ls: Seq<Label>) -> Seq<(Seq<char>, Seq<char>)> {
    Seq::new(ls.len(), |i: int| if 0 <= i < ls.len() {
        ls[i].lv()
    } else {
        (Seq::empty(), Seq::empty())
    })
}

/// A named query parameter that an endpoint URL may pull in.
pub struct QueryParam {
    pub name: String,
    pub value: Option<String>,
}

impl QueryParam {
    pub open spec fn qv(&self) -> (Seq<char>, Option<Seq<char>>) {
        (self.name@, match self.value {
            Some(ref v) => Some(v@),
            None => None,
        })
    }
}

/// The named paths and parameters an endpoint URL shorthand may refer to.
pub struct UrlParts {
    pub paths: Vec<(String, String)>,
    pub params: Vec<(String, QueryParam)>,
}

pub open spec fn pairs_view(ps: Seq<(String, String)>) -> Seq<(Seq<char>, Seq<char>)> {
    Seq::new(ps.len(), |i: int| if 0 <= i < ps.len() {
        (ps[i].0@, ps[i].1@)
    } else {
        (Seq::empty(), Seq::empty())
    })
}

pub open spec fn params_view(ps: Seq<(String, QueryParam)>) -> Seq<
    (Seq<char>, (Seq<char>, Option<Seq<char>>)),
> {
    Seq::new(ps.len(), |i: int| if 0 <= i < ps.len() {
        (ps[i].0@, ps[i].1.qv())
    } else {
        (Seq::empty(), (Seq::empty(), None))
    })
}

/// A filter entry of the raw configuration: a registry name and free-form
/// arguments.
pub struct Filter {
    pub name: String,
    pub args: JsonValue,
}

impl Filter {
    pub open spec fn fv(&self) -> (Seq<char>, JV) {
        (self.name@, self.args.jv())
    }
}

pub open spec fn raw_filters_view(fs: Seq<Filter>) -> Seq<(Seq<char>, JV)> {
    Seq::new(fs.len(), |i: int| if 0 <= i < fs.len() {
        fs[i].fv()
    } else {
        (Seq::empty(), JV::Null)
    })
}

/// One metric of the raw configuration.
pub struct Metric {
    pub path: String,
    pub name: Option<String>,
    pub metric_type: Option<MetricType>,
    pub modifiers: Vec<Filter>,
    pub labels: Vec<Label>,
    pub metrics: Vec<Metric>,
}

/// Spec-level form of a raw metric.
#[verifier::ext_equal]
pub ghost struct MetricV {
    pub path: Seq<char>,
    pub name: Option<Seq<char>>,
    pub metric_type: Option<MetricType>,
    pub modifiers: Seq<(Seq<char>, JV)>,
    pub labels: Seq<(Seq<char>, Seq<char>)>,
    pub metrics: Seq<MetricV>,
}

impl Metric {
    /// The raw metric as mathematics.
    pub open spec fn mv(&self) -> MetricV
        decreases self,
    {
        MetricV {
            path: self.path@,
            name: match self.name {
                Some(ref n) => Some(n@),
                None => None,
            },
            metric_type: self.metric_type,
            modifiers: raw_filters_view(self.modifiers@),
            labels: labels_view(self.labels@),
            metrics: Seq::new(self.metrics@.len(), |i: int| if 0 <= i < self.metrics@.len() {
                self.metrics@[i].mv()
            } else {
                arbitrary()
            }),
        }
    }

    /// The shorthand form: a bare path with everything else left out.
    pub fn from_path(path: &str) -> (r: Metric)
        ensures
            r.mv() == (MetricV {
                path: path@,
                name: None::<Seq<char>>,
                metric_type: None::<MetricType>,
                modifiers: Seq::<(Seq<char>, JV)>::empty(),
                labels: Seq::<(Seq<char>, Seq<char>)>::empty(),
                metrics: Seq::<MetricV>::empty(),
            }),
    {
        let r = Metric {
            path: String::from_str(path),
            name: None,
            metric_type: None,
            modifiers: Vec::new(),
            labels: Vec::new(),
            metrics: Vec::new(),
        };
        proof {
            assert(r.mv().modifiers =~= Seq::<(Seq<char>, JV)>::empty());
            assert(r.mv().labels =~= Seq::<(Seq<char>, Seq<char>)>::empty());
            assert(r.mv().metrics =~= Seq::<MetricV>::empty());
        }
        r
    }
}

pub open spec fn metrics_view(ms: Seq<Metric>) -> Seq<MetricV> {
    Seq::new(ms.len(), |i: int| if 0 <= i < ms.len() {
        ms[i].mv()
    } else {
        arbitrary()
    })
}

/// A list of metrics, as a configuration file's top level holds it.
pub struct Metrics {
    pub metrics: Vec<Metric>,
}

/// A scrape endpoint of the raw configuration.
pub struct Endpoint {
    pub id: Option<String>,
    pub url: String,
    pub url_parts: UrlParts,
    pub name: String,
    pub metrics: Vec<Metric>,
}

/// Labels fetched once at startup from a URL and attached to every sample.
pub struct GlobalLabels {
    pub url: String,
    pub labels: Vec<Label>,
}

/// The whole raw configuration.
pub struct Config {
    pub namespace: Option<String>,
    pub global_labels: Vec<GlobalLabels>,
    pub endpoints: Vec<Endpoint>,
}

} // verus!
