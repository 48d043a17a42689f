use vstd::prelude::*;

use crate::interop::{div_number_text, mul_number_text, product_text, quotient_text};
use crate::json::{JsonValue, JV};
use crate::text::str_eq;

verus! {

/// Why a filter cannot be built from its arguments.
#[derive(Clone, Copy, PartialEq, Eq, Structural, Debug)]
pub enum ArgsError {
    SingleArgumentRequired,
    ObjectArgumentsNotSupported,
    InvalidArgument,
    TooManyArguments,
}

/// Why a filter refused a value at extraction time.
#[derive(Clone, Copy, PartialEq, Eq, Structural, Debug)]
pub enum FilterError {
    InvalidType,
}

impl FilterError {
    /// The text this error carries into a warning.
    pub fn msg(&self) -> (r: String)
        ensures
            r@ == "Invalid type"@,
    {
        String::from_str("Invalid type")
    }
}

/// What a scalar argument form yields: a bare scalar, or a one-element
/// list holding the argument.
pub open spec fn spec_single_scalar_arg(a: JV) -> Result<JV, ArgsError> {
    match a {
        JV::Num(_) => Ok(a),
        JV::Str(_) => Ok(a),
        JV::Bool(_) => Ok(a),
        JV::Arr(items) => if items.len() == 1 {
            Ok(items[0])
        } else {
            Err(ArgsError::SingleArgumentRequired)
        },
        JV::Obj(_) => Err(ArgsError::ObjectArgumentsNotSupported),
        JV::Null => Err(ArgsError::SingleArgumentRequired),
    }
}

/// What a numeric argument form yields: a bare number, a one-element list
/// holding a number, or a one-entry mapping from the given keyword to a
/// number; the number's canonical text.
pub open spec fn spec_single_number_arg(a: JV, key: Seq<char>) -> Result<Seq<char>, ArgsError> {
    match a {
        JV::Num(t) => Ok(t),
        JV::Arr(items) => if items.len() == 1 && items[0] is Num {
            Ok(items[0]->Num_0)
        } else {
            Err(ArgsError::InvalidArgument)
        },
        JV::Obj(entries) => if entries.len() > 1 {
            Err(ArgsError::TooManyArguments)
        } else if entries.len() == 1 && entries[0].0 == key && entries[0].1 is Num {
            Ok(entries[0].1->Num_0)
        } else {
            Err(ArgsError::InvalidArgument)
        },
        _ => Err(ArgsError::InvalidArgument),
    }
}

pub fn single_scalar_arg(args: &JsonValue) -> (r: Result<JsonValue, ArgsError>)
    ensures
        r is Ok <==> spec_single_scalar_arg(args.jv()) is Ok,
        r matches Ok(v) ==> v.jv() == spec_single_scalar_arg(args.jv())->Ok_0,
        r matches Err(e) ==> spec_single_scalar_arg(args.jv()) matches Err(e2) && e == e2,
{
    match args {
        JsonValue::Num(_) => Ok(args.duplicate()),
        JsonValue::Str(_) => Ok(args.duplicate()),
        JsonValue::Bool(_) => Ok(args.duplicate()),
        JsonValue::Arr(items) => {
            if items.len() == 1 {
                Ok(items[0].duplicate())
            } else {
                Err(ArgsError::SingleArgumentRequired)
            }
        },
        JsonValue::Obj(_) => Err(ArgsError::ObjectArgumentsNotSupported),
        JsonValue::Null => Err(ArgsError::SingleArgumentRequired),
    }
}

pub fn single_number_arg(args: &JsonValue, key: &str) -> (r: Result<String, ArgsError>)
    ensures
        r is Ok <==> spec_single_number_arg(args.jv(), key@) is Ok,
        r matches Ok(t) ==> t@ == spec_single_number_arg(args.jv(), key@)->Ok_0,
        r matches Err(e) ==> spec_single_number_arg(args.jv(), key@) matches Err(e2) && e == e2,
{
    match args {
        JsonValue::Num(t) => {
            let c = t.clone();
            proof {
                assert(args.jv() == JV::Num(t@));
                assert(spec_single_number_arg(args.jv(), key@) == Ok::<Seq<char>, ArgsError>(t@));
                assert(c@ == t@);
            }
            Ok(c)
        },
        JsonValue::Arr(items) => {
            if items.len() == 1 {
                match &items[0] {
                    JsonValue::Num(t) => {
                        proof {
                            assert(items@[0].jv() == JV::Num(t@));
                            assert(args.jv()->Arr_0[0] == items@[0].jv());
                        }
                        Ok(t.clone())
                    },
                    _ => {
                        proof {
                            assert(!(items@[0].jv() is Num));
                            assert(args.jv()->Arr_0[0] == items@[0].jv());
                        }
                        Err(ArgsError::InvalidArgument)
                    },
                }
            } else {
                Err(ArgsError::InvalidArgument)
            }
        },
        JsonValue::Obj(entries) => {
            if entries.len() > 1 {
                Err(ArgsError::TooManyArguments)
            } else if entries.len() == 1 {
                proof {
                    assert(args.jv()->Obj_0[0] == (entries@[0].name@, entries@[0].value.jv()));
                }
                if str_eq(entries[0].name.as_str(), key) {
                    match &entries[0].value {
                        JsonValue::Num(t) => {
                            proof {
                                assert(entries@[0].value.jv() == JV::Num(t@));
                            }
                            Ok(t.clone())
                        },
                        _ => {
                            proof {
                                assert(!(entries@[0].value.jv() is Num));
                            }
                            Err(ArgsError::InvalidArgument)
                        },
                    }
                } else {
                    Err(ArgsError::InvalidArgument)
                }
            } else {
                Err(ArgsError::InvalidArgument)
            }
        },
        _ => Err(ArgsError::InvalidArgument),
    }
}

/// Returns a fixed scalar whatever the input.
pub struct Const {
    pub value: JsonValue,
}

/// Multiplies a numeric input by a fixed factor.
pub struct Multiply {
    pub factor: String,
}

/// Divides a numeric input by a fixed denominator.
pub struct Divide {
    pub denominator: String,
}

/// Tests the input for equality with a fixed scalar.
pub struct Equal {
    pub value: JsonValue,
}

/// A constructed filter instance, ready to run against sample values.
pub enum PreparedFilter {
    Const(Const),
    Multiply(Multiply),
    Divide(Divide),
    Equal(Equal),
}

/// Spec-level form of a constructed filter.
pub ghost enum FilterV {
    Const(JV),
    Multiply(Seq<char>),
    Divide(Seq<char>),
    Equal(JV),
}

impl PreparedFilter {
    pub open spec fn fv(&self) -> FilterV {
        match self {
            PreparedFilter::Const(f) => FilterV::Const(f.value.jv()),
            PreparedFilter::Multiply(f) => FilterV::Multiply(f.factor@),
            PreparedFilter::Divide(f) => FilterV::Divide(f.denominator@),
            PreparedFilter::Equal(f) => FilterV::Equal(f.value.jv()),
        }
    }
}

/// Scalar equality as the `eq` filter sees it: two numbers are equal when
/// their canonical texts are, and values of different kinds are not equal.
pub open spec fn jv_scalar_eq(a: JV, b: JV) -> bool {
    match (a, b) {
        (JV::Str(x), JV::Str(y)) => x == y,
        (JV::Num(x), JV::Num(y)) => x == y,
        (JV::Bool(x), JV::Bool(y)) => x == y,
        (JV::Null, JV::Null) => true,
        _ => false,
    }
}

/// What applying a constructed filter to a value yields.
pub open spec fn spec_apply(f: FilterV, v: JV) -> Result<JV, FilterError> {
    match f {
        FilterV::Const(c) => Ok(c),
        FilterV::Multiply(factor) => match v {
            JV::Num(t) => Ok(
                match product_text(t, factor) {
                    Some(p) => JV::Num(p),
                    None => JV::Null,
                },
            ),
            _ => Err(FilterError::InvalidType),
        },
        FilterV::Divide(denominator) => match v {
            JV::Num(t) => Ok(
                match quotient_text(t, denominator) {
                    Some(p) => JV::Num(p),
                    None => JV::Null,
                },
            ),
            _ => Err(FilterError::InvalidType),
        },
        FilterV::Equal(c) => Ok(JV::Bool(jv_scalar_eq(c, v))),
    }
}

impl PreparedFilter {
    /// Runs the filter on one value.
    pub fn apply(&self, value: &JsonValue) -> (r: Result<JsonValue, FilterError>)
        ensures
            r is Ok <==> spec_apply(self.fv(), value.jv()) is Ok,
            r matches Ok(v) ==> v.jv() == spec_apply(self.fv(), value.jv())->Ok_0,
            r matches Err(e) ==> spec_apply(self.fv(), value.jv()) matches Err(e2) && e == e2,
    {
        match self {
            PreparedFilter::Const(f) => Ok(f.value.duplicate()),
            PreparedFilter::Multiply(f) => match value {
                JsonValue::Num(t) => match mul_number_text(t.as_str(), f.factor.as_str()) {
                    Some(p) => Ok(JsonValue::Num(p)),
                    None => Ok(JsonValue::Null),
                },
                _ => Err(FilterError::InvalidType),
            },
            PreparedFilter::Divide(f) => match value {
                JsonValue::Num(t) => match div_number_text(t.as_str(), f.denominator.as_str()) {
                    Some(p) => Ok(JsonValue::Num(p)),
                    None => Ok(JsonValue::Null),
                },
                _ => Err(FilterError::InvalidType),
            },
            PreparedFilter::Equal(f) => {
                let eq = match (&f.value, value) {
                    (JsonValue::Str(x), JsonValue::Str(y)) => str_eq(x.as_str(), y.as_str()),
                    (JsonValue::Num(x), JsonValue::Num(y)) => str_eq(x.as_str(), y.as_str()),
                    (JsonValue::Bool(x), JsonValue::Bool(y)) => *x == *y,
                    (JsonValue::Null, JsonValue::Null) => true,
                    _ => false,
                };
                Ok(JsonValue::Bool(eq))
            },
        }
    }
}

impl Const {
    /// Builds a `const` filter from its argument.
    pub fn create(args: &JsonValue) -> (r: Result<Const, ArgsError>)
        ensures
            r is Ok <==> spec_single_scalar_arg(args.jv()) is Ok,
            r matches Ok(f) ==> f.value.jv() == spec_single_scalar_arg(args.jv())->Ok_0,
            r matches Err(e) ==> spec_single_scalar_arg(args.jv()) matches Err(e2) && e == e2,
    {
        match single_scalar_arg(args) {
            Ok(v) => Ok(Const { value: v }),
            Err(e) => Err(e),
        }
    }
}

impl Multiply {
    /// Builds a `mul` filter; the factor may come bare, in a one-element
    /// list, or under the keyword `factor`.
    pub fn create(args: &JsonValue) -> (r: Result<Multiply, ArgsError>)
        ensures
            r is Ok <==> spec_single_number_arg(args.jv(), "factor"@) is Ok,
            r matches Ok(f) ==> f.factor@ == spec_single_number_arg(args.jv(), "factor"@)->Ok_0,
            r matches Err(e) ==> spec_single_number_arg(args.jv(), "factor"@) matches Err(e2)
                && e == e2,
    {
        match single_number_arg(args, "factor") {
            Ok(t) => Ok(Multiply { factor: t }),
            Err(e) => Err(e),
        }
    }
}

impl Divide {
    /// Builds a `div` filter; the denominator may come bare, in a
    /// one-element list, or under the keyword `divisor`.
    pub fn create(args: &JsonValue) -> (r: Result<Divide, ArgsError>)
        ensures
            r is Ok <==> spec_single_number_arg(args.jv(), "divisor"@) is Ok,
            r matches Ok(f) ==> f.denominator@ == spec_single_number_arg(
                args.jv(),
                "divisor"@,
            )->Ok_0,
            r matches Err(e) ==> spec_single_number_arg(args.jv(), "divisor"@) matches Err(e2)
                && e == e2,
    {
        match single_number_arg(args, "divisor") {
            Ok(t) => Ok(Divide { denominator: t }),
            Err(e) => Err(e),
        }
    }
}

impl Equal {
    /// Builds an `eq` filter from its argument.
    pub fn create(args: &JsonValue) -> (r: Result<Equal, ArgsError>)
        ensures
            r is Ok <==> spec_single_scalar_arg(args.jv()) is Ok,
            r matches Ok(f) ==> f.value.jv() == spec_single_scalar_arg(args.jv())->Ok_0,
            r matches Err(e) ==> spec_single_scalar_arg(args.jv()) matches Err(e2) && e == e2,
    {
        match single_scalar_arg(args) {
            Ok(v) => Ok(Equal { value: v }),
            Err(e) => Err(e),
        }
    }
}

/// Why a filter entry of the configuration is refused.
#[derive(Clone, Copy, PartialEq, Eq, Structural, Debug)]
pub enum FilterCreateError {
    UnknownFilter,
    Args(ArgsError),
}

/// What the registry yields for a filter name and its arguments.
pub open spec fn spec_create_filter(name: Seq<char>, args: JV) -> Result<
    FilterV,
    FilterCreateError,
> {
    if name == "mul"@ || name == "multiply"@ {
        match spec_single_number_arg(args, "factor"@) {
            Ok(t) => Ok(FilterV::Multiply(t)),
            Err(e) => Err(FilterCreateError::Args(e)),
        }
    } else if name == "div"@ || name == "divide"@ {
        match spec_single_number_arg(args, "divisor"@) {
            Ok(t) => Ok(FilterV::Divide(t)),
            Err(e) => Err(FilterCreateError::Args(e)),
        }
    } else if name == "const"@ {
        match spec_single_scalar_arg(args) {
            Ok(v) => Ok(FilterV::Const(v)),
            Err(e) => Err(FilterCreateError::Args(e)),
        }
    } else if name == "eq"@ {
        match spec_single_scalar_arg(args) {
            Ok(v) => Ok(FilterV::Equal(v)),
            Err(e) => Err(FilterCreateError::Args(e)),
        }
    } else {
        Err(FilterCreateError::UnknownFilter)
    }
}

/// The registry of built-in filters: resolves a name and constructs the
/// filter from its arguments.
pub fn create_filter(name: &str, args: &JsonValue) -> (r: Result<PreparedFilter, FilterCreateError>)
    ensures
        r is Ok <==> spec_create_filter(name@, args.jv()) is Ok,
        r matches Ok(f) ==> f.fv() == spec_create_filter(name@, args.jv())->Ok_0,
        r matches Err(e) ==> spec_create_filter(name@, args.jv()) matches Err(e2) && e == e2,
{
    if str_eq(name, "mul") || str_eq(name, "multiply") {
        match Multiply::create(args) {
            Ok(f) => Ok(PreparedFilter::Multiply(f)),
            Err(e) => Err(FilterCreateError::Args(e)),
        }
    } else if str_eq(name, "div") || str_eq(name, "divide") {
        match Divide::create(args) {
            Ok(f) => Ok(PreparedFilter::Divide(f)),
            Err(e) => Err(FilterCreateError::Args(e)),
        }
    } else if str_eq(name, "const") {
        match Const::create(args) {
            Ok(f) => Ok(PreparedFilter::Const(f)),
            Err(e) => Err(FilterCreateError::Args(e)),
        }
    } else if str_eq(name, "eq") {
        match Equal::create(args) {
            Ok(f) => Ok(PreparedFilter::Equal(f)),
            Err(e) => Err(FilterCreateError::Args(e)),
        }
    } else {
        Err(FilterCreateError::UnknownFilter)
    }
}

} // verus!
