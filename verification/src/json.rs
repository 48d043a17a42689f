use vstd::prelude::*;

verus! {

/// Spec-level model of a JSON document.
#[verifier::ext_equal]
pub ghost enum JV {
    Null,
    Bool(bool),
    Num(Seq<char>),
    Str(Seq<char>),
    Arr(Seq<JV>),
    Obj(Seq<(Seq<char>, JV)>),
}

/// One member of a JSON object: a key and the value below it.
#[derive(Debug)]
pub struct JsonEntry {
    pub name: String,
    pub value: JsonValue,
}

/// A JSON document as the engine sees it.
///
/// A number is carried by its canonical JSON text, the form in which the
/// document's parser rendered it; emission copies that text byte for byte,
/// so no floating point enters the library. Object entries keep the order
/// in which the parser yields them, which is the traversal order that
/// selectors observe.
#[derive(Debug)]
pub enum JsonValue {
    Null,
    Bool(bool),
    Num(String),
    Str(String),
    Arr(Vec<JsonValue>),
    Obj(Vec<JsonEntry>),
}

impl JsonEntry {
    pub open spec fn jv(&self) -> (Seq<char>, JV) {
        (self.name@, self.value.jv())
    }
}

impl JsonValue {
    /// The mathematical value this node stands for.
    pub open spec fn jv(&self) -> JV
        decreases self,
    {
        match self {
            JsonValue::Null => JV::Null,
            JsonValue::Bool(b) => JV::Bool(*b),
            JsonValue::Num(s) => JV::Num(s@),
            JsonValue::Str(s) => JV::Str(s@),
            JsonValue::Arr(items) => JV::Arr(
                Seq::new(items@.len(), |i: int| if 0 <= i < items@.len() {
                    items@[i].jv()
                } else {
                    JV::Null
                }),
            ),
            JsonValue::Obj(entries) => JV::Obj(
                Seq::new(entries@.len(), |i: int| if 0 <= i < entries@.len() {
                    (entries@[i].name@, entries@[i].value.jv())
                } else {
                    (Seq::empty(), JV::Null)
                }),
            ),
        }
    }
}

impl JsonValue {
    /// A scalar is a value that a sample can carry: a number, a boolean
    /// or a string.
    pub open spec fn is_scalar_spec(self) -> bool {
        self.jv() is Num || self.jv() is Str || self.jv() is Bool
    }

    pub fn is_scalar(&self) -> (r: bool)
        ensures
            r == self.is_scalar_spec(),
    {
        match self {
            JsonValue::Num(_) => true,
            JsonValue::Str(_) => true,
            JsonValue::Bool(_) => true,
            _ => false,
        }
    }

    /// Structural copy; the copy has the same model as the original.
    #[verifier::loop_isolation(false)]
    pub fn duplicate(&self) -> (r: JsonValue)
        ensures
            r.jv() == self.jv(),
        decreases self,
    {
        match self {
            JsonValue::Null => JsonValue::Null,
            JsonValue::Bool(b) => JsonValue::Bool(*b),
            JsonValue::Num(s) => JsonValue::Num(s.clone()),
            JsonValue::Str(s) => JsonValue::Str(s.clone()),
            JsonValue::Arr(items) => {
                let mut out: Vec<JsonValue> = Vec::new();
                let mut i: usize = 0;
                while i < items.len()
                    invariant
                        i <= items.len(),
                        out@.len() == i as int,
                        forall|j: int| 0 <= j < i ==> out@[j].jv() == items@[j].jv(),
                    decreases items.len() - i,
                {
                    proof {
                        assert(decreases_to!(*self => items@[i as int]));
                    }
                    out.push(items[i].duplicate());
                    i = i + 1;
                }
                let r = JsonValue::Arr(out);
                proof {
                    assert(r.jv() matches JV::Arr(s) && s =~= self.jv()->Arr_0);
                }
                r
            },
            JsonValue::Obj(entries) => {
                let mut out: Vec<JsonEntry> = Vec::new();
                let mut i: usize = 0;
                while i < entries.len()
                    invariant
                        i <= entries.len(),
                        out@.len() == i as int,
                        forall|j: int| 0 <= j < i ==> out@[j].name@ == entries@[j].name@
                            && out@[j].value.jv() == entries@[j].value.jv(),
                    decreases entries.len() - i,
                {
                    proof {
                        assert(decreases_to!(*self => entries@[i as int].value));
                    }
                    let key = entries[i].name.clone();
                    let val = entries[i].value.duplicate();
                    out.push(JsonEntry { name: key, value: val });
                    i = i + 1;
                }
                let r = JsonValue::Obj(out);
                proof {
                    assert(r.jv() matches JV::Obj(s) && s =~= self.jv()->Obj_0);
                }
                r
            },
        }
    }
}

} // verus!
