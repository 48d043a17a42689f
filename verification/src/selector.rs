use vstd::prelude::*;

use crate::json::{JsonValue, JV};
use crate::text::{dec_str, u64_to_string};
use crate::tmpl::{
    digit_prefix_len,
    digits_val,
    is_digit,
    lemma_digit_prefix_len_at,
    lemma_digits_val_snoc,
};

verus! {

/// One step of a match path, from the document root to the matched value.
#[derive(Debug, PartialEq, Eq)]
pub enum Step {
    Root,
    Key(String),
    Index(u64),
}

/// Spec-level form of a path step.
pub ghost enum StepV {
    Root,
    Key(Seq<char>),
    Index(u64),
}

impl Step {
    pub open spec fn sv(&self) -> StepV {
        match self {
            Step::Root => StepV::Root,
            Step::Key(k) => StepV::Key(k@),
            Step::Index(i) => StepV::Index(*i),
        }
    }
}

pub open spec fn steps_view(ps: Seq<Step>) -> Seq<StepV> {
    Seq::new(ps.len(), |i: int| if 0 <= i < ps.len() {
        ps[i].sv()
    } else {
        StepV::Root
    })
}

/// One compiled segment of a selector expression.
#[derive(Debug)]
pub enum SelStep {
    Key(String),
    Index(u64),
    Wildcard,
}

/// Spec-level form of a compiled segment.
pub ghost enum SelStepV {
    Key(Seq<char>),
    Index(u64),
    Wildcard,
}

impl SelStep {
    pub open spec fn sv(&self) -> SelStepV {
        match self {
            SelStep::Key(k) => SelStepV::Key(k@),
            SelStep::Index(i) => SelStepV::Index(*i),
            SelStep::Wildcard => SelStepV::Wildcard,
        }
    }
}

pub open spec fn sel_steps_view(ps: Seq<SelStep>) -> Seq<SelStepV> {
    Seq::new(ps.len(), |i: int| if 0 <= i < ps.len() {
        ps[i].sv()
    } else {
        SelStepV::Wildcard
    })
}

/// One selector match: the value found and the path walked to it.
#[derive(Debug)]
pub struct FoundMatch {
    pub value: JsonValue,
    pub path: Vec<Step>,
}

impl FoundMatch {
    pub open spec fn mv(&self) -> (JV, Seq<StepV>) {
        (self.value.jv(), steps_view(self.path@))
    }
}

pub open spec fn matches_view(ms: Seq<FoundMatch>) -> Seq<(JV, Seq<StepV>)> {
    Seq::new(ms.len(), |i: int| if 0 <= i < ms.len() {
        ms[i].mv()
    } else {
        (JV::Null, Seq::empty())
    })
}

/// The children a wildcard walks: each object entry under its key step, or
/// each array element under its index step.
pub open spec fn wild_children(v: JV) -> Seq<(StepV, JV)> {
    match v {
        JV::Obj(entries) => Seq::new(entries.len(), |i: int| if 0 <= i < entries.len() {
            (StepV::Key(entries[i].0), entries[i].1)
        } else {
            (StepV::Root, JV::Null)
        }),
        JV::Arr(items) => Seq::new(items.len(), |i: int| if 0 <= i < items.len() {
            (StepV::Index(i as u64), items[i])
        } else {
            (StepV::Root, JV::Null)
        }),
        _ => Seq::empty(),
    }
}

/// All matches of the remaining segments against a value, in document
/// order, each with the path walked so far extended below it.
pub open spec fn sel_find(steps: Seq<SelStepV>, v: JV, path: Seq<StepV>) -> Seq<(JV, Seq<StepV>)>
    decreases steps.len(), 1nat, 0nat,
{
    if steps.len() == 0 {
        seq![(v, path)]
    } else {
        match steps[0] {
            SelStepV::Key(k) => match v {
                JV::Obj(entries) => sel_key(steps, k, entries, path),
                _ => Seq::empty(),
            },
            SelStepV::Index(i) => match v {
                JV::Arr(items) => if i < items.len() {
                    sel_find(steps.drop_first(), items[i as int], path.push(StepV::Index(i)))
                } else {
                    Seq::empty()
                },
                JV::Obj(entries) => sel_key(steps, dec_str(i as nat), entries, path),
                _ => Seq::empty(),
            },
            SelStepV::Wildcard => sel_wild(steps, wild_children(v), path),
        }
    }
}

/// Key access: the first entry under the key, if any.
pub open spec fn sel_key(
    steps: Seq<SelStepV>,
    k: Seq<char>,
    entries: Seq<(Seq<char>, JV)>,
    path: Seq<StepV>,
) -> Seq<(JV, Seq<StepV>)>
    decreases steps.len(), 0nat, entries.len(),
{
    if steps.len() == 0 || entries.len() == 0 {
        Seq::empty()
    } else if entries[0].0 == k {
        sel_find(steps.drop_first(), entries[0].1, path.push(StepV::Key(k)))
    } else {
        sel_key(steps, k, entries.drop_first(), path)
    }
}

/// Wildcard access: every child in stored order.
pub open spec fn sel_wild(
    steps: Seq<SelStepV>,
    children: Seq<(StepV, JV)>,
    path: Seq<StepV>,
) -> Seq<(JV, Seq<StepV>)>
    decreases steps.len(), 0nat, children.len(),
{
    if steps.len() == 0 || children.len() == 0 {
        Seq::empty()
    } else {
        sel_find(steps.drop_first(), children[0].1, path.push(children[0].0)) + sel_wild(
            steps,
            children.drop_first(),
            path,
        )
    }
}


/// The expression with its root marker removed: a leading `$`, then a
/// leading `.`, are dropped.
pub open spec fn strip_root(s: Seq<char>) -> Seq<char> {
    let t = if s.len() > 0 && s[0] == '$' {
        s.drop_first()
    } else {
        s
    };
    if t.len() > 0 && t[0] == '.' {
        t.drop_first()
    } else {
        t
    }
}

/// Position of the first `.` in the text, if any.
pub open spec fn dot_ix(s: Seq<char>) -> Option<nat>
    decreases s.len(),
{
    if s.len() == 0 {
        None
    } else if s[0] == '.' {
        Some(0)
    } else {
        match dot_ix(s.drop_first()) {
            Some(k) => Some(1 + k),
            None => None,
        }
    }
}

proof fn lemma_dot_ix_at(s: Seq<char>, i: int)
    requires
        0 <= i <= s.len(),
        forall|j: int| 0 <= j < i ==> s[j] != '.',
    ensures
        i == s.len() ==> dot_ix(s) is None,
        i < s.len() && s[i] == '.' ==> dot_ix(s) == Some(i as nat),
    decreases i,
{
    if i > 0 {
        assert(forall|j: int| 0 <= j < i - 1 ==> s.drop_first()[j] != '.');
        lemma_dot_ix_at(s.drop_first(), i - 1);
    }
}

/// The expression body split at every dot.
pub open spec fn split_dots(s: Seq<char>) -> Seq<Seq<char>>
    decreases s.len(),
{
    match dot_ix(s) {
        None => seq![s],
        Some(k) => if k < s.len() {
            seq![s.take(k as int)] + split_dots(s.skip(k as int + 1))
        } else {
            seq![s]
        },
    }
}

/// What one segment compiles to: `*` is a wildcard; a run of digits with
/// no leading zero that fits a machine index is an index; any other
/// non-empty segment without a bracket is a key. Bracketed forms of the
/// richer selector dialect are rejected.
pub open spec fn seg_step(seg: Seq<char>) -> Option<SelStepV> {
    if seg.len() == 1 && seg[0] == '*' {
        Some(SelStepV::Wildcard)
    } else if seg.len() == 0 {
        None
    } else if exists|j: int| 0 <= j < seg.len() && (seg[j] == '[' || seg[j] == ']') {
        None
    } else if digit_prefix_len(seg) == seg.len() && (seg[0] != '0' || seg.len() == 1)
        && digits_val(seg) <= u64::MAX {
        Some(SelStepV::Index(digits_val(seg) as u64))
    } else {
        Some(SelStepV::Key(seg))
    }
}

/// What compiling an expression yields: the root selector for an empty
/// body, else one compiled step per segment; nothing when a segment is
/// invalid.
pub open spec fn spec_compile(s: Seq<char>) -> Option<Seq<SelStepV>> {
    let t = strip_root(s);
    if t.len() == 0 {
        Some(Seq::empty())
    } else {
        let segs = split_dots(t);
        if forall|i: int| 0 <= i < segs.len() ==> #[trigger] seg_step(segs[i]) is Some {
            Some(Seq::new(segs.len(), |i: int| if 0 <= i < segs.len() {
                seg_step(segs[i])->Some_0
            } else {
                SelStepV::Wildcard
            }))
        } else {
            None
        }
    }
}

/// The rooted text of an expression, as the prepared plan records it.
pub open spec fn rooted_expr(s: Seq<char>) -> Seq<char> {
    let t = strip_root(s);
    if t.len() == 0 {
        "$"@
    } else {
        "$."@ + t
    }
}

proof fn lemma_digit_prefix_full(s: Seq<char>)
    requires
        digit_prefix_len(s) == s.len(),
    ensures
        forall|j: int| 0 <= j < s.len() ==> is_digit(#[trigger] s[j]),
    decreases s.len(),
{
    if s.len() > 0 {
        assert(is_digit(s[0]));
        lemma_digit_prefix_full(s.drop_first());
        assert(forall|j: int| 1 <= j < s.len() ==> s[j] == s.drop_first()[j - 1]);
    }
}

fn classify_segment(seg: &str) -> (r: Option<SelStep>)
    ensures
        r is Some <==> seg_step(seg@) is Some,
        r matches Some(st) ==> seg_step(seg@) matches Some(sv) && st.sv() == sv,
{
    let n = seg.unicode_len();
    if n == 0 {
        return None;
    }
    if n == 1 && seg.get_char(0) == '*' {
        return Some(SelStep::Wildcard);
    }
    let mut i: usize = 0;
    let mut digits: usize = 0;
    let mut acc: u128 = 0;
    let mut over: bool = false;
    let mut bracket: bool = false;
    while i < n
        invariant
            n == seg@.len(),
            i <= n,
            digits <= i,
            bracket <==> exists|j: int| 0 <= j < i && (#[trigger] seg@[j] == '['
                || seg@[j] == ']'),
            digits == i ==> forall|j: int| 0 <= j < i ==> is_digit(#[trigger] seg@[j]),
            digits == digit_prefix_len(seg@.take(i as int)),
            !over ==> acc == digits_val(seg@.take(digits as int)) && acc <= u64::MAX,
            over ==> digits_val(seg@.take(digits as int)) > u64::MAX,
        decreases n - i,
    {
        let c = seg.get_char(i);
        if c == '[' || c == ']' {
            bracket = true;
        }
        let ghost pre = seg@.take(i as int);
        if 48 <= c as u32 && c as u32 <= 57 {
            if digits == i {
                proof {
                    lemma_digits_val_snoc(seg@, i as int);
                    lemma_digit_prefix_len_at(
                        seg@.take(i + 1 as int),
                        i + 1 as int,
                    );
                }
                if !over {
                    let d = (c as u32 - 48) as u128;
                    acc = acc * 10 + d;
                    if acc > 0xffff_ffff_ffff_ffff {
                        over = true;
                    }
                } else {
                    proof {
                        assert(digits_val(seg@.take(i as int)) * 10 >= digits_val(
                            seg@.take(i as int),
                        ));
                        lemma_digits_val_snoc(seg@, i as int);
                    }
                }
                digits = digits + 1;
            } else {
                proof {
                    lemma_prefix_len_stable(seg@, i as int, digits as int);
                }
            }
        } else {
            proof {
                if digits == i {
                    lemma_digit_prefix_len_at(seg@.take(i + 1 as int), i as int);
                } else {
                    lemma_prefix_len_stable(seg@, i as int, digits as int);
                }
            }
        }
        i = i + 1;
    }
    proof {
        assert(seg@.take(n as int) =~= seg@);
    }
    if bracket {
        return None;
    }
    if digits == n {
        let first = seg.get_char(0);
        if (first != '0' || n == 1) && !over {
            return Some(SelStep::Index(acc as u64));
        } else {
            return Some(SelStep::Key(String::from_str(seg)));
        }
    }
    Some(SelStep::Key(String::from_str(seg)))
}

proof fn lemma_prefix_len_stable(s: Seq<char>, i: int, d: int)
    requires
        0 <= d < i < s.len(),
        d == digit_prefix_len(s.take(i)),
    ensures
        digit_prefix_len(s.take(i + 1)) == d,
{
    lemma_digit_prefix_bound(s.take(i));
    if d < i {
        lemma_digit_prefix_stop(s.take(i), d);
        assert(forall|j: int| 0 <= j < d ==> is_digit(#[trigger] s.take(i + 1)[j])) by {
            lemma_digit_prefix_all(s.take(i), d);
        }
        assert(!is_digit(s.take(i + 1)[d]));
        lemma_digit_prefix_len_at(s.take(i + 1), d);
    }
}

proof fn lemma_digit_prefix_bound(s: Seq<char>)
    ensures
        digit_prefix_len(s) <= s.len(),
    decreases s.len(),
{
    if s.len() > 0 && is_digit(s[0]) {
        lemma_digit_prefix_bound(s.drop_first());
    }
}

proof fn lemma_digit_prefix_all(s: Seq<char>, d: int)
    requires
        0 <= d == digit_prefix_len(s) <= s.len(),
    ensures
        forall|j: int| 0 <= j < d ==> is_digit(#[trigger] s[j]),
    decreases s.len(),
{
    if s.len() > 0 && is_digit(s[0]) && d > 0 {
        lemma_digit_prefix_all(s.drop_first(), d - 1);
        assert(forall|j: int| 1 <= j < d ==> s[j] == s.drop_first()[j - 1]);
    }
}

proof fn lemma_digit_prefix_stop(s: Seq<char>, d: int)
    requires
        0 <= d == digit_prefix_len(s),
        d < s.len(),
    ensures
        !is_digit(s[d]),
    decreases s.len(),
{
    if s.len() > 0 && is_digit(s[0]) {
        lemma_digit_prefix_stop(s.drop_first(), d - 1);
    }
}


/// A compiled selector: the rooted text it was compiled from, and its
/// segments.
#[derive(Debug)]
pub struct JsonSelector {
    pub expression: String,
    pub steps: Vec<SelStep>,
}

impl JsonSelector {
    /// Compiles a selector expression. An empty body compiles to the root
    /// selector; a leading `$` or `.` is accepted and dropped.
    pub fn new(expression: &str) -> (r: Option<JsonSelector>)
        ensures
            r is Some <==> spec_compile(expression@) is Some,
            r matches Some(sel) ==> spec_compile(expression@) matches Some(sv) && sel_steps_view(
                sel.steps@,
            ) == sv && sel.expression@ == rooted_expr(expression@),
    {
        proof {
            reveal_strlit("$");
            reveal_strlit("$.");
        }
        let n = expression.unicode_len();
        let mut a: usize = 0;
        if a < n && expression.get_char(a) == '$' {
            a = a + 1;
        }
        if a < n && expression.get_char(a) == '.' {
            a = a + 1;
        }
        let body = expression.substring_char(a, n);
        proof {
            assert(body@ =~= strip_root(expression@));
        }
        if a == n {
            let mut ex = String::new();
            ex.append("$");
            proof {
                assert(ex@ =~= rooted_expr(expression@));
                assert(sel_steps_view(Seq::<SelStep>::empty()) =~= Seq::<SelStepV>::empty());
                assert(spec_compile(expression@) matches Some(sv) && sv =~= Seq::<
                    SelStepV,
                >::empty());
            }
            return Some(JsonSelector { expression: ex, steps: Vec::new() });
        }
        let mut ex = String::new();
        ex.append("$.");
        ex.append(body);
        let mut steps: Vec<SelStep> = Vec::new();
        let mut cur: &str = body;
        let ghost t = body@;
        let ghost mut done: Seq<Seq<char>> = Seq::empty();
        proof {
            assert(split_dots(t) =~= done + split_dots(cur@));
        }
        loop
            invariant_except_break
                split_dots(t) == done + split_dots(cur@),
            invariant
                t == strip_root(expression@),
                t.len() > 0,
                ex@ == rooted_expr(expression@),
                forall|i: int| 0 <= i < done.len() ==> #[trigger] seg_step(done[i]) is Some,
                steps@.len() == done.len(),
                forall|i: int| 0 <= i < done.len() ==> #[trigger] steps@[i].sv() == seg_step(
                    done[i],
                )->Some_0,
            ensures
                split_dots(t) == done,
                forall|i: int| 0 <= i < done.len() ==> #[trigger] seg_step(done[i]) is Some,
                steps@.len() == done.len(),
                forall|i: int| 0 <= i < done.len() ==> #[trigger] steps@[i].sv() == seg_step(
                    done[i],
                )->Some_0,
            decreases cur@.len(),
        {
            let m = cur.unicode_len();
            let mut k: usize = 0;
            while k < m && cur.get_char(k) != '.'
                invariant
                    m == cur@.len(),
                    k <= m,
                    forall|j: int| 0 <= j < k ==> cur@[j] != '.',
                decreases m - k,
            {
                k = k + 1;
            }
            proof {
                lemma_dot_ix_at(cur@, k as int);
            }
            if k == m {
                match classify_segment(cur) {
                    None => {
                        proof {
                            assert(split_dots(cur@) =~= seq![cur@]);
                            assert(split_dots(t)[done.len() as int] == cur@);
                            assert(!(forall|i: int| 0 <= i < split_dots(t).len()
                                ==> #[trigger] seg_step(split_dots(t)[i]) is Some));
                        }
                        return None;
                    },
                    Some(st) => {
                        steps.push(st);
                        proof {
                            assert(split_dots(cur@) =~= seq![cur@]);
                            done = done.push(cur@);
                            assert(split_dots(t) =~= done);
                        }
                        break;
                    },
                }
            } else {
                let seg = cur.substring_char(0, k);
                proof {
                    assert(seg@ =~= cur@.take(k as int));
                }
                match classify_segment(seg) {
                    None => {
                        proof {
                            assert(split_dots(cur@)[0] == cur@.take(k as int));
                            assert(split_dots(t)[done.len() as int] == cur@.take(k as int));
                            assert(!(forall|i: int| 0 <= i < split_dots(t).len()
                                ==> #[trigger] seg_step(split_dots(t)[i]) is Some));
                        }
                        return None;
                    },
                    Some(st) => {
                        steps.push(st);
                        let rest = cur.substring_char(k + 1, m);
                        proof {
                            assert(rest@ =~= cur@.skip(k as int + 1));
                            done = done.push(cur@.take(k as int));
                            assert(split_dots(t) =~= done + split_dots(rest@));
                        }
                        cur = rest;
                    },
                }
            }
        }
        proof {
            let segs = split_dots(t);
            assert(spec_compile(expression@) matches Some(sv) && sel_steps_view(steps@) =~= sv);
        }
        Some(JsonSelector { expression: ex, steps })
    }

    /// Enumerates the selector's matches within `root`, in document order,
    /// each with the path walked from the root.
    pub fn find(&self, root: &JsonValue) -> (out: Vec<FoundMatch>)
        ensures
            matches_view(out@) == sel_find(
                sel_steps_view(self.steps@),
                root.jv(),
                seq![StepV::Root],
            ),
    {
        let mut out: Vec<FoundMatch> = Vec::new();
        let mut path: Vec<Step> = Vec::new();
        path.push(Step::Root);
        proof {
            assert(steps_view(path@) =~= seq![StepV::Root]);
            assert(sel_steps_view(self.steps@).skip(0) =~= sel_steps_view(self.steps@));
            assert(matches_view(out@) =~= Seq::<(JV, Seq<StepV>)>::empty());
        }
        find_rec(&self.steps, 0, root, &path, &mut out);
        proof {
            assert(matches_view(out@) =~= sel_find(
                sel_steps_view(self.steps@),
                root.jv(),
                seq![StepV::Root],
            ));
        }
        out
    }
}

fn dup_step(st: &Step) -> (r: Step)
    ensures
        r.sv() == st.sv(),
{
    match st {
        Step::Root => Step::Root,
        Step::Key(k) => Step::Key(k.clone()),
        Step::Index(i) => Step::Index(*i),
    }
}

fn dup_path(path: &Vec<Step>) -> (r: Vec<Step>)
    ensures
        steps_view(r@) == steps_view(path@),
{
    let mut r: Vec<Step> = Vec::new();
    let mut i: usize = 0;
    while i < path.len()
        invariant
            i <= path@.len(),
            r@.len() == i,
            forall|j: int| 0 <= j < i ==> #[trigger] r@[j].sv() == path@[j].sv(),
        decreases path@.len() - i,
    {
        r.push(dup_step(&path[i]));
        i = i + 1;
    }
    proof {
        assert(steps_view(r@) =~= steps_view(path@));
    }
    r
}

#[verifier::loop_isolation(false)]
fn find_rec(
    steps: &Vec<SelStep>,
    si: usize,
    v: &JsonValue,
    path: &Vec<Step>,
    out: &mut Vec<FoundMatch>,
)
    requires
        si <= steps@.len(),
    ensures
        matches_view(final(out)@) == matches_view(old(out)@) + sel_find(
            sel_steps_view(steps@).skip(si as int),
            v.jv(),
            steps_view(path@),
        ),
    decreases steps@.len() - si, 1nat,
{
    let ghost sv = sel_steps_view(steps@).skip(si as int);
    proof {
        if si < steps@.len() {
            assert(sv[0] == steps@[si as int].sv());
            assert(sv.drop_first() =~= sel_steps_view(steps@).skip(si as int + 1));
        }
    }
    if si == steps.len() {
        let m = FoundMatch { value: v.duplicate(), path: dup_path(path) };
        let ghost before = out@;
        out.push(m);
        proof {
            assert(sv =~= Seq::<SelStepV>::empty());
            assert(matches_view(out@) =~= matches_view(before) + seq![
                (v.jv(), steps_view(path@)),
            ]);
        }
        return;
    }
    let si1 = si + 1;
    match &steps[si] {
        SelStep::Key(k) => {
            match v {
                JsonValue::Obj(entries) => {
                    find_key(steps, si, k, v, entries, path, out);
                    proof {
                        assert(sel_find(sv, v.jv(), steps_view(path@)) == sel_key(
                            sv,
                            k@,
                            v.jv()->Obj_0,
                            steps_view(path@),
                        ));
                    }
                },
                _ => {
                    proof {
                        assert(sel_find(sv, v.jv(), steps_view(path@)) =~= Seq::<(
                            JV,
                            Seq<StepV>,
                        )>::empty());
                        assert(matches_view(out@) =~= matches_view(out@) + Seq::<(
                            JV,
                            Seq<StepV>,
                        )>::empty());
                    }
                },
            }
        },
        SelStep::Index(ix) => {
            match v {
                JsonValue::Arr(items) => {
                    if *ix < items.len() as u64 {
                        let mut p2 = dup_path(path);
                        p2.push(Step::Index(*ix));
                        proof {
                            assert(steps_view(p2@) =~= steps_view(path@).push(StepV::Index(*ix)));
                            assert(items@[*ix as int].jv() == v.jv()->Arr_0[*ix as int]);
                        }
                        find_rec(steps, si1, &items[*ix as usize], &p2, out);
                        proof {
                            assert(sel_find(sv, v.jv(), steps_view(path@)) == sel_find(
                                sv.drop_first(),
                                v.jv()->Arr_0[*ix as int],
                                steps_view(path@).push(StepV::Index(*ix)),
                            ));
                        }
                    } else {
                        proof {
                            assert(v.jv()->Arr_0.len() == items@.len());
                            assert(sel_find(sv, v.jv(), steps_view(path@)) =~= Seq::<(
                                JV,
                                Seq<StepV>,
                            )>::empty());
                            assert(matches_view(out@) =~= matches_view(out@) + Seq::<(
                                JV,
                                Seq<StepV>,
                            )>::empty());
                        }
                    }
                },
                JsonValue::Obj(entries) => {
                    let key = u64_to_string(*ix);
                    find_key(steps, si, &key, v, entries, path, out);
                    proof {
                        assert(key@ == dec_str(*ix as nat));
                        assert(sel_find(sv, v.jv(), steps_view(path@)) == sel_key(
                            sv,
                            dec_str(*ix as nat),
                            v.jv()->Obj_0,
                            steps_view(path@),
                        ));
                    }
                },
                _ => {
                    proof {
                        assert(sel_find(sv, v.jv(), steps_view(path@)) =~= Seq::<(
                            JV,
                            Seq<StepV>,
                        )>::empty());
                        assert(matches_view(out@) =~= matches_view(out@) + Seq::<(
                            JV,
                            Seq<StepV>,
                        )>::empty());
                    }
                },
            }
        },
        SelStep::Wildcard => {
            match v {
                JsonValue::Obj(entries) => {
                    let ghost children = wild_children(v.jv());
                    let ghost out0 = out@;
                    let mut ei: usize = 0;
                    proof {
                        assert(children.skip(0) =~= children);
                    }
                    while ei < entries.len()
                        invariant
                            si < steps@.len(),
                            si1 == si + 1,
                            steps@[si as int].sv() == SelStepV::Wildcard,
                            sv == sel_steps_view(steps@).skip(si as int),
                            sv.len() > 0 && sv[0] == SelStepV::Wildcard,
                            sv.drop_first() == sel_steps_view(steps@).skip(si as int + 1),
                            ei <= entries@.len(),
                            v.jv() matches JV::Obj(es) && es.len() == entries@.len(),
                            children == wild_children(v.jv()),
                            children.len() == entries@.len(),
                            forall|j: int| 0 <= j < entries@.len() ==> #[trigger] children[j] == (
                                StepV::Key(entries@[j].name@),
                                entries@[j].value.jv(),
                            ),
                            matches_view(out@) + sel_wild(sv, children.skip(ei as int), steps_view(
                                path@,
                            )) == matches_view(out0) + sel_wild(sv, children, steps_view(path@)),
                        decreases entries@.len() - ei,
                    {
                        let mut p2 = dup_path(path);
                        p2.push(Step::Key(entries[ei].name.clone()));
                        proof {
                            assert(steps_view(p2@) =~= steps_view(path@).push(
                                StepV::Key(entries@[ei as int].name@),
                            ));
                        }
                        find_rec(steps, si1, &entries[ei].value, &p2, out);
                        proof {
                            let pv = steps_view(path@);
                            let ch = children.skip(ei as int);
                            assert(ch[0] == children[ei as int]);
                            assert(ch.drop_first() =~= children.skip(ei as int + 1));
                            assert(matches_view(out@) + sel_wild(
                                sv,
                                children.skip(ei as int + 1),
                                pv,
                            ) =~= matches_view(out0) + sel_wild(sv, children, pv));
                        }
                        ei = ei + 1;
                    }
                    proof {
                        assert(children.skip(entries@.len() as int) =~= Seq::<(StepV, JV)>::empty());
                        assert(matches_view(out@) =~= matches_view(out0) + sel_wild(
                            sv,
                            children,
                            steps_view(path@),
                        ));
                        assert(sel_find(sv, v.jv(), steps_view(path@)) == sel_wild(
                            sv,
                            children,
                            steps_view(path@),
                        ));
                    }
                },
                JsonValue::Arr(items) => {
                    let ghost children = wild_children(v.jv());
                    let ghost out0 = out@;
                    let mut ei: usize = 0;
                    proof {
                        assert(children.skip(0) =~= children);
                    }
                    while ei < items.len()
                        invariant
                            si < steps@.len(),
                            si1 == si + 1,
                            steps@[si as int].sv() == SelStepV::Wildcard,
                            sv == sel_steps_view(steps@).skip(si as int),
                            sv.len() > 0 && sv[0] == SelStepV::Wildcard,
                            sv.drop_first() == sel_steps_view(steps@).skip(si as int + 1),
                            ei <= items@.len(),
                            v.jv() matches JV::Arr(es) && es.len() == items@.len(),
                            children == wild_children(v.jv()),
                            children.len() == items@.len(),
                            forall|j: int| 0 <= j < items@.len() ==> #[trigger] children[j] == (
                                StepV::Index(j as u64),
                                items@[j].jv(),
                            ),
                            matches_view(out@) + sel_wild(sv, children.skip(ei as int), steps_view(
                                path@,
                            )) == matches_view(out0) + sel_wild(sv, children, steps_view(path@)),
                        decreases items@.len() - ei,
                    {
                        let mut p2 = dup_path(path);
                        p2.push(Step::Index(ei as u64));
                        proof {
                            assert(steps_view(p2@) =~= steps_view(path@).push(
                                StepV::Index(ei as u64),
                            ));
                        }
                        find_rec(steps, si1, &items[ei], &p2, out);
                        proof {
                            let pv = steps_view(path@);
                            let ch = children.skip(ei as int);
                            assert(ch[0] == children[ei as int]);
                            assert(ch.drop_first() =~= children.skip(ei as int + 1));
                            assert(matches_view(out@) + sel_wild(
                                sv,
                                children.skip(ei as int + 1),
                                pv,
                            ) =~= matches_view(out0) + sel_wild(sv, children, pv));
                        }
                        ei = ei + 1;
                    }
                    proof {
                        assert(children.skip(items@.len() as int) =~= Seq::<(StepV, JV)>::empty());
                        assert(matches_view(out@) =~= matches_view(out0) + sel_wild(
                            sv,
                            children,
                            steps_view(path@),
                        ));
                        assert(sel_find(sv, v.jv(), steps_view(path@)) == sel_wild(
                            sv,
                            children,
                            steps_view(path@),
                        ));
                    }
                },
                _ => {
                    proof {
                        assert(wild_children(v.jv()) =~= Seq::<(StepV, JV)>::empty());
                        assert(sel_find(sv, v.jv(), steps_view(path@)) == sel_wild(
                            sv,
                            wild_children(v.jv()),
                            steps_view(path@),
                        ));
                        assert(sel_wild(sv, wild_children(v.jv()), steps_view(path@)) =~= Seq::<(
                            JV,
                            Seq<StepV>,
                        )>::empty());
                        assert(matches_view(out@) =~= matches_view(out@) + Seq::<(
                            JV,
                            Seq<StepV>,
                        )>::empty());
                    }
                },
            }
        },
    }
}

#[verifier::loop_isolation(false)]
fn find_key(
    steps: &Vec<SelStep>,
    si: usize,
    key: &String,
    v: &JsonValue,
    entries: &Vec<crate::json::JsonEntry>,
    path: &Vec<Step>,
    out: &mut Vec<FoundMatch>,
)
    requires
        si < steps@.len(),
        v.jv() matches JV::Obj(es) && es.len() == entries@.len() && (forall|j: int|
            0 <= j < entries@.len() ==> #[trigger] es[j] == (
                entries@[j].name@,
                entries@[j].value.jv(),
            )),
    ensures
        matches_view(final(out)@) == matches_view(old(out)@) + sel_key(
            sel_steps_view(steps@).skip(si as int),
            key@,
            v.jv()->Obj_0,
            steps_view(path@),
        ),
    decreases steps@.len() - si, 0nat,
{
    let ghost sv = sel_steps_view(steps@).skip(si as int);
    let ghost es = v.jv()->Obj_0;
    let ghost out0 = out@;
    proof {
        assert(sv.len() > 0);
        assert(sv[0] == steps@[si as int].sv());
        assert(sv.drop_first() =~= sel_steps_view(steps@).skip(si as int + 1));
        assert(es.skip(0) =~= es);
    }
    let nsteps = steps.len();
    proof {
        assert(si < nsteps);
    }
    let si1 = si + 1;
    let mut ei: usize = 0;
    while ei < entries.len()
        invariant
            si < steps@.len(),
            si1 == si + 1,
            sv == sel_steps_view(steps@).skip(si as int),
            sv.len() > 0,
            sv.drop_first() == sel_steps_view(steps@).skip(si as int + 1),
            ei <= entries@.len(),
            v.jv() matches JV::Obj(es2) && es2 == es,
            es.len() == entries@.len(),
            forall|j: int| 0 <= j < entries@.len() ==> #[trigger] es[j] == (
                entries@[j].name@,
                entries@[j].value.jv(),
            ),
            out@ == out0,
            sel_key(sv, key@, es.skip(ei as int), steps_view(path@)) == sel_key(
                sv,
                key@,
                es,
                steps_view(path@),
            ),
        decreases entries@.len() - ei,
    {
        proof {
            assert(es.skip(ei as int)[0] == es[ei as int]);
            assert(es.skip(ei as int).drop_first() =~= es.skip(ei as int + 1));
        }
        if entries[ei].name.eq(key) {
            let mut p2 = dup_path(path);
            p2.push(Step::Key(key.clone()));
            proof {
                assert(steps_view(p2@) =~= steps_view(path@).push(StepV::Key(key@)));
                assert(es[ei as int].0 == key@);
            }
            find_rec(steps, si1, &entries[ei].value, &p2, out);
            proof {
                assert(sel_key(sv, key@, es.skip(ei as int), steps_view(path@)) == sel_find(
                    sv.drop_first(),
                    es[ei as int].1,
                    steps_view(path@).push(StepV::Key(key@)),
                ));
                assert(matches_view(out@) =~= matches_view(out0) + sel_key(
                    sv,
                    key@,
                    es,
                    steps_view(path@),
                ));
            }
            return;
        }
        ei = ei + 1;
    }
    proof {
        assert(es.skip(entries@.len() as int) =~= Seq::<(Seq<char>, JV)>::empty());
        assert(matches_view(out@) =~= matches_view(out0) + sel_key(
            sv,
            key@,
            es,
            steps_view(path@),
        ));
    }
}

} // verus!
