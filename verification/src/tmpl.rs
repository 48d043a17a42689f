use vstd::prelude::*;

verus! {

/// A variable inside a template: a positional path index, or a selector
/// to run against the matched value.
#[derive(Debug, PartialEq, Eq)]
pub enum Var {
    PathPart(u32),
    Selector(String),
}

/// One node of a parsed template: a literal run of text, or a variable.
#[derive(Debug, PartialEq, Eq)]
pub enum Placeholder {
    Text(String),
    Var(Var),
}

/// Spec-level form of a template variable.
pub ghost enum VarV {
    PathPart(u32),
    Selector(Seq<char>),
}

/// Spec-level form of a template node.
pub ghost enum PlaceholderV {
    Text(Seq<char>),
    Var(VarV),
}

impl Var {
    pub open spec fn pv(&self) -> VarV {
        match self {
            Var::PathPart(n) => VarV::PathPart(*n),
            Var::Selector(s) => VarV::Selector(s@),
        }
    }
}

impl Placeholder {
    pub open spec fn pv(&self) -> PlaceholderV {
        match self {
            Placeholder::Text(t) => PlaceholderV::Text(t@),
            Placeholder::Var(v) => PlaceholderV::Var(v.pv()),
        }
    }
}

pub open spec fn placeholders_view(ps: Seq<Placeholder>) -> Seq<PlaceholderV> {
    Seq::new(ps.len(), |i: int| if 0 <= i < ps.len() {
        ps[i].pv()
    } else {
        PlaceholderV::Text(Seq::empty())
    })
}

pub open spec fn is_digit(c: char) -> bool {
    '0' as u32 <= c as u32 && c as u32 <= '9' as u32
}

pub open spec fn digit_val(c: char) -> nat {
    (c as u32 - '0' as u32) as nat
}

/// Length of the run of decimal digits at the front of the text.
pub open spec fn digit_prefix_len(s: Seq<char>) -> nat
    decreases s.len(),
{
    if s.len() == 0 || !is_digit(s[0]) {
        0
    } else {
        1 + digit_prefix_len(s.drop_first())
    }
}

/// The number written by a run of digits, most significant first.
pub open spec fn digits_val(s: Seq<char>) -> nat
    decreases s.len(),
{
    if s.len() == 0 {
        0
    } else {
        digits_val(s.drop_last()) * 10 + digit_val(s.last())
    }
}

/// What `uint` returns: the value of the leading digit run and the rest of
/// the input, or nothing when the input does not start with a digit or the
/// value does not fit.
pub open spec fn spec_uint(s: Seq<char>) -> Option<(Seq<char>, u32)> {
    let k = digit_prefix_len(s) as int;
    if k == 0 {
        None
    } else if digits_val(s.take(k)) > u32::MAX {
        None
    } else {
        Some((s.skip(k), digits_val(s.take(k)) as u32))
    }
}

pub open spec fn is_space(c: char) -> bool {
    c == ' ' || c == '\t' || c == '\n' || c == '\r'
}

/// The text without its trailing whitespace.
pub open spec fn trim_end_spec(s: Seq<char>) -> Seq<char>
    decreases s.len(),
{
    if s.len() > 0 && is_space(s.last()) {
        trim_end_spec(s.drop_last())
    } else {
        s
    }
}

/// The text without its leading whitespace.
pub open spec fn trim_start_spec(s: Seq<char>) -> Seq<char>
    decreases s.len(),
{
    if s.len() > 0 && is_space(s[0]) {
        trim_start_spec(s.drop_first())
    } else {
        s
    }
}

/// What `selector` returns: the whole input (trailing whitespace removed)
/// when it starts with `$` or `.`, consuming everything.
pub open spec fn spec_selector(s: Seq<char>) -> Option<(Seq<char>, Seq<char>)> {
    if s.len() > 0 && (s[0] == '$' || s[0] == '.') {
        Some((Seq::empty(), trim_end_spec(s)))
    } else {
        None
    }
}

/// What `var` returns: a path index when the input starts with digits,
/// else a selector.
pub open spec fn spec_var(s: Seq<char>) -> Option<(Seq<char>, VarV)> {
    match spec_uint(s) {
        Some((rest, n)) => Some((rest, VarV::PathPart(n))),
        None => match spec_selector(s) {
            Some((rest, sel)) => Some((rest, VarV::Selector(sel))),
            None => None,
        },
    }
}

/// Position of the first `}` in the text, if any.
pub open spec fn brace_ix(s: Seq<char>) -> Option<nat>
    decreases s.len(),
{
    if s.len() == 0 {
        None
    } else if s[0] == '}' {
        Some(0)
    } else {
        match brace_ix(s.drop_first()) {
            Some(k) => Some(1 + k),
            None => None,
        }
    }
}

/// What `var_placeholder` returns: a `${ ... }` form whose body, with
/// surrounding whitespace ignored, is a variable. Text after the variable
/// inside the braces is ignored, as the original combinators did.
pub open spec fn spec_var_placeholder(s: Seq<char>) -> Option<(Seq<char>, PlaceholderV)> {
    if s.len() >= 2 && s[0] == '$' && s[1] == '{' {
        let t = s.skip(2);
        match brace_ix(t) {
            None => None,
            Some(k) => if k == 0 {
                None
            } else {
                match spec_var(trim_start_spec(t.take(k as int))) {
                    Some((_, v)) => Some((t.skip(k as int + 1), PlaceholderV::Var(v))),
                    None => None,
                }
            },
        }
    } else {
        None
    }
}

/// What `var_simple_placeholder` returns: `$` followed by digits.
pub open spec fn spec_var_simple_placeholder(s: Seq<char>) -> Option<(Seq<char>, PlaceholderV)> {
    if s.len() >= 1 && s[0] == '$' {
        match spec_uint(s.drop_first()) {
            Some((rest, n)) => Some((rest, PlaceholderV::Var(VarV::PathPart(n)))),
            None => None,
        }
    } else {
        None
    }
}

/// Length of the run of literal characters (anything but `$`) at the front.
pub open spec fn text_prefix_len(s: Seq<char>) -> nat
    decreases s.len(),
{
    if s.len() == 0 || s[0] == '$' {
        0
    } else {
        1 + text_prefix_len(s.drop_first())
    }
}

/// What `text_placeholder` returns: the literal run before the next `$`.
pub open spec fn spec_text_placeholder(s: Seq<char>) -> Option<(Seq<char>, PlaceholderV)> {
    let k = text_prefix_len(s) as int;
    if k == 0 {
        None
    } else {
        Some((s.skip(k), PlaceholderV::Text(s.take(k))))
    }
}

/// One step of the template grammar: a bracketed variable, a simple
/// variable, or a literal run, tried in that order.
pub open spec fn spec_alt(s: Seq<char>) -> Option<(Seq<char>, PlaceholderV)> {
    match spec_var_placeholder(s) {
        Some(r) => Some(r),
        None => match spec_var_simple_placeholder(s) {
            Some(r) => Some(r),
            None => spec_text_placeholder(s),
        },
    }
}

/// Repeated steps of the grammar until no step applies; returns the
/// unconsumed rest and the nodes read.
pub open spec fn spec_many(s: Seq<char>) -> (Seq<char>, Seq<PlaceholderV>)
    decreases s.len(),
{
    match spec_alt(s) {
        None => (s, Seq::empty()),
        Some((rest, p)) => if rest.len() < s.len() {
            let (fin, ps) = spec_many(rest);
            (fin, seq![p] + ps)
        } else {
            (rest, seq![p])
        },
    }
}

/// What `string_with_placeholders` returns: at least one node, then as
/// many as the grammar yields.
pub open spec fn spec_string_with_placeholders(s: Seq<char>) -> Option<(Seq<char>, Seq<PlaceholderV>)> {
    if spec_alt(s) is None {
        None
    } else {
        Some(spec_many(s))
    }
}


pub proof fn lemma_digit_prefix_len_at(s: Seq<char>, i: int)
    requires
        0 <= i <= s.len(),
        forall|j: int| 0 <= j < i ==> is_digit(s[j]),
        i == s.len() || !is_digit(s[i]),
    ensures
        digit_prefix_len(s) == i,
    decreases i,
{
    if i == 0 {
    } else {
        assert(is_digit(s[0]));
        assert(forall|j: int| 0 <= j < i - 1 ==> is_digit(s.drop_first()[j]));
        lemma_digit_prefix_len_at(s.drop_first(), i - 1);
    }
}

proof fn lemma_text_prefix_len_at(s: Seq<char>, i: int)
    requires
        0 <= i <= s.len(),
        forall|j: int| 0 <= j < i ==> s[j] != '$',
        i == s.len() || s[i] == '$',
    ensures
        text_prefix_len(s) == i,
    decreases i,
{
    if i == 0 {
    } else {
        assert(forall|j: int| 0 <= j < i - 1 ==> s.drop_first()[j] != '$');
        lemma_text_prefix_len_at(s.drop_first(), i - 1);
    }
}

proof fn lemma_brace_ix_at(s: Seq<char>, i: int)
    requires
        0 <= i <= s.len(),
        forall|j: int| 0 <= j < i ==> s[j] != '}',
    ensures
        i == s.len() ==> brace_ix(s) == (if exists|j: int| i <= j < s.len() && s[j] == '}' {
            brace_ix(s)
        } else {
            None::<nat>
        }),
        i == s.len() ==> brace_ix(s) is None,
        i < s.len() && s[i] == '}' ==> brace_ix(s) == Some(i as nat),
    decreases i,
{
    if i == 0 {
        if s.len() > 0 && s[0] == '}' {
        }
    } else {
        assert(forall|j: int| 0 <= j < i - 1 ==> s.drop_first()[j] != '}');
        lemma_brace_ix_at(s.drop_first(), i - 1);
        assert(s[0] != '}');
    }
}

proof fn lemma_trim_start_at(s: Seq<char>, i: int)
    requires
        0 <= i <= s.len(),
        forall|j: int| 0 <= j < i ==> is_space(s[j]),
        i == s.len() || !is_space(s[i]),
    ensures
        trim_start_spec(s) == s.skip(i),
    decreases i,
{
    if i == 0 {
        assert(s.skip(0) =~= s);
    } else {
        assert(forall|j: int| 0 <= j < i - 1 ==> is_space(s.drop_first()[j]));
        lemma_trim_start_at(s.drop_first(), i - 1);
        assert(s.drop_first().skip(i - 1) =~= s.skip(i));
    }
}

proof fn lemma_trim_end_at(s: Seq<char>, i: int)
    requires
        0 <= i <= s.len(),
        forall|j: int| i <= j < s.len() ==> is_space(s[j]),
        i == 0 || !is_space(s[i - 1]),
    ensures
        trim_end_spec(s) == s.take(i),
    decreases s.len(),
{
    if s.len() > i {
        assert(is_space(s.last()));
        assert(forall|j: int| i <= j < s.drop_last().len() ==> is_space(s.drop_last()[j]));
        if i > 0 {
            assert(s.drop_last()[i - 1] == s[i - 1]);
        }
        lemma_trim_end_at(s.drop_last(), i);
        assert(s.drop_last().take(i) =~= s.take(i));
    } else {
        assert(i == s.len());
        if s.len() > 0 {
            assert(!is_space(s.last()));
        }
        assert(trim_end_spec(s) == s);
        assert(s.take(i) =~= s);
    }
}

pub proof fn lemma_digits_val_snoc(s: Seq<char>, i: int)
    requires
        0 <= i < s.len(),
    ensures
        digits_val(s.take(i + 1)) == digits_val(s.take(i)) * 10 + digit_val(s[i]),
{
    assert(s.take(i + 1).drop_last() =~= s.take(i));
    assert(s.take(i + 1).last() == s[i]);
}

pub proof fn lemma_digits_val_monotone(s: Seq<char>, i: int, k: int)
    requires
        0 <= i <= k <= s.len(),
    ensures
        digits_val(s.take(k)) >= digits_val(s.take(i)),
    decreases k - i,
{
    if i < k {
        lemma_digits_val_monotone(s, i, k - 1);
        lemma_digits_val_snoc(s, k - 1);
        assert(digits_val(s.take(k - 1)) * 10 >= digits_val(s.take(k - 1)));
    }
}

fn is_digit_char(c: char) -> (r: bool)
    ensures
        r == is_digit(c),
{
    let u = c as u32;
    48 <= u && u <= 57
}

fn is_space_char(c: char) -> (r: bool)
    ensures
        r == is_space(c),
{
    c == ' ' || c == '\t' || c == '\n' || c == '\r'
}

/// Reads a run of decimal digits at the front of the input as a number.
pub fn uint(input: &str) -> (r: Option<(&str, u32)>)
    ensures
        r is Some <==> spec_uint(input@) is Some,
        r matches Some((rest, v)) ==> spec_uint(input@) matches Some((srest, sv)) && rest@ == srest
            && v == sv && rest@.len() < input@.len(),
{
    let n = input.unicode_len();
    let mut k: usize = 0;
    while k < n && is_digit_char(input.get_char(k))
        invariant
            n == input@.len(),
            k <= n,
            forall|j: int| 0 <= j < k ==> is_digit(input@[j]),
        decreases n - k,
    {
        k = k + 1;
    }
    proof {
        lemma_digit_prefix_len_at(input@, k as int);
    }
    if k == 0 {
        return None;
    }
    let mut acc: u64 = 0;
    let mut over: bool = false;
    let mut i: usize = 0;
    while i < k
        invariant
            n == input@.len(),
            k <= n,
            i <= k,
            forall|j: int| 0 <= j < k ==> is_digit(input@[j]),
            !over ==> acc == digits_val(input@.take(i as int)) && acc <= u32::MAX,
            over ==> digits_val(input@.take(i as int)) > u32::MAX,
        decreases k - i,
    {
        let c = input.get_char(i);
        proof {
            lemma_digits_val_snoc(input@, i as int);
        }
        if !over {
            let d = (c as u32 - 48) as u64;
            acc = acc * 10 + d;
            if acc > 0xffff_ffff {
                over = true;
            }
        } else {
            proof {
                assert(digits_val(input@.take(i as int)) * 10 >= digits_val(
                    input@.take(i as int),
                ));
            }
        }
        i = i + 1;
    }
    if over {
        proof {
            lemma_digits_val_monotone(input@, k as int, k as int);
        }
        return None;
    }
    let rest = input.substring_char(k, n);
    Some((rest, acc as u32))
}

/// Reads a selector body: text that starts with `$` or `.`; consumes the
/// whole input, dropping trailing whitespace.
pub fn selector(input: &str) -> (r: Option<(&str, String)>)
    ensures
        r is Some <==> spec_selector(input@) is Some,
        r matches Some((rest, sel)) ==> rest@ == Seq::<char>::empty() && sel@ == trim_end_spec(
            input@,
        ),
{
    let n = input.unicode_len();
    if n == 0 {
        return None;
    }
    let c0 = input.get_char(0);
    if c0 != '$' && c0 != '.' {
        return None;
    }
    let mut t: usize = n;
    while t > 0 && is_space_char(input.get_char(t - 1))
        invariant
            n == input@.len(),
            t <= n,
            forall|j: int| t <= j < n ==> is_space(input@[j]),
        decreases t,
    {
        t = t - 1;
    }
    proof {
        lemma_trim_end_at(input@, t as int);
    }
    let sel = input.substring_char(0, t);
    let rest = input.substring_char(n, n);
    proof {
        assert(input@.take(t as int) =~= input@.subrange(0, t as int));
        assert(input@.subrange(n as int, n as int) =~= Seq::<char>::empty());
    }
    Some((rest, String::from_str(sel)))
}

/// Reads a variable: digits as a path index, else a selector.
pub fn var(input: &str) -> (r: Option<(&str, Var)>)
    ensures
        r is Some <==> spec_var(input@) is Some,
        r matches Some((rest, v)) ==> spec_var(input@) matches Some((srest, sv)) && rest@ == srest
            && v.pv() == sv,
{
    match uint(input) {
        Some((rest, n)) => Some((rest, Var::PathPart(n))),
        None => match selector(input) {
            Some((rest, sel)) => Some((rest, Var::Selector(sel))),
            None => None,
        },
    }
}

/// Reads a `${ ... }` placeholder.
pub fn var_placeholder(input: &str) -> (r: Option<(&str, Placeholder)>)
    ensures
        r is Some <==> spec_var_placeholder(input@) is Some,
        r matches Some((rest, p)) ==> spec_var_placeholder(input@) matches Some((srest, sp))
            && rest@ == srest && p.pv() == sp && rest@.len() < input@.len(),
{
    let n = input.unicode_len();
    if n < 2 {
        return None;
    }
    if input.get_char(0) != '$' || input.get_char(1) != '{' {
        return None;
    }
    let ghost t = input@.skip(2);
    let mut j: usize = 2;
    while j < n && input.get_char(j) != '}'
        invariant
            n == input@.len(),
            2 <= j <= n,
            forall|i: int| 2 <= i < j ==> input@[i] != '}',
        decreases n - j,
    {
        j = j + 1;
    }
    proof {
        assert(forall|i: int| 0 <= i < j - 2 ==> t[i] != '}');
        lemma_brace_ix_at(t, j - 2);
    }
    if j == n {
        return None;
    }
    if j == 2 {
        return None;
    }
    let mut m: usize = 2;
    while m < j && is_space_char(input.get_char(m))
        invariant
            n == input@.len(),
            j < n,
            2 <= m <= j,
            forall|i: int| 2 <= i < m ==> is_space(input@[i]),
            forall|i: int| 2 <= i < j ==> input@[i] != '}',
            input@[j as int] == '}',
        decreases j - m,
    {
        m = m + 1;
    }
    let ghost body = t.take(j - 2);
    proof {
        assert(body =~= input@.subrange(2, j as int));
        assert(forall|i: int| 0 <= i < m - 2 ==> is_space(body[i]));
        lemma_trim_start_at(body, m - 2);
        assert(body.skip(m - 2) =~= input@.subrange(m as int, j as int));
    }
    let body_trimmed = input.substring_char(m, j);
    match var(body_trimmed) {
        Some((_, v)) => {
            let rest = input.substring_char(j + 1, n);
            proof {
                assert(t.skip(j - 2 + 1) =~= input@.subrange(j + 1 as int, n as int));
            }
            Some((rest, Placeholder::Var(v)))
        },
        None => None,
    }
}

/// Reads a `$N` placeholder.
pub fn var_simple_placeholder(input: &str) -> (r: Option<(&str, Placeholder)>)
    ensures
        r is Some <==> spec_var_simple_placeholder(input@) is Some,
        r matches Some((rest, p)) ==> spec_var_simple_placeholder(input@) matches Some(
            (srest, sp),
        ) && rest@ == srest && p.pv() == sp && rest@.len() < input@.len(),
{
    let n = input.unicode_len();
    if n == 0 {
        return None;
    }
    if input.get_char(0) != '$' {
        return None;
    }
    let tail = input.substring_char(1, n);
    proof {
        assert(input@.subrange(1, n as int) =~= input@.drop_first());
    }
    match uint(tail) {
        Some((rest, v)) => Some((rest, Placeholder::Var(Var::PathPart(v)))),
        None => None,
    }
}

/// Reads the literal run before the next `$`.
pub fn text_placeholder(input: &str) -> (r: Option<(&str, Placeholder)>)
    ensures
        r is Some <==> spec_text_placeholder(input@) is Some,
        r matches Some((rest, p)) ==> spec_text_placeholder(input@) matches Some((srest, sp))
            && rest@ == srest && p.pv() == sp && rest@.len() < input@.len(),
{
    let n = input.unicode_len();
    let mut k: usize = 0;
    while k < n && input.get_char(k) != '$'
        invariant
            n == input@.len(),
            k <= n,
            forall|j: int| 0 <= j < k ==> input@[j] != '$',
        decreases n - k,
    {
        k = k + 1;
    }
    proof {
        lemma_text_prefix_len_at(input@, k as int);
    }
    if k == 0 {
        return None;
    }
    let run = input.substring_char(0, k);
    let rest = input.substring_char(k, n);
    proof {
        assert(input@.subrange(0, k as int) =~= input@.take(k as int));
    }
    Some((rest, Placeholder::Text(String::from_str(run))))
}

fn alt_step(input: &str) -> (r: Option<(&str, Placeholder)>)
    ensures
        r is Some <==> spec_alt(input@) is Some,
        r matches Some((rest, p)) ==> spec_alt(input@) matches Some((srest, sp)) && rest@ == srest
            && p.pv() == sp && srest.len() < input@.len(),
{
    let r = match var_placeholder(input) {
        Some(rp) => Some(rp),
        None => match var_simple_placeholder(input) {
            Some(rp) => Some(rp),
            None => text_placeholder(input),
        },
    };
    r
}

/// Parses a whole template into its nodes; the unread tail (which begins
/// with a placeholder that none of the forms accepts) is handed back.
pub fn string_with_placeholders(input: &str) -> (r: Option<(&str, Vec<Placeholder>)>)
    ensures
        r is Some <==> spec_string_with_placeholders(input@) is Some,
        r matches Some((rest, ps)) ==> spec_string_with_placeholders(input@) matches Some(
            (srest, sps),
        ) && rest@ == srest && placeholders_view(ps@) == sps,
{
    let first = alt_step(input);
    match first {
        None => None,
        Some((rest0, p0)) => {
            let mut acc: Vec<Placeholder> = Vec::new();
            let mut cur: &str = rest0;
            acc.push(p0);
            proof {
                assert(placeholders_view(acc@) =~= seq![p0.pv()]);
                assert(spec_many(input@).0 == spec_many(cur@).0);
                assert(spec_many(input@).1 =~= placeholders_view(acc@) + spec_many(cur@).1);
            }
            loop
                invariant
                    spec_many(input@).0 == spec_many(cur@).0,
                    spec_many(input@).1 == placeholders_view(acc@) + spec_many(cur@).1,
                ensures
                    spec_alt(cur@) is None,
                    spec_many(input@).0 == cur@,
                    spec_many(input@).1 == placeholders_view(acc@),
                decreases cur@.len(),
            {
                match alt_step(cur) {
                    None => {
                        proof {
                            assert(spec_many(cur@).0 == cur@);
                            assert(spec_many(cur@).1 =~= Seq::<PlaceholderV>::empty());
                            assert(spec_many(input@).1 =~= placeholders_view(acc@));
                        }
                        break;
                    },
                    Some((rest, p)) => {
                        let ghost old_acc = acc@;
                        let ghost old_cur = cur@;
                        acc.push(p);
                        cur = rest;
                        proof {
                            assert(placeholders_view(acc@) =~= placeholders_view(old_acc).push(
                                p.pv(),
                            ));
                            assert(spec_many(old_cur).0 == spec_many(cur@).0);
                            assert(spec_many(old_cur).1 =~= seq![p.pv()] + spec_many(cur@).1);
                            assert(placeholders_view(acc@) + spec_many(cur@).1
                                =~= placeholders_view(old_acc) + spec_many(old_cur).1);
                        }
                    },
                }
            }
            Some((cur, acc))
        },
    }
}


} // verus!
