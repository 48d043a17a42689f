use vstd::prelude::*;

use crate::config::pairs_view;
use crate::text::str_eq;

verus! {

/// Strict lexicographic order on texts, by code point.
pub open spec fn lex_lt(a: Seq<char>, b: Seq<char>) -> bool
    decreases a.len(),
{
    if a.len() == 0 {
        b.len() > 0
    } else if b.len() == 0 {
        false
    } else if a[0] != b[0] {
        (a[0] as u32) < (b[0] as u32)
    } else {
        lex_lt(a.drop_first(), b.drop_first())
    }
}

pub proof fn lemma_lex_asym(a: Seq<char>, b: Seq<char>)
    requires
        lex_lt(a, b),
    ensures
        !lex_lt(b, a),
        a != b,
    decreases a.len(),
{
    if a.len() > 0 && b.len() > 0 && a[0] == b[0] {
        lemma_lex_asym(a.drop_first(), b.drop_first());
        assert(a != b) by {
            if a == b {
                assert(a.drop_first() =~= b.drop_first());
            }
        }
    } else {
        if a.len() == 0 {
            assert(a != b);
        }
    }
}

proof fn lemma_char_code_eq(a: char, b: char)
    requires
        a as u32 == b as u32,
    ensures
        a == b,
{
}

pub proof fn lemma_lex_connex(a: Seq<char>, b: Seq<char>)
    requires
        !lex_lt(a, b),
        !lex_lt(b, a),
    ensures
        a == b,
    decreases a.len(),
{
    if a.len() == 0 {
        assert(a =~= b);
    } else {
        assert(b.len() > 0);
        let ca = a[0];
        let cb = b[0];
        if ca != cb {
            assert(lex_lt(a, b) == ((ca as u32) < (cb as u32)));
            assert(lex_lt(b, a) == ((cb as u32) < (ca as u32)));
            assert((ca as u32) == (cb as u32));
            lemma_char_code_eq(ca, cb);
        }
        assert(a[0] == b[0]);
        lemma_lex_connex(a.drop_first(), b.drop_first());
        assert(a =~= b) by {
            assert(forall|i: int| 1 <= i < a.len() ==> a[i] == a.drop_first()[i - 1]
                && b[i] == b.drop_first()[i - 1]);
        }
    }
}

proof fn lemma_lex_skip(a: Seq<char>, b: Seq<char>, i: int)
    requires
        0 <= i <= a.len(),
        i <= b.len(),
        forall|j: int| 0 <= j < i ==> a[j] == b[j],
    ensures
        lex_lt(a, b) == lex_lt(a.skip(i), b.skip(i)),
    decreases i,
{
    if i > 0 {
        assert(a.len() > 0 && b.len() > 0 && a[0] == b[0]);
        assert(forall|j: int| 0 <= j < i - 1 ==> a.drop_first()[j] == b.drop_first()[j]);
        lemma_lex_skip(a.drop_first(), b.drop_first(), i - 1);
        assert(a.drop_first().skip(i - 1) =~= a.skip(i));
        assert(b.drop_first().skip(i - 1) =~= b.skip(i));
    } else {
        assert(a.skip(0) =~= a);
        assert(b.skip(0) =~= b);
    }
}

/// Code-point comparison of two texts.
pub fn str_lt(a: &str, b: &str) -> (r: bool)
    ensures
        r == lex_lt(a@, b@),
{
    let n = a.unicode_len();
    let m = b.unicode_len();
    let mut i: usize = 0;
    loop
        invariant
            n == a@.len(),
            m == b@.len(),
            i <= n,
            i <= m,
            forall|j: int| 0 <= j < i ==> a@[j] == b@[j],
        ensures
            i <= n && i <= m,
            forall|j: int| 0 <= j < i ==> a@[j] == b@[j],
            (i == n || i == m || a@[i as int] != b@[i as int]),
        decreases n - i,
    {
        if i == n || i == m {
            break;
        }
        if a.get_char(i) != b.get_char(i) {
            break;
        }
        i = i + 1;
    }
    proof {
        lemma_lex_skip(a@, b@, i as int);
    }
    if i == n {
        proof {
            assert(a@.skip(i as int) =~= Seq::<char>::empty());
        }
        i < m
    } else if i == m {
        proof {
            assert(b@.skip(i as int) =~= Seq::<char>::empty());
        }
        false
    } else {
        let ca = a.get_char(i);
        let cb = b.get_char(i);
        proof {
            assert(a@.skip(i as int)[0] == a@[i as int]);
            assert(b@.skip(i as int)[0] == b@[i as int]);
        }
        (ca as u32) < (cb as u32)
    }
}

/// A label list sorted strictly by key: each key is below the next.
pub open spec fn sorted_labels(ps: Seq<(Seq<char>, Seq<char>)>) -> bool {
    forall|i: int| 0 <= i < ps.len() - 1 ==> lex_lt(#[trigger] ps[i].0, ps[i + 1].0)
}

/// Sets a label: keeps the keys sorted, replacing the value under an
/// existing key.
pub open spec fn label_insert(
    ps: Seq<(Seq<char>, Seq<char>)>,
    k: Seq<char>,
    v: Seq<char>,
) -> Seq<(Seq<char>, Seq<char>)>
    decreases ps.len(),
{
    if ps.len() == 0 {
        seq![(k, v)]
    } else if lex_lt(k, ps[0].0) {
        seq![(k, v)] + ps
    } else if ps[0].0 == k {
        ps.update(0, (k, v))
    } else {
        seq![ps[0]] + label_insert(ps.drop_first(), k, v)
    }
}

/// Inherits a label: as `label_insert`, but an existing key keeps its
/// value.
pub open spec fn label_or_insert(
    ps: Seq<(Seq<char>, Seq<char>)>,
    k: Seq<char>,
    v: Seq<char>,
) -> Seq<(Seq<char>, Seq<char>)>
    decreases ps.len(),
{
    if ps.len() == 0 {
        seq![(k, v)]
    } else if lex_lt(k, ps[0].0) {
        seq![(k, v)] + ps
    } else if ps[0].0 == k {
        ps
    } else {
        seq![ps[0]] + label_or_insert(ps.drop_first(), k, v)
    }
}

/// The value under a key, if any.
pub open spec fn label_lookup(ps: Seq<(Seq<char>, Seq<char>)>, k: Seq<char>) -> Option<Seq<char>>
    decreases ps.len(),
{
    if ps.len() == 0 {
        None
    } else if ps[0].0 == k {
        Some(ps[0].1)
    } else {
        label_lookup(ps.drop_first(), k)
    }
}

/// Setting a label leaves it readable under its key, and every other key
/// untouched.
pub proof fn lemma_insert_lookup(
    ps: Seq<(Seq<char>, Seq<char>)>,
    k: Seq<char>,
    v: Seq<char>,
    k2: Seq<char>,
)
    ensures
        label_lookup(label_insert(ps, k, v), k) == Some(v),
        k2 != k ==> label_lookup(label_insert(ps, k, v), k2) == label_lookup(ps, k2),
    decreases ps.len(),
{
    if ps.len() == 0 {
        assert((seq![(k, v)])[0] == (k, v));
        assert((seq![(k, v)]).drop_first() =~= Seq::<(Seq<char>, Seq<char>)>::empty());
        assert(label_lookup(label_insert(ps, k, v), k) == Some(v));
        assert(k2 != k ==> label_lookup(label_insert(ps, k, v), k2) == label_lookup(ps, k2));
    } else if lex_lt(k, ps[0].0) {
        lemma_lex_asym(k, ps[0].0);
        assert((seq![(k, v)] + ps)[0] == (k, v));
        assert((seq![(k, v)] + ps).drop_first() =~= ps);
        assert(label_lookup(label_insert(ps, k, v), k) == Some(v));
        assert(k2 != k ==> label_lookup(label_insert(ps, k, v), k2) == label_lookup(ps, k2));
    } else if ps[0].0 == k {
        assert(label_insert(ps, k, v)[0] == (k, v));
        assert(label_insert(ps, k, v).drop_first() =~= ps.drop_first());
        assert(label_lookup(label_insert(ps, k, v), k) == Some(v));
        assert(k2 != k ==> label_lookup(label_insert(ps, k, v), k2) == label_lookup(ps, k2));
    } else {
        lemma_insert_lookup(ps.drop_first(), k, v, k2);
        assert((seq![ps[0]] + label_insert(ps.drop_first(), k, v))[0] == ps[0]);
        assert((seq![ps[0]] + label_insert(ps.drop_first(), k, v)).drop_first() =~= label_insert(
            ps.drop_first(),
            k,
            v,
        ));
        assert(label_lookup(label_insert(ps, k, v), k) == Some(v));
        assert(k2 != k ==> label_lookup(label_insert(ps, k, v), k2) == label_lookup(ps, k2));
    }
}

pub proof fn lemma_lex_trans(a: Seq<char>, b: Seq<char>, c: Seq<char>)
    requires
        lex_lt(a, b),
        lex_lt(b, c),
    ensures
        lex_lt(a, c),
    decreases a.len(),
{
    if a.len() == 0 {
        assert(b.len() > 0);
        assert(c.len() > 0);
    } else {
        assert(b.len() > 0);
        assert(c.len() > 0);
        let ca = a[0];
        let cb = b[0];
        let cc = c[0];
        if ca == cb && cb == cc {
            lemma_lex_trans(a.drop_first(), b.drop_first(), c.drop_first());
        } else {
            assert((ca as u32) <= (cb as u32));
            assert((cb as u32) <= (cc as u32));
            if ca == cc {
                assert((ca as u32) == (cc as u32));
                assert((ca as u32) == (cb as u32));
                lemma_char_code_eq(ca, cb);
                assert(false);
            }
            assert((ca as u32) < (cc as u32)) by {
                if (ca as u32) == (cb as u32) {
                    lemma_char_code_eq(ca, cb);
                }
                if (cb as u32) == (cc as u32) {
                    lemma_char_code_eq(cb, cc);
                }
            }
        }
    }
}

/// Keys of a sorted list are all above a key that is below its head.
pub proof fn lemma_sorted_lookup_none(ps: Seq<(Seq<char>, Seq<char>)>, k: Seq<char>)
    requires
        sorted_labels(ps),
        ps.len() > 0 ==> lex_lt(k, ps[0].0),
    ensures
        label_lookup(ps, k) is None,
    decreases ps.len(),
{
    if ps.len() > 0 {
        lemma_lex_asym(k, ps[0].0);
        lemma_sorted_drop_first(ps);
        if ps.len() > 1 {
            lemma_lex_trans(k, ps[0].0, ps[1].0);
        }
        lemma_sorted_lookup_none(ps.drop_first(), k);
    }
}

pub proof fn lemma_sorted_drop_first(ps: Seq<(Seq<char>, Seq<char>)>)
    requires
        sorted_labels(ps),
        ps.len() > 0,
    ensures
        sorted_labels(ps.drop_first()),
{
    assert(forall|i: int| 0 <= i < ps.len() - 2 ==> #[trigger] ps.drop_first()[i] == ps[i + 1]
        && ps.drop_first()[i + 1] == ps[i + 2]);
}

/// Inheriting a label keeps an existing value and fills a missing one, and
/// leaves every other key untouched.
pub proof fn lemma_or_insert_lookup(
    ps: Seq<(Seq<char>, Seq<char>)>,
    k: Seq<char>,
    v: Seq<char>,
    k2: Seq<char>,
)
    requires
        sorted_labels(ps),
    ensures
        label_lookup(label_or_insert(ps, k, v), k) == (match label_lookup(ps, k) {
            Some(w) => Some(w),
            None => Some(v),
        }),
        k2 != k ==> label_lookup(label_or_insert(ps, k, v), k2) == label_lookup(ps, k2),
    decreases ps.len(),
{
    if ps.len() == 0 {
        assert((seq![(k, v)])[0] == (k, v));
        assert((seq![(k, v)]).drop_first() =~= Seq::<(Seq<char>, Seq<char>)>::empty());
        assert(label_lookup(label_or_insert(ps, k, v), k) == Some(v));
        assert(k2 != k ==> label_lookup(label_or_insert(ps, k, v), k2) == label_lookup(ps, k2));
    } else if lex_lt(k, ps[0].0) {
        lemma_lex_asym(k, ps[0].0);
        assert((seq![(k, v)] + ps)[0] == (k, v));
        assert((seq![(k, v)] + ps).drop_first() =~= ps);
        assert(label_lookup(ps, k) is None) by {
            lemma_sorted_lookup_none(ps, k);
        }
        assert(label_lookup(label_or_insert(ps, k, v), k) == Some(v));
        assert(k2 != k ==> label_lookup(label_or_insert(ps, k, v), k2) == label_lookup(ps, k2));
    } else if ps[0].0 == k {
        assert(label_lookup(ps, k) == Some(ps[0].1));
        assert(label_lookup(label_or_insert(ps, k, v), k) == Some(ps[0].1));
    } else {
        lemma_sorted_drop_first(ps);
        lemma_or_insert_lookup(ps.drop_first(), k, v, k2);
        lemma_or_insert_lookup(ps.drop_first(), k, v, k);
        assert((seq![ps[0]] + label_or_insert(ps.drop_first(), k, v))[0] == ps[0]);
        assert((seq![ps[0]] + label_or_insert(ps.drop_first(), k, v)).drop_first()
            =~= label_or_insert(ps.drop_first(), k, v));
        assert(k2 != k ==> label_lookup(label_or_insert(ps, k, v), k2) == label_lookup(ps, k2));
    }
}


proof fn lemma_insert_at(
    ps: Seq<(Seq<char>, Seq<char>)>,
    k: Seq<char>,
    v: Seq<char>,
    pos: int,
)
    requires
        0 <= pos <= ps.len(),
        forall|j: int| 0 <= j < pos ==> lex_lt(#[trigger] ps[j].0, k),
        pos == ps.len() || !lex_lt(ps[pos].0, k),
    ensures
        pos < ps.len() && ps[pos].0 == k ==> label_insert(ps, k, v) == ps.update(pos, (k, v)),
        !(pos < ps.len() && ps[pos].0 == k) ==> label_insert(ps, k, v) == ps.take(pos) + seq![
            (k, v),
        ] + ps.skip(pos),
    decreases pos,
{
    if pos == 0 {
        if ps.len() == 0 {
            assert(label_insert(ps, k, v) =~= ps.take(0) + seq![(k, v)] + ps.skip(0));
        } else if ps[0].0 == k {
            assert(label_insert(ps, k, v) =~= ps.update(0, (k, v)));
        } else {
            assert(lex_lt(k, ps[0].0)) by {
                if !lex_lt(k, ps[0].0) {
                    lemma_lex_connex(k, ps[0].0);
                }
            }
            assert(label_insert(ps, k, v) =~= ps.take(0) + seq![(k, v)] + ps.skip(0));
        }
    } else {
        assert(lex_lt(ps[0].0, k));
        lemma_lex_asym(ps[0].0, k);
        assert(forall|j: int| 0 <= j < pos - 1 ==> lex_lt(
            #[trigger] ps.drop_first()[j].0,
            k,
        ));
        lemma_insert_at(ps.drop_first(), k, v, pos - 1);
        if pos < ps.len() && ps[pos].0 == k {
            assert(label_insert(ps, k, v) =~= ps.update(pos, (k, v)));
        } else {
            assert(label_insert(ps, k, v) =~= ps.take(pos) + seq![(k, v)] + ps.skip(pos));
        }
    }
}

proof fn lemma_or_insert_at(
    ps: Seq<(Seq<char>, Seq<char>)>,
    k: Seq<char>,
    v: Seq<char>,
    pos: int,
)
    requires
        0 <= pos <= ps.len(),
        forall|j: int| 0 <= j < pos ==> lex_lt(#[trigger] ps[j].0, k),
        pos == ps.len() || !lex_lt(ps[pos].0, k),
    ensures
        pos < ps.len() && ps[pos].0 == k ==> label_or_insert(ps, k, v) == ps,
        !(pos < ps.len() && ps[pos].0 == k) ==> label_or_insert(ps, k, v) == ps.take(pos) + seq![
            (k, v),
        ] + ps.skip(pos),
    decreases pos,
{
    if pos == 0 {
        if ps.len() == 0 {
            assert(label_or_insert(ps, k, v) =~= ps.take(0) + seq![(k, v)] + ps.skip(0));
        } else if ps[0].0 == k {
        } else {
            assert(lex_lt(k, ps[0].0)) by {
                if !lex_lt(k, ps[0].0) {
                    lemma_lex_connex(k, ps[0].0);
                }
            }
            assert(label_or_insert(ps, k, v) =~= ps.take(0) + seq![(k, v)] + ps.skip(0));
        }
    } else {
        assert(lex_lt(ps[0].0, k));
        lemma_lex_asym(ps[0].0, k);
        assert(forall|j: int| 0 <= j < pos - 1 ==> lex_lt(
            #[trigger] ps.drop_first()[j].0,
            k,
        ));
        lemma_or_insert_at(ps.drop_first(), k, v, pos - 1);
        if pos < ps.len() && ps[pos].0 == k {
            assert(label_or_insert(ps, k, v) =~= ps);
        } else {
            assert(label_or_insert(ps, k, v) =~= ps.take(pos) + seq![(k, v)] + ps.skip(pos));
        }
    }
}

/// Setting a label keeps the keys sorted.
pub proof fn lemma_insert_sorted(ps: Seq<(Seq<char>, Seq<char>)>, k: Seq<char>, v: Seq<char>)
    requires
        sorted_labels(ps),
    ensures
        sorted_labels(label_insert(ps, k, v)),
        sorted_labels(label_or_insert(ps, k, v)),
    decreases ps.len(),
{
    if ps.len() == 0 {
    } else if lex_lt(k, ps[0].0) {
        let r = seq![(k, v)] + ps;
        assert(forall|i: int| 0 <= i < ps.len() ==> r[i + 1] == ps[i]);
        assert(sorted_labels(r)) by {
            assert(forall|i: int| 1 <= i < r.len() - 1 ==> lex_lt(
                #[trigger] r[i].0,
                r[i + 1].0,
            ));
        }
    } else if ps[0].0 == k {
        let r = ps.update(0, (k, v));
        assert(sorted_labels(r)) by {
            assert(forall|i: int| 0 <= i < r.len() ==> r[i].0 == ps[i].0);
        }
    } else {
        assert(lex_lt(ps[0].0, k)) by {
            if !lex_lt(ps[0].0, k) {
                lemma_lex_connex(k, ps[0].0);
            }
        }
        assert(sorted_labels(ps.drop_first())) by {
            assert(forall|i: int| 0 <= i < ps.len() - 2 ==> #[trigger] ps.drop_first()[i]
                == ps[i + 1] && ps.drop_first()[i + 1] == ps[i + 2]);
        }
        lemma_insert_sorted(ps.drop_first(), k, v);
        let ri = seq![ps[0]] + label_insert(ps.drop_first(), k, v);
        let ro = seq![ps[0]] + label_or_insert(ps.drop_first(), k, v);
        lemma_insert_head_lt(ps.drop_first(), k, v, ps[0].0);
        assert(sorted_labels(ri)) by {
            assert(forall|i: int| 1 <= i < ri.len() ==> ri[i] == label_insert(
                ps.drop_first(),
                k,
                v,
            )[i - 1]);
        }
        assert(sorted_labels(ro)) by {
            assert(forall|i: int| 1 <= i < ro.len() ==> ro[i] == label_or_insert(
                ps.drop_first(),
                k,
                v,
            )[i - 1]);
        }
    }
}

proof fn lemma_insert_head_lt(
    ps: Seq<(Seq<char>, Seq<char>)>,
    k: Seq<char>,
    v: Seq<char>,
    h: Seq<char>,
)
    requires
        lex_lt(h, k),
        ps.len() > 0 ==> lex_lt(h, ps[0].0),
    ensures
        lex_lt(h, label_insert(ps, k, v)[0].0),
        lex_lt(h, label_or_insert(ps, k, v)[0].0),
        label_insert(ps, k, v).len() > 0,
        label_or_insert(ps, k, v).len() > 0,
{
    if ps.len() == 0 {
    } else if lex_lt(k, ps[0].0) {
        assert((seq![(k, v)] + ps)[0] == (k, v));
    } else if ps[0].0 == k {
    } else {
        assert((seq![ps[0]] + label_insert(ps.drop_first(), k, v))[0] == ps[0]);
        assert((seq![ps[0]] + label_or_insert(ps.drop_first(), k, v))[0] == ps[0]);
    }
}

/// Sets a label in a sorted list held as a vector.
#[verifier::loop_isolation(false)]
pub fn set_sorted_label(ps: &mut Vec<(String, String)>, k: String, v: String)
    ensures
        pairs_view(final(ps)@) == label_insert(pairs_view(old(ps)@), k@, v@),
{
    insert_impl(ps, k, v, true);
}

/// Inherits a label in a sorted list held as a vector: an existing key
/// keeps its value.
#[verifier::loop_isolation(false)]
pub fn inherit_sorted_label(ps: &mut Vec<(String, String)>, k: String, v: String)
    ensures
        pairs_view(final(ps)@) == label_or_insert(pairs_view(old(ps)@), k@, v@),
{
    insert_impl(ps, k, v, false);
}

#[verifier::loop_isolation(false)]
fn insert_impl(ps: &mut Vec<(String, String)>, k: String, v: String, replace: bool)
    ensures
        replace ==> pairs_view(final(ps)@) == label_insert(pairs_view(old(ps)@), k@, v@),
        !replace ==> pairs_view(final(ps)@) == label_or_insert(pairs_view(old(ps)@), k@, v@),
{
    let ghost pv = pairs_view(ps@);
    let n = ps.len();
    let mut pos: usize = 0;
    while pos < n && str_lt(ps[pos].0.as_str(), k.as_str())
        invariant
            pos <= n,
            ps@ == old(ps)@,
            forall|j: int| 0 <= j < pos ==> lex_lt(#[trigger] pv[j].0, k@),
        decreases n - pos,
    {
        pos = pos + 1;
    }
    proof {
        if replace {
            lemma_insert_at(pv, k@, v@, pos as int);
        } else {
            lemma_or_insert_at(pv, k@, v@, pos as int);
        }
    }
    if pos < n && str_eq(ps[pos].0.as_str(), k.as_str()) {
        if replace {
            let mut rebuilt: Vec<(String, String)> = Vec::new();
            let mut j: usize = 0;
            while j < n
                invariant
                    pos < n,
                    j <= n,
                    rebuilt@.len() == j,
                    ps@ == old(ps)@,
                    forall|m: int| 0 <= m < j && m != pos ==> (#[trigger] rebuilt@[m].0@,
                        rebuilt@[m].1@) == pv[m],
                    pos < j ==> (rebuilt@[pos as int].0@, rebuilt@[pos as int].1@) == (k@, v@),
                decreases n - j,
            {
                if j == pos {
                    rebuilt.push((k.clone(), v.clone()));
                } else {
                    let name = ps[j].0.clone();
                    let value = ps[j].1.clone();
                    rebuilt.push((name, value));
                }
                j = j + 1;
            }
            *ps = rebuilt;
            proof {
                assert(pairs_view(ps@) =~= pv.update(pos as int, (k@, v@)));
            }
        }
    } else {
        ps.insert(pos, (k, v));
        proof {
            assert(pairs_view(ps@) =~= pv.take(pos as int) + seq![(k@, v@)] + pv.skip(pos as int));
        }
    }
}

} // verus!
