use vstd::prelude::*;

verus! {

/// Relies on std `String::push`: appends one character at the end of the
/// string and changes nothing else.
#[verifier::external_body]
pub fn push_char(s: &mut String, c: char)
    ensures
        final(s)@ == old(s)@.push(c),
{
    s.push(c);
}

pub open spec fn dec_digit(d: nat) -> char {
    if d == 0 {
        '0'
    } else if d == 1 {
        '1'
    } else if d == 2 {
        '2'
    } else if d == 3 {
        '3'
    } else if d == 4 {
        '4'
    } else if d == 5 {
        '5'
    } else if d == 6 {
        '6'
    } else if d == 7 {
        '7'
    } else if d == 8 {
        '8'
    } else {
        '9'
    }
}

/// The decimal rendering of a natural number, most significant digit first,
/// with no leading zero except for the number zero itself.
pub open spec fn dec_str(n: nat) -> Seq<char>
    decreases n,
{
    if n < 10 {
        seq![dec_digit(n)]
    } else {
        dec_str(n / 10).push(dec_digit(n % 10))
    }
}

fn digit_char(d: u64) -> (c: char)
    requires
        d < 10,
    ensures
        c == dec_digit(d as nat),
{
    if d == 0 {
        '0'
    } else if d == 1 {
        '1'
    } else if d == 2 {
        '2'
    } else if d == 3 {
        '3'
    } else if d == 4 {
        '4'
    } else if d == 5 {
        '5'
    } else if d == 6 {
        '6'
    } else if d == 7 {
        '7'
    } else if d == 8 {
        '8'
    } else {
        '9'
    }
}

/// Renders a number in decimal.
pub fn u64_to_string(n: u64) -> (s: String)
    ensures
        s@ == dec_str(n as nat),
    decreases n,
{
    if n < 10 {
        let mut s = String::new();
        push_char(&mut s, digit_char(n));
        s
    } else {
        let mut s = u64_to_string(n / 10);
        push_char(&mut s, digit_char(n % 10));
        s
    }
}

/// Whether a character must be escaped inside a label value.
pub open spec fn needs_escape(c: char) -> bool {
    c == '"' || c == '\n' || c == '\\'
}

/// The escaped form of one label value character: `"` becomes `\"`,
/// a newline becomes `\n`, and `\` becomes `\\`.
pub open spec fn escape_char(c: char) -> Seq<char> {
    if c == '"' {
        seq!['\\', '"']
    } else if c == '\n' {
        seq!['\\', 'n']
    } else if c == '\\' {
        seq!['\\', '\\']
    } else {
        seq![c]
    }
}

/// The escaped form of a whole label value.
pub open spec fn escape_text(s: Seq<char>) -> Seq<char>
    decreases s.len(),
{
    if s.len() == 0 {
        Seq::empty()
    } else {
        escape_char(s[0]) + escape_text(s.drop_first())
    }
}

/// The inverse mapping: `\n` back to a newline, and any other
/// backslash pair back to its second character.
pub open spec fn unescape_text(s: Seq<char>) -> Seq<char>
    decreases s.len(),
{
    if s.len() == 0 {
        Seq::empty()
    } else if s[0] == '\\' && s.len() >= 2 {
        seq![if s[1] == 'n' { '\n' } else { s[1] }] + unescape_text(s.skip(2))
    } else {
        seq![s[0]] + unescape_text(s.drop_first())
    }
}

proof fn lemma_escape_snoc(s: Seq<char>, c: char)
    ensures
        escape_text(s.push(c)) == escape_text(s) + escape_char(c),
    decreases s.len(),
{
    reveal_with_fuel(escape_text, 3);
    if s.len() == 0 {
        assert(s.push(c).drop_first() =~= Seq::<char>::empty());
        assert(escape_text(s.push(c)) =~= escape_text(s) + escape_char(c));
    } else {
        assert(s.push(c).drop_first() =~= s.drop_first().push(c));
        lemma_escape_snoc(s.drop_first(), c);
        assert(s.push(c).len() != 0 && (s.push(c))[0] == s[0]);
        assert(escape_text(s.push(c)) == escape_char(s[0]) + escape_text(s.drop_first().push(c)));
        assert(escape_text(s.push(c)) == escape_char(s[0]) + (escape_text(s.drop_first())
            + escape_char(c)));
        assert(escape_text(s.push(c)) =~= escape_text(s) + escape_char(c));
    }
}

/// How many characters of the value need escaping.
pub open spec fn escape_count(s: Seq<char>) -> nat
    decreases s.len(),
{
    if s.len() == 0 {
        0
    } else {
        (if needs_escape(s[0]) {
            1nat
        } else {
            0nat
        }) + escape_count(s.drop_first())
    }
}

proof fn lemma_escape_count_snoc(s: Seq<char>, c: char)
    ensures
        escape_count(s.push(c)) == escape_count(s) + (if needs_escape(c) {
            1nat
        } else {
            0nat
        }),
    decreases s.len(),
{
    reveal_with_fuel(escape_count, 3);
    if s.len() == 0 {
        assert(s.push(c).drop_first() =~= Seq::<char>::empty());
        assert(s.push(c).len() != 0 && (s.push(c))[0] == c);
    } else {
        assert(s.push(c).drop_first() =~= s.drop_first().push(c));
        lemma_escape_count_snoc(s.drop_first(), c);
        assert(s.push(c).len() != 0 && (s.push(c))[0] == s[0]);
    }
}

/// A value with nothing to escape is its own escaped form.
pub proof fn lemma_escape_identity(s: Seq<char>)
    requires
        escape_count(s) == 0,
    ensures
        escape_text(s) == s,
    decreases s.len(),
{
    if s.len() == 0 {
        assert(escape_text(s) =~= s);
    } else {
        lemma_escape_identity(s.drop_first());
        assert(escape_text(s) =~= s);
    }
}

/// The escape mapping is undone exactly by the inverse mapping: label
/// values survive the emission encoding unchanged.
pub proof fn lemma_escape_round_trip(s: Seq<char>)
    ensures
        unescape_text(escape_text(s)) == s,
    decreases s.len(),
{
    reveal_with_fuel(escape_text, 3);
    reveal_with_fuel(unescape_text, 3);
    if s.len() == 0 {
        assert(unescape_text(escape_text(s)) =~= s);
    } else {
        lemma_escape_round_trip(s.drop_first());
        let e = escape_text(s);
        let c = s[0];
        if needs_escape(c) {
            assert(e[0] == '\\');
            assert(e.len() >= 2);
            assert(e.skip(2) =~= escape_text(s.drop_first()));
            assert(unescape_text(e) =~= s);
        } else {
            assert(e[0] == c);
            if c == '\\' {
                assert(needs_escape(c));
            }
            assert(e.drop_first() =~= escape_text(s.drop_first()));
            assert(unescape_text(e) =~= s);
        }
    }
}

/// Counts the characters of a label value that escaping will expand.
pub fn should_escape_label_value(label_value: &str) -> (r: usize)
    ensures
        r == escape_count(label_value@),
{
    let n = label_value.unicode_len();
    let mut count: usize = 0;
    let mut i: usize = 0;
    while i < n
        invariant
            n == label_value@.len(),
            i <= n,
            count <= i,
            count == escape_count(label_value@.take(i as int)),
        decreases n - i,
    {
        let c = label_value.get_char(i);
        proof {
            assert(label_value@.take(i as int).push(c) =~= label_value@.take(i + 1 as int));
            lemma_escape_count_snoc(label_value@.take(i as int), c);
        }
        if c == '\\' || c == '"' || c == '\n' {
            count = count + 1;
        }
        i = i + 1;
    }
    proof {
        assert(label_value@.take(n as int) =~= label_value@);
    }
    count
}

/// Escapes a label value for emission.
pub fn escape_label_value(label_value: &str) -> (r: String)
    ensures
        r@ == escape_text(label_value@),
{
    let n = label_value.unicode_len();
    let mut out = String::new();
    let mut i: usize = 0;
    while i < n
        invariant
            n == label_value@.len(),
            i <= n,
            out@ == escape_text(label_value@.take(i as int)),
        decreases n - i,
    {
        let c = label_value.get_char(i);
        proof {
            assert(label_value@.take(i as int).push(c) =~= label_value@.take(i + 1 as int));
            lemma_escape_snoc(label_value@.take(i as int), c);
        }
        if c == '"' {
            push_char(&mut out, '\\');
            push_char(&mut out, '"');
        } else if c == '\n' {
            push_char(&mut out, '\\');
            push_char(&mut out, 'n');
        } else if c == '\\' {
            push_char(&mut out, '\\');
            push_char(&mut out, '\\');
        } else {
            push_char(&mut out, c);
        }
        proof {
            assert(out@ =~= escape_text(label_value@.take(i + 1 as int)));
        }
        i = i + 1;
    }
    proof {
        assert(label_value@.take(n as int) =~= label_value@);
    }
    out
}


/// Character-for-character equality of two texts.
pub fn str_eq(a: &str, b: &str) -> (r: bool)
    ensures
        r == (a@ == b@),
{
    let n = a.unicode_len();
    let m = b.unicode_len();
    if n != m {
        return false;
    }
    let mut i: usize = 0;
    while i < n
        invariant
            n == a@.len(),
            n == b@.len(),
            i <= n,
            forall|j: int| 0 <= j < i ==> a@[j] == b@[j],
        decreases n - i,
    {
        if a.get_char(i) != b.get_char(i) {
            return false;
        }
        i = i + 1;
    }
    proof {
        assert(a@ =~= b@);
    }
    true
}


pub open spec fn strings_view(ps: Seq<String>) -> Seq<Seq<char>> {
    Seq::new(ps.len(), |i: int| if 0 <= i < ps.len() {
        ps[i]@
    } else {
        Seq::empty()
    })
}

/// Position of the first occurrence of a character in the text, if any.
pub open spec fn char_ix(s: Seq<char>, c: char) -> Option<nat>
    decreases s.len(),
{
    if s.len() == 0 {
        None
    } else if s[0] == c {
        Some(0)
    } else {
        match char_ix(s.drop_first(), c) {
            Some(k) => Some(1 + k),
            None => None,
        }
    }
}

pub proof fn lemma_char_ix_at(s: Seq<char>, c: char, i: int)
    requires
        0 <= i <= s.len(),
        forall|j: int| 0 <= j < i ==> s[j] != c,
    ensures
        i == s.len() ==> char_ix(s, c) is None,
        i < s.len() && s[i] == c ==> char_ix(s, c) == Some(i as nat),
    decreases i,
{
    if i > 0 {
        assert(forall|j: int| 0 <= j < i - 1 ==> s.drop_first()[j] != c);
        lemma_char_ix_at(s.drop_first(), c, i - 1);
    }
}

/// The text split at every occurrence of a character; a text without the
/// character is one piece, and n occurrences make n + 1 pieces.
pub open spec fn split_char(s: Seq<char>, c: char) -> Seq<Seq<char>>
    decreases s.len(),
{
    match char_ix(s, c) {
        None => seq![s],
        Some(k) => if k < s.len() {
            seq![s.take(k as int)] + split_char(s.skip(k as int + 1), c)
        } else {
            seq![s]
        },
    }
}

/// The text split at the first occurrence of a character: the piece before
/// it, and what follows it, if the character occurs at all.
pub open spec fn splitn2(s: Seq<char>, c: char) -> (Seq<char>, Option<Seq<char>>) {
    match char_ix(s, c) {
        None => (s, None),
        Some(k) => (s.take(k as int), Some(s.skip(k as int + 1))),
    }
}

/// Splits at the first occurrence of a separator.
pub fn splitn2_str(s: &str, sep: char) -> (r: (String, Option<String>))
    ensures
        r.0@ == splitn2(s@, sep).0,
        r.1 is Some <==> splitn2(s@, sep).1 is Some,
        r.1 matches Some(rest) ==> splitn2(s@, sep).1 matches Some(srest) && rest@ == srest,
{
    let n = s.unicode_len();
    let mut k: usize = 0;
    while k < n && s.get_char(k) != sep
        invariant
            n == s@.len(),
            k <= n,
            forall|j: int| 0 <= j < k ==> s@[j] != sep,
        decreases n - k,
    {
        k = k + 1;
    }
    proof {
        lemma_char_ix_at(s@, sep, k as int);
    }
    if k == n {
        proof {
            assert(s@.take(n as int) =~= s@);
        }
        (String::from_str(s), None)
    } else {
        let head = s.substring_char(0, k);
        let tail = s.substring_char(k + 1, n);
        proof {
            assert(head@ =~= s@.take(k as int));
            assert(tail@ =~= s@.skip(k as int + 1));
        }
        (String::from_str(head), Some(String::from_str(tail)))
    }
}

/// Splits at every occurrence of a separator.
pub fn split_string(s: &str, sep: char) -> (r: Vec<String>)
    ensures
        strings_view(r@) == split_char(s@, sep),
{
    let mut out: Vec<String> = Vec::new();
    let mut cur: &str = s;
    let ghost mut done: Seq<Seq<char>> = Seq::empty();
    proof {
        assert(split_char(s@, sep) =~= done + split_char(cur@, sep));
    }
    loop
        invariant_except_break
            split_char(s@, sep) == done + split_char(cur@, sep),
        invariant
            out@.len() == done.len(),
            forall|i: int| 0 <= i < done.len() ==> #[trigger] out@[i]@ == done[i],
        ensures
            split_char(s@, sep) == done,
            out@.len() == done.len(),
            forall|i: int| 0 <= i < done.len() ==> #[trigger] out@[i]@ == done[i],
        decreases cur@.len(),
    {
        let n = cur.unicode_len();
        let mut k: usize = 0;
        while k < n && cur.get_char(k) != sep
            invariant
                n == cur@.len(),
                k <= n,
                forall|j: int| 0 <= j < k ==> cur@[j] != sep,
            decreases n - k,
        {
            k = k + 1;
        }
        proof {
            lemma_char_ix_at(cur@, sep, k as int);
        }
        if k == n {
            out.push(String::from_str(cur));
            proof {
                assert(split_char(cur@, sep) =~= seq![cur@]);
                done = done.push(cur@);
                assert(split_char(s@, sep) =~= done);
            }
            break;
        } else {
            let head = cur.substring_char(0, k);
            let rest = cur.substring_char(k + 1, n);
            out.push(String::from_str(head));
            proof {
                assert(head@ =~= cur@.take(k as int));
                assert(rest@ =~= cur@.skip(k as int + 1));
                done = done.push(cur@.take(k as int));
                assert(split_char(s@, sep) =~= done + split_char(rest@, sep));
            }
            cur = rest;
        }
    }
    proof {
        assert(strings_view(out@) =~= split_char(s@, sep));
    }
    out
}

} // verus!
