//! Text comparison: equality of strings, and the lexicographic order by
//! character code in which the belief sets and intent reads are kept.
use vstd::prelude::*;
use vstd::string::*;

verus! {

/// The result of a three-way comparison.
#[derive(Debug, Clone, Copy, PartialEq, Eq, Structural)]
pub enum Cmp {
    Less,
    Equal,
    Greater,
}

/// `a` comes strictly before `b` in lexicographic order by character code —
/// the order in which Rust orders `String`s (byte order of UTF-8 is code-point
/// order).
pub open spec fn chars_lt(a: Seq<char>, b: Seq<char>) -> bool
    decreases a.len(),
{
    if a.len() == 0 {
        b.len() > 0
    } else if b.len() == 0 {
        false
    } else if a[0] != b[0] {
        a[0] < b[0]
    } else {
        chars_lt(a.drop_first(), b.drop_first())
    }
}

pub proof fn lemma_chars_lt_irreflexive(a: Seq<char>)
    ensures
        !chars_lt(a, a),
    decreases a.len(),
{
    if a.len() > 0 {
        lemma_chars_lt_irreflexive(a.drop_first());
    }
}

pub proof fn lemma_chars_lt_trichotomy(a: Seq<char>, b: Seq<char>)
    ensures
        a == b || chars_lt(a, b) || chars_lt(b, a),
        !(chars_lt(a, b) && chars_lt(b, a)),
        a == b ==> !chars_lt(a, b),
    decreases a.len(),
{
    if a.len() > 0 && b.len() > 0 {
        lemma_chars_lt_trichotomy(a.drop_first(), b.drop_first());
        if a[0] == b[0] && a.drop_first() == b.drop_first() {
            assert(a =~= b) by {
                assert forall|i: int| 0 <= i < a.len() implies a[i] == b[i] by {
                    if i > 0 {
                        assert(a[i] == a.drop_first()[i - 1]);
                        assert(b[i] == b.drop_first()[i - 1]);
                    }
                }
            }
        }
        if a[0] != b[0] {
            assert(a[0] < b[0] || b[0] < a[0]);
        }
    } else if a.len() == 0 && b.len() == 0 {
        assert(a =~= b);
    }
    if a == b {
        lemma_chars_lt_irreflexive(a);
    }
}

pub proof fn lemma_chars_lt_transitive(a: Seq<char>, b: Seq<char>, c: Seq<char>)
    requires
        chars_lt(a, b),
        chars_lt(b, c),
    ensures
        chars_lt(a, c),
    decreases a.len(),
{
    if a.len() > 0 && b.len() > 0 && c.len() > 0 {
        if a[0] == b[0] && b[0] == c[0] {
            lemma_chars_lt_transitive(a.drop_first(), b.drop_first(), c.drop_first());
        }
    }
}

/// Whether two strings hold the same characters.
pub fn str_eq(a: &str, b: &str) -> (r: bool)
    ensures
        r == (a@ == b@),
{
    let n = a.unicode_len();
    let m = b.unicode_len();
    if n != m {
        return false;
    }
    let mut i: usize = 0;
    while i < n
        invariant
            n == a@.len(),
            m == b@.len(),
            n == m,
            i <= n,
            forall|j: int| 0 <= j < i ==> a@[j] == b@[j],
        decreases n - i,
    {
        if a.get_char(i) != b.get_char(i) {
            return false;
        }
        i = i + 1;
    }
    assert(a@ =~= b@);
    true
}

/// The characters of a string, one by one.
pub fn chars_of(s: &str) -> (v: Vec<char>)
    ensures
        v@ == s@,
{
    let n = s.unicode_len();
    let mut v: Vec<char> = Vec::new();
    let mut i: usize = 0;
    while i < n
        invariant
            n == s@.len(),
            i <= n,
            v@ == s@.subrange(0, i as int),
        decreases n - i,
    {
        v.push(s.get_char(i));
        i = i + 1;
        assert(v@ =~= s@.subrange(0, i as int));
    }
    assert(s@.subrange(0, n as int) =~= s@);
    v
}

/// Lexicographic comparison of two character sequences.
pub fn compare_chars(a: &Vec<char>, b: &Vec<char>) -> (c: Cmp)
    ensures
        (c == Cmp::Less) == chars_lt(a@, b@),
        (c == Cmp::Equal) == (a@ == b@),
        (c == Cmp::Greater) == chars_lt(b@, a@),
{
    let mut i: usize = 0;
    while i < a.len() && i < b.len()
        invariant
            i <= a.len(),
            i <= b.len(),
            a@.subrange(0, i as int) == b@.subrange(0, i as int),
        decreases a.len() - i,
    {
        if a[i] != b[i] {
            proof {
                lemma_chars_lt_common_prefix(a@, b@, i as int);
                lemma_chars_lt_trichotomy(a@, b@);
            }
            if a[i] < b[i] {
                return Cmp::Less;
            } else {
                return Cmp::Greater;
            }
        }
        assert(a@.subrange(0, i + 1) =~= a@.subrange(0, i as int).push(a@[i as int]));
        assert(b@.subrange(0, i + 1) =~= b@.subrange(0, i as int).push(b@[i as int]));
        i = i + 1;
    }
    proof {
        lemma_chars_lt_common_prefix(a@, b@, i as int);
        lemma_chars_lt_trichotomy(a@, b@);
        if a.len() == b.len() {
            assert(a@ =~= a@.subrange(0, i as int));
            assert(b@ =~= b@.subrange(0, i as int));
        }
    }
    if a.len() < b.len() {
        Cmp::Less
    } else if a.len() == b.len() {
        Cmp::Equal
    } else {
        Cmp::Greater
    }
}

/// Two sequences that agree on their first `k` characters compare as their
/// remainders do.
proof fn lemma_chars_lt_common_prefix(a: Seq<char>, b: Seq<char>, k: int)
    requires
        0 <= k <= a.len(),
        k <= b.len(),
        a.subrange(0, k) == b.subrange(0, k),
    ensures
        chars_lt(a, b) == chars_lt(a.subrange(k, a.len() as int), b.subrange(k, b.len() as int)),
        chars_lt(b, a) == chars_lt(b.subrange(k, b.len() as int), a.subrange(k, a.len() as int)),
    decreases k,
{
    if k == 0 {
        assert(a.subrange(0, a.len() as int) =~= a);
        assert(b.subrange(0, b.len() as int) =~= b);
    } else {
        assert(a[0] == a.subrange(0, k)[0]);
        assert(b[0] == b.subrange(0, k)[0]);
        assert(a.drop_first().subrange(0, k - 1) =~= a.subrange(0, k).drop_first());
        assert(b.drop_first().subrange(0, k - 1) =~= b.subrange(0, k).drop_first());
        lemma_chars_lt_common_prefix(a.drop_first(), b.drop_first(), k - 1);
        assert(a.drop_first().subrange(k - 1, a.len() - 1) =~= a.subrange(k, a.len() as int));
        assert(b.drop_first().subrange(k - 1, b.len() - 1) =~= b.subrange(k, b.len() as int));
    }
}

/// Lexicographic comparison of two strings.
pub fn compare_strings(a: &String, b: &String) -> (c: Cmp)
    ensures
        (c == Cmp::Less) == chars_lt(a@, b@),
        (c == Cmp::Equal) == (a@ == b@),
        (c == Cmp::Greater) == chars_lt(b@, a@),
{
    let x = chars_of(a.as_str());
    let y = chars_of(b.as_str());
    compare_chars(&x, &y)
}

} // verus!

verus! {

/// The decimal digits of `n`, most significant first.
pub open spec fn decimal(n: nat) -> Seq<char>
    decreases n,
{
    if n < 10 {
        seq![digit_char(n)]
    } else {
        decimal(n / 10).push(digit_char(n % 10))
    }
}

pub open spec fn digit_char(d: nat) -> char {
    if d == 0 { '0' }
    else if d == 1 { '1' }
    else if d == 2 { '2' }
    else if d == 3 { '3' }
    else if d == 4 { '4' }
    else if d == 5 { '5' }
    else if d == 6 { '6' }
    else if d == 7 { '7' }
    else if d == 8 { '8' }
    else { '9' }
}

fn digit_str(d: usize) -> (s: &'static str)
    requires
        d < 10,
    ensures
        s@ == seq![digit_char(d as nat)],
{
    proof {
        reveal_strlit("0");
        reveal_strlit("1");
        reveal_strlit("2");
        reveal_strlit("3");
        reveal_strlit("4");
        reveal_strlit("5");
        reveal_strlit("6");
        reveal_strlit("7");
        reveal_strlit("8");
        reveal_strlit("9");
    }
    if d == 0 { "0" }
    else if d == 1 { "1" }
    else if d == 2 { "2" }
    else if d == 3 { "3" }
    else if d == 4 { "4" }
    else if d == 5 { "5" }
    else if d == 6 { "6" }
    else if d == 7 { "7" }
    else if d == 8 { "8" }
    else { "9" }
}

/// The usual decimal numeral: a digit below ten is the one character from
/// `'0'` to `'9'` that stands for it, and `10·m + d` (with `m > 0`, `d < 10`)
/// is the numeral of `m` followed by the digit `d`, most significant first.
pub proof fn lemma_decimal_is_positional(m: nat, d: nat)
    requires
        d < 10,
    ensures
        decimal(d).len() == 1,
        decimal(d)[0] as int == 48 + d,
        m > 0 ==> decimal(10 * m + d) == decimal(m) + decimal(d),
{
    assert('0' as int == 48);
    if m > 0 {
        let n = 10 * m + d;
        assert(n / 10 == m && n % 10 == d) by (nonlinear_arith)
            requires
                n == 10 * m + d,
                d < 10,
        ;
        assert(decimal(n) =~= decimal(m) + decimal(d));
    }
}

/// Append the decimal digits of `n` to `out`.
pub fn push_decimal(out: &mut String, n: usize)
    ensures
        final(out)@ == old(out)@ + decimal(n as nat),
    decreases n,
{
    if n < 10 {
        out.append(digit_str(n));
    } else {
        push_decimal(out, n / 10);
        out.append(digit_str(n % 10));
        assert(decimal(n as nat) == decimal((n / 10) as nat).push(digit_char((n % 10) as nat)));
        assert(out@ =~= old(out)@ + decimal(n as nat));
    }
}

} // verus!

verus! {

pub open spec fn texts(ss: Seq<String>) -> Seq<Seq<char>> {
    ss.map_values(|s: String| s@)
}

/// Strictly ascending by [`chars_lt`]: sorted, with nothing twice.
pub open spec fn names_ascending(s: Seq<Seq<char>>) -> bool {
    forall|i: int, j: int| 0 <= i < j < s.len() ==> chars_lt(#[trigger] s[i], #[trigger] s[j])
}

/// Add `name` to a strictly ascending list of names, keeping it so.
pub fn insert_name(v: &mut Vec<String>, name: String)
    requires
        names_ascending(texts(old(v)@)),
    ensures
        names_ascending(texts(final(v)@)),
        texts(final(v)@).to_set() == texts(old(v)@).to_set().insert(name@),
{
    broadcast use vstd::seq_lib::group_seq_properties;

    let ghost old_s = texts(v@);
    let ghost nv = name@;
    let mut i: usize = 0;
    let mut stop = false;
    while i < v.len() && !stop
        invariant
            i <= v.len(),
            old_s == texts(v@),
            nv == name@,
            names_ascending(old_s),
            forall|j: int| 0 <= j < i ==> chars_lt(#[trigger] old_s[j], nv),
            stop ==> i < v.len() && chars_lt(nv, old_s[i as int]),
        decreases v.len() - i, if stop { 0nat } else { 1nat },
    {
        assert(old_s[i as int] == v@[i as int]@);
        match compare_strings(&v[i], &name) {
            Cmp::Less => {
                i = i + 1;
            },
            Cmp::Equal => {
                assert(old_s.to_set().insert(nv) =~= old_s.to_set()) by {
                    assert(old_s.contains(nv)) by {
                        assert(old_s[i as int] == nv);
                    }
                }
                return;
            },
            Cmp::Greater => {
                stop = true;
            },
        }
    }
    proof {
        if i < v.len() {
            assert forall|j: int| i <= j < old_s.len() implies chars_lt(nv, #[trigger] old_s[j]) by {
                if j > i {
                    lemma_chars_lt_transitive(nv, old_s[i as int], old_s[j]);
                }
            }
        }
    }
    v.insert(i, name);
    proof {
        let new_s = texts(v@);
        assert(new_s =~= old_s.insert(i as int, nv));
        assert forall|a: int, b: int| 0 <= a < b < new_s.len() implies chars_lt(#[trigger] new_s[a], #[trigger] new_s[b]) by {
            if b < i {
                assert(new_s[a] == old_s[a]);
                assert(new_s[b] == old_s[b]);
            } else if a < i && b == i {
                assert(new_s[a] == old_s[a]);
            } else if a < i && b > i {
                assert(new_s[a] == old_s[a]);
                assert(new_s[b] == old_s[b - 1]);
            } else if a == i {
                assert(new_s[b] == old_s[b - 1]);
            } else {
                assert(new_s[a] == old_s[a - 1]);
                assert(new_s[b] == old_s[b - 1]);
            }
        }
        assert forall|x: Seq<char>| #[trigger] new_s.to_set().contains(x) == old_s.to_set().insert(nv).contains(x) by {
            if new_s.contains(x) {
                let k = choose|k: int| 0 <= k < new_s.len() && #[trigger] new_s[k] == x;
                if k < i {
                    assert(old_s[k] == x);
                } else if k > i {
                    assert(old_s[k - 1] == x);
                }
            }
            if old_s.contains(x) {
                let k = choose|k: int| 0 <= k < old_s.len() && #[trigger] old_s[k] == x;
                if k < i {
                    assert(new_s[k] == x);
                } else {
                    assert(new_s[k + 1] == x);
                }
            }
            if x == nv {
                assert(new_s[i as int] == x);
            }
        }
        assert(new_s.to_set() =~= old_s.to_set().insert(nv));
    }
}

} // verus!
