use vstd::prelude::*;
use vstd::string::StringExecFns;
use vstd::string::StrSliceExecFns;

verus! {

/// `p` is a prefix of `s`.
pub open spec fn has_prefix(s: Seq<char>, p: Seq<char>) -> bool {
    p.len() <= s.len() && s.subrange(0, p.len() as int) == p
}

/// `s` with every leading copy of the non-empty pattern `p` removed,
/// as many times as it occurs back to back at the front.
pub open spec fn strip_all(s: Seq<char>, p: Seq<char>) -> Seq<char>
    decreases s.len(),
{
    if p.len() > 0 && has_prefix(s, p) {
        strip_all(s.subrange(p.len() as int, s.len() as int), p)
    } else {
        s
    }
}

/// After stripping, the string no longer starts with the (non-empty)
/// pattern, so stripping again changes nothing; what is left is a suffix.
pub proof fn lemma_strip_all_stripped(s: Seq<char>, p: Seq<char>)
    requires
        p.len() > 0,
    ensures
        !has_prefix(strip_all(s, p), p),
        strip_all(strip_all(s, p), p) == strip_all(s, p),
        strip_all(s, p).len() <= s.len(),
        s.subrange(s.len() - strip_all(s, p).len(), s.len() as int) == strip_all(s, p),
    decreases s.len(),
{
    if has_prefix(s, p) {
        let rest = s.subrange(p.len() as int, s.len() as int);
        lemma_strip_all_stripped(rest, p);
        assert(s.subrange(s.len() - strip_all(s, p).len(), s.len() as int) =~= rest.subrange(
            rest.len() - strip_all(rest, p).len(),
            rest.len() as int,
        ));
    } else {
        assert(s.subrange(0, s.len() as int) =~= s);
    }
}

/// Whether `p` occurs in `s` starting at char position `pos`.
fn occurs_at(s: &str, n: usize, p: &str, m: usize, pos: usize) -> (r: bool)
    requires
        n == s@.len(),
        m == p@.len(),
        pos + m <= n,
    ensures
        r == (s@.subrange(pos as int, pos + m) == p@),
{
    let mut i: usize = 0;
    while i < m
        invariant
            n == s@.len(),
            m == p@.len(),
            pos + m <= n,
            i <= m,
            forall|k: int| 0 <= k < i ==> s@[pos + k] == p@[k],
        decreases m - i,
    {
        if s.get_char(pos + i) != p.get_char(i) {
            assert(s@.subrange(pos as int, pos + m)[i as int] != p@[i as int]);
            return false;
        }
        i = i + 1;
    }
    assert(s@.subrange(pos as int, pos + m) =~= p@);
    true
}

/// Whether `s` begins with `p` (as `str::starts_with` with a string pattern).
pub fn starts_with(s: &str, p: &str) -> (r: bool)
    ensures
        r == has_prefix(s@, p@),
{
    let n = s.unicode_len();
    let m = p.unicode_len();
    if m > n {
        return false;
    }
    occurs_at(s, n, p, m, 0)
}

/// `s` with all leading repetitions of `p` removed (as `str::trim_start_matches`
/// with a string pattern).
pub fn trim_start_all<'a>(s: &'a str, p: &str) -> (r: &'a str)
    ensures
        r@ == strip_all(s@, p@),
{
    let n = s.unicode_len();
    let m = p.unicode_len();
    let mut pos: usize = 0;
    if m > 0 {
        assert(s@.subrange(0, n as int) =~= s@);
        while m <= n - pos && occurs_at(s, n, p, m, pos)
            invariant
                n == s@.len(),
                m == p@.len(),
                m > 0,
                pos <= n,
                strip_all(s@, p@) == strip_all(s@.subrange(pos as int, n as int), p@),
            decreases n - pos,
        {
            let ghost rest = s@.subrange(pos as int, n as int);
            assert(rest.subrange(0, m as int) =~= s@.subrange(pos as int, pos + m));
            assert(rest.subrange(m as int, rest.len() as int) =~= s@.subrange(pos + m, n as int));
            pos = pos + m;
        }
        proof {
            let rest = s@.subrange(pos as int, n as int);
            if m <= n - pos {
                assert(rest.subrange(0, m as int) =~= s@.subrange(pos as int, pos + m));
            }
        }
    } else {
        assert(s@.subrange(0, n as int) =~= s@);
    }
    s.substring_char(pos, n)
}

/// The concatenation of two strings as a new `String`.
pub fn concat(a: &str, b: &str) -> (r: String)
    ensures
        r@ == a@ + b@,
{
    let mut r = String::from_str(a);
    r.append(b);
    r
}

/// Whether some entry of `items` equals `x`.
pub fn contains_string(items: &Vec<String>, x: &str) -> (r: bool)
    ensures
        r == exists|i: int| 0 <= i < items@.len() && #[trigger] items@[i]@ == x@,
{
    let mut i: usize = 0;
    while i < items.len()
        invariant
            i <= items@.len(),
            forall|k: int| 0 <= k < i ==> #[trigger] items@[k]@ != x@,
        decreases items.len() - i,
    {
        if str_eq(items[i].as_str(), x) {
            return true;
        }
        i = i + 1;
    }
    false
}

/// Character-wise equality of two strings.
pub fn str_eq(a: &str, b: &str) -> (r: bool)
    ensures
        r == (a@ == b@),
{
    let n = a.unicode_len();
    let m = b.unicode_len();
    if n != m {
        return false;
    }
    let r = occurs_at(a, n, b, m, 0);
    assert(a@.subrange(0, n as int) =~= a@);
    r
}

/// The views of a list of strings.
pub open spec fn views(v: Seq<String>) -> Seq<Seq<char>> {
    Seq::new(v.len(), |i: int| v[i]@)
}

/// The last of the first `m` entries of `s` equal to `x` (-1 if none).
pub open spec fn last_of(s: Seq<Seq<char>>, x: Seq<char>, m: nat) -> int
    decreases m,
{
    if m == 0 {
        -1
    } else if s[m - 1] == x {
        m - 1
    } else {
        last_of(s, x, (m - 1) as nat)
    }
}

pub proof fn lemma_last_of_range(s: Seq<Seq<char>>, x: Seq<char>, m: nat)
    requires
        m <= s.len(),
    ensures
        -1 <= last_of(s, x, m) < m,
        last_of(s, x, m) >= 0 ==> s[last_of(s, x, m)] == x,
    decreases m,
{
    if m > 0 {
        lemma_last_of_range(s, x, (m - 1) as nat);
    }
}

pub proof fn lemma_last_of_here(s: Seq<Seq<char>>, x: Seq<char>, q: nat, m: nat)
    requires
        q < m <= s.len(),
        s[q as int] == x,
    ensures
        last_of(s, x, m) >= q,
    decreases m,
{
    if m - 1 > q {
        lemma_last_of_here(s, x, q, (m - 1) as nat);
    }
}

/// Index of the last entry of `names` equal to `x`, if any.
pub fn last_index_of(names: &Vec<String>, x: &str) -> (r: Option<usize>)
    ensures
        match r {
            Some(i) => i as int == last_of(views(names@), x@, names@.len()) && i < names@.len(),
            None => last_of(views(names@), x@, names@.len()) == -1,
        },
{
    let mut i: usize = names.len();
    while i > 0
        invariant
            i <= names@.len(),
            last_of(views(names@), x@, names@.len()) == last_of(views(names@), x@, i as nat),
        decreases i,
    {
        if str_eq(names[i - 1].as_str(), x) {
            return Some(i - 1);
        }
        i = i - 1;
    }
    None
}

/// The digit character for `d < 10`.
pub open spec fn digit_char(d: nat) -> char {
    ((d + 48) as u32) as char
}

/// Decimal notation of `n`, without leading zeros (as `Display` for integers).
pub open spec fn decimal(n: nat) -> Seq<char>
    decreases n,
{
    if n < 10 {
        seq![digit_char(n)]
    } else {
        decimal(n / 10) + seq![digit_char(n % 10)]
    }
}

/// `prefix` followed by `a` in decimal.
pub open spec fn label1(prefix: Seq<char>, a: nat) -> Seq<char> {
    prefix + decimal(a)
}

/// `prefix` followed by `a`, an underscore and `b`, in decimal.
pub open spec fn label2(prefix: Seq<char>, a: nat, b: nat) -> Seq<char> {
    prefix + decimal(a) + "_"@ + decimal(b)
}

/// `prefix` followed by `a` in decimal.
pub fn name1(prefix: &str, a: usize) -> (r: String)
    ensures
        r@ == label1(prefix@, a as nat),
{
    concat(prefix, decimal_string(a).as_str())
}

/// `prefix` followed by `a`, an underscore and `b`, in decimal.
pub fn name2(prefix: &str, a: usize, b: usize) -> (r: String)
    ensures
        r@ == label2(prefix@, a as nat, b as nat),
{
    let x = concat(prefix, decimal_string(a).as_str());
    let y = concat(x.as_str(), "_");
    concat(y.as_str(), decimal_string(b).as_str())
}

/// Decimal notation of `n`.
pub fn decimal_string(n: usize) -> (r: String)
    ensures
        r@ == decimal(n as nat),
    decreases n,
{
    let digits = "0123456789";
    proof {
        reveal_strlit("0123456789");
    }
    let d = n % 10;
    let one = digits.substring_char(d, d + 1);
    proof {
        assert(one@ =~= seq![digit_char(d as nat)]) by {
            assert(one@[0] == digits@[d as int]);
        }
    }
    if n < 10 {
        String::from_str(one)
    } else {
        let mut s = decimal_string(n / 10);
        s.append(one);
        s
    }
}

/// Decimal notation is made of digits only, and has one character exactly
/// below ten.
pub proof fn lemma_decimal_digits(n: nat)
    ensures
        decimal(n).len() >= 1,
        (decimal(n).len() == 1) == (n < 10),
        forall|i: int| 0 <= i < decimal(n).len() ==> '0' <= #[trigger] decimal(n)[i] <= '9',
    decreases n,
{
    if n >= 10 {
        lemma_decimal_digits(n / 10);
        let d = decimal(n);
        let pre = decimal(n / 10);
        assert forall|i: int| 0 <= i < d.len() implies '0' <= #[trigger] d[i] <= '9' by {
            if i < pre.len() {
                assert(d[i] == pre[i]);
            }
        }
    }
}

/// Different numbers have different decimal notations.
pub proof fn lemma_decimal_injective(a: nat, b: nat)
    requires
        decimal(a) == decimal(b),
    ensures
        a == b,
    decreases a,
{
    lemma_decimal_digits(a);
    lemma_decimal_digits(b);
    if a >= 10 && b >= 10 {
        let da = decimal(a);
        let db = decimal(b);
        assert(da.last() == digit_char(a % 10));
        assert(db.last() == digit_char(b % 10));
        assert(a % 10 == b % 10);
        assert(da.drop_last() =~= decimal(a / 10));
        assert(db.drop_last() =~= decimal(b / 10));
        lemma_decimal_injective(a / 10, b / 10);
    } else {
        assert(decimal(a)[0] == digit_char(a) && decimal(b)[0] == digit_char(b));
    }
}

/// A two-number label determines both numbers.
pub proof fn lemma_label2_injective(p: Seq<char>, a1: nat, b1: nat, a2: nat, b2: nat)
    requires
        label2(p, a1, b1) == label2(p, a2, b2),
    ensures
        a1 == a2,
        b1 == b2,
{
    reveal_strlit("_");
    lemma_decimal_digits(a1);
    lemma_decimal_digits(a2);
    let s = label2(p, a1, b1);
    let d1 = decimal(a1);
    let d2 = decimal(a2);
    let k = p.len() as int;
    assert(s == label2(p, a2, b2));
    // the first underscore after the prefix ends the first number
    if d1.len() < d2.len() {
        assert(s[k + d1.len()] == '_');
        assert(label2(p, a2, b2)[k + d1.len()] == d2[d1.len() as int]);
        assert(false);
    } else if d2.len() < d1.len() {
        assert(label2(p, a2, b2)[k + d2.len()] == '_');
        assert(s[k + d2.len()] == d1[d2.len() as int]);
        assert(false);
    }
    assert(d1 =~= s.subrange(k, k + d1.len()));
    assert(d2 =~= label2(p, a2, b2).subrange(k, k + d2.len()));
    lemma_decimal_injective(a1, a2);
    let r: int = k + d1.len() + 1;
    assert(decimal(b1) =~= s.subrange(r, s.len() as int));
    assert(decimal(b2) =~= label2(p, a2, b2).subrange(r, s.len() as int));
    lemma_decimal_injective(b1, b2);
}

/// A one-number label determines the number.
pub proof fn lemma_label1_injective(p: Seq<char>, a1: nat, a2: nat)
    requires
        label1(p, a1) == label1(p, a2),
    ensures
        a1 == a2,
{
    let s = label1(p, a1);
    assert(decimal(a1) =~= s.subrange(p.len() as int, s.len() as int));
    assert(decimal(a2) =~= label1(p, a2).subrange(p.len() as int, s.len() as int));
    lemma_decimal_injective(a1, a2);
}

} // verus!
