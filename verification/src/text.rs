//! Character sequences: the operations on text that the rest of the crate
//! is specified over, each with an executable counterpart on `Vec<char>`.

use vstd::prelude::*;
use vstd::string::StringExecFns;

verus! {

/// Whether `c` has the Unicode property `White_Space`.
pub open spec fn is_whitespace(c: char) -> bool {
    let n = c as int;
    ||| 0x09 <= n <= 0x0D
    ||| n == 0x20
    ||| n == 0x85
    ||| n == 0xA0
    ||| n == 0x1680
    ||| 0x2000 <= n <= 0x200A
    ||| n == 0x2028
    ||| n == 0x2029
    ||| n == 0x202F
    ||| n == 0x205F
    ||| n == 0x3000
}

/// `s` without its leading whitespace.
pub open spec fn trim_start(s: Seq<char>) -> Seq<char>
    decreases s.len(),
{
    if s.len() > 0 && is_whitespace(s[0]) {
        trim_start(s.drop_first())
    } else {
        s
    }
}

/// `s` without its trailing whitespace.
pub open spec fn trim_end(s: Seq<char>) -> Seq<char>
    decreases s.len(),
{
    if s.len() > 0 && is_whitespace(s.last()) {
        trim_end(s.drop_last())
    } else {
        s
    }
}

/// `s` without leading and trailing whitespace.
pub open spec fn trim(s: Seq<char>) -> Seq<char> {
    trim_end(trim_start(s))
}

/// The index of the first `c` in `s`, or `s.len()` where `s` holds none.
pub open spec fn position(s: Seq<char>, c: char) -> int
    decreases s.len(),
{
    if s.len() == 0 {
        0
    } else if s[0] == c {
        0
    } else {
        1 + position(s.drop_first(), c)
    }
}

/// `s` after every leading repetition of `pat` is removed.
pub open spec fn trim_start_matches(s: Seq<char>, pat: Seq<char>) -> Seq<char>
    decreases s.len(),
{
    if pat.len() > 0 && pat.is_prefix_of(s) {
        trim_start_matches(s.skip(pat.len() as int), pat)
    } else {
        s
    }
}

/// The number that stands for `c` once ASCII upper case is folded to lower case.
pub open spec fn fold_ascii(c: char) -> int {
    if 'A' <= c <= 'Z' {
        c as int + 32
    } else {
        c as int
    }
}

/// Whether `a` and `b` are equal up to the case of their ASCII letters.
pub open spec fn eq_ignore_ascii_case(a: Seq<char>, b: Seq<char>) -> bool {
    &&& a.len() == b.len()
    &&& forall|i: int| 0 <= i < a.len() ==> fold_ascii(#[trigger] a[i]) == fold_ascii(b[i])
}

/// Whether `s` ends with `pat`, up to the case of ASCII letters.
pub open spec fn ends_with_ignore_ascii_case(s: Seq<char>, pat: Seq<char>) -> bool {
    pat.len() <= s.len() && eq_ignore_ascii_case(s.skip(s.len() - pat.len()), pat)
}

/// `s` after every trailing repetition of `pat`, in any ASCII case, is removed.
pub open spec fn trim_end_matches_ignore_ascii_case(s: Seq<char>, pat: Seq<char>) -> Seq<char>
    decreases s.len(),
{
    if pat.len() > 0 && ends_with_ignore_ascii_case(s, pat) {
        trim_end_matches_ignore_ascii_case(s.take(s.len() - pat.len()), pat)
    } else {
        s
    }
}

/// `position` finds the first occurrence and nothing before it.
pub proof fn lemma_position(s: Seq<char>, c: char)
    ensures
        0 <= position(s, c) <= s.len(),
        position(s, c) < s.len() ==> s[position(s, c)] == c,
        forall|j: int| 0 <= j < position(s, c) ==> s[j] != c,
        position(s, c) == s.len() <==> !s.contains(c),
    decreases s.len(),
{
    if s.len() > 0 && s[0] != c {
        let t = s.drop_first();
        lemma_position(t, c);
        assert forall|j: int| 0 <= j < position(s, c) implies s[j] != c by {
            if j > 0 {
                assert(s[j] == t[j - 1]);
            }
        }
        if position(t, c) < t.len() {
            assert(s[position(s, c)] == t[position(t, c)]);
        }
        if s.contains(c) {
            let k = choose|k: int| 0 <= k < s.len() && s[k] == c;
            assert(t[k - 1] == c);
        }
    }
}

/// An index that holds `c` and follows none that does is the `position` of `c`.
pub proof fn lemma_position_is(s: Seq<char>, c: char, i: int)
    requires
        0 <= i <= s.len(),
        forall|j: int| 0 <= j < i ==> s[j] != c,
        i < s.len() ==> s[i] == c,
    ensures
        position(s, c) == i,
{
    lemma_position(s, c);
}

/// Where nothing before an occurrence of `c` holds `c`, that occurrence is
/// the first; where a text holds no `c`, `position` is its length.
pub proof fn lemma_position_after(before: Seq<char>, c: char, after: Seq<char>)
    requires
        !before.contains(c),
    ensures
        position(before + seq![c] + after, c) == before.len(),
        position(before, c) == before.len(),
{
    let s = before + seq![c] + after;
    assert forall|j: int| 0 <= j < before.len() implies s[j] != c by {
        assert(s[j] == before[j]);
        assert(before.contains(before[j]));
    }
    assert(s[before.len() as int] == c);
    lemma_position_is(s, c, before.len() as int);
    lemma_position(before, c);
}

/// Equality up to ASCII case is symmetric.
pub proof fn lemma_eq_ignore_ascii_case_symmetric(a: Seq<char>, b: Seq<char>)
    requires
        eq_ignore_ascii_case(a, b),
    ensures
        eq_ignore_ascii_case(b, a),
{
    assert forall|i: int| 0 <= i < b.len() implies fold_ascii(#[trigger] b[i]) == fold_ascii(
        a[i],
    ) by {
        assert(fold_ascii(a[i]) == fold_ascii(b[i]));
    }
}

/// Equality up to ASCII case is transitive.
pub proof fn lemma_eq_ignore_ascii_case_transitive(a: Seq<char>, b: Seq<char>, c: Seq<char>)
    requires
        eq_ignore_ascii_case(a, b),
        eq_ignore_ascii_case(b, c),
    ensures
        eq_ignore_ascii_case(a, c),
{
    assert forall|i: int| 0 <= i < a.len() implies fold_ascii(#[trigger] a[i]) == fold_ascii(
        c[i],
    ) by {
        assert(fold_ascii(a[i]) == fold_ascii(b[i]));
        assert(fold_ascii(b[i]) == fold_ascii(c[i]));
    }
}

/// Texts that are equal up to ASCII case end with the same patterns up to
/// ASCII case, and what is left of them is again equal up to ASCII case.
pub proof fn lemma_trim_end_matches_ignores_case(a: Seq<char>, b: Seq<char>, pat: Seq<char>)
    requires
        eq_ignore_ascii_case(a, b),
    ensures
        eq_ignore_ascii_case(
            trim_end_matches_ignore_ascii_case(a, pat),
            trim_end_matches_ignore_ascii_case(b, pat),
        ),
    decreases a.len(),
{
    if pat.len() > 0 && pat.len() <= a.len() {
        let k = a.len() - pat.len();
        assert forall|i: int| 0 <= i < pat.len() implies fold_ascii(#[trigger] a.skip(k)[i])
            == fold_ascii(b.skip(k)[i]) by {
            assert(fold_ascii(a[k + i]) == fold_ascii(b[k + i]));
        }
        assert(eq_ignore_ascii_case(a.skip(k), b.skip(k)));
        if ends_with_ignore_ascii_case(a, pat) {
            lemma_eq_ignore_ascii_case_symmetric(a.skip(k), b.skip(k));
            lemma_eq_ignore_ascii_case_transitive(b.skip(k), a.skip(k), pat);
        }
        if ends_with_ignore_ascii_case(b, pat) {
            lemma_eq_ignore_ascii_case_transitive(a.skip(k), b.skip(k), pat);
        }
        if ends_with_ignore_ascii_case(a, pat) {
            assert forall|i: int| 0 <= i < k implies fold_ascii(#[trigger] a.take(k)[i])
                == fold_ascii(b.take(k)[i]) by {
                assert(fold_ascii(a[i]) == fold_ascii(b[i]));
            }
            lemma_trim_end_matches_ignores_case(a.take(k), b.take(k), pat);
        }
    }
}

/// The code point of `c`.
pub fn char_code(c: char) -> (n: u32)
    ensures
        n == c as int,
{
    c as u32
}

/// Whether `c` has the Unicode property `White_Space`.
pub fn char_is_whitespace(c: char) -> (b: bool)
    ensures
        b == is_whitespace(c),
{
    let n: u32 = char_code(c);
    (0x09 <= n && n <= 0x0D) || n == 0x20 || n == 0x85 || n == 0xA0 || n == 0x1680 || (0x2000 <= n
        && n <= 0x200A) || n == 0x2028 || n == 0x2029 || n == 0x202F || n == 0x205F || n == 0x3000
}

/// The characters of `s`, in order.
pub fn chars_of(s: &str) -> (v: Vec<char>)
    ensures
        v@ == s@,
{
    let mut v: Vec<char> = Vec::new();
    for c in it: s.chars()
        invariant
            it.seq() == s@,
            v@ == it.seq().take(it.index()),
    {
        v.push(c);
    }
    v
}

/// The characters of `v` from index `from` up to, not including, `to`.
pub fn sub_vec(v: &Vec<char>, from: usize, to: usize) -> (r: Vec<char>)
    requires
        from <= to <= v@.len(),
    ensures
        r@ == v@.subrange(from as int, to as int),
{
    let mut r: Vec<char> = Vec::new();
    let mut i: usize = from;
    while i < to
        invariant
            from <= i <= to <= v@.len(),
            r@ == v@.subrange(from as int, i as int),
        decreases to - i,
    {
        r.push(v[i]);
        i += 1;
    }
    r
}

/// The index of the first `c` in `v` at or after `from`, or the length of `v`
/// where none follows.
pub fn find_char(v: &Vec<char>, from: usize, c: char) -> (i: usize)
    requires
        from <= v@.len(),
    ensures
        i == from + position(v@.skip(from as int), c),
        from <= i <= v@.len(),
{
    let mut i: usize = from;
    while i < v.len() && v[i] != c
        invariant
            from <= i <= v@.len(),
            forall|j: int| from <= j < i ==> v@[j] != c,
        decreases v@.len() - i,
    {
        i += 1;
    }
    proof {
        lemma_position_is(v@.skip(from as int), c, i - from);
    }
    i
}

/// Whether `pat` stands in `v` at index `at`.
pub fn matches_at(v: &Vec<char>, at: usize, pat: &Vec<char>) -> (b: bool)
    requires
        at <= v@.len(),
    ensures
        b == (at + pat@.len() <= v@.len() && v@.subrange(at as int, at + pat@.len()) == pat@),
{
    if pat.len() > v.len() - at {
        return false;
    }
    let mut k: usize = 0;
    while k < pat.len()
        invariant
            at + pat@.len() <= v@.len() <= usize::MAX,
            k <= pat@.len(),
            forall|j: int| 0 <= j < k ==> v@[at + j] == pat@[j],
        decreases pat@.len() - k,
    {
        if v[at + k] != pat[k] {
            proof {
                let w = v@.subrange(at as int, at + pat@.len());
                assert(w[k as int] == v@[at + k]);
            }
            return false;
        }
        k += 1;
    }
    assert(v@.subrange(at as int, at + pat@.len()) =~= pat@);
    true
}

/// The bounds of `v[from..to]` once leading and trailing whitespace is left out.
pub fn trim_range(v: &Vec<char>, from: usize, to: usize) -> (r: (usize, usize))
    requires
        from <= to <= v@.len(),
    ensures
        from <= r.0 <= r.1 <= to,
        v@.subrange(r.0 as int, r.1 as int) == trim(v@.subrange(from as int, to as int)),
{
    let mut a: usize = from;
    while a < to && char_is_whitespace(v[a])
        invariant
            from <= a <= to <= v@.len(),
            trim_start(v@.subrange(from as int, to as int)) == trim_start(
                v@.subrange(a as int, to as int),
            ),
        decreases to - a,
    {
        proof {
            let s = v@.subrange(a as int, to as int);
            assert(s.drop_first() =~= v@.subrange(a + 1, to as int));
        }
        a += 1;
    }
    let mut b: usize = to;
    while a < b && char_is_whitespace(v[b - 1])
        invariant
            a <= b <= to <= v@.len(),
            trim_end(v@.subrange(a as int, to as int)) == trim_end(v@.subrange(a as int, b as int)),
        decreases b - a,
    {
        proof {
            let s = v@.subrange(a as int, b as int);
            assert(s.drop_last() =~= v@.subrange(a as int, b - 1));
        }
        b -= 1;
    }
    (a, b)
}

/// The index in `v` at which `trim_start_matches` of `v` by `pat` begins.
pub fn skip_prefixes(v: &Vec<char>, from: usize, pat: &Vec<char>) -> (k: usize)
    requires
        from <= v@.len(),
        pat@.len() > 0,
    ensures
        from <= k <= v@.len(),
        v@.skip(k as int) == trim_start_matches(v@.skip(from as int), pat@),
{
    let mut k: usize = from;
    assert(v@.len() == v.len());
    while matches_at(v, k, pat)
        invariant
            from <= k <= v@.len() <= usize::MAX,
            pat@.len() > 0,
            trim_start_matches(v@.skip(from as int), pat@) == trim_start_matches(
                v@.skip(k as int),
                pat@,
            ),
        decreases v@.len() - k,
    {
        proof {
            let s = v@.skip(k as int);
            assert(s.subrange(0, pat@.len() as int) =~= v@.subrange(k as int, k + pat@.len()));
            assert(s.skip(pat@.len() as int) =~= v@.skip(k + pat@.len()));
        }
        k += pat.len();
    }
    proof {
        let s = v@.skip(k as int);
        if pat@.is_prefix_of(s) {
            assert(s.subrange(0, pat@.len() as int) =~= v@.subrange(k as int, k + pat@.len()));
        }
    }
    k
}

/// The number that stands for `c` once ASCII upper case is folded to lower case.
pub fn fold_char(c: char) -> (n: u32)
    ensures
        n == fold_ascii(c),
{
    let n: u32 = char_code(c);
    if 'A' <= c && c <= 'Z' {
        n + 32
    } else {
        n
    }
}

/// Whether `pat` stands in `v` just before index `end`, ASCII case ignored.
pub fn ends_at_ignore_ascii_case(v: &Vec<char>, end: usize, pat: &Vec<char>) -> (b: bool)
    requires
        end <= v@.len(),
    ensures
        b == ends_with_ignore_ascii_case(v@.take(end as int), pat@),
{
    if pat.len() > end {
        return false;
    }
    let start: usize = end - pat.len();
    let ghost tail = v@.take(end as int).skip(end - pat@.len());
    let mut k: usize = 0;
    while k < pat.len()
        invariant
            start + pat@.len() == end <= v@.len(),
            k <= pat@.len(),
            tail == v@.take(end as int).skip(end - pat@.len()),
            forall|j: int| 0 <= j < k ==> fold_ascii(#[trigger] tail[j]) == fold_ascii(pat@[j]),
        decreases pat@.len() - k,
    {
        if fold_char(v[start + k]) != fold_char(pat[k]) {
            assert(tail[k as int] == v@[start + k]);
            return false;
        }
        assert(tail[k as int] == v@[start + k]);
        k += 1;
    }
    true
}

/// The length of what `trim_end_matches_ignore_ascii_case` leaves of the first
/// `to` characters of `v`.
pub fn drop_suffixes(v: &Vec<char>, to: usize, pat: &Vec<char>) -> (k: usize)
    requires
        to <= v@.len(),
        pat@.len() > 0,
    ensures
        k <= to,
        v@.take(k as int) == trim_end_matches_ignore_ascii_case(v@.take(to as int), pat@),
{
    let mut k: usize = to;
    while ends_at_ignore_ascii_case(v, k, pat)
        invariant
            k <= to <= v@.len(),
            pat@.len() > 0,
            trim_end_matches_ignore_ascii_case(v@.take(to as int), pat@)
                == trim_end_matches_ignore_ascii_case(v@.take(k as int), pat@),
        decreases k,
    {
        proof {
            let s = v@.take(k as int);
            assert(s.take(s.len() - pat@.len()) =~= v@.take(k - pat@.len()));
        }
        k -= pat.len();
    }
    k
}

/// Whether `a` and `b` are equal up to the case of their ASCII letters.
pub fn vec_eq_ignore_ascii_case(a: &Vec<char>, b: &Vec<char>) -> (r: bool)
    ensures
        r == eq_ignore_ascii_case(a@, b@),
{
    if a.len() != b.len() {
        return false;
    }
    let mut i: usize = 0;
    while i < a.len()
        invariant
            a@.len() == b@.len(),
            i <= a@.len(),
            forall|j: int| 0 <= j < i ==> fold_ascii(#[trigger] a@[j]) == fold_ascii(b@[j]),
        decreases a@.len() - i,
    {
        if fold_char(a[i]) != fold_char(b[i]) {
            return false;
        }
        i += 1;
    }
    true
}

/// Whether `a` and `b` hold the same characters.
pub fn same_text(a: &str, b: &str) -> (r: bool)
    ensures
        r == (a@ == b@),
{
    let x = chars_of(a);
    let y = chars_of(b);
    if x.len() != y.len() {
        return false;
    }
    let mut i: usize = 0;
    while i < x.len()
        invariant
            x@ == a@,
            y@ == b@,
            x@.len() == y@.len(),
            i <= x@.len(),
            forall|j: int| 0 <= j < i ==> x@[j] == y@[j],
        decreases x@.len() - i,
    {
        if x[i] != y[i] {
            assert(a@[i as int] != b@[i as int]);
            return false;
        }
        i += 1;
    }
    assert(x@ =~= y@);
    true
}

/// The character that writes the digit `d`.
pub open spec fn digit_char(d: nat) -> char {
    if d == 0 {
        '0'
    } else if d == 1 {
        '1'
    } else if d == 2 {
        '2'
    } else if d == 3 {
        '3'
    } else if d == 4 {
        '4'
    } else if d == 5 {
        '5'
    } else if d == 6 {
        '6'
    } else if d == 7 {
        '7'
    } else if d == 8 {
        '8'
    } else {
        '9'
    }
}

/// `n` written in decimal, without leading zeros.
pub open spec fn decimal(n: nat) -> Seq<char>
    decreases n,
{
    if n < 10 {
        seq![digit_char(n)]
    } else {
        decimal(n / 10).push(digit_char(n % 10))
    }
}

/// The text that writes the digit `d`.
fn digit_text(d: usize) -> (s: &'static str)
    requires
        d < 10,
    ensures
        s@ == seq![digit_char(d as nat)],
{
    proof {
        reveal_strlit("0");
        reveal_strlit("1");
        reveal_strlit("2");
        reveal_strlit("3");
        reveal_strlit("4");
        reveal_strlit("5");
        reveal_strlit("6");
        reveal_strlit("7");
        reveal_strlit("8");
        reveal_strlit("9");
    }
    let s: &'static str = if d == 0 {
        "0"
    } else if d == 1 {
        "1"
    } else if d == 2 {
        "2"
    } else if d == 3 {
        "3"
    } else if d == 4 {
        "4"
    } else if d == 5 {
        "5"
    } else if d == 6 {
        "6"
    } else if d == 7 {
        "7"
    } else if d == 8 {
        "8"
    } else {
        "9"
    };
    assert(s@ =~= seq![digit_char(d as nat)]);
    s
}

/// `n` written in decimal, without leading zeros.
pub fn decimal_text(n: usize) -> (s: String)
    ensures
        s@ == decimal(n as nat),
    decreases n,
{
    if n < 10 {
        String::from_str(digit_text(n))
    } else {
        let mut s = decimal_text(n / 10);
        let ghost before = s@;
        s.append(digit_text(n % 10));
        assert(s@ =~= before.push(digit_char((n % 10) as nat)));
        s
    }
}

} // verus!
