//! Character-level helpers: Unicode white space and trimming, ASCII lower
//! case, decimal digits, and the order of byte strings.
use vstd::prelude::*;

verus! {

/// The characters with the Unicode property `White_Space`, which is what
/// `char::is_whitespace` and `str::trim` go by.
pub open spec fn is_white_space(c: char) -> bool {
    let u = c as u32;
    ||| 0x09 <= u <= 0x0D
    ||| u == 0x20
    ||| u == 0x85
    ||| u == 0xA0
    ||| u == 0x1680
    ||| 0x2000 <= u <= 0x200A
    ||| u == 0x2028
    ||| u == 0x2029
    ||| u == 0x202F
    ||| u == 0x205F
    ||| u == 0x3000
}

pub fn char_is_white_space(c: char) -> (b: bool)
    ensures
        b == is_white_space(c),
{
    let u = c as u32;
    (0x09 <= u && u <= 0x0D) || u == 0x20 || u == 0x85 || u == 0xA0 || u == 0x1680 || (0x2000
        <= u && u <= 0x200A) || u == 0x2028 || u == 0x2029 || u == 0x202F || u == 0x205F || u
        == 0x3000
}

/// Number of white-space characters at the start of `s`.
pub open spec fn leading_space(s: Seq<char>) -> nat
    decreases s.len(),
{
    if s.len() == 0 {
        0
    } else if is_white_space(s[0]) {
        1 + leading_space(s.drop_first())
    } else {
        0
    }
}

/// Number of white-space characters at the end of `s`.
pub open spec fn trailing_space(s: Seq<char>) -> nat
    decreases s.len(),
{
    if s.len() == 0 {
        0
    } else if is_white_space(s.last()) {
        1 + trailing_space(s.drop_last())
    } else {
        0
    }
}

/// `s` without white space at either end.
pub open spec fn trim(s: Seq<char>) -> Seq<char> {
    let t = s.skip(leading_space(s) as int);
    t.take(t.len() - trailing_space(t))
}

proof fn lemma_leading_space(s: Seq<char>, i: int)
    requires
        0 <= i <= s.len(),
        forall|k: int| 0 <= k < i ==> is_white_space(s[k]),
    ensures
        leading_space(s) == i + leading_space(s.skip(i)),
    decreases i,
{
    if i > 0 {
        lemma_leading_space(s.drop_first(), i - 1);
        assert(s.drop_first().skip(i - 1) =~= s.skip(i));
    } else {
        assert(s.skip(0) =~= s);
    }
}

proof fn lemma_trailing_space(s: Seq<char>, j: int)
    requires
        0 <= j <= s.len(),
        forall|k: int| j <= k < s.len() ==> is_white_space(s[k]),
    ensures
        trailing_space(s) == (s.len() - j) + trailing_space(s.take(j)),
    decreases s.len() - j,
{
    if j < s.len() {
        lemma_trailing_space(s.drop_last(), j);
        assert(s.drop_last().take(j) =~= s.take(j));
    } else {
        assert(s.take(j) =~= s);
    }
}

proof fn lemma_leading_space_stop(s: Seq<char>)
    requires
        s.len() > 0,
        !is_white_space(s[0]),
    ensures
        leading_space(s) == 0,
{
}

proof fn lemma_trailing_space_stop(s: Seq<char>)
    requires
        s.len() > 0,
        !is_white_space(s.last()),
    ensures
        trailing_space(s) == 0,
{
}

/// The characters of a string slice, in order.
pub fn chars_of(s: &str) -> (v: Vec<char>)
    ensures
        v@ == s@,
{
    let mut v: Vec<char> = Vec::new();
    for c in it: s.chars()
        invariant
            it.seq() == s@,
            v@.len() == it.index(),
            forall|k: int| 0 <= k < v@.len() ==> v@[k] == s@[k],
    {
        v.push(c);
    }
    assert(v@ =~= s@);
    v
}

/// The bounds `(a, b)` such that `chars[a..b]` is `chars` trimmed.
pub fn trim_bounds(chars: &Vec<char>) -> (r: (usize, usize))
    ensures
        r.0 <= r.1 <= chars.len(),
        chars@.subrange(r.0 as int, r.1 as int) == trim(chars@),
{
    let n = chars.len();
    let mut a: usize = 0;
    while a < n && char_is_white_space(chars[a])
        invariant
            a <= n,
            n == chars.len(),
            forall|k: int| 0 <= k < a ==> is_white_space(chars@[k]),
        decreases n - a,
    {
        a = a + 1;
    }
    let ghost s = chars@;
    proof {
        lemma_leading_space(s, a as int);
        if a < n {
            lemma_leading_space_stop(s.skip(a as int));
        }
        assert(leading_space(s) == a);
    }
    let mut b: usize = n;
    while b > a && char_is_white_space(chars[b - 1])
        invariant
            a <= b <= n,
            n == chars.len(),
            forall|k: int| b <= k < n ==> is_white_space(chars@[k]),
        decreases b,
    {
        b = b - 1;
    }
    proof {
        let t = s.skip(a as int);
        let jb = b - a;
        assert forall|k: int| jb <= k < t.len() implies is_white_space(t[k]) by {
            assert(t[k] == s[k + a]);
        }
        lemma_trailing_space(t, jb);
        if jb > 0 {
            assert(t.take(jb).last() == s[b - 1]);
            lemma_trailing_space_stop(t.take(jb));
        }
        assert(t.take(t.len() - trailing_space(t)) =~= s.subrange(a as int, b as int));
    }
    (a, b)
}

/// ASCII upper-case letters mapped to lower case, every other character kept.
pub open spec fn ascii_lower_char(c: char) -> char {
    if 'A' <= c <= 'Z' {
        ((c as u32) + 32) as char
    } else {
        c
    }
}

pub open spec fn ascii_lower(s: Seq<char>) -> Seq<char> {
    s.map_values(|c: char| ascii_lower_char(c))
}

pub fn to_ascii_lower(c: char) -> (r: char)
    ensures
        r == ascii_lower_char(c),
{
    if 'A' <= c && c <= 'Z' {
        let u = (c as u32) + 32;
        assert(u <= 0x7F);
        char_from_ascii(u)
    } else {
        c
    }
}

fn char_from_ascii(u: u32) -> (c: char)
    requires
        u <= 0x7F,
    ensures
        c == u as char,
{
    let b = u as u8;
    b as char
}

/// The value of a decimal digit.
pub open spec fn digit_value(c: char) -> nat {
    ((c as u32) - ('0' as u32)) as nat
}

pub open spec fn is_digit(c: char) -> bool {
    '0' <= c <= '9'
}

pub open spec fn all_digits(s: Seq<char>) -> bool {
    forall|i: int| 0 <= i < s.len() ==> is_digit(#[trigger] s[i])
}

/// The number that a string of decimal digits denotes.
pub open spec fn digits_value(s: Seq<char>) -> nat
    decreases s.len(),
{
    if s.len() == 0 {
        0
    } else {
        10 * digits_value(s.drop_last()) + digit_value(s.last())
    }
}

/// What `str::parse::<usize>` gives: an optional `+` followed by at least one
/// decimal digit and nothing else, of a value that fits in `usize`.
pub open spec fn parse_usize(s: Seq<char>) -> Option<usize> {
    let body = if s.len() > 0 && s[0] == '+' {
        s.drop_first()
    } else {
        s
    };
    if body.len() > 0 && all_digits(body) && digits_value(body) <= usize::MAX {
        Some(digits_value(body) as usize)
    } else {
        None
    }
}

proof fn lemma_digits_value_grows(s: Seq<char>, k: int)
    requires
        0 <= k <= s.len(),
    ensures
        digits_value(s.take(k)) <= digits_value(s),
    decreases s.len() - k,
{
    if k < s.len() {
        lemma_digits_value_grows(s.drop_last(), k);
        assert(s.drop_last().take(k) =~= s.take(k));
    } else {
        assert(s.take(k) =~= s);
    }
}

/// Parses `chars[from..to]` as `str::parse::<usize>` does.
pub fn parse_usize_in(chars: &Vec<char>, from: usize, to: usize) -> (r: Option<usize>)
    requires
        from <= to <= chars.len(),
    ensures
        r == parse_usize(chars@.subrange(from as int, to as int)),
{
    let ghost s = chars@.subrange(from as int, to as int);
    let mut start = from;
    if from < to && chars[from] == '+' {
        start = from + 1;
    }
    let ghost body = chars@.subrange(start as int, to as int);
    proof {
        if from < to && chars@[from as int] == '+' {
            assert(body =~= s.drop_first());
        } else {
            assert(body =~= s);
        }
    }
    if start == to {
        return None;
    }
    let mut acc: usize = 0;
    let mut i = start;
    while i < to
        invariant
            start <= i <= to <= chars.len(),
            body == chars@.subrange(start as int, to as int),
            body.len() > 0,
            parse_usize(chars@.subrange(from as int, to as int)) == (if all_digits(body)
                && digits_value(body) <= usize::MAX {
                Some(digits_value(body) as usize)
            } else {
                None
            }),
            all_digits(body.take(i - start)),
            acc == digits_value(body.take(i - start)),
        decreases to - i,
    {
        let c = chars[i];
        if !('0' <= c && c <= '9') {
            proof {
                assert(body[i - start] == c);
                assert(!is_digit(body[i - start]));
            }
            return None;
        }
        let d = (c as u32 - '0' as u32) as usize;
        let ghost k = i - start;
        proof {
            assert(body.take(k + 1).drop_last() =~= body.take(k));
            assert(body.take(k + 1).last() == c);
            assert(digits_value(body.take(k + 1)) == 10 * acc + d);
        }
        match acc.checked_mul(10) {
            None => {
                proof {
                    lemma_digits_value_grows(body, k + 1);
                }
                return None;
            },
            Some(t) => match t.checked_add(d) {
                None => {
                    proof {
                        lemma_digits_value_grows(body, k + 1);
                    }
                    return None;
                },
                Some(v) => {
                    acc = v;
                },
            },
        }
        i = i + 1;
        proof {
            assert forall|j: int| 0 <= j < k + 1 implies is_digit(#[trigger] body.take(k + 1)[j]) by {
                if j < k {
                    assert(body.take(k + 1)[j] == body.take(k)[j]);
                }
            }
        }
    }
    proof {
        assert(body.take(to - start) =~= body);
    }
    Some(acc)
}

/// The decimal digit character of `d < 10`.
pub open spec fn digit_char(d: nat) -> char {
    (('0' as u32) + d) as char
}

/// The decimal representation of `n`, without leading zeros.
pub open spec fn decimal(n: nat) -> Seq<char>
    decreases n,
{
    if n < 10 {
        seq![digit_char(n)]
    } else {
        decimal(n / 10).push(digit_char(n % 10))
    }
}

/// Lexicographic order of byte strings, which is the order of `str` and `String`.
pub open spec fn bytes_lt(a: Seq<u8>, b: Seq<u8>) -> bool
    decreases a.len(),
{
    if a.len() == 0 {
        b.len() > 0
    } else if b.len() == 0 {
        false
    } else if a[0] != b[0] {
        a[0] < b[0]
    } else {
        bytes_lt(a.drop_first(), b.drop_first())
    }
}

proof fn lemma_bytes_lt_skip(a: Seq<u8>, b: Seq<u8>, i: int)
    requires
        0 <= i <= a.len(),
        i <= b.len(),
        a.take(i) == b.take(i),
    ensures
        bytes_lt(a, b) == bytes_lt(a.skip(i), b.skip(i)),
    decreases i,
{
    if i > 0 {
        assert(a[0] == a.take(i)[0]);
        assert(b[0] == b.take(i)[0]);
        assert(a.drop_first().take(i - 1) =~= a.take(i).drop_first());
        assert(b.drop_first().take(i - 1) =~= b.take(i).drop_first());
        lemma_bytes_lt_skip(a.drop_first(), b.drop_first(), i - 1);
        assert(a.drop_first().skip(i - 1) =~= a.skip(i));
        assert(b.drop_first().skip(i - 1) =~= b.skip(i));
    } else {
        assert(a.skip(0) =~= a);
        assert(b.skip(0) =~= b);
    }
}

/// Compares two byte strings: `(a < b, a == b)`.
pub fn compare_bytes(a: &[u8], b: &[u8]) -> (r: (bool, bool))
    ensures
        r.0 == bytes_lt(a@, b@),
        r.1 == (a@ == b@),
{
    let n = a.len();
    let m = b.len();
    let mut i: usize = 0;
    while i < n && i < m
        invariant
            i <= n,
            i <= m,
            n == a@.len(),
            m == b@.len(),
            a@.take(i as int) == b@.take(i as int),
        decreases n - i,
    {
        if a[i] != b[i] {
            proof {
                lemma_bytes_lt_skip(a@, b@, i as int);
                assert(a@.skip(i as int)[0] == a@[i as int]);
                assert(b@.skip(i as int)[0] == b@[i as int]);
                assert(a@[i as int] != b@[i as int]);
            }
            return (a[i] < b[i], false);
        }
        proof {
            assert(a@.take(i + 1) =~= a@.take(i as int).push(a@[i as int]));
            assert(b@.take(i + 1) =~= b@.take(i as int).push(b@[i as int]));
        }
        i = i + 1;
    }
    proof {
        lemma_bytes_lt_skip(a@, b@, i as int);
        if n == m {
            assert(a@ =~= a@.take(i as int));
            assert(b@ =~= b@.take(i as int));
        } else {
            if i == n {
                assert(a@.len() != b@.len());
            } else {
                assert(a@.len() != b@.len());
            }
        }
    }
    (i == n && i < m, n == m)
}


/// A text that neither starts nor ends with white space is its own trim.
pub proof fn lemma_trim_unchanged(s: Seq<char>)
    requires
        s.len() > 0,
        !is_white_space(s[0]),
        !is_white_space(s.last()),
    ensures
        trim(s) == s,
{
    lemma_leading_space_stop(s);
    assert(s.skip(0) =~= s);
    lemma_trailing_space_stop(s);
    assert(s.take(s.len() as int) =~= s);
}


/// The decimal representation of `n` is a non-empty string of digits that
/// denotes `n`.
pub proof fn lemma_decimal(n: nat)
    ensures
        decimal(n).len() > 0,
        all_digits(decimal(n)),
        digits_value(decimal(n)) == n,
    decreases n,
{
    let d = digit_char(n % 10);
    assert(digit_value(d) == n % 10);
    if n >= 10 {
        lemma_decimal(n / 10);
        let prev = decimal(n / 10);
        let s = prev.push(d);
        assert(s.drop_last() =~= prev);
        assert forall|i: int| 0 <= i < s.len() implies is_digit(#[trigger] s[i]) by {
            if i < prev.len() {
                assert(s[i] == prev[i]);
            }
        }
        assert(s.last() == d);
        assert(digits_value(s) == 10 * digits_value(prev) + digit_value(d));
        assert(n == 10 * (n / 10) + n % 10);
    } else {
        assert(decimal(n) =~= seq![d]);
        assert(seq![d].drop_last() =~= Seq::<char>::empty());
        assert(digits_value(seq![d]) == 10 * digits_value(Seq::<char>::empty()) + digit_value(d));
    }
}


/// The order of byte strings is transitive.
pub proof fn lemma_bytes_lt_transitive(a: Seq<u8>, b: Seq<u8>, c: Seq<u8>)
    requires
        bytes_lt(a, b),
        bytes_lt(b, c),
    ensures
        bytes_lt(a, c),
    decreases a.len(),
{
    if a.len() > 0 && b.len() > 0 && c.len() > 0 && a[0] == b[0] && b[0] == c[0] {
        lemma_bytes_lt_transitive(a.drop_first(), b.drop_first(), c.drop_first());
    }
}

/// No byte string comes before itself.
pub proof fn lemma_bytes_lt_irreflexive(a: Seq<u8>)
    ensures
        !bytes_lt(a, a),
    decreases a.len(),
{
    if a.len() > 0 {
        lemma_bytes_lt_irreflexive(a.drop_first());
    }
}

/// Of two different byte strings, one comes before the other.
pub proof fn lemma_bytes_lt_total(a: Seq<u8>, b: Seq<u8>)
    ensures
        a == b || bytes_lt(a, b) || bytes_lt(b, a),
    decreases a.len(),
{
    if a.len() > 0 && b.len() > 0 && a[0] == b[0] {
        lemma_bytes_lt_total(a.drop_first(), b.drop_first());
        if a.drop_first() == b.drop_first() {
            assert(a =~= seq![a[0]] + a.drop_first());
            assert(b =~= seq![b[0]] + b.drop_first());
        }
    } else if a.len() == 0 && b.len() == 0 {
        assert(a =~= b);
    }
}


/// `a..b` cut the white space off both ends of `t`: everything before `a`
/// and from `b` on is white space, and where `a < b` the characters at `a`
/// and `b - 1` are not.
pub open spec fn trims_at(t: Seq<char>, a: int, b: int) -> bool {
    &&& 0 <= a <= b <= t.len()
    &&& forall|k: int| 0 <= k < a ==> is_white_space(#[trigger] t[k])
    &&& forall|k: int| b <= k < t.len() ==> is_white_space(#[trigger] t[k])
    &&& a < b ==> !is_white_space(t[a]) && !is_white_space(t[b - 1])
}

/// Where `a..b` cut the white space off both ends, the trim is `t[a..b]`.
pub proof fn lemma_trims_at(t: Seq<char>, a: int, b: int)
    requires
        trims_at(t, a, b),
    ensures
        trim(t) == t.subrange(a, b),
{
    if a < b {
        lemma_leading_space(t, a);
        lemma_leading_space_stop(t.skip(a));
        let u = t.skip(a);
        let jb = b - a;
        assert forall|k: int| jb <= k < u.len() implies is_white_space(u[k]) by {
            assert(u[k] == t[k + a]);
        }
        lemma_trailing_space(u, jb);
        assert(u.take(jb).last() == t[b - 1]);
        lemma_trailing_space_stop(u.take(jb));
        assert(u.take(u.len() - trailing_space(u)) =~= t.subrange(a, b));
    } else {
        assert forall|k: int| 0 <= k < t.len() implies is_white_space(t[k]) by {
            if k >= a {
                assert(b <= k);
            }
        }
        lemma_leading_space(t, t.len() as int);
        assert(t.skip(t.len() as int).len() == 0);
        assert(t.skip(leading_space(t) as int) =~= Seq::<char>::empty());
        assert(t.subrange(a, b) =~= Seq::<char>::empty());
    }
}

proof fn lemma_leading_space_facts(s: Seq<char>)
    ensures
        leading_space(s) <= s.len(),
        forall|k: int| 0 <= k < leading_space(s) ==> is_white_space(#[trigger] s[k]),
        leading_space(s) < s.len() ==> !is_white_space(s[leading_space(s) as int]),
    decreases s.len(),
{
    if s.len() > 0 && is_white_space(s[0]) {
        let d = s.drop_first();
        lemma_leading_space_facts(d);
        assert forall|k: int| 0 <= k < leading_space(s) implies is_white_space(#[trigger] s[k]) by {
            if k > 0 {
                assert(s[k] == d[k - 1]);
            }
        }
        if leading_space(s) < s.len() {
            assert(s[leading_space(s) as int] == d[leading_space(d) as int]);
        }
    }
}

proof fn lemma_trailing_space_facts(s: Seq<char>)
    ensures
        trailing_space(s) <= s.len(),
        forall|k: int| s.len() - trailing_space(s) <= k < s.len() ==> is_white_space(#[trigger] s[k]),
        trailing_space(s) < s.len() ==> !is_white_space(s[s.len() - trailing_space(s) - 1]),
    decreases s.len(),
{
    if s.len() > 0 && is_white_space(s.last()) {
        let d = s.drop_last();
        lemma_trailing_space_facts(d);
        assert forall|k: int| s.len() - trailing_space(s) <= k < s.len() implies is_white_space(
            #[trigger] s[k],
        ) by {
            if k < s.len() - 1 {
                assert(s[k] == d[k]);
            }
        }
        if trailing_space(s) < s.len() {
            assert(s[s.len() - trailing_space(s) - 1] == d[d.len() - trailing_space(d) - 1]);
        }
    }
}

/// Every text has bounds that cut the white space off both ends.
pub proof fn lemma_trim_bounds_exist(s: Seq<char>) -> (r: (int, int))
    ensures
        trims_at(s, r.0, r.1),
{
    lemma_leading_space_facts(s);
    lemma_trailing_space_facts(s);
    let a = leading_space(s) as int;
    if a == s.len() {
        (a, a)
    } else {
        let b = s.len() - trailing_space(s);
        if b <= a {
            assert(is_white_space(s[a]));
        }
        assert(trailing_space(s) < s.len());
        (a, b)
    }
}

/// White space added at either end of a text leaves its trim unchanged.
pub proof fn lemma_trim_padded(w1: Seq<char>, s: Seq<char>, w2: Seq<char>)
    requires
        forall|k: int| 0 <= k < w1.len() ==> is_white_space(#[trigger] w1[k]),
        forall|k: int| 0 <= k < w2.len() ==> is_white_space(#[trigger] w2[k]),
    ensures
        trim(w1 + s + w2) == trim(s),
{
    let (a, b) = lemma_trim_bounds_exist(s);
    lemma_trims_at(s, a, b);
    let t = w1 + s + w2;
    let o = w1.len() as int;
    assert forall|k: int| 0 <= k < o + a implies is_white_space(#[trigger] t[k]) by {
        if k < o {
            assert(t[k] == w1[k]);
        } else {
            assert(t[k] == s[k - o]);
        }
    }
    assert forall|k: int| o + b <= k < t.len() implies is_white_space(#[trigger] t[k]) by {
        if k < o + s.len() {
            assert(t[k] == s[k - o]);
        } else {
            assert(t[k] == w2[k - o - s.len()]);
        }
    }
    if a < b {
        assert(t[o + a] == s[a]);
        assert(t[o + b - 1] == s[b - 1]);
    }
    lemma_trims_at(t, o + a, o + b);
    assert(t.subrange(o + a, o + b) =~= s.subrange(a, b));
}

/// ASCII lower case keeps white space white space and the rest not.
pub proof fn lemma_lower_keeps_space(c: char)
    ensures
        is_white_space(ascii_lower_char(c)) == is_white_space(c),
{
}

/// Lower case and trimming can be taken in either order.
pub proof fn lemma_lower_trim(s: Seq<char>)
    ensures
        ascii_lower(trim(s)) == trim(ascii_lower(s)),
{
    let (a, b) = lemma_trim_bounds_exist(s);
    lemma_trims_at(s, a, b);
    let l = ascii_lower(s);
    assert forall|k: int| 0 <= k < l.len() implies is_white_space(#[trigger] l[k]) == is_white_space(s[k]) by {
        lemma_lower_keeps_space(s[k]);
    }
    assert(trims_at(l, a, b));
    lemma_trims_at(l, a, b);
    assert(ascii_lower(s.subrange(a, b)) =~= l.subrange(a, b));
}

} // verus!
