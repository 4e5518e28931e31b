//! Character-level string helpers shared by the session and media modules.

use vstd::prelude::*;

verus! {

/// The code point of `c` with ASCII upper-case letters mapped to lower case.
pub open spec fn ascii_fold(c: char) -> int {
    if 'A' <= c && c <= 'Z' {
        (c as int) + 32
    } else {
        c as int
    }
}

/// Two strings are equal when ASCII letter case is ignored.
pub open spec fn eq_ignore_ascii_case_spec(a: Seq<char>, b: Seq<char>) -> bool {
    &&& a.len() == b.len()
    &&& forall|i: int| 0 <= i < a.len() ==> #[trigger] ascii_fold(a[i]) == ascii_fold(b[i])
}

fn ascii_fold_exec(c: char) -> (r: u32)
    ensures
        r == ascii_fold(c),
{
    if 'A' <= c && c <= 'Z' {
        (c as u32) + 32
    } else {
        c as u32
    }
}

/// The characters of `s`, in order.
pub fn chars_of(s: &str) -> (v: Vec<char>)
    ensures
        v@ == s@,
{
    let mut v: Vec<char> = Vec::new();
    for c in it: s.chars()
        invariant
            v@ == it.seq().take(it.index() as int),
    {
        v.push(c);
    }
    v
}

/// Whether `a` and `b` are equal when ASCII letter case is ignored.
pub fn eq_ignore_ascii_case(a: &str, b: &str) -> (r: bool)
    ensures
        r == eq_ignore_ascii_case_spec(a@, b@),
{
    let x = chars_of(a);
    let y = chars_of(b);
    if x.len() != y.len() {
        return false;
    }
    let mut i: usize = 0;
    while i < x.len()
        invariant
            x@ == a@,
            y@ == b@,
            x.len() == y.len(),
            0 <= i <= x.len(),
            forall|j: int| 0 <= j < i ==> #[trigger] ascii_fold(x@[j]) == ascii_fold(y@[j]),
        decreases x.len() - i,
    {
        if ascii_fold_exec(x[i]) != ascii_fold_exec(y[i]) {
            return false;
        }
        i = i + 1;
    }
    true
}

/// What `str::to_lowercase` returns for a string with the characters `s`.
pub uninterp spec fn lowercase(s: Seq<char>) -> Seq<char>;

/// The Unicode White_Space property, which `char::is_whitespace` tests: tab, line
/// feed, vertical tab, form feed, carriage return, space, next line, no-break space,
/// Ogham space mark, the spaces U+2000 to U+200A, line and paragraph separators,
/// narrow no-break space, medium mathematical space and ideographic space.
pub open spec fn white_space(c: char) -> bool {
    let x = c as u32;
    ||| 0x09 <= x && x <= 0x0D
    ||| x == 0x20
    ||| x == 0x85
    ||| x == 0xA0
    ||| x == 0x1680
    ||| 0x2000 <= x && x <= 0x200A
    ||| x == 0x2028
    ||| x == 0x2029
    ||| x == 0x202F
    ||| x == 0x205F
    ||| x == 0x3000
}

/// Whether `c` has the Unicode White_Space property.
pub fn is_whitespace(c: char) -> (r: bool)
    ensures
        r == white_space(c),
{
    let x = c as u32;
    (0x09 <= x && x <= 0x0D) || x == 0x20 || x == 0x85 || x == 0xA0 || x == 0x1680 || (0x2000
        <= x && x <= 0x200A) || x == 0x2028 || x == 0x2029 || x == 0x202F || x == 0x205F || x
        == 0x3000
}

/// Calls `str::to_lowercase`; the result is named `lowercase` of the input's characters.
#[verifier::external_body]
pub(crate) fn to_lowercase(s: &str) -> (r: String)
    ensures
        r@ == lowercase(s@),
{
    s.to_lowercase()
}

/// Calls `String::push`, which appends one character.
#[verifier::external_body]
pub(crate) fn push_char(s: &mut String, c: char)
    ensures
        final(s)@ == old(s)@.push(c),
{
    s.push(c)
}

/// A `String` holding the characters `v`.
pub fn string_from_chars(v: &[char]) -> (s: String)
    ensures
        s@ == v@,
{
    let mut s = String::new();
    let mut i: usize = 0;
    while i < v.len()
        invariant
            0 <= i <= v.len(),
            s@ == v@.take(i as int),
        decreases v.len() - i,
    {
        proof {
            assert(v@.take(i as int).push(v@[i as int]) =~= v@.take(i + 1));
        }
        push_char(&mut s, v[i]);
        i = i + 1;
    }
    proof {
        assert(v@.take(v@.len() as int) =~= v@);
    }
    s
}

/// `s` without the trailing `suffix`, when `s` ends with it.
pub open spec fn strip_suffix_spec(s: Seq<char>, suffix: Seq<char>) -> Option<Seq<char>> {
    if suffix.len() <= s.len() && s.subrange(s.len() - suffix.len(), s.len() as int) == suffix {
        Some(s.subrange(0, s.len() - suffix.len()))
    } else {
        None
    }
}

/// `s` with one trailing `suffix` removed, or `s` itself when it does not end with it.
pub open spec fn without_suffix(s: Seq<char>, suffix: Seq<char>) -> Seq<char> {
    match strip_suffix_spec(s, suffix) {
        Some(t) => t,
        None => s,
    }
}

/// The characters of `s` before the first occurrence of `sep` (all of `s` when there is none).
pub open spec fn before_first(s: Seq<char>, sep: char) -> Seq<char>
    decreases s.len(),
{
    if s.len() == 0 {
        s
    } else if s[0] == sep {
        Seq::empty()
    } else {
        seq![s[0]] + before_first(s.drop_first(), sep)
    }
}

/// `s` with its leading white space removed.
pub open spec fn trim_start_spec(s: Seq<char>) -> Seq<char>
    decreases s.len(),
{
    if s.len() > 0 && white_space(s[0]) {
        trim_start_spec(s.drop_first())
    } else {
        s
    }
}

/// `s` with its trailing white space removed.
pub open spec fn trim_end_spec(s: Seq<char>) -> Seq<char>
    decreases s.len(),
{
    if s.len() > 0 && white_space(s.last()) {
        trim_end_spec(s.drop_last())
    } else {
        s
    }
}

/// `s` with leading and trailing white space removed, as `str::trim` does.
pub open spec fn trim_spec(s: Seq<char>) -> Seq<char> {
    trim_end_spec(trim_start_spec(s))
}

/// Strict lexicographic order on character sequences, characters compared by code point;
/// this is the order of `String`'s `Ord`, since UTF-8 preserves code point order.
pub open spec fn lex_lt(a: Seq<char>, b: Seq<char>) -> bool
    decreases a.len(),
{
    if a.len() == 0 {
        b.len() > 0
    } else if b.len() == 0 {
        false
    } else if a[0] != b[0] {
        (a[0] as u32) < (b[0] as u32)
    } else {
        lex_lt(a.drop_first(), b.drop_first())
    }
}

/// Whether `s` ends with `suffix`, and what precedes it.
pub fn strip_suffix(s: &[char], suffix: &[char]) -> (r: Option<Vec<char>>)
    ensures
        match strip_suffix_spec(s@, suffix@) {
            Some(t) => r matches Some(v) && v@ == t,
            None => r is None,
        },
{
    if suffix.len() > s.len() {
        return None;
    }
    let start = s.len() - suffix.len();
    let mut i: usize = 0;
    while i < suffix.len()
        invariant
            start == s.len() - suffix.len(),
            0 <= i <= suffix.len(),
            forall|j: int| 0 <= j < i ==> s@[start + j] == suffix@[j],
        decreases suffix.len() - i,
    {
        if s[start + i] != suffix[i] {
            proof {
                assert(s@.subrange(start as int, s@.len() as int)[i as int] != suffix@[i as int]);
            }
            return None;
        }
        i = i + 1;
    }
    proof {
        assert(s@.subrange(start as int, s@.len() as int) =~= suffix@);
    }
    let mut v: Vec<char> = Vec::new();
    let mut k: usize = 0;
    while k < start
        invariant
            0 <= k <= start,
            start <= s.len(),
            v@ == s@.subrange(0, k as int),
        decreases start - k,
    {
        v.push(s[k]);
        proof {
            assert(v@ =~= s@.subrange(0, k + 1));
        }
        k = k + 1;
    }
    Some(v)
}

/// `s` with one trailing `suffix` removed, or a copy of `s` when it does not end with it.
pub fn remove_suffix(s: &[char], suffix: &[char]) -> (r: Vec<char>)
    ensures
        r@ == without_suffix(s@, suffix@),
{
    match strip_suffix(s, suffix) {
        Some(v) => v,
        None => {
            let mut v: Vec<char> = Vec::new();
            let mut k: usize = 0;
            while k < s.len()
                invariant
                    0 <= k <= s.len(),
                    v@ == s@.subrange(0, k as int),
                decreases s.len() - k,
            {
                v.push(s[k]);
                proof {
                    assert(v@ =~= s@.subrange(0, k + 1));
                }
                k = k + 1;
            }
            proof {
                assert(s@.subrange(0, s@.len() as int) =~= s@);
            }
            v
        },
    }
}

/// Splitting at the first `sep` past a prefix free of `sep` keeps that prefix.
pub proof fn lemma_before_first_prefix(s: Seq<char>, sep: char, i: int)
    requires
        0 <= i <= s.len(),
        forall|j: int| 0 <= j < i ==> s[j] != sep,
    ensures
        before_first(s, sep) == s.take(i) + before_first(s.skip(i), sep),
    decreases i,
{
    if i > 0 {
        lemma_before_first_prefix(s.drop_first(), sep, i - 1);
        assert(s.drop_first().skip(i - 1) =~= s.skip(i));
        assert(s.take(i) =~= seq![s[0]] + s.drop_first().take(i - 1));
    } else {
        assert(s.take(0) =~= Seq::<char>::empty());
        assert(s.skip(0) =~= s);
    }
}

/// The characters of `s` before the first `sep`, or all of them when `sep` does not occur.
pub fn split_first(s: &[char], sep: char) -> (r: Vec<char>)
    ensures
        r@ == before_first(s@, sep),
{
    let mut v: Vec<char> = Vec::new();
    let mut k: usize = 0;
    while k < s.len()
        invariant
            0 <= k <= s.len(),
            v@ == s@.take(k as int),
            forall|j: int| 0 <= j < k ==> s@[j] != sep,
        decreases s.len() - k,
    {
        if s[k] == sep {
            proof {
                lemma_before_first_prefix(s@, sep, k as int);
                assert(s@.skip(k as int)[0] == sep);
            }
            return v;
        }
        v.push(s[k]);
        proof {
            assert(v@ =~= s@.take(k + 1));
        }
        k = k + 1;
    }
    proof {
        lemma_before_first_prefix(s@, sep, s@.len() as int);
        assert(s@.skip(s@.len() as int) =~= Seq::<char>::empty());
        assert(s@.take(s@.len() as int) =~= s@);
    }
    v
}


/// `s` with leading and trailing white space removed, as `str::trim` does.
pub fn trim(s: &str) -> (r: String)
    ensures
        r@ == trim_spec(s@),
{
    let v = chars_of(s);
    let n = v.len();
    let mut i: usize = 0;
    proof {
        assert(v@.skip(0) =~= v@);
    }
    while i < n && is_whitespace(v[i])
        invariant
            n == v@.len(),
            0 <= i <= n,
            trim_start_spec(v@) == trim_start_spec(v@.skip(i as int)),
        decreases n - i,
    {
        proof {
            assert(v@.skip(i as int).drop_first() =~= v@.skip(i + 1));
        }
        i = i + 1;
    }
    proof {
        if i == n {
            assert(v@.skip(i as int) =~= Seq::<char>::empty());
        }
    }
    let mut j: usize = n;
    while j > i && is_whitespace(v[j - 1])
        invariant
            n == v@.len(),
            0 <= i <= j <= n,
            trim_start_spec(v@) == v@.subrange(i as int, n as int),
            trim_spec(v@) == trim_end_spec(v@.subrange(i as int, j as int)),
        decreases j,
    {
        proof {
            assert(v@.subrange(i as int, j as int).drop_last() =~= v@.subrange(i as int, j - 1));
        }
        j = j - 1;
    }
    let mut out: Vec<char> = Vec::new();
    let mut k: usize = i;
    while k < j
        invariant
            i <= k <= j <= n,
            n == v@.len(),
            out@ == v@.subrange(i as int, k as int),
        decreases j - k,
    {
        out.push(v[k]);
        proof {
            assert(out@ =~= v@.subrange(i as int, k + 1));
        }
        k = k + 1;
    }
    string_from_chars(&out)
}

/// Whether `a` comes strictly before `b` in lexicographic code point order.
pub fn lex_less(a: &[char], b: &[char]) -> (r: bool)
    ensures
        r == lex_lt(a@, b@),
{
    let mut i: usize = 0;
    proof {
        assert(a@.skip(0) =~= a@);
        assert(b@.skip(0) =~= b@);
    }
    while i < a.len() && i < b.len()
        invariant
            0 <= i <= a.len(),
            i <= b.len(),
            lex_lt(a@, b@) == lex_lt(a@.skip(i as int), b@.skip(i as int)),
        decreases a.len() - i,
    {
        if a[i] != b[i] {
            proof {
                assert(a@.skip(i as int)[0] == a@[i as int]);
                assert(b@.skip(i as int)[0] == b@[i as int]);
            }
            return (a[i] as u32) < (b[i] as u32);
        }
        proof {
            assert(a@.skip(i as int).drop_first() =~= a@.skip(i + 1));
            assert(b@.skip(i as int).drop_first() =~= b@.skip(i + 1));
        }
        i = i + 1;
    }
    i < b.len()
}


/// No sequence comes strictly before itself.
pub proof fn lemma_lex_lt_irreflexive(a: Seq<char>)
    ensures
        !lex_lt(a, a),
    decreases a.len(),
{
    if a.len() > 0 {
        lemma_lex_lt_irreflexive(a.drop_first());
    }
}

/// `a` is a proper prefix of `b`.
pub open spec fn proper_prefix(a: Seq<char>, b: Seq<char>) -> bool {
    a.len() < b.len() && b.take(a.len() as int) == a
}

/// `a` and `b` first differ at position `i`, where `a` has the smaller code point.
pub open spec fn first_difference_less(a: Seq<char>, b: Seq<char>, i: int) -> bool {
    &&& 0 <= i < a.len()
    &&& i < b.len()
    &&& a.take(i) == b.take(i)
    &&& (a[i] as u32) < (b[i] as u32)
}

/// `lex_lt` is the order of `String`'s `Ord`: `a` comes first exactly when it is a
/// proper prefix of `b`, or at the first position where they differ `a` has the
/// smaller code point.
pub proof fn lemma_lex_lt_is_string_order(a: Seq<char>, b: Seq<char>)
    ensures
        lex_lt(a, b) <==> (proper_prefix(a, b) || exists|i: int| #[trigger] first_difference_less(a, b, i)),
    decreases a.len(),
{
    if a.len() == 0 {
        assert(b.take(0) =~= a);
    } else if b.len() == 0 {
        assert(!proper_prefix(a, b));
    } else if a[0] != b[0] {
        assert(!proper_prefix(a, b)) by {
            if proper_prefix(a, b) {
                assert(b.take(a.len() as int)[0] == b[0]);
            }
        }
        assert forall|i: int| #[trigger] first_difference_less(a, b, i) implies i == 0 by {
            if i > 0 {
                assert(a.take(i)[0] == b.take(i)[0]);
            }
        }
        if (a[0] as u32) < (b[0] as u32) {
            assert(a.take(0) =~= b.take(0));
            assert(first_difference_less(a, b, 0));
        }
    } else {
        let a1 = a.drop_first();
        let b1 = b.drop_first();
        lemma_lex_lt_is_string_order(a1, b1);
        if proper_prefix(a1, b1) {
            assert(b.take(a.len() as int) =~= seq![b[0]] + b1.take(a1.len() as int));
            assert(a =~= seq![a[0]] + a1);
        }
        if proper_prefix(a, b) {
            assert(b1.take(a1.len() as int) =~= b.take(a.len() as int).drop_first());
        }
        if exists|i: int| #[trigger] first_difference_less(a1, b1, i) {
            let i = choose|i: int| #[trigger] first_difference_less(a1, b1, i);
            assert(a.take(i + 1) =~= seq![a[0]] + a1.take(i));
            assert(b.take(i + 1) =~= seq![b[0]] + b1.take(i));
            assert(first_difference_less(a, b, i + 1));
        }
        if exists|i: int| #[trigger] first_difference_less(a, b, i) {
            let i = choose|i: int| #[trigger] first_difference_less(a, b, i);
            if i == 0 {
                assert(false);
            }
            assert(a1.take(i - 1) =~= a.take(i).drop_first());
            assert(b1.take(i - 1) =~= b.take(i).drop_first());
            assert(first_difference_less(a1, b1, i - 1));
        }
    }
}

/// A proper prefix comes first: `p` before `p + s` for any nonempty `s`.
pub proof fn lemma_lex_lt_prefix_first(p: Seq<char>, s: Seq<char>)
    requires
        s.len() > 0,
    ensures
        lex_lt(p, p + s),
        !lex_lt(p + s, p),
{
    assert((p + s).take(p.len() as int) =~= p);
    lemma_lex_lt_is_string_order(p, p + s);
    lemma_lex_lt_is_string_order(p + s, p);
}

/// Of two sequences one comes strictly before the other, or they are equal.
pub proof fn lemma_lex_lt_total(a: Seq<char>, b: Seq<char>)
    ensures
        lex_lt(a, b) || a == b || lex_lt(b, a),
    decreases a.len(),
{
    if a.len() == 0 && b.len() == 0 {
        assert(a =~= b);
    } else if a.len() > 0 && b.len() > 0 {
        if a[0] == b[0] {
            lemma_lex_lt_total(a.drop_first(), b.drop_first());
            if a.drop_first() == b.drop_first() {
                assert(a.len() == b.len());
                assert forall|k: int| 0 <= k < a.len() implies a[k] == b[k] by {
                    if k > 0 {
                        assert(a[k] == a.drop_first()[k - 1]);
                        assert(b[k] == b.drop_first()[k - 1]);
                    }
                }
                assert(a =~= b);
            }
        } else {
            vstd::utf8::char_u32_cast(a[0], a[0] as u32);
            vstd::utf8::char_u32_cast(b[0], b[0] as u32);
        }
    }
}

/// Lexicographic order is transitive.
pub proof fn lemma_lex_lt_transitive(a: Seq<char>, b: Seq<char>, c: Seq<char>)
    requires
        lex_lt(a, b),
        lex_lt(b, c),
    ensures
        lex_lt(a, c),
    decreases a.len(),
{
    if a.len() > 0 && b.len() > 0 && c.len() > 0 && a[0] == b[0] && b[0] == c[0] {
        lemma_lex_lt_transitive(a.drop_first(), b.drop_first(), c.drop_first());
    }
}


/// A sequence without `sep` is its own part before the first `sep`.
pub proof fn lemma_before_first_absent(s: Seq<char>, sep: char)
    requires
        !s.contains(sep),
    ensures
        before_first(s, sep) == s,
    decreases s.len(),
{
    if s.len() > 0 {
        assert(!s.drop_first().contains(sep)) by {
            if s.drop_first().contains(sep) {
                let j = choose|j: int| 0 <= j < s.drop_first().len() && s.drop_first()[j] == sep;
                assert(s[j + 1] == sep);
            }
        }
        assert(s[0] != sep);
        lemma_before_first_absent(s.drop_first(), sep);
        assert(seq![s[0]] + s.drop_first() =~= s);
    }
}

/// A sequence that neither starts nor ends with white space is its own trim.
pub proof fn lemma_trim_unpadded(s: Seq<char>)
    requires
        s.len() > 0 ==> !white_space(s[0]) && !white_space(s.last()),
    ensures
        trim_spec(s) == s,
{
    assert(trim_start_spec(s) == s);
}


/// Two characters are equal with ASCII case ignored exactly when they are the same
/// character or the same ASCII letter in the other case.
pub proof fn lemma_ascii_fold_eq(c: char, d: char)
    ensures
        ascii_fold(c) == ascii_fold(d) <==> (c == d || ('A' <= c && c <= 'Z' && (d as int) == (c as int)
            + 32) || ('A' <= d && d <= 'Z' && (c as int) == (d as int) + 32)),
{
    vstd::utf8::char_u32_cast(c, c as u32);
    vstd::utf8::char_u32_cast(d, d as u32);
    assert((c as u32) as int == c as int);
    assert((d as u32) as int == d as int);
}

/// Two texts are equal with ASCII case ignored exactly when they have the same length
/// and each pair of characters is equal or the same ASCII letter in either case.
pub proof fn lemma_eq_ignore_ascii_case(a: Seq<char>, b: Seq<char>)
    ensures
        eq_ignore_ascii_case_spec(a, b) <==> (a.len() == b.len() && forall|i: int|
            0 <= i < a.len() ==> #[trigger] a[i] == b[i] || ('A' <= a[i] && a[i] <= 'Z' && (b[i] as int)
                == (a[i] as int) + 32) || ('A' <= b[i] && b[i] <= 'Z' && (a[i] as int) == (b[i] as int)
                + 32)),
{
    assert forall|i: int| 0 <= i < a.len() && i < b.len() implies (ascii_fold(a[i]) == ascii_fold(b[i])
        <==> (a[i] == b[i] || ('A' <= a[i] && a[i] <= 'Z' && (b[i] as int) == (a[i] as int) + 32) || (
    'A' <= b[i] && b[i] <= 'Z' && (a[i] as int) == (b[i] as int) + 32))) by {
        lemma_ascii_fold_eq(a[i], b[i]);
    }
}

/// Stripping a suffix gives exactly the text that, followed by the suffix, is `s`.
pub proof fn lemma_strip_suffix(s: Seq<char>, suffix: Seq<char>, t: Seq<char>)
    ensures
        strip_suffix_spec(s, suffix) == Some(t) <==> t + suffix == s,
        strip_suffix_spec(s, suffix) is None <==> forall|u: Seq<char>| u + suffix != s,
{
    if t + suffix == s {
        assert(s.subrange(s.len() - suffix.len(), s.len() as int) =~= suffix);
        assert(s.subrange(0, s.len() - suffix.len()) =~= t);
    }
    if strip_suffix_spec(s, suffix) == Some(t) {
        assert(t + suffix =~= s);
    }
    if strip_suffix_spec(s, suffix) is Some {
        let u = s.subrange(0, s.len() - suffix.len());
        assert(u + suffix =~= s);
    } else {
        assert forall|u: Seq<char>| u + suffix != s by {
            if u + suffix == s {
                assert(s.subrange(s.len() - suffix.len(), s.len() as int) =~= suffix);
            }
        }
    }
}

/// The text before the first `sep` is a prefix of `s` without `sep`, and it is all of
/// `s` or is followed by a `sep`.
pub proof fn lemma_before_first(s: Seq<char>, sep: char)
    ensures
        before_first(s, sep).len() <= s.len(),
        s.take(before_first(s, sep).len() as int) == before_first(s, sep),
        !before_first(s, sep).contains(sep),
        before_first(s, sep).len() < s.len() ==> s[before_first(s, sep).len() as int] == sep,
    decreases s.len(),
{
    if s.len() > 0 && s[0] != sep {
        let t = s.drop_first();
        lemma_before_first(t, sep);
        let r = before_first(s, sep);
        assert(r == seq![s[0]] + before_first(t, sep));
        assert(s.take(r.len() as int) =~= seq![s[0]] + t.take(before_first(t, sep).len() as int));
        assert(!r.contains(sep)) by {
            if r.contains(sep) {
                let j = choose|j: int| 0 <= j < r.len() && r[j] == sep;
                if j > 0 {
                    assert(before_first(t, sep)[j - 1] == sep);
                }
            }
        }
        if r.len() < s.len() {
            assert(s[r.len() as int] == t[before_first(t, sep).len() as int]);
        }
    } else if s.len() > 0 {
        assert(s.take(0) =~= Seq::<char>::empty());
    } else {
        assert(s.take(0) =~= s);
    }
}

proof fn lemma_trim_start(s: Seq<char>)
    ensures
        exists|i: int|
            0 <= i <= s.len() && #[trigger] s.skip(i) == trim_start_spec(s) && (forall|k: int|
                0 <= k < i ==> white_space(#[trigger] s[k])),
        trim_start_spec(s).len() > 0 ==> !white_space(trim_start_spec(s)[0]),
    decreases s.len(),
{
    if s.len() > 0 && white_space(s[0]) {
        let t = s.drop_first();
        lemma_trim_start(t);
        let i = choose|i: int|
            0 <= i <= t.len() && #[trigger] t.skip(i) == trim_start_spec(t) && (forall|k: int|
                0 <= k < i ==> white_space(#[trigger] t[k]));
        assert(s.skip(i + 1) =~= t.skip(i));
        assert forall|k: int| 0 <= k < i + 1 implies white_space(#[trigger] s[k]) by {
            if k > 0 {
                assert(s[k] == t[k - 1]);
            }
        }
    } else {
        assert(s.skip(0) =~= s);
    }
}

proof fn lemma_trim_end(s: Seq<char>)
    ensures
        exists|j: int|
            0 <= j <= s.len() && #[trigger] s.take(j) == trim_end_spec(s) && (forall|k: int|
                j <= k < s.len() ==> white_space(#[trigger] s[k])),
        trim_end_spec(s).len() > 0 ==> !white_space(trim_end_spec(s).last()),
    decreases s.len(),
{
    if s.len() > 0 && white_space(s.last()) {
        let t = s.drop_last();
        lemma_trim_end(t);
        let j = choose|j: int|
            0 <= j <= t.len() && #[trigger] t.take(j) == trim_end_spec(t) && (forall|k: int|
                j <= k < t.len() ==> white_space(#[trigger] t[k]));
        assert(s.take(j) =~= t.take(j));
        assert forall|k: int| j <= k < s.len() implies white_space(#[trigger] s[k]) by {
            if k < s.len() - 1 {
                assert(s[k] == t[k]);
            }
        }
    } else {
        assert(s.take(s.len() as int) =~= s);
    }
}

/// Trimming keeps a contiguous middle part of `s`: everything removed before and after
/// it is white space, and it neither starts nor ends with white space.
pub proof fn lemma_trim(s: Seq<char>)
    ensures
        exists|i: int, j: int|
            0 <= i <= j <= s.len() && #[trigger] s.subrange(i, j) == trim_spec(s) && (forall|k: int|
                0 <= k < i ==> white_space(#[trigger] s[k])) && (forall|k: int|
                j <= k < s.len() ==> white_space(#[trigger] s[k])),
        trim_spec(s).len() > 0 ==> !white_space(trim_spec(s)[0]) && !white_space(trim_spec(s).last()),
{
    lemma_trim_start(s);
    let i = choose|i: int|
        0 <= i <= s.len() && #[trigger] s.skip(i) == trim_start_spec(s) && (forall|k: int|
            0 <= k < i ==> white_space(#[trigger] s[k]));
    let u = trim_start_spec(s);
    lemma_trim_end(u);
    let j = choose|j: int|
        0 <= j <= u.len() && #[trigger] u.take(j) == trim_end_spec(u) && (forall|k: int|
            j <= k < u.len() ==> white_space(#[trigger] u[k]));
    assert(s.subrange(i, i + j) =~= u.take(j));
    assert forall|k: int| i + j <= k < s.len() implies white_space(#[trigger] s[k]) by {
        assert(s[k] == u[k - i]);
    }
    if trim_spec(s).len() > 0 {
        assert(trim_spec(s)[0] == u[0]);
    }
}

} // verus!
