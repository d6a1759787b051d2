use vstd::prelude::*;

verus! {

/// The characters of `s`, in order.
pub fn chars_of(s: &str) -> (v: Vec<char>)
    ensures
        v@ == s@,
{
    let mut v: Vec<char> = Vec::new();
    for c in it: s.chars()
        invariant
            v@ == it.seq().take(it.index() as int),
    {
        v.push(c);
    }
    v
}

/// Appends one character to a string (`String::push`).
#[verifier::external_body]
pub(crate) fn push_char(s: &mut String, c: char)
    ensures
        final(s)@ == old(s)@.push(c),
{
    s.push(c)
}

/// Appends a string slice to a string (`String::push_str`).
#[verifier::external_body]
pub(crate) fn push_str(s: &mut String, t: &str)
    ensures
        final(s)@ == old(s)@ + t@,
{
    s.push_str(t)
}

/// Appends the characters `cs[from..to]` to `s`.
pub fn push_chars(s: &mut String, cs: &[char], from: usize, to: usize)
    requires
        from <= to <= cs@.len(),
    ensures
        final(s)@ == old(s)@ + cs@.subrange(from as int, to as int),
{
    let ghost start = s@;
    let mut i = from;
    while i < to
        invariant
            from <= i <= to <= cs@.len(),
            s@ == start + cs@.subrange(from as int, i as int),
        decreases to - i,
    {
        push_char(s, cs[i]);
        i = i + 1;
        assert(cs@.subrange(from as int, i as int) =~= cs@.subrange(from as int, i - 1).push(cs@[i - 1]));
    }
}

/// Builds a string out of the characters `cs[from..to]`.
pub fn string_of(cs: &[char], from: usize, to: usize) -> (s: String)
    requires
        from <= to <= cs@.len(),
    ensures
        s@ == cs@.subrange(from as int, to as int),
{
    let mut s = String::new();
    push_chars(&mut s, cs, from, to);
    s
}

} // verus!

verus! {

/// `s` without its leading run of `c` (`str::trim_start_matches` with a `char`).
pub open spec fn trim_start_char(s: Seq<char>, c: char) -> Seq<char>
    decreases s.len(),
{
    if s.len() > 0 && s[0] == c {
        trim_start_char(s.drop_first(), c)
    } else {
        s
    }
}

/// `s` without its trailing run of `c` (`str::trim_end_matches` with a `char`).
pub open spec fn trim_end_char(s: Seq<char>, c: char) -> Seq<char>
    decreases s.len(),
{
    if s.len() > 0 && s.last() == c {
        trim_end_char(s.drop_last(), c)
    } else {
        s
    }
}

/// `s` without leading and trailing runs of `c` (`str::trim_matches` with a `char`).
pub open spec fn trim_char(s: Seq<char>, c: char) -> Seq<char> {
    trim_end_char(trim_start_char(s, c), c)
}

/// `s.skip(n)` is what is left after the leading run of `c` when `s[..n]` is that run.
pub proof fn lemma_trim_start_at(s: Seq<char>, c: char, n: int)
    requires
        0 <= n <= s.len(),
        forall|k: int| 0 <= k < n ==> s[k] == c,
        n == s.len() || s[n] != c,
    ensures
        trim_start_char(s, c) == s.skip(n),
    decreases n,
{
    if n > 0 {
        lemma_trim_start_at(s.drop_first(), c, n - 1);
        assert(s.drop_first().skip(n - 1) =~= s.skip(n));
    } else {
        assert(s.skip(0) =~= s);
    }
}

/// `s.take(n)` is what is left before the trailing run of `c` when `s[n..]` is that run.
pub proof fn lemma_trim_end_at(s: Seq<char>, c: char, n: int)
    requires
        0 <= n <= s.len(),
        forall|k: int| n <= k < s.len() ==> s[k] == c,
        n == 0 || s[n - 1] != c,
    ensures
        trim_end_char(s, c) == s.take(n),
    decreases s.len() - n,
{
    if n < s.len() {
        lemma_trim_end_at(s.drop_last(), c, n);
        assert(s.drop_last().take(n) =~= s.take(n));
    } else {
        assert(s.take(n) =~= s);
    }
}

/// The first index at or after `from` (and before `to`) that does not hold `c`, or `to`.
pub fn skip_run(cs: &[char], from: usize, to: usize, c: char) -> (i: usize)
    requires
        from <= to <= cs@.len(),
    ensures
        from <= i <= to,
        forall|k: int| from <= k < i ==> cs@[k] == c,
        i == to || cs@[i as int] != c,
        trim_start_char(cs@.subrange(from as int, to as int), c) == cs@.subrange(i as int, to as int),
{
    let mut i = from;
    while i < to && cs[i] == c
        invariant
            from <= i <= to <= cs@.len(),
            forall|k: int| from <= k < i ==> cs@[k] == c,
        decreases to - i,
    {
        i = i + 1;
    }
    proof {
        let s = cs@.subrange(from as int, to as int);
        lemma_trim_start_at(s, c, i - from);
        assert(s.skip(i - from) =~= cs@.subrange(i as int, to as int));
    }
    i
}

/// The index just after the last position in `from..to` that does not hold `c`, or `from`.
pub fn skip_run_back(cs: &[char], from: usize, to: usize, c: char) -> (j: usize)
    requires
        from <= to <= cs@.len(),
    ensures
        from <= j <= to,
        forall|k: int| j <= k < to ==> cs@[k] == c,
        j == from || cs@[j - 1] != c,
        trim_end_char(cs@.subrange(from as int, to as int), c) == cs@.subrange(from as int, j as int),
{
    let mut j = to;
    while j > from && cs[j - 1] == c
        invariant
            from <= j <= to <= cs@.len(),
            forall|k: int| j <= k < to ==> cs@[k] == c,
        decreases j - from,
    {
        j = j - 1;
    }
    proof {
        let s = cs@.subrange(from as int, to as int);
        lemma_trim_end_at(s, c, j - from);
        assert(s.take(j - from) =~= cs@.subrange(from as int, j as int));
    }
    j
}

/// The bounds of `cs` with leading and trailing runs of `c` removed.
pub fn trim_bounds(cs: &[char], c: char) -> (r: (usize, usize))
    ensures
        r.0 <= r.1 <= cs@.len(),
        cs@.subrange(r.0 as int, r.1 as int) == trim_char(cs@, c),
{
    let i = skip_run(cs, 0, cs.len(), c);
    let j = skip_run_back(cs, i, cs.len(), c);
    assert(cs@.subrange(0, cs@.len() as int) =~= cs@);
    (i, j)
}

/// Whether `cs[from..to]` begins with `p`.
pub fn has_prefix_at(cs: &[char], from: usize, to: usize, p: &[char]) -> (b: bool)
    requires
        from <= to <= cs@.len(),
    ensures
        b == p@.is_prefix_of(cs@.subrange(from as int, to as int)),
{
    if p.len() > to - from {
        return false;
    }
    let mut k: usize = 0;
    while k < p.len()
        invariant
            from <= to <= cs@.len(),
            p@.len() <= to - from,
            k <= p@.len(),
            forall|m: int| 0 <= m < k ==> p@[m] == cs@[from + m],
        decreases p@.len() - k,
    {
        if p[k] != cs[from + k] {
            assert(cs@.subrange(from as int, to as int)[k as int] == cs@[from + k]);
            return false;
        }
        k = k + 1;
    }
    assert(p@ =~= cs@.subrange(from as int, to as int).take(p@.len() as int));
    true
}

/// A vector holding `cs[from..to]`.
pub fn chars_slice(cs: &[char], from: usize, to: usize) -> (v: Vec<char>)
    requires
        from <= to <= cs@.len(),
    ensures
        v@ == cs@.subrange(from as int, to as int),
{
    let mut v: Vec<char> = Vec::new();
    let mut i = from;
    while i < to
        invariant
            from <= i <= to <= cs@.len(),
            v@ == cs@.subrange(from as int, i as int),
        decreases to - i,
    {
        v.push(cs[i]);
        i = i + 1;
        assert(v@ =~= cs@.subrange(from as int, i as int));
    }
    v
}

/// A copy of `s` as a `String`.
pub fn string_of_str(s: &str) -> (r: String)
    ensures
        r@ == s@,
{
    let cs = chars_of(s);
    let r = string_of(cs.as_slice(), 0, cs.len());
    assert(cs@.subrange(0, cs@.len() as int) =~= cs@);
    r
}

/// Whether `c` has Unicode's `White_Space` property (what `char::is_whitespace`
/// decides): the controls U+0009 to U+000D, the space, U+0085, the no-break space,
/// the Ogham space mark, the spaces U+2000 to U+200A, the line and paragraph
/// separators, the narrow no-break space, the medium mathematical space and the
/// ideographic space.
pub open spec fn unicode_white_space(c: char) -> bool {
    let v = c as u32;
    ||| 0x9 <= v <= 0xd
    ||| v == 0x20
    ||| v == 0x85
    ||| v == 0xa0
    ||| v == 0x1680
    ||| 0x2000 <= v <= 0x200a
    ||| v == 0x2028
    ||| v == 0x2029
    ||| v == 0x202f
    ||| v == 0x205f
    ||| v == 0x3000
}

/// Whether `c` is white space in Unicode's sense.
pub fn is_whitespace(c: char) -> (b: bool)
    ensures
        b == unicode_white_space(c),
{
    let v = c as u32;
    (0x9 <= v && v <= 0xd) || v == 0x20 || v == 0x85 || v == 0xa0 || v == 0x1680 || (0x2000 <= v && v
        <= 0x200a) || v == 0x2028 || v == 0x2029 || v == 0x202f || v == 0x205f || v == 0x3000
}

/// `s` without leading white space.
pub open spec fn trim_start_ws(s: Seq<char>) -> Seq<char>
    decreases s.len(),
{
    if s.len() > 0 && unicode_white_space(s[0]) {
        trim_start_ws(s.drop_first())
    } else {
        s
    }
}

/// `s` without trailing white space.
pub open spec fn trim_end_ws(s: Seq<char>) -> Seq<char>
    decreases s.len(),
{
    if s.len() > 0 && unicode_white_space(s.last()) {
        trim_end_ws(s.drop_last())
    } else {
        s
    }
}

/// `s` without leading and trailing white space (`str::trim`).
pub open spec fn trim_ws(s: Seq<char>) -> Seq<char> {
    trim_end_ws(trim_start_ws(s))
}

proof fn lemma_trim_start_ws_at(s: Seq<char>, n: int)
    requires
        0 <= n <= s.len(),
        forall|k: int| 0 <= k < n ==> unicode_white_space(s[k]),
        n == s.len() || !unicode_white_space(s[n]),
    ensures
        trim_start_ws(s) == s.skip(n),
    decreases n,
{
    if n > 0 {
        lemma_trim_start_ws_at(s.drop_first(), n - 1);
        assert(s.drop_first().skip(n - 1) =~= s.skip(n));
    } else {
        assert(s.skip(0) =~= s);
    }
}

proof fn lemma_trim_end_ws_at(s: Seq<char>, n: int)
    requires
        0 <= n <= s.len(),
        forall|k: int| n <= k < s.len() ==> unicode_white_space(s[k]),
        n == 0 || !unicode_white_space(s[n - 1]),
    ensures
        trim_end_ws(s) == s.take(n),
    decreases s.len() - n,
{
    if n < s.len() {
        lemma_trim_end_ws_at(s.drop_last(), n);
        assert(s.drop_last().take(n) =~= s.take(n));
    } else {
        assert(s.take(n) =~= s);
    }
}

/// The bounds of `cs` with leading and trailing white space removed.
pub fn trim_ws_bounds(cs: &[char]) -> (r: (usize, usize))
    ensures
        r.0 <= r.1 <= cs@.len(),
        cs@.subrange(r.0 as int, r.1 as int) == trim_ws(cs@),
{
    let mut i: usize = 0;
    while i < cs.len() && is_whitespace(cs[i])
        invariant
            i <= cs@.len(),
            forall|k: int| 0 <= k < i ==> unicode_white_space(cs@[k]),
        decreases cs@.len() - i,
    {
        i = i + 1;
    }
    let mut j: usize = cs.len();
    while j > i && is_whitespace(cs[j - 1])
        invariant
            i <= j <= cs@.len(),
            forall|k: int| j <= k < cs@.len() ==> unicode_white_space(cs@[k]),
        decreases j - i,
    {
        j = j - 1;
    }
    proof {
        lemma_trim_start_ws_at(cs@, i as int);
        let t = cs@.skip(i as int);
        lemma_trim_end_ws_at(t, j - i);
        assert(t.take(j - i) =~= cs@.subrange(i as int, j as int));
    }
    (i, j)
}

/// A copy of `s` without leading and trailing white space.
pub fn trimmed(s: &str) -> (r: String)
    ensures
        r@ == trim_ws(s@),
{
    let cs = chars_of(s);
    let (a, b) = trim_ws_bounds(cs.as_slice());
    string_of(cs.as_slice(), a, b)
}

/// Whether `a` comes no later than `b` in lexicographic order by code point, the
/// order in which SQLite's binary collation sorts UTF-8 text.
pub open spec fn text_le(a: Seq<char>, b: Seq<char>) -> bool
    decreases a.len(),
{
    if a.len() == 0 {
        true
    } else if b.len() == 0 {
        false
    } else if (a[0] as u32) < (b[0] as u32) {
        true
    } else if a[0] == b[0] {
        text_le(a.drop_first(), b.drop_first())
    } else {
        false
    }
}

/// `text_le` is total.
pub proof fn lemma_text_le_total(a: Seq<char>, b: Seq<char>)
    ensures
        text_le(a, b) || text_le(b, a),
    decreases a.len(),
{
    if a.len() > 0 && b.len() > 0 {
        if a[0] == b[0] {
            lemma_text_le_total(a.drop_first(), b.drop_first());
        } else {
            vstd::utf8::char_u32_cast(a[0], a[0] as u32);
            vstd::utf8::char_u32_cast(b[0], b[0] as u32);
        }
    }
}

/// `text_le` is transitive.
pub proof fn lemma_text_le_transitive(a: Seq<char>, b: Seq<char>, c: Seq<char>)
    requires
        text_le(a, b),
        text_le(b, c),
    ensures
        text_le(a, c),
    decreases a.len(),
{
    if a.len() > 0 && b.len() > 0 && c.len() > 0 && a[0] == b[0] && b[0] == c[0] {
        lemma_text_le_transitive(a.drop_first(), b.drop_first(), c.drop_first());
    }
}

/// `text_le` holds of equal texts.
pub proof fn lemma_text_le_reflexive(a: Seq<char>)
    ensures
        text_le(a, a),
    decreases a.len(),
{
    if a.len() > 0 {
        lemma_text_le_reflexive(a.drop_first());
    }
}

/// Whether `a` comes no later than `b` in lexicographic order by code point.
pub fn text_less_or_equal(a: &str, b: &str) -> (le: bool)
    ensures
        le == text_le(a@, b@),
{
    let x = chars_of(a);
    let y = chars_of(b);
    let mut i: usize = 0;
    proof {
        assert(x@.skip(0) =~= x@);
        assert(y@.skip(0) =~= y@);
    }
    while i < x.len() && i < y.len() && x[i] == y[i]
        invariant
            i <= x@.len(),
            i <= y@.len(),
            text_le(x@, y@) == text_le(x@.skip(i as int), y@.skip(i as int)),
        decreases x@.len() - i,
    {
        proof {
            assert(x@.skip(i as int).drop_first() =~= x@.skip(i + 1));
            assert(y@.skip(i as int).drop_first() =~= y@.skip(i + 1));
        }
        i = i + 1;
    }
    if i == x.len() {
        true
    } else if i == y.len() {
        false
    } else {
        assert(x@.skip(i as int)[0] == x@[i as int]);
        assert(y@.skip(i as int)[0] == y@[i as int]);
        (x[i] as u32) < (y[i] as u32)
    }
}

/// Whether two texts are the same.
pub fn same_text(a: &str, b: &str) -> (eq: bool)
    ensures
        eq == (a@ == b@),
{
    let x = chars_of(a);
    let y = chars_of(b);
    if x.len() != y.len() {
        return false;
    }
    let mut i: usize = 0;
    while i < x.len()
        invariant
            i <= x@.len() == y@.len(),
            x@ == a@,
            y@ == b@,
            forall|k: int| 0 <= k < i ==> x@[k] == y@[k],
        decreases x@.len() - i,
    {
        if x[i] != y[i] {
            return false;
        }
        i = i + 1;
    }
    assert(x@ =~= y@);
    true
}

/// The decimal digit for `d` (below 10).
pub open spec fn digit(d: nat) -> char {
    ((d + 0x30) as u8) as char
}

/// The decimal numeral of `n`, without leading zeros.
pub open spec fn decimal(n: nat) -> Seq<char>
    decreases n,
{
    if n < 10 {
        seq![digit(n)]
    } else {
        decimal(n / 10).push(digit(n % 10))
    }
}

/// The decimal numeral of `n`.
pub fn decimal_string(n: u64) -> (s: String)
    ensures
        s@ == decimal(n as nat),
{
    let mut digits: Vec<char> = Vec::new();
    let mut m = n;
    let ghost mut tail: Seq<char> = seq![];
    while m >= 10
        invariant
            decimal(n as nat) == decimal(m as nat) + tail,
            digits@ == tail.reverse(),
        decreases m,
    {
        let d = (m % 10) as u8;
        let c = (0x30u8 + d) as char;
        proof {
            assert(decimal(m as nat) == decimal((m / 10) as nat).push(digit((m % 10) as nat)));
            assert(c == digit((m % 10) as nat));
            assert(decimal((m / 10) as nat).push(c) + tail =~= decimal((m / 10) as nat) + seq![c].add(tail));
            assert(seq![c].add(tail).reverse() =~= tail.reverse().push(c));
            tail = seq![c].add(tail);
        }
        digits.push(c);
        m = m / 10;
    }
    let c = (0x30u8 + m as u8) as char;
    proof {
        assert(c == digit(m as nat));
        assert(decimal(m as nat) =~= seq![c]);
        tail = seq![c].add(tail);
        assert(seq![c].add(digits@.reverse()) =~= tail);
    }
    digits.push(c);
    proof {
        assert(digits@ =~= tail.reverse());
        assert(tail.reverse().reverse() =~= tail);
    }
    let mut s = String::new();
    let mut i = digits.len();
    while i > 0
        invariant
            i <= digits@.len(),
            s@ == digits@.subrange(i as int, digits@.len() as int).reverse(),
        decreases i,
    {
        i = i - 1;
        push_char(&mut s, digits[i]);
        assert(digits@.subrange(i as int, digits@.len() as int).reverse() =~= digits@.subrange(i + 1, digits@.len() as int).reverse().push(digits@[i as int]));
    }
    assert(digits@.subrange(0, digits@.len() as int) =~= digits@);
    s
}

} // verus!
