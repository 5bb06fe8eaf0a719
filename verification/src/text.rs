use vstd::prelude::*;

verus! {

/// Every character of the text is an ASCII one.
pub open spec fn is_ascii_text(s: Seq<char>) -> bool {
    forall|i: int| 0 <= i < s.len() ==> (#[trigger] s[i] as int) < 128
}

/// The ASCII upper case of a character: `a` to `z` become `A` to `Z`, any
/// other character stays.
pub open spec fn ascii_upper(c: char) -> char {
    if 97 <= (c as int) <= 122 {
        ((c as int) - 32) as char
    } else {
        c
    }
}

/// The ASCII lower case of a character: `A` to `Z` become `a` to `z`, any
/// other character stays.
pub open spec fn ascii_lower(c: char) -> char {
    if 65 <= (c as int) <= 90 {
        ((c as int) + 32) as char
    } else {
        c
    }
}

/// What `str::to_uppercase` gives for a text: its Unicode upper-case mapping.
pub uninterp spec fn spec_upper(s: Seq<char>) -> Seq<char>;

/// Upper-cases a text with `str::to_uppercase`; on an ASCII text, only the
/// letters `a` to `z` change, to `A` to `Z`.
#[verifier::external_body]
pub(crate) fn upper_case(s: &str) -> (r: String)
    ensures
        r@ == spec_upper(s@),
        is_ascii_text(s@) ==> r@ == s@.map_values(|c: char| ascii_upper(c)),
{
    s.to_uppercase()
}

/// What `str::to_lowercase` gives for a text: its Unicode lower-case mapping.
pub uninterp spec fn spec_lower(s: Seq<char>) -> Seq<char>;

/// Lower-cases a text with `str::to_lowercase`; on an ASCII text, only the
/// letters `A` to `Z` change, to `a` to `z`.
#[verifier::external_body]
pub(crate) fn lower_case(s: &str) -> (r: String)
    ensures
        r@ == spec_lower(s@),
        is_ascii_text(s@) ==> r@ == s@.map_values(|c: char| ascii_lower(c)),
{
    s.to_lowercase()
}

/// The characters of a text, in order.
pub fn chars_of(s: &str) -> (r: Vec<char>)
    ensures
        r@ == s@,
{
    let mut r: Vec<char> = Vec::new();
    for c in it: s.chars()
        invariant
            r@ == it.seq().take(it.index() as int),
            it.seq() == s@,
    {
        r.push(c);
    }
    r
}

/// Whether two character sequences are equal.
pub fn chars_eq(a: &Vec<char>, b: &Vec<char>) -> (r: bool)
    ensures
        r == (a@ == b@),
{
    if a.len() != b.len() {
        return false;
    }
    let mut i: usize = 0;
    while i < a.len()
        invariant
            a.len() == b.len(),
            i <= a.len(),
            forall|j: int| 0 <= j < i ==> a@[j] == b@[j],
        decreases a.len() - i,
    {
        if a[i] != b[i] {
            return false;
        }
        i = i + 1;
    }
    assert(a@ =~= b@);
    true
}

/// Whether the characters `c` spell the text `s`.
pub fn text_is(c: &Vec<char>, s: &str) -> (r: bool)
    ensures
        r == (c@ == s@),
{
    let t = chars_of(s);
    chars_eq(c, &t)
}


/// The text made of the characters `v`.
#[verifier::external_body]
pub(crate) fn string_of(v: &[char]) -> (r: String)
    ensures
        r@ == v@,
{
    v.iter().collect()
}

/// The character has the Unicode `White_Space` property, as `char::is_whitespace`
/// documents it.
pub open spec fn is_space(c: char) -> bool {
    ('\u{9}' <= c && c <= '\u{d}') || c == ' ' || c == '\u{85}' || c == '\u{a0}' || c == '\u{1680}'
        || ('\u{2000}' <= c && c <= '\u{200a}') || c == '\u{2028}' || c == '\u{2029}' || c
        == '\u{202f}' || c == '\u{205f}' || c == '\u{3000}'
}

/// Whether the character is white space.
pub fn space(c: char) -> (r: bool)
    ensures
        r == is_space(c),
{
    ('\u{9}' <= c && c <= '\u{d}') || c == ' ' || c == '\u{85}' || c == '\u{a0}' || c == '\u{1680}'
        || ('\u{2000}' <= c && c <= '\u{200a}') || c == '\u{2028}' || c == '\u{2029}' || c
        == '\u{202f}' || c == '\u{205f}' || c == '\u{3000}'
}

/// The text without its leading white space.
pub open spec fn trim_start(s: Seq<char>) -> Seq<char>
    decreases s.len(),
{
    if s.len() > 0 && is_space(s[0]) {
        trim_start(s.drop_first())
    } else {
        s
    }
}

/// The text without its trailing white space.
pub open spec fn trim_end(s: Seq<char>) -> Seq<char>
    decreases s.len(),
{
    if s.len() > 0 && is_space(s.last()) {
        trim_end(s.drop_last())
    } else {
        s
    }
}

/// The text without its leading and trailing white space, as `str::trim` gives it.
pub open spec fn trim(s: Seq<char>) -> Seq<char> {
    trim_end(trim_start(s))
}

proof fn lemma_trim_start_skip(s: Seq<char>, i: int)
    requires
        0 <= i <= s.len(),
        forall|k: int| 0 <= k < i ==> is_space(#[trigger] s[k]),
    ensures
        trim_start(s) == trim_start(s.skip(i)),
    decreases i,
{
    if i > 0 {
        assert(s.skip(1) =~= s.drop_first());
        lemma_trim_start_skip(s.drop_first(), i - 1);
        assert(s.drop_first().skip(i - 1) =~= s.skip(i));
    } else {
        assert(s.skip(0) =~= s);
    }
}

proof fn lemma_trim_end_take(s: Seq<char>, j: int)
    requires
        0 <= j <= s.len(),
        forall|k: int| j <= k < s.len() ==> is_space(#[trigger] s[k]),
    ensures
        trim_end(s) == trim_end(s.take(j)),
    decreases s.len() - j,
{
    if j < s.len() {
        lemma_trim_end_take(s.drop_last(), j);
        assert(s.drop_last().take(j) =~= s.take(j));
    } else {
        assert(s.take(j) =~= s);
    }
}

proof fn lemma_trim_start_head(s: Seq<char>)
    ensures
        trim_start(s).len() == 0 || !is_space(trim_start(s)[0]),
    decreases s.len(),
{
    if s.len() > 0 && is_space(s[0]) {
        lemma_trim_start_head(s.drop_first());
    }
}

proof fn lemma_trim_end_prefix(s: Seq<char>)
    ensures
        trim_end(s).len() <= s.len(),
        trim_end(s) == s.take(trim_end(s).len() as int),
        trim_end(s).len() == 0 || !is_space(trim_end(s).last()),
    decreases s.len(),
{
    if s.len() > 0 && is_space(s.last()) {
        lemma_trim_end_prefix(s.drop_last());
        assert(s.drop_last().take(trim_end(s).len() as int) =~= s.take(trim_end(s).len() as int));
    } else {
        assert(s.take(s.len() as int) =~= s);
    }
}

/// Trimming a trimmed text changes nothing.
pub proof fn lemma_trim_idempotent(s: Seq<char>)
    ensures
        trim(trim(s)) == trim(s),
{
    let u = trim_start(s);
    lemma_trim_start_head(s);
    lemma_trim_end_prefix(u);
    let v = trim_end(u);
    if v.len() > 0 {
        assert(v[0] == u[0]);
        assert(trim_start(v) == v);
    } else {
        assert(trim_start(v) == v);
    }
    assert(trim_end(v) == v);
}

proof fn lemma_ascii_trim_start(s: Seq<char>)
    requires
        is_ascii_text(s),
    ensures
        is_ascii_text(trim_start(s)),
    decreases s.len(),
{
    if s.len() > 0 && is_space(s[0]) {
        assert forall|i: int| 0 <= i < s.drop_first().len() implies (#[trigger] s.drop_first()[i] as int) < 128 by {
            assert(s.drop_first()[i] == s[i + 1]);
        }
        lemma_ascii_trim_start(s.drop_first());
    }
}

proof fn lemma_ascii_trim_end(s: Seq<char>)
    requires
        is_ascii_text(s),
    ensures
        is_ascii_text(trim_end(s)),
    decreases s.len(),
{
    if s.len() > 0 && is_space(s.last()) {
        assert forall|i: int| 0 <= i < s.drop_last().len() implies (#[trigger] s.drop_last()[i] as int) < 128 by {
            assert(s.drop_last()[i] == s[i]);
        }
        lemma_ascii_trim_end(s.drop_last());
    }
}

/// Trimming an ASCII text leaves an ASCII text.
pub proof fn lemma_ascii_trim(s: Seq<char>)
    requires
        is_ascii_text(s),
    ensures
        is_ascii_text(trim(s)),
{
    lemma_ascii_trim_start(s);
    lemma_ascii_trim_end(trim_start(s));
}

/// The ASCII upper case of an ASCII text is ASCII, and upper-casing it again
/// changes nothing.
pub proof fn lemma_ascii_upper_twice(s: Seq<char>)
    requires
        is_ascii_text(s),
    ensures
        is_ascii_text(s.map_values(|c: char| ascii_upper(c))),
        s.map_values(|c: char| ascii_upper(c)).map_values(|c: char| ascii_upper(c)) == s.map_values(
            |c: char| ascii_upper(c),
        ),
{
    let u = s.map_values(|c: char| ascii_upper(c));
    assert forall|i: int| 0 <= i < u.len() implies (#[trigger] u[i] as int) < 128 by {
        assert(u[i] == ascii_upper(s[i]));
    }
    assert(u.map_values(|c: char| ascii_upper(c)) =~= u);
}

/// The characters of `s` without leading and trailing white space.
pub fn trimmed(s: &Vec<char>) -> (r: Vec<char>)
    ensures
        r@ == trim(s@),
{
    let mut i: usize = 0;
    while i < s.len() && space(s[i])
        invariant
            i <= s@.len(),
            forall|k: int| 0 <= k < i ==> is_space(#[trigger] s@[k]),
        decreases s@.len() - i,
    {
        i = i + 1;
    }
    proof {
        lemma_trim_start_skip(s@, i as int);
    }
    let ghost t = s@.skip(i as int);
    let mut j: usize = s.len();
    while j > i && space(s[j - 1])
        invariant
            i <= j <= s@.len(),
            forall|k: int| j <= k < s@.len() ==> is_space(#[trigger] s@[k]),
        decreases j,
    {
        j = j - 1;
    }
    let mut r: Vec<char> = Vec::new();
    let mut k: usize = i;
    while k < j
        invariant
            i <= k <= j,
            j <= s@.len(),
            r@ == s@.subrange(i as int, k as int),
        decreases j - k,
    {
        r.push(s[k]);
        k = k + 1;
        assert(r@ =~= s@.subrange(i as int, k as int));
    }
    proof {
        if i < s@.len() {
            assert(t[0] == s@[i as int]);
            assert(!is_space(t[0]));
        }
        assert(trim_start(s@.skip(i as int)) == s@.skip(i as int));
        lemma_trim_end_take(t, j - i);
        assert(t.take(j - i) =~= s@.subrange(i as int, j as int));
        let u = s@.subrange(i as int, j as int);
        if j > i {
            assert(u.last() == s@[j - 1]);
        }
    }
    r
}

/// The pieces of `s` between the occurrences of `sep`, as `str::split` gives them.
pub open spec fn split(s: Seq<char>, sep: char) -> Seq<Seq<char>>
    decreases s.len(),
{
    if s.len() == 0 {
        seq![Seq::empty()]
    } else {
        let p = split(s.drop_last(), sep);
        if s.last() == sep {
            p.push(Seq::empty())
        } else {
            p.update(p.len() - 1, p.last().push(s.last()))
        }
    }
}

proof fn lemma_split_len(s: Seq<char>, sep: char)
    ensures
        split(s, sep).len() >= 1,
    decreases s.len(),
{
    if s.len() > 0 {
        lemma_split_len(s.drop_last(), sep);
    }
}

/// The pieces of an ASCII text are ASCII.
pub proof fn lemma_ascii_split(s: Seq<char>, sep: char)
    requires
        is_ascii_text(s),
    ensures
        forall|i: int| 0 <= i < split(s, sep).len() ==> is_ascii_text(#[trigger] split(s, sep)[i]),
    decreases s.len(),
{
    if s.len() > 0 {
        let d = s.drop_last();
        assert forall|i: int| 0 <= i < d.len() implies (#[trigger] d[i] as int) < 128 by {
            assert(d[i] == s[i]);
        }
        lemma_ascii_split(d, sep);
        lemma_split_len(d, sep);
        let p = split(d, sep);
        assert((s.last() as int) < 128);
        if s.last() != sep {
            let q = p.last().push(s.last());
            assert(is_ascii_text(p.last()));
            assert forall|i: int| 0 <= i < q.len() implies (#[trigger] q[i] as int) < 128 by {
                if i < p.last().len() {
                    assert(q[i] == p.last()[i]);
                }
            }
        }
    }
}

/// The pieces of `s` between the occurrences of `sep`.
pub fn split_at_char(s: &Vec<char>, sep: char) -> (r: Vec<Vec<char>>)
    ensures
        r@.len() == split(s@, sep).len(),
        r@.len() >= 1,
        forall|i: int| 0 <= i < r@.len() ==> (#[trigger] r@[i])@ == split(s@, sep)[i],
{
    let mut pieces: Vec<Vec<char>> = Vec::new();
    let mut cur: Vec<char> = Vec::new();
    let mut i: usize = 0;
    while i < s.len()
        invariant
            i <= s@.len(),
            pieces@.len() + 1 == split(s@.take(i as int), sep).len(),
            forall|k: int|
                0 <= k < pieces@.len() ==> (#[trigger] pieces@[k])@ == split(s@.take(i as int), sep)[k],
            cur@ == split(s@.take(i as int), sep).last(),
        decreases s@.len() - i,
    {
        let c = s[i];
        proof {
            let t = s@.take(i + 1);
            assert(t.drop_last() =~= s@.take(i as int));
            assert(t.last() == c);
            lemma_split_len(s@.take(i as int), sep);
        }
        if c == sep {
            let done = cur;
            pieces.push(done);
            cur = Vec::new();
            assert(cur@ =~= Seq::<char>::empty());
        } else {
            cur.push(c);
        }
        i = i + 1;
    }
    assert(s@.take(s@.len() as int) =~= s@);
    proof {
        lemma_split_len(s@, sep);
    }
    pieces.push(cur);
    pieces
}


/// `p` is a prefix of `s`.
pub open spec fn is_prefix(p: Seq<char>, s: Seq<char>) -> bool {
    p.len() <= s.len() && s.take(p.len() as int) == p
}

/// `p` is a suffix of `s`.
pub open spec fn is_suffix(p: Seq<char>, s: Seq<char>) -> bool {
    p.len() <= s.len() && s.skip(s.len() - p.len()) == p
}

/// Whether `p` is a prefix of `s`.
pub fn prefix_of(p: &Vec<char>, s: &Vec<char>) -> (r: bool)
    ensures
        r == is_prefix(p@, s@),
{
    if p.len() > s.len() {
        return false;
    }
    let mut i: usize = 0;
    while i < p.len()
        invariant
            p@.len() <= s@.len(),
            i <= p@.len(),
            forall|k: int| 0 <= k < i ==> p@[k] == s@[k],
        decreases p@.len() - i,
    {
        if p[i] != s[i] {
            assert(s@.take(p@.len() as int)[i as int] != p@[i as int]);
            return false;
        }
        i = i + 1;
    }
    assert(s@.take(p@.len() as int) =~= p@);
    true
}

/// Whether the text `s` ends with the text `p`.
pub fn ends_with(s: &str, p: &str) -> (r: bool)
    ensures
        r == is_suffix(p@, s@),
{
    let sv = chars_of(s);
    let pv = chars_of(p);
    if pv.len() > sv.len() {
        return false;
    }
    let off = sv.len() - pv.len();
    let mut i: usize = 0;
    while i < pv.len()
        invariant
            sv@ == s@,
            pv@ == p@,
            pv@.len() <= sv@.len(),
            off == sv@.len() - pv@.len(),
            sv@.len() <= usize::MAX,
            i <= pv@.len(),
            forall|k: int| 0 <= k < i ==> pv@[k] == sv@[off + k],
        decreases pv@.len() - i,
    {
        if pv[i] != sv[off + i] {
            assert(sv@.skip(off as int)[i as int] != pv@[i as int]);
            return false;
        }
        i = i + 1;
    }
    assert(sv@.skip(off as int) =~= pv@);
    true
}

/// Whether the text `s` holds the character `c`.
pub fn has_char(s: &str, c: char) -> (r: bool)
    ensures
        r == s@.contains(c),
{
    let v = chars_of(s);
    let mut i: usize = 0;
    while i < v.len()
        invariant
            v@ == s@,
            i <= v@.len(),
            forall|k: int| 0 <= k < i ==> v@[k] != c,
        decreases v@.len() - i,
    {
        if v[i] == c {
            assert(v@[i as int] == c);
            return true;
        }
        i = i + 1;
    }
    false
}


/// The character of a decimal digit.
pub open spec fn digit_char(d: nat) -> char {
    if d == 0 { '0' } else if d == 1 { '1' } else if d == 2 { '2' } else if d == 3 { '3' }
    else if d == 4 { '4' } else if d == 5 { '5' } else if d == 6 { '6' } else if d == 7 { '7' }
    else if d == 8 { '8' } else { '9' }
}

/// The decimal writing of `n`, without leading zeros.
pub open spec fn decimal(n: nat) -> Seq<char>
    decreases n,
{
    if n < 10 {
        seq![digit_char(n)]
    } else {
        decimal(n / 10).push(digit_char(n % 10))
    }
}

/// The number that a text of decimal digits writes, read from left to right.
pub open spec fn digits_value(s: Seq<char>) -> int
    decreases s.len(),
{
    if s.len() == 0 {
        0
    } else {
        digits_value(s.drop_last()) * 10 + ((s.last() as int) - ('0' as int))
    }
}

/// Every character of the text is one of `0` to `9`.
pub open spec fn all_digits(s: Seq<char>) -> bool {
    forall|i: int| 0 <= i < s.len() ==> ('0' as int) <= (#[trigger] s[i] as int) <= ('9' as int)
}

/// The digit of `d` is the character `d` places after `0`.
pub proof fn lemma_digit_char(d: nat)
    requires
        d < 10,
    ensures
        digit_char(d) as int == ('0' as int) + d,
        ('0' as int) == 48,
{
    assert(('0' as int) == 48);
    assert(('1' as int) == 49);
    assert(('2' as int) == 50);
    assert(('3' as int) == 51);
    assert(('4' as int) == 52);
    assert(('5' as int) == 53);
    assert(('6' as int) == 54);
    assert(('7' as int) == 55);
    assert(('8' as int) == 56);
    assert(('9' as int) == 57);
}

/// A number is written in decimal: digits `0` to `9` only, no leading zero
/// (but for zero itself), and read back they give the number.
pub proof fn lemma_decimal(n: nat)
    ensures
        decimal(n).len() > 0,
        all_digits(decimal(n)),
        digits_value(decimal(n)) == n,
        decimal(n).len() > 1 ==> decimal(n)[0] != '0',
    decreases n,
{
    if n < 10 {
        lemma_digit_char(n);
        let one = seq![digit_char(n)];
        assert(decimal(n) == one);
        assert(one.drop_last() =~= Seq::<char>::empty());
        assert(one.last() == digit_char(n));
        assert(digits_value(one.drop_last()) == 0);
        assert(digits_value(one) == digits_value(one.drop_last()) * 10 + ((digit_char(n) as int) - ('0' as int)));
    } else {
        lemma_decimal(n / 10);
        let p = decimal(n / 10);
        let d = digit_char(n % 10);
        lemma_digit_char(n % 10);
        assert(decimal(n) == p.push(d));
        assert(p.push(d).drop_last() =~= p);
        assert(p.push(d)[0] == p[0]);
        assert(n == (n / 10) * 10 + n % 10) by (nonlinear_arith);
        assert(digits_value(p.push(d)) == digits_value(p) * 10 + (n % 10) as int);
        if n / 10 >= 10 {
            assert(decimal(n / 10) == decimal(n / 10 / 10).push(digit_char(n / 10 % 10)));
        }
        assert forall|i: int| 0 <= i < p.push(d).len() implies ('0' as int) <= (#[trigger] p.push(d)[i] as int)
            <= ('9' as int) by {
            if i < p.len() {
                assert(p.push(d)[i] == p[i]);
            }
        }
        if n / 10 < 10 {
            lemma_digit_char(n / 10);
            assert(p[0] == digit_char(n / 10));
        }
    }
}

fn digit(d: u64) -> (r: char)
    requires
        d < 10,
    ensures
        r == digit_char(d as nat),
{
    if d == 0 { '0' } else if d == 1 { '1' } else if d == 2 { '2' } else if d == 3 { '3' }
    else if d == 4 { '4' } else if d == 5 { '5' } else if d == 6 { '6' } else if d == 7 { '7' }
    else if d == 8 { '8' } else { '9' }
}

/// The decimal writing of `n`.
pub fn decimal_text(n: u64) -> (r: String)
    ensures
        r@ == decimal(n as nat),
{
    let mut rev: Vec<char> = Vec::new();
    let mut m: u64 = n;
    while m >= 10
        invariant
            decimal(n as nat) == decimal(m as nat) + rev@.reverse(),
        decreases m,
    {
        let d = m % 10;
        let c = digit(d);
        proof {
            assert(decimal(m as nat) == decimal((m / 10) as nat).push(digit_char((m % 10) as nat)));
            assert(decimal((m / 10) as nat).push(c) + rev@.reverse() =~= decimal((m / 10) as nat)
                + rev@.push(c).reverse());
        }
        rev.push(c);
        m = m / 10;
    }
    let c = digit(m);
    rev.push(c);
    assert(decimal(m as nat) =~= seq![c]);
    assert(seq![c] + rev@.drop_last().reverse() =~= rev@.reverse());
    let mut out: Vec<char> = Vec::new();
    let mut i: usize = rev.len();
    while i > 0
        invariant
            i <= rev@.len(),
            out@ == rev@.reverse().take((rev@.len() - i) as int),
        decreases i,
    {
        i = i - 1;
        out.push(rev[i]);
        assert(out@ =~= rev@.reverse().take((rev@.len() - i) as int));
    }
    assert(rev@.reverse().take(rev@.len() as int) =~= rev@.reverse());
    string_of(out.as_slice())
}

} // verus!
