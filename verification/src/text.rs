//! Character-level text utilities with specifications over `Seq<char>`.
//!
//! Every exec function here works on `Vec<char>` / `&[char]` and is tied by
//! its contract to a spec function on `Seq<char>`; the rendering and parsing
//! code of the library is written against these spec functions.

use vstd::prelude::*;

verus! {

// ---------------------------------------------------------------------------
// Whitespace and trimming
// ---------------------------------------------------------------------------

/// Unicode `White_Space`, the property that `char::is_whitespace` tests.
pub open spec fn is_ws(c: char) -> bool {
    ||| ('\u{9}' <= c && c <= '\u{d}')
    ||| c == ' '
    ||| c == '\u{85}'
    ||| c == '\u{a0}'
    ||| c == '\u{1680}'
    ||| ('\u{2000}' <= c && c <= '\u{200a}')
    ||| c == '\u{2028}'
    ||| c == '\u{2029}'
    ||| c == '\u{202f}'
    ||| c == '\u{205f}'
    ||| c == '\u{3000}'
}

/// `s` without its leading whitespace.
pub open spec fn trim_start(s: Seq<char>) -> Seq<char>
    decreases s.len(),
{
    if s.len() > 0 && is_ws(s[0]) {
        trim_start(s.drop_first())
    } else {
        s
    }
}

/// `s` without its trailing whitespace.
pub open spec fn trim_end(s: Seq<char>) -> Seq<char>
    decreases s.len(),
{
    if s.len() > 0 && is_ws(s.last()) {
        trim_end(s.drop_last())
    } else {
        s
    }
}

/// `s` without leading and trailing whitespace.
pub open spec fn trim(s: Seq<char>) -> Seq<char> {
    trim_end(trim_start(s))
}

/// Whether `p` is a prefix of `s`.
pub open spec fn starts_with(s: Seq<char>, p: Seq<char>) -> bool {
    p.len() <= s.len() && s.take(p.len() as int) == p
}

/// `s` without the prefix `p`, if `s` starts with `p`.
pub open spec fn strip_prefix(s: Seq<char>, p: Seq<char>) -> Option<Seq<char>> {
    if starts_with(s, p) {
        Some(s.skip(p.len() as int))
    } else {
        None
    }
}

/// Index of the first occurrence of `c` in `s`.
pub open spec fn find_char(s: Seq<char>, c: char) -> Option<nat>
    decreases s.len(),
{
    if s.len() == 0 {
        None
    } else if s[0] == c {
        Some(0)
    } else {
        match find_char(s.drop_first(), c) {
            Some(i) => Some(i + 1),
            None => None,
        }
    }
}

/// `s` without its last character when that character is `c`.
pub open spec fn strip_last(s: Seq<char>, c: char) -> Seq<char> {
    if s.len() > 0 && s.last() == c {
        s.drop_last()
    } else {
        s
    }
}

/// The lines of `s` as `str::lines` yields them: split at `'\n'`, with one
/// `'\r'` removed before each `'\n'`; the text after the last `'\n'` is a line
/// only when it is not empty.
pub open spec fn lines(s: Seq<char>) -> Seq<Seq<char>>
    decreases s.len(),
{
    if s.len() == 0 {
        Seq::empty()
    } else {
        proof {
            lemma_find_char_bound(s, '\n');
        }
        match find_char(s, '\n') {
            None => seq![s],
            Some(i) => seq![strip_last(s.take(i as int), '\r')] + lines(s.skip(i + 1 as int)),
        }
    }
}

/// The ASCII digit of a number below ten.
pub open spec fn digit_char(d: nat) -> char {
    if d == 0 { '0' }
    else if d == 1 { '1' }
    else if d == 2 { '2' }
    else if d == 3 { '3' }
    else if d == 4 { '4' }
    else if d == 5 { '5' }
    else if d == 6 { '6' }
    else if d == 7 { '7' }
    else if d == 8 { '8' }
    else { '9' }
}

/// The decimal representation of `n`, without leading zeros.
pub open spec fn decimal(n: nat) -> Seq<char>
    decreases n,
{
    if n < 10 {
        seq![digit_char(n)]
    } else {
        decimal(n / 10).push(digit_char(n % 10))
    }
}

/// Whether `c` is an ASCII digit.
pub open spec fn is_digit(c: char) -> bool {
    '0' <= c && c <= '9'
}

/// The number that a sequence of ASCII digits denotes.
pub open spec fn digits_value(s: Seq<char>) -> nat
    decreases s.len(),
{
    if s.len() == 0 {
        0
    } else {
        digits_value(s.drop_last()) * 10 + ((s.last() as nat) - ('0' as nat)) as nat
    }
}

/// Whether every character of `d` is an ASCII digit.
pub open spec fn all_digits(d: Seq<char>) -> bool {
    forall|i: int| 0 <= i < d.len() ==> is_digit(#[trigger] d[i])
}

/// `s` without one leading `'+'`.
pub open spec fn unsigned_part(s: Seq<char>) -> Seq<char> {
    if s.len() > 0 && s[0] == '+' {
        s.drop_first()
    } else {
        s
    }
}

/// What `str::parse::<u64>` gives: an optional `'+'`, then one or more ASCII
/// digits whose value fits in a `u64`.
pub open spec fn parse_u64(s: Seq<char>) -> Option<u64> {
    let d = unsigned_part(s);
    if d.len() > 0 && all_digits(d) && digits_value(d) <= u64::MAX {
        Some(digits_value(d) as u64)
    } else {
        None
    }
}

// ---------------------------------------------------------------------------
// Lemmas
// ---------------------------------------------------------------------------

/// `trim_start` removes exactly the whitespace run that ends at `k`.
pub proof fn lemma_trim_start_at(s: Seq<char>, k: int)
    requires
        0 <= k <= s.len(),
        forall|i: int| 0 <= i < k ==> is_ws(#[trigger] s[i]),
        k == s.len() || !is_ws(s[k]),
    ensures
        trim_start(s) == s.skip(k),
    decreases k,
{
    if k == 0 {
        assert(s.skip(0) =~= s);
    } else {
        let t = s.drop_first();
        assert forall|i: int| 0 <= i < k - 1 implies is_ws(#[trigger] t[i]) by {
            assert(t[i] == s[i + 1]);
        }
        lemma_trim_start_at(t, k - 1);
        assert(t.skip(k - 1) =~= s.skip(k));
    }
}

/// `trim_end` removes exactly the whitespace run that starts at `k`.
pub proof fn lemma_trim_end_at(s: Seq<char>, k: int)
    requires
        0 <= k <= s.len(),
        forall|i: int| k <= i < s.len() ==> is_ws(#[trigger] s[i]),
        k == 0 || !is_ws(s[k - 1]),
    ensures
        trim_end(s) == s.take(k),
    decreases s.len() - k,
{
    if k == s.len() {
        assert(s.take(k) =~= s);
    } else {
        let t = s.drop_last();
        assert forall|i: int| k <= i < t.len() implies is_ws(#[trigger] t[i]) by {
            assert(t[i] == s[i]);
        }
        lemma_trim_end_at(t, k);
        assert(t.take(k) =~= s.take(k));
    }
}

/// `find_char` gives an index of `s`.
pub proof fn lemma_find_char_bound(s: Seq<char>, c: char)
    ensures
        find_char(s, c) matches Some(i) ==> i < s.len() && s[i as int] == c,
    decreases s.len(),
{
    if s.len() > 0 && s[0] != c {
        lemma_find_char_bound(s.drop_first(), c);
    }
}

/// `find_char` finds the first occurrence.
pub proof fn lemma_find_char(s: Seq<char>, c: char, k: int)
    requires
        0 <= k <= s.len(),
        forall|i: int| 0 <= i < k ==> #[trigger] s[i] != c,
    ensures
        k < s.len() && s[k] == c ==> find_char(s, c) == Some(k as nat),
        k == s.len() ==> find_char(s, c) is None,
    decreases k,
{
    if k > 0 {
        let t = s.drop_first();
        assert forall|i: int| 0 <= i < k - 1 implies #[trigger] t[i] != c by {
            assert(t[i] == s[i + 1]);
        }
        lemma_find_char(t, c, k - 1);
    }
}

/// A text without line breaks keeps none when cut to a prefix.
pub proof fn lemma_prefix_single_line(s: Seq<char>, n: int)
    requires
        !s.contains('\n'),
        0 <= n <= s.len(),
    ensures
        !s.take(n).contains('\n'),
{
    if s.take(n).contains('\n') {
        let j = choose|j: int| 0 <= j < s.take(n).len() && s.take(n)[j] == '\n';
        assert(s[j] == '\n');
    }
}

/// No character before the first occurrence of `c` is `c`.
pub proof fn lemma_find_char_first(s: Seq<char>, c: char)
    ensures
        find_char(s, c) matches Some(i) ==> forall|j: int| 0 <= j < i ==> s[j] != c,
        find_char(s, c) is None ==> forall|j: int| 0 <= j < s.len() ==> s[j] != c,
    decreases s.len(),
{
    lemma_find_char_bound(s, c);
    if s.len() > 0 && s[0] != c {
        let t = s.drop_first();
        lemma_find_char_first(t, c);
        assert forall|j: int| 1 <= j < s.len() implies #[trigger] s[j] == t[j - 1] by {}
    }
}

/// The lines of a text that ends with a line break, followed by more text,
/// are the lines of each part.
pub proof fn lemma_lines_append(a: Seq<char>, b: Seq<char>)
    requires
        a.len() == 0 || a.last() == '\n',
    ensures
        lines(a + b) == lines(a) + lines(b),
    decreases a.len(),
{
    if a.len() == 0 {
        assert(a + b =~= b);
        assert(lines(a) =~= Seq::<Seq<char>>::empty());
        assert(lines(b) =~= lines(a) + lines(b));
    } else {
        let s = a + b;
        lemma_find_char_first(a, '\n');
        if find_char(a, '\n') is None {
            assert(a[a.len() - 1] == '\n');
        }
        lemma_find_char_bound(a, '\n');
        let i: int = find_char(a, '\n')->0 as int;
        assert forall|j: int| 0 <= j < i implies #[trigger] s[j] != '\n' by {
            assert(s[j] == a[j]);
        }
        lemma_find_char(s, '\n', i);
        assert(s.take(i) =~= a.take(i));
        let rest = a.skip(i + 1);
        assert(s.skip(i + 1) =~= rest + b);
        if rest.len() > 0 {
            assert(rest.last() == a.last());
        }
        lemma_lines_append(rest, b);
        assert(lines(a) == seq![strip_last(a.take(i), '\r')] + lines(rest));
        assert(lines(s) == seq![strip_last(s.take(i), '\r')] + lines(s.skip(i + 1)));
        assert(lines(s) =~= lines(a) + lines(b));
    }
}

/// No line of a text holds a line break.
pub proof fn lemma_lines_single_line(s: Seq<char>)
    ensures
        forall|j: int| 0 <= j < lines(s).len() ==> !(#[trigger] lines(s)[j]).contains('\n'),
    decreases s.len(),
{
    if s.len() > 0 {
        lemma_find_char_first(s, '\n');
        lemma_find_char_bound(s, '\n');
        match find_char(s, '\n') {
            None => {
                assert(lines(s) == seq![s]);
                if s.contains('\n') {
                    let j = choose|j: int| 0 <= j < s.len() && s[j] == '\n';
                }
            },
            Some(i) => {
                let t = s.take(i as int);
                if t.contains('\n') {
                    let j = choose|j: int| 0 <= j < t.len() && t[j] == '\n';
                    assert(s[j] == '\n');
                }
                let first = strip_last(t, '\r');
                if t.len() > 0 && t.last() == '\r' {
                    lemma_prefix_single_line(t, t.len() - 1);
                    assert(t.take(t.len() - 1) =~= t.drop_last());
                }
                lemma_lines_single_line(s.skip(i + 1 as int));
                let r = lines(s.skip(i + 1 as int));
                assert(lines(s) == seq![first] + r);
                assert forall|j: int| 0 <= j < lines(s).len() implies !(#[trigger] lines(s)[j]).contains('\n') by {
                    if j > 0 {
                        assert(lines(s)[j] == r[j - 1]);
                    }
                }
            },
        }
    }
}

/// A text without line breaks, ended by one, is a single line (without a
/// `'\r'` that stood before the break).
pub proof fn lemma_lines_single(y: Seq<char>)
    requires
        !y.contains('\n'),
    ensures
        lines(y + seq!['\n']) == seq![strip_last(y, '\r')],
{
    let s = y + seq!['\n'];
    assert forall|j: int| 0 <= j < y.len() implies #[trigger] s[j] != '\n' by {
        assert(s[j] == y[j]);
        if y[j] == '\n' {
            assert(y.contains('\n'));
        }
    }
    lemma_find_char(s, '\n', y.len() as int);
    assert(s.take(y.len() as int) =~= y);
    assert(s.skip(y.len() + 1int) =~= Seq::<char>::empty());
    assert(lines(s.skip(y.len() + 1int)) =~= Seq::<Seq<char>>::empty());
    assert(lines(s) =~= seq![strip_last(y, '\r')]);
}

/// Trimming the end leaves a prefix.
pub proof fn lemma_trim_end_prefix(s: Seq<char>)
    ensures
        trim_end(s).len() <= s.len(),
        trim_end(s) =~= s.take(trim_end(s).len() as int),
        s.len() > 0 && !is_ws(s[0]) ==> trim_end(s).len() > 0,
    decreases s.len(),
{
    if s.len() > 0 && is_ws(s.last()) {
        lemma_trim_end_prefix(s.drop_last());
        let t = trim_end(s.drop_last());
        assert(s.drop_last().take(t.len() as int) =~= s.take(t.len() as int));
        if s.len() > 1 && !is_ws(s[0]) {
            assert(s.drop_last()[0] == s[0]);
        }
    }
}

/// Decimal numbers hold no line break.
pub proof fn lemma_decimal_single_line(n: nat)
    ensures
        !decimal(n).contains('\n'),
{
    lemma_decimal_digits(n);
    if decimal(n).contains('\n') {
        let j = choose|j: int| 0 <= j < decimal(n).len() && decimal(n)[j] == '\n';
        assert(is_digit(decimal(n)[j]));
    }
}

/// The value of a digit string grows by appending a digit.
pub proof fn lemma_digits_value_monotone(s: Seq<char>, k: int)
    requires
        0 <= k <= s.len(),
        forall|i: int| 0 <= i < s.len() ==> is_digit(#[trigger] s[i]),
    ensures
        digits_value(s.take(k)) <= digits_value(s),
    decreases s.len() - k,
{
    if k < s.len() {
        let t = s.drop_last();
        assert forall|i: int| 0 <= i < t.len() implies is_digit(#[trigger] t[i]) by {
            assert(t[i] == s[i]);
        }
        lemma_digits_value_monotone(t, k);
        assert(t.take(k) =~= s.take(k));
    } else {
        assert(s.take(k) =~= s);
    }
}

/// The views of a sequence of char vectors.
pub open spec fn chars_view(v: Seq<Vec<char>>) -> Seq<Seq<char>> {
    v.map_values(|w: Vec<char>| w@)
}

/// Whether `k` is among `v`.
pub fn contains_chars(v: &Vec<Vec<char>>, k: &[char]) -> (res: bool)
    ensures
        res == chars_view(v@).contains(k@),
{
    let ghost cv = chars_view(v@);
    for i in 0..v.len()
        invariant
            cv == chars_view(v@),
            forall|j: int| 0 <= j < i ==> cv[j] != k@,
    {
        if chars_eq(v[i].as_slice(), k) {
            assert(cv[i as int] == k@);
            return true;
        }
    }
    assert forall|x: Seq<char>| #[trigger] cv.contains(x) implies x != k@ by {
        let j = choose|j: int| 0 <= j < cv.len() && cv[j] == x;
        assert(cv[j] != k@);
    }
    false
}

/// Pushing a vector pushes its view.
pub proof fn lemma_chars_view_push(v: Seq<Vec<char>>, x: Vec<char>)
    ensures
        chars_view(v.push(x)) == chars_view(v).push(x@),
{
    assert(chars_view(v.push(x)) =~= chars_view(v).push(x@));
}

/// The digit of `d` stands for `d`.
proof fn lemma_digit_char(d: nat)
    requires
        d < 10,
    ensures
        is_digit(digit_char(d)),
        digit_char(d) != '+',
        ((digit_char(d) as nat) - ('0' as nat)) as nat == d,
{
}

/// The decimal representation is made of digits and is not empty.
pub(crate) proof fn lemma_decimal_digits(n: nat)
    ensures
        decimal(n).len() > 0,
        all_digits(decimal(n)),
        decimal(n)[0] != '+',
        digits_value(decimal(n)) == n,
    decreases n,
{
    lemma_digit_char(n % 10);
    if n < 10 {
        let t = decimal(n);
        assert(t.drop_last() =~= Seq::<char>::empty());
        assert(n % 10 == n);
        assert(t.last() == digit_char(n));
        assert(digits_value(t) == digits_value(t.drop_last()) * 10 + ((t.last() as nat) - ('0' as nat)) as nat);
    } else {
        lemma_decimal_digits(n / 10);
        let s = decimal(n / 10);
        let t = s.push(digit_char(n % 10));
        assert(t.drop_last() =~= s);
        assert forall|i: int| 0 <= i < t.len() implies is_digit(#[trigger] t[i]) by {
            if i < s.len() {
                assert(t[i] == s[i]);
            }
        }
        assert(t[0] == s[0]);
        assert(t.last() == digit_char(n % 10));
        assert(digits_value(t) == digits_value(s) * 10 + (n % 10));
        assert(n == (n / 10) * 10 + n % 10) by {
            vstd::arithmetic::div_mod::lemma_fundamental_div_mod(n as int, 10);
        }
    }
}

/// Reading back a written number gives the number: `str::parse::<u64>` of
/// the decimal representation of `n` is `n`.
pub proof fn lemma_parse_decimal(n: u64)
    ensures
        parse_u64(decimal(n as nat)) == Some(n),
{
    lemma_decimal_digits(n as nat);
    assert(unsigned_part(decimal(n as nat)) == decimal(n as nat));
}

// ---------------------------------------------------------------------------
// Exec functions
// ---------------------------------------------------------------------------

/// The characters of `s`, in order.
pub fn to_chars(s: &str) -> (res: Vec<char>)
    ensures
        res@ == s@,
{
    let mut res: Vec<char> = Vec::new();
    for c in it: s.chars()
        invariant
            res@ == it.seq().take(it.index() as int),
            it.seq() == s@,
    {
        res.push(c);
    }
    res
}

/// The string whose characters are `cs`, built by `String::from_iter`; the
/// contract states that the string holds exactly those characters in order.
#[verifier::external_body]
pub(crate) fn chars_to_string(cs: &[char]) -> (res: String)
    ensures
        res@ == cs@,
{
    String::from_iter(cs.iter())
}

/// Appends the characters of `s` to `out`.
pub fn push_all(out: &mut Vec<char>, s: &[char])
    ensures
        final(out)@ == old(out)@ + s@,
{
    let ghost start = out@;
    for i in 0..s.len()
        invariant
            out@ == start + s@.take(i as int),
    {
        out.push(s[i]);
        assert(s@.take(i + 1) =~= s@.take(i as int).push(s[i as int]));
    }
    assert(s@.take(s.len() as int) =~= s@);
}

/// A copy of `s[from..to]`.
pub fn copy_range(s: &[char], from: usize, to: usize) -> (res: Vec<char>)
    requires
        from <= to <= s.len(),
    ensures
        res@ == s@.subrange(from as int, to as int),
{
    let mut res: Vec<char> = Vec::new();
    let mut i = from;
    while i < to
        invariant
            from <= i <= to <= s.len(),
            res@ == s@.subrange(from as int, i as int),
        decreases to - i,
    {
        res.push(s[i]);
        i += 1;
        assert(s@.subrange(from as int, i as int) =~= s@.subrange(from as int, i - 1).push(s[i - 1]));
    }
    res
}

/// Whether `c` is whitespace, as `char::is_whitespace` decides.
pub fn is_whitespace(c: char) -> (res: bool)
    ensures
        res == is_ws(c),
{
    ('\u{9}' <= c && c <= '\u{d}') || c == ' ' || c == '\u{85}' || c == '\u{a0}' || c
        == '\u{1680}' || ('\u{2000}' <= c && c <= '\u{200a}') || c == '\u{2028}' || c == '\u{2029}'
        || c == '\u{202f}' || c == '\u{205f}' || c == '\u{3000}'
}

/// The number of leading whitespace characters of `s`.
fn leading_ws(s: &[char]) -> (k: usize)
    ensures
        k <= s.len(),
        trim_start(s@) == s@.skip(k as int),
{
    let mut k: usize = 0;
    while k < s.len() && is_whitespace(s[k])
        invariant
            k <= s.len(),
            forall|i: int| 0 <= i < k ==> is_ws(#[trigger] s@[i]),
        decreases s.len() - k,
    {
        k += 1;
    }
    proof {
        lemma_trim_start_at(s@, k as int);
    }
    k
}

/// The length of `s` without its trailing whitespace.
fn trimmed_end_len(s: &[char]) -> (k: usize)
    ensures
        k <= s.len(),
        trim_end(s@) == s@.take(k as int),
{
    let mut k: usize = s.len();
    while k > 0 && is_whitespace(s[k - 1])
        invariant
            k <= s.len(),
            forall|i: int| k <= i < s.len() ==> is_ws(#[trigger] s@[i]),
        decreases k,
    {
        k -= 1;
    }
    proof {
        lemma_trim_end_at(s@, k as int);
    }
    k
}

/// `s` without leading and trailing whitespace.
pub fn trim_chars(s: &[char]) -> (res: Vec<char>)
    ensures
        res@ == trim(s@),
{
    let a = leading_ws(s);
    let rest = copy_range(s, a, s.len());
    let b = trimmed_end_len(rest.as_slice());
    proof {
        assert(rest@ =~= s@.skip(a as int));
    }
    copy_range(rest.as_slice(), 0, b)
}

/// `s` without trailing whitespace.
pub fn trim_end_chars(s: &[char]) -> (res: Vec<char>)
    ensures
        res@ == trim_end(s@),
{
    let b = trimmed_end_len(s);
    copy_range(s, 0, b)
}

/// Whether `s` starts with `p`.
pub fn starts_with_chars(s: &[char], p: &[char]) -> (res: bool)
    ensures
        res == starts_with(s@, p@),
{
    if p.len() > s.len() {
        return false;
    }
    let mut i: usize = 0;
    while i < p.len()
        invariant
            i <= p.len() <= s.len(),
            forall|j: int| 0 <= j < i ==> s@[j] == p@[j],
        decreases p.len() - i,
    {
        if s[i] != p[i] {
            assert(s@.take(p.len() as int)[i as int] != p@[i as int]);
            return false;
        }
        i += 1;
    }
    assert(s@.take(p.len() as int) =~= p@);
    true
}

/// Whether `a` and `b` hold the same characters.
pub fn chars_eq(a: &[char], b: &[char]) -> (res: bool)
    ensures
        res == (a@ == b@),
{
    if a.len() != b.len() {
        return false;
    }
    let mut i: usize = 0;
    while i < a.len()
        invariant
            i <= a.len() == b.len(),
            forall|j: int| 0 <= j < i ==> a@[j] == b@[j],
        decreases a.len() - i,
    {
        if a[i] != b[i] {
            return false;
        }
        i += 1;
    }
    assert(a@ =~= b@);
    true
}

/// `s` without the prefix `p`, if it has it.
pub fn strip_prefix_chars(s: &[char], p: &[char]) -> (res: Option<Vec<char>>)
    ensures
        match res {
            Some(r) => strip_prefix(s@, p@) == Some(r@),
            None => strip_prefix(s@, p@) is None,
        },
{
    if starts_with_chars(s, p) {
        Some(copy_range(s, p.len(), s.len()))
    } else {
        None
    }
}

/// Index of the first `c` in `s`.
pub fn find_char_index(s: &[char], c: char) -> (res: Option<usize>)
    ensures
        match res {
            Some(i) => find_char(s@, c) == Some(i as nat) && i < s.len(),
            None => find_char(s@, c) is None,
        },
{
    let mut i: usize = 0;
    while i < s.len()
        invariant
            i <= s.len(),
            forall|j: int| 0 <= j < i ==> #[trigger] s@[j] != c,
        decreases s.len() - i,
    {
        if s[i] == c {
            proof {
                lemma_find_char(s@, c, i as int);
            }
            return Some(i);
        }
        i += 1;
    }
    proof {
        lemma_find_char(s@, c, i as int);
    }
    None
}

/// The lines of `s`, as `str::lines` yields them.
pub fn split_lines(s: &[char]) -> (res: Vec<Vec<char>>)
    ensures
        res@.len() == lines(s@).len(),
        forall|i: int| 0 <= i < res@.len() ==> #[trigger] res@[i]@ == lines(s@)[i],
{
    let mut res: Vec<Vec<char>> = Vec::new();
    let mut start: usize = 0;
    let ghost mut done: Seq<Seq<char>> = Seq::empty();
    assert(s@.skip(0) =~= s@);
    while start < s.len()
        invariant
            start <= s.len(),
            lines(s@) == done + lines(s@.skip(start as int)),
            res@.len() == done.len(),
            forall|i: int| 0 <= i < res@.len() ==> #[trigger] res@[i]@ == done[i],
        decreases s.len() - start,
    {
        let rest = copy_range(s, start, s.len());
        assert(rest@ =~= s@.skip(start as int));
        match find_char_index(rest.as_slice(), '\n') {
            None => {
                proof {
                    done = done.push(rest@);
                    assert(s@.skip(s.len() as int) =~= Seq::<char>::empty());
                    assert(lines(s@.skip(start as int)) == seq![rest@]);
                    assert(lines(s@) =~= done + lines(s@.skip(s.len() as int)));
                }
                res.push(rest);
                start = s.len();
            },
            Some(i) => {
                let mut line = copy_range(rest.as_slice(), 0, i);
                if line.len() > 0 && line[line.len() - 1] == '\r' {
                    line.pop();
                }
                proof {
                    assert(line@ == strip_last(rest@.take(i as int), '\r'));
                    assert(rest@.skip(i + 1) =~= s@.skip(start + i + 1));
                    assert(lines(s@.skip(start as int)) == seq![line@] + lines(s@.skip(start + i
                        + 1)));
                    done = done.push(line@);
                    assert(lines(s@) =~= done + lines(s@.skip(start + i + 1)));
                }
                res.push(line);
                start = start + i + 1;
            },
        }
    }
    proof {
        assert(s@.skip(start as int) =~= Seq::<char>::empty());
        assert(done + lines(s@.skip(start as int)) =~= done);
    }
    res
}

/// The ASCII digit for a number below ten.
fn digit(d: u64) -> (c: char)
    requires
        d < 10,
    ensures
        c == digit_char(d as nat),
{
    if d == 0 { '0' }
    else if d == 1 { '1' }
    else if d == 2 { '2' }
    else if d == 3 { '3' }
    else if d == 4 { '4' }
    else if d == 5 { '5' }
    else if d == 6 { '6' }
    else if d == 7 { '7' }
    else if d == 8 { '8' }
    else { '9' }
}

/// The decimal representation of `n`.
pub fn decimal_chars(n: u64) -> (res: Vec<char>)
    ensures
        res@ == decimal(n as nat),
    decreases n,
{
    if n < 10 {
        let mut v: Vec<char> = Vec::new();
        v.push(digit(n));
        assert(v@ =~= seq![digit_char(n as nat)]);
        v
    } else {
        let mut v = decimal_chars(n / 10);
        v.push(digit(n % 10));
        v
    }
}

/// The decimal representation of a `usize`.
pub fn decimal_usize(n: usize) -> (res: Vec<char>)
    ensures
        res@ == decimal(n as nat),
{
    decimal_chars(n as u64)
}

/// `str::parse::<u64>` on the characters `s`.
pub fn parse_u64_chars(s: &[char]) -> (res: Option<u64>)
    ensures
        res == parse_u64(s@),
{
    let start: usize = if s.len() > 0 && s[0] == '+' { 1 } else { 0 };
    let ghost d = unsigned_part(s@);
    assert(d =~= s@.skip(start as int));
    if start == s.len() {
        assert(d.len() == 0);
        return None;
    }
    let mut value: u64 = 0;
    let mut i: usize = start;
    while i < s.len()
        invariant
            start <= i <= s.len(),
            d == unsigned_part(s@),
            d =~= s@.skip(start as int),
            forall|j: int| 0 <= j < i - start ==> is_digit(#[trigger] d[j]),
            value == digits_value(d.take(i - start)),
        decreases s.len() - i,
    {
        let c = s[i];
        if !('0' <= c && c <= '9') {
            assert(d[i - start] == c);
            assert(!is_digit(d[i - start]));
            assert(!all_digits(d));
            return None;
        }
        let dv = (c as u64) - ('0' as u64);
        proof {
            let t = d.take(i - start + 1);
            assert(t.drop_last() =~= d.take(i - start));
            assert(t.last() == c);
        }
        match value.checked_mul(10) {
            Some(m) => match m.checked_add(dv) {
                Some(v2) => {
                    value = v2;
                },
                None => {
                    proof {
                        assert forall|j: int| 0 <= j < i - start + 1 implies is_digit(
                            #[trigger] d.take(i - start + 1)[j],
                        ) by {
                            assert(d.take(i - start + 1)[j] == d[j]);
                        }
                        lemma_parse_overflow(d, (i - start + 1) as int);
                    }
                    return None;
                },
            },
            None => {
                proof {
                    assert forall|j: int| 0 <= j < i - start + 1 implies is_digit(
                        #[trigger] d.take(i - start + 1)[j],
                    ) by {
                        assert(d.take(i - start + 1)[j] == d[j]);
                    }
                    assert(value * 10 > u64::MAX);
                    assert(digits_value(d.take(i - start + 1)) > u64::MAX) by (nonlinear_arith)
                        requires
                            digits_value(d.take(i - start + 1)) >= value * 10,
                            value * 10 > u64::MAX,
                    ;
                    lemma_parse_overflow(d, (i - start + 1) as int);
                }
                return None;
            },
        }
        i += 1;
    }
    assert(d.take(i - start) =~= d);
    Some(value)
}

/// When a prefix of digits already exceeds `u64::MAX`, so does the whole
/// string, or it holds a non-digit.
proof fn lemma_parse_overflow(d: Seq<char>, k: int)
    requires
        0 < k <= d.len(),
        forall|j: int| 0 <= j < k ==> is_digit(#[trigger] d.take(k)[j]),
        digits_value(d.take(k)) > u64::MAX,
    ensures
        !all_digits(d) || digits_value(d) > u64::MAX,
{
    if all_digits(d) {
        lemma_digits_value_monotone(d, k);
    }
}

} // verus!
