//! Character-level string utilities: substring search, splitting, joining,
//! and decimal conversion, each with an exact specification.
use vstd::prelude::*;

verus! {

broadcast use vstd::string::group_string_axioms;

/// The separator `"\r\n"` that ends every HTTP line.
pub open spec fn crlf() -> Seq<char> {
    seq!['\r', '\n']
}

/// The blank line `"\r\n\r\n"` between header block and body.
pub open spec fn crlf2() -> Seq<char> {
    crlf() + crlf()
}

/// A single space, the status-line token separator.
pub open spec fn sp() -> Seq<char> {
    seq![' ']
}

/// The `": "` separator between a header name and its value.
pub open spec fn colon_sp() -> Seq<char> {
    seq![':', ' ']
}

/// True when `pat` occurs in `s` starting at position `i`.
pub open spec fn match_at(s: Seq<char>, pat: Seq<char>, i: int) -> bool {
    &&& 0 <= i
    &&& i + pat.len() <= s.len()
    &&& s.subrange(i, i + pat.len()) == pat
}

/// The first position at or after `i` where `pat` occurs in `s`, if any.
pub open spec fn first_match_from(s: Seq<char>, pat: Seq<char>, i: int) -> Option<int>
    decreases s.len() - i,
{
    if pat.len() == 0 || i + pat.len() > s.len() {
        None
    } else if match_at(s, pat, i) {
        Some(i)
    } else {
        first_match_from(s, pat, i + 1)
    }
}

/// `s` split on every occurrence of `pat`, scanning left to right.
pub open spec fn spec_split(s: Seq<char>, pat: Seq<char>) -> Seq<Seq<char>>
    decreases s.len(),
{
    if pat.len() == 0 {
        seq![s]
    } else {
        match first_match_from(s, pat, 0) {
            Option::None => seq![s],
            Option::Some(i) => if 0 <= i && i + pat.len() <= s.len() {
                seq![s.subrange(0, i)] + spec_split(s.skip(i + pat.len()), pat)
            } else {
                seq![s]
            },
        }
    }
}

/// The parts joined with `sep` between consecutive parts.
pub open spec fn spec_join(parts: Seq<Seq<char>>, sep: Seq<char>) -> Seq<char>
    decreases parts.len(),
{
    if parts.len() == 0 {
        Seq::empty()
    } else if parts.len() == 1 {
        parts[0]
    } else {
        parts[0] + sep + spec_join(parts.drop_first(), sep)
    }
}

/// True when `c` is a decimal digit.
pub open spec fn is_digit(c: char) -> bool {
    '0' <= c && c <= '9'
}

/// The numeric value of a digit character.
pub open spec fn digit_val(c: char) -> int {
    c as int - '0' as int
}

/// True when `s` is one or more decimal digits.
pub open spec fn is_digits(s: Seq<char>) -> bool {
    s.len() > 0 && forall|i: int| 0 <= i < s.len() ==> is_digit(#[trigger] s[i])
}

/// The number the digit string `s` denotes.
pub open spec fn dec_val(s: Seq<char>) -> int
    decreases s.len(),
{
    if s.len() == 0 {
        0
    } else {
        dec_val(s.drop_last()) * 10 + digit_val(s.last())
    }
}

/// The digit character for a value below ten.
pub open spec fn digit_char(d: int) -> char {
    if d == 0 { '0' }
    else if d == 1 { '1' }
    else if d == 2 { '2' }
    else if d == 3 { '3' }
    else if d == 4 { '4' }
    else if d == 5 { '5' }
    else if d == 6 { '6' }
    else if d == 7 { '7' }
    else if d == 8 { '8' }
    else { '9' }
}

/// The decimal digit string of `n`, most significant digit first.
pub open spec fn dec_seq(n: int) -> Seq<char>
    decreases n,
{
    if n < 10 {
        seq![digit_char(n)]
    } else {
        dec_seq(n / 10).push(digit_char(n % 10))
    }
}

/// Whether `pat` occurs in `s` at position `i`, by character comparison.
pub fn str_match_at(s: &str, pat: &str, i: usize) -> (r: bool)
    requires
        i + pat@.len() <= s@.len(),
    ensures
        r == match_at(s@, pat@, i as int),
{
    let n = s.unicode_len();
    let m = pat.unicode_len();
    let mut j: usize = 0;
    while j < m
        invariant
            n == s@.len(),
            i + m <= n,
            m == pat@.len(),
            0 <= j <= m,
            forall|k: int| 0 <= k < j ==> s@[i + k] == pat@[k],
        decreases m - j,
    {
        if s.get_char(i + j) != pat.get_char(j) {
            assert(s@.subrange(i as int, i + pat@.len())[j as int] != pat@[j as int]);
            return false;
        }
        j += 1;
    }
    assert(s@.subrange(i as int, i + pat@.len()) =~= pat@);
    true
}

/// The first occurrence of `pat` in `s` at or after `from`.
pub fn find_from(s: &str, pat: &str, from: usize) -> (r: Option<usize>)
    requires
        pat@.len() > 0,
    ensures
        match r {
            Option::Some(i) => first_match_from(s@, pat@, from as int) == Option::Some(i as int),
            Option::None => first_match_from(s@, pat@, from as int) is None,
        },
{
    let n = s.unicode_len();
    let m = pat.unicode_len();
    if m > n {
        proof {
            lemma_first_match_none(s@, pat@, from as int);
        }
        return None;
    }
    if from > n - m {
        return None;
    }
    let mut i: usize = from;
    while i <= n - m
        invariant
            n == s@.len(),
            m == pat@.len(),
            0 < m <= n,
            from <= i,
            first_match_from(s@, pat@, from as int) == first_match_from(s@, pat@, i as int),
        decreases n - i,
    {
        if str_match_at(s, pat, i) {
            return Some(i);
        }
        i += 1;
    }
    None
}

/// An unmatchable pattern is never found.
proof fn lemma_first_match_none(s: Seq<char>, pat: Seq<char>, i: int)
    requires
        pat.len() > s.len(),
    ensures
        first_match_from(s, pat, i) is None,
    decreases s.len() - i,
{
    if i + pat.len() <= s.len() {
        lemma_first_match_none(s, pat, i + 1);
    }
}

/// A found occurrence is within bounds.
pub proof fn lemma_first_match_in_range(s: Seq<char>, pat: Seq<char>, i: int)
    requires
        first_match_from(s, pat, i) is Some,
        i >= 0,
        pat.len() > 0,
    ensures
        i <= first_match_from(s, pat, i)->Some_0,
        first_match_from(s, pat, i)->Some_0 + pat.len() <= s.len(),
        match_at(s, pat, first_match_from(s, pat, i)->Some_0),
    decreases s.len() - i,
{
    if i + pat.len() > s.len() {
    } else if match_at(s, pat, i) {
    } else {
        lemma_first_match_in_range(s, pat, i + 1);
    }
}

/// `s` split on every occurrence of `pat`, as owned strings.
pub fn split_str(s: &str, pat: &str) -> (r: Vec<String>)
    requires
        pat@.len() > 0,
    ensures
        r@.map_values(|p: String| p@) == spec_split(s@, pat@),
    decreases s@.len(),
{
    let mut r: Vec<String> = Vec::new();
    match find_from(s, pat, 0) {
        Option::None => {
            r.push(String::from_str(s));
            assert(r@.map_values(|p: String| p@) =~= spec_split(s@, pat@));
            r
        },
        Option::Some(i) => {
            proof {
                lemma_first_match_in_range(s@, pat@, 0);
            }
            let n = s.unicode_len();
            let m = pat.unicode_len();
            let head = s.substring_char(0, i);
            let rest = s.substring_char(i + m, n);
            let mut tail = split_str(rest, pat);
            r.push(String::from_str(head));
            r.append(&mut tail);
            assert(r@.map_values(|p: String| p@) =~= spec_split(s@, pat@)) by {
                assert(rest@ =~= s@.skip(i + pat@.len()));
                assert(head@ =~= s@.subrange(0, i as int));
            }
            r
        },
    }
}

/// The parts from `from` on, joined with `sep`.
pub fn join_from(parts: &Vec<String>, sep: &str, from: usize) -> (r: String)
    requires
        from <= parts@.len(),
    ensures
        r@ == spec_join(parts@.map_values(|p: String| p@).skip(from as int), sep@),
    decreases parts@.len() - from,
{
    let ghost views = parts@.map_values(|p: String| p@);
    if from == parts.len() {
        let r = String::new();
        assert(r@ =~= spec_join(views.skip(from as int), sep@)) by {
            assert(views.skip(from as int).len() == 0);
        }
        r
    } else if from + 1 == parts.len() {
        let r = String::from_str(parts[from].as_str());
        assert(views.skip(from as int).len() == 1);
        assert(views.skip(from as int)[0] == views[from as int]);
        r
    } else {
        let mut r = String::from_str(parts[from].as_str());
        let tail = join_from(parts, sep, from + 1);
        r.append(sep);
        r.append(tail.as_str());
        assert(r@ =~= spec_join(views.skip(from as int), sep@)) by {
            assert(views.skip(from as int).drop_first() =~= views.skip(from as int + 1));
            assert(views.skip(from as int)[0] == views[from as int]);
        }
        r
    }
}

/// A digit string's value only grows as digits are appended.
proof fn lemma_dec_val_prefix(s: Seq<char>, i: int)
    requires
        0 <= i <= s.len(),
        forall|k: int| 0 <= k < s.len() ==> is_digit(#[trigger] s[k]),
    ensures
        dec_val(s.take(i)) <= dec_val(s),
        dec_val(s) >= 0,
    decreases s.len() - i,
{
    if i == s.len() {
        assert(s.take(i) =~= s);
        lemma_dec_val_nonneg(s);
    } else {
        lemma_dec_val_prefix(s, i + 1);
        assert(s.take(i + 1).drop_last() =~= s.take(i));
        assert(s.take(i + 1).last() == s[i]);
        lemma_dec_val_nonneg(s.take(i));
    }
}

/// A digit string's value is never negative.
proof fn lemma_dec_val_nonneg(s: Seq<char>)
    requires
        forall|k: int| 0 <= k < s.len() ==> is_digit(#[trigger] s[k]),
    ensures
        dec_val(s) >= 0,
    decreases s.len(),
{
    if s.len() > 0 {
        assert(forall|k: int| 0 <= k < s.drop_last().len() ==> is_digit(#[trigger] s.drop_last()[k]));
        lemma_dec_val_nonneg(s.drop_last());
    }
}

/// Parses a decimal digit string as a `u16`; `None` when the string is
/// empty, holds a non-digit, or denotes a value above `u16::MAX`.
pub fn parse_u16(s: &str) -> (r: Option<u16>)
    ensures
        match r {
            Option::Some(v) => is_digits(s@) && dec_val(s@) == v,
            Option::None => !(is_digits(s@) && dec_val(s@) <= u16::MAX),
        },
{
    let n = s.unicode_len();
    if n == 0 {
        return None;
    }
    let mut acc: u16 = 0;
    let mut i: usize = 0;
    while i < n
        invariant
            n == s@.len(),
            0 < n,
            0 <= i <= n,
            forall|k: int| 0 <= k < i ==> is_digit(#[trigger] s@[k]),
            acc == dec_val(s@.take(i as int)),
        decreases n - i,
    {
        let c = s.get_char(i);
        if c < '0' || c > '9' {
            assert(!is_digits(s@));
            return None;
        }
        let d: u16 = (c as u16) - ('0' as u16);
        assert(d == digit_val(c));
        if acc > (u16::MAX - d) / 10 {
            assert(acc * 10 + d > u16::MAX) by (nonlinear_arith)
                requires
                    acc > (u16::MAX - d) / 10,
                    d <= 9,
            ;
            assert(dec_val(s@.take(i + 1)) > u16::MAX) by {
                assert(s@.take(i + 1).drop_last() =~= s@.take(i as int));
                assert(s@.take(i + 1).last() == s@[i as int]);
            }
            proof {
                if is_digits(s@) {
                    lemma_dec_val_prefix(s@, i + 1);
                }
            }
            return None;
        }
        assert(acc * 10 + d <= u16::MAX) by (nonlinear_arith)
            requires
                acc <= (u16::MAX - d) / 10,
                d <= 9,
        ;
        let next: u16 = acc * 10 + d;
        assert(next == dec_val(s@.take(i + 1))) by {
            assert(s@.take(i + 1).drop_last() =~= s@.take(i as int));
            assert(s@.take(i + 1).last() == s@[i as int]);
        }
        acc = next;
        i += 1;
    }
    assert(s@.take(n as int) =~= s@);
    Some(acc)
}

/// The one-character string for a digit value.
fn digit_str(d: u8) -> (r: &'static str)
    requires
        d < 10,
    ensures
        r@ == seq![digit_char(d as int)],
{
    proof {
        reveal_strlit("0");
        reveal_strlit("1");
        reveal_strlit("2");
        reveal_strlit("3");
        reveal_strlit("4");
        reveal_strlit("5");
        reveal_strlit("6");
        reveal_strlit("7");
        reveal_strlit("8");
        reveal_strlit("9");
    }
    let r = match d {
        0 => "0",
        1 => "1",
        2 => "2",
        3 => "3",
        4 => "4",
        5 => "5",
        6 => "6",
        7 => "7",
        8 => "8",
        _ => "9",
    };
    assert(r@ =~= seq![digit_char(d as int)]);
    r
}

/// The digit characters of `ds`, read back to front.
pub open spec fn rev_digit_chars(ds: Seq<u8>) -> Seq<char> {
    Seq::new(ds.len(), |k: int| digit_char(ds[ds.len() - 1 - k] as int))
}

/// The decimal digit string of `n`.
pub fn u64_to_dec(n: u64) -> (r: String)
    ensures
        r@ == dec_seq(n as int),
{
    let mut digits: Vec<u8> = Vec::new();
    let mut rest: u64 = n;
    while rest >= 10
        invariant
            dec_seq(n as int) =~= dec_seq(rest as int) + rev_digit_chars(digits@),
            forall|k: int| 0 <= k < digits@.len() ==> #[trigger] digits@[k] < 10,
        decreases rest,
    {
        let d: u8 = (rest % 10) as u8;
        let next: u64 = rest / 10;
        digits.push(d);
        proof {
            assert(dec_seq(rest as int) =~= dec_seq(next as int).push(digit_char(d as int)));
            assert(rev_digit_chars(digits@) =~= seq![digit_char(d as int)]
                + rev_digit_chars(digits@.drop_last()));
            assert(dec_seq(next as int) + rev_digit_chars(digits@) =~= dec_seq(rest as int)
                + rev_digit_chars(digits@.drop_last()));
        }
        rest = next;
    }
    digits.push(rest as u8);
    proof {
        assert(dec_seq(rest as int) =~= seq![digit_char(rest as int)]);
        assert(rev_digit_chars(digits@) =~= seq![digit_char(rest as int)]
            + rev_digit_chars(digits@.drop_last()));
        assert(dec_seq(n as int) =~= rev_digit_chars(digits@));
    }
    let mut r = String::new();
    let mut j: usize = digits.len();
    while j > 0
        invariant
            j <= digits@.len(),
            dec_seq(n as int) =~= rev_digit_chars(digits@),
            r@ =~= dec_seq(n as int).take(digits@.len() - j),
            forall|k: int| 0 <= k < digits@.len() ==> #[trigger] digits@[k] < 10,
        decreases j,
    {
        j -= 1;
        r.append(digit_str(digits[j]));
        assert(r@ =~= dec_seq(n as int).take(digits@.len() - j));
    }
    assert(r@ =~= dec_seq(n as int));
    r
}

/// A split yields at least one piece.
pub proof fn lemma_split_nonempty(s: Seq<char>, pat: Seq<char>)
    ensures
        spec_split(s, pat).len() >= 1,
{
    if pat.len() == 0 {
    } else {
        match first_match_from(s, pat, 0) {
            Option::None => {},
            Option::Some(i) => {},
        }
    }
}

/// A pattern is absent from `j` on when its first character never occurs
/// there.
proof fn lemma_scan_no_match(s: Seq<char>, pat: Seq<char>, j: int)
    requires
        pat.len() > 0,
        0 <= j,
        forall|k: int| j <= k < s.len() ==> s[k] != pat[0],
    ensures
        first_match_from(s, pat, j) is None,
    decreases s.len() - j,
{
    if j + pat.len() <= s.len() {
        assert(s.subrange(j, j + pat.len())[0] == s[j]);
        lemma_scan_no_match(s, pat, j + 1);
    }
}

/// When the pattern's first character is absent before `b` and the
/// pattern sits at `b`, the first match is at `b`.
proof fn lemma_scan_match_at(s: Seq<char>, pat: Seq<char>, j: int, b: int)
    requires
        pat.len() > 0,
        0 <= j <= b,
        b + pat.len() <= s.len(),
        forall|k: int| j <= k < b ==> s[k] != pat[0],
        match_at(s, pat, b),
    ensures
        first_match_from(s, pat, j) == Some(b),
    decreases b - j,
{
    if j < b {
        assert(s.subrange(j, j + pat.len())[0] == s[j]);
        lemma_scan_match_at(s, pat, j + 1, b);
    }
}

/// When no position before `b` matches and `b` does, the first match
/// from `j` is at `b`.
pub proof fn lemma_scan_first(s: Seq<char>, pat: Seq<char>, j: int, b: int)
    requires
        pat.len() > 0,
        0 <= j <= b,
        b + pat.len() <= s.len(),
        forall|p: int| j <= p < b ==> !match_at(s, pat, p),
        match_at(s, pat, b),
    ensures
        first_match_from(s, pat, j) == Some(b),
    decreases b - j,
{
    if j < b {
        lemma_scan_first(s, pat, j + 1, b);
    }
}

/// Positions that cannot match may be skipped by the search.
pub proof fn lemma_first_match_skip(s: Seq<char>, pat: Seq<char>, j: int, b: int)
    requires
        pat.len() > 0,
        0 <= j <= b,
        forall|p: int| j <= p < b ==> !match_at(s, pat, p),
    ensures
        first_match_from(s, pat, j) == first_match_from(s, pat, b),
    decreases b - j,
{
    if j < b {
        lemma_first_match_skip(s, pat, j + 1, b);
    }
}

/// Searching the right part of a concatenation from an offset past the
/// left part finds the same occurrence, shifted by the left part.
pub proof fn lemma_first_match_shift(x: Seq<char>, y: Seq<char>, pat: Seq<char>, j: int)
    requires
        pat.len() > 0,
        0 <= j,
    ensures
        first_match_from(x + y, pat, x.len() + j) == match first_match_from(y, pat, j) {
            Option::None => Option::<int>::None,
            Option::Some(k) => Option::<int>::Some(x.len() + k),
        },
    decreases y.len() - j,
{
    let s = x + y;
    if j + pat.len() <= y.len() {
        assert(match_at(s, pat, x.len() + j) == match_at(y, pat, j)) by {
            assert(s.subrange(x.len() + j, x.len() + j + pat.len() as int) =~= y.subrange(
                j,
                j + pat.len() as int,
            ));
        }
        if !match_at(y, pat, j) {
            lemma_first_match_shift(x, y, pat, j + 1);
        }
    }
}

/// A text free of the pattern's first character splits into itself alone.
pub proof fn lemma_split_whole(a: Seq<char>, pat: Seq<char>)
    requires
        pat.len() > 0,
        forall|k: int| 0 <= k < a.len() ==> a[k] != pat[0],
    ensures
        spec_split(a, pat) == seq![a],
{
    lemma_scan_no_match(a, pat, 0);
}

/// Splitting `a + pat + b` peels `a` off when the pattern's first
/// character does not occur in `a`.
pub proof fn lemma_split_concat(a: Seq<char>, pat: Seq<char>, b: Seq<char>)
    requires
        pat.len() > 0,
        forall|k: int| 0 <= k < a.len() ==> a[k] != pat[0],
    ensures
        spec_split(a + pat + b, pat) == seq![a] + spec_split(b, pat),
{
    let s = a + pat + b;
    assert(match_at(s, pat, a.len() as int)) by {
        assert(s.subrange(a.len() as int, a.len() + pat.len() as int) =~= pat);
    }
    assert(forall|k: int| 0 <= k < a.len() ==> s[k] != pat[0]) by {
        assert(forall|k: int| 0 <= k < a.len() ==> s[k] == a[k]);
    }
    lemma_scan_match_at(s, pat, 0, a.len() as int);
    assert(s.take(a.len() as int) =~= a);
    assert(s.skip(a.len() + pat.len() as int) =~= b);
    assert(spec_split(s, pat) == seq![a] + spec_split(b, pat));
}

/// Printing a number and reading the digits back yields the number.
pub proof fn lemma_dec_roundtrip(n: int)
    requires
        n >= 0,
    ensures
        is_digits(dec_seq(n)),
        dec_val(dec_seq(n)) == n,
    decreases n,
{
    if n < 10 {
        assert(dec_seq(n) =~= seq![digit_char(n)]);
        assert(dec_seq(n).drop_last() =~= Seq::<char>::empty());
        assert(dec_val(Seq::<char>::empty()) == 0);
        assert(dec_seq(n).last() == digit_char(n));
        assert(dec_val(dec_seq(n)) == digit_val(digit_char(n)));
    } else {
        lemma_dec_roundtrip(n / 10);
        assert(dec_seq(n).drop_last() =~= dec_seq(n / 10));
        assert(dec_seq(n).last() == digit_char(n % 10));
        assert(digit_val(digit_char(n % 10)) == n % 10);
        assert(forall|i: int| 0 <= i < dec_seq(n).len() ==> is_digit(#[trigger] dec_seq(n)[i]))
            by {
            assert(forall|i: int|
                0 <= i < dec_seq(n / 10).len() ==> is_digit(#[trigger] dec_seq(n / 10)[i]));
        }
    }
}

/// Whether two strings hold the same characters.
pub fn str_eq(a: &str, b: &str) -> (r: bool)
    ensures
        r == (a@ == b@),
{
    let n = a.unicode_len();
    if n != b.unicode_len() {
        return false;
    }
    let mut i: usize = 0;
    while i < n
        invariant
            n == a@.len(),
            n == b@.len(),
            0 <= i <= n,
            forall|k: int| 0 <= k < i ==> a@[k] == b@[k],
        decreases n - i,
    {
        if a.get_char(i) != b.get_char(i) {
            return false;
        }
        i += 1;
    }
    assert(a@ =~= b@);
    true
}

} // verus!
