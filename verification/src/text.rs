//! Decimal text and small character-level helpers.
use vstd::prelude::*;
use vstd::string::*;

verus! {

/// Whether `c` is an ASCII decimal digit.
pub open spec fn is_digit(c: char) -> bool {
    '0' <= c && c <= '9'
}

/// The numeric value of an ASCII decimal digit.
pub open spec fn digit_value(c: char) -> nat {
    ((c as int) - ('0' as int)) as nat
}

/// The ASCII digit for a value below ten.
pub open spec fn digit_char(d: nat) -> char {
    ((d + ('0' as int)) as u32) as char
}

/// Every character of `s` is an ASCII decimal digit.
pub open spec fn all_digits(s: Seq<char>) -> bool {
    forall|i: int| 0 <= i < s.len() ==> is_digit(#[trigger] s[i])
}

/// The value of a string of decimal digits, most significant first.
pub open spec fn digits_value(s: Seq<char>) -> nat
    decreases s.len(),
{
    if s.len() == 0 {
        0
    } else {
        digits_value(s.drop_last()) * 10 + digit_value(s.last())
    }
}

/// The shortest decimal representation of `n` (what `{}` prints for an unsigned integer).
pub open spec fn decimal(n: nat) -> Seq<char>
    decreases n,
{
    if n < 10 {
        seq![digit_char(n)]
    } else {
        decimal(n / 10).push(digit_char(n % 10))
    }
}

pub proof fn lemma_digit_char(d: nat)
    requires
        d < 10,
    ensures
        is_digit(digit_char(d)),
        digit_value(digit_char(d)) == d,
{
}

/// `decimal(n)` is a non-empty string of digits, its value is `n`, and it
/// starts with a zero only when it is "0".
pub proof fn lemma_decimal(n: nat)
    ensures
        decimal(n).len() >= 1,
        all_digits(decimal(n)),
        digits_value(decimal(n)) == n,
        decimal(n)[0] == '0' ==> n == 0,
        n < 10 <==> decimal(n).len() == 1,
    decreases n,
{
    if n < 10 {
        lemma_digit_char(n);
        assert(decimal(n).drop_last() =~= Seq::<char>::empty());
        assert(digits_value(Seq::<char>::empty()) == 0);
    } else {
        lemma_decimal(n / 10);
        lemma_digit_char(n % 10);
        assert(decimal(n).drop_last() =~= decimal(n / 10));
        assert(n == (n / 10) * 10 + n % 10) by (nonlinear_arith);
    }
}

/// Different numbers print differently.
pub proof fn lemma_decimal_injective(a: nat, b: nat)
    requires
        decimal(a) == decimal(b),
    ensures
        a == b,
{
    lemma_decimal(a);
    lemma_decimal(b);
}

/// `digits_value` never shrinks when characters are appended.
pub proof fn lemma_digits_value_prefix(s: Seq<char>, k: int)
    requires
        0 <= k <= s.len(),
    ensures
        digits_value(s.take(k)) <= digits_value(s),
    decreases s.len(),
{
    if k < s.len() {
        assert(s.take(k) =~= s.drop_last().take(k));
        lemma_digits_value_prefix(s.drop_last(), k);
    } else {
        assert(s.take(k) =~= s);
    }
}

/// The digits that follow an optional leading `+`.
pub open spec fn unsigned_body(s: Seq<char>) -> Seq<char> {
    if s.len() > 0 && s[0] == '+' {
        s.drop_first()
    } else {
        s
    }
}

/// What `u64::from_str` gives for `s`: an optional `+`, then one or more
/// decimal digits whose value fits in 64 bits.
pub open spec fn parse_u64(s: Seq<char>) -> Option<u64> {
    let d = unsigned_body(s);
    if d.len() > 0 && all_digits(d) && digits_value(d) <= u64::MAX {
        Some(digits_value(d) as u64)
    } else {
        None
    }
}

/// What `i32::from_str` gives for `s`: an optional `+` or `-`, then one or
/// more decimal digits whose signed value fits in 32 bits.
pub open spec fn parse_i32(s: Seq<char>) -> Option<i32> {
    if s.len() > 0 && s[0] == '-' {
        let d = s.drop_first();
        if d.len() > 0 && all_digits(d) && digits_value(d) <= 0x8000_0000 {
            Some((0 - digits_value(d)) as i32)
        } else {
            None
        }
    } else {
        let d = unsigned_body(s);
        if d.len() > 0 && all_digits(d) && digits_value(d) <= 0x7fff_ffff {
            Some(digits_value(d) as i32)
        } else {
            None
        }
    }
}

/// Reading back what `decimal` prints gives the number.
pub proof fn lemma_parse_u64_decimal(n: u64)
    ensures
        parse_u64(decimal(n as nat)) == Some(n),
{
    lemma_decimal(n as nat);
    let d = decimal(n as nat);
    assert(is_digit(d[0]));
    assert(unsigned_body(d) == d);
}

/// The characters of `s`, in order.
pub fn chars_of(s: &str) -> (v: Vec<char>)
    ensures
        v@ == s@,
{
    let n = s.unicode_len();
    let mut v: Vec<char> = Vec::new();
    let mut i: usize = 0;
    while i < n
        invariant
            n == s@.len(),
            i <= n,
            v@ == s@.take(i as int),
        decreases n - i,
    {
        v.push(s.get_char(i));
        i = i + 1;
        assert(v@ =~= s@.take(i as int));
    }
    assert(s@.take(n as int) =~= s@);
    v
}

/// The value of the digits `v[lo..hi]`, or `None` when that range is empty,
/// holds a non-digit, or is too large for 64 bits.
pub fn digits_in(v: &Vec<char>, lo: usize, hi: usize) -> (r: Option<u64>)
    requires
        lo <= hi <= v@.len(),
    ensures
        ({
            let d = v@.subrange(lo as int, hi as int);
            r == (if d.len() > 0 && all_digits(d) && digits_value(d) <= u64::MAX {
                Some(digits_value(d) as u64)
            } else {
                None
            })
        }),
{
    let ghost d = v@.subrange(lo as int, hi as int);
    if lo == hi {
        return None;
    }
    let mut acc: u64 = 0;
    let mut i: usize = lo;
    while i < hi
        invariant
            lo <= i <= hi <= v@.len(),
            d == v@.subrange(lo as int, hi as int),
            all_digits(v@.subrange(lo as int, i as int)),
            acc as nat == digits_value(v@.subrange(lo as int, i as int)),
        decreases hi - i,
    {
        let c = v[i];
        let ghost before = v@.subrange(lo as int, i as int);
        let ghost after = v@.subrange(lo as int, i + 1);
        assert(after.drop_last() =~= before);
        assert(d.take(i + 1 - lo) =~= after);
        if !('0' <= c && c <= '9') {
            assert(!is_digit(d[i - lo]));
            return None;
        }
        let dv: u64 = (c as u32 - '0' as u32) as u64;
        assert(dv == digit_value(c));
        if acc > (u64::MAX - dv) / 10 {
            assert(acc * 10 + dv > u64::MAX) by (nonlinear_arith)
                requires
                    acc > (u64::MAX - dv) / 10,
                    dv <= 9,
            ;
            proof {
                lemma_digits_value_prefix(d, i + 1 - lo);
            }
            return None;
        }
        assert(acc * 10 + dv <= u64::MAX) by (nonlinear_arith)
            requires
                acc <= (u64::MAX - dv) / 10,
                dv <= 9,
        ;
        acc = acc * 10 + dv;
        i = i + 1;
    }
    assert(v@.subrange(lo as int, i as int) =~= d);
    Some(acc)
}

/// `k` is the position of the first `c` in `s`.
pub open spec fn is_first_of(s: Seq<char>, c: char, k: int) -> bool {
    &&& 0 <= k < s.len()
    &&& s[k] == c
    &&& forall|j: int| 0 <= j < k ==> s[j] != c
}

/// The position of the first `c` in `s` (meaningful when `s` holds a `c`).
pub open spec fn first_of(s: Seq<char>, c: char) -> int {
    choose|k: int| is_first_of(s, c, k)
}

/// What `str::split_once(c)` gives: the text before the first `c` and the
/// text after it.
pub open spec fn split_once(s: Seq<char>, c: char) -> Option<(Seq<char>, Seq<char>)> {
    if s.contains(c) {
        let k = first_of(s, c);
        Some((s.take(k), s.skip(k + 1)))
    } else {
        None
    }
}

/// The first occurrence is unique, so `first_of` names it.
pub proof fn lemma_first_of(s: Seq<char>, c: char, k: int)
    requires
        is_first_of(s, c, k),
    ensures
        s.contains(c),
        first_of(s, c) == k,
        split_once(s, c) == Some((s.take(k), s.skip(k + 1))),
{
    assert(s[k] == c);
    let k2 = first_of(s, c);
    assert(is_first_of(s, c, k2));
    if k2 < k {
        assert(s[k2] != c);
    } else if k < k2 {
        assert(s[k] != c);
    }
}

/// The position of the first `c` in `v[lo..hi]`, counted from the start of `v`.
pub fn find_char(v: &Vec<char>, lo: usize, hi: usize, c: char) -> (r: Option<usize>)
    requires
        lo <= hi <= v@.len(),
    ensures
        match r {
            None => !v@.subrange(lo as int, hi as int).contains(c),
            Some(k) => lo <= k < hi && is_first_of(
                v@.subrange(lo as int, hi as int),
                c,
                k - lo,
            ),
        },
{
    let ghost d = v@.subrange(lo as int, hi as int);
    let mut i = lo;
    while i < hi
        invariant
            lo <= i <= hi <= v@.len(),
            d == v@.subrange(lo as int, hi as int),
            forall|j: int| 0 <= j < i - lo ==> d[j] != c,
        decreases hi - i,
    {
        if v[i] == c {
            assert(d[i - lo] == c);
            return Some(i);
        }
        i = i + 1;
    }
    assert forall|j: int| 0 <= j < d.len() implies d[j] != c by {}
    None
}

/// What `u64::from_str` gives for the characters `v[lo..hi]`.
pub fn parse_u64_in(v: &Vec<char>, lo: usize, hi: usize) -> (r: Option<u64>)
    requires
        lo <= hi <= v@.len(),
    ensures
        r == parse_u64(v@.subrange(lo as int, hi as int)),
{
    let ghost d = v@.subrange(lo as int, hi as int);
    if lo < hi && v[lo] == '+' {
        assert(v@.subrange(lo + 1, hi as int) =~= d.drop_first());
        digits_in(v, lo + 1, hi)
    } else {
        digits_in(v, lo, hi)
    }
}

/// What `i32::from_str` gives for `s`.
pub fn parse_i32_text(s: &str) -> (r: Option<i32>)
    ensures
        r == parse_i32(s@),
{
    let v = chars_of(s);
    let n = v.len();
    assert(v@.subrange(0, n as int) =~= s@);
    if n > 0 && v[0] == '-' {
        assert(v@.subrange(1, n as int) =~= s@.drop_first());
        match digits_in(&v, 1, n) {
            Some(m) => {
                if m <= 0x8000_0000 {
                    let x: i64 = 0 - (m as i64);
                    Some(x as i32)
                } else {
                    None
                }
            },
            None => None,
        }
    } else {
        let lo: usize = if n > 0 && v[0] == '+' { 1 } else { 0 };
        assert(v@.subrange(lo as int, n as int) =~= unsigned_body(s@));
        match digits_in(&v, lo, n) {
            Some(m) => {
                if m <= 0x7fff_ffff {
                    Some(m as i32)
                } else {
                    None
                }
            },
            None => None,
        }
    }
}

/// A byte that `HeaderValue::to_str` accepts: visible ASCII or a tab.
pub open spec fn is_visible_ascii(b: u8) -> bool {
    (32 <= b && b < 127) || b == 9
}

/// The characters of bytes that are all ASCII.
pub open spec fn ascii_chars(b: Seq<u8>) -> Seq<char> {
    b.map_values(|x: u8| x as char)
}

/// What `HeaderValue::to_str` gives for a header's bytes: the text when every
/// byte is visible ASCII, nothing otherwise.
pub open spec fn header_text(b: Seq<u8>) -> Option<Seq<char>> {
    if forall|i: int| 0 <= i < b.len() ==> is_visible_ascii(#[trigger] b[i]) {
        Some(ascii_chars(b))
    } else {
        None
    }
}

/// The bytes of a header that may be absent.
pub open spec fn header_view(h: Option<&[u8]>) -> Option<Seq<u8>> {
    match h {
        Some(b) => Some(b@),
        None => None,
    }
}

/// Reads a header's bytes as text, as `HeaderValue::to_str` does.
pub fn header_chars(b: &[u8]) -> (r: Option<Vec<char>>)
    ensures
        match header_text(b@) {
            Some(t) => r matches Some(v) && v@ == t,
            None => r is None,
        },
{
    let mut v: Vec<char> = Vec::new();
    let mut i: usize = 0;
    while i < b.len()
        invariant
            i <= b@.len(),
            v@ == ascii_chars(b@.take(i as int)),
            forall|j: int| 0 <= j < i ==> is_visible_ascii(#[trigger] b@[j]),
        decreases b@.len() - i,
    {
        let x = b[i];
        if !((32 <= x && x < 127) || x == 9) {
            assert(!is_visible_ascii(b@[i as int]));
            return None;
        }
        v.push(x as char);
        i = i + 1;
        assert(v@ =~= ascii_chars(b@.take(i as int)));
    }
    assert(b@.take(i as int) =~= b@);
    Some(v)
}

/// `c` with an ASCII upper-case letter turned into lower case.
pub open spec fn ascii_lower(c: char) -> char {
    if 'A' <= c && c <= 'Z' {
        ((c as u32) + 32) as char
    } else {
        c
    }
}

/// What `str::eq_ignore_ascii_case` says of two texts.
pub open spec fn eq_ignore_ascii_case(a: Seq<char>, b: Seq<char>) -> bool {
    &&& a.len() == b.len()
    &&& forall|i: int| 0 <= i < a.len() ==> ascii_lower(#[trigger] a[i]) == ascii_lower(b[i])
}

/// Compares two texts, ignoring the case of ASCII letters.
pub fn chars_eq_ignore_ascii_case(a: &Vec<char>, b: &Vec<char>) -> (r: bool)
    ensures
        r == eq_ignore_ascii_case(a@, b@),
{
    if a.len() != b.len() {
        return false;
    }
    let mut i: usize = 0;
    while i < a.len()
        invariant
            a@.len() == b@.len(),
            i <= a@.len(),
            forall|j: int| 0 <= j < i ==> ascii_lower(#[trigger] a@[j]) == ascii_lower(b@[j]),
        decreases a@.len() - i,
    {
        let x = a[i];
        let y = b[i];
        let lx = if 'A' <= x && x <= 'Z' { ((x as u32) + 32) as u8 as char } else { x };
        let ly = if 'A' <= y && y <= 'Z' { ((y as u32) + 32) as u8 as char } else { y };
        if lx != ly {
            assert(ascii_lower(a@[i as int]) != ascii_lower(b@[i as int]));
            return false;
        }
        i = i + 1;
    }
    true
}

/// Compares two texts character by character.
pub fn chars_equal(a: &Vec<char>, b: &Vec<char>) -> (r: bool)
    ensures
        r == (a@ == b@),
{
    if a.len() != b.len() {
        return false;
    }
    let mut i: usize = 0;
    while i < a.len()
        invariant
            a@.len() == b@.len(),
            i <= a@.len(),
            forall|j: int| 0 <= j < i ==> a@[j] == b@[j],
        decreases a@.len() - i,
    {
        if a[i] != b[i] {
            return false;
        }
        i = i + 1;
    }
    assert(a@ =~= b@);
    true
}

/// `String::push` appends one character to the end of the string, as its
/// documentation says.
pub assume_specification[ String::push ](s: &mut String, ch: char)
    ensures
        final(s)@ == old(s)@.push(ch),
;

/// A string holding the characters of `v`.
pub fn string_of(v: &Vec<char>) -> (s: String)
    ensures
        s@ == v@,
{
    let mut s = String::new();
    let mut i: usize = 0;
    while i < v.len()
        invariant
            i <= v@.len(),
            s@ == v@.take(i as int),
        decreases v@.len() - i,
    {
        s.push(v[i]);
        i = i + 1;
        assert(s@ =~= v@.take(i as int));
    }
    assert(v@.take(i as int) =~= v@);
    s
}

/// `p` occurs in `s` at position `i`.
pub open spec fn occurs_at(s: Seq<char>, p: Seq<char>, i: int) -> bool {
    0 <= i && i + p.len() <= s.len() && s.subrange(i, i + p.len()) == p
}

/// `i` is the leftmost position where `p` occurs in `s`.
pub open spec fn is_first_occurrence(s: Seq<char>, p: Seq<char>, i: int) -> bool {
    occurs_at(s, p, i) && forall|j: int| 0 <= j < i ==> !occurs_at(s, p, j)
}

/// `p` occurs somewhere in `s`.
pub open spec fn has_occurrence(s: Seq<char>, p: Seq<char>) -> bool {
    exists|i: int| occurs_at(s, p, i)
}

/// The leftmost position where `p` occurs in `s` (meaningful when it occurs).
pub open spec fn first_occurrence(s: Seq<char>, p: Seq<char>) -> int {
    choose|i: int| is_first_occurrence(s, p, i)
}

/// What `s.split(p).nth(1)` gives: the text between the first and the
/// second occurrence of `p` (or the end), when `p` occurs at all.
pub open spec fn second_piece(s: Seq<char>, p: Seq<char>) -> Option<Seq<char>> {
    if has_occurrence(s, p) {
        let rest = s.skip(first_occurrence(s, p) + p.len());
        if has_occurrence(rest, p) {
            Some(rest.take(first_occurrence(rest, p)))
        } else {
            Some(rest)
        }
    } else {
        None
    }
}

/// The leftmost occurrence is unique, so `first_occurrence` names it.
pub proof fn lemma_first_occurrence(s: Seq<char>, p: Seq<char>, i: int)
    requires
        is_first_occurrence(s, p, i),
    ensures
        has_occurrence(s, p),
        first_occurrence(s, p) == i,
{
    assert(occurs_at(s, p, i));
    let k = first_occurrence(s, p);
    assert(is_first_occurrence(s, p, k));
    if k < i {
        assert(!occurs_at(s, p, k));
    } else if i < k {
        assert(!occurs_at(s, p, i));
    }
}

/// Whether `p` occurs in `v` at position `i`.
fn occurs_in(v: &Vec<char>, p: &Vec<char>, i: usize) -> (r: bool)
    ensures
        r == occurs_at(v@, p@, i as int),
{
    if i > v.len() || p.len() > v.len() - i {
        return false;
    }
    let n = v.len();
    let mut j: usize = 0;
    while j < p.len()
        invariant
            n == v@.len(),
            i + p@.len() <= v@.len(),
            j <= p@.len(),
            forall|k: int| 0 <= k < j ==> v@[i + k] == p@[k],
        decreases p@.len() - j,
    {
        assert(i + j < v@.len());
        if v[i + j] != p[j] {
            assert(v@.subrange(i as int, i + p@.len())[j as int] != p@[j as int]);
            return false;
        }
        j = j + 1;
    }
    assert(v@.subrange(i as int, i + p@.len()) =~= p@);
    true
}

/// The leftmost position at or after `from` where `p` occurs in `v`.
fn find_text(v: &Vec<char>, p: &Vec<char>, from: usize) -> (r: Option<usize>)
    requires
        from <= v@.len(),
        p@.len() > 0,
    ensures
        match r {
            None => !has_occurrence(v@.skip(from as int), p@),
            Some(i) => from <= i && is_first_occurrence(v@.skip(from as int), p@, i - from),
        },
{
    let ghost rest = v@.skip(from as int);
    let mut i = from;
    while i < v.len()
        invariant
            from <= i <= v@.len(),
            rest == v@.skip(from as int),
            forall|j: int| 0 <= j < i - from ==> !occurs_at(rest, p@, j),
        decreases v@.len() - i,
    {
        let found = occurs_in(v, p, i);
        assert(occurs_at(rest, p@, i - from) == occurs_at(v@, p@, i as int)) by {
            if i + p@.len() <= v@.len() {
                assert(rest.subrange(i - from, i - from + p@.len()) =~= v@.subrange(
                    i as int,
                    i + p@.len(),
                ));
            }
        }
        if found {
            return Some(i);
        }
        i = i + 1;
    }
    assert forall|j: int| !occurs_at(rest, p@, j) by {
        if 0 <= j < i - from {
        } else if j >= i - from {
            assert(j + p@.len() > rest.len());
        }
    }
    None
}

/// The text of `v` between the first and second occurrence of `p`, as `split(p).nth(1)` gives it.
pub fn second_piece_of(v: &Vec<char>, p: &Vec<char>) -> (r: Option<Vec<char>>)
    requires
        p@.len() > 0,
    ensures
        match second_piece(v@, p@) {
            Some(t) => r matches Some(w) && w@ == t,
            None => r is None,
        },
{
    assert(v@.skip(0) =~= v@);
    let n = v.len();
    let i = match find_text(v, p, 0) {
        Some(i) => i,
        None => {
            return None;
        },
    };
    proof {
        lemma_first_occurrence(v@, p@, i as int);
    }
    assert(occurs_at(v@, p@, i as int));
    let from = i + p.len();
    let ghost rest = v@.skip(from as int);
    let stop = match find_text(v, p, from) {
        Some(k) => {
            proof {
                lemma_first_occurrence(rest, p@, k - from);
            }
            k
        },
        None => v.len(),
    };
    let mut w: Vec<char> = Vec::new();
    let mut j = from;
    while j < stop
        invariant
            from <= j <= stop <= v@.len(),
            w@ == v@.subrange(from as int, j as int),
        decreases stop - j,
    {
        w.push(v[j]);
        j = j + 1;
        assert(w@ =~= v@.subrange(from as int, j as int));
    }
    assert(stop < v@.len() ==> rest.take(stop - from) =~= w@);
    assert(stop == v@.len() ==> rest =~= w@);
    Some(w)
}

/// `s[a..b]` is what is left of `s` once every leading and trailing `"` is removed.
pub open spec fn is_unquoted_bounds(s: Seq<char>, a: int, b: int) -> bool {
    &&& 0 <= a <= b <= s.len()
    &&& forall|j: int| 0 <= j < a ==> s[j] == '"'
    &&& forall|j: int| b <= j < s.len() ==> s[j] == '"'
    &&& a < b ==> s[a] != '"' && s[b - 1] != '"'
}

/// What `s.trim_matches('"')` gives.
pub open spec fn trim_quotes(s: Seq<char>) -> Seq<char> {
    let (a, b) = choose|a: int, b: int| is_unquoted_bounds(s, a, b);
    s.subrange(a, b)
}

/// Any bounds that strip the quotes give the same text.
pub proof fn lemma_trim_quotes(s: Seq<char>, a: int, b: int)
    requires
        is_unquoted_bounds(s, a, b),
    ensures
        trim_quotes(s) == s.subrange(a, b),
{
    let (a2, b2) = choose|a2: int, b2: int| is_unquoted_bounds(s, a2, b2);
    assert(is_unquoted_bounds(s, a2, b2));
    if a < b {
        if a2 == b2 {
            if a < a2 {
                assert(s[a] == '"');
            } else {
                assert(s[a] == '"');
            }
        } else {
            if a2 < a {
                assert(s[a2] == '"');
            }
            if a < a2 {
                assert(s[a] == '"');
            }
            if b2 < b {
                assert(s[b - 1] == '"');
            }
            if b < b2 {
                assert(s[b2 - 1] == '"');
            }
        }
    } else if a2 < b2 {
        if a2 < a {
            assert(s[a2] == '"');
        } else {
            assert(s[a2] == '"');
        }
    }
    assert(s.subrange(a, b) =~= s.subrange(a2, b2));
}

/// `v` without its leading and trailing `"`, as `trim_matches('"')` gives it.
pub fn trim_quotes_of(v: &Vec<char>) -> (r: Vec<char>)
    ensures
        r@ == trim_quotes(v@),
{
    let n = v.len();
    let mut a: usize = 0;
    while a < n && v[a] == '"'
        invariant
            n == v@.len(),
            a <= n,
            forall|j: int| 0 <= j < a ==> v@[j] == '"',
        decreases n - a,
    {
        a = a + 1;
    }
    let mut b: usize = n;
    while b > a && v[b - 1] == '"'
        invariant
            n == v@.len(),
            a <= b <= n,
            forall|j: int| b <= j < n ==> v@[j] == '"',
        decreases b - a,
    {
        b = b - 1;
    }
    proof {
        lemma_trim_quotes(v@, a as int, b as int);
    }
    let mut w: Vec<char> = Vec::new();
    let mut j = a;
    while j < b
        invariant
            a <= j <= b <= v@.len(),
            w@ == v@.subrange(a as int, j as int),
        decreases b - j,
    {
        w.push(v[j]);
        j = j + 1;
        assert(w@ =~= v@.subrange(a as int, j as int));
    }
    w
}

/// `k` is the position of the last `c` in `s`.
pub open spec fn is_last_of(s: Seq<char>, c: char, k: int) -> bool {
    &&& 0 <= k < s.len()
    &&& s[k] == c
    &&& forall|j: int| k < j < s.len() ==> s[j] != c
}

/// The text after the last `c` in `s`, or all of `s` when it holds no `c`:
/// the last piece of `s.split(c)`.
pub open spec fn last_piece(s: Seq<char>, c: char) -> Seq<char> {
    if s.contains(c) {
        s.skip((choose|k: int| is_last_of(s, c, k)) + 1)
    } else {
        s
    }
}

/// The last piece holds no separator.
pub proof fn lemma_last_piece_has_no_separator(s: Seq<char>, c: char)
    ensures
        !last_piece(s, c).contains(c),
{
    if s.contains(c) {
        let i0 = choose|i: int| 0 <= i < s.len() && s[i] == c;
        lemma_last_exists(s, c, i0);
        let k = choose|k: int| is_last_of(s, c, k);
        let t = s.skip(k + 1);
        assert forall|i: int| 0 <= i < t.len() implies t[i] != c by {
            assert(t[i] == s[k + 1 + i]);
        }
    }
}

/// When `s[i]` is `c`, some `c` is the last one.
proof fn lemma_last_exists(s: Seq<char>, c: char, i: int)
    requires
        0 <= i < s.len(),
        s[i] == c,
    ensures
        exists|k: int| is_last_of(s, c, k),
    decreases s.len() - i,
{
    if exists|j: int| i < j < s.len() && s[j] == c {
        let j = choose|j: int| i < j < s.len() && s[j] == c;
        lemma_last_exists(s, c, j);
    } else {
        assert(is_last_of(s, c, i));
    }
}

/// The last piece of `v[from..]` split at `c`.
pub fn last_piece_of(v: &Vec<char>, from: usize, c: char) -> (r: Vec<char>)
    requires
        from <= v@.len(),
    ensures
        r@ == last_piece(v@.skip(from as int), c),
{
    let ghost s = v@.skip(from as int);
    let n = v.len();
    let mut k = n;
    while k > from && v[k - 1] != c
        invariant
            n == v@.len(),
            from <= k <= n,
            s == v@.skip(from as int),
            forall|j: int| k <= j < n ==> v@[j] != c,
        decreases k - from,
    {
        k = k - 1;
    }
    if k > from {
        proof {
            assert(is_last_of(s, c, k - 1 - from));
            assert(s.contains(c)) by {
                assert(s[k - 1 - from] == c);
            }
            let k2 = choose|k2: int| is_last_of(s, c, k2);
            assert(is_last_of(s, c, k2));
            if k2 < k - 1 - from {
                assert(s[k - 1 - from] != c);
            } else if k2 > k - 1 - from {
                assert(s[k2] != c);
            }
        }
    } else {
        assert(!s.contains(c)) by {
            assert forall|j: int| 0 <= j < s.len() implies s[j] != c by {
                assert(s[j] == v@[j + from]);
            }
        }
    }
    let mut w: Vec<char> = Vec::new();
    let mut j = k;
    while j < n
        invariant
            k <= j <= n == v@.len(),
            w@ == v@.subrange(k as int, j as int),
        decreases n - j,
    {
        w.push(v[j]);
        j = j + 1;
        assert(w@ =~= v@.subrange(k as int, j as int));
    }
    assert(w@ =~= s.skip(k - from));
    w
}

/// The text of one decimal digit.
fn digit_text(d: u64) -> (s: &'static str)
    requires
        d < 10,
    ensures
        s@ == seq![digit_char(d as nat)],
{
    proof {
        reveal_strlit("0");
        reveal_strlit("1");
        reveal_strlit("2");
        reveal_strlit("3");
        reveal_strlit("4");
        reveal_strlit("5");
        reveal_strlit("6");
        reveal_strlit("7");
        reveal_strlit("8");
        reveal_strlit("9");
    }
    if d == 0 {
        "0"
    } else if d == 1 {
        "1"
    } else if d == 2 {
        "2"
    } else if d == 3 {
        "3"
    } else if d == 4 {
        "4"
    } else if d == 5 {
        "5"
    } else if d == 6 {
        "6"
    } else if d == 7 {
        "7"
    } else if d == 8 {
        "8"
    } else {
        "9"
    }
}

/// Appends the decimal text of `n` to `out`.
pub fn push_decimal(out: &mut String, n: u64)
    ensures
        final(out)@ == old(out)@ + decimal(n as nat),
    decreases n,
{
    if n < 10 {
        out.append(digit_text(n));
    } else {
        push_decimal(out, n / 10);
        out.append(digit_text(n % 10));
    }
}

/// The decimal text of `n`, as `n.to_string()` gives it.
pub fn decimal_text(n: u64) -> (s: String)
    ensures
        s@ == decimal(n as nat),
{
    let mut s = String::new();
    push_decimal(&mut s, n);
    s
}

} // verus!
