//! Character-level utilities shared by the codecs: whitespace trimming,
//! decimal-number parsing and rendering, all specified over `Seq<char>`.
use vstd::prelude::*;

verus! {

// ---------------------------------------------------------------------------
// Whitespace and trimming
// ---------------------------------------------------------------------------

/// The whitespace characters the codec strips from line edges.
pub open spec fn is_space_char(c: char) -> bool {
    c == ' ' || c == '\t' || c == '\n' || c == '\r' || c == '\u{b}' || c == '\u{c}'
}

pub fn is_space(c: char) -> (r: bool)
    ensures
        r == is_space_char(c),
{
    c == ' ' || c == '\t' || c == '\n' || c == '\r' || c == '\u{b}' || c == '\u{c}'
}

pub open spec fn trim_start_spec(s: Seq<char>) -> Seq<char>
    decreases s.len(),
{
    if s.len() > 0 && is_space_char(s[0]) {
        trim_start_spec(s.drop_first())
    } else {
        s
    }
}

pub open spec fn trim_end_spec(s: Seq<char>) -> Seq<char>
    decreases s.len(),
{
    if s.len() > 0 && is_space_char(s.last()) {
        trim_end_spec(s.drop_last())
    } else {
        s
    }
}

/// What `str::trim` leaves of a line: both edges stripped of whitespace.
pub open spec fn trim_spec(s: Seq<char>) -> Seq<char> {
    trim_end_spec(trim_start_spec(s))
}

/// A sequence that trimming would leave unchanged.
pub open spec fn is_trimmed(s: Seq<char>) -> bool {
    s.len() > 0 ==> !is_space_char(s[0]) && !is_space_char(s.last())
}

proof fn lemma_trim_start_at(s: Seq<char>, i: int)
    requires
        0 <= i <= s.len(),
        forall|k: int| 0 <= k < i ==> is_space_char(s[k]),
        i < s.len() ==> !is_space_char(s[i]),
    ensures
        trim_start_spec(s) == s.subrange(i, s.len() as int),
    decreases i,
{
    if i == 0 {
        assert(s.subrange(0, s.len() as int) =~= s);
    } else {
        lemma_trim_start_at(s.drop_first(), i - 1);
        assert(s.drop_first().subrange(i - 1, s.drop_first().len() as int) =~= s.subrange(
            i,
            s.len() as int,
        ));
    }
}

proof fn lemma_trim_end_at(s: Seq<char>, j: int)
    requires
        0 <= j <= s.len(),
        forall|k: int| j <= k < s.len() ==> is_space_char(s[k]),
        j > 0 ==> !is_space_char(s[j - 1]),
    ensures
        trim_end_spec(s) == s.subrange(0, j),
    decreases s.len() - j,
{
    if j == s.len() {
        assert(s.subrange(0, j) =~= s);
    } else {
        lemma_trim_end_at(s.drop_last(), j);
        assert(s.drop_last().subrange(0, j) =~= s.subrange(0, j));
    }
}

/// Trimming a subrange characterisation: if everything before `i` and from `j`
/// on is whitespace, and the edges at `i` and `j - 1` are not, the trim is
/// exactly the middle.
pub proof fn lemma_trim_is_subrange(s: Seq<char>, i: int, j: int)
    requires
        0 <= i <= j <= s.len(),
        forall|k: int| 0 <= k < i ==> is_space_char(s[k]),
        forall|k: int| j <= k < s.len() ==> is_space_char(s[k]),
        i < j ==> !is_space_char(s[i]) && !is_space_char(s[j - 1]),
    ensures
        trim_spec(s) == s.subrange(i, j),
        is_trimmed(s.subrange(i, j)),
    decreases s.len(),
{
    if i == j {
        // everything is whitespace
        if s.len() == 0 {
            assert(s.subrange(i, j) =~= s);
        } else {
            assert(is_space_char(s[0]));
            lemma_trim_is_subrange(s.drop_first(), 0, 0);
            assert(trim_start_spec(s) == trim_start_spec(s.drop_first()));
            assert(s.subrange(i, j) =~= s.drop_first().subrange(0, 0));
        }
    } else {
        lemma_trim_start_at(s, i);
        let m = s.subrange(i, s.len() as int);
        lemma_trim_end_at(m, j - i);
        assert(m.subrange(0, j - i) =~= s.subrange(i, j));
    }
}

/// Strip whitespace from both ends of a character vector.
pub fn trim_chars(v: &Vec<char>) -> (r: Vec<char>)
    ensures
        r@ == trim_spec(v@),
        is_trimmed(r@),
{
    let n = v.len();
    let mut i: usize = 0;
    while i < n && is_space(v[i])
        invariant
            0 <= i <= n,
            n == v@.len(),
            forall|k: int| 0 <= k < i ==> is_space_char(v@[k]),
        decreases n - i,
    {
        i = i + 1;
    }
    let mut j: usize = n;
    while j > i && is_space(v[j - 1])
        invariant
            i <= j <= n,
            n == v@.len(),
            forall|k: int| j <= k < n ==> is_space_char(v@[k]),
        decreases j,
    {
        j = j - 1;
    }
    let mut r: Vec<char> = Vec::new();
    let mut k: usize = i;
    while k < j
        invariant
            i <= k <= j <= n,
            n == v@.len(),
            r@ == v@.subrange(i as int, k as int),
        decreases j - k,
    {
        r.push(v[k]);
        assert(v@.subrange(i as int, k as int).push(v@[k as int]) =~= v@.subrange(
            i as int,
            k + 1 as int,
        ));
        k = k + 1;
    }
    proof {
        lemma_trim_is_subrange(v@, i as int, j as int);
    }
    r
}

// ---------------------------------------------------------------------------
// Decimal digits
// ---------------------------------------------------------------------------

pub open spec fn is_digit_char(c: char) -> bool {
    '0' <= c && c <= '9'
}

/// Numeric value of a digit character.
pub open spec fn digit_val(c: char) -> int {
    (c as int) - ('0' as int)
}

pub open spec fn all_digits(s: Seq<char>) -> bool {
    forall|k: int| 0 <= k < s.len() ==> is_digit_char(s[k])
}

/// Value of a digit string read left to right.
pub open spec fn digits_value(s: Seq<char>) -> int
    decreases s.len(),
{
    if s.len() == 0 {
        0
    } else {
        digits_value(s.drop_last()) * 10 + digit_val(s.last())
    }
}

pub proof fn lemma_digits_value_nonneg(s: Seq<char>)
    requires
        all_digits(s),
    ensures
        digits_value(s) >= 0,
    decreases s.len(),
{
    if s.len() > 0 {
        lemma_digits_value_nonneg(s.drop_last());
    }
}

/// Extending a digit string on the right never shrinks its value.
pub proof fn lemma_digits_value_prefix(s: Seq<char>, k: int)
    requires
        all_digits(s),
        0 <= k <= s.len(),
    ensures
        digits_value(s) >= digits_value(s.subrange(0, k)),
    decreases s.len() - k,
{
    if k == s.len() {
        assert(s.subrange(0, k) =~= s);
    } else {
        let t = s.subrange(0, k + 1);
        assert(t.drop_last() =~= s.subrange(0, k));
        lemma_digits_value_nonneg(s.subrange(0, k));
        lemma_digits_value_prefix(s, k + 1);
    }
}

/// What `u32::from_str` accepts: an optional leading `+`, then one or more
/// digits whose value fits in a `u32`.
pub open spec fn parse_u32_spec(s: Seq<char>) -> Option<u32> {
    let start: int = if s.len() > 0 && s[0] == '+' {
        1
    } else {
        0
    };
    let digits = s.subrange(start, s.len() as int);
    if digits.len() > 0 && all_digits(digits) && digits_value(digits) <= u32::MAX {
        Some(digits_value(digits) as u32)
    } else {
        None
    }
}

/// Parse a decimal `u32` exactly as `u32::from_str` would.
pub fn parse_u32_chars(v: &Vec<char>) -> (r: Option<u32>)
    ensures
        r == parse_u32_spec(v@),
{
    let n = v.len();
    let start: usize = if n > 0 && v[0] == '+' {
        1
    } else {
        0
    };
    let ghost digits = v@.subrange(start as int, n as int);
    if start >= n {
        assert(digits.len() == 0);
        return None;
    }
    let mut acc: u64 = 0;
    let mut k: usize = start;
    while k < n
        invariant
            start <= k <= n,
            start < n,
            n == v@.len(),
            v@.len() > 0 && v@[0] == '+' ==> start == 1,
            !(v@.len() > 0 && v@[0] == '+') ==> start == 0,
            digits == v@.subrange(start as int, n as int),
            forall|t: int| start <= t < k ==> is_digit_char(v@[t]),
            acc == digits_value(v@.subrange(start as int, k as int)),
            acc <= u32::MAX,
        decreases n - k,
    {
        let c = v[k];
        if !(c >= '0' && c <= '9') {
            assert(!is_digit_char(digits[k - start]));
            return None;
        }
        let d: u64 = (c as u32 - '0' as u32) as u64;
        proof {
            assert(v@.subrange(start as int, (k + 1) as int).drop_last() =~= v@.subrange(
                start as int,
                k as int,
            ));
        }
        acc = acc * 10 + d;
        if acc > u32::MAX as u64 {
            proof {
                if all_digits(digits) {
                    assert(v@.subrange(start as int, (k + 1) as int) =~= digits.subrange(
                        0,
                        k + 1 - start,
                    ));
                    lemma_digits_value_prefix(digits, k + 1 - start);
                }
            }
            return None;
        }
        k = k + 1;
    }
    assert(v@.subrange(start as int, k as int) =~= digits);
    Some(acc as u32)
}

/// Digit character for a value below ten.
pub open spec fn digit_char_spec(d: int) -> char {
    if d == 0 {
        '0'
    } else if d == 1 {
        '1'
    } else if d == 2 {
        '2'
    } else if d == 3 {
        '3'
    } else if d == 4 {
        '4'
    } else if d == 5 {
        '5'
    } else if d == 6 {
        '6'
    } else if d == 7 {
        '7'
    } else if d == 8 {
        '8'
    } else {
        '9'
    }
}

pub proof fn lemma_digit_char_val(d: int)
    requires
        0 <= d <= 9,
    ensures
        is_digit_char(digit_char_spec(d)),
        digit_val(digit_char_spec(d)) == d,
{
}

pub fn digit_to_char(d: u32) -> (c: char)
    requires
        d < 10,
    ensures
        c == digit_char_spec(d as int),
{
    match d {
        0 => '0',
        1 => '1',
        2 => '2',
        3 => '3',
        4 => '4',
        5 => '5',
        6 => '6',
        7 => '7',
        8 => '8',
        _ => '9',
    }
}

/// Decimal rendering of a number, most significant digit first, no padding.
pub open spec fn u32_digits_spec(n: int) -> Seq<char>
    decreases n,
{
    if n < 10 {
        seq![digit_char_spec(n)]
    } else {
        u32_digits_spec(n / 10).push(digit_char_spec(n % 10))
    }
}

pub proof fn lemma_u32_digits(n: int)
    requires
        n >= 0,
    ensures
        u32_digits_spec(n).len() >= 1,
        all_digits(u32_digits_spec(n)),
        digits_value(u32_digits_spec(n)) == n,
    decreases n,
{
    if n < 10 {
        lemma_digit_char_val(n);
        let s = u32_digits_spec(n);
        assert(s == seq![digit_char_spec(n)]);
        assert(s.last() == digit_char_spec(n));
        assert(s.drop_last() =~= Seq::<char>::empty());
        assert(digits_value(Seq::<char>::empty()) == 0);
        assert(digits_value(s) == digits_value(s.drop_last()) * 10 + digit_val(s.last()));
    } else {
        lemma_u32_digits(n / 10);
        lemma_digit_char_val(n % 10);
        let p = u32_digits_spec(n / 10);
        let s = u32_digits_spec(n);
        assert(s == p.push(digit_char_spec(n % 10)));
        assert(s.drop_last() =~= p);
        assert forall|k: int| 0 <= k < s.len() implies is_digit_char(#[trigger] s[k]) by {
            if k < p.len() {
                assert(s[k] == p[k]);
            } else {
                assert(s[k] == digit_char_spec(n % 10));
            }
        }
        assert(s.last() == digit_char_spec(n % 10));
        assert(digit_val(s.last()) == n % 10);
        assert(digits_value(s) == digits_value(s.drop_last()) * 10 + digit_val(s.last()));
        assert(digits_value(s.drop_last()) == n / 10);
        vstd::arithmetic::div_mod::lemma_fundamental_div_mod(n, 10);
        assert(digits_value(s) == (n / 10) * 10 + n % 10);
    }
}

/// The decimal rendering of a `u32` parses back to the same number.
pub proof fn lemma_parse_u32_round_trip(n: u32)
    ensures
        parse_u32_spec(u32_digits_spec(n as int)) == Some(n),
{
    lemma_u32_digits(n as int);
    let s = u32_digits_spec(n as int);
    assert(is_digit_char(s[0]));
    assert(s[0] != '+');
    assert(s.subrange(0, s.len() as int) =~= s);
}

pub fn u32_to_chars(n: u32) -> (r: Vec<char>)
    ensures
        r@ == u32_digits_spec(n as int),
    decreases n,
{
    if n < 10 {
        let mut r: Vec<char> = Vec::new();
        r.push(digit_to_char(n));
        assert(r@ =~= u32_digits_spec(n as int));
        r
    } else {
        let mut r = u32_to_chars(n / 10);
        r.push(digit_to_char(n % 10));
        r
    }
}

// ---------------------------------------------------------------------------
// Searching and slicing
// ---------------------------------------------------------------------------

/// Index of the first occurrence of `c` in `s`, if any.
pub open spec fn first_index_of(s: Seq<char>, c: char) -> Option<int>
    decreases s.len(),
{
    if s.len() == 0 {
        None
    } else if s[0] == c {
        Some(0)
    } else {
        match first_index_of(s.drop_first(), c) {
            Some(i) => Some(i + 1),
            None => None,
        }
    }
}

pub proof fn lemma_first_index_of(s: Seq<char>, c: char)
    ensures
        match first_index_of(s, c) {
            Some(i) => 0 <= i < s.len() && s[i] == c && forall|k: int| 0 <= k < i ==> s[k] != c,
            None => forall|k: int| 0 <= k < s.len() ==> s[k] != c,
        },
    decreases s.len(),
{
    if s.len() == 0 {
    } else if s[0] == c {
    } else {
        lemma_first_index_of(s.drop_first(), c);
        let t = s.drop_first();
        assert(forall|k: int| 0 <= k < t.len() ==> t[k] == s[k + 1]);
        match first_index_of(t, c) {
            Some(i) => {
                assert(first_index_of(s, c) == Some(i + 1));
                assert(s[i + 1] == t[i]);
                assert forall|k: int| 0 <= k < i + 1 implies s[k] != c by {
                    if k > 0 {
                        assert(s[k] == t[k - 1]);
                    }
                }
            },
            None => {
                assert forall|k: int| 0 <= k < s.len() implies s[k] != c by {
                    if k > 0 {
                        assert(s[k] == t[k - 1]);
                    }
                }
            },
        }
    }
}

/// A position holding `c` with no earlier occurrence is the first index.
pub proof fn lemma_first_index_of_converse(s: Seq<char>, c: char, i: int)
    requires
        0 <= i < s.len(),
        s[i] == c,
        forall|k: int| 0 <= k < i ==> s[k] != c,
    ensures
        first_index_of(s, c) == Some(i),
    decreases s.len(),
{
    if i > 0 {
        let t = s.drop_first();
        assert(forall|k: int| 0 <= k < t.len() ==> t[k] == s[k + 1]);
        assert(t[i - 1] == c);
        assert forall|k: int| 0 <= k < i - 1 implies t[k] != c by {
            assert(t[k] == s[k + 1]);
        }
        lemma_first_index_of_converse(t, c, i - 1);
    }
}

/// Find the first occurrence of `c` in `v` at or after `from`.
pub fn find_char_from(v: &Vec<char>, c: char, from: usize) -> (r: Option<usize>)
    requires
        from <= v@.len(),
    ensures
        ({
            let tail = v@.subrange(from as int, v@.len() as int);
            match r {
                Some(i) => from <= i < v@.len() && first_index_of(tail, c) == Some(i - from),
                None => first_index_of(tail, c) is None,
            }
        }),
{
    let ghost tail = v@.subrange(from as int, v@.len() as int);
    proof {
        lemma_first_index_of(tail, c);
    }
    let n = v.len();
    let mut k: usize = from;
    while k < n
        invariant
            from <= k <= n,
            n == v@.len(),
            tail == v@.subrange(from as int, n as int),
            forall|t: int| from <= t < k ==> v@[t] != c,
            match first_index_of(tail, c) {
                Some(i) => 0 <= i < tail.len() && tail[i] == c && forall|t: int|
                    0 <= t < i ==> tail[t] != c,
                None => forall|t: int| 0 <= t < tail.len() ==> tail[t] != c,
            },
        decreases n - k,
    {
        if v[k] == c {
            assert(tail[k - from] == c);
            return Some(k);
        }
        k = k + 1;
    }
    None
}

/// Copy of `v[from..to]`.
pub fn sub_chars(v: &Vec<char>, from: usize, to: usize) -> (r: Vec<char>)
    requires
        from <= to <= v@.len(),
    ensures
        r@ == v@.subrange(from as int, to as int),
{
    let mut r: Vec<char> = Vec::new();
    let mut k: usize = from;
    while k < to
        invariant
            from <= k <= to <= v@.len(),
            r@ == v@.subrange(from as int, k as int),
        decreases to - k,
    {
        r.push(v[k]);
        assert(v@.subrange(from as int, k as int).push(v@[k as int]) =~= v@.subrange(
            from as int,
            (k + 1) as int,
        ));
        k = k + 1;
    }
    r
}

/// Does `v[from..from + pat.len()]` equal `pat`?
pub fn eq_at(v: &Vec<char>, from: usize, pat: &Vec<char>) -> (r: bool)
    requires
        from + pat@.len() <= v@.len(),
    ensures
        r == (v@.subrange(from as int, from + pat@.len()) == pat@),
{
    let m = pat.len();
    let n = v.len();
    let mut k: usize = 0;
    while k < m
        invariant
            0 <= k <= m,
            m == pat@.len(),
            n == v@.len(),
            from + m <= n,
            forall|t: int| 0 <= t < k ==> v@[from + t] == pat@[t],
        decreases m - k,
    {
        if v[from + k] != pat[k] {
            assert(v@.subrange(from as int, from + pat@.len())[k as int] != pat@[k as int]);
            return false;
        }
        k = k + 1;
    }
    assert(v@.subrange(from as int, from + pat@.len()) =~= pat@);
    true
}

// ---------------------------------------------------------------------------
// Bridges between `str`/`String` and character vectors
// ---------------------------------------------------------------------------

/// The characters of a string slice, in order.
pub fn str_to_chars(s: &str) -> (r: Vec<char>)
    ensures
        r@ == s@,
{
    let n = s.unicode_len();
    let mut r: Vec<char> = Vec::new();
    let mut k: usize = 0;
    while k < n
        invariant
            0 <= k <= n,
            n == s@.len(),
            r@ == s@.subrange(0, k as int),
        decreases n - k,
    {
        r.push(s.get_char(k));
        assert(s@.subrange(0, k as int).push(s@[k as int]) =~= s@.subrange(0, (k + 1) as int));
        k = k + 1;
    }
    assert(s@.subrange(0, n as int) =~= s@);
    r
}

/// Relies on `String`'s `FromIterator<char>`: collecting an iterator of
/// characters builds the string holding exactly those characters in order.
#[verifier::external_body]
pub fn chars_to_string(v: &Vec<char>) -> (r: String)
    ensures
        r@ == v@,
{
    v.iter().copied().collect()
}

} // verus!
