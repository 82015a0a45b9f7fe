//! Byte-level vocabulary shared by the parser and the serializer: character
//! classes of the wire grammar, maximal runs, CRLF search, decimal digits,
//! ASCII case folding, and the lexicographic order on byte strings.

use vstd::prelude::*;

verus! {

// --- character classes ---------------------------------------------------

// Byte values of the ASCII characters the grammar speaks of.
pub const CR: u8 = 13;

pub const LF: u8 = 10;

pub const SP: u8 = 32;

pub const HT: u8 = 9;

pub const COLON: u8 = 58;

pub const DOT: u8 = 46;

pub const PLUS: u8 = 43;

pub const HYPHEN: u8 = 45;

pub const UPPER_A: u8 = 65;

pub const UPPER_Z: u8 = 90;

pub const LOWER_A: u8 = 97;

pub const LOWER_Z: u8 = 122;

pub const DIGIT_0: u8 = 48;

pub const DIGIT_9: u8 = 57;

/// Wire whitespace: the bytes that end a path token.
pub open spec fn is_whitespace(b: u8) -> bool {
    b == SP || b == HT || b == CR || b == LF
}

/// Horizontal whitespace: the separator inside the request line.
pub open spec fn is_space(b: u8) -> bool {
    b == SP || b == HT
}

/// Bytes allowed in a header name: ASCII letters and hyphen.
pub open spec fn is_header_key(b: u8) -> bool {
    (UPPER_A <= b && b <= UPPER_Z) || (LOWER_A <= b && b <= LOWER_Z) || b == HYPHEN
}

/// ASCII decimal digit.
pub open spec fn is_digit(b: u8) -> bool {
    DIGIT_0 <= b && b <= DIGIT_9
}

/// ASCII lower-casing of one byte; other bytes are unchanged.
pub open spec fn lower_byte(b: u8) -> u8 {
    if UPPER_A <= b && b <= UPPER_Z {
        (b + 32) as u8
    } else {
        b
    }
}

/// ASCII lower-casing of a byte string.
pub open spec fn lower_bytes(s: Seq<u8>) -> Seq<u8> {
    s.map_values(|b: u8| lower_byte(b))
}

// --- maximal runs ---------------------------------------------------------

/// Length of the maximal leading run of horizontal whitespace.
pub open spec fn space_run(s: Seq<u8>) -> int
    decreases s.len(),
{
    if s.len() == 0 || !is_space(s[0]) {
        0
    } else {
        1 + space_run(s.skip(1))
    }
}

/// Length of the maximal leading run of path bytes (anything but whitespace).
pub open spec fn path_run(s: Seq<u8>) -> int
    decreases s.len(),
{
    if s.len() == 0 || is_whitespace(s[0]) {
        0
    } else {
        1 + path_run(s.skip(1))
    }
}

/// Length of the maximal leading run of header-name bytes.
pub open spec fn name_run(s: Seq<u8>) -> int
    decreases s.len(),
{
    if s.len() == 0 || !is_header_key(s[0]) {
        0
    } else {
        1 + name_run(s.skip(1))
    }
}

/// Length of the maximal leading run of decimal digits.
pub open spec fn digit_run(s: Seq<u8>) -> int
    decreases s.len(),
{
    if s.len() == 0 || !is_digit(s[0]) {
        0
    } else {
        1 + digit_run(s.skip(1))
    }
}

// --- CRLF search ----------------------------------------------------------

/// Index of the first CRLF pair in `s`, if any.
pub open spec fn find_crlf(s: Seq<u8>) -> Option<int>
    decreases s.len(),
{
    if s.len() < 2 {
        None
    } else if s[0] == CR && s[1] == LF {
        Some(0)
    } else {
        match find_crlf(s.skip(1)) {
            Some(i) => Some(i + 1),
            None => None,
        }
    }
}

/// A found CRLF lies inside the string, is a CRLF, and is the first one.
pub proof fn lemma_find_crlf_some(s: Seq<u8>, k: int)
    requires
        find_crlf(s) == Some(k),
    ensures
        0 <= k,
        k + 2 <= s.len(),
        s[k] == CR,
        s[k + 1] == LF,
        forall|j: int| 0 <= j < k ==> !((#[trigger] s[j]) == CR && s[j + 1] == LF),
    decreases s.len(),
{
    if s.len() < 2 {
    } else if s[0] == CR && s[1] == LF {
    } else {
        match find_crlf(s.skip(1)) {
            Some(i) => {
                lemma_find_crlf_some(s.skip(1), i);
                assert forall|j: int| 0 <= j < k implies !((#[trigger] s[j]) == CR && s[j + 1]
                    == LF) by {
                    if j > 0 {
                        assert(s.skip(1)[j - 1] == s[j]);
                        assert(s.skip(1)[j] == s[j + 1]);
                    }
                }
            },
            None => {},
        }
    }
}

// --- decimal digits -------------------------------------------------------

/// Numeric value of a digit string, read most-significant first.
pub open spec fn digits_value(s: Seq<u8>) -> int
    decreases s.len(),
{
    if s.len() == 0 {
        0
    } else {
        digits_value(s.drop_last()) * 10 + (s.last() - DIGIT_0)
    }
}

/// Canonical decimal rendering of a natural number, no leading zeros.
pub open spec fn dec_bytes(n: nat) -> Seq<u8>
    decreases n,
{
    if n < 10 {
        seq![(DIGIT_0 + n) as u8]
    } else {
        dec_bytes(n / 10).push((DIGIT_0 + n % 10) as u8)
    }
}

// --- lexicographic order --------------------------------------------------

/// Strict lexicographic order on byte strings (a proper prefix comes first).
pub open spec fn lex_lt(a: Seq<u8>, b: Seq<u8>) -> bool
    decreases a.len() + b.len(),
{
    if b.len() == 0 {
        false
    } else if a.len() == 0 {
        true
    } else if a[0] < b[0] {
        true
    } else if a[0] > b[0] {
        false
    } else {
        lex_lt(a.skip(1), b.skip(1))
    }
}

pub proof fn lemma_lex_irrefl(a: Seq<u8>)
    ensures
        !lex_lt(a, a),
    decreases a.len(),
{
    if a.len() > 0 {
        lemma_lex_irrefl(a.skip(1));
    }
}

pub proof fn lemma_lex_asym(a: Seq<u8>, b: Seq<u8>)
    requires
        lex_lt(a, b),
    ensures
        !lex_lt(b, a),
        a != b,
    decreases a.len() + b.len(),
{
    if a.len() > 0 && b.len() > 0 && a[0] == b[0] {
        lemma_lex_asym(a.skip(1), b.skip(1));
        if a == b {
            assert(a.skip(1) == b.skip(1));
        }
    } else {
        if a == b {
            assert(a.len() == b.len());
        }
    }
}

pub proof fn lemma_lex_trans(a: Seq<u8>, b: Seq<u8>, c: Seq<u8>)
    requires
        lex_lt(a, b),
        lex_lt(b, c),
    ensures
        lex_lt(a, c),
    decreases a.len() + b.len() + c.len(),
{
    if b.len() == 0 {
    } else if c.len() == 0 {
    } else if a.len() == 0 {
    } else {
        if a[0] == b[0] && b[0] == c[0] {
            lemma_lex_trans(a.skip(1), b.skip(1), c.skip(1));
        }
    }
}

// --- runs over concatenations ----------------------------------------------

/// A run of spaces followed by a non-space covers exactly the spaces.
pub proof fn lemma_space_run_concat(a: Seq<u8>, b: Seq<u8>)
    requires
        forall|i: int| 0 <= i < a.len() ==> is_space(#[trigger] a[i]),
        b.len() == 0 || !is_space(b[0]),
    ensures
        space_run(a + b) == a.len(),
    decreases a.len(),
{
    if a.len() == 0 {
        assert(a + b =~= b);
    } else {
        assert((a + b)[0] == a[0]);
        assert((a + b).skip(1) =~= a.skip(1) + b);
        lemma_space_run_concat(a.skip(1), b);
    }
}

/// A run of path bytes followed by whitespace covers exactly the path bytes.
pub proof fn lemma_path_run_concat(a: Seq<u8>, b: Seq<u8>)
    requires
        forall|i: int| 0 <= i < a.len() ==> !is_whitespace(#[trigger] a[i]),
        b.len() == 0 || is_whitespace(b[0]),
    ensures
        path_run(a + b) == a.len(),
    decreases a.len(),
{
    if a.len() == 0 {
        assert(a + b =~= b);
    } else {
        assert((a + b)[0] == a[0]);
        assert((a + b).skip(1) =~= a.skip(1) + b);
        lemma_path_run_concat(a.skip(1), b);
    }
}

/// A run of name bytes followed by a non-name byte covers exactly the name.
pub proof fn lemma_name_run_concat(a: Seq<u8>, b: Seq<u8>)
    requires
        forall|i: int| 0 <= i < a.len() ==> is_header_key(#[trigger] a[i]),
        b.len() == 0 || !is_header_key(b[0]),
    ensures
        name_run(a + b) == a.len(),
    decreases a.len(),
{
    if a.len() == 0 {
        assert(a + b =~= b);
    } else {
        assert((a + b)[0] == a[0]);
        assert((a + b).skip(1) =~= a.skip(1) + b);
        lemma_name_run_concat(a.skip(1), b);
    }
}

/// A run of digits followed by a non-digit covers exactly the digits.
pub proof fn lemma_digit_run_concat(a: Seq<u8>, b: Seq<u8>)
    requires
        forall|i: int| 0 <= i < a.len() ==> is_digit(#[trigger] a[i]),
        b.len() == 0 || !is_digit(b[0]),
    ensures
        digit_run(a + b) == a.len(),
    decreases a.len(),
{
    if a.len() == 0 {
        assert(a + b =~= b);
    } else {
        assert((a + b)[0] == a[0]);
        assert((a + b).skip(1) =~= a.skip(1) + b);
        lemma_digit_run_concat(a.skip(1), b);
    }
}

/// A run never leaves the string.
pub proof fn lemma_name_run_bounds(s: Seq<u8>)
    ensures
        0 <= name_run(s) <= s.len(),
    decreases s.len(),
{
    if s.len() > 0 && is_header_key(s[0]) {
        lemma_name_run_bounds(s.skip(1));
    }
}

/// A run never leaves the string.
pub proof fn lemma_digit_run_bounds(s: Seq<u8>)
    ensures
        0 <= digit_run(s) <= s.len(),
    decreases s.len(),
{
    if s.len() > 0 && is_digit(s[0]) {
        lemma_digit_run_bounds(s.skip(1));
    }
}

/// The bytes inside a digit run are digits; the byte after it is not.
pub proof fn lemma_digit_run_chars(s: Seq<u8>)
    ensures
        forall|i: int| 0 <= i < digit_run(s) ==> is_digit(#[trigger] s[i]),
        digit_run(s) < s.len() ==> !is_digit(s[digit_run(s)]),
    decreases s.len(),
{
    lemma_digit_run_bounds(s);
    if s.len() > 0 && is_digit(s[0]) {
        lemma_digit_run_chars(s.skip(1));
        lemma_digit_run_bounds(s.skip(1));
        assert forall|i: int| 0 <= i < digit_run(s) implies is_digit(#[trigger] s[i]) by {
            if i > 0 {
                assert(s.skip(1)[i - 1] == s[i]);
            }
        }
        if digit_run(s) < s.len() {
            assert(s.skip(1)[digit_run(s) - 1] == s[digit_run(s)]);
        }
    }
}

// --- CRLF over concatenations ----------------------------------------------

/// No CRLF pair occurs anywhere in `s`.
pub open spec fn crlf_free(s: Seq<u8>) -> bool {
    forall|j: int| 0 <= j && j + 1 < s.len() ==> !((#[trigger] s[j]) == CR && s[j + 1] == LF)
}

/// The first CRLF of a CRLF-free string followed by a CRLF sits at the seam.
pub proof fn lemma_find_crlf_concat(v: Seq<u8>, rest: Seq<u8>)
    requires
        crlf_free(v),
        rest.len() >= 2,
        rest[0] == CR,
        rest[1] == LF,
    ensures
        find_crlf(v + rest) == Some(v.len() as int),
    decreases v.len(),
{
    if v.len() == 0 {
        assert(v + rest =~= rest);
    } else {
        let s = v + rest;
        assert(s[0] == v[0]);
        if v.len() == 1 {
            assert(s[1] == rest[0]);
        } else {
            assert(s[1] == v[1]);
        }
        assert(!(s[0] == CR && s[1] == LF));
        assert(s.skip(1) =~= v.skip(1) + rest);
        assert forall|j: int| 0 <= j && j + 1 < v.skip(1).len() implies !((#[trigger] v.skip(1)[j])
            == CR && v.skip(1)[j + 1] == LF) by {
            assert(v.skip(1)[j] == v[j + 1]);
            assert(v.skip(1)[j + 1] == v[j + 2]);
        }
        lemma_find_crlf_concat(v.skip(1), rest);
    }
}

// --- facts about decimal digits ---------------------------------------------

/// The canonical decimal rendering is a non-empty string of digits.
pub proof fn lemma_dec_bytes_digits(n: nat)
    ensures
        dec_bytes(n).len() >= 1,
        forall|i: int| 0 <= i < dec_bytes(n).len() ==> is_digit(#[trigger] dec_bytes(n)[i]),
    decreases n,
{
    if n >= 10 {
        lemma_dec_bytes_digits(n / 10);
        assert forall|i: int| 0 <= i < dec_bytes(n).len() implies is_digit(
            #[trigger] dec_bytes(n)[i],
        ) by {
            if i < dec_bytes(n / 10).len() {
                assert(dec_bytes(n)[i] == dec_bytes(n / 10)[i]);
            }
        }
    }
}

/// Rendering then reading a decimal number gives the number back.
pub proof fn lemma_digits_value_dec_bytes(n: nat)
    ensures
        digits_value(dec_bytes(n)) == n,
    decreases n,
{
    if n < 10 {
        let s = dec_bytes(n);
        assert(s.last() == (DIGIT_0 + n) as u8);
        assert(s.drop_last() =~= Seq::<u8>::empty());
        assert(digits_value(s.drop_last()) == 0);
        assert(digits_value(s) == (DIGIT_0 + n) as u8 - DIGIT_0);
    } else {
        lemma_digits_value_dec_bytes(n / 10);
        let s = dec_bytes(n);
        let d = (DIGIT_0 + n % 10) as u8;
        assert(s == dec_bytes(n / 10).push(d));
        assert(s.last() == d);
        assert(s.drop_last() =~= dec_bytes(n / 10));
        vstd::arithmetic::div_mod::lemma_fundamental_div_mod(n as int, 10);
        assert(digits_value(s) == (n / 10) * 10 + (d - DIGIT_0));
        assert(d - DIGIT_0 == n % 10);
    }
}

/// A string of digits has a non-negative value.
pub proof fn lemma_digits_value_nonneg(s: Seq<u8>)
    requires
        forall|i: int| 0 <= i < s.len() ==> is_digit(#[trigger] s[i]),
    ensures
        digits_value(s) >= 0,
    decreases s.len(),
{
    if s.len() > 0 {
        assert forall|i: int| 0 <= i < s.drop_last().len() implies is_digit(
            #[trigger] s.drop_last()[i],
        ) by {
            assert(s.drop_last()[i] == s[i]);
        }
        lemma_digits_value_nonneg(s.drop_last());
    }
}

/// Reading more digits never shrinks the value.
pub proof fn lemma_digits_value_prefix_mono(u: Seq<u8>, m: int)
    requires
        0 <= m <= u.len(),
        forall|i: int| 0 <= i < u.len() ==> is_digit(#[trigger] u[i]),
    ensures
        digits_value(u.subrange(0, m)) <= digits_value(u),
    decreases u.len() - m,
{
    if m == u.len() {
        assert(u.subrange(0, m) =~= u);
    } else {
        let t = u.subrange(0, m);
        let t1 = u.subrange(0, m + 1);
        assert(t1.drop_last() =~= t);
        assert(t1.last() == u[m]);
        assert forall|i: int| 0 <= i < t.len() implies is_digit(#[trigger] t[i]) by {
            assert(t[i] == u[i]);
        }
        lemma_digits_value_nonneg(t);
        lemma_digits_value_prefix_mono(u, m + 1);
    }
}

// --- facts about case folding ------------------------------------------------

/// Lower-casing keeps length and works byte by byte.
pub proof fn lemma_lower_bytes(s: Seq<u8>)
    ensures
        lower_bytes(s).len() == s.len(),
        forall|i: int| 0 <= i < s.len() ==> lower_bytes(s)[i] == lower_byte(#[trigger] s[i]),
{
}

/// Digits are unchanged by case folding.
pub proof fn lemma_lower_dec_bytes(n: nat)
    ensures
        lower_bytes(dec_bytes(n)) == dec_bytes(n),
{
    lemma_dec_bytes_digits(n);
    lemma_lower_bytes(dec_bytes(n));
    assert(lower_bytes(dec_bytes(n)) =~= dec_bytes(n));
}

// --- executable scanners -------------------------------------------------

/// Index of the end of the run of horizontal whitespace starting at `from`.
pub fn skip_spaces(s: &[u8], from: usize) -> (j: usize)
    requires
        from <= s@.len(),
    ensures
        from <= j <= s@.len(),
        j - from == space_run(s@.skip(from as int)),
{
    let mut j = from;
    loop
        invariant
            from <= j <= s@.len(),
            space_run(s@.skip(from as int)) == (j - from) + space_run(s@.skip(j as int)),
        ensures
            from <= j <= s@.len(),
            space_run(s@.skip(from as int)) == j - from,
        decreases s@.len() - j,
    {
        if j == s.len() {
            proof {
                assert(space_run(s@.skip(j as int)) == 0);
            }
            break ;
        }
        let b = *vstd::slice::slice_index_get(s, j);
        if !(b == SP || b == HT) {
            proof {
                assert(s@.skip(j as int)[0] == s@[j as int]);
                assert(space_run(s@.skip(j as int)) == 0);
            }
            break ;
        }
        proof {
            assert(s@.skip(j as int)[0] == s@[j as int]);
            assert(s@.skip(j as int).skip(1) =~= s@.skip(j as int + 1));
        }
        j = j + 1;
    }
    j
}

/// Index of the end of the run of path bytes starting at `from`.
pub fn scan_path(s: &[u8], from: usize) -> (j: usize)
    requires
        from <= s@.len(),
    ensures
        from <= j <= s@.len(),
        j - from == path_run(s@.skip(from as int)),
{
    let mut j = from;
    loop
        invariant
            from <= j <= s@.len(),
            path_run(s@.skip(from as int)) == (j - from) + path_run(s@.skip(j as int)),
        ensures
            from <= j <= s@.len(),
            path_run(s@.skip(from as int)) == j - from,
        decreases s@.len() - j,
    {
        if j == s.len() {
            proof {
                assert(path_run(s@.skip(j as int)) == 0);
            }
            break ;
        }
        let b = *vstd::slice::slice_index_get(s, j);
        if b == SP || b == HT || b == CR || b == LF {
            proof {
                assert(s@.skip(j as int)[0] == s@[j as int]);
                assert(path_run(s@.skip(j as int)) == 0);
            }
            break ;
        }
        proof {
            assert(s@.skip(j as int)[0] == s@[j as int]);
            assert(s@.skip(j as int).skip(1) =~= s@.skip(j as int + 1));
        }
        j = j + 1;
    }
    j
}

/// Index of the end of the run of header-name bytes starting at `from`.
pub fn scan_name(s: &[u8], from: usize) -> (j: usize)
    requires
        from <= s@.len(),
    ensures
        from <= j <= s@.len(),
        j - from == name_run(s@.skip(from as int)),
{
    let mut j = from;
    loop
        invariant
            from <= j <= s@.len(),
            name_run(s@.skip(from as int)) == (j - from) + name_run(s@.skip(j as int)),
        ensures
            from <= j <= s@.len(),
            name_run(s@.skip(from as int)) == j - from,
        decreases s@.len() - j,
    {
        if j == s.len() {
            proof {
                assert(name_run(s@.skip(j as int)) == 0);
            }
            break ;
        }
        let b = *vstd::slice::slice_index_get(s, j);
        if !((UPPER_A <= b && b <= UPPER_Z) || (LOWER_A <= b && b <= LOWER_Z) || b == HYPHEN) {
            proof {
                assert(s@.skip(j as int)[0] == s@[j as int]);
                assert(name_run(s@.skip(j as int)) == 0);
            }
            break ;
        }
        proof {
            assert(s@.skip(j as int)[0] == s@[j as int]);
            assert(s@.skip(j as int).skip(1) =~= s@.skip(j as int + 1));
        }
        j = j + 1;
    }
    j
}

/// Index of the end of the run of decimal digits starting at `from`.
pub fn scan_digits(s: &[u8], from: usize) -> (j: usize)
    requires
        from <= s@.len(),
    ensures
        from <= j <= s@.len(),
        j - from == digit_run(s@.skip(from as int)),
{
    let mut j = from;
    loop
        invariant
            from <= j <= s@.len(),
            digit_run(s@.skip(from as int)) == (j - from) + digit_run(s@.skip(j as int)),
        ensures
            from <= j <= s@.len(),
            digit_run(s@.skip(from as int)) == j - from,
        decreases s@.len() - j,
    {
        if j == s.len() {
            proof {
                assert(digit_run(s@.skip(j as int)) == 0);
            }
            break ;
        }
        let b = *vstd::slice::slice_index_get(s, j);
        if !(DIGIT_0 <= b && b <= DIGIT_9) {
            proof {
                assert(s@.skip(j as int)[0] == s@[j as int]);
                assert(digit_run(s@.skip(j as int)) == 0);
            }
            break ;
        }
        proof {
            assert(s@.skip(j as int)[0] == s@[j as int]);
            assert(s@.skip(j as int).skip(1) =~= s@.skip(j as int + 1));
        }
        j = j + 1;
    }
    j
}

/// Position of the first CRLF at or after `from`, as an absolute index.
pub fn find_crlf_from(s: &[u8], from: usize) -> (r: Option<usize>)
    requires
        from <= s@.len(),
    ensures
        match r {
            Some(j) => from <= j && j + 2 <= s@.len() && find_crlf(s@.skip(from as int)) == Some(
                j - from,
            ),
            None => find_crlf(s@.skip(from as int)) is None,
        },
{
    let mut j = from;
    loop
        invariant
            from <= j <= s@.len(),
            find_crlf(s@.skip(from as int)) == match find_crlf(s@.skip(j as int)) {
                Some(k) => Some(k + (j - from)),
                None => None::<int>,
            },
        ensures
            from <= j <= s@.len(),
            ({
                let rel = find_crlf(s@.skip(from as int));
                if j + 2 <= s@.len() {
                    s@[j as int] == CR && s@[j as int + 1] == LF && rel == Some(j - from)
                } else {
                    rel is None
                }
            }),
        decreases s@.len() - j,
    {
        if s.len() - j < 2 {
            proof {
                assert(s@.skip(j as int).len() < 2);
                assert(find_crlf(s@.skip(j as int)) is None);
            }
            break ;
        }
        let b0 = *vstd::slice::slice_index_get(s, j);
        let b1 = *vstd::slice::slice_index_get(s, j + 1);
        if b0 == CR && b1 == LF {
            proof {
                assert(s@.skip(j as int)[0] == s@[j as int]);
                assert(s@.skip(j as int)[1] == s@[j as int + 1]);
                assert(find_crlf(s@.skip(j as int)) == Some(0int));
            }
            break ;
        }
        proof {
            assert(s@.skip(j as int)[0] == s@[j as int]);
            assert(s@.skip(j as int)[1] == s@[j as int + 1]);
            assert(s@.skip(j as int).skip(1) =~= s@.skip(j as int + 1));
        }
        j = j + 1;
    }
    if s.len() - j >= 2 {
        Some(j)
    } else {
        None
    }
}

/// Copy of `s[from..to]` as an owned vector.
pub fn copy_range(s: &[u8], from: usize, to: usize) -> (v: Vec<u8>)
    requires
        from <= to <= s@.len(),
    ensures
        v@ == s@.subrange(from as int, to as int),
{
    vstd::slice::slice_to_vec(vstd::slice::slice_subrange(s, from, to))
}

/// Append every byte of `s` to `out`.
pub fn push_bytes(out: &mut Vec<u8>, s: &[u8])
    ensures
        final(out)@ == old(out)@ + s@,
{
    let ghost base = out@;
    let mut i: usize = 0;
    proof {
        assert(out@ =~= base + s@.subrange(0, 0));
    }
    while i < s.len()
        invariant
            i <= s@.len(),
            out@ == base + s@.subrange(0, i as int),
        decreases s@.len() - i,
    {
        let b = *vstd::slice::slice_index_get(s, i);
        out.push(b);
        proof {
            assert(base + s@.subrange(0, i as int + 1) =~= (base + s@.subrange(0, i as int)).push(
                s@[i as int],
            ));
        }
        i = i + 1;
    }
    proof {
        assert(s@.subrange(0, s@.len() as int) =~= s@);
    }
}

/// The canonical decimal rendering of `n`, as owned bytes.
pub fn dec_u64_vec(n: u64) -> (v: Vec<u8>)
    ensures
        v@ == dec_bytes(n as nat),
{
    let mut rev: Vec<u8> = Vec::new();
    let mut m = n;
    proof {
        assert(rev@.reverse() =~= Seq::<u8>::empty());
        assert(dec_bytes(n as nat) =~= dec_bytes(m as nat) + rev@.reverse());
    }
    loop
        invariant
            dec_bytes(n as nat) == dec_bytes(m as nat) + rev@.reverse(),
        ensures
            m < 10,
            dec_bytes(n as nat) == dec_bytes(m as nat) + rev@.reverse(),
        decreases m,
    {
        if m < 10 {
            break ;
        }
        let d: u8 = (m % 10) as u8 + DIGIT_0;
        proof {
            vstd::arithmetic::div_mod::lemma_fundamental_div_mod(m as int, 10);
            assert(dec_bytes(m as nat) == dec_bytes((m / 10) as nat).push(d));
            assert(rev@.push(d).reverse() =~= seq![d] + rev@.reverse());
            assert(dec_bytes((m / 10) as nat) + (seq![d] + rev@.reverse()) =~= (dec_bytes(
                (m / 10) as nat,
            ).push(d)) + rev@.reverse());
        }
        rev.push(d);
        m = m / 10;
    }
    let mut v: Vec<u8> = Vec::new();
    v.push((m as u8) + DIGIT_0);
    proof {
        assert(v@ =~= dec_bytes(m as nat));
        assert(v@ =~= dec_bytes(m as nat) + rev@.reverse().subrange(0, 0));
    }
    let mut i = rev.len();
    while i > 0
        invariant
            i <= rev@.len(),
            dec_bytes(n as nat) == dec_bytes(m as nat) + rev@.reverse(),
            v@ == dec_bytes(m as nat) + rev@.reverse().subrange(0, rev@.len() - i),
        decreases i,
    {
        i = i - 1;
        let b = rev[i];
        v.push(b);
        proof {
            assert(rev@.reverse()[rev@.len() - 1 - i] == rev@[i as int]);
            assert(v@ =~= dec_bytes(m as nat) + rev@.reverse().subrange(0, rev@.len() - i));
        }
    }
    proof {
        assert(rev@.reverse().subrange(0, rev@.len() as int) =~= rev@.reverse());
    }
    v
}

/// Lower-cased copy of `s[from..to]`.
pub fn lower_range(s: &[u8], from: usize, to: usize) -> (v: Vec<u8>)
    requires
        from <= to <= s@.len(),
    ensures
        v@ == lower_bytes(s@.subrange(from as int, to as int)),
{
    let mut v: Vec<u8> = Vec::new();
    let mut i = from;
    proof {
        assert(v@ =~= lower_bytes(s@.subrange(from as int, from as int)));
    }
    while i < to
        invariant
            from <= i <= to <= s@.len(),
            v@ == lower_bytes(s@.subrange(from as int, i as int)),
        decreases to - i,
    {
        let b = *vstd::slice::slice_index_get(s, i);
        let lb = if UPPER_A <= b && b <= UPPER_Z {
            b + 32
        } else {
            b
        };
        proof {
            let pre = s@.subrange(from as int, i as int);
            let post = s@.subrange(from as int, i as int + 1);
            lemma_lower_bytes(pre);
            lemma_lower_bytes(post);
            assert forall|k: int| 0 <= k < post.len() implies lower_bytes(post)[k] == lower_bytes(
                pre,
            ).push(lower_byte(s@[i as int]))[k] by {
                assert(post[k] == s@[from + k]);
                if k < pre.len() {
                    assert(pre[k] == s@[from + k]);
                }
            }
            assert(lower_bytes(post) =~= lower_bytes(pre).push(lower_byte(s@[i as int])));
        }
        v.push(lb);
        i = i + 1;
    }
    v
}

} // verus!
