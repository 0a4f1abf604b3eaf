//! Decimal text: parsing unsigned integers as `str::parse::<u64>` does, and
//! printing them back, with the exact value stated in specifications.
use vstd::prelude::*;

verus! {

pub open spec fn is_digit_char(c: char) -> bool {
    '0' <= c <= '9'
}

pub open spec fn digit_val(c: char) -> int {
    c as int - '0' as int
}

pub open spec fn all_digits(s: Seq<char>) -> bool {
    forall|j: int| 0 <= j < s.len() ==> is_digit_char(#[trigger] s[j])
}

/// The number a digit string denotes.
pub open spec fn digits_val(s: Seq<char>) -> int
    decreases s.len(),
{
    if s.len() == 0 {
        0
    } else {
        digits_val(s.drop_last()) * 10 + digit_val(s.last())
    }
}

pub proof fn lemma_digits_val_nonneg(s: Seq<char>)
    requires
        all_digits(s),
    ensures
        digits_val(s) >= 0,
    decreases s.len(),
{
    if s.len() > 0 {
        assert(forall|j: int| 0 <= j < s.len() - 1 ==> s.drop_last()[j] == s[j]);
        lemma_digits_val_nonneg(s.drop_last());
    }
}

pub proof fn lemma_digits_val_take_le(s: Seq<char>, i: int)
    requires
        all_digits(s),
        0 <= i <= s.len(),
    ensures
        digits_val(s.take(i)) <= digits_val(s),
    decreases s.len() - i,
{
    if i < s.len() {
        lemma_digits_val_take_le(s, i + 1);
        assert(s.take(i + 1).drop_last() =~= s.take(i));
        assert(forall|j: int| 0 <= j < i + 1 ==> s.take(i + 1)[j] == s[j]);
        assert(all_digits(s.take(i))) by {
            assert(forall|j: int| 0 <= j < i ==> s.take(i)[j] == s[j]);
        }
        lemma_digits_val_nonneg(s.take(i));
        assert(digits_val(s.take(i + 1)) == digits_val(s.take(i)) * 10 + digit_val(s[i]));
        assert(digit_val(s[i]) >= 0);
    } else {
        assert(s.take(i) =~= s);
    }
}

/// The digit part of an unsigned decimal literal: an optional leading `+`
/// stripped, as `str::parse::<u64>` reads it.
pub open spec fn uint_body(s: Seq<char>) -> Seq<char> {
    if s.len() > 0 && s[0] == '+' {
        s.drop_first()
    } else {
        s
    }
}

/// Whether `str::parse::<u64>` accepts `s`.
pub open spec fn u64_parses(s: Seq<char>) -> bool {
    uint_body(s).len() > 0 && all_digits(uint_body(s)) && digits_val(uint_body(s)) <= u64::MAX
}

/// The value `str::parse::<u64>` reads from `s`.
pub open spec fn u64_value(s: Seq<char>) -> int {
    digits_val(uint_body(s))
}

fn digit_of(c: char) -> (r: Option<u64>)
    ensures
        match r {
            Some(d) => is_digit_char(c) && d == digit_val(c) && d <= 9,
            None => !is_digit_char(c),
        },
{
    match c {
        '0' => Some(0),
        '1' => Some(1),
        '2' => Some(2),
        '3' => Some(3),
        '4' => Some(4),
        '5' => Some(5),
        '6' => Some(6),
        '7' => Some(7),
        '8' => Some(8),
        '9' => Some(9),
        _ => None,
    }
}

pub fn is_digit(c: char) -> (b: bool)
    ensures
        b == is_digit_char(c),
{
    '0' <= c && c <= '9'
}

/// Reads an unsigned decimal number as `str::parse::<u64>` does: an optional
/// `+`, at least one digit, and no overflow.
pub fn parse_u64(v: &Vec<char>) -> (r: Option<u64>)
    ensures
        match r {
            Some(n) => u64_parses(v@) && n == u64_value(v@),
            None => !u64_parses(v@),
        },
{
    let start: usize = if v.len() > 0 && v[0] == '+' {
        1
    } else {
        0
    };
    let ghost body = uint_body(v@);
    proof {
        assert(body =~= v@.skip(start as int));
    }
    if v.len() == start {
        return None;
    }
    let mut acc: u64 = 0;
    let mut i: usize = start;
    proof {
        assert(body.take(0) =~= Seq::<char>::empty());
    }
    while i < v.len()
        invariant
            start <= i <= v@.len(),
            body == uint_body(v@),
            body == v@.skip(start as int),
            acc == digits_val(body.take(i - start)),
            all_digits(body.take(i - start)),
        decreases v@.len() - i,
    {
        let c = v[i];
        proof {
            assert(body[i - start] == v@[i as int]);
        }
        match digit_of(c) {
            None => {
                proof {
                    assert(!is_digit_char(body[i - start]));
                    assert(!all_digits(body));
                }
                return None;
            },
            Some(d) => {
                let ghost prev = body.take(i - start);
                proof {
                    assert(body.take(i - start + 1).drop_last() =~= prev);
                    assert(body.take(i - start + 1).last() == body[i - start]);
                    assert(all_digits(body.take(i - start + 1))) by {
                        assert(forall|j: int|
                            0 <= j < i - start + 1 ==> body.take(i - start + 1)[j] == body[j]);
                        assert(forall|j: int| 0 <= j < i - start ==> prev[j] == body[j]);
                    }
                }
                let step = match acc.checked_mul(10) {
                    Some(x) => x.checked_add(d),
                    None => None,
                };
                match step {
                    Some(x) => {
                        acc = x;
                        i += 1;
                    },
                    None => {
                        proof {
                            assert(digits_val(body.take(i - start + 1)) > u64::MAX);
                            if all_digits(body) {
                                lemma_digits_val_take_le(body, i - start + 1);
                                assert(digits_val(body) > u64::MAX);
                            }
                        }
                        return None;
                    },
                }
            },
        }
    }
    proof {
        assert(body.take(v@.len() - start) =~= body);
    }
    Some(acc)
}

pub open spec fn digit_char(d: int) -> char {
    if d == 0 {
        '0'
    } else if d == 1 {
        '1'
    } else if d == 2 {
        '2'
    } else if d == 3 {
        '3'
    } else if d == 4 {
        '4'
    } else if d == 5 {
        '5'
    } else if d == 6 {
        '6'
    } else if d == 7 {
        '7'
    } else if d == 8 {
        '8'
    } else {
        '9'
    }
}

/// The decimal text of `n`, without sign or padding.
pub open spec fn dec_str(n: int) -> Seq<char>
    decreases n,
{
    if n < 10 {
        seq![digit_char(n)]
    } else {
        dec_str(n / 10) + seq![digit_char(n % 10)]
    }
}

fn char_of_digit(d: u64) -> (c: char)
    requires
        d <= 9,
    ensures
        c == digit_char(d as int),
{
    match d {
        0 => '0',
        1 => '1',
        2 => '2',
        3 => '3',
        4 => '4',
        5 => '5',
        6 => '6',
        7 => '7',
        8 => '8',
        _ => '9',
    }
}

/// Prints `n` in decimal.
pub fn u64_to_chars(n: u64) -> (r: Vec<char>)
    ensures
        r@ == dec_str(n as int),
{
    let mut out: Vec<char> = Vec::new();
    let mut m: u64 = n;
    loop
        invariant_except_break
            dec_str(n as int) == dec_str(m as int) + out@,
        ensures
            dec_str(n as int) == out@,
        decreases m,
    {
        let d = m % 10;
        let next = m / 10;
        let ghost out0 = out@;
        out.insert(0, char_of_digit(d));
        proof {
            assert(out@ =~= seq![digit_char(d as int)] + out0);
        }
        if next == 0 {
            proof {
                assert(m < 10);
                assert(d == m);
                assert(dec_str(m as int) == seq![digit_char(m as int)]);
                assert(dec_str(m as int) + out0 =~= out@);
            }
            break ;
        }
        proof {
            assert(m >= 10);
            assert(dec_str(m as int) == dec_str(m as int / 10) + seq![digit_char(m as int % 10)]);
            assert(dec_str(m as int / 10) + out@ =~= (dec_str(m as int / 10) + seq![digit_char(
                m as int % 10,
            )]) + out0);
        }
        m = next;
    }
    out
}

/// ASCII letters folded to lower case; other characters unchanged.
pub open spec fn lower_alpha(c: char) -> char {
    if c == 'I' {
        'i'
    } else if c == 'N' {
        'n'
    } else if c == 'F' {
        'f'
    } else if c == 'A' {
        'a'
    } else if c == 'T' {
        't'
    } else if c == 'Y' {
        'y'
    } else {
        c
    }
}

/// Case-insensitive match against a lower-case word.
pub open spec fn matches_ci(s: Seq<char>, low: Seq<char>) -> bool {
    s.len() == low.len() && forall|i: int| 0 <= i < s.len() ==> lower_alpha(#[trigger] s[i])
        == low[i]
}

/// The first index of an exponent mark `e` or `E`, or -1.
pub open spec fn first_exp_index(s: Seq<char>) -> int
    decreases s.len(),
{
    if s.len() == 0 {
        -1
    } else if s[0] == 'e' || s[0] == 'E' {
        0
    } else {
        let r = first_exp_index(s.drop_first());
        if r < 0 {
            -1
        } else {
            r + 1
        }
    }
}

pub proof fn lemma_first_exp_index(s: Seq<char>)
    ensures
        -1 <= first_exp_index(s) < s.len(),
        first_exp_index(s) >= 0 ==> (s[first_exp_index(s)] == 'e' || s[first_exp_index(s)]
            == 'E'),
        forall|j: int|
            0 <= j < s.len() && (j < first_exp_index(s) || first_exp_index(s) < 0) ==> s[j] != 'e'
                && s[j] != 'E',
    decreases s.len(),
{
    if s.len() > 0 && !(s[0] == 'e' || s[0] == 'E') {
        lemma_first_exp_index(s.drop_first());
        let r = first_exp_index(s);
        assert forall|j: int|
            0 <= j < s.len() && (j < r || r < 0) implies s[j] != 'e' && s[j] != 'E' by {
            if j >= 1 {
                assert(s.drop_first()[j - 1] == s[j]);
            }
        }
    }
}

/// A mantissa: digits, or digits around a single decimal point, at least
/// one digit in all.
pub open spec fn mantissa_ok(m: Seq<char>) -> bool {
    let dot = crate::text::first_index_of(m, '.');
    if dot < 0 {
        m.len() > 0 && all_digits(m)
    } else {
        all_digits(m.take(dot)) && all_digits(m.skip(dot + 1)) && m.len() > 1
    }
}

/// An exponent part after the mark: an optional sign and at least one
/// digit.
pub open spec fn exp_ok(x: Seq<char>) -> bool {
    let b = if x.len() > 0 && (x[0] == '+' || x[0] == '-') {
        x.drop_first()
    } else {
        x
    };
    b.len() > 0 && all_digits(b)
}

/// The text after an optional sign, as float parsing reads it.
pub open spec fn float_body(s: Seq<char>) -> Seq<char> {
    if s.len() > 0 && (s[0] == '+' || s[0] == '-') {
        s.drop_first()
    } else {
        s
    }
}

/// Whether `str::parse::<f64>` accepts `s`: an optional sign, and one of
/// `inf`, `infinity`, `nan` (case-insensitive) or a decimal number with an
/// optional exponent.
pub open spec fn is_f64_text(s: Seq<char>) -> bool {
    let b = float_body(s);
    let e = first_exp_index(b);
    ||| matches_ci(b, seq!['i', 'n', 'f'])
    ||| matches_ci(b, seq!['i', 'n', 'f', 'i', 'n', 'i', 't', 'y'])
    ||| matches_ci(b, seq!['n', 'a', 'n'])
    ||| (if e < 0 {
        mantissa_ok(b)
    } else {
        mantissa_ok(b.take(e)) && exp_ok(b.skip(e + 1))
    })
}

fn lower_alpha_exec(c: char) -> (r: char)
    ensures
        r == lower_alpha(c),
{
    match c {
        'I' => 'i',
        'N' => 'n',
        'F' => 'f',
        'A' => 'a',
        'T' => 't',
        'Y' => 'y',
        _ => c,
    }
}

fn matches_ci_exec(v: &Vec<char>, from: usize, low: &Vec<char>) -> (b: bool)
    requires
        from <= v@.len(),
    ensures
        b == matches_ci(v@.skip(from as int), low@),
{
    let ghost s = v@.skip(from as int);
    if v.len() - from != low.len() {
        return false;
    }
    let end: usize = from + low.len();
    let mut k: usize = from;
    while k < end
        invariant
            from <= k <= end,
            end == from + low@.len(),
            end <= v@.len(),
            s == v@.skip(from as int),
            s.len() == low@.len(),
            forall|j: int| 0 <= j < k - from ==> lower_alpha(#[trigger] s[j]) == low@[j],
        decreases end - k,
    {
        proof {
            assert(s[k - from] == v@[k as int]);
        }
        if lower_alpha_exec(v[k]) != low[k - from] {
            return false;
        }
        k += 1;
    }
    true
}

fn all_digits_range(v: &Vec<char>, from: usize, to: usize) -> (b: bool)
    requires
        from <= to <= v@.len(),
    ensures
        b == all_digits(v@.subrange(from as int, to as int)),
{
    let ghost s = v@.subrange(from as int, to as int);
    let mut i: usize = from;
    while i < to
        invariant
            from <= i <= to <= v@.len(),
            s == v@.subrange(from as int, to as int),
            forall|j: int| 0 <= j < i - from ==> is_digit_char(#[trigger] s[j]),
        decreases to - i,
    {
        proof {
            assert(s[i - from] == v@[i as int]);
        }
        if !is_digit(v[i]) {
            proof {
                assert(!is_digit_char(s[i - from]));
            }
            return false;
        }
        i += 1;
    }
    true
}

/// Whether `str::parse::<f64>` accepts the text.
pub fn is_f64_chars(v: &Vec<char>) -> (b: bool)
    ensures
        b == is_f64_text(v@),
{
    let start: usize = if v.len() > 0 && (v[0] == '+' || v[0] == '-') {
        1
    } else {
        0
    };
    let ghost body = float_body(v@);
    proof {
        assert(body =~= v@.skip(start as int));
    }
    let inf = chars_low_inf();
    let infinity = chars_low_infinity();
    let nan = chars_low_nan();
    if matches_ci_exec(v, start, &inf) {
        return true;
    }
    if matches_ci_exec(v, start, &infinity) {
        return true;
    }
    if matches_ci_exec(v, start, &nan) {
        return true;
    }
    // find the exponent mark inside the body
    let mut e: usize = start;
    proof {
        lemma_first_exp_index(body);
    }
    while e < v.len() && v[e] != 'e' && v[e] != 'E'
        invariant
            start <= e <= v@.len(),
            body == v@.skip(start as int),
            forall|j: int| 0 <= j < e - start ==> body[j] != 'e' && body[j] != 'E',
            -1 <= first_exp_index(body) < body.len(),
            first_exp_index(body) >= 0 ==> (body[first_exp_index(body)] == 'e'
                || body[first_exp_index(body)] == 'E'),
            forall|j: int|
                0 <= j < body.len() && (j < first_exp_index(body) || first_exp_index(body) < 0)
                    ==> body[j] != 'e' && body[j] != 'E',
        decreases v@.len() - e,
    {
        proof {
            assert(body[e - start] == v@[e as int]);
        }
        e += 1;
    }
    let has_exp = e < v.len();
    proof {
        if has_exp {
            assert(body[e - start] == v@[e as int]);
            assert(first_exp_index(body) == e - start);
        } else {
            assert(first_exp_index(body) < 0);
        }
    }
    let mant_to: usize = e;
    let ok_mant = mantissa_range(v, start, mant_to);
    proof {
        if has_exp {
            assert(v@.subrange(start as int, mant_to as int) =~= body.take(e - start));
        } else {
            assert(v@.subrange(start as int, mant_to as int) =~= body);
        }
    }
    if !ok_mant {
        return false;
    }
    if has_exp {
        let mut xs: usize = e + 1;
        if xs < v.len() && (v[xs] == '+' || v[xs] == '-') {
            xs += 1;
        }
        let ghost xpart = body.skip(e - start + 1);
        proof {
            assert(xpart =~= v@.skip(e + 1));
            if xs == e + 2 {
                assert(xpart[0] == v@[e + 1]);
                assert(xpart.drop_first() =~= v@.skip(xs as int));
            } else {
                assert(xs == e + 1);
            }
        }
        let ok_exp = xs < v.len() && all_digits_range(v, xs, v.len());
        proof {
            assert(v@.subrange(xs as int, v@.len() as int) =~= v@.skip(xs as int));
            let xb = if xpart.len() > 0 && (xpart[0] == '+' || xpart[0] == '-') {
                xpart.drop_first()
            } else {
                xpart
            };
            assert(xb =~= v@.skip(xs as int));
        }
        ok_exp
    } else {
        true
    }
}

fn mantissa_range(v: &Vec<char>, from: usize, to: usize) -> (b: bool)
    requires
        from <= to <= v@.len(),
    ensures
        b == mantissa_ok(v@.subrange(from as int, to as int)),
{
    let ghost m = v@.subrange(from as int, to as int);
    proof {
        crate::text::lemma_first_index_of(m, '.');
    }
    // find the decimal point
    let mut d: usize = from;
    while d < to && v[d] != '.'
        invariant
            from <= d <= to <= v@.len(),
            m == v@.subrange(from as int, to as int),
            forall|j: int| 0 <= j < d - from ==> m[j] != '.',
            -1 <= crate::text::first_index_of(m, '.') < m.len(),
            crate::text::first_index_of(m, '.') >= 0 ==> m[crate::text::first_index_of(m, '.')]
                == '.',
            forall|j: int|
                0 <= j < m.len() && (j < crate::text::first_index_of(m, '.')
                    || crate::text::first_index_of(m, '.') < 0) ==> m[j] != '.',
        decreases to - d,
    {
        proof {
            assert(m[d - from] == v@[d as int]);
        }
        d += 1;
    }
    if d == to {
        proof {
            assert(crate::text::first_index_of(m, '.') < 0);
        }
        let r = to > from && all_digits_range(v, from, to);
        proof {
            assert(m =~= v@.subrange(from as int, to as int));
        }
        r
    } else {
        proof {
            assert(m[d - from] == v@[d as int]);
            assert(crate::text::first_index_of(m, '.') == d - from);
            assert(m.take(d - from) =~= v@.subrange(from as int, d as int));
            assert(m.skip(d - from + 1) =~= v@.subrange(d + 1, to as int));
        }
        let a = all_digits_range(v, from, d);
        let c = all_digits_range(v, d + 1, to);
        a && c && to - from > 1
    }
}

fn chars_low_inf() -> (r: Vec<char>)
    ensures
        r@ == seq!['i', 'n', 'f'],
{
    let mut v: Vec<char> = Vec::new();
    v.push('i');
    v.push('n');
    v.push('f');
    proof {
        assert(v@ =~= seq!['i', 'n', 'f']);
    }
    v
}

fn chars_low_infinity() -> (r: Vec<char>)
    ensures
        r@ == seq!['i', 'n', 'f', 'i', 'n', 'i', 't', 'y'],
{
    let mut v = chars_low_inf();
    v.push('i');
    v.push('n');
    v.push('i');
    v.push('t');
    v.push('y');
    proof {
        assert(v@ =~= seq!['i', 'n', 'f', 'i', 'n', 'i', 't', 'y']);
    }
    v
}

fn chars_low_nan() -> (r: Vec<char>)
    ensures
        r@ == seq!['n', 'a', 'n'],
{
    let mut v: Vec<char> = Vec::new();
    v.push('n');
    v.push('a');
    v.push('n');
    proof {
        assert(v@ =~= seq!['n', 'a', 'n']);
    }
    v
}

} // verus!
