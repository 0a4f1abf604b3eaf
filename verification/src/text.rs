//! Character and line utilities shared by the configuration tokenizer and the
//! output parser: whitespace classification, trimming, splitting text into
//! physical lines, and conversions between `&str` and `Vec<char>`.
use vstd::prelude::*;

verus! {

/// The Unicode `White_Space` set, as `char::is_whitespace` recognises it.
pub open spec fn is_space_char(c: char) -> bool {
    c == ' ' || c == '\t' || c == '\n' || c == '\u{0B}' || c == '\u{0C}' || c == '\r'
        || c == '\u{85}' || c == '\u{A0}' || c == '\u{1680}' || c == '\u{2000}' || c == '\u{2001}'
        || c == '\u{2002}' || c == '\u{2003}' || c == '\u{2004}' || c == '\u{2005}'
        || c == '\u{2006}' || c == '\u{2007}' || c == '\u{2008}' || c == '\u{2009}'
        || c == '\u{200A}' || c == '\u{2028}' || c == '\u{2029}' || c == '\u{202F}'
        || c == '\u{205F}' || c == '\u{3000}'
}

pub fn is_space(c: char) -> (b: bool)
    ensures
        b == is_space_char(c),
{
    c == ' ' || c == '\t' || c == '\n' || c == '\u{0B}' || c == '\u{0C}' || c == '\r'
        || c == '\u{85}' || c == '\u{A0}' || c == '\u{1680}' || c == '\u{2000}' || c == '\u{2001}'
        || c == '\u{2002}' || c == '\u{2003}' || c == '\u{2004}' || c == '\u{2005}'
        || c == '\u{2006}' || c == '\u{2007}' || c == '\u{2008}' || c == '\u{2009}'
        || c == '\u{200A}' || c == '\u{2028}' || c == '\u{2029}' || c == '\u{202F}'
        || c == '\u{205F}' || c == '\u{3000}'
}

/// Index of the first occurrence of `c` in `s`, or -1 if `c` does not occur.
pub open spec fn first_index_of(s: Seq<char>, c: char) -> int
    decreases s.len(),
{
    if s.len() == 0 {
        -1
    } else if s[0] == c {
        0
    } else {
        let r = first_index_of(s.drop_first(), c);
        if r < 0 {
            -1
        } else {
            r + 1
        }
    }
}

/// Index of the last occurrence of `c` in `s`, or -1 if `c` does not occur.
pub open spec fn last_index_of(s: Seq<char>, c: char) -> int
    decreases s.len(),
{
    if s.len() == 0 {
        -1
    } else if s.last() == c {
        s.len() - 1
    } else {
        last_index_of(s.drop_last(), c)
    }
}

pub proof fn lemma_first_index_of(s: Seq<char>, c: char)
    ensures
        -1 <= first_index_of(s, c) < s.len(),
        first_index_of(s, c) >= 0 ==> s[first_index_of(s, c)] == c,
        forall|j: int| 0 <= j < s.len() && (j < first_index_of(s, c) || first_index_of(s, c) < 0)
            ==> s[j] != c,
    decreases s.len(),
{
    if s.len() > 0 && s[0] != c {
        lemma_first_index_of(s.drop_first(), c);
        let r = first_index_of(s, c);
        assert forall|j: int| 0 <= j < s.len() && (j < r || r < 0) implies s[j] != c by {
            if j >= 1 {
                assert(s.drop_first()[j - 1] == s[j]);
            }
        }
    }
}

pub proof fn lemma_last_index_of(s: Seq<char>, c: char)
    ensures
        -1 <= last_index_of(s, c) < s.len(),
        last_index_of(s, c) >= 0 ==> s[last_index_of(s, c)] == c,
        forall|j: int| last_index_of(s, c) < j < s.len() ==> s[j] != c,
    decreases s.len(),
{
    if s.len() > 0 && s.last() != c {
        lemma_last_index_of(s.drop_last(), c);
        assert(forall|j: int| 0 <= j < s.len() - 1 ==> s.drop_last()[j] == s[j]);
    }
}

/// `first_index_of` over a concatenation whose left part lacks `c`.
pub proof fn lemma_first_index_of_concat_left_free(a: Seq<char>, b: Seq<char>, c: char)
    requires
        forall|j: int| 0 <= j < a.len() ==> a[j] != c,
    ensures
        first_index_of(a + b, c) == if first_index_of(b, c) < 0 {
            -1int
        } else {
            a.len() + first_index_of(b, c)
        },
    decreases a.len(),
{
    lemma_first_index_of(b, c);
    if a.len() == 0 {
        assert(a + b =~= b);
    } else {
        assert((a + b)[0] == a[0]);
        assert((a + b).drop_first() =~= a.drop_first() + b);
        lemma_first_index_of_concat_left_free(a.drop_first(), b, c);
    }
}

/// `last_index_of` over a concatenation whose right part lacks `c`.
pub proof fn lemma_last_index_of_concat_right_free(a: Seq<char>, b: Seq<char>, c: char)
    requires
        forall|j: int| 0 <= j < b.len() ==> b[j] != c,
    ensures
        last_index_of(a + b, c) == last_index_of(a, c),
    decreases b.len(),
{
    if b.len() == 0 {
        assert(a + b =~= a);
    } else {
        assert((a + b).last() == b.last());
        assert((a + b).drop_last() =~= a + b.drop_last());
        lemma_last_index_of_concat_right_free(a, b.drop_last(), c);
    }
}

pub fn find_first(v: &Vec<char>, c: char) -> (r: Option<usize>)
    ensures
        match r {
            Some(i) => first_index_of(v@, c) == i as int,
            None => first_index_of(v@, c) < 0,
        },
{
    let mut i: usize = 0;
    proof {
        lemma_first_index_of(v@, c);
    }
    while i < v.len()
        invariant
            0 <= i <= v@.len(),
            forall|j: int| 0 <= j < i ==> v@[j] != c,
            -1 <= first_index_of(v@, c) < v@.len(),
            first_index_of(v@, c) >= 0 ==> v@[first_index_of(v@, c)] == c,
            forall|j: int|
                0 <= j < v@.len() && (j < first_index_of(v@, c) || first_index_of(v@, c) < 0)
                    ==> v@[j] != c,
        decreases v@.len() - i,
    {
        if v[i] == c {
            return Some(i);
        }
        i += 1;
    }
    None
}

pub fn find_last(v: &Vec<char>, c: char) -> (r: Option<usize>)
    ensures
        match r {
            Some(i) => last_index_of(v@, c) == i as int,
            None => last_index_of(v@, c) < 0,
        },
{
    let mut i: usize = v.len();
    proof {
        lemma_last_index_of(v@, c);
    }
    while i > 0
        invariant
            0 <= i <= v@.len(),
            forall|j: int| i <= j < v@.len() ==> v@[j] != c,
            -1 <= last_index_of(v@, c) < v@.len(),
            last_index_of(v@, c) >= 0 ==> v@[last_index_of(v@, c)] == c,
            forall|j: int| last_index_of(v@, c) < j < v@.len() ==> v@[j] != c,
        decreases i,
    {
        i -= 1;
        if v[i] == c {
            return Some(i);
        }
    }
    None
}

/// `s` with its leading whitespace removed.
pub open spec fn trim_left(s: Seq<char>) -> Seq<char>
    decreases s.len(),
{
    if s.len() > 0 && is_space_char(s[0]) {
        trim_left(s.drop_first())
    } else {
        s
    }
}

/// `s` with its trailing whitespace removed.
pub open spec fn trim_right(s: Seq<char>) -> Seq<char>
    decreases s.len(),
{
    if s.len() > 0 && is_space_char(s.last()) {
        trim_right(s.drop_last())
    } else {
        s
    }
}

/// `s` with whitespace removed from both ends, as `str::trim` does.
pub open spec fn trim(s: Seq<char>) -> Seq<char> {
    trim_right(trim_left(s))
}

pub proof fn lemma_trim_left_skip(s: Seq<char>, i: int)
    requires
        0 <= i <= s.len(),
        forall|j: int| 0 <= j < i ==> is_space_char(s[j]),
        i < s.len() ==> !is_space_char(s[i]),
    ensures
        trim_left(s) == s.skip(i),
    decreases i,
{
    if i == 0 {
        assert(s.skip(0) =~= s);
    } else {
        assert(is_space_char(s[0]));
        assert(s.drop_first() =~= s.skip(1));
        lemma_trim_left_skip(s.skip(1), i - 1);
        assert(s.skip(1).skip(i - 1) =~= s.skip(i));
    }
}

pub proof fn lemma_trim_right_take(s: Seq<char>, i: int)
    requires
        0 <= i <= s.len(),
        forall|j: int| i <= j < s.len() ==> is_space_char(s[j]),
        i > 0 ==> !is_space_char(s[i - 1]),
    ensures
        trim_right(s) == s.take(i),
    decreases s.len() - i,
{
    if i == s.len() {
        assert(s.take(i) =~= s);
        if s.len() > 0 && is_space_char(s.last()) {
            assert(false);
        }
    } else {
        assert(is_space_char(s.last()));
        assert(s.drop_last() =~= s.take(s.len() - 1));
        lemma_trim_right_take(s.take(s.len() - 1), i);
        assert(s.take(s.len() - 1).take(i) =~= s.take(i));
    }
}

/// Trimming leaves no whitespace at either end, and a string without
/// whitespace at its ends trims to itself.
pub proof fn lemma_trim_props(s: Seq<char>)
    ensures
        trim(s).len() > 0 ==> !is_space_char(trim(s)[0]) && !is_space_char(trim(s).last()),
        (s.len() > 0 ==> !is_space_char(s[0]) && !is_space_char(s.last())) ==> trim(s) == s,
        trim(s).len() <= s.len(),
{
    lemma_trim_left_props(s);
    lemma_trim_right_props(trim_left(s));
}

/// A character absent from `s` is absent from `trim(s)`.
pub proof fn lemma_trim_free(s: Seq<char>, c: char)
    requires
        forall|k: int| 0 <= k < s.len() ==> s[k] != c,
    ensures
        forall|j: int| 0 <= j < trim(s).len() ==> trim(s)[j] != c,
{
    lemma_trim_left_props(s);
    lemma_trim_right_props(trim_left(s));
    let tl = trim_left(s);
    let a = s.len() - tl.len();
    assert forall|j: int| 0 <= j < trim(s).len() implies trim(s)[j] != c by {
        assert(trim(s)[j] == tl[j]);
        assert(tl == s.skip(a));
        assert(tl[j] == s[j + a]);
    }
}

pub proof fn lemma_trim_left_props(s: Seq<char>)
    ensures
        trim_left(s).len() > 0 ==> !is_space_char(trim_left(s)[0]),
        trim_left(s).len() > 0 ==> trim_left(s).last() == s.last() && s.len() > 0,
        s.len() > 0 && !is_space_char(s[0]) ==> trim_left(s) == s,
        trim_left(s).len() <= s.len(),
        trim_left(s) == s.skip(s.len() - trim_left(s).len()),
    decreases s.len(),
{
    if s.len() > 0 && is_space_char(s[0]) {
        lemma_trim_left_props(s.drop_first());
        let d = s.drop_first();
        let k = d.len() - trim_left(d).len();
        assert(d =~= s.skip(1));
        assert(d.skip(k) =~= s.skip(k + 1));
    } else {
        assert(s.skip(0) =~= s);
    }
}

pub proof fn lemma_trim_right_props(s: Seq<char>)
    ensures
        trim_right(s).len() > 0 ==> !is_space_char(trim_right(s).last()),
        trim_right(s).len() > 0 ==> trim_right(s)[0] == s[0] && s.len() > 0,
        s.len() > 0 && !is_space_char(s.last()) ==> trim_right(s) == s,
        trim_right(s).len() <= s.len(),
        trim_right(s) == s.take(trim_right(s).len() as int),
    decreases s.len(),
{
    if s.len() > 0 && is_space_char(s.last()) {
        lemma_trim_right_props(s.drop_last());
        let d = s.drop_last();
        assert(d =~= s.take(s.len() - 1));
        assert(d.take(trim_right(d).len() as int) =~= s.take(trim_right(d).len() as int));
    } else {
        assert(s.take(s.len() as int) =~= s);
    }
}

/// `c` does not occur in `s`.
pub open spec fn no_char(s: Seq<char>, c: char) -> bool {
    forall|j: int| 0 <= j < s.len() ==> s[j] != c
}

pub proof fn lemma_trim_left_concat_spaces(a: Seq<char>, s: Seq<char>)
    requires
        forall|j: int| 0 <= j < a.len() ==> is_space_char(a[j]),
    ensures
        trim_left(a + s) == trim_left(s),
    decreases a.len(),
{
    if a.len() == 0 {
        assert(a + s =~= s);
    } else {
        assert((a + s)[0] == a[0]);
        assert((a + s).drop_first() =~= a.drop_first() + s);
        lemma_trim_left_concat_spaces(a.drop_first(), s);
    }
}

pub proof fn lemma_trim_right_concat_spaces(s: Seq<char>, b: Seq<char>)
    requires
        forall|j: int| 0 <= j < b.len() ==> is_space_char(b[j]),
    ensures
        trim_right(s + b) == trim_right(s),
    decreases b.len(),
{
    if b.len() == 0 {
        assert(s + b =~= s);
    } else {
        assert((s + b).last() == b.last());
        assert((s + b).drop_last() =~= s + b.drop_last());
        lemma_trim_right_concat_spaces(s, b.drop_last());
    }
}

/// `trim_left` passes over a left part that trims to nothing, and otherwise
/// stops inside it.
pub proof fn lemma_trim_left_concat(s: Seq<char>, b: Seq<char>)
    ensures
        trim_left(s + b) == if trim_left(s).len() > 0 {
            trim_left(s) + b
        } else {
            trim_left(b)
        },
    decreases s.len(),
{
    if s.len() == 0 {
        assert(s + b =~= b);
    } else if is_space_char(s[0]) {
        assert((s + b)[0] == s[0]);
        assert((s + b).drop_first() =~= s.drop_first() + b);
        lemma_trim_left_concat(s.drop_first(), b);
    } else {
        assert((s + b)[0] == s[0]);
    }
}

/// Whitespace padding on either side does not change the trimmed text.
pub proof fn lemma_trim_pad(a: Seq<char>, s: Seq<char>, b: Seq<char>)
    requires
        forall|j: int| 0 <= j < a.len() ==> is_space_char(a[j]),
        forall|j: int| 0 <= j < b.len() ==> is_space_char(b[j]),
    ensures
        trim(a + s + b) == trim(s),
{
    assert(a + s + b =~= a + (s + b));
    lemma_trim_left_concat_spaces(a, s + b);
    lemma_trim_left_concat(s, b);
    if trim_left(s).len() > 0 {
        lemma_trim_right_concat_spaces(trim_left(s), b);
    } else {
        lemma_trim_left_props(b);
        lemma_trim_right_concat_spaces(Seq::empty(), b);
        assert(Seq::<char>::empty() + b =~= b);
        let tb = trim_left(b);
        assert(tb == b.skip(b.len() - tb.len()));
        if tb.len() > 0 {
            assert(is_space_char(tb[0]));
            assert(false);
        }
        assert(trim_right(tb) == trim_right(Seq::<char>::empty()));
    }
}

/// `trim` is idempotent.
pub proof fn lemma_trim_idempotent(s: Seq<char>)
    ensures
        trim(trim(s)) == trim(s),
{
    lemma_trim_props(s);
    lemma_trim_props(trim(s));
}

/// A string ending in a non-space keeps its last character through `trim`.
pub proof fn lemma_trim_last(s: Seq<char>)
    requires
        s.len() > 0,
        !is_space_char(s.last()),
    ensures
        trim(s).len() > 0,
        trim(s).last() == s.last(),
{
    lemma_trim_left_props(s);
    let tl = trim_left(s);
    if tl.len() == 0 {
        assert(tl == s.skip(s.len() - tl.len()));
        assert(s.skip(s.len() as int) =~= Seq::<char>::empty());
        let a = s.len() - tl.len();
        assert(a == s.len());
        assert(false) by {
            assert(tl.len() == 0);
            assert(s.skip(a as int).len() == 0);
            assert(trim_left(s).len() == 0);
            lemma_trim_left_all_space(s);
        }
    }
    assert(tl.last() == s.last());
    lemma_trim_right_props(tl);
    assert(trim_right(tl) == tl);
}

/// A string that trims to nothing is all whitespace.
pub proof fn lemma_trim_left_all_space(s: Seq<char>)
    requires
        trim_left(s).len() == 0,
    ensures
        forall|j: int| 0 <= j < s.len() ==> is_space_char(s[j]),
    decreases s.len(),
{
    if s.len() > 0 {
        if is_space_char(s[0]) {
            lemma_trim_left_all_space(s.drop_first());
            assert(forall|j: int| 1 <= j < s.len() ==> s[j] == s.drop_first()[j - 1]);
        } else {
            assert(trim_left(s) == s);
        }
    }
}

/// `trim(s)` is a contiguous piece of `s`; a character occurring only at the
/// very end of `s` cannot survive inside it unless it ends the trimmed text.
pub proof fn lemma_trim_is_subrange(s: Seq<char>)
    ensures
        exists|a: int, b: int|
            0 <= a <= b <= s.len() && trim(s) == #[trigger] s.subrange(a, b),
{
    lemma_trim_left_props(s);
    lemma_trim_right_props(trim_left(s));
    let tl = trim_left(s);
    let a = s.len() - tl.len();
    let tr = trim_right(tl);
    assert(tl == s.skip(a as int));
    assert(tr == tl.take(tr.len() as int));
    assert(tl.take(tr.len() as int) =~= s.subrange(a as int, a + tr.len()));
    assert(trim(s) == s.subrange(a as int, a + tr.len()));
}

/// A character absent from all but possibly the final position of `s` is
/// absent from `trim(s)` whenever it is whitespace.
pub proof fn lemma_trim_free_but_last(s: Seq<char>, c: char)
    requires
        is_space_char(c),
        forall|k: int| 0 <= k < s.len() - 1 ==> s[k] != c,
    ensures
        no_char(trim(s), c),
{
    lemma_trim_is_subrange(s);
    let (a, b): (int, int) = choose|a: int, b: int|
        0 <= a <= b <= s.len() && trim(s) == #[trigger] s.subrange(a, b);
    lemma_trim_props(s);
    assert forall|j: int| 0 <= j < trim(s).len() implies trim(s)[j] != c by {
        assert(trim(s)[j] == s[a + j]);
        if a + j == s.len() - 1 {
            assert(j == trim(s).len() - 1 || a + trim(s).len() - 1 > s.len() - 1);
            assert(trim(s).last() == s[a + trim(s).len() - 1]);
            if trim(s)[j] == c {
                assert(is_space_char(trim(s).last()));
                assert(false);
            }
        }
    }
}

/// The physical lines of `s`: segments cut after each `'\n'`, the newline
/// kept with its line, the last line possibly without one.  Text ending in a
/// newline has no empty final line, as a buffered reader sees it.
pub open spec fn split_lines(s: Seq<char>) -> Seq<Seq<char>>
    decreases s.len(),
    via split_lines_dec
{
    if s.len() == 0 {
        Seq::empty()
    } else {
        let i = first_index_of(s, '\n');
        if i < 0 {
            seq![s]
        } else {
            seq![s.take(i + 1)] + split_lines(s.skip(i + 1))
        }
    }
}

#[via_fn]
proof fn split_lines_dec(s: Seq<char>) {
    lemma_first_index_of(s, '\n');
}

/// Every physical line is non-empty and holds a newline only as its final
/// character.
pub proof fn lemma_split_lines_shape(s: Seq<char>)
    ensures
        forall|i: int| 0 <= i < split_lines(s).len() ==> (#[trigger] split_lines(s)[i]).len() > 0,
        forall|i: int, j: int|
            0 <= i < split_lines(s).len() && 0 <= j < split_lines(s)[i].len() - 1
                ==> #[trigger] split_lines(s)[i][j] != '\n',
    decreases s.len(),
{
    if s.len() > 0 {
        lemma_first_index_of(s, '\n');
        let k = first_index_of(s, '\n');
        if k >= 0 {
            lemma_split_lines_shape(s.skip(k + 1));
            let ls = split_lines(s);
            assert forall|i: int| 0 <= i < ls.len() implies (#[trigger] ls[i]).len() > 0 by {
                if i > 0 {
                    assert(ls[i] == split_lines(s.skip(k + 1))[i - 1]);
                }
            }
            assert forall|i: int, j: int|
                0 <= i < ls.len() && 0 <= j < ls[i].len() - 1 implies #[trigger] ls[i][j]
                != '\n' by {
                if i == 0 {
                    assert(ls[0] == s.take(k + 1));
                    assert(s.take(k + 1)[j] == s[j]);
                } else {
                    assert(ls[i] == split_lines(s.skip(k + 1))[i - 1]);
                }
            }
        }
    }
}

pub open spec fn views_of(ls: Seq<Vec<char>>) -> Seq<Seq<char>> {
    Seq::new(ls.len(), |i: int| ls[i]@)
}

pub fn split_lines_vec(v: &Vec<char>) -> (r: Vec<Vec<char>>)
    ensures
        views_of(r@) == split_lines(v@),
{
    let mut out: Vec<Vec<char>> = Vec::new();
    let mut cur: Vec<char> = Vec::new();
    let mut i: usize = 0;
    proof {
        assert(cur@ + v@.skip(0) =~= v@);
    }
    while i < v.len()
        invariant
            0 <= i <= v@.len(),
            forall|j: int| 0 <= j < cur@.len() ==> cur@[j] != '\n',
            split_lines(v@) == views_of(out@) + split_lines(cur@ + v@.skip(i as int)),
        decreases v@.len() - i,
    {
        let c = v[i];
        let ghost prev_cur = cur@;
        let ghost prev_rest = cur@ + v@.skip(i as int);
        cur.push(c);
        i += 1;
        if c == '\n' {
            proof {
                lemma_first_index_of_concat_left_free(prev_cur, v@.skip(i - 1), '\n');
                assert(v@.skip(i - 1)[0] == c);
                assert(first_index_of(prev_rest, '\n') == prev_cur.len());
                assert(prev_rest.take(prev_cur.len() as int + 1) =~= cur@);
                assert(prev_rest.skip(prev_cur.len() as int + 1) =~= v@.skip(i as int));
                assert(views_of(out@.push(cur)) =~= views_of(out@).push(cur@));
                assert(views_of(out@) + split_lines(prev_rest) =~= views_of(out@.push(cur))
                    + split_lines(v@.skip(i as int)));
            }
            out.push(cur);
            cur = Vec::new();
            proof {
                assert(cur@ + v@.skip(i as int) =~= v@.skip(i as int));
            }
        } else {
            proof {
                assert(cur@ + v@.skip(i as int) =~= prev_rest);
            }
        }
    }
    proof {
        assert(cur@ + v@.skip(i as int) =~= cur@);
        lemma_first_index_of(cur@, '\n');
        if cur@.len() > 0 {
            assert(split_lines(cur@) =~= seq![cur@]);
        }
    }
    if cur.len() > 0 {
        proof {
            assert(views_of(out@.push(cur)) =~= views_of(out@).push(cur@));
            assert(views_of(out@) + seq![cur@] =~= views_of(out@.push(cur)));
        }
        out.push(cur);
    } else {
        proof {
            assert(views_of(out@) + split_lines(cur@) =~= views_of(out@));
        }
    }
    out
}

/// The characters of `s`, gathered through its `chars` iterator.
pub fn chars_vec(s: &str) -> (v: Vec<char>)
    ensures
        v@ == s@,
{
    broadcast use vstd::string::next_postcondition;

    let mut it = s.chars();
    proof {
        vstd::string::axiom_spec_iter(s);
    }
    let mut v: Vec<char> = Vec::new();
    loop
        invariant
            vstd::std_specs::iter::IteratorSpec::obeys_prophetic_iter_laws(&it),
            vstd::std_specs::iter::IteratorSpec::decrease(&it) is Some,
            v@ + vstd::std_specs::iter::IteratorSpec::remaining(&it) == s@,
        decreases vstd::std_specs::iter::IteratorSpec::decrease(&it)->0,
    {
        let ghost prev = it;
        match it.next() {
            Some(c) => {
                v.push(c);
                proof {
                    assert(v@ + vstd::std_specs::iter::IteratorSpec::remaining(&it) =~= s@);
                }
            },
            None => {
                proof {
                    assert(vstd::std_specs::iter::IteratorSpec::remaining(&prev).len() == 0);
                    assert(v@ =~= s@);
                }
                return v;
            },
        }
    }
}

/// Relies on `String: FromIterator<char>`: collecting characters yields the
/// string holding exactly those characters in order.
#[verifier::external_body]
pub(crate) fn string_from_chars(v: &Vec<char>) -> (s: String)
    ensures
        s@ == v@,
{
    v.iter().collect()
}

/// Copies `v[from..to]` into a fresh vector.
pub fn subvec(v: &Vec<char>, from: usize, to: usize) -> (r: Vec<char>)
    requires
        0 <= from <= to <= v@.len(),
    ensures
        r@ == v@.subrange(from as int, to as int),
{
    let mut r: Vec<char> = Vec::new();
    let mut i: usize = from;
    while i < to
        invariant
            from <= i <= to <= v@.len(),
            r@ == v@.subrange(from as int, i as int),
        decreases to - i,
    {
        r.push(v[i]);
        i += 1;
        proof {
            assert(r@ =~= v@.subrange(from as int, i as int));
        }
    }
    r
}

/// Removes whitespace from both ends, as `str::trim` does.
pub fn trim_vec(v: &Vec<char>) -> (r: Vec<char>)
    ensures
        r@ == trim(v@),
{
    let mut a: usize = 0;
    while a < v.len() && is_space(v[a])
        invariant
            0 <= a <= v@.len(),
            forall|j: int| 0 <= j < a ==> is_space_char(v@[j]),
        decreases v@.len() - a,
    {
        a += 1;
    }
    proof {
        lemma_trim_left_skip(v@, a as int);
    }
    let mut b: usize = v.len();
    while b > a && is_space(v[b - 1])
        invariant
            a <= b <= v@.len(),
            forall|j: int| b <= j < v@.len() ==> is_space_char(v@[j]),
        decreases b,
    {
        b -= 1;
    }
    let r = subvec(v, a, b);
    proof {
        let tl = v@.skip(a as int);
        if b > a {
            assert(!is_space_char(v@[b - 1]));
        }
        assert forall|j: int| (b - a) <= j < tl.len() implies is_space_char(tl[j]) by {
            assert(tl[j] == v@[j + a]);
        }
        if b > a {
            assert(tl[b - a - 1] == v@[b - 1]);
        }
        lemma_trim_right_take(tl, b - a);
        assert(tl.take(b - a) =~= v@.subrange(a as int, b as int));
    }
    r
}

} // verus!
