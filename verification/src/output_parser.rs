//! The simulator-output parser: reads the free-text stdout of one run into
//! a dose table, a total CPU time, and a finished flag, each independently
//! fallible.  The scan is strictly line-oriented: skip a header block closed
//! by its second `==` banner, pass a run of dot-leader lines, find the CPU
//! time line, read the dose table under its dashed rule, and treat the run
//! as finished only when the `finishSimulation` marker ends the text.
use vstd::prelude::*;

use crate::text::{
    chars_vec, is_space_char, last_index_of, lemma_last_index_of, split_lines, split_lines_vec,
    string_from_chars, subvec, trim, trim_vec, views_of,
};
use crate::simulation::{RegionScore, RegionScoreV, SingSimParsedOutput};
use vstd::string::StringExecFns;

verus! {

/// The parsed output in mathematical form.
pub struct ParsedOutV {
    pub dose: Result<Seq<RegionScoreV>, Seq<char>>,
    pub total_cpu_time: Result<Seq<char>, Seq<char>>,
    pub simulation_finished: Result<bool, Seq<char>>,
}

// ---------------------------------------------------------------------------
// line predicates

pub open spec fn cpu_prefix() -> Seq<char> {
    seq!['T', 'o', 't', 'a', 'l', ' ', 'c', 'p', 'u', ' ', 't', 'i', 'm', 'e', ' ', 'f', 'o', 'r', ' ', 't', 'h', 'i', 's', ' ', 'r', 'u', 'n']
}

pub open spec fn finished_prefix() -> Seq<char> {
    seq!['F', 'i', 'n', 'i', 's', 'h', 'e', 'd', ' ', 's', 'i', 'm', 'u', 'l', 'a', 't', 'i', 'o', 'n']
}

pub open spec fn finish_marker() -> Seq<char> {
    seq!['f', 'i', 'n', 'i', 's', 'h', 'S', 'i', 'm', 'u', 'l', 'a', 't', 'i', 'o', 'n']
}

pub open spec fn starts_with(l: Seq<char>, p: Seq<char>) -> bool {
    l.len() >= p.len() && l.take(p.len() as int) == p
}

pub open spec fn contains_at(l: Seq<char>, p: Seq<char>, i: int) -> bool {
    0 <= i && i + p.len() <= l.len() && l.subrange(i, i + p.len()) == p
}

pub open spec fn contains_seq(l: Seq<char>, p: Seq<char>) -> bool {
    exists|i: int| contains_at(l, p, i)
}

/// The predicates the scan skips forward to.
#[derive(Clone, Copy, Debug, PartialEq, Eq)]
pub enum Pred {
    Banner,
    Dashes,
    FinishedSim,
    CpuLine,
    HasFinishMarker,
}

pub open spec fn pred_holds(p: Pred, l: Seq<char>) -> bool {
    match p {
        Pred::Banner => l.len() >= 2 && l[0] == '=' && l[1] == '=',
        Pred::Dashes => l.len() >= 2 && l[0] == '-' && l[1] == '-',
        Pred::FinishedSim => starts_with(l, finished_prefix()),
        Pred::CpuLine => starts_with(l, cpu_prefix()),
        Pred::HasFinishMarker => contains_seq(l, finish_marker()),
    }
}

/// The first index at or after `i` whose line satisfies `p`, or the line
/// count when none does.
pub open spec fn find_from(ls: Seq<Seq<char>>, i: int, p: Pred) -> int
    decreases ls.len() - i,
{
    if i < 0 || i >= ls.len() {
        ls.len() as int
    } else if pred_holds(p, ls[i]) {
        i
    } else {
        find_from(ls, i + 1, p)
    }
}

pub proof fn lemma_find_from(ls: Seq<Seq<char>>, i: int, p: Pred)
    requires
        0 <= i <= ls.len(),
    ensures
        i <= find_from(ls, i, p) <= ls.len(),
        find_from(ls, i, p) < ls.len() ==> pred_holds(p, ls[find_from(ls, i, p)]),
        forall|j: int| i <= j < find_from(ls, i, p) ==> !pred_holds(p, #[trigger] ls[j]),
    decreases ls.len() - i,
{
    if i < ls.len() && !pred_holds(p, ls[i]) {
        lemma_find_from(ls, i + 1, p);
    }
}

fn prefix_matches(l: &Vec<char>, pat: &Vec<char>) -> (b: bool)
    ensures
        b == starts_with(l@, pat@),
{
    if l.len() < pat.len() {
        proof {
            assert(!starts_with(l@, pat@));
        }
        return false;
    }
    let mut i: usize = 0;
    while i < pat.len()
        invariant
            0 <= i <= pat@.len() <= l@.len(),
            forall|j: int| 0 <= j < i ==> l@[j] == pat@[j],
        decreases pat@.len() - i,
    {
        if l[i] != pat[i] {
            proof {
                assert(l@.take(pat@.len() as int)[i as int] == l@[i as int]);
            }
            return false;
        }
        i += 1;
    }
    proof {
        assert(l@.take(pat@.len() as int) =~= pat@);
    }
    true
}

fn contains_pattern(l: &Vec<char>, pat: &Vec<char>) -> (b: bool)
    requires
        pat@.len() >= 1,
    ensures
        b == contains_seq(l@, pat@),
{
    if pat.len() > l.len() {
        proof {
            assert forall|i: int| !contains_at(l@, pat@, i) by {}
        }
        return false;
    }
    let mut s: usize = 0;
    while s <= l.len() - pat.len()
        invariant
            1 <= pat@.len() <= l@.len(),
            0 <= s <= l@.len() - pat@.len() + 1,
            forall|i: int| 0 <= i < s ==> !contains_at(l@, pat@, i),
        decreases l@.len() - pat@.len() + 1 - s,
    {
        let end: usize = s + pat.len();
        let mut k: usize = s;
        let mut hit = true;
        while k < end
            invariant
                s <= k <= end,
                end == s + pat@.len(),
                end <= l@.len(),
                hit ==> forall|j: int| 0 <= j < k - s ==> l@[s + j] == pat@[j],
                !hit ==> exists|j: int| 0 <= j < k - s && l@[s + j] != pat@[j],
            decreases end - k,
        {
            if l[k] != pat[k - s] {
                hit = false;
            }
            k += 1;
        }
        proof {
            if !hit {
                let j = choose|j: int| 0 <= j < pat@.len() && l@[s + j] != pat@[j];
                assert(l@.subrange(s as int, s + pat@.len())[j] == l@[s + j]);
                assert(!contains_at(l@, pat@, s as int));
            }
        }
        if hit {
            proof {
                assert(l@.subrange(s as int, s + pat@.len()) =~= pat@);
                assert(contains_at(l@, pat@, s as int));
            }
            return true;
        }
        s += 1;
    }
    proof {
        assert forall|i: int| !contains_at(l@, pat@, i) by {
            if i > l@.len() - pat@.len() {
            }
        }
    }
    false
}

fn cpu_prefix_vec() -> (r: Vec<char>)
    ensures
        r@ == cpu_prefix(),
{
    let r = chars_vec("Total cpu time for this run");
    proof {
        reveal_strlit("Total cpu time for this run");
        assert("Total cpu time for this run"@ =~= cpu_prefix());
    }
    r
}

fn finished_prefix_vec() -> (r: Vec<char>)
    ensures
        r@ == finished_prefix(),
{
    let r = chars_vec("Finished simulation");
    proof {
        reveal_strlit("Finished simulation");
        assert("Finished simulation"@ =~= finished_prefix());
    }
    r
}

fn finish_marker_vec() -> (r: Vec<char>)
    ensures
        r@ == finish_marker(),
{
    let r = chars_vec("finishSimulation");
    proof {
        reveal_strlit("finishSimulation");
        assert("finishSimulation"@ =~= finish_marker());
    }
    r
}

fn line_pred(l: &Vec<char>, p: Pred) -> (b: bool)
    ensures
        b == pred_holds(p, l@),
{
    match p {
        Pred::Banner => l.len() >= 2 && l[0] == '=' && l[1] == '=',
        Pred::Dashes => l.len() >= 2 && l[0] == '-' && l[1] == '-',
        Pred::FinishedSim => prefix_matches(l, &finished_prefix_vec()),
        Pred::CpuLine => prefix_matches(l, &cpu_prefix_vec()),
        Pred::HasFinishMarker => {
            let pat = finish_marker_vec();
            proof {
                assert(pat@.len() == 16);
            }
            contains_pattern(l, &pat)
        },
    }
}

fn find_line(lines: &Vec<Vec<char>>, start: usize, p: Pred) -> (r: usize)
    requires
        start <= lines@.len(),
    ensures
        r == find_from(views_of(lines@), start as int, p),
        start <= r <= lines@.len(),
{
    let ghost ls = views_of(lines@);
    let mut i: usize = start;
    proof {
        lemma_find_from(ls, start as int, p);
    }
    while i < lines.len()
        invariant
            start <= i <= lines@.len(),
            ls == views_of(lines@),
            forall|j: int| start <= j < i ==> !pred_holds(p, #[trigger] ls[j]),
            start as int <= find_from(ls, start as int, p) <= ls.len(),
            find_from(ls, start as int, p) < ls.len() ==> pred_holds(
                p,
                ls[find_from(ls, start as int, p)],
            ),
            forall|j: int|
                start <= j < find_from(ls, start as int, p) ==> !pred_holds(p, #[trigger] ls[j]),
        decreases lines@.len() - i,
    {
        if line_pred(&lines[i], p) {
            proof {
                assert(ls[i as int] == lines@[i as int]@);
                if find_from(ls, start as int, p) != i as int {
                    if find_from(ls, start as int, p) < i {
                        assert(!pred_holds(p, ls[find_from(ls, start as int, p)]));
                    }
                }
            }
            return i;
        }
        proof {
            assert(ls[i as int] == lines@[i as int]@);
        }
        i += 1;
    }
    proof {
        if find_from(ls, start as int, p) < ls.len() {
            assert(!pred_holds(p, ls[find_from(ls, start as int, p)]));
        }
    }
    lines.len()
}

// ---------------------------------------------------------------------------
// single-line parsers

pub open spec fn pm_marker() -> Seq<char> {
    seq![' ', '+', '/', '-', ' ']
}

pub open spec fn sec_head() -> Seq<char> {
    seq![' ', '(', 's', 'e', 'c']
}

/// The CPU line's fixed head including its colon.
pub open spec fn cpu_colon_prefix() -> Seq<char> {
    cpu_prefix() + seq![':']
}

/// The last index `q <= hi` where the `+/-` marker sits, or -1.
pub open spec fn last_pm_le(l: Seq<char>, hi: int) -> int
    decreases hi + 1,
{
    if hi < 0 {
        -1
    } else if contains_at(l, pm_marker(), hi) {
        hi
    } else {
        last_pm_le(l, hi - 1)
    }
}

pub proof fn lemma_last_pm_le(l: Seq<char>, hi: int)
    ensures
        -1 <= last_pm_le(l, hi),
        last_pm_le(l, hi) <= (if hi < 0 { -1int } else { hi }),
        last_pm_le(l, hi) >= 0 ==> contains_at(l, pm_marker(), last_pm_le(l, hi)),
        forall|q: int| last_pm_le(l, hi) < q <= hi ==> !contains_at(l, pm_marker(), q),
    decreases hi + 1,
{
    if hi >= 0 && !contains_at(l, pm_marker(), hi) {
        lemma_last_pm_le(l, hi - 1);
    }
}

/// The last whitespace index `w <= hi`, or -1.
pub open spec fn last_ws_le(l: Seq<char>, hi: int) -> int
    decreases hi + 1,
{
    if hi < 0 {
        -1
    } else if hi < l.len() && is_space_char(l[hi]) {
        hi
    } else {
        last_ws_le(l, hi - 1)
    }
}

pub proof fn lemma_last_ws_le(l: Seq<char>, hi: int)
    ensures
        -1 <= last_ws_le(l, hi),
        last_ws_le(l, hi) <= (if hi < 0 { -1int } else { hi }),
        last_ws_le(l, hi) >= 0 ==> last_ws_le(l, hi) < l.len() && is_space_char(
            l[last_ws_le(l, hi)],
        ),
        forall|w: int|
            last_ws_le(l, hi) < w <= hi && w < l.len() ==> !is_space_char(#[trigger] l[w]),
    decreases hi + 1,
{
    if hi >= 0 && !(hi < l.len() && is_space_char(l[hi])) {
        lemma_last_ws_le(l, hi - 1);
    }
}

/// Whether the seconds tail `" (sec" X ")"` sits at `q`.
pub open spec fn sec_at(l: Seq<char>, q: int) -> bool {
    &&& 0 <= q
    &&& q + 7 <= l.len()
    &&& l.subrange(q, q + 5) == sec_head()
    &&& l[q + 5] != '\n'
    &&& l[q + 6] == ')'
}

pub open spec fn last_sec_le(l: Seq<char>, hi: int) -> int
    decreases hi + 1,
{
    if hi < 0 {
        -1
    } else if sec_at(l, hi) {
        hi
    } else {
        last_sec_le(l, hi - 1)
    }
}

pub proof fn lemma_last_sec_le(l: Seq<char>, hi: int)
    ensures
        -1 <= last_sec_le(l, hi),
        last_sec_le(l, hi) <= (if hi < 0 { -1int } else { hi }),
        last_sec_le(l, hi) >= 0 ==> sec_at(l, last_sec_le(l, hi)),
        forall|q: int| last_sec_le(l, hi) < q <= hi ==> !sec_at(l, q),
    decreases hi + 1,
{
    if hi >= 0 && !sec_at(l, hi) {
        lemma_last_sec_le(l, hi - 1);
    }
}

/// The first index at or after `i` holding a non-whitespace character, or
/// the length.
pub open spec fn ws_run_end(l: Seq<char>, i: int) -> int
    decreases l.len() - i,
{
    if i < 0 || i >= l.len() {
        l.len() as int
    } else if is_space_char(l[i]) {
        ws_run_end(l, i + 1)
    } else {
        i
    }
}

pub proof fn lemma_ws_run_end(l: Seq<char>, i: int)
    requires
        0 <= i <= l.len(),
    ensures
        i <= ws_run_end(l, i) <= l.len(),
        forall|j: int| i <= j < ws_run_end(l, i) ==> is_space_char(#[trigger] l[j]),
        ws_run_end(l, i) < l.len() ==> !is_space_char(l[ws_run_end(l, i)]),
    decreases l.len() - i,
{
    if i < l.len() && is_space_char(l[i]) {
        lemma_ws_run_end(l, i + 1);
    }
}

pub open spec fn dose_no_match_msg(l: Seq<char>) -> Seq<char> {
    "Cannot match dose line "@ + l
}

pub open spec fn dose_bad_value_msg(l: Seq<char>) -> Seq<char> {
    "Cannot parse dose value from "@ + l
}

pub open spec fn dose_bad_rstd_msg(l: Seq<char>) -> Seq<char> {
    "Cannot parse dose rstd from "@ + l
}

/// One dose-table line: a region name, a dose value, and a percentage, as
/// `name  value +/- rstd%` — the name ending at the last whitespace before
/// the last `+/-` marker that still has a `%` after it, the percentage text
/// reaching to the line's last `%`.
pub open spec fn parse_dose_line(l: Seq<char>) -> Result<RegionScoreV, Seq<char>> {
    let r = last_index_of(l, '%');
    let q = last_pm_le(l, r - 5);
    let w = last_ws_le(l, q - 1);
    if r < 5 || q < 0 || w < 0 {
        Err(dose_no_match_msg(l))
    } else {
        let value = l.subrange(w + 1, q);
        let rstd = trim(l.subrange(q + 5, r));
        if !crate::numbers::is_f64_text(value) {
            Err(dose_bad_value_msg(l))
        } else if !crate::numbers::is_f64_text(rstd) {
            Err(dose_bad_rstd_msg(l))
        } else {
            Ok(RegionScoreV { name: trim(l.take(w)), value, rstd_percent: rstd })
        }
    }
}

pub open spec fn cpu_fail_msg(l: Seq<char>) -> Seq<char> {
    "Cannot parse total cpu time from "@ + l
}

/// The CPU-time line: its fixed head, optional whitespace, the seconds
/// text, and the `(sec.)` tail.
pub open spec fn parse_cpu_line(l: Seq<char>) -> Result<Seq<char>, Seq<char>> {
    if !starts_with(l, cpu_colon_prefix()) {
        Err(cpu_fail_msg(l))
    } else {
        let q = last_sec_le(l, l.len() - 7);
        if q < 28 {
            Err(cpu_fail_msg(l))
        } else {
            let a = ws_run_end(l, 28);
            let start = if a < q {
                a
            } else {
                q
            };
            let value = l.subrange(start, q);
            if crate::numbers::is_f64_text(value) {
                Ok(value)
            } else {
                Err(cpu_fail_msg(l))
            }
        }
    }
}

// dot-leader key/value lines

/// Whether index `m` can end the key: a non-dot followed by two dots.
pub open spec fn dot_split_at(t: Seq<char>, m: int) -> bool {
    0 <= m && m + 2 < t.len() && t[m] != '.' && t[m + 1] == '.' && t[m + 2] == '.'
}

pub open spec fn last_dot_split(t: Seq<char>, hi: int) -> int
    decreases hi + 1,
{
    if hi < 0 {
        -1
    } else if dot_split_at(t, hi) {
        hi
    } else {
        last_dot_split(t, hi - 1)
    }
}

pub proof fn lemma_last_dot_split(t: Seq<char>, hi: int)
    ensures
        -1 <= last_dot_split(t, hi),
        last_dot_split(t, hi) <= (if hi < 0 { -1int } else { hi }),
        last_dot_split(t, hi) >= 0 ==> dot_split_at(t, last_dot_split(t, hi)),
        forall|m: int| last_dot_split(t, hi) < m <= hi ==> !dot_split_at(t, m),
    decreases hi + 1,
{
    if hi >= 0 && !dot_split_at(t, hi) {
        lemma_last_dot_split(t, hi - 1);
    }
}

/// The first index at or after `i` holding a non-dot character, or the
/// length.
pub open spec fn dot_run_end(t: Seq<char>, i: int) -> int
    decreases t.len() - i,
{
    if i < 0 || i >= t.len() {
        t.len() as int
    } else if t[i] == '.' {
        dot_run_end(t, i + 1)
    } else {
        i
    }
}

pub proof fn lemma_dot_run_end(t: Seq<char>, i: int)
    requires
        0 <= i <= t.len(),
    ensures
        i <= dot_run_end(t, i) <= t.len(),
        forall|j: int| i <= j < dot_run_end(t, i) ==> #[trigger] t[j] == '.',
        dot_run_end(t, i) < t.len() ==> t[dot_run_end(t, i)] != '.',
    decreases t.len() - i,
{
    if i < t.len() && t[i] == '.' {
        lemma_dot_run_end(t, i + 1);
    }
}

/// A dot-leader line `key...value`: the key ends at the last non-dot
/// followed by a run of at least two dots; the value follows the run.
pub open spec fn parse_dot_kv(t: Seq<char>) -> Option<(Seq<char>, Seq<char>)> {
    let m = last_dot_split(t, t.len() - 3);
    if m < 0 {
        None
    } else {
        Some((t.take(m + 1), t.skip(dot_run_end(t, m + 1))))
    }
}

fn find_last_pm(l: &Vec<char>, hi: usize) -> (r: Option<usize>)
    requires
        hi < l@.len() || hi == 0,
    ensures
        match r {
            Some(q) => last_pm_le(l@, hi as int) == q as int,
            None => last_pm_le(l@, hi as int) < 0,
        },
{
    let n = l.len();
    proof {
        lemma_last_pm_le(l@, hi as int);
    }
    let mut q: usize = if hi < n {
        hi + 1
    } else {
        n
    };
    proof {
        if hi >= n {
            assert(hi == 0 && n == 0);
        }
    }
    while q > 0
        invariant
            n == l@.len(),
            0 <= q <= hi + 1,
            forall|j: int| q <= j <= hi ==> !contains_at(l@, pm_marker(), j),
            -1 <= last_pm_le(l@, hi as int),
            last_pm_le(l@, hi as int) <= hi as int,
            last_pm_le(l@, hi as int) >= 0 ==> contains_at(l@, pm_marker(), last_pm_le(l@, hi as int)),
            forall|j: int| last_pm_le(l@, hi as int) < j <= hi as int ==> !contains_at(l@, pm_marker(), j),
        decreases q,
    {
        q -= 1;
        let ok = n >= 5 && q <= n - 5 && l[q] == ' ' && l[q + 1] == '+' && l[q + 2] == '/'
            && l[q + 3] == '-' && l[q + 4] == ' ';
        proof {
            if ok {
                assert(l@.subrange(q as int, q + 5) =~= pm_marker());
                assert(contains_at(l@, pm_marker(), q as int));
            } else {
                if contains_at(l@, pm_marker(), q as int) {
                    let sub = l@.subrange(q as int, q + 5);
                    assert(l@[q as int] == sub[0]);
                    assert(l@[q + 1] == sub[1]);
                    assert(l@[q + 2] == sub[2]);
                    assert(l@[q + 3] == sub[3]);
                    assert(l@[q + 4] == sub[4]);
                    assert(false);
                }
            }
        }
        if ok {
            proof {
                if last_pm_le(l@, hi as int) != q as int {
                    assert(false);
                }
            }
            return Some(q);
        }
    }
    None
}

fn find_last_ws(l: &Vec<char>, hi: usize) -> (r: Option<usize>)
    requires
        hi < l@.len() || hi == 0,
    ensures
        match r {
            Some(w) => last_ws_le(l@, hi as int) == w as int,
            None => last_ws_le(l@, hi as int) < 0,
        },
{
    let n = l.len();
    proof {
        lemma_last_ws_le(l@, hi as int);
    }
    let mut w: usize = if hi < n {
        hi + 1
    } else {
        n
    };
    proof {
        if hi >= n {
            assert(hi == 0 && n == 0);
        }
    }
    while w > 0
        invariant
            n == l@.len(),
            0 <= w <= hi + 1,
            hi < l@.len() || hi == 0,
            forall|j: int| w <= j <= hi && j < l@.len() ==> !is_space_char(#[trigger] l@[j]),
            -1 <= last_ws_le(l@, hi as int),
            last_ws_le(l@, hi as int) <= hi as int,
            last_ws_le(l@, hi as int) >= 0 ==> last_ws_le(l@, hi as int) < l@.len()
                && is_space_char(l@[last_ws_le(l@, hi as int)]),
            forall|j: int|
                last_ws_le(l@, hi as int) < j <= hi as int && j < l@.len() ==> !is_space_char(
                    #[trigger] l@[j],
                ),
        decreases w,
    {
        w -= 1;
        if w < l.len() && crate::text::is_space(l[w]) {
            proof {
                if last_ws_le(l@, hi as int) != w as int {
                    assert(false);
                }
            }
            return Some(w);
        }
    }
    None
}

fn find_last_sec(l: &Vec<char>, hi: usize) -> (r: Option<usize>)
    requires
        hi < l@.len() || hi == 0,
    ensures
        match r {
            Some(q) => last_sec_le(l@, hi as int) == q as int,
            None => last_sec_le(l@, hi as int) < 0,
        },
{
    let n = l.len();
    proof {
        lemma_last_sec_le(l@, hi as int);
    }
    let mut q: usize = if hi < n {
        hi + 1
    } else {
        n
    };
    proof {
        if hi >= n {
            assert(hi == 0 && n == 0);
        }
    }
    while q > 0
        invariant
            n == l@.len(),
            0 <= q <= hi + 1,
            forall|j: int| q <= j <= hi ==> !sec_at(l@, j),
            -1 <= last_sec_le(l@, hi as int),
            last_sec_le(l@, hi as int) <= hi as int,
            last_sec_le(l@, hi as int) >= 0 ==> sec_at(l@, last_sec_le(l@, hi as int)),
            forall|j: int| last_sec_le(l@, hi as int) < j <= hi as int ==> !sec_at(l@, j),
        decreases q,
    {
        q -= 1;
        let ok = n >= 7 && q <= n - 7 && l[q] == ' ' && l[q + 1] == '(' && l[q + 2] == 's'
            && l[q + 3] == 'e' && l[q + 4] == 'c' && l[q + 5] != '\n' && l[q + 6] == ')';
        proof {
            if ok {
                assert(l@.subrange(q as int, q + 5) =~= sec_head());
                assert(sec_at(l@, q as int));
            } else {
                if sec_at(l@, q as int) {
                    let sub = l@.subrange(q as int, q + 5);
                    assert(l@[q as int] == sub[0]);
                    assert(l@[q + 1] == sub[1]);
                    assert(l@[q + 2] == sub[2]);
                    assert(l@[q + 3] == sub[3]);
                    assert(l@[q + 4] == sub[4]);
                    assert(false);
                }
            }
        }
        if ok {
            proof {
                if last_sec_le(l@, hi as int) != q as int {
                    assert(false);
                }
            }
            return Some(q);
        }
    }
    None
}

/// Parses one dose-table line `name  value +/- rstd%` into its three
/// captured texts.
pub fn parse_geometry_dose(line: &str) -> (r: Result<RegionScore, String>)
    ensures
        match r {
            Ok(rs) => parse_dose_line(line@) matches Ok(v) && rs@ == v,
            Err(m) => parse_dose_line(line@) matches Err(e) && m@ == e,
        },
{
    let l = chars_vec(line);
    parse_dose_line_vec(&l)
}

/// Parses one dose-table line into its three captured texts.
fn parse_dose_line_vec(l: &Vec<char>) -> (r: Result<RegionScore, String>)
    ensures
        match r {
            Ok(rs) => parse_dose_line(l@) matches Ok(v) && rs@ == v,
            Err(m) => parse_dose_line(l@) matches Err(e) && m@ == e,
        },
{
    let text = string_from_chars(l);
    proof {
        lemma_last_index_of(l@, '%');
    }
    let rpos = match crate::text::find_last(l, '%') {
        Some(rp) => rp,
        None => {
            return Err(String::from_str("Cannot match dose line ").concat(text.as_str()));
        },
    };
    if rpos < 5 {
        return Err(String::from_str("Cannot match dose line ").concat(text.as_str()));
    }
    proof {
        lemma_last_pm_le(l@, rpos - 5);
    }
    let q = match find_last_pm(l, rpos - 5) {
        Some(q) => q,
        None => {
            return Err(String::from_str("Cannot match dose line ").concat(text.as_str()));
        },
    };
    if q == 0 {
        proof {
            lemma_last_ws_le(l@, -1);
        }
        return Err(String::from_str("Cannot match dose line ").concat(text.as_str()));
    }
    proof {
        assert(q < l@.len());
        lemma_last_ws_le(l@, q - 1);
    }
    let w = match find_last_ws(l, q - 1) {
        Some(w) => w,
        None => {
            return Err(String::from_str("Cannot match dose line ").concat(text.as_str()));
        },
    };
    let value = subvec(l, w + 1, q);
    let rstd = trim_vec(&subvec(l, q + 5, rpos));
    proof {
        assert(l@.subrange(w + 1, q as int) == value@);
        assert(l@.subrange(q + 5, rpos as int) =~= l@.subrange(q + 5, rpos as int));
    }
    if !crate::numbers::is_f64_chars(&value) {
        return Err(String::from_str("Cannot parse dose value from ").concat(text.as_str()));
    }
    if !crate::numbers::is_f64_chars(&rstd) {
        return Err(String::from_str("Cannot parse dose rstd from ").concat(text.as_str()));
    }
    let name = trim_vec(&subvec(l, 0, w));
    proof {
        assert(l@.subrange(0, w as int) =~= l@.take(w as int));
    }
    Ok(
        RegionScore {
            name: string_from_chars(&name),
            value: string_from_chars(&value),
            rstd_percent: string_from_chars(&rstd),
        },
    )
}

/// Parses the CPU-time line into the seconds text.
fn parse_cpu_line_vec(l: &Vec<char>) -> (r: Result<String, String>)
    ensures
        match r {
            Ok(t) => parse_cpu_line(l@) matches Ok(v) && t@ == v,
            Err(m) => parse_cpu_line(l@) matches Err(e) && m@ == e,
        },
{
    let text = string_from_chars(l);
    let head = cpu_colon_prefix_vec();
    if !prefix_matches(l, &head) {
        return Err(String::from_str("Cannot parse total cpu time from ").concat(text.as_str()));
    }
    if l.len() < 7 {
        proof {
            assert(starts_with(l@, cpu_colon_prefix()));
            assert(l@.len() >= 28);
        }
        return Err(String::from_str("Cannot parse total cpu time from ").concat(text.as_str()));
    }
    proof {
        lemma_last_sec_le(l@, l@.len() - 7);
    }
    let q = match find_last_sec(l, l.len() - 7) {
        Some(q) => q,
        None => {
            return Err(
                String::from_str("Cannot parse total cpu time from ").concat(text.as_str()),
            );
        },
    };
    if q < 28 {
        return Err(String::from_str("Cannot parse total cpu time from ").concat(text.as_str()));
    }
    proof {
        lemma_ws_run_end(l@, 28);
    }
    let mut a: usize = 28;
    while a < l.len() && crate::text::is_space(l[a])
        invariant
            28 <= a <= l@.len(),
            forall|j: int| 28 <= j < a ==> is_space_char(#[trigger] l@[j]),
            28 <= ws_run_end(l@, 28) <= l@.len(),
            forall|j: int| 28 <= j < ws_run_end(l@, 28) ==> is_space_char(#[trigger] l@[j]),
            ws_run_end(l@, 28) < l@.len() ==> !is_space_char(l@[ws_run_end(l@, 28)]),
        decreases l@.len() - a,
    {
        a += 1;
    }
    proof {
        if a as int != ws_run_end(l@, 28) {
            if (a as int) < ws_run_end(l@, 28) {
                assert(is_space_char(l@[a as int]));
            } else {
                assert(is_space_char(l@[ws_run_end(l@, 28)]));
            }
            assert(false);
        }
    }
    let start = if a < q {
        a
    } else {
        q
    };
    let value = subvec(l, start, q);
    if crate::numbers::is_f64_chars(&value) {
        Ok(string_from_chars(&value))
    } else {
        Err(String::from_str("Cannot parse total cpu time from ").concat(text.as_str()))
    }
}

fn cpu_colon_prefix_vec() -> (r: Vec<char>)
    ensures
        r@ == cpu_colon_prefix(),
{
    let mut r = cpu_prefix_vec();
    r.push(':');
    proof {
        assert(r@ =~= cpu_colon_prefix());
    }
    r
}

/// Splits a dot-leader line `key...value` at its last run of two or more
/// dots.
pub fn parse_dot_separated_key_value(s: &str) -> (r: Option<(String, String)>)
    ensures
        match r {
            Some(kv) => parse_dot_kv(s@) matches Some(p) && kv.0@ == p.0 && kv.1@ == p.1,
            None => parse_dot_kv(s@) is None,
        },
{
    let t = chars_vec(s);
    proof {
        lemma_last_dot_split(t@, t@.len() - 3);
    }
    if t.len() < 3 {
        return None;
    }
    let hi: usize = t.len() - 3;
    let mut m: usize = hi + 1;
    loop
        invariant_except_break
            0 <= m <= hi + 1,
            hi == t@.len() - 3,
            t@.len() <= usize::MAX,
            t@.len() >= 3,
            t@ == s@,
            forall|j: int| m <= j <= hi ==> !dot_split_at(t@, j),
            -1 <= last_dot_split(t@, hi as int),
            last_dot_split(t@, hi as int) <= hi as int,
            last_dot_split(t@, hi as int) >= 0 ==> dot_split_at(t@, last_dot_split(t@, hi as int)),
            forall|j: int| last_dot_split(t@, hi as int) < j <= hi as int ==> !dot_split_at(t@, j),
        ensures
            last_dot_split(t@, hi as int) < 0,
        decreases m,
    {
        if m == 0 {
            break ;
        }
        m -= 1;
        let ok = t[m] != '.' && t[m + 1] == '.' && t[m + 2] == '.';
        if ok {
            proof {
                assert(dot_split_at(t@, m as int));
                if last_dot_split(t@, hi as int) != m as int {
                    assert(false);
                }
            }
            let key = subvec(&t, 0, m + 1);
            proof {
                lemma_dot_run_end(t@, m + 1);
            }
            let mut d: usize = m + 1;
            while d < t.len() && t[d] == '.'
                invariant
                    m + 1 <= d <= t@.len(),
                    forall|j: int| m + 1 <= j < d ==> #[trigger] t@[j] == '.',
                    m + 1 <= dot_run_end(t@, m + 1) <= t@.len(),
                    forall|j: int| m + 1 <= j < dot_run_end(t@, m + 1) ==> #[trigger] t@[j] == '.',
                    dot_run_end(t@, m + 1) < t@.len() ==> t@[dot_run_end(t@, m + 1)] != '.',
                decreases t@.len() - d,
            {
                d += 1;
            }
            proof {
                if d as int != dot_run_end(t@, m + 1) {
                    if (d as int) < dot_run_end(t@, m + 1) {
                        assert(t@[d as int] == '.');
                    } else {
                        assert(t@[dot_run_end(t@, m + 1)] == '.');
                    }
                    assert(false);
                }
            }
            let val = subvec(&t, d, t.len());
            proof {
                assert(t@.subrange(0, m + 1) =~= t@.take(m + 1));
                assert(t@.subrange(d as int, t@.len() as int) =~= t@.skip(d as int));
            }
            return Some((string_from_chars(&key), string_from_chars(&val)));
        }
    }
    None
}

// ---------------------------------------------------------------------------
// the whole output

pub open spec fn eof_msg() -> Seq<char> {
    "Unexpected end of file"@
}

pub open spec fn dot_err_msg(l: Seq<char>) -> Seq<char> {
    "Cannot parse key value from "@ + l
}

pub open spec fn missing_cpu_msg() -> Seq<char> {
    "Cannot find Total cpu time for this run"@
}

pub open spec fn missing_dose_msg() -> Seq<char> {
    "Cannot find dose"@
}

pub open spec fn missing_finish_msg() -> Seq<char> {
    "Cannot find SingSimFinished"@
}

/// Whether a header line carries a dot-leader key/value pair.
pub open spec fn dot_ok(l: Seq<char>) -> bool {
    last_dot_split(trim(l), trim(l).len() - 3) >= 0
}

/// The first line at or after `i` that is not a dot-leader pair.
pub open spec fn first_bad_dot(ls: Seq<Seq<char>>, i: int) -> int
    decreases ls.len() - i,
{
    if i < 0 || i >= ls.len() {
        ls.len() as int
    } else if !dot_ok(ls[i]) {
        i
    } else {
        first_bad_dot(ls, i + 1)
    }
}

pub proof fn lemma_first_bad_dot(ls: Seq<Seq<char>>, i: int)
    requires
        0 <= i <= ls.len(),
    ensures
        i <= first_bad_dot(ls, i) <= ls.len(),
        first_bad_dot(ls, i) < ls.len() ==> !dot_ok(ls[first_bad_dot(ls, i)]),
        forall|j: int| i <= j < first_bad_dot(ls, i) ==> dot_ok(#[trigger] ls[j]),
    decreases ls.len() - i,
{
    if i < ls.len() && dot_ok(ls[i]) {
        lemma_first_bad_dot(ls, i + 1);
    }
}

/// The dose table under the dashed rule: lines collected until a blank line
/// or the end of text, each parsed as a region score, one bad line failing
/// the whole table.  Yields the result and the position after the table.
pub open spec fn collect_doses(ls: Seq<Seq<char>>, i: int) -> (Result<
    Seq<RegionScoreV>,
    Seq<char>,
>, int)
    decreases ls.len() - i,
{
    if i < 0 || i >= ls.len() {
        (Ok(Seq::empty()), ls.len() as int)
    } else if trim(ls[i]).len() == 0 {
        (Ok(Seq::empty()), i + 1)
    } else {
        match parse_dose_line(ls[i]) {
            Err(m) => (Err(m), i + 1),
            Ok(rs) => {
                let rest = collect_doses(ls, i + 1);
                match rest.0 {
                    Ok(v) => (Ok(seq![rs] + v), rest.1),
                    Err(m) => (Err(m), rest.1),
                }
            },
        }
    }
}

pub proof fn lemma_collect_doses_pos(ls: Seq<Seq<char>>, i: int)
    requires
        0 <= i <= ls.len(),
    ensures
        i <= collect_doses(ls, i).1 <= ls.len(),
    decreases ls.len() - i,
{
    if i < ls.len() && trim(ls[i]).len() > 0 && parse_dose_line(ls[i]) is Ok {
        lemma_collect_doses_pos(ls, i + 1);
    }
}

/// The whole scan, in mathematical form: the hard failure of the header
/// stage, or the three independently parsed fields.
pub open spec fn spec_parse_output(s: Seq<char>) -> Result<ParsedOutV, Seq<char>> {
    let ls = split_lines(s);
    let b1 = find_from(ls, 0, Pred::Banner);
    let b2 = find_from(ls, b1 + 1, Pred::Banner);
    let p = b2 + 1;
    if p >= ls.len() {
        Err(eof_msg())
    } else {
        let qb = find_from(ls, p, Pred::Banner);
        let qd = first_bad_dot(ls, p);
        if qd < qb {
            Err(dot_err_msg(ls[qd]))
        } else if qb >= ls.len() {
            Err(eof_msg())
        } else {
            let f = find_from(ls, qb + 1, Pred::FinishedSim);
            let p3 = if f < ls.len() {
                f + 1
            } else {
                ls.len() as int
            };
            let c = find_from(ls, p3, Pred::CpuLine);
            let cpu = if c >= ls.len() {
                Err(missing_cpu_msg())
            } else {
                parse_cpu_line(ls[c])
            };
            let p4 = if c < ls.len() {
                c + 1
            } else {
                ls.len() as int
            };
            let d = find_from(ls, p4, Pred::Dashes);
            let dose_pos = if d >= ls.len() {
                (Err(missing_dose_msg()), ls.len() as int)
            } else {
                collect_doses(ls, d + 1)
            };
            let fm = find_from(ls, dose_pos.1, Pred::HasFinishMarker);
            let fin = if fm >= ls.len() {
                Err(missing_finish_msg())
            } else {
                Ok(fm == ls.len() - 1)
            };
            Ok(
                ParsedOutV {
                    dose: dose_pos.0,
                    total_cpu_time: cpu,
                    simulation_finished: fin,
                },
            )
        }
    }
}

pub open spec fn fields_match(o: ParsedOutV, out: SingSimParsedOutput) -> bool {
    &&& (match (o.dose, out.dose) {
        (Ok(ds), Ok(dv)) => dv@.len() == ds.len() && (forall|i: int|
            0 <= i < ds.len() ==> (#[trigger] dv@[i])@ == ds[i]),
        (Err(m), Err(e)) => e@ == m,
        _ => false,
    })
    &&& (match (o.total_cpu_time, out.total_cpu_time) {
        (Ok(v), Ok(sv)) => sv@ == v,
        (Err(m), Err(e)) => e@ == m,
        _ => false,
    })
    &&& (match (o.simulation_finished, out.simulation_finished) {
        (Ok(b), Ok(c)) => b == c,
        (Err(m), Err(e)) => e@ == m,
        _ => false,
    })
}

/// What `parse_simulation_output` returns on a given text.
pub open spec fn output_matches(s: Seq<char>, r: Result<SingSimParsedOutput, String>) -> bool {
    match spec_parse_output(s) {
        Ok(o) => r matches Ok(out) && fields_match(o, out),
        Err(m) => r matches Err(e) && e@ == m,
    }
}

fn dot_ok_exec(l: &Vec<char>) -> (b: bool)
    ensures
        b == dot_ok(l@),
{
    let t = trim_vec(l);
    proof {
        lemma_last_dot_split(t@, t@.len() - 3);
    }
    if t.len() < 3 {
        return false;
    }
    let mut m: usize = 0;
    while m <= t.len() - 3
        invariant
            t@ == trim(l@),
            t@.len() >= 3,
            t@.len() <= usize::MAX,
            0 <= m <= t@.len() - 2,
            forall|j: int| 0 <= j < m ==> !dot_split_at(t@, j),
            -1 <= last_dot_split(t@, t@.len() - 3),
            last_dot_split(t@, t@.len() - 3) <= t@.len() - 3,
            last_dot_split(t@, t@.len() - 3) >= 0 ==> dot_split_at(
                t@,
                last_dot_split(t@, t@.len() - 3),
            ),
            forall|j: int|
                last_dot_split(t@, t@.len() - 3) < j <= t@.len() - 3 ==> !dot_split_at(t@, j),
        decreases t@.len() - m,
    {
        if t[m] != '.' && t[m + 1] == '.' && t[m + 2] == '.' {
            proof {
                assert(dot_split_at(t@, m as int));
            }
            return true;
        }
        proof {
            assert(!dot_split_at(t@, m as int));
        }
        m += 1;
    }
    proof {
        if last_dot_split(t@, t@.len() - 3) >= 0 {
            assert(false);
        }
    }
    false
}

/// Reads one run's stdout into its three independently fallible fields: the
/// dose table, the total CPU seconds (as printed), and the finished flag.
/// Text ending inside the header block is a hard failure of the whole scan.
pub fn parse_simulation_output(stdout: &str) -> (r: Result<SingSimParsedOutput, String>)
    ensures
        output_matches(stdout@, r),
{
    let cv = chars_vec(stdout);
    let lines = split_lines_vec(&cv);
    let ghost ls = views_of(lines@);
    let n = lines.len();
    let b1 = find_line(&lines, 0, Pred::Banner);
    let b2 = if b1 < n {
        find_line(&lines, b1 + 1, Pred::Banner)
    } else {
        proof {
            assert(find_from(ls, b1 + 1, Pred::Banner) == ls.len());
        }
        n
    };
    if b2 >= n {
        return Err(String::from_str("Unexpected end of file"));
    }
    let p = b2 + 1;
    if p >= n {
        return Err(String::from_str("Unexpected end of file"));
    }
    proof {
        lemma_find_from(ls, p as int, Pred::Banner);
        lemma_first_bad_dot(ls, p as int);
    }
    let ghost qb = find_from(ls, p as int, Pred::Banner);
    let ghost qd = first_bad_dot(ls, p as int);
    let mut j: usize = p;
    while j < n && !line_pred(&lines[j], Pred::Banner) && dot_ok_exec(&lines[j])
        invariant
            p <= j <= n,
            n == lines@.len(),
            ls == views_of(lines@),
            qb == find_from(ls, p as int, Pred::Banner),
            qd == first_bad_dot(ls, p as int),
            p as int <= qb <= ls.len(),
            p as int <= qd <= ls.len(),
            qb < ls.len() ==> pred_holds(Pred::Banner, ls[qb]),
            qd < ls.len() ==> !dot_ok(ls[qd]),
            forall|k: int| p <= k < qb ==> !pred_holds(Pred::Banner, #[trigger] ls[k]),
            forall|k: int| p <= k < qd ==> dot_ok(#[trigger] ls[k]),
            forall|k: int| p <= k < j ==> !pred_holds(Pred::Banner, #[trigger] ls[k]),
            forall|k: int| p <= k < j ==> dot_ok(#[trigger] ls[k]),
        decreases n - j,
    {
        proof {
            assert(ls[j as int] == lines@[j as int]@);
        }
        j += 1;
    }
    proof {
        assert(ls[j as int] == lines@[j as int]@ || j == n);
    }
    if j >= n {
        proof {
            if qb < ls.len() {
                assert(!pred_holds(Pred::Banner, ls[qb]));
            }
            assert(qb == ls.len());
            if qd < qb {
                assert(dot_ok(ls[qd]));
            }
        }
        return Err(String::from_str("Unexpected end of file"));
    }
    let is_banner = line_pred(&lines[j], Pred::Banner);
    if !is_banner {
        // a header line outside the dot-leader shape
        proof {
            assert(!dot_ok(ls[j as int]));
            assert(qd == j as int);
            if qd >= qb {
                assert(!pred_holds(Pred::Banner, ls[j as int]));
                assert(qb > j as int || qb == j as int);
                if qb <= j as int {
                    assert(pred_holds(Pred::Banner, ls[qb]));
                }
            }
            assert(qd < qb);
        }
        let text = string_from_chars(&lines[j]);
        return Err(String::from_str("Cannot parse key value from ").concat(text.as_str()));
    }
    proof {
        assert(qb == j as int);
        if qd < qb {
            assert(dot_ok(ls[qd]));
        }
    }
    // past the header: the three fields
    let f = find_line(&lines, j + 1, Pred::FinishedSim);
    let p3 = if f < n {
        f + 1
    } else {
        n
    };
    let c = find_line(&lines, p3, Pred::CpuLine);
    let cpu: Result<String, String> = if c >= n {
        Err(String::from_str("Cannot find Total cpu time for this run"))
    } else {
        proof {
            assert(ls[c as int] == lines@[c as int]@);
        }
        parse_cpu_line_vec(&lines[c])
    };
    let p4 = if c < n {
        c + 1
    } else {
        n
    };
    let d = find_line(&lines, p4, Pred::Dashes);
    let ghost spec_dose_pos = if d as int >= ls.len() {
        (Err::<Seq<RegionScoreV>, Seq<char>>(missing_dose_msg()), ls.len() as int)
    } else {
        collect_doses(ls, d + 1)
    };
    let mut p5: usize = n;
    let dose: Result<Vec<RegionScore>, String> = if d >= n {
        Err(String::from_str("Cannot find dose"))
    } else {
        let mut acc: Vec<RegionScore> = Vec::new();
        let mut i: usize = d + 1;
        let mut out: Result<Vec<RegionScore>, String> = Err(String::new());
        let mut done = false;
        proof {
            lemma_collect_doses_pos(ls, d + 1);
        }
        loop
            invariant_except_break
                d + 1 <= i <= n,
                n == lines@.len(),
                ls == views_of(lines@),
                !done,
                spec_dose_pos == collect_doses(ls, d + 1),
                (d as int) < ls.len(),
                ({
                    let cur = collect_doses(ls, i as int);
                    &&& (cur.0 matches Ok(v) ==> (spec_dose_pos.0 matches Ok(w) && w
                        == views_rs(acc@) + v))
                    &&& (cur.0 matches Err(m) ==> (spec_dose_pos.0 matches Err(m2) && m2 == m))
                    &&& spec_dose_pos.1 == cur.1
                }),
            ensures
                done,
                (spec_dose_pos.0 matches Ok(w) ==> (out matches Ok(v) && views_rs(v@) == w)),
                (spec_dose_pos.0 matches Err(m) ==> (out matches Err(e) && e@ == m)),
                p5 as int == spec_dose_pos.1,
            decreases n - i,
        {
            if i >= n {
                proof {
                    assert(collect_doses(ls, i as int) == (Ok::<Seq<RegionScoreV>, Seq<char>>(
                        Seq::empty(),
                    ), ls.len() as int));
                    assert(views_rs(acc@) + Seq::<RegionScoreV>::empty() =~= views_rs(acc@));
                }
                out = Ok(acc);
                p5 = n;
                done = true;
                break ;
            }
            proof {
                assert(ls[i as int] == lines@[i as int]@);
            }
            let ct = trim_vec(&lines[i]);
            if ct.len() == 0 {
                proof {
                    assert(views_rs(acc@) + Seq::<RegionScoreV>::empty() =~= views_rs(acc@));
                }
                out = Ok(acc);
                p5 = i + 1;
                done = true;
                break ;
            }
            match parse_dose_line_vec(&lines[i]) {
                Err(m) => {
                    out = Err(m);
                    p5 = i + 1;
                    done = true;
                    break ;
                },
                Ok(rs) => {
                    let ghost acc0 = acc@;
                    acc.push(rs);
                    proof {
                        let cur = collect_doses(ls, i as int);
                        let nxt = collect_doses(ls, i + 1);
                        assert(views_rs(acc@) =~= views_rs(acc0).push(rs@));
                        match nxt.0 {
                            Ok(v) => {
                                assert(cur.0 == Ok::<Seq<RegionScoreV>, Seq<char>>(
                                    seq![rs@] + v,
                                ));
                                assert(views_rs(acc0) + (seq![rs@] + v) =~= views_rs(acc@) + v);
                            },
                            Err(_) => {},
                        }
                    }
                    i += 1;
                },
            }
        }
        out
    };
    let fm = find_line(&lines, p5, Pred::HasFinishMarker);
    let fin: Result<bool, String> = if fm >= n {
        Err(String::from_str("Cannot find SingSimFinished"))
    } else {
        Ok(fm == n - 1)
    };
    Ok(SingSimParsedOutput { dose, total_cpu_time: cpu, simulation_finished: fin })
}

pub open spec fn views_rs(v: Seq<RegionScore>) -> Seq<RegionScoreV> {
    Seq::new(v.len(), |i: int| v[i]@)
}

} // verus!
