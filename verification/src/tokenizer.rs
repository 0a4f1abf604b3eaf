//! The configuration-file tokenizer.
//!
//! A configuration is a line-oriented text.  Each physical line is cleaned
//! (comment stripped, trimmed); blank lines are skipped; a cleaned line
//! ending in a backslash continues on the next cleaned line.  Every logical
//! line is one token: a `key = value` pair (split at the last `=`), a
//! `:start name:` block opener, or a `:stop name:` block closer.  Rendering
//! prints one token per line with four spaces of indentation per open block,
//! and re-parsing a rendered stream yields the same token sequence.
use vstd::prelude::*;

use crate::text::{
    chars_vec, first_index_of, is_space_char, last_index_of, lemma_first_index_of,
    lemma_last_index_of, lemma_last_index_of_concat_right_free, lemma_split_lines_shape,
    lemma_trim_free, lemma_trim_free_but_last, lemma_trim_idempotent,
    lemma_trim_last, lemma_trim_pad, lemma_trim_props, no_char, split_lines, split_lines_vec,
    string_from_chars, subvec, trim, trim_vec, views_of, find_first, find_last,
};
use vstd::string::StringExecFns;

verus! {

/// A physical line up to its first `#`: the part a comment does not cover.
pub open spec fn before_comment(l: Seq<char>) -> Seq<char> {
    let i = first_index_of(l, '#');
    if i < 0 {
        l
    } else {
        l.take(i)
    }
}

/// One physical line cleaned: comment stripped, surrounding whitespace
/// removed.
pub open spec fn clean_line(l: Seq<char>) -> Seq<char> {
    trim(before_comment(l))
}

/// The cleaned, non-blank lines of a text, in order.
pub open spec fn clean_nonblank(ls: Seq<Seq<char>>) -> Seq<Seq<char>>
    decreases ls.len(),
{
    if ls.len() == 0 {
        Seq::empty()
    } else {
        let c = clean_line(ls[0]);
        let rest = clean_nonblank(ls.drop_first());
        if c.len() > 0 {
            seq![c] + rest
        } else {
            rest
        }
    }
}

pub proof fn lemma_clean_nonblank_push(ls: Seq<Seq<char>>, x: Seq<char>)
    ensures
        clean_nonblank(ls.push(x)) == clean_nonblank(ls) + (if clean_line(x).len() > 0 {
            seq![clean_line(x)]
        } else {
            Seq::<Seq<char>>::empty()
        }),
    decreases ls.len(),
{
    let tail: Seq<Seq<char>> = if clean_line(x).len() > 0 {
        seq![clean_line(x)]
    } else {
        Seq::empty()
    };
    if ls.len() == 0 {
        assert(ls.push(x)[0] == x);
        assert(ls.push(x).drop_first() =~= Seq::<Seq<char>>::empty());
        assert(clean_nonblank(ls.push(x).drop_first()) == Seq::<Seq<char>>::empty());
        assert(clean_nonblank(ls) + tail =~= tail);
        if clean_line(x).len() > 0 {
            assert(clean_nonblank(ls.push(x)) == seq![clean_line(x)]
                + Seq::<Seq<char>>::empty());
            assert(seq![clean_line(x)] + Seq::<Seq<char>>::empty() =~= tail);
        } else {
            assert(clean_nonblank(ls.push(x)) == Seq::<Seq<char>>::empty());
        }
    } else {
        assert(ls.push(x)[0] == ls[0]);
        assert(ls.push(x).drop_first() =~= ls.drop_first().push(x));
        lemma_clean_nonblank_push(ls.drop_first(), x);
        if clean_line(ls[0]).len() > 0 {
            assert(seq![clean_line(ls[0])] + (clean_nonblank(ls.drop_first()) + tail)
                =~= (seq![clean_line(ls[0])] + clean_nonblank(ls.drop_first())) + tail);
        }
    }
}

/// Cleans one physical line, as characters.
fn clean_line_vec(l: &Vec<char>) -> (r: Vec<char>)
    ensures
        r@ == clean_line(l@),
{
    proof {
        lemma_first_index_of(l@, '#');
    }
    let cut = match find_first(l, '#') {
        Some(i) => subvec(l, 0, i),
        None => subvec(l, 0, l.len()),
    };
    proof {
        assert(l@.subrange(0, l@.len() as int) =~= l@);
        if first_index_of(l@, '#') >= 0 {
            assert(l@.subrange(0, first_index_of(l@, '#')) =~= l@.take(first_index_of(l@, '#')));
        }
    }
    trim_vec(&cut)
}

// ---------------------------------------------------------------------------
// tokens and their classification

/// One logical line of configuration.
#[derive(Debug, Clone, PartialEq)]
pub enum Token {
    Start(String),
    Stop(String),
    KeyValue(String, String),
}

/// The mathematical shape of a token: its fields as character sequences.
pub enum TokenV {
    Start(Seq<char>),
    Stop(Seq<char>),
    KeyValue(Seq<char>, Seq<char>),
}

impl View for Token {
    type V = TokenV;

    open spec fn view(&self) -> TokenV {
        match self {
            Token::Start(n) => TokenV::Start(n@),
            Token::Stop(n) => TokenV::Stop(n@),
            Token::KeyValue(k, v) => TokenV::KeyValue(k@, v@),
        }
    }
}

pub open spec fn start_marker() -> Seq<char> {
    seq![':', 's', 't', 'a', 'r', 't', ' ']
}

pub open spec fn stop_marker() -> Seq<char> {
    seq![':', 's', 't', 'o', 'p', ' ']
}

/// Classification of one cleaned logical line, in the priority order of the
/// grammar: a line holding `=` is a key/value pair split at its last `=`;
/// otherwise `:start name:`, and `:stop name:`; anything else is no token.
pub open spec fn classify(l: Seq<char>) -> Option<TokenV> {
    let e = last_index_of(l, '=');
    if e >= 0 {
        Some(TokenV::KeyValue(trim(l.take(e)), trim(l.skip(e + 1))))
    } else if l.len() >= 8 && l.take(7) == start_marker() && l.last() == ':' {
        Some(TokenV::Start(trim(l.subrange(7, l.len() - 1))))
    } else if l.len() >= 7 && l.take(6) == stop_marker() && l.last() == ':' {
        Some(TokenV::Stop(trim(l.subrange(6, l.len() - 1))))
    } else {
        None
    }
}

pub open spec fn cannot_parse_msg(l: Seq<char>) -> Seq<char> {
    "Cannot parse "@ + l
}

pub open spec fn end_of_file_msg() -> Seq<char> {
    "End of file"@
}

/// What `Token::parse` returns on a given line.
pub open spec fn parse_result_matches(l: Seq<char>, r: Result<Token, String>) -> bool {
    match classify(l) {
        Some(t) => r matches Ok(tok) && tok@ == t,
        None => r matches Err(m) && m@ == cannot_parse_msg(l),
    }
}

fn is_start_line(l: &Vec<char>) -> (b: bool)
    ensures
        b == (l@.len() >= 8 && l@.take(7) == start_marker() && l@.last() == ':'),
{
    if l.len() < 8 {
        return false;
    }
    let b = l[0] == ':' && l[1] == 's' && l[2] == 't' && l[3] == 'a' && l[4] == 'r' && l[5] == 't'
        && l[6] == ' ' && l[l.len() - 1] == ':';
    proof {
        if b {
            assert(l@.take(7) =~= start_marker());
        }
        if l@.take(7) == start_marker() {
            assert(l@[0] == l@.take(7)[0]);
            assert(l@[1] == l@.take(7)[1]);
            assert(l@[2] == l@.take(7)[2]);
            assert(l@[3] == l@.take(7)[3]);
            assert(l@[4] == l@.take(7)[4]);
            assert(l@[5] == l@.take(7)[5]);
            assert(l@[6] == l@.take(7)[6]);
        }
    }
    b
}

fn is_stop_line(l: &Vec<char>) -> (b: bool)
    ensures
        b == (l@.len() >= 7 && l@.take(6) == stop_marker() && l@.last() == ':'),
{
    if l.len() < 7 {
        return false;
    }
    let b = l[0] == ':' && l[1] == 's' && l[2] == 't' && l[3] == 'o' && l[4] == 'p' && l[5] == ' '
        && l[l.len() - 1] == ':';
    proof {
        if b {
            assert(l@.take(6) =~= stop_marker());
        }
        if l@.take(6) == stop_marker() {
            assert(l@[0] == l@.take(6)[0]);
            assert(l@[1] == l@.take(6)[1]);
            assert(l@[2] == l@.take(6)[2]);
            assert(l@[3] == l@.take(6)[3]);
            assert(l@[4] == l@.take(6)[4]);
            assert(l@[5] == l@.take(6)[5]);
        }
    }
    b
}

/// Classifies one cleaned logical line, held as characters.
fn classify_vec(l: &Vec<char>) -> (r: Option<Token>)
    ensures
        match r {
            Some(t) => classify(l@) == Some(t@),
            None => classify(l@) is None,
        },
{
    proof {
        lemma_last_index_of(l@, '=');
    }
    match find_last(l, '=') {
        Some(e) => {
            let n = l.len();
            let k = trim_vec(&subvec(l, 0, e));
            let v = trim_vec(&subvec(l, e + 1, n));
            proof {
                assert(l@.subrange(0, e as int) =~= l@.take(e as int));
                assert(l@.subrange(e + 1, l@.len() as int) =~= l@.skip(e + 1));
            }
            Some(Token::KeyValue(string_from_chars(&k), string_from_chars(&v)))
        },
        None => {
            if is_start_line(l) {
                let n = trim_vec(&subvec(l, 7, l.len() - 1));
                Some(Token::Start(string_from_chars(&n)))
            } else if is_stop_line(l) {
                let n = trim_vec(&subvec(l, 6, l.len() - 1));
                Some(Token::Stop(string_from_chars(&n)))
            } else {
                None
            }
        },
    }
}

impl Token {
    /// Parses one cleaned logical line; any line outside the grammar is
    /// rejected with a message naming it.
    pub fn parse(s: &str) -> (r: Result<Token, String>)
        ensures
            parse_result_matches(s@, r),
    {
        let l = chars_vec(s);
        match classify_vec(&l) {
            Some(t) => Ok(t),
            None => Err(String::from_str("Cannot parse ").concat(s)),
        }
    }
}

// ---------------------------------------------------------------------------
// parsing a whole text

/// A parse failure, in mathematical form: a logical line outside the
/// grammar, or text ending in the middle of a line continuation.
pub enum ParseErrV {
    CannotParse(Seq<char>),
    UnexpectedEnd,
}

/// Parses a sequence of cleaned, non-blank lines, carrying the merged prefix
/// of an unfinished line continuation in `pending`.
pub open spec fn parse_rest(pending: Option<Seq<char>>, ls: Seq<Seq<char>>) -> Result<
    Seq<TokenV>,
    ParseErrV,
>
    decreases ls.len(),
{
    if ls.len() == 0 {
        match pending {
            None => Ok(Seq::empty()),
            Some(_) => Err(ParseErrV::UnexpectedEnd),
        }
    } else {
        let merged = match pending {
            None => ls[0],
            Some(p) => p + ls[0],
        };
        if merged.len() > 0 && merged.last() == '\\' {
            parse_rest(Some(merged.drop_last()), ls.drop_first())
        } else {
            match classify(merged) {
                None => Err(ParseErrV::CannotParse(merged)),
                Some(t) => match parse_rest(None, ls.drop_first()) {
                    Ok(ts) => Ok(seq![t] + ts),
                    Err(e) => Err(e),
                },
            }
        }
    }
}

/// The token sequence of a configuration text, or its first parse failure.
pub open spec fn spec_parse(s: Seq<char>) -> Result<Seq<TokenV>, ParseErrV> {
    parse_rest(None, clean_nonblank(split_lines(s)))
}

pub open spec fn tokens_view(ts: Seq<Token>) -> Seq<TokenV> {
    Seq::new(ts.len(), |i: int| ts[i]@)
}

/// An ordered sequence of configuration tokens.
#[derive(Debug, Clone, PartialEq)]
pub struct TokenStream {
    pub tokens: Vec<Token>,
}

impl View for TokenStream {
    type V = Seq<TokenV>;

    open spec fn view(&self) -> Seq<TokenV> {
        tokens_view(self.tokens@)
    }
}

/// What `TokenStream::parse_string` returns on a given text.
pub open spec fn parse_string_matches(s: Seq<char>, r: Result<TokenStream, String>) -> bool {
    match spec_parse(s) {
        Ok(ts) => r matches Ok(stream) && stream@ == ts,
        Err(ParseErrV::CannotParse(l)) => r matches Err(m) && m@ == cannot_parse_msg(l),
        Err(ParseErrV::UnexpectedEnd) => r matches Err(m) && m@ == end_of_file_msg(),
    }
}

impl TokenStream {
    /// Parses a whole configuration text into its token sequence.
    pub fn parse_string(s: &str) -> (r: Result<TokenStream, String>)
        ensures
            parse_string_matches(s@, r),
    {
        let cv = chars_vec(s);
        let raw = split_lines_vec(&cv);
        let mut lines: Vec<Vec<char>> = Vec::new();
        let mut i: usize = 0;
        proof {
            assert(views_of(raw@).take(0) =~= Seq::<Seq<char>>::empty());
            assert(clean_nonblank(Seq::<Seq<char>>::empty()) == Seq::<Seq<char>>::empty());
            assert(views_of(lines@) =~= Seq::<Seq<char>>::empty());
        }
        while i < raw.len()
            invariant
                0 <= i <= raw@.len(),
                views_of(lines@) == clean_nonblank(views_of(raw@).take(i as int)),
                forall|k: int| 0 <= k < lines@.len() ==> (#[trigger] lines@[k]@).len() > 0,
            decreases raw@.len() - i,
        {
            let c = clean_line_vec(&raw[i]);
            proof {
                lemma_clean_nonblank_push(views_of(raw@).take(i as int), raw@[i as int]@);
                assert(views_of(raw@).take(i as int).push(raw@[i as int]@) =~= views_of(raw@).take(
                    i + 1,
                ));
            }
            if c.len() > 0 {
                proof {
                    assert(views_of(lines@.push(c)) =~= views_of(lines@).push(c@));
                    assert(views_of(lines@).push(c@) =~= views_of(lines@) + seq![c@]);
                }
                lines.push(c);
            } else {
                proof {
                    assert(views_of(lines@) + Seq::<Seq<char>>::empty() =~= views_of(lines@));
                }
            }
            i += 1;
        }
        proof {
            assert(views_of(raw@).take(raw@.len() as int) =~= views_of(raw@));
        }
        let ghost cl = views_of(lines@);
        let mut toks: Vec<Token> = Vec::new();
        let mut pend: Vec<char> = Vec::new();
        let mut has_pend = false;
        let mut i: usize = 0;
        proof {
            assert(cl.skip(0) =~= cl);
        }
        while i < lines.len()
            invariant
                0 <= i <= lines@.len(),
                cl == views_of(lines@),
                forall|k: int| 0 <= k < lines@.len() ==> (#[trigger] lines@[k]@).len() > 0,
                ({
                    let pending_v: Option<Seq<char>> = if has_pend {
                        Some(pend@)
                    } else {
                        None
                    };
                    match parse_rest(pending_v, cl.skip(i as int)) {
                        Ok(ts) => spec_parse(s@) == Ok::<_, ParseErrV>(tokens_view(toks@) + ts),
                        Err(e) => spec_parse(s@) == Err::<Seq<TokenV>, _>(e),
                    }
                }),
            decreases lines@.len() - i,
        {
            let ghost pending_v: Option<Seq<char>> = if has_pend {
                Some(pend@)
            } else {
                None
            };
            let mut merged: Vec<char> = Vec::new();
            if has_pend {
                merged.append(&mut pend);
            }
            let mut j: usize = 0;
            let ghost base = merged@;
            while j < lines[i].len()
                invariant
                    0 <= i < lines@.len(),
                    0 <= j <= lines@[i as int]@.len(),
                    merged@ == base + lines@[i as int]@.take(j as int),
                decreases lines@[i as int]@.len() - j,
            {
                let ch = lines[i][j];
                merged.push(ch);
                j += 1;
                proof {
                    assert(base + lines@[i as int]@.take(j as int) =~= merged@);
                }
            }
            proof {
                assert(base + lines@[i as int]@.take(lines@[i as int]@.len() as int) =~= base
                    + lines@[i as int]@);
                assert(cl.skip(i as int)[0] == lines@[i as int]@);
                assert(cl.skip(i as int).drop_first() =~= cl.skip(i + 1));
                match pending_v {
                    None => {
                        assert(merged@ =~= lines@[i as int]@);
                    },
                    Some(p) => {
                        assert(merged@ == p + lines@[i as int]@);
                    },
                }
                assert(merged@.len() > 0);
            }
            let last = merged[merged.len() - 1];
            if last == '\\' {
                merged.pop();
                proof {
                    let full = match pending_v {
                        None => cl.skip(i as int)[0],
                        Some(p) => p + cl.skip(i as int)[0],
                    };
                    assert(merged@ =~= full.drop_last());
                }
                pend = merged;
                has_pend = true;
                i += 1;
            } else {
                match classify_vec(&merged) {
                    Some(t) => {
                        proof {
                            let ghost ts_old = tokens_view(toks@);
                            match parse_rest(None, cl.skip(i + 1)) {
                                Ok(ts) => {
                                    assert(tokens_view(toks@.push(t)) =~= ts_old.push(t@));
                                    assert(ts_old.push(t@) + ts =~= ts_old + (seq![t@] + ts));
                                },
                                Err(_) => {},
                            }
                        }
                        toks.push(t);
                        has_pend = false;
                        i += 1;
                    },
                    None => {
                        let text = string_from_chars(&merged);
                        return Err(String::from_str("Cannot parse ").concat(text.as_str()));
                    },
                }
            }
        }
        proof {
            assert(cl.skip(lines@.len() as int) =~= Seq::<Seq<char>>::empty());
        }
        if has_pend {
            Err(String::from_str("End of file"))
        } else {
            let stream = TokenStream { tokens: toks };
            proof {
                assert(tokens_view(toks@) + Seq::<TokenV>::empty() =~= tokens_view(toks@));
            }
            Ok(stream)
        }
    }
}

// ---------------------------------------------------------------------------
// rendering

/// The bare text of a token, without indentation.
pub open spec fn token_text(t: TokenV) -> Seq<char> {
    match t {
        TokenV::Start(n) => start_marker() + n + seq![':'],
        TokenV::Stop(n) => stop_marker() + n + seq![':'],
        TokenV::KeyValue(k, v) => k + seq![' ', '=', ' '] + v,
    }
}

pub open spec fn soft_dec_spec(x: nat) -> nat {
    if x > 0 {
        (x - 1) as nat
    } else {
        0
    }
}

/// The indentation level at which a token is printed.
pub open spec fn cur_indent(t: TokenV, ind: nat) -> nat {
    match t {
        TokenV::Stop(_) => soft_dec_spec(ind),
        _ => ind,
    }
}

/// The indentation level after a token is printed.
pub open spec fn next_indent(t: TokenV, ind: nat) -> nat {
    match t {
        TokenV::Start(_) => ind + 1,
        TokenV::Stop(_) => soft_dec_spec(ind),
        TokenV::KeyValue(_, _) => ind,
    }
}

/// `n` units of four-space indentation.
pub open spec fn indent_spaces(n: nat) -> Seq<char>
    decreases n,
{
    if n == 0 {
        Seq::empty()
    } else {
        indent_spaces((n - 1) as nat) + seq![' ', ' ', ' ', ' ']
    }
}

/// One printed line: the token at its indentation.
pub open spec fn token_line(t: TokenV, ind: nat) -> Seq<char> {
    indent_spaces(cur_indent(t, ind)) + token_text(t)
}

/// The rendered text of a token sequence: one line per token, joined by
/// newlines, indentation tracking the open blocks.
pub open spec fn render(ts: Seq<TokenV>, ind: nat) -> Seq<char>
    decreases ts.len(),
{
    if ts.len() == 0 {
        Seq::empty()
    } else if ts.len() == 1 {
        token_line(ts[0], ind)
    } else {
        token_line(ts[0], ind) + seq!['\n'] + render(ts.drop_first(), next_indent(ts[0], ind))
    }
}

/// The indentation level after rendering a whole sequence.
pub open spec fn indent_after(ts: Seq<TokenV>, ind: nat) -> nat
    decreases ts.len(),
{
    if ts.len() == 0 {
        ind
    } else {
        indent_after(ts.drop_first(), next_indent(ts[0], ind))
    }
}

pub proof fn lemma_render_push(ts: Seq<TokenV>, t: TokenV, ind: nat)
    ensures
        render(ts.push(t), ind) == if ts.len() == 0 {
            token_line(t, ind)
        } else {
            render(ts, ind) + seq!['\n'] + token_line(t, indent_after(ts, ind))
        },
        indent_after(ts.push(t), ind) == next_indent(t, indent_after(ts, ind)),
    decreases ts.len(),
{
    if ts.len() == 0 {
        assert(ts.push(t)[0] == t);
        assert(ts.push(t).len() == 1);
        assert(ts.push(t).drop_first() =~= Seq::<TokenV>::empty());
        assert(indent_after(ts.push(t), ind) == indent_after(
            ts.push(t).drop_first(),
            next_indent(t, ind),
        ));
        assert(indent_after(Seq::<TokenV>::empty(), next_indent(t, ind)) == next_indent(t, ind));
    } else {
        assert(ts.push(t)[0] == ts[0]);
        assert(ts.push(t).drop_first() =~= ts.drop_first().push(t));
        lemma_render_push(ts.drop_first(), t, next_indent(ts[0], ind));
        if ts.len() == 1 {
            assert(ts.drop_first().len() == 0);
            assert(render(ts.push(t), ind) == token_line(ts[0], ind) + seq!['\n'] + token_line(
                t,
                next_indent(ts[0], ind),
            ));
        } else {
            assert(render(ts, ind) + seq!['\n'] + token_line(t, indent_after(ts, ind)) =~= token_line(
                ts[0],
                ind,
            ) + seq!['\n'] + (render(ts.drop_first(), next_indent(ts[0], ind)) + seq!['\n']
                + token_line(t, indent_after(ts, ind))));
        }
    }
}

fn dup_token(t: &Token) -> (r: Token)
    ensures
        r@ == t@,
{
    match t {
        Token::Start(n) => Token::Start(n.clone()),
        Token::Stop(n) => Token::Stop(n.clone()),
        Token::KeyValue(k, v) => Token::KeyValue(k.clone(), v.clone()),
    }
}

/// Builds the bare text of a token.
fn token_text_exec(t: &Token) -> (r: String)
    ensures
        r@ == token_text(t@),
{
    match t {
        Token::Start(n) => {
            let r = String::from_str(":start ").concat(n.as_str()).concat(":");
            proof {
                reveal_strlit(":start ");
                reveal_strlit(":");
                assert(":start "@ =~= start_marker());
                assert(":"@ =~= seq![':']);
            }
            r
        },
        Token::Stop(n) => {
            let r = String::from_str(":stop ").concat(n.as_str()).concat(":");
            proof {
                reveal_strlit(":stop ");
                reveal_strlit(":");
                assert(":stop "@ =~= stop_marker());
                assert(":"@ =~= seq![':']);
            }
            r
        },
        Token::KeyValue(k, v) => {
            let r = String::from_str("").concat(k.as_str()).concat(" = ").concat(v.as_str());
            proof {
                reveal_strlit("");
                reveal_strlit(" = ");
                assert(" = "@ =~= seq![' ', '=', ' ']);
                assert(""@ + k@ + " = "@ + v@ =~= k@ + seq![' ', '=', ' '] + v@);
            }
            r
        },
    }
}

impl Token {
    /// The printed form of this token at `indent` levels, and the level for
    /// the next line.
    pub fn to_string_indent(self, indent: usize) -> (r: (String, usize))
        requires
            indent < usize::MAX,
        ensures
            r.0@ == token_line(self@, indent as nat),
            r.1 == next_indent(self@, indent as nat),
    {
        let cur: usize = match &self {
            Token::Stop(_) => Token::soft_dec(indent),
            _ => indent,
        };
        let nxt: usize = match &self {
            Token::Start(_) => indent + 1,
            Token::Stop(_) => Token::soft_dec(indent),
            Token::KeyValue(_, _) => indent,
        };
        let mut line = String::new();
        let mut i: usize = 0;
        while i < cur
            invariant
                0 <= i <= cur,
                line@ == indent_spaces(i as nat),
            decreases cur - i,
        {
            line.append("    ");
            i += 1;
            proof {
                reveal_strlit("    ");
                assert("    "@ =~= seq![' ', ' ', ' ', ' ']);
            }
        }
        let text = token_text_exec(&self);
        line.append(text.as_str());
        (line, nxt)
    }

    fn soft_dec(x: usize) -> (r: usize)
        ensures
            r == soft_dec_spec(x as nat),
    {
        if x > 0 {
            x - 1
        } else {
            x
        }
    }

    /// The value of a key/value token.
    pub fn value(&self) -> (r: Option<&String>)
        ensures
            match r {
                Some(v) => self@ matches TokenV::KeyValue(_, vv) && v@ == vv,
                None => !(self@ is KeyValue),
            },
    {
        match self {
            Token::KeyValue(_, v) => Some(v),
            _ => None,
        }
    }
}

impl TokenStream {
    /// Renders the stream, one token per line, indentation following the
    /// block structure.
    pub fn to_string(&self) -> (r: String)
        ensures
            r@ == render(self@, 0),
    {
        let mut out = String::new();
        let mut ind: usize = 0;
        let mut i: usize = 0;
        proof {
            assert(self@.take(0) =~= Seq::<TokenV>::empty());
        }
        while i < self.tokens.len()
            invariant
                0 <= i <= self.tokens@.len(),
                self@.len() == self.tokens@.len(),
                forall|k: int| 0 <= k < self.tokens@.len() ==> self@[k] == self.tokens@[k]@,
                ind as nat == indent_after(self@.take(i as int), 0),
                ind <= i,
                out@ == render(self@.take(i as int), 0),
            decreases self.tokens@.len() - i,
        {
            let t = dup_token(&self.tokens[i]);
            proof {
                lemma_render_push(self@.take(i as int), t@, 0);
                assert(self@.take(i as int).push(t@) =~= self@.take(i + 1));
            }
            let (line, nxt) = t.to_string_indent(ind);
            if i > 0 {
                out.append("\n");
                proof {
                    reveal_strlit("\n");
                    assert("\n"@ =~= seq!['\n']);
                }
            } else {
                proof {
                    assert(self@.take(0) =~= Seq::<TokenV>::empty());
                }
            }
            out.append(line.as_str());
            ind = nxt;
            i += 1;
        }
        proof {
            assert(self@.take(self.tokens@.len() as int) =~= self@);
        }
        out
    }
}

// ---------------------------------------------------------------------------
// the round trip: rendering a parsed stream and parsing it again

/// A field as parsing produces it: trimmed, free of newlines and comments.
pub open spec fn wf_field(s: Seq<char>) -> bool {
    trim(s) == s && no_char(s, '\n') && no_char(s, '#')
}

/// A token as parsing produces it.  Every parsed token has this shape, and
/// every token of this shape survives a render / re-parse round trip.
pub open spec fn wf_token(t: TokenV) -> bool {
    match t {
        TokenV::Start(n) => wf_field(n) && no_char(n, '='),
        TokenV::Stop(n) => wf_field(n) && no_char(n, '='),
        TokenV::KeyValue(k, v) => wf_field(k) && wf_field(v) && no_char(v, '=') && (v.len() > 0
            ==> v.last() != '\\'),
    }
}

/// A cleaned physical line.
pub open spec fn wf_line(l: Seq<char>) -> bool {
    trim(l) == l && no_char(l, '#') && no_char(l, '\n')
}

/// Cleaning a physical line (newline only at its end) yields a line in
/// canonical shape.
proof fn lemma_clean_line_wf(l: Seq<char>)
    requires
        forall|j: int| 0 <= j < l.len() - 1 ==> l[j] != '\n',
    ensures
        wf_line(clean_line(l)),
{
    lemma_first_index_of(l, '#');
    let m = first_index_of(l, '#');
    let bc = before_comment(l);
    assert(no_char(bc, '#')) by {
        if m >= 0 {
            assert(forall|j: int| 0 <= j < m ==> l[j] != '#');
            assert(forall|j: int| 0 <= j < bc.len() ==> bc[j] == l[j]);
        }
    }
    assert(forall|j: int| 0 <= j < bc.len() - 1 ==> bc[j] != '\n');
    lemma_trim_free_but_last(bc, '\n');
    lemma_trim_free(bc, '#');
    lemma_trim_idempotent(bc);
}

/// The lines surviving cleaning are non-blank and in canonical shape.
proof fn lemma_clean_nonblank_wf(ls: Seq<Seq<char>>)
    requires
        forall|i: int, j: int|
            0 <= i < ls.len() && 0 <= j < ls[i].len() - 1 ==> #[trigger] ls[i][j] != '\n',
    ensures
        forall|i: int|
            0 <= i < clean_nonblank(ls).len() ==> wf_line(#[trigger] clean_nonblank(ls)[i])
                && clean_nonblank(ls)[i].len() > 0,
    decreases ls.len(),
{
    if ls.len() > 0 {
        lemma_clean_line_wf(ls[0]);
        assert(forall|i: int, j: int|
            0 <= i < ls.drop_first().len() && 0 <= j < ls.drop_first()[i].len() - 1
                ==> #[trigger] ls.drop_first()[i][j] != '\n');
        lemma_clean_nonblank_wf(ls.drop_first());
        let c = clean_line(ls[0]);
        let rest = clean_nonblank(ls.drop_first());
        if c.len() > 0 {
            assert forall|i: int| 0 <= i < clean_nonblank(ls).len() implies wf_line(
                #[trigger] clean_nonblank(ls)[i],
            ) && clean_nonblank(ls)[i].len() > 0 by {
                if i == 0 {
                    assert(clean_nonblank(ls)[0] == c);
                } else {
                    assert(clean_nonblank(ls)[i] == rest[i - 1]);
                }
            }
        }
    }
}

/// Classification only produces tokens in canonical shape.
proof fn lemma_classify_wf(l: Seq<char>)
    requires
        wf_line(l),
        l.len() > 0,
        l.last() != '\\',
    ensures
        match classify(l) {
            Some(t) => wf_token(t),
            None => true,
        },
{
    lemma_trim_props(l);
    assert(!is_space_char(l.last()));
    lemma_last_index_of(l, '=');
    let e = last_index_of(l, '=');
    if e >= 0 {
        let pre = l.take(e);
        let sfx = l.skip(e + 1);
        assert(forall|j: int| 0 <= j < pre.len() ==> pre[j] == l[j]);
        assert(forall|j: int| 0 <= j < sfx.len() ==> sfx[j] == l[j + e + 1]);
        lemma_trim_free(pre, '\n');
        lemma_trim_free(pre, '#');
        lemma_trim_free(sfx, '\n');
        lemma_trim_free(sfx, '#');
        assert(no_char(sfx, '='));
        lemma_trim_free(sfx, '=');
        lemma_trim_idempotent(pre);
        lemma_trim_idempotent(sfx);
        if sfx.len() > 0 {
            assert(sfx.last() == l.last());
            lemma_trim_last(sfx);
        }
    } else {
        assert(no_char(l, '='));
        if l.len() >= 8 && l.take(7) == start_marker() && l.last() == ':' {
            let n = l.subrange(7, l.len() - 1);
            assert(forall|j: int| 0 <= j < n.len() ==> n[j] == l[j + 7]);
            lemma_trim_free(n, '\n');
            lemma_trim_free(n, '#');
            lemma_trim_free(n, '=');
            lemma_trim_idempotent(n);
        } else if l.len() >= 7 && l.take(6) == stop_marker() && l.last() == ':' {
            let n = l.subrange(6, l.len() - 1);
            assert(forall|j: int| 0 <= j < n.len() ==> n[j] == l[j + 6]);
            lemma_trim_free(n, '\n');
            lemma_trim_free(n, '#');
            lemma_trim_free(n, '=');
            lemma_trim_idempotent(n);
        }
    }
}

/// An unfinished continuation prefix, as the parser carries it.
pub open spec fn wf_pending(p: Option<Seq<char>>) -> bool {
    match p {
        None => true,
        Some(s) => no_char(s, '\n') && no_char(s, '#') && (s.len() > 0 ==> !is_space_char(s[0])),
    }
}

/// Whatever parses successfully is a sequence of tokens in canonical shape.
proof fn lemma_parse_rest_wf(pending: Option<Seq<char>>, ls: Seq<Seq<char>>, ts: Seq<TokenV>)
    requires
        wf_pending(pending),
        forall|i: int|
            0 <= i < ls.len() ==> wf_line(#[trigger] ls[i]) && ls[i].len() > 0,
        parse_rest(pending, ls) == Ok::<Seq<TokenV>, ParseErrV>(ts),
    ensures
        forall|i: int| 0 <= i < ts.len() ==> wf_token(#[trigger] ts[i]),
    decreases ls.len(),
{
    if ls.len() > 0 {
        let l0 = ls[0];
        lemma_trim_props(l0);
        let merged = match pending {
            None => l0,
            Some(p) => p + l0,
        };
        assert(merged.len() > 0);
        assert(merged.last() == l0.last());
        assert(!is_space_char(merged[0])) by {
            match pending {
                None => {},
                Some(p) => {
                    if p.len() > 0 {
                        assert(merged[0] == p[0]);
                    } else {
                        assert(merged =~= l0);
                    }
                },
            }
        }
        assert(no_char(merged, '\n') && no_char(merged, '#')) by {
            match pending {
                None => {},
                Some(p) => {
                    assert forall|j: int| 0 <= j < merged.len() implies merged[j] != '\n'
                        && merged[j] != '#' by {
                        if j < p.len() {
                            assert(merged[j] == p[j]);
                        } else {
                            assert(merged[j] == l0[j - p.len()]);
                        }
                    }
                },
            }
        }
        assert(forall|i: int|
            0 <= i < ls.drop_first().len() ==> wf_line(#[trigger] ls.drop_first()[i])
                && ls.drop_first()[i].len() > 0);
        if merged.last() == '\\' {
            let p2 = merged.drop_last();
            assert(wf_pending(Some(p2))) by {
                assert(forall|j: int| 0 <= j < p2.len() ==> p2[j] == merged[j]);
            }
            lemma_parse_rest_wf(Some(p2), ls.drop_first(), ts);
        } else {
            assert(wf_line(merged)) by {
                assert(!is_space_char(merged.last()));
                lemma_trim_props(merged);
            }
            lemma_classify_wf(merged);
            match classify(merged) {
                Some(t) => {
                    match parse_rest(None, ls.drop_first()) {
                        Ok(its) => {
                            lemma_parse_rest_wf(None, ls.drop_first(), its);
                            assert(ts == seq![t] + its);
                            assert forall|i: int| 0 <= i < ts.len() implies wf_token(
                                #[trigger] ts[i],
                            ) by {
                                if i == 0 {
                                    assert(ts[0] == t);
                                } else {
                                    assert(ts[i] == its[i - 1]);
                                }
                            }
                        },
                        Err(_) => {
                            assert(false);
                        },
                    }
                },
                None => {
                    assert(false);
                },
            }
        }
    }
}

/// The bare text of a token in canonical shape holds no newline, comment
/// mark, or stray `=` outside the key/value separator.
proof fn lemma_token_text_chars(t: TokenV)
    requires
        wf_token(t),
    ensures
        no_char(token_text(t), '\n'),
        no_char(token_text(t), '#'),
        token_text(t).len() > 0,
{
    match t {
        TokenV::Start(n) => {
            let text = token_text(t);
            assert forall|j: int| 0 <= j < text.len() implies text[j] != '\n' && text[j]
                != '#' by {
                if j < 7 {
                    assert(text[j] == start_marker()[j]);
                } else if j < 7 + n.len() {
                    assert(text[j] == n[j - 7]);
                } else {
                    assert(text[j] == ':');
                }
            }
        },
        TokenV::Stop(n) => {
            let text = token_text(t);
            assert forall|j: int| 0 <= j < text.len() implies text[j] != '\n' && text[j]
                != '#' by {
                if j < 6 {
                    assert(text[j] == stop_marker()[j]);
                } else if j < 6 + n.len() {
                    assert(text[j] == n[j - 6]);
                } else {
                    assert(text[j] == ':');
                }
            }
        },
        TokenV::KeyValue(k, v) => {
            let text = token_text(t);
            assert forall|j: int| 0 <= j < text.len() implies text[j] != '\n' && text[j]
                != '#' by {
                if j < k.len() {
                    assert(text[j] == k[j]);
                } else if j < k.len() + 3 {
                    assert(text[j] == seq![' ', '=', ' '][j - k.len()]);
                } else {
                    assert(text[j] == v[j - k.len() - 3]);
                }
            }
        },
    }
}

/// Cleaning the printed line of a token in canonical shape recovers the
/// token, and the cleaned line neither vanishes nor asks for a
/// continuation.
proof fn lemma_classify_rendered(t: TokenV)
    requires
        wf_token(t),
    ensures
        classify(trim(token_text(t))) == Some(t),
        trim(token_text(t)).len() > 0,
        trim(token_text(t)).last() != '\\',
{
    match t {
        TokenV::Start(_) => lemma_classify_rendered_start(t),
        TokenV::Stop(_) => lemma_classify_rendered_stop(t),
        TokenV::KeyValue(_, _) => lemma_classify_rendered_kv(t),
    }
}

#[verifier::rlimit(50)]
proof fn lemma_classify_rendered_start(t: TokenV)
    requires
        wf_token(t),
        t is Start,
    ensures
        classify(trim(token_text(t))) == Some(t),
        trim(token_text(t)).len() > 0,
        trim(token_text(t)).last() != '\\',
{
    lemma_token_text_chars(t);
    match t {
        TokenV::Start(n) => {
            let text = token_text(t);
            lemma_trim_props(n);
            assert(text[0] == ':' && text.last() == ':');
            lemma_trim_props(text);
            assert(trim(text) == text);
            assert(no_char(text, '=')) by {
                assert forall|j: int| 0 <= j < text.len() implies text[j] != '=' by {
                    if j < 7 {
                        assert(text[j] == start_marker()[j]);
                    } else if j < 7 + n.len() {
                        assert(text[j] == n[j - 7]);
                    } else {
                        assert(text[j] == ':');
                    }
                }
            }
            lemma_last_index_of(text, '=');
            assert(last_index_of(text, '=') < 0);
            assert(text.len() >= 8);
            assert(text.take(7) =~= start_marker());
            assert(text.subrange(7, text.len() - 1) =~= n);
        },
        _ => {},
    }
}

#[verifier::rlimit(50)]
proof fn lemma_classify_rendered_stop(t: TokenV)
    requires
        wf_token(t),
        t is Stop,
    ensures
        classify(trim(token_text(t))) == Some(t),
        trim(token_text(t)).len() > 0,
        trim(token_text(t)).last() != '\\',
{
    lemma_token_text_chars(t);
    match t {
        TokenV::Stop(n) => {
            let text = token_text(t);
            lemma_trim_props(n);
            assert(text[0] == ':' && text.last() == ':');
            lemma_trim_props(text);
            assert(trim(text) == text);
            assert(no_char(text, '=')) by {
                assert forall|j: int| 0 <= j < text.len() implies text[j] != '=' by {
                    if j < 6 {
                        assert(text[j] == stop_marker()[j]);
                    } else if j < 6 + n.len() {
                        assert(text[j] == n[j - 6]);
                    } else {
                        assert(text[j] == ':');
                    }
                }
            }
            lemma_last_index_of(text, '=');
            assert(last_index_of(text, '=') < 0);
            if text.len() >= 8 && text.take(7) == start_marker() && text.last() == ':' {
                assert(text.take(7)[3] == text[3]);
                assert(text[3] == stop_marker()[3]);
                assert(start_marker()[3] == 'a' && stop_marker()[3] == 'o');
                assert(false);
            }
            assert(text.len() >= 7);
            assert(text.take(6) =~= stop_marker());
            assert(text.subrange(6, text.len() - 1) =~= n);
        },
        _ => {},
    }
}

proof fn lemma_classify_rendered_kv(t: TokenV)
    requires
        wf_token(t),
        t is KeyValue,
    ensures
        classify(trim(token_text(t))) == Some(t),
        trim(token_text(t)).len() > 0,
        trim(token_text(t)).last() != '\\',
{
    match t {
        TokenV::KeyValue(k, v) => {
            if k.len() > 0 && v.len() > 0 {
                lemma_kv_nn(k, v);
            } else if k.len() == 0 && v.len() > 0 {
                lemma_kv_ev(k, v);
            } else if k.len() > 0 && v.len() == 0 {
                lemma_kv_ke(k, v);
            } else {
                lemma_kv_ee(k, v);
            }
        },
        _ => {},
    }
}

/// The separator of a printed key/value line carries its last `=`.
proof fn lemma_kv_sep(k: Seq<char>, v: Seq<char>)
    requires
        no_char(v, '='),
    ensures
        last_index_of(token_text(TokenV::KeyValue(k, v)), '=') == k.len() + 1,
        token_text(TokenV::KeyValue(k, v)).len() == k.len() + 3 + v.len(),
{
    let text = token_text(TokenV::KeyValue(k, v));
    let a = k + seq![' ', '='];
    let b = seq![' '] + v;
    assert(text =~= a + b);
    assert(no_char(b, '=')) by {
        assert forall|j: int| 0 <= j < b.len() implies b[j] != '=' by {
            if j > 0 {
                assert(b[j] == v[j - 1]);
            }
        }
    }
    lemma_last_index_of_concat_right_free(a, b, '=');
    assert(a.last() == '=');
    assert(last_index_of(a, '=') == a.len() - 1);
}

#[verifier::rlimit(50)]
proof fn lemma_kv_nn(k: Seq<char>, v: Seq<char>)
    requires
        wf_token(TokenV::KeyValue(k, v)),
        k.len() > 0,
        v.len() > 0,
    ensures
        classify(trim(token_text(TokenV::KeyValue(k, v)))) == Some(TokenV::KeyValue(k, v)),
        trim(token_text(TokenV::KeyValue(k, v))).len() > 0,
        trim(token_text(TokenV::KeyValue(k, v))).last() != '\\',
{
    let text = token_text(TokenV::KeyValue(k, v));
    lemma_trim_props(k);
    lemma_trim_props(v);
    lemma_kv_sep(k, v);
    let e: int = k.len() as int + 1;
    assert(text[0] == k[0] && !is_space_char(k[0]));
    assert(text.last() == v.last() && !is_space_char(v.last()));
    lemma_trim_props(text);
    assert(trim(text) == text);
    let tt = trim(text);
    assert(tt.take(e) =~= k + seq![' ']);
    assert(Seq::<char>::empty() + k + seq![' '] =~= k + seq![' ']);
    lemma_trim_pad(Seq::empty(), k, seq![' ']);
    assert(trim(tt.take(e)) == k);
    assert(tt.skip(e + 1) =~= seq![' '] + v);
    assert(seq![' '] + v + Seq::<char>::empty() =~= seq![' '] + v);
    lemma_trim_pad(seq![' '], v, Seq::empty());
    assert(trim(tt.skip(e + 1)) == v);
    assert(tt.last() == v.last());
}

#[verifier::rlimit(50)]
proof fn lemma_kv_ev(k: Seq<char>, v: Seq<char>)
    requires
        wf_token(TokenV::KeyValue(k, v)),
        k.len() == 0,
        v.len() > 0,
    ensures
        classify(trim(token_text(TokenV::KeyValue(k, v)))) == Some(TokenV::KeyValue(k, v)),
        trim(token_text(TokenV::KeyValue(k, v))).len() > 0,
        trim(token_text(TokenV::KeyValue(k, v))).last() != '\\',
{
    let text = token_text(TokenV::KeyValue(k, v));
    lemma_trim_props(v);
    let m = seq!['=', ' '] + v;
    assert(text =~= seq![' '] + m + Seq::<char>::empty());
    lemma_trim_pad(seq![' '], m, Seq::empty());
    assert(m[0] == '=' && m.last() == v.last() && !is_space_char(v.last()));
    lemma_trim_props(m);
    assert(trim(m) == m);
    let tt = trim(text);
    assert(tt == m);
    assert(no_char(seq![' '] + v, '=')) by {
        assert forall|j: int| 0 <= j < (seq![' '] + v).len() implies (seq![' '] + v)[j] != '=' by {
            if j > 0 {
                assert((seq![' '] + v)[j] == v[j - 1]);
            }
        }
    }
    assert(tt =~= seq!['='] + (seq![' '] + v));
    lemma_last_index_of_concat_right_free(seq!['='], seq![' '] + v, '=');
    assert(last_index_of(seq!['='], '=') == 0);
    assert(last_index_of(tt, '=') == 0);
    assert(tt.take(0) =~= Seq::<char>::empty());
    assert(trim(Seq::<char>::empty()) =~= Seq::<char>::empty());
    assert(trim(tt.take(0)) == k);
    assert(tt.skip(1) =~= seq![' '] + v);
    assert(seq![' '] + v + Seq::<char>::empty() =~= seq![' '] + v);
    lemma_trim_pad(seq![' '], v, Seq::empty());
    assert(trim(tt.skip(1)) == v);
    assert(tt.last() == v.last());
}

#[verifier::rlimit(50)]
proof fn lemma_kv_ke(k: Seq<char>, v: Seq<char>)
    requires
        wf_token(TokenV::KeyValue(k, v)),
        k.len() > 0,
        v.len() == 0,
    ensures
        classify(trim(token_text(TokenV::KeyValue(k, v)))) == Some(TokenV::KeyValue(k, v)),
        trim(token_text(TokenV::KeyValue(k, v))).len() > 0,
        trim(token_text(TokenV::KeyValue(k, v))).last() != '\\',
{
    let text = token_text(TokenV::KeyValue(k, v));
    lemma_trim_props(k);
    let m = k + seq![' ', '='];
    assert(text =~= Seq::<char>::empty() + m + seq![' ']);
    lemma_trim_pad(Seq::empty(), m, seq![' ']);
    assert(m[0] == k[0] && !is_space_char(k[0]));
    assert(m.last() == '=');
    lemma_trim_props(m);
    assert(trim(m) == m);
    let tt = trim(text);
    assert(tt == m);
    assert(last_index_of(tt, '=') == tt.len() - 1);
    let e: int = tt.len() as int - 1;
    assert(tt.take(e) =~= k + seq![' ']);
    assert(Seq::<char>::empty() + k + seq![' '] =~= k + seq![' ']);
    lemma_trim_pad(Seq::empty(), k, seq![' ']);
    assert(trim(tt.take(e)) == k);
    assert(tt.skip(e + 1) =~= Seq::<char>::empty());
    assert(trim(Seq::<char>::empty()) =~= Seq::<char>::empty());
    assert(trim(tt.skip(e + 1)) == v);
    assert(tt.last() == '=');
}

#[verifier::rlimit(50)]
proof fn lemma_kv_ee(k: Seq<char>, v: Seq<char>)
    requires
        wf_token(TokenV::KeyValue(k, v)),
        k.len() == 0,
        v.len() == 0,
    ensures
        classify(trim(token_text(TokenV::KeyValue(k, v)))) == Some(TokenV::KeyValue(k, v)),
        trim(token_text(TokenV::KeyValue(k, v))).len() > 0,
        trim(token_text(TokenV::KeyValue(k, v))).last() != '\\',
{
    let text = token_text(TokenV::KeyValue(k, v));
    assert(text =~= seq![' '] + seq!['='] + seq![' ']);
    lemma_trim_pad(seq![' '], seq!['='], seq![' ']);
    let tt = trim(text);
    assert(trim(seq!['=']) =~= seq!['=']);
    assert(tt == seq!['=']);
    assert(last_index_of(tt, '=') == 0);
    assert(tt.take(0) =~= Seq::<char>::empty());
    assert(tt.skip(1) =~= Seq::<char>::empty());
    assert(trim(Seq::<char>::empty()) =~= Seq::<char>::empty());
    assert(trim(tt.take(0)) == k);
    assert(trim(tt.skip(1)) == v);
    assert(tt.last() == '=');
}

/// A rendered token sequence in canonical shape parses back to itself.
/// Together with `lemma_parse_wf` this gives the round trip; on its own it
/// says the renderer never prints a stream its own parser would refuse.
pub proof fn lemma_render_parses(ts: Seq<TokenV>)
    requires
        forall|i: int| 0 <= i < ts.len() ==> wf_token(#[trigger] ts[i]),
    ensures
        spec_parse(render(ts, 0)) == Ok::<Seq<TokenV>, ParseErrV>(ts),
{
    lemma_clean_render(ts, 0);
    lemma_parse_cleaned(ts);
}

/// A successful parse yields only tokens in canonical shape.
pub proof fn lemma_parse_wf(s: Seq<char>, ts: Seq<TokenV>)
    requires
        spec_parse(s) == Ok::<Seq<TokenV>, ParseErrV>(ts),
    ensures
        forall|i: int| 0 <= i < ts.len() ==> wf_token(#[trigger] ts[i]),
{
    lemma_split_lines_shape(s);
    lemma_clean_nonblank_wf(split_lines(s));
    lemma_parse_rest_wf(None, clean_nonblank(split_lines(s)), ts);
}

/// The cleaned, non-blank lines a rendered token sequence yields: one line
/// per token, the bare trimmed text of each.
pub open spec fn cleaned_of(ts: Seq<TokenV>) -> Seq<Seq<char>>
    decreases ts.len(),
{
    if ts.len() == 0 {
        Seq::empty()
    } else {
        seq![trim(token_text(ts[0]))] + cleaned_of(ts.drop_first())
    }
}

proof fn lemma_indent_spaces_all_space(n: nat)
    ensures
        forall|j: int| 0 <= j < indent_spaces(n).len() ==> #[trigger] indent_spaces(n)[j] == ' ',
    decreases n,
{
    if n > 0 {
        lemma_indent_spaces_all_space((n - 1) as nat);
        assert forall|j: int| 0 <= j < indent_spaces(n).len() implies #[trigger] indent_spaces(
            n,
        )[j] == ' ' by {
            if j < indent_spaces((n - 1) as nat).len() {
                assert(indent_spaces(n)[j] == indent_spaces((n - 1) as nat)[j]);
            } else {
                assert(indent_spaces(n)[j] == seq![' ', ' ', ' ', ' '][j - indent_spaces(
                    (n - 1) as nat,
                ).len()]);
            }
        }
    }
}

/// Splitting and cleaning a rendered text gives back one cleaned line per
/// token.
proof fn lemma_clean_render(ts: Seq<TokenV>, ind: nat)
    requires
        forall|i: int| 0 <= i < ts.len() ==> wf_token(#[trigger] ts[i]),
    ensures
        clean_nonblank(split_lines(render(ts, ind))) == cleaned_of(ts),
    decreases ts.len(),
{
    if ts.len() > 0 {
        let t = ts[0];
        let line = token_line(t, ind);
        lemma_token_text_chars(t);
        lemma_indent_spaces_all_space(cur_indent(t, ind));
        lemma_classify_rendered(t);
        assert(no_char(line, '\n') && no_char(line, '#')) by {
            assert forall|j: int| 0 <= j < line.len() implies line[j] != '\n' && line[j]
                != '#' by {
                let sp = indent_spaces(cur_indent(t, ind));
                if j < sp.len() {
                    assert(line[j] == sp[j]);
                } else {
                    assert(line[j] == token_text(t)[j - sp.len()]);
                }
            }
        }
        assert(clean_line(line) == trim(token_text(t))) by {
            lemma_first_index_of(line, '#');
            if first_index_of(line, '#') >= 0 {
                assert(line[first_index_of(line, '#')] == '#');
                assert(false);
            }
            assert(before_comment(line) == line);
            assert(line =~= indent_spaces(cur_indent(t, ind)) + token_text(t)
                + Seq::<char>::empty());
            lemma_trim_pad(indent_spaces(cur_indent(t, ind)), token_text(t), Seq::empty());
        }
        if ts.len() == 1 {
            assert(render(ts, ind) == line);
            lemma_first_index_of(line, '\n');
            if first_index_of(line, '\n') >= 0 {
                assert(line[first_index_of(line, '\n')] == '\n');
                assert(false);
            }
            assert(line.len() > 0) by {
                assert(trim(token_text(t)).len() > 0);
                if line.len() == 0 {
                    assert(token_text(t).len() == 0);
                    assert(trim(Seq::<char>::empty()) =~= Seq::<char>::empty());
                }
            }
            assert(split_lines(line) == seq![line]);
            assert(clean_nonblank(seq![line]) =~= seq![clean_line(line)] + clean_nonblank(
                seq![line].drop_first(),
            )) by {
                assert(seq![line][0] == line);
                assert(clean_line(line).len() > 0);
            }
            assert(seq![line].drop_first() =~= Seq::<Seq<char>>::empty());
            assert(clean_nonblank(seq![line]) =~= seq![clean_line(line)]);
            assert(cleaned_of(ts) =~= seq![trim(token_text(t))] + cleaned_of(ts.drop_first()));
            assert(ts.drop_first().len() == 0);
            assert(cleaned_of(ts.drop_first()) == Seq::<Seq<char>>::empty());
            assert(seq![trim(token_text(t))] + Seq::<Seq<char>>::empty() =~= seq![trim(
                token_text(t),
            )]);
        } else {
            let rest = render(ts.drop_first(), next_indent(t, ind));
            assert(render(ts, ind) == line + seq!['\n'] + rest);
            assert(forall|i: int|
                0 <= i < ts.drop_first().len() ==> wf_token(#[trigger] ts.drop_first()[i]));
            lemma_clean_render(ts.drop_first(), next_indent(t, ind));
            let whole = render(ts, ind);
            assert(whole =~= line + (seq!['\n'] + rest));
            crate::text::lemma_first_index_of_concat_left_free(line, seq!['\n'] + rest, '\n');
            assert((seq!['\n'] + rest)[0] == '\n');
            assert(first_index_of(seq!['\n'] + rest, '\n') == 0);
            let cut = first_index_of(whole, '\n');
            assert(cut == line.len());
            assert(whole.len() > 0);
            assert(split_lines(whole) == seq![whole.take(cut + 1)] + split_lines(
                whole.skip(cut + 1),
            ));
            assert(whole.take(cut + 1) =~= line + seq!['\n']);
            assert(whole.skip(cut + 1) =~= rest);
            let lnl = line + seq!['\n'];
            assert(clean_line(lnl) == trim(token_text(t))) by {
                lemma_first_index_of(lnl, '#');
                if first_index_of(lnl, '#') >= 0 {
                    let p = first_index_of(lnl, '#');
                    assert(lnl[p] == '#');
                    if p < line.len() {
                        assert(false);
                    } else {
                        assert(lnl[p] == '\n');
                        assert(false);
                    }
                }
                assert(before_comment(lnl) == lnl);
                assert(lnl =~= indent_spaces(cur_indent(t, ind)) + token_text(t) + seq!['\n']);
                lemma_trim_pad(indent_spaces(cur_indent(t, ind)), token_text(t), seq!['\n']);
            }
            assert(split_lines(whole)[0] == lnl);
            assert(split_lines(whole).drop_first() =~= split_lines(rest));
            assert(clean_nonblank(split_lines(whole)) =~= seq![clean_line(lnl)] + clean_nonblank(
                split_lines(rest),
            )) by {
                assert(clean_line(lnl).len() > 0);
            }
            assert(cleaned_of(ts) == seq![trim(token_text(t))] + cleaned_of(ts.drop_first()));
        }
    }
}

/// A sequence of tokens in canonical shape parses back from its own cleaned
/// lines.
proof fn lemma_parse_cleaned(ts: Seq<TokenV>)
    requires
        forall|i: int| 0 <= i < ts.len() ==> wf_token(#[trigger] ts[i]),
    ensures
        parse_rest(None, cleaned_of(ts)) == Ok::<Seq<TokenV>, ParseErrV>(ts),
    decreases ts.len(),
{
    if ts.len() == 0 {
        assert(cleaned_of(ts).len() == 0);
        assert(ts =~= Seq::<TokenV>::empty());
        assert(cleaned_of(ts) =~= Seq::<Seq<char>>::empty());
    } else {
        let t = ts[0];
        lemma_classify_rendered(t);
        let ls = cleaned_of(ts);
        let l0 = trim(token_text(t));
        assert(ls[0] == l0);
        assert(ls.len() > 0);
        assert(ls.drop_first() =~= cleaned_of(ts.drop_first()));
        assert(forall|i: int|
            0 <= i < ts.drop_first().len() ==> wf_token(#[trigger] ts.drop_first()[i]));
        lemma_parse_cleaned(ts.drop_first());
        assert(ls.drop_first() == cleaned_of(ts.drop_first()));
        assert(parse_rest(None, ls.drop_first()) == Ok::<Seq<TokenV>, ParseErrV>(
            ts.drop_first(),
        ));
        assert(l0.len() > 0);
        assert(l0.last() != '\\');
        assert(classify(l0) == Some(t));
        assert(parse_rest(None, ls) == Ok::<Seq<TokenV>, ParseErrV>(seq![t] + ts.drop_first()));
        assert(seq![t] + ts.drop_first() =~= ts);
    }
}

/// Round trip: a successfully parsed configuration, rendered and parsed
/// again, yields the same token sequence.  Rendering normalises whitespace,
/// comments and continuations, but never the tokens.
pub proof fn lemma_parse_render_round_trip(s: Seq<char>, ts: Seq<TokenV>)
    requires
        spec_parse(s) == Ok::<Seq<TokenV>, ParseErrV>(ts),
    ensures
        spec_parse(render(ts, 0)) == Ok::<Seq<TokenV>, ParseErrV>(ts),
{
    lemma_parse_wf(s, ts);
    lemma_render_parses(ts);
}

// ---------------------------------------------------------------------------
// key lookup and splitting

/// The key naming the number of histories to simulate.
pub open spec fn ncase_key() -> Seq<char> {
    seq!['n', 'c', 'a', 's', 'e']
}

/// The key naming the random-number-generator seed pair.
pub open spec fn seeds_key() -> Seq<char> {
    seq!['i', 'n', 'i', 't', 'i', 'a', 'l', ' ', 's', 'e', 'e', 'd', 's']
}

/// Whether a token is a key/value pair under the given key.
pub open spec fn key_matches(t: TokenV, key: Seq<char>) -> bool {
    match t {
        TokenV::KeyValue(k, _) => k == key,
        _ => false,
    }
}

/// No token carries the key.
pub open spec fn no_key(ts: Seq<TokenV>, key: Seq<char>) -> bool {
    forall|i: int| 0 <= i < ts.len() ==> !key_matches(#[trigger] ts[i], key)
}

/// Two or more tokens carry the key.
pub open spec fn ambiguous_key(ts: Seq<TokenV>, key: Seq<char>) -> bool {
    exists|i: int, j: int|
        0 <= i < j < ts.len() && key_matches(#[trigger] ts[i], key) && key_matches(
            #[trigger] ts[j],
            key,
        )
}

/// Exactly one token carries the key, at index `i`.
pub open spec fn unique_key_at(ts: Seq<TokenV>, key: Seq<char>, i: int) -> bool {
    &&& 0 <= i < ts.len()
    &&& key_matches(ts[i], key)
    &&& forall|j: int| 0 <= j < ts.len() && j != i ==> !key_matches(#[trigger] ts[j], key)
}

/// The index of the unique token carrying the key, where one exists.
pub open spec fn the_key_index(ts: Seq<TokenV>, key: Seq<char>) -> int {
    choose|i: int| 0 <= i < ts.len() && key_matches(#[trigger] ts[i], key)
}

impl TokenStream {
    /// The index of the unique key/value token under `key`.  A missing key
    /// yields `Err(false)`; a key occurring more than once — which callers
    /// must treat as a hard error, never picking one — yields `Err(true)`.
    fn find_index_single(&self, key: &String) -> (r: Result<usize, bool>)
        ensures
            match r {
                Ok(i) => unique_key_at(self@, key@, i as int),
                Err(two) => if two {
                    ambiguous_key(self@, key@)
                } else {
                    no_key(self@, key@)
                },
            },
    {
        let mut found: Option<usize> = None;
        let mut i: usize = 0;
        while i < self.tokens.len()
            invariant
                0 <= i <= self.tokens@.len(),
                self@.len() == self.tokens@.len(),
                forall|k: int| 0 <= k < self.tokens@.len() ==> self@[k] == self.tokens@[k]@,
                match found {
                    None => forall|j: int| 0 <= j < i ==> !key_matches(#[trigger] self@[j], key@),
                    Some(f) => f < i && key_matches(self@[f as int], key@) && forall|j: int|
                        0 <= j < i && j != f ==> !key_matches(#[trigger] self@[j], key@),
                },
            decreases self.tokens@.len() - i,
        {
            let hit = match &self.tokens[i] {
                Token::KeyValue(k, _) => k.eq(key),
                _ => false,
            };
            proof {
                assert(self@[i as int] == self.tokens@[i as int]@);
                assert(hit == key_matches(self@[i as int], key@));
            }
            if hit {
                match found {
                    None => {
                        found = Some(i);
                    },
                    Some(f) => {
                        proof {
                            assert(key_matches(self@[f as int], key@));
                            assert(key_matches(self@[i as int], key@));
                        }
                        return Err(true);
                    },
                }
            }
            i += 1;
        }
        match found {
            Some(f) => Ok(f),
            None => Err(false),
        }
    }

    fn get_index(&self, index: usize) -> (t: &Token)
        requires
            index < self.tokens@.len(),
        ensures
            t@ == self@[index as int],
    {
        &self.tokens[index]
    }
}

fn ncase_key_string() -> (r: String)
    ensures
        r@ == ncase_key(),
{
    let r = String::from_str("ncase");
    proof {
        reveal_strlit("ncase");
        assert("ncase"@ =~= ncase_key());
    }
    r
}

fn seeds_key_string() -> (r: String)
    ensures
        r@ == seeds_key(),
{
    let r = String::from_str("initial seeds");
    proof {
        reveal_strlit("initial seeds");
        assert("initial seeds"@ =~= seeds_key());
    }
    r
}

pub open spec fn missing_ncase_msg() -> Seq<char> {
    "Cannot find ncase"@
}

pub open spec fn ambiguous_ncase_msg() -> Seq<char> {
    "Ambiguous key ncase"@
}

pub open spec fn missing_seeds_msg() -> Seq<char> {
    "Cannot find initial seeds"@
}

pub open spec fn ambiguous_seeds_msg() -> Seq<char> {
    "Ambiguous key initial seeds"@
}

pub open spec fn bad_ncase_msg(v: Seq<char>) -> Seq<char> {
    "Cannot parse ncase from "@ + v
}

/// What `get_ncase` returns: the case count under the unique `ncase` key, or
/// the reason none can be read.
pub open spec fn get_ncase_matches(ts: Seq<TokenV>, r: Result<u64, String>) -> bool {
    &&& no_key(ts, ncase_key()) ==> (r matches Err(m) && m@ == missing_ncase_msg())
    &&& ambiguous_key(ts, ncase_key()) ==> (r matches Err(m) && m@ == ambiguous_ncase_msg())
    &&& forall|i: int, v: Seq<char>|
        (unique_key_at(ts, ncase_key(), i) && ts[i] == TokenV::KeyValue(ncase_key(), v)) ==> (
        if crate::numbers::u64_parses(v) {
            r matches Ok(n) && n == crate::numbers::u64_value(v)
        } else {
            r matches Err(m) && m@ == bad_ncase_msg(v)
        })
}

impl TokenStream {
    /// Reads the case count from the unique `ncase` entry.
    pub fn get_ncase(&self) -> (r: Result<u64, String>)
        ensures
            get_ncase_matches(self@, r),
    {
        let key = ncase_key_string();
        match self.find_index_single(&key) {
            Err(two) => {
                if two {
                    Err(String::from_str("Ambiguous key ncase"))
                } else {
                    Err(String::from_str("Cannot find ncase"))
                }
            },
            Ok(i) => {
                let t = self.get_index(i);
                match t {
                    Token::KeyValue(_, v) => {
                        let cs = chars_vec(v.as_str());
                        match crate::numbers::parse_u64(&cs) {
                            Some(n) => Ok(n),
                            None => Err(
                                String::from_str("Cannot parse ncase from ").concat(v.as_str()),
                            ),
                        }
                    },
                    _ => {
                        proof {
                            assert(false);
                        }
                        Err(String::new())
                    },
                }
            },
        }
    }
}

/// The `s1 s2` text of a seed pair.
pub open spec fn seed_text(seed: (usize, usize)) -> Seq<char> {
    crate::numbers::dec_str(seed.0 as int) + seq![' '] + crate::numbers::dec_str(seed.1 as int)
}

/// The stream with its unique `ncase` and `initial seeds` entries replaced
/// by the given case count and seed pair.
pub open spec fn replaced_stream(ts: Seq<TokenV>, seed: (usize, usize), ncase: u64) -> Seq<
    TokenV,
> {
    let i_n = the_key_index(ts, ncase_key());
    let i_s = the_key_index(ts, seeds_key());
    ts.update(i_n, TokenV::KeyValue(ncase_key(), crate::numbers::dec_str(ncase as int))).update(
        i_s,
        TokenV::KeyValue(seeds_key(), seed_text(seed)),
    )
}

/// A key neither missing nor repeated occurs at exactly one index, the one
/// `the_key_index` names.
pub proof fn lemma_unique_key(ts: Seq<TokenV>, key: Seq<char>)
    requires
        !no_key(ts, key),
        !ambiguous_key(ts, key),
    ensures
        unique_key_at(ts, key, the_key_index(ts, key)),
{
    let i = the_key_index(ts, key);
    assert(exists|j: int| 0 <= j < ts.len() && key_matches(#[trigger] ts[j], key));
    assert(0 <= i < ts.len() && key_matches(ts[i], key));
    assert forall|j: int| 0 <= j < ts.len() && j != i implies !key_matches(
        #[trigger] ts[j],
        key,
    ) by {
        if key_matches(ts[j], key) {
            if j < i {
                assert(key_matches(ts[j], key) && key_matches(ts[i], key));
            } else {
                assert(key_matches(ts[i], key) && key_matches(ts[j], key));
            }
        }
    }
}

/// The sum of a sequence of case counts.
pub open spec fn sum_u64(s: Seq<u64>) -> int
    decreases s.len(),
{
    if s.len() == 0 {
        0
    } else {
        sum_u64(s.drop_last()) + s.last()
    }
}

pub proof fn lemma_const_sum(s: Seq<u64>, q: u64)
    requires
        forall|i: int| 0 <= i < s.len() ==> s[i] == q,
    ensures
        sum_u64(s) == s.len() * q,
    decreases s.len(),
{
    if s.len() == 0 {
        assert(s.len() * q == 0) by (nonlinear_arith)
            requires s.len() == 0;
    } else {
        assert(forall|i: int| 0 <= i < s.len() - 1 ==> s.drop_last()[i] == s[i]);
        lemma_const_sum(s.drop_last(), q);
        assert((s.len() - 1) * q + q == s.len() * q) by (nonlinear_arith);
    }
}

impl TokenStream {
    /// Default seeds for an `n`-way split: `(42, 1)` through `(42, n)`.
    pub fn generate_seeds(&self, n: usize) -> (r: Result<Vec<(usize, usize)>, String>)
        ensures
            r matches Ok(v) && v@.len() == n && forall|i: int|
                0 <= i < n ==> #[trigger] v@[i] == (42usize, (i + 1) as usize),
    {
        let mut seeds: Vec<(usize, usize)> = Vec::new();
        let mut i: usize = 0;
        while i < n
            invariant
                0 <= i <= n,
                seeds@.len() == i,
                forall|j: int| 0 <= j < i ==> #[trigger] seeds@[j] == (42usize, (j + 1) as usize),
            decreases n - i,
        {
            seeds.push((42, i + 1));
            i += 1;
        }
        Ok(seeds)
    }

    /// Default case counts for an `n`-way split: `floor(ncase / n)` for each
    /// part.  A split into zero parts, or one so fine that each part would
    /// get no cases, is refused.
    pub fn generate_ncases(&self, n: usize) -> (r: Result<Vec<u64>, String>)
        ensures
            generate_ncases_matches(self@, n as int, r),
    {
        let ghost ts = self@;
        let ncase = match self.get_ncase() {
            Ok(c) => c,
            Err(m) => {
                proof {
                    lemma_ncase_err(ts, m@);
                }
                return Err(m);
            },
        };
        proof {
            lemma_ncase_ok(ts, ncase);
        }
        if n == 0 {
            return Err(String::from_str("Cannot split into zero parts"));
        }
        let n64: u64 = n as u64;
        let ncase_new = ncase / n64;
        if ncase_new == 0 {
            return Err(String::from_str("Cannot split: fewer cases than parts"));
        }
        let mut ncases: Vec<u64> = Vec::new();
        let mut i: usize = 0;
        while i < n
            invariant
                0 <= i <= n,
                ncases@.len() == i,
                forall|j: int| 0 <= j < i ==> #[trigger] ncases@[j] == ncase_new,
            decreases n - i,
        {
            ncases.push(ncase_new);
            i += 1;
        }
        Ok(ncases)
    }
}

/// Whether the stream carries a readable case count under a unique `ncase`
/// key.
pub open spec fn ncase_readable(ts: Seq<TokenV>) -> bool {
    &&& !no_key(ts, ncase_key())
    &&& !ambiguous_key(ts, ncase_key())
    &&& match ts[the_key_index(ts, ncase_key())] {
        TokenV::KeyValue(_, v) => crate::numbers::u64_parses(v),
        _ => false,
    }
}

/// The case count the stream carries.
pub open spec fn ncase_value(ts: Seq<TokenV>) -> int {
    match ts[the_key_index(ts, ncase_key())] {
        TokenV::KeyValue(_, v) => crate::numbers::u64_value(v),
        _ => 0,
    }
}

/// The text under the stream's `ncase` key.
pub open spec fn ncase_text(ts: Seq<TokenV>) -> Seq<char> {
    match ts[the_key_index(ts, ncase_key())] {
        TokenV::KeyValue(_, v) => v,
        _ => Seq::empty(),
    }
}

proof fn lemma_ncase_err(ts: Seq<TokenV>, m: Seq<char>)
    requires
        exists|r: Result<u64, String>|
            #[trigger] get_ncase_matches(ts, r) && (r matches Err(e) && e@ == m),
    ensures
        !ncase_readable(ts),
        no_key(ts, ncase_key()) ==> m == missing_ncase_msg(),
        ambiguous_key(ts, ncase_key()) ==> m == ambiguous_ncase_msg(),
        (!no_key(ts, ncase_key()) && !ambiguous_key(ts, ncase_key())) ==> m == bad_ncase_msg(
            ncase_text(ts),
        ) && !crate::numbers::u64_parses(ncase_text(ts)),
{
    let r = choose|r: Result<u64, String>|
        #[trigger] get_ncase_matches(ts, r) && (r matches Err(e) && e@ == m);
    if !no_key(ts, ncase_key()) && !ambiguous_key(ts, ncase_key()) {
        lemma_unique_key(ts, ncase_key());
        let i = the_key_index(ts, ncase_key());
        match ts[i] {
            TokenV::KeyValue(_, v) => {
                assert(ts[i] == TokenV::KeyValue(ncase_key(), v));
                if crate::numbers::u64_parses(v) {
                    assert(false);
                }
            },
            _ => {
                assert(false);
            },
        }
    }
}

proof fn lemma_ncase_ok(ts: Seq<TokenV>, n: u64)
    requires
        exists|r: Result<u64, String>|
            #[trigger] get_ncase_matches(ts, r) && r == Ok::<u64, String>(n),
    ensures
        ncase_readable(ts),
        n == ncase_value(ts),
{
    let r = choose|r: Result<u64, String>|
        #[trigger] get_ncase_matches(ts, r) && r == Ok::<u64, String>(n);
    assert(!no_key(ts, ncase_key()));
    assert(!ambiguous_key(ts, ncase_key()));
    lemma_unique_key(ts, ncase_key());
    let i = the_key_index(ts, ncase_key());
    match ts[i] {
        TokenV::KeyValue(_, v) => {
            assert(ts[i] == TokenV::KeyValue(ncase_key(), v));
        },
        _ => {
            assert(false);
        },
    }
}

/// What `generate_ncases` returns: `n` equal shares of the stream's case
/// count, or the reason none can be made.
pub open spec fn generate_ncases_matches(ts: Seq<TokenV>, n: int, r: Result<Vec<u64>, String>) -> bool {
    if no_key(ts, ncase_key()) {
        r matches Err(m) && m@ == missing_ncase_msg()
    } else if ambiguous_key(ts, ncase_key()) {
        r matches Err(m) && m@ == ambiguous_ncase_msg()
    } else if !crate::numbers::u64_parses(ncase_text(ts)) {
        r matches Err(m) && m@ == bad_ncase_msg(ncase_text(ts))
    } else if n == 0 {
        r matches Err(m) && m@ == "Cannot split into zero parts"@
    } else if ncase_value(ts) / n == 0 {
        r matches Err(m) && m@ == "Cannot split: fewer cases than parts"@
    } else {
        r matches Ok(v) && v@.len() == n && forall|j: int|
            0 <= j < n ==> #[trigger] v@[j] == ncase_value(ts) / n
    }
}

/// Which replacement keys a stream offers: both `ncase` and `initial
/// seeds` present exactly once.
pub open spec fn split_keys_ok(ts: Seq<TokenV>) -> bool {
    &&& !no_key(ts, ncase_key())
    &&& !ambiguous_key(ts, ncase_key())
    &&& !no_key(ts, seeds_key())
    &&& !ambiguous_key(ts, seeds_key())
}

/// What `with_seed_and_ncase` returns: the stream with both entries
/// replaced, or the first key failure, `ncase` looked up before the seeds.
pub open spec fn with_seed_and_ncase_matches(
    ts: Seq<TokenV>,
    seed: (usize, usize),
    ncase: u64,
    r: Result<TokenStream, String>,
) -> bool {
    if no_key(ts, ncase_key()) {
        r matches Err(m) && m@ == missing_ncase_msg()
    } else if ambiguous_key(ts, ncase_key()) {
        r matches Err(m) && m@ == ambiguous_ncase_msg()
    } else if no_key(ts, seeds_key()) {
        r matches Err(m) && m@ == missing_seeds_msg()
    } else if ambiguous_key(ts, seeds_key()) {
        r matches Err(m) && m@ == ambiguous_seeds_msg()
    } else {
        r matches Ok(out) && out@ == replaced_stream(ts, seed, ncase)
    }
}

impl TokenStream {
    /// A copy of the stream with the unique `ncase` and `initial seeds`
    /// entries set to the given values.
    fn with_seed_and_ncase(&self, seed: &(usize, usize), ncase_new: u64) -> (r: Result<
        TokenStream,
        String,
    >)
        ensures
            with_seed_and_ncase_matches(self@, *seed, ncase_new, r),
    {
        let nkey = ncase_key_string();
        let skey = seeds_key_string();
        let i_n = match self.find_index_single(&nkey) {
            Ok(i) => i,
            Err(two) => {
                if two {
                    return Err(String::from_str("Ambiguous key ncase"));
                } else {
                    return Err(String::from_str("Cannot find ncase"));
                }
            },
        };
        let i_s = match self.find_index_single(&skey) {
            Ok(i) => i,
            Err(two) => {
                if two {
                    return Err(String::from_str("Ambiguous key initial seeds"));
                } else {
                    return Err(String::from_str("Cannot find initial seeds"));
                }
            },
        };
        proof {
            assert(ncase_key() != seeds_key()) by {
                assert(ncase_key().len() != seeds_key().len());
            }
            assert(i_n != i_s) by {
                if i_n == i_s {
                    match self@[i_n as int] {
                        TokenV::KeyValue(k, _) => {
                            assert(k == ncase_key() && k == seeds_key());
                        },
                        _ => {},
                    }
                }
            }
            assert(the_key_index(self@, ncase_key()) == i_n as int) by {
                let w = the_key_index(self@, ncase_key());
                assert(exists|j: int|
                    0 <= j < self@.len() && key_matches(#[trigger] self@[j], ncase_key()));
                assert(0 <= w < self@.len() && key_matches(self@[w], ncase_key()));
            }
            assert(the_key_index(self@, seeds_key()) == i_s as int) by {
                let w = the_key_index(self@, seeds_key());
                assert(exists|j: int|
                    0 <= j < self@.len() && key_matches(#[trigger] self@[j], seeds_key()));
                assert(0 <= w < self@.len() && key_matches(self@[w], seeds_key()));
            }
        }
        let ncase_tok = Token::KeyValue(
            ncase_key_string(),
            string_from_chars(&crate::numbers::u64_to_chars(ncase_new)),
        );
        let mut seed_chars = crate::numbers::u64_to_chars(seed.0 as u64);
        seed_chars.push(' ');
        let mut second = crate::numbers::u64_to_chars(seed.1 as u64);
        seed_chars.append(&mut second);
        proof {
            assert(seed_chars@ =~= seed_text(*seed));
        }
        let seed_tok = Token::KeyValue(seeds_key_string(), string_from_chars(&seed_chars));
        let ghost target = replaced_stream(self@, *seed, ncase_new);
        let mut toks: Vec<Token> = Vec::new();
        let mut j: usize = 0;
        proof {
            assert(target.len() == self@.len());
        }
        while j < self.tokens.len()
            invariant
                0 <= j <= self.tokens@.len(),
                self@.len() == self.tokens@.len(),
                forall|k: int| 0 <= k < self.tokens@.len() ==> self@[k] == self.tokens@[k]@,
                i_n < self.tokens@.len(),
                i_s < self.tokens@.len(),
                i_n != i_s,
                ncase_tok@ == TokenV::KeyValue(ncase_key(), crate::numbers::dec_str(
                    ncase_new as int,
                )),
                seed_tok@ == TokenV::KeyValue(seeds_key(), seed_text(*seed)),
                target == replaced_stream(self@, *seed, ncase_new),
                the_key_index(self@, ncase_key()) == i_n as int,
                the_key_index(self@, seeds_key()) == i_s as int,
                toks@.len() == j,
                forall|k: int| 0 <= k < j ==> #[trigger] toks@[k]@ == target[k],
            decreases self.tokens@.len() - j,
        {
            if j == i_n {
                toks.push(dup_token(&ncase_tok));
            } else if j == i_s {
                toks.push(dup_token(&seed_tok));
            } else {
                toks.push(dup_token(&self.tokens[j]));
            }
            j += 1;
        }
        let out = TokenStream { tokens: toks };
        proof {
            assert(out@ =~= target);
        }
        Ok(out)
    }

    /// One child stream per `(case count, seed)` pair, pairs beyond the
    /// shorter list dropped, each child with its own count and seed written
    /// into the unique `ncase` and `initial seeds` entries.
    pub fn split(&self, seeds: &Vec<(usize, usize)>, ncases: &Vec<u64>) -> (r: Result<
        Vec<TokenStream>,
        String,
    >)
        ensures
            split_matches(self@, seeds@, ncases@, r),
    {
        let m: usize = if seeds.len() < ncases.len() {
            seeds.len()
        } else {
            ncases.len()
        };
        let mut out: Vec<TokenStream> = Vec::new();
        let mut i: usize = 0;
        while i < m
            invariant
                0 <= i <= m,
                m == vstd::math::min(seeds@.len() as int, ncases@.len() as int),
                out@.len() == i,
                forall|k: int|
                    0 <= k < i ==> (#[trigger] out@[k])@ == replaced_stream(
                        self@,
                        seeds@[k],
                        ncases@[k],
                    ),
                i > 0 ==> split_keys_ok(self@),
            decreases m - i,
        {
            match self.with_seed_and_ncase(&seeds[i], ncases[i]) {
                Ok(s) => {
                    out.push(s);
                },
                Err(e) => {
                    return Err(e);
                },
            }
            i += 1;
        }
        Ok(out)
    }
}

/// What `split` returns: one replaced child per pair, or the first key
/// failure when there is at least one pair to write.
pub open spec fn split_matches(
    ts: Seq<TokenV>,
    seeds: Seq<(usize, usize)>,
    ncases: Seq<u64>,
    r: Result<Vec<TokenStream>, String>,
) -> bool {
    let m = vstd::math::min(seeds.len() as int, ncases.len() as int);
    if m == 0 {
        r matches Ok(v) && v@.len() == 0
    } else if no_key(ts, ncase_key()) {
        r matches Err(e) && e@ == missing_ncase_msg()
    } else if ambiguous_key(ts, ncase_key()) {
        r matches Err(e) && e@ == ambiguous_ncase_msg()
    } else if no_key(ts, seeds_key()) {
        r matches Err(e) && e@ == missing_seeds_msg()
    } else if ambiguous_key(ts, seeds_key()) {
        r matches Err(e) && e@ == ambiguous_seeds_msg()
    } else {
        r matches Ok(v) && v@.len() == m && forall|k: int|
            0 <= k < m ==> (#[trigger] v@[k])@ == replaced_stream(ts, seeds[k], ncases[k])
    }
}

/// Ambiguous-key law: a stream carrying the `ncase` key on two different
/// lines refuses every non-trivial split with the explicit ambiguity
/// failure — neither occurrence is ever silently picked.
pub proof fn lemma_ambiguous_ncase_fails_split(
    ts: Seq<TokenV>,
    seeds: Seq<(usize, usize)>,
    ncases: Seq<u64>,
    r: Result<Vec<TokenStream>, String>,
    i: int,
    j: int,
)
    requires
        split_matches(ts, seeds, ncases, r),
        seeds.len() > 0,
        ncases.len() > 0,
        0 <= i < j < ts.len(),
        key_matches(ts[i], ncase_key()),
        key_matches(ts[j], ncase_key()),
    ensures
        r matches Err(e) && e@ == ambiguous_ncase_msg(),
{
    assert(!no_key(ts, ncase_key()));
    assert(ambiguous_key(ts, ncase_key()));
}

} // verus!
