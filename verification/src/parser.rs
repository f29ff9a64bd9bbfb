//! The command parser and the dispatcher: one request line in, one typed
//! command or parse error out, and its application to the store.

use vstd::prelude::*;

verus! {

use crate::database::{lookup_model, Database};
use crate::types::{value_model_of, TypedValue, ValueModel};

/// The whitespace that separates tokens: space, tab, carriage return,
/// line feed.
pub open spec fn is_ws(c: char) -> bool {
    c == ' ' || c == '\t' || c == '\r' || c == '\n'
}

/// The first index at or after `i` that holds whitespace.
pub open spec fn token_end(s: Seq<char>, i: int) -> int
    decreases s.len() - i when 0 <= i <= s.len()
{
    if i < s.len() && !is_ws(s[i]) {
        token_end(s, i + 1)
    } else {
        i
    }
}

pub proof fn lemma_token_end_bounds(s: Seq<char>, i: int)
    requires
        0 <= i <= s.len(),
    ensures
        i <= token_end(s, i) <= s.len(),
        i < s.len() && !is_ws(s[i]) ==> i < token_end(s, i),
    decreases s.len() - i,
{
    if i < s.len() && !is_ws(s[i]) {
        lemma_token_end_bounds(s, i + 1);
    }
}

/// The whitespace-separated tokens of `s`, scanning from `i`.  The token
/// end always lies in `(i, len]`; the guard only keeps the recursion
/// visibly bounded.
pub open spec fn tokens_from(s: Seq<char>, i: int) -> Seq<Seq<char>>
    decreases s.len() - i when 0 <= i <= s.len()
{
    if i >= s.len() {
        Seq::empty()
    } else if is_ws(s[i]) {
        tokens_from(s, i + 1)
    } else {
        let e = if i < token_end(s, i) && token_end(s, i) <= s.len() {
            token_end(s, i)
        } else {
            i + 1
        };
        seq![s.subrange(i, e)] + tokens_from(s, e)
    }
}

/// The tokens of a whole line.
pub open spec fn line_tokens(s: Seq<char>) -> Seq<Seq<char>> {
    tokens_from(s, 0)
}

/// Case-blind match of one character against a lowercase reference.
pub open spec fn eq_ci(a: char, kw: char) -> bool {
    a == kw || (65 <= a as u32 <= 90 && a as u32 + 32 == kw as u32)
}

/// Case-blind match of a token against a lowercase keyword.
pub open spec fn is_keyword(t: Seq<char>, kw: Seq<char>) -> bool {
    t.len() == kw.len() && (forall|i: int| 0 <= i < t.len() ==> eq_ci(t[i], kw[i]))
}

pub open spec fn set_kw() -> Seq<char> {
    seq!['s', 'e', 't']
}

pub open spec fn get_kw() -> Seq<char> {
    seq!['g', 'e', 't']
}

/// A parsed request: a store or a lookup.
#[derive(Debug, PartialEq)]
pub enum Command {
    SetCmd { key: String, value: TypedValue },
    GetCmd { key: String },
}

/// Spec-level model of a [`Command`].
#[verifier::ext_equal]
pub enum CommandModel {
    SetCmd { key: Seq<char>, value: ValueModel },
    GetCmd { key: Seq<char> },
}

impl View for Command {
    type V = CommandModel;

    open spec fn view(&self) -> CommandModel {
        match self {
            Command::SetCmd { key, value } => (CommandModel::SetCmd {
                key: key@,
                value: value@,
            }),
            Command::GetCmd { key } => (CommandModel::GetCmd { key: key@ }),
        }
    }
}

/// Why a line is not a command.
#[derive(Debug, PartialEq, Eq, Structural, Clone, Copy)]
pub enum ParseError {
    /// The line holds no token.
    EmptyStatement,
    /// The keyword is known but the number of arguments is wrong.
    InvalidStatement,
    /// The first token is no known keyword.
    UnknownCommand,
}

/// What parsing a line yields: the whitespace-separated tokens, a
/// case-blind keyword, and the exact arity; the value position of a store
/// command undergoes type inference, key positions never do.
pub open spec fn parse_model(s: Seq<char>) -> Result<CommandModel, ParseError> {
    let toks = line_tokens(s);
    if toks.len() == 0 {
        Err(ParseError::EmptyStatement)
    } else if is_keyword(toks[0], set_kw()) {
        if toks.len() == 3 {
            Ok(
                (CommandModel::SetCmd {
                    key: toks[1],
                    value: value_model_of(toks[2]),
                }),
            )
        } else {
            Err(ParseError::InvalidStatement)
        }
    } else if is_keyword(toks[0], get_kw()) {
        if toks.len() == 2 {
            Ok((CommandModel::GetCmd { key: toks[1] }))
        } else {
            Err(ParseError::InvalidStatement)
        }
    } else {
        Err(ParseError::UnknownCommand)
    }
}

/// The model of an exec parse result.
pub open spec fn parse_result_model(r: Result<Command, ParseError>) -> Result<
    CommandModel,
    ParseError,
> {
    match r {
        Ok(c) => Ok(c@),
        Err(e) => Err(e),
    }
}

fn is_ws_x(c: char) -> (r: bool)
    ensures
        r == is_ws(c),
{
    c == ' ' || c == '\t' || c == '\r' || c == '\n'
}

fn token_end_x(s: &str, i: usize) -> (r: usize)
    requires
        i <= s@.len(),
    ensures
        r as int == token_end(s@, i as int),
        i <= r <= s@.len(),
    decreases s@.len() - i,
{
    let n = s.unicode_len();
    if i < n && !is_ws_x(s.get_char(i)) {
        token_end_x(s, i + 1)
    } else {
        i
    }
}

fn tokens_x(s: &str, i: usize) -> (r: Vec<String>)
    requires
        i <= s@.len(),
    ensures
        r.deep_view() == tokens_from(s@, i as int),
    decreases s@.len() - i,
{
    let n = s.unicode_len();
    if i >= n {
        let v: Vec<String> = Vec::new();
        proof {
            assert(v.deep_view() =~= tokens_from(s@, i as int));
        }
        v
    } else if is_ws_x(s.get_char(i)) {
        tokens_x(s, i + 1)
    } else {
        proof {
            lemma_token_end_bounds(s@, i as int);
        }
        let e = token_end_x(s, i);
        let tok: String = s.substring_char(i, e).to_owned();
        let mut out = tokens_x(s, e);
        out.insert(0, tok);
        proof {
            assert(out@ =~= seq![tok].add(out@.skip(1)));
            assert(out.deep_view() =~= tokens_from(s@, i as int));
        }
        out
    }
}

/// Case-blind comparison of a token against a lowercase keyword.
fn keyword_eq_x(t: &str, kw: &str) -> (r: bool)
    ensures
        r == is_keyword(t@, kw@),
{
    let n = t.unicode_len();
    let m = kw.unicode_len();
    if n != m {
        return false;
    }
    let mut i: usize = 0;
    while i < n
        invariant
            i <= n,
            n == t@.len() == kw@.len(),
            forall|j: int| 0 <= j < i ==> eq_ci(t@[j], kw@[j]),
        decreases n - i,
    {
        let a = t.get_char(i);
        let k = kw.get_char(i);
        let au = a as u32;
        if !(a == k || (65 <= au && au <= 90 && au + 32 == k as u32)) {
            return false;
        }
        i = i + 1;
    }
    true
}

/// Parses one request line: tokens, keyword, arity, type inference on the
/// value position.
pub fn parse(text: &str) -> (r: Result<Command, ParseError>)
    ensures
        parse_result_model(r) == parse_model(text@),
{
    let toks = tokens_x(text, 0);
    proof {
        reveal_strlit("set");
        reveal_strlit("get");
        assert("set"@ =~= set_kw());
        assert("get"@ =~= get_kw());
        assert(toks.deep_view() == line_tokens(text@));
    }
    if toks.len() == 0 {
        return Err(ParseError::EmptyStatement);
    }
    if keyword_eq_x(toks[0].as_str(), "set") {
        if toks.len() == 3 {
            let value = TypedValue::from_str(toks[2].as_str());
            let key = toks[1].clone();
            proof {
                assert(toks.deep_view()[1] == toks@[1]@);
                assert(toks.deep_view()[2] == toks@[2]@);
            }
            Ok(Command::SetCmd { key, value })
        } else {
            Err(ParseError::InvalidStatement)
        }
    } else if keyword_eq_x(toks[0].as_str(), "get") {
        if toks.len() == 2 {
            let key = toks[1].clone();
            proof {
                assert(toks.deep_view()[1] == toks@[1]@);
            }
            Ok(Command::GetCmd { key })
        } else {
            Err(ParseError::InvalidStatement)
        }
    } else {
        Err(ParseError::UnknownCommand)
    }
}

impl ParseError {
    /// The error line sent back to the client.
    pub fn message(&self) -> (r: String)
        ensures
            r@ == message_of(*self),
    {
        match self {
            ParseError::EmptyStatement => "Empty expression".to_owned(),
            ParseError::InvalidStatement => "Invalid number of arguments".to_owned(),
            ParseError::UnknownCommand => "Unknown command".to_owned(),
        }
    }
}

/// The rendering of each parse error.
pub open spec fn message_of(e: ParseError) -> Seq<char> {
    match e {
        ParseError::EmptyStatement => "Empty expression"@,
        ParseError::InvalidStatement => "Invalid number of arguments"@,
        ParseError::UnknownCommand => "Unknown command"@,
    }
}

/// Two characters that differ at most in ASCII letter case.
pub open spec fn same_letter_ci(a: char, b: char) -> bool {
    a == b || (65 <= a as u32 <= 90 && a as u32 + 32 == b as u32) || (65 <= b as u32 <= 90 && b
        as u32 + 32 == a as u32)
}

/// One case-blind match carries over to any character that differs only
/// in letter case.
proof fn lemma_ci_step(a: char, b: char, l: char)
    requires
        97 <= l as u32 <= 122,
        eq_ci(a, l),
        same_letter_ci(a, b),
    ensures
        eq_ci(b, l),
{
}

/// A case-blind keyword match carries over to a token that differs only
/// in letter case.
proof fn lemma_keyword_ci(t1: Seq<char>, t2: Seq<char>, kw: Seq<char>)
    requires
        kw.len() == 3,
        97 <= kw[0] as u32 <= 122,
        97 <= kw[1] as u32 <= 122,
        97 <= kw[2] as u32 <= 122,
        t1.len() == t2.len(),
        forall|i: int| 0 <= i < t1.len() ==> same_letter_ci(t1[i], t2[i]),
        is_keyword(t1, kw),
    ensures
        is_keyword(t2, kw),
{
    assert forall|i: int| 0 <= i < t2.len() implies eq_ci(t2[i], kw[i]) by {
        assert(eq_ci(t1[i], kw[i]));
        assert(same_letter_ci(t1[i], t2[i]));
        if i == 0 {
            lemma_ci_step(t1[0], t2[0], kw[0]);
        } else if i == 1 {
            lemma_ci_step(t1[1], t2[1], kw[1]);
        } else {
            lemma_ci_step(t1[2], t2[2], kw[2]);
        }
    }
}

/// Parser case-insensitivity: two lines with equally many tokens, whose
/// first tokens agree up to ASCII letter case and whose remaining tokens
/// agree exactly, parse to the same command or error.
pub proof fn lemma_parse_case_insensitive(s1: Seq<char>, s2: Seq<char>)
    requires
        line_tokens(s1).len() == line_tokens(s2).len(),
        line_tokens(s1).len() > 0,
        line_tokens(s1)[0].len() == line_tokens(s2)[0].len(),
        forall|i: int| 0 <= i < line_tokens(s1)[0].len() ==> same_letter_ci(
            line_tokens(s1)[0][i],
            line_tokens(s2)[0][i],
        ),
        line_tokens(s1).skip(1) == line_tokens(s2).skip(1),
    ensures
        parse_model(s1) == parse_model(s2),
{
    let t1 = line_tokens(s1)[0];
    let t2 = line_tokens(s2)[0];
    assert(set_kw()[0] == 's' && set_kw()[1] == 'e' && set_kw()[2] == 't');
    assert(get_kw()[0] == 'g' && get_kw()[1] == 'e' && get_kw()[2] == 't');
    assert forall|i: int| 0 <= i < t2.len() implies same_letter_ci(t2[i], t1[i]) by {
        assert(same_letter_ci(t1[i], t2[i]));
    }
    if is_keyword(t1, set_kw()) {
        lemma_keyword_ci(t1, t2, set_kw());
    }
    if is_keyword(t2, set_kw()) {
        lemma_keyword_ci(t2, t1, set_kw());
    }
    if is_keyword(t1, get_kw()) {
        lemma_keyword_ci(t1, t2, get_kw());
    }
    if is_keyword(t2, get_kw()) {
        lemma_keyword_ci(t2, t1, get_kw());
    }
    assert(is_keyword(t1, set_kw()) == is_keyword(t2, set_kw()));
    assert(is_keyword(t1, get_kw()) == is_keyword(t2, get_kw()));
    assert forall|j: int| 1 <= j < line_tokens(s1).len() implies line_tokens(s1)[j] == line_tokens(
        s2,
    )[j] by {
        assert(line_tokens(s1).skip(1)[j - 1] == line_tokens(s1)[j]);
        assert(line_tokens(s2).skip(1)[j - 1] == line_tokens(s2)[j]);
    }
}

/// Token runs shift along when one character stands before the line.
proof fn lemma_token_end_shift(c: char, s: Seq<char>, i: int)
    requires
        0 <= i <= s.len(),
    ensures
        token_end(seq![c] + s, i + 1) == token_end(s, i) + 1,
    decreases s.len() - i,
{
    let t = seq![c] + s;
    if i < s.len() {
        assert(t[i + 1] == s[i]);
        if !is_ws(s[i]) {
            lemma_token_end_shift(c, s, i + 1);
        }
    }
}

/// The tokens shift along when one character stands before the line.
proof fn lemma_tokens_shift(c: char, s: Seq<char>, i: int)
    requires
        0 <= i <= s.len(),
    ensures
        tokens_from(seq![c] + s, i + 1) == tokens_from(s, i),
    decreases s.len() - i,
{
    let t = seq![c] + s;
    if i >= s.len() {
        assert(tokens_from(t, i + 1) =~= tokens_from(s, i));
    } else {
        assert(t[i + 1] == s[i]);
        if is_ws(s[i]) {
            lemma_tokens_shift(c, s, i + 1);
        } else {
            lemma_token_end_bounds(s, i);
            lemma_token_end_shift(c, s, i);
            let e = token_end(s, i);
            assert(t.subrange(i + 1, e + 1) =~= s.subrange(i, e));
            lemma_tokens_shift(c, s, e);
            assert(tokens_from(t, i + 1) =~= tokens_from(s, i));
        }
    }
}

/// Leading whitespace never changes the tokens.
pub proof fn lemma_tokens_prepend_ws(c: char, s: Seq<char>)
    requires
        is_ws(c),
    ensures
        line_tokens(seq![c] + s) == line_tokens(s),
{
    let t = seq![c] + s;
    assert(t[0] == c);
    lemma_tokens_shift(c, s, 0);
}

/// Token runs ignore one whitespace character appended at the end.
proof fn lemma_token_end_append(s: Seq<char>, c: char, i: int)
    requires
        is_ws(c),
        0 <= i <= s.len(),
    ensures
        token_end(s.push(c), i) == token_end(s, i),
    decreases s.len() - i,
{
    if i < s.len() {
        assert(s.push(c)[i] == s[i]);
        if !is_ws(s[i]) {
            lemma_token_end_append(s, c, i + 1);
        }
    } else {
        assert(s.push(c)[i] == c);
    }
}

/// Trailing whitespace never changes the tokens.
proof fn lemma_tokens_append_ws_from(s: Seq<char>, c: char, i: int)
    requires
        is_ws(c),
        0 <= i <= s.len(),
    ensures
        tokens_from(s.push(c), i) == tokens_from(s, i),
    decreases s.len() - i,
{
    let t = s.push(c);
    if i >= s.len() {
        assert(t[i] == c);
        assert(tokens_from(t, i + 1) =~= Seq::<Seq<char>>::empty());
        assert(tokens_from(t, i as int) == tokens_from(t, i + 1));
        assert(tokens_from(t, i as int) =~= tokens_from(s, i));
    } else {
        assert(t[i] == s[i]);
        if is_ws(s[i]) {
            lemma_tokens_append_ws_from(s, c, i + 1);
        } else {
            lemma_token_end_bounds(s, i);
            lemma_token_end_append(s, c, i);
            let e = token_end(s, i);
            assert(t.subrange(i, e) =~= s.subrange(i, e));
            lemma_tokens_append_ws_from(s, c, e);
            assert(tokens_from(t, i) =~= tokens_from(s, i));
        }
    }
}

/// Whitespace tolerance, outer part: one space before and one after the
/// line leave what it parses to unchanged.
pub proof fn lemma_parse_ws_padding(s: Seq<char>)
    ensures
        parse_model(seq![' '] + s.push(' ')) == parse_model(s),
{
    lemma_tokens_append_ws_from(s, ' ', 0);
    lemma_tokens_prepend_ws(' ', s.push(' '));
}

/// Doubling an interior whitespace character: token runs in front of it
/// are unchanged, and stop at or before it.
proof fn lemma_te_dup_low(a: Seq<char>, c: char, b: Seq<char>, i: int)
    requires
        is_ws(c),
        0 <= i <= a.len(),
    ensures
        token_end(a + seq![c] + b, i) == token_end(a + seq![c, c] + b, i),
        token_end(a + seq![c] + b, i) <= a.len(),
    decreases a.len() - i,
{
    let x = a + seq![c] + b;
    let y = a + seq![c, c] + b;
    if i < a.len() {
        assert(x[i] == a[i] && y[i] == a[i]);
        if !is_ws(a[i]) {
            lemma_te_dup_low(a, c, b, i + 1);
        }
    } else {
        assert(x[i] == c && y[i] == c);
    }
}

/// Doubling an interior whitespace character: token runs behind it shift
/// along by one.
proof fn lemma_te_dup_high(a: Seq<char>, c: char, b: Seq<char>, j: int)
    requires
        is_ws(c),
        a.len() + 1 <= j <= (a + seq![c] + b).len(),
    ensures
        token_end(a + seq![c, c] + b, j + 1) == token_end(a + seq![c] + b, j) + 1,
    decreases (a + seq![c] + b).len() - j,
{
    let x = a + seq![c] + b;
    let y = a + seq![c, c] + b;
    if j < x.len() {
        assert(x[j] == b[j - a.len() - 1]);
        assert(y[j + 1] == b[j - a.len() - 1]);
        if !is_ws(x[j]) {
            lemma_te_dup_high(a, c, b, j + 1);
        }
    }
}

/// Doubling an interior whitespace character: the tokens behind it are
/// unchanged, at shifted positions.
proof fn lemma_tokens_dup_high(a: Seq<char>, c: char, b: Seq<char>, j: int)
    requires
        is_ws(c),
        a.len() + 1 <= j <= (a + seq![c] + b).len(),
    ensures
        tokens_from(a + seq![c, c] + b, j + 1) == tokens_from(a + seq![c] + b, j),
    decreases (a + seq![c] + b).len() - j,
{
    let x = a + seq![c] + b;
    let y = a + seq![c, c] + b;
    if j >= x.len() {
        assert(tokens_from(y, j + 1) =~= tokens_from(x, j));
    } else {
        assert(x[j] == b[j - a.len() - 1]);
        assert(y[j + 1] == b[j - a.len() - 1]);
        if is_ws(x[j]) {
            lemma_tokens_dup_high(a, c, b, j + 1);
        } else {
            lemma_token_end_bounds(x, j);
            lemma_te_dup_high(a, c, b, j);
            let e = token_end(x, j);
            assert(y.subrange(j + 1, e + 1) =~= x.subrange(j, e));
            lemma_tokens_dup_high(a, c, b, e);
            assert(tokens_from(y, j + 1) =~= tokens_from(x, j));
        }
    }
}

/// Doubling an interior whitespace character: the tokens in front of it
/// are unchanged too, so the whole token sequence stays the same.
proof fn lemma_tokens_dup_low(a: Seq<char>, c: char, b: Seq<char>, i: int)
    requires
        is_ws(c),
        0 <= i <= a.len(),
    ensures
        tokens_from(a + seq![c, c] + b, i) == tokens_from(a + seq![c] + b, i),
    decreases a.len() - i,
{
    let x = a + seq![c] + b;
    let y = a + seq![c, c] + b;
    if i == a.len() {
        assert(x[i] == c && y[i] == c && y[i + 1] == c);
        assert(tokens_from(x, i) == tokens_from(x, i + 1));
        assert(tokens_from(y, i) == tokens_from(y, i + 1));
        assert(tokens_from(y, i + 1) == tokens_from(y, i + 2));
        lemma_tokens_dup_high(a, c, b, i + 1);
    } else {
        assert(x[i] == a[i] && y[i] == a[i]);
        if is_ws(a[i]) {
            lemma_tokens_dup_low(a, c, b, i + 1);
        } else {
            lemma_token_end_bounds(x, i);
            lemma_te_dup_low(a, c, b, i);
            let e = token_end(x, i);
            assert(x.subrange(i, e) =~= y.subrange(i, e));
            lemma_tokens_dup_low(a, c, b, e);
            assert(tokens_from(y, i) =~= tokens_from(x, i));
        }
    }
}

/// Whitespace tolerance, inner part: widening one interior whitespace
/// character to a run of two leaves what the line parses to unchanged;
/// applied repeatedly, any positive run of whitespace separates tokens
/// exactly as a single space does.
pub proof fn lemma_parse_ws_run(a: Seq<char>, c: char, b: Seq<char>)
    requires
        is_ws(c),
    ensures
        parse_model(a + seq![c] + b) == parse_model(a + seq![c, c] + b),
{
    lemma_tokens_dup_low(a, c, b, 0);
}

/// Applies a parsed command to the store: a store command inserts and
/// yields nothing, a lookup leaves the store alone and yields what the key
/// holds.
pub fn execute_command(db: &mut Database, command: Command) -> (r: Option<TypedValue>)
    ensures
        match command@ {
            CommandModel::SetCmd { key, value } => final(db)@ == old(db)@.insert(key, value) && r
                is None,
            CommandModel::GetCmd { key } => final(db)@ == old(db)@ && (match r {
                Some(v) => old(db)@.contains_key(key) && v@ == old(db)@[key],
                None => !old(db)@.contains_key(key),
            }),
        },
{
    match command {
        Command::SetCmd { key, value } => {
            db.set(key.as_str(), value);
            None
        },
        Command::GetCmd { key } => {
            match db.get(key.as_str()) {
                Some(v) => Some(v.duplicate()),
                None => None,
            }
        },
    }
}

/// One escaped character of a text rendering: quotes and backslashes gain
/// a backslash, everything else stands as it is.
pub open spec fn esc_char(c: char) -> Seq<char> {
    if c == '"' {
        seq!['\\', '"']
    } else if c == '\\' {
        seq!['\\', '\\']
    } else {
        seq![c]
    }
}

/// The escaped form of a text payload.
pub open spec fn escaped(t: Seq<char>) -> Seq<char>
    decreases t.len(),
{
    if t.len() == 0 {
        Seq::empty()
    } else {
        escaped(t.drop_last()) + esc_char(t.last())
    }
}

/// The rendering of a stored value.
pub open spec fn render_value(v: ValueModel) -> Seq<char> {
    match v {
        ValueModel::Numeric(c) => "Some(Numeric("@ + c + "))"@,
        ValueModel::Text(t) => "Some(Text(\""@ + escaped(t) + "\"))"@,
    }
}

/// The rendering of a lookup outcome: the missing signal renders as `None`.
pub open spec fn render_opt(o: Option<ValueModel>) -> Seq<char> {
    match o {
        None => "None"@,
        Some(v) => render_value(v),
    }
}

/// The model of an optional owned value.
pub open spec fn opt_model(o: Option<TypedValue>) -> Option<ValueModel> {
    match o {
        Some(v) => Some(v@),
        None => None,
    }
}

/// Appends the escaped form of `t`.
fn append_escaped(out: &mut String, t: &str)
    ensures
        final(out)@ == old(out)@ + escaped(t@),
{
    let n = t.unicode_len();
    let mut i: usize = 0;
    while i < n
        invariant
            i <= n,
            n == t@.len(),
            out@ == old(out)@ + escaped(t@.subrange(0, i as int)),
        decreases n - i,
    {
        let c = t.get_char(i);
        if c == '"' {
            out.append("\\\"");
            proof {
                reveal_strlit("\\\"");
            }
        } else if c == '\\' {
            out.append("\\\\");
            proof {
                reveal_strlit("\\\\");
            }
        } else {
            out.append(t.substring_char(i, i + 1));
        }
        i = i + 1;
        proof {
            assert(t@.subrange(0, i as int).drop_last() =~= t@.subrange(0, i - 1));
            assert(out@ =~= old(out)@ + escaped(t@.subrange(0, i as int)));
        }
    }
    proof {
        assert(t@.subrange(0, n as int) =~= t@);
    }
}

/// Renders a lookup outcome as the response line.
pub fn render_response(r: &Option<TypedValue>) -> (out: String)
    ensures
        out@ == render_opt(opt_model(*r)),
{
    match r {
        None => "None".to_owned(),
        Some(TypedValue::Numeric(c)) => {
            let mut out: String = "Some(Numeric(".to_owned();
            out.append(c.as_str());
            out.append("))");
            proof {
                assert(out@ =~= render_opt(opt_model(*r)));
            }
            out
        },
        Some(TypedValue::Text(t)) => {
            let mut out: String = "Some(Text(\"".to_owned();
            append_escaped(&mut out, t.as_str());
            out.append("\"))");
            proof {
                assert(out@ =~= render_opt(opt_model(*r)));
            }
            out
        },
    }
}

/// Parses and applies one request line, and renders the response: a store
/// command answers with the missing signal, a lookup with the value or the
/// missing signal, and a parse error with its message.
pub fn execute(db: &mut Database, command: &str) -> (r: String)
    ensures
        match parse_model(command@) {
            Ok(CommandModel::SetCmd { key, value }) => final(db)@ == old(db)@.insert(key, value)
                && r@ == "None"@,
            Ok(CommandModel::GetCmd { key }) => final(db)@ == old(db)@ && r@ == render_opt(
                lookup_model(old(db)@, key),
            ),
            Err(e) => final(db)@ == old(db)@ && r@ == message_of(e),
        },
{
    match parse(command) {
        Ok(parsed_command) => {
            let res = execute_command(db, parsed_command);
            render_response(&res)
        },
        Err(e) => e.message(),
    }
}

} // verus!
