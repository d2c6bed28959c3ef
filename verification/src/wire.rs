//! The client wire protocol's token grammar.
//!
//! A request line is made of tokens separated by one or more spaces and ended
//! by a newline. A token is either simple — any run of characters without
//! space, newline or double quote — or quoted: `"…"` where `\\` and `\"`
//! stand for a backslash and a double quote, and any other content is
//! literal. Reading is streaming: a token cut short by the end of the input
//! is incomplete, not wrong, since more input may follow.

use vstd::prelude::*;
use vstd::string::StrSliceExecFns;

verus! {

/// The characters a simple token cannot hold.
pub open spec fn is_reserved(c: char) -> bool {
    c == ' ' || c == '\n' || c == '"'
}

/// The outcome of reading one token: the token and the position after it and
/// its trailing spaces; or the input ran out inside the token; or the input
/// cannot be a token here.
pub ghost enum ArgOut {
    Token { token: Seq<char>, next: int },
    Incomplete,
    Fail,
}

/// The end of a run of spaces starting at the given position.
pub open spec fn skip_spaces(t: Seq<char>, i: int) -> int
    decreases t.len() - i,
    when 0 <= i <= t.len()
{
    if i >= t.len() {
        i
    } else if t[i] == ' ' {
        skip_spaces(t, i + 1)
    } else {
        i
    }
}

/// The end of a run of unreserved characters starting at the given position.
pub open spec fn simple_end(t: Seq<char>, i: int) -> int
    decreases t.len() - i,
    when 0 <= i <= t.len()
{
    if i >= t.len() {
        i
    } else if is_reserved(t[i]) {
        i
    } else {
        simple_end(t, i + 1)
    }
}

/// Read the inside of a quoted token from the given position (just after the
/// opening quote) to its closing quote, unescaping `\\` and `\"`.
pub open spec fn quoted_scan(t: Seq<char>, i: int) -> ArgOut
    decreases t.len() - i,
    when 0 <= i <= t.len()
{
    if i >= t.len() {
        ArgOut::Incomplete
    } else if t[i] == '"' {
        ArgOut::Token { token: seq![], next: i + 1 }
    } else if t[i] == '\\' {
        if i + 1 >= t.len() {
            ArgOut::Incomplete
        } else if t[i + 1] == '\\' || t[i + 1] == '"' {
            match quoted_scan(t, i + 2) {
                ArgOut::Token { token, next } => ArgOut::Token { token: seq![t[i + 1]] + token, next },
                other => other,
            }
        } else {
            ArgOut::Fail
        }
    } else {
        match quoted_scan(t, i + 1) {
            ArgOut::Token { token, next } => ArgOut::Token { token: seq![t[i]] + token, next },
            other => other,
        }
    }
}

/// Read one token from the given position: leading spaces, a simple or
/// quoted token, trailing spaces. The input runs out — incomplete — when it
/// ends inside the token or inside a space run that might continue.
pub open spec fn parse_argument(t: Seq<char>, i: int) -> ArgOut
    recommends
        0 <= i <= t.len(),
{
    let sp = skip_spaces(t, i);
    if sp >= t.len() {
        ArgOut::Incomplete
    } else if t[sp] == '"' {
        match quoted_scan(t, sp + 1) {
            ArgOut::Token { token, next } => {
                let after = skip_spaces(t, next);
                if after >= t.len() {
                    ArgOut::Incomplete
                } else {
                    ArgOut::Token { token, next: after }
                }
            },
            other => other,
        }
    } else if t[sp] == '\n' {
        ArgOut::Fail
    } else {
        let j = simple_end(t, sp);
        if j >= t.len() {
            ArgOut::Incomplete
        } else {
            let after = skip_spaces(t, j);
            if after >= t.len() {
                ArgOut::Incomplete
            } else {
                ArgOut::Token { token: t.subrange(sp, j), next: after }
            }
        }
    }
}

/// The escaped form of one character inside a quoted token.
pub open spec fn esc_char(c: char) -> Seq<char> {
    if c == '\\' || c == '"' {
        seq!['\\', c]
    } else {
        seq![c]
    }
}

/// The escaped form of a token's content.
pub open spec fn escape(s: Seq<char>) -> Seq<char>
    decreases s.len(),
{
    if s.len() == 0 {
        seq![]
    } else {
        escape(s.drop_last()) + esc_char(s.last())
    }
}

/// The quoted rendering of a token: its escaped content between quotes. Any
/// token can be written this way, whatever it holds.
pub open spec fn render_quoted(s: Seq<char>) -> Seq<char> {
    seq!['"'] + escape(s) + seq!['"']
}

/// Within a byte run equal to a concatenation, relate the parts to the whole.
proof fn lemma_concat_at(a: Seq<char>, b: Seq<char>, t: Seq<char>, i: int)
    requires
        0 <= i <= t.len(),
        t.subrange(i, t.len() as int) == a + b,
    ensures
        t.len() == i + a.len() + b.len(),
        t.subrange(i + a.len(), t.len() as int) == b,
        forall|k: int| 0 <= k < a.len() ==> t[i + k] == #[trigger] a[k],
{
    let tail = t.subrange(i, t.len() as int);
    assert(tail.len() == t.len() - i);
    assert forall|k: int| 0 <= k < b.len() implies t[i + a.len() + k] == #[trigger] b[k] by {
        assert((a + b)[a.len() + k] == b[k]);
        assert(tail[a.len() + k] == t[i + a.len() + k]);
    }
    assert(t.subrange(i + a.len(), t.len() as int) =~= b);
    assert forall|k: int| 0 <= k < a.len() implies t[i + k] == #[trigger] a[k] by {
        assert((a + b)[k] == a[k]);
        assert(tail[k] == t[i + k]);
    }
}

/// The escaped form read from the front.
proof fn lemma_escape_head(s: Seq<char>)
    requires
        s.len() > 0,
    ensures
        escape(s) == esc_char(s[0]) + escape(s.drop_first()),
    decreases s.len(),
{
    if s.len() == 1 {
        assert(s.drop_last().len() == 0);
        assert(s.drop_first().len() == 0);
        assert(escape(s) == escape(s.drop_last()) + esc_char(s.last()));
        assert(escape(s.drop_last()) =~= Seq::<char>::empty());
        assert(s.last() == s[0]);
        assert(escape(s.drop_first()) =~= Seq::<char>::empty());
        assert(escape(s) =~= esc_char(s[0]) + escape(s.drop_first()));
    } else {
        lemma_escape_head(s.drop_last());
        assert(s.drop_last()[0] == s[0]);
        assert(s.drop_last().drop_first() =~= s.drop_first().drop_last());
        assert(s.drop_first().last() == s.last());
        assert(escape(s) == escape(s.drop_last()) + esc_char(s.last()));
        assert(escape(s.drop_first()) == escape(s.drop_first().drop_last()) + esc_char(
            s.drop_first().last(),
        ));
        assert(escape(s) =~= esc_char(s[0]) + escape(s.drop_first()));
    }
}

/// Scanning an escaped content followed by a closing quote reads back the
/// content.
proof fn lemma_scan_escape(s: Seq<char>, t: Seq<char>, i: int, rest: Seq<char>)
    requires
        0 <= i <= t.len(),
        t.subrange(i, t.len() as int) == escape(s) + seq!['"'] + rest,
    ensures
        quoted_scan(t, i) == (ArgOut::Token { token: s, next: i + escape(s).len() + 1 }),
    decreases s.len(),
{
    if s.len() == 0 {
        assert(s =~= Seq::<char>::empty());
        assert(escape(s) + seq!['"'] + rest =~= seq!['"'] + rest);
        lemma_concat_at(seq!['"'], rest, t, i);
        assert(t[i] == seq!['"'][0]);
        assert(t[i] == '"');
        assert(quoted_scan(t, i) == (ArgOut::Token { token: seq![], next: i + 1 }));
    } else {
        lemma_escape_head(s);
        let c = s[0];
        let e = esc_char(c);
        let b = escape(s.drop_first()) + seq!['"'] + rest;
        assert(escape(s) + seq!['"'] + rest =~= e + b);
        lemma_concat_at(e, b, t, i);
        if c == '\\' || c == '"' {
            assert(t[i] == e[0] && t[i + 1] == e[1]);
            assert(t[i] == '\\' && t[i + 1] == c);
            lemma_scan_escape(s.drop_first(), t, i + 2, rest);
            assert(seq![c] + s.drop_first() =~= s);
        } else {
            assert(t[i] == e[0]);
            assert(t[i] == c);
            assert(t[i] != '"' && t[i] != '\\');
            lemma_scan_escape(s.drop_first(), t, i + 1, rest);
            assert(seq![c] + s.drop_first() =~= s);
        }
    }
}

/// Law: a quoted rendering parses back to the token it was rendered from —
/// `parse(render(s)) == s` — whatever the token holds, in front of any
/// continuation that does not extend its trailing spaces.
pub proof fn lemma_parse_render(s: Seq<char>, rest: Seq<char>)
    requires
        rest.len() > 0,
        rest[0] != ' ',
    ensures
        parse_argument(render_quoted(s) + rest, 0) == (ArgOut::Token {
            token: s,
            next: render_quoted(s).len() as int,
        }),
{
    let w = render_quoted(s) + rest;
    assert(w[0] == '"');
    assert(skip_spaces(w, 0) == 0);
    assert(w.subrange(1, w.len() as int) =~= escape(s) + seq!['"'] + rest);
    lemma_scan_escape(s, w, 1, rest);
    let next = 1 + escape(s).len() + 1;
    assert(w[next as int] == rest[0]);
    assert(skip_spaces(w, next as int) == next);
}

/// An error reading a token: the input ran out inside it, or it is not a
/// token.
#[derive(Debug, PartialEq, Eq, Structural, Clone, Copy)]
pub enum Error {
    Incomplete,
    Error,
}

/// Relies on String::push: appends one character to the string.
#[verifier::external_body]
fn push_char(s: &mut String, c: char)
    ensures
        final(s)@ == old(s)@.push(c),
{
    s.push(c);
}

/// Read one token of a request line, starting at the given character
/// position: leading spaces, a simple or quoted token, trailing spaces.
/// Return the token and the position after it, or report that the input ran
/// out inside the token — more input may complete it — or that no token can
/// start here.
pub fn read_argument(text: &str, from: usize) -> (r: Result<(String, usize), Error>)
    requires
        from <= text@.len(),
    ensures
        match r {
            Ok(p) => parse_argument(text@, from as int) == (ArgOut::Token {
                token: p.0@,
                next: p.1 as int,
            }) && p.1 <= text@.len(),
            Err(Error::Incomplete) => parse_argument(text@, from as int) is Incomplete,
            Err(Error::Error) => parse_argument(text@, from as int) is Fail,
        },
{
    let len = text.unicode_len();
    let sp = skip_spaces_exec(text, from);
    if sp >= len {
        return Err(Error::Incomplete);
    }
    let c = text.get_char(sp);
    if c == '"' {
        // A quoted token: unescape until the closing quote.
        let mut token = String::new();
        let mut i: usize = sp + 1;
        loop
            invariant
                sp + 1 <= i <= len,
                len == text@.len(),
                sp == skip_spaces(text@, from as int),
                sp < len,
                text@[sp as int] == '"',
                quoted_scan(text@, sp + 1) == (match quoted_scan(text@, i as int) {
                    ArgOut::Token { token: tok, next } => ArgOut::Token { token: token@ + tok, next },
                    other => other,
                }),
            decreases len - i,
        {
            if i >= len {
                return Err(Error::Incomplete);
            }
            let c = text.get_char(i);
            if c == '"' {
                let after = skip_spaces_exec(text, i + 1);
                proof {
                    assert(token@ + Seq::<char>::empty() =~= token@);
                }
                if after >= len {
                    return Err(Error::Incomplete);
                }
                return Ok((token, after));
            } else if c == '\\' {
                if i + 1 >= len {
                    return Err(Error::Incomplete);
                }
                let e = text.get_char(i + 1);
                if e == '\\' || e == '"' {
                    let ghost tok0 = token@;
                    push_char(&mut token, e);
                    proof {
                        if quoted_scan(text@, i + 2) is Token {
                            let tok = quoted_scan(text@, i + 2)->Token_token;
                            assert(tok0 + (seq![text@[i + 1]] + tok) =~= token@ + tok);
                        }
                    }
                    i = i + 2;
                } else {
                    return Err(Error::Error);
                }
            } else {
                let ghost tok0 = token@;
                push_char(&mut token, c);
                proof {
                    if quoted_scan(text@, i + 1) is Token {
                        let tok = quoted_scan(text@, i + 1)->Token_token;
                        assert(tok0 + (seq![text@[i as int]] + tok) =~= token@ + tok);
                    }
                }
                i = i + 1;
            }
        }
    } else if c == '\n' {
        Err(Error::Error)
    } else {
        let j = simple_end_exec(text, sp);
        if j >= len {
            return Err(Error::Incomplete);
        }
        let after = skip_spaces_exec(text, j);
        if after >= len {
            return Err(Error::Incomplete);
        }
        let token = text.substring_char(sp, j).to_owned();
        Ok((token, after))
    }
}

/// Skip a run of spaces.
fn skip_spaces_exec(text: &str, from: usize) -> (r: usize)
    requires
        from <= text@.len(),
    ensures
        r == skip_spaces(text@, from as int),
        from <= r <= text@.len(),
{
    let len = text.unicode_len();
    let mut i = from;
    while i < len && text.get_char(i) == ' '
        invariant
            from <= i <= len,
            len == text@.len(),
            skip_spaces(text@, from as int) == skip_spaces(text@, i as int),
        decreases len - i,
    {
        i = i + 1;
    }
    i
}

/// Find the end of a run of unreserved characters.
fn simple_end_exec(text: &str, from: usize) -> (r: usize)
    requires
        from <= text@.len(),
    ensures
        r == simple_end(text@, from as int),
        from <= r <= text@.len(),
{
    let len = text.unicode_len();
    let mut i = from;
    loop
        invariant
            from <= i <= len,
            len == text@.len(),
            simple_end(text@, from as int) == simple_end(text@, i as int),
        decreases len - i,
    {
        if i >= len {
            return i;
        }
        let c = text.get_char(i);
        if c == ' ' || c == '\n' || c == '"' {
            return i;
        }
        i = i + 1;
    }
}

/// Render a token as a quoted argument, escaping backslashes and quotes: the
/// form that reads back to the token itself, whatever it holds.
pub fn render_argument(s: &str) -> (r: String)
    ensures
        r@ == render_quoted(s@),
{
    let len = s.unicode_len();
    let mut out = String::new();
    push_char(&mut out, '"');
    let mut i: usize = 0;
    proof {
        assert(s@.take(0) =~= Seq::<char>::empty());
        assert(out@ =~= seq!['"'] + escape(s@.take(0)));
    }
    while i < len
        invariant
            0 <= i <= len,
            len == s@.len(),
            out@ == seq!['"'] + escape(s@.take(i as int)),
        decreases len - i,
    {
        let c = s.get_char(i);
        let ghost out0 = out@;
        if c == '\\' || c == '"' {
            push_char(&mut out, '\\');
            push_char(&mut out, c);
        } else {
            push_char(&mut out, c);
        }
        proof {
            assert(s@.take(i + 1).drop_last() =~= s@.take(i as int));
            assert(s@.take(i + 1).last() == s@[i as int]);
            assert(out@ =~= out0 + esc_char(s@[i as int]));
            assert(out@ =~= seq!['"'] + escape(s@.take(i + 1)));
        }
        i = i + 1;
    }
    push_char(&mut out, '"');
    proof {
        assert(s@.take(len as int) =~= s@);
        assert(out@ =~= render_quoted(s@));
    }
    out
}


/// Bounds of a space run.
pub proof fn lemma_skip_spaces_bounds(t: Seq<char>, i: int)
    requires
        0 <= i <= t.len(),
    ensures
        i <= skip_spaces(t, i) <= t.len(),
        skip_spaces(t, i) < t.len() ==> t[skip_spaces(t, i)] != ' ',
    decreases t.len() - i,
{
    if i < t.len() && t[i] == ' ' {
        lemma_skip_spaces_bounds(t, i + 1);
    }
}

/// Bounds of a simple token: it is never empty where a token may start.
pub proof fn lemma_simple_end_bounds(t: Seq<char>, i: int)
    requires
        0 <= i <= t.len(),
    ensures
        i <= simple_end(t, i) <= t.len(),
        i < t.len() && !is_reserved(t[i]) ==> i < simple_end(t, i),
    decreases t.len() - i,
{
    if i < t.len() && !is_reserved(t[i]) {
        lemma_simple_end_bounds(t, i + 1);
    }
}

/// Bounds of a quoted token's scan: it consumes at least its closing quote.
pub proof fn lemma_quoted_scan_bounds(t: Seq<char>, i: int)
    requires
        0 <= i <= t.len(),
        quoted_scan(t, i) is Token,
    ensures
        i < quoted_scan(t, i)->Token_next <= t.len(),
    decreases t.len() - i,
{
    if i < t.len() && t[i] != '"' {
        if t[i] == '\\' {
            lemma_quoted_scan_bounds(t, i + 2);
        } else {
            lemma_quoted_scan_bounds(t, i + 1);
        }
    }
}

/// Reading a token consumes at least one character.
pub proof fn lemma_argument_advances(t: Seq<char>, i: int)
    requires
        0 <= i <= t.len(),
    ensures
        parse_argument(t, i) is Token ==> i < parse_argument(t, i)->Token_next <= t.len(),
{
    lemma_skip_spaces_bounds(t, i);
    let sp = skip_spaces(t, i);
    if sp < t.len() {
        if t[sp] == '"' {
            if quoted_scan(t, sp + 1) is Token {
                lemma_quoted_scan_bounds(t, sp + 1);
                let next = quoted_scan(t, sp + 1)->Token_next;
                lemma_skip_spaces_bounds(t, next);
            }
        } else if t[sp] == '\n' {
        } else {
            assert(!is_reserved(t[sp]));
            lemma_simple_end_bounds(t, sp);
            let j = simple_end(t, sp);
            lemma_skip_spaces_bounds(t, j);
        }
    }
}

/// The outcome of reading a run of tokens: the tokens and the position where
/// no further token starts, or the input ran out inside a token or a space
/// run.
pub ghost enum ArgsOut {
    Args { arguments: Seq<Seq<char>>, next: int },
    Incomplete,
}

/// Read tokens from the given position until none can start: the collected
/// tokens and the stop position.
pub open spec fn parse_args(t: Seq<char>, i: int) -> ArgsOut
    decreases t.len() - i,
    when 0 <= i <= t.len()
{
    match parse_argument(t, i) {
        ArgOut::Token { token, next } => if i < next <= t.len() {
            match parse_args(t, next) {
                ArgsOut::Args { arguments, next: n2 } => ArgsOut::Args {
                    arguments: seq![token] + arguments,
                    next: n2,
                },
                ArgsOut::Incomplete => ArgsOut::Incomplete,
            }
        } else {
            ArgsOut::Args { arguments: seq![], next: i }
        },
        ArgOut::Incomplete => ArgsOut::Incomplete,
        ArgOut::Fail => ArgsOut::Args { arguments: seq![], next: i },
    }
}

/// The outcome of reading one request line: the echo-back identifier, the
/// instruction tokens and the position after the newline; or the input ran
/// out inside the line; or the line is not a request.
pub ghost enum LineOut {
    Line { identifier: Seq<char>, arguments: Seq<Seq<char>>, next: int },
    Incomplete,
    Fail,
}

/// Read one request line: an identifier token, at least one further token,
/// and a newline. The input runs out — incomplete — when it ends inside a
/// token, inside a trailing space run, or before the newline.
pub open spec fn parse_line(t: Seq<char>) -> LineOut {
    match parse_args(t, 0) {
        ArgsOut::Incomplete => LineOut::Incomplete,
        ArgsOut::Args { arguments, next } => if arguments.len() < 2 {
            LineOut::Fail
        } else if next >= t.len() {
            LineOut::Incomplete
        } else if t[next] != '\n' {
            LineOut::Fail
        } else {
            LineOut::Line {
                identifier: arguments[0],
                arguments: arguments.drop_first(),
                next: next + 1,
            }
        },
    }
}

/// Read one request line from the front of the input: an identifier token, at
/// least one further token, and a newline. Return the identifier, the tokens
/// and the input left after the newline; or the whole input back, with
/// whether it ran out inside the line — more input may complete it — or
/// cannot be a request line.
pub fn parse<'a>(input: &'a str) -> (r: Result<(&'a str, (String, Vec<String>)), (&'a str, Error)>)
    ensures
        match r {
            Ok(p) => {
                &&& parse_line(input@) is Line
                &&& p.1.0@ == parse_line(input@)->Line_identifier
                &&& p.1.1.deep_view() == parse_line(input@)->Line_arguments
                &&& p.0@ == input@.subrange(parse_line(input@)->Line_next, input@.len() as int)
            },
            Err(p) => p.0@ == input@ && match p.1 {
                Error::Incomplete => parse_line(input@) is Incomplete,
                Error::Error => parse_line(input@) is Fail,
            },
        },
{
    let len = input.unicode_len();
    let mut tokens: Vec<String> = Vec::new();
    let mut pos: usize = 0;
    proof {
        assert(tokens.deep_view() =~= Seq::<Seq<char>>::empty());
    }
    loop
        invariant
            0 <= pos <= len,
            len == input@.len(),
            parse_args(input@, 0) == (match parse_args(input@, pos as int) {
                ArgsOut::Args { arguments, next } => ArgsOut::Args {
                    arguments: tokens.deep_view() + arguments,
                    next,
                },
                ArgsOut::Incomplete => ArgsOut::Incomplete,
            }),
        decreases len - pos,
    {
        match read_argument(input, pos) {
            Ok((token, next)) => {
                proof {
                    lemma_argument_advances(input@, pos as int);
                }
                let ghost dv = tokens.deep_view();
                tokens.push(token);
                proof {
                    assert(tokens.deep_view() =~= dv.push(token@));
                    if parse_args(input@, next as int) is Args {
                        let a = parse_args(input@, next as int)->Args_arguments;
                        assert(dv + (seq![token@] + a) =~= tokens.deep_view() + a);
                    }
                }
                pos = next;
            },
            Err(Error::Incomplete) => {
                return Err((input, Error::Incomplete));
            },
            Err(Error::Error) => {
                // No further token can start here: the line must end now.
                proof {
                    assert(tokens.deep_view() + Seq::<Seq<char>>::empty() =~= tokens.deep_view());
                }
                if tokens.len() < 2 {
                    return Err((input, Error::Error));
                }
                if pos >= len {
                    return Err((input, Error::Incomplete));
                }
                if input.get_char(pos) != '\n' {
                    return Err((input, Error::Error));
                }
                let rest = input.substring_char(pos + 1, len);
                let ghost dv = tokens.deep_view();
                let identifier = tokens.remove(0);
                proof {
                    assert(identifier@ == dv[0]);
                    assert forall|k: int|
                        0 <= k < tokens.deep_view().len() implies #[trigger] tokens.deep_view()[k]
                        == dv.drop_first()[k] by {
                        assert(tokens@[k] == tokens@[k]);
                    }
                    assert(tokens.deep_view() =~= dv.drop_first());
                }
                return Ok((rest, (identifier, tokens)));
            },
        }
    }
}

} // verus!
