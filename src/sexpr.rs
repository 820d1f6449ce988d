//! The S-expression text form of programs: tokens, nested lists, and the
//! conversion of lists and atoms into program trees.
use vstd::prelude::*;
use vstd::std_specs::iter::IteratorSpec;
use crate::ast::{lemma_trees_of, trees_of, OpCode, Tree, UntypedAst};

verus! {

/// Unicode `White_Space`, the characters that `str::trim` removes.
pub open spec fn is_white_space(c: char) -> bool {
    let u = c as u32;
    (0x09 <= u <= 0x0D) || u == 0x20 || u == 0x85 || u == 0xA0 || u == 0x1680 || (0x2000 <= u <= 0x200A)
        || u == 0x2028 || u == 0x2029 || u == 0x202F || u == 0x205F || u == 0x3000
}

/// `s` without its leading white space.
pub open spec fn trim_start(s: Seq<char>) -> Seq<char>
    decreases s.len(),
{
    if s.len() > 0 && is_white_space(s[0]) {
        trim_start(s.drop_first())
    } else {
        s
    }
}

/// `s` without its trailing white space.
pub open spec fn trim_end(s: Seq<char>) -> Seq<char>
    decreases s.len(),
{
    if s.len() > 0 && is_white_space(s[s.len() - 1]) {
        trim_end(s.drop_last())
    } else {
        s
    }
}

/// `s` without leading or trailing white space.
pub open spec fn trim(s: Seq<char>) -> Seq<char> {
    trim_end(trim_start(s))
}

/// Relies on `str::trim`: the slice without leading and trailing `White_Space`.
#[verifier::external_body]
fn trimmed(s: &str) -> (r: &str)
    ensures
        r@ == trim(s@),
{
    s.trim()
}

/// Relies on `String::push`: the character appended at the end.
#[verifier::external_body]
fn push_char(s: &mut String, c: char)
    ensures
        final(s)@ == old(s)@.push(c),
{
    s.push(c)
}

/// The characters that end a pending atom without being tokens themselves.
pub open spec fn is_separator(c: char) -> bool {
    c == ' ' || c == '\t' || c == '\n' || c == '\r'
}

/// A parenthesis, which is a token of its own.
pub open spec fn is_paren(c: char) -> bool {
    c == '(' || c == ')'
}

/// The tokens so far with the pending atom added, when it is not blank once trimmed.
pub open spec fn flush(toks: Seq<Seq<char>>, cur: Seq<char>) -> Seq<Seq<char>> {
    if trim(cur).len() > 0 {
        toks.push(trim(cur))
    } else {
        toks
    }
}

/// The tokenizer's state after reading `s`: the finished tokens and the pending atom.
/// A parenthesis flushes the atom and is a token; a separator flushes a non-blank
/// atom; any other character extends the atom.
pub open spec fn lex(s: Seq<char>) -> (Seq<Seq<char>>, Seq<char>)
    decreases s.len(),
{
    if s.len() == 0 {
        (Seq::empty(), Seq::empty())
    } else {
        let prev = lex(s.drop_last());
        let c = s[s.len() - 1];
        if is_paren(c) {
            (flush(prev.0, prev.1).push(seq![c]), Seq::empty())
        } else if is_separator(c) {
            if trim(prev.1).len() > 0 {
                (prev.0.push(trim(prev.1)), Seq::empty())
            } else {
                prev
            }
        } else {
            (prev.0, prev.1.push(c))
        }
    }
}

/// The tokens of `s`: parentheses and trimmed atoms, in order.
pub open spec fn tokens(s: Seq<char>) -> Seq<Seq<char>> {
    flush(lex(s).0, lex(s).1)
}

/// The character sequences of a list of strings.
pub open spec fn string_views(v: Seq<String>) -> Seq<Seq<char>> {
    v.map_values(|x: String| x@)
}

/// Splits text into parentheses and atoms.
pub fn tokenize(s: &str) -> (r: Vec<String>)
    ensures
        string_views(r@) == tokens(s@),
{
    broadcast use vstd::string::axiom_spec_iter, vstd::string::next_postcondition;
    let mut out: Vec<String> = Vec::new();
    let mut current = String::new();
    let mut it = s.chars();
    let ghost mut seen: Seq<char> = Seq::empty();
    proof {
        assert(it.remaining() == s@);
        assert(string_views(out@) =~= Seq::<Seq<char>>::empty());
    }
    let n = s.unicode_len();
    let mut i: usize = 0;
    while i < n
        invariant
            i <= n,
            n == s@.len(),
            seen.len() == i,
            it.obeys_prophetic_iter_laws(),
            seen + it.remaining() == s@,
            string_views(out@) == lex(seen).0,
            current@ == lex(seen).1,
        decreases n - i,
    {
        let c = it.next().unwrap();
        let ghost before = seen;
        proof {
            seen = seen.push(c);
            assert(seen.drop_last() =~= before);
            assert(seen + it.remaining() =~= s@);
        }
        if c == '(' || c == ')' {
            let t = trimmed(current.as_str());
            if !t.is_empty() {
                out.push(t.to_owned());
            }
            let mut p = String::new();
            push_char(&mut p, c);
            out.push(p);
            current = String::new();
        } else if c == ' ' || c == '\t' || c == '\n' || c == '\r' {
            let t = trimmed(current.as_str());
            if !t.is_empty() {
                out.push(t.to_owned());
                current = String::new();
            }
        } else {
            push_char(&mut current, c);
        }
        assert(string_views(out@) =~= lex(seen).0);
        assert(current@ =~= lex(seen).1);
        i = i + 1;
    }
    proof {
        assert(seen =~= s@);
    }
    let t = trimmed(current.as_str());
    if !t.is_empty() {
        out.push(t.to_owned());
    }
    assert(string_views(out@) =~= tokens(s@));
    out
}


/// A parsed S-expression: an atom, or a parenthesized list.
#[derive(Debug)]
pub enum SExpr {
    Atom(String),
    List(Vec<SExpr>),
}

/// The mathematical value of an S-expression.
pub enum Sx {
    Atom(Seq<char>),
    List(Seq<Sx>),
}

/// The value that an S-expression denotes.
pub open spec fn sx_of(e: SExpr) -> Sx
    decreases e,
{
    match e {
        SExpr::Atom(s) => Sx::Atom(s@),
        SExpr::List(items) => Sx::List(sxs_of(items@)),
    }
}

/// The values of a sequence of S-expressions.
pub open spec fn sxs_of(s: Seq<SExpr>) -> Seq<Sx>
    decreases s,
{
    if s.len() == 0 {
        Seq::empty()
    } else {
        sxs_of(s.subrange(0, s.len() - 1)).push(sx_of(s[s.len() - 1]))
    }
}

impl View for SExpr {
    type V = Sx;

    open spec fn view(&self) -> Sx {
        sx_of(*self)
    }
}

/// `sxs_of` maps each element on its own.
pub proof fn lemma_sxs_of(s: Seq<SExpr>)
    ensures
        sxs_of(s).len() == s.len(),
        forall|i: int| 0 <= i < s.len() ==> #[trigger] sxs_of(s)[i] == s[i]@,
    decreases s.len(),
{
    if s.len() > 0 {
        lemma_sxs_of(s.subrange(0, s.len() - 1));
        assert forall|i: int| 0 <= i < s.len() implies #[trigger] sxs_of(s)[i] == s[i]@ by {
            if i < s.len() - 1 {
                assert(s.subrange(0, s.len() - 1)[i] == s[i]);
            }
        }
    }
}

/// Why a token sequence is not one S-expression.
#[derive(Debug)]
pub enum ParseError {
    /// The tokens ran out where an expression was expected.
    UnexpectedEnd,
    /// A list was opened and never closed.
    MissingClosingParen,
    /// A `)` stood where an expression was expected.
    UnexpectedClosingParen,
    /// One expression was read and these tokens were left over.
    ExtraTokens(Vec<String>),
}

/// The opening-parenthesis token.
pub open spec fn open_tok() -> Seq<char> {
    seq!['(']
}

/// The closing-parenthesis token.
pub open spec fn close_tok() -> Seq<char> {
    seq![')']
}

/// Reads one expression at `pos`: an atom, or a list from `(` to its `)`;
/// the expression and the position after it.
pub open spec fn parse_expr(toks: Seq<Seq<char>>, pos: nat) -> Result<(Sx, nat), ParseError>
    decreases toks.len() - pos, 1int,
{
    if pos >= toks.len() {
        Err(ParseError::UnexpectedEnd)
    } else if toks[pos as int] == open_tok() {
        parse_items(toks, pos + 1, Seq::empty())
    } else if toks[pos as int] == close_tok() {
        Err(ParseError::UnexpectedClosingParen)
    } else {
        Ok((Sx::Atom(toks[pos as int]), pos + 1))
    }
}

/// Reads the rest of a list whose items so far are `acc`, up to and including its `)`.
pub open spec fn parse_items(toks: Seq<Seq<char>>, pos: nat, acc: Seq<Sx>) -> Result<(Sx, nat), ParseError>
    decreases toks.len() - pos, 2int,
{
    if pos >= toks.len() {
        Err(ParseError::MissingClosingParen)
    } else if toks[pos as int] == close_tok() {
        Ok((Sx::List(acc), pos + 1))
    } else {
        match parse_expr(toks, pos) {
            Err(e) => Err(e),
            Ok((x, next)) => if pos < next <= toks.len() {
                parse_items(toks, next, acc.push(x))
            } else {
                Err(ParseError::UnexpectedEnd)
            },
        }
    }
}

/// A successful read always moves forward and stays within the tokens.
pub proof fn lemma_parse_advances(toks: Seq<Seq<char>>, pos: nat)
    ensures
        parse_expr(toks, pos) matches Ok((_, next)) ==> pos < next <= toks.len(),
    decreases toks.len() - pos, 1int,
{
    if pos < toks.len() && toks[pos as int] == open_tok() {
        lemma_items_advance(toks, pos + 1, Seq::empty());
    }
}

/// A list's rest, when read, ends after `pos` and within the tokens.
pub proof fn lemma_items_advance(toks: Seq<Seq<char>>, pos: nat, acc: Seq<Sx>)
    ensures
        parse_items(toks, pos, acc) matches Ok((_, next)) ==> pos < next <= toks.len(),
    decreases toks.len() - pos, 2int,
{
    if pos < toks.len() && toks[pos as int] != close_tok() {
        lemma_parse_advances(toks, pos);
        if let Ok((x, next)) = parse_expr(toks, pos) {
            if pos < next <= toks.len() {
                lemma_items_advance(toks, next, acc.push(x));
            }
        }
    }
}

/// Two tokens are the same parenthesis.
fn is_token(t: &String, c: char) -> (r: bool)
    ensures
        r == (t@ == seq![c]),
{
    let s = t.as_str();
    if s.unicode_len() != 1 {
        return false;
    }
    let first = s.get_char(0);
    assert(first == c ==> s@ =~= seq![c]);
    first == c
}

/// Reads one S-expression from `tokens` at `*pos`, advancing `*pos` past it.
fn parse_sexpr_internal(tokens: &[String], pos: &mut usize) -> (r: Result<SExpr, ParseError>)
    requires
        *old(pos) <= tokens@.len(),
    ensures
        match parse_expr(string_views(tokens@), *old(pos) as nat) {
            Ok((x, next)) => r matches Ok(e) && e@ == x && *final(pos) == next,
            Err(ParseError::UnexpectedEnd) => r matches Err(ParseError::UnexpectedEnd),
            Err(ParseError::MissingClosingParen) => r matches Err(ParseError::MissingClosingParen),
            Err(ParseError::UnexpectedClosingParen) => r matches Err(ParseError::UnexpectedClosingParen),
            Err(ParseError::ExtraTokens(_)) => false,
        },
        *old(pos) == tokens@.len() ==> *final(pos) == *old(pos),
        *old(pos) < tokens@.len() && tokens@[*old(pos) as int]@ == close_tok() ==> *final(pos) == *old(pos),
    decreases tokens@.len() - *old(pos), 1int,
{
    let ghost toks = string_views(tokens@);
    let ghost start = *pos as nat;
    if *pos >= tokens.len() {
        return Err(ParseError::UnexpectedEnd);
    }
    assert(toks[start as int] == tokens@[start as int]@);
    if is_token(&tokens[*pos], '(') {
        proof {
            assert(tokens@[start as int]@[0] == '(' && close_tok()[0] == ')');
        }
        *pos = *pos + 1;
        let mut items: Vec<SExpr> = Vec::new();
        proof {
            assert(sxs_of(items@) =~= Seq::<Sx>::empty());
        }
        while *pos < tokens.len() && !is_token(&tokens[*pos], ')')
            invariant
                toks == string_views(tokens@),
                start == *old(pos) as nat,
                start < *pos <= tokens@.len(),
                tokens@[start as int]@ != close_tok(),
                parse_expr(toks, start) == parse_items(toks, *pos as nat, sxs_of(items@)),
            decreases tokens@.len() - *pos,
        {
            let ghost here = *pos as nat;
            let ghost acc = sxs_of(items@);
            assert(toks[here as int] == tokens@[here as int]@);
            assert(here < toks.len() && toks[here as int] != close_tok());
            assert(parse_items(toks, here, acc) == match parse_expr(toks, here) {
                Err(e) => Err(e),
                Ok((x, next)) => if here < next <= toks.len() {
                    parse_items(toks, next, acc.push(x))
                } else {
                    Err(ParseError::UnexpectedEnd)
                },
            });
            let item = parse_sexpr_internal(tokens, pos);
            proof {
                lemma_parse_advances(toks, here);
            }
            match item {
                Ok(e) => {
                    let ghost before = items@;
                    items.push(e);
                    proof {
                        assert(items@.subrange(0, items@.len() - 1) =~= before);
                    }
                },
                Err(err) => {
                    return Err(err);
                },
            }
        }
        if *pos >= tokens.len() {
            return Err(ParseError::MissingClosingParen);
        }
        assert(toks[*pos as int] == tokens@[*pos as int]@);
        *pos = *pos + 1;
        Ok(SExpr::List(items))
    } else if is_token(&tokens[*pos], ')') {
        Err(ParseError::UnexpectedClosingParen)
    } else {
        let atom = tokens[*pos].clone();
        *pos = *pos + 1;
        Ok(SExpr::Atom(atom))
    }
}

/// Tokenizes the text and reads exactly one S-expression from it.
pub fn parse_string_to_sexpr(s: &str) -> (r: Result<SExpr, ParseError>)
    ensures
        ({
            let toks = tokens(s@);
            match parse_expr(toks, 0) {
                Ok((x, next)) => if next < toks.len() {
                    r matches Err(ParseError::ExtraTokens(rest)) && string_views(rest@) == toks.subrange(next as int, toks.len() as int)
                } else {
                    r matches Ok(e) && e@ == x
                },
                Err(ParseError::UnexpectedEnd) => r matches Err(ParseError::UnexpectedEnd),
                Err(ParseError::MissingClosingParen) => r matches Err(ParseError::MissingClosingParen),
                Err(ParseError::UnexpectedClosingParen) => r matches Err(ParseError::UnexpectedClosingParen),
                Err(ParseError::ExtraTokens(_)) => false,
            }
        }),
{
    let toks = tokenize(s);
    let mut pos: usize = 0;
    let expr = parse_sexpr_internal(toks.as_slice(), &mut pos);
    proof {
        lemma_parse_advances(tokens(s@), 0);
    }
    match expr {
        Err(e) => Err(e),
        Ok(e) => {
            if pos < toks.len() {
                let mut rest: Vec<String> = Vec::new();
                let mut k: usize = pos;
                while k < toks.len()
                    invariant
                        pos <= k <= toks@.len(),
                        string_views(rest@) == string_views(toks@).subrange(pos as int, k as int),
                    decreases toks.len() - k,
                {
                    let ghost old_rest = rest@;
                    rest.push(toks[k].clone());
                    proof {
                        assert(string_views(rest@) =~= string_views(old_rest).push(toks@[k as int]@));
                        assert(string_views(toks@).subrange(pos as int, k + 1) =~= string_views(toks@).subrange(pos as int, k as int).push(toks@[k as int]@));
                    }
                    k = k + 1;
                }
                Err(ParseError::ExtraTokens(rest))
            } else {
                Ok(e)
            }
        },
    }
}


/// The value of a run of decimal digits.
pub open spec fn digits_value(s: Seq<char>) -> int
    decreases s.len(),
{
    if s.len() == 0 {
        0
    } else {
        digits_value(s.drop_last()) * 10 + (s[s.len() - 1] as int - '0' as int)
    }
}

/// Every character is an ASCII decimal digit.
pub open spec fn all_digits(s: Seq<char>) -> bool {
    forall|i: int| 0 <= i < s.len() ==> '0' <= #[trigger] s[i] <= '9'
}

/// The integer that decimal text denotes: an optional `+` or `-`, then at least
/// one digit, and nothing else; `None` for any other text.
pub open spec fn integer_text(s: Seq<char>) -> Option<int> {
    let signed = s.len() > 0 && (s[0] == '-' || s[0] == '+');
    let body = if signed { s.drop_first() } else { s };
    if body.len() > 0 && all_digits(body) {
        Some(if signed && s[0] == '-' { -digits_value(body) } else { digits_value(body) })
    } else {
        None
    }
}

/// The `i32` that text denotes, when it denotes one in range.
pub open spec fn i32_text(s: Seq<char>) -> Option<i32> {
    match integer_text(s) {
        Some(v) => if i32::MIN <= v <= i32::MAX {
            Some(v as i32)
        } else {
            None
        },
        None => None,
    }
}

/// Relies on `str::parse::<i32>`: succeeds exactly on an optional sign followed
/// by decimal digits whose value fits `i32`.
#[verifier::external_body]
fn parse_int(s: &str) -> (r: Option<i32>)
    ensures
        r == i32_text(s@),
{
    s.parse::<i32>().ok()
}

/// What `str::to_uppercase` makes of a text.
pub uninterp spec fn upper_of(s: Seq<char>) -> Seq<char>;

/// Relies on `str::to_uppercase`: the result depends on the characters alone.
#[verifier::external_body]
fn uppercase(s: &str) -> (r: String)
    ensures
        r@ == upper_of(s@),
{
    s.to_uppercase()
}

/// The opcode that an upper-cased word names; `Noop` for any unknown word.
pub open spec fn keyword_op(u: Seq<char>) -> OpCode {
    if u == "+"@ {
        OpCode::Plus
    } else if u == "-"@ {
        OpCode::Minus
    } else if u == "*"@ {
        OpCode::Mult
    } else if u == "DUP"@ {
        OpCode::Dup
    } else if u == "POP"@ {
        OpCode::Pop
    } else if u == ">"@ {
        OpCode::GreaterThan
    } else if u == "<"@ {
        OpCode::LessThan
    } else if u == "=="@ {
        OpCode::Equal
    } else if u == "!="@ {
        OpCode::NotEqual
    } else if u == ">="@ {
        OpCode::GreaterEqual
    } else if u == "<="@ {
        OpCode::LessEqual
    } else if u == "SIN"@ {
        OpCode::Sin
    } else if u == "COS"@ {
        OpCode::Cos
    } else if u == "SQRT"@ {
        OpCode::Sqrt
    } else if u == "ABS"@ {
        OpCode::Abs
    } else if u == "MOD"@ {
        OpCode::Mod
    } else if u == "POW"@ {
        OpCode::Pow
    } else if u == "PI"@ {
        OpCode::ConstPi
    } else if u == "E"@ {
        OpCode::ConstE
    } else if u == "RAND"@ {
        OpCode::ConstRand
    } else if u == "BOOL_TO_INT"@ {
        OpCode::BoolToInt
    } else if u == "INT_TO_BOOL"@ {
        OpCode::IntToBool
    } else if u == "IF_THEN"@ {
        OpCode::IfThen
    } else if u == "IF_ELSE"@ {
        OpCode::IfElse
    } else {
        OpCode::Noop
    }
}

/// The program an S-expression stands for: an integer atom is a literal, any
/// other atom the instruction its upper-cased text names, a list a block.
pub open spec fn program_of(e: Sx) -> Tree
    decreases e,
{
    match e {
        Sx::Atom(s) => match i32_text(s) {
            Some(v) => Tree::Lit(v),
            None => Tree::Op(keyword_op(upper_of(s))),
        },
        Sx::List(items) => Tree::Block(programs_of(items)),
    }
}

/// The programs of a sequence of S-expressions.
pub open spec fn programs_of(s: Seq<Sx>) -> Seq<Tree>
    decreases s,
{
    if s.len() == 0 {
        Seq::empty()
    } else {
        programs_of(s.subrange(0, s.len() - 1)).push(program_of(s[s.len() - 1]))
    }
}

/// `programs_of` maps each element on its own.
pub proof fn lemma_programs_of(s: Seq<Sx>)
    ensures
        programs_of(s).len() == s.len(),
        forall|i: int| 0 <= i < s.len() ==> #[trigger] programs_of(s)[i] == program_of(s[i]),
    decreases s.len(),
{
    if s.len() > 0 {
        lemma_programs_of(s.subrange(0, s.len() - 1));
        assert forall|i: int| 0 <= i < s.len() implies #[trigger] programs_of(s)[i] == program_of(s[i]) by {
            if i < s.len() - 1 {
                assert(s.subrange(0, s.len() - 1)[i] == s[i]);
            }
        }
    }
}

fn same_text(s: &str, w: &str) -> (r: bool)
    ensures
        r == (s@ == w@),
{
    let n = s.unicode_len();
    if n != w.unicode_len() {
        return false;
    }
    let mut i: usize = 0;
    while i < n
        invariant
            n == s@.len(),
            n == w@.len(),
            i <= n,
            s@.subrange(0, i as int) == w@.subrange(0, i as int),
        decreases n - i,
    {
        if s.get_char(i) != w.get_char(i) {
            return false;
        }
        assert(s@.subrange(0, i + 1) =~= s@.subrange(0, i as int).push(s@[i as int]));
        assert(w@.subrange(0, i + 1) =~= w@.subrange(0, i as int).push(w@[i as int]));
        i = i + 1;
    }
    assert(s@ =~= s@.subrange(0, n as int));
    assert(w@ =~= w@.subrange(0, n as int));
    true
}

fn keyword(u: &str) -> (r: OpCode)
    ensures
        r == keyword_op(u@),
{
    if same_text(u, "+") {
        OpCode::Plus
    } else if same_text(u, "-") {
        OpCode::Minus
    } else if same_text(u, "*") {
        OpCode::Mult
    } else if same_text(u, "DUP") {
        OpCode::Dup
    } else if same_text(u, "POP") {
        OpCode::Pop
    } else if same_text(u, ">") {
        OpCode::GreaterThan
    } else if same_text(u, "<") {
        OpCode::LessThan
    } else if same_text(u, "==") {
        OpCode::Equal
    } else if same_text(u, "!=") {
        OpCode::NotEqual
    } else if same_text(u, ">=") {
        OpCode::GreaterEqual
    } else if same_text(u, "<=") {
        OpCode::LessEqual
    } else if same_text(u, "SIN") {
        OpCode::Sin
    } else if same_text(u, "COS") {
        OpCode::Cos
    } else if same_text(u, "SQRT") {
        OpCode::Sqrt
    } else if same_text(u, "ABS") {
        OpCode::Abs
    } else if same_text(u, "MOD") {
        OpCode::Mod
    } else if same_text(u, "POW") {
        OpCode::Pow
    } else if same_text(u, "PI") {
        OpCode::ConstPi
    } else if same_text(u, "E") {
        OpCode::ConstE
    } else if same_text(u, "RAND") {
        OpCode::ConstRand
    } else if same_text(u, "BOOL_TO_INT") {
        OpCode::BoolToInt
    } else if same_text(u, "INT_TO_BOOL") {
        OpCode::IntToBool
    } else if same_text(u, "IF_THEN") {
        OpCode::IfThen
    } else if same_text(u, "IF_ELSE") {
        OpCode::IfElse
    } else {
        OpCode::Noop
    }
}

/// Converts an S-expression into a program. Integer atoms become literals, other
/// atoms the instruction they name (case-insensitively), unknown words `Noop`;
/// lists become blocks. It never fails.
pub fn sexpr_to_untyped(expr: &SExpr) -> (r: Result<UntypedAst, String>)
    ensures
        r matches Ok(t) && t@ == program_of(expr@),
    decreases expr,
{
    match expr {
        SExpr::Atom(text) => {
            match parse_int(text.as_str()) {
                Some(v) => Ok(UntypedAst::IntLiteral(v)),
                None => {
                    let u = uppercase(text.as_str());
                    Ok(UntypedAst::Instruction(keyword(u.as_str())))
                },
            }
        },
        SExpr::List(items) => {
            let ghost xs = sxs_of(items@);
            let mut sub_asts: Vec<UntypedAst> = Vec::with_capacity(items.len());
            let mut i: usize = 0;
            while i < items.len()
                invariant
                    i <= items.len(),
                    *expr == SExpr::List(*items),
                    sub_asts@.len() == i,
                    forall|k: int| 0 <= k < i ==> #[trigger] sub_asts@[k]@ == program_of(items@[k]@),
                decreases items.len() - i,
            {
                proof {
                    vstd::std_specs::vec::axiom_vec_index_decreases(*items, i as int);
                    assert(decreases_to!(*expr => (*expr)->List_0));
                }
                match sexpr_to_untyped(&items[i]) {
                    Ok(t) => sub_asts.push(t),
                    Err(e) => {
                        return Err(e);
                    },
                }
                i = i + 1;
            }
            proof {
                lemma_sxs_of(items@);
                lemma_programs_of(xs);
                lemma_trees_of(sub_asts@);
                assert(trees_of(sub_asts@) =~= programs_of(xs));
            }
            Ok(UntypedAst::Sublist(sub_asts))
        },
    }
}

} // verus!
