//! Reading a regular expression: from text to tokens, and from tokens to a
//! tree.

use crate::regex_models::{
    clone_token, is_unfilled_or, is_unfilled_star, syntactic_check, tokens_view, ConcatenatedExpression,
    KleeneOperator, OrOperator, ParsingError, Token, TokenView,
};
use crate::text::{char_at, chars_of, string_of};
use vstd::prelude::*;

verus! {

/// Whether a character is white space.
pub open spec fn is_whitespace(c: char) -> bool {
    let n = c as u32;
    ||| 0x09 <= n <= 0x0d
    ||| n == 0x20
    ||| n == 0x85
    ||| n == 0xa0
    ||| n == 0x1680
    ||| 0x2000 <= n <= 0x200a
    ||| n == 0x2028
    ||| n == 0x2029
    ||| n == 0x202f
    ||| n == 0x205f
    ||| n == 0x3000
}

/// Whether a character is plain: no operator, no bracket, no white space.
pub open spec fn is_plain(c: char) -> bool {
    c != '+' && c != '*' && c != '(' && c != ')' && !is_whitespace(c)
}

/// Where the run of plain characters that starts at `pos` ends.
pub open spec fn literal_end(s: Seq<char>, pos: int) -> int
    decreases s.len() - pos,
{
    if pos < 0 || pos >= s.len() || !is_plain(s[pos]) {
        pos
    } else {
        literal_end(s, pos + 1)
    }
}

/// What reading tokens from some position gives: the tokens, the position
/// behind them, and whether reading ended at a closing bracket.
pub struct Scan {
    pub tokens: Seq<TokenView>,
    pub next: int,
    pub closed: bool,
}

/// The position of the closing bracket at which reading ended.
pub open spec fn closing_bracket(read: Scan) -> int {
    read.next - 1
}

/// Puts a token in front of what was read behind it.
pub open spec fn prepend(t: TokenView, rest: Result<Scan, ParsingError>) -> Result<Scan, ParsingError> {
    match rest {
        Err(e) => Err(e),
        Ok(scan) => Ok(Scan { tokens: seq![t] + scan.tokens, next: scan.next, closed: scan.closed }),
    }
}

/// Puts tokens in front of what was read behind them.
pub open spec fn prepend_all(front: Seq<TokenView>, rest: Result<Scan, ParsingError>) -> Result<
    Scan,
    ParsingError,
> {
    match rest {
        Err(e) => Err(e),
        Ok(scan) => Ok(Scan { tokens: front + scan.tokens, next: scan.next, closed: scan.closed }),
    }
}

/// Reads tokens from `pos` on, up to the end of the text or to a closing
/// bracket. `+` gives an alternation and `*` a star, both with empty
/// slots; `(` gives a grouped expression of the tokens up to its closing
/// bracket, and fails without one; a run of plain characters gives one
/// literal; white space is skipped.
pub open spec fn scan(s: Seq<char>, pos: int) -> Result<Scan, ParsingError>
    decreases s.len() - pos,
{
    if pos < 0 || pos >= s.len() {
        Ok(Scan { tokens: Seq::empty(), next: pos, closed: false })
    } else {
        let c = s[pos];
        if c == ')' {
            Ok(Scan { tokens: Seq::empty(), next: pos + 1, closed: true })
        } else if c == '+' {
            prepend(TokenView::Alternation(None, None), scan(s, pos + 1))
        } else if c == '*' {
            prepend(TokenView::Star(None), scan(s, pos + 1))
        } else if c == '(' {
            match scan(s, pos + 1) {
                Err(e) => Err(e),
                Ok(inner) => if !inner.closed || inner.next <= pos || inner.next > s.len() {
                    Err(ParsingError::MissingClosingBracket)
                } else {
                    prepend(TokenView::Grouped(inner.tokens), scan(s, inner.next))
                },
            }
        } else if is_whitespace(c) {
            scan(s, pos + 1)
        } else {
            let end = literal_end(s, pos);
            if end <= pos || end > s.len() {
                Err(ParsingError::UnableToConcatenate)
            } else {
                prepend(TokenView::Literal(s.subrange(pos, end)), scan(s, end))
            }
        }
    }
}

/// The run of plain characters ends behind its start, and within the text.
pub proof fn lemma_literal_end(s: Seq<char>, pos: int)
    requires
        0 <= pos <= s.len(),
    ensures
        pos <= literal_end(s, pos) <= s.len(),
        pos < s.len() && is_plain(s[pos]) ==> pos < literal_end(s, pos),
        forall|i: int| pos <= i < literal_end(s, pos) ==> is_plain(s[i]),
        literal_end(s, pos) < s.len() ==> !is_plain(s[literal_end(s, pos)]),
    decreases s.len() - pos,
{
    if pos < s.len() && is_plain(s[pos]) {
        lemma_literal_end(s, pos + 1);
    }
}

/// Reading ends within the text, and, with a closing bracket, behind where
/// it began.
pub proof fn lemma_scan_next(s: Seq<char>, pos: int)
    requires
        0 <= pos <= s.len(),
    ensures
        scan(s, pos) is Ok ==> pos <= scan(s, pos)->Ok_0.next <= s.len(),
        scan(s, pos) is Ok && scan(s, pos)->Ok_0.closed ==> pos < scan(s, pos)->Ok_0.next && s[closing_bracket(
            scan(s, pos)->Ok_0,
        )] == ')',
    decreases s.len() - pos,
{
    if pos < s.len() {
        let c = s[pos];
        if c == ')' {
        } else if c == '+' || c == '*' {
            lemma_scan_next(s, pos + 1);
        } else if c == '(' {
            lemma_scan_next(s, pos + 1);
            match scan(s, pos + 1) {
                Err(e) => {},
                Ok(inner) => {
                    if !(!inner.closed || inner.next <= pos || inner.next > s.len()) {
                        lemma_scan_next(s, inner.next);
                    }
                },
            }
        } else if is_whitespace(c) {
            lemma_scan_next(s, pos + 1);
        } else {
            lemma_literal_end(s, pos);
            let end = literal_end(s, pos);
            lemma_scan_next(s, end);
        }
    }
}

/// The tokens with their stars bound: every star with an empty slot takes
/// the token in front of it as its operand. A star with nothing in front
/// of it fails.
pub open spec fn bound_stars(ts: Seq<TokenView>) -> Result<Seq<TokenView>, ParsingError>
    decreases ts.len(),
{
    if ts.len() == 0 {
        Ok(Seq::empty())
    } else {
        match bound_stars(ts.drop_last()) {
            Err(e) => Err(e),
            Ok(front) => if is_unfilled_star(ts.last()) {
                if front.len() == 0 {
                    Err(ParsingError::NoInnerArg)
                } else {
                    Ok(front.drop_last().push(TokenView::Star(Some(Box::new(front.last())))))
                }
            } else {
                Ok(front.push(ts.last()))
            },
        }
    }
}

/// How far position `i` is from the middle of a list of the given length.
pub open spec fn distance_from_middle(len: int, i: int) -> int {
    let middle = len / 2;
    if i >= middle {
        i - middle
    } else {
        middle - i
    }
}

/// Whether some token is an alternation with an empty slot.
pub open spec fn has_unfilled_or(ts: Seq<TokenView>) -> bool {
    exists|i: int| 0 <= i < ts.len() && is_unfilled_or(#[trigger] ts[i])
}

/// Whether the token at `i` is the alternation with an empty slot that is
/// closest to the middle of the list, the first one of those that are
/// equally close.
pub open spec fn is_middlemost_or(ts: Seq<TokenView>, i: int) -> bool {
    &&& 0 <= i < ts.len()
    &&& is_unfilled_or(ts[i])
    &&& forall|j: int|
        0 <= j < ts.len() && is_unfilled_or(#[trigger] ts[j]) ==> distance_from_middle(ts.len() as int, i)
            < distance_from_middle(ts.len() as int, j) || (distance_from_middle(ts.len() as int, i)
            == distance_from_middle(ts.len() as int, j) && i <= j)
}

/// The position of the alternation to split the list at.
pub open spec fn middlemost_or(ts: Seq<TokenView>) -> int {
    choose|i: int| is_middlemost_or(ts, i)
}

/// The tokens folded into a balanced tree of concatenations: one token
/// stands for itself, two are concatenated, more are split in the middle.
pub open spec fn concatenated(ts: Seq<TokenView>) -> TokenView
    decreases ts.len(),
{
    if ts.len() == 0 {
        TokenView::Literal(Seq::empty())
    } else if ts.len() == 1 {
        ts[0]
    } else if ts.len() == 2 {
        TokenView::Concatenation(Some(Box::new(ts[0])), Some(Box::new(ts[1])))
    } else {
        let middle = (ts.len() / 2) as int;
        TokenView::Concatenation(
            Some(Box::new(concatenated(ts.subrange(0, middle)))),
            Some(Box::new(concatenated(ts.subrange(middle, ts.len() as int)))),
        )
    }
}

/// The tree of a list of tokens without groups and unbound stars: the
/// list is split at the alternation closest to its middle, as long as one
/// has an empty slot, and the two sides become its operands; a side that
/// is empty fails. A list without such an alternation is concatenated. A
/// list without tokens fails with `NoneTokenProvided`.
pub open spec fn split_alternations(ts: Seq<TokenView>) -> Result<TokenView, ParsingError>
    decreases ts.len(),
{
    if ts.len() == 0 {
        Err(ParsingError::NoneTokenProvided)
    } else if has_unfilled_or(ts) {
        let i = middlemost_or(ts);
        if i <= 0 || i >= ts.len() {
            Err(ParsingError::EmptyLeftArg)
        } else if i == ts.len() - 1 {
            Err(ParsingError::EmptyRightArg)
        } else {
            match split_alternations(ts.subrange(0, i)) {
                Err(e) => Err(e),
                Ok(left) => match split_alternations(ts.subrange(i + 1, ts.len() as int)) {
                    Err(e) => Err(e),
                    Ok(right) => Ok(TokenView::Alternation(Some(Box::new(left)), Some(Box::new(right)))),
                },
            }
        }
    } else {
        Ok(concatenated(ts))
    }
}

/// A token with a group replaced by the tree of its tokens.
pub open spec fn group_resolved(t: TokenView) -> Result<TokenView, ParsingError>
    decreases t, 2int,
{
    match t {
        TokenView::Grouped(inner) => parsed(inner),
        _ => Ok(t),
    }
}

/// The tokens with every group replaced by the tree of its tokens. The
/// first group that cannot be parsed decides the error.
pub open spec fn resolved_groups(ts: Seq<TokenView>) -> Result<Seq<TokenView>, ParsingError>
    decreases ts, 0int,
{
    if ts.len() == 0 {
        Ok(Seq::empty())
    } else {
        match resolved_groups(ts.drop_last()) {
            Err(e) => Err(e),
            Ok(front) => match group_resolved(ts.last()) {
                Err(e) => Err(e),
                Ok(t) => Ok(front.push(t)),
            },
        }
    }
}

/// The tree of a list of tokens: groups are replaced by their trees, stars
/// are bound to the token in front of them, and the list is split at its
/// alternations and concatenated.
pub open spec fn parsed(ts: Seq<TokenView>) -> Result<TokenView, ParsingError>
    decreases ts, 1int,
{
    match resolved_groups(ts) {
        Err(e) => Err(e),
        Ok(flat) => match bound_stars(flat) {
            Err(e) => Err(e),
            Ok(bound) => split_alternations(bound),
        },
    }
}

/// The tree of a regular expression: its text is read into tokens, the
/// tokens are parsed, and the tree is checked for empty slots.
pub open spec fn parse_tree(regex: Seq<char>) -> Result<TokenView, ParsingError> {
    match scan(regex, 0) {
        Err(e) => Err(e),
        Ok(read) => match parsed(read.tokens) {
            Err(e) => Err(e),
            Ok(tree) => match syntactic_check(tree) {
                Err(e) => Err(e),
                Ok(_) => Ok(tree),
            },
        },
    }
}

/// The view of the outcome of parsing.
pub open spec fn outcome_view(r: Result<Token, ParsingError>) -> Result<TokenView, ParsingError> {
    match r {
        Ok(t) => Ok(t@),
        Err(e) => Err(e),
    }
}

/// The views of a list with one more token are the views with one more.
pub proof fn lemma_tokens_view_push(tokens: Seq<Token>, t: Token)
    ensures
        tokens_view(tokens.push(t)) == tokens_view(tokens).push(t@),
{
    assert(tokens_view(tokens.push(t)) =~= tokens_view(tokens).push(t@));
}

/// Whether a character is white space.
pub fn is_whitespace_char(c: char) -> (b: bool)
    ensures
        b == is_whitespace(c),
{
    let n: u32 = c as u32;
    (0x09 <= n && n <= 0x0d) || n == 0x20 || n == 0x85 || n == 0xa0 || n == 0x1680 || (0x2000 <= n && n
        <= 0x200a) || n == 0x2028 || n == 0x2029 || n == 0x202f || n == 0x205f || n == 0x3000
}

/// Whether a character is plain.
pub fn is_plain_char(c: char) -> (b: bool)
    ensures
        b == is_plain(c),
{
    c != '+' && c != '*' && c != '(' && c != ')' && !is_whitespace_char(c)
}

/// The literal of the run of plain characters that starts at `pos`, and
/// where the run ends.
fn read_literal(chars: &Vec<char>, pos: usize) -> (r: (Token, usize))
    requires
        pos <= chars@.len(),
    ensures
        r.1 == literal_end(chars@, pos as int),
        pos <= r.1 <= chars@.len(),
        r.0@ == TokenView::Literal(chars@.subrange(pos as int, r.1 as int)),
{
    let mut text: Vec<char> = Vec::new();
    let mut end: usize = pos;
    while end < chars.len() && is_plain_char(char_at(chars, end))
        invariant
            pos <= end <= chars@.len(),
            literal_end(chars@, pos as int) == literal_end(chars@, end as int),
            text@ == chars@.subrange(pos as int, end as int),
        decreases chars@.len() - end,
    {
        let c = char_at(chars, end);
        text.push(c);
        end += 1;
        assert(text@ == chars@.subrange(pos as int, end as int));
    }
    (Token::Literal(string_of(&text)), end)
}

impl Token {
    /// Reads the run of plain characters at the start of `stream` into a
    /// literal. Returns the literal and the length of the run.
    pub fn parse_string_to_tokens(stream: &str) -> (r: (Token, usize))
        ensures
            r.1 == literal_end(stream@, 0),
            r.0@ == TokenView::Literal(stream@.subrange(0, r.1 as int)),
    {
        let chars = chars_of(stream);
        read_literal(&chars, 0)
    }
}

/// Reads tokens from `pos` on, up to the end of the text or to a closing
/// bracket. Returns the tokens, the position behind them, and whether a
/// closing bracket ended them.
fn tokenize_from(chars: &Vec<char>, pos: usize) -> (r: Result<(Vec<Token>, usize, bool), ParsingError>)
    requires
        pos <= chars@.len(),
    ensures
        r is Ok <==> scan(chars@, pos as int) is Ok,
        r is Err ==> r->Err_0 == scan(chars@, pos as int)->Err_0,
        r is Ok ==> tokens_view((r->Ok_0).0@) == scan(chars@, pos as int)->Ok_0.tokens && (r->Ok_0).1 == scan(
            chars@,
            pos as int,
        )->Ok_0.next && (r->Ok_0).2 == scan(chars@, pos as int)->Ok_0.closed && (r->Ok_0).1 <= chars@.len(),
    decreases chars@.len() - pos,
{
    let ghost s = chars@;
    let mut tokens: Vec<Token> = Vec::new();
    let mut at: usize = pos;
    proof {
        assert(tokens_view(tokens@) =~= Seq::<TokenView>::empty());
        match scan(s, pos as int) {
            Ok(read) => {
                assert(Seq::<TokenView>::empty() + read.tokens =~= read.tokens);
            },
            Err(e) => {},
        }
    }
    while at < chars.len()
        invariant
            s == chars@,
            pos <= at <= s.len(),
            scan(s, pos as int) == prepend_all(tokens_view(tokens@), scan(s, at as int)),
        decreases s.len() - at,
    {
        let c = char_at(chars, at);
        let ghost front = tokens_view(tokens@);
        if c == ')' {
            proof {
                assert(front + Seq::<TokenView>::empty() =~= front);
                lemma_scan_next(s, pos as int);
            }
            return Ok((tokens, at + 1, true));
        } else if c == '+' {
            let token = Token::OrOperator(Box::new(OrOperator { left_argument: None, right_argument: None }));
            proof {
                lemma_tokens_view_push(tokens@, token);
                lemma_prepend_shift(front, token@, scan(s, at + 1));
            }
            tokens.push(token);
            at += 1;
        } else if c == '*' {
            let token = Token::KleeneOperator(Box::new(KleeneOperator { inner_argument: None }));
            proof {
                lemma_tokens_view_push(tokens@, token);
                lemma_prepend_shift(front, token@, scan(s, at + 1));
            }
            tokens.push(token);
            at += 1;
        } else if c == '(' {
            match tokenize_from(chars, at + 1) {
                Err(e) => {
                    return Err(e);
                },
                Ok((inner, next, closed)) => {
                    proof {
                        lemma_scan_next(s, at + 1);
                    }
                    if !closed {
                        return Err(ParsingError::MissingClosingBracket);
                    }
                    let token = Token::GroupedExpression(Box::new(inner));
                    proof {
                        lemma_tokens_view_push(tokens@, token);
                        lemma_prepend_shift(front, token@, scan(s, next as int));
                    }
                    tokens.push(token);
                    at = next;
                },
            }
        } else if is_whitespace_char(c) {
            at += 1;
        } else {
            proof {
                lemma_literal_end(s, at as int);
            }
            let (token, end) = read_literal(chars, at);
            proof {
                lemma_tokens_view_push(tokens@, token);
                lemma_prepend_shift(front, token@, scan(s, end as int));
            }
            tokens.push(token);
            at = end;
        }
    }
    proof {
        assert(tokens_view(tokens@) + Seq::<TokenView>::empty() =~= tokens_view(tokens@));
    }
    Ok((tokens, at, false))
}

/// Tokens in front of a token in front of the rest are the tokens with
/// that token, in front of the rest.
proof fn lemma_prepend_shift(front: Seq<TokenView>, t: TokenView, rest: Result<Scan, ParsingError>)
    ensures
        prepend_all(front, prepend(t, rest)) == prepend_all(front.push(t), rest),
{
    match rest {
        Ok(scan) => {
            assert(front + (seq![t] + scan.tokens) =~= front.push(t) + scan.tokens);
        },
        Err(e) => {},
    }
}

/// Reads a regular expression into tokens: `+` gives an alternation and
/// `*` a star, both with empty slots; `(` gives a grouped expression of
/// the tokens up to its closing bracket, and fails with
/// `MissingClosingBracket` without one; a run of plain characters gives
/// one literal; white space is skipped. Reading stops at a closing bracket
/// that closes nothing; its position is then returned with the tokens in
/// front of it.
pub fn tokenize_regular_expression(regex: &str) -> (r: Result<(Vec<Token>, Option<usize>), ParsingError>)
    ensures
        r is Ok <==> scan(regex@, 0) is Ok,
        r is Err ==> r->Err_0 == scan(regex@, 0)->Err_0,
        r is Ok ==> tokens_view((r->Ok_0).0@) == scan(regex@, 0)->Ok_0.tokens,
        r is Ok ==> ((r->Ok_0).1 is Some <==> scan(regex@, 0)->Ok_0.closed),
        r is Ok && (r->Ok_0).1 is Some ==> (r->Ok_0).1->0 == closing_bracket(scan(regex@, 0)->Ok_0) && regex@[(
        r->Ok_0).1->0 as int] == ')',
{
    let chars = chars_of(regex);
    proof {
        lemma_scan_next(chars@, 0);
    }
    match tokenize_from(&chars, 0) {
        Err(e) => Err(e),
        Ok((tokens, next, closed)) => if closed {
            Ok((tokens, Some(next - 1)))
        } else {
            Ok((tokens, None))
        },
    }
}

/// Replaces every group by the tree of its tokens.
fn resolve_groups(tokens: &Vec<Token>) -> (r: Result<Vec<Token>, ParsingError>)
    ensures
        r is Ok <==> resolved_groups(tokens_view(tokens@)) is Ok,
        r is Err ==> r->Err_0 == resolved_groups(tokens_view(tokens@))->Err_0,
        r is Ok ==> tokens_view(r->Ok_0@) == resolved_groups(tokens_view(tokens@))->Ok_0,
    decreases *tokens, 0int,
{
    let ghost tv = tokens_view(tokens@);
    let mut out: Vec<Token> = Vec::new();
    let mut i: usize = 0;
    assert(tokens_view(out@) =~= Seq::<TokenView>::empty());
    assert(tv.subrange(0, 0) =~= Seq::<TokenView>::empty());
    while i < tokens.len()
        invariant
            tv == tokens_view(tokens@),
            i <= tokens.len(),
            resolved_groups(tv.subrange(0, i as int)) == Ok::<Seq<TokenView>, ParsingError>(tokens_view(out@)),
        decreases tokens.len() - i,
    {
        let ghost part = tv.subrange(0, i + 1);
        proof {
            assert(part.drop_last() == tv.subrange(0, i as int));
            assert(part.last() == tokens@[i as int]@);
        }
        let resolved = match &tokens[i] {
            Token::GroupedExpression(inner) => match parse_token_list(inner) {
                Err(e) => {
                    proof {
                        lemma_resolved_groups_error(tv, i as int);
                    }
                    return Err(e);
                },
                Ok(tree) => {
                    assert(group_resolved(part.last()) == Ok::<TokenView, ParsingError>(tree@));
                    tree
                },
            },
            other => {
                let copy = clone_token(other);
                assert(group_resolved(part.last()) == Ok::<TokenView, ParsingError>(copy@));
                copy
            },
        };
        proof {
            lemma_tokens_view_push(out@, resolved);
        }
        out.push(resolved);
        i += 1;
    }
    assert(tv.subrange(0, i as int) == tv);
    Ok(out)
}

/// A group that cannot be parsed, behind groups that can, decides the
/// error for the whole list.
proof fn lemma_resolved_groups_error(ts: Seq<TokenView>, i: int)
    requires
        0 <= i < ts.len(),
        resolved_groups(ts.subrange(0, i)) is Ok,
        group_resolved(ts[i]) is Err,
    ensures
        resolved_groups(ts) is Err,
        resolved_groups(ts)->Err_0 == group_resolved(ts[i])->Err_0,
    decreases ts.len(),
{
    if i == ts.len() - 1 {
        assert(ts.drop_last() == ts.subrange(0, i));
    } else {
        assert(ts.drop_last().subrange(0, i) == ts.subrange(0, i));
        lemma_resolved_groups_error(ts.drop_last(), i);
    }
}

/// Binds every star with an empty slot to the token in front of it.
fn bind_stars(tokens: &Vec<Token>) -> (r: Result<Vec<Token>, ParsingError>)
    ensures
        r is Ok <==> bound_stars(tokens_view(tokens@)) is Ok,
        r is Err ==> r->Err_0 == bound_stars(tokens_view(tokens@))->Err_0,
        r is Ok ==> tokens_view(r->Ok_0@) == bound_stars(tokens_view(tokens@))->Ok_0,
{
    let ghost tv = tokens_view(tokens@);
    let mut out: Vec<Token> = Vec::new();
    let mut i: usize = 0;
    assert(tokens_view(out@) =~= Seq::<TokenView>::empty());
    assert(tv.subrange(0, 0) =~= Seq::<TokenView>::empty());
    while i < tokens.len()
        invariant
            tv == tokens_view(tokens@),
            i <= tokens.len(),
            bound_stars(tv.subrange(0, i as int)) == Ok::<Seq<TokenView>, ParsingError>(tokens_view(out@)),
        decreases tokens.len() - i,
    {
        let ghost part = tv.subrange(0, i + 1);
        let ghost front = tokens_view(out@);
        proof {
            assert(part.drop_last() == tv.subrange(0, i as int));
            assert(part.last() == tokens@[i as int]@);
        }
        let unfilled = match &tokens[i] {
            Token::KleeneOperator(k) => k.inner_argument.is_none(),
            _ => false,
        };
        if unfilled {
            match out.pop() {
                None => {
                    proof {
                        assert(front =~= Seq::<TokenView>::empty());
                        lemma_bound_stars_error(tv, i as int);
                    }
                    return Err(ParsingError::NoInnerArg);
                },
                Some(operand) => {
                    let star = Token::KleeneOperator(Box::new(KleeneOperator { inner_argument: Some(operand) }));
                    proof {
                        assert(tokens_view(out@) =~= front.drop_last());
                        assert(operand@ == front.last());
                        lemma_tokens_view_push(out@, star);
                    }
                    out.push(star);
                },
            }
        } else {
            let copy = clone_token(&tokens[i]);
            proof {
                lemma_tokens_view_push(out@, copy);
            }
            out.push(copy);
        }
        i += 1;
    }
    assert(tv.subrange(0, i as int) == tv);
    Ok(out)
}

/// A star with nothing in front of it, behind stars that could be bound,
/// decides the error for the whole list.
proof fn lemma_bound_stars_error(ts: Seq<TokenView>, i: int)
    requires
        0 <= i < ts.len(),
        bound_stars(ts.subrange(0, i)) == Ok::<Seq<TokenView>, ParsingError>(Seq::empty()),
        is_unfilled_star(ts[i]),
    ensures
        bound_stars(ts) == Err::<Seq<TokenView>, ParsingError>(ParsingError::NoInnerArg),
    decreases ts.len(),
{
    if i == ts.len() - 1 {
        assert(ts.drop_last() == ts.subrange(0, i));
    } else {
        assert(ts.drop_last().subrange(0, i) == ts.subrange(0, i));
        lemma_bound_stars_error(ts.drop_last(), i);
    }
}

/// Whether the token is an alternation with an empty slot.
fn is_unfilled_or_token(t: &Token) -> (b: bool)
    ensures
        b == is_unfilled_or(t@),
{
    match t {
        Token::OrOperator(o) => o.left_argument.is_none() || o.right_argument.is_none(),
        _ => false,
    }
}

/// The position, within the part from `lo` to `hi`, of the alternation
/// with an empty slot that is closest to the middle of the part.
fn middlemost_or_in(tokens: &Vec<Token>, lo: usize, hi: usize) -> (r: Option<usize>)
    requires
        lo <= hi <= tokens@.len(),
    ensures
        r is Some <==> has_unfilled_or(tokens_view(tokens@).subrange(lo as int, hi as int)),
        r is Some ==> r->0 < hi - lo && r->0 == middlemost_or(tokens_view(tokens@).subrange(lo as int, hi as int)),
{
    let ghost part = tokens_view(tokens@).subrange(lo as int, hi as int);
    let len = hi - lo;
    let middle = len / 2;
    let mut best: Option<usize> = None;
    let mut best_distance: usize = 0;
    let mut i: usize = 0;
    while i < len
        invariant
            lo <= hi <= tokens@.len(),
            len == hi - lo,
            middle == len / 2,
            part == tokens_view(tokens@).subrange(lo as int, hi as int),
            i <= len,
            best is None ==> forall|j: int| 0 <= j < i ==> !is_unfilled_or(#[trigger] part[j]),
            best is Some ==> best->0 < i && is_unfilled_or(part[best->0 as int]) && best_distance
                == distance_from_middle(len as int, best->0 as int),
            best is Some ==> forall|j: int|
                0 <= j < i && is_unfilled_or(#[trigger] part[j]) ==> best_distance < distance_from_middle(
                    len as int,
                    j,
                ) || (best_distance == distance_from_middle(len as int, j) && best->0 <= j),
        decreases len - i,
    {
        assert(part[i as int] == tokens@[lo + i]@);
        if is_unfilled_or_token(&tokens[lo + i]) {
            let distance = if i >= middle {
                i - middle
            } else {
                middle - i
            };
            match best {
                None => {
                    best = Some(i);
                    best_distance = distance;
                },
                Some(b) => {
                    if distance < best_distance {
                        best = Some(i);
                        best_distance = distance;
                    }
                },
            }
        }
        i += 1;
    }
    proof {
        match best {
            Some(b) => {
                assert(is_middlemost_or(part, b as int));
                let chosen = middlemost_or(part);
                assert(is_middlemost_or(part, chosen));
                assert(is_unfilled_or(part[chosen]));
                assert(is_unfilled_or(part[b as int]));
            },
            None => {},
        }
    }
    best
}

/// The tokens from `lo` to `hi` folded into a balanced tree of
/// concatenations.
fn concatenate_range(tokens: &Vec<Token>, lo: usize, hi: usize) -> (r: Token)
    requires
        lo < hi <= tokens@.len(),
    ensures
        r@ == concatenated(tokens_view(tokens@).subrange(lo as int, hi as int)),
    decreases hi - lo,
{
    let ghost tv = tokens_view(tokens@);
    let ghost part = tv.subrange(lo as int, hi as int);
    let len = hi - lo;
    if len == 1 {
        assert(part[0] == tokens@[lo as int]@);
        clone_token(&tokens[lo])
    } else if len == 2 {
        assert(part[0] == tokens@[lo as int]@);
        assert(part[1] == tokens@[lo + 1]@);
        Token::ConcatenatedExpression(
            Box::new(
                ConcatenatedExpression {
                    left_argument: Some(clone_token(&tokens[lo])),
                    right_argument: Some(clone_token(&tokens[lo + 1])),
                },
            ),
        )
    } else {
        let middle = lo + len / 2;
        proof {
            assert(part.subrange(0, (len / 2) as int) == tv.subrange(lo as int, middle as int));
            assert(part.subrange((len / 2) as int, len as int) == tv.subrange(middle as int, hi as int));
        }
        let left = concatenate_range(tokens, lo, middle);
        let right = concatenate_range(tokens, middle, hi);
        Token::ConcatenatedExpression(
            Box::new(ConcatenatedExpression { left_argument: Some(left), right_argument: Some(right) }),
        )
    }
}

/// The tree of the tokens from `lo` to `hi`, split at their alternations.
fn split_range(tokens: &Vec<Token>, lo: usize, hi: usize) -> (r: Result<Token, ParsingError>)
    requires
        lo <= hi <= tokens@.len(),
    ensures
        outcome_view(r) == split_alternations(tokens_view(tokens@).subrange(lo as int, hi as int)),
    decreases hi - lo,
{
    let ghost tv = tokens_view(tokens@);
    let ghost part = tv.subrange(lo as int, hi as int);
    if lo == hi {
        return Err(ParsingError::NoneTokenProvided);
    }
    match middlemost_or_in(tokens, lo, hi) {
        None => Ok(concatenate_range(tokens, lo, hi)),
        Some(i) => {
            if i == 0 {
                return Err(ParsingError::EmptyLeftArg);
            }
            if i == hi - lo - 1 {
                return Err(ParsingError::EmptyRightArg);
            }
            proof {
                assert(part.subrange(0, i as int) == tv.subrange(lo as int, lo + i));
                assert(part.subrange(i + 1, part.len() as int) == tv.subrange(lo + i + 1, hi as int));
            }
            let left = match split_range(tokens, lo, lo + i) {
                Err(e) => {
                    return Err(e);
                },
                Ok(t) => t,
            };
            let right = match split_range(tokens, lo + i + 1, hi) {
                Err(e) => {
                    return Err(e);
                },
                Ok(t) => t,
            };
            Ok(
                Token::OrOperator(
                    Box::new(OrOperator { left_argument: Some(left), right_argument: Some(right) }),
                ),
            )
        },
    }
}

/// The tree of a list of tokens.
fn parse_token_list(tokens: &Vec<Token>) -> (r: Result<Token, ParsingError>)
    ensures
        outcome_view(r) == parsed(tokens_view(tokens@)),
    decreases *tokens, 1int,
{
    let flat = match resolve_groups(tokens) {
        Err(e) => {
            return Err(e);
        },
        Ok(flat) => flat,
    };
    let bound = match bind_stars(&flat) {
        Err(e) => {
            return Err(e);
        },
        Ok(bound) => bound,
    };
    assert(tokens_view(bound@).subrange(0, bound@.len() as int) == tokens_view(bound@));
    split_range(&bound, 0, bound.len())
}

/// What a list of tokens offers to parsing.
pub trait TokenArrayMethods: Sized {
    spec fn token_views(&self) -> Seq<TokenView>;

    /// The first grouped expression, with its position.
    fn does_contain_grouped_expression(&self) -> (r: Option<(Token, usize)>)
        ensures
            r is Some ==> (r->0).1 < self.token_views().len() && self.token_views()[(r->0).1 as int] is Grouped
                && (r->0).0@ == self.token_views()[(r->0).1 as int],
            r is Some ==> forall|j: int| 0 <= j < (r->0).1 ==> !(#[trigger] self.token_views()[j] is Grouped),
            r is None ==> forall|j: int|
                0 <= j < self.token_views().len() ==> !(#[trigger] self.token_views()[j] is Grouped),
    ;

    /// The first star with an empty slot, with its position.
    fn does_contain_unfilled_kleene_token(&self) -> (r: Option<(Token, usize)>)
        ensures
            r is Some ==> (r->0).1 < self.token_views().len() && is_unfilled_star(
                self.token_views()[(r->0).1 as int],
            ) && (r->0).0@ == self.token_views()[(r->0).1 as int],
            r is Some ==> forall|j: int| 0 <= j < (r->0).1 ==> !is_unfilled_star(#[trigger] self.token_views()[j]),
            r is None ==> forall|j: int|
                0 <= j < self.token_views().len() ==> !is_unfilled_star(#[trigger] self.token_views()[j]),
    ;

    /// The alternation with an empty slot that is closest to the middle of
    /// the list, with its position.
    fn get_middlemost_or_token(&self) -> (r: Option<(Token, usize)>)
        ensures
            r is Some <==> has_unfilled_or(self.token_views()),
            r is Some ==> (r->0).1 == middlemost_or(self.token_views()) && (r->0).1 < self.token_views().len()
                && (r->0).0@ == self.token_views()[(r->0).1 as int],
    ;

    /// The tokens folded into a balanced tree of concatenations.
    fn concatenate_tokens(&self) -> (r: Token)
        requires
            self.token_views().len() > 0,
        ensures
            r@ == concatenated(self.token_views()),
    ;

    /// Whether parsing has something left to do: a group, or an operator
    /// with an empty slot.
    fn can_continue_parsing(&self) -> (b: bool)
        ensures
            b == exists|j: int|
                0 <= j < self.token_views().len() && needs_parsing(#[trigger] self.token_views()[j]),
    ;

    /// The tree of the tokens: groups are replaced by their trees, stars
    /// with an empty slot are bound to the token in front of them, and the
    /// list is split at its alternations and concatenated.
    fn parse_tokens(self) -> (r: Result<Token, ParsingError>)
        ensures
            outcome_view(r) == parsed(self.token_views()),
    ;
}

/// Whether a token is a group, or an alternation or a star with an empty
/// slot.
pub open spec fn needs_parsing(t: TokenView) -> bool {
    t is Grouped || is_unfilled_or(t) || is_unfilled_star(t)
}

impl TokenArrayMethods for Vec<Token> {
    open spec fn token_views(&self) -> Seq<TokenView> {
        tokens_view(self@)
    }

    fn does_contain_grouped_expression(&self) -> (r: Option<(Token, usize)>) {
        let mut i: usize = 0;
        while i < self.len()
            invariant
                i <= self.len(),
                forall|j: int| 0 <= j < i ==> !(#[trigger] tokens_view(self@)[j] is Grouped),
            decreases self.len() - i,
        {
            assert(tokens_view(self@)[i as int] == self@[i as int]@);
            match &self[i] {
                Token::GroupedExpression(_) => {
                    return Some((clone_token(&self[i]), i));
                },
                _ => {},
            }
            i += 1;
        }
        None
    }

    fn does_contain_unfilled_kleene_token(&self) -> (r: Option<(Token, usize)>) {
        let mut i: usize = 0;
        while i < self.len()
            invariant
                i <= self.len(),
                forall|j: int| 0 <= j < i ==> !is_unfilled_star(#[trigger] tokens_view(self@)[j]),
            decreases self.len() - i,
        {
            assert(tokens_view(self@)[i as int] == self@[i as int]@);
            let unfilled = match &self[i] {
                Token::KleeneOperator(k) => k.inner_argument.is_none(),
                _ => false,
            };
            if unfilled {
                return Some((clone_token(&self[i]), i));
            }
            i += 1;
        }
        None
    }

    fn get_middlemost_or_token(&self) -> (r: Option<(Token, usize)>) {
        assert(tokens_view(self@).subrange(0, self@.len() as int) == tokens_view(self@));
        match middlemost_or_in(self, 0, self.len()) {
            None => None,
            Some(i) => {
                assert(tokens_view(self@)[i as int] == self@[i as int]@);
                Some((clone_token(&self[i]), i))
            },
        }
    }

    fn concatenate_tokens(&self) -> (r: Token) {
        assert(tokens_view(self@).subrange(0, self@.len() as int) == tokens_view(self@));
        concatenate_range(self, 0, self.len())
    }

    fn can_continue_parsing(&self) -> (b: bool) {
        let mut i: usize = 0;
        while i < self.len()
            invariant
                i <= self.len(),
                forall|j: int| 0 <= j < i ==> !needs_parsing(#[trigger] tokens_view(self@)[j]),
            decreases self.len() - i,
        {
            assert(tokens_view(self@)[i as int] == self@[i as int]@);
            let needs = match &self[i] {
                Token::OrOperator(o) => o.left_argument.is_none() || o.right_argument.is_none(),
                Token::KleeneOperator(k) => k.inner_argument.is_none(),
                Token::GroupedExpression(_) => true,
                _ => false,
            };
            if needs {
                assert(needs_parsing(self.token_views()[i as int]));
                return true;
            }
            i += 1;
        }
        false
    }

    fn parse_tokens(self) -> (r: Result<Token, ParsingError>) {
        parse_token_list(&self)
    }
}

/// Parses a regular expression into its tree: the text is read into
/// tokens, the tokens are parsed, and the tree is checked for operators
/// with an empty slot.
pub fn build_parse_tree(regex: &str) -> (r: Result<Token, ParsingError>)
    ensures
        outcome_view(r) == parse_tree(regex@),
{
    let tokenized_expression = match tokenize_regular_expression(regex) {
        Err(e) => {
            return Err(e);
        },
        Ok((tokens, _)) => tokens,
    };
    let tree = match tokenized_expression.parse_tokens() {
        Err(e) => {
            return Err(e);
        },
        Ok(tree) => tree,
    };
    match tree.verify_syntactic_correctness() {
        Err(e) => Err(e),
        Ok(_) => Ok(tree),
    }
}

} // verus!
