//! Regular expressions as trees: the tokens a regular expression is read
//! into, the operators with their operand slots, and the check that a tree
//! has no slot left empty.

use vstd::prelude::*;

verus! {

/// A token of a regular expression, and at the same time a node of its
/// parse tree. Operators carry their operands in slots that are empty until
/// parsing fills them; a grouped expression holds the tokens between a pair
/// of brackets until parsing replaces it by their tree.
#[derive(Debug, PartialEq, Eq)]
pub enum Token {
    Literal(String),
    ConcatenatedExpression(Box<ConcatenatedExpression>),
    GroupedExpression(Box<Vec<Token>>),
    OrOperator(Box<OrOperator>),
    KleeneOperator(Box<KleeneOperator>),
}

/// A list of tokens.
pub type TokenArray = Vec<Token>;

/// Why a regular expression could not be parsed.
#[derive(Debug, PartialEq, Eq, Clone, Copy, Structural)]
pub enum ParsingError {
    NoEmptySpaceInParseTree,
    NoneTokenProvided,
    EmptyLeftArg,
    EmptyRightArg,
    NoInnerArg,
    UnableToConcatenate,
    MissingClosingBracket,
}

/// The alternation of two expressions.
#[derive(Debug, PartialEq, Eq)]
pub struct OrOperator {
    pub left_argument: Option<Token>,
    pub right_argument: Option<Token>,
}

/// The repetition of an expression, any number of times.
#[derive(Debug, PartialEq, Eq)]
pub struct KleeneOperator {
    pub inner_argument: Option<Token>,
}

/// One expression followed by another.
#[derive(Debug, PartialEq, Eq)]
pub struct ConcatenatedExpression {
    pub left_argument: Option<Token>,
    pub right_argument: Option<Token>,
}

/// What a token is, mathematically.
pub enum TokenView {
    Literal(Seq<char>),
    Concatenation(Option<Box<TokenView>>, Option<Box<TokenView>>),
    Grouped(Seq<TokenView>),
    Alternation(Option<Box<TokenView>>, Option<Box<TokenView>>),
    Star(Option<Box<TokenView>>),
}

/// The view of a token.
pub open spec fn token_view(t: Token) -> TokenView
    decreases t,
{
    match t {
        Token::Literal(text) => TokenView::Literal(text@),
        Token::ConcatenatedExpression(e) => TokenView::Concatenation(
            slot_view(e.left_argument),
            slot_view(e.right_argument),
        ),
        Token::GroupedExpression(tokens) => TokenView::Grouped(tokens_view(tokens@)),
        Token::OrOperator(o) => TokenView::Alternation(slot_view(o.left_argument), slot_view(o.right_argument)),
        Token::KleeneOperator(k) => TokenView::Star(slot_view(k.inner_argument)),
    }
}

/// The view of an operand slot.
pub open spec fn slot_view(slot: Option<Token>) -> Option<Box<TokenView>>
    decreases slot,
{
    match slot {
        None => None,
        Some(t) => Some(Box::new(token_view(t))),
    }
}

/// The views of a list of tokens.
pub open spec fn tokens_view(tokens: Seq<Token>) -> Seq<TokenView>
    decreases tokens,
{
    Seq::new(
        tokens.len(),
        |i: int|
            if 0 <= i < tokens.len() {
                token_view(tokens[i])
            } else {
                TokenView::Literal(Seq::empty())
            },
    )
}

impl View for Token {
    type V = TokenView;

    open spec fn view(&self) -> TokenView {
        token_view(*self)
    }
}

/// Whether a token is an alternation with an empty slot.
pub open spec fn is_unfilled_or(t: TokenView) -> bool {
    t matches TokenView::Alternation(l, r) && (l is None || r is None)
}

/// Whether a token is a star with its slot empty.
pub open spec fn is_unfilled_star(t: TokenView) -> bool {
    t matches TokenView::Star(inner) && inner is None
}

/// What the check of a tree finds: the first operator, walking the tree
/// with left operands before right ones, that has an empty slot decides
/// the error; a tree without one passes.
pub open spec fn syntactic_check(t: TokenView) -> Result<(), ParsingError>
    decreases t,
{
    match t {
        TokenView::Star(inner) => match inner {
            None => Err(ParsingError::NoInnerArg),
            Some(i) => syntactic_check(*i),
        },
        TokenView::Alternation(l, r) => match l {
            None => Err(ParsingError::EmptyLeftArg),
            Some(left) => match r {
                None => Err(ParsingError::EmptyRightArg),
                Some(right) => match syntactic_check(*left) {
                    Err(e) => Err(e),
                    Ok(_) => syntactic_check(*right),
                },
            },
        },
        TokenView::Concatenation(l, r) => match l {
            None => Err(ParsingError::EmptyLeftArg),
            Some(left) => match r {
                None => Err(ParsingError::EmptyRightArg),
                Some(right) => match syntactic_check(*left) {
                    Err(e) => Err(e),
                    Ok(_) => syntactic_check(*right),
                },
            },
        },
        _ => Ok(()),
    }
}

/// A binary operator: two operand slots.
pub trait BinaryOperator: Sized {
    spec fn left_view(&self) -> Option<Box<TokenView>>;

    spec fn right_view(&self) -> Option<Box<TokenView>>;

    /// The operator with the given operands.
    fn new(left_argument: Option<Token>, right_argument: Option<Token>) -> (r: Self)
        ensures
            r.left_view() == slot_view(left_argument),
            r.right_view() == slot_view(right_argument),
    ;

    /// The left operand, if the slot is filled.
    fn get_left_argument(&self) -> (r: Option<&Token>)
        ensures
            r is Some <==> self.left_view() is Some,
            r is Some ==> Some(Box::new(r->0@)) == self.left_view(),
    ;

    /// The right operand, if the slot is filled.
    fn get_right_argument(&self) -> (r: Option<&Token>)
        ensures
            r is Some <==> self.right_view() is Some,
            r is Some ==> Some(Box::new(r->0@)) == self.right_view(),
    ;

    /// What a slot of this operator holds after a token was put into it.
    spec fn slot_after_insert(slot: Option<Box<TokenView>>, token: Option<Box<TokenView>>) -> Result<
        Option<Box<TokenView>>,
        ParsingError,
    >;

    /// Puts a token into the left slot. Where that fails, the operator
    /// stays as it was.
    fn left_insert_token(&mut self, token_to_insert: Option<Token>) -> (r: Result<(), ParsingError>)
        ensures
            final(self).right_view() == old(self).right_view(),
            match Self::slot_after_insert(old(self).left_view(), slot_view(token_to_insert)) {
                Ok(slot) => r is Ok && final(self).left_view() == slot,
                Err(e) => r == Err::<(), ParsingError>(e) && final(self).left_view() == old(self).left_view(),
            },
    ;

    /// Puts a token into the right slot. Where that fails, the operator
    /// stays as it was.
    fn right_insert_token(&mut self, token_to_insert: Option<Token>) -> (r: Result<(), ParsingError>)
        ensures
            final(self).left_view() == old(self).left_view(),
            match Self::slot_after_insert(old(self).right_view(), slot_view(token_to_insert)) {
                Ok(slot) => r is Ok && final(self).right_view() == slot,
                Err(e) => r == Err::<(), ParsingError>(e) && final(self).right_view() == old(self).right_view(),
            },
    ;
}

/// The way to the first empty slot below a slot, going level by level and
/// within a level from left to right; `false` stands for the left or only
/// operand, `true` for the right one.
pub open spec fn shallowest_path(slot: Option<Box<TokenView>>) -> Option<Seq<bool>>
    decreases slot,
{
    match slot {
        None => Some(Seq::empty()),
        Some(node) => match *node {
            TokenView::Alternation(l, r) => nearer_first(shallowest_path(l), shallowest_path(r)),
            TokenView::Star(inner) => match shallowest_path(inner) {
                Some(p) => Some(seq![false] + p),
                None => None,
            },
            _ => None,
        },
    }
}

/// The shorter of the ways into the two operands, the left one where both
/// are equally long.
pub open spec fn nearer_first(left: Option<Seq<bool>>, right: Option<Seq<bool>>) -> Option<Seq<bool>> {
    match (left, right) {
        (Some(l), Some(r)) => if l.len() <= r.len() {
            Some(seq![false] + l)
        } else {
            Some(seq![true] + r)
        },
        (Some(l), None) => Some(seq![false] + l),
        (None, Some(r)) => Some(seq![true] + r),
        (None, None) => None,
    }
}

/// The slot with the token put at the end of the way.
pub open spec fn filled_along(slot: Option<Box<TokenView>>, path: Seq<bool>, t: TokenView) -> Option<Box<TokenView>>
    decreases path.len(),
{
    if path.len() == 0 {
        Some(Box::new(t))
    } else {
        match slot {
            Some(node) => match *node {
                TokenView::Alternation(l, r) => if path[0] {
                    Some(Box::new(TokenView::Alternation(l, filled_along(r, path.drop_first(), t))))
                } else {
                    Some(Box::new(TokenView::Alternation(filled_along(l, path.drop_first(), t), r)))
                },
                TokenView::Star(inner) => Some(
                    Box::new(TokenView::Star(filled_along(inner, path.drop_first(), t))),
                ),
                _ => slot,
            },
            None => slot,
        }
    }
}

/// The slot with the token put into the first empty slot that is found
/// going down, right operands before left ones; none if there is no empty
/// slot.
pub open spec fn filled_depth_first(slot: Option<Box<TokenView>>, t: TokenView) -> Option<Option<Box<TokenView>>>
    decreases slot,
{
    match slot {
        None => Some(Some(Box::new(t))),
        Some(node) => match *node {
            TokenView::Alternation(l, r) => match filled_depth_first(r, t) {
                Some(right) => Some(Some(Box::new(TokenView::Alternation(l, right)))),
                None => match filled_depth_first(l, t) {
                    Some(left) => Some(Some(Box::new(TokenView::Alternation(left, r)))),
                    None => None,
                },
            },
            TokenView::Star(inner) => match filled_depth_first(inner, t) {
                Some(filled) => Some(Some(Box::new(TokenView::Star(filled)))),
                None => None,
            },
            _ => None,
        },
    }
}

/// What an operator is after a token was put into it. A concatenation
/// takes it into its left slot if that is empty, else into its right
/// one. An alternation takes it into the first empty slot found level by
/// level, the right operand before the left one on the first level and
/// left before right below; without a token it stays as it is. A star
/// takes it into the first empty slot found going down, right operands
/// first. Without an empty slot, and for a concatenation or a star
/// without a token, putting fails.
pub open spec fn inserted(operator: TokenView, token: Option<Box<TokenView>>) -> Result<TokenView, ParsingError> {
    match operator {
        TokenView::Concatenation(l, r) => if l is Some && r is Some {
            Err(ParsingError::NoEmptySpaceInParseTree)
        } else if token is None {
            Err(ParsingError::NoneTokenProvided)
        } else if l is None {
            Ok(TokenView::Concatenation(token, r))
        } else {
            Ok(TokenView::Concatenation(l, token))
        },
        TokenView::Alternation(l, r) => match (shallowest_path(l), shallowest_path(r)) {
            (None, None) => Err(ParsingError::NoEmptySpaceInParseTree),
            (left, right) => match token {
                None => Ok(operator),
                Some(t) => if right is Some && (left is None || right->0.len() <= left->0.len()) {
                    Ok(TokenView::Alternation(l, filled_along(r, right->0, *t)))
                } else {
                    Ok(TokenView::Alternation(filled_along(l, left->0, *t), r))
                },
            },
        },
        TokenView::Star(inner) => match token {
            None => Err(ParsingError::NoneTokenProvided),
            Some(t) => match filled_depth_first(inner, *t) {
                Some(filled) => Ok(TokenView::Star(filled)),
                None => Err(ParsingError::NoEmptySpaceInParseTree),
            },
        },
        _ => Err(ParsingError::NoEmptySpaceInParseTree),
    }
}

/// What a slot of an alternation holds after a token was put into it: the
/// token, if the slot was empty; the operator in it with the token put
/// into that, if it holds an alternation or a star. Putting fails without
/// a token, and into a slot that holds anything else.
pub open spec fn alternation_slot_after(slot: Option<Box<TokenView>>, token: Option<Box<TokenView>>) -> Result<
    Option<Box<TokenView>>,
    ParsingError,
> {
    match token {
        None => Err(ParsingError::NoneTokenProvided),
        Some(t) => match slot {
            None => Ok(token),
            Some(node) => match *node {
                TokenView::Alternation(l, r) => match inserted(*node, token) {
                    Ok(v) => Ok(Some(Box::new(v))),
                    Err(e) => Err(e),
                },
                TokenView::Star(inner) => match inserted(*node, token) {
                    Ok(v) => Ok(Some(Box::new(v))),
                    Err(e) => Err(e),
                },
                _ => Err(ParsingError::NoEmptySpaceInParseTree),
            },
        },
    }
}

/// What a slot of a concatenation holds after a token was put into it: the
/// token. Putting fails without one.
pub open spec fn concatenation_slot_after(token: Option<Box<TokenView>>) -> Result<
    Option<Box<TokenView>>,
    ParsingError,
> {
    match token {
        None => Err(ParsingError::NoneTokenProvided),
        Some(t) => Ok(token),
    }
}

/// An operator: a token can be put into an empty slot of it.
pub trait Operator {
    spec fn operator_view(&self) -> TokenView;

    /// Puts a token into an empty slot. Where that fails, the operator
    /// stays as it was.
    fn insert_token(&mut self, token_to_insert: Option<Token>) -> (r: Result<(), ParsingError>)
        ensures
            match inserted(old(self).operator_view(), slot_view(token_to_insert)) {
                Ok(v) => r is Ok && final(self).operator_view() == v,
                Err(e) => r == Err::<(), ParsingError>(e) && final(self).operator_view() == old(
                    self,
                ).operator_view(),
            },
    ;

    /// Whether a slot of the operator itself is empty.
    fn has_empty_arg(&self) -> (b: bool)
        ensures
            b == has_empty_slot(self.operator_view()),
    ;
}

/// Whether a slot of the operator itself is empty.
pub open spec fn has_empty_slot(operator: TokenView) -> bool {
    match operator {
        TokenView::Concatenation(l, r) => l is None || r is None,
        TokenView::Alternation(l, r) => l is None || r is None,
        TokenView::Star(inner) => inner is None,
        _ => false,
    }
}

/// The way to the first empty slot below a slot, level by level and from
/// left to right.
fn find_shallowest(slot: &Option<Token>) -> (r: Option<Vec<bool>>)
    ensures
        r is Some <==> shallowest_path(slot_view(*slot)) is Some,
        r is Some ==> r->0@ == shallowest_path(slot_view(*slot))->0,
    decreases *slot,
{
    match slot {
        None => {
            let path: Vec<bool> = Vec::new();
            assert(path@ =~= Seq::<bool>::empty());
            Some(path)
        },
        Some(token) => match token {
            Token::OrOperator(o) => {
                let left = find_shallowest(&o.left_argument);
                let right = find_shallowest(&o.right_argument);
                match (left, right) {
                    (Some(l), Some(r)) => {
                        if l.len() <= r.len() {
                            let mut path = l;
                            path.insert(0, false);
                            assert(path@ =~= seq![false] + l@);
                            Some(path)
                        } else {
                            let mut path = r;
                            path.insert(0, true);
                            assert(path@ =~= seq![true] + r@);
                            Some(path)
                        }
                    },
                    (Some(l), None) => {
                        let mut path = l;
                        path.insert(0, false);
                        assert(path@ =~= seq![false] + l@);
                        Some(path)
                    },
                    (None, Some(r)) => {
                        let mut path = r;
                        path.insert(0, true);
                        assert(path@ =~= seq![true] + r@);
                        Some(path)
                    },
                    (None, None) => None,
                }
            },
            Token::KleeneOperator(k) => match find_shallowest(&k.inner_argument) {
                Some(p) => {
                    let mut path = p;
                    path.insert(0, false);
                    assert(path@ =~= seq![false] + p@);
                    Some(path)
                },
                None => None,
            },
            _ => None,
        },
    }
}

/// A copy of the slot with a copy of the token put at the end of the way
/// from position `at` on.
fn fill_along(slot: &Option<Token>, path: &Vec<bool>, at: usize, t: &Token) -> (r: Option<Token>)
    requires
        at <= path@.len(),
    ensures
        slot_view(r) == filled_along(slot_view(*slot), path@.subrange(at as int, path@.len() as int), t@),
    decreases path@.len() - at,
{
    let ghost rest = path@.subrange(at as int, path@.len() as int);
    if at == path.len() {
        return Some(clone_token(t));
    }
    assert(rest[0] == path@[at as int]);
    assert(rest.drop_first() == path@.subrange(at + 1, path@.len() as int));
    match slot {
        Some(token) => match token {
            Token::OrOperator(o) => {
                if path[at] {
                    Some(
                        Token::OrOperator(
                            Box::new(
                                OrOperator {
                                    left_argument: clone_slot(&o.left_argument),
                                    right_argument: fill_along(&o.right_argument, path, at + 1, t),
                                },
                            ),
                        ),
                    )
                } else {
                    Some(
                        Token::OrOperator(
                            Box::new(
                                OrOperator {
                                    left_argument: fill_along(&o.left_argument, path, at + 1, t),
                                    right_argument: clone_slot(&o.right_argument),
                                },
                            ),
                        ),
                    )
                }
            },
            Token::KleeneOperator(k) => Some(
                Token::KleeneOperator(
                    Box::new(KleeneOperator { inner_argument: fill_along(&k.inner_argument, path, at + 1, t) }),
                ),
            ),
            _ => clone_slot(slot),
        },
        None => None,
    }
}

/// A copy of the slot with a copy of the token put into the first empty
/// slot found going down, right operands first; none without an empty
/// slot.
fn fill_depth_first(slot: &Option<Token>, t: &Token) -> (r: Option<Option<Token>>)
    ensures
        r is Some <==> filled_depth_first(slot_view(*slot), t@) is Some,
        r is Some ==> slot_view(r->0) == filled_depth_first(slot_view(*slot), t@)->0,
    decreases *slot,
{
    match slot {
        None => Some(Some(clone_token(t))),
        Some(token) => match token {
            Token::OrOperator(o) => match fill_depth_first(&o.right_argument, t) {
                Some(right) => Some(
                    Some(
                        Token::OrOperator(
                            Box::new(
                                OrOperator { left_argument: clone_slot(&o.left_argument), right_argument: right },
                            ),
                        ),
                    ),
                ),
                None => match fill_depth_first(&o.left_argument, t) {
                    Some(left) => Some(
                        Some(
                            Token::OrOperator(
                                Box::new(
                                    OrOperator {
                                        left_argument: left,
                                        right_argument: clone_slot(&o.right_argument),
                                    },
                                ),
                            ),
                        ),
                    ),
                    None => None,
                },
            },
            Token::KleeneOperator(k) => match fill_depth_first(&k.inner_argument, t) {
                Some(filled) => Some(Some(Token::KleeneOperator(Box::new(KleeneOperator { inner_argument: filled })))),
                None => None,
            },
            _ => None,
        },
    }
}

/// Puts a token into a slot of an alternation.
fn insert_into_alternation_slot(slot: &Option<Token>, token_to_insert: Option<Token>) -> (r: Result<
    Option<Token>,
    ParsingError,
>)
    ensures
        match alternation_slot_after(slot_view(*slot), slot_view(token_to_insert)) {
            Ok(v) => r is Ok && slot_view(r->Ok_0) == v,
            Err(e) => r == Err::<Option<Token>, ParsingError>(e),
        },
{
    let token = match token_to_insert {
        None => {
            return Err(ParsingError::NoneTokenProvided);
        },
        Some(t) => t,
    };
    match slot {
        None => Ok(Some(token)),
        Some(inner) => match inner {
            Token::OrOperator(o) => {
                let mut copy = OrOperator {
                    left_argument: clone_slot(&o.left_argument),
                    right_argument: clone_slot(&o.right_argument),
                };
                match copy.insert_token(Some(token)) {
                    Ok(_) => Ok(Some(Token::OrOperator(Box::new(copy)))),
                    Err(e) => Err(e),
                }
            },
            Token::KleeneOperator(k) => {
                let mut copy = KleeneOperator { inner_argument: clone_slot(&k.inner_argument) };
                match copy.insert_token(Some(token)) {
                    Ok(_) => Ok(Some(Token::KleeneOperator(Box::new(copy)))),
                    Err(e) => Err(e),
                }
            },
            _ => Err(ParsingError::NoEmptySpaceInParseTree),
        },
    }
}

impl Operator for OrOperator {
    open spec fn operator_view(&self) -> TokenView {
        TokenView::Alternation(slot_view(self.left_argument), slot_view(self.right_argument))
    }

    fn insert_token(&mut self, token_to_insert: Option<Token>) -> (r: Result<(), ParsingError>) {
        let left = find_shallowest(&self.left_argument);
        let right = find_shallowest(&self.right_argument);
        let into_right = match (&left, &right) {
            (None, None) => {
                return Err(ParsingError::NoEmptySpaceInParseTree);
            },
            (Some(l), Some(r)) => r.len() <= l.len(),
            (None, Some(_)) => true,
            (Some(_), None) => false,
        };
        let token = match token_to_insert {
            None => {
                return Ok(());
            },
            Some(t) => t,
        };
        if into_right {
            let path = right.unwrap();
            assert(path@.subrange(0, path@.len() as int) == path@);
            let filled = fill_along(&self.right_argument, &path, 0, &token);
            self.right_argument = filled;
        } else {
            let path = left.unwrap();
            assert(path@.subrange(0, path@.len() as int) == path@);
            let filled = fill_along(&self.left_argument, &path, 0, &token);
            self.left_argument = filled;
        }
        Ok(())
    }

    fn has_empty_arg(&self) -> (b: bool) {
        self.left_argument.is_none() || self.right_argument.is_none()
    }
}

impl Operator for KleeneOperator {
    open spec fn operator_view(&self) -> TokenView {
        TokenView::Star(slot_view(self.inner_argument))
    }

    fn insert_token(&mut self, token_to_insert: Option<Token>) -> (r: Result<(), ParsingError>) {
        let token = match token_to_insert {
            None => {
                return Err(ParsingError::NoneTokenProvided);
            },
            Some(t) => t,
        };
        match fill_depth_first(&self.inner_argument, &token) {
            Some(filled) => {
                self.inner_argument = filled;
                Ok(())
            },
            None => Err(ParsingError::NoEmptySpaceInParseTree),
        }
    }

    fn has_empty_arg(&self) -> (b: bool) {
        self.inner_argument.is_none()
    }
}

impl Operator for ConcatenatedExpression {
    open spec fn operator_view(&self) -> TokenView {
        TokenView::Concatenation(slot_view(self.left_argument), slot_view(self.right_argument))
    }

    fn insert_token(&mut self, token_to_insert: Option<Token>) -> (r: Result<(), ParsingError>) {
        if !self.has_empty_arg() {
            return Err(ParsingError::NoEmptySpaceInParseTree);
        }
        if self.left_argument.is_none() {
            self.left_insert_token(token_to_insert)
        } else {
            self.right_insert_token(token_to_insert)
        }
    }

    fn has_empty_arg(&self) -> (b: bool) {
        self.left_argument.is_none() || self.right_argument.is_none()
    }
}

/// A unary operator: one operand slot.
pub trait UnaryOperator: Sized {
    spec fn inner_view(&self) -> Option<Box<TokenView>>;

    /// The operator with the given operand.
    fn new(inner_argument: Option<Token>) -> (r: Self)
        ensures
            r.inner_view() == slot_view(inner_argument),
    ;

    /// The operand, if the slot is filled.
    fn get_inner_argument(&self) -> (r: Option<&Token>)
        ensures
            r is Some <==> self.inner_view() is Some,
            r is Some ==> Some(Box::new(r->0@)) == self.inner_view(),
    ;
}

impl BinaryOperator for OrOperator {
    open spec fn left_view(&self) -> Option<Box<TokenView>> {
        slot_view(self.left_argument)
    }

    open spec fn right_view(&self) -> Option<Box<TokenView>> {
        slot_view(self.right_argument)
    }

    fn new(left_argument: Option<Token>, right_argument: Option<Token>) -> (r: Self) {
        OrOperator { left_argument, right_argument }
    }

    fn get_left_argument(&self) -> (r: Option<&Token>) {
        self.left_argument.as_ref()
    }

    fn get_right_argument(&self) -> (r: Option<&Token>) {
        self.right_argument.as_ref()
    }

    open spec fn slot_after_insert(slot: Option<Box<TokenView>>, token: Option<Box<TokenView>>) -> Result<
        Option<Box<TokenView>>,
        ParsingError,
    > {
        alternation_slot_after(slot, token)
    }

    fn left_insert_token(&mut self, token_to_insert: Option<Token>) -> (r: Result<(), ParsingError>) {
        match insert_into_alternation_slot(&self.left_argument, token_to_insert) {
            Ok(slot) => {
                self.left_argument = slot;
                Ok(())
            },
            Err(e) => Err(e),
        }
    }

    fn right_insert_token(&mut self, token_to_insert: Option<Token>) -> (r: Result<(), ParsingError>) {
        match insert_into_alternation_slot(&self.right_argument, token_to_insert) {
            Ok(slot) => {
                self.right_argument = slot;
                Ok(())
            },
            Err(e) => Err(e),
        }
    }
}

impl BinaryOperator for ConcatenatedExpression {
    open spec fn left_view(&self) -> Option<Box<TokenView>> {
        slot_view(self.left_argument)
    }

    open spec fn right_view(&self) -> Option<Box<TokenView>> {
        slot_view(self.right_argument)
    }

    fn new(left_argument: Option<Token>, right_argument: Option<Token>) -> (r: Self) {
        ConcatenatedExpression { left_argument, right_argument }
    }

    fn get_left_argument(&self) -> (r: Option<&Token>) {
        self.left_argument.as_ref()
    }

    fn get_right_argument(&self) -> (r: Option<&Token>) {
        self.right_argument.as_ref()
    }

    open spec fn slot_after_insert(slot: Option<Box<TokenView>>, token: Option<Box<TokenView>>) -> Result<
        Option<Box<TokenView>>,
        ParsingError,
    > {
        concatenation_slot_after(token)
    }

    fn left_insert_token(&mut self, token_to_insert: Option<Token>) -> (r: Result<(), ParsingError>) {
        match token_to_insert {
            None => Err(ParsingError::NoneTokenProvided),
            Some(t) => {
                self.left_argument = Some(t);
                Ok(())
            },
        }
    }

    fn right_insert_token(&mut self, token_to_insert: Option<Token>) -> (r: Result<(), ParsingError>) {
        match token_to_insert {
            None => Err(ParsingError::NoneTokenProvided),
            Some(t) => {
                self.right_argument = Some(t);
                Ok(())
            },
        }
    }
}

impl UnaryOperator for KleeneOperator {
    open spec fn inner_view(&self) -> Option<Box<TokenView>> {
        slot_view(self.inner_argument)
    }

    fn new(inner_argument: Option<Token>) -> (r: Self) {
        KleeneOperator { inner_argument }
    }

    fn get_inner_argument(&self) -> (r: Option<&Token>) {
        self.inner_argument.as_ref()
    }
}

/// A copy of an operand slot.
pub fn clone_slot(slot: &Option<Token>) -> (r: Option<Token>)
    ensures
        slot_view(r) == slot_view(*slot),
    decreases *slot,
{
    match slot {
        None => None,
        Some(t) => Some(clone_token(t)),
    }
}

/// A copy of a token.
pub fn clone_token(t: &Token) -> (r: Token)
    ensures
        r@ == t@,
    decreases *t,
{
    match t {
        Token::Literal(text) => Token::Literal(text.clone()),
        Token::ConcatenatedExpression(e) => Token::ConcatenatedExpression(
            Box::new(
                ConcatenatedExpression {
                    left_argument: clone_slot(&e.left_argument),
                    right_argument: clone_slot(&e.right_argument),
                },
            ),
        ),
        Token::GroupedExpression(tokens) => Token::GroupedExpression(Box::new(clone_tokens(tokens))),
        Token::OrOperator(o) => Token::OrOperator(
            Box::new(
                OrOperator {
                    left_argument: clone_slot(&o.left_argument),
                    right_argument: clone_slot(&o.right_argument),
                },
            ),
        ),
        Token::KleeneOperator(k) => Token::KleeneOperator(
            Box::new(KleeneOperator { inner_argument: clone_slot(&k.inner_argument) }),
        ),
    }
}

/// A copy of a list of tokens.
pub fn clone_tokens(tokens: &Vec<Token>) -> (r: Vec<Token>)
    ensures
        tokens_view(r@) == tokens_view(tokens@),
    decreases *tokens,
{
    let mut r: Vec<Token> = Vec::new();
    let mut i: usize = 0;
    while i < tokens.len()
        invariant
            i <= tokens.len(),
            r@.len() == i,
            forall|j: int| 0 <= j < i ==> (#[trigger] r@[j])@ == tokens@[j]@,
        decreases tokens.len() - i,
    {
        r.push(clone_token(&tokens[i]));
        i += 1;
    }
    assert(tokens_view(r@) =~= tokens_view(tokens@));
    r
}

impl Token {
    /// Checks that no operator of the tree has an empty slot. The first
    /// operator with one, walking the tree with left operands before right
    /// ones, decides the error: a star gives `NoInnerArg`, a binary operator
    /// `EmptyLeftArg` or `EmptyRightArg`.
    pub fn verify_syntactic_correctness(&self) -> (r: Result<(), ParsingError>)
        ensures
            r == syntactic_check(self@),
        decreases *self,
    {
        match self {
            Token::KleeneOperator(operator) => match &operator.inner_argument {
                None => Err(ParsingError::NoInnerArg),
                Some(inner) => inner.verify_syntactic_correctness(),
            },
            Token::OrOperator(operator) => match &operator.left_argument {
                None => Err(ParsingError::EmptyLeftArg),
                Some(left) => match &operator.right_argument {
                    None => Err(ParsingError::EmptyRightArg),
                    Some(right) => match left.verify_syntactic_correctness() {
                        Err(e) => Err(e),
                        Ok(_) => right.verify_syntactic_correctness(),
                    },
                },
            },
            Token::ConcatenatedExpression(operator) => match &operator.left_argument {
                None => Err(ParsingError::EmptyLeftArg),
                Some(left) => match &operator.right_argument {
                    None => Err(ParsingError::EmptyRightArg),
                    Some(right) => match left.verify_syntactic_correctness() {
                        Err(e) => Err(e),
                        Ok(_) => right.verify_syntactic_correctness(),
                    },
                },
            },
            _ => Ok(()),
        }
    }
}

} // verus!
