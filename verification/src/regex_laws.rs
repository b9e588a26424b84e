//! What holds of the tree of a regular expression: it holds no group and
//! no empty slot, and its literals are those of the tokens that were read,
//! in their order.

use crate::regex_models::{is_unfilled_or, is_unfilled_star, syntactic_check, TokenView};
use crate::regex_parsing::{
    bound_stars, concatenated, distance_from_middle, group_resolved, has_unfilled_or, is_middlemost_or,
    is_whitespace, lemma_literal_end, lemma_scan_next, literal_end, middlemost_or, parse_tree, parsed,
    resolved_groups, scan, split_alternations,
};
use vstd::prelude::*;

verus! {

/// Whether a tree holds no group.
pub open spec fn group_free(t: TokenView) -> bool
    decreases t,
{
    match t {
        TokenView::Literal(_) => true,
        TokenView::Grouped(_) => false,
        TokenView::Star(inner) => match inner {
            Some(i) => group_free(*i),
            None => true,
        },
        TokenView::Alternation(l, r) => (match l {
            Some(left) => group_free(*left),
            None => true,
        }) && (match r {
            Some(right) => group_free(*right),
            None => true,
        }),
        TokenView::Concatenation(l, r) => (match l {
            Some(left) => group_free(*left),
            None => true,
        }) && (match r {
            Some(right) => group_free(*right),
            None => true,
        }),
    }
}

/// The characters of the literals of a tree, from left to right.
pub open spec fn letters(t: TokenView) -> Seq<char>
    decreases t, 1int,
{
    match t {
        TokenView::Literal(text) => text,
        TokenView::Grouped(inner) => letters_of(inner),
        TokenView::Star(inner) => match inner {
            Some(i) => letters(*i),
            None => Seq::empty(),
        },
        TokenView::Alternation(l, r) => (match l {
            Some(left) => letters(*left),
            None => Seq::empty(),
        }) + (match r {
            Some(right) => letters(*right),
            None => Seq::empty(),
        }),
        TokenView::Concatenation(l, r) => (match l {
            Some(left) => letters(*left),
            None => Seq::empty(),
        }) + (match r {
            Some(right) => letters(*right),
            None => Seq::empty(),
        }),
    }
}

/// The characters of the literals of a list of tokens, from left to right.
pub open spec fn letters_of(ts: Seq<TokenView>) -> Seq<char>
    decreases ts, 0int,
{
    if ts.len() == 0 {
        Seq::empty()
    } else {
        letters_of(ts.drop_last()) + letters(ts.last())
    }
}

/// Whether a token is as it is read from a text: a literal, an operator
/// with its slots empty, or a group of such tokens.
pub open spec fn as_read(t: TokenView) -> bool
    decreases t, 1int,
{
    match t {
        TokenView::Literal(_) => true,
        TokenView::Grouped(inner) => all_as_read(inner),
        TokenView::Star(inner) => inner is None,
        TokenView::Alternation(l, r) => l is None && r is None,
        TokenView::Concatenation(_, _) => false,
    }
}

/// Whether all tokens are as they are read from a text.
pub open spec fn all_as_read(ts: Seq<TokenView>) -> bool
    decreases ts, 0int,
{
    ts.len() == 0 || (all_as_read(ts.drop_last()) && as_read(ts.last()))
}

/// Whether a token holds no group, and no literal where it is an
/// alternation that waits for its operands.
pub open spec fn tidy(t: TokenView) -> bool {
    group_free(t) && (is_unfilled_or(t) ==> letters(t) == Seq::<char>::empty())
}

/// Whether all tokens are tidy.
pub open spec fn all_tidy(ts: Seq<TokenView>) -> bool {
    forall|i: int| 0 <= i < ts.len() ==> tidy(#[trigger] ts[i])
}

/// The literals of a list with one more token are those of the list and
/// then those of the token.
proof fn lemma_letters_of_push(ts: Seq<TokenView>, t: TokenView)
    ensures
        letters_of(ts.push(t)) == letters_of(ts) + letters(t),
{
    assert(ts.push(t).drop_last() =~= ts);
}

/// The literals of two lists one after the other are those of the first
/// and then those of the second.
proof fn lemma_letters_of_sum(a: Seq<TokenView>, b: Seq<TokenView>)
    ensures
        letters_of(a + b) == letters_of(a) + letters_of(b),
    decreases b.len(),
{
    if b.len() == 0 {
        assert(a + b =~= a);
        assert(letters_of(a) + Seq::<char>::empty() =~= letters_of(a));
    } else {
        lemma_letters_of_sum(a, b.drop_last());
        assert((a + b).drop_last() =~= a + b.drop_last());
        assert((a + b).last() == b.last());
        assert(letters_of(a) + (letters_of(b.drop_last()) + letters(b.last())) =~= (letters_of(a) + letters_of(
            b.drop_last(),
        )) + letters(b.last()));
    }
}

/// The literals of a list of one token are those of the token.
proof fn lemma_letters_of_one(t: TokenView)
    ensures
        letters_of(seq![t]) == letters(t),
{
    let none = Seq::<TokenView>::empty();
    assert(seq![t].drop_last() =~= none);
    assert(seq![t].last() == t);
    assert(letters_of(none) =~= Seq::<char>::empty());
    assert(Seq::<char>::empty() + letters(t) =~= letters(t));
}

/// Two lists of tokens as they are read, one after the other, are one.
proof fn lemma_all_as_read_sum(a: Seq<TokenView>, b: Seq<TokenView>)
    requires
        all_as_read(a),
        all_as_read(b),
    ensures
        all_as_read(a + b),
    decreases b.len(),
{
    if b.len() == 0 {
        assert(a + b =~= a);
    } else {
        lemma_all_as_read_sum(a, b.drop_last());
        assert((a + b).drop_last() =~= a + b.drop_last());
        assert((a + b).last() == b.last());
    }
}

/// A token as it is read is a list of such tokens.
proof fn lemma_all_as_read_one(t: TokenView)
    requires
        as_read(t),
    ensures
        all_as_read(seq![t]),
{
    let none = Seq::<TokenView>::empty();
    assert(seq![t].drop_last() =~= none);
    assert(seq![t].last() == t);
    assert(all_as_read(none));
}

/// The tokens that are read from a text are as they are read.
proof fn lemma_scan_as_read(s: Seq<char>, pos: int)
    requires
        0 <= pos <= s.len(),
        scan(s, pos) is Ok,
    ensures
        all_as_read(scan(s, pos)->Ok_0.tokens),
    decreases s.len() - pos,
{
    if pos < s.len() {
        let c = s[pos];
        if c == ')' {
        } else if c == '+' {
            lemma_scan_as_read(s, pos + 1);
            lemma_all_as_read_one(TokenView::Alternation(None, None));
            lemma_all_as_read_sum(seq![TokenView::Alternation(None, None)], scan(s, pos + 1)->Ok_0.tokens);
        } else if c == '*' {
            lemma_scan_as_read(s, pos + 1);
            lemma_all_as_read_one(TokenView::Star(None));
            lemma_all_as_read_sum(seq![TokenView::Star(None)], scan(s, pos + 1)->Ok_0.tokens);
        } else if c == '(' {
            lemma_scan_next(s, pos + 1);
            lemma_scan_as_read(s, pos + 1);
            let inner = scan(s, pos + 1)->Ok_0;
            lemma_scan_as_read(s, inner.next);
            lemma_all_as_read_one(TokenView::Grouped(inner.tokens));
            lemma_all_as_read_sum(seq![TokenView::Grouped(inner.tokens)], scan(s, inner.next)->Ok_0.tokens);
        } else if is_whitespace(c) {
            lemma_scan_as_read(s, pos + 1);
        } else {
            lemma_literal_end(s, pos);
            let end = literal_end(s, pos);
            lemma_scan_as_read(s, end);
            lemma_all_as_read_one(TokenView::Literal(s.subrange(pos, end)));
            lemma_all_as_read_sum(seq![TokenView::Literal(s.subrange(pos, end))], scan(s, end)->Ok_0.tokens);
        }
    }
}

/// Binding the stars keeps the tokens tidy and their literals in order.
proof fn lemma_bound_stars_tidy(ts: Seq<TokenView>)
    requires
        all_tidy(ts),
        bound_stars(ts) is Ok,
    ensures
        all_tidy(bound_stars(ts)->Ok_0),
        letters_of(bound_stars(ts)->Ok_0) == letters_of(ts),
    decreases ts.len(),
{
    if ts.len() > 0 {
        let front = bound_stars(ts.drop_last())->Ok_0;
        assert(all_tidy(ts.drop_last())) by {
            assert forall|i: int| 0 <= i < ts.drop_last().len() implies tidy(#[trigger] ts.drop_last()[i]) by {
                assert(tidy(ts[i]));
            }
        }
        lemma_bound_stars_tidy(ts.drop_last());
        let last = ts.last();
        assert(tidy(ts[ts.len() - 1]));
        if is_unfilled_star(last) {
            let star = TokenView::Star(Some(Box::new(front.last())));
            let bound = front.drop_last().push(star);
            assert(tidy(front[front.len() - 1]));
            assert(front =~= front.drop_last().push(front.last()));
            lemma_letters_of_push(front.drop_last(), front.last());
            lemma_letters_of_push(front.drop_last(), star);
            assert(letters(last) =~= Seq::<char>::empty());
            assert(letters_of(ts.drop_last()) + letters(last) =~= letters_of(ts.drop_last()));
            assert forall|i: int| 0 <= i < bound.len() implies tidy(#[trigger] bound[i]) by {
                if i < bound.len() - 1 {
                    assert(tidy(front[i]));
                }
            }
        } else {
            let bound = front.push(last);
            lemma_letters_of_push(front, last);
            assert forall|i: int| 0 <= i < bound.len() implies tidy(#[trigger] bound[i]) by {
                if i < bound.len() - 1 {
                    assert(tidy(front[i]));
                }
            }
        }
    }
}

/// The concatenation of tidy tokens holds no group and keeps their
/// literals in order.
proof fn lemma_concatenated_tidy(ts: Seq<TokenView>)
    requires
        all_tidy(ts),
    ensures
        group_free(concatenated(ts)),
        letters(concatenated(ts)) == letters_of(ts),
        ts.len() != 1 ==> !is_unfilled_or(concatenated(ts)),
    decreases ts.len(),
{
    if ts.len() == 0 {
    } else if ts.len() == 1 {
        assert(tidy(ts[0]));
        assert(ts =~= seq![ts[0]]);
        lemma_letters_of_one(ts[0]);
    } else if ts.len() == 2 {
        assert(tidy(ts[0]));
        assert(tidy(ts[1]));
        assert(ts =~= seq![ts[0]].push(ts[1]));
        lemma_letters_of_one(ts[0]);
        lemma_letters_of_push(seq![ts[0]], ts[1]);
    } else {
        let middle = (ts.len() / 2) as int;
        let left = ts.subrange(0, middle);
        let right = ts.subrange(middle, ts.len() as int);
        assert forall|i: int| 0 <= i < left.len() implies tidy(#[trigger] left[i]) by {
            assert(tidy(ts[i]));
        }
        assert forall|i: int| 0 <= i < right.len() implies tidy(#[trigger] right[i]) by {
            assert(tidy(ts[middle + i]));
        }
        lemma_concatenated_tidy(left);
        lemma_concatenated_tidy(right);
        assert(ts =~= left + right);
        lemma_letters_of_sum(left, right);
    }
}

/// Whether `i` is the alternation with an empty slot that is closest to
/// the middle among the first `n` tokens.
spec fn is_best_below(ts: Seq<TokenView>, n: int, i: int) -> bool {
    &&& 0 <= i < n
    &&& is_unfilled_or(ts[i])
    &&& forall|j: int|
        0 <= j < n && is_unfilled_or(#[trigger] ts[j]) ==> distance_from_middle(ts.len() as int, i)
            < distance_from_middle(ts.len() as int, j) || (distance_from_middle(ts.len() as int, i)
            == distance_from_middle(ts.len() as int, j) && i <= j)
}

/// Among the first `n` tokens, if one is an alternation with an empty
/// slot, one of them is closest to the middle.
proof fn lemma_best_below(ts: Seq<TokenView>, n: int)
    requires
        0 <= n <= ts.len(),
        exists|j: int| 0 <= j < n && is_unfilled_or(#[trigger] ts[j]),
    ensures
        exists|i: int| is_best_below(ts, n, i),
    decreases n,
{
    let len = ts.len() as int;
    let m = n - 1;
    if exists|j: int| 0 <= j < m && is_unfilled_or(#[trigger] ts[j]) {
        lemma_best_below(ts, m);
        let b = choose|i: int| is_best_below(ts, m, i);
        if is_unfilled_or(ts[n - 1]) && distance_from_middle(len, n - 1) < distance_from_middle(len, b) {
            assert(is_best_below(ts, n, n - 1));
        } else {
            assert(is_best_below(ts, n, b));
        }
    } else {
        let j = choose|j: int| 0 <= j < n && is_unfilled_or(#[trigger] ts[j]);
        assert(j == n - 1);
        assert(is_best_below(ts, n, n - 1));
    }
}

/// Where a list has an alternation with an empty slot, the position to
/// split it at is that of such an alternation.
proof fn lemma_middlemost_or(ts: Seq<TokenView>)
    requires
        has_unfilled_or(ts),
    ensures
        is_middlemost_or(ts, middlemost_or(ts)),
{
    let n = ts.len() as int;
    lemma_best_below(ts, n);
    let b = choose|i: int| is_best_below(ts, n, i);
    assert(is_middlemost_or(ts, b));
}

/// Splitting tidy tokens at their alternations gives a tidy tree with
/// their literals in order.
proof fn lemma_split_tidy(ts: Seq<TokenView>)
    requires
        all_tidy(ts),
        split_alternations(ts) is Ok,
    ensures
        tidy(split_alternations(ts)->Ok_0),
        letters(split_alternations(ts)->Ok_0) == letters_of(ts),
    decreases ts.len(),
{
    if has_unfilled_or(ts) {
        lemma_middlemost_or(ts);
        let i = middlemost_or(ts);
        let left = ts.subrange(0, i);
        let right = ts.subrange(i + 1, ts.len() as int);
        assert forall|k: int| 0 <= k < left.len() implies tidy(#[trigger] left[k]) by {
            assert(tidy(ts[k]));
        }
        assert forall|k: int| 0 <= k < right.len() implies tidy(#[trigger] right[k]) by {
            assert(tidy(ts[i + 1 + k]));
        }
        lemma_split_tidy(left);
        lemma_split_tidy(right);
        assert(tidy(ts[i]));
        assert(ts =~= left.push(ts[i]) + right);
        lemma_letters_of_sum(left.push(ts[i]), right);
        lemma_letters_of_push(left, ts[i]);
        assert(letters_of(left) + Seq::<char>::empty() =~= letters_of(left));
    } else {
        lemma_concatenated_tidy(ts);
        if ts.len() == 1 {
            assert(tidy(ts[0]));
            assert(!is_unfilled_or(ts[0]));
        }
    }
}

/// Replacing the groups of tokens as they are read by their trees gives
/// tidy tokens with the same literals in the same order.
proof fn lemma_resolved_groups_tidy(ts: Seq<TokenView>)
    requires
        all_as_read(ts),
        resolved_groups(ts) is Ok,
    ensures
        all_tidy(resolved_groups(ts)->Ok_0),
        letters_of(resolved_groups(ts)->Ok_0) == letters_of(ts),
    decreases ts, 0int,
{
    if ts.len() > 0 {
        lemma_resolved_groups_tidy(ts.drop_last());
        lemma_group_resolved_tidy(ts.last());
        let front = resolved_groups(ts.drop_last())->Ok_0;
        let t = group_resolved(ts.last())->Ok_0;
        let flat = front.push(t);
        lemma_letters_of_push(front, t);
        assert forall|i: int| 0 <= i < flat.len() implies tidy(#[trigger] flat[i]) by {
            if i < flat.len() - 1 {
                assert(tidy(front[i]));
            }
        }
    }
}

/// A token as it is read, with its group replaced by the tree of the
/// group, is tidy and has the same literals in the same order.
proof fn lemma_group_resolved_tidy(t: TokenView)
    requires
        as_read(t),
        group_resolved(t) is Ok,
    ensures
        tidy(group_resolved(t)->Ok_0),
        letters(group_resolved(t)->Ok_0) == letters(t),
    decreases t, 2int,
{
    match t {
        TokenView::Grouped(inner) => {
            lemma_parsed_tidy(inner);
        },
        TokenView::Alternation(l, r) => {
            assert(letters(t) =~= Seq::<char>::empty());
        },
        _ => {},
    }
}

/// The tree of tokens as they are read is tidy and has their literals in
/// their order.
proof fn lemma_parsed_tidy(ts: Seq<TokenView>)
    requires
        all_as_read(ts),
        parsed(ts) is Ok,
    ensures
        tidy(parsed(ts)->Ok_0),
        letters(parsed(ts)->Ok_0) == letters_of(ts),
    decreases ts, 1int,
{
    lemma_resolved_groups_tidy(ts);
    let flat = resolved_groups(ts)->Ok_0;
    lemma_bound_stars_tidy(flat);
    let bound = bound_stars(flat)->Ok_0;
    lemma_split_tidy(bound);
}

/// The tree of a regular expression holds no group and no empty slot, and
/// the characters of its literals, from left to right, are those of the
/// literals that were read from the text, in their order.
pub proof fn law_parse_tree_is_complete(regex: Seq<char>)
    requires
        parse_tree(regex) is Ok,
    ensures
        group_free(parse_tree(regex)->Ok_0),
        syntactic_check(parse_tree(regex)->Ok_0) is Ok,
        letters(parse_tree(regex)->Ok_0) == letters_of(scan(regex, 0)->Ok_0.tokens),
{
    lemma_scan_as_read(regex, 0);
    lemma_parsed_tidy(scan(regex, 0)->Ok_0.tokens);
}

} // verus!
