//! Folding a rewritten tree back into its plainest form: `a + -b` becomes
//! `a - b`, `a + (-n)` becomes `a - n`, `a * (1 / b)` becomes `a / b`, and
//! `a * (-1 / b)` becomes `-(a / b)`.
//! Numbers are held as their decimal text, a leading `-` marking a negative
//! one.
use vstd::prelude::*;
use crate::ast::{AbstractSyntaxTree, AstError, AstNode, Node, views, lemma_views_push, lemma_views_take, lemma_views_len, lemma_views_index};
use crate::chars::{collect_chars, string_from_range, push_char, push_str};
use crate::operations::{BinaryOperationKind, UnaryOperationKind};
use crate::transform::{transformed, weight, weights, lemma_weights_index};

verus! {

/// A tree with each number taken by its text.
pub open spec fn texts(n: Node<String>) -> Node<Seq<char>>
    decreases n,
{
    match n {
        Node::Number(v) => Node::Number(v@),
        Node::Identifier(s) => Node::Identifier(s),
        Node::StringLiteral(s) => Node::StringLiteral(s),
        Node::Unary(op, e) => Node::Unary(op, Box::new(texts(*e))),
        Node::Binary(op, l, r) => Node::Binary(op, Box::new(texts(*l)), Box::new(texts(*r))),
        Node::Call(name, args) => Node::Call(name, texts_all(args)),
        Node::Access(name, idx) => Node::Access(name, texts_all(idx)),
    }
}

/// Each tree of `s` with its numbers taken by their text.
pub open spec fn texts_all(s: Seq<Node<String>>) -> Seq<Node<Seq<char>>>
    decreases s,
{
    if s.len() == 0 {
        Seq::empty()
    } else {
        texts_all(s.drop_last()).push(texts(s.last()))
    }
}

/// The number written `t` is negative.
pub open spec fn negative_text(t: Seq<char>) -> bool {
    t.len() > 0 && t[0] == '-'
}

/// The number of the opposite sign: the `-` taken off or put on.
pub open spec fn negated_text(t: Seq<char>) -> Seq<char> {
    if negative_text(t) {
        t.drop_first()
    } else {
        seq!['-'] + t
    }
}

/// The number written `t` is 1 or -1.
pub open spec fn unit_text(t: Seq<char>) -> bool {
    t == seq!['1'] || t == seq!['-', '1']
}

/// An operation of `l` and `r`, both already folded, folded in turn.
pub open spec fn folded_binary(op: BinaryOperationKind, l: Node<Seq<char>>, r: Node<Seq<char>>) -> Node<Seq<char>> {
    let plain = Node::Binary(op, Box::new(l), Box::new(r));
    match op {
        BinaryOperationKind::Plus => match r {
            Node::Unary(UnaryOperationKind::Minus, e) => Node::Binary(BinaryOperationKind::Minus, Box::new(l), e),
            Node::Number(t) => if negative_text(t) {
                Node::Binary(BinaryOperationKind::Minus, Box::new(l), Box::new(Node::Number(negated_text(t))))
            } else {
                plain
            },
            _ => plain,
        },
        BinaryOperationKind::Multiply => match r {
            Node::Binary(BinaryOperationKind::Divide, one, d) => match *one {
                Node::Number(t) => if unit_text(t) {
                    let q = Node::Binary(BinaryOperationKind::Divide, Box::new(l), d);
                    if negative_text(t) {
                        Node::Unary(UnaryOperationKind::Minus, Box::new(q))
                    } else {
                        q
                    }
                } else {
                    plain
                },
                _ => plain,
            },
            _ => plain,
        },
        _ => plain,
    }
}

/// The folded form of a tree.
pub open spec fn folded(n: Node<Seq<char>>) -> Node<Seq<char>>
    decreases n,
{
    match n {
        Node::Unary(op, e) => Node::Unary(op, Box::new(folded(*e))),
        Node::Binary(op, l, r) => folded_binary(op, folded(*l), folded(*r)),
        Node::Call(name, args) => Node::Call(name, folded_all(args)),
        Node::Access(name, idx) => Node::Access(name, folded_all(idx)),
        _ => n,
    }
}

/// Each tree of `s` folded.
pub open spec fn folded_all(s: Seq<Node<Seq<char>>>) -> Seq<Node<Seq<char>>>
    decreases s,
{
    if s.len() == 0 {
        Seq::empty()
    } else {
        folded_all(s.drop_last()).push(folded(s.last()))
    }
}

proof fn lemma_texts_all_push(s: Seq<Node<String>>, n: Node<String>)
    ensures
        texts_all(s.push(n)) == texts_all(s).push(texts(n)),
{
    assert(s.push(n).drop_last() =~= s);
}

proof fn lemma_folded_all_push(s: Seq<Node<Seq<char>>>, n: Node<Seq<char>>)
    ensures
        folded_all(s.push(n)) == folded_all(s).push(folded(n)),
{
    assert(s.push(n).drop_last() =~= s);
}

/// A tree of names, non-negative numbers and binary operators other than
/// `/`: no negation, no division, no call and no indexing.
pub open spec fn plain_arithmetic(n: Node<String>) -> bool
    decreases n,
{
    match n {
        Node::Number(t) => !negative_text(t@),
        Node::Identifier(_) | Node::StringLiteral(_) => true,
        Node::Binary(op, l, r) => op != BinaryOperationKind::Divide && plain_arithmetic(*l) && plain_arithmetic(*r),
        _ => false,
    }
}

/// Folding undoes the rewriting of subtractions: on a tree of names,
/// non-negative numbers and operators other than `/`, rewriting `a - b`
/// into `a + -b` and folding again gives back the tree.
pub proof fn law_fold_undoes_transform(n: Node<String>)
    requires
        plain_arithmetic(n),
    ensures
        folded(texts(transformed(n))) == texts(n),
    decreases n,
{
    if let Node::Binary(op, l, r) = n {
        law_fold_undoes_transform(*l);
        law_fold_undoes_transform(*r);
        let tl = transformed(*l);
        let tr = transformed(*r);
        let fl = texts(*l);
        let fr = texts(*r);
        assert(texts(n) == Node::Binary(op, Box::new(fl), Box::new(fr)));
        if op == BinaryOperationKind::Minus {
            let neg = Node::Unary(UnaryOperationKind::Minus, Box::new(tr));
            assert(transformed(n) == Node::Binary(BinaryOperationKind::Plus, Box::new(tl), Box::new(neg)));
            assert(texts(neg) == Node::Unary(UnaryOperationKind::Minus, Box::new(texts(tr))));
            assert(folded(texts(neg)) == Node::Unary(UnaryOperationKind::Minus, Box::new(fr)));
            assert(texts(transformed(n)) == Node::Binary(BinaryOperationKind::Plus, Box::new(texts(tl)), Box::new(texts(neg))));
            assert(folded(texts(transformed(n))) == folded_binary(
                BinaryOperationKind::Plus,
                fl,
                Node::Unary(UnaryOperationKind::Minus, Box::new(fr)),
            ));
        } else {
            assert(transformed(n) == Node::Binary(op, Box::new(tl), Box::new(tr)));
            assert(texts(transformed(n)) == Node::Binary(op, Box::new(texts(tl)), Box::new(texts(tr))));
            assert(folded(texts(transformed(n))) == folded_binary(op, fl, fr));
            assert(plain_arithmetic(*r));
            match *r {
                Node::Number(t) => {
                    assert(fr == Node::<Seq<char>>::Number(t@));
                    assert(!negative_text(t@));
                    assert(folded_binary(op, fl, fr) == Node::Binary(op, Box::new(fl), Box::new(fr)));
                },
                Node::Binary(o, rl, rr) => {
                    assert(fr == Node::Binary(o, Box::new(texts(*rl)), Box::new(texts(*rr))));
                    assert(o != BinaryOperationKind::Divide);
                    assert(folded_binary(op, fl, fr) == Node::Binary(op, Box::new(fl), Box::new(fr)));
                },
                Node::Identifier(x) => {
                    assert(fr == Node::<Seq<char>>::Identifier(x));
                },
                Node::StringLiteral(x) => {
                    assert(fr == Node::<Seq<char>>::StringLiteral(x));
                },
                _ => {},
            }
        }
    } else {
        assert(transformed(n) == n);
        match n {
            Node::Number(t) => {
                assert(texts(n) == Node::<Seq<char>>::Number(t@));
            },
            Node::Identifier(x) => {
                assert(texts(n) == Node::<Seq<char>>::Identifier(x));
            },
            Node::StringLiteral(x) => {
                assert(texts(n) == Node::<Seq<char>>::StringLiteral(x));
            },
            _ => {},
        }
    }
}

/// Whether the number written `t` is negative.
fn is_negative_text(t: &String) -> (r: bool)
    ensures
        r == negative_text(t@),
{
    let chars = collect_chars(t.as_str());
    chars.len() > 0 && chars[0] == '-'
}

/// The number written `t` with the opposite sign.
fn negate_text(t: &String) -> (r: String)
    ensures
        r@ == negated_text(t@),
{
    let chars = collect_chars(t.as_str());
    if chars.len() > 0 && chars[0] == '-' {
        let r = string_from_range(&chars, 1, chars.len());
        assert(r@ =~= t@.drop_first());
        r
    } else {
        let mut r = String::new();
        push_char(&mut r, '-');
        push_str(&mut r, t.as_str());
        assert(r@ =~= seq!['-'] + t@);
        r
    }
}

/// Whether the number written `t` is 1 or -1.
fn is_unit_text(t: &String) -> (r: bool)
    ensures
        r == unit_text(t@),
{
    let chars = collect_chars(t.as_str());
    if chars.len() == 1 {
        assert(chars@ =~= seq!['1'] <==> chars[0] == '1');
        chars[0] == '1'
    } else if chars.len() == 2 {
        assert(chars@ =~= seq!['-', '1'] <==> (chars[0] == '-' && chars[1] == '1'));
        chars[0] == '-' && chars[1] == '1'
    } else {
        assert(chars@.len() != 1 && chars@.len() != 2);
        assert(chars@ != seq!['1']);
        assert(chars@ != seq!['-', '1']);
        false
    }
}

impl AbstractSyntaxTree<String> {
    /// The tree folded (see [`folded`]); this never fails.
    pub fn fold(self) -> (r: Result<Self, AstError<String>>)
        ensures
            r is Ok,
            texts(r->Ok_0.peek.view_node()) == folded(texts(self.peek.view_node())),
    {
        let peek = match Self::fold_recursive(self.peek) {
            Ok(n) => n,
            Err(e) => return Err(e),
        };
        Ok(Self::from_node(peek))
    }

    /// `node` folded (see [`folded`]); this never fails.
    pub fn fold_recursive(node: AstNode<String>) -> (r: Result<AstNode<String>, AstError<String>>)
        ensures
            r is Ok,
            texts(r->Ok_0.view_node()) == folded(texts(node.view_node())),
        decreases weight(node.view_node()), 1int,
    {
        match node {
            AstNode::Number(v) => Ok(AstNode::Number(v)),
            AstNode::Identifier(s) => Ok(AstNode::Identifier(s)),
            AstNode::StringLiteral(s) => Ok(AstNode::StringLiteral(s)),
            AstNode::UnaryOperation { operation, expression } => {
                let folded_child = match Self::fold_recursive(*expression) {
                    Ok(t) => t,
                    Err(e) => return Err(e),
                };
                Ok(AstNode::UnaryOperation { operation, expression: Box::new(folded_child) })
            },
            AstNode::BinaryOperation { operation, left, right } => {
                let folded_left = match Self::fold_recursive(*left) {
                    Ok(t) => t,
                    Err(e) => return Err(e),
                };
                let folded_right = match Self::fold_recursive(*right) {
                    Ok(t) => t,
                    Err(e) => return Err(e),
                };
                Ok(Self::fold_operation(operation, folded_left, folded_right))
            },
            AstNode::FunctionCall { name, arguments } => {
                let folded_arguments = match Self::fold_each(arguments) {
                    Ok(t) => t,
                    Err(e) => return Err(e),
                };
                Ok(AstNode::FunctionCall { name, arguments: folded_arguments })
            },
            AstNode::ArrayAccess { identifier, indices } => {
                let folded_indices = match Self::fold_each(indices) {
                    Ok(t) => t,
                    Err(e) => return Err(e),
                };
                Ok(AstNode::ArrayAccess { identifier, indices: folded_indices })
            },
        }
    }

    /// The operation `operation` of two folded operands, folded in turn.
    fn fold_operation(operation: BinaryOperationKind, left: AstNode<String>, right: AstNode<String>) -> (r: AstNode<String>)
        ensures
            texts(r.view_node()) == folded_binary(operation, texts(left.view_node()), texts(right.view_node())),
    {
        proof {
            reveal_with_fuel(texts, 3);
            reveal_with_fuel(AstNode::view_node, 3);
        }
        match operation {
            BinaryOperationKind::Plus => match right {
                AstNode::UnaryOperation { operation: UnaryOperationKind::Minus, expression } => {
                    return AstNode::BinaryOperation {
                        operation: BinaryOperationKind::Minus,
                        left: Box::new(left),
                        right: expression,
                    };
                },
                AstNode::Number(number) => {
                    if is_negative_text(&number) {
                        let positive = negate_text(&number);
                        return AstNode::BinaryOperation {
                            operation: BinaryOperationKind::Minus,
                            left: Box::new(left),
                            right: Box::new(AstNode::Number(positive)),
                        };
                    }
                    return AstNode::BinaryOperation {
                        operation,
                        left: Box::new(left),
                        right: Box::new(AstNode::Number(number)),
                    };
                },
                other => {
                    return AstNode::BinaryOperation { operation, left: Box::new(left), right: Box::new(other) };
                },
            },
            BinaryOperationKind::Multiply => match right {
                AstNode::BinaryOperation { operation: BinaryOperationKind::Divide, left: one, right: divisor } => {
                    let (is_unit, is_negative) = match &*one {
                        AstNode::Number(number) => (is_unit_text(number), is_negative_text(number)),
                        _ => (false, false),
                    };
                    if is_unit {
                        let quotient = AstNode::BinaryOperation {
                            operation: BinaryOperationKind::Divide,
                            left: Box::new(left),
                            right: divisor,
                        };
                        if is_negative {
                            return AstNode::UnaryOperation {
                                operation: UnaryOperationKind::Minus,
                                expression: Box::new(quotient),
                            };
                        }
                        return quotient;
                    }
                    let rebuilt = AstNode::BinaryOperation {
                        operation: BinaryOperationKind::Divide,
                        left: one,
                        right: divisor,
                    };
                    return AstNode::BinaryOperation { operation, left: Box::new(left), right: Box::new(rebuilt) };
                },
                other => {
                    return AstNode::BinaryOperation { operation, left: Box::new(left), right: Box::new(other) };
                },
            },
            _ => {
                return AstNode::BinaryOperation { operation, left: Box::new(left), right: Box::new(right) };
            },
        }
    }

    /// Each of `items` folded, in order.
    fn fold_each(items: Vec<AstNode<String>>) -> (r: Result<Vec<AstNode<String>>, AstError<String>>)
        ensures
            r is Ok,
            texts_all(views(r->Ok_0@)) == folded_all(texts_all(views(items@))),
        decreases weights(views(items@)), 2int,
    {
        let ghost all = items@;
        let mut rest = items;
        let mut out: Vec<AstNode<String>> = Vec::new();
        proof {
            assert(all.take(0) =~= Seq::<AstNode<String>>::empty());
            assert(views(out@) =~= Seq::<Node<String>>::empty());
        }
        while rest.len() > 0
            invariant
                all == items@,
                0 <= all.len() - rest.len() <= all.len(),
                rest@ == all.skip(all.len() - rest.len()),
                texts_all(views(out@)) == folded_all(texts_all(views(all.take(all.len() - rest.len())))),
            decreases rest.len(),
        {
            let ghost k = all.len() - rest.len();
            let item = rest.remove(0);
            assert(item == all[k]);
            proof {
                lemma_views_len(all);
                lemma_views_index(all, k);
                lemma_weights_index(views(all), k);
            }
            let t = match Self::fold_recursive(item) {
                Ok(t) => t,
                Err(e) => return Err(e),
            };
            proof {
                lemma_views_take(all, k);
                lemma_views_push(out@, t);
                let before = views(all.take(k));
                lemma_texts_all_push(before, all[k].view_node());
                lemma_texts_all_push(views(out@), t.view_node());
                lemma_folded_all_push(texts_all(before), texts(all[k].view_node()));
                assert(rest@ =~= all.skip(k + 1));
            }
            out.push(t);
        }
        proof {
            assert(all.take(all.len() as int) =~= all);
        }
        Ok(out)
    }
}

} // verus!
