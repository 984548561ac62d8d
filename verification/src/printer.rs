//! Writing trees out: as an indented drawing, in a canonical form that
//! sorts the operands of `+` and `*`, and as readable infix text with only
//! the parentheses that precedence needs. Numbers are written as given:
//! these printers take trees whose numbers are already text.
use vstd::prelude::*;
use crate::ast::{AbstractSyntaxTree, AstNode, Node, views, lemma_views_len, lemma_views_index};
use crate::chars::{collect_chars, push_str};
use crate::operations::{BinaryOperationKind, UnaryOperationKind, binary_symbol, precedence_of, unary_symbol};
use crate::text::StringBuffer;

verus! {

/// The text of a node itself in a drawing.
pub open spec fn node_label(n: Node<String>) -> Seq<char> {
    match n {
        Node::Number(s) => s@,
        Node::Identifier(s) => s,
        Node::StringLiteral(s) => "\""@ + s + "\""@,
        Node::Unary(op, _) => unary_symbol(op),
        Node::Binary(op, _, _) => binary_symbol(op),
        Node::Call(name, _) => name + "(...)"@,
        Node::Access(id, _) => id + "[...]"@,
    }
}

pub open spec fn connector(is_last: bool) -> Seq<char> {
    if is_last {
        "└── "@
    } else {
        "├── "@
    }
}

pub open spec fn indent(is_last: bool) -> Seq<char> {
    if is_last {
        "    "@
    } else {
        "│   "@
    }
}

/// The drawing of `n` under `prefix`: one line per node, children below
/// their parent, the last child of each node drawn with `└── `.
pub open spec fn drawn(n: Node<String>, prefix: Seq<char>, is_last: bool) -> Seq<char>
    decreases n, 1int,
{
    prefix + connector(is_last) + node_label(n) + seq!['\n'] + drawn_children(n, prefix + indent(is_last))
}

pub open spec fn drawn_children(n: Node<String>, prefix: Seq<char>) -> Seq<char>
    decreases n, 0int,
{
    match n {
        Node::Unary(_, e) => drawn(*e, prefix, true),
        Node::Binary(_, l, r) => drawn(*l, prefix, false) + drawn(*r, prefix, true),
        Node::Call(_, args) => drawn_items(args, prefix, args.len() as int),
        Node::Access(_, idx) => drawn_items(idx, prefix, idx.len() as int),
        _ => Seq::empty(),
    }
}

/// The drawings of the items of `s`, of `total` items in all.
pub open spec fn drawn_items(s: Seq<Node<String>>, prefix: Seq<char>, total: int) -> Seq<char>
    decreases s, 0int,
{
    if s.len() == 0 {
        Seq::empty()
    } else {
        drawn_items(s.drop_last(), prefix, total) + drawn(s.last(), prefix, s.len() - 1 == total - 1)
    }
}

/// `a` comes before `b` or equals it, comparing character by character.
pub open spec fn text_le(a: Seq<char>, b: Seq<char>) -> bool
    decreases a.len(),
{
    if a.len() == 0 {
        true
    } else if b.len() == 0 {
        false
    } else if a[0] != b[0] {
        a[0] < b[0]
    } else {
        text_le(a.drop_first(), b.drop_first())
    }
}

proof fn lemma_text_le_total(a: Seq<char>, b: Seq<char>)
    ensures
        text_le(a, b) || text_le(b, a),
        text_le(a, b) && text_le(b, a) ==> a == b,
    decreases a.len(),
{
    if a.len() > 0 && b.len() > 0 && a[0] == b[0] {
        lemma_text_le_total(a.drop_first(), b.drop_first());
        if text_le(a, b) && text_le(b, a) {
            assert(a =~= seq![a[0]] + a.drop_first());
            assert(b =~= seq![b[0]] + b.drop_first());
        }
    } else if a.len() > 0 && b.len() > 0 {
    } else if a.len() == 0 && b.len() == 0 {
        assert(a =~= b);
    }
}

/// The canonical text does not depend on the order of the operands of `+`
/// and `*`: swapping them reads the same.
pub proof fn law_canonical_ignores_operand_order(op: BinaryOperationKind, x: Node<String>, y: Node<String>)
    requires
        op == BinaryOperationKind::Plus || op == BinaryOperationKind::Multiply,
    ensures
        canonical(Node::Binary(op, Box::new(x), Box::new(y))) == canonical(Node::Binary(op, Box::new(y), Box::new(x))),
{
    lemma_text_le_total(canonical(x), canonical(y));
}

/// The canonical text of a tree: every operation in parentheses, and the
/// operands of `+` and `*` in ascending order, so that trees that differ
/// only in the order of those operands read the same.
pub open spec fn canonical(n: Node<String>) -> Seq<char>
    decreases n, 1int,
{
    match n {
        Node::Number(s) => s@,
        Node::Identifier(s) => s,
        Node::StringLiteral(s) => "\""@ + s + "\""@,
        Node::Unary(op, e) => "("@ + unary_symbol(op) + canonical(*e) + ")"@,
        Node::Call(name, args) => name + "("@ + canonical_list(args) + ")"@,
        Node::Access(id, idx) => id + canonical_indices(idx),
        Node::Binary(op, l, r) => {
            let a = canonical(*l);
            let b = canonical(*r);
            if (op == BinaryOperationKind::Plus || op == BinaryOperationKind::Multiply) && !text_le(a, b) {
                "("@ + b + " "@ + binary_symbol(op) + " "@ + a + ")"@
            } else {
                "("@ + a + " "@ + binary_symbol(op) + " "@ + b + ")"@
            }
        },
    }
}

/// Canonical texts joined by `, `.
pub open spec fn canonical_list(s: Seq<Node<String>>) -> Seq<char>
    decreases s, 0int,
{
    if s.len() == 0 {
        Seq::empty()
    } else if s.len() == 1 {
        canonical(s[0])
    } else {
        canonical_list(s.drop_last()) + ", "@ + canonical(s.last())
    }
}

/// Canonical texts, each in brackets.
pub open spec fn canonical_indices(s: Seq<Node<String>>) -> Seq<char>
    decreases s, 0int,
{
    if s.len() == 0 {
        Seq::empty()
    } else {
        canonical_indices(s.drop_last()) + "["@ + canonical(s.last()) + "]"@
    }
}

pub open spec fn parenthesised(s: Seq<char>, wrap: bool) -> Seq<char> {
    if wrap {
        "("@ + s + ")"@
    } else {
        s
    }
}

/// Readable infix text of `n` inside an operation of precedence `parent`:
/// parentheses only where precedence needs them; `a + (-b)` and `(-a) + b`
/// read as subtractions.
pub open spec fn pretty(n: Node<String>, parent: int) -> Seq<char>
    decreases n, 1int,
{
    match n {
        Node::Number(s) => s@,
        Node::Identifier(s) => s,
        Node::StringLiteral(s) => "\""@ + s + "\""@,
        Node::Call(name, args) => name + "("@ + pretty_list(args) + ")"@,
        Node::Access(id, idx) => id + pretty_indices(idx),
        Node::Unary(op, e) => parenthesised(unary_symbol(op) + pretty(*e, 3), 3 < parent),
        Node::Binary(op, l, r) => {
            let p = precedence_of(op) as int;
            let right_precedence = if op == BinaryOperationKind::Minus || op == BinaryOperationKind::Divide {
                p + 1
            } else {
                p
            };
            let plain = parenthesised(
                pretty(*l, p) + " "@ + binary_symbol(op) + " "@ + pretty(*r, right_precedence),
                p < parent,
            );
            if op == BinaryOperationKind::Plus {
                match *r {
                    Node::Unary(UnaryOperationKind::Minus, inner) => parenthesised(
                        pretty(*l, p) + " - "@ + pretty(*inner, p + 1),
                        p < parent,
                    ),
                    _ => match *l {
                        Node::Unary(UnaryOperationKind::Minus, inner) => parenthesised(
                            pretty(*r, p) + " - "@ + pretty(*inner, p + 1),
                            p < parent,
                        ),
                        _ => plain,
                    },
                }
            } else {
                plain
            }
        },
    }
}

/// Readable texts joined by `, `.
pub open spec fn pretty_list(s: Seq<Node<String>>) -> Seq<char>
    decreases s, 0int,
{
    if s.len() == 0 {
        Seq::empty()
    } else if s.len() == 1 {
        pretty(s[0], 0)
    } else {
        pretty_list(s.drop_last()) + ", "@ + pretty(s.last(), 0)
    }
}

/// Readable texts, each in brackets.
pub open spec fn pretty_indices(s: Seq<Node<String>>) -> Seq<char>
    decreases s, 0int,
{
    if s.len() == 0 {
        Seq::empty()
    } else {
        pretty_indices(s.drop_last()) + "["@ + pretty(s.last(), 0) + "]"@
    }
}


/// Whether `a` comes before `b` or equals it (see [`text_le`]).
fn string_le(a: &String, b: &String) -> (r: bool)
    ensures
        r == text_le(a@, b@),
{
    let x = collect_chars(a.as_str());
    let y = collect_chars(b.as_str());
    let mut k: usize = 0;
    assert(x@.skip(0) =~= x@);
    assert(y@.skip(0) =~= y@);
    while k < x.len() && k < y.len() && x[k] == y[k]
        invariant
            x@ == a@,
            y@ == b@,
            k <= x.len(),
            k <= y.len(),
            text_le(a@, b@) == text_le(x@.skip(k as int), y@.skip(k as int)),
        decreases x.len() - k,
    {
        proof {
            let xs = x@.skip(k as int);
            let ys = y@.skip(k as int);
            assert(xs.drop_first() =~= x@.skip(k + 1));
            assert(ys.drop_first() =~= y@.skip(k + 1));
        }
        k += 1;
    }
    proof {
        let xs = x@.skip(k as int);
        let ys = y@.skip(k as int);
        if k < x.len() && k < y.len() {
            assert(xs[0] == x@[k as int]);
            assert(ys[0] == y@[k as int]);
        }
    }
    if k == x.len() {
        true
    } else if k == y.len() {
        false
    } else {
        x[k] < y[k]
    }
}

impl AbstractSyntaxTree<String> {
    /// The tree drawn line by line (see [`drawn`]).
    pub fn pretty_print(&self) -> (r: String)
        ensures
            r@ == drawn(self.peek.view_node(), Seq::empty(), true),
    {
        let mut buffer = StringBuffer::new();
        Self::print_recursive(&self.peek, &mut buffer, String::new(), true);
        let r = buffer.get();
        assert(r@ =~= drawn(self.peek.view_node(), Seq::empty(), true));
        r
    }

    fn label(node: &AstNode<String>) -> (r: String)
        ensures
            r@ == node_label(node.view_node()),
    {
        let mut s = String::new();
        match node {
            AstNode::Number(n) => push_str(&mut s, n.as_str()),
            AstNode::Identifier(name) => push_str(&mut s, name.as_str()),
            AstNode::StringLiteral(text) => {
                push_str(&mut s, "\"");
                push_str(&mut s, text.as_str());
                push_str(&mut s, "\"");
            },
            AstNode::UnaryOperation { operation, .. } => push_str(&mut s, operation.symbol()),
            AstNode::BinaryOperation { operation, .. } => push_str(&mut s, operation.symbol()),
            AstNode::FunctionCall { name, .. } => {
                push_str(&mut s, name.as_str());
                push_str(&mut s, "(...)");
            },
            AstNode::ArrayAccess { identifier, .. } => {
                push_str(&mut s, identifier.as_str());
                push_str(&mut s, "[...]");
            },
        }
        assert(s@ =~= node_label(node.view_node()));
        s
    }

    fn print_recursive(node: &AstNode<String>, buffer: &mut StringBuffer, prefix: String, is_last: bool)
        ensures
            final(buffer)@ == old(buffer)@ + drawn(node.view_node(), prefix@, is_last),
        decreases node,
    {
        let mut head = prefix.clone();
        push_str(&mut head, if is_last { "└── " } else { "├── " });
        buffer.add(head);
        let label = Self::label(node);
        buffer.add_line(label);
        let mut new_prefix = prefix.clone();
        push_str(&mut new_prefix, if is_last { "    " } else { "│   " });
        let ghost p = new_prefix@;
        let ghost start = buffer@;
        match node {
            AstNode::UnaryOperation { expression, .. } => {
                Self::print_recursive(expression, buffer, new_prefix, true);
            },
            AstNode::BinaryOperation { left, right, .. } => {
                Self::print_recursive(left, buffer, new_prefix.clone(), false);
                Self::print_recursive(right, buffer, new_prefix, true);
            },
            AstNode::FunctionCall { arguments, .. } => {
                Self::print_items(arguments, buffer, new_prefix);
            },
            AstNode::ArrayAccess { indices, .. } => {
                Self::print_items(indices, buffer, new_prefix);
            },
            _ => {},
        }
        proof {
            match node {
                AstNode::FunctionCall { arguments, .. } => lemma_views_len(arguments@),
                AstNode::ArrayAccess { indices, .. } => lemma_views_len(indices@),
                _ => {},
            }
        }
        assert(buffer@ =~= old(buffer)@ + drawn(node.view_node(), prefix@, is_last));
    }

    fn print_items(items: &Vec<AstNode<String>>, buffer: &mut StringBuffer, prefix: String)
        ensures
            final(buffer)@ == old(buffer)@ + drawn_items(views(items@), prefix@, items.len() as int),
        decreases items,
    {
        let count = items.len();
        let ghost all = views(items@);
        let ghost start = buffer@;
        proof {
            lemma_views_len(items@);
            assert(all.take(0) =~= Seq::<Node<String>>::empty());
        }
        let mut i: usize = 0;
        while i < count
            invariant
                count == items.len(),
                all == views(items@),
                all.len() == count,
                i <= count,
                buffer@ == start + drawn_items(all.take(i as int), prefix@, count as int),
            decreases count - i,
        {
            proof {
                lemma_views_index(items@, i as int);
                assert(all.take(i + 1).drop_last() =~= all.take(i as int));
            }
            Self::print_recursive(&items[i], buffer, prefix.clone(), i == count - 1);
            i += 1;
        }
        assert(all.take(count as int) =~= all);
    }

    /// The canonical text of the tree (see [`canonical`]).
    pub fn to_canonical_string(&self) -> (r: String)
        ensures
            r@ == canonical(self.peek.view_node()),
    {
        Self::node_to_canonical_string(&self.peek)
    }

    fn node_to_canonical_string(node: &AstNode<String>) -> (r: String)
        ensures
            r@ == canonical(node.view_node()),
        decreases node,
    {
        let mut s = String::new();
        match node {
            AstNode::Number(n) => push_str(&mut s, n.as_str()),
            AstNode::Identifier(name) => push_str(&mut s, name.as_str()),
            AstNode::StringLiteral(text) => {
                push_str(&mut s, "\"");
                push_str(&mut s, text.as_str());
                push_str(&mut s, "\"");
            },
            AstNode::UnaryOperation { operation, expression } => {
                let inner = Self::node_to_canonical_string(expression);
                push_str(&mut s, "(");
                push_str(&mut s, operation.symbol());
                push_str(&mut s, inner.as_str());
                push_str(&mut s, ")");
            },
            AstNode::FunctionCall { name, arguments } => {
                let list = Self::canonical_list_of(arguments);
                push_str(&mut s, name.as_str());
                push_str(&mut s, "(");
                push_str(&mut s, list.as_str());
                push_str(&mut s, ")");
            },
            AstNode::ArrayAccess { identifier, indices } => {
                let list = Self::canonical_indices_of(indices);
                push_str(&mut s, identifier.as_str());
                push_str(&mut s, list.as_str());
            },
            AstNode::BinaryOperation { operation, left, right } => {
                let l_str = Self::node_to_canonical_string(left);
                let r_str = Self::node_to_canonical_string(right);
                let commutative = *operation == BinaryOperationKind::Plus || *operation == BinaryOperationKind::Multiply;
                let swap = commutative && !string_le(&l_str, &r_str);
                push_str(&mut s, "(");
                if swap {
                    push_str(&mut s, r_str.as_str());
                } else {
                    push_str(&mut s, l_str.as_str());
                }
                push_str(&mut s, " ");
                push_str(&mut s, operation.symbol());
                push_str(&mut s, " ");
                if swap {
                    push_str(&mut s, l_str.as_str());
                } else {
                    push_str(&mut s, r_str.as_str());
                }
                push_str(&mut s, ")");
            },
        }
        assert(s@ =~= canonical(node.view_node()));
        s
    }


    fn canonical_list_of(items: &Vec<AstNode<String>>) -> (r: String)
        ensures
            r@ == canonical_list(views(items@)),
        decreases items,
    {
        let mut s = String::new();
        let ghost all = views(items@);
        proof {
            lemma_views_len(items@);
            assert(all.take(0) =~= Seq::<Node<String>>::empty());
        }
        let mut i: usize = 0;
        while i < items.len()
            invariant
                all == views(items@),
                all.len() == items.len(),
                i <= items.len(),
                s@ == canonical_list(all.take(i as int)),
            decreases items.len() - i,
        {
            proof {
                lemma_views_index(items@, i as int);
                assert(all.take(i + 1).drop_last() =~= all.take(i as int));
            }
            let text = Self::node_to_canonical_string(&items[i]);
            if i > 0 {
                push_str(&mut s, ", ");
            }
            push_str(&mut s, text.as_str());
            proof {
                if i == 0 {
                    assert(all.take(1) =~= seq![all[0]]);
                }
                assert(s@ =~= canonical_list(all.take(i + 1)));
            }
            i += 1;
        }
        assert(all.take(items.len() as int) =~= all);
        s
    }

    fn canonical_indices_of(items: &Vec<AstNode<String>>) -> (r: String)
        ensures
            r@ == canonical_indices(views(items@)),
        decreases items,
    {
        let mut s = String::new();
        let ghost all = views(items@);
        proof {
            lemma_views_len(items@);
            assert(all.take(0) =~= Seq::<Node<String>>::empty());
        }
        let mut i: usize = 0;
        while i < items.len()
            invariant
                all == views(items@),
                all.len() == items.len(),
                i <= items.len(),
                s@ == canonical_indices(all.take(i as int)),
            decreases items.len() - i,
        {
            proof {
                lemma_views_index(items@, i as int);
                assert(all.take(i + 1).drop_last() =~= all.take(i as int));
            }
            let text = Self::node_to_canonical_string(&items[i]);
            push_str(&mut s, "[");
            push_str(&mut s, text.as_str());
            push_str(&mut s, "]");
            assert(s@ =~= canonical_indices(all.take(i + 1)));
            i += 1;
        }
        assert(all.take(items.len() as int) =~= all);
        s
    }

    fn pretty_list_of(items: &Vec<AstNode<String>>) -> (r: String)
        ensures
            r@ == pretty_list(views(items@)),
        decreases items,
    {
        let mut s = String::new();
        let ghost all = views(items@);
        proof {
            lemma_views_len(items@);
            assert(all.take(0) =~= Seq::<Node<String>>::empty());
        }
        let mut i: usize = 0;
        while i < items.len()
            invariant
                all == views(items@),
                all.len() == items.len(),
                i <= items.len(),
                s@ == pretty_list(all.take(i as int)),
            decreases items.len() - i,
        {
            proof {
                lemma_views_index(items@, i as int);
                assert(all.take(i + 1).drop_last() =~= all.take(i as int));
            }
            let text = Self::node_to_pretty_string(&items[i], 0);
            if i > 0 {
                push_str(&mut s, ", ");
            }
            push_str(&mut s, text.as_str());
            proof {
                if i == 0 {
                    assert(all.take(1) =~= seq![all[0]]);
                }
                assert(s@ =~= pretty_list(all.take(i + 1)));
            }
            i += 1;
        }
        assert(all.take(items.len() as int) =~= all);
        s
    }

    fn pretty_indices_of(items: &Vec<AstNode<String>>) -> (r: String)
        ensures
            r@ == pretty_indices(views(items@)),
        decreases items,
    {
        let mut s = String::new();
        let ghost all = views(items@);
        proof {
            lemma_views_len(items@);
            assert(all.take(0) =~= Seq::<Node<String>>::empty());
        }
        let mut i: usize = 0;
        while i < items.len()
            invariant
                all == views(items@),
                all.len() == items.len(),
                i <= items.len(),
                s@ == pretty_indices(all.take(i as int)),
            decreases items.len() - i,
        {
            proof {
                lemma_views_index(items@, i as int);
                assert(all.take(i + 1).drop_last() =~= all.take(i as int));
            }
            let text = Self::node_to_pretty_string(&items[i], 0);
            push_str(&mut s, "[");
            push_str(&mut s, text.as_str());
            push_str(&mut s, "]");
            assert(s@ =~= pretty_indices(all.take(i + 1)));
            i += 1;
        }
        assert(all.take(items.len() as int) =~= all);
        s
    }

    fn push_wrapped(s: &mut String, a: String, middle: &str, b: String, wrap: bool)
        ensures
            final(s)@ == old(s)@ + parenthesised(a@ + middle@ + b@, wrap),
    {
        if wrap {
            push_str(s, "(");
        }
        push_str(s, a.as_str());
        push_str(s, middle);
        push_str(s, b.as_str());
        if wrap {
            push_str(s, ")");
        }
        assert(final(s)@ =~= old(s)@ + parenthesised(a@ + middle@ + b@, wrap));
    }

    /// Readable infix text of the tree (see [`pretty`]).
    pub fn to_pretty_string(&self) -> (r: String)
        ensures
            r@ == pretty(self.peek.view_node(), 0),
    {
        Self::node_to_pretty_string(&self.peek, 0)
    }

    fn node_to_pretty_string(node: &AstNode<String>, parent_precedence: u8) -> (r: String)
        ensures
            r@ == pretty(node.view_node(), parent_precedence as int),
        decreases node,
    {
        let mut s = String::new();
        match node {
            AstNode::Number(n) => push_str(&mut s, n.as_str()),
            AstNode::Identifier(name) => push_str(&mut s, name.as_str()),
            AstNode::StringLiteral(text) => {
                push_str(&mut s, "\"");
                push_str(&mut s, text.as_str());
                push_str(&mut s, "\"");
            },
            AstNode::FunctionCall { name, arguments } => {
                let list = Self::pretty_list_of(arguments);
                push_str(&mut s, name.as_str());
                push_str(&mut s, "(");
                push_str(&mut s, list.as_str());
                push_str(&mut s, ")");
            },
            AstNode::ArrayAccess { identifier, indices } => {
                let list = Self::pretty_indices_of(indices);
                push_str(&mut s, identifier.as_str());
                push_str(&mut s, list.as_str());
            },
            AstNode::UnaryOperation { operation, expression } => {
                let my_precedence: u8 = 3;
                let expression_text = Self::node_to_pretty_string(expression, my_precedence);
                let wrap = my_precedence < parent_precedence;
                if wrap {
                    push_str(&mut s, "(");
                }
                push_str(&mut s, operation.symbol());
                push_str(&mut s, expression_text.as_str());
                if wrap {
                    push_str(&mut s, ")");
                }
            },
            AstNode::BinaryOperation { operation, left, right } => {
                let my_precedence = operation.precedence();
                let wrap = my_precedence < parent_precedence;
                let right_negated = match &**right {
                    AstNode::UnaryOperation { operation: UnaryOperationKind::Minus, .. } => true,
                    _ => false,
                };
                if *operation == BinaryOperationKind::Plus && right_negated {
                    match &**right {
                        AstNode::UnaryOperation { operation: UnaryOperationKind::Minus, expression: inner_right } => {
                            let l_str = Self::node_to_pretty_string(left, my_precedence);
                            let r_str = Self::node_to_pretty_string(inner_right, my_precedence + 1);
                            Self::push_wrapped(&mut s, l_str, " - ", r_str, wrap);
                            return s;
                        },
                        _ => {},
                    }
                }
                if *operation == BinaryOperationKind::Plus && !right_negated {
                    assert(!(right.view_node() matches Node::Unary(UnaryOperationKind::Minus, _)));
                    match &**left {
                        AstNode::UnaryOperation { operation: UnaryOperationKind::Minus, expression: inner_left } => {
                            let l_str_inner = Self::node_to_pretty_string(inner_left, my_precedence + 1);
                            let r_str = Self::node_to_pretty_string(right, my_precedence);
                            Self::push_wrapped(&mut s, r_str, " - ", l_str_inner, wrap);
                            return s;
                        },
                        _ => {},
                    }
                }
                let right_precedence = if *operation == BinaryOperationKind::Minus || *operation
                    == BinaryOperationKind::Divide {
                    my_precedence + 1
                } else {
                    my_precedence
                };
                let l_str = Self::node_to_pretty_string(left, my_precedence);
                let r_str = Self::node_to_pretty_string(right, right_precedence);
                let mut middle = String::new();
                push_str(&mut middle, " ");
                push_str(&mut middle, operation.symbol());
                push_str(&mut middle, " ");
                Self::push_wrapped(&mut s, l_str, middle.as_str(), r_str, wrap);
            },
        }
        assert(s@ =~= pretty(node.view_node(), parent_precedence as int));
        s
    }
}

} // verus!
