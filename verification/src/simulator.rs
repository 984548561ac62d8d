//! Simulating how a pipelined parallel system evaluates a tree: the tree
//! becomes a graph of tasks, and a list scheduler starts, tick by tick,
//! every ready task on a free processor unit of its class.
use vstd::prelude::*;
use crate::ast::{AbstractSyntaxTree, AstNode, Node, views};
use crate::chars::push_str;
use crate::operations::{BinaryOperationKind, UnaryOperationKind};
use crate::pcs::{
    OperationType, ProcessorConfiguration, ScheduledTask, SystemConfiguration, TickLog, TimeConfiguration, latency_of,
    operation_of, operation_name,
};
use crate::sorting::{sort_by, sort_le, insert_le, lemma_insert_le_at, insert_by, lemma_insert_at, lemma_sort_le_members, lemma_sort_le_multiset};
use crate::text::{decimal, push_decimal};

verus! {

/// A task of the graph: its class, the tasks whose results it needs, its
/// text, and its rank (the height of its subtree).
pub struct TaskView {
    pub id: int,
    pub operation: OperationType,
    pub dependencies: Seq<int>,
    pub name: Seq<char>,
    pub rank: int,
}

struct Task {
    id: usize,
    operation_type: OperationType,
    dependencies: Vec<usize>,
    display_name: String,
    rank: usize,
}

impl Task {
    spec fn task_view(&self) -> TaskView {
        TaskView {
            id: self.id as int,
            operation: self.operation_type,
            dependencies: self.dependencies@.map_values(|d: usize| d as int),
            name: self.display_name@,
            rank: self.rank as int,
        }
    }
}

spec fn task_views(s: Seq<Task>) -> Seq<TaskView> {
    s.map_values(|t: Task| t.task_view())
}

/// The number of tasks a tree becomes: calls and indexing are single loads.
pub open spec fn task_count(n: Node<String>) -> nat
    decreases n,
{
    match n {
        Node::Unary(_, e) => 1 + task_count(*e),
        Node::Binary(_, l, r) => 1 + task_count(*l) + task_count(*r),
        _ => 1,
    }
}

pub open spec fn load_task(id: int, name: Seq<char>) -> TaskView {
    TaskView { id, operation: OperationType::Load, dependencies: Seq::empty(), name, rank: 0 }
}

/// The symbol of an arithmetic operator in a task's text; `?` for others.
pub open spec fn operator_symbol(op: BinaryOperationKind) -> Seq<char> {
    match op {
        BinaryOperationKind::Plus => "+"@,
        BinaryOperationKind::Minus => "-"@,
        BinaryOperationKind::Multiply => "*"@,
        BinaryOperationKind::Divide => "/"@,
        _ => "?"@,
    }
}

/// The tasks after adding those of a tree, the tree's task, its rank and
/// its text.
pub struct Flattened {
    pub tasks: Seq<TaskView>,
    pub id: int,
    pub rank: int,
    pub text: Seq<char>,
}

pub open spec fn leaf(base: Seq<TaskView>, id: int, text: Seq<char>) -> Flattened {
    Flattened { tasks: base.update(id, load_task(id, text)), id, rank: 0, text }
}

/// The tasks of `n` appended to `tasks`, numbered in pre-order: a node's
/// task comes before those of its operands.
pub open spec fn flattened(n: Node<String>, tasks: Seq<TaskView>) -> Flattened
    decreases n,
{
    let id = tasks.len() as int;
    let base = tasks.push(load_task(id, Seq::empty()));
    match n {
        Node::Binary(op, l, r) => {
            let left = flattened(*l, base);
            let right = flattened(*r, left.tasks);
            let rank = if left.rank >= right.rank { left.rank + 1 } else { right.rank + 1 };
            let text = "("@ + left.text + " "@ + operator_symbol(op) + " "@ + right.text + ")"@;
            Flattened {
                tasks: right.tasks.update(
                    id,
                    TaskView { id, operation: operation_of(op), dependencies: seq![left.id, right.id], name: text, rank },
                ),
                id,
                rank,
                text,
            }
        },
        Node::Unary(op, e) => {
            let child = flattened(*e, base);
            let text = (if op == UnaryOperationKind::Minus { "-"@ } else { "!"@ }) + child.text;
            let operation = if op == UnaryOperationKind::Minus { OperationType::Sub } else { OperationType::Load };
            Flattened {
                tasks: child.tasks.update(
                    id,
                    TaskView { id, operation, dependencies: seq![child.id], name: text, rank: child.rank + 1 },
                ),
                id,
                rank: child.rank + 1,
                text,
            }
        },
        Node::Number(s) => leaf(base, id, s@),
        Node::Identifier(s) => leaf(base, id, s),
        Node::Call(name, _) => leaf(base, id, name + "()"@),
        Node::Access(name, _) => leaf(base, id, name + "[..]"@),
        Node::StringLiteral(_) => leaf(base, id, "?"@),
    }
}

pub proof fn lemma_flattened_shape(n: Node<String>, tasks: Seq<TaskView>)
    ensures
        flattened(n, tasks).tasks.len() == tasks.len() + task_count(n),
        flattened(n, tasks).id == tasks.len(),
        0 <= flattened(n, tasks).rank < task_count(n),
    decreases n,
{
    let base = tasks.push(load_task(tasks.len() as int, Seq::empty()));
    match n {
        Node::Binary(_, l, r) => {
            lemma_flattened_shape(*l, base);
            lemma_flattened_shape(*r, flattened(*l, base).tasks);
        },
        Node::Unary(_, e) => {
            lemma_flattened_shape(*e, base);
        },
        _ => {},
    }
}

/// How many nodes of `n` are computed on a unit of class `c`: each `+` on
/// an adder, each binary `-` and each negation on a subtractor, each `*` on
/// a multiplier, each `/` on a divider; calls and indexing are read whole.
pub open spec fn computations(n: Node<String>, c: OperationType) -> nat
    decreases n,
{
    match n {
        Node::Unary(op, e) => (if op == UnaryOperationKind::Minus && c == OperationType::Sub {
            1nat
        } else {
            0nat
        }) + computations(*e, c),
        Node::Binary(op, l, r) => (if (op == BinaryOperationKind::Plus && c == OperationType::Add) || (op
            == BinaryOperationKind::Minus && c == OperationType::Sub) || (op == BinaryOperationKind::Multiply && c
            == OperationType::Mul) || (op == BinaryOperationKind::Divide && c == OperationType::Div) {
            1nat
        } else {
            0nat
        }) + computations(*l, c) + computations(*r, c),
        _ => 0,
    }
}

/// How many tasks of `ts` are of class `c`.
pub open spec fn class_count(ts: Seq<TaskView>, c: OperationType) -> nat
    decreases ts.len(),
{
    if ts.len() == 0 {
        0
    } else {
        class_count(ts.drop_last(), c) + if ts.last().operation == c {
            1nat
        } else {
            0nat
        }
    }
}

proof fn lemma_class_count_push(ts: Seq<TaskView>, t: TaskView, c: OperationType)
    ensures
        class_count(ts.push(t), c) == class_count(ts, c) + if t.operation == c {
            1nat
        } else {
            0nat
        },
{
    assert(ts.push(t).drop_last() =~= ts);
}

proof fn lemma_class_count_update(ts: Seq<TaskView>, i: int, t: TaskView, c: OperationType)
    requires
        0 <= i < ts.len(),
    ensures
        class_count(ts.update(i, t), c) + (if ts[i].operation == c {
            1nat
        } else {
            0nat
        }) == class_count(ts, c) + if t.operation == c {
            1nat
        } else {
            0nat
        },
    decreases ts.len(),
{
    if i < ts.len() - 1 {
        lemma_class_count_update(ts.drop_last(), i, t, c);
        assert(ts.update(i, t).drop_last() =~= ts.drop_last().update(i, t));
    } else {
        assert(ts.update(i, t).drop_last() =~= ts.drop_last());
    }
}

/// Adding the tasks of a tree keeps the tasks already there.
proof fn lemma_flattened_prefix(n: Node<String>, tasks: Seq<TaskView>)
    ensures
        forall|k: int| 0 <= k < tasks.len() ==> #[trigger] flattened(n, tasks).tasks[k] == tasks[k],
    decreases n,
{
    lemma_flattened_shape(n, tasks);
    let id = tasks.len() as int;
    let base = tasks.push(load_task(id, Seq::empty()));
    match n {
        Node::Binary(_, l, r) => {
            lemma_flattened_prefix(*l, base);
            lemma_flattened_prefix(*r, flattened(*l, base).tasks);
            lemma_flattened_shape(*l, base);
            let lt = flattened(*l, base).tasks;
            let rt = flattened(*r, lt).tasks;
            lemma_flattened_shape(*r, lt);
            assert forall|k: int| 0 <= k < tasks.len() implies #[trigger] flattened(n, tasks).tasks[k] == tasks[k] by {
                assert(base[k] == tasks[k]);
                assert(lt[k] == base[k]);
                assert(rt[k] == lt[k]);
            }
        },
        Node::Unary(_, e) => {
            lemma_flattened_prefix(*e, base);
            let ct = flattened(*e, base).tasks;
            lemma_flattened_shape(*e, base);
            assert forall|k: int| 0 <= k < tasks.len() implies #[trigger] flattened(n, tasks).tasks[k] == tasks[k] by {
                assert(base[k] == tasks[k]);
                assert(ct[k] == base[k]);
            }
        },
        _ => {},
    }
}

proof fn lemma_flattened_counts(n: Node<String>, tasks: Seq<TaskView>, c: OperationType)
    requires
        c != OperationType::Load,
    ensures
        class_count(flattened(n, tasks).tasks, c) == class_count(tasks, c) + computations(n, c),
    decreases n,
{
    let id = tasks.len() as int;
    let base = tasks.push(load_task(id, Seq::empty()));
    lemma_class_count_push(tasks, load_task(id, Seq::empty()), c);
    match n {
        Node::Binary(op, l, r) => {
            lemma_flattened_counts(*l, base, c);
            let left = flattened(*l, base);
            lemma_flattened_counts(*r, left.tasks, c);
            lemma_flattened_shape(*l, base);
            lemma_flattened_shape(*r, left.tasks);
            lemma_flattened_prefix(*l, base);
            lemma_flattened_prefix(*r, left.tasks);
            let right = flattened(*r, left.tasks);
            assert(left.tasks[id] == base[id]);
            assert(right.tasks[id] == left.tasks[id]);
            let t = flattened(n, tasks).tasks[id];
            lemma_class_count_update(right.tasks, id, t, c);
            assert(flattened(n, tasks).tasks == right.tasks.update(id, t));
        },
        Node::Unary(op, e) => {
            lemma_flattened_counts(*e, base, c);
            let child = flattened(*e, base);
            lemma_flattened_shape(*e, base);
            lemma_flattened_prefix(*e, base);
            assert(child.tasks[id] == base[id]);
            let t = flattened(n, tasks).tasks[id];
            lemma_class_count_update(child.tasks, id, t, c);
            assert(flattened(n, tasks).tasks == child.tasks.update(id, t));
        },
        _ => {
            let t = load_task(id, flattened(n, tasks).text);
            lemma_class_count_update(base, id, t, c);
            assert(flattened(n, tasks).tasks == base.update(id, t));
        },
    }
}

/// Every arithmetic operation of the tree becomes one task of its class:
/// the tasks of each class are exactly as many as the tree's additions, its
/// subtractions and negations, its multiplications and its divisions.
pub proof fn law_every_operation_is_a_task(n: Node<String>, c: OperationType)
    requires
        c != OperationType::Load,
    ensures
        class_count(flattened(n, Seq::empty()).tasks, c) == computations(n, c),
{
    lemma_flattened_counts(n, Seq::empty(), c);
    assert(class_count(Seq::<TaskView>::empty(), c) == 0);
}

/// The number of bytes that `c` takes in UTF-8.
pub open spec fn utf8_width(c: char) -> int {
    if (c as u32) < 0x80 {
        1
    } else if (c as u32) < 0x800 {
        2
    } else if (c as u32) < 0x10000 {
        3
    } else {
        4
    }
}

/// The number of bytes of the UTF-8 encoding of `s`.
pub open spec fn utf8_length(s: Seq<char>) -> int
    decreases s.len(),
{
    if s.len() == 0 {
        0
    } else {
        utf8_length(s.drop_last()) + utf8_width(s.last())
    }
}

/// `s` has a prefix whose encoding takes exactly `bytes` bytes.
pub open spec fn has_boundary(s: Seq<char>, bytes: int) -> bool {
    exists|k: int| 0 <= k <= s.len() && utf8_length(s.take(k)) == bytes
}

/// A name shown in a pipeline: names over 15 bytes are cut to their first
/// 12 bytes and `...`.
pub open spec fn short_name(s: Seq<char>) -> Seq<char> {
    if utf8_length(s) > 15 {
        let k = choose|k: int| 0 <= k <= s.len() && utf8_length(s.take(k)) == 12;
        s.take(k) + "..."@
    } else {
        s
    }
}

proof fn lemma_utf8_length_grows(s: Seq<char>, j: int, k: int)
    requires
        0 <= j < k <= s.len(),
    ensures
        utf8_length(s.take(j)) < utf8_length(s.take(k)),
    decreases k - j,
{
    assert(s.take(k).drop_last() =~= s.take(k - 1));
    if j < k - 1 {
        lemma_utf8_length_grows(s, j, k - 1);
    }
}

fn char_width(c: char) -> (r: usize)
    ensures
        r == utf8_width(c),
{
    if (c as u32) < 0x80 {
        1
    } else if (c as u32) < 0x800 {
        2
    } else if (c as u32) < 0x10000 {
        3
    } else {
        4
    }
}

/// The name as a pipeline shows it (see [`short_name`]).
fn shorten(name: &String) -> (r: String)
    requires
        utf8_length(name@) > 15 ==> has_boundary(name@, 12),
    ensures
        r@ == short_name(name@),
{
    let chars = crate::chars::collect_chars(name.as_str());
    let mut bytes: usize = 0;
    let mut cut: usize = 0;
    let mut found = false;
    let mut k: usize = 0;
    assert(chars@.take(0) =~= Seq::<char>::empty());
    while k < chars.len() && bytes <= 15
        invariant
            chars@ == name@,
            k <= chars.len(),
            bytes == utf8_length(chars@.take(k as int)),
            bytes <= 19,
            found ==> cut <= k && utf8_length(chars@.take(cut as int)) == 12,
            !found ==> forall|j: int| 0 <= j <= k ==> utf8_length(#[trigger] chars@.take(j)) != 12,
        decreases chars.len() - k,
    {
        proof {
            assert(chars@.take(k + 1).drop_last() =~= chars@.take(k as int));
        }
        bytes = bytes + char_width(chars[k]);
        k += 1;
        if !found && bytes == 12 {
            found = true;
            cut = k;
        }
    }
    proof {
        if k < chars.len() {
            lemma_utf8_length_grows(name@, k as int, chars.len() as int);
        }
        assert(chars@.take(chars.len() as int) =~= chars@);
        if bytes > 15 {
            let c = choose|c: int| 0 <= c <= name@.len() && utf8_length(name@.take(c)) == 12;
            if k < c {
                lemma_utf8_length_grows(name@, k as int, c);
            }
        }
    }
    let mut out = String::new();
    if bytes > 15 {
        proof {
            let c = choose|c: int| 0 <= c <= name@.len() && utf8_length(name@.take(c)) == 12;
            if c < cut {
                lemma_utf8_length_grows(name@, c, cut as int);
            } else if cut < c {
                lemma_utf8_length_grows(name@, cut as int, c);
            }
        }
        let mut i: usize = 0;
        while i < cut
            invariant
                chars@ == name@,
                cut <= chars.len(),
                i <= cut,
                out@ == chars@.take(i as int),
            decreases cut - i,
        {
            crate::chars::push_char(&mut out, chars[i]);
            i += 1;
            assert(out@ =~= chars@.take(i as int));
        }
        push_str(&mut out, "...");
    } else {
        push_str(&mut out, name.as_str());
    }
    out
}


proof fn lemma_task_views_push(s: Seq<Task>, t: Task)
    ensures
        task_views(s.push(t)) == task_views(s).push(t.task_view()),
{
    assert(task_views(s.push(t)) =~= task_views(s).push(t.task_view()));
}

proof fn lemma_task_views_update(s: Seq<Task>, i: int, t: Task)
    requires
        0 <= i < s.len(),
    ensures
        task_views(s.update(i, t)) == task_views(s).update(i, t.task_view()),
{
    assert(task_views(s.update(i, t)) =~= task_views(s).update(i, t.task_view()));
}

/// Stores `task` in its slot, which the traversal reserved.
fn settle(tasks: &mut Vec<Task>, id: usize, task: Task)
    requires
        id < old(tasks).len(),
    ensures
        task_views(final(tasks)@) == task_views(old(tasks)@).update(id as int, task.task_view()),
        final(tasks).len() == old(tasks).len(),
{
    proof {
        lemma_task_views_update(tasks@, id as int, task);
    }
    tasks.set(id, task);
}

fn pair(a: usize, b: usize) -> (r: Vec<usize>)
    ensures
        r@.map_values(|d: usize| d as int) == seq![a as int, b as int],
{
    let mut v: Vec<usize> = Vec::new();
    v.push(a);
    v.push(b);
    assert(v@.map_values(|d: usize| d as int) =~= seq![a as int, b as int]);
    v
}

fn single(a: usize) -> (r: Vec<usize>)
    ensures
        r@.map_values(|d: usize| d as int) == seq![a as int],
{
    let mut v: Vec<usize> = Vec::new();
    v.push(a);
    assert(v@.map_values(|d: usize| d as int) =~= seq![a as int]);
    v
}

/// Adds the tasks of `node` (see [`flattened`]); gives its task, rank and text.
fn traverse_node(node: &AstNode<String>, tasks: &mut Vec<Task>, counter: &mut usize) -> (r: (usize, usize, String))
    requires
        *old(counter) == old(tasks).len(),
        old(tasks).len() + task_count(node.view_node()) <= usize::MAX,
    ensures
        task_views(final(tasks)@) == flattened(node.view_node(), task_views(old(tasks)@)).tasks,
        r.0 == flattened(node.view_node(), task_views(old(tasks)@)).id,
        r.1 == flattened(node.view_node(), task_views(old(tasks)@)).rank,
        r.2@ == flattened(node.view_node(), task_views(old(tasks)@)).text,
        *final(counter) == final(tasks).len(),
    decreases node,
{
    let ghost before = task_views(tasks@);
    proof {
        lemma_flattened_shape(node.view_node(), before);
    }
    let current_id = *counter;
    *counter += 1;
    let placeholder = Task {
        id: current_id,
        operation_type: OperationType::Load,
        dependencies: Vec::new(),
        display_name: String::new(),
        rank: 0,
    };
    proof {
        lemma_task_views_push(tasks@, placeholder);
        assert(placeholder.dependencies@.map_values(|d: usize| d as int) =~= Seq::<int>::empty());
        assert(placeholder.task_view() == load_task(current_id as int, Seq::empty()));
    }
    tasks.push(placeholder);
    match node {
        AstNode::BinaryOperation { operation, left, right } => {
            proof {
                lemma_flattened_shape(left.view_node(), task_views(tasks@));
            }
            let (left_id, left_rank, left_text) = traverse_node(left, tasks, counter);
            proof {
                lemma_flattened_shape(right.view_node(), task_views(tasks@));
            }
            let (right_id, right_rank, right_text) = traverse_node(right, tasks, counter);
            let rank = if left_rank >= right_rank { left_rank + 1 } else { right_rank + 1 };
            let op_symbol = match operation {
                BinaryOperationKind::Plus => "+",
                BinaryOperationKind::Minus => "-",
                BinaryOperationKind::Multiply => "*",
                BinaryOperationKind::Divide => "/",
                _ => "?",
            };
            let mut display_name = String::new();
            push_str(&mut display_name, "(");
            push_str(&mut display_name, left_text.as_str());
            push_str(&mut display_name, " ");
            push_str(&mut display_name, op_symbol);
            push_str(&mut display_name, " ");
            push_str(&mut display_name, right_text.as_str());
            push_str(&mut display_name, ")");
            let task = Task {
                id: current_id,
                operation_type: OperationType::from_binary(operation),
                dependencies: pair(left_id, right_id),
                display_name: display_name.clone(),
                rank,
            };
            settle(tasks, current_id, task);
            (current_id, rank, display_name)
        },
        AstNode::UnaryOperation { operation, expression } => {
            proof {
                lemma_flattened_shape(expression.view_node(), task_views(tasks@));
            }
            let (child_id, child_rank, child_text) = traverse_node(expression, tasks, counter);
            let rank = child_rank + 1;
            let op_type = match operation {
                UnaryOperationKind::Minus => OperationType::Sub,
                _ => OperationType::Load,
            };
            let op_symbol = match operation {
                UnaryOperationKind::Minus => "-",
                UnaryOperationKind::Not => "!",
            };
            let mut display_name = String::new();
            push_str(&mut display_name, op_symbol);
            push_str(&mut display_name, child_text.as_str());
            let task = Task {
                id: current_id,
                operation_type: op_type,
                dependencies: single(child_id),
                display_name: display_name.clone(),
                rank,
            };
            settle(tasks, current_id, task);
            (current_id, rank, display_name)
        },
        _ => {
            let mut text = String::new();
            match node {
                AstNode::Number(n) => push_str(&mut text, n.as_str()),
                AstNode::Identifier(name) => push_str(&mut text, name.as_str()),
                AstNode::FunctionCall { name, .. } => {
                    push_str(&mut text, name.as_str());
                    push_str(&mut text, "()");
                },
                AstNode::ArrayAccess { identifier, .. } => {
                    push_str(&mut text, identifier.as_str());
                    push_str(&mut text, "[..]");
                },
                _ => push_str(&mut text, "?"),
            }
            let task = Task {
                id: current_id,
                operation_type: OperationType::Load,
                dependencies: Vec::new(),
                display_name: text.clone(),
                rank: 0,
            };
            proof {
                assert(task.dependencies@.map_values(|d: usize| d as int) =~= Seq::<int>::empty());
            }
            settle(tasks, current_id, task);
            (current_id, 0, text)
        },
    }
}

/// The tasks of a tree, by number (see [`flattened`]).
fn flatten_ast(ast: &AbstractSyntaxTree<String>) -> (r: Vec<Task>)
    requires
        task_count(ast.peek.view_node()) <= usize::MAX,
    ensures
        task_views(r@) == flattened(ast.peek.view_node(), Seq::empty()).tasks,
{
    let mut tasks: Vec<Task> = Vec::new();
    let mut id_counter: usize = 0;
    assert(task_views(tasks@) =~= Seq::<TaskView>::empty());
    let _ = traverse_node(&ast.peek, &mut tasks, &mut id_counter);
    tasks
}


/// A computation in a unit's pipeline.
pub struct Activity {
    pub task: int,
    pub start: int,
    pub end: int,
    pub unit: int,
    pub class: OperationType,
}

pub struct ScheduledView {
    pub task_id: int,
    pub name: Seq<char>,
    pub start: int,
    pub end: int,
    pub processor_type: OperationType,
    pub processor_index: int,
}

pub struct LogView {
    pub tick: int,
    pub pipelines: Seq<(Seq<char>, Seq<char>)>,
    pub ready: Seq<Seq<char>>,
}

/// The state of the simulation: the tick, when each task finishes (once
/// started), when each unit of each class (`ADD`, `SUB`, `MUL`, `DIV`) can
/// take a new input, the computations in flight, and what was recorded.
pub struct SimState {
    pub tick: int,
    pub finish: Seq<Option<int>>,
    pub units: Seq<Seq<int>>,
    pub active: Seq<Activity>,
    pub schedule: Seq<ScheduledView>,
    pub logs: Seq<LogView>,
}

pub open spec fn class_index(op: OperationType) -> int {
    match op {
        OperationType::Add => 0,
        OperationType::Sub => 1,
        OperationType::Mul => 2,
        OperationType::Div => 3,
        OperationType::Load => 4,
    }
}

pub open spec fn unit_counts(p: ProcessorConfiguration) -> Seq<int> {
    seq![p.add as int, p.sub as int, p.mul as int, p.div as int]
}

/// Loads finish at once; every unit can take input at tick 0.
pub open spec fn initial_state(ts: Seq<TaskView>, config: SystemConfiguration) -> SimState {
    SimState {
        tick: 0,
        finish: Seq::new(ts.len(), |i: int| if ts[i].operation == OperationType::Load { Some(0int) } else { None }),
        units: Seq::new(4, |c: int| Seq::new(unit_counts(config.processors)[c] as nat, |u: int| 0int)),
        active: Seq::empty(),
        schedule: Seq::empty(),
        logs: Seq::empty(),
    }
}

pub open spec fn dependency_done(finish: Seq<Option<int>>, d: int, tick: int) -> bool {
    0 <= d < finish.len() && finish[d] is Some && finish[d]->0 <= tick
}

/// Task `i` has not started and everything it needs has finished.
pub open spec fn is_ready(ts: Seq<TaskView>, finish: Seq<Option<int>>, tick: int, i: int) -> bool {
    &&& finish[i] is None
    &&& forall|k: int| 0 <= k < ts[i].dependencies.len() ==> dependency_done(finish, #[trigger] ts[i].dependencies[k], tick)
}

/// The ready tasks among the first `n`, by number.
pub open spec fn ready_ids(ts: Seq<TaskView>, finish: Seq<Option<int>>, tick: int, n: int) -> Seq<int>
    decreases n,
{
    if n <= 0 {
        Seq::empty()
    } else if is_ready(ts, finish, tick, n - 1) {
        ready_ids(ts, finish, tick, n - 1).push(n - 1)
    } else {
        ready_ids(ts, finish, tick, n - 1)
    }
}

/// The order in which ready tasks are considered: lower rank first, and
/// among equal ranks the longer latency first.
pub open spec fn goes_before(ts: Seq<TaskView>, time: TimeConfiguration, a: int, b: int) -> bool {
    ||| ts[a].rank < ts[b].rank
    ||| ts[a].rank == ts[b].rank && latency_of(ts[a].operation, time) >= latency_of(ts[b].operation, time)
}

pub open spec fn ready_order(ts: Seq<TaskView>, time: TimeConfiguration, finish: Seq<Option<int>>, tick: int) -> Seq<int> {
    sort_le(ready_ids(ts, finish, tick, ts.len() as int), |a: int, b: int| goes_before(ts, time, a, b))
}

/// The first unit that can take input at `tick`, or the number of units.
pub open spec fn first_free(units: Seq<int>, tick: int) -> int
    decreases units.len(),
{
    if units.len() == 0 {
        0
    } else if units[0] <= tick {
        0
    } else {
        1 + first_free(units.drop_first(), tick)
    }
}

/// Starting task `id` on the first free unit of its class, if there is one.
pub open spec fn place(ts: Seq<TaskView>, time: TimeConfiguration, s: SimState, id: int) -> SimState {
    let op = ts[id].operation;
    let c = class_index(op);
    if op == OperationType::Load {
        s
    } else {
        let u = first_free(s.units[c], s.tick);
        if u < s.units[c].len() {
            let end = s.tick + latency_of(op, time);
            SimState {
                finish: s.finish.update(id, Some(end)),
                units: s.units.update(c, s.units[c].update(u, s.tick + 1)),
                active: s.active.push(Activity { task: id, start: s.tick, end, unit: u, class: op }),
                schedule: s.schedule.push(
                    ScheduledView {
                        task_id: id,
                        name: ts[id].name,
                        start: s.tick,
                        end,
                        processor_type: op,
                        processor_index: u,
                    },
                ),
                ..s
            }
        } else {
            s
        }
    }
}

/// Placing the tasks of `order` one after another.
pub open spec fn place_all(ts: Seq<TaskView>, time: TimeConfiguration, s: SimState, order: Seq<int>) -> SimState
    decreases order.len(),
{
    if order.len() == 0 {
        s
    } else {
        place(ts, time, place_all(ts, time, s, order.drop_last()), order.last())
    }
}

/// The name of a processor unit, such as `ADD #1`.
pub open spec fn unit_name(c: OperationType, u: int) -> Seq<char> {
    operation_name(c) + " #"@ + decimal((u + 1) as nat)
}

/// Computations ordered by their start.
pub open spec fn by_start_time() -> spec_fn(Activity) -> int {
    |a: Activity| a.start
}

/// Computations that finish after `tick`.
pub open spec fn in_flight(tick: int) -> spec_fn(Activity) -> bool {
    |a: Activity| a.end > tick
}

/// Computations in the pipeline of unit `u` of class `c` at `tick`.
pub open spec fn in_unit(c: OperationType, u: int, tick: int) -> spec_fn(Activity) -> bool {
    |a: Activity| a.class == c && a.unit == u && a.start <= tick && tick < a.end
}

/// The computations in the pipeline of unit `u` of class `c` at `tick`.
pub open spec fn running(active: Seq<Activity>, c: OperationType, u: int, tick: int) -> Seq<Activity> {
    active.filter(in_unit(c, u, tick))
}

pub open spec fn stage_text(ts: Seq<TaskView>, tick: int, a: Activity) -> Seq<char> {
    "[Stage "@ + decimal((tick - a.start + 1) as nat) + ": "@ + short_name(ts[a.task].name) + "]"@
}

pub open spec fn stages_text(ts: Seq<TaskView>, tick: int, s: Seq<Activity>) -> Seq<char>
    decreases s.len(),
{
    if s.len() == 0 {
        Seq::empty()
    } else if s.len() == 1 {
        stage_text(ts, tick, s[0])
    } else {
        stages_text(ts, tick, s.drop_last()) + " "@ + stage_text(ts, tick, s.last())
    }
}

/// What unit `u` of class `c` does at `tick`: `Idle`, or the stage of each
/// computation in it, earliest started first.
pub open spec fn unit_state(ts: Seq<TaskView>, tick: int, active: Seq<Activity>, c: OperationType, u: int) -> Seq<char> {
    let r = sort_by(running(active, c, u, tick), by_start_time());
    if r.len() == 0 {
        "Idle"@
    } else {
        stages_text(ts, tick, r)
    }
}

pub open spec fn class_states(
    ts: Seq<TaskView>,
    tick: int,
    active: Seq<Activity>,
    c: OperationType,
    count: int,
) -> Seq<(Seq<char>, Seq<char>)>
    decreases count,
{
    if count <= 0 {
        Seq::empty()
    } else {
        class_states(ts, tick, active, c, count - 1).push((unit_name(c, count - 1), unit_state(ts, tick, active, c, count - 1)))
    }
}

/// The state of every unit, class by class.
pub open spec fn pipelines(ts: Seq<TaskView>, tick: int, active: Seq<Activity>, units: Seq<Seq<int>>) -> Seq<(Seq<char>, Seq<char>)> {
    class_states(ts, tick, active, OperationType::Add, units[0].len() as int)
        + class_states(ts, tick, active, OperationType::Sub, units[1].len() as int)
        + class_states(ts, tick, active, OperationType::Mul, units[2].len() as int)
        + class_states(ts, tick, active, OperationType::Div, units[3].len() as int)
}

pub open spec fn all_started(finish: Seq<Option<int>>) -> bool {
    forall|i: int| 0 <= i < finish.len() ==> #[trigger] finish[i] is Some
}

/// The names of the tasks of `order`.
pub open spec fn names(ts: Seq<TaskView>, order: Seq<int>) -> Seq<Seq<char>> {
    order.map_values(|i: int| ts[i].name)
}

/// One tick: the ready tasks are started in order where a unit is free, and
/// the tick is recorded.
pub open spec fn tick_step(ts: Seq<TaskView>, config: SystemConfiguration, s: SimState) -> SimState {
    let order = ready_order(ts, config.time, s.finish, s.tick);
    let placed = place_all(ts, config.time, s, order);
    let log = LogView {
        tick: s.tick,
        pipelines: pipelines(ts, s.tick, placed.active, placed.units),
        ready: names(ts, order),
    };
    SimState { tick: s.tick + 1, logs: placed.logs.push(log), ..placed }
}

/// Ticks from `s` until every task has started and every computation has
/// finished, or until tick 10001.
pub open spec fn simulate_from(ts: Seq<TaskView>, config: SystemConfiguration, s: SimState) -> SimState
    decreases 10001 - s.tick,
{
    let current = SimState { active: s.active.filter(in_flight(s.tick)), ..s };
    if all_started(current.finish) && current.active.len() == 0 {
        current
    } else {
        let next = tick_step(ts, config, current);
        if next.tick > 10000 || s.tick >= 10000 {
            next
        } else {
            simulate_from(ts, config, next)
        }
    }
}

/// The total execution time of the scheduled computations.
pub open spec fn total_work(s: Seq<ScheduledView>) -> int
    decreases s.len(),
{
    if s.len() == 0 {
        0
    } else {
        total_work(s.drop_last()) + (s.last().end - s.last().start)
    }
}

/// The time the last computation finishes, or 0.
pub open spec fn last_finish(s: Seq<ScheduledView>) -> int
    decreases s.len(),
{
    if s.len() == 0 {
        0
    } else if s.last().end > last_finish(s.drop_last()) {
        s.last().end
    } else {
        last_finish(s.drop_last())
    }
}


pub open spec fn ints(s: Seq<usize>) -> Seq<int> {
    s.map_values(|x: usize| x as int)
}

pub open spec fn finish_view(s: Seq<Option<usize>>) -> Seq<Option<int>> {
    s.map_values(
        |x: Option<usize>|
            match x {
                Some(v) => Some(v as int),
                None => None,
            },
    )
}

struct Running {
    task: usize,
    start: usize,
    end: usize,
    unit: usize,
    class: OperationType,
}

impl Running {
    spec fn activity(&self) -> Activity {
        Activity {
            task: self.task as int,
            start: self.start as int,
            end: self.end as int,
            unit: self.unit as int,
            class: self.class,
        }
    }
}

spec fn activities(s: Seq<Running>) -> Seq<Activity> {
    s.map_values(|r: Running| r.activity())
}

pub open spec fn scheduled_view(t: ScheduledTask) -> ScheduledView {
    ScheduledView {
        task_id: t.task_id as int,
        name: t.name@,
        start: t.start_time as int,
        end: t.end_time as int,
        processor_type: t.processor_type,
        processor_index: t.processor_index as int,
    }
}

pub open spec fn scheduled_views(s: Seq<ScheduledTask>) -> Seq<ScheduledView> {
    s.map_values(|t: ScheduledTask| scheduled_view(t))
}

pub open spec fn pair_views(s: Seq<(String, String)>) -> Seq<(Seq<char>, Seq<char>)> {
    s.map_values(|p: (String, String)| (p.0@, p.1@))
}

pub open spec fn string_views(s: Seq<String>) -> Seq<Seq<char>> {
    s.map_values(|t: String| t@)
}

pub open spec fn log_view(l: TickLog) -> LogView {
    LogView { tick: l.tick as int, pipelines: pair_views(l.pipelines_state@), ready: string_views(l.ready_queue@) }
}

pub open spec fn log_views(s: Seq<TickLog>) -> Seq<LogView> {
    s.map_values(|l: TickLog| log_view(l))
}

/// When each unit of each class can take a new input.
struct Units {
    add: Vec<usize>,
    sub: Vec<usize>,
    mul: Vec<usize>,
    div: Vec<usize>,
}

impl Units {
    spec fn units_view(&self) -> Seq<Seq<int>> {
        seq![ints(self.add@), ints(self.sub@), ints(self.mul@), ints(self.div@)]
    }

    fn of(&self, class: OperationType) -> (r: &Vec<usize>)
        requires
            class != OperationType::Load,
        ensures
            ints(r@) == self.units_view()[class_index(class)],
    {
        match class {
            OperationType::Add => &self.add,
            OperationType::Sub => &self.sub,
            OperationType::Mul => &self.mul,
            _ => &self.div,
        }
    }

    fn occupy(&mut self, class: OperationType, u: usize, value: usize)
        requires
            class != OperationType::Load,
            u < old(self).units_view()[class_index(class)].len(),
        ensures
            final(self).units_view() == old(self).units_view().update(
                class_index(class),
                old(self).units_view()[class_index(class)].update(u as int, value as int),
            ),
    {
        match class {
            OperationType::Add => self.add.set(u, value),
            OperationType::Sub => self.sub.set(u, value),
            OperationType::Mul => self.mul.set(u, value),
            _ => self.div.set(u, value),
        }
        proof {
            assert(ints(self.add@) =~= ints(old(self).add@).update(u as int, value as int) || class != OperationType::Add);
            assert(ints(self.sub@) =~= ints(old(self).sub@).update(u as int, value as int) || class != OperationType::Sub);
            assert(ints(self.mul@) =~= ints(old(self).mul@).update(u as int, value as int) || class != OperationType::Mul);
            assert(ints(self.div@) =~= ints(old(self).div@).update(u as int, value as int) || class != OperationType::Div);
            assert(final(self).units_view() =~= old(self).units_view().update(
                class_index(class),
                old(self).units_view()[class_index(class)].update(u as int, value as int),
            ));
        }
    }
}

fn zeros(count: usize) -> (r: Vec<usize>)
    ensures
        ints(r@) == Seq::new(count as nat, |u: int| 0int),
{
    let mut v: Vec<usize> = Vec::new();
    let mut k: usize = 0;
    while k < count
        invariant
            k <= count,
            v@.len() == k,
            forall|j: int| 0 <= j < k ==> v@[j] == 0,
        decreases count - k,
    {
        v.push(0);
        k += 1;
    }
    assert(ints(v@) =~= Seq::new(count as nat, |u: int| 0int));
    v
}

proof fn lemma_first_free(units: Seq<int>, tick: int, r: int)
    requires
        0 <= r <= units.len(),
        forall|k: int| 0 <= k < r ==> units[k] > tick,
        r < units.len() ==> units[r] <= tick,
    ensures
        first_free(units, tick) == r,
    decreases units.len(),
{
    if units.len() > 0 && units[0] > tick {
        assert forall|k: int| 0 <= k < r - 1 implies units.drop_first()[k] > tick by {
            assert(units.drop_first()[k] == units[k + 1]);
        }
        lemma_first_free(units.drop_first(), tick, r - 1);
    }
}

/// The first unit of `units` that can take input at `tick`, or their number.
fn find_free(units: &Vec<usize>, tick: usize) -> (r: usize)
    ensures
        r == first_free(ints(units@), tick as int),
{
    let mut k: usize = 0;
    while k < units.len()
        invariant
            k <= units.len(),
            forall|j: int| 0 <= j < k ==> units@[j] > tick,
        decreases units.len() - k,
    {
        if units[k] <= tick {
            proof {
                lemma_first_free(ints(units@), tick as int, k as int);
            }
            return k;
        }
        k += 1;
    }
    proof {
        lemma_first_free(ints(units@), tick as int, k as int);
    }
    k
}

/// The computations still in flight after `tick`.
fn retain_running(active: Vec<Running>, tick: usize, n: usize) -> (r: Vec<Running>)
    requires
        forall|j: int| 0 <= j < active@.len() ==> #[trigger] active@[j].task < n,
    ensures
        activities(r@) == activities(active@).filter(in_flight(tick as int)),
        forall|j: int| 0 <= j < r@.len() ==> #[trigger] r@[j].task < n,
{
    let ghost all = activities(active@);
    let ghost p = in_flight(tick as int);
    let mut kept: Vec<Running> = Vec::new();
    let mut k: usize = 0;
    proof {
        reveal(Seq::filter);
    }
    assert(all.take(0).filter(p) =~= Seq::<Activity>::empty());
    assert(activities(kept@) =~= Seq::<Activity>::empty());
    while k < active.len()
        invariant
            all == activities(active@),
            p == in_flight(tick as int),
            k <= active.len(),
            activities(kept@) == all.take(k as int).filter(p),
            forall|j: int| 0 <= j < active@.len() ==> #[trigger] active@[j].task < n,
            forall|j: int| 0 <= j < kept@.len() ==> #[trigger] kept@[j].task < n,
        decreases active.len() - k,
    {
        let item = &active[k];
        let ghost before = activities(kept@);
        assert(all.take(k + 1).drop_last() =~= all.take(k as int));
        assert(all.take(k + 1).last() == item.activity());
        proof {
            reveal(Seq::filter);
        }
        if item.end > tick {
            let copy = Running { task: item.task, start: item.start, end: item.end, unit: item.unit, class: item.class };
            kept.push(copy);
            assert(activities(kept@) =~= before.push(copy.activity()));
        }
        k += 1;
    }
    assert(all.take(active.len() as int) =~= all);
    kept
}

fn all_tasks_started(finish: &Vec<Option<usize>>) -> (r: bool)
    ensures
        r == all_started(finish_view(finish@)),
{
    let mut k: usize = 0;
    while k < finish.len()
        invariant
            k <= finish.len(),
            forall|j: int| 0 <= j < k ==> #[trigger] finish_view(finish@)[j] is Some,
        decreases finish.len() - k,
    {
        if finish[k].is_none() {
            assert(finish_view(finish@)[k as int] is None);
            return false;
        }
        k += 1;
    }
    true
}

/// Whether task `i` is ready at `tick` (see [`is_ready`]).
fn task_ready(tasks: &Vec<Task>, finish: &Vec<Option<usize>>, tick: usize, i: usize) -> (r: bool)
    requires
        i < tasks.len(),
        finish.len() == tasks.len(),
    ensures
        r == is_ready(task_views(tasks@), finish_view(finish@), tick as int, i as int),
{
    let ghost ts = task_views(tasks@);
    let ghost fv = finish_view(finish@);
    if finish[i].is_some() {
        return false;
    }
    let deps = &tasks[i].dependencies;
    let mut k: usize = 0;
    while k < deps.len()
        invariant
            ts == task_views(tasks@),
            fv == finish_view(finish@),
            i < tasks.len(),
            deps@ == tasks@[i as int].dependencies@,
            ts[i as int].dependencies == ints(deps@),
            k <= deps.len(),
            forall|j: int| 0 <= j < k ==> dependency_done(fv, #[trigger] ts[i as int].dependencies[j], tick as int),
        decreases deps.len() - k,
    {
        let d = deps[k];
        let done = d < finish.len() && match finish[d] {
            Some(t) => t <= tick,
            None => false,
        };
        assert(ts[i as int].dependencies[k as int] == d as int);
        if !done {
            return false;
        }
        k += 1;
    }
    true
}

/// The ready tasks, by number.
fn ready_tasks(tasks: &Vec<Task>, finish: &Vec<Option<usize>>, tick: usize) -> (r: Vec<usize>)
    requires
        finish.len() == tasks.len(),
    ensures
        ints(r@) == ready_ids(task_views(tasks@), finish_view(finish@), tick as int, tasks.len() as int),
{
    let mut ready: Vec<usize> = Vec::new();
    let mut i: usize = 0;
    assert(ints(ready@) =~= Seq::<int>::empty());
    while i < tasks.len()
        invariant
            i <= tasks.len(),
            finish.len() == tasks.len(),
            ints(ready@) == ready_ids(task_views(tasks@), finish_view(finish@), tick as int, i as int),
        decreases tasks.len() - i,
    {
        if task_ready(tasks, finish, tick, i) {
            ready.push(i);
            assert(ints(ready@) =~= ready_ids(task_views(tasks@), finish_view(finish@), tick as int, i as int).push(i as int));
        }
        i += 1;
    }
    ready
}


proof fn lemma_ready_ids_bound(ts: Seq<TaskView>, finish: Seq<Option<int>>, tick: int, n: int)
    ensures
        forall|k: int| 0 <= k < ready_ids(ts, finish, tick, n).len() ==> 0 <= #[trigger] ready_ids(ts, finish, tick, n)[k] < n,
    decreases n,
{
    if n > 0 {
        lemma_ready_ids_bound(ts, finish, tick, n - 1);
        let prev = ready_ids(ts, finish, tick, n - 1);
        assert forall|k: int| 0 <= k < ready_ids(ts, finish, tick, n).len() implies 0 <= #[trigger] ready_ids(
            ts,
            finish,
            tick,
            n,
        )[k] < n by {
            if k < prev.len() {
                assert(ready_ids(ts, finish, tick, n)[k] == prev[k]);
            }
        }
    }
}

/// Whether task `a` is considered before task `b` (see [`goes_before`]).
fn considered_before(tasks: &Vec<Task>, time: &TimeConfiguration, a: usize, b: usize) -> (r: bool)
    requires
        a < tasks.len(),
        b < tasks.len(),
    ensures
        r == goes_before(task_views(tasks@), *time, a as int, b as int),
{
    let ta = &tasks[a];
    let tb = &tasks[b];
    if ta.rank != tb.rank {
        ta.rank < tb.rank
    } else {
        ta.operation_type.latency(time) >= tb.operation_type.latency(time)
    }
}

/// The ready tasks in the order they are considered (see [`ready_order`]):
/// a stable insertion sort.
fn order_ready(tasks: &Vec<Task>, time: &TimeConfiguration, ready: Vec<usize>) -> (r: Vec<usize>)
    requires
        forall|k: int| 0 <= k < ready@.len() ==> #[trigger] ready@[k] < tasks.len(),
    ensures
        ints(r@) == sort_le(ints(ready@), |a: int, b: int| goes_before(task_views(tasks@), *time, a, b)),
        forall|k: int| 0 <= k < r@.len() ==> #[trigger] r@[k] < tasks.len(),
        r@.len() == ready@.len(),
{
    let ghost ts = task_views(tasks@);
    let ghost le = |a: int, b: int| goes_before(ts, *time, a, b);
    let ghost all = ints(ready@);
    let n = ready.len();
    let mut out: Vec<usize> = Vec::new();
    let mut k: usize = 0;
    assert(all.take(0) =~= Seq::<int>::empty());
    assert(ints(out@) =~= Seq::<int>::empty());
    while k < n
        invariant
            n == ready.len(),
            all == ints(ready@),
            ts == task_views(tasks@),
            le == (|a: int, b: int| goes_before(ts, *time, a, b)),
            forall|j: int| 0 <= j < ready@.len() ==> #[trigger] ready@[j] < tasks.len(),
            k <= n,
            out@.len() == k,
            forall|j: int| 0 <= j < out@.len() ==> #[trigger] out@[j] < tasks.len(),
            ints(out@) == sort_le(all.take(k as int), le),
        decreases n - k,
    {
        let e = ready[k];
        let ghost before = ints(out@);
        let mut p = out.len();
        while p > 0 && !considered_before(tasks, time, out[p - 1], e)
            invariant
                p <= out.len(),
                before == ints(out@),
                e < tasks.len(),
                ts == task_views(tasks@),
                le == (|a: int, b: int| goes_before(ts, *time, a, b)),
                forall|j: int| 0 <= j < out@.len() ==> #[trigger] out@[j] < tasks.len(),
                forall|j: int| p <= j < out.len() ==> !le(#[trigger] before[j], e as int),
            decreases p,
        {
            p -= 1;
        }
        proof {
            lemma_insert_le_at(before, e as int, le, p as int);
        }
        out.insert(p, e);
        proof {
            assert(all.take(k + 1).drop_last() =~= all.take(k as int));
            assert(all.take(k + 1).last() == e as int);
            assert(ints(out@) =~= before.take(p as int).push(e as int) + before.skip(p as int));
        }
        k += 1;
    }
    assert(all.take(n as int) =~= all);
    out
}


/// Latencies small enough that a computation started by tick 10000 ends
/// within `usize`.
pub open spec fn latencies_bounded(time: TimeConfiguration) -> bool {
    &&& time.add <= usize::MAX - 10001
    &&& time.sub <= usize::MAX - 10001
    &&& time.mul <= usize::MAX - 10001
    &&& time.div <= usize::MAX - 10001
}

/// A name can be shortened for display: if it is over 15 bytes, its first
/// 12 bytes end on a character.
pub open spec fn name_cuttable(name: Seq<char>) -> bool {
    utf8_length(name) > 15 ==> has_boundary(name, 12)
}

/// The simulation state as the executable code keeps it.
struct Machine {
    tick: usize,
    finish: Vec<Option<usize>>,
    units: Units,
    active: Vec<Running>,
    schedule: Vec<ScheduledTask>,
    logs: Vec<TickLog>,
}

impl Machine {
    spec fn state(&self) -> SimState {
        SimState {
            tick: self.tick as int,
            finish: finish_view(self.finish@),
            units: self.units.units_view(),
            active: activities(self.active@),
            schedule: scheduled_views(self.schedule@),
            logs: log_views(self.logs@),
        }
    }
}

/// Starts task `id` on the first free unit of its class, if any (see [`place`]).
fn place_task(m: &mut Machine, tasks: &Vec<Task>, time: &TimeConfiguration, id: usize)
    requires
        id < tasks.len(),
        old(m).finish.len() == tasks.len(),
        old(m).tick <= 10000,
        latencies_bounded(*time),
    ensures
        final(m).state() == place(task_views(tasks@), *time, old(m).state(), id as int),
        final(m).finish.len() == old(m).finish.len(),
        final(m).tick == old(m).tick,
        final(m).logs == old(m).logs,
        (forall|j: int| 0 <= j < old(m).active@.len() ==> #[trigger] old(m).active@[j].task < tasks.len())
            ==> (forall|j: int| 0 <= j < final(m).active@.len() ==> #[trigger] final(m).active@[j].task < tasks.len()),
        (forall|j: int| 0 <= j < old(m).schedule@.len() ==> #[trigger] old(m).schedule@[j].start_time <= old(m).schedule@[j].end_time)
            ==> (forall|j: int| 0 <= j < final(m).schedule@.len() ==> #[trigger] final(m).schedule@[j].start_time <= final(m).schedule@[j].end_time),
{
    let ghost ts = task_views(tasks@);
    let task = &tasks[id];
    assert(ts[id as int] == task.task_view());
    if task.operation_type == OperationType::Load {
        return;
    }
    let units = m.units.of(task.operation_type);
    let count = units.len();
    let u = find_free(units, m.tick);
    if u < count {
        let latency = task.operation_type.latency(time);
        let start = m.tick;
        let end = start + latency;
        let ghost old_state = m.state();
        m.units.occupy(task.operation_type, u, start + 1);
        let scheduled = ScheduledTask {
            task_id: id,
            name: task.display_name.clone(),
            start_time: start,
            end_time: end,
            processor_type: task.operation_type,
            processor_index: u,
        };
        let ghost sched_before = m.schedule@;
        m.schedule.push(scheduled);
        let ghost finish_before = m.finish@;
        m.finish.set(id, Some(end));
        let running = Running { task: id, start, end, unit: u, class: task.operation_type };
        let ghost active_before = m.active@;
        m.active.push(running);
        proof {
            assert(scheduled_views(m.schedule@) =~= scheduled_views(sched_before).push(scheduled_view(scheduled)));
            assert(finish_view(m.finish@) =~= finish_view(finish_before).update(id as int, Some(end as int)));
            assert(activities(m.active@) =~= activities(active_before).push(running.activity()));
            assert(m.state() =~= place(ts, *time, old_state, id as int));
        }
    }
}

/// Starts the tasks of `order` in turn (see [`place_all`]).
fn place_tasks(m: &mut Machine, tasks: &Vec<Task>, time: &TimeConfiguration, order: &Vec<usize>)
    requires
        forall|k: int| 0 <= k < order@.len() ==> #[trigger] order@[k] < tasks.len(),
        old(m).finish.len() == tasks.len(),
        old(m).tick <= 10000,
        latencies_bounded(*time),
    ensures
        final(m).state() == place_all(task_views(tasks@), *time, old(m).state(), ints(order@)),
        final(m).finish.len() == old(m).finish.len(),
        final(m).tick == old(m).tick,
        final(m).logs == old(m).logs,
        (forall|j: int| 0 <= j < old(m).active@.len() ==> #[trigger] old(m).active@[j].task < tasks.len())
            ==> (forall|j: int| 0 <= j < final(m).active@.len() ==> #[trigger] final(m).active@[j].task < tasks.len()),
        (forall|j: int| 0 <= j < old(m).schedule@.len() ==> #[trigger] old(m).schedule@[j].start_time <= old(m).schedule@[j].end_time)
            ==> (forall|j: int| 0 <= j < final(m).schedule@.len() ==> #[trigger] final(m).schedule@[j].start_time <= final(m).schedule@[j].end_time),
{
    let ghost start = m.state();
    let ghost all = ints(order@);
    let mut k: usize = 0;
    assert(all.take(0) =~= Seq::<int>::empty());
    while k < order.len()
        invariant
            all == ints(order@),
            forall|j: int| 0 <= j < order@.len() ==> #[trigger] order@[j] < tasks.len(),
            k <= order.len(),
            m.finish.len() == tasks.len(),
            m.tick == old(m).tick,
            m.tick <= 10000,
            m.logs == old(m).logs,
            latencies_bounded(*time),
            start == old(m).state(),
            m.state() == place_all(task_views(tasks@), *time, start, all.take(k as int)),
            (forall|j: int| 0 <= j < old(m).active@.len() ==> #[trigger] old(m).active@[j].task < tasks.len())
                ==> (forall|j: int| 0 <= j < m.active@.len() ==> #[trigger] m.active@[j].task < tasks.len()),
            (forall|j: int| 0 <= j < old(m).schedule@.len() ==> #[trigger] old(m).schedule@[j].start_time <= old(m).schedule@[j].end_time)
                ==> (forall|j: int| 0 <= j < m.schedule@.len() ==> #[trigger] m.schedule@[j].start_time <= m.schedule@[j].end_time),
        decreases order.len() - k,
    {
        place_task(m, tasks, time, order[k]);
        proof {
            assert(all.take(k + 1).drop_last() =~= all.take(k as int));
            assert(all.take(k + 1).last() == order@[k as int] as int);
        }
        k += 1;
    }
    assert(all.take(order.len() as int) =~= all);
}


/// The computations in the pipeline of unit `u` of class `class` at `tick`,
/// earliest started first.
fn unit_activities(active: &Vec<Running>, class: OperationType, u: usize, tick: usize, n: usize) -> (r: Vec<Running>)
    requires
        forall|k: int| 0 <= k < active@.len() ==> #[trigger] active@[k].task < n,
    ensures
        activities(r@) == sort_by(running(activities(active@), class, u as int, tick as int), by_start_time()),
        forall|k: int| 0 <= k < r@.len() ==> #[trigger] r@[k].task < n && r@[k].start <= tick,
{
    let ghost all = activities(active@);
    let ghost p = in_unit(class, u as int, tick as int);
    let mut found: Vec<Running> = Vec::new();
    let mut k: usize = 0;
    proof {
        reveal(Seq::filter);
    }
    assert(all.take(0).filter(p) =~= Seq::<Activity>::empty());
    assert(activities(found@) =~= Seq::<Activity>::empty());
    while k < active.len()
        invariant
            all == activities(active@),
            p == in_unit(class, u as int, tick as int),
            k <= active.len(),
            activities(found@) == all.take(k as int).filter(p),
            forall|j: int| 0 <= j < active@.len() ==> #[trigger] active@[j].task < n,
            forall|i: int| 0 <= i < found@.len() ==> #[trigger] found@[i].task < n && found@[i].start <= tick,
        decreases active.len() - k,
    {
        let item = &active[k];
        let ghost before = activities(found@);
        assert(all.take(k + 1).drop_last() =~= all.take(k as int));
        assert(all.take(k + 1).last() == item.activity());
        proof {
            reveal(Seq::filter);
        }
        if item.class == class && item.unit == u && item.start <= tick && tick < item.end {
            let copy = Running { task: item.task, start: item.start, end: item.end, unit: item.unit, class: item.class };
            found.push(copy);
            assert(activities(found@) =~= before.push(copy.activity()));
        }
        k += 1;
    }
    assert(all.take(active.len() as int) =~= all);
    let ghost matching = activities(found@);
    let ghost pool = found@;
    assert forall|j: int| 0 <= j < pool.len() implies #[trigger] pool[j].task < n && pool[j].start <= tick by {
        assert(pool[j] == found@[j]);
    }
    let count = found.len();
    let mut rest = found;
    let mut out: Vec<Running> = Vec::new();
    let mut i: usize = 0;
    assert(matching.take(0) =~= Seq::<Activity>::empty());
    assert(activities(out@) =~= Seq::<Activity>::empty());
    while i < count
        invariant
            count == pool.len(),
            matching == activities(pool),
            i <= count,
            rest@ == pool.skip(i as int),
            activities(out@) == sort_by(matching.take(i as int), by_start_time()),
            forall|j: int| 0 <= j < pool.len() ==> #[trigger] pool[j].task < n && pool[j].start <= tick,
            forall|j: int| 0 <= j < out@.len() ==> #[trigger] out@[j].task < n && out@[j].start <= tick,
        decreases count - i,
    {
        let ghost old_rest = rest@;
        let e = rest.remove(0);
        assert(e == pool[i as int]);
        assert(rest@ =~= pool.skip(i + 1));
        let ghost before = activities(out@);
        let ghost out_before = out@;
        let mut q = out.len();
        while q > 0 && out[q - 1].start > e.start
            invariant
                q <= out.len(),
                before == activities(out@),
                forall|j: int| q <= j < out.len() ==> (by_start_time())(#[trigger] before[j]) > (by_start_time())(e.activity()),
            decreases q,
        {
            q -= 1;
        }
        proof {
            lemma_insert_at(before, e.activity(), by_start_time(), q as int);
        }
        out.insert(q, e);
        proof {
            assert(matching.take(i + 1).drop_last() =~= matching.take(i as int));
            assert(matching.take(i + 1).last() == e.activity());
            assert(activities(out@) =~= before.take(q as int).push(e.activity()) + before.skip(q as int));
            assert forall|j: int| 0 <= j < out@.len() implies #[trigger] out@[j].task < n && out@[j].start <= tick by {
                if j < q {
                    assert(out@[j] == out_before[j]);
                } else if j == q {
                    assert(out@[j] == pool[i as int]);
                } else {
                    assert(out@[j] == out_before[j - 1]);
                }
            }
        }
        i += 1;
    }
    assert(matching.take(count as int) =~= matching);
    out
}

/// What a unit does at `tick` (see [`unit_state`]).
fn unit_state_text(tasks: &Vec<Task>, active: &Vec<Running>, class: OperationType, u: usize, tick: usize) -> (r: String)
    requires
        tick <= 10000,
        forall|k: int| 0 <= k < active@.len() ==> #[trigger] active@[k].task < tasks.len(),
        forall|i: int| 0 <= i < tasks@.len() ==> name_cuttable(#[trigger] tasks@[i].display_name@),
    ensures
        r@ == unit_state(task_views(tasks@), tick as int, activities(active@), class, u as int),
{
    let ghost ts = task_views(tasks@);
    let entries = unit_activities(active, class, u, tick, tasks.len());
    let ghost es = activities(entries@);
    let mut s = String::new();
    if entries.len() == 0 {
        push_str(&mut s, "Idle");
        return s;
    }
    let mut k: usize = 0;
    assert(es.take(0) =~= Seq::<Activity>::empty());
    while k < entries.len()
        invariant
            es == activities(entries@),
            ts == task_views(tasks@),
            k <= entries.len(),
            forall|i: int| 0 <= i < tasks@.len() ==> name_cuttable(#[trigger] tasks@[i].display_name@),
            forall|j: int| 0 <= j < entries@.len() ==> #[trigger] entries@[j].task < tasks.len() && entries@[j].start <= tick,
            tick <= 10000,
            s@ == stages_text(ts, tick as int, es.take(k as int)),
        decreases entries.len() - k,
    {
        let e = &entries[k];
        let task = &tasks[e.task];
        assert(ts[e.task as int] == task.task_view());
        let ghost before = s@;
        if k > 0 {
            push_str(&mut s, " ");
        }
        push_str(&mut s, "[Stage ");
        push_decimal(&mut s, tick - e.start + 1);
        push_str(&mut s, ": ");
        let short = shorten(&task.display_name);
        push_str(&mut s, short.as_str());
        push_str(&mut s, "]");
        proof {
            assert(es.take(k + 1).drop_last() =~= es.take(k as int));
            assert(es.take(k + 1).last() == e.activity());
            if k == 0 {
                assert(es.take(1) =~= seq![es[0]]);
            }
            assert(s@ =~= stages_text(ts, tick as int, es.take(k + 1)));
        }
        k += 1;
    }
    assert(es.take(entries.len() as int) =~= es);
    s
}

/// The name of unit `u` of `class` (see [`unit_name`]).
fn unit_label(class: OperationType, u: usize) -> (r: String)
    requires
        u < usize::MAX,
    ensures
        r@ == unit_name(class, u as int),
{
    let mut s = String::new();
    push_str(&mut s, class.name());
    push_str(&mut s, " #");
    push_decimal(&mut s, u + 1);
    assert(s@ =~= unit_name(class, u as int));
    s
}

/// Appends the states of the `count` units of `class` (see [`class_states`]).
fn push_class_states(
    out: &mut Vec<(String, String)>,
    tasks: &Vec<Task>,
    active: &Vec<Running>,
    class: OperationType,
    count: usize,
    tick: usize,
)
    requires
        tick <= 10000,
        forall|k: int| 0 <= k < active@.len() ==> #[trigger] active@[k].task < tasks.len(),
        forall|i: int| 0 <= i < tasks@.len() ==> name_cuttable(#[trigger] tasks@[i].display_name@),
    ensures
        pair_views(final(out)@) == pair_views(old(out)@) + class_states(
            task_views(tasks@),
            tick as int,
            activities(active@),
            class,
            count as int,
        ),
{
    let ghost start = pair_views(out@);
    let mut u: usize = 0;
    assert(start + class_states(task_views(tasks@), tick as int, activities(active@), class, 0) =~= start);
    while u < count
        invariant
            u <= count,
            tick <= 10000,
            forall|k: int| 0 <= k < active@.len() ==> #[trigger] active@[k].task < tasks.len(),
            forall|i: int| 0 <= i < tasks@.len() ==> name_cuttable(#[trigger] tasks@[i].display_name@),
            pair_views(out@) == start + class_states(task_views(tasks@), tick as int, activities(active@), class, u as int),
        decreases count - u,
    {
        let name = unit_label(class, u);
        let state = unit_state_text(tasks, active, class, u, tick);
        let ghost before = out@;
        out.push((name, state));
        assert(pair_views(out@) =~= pair_views(before).push((name@, state@)));
        u += 1;
    }
}


/// The whole simulation of the tasks `ts`.
pub open spec fn simulation(ts: Seq<TaskView>, config: SystemConfiguration) -> SimState {
    simulate_from(ts, config, initial_state(ts, config))
}

/// Dependency `d` of the computation at `j` of `sch` was met: `d` is a task,
/// and it is a load or an earlier computation of it ended no later than the
/// one at `j` started.
pub open spec fn dependency_met(ts: Seq<TaskView>, sch: Seq<ScheduledView>, j: int, d: int) -> bool {
    &&& 0 <= d < ts.len()
    &&& (ts[d].operation == OperationType::Load || exists|i: int|
        0 <= i < j && #[trigger] sch[i].task_id == d && sch[i].end <= sch[j].start)
}

/// Every computation of `sch` is of a task of `ts`, and all it needs was
/// there when it started.
pub open spec fn respects_dependencies(ts: Seq<TaskView>, sch: Seq<ScheduledView>) -> bool {
    forall|j: int| 0 <= j < sch.len() ==> {
        &&& 0 <= #[trigger] sch[j].task_id < ts.len()
        &&& forall|k: int| 0 <= k < ts[sch[j].task_id].dependencies.len()
            ==> dependency_met(ts, sch, j, #[trigger] ts[sch[j].task_id].dependencies[k])
    }
}

/// Each recorded finish is that of a load (at 0) or the end of a computation
/// of the schedule.
spec fn finish_recorded(ts: Seq<TaskView>, s: SimState) -> bool {
    &&& s.finish.len() == ts.len()
    &&& forall|x: int| 0 <= x < ts.len() && #[trigger] s.finish[x] is Some ==> {
        ||| ts[x].operation == OperationType::Load && s.finish[x]->0 == 0
        ||| exists|i: int| 0 <= i < s.schedule.len() && #[trigger] s.schedule[i].task_id == x && s.schedule[i].end == s.finish[x]->0
    }
}

/// What a tick keeps of the state it started from: its schedule stays a
/// prefix.
spec fn extends(s0: SimState, s: SimState) -> bool {
    &&& s0.schedule.len() <= s.schedule.len()
    &&& forall|i: int| 0 <= i < s0.schedule.len() ==> #[trigger] s.schedule[i] == s0.schedule[i]
}

proof fn lemma_place_respects(ts: Seq<TaskView>, time: TimeConfiguration, s0: SimState, s: SimState, id: int)
    requires
        finish_recorded(ts, s0),
        finish_recorded(ts, s),
        respects_dependencies(ts, s.schedule),
        extends(s0, s),
        s.tick == s0.tick,
        0 <= id < ts.len(),
        is_ready(ts, s0.finish, s0.tick, id),
    ensures
        finish_recorded(ts, place(ts, time, s, id)),
        respects_dependencies(ts, place(ts, time, s, id).schedule),
        extends(s0, place(ts, time, s, id)),
        place(ts, time, s, id).tick == s0.tick,
{
    let r = place(ts, time, s, id);
    if r != s {
        let j = s.schedule.len() as int;
        assert(r.schedule == s.schedule.push(r.schedule[j]));
        assert(r.schedule[j].task_id == id && r.schedule[j].start == s0.tick);
        assert forall|x: int| 0 <= x < ts.len() && #[trigger] r.finish[x] is Some implies {
            ||| ts[x].operation == OperationType::Load && r.finish[x]->0 == 0
            ||| exists|i: int| 0 <= i < r.schedule.len() && #[trigger] r.schedule[i].task_id == x && r.schedule[i].end == r.finish[x]->0
        } by {
            if x == id {
                assert(r.schedule[j].task_id == x);
            } else {
                assert(r.finish[x] == s.finish[x]);
                if !(ts[x].operation == OperationType::Load && s.finish[x]->0 == 0) {
                    let i = choose|i: int| 0 <= i < s.schedule.len() && #[trigger] s.schedule[i].task_id == x && s.schedule[i].end == s.finish[x]->0;
                    assert(r.schedule[i] == s.schedule[i]);
                }
            }
        }
        assert forall|jj: int| 0 <= jj < r.schedule.len() implies {
            &&& 0 <= #[trigger] r.schedule[jj].task_id < ts.len()
            &&& forall|k: int| 0 <= k < ts[r.schedule[jj].task_id].dependencies.len()
                ==> dependency_met(ts, r.schedule, jj, #[trigger] ts[r.schedule[jj].task_id].dependencies[k])
        } by {
            if jj < j {
                assert(r.schedule[jj] == s.schedule[jj]);
                assert forall|k: int| 0 <= k < ts[r.schedule[jj].task_id].dependencies.len()
                    implies dependency_met(ts, r.schedule, jj, #[trigger] ts[r.schedule[jj].task_id].dependencies[k]) by {
                    let d = ts[s.schedule[jj].task_id].dependencies[k];
                    assert(dependency_met(ts, s.schedule, jj, d));
                    if ts[d].operation != OperationType::Load {
                        let i = choose|i: int| 0 <= i < jj && #[trigger] s.schedule[i].task_id == d && s.schedule[i].end <= s.schedule[jj].start;
                        assert(r.schedule[i] == s.schedule[i]);
                    }
                }
            } else {
                assert forall|k: int| 0 <= k < ts[r.schedule[jj].task_id].dependencies.len()
                    implies dependency_met(ts, r.schedule, jj, #[trigger] ts[r.schedule[jj].task_id].dependencies[k]) by {
                    let d = ts[id].dependencies[k];
                    assert(dependency_done(s0.finish, d, s0.tick));
                    if ts[d].operation != OperationType::Load || s0.finish[d]->0 != 0 {
                        let i = choose|i: int| 0 <= i < s0.schedule.len() && #[trigger] s0.schedule[i].task_id == d && s0.schedule[i].end == s0.finish[d]->0;
                        assert(r.schedule[i] == s0.schedule[i]);
                        assert(r.schedule[i].task_id == d && r.schedule[i].end <= r.schedule[jj].start);
                    }
                }
            }
        }
    }
}

proof fn lemma_place_all_respects(ts: Seq<TaskView>, time: TimeConfiguration, s0: SimState, order: Seq<int>)
    requires
        finish_recorded(ts, s0),
        respects_dependencies(ts, s0.schedule),
        forall|k: int| 0 <= k < order.len() ==> 0 <= #[trigger] order[k] < ts.len() && is_ready(ts, s0.finish, s0.tick, order[k]),
    ensures
        finish_recorded(ts, place_all(ts, time, s0, order)),
        respects_dependencies(ts, place_all(ts, time, s0, order).schedule),
        extends(s0, place_all(ts, time, s0, order)),
        place_all(ts, time, s0, order).tick == s0.tick,
    decreases order.len(),
{
    if order.len() > 0 {
        lemma_place_all_respects(ts, time, s0, order.drop_last());
        assert(order.last() == order[order.len() - 1]);
        lemma_place_respects(ts, time, s0, place_all(ts, time, s0, order.drop_last()), order.last());
    }
}

proof fn lemma_ready_ids_ready(ts: Seq<TaskView>, finish: Seq<Option<int>>, tick: int, n: int)
    ensures
        forall|k: int| 0 <= k < ready_ids(ts, finish, tick, n).len() ==>
            is_ready(ts, finish, tick, #[trigger] ready_ids(ts, finish, tick, n)[k]),
    decreases n,
{
    if n > 0 {
        lemma_ready_ids_ready(ts, finish, tick, n - 1);
        let prev = ready_ids(ts, finish, tick, n - 1);
        assert forall|k: int| 0 <= k < ready_ids(ts, finish, tick, n).len() implies
            is_ready(ts, finish, tick, #[trigger] ready_ids(ts, finish, tick, n)[k]) by {
            if k < prev.len() {
                assert(ready_ids(ts, finish, tick, n)[k] == prev[k]);
            }
        }
    }
}

proof fn lemma_tick_step_respects(ts: Seq<TaskView>, config: SystemConfiguration, s: SimState)
    requires
        finish_recorded(ts, s),
        respects_dependencies(ts, s.schedule),
    ensures
        finish_recorded(ts, tick_step(ts, config, s)),
        respects_dependencies(ts, tick_step(ts, config, s).schedule),
{
    let ids = ready_ids(ts, s.finish, s.tick, ts.len() as int);
    let order = ready_order(ts, config.time, s.finish, s.tick);
    lemma_ready_ids_bound(ts, s.finish, s.tick, ts.len() as int);
    lemma_ready_ids_ready(ts, s.finish, s.tick, ts.len() as int);
    lemma_sort_le_members(ids, |a: int, b: int| goes_before(ts, config.time, a, b));
    assert forall|k: int| 0 <= k < order.len() implies 0 <= #[trigger] order[k] < ts.len() && is_ready(ts, s.finish, s.tick, order[k]) by {
        assert(ids.contains(order[k]));
        let w = choose|w: int| 0 <= w < ids.len() && ids[w] == order[k];
        assert(ids[w] == order[k]);
    }
    lemma_place_all_respects(ts, config.time, s, order);
    let placed = place_all(ts, config.time, s, order);
    let next = tick_step(ts, config, s);
    assert(next.finish == placed.finish && next.schedule == placed.schedule);
}

proof fn lemma_simulate_from_respects(ts: Seq<TaskView>, config: SystemConfiguration, s: SimState)
    requires
        finish_recorded(ts, s),
        respects_dependencies(ts, s.schedule),
    ensures
        respects_dependencies(ts, simulate_from(ts, config, s).schedule),
    decreases 10001 - s.tick,
{
    let current = SimState { active: s.active.filter(in_flight(s.tick)), ..s };
    assert(current.finish == s.finish && current.schedule == s.schedule);
    if !(all_started(current.finish) && current.active.len() == 0) {
        let next = tick_step(ts, config, current);
        lemma_tick_step_respects(ts, config, current);
        if !(next.tick > 10000 || s.tick >= 10000) {
            lemma_simulate_from_respects(ts, config, next);
        }
    }
}

/// A computation starts only once what it needs is there: in the schedule
/// that simulating gives, every task that a computation depends on is a
/// load or was computed by an earlier computation that ended no later than
/// the dependent one started.
pub proof fn law_dependencies_finish_first(ts: Seq<TaskView>, config: SystemConfiguration)
    ensures
        respects_dependencies(ts, simulation(ts, config).schedule),
{
    let s = initial_state(ts, config);
    assert(finish_recorded(ts, s));
    lemma_simulate_from_respects(ts, config, s);
}

/// A schedule in which each computation is of a task that is not a load, on
/// a unit of its task's class; no task is computed twice; and a unit takes
/// at most one input per tick, its inputs in the order they were started.
pub open spec fn schedule_sound(ts: Seq<TaskView>, sch: Seq<ScheduledView>) -> bool {
    &&& forall|j: int| 0 <= j < sch.len() ==> {
        &&& 0 <= #[trigger] sch[j].task_id < ts.len()
        &&& sch[j].processor_type == ts[sch[j].task_id].operation
        &&& sch[j].processor_type != OperationType::Load
    }
    &&& forall|i: int, j: int| 0 <= i < j < sch.len() ==> #[trigger] sch[i].task_id != #[trigger] sch[j].task_id
    &&& forall|i: int, j: int|
        0 <= i < j < sch.len() && #[trigger] sch[i].processor_type == #[trigger] sch[j].processor_type
            && sch[i].processor_index == sch[j].processor_index ==> sch[i].start < sch[j].start
}

/// The schedule is sound, every computation's task has started and its
/// unit has been busy since the computation started, which was no later
/// than now.
spec fn placed_well(ts: Seq<TaskView>, s: SimState) -> bool {
    &&& s.finish.len() == ts.len()
    &&& s.units.len() == 4
    &&& schedule_sound(ts, s.schedule)
    &&& forall|j: int| 0 <= j < s.schedule.len() ==> {
        &&& s.finish[(#[trigger] s.schedule[j]).task_id] is Some
        &&& s.schedule[j].start <= s.tick
        &&& 0 <= s.schedule[j].processor_index < s.units[class_index(s.schedule[j].processor_type)].len()
        &&& s.units[class_index(s.schedule[j].processor_type)][s.schedule[j].processor_index] >= s.schedule[j].start + 1
    }
}

proof fn lemma_first_free_unit(units: Seq<int>, tick: int)
    ensures
        0 <= first_free(units, tick) <= units.len(),
        first_free(units, tick) < units.len() ==> units[first_free(units, tick)] <= tick,
    decreases units.len(),
{
    if units.len() > 0 && units[0] > tick {
        lemma_first_free_unit(units.drop_first(), tick);
    }
}

proof fn lemma_place_well(ts: Seq<TaskView>, time: TimeConfiguration, s: SimState, id: int)
    requires
        placed_well(ts, s),
        0 <= id < ts.len(),
        s.finish[id] is None,
    ensures
        placed_well(ts, place(ts, time, s, id)),
        place(ts, time, s, id).tick == s.tick,
        forall|x: int| 0 <= x < ts.len() && x != id ==> #[trigger] place(ts, time, s, id).finish[x] == s.finish[x],
{
    let r = place(ts, time, s, id);
    let op = ts[id].operation;
    if op != OperationType::Load {
        let c = class_index(op);
        let u = first_free(s.units[c], s.tick);
        lemma_first_free_unit(s.units[c], s.tick);
        if u < s.units[c].len() {
            let j = s.schedule.len() as int;
            let e = r.schedule[j];
            assert(r.schedule == s.schedule.push(e));
            assert(e.task_id == id && e.start == s.tick && e.processor_type == op && e.processor_index == u);
            assert forall|jj: int| 0 <= jj < r.schedule.len() implies {
                &&& r.finish[(#[trigger] r.schedule[jj]).task_id] is Some
                &&& r.schedule[jj].start <= r.tick
                &&& 0 <= r.schedule[jj].processor_index < r.units[class_index(r.schedule[jj].processor_type)].len()
                &&& r.units[class_index(r.schedule[jj].processor_type)][r.schedule[jj].processor_index] >= r.schedule[jj].start + 1
            } by {
                if jj < j {
                    assert(r.schedule[jj] == s.schedule[jj]);
                }
            }
            assert forall|a: int, b: int| 0 <= a < b < r.schedule.len() implies #[trigger] r.schedule[a].task_id
                != #[trigger] r.schedule[b].task_id by {
                assert(r.schedule[a] == s.schedule[a]);
                if b < j {
                    assert(r.schedule[b] == s.schedule[b]);
                } else {
                    assert(s.finish[s.schedule[a].task_id] is Some);
                }
            }
            assert forall|a: int, b: int|
                0 <= a < b < r.schedule.len() && #[trigger] r.schedule[a].processor_type
                    == #[trigger] r.schedule[b].processor_type && r.schedule[a].processor_index
                    == r.schedule[b].processor_index implies r.schedule[a].start < r.schedule[b].start by {
                assert(r.schedule[a] == s.schedule[a]);
                if b < j {
                    assert(r.schedule[b] == s.schedule[b]);
                } else {
                    assert(s.units[c][u] >= s.schedule[a].start + 1);
                }
            }
            assert forall|jj: int| 0 <= jj < r.schedule.len() implies {
                &&& 0 <= #[trigger] r.schedule[jj].task_id < ts.len()
                &&& r.schedule[jj].processor_type == ts[r.schedule[jj].task_id].operation
                &&& r.schedule[jj].processor_type != OperationType::Load
            } by {
                if jj < j {
                    assert(r.schedule[jj] == s.schedule[jj]);
                }
            }
        }
    }
}

proof fn lemma_place_all_well(ts: Seq<TaskView>, time: TimeConfiguration, s0: SimState, order: Seq<int>)
    requires
        placed_well(ts, s0),
        order.no_duplicates(),
        forall|k: int| 0 <= k < order.len() ==> 0 <= #[trigger] order[k] < ts.len() && s0.finish[order[k]] is None,
    ensures
        placed_well(ts, place_all(ts, time, s0, order)),
        place_all(ts, time, s0, order).tick == s0.tick,
        forall|x: int| 0 <= x < ts.len() && !order.contains(x) ==> #[trigger] place_all(ts, time, s0, order).finish[x] == s0.finish[x],
    decreases order.len(),
{
    if order.len() > 0 {
        let prev = order.drop_last();
        let id = order.last();
        assert(prev.no_duplicates()) by {
            assert forall|a: int, b: int| 0 <= a < prev.len() && 0 <= b < prev.len() && a != b implies prev[a] != prev[b] by {
                assert(prev[a] == order[a] && prev[b] == order[b]);
            }
        }
        assert forall|k: int| 0 <= k < prev.len() implies 0 <= #[trigger] prev[k] < ts.len() && s0.finish[prev[k]] is None by {
            assert(prev[k] == order[k]);
        }
        lemma_place_all_well(ts, time, s0, prev);
        let mid = place_all(ts, time, s0, prev);
        assert(!prev.contains(id)) by {
            if prev.contains(id) {
                let w = choose|w: int| 0 <= w < prev.len() && prev[w] == id;
                assert(order[w] == order[order.len() - 1]);
            }
        }
        assert(order[order.len() - 1] == id);
        assert(mid.finish[id] == s0.finish[id]);
        lemma_place_well(ts, time, mid, id);
        assert forall|x: int| 0 <= x < ts.len() && !order.contains(x) implies #[trigger] place_all(ts, time, s0, order).finish[x] == s0.finish[x] by {
            if prev.contains(x) {
                let w = choose|w: int| 0 <= w < prev.len() && prev[w] == x;
                assert(order[w] == x);
            }
            assert(x != id);
        }
    }
}

proof fn lemma_ready_ids_increasing(ts: Seq<TaskView>, finish: Seq<Option<int>>, tick: int, n: int)
    ensures
        ready_ids(ts, finish, tick, n).no_duplicates(),
        forall|k: int| 0 <= k < ready_ids(ts, finish, tick, n).len() ==> #[trigger] ready_ids(ts, finish, tick, n)[k] < n,
    decreases n,
{
    if n > 0 {
        lemma_ready_ids_increasing(ts, finish, tick, n - 1);
        let prev = ready_ids(ts, finish, tick, n - 1);
        let cur = ready_ids(ts, finish, tick, n);
        assert forall|k: int| 0 <= k < cur.len() implies #[trigger] cur[k] < n by {
            if k < prev.len() {
                assert(cur[k] == prev[k]);
            }
        }
        assert forall|a: int, b: int| 0 <= a < cur.len() && 0 <= b < cur.len() && a != b implies cur[a] != cur[b] by {
            if a < prev.len() && b < prev.len() {
                assert(cur[a] == prev[a] && cur[b] == prev[b]);
            } else if a < prev.len() {
                assert(cur[a] == prev[a]);
            } else if b < prev.len() {
                assert(cur[b] == prev[b]);
            }
        }
    }
}

proof fn lemma_tick_step_well(ts: Seq<TaskView>, config: SystemConfiguration, s: SimState)
    requires
        placed_well(ts, s),
    ensures
        placed_well(ts, tick_step(ts, config, s)),
{
    let ids = ready_ids(ts, s.finish, s.tick, ts.len() as int);
    let le = |a: int, b: int| goes_before(ts, config.time, a, b);
    let order = ready_order(ts, config.time, s.finish, s.tick);
    lemma_ready_ids_bound(ts, s.finish, s.tick, ts.len() as int);
    lemma_ready_ids_ready(ts, s.finish, s.tick, ts.len() as int);
    lemma_ready_ids_increasing(ts, s.finish, s.tick, ts.len() as int);
    lemma_sort_le_members(ids, le);
    lemma_sort_le_multiset(ids, le);
    ids.lemma_multiset_has_no_duplicates();
    order.lemma_multiset_has_no_duplicates_conv();
    assert forall|k: int| 0 <= k < order.len() implies 0 <= #[trigger] order[k] < ts.len() && s.finish[order[k]] is None by {
        assert(ids.contains(order[k]));
        let w = choose|w: int| 0 <= w < ids.len() && ids[w] == order[k];
        assert(ids[w] == order[k]);
        assert(is_ready(ts, s.finish, s.tick, ids[w]));
    }
    lemma_place_all_well(ts, config.time, s, order);
    let placed = place_all(ts, config.time, s, order);
    let next = tick_step(ts, config, s);
    assert(next.finish == placed.finish && next.schedule == placed.schedule && next.units == placed.units);
    assert(next.tick == placed.tick + 1);
    assert forall|j: int| 0 <= j < next.schedule.len() implies {
        &&& next.finish[(#[trigger] next.schedule[j]).task_id] is Some
        &&& next.schedule[j].start <= next.tick
        &&& 0 <= next.schedule[j].processor_index < next.units[class_index(next.schedule[j].processor_type)].len()
        &&& next.units[class_index(next.schedule[j].processor_type)][next.schedule[j].processor_index] >= next.schedule[j].start + 1
    } by {
        assert(next.schedule[j] == placed.schedule[j]);
    }
}

proof fn lemma_simulate_from_well(ts: Seq<TaskView>, config: SystemConfiguration, s: SimState)
    requires
        placed_well(ts, s),
    ensures
        placed_well(ts, simulate_from(ts, config, s)),
    decreases 10001 - s.tick,
{
    let current = SimState { active: s.active.filter(in_flight(s.tick)), ..s };
    assert(placed_well(ts, current));
    if !(all_started(current.finish) && current.active.len() == 0) {
        let next = tick_step(ts, config, current);
        lemma_tick_step_well(ts, config, current);
        if !(next.tick > 10000 || s.tick >= 10000) {
            lemma_simulate_from_well(ts, config, next);
        }
    }
}

/// The schedule that simulating gives is sound: each computation is of a
/// task that is not a load, on a unit of its class; no task is computed
/// twice; a unit takes at most one input per tick; and where every task
/// has started, every task that is not a load was computed.
pub proof fn law_schedule_sound(ts: Seq<TaskView>, config: SystemConfiguration)
    ensures
        schedule_sound(ts, simulation(ts, config).schedule),
        all_started(simulation(ts, config).finish) ==> forall|x: int|
            0 <= x < ts.len() && ts[x].operation != OperationType::Load ==> exists|i: int|
                0 <= i < simulation(ts, config).schedule.len() && #[trigger] simulation(ts, config).schedule[i].task_id == x,
{
    let s = initial_state(ts, config);
    assert(placed_well(ts, s));
    lemma_simulate_from_well(ts, config, s);
    assert(finish_recorded(ts, s));
    lemma_simulate_from_recorded(ts, config, s);
    let r = simulation(ts, config);
    if all_started(r.finish) {
        assert forall|x: int| 0 <= x < ts.len() && ts[x].operation != OperationType::Load implies exists|i: int|
            0 <= i < r.schedule.len() && #[trigger] r.schedule[i].task_id == x by {
            assert(r.finish[x] is Some);
        }
    }
}

proof fn lemma_simulate_from_recorded(ts: Seq<TaskView>, config: SystemConfiguration, s: SimState)
    requires
        finish_recorded(ts, s),
        respects_dependencies(ts, s.schedule),
    ensures
        finish_recorded(ts, simulate_from(ts, config, s)),
    decreases 10001 - s.tick,
{
    let current = SimState { active: s.active.filter(in_flight(s.tick)), ..s };
    assert(current.finish == s.finish && current.schedule == s.schedule);
    if !(all_started(current.finish) && current.active.len() == 0) {
        let next = tick_step(ts, config, current);
        lemma_tick_step_respects(ts, config, current);
        if !(next.tick > 10000 || s.tick >= 10000) {
            lemma_simulate_from_recorded(ts, config, next);
        }
    }
}

/// What simulating a tree gives: the computations started, the record of
/// each tick, the sequential time `t1` (the total execution time of all
/// computations), the parallel time `tp` (when the last one ends), and the
/// configuration simulated.
pub struct SimulationResult {
    pub schedule: Vec<ScheduledTask>,
    pub tick_logs: Vec<TickLog>,
    pub t1: usize,
    pub tp: usize,
    pub configuration: SystemConfiguration,
}

/// Simulates evaluating a tree on a configured system.
pub struct VectorSystemSimulator<'a> {
    ast: &'a AbstractSyntaxTree<String>,
    configuration: &'a SystemConfiguration,
}

/// The tasks of a tree, by number.
pub open spec fn tree_tasks(ast: AbstractSyntaxTree<String>) -> Seq<TaskView> {
    flattened(ast.peek.view_node(), Seq::empty()).tasks
}

/// The conditions under which the schedule can be computed: numbering the
/// tasks fits in `usize`, a computation started by tick 10000 ends within
/// `usize`, and every long task name can be cut after 12 bytes.
pub open spec fn runnable(ast: AbstractSyntaxTree<String>, config: SystemConfiguration) -> bool {
    &&& task_count(ast.peek.view_node()) <= usize::MAX
    &&& latencies_bounded(config.time)
    &&& forall|i: int| 0 <= i < tree_tasks(ast).len() ==> name_cuttable(#[trigger] tree_tasks(ast)[i].name)
}

/// The conditions under which simulating runs without overflow or panic:
/// the schedule can be computed, and the total work fits in `usize`.
pub open spec fn simulable(ast: AbstractSyntaxTree<String>, config: SystemConfiguration) -> bool {
    &&& runnable(ast, config)
    &&& total_work(simulation(tree_tasks(ast), config).schedule) <= usize::MAX
}

/// The number of tasks of `node`, where it fits in `usize`.
fn count_tasks(node: &AstNode<String>) -> (r: Option<usize>)
    ensures
        r is Some <==> task_count(node.view_node()) <= usize::MAX,
        r is Some ==> r->0 == task_count(node.view_node()),
    decreases node,
{
    match node {
        AstNode::UnaryOperation { expression, .. } => match count_tasks(expression) {
            Some(c) => c.checked_add(1),
            None => None,
        },
        AstNode::BinaryOperation { left, right, .. } => match (count_tasks(left), count_tasks(right)) {
            (Some(a), Some(b)) => match a.checked_add(b) {
                Some(c) => c.checked_add(1),
                None => None,
            },
            _ => None,
        },
        _ => Some(1),
    }
}

/// Whether a task name can be shown in a pipeline (see [`name_cuttable`]).
fn is_cuttable(name: &String) -> (r: bool)
    ensures
        r == name_cuttable(name@),
{
    let chars = crate::chars::collect_chars(name.as_str());
    let mut bytes: usize = 0;
    let mut found = false;
    let mut k: usize = 0;
    assert(chars@.take(0) =~= Seq::<char>::empty());
    while k < chars.len() && bytes <= 15
        invariant
            chars@ == name@,
            k <= chars.len(),
            bytes == utf8_length(chars@.take(k as int)),
            bytes <= 19,
            found ==> exists|j: int| 0 <= j <= k && utf8_length(#[trigger] chars@.take(j)) == 12,
            !found ==> forall|j: int| 0 <= j <= k ==> utf8_length(#[trigger] chars@.take(j)) != 12,
        decreases chars.len() - k,
    {
        proof {
            assert(chars@.take(k + 1).drop_last() =~= chars@.take(k as int));
        }
        bytes = bytes + char_width(chars[k]);
        k += 1;
        if !found && bytes == 12 {
            found = true;
        }
    }
    proof {
        if k < chars.len() {
            lemma_utf8_length_grows(name@, k as int, chars.len() as int);
        }
        assert(chars@.take(chars.len() as int) =~= chars@);
        if bytes > 15 && !found && has_boundary(name@, 12) {
            let c = choose|c: int| 0 <= c <= name@.len() && utf8_length(name@.take(c)) == 12;
            if k < c {
                lemma_utf8_length_grows(name@, k as int, c);
            }
            assert(utf8_length(chars@.take(c)) == 12);
        }
    }
    bytes <= 15 || found
}

/// When the last computation of `schedule` ends, and its total work where
/// that fits in `usize`.
fn finish_and_work(schedule: &Vec<ScheduledTask>) -> (r: (usize, Option<usize>))
    requires
        forall|j: int| 0 <= j < schedule@.len() ==> #[trigger] schedule@[j].start_time <= schedule@[j].end_time,
    ensures
        r.0 == last_finish(scheduled_views(schedule@)),
        r.1 is Some <==> total_work(scheduled_views(schedule@)) <= usize::MAX,
        r.1 is Some ==> r.1->0 == total_work(scheduled_views(schedule@)),
{
    let ghost sv = scheduled_views(schedule@);
    let mut tp: usize = 0;
    let mut k: usize = 0;
    assert(sv.take(0) =~= Seq::<ScheduledView>::empty());
    while k < schedule.len()
        invariant
            sv == scheduled_views(schedule@),
            k <= schedule.len(),
            tp == last_finish(sv.take(k as int)),
        decreases schedule.len() - k,
    {
        assert(sv.take(k + 1).drop_last() =~= sv.take(k as int));
        if schedule[k].end_time > tp {
            tp = schedule[k].end_time;
        }
        k += 1;
    }
    assert(sv.take(schedule.len() as int) =~= sv);
    assert forall|j: int| 0 <= j < sv.len() implies #[trigger] sv[j].start <= sv[j].end by {
        assert(sv[j].start == schedule@[j].start_time && sv[j].end == schedule@[j].end_time);
    }
    let mut t1: usize = 0;
    let mut k: usize = 0;
    while k < schedule.len()
        invariant
            sv == scheduled_views(schedule@),
            k <= schedule.len(),
            forall|j: int| 0 <= j < sv.len() ==> #[trigger] sv[j].start <= sv[j].end,
            t1 == total_work(sv.take(k as int)),
            tp == last_finish(sv),
        decreases schedule.len() - k,
    {
        assert(sv.take(k + 1).drop_last() =~= sv.take(k as int));
        proof {
            lemma_total_work_prefix(sv, k + 1);
        }
        match t1.checked_add(schedule[k].end_time - schedule[k].start_time) {
            Some(t) => {
                t1 = t;
            },
            None => {
                return (tp, None);
            },
        }
        k += 1;
    }
    assert(sv.take(schedule.len() as int) =~= sv);
    (tp, Some(t1))
}

fn copy_configuration(c: &SystemConfiguration) -> (r: SystemConfiguration)
    ensures
        r == *c,
{
    SystemConfiguration {
        time: TimeConfiguration { add: c.time.add, sub: c.time.sub, mul: c.time.mul, div: c.time.div },
        processors: ProcessorConfiguration {
            add: c.processors.add,
            sub: c.processors.sub,
            mul: c.processors.mul,
            div: c.processors.div,
        },
    }
}

proof fn lemma_total_work_prefix(s: Seq<ScheduledView>, k: int)
    requires
        0 <= k <= s.len(),
        forall|j: int| 0 <= j < s.len() ==> #[trigger] s[j].start <= s[j].end,
    ensures
        0 <= total_work(s.take(k)) <= total_work(s),
    decreases s.len() - k,
{
    let t = s.take(k);
    assert forall|j: int| 0 <= j < t.len() implies #[trigger] t[j].start <= t[j].end by {
        assert(t[j] == s[j]);
    }
    lemma_total_work_nonnegative(t);
    if k < s.len() {
        lemma_total_work_prefix(s, k + 1);
        assert(s.take(k + 1).drop_last() =~= s.take(k));
        assert(s.take(k + 1).last() == s[k]);
        assert(s[k].start <= s[k].end);
    } else {
        assert(s.take(k) =~= s);
    }
}

proof fn lemma_total_work_nonnegative(s: Seq<ScheduledView>)
    requires
        forall|j: int| 0 <= j < s.len() ==> #[trigger] s[j].start <= s[j].end,
    ensures
        total_work(s) >= 0,
    decreases s.len(),
{
    if s.len() > 0 {
        lemma_total_work_nonnegative(s.drop_last());
    }
}

impl<'a> VectorSystemSimulator<'a> {
    pub closed spec fn tree(&self) -> AbstractSyntaxTree<String> {
        *self.ast
    }

    pub closed spec fn config(&self) -> SystemConfiguration {
        *self.configuration
    }

    /// A simulator of `ast` on `configuration`.
    pub fn new(ast: &'a AbstractSyntaxTree<String>, configuration: &'a SystemConfiguration) -> (r: Self)
        ensures
            r.tree() == *ast,
            r.config() == *configuration,
    {
        Self { ast, configuration }
    }

    /// Runs the simulation (see [`simulation`]) of the tree's tasks.
    pub fn simulate(&self) -> (r: SimulationResult)
        requires
            simulable(self.tree(), self.config()),
        ensures
            scheduled_views(r.schedule@) == simulation(tree_tasks(self.tree()), self.config()).schedule,
            log_views(r.tick_logs@) == simulation(tree_tasks(self.tree()), self.config()).logs,
            r.t1 == total_work(simulation(tree_tasks(self.tree()), self.config()).schedule),
            r.tp == last_finish(simulation(tree_tasks(self.tree()), self.config()).schedule),
            r.configuration == self.config(),
    {
        let tasks = flatten_ast(self.ast);
        let (schedule, tick_logs) = self.run_pipelined_scheduling(&tasks);
        let (tp, work) = finish_and_work(&schedule);
        let t1 = work.unwrap();
        SimulationResult { schedule, tick_logs, t1, tp, configuration: copy_configuration(self.configuration) }
    }

    /// Runs the simulation where it can run (see [`simulable`]), and gives
    /// `None` where it cannot: a tree with more tasks than `usize` numbers,
    /// a latency that could overflow, a long task name that cannot be cut
    /// after 12 bytes, or a total work over `usize`.
    pub fn try_simulate(&self) -> (r: Option<SimulationResult>)
        ensures
            r is Some <==> simulable(self.tree(), self.config()),
            r is Some ==> scheduled_views(r->Some_0.schedule@) == simulation(tree_tasks(self.tree()), self.config()).schedule,
            r is Some ==> log_views(r->Some_0.tick_logs@) == simulation(tree_tasks(self.tree()), self.config()).logs,
            r is Some ==> r->Some_0.t1 == total_work(simulation(tree_tasks(self.tree()), self.config()).schedule),
            r is Some ==> r->Some_0.tp == last_finish(simulation(tree_tasks(self.tree()), self.config()).schedule),
            r is Some ==> r->Some_0.configuration == self.config(),
    {
        if count_tasks(&self.ast.peek).is_none() {
            return None;
        }
        let time = &self.configuration.time;
        if time.add > usize::MAX - 10001 || time.sub > usize::MAX - 10001 || time.mul > usize::MAX - 10001 || time.div
            > usize::MAX - 10001 {
            return None;
        }
        let tasks = flatten_ast(self.ast);
        let ghost ts = tree_tasks(self.tree());
        let mut k: usize = 0;
        while k < tasks.len()
            invariant
                ts == tree_tasks(self.tree()),
                task_views(tasks@) == ts,
                k <= tasks.len(),
                forall|j: int| 0 <= j < k ==> name_cuttable(#[trigger] ts[j].name),
            decreases tasks.len() - k,
        {
            assert(ts[k as int] == tasks@[k as int].task_view());
            if !is_cuttable(&tasks[k].display_name) {
                assert(!name_cuttable(tree_tasks(self.tree())[k as int].name));
                return None;
            }
            k += 1;
        }
        let (schedule, tick_logs) = self.run_pipelined_scheduling(&tasks);
        let (tp, work) = finish_and_work(&schedule);
        match work {
            Some(t1) => Some(
                SimulationResult { schedule, tick_logs, t1, tp, configuration: copy_configuration(self.configuration) },
            ),
            None => None,
        }
    }

    /// Ticks until every task has started and every computation ended, or
    /// until tick 10001 (see [`simulate_from`]).
    fn run_pipelined_scheduling(&self, tasks: &Vec<Task>) -> (r: (Vec<ScheduledTask>, Vec<TickLog>))
        requires
            task_views(tasks@) == tree_tasks(self.tree()),
            runnable(self.tree(), self.config()),
        ensures
            scheduled_views(r.0@) == simulation(tree_tasks(self.tree()), self.config()).schedule,
            log_views(r.1@) == simulation(tree_tasks(self.tree()), self.config()).logs,
            forall|j: int| 0 <= j < r.0@.len() ==> #[trigger] r.0@[j].start_time <= r.0@[j].end_time,
    {
        let ghost ts = task_views(tasks@);
        let ghost config = self.config();
        let time = &self.configuration.time;
        let processors = &self.configuration.processors;
        let n = tasks.len();
        let mut finish: Vec<Option<usize>> = Vec::new();
        let mut i: usize = 0;
        while i < n
            invariant
                n == tasks.len(),
                i <= n,
                finish@.len() == i,
                forall|j: int| 0 <= j < i ==> #[trigger] finish_view(finish@)[j] == (if ts[j].operation == OperationType::Load {
                    Some(0int)
                } else {
                    None
                }),
                ts == task_views(tasks@),
            decreases n - i,
        {
            let ghost before = finish@;
            if tasks[i].operation_type == OperationType::Load {
                finish.push(Some(0));
            } else {
                finish.push(None);
            }
            assert forall|j: int| 0 <= j < i + 1 implies #[trigger] finish_view(finish@)[j] == (if ts[j].operation
                == OperationType::Load {
                Some(0int)
            } else {
                None
            }) by {
                if j < i {
                    assert(finish@[j] == before[j]);
                    assert(finish_view(finish@)[j] == finish_view(before)[j]);
                }
            }
            i += 1;
        }
        let units = Units {
            add: zeros(processors.add),
            sub: zeros(processors.sub),
            mul: zeros(processors.mul),
            div: zeros(processors.div),
        };
        let mut m = Machine { tick: 0, finish, units, active: Vec::new(), schedule: Vec::new(), logs: Vec::new() };
        assert forall|j: int| 0 <= j < tasks@.len() implies name_cuttable(#[trigger] tasks@[j].display_name@) by {
            assert(ts[j] == tasks@[j].task_view());
            assert(tree_tasks(self.tree())[j] == ts[j]);
            assert(name_cuttable(tree_tasks(self.tree())[j].name));
        }
        proof {
            assert(finish_view(m.finish@) =~= initial_state(ts, config).finish);
            assert(m.units.units_view() =~= initial_state(ts, config).units);
            assert(activities(m.active@) =~= Seq::<Activity>::empty());
            assert(scheduled_views(m.schedule@) =~= Seq::<ScheduledView>::empty());
            assert(log_views(m.logs@) =~= Seq::<LogView>::empty());
            assert(m.state() =~= initial_state(ts, config));
        }
        loop
            invariant
                ts == task_views(tasks@),
                ts == tree_tasks(self.tree()),
                config == self.config(),
                *time == config.time,
                latencies_bounded(*time),
                forall|j: int| 0 <= j < tasks@.len() ==> name_cuttable(#[trigger] tasks@[j].display_name@),
                m.finish.len() == tasks.len(),
                m.tick <= 10000,
                forall|j: int| 0 <= j < m.active@.len() ==> #[trigger] m.active@[j].task < tasks.len(),
                forall|j: int| 0 <= j < m.schedule@.len() ==> #[trigger] m.schedule@[j].start_time <= m.schedule@[j].end_time,
                simulate_from(ts, config, m.state()) == simulation(ts, config),
            decreases 10001 - m.tick,
        {
            let ghost s = m.state();
            let mut taken: Vec<Running> = Vec::new();
            std::mem::swap(&mut taken, &mut m.active);
            m.active = retain_running(taken, m.tick, tasks.len());
            let ghost current = m.state();
            assert(current == SimState { active: s.active.filter(in_flight(s.tick)), ..s });
            if all_tasks_started(&m.finish) && m.active.len() == 0 {
                return (m.schedule, m.logs);
            }
            let ready = ready_tasks(tasks, &m.finish, m.tick);
            proof {
                lemma_ready_ids_bound(ts, finish_view(m.finish@), m.tick as int, tasks.len() as int);
                assert forall|j: int| 0 <= j < ready@.len() implies #[trigger] ready@[j] < tasks.len() by {
                    assert(ints(ready@)[j] == ready@[j] as int);
                }
            }
            let order = order_ready(tasks, time, ready);
            let mut ready_queue: Vec<String> = Vec::new();
            let mut k: usize = 0;
            while k < order.len()
                invariant
                    k <= order.len(),
                    forall|j: int| 0 <= j < order@.len() ==> #[trigger] order@[j] < tasks.len(),
                    ts == task_views(tasks@),
                    string_views(ready_queue@) == names(ts, ints(order@)).take(k as int),
                decreases order.len() - k,
            {
                let name = tasks[order[k]].display_name.clone();
                let ghost before = ready_queue@;
                assert(ts[order@[k as int] as int] == tasks@[order@[k as int] as int].task_view());
                assert(names(ts, ints(order@))[k as int] == name@);
                ready_queue.push(name);
                assert(string_views(ready_queue@) =~= string_views(before).push(name@));
                assert(names(ts, ints(order@)).take(k + 1) =~= names(ts, ints(order@)).take(k as int).push(name@));
                k += 1;
            }
            assert(names(ts, ints(order@)).take(order.len() as int) =~= names(ts, ints(order@)));
            place_tasks(&mut m, tasks, time, &order);
            let mut pipelines_state: Vec<(String, String)> = Vec::new();
            assert(pair_views(pipelines_state@) =~= Seq::<(Seq<char>, Seq<char>)>::empty());
            push_class_states(&mut pipelines_state, tasks, &m.active, OperationType::Add, m.units.add.len(), m.tick);
            push_class_states(&mut pipelines_state, tasks, &m.active, OperationType::Sub, m.units.sub.len(), m.tick);
            push_class_states(&mut pipelines_state, tasks, &m.active, OperationType::Mul, m.units.mul.len(), m.tick);
            push_class_states(&mut pipelines_state, tasks, &m.active, OperationType::Div, m.units.div.len(), m.tick);
            let log = TickLog { tick: m.tick, pipelines_state, ready_queue };
            let ghost logs_before = m.logs@;
            m.logs.push(log);
            m.tick += 1;
            proof {
                assert(log_views(m.logs@) =~= log_views(logs_before).push(log_view(log)));
                assert(m.state() =~= tick_step(ts, config, current));
            }
            if m.tick > 10000 {
                return (m.schedule, m.logs);
            }
        }
    }
}

/// The form to choose among simulated forms: the first one whose parallel
/// time `Tp` is the smallest.
pub fn optimal_form_index(tps: &Vec<usize>) -> (k: usize)
    requires
        tps.len() > 0,
    ensures
        k < tps.len(),
        forall|j: int| 0 <= j < tps.len() ==> tps[k as int] <= tps[j],
        forall|j: int| 0 <= j < k ==> tps[j] > tps[k as int],
{
    let mut best: usize = 0;
    let mut j: usize = 1;
    while j < tps.len()
        invariant
            best < j <= tps.len(),
            forall|i: int| 0 <= i < j ==> tps[best as int] <= tps[i],
            forall|i: int| 0 <= i < best ==> tps[i] > tps[best as int],
        decreases tps.len() - j,
    {
        if tps[j] < tps[best] {
            best = j;
        }
        j += 1;
    }
    best
}

} // verus!
