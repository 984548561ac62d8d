//! Configuration of a parallel computer system and the operation classes it
//! executes.
use vstd::prelude::*;
use crate::operations::BinaryOperationKind;

verus! {

/// Latencies, in ticks, of each operation class.
#[derive(Debug, Clone)]
pub struct TimeConfiguration {
    pub add: usize,
    pub sub: usize,
    pub mul: usize,
    pub div: usize,
}

/// Number of processor units of each operation class.
#[derive(Debug, Clone)]
pub struct ProcessorConfiguration {
    pub add: usize,
    pub sub: usize,
    pub mul: usize,
    pub div: usize,
}

/// A system: latencies and processor counts.
#[derive(Debug, Clone)]
pub struct SystemConfiguration {
    pub time: TimeConfiguration,
    pub processors: ProcessorConfiguration,
}

impl Default for TimeConfiguration {
    /// Addition and subtraction take 1 tick, multiplication 2, division 4.
    fn default() -> (r: Self)
        ensures
            r.add == 1 && r.sub == 1 && r.mul == 2 && r.div == 4,
    {
        TimeConfiguration { add: 1, sub: 1, mul: 2, div: 4 }
    }
}

impl Default for ProcessorConfiguration {
    /// One unit of each class.
    fn default() -> (r: Self)
        ensures
            r.add == 1 && r.sub == 1 && r.mul == 1 && r.div == 1,
    {
        ProcessorConfiguration { add: 1, sub: 1, mul: 1, div: 1 }
    }
}

impl Default for SystemConfiguration {
    /// Default latencies and one unit of each class.
    fn default() -> (r: Self)
        ensures
            r.time.add == 1 && r.time.sub == 1 && r.time.mul == 2 && r.time.div == 4,
            r.processors.add == 1 && r.processors.sub == 1 && r.processors.mul == 1
                && r.processors.div == 1,
    {
        SystemConfiguration { time: TimeConfiguration::default(), processors: ProcessorConfiguration::default() }
    }
}

impl ProcessorConfiguration {
    /// The number of all processor units.
    pub fn total(&self) -> (r: usize)
        requires
            self.add + self.sub + self.mul + self.div <= usize::MAX,
        ensures
            r == self.add + self.sub + self.mul + self.div,
    {
        self.add + self.sub + self.mul + self.div
    }
}

/// Classes of operations; `Load` stands for reading a value (no latency).
#[derive(Debug, Clone, Copy, PartialEq, Eq, Hash, Structural)]
pub enum OperationType {
    Add,
    Sub,
    Mul,
    Div,
    Load,
}

pub open spec fn latency_of(op: OperationType, time: TimeConfiguration) -> usize {
    match op {
        OperationType::Add => time.add,
        OperationType::Sub => time.sub,
        OperationType::Mul => time.mul,
        OperationType::Div => time.div,
        OperationType::Load => 0,
    }
}

pub open spec fn operation_of(kind: BinaryOperationKind) -> OperationType {
    match kind {
        BinaryOperationKind::Plus => OperationType::Add,
        BinaryOperationKind::Minus => OperationType::Sub,
        BinaryOperationKind::Multiply => OperationType::Mul,
        BinaryOperationKind::Divide => OperationType::Div,
        _ => OperationType::Load,
    }
}

pub open spec fn operation_name(op: OperationType) -> Seq<char> {
    match op {
        OperationType::Add => "ADD"@,
        OperationType::Sub => "SUB"@,
        OperationType::Mul => "MUL"@,
        OperationType::Div => "DIV"@,
        OperationType::Load => "LOAD"@,
    }
}

impl OperationType {
    /// The execution time, in ticks, of this class under `time_config`.
    pub fn latency(&self, time_config: &TimeConfiguration) -> (r: usize)
        ensures
            r == latency_of(*self, *time_config),
    {
        match self {
            Self::Add => time_config.add,
            Self::Sub => time_config.sub,
            Self::Mul => time_config.mul,
            Self::Div => time_config.div,
            Self::Load => 0,
        }
    }

    /// The class that executes an infix operator; logical operators load.
    pub fn from_binary(kind: &BinaryOperationKind) -> (r: Self)
        ensures
            r == operation_of(*kind),
    {
        match kind {
            BinaryOperationKind::Plus => Self::Add,
            BinaryOperationKind::Minus => Self::Sub,
            BinaryOperationKind::Multiply => Self::Mul,
            BinaryOperationKind::Divide => Self::Div,
            _ => OperationType::Load,
        }
    }

    /// The class's name, such as `ADD`.
    pub fn name(&self) -> (r: &'static str)
        ensures
            r@ == operation_name(*self),
    {
        match self {
            Self::Add => "ADD",
            Self::Sub => "SUB",
            Self::Mul => "MUL",
            Self::Div => "DIV",
            Self::Load => "LOAD",
        }
    }
}

/// A task placed on a processor unit.
#[derive(Debug, Clone)]
pub struct ScheduledTask {
    pub task_id: usize,
    pub name: String,
    pub start_time: usize,
    pub end_time: usize,
    pub processor_type: OperationType,
    pub processor_index: usize,
}

/// What the system did in one tick: the state of each processor unit, by
/// name, and the tasks ready to start, in the order they were considered.
/// The units are listed class by class (`ADD`, `SUB`, `MUL`, `DIV`), each
/// class by unit number.
#[derive(Debug, Clone)]
pub struct TickLog {
    pub tick: usize,
    pub pipelines_state: Vec<(String, String)>,
    pub ready_queue: Vec<String>,
}

} // verus!
