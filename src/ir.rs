//! The instruction model and its classification predicates.
use vstd::prelude::*;

verus! {

/// One instruction: a label marker, a value instruction (with `dest`) or an
/// effect instruction (with `op` and no `dest`).
#[derive(Debug, Clone, PartialEq, Eq)]
pub struct Instruction {
    pub op: Option<String>,
    pub dest: Option<String>,
    pub value: Option<i64>,
    pub type_: Option<String>,
    pub args: Vec<String>,
    pub labels: Vec<String>,
    pub label: Option<String>,
}

/// A formal parameter of a function.
#[derive(Debug, Clone, PartialEq, Eq)]
pub struct NamedArg {
    pub name: String,
    pub type_: String,
}

/// A function: its name, parameters and flat instruction list.
#[derive(Debug, Clone, PartialEq, Eq)]
pub struct Function {
    pub name: String,
    pub instrs: Vec<Instruction>,
    pub args: Vec<NamedArg>,
}

/// A whole program.
#[derive(Debug, Clone, PartialEq, Eq)]
pub struct Program {
    pub functions: Vec<Function>,
}

/// What makes the IR unusable by the pass.
#[derive(Debug, Clone, PartialEq, Eq)]
pub enum IrError {
    /// A jump or branch names a label that no block starts with.
    UndefinedLabel(String),
    /// An instruction with a destination has no opcode.
    MissingOp,
    /// A `const` instruction has no literal value.
    MissingValue,
}

/// The mathematical value of an instruction.
pub struct InstrV {
    pub op: Option<Seq<char>>,
    pub dest: Option<Seq<char>>,
    pub value: Option<i64>,
    pub ty: Option<Seq<char>>,
    pub args: Seq<Seq<char>>,
    pub labels: Seq<Seq<char>>,
    pub label: Option<Seq<char>>,
}

pub open spec fn opt_str(o: Option<String>) -> Option<Seq<char>> {
    match o {
        Some(s) => Some(s@),
        None => None,
    }
}

pub open spec fn strs(v: Seq<String>) -> Seq<Seq<char>> {
    v.map_values(|s: String| s@)
}

impl View for Instruction {
    type V = InstrV;

    open spec fn view(&self) -> InstrV {
        InstrV {
            op: opt_str(self.op),
            dest: opt_str(self.dest),
            value: self.value,
            ty: opt_str(self.type_),
            args: strs(self.args@),
            labels: strs(self.labels@),
            label: opt_str(self.label),
        }
    }
}

/// The views of a sequence of instructions.
pub open spec fn instrs_view(v: Seq<Instruction>) -> Seq<InstrV> {
    v.map_values(|i: Instruction| i@)
}

pub open spec fn is_terminator_op(op: Seq<char>) -> bool {
    op == "jmp"@ || op == "br"@ || op == "ret"@
}

/// A terminator ends a basic block: `jmp`, `br` or `ret`.
pub open spec fn is_terminator_spec(i: InstrV) -> bool {
    match i.op {
        Some(op) => is_terminator_op(op),
        None => false,
    }
}

/// A return ends its block with no successor.
pub open spec fn is_return_spec(i: InstrV) -> bool {
    i.op == Some("ret"@)
}

/// A label marker starts a basic block.
pub open spec fn is_label_spec(i: InstrV) -> bool {
    i.label is Some
}

/// A copy of an optional string.
pub fn clone_string_opt(o: &Option<String>) -> (r: Option<String>)
    ensures
        opt_str(r) == opt_str(*o),
{
    match o {
        Some(s) => Some(s.clone()),
        None => None,
    }
}

/// A copy of a list of strings.
pub fn clone_strings(v: &Vec<String>) -> (r: Vec<String>)
    ensures
        strs(r@) == strs(v@),
{
    let mut r: Vec<String> = Vec::new();
    let mut i: usize = 0;
    while i < v.len()
        invariant
            i <= v.len(),
            r@.len() == i,
            forall|j: int| 0 <= j < i ==> r@[j]@ == v@[j]@,
        decreases v.len() - i,
    {
        r.push(v[i].clone());
        i += 1;
    }
    assert(strs(r@) =~= strs(v@));
    r
}

impl Instruction {
    /// A copy with the same view.
    pub fn duplicate(&self) -> (r: Instruction)
        ensures
            r@ == self@,
    {
        Instruction {
            op: clone_string_opt(&self.op),
            dest: clone_string_opt(&self.dest),
            value: self.value,
            type_: clone_string_opt(&self.type_),
            args: clone_strings(&self.args),
            labels: clone_strings(&self.labels),
            label: clone_string_opt(&self.label),
        }
    }

    /// Whether this instruction ends a basic block.
    pub fn is_terminator(&self) -> (r: bool)
        ensures
            r == is_terminator_spec(self@),
    {
        match &self.op {
            Some(op) => {
                let jmp = String::from_str("jmp");
                let br = String::from_str("br");
                let ret = String::from_str("ret");
                proof {
                    reveal_strlit("jmp");
                    reveal_strlit("br");
                    reveal_strlit("ret");
                }
                *op == jmp || *op == br || *op == ret
            },
            None => false,
        }
    }

    /// Whether this instruction is a `ret`.
    pub fn is_return(&self) -> (r: bool)
        ensures
            r == is_return_spec(self@),
    {
        match &self.op {
            Some(op) => {
                let ret = String::from_str("ret");
                proof {
                    reveal_strlit("ret");
                }
                *op == ret
            },
            None => false,
        }
    }

    /// Whether this instruction is a label marker.
    pub fn is_label(&self) -> (r: bool)
        ensures
            r == is_label_spec(self@),
    {
        self.label.is_some()
    }
}

} // verus!
