//! The rules of a shape grammar, as the parser reads them.
//!
//! Numbers stay in the form in which they were written (the text of a number
//! token): turning them into floating-point values is left to the caller.
use vstd::prelude::*;

pub use crate::tokenizer::Token;

verus! {

/// What a rule does to the box it is applied to.
#[derive(Debug, Clone, PartialEq)]
pub enum Operation {
    /// `scale(x, y, z)`
    Scale { x: String, y: String, z: String },
    /// `transpose(x, y, z)`
    Transpose { x: String, y: String, z: String },
    /// `draw(r, g, b)`
    Draw { r: String, g: String, b: String },
    /// `split(dim, size)`
    Split { dim: String, size: String },
    /// `components()`
    Components,
}

/// `input -> operation { output ... }`
#[derive(Debug, Clone, PartialEq)]
pub struct Rule {
    pub input: String,
    pub output: Vec<String>,
    pub operation: Operation,
}

/// The rules of a grammar file, in the order in which they were written.
#[derive(Debug, Clone, PartialEq)]
pub struct Grammar {
    pub rules: Vec<Rule>,
}

/// The mathematical value of an [`Operation`].
pub enum SpecOperation {
    Scale { x: Seq<char>, y: Seq<char>, z: Seq<char> },
    Transpose { x: Seq<char>, y: Seq<char>, z: Seq<char> },
    Draw { r: Seq<char>, g: Seq<char>, b: Seq<char> },
    Split { dim: Seq<char>, size: Seq<char> },
    Components,
}

/// The mathematical value of a [`Rule`].
pub struct SpecRule {
    pub input: Seq<char>,
    pub output: Seq<Seq<char>>,
    pub operation: SpecOperation,
}

/// The texts of a list of strings.
pub open spec fn strings_view(v: Seq<String>) -> Seq<Seq<char>> {
    v.map_values(|s: String| s@)
}

impl View for Operation {
    type V = SpecOperation;

    open spec fn view(&self) -> SpecOperation {
        match self {
            Operation::Scale { x, y, z } => SpecOperation::Scale { x: x@, y: y@, z: z@ },
            Operation::Transpose { x, y, z } => SpecOperation::Transpose { x: x@, y: y@, z: z@ },
            Operation::Draw { r, g, b } => SpecOperation::Draw { r: r@, g: g@, b: b@ },
            Operation::Split { dim, size } => SpecOperation::Split { dim: dim@, size: size@ },
            Operation::Components => SpecOperation::Components,
        }
    }
}

impl View for Rule {
    type V = SpecRule;

    open spec fn view(&self) -> SpecRule {
        SpecRule {
            input: self.input@,
            output: strings_view(self.output@),
            operation: self.operation@,
        }
    }
}

/// The rules of a list of rules.
pub open spec fn rules_view(v: Seq<Rule>) -> Seq<SpecRule> {
    v.map_values(|r: Rule| r@)
}

impl View for Grammar {
    type V = Seq<SpecRule>;

    open spec fn view(&self) -> Seq<SpecRule> {
        rules_view(self.rules@)
    }
}

/// A copy of a list of strings.
pub fn copy_strings(v: &Vec<String>) -> (r: Vec<String>)
    ensures
        strings_view(r@) == strings_view(v@),
{
    let mut r: Vec<String> = Vec::new();
    let mut i: usize = 0;
    while i < v.len()
        invariant
            i <= v.len(),
            r@.len() == i,
            strings_view(r@) == strings_view(v@).take(i as int),
        decreases v.len() - i,
    {
        let ghost before = r@;
        let c = v[i].clone();
        r.push(c);
        assert forall|j: int| 0 <= j < i + 1 implies #[trigger] strings_view(r@)[j] == strings_view(v@)[j] by {
            if j < i {
                assert(strings_view(before)[j] == strings_view(v@).take(i as int)[j]);
            }
        }
        i = i + 1;
        assert(strings_view(r@) =~= strings_view(v@).take(i as int));
    }
    assert(strings_view(v@).take(v.len() as int) =~= strings_view(v@));
    r
}

/// A copy of an operation.
pub fn copy_operation(op: &Operation) -> (r: Operation)
    ensures
        r@ == op@,
{
    match op {
        Operation::Scale { x, y, z } => Operation::Scale { x: x.clone(), y: y.clone(), z: z.clone() },
        Operation::Transpose { x, y, z } => Operation::Transpose {
            x: x.clone(),
            y: y.clone(),
            z: z.clone(),
        },
        Operation::Draw { r, g, b } => Operation::Draw { r: r.clone(), g: g.clone(), b: b.clone() },
        Operation::Split { dim, size } => Operation::Split { dim: dim.clone(), size: size.clone() },
        Operation::Components => Operation::Components,
    }
}

/// A copy of a rule.
pub fn copy_rule(rule: &Rule) -> (r: Rule)
    ensures
        r@ == rule@,
{
    Rule {
        input: rule.input.clone(),
        output: copy_strings(&rule.output),
        operation: copy_operation(&rule.operation),
    }
}

} // verus!
