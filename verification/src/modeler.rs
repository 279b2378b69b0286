//! The decisions of the modeler that do not depend on geometry: which rule
//! applies to a box, what the boxes that a rule creates are called, and
//! which boxes are drawn.
use vstd::prelude::*;

use crate::grammar::{Grammar, Operation, Rule, SpecOperation, SpecRule, copy_rule, rules_view, strings_view};

verus! {

/// No two rules share an input name.
pub open spec fn unique_inputs(rules: Seq<SpecRule>) -> bool {
    forall|i: int, j: int|
        0 <= i < rules.len() && 0 <= j < rules.len() && i != j ==> #[trigger] rules[i].input
            != #[trigger] rules[j].input
}

/// The rules of a grammar, found by their input name.
pub struct RuleLookup {
    rules: Vec<Rule>,
}

impl View for RuleLookup {
    type V = Seq<SpecRule>;

    closed spec fn view(&self) -> Seq<SpecRule> {
        rules_view(self.rules@)
    }
}

impl RuleLookup {
    #[verifier::type_invariant]
    spec fn inv(self) -> bool {
        unique_inputs(rules_view(self.rules@))
    }

    /// The rule whose input is `name`, if there is one.
    pub fn get(&self, name: &String) -> (r: Option<&Rule>)
        ensures
            match r {
                Some(rule) => exists|i: int|
                    0 <= i < self@.len() && self@[i].input == name@ && rule@ == #[trigger] self@[i],
                None => forall|i: int| 0 <= i < self@.len() ==> #[trigger] self@[i].input != name@,
            },
    {
        proof {
            use_type_invariant(self);
        }
        let mut i: usize = 0;
        while i < self.rules.len()
            invariant
                i <= self.rules@.len(),
                self@ == rules_view(self.rules@),
                forall|j: int| 0 <= j < i ==> #[trigger] self@[j].input != name@,
            decreases self.rules@.len() - i,
        {
            assert(self@[i as int] == self.rules@[i as int]@);
            if self.rules[i].input == *name {
                return Some(&self.rules[i]);
            }
            i = i + 1;
        }
        None
    }
}

/// Whether no two rules of the grammar share an input name.
pub fn has_unique_inputs(grammar: &Grammar) -> (r: bool)
    ensures
        r == unique_inputs(grammar@),
{
    let rules = &grammar.rules;
    let n = rules.len();
    let mut i: usize = 0;
    while i < n
        invariant
            n == rules@.len(),
            grammar@ == rules_view(rules@),
            i <= n,
            forall|a: int, b: int|
                0 <= a < i && 0 <= b < n && a != b ==> #[trigger] grammar@[a].input
                    != #[trigger] grammar@[b].input,
        decreases n - i,
    {
        let mut j: usize = 0;
        while j < n
            invariant
                n == rules@.len(),
                grammar@ == rules_view(rules@),
                i < n,
                j <= n,
                forall|a: int, b: int|
                    0 <= a < i && 0 <= b < n && a != b ==> #[trigger] grammar@[a].input
                        != #[trigger] grammar@[b].input,
                forall|b: int|
                    0 <= b < j && i != b ==> grammar@[i as int].input != #[trigger] grammar@[b].input,
            decreases n - j,
        {
            assert(grammar@[i as int] == rules@[i as int]@);
            assert(grammar@[j as int] == rules@[j as int]@);
            if i != j && rules[i].input == rules[j].input {
                assert(grammar@[i as int].input == grammar@[j as int].input);
                return false;
            }
            j = j + 1;
        }
        i = i + 1;
    }
    true
}

/// The rules of a grammar, to be found by their input name. The inputs must
/// be distinct.
pub fn generate_lookup(grammar: &Grammar) -> (l: RuleLookup)
    requires
        unique_inputs(grammar@),
    ensures
        l@ == grammar@,
{
    let mut rules: Vec<Rule> = Vec::new();
    let mut i: usize = 0;
    while i < grammar.rules.len()
        invariant
            i <= grammar.rules@.len(),
            unique_inputs(grammar@),
            rules@.len() == i,
            rules_view(rules@) == grammar@.take(i as int),
        decreases grammar.rules@.len() - i,
    {
        let ghost before = rules@;
        let r = copy_rule(&grammar.rules[i]);
        rules.push(r);
        proof {
            assert forall|j: int| 0 <= j < i + 1 implies #[trigger] rules_view(rules@)[j]
                == grammar@[j] by {
                if j < i {
                    assert(rules_view(before)[j] == grammar@.take(i as int)[j]);
                }
            }
        }
        i = i + 1;
        assert(rules_view(rules@) =~= grammar@.take(i as int));
    }
    assert(grammar@.take(grammar.rules@.len() as int) =~= grammar@);
    RuleLookup { rules }
}

/// In rules with distinct inputs, the rule found for the input of rule `i`
/// (as [`RuleLookup::get`] finds it) is rule `i` itself.
pub proof fn law_lookup_finds_own_rule(rules: Seq<SpecRule>, i: int, found: SpecRule)
    requires
        unique_inputs(rules),
        0 <= i < rules.len(),
        exists|j: int| 0 <= j < rules.len() && rules[j].input == rules[i].input && found == #[trigger] rules[j],
    ensures
        found == rules[i],
{
    let j = choose|j: int| 0 <= j < rules.len() && rules[j].input == rules[i].input && found == #[trigger] rules[j];
    assert(rules[j].input == rules[i].input);
}

/// The name of the box that `draw` creates.
pub open spec fn draw_name() -> Seq<char> {
    seq!['d', 'r', 'a', 'w']
}

/// The name of piece `i` of a split into `count` pieces: the first pieces
/// are named from `start`, the last ones from `end` (counted from the last
/// piece backwards), and the pieces in between from `middle`, in turn.
pub open spec fn spec_split_piece_name(
    i: int,
    count: int,
    start: Seq<Seq<char>>,
    middle: Seq<Seq<char>>,
    end: Seq<Seq<char>>,
) -> Seq<char> {
    if i < start.len() {
        start[i]
    } else if count - i - 1 < end.len() {
        end[count - i - 1]
    } else {
        middle[(i - start.len()) % (middle.len() as int)]
    }
}

/// The name of piece `i` of a split into `count` pieces (see
/// [`spec_split_piece_name`]).
pub fn split_piece_name<'a>(
    i: usize,
    count: usize,
    start: &'a Vec<String>,
    middle: &'a Vec<String>,
    end: &'a Vec<String>,
) -> (r: &'a String)
    requires
        i < count,
        i >= start@.len() && count - i - 1 >= end@.len() ==> middle@.len() > 0,
    ensures
        r@ == spec_split_piece_name(
            i as int,
            count as int,
            strings_view(start@),
            strings_view(middle@),
            strings_view(end@),
        ),
{
    if i < start.len() {
        &start[i]
    } else if count - i - 1 < end.len() {
        &end[count - i - 1]
    } else {
        &middle[(i - start.len()) % middle.len()]
    }
}

/// The names of the boxes that applying `rule` creates, in order. A split
/// into `count` pieces names them all from the outputs, in turn (the outputs
/// are the middle names; there are no start or end names); `components`
/// names the six faces after the first six outputs.
pub open spec fn spec_child_names(rule: SpecRule, count: nat) -> Seq<Seq<char>> {
    match rule.operation {
        SpecOperation::Scale { .. } => rule.output,
        SpecOperation::Transpose { .. } => rule.output,
        SpecOperation::Draw { .. } => seq![draw_name()],
        SpecOperation::Split { .. } => Seq::new(
            count,
            |i: int|
                spec_split_piece_name(i, count as int, seq![], rule.output, seq![]),
        ),
        SpecOperation::Components => rule.output.take(6),
    }
}

/// The names of the boxes that applying `rule` creates; `count` is the
/// number of pieces of a split (it is not used by other operations).
pub fn child_names(rule: &Rule, count: usize) -> (r: Vec<String>)
    requires
        rule@.operation is Split && count > 0 ==> rule@.output.len() > 0,
        rule@.operation is Components ==> rule@.output.len() >= 6,
    ensures
        strings_view(r@) == spec_child_names(rule@, count as nat),
{
    let mut names: Vec<String> = Vec::new();
    match &rule.operation {
        Operation::Scale { .. } | Operation::Transpose { .. } => {
            let mut i: usize = 0;
            while i < rule.output.len()
                invariant
                    i <= rule.output@.len(),
                    names@.len() == i,
                    strings_view(names@) == strings_view(rule.output@).take(i as int),
                decreases rule.output@.len() - i,
            {
                let ghost before = names@;
                names.push(rule.output[i].clone());
                proof {
                    assert forall|j: int| 0 <= j < i + 1 implies #[trigger] strings_view(names@)[j]
                        == strings_view(rule.output@)[j] by {
                        if j < i {
                            assert(strings_view(before)[j] == strings_view(rule.output@).take(
                                i as int,
                            )[j]);
                        }
                    }
                }
                i = i + 1;
                assert(strings_view(names@) =~= strings_view(rule.output@).take(i as int));
            }
            assert(strings_view(rule.output@).take(rule.output@.len() as int) =~= strings_view(
                rule.output@,
            ));
        },
        Operation::Draw { .. } => {
            let d = String::from_str("draw");
            proof {
                reveal_strlit("draw");
                assert("draw"@ =~= draw_name());
            }
            names.push(d);
            assert(strings_view(names@)[0] == d@);
            assert(strings_view(names@) =~= seq![draw_name()]);
        },
        Operation::Split { .. } => {
            let none: Vec<String> = Vec::new();
            proof {
                assert(strings_view(none@) =~= Seq::<Seq<char>>::empty());
            }
            let mut i: usize = 0;
            while i < count
                invariant
                    i <= count,
                    count > 0 ==> rule.output@.len() > 0,
                    none@.len() == 0,
                    strings_view(none@) == Seq::<Seq<char>>::empty(),
                    names@.len() == i,
                    forall|j: int|
                        0 <= j < i ==> #[trigger] strings_view(names@)[j] == spec_split_piece_name(
                            j,
                            count as int,
                            seq![],
                            strings_view(rule.output@),
                            seq![],
                        ),
                decreases count - i,
            {
                let ghost before = names@;
                let name = split_piece_name(i, count, &none, &rule.output, &none);
                names.push(name.clone());
                proof {
                    assert forall|j: int| 0 <= j < i + 1 implies #[trigger] strings_view(names@)[j]
                        == spec_split_piece_name(
                        j,
                        count as int,
                        seq![],
                        strings_view(rule.output@),
                        seq![],
                    ) by {
                        if j < i {
                            assert(strings_view(before)[j] == strings_view(names@)[j]);
                        }
                    }
                }
                i = i + 1;
            }
            assert(strings_view(names@) =~= spec_child_names(rule@, count as nat));
        },
        Operation::Components => {
            let mut i: usize = 0;
            while i < 6
                invariant
                    i <= 6,
                    rule.output@.len() >= 6,
                    names@.len() == i,
                    strings_view(names@) == strings_view(rule.output@).take(i as int),
                decreases 6 - i,
            {
                let ghost before = names@;
                names.push(rule.output[i].clone());
                proof {
                    assert forall|j: int| 0 <= j < i + 1 implies #[trigger] strings_view(names@)[j]
                        == strings_view(rule.output@)[j] by {
                        if j < i {
                            assert(strings_view(before)[j] == strings_view(rule.output@).take(
                                i as int,
                            )[j]);
                        }
                    }
                }
                i = i + 1;
                assert(strings_view(names@) =~= strings_view(rule.output@).take(i as int));
            }
        },
    }
    names
}

/// Whether the box of a node is drawn: it has no children and its name does
/// not start with `_`.
pub fn draws_box(name: &String, n_children: usize) -> (r: bool)
    ensures
        r == (n_children == 0 && !(name@.len() > 0 && name@[0] == '_')),
{
    let s = name.as_str();
    n_children == 0 && !(s.unicode_len() > 0 && s.get_char(0) == '_')
}

/// How a split names its pieces: the first pieces take the start names in
/// order and the last pieces the end names (the very last piece the first
/// end name); the first piece after the start names takes the first middle
/// name, each further middle piece the next middle name, and after the last
/// middle name the first one comes again.
pub proof fn law_split_naming(
    count: int,
    start: Seq<Seq<char>>,
    middle: Seq<Seq<char>>,
    end: Seq<Seq<char>>,
)
    requires
        middle.len() > 0,
    ensures
        forall|i: int| 0 <= i < start.len() && i < count ==> #[trigger] spec_split_piece_name(i, count, start, middle, end)
            == start[i],
        start.len() < count && end.len() > 0 ==> spec_split_piece_name(count - 1, count, start, middle, end)
            == end[0],
        forall|j: int|
            0 <= j < middle.len() && count - (start.len() + j) - 1 >= end.len() ==> #[trigger] spec_split_piece_name(
                start.len() + j,
                count,
                start,
                middle,
                end,
            ) == middle[j],
        forall|i: int|
            start.len() <= i && count - (i + middle.len()) - 1 >= end.len() ==> #[trigger] spec_split_piece_name(
                i + middle.len(),
                count,
                start,
                middle,
                end,
            ) == spec_split_piece_name(i, count, start, middle, end),
{
    assert forall|j: int|
        0 <= j < middle.len() && count - (start.len() + j) - 1 >= end.len() implies #[trigger] spec_split_piece_name(
        start.len() + j,
        count,
        start,
        middle,
        end,
    ) == middle[j] by {
        assert((start.len() + j - start.len()) % (middle.len() as int) == j) by (nonlinear_arith)
            requires
                0 <= j < middle.len(),
        ;
    }
    assert forall|i: int|
        start.len() <= i && count - (i + middle.len()) - 1 >= end.len() implies #[trigger] spec_split_piece_name(
        i + middle.len(),
        count,
        start,
        middle,
        end,
    ) == spec_split_piece_name(i, count, start, middle, end) by {
        let m = middle.len() as int;
        let d = i - start.len();
        assert((d + m) % m == d % m) by (nonlinear_arith)
            requires
                m > 0,
                d >= 0,
        ;
        assert(i + m - start.len() == d + m);
    }
}

/// The pieces of a split rule are named after its outputs in order: piece
/// `j` after output `j`, and after the last output the first one comes again.
pub proof fn law_split_children(rule: SpecRule, count: nat)
    requires
        rule.operation is Split,
        rule.output.len() > 0,
    ensures
        spec_child_names(rule, count).len() == count,
        forall|j: int| 0 <= j < rule.output.len() && j < count ==> #[trigger] spec_child_names(rule, count)[j]
            == rule.output[j],
        forall|i: int| 0 <= i && i + rule.output.len() < count ==> #[trigger] spec_child_names(rule, count)[i
            + rule.output.len()] == spec_child_names(rule, count)[i],
{
    law_split_naming(count as int, seq![], rule.output, seq![]);
    assert forall|j: int| 0 <= j < rule.output.len() && j < count implies #[trigger] spec_child_names(rule, count)[j]
        == rule.output[j] by {
        assert(spec_split_piece_name(0 + j, count as int, seq![], rule.output, seq![]) == rule.output[j]);
        assert(0 + j == j);
    }
    assert forall|i: int| 0 <= i && i + rule.output.len() < count implies #[trigger] spec_child_names(rule, count)[i
        + rule.output.len()] == spec_child_names(rule, count)[i] by {
        assert(spec_split_piece_name(i + rule.output.len(), count as int, seq![], rule.output, seq![])
            == spec_split_piece_name(i, count as int, seq![], rule.output, seq![]));
    }
}

} // verus!
