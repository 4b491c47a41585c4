//! The matrices of a path embedding by kind, and which of them a position multiplies by.

use vstd::prelude::*;

use crate::encoding::{matrix_names, path_steps, steps_of, NUM_MATRICES};
use crate::ir::Position;
use crate::rows::flat;
use crate::weights::{
    first_missing, get, lemma_first_missing, missing_text, NamedTensor, TensorMap, TensorSpec,
};

verus! {

/// A position without an index.
#[derive(Clone, Copy, Debug, PartialEq, Eq, Structural)]
pub enum Unit {
    Type,
    LHS,
    RHS,
}

/// A position with an index.
#[derive(Clone, Copy, Debug, PartialEq, Eq, Structural)]
pub enum Kind {
    Rule,
    Param,
    Let,
    Arg,
}

/// The matrix of a position as a product.
#[derive(Clone, Copy, Debug, PartialEq, Eq, Structural)]
pub enum Recipe {
    /// The matrix of a position without an index.
    Unit(Unit),
    /// The right matrix of a kind to this power, times the down matrix of the kind.
    Indexed(Kind, usize),
}

/// The matrix of a position as a product.
pub open spec fn recipe_of(pos: Position) -> Recipe {
    match pos {
        Position::Type => Recipe::Unit(Unit::Type),
        Position::LHS => Recipe::Unit(Unit::LHS),
        Position::RHS => Recipe::Unit(Unit::RHS),
        Position::Rule(i) => Recipe::Indexed(Kind::Rule, (i + 1) as usize),
        Position::Param(i) => Recipe::Indexed(Kind::Param, (i + 1) as usize),
        Position::Let(i) => Recipe::Indexed(Kind::Let, (i + 1) as usize),
        Position::Arg(i) => Recipe::Indexed(Kind::Arg, (i + 1) as usize),
    }
}

/// The index of a position, if it has one.
pub open spec fn index_of(pos: Position) -> int {
    match pos {
        Position::Type | Position::LHS | Position::RHS => 0,
        Position::Rule(i) | Position::Param(i) | Position::Let(i) | Position::Arg(i) => i as int,
    }
}

/// The matrix of a position as a product.
pub fn recipe(pos: Position) -> (recipe: Recipe)
    requires
        index_of(pos) < usize::MAX,
    ensures
        recipe == recipe_of(pos),
        match pos {
            Position::Type => recipe == Recipe::Unit(Unit::Type),
            Position::LHS => recipe == Recipe::Unit(Unit::LHS),
            Position::RHS => recipe == Recipe::Unit(Unit::RHS),
            Position::Rule(i) => recipe matches Recipe::Indexed(Kind::Rule, n) && n == i + 1,
            Position::Param(i) => recipe matches Recipe::Indexed(Kind::Param, n) && n == i + 1,
            Position::Let(i) => recipe matches Recipe::Indexed(Kind::Let, n) && n == i + 1,
            Position::Arg(i) => recipe matches Recipe::Indexed(Kind::Arg, n) && n == i + 1,
        },
{
    match pos {
        Position::Type => Recipe::Unit(Unit::Type),
        Position::LHS => Recipe::Unit(Unit::LHS),
        Position::RHS => Recipe::Unit(Unit::RHS),
        Position::Rule(i) => Recipe::Indexed(Kind::Rule, i + 1),
        Position::Param(i) => Recipe::Indexed(Kind::Param, i + 1),
        Position::Let(i) => Recipe::Indexed(Kind::Let, i + 1),
        Position::Arg(i) => Recipe::Indexed(Kind::Arg, i + 1),
    }
}

/// The matrix index of a position without an index.
pub open spec fn unit_step(unit: Unit) -> u8 {
    match unit {
        Unit::Type => 0,
        Unit::LHS => 1,
        Unit::RHS => 2,
    }
}

/// The matrix index of a kind's right matrix.
pub open spec fn right_step(kind: Kind) -> u8 {
    match kind {
        Kind::Rule => 3,
        Kind::Param => 5,
        Kind::Let => 7,
        Kind::Arg => 9,
    }
}

/// The matrix index of a kind's down matrix.
pub open spec fn down_step(kind: Kind) -> u8 {
    match kind {
        Kind::Rule => 4,
        Kind::Param => 6,
        Kind::Let => 8,
        Kind::Arg => 10,
    }
}

/// The factors of a product, in order.
pub open spec fn recipe_steps(recipe: Recipe) -> Seq<u8> {
    match recipe {
        Recipe::Unit(unit) => seq![unit_step(unit)],
        Recipe::Indexed(kind, power) => Seq::new(power as nat, |k: int| right_step(kind)).push(
            down_step(kind),
        ),
    }
}

/// The steps of a position name the factors of its matrix, `right^(i + 1) * down`, in order.
pub proof fn law_steps_are_factors(pos: Position)
    requires
        index_of(pos) < usize::MAX,
    ensures
        recipe_steps(recipe_of(pos)) == steps_of(pos),
{
    assert(recipe_steps(recipe_of(pos)) =~= steps_of(pos));
}

/// The factors of the matrices along a path, in order.
pub open spec fn path_factors(path: Seq<Position>) -> Seq<Seq<u8>> {
    Seq::new(path.len(), |k: int| recipe_steps(recipe_of(path[k])))
}

/// The steps of a path name the factors of its positions' matrices, one position after the other.
pub proof fn law_path_names_the_factors(path: Seq<Position>)
    requires
        forall|k: int| 0 <= k < path.len() ==> index_of(#[trigger] path[k]) < usize::MAX,
    ensures
        flat(path_factors(path)) == path_steps(path),
    decreases path.len(),
{
    if path.len() > 0 {
        let init = path.drop_last();
        assert forall|k: int| 0 <= k < init.len() implies index_of(#[trigger] init[k])
            < usize::MAX by {
            assert(init[k] == path[k]);
        }
        law_path_names_the_factors(init);
        assert(path.last() == path[path.len() - 1]);
        law_steps_are_factors(path.last());
        assert(path_factors(path).drop_last() =~= path_factors(init));
    }
}

/// The tensors of an embedding file by kind.
pub struct StepTables {
    pub root: NamedTensor,
    /// The matrices of Type, LHS and RHS.
    pub unit: Vec<NamedTensor>,
    /// The right matrices of Rule, Param, Let and Arg.
    pub right: Vec<NamedTensor>,
    /// The down matrices of Rule, Param, Let and Arg.
    pub down: Vec<NamedTensor>,
}

/// The tensors of an embedding file are looked up by kind: the root, the units, the right matrices
/// and the down matrices.
pub proof fn law_table_names()
    ensures
        table_names().len() == 12,
        table_names()[0] == "root"@,
        table_names()[1] == "unit_matrices.Type"@,
        table_names()[2] == "unit_matrices.LHS"@,
        table_names()[3] == "unit_matrices.RHS"@,
        table_names()[4] == "right_matrices.Rule"@,
        table_names()[5] == "right_matrices.Param"@,
        table_names()[6] == "right_matrices.Let"@,
        table_names()[7] == "right_matrices.Arg"@,
        table_names()[8] == "down_matrices.Rule"@,
        table_names()[9] == "down_matrices.Param"@,
        table_names()[10] == "down_matrices.Let"@,
        table_names()[11] == "down_matrices.Arg"@,
{
}

/// The tensors of an embedding file, in the order in which they are looked up.
pub open spec fn table_names() -> Seq<Seq<char>> {
    seq![
        "root"@,
        "unit_matrices.Type"@,
        "unit_matrices.LHS"@,
        "unit_matrices.RHS"@,
        "right_matrices.Rule"@,
        "right_matrices.Param"@,
        "right_matrices.Let"@,
        "right_matrices.Arg"@,
        "down_matrices.Rule"@,
        "down_matrices.Param"@,
        "down_matrices.Let"@,
        "down_matrices.Arg"@,
    ]
}

/// The name of a tensor by its place in the order of lookups.
fn table_name(k: usize) -> (name: &'static str)
    requires
        k < table_names().len(),
    ensures
        name@ == table_names()[k as int],
{
    match k {
        0 => "root",
        1 => "unit_matrices.Type",
        2 => "unit_matrices.LHS",
        3 => "unit_matrices.RHS",
        4 => "right_matrices.Rule",
        5 => "right_matrices.Param",
        6 => "right_matrices.Let",
        7 => "right_matrices.Arg",
        8 => "down_matrices.Rule",
        9 => "down_matrices.Param",
        10 => "down_matrices.Let",
        _ => "down_matrices.Arg",
    }
}

/// Copies of `count` tensors, from the `start`-th of the order of lookups on, or a message that
/// names the first that is missing.
fn load_some(tensors: &TensorMap, start: usize, count: usize) -> (result: Result<
    Vec<NamedTensor>,
    String,
>)
    requires
        start + count <= table_names().len(),
        first_missing(table_names(), tensors@) >= start,
    ensures
        result is Ok <==> first_missing(table_names(), tensors@) >= start + count,
        result matches Ok(found) ==> {
            &&& found@.len() == count
            &&& forall|k: int|
                0 <= k < count ==> (#[trigger] found@[k])@ == tensors@[table_names()[start + k]]
        },
        result matches Err(message) ==> message@ == missing_text(
            table_names()[first_missing(table_names(), tensors@) as int],
        ),
{
    proof {
        lemma_first_missing(table_names(), tensors@);
    }
    let mut found: Vec<NamedTensor> = Vec::new();
    for k in 0..count
        invariant
            start + count <= table_names().len(),
            first_missing(table_names(), tensors@) >= start + k,
            forall|j: int|
                0 <= j < first_missing(table_names(), tensors@) ==> tensors@.contains_key(
                    #[trigger] table_names()[j],
                ),
            first_missing(table_names(), tensors@) < table_names().len() ==> !tensors@.contains_key(
                table_names()[first_missing(table_names(), tensors@) as int],
            ),
            found@.len() == k,
            forall|j: int|
                0 <= j < k ==> (#[trigger] found@[j])@ == tensors@[table_names()[start + j]],
    {
        match get(tensors, table_name(start + k)) {
            Ok(t) => {
                found.push(t.clone());
            },
            Err(message) => {
                return Err(message);
            },
        }
    }
    Ok(found)
}

impl StepTables {
    /// The tensor of a matrix by its index.
    pub open spec fn tensor(&self, index: int) -> TensorSpec {
        if index < 3 {
            self.unit@[index]@
        } else if index % 2 == 1 {
            self.right@[(index - 3) / 2]@
        } else {
            self.down@[(index - 4) / 2]@
        }
    }

    /// The matrices of an embedding file by kind, or a message that names the first tensor that
    /// is missing.
    pub fn load(tensors: &TensorMap) -> (result: Result<StepTables, String>)
        ensures
            result is Ok <==> first_missing(table_names(), tensors@) == table_names().len(),
            result matches Ok(tables) ==> {
                &&& tables.root@ == tensors@["root"@]
                &&& tables.unit@.len() == 3
                &&& tables.right@.len() == 4
                &&& tables.down@.len() == 4
                &&& forall|k: int|
                    0 <= k < NUM_MATRICES ==> #[trigger] tables.tensor(k)
                        == tensors@[matrix_names()[k]]
                &&& tables.unit@[0]@ == tensors@["unit_matrices.Type"@]
                &&& tables.unit@[1]@ == tensors@["unit_matrices.LHS"@]
                &&& tables.unit@[2]@ == tensors@["unit_matrices.RHS"@]
                &&& tables.right@[0]@ == tensors@["right_matrices.Rule"@]
                &&& tables.right@[1]@ == tensors@["right_matrices.Param"@]
                &&& tables.right@[2]@ == tensors@["right_matrices.Let"@]
                &&& tables.right@[3]@ == tensors@["right_matrices.Arg"@]
                &&& tables.down@[0]@ == tensors@["down_matrices.Rule"@]
                &&& tables.down@[1]@ == tensors@["down_matrices.Param"@]
                &&& tables.down@[2]@ == tensors@["down_matrices.Let"@]
                &&& tables.down@[3]@ == tensors@["down_matrices.Arg"@]
            },
            result matches Err(message) ==> message@ == missing_text(
                table_names()[first_missing(table_names(), tensors@) as int],
            ),
            result matches Err(message) ==> message@ == "missing "@
                + table_names()[first_missing(table_names(), tensors@) as int],
    {
        proof {
            lemma_first_missing(table_names(), tensors@);
            assert(table_names()[0] == "root"@);
        }
        let root: NamedTensor = match get(tensors, "root") {
            Ok(t) => t.clone(),
            Err(message) => {
                return Err(message);
            },
        };
        let unit: Vec<NamedTensor> = match load_some(tensors, 1, 3) {
            Ok(found) => found,
            Err(message) => {
                return Err(message);
            },
        };
        let right: Vec<NamedTensor> = match load_some(tensors, 4, 4) {
            Ok(found) => found,
            Err(message) => {
                return Err(message);
            },
        };
        let down: Vec<NamedTensor> = match load_some(tensors, 8, 4) {
            Ok(found) => found,
            Err(message) => {
                return Err(message);
            },
        };
        let tables: StepTables = StepTables { root, unit, right, down };
        proof {
            let names = table_names();
            assert forall|k: int| 0 <= k < NUM_MATRICES implies #[trigger] tables.tensor(k)
                == tensors@[matrix_names()[k]] by {
                if k < 3 {
                    assert(names[1 + k] == matrix_names()[k]);
                } else if k % 2 == 1 {
                    assert(names[4 + (k - 3) / 2] == matrix_names()[k]);
                } else {
                    assert(names[8 + (k - 4) / 2] == matrix_names()[k]);
                }
            }
        }
        Ok(tables)
    }
}

} // verus!
