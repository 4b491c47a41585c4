//! The matrix of each position, made when it is first asked for and kept.
//!
//! What a matrix is, and how a power of one is made, is up to the caller.

use std::collections::HashMap;

use vstd::prelude::*;

use crate::encoding::{path_steps, steps_of};
use crate::ir::{Position, Token};
use crate::tables::{
    down_step, index_of, law_steps_are_factors, recipe, recipe_of, right_step, unit_step, Kind, Recipe,
    Unit,
};

verus! {

broadcast use vstd::std_specs::hash::group_hash_axioms;

/// Where the matrix of a position without an index stands in a list.
pub open spec fn unit_place(unit: Unit) -> int {
    match unit {
        Unit::Type => 0,
        Unit::LHS => 1,
        Unit::RHS => 2,
    }
}

/// Where the matrices of a kind stand in a list.
pub open spec fn kind_place(kind: Kind) -> int {
    match kind {
        Kind::Rule => 0,
        Kind::Param => 1,
        Kind::Let => 2,
        Kind::Arg => 3,
    }
}

/// Where the matrix of a position without an index stands in a list.
fn place_of_unit(unit: Unit) -> (place: usize)
    ensures
        place == unit_place(unit),
{
    match unit {
        Unit::Type => 0,
        Unit::LHS => 1,
        Unit::RHS => 2,
    }
}

/// Where the matrices of a kind stand in a list.
fn place_of_kind(kind: Kind) -> (place: usize)
    ensures
        place == kind_place(kind),
{
    match kind {
        Kind::Rule => 0,
        Kind::Param => 1,
        Kind::Let => 2,
        Kind::Arg => 3,
    }
}

/// The number by which the matrix of a kind and a power is kept.
pub open spec fn key(kind: Kind, power: usize) -> int {
    power * 4 + kind_place(kind)
}

/// The matrices of the positions. `product(right, n, down)` is `right` to the power `n`, which is
/// at least 1, times `down`.
#[verifier::reject_recursive_types(M)]
pub struct StepMatrices<M, F: Fn(&M, usize, &M) -> M> {
    /// The matrices of Type, LHS and RHS.
    pub unit: Vec<M>,
    /// The right matrices of Rule, Param, Let and Arg.
    pub right: Vec<M>,
    /// The down matrices of Rule, Param, Let and Arg.
    pub down: Vec<M>,
    pub product: F,
    /// The matrices that were made, by kind and power.
    pub made: HashMap<u128, M>,
}

impl<M, F: Fn(&M, usize, &M) -> M> StepMatrices<M, F> {
    /// Whether `m` can come out as the matrix of a position: that of its unit, or the product of
    /// the right matrix of its kind, to the power of one more than its index, and the down
    /// matrix.
    pub open spec fn is_matrix(self, pos: Position, m: M) -> bool {
        match recipe_of(pos) {
            Recipe::Unit(unit) => m == self.unit@[unit_place(unit)],
            Recipe::Indexed(kind, power) => self.product.ensures(
                (&self.right@[kind_place(kind)], power, &self.down@[kind_place(kind)]),
                m,
            ),
        }
    }

    /// The matrix that a position already has.
    pub open spec fn known(self, pos: Position) -> Option<M> {
        match recipe_of(pos) {
            Recipe::Unit(unit) => Some(self.unit@[unit_place(unit)]),
            Recipe::Indexed(kind, power) => if self.made@.contains_key(key(kind, power) as u128) {
                Some(self.made@[key(kind, power) as u128])
            } else {
                None
            },
        }
    }

    /// There is a matrix for each kind, and each that is kept is the matrix of its position.
    pub open spec fn wf(self) -> bool {
        &&& self.unit@.len() == 3
        &&& self.right@.len() == 4
        &&& self.down@.len() == 4
        &&& forall|right: &M, n: usize, down: &M|
            n > 0 ==> #[trigger] self.product.requires((right, n, down))
        &&& forall|pos: Position|
            index_of(pos) < usize::MAX && (#[trigger] self.known(pos)) is Some ==> self.is_matrix(
                pos,
                self.known(pos)->0,
            )
    }

    /// The matrices that positions are made from. None with an index is made yet.
    pub fn new(unit: Vec<M>, right: Vec<M>, down: Vec<M>, product: F) -> (steps: Self)
        requires
            unit@.len() == 3,
            right@.len() == 4,
            down@.len() == 4,
            forall|right: &M, n: usize, down: &M|
                n > 0 ==> #[trigger] product.requires((right, n, down)),
        ensures
            steps.wf(),
            steps.unit == unit,
            steps.right == right,
            steps.down == down,
            steps.product == product,
            forall|pos: Position| (#[trigger] steps.known(pos)) is Some <==> recipe_of(pos) is Unit,
    {
        StepMatrices { unit, right, down, product, made: HashMap::new() }
    }

    /// The matrix of a position. It is made when it is first asked for; after that, it is the
    /// same whatever else is asked for in between.
    pub fn step(&mut self, pos: Position) -> (m: &M)
        requires
            old(self).wf(),
            index_of(pos) < usize::MAX,
        ensures
            asked(*old(self), *final(self), pos),
            final(self).known(pos) == Some(*m),
            old(self).is_matrix(pos, *m),
            final(self).unit@ == old(self).unit@,
            final(self).right@ == old(self).right@,
            final(self).down@ == old(self).down@,
            match pos {
                Position::Type => *m == old(self).unit@[0],
                Position::LHS => *m == old(self).unit@[1],
                Position::RHS => *m == old(self).unit@[2],
                Position::Rule(i) => old(self).product.ensures(
                    (&old(self).right@[0], (i + 1) as usize, &old(self).down@[0]),
                    *m,
                ),
                Position::Param(i) => old(self).product.ensures(
                    (&old(self).right@[1], (i + 1) as usize, &old(self).down@[1]),
                    *m,
                ),
                Position::Let(i) => old(self).product.ensures(
                    (&old(self).right@[2], (i + 1) as usize, &old(self).down@[2]),
                    *m,
                ),
                Position::Arg(i) => old(self).product.ensures(
                    (&old(self).right@[3], (i + 1) as usize, &old(self).down@[3]),
                    *m,
                ),
            },
    {
        match recipe(pos) {
            Recipe::Unit(unit) => &self.unit[place_of_unit(unit)],
            Recipe::Indexed(kind, power) => {
                let at: usize = place_of_kind(kind);
                let k: u128 = power as u128 * 4 + at as u128;
                if !self.made.contains_key(&k) {
                    let m: M = (self.product)(&self.right[at], power, &self.down[at]);
                    self.made.insert(k, m);
                    proof {
                        assert(self.known(pos) == Some(m));
                        assert forall|q: Position|
                            index_of(q) < usize::MAX && (#[trigger] self.known(
                                q,
                            )) is Some implies self.is_matrix(q, self.known(q)->0) by {
                            if q != pos {
                                assert(self.known(q) == old(self).known(q));
                            }
                        }
                    }
                }
                match self.made.get(&k) {
                    Some(m) => m,
                    None => &self.right[at],
                }
            },
        }
    }

    /// Whether the matrix of a position can lead from one vector to another.
    pub open spec fn leads<V, G: Fn(V, &M) -> V>(
        self,
        apply: G,
        pos: Position,
        before: V,
        after: V,
    ) -> bool {
        exists|m: M| #[trigger] self.is_matrix(pos, m) && apply.ensures((before, &m), after)
    }

    /// Whether the `k`-th position of a path can lead from the `k`-th vector to the next.
    pub open spec fn leads_at<V, G: Fn(V, &M) -> V>(
        self,
        apply: G,
        path: Seq<Position>,
        vectors: Seq<V>,
        k: int,
    ) -> bool {
        self.leads(apply, path[k], vectors[k], vectors[k + 1])
    }

    /// Whether these are the vectors along a path, from the root on.
    pub open spec fn leads_along<V, G: Fn(V, &M) -> V>(
        self,
        apply: G,
        root: V,
        path: Seq<Position>,
        vectors: Seq<V>,
    ) -> bool {
        &&& vectors.len() == path.len() + 1
        &&& vectors[0] == root
        &&& forall|k: int|
            0 <= k < path.len() ==> #[trigger] self.leads_at(apply, path, vectors, k)
    }

    /// Whether a path can lead from the root to a vector.
    pub open spec fn leads_to<V, G: Fn(V, &M) -> V>(
        self,
        apply: G,
        root: V,
        path: Seq<Position>,
        out: V,
    ) -> bool {
        exists|vectors: Seq<V>| #[trigger]
            self.leads_along(apply, root, path, vectors) && vectors[path.len() as int] == out
    }

    /// Whether the matrices that were there are still there.
    pub open spec fn kept(self, after: Self) -> bool {
        &&& after.unit == self.unit
        &&& after.right == self.right
        &&& after.down == self.down
        &&& after.product == self.product
        &&& forall|q: Position|
            index_of(q) < usize::MAX && (#[trigger] self.known(q)) is Some ==> after.known(q)
                == self.known(q)
    }

    /// The root times the matrix of each position of a path in turn. `apply(v, m)` is `v` times
    /// `m`.
    pub fn embed_path<V, G: Fn(V, &M) -> V>(&mut self, root: V, path: &[Position], apply: &G) -> (
        out: V)
        requires
            old(self).wf(),
            countable_path(path@),
            forall|v: V, m: &M| #[trigger] apply.requires((v, m)),
        ensures
            final(self).wf(),
            old(self).kept(*final(self)),
            old(self).leads_to(*apply, root, path@, out),
    {
        let ghost start = *self;
        let ghost mut vectors: Seq<V> = seq![root];
        let mut v: V = root;
        for k in 0..path.len()
            invariant
                self.wf(),
                start.kept(*self),
                countable_path(path@),
                forall|v: V, m: &M| #[trigger] apply.requires((v, m)),
                start.leads_along(*apply, root, path@.take(k as int), vectors),
                vectors[k as int] == v,
        {
            let ghost before = v;
            let m: &M = self.step(path[k]);
            let ghost made = *m;
            v = apply(v, m);
            proof {
                assert(start.is_matrix(path@[k as int], made));
                assert(start.leads(*apply, path@[k as int], before, v));
                lemma_leads_push(
                    start,
                    *apply,
                    root,
                    path@.take(k as int),
                    vectors,
                    path@[k as int],
                    v,
                );
                assert(path@.take(k + 1) =~= path@.take(k as int).push(path@[k as int]));
                vectors = vectors.push(v);
            }
        }
        assert(path@.take(path@.len() as int) =~= path@);
        v
    }
}

/// Whether the power of each position's matrix can be counted in a `usize`.
pub open spec fn countable_path(path: Seq<Position>) -> bool {
    forall|k: int| 0 <= k < path.len() ==> index_of(#[trigger] path[k]) < usize::MAX
}

proof fn lemma_leads_push<M, V, F: Fn(&M, usize, &M) -> M, G: Fn(V, &M) -> V>(
    steps: StepMatrices<M, F>,
    apply: G,
    root: V,
    path: Seq<Position>,
    vectors: Seq<V>,
    pos: Position,
    out: V,
)
    requires
        steps.leads_along(apply, root, path, vectors),
        steps.leads(apply, pos, vectors[path.len() as int], out),
    ensures
        steps.leads_along(apply, root, path.push(pos), vectors.push(out)),
{
    let longer = vectors.push(out);
    assert forall|k: int| 0 <= k < path.push(pos).len() implies #[trigger] steps.leads_at(
        apply,
        path.push(pos),
        longer,
        k,
    ) by {
        if k < path.len() {
            assert(steps.leads_at(apply, path, vectors, k));
        }
    }
}

/// Whether a path can lead from a root that `root` gives to a vector.
pub open spec fn reaches<M, V, F: Fn(&M, usize, &M) -> M, R: Fn() -> V, G: Fn(V, &M) -> V>(
    steps: StepMatrices<M, F>,
    root: R,
    apply: G,
    path: Seq<Position>,
    out: V,
) -> bool {
    exists|r: V| root.ensures((), r) && #[trigger] steps.leads_to(apply, r, path, out)
}

/// Whether `row` can come out as a token's row: the two vectors that its paths lead to, joined.
pub open spec fn is_token_row<
    M,
    V,
    F: Fn(&M, usize, &M) -> M,
    R: Fn() -> V,
    G: Fn(V, &M) -> V,
    C: Fn(V, V) -> V,
>(steps: StepMatrices<M, F>, root: R, apply: G, join: C, token: Token, row: V) -> bool {
    exists|l: V, r: V|
        {
            &&& reaches(steps, root, apply, token.position@, l)
            &&& reaches(steps, root, apply, token.declaration@, r)
            &&& #[trigger] join.ensures((l, r), row)
        }
}

/// Whether `row` can come out as a bind's row: the vector that its path leads to, twice.
pub open spec fn is_bind_row<
    M,
    V,
    F: Fn(&M, usize, &M) -> M,
    R: Fn() -> V,
    G: Fn(V, &M) -> V,
    D: Fn(V) -> V,
>(
    steps: StepMatrices<M, F>,
    root: R,
    apply: G,
    twice: D,
    path: Seq<Position>,
    row: V,
) -> bool {
    exists|v: V| reaches(steps, root, apply, path, v) && #[trigger] twice.ensures((v,), row)
}

/// What a path can lead to does not depend on the matrices that were made.
proof fn lemma_reaches_kept<M, V, F: Fn(&M, usize, &M) -> M, R: Fn() -> V, G: Fn(V, &M) -> V>(
    before: StepMatrices<M, F>,
    after: StepMatrices<M, F>,
    root: R,
    apply: G,
    path: Seq<Position>,
    out: V,
)
    requires
        before.kept(after),
        reaches(after, root, apply, path, out),
    ensures
        reaches(before, root, apply, path, out),
{
    let r = choose|r: V| root.ensures((), r) && #[trigger] after.leads_to(apply, r, path, out);
    let vectors = choose|vectors: Seq<V>| #[trigger]
        after.leads_along(apply, r, path, vectors) && vectors[path.len() as int] == out;
    assert forall|k: int| 0 <= k < path.len() implies #[trigger] before.leads_at(
        apply,
        path,
        vectors,
        k,
    ) by {
        assert(after.leads_at(apply, path, vectors, k));
        let m = choose|m: M| #[trigger]
            after.is_matrix(path[k], m) && apply.ensures((vectors[k], &m), vectors[k + 1]);
        assert(before.is_matrix(path[k], m));
    }
    assert(before.leads_along(apply, r, path, vectors));
    assert(before.leads_to(apply, r, path, out));
}

/// The vector that a path leads to from a root that `root` gives.
fn reach<M, V, F: Fn(&M, usize, &M) -> M, R: Fn() -> V, G: Fn(V, &M) -> V>(
    steps: &mut StepMatrices<M, F>,
    root: &R,
    path: &[Position],
    apply: &G,
) -> (out: V)
    requires
        old(steps).wf(),
        countable_path(path@),
        root.requires(()),
        forall|v: V, m: &M| #[trigger] apply.requires((v, m)),
    ensures
        final(steps).wf(),
        old(steps).kept(*final(steps)),
        reaches(*old(steps), *root, *apply, path@, out),
{
    let r: V = root();
    steps.embed_path(r, path, apply)
}

/// Token rows, then bind rows. A token's row is the two vectors that its paths lead to, joined; a
/// bind's row is the vector that its path leads to, twice.
pub fn embed_rows<
    M,
    V,
    F: Fn(&M, usize, &M) -> M,
    R: Fn() -> V,
    G: Fn(V, &M) -> V,
    C: Fn(V, V) -> V,
    D: Fn(V) -> V,
>(
    steps: &mut StepMatrices<M, F>,
    root: R,
    tokens: &[Token],
    bind_paths: &[Vec<Position>],
    apply: G,
    join: C,
    twice: D,
) -> (rows: Vec<V>)
    requires
        old(steps).wf(),
        forall|i: int|
            0 <= i < tokens@.len() ==> countable_path((#[trigger] tokens@[i]).position@)
                && countable_path(tokens@[i].declaration@),
        forall|j: int|
            0 <= j < bind_paths@.len() ==> countable_path((#[trigger] bind_paths@[j])@),
        root.requires(()),
        forall|v: V, m: &M| #[trigger] apply.requires((v, m)),
        forall|a: V, b: V| #[trigger] join.requires((a, b)),
        forall|v: V| #[trigger] twice.requires((v,)),
    ensures
        final(steps).wf(),
        old(steps).kept(*final(steps)),
        rows@.len() == tokens@.len() + bind_paths@.len(),
        forall|i: int|
            0 <= i < tokens@.len() ==> is_token_row(
                *old(steps),
                root,
                apply,
                join,
                tokens@[i],
                #[trigger] rows@[i],
            ),
        forall|i: int|
            tokens@.len() <= i < rows@.len() ==> is_bind_row(
                *old(steps),
                root,
                apply,
                twice,
                bind_paths@[i - tokens@.len()]@,
                #[trigger] rows@[i],
            ),
{
    let ghost start = *steps;
    let mut rows: Vec<V> = Vec::new();
    for i in 0..tokens.len()
        invariant
            steps.wf(),
            start.kept(*steps),
            forall|i: int|
                0 <= i < tokens@.len() ==> countable_path((#[trigger] tokens@[i]).position@)
                    && countable_path(tokens@[i].declaration@),
            root.requires(()),
            forall|v: V, m: &M| #[trigger] apply.requires((v, m)),
            forall|a: V, b: V| #[trigger] join.requires((a, b)),
            rows@.len() == i,
            forall|k: int|
                0 <= k < i ==> is_token_row(
                    start,
                    root,
                    apply,
                    join,
                    tokens@[k],
                    #[trigger] rows@[k],
                ),
    {
        let ghost before = *steps;
        let left: V = reach(steps, &root, tokens[i].position.as_slice(), &apply);
        let ghost between = *steps;
        let right: V = reach(steps, &root, tokens[i].declaration.as_slice(), &apply);
        proof {
            lemma_reaches_kept(start, before, root, apply, tokens@[i as int].position@, left);
            lemma_reaches_kept(start, between, root, apply, tokens@[i as int].declaration@, right);
        }
        let row: V = join(left, right);
        assert(is_token_row(start, root, apply, join, tokens@[i as int], row));
        rows.push(row);
    }
    for j in 0..bind_paths.len()
        invariant
            steps.wf(),
            start.kept(*steps),
            forall|j: int|
                0 <= j < bind_paths@.len() ==> countable_path((#[trigger] bind_paths@[j])@),
            root.requires(()),
            forall|v: V, m: &M| #[trigger] apply.requires((v, m)),
            forall|v: V| #[trigger] twice.requires((v,)),
            rows@.len() == tokens@.len() + j,
            forall|k: int|
                0 <= k < tokens@.len() ==> is_token_row(
                    start,
                    root,
                    apply,
                    join,
                    tokens@[k],
                    #[trigger] rows@[k],
                ),
            forall|k: int|
                tokens@.len() <= k < rows@.len() ==> is_bind_row(
                    start,
                    root,
                    apply,
                    twice,
                    bind_paths@[k - tokens@.len()]@,
                    #[trigger] rows@[k],
                ),
    {
        let ghost before = *steps;
        let v: V = reach(steps, &root, bind_paths[j].as_slice(), &apply);
        proof {
            lemma_reaches_kept(start, before, root, apply, bind_paths@[j as int]@, v);
        }
        let row: V = twice(v);
        assert(is_bind_row(start, root, apply, twice, bind_paths@[j as int]@, row));
        rows.push(row);
    }
    rows
}

/// Whether the `k`-th of a list of matrices times a matrix can be the next.
pub open spec fn power_at<M, F: Fn(&M, &M) -> M>(
    matmul: F,
    right: M,
    powers: Seq<M>,
    k: int,
) -> bool {
    matmul.ensures((&powers[k], &right), powers[k + 1])
}

/// A token's row is where its position leads, joined with where its declaration leads, in that
/// order; a bind's row is where its path leads, twice.
pub proof fn law_rows_join_the_paths<
    M,
    V,
    F: Fn(&M, usize, &M) -> M,
    R: Fn() -> V,
    G: Fn(V, &M) -> V,
    C: Fn(V, V) -> V,
    D: Fn(V) -> V,
>(
    steps: StepMatrices<M, F>,
    root: R,
    r0: V,
    apply: G,
    join: C,
    joined: spec_fn(V, V) -> V,
    twice: D,
    doubled: spec_fn(V) -> V,
    token: Token,
    token_row: V,
    path: Seq<Position>,
    bind_row: V,
)
    requires
        forall|a: V| #[trigger] root.ensures((), a) ==> a == r0,
        forall|a: V, b: V, c: V| #[trigger] join.ensures((a, b), c) ==> c == joined(a, b),
        forall|a: V, b: V| #[trigger] twice.ensures((a,), b) ==> b == doubled(a),
        is_token_row(steps, root, apply, join, token, token_row),
        is_bind_row(steps, root, apply, twice, path, bind_row),
    ensures
        exists|l: V, r: V| #[trigger]
            steps.leads_to(apply, r0, token.position@, l) && #[trigger] steps.leads_to(
                apply,
                r0,
                token.declaration@,
                r,
            ) && token_row == joined(l, r),
        exists|v: V| #[trigger]
            steps.leads_to(apply, r0, path, v) && bind_row == doubled(v),
{
    let (l, r) = choose|l: V, r: V|
        {
            &&& reaches(steps, root, apply, token.position@, l)
            &&& reaches(steps, root, apply, token.declaration@, r)
            &&& #[trigger] join.ensures((l, r), token_row)
        };
    assert(steps.leads_to(apply, r0, token.position@, l));
    assert(steps.leads_to(apply, r0, token.declaration@, r));
    let v = choose|v: V|
        reaches(steps, root, apply, path, v) && #[trigger] twice.ensures((v,), bind_row);
    assert(steps.leads_to(apply, r0, path, v));
}

/// Whether these are powers of a matrix, from the first on, each the one before times the matrix.
pub open spec fn are_powers<M, F: Fn(&M, &M) -> M>(matmul: F, right: M, powers: Seq<M>) -> bool {
    &&& powers.len() > 0
    &&& powers[0] == right
    &&& forall|k: int|
        0 <= k < powers.len() - 1 ==> #[trigger] power_at(matmul, right, powers, k)
}

/// Whether `out` can come out as a matrix to a power times another, multiplied from the left.
pub open spec fn is_product<M, F: Fn(&M, &M) -> M>(
    matmul: F,
    right: M,
    n: usize,
    down: M,
    out: M,
) -> bool {
    exists|powers: Seq<M>| #[trigger]
        are_powers(matmul, right, powers) && powers.len() == n && matmul.ensures(
            (&powers[n - 1], &down),
            out,
        )
}

/// A matrix to a power of at least 1 times another, multiplied from the left.
pub fn multiply_out<M, F: Fn(&M, &M) -> M>(right: &M, n: usize, down: &M, matmul: F) -> (out: M)
    requires
        n > 0,
        forall|a: &M, b: &M| #[trigger] matmul.requires((a, b)),
    ensures
        is_product(matmul, *right, n, *down, out),
{
    let mut power: Option<M> = None;
    let ghost mut powers: Seq<M> = seq![*right];
    for k in 1..n
        invariant
            forall|a: &M, b: &M| #[trigger] matmul.requires((a, b)),
            are_powers(matmul, *right, powers),
            powers.len() == k,
            power is None <==> k == 1,
            power matches Some(p) ==> p == powers[k - 1],
    {
        let next: M = match &power {
            Some(p) => matmul(p, right),
            None => matmul(right, right),
        };
        proof {
            let longer = powers.push(next);
            assert forall|i: int| 0 <= i < longer.len() - 1 implies #[trigger] power_at(
                matmul,
                *right,
                longer,
                i,
            ) by {
                if i < powers.len() - 1 {
                    assert(power_at(matmul, *right, powers, i));
                }
            }
            powers = longer;
        }
        power = Some(next);
    }
    match &power {
        Some(p) => matmul(p, down),
        None => matmul(right, down),
    }
}

/// A power times a matrix is the fold over the factors, from the left: the right matrix once, then
/// again for each further power, then the down matrix.
pub proof fn law_product_is_the_fold<M, F: Fn(&M, &M) -> M>(
    matmul: F,
    f: spec_fn(M, M) -> M,
    right: M,
    n: usize,
    down: M,
    out: M,
)
    requires
        forall|a: M, b: M, c: M| #[trigger] matmul.ensures((&a, &b), c) ==> c == f(a, b),
        n > 0,
        is_product(matmul, right, n, down, out),
    ensures
        out == f(Seq::new((n - 1) as nat, |k: int| right).fold_left(right, f), down),
{
    let powers = choose|powers: Seq<M>| #[trigger]
        are_powers(matmul, right, powers) && powers.len() == n && matmul.ensures(
            (&powers[n - 1], &down),
            out,
        );
    lemma_powers_fold(matmul, f, right, powers, n - 1);
}

proof fn lemma_powers_fold<M, F: Fn(&M, &M) -> M>(
    matmul: F,
    f: spec_fn(M, M) -> M,
    right: M,
    powers: Seq<M>,
    k: int,
)
    requires
        forall|a: M, b: M, c: M| #[trigger] matmul.ensures((&a, &b), c) ==> c == f(a, b),
        are_powers(matmul, right, powers),
        0 <= k < powers.len(),
    ensures
        powers[k] == Seq::new(k as nat, |i: int| right).fold_left(right, f),
    decreases k,
{
    let factors = Seq::new(k as nat, |i: int| right);
    if k > 0 {
        lemma_powers_fold(matmul, f, right, powers, k - 1);
        assert(factors.drop_last() =~= Seq::new((k - 1) as nat, |i: int| right));
        assert(power_at(matmul, right, powers, k - 1));
    }
}

/// A path leads from the root, position by position, through the matrix of each: the unit's own, or
/// the product of its kind's right and down matrices with one more than its index as the power.
pub proof fn law_path_is_the_fold<M, V, F: Fn(&M, usize, &M) -> M, G: Fn(V, &M) -> V>(
    steps: StepMatrices<M, F>,
    apply: G,
    f: spec_fn(V, M) -> V,
    h: spec_fn(M, int, M) -> M,
    root: V,
    path: Seq<Position>,
    out: V,
)
    requires
        forall|v: V, m: M, w: V| #[trigger] apply.ensures((v, &m), w) ==> w == f(v, m),
        forall|r: M, n: usize, d: M, m: M| #[trigger]
            steps.product.ensures((&r, n, &d), m) ==> m == h(r, n as int, d),
        forall|k: int|
            0 <= k < path.len() ==> match #[trigger] path[k] {
                Position::Rule(i) | Position::Param(i) | Position::Let(i) | Position::Arg(i) => i
                    < usize::MAX,
                _ => true,
            },
        steps.leads_to(apply, root, path, out),
    ensures
        out == path.fold_left(
            root,
            |v: V, p: Position|
                f(
                    v,
                    match p {
                        Position::Type => steps.unit@[0],
                        Position::LHS => steps.unit@[1],
                        Position::RHS => steps.unit@[2],
                        Position::Rule(i) => h(steps.right@[0], i + 1, steps.down@[0]),
                        Position::Param(i) => h(steps.right@[1], i + 1, steps.down@[1]),
                        Position::Let(i) => h(steps.right@[2], i + 1, steps.down@[2]),
                        Position::Arg(i) => h(steps.right@[3], i + 1, steps.down@[3]),
                    },
                ),
        ),
{
    let vectors = choose|vectors: Seq<V>| #[trigger]
        steps.leads_along(apply, root, path, vectors) && vectors[path.len() as int] == out;
    let g = |v: V, p: Position|
        f(
            v,
            match p {
                Position::Type => steps.unit@[0],
                Position::LHS => steps.unit@[1],
                Position::RHS => steps.unit@[2],
                Position::Rule(i) => h(steps.right@[0], i + 1, steps.down@[0]),
                Position::Param(i) => h(steps.right@[1], i + 1, steps.down@[1]),
                Position::Let(i) => h(steps.right@[2], i + 1, steps.down@[2]),
                Position::Arg(i) => h(steps.right@[3], i + 1, steps.down@[3]),
            },
        );
    assert forall|k: int| 0 <= k < path.len() implies #[trigger] g(vectors[k], path[k]) == vectors[k
        + 1] by {
        assert(steps.leads_at(apply, path, vectors, k));
        let m = choose|m: M| #[trigger]
            steps.is_matrix(path[k], m) && apply.ensures((vectors[k], &m), vectors[k + 1]);
        assert(vectors[k + 1] == f(vectors[k], m));
    }
    lemma_fold(path, g, vectors, path.len() as int);
    assert(path.take(path.len() as int) =~= path);
}

proof fn lemma_fold<V>(
    path: Seq<Position>,
    g: spec_fn(V, Position) -> V,
    vectors: Seq<V>,
    k: int,
)
    requires
        vectors.len() == path.len() + 1,
        0 <= k <= path.len(),
        forall|i: int| 0 <= i < path.len() ==> #[trigger] g(vectors[i], path[i]) == vectors[i + 1],
    ensures
        path.take(k).fold_left(vectors[0], g) == vectors[k],
    decreases k,
{
    if k > 0 {
        lemma_fold(path, g, vectors, k - 1);
        assert(path.take(k).drop_last() =~= path.take(k - 1));
        assert(path.take(k).last() == path[k - 1]);
        assert(g(vectors[k - 1], path[k - 1]) == vectors[k]);
    }
}

/// Whether one lot of matrices can come of another by asking for a position.
pub open spec fn asked<M, F: Fn(&M, usize, &M) -> M>(
    before: StepMatrices<M, F>,
    after: StepMatrices<M, F>,
    pos: Position,
) -> bool {
    &&& after.wf()
    &&& after.unit == before.unit
    &&& after.right == before.right
    &&& after.down == before.down
    &&& after.product == before.product
    &&& after.known(pos) is Some
    &&& before.known(pos) is Some ==> after.known(pos) == before.known(pos)
    &&& forall|q: Position|
        q != pos && index_of(q) < usize::MAX ==> #[trigger] after.known(q) == before.known(q)
}

/// Whether these lots of matrices come one of the other by asking for these positions in turn.
pub open spec fn history<M, F: Fn(&M, usize, &M) -> M>(
    lots: Seq<StepMatrices<M, F>>,
    asks: Seq<Position>,
) -> bool {
    &&& lots.len() == asks.len() + 1
    &&& lots[0].wf()
    &&& forall|k: int| 1 <= k < lots.len() ==> asked(lots[k - 1], #[trigger] lots[k], asks[k - 1])
}

/// Whatever was asked for before, the matrix of a position is its recipe's product; and once a
/// position has a matrix it keeps it, whatever is asked for in between.
pub proof fn law_step_is_the_product_and_stays<M, F: Fn(&M, usize, &M) -> M>(
    lots: Seq<StepMatrices<M, F>>,
    asks: Seq<Position>,
    pos: Position,
    from: int,
    to: int,
)
    requires
        history(lots, asks),
        index_of(pos) < usize::MAX,
        0 <= from <= to < lots.len(),
        lots[from].known(pos) is Some,
    ensures
        lots[to].known(pos) == lots[from].known(pos),
        lots[0].is_matrix(pos, lots[to].known(pos)->0),
    decreases to,
{
    lemma_history(lots, asks, to);
    if from < to {
        law_step_is_the_product_and_stays(lots, asks, pos, from, to - 1);
        assert(asked(lots[to - 1], lots[to], asks[to - 1]));
    }
}

/// The matrices that positions are made from stay.
proof fn lemma_history<M, F: Fn(&M, usize, &M) -> M>(
    lots: Seq<StepMatrices<M, F>>,
    asks: Seq<Position>,
    k: int,
)
    requires
        history(lots, asks),
        0 <= k < lots.len(),
    ensures
        lots[k].wf(),
        lots[k].unit == lots[0].unit,
        lots[k].right == lots[0].right,
        lots[k].down == lots[0].down,
        lots[k].product == lots[0].product,
    decreases k,
{
    if k > 0 {
        lemma_history(lots, asks, k - 1);
        assert(asked(lots[k - 1], lots[k], asks[k - 1]));
    }
}

/// The matrix of a step.
pub open spec fn step_matrix<M, F: Fn(&M, usize, &M) -> M>(steps: StepMatrices<M, F>, step: u8) -> M {
    if step < 3 {
        steps.unit@[step as int]
    } else if step % 2 == 1 {
        steps.right@[(step - 3) / 2]
    } else {
        steps.down@[(step - 4) / 2]
    }
}

/// The matrices of a list of steps.
pub open spec fn step_matrices<M, F: Fn(&M, usize, &M) -> M>(
    steps: StepMatrices<M, F>,
    list: Seq<u8>,
) -> Seq<M> {
    Seq::new(list.len(), |k: int| step_matrix(steps, list[k]))
}

/// Whether the `k`-th matrix of a list, applied to the `k`-th vector, can give the next.
pub open spec fn applied_at<M, V, G: Fn(V, &M) -> V>(
    apply: G,
    matrices: Seq<M>,
    vectors: Seq<V>,
    k: int,
) -> bool {
    apply.ensures((vectors[k], &matrices[k]), vectors[k + 1])
}

/// Whether these are the vectors that come of applying matrices in turn, from the root on.
pub open spec fn applied<M, V, G: Fn(V, &M) -> V>(
    apply: G,
    root: V,
    matrices: Seq<M>,
    vectors: Seq<V>,
) -> bool {
    &&& vectors.len() == matrices.len() + 1
    &&& vectors[0] == root
    &&& forall|k: int|
        0 <= k < matrices.len() ==> #[trigger] applied_at(apply, matrices, vectors, k)
}

/// Whether applying a matrix always comes to the same.
pub open spec fn applies_alike<M, V, G: Fn(V, &M) -> V>(apply: G) -> bool {
    forall|v: V, m: M, a: V, b: V| #[trigger]
        apply.ensures((v, &m), a) && #[trigger] apply.ensures((v, &m), b) ==> a == b
}

/// Whether applying one matrix and then another comes to applying their product.
pub open spec fn composes<M, V, G: Fn(V, &M) -> V, P: Fn(&M, &M) -> M>(apply: G, matmul: P) -> bool {
    forall|a: M, b: M, ab: M, u: V, v: V, w: V|
        #![trigger matmul.ensures((&a, &b), ab), apply.ensures((u, &a), v), apply.ensures((v, &b), w)]
        matmul.ensures((&a, &b), ab) && apply.ensures((u, &a), v) && apply.ensures((v, &b), w)
            ==> apply.ensures((u, &ab), w)
}

/// Whether the products of these matrices are multiplied out, as [`multiply_out`] does.
pub open spec fn multiplies_out<M, F: Fn(&M, usize, &M) -> M, P: Fn(&M, &M) -> M>(
    steps: StepMatrices<M, F>,
    matmul: P,
) -> bool {
    forall|right: M, n: usize, down: M, out: M|
        n > 0 && #[trigger] steps.product.ensures((&right, n, &down), out) ==> is_product(
            matmul,
            right,
            n,
            down,
            out,
        )
}

/// Applying a matrix `k` times comes to applying its `k`-th power.
proof fn lemma_power_applies<M, V, G: Fn(V, &M) -> V, P: Fn(&M, &M) -> M>(
    apply: G,
    matmul: P,
    right: M,
    powers: Seq<M>,
    root: V,
    matrices: Seq<M>,
    vectors: Seq<V>,
    k: int,
)
    requires
        composes(apply, matmul),
        are_powers(matmul, right, powers),
        applied(apply, root, matrices, vectors),
        1 <= k <= powers.len(),
        k <= matrices.len(),
        forall|i: int| 0 <= i < k ==> #[trigger] matrices[i] == right,
    ensures
        apply.ensures((root, &powers[k - 1]), vectors[k]),
    decreases k,
{
    assert(applied_at(apply, matrices, vectors, k - 1));
    assert(matrices[k - 1] == right);
    if k > 1 {
        lemma_power_applies(apply, matmul, right, powers, root, matrices, vectors, k - 1);
        assert(power_at(matmul, right, powers, k - 2));
    }
}

/// The matrices of an indexed position's steps: the right one, as often as the power says, and the
/// down one.
proof fn lemma_indexed_matrices<M, F: Fn(&M, usize, &M) -> M>(
    steps: StepMatrices<M, F>,
    pos: Position,
    kind: Kind,
    n: usize,
)
    requires
        index_of(pos) < usize::MAX,
        recipe_of(pos) == Recipe::Indexed(kind, n),
    ensures
        n > 0,
        step_matrices(steps, steps_of(pos)).len() == n + 1,
        forall|k: int|
            0 <= k < n ==> #[trigger] step_matrices(steps, steps_of(pos))[k]
                == steps.right@[kind_place(kind)],
        step_matrices(steps, steps_of(pos))[n as int] == steps.down@[kind_place(kind)],
{
    law_steps_are_factors(pos);
    let list = steps_of(pos);
    assert(list.len() == n + 1);
    assert(list[n as int] == down_step(kind));
    assert forall|k: int| 0 <= k < n implies #[trigger] step_matrices(steps, list)[k]
        == steps.right@[kind_place(kind)] by {
        assert(list[k] == right_step(kind));
    }
}

/// Applying a matrix as often as a power says, and then another, comes to applying the product.
proof fn lemma_product_applies<M, V, G: Fn(V, &M) -> V, P: Fn(&M, &M) -> M>(
    apply: G,
    matmul: P,
    right: M,
    n: usize,
    down: M,
    m: M,
    root: V,
    matrices: Seq<M>,
    vectors: Seq<V>,
)
    requires
        composes(apply, matmul),
        n > 0,
        is_product(matmul, right, n, down, m),
        applied(apply, root, matrices, vectors),
        matrices.len() == n + 1,
        forall|i: int| 0 <= i < n ==> #[trigger] matrices[i] == right,
        matrices[n as int] == down,
    ensures
        apply.ensures((root, &m), vectors[n + 1]),
{
    let powers = choose|powers: Seq<M>| #[trigger]
        are_powers(matmul, right, powers) && powers.len() == n && matmul.ensures(
            (&powers[n - 1], &down),
            m,
        );
    lemma_power_applies(apply, matmul, right, powers, root, matrices, vectors, n as int);
    assert(applied_at(apply, matrices, vectors, n as int));
}

/// Applying the matrices of a position's steps in turn comes to applying the position's matrix.
proof fn lemma_position_applies<
    M,
    V,
    F: Fn(&M, usize, &M) -> M,
    G: Fn(V, &M) -> V,
    P: Fn(&M, &M) -> M,
>(
    steps: StepMatrices<M, F>,
    apply: G,
    matmul: P,
    pos: Position,
    m: M,
    root: V,
    vectors: Seq<V>,
)
    requires
        composes(apply, matmul),
        multiplies_out(steps, matmul),
        index_of(pos) < usize::MAX,
        steps.is_matrix(pos, m),
        applied(apply, root, step_matrices(steps, steps_of(pos)), vectors),
    ensures
        apply.ensures((root, &m), vectors[steps_of(pos).len() as int]),
{
    let matrices = step_matrices(steps, steps_of(pos));
    match recipe_of(pos) {
        Recipe::Unit(unit) => {
            law_steps_are_factors(pos);
            assert(steps_of(pos)[0] == unit_step(unit));
            assert(applied_at(apply, matrices, vectors, 0));
        },
        Recipe::Indexed(kind, n) => {
            lemma_indexed_matrices(steps, pos, kind, n);
            let right = steps.right@[kind_place(kind)];
            let down = steps.down@[kind_place(kind)];
            lemma_product_applies(apply, matmul, right, n, down, m, root, matrices, vectors);
        },
    }
}

/// Walking along the steps of a path and multiplying by one matrix for each position come to the
/// same vector, where applying one matrix and then another comes to applying their product.
pub proof fn law_steps_and_positions_agree<
    M,
    V,
    F: Fn(&M, usize, &M) -> M,
    G: Fn(V, &M) -> V,
    P: Fn(&M, &M) -> M,
>(
    steps: StepMatrices<M, F>,
    apply: G,
    matmul: P,
    root: V,
    path: Seq<Position>,
    out: V,
    vectors: Seq<V>,
)
    requires
        applies_alike::<M, V, G>(apply),
        composes(apply, matmul),
        multiplies_out(steps, matmul),
        countable_path(path),
        steps.leads_to(apply, root, path, out),
        applied(apply, root, step_matrices(steps, path_steps(path)), vectors),
    ensures
        out == vectors[path_steps(path).len() as int],
    decreases path.len(),
{
    let along = choose|along: Seq<V>| #[trigger]
        steps.leads_along(apply, root, path, along) && along[path.len() as int] == out;
    if path.len() > 0 {
        let init = path.drop_last();
        let pos = path.last();
        let n = path_steps(init).len() as int;
        assert(pos == path[path.len() - 1]);
        assert(countable_path(init)) by {
            assert forall|k: int| 0 <= k < init.len() implies index_of(#[trigger] init[k])
                < usize::MAX by {
                assert(init[k] == path[k]);
            }
        }
        let shorter = along.drop_last();
        assert forall|k: int| 0 <= k < init.len() implies #[trigger] steps.leads_at(
            apply,
            init,
            shorter,
            k,
        ) by {
            assert(steps.leads_at(apply, path, along, k));
        }
        let before = along[path.len() - 1];
        assert(steps.leads_along(apply, root, init, shorter));
        assert(steps.leads_to(apply, root, init, before));
        let first = vectors.take(n + 1);
        let rest = vectors.skip(n);
        let all = step_matrices(steps, path_steps(path));
        let head = step_matrices(steps, path_steps(init));
        let tail = step_matrices(steps, steps_of(pos));
        assert forall|k: int| 0 <= k < head.len() implies #[trigger] applied_at(
            apply,
            head,
            first,
            k,
        ) by {
            assert(applied_at(apply, all, vectors, k));
            assert(all[k] == head[k]);
        }
        assert(applied(apply, root, head, first));
        law_steps_and_positions_agree(steps, apply, matmul, root, init, before, first);
        assert forall|k: int| 0 <= k < tail.len() implies #[trigger] applied_at(
            apply,
            tail,
            rest,
            k,
        ) by {
            assert(applied_at(apply, all, vectors, n + k));
            assert(all[n + k] == tail[k]);
        }
        assert(applied(apply, before, tail, rest));
        assert(steps.leads_at(apply, path, along, path.len() - 1));
        let m = choose|m: M| #[trigger]
            steps.is_matrix(pos, m) && apply.ensures((before, &m), out);
        lemma_position_applies(steps, apply, matmul, pos, m, before, rest);
    }
}

} // verus!
