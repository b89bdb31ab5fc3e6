//! The reactive property engine: lazily evaluated, dirty-tracked property
//! cells with read-time dependency tracking.
//!
//! What a store of cells *means* is given by [`cell_value`]: a cell without a
//! binding has its literal value; a cell with a binding has the value of the
//! binding's expression, in which a read of another cell stands for that
//! cell's own value. A cell whose binding reads itself, directly or through
//! others, has no value: it is in a binding loop. The states of the cells
//! (clean, dirty, being evaluated), the cached values and the dependency
//! edges are bookkeeping that never changes this meaning.

use vstd::prelude::*;
use crate::eval::{
    apply_binary, apply_unary, clone_value, default_for, is_true, Value, ValueModel,
};
use crate::expression_tree::{
    compatible, eval_with, extends, lemma_eval_compatible, lemma_eval_extends, lemma_eval_frame,
    lemma_reads_have_values, reads, size, Expression, Valuation,
};

verus! {

/// What a property cell holds, as far as its meaning goes.
pub enum Content {
    /// A value that was written into the cell.
    Literal(ValueModel),
    /// An expression that is evaluated when the cell is read.
    Binding(Expression),
}

/// The value of cell `c` when at most `fuel` bindings may be entered one
/// inside the other; `None` when that is not enough. A cell out of range
/// reads as `Void`.
pub open spec fn cell_value(content: Seq<Content>, c: int, fuel: nat) -> Option<ValueModel>
    decreases fuel, 0nat,
{
    if 0 <= c < content.len() {
        match content[c] {
            Content::Literal(v) => Some(v),
            Content::Binding(e) => if fuel == 0 {
                None
            } else {
                eval_with(e, valuation(content, (fuel - 1) as nat))
            },
        }
    } else {
        Some(ValueModel::Void)
    }
}

/// The values of all cells at a given depth of nesting.
pub open spec fn valuation(content: Seq<Content>, fuel: nat) -> Valuation
    decreases fuel, 1nat,
{
    Seq::new(content.len(), |q: int| cell_value(content, q, fuel))
}

/// Cell `c` has a value at some depth of nesting.
pub open spec fn converges(content: Seq<Content>, c: int) -> bool {
    exists|fuel: nat| (#[trigger] cell_value(content, c, fuel)).is_some()
}

/// The value of cell `c`, or `None` when the cell is in a binding loop.
pub open spec fn denotation(content: Seq<Content>, c: int) -> Option<ValueModel> {
    if converges(content, c) {
        cell_value(content, c, choose|fuel: nat| (#[trigger] cell_value(content, c, fuel)).is_some())
    } else {
        None
    }
}

/// A value, once reached, stays the same at every greater depth.
pub proof fn lemma_cell_value_monotone(content: Seq<Content>, c: int, low: nat, high: nat)
    requires
        low <= high,
        cell_value(content, c, low).is_some(),
    ensures
        cell_value(content, c, high) == cell_value(content, c, low),
    decreases low,
{
    if 0 <= c < content.len() {
        match content[c] {
            Content::Literal(v) => {},
            Content::Binding(e) => {
                let env_low = valuation(content, (low - 1) as nat);
                let env_high = valuation(content, (high - 1) as nat);
                assert forall|q: int| 0 <= q < env_low.len() && (#[trigger] env_low[q]).is_some()
                    implies env_high[q] == env_low[q] by {
                    lemma_cell_value_monotone(content, q, (low - 1) as nat, (high - 1) as nat);
                }
                lemma_eval_extends(e, env_low, env_high);
            },
        }
    }
}

/// The value of a cell does not depend on the depth at which it is reached.
pub proof fn lemma_denotation_is_cell_value(content: Seq<Content>, c: int, fuel: nat)
    requires
        cell_value(content, c, fuel).is_some(),
    ensures
        denotation(content, c) == cell_value(content, c, fuel),
{
    let other = choose|f: nat| (#[trigger] cell_value(content, c, f)).is_some();
    if other <= fuel {
        lemma_cell_value_monotone(content, c, other, fuel);
    } else {
        lemma_cell_value_monotone(content, c, fuel, other);
    }
}

/// The valuations at two depths give no cell two different values.
pub proof fn lemma_valuations_compatible(content: Seq<Content>, low: nat, high: nat)
    ensures
        compatible(valuation(content, low), valuation(content, high)),
{
    let a = valuation(content, low);
    let b = valuation(content, high);
    assert forall|q: int| 0 <= q < a.len() && (#[trigger] a[q]).is_some() && b[q].is_some()
        implies b[q] == a[q] by {
        if low <= high {
            lemma_cell_value_monotone(content, q, low, high);
        } else {
            lemma_cell_value_monotone(content, q, high, low);
        }
    }
}

/// A cell whose value at any depth would need its own value at a smaller
/// depth has no value at all.
pub proof fn lemma_self_dependent_cell_diverges(content: Seq<Content>, c: int, fuel: nat)
    requires
        forall|f: nat|
            f > 0 && (#[trigger] cell_value(content, c, f)).is_some() ==> cell_value(
                content,
                c,
                (f - 1) as nat,
            ).is_some(),
        cell_value(content, c, 0).is_none(),
    ensures
        cell_value(content, c, fuel).is_none(),
    decreases fuel,
{
    if fuel > 0 {
        lemma_self_dependent_cell_diverges(content, c, (fuel - 1) as nat);
    }
}

/// The values of all cells.
pub open spec fn denotations(content: Seq<Content>) -> Valuation {
    Seq::new(content.len(), |q: int| denotation(content, q))
}

/// A depth of nesting at which each of the first `n` cells that has a value
/// at all has reached it.
pub open spec fn settling_depth(content: Seq<Content>, n: nat) -> nat
    decreases n,
{
    if n == 0 {
        0
    } else {
        let below = settling_depth(content, (n - 1) as nat);
        let c = (n - 1) as int;
        if converges(content, c) {
            let own = choose|fuel: nat| (#[trigger] cell_value(content, c, fuel)).is_some();
            if own >= below {
                own
            } else {
                below
            }
        } else {
            below
        }
    }
}

proof fn lemma_settled(content: Seq<Content>, n: nat, c: int)
    requires
        0 <= c < n,
    ensures
        cell_value(content, c, settling_depth(content, n)) == denotation(content, c),
    decreases n,
{
    let depth = settling_depth(content, n);
    let below = settling_depth(content, (n - 1) as nat);
    if c == n - 1 {
        if converges(content, c) {
            let own = choose|fuel: nat| (#[trigger] cell_value(content, c, fuel)).is_some();
            lemma_cell_value_monotone(content, c, own, depth);
        } else {
            assert(cell_value(content, c, depth).is_none());
        }
    } else {
        lemma_settled(content, (n - 1) as nat, c);
        if denotation(content, c).is_some() {
            lemma_cell_value_monotone(content, c, below, depth);
        } else {
            if cell_value(content, c, depth).is_some() {
                lemma_denotation_is_cell_value(content, c, depth);
            }
        }
    }
}

/// At some depth of nesting every cell has the value it means.
pub proof fn lemma_valuation_settles(content: Seq<Content>)
    ensures
        valuation(content, settling_depth(content, content.len())) == denotations(content),
{
    let depth = settling_depth(content, content.len());
    assert forall|c: int| 0 <= c < content.len() implies valuation(content, depth)[c]
        == denotations(content)[c] by {
        lemma_settled(content, content.len(), c);
    }
    assert(valuation(content, depth) =~= denotations(content));
}

/// The value of a cell with a binding is the value of the binding's
/// expression on the values of all cells.
pub proof fn lemma_denotation_of_binding(content: Seq<Content>, c: int, e: Expression)
    requires
        0 <= c < content.len(),
        content[c] == Content::Binding(e),
    ensures
        denotation(content, c) == eval_with(e, denotations(content)),
{
    let depth = settling_depth(content, content.len());
    lemma_valuation_settles(content);
    assert(cell_value(content, c, depth + 1) == eval_with(e, valuation(content, depth)));
    if eval_with(e, denotations(content)).is_some() {
        lemma_denotation_is_cell_value(content, c, depth + 1);
    } else {
        if converges(content, c) {
            let f = choose|fuel: nat| (#[trigger] cell_value(content, c, fuel)).is_some();
            let shallow = valuation(content, (f - 1) as nat);
            assert forall|q: int| 0 <= q < shallow.len() && (#[trigger] shallow[q]).is_some()
                implies denotations(content)[q] == shallow[q] by {
                lemma_denotation_is_cell_value(content, q, (f - 1) as nat);
            }
            lemma_eval_extends(e, shallow, denotations(content));
        }
    }
}

/// The value of a cell without a binding is the value written into it.
pub proof fn lemma_denotation_of_literal(content: Seq<Content>, c: int, v: ValueModel)
    requires
        0 <= c < content.len(),
        content[c] == Content::Literal(v),
    ensures
        denotation(content, c) == Some(v),
{
    lemma_denotation_is_cell_value(content, c, 0);
}

/// Dependency propagation is exact: once a value is written into cell
/// `source`, every cell with a binding means what its binding gives on the
/// values the cells then have, the written value among them.
pub proof fn lemma_write_reaches_dependents(
    content: Seq<Content>,
    source: int,
    v: ValueModel,
    target: int,
    binding: Expression,
)
    requires
        0 <= source < content.len(),
        0 <= target < content.len(),
        target != source,
        content[target] == Content::Binding(binding),
    ensures
        ({
            let written = content.update(source, Content::Literal(v));
            &&& denotations(written)[source] == Some(v)
            &&& denotation(written, target) == eval_with(binding, denotations(written))
        }),
{
    let written = content.update(source, Content::Literal(v));
    lemma_denotation_of_literal(written, source, v);
    lemma_denotation_of_binding(written, target, binding);
}

/// Evaluating `e` always reads slot `q`: `e` has no value where `q` has
/// none.
pub open spec fn always_reads(e: Expression, q: int) -> bool {
    forall|env: Valuation|
        0 <= q < env.len() && (#[trigger] eval_with(e, env)).is_some() ==> env[q].is_some()
}

/// Two cells whose bindings read each other have no value: they are in a
/// binding loop.
pub proof fn lemma_mutual_bindings_loop(
    content: Seq<Content>,
    a: int,
    b: int,
    binding_a: Expression,
    binding_b: Expression,
)
    requires
        0 <= a < content.len(),
        0 <= b < content.len(),
        content[a] == Content::Binding(binding_a),
        content[b] == Content::Binding(binding_b),
        always_reads(binding_a, b),
        always_reads(binding_b, a),
    ensures
        denotation(content, a).is_none(),
        denotation(content, b).is_none(),
{
    assert forall|f: nat| f > 0 && (#[trigger] cell_value(content, a, f)).is_some() implies cell_value(
        content,
        a,
        (f - 1) as nat,
    ).is_some() by {
        let env = valuation(content, (f - 1) as nat);
        assert(eval_with(binding_a, env).is_some());
        assert(env[b] == cell_value(content, b, (f - 1) as nat));
        assert(f - 1 > 0);
        let deeper = valuation(content, (f - 2) as nat);
        assert(eval_with(binding_b, deeper).is_some());
        assert(deeper[a] == cell_value(content, a, (f - 2) as nat));
        lemma_cell_value_monotone(content, a, (f - 2) as nat, (f - 1) as nat);
    }
    assert forall|f: nat| (#[trigger] cell_value(content, a, f)).is_none() by {
        lemma_self_dependent_cell_diverges(content, a, f);
    }
    assert forall|f: nat| (#[trigger] cell_value(content, b, f)).is_none() by {
        if cell_value(content, b, f).is_some() {
            let env = valuation(content, (f - 1) as nat);
            assert(eval_with(binding_b, env).is_some());
            assert(env[a] == cell_value(content, a, (f - 1) as nat));
        }
    }
}

/// Where a cell stands in its evaluation cycle.
#[derive(Clone, Copy, Debug, PartialEq, Eq, Structural)]
pub enum CellState {
    /// The cell holds its current value.
    Clean,
    /// The cell has a binding that must run before the cell can be read.
    Dirty,
    /// The binding of the cell is running.
    Evaluating,
}

/// One property cell.
pub struct PropertyCell {
    pub state: CellState,
    /// The literal value, or the result of the binding when the cell is clean.
    pub value: Value,
    /// The cells that read this cell when they were last evaluated.
    pub dependents: Vec<usize>,
    /// A bound on how deeply the bindings under this cell nest.
    pub rank: Ghost<nat>,
}

/// The values that the cells hold right now: those of the clean cells.
pub open spec fn current_values(cells: Seq<PropertyCell>) -> Valuation {
    Seq::new(
        cells.len(),
        |q: int|
            if cells[q].state == CellState::Clean {
                Some(cells[q].value@)
            } else {
                None
            },
    )
}

/// The meaning-bearing part of the cells.
pub open spec fn content_of(bindings: Seq<Option<Expression>>, cells: Seq<PropertyCell>) -> Seq<
    Content,
> {
    Seq::new(
        cells.len(),
        |c: int|
            match bindings[c] {
                Some(e) => Content::Binding(e),
                None => Content::Literal(cells[c].value@),
            },
    )
}

/// A clean cell with a binding holds what the binding gives on the values the
/// cells hold now, and every cell that the binding read knows it as a
/// dependent. A cell without a binding is clean.
pub open spec fn cell_coherent(
    bindings: Seq<Option<Expression>>,
    cells: Seq<PropertyCell>,
    c: int,
) -> bool {
    match bindings[c] {
        None => cells[c].state == CellState::Clean,
        Some(b) => cells[c].state == CellState::Clean ==> {
            &&& eval_with(b, current_values(cells)) == Some(cells[c].value@)
            &&& forall|q: int| #[trigger]
                reads(b, current_values(cells)).contains(q) ==> cells[q].rank@ < cells[c].rank@
                    && cells[q].dependents@.contains(c as usize)
        },
    }
}

/// The invariant of the cells of one instance.
pub open spec fn coherent(bindings: Seq<Option<Expression>>, cells: Seq<PropertyCell>) -> bool {
    &&& bindings.len() == cells.len()
    &&& forall|c: int| 0 <= c < cells.len() ==> #[trigger] cell_coherent(bindings, cells, c)
}

/// No binding is running.
pub open spec fn at_rest(cells: Seq<PropertyCell>) -> bool {
    forall|c: int| 0 <= c < cells.len() ==> (#[trigger] cells[c]).state != CellState::Evaluating
}

/// A clean cell holds its value: the cached result is what the binding means.
pub proof fn lemma_clean_cell_has_value(
    bindings: Seq<Option<Expression>>,
    cells: Seq<PropertyCell>,
    c: int,
)
    requires
        coherent(bindings, cells),
        0 <= c < cells.len(),
        cells[c].state == CellState::Clean,
    ensures
        cell_value(content_of(bindings, cells), c, cells[c].rank@ + 1) == Some(cells[c].value@),
    decreases cells[c].rank@,
{
    let content = content_of(bindings, cells);
    assert(cell_coherent(bindings, cells, c));
    match bindings[c] {
        None => {},
        Some(b) => {
            let now = current_values(cells);
            let deep = valuation(content, cells[c].rank@);
            lemma_reads_have_values(b, now);
            assert forall|q: int| reads(b, now).contains(q) implies deep[q] == now[q] by {
                lemma_clean_cell_has_value(bindings, cells, q);
                lemma_cell_value_monotone(content, q, cells[q].rank@ + 1, cells[c].rank@);
            }
            lemma_eval_frame(b, now, deep);
        },
    }
}

/// The values that the cells hold never contradict what the cells mean.
pub proof fn lemma_current_values_compatible(
    bindings: Seq<Option<Expression>>,
    cells: Seq<PropertyCell>,
    fuel: nat,
)
    requires
        coherent(bindings, cells),
    ensures
        compatible(current_values(cells), valuation(content_of(bindings, cells), fuel)),
{
    let content = content_of(bindings, cells);
    let now = current_values(cells);
    let deep = valuation(content, fuel);
    assert forall|q: int| 0 <= q < now.len() && (#[trigger] now[q]).is_some() && deep[q].is_some()
        implies deep[q] == now[q] by {
        lemma_clean_cell_has_value(bindings, cells, q);
        let r = cells[q].rank@ + 1;
        if r <= fuel {
            lemma_cell_value_monotone(content, q, r as nat, fuel);
        } else {
            lemma_cell_value_monotone(content, q, fuel, r as nat);
        }
    }
}

/// The number of cells whose binding is not running.
pub open spec fn idle_count(cells: Seq<PropertyCell>) -> nat
    decreases cells.len(),
{
    if cells.len() == 0 {
        0
    } else {
        idle_count(cells.drop_last()) + if cells.last().state == CellState::Evaluating {
            0nat
        } else {
            1nat
        }
    }
}

proof fn lemma_idle_count_update(cells: Seq<PropertyCell>, c: int, cell: PropertyCell)
    requires
        0 <= c < cells.len(),
    ensures
        idle_count(cells.update(c, cell)) + (if cells[c].state == CellState::Evaluating {
            0int
        } else {
            1int
        }) == idle_count(cells) + (if cell.state == CellState::Evaluating {
            0int
        } else {
            1int
        }),
    decreases cells.len(),
{
    let updated = cells.update(c, cell);
    if c == cells.len() - 1 {
        assert(updated.drop_last() =~= cells.drop_last());
    } else {
        lemma_idle_count_update(cells.drop_last(), c, cell);
        assert(updated.drop_last() =~= cells.drop_last().update(c, cell));
    }
}

proof fn lemma_idle_count_same(a: Seq<PropertyCell>, b: Seq<PropertyCell>)
    requires
        a.len() == b.len(),
        forall|q: int|
            0 <= q < a.len() ==> ((#[trigger] a[q]).state == CellState::Evaluating <==> b[q].state
                == CellState::Evaluating),
    ensures
        idle_count(a) == idle_count(b),
    decreases a.len(),
{
    if a.len() > 0 {
        assert(a.last() == a[a.len() - 1]);
        assert(b.last() == b[b.len() - 1]);
        assert forall|q: int| 0 <= q < a.drop_last().len() implies ((#[trigger] a.drop_last()[q]).state
            == CellState::Evaluating <==> b.drop_last()[q].state == CellState::Evaluating) by {
            assert(a.drop_last()[q] == a[q]);
            assert(b.drop_last()[q] == b[q]);
        }
        lemma_idle_count_same(a.drop_last(), b.drop_last());
    }
}

/// What an evaluation may do to a cell: a clean cell keeps its value, a
/// running binding keeps running and nothing else starts to run, and no
/// dependent is forgotten.
pub open spec fn cell_kept(before: PropertyCell, after: PropertyCell) -> bool {
    &&& before.state == CellState::Clean ==> after.state == CellState::Clean && after.value
        == before.value && after.rank == before.rank
    &&& before.state == CellState::Evaluating <==> after.state == CellState::Evaluating
    &&& forall|x: usize| #[trigger]
        before.dependents@.contains(x) ==> after.dependents@.contains(x)
}

/// What an evaluation may do to the cells.
pub open spec fn kept(before: Seq<PropertyCell>, after: Seq<PropertyCell>) -> bool {
    &&& after.len() == before.len()
    &&& forall|q: int| 0 <= q < before.len() ==> cell_kept(#[trigger] before[q], after[q])
}

proof fn lemma_kept_transitive(a: Seq<PropertyCell>, b: Seq<PropertyCell>, c: Seq<PropertyCell>)
    requires
        kept(a, b),
        kept(b, c),
    ensures
        kept(a, c),
{
    assert forall|q: int| 0 <= q < a.len() implies cell_kept(#[trigger] a[q], c[q]) by {
        assert(cell_kept(a[q], b[q]));
        assert(cell_kept(b[q], c[q]));
    }
}

proof fn lemma_kept_content(
    bindings: Seq<Option<Expression>>,
    before: Seq<PropertyCell>,
    after: Seq<PropertyCell>,
)
    requires
        coherent(bindings, before),
        kept(before, after),
    ensures
        content_of(bindings, after) == content_of(bindings, before),
        extends(current_values(before), current_values(after)),
        idle_count(after) == idle_count(before),
{
    assert forall|c: int| 0 <= c < before.len() implies content_of(bindings, after)[c]
        == content_of(bindings, before)[c] by {
        assert(cell_coherent(bindings, before, c));
        assert(cell_kept(before[c], after[c]));
    }
    assert(content_of(bindings, after) =~= content_of(bindings, before));
    assert forall|q: int|
        0 <= q < before.len() && (#[trigger] current_values(before)[q]).is_some()
            implies current_values(after)[q] == current_values(before)[q] by {
        assert(cell_kept(before[q], after[q]));
    }
    assert forall|q: int| 0 <= q < before.len() implies ((#[trigger] before[q]).state
        == CellState::Evaluating <==> after[q].state == CellState::Evaluating) by {
        assert(cell_kept(before[q], after[q]));
    }
    lemma_idle_count_same(before, after);
}

/// Every cell that the evaluation of `e` read is ranked at most `bound` and
/// knows `reader` as a dependent.
pub open spec fn reads_registered(
    e: Expression,
    cells: Seq<PropertyCell>,
    reader: usize,
    bound: nat,
) -> bool {
    forall|q: int| #[trigger]
        reads(e, current_values(cells)).contains(q) ==> cells[q].rank@ <= bound
            && cells[q].dependents@.contains(reader)
}

proof fn lemma_registered_kept(
    e: Expression,
    before: Seq<PropertyCell>,
    after: Seq<PropertyCell>,
    reader: usize,
    bound: nat,
    wider: nat,
)
    requires
        eval_with(e, current_values(before)).is_some(),
        reads_registered(e, before, reader, bound),
        kept(before, after),
        extends(current_values(before), current_values(after)),
        bound <= wider,
    ensures
        eval_with(e, current_values(after)) == eval_with(e, current_values(before)),
        reads(e, current_values(after)) == reads(e, current_values(before)),
        reads_registered(e, after, reader, wider),
{
    lemma_eval_extends(e, current_values(before), current_values(after));
    lemma_reads_have_values(e, current_values(before));
    assert forall|q: int| #[trigger]
        reads(e, current_values(after)).contains(q) implies after[q].rank@ <= wider
        && after[q].dependents@.contains(reader) by {
        assert(reads(e, current_values(before)).contains(q));
        assert(cell_kept(before[q], after[q]));
    }
}

/// Why an expression has no value: at every depth of nesting at which it
/// would have one, the cell `blocker` would have to have one first. With no
/// blocker the expression has no value at any depth.
pub open spec fn stuck(content: Seq<Content>, e: Expression, blocker: Option<int>) -> bool {
    forall|f: nat|
        (#[trigger] eval_with(e, valuation(content, f))).is_some() ==> match blocker {
            Some(w) => cell_value(content, w, f).is_some(),
            None => false,
        }
}

/// `part` is evaluated whenever `whole` is: `whole` has no value where `part`
/// has none.
pub open spec fn needs(whole: Expression, part: Expression) -> bool {
    forall|env: Valuation| (#[trigger] eval_with(whole, env)).is_some() ==> eval_with(part, env).is_some()
}

proof fn lemma_stuck_whole(
    content: Seq<Content>,
    whole: Expression,
    part: Expression,
    blocker: Option<int>,
)
    requires
        needs(whole, part),
        stuck(content, part, blocker),
    ensures
        stuck(content, whole, blocker),
{
    assert forall|f: nat| (#[trigger] eval_with(whole, valuation(content, f))).is_some() implies (
    match blocker {
        Some(w) => cell_value(content, w, f).is_some(),
        None => false,
    }) by {
        assert(eval_with(part, valuation(content, f)).is_some());
    }
}

proof fn lemma_stuck_branch(
    bindings: Seq<Option<Expression>>,
    cells: Seq<PropertyCell>,
    whole: Expression,
    blocker: Option<int>,
)
    requires
        coherent(bindings, cells),
        whole is Condition,
        eval_with(*whole->condition, current_values(cells)).is_some(),
        stuck(
            content_of(bindings, cells),
            if is_true(eval_with(*whole->condition, current_values(cells)).unwrap()) {
                *whole->true_expr
            } else {
                *whole->false_expr
            },
            blocker,
        ),
    ensures
        stuck(content_of(bindings, cells), whole, blocker),
{
    let content = content_of(bindings, cells);
    let now = current_values(cells);
    let test = *whole->condition;
    assert forall|f: nat| (#[trigger] eval_with(whole, valuation(content, f))).is_some() implies (
    match blocker {
        Some(w) => cell_value(content, w, f).is_some(),
        None => false,
    }) by {
        let deep = valuation(content, f);
        assert(eval_with(test, deep).is_some());
        lemma_current_values_compatible(bindings, cells, f);
        lemma_eval_compatible(test, now, deep);
        if is_true(eval_with(test, now).unwrap()) {
            assert(eval_with(*whole->true_expr, deep).is_some());
        } else {
            assert(eval_with(*whole->false_expr, deep).is_some());
        }
    }
}

proof fn lemma_slot_value(content: Seq<Content>, c: usize, f: nat)
    requires
        c < content.len(),
    ensures
        eval_with(Expression::PropertySlot(c), valuation(content, f)) == cell_value(
            content,
            c as int,
            f,
        ),
{
    assert(valuation(content, f)[c as int] == cell_value(content, c as int, f));
}

proof fn lemma_stuck_cell(
    content: Seq<Content>,
    c: usize,
    binding: Expression,
    blocker: Option<int>,
)
    requires
        c < content.len(),
        content[c as int] == Content::Binding(binding),
        stuck(content, binding, blocker),
    ensures
        stuck(
            content,
            Expression::PropertySlot(c),
            if blocker == Some(c as int) {
                None
            } else {
                blocker
            },
        ),
{
    let slot = Expression::PropertySlot(c);
    assert forall|f: nat| f > 0 && (#[trigger] cell_value(content, c as int, f)).is_some() implies (
    match blocker {
        Some(w) => cell_value(content, w, (f - 1) as nat).is_some(),
        None => false,
    }) by {
        assert(eval_with(binding, valuation(content, (f - 1) as nat)).is_some());
    }
    if blocker == Some(c as int) {
        assert forall|f: nat| (#[trigger] eval_with(slot, valuation(content, f))).is_some()
            implies false by {
            lemma_slot_value(content, c, f);
            lemma_self_dependent_cell_diverges(content, c as int, f);
        }
    } else {
        assert forall|f: nat| (#[trigger] eval_with(slot, valuation(content, f))).is_some()
            implies (match blocker {
            Some(w) => cell_value(content, w, f).is_some(),
            None => false,
        }) by {
            lemma_slot_value(content, c, f);
            assert(cell_value(content, c as int, f).is_some());
            assert(f > 0);
            match blocker {
                Some(w) => {
                    lemma_cell_value_monotone(content, w, (f - 1) as nat, f);
                },
                None => {},
            }
        }
    }
}

/// What the evaluator knows, beyond the value, when it returns.
pub ghost struct Trace {
    /// A bound on the ranks of the cells that were read.
    pub bound: nat,
    /// The running cell on which a failed evaluation is waiting, if any.
    pub blocker: Option<int>,
}

/// Whether `x` occurs in `list`.
pub fn list_contains(list: &Vec<usize>, x: usize) -> (found: bool)
    ensures
        found == list@.contains(x),
{
    let mut i: usize = 0;
    while i < list.len()
        invariant
            i <= list.len(),
            forall|k: int| 0 <= k < i ==> list@[k] != x,
        decreases list.len() - i,
    {
        if list[i] == x {
            return true;
        }
        i += 1;
    }
    false
}

/// Records `reader`, if there is one, as a dependent of cell `c`.
fn register(cells: &mut Vec<PropertyCell>, c: usize, reader: Option<usize>)
    requires
        c < old(cells).len(),
    ensures
        final(cells).len() == old(cells).len(),
        forall|q: int| 0 <= q < old(cells).len() && q != c ==> final(cells)@[q] == old(cells)@[q],
        final(cells)@[c as int].state == old(cells)@[c as int].state,
        final(cells)@[c as int].value == old(cells)@[c as int].value,
        final(cells)@[c as int].rank == old(cells)@[c as int].rank,
        forall|x: usize| #[trigger]
            old(cells)@[c as int].dependents@.contains(x) ==> final(cells)@[c as int].dependents@.contains(x),
        forall|x: usize| #[trigger]
            final(cells)@[c as int].dependents@.contains(x) ==> old(cells)@[c as int].dependents@.contains(x)
                || reader == Some(x),
        match reader {
            Some(p) => final(cells)@[c as int].dependents@.contains(p),
            None => true,
        },
{
    match reader {
        Some(p) => {
            if !list_contains(&cells[c].dependents, p) {
                let ghost before = cells@[c as int].dependents@;
                cells[c].dependents.push(p);
                proof {
                    let after = cells@[c as int].dependents@;
                    assert(after == before.push(p));
                    assert(after[before.len() as int] == p);
                    assert forall|x: usize| #[trigger] before.contains(x) implies after.contains(
                        x,
                    ) by {
                        let k = choose|k: int| 0 <= k < before.len() && before[k] == x;
                        assert(after[k] == x);
                    }
                }
            }
        },
        None => {},
    }
}

/// Bookkeeping that leaves the clean cells as they are keeps the invariant.
proof fn lemma_coherent_step(
    bindings: Seq<Option<Expression>>,
    before: Seq<PropertyCell>,
    after: Seq<PropertyCell>,
)
    requires
        coherent(bindings, before),
        after.len() == before.len(),
        forall|q: int|
            0 <= q < before.len() ==> ((#[trigger] after[q]).state == CellState::Clean
                <==> before[q].state == CellState::Clean),
        forall|q: int|
            0 <= q < before.len() && (#[trigger] before[q]).state == CellState::Clean
                ==> after[q].value == before[q].value && after[q].rank == before[q].rank,
        forall|q: int, x: usize|
            0 <= q < before.len() && #[trigger] before[q].dependents@.contains(x)
                ==> after[q].dependents@.contains(x),
    ensures
        coherent(bindings, after),
        current_values(after) == current_values(before),
{
    let now = current_values(before);
    assert(current_values(after) =~= now);
    assert forall|x: int| 0 <= x < after.len() implies #[trigger] cell_coherent(
        bindings,
        after,
        x,
    ) by {
        assert(cell_coherent(bindings, before, x));
        match bindings[x] {
            None => {},
            Some(b) => {
                if after[x].state == CellState::Clean {
                    lemma_reads_have_values(b, now);
                    assert forall|q: int| #[trigger]
                        reads(b, now).contains(q) implies after[q].rank@ < after[x].rank@
                        && after[q].dependents@.contains(x as usize) by {
                        assert(before[q].dependents@.contains(x as usize));
                    }
                }
            },
        }
    }
}

proof fn lemma_register_coherent(
    bindings: Seq<Option<Expression>>,
    before: Seq<PropertyCell>,
    after: Seq<PropertyCell>,
    c: int,
)
    requires
        coherent(bindings, before),
        0 <= c < before.len(),
        after.len() == before.len(),
        forall|q: int| 0 <= q < before.len() && q != c ==> after[q] == before[q],
        after[c].state == before[c].state,
        after[c].value == before[c].value,
        after[c].rank == before[c].rank,
        forall|x: usize| #[trigger]
            before[c].dependents@.contains(x) ==> after[c].dependents@.contains(x),
    ensures
        coherent(bindings, after),
        kept(before, after),
        current_values(after) == current_values(before),
{
    lemma_coherent_step(bindings, before, after);
    assert forall|q: int| 0 <= q < before.len() implies cell_kept(#[trigger] before[q], after[q]) by {}
}

/// The cells after the binding of cell `c` has run and given `value`.
proof fn lemma_finish_coherent(
    bindings: Seq<Option<Expression>>,
    before: Seq<PropertyCell>,
    after: Seq<PropertyCell>,
    c: usize,
    bound: nat,
)
    requires
        coherent(bindings, before),
        c < before.len(),
        bindings[c as int] is Some,
        before[c as int].state == CellState::Evaluating,
        eval_with(bindings[c as int].unwrap(), current_values(before)) == Some(
            after[c as int].value@,
        ),
        reads_registered(bindings[c as int].unwrap(), before, c, bound),
        after.len() == before.len(),
        forall|q: int| 0 <= q < before.len() && q != c ==> after[q] == before[q],
        after[c as int].state == CellState::Clean,
        after[c as int].rank@ == bound + 1,
        after[c as int].dependents == before[c as int].dependents,
    ensures
        coherent(bindings, after),
        extends(current_values(before), current_values(after)),
{
    let now = current_values(before);
    let then = current_values(after);
    assert(extends(now, then));
    assert forall|x: int| 0 <= x < after.len() implies #[trigger] cell_coherent(
        bindings,
        after,
        x,
    ) by {
        assert(cell_coherent(bindings, before, x));
        match bindings[x] {
            None => {},
            Some(b) => {
                if after[x].state == CellState::Clean {
                    if x == c {
                        lemma_eval_extends(b, now, then);
                        lemma_reads_have_values(b, now);
                        assert forall|q: int| #[trigger]
                            reads(b, then).contains(q) implies after[q].rank@ < after[x].rank@
                            && after[q].dependents@.contains(x as usize) by {
                            assert(reads(b, now).contains(q));
                        }
                    } else {
                        lemma_eval_extends(b, now, then);
                        lemma_reads_have_values(b, now);
                        assert forall|q: int| #[trigger]
                            reads(b, then).contains(q) implies after[q].rank@ < after[x].rank@
                            && after[q].dependents@.contains(x as usize) by {
                            assert(reads(b, now).contains(q));
                        }
                    }
                }
            },
        }
    }
}

/// Reads cell `c`, running its binding first if the cell is dirty, and
/// records `reader` as a dependent of the cell. Returns `None` when the
/// binding cannot finish because it reads a cell that is being evaluated.
fn read_cell(
    c: usize,
    bindings: &Vec<Option<Expression>>,
    cells: &mut Vec<PropertyCell>,
    reader: Option<usize>,
) -> (out: (Option<Value>, Ghost<Trace>))
    requires
        coherent(bindings@, old(cells)@),
        c < old(cells).len(),
    ensures
        coherent(bindings@, final(cells)@),
        kept(old(cells)@, final(cells)@),
        match out.0 {
            Some(v) => {
                &&& final(cells)@[c as int].state == CellState::Clean
                &&& final(cells)@[c as int].value@ == v@
                &&& final(cells)@[c as int].rank@ <= out.1@.bound
                &&& match reader {
                    Some(p) => final(cells)@[c as int].dependents@.contains(p),
                    None => true,
                }
            },
            None => {
                &&& stuck(
                    content_of(bindings@, old(cells)@),
                    Expression::PropertySlot(c),
                    out.1@.blocker,
                )
                &&& match out.1@.blocker {
                    Some(w) => 0 <= w < old(cells).len() && old(cells)@[w].state
                        == CellState::Evaluating,
                    None => true,
                }
            },
        },
    decreases idle_count(old(cells)@), 0nat,
{
    let ghost content = content_of(bindings@, cells@);
    let state = cells[c].state;
    match state {
        CellState::Clean => {
            let v = clone_value(&cells[c].value);
            let ghost before = cells@;
            register(cells, c, reader);
            proof {
                lemma_register_coherent(bindings@, before, cells@, c as int);
            }
            (Some(v), Ghost(Trace { bound: cells@[c as int].rank@, blocker: None }))
        },
        CellState::Evaluating => {
            proof {
                assert forall|f: nat| (#[trigger] eval_with(
                    Expression::PropertySlot(c),
                    valuation(content, f),
                )).is_some() implies cell_value(content, c as int, f).is_some() by {
                    lemma_slot_value(content, c, f);
                }
                assert forall|q: int| 0 <= q < cells@.len() implies cell_kept(
                    #[trigger] cells@[q],
                    cells@[q],
                ) by {}
            }
            (None, Ghost(Trace { bound: 0, blocker: Some(c as int) }))
        },
        CellState::Dirty => {
            proof {
                assert(cell_coherent(bindings@, cells@, c as int));
            }
            match &bindings[c] {
                None => {
                    proof {
                        assert(false);
                    }
                    (None, Ghost(Trace { bound: 0, blocker: None }))
                },
                Some(b) => {
                    let ghost start = cells@;
                    cells[c].state = CellState::Evaluating;
                    let ghost running = cells@;
                    proof {
                        assert(running =~= start.update(c as int, running[c as int]));
                        lemma_idle_count_update(start, c as int, running[c as int]);
                        lemma_coherent_step(bindings@, start, running);
                        assert(content_of(bindings@, running) =~= content);
                    }
                    let (res, trace) = evaluate(b, bindings, cells, c);
                    let ghost ran = cells@;
                    proof {
                        lemma_kept_content(bindings@, running, ran);
                        assert(cell_kept(running[c as int], ran[c as int]));
                    }
                    match res {
                        Some(v) => {
                            cells[c].value = clone_value(&v);
                            cells[c].state = CellState::Clean;
                            cells[c].rank = Ghost((trace@.bound + 1) as nat);
                            let ghost done = cells@;
                            proof {
                                lemma_finish_coherent(bindings@, ran, done, c, trace@.bound);
                            }
                            register(cells, c, reader);
                            proof {
                                lemma_register_coherent(bindings@, done, cells@, c as int);
                                assert forall|q: int| 0 <= q < start.len() implies cell_kept(
                                    #[trigger] start[q],
                                    cells@[q],
                                ) by {
                                    assert(cell_kept(running[q], ran[q]));
                                    assert(cell_kept(done[q], cells@[q]));
                                    if q == c as int {
                                        assert(running[q].dependents == start[q].dependents);
                                        assert(done[q].dependents == ran[q].dependents);
                                    } else {
                                        assert(running[q] == start[q]);
                                        assert(done[q] == ran[q]);
                                    }
                                }
                            }
                            (
                                Some(v),
                                Ghost(Trace { bound: (trace@.bound + 1) as nat, blocker: None }),
                            )
                        },
                        None => {
                            cells[c].state = CellState::Dirty;
                            let ghost blocker = if trace@.blocker == Some(c as int) {
                                None
                            } else {
                                trace@.blocker
                            };
                            proof {
                                let done = cells@;
                                lemma_coherent_step(bindings@, ran, done);
                                assert forall|q: int| 0 <= q < start.len() implies cell_kept(
                                    #[trigger] start[q],
                                    done[q],
                                ) by {
                                    assert(cell_kept(running[q], ran[q]));
                                    if q == c as int {
                                        assert(running[q].dependents == start[q].dependents);
                                        assert(done[q].dependents == ran[q].dependents);
                                    } else {
                                        assert(running[q] == start[q]);
                                        assert(done[q] == ran[q]);
                                    }
                                }
                                lemma_stuck_cell(content, c, *b, trace@.blocker);
                            }
                            (None, Ghost(Trace { bound: 0, blocker }))
                        },
                    }
                },
            }
        },
    }
}

/// Evaluates `e` for the running cell `reader`, reading the cells that `e`
/// refers to. Returns `None` when a read cannot finish.
fn evaluate(
    e: &Expression,
    bindings: &Vec<Option<Expression>>,
    cells: &mut Vec<PropertyCell>,
    reader: usize,
) -> (out: (Option<Value>, Ghost<Trace>))
    requires
        coherent(bindings@, old(cells)@),
        reader < old(cells).len(),
    ensures
        coherent(bindings@, final(cells)@),
        kept(old(cells)@, final(cells)@),
        match out.0 {
            Some(v) => {
                &&& eval_with(*e, current_values(final(cells)@)) == Some(v@)
                &&& reads_registered(*e, final(cells)@, reader, out.1@.bound)
            },
            None => {
                &&& stuck(content_of(bindings@, old(cells)@), *e, out.1@.blocker)
                &&& match out.1@.blocker {
                    Some(w) => 0 <= w < old(cells).len() && old(cells)@[w].state
                        == CellState::Evaluating,
                    None => true,
                }
            },
        },
    decreases idle_count(old(cells)@), size(*e),
{
    let ghost start = cells@;
    let ghost content = content_of(bindings@, cells@);
    proof {
        assert forall|q: int| 0 <= q < start.len() implies cell_kept(#[trigger] start[q], start[q]) by {}
    }
    match e {
        Expression::StringLiteral(s) => (
            Some(Value::String(s.clone())),
            Ghost(Trace { bound: 0, blocker: None }),
        ),
        Expression::NumberLiteral(n) => (
            Some(Value::Number(*n)),
            Ghost(Trace { bound: 0, blocker: None }),
        ),
        Expression::BoolLiteral(b) => (
            Some(Value::Bool(*b)),
            Ghost(Trace { bound: 0, blocker: None }),
        ),
        Expression::ColorLiteral(c) => (
            Some(Value::Color(*c)),
            Ghost(Trace { bound: 0, blocker: None }),
        ),
        Expression::ResourceReference(s) => (
            Some(Value::Resource(s.clone())),
            Ghost(Trace { bound: 0, blocker: None }),
        ),
        Expression::EmbeddedResource(i) => (
            Some(Value::EmbeddedResource(*i)),
            Ghost(Trace { bound: 0, blocker: None }),
        ),
        Expression::Default(ty) => (
            Some(default_for(*ty)),
            Ghost(Trace { bound: 0, blocker: None }),
        ),
        Expression::PropertySlot(slot) => {
            if *slot < cells.len() {
                let (res, trace) = read_cell(*slot, bindings, cells, Some(reader));
                proof {
                    if res is Some {
                        assert(reads(*e, current_values(cells@)) =~= set![*slot as int]);
                    }
                }
                (res, trace)
            } else {
                (Some(Value::Void), Ghost(Trace { bound: 0, blocker: None }))
            }
        },
        Expression::BinaryExpression { lhs, rhs, op } => {
            let (left, left_trace) = evaluate(lhs, bindings, cells, reader);
            let ghost mid = cells@;
            proof {
                lemma_kept_content(bindings@, start, mid);
            }
            match left {
                None => {
                    proof {
                        assert(needs(*e, **lhs));
                        lemma_stuck_whole(content, *e, **lhs, left_trace@.blocker);
                    }
                    (None, left_trace)
                },
                Some(a) => {
                    let (right, right_trace) = evaluate(rhs, bindings, cells, reader);
                    proof {
                        lemma_kept_content(bindings@, mid, cells@);
                        lemma_kept_transitive(start, mid, cells@);
                    }
                    match right {
                        None => {
                            proof {
                                assert(needs(*e, **rhs));
                                lemma_stuck_whole(content, *e, **rhs, right_trace@.blocker);
                                if right_trace@.blocker is Some {
                                    assert(cell_kept(
                                        start[right_trace@.blocker.unwrap()],
                                        mid[right_trace@.blocker.unwrap()],
                                    ));
                                }
                            }
                            (None, right_trace)
                        },
                        Some(b) => {
                            let ghost bound = if left_trace@.bound >= right_trace@.bound {
                                left_trace@.bound
                            } else {
                                right_trace@.bound
                            };
                            proof {
                                lemma_registered_kept(
                                    **lhs,
                                    mid,
                                    cells@,
                                    reader,
                                    left_trace@.bound,
                                    bound,
                                );
                                let now = current_values(cells@);
                                assert(reads(*e, now) == reads(**lhs, now).union(reads(**rhs, now)));
                            }
                            (Some(apply_binary(*op, &a, &b)), Ghost(Trace { bound, blocker: None }))
                        },
                    }
                },
            }
        },
        Expression::UnaryExpression { sub, op } => {
            let (inner, trace) = evaluate(sub, bindings, cells, reader);
            match inner {
                None => {
                    proof {
                        assert(needs(*e, **sub));
                        lemma_stuck_whole(content, *e, **sub, trace@.blocker);
                    }
                    (None, trace)
                },
                Some(a) => {
                    proof {
                        let now = current_values(cells@);
                        assert(reads(*e, now) == reads(**sub, now));
                    }
                    (Some(apply_unary(*op, &a)), trace)
                },
            }
        },
        Expression::Condition { condition, true_expr, false_expr } => {
            let (test, test_trace) = evaluate(condition, bindings, cells, reader);
            let ghost mid = cells@;
            proof {
                lemma_kept_content(bindings@, start, mid);
            }
            match test {
                None => {
                    proof {
                        assert(needs(*e, **condition));
                        lemma_stuck_whole(content, *e, **condition, test_trace@.blocker);
                    }
                    (None, test_trace)
                },
                Some(t) => {
                    let taken = match t {
                        Value::Bool(true) => true,
                        _ => false,
                    };
                    assert(taken == is_true(t@));
                    let (res, trace) = if taken {
                        evaluate(true_expr, bindings, cells, reader)
                    } else {
                        evaluate(false_expr, bindings, cells, reader)
                    };
                    let ghost branch = if taken {
                        **true_expr
                    } else {
                        **false_expr
                    };
                    proof {
                        lemma_kept_content(bindings@, mid, cells@);
                        lemma_kept_transitive(start, mid, cells@);
                    }
                    match res {
                        None => {
                            proof {
                                lemma_stuck_branch(bindings@, mid, *e, trace@.blocker);
                                if trace@.blocker is Some {
                                    assert(cell_kept(
                                        start[trace@.blocker.unwrap()],
                                        mid[trace@.blocker.unwrap()],
                                    ));
                                }
                            }
                            (None, trace)
                        },
                        Some(v) => {
                            let ghost bound = if test_trace@.bound >= trace@.bound {
                                test_trace@.bound
                            } else {
                                trace@.bound
                            };
                            proof {
                                lemma_registered_kept(
                                    **condition,
                                    mid,
                                    cells@,
                                    reader,
                                    test_trace@.bound,
                                    bound,
                                );
                                let now = current_values(cells@);
                                assert(reads(*e, now) == reads(**condition, now).union(
                                    reads(branch, now),
                                ));
                            }
                            (Some(v), Ghost(Trace { bound, blocker: None }))
                        },
                    }
                },
            }
        },
        _ => {
            proof {
                assert(reads(*e, current_values(cells@)) =~= Set::<int>::empty());
            }
            (Some(Value::Void), Ghost(Trace { bound: 0, blocker: None }))
        },
    }
}

/// The number of clean cells.
pub open spec fn clean_count(cells: Seq<PropertyCell>) -> nat
    decreases cells.len(),
{
    if cells.len() == 0 {
        0
    } else {
        clean_count(cells.drop_last()) + if cells.last().state == CellState::Clean {
            1nat
        } else {
            0nat
        }
    }
}

proof fn lemma_clean_count_update(cells: Seq<PropertyCell>, c: int, cell: PropertyCell)
    requires
        0 <= c < cells.len(),
    ensures
        clean_count(cells.update(c, cell)) + (if cells[c].state == CellState::Clean {
            1int
        } else {
            0int
        }) == clean_count(cells) + (if cell.state == CellState::Clean {
            1int
        } else {
            0int
        }),
    decreases cells.len(),
{
    let updated = cells.update(c, cell);
    if c == cells.len() - 1 {
        assert(updated.drop_last() =~= cells.drop_last());
    } else {
        lemma_clean_count_update(cells.drop_last(), c, cell);
        assert(updated.drop_last() =~= cells.drop_last().update(c, cell));
    }
}

/// The state of the cells while a change to cell `c` is being made known to
/// the cells that depend on it. `base` and `old_bindings` are the cells and
/// bindings before the change, `touched` the cells whose value is no longer
/// what it was, `work` the cells still to be looked at.
pub open spec fn propagating(
    old_bindings: Seq<Option<Expression>>,
    base: Seq<PropertyCell>,
    bindings: Seq<Option<Expression>>,
    cells: Seq<PropertyCell>,
    c: int,
    touched: Set<int>,
    work: Seq<usize>,
) -> bool {
    &&& coherent(old_bindings, base)
    &&& at_rest(base)
    &&& 0 <= c < base.len() <= usize::MAX
    &&& bindings.len() == base.len()
    &&& cells.len() == base.len()
    &&& forall|q: int| 0 <= q < base.len() && q != c ==> #[trigger] bindings[q] == old_bindings[q]
    &&& touched.contains(c)
    &&& (bindings[c] is None ==> cells[c].state == CellState::Clean)
    &&& (bindings[c] is Some ==> cells[c].state == CellState::Dirty)
    &&& forall|q: int| 0 <= q < base.len() && !touched.contains(q) ==> #[trigger] cells[q] == base[q]
    &&& forall|q: int|
        0 <= q < base.len() && touched.contains(q) && q != c ==> (#[trigger] cells[q]).state
            == CellState::Dirty && bindings[q] is Some
    &&& forall|x: int, q: int|
        0 <= x < base.len() && !touched.contains(x) && base[x].state == CellState::Clean
            && old_bindings[x] is Some && #[trigger] reads(
            old_bindings[x].unwrap(),
            current_values(base),
        ).contains(q) && touched.contains(q) ==> work.contains(x as usize)
}

proof fn lemma_propagation_done(
    old_bindings: Seq<Option<Expression>>,
    base: Seq<PropertyCell>,
    bindings: Seq<Option<Expression>>,
    cells: Seq<PropertyCell>,
    c: int,
    touched: Set<int>,
)
    requires
        propagating(old_bindings, base, bindings, cells, c, touched, Seq::empty()),
    ensures
        coherent(bindings, cells),
        at_rest(cells),
        forall|q: int|
            0 <= q < cells.len() && q != c && bindings[q] is None ==> (#[trigger] cells[q]).value
                == base[q].value,
{
    let then = current_values(base);
    let now = current_values(cells);
    assert forall|x: int| 0 <= x < cells.len() implies #[trigger] cell_coherent(
        bindings,
        cells,
        x,
    ) by {
        if x != c && !touched.contains(x) {
            assert(cells[x] == base[x]);
            assert(bindings[x] == old_bindings[x]);
            assert(cell_coherent(old_bindings, base, x));
            match bindings[x] {
                None => {},
                Some(b) => {
                    if cells[x].state == CellState::Clean {
                        lemma_reads_have_values(b, then);
                        assert forall|q: int| reads(b, then).contains(q) implies now[q]
                            == then[q] by {
                            if touched.contains(q) {
                                assert(Seq::<usize>::empty().contains(x as usize));
                            }
                            assert(cells[q] == base[q]);
                        }
                        lemma_eval_frame(b, then, now);
                        assert forall|q: int| #[trigger]
                            reads(b, now).contains(q) implies cells[q].rank@ < cells[x].rank@
                            && cells[q].dependents@.contains(x as usize) by {
                            assert(reads(b, then).contains(q));
                            if touched.contains(q) {
                                assert(Seq::<usize>::empty().contains(x as usize));
                            }
                            assert(cells[q] == base[q]);
                        }
                    }
                },
            }
        } else if x != c {
            assert(cells[x].state == CellState::Dirty);
        }
    }
    assert forall|q: int| 0 <= q < cells.len() implies (#[trigger] cells[q]).state
        != CellState::Evaluating by {
        if q != c && !touched.contains(q) {
            assert(cells[q] == base[q]);
            assert(base[q].state != CellState::Evaluating);
        }
    }
    assert forall|q: int|
        0 <= q < cells.len() && q != c && bindings[q] is None implies (#[trigger] cells[q]).value
        == base[q].value by {
        if touched.contains(q) {
            assert(cells[q].state == CellState::Dirty);
        } else {
            assert(cells[q] == base[q]);
        }
    }
}

proof fn lemma_propagation_skip(
    old_bindings: Seq<Option<Expression>>,
    base: Seq<PropertyCell>,
    bindings: Seq<Option<Expression>>,
    cells: Seq<PropertyCell>,
    c: int,
    touched: Set<int>,
    work: Seq<usize>,
)
    requires
        propagating(old_bindings, base, bindings, cells, c, touched, work),
        work.len() > 0,
        !(work.last() < base.len() && cells[work.last() as int].state == CellState::Clean
            && bindings[work.last() as int] is Some),
    ensures
        propagating(old_bindings, base, bindings, cells, c, touched, work.drop_last()),
{
    let x0 = work.last();
    let rest = work.drop_last();
    assert forall|x: int, q: int|
        0 <= x < base.len() && !touched.contains(x) && base[x].state == CellState::Clean
            && old_bindings[x] is Some && #[trigger] reads(
            old_bindings[x].unwrap(),
            current_values(base),
        ).contains(q) && touched.contains(q) implies rest.contains(x as usize) by {
        assert(work.contains(x as usize));
        let k = choose|k: int| 0 <= k < work.len() && work[k] == x as usize;
        assert(cells[x] == base[x]);
        assert(bindings[x] == old_bindings[x]);
        assert(x != x0 as int);
        assert(rest[k] == x as usize);
    }
}

proof fn lemma_propagation_mark(
    old_bindings: Seq<Option<Expression>>,
    base: Seq<PropertyCell>,
    bindings: Seq<Option<Expression>>,
    cells: Seq<PropertyCell>,
    c: int,
    touched: Set<int>,
    work: Seq<usize>,
    marked: Seq<PropertyCell>,
)
    requires
        propagating(old_bindings, base, bindings, cells, c, touched, work),
        work.len() > 0,
        work.last() < base.len(),
        cells[work.last() as int].state == CellState::Clean,
        bindings[work.last() as int] is Some,
        marked.len() == cells.len(),
        forall|q: int| 0 <= q < cells.len() && q != work.last() ==> marked[q] == cells[q],
        marked[work.last() as int].state == CellState::Dirty,
    ensures
        propagating(
            old_bindings,
            base,
            bindings,
            marked,
            c,
            touched.insert(work.last() as int),
            work.drop_last() + cells[work.last() as int].dependents@,
        ),
        !touched.contains(work.last() as int),
{
    let x0 = work.last() as int;
    let rest = work.drop_last();
    let deps = cells[x0].dependents@;
    let next = rest + deps;
    let wider = touched.insert(x0);
    if touched.contains(x0) {
        if x0 != c {
            assert(cells[x0].state == CellState::Dirty);
        }
    }
    assert(cells[x0] == base[x0]);
    assert(x0 != c);
    assert forall|x: int, q: int|
        0 <= x < base.len() && !wider.contains(x) && base[x].state == CellState::Clean
            && old_bindings[x] is Some && #[trigger] reads(
            old_bindings[x].unwrap(),
            current_values(base),
        ).contains(q) && wider.contains(q) implies next.contains(x as usize) by {
        if q == x0 {
            assert(cell_coherent(old_bindings, base, x));
            assert(base[q].dependents@.contains(x as usize));
            let k = choose|k: int| 0 <= k < deps.len() && deps[k] == x as usize;
            assert(next[rest.len() + k] == x as usize);
        } else {
            assert(work.contains(x as usize));
            let k = choose|k: int| 0 <= k < work.len() && work[k] == x as usize;
            assert(rest[k] == x as usize);
            assert(next[k] == x as usize);
        }
    }
    assert forall|q: int| 0 <= q < base.len() && !wider.contains(q) implies #[trigger] marked[q]
        == base[q] by {
        assert(cells[q] == base[q]);
    }
    assert forall|q: int| 0 <= q < base.len() && wider.contains(q) && q != c implies (
    #[trigger] marked[q]).state == CellState::Dirty && bindings[q] is Some by {
        if q != x0 {
            assert(cells[q].state == CellState::Dirty);
        }
    }
}

/// Marks dirty every clean cell with a binding that can be reached from the
/// cells in `work` along the dependency edges, and forgets the edges that
/// were followed.
fn propagate(
    bindings: &Vec<Option<Expression>>,
    cells: &mut Vec<PropertyCell>,
    work: Vec<usize>,
    Ghost(old_bindings): Ghost<Seq<Option<Expression>>>,
    Ghost(base): Ghost<Seq<PropertyCell>>,
    Ghost(c): Ghost<int>,
)
    requires
        propagating(old_bindings, base, bindings@, old(cells)@, c, set![c], work@),
    ensures
        coherent(bindings@, final(cells)@),
        at_rest(final(cells)@),
        final(cells).len() == old(cells).len(),
        final(cells)@[c] == old(cells)@[c],
        forall|q: int|
            0 <= q < base.len() && q != c && bindings@[q] is None ==> (#[trigger] final(cells)@[q]).value
                == base[q].value,
{
    let mut work = work;
    let ghost mut touched: Set<int> = set![c];
    while work.len() > 0
        invariant
            propagating(old_bindings, base, bindings@, cells@, c, touched, work@),
            cells@[c] == old(cells)@[c],
        decreases clean_count(cells@), work.len(),
    {
        let ghost before = cells@;
        let ghost pending = work@;
        let x = work.pop().unwrap();
        assert(work@ =~= pending.drop_last());
        if x < cells.len() && cells[x].state == CellState::Clean && bindings[x].is_some() {
            let mut deps: Vec<usize> = Vec::new();
            cells[x].state = CellState::Dirty;
            core::mem::swap(&mut cells[x].dependents, &mut deps);
            work.append(&mut deps);
            proof {
                lemma_propagation_mark(
                    old_bindings,
                    base,
                    bindings@,
                    before,
                    c,
                    touched,
                    pending,
                    cells@,
                );
                assert(cells@ =~= before.update(x as int, cells@[x as int]));
                lemma_clean_count_update(before, x as int, cells@[x as int]);
                touched = touched.insert(x as int);
            }
        } else {
            proof {
                lemma_propagation_skip(old_bindings, base, bindings@, before, c, touched, pending);
            }
        }
    }
    proof {
        assert(work@ =~= Seq::empty());
        lemma_propagation_done(old_bindings, base, bindings@, cells@, c, touched);
    }
}

/// A cell turned out to depend on itself: its binding is in a loop.
#[derive(Clone, Copy, Debug, PartialEq, Eq, Structural)]
pub struct BindingLoop;

/// The property cells of one instance: for each slot the binding, if any,
/// and the cell that the binding fills.
pub struct PropertyStore {
    bindings: Vec<Option<Expression>>,
    cells: Vec<PropertyCell>,
}

impl PropertyStore {
    /// The store is consistent and no binding is running.
    pub closed spec fn wf(&self) -> bool {
        &&& coherent(self.bindings@, self.cells@)
        &&& at_rest(self.cells@)
    }

    /// What the cells hold: for each slot a literal value or a binding.
    pub closed spec fn content(&self) -> Seq<Content> {
        content_of(self.bindings@, self.cells@)
    }

    /// The number of cells.
    pub closed spec fn spec_len(&self) -> nat {
        self.cells@.len()
    }

    /// What the store keeps of cell `c` so as not to work it out again: the
    /// value of a cell that is clean, and nothing of a cell that is dirty.
    pub closed spec fn cached(&self, c: int) -> Option<ValueModel> {
        if 0 <= c < self.cells@.len() && self.cells@[c].state == CellState::Clean {
            Some(self.cells@[c].value@)
        } else {
            None
        }
    }

    /// Nothing stale is kept: what the store keeps of a cell is what the
    /// cell means. A write therefore leaves no cell clean whose value
    /// depended on what was overwritten, unless the value is the same.
    pub proof fn lemma_cache_is_current(&self, c: int)
        requires
            self.wf(),
            self.cached(c) is Some,
        ensures
            denotation(self.content(), c) == self.cached(c),
    {
        lemma_clean_cell_has_value(self.bindings@, self.cells@, c);
        lemma_denotation_is_cell_value(self.content(), c, self.cells@[c].rank@ + 1);
    }

    /// The length of the content is the number of cells.
    pub proof fn lemma_content_len(&self)
        ensures
            self.content().len() == self.spec_len(),
    {
    }

    /// A store without cells.
    pub fn new() -> (store: Self)
        ensures
            store.wf(),
            store.fresh(),
            store.content() == Seq::<Content>::empty(),
            store.spec_len() == 0,
    {
        let store = PropertyStore { bindings: Vec::new(), cells: Vec::new() };
        assert(store.content() =~= Seq::<Content>::empty());
        store
    }

    /// The number of cells.
    pub fn len(&self) -> (n: usize)
        requires
            self.wf(),
        ensures
            n == self.spec_len(),
    {
        self.cells.len()
    }

    /// Whether no binding has been evaluated yet: every cell with a binding
    /// is dirty.
    pub closed spec fn fresh(&self) -> bool {
        forall|c: int|
            0 <= c < self.cells@.len() && self.bindings@[c] is Some ==> (#[trigger] self.cells@[c]).state
                == CellState::Dirty
    }

    /// Adds a cell that holds `value`. Only a store in which no binding has
    /// run yet can grow.
    pub fn push_literal(&mut self, value: Value)
        requires
            old(self).wf(),
            old(self).fresh(),
        ensures
            final(self).wf(),
            final(self).fresh(),
            final(self).content() == old(self).content().push(Content::Literal(value@)),
            final(self).spec_len() == old(self).spec_len() + 1,
    {
        self.bindings.push(None);
        self.cells.push(
            PropertyCell {
                state: CellState::Clean,
                value,
                dependents: Vec::new(),
                rank: Ghost(0),
            },
        );
        proof {
            assert forall|c: int| 0 <= c < self.cells@.len() implies #[trigger] cell_coherent(
                self.bindings@,
                self.cells@,
                c,
            ) by {
                if c < old(self).cells@.len() {
                    assert(cell_coherent(old(self).bindings@, old(self).cells@, c));
                    assert(self.cells@[c] == old(self).cells@[c]);
                }
            }
            assert forall|c: int| 0 <= c < self.cells@.len() implies (#[trigger] self.cells@[c]).state
                != CellState::Evaluating by {
                if c < old(self).cells@.len() {
                    assert(self.cells@[c] == old(self).cells@[c]);
                }
            }
            assert forall|c: int|
                0 <= c < self.cells@.len() && self.bindings@[c] is Some implies (
            #[trigger] self.cells@[c]).state == CellState::Dirty by {
                assert(self.cells@[c] == old(self).cells@[c]);
            }
            assert(self.content() =~= old(self).content().push(Content::Literal(value@)));
        }
    }

    /// Adds a cell with the binding `binding`. Only a store in which no
    /// binding has run yet can grow.
    pub fn push_binding(&mut self, binding: Expression)
        requires
            old(self).wf(),
            old(self).fresh(),
        ensures
            final(self).wf(),
            final(self).fresh(),
            final(self).content() == old(self).content().push(Content::Binding(binding)),
            final(self).spec_len() == old(self).spec_len() + 1,
    {
        self.bindings.push(Some(binding));
        self.cells.push(
            PropertyCell {
                state: CellState::Dirty,
                value: Value::Void,
                dependents: Vec::new(),
                rank: Ghost(0),
            },
        );
        proof {
            assert forall|c: int| 0 <= c < self.cells@.len() implies #[trigger] cell_coherent(
                self.bindings@,
                self.cells@,
                c,
            ) by {
                if c < old(self).cells@.len() {
                    assert(cell_coherent(old(self).bindings@, old(self).cells@, c));
                    assert(self.cells@[c] == old(self).cells@[c]);
                }
            }
            assert forall|c: int| 0 <= c < self.cells@.len() implies (#[trigger] self.cells@[c]).state
                != CellState::Evaluating by {
                if c < old(self).cells@.len() {
                    assert(self.cells@[c] == old(self).cells@[c]);
                }
            }
            assert forall|c: int|
                0 <= c < self.cells@.len() && self.bindings@[c] is Some implies (
            #[trigger] self.cells@[c]).state == CellState::Dirty by {
                if c < old(self).cells@.len() {
                    assert(self.cells@[c] == old(self).cells@[c]);
                }
            }
            assert(self.content() =~= old(self).content().push(Content::Binding(binding)));
        }
    }

    /// Reads cell `c`: the value the cell means, or the error that the cell
    /// is in a binding loop. Reading changes nothing that a later read or
    /// write could observe. A cell that was read is clean: the store keeps
    /// its value until a write makes it stale.
    pub fn get(&mut self, c: usize) -> (r: Result<Value, BindingLoop>)
        requires
            old(self).wf(),
            c < old(self).spec_len(),
        ensures
            final(self).wf(),
            final(self).content() == old(self).content(),
            final(self).spec_len() == old(self).spec_len(),
            r matches Ok(v) ==> final(self).cached(c as int) == Some(v@),
            match r {
                Ok(v) => denotation(old(self).content(), c as int) == Some(v@),
                Err(_) => denotation(old(self).content(), c as int).is_none(),
            },
    {
        let ghost start = self.cells@;
        let ghost content = self.content();
        let (res, trace) = read_cell(c, &self.bindings, &mut self.cells, None);
        proof {
            lemma_kept_content(self.bindings@, start, self.cells@);
            assert forall|q: int| 0 <= q < self.cells@.len() implies (#[trigger] self.cells@[q]).state
                != CellState::Evaluating by {
                assert(cell_kept(start[q], self.cells@[q]));
            }
        }
        match res {
            Some(v) => {
                proof {
                    lemma_clean_cell_has_value(self.bindings@, self.cells@, c as int);
                    lemma_denotation_is_cell_value(
                        content,
                        c as int,
                        self.cells@[c as int].rank@ + 1,
                    );
                }
                Ok(v)
            },
            None => {
                proof {
                    if trace@.blocker is Some {
                        assert(start[trace@.blocker.unwrap()].state != CellState::Evaluating);
                    }
                    assert forall|f: nat| (#[trigger] cell_value(content, c as int, f)).is_none() by {
                        lemma_slot_value(content, c, f);
                    }
                }
                Err(BindingLoop)
            },
        }
    }

    /// Writes a literal value into cell `c`. A binding the cell had is gone,
    /// and the cell is clean. Of the other cells the store keeps nothing
    /// that the write has made stale: see
    /// [`PropertyStore::lemma_cache_is_current`].
    pub fn set(&mut self, c: usize, value: Value)
        requires
            old(self).wf(),
            c < old(self).spec_len(),
        ensures
            final(self).wf(),
            final(self).content() == old(self).content().update(c as int, Content::Literal(value@)),
            final(self).spec_len() == old(self).spec_len(),
            final(self).cached(c as int) == Some(value@),
    {
        let ghost old_bindings = self.bindings@;
        let ghost base = self.cells@;
        let count = self.cells.len();
        let mut work: Vec<usize> = Vec::new();
        self.bindings[c] = None;
        self.cells[c].state = CellState::Clean;
        self.cells[c].value = value;
        core::mem::swap(&mut self.cells[c].dependents, &mut work);
        proof {
            assert forall|x: int, q: int|
                0 <= x < base.len() && !set![c as int].contains(x) && base[x].state
                    == CellState::Clean && old_bindings[x] is Some && #[trigger] reads(
                    old_bindings[x].unwrap(),
                    current_values(base),
                ).contains(q) && set![c as int].contains(q) implies work@.contains(x as usize) by {
                assert(cell_coherent(old_bindings, base, x));
            }
        }
        propagate(
            &self.bindings,
            &mut self.cells,
            work,
            Ghost(old_bindings),
            Ghost(base),
            Ghost(c as int),
        );
        proof {
            let expected = old(self).content().update(c as int, Content::Literal(value@));
            assert forall|q: int| 0 <= q < base.len() implies #[trigger] self.content()[q]
                == expected[q] by {
                if q != c {
                    assert(self.bindings@[q] == old_bindings[q]);
                }
            }
            assert(self.content() =~= old(self).content().update(
                c as int,
                Content::Literal(value@),
            ));
        }
    }

    /// Gives cell `c` the binding `binding`, in place of the value or the
    /// binding it had. The cell is dirty: the binding runs when the cell is
    /// read. Of the other cells the store keeps nothing that the change
    /// has made stale: see [`PropertyStore::lemma_cache_is_current`].
    pub fn set_binding(&mut self, c: usize, binding: Expression)
        requires
            old(self).wf(),
            c < old(self).spec_len(),
        ensures
            final(self).wf(),
            final(self).content() == old(self).content().update(c as int, Content::Binding(binding)),
            final(self).spec_len() == old(self).spec_len(),
            final(self).cached(c as int).is_none(),
    {
        let ghost old_bindings = self.bindings@;
        let ghost base = self.cells@;
        let count = self.cells.len();
        let mut work: Vec<usize> = Vec::new();
        self.bindings[c] = Some(binding);
        self.cells[c].state = CellState::Dirty;
        core::mem::swap(&mut self.cells[c].dependents, &mut work);
        proof {
            assert forall|x: int, q: int|
                0 <= x < base.len() && !set![c as int].contains(x) && base[x].state
                    == CellState::Clean && old_bindings[x] is Some && #[trigger] reads(
                    old_bindings[x].unwrap(),
                    current_values(base),
                ).contains(q) && set![c as int].contains(q) implies work@.contains(x as usize) by {
                assert(cell_coherent(old_bindings, base, x));
            }
        }
        propagate(
            &self.bindings,
            &mut self.cells,
            work,
            Ghost(old_bindings),
            Ghost(base),
            Ghost(c as int),
        );
        proof {
            let expected = old(self).content().update(c as int, Content::Binding(binding));
            assert forall|q: int| 0 <= q < base.len() implies #[trigger] self.content()[q]
                == expected[q] by {
                if q != c {
                    assert(self.bindings@[q] == old_bindings[q]);
                }
            }
            assert(self.content() =~= old(self).content().update(
                c as int,
                Content::Binding(binding),
            ));
        }
    }
}

} // verus!
