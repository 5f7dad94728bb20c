//! Semantic analysis of automaton descriptions.
//!
//! One pass over the syntax tree resolves state names to dense integer
//! identifiers, validates the distribution invariants, rewrites delayed
//! transitions into chains of synthetic intermediate states, and emits the
//! resolved rule set.  Unlike the parser, the analysis does not stop at the
//! first problem: every semantic error is collected and the whole list is
//! returned.

use vstd::prelude::*;
use crate::compiler::parser::{
    Ast, ComparisonOperator, ConditionNode, NeighborCell, NextConditionNode, StateDistributionNode,
    StateNode, TransitionNode, condition_node_wf, next_condition_wf, state_node_wf,
    transition_node_wf,
};
use crate::text::{append_nanos, append_u128, dec_digits, nanos_str, str_eq_str};
use vstd::string::StrSliceExecFns;

verus! {

// ---------------------------------------------------------------------------
// The resolved rule set
// ---------------------------------------------------------------------------
/// How a state's cells are seeded at construction.  A proportion is in
/// billionths of the whole grid; a box is an explicit rectangle
/// `(x, y, width, height)`.
#[derive(Clone, Copy, PartialEq, Eq, Structural, Debug)]
pub enum StateDistribution {
    Proportion(u32),
    Quantity(usize),
    Box(usize, usize, usize, usize),
    Default,
}

/// A resolved state: its dense identifier, name, color and distribution.
#[derive(PartialEq, Debug)]
pub struct State {
    pub id: usize,
    pub name: String,
    pub color: (u8, u8, u8),
    pub distribution: StateDistribution,
}

/// The identifiers of the synthetic states a delayed transition expanded
/// into: `len` states starting at `start`.
#[derive(Clone, Copy, PartialEq, Eq, Structural, Debug)]
pub struct ImplicitStateRange {
    pub start: usize,
    pub len: usize,
}

/// A resolved condition.  Probabilities are in billionths.
#[derive(Clone, Copy, PartialEq, Eq, Structural, Debug)]
pub enum Condition {
    QuantityCondition(usize, ComparisonOperator, u8),
    NeighborCondition(NeighborCell, usize),
    RandomCondition(u32),
    True,
}

/// Conditions that must all hold for a conjunction to hold.
pub type ConditionsConjunction = Vec<Condition>;

/// A transition: origin state, destination state, and a disjunction of
/// conjunctions of conditions.
pub type Transition = (usize, usize, Vec<ConditionsConjunction>);

/// The fully resolved output of the semantic analysis.
#[derive(PartialEq, Debug)]
pub struct Rules {
    pub world_size: (usize, usize),
    pub states: Vec<State>,
    pub transitions: Vec<Transition>,
    pub implicit_state_ranges: Vec<Option<ImplicitStateRange>>,
}

// ---------------------------------------------------------------------------
// The model of the state chain
// ---------------------------------------------------------------------------
/// What the analysis reads out of one state node: name, color,
/// distribution.
pub open spec fn state_view(s: State) -> (Seq<char>, (u8, u8, u8), StateDistribution) {
    (s.name@, s.color, s.distribution)
}

/// The view of a whole state vector.
pub open spec fn states_view(v: Seq<State>) -> Seq<(Seq<char>, (u8, u8, u8), StateDistribution)> {
    v.map(|_i: int, s: State| state_view(s))
}

/// The states declared along the chain, in order.
pub open spec fn states_seq(n: StateNode) -> Seq<(Seq<char>, (u8, u8, u8), StateDistribution)>
    decreases n,
{
    match n {
        StateNode::State(name, r, g, b, d) => match d {
            StateDistributionNode::Proportion(p, nx) => seq![
                (name@, (r, g, b), StateDistribution::Proportion(p)),
            ] + states_seq(*nx),
            StateDistributionNode::Quantity(q, nx) => seq![
                (name@, (r, g, b), StateDistribution::Quantity(q)),
            ] + states_seq(*nx),
            StateDistributionNode::Default(nx) => seq![
                (name@, (r, g, b), StateDistribution::Default),
            ] + states_seq(*nx),
        },
        StateNode::Next(_) => Seq::empty(),
    }
}

/// The transition chain at the end of the state chain.
pub open spec fn first_transition_spec(n: StateNode) -> TransitionNode
    decreases n,
{
    match n {
        StateNode::State(_name, _r, _g, _b, d) => match d {
            StateDistributionNode::Proportion(_p, nx) => first_transition_spec(*nx),
            StateDistributionNode::Quantity(_q, nx) => first_transition_spec(*nx),
            StateDistributionNode::Default(nx) => first_transition_spec(*nx),
        },
        StateNode::Next(t) => t,
    }
}

/// The index of the first state with the given name, or -1.  A name
/// declared twice is not an error the taxonomy knows: every reference
/// resolves to the first declaration.
pub open spec fn name_index(
    states: Seq<(Seq<char>, (u8, u8, u8), StateDistribution)>,
    name: Seq<char>,
) -> int
    decreases states.len(),
{
    if states.len() == 0 {
        -1
    } else if states[0].0 == name {
        0
    } else {
        let r = name_index(states.skip(1), name);
        if r < 0 {
            -1
        } else {
            r + 1
        }
    }
}

proof fn lemma_name_index(states: Seq<(Seq<char>, (u8, u8, u8), StateDistribution)>, name: Seq<char>)
    ensures
        name_index(states, name) == -1 ==> forall|k: int|
            0 <= k < states.len() ==> states[k].0 != name,
        name_index(states, name) >= 0 ==> 0 <= name_index(states, name) < states.len() && states[
            name_index(states, name)
        ].0 == name && forall|k: int| 0 <= k < name_index(states, name) ==> states[k].0 != name,
    decreases states.len(),
{
    if states.len() > 0 && states[0].0 != name {
        lemma_name_index(states.skip(1), name);
        let r = name_index(states.skip(1), name);
        if r == -1 {
            assert forall|k: int| 0 <= k < states.len() implies states[k].0 != name by {
                if k > 0 {
                    assert(states.skip(1)[k - 1].0 != name);
                }
            }
        } else {
            assert(states[r + 1].0 == states.skip(1)[r].0);
            assert forall|k: int| 0 <= k < r + 1 implies states[k].0 != name by {
                if k > 0 {
                    assert(states.skip(1)[k - 1].0 != name);
                }
            }
        }
    }
}

// ---------------------------------------------------------------------------
// Error messages
// ---------------------------------------------------------------------------
/// The views of a list of error strings.
pub open spec fn error_views(es: Seq<String>) -> Seq<Seq<char>> {
    es.map(|_i: int, e: String| e@)
}

/// A transition names a state that is not declared.
pub open spec fn transition_undefined_error_spec(o: Seq<char>, d: Seq<char>, u: Seq<char>) -> Seq<
    char,
> {
    "The transition '"@ + o + " -> "@ + d + "' refers to the state \""@ + u
        + "\", but it's not defined."@
}

/// A condition names a state that is not declared.
pub open spec fn condition_undefined_error_spec(name: Seq<char>) -> Seq<char> {
    "A condition refers to the state \""@ + name + "\", but it's not defined."@
}

/// A `true` condition is combined with other conditions.
pub open spec fn condition_true_error_spec() -> Seq<char> {
    "The \"true\" condition should not be alone, not combined with other conditions."@
}

/// The description declares no state at all.
pub open spec fn no_states_error_spec() -> Seq<char> {
    "You should specify at least one state."@
}

/// The proportions sum to one or more.
pub open spec fn proportions_error_spec(sum: nat) -> Seq<char> {
    "The sum of state's proportions must be lesser than 1.0, but it is currently "@ + nanos_str(sum)
        + "."@
}

/// There is no default state, or more than one.
pub open spec fn default_error_spec(count: nat) -> Seq<char> {
    "There must be exactly one default state (without a distribution specified), but there are currently "@
        + dec_digits(count) + " of such states."@
}

/// The quantities ask for more cells than the world holds.
pub open spec fn quantities_error_spec(sum: nat, w: nat, h: nat) -> Seq<char> {
    "The sum of state's quantities is "@ + dec_digits(sum)
        + ", but the world cannot hold that, its size is only "@ + dec_digits(w) + " * "@
        + dec_digits(h) + " = "@ + dec_digits(w * h) + "."@
}

/// Builds the message for a transition that names an undefined state.
pub fn transition_undefined_state_error(
    state_origin: &str,
    state_destination: &str,
    undefined: &str,
) -> (m: String)
    ensures
        m@ == transition_undefined_error_spec(state_origin@, state_destination@, undefined@),
{
    let mut m = String::new();
    m.append("The transition '");
    m.append(state_origin);
    m.append(" -> ");
    m.append(state_destination);
    m.append("' refers to the state \"");
    m.append(undefined);
    m.append("\", but it's not defined.");
    m
}

/// Builds the message for a condition that names an undefined state.
pub fn condition_undefined_state_error(state_name: &str) -> (m: String)
    ensures
        m@ == condition_undefined_error_spec(state_name@),
{
    let mut m = String::new();
    m.append("A condition refers to the state \"");
    m.append(state_name);
    m.append("\", but it's not defined.");
    m
}

/// Builds the message for a misused `true` condition.
pub fn condition_true_error() -> (m: String)
    ensures
        m@ == condition_true_error_spec(),
{
    let mut m = String::new();
    m.append("The \"true\" condition should not be alone, not combined with other conditions.");
    m
}

// ---------------------------------------------------------------------------
// Distribution invariants
// ---------------------------------------------------------------------------
/// The sum of the proportion distributions, in billionths.
pub open spec fn prop_sum(sts: Seq<(Seq<char>, (u8, u8, u8), StateDistribution)>) -> nat
    decreases sts.len(),
{
    if sts.len() == 0 {
        0
    } else {
        prop_sum(sts.drop_last()) + match sts.last().2 {
            StateDistribution::Proportion(p) => p as nat,
            _ => 0nat,
        }
    }
}

/// How many states carry the default distribution.
pub open spec fn default_count(sts: Seq<(Seq<char>, (u8, u8, u8), StateDistribution)>) -> nat
    decreases sts.len(),
{
    if sts.len() == 0 {
        0
    } else {
        default_count(sts.drop_last()) + match sts.last().2 {
            StateDistribution::Default => 1nat,
            _ => 0nat,
        }
    }
}

/// The sum of the quantity distributions.
pub open spec fn qty_sum(sts: Seq<(Seq<char>, (u8, u8, u8), StateDistribution)>) -> nat
    decreases sts.len(),
{
    if sts.len() == 0 {
        0
    } else {
        qty_sum(sts.drop_last()) + match sts.last().2 {
            StateDistribution::Quantity(q) => q as nat,
            _ => 0nat,
        }
    }
}

/// The errors the distribution check reports, in the order it reports
/// them: proportions summing to one or more, a default-state count other
/// than one, quantities exceeding the world's area.
pub open spec fn control_errors_spec(
    sts: Seq<(Seq<char>, (u8, u8, u8), StateDistribution)>,
    w: nat,
    h: nat,
) -> Seq<Seq<char>> {
    (if prop_sum(sts) >= 1_000_000_000 {
        seq![proportions_error_spec(prop_sum(sts))]
    } else {
        Seq::<Seq<char>>::empty()
    }) + (if default_count(sts) != 1 {
        seq![default_error_spec(default_count(sts))]
    } else {
        Seq::<Seq<char>>::empty()
    }) + (if qty_sum(sts) > w * h {
        seq![quantities_error_spec(qty_sum(sts), w, h)]
    } else {
        Seq::<Seq<char>>::empty()
    })
}

fn control_states_distribution(
    states: &Vec<State>,
    world_size: &(usize, usize),
    errors: &mut Vec<String>,
)
    ensures
        error_views(final(errors)@) == error_views(old(errors)@) + control_errors_spec(
            states_view(states@),
            world_size.0 as nat,
            world_size.1 as nat,
        ),
{
    let ghost sv = states_view(states@);
    let n = states.len();
    // Sum the proportions.
    let mut psum: u128 = 0;
    let mut i: usize = 0;
    while i < n
        invariant
            i <= n,
            n == states@.len(),
            sv == states_view(states@),
            psum == prop_sum(sv.take(i as int)),
            psum <= (i as u128) * 0xFFFF_FFFFu128,
        decreases n - i,
    {
        proof {
            assert(sv.take(i + 1).drop_last() =~= sv.take(i as int));
            assert((i as u128 + 1) * 0xFFFF_FFFFu128 == (i as u128) * 0xFFFF_FFFFu128
                + 0xFFFF_FFFFu128) by (nonlinear_arith);
            assert((i as u128 + 1) * 0xFFFF_FFFFu128 <= 0xFFFF_FFFF_FFFF_FFFFu128
                * 0xFFFF_FFFFu128) by (nonlinear_arith)
                requires
                    i as u128 + 1 <= 0xFFFF_FFFF_FFFF_FFFFu128,
            ;
        }
        match states[i].distribution {
            StateDistribution::Proportion(p) => {
                psum = psum + p as u128;
            },
            _ => {},
        }
        i = i + 1;
    }
    proof {
        assert(sv.take(n as int) =~= sv);
    }
    if psum >= 1_000_000_000 {
        let mut m = String::new();
        m.append("The sum of state's proportions must be lesser than 1.0, but it is currently ");
        append_nanos(&mut m, psum);
        m.append(".");
        errors.push(m);
    }
    // Count the default states.
    let mut dcount: usize = 0;
    let mut i2: usize = 0;
    while i2 < n
        invariant
            i2 <= n,
            n == states@.len(),
            sv == states_view(states@),
            dcount <= i2,
            dcount == default_count(sv.take(i2 as int)),
        decreases n - i2,
    {
        proof {
            assert(sv.take(i2 + 1).drop_last() =~= sv.take(i2 as int));
        }
        match states[i2].distribution {
            StateDistribution::Default => {
                dcount = dcount + 1;
            },
            _ => {},
        }
        i2 = i2 + 1;
    }
    proof {
        assert(sv.take(n as int) =~= sv);
    }
    if dcount != 1 {
        let mut m = String::new();
        m.append(
            "There must be exactly one default state (without a distribution specified), but there are currently ",
        );
        append_u128(&mut m, dcount as u128);
        m.append(" of such states.");
        errors.push(m);
    }
    // Sum the quantities.
    let mut qsum: u128 = 0;
    let mut i3: usize = 0;
    while i3 < n
        invariant
            i3 <= n,
            n == states@.len(),
            sv == states_view(states@),
            qsum == qty_sum(sv.take(i3 as int)),
            qsum <= (i3 as u128) * 0xFFFF_FFFF_FFFF_FFFFu128,
        decreases n - i3,
    {
        proof {
            assert(sv.take(i3 + 1).drop_last() =~= sv.take(i3 as int));
            assert((i3 as u128 + 1) * 0xFFFF_FFFF_FFFF_FFFFu128 == (i3 as u128)
                * 0xFFFF_FFFF_FFFF_FFFFu128 + 0xFFFF_FFFF_FFFF_FFFFu128) by (nonlinear_arith);
            assert((i3 as u128 + 1) * 0xFFFF_FFFF_FFFF_FFFFu128 <= 0xFFFF_FFFF_FFFF_FFFFu128
                * 0xFFFF_FFFF_FFFF_FFFFu128) by (nonlinear_arith)
                requires
                    i3 as u128 + 1 <= 0xFFFF_FFFF_FFFF_FFFFu128,
            ;
            assert(usize::MAX <= 0xFFFF_FFFF_FFFF_FFFFu64);
        }
        match states[i3].distribution {
            StateDistribution::Quantity(q) => {
                qsum = qsum + q as u128;
            },
            _ => {},
        }
        i3 = i3 + 1;
    }
    proof {
        assert(sv.take(n as int) =~= sv);
    }
    let w = world_size.0;
    let h = world_size.1;
    proof {
        assert((w as u128) * (h as u128) <= 0xFFFF_FFFF_FFFF_FFFFu128
            * 0xFFFF_FFFF_FFFF_FFFFu128) by (nonlinear_arith)
            requires
                w as u128 <= 0xFFFF_FFFF_FFFF_FFFFu128,
                h as u128 <= 0xFFFF_FFFF_FFFF_FFFFu128,
        ;
    }
    let area: u128 = (w as u128) * (h as u128);
    if qsum > area {
        let mut m = String::new();
        m.append("The sum of state's quantities is ");
        append_u128(&mut m, qsum);
        m.append(", but the world cannot hold that, its size is only ");
        append_u128(&mut m, w as u128);
        m.append(" * ");
        append_u128(&mut m, h as u128);
        m.append(" = ");
        append_u128(&mut m, area);
        m.append(".");
        errors.push(m);
    }
    proof {
        assert(error_views(errors@) =~= error_views(old(errors)@) + control_errors_spec(
            sv,
            world_size.0 as nat,
            world_size.1 as nat,
        ));
    }
}

// ---------------------------------------------------------------------------
// States
// ---------------------------------------------------------------------------
fn build_states(node: &StateNode, states: &mut Vec<State>)
    ensures
        final(states)@.len() == old(states)@.len() + states_seq(*node).len(),
        forall|i: int| 0 <= i < old(states)@.len() ==> final(states)@[i] == old(states)@[i],
        forall|j: int|
            0 <= j < states_seq(*node).len() ==> final(states)@[old(states)@.len() + j].id == old(
                states,
            )@.len() + j && final(states)@[old(states)@.len() + j].name@ == (
            #[trigger] states_seq(*node)[j]).0 && final(states)@[old(states)@.len() + j].color
                == states_seq(*node)[j].1 && final(states)@[old(states)@.len() + j].distribution
                == states_seq(*node)[j].2,
    decreases *node,
{
    match node {
        StateNode::State(name, r, g, b, d) => {
            let dist: StateDistribution;
            let next: &StateNode;
            match d {
                StateDistributionNode::Proportion(p, nx) => {
                    dist = StateDistribution::Proportion(*p);
                    next = nx;
                },
                StateDistributionNode::Quantity(q, nx) => {
                    dist = StateDistribution::Quantity(*q);
                    next = nx;
                },
                StateDistributionNode::Default(nx) => {
                    dist = StateDistribution::Default;
                    next = nx;
                },
            }
            let id = states.len();
            states.push(State { id, name: name.clone(), color: (*r, *g, *b), distribution: dist });
            build_states(next, states);
        },
        StateNode::Next(_) => {},
    }
}

fn first_transition_node(node: &StateNode) -> (r: &TransitionNode)
    ensures
        *r == first_transition_spec(*node),
    decreases *node,
{
    match node {
        StateNode::State(_name, _r, _g, _b, d) => match d {
            StateDistributionNode::Proportion(_p, nx) => first_transition_node(nx),
            StateDistributionNode::Quantity(_q, nx) => first_transition_node(nx),
            StateDistributionNode::Default(nx) => first_transition_node(nx),
        },
        StateNode::Next(t) => t,
    }
}

/// The index of the first state with the given name, if any.
fn get_state_index(state_name: &str, states: &Vec<State>) -> (r: Option<usize>)
    ensures
        r is Some <==> name_index(states_view(states@), state_name@) >= 0,
        r is Some ==> r->Some_0 == name_index(states_view(states@), state_name@) && r->Some_0
            < states@.len(),
{
    let ghost sv = states_view(states@);
    proof {
        lemma_name_index(sv, state_name@);
    }
    let n = states.len();
    let mut i: usize = 0;
    while i < n
        invariant
            i <= n,
            n == states@.len(),
            sv == states_view(states@),
            forall|k: int| 0 <= k < i ==> sv[k].0 != state_name@,
        decreases n - i,
    {
        if str_eq_str(states[i].name.as_str(), state_name) {
            proof {
                lemma_name_index(sv, state_name@);
                assert(sv[i as int].0 == state_name@);
            }
            return Some(i);
        }
        i = i + 1;
    }
    proof {
        lemma_name_index(sv, state_name@);
        if name_index(sv, state_name@) >= 0 {
            assert(sv[name_index(sv, state_name@)].0 == state_name@);
        }
    }
    None
}

// ---------------------------------------------------------------------------
// Conditions
// ---------------------------------------------------------------------------
/// The resolved index of a name, with 0 standing in for an undefined name
/// so that the analysis can continue collecting errors.
pub open spec fn resolve_or_zero(
    sts: Seq<(Seq<char>, (u8, u8, u8), StateDistribution)>,
    name: Seq<char>,
) -> int {
    let r = name_index(sts, name);
    if r < 0 {
        0
    } else {
        r
    }
}

/// The transition chain that follows a condition chain.
pub open spec fn cond_end(c: ConditionNode) -> TransitionNode
    decreases c,
{
    match c {
        ConditionNode::QuantityCondition(_n, _op, _q, next) => cond_step_end(next),
        ConditionNode::NeighborCondition(_c, _n, next) => cond_step_end(next),
        ConditionNode::RandomCondition(_p, next) => cond_step_end(next),
        ConditionNode::True(next) => cond_step_end(next),
    }
}

/// Helper of [`cond_end`]: the chain after one continuation.
pub open spec fn cond_step_end(n: NextConditionNode) -> TransitionNode
    decreases n,
{
    match n {
        NextConditionNode::NextCondition(_op, c2) => cond_end(*c2),
        NextConditionNode::NextTransition(t) => *t,
    }
}

/// What walking a condition chain produces, starting with the open
/// conjunction `conj` and the closed disjuncts `disj`: the final
/// disjunction of conjunctions, and the errors in the order they are
/// found.  `&&` extends the open conjunction, `||` closes it; a `true`
/// condition combined with anything else is an error.
pub open spec fn cond_model(
    c: ConditionNode,
    sts: Seq<(Seq<char>, (u8, u8, u8), StateDistribution)>,
    conj: Seq<Condition>,
    disj: Seq<Seq<Condition>>,
) -> (Seq<Seq<Condition>>, Seq<Seq<char>>)
    decreases c,
{
    match c {
        ConditionNode::QuantityCondition(name, op, q, next) => {
            let errs = if name_index(sts, name@) < 0 {
                seq![condition_undefined_error_spec(name@)]
            } else {
                Seq::<Seq<char>>::empty()
            };
            let cond = Condition::QuantityCondition(resolve_or_zero(sts, name@) as usize, op, q);
            let (d2, e2) = cond_step(next, sts, conj.push(cond), disj);
            (d2, errs + e2)
        },
        ConditionNode::NeighborCondition(cell, name, next) => {
            let errs = if name_index(sts, name@) < 0 {
                seq![condition_undefined_error_spec(name@)]
            } else {
                Seq::<Seq<char>>::empty()
            };
            let cond = Condition::NeighborCondition(cell, resolve_or_zero(sts, name@) as usize);
            let (d2, e2) = cond_step(next, sts, conj.push(cond), disj);
            (d2, errs + e2)
        },
        ConditionNode::RandomCondition(p, next) => {
            cond_step(next, sts, conj.push(Condition::RandomCondition(p)), disj)
        },
        ConditionNode::True(next) => {
            let before = conj.len() > 0 || disj.len() > 0;
            let after = next is NextCondition;
            let errs = if before || after {
                seq![condition_true_error_spec()]
            } else {
                Seq::<Seq<char>>::empty()
            };
            let (d2, e2) = cond_step(next, sts, conj.push(Condition::True), disj);
            (d2, errs + e2)
        },
    }
}

/// Helper of [`cond_model`]: one continuation step.
pub open spec fn cond_step(
    n: NextConditionNode,
    sts: Seq<(Seq<char>, (u8, u8, u8), StateDistribution)>,
    conj: Seq<Condition>,
    disj: Seq<Seq<Condition>>,
) -> (Seq<Seq<Condition>>, Seq<Seq<char>>)
    decreases n,
{
    match n {
        NextConditionNode::NextCondition(op, c2) => {
            if op is Or {
                cond_model(*c2, sts, Seq::empty(), disj.push(conj))
            } else {
                cond_model(*c2, sts, conj, disj)
            }
        },
        NextConditionNode::NextTransition(_t) => {
            if conj.len() > 0 {
                (disj.push(conj), Seq::<Seq<char>>::empty())
            } else {
                (disj, Seq::<Seq<char>>::empty())
            }
        },
    }
}

/// The view of a disjunction of conjunctions.
pub open spec fn disj_view(v: Seq<Vec<Condition>>) -> Seq<Seq<Condition>> {
    v.map(|_i: int, cj: Vec<Condition>| cj@)
}

fn condition_end<'a>(node: &'a ConditionNode) -> (r: &'a TransitionNode)
    ensures
        *r == cond_end(*node),
    decreases *node,
{
    match node {
        ConditionNode::QuantityCondition(_n, _op, _q, next) => next_condition_end(next),
        ConditionNode::NeighborCondition(_c, _n, next) => next_condition_end(next),
        ConditionNode::RandomCondition(_p, next) => next_condition_end(next),
        ConditionNode::True(next) => next_condition_end(next),
    }
}

fn next_condition_end<'a>(n: &'a NextConditionNode) -> (r: &'a TransitionNode)
    ensures
        *r == cond_step_end(*n),
    decreases *n,
{
    match n {
        NextConditionNode::NextCondition(_op, c2) => condition_end(c2),
        NextConditionNode::NextTransition(t) => t,
    }
}

fn construct_condition(
    node: &ConditionNode,
    states: &Vec<State>,
    conj: Vec<Condition>,
    disj: Vec<Vec<Condition>>,
    errors: &mut Vec<String>,
) -> (r: Vec<Vec<Condition>>)
    ensures
        disj_view(r@) == cond_model(*node, states_view(states@), conj@, disj_view(disj@)).0,
        error_views(final(errors)@) == error_views(old(errors)@) + cond_model(
            *node,
            states_view(states@),
            conj@,
            disj_view(disj@),
        ).1,
    decreases *node,
{
    let ghost sv = states_view(states@);
    let ghost conj0 = conj@;
    let ghost disj0 = disj_view(disj@);
    match node {
        ConditionNode::QuantityCondition(name, op, q, next) => {
            let idx: usize = match get_state_index(name.as_str(), states) {
                Some(i) => i,
                None => {
                    errors.push(condition_undefined_state_error(name.as_str()));
                    0
                },
            };
            let mut conj2 = conj;
            conj2.push(Condition::QuantityCondition(idx, *op, *q));
            let r = construct_next_condition(next, states, conj2, disj, errors);
            proof {
                assert(error_views(errors@) =~= error_views(old(errors)@) + cond_model(
                    *node,
                    sv,
                    conj0,
                    disj0,
                ).1);
            }
            r
        },
        ConditionNode::NeighborCondition(cell, name, next) => {
            let idx: usize = match get_state_index(name.as_str(), states) {
                Some(i) => i,
                None => {
                    errors.push(condition_undefined_state_error(name.as_str()));
                    0
                },
            };
            let mut conj2 = conj;
            conj2.push(Condition::NeighborCondition(*cell, idx));
            let r = construct_next_condition(next, states, conj2, disj, errors);
            proof {
                assert(error_views(errors@) =~= error_views(old(errors)@) + cond_model(
                    *node,
                    sv,
                    conj0,
                    disj0,
                ).1);
            }
            r
        },
        ConditionNode::RandomCondition(p, next) => {
            let mut conj2 = conj;
            conj2.push(Condition::RandomCondition(*p));
            let r = construct_next_condition(next, states, conj2, disj, errors);
            proof {
                assert(error_views(errors@) =~= error_views(old(errors)@) + cond_model(
                    *node,
                    sv,
                    conj0,
                    disj0,
                ).1);
            }
            r
        },
        ConditionNode::True(next) => {
            let before = conj.len() > 0 || disj.len() > 0;
            let after = match next {
                NextConditionNode::NextCondition(_, _) => true,
                NextConditionNode::NextTransition(_) => false,
            };
            if before || after {
                errors.push(condition_true_error());
            }
            let mut conj2 = conj;
            conj2.push(Condition::True);
            let r = construct_next_condition(next, states, conj2, disj, errors);
            proof {
                assert(error_views(errors@) =~= error_views(old(errors)@) + cond_model(
                    *node,
                    sv,
                    conj0,
                    disj0,
                ).1);
            }
            r
        },
    }
}

fn construct_next_condition(
    n: &NextConditionNode,
    states: &Vec<State>,
    conj: Vec<Condition>,
    disj: Vec<Vec<Condition>>,
    errors: &mut Vec<String>,
) -> (r: Vec<Vec<Condition>>)
    ensures
        disj_view(r@) == cond_step(*n, states_view(states@), conj@, disj_view(disj@)).0,
        error_views(final(errors)@) == error_views(old(errors)@) + cond_step(
            *n,
            states_view(states@),
            conj@,
            disj_view(disj@),
        ).1,
    decreases *n,
{
    let ghost conj0 = conj@;
    let ghost disj0 = disj_view(disj@);
    match n {
        NextConditionNode::NextCondition(op, c2) => {
            let is_or = match op {
                crate::compiler::parser::BooleanOperator::Or => true,
                crate::compiler::parser::BooleanOperator::And => false,
            };
            if is_or {
                let mut disj2 = disj;
                disj2.push(conj);
                proof {
                    assert(disj_view(disj2@) =~= disj0.push(conj0));
                }
                construct_condition(c2, states, Vec::new(), disj2, errors)
            } else {
                construct_condition(c2, states, conj, disj, errors)
            }
        },
        NextConditionNode::NextTransition(_t) => {
            proof {
                assert(error_views(errors@) =~= error_views(errors@) + Seq::<Seq<char>>::empty());
            }
            if conj.len() > 0 {
                let mut disj2 = disj;
                disj2.push(conj);
                proof {
                    assert(disj_view(disj2@) =~= disj0.push(conj0));
                }
                disj2
            } else {
                disj
            }
        },
    }
}

// ---------------------------------------------------------------------------
// Transitions and delay expansion
// ---------------------------------------------------------------------------
/// A delayed transition could not be expanded because the synthetic state
/// identifiers would not fit in the machine's address range.  This is the
/// one check with no counterpart in the language's error taxonomy; it
/// guards the machine limit so that the analysis stays total.
pub open spec fn delay_error_spec(o: Seq<char>, d: Seq<char>) -> Seq<char> {
    "The transition '"@ + o + " -> "@ + d + "' has a delay too large to expand."@
}

/// The single always-true disjunction used by synthetic transitions.
pub open spec fn true_disj() -> Seq<Seq<Condition>> {
    seq![seq![Condition::True]]
}

/// The `k` synthetic transitions `count+i -> count+i+1`.
pub open spec fn chain_mid(count: int, k: nat) -> Seq<(int, int, Seq<Seq<Condition>>)>
    decreases k,
{
    if k == 0 {
        Seq::empty()
    } else {
        chain_mid(count, (k - 1) as nat).push((count + k - 1, count + k, true_disj()))
    }
}

/// The `k` synthetic states with identifiers `count..count+k`, all carrying
/// the origin's name and color.
pub open spec fn chain_states(name: Seq<char>, color: (u8, u8, u8), count: int, k: nat) -> Seq<
    (int, Seq<char>, (u8, u8, u8)),
>
    decreases k,
{
    if k == 0 {
        Seq::empty()
    } else {
        chain_states(name, color, count, (k - 1) as nat).push((count + k - 1, name, color))
    }
}

/// What walking the transition chain produces, given the resolved states,
/// the number of state identifiers handed out so far, and the implicit
/// ranges so far: the resolved transitions, the synthetic states, the
/// updated ranges, and the errors in order.  A transition with delay `d`
/// greater than one becomes a chain of `d` transitions through `d - 1`
/// synthetic states, and the origin's implicit range records them.
#[verifier::opaque]
pub open spec fn trans_model(
    tn: TransitionNode,
    sts: Seq<(Seq<char>, (u8, u8, u8), StateDistribution)>,
    count: int,
    ranges: Seq<Option<ImplicitStateRange>>,
) -> (
    Seq<(int, int, Seq<Seq<Condition>>)>,
    Seq<(int, Seq<char>, (u8, u8, u8))>,
    Seq<Option<ImplicitStateRange>>,
    Seq<Seq<char>>,
)
    decreases tn,
    via trans_model_decreases
{
    match tn {
        TransitionNode::End => (Seq::empty(), Seq::empty(), ranges, Seq::empty()),
        TransitionNode::Transition(o, d, delay_opt, c) => {
            let oi = name_index(sts, o@);
            let di = name_index(sts, d@);
            let errs_o = if oi < 0 {
                seq![transition_undefined_error_spec(o@, d@, o@)]
            } else {
                Seq::<Seq<char>>::empty()
            };
            let errs_d = if di < 0 {
                seq![transition_undefined_error_spec(o@, d@, d@)]
            } else {
                Seq::<Seq<char>>::empty()
            };
            let origin = if oi < 0 {
                0
            } else {
                oi
            };
            let dest = if di < 0 {
                0
            } else {
                di
            };
            let (disj, errs_c) = cond_model(*c, sts, Seq::empty(), Seq::empty());
            let rest = cond_end(*c);
            let delay = match delay_opt {
                Some(x) => x as int,
                None => 0,
            };
            if delay > 1 && origin < ranges.len() && count + delay - 1 <= usize::MAX {
                let name = sts[origin].0;
                let color = sts[origin].1;
                let this_trans = seq![(origin, count, disj)] + chain_mid(count, (delay - 2) as nat)
                    + seq![(count + delay - 2, dest, true_disj())];
                let this_states = chain_states(name, color, count, (delay - 1) as nat);
                let ranges2 = ranges.update(
                    origin,
                    Some(
                        ImplicitStateRange {
                            start: count as usize,
                            len: (delay - 1) as usize,
                        },
                    ),
                );
                let (rt, rs, rr, re) = trans_model(rest, sts, count + delay - 1, ranges2);
                (
                    this_trans + rt,
                    this_states + rs,
                    rr,
                    errs_o + errs_d + errs_c + re,
                )
            } else {
                let errs_x = if delay > 1 && origin < ranges.len() {
                    seq![delay_error_spec(o@, d@)]
                } else {
                    Seq::<Seq<char>>::empty()
                };
                let (rt, rs, rr, re) = trans_model(rest, sts, count, ranges);
                (
                    seq![(origin, dest, disj)] + rt,
                    rs,
                    rr,
                    errs_o + errs_d + errs_c + errs_x + re,
                )
            }
        },
    }
}

#[via_fn]
proof fn trans_model_decreases(
    tn: TransitionNode,
    sts: Seq<(Seq<char>, (u8, u8, u8), StateDistribution)>,
    count: int,
    ranges: Seq<Option<ImplicitStateRange>>,
) {
    match tn {
        TransitionNode::Transition(_o, _d, _delay_opt, c) => {
            lemma_cond_end_decreases(*c);
        },
        TransitionNode::End => {},
    }
}

/// Walking to the end of a condition chain reaches a strictly smaller
/// node, so the transition walk terminates.
proof fn lemma_cond_end_decreases(c: ConditionNode)
    ensures
        decreases_to!(c => cond_end(c)),
    decreases c,
{
    match c {
        ConditionNode::QuantityCondition(_n, _op, _q, next) => {
            lemma_cond_step_end_decreases(next);
            assert(decreases_to!(c => next));
        },
        ConditionNode::NeighborCondition(_c2, _n, next) => {
            lemma_cond_step_end_decreases(next);
            assert(decreases_to!(c => next));
        },
        ConditionNode::RandomCondition(_p, next) => {
            lemma_cond_step_end_decreases(next);
            assert(decreases_to!(c => next));
        },
        ConditionNode::True(next) => {
            lemma_cond_step_end_decreases(next);
            assert(decreases_to!(c => next));
        },
    }
}

proof fn lemma_cond_step_end_decreases(n: NextConditionNode)
    ensures
        decreases_to!(n => cond_step_end(n)),
    decreases n,
{
    match n {
        NextConditionNode::NextCondition(_op, c2) => {
            lemma_cond_end_decreases(*c2);
            assert(decreases_to!(n => *c2));
        },
        NextConditionNode::NextTransition(_t) => {},
    }
}

/// The view of one resolved transition.
pub open spec fn trans_view(t: Transition) -> (int, int, Seq<Seq<Condition>>) {
    (t.0 as int, t.1 as int, disj_view(t.2@))
}

/// The view of a transition vector.
pub open spec fn trans_views(v: Seq<Transition>) -> Seq<(int, int, Seq<Seq<Condition>>)> {
    v.map(|_i: int, t: Transition| trans_view(t))
}

fn true_conditions() -> (r: Vec<Vec<Condition>>)
    ensures
        disj_view(r@) == true_disj(),
{
    let mut cj: Vec<Condition> = Vec::new();
    cj.push(Condition::True);
    let mut dv: Vec<Vec<Condition>> = Vec::new();
    dv.push(cj);
    proof {
        assert(disj_view(dv@) =~= true_disj());
        assert(disj_view(dv@)[0] =~= true_disj()[0]);
    }
    dv
}

/// Builds the message for a delay whose expansion would not fit.
fn delay_error(state_origin: &str, state_destination: &str) -> (m: String)
    ensures
        m@ == delay_error_spec(state_origin@, state_destination@),
{
    let mut m = String::new();
    m.append("The transition '");
    m.append(state_origin);
    m.append(" -> ");
    m.append(state_destination);
    m.append("' has a delay too large to expand.");
    m
}


/// Pushes the chain a delayed transition expands into: the transition
/// into the first synthetic state, the links between the synthetic
/// states, the final transition into the destination, and the origin's
/// implicit range.
#[verifier::rlimit(100)]
#[verifier::spinoff_prover]
fn push_delay_chain(
    transitions: &mut Vec<Transition>,
    implicit_states: &mut Vec<State>,
    implicit_state_ranges: &mut Vec<Option<ImplicitStateRange>>,
    states: &Vec<State>,
    state_origin: usize,
    state_destination: usize,
    delay: usize,
    disj: Vec<Vec<Condition>>,
)
    requires
        delay > 1,
        state_origin < old(implicit_state_ranges)@.len(),
        old(implicit_state_ranges)@.len() == states@.len(),
        delay - 1 <= usize::MAX - (states@.len() + old(implicit_states)@.len()),
    ensures
        ({
            let count = states@.len() + old(implicit_states)@.len() as int;
            let sv = states_view(states@);
            &&& trans_views(final(transitions)@) == trans_views(old(transitions)@) + seq![
                (state_origin as int, count, disj_view(disj@)),
            ] + chain_mid(count, (delay - 2) as nat) + seq![
                (count + delay - 2, state_destination as int, true_disj()),
            ]
            &&& final(implicit_states)@.len() == old(implicit_states)@.len() + (delay - 1)
            &&& forall|k: int|
                0 <= k < old(implicit_states)@.len() ==> final(implicit_states)@[k] == old(
                    implicit_states,
                )@[k]
            &&& forall|j: int|
                0 <= j < delay - 1 ==> (#[trigger] final(implicit_states)@[old(
                    implicit_states,
                )@.len() + j]).id == count + j && final(implicit_states)@[old(
                    implicit_states,
                )@.len() + j].name@ == sv[state_origin as int].0 && final(implicit_states)@[old(
                    implicit_states,
                )@.len() + j].color == sv[state_origin as int].1 && final(implicit_states)@[old(
                    implicit_states,
                )@.len() + j].distribution == StateDistribution::Quantity(0)
            &&& final(implicit_state_ranges)@ == old(implicit_state_ranges)@.update(
                state_origin as int,
                Some(
                    ImplicitStateRange { start: count as usize, len: (delay - 1) as usize },
                ),
            )
        }),
{
    let ghost sv = states_view(states@);
    let ghost imp0 = implicit_states@;
    let ghost trans0 = trans_views(transitions@);
    let ghost ranges0 = implicit_state_ranges@;
    let states_number = states.len() + implicit_states.len();
    let ghost count = states_number as int;
    let ghost dview = disj_view(disj@);
    transitions.push((state_origin, states_number, disj));
    implicit_states.push(
        State {
            id: states_number,
            name: states[state_origin].name.clone(),
            color: states[state_origin].color,
            distribution: StateDistribution::Quantity(0),
        },
    );
    proof {
        assert(trans_views(transitions@) =~= trans0 + seq![(state_origin as int, count, dview)]
            + chain_mid(count, 0));
    }
    let mut i: usize = 0;
    while i < delay - 2
        invariant
            delay > 1,
            i <= delay - 2,
            count == states_number as int,
            states_number <= usize::MAX - (delay - 1),
            state_origin < states@.len(),
            sv == states_view(states@),
            trans_views(transitions@) == trans0 + seq![(state_origin as int, count, dview)]
                + chain_mid(count, i as nat),
            implicit_states@.len() == imp0.len() + 1 + i,
            forall|k: int| 0 <= k < imp0.len() ==> implicit_states@[k] == imp0[k],
            forall|j: int|
                0 <= j < 1 + i ==> (#[trigger] implicit_states@[imp0.len() + j]).id == count + j
                    && implicit_states@[imp0.len() + j].name@ == sv[state_origin as int].0
                    && implicit_states@[imp0.len() + j].color == sv[state_origin as int].1
                    && implicit_states@[imp0.len() + j].distribution
                    == StateDistribution::Quantity(0),
            implicit_state_ranges@ == ranges0,
        decreases delay - 2 - i,
    {
        let ghost pre = trans_views(transitions@);
        transitions.push((states_number + i, states_number + i + 1, true_conditions()));
        implicit_states.push(
            State {
                id: states_number + i + 1,
                name: states[state_origin].name.clone(),
                color: states[state_origin].color,
                distribution: StateDistribution::Quantity(0),
            },
        );
        proof {
            assert(trans_views(transitions@) =~= pre.push(
                (count + i, count + i + 1, true_disj()),
            ));
            assert(chain_mid(count, (i + 1) as nat) == chain_mid(count, i as nat).push(
                (count + i, count + i + 1, true_disj()),
            ));
            assert(trans_views(transitions@) =~= trans0 + seq![
                (state_origin as int, count, dview),
            ] + chain_mid(count, (i + 1) as nat));
        }
        i = i + 1;
    }
    transitions.push((states_number + (delay - 2), state_destination, true_conditions()));
    implicit_state_ranges.set(
        state_origin,
        Some(ImplicitStateRange { start: states_number, len: delay - 1 }),
    );
    proof {
        assert(trans_views(transitions@) =~= (trans0 + seq![
            (state_origin as int, count, dview),
        ] + chain_mid(count, (delay - 2) as nat)).push(
            (count + delay - 2, state_destination as int, true_disj()),
        ));
        assert(trans_views(transitions@) =~= trans0 + seq![(state_origin as int, count, dview)]
            + chain_mid(count, (delay - 2) as nat) + seq![
            (count + delay - 2, state_destination as int, true_disj()),
        ]);
        assert(implicit_state_ranges@ =~= ranges0.update(
            state_origin as int,
            Some(ImplicitStateRange { start: count as usize, len: (delay - 1) as usize }),
        ));
    }
}


/// Packages the walk's component facts into [`build_post`].
proof fn lemma_build_post_intro(
    tn: TransitionNode,
    sv: Seq<(Seq<char>, (u8, u8, u8), StateDistribution)>,
    count0: int,
    trans0: Seq<Transition>,
    trans1: Seq<Transition>,
    imp0: Seq<State>,
    imp1: Seq<State>,
    ranges0: Seq<Option<ImplicitStateRange>>,
    ranges1: Seq<Option<ImplicitStateRange>>,
    errs0: Seq<String>,
    errs1: Seq<String>,
)
    requires
        trans_views(trans1) == trans_views(trans0) + trans_model(tn, sv, count0, ranges0).0,
        imp1.len() == imp0.len() + trans_model(tn, sv, count0, ranges0).1.len(),
        forall|i: int| 0 <= i < imp0.len() ==> imp1[i] == imp0[i],
        implicit_match(imp1, imp0.len() as int, trans_model(tn, sv, count0, ranges0).1),
        ranges1 == trans_model(tn, sv, count0, ranges0).2,
        error_views(errs1) == error_views(errs0) + trans_model(tn, sv, count0, ranges0).3,
    ensures
        build_post(tn, sv, count0, trans0, trans1, imp0, imp1, ranges0, ranges1, errs0, errs1),
{
}

/// The implicit-state vector extends the base vector with exactly the
/// model's synthetic states, all with quantity zero.
pub open spec fn implicit_match(
    imp: Seq<State>,
    base: int,
    model: Seq<(int, Seq<char>, (u8, u8, u8))>,
) -> bool {
    forall|j: int|
        0 <= j < model.len() ==> imp[base + j].id == (#[trigger] model[j]).0 && imp[base + j].name@
            == model[j].1 && imp[base + j].color == model[j].2 && imp[base + j].distribution
            == StateDistribution::Quantity(0)
}

/// Everything one step of the transition walk guarantees, phrased over
/// the values before and after the call.
pub open spec fn build_post(
    tn: TransitionNode,
    sv: Seq<(Seq<char>, (u8, u8, u8), StateDistribution)>,
    count0: int,
    trans0: Seq<Transition>,
    trans1: Seq<Transition>,
    imp0: Seq<State>,
    imp1: Seq<State>,
    ranges0: Seq<Option<ImplicitStateRange>>,
    ranges1: Seq<Option<ImplicitStateRange>>,
    errs0: Seq<String>,
    errs1: Seq<String>,
) -> bool {
    &&& trans_views(trans1) == trans_views(trans0) + trans_model(tn, sv, count0, ranges0).0
    &&& imp1.len() == imp0.len() + trans_model(tn, sv, count0, ranges0).1.len()
    &&& forall|i: int| 0 <= i < imp0.len() ==> imp1[i] == imp0[i]
    &&& implicit_match(imp1, imp0.len() as int, trans_model(tn, sv, count0, ranges0).1)
    &&& ranges1 == trans_model(tn, sv, count0, ranges0).2
    &&& error_views(errs1) == error_views(errs0) + trans_model(tn, sv, count0, ranges0).3
}

#[verifier::rlimit(100)]
#[verifier::spinoff_prover]
fn build_transitions(
    tn: &TransitionNode,
    states: &Vec<State>,
    transitions: &mut Vec<Transition>,
    implicit_states: &mut Vec<State>,
    implicit_state_ranges: &mut Vec<Option<ImplicitStateRange>>,
    errors: &mut Vec<String>,
)
    requires
        old(implicit_state_ranges)@.len() == states@.len(),
        states@.len() + old(implicit_states)@.len() <= usize::MAX,
    ensures
        build_post(
            *tn,
            states_view(states@),
            states@.len() + old(implicit_states)@.len() as int,
            old(transitions)@,
            final(transitions)@,
            old(implicit_states)@,
            final(implicit_states)@,
            old(implicit_state_ranges)@,
            final(implicit_state_ranges)@,
            old(errors)@,
            final(errors)@,
        ),
    decreases *tn, 1int,
{
    let ghost sv = states_view(states@);
    match tn {
        TransitionNode::End => {
            proof {
                reveal_with_fuel(trans_model, 1);
                let m = trans_model(
                    *tn,
                    sv,
                    states@.len() + old(implicit_states)@.len() as int,
                    old(implicit_state_ranges)@,
                );
                assert(m.0 =~= Seq::<(int, int, Seq<Seq<Condition>>)>::empty());
                assert(m.1 =~= Seq::<(int, Seq<char>, (u8, u8, u8))>::empty());
                assert(m.2 == old(implicit_state_ranges)@);
                assert(m.3 =~= Seq::<Seq<char>>::empty());
                assert(trans_views(transitions@) =~= trans_views(transitions@) + m.0);
                assert(error_views(errors@) =~= error_views(errors@) + m.3);
                assert(trans_views(transitions@) == trans_views(old(transitions)@) + m.0);
                assert(implicit_states@.len() == old(implicit_states)@.len() + m.1.len());
                assert(forall|i: int|
                    0 <= i < old(implicit_states)@.len() ==> implicit_states@[i] == old(
                        implicit_states,
                    )@[i]);
                assert(implicit_state_ranges@ == m.2);
                assert(error_views(errors@) == error_views(old(errors)@) + m.3);
                assert(implicit_match(
                    implicit_states@,
                    old(implicit_states)@.len() as int,
                    m.1,
                ));
                assert(build_post(
                        *tn,
                        sv,
                        states@.len() + old(implicit_states)@.len() as int,
                        old(transitions)@,
                        transitions@,
                        old(implicit_states)@,
                        implicit_states@,
                        old(implicit_state_ranges)@,
                        implicit_state_ranges@,
                        old(errors)@,
                        errors@,
                    ));
            }
        },
        TransitionNode::Transition(_o, _d, _delay_opt, _c) => {
            build_transition_step(
                tn,
                states,
                transitions,
                implicit_states,
                implicit_state_ranges,
                errors,
            );
        },
    }
}

#[verifier::rlimit(100)]
#[verifier::spinoff_prover]
fn build_transition_step(
    tn: &TransitionNode,
    states: &Vec<State>,
    transitions: &mut Vec<Transition>,
    implicit_states: &mut Vec<State>,
    implicit_state_ranges: &mut Vec<Option<ImplicitStateRange>>,
    errors: &mut Vec<String>,
)
    requires
        tn is Transition,
        old(implicit_state_ranges)@.len() == states@.len(),
        states@.len() + old(implicit_states)@.len() <= usize::MAX,
    ensures
        build_post(
            *tn,
            states_view(states@),
            states@.len() + old(implicit_states)@.len() as int,
            old(transitions)@,
            final(transitions)@,
            old(implicit_states)@,
            final(implicit_states)@,
            old(implicit_state_ranges)@,
            final(implicit_state_ranges)@,
            old(errors)@,
            final(errors)@,
        ),
    decreases *tn, 0int,
{
    let ghost sv = states_view(states@);
    match tn {
        TransitionNode::End => {
            proof {
                assert(false);
            }
        },
        TransitionNode::Transition(o, d, delay_opt, c) => {
            let ghost oi = name_index(sv, o@);
            let ghost di = name_index(sv, d@);
            let ghost errs_o: Seq<Seq<char>> = if oi < 0 {
                seq![transition_undefined_error_spec(o@, d@, o@)]
            } else {
                Seq::<Seq<char>>::empty()
            };
            let ghost errs_d: Seq<Seq<char>> = if di < 0 {
                seq![transition_undefined_error_spec(o@, d@, d@)]
            } else {
                Seq::<Seq<char>>::empty()
            };
            let state_origin: usize = match get_state_index(o.as_str(), states) {
                Some(i) => i,
                None => {
                    errors.push(
                        transition_undefined_state_error(o.as_str(), d.as_str(), o.as_str()),
                    );
                    0
                },
            };
            let state_destination: usize = match get_state_index(d.as_str(), states) {
                Some(i) => i,
                None => {
                    errors.push(
                        transition_undefined_state_error(o.as_str(), d.as_str(), d.as_str()),
                    );
                    0
                },
            };
            proof {
                assert(state_origin as int == if oi < 0 {
                    0int
                } else {
                    oi
                });
                assert(state_destination as int == if di < 0 {
                    0int
                } else {
                    di
                });
                assert(error_views(errors@) =~= error_views(old(errors)@) + errs_o + errs_d);
            }
            let ghost errors1 = errors@;
            let conj_new: Vec<Condition> = Vec::new();
            let disj_new: Vec<Vec<Condition>> = Vec::new();
            proof {
                assert(conj_new@ =~= Seq::<Condition>::empty());
                assert(disj_view(disj_new@) =~= Seq::<Seq<Condition>>::empty());
            }
            let disj = construct_condition(c, states, conj_new, disj_new, errors);
            let ghost dview = disj_view(disj@);
            let ghost errs_c = cond_model(**c, sv, Seq::empty(), Seq::empty()).1;
            proof {
                assert(dview == cond_model(**c, sv, Seq::empty(), Seq::empty()).0);
                assert(error_views(errors@) =~= error_views(old(errors)@) + errs_o + errs_d
                    + errs_c);
            }
            let rest = condition_end(c);
            let delay: usize = match delay_opt {
                Some(x) => *x,
                None => 0,
            };
            let states_number = states.len() + implicit_states.len();
            let ghost count = states_number as int;
            let ghost ranges0 = implicit_state_ranges@;
            let ghost errors2 = errors@;
            let ghost trans0 = trans_views(transitions@);
            let ghost imp0 = implicit_states@;
            let ghost m = trans_model(
                *tn,
                sv,
                states@.len() + old(implicit_states)@.len() as int,
                old(implicit_state_ranges)@,
            );
            if delay > 1 && state_origin < implicit_state_ranges.len() && delay - 1 <= usize::MAX
                - states_number {
                push_delay_chain(
                    transitions,
                    implicit_states,
                    implicit_state_ranges,
                    states,
                    state_origin,
                    state_destination,
                    delay,
                    disj,
                );
                proof {
                    lemma_chain_states_index(
                        sv[state_origin as int].0,
                        sv[state_origin as int].1,
                        count,
                        (delay - 1) as nat,
                    );
                }
                let ghost trans1 = trans_views(transitions@);
                let ghost imp1 = implicit_states@;
                let ghost errors3 = errors@;
                let ghost ranges1 = implicit_state_ranges@;
                proof {
                    lemma_cond_end_decreases(**c);
                    assert(decreases_to!(*tn => *rest));
                }
                build_transitions(
                    rest,
                    states,
                    transitions,
                    implicit_states,
                    implicit_state_ranges,
                    errors,
                );
                proof {
                    {
                        reveal_with_fuel(trans_model, 1);
                        let mr = trans_model(
                            *rest,
                            sv,
                            states@.len() + imp1.len() as int,
                            ranges1,
                        );
                        assert(states@.len() + imp1.len() as int == count + delay - 1);
                        assert(m.0 == seq![(state_origin as int, count, dview)] + chain_mid(
                            count,
                            (delay - 2) as nat,
                        ) + seq![(count + delay - 2, state_destination as int, true_disj())]
                            + mr.0);
                        assert(m.3 == errs_o + errs_d + errs_c + mr.3);
                        assert(m.1 == chain_states(
                            sv[state_origin as int].0,
                            sv[state_origin as int].1,
                            count,
                            (delay - 1) as nat,
                        ) + mr.1);
                        assert(m.2 == mr.2);
                        assert(trans_views(transitions@) =~= trans_views(old(transitions)@)
                            + m.0);
                        assert(error_views(errors@) =~= error_views(old(errors)@) + m.3);
                        assert(implicit_states@.len() == old(implicit_states)@.len()
                            + m.1.len());
                        lemma_chain_states_index(
                            sv[state_origin as int].0,
                            sv[state_origin as int].1,
                            count,
                            (delay - 1) as nat,
                        );
                        assert(implicit_match(
                            implicit_states@,
                            old(implicit_states)@.len() as int,
                            m.1,
                        )) by {
                            assert forall|j: int| 0 <= j < m.1.len() implies implicit_states@[
                                old(implicit_states)@.len() + j
                            ].id == (#[trigger] m.1[j]).0 && implicit_states@[old(
                                implicit_states,
                            )@.len() + j].name@ == m.1[j].1 && implicit_states@[old(
                                implicit_states,
                            )@.len() + j].color == m.1[j].2 && implicit_states@[old(
                                implicit_states,
                            )@.len() + j].distribution == StateDistribution::Quantity(0) by {
                                if j < delay - 1 {
                                    assert(implicit_states@[imp0.len() + j] == imp1[imp0.len()
                                        + j]);
                                } else {
                                    assert(implicit_match(
                                        implicit_states@,
                                        imp1.len() as int,
                                        mr.1,
                                    ));
                                    assert(implicit_states@[imp1.len() + (j - (delay - 1))].id
                                        == mr.1[j - (delay - 1)].0);
                                }
                            }
                        }
                        assert forall|i: int|
                            0 <= i < old(implicit_states)@.len() implies implicit_states@[i]
                            == old(implicit_states)@[i] by {
                            assert(imp1[i] == imp0[i]);
                            assert(implicit_states@[i] == imp1[i]);
                        }
                        lemma_build_post_intro(
                            *tn,
                            sv,
                            states@.len() + old(implicit_states)@.len() as int,
                            old(transitions)@,
                            transitions@,
                            old(implicit_states)@,
                            implicit_states@,
                            old(implicit_state_ranges)@,
                            implicit_state_ranges@,
                            old(errors)@,
                            errors@,
                        );
                    }
                }
            } else {
                if delay > 1 && state_origin < implicit_state_ranges.len() {
                    errors.push(delay_error(o.as_str(), d.as_str()));
                }
                let ghost errs_x: Seq<Seq<char>> = if delay > 1 && state_origin
                    < ranges0.len() {
                    seq![delay_error_spec(o@, d@)]
                } else {
                    Seq::<Seq<char>>::empty()
                };
                proof {
                    assert(error_views(errors@) =~= error_views(old(errors)@) + errs_o + errs_d
                        + errs_c + errs_x);
                }
                transitions.push((state_origin, state_destination, disj));
                proof {
                    assert(trans_views(transitions@) =~= trans0 + seq![
                        (state_origin as int, state_destination as int, dview),
                    ]);
                }
                let ghost errors3 = errors@;
                proof {
                    lemma_cond_end_decreases(**c);
                    assert(decreases_to!(*tn => *rest));
                }
                build_transitions(
                    rest,
                    states,
                    transitions,
                    implicit_states,
                    implicit_state_ranges,
                    errors,
                );
                proof {
                    {
                        reveal_with_fuel(trans_model, 1);
                        let mr = trans_model(
                            *rest,
                            sv,
                            states@.len() + imp0.len() as int,
                            ranges0,
                        );
                        assert(m.0 == seq![
                            (state_origin as int, state_destination as int, dview),
                        ] + mr.0);
                        assert(m.3 == errs_o + errs_d + errs_c + errs_x + mr.3);
                        assert(m.1 == mr.1);
                        assert(m.2 == mr.2);
                        assert(trans_views(transitions@) =~= trans_views(old(transitions)@)
                            + m.0);
                        assert(error_views(errors@) =~= error_views(old(errors)@) + m.3);
                        assert(implicit_states@.len() == old(implicit_states)@.len()
                            + m.1.len());
                        assert forall|i: int|
                            0 <= i < old(implicit_states)@.len() implies implicit_states@[i]
                            == old(implicit_states)@[i] by {
                            assert(implicit_states@[i] == imp0[i]);
                        }
                        assert(implicit_match(
                            implicit_states@,
                            old(implicit_states)@.len() as int,
                            m.1,
                        )) by {
                            assert(implicit_match(
                                implicit_states@,
                                old(implicit_states)@.len() as int,
                                mr.1,
                            ));
                        }
                        lemma_build_post_intro(
                            *tn,
                            sv,
                            states@.len() + old(implicit_states)@.len() as int,
                            old(transitions)@,
                            transitions@,
                            old(implicit_states)@,
                            implicit_states@,
                            old(implicit_state_ranges)@,
                            implicit_state_ranges@,
                            old(errors)@,
                            errors@,
                        );
                    }
                }
            }
        },
    }
}

proof fn lemma_chain_states_index(name: Seq<char>, color: (u8, u8, u8), count: int, k: nat)
    ensures
        chain_states(name, color, count, k).len() == k,
        forall|j: int|
            0 <= j < k ==> (#[trigger] chain_states(name, color, count, k)[j]) == (
                count + j,
                name,
                color,
            ),
    decreases k,
{
    if k > 0 {
        lemma_chain_states_index(name, color, count, (k - 1) as nat);
    }
}

// ---------------------------------------------------------------------------
// Well-formedness of a rule set
// ---------------------------------------------------------------------------
/// A condition only names states that have an implicit-range slot.
pub open spec fn cond_ok(c: Condition, bound: int) -> bool {
    match c {
        Condition::QuantityCondition(s, _op, _q) => s < bound,
        Condition::NeighborCondition(_cell, s) => s < bound,
        Condition::RandomCondition(p) => p <= 1_000_000_000,
        Condition::True => true,
    }
}

impl Rules {
    /// What the simulation engine relies on: a non-empty world whose area
    /// fits the address range, exactly one default state, proportions
    /// summing below one, quantities fitting the world, every transition
    /// and condition naming a valid state, implicit ranges lying within
    /// the state list, and box distributions lying within the world.
    pub open spec fn wf(&self) -> bool {
        &&& 1 <= self.world_size.0
        &&& forall|si: int| 0 <= si < self.states@.len() ==> (#[trigger] self.states@[si]).id == si
        &&& 1 <= self.world_size.1
        &&& self.world_size.0 * self.world_size.1 <= isize::MAX as int
        &&& default_count(states_view(self.states@)) == 1
        &&& prop_sum(states_view(self.states@)) < 1_000_000_000
        &&& qty_sum(states_view(self.states@)) <= self.world_size.0 * self.world_size.1
        &&& self.implicit_state_ranges@.len() <= self.states@.len()
        &&& forall|ti: int|
            0 <= ti < self.transitions@.len() ==> (#[trigger] self.transitions@[ti]).0
                < self.states@.len() && self.transitions@[ti].1 < self.states@.len()
        &&& forall|ti: int, cj: int, ci: int|
            0 <= ti < self.transitions@.len() && 0 <= cj < self.transitions@[ti].2@.len() && 0 <= ci
                < self.transitions@[ti].2@[cj]@.len() ==> cond_ok(
                #[trigger] self.transitions@[ti].2@[cj]@[ci],
                self.implicit_state_ranges@.len() as int,
            )
        &&& forall|ri: int|
            0 <= ri < self.implicit_state_ranges@.len() && (
            #[trigger] self.implicit_state_ranges@[ri]) is Some
                ==> self.implicit_state_ranges@[ri]->0.start
                + self.implicit_state_ranges@[ri]->0.len <= self.states@.len()
        &&& forall|si: int|
            0 <= si < self.states@.len() ==> ((#[trigger] self.states@[si]).distribution matches
            StateDistribution::Box(x, y, w, h) ==> x + w <= self.world_size.0 && y + h
                <= self.world_size.1)
        &&& forall|si: int|
            0 <= si < self.states@.len() ==> ((#[trigger] self.states@[si]).distribution matches
            StateDistribution::Proportion(p) ==> p <= 1_000_000_000)
    }
}

// ---------------------------------------------------------------------------
// Putting the analysis together
// ---------------------------------------------------------------------------
/// A fresh implicit-range table: one empty slot per state.
pub open spec fn none_ranges(n: nat) -> Seq<Option<ImplicitStateRange>> {
    Seq::new(n, |_i: int| None)
}

/// The full list of errors the analysis reports for a description, in
/// order: the missing-state check, the distribution checks, then the
/// transition walk.
pub open spec fn analysis_errors(ast: Ast) -> Seq<Seq<char>> {
    let sts = states_seq(ast.first_state);
    let m = trans_model(
        first_transition_spec(ast.first_state),
        sts,
        sts.len() as int,
        none_ranges(sts.len() as nat),
    );
    (if ast.first_state is Next {
        seq![no_states_error_spec()]
    } else {
        Seq::<Seq<char>>::empty()
    }) + control_errors_spec(sts, ast.world_size.0 as nat, ast.world_size.1 as nat) + m.3
}

proof fn lemma_sums_append(
    a: Seq<(Seq<char>, (u8, u8, u8), StateDistribution)>,
    b: Seq<(Seq<char>, (u8, u8, u8), StateDistribution)>,
)
    ensures
        prop_sum(a + b) == prop_sum(a) + prop_sum(b),
        default_count(a + b) == default_count(a) + default_count(b),
        qty_sum(a + b) == qty_sum(a) + qty_sum(b),
    decreases b.len(),
{
    if b.len() == 0 {
        assert(a + b =~= a);
    } else {
        lemma_sums_append(a, b.drop_last());
        assert((a + b).drop_last() =~= a + b.drop_last());
        assert((a + b).last() == b.last());
    }
}

proof fn lemma_quantity_zero_sums(s: Seq<(Seq<char>, (u8, u8, u8), StateDistribution)>)
    requires
        forall|i: int| 0 <= i < s.len() ==> (#[trigger] s[i]).2 == StateDistribution::Quantity(0),
    ensures
        prop_sum(s) == 0,
        default_count(s) == 0,
        qty_sum(s) == 0,
    decreases s.len(),
{
    if s.len() > 0 {
        lemma_quantity_zero_sums(s.drop_last());
    }
}

proof fn lemma_default_exists(s: Seq<(Seq<char>, (u8, u8, u8), StateDistribution)>)
    requires
        default_count(s) >= 1,
    ensures
        exists|i: int| 0 <= i < s.len() && (#[trigger] s[i]).2 is Default,
    decreases s.len(),
{
    if s.len() > 0 {
        if s.last().2 is Default {
            assert(s[s.len() - 1].2 is Default);
        } else {
            lemma_default_exists(s.drop_last());
            let i = choose|i: int|
                0 <= i < s.drop_last().len() && (#[trigger] s.drop_last()[i]).2 is Default;
            assert(s[i].2 is Default);
        }
    }
}

/// A state list with a default distribution somewhere in it.
pub proof fn lemma_default_state_exists(s: Seq<(Seq<char>, (u8, u8, u8), StateDistribution)>)
    requires
        default_count(s) >= 1,
    ensures
        exists|i: int| 0 <= i < s.len() && (#[trigger] s[i]).2 is Default,
{
    lemma_default_exists(s);
}

/// A prefix's proportions never exceed the whole list's.
pub proof fn lemma_prop_sum_prefix(s: Seq<(Seq<char>, (u8, u8, u8), StateDistribution)>, k: int)
    requires
        0 <= k <= s.len(),
    ensures
        prop_sum(s.take(k)) <= prop_sum(s),
    decreases s.len(),
{
    if k == s.len() {
        assert(s.take(k) =~= s);
    } else {
        assert(s.drop_last().take(k) =~= s.take(k));
        lemma_prop_sum_prefix(s.drop_last(), k);
    }
}

/// A prefix's quantities never exceed the whole list's.
pub proof fn lemma_qty_sum_prefix(s: Seq<(Seq<char>, (u8, u8, u8), StateDistribution)>, k: int)
    requires
        0 <= k <= s.len(),
    ensures
        qty_sum(s.take(k)) <= qty_sum(s),
    decreases s.len(),
{
    if k == s.len() {
        assert(s.take(k) =~= s);
    } else {
        assert(s.drop_last().take(k) =~= s.take(k));
        lemma_qty_sum_prefix(s.drop_last(), k);
    }
}

proof fn lemma_states_seq_no_box(n: StateNode)
    requires
        state_node_wf(n),
    ensures
        forall|i: int|
            0 <= i < states_seq(n).len() ==> !((#[trigger] states_seq(n)[i]).2 is Box) && (
            states_seq(n)[i].2 matches StateDistribution::Proportion(p) ==> p <= 1_000_000_000),
    decreases n,
{
    match n {
        StateNode::State(_name, _r, _g, _b, d) => match d {
            StateDistributionNode::Proportion(_p, nx) => {
                lemma_states_seq_no_box(*nx);
            },
            StateDistributionNode::Quantity(_q, nx) => {
                lemma_states_seq_no_box(*nx);
            },
            StateDistributionNode::Default(nx) => {
                lemma_states_seq_no_box(*nx);
            },
        },
        StateNode::Next(_) => {},
    }
}

proof fn lemma_cond_model_bounds(
    c: ConditionNode,
    sts: Seq<(Seq<char>, (u8, u8, u8), StateDistribution)>,
    conj: Seq<Condition>,
    disj: Seq<Seq<Condition>>,
)
    requires
        forall|ci: int| 0 <= ci < conj.len() ==> cond_ok(#[trigger] conj[ci], sts.len() as int),
        forall|cj: int, ci: int|
            0 <= cj < disj.len() && 0 <= ci < disj[cj].len() ==> cond_ok(
                #[trigger] disj[cj][ci],
                sts.len() as int,
            ),
        condition_node_wf(c),
    ensures
        ({
            let (d2, e2) = cond_model(c, sts, conj, disj);
            e2.len() == 0 ==> forall|cj: int, ci: int|
                0 <= cj < d2.len() && 0 <= ci < d2[cj].len() ==> cond_ok(
                    #[trigger] d2[cj][ci],
                    sts.len() as int,
                )
        }),
    decreases c,
{
    match c {
        ConditionNode::QuantityCondition(name, op, q, next) => {
            if name_index(sts, name@) >= 0 {
                proof_name_bound(sts, name@);
                let cond = Condition::QuantityCondition(
                    resolve_or_zero(sts, name@) as usize,
                    op,
                    q,
                );
                lemma_cond_step_bounds(next, sts, conj.push(cond), disj);
                let (d2s, e2s) = cond_step(next, sts, conj.push(cond), disj);
                assert(cond_model(c, sts, conj, disj).1 =~= e2s);
            } else {
                assert(cond_model(c, sts, conj, disj).1.len() >= 1);
            }
        },
        ConditionNode::NeighborCondition(cell, name, next) => {
            if name_index(sts, name@) >= 0 {
                proof_name_bound(sts, name@);
                let cond = Condition::NeighborCondition(
                    cell,
                    resolve_or_zero(sts, name@) as usize,
                );
                lemma_cond_step_bounds(next, sts, conj.push(cond), disj);
                let (d2s, e2s) = cond_step(next, sts, conj.push(cond), disj);
                assert(cond_model(c, sts, conj, disj).1 =~= e2s);
            } else {
                assert(cond_model(c, sts, conj, disj).1.len() >= 1);
            }
        },
        ConditionNode::RandomCondition(p, next) => {
            lemma_cond_step_bounds(next, sts, conj.push(Condition::RandomCondition(p)), disj);
        },
        ConditionNode::True(next) => {
            lemma_cond_step_bounds(next, sts, conj.push(Condition::True), disj);
            let (d2s, e2s) = cond_step(next, sts, conj.push(Condition::True), disj);
            if !(conj.len() > 0 || disj.len() > 0 || next is NextCondition) {
                assert(cond_model(c, sts, conj, disj).1 =~= e2s);
            }
        },
    }
}

proof fn proof_name_bound(
    sts: Seq<(Seq<char>, (u8, u8, u8), StateDistribution)>,
    name: Seq<char>,
)
    requires
        name_index(sts, name) >= 0,
    ensures
        0 <= resolve_or_zero(sts, name) < sts.len(),
{
    lemma_name_index(sts, name);
}

proof fn lemma_cond_step_bounds(
    n: NextConditionNode,
    sts: Seq<(Seq<char>, (u8, u8, u8), StateDistribution)>,
    conj: Seq<Condition>,
    disj: Seq<Seq<Condition>>,
)
    requires
        forall|ci: int| 0 <= ci < conj.len() ==> cond_ok(#[trigger] conj[ci], sts.len() as int),
        forall|cj: int, ci: int|
            0 <= cj < disj.len() && 0 <= ci < disj[cj].len() ==> cond_ok(
                #[trigger] disj[cj][ci],
                sts.len() as int,
            ),
        next_condition_wf(n),
    ensures
        ({
            let (d2, e2) = cond_step(n, sts, conj, disj);
            e2.len() == 0 ==> forall|cj: int, ci: int|
                0 <= cj < d2.len() && 0 <= ci < d2[cj].len() ==> cond_ok(
                    #[trigger] d2[cj][ci],
                    sts.len() as int,
                )
        }),
    decreases n,
{
    match n {
        NextConditionNode::NextCondition(op, c2) => {
            if op is Or {
                lemma_cond_model_bounds(*c2, sts, Seq::empty(), disj.push(conj));
            } else {
                lemma_cond_model_bounds(*c2, sts, conj, disj);
            }
        },
        NextConditionNode::NextTransition(_t) => {},
    }
}

proof fn lemma_chain_mid_index(count: int, k: nat)
    ensures
        chain_mid(count, k).len() == k,
        forall|j: int|
            0 <= j < k ==> (#[trigger] chain_mid(count, k)[j]) == (
                count + j,
                count + j + 1,
                true_disj(),
            ),
    decreases k,
{
    if k > 0 {
        lemma_chain_mid_index(count, (k - 1) as nat);
    }
}

#[verifier::rlimit(100)]
#[verifier::spinoff_prover]
proof fn lemma_trans_model_bounds(
    tn: TransitionNode,
    sts: Seq<(Seq<char>, (u8, u8, u8), StateDistribution)>,
    count: int,
    ranges: Seq<Option<ImplicitStateRange>>,
)
    requires
        ranges.len() == sts.len(),
        sts.len() <= count,
        transition_node_wf(tn),
        forall|ri: int|
            0 <= ri < ranges.len() && (#[trigger] ranges[ri]) is Some ==> ranges[ri]->0.start
                + ranges[ri]->0.len <= count,
    ensures
        ({
            let (ts, ss, rr, es) = trans_model(tn, sts, count, ranges);
            &&& rr.len() == ranges.len()
            &&& forall|j: int| 0 <= j < ss.len() ==> (#[trigger] ss[j]).0 == count + j
            &&& forall|ri: int|
                0 <= ri < rr.len() && (#[trigger] rr[ri]) is Some ==> rr[ri]->0.start
                    + rr[ri]->0.len <= count + ss.len()
            &&& es.len() == 0 ==> forall|ti: int|
                0 <= ti < ts.len() ==> 0 <= (#[trigger] ts[ti]).0 < count + ss.len() && 0
                    <= ts[ti].1 < count + ss.len()
            &&& es.len() == 0 ==> forall|ti: int, cj: int, ci: int|
                0 <= ti < ts.len() && 0 <= cj < ts[ti].2.len() && 0 <= ci < ts[ti].2[cj].len()
                    ==> cond_ok(#[trigger] ts[ti].2[cj][ci], sts.len() as int)
        }),
    decreases tn,
{
    reveal_with_fuel(trans_model, 1);
    match tn {
        TransitionNode::End => {},
        TransitionNode::Transition(o, d, delay_opt, c) => {
            let oi = name_index(sts, o@);
            let di = name_index(sts, d@);
            lemma_name_index(sts, o@);
            lemma_name_index(sts, d@);
            let origin = if oi < 0 {
                0
            } else {
                oi
            };
            let dest = if di < 0 {
                0
            } else {
                di
            };
            let (disj, errs_c) = cond_model(*c, sts, Seq::empty(), Seq::empty());
            lemma_cond_model_bounds(*c, sts, Seq::empty(), Seq::empty());
            let rest = cond_end(*c);
            proof_transition_cond_wf(tn);
            let delay = match delay_opt {
                Some(x) => x as int,
                None => 0,
            };
            lemma_cond_end_decreases(*c);
            lemma_cond_end_wf(*c);
            assert(decreases_to!(tn => rest));
            if delay > 1 && origin < ranges.len() && count + delay - 1 <= usize::MAX {
                let ranges2 = ranges.update(
                    origin,
                    Some(
                        ImplicitStateRange {
                            start: count as usize,
                            len: (delay - 1) as usize,
                        },
                    ),
                );
                lemma_trans_model_bounds(rest, sts, count + delay - 1, ranges2);
                lemma_chain_mid_index(count, (delay - 2) as nat);
                lemma_chain_states_index(sts[origin].0, sts[origin].1, count, (delay - 1) as nat);
                let (rt, rs, rr, re) = trans_model(rest, sts, count + delay - 1, ranges2);
                let (ts, ss, rr2, es) = trans_model(tn, sts, count, ranges);
                assert forall|j: int| 0 <= j < ss.len() implies (#[trigger] ss[j]).0 == count + j
                    by {
                    if j < delay - 1 {
                        assert(ss[j] == chain_states(
                            sts[origin].0,
                            sts[origin].1,
                            count,
                            (delay - 1) as nat,
                        )[j]);
                    } else {
                        assert(ss[j] == rs[j - (delay - 1)]);
                    }
                }
            } else {
                lemma_trans_model_bounds(rest, sts, count, ranges);
            }
        },
    }
}

/// A well-formed transition's condition chain is well formed.
proof fn proof_transition_cond_wf(tn: TransitionNode)
    requires
        transition_node_wf(tn),
    ensures
        tn matches TransitionNode::Transition(_o, _d, _del, c) ==> condition_node_wf(*c),
{
}

/// A well-formed condition chain ends in a well-formed transition chain.
proof fn lemma_cond_end_wf(c: ConditionNode)
    requires
        condition_node_wf(c),
    ensures
        transition_node_wf(cond_end(c)),
    decreases c,
{
    match c {
        ConditionNode::QuantityCondition(_n, _op, _q, next) => {
            lemma_cond_step_end_wf(next);
        },
        ConditionNode::NeighborCondition(_c2, _n, next) => {
            lemma_cond_step_end_wf(next);
        },
        ConditionNode::RandomCondition(_p, next) => {
            lemma_cond_step_end_wf(next);
        },
        ConditionNode::True(next) => {
            lemma_cond_step_end_wf(next);
        },
    }
}

proof fn lemma_cond_step_end_wf(n: NextConditionNode)
    requires
        next_condition_wf(n),
    ensures
        transition_node_wf(cond_step_end(n)),
    decreases n,
{
    match n {
        NextConditionNode::NextCondition(_op, c2) => {
            lemma_cond_end_wf(*c2);
        },
        NextConditionNode::NextTransition(_t) => {},
    }
}

/// A well-formed state chain ends in a well-formed transition chain.
proof fn lemma_first_transition_wf(n: StateNode)
    requires
        state_node_wf(n),
    ensures
        transition_node_wf(first_transition_spec(n)),
    decreases n,
{
    match n {
        StateNode::State(_name, _r, _g, _b, d) => match d {
            StateDistributionNode::Proportion(_p, nx) => {
                lemma_first_transition_wf(*nx);
            },
            StateDistributionNode::Quantity(_q, nx) => {
                lemma_first_transition_wf(*nx);
            },
            StateDistributionNode::Default(nx) => {
                lemma_first_transition_wf(*nx);
            },
        },
        StateNode::Next(_t) => {},
    }
}

/// The view of an implicit model state as a state-view tuple.
pub open spec fn implicit_view(t: (int, Seq<char>, (u8, u8, u8))) -> (
    Seq<char>,
    (u8, u8, u8),
    StateDistribution,
) {
    (t.1, t.2, StateDistribution::Quantity(0))
}

/// Everything the analysis promises, phrased over its input tree and its
/// result: failure exactly when the modeled error list is non-empty, that
/// list verbatim on failure, and the modeled rule set on success.
pub open spec fn analysis_post(ast: Ast, r: Result<Rules, Vec<String>>) -> bool {
    let sts = states_seq(ast.first_state);
    let m = trans_model(
        first_transition_spec(ast.first_state),
        sts,
        sts.len() as int,
        none_ranges(sts.len() as nat),
    );
    &&& (r is Err <==> analysis_errors(ast).len() > 0)
    &&& (r is Err ==> error_views(r->Err_0@) == analysis_errors(ast))
    &&& (r is Ok ==> {
        let rules = r->Ok_0;
        &&& rules.world_size == ast.world_size
        &&& rules.wf()
        &&& states_view(rules.states@) == sts + m.1.map(
            |_i: int, t: (int, Seq<char>, (u8, u8, u8))| implicit_view(t),
        )
        &&& forall|i: int| 0 <= i < rules.states@.len() ==> (#[trigger] rules.states@[i]).id == i
        &&& trans_views(rules.transitions@) == m.0
        &&& rules.implicit_state_ranges@ == m.2
    })
}

/// Resolves, validates and rewrites a parsed tree into the rule set, or
/// the full list of semantic errors in the order they are found.
#[verifier::rlimit(100)]
#[verifier::spinoff_prover]
pub fn semantic_analysis(ast: &Ast) -> (r: Result<Rules, Vec<String>>)
    requires
        1 <= ast.world_size.0,
        1 <= ast.world_size.1,
        ast.world_size.0 * ast.world_size.1 <= isize::MAX as int,
        state_node_wf(ast.first_state),
    ensures
        analysis_post(*ast, r),
{
    let ghost sts = states_seq(ast.first_state);
    let mut errors: Vec<String> = Vec::new();
    let no_states = match &ast.first_state {
        StateNode::Next(_) => true,
        StateNode::State(_n, _r, _g, _b, _d) => false,
    };
    if no_states {
        let mut m0 = String::new();
        m0.append("You should specify at least one state.");
        errors.push(m0);
    }
    let ghost errs0 = error_views(errors@);
    proof {
        assert(errs0 =~= if ast.first_state is Next {
            seq![no_states_error_spec()]
        } else {
            Seq::<Seq<char>>::empty()
        });
    }
    let mut states: Vec<State> = Vec::new();
    build_states(&ast.first_state, &mut states);
    proof {
        assert(states_view(states@) =~= sts);
    }
    let mut implicit_state_ranges: Vec<Option<ImplicitStateRange>> = Vec::new();
    let n = states.len();
    let mut i: usize = 0;
    while i < n
        invariant
            i <= n,
            implicit_state_ranges@.len() == i,
            forall|k: int| 0 <= k < i ==> (#[trigger] implicit_state_ranges@[k]) is None,
        decreases n - i,
    {
        implicit_state_ranges.push(None);
        i = i + 1;
    }
    proof {
        assert(implicit_state_ranges@ =~= none_ranges(sts.len() as nat));
    }
    control_states_distribution(&states, &ast.world_size, &mut errors);
    let ghost errs1 = error_views(errors@);
    let ftn = first_transition_node(&ast.first_state);
    let mut transitions: Vec<Transition> = Vec::new();
    let mut implicit_states: Vec<State> = Vec::new();
    proof {
        lemma_first_transition_wf(ast.first_state);
    }
    build_transitions(
        ftn,
        &states,
        &mut transitions,
        &mut implicit_states,
        &mut implicit_state_ranges,
        &mut errors,
    );
    let ghost m = trans_model(
        first_transition_spec(ast.first_state),
        sts,
        sts.len() as int,
        none_ranges(sts.len() as nat),
    );
    proof {
        assert(trans_views(transitions@) =~= m.0);
        assert(error_views(errors@) =~= analysis_errors(*ast));
    }
    let ghost base = states@;
    let ghost imps = implicit_states@;
    states.append(&mut implicit_states);
    proof {
        assert(states@ == base + imps);
        assert(states_view(states@) =~= sts + m.1.map(
            |_i: int, t: (int, Seq<char>, (u8, u8, u8))| implicit_view(t),
        ));
    }
    if errors.len() == 0 {
        let rules = Rules {
            world_size: (ast.world_size.0, ast.world_size.1),
            states,
            transitions,
            implicit_state_ranges,
        };
        proof {
            let all = states_view(rules.states@);
            let impv = m.1.map(|_i: int, t: (int, Seq<char>, (u8, u8, u8))| implicit_view(t));
            assert(analysis_errors(*ast).len() == 0);
            assert(errs0.len() == 0 && control_errors_spec(
                sts,
                ast.world_size.0 as nat,
                ast.world_size.1 as nat,
            ).len() == 0 && m.3.len() == 0);
            // Distribution sums carry over: the synthetic states all have
            // quantity zero.
            lemma_sums_append(sts, impv);
            assert(forall|j: int|
                0 <= j < impv.len() ==> (#[trigger] impv[j]).2 == StateDistribution::Quantity(0));
            lemma_quantity_zero_sums(impv);
            assert(default_count(sts) == 1);
            assert(prop_sum(sts) < 1_000_000_000);
            assert(qty_sum(sts) <= ast.world_size.0 * ast.world_size.1);
            assert(default_count(all) == 1);
            // Identifier bounds from the transition walk.
            lemma_trans_model_bounds(
                first_transition_spec(ast.first_state),
                sts,
                sts.len() as int,
                none_ranges(sts.len() as nat),
            );
            assert(rules.states@.len() == sts.len() + m.1.len());
            assert forall|ti: int| 0 <= ti < rules.transitions@.len() implies (
            #[trigger] rules.transitions@[ti]).0 < rules.states@.len() && rules.transitions@[ti].1
                < rules.states@.len() by {
                assert(trans_views(rules.transitions@)[ti] == m.0[ti]);
            }
            assert forall|ti: int, cj: int, ci: int|
                0 <= ti < rules.transitions@.len() && 0 <= cj < rules.transitions@[ti].2@.len()
                    && 0 <= ci < rules.transitions@[ti].2@[cj]@.len() implies cond_ok(
                #[trigger] rules.transitions@[ti].2@[cj]@[ci],
                rules.implicit_state_ranges@.len() as int,
            ) by {
                assert(trans_views(rules.transitions@)[ti] == m.0[ti]);
                assert(trans_views(rules.transitions@)[ti].2[cj][ci] == rules.transitions@[ti].2@[
                    cj
                ]@[ci]);
            }
            // No box distributions come out of the analysis, and every
            // proportion is at most one.
            lemma_states_seq_no_box(ast.first_state);
            assert forall|si: int| 0 <= si < rules.states@.len() implies ((
            #[trigger] rules.states@[si]).distribution matches StateDistribution::Box(
                x,
                y,
                w,
                h,
            ) ==> x + w <= rules.world_size.0 && y + h <= rules.world_size.1) && (
            rules.states@[si].distribution matches StateDistribution::Proportion(p) ==> p
                <= 1_000_000_000) by {
                assert(states_view(rules.states@)[si] == all[si]);
                if si < sts.len() {
                    assert(all[si] == sts[si]);
                } else {
                    assert(all[si] == impv[si - sts.len()]);
                }
            }
            assert forall|i: int| 0 <= i < rules.states@.len() implies (
            #[trigger] rules.states@[i]).id == i by {
                if i < base.len() {
                    assert(rules.states@[i] == base[i]);
                    let ghost t = states_seq(ast.first_state)[i];
                    assert(base[i].id == 0 + i);
                } else {
                    assert(rules.states@[i] == imps[i - base.len()]);
                    assert(imps[i - base.len()].id == (m.1[i - base.len()]).0);
                    assert((m.1[i - base.len()]).0 == sts.len() + (i - base.len()));
                }
            }
            assert(rules.wf());
        }
        Ok(rules)
    } else {
        Err(errors)
    }
}

/// Parses the source text and runs the semantic analysis for a world of
/// the given size, yielding the resolved rule set, or the first lexical or
/// syntax error, or the full list of semantic errors.
pub fn parse(source: Vec<u8>, world_size: (usize, usize)) -> (r: Result<Rules, Vec<String>>)
    requires
        source@.len() < u32::MAX,
        1 <= world_size.0,
        1 <= world_size.1,
        world_size.0 * world_size.1 <= isize::MAX as int,
    ensures
        r is Ok ==> r->Ok_0.wf() && r->Ok_0.world_size == world_size,
        r is Err ==> r->Err_0@.len() >= 1,
        ({
            let sp = crate::compiler::parser::sp_parse(source@);
            &&& (sp matches crate::compiler::parser::PStep::Fault(m) ==> r is Err && error_views(
                r->Err_0@,
            ) == seq![m])
            &&& (sp matches crate::compiler::parser::PStep::Done(v, _p) ==> exists|ast: Ast|
                #![auto]
                crate::compiler::parser::state_node_view(ast.first_state) == v
                    && ast.world_size == world_size && state_node_wf(ast.first_state)
                    && analysis_post(ast, r))
        }),
{
    match crate::compiler::parser::parse(source, world_size) {
        Ok(ast) => {
            let r = semantic_analysis(&ast);
            proof {
                if r is Err {
                    assert(error_views(r->Err_0@) == analysis_errors(ast));
                    assert(analysis_errors(ast).len() > 0);
                    assert(r->Err_0@.len() >= 1);
                }
                assert(analysis_post(ast, r));
            }
            r
        },
        Err(error) => {
            let ghost m0 = error@;
            let mut v: Vec<String> = Vec::new();
            v.push(error);
            proof {
                assert(error_views(v@) =~= seq![m0]);
            }
            Err(v)
        },
    }
}

} // verus!
