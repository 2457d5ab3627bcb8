//! Properties that relate the checking procedures to each other and to
//! the runs of the transition system.
use vstd::prelude::*;
use crate::encode::first_unknown;
use crate::engine::{bmc_cex_len, bmc_outcome, kind_outcome, safe_within, reachable_safe, is_counterexample, trace_agrees};
use crate::property::PropV;
use crate::system::{TransitionSystem, lemma_first_index};
use crate::verdict::Outcome;
use crate::tools::{Backend, backend_flag};
use crate::printer::{print_bytes, ids_quote_free, lemma_print_parse, not_and_bytes, implies_iff_bytes,
    lemma_not_and_bytes, lemma_implies_iff_bytes};
use crate::property::spec_parse_property;
use crate::property::{lex, is_ws_byte};
use crate::bounds::{lex_boundary, lemma_lex_insert_all};
use crate::chart::{lower_chart, StateInfo, lemma_last_index, ids_of};
use crate::property::{TokV, print_toks, paren_toks, p_iff, lemma_not_and_precedence, lemma_implies_iff_precedence};
use crate::attrs::{quote_free, ends_with, id_first, expr_first, lemma_attribute_order, pragma_comment,
    lemma_document_attribute_order};
use crate::chart::{passes_chart_checks, reached_within, is_leaf_kind};
use crate::pragma::{find_from, pragma_of, invariant_tag, pragmas, scan_closed, comment_close, comment_open, lemma_pragmas_concat_from};

verus! {

/// A proof by k-induction is a real proof: the invariant holds in every
/// reachable state.
pub proof fn law_k_induction_covers_reachable(ts: TransitionSystem, p: PropV, max_k: int, out: Outcome)
    requires
        first_unknown(ts, p) is None,
        kind_outcome(ts, p, max_k, out),
        out is Holds,
    ensures
        reachable_safe(ts, p),
{
}

/// Bounded safety means no bug within the bound: no state of an initial
/// run of at most `bound` transitions violates the invariant.
pub proof fn law_bmc_covers_depth(ts: TransitionSystem, p: PropV, bound: int, out: Outcome)
    requires
        first_unknown(ts, p) is None,
        bmc_outcome(ts, p, bound, out),
        out is BoundedSafe,
    ensures
        safe_within(ts, p, bound),
{
}

/// The two procedures never contradict each other: once k-induction
/// proves `p`, bounded model checking to any depth finds no violation.
pub proof fn law_holds_excludes_bounded_violation(ts: TransitionSystem, p: PropV, max_k: int, kout: Outcome,
    bound: int, bout: Outcome)
    requires
        first_unknown(ts, p) is None,
        kind_outcome(ts, p, max_k, kout),
        kout is Holds,
        bmc_outcome(ts, p, bound, bout),
    ensures
        !(bout is Violated),
{
    if bout is Violated {
        let (path, evts) = choose|path: Seq<int>, evts: Seq<int>| bmc_cex_len(ts, p, evts.len() as int, bound)
            && #[trigger] is_counterexample(ts, p, path, evts) && trace_agrees(ts, bout->Violated_trace@, path, evts);
        assert(reachable_safe(ts, p));
        assert(ts.is_initial_run(path, evts));
        let k = choose|k: int| 0 <= k < path.len() && !ts.holds(p, #[trigger] path[k]);
        assert(false);
    }
}

/// Only one state is active at a time: `not (in(a) and in(b))` for two
/// different state names of the system is never violated.
pub proof fn law_distinct_states_exclusive(ts: TransitionSystem, a: Seq<char>, b: Seq<char>, bound: int, out: Outcome)
    requires
        a != b,
        bmc_outcome(ts, PropV::Not(Box::new(PropV::And(Box::new(PropV::In(a)), Box::new(PropV::In(b))))), bound, out),
    ensures
        !(out is Violated),
{
    let p = PropV::Not(Box::new(PropV::And(Box::new(PropV::In(a)), Box::new(PropV::In(b)))));
    lemma_first_index(ts.state_names(), a);
    lemma_first_index(ts.state_names(), b);
    if out is Violated {
        if first_unknown(ts, p) is None {
            let (path, evts) = choose|path: Seq<int>, evts: Seq<int>| bmc_cex_len(ts, p, evts.len() as int, bound)
                && #[trigger] is_counterexample(ts, p, path, evts) && trace_agrees(ts, out->Violated_trace@, path, evts);
            let k = choose|k: int| 0 <= k < path.len() && !ts.holds(p, #[trigger] path[k]);
            reveal_with_fuel(TransitionSystem::holds, 3);
            assert(ts.index_of_name(a) == path[k] && ts.index_of_name(b) == path[k]);
            assert(false);
        }
    }
}

/// Different backends have different command-line flags.
pub proof fn law_backend_flags_distinct(a: Backend, b: Backend)
    requires
        a != b,
    ensures
        backend_flag(a) != backend_flag(b),
{
    reveal_strlit("rust");
    reveal_strlit("go");
    reveal_strlit("cpp");
    reveal_strlit("kotlin");
    reveal_strlit("c11");
    assert(backend_flag(a)[1] != backend_flag(b)[1] || backend_flag(a).len() != backend_flag(b).len());
}

/// Pragma extraction distributes over concatenation: when every comment
/// the scan of `x` meets is closed inside `x`, and `x` is empty or ends
/// with `-->`, the pragmas of `x + y` are those of `x` followed by those
/// of `y`.
pub proof fn law_pragmas_concat(x: Seq<char>, y: Seq<char>)
    requires
        scan_closed(x, 0),
        x.len() == 0 || (x.len() >= 3 && x.subrange(x.len() - 3, x.len() as int) == comment_close()),
    ensures
        pragmas(x + y) == pragmas(x) + pragmas(y),
{
    let n = x.len() as int;
    assert forall|i: int| 0 <= i < n && n < i + 4 && i + 4 <= n + y.len()
        implies #[trigger] (x + y).subrange(i, i + 4) != comment_open() by {
        assert((x + y).subrange(i, i + 4)[0] == x[i]);
        assert(x[i] == x.subrange(n - 3, n)[i - (n - 3)]);
        assert(comment_open()[0] == '<');
    }
    lemma_pragmas_concat_from(x, y, 0);
}

/// The parser inverts the fully parenthesised printer: the UTF-8 bytes of
/// `true`, `false`, `in('s')`, `not (a)` and `(a) OP (b)` parse back to
/// the property they render, when no state id holds a single quote.
pub proof fn law_parser_inverts_printer(p: PropV)
    requires
        ids_quote_free(p),
    ensures
        spec_parse_property(print_bytes(p)) == Ok::<PropV, Seq<char>>(p),
{
    lemma_print_parse(p);
}

/// White space only separates tokens: in an expression that tokenizes,
/// any run of white space bytes put in where one token ends and the next
/// begins (outside a quoted name, not inside a word, `=>` or `<=>`) leaves
/// the tokens unchanged.
pub proof fn law_whitespace_between_tokens(b: Seq<u8>, k: int, ws: Seq<u8>)
    requires
        forall|j: int| 0 <= j < ws.len() ==> is_ws_byte(#[trigger] ws[j]),
        0 <= k <= b.len(),
        lex_boundary(b, 0, k),
        lex(b, 0) is Ok,
    ensures
        lex(b.take(k) + ws + b.skip(k), 0) == lex(b, 0),
{
    lemma_lex_insert_all(b, ws, k);
}

/// Lowering keeps the chart's declared initial state: the lowered system
/// starts where the chart says it starts (not in its first state), and its
/// states are the chart's states in document order, the initial among them.
pub proof fn law_lowering_keeps_declared_initial(initial: Seq<char>, states: Seq<StateInfo>)
    ensures
        lower_chart(initial, states) matches Ok(lc) ==> {
            &&& lc.initial == initial
            &&& lc.states.len() == states.len()
            &&& forall|i: int| 0 <= i < states.len() ==> lc.states[i] == #[trigger] states[i].id@
            &&& exists|i: int| 0 <= i < states.len() && #[trigger] states[i].id@ == initial
        },
{
    if lower_chart(initial, states) is Ok {
        let ids = ids_of(states);
        lemma_last_index(ids, initial);
        let i = crate::chart::last_index(ids, initial);
        assert(ids[i] == states[i].id@);
    }
}

/// `not` binds tighter than `and`: `not (a) and (b)` is the conjunction of
/// `not a` and `b`, for any properties `a` and `b` written in printed form,
/// as tokens and (state ids without single quotes) as text.
pub proof fn law_not_binds_tighter_than_and(a: PropV, b: PropV)
    ensures
        ({
            let t = seq![TokV::Not] + paren_toks(print_toks(a)) + seq![TokV::And] + paren_toks(print_toks(b));
            p_iff(t, 0) == Ok::<(PropV, int), Seq<char>>((PropV::And(Box::new(PropV::Not(Box::new(a))), Box::new(b)), t.len() as int))
        }),
        ids_quote_free(a) && ids_quote_free(b) ==> spec_parse_property(not_and_bytes(a, b))
            == Ok::<PropV, Seq<char>>(PropV::And(Box::new(PropV::Not(Box::new(a))), Box::new(b))),
{
    lemma_not_and_precedence(a, b);
    if ids_quote_free(a) && ids_quote_free(b) {
        lemma_not_and_bytes(a, b);
    }
}

/// `<=>` binds looser than `=>`: `(a) => (b) <=> (c)` is the biconditional
/// of `a => b` and `c`, for any properties written in printed form, as
/// tokens and (state ids without single quotes) as text.
pub proof fn law_iff_looser_than_implies(a: PropV, b: PropV, c: PropV)
    ensures
        ({
            let t = paren_toks(print_toks(a)) + seq![TokV::Implies] + paren_toks(print_toks(b)) + seq![TokV::Iff]
                + paren_toks(print_toks(c));
            p_iff(t, 0) == Ok::<(PropV, int), Seq<char>>((PropV::Iff(
                Box::new(PropV::Implies(Box::new(a), Box::new(b))), Box::new(c)), t.len() as int))
        }),
        ids_quote_free(a) && ids_quote_free(b) && ids_quote_free(c) ==> spec_parse_property(implies_iff_bytes(a, b, c))
            == Ok::<PropV, Seq<char>>(PropV::Iff(Box::new(PropV::Implies(Box::new(a), Box::new(b))), Box::new(c))),
{
    lemma_implies_iff_precedence(a, b, c);
    if ids_quote_free(a) && ids_quote_free(b) && ids_quote_free(c) {
        lemma_implies_iff_bytes(a, b, c);
    }
}

/// Attribute order does not matter: an `@invariant` pragma reads the same
/// `(id, expr)` pair whether it writes `id` or `expr` first (values without
/// double quotes; the `expr` value must not end in `id=` and the `id` value
/// not in `expr=`, which would read as the other attribute's name). A
/// document that is one such comment (values without `-->`) yields that one
/// pair either way.
pub proof fn law_pragma_attribute_order(id: Seq<char>, expr: Seq<char>)
    requires
        quote_free(id),
        quote_free(expr),
        !ends_with(expr, seq!['i', 'd', '=']),
        !ends_with(id, seq!['e', 'x', 'p', 'r', '=']),
    ensures
        pragma_of(invariant_tag() + seq![' '] + id_first(id, expr)) == Some((id, expr)),
        pragma_of(invariant_tag() + seq![' '] + expr_first(id, expr)) == Some((id, expr)),
        find_from(id, comment_close(), 0) is None && find_from(expr, comment_close(), 0) is None ==> {
            &&& pragmas(pragma_comment(id_first(id, expr))) == seq![(id, expr)]
            &&& pragmas(pragma_comment(expr_first(id, expr))) == seq![(id, expr)]
        },
{
    lemma_attribute_order(id, expr);
    if find_from(id, comment_close(), 0) is None && find_from(expr, comment_close(), 0) is None {
        lemma_document_attribute_order(id, expr);
    }
}

/// A chart of leaf states with a state that cannot be reached from the
/// initial state fails the checks, so validation and rendering both refuse
/// it (`validate_chart` and `visualise_chart` answer `Ok` only on charts
/// that pass them).
pub proof fn law_unreachable_state_fails_checks(initial: Seq<char>, states: Seq<StateInfo>, i: int)
    requires
        forall|k: int| 0 <= k < states.len() ==> is_leaf_kind(#[trigger] states[k].kind),
        0 <= i < states.len(),
        forall|n: nat| !#[trigger] reached_within(states, initial, n, states[i].id@),
    ensures
        !passes_chart_checks(initial, states),
{
    if passes_chart_checks(initial, states) {
        assert(is_leaf_kind(states[i].kind));
        let n = choose|n: nat| reached_within(states, initial, n, #[trigger] states[i].id@);
        assert(reached_within(states, initial, n, states[i].id@));
    }
}

} // verus!
