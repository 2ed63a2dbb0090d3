//! The order of a plan's actions: by source, then by target, in dictionary
//! order; actions that agree in both keep the order in which they came.

use vstd::prelude::*;
use crate::record_manager::{action_views, ActionView, RecordFileAction, RecordManager};
use crate::text::{
    lemma_lex_asymmetric, lemma_lex_irreflexive, lemma_lex_total, lemma_lex_transitive, lex_lt,
    precedes, to_chars,
};

verus! {

/// `a` comes strictly before `b`.
pub open spec fn action_before(a: ActionView, b: ActionView) -> bool {
    lex_lt(a.source, b.source) || (a.source == b.source && lex_lt(a.target, b.target))
}

/// No action comes strictly before one that stands in front of it.
pub open spec fn is_sorted(actions: Seq<ActionView>) -> bool {
    forall|i: int, j: int| 0 <= i < j < actions.len() ==> !action_before(actions[j], actions[i])
}

/// `actions` with `action` put in before the first one that comes strictly
/// after it.
pub open spec fn sorted_insert(actions: Seq<ActionView>, action: ActionView) -> Seq<ActionView>
    decreases actions.len(),
{
    if actions.len() == 0 {
        seq![action]
    } else if action_before(action, actions[0]) {
        seq![action] + actions
    } else {
        seq![actions[0]] + sorted_insert(actions.skip(1), action)
    }
}

/// The actions in order.
pub open spec fn sorted_actions(actions: Seq<ActionView>) -> Seq<ActionView>
    decreases actions.len(),
{
    if actions.len() == 0 {
        actions
    } else {
        sorted_insert(sorted_actions(actions.drop_last()), actions.last())
    }
}

/// Where `b` does not come before `a` and `c` does not come before `b`,
/// `c` does not come before `a`.
pub proof fn lemma_before_transitive(a: ActionView, b: ActionView, c: ActionView)
    requires
        !action_before(b, a),
        !action_before(c, b),
    ensures
        !action_before(c, a),
{
    lemma_lex_total(a.source, b.source);
    lemma_lex_total(b.source, c.source);
    lemma_lex_total(a.target, b.target);
    lemma_lex_total(b.target, c.target);
    lemma_lex_irreflexive(a.source);
    lemma_lex_irreflexive(a.target);
    if lex_lt(a.source, b.source) && lex_lt(b.source, c.source) {
        lemma_lex_transitive(a.source, b.source, c.source);
    }
    if lex_lt(a.target, b.target) && lex_lt(b.target, c.target) {
        lemma_lex_transitive(a.target, b.target, c.target);
    }
    if lex_lt(c.source, a.source) {
        lemma_lex_asymmetric(c.source, a.source);
        if lex_lt(a.source, b.source) {
            lemma_lex_transitive(c.source, a.source, b.source);
            lemma_lex_asymmetric(c.source, b.source);
        }
    }
    if lex_lt(c.target, a.target) {
        lemma_lex_asymmetric(c.target, a.target);
        if lex_lt(a.target, b.target) {
            lemma_lex_transitive(c.target, a.target, b.target);
            lemma_lex_asymmetric(c.target, b.target);
        }
    }
}

/// Where the walk over `actions` stops before the first one that comes
/// strictly after `action`, or at the end, `action` is put in there.
pub proof fn lemma_sorted_insert_at(actions: Seq<ActionView>, action: ActionView, at: int)
    requires
        0 <= at <= actions.len(),
        at < actions.len() ==> action_before(action, actions[at]),
        forall|j: int| 0 <= j < at ==> !action_before(action, actions[j]),
    ensures
        sorted_insert(actions, action) == actions.insert(at, action),
    decreases at,
{
    if at == 0 {
        if actions.len() == 0 {
            assert(actions.insert(0, action) =~= seq![action]);
        } else {
            assert(actions.insert(0, action) =~= seq![action] + actions);
        }
    } else {
        let rest = actions.skip(1);
        assert forall|j: int| 0 <= j < at - 1 implies !action_before(action, rest[j]) by {
            assert(rest[j] == actions[j + 1]);
        }
        if at < actions.len() {
            assert(rest[at - 1] == actions[at]);
        }
        lemma_sorted_insert_at(rest, action, at - 1);
        assert(seq![actions[0]] + rest.insert(at - 1, action) =~= actions.insert(at, action));
    }
}

/// Putting an action in at its place keeps the order and adds that action
/// and nothing else.
pub proof fn lemma_sorted_insert(actions: Seq<ActionView>, action: ActionView)
    requires
        is_sorted(actions),
    ensures
        is_sorted(sorted_insert(actions, action)),
        sorted_insert(actions, action).to_multiset() == actions.to_multiset().insert(action),
        sorted_insert(actions, action).len() == actions.len() + 1,
    decreases actions.len(),
{
    broadcast use vstd::seq_lib::group_to_multiset_ensures;

    if actions.len() == 0 {
        assert(seq![action] =~= Seq::<ActionView>::empty().push(action));
    } else if action_before(action, actions[0]) {
        let result = seq![action] + actions;
        assert(result =~= actions.insert(0, action));
        assert forall|i: int, j: int| 0 <= i < j < result.len() implies !action_before(
            result[j],
            result[i],
        ) by {
            if i == 0 {
                lemma_lex_total(action.source, actions[0].source);
                lemma_lex_total(action.target, actions[0].target);
                if lex_lt(action.source, actions[0].source) {
                    lemma_lex_asymmetric(action.source, actions[0].source);
                }
                if lex_lt(action.target, actions[0].target) {
                    lemma_lex_asymmetric(action.target, actions[0].target);
                }
                lemma_lex_irreflexive(action.source);
                assert(!action_before(actions[0], action));
                if j > 1 {
                    lemma_before_transitive(action, actions[0], actions[j - 1]);
                }
            }
        }
    } else {
        let rest = actions.skip(1);
        assert forall|i: int, j: int| 0 <= i < j < rest.len() implies !action_before(
            rest[j],
            rest[i],
        ) by {
            assert(rest[i] == actions[i + 1]);
            assert(rest[j] == actions[j + 1]);
        }
        lemma_sorted_insert(rest, action);
        let tail = sorted_insert(rest, action);
        let result = seq![actions[0]] + tail;
        assert(result =~= tail.insert(0, actions[0]));
        assert(actions =~= rest.insert(0, actions[0]));
        assert forall|i: int, j: int| 0 <= i < j < result.len() implies !action_before(
            result[j],
            result[i],
        ) by {
            if i == 0 {
                let x = tail[j - 1];
                assert(tail.to_multiset().contains(x));
                assert(rest.to_multiset().insert(action).contains(x));
                if x != action {
                    assert(rest.to_multiset().contains(x));
                    assert(rest.contains(x));
                    let k = choose|k: int| 0 <= k < rest.len() && rest[k] == x;
                    assert(actions[k + 1] == x);
                }
            } else {
                assert(result[i] == tail[i - 1]);
                assert(result[j] == tail[j - 1]);
            }
        }
        assert(result.to_multiset() =~= actions.to_multiset().insert(action));
    }
}

/// The sorted actions are in order and are the same actions.
pub proof fn lemma_sorted_actions(actions: Seq<ActionView>)
    ensures
        is_sorted(sorted_actions(actions)),
        sorted_actions(actions).to_multiset() == actions.to_multiset(),
        sorted_actions(actions).len() == actions.len(),
    decreases actions.len(),
{
    broadcast use vstd::seq_lib::group_to_multiset_ensures;

    if actions.len() > 0 {
        lemma_sorted_actions(actions.drop_last());
        lemma_sorted_insert(sorted_actions(actions.drop_last()), actions.last());
        assert(actions =~= actions.drop_last().push(actions.last()));
    }
}

fn comes_before(a: &RecordFileAction, b: &RecordFileAction) -> (r: bool)
    ensures
        r == action_before(a@, b@),
{
    let a_source = to_chars(a.source.as_str());
    let b_source = to_chars(b.source.as_str());
    if precedes(&a_source, &b_source) {
        return true;
    }
    if a.source == b.source {
        let a_target = to_chars(a.target.as_str());
        let b_target = to_chars(b.target.as_str());
        precedes(&a_target, &b_target)
    } else {
        false
    }
}

impl RecordManager {
    /// Puts the actions in order: by source, then by target.
    pub fn sort_actions(actions: &mut Vec<RecordFileAction>)
        ensures
            action_views(final(actions)@) == sorted_actions(action_views(old(actions)@)),
            is_sorted(action_views(final(actions)@)),
            action_views(final(actions)@).to_multiset() == action_views(old(actions)@).to_multiset(),
    {
        let ghost all = action_views(actions@);
        let mut sorted: Vec<RecordFileAction> = Vec::new();
        let mut i: usize = 0;
        proof {
            assert(all.take(0) =~= Seq::<ActionView>::empty());
            assert(action_views(sorted@) =~= sorted_actions(all.take(0)));
        }
        while i < actions.len()
            invariant
                i <= actions.len(),
                *actions == *old(actions),
                all == action_views(actions@),
                action_views(sorted@) == sorted_actions(all.take(i as int)),
            decreases actions.len() - i,
        {
            let action = actions[i].clone();
            let ghost before = action_views(sorted@);
            let mut at: usize = 0;
            let mut placed = false;
            while at < sorted.len() && !placed
                invariant
                    at <= sorted.len(),
                    before == action_views(sorted@),
                    forall|j: int| 0 <= j < at ==> !action_before(action@, before[j]),
                    placed ==> at < sorted.len() && action_before(action@, before[at as int]),
                decreases sorted.len() - at, if placed { 0int } else { 1int },
            {
                assert(before[at as int] == sorted@[at as int]@);
                if comes_before(&action, &sorted[at]) {
                    placed = true;
                } else {
                    at += 1;
                }
            }
            proof {
                lemma_sorted_insert_at(before, action@, at as int);
                assert(all.take(i + 1).drop_last() =~= all.take(i as int));
                assert(all.take(i + 1).last() == action@);
            }
            sorted.insert(at, action);
            proof {
                assert(action_views(sorted@) =~= before.insert(at as int, action@));
            }
            i += 1;
        }
        proof {
            assert(all.take(actions.len() as int) =~= all);
            lemma_sorted_actions(all);
        }
        *actions = sorted;
    }
}

} // verus!
