//! The flat table of captured spans and its resolution into the nested
//! tree: spans refer to their nested spans by id, and resolving a span
//! takes it and everything nested in it out of the table.

use vstd::prelude::*;
use crate::trace::{Action, ActionView, ReadSpan, SpanView, TreeSpan};

verus! {

/// The flat table of captured spans: entry `id` is the span with that id,
/// or `None` once the span has been taken out.
pub type SpanTable = Seq<Option<ReadSpan<u64>>>;

/// Number of spans that `table` still holds.
pub open spec fn present(table: SpanTable) -> nat
    decreases table.len(),
{
    if table.len() == 0 {
        0
    } else {
        present(table.drop_last()) + if table.last() is Some {
            1nat
        } else {
            0nat
        }
    }
}

/// `table` holds a span under `id`.
pub open spec fn holds(table: SpanTable, id: int) -> bool {
    0 <= id < table.len() && table[id] is Some
}

/// Taking a span out of a table leaves one span fewer.
pub proof fn lemma_present_taken(table: SpanTable, id: int)
    requires
        holds(table, id),
    ensures
        present(table.update(id, None)) + 1 == present(table),
    decreases table.len(),
{
    let taken = table.update(id, None);
    if id == table.len() - 1 {
        assert(taken.drop_last() =~= table.drop_last());
    } else {
        lemma_present_taken(table.drop_last(), id);
        assert(taken.drop_last() =~= table.drop_last().update(id, None));
    }
}

/// The span under `id` resolved into a tree, and the table that is left.
/// The span is taken out of the table, then its actions are resolved in
/// order against what is left. Where `id` or an id met on the way is not
/// in the table (any more), there is no tree.
pub open spec fn resolve(table: SpanTable, id: int) -> (Option<SpanView>, SpanTable)
    decreases present(table), 0nat,
{
    if holds(table, id) {
        let span = table[id]->0;
        let rest = table.update(id, None);
        proof {
            lemma_present_taken(table, id);
        }
        let (actions, left) = resolve_all(rest, span.actions@);
        (
            match actions {
                Some(actions) => Some(SpanView { name: span.name@, actions }),
                None => None,
            },
            left,
        )
    } else {
        (None, table)
    }
}

/// The actions of a span resolved in order, each against the table that
/// the one before it left, and the table that is left at the end or where
/// an id was not found. (An action never leaves more spans in the table
/// than it found there; the definition asks as much only to be seen to
/// end.)
pub open spec fn resolve_all(table: SpanTable, actions: Seq<Action<u64>>) -> (
    Option<Seq<ActionView>>,
    SpanTable,
)
    decreases present(table), actions.len() + 2,
{
    if actions.len() == 0 {
        (Some(Seq::empty()), table)
    } else {
        let (first, mid) = resolve_one(table, actions[0]);
        if first is Some && present(mid) <= present(table) {
            let (others, left) = resolve_all(mid, actions.drop_first());
            (
                match others {
                    Some(others) => Some(seq![first->0] + others),
                    None => None,
                },
                left,
            )
        } else {
            (None, mid)
        }
    }
}

/// One action resolved: a read or a seek as it is, a nested span by
/// resolving its id.
pub open spec fn resolve_one(table: SpanTable, action: Action<u64>) -> (
    Option<ActionView>,
    SpanTable,
)
    decreases present(table), 1nat,
{
    match action {
        Action::Read(n) => (Some(ActionView::Read(n as nat)), table),
        Action::Seek(to) => (Some(ActionView::Seek(to as nat)), table),
        Action::Span(id) => {
            let (span, left) = resolve(table, id as int);
            (
                match span {
                    Some(span) => Some(ActionView::Span(span)),
                    None => None,
                },
                left,
            )
        },
    }
}

/// `left` is `table` with some of its spans taken out.
pub open spec fn taken_from(left: SpanTable, table: SpanTable) -> bool {
    &&& left.len() == table.len()
    &&& forall|v: int| 0 <= v < table.len() ==> (#[trigger] left[v]) is None || left[v] == table[v]
}

/// A table with spans taken out holds no more spans than before.
pub proof fn lemma_taken_holds_fewer(left: SpanTable, table: SpanTable)
    requires
        taken_from(left, table),
    ensures
        present(left) <= present(table),
    decreases table.len(),
{
    if table.len() > 0 {
        assert(taken_from(left.drop_last(), table.drop_last())) by {
            assert forall|v: int| 0 <= v < table.len() - 1 implies (
            #[trigger] left.drop_last()[v]) is None || left.drop_last()[v]
                == table.drop_last()[v] by {
                assert(left[v] is None || left[v] == table[v]);
            }
        }
        lemma_taken_holds_fewer(left.drop_last(), table.drop_last());
        assert(left.last() == left[left.len() - 1]);
    }
}

/// Resolving a span only takes spans out of the table.
pub proof fn lemma_resolve_takes(table: SpanTable, id: int)
    ensures
        taken_from(resolve(table, id).1, table),
        present(resolve(table, id).1) <= present(table),
    decreases present(table), 0nat,
{
    if holds(table, id) {
        let span = table[id]->0;
        let rest = table.update(id, None);
        lemma_present_taken(table, id);
        lemma_resolve_all_takes(rest, span.actions@);
        let left = resolve_all(rest, span.actions@).1;
        assert(taken_from(left, table)) by {
            assert forall|v: int| 0 <= v < table.len() implies (#[trigger] left[v]) is None
                || left[v] == table[v] by {
                assert(left[v] is None || left[v] == rest[v]);
            }
        }
    }
    lemma_taken_holds_fewer(resolve(table, id).1, table);
}

/// Resolving one action only takes spans out of the table.
pub proof fn lemma_resolve_one_takes(table: SpanTable, action: Action<u64>)
    ensures
        taken_from(resolve_one(table, action).1, table),
        present(resolve_one(table, action).1) <= present(table),
    decreases present(table), 1nat,
{
    match action {
        Action::Span(id) => {
            lemma_resolve_takes(table, id as int);
        },
        _ => {},
    }
}

/// Resolving a list of actions only takes spans out of the table.
pub proof fn lemma_resolve_all_takes(table: SpanTable, actions: Seq<Action<u64>>)
    ensures
        taken_from(resolve_all(table, actions).1, table),
        present(resolve_all(table, actions).1) <= present(table),
    decreases present(table), actions.len() + 2,
{
    if actions.len() > 0 {
        lemma_resolve_one_takes(table, actions[0]);
        let (first, mid) = resolve_one(table, actions[0]);
        if first is Some {
            lemma_resolve_all_takes(mid, actions.drop_first());
            let left = resolve_all(mid, actions.drop_first()).1;
            assert(taken_from(left, table)) by {
                assert forall|v: int| 0 <= v < table.len() implies (#[trigger] left[v]) is None
                    || left[v] == table[v] by {
                    assert(left[v] is None || left[v] == mid[v]);
                    assert(mid[v] is None || mid[v] == table[v]);
                }
            }
        }
    }
    lemma_taken_holds_fewer(resolve_all(table, actions).1, table);
}

/// What resolving the first `count` actions gives, followed by what
/// resolving the others against the table left then gives.
pub open spec fn resolve_from(
    done: Seq<ActionView>,
    table: SpanTable,
    others: Seq<Action<u64>>,
) -> (Option<Seq<ActionView>>, SpanTable) {
    let (rest, left) = resolve_all(table, others);
    (
        match rest {
            Some(rest) => Some(done + rest),
            None => None,
        },
        left,
    )
}

impl TreeSpan {
    /// Resolves the span under `id` into a tree, taking it and every span
    /// nested in it out of `spans`. Every id met on the way must be in the
    /// table when it is met.
    pub fn into_tree(id: u64, spans: &mut Vec<Option<ReadSpan<u64>>>) -> (tree: Self)
        requires
            resolve(old(spans)@, id as int).0 is Some,
        ensures
            tree@ == resolve(old(spans)@, id as int).0->0,
            final(spans)@ == resolve(old(spans)@, id as int).1,
        decreases present(old(spans)@), 0nat,
    {
        let ghost table = spans@;
        proof {
            assert(holds(table, id as int));
        }
        let len = spans.len();
        let at = id as usize;
        spans.push(None);
        let taken = spans.swap_remove(at);
        let ghost rest = spans@;
        proof {
            assert(rest =~= table.update(id as int, None));
            lemma_present_taken(table, id as int);
        }
        let read_span = taken.unwrap();
        let mut actions: Vec<Action<TreeSpan>> = Vec::new();
        let count = read_span.actions.len();
        let mut i: usize = 0;
        proof {
            assert(read_span.actions@.skip(0) =~= read_span.actions@);
            let (all, left) = resolve_all(rest, read_span.actions@);
            assert(crate::trace::views(actions@) + all->0 =~= all->0);
        }
        while i < count
            invariant
                i <= count == read_span.actions.len(),
                table == old(spans)@,
                resolve_all(rest, read_span.actions@).0 is Some,
                present(rest) < present(table),
                present(spans@) <= present(rest),
                actions.len() == i,
                resolve_from(crate::trace::views(actions@), spans@, read_span.actions@.skip(i as int))
                    == resolve_all(rest, read_span.actions@),
            decreases count - i,
        {
            let ghost done = crate::trace::views(actions@);
            let ghost others = read_span.actions@.skip(i as int);
            let ghost before = spans@;
            proof {
                assert(others[0] == read_span.actions@[i as int]);
                assert(others.drop_first() =~= read_span.actions@.skip(i + 1));
                lemma_resolve_one_takes(before, others[0]);
            }
            let action = match &read_span.actions[i] {
                Action::Read(n) => Action::Read(*n),
                Action::Seek(to) => Action::Seek(*to),
                Action::Span(child) => Action::Span(Self::into_tree(*child, spans)),
            };
            actions.push(action);
            proof {
                assert(crate::trace::views(actions@) =~= done + seq![
                    resolve_one(before, others[0]).0->0,
                ]);
                let (tail, left) = resolve_all(spans@, read_span.actions@.skip(i + 1));
                if tail is Some {
                    assert(crate::trace::views(actions@) + tail->0 =~= done + (seq![
                        resolve_one(before, others[0]).0->0,
                    ] + tail->0));
                }
            }
            i = i + 1;
        }
        let tree = TreeSpan { name: read_span.name, actions };
        proof {
            assert(read_span.actions@.skip(count as int) =~= Seq::empty());
            assert(tree@.actions =~= crate::trace::views(actions@));
            assert(crate::trace::views(actions@) + Seq::<ActionView>::empty() =~= crate::trace::views(
                actions@,
            ));
        }
        tree
    }
}

/// Resolving a list with one more action at its end is resolving the list
/// and then the action, against the table that the list left.
pub proof fn lemma_resolve_all_push(table: SpanTable, actions: Seq<Action<u64>>, last: Action<u64>)
    ensures
        resolve_all(table, actions.push(last)) == ({
            let (done, mid) = resolve_all(table, actions);
            if done is Some {
                let (one, left) = resolve_one(mid, last);
                (
                    match one {
                        Some(one) => Some(done->0.push(one)),
                        None => None,
                    },
                    left,
                )
            } else {
                (None, mid)
            }
        }),
    decreases actions.len(),
{
    let longer = actions.push(last);
    reveal_with_fuel(resolve_all, 3);
    if actions.len() == 0 {
        assert(longer.drop_first() =~= Seq::<Action<u64>>::empty());
        lemma_resolve_one_takes(table, last);
        let (one, left) = resolve_one(table, last);
        if one is Some {
            assert(seq![one->0] + Seq::<ActionView>::empty() =~= Seq::<ActionView>::empty().push(
                one->0,
            ));
        }
    } else {
        assert(longer[0] == actions[0]);
        assert(longer.drop_first() =~= actions.drop_first().push(last));
        lemma_resolve_one_takes(table, actions[0]);
        let (first, mid) = resolve_one(table, actions[0]);
        if first is Some {
            lemma_resolve_all_push(mid, actions.drop_first(), last);
            let (others, after) = resolve_all(mid, actions.drop_first());
            if others is Some {
                let (one, left) = resolve_one(after, last);
                if one is Some {
                    assert(seq![first->0] + others->0.push(one->0) =~= (seq![first->0]
                        + others->0).push(one->0));
                }
            }
        }
    }
}

/// `other` as it is left when the spans that resolving took out of `table`
/// (leaving `left`) are taken out of it.
pub open spec fn carried(table: SpanTable, left: SpanTable, other: SpanTable) -> SpanTable {
    Seq::new(
        other.len(),
        |v: int|
            if v < table.len() && table[v] != left[v] {
                None
            } else {
                other[v]
            },
    )
}

/// `other` holds every span that resolving took out of `table`, leaving
/// `left`, as `table` held it; it may differ elsewhere, and be longer.
pub open spec fn agrees_on_taken(table: SpanTable, left: SpanTable, other: SpanTable) -> bool {
    &&& table.len() <= other.len()
    &&& forall|v: int|
        0 <= v < table.len() && table[v] != left[v] ==> #[trigger] other[v] == table[v]
}

/// Resolving a span gives the same tree against any table that holds the
/// spans taken out on the way as this one holds them.
pub proof fn lemma_resolve_elsewhere(table: SpanTable, id: int, other: SpanTable)
    requires
        resolve(table, id).0 is Some,
        agrees_on_taken(table, resolve(table, id).1, other),
    ensures
        resolve(other, id) == (
            resolve(table, id).0,
            carried(table, resolve(table, id).1, other),
        ),
    decreases present(table), 0nat,
{
    let span = table[id]->0;
    let rest = table.update(id, None);
    let (actions, left) = resolve_all(rest, span.actions@);
    lemma_present_taken(table, id);
    lemma_resolve_all_takes(rest, span.actions@);
    assert(left[id] is None);
    assert(table[id] != left[id]);
    assert(other[id] == table[id]);
    let other_rest = other.update(id, None);
    assert(agrees_on_taken(rest, left, other_rest)) by {
        assert forall|v: int| 0 <= v < rest.len() && rest[v] != left[v] implies
            #[trigger] other_rest[v] == rest[v] by {
            assert(left[v] is None || left[v] == rest[v]);
            assert(other[v] == table[v]);
        }
    }
    lemma_resolve_all_elsewhere(rest, span.actions@, other_rest);
    assert(carried(rest, left, other_rest) =~= carried(table, left, other));
}

/// Resolving one action gives the same against any table that holds the
/// spans taken out on the way as this one holds them.
pub proof fn lemma_resolve_one_elsewhere(table: SpanTable, action: Action<u64>, other: SpanTable)
    requires
        resolve_one(table, action).0 is Some,
        agrees_on_taken(table, resolve_one(table, action).1, other),
    ensures
        resolve_one(other, action) == (
            resolve_one(table, action).0,
            carried(table, resolve_one(table, action).1, other),
        ),
    decreases present(table), 1nat,
{
    match action {
        Action::Span(id) => {
            lemma_resolve_elsewhere(table, id as int, other);
        },
        _ => {
            assert(carried(table, table, other) =~= other);
        },
    }
}

/// Resolving a list of actions gives the same against any table that holds
/// the spans taken out on the way as this one holds them.
pub proof fn lemma_resolve_all_elsewhere(
    table: SpanTable,
    actions: Seq<Action<u64>>,
    other: SpanTable,
)
    requires
        resolve_all(table, actions).0 is Some,
        agrees_on_taken(table, resolve_all(table, actions).1, other),
    ensures
        resolve_all(other, actions) == (
            resolve_all(table, actions).0,
            carried(table, resolve_all(table, actions).1, other),
        ),
    decreases present(table), actions.len() + 2,
{
    if actions.len() == 0 {
        assert(carried(table, table, other) =~= other);
    } else {
        let (first, mid) = resolve_one(table, actions[0]);
        lemma_resolve_one_takes(table, actions[0]);
        let (others, left) = resolve_all(mid, actions.drop_first());
        lemma_resolve_all_takes(mid, actions.drop_first());
        assert(agrees_on_taken(table, mid, other)) by {
            assert forall|v: int| 0 <= v < table.len() && table[v] != mid[v] implies
                #[trigger] other[v] == table[v] by {
                assert(mid[v] is None || mid[v] == table[v]);
                assert(left[v] is None || left[v] == mid[v]);
            }
        }
        lemma_resolve_one_elsewhere(table, actions[0], other);
        let other_mid = carried(table, mid, other);
        assert(agrees_on_taken(mid, left, other_mid)) by {
            assert forall|v: int| 0 <= v < mid.len() && mid[v] != left[v] implies
                #[trigger] other_mid[v] == mid[v] by {
                assert(mid[v] is None || mid[v] == table[v]);
                assert(left[v] is None || left[v] == mid[v]);
                assert(other[v] == table[v]);
            }
        }
        lemma_resolve_all_elsewhere(mid, actions.drop_first(), other_mid);
        lemma_resolve_one_takes(other, actions[0]);
        assert(carried(mid, left, other_mid) =~= carried(table, left, other)) by {
            assert forall|v: int| 0 <= v < other.len() implies carried(mid, left, other_mid)[v]
                == carried(table, left, other)[v] by {
                if v < table.len() {
                    assert(mid[v] is None || mid[v] == table[v]);
                    assert(left[v] is None || left[v] == mid[v]);
                }
            }
        }
    }
}

} // verus!
