//! A result of named columns, and the rows of it that pass predicates. The values
//! are the caller's, and so is their order: the comparisons come in made.

use vstd::prelude::*;
use vstd::string::*;
use crate::infer::{keep_values, masked};
use crate::json::JsonValue;
use crate::text::same_text;

verus! {

/// What stands under a name: one value for each row, or a value for all.
#[derive(Debug, PartialEq)]
pub enum Shown {
    List(Vec<JsonValue>),
    Single(JsonValue),
}

/// How a row's value compares with the target of a predicate.
#[derive(Debug, Clone, Copy, PartialEq, Eq, Structural)]
pub enum Compared {
    Less,
    Equal,
    Greater,
    /// The two cannot be compared.
    Never,
}

/// A predicate on a column, with the comparison of each row's value.
pub struct ShownPredicate {
    pub column: String,
    pub op: String,
    pub compared: Vec<Compared>,
}

/// What an operator asks of a comparison; nothing where it is not known.
pub open spec fn asked(op: Seq<char>, c: Compared) -> Option<bool> {
    if op == "="@ || op == "=="@ {
        Some(c is Equal)
    } else if op == "!="@ {
        Some(!(c is Equal))
    } else if op == "<"@ {
        Some(c is Less)
    } else if op == "<="@ {
        Some(c is Less || c is Equal)
    } else if op == ">"@ {
        Some(c is Greater)
    } else if op == ">="@ {
        Some(c is Greater || c is Equal)
    } else {
        None
    }
}

/// How many rows there are: as many as the first list has values.
pub open spec fn shown_rows(columns: Seq<(String, Shown)>) -> Option<nat>
    decreases columns.len(),
{
    if columns.len() == 0 {
        None
    } else {
        match shown_rows(columns.drop_last()) {
            Some(n) => Some(n),
            None => match columns.last().1 {
                Shown::List(l) => Some(l@.len()),
                Shown::Single(_) => None,
            },
        }
    }
}

/// No list has fewer values than there are rows.
pub open spec fn lists_reach(columns: Seq<(String, Shown)>) -> bool {
    forall|c: int|
        0 <= c < columns.len() ==> ((#[trigger] columns[c]).1 matches Shown::List(l) ==> l@.len()
            >= shown_rows(columns)->0)
}

/// There is a column of the name, and the first such has a value for each row.
pub open spec fn is_listed(columns: Seq<(String, Shown)>, name: Seq<char>) -> bool
    decreases columns.len(),
{
    if columns.len() == 0 {
        false
    } else if has_name(columns.drop_last(), name) {
        is_listed(columns.drop_last(), name)
    } else {
        columns.last().0@ == name && columns.last().1 is List
    }
}

pub open spec fn has_name(columns: Seq<(String, Shown)>, name: Seq<char>) -> bool {
    exists|i: int| 0 <= i < columns.len() && (#[trigger] columns[i]).0@ == name
}

/// Row `i` passes a predicate. One on no list, and an operator that is not known,
/// let all pass.
pub open spec fn passes(columns: Seq<(String, Shown)>, p: ShownPredicate, i: int) -> bool {
    is_listed(columns, p.column@) ==> asked(p.op@, p.compared@[i]) != Some(false)
}

/// Row `i` passes the first `n` predicates.
pub open spec fn passes_all(columns: Seq<(String, Shown)>, preds: Seq<ShownPredicate>, n: int, i: int) -> bool {
    forall|p: int| 0 <= p < n ==> passes(columns, #[trigger] preds[p], i)
}

/// Predicate `p` has to compare a value of row `i` that cannot be.
pub open spec fn stuck(columns: Seq<(String, Shown)>, preds: Seq<ShownPredicate>, p: int, i: int) -> bool {
    &&& is_listed(columns, preds[p].column@)
    &&& passes_all(columns, preds, p, i)
    &&& asked(preds[p].op@, Compared::Never) is Some
    &&& preds[p].compared@[i] is Never
}

/// Which rows pass all predicates.
pub open spec fn passing(columns: Seq<(String, Shown)>, preds: Seq<ShownPredicate>, rows: nat) -> Seq<bool> {
    Seq::new(rows, |i: int| passes_all(columns, preds, preds.len() as int, i))
}

/// A result is another without the rows that a mask leaves out.
pub open spec fn narrowed(before: Seq<(String, Shown)>, after: Seq<(String, Shown)>, mask: Seq<bool>) -> bool {
    &&& after.len() == before.len()
    &&& forall|c: int|
        0 <= c < before.len() ==> (#[trigger] after[c]).0@ == before[c].0@ && match (before[c].1, after[c].1) {
            (Shown::List(a), Shown::List(b)) => b@ == masked(a@, mask),
            (Shown::Single(a), Shown::Single(b)) => a == b,
            _ => false,
        }
}

fn count_rows(columns: &Vec<(String, Shown)>) -> (r: Option<usize>)
    ensures
        match r {
            Some(n) => shown_rows(columns@) == Some(n as nat),
            None => shown_rows(columns@) is None,
        },
{
    let mut i: usize = 0;
    let mut found: Option<usize> = None;
    proof {
        assert(columns@.take(0) =~= Seq::<(String, Shown)>::empty());
    }
    while i < columns.len()
        invariant
            i <= columns@.len(),
            match found {
                Some(n) => shown_rows(columns@.take(i as int)) == Some(n as nat),
                None => shown_rows(columns@.take(i as int)) is None,
            },
        decreases columns@.len() - i,
    {
        proof {
            assert(columns@.take(i as int + 1).drop_last() =~= columns@.take(i as int));
            assert(columns@.take(i as int + 1).last() == columns@[i as int]);
        }
        if found.is_none() {
            if let Shown::List(l) = &columns[i].1 {
                found = Some(l.len());
            }
        }
        i = i + 1;
    }
    proof {
        assert(columns@.take(i as int) =~= columns@);
    }
    found
}

fn find_list(columns: &Vec<(String, Shown)>, name: &str) -> (r: bool)
    ensures
        r == is_listed(columns@, name@),
{
    let mut i: usize = 0;
    proof {
        assert(columns@.take(0) =~= Seq::<(String, Shown)>::empty());
    }
    while i < columns.len()
        invariant
            i <= columns@.len(),
            !has_name(columns@.take(i as int), name@),
            !is_listed(columns@.take(i as int), name@),
        decreases columns@.len() - i,
    {
        proof {
            assert(columns@.take(i as int + 1).drop_last() =~= columns@.take(i as int));
            assert(columns@.take(i as int + 1).last() == columns@[i as int]);
        }
        if same_text(&columns[i].0, name) {
            let listed: bool = match &columns[i].1 {
                Shown::List(_) => true,
                Shown::Single(_) => false,
            };
            proof {
                assert(columns@.take(i as int + 1)[i as int].0@ == name@);
                assert(has_name(columns@.take(i as int + 1), name@));
                lemma_listed_stays(columns@, name@, i as int + 1);
            }
            return listed;
        }
        proof {
            assert forall|k: int| 0 <= k < i + 1 implies (#[trigger] columns@.take(i as int + 1)[k]).0@
                != name@ by {
                if k < i {
                    assert(columns@.take(i as int + 1)[k] == columns@.take(i as int)[k]);
                }
            }
        }
        i = i + 1;
    }
    proof {
        assert(columns@.take(i as int) =~= columns@);
    }
    false
}

proof fn lemma_listed_stays(columns: Seq<(String, Shown)>, name: Seq<char>, n: int)
    requires
        0 <= n <= columns.len(),
        has_name(columns.take(n), name),
    ensures
        is_listed(columns, name) == is_listed(columns.take(n), name),
    decreases columns.len() - n,
{
    if n < columns.len() {
        let next = columns.take(n + 1);
        assert(next.drop_last() =~= columns.take(n));
        let k = choose|k: int| 0 <= k < n && (#[trigger] columns.take(n)[k]).0@ == name;
        assert(next[k] == columns.take(n)[k]);
        lemma_listed_stays(columns, name, n + 1);
    } else {
        assert(columns.take(n) =~= columns);
    }
}

fn test_op(op: &str, c: Compared) -> (r: Option<bool>)
    ensures
        r == asked(op@, c),
{
    if same_text(op, "=") || same_text(op, "==") {
        Some(c == Compared::Equal)
    } else if same_text(op, "!=") {
        Some(c != Compared::Equal)
    } else if same_text(op, "<") {
        Some(c == Compared::Less)
    } else if same_text(op, "<=") {
        Some(c == Compared::Less || c == Compared::Equal)
    } else if same_text(op, ">") {
        Some(c == Compared::Greater)
    } else if same_text(op, ">=") {
        Some(c == Compared::Greater || c == Compared::Equal)
    } else {
        None
    }
}

/// Keeps the rows of a result that pass all predicates. Nothing comes where a
/// value that has to be compared cannot be.
pub fn apply_predicates(columns: Vec<(String, Shown)>, preds: &Vec<ShownPredicate>) -> (r: Option<
    Vec<(String, Shown)>,
>)
    requires
        lists_reach(columns@),
        forall|p: int|
            0 <= p < preds@.len() ==> (shown_rows(columns@) matches Some(n) ==> (
            #[trigger] preds@[p]).compared@.len() >= n),
    ensures
        preds@.len() == 0 || shown_rows(columns@) is None ==> r == Some(columns),
        preds@.len() > 0 && shown_rows(columns@) is Some ==> match r {
            Some(after) => {
                &&& narrowed(columns@, after@, passing(columns@, preds@, shown_rows(columns@)->0))
                &&& forall|p: int, i: int|
                    0 <= p < preds@.len() && 0 <= i < shown_rows(columns@)->0 ==> !#[trigger] stuck(
                        columns@,
                        preds@,
                        p,
                        i,
                    )
            },
            None => exists|p: int, i: int|
                0 <= p < preds@.len() && 0 <= i < shown_rows(columns@)->0 && #[trigger] stuck(
                    columns@,
                    preds@,
                    p,
                    i,
                ),
        },
{
    if preds.len() == 0 {
        return Some(columns);
    }
    let n: usize = match count_rows(&columns) {
        Some(n) => n,
        None => {
            return Some(columns);
        },
    };
    let ghost all = columns@;
    let total: usize = columns.len();
    let mut mask: Vec<bool> = Vec::new();
    let mut k: usize = 0;
    while k < n
        invariant
            k <= n,
            mask@ == passing(all, preds@.take(0), k as nat),
        decreases n - k,
    {
        mask.push(true);
        proof {
            assert(passes_all(all, preds@.take(0), 0, k as int));
            assert(mask@ =~= passing(all, preds@.take(0), k as nat + 1));
        }
        k = k + 1;
    }
    let mut p: usize = 0;
    proof {
        assert forall|i: int| 0 <= i < n implies mask@[i] == passes_all(all, preds@, 0, i) by {
            assert(passes_all(all, preds@.take(0), 0, i));
        }
    }
    while p < preds.len()
        invariant
            p <= preds@.len(),
            columns@ == all,
            preds@.len() > 0,
            shown_rows(all) == Some(n as nat),
            forall|q: int| 0 <= q < preds@.len() ==> (#[trigger] preds@[q]).compared@.len() >= n,
            mask@.len() == n,
            forall|i: int| 0 <= i < n ==> #[trigger] mask@[i] == passes_all(all, preds@, p as int, i),
            forall|q: int, i: int|
                0 <= q < p && 0 <= i < n ==> !#[trigger] stuck(all, preds@, q, i),
        decreases preds@.len() - p,
    {
        let pred = &preds[p];
        let listed = find_list(&columns, &pred.column);
        let known = test_op(&pred.op, Compared::Never).is_some();
        let mut i: usize = 0;
        while i < n
            invariant
                i <= n,
                p < preds@.len(),
                preds@.len() > 0,
                columns@ == all,
                *pred == preds@[p as int],
                listed == is_listed(all, pred.column@),
                known == asked(pred.op@, Compared::Never) is Some,
                shown_rows(all) == Some(n as nat),
                pred.compared@.len() >= n,
                mask@.len() == n,
                forall|j: int|
                    0 <= j < n ==> #[trigger] mask@[j] == passes_all(
                        all,
                        preds@,
                        if j < i {
                            p + 1
                        } else {
                            p as int
                        },
                        j,
                    ),
                forall|q: int, j: int|
                    0 <= q < p && 0 <= j < n ==> !#[trigger] stuck(all, preds@, q, j),
                forall|j: int| 0 <= j < i ==> !#[trigger] stuck(all, preds@, p as int, j),
            decreases n - i,
        {
            let before: bool = mask[i];
            if before && listed {
                let c = pred.compared[i];
                if known && c == Compared::Never {
                    proof {
                        assert(stuck(all, preds@, p as int, i as int));
                    }
                    return None;
                }
                if let Some(false) = test_op(&pred.op, c) {
                    mask.set(i, false);
                }
            }
            proof {
                assert(mask@[i as int] == (before && passes(all, preds@[p as int], i as int)));
                if before {
                    assert(passes_all(all, preds@, p as int, i as int));
                }
                if before && passes(all, preds@[p as int], i as int) {
                    assert(passes_all(all, preds@, p + 1, i as int));
                } else if before {
                    assert(!passes_all(all, preds@, p + 1, i as int));
                } else {
                    let q = choose|q: int| 0 <= q < p && !passes(all, #[trigger] preds@[q], i as int);
                    assert(!passes(all, preds@[q], i as int));
                    assert(!passes_all(all, preds@, p + 1, i as int));
                }
            }
            i = i + 1;
        }
        p = p + 1;
    }
    proof {
        assert(mask@ =~= passing(all, preds@, n as nat));
    }
    let mut out: Vec<(String, Shown)> = Vec::new();
    let mut c: usize = 0;
    for column in it: columns
        invariant
            it.seq() == all,
            c == it.index(),
            c <= all.len(),
            all.len() == total,
            out@.len() == c,
            narrowed(all.take(c as int), out@, mask@),
    {
        let ghost before = out@;
        let (name, shown) = column;
        let kept = match shown {
            Shown::List(l) => Shown::List(keep_values(l, mask.as_slice())),
            Shown::Single(v) => Shown::Single(v),
        };
        out.push((name, kept));
        proof {
            assert forall|d: int| 0 <= d < c + 1 implies (#[trigger] out@[d]).0@ == all[d].0@ && match (
                all[d].1,
                out@[d].1,
            ) {
                (Shown::List(a), Shown::List(b)) => b@ == masked(a@, mask@),
                (Shown::Single(a), Shown::Single(b)) => a == b,
                _ => false,
            } by {
                if d < c {
                    assert(out@[d] == before[d]);
                    assert(all.take(c as int)[d] == all[d]);
                }
            }
            assert(narrowed(all.take(c as int + 1), out@, mask@));
        }
        c = c + 1;
    }
    proof {
        assert(all.take(all.len() as int) =~= all);
    }
    Some(out)
}

} // verus!
