//! Row-level policies: each tenant writes and reads its own rows.

use vstd::prelude::*;
use vstd::string::*;
use crate::infer::{typed_len, typed_views};
use crate::json::{copy_json, json_views, member, Json, JsonValue};
use crate::merge_text::opt_str;
use crate::text::{copy_text, same_text, text_views};
use crate::typed::{TypedColumn, TypedView};

verus! {

/// Which tenant a collection is restricted to.
pub struct RlsPolicies {
    entries: Vec<(String, String)>,
}

/// Where a collection first stands in a list.
pub open spec fn policy_at(entries: Seq<(Seq<char>, Seq<char>)>, name: Seq<char>) -> Option<int>
    decreases entries.len(),
{
    if entries.len() == 0 {
        None
    } else if entries[0].0 == name {
        Some(0)
    } else {
        match policy_at(entries.drop_first(), name) {
            Some(i) => Some(i + 1),
            None => None,
        }
    }
}

pub open spec fn policy_of(entries: Seq<(Seq<char>, Seq<char>)>, name: Seq<char>) -> Option<Seq<char>> {
    match policy_at(entries, name) {
        Some(i) => Some(entries[i].1),
        None => None,
    }
}

proof fn lemma_policy_at(entries: Seq<(Seq<char>, Seq<char>)>, name: Seq<char>)
    ensures
        match policy_at(entries, name) {
            Some(i) => 0 <= i < entries.len() && entries[i].0 == name && forall|j: int|
                0 <= j < i ==> (#[trigger] entries[j]).0 != name,
            None => forall|j: int| 0 <= j < entries.len() ==> (#[trigger] entries[j]).0 != name,
        },
    decreases entries.len(),
{
    if entries.len() > 0 && entries[0].0 != name {
        let t = entries.drop_first();
        lemma_policy_at(t, name);
        match policy_at(t, name) {
            Some(i) => {
                assert(t[i] == entries[i + 1]);
                assert forall|j: int| 0 <= j < i + 1 implies (#[trigger] entries[j]).0 != name by {
                    if j > 0 {
                        assert(t[j - 1] == entries[j]);
                    }
                }
            },
            None => {
                assert forall|j: int| 0 <= j < entries.len() implies (#[trigger] entries[j]).0 != name by {
                    if j > 0 {
                        assert(t[j - 1] == entries[j]);
                    }
                }
            },
        }
    }
}

impl RlsPolicies {
    closed spec fn pairs(&self) -> Seq<(Seq<char>, Seq<char>)> {
        Seq::new(self.entries@.len(), |i: int| (self.entries@[i].0@, self.entries@[i].1@))
    }

    /// No collection stands twice.
    pub closed spec fn wf(&self) -> bool {
        forall|i: int, j: int|
            0 <= i < self.pairs().len() && 0 <= j < self.pairs().len() && i != j ==> (
            #[trigger] self.pairs()[i]).0 != (#[trigger] self.pairs()[j]).0
    }

    /// The tenant that a collection is restricted to.
    pub closed spec fn tenant(&self, collection: Seq<char>) -> Option<Seq<char>> {
        policy_of(self.pairs(), collection)
    }

    pub fn new() -> (r: RlsPolicies)
        ensures
            r.wf(),
            forall|c: Seq<char>| #[trigger] r.tenant(c) is None,
    {
        RlsPolicies { entries: Vec::new() }
    }

    fn find(&self, collection: &str) -> (r: Option<usize>)
        ensures
            match r {
                Some(i) => policy_at(self.pairs(), collection@) == Some(i as int) && i
                    < self.entries@.len(),
                None => policy_at(self.pairs(), collection@) is None,
            },
    {
        let mut i: usize = 0;
        while i < self.entries.len()
            invariant
                i <= self.entries@.len(),
                forall|j: int| 0 <= j < i ==> (#[trigger] self.pairs()[j]).0 != collection@,
            decreases self.entries@.len() - i,
        {
            if same_text(&self.entries[i].0, collection) {
                proof {
                    assert(self.pairs()[i as int].0 == collection@);
                    lemma_policy_at(self.pairs(), collection@);
                }
                return Some(i);
            }
            proof {
                assert(self.pairs()[i as int].0 != collection@);
            }
            i = i + 1;
        }
        proof {
            lemma_policy_at(self.pairs(), collection@);
        }
        None
    }

    /// Restricts a collection to a tenant.
    pub fn set_rls_policy(&mut self, collection: &str, tenant_id: &str)
        requires
            old(self).wf(),
        ensures
            final(self).wf(),
            final(self).tenant(collection@) == Some(tenant_id@),
            forall|c: Seq<char>|
                c != collection@ ==> #[trigger] final(self).tenant(c) == old(self).tenant(c),
    {
        let ghost before = self.pairs();
        let found = self.find(collection);
        proof {
            lemma_policy_at(before, collection@);
        }
        match found {
            Some(i) => {
                self.entries[i] = (copy_text(collection), copy_text(tenant_id));
                proof {
                    assert(self.pairs() =~= before.update(i as int, (collection@, tenant_id@)));
                }
            },
            None => {
                self.entries.push((copy_text(collection), copy_text(tenant_id)));
                proof {
                    assert(self.pairs() =~= before.push((collection@, tenant_id@)));
                    assert(self.pairs()[before.len() as int].0 == collection@);
                }
            },
        }
        proof {
            let after = self.pairs();
            lemma_policy_at(after, collection@);
            let place = match found {
                Some(i) => i as int,
                None => before.len() as int,
            };
            assert(after[place] == (collection@, tenant_id@));
            assert forall|j: int| 0 <= j < place implies (#[trigger] after[j]).0 != collection@ by {
                assert(after[j] == before[j]);
            }
            assert(policy_at(after, collection@) == Some(place));
            assert forall|c: Seq<char>| c != collection@ implies #[trigger] self.tenant(c) == policy_of(
                before,
                c,
            ) by {
                lemma_policy_at(before, c);
                lemma_policy_at(after, c);
                match policy_at(before, c) {
                    Some(j) => {
                        assert(after[j] == before[j]);
                    },
                    None => {
                        if policy_at(after, c) is Some {
                            let j = policy_at(after, c)->0;
                            assert(j < before.len() ==> after[j] == before[j] || after[j].0
                                == collection@);
                        }
                    },
                }
            }
        }
    }

    /// The tenant that a collection is restricted to, if any.
    pub fn get_rls_policy(&self, collection: &str) -> (r: Option<String>)
        ensures
            match r {
                Some(t) => self.tenant(collection@) == Some(t@),
                None => self.tenant(collection@) is None,
            },
    {
        match self.find(collection) {
            Some(i) => Some(copy_text(&self.entries[i].1)),
            None => None,
        }
    }

    /// Lifts the restriction; tells whether there was one.
    pub fn clear_rls_policy(&mut self, collection: &str) -> (r: bool)
        requires
            old(self).wf(),
        ensures
            final(self).wf(),
            r == (old(self).tenant(collection@) is Some),
            final(self).tenant(collection@) is None,
            forall|c: Seq<char>|
                c != collection@ ==> #[trigger] final(self).tenant(c) == old(self).tenant(c),
    {
        let ghost before = self.pairs();
        let found = self.find(collection);
        proof {
            lemma_policy_at(before, collection@);
        }
        match found {
            Some(i) => {
                let _gone = self.entries.remove(i);
                proof {
                    let after = self.pairs();
                    assert(after =~= before.remove(i as int));
                    lemma_policy_at(after, collection@);
                    assert forall|j: int| 0 <= j < after.len() implies (#[trigger] after[j]).0
                        != collection@ by {
                        let k = if j < i {
                            j
                        } else {
                            j + 1
                        };
                        assert(after[j] == before[k]);
                        assert(before[k].0 != before[i as int].0);
                    }
                    assert(self.wf()) by {
                        assert forall|a: int, b: int|
                            0 <= a < after.len() && 0 <= b < after.len() && a != b implies (
                        #[trigger] after[a]).0 != (#[trigger] after[b]).0 by {
                            let x = if a < i {
                                a
                            } else {
                                a + 1
                            };
                            let y = if b < i {
                                b
                            } else {
                                b + 1
                            };
                            assert(before[x].0 != before[y].0);
                        }
                    }
                    assert forall|c: Seq<char>| c != collection@ implies #[trigger] self.tenant(c)
                        == policy_of(before, c) by {
                        lemma_policy_at(before, c);
                        lemma_policy_at(after, c);
                        match policy_at(before, c) {
                            Some(j) => {
                                let k = if j < i {
                                    j
                                } else {
                                    j - 1
                                };
                                assert(after[k] == before[j]);
                                let m = policy_at(after, c)->0;
                                let y = if m < i {
                                    m
                                } else {
                                    m + 1
                                };
                                assert(after[m] == before[y]);
                                if y != j {
                                    assert(before[y].0 != before[j].0);
                                }
                            },
                            None => {
                                if policy_at(after, c) is Some {
                                    let m = policy_at(after, c)->0;
                                    let y = if m < i {
                                        m
                                    } else {
                                        m + 1
                                    };
                                    assert(after[m] == before[y]);
                                }
                            },
                        }
                    }
                }
                true
            },
            None => false,
        }
    }
}

/// The columns have one that names the tenant.
pub open spec fn names_tenant(cols: Seq<(Seq<char>, TypedView)>) -> bool {
    exists|i: int| 0 <= i < cols.len() && (#[trigger] cols[i]).0 == "_tenant"@
}

/// The columns to write under a policy: with the tenant in every row, unless
/// the columns name tenants themselves or there are no rows.
pub open spec fn tenanted(cols: Seq<(Seq<char>, TypedView)>, tenant: Option<Seq<char>>) -> Seq<
    (Seq<char>, TypedView),
> {
    let n = if cols.len() > 0 {
        typed_len(cols[0].1)
    } else {
        0
    };
    match tenant {
        Some(t) => if !names_tenant(cols) && n > 0 {
            cols.push(("_tenant"@, TypedView::String(Seq::new(n, |i: int| t))))
        } else {
            cols
        },
        None => cols,
    }
}

/// Adds the tenant to the columns to write.
pub fn add_tenant_column(cols: &mut Vec<(String, TypedColumn)>, tenant: Option<&str>)
    ensures
        typed_views(final(cols)@) == tenanted(typed_views(old(cols)@), opt_str(tenant)),
{
    let ghost all = typed_views(cols@);
    let t = match tenant {
        Some(t) => t,
        None => {
            return ;
        },
    };
    let mut i: usize = 0;
    while i < cols.len()
        invariant
            i <= cols@.len(),
            *cols == *old(cols),
            all == typed_views(cols@),
            forall|k: int| 0 <= k < i ==> (#[trigger] all[k]).0 != "_tenant"@,
        decreases cols@.len() - i,
    {
        if same_text(&cols[i].0, "_tenant") {
            proof {
                assert(all[i as int].0 == "_tenant"@);
            }
            return ;
        }
        proof {
            assert(all[i as int].0 != "_tenant"@);
        }
        i = i + 1;
    }
    if cols.len() == 0 {
        return ;
    }
    let n: usize = cols[0].1.len();
    proof {
        assert(all[0] == (cols@[0].0@, cols@[0].1@));
        assert(n == typed_len(all[0].1));
    }
    if n == 0 {
        return ;
    }
    let mut vals: Vec<String> = Vec::new();
    let ghost want = Seq::new(n as nat, |i: int| t@);
    while vals.len() < n
        invariant
            vals@.len() <= n,
            want == Seq::new(n as nat, |i: int| t@),
            text_views(vals@) =~= want.take(vals@.len() as int),
        decreases n - vals@.len(),
    {
        let ghost before = text_views(vals@);
        vals.push(copy_text(t));
        proof {
            assert(text_views(vals@) =~= before.push(t@));
        }
    }
    proof {
        assert(want.take(n as int) =~= want);
    }
    let col = TypedColumn::String(vals);
    let name = "_tenant".to_owned();
    let ghost c = (name@, col@);
    cols.push((name, col));
    proof {
        assert(typed_views(cols@) =~= all.push(c));
    }
}

/// Whether a row belongs to a tenant.
pub open spec fn belongs(row: Json, tenant: Seq<char>) -> bool {
    member(row, "_tenant"@) == Some(Json::String(tenant))
}

/// The rows that a policy lets through, in their order.
pub open spec fn visible_rows(rows: Seq<Json>, tenant: Option<Seq<char>>) -> Seq<Json>
    decreases rows.len(),
{
    match tenant {
        None => rows,
        Some(t) => if rows.len() == 0 {
            Seq::empty()
        } else {
            let prev = visible_rows(rows.drop_last(), tenant);
            if belongs(rows.last(), t) {
                prev.push(rows.last())
            } else {
                prev
            }
        },
    }
}

/// Keeps the rows that a policy lets through.
pub fn tenant_rows(rows: &[JsonValue], tenant: Option<&str>) -> (r: Vec<JsonValue>)
    ensures
        json_views(r@) == visible_rows(json_views(rows@), opt_str(tenant)),
{
    let ghost all = json_views(rows@);
    let ghost tv = opt_str(tenant);
    let mut out: Vec<JsonValue> = Vec::new();
    let mut i: usize = 0;
    proof {
        assert(all.take(0) =~= Seq::<Json>::empty());
        assert(json_views(out@) =~= Seq::<Json>::empty());
    }
    while i < rows.len()
        invariant
            i <= rows@.len(),
            all == json_views(rows@),
            tv == opt_str(tenant),
            json_views(out@) == visible_rows(all.take(i as int), tv),
        decreases rows@.len() - i,
    {
        proof {
            assert(all.take(i as int + 1).drop_last() =~= all.take(i as int));
            assert(all.take(i as int + 1).last() == rows@[i as int]@);
            assert(all.take(i as int + 1) =~= all.take(i as int).push(rows@[i as int]@));
        }
        let keep: bool = match tenant {
            None => true,
            Some(t) => match rows[i].get("_tenant") {
                Some(JsonValue::String(s)) => same_text(s, t),
                _ => false,
            },
        };
        if keep {
            let ghost before = json_views(out@);
            out.push(copy_json(&rows[i]));
            proof {
                assert(json_views(out@) =~= before.push(rows@[i as int]@));
            }
        }
        i = i + 1;
    }
    proof {
        assert(all.take(i as int) =~= all);
    }
    out
}

/// Under a policy only the tenant's own rows are read.
pub proof fn only_own_rows(rows: Seq<Json>, tenant: Seq<char>, i: int)
    requires
        0 <= i < visible_rows(rows, Some(tenant)).len(),
    ensures
        belongs(visible_rows(rows, Some(tenant))[i], tenant),
    decreases rows.len(),
{
    if rows.len() > 0 {
        let prev = visible_rows(rows.drop_last(), Some(tenant));
        if i < prev.len() {
            only_own_rows(rows.drop_last(), tenant, i);
        }
    }
}

/// Every row of the tenant is read.
pub proof fn every_own_row(rows: Seq<Json>, tenant: Seq<char>, i: int)
    requires
        0 <= i < rows.len(),
        belongs(rows[i], tenant),
    ensures
        visible_rows(rows, Some(tenant)).contains(rows[i]),
    decreases rows.len(),
{
    let t = rows.drop_last();
    let prev = visible_rows(t, Some(tenant));
    let all = visible_rows(rows, Some(tenant));
    if i < t.len() {
        assert(t[i] == rows[i]);
        every_own_row(t, tenant, i);
        let k = choose|k: int| 0 <= k < prev.len() && prev[k] == rows[i];
        assert(all[k] == rows[i]);
    } else {
        assert(all[prev.len() as int] == rows[i]);
    }
}

} // verus!
