//! The category store model and the keyset query executor.
//!
//! The store is an ordered table of category rows. Its invariant is the one
//! the pagination engine relies on: rows stand in strictly ascending
//! `(created_at, id)` order, and both the numeric id and the external
//! `ap_id` are unique. Range scans resume from a sort key with a composite
//! comparison — never on the timestamp alone, since several rows may share
//! one — and fetch a bounded window; count queries report how many rows lie
//! strictly beyond a key on one side.

use vstd::prelude::*;

use crate::entity::{clone_opt_string, clone_string_vec, opt_view, CategoryView, SubCategoryView};
use crate::error::CategoryError;

verus! {

/// One stored category row. `sub_categories` lists the external ids of the
/// related categories; the rows they name are joined in at query time.
#[derive(Debug, PartialEq, Eq)]
pub struct StoredCategory {
    pub id: u64,
    pub ap_id: String,
    pub name: String,
    pub sub_categories: Vec<String>,
    pub image_url: Option<String>,
    pub parent_id: Option<String>,
    pub created_at: u64,
    pub updated_at: u64,
    pub local: bool,
}

/// The mathematical value of a [`StoredCategory`].
pub struct StoredCategoryView {
    pub id: u64,
    pub ap_id: Seq<char>,
    pub name: Seq<char>,
    pub sub_categories: Seq<Seq<char>>,
    pub image_url: Option<Seq<char>>,
    pub parent_id: Option<Seq<char>>,
    pub created_at: u64,
    pub updated_at: u64,
    pub local: bool,
}

impl View for StoredCategory {
    type V = StoredCategoryView;

    open spec fn view(&self) -> StoredCategoryView {
        StoredCategoryView {
            id: self.id,
            ap_id: self.ap_id@,
            name: self.name@,
            sub_categories: self.sub_categories@.map_values(|s: String| s@),
            image_url: opt_view(self.image_url),
            parent_id: opt_view(self.parent_id),
            created_at: self.created_at,
            updated_at: self.updated_at,
            local: self.local,
        }
    }
}

impl Clone for StoredCategory {
    fn clone(&self) -> (r: Self)
        ensures
            r@ == self@,
    {
        StoredCategory {
            id: self.id,
            ap_id: self.ap_id.clone(),
            name: self.name.clone(),
            sub_categories: clone_string_vec(&self.sub_categories),
            image_url: clone_opt_string(&self.image_url),
            parent_id: clone_opt_string(&self.parent_id),
            created_at: self.created_at,
            updated_at: self.updated_at,
            local: self.local,
        }
    }
}

/// The composite sort key of one row: the creation timestamp first, the
/// numeric id as the tie-break.
#[derive(Debug, Clone, Copy, PartialEq, Eq)]
pub struct SortKey {
    pub created_at: u64,
    pub id: u64,
}

/// The sort key of a row.
pub open spec fn key_of(c: StoredCategoryView) -> SortKey {
    SortKey { created_at: c.created_at, id: c.id }
}

/// Strict order on sort keys: by timestamp, then by id.
pub open spec fn sort_key_lt(a: SortKey, b: SortKey) -> bool {
    a.created_at < b.created_at || (a.created_at == b.created_at && a.id < b.id)
}

/// The row stands strictly before the key.
pub open spec fn key_before(c: StoredCategoryView, key: SortKey) -> bool {
    sort_key_lt(key_of(c), key)
}

/// The row stands strictly after the key.
pub open spec fn key_after(c: StoredCategoryView, key: SortKey) -> bool {
    sort_key_lt(key, key_of(c))
}

/// Strict ascending `(created_at, id)` order.
pub open spec fn sorted_strict(s: Seq<StoredCategoryView>) -> bool {
    forall|i: int, j: int|
        0 <= i < j < s.len() ==> #[trigger] sort_key_lt(key_of(s[i]), key_of(s[j]))
}

/// No two rows share an external id.
pub open spec fn distinct_aps(s: Seq<StoredCategoryView>) -> bool {
    forall|i: int, j: int|
        #![trigger s[i].ap_id, s[j].ap_id]
        0 <= i < j < s.len() ==> s[i].ap_id != s[j].ap_id
}

/// No two rows share a numeric id.
pub open spec fn distinct_ids(s: Seq<StoredCategoryView>) -> bool {
    forall|i: int, j: int|
        #![trigger s[i].id, s[j].id]
        0 <= i < j < s.len() ==> s[i].id != s[j].id
}

/// The store invariant: ascending order and unique identifiers.
pub open spec fn table_wf(s: Seq<StoredCategoryView>) -> bool {
    sorted_strict(s) && distinct_aps(s) && distinct_ids(s)
}

/// Some row carries this external id.
pub open spec fn has_ap(s: Seq<StoredCategoryView>, ap: Seq<char>) -> bool {
    exists|i: int| 0 <= i < s.len() && (#[trigger] s[i]).ap_id == ap
}

/// Some row carries this numeric id.
pub open spec fn has_id(s: Seq<StoredCategoryView>, id: u64) -> bool {
    exists|i: int| 0 <= i < s.len() && (#[trigger] s[i]).id == id
}

/// The first row carrying this external id, if any.
pub open spec fn find_ap(s: Seq<StoredCategoryView>, ap: Seq<char>) -> Option<StoredCategoryView>
    decreases s.len(),
{
    if s.len() == 0 {
        None
    } else if s[0].ap_id == ap {
        Some(s[0])
    } else {
        find_ap(s.skip(1), ap)
    }
}

/// The sub-item projections of a reference list: each reference that names
/// a stored row yields that row's `(name, ap_id)`, in list order; a
/// reference that names no row yields nothing.
pub open spec fn resolve_subs(s: Seq<StoredCategoryView>, refs: Seq<Seq<char>>) -> Seq<
    SubCategoryView,
>
    decreases refs.len(),
{
    if refs.len() == 0 {
        Seq::empty()
    } else {
        let rest = resolve_subs(s, refs.drop_last());
        match find_ap(s, refs.last()) {
            Some(r) => rest.push(SubCategoryView { name: r.name, ap_id: r.ap_id }),
            None => rest,
        }
    }
}

/// The aggregate entity a stored row assembles into, with its sub-item
/// references resolved against the table.
pub open spec fn assemble(s: Seq<StoredCategoryView>, c: StoredCategoryView) -> CategoryView {
    CategoryView {
        id: c.id,
        name: c.name,
        sub_categories: resolve_subs(s, c.sub_categories),
        image_url: c.image_url,
        parent_id: c.parent_id,
        created_at: c.created_at,
        updated_at: c.updated_at,
        ap_id: c.ap_id,
        local: c.local,
    }
}

/// A row is eligible for a listing when it is locally originated and its
/// parent matches the requested scope: the given parent's external id, or
/// no parent for a top-level listing.
pub open spec fn in_scope(c: StoredCategoryView, parent: Option<Seq<char>>) -> bool {
    c.local && c.parent_id == parent
}

/// The eligibility predicate of a scope.
pub open spec fn scope_pred(parent: Option<Seq<char>>) -> spec_fn(StoredCategoryView) -> bool {
    |c: StoredCategoryView| in_scope(c, parent)
}

/// The predicate of a forward scan resuming strictly after the key.
pub open spec fn after_pred(parent: Option<Seq<char>>, key: SortKey) -> spec_fn(
    StoredCategoryView,
) -> bool {
    |c: StoredCategoryView| in_scope(c, parent) && key_after(c, key)
}

/// The predicate of a backward scan resuming strictly before the key.
pub open spec fn before_pred(parent: Option<Seq<char>>, key: SortKey) -> spec_fn(
    StoredCategoryView,
) -> bool {
    |c: StoredCategoryView| in_scope(c, parent) && key_before(c, key)
}

/// The eligible rows of a scope, in table order.
pub open spec fn eligible(s: Seq<StoredCategoryView>, parent: Option<Seq<char>>) -> Seq<
    StoredCategoryView,
> {
    s.filter(scope_pred(parent))
}

/// The eligible rows strictly after the key, in table order.
pub open spec fn window_after(
    s: Seq<StoredCategoryView>,
    parent: Option<Seq<char>>,
    key: SortKey,
) -> Seq<StoredCategoryView> {
    s.filter(after_pred(parent, key))
}

/// The eligible rows strictly before the key, in table order.
pub open spec fn window_before(
    s: Seq<StoredCategoryView>,
    parent: Option<Seq<char>>,
    key: SortKey,
) -> Seq<StoredCategoryView> {
    s.filter(before_pred(parent, key))
}

/// The first `n` elements of a sequence, or all of them when fewer.
pub open spec fn prefix<A>(s: Seq<A>, n: int) -> Seq<A> {
    if n < 0 {
        Seq::empty()
    } else if n <= s.len() {
        s.take(n)
    } else {
        s
    }
}

/// One step of a left-to-right filter: extending the scanned prefix by one
/// element extends the filtered sequence exactly when the element passes.
pub(crate) proof fn lemma_filter_step<A>(s: Seq<A>, pred: spec_fn(A) -> bool, i: int)
    requires
        0 <= i < s.len(),
    ensures
        s.take(i + 1).filter(pred) == if pred(s[i]) {
            s.take(i).filter(pred).push(s[i])
        } else {
            s.take(i).filter(pred)
        },
{
    reveal(Seq::filter);
    let t = s.take(i + 1);
    assert(t.drop_last() =~= s.take(i));
    assert(t.last() == s[i]);
}

/// A filter that keeps every element changes nothing.
pub(crate) proof fn lemma_filter_keep_all<A>(s: Seq<A>, pred: spec_fn(A) -> bool)
    requires
        forall|i: int| 0 <= i < s.len() ==> pred(#[trigger] s[i]),
    ensures
        s.filter(pred) == s,
    decreases s.len(),
{
    reveal(Seq::filter);
    if s.len() > 0 {
        lemma_filter_keep_all(s.drop_last(), pred);
        assert(s.drop_last().push(s.last()) =~= s);
    }
}

/// Filtering twice is one filter by the conjunction.
pub(crate) proof fn lemma_filter_compose<A>(
    s: Seq<A>,
    p: spec_fn(A) -> bool,
    q: spec_fn(A) -> bool,
    pq: spec_fn(A) -> bool,
)
    requires
        forall|x: A| #[trigger] pq(x) == (p(x) && q(x)),
    ensures
        s.filter(p).filter(q) == s.filter(pq),
    decreases s.len(),
{
    reveal(Seq::filter);
    if s.len() > 0 {
        lemma_filter_compose(s.drop_last(), p, q, pq);
        let a = s.drop_last().filter(p);
        if p(s.last()) {
            assert(a.push(s.last()).drop_last() =~= a);
        }
    }
}

/// A filter of a well-formed table is itself well-formed: it keeps the
/// strict order and the uniqueness of both identifiers.
pub(crate) proof fn lemma_filter_table_wf(
    s: Seq<StoredCategoryView>,
    pred: spec_fn(StoredCategoryView) -> bool,
)
    requires
        table_wf(s),
    ensures
        table_wf(s.filter(pred)),
        forall|i: int|
            0 <= i < s.filter(pred).len() ==> s.contains(#[trigger] s.filter(pred)[i]),
    decreases s.len(),
{
    reveal(Seq::filter);
    let out = s.filter(pred);
    if s.len() == 0 {
    } else {
        let rest = s.drop_last();
        assert(table_wf(rest)) by {
            assert forall|i: int, j: int|
                0 <= i < j < rest.len() implies #[trigger] sort_key_lt(
                key_of(rest[i]),
                key_of(rest[j]),
            ) by {
                assert(rest[i] == s[i] && rest[j] == s[j]);
            }
        }
        lemma_filter_table_wf(rest, pred);
        let sub = rest.filter(pred);
        assert forall|i: int| 0 <= i < sub.len() implies s.contains(#[trigger] sub[i]) by {
            assert(rest.contains(sub[i]));
            let w = choose|w: int| 0 <= w < rest.len() && rest[w] == sub[i];
            assert(s[w] == sub[i]);
        }
        if pred(s.last()) {
            assert(out =~= sub.push(s.last()));
            assert forall|i: int, j: int|
                0 <= i < j < out.len() implies #[trigger] sort_key_lt(
                key_of(out[i]),
                key_of(out[j]),
            ) by {
                if j < sub.len() {
                } else {
                    assert(out[j] == s.last());
                    assert(rest.contains(sub[i]));
                    let w = choose|w: int| 0 <= w < rest.len() && rest[w] == sub[i];
                    assert(s[w] == out[i]);
                    assert(sort_key_lt(key_of(s[w]), key_of(s[s.len() - 1])));
                }
            }
            assert(distinct_aps(out)) by {
                assert forall|i: int, j: int|
                    #![trigger out[i].ap_id, out[j].ap_id]
                    0 <= i < j < out.len() implies out[i].ap_id != out[j].ap_id by {
                    if j < sub.len() {
                    } else {
                        let w = choose|w: int| 0 <= w < rest.len() && rest[w] == sub[i];
                        assert(s[w] == out[i]);
                        assert(s[w].ap_id != s[s.len() - 1].ap_id);
                    }
                }
            }
            assert(distinct_ids(out)) by {
                assert forall|i: int, j: int|
                    #![trigger out[i].id, out[j].id]
                    0 <= i < j < out.len() implies out[i].id != out[j].id by {
                    if j < sub.len() {
                    } else {
                        let w = choose|w: int| 0 <= w < rest.len() && rest[w] == sub[i];
                        assert(s[w] == out[i]);
                        assert(s[w].id != s[s.len() - 1].id);
                    }
                }
            }
        }
    }
}

/// Taking a bounded prefix of a concatenation that already fills the bound
/// reads only the first part.
pub(crate) proof fn lemma_prefix_concat<A>(a: Seq<A>, b: Seq<A>, n: int)
    requires
        0 <= n <= a.len(),
    ensures
        prefix(a + b, n) == prefix(a, n),
{
    assert((a + b).take(n) =~= a.take(n));
}

/// The ordered category table.
pub struct Store {
    rows: Vec<StoredCategory>,
}

impl View for Store {
    type V = Seq<StoredCategoryView>;

    closed spec fn view(&self) -> Seq<StoredCategoryView> {
        self.rows@.map_values(|r: StoredCategory| r@)
    }
}

impl Store {
    /// The store invariant; every public operation preserves it.
    pub open spec fn wf(&self) -> bool {
        table_wf(self@)
    }

    /// An empty store.
    pub fn new() -> (r: Store)
        ensures
            r@ == Seq::<StoredCategoryView>::empty(),
            r.wf(),
    {
        let r = Store { rows: Vec::new() };
        proof {
            assert(r@ =~= Seq::<StoredCategoryView>::empty());
        }
        r
    }

    /// The number of stored rows.
    pub fn len(&self) -> (r: usize)
        ensures
            r == self@.len(),
    {
        self.rows.len()
    }

    /// Whether the row at `idx` is in the requested scope and local.
    fn in_scope_at(&self, idx: usize, parent: &Option<String>) -> (r: bool)
        requires
            idx < self@.len(),
        ensures
            r == in_scope(self@[idx as int], opt_view(*parent)),
    {
        let c = &self.rows[idx];
        if !c.local {
            return false;
        }
        match (&c.parent_id, parent) {
            (None, None) => true,
            (Some(a), Some(b)) => *a == *b,
            _ => false,
        }
    }

    /// Whether the row at `idx` stands strictly after the key.
    fn after_at(&self, idx: usize, key: SortKey) -> (r: bool)
        requires
            idx < self@.len(),
        ensures
            r == key_after(self@[idx as int], key),
    {
        let c = &self.rows[idx];
        c.created_at > key.created_at || (c.created_at == key.created_at && c.id > key.id)
    }

    /// Whether the row at `idx` stands strictly before the key.
    fn before_at(&self, idx: usize, key: SortKey) -> (r: bool)
        requires
            idx < self@.len(),
        ensures
            r == key_before(self@[idx as int], key),
    {
        let c = &self.rows[idx];
        c.created_at < key.created_at || (c.created_at == key.created_at && c.id < key.id)
    }

    /// The range scan of a forward page: the first `fetch` eligible rows,
    /// in ascending order — all of them, or those strictly after the
    /// resume key when one is given.
    #[verifier::loop_isolation(false)]
    pub fn scan_forward(&self, after: Option<SortKey>, parent: &Option<String>, fetch: u64) -> (r:
        Vec<StoredCategory>)
        ensures
            r@.map_values(|c: StoredCategory| c@) == match after {
                None => prefix(eligible(self@, opt_view(*parent)), fetch as int),
                Some(key) => prefix(window_after(self@, opt_view(*parent), key), fetch as int),
            },
    {
        let ghost pred = |c: StoredCategoryView|
            in_scope(c, opt_view(*parent)) && match after {
                None => true,
                Some(key) => key_after(c, key),
            };
        let mut out: Vec<StoredCategory> = Vec::new();
        let mut i: usize = 0;
        proof {
            assert(self@.take(0) =~= Seq::<StoredCategoryView>::empty());
            reveal(Seq::filter);
        }
        while i < self.rows.len() && (out.len() as u64) < fetch
            invariant
                0 <= i <= self@.len(),
                self@.len() == self.rows@.len(),
                out@.len() as u64 <= fetch,
                out@.map_values(|c: StoredCategory| c@) == self@.take(i as int).filter(pred),
                self@.take(i as int).filter(pred).len() <= fetch,
            decreases self@.len() - i,
        {
            let keep = match after {
                None => self.in_scope_at(i, parent),
                Some(key) => self.in_scope_at(i, parent) && self.after_at(i, key),
            };
            proof {
                lemma_filter_step(self@, pred, i as int);
                assert(self@[i as int] == self.rows@[i as int]@);
                assert(keep == pred(self@[i as int]));
            }
            if keep {
                out.push(self.rows[i].clone());
                proof {
                    assert(out@.map_values(|c: StoredCategory| c@) =~= self@.take(
                        i + 1,
                    ).filter(pred));
                }
            }
            i = i + 1;
        }
        proof {
            let full = self@.filter(pred);
            let part = self@.take(i as int).filter(pred);
            if i == self@.len() {
                assert(self@.take(i as int) =~= self@);
                assert(part.len() <= fetch);
                assert(prefix(full, fetch as int) == part) by {
                    assert(full.take(full.len() as int) =~= full);
                }
            } else {
                assert(out@.len() as u64 == fetch);
                assert(self@.take(i as int) + self@.skip(i as int) =~= self@);
                Seq::filter_distributes_over_add(
                    self@.take(i as int),
                    self@.skip(i as int),
                    pred,
                );
                lemma_prefix_concat(part, self@.skip(i as int).filter(pred), fetch as int);
                assert(prefix(part, fetch as int) == part) by {
                    assert(part.take(part.len() as int) =~= part);
                }
            }
            match after {
                None => {
                    assert(pred =~= scope_pred(opt_view(*parent)));
                },
                Some(key) => {
                    assert(pred =~= after_pred(opt_view(*parent), key));
                },
            }
        }
        out
    }

    /// The range scan of a backward page: the first `fetch` eligible rows
    /// in descending order — from the table's end, or strictly before the
    /// resume key when one is given.
    #[verifier::loop_isolation(false)]
    pub fn scan_backward(&self, before: Option<SortKey>, parent: &Option<String>, fetch: u64) -> (r:
        Vec<StoredCategory>)
        ensures
            r@.map_values(|c: StoredCategory| c@) == match before {
                None => prefix(eligible(self@, opt_view(*parent)).reverse(), fetch as int),
                Some(key) => prefix(
                    window_before(self@, opt_view(*parent), key).reverse(),
                    fetch as int,
                ),
            },
    {
        let ghost pred = |c: StoredCategoryView|
            in_scope(c, opt_view(*parent)) && match before {
                None => true,
                Some(key) => key_before(c, key),
            };
        let mut out: Vec<StoredCategory> = Vec::new();
        let mut i: usize = self.rows.len();
        proof {
            assert(self@.skip(self@.len() as int) =~= Seq::<StoredCategoryView>::empty());
            reveal(Seq::filter);
        }
        while i > 0 && (out.len() as u64) < fetch
            invariant
                0 <= i <= self@.len(),
                self@.len() == self.rows@.len(),
                out@.len() as u64 <= fetch,
                out@.map_values(|c: StoredCategory| c@) == prefix(
                    self@.skip(i as int).filter(pred).reverse(),
                    fetch as int,
                ),
                self@.skip(i as int).filter(pred).len() as u64 >= out@.len() as u64,
                out@.len() as u64 == fetch || out@.map_values(|c: StoredCategory| c@)
                    == self@.skip(i as int).filter(pred).reverse(),
            decreases i,
        {
            let keep = match before {
                None => self.in_scope_at(i - 1, parent),
                Some(key) => self.in_scope_at(i - 1, parent) && self.before_at(i - 1, key),
            };
            proof {
                reveal(Seq::filter);
                assert(self@[i - 1] == self.rows@[i - 1]@);
                assert(keep == pred(self@[i - 1]));
                assert(self@.skip(i - 1) =~= seq![self@[i - 1]] + self@.skip(i as int));
                Seq::filter_distributes_over_add(
                    seq![self@[i - 1]],
                    self@.skip(i as int),
                    pred,
                );
                assert(seq![self@[i - 1]].drop_last() =~= Seq::<StoredCategoryView>::empty());
                if keep {
                    assert(seq![self@[i - 1]].filter(pred) =~= seq![self@[i - 1]]);
                } else {
                    assert(seq![self@[i - 1]].filter(pred) =~= Seq::<StoredCategoryView>::empty());
                }
                assert(self@.skip(i - 1).filter(pred).reverse() =~= self@.skip(
                    i as int,
                ).filter(pred).reverse() + seq![self@[i - 1]].filter(pred).reverse());
            }
            if keep {
                out.push(self.rows[i - 1].clone());
                proof {
                    let prev = self@.skip(i as int).filter(pred);
                    let cur = self@.skip(i - 1).filter(pred);
                    assert(cur.reverse() =~= prev.reverse().push(self@[i - 1]));
                    assert(out@.map_values(|c: StoredCategory| c@) =~= prefix(
                        cur.reverse(),
                        fetch as int,
                    ));
                }
            } else {
                proof {
                    assert(self@.skip(i - 1).filter(pred).reverse() =~= self@.skip(
                        i as int,
                    ).filter(pred).reverse());
                }
            }
            i = i - 1;
        }
        proof {
            let full = self@.filter(pred);
            if i == 0 {
                assert(self@.skip(0) =~= self@);
            } else {
                assert(out@.len() as u64 == fetch);
                let part = self@.skip(i as int).filter(pred);
                assert(self@.take(i as int) + self@.skip(i as int) =~= self@);
                Seq::filter_distributes_over_add(
                    self@.take(i as int),
                    self@.skip(i as int),
                    pred,
                );
                let front = self@.take(i as int).filter(pred);
                assert(full.reverse() =~= part.reverse() + front.reverse());
                lemma_prefix_concat(part.reverse(), front.reverse(), fetch as int);
            }
            match before {
                None => {
                    assert(pred =~= scope_pred(opt_view(*parent)));
                },
                Some(key) => {
                    assert(pred =~= before_pred(opt_view(*parent), key));
                },
            }
        }
        out
    }

    /// The count of eligible rows strictly before the key: what lies on
    /// the other side of a forward scan that resumes at the key.
    #[verifier::loop_isolation(false)]
    pub fn count_before(&self, key: SortKey, parent: &Option<String>) -> (r: usize)
        ensures
            r == window_before(self@, opt_view(*parent), key).len(),
    {
        let ghost pred = |c: StoredCategoryView| in_scope(c, opt_view(*parent)) && key_before(
            c,
            key,
        );
        let mut count: usize = 0;
        let mut i: usize = 0;
        proof {
            assert(self@.take(0) =~= Seq::<StoredCategoryView>::empty());
            reveal(Seq::filter);
        }
        while i < self.rows.len()
            invariant
                0 <= i <= self@.len(),
                self@.len() == self.rows@.len(),
                count == self@.take(i as int).filter(pred).len(),
                count <= i,
            decreases self@.len() - i,
        {
            proof {
                lemma_filter_step(self@, pred, i as int);
                assert(self@[i as int] == self.rows@[i as int]@);
            }
            let keep = self.in_scope_at(i, parent) && self.before_at(i, key);
            proof {
                assert(keep == pred(self@[i as int]));
            }
            if keep {
                count = count + 1;
            }
            i = i + 1;
        }
        proof {
            assert(self@.take(i as int) =~= self@);
            assert(pred =~= before_pred(opt_view(*parent), key));
        }
        count
    }

    /// The count of eligible rows strictly after the key: what lies on the
    /// other side of a backward scan that resumes at the key.
    #[verifier::loop_isolation(false)]
    pub fn count_after(&self, key: SortKey, parent: &Option<String>) -> (r: usize)
        ensures
            r == window_after(self@, opt_view(*parent), key).len(),
    {
        let ghost pred = |c: StoredCategoryView| in_scope(c, opt_view(*parent)) && key_after(
            c,
            key,
        );
        let mut count: usize = 0;
        let mut i: usize = 0;
        proof {
            assert(self@.take(0) =~= Seq::<StoredCategoryView>::empty());
            reveal(Seq::filter);
        }
        while i < self.rows.len()
            invariant
                0 <= i <= self@.len(),
                self@.len() == self.rows@.len(),
                count == self@.take(i as int).filter(pred).len(),
                count <= i,
            decreases self@.len() - i,
        {
            proof {
                lemma_filter_step(self@, pred, i as int);
                assert(self@[i as int] == self.rows@[i as int]@);
            }
            let keep = self.in_scope_at(i, parent) && self.after_at(i, key);
            proof {
                assert(keep == pred(self@[i as int]));
            }
            if keep {
                count = count + 1;
            }
            i = i + 1;
        }
        proof {
            assert(self@.take(i as int) =~= self@);
            assert(pred =~= after_pred(opt_view(*parent), key));
        }
        count
    }

    /// A reference to the first row carrying this external id, if any.
    #[verifier::loop_isolation(false)]
    pub fn find_by_ap(&self, ap_id: &String) -> (r: Option<&StoredCategory>)
        ensures
            match find_ap(self@, ap_id@) {
                Some(c) => r is Some && r->0@ == c,
                None => r is None,
            },
    {
        let mut i: usize = 0;
        while i < self.rows.len()
            invariant
                0 <= i <= self@.len(),
                self@.len() == self.rows@.len(),
                forall|j: int| 0 <= j < i ==> (#[trigger] self@[j]).ap_id != ap_id@,
            decreases self@.len() - i,
        {
            if self.rows[i].ap_id == *ap_id {
                proof {
                    assert(self@[i as int] == self.rows@[i as int]@);
                    lemma_find_ap_at(self@, ap_id@, i as int);
                }
                return Some(&self.rows[i]);
            }
            proof {
                assert(self@[i as int] == self.rows@[i as int]@);
            }
            i = i + 1;
        }
        proof {
            lemma_find_ap_none(self@, ap_id@);
        }
        None
    }
}

/// When the first match of an external id stands at `i`, the find
/// function returns that row.
pub(crate) proof fn lemma_find_ap_at(s: Seq<StoredCategoryView>, ap: Seq<char>, i: int)
    requires
        0 <= i < s.len(),
        s[i].ap_id == ap,
        forall|j: int| 0 <= j < i ==> (#[trigger] s[j]).ap_id != ap,
    ensures
        find_ap(s, ap) == Some(s[i]),
    decreases i,
{
    if i > 0 {
        lemma_find_ap_at(s.skip(1), ap, i - 1);
    }
}

/// When no row carries the external id, the find function returns
/// nothing.
pub(crate) proof fn lemma_find_ap_none(s: Seq<StoredCategoryView>, ap: Seq<char>)
    requires
        forall|j: int| 0 <= j < s.len() ==> (#[trigger] s[j]).ap_id != ap,
    ensures
        find_ap(s, ap) is None,
    decreases s.len(),
{
    if s.len() > 0 {
        lemma_find_ap_none(s.skip(1), ap);
    }
}


/// The keep-predicate of a delete: every row whose external id differs.
pub open spec fn keep_ap_pred(ap: Seq<char>) -> spec_fn(StoredCategoryView) -> bool {
    |c: StoredCategoryView| c.ap_id != ap
}

/// The table after removing the rows carrying one external id.
pub open spec fn remove_ap_spec(s: Seq<StoredCategoryView>, ap: Seq<char>) -> Seq<
    StoredCategoryView,
> {
    s.filter(keep_ap_pred(ap))
}

/// The table after inserting a row at its sorted position: before the
/// first row with a greater key.
pub open spec fn insert_sorted_spec(s: Seq<StoredCategoryView>, c: StoredCategoryView) -> Seq<
    StoredCategoryView,
>
    decreases s.len(),
{
    if s.len() == 0 {
        seq![c]
    } else if sort_key_lt(key_of(c), key_of(s[0])) {
        seq![c] + s
    } else {
        seq![s[0]] + insert_sorted_spec(s.skip(1), c)
    }
}

/// The stored row an accepted write becomes.
pub open spec fn new_row_view(
    c: crate::entity::NewCategoryView,
    id: u64,
    created_at: u64,
    updated_at: u64,
) -> StoredCategoryView {
    StoredCategoryView {
        id: id,
        ap_id: c.ap_id,
        name: c.name,
        sub_categories: c.sub_categories,
        image_url: c.image_url,
        parent_id: c.parent_id,
        created_at: created_at,
        updated_at: updated_at,
        local: c.local,
    }
}

/// Some row carries this numeric id under a different external id: the
/// state in which an upsert would collide on the store's primary key.
pub open spec fn id_conflict(s: Seq<StoredCategoryView>, ap: Seq<char>, id: u64) -> bool {
    exists|i: int|
        0 <= i < s.len() && (#[trigger] s[i]).id == id && s[i].ap_id != ap
}

/// The find function answers exactly the membership question.
pub(crate) proof fn lemma_find_ap_has(s: Seq<StoredCategoryView>, ap: Seq<char>)
    ensures
        (find_ap(s, ap) is Some) == has_ap(s, ap),
    decreases s.len(),
{
    if s.len() > 0 {
        lemma_find_ap_has(s.skip(1), ap);
        if s[0].ap_id != ap {
            if has_ap(s.skip(1), ap) {
                let w = choose|i: int|
                    0 <= i < s.skip(1).len() && (#[trigger] s.skip(1)[i]).ap_id == ap;
                assert(s[w + 1].ap_id == ap);
            }
            if has_ap(s, ap) {
                let w = choose|i: int| 0 <= i < s.len() && (#[trigger] s[i]).ap_id == ap;
                assert(s.skip(1)[w - 1].ap_id == ap);
            }
        }
    }
}

/// Removing the only row carrying an external id deletes exactly that
/// row's position from the table.
proof fn lemma_filter_out_unique(s: Seq<StoredCategoryView>, ap: Seq<char>, i: int)
    requires
        0 <= i < s.len(),
        s[i].ap_id == ap,
        forall|j: int| 0 <= j < s.len() && j != i ==> (#[trigger] s[j]).ap_id != ap,
    ensures
        remove_ap_spec(s, ap) == s.take(i) + s.skip(i + 1),
    decreases s.len(),
{
    reveal(Seq::filter);
    let pred = keep_ap_pred(ap);
    let rest = s.drop_last();
    if i == s.len() - 1 {
        lemma_filter_keep_all(rest, pred);
        assert(remove_ap_spec(s, ap) =~= s.take(i) + s.skip(i + 1));
    } else {
        assert forall|j: int| 0 <= j < rest.len() && j != i implies (#[trigger] rest[j]).ap_id
            != ap by {
            assert(rest[j] == s[j]);
        }
        assert(rest[i] == s[i]);
        lemma_filter_out_unique(rest, ap, i);
        assert(pred(s.last()));
        assert(remove_ap_spec(s, ap) == (rest.take(i) + rest.skip(i + 1)).push(s.last()));
        assert((rest.take(i) + rest.skip(i + 1)).push(s.last()) =~= s.take(i) + s.skip(i + 1));
    }
}

/// When every earlier row stands strictly before the new key and the rest
/// strictly after, the sorted insertion lands exactly at that seam.
proof fn lemma_insert_sorted_at(s: Seq<StoredCategoryView>, c: StoredCategoryView, pos: int)
    requires
        0 <= pos <= s.len(),
        forall|j: int| 0 <= j < pos ==> sort_key_lt(key_of(#[trigger] s[j]), key_of(c)),
        pos < s.len() ==> sort_key_lt(key_of(c), key_of(s[pos as int])),
        sorted_strict(s),
    ensures
        insert_sorted_spec(s, c) == s.take(pos) + seq![c] + s.skip(pos),
    decreases s.len(),
{
    if s.len() == 0 {
        assert(insert_sorted_spec(s, c) =~= s.take(pos) + seq![c] + s.skip(pos));
    } else if pos == 0 {
        assert(sort_key_lt(key_of(c), key_of(s[0])));
        assert(insert_sorted_spec(s, c) =~= s.take(0) + seq![c] + s.skip(0));
    } else {
        assert(sort_key_lt(key_of(s[0]), key_of(c)));
        assert(!sort_key_lt(key_of(c), key_of(s[0])));
        let tail = s.skip(1);
        assert(sorted_strict(tail)) by {
            assert forall|i: int, j: int|
                0 <= i < j < tail.len() implies #[trigger] sort_key_lt(
                key_of(tail[i]),
                key_of(tail[j]),
            ) by {
                assert(tail[i] == s[i + 1] && tail[j] == s[j + 1]);
            }
        }
        assert forall|j: int| 0 <= j < pos - 1 implies sort_key_lt(
            key_of(#[trigger] tail[j]),
            key_of(c),
        ) by {
            assert(tail[j] == s[j + 1]);
        }
        if pos - 1 < tail.len() {
            assert(tail[pos - 1] == s[pos as int]);
        }
        lemma_insert_sorted_at(tail, c, pos - 1);
        assert(seq![s[0]] + (tail.take(pos - 1) + seq![c] + tail.skip(pos - 1)) =~= s.take(pos)
            + seq![c] + s.skip(pos));
    }
}

/// A table stays well-formed when a row with fresh identifiers is placed
/// at its sorted seam.
proof fn lemma_insert_wf(s: Seq<StoredCategoryView>, c: StoredCategoryView, pos: int)
    requires
        0 <= pos <= s.len(),
        table_wf(s),
        !has_ap(s, c.ap_id),
        !has_id(s, c.id),
        forall|j: int| 0 <= j < pos ==> sort_key_lt(key_of(#[trigger] s[j]), key_of(c)),
        pos < s.len() ==> sort_key_lt(key_of(c), key_of(s[pos as int])),
    ensures
        table_wf(s.take(pos) + seq![c] + s.skip(pos)),
{
    let out = s.take(pos) + seq![c] + s.skip(pos);
    assert forall|i: int| 0 <= i < out.len() implies (i < pos ==> out[i] == s[i]) && (i == pos
        ==> out[i] == c) && (i > pos ==> out[i] == s[i - 1]) by {}
    assert forall|i: int, j: int|
        0 <= i < j < out.len() implies #[trigger] sort_key_lt(key_of(out[i]), key_of(out[j])) by {
        if i < pos && j > pos {
            if pos < s.len() {
                assert(sort_key_lt(key_of(s[i]), key_of(s[j - 1])) || i == j - 1);
            }
            assert(sort_key_lt(key_of(s[i]), key_of(c)));
            if j - 1 > pos - 1 && j - 1 < s.len() && i < j - 1 {
                assert(sort_key_lt(key_of(s[i]), key_of(s[j - 1])));
            }
        }
        if i == pos && j > pos {
            assert(sort_key_lt(key_of(c), key_of(s[pos as int])));
            if j - 1 > pos {
                assert(sort_key_lt(key_of(s[pos as int]), key_of(s[j - 1])));
            }
        }
    }
    assert forall|i: int, j: int|
        #![trigger out[i].ap_id, out[j].ap_id]
        0 <= i < j < out.len() implies out[i].ap_id != out[j].ap_id by {
        if i == pos {
            assert(out[j] == s[j - 1]);
            if out[j].ap_id == c.ap_id {
                assert(has_ap(s, c.ap_id));
            }
        } else if j == pos {
            if out[i].ap_id == c.ap_id {
                assert(has_ap(s, c.ap_id));
            }
        }
    }
    assert forall|i: int, j: int|
        #![trigger out[i].id, out[j].id]
        0 <= i < j < out.len() implies out[i].id != out[j].id by {
        if i == pos {
            if out[j].id == c.id {
                assert(has_id(s, c.id));
            }
        } else if j == pos {
            if out[i].id == c.id {
                assert(has_id(s, c.id));
            }
        }
    }
}

/// Deleting the same external id twice leaves the same store as deleting
/// it once: the second pass finds nothing left to remove.
pub proof fn lemma_delete_idempotent(s: Seq<StoredCategoryView>, ap: Seq<char>)
    ensures
        remove_ap_spec(remove_ap_spec(s, ap), ap) == remove_ap_spec(s, ap),
{
    let pred = keep_ap_pred(ap);
    let f = remove_ap_spec(s, ap);
    assert forall|i: int| 0 <= i < f.len() implies pred(#[trigger] f[i]) by {
        s.lemma_filter_pred(pred, i);
    }
    lemma_filter_keep_all(f, pred);
}

impl Store {
    /// Whether any row carries this numeric id.
    #[verifier::loop_isolation(false)]
    fn has_id_scan(&self, id: u64) -> (r: bool)
        ensures
            r == has_id(self@, id),
    {
        let mut i: usize = 0;
        while i < self.rows.len()
            invariant
                0 <= i <= self@.len(),
                forall|j: int| 0 <= j < i ==> (#[trigger] self@[j]).id != id,
            decreases self@.len() - i,
        {
            if self.rows[i].id == id {
                proof {
                    assert(self@[i as int].id == id);
                }
                return true;
            }
            proof {
                assert(self@[i as int] == self.rows@[i as int]@);
            }
            i = i + 1;
        }
        false
    }

    /// Whether any row carries this numeric id under a different external
    /// id.
    #[verifier::loop_isolation(false)]
    fn id_conflict_scan(&self, ap_id: &String, id: u64) -> (r: bool)
        ensures
            r == id_conflict(self@, ap_id@, id),
    {
        let mut i: usize = 0;
        while i < self.rows.len()
            invariant
                0 <= i <= self@.len(),
                forall|j: int|
                    0 <= j < i ==> !((#[trigger] self@[j]).id == id && self@[j].ap_id != ap_id@),
            decreases self@.len() - i,
        {
            proof {
                assert(self@[i as int] == self.rows@[i as int]@);
            }
            if self.rows[i].id == id && !(self.rows[i].ap_id == *ap_id) {
                proof {
                    assert(self@[i as int].id == id && self@[i as int].ap_id != ap_id@);
                }
                return true;
            }
            i = i + 1;
        }
        false
    }

    /// Places a row with fresh identifiers at its sorted position.
    #[verifier::loop_isolation(false)]
    fn insert_row(&mut self, row: StoredCategory)
        requires
            old(self).wf(),
            !has_ap(old(self)@, row@.ap_id),
            !has_id(old(self)@, row@.id),
        ensures
            final(self)@ == insert_sorted_spec(old(self)@, row@),
            final(self).wf(),
    {
        let key = SortKey { created_at: row.created_at, id: row.id };
        proof {
            assert(key == key_of(row@));
        }
        let mut pos: usize = 0;
        while pos < self.rows.len() && self.before_at(pos, key)
            invariant
                0 <= pos <= self@.len(),
                forall|j: int|
                    0 <= j < pos ==> sort_key_lt(key_of(#[trigger] self@[j]), key_of(row@)),
            decreases self@.len() - pos,
        {
            pos = pos + 1;
        }
        proof {
            if pos < self@.len() {
                // Keys are total on distinct identifiers, so the seam row
                // stands strictly after the new key.
                assert(self@[pos as int].id != row@.id);
                assert(!key_before(self@[pos as int], key));
                assert(sort_key_lt(key_of(row@), key_of(self@[pos as int])));
            }
            lemma_insert_sorted_at(self@, row@, pos as int);
            lemma_insert_wf(self@, row@, pos as int);
        }
        let ghost pre = self.rows@;
        let ghost row_g: StoredCategory = row;
        self.rows.insert(pos, row);
        proof {
            assert(self.rows@ =~= pre.take(pos as int) + seq![row_g] + pre.skip(pos as int));
            assert(self@ =~= pre.map_values(|r: StoredCategory| r@).take(pos as int) + seq![
                row_g@,
            ] + pre.map_values(|r: StoredCategory| r@).skip(pos as int));
        }
    }

    /// Deletes the category carrying this external id, leaving every other
    /// row in place. Deleting an id that no row carries changes nothing:
    /// the operation is idempotent and never fails.
    pub fn delete(&mut self, ap_id: &String)
        requires
            old(self).wf(),
        ensures
            final(self)@ == remove_ap_spec(old(self)@, ap_id@),
            final(self).wf(),
            !has_ap(final(self)@, ap_id@),
    {
        proof {
            lemma_filter_table_wf(old(self)@, keep_ap_pred(ap_id@));
        }
        let mut i: usize = 0;
        while i < self.rows.len()
            invariant
                self.wf(),
                self@ == old(self)@,
                0 <= i <= self@.len(),
                forall|j: int| 0 <= j < i ==> (#[trigger] self@[j]).ap_id != ap_id@,
            decreases self@.len() - i,
        {
            proof {
                assert(self@[i as int] == self.rows@[i as int]@);
            }
            if self.rows[i].ap_id == *ap_id {
                let ghost pre = self.rows@;
                let ghost iv = i as int;
                proof {
                    assert forall|j: int|
                        0 <= j < self@.len() && j != iv implies (#[trigger] self@[j]).ap_id
                        != ap_id@ by {
                        if j > iv {
                            assert(self@[iv].ap_id != self@[j].ap_id);
                        }
                    }
                    lemma_filter_out_unique(self@, ap_id@, iv);
                }
                self.rows.remove(i);
                proof {
                    assert(self.rows@ =~= pre.take(iv) + pre.skip(iv + 1));
                    assert(self@ =~= pre.map_values(|r: StoredCategory| r@).take(iv)
                        + pre.map_values(|r: StoredCategory| r@).skip(iv + 1));
                    let out = remove_ap_spec(old(self)@, ap_id@);
                    assert forall|k: int| 0 <= k < out.len() implies (#[trigger] out[k]).ap_id
                        != ap_id@ by {
                        old(self)@.lemma_filter_pred(keep_ap_pred(ap_id@), k);
                    }
                }
                return;
            }
            i = i + 1;
        }
        proof {
            lemma_filter_keep_all(self@, keep_ap_pred(ap_id@));
            let out = remove_ap_spec(old(self)@, ap_id@);
            assert forall|k: int| 0 <= k < out.len() implies (#[trigger] out[k]).ap_id
                != ap_id@ by {
                old(self)@.lemma_filter_pred(keep_ap_pred(ap_id@), k);
            }
        }
    }

    /// Creates a category. The write is rejected with `InvalidUrl` when a
    /// reference fails URL validation, and with `UniqueConstraintViolation`
    /// when the external id or the assigned numeric id is already stored;
    /// a rejected write leaves the store unchanged. An accepted write
    /// stores the row with both timestamps set to `now` and returns the
    /// assembled entity.
    pub fn create(&mut self, category: crate::entity::NewCategory, id: u64, now: u64) -> (r:
        Result<crate::entity::Category, CategoryError>)
        requires
            old(self).wf(),
        ensures
            final(self).wf(),
            !crate::utils::valid_refs(category@) ==> r == Err::<
                crate::entity::Category,
                CategoryError,
            >(CategoryError::InvalidUrl) && final(self)@ == old(self)@,
            crate::utils::valid_refs(category@) && (has_ap(old(self)@, category@.ap_id) || has_id(
                old(self)@,
                id,
            )) ==> r == Err::<crate::entity::Category, CategoryError>(
                CategoryError::UniqueConstraintViolation,
            ) && final(self)@ == old(self)@,
            crate::utils::valid_refs(category@) && !has_ap(old(self)@, category@.ap_id) && !has_id(
                old(self)@,
                id,
            ) ==> {
                let row = new_row_view(category@, id, now, now);
                &&& final(self)@ == insert_sorted_spec(old(self)@, row)
                &&& r is Ok
                &&& r->Ok_0@ == crate::store::assemble(final(self)@, row)
            },
    {
        if crate::utils::validate_input(&category).is_err() {
            return Err(CategoryError::InvalidUrl);
        }
        proof {
            lemma_find_ap_has(self@, category@.ap_id);
        }
        if self.find_by_ap(&category.ap_id).is_some() || self.has_id_scan(id) {
            return Err(CategoryError::UniqueConstraintViolation);
        }
        let row = StoredCategory {
            id,
            ap_id: category.ap_id,
            name: category.name,
            sub_categories: category.sub_categories,
            image_url: category.image_url,
            parent_id: category.parent_id,
            created_at: now,
            updated_at: now,
            local: category.local,
        };
        let kept = row.clone();
        self.insert_row(row);
        let assembled = self.assemble_row(&kept);
        Ok(assembled)
    }

    /// Upserts a category, keyed on its external id. Validation and the
    /// numeric-id collision reject the write unchanged; otherwise a row
    /// already carrying the external id is replaced in place — keeping its
    /// creation timestamp, taking the fresh numeric id and `now` as its
    /// update time — and a new external id is inserted as a create would.
    /// Either way the assembled entity of the written row is returned.
    pub fn upsert(&mut self, category: crate::entity::NewCategory, id: u64, now: u64) -> (r:
        Result<crate::entity::Category, CategoryError>)
        requires
            old(self).wf(),
        ensures
            final(self).wf(),
            !crate::utils::valid_refs(category@) ==> r == Err::<
                crate::entity::Category,
                CategoryError,
            >(CategoryError::InvalidUrl) && final(self)@ == old(self)@,
            crate::utils::valid_refs(category@) && id_conflict(old(self)@, category@.ap_id, id)
                ==> r == Err::<crate::entity::Category, CategoryError>(
                CategoryError::UniqueConstraintViolation,
            ) && final(self)@ == old(self)@,
            crate::utils::valid_refs(category@) && !id_conflict(old(self)@, category@.ap_id, id)
                ==> {
                let created_at = match find_ap(old(self)@, category@.ap_id) {
                    Some(existing) => existing.created_at,
                    None => now,
                };
                let row = new_row_view(category@, id, created_at, now);
                &&& final(self)@ == insert_sorted_spec(
                    remove_ap_spec(old(self)@, category@.ap_id),
                    row,
                )
                &&& r is Ok
                &&& r->Ok_0@ == crate::store::assemble(final(self)@, row)
            },
    {
        if crate::utils::validate_input(&category).is_err() {
            return Err(CategoryError::InvalidUrl);
        }
        if self.id_conflict_scan(&category.ap_id, id) {
            return Err(CategoryError::UniqueConstraintViolation);
        }
        let created_at = match self.find_by_ap(&category.ap_id) {
            Some(existing) => existing.created_at,
            None => now,
        };
        self.delete(&category.ap_id);
        proof {
            // No surviving row carries the numeric id: one that did would
            // carry a different external id and be the collision rejected
            // above.
            if has_id(self@, id) {
                let k = choose|k: int| 0 <= k < self@.len() && (#[trigger] self@[k]).id == id;
                old(self)@.lemma_filter_pred(keep_ap_pred(category@.ap_id), k);
                lemma_filter_table_wf(old(self)@, keep_ap_pred(category@.ap_id));
                assert(old(self)@.contains(self@[k]));
                let w = choose|w: int|
                    0 <= w < old(self)@.len() && old(self)@[w] == self@[k];
                assert(id_conflict(old(self)@, category@.ap_id, id));
            }
        }
        let row = StoredCategory {
            id,
            ap_id: category.ap_id,
            name: category.name,
            sub_categories: category.sub_categories,
            image_url: category.image_url,
            parent_id: category.parent_id,
            created_at,
            updated_at: now,
            local: category.local,
        };
        let kept = row.clone();
        self.insert_row(row);
        let assembled = self.assemble_row(&kept);
        Ok(assembled)
    }
}


/// The predicate of rows strictly before a key.
pub open spec fn key_lt_pred(key: SortKey) -> spec_fn(StoredCategoryView) -> bool {
    |c: StoredCategoryView| key_before(c, key)
}

/// The predicate of rows strictly after a key.
pub open spec fn key_gt_pred(key: SortKey) -> spec_fn(StoredCategoryView) -> bool {
    |c: StoredCategoryView| key_after(c, key)
}

/// A filter that keeps no element leaves nothing.
pub(crate) proof fn lemma_filter_drop_all<A>(s: Seq<A>, pred: spec_fn(A) -> bool)
    requires
        forall|i: int| 0 <= i < s.len() ==> !pred(#[trigger] s[i]),
    ensures
        s.filter(pred) == Seq::<A>::empty(),
    decreases s.len(),
{
    reveal(Seq::filter);
    if s.len() > 0 {
        lemma_filter_drop_all(s.drop_last(), pred);
    }
}

/// In a strictly sorted sequence, the rows strictly before the key of the
/// element at `i` are exactly the first `i` elements.
pub proof fn lemma_sorted_filter_lt(w: Seq<StoredCategoryView>, i: int)
    requires
        sorted_strict(w),
        0 <= i < w.len(),
    ensures
        w.filter(key_lt_pred(key_of(w[i]))) == w.take(i),
    decreases w.len(),
{
    reveal(Seq::filter);
    let pred = key_lt_pred(key_of(w[i]));
    let rest = w.drop_last();
    if w.len() > 0 {
        assert(sorted_strict(rest)) by {
            assert forall|a: int, b: int|
                0 <= a < b < rest.len() implies #[trigger] sort_key_lt(
                key_of(rest[a]),
                key_of(rest[b]),
            ) by {
                assert(rest[a] == w[a] && rest[b] == w[b]);
            }
        }
        if i == w.len() - 1 {
            assert(!pred(w.last()));
            assert forall|j: int| 0 <= j < rest.len() implies pred(#[trigger] rest[j]) by {
                assert(rest[j] == w[j]);
                assert(sort_key_lt(key_of(w[j]), key_of(w[i])));
            }
            lemma_filter_keep_all(rest, pred);
            assert(rest =~= w.take(i));
        } else {
            assert(!pred(w.last())) by {
                assert(sort_key_lt(key_of(w[i]), key_of(w[w.len() - 1])));
            }
            assert(rest[i] == w[i]);
            lemma_sorted_filter_lt(rest, i);
            assert(rest.take(i) =~= w.take(i));
        }
    }
}

/// In a strictly sorted sequence, the rows strictly after the key of the
/// element at `i` are exactly the elements past `i`.
pub proof fn lemma_sorted_filter_gt(w: Seq<StoredCategoryView>, i: int)
    requires
        sorted_strict(w),
        0 <= i < w.len(),
    ensures
        w.filter(key_gt_pred(key_of(w[i]))) == w.skip(i + 1),
    decreases w.len(),
{
    reveal(Seq::filter);
    let pred = key_gt_pred(key_of(w[i]));
    let rest = w.drop_last();
    if i == w.len() - 1 {
        assert forall|j: int| 0 <= j < w.len() implies !pred(#[trigger] w[j]) by {
            if j < i {
                assert(sort_key_lt(key_of(w[j]), key_of(w[i])));
            }
        }
        lemma_filter_drop_all(w, pred);
        assert(w.skip(i + 1) =~= Seq::<StoredCategoryView>::empty());
    } else {
        assert(sorted_strict(rest)) by {
            assert forall|a: int, b: int|
                0 <= a < b < rest.len() implies #[trigger] sort_key_lt(
                key_of(rest[a]),
                key_of(rest[b]),
            ) by {
                assert(rest[a] == w[a] && rest[b] == w[b]);
            }
        }
        assert(rest[i] == w[i]);
        lemma_sorted_filter_gt(rest, i);
        assert(pred(w.last())) by {
            assert(sort_key_lt(key_of(w[i]), key_of(w[w.len() - 1])));
        }
        assert(w.filter(pred) == rest.filter(pred).push(w.last()));
        assert(rest.skip(i + 1).push(w.last()) =~= w.skip(i + 1));
    }
}

} // verus!
