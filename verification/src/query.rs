//! The row aggregator and the paginated read pipeline.
//!
//! A range scan hands back flat join rows: one row per `(category,
//! sub-item)` pairing, or a single row with empty sub-item columns for a
//! category without sub-items. The aggregator folds those rows into one
//! entity per distinct external id, preserving the order in which each id
//! is first seen and appending sub-items in row arrival order.

use vstd::prelude::*;

use crate::codec::{decode_cursor, decoded_cursor};
use crate::entity::{
    clone_opt_string, opt_view, Category, CategoryDetailed, CategoryDetailedView, CategoryView,
    SubCategory, SubCategoryView,
};
use crate::error::CategoryError;
use crate::pagination::{
    assembled_connection, parse_categories, query_count, Connection, ConnectionView, CursorValue,
    CursorValueView, Index, PageRequest, PageRequestView,
};
use crate::store::{
    after_pred, assemble, before_pred, distinct_aps, eligible, find_ap, lemma_filter_table_wf,
    prefix, resolve_subs, scope_pred, table_wf, window_after, window_before, SortKey, Store,
    StoredCategory, StoredCategoryView,
};

verus! {

/// One join row for a stored category: its own columns plus one optional
/// sub-item projection.
pub open spec fn row_view_of(
    c: StoredCategoryView,
    sub_name: Option<Seq<char>>,
    sub_ap: Option<Seq<char>>,
) -> CategoryDetailedView {
    CategoryDetailedView {
        id: c.id,
        name: c.name,
        sub_category_name: sub_name,
        sub_category_ap_id: sub_ap,
        image_url: c.image_url,
        parent_id: c.parent_id,
        created_at: c.created_at,
        updated_at: c.updated_at,
        ap_id: c.ap_id,
        local: c.local,
    }
}

/// The join rows of one stored category: one row per resolved sub-item
/// reference, or a single row with empty sub-item columns when none
/// resolves.
pub open spec fn rows_of(s: Seq<StoredCategoryView>, c: StoredCategoryView) -> Seq<
    CategoryDetailedView,
> {
    let subs = resolve_subs(s, c.sub_categories);
    if subs.len() == 0 {
        seq![row_view_of(c, None, None)]
    } else {
        subs.map_values(|sub: SubCategoryView| row_view_of(c, Some(sub.name), Some(sub.ap_id)))
    }
}

/// The flat row set of a scanned window, in window order.
pub open spec fn expand_rows_spec(s: Seq<StoredCategoryView>, w: Seq<StoredCategoryView>) -> Seq<
    CategoryDetailedView,
>
    decreases w.len(),
{
    if w.len() == 0 {
        Seq::empty()
    } else {
        expand_rows_spec(s, w.drop_last()) + rows_of(s, w.last())
    }
}

/// The index of the first aggregated entity carrying this external id, or
/// -1 when there is none.
pub open spec fn agg_find(acc: Seq<CategoryView>, ap: Seq<char>) -> int
    decreases acc.len(),
{
    if acc.len() == 0 {
        -1
    } else if acc[0].ap_id == ap {
        0
    } else {
        let r = agg_find(acc.skip(1), ap);
        if r == -1 {
            -1
        } else {
            r + 1
        }
    }
}

/// The sub-item projection a row carries, when its sub-item columns are
/// filled.
pub open spec fn row_sub(row: CategoryDetailedView) -> Option<SubCategoryView> {
    match (row.sub_category_name, row.sub_category_ap_id) {
        (Some(n), Some(a)) => Some(SubCategoryView { name: n, ap_id: a }),
        _ => None,
    }
}

/// A category entity with the fields of one row and the given sub-items.
pub open spec fn cat_of_row(row: CategoryDetailedView, subs: Seq<SubCategoryView>) -> CategoryView {
    CategoryView {
        id: row.id,
        name: row.name,
        sub_categories: subs,
        image_url: row.image_url,
        parent_id: row.parent_id,
        created_at: row.created_at,
        updated_at: row.updated_at,
        ap_id: row.ap_id,
        local: row.local,
    }
}

/// An aggregated entity with one more sub-item.
pub open spec fn cat_push_sub(c: CategoryView, sub: SubCategoryView) -> CategoryView {
    CategoryView {
        id: c.id,
        name: c.name,
        sub_categories: c.sub_categories.push(sub),
        image_url: c.image_url,
        parent_id: c.parent_id,
        created_at: c.created_at,
        updated_at: c.updated_at,
        ap_id: c.ap_id,
        local: c.local,
    }
}

/// One fold step of the aggregator. A row whose external id is already
/// aggregated appends its sub-item, if any, to that entity; any other row
/// starts a new entity at the end.
pub open spec fn agg_step(acc: Seq<CategoryView>, row: CategoryDetailedView) -> Seq<CategoryView> {
    let j = agg_find(acc, row.ap_id);
    if j >= 0 {
        match row_sub(row) {
            Some(sub) => acc.update(j, cat_push_sub(acc[j], sub)),
            None => acc,
        }
    } else {
        acc.push(
            cat_of_row(
                row,
                match row_sub(row) {
                    Some(sub) => seq![sub],
                    None => Seq::empty(),
                },
            ),
        )
    }
}

/// The aggregation of a flat row set, folding rows in arrival order.
pub open spec fn aggregate_spec(rows: Seq<CategoryDetailedView>) -> Seq<CategoryView>
    decreases rows.len(),
{
    if rows.len() == 0 {
        Seq::empty()
    } else {
        agg_step(aggregate_spec(rows.drop_last()), rows.last())
    }
}

/// The find function names either nothing or a valid index whose entity
/// carries the id.
proof fn lemma_agg_find_props(acc: Seq<CategoryView>, ap: Seq<char>)
    ensures
        agg_find(acc, ap) == -1 || (0 <= agg_find(acc, ap) < acc.len() && acc[agg_find(
            acc,
            ap,
        )].ap_id == ap),
    decreases acc.len(),
{
    if acc.len() > 0 && acc[0].ap_id != ap {
        lemma_agg_find_props(acc.skip(1), ap);
    }
}

/// When the first aggregated entity carrying the id stands at `i`, the
/// find function names that index.
proof fn lemma_agg_find_at(acc: Seq<CategoryView>, ap: Seq<char>, i: int)
    requires
        0 <= i < acc.len(),
        acc[i].ap_id == ap,
        forall|j: int| 0 <= j < i ==> (#[trigger] acc[j]).ap_id != ap,
    ensures
        agg_find(acc, ap) == i,
    decreases i,
{
    if i > 0 {
        lemma_agg_find_at(acc.skip(1), ap, i - 1);
    }
}

/// When no aggregated entity carries the id, the find function reports
/// none.
proof fn lemma_agg_find_none(acc: Seq<CategoryView>, ap: Seq<char>)
    requires
        forall|j: int| 0 <= j < acc.len() ==> (#[trigger] acc[j]).ap_id != ap,
    ensures
        agg_find(acc, ap) == -1,
    decreases acc.len(),
{
    if acc.len() > 0 {
        lemma_agg_find_none(acc.skip(1), ap);
    }
}

/// Extending the folded row prefix by one row is one fold step.
proof fn lemma_aggregate_step(rows: Seq<CategoryDetailedView>, i: int)
    requires
        0 <= i < rows.len(),
    ensures
        aggregate_spec(rows.take(i + 1)) == agg_step(aggregate_spec(rows.take(i)), rows[i]),
{
    assert(rows.take(i + 1).drop_last() =~= rows.take(i));
    assert(rows.take(i + 1).last() == rows[i]);
}

/// A fold step never shrinks the aggregation, so a non-empty row set
/// aggregates into at least one entity: the state the error taxonomy
/// treats as a defect is unreachable.
pub proof fn lemma_aggregate_nonempty(rows: Seq<CategoryDetailedView>)
    requires
        rows.len() > 0,
    ensures
        aggregate_spec(rows).len() > 0,
    decreases rows.len(),
{
    let acc = aggregate_spec(rows.drop_last());
    let row = rows.last();
    if rows.drop_last().len() > 0 {
        lemma_aggregate_nonempty(rows.drop_last());
    } else {
        assert(acc == Seq::<CategoryView>::empty());
        assert(agg_find(acc, row.ap_id) == -1);
    }
    assert(aggregate_spec(rows) == agg_step(acc, row));
    lemma_agg_find_props(acc, row.ap_id);
    let j = agg_find(acc, row.ap_id);
    if j >= 0 {
        match row_sub(row) {
            Some(sub) => {
                assert(agg_step(acc, row).len() == acc.len());
            },
            None => {},
        }
    } else {
        assert(agg_step(acc, row).len() == acc.len() + 1);
    }
}

/// A category entity with the base fields of a stored row and the given
/// sub-items. [`assemble`] is this with the row's references resolved.
pub open spec fn cat_partial(c: StoredCategoryView, subs: Seq<SubCategoryView>) -> CategoryView {
    CategoryView {
        id: c.id,
        name: c.name,
        sub_categories: subs,
        image_url: c.image_url,
        parent_id: c.parent_id,
        created_at: c.created_at,
        updated_at: c.updated_at,
        ap_id: c.ap_id,
        local: c.local,
    }
}

/// Folding the first `j` join rows of one category onto an aggregation
/// that does not yet carry its external id starts one new entity holding
/// the first `j` resolved sub-items.
proof fn lemma_aggregate_append_subs(
    s: Seq<StoredCategoryView>,
    rows: Seq<CategoryDetailedView>,
    c: StoredCategoryView,
    j: int,
)
    requires
        resolve_subs(s, c.sub_categories).len() > 0,
        1 <= j <= resolve_subs(s, c.sub_categories).len(),
        forall|k: int|
            0 <= k < aggregate_spec(rows).len() ==> (#[trigger] aggregate_spec(
                rows,
            )[k]).ap_id != c.ap_id,
    ensures
        aggregate_spec(rows + rows_of(s, c).take(j)) == aggregate_spec(rows).push(
            cat_partial(c, resolve_subs(s, c.sub_categories).take(j)),
        ),
    decreases j,
{
    let subs = resolve_subs(s, c.sub_categories);
    let t = rows_of(s, c);
    let acc = aggregate_spec(rows);
    if j == 1 {
        let whole = rows + t.take(1);
        assert(whole.drop_last() =~= rows);
        assert(whole.last() == t[0]);
        assert(aggregate_spec(whole) == agg_step(acc, t[0]));
        lemma_agg_find_none(acc, c.ap_id);
        assert(t[0] == row_view_of(c, Some(subs[0].name), Some(subs[0].ap_id)));
        assert(row_sub(t[0]) == Some(subs[0]));
        assert(seq![subs[0]] =~= subs.take(1));
        assert(cat_of_row(t[0], seq![subs[0]]) == cat_partial(c, subs.take(1)));
    } else {
        lemma_aggregate_append_subs(s, rows, c, j - 1);
        let prev = rows + t.take(j - 1);
        let whole = rows + t.take(j);
        let acc_prev = acc.push(cat_partial(c, subs.take(j - 1)));
        assert(whole.drop_last() =~= prev);
        assert(whole.last() == t[j - 1]);
        assert(aggregate_spec(whole) == agg_step(acc_prev, t[j - 1]));
        assert(t[j - 1] == row_view_of(c, Some(subs[j - 1].name), Some(subs[j - 1].ap_id)));
        assert(row_sub(t[j - 1]) == Some(subs[j - 1]));
        lemma_agg_find_at(acc_prev, c.ap_id, acc.len() as int);
        let updated = cat_push_sub(acc_prev[acc.len() as int], subs[j - 1]);
        assert(subs.take(j - 1).push(subs[j - 1]) =~= subs.take(j));
        assert(updated == cat_partial(c, subs.take(j)));
        assert(acc_prev.update(acc.len() as int, updated) =~= acc.push(
            cat_partial(c, subs.take(j)),
        ));
    }
}

/// Folding all join rows of one category onto an aggregation that does not
/// yet carry its external id appends exactly that category's assembled
/// entity.
proof fn lemma_aggregate_append_cat(
    s: Seq<StoredCategoryView>,
    rows: Seq<CategoryDetailedView>,
    c: StoredCategoryView,
)
    requires
        forall|k: int|
            0 <= k < aggregate_spec(rows).len() ==> (#[trigger] aggregate_spec(
                rows,
            )[k]).ap_id != c.ap_id,
    ensures
        aggregate_spec(rows + rows_of(s, c)) == aggregate_spec(rows).push(assemble(s, c)),
{
    let subs = resolve_subs(s, c.sub_categories);
    let t = rows_of(s, c);
    let acc = aggregate_spec(rows);
    if subs.len() == 0 {
        let row0 = row_view_of(c, None, None);
        let whole = rows + t;
        assert(whole.drop_last() =~= rows);
        assert(whole.last() == row0);
        assert(aggregate_spec(whole) == agg_step(acc, row0));
        lemma_agg_find_none(acc, c.ap_id);
        assert(row_sub(row0) is None);
        assert(cat_of_row(row0, Seq::<SubCategoryView>::empty()) == assemble(s, c)) by {
            assert(Seq::<SubCategoryView>::empty() =~= subs);
        }
    } else {
        lemma_aggregate_append_subs(s, rows, c, subs.len() as int);
        assert(t.take(t.len() as int) =~= t);
        assert(subs.take(subs.len() as int) =~= subs);
        assert(cat_partial(c, subs) == assemble(s, c));
    }
}

/// Assembly against a table, as a function of the stored row.
pub open spec fn assemble_fn(s: Seq<StoredCategoryView>) -> spec_fn(StoredCategoryView) -> CategoryView {
    |c: StoredCategoryView| assemble(s, c)
}

/// Aggregating the expanded join rows of a window whose external ids are
/// pairwise distinct reproduces the window's assembled entities, in window
/// order: expansion loses nothing and the aggregator duplicates nothing.
pub proof fn lemma_aggregate_expand(s: Seq<StoredCategoryView>, w: Seq<StoredCategoryView>)
    requires
        crate::store::distinct_aps(w),
    ensures
        aggregate_spec(expand_rows_spec(s, w)) == w.map_values(assemble_fn(s)),
    decreases w.len(),
{
    let f = assemble_fn(s);
    if w.len() == 0 {
        assert(w.map_values(f) =~= Seq::<CategoryView>::empty());
    } else {
        let wp = w.drop_last();
        let c = w.last();
        assert(crate::store::distinct_aps(wp)) by {
            assert forall|i: int, j: int|
                #![trigger wp[i].ap_id, wp[j].ap_id]
                0 <= i < j < wp.len() implies wp[i].ap_id != wp[j].ap_id by {
                assert(wp[i] == w[i] && wp[j] == w[j]);
                assert(w[i].ap_id != w[j].ap_id);
            }
        }
        lemma_aggregate_expand(s, wp);
        let agg_prev = aggregate_spec(expand_rows_spec(s, wp));
        assert forall|k: int| 0 <= k < agg_prev.len() implies (#[trigger] agg_prev[k]).ap_id
            != c.ap_id by {
            assert(agg_prev[k] == wp.map_values(f)[k]);
            assert(wp.map_values(f)[k] == f(wp[k]));
            assert(wp[k].ap_id != w[w.len() - 1].ap_id) by {
                assert(wp[k] == w[k]);
            }
        }
        lemma_aggregate_append_cat(s, expand_rows_spec(s, wp), c);
        assert(expand_rows_spec(s, w) == expand_rows_spec(s, wp) + rows_of(s, c));
        assert(wp.map_values(f).push(f(c)) =~= w.map_values(f)) by {
            assert forall|k: int| 0 <= k < w.len() implies w.map_values(f)[k] == wp.map_values(
                f,
            ).push(f(c))[k] by {
                if k < w.len() - 1 {
                    assert(wp[k] == w[k]);
                    assert(wp.map_values(f)[k] == f(wp[k]));
                }
            }
        }
    }
}

/// Builds one join row from a stored category and an optional sub-item
/// projection.
fn make_row(c: &StoredCategory, sub_name: Option<String>, sub_ap: Option<String>) -> (r:
    CategoryDetailed)
    ensures
        r@ == row_view_of(c@, opt_view(sub_name), opt_view(sub_ap)),
{
    CategoryDetailed {
        id: c.id,
        name: c.name.clone(),
        sub_category_name: sub_name,
        sub_category_ap_id: sub_ap,
        image_url: clone_opt_string(&c.image_url),
        parent_id: clone_opt_string(&c.parent_id),
        created_at: c.created_at,
        updated_at: c.updated_at,
        ap_id: c.ap_id.clone(),
        local: c.local,
    }
}

impl Store {
    /// Resolves a sub-item reference list against the table, in list
    /// order, dropping references that name no stored row.
    #[verifier::loop_isolation(false)]
    pub fn resolve_subs_list(&self, refs: &Vec<String>) -> (r: Vec<SubCategory>)
        ensures
            r@.map_values(|x: SubCategory| x@) == resolve_subs(
                self@,
                refs@.map_values(|s: String| s@),
            ),
    {
        let ghost refs_v = refs@.map_values(|s: String| s@);
        let mut out: Vec<SubCategory> = Vec::new();
        let mut i: usize = 0;
        proof {
            assert(refs_v.take(0) =~= Seq::<Seq<char>>::empty());
        }
        while i < refs.len()
            invariant
                0 <= i <= refs@.len() == refs_v.len(),
                out@.map_values(|x: SubCategory| x@) == resolve_subs(self@, refs_v.take(i as int)),
            decreases refs@.len() - i,
        {
            proof {
                assert(refs_v.take(i + 1).drop_last() =~= refs_v.take(i as int));
                assert(refs_v.take(i + 1).last() == refs_v[i as int]);
                assert(refs_v[i as int] == refs@[i as int]@);
            }
            match self.find_by_ap(&refs[i]) {
                Some(row) => {
                    out.push(SubCategory { name: row.name.clone(), ap_id: row.ap_id.clone() });
                    proof {
                        assert(out@.map_values(|x: SubCategory| x@) =~= resolve_subs(
                            self@,
                            refs_v.take(i + 1),
                        ));
                    }
                },
                None => {
                    proof {
                        assert(out@.map_values(|x: SubCategory| x@) =~= resolve_subs(
                            self@,
                            refs_v.take(i + 1),
                        ));
                    }
                },
            }
            i = i + 1;
        }
        proof {
            assert(refs_v.take(refs_v.len() as int) =~= refs_v);
        }
        out
    }

    /// Expands a scanned window into its flat join row set, in window
    /// order: the shape the range scan hands to the aggregator.
    #[verifier::loop_isolation(false)]
    pub fn expand(&self, window: &Vec<StoredCategory>) -> (r: Vec<CategoryDetailed>)
        ensures
            r@.map_values(|x: CategoryDetailed| x@) == expand_rows_spec(
                self@,
                window@.map_values(|c: StoredCategory| c@),
            ),
    {
        let ghost w = window@.map_values(|c: StoredCategory| c@);
        let mut rows: Vec<CategoryDetailed> = Vec::new();
        let mut i: usize = 0;
        proof {
            assert(w.take(0) =~= Seq::<StoredCategoryView>::empty());
        }
        while i < window.len()
            invariant
                0 <= i <= window@.len() == w.len(),
                rows@.map_values(|x: CategoryDetailed| x@) == expand_rows_spec(
                    self@,
                    w.take(i as int),
                ),
            decreases window@.len() - i,
        {
            let c = &window[i];
            proof {
                assert(w.take(i + 1).drop_last() =~= w.take(i as int));
                assert(w.take(i + 1).last() == w[i as int]);
                assert(c@ == w[i as int]);
            }
            let ghost target = rows@.map_values(|x: CategoryDetailed| x@) + rows_of(
                self@,
                w[i as int],
            );
            let subs = self.resolve_subs_list(&c.sub_categories);
            let ghost subs_v = resolve_subs(self@, w[i as int].sub_categories);
            if subs.len() == 0 {
                rows.push(make_row(c, None, None));
                proof {
                    assert(subs_v.len() == 0);
                    assert(rows@.map_values(|x: CategoryDetailed| x@) =~= target);
                }
            } else {
                let mut si: usize = 0;
                while si < subs.len()
                    invariant
                        0 <= si <= subs@.len() == subs_v.len(),
                        subs_v.len() > 0,
                        rows@.map_values(|x: CategoryDetailed| x@) == expand_rows_spec(
                            self@,
                            w.take(i as int),
                        ) + rows_of(self@, w[i as int]).take(si as int),
                    decreases subs@.len() - si,
                {
                    let sub = &subs[si];
                    proof {
                        assert(sub@ == subs_v[si as int]);
                        assert(rows_of(self@, w[i as int])[si as int] == row_view_of(
                            w[i as int],
                            Some(subs_v[si as int].name),
                            Some(subs_v[si as int].ap_id),
                        ));
                    }
                    let new_row = make_row(c, Some(sub.name.clone()), Some(sub.ap_id.clone()));
                    let ghost new_row_g: CategoryDetailed = new_row;
                    let ghost pre_rows = rows@;
                    rows.push(new_row);
                    proof {
                        pre_rows.lemma_push_map_commute(|x: CategoryDetailed| x@, new_row_g);
                        let rof = rows_of(self@, w[i as int]);
                        assert(rof.take(si + 1) =~= rof.take(si as int).push(rof[si as int]));
                        assert(rows@.map_values(|x: CategoryDetailed| x@) =~= expand_rows_spec(
                            self@,
                            w.take(i as int),
                        ) + rof.take(si + 1));
                    }
                    si = si + 1;
                }
                proof {
                    let rof = rows_of(self@, w[i as int]);
                    assert(rof.take(rof.len() as int) =~= rof);
                }
            }
            i = i + 1;
        }
        proof {
            assert(w.take(w.len() as int) =~= w);
        }
        rows
    }
}

/// Folds a flat row set into one aggregate entity per distinct external
/// id: first-seen order for entities, row arrival order for each entity's
/// sub-items. The result is exactly [`aggregate_spec`] of the rows.
#[verifier::loop_isolation(false)]
pub fn prepare_categories(category: Vec<CategoryDetailed>) -> (r: Vec<Category>)
    ensures
        r@.map_values(|c: Category| c@) == aggregate_spec(
            category@.map_values(|x: CategoryDetailed| x@),
        ),
{
    let ghost rows_v = category@.map_values(|x: CategoryDetailed| x@);
    let mut out: Vec<Category> = Vec::new();
    let mut i: usize = 0;
    proof {
        assert(rows_v.take(0) =~= Seq::<CategoryDetailedView>::empty());
    }
    while i < category.len()
        invariant
            0 <= i <= category@.len() == rows_v.len(),
            out@.map_values(|c: Category| c@) == aggregate_spec(rows_v.take(i as int)),
        decreases category@.len() - i,
    {
        let row = &category[i];
        let ghost acc = out@.map_values(|c: Category| c@);
        proof {
            lemma_aggregate_step(rows_v, i as int);
            assert(row@ == rows_v[i as int]);
        }

        // Find the entity this row belongs to, if it was already started.
        let mut j: usize = 0;
        let mut found = false;
        while j < out.len() && !found
            invariant
                0 <= j <= out@.len(),
                !found ==> forall|k: int| 0 <= k < j ==> (#[trigger] acc[k]).ap_id != row@.ap_id,
                found ==> j < out@.len() && acc[j as int].ap_id == row@.ap_id && forall|k: int|
                    0 <= k < j ==> (#[trigger] acc[k]).ap_id != row@.ap_id,
                acc == out@.map_values(|c: Category| c@),
            decreases out@.len() - j, (if found { 0int } else { 1int }),
        {
            if out[j].ap_id == row.ap_id {
                found = true;
            } else {
                proof {
                    assert(acc[j as int].ap_id == out@[j as int]@.ap_id);
                }
                j = j + 1;
            }
        }

        if found {
            proof {
                lemma_agg_find_at(acc, row@.ap_id, j as int);
            }
            match (&row.sub_category_name, &row.sub_category_ap_id) {
                (Some(n), Some(a)) => {
                    let sub_new = SubCategory { name: n.clone(), ap_id: a.clone() };
                    let ghost sub_new_g: SubCategory = sub_new;
                    let ghost pre = out@;
                    let mut cat = out.remove(j);
                    let ghost subs0 = cat.sub_categories@;
                    cat.sub_categories.push(sub_new);
                    let ghost cat_g: Category = cat;
                    out.insert(j, cat);
                    proof {
                        subs0.lemma_push_map_commute(|s: SubCategory| s@, sub_new_g);
                        assert(cat_g@ == cat_push_sub(acc[j as int], row_sub(row@)->0)) by {
                            assert(acc[j as int] == pre[j as int]@);
                            assert(sub_new_g@ == row_sub(row@)->0);
                            assert(cat_g.sub_categories@ =~= subs0.push(sub_new_g));
                        }
                        assert(out@ =~= pre.update(j as int, cat_g));
                        assert(out@.map_values(|c: Category| c@) =~= acc.update(
                            j as int,
                            cat_g@,
                        ));
                    }
                },
                _ => {
                    proof {
                        assert(row_sub(row@) is None);
                    }
                },
            }
        } else {
            proof {
                lemma_agg_find_none(acc, row@.ap_id);
            }
            let sub_list = match (&row.sub_category_name, &row.sub_category_ap_id) {
                (Some(n), Some(a)) => {
                    let mut v: Vec<SubCategory> = Vec::new();
                    v.push(SubCategory { name: n.clone(), ap_id: a.clone() });
                    v
                },
                _ => Vec::new(),
            };
            let cat = Category {
                id: row.id,
                name: row.name.clone(),
                sub_categories: sub_list,
                image_url: clone_opt_string(&row.image_url),
                parent_id: clone_opt_string(&row.parent_id),
                created_at: row.created_at,
                updated_at: row.updated_at,
                ap_id: row.ap_id.clone(),
                local: row.local,
            };
            out.push(cat);
            proof {
                assert(out@.map_values(|c: Category| c@) =~= agg_step(acc, row@)) by {
                    match row_sub(row@) {
                        Some(sub) => {
                            assert(out@.last()@.sub_categories =~= seq![sub]);
                        },
                        None => {
                            assert(out@.last()@.sub_categories =~= Seq::<SubCategoryView>::empty());
                        },
                    }
                }
            }
        }
        i = i + 1;
    }
    proof {
        assert(rows_v.take(rows_v.len() as int) =~= rows_v);
    }
    out
}

/// Folds a row set that is owed to describe exactly one entity. An empty
/// row set aggregates into nothing and is rejected as
/// `AmbiguousAggregation`; any other yields the first aggregated entity.
pub fn prepare_single_category(category: Vec<CategoryDetailed>) -> (r: Result<
    Category,
    CategoryError,
>)
    ensures
        match r {
            Ok(c) => category@.len() > 0 && c@ == aggregate_spec(
                category@.map_values(|x: CategoryDetailed| x@),
            )[0],
            Err(e) => category@.len() == 0 && e == CategoryError::AmbiguousAggregation,
        },
{
    let ghost rows_v = category@.map_values(|x: CategoryDetailed| x@);
    proof {
        if rows_v.len() > 0 {
            lemma_aggregate_nonempty(rows_v);
        }
    }
    let mut cats = prepare_categories(category);
    if cats.len() == 0 {
        proof {
            if rows_v.len() > 0 {
                assert(false);
            }
        }
        Err(CategoryError::AmbiguousAggregation)
    } else {
        proof {
            if rows_v.len() == 0 {
                assert(aggregate_spec(rows_v).len() == 0);
            }
        }
        let ghost pre = cats@;
        let first = cats.remove(0);
        proof {
            assert(pre.map_values(|c: Category| c@)[0] == pre[0]@);
            assert(first@ == aggregate_spec(rows_v)[0]);
        }
        Ok(first)
    }
}

/// A bounded prefix of a sequence with pairwise distinct external ids, in
/// either direction, keeps them pairwise distinct.
proof fn lemma_prefix_distinct(f: Seq<StoredCategoryView>, n: int)
    requires
        distinct_aps(f),
    ensures
        distinct_aps(prefix(f, n)),
        distinct_aps(prefix(f.reverse(), n)),
{
    let p = prefix(f, n);
    assert forall|i: int, j: int|
        #![trigger p[i].ap_id, p[j].ap_id]
        0 <= i < j < p.len() implies p[i].ap_id != p[j].ap_id by {
        assert(p[i] == f[i] && p[j] == f[j]);
        assert(f[i].ap_id != f[j].ap_id);
    }
    let q = prefix(f.reverse(), n);
    assert forall|i: int, j: int|
        #![trigger q[i].ap_id, q[j].ap_id]
        0 <= i < j < q.len() implies q[i].ap_id != q[j].ap_id by {
        assert(q[i] == f[f.len() - 1 - i] && q[j] == f[f.len() - 1 - j]);
        assert(f[f.len() - 1 - j].ap_id != f[f.len() - 1 - i].ap_id);
    }
}

/// The requested count, silently capped at the configured maximum.
pub open spec fn clamped(ix: Index, max: u32) -> u32 {
    if crate::pagination::index_count(ix) <= max {
        crate::pagination::index_count(ix)
    } else {
        max
    }
}

/// The page owed for one scanned arrival window: its entities assembled
/// against the table, trimmed, ordered and stamped by the connection
/// assembler.
pub open spec fn conn_spec(
    s: Seq<StoredCategoryView>,
    arrival: Seq<StoredCategoryView>,
    left: bool,
    n: int,
    opposite: int,
) -> ConnectionView {
    assembled_connection(arrival.map_values(assemble_fn(s)), left, n, opposite)
}

/// What a listing request owes over the table `s` and the scope `parent`.
///
/// With no index selector the request is a caller error. Otherwise the
/// requested count is clamped to `max` and one more row than that is
/// scanned, the sentinel that detects a further page:
/// - no cursor, `First`: the first eligible rows, scanning forward;
/// - no cursor, `Last`: the last eligible rows, scanning backward;
/// - an `after` cursor: eligible rows strictly after the decoded key,
///   scanning forward, with the count of rows strictly before the key as
///   the opposite-side count;
/// - a `before` cursor: eligible rows strictly before the key, scanning
///   backward, with the count of rows strictly after the key as the
///   opposite-side count.
/// A cursor that does not decode is a caller error.
pub open spec fn expected_listing(
    s: Seq<StoredCategoryView>,
    parent: Option<Seq<char>>,
    p: PageRequestView,
    max: u32,
) -> Result<ConnectionView, CategoryError> {
    match p.index {
        None => Err(CategoryError::MissingPaginationIndex),
        Some(ix) => {
            let n = clamped(ix, max) as int;
            let w = eligible(s, parent);
            match p.cursor_value {
                None => match ix {
                    Index::First(_) => Ok(conn_spec(s, prefix(w, n + 1), true, n, 0)),
                    Index::Last(_) => Ok(conn_spec(s, prefix(w.reverse(), n + 1), false, n, 0)),
                },
                Some(CursorValueView::After(tok)) => match decoded_cursor(tok) {
                    None => Err(CategoryError::InvalidCursor),
                    Some(k) => {
                        let key = SortKey { created_at: k.1, id: k.0 };
                        Ok(
                            conn_spec(
                                s,
                                prefix(window_after(s, parent, key), n + 1),
                                true,
                                n,
                                window_before(s, parent, key).len() as int,
                            ),
                        )
                    },
                },
                Some(CursorValueView::Before(tok)) => match decoded_cursor(tok) {
                    None => Err(CategoryError::InvalidCursor),
                    Some(k) => {
                        let key = SortKey { created_at: k.1, id: k.0 };
                        Ok(
                            conn_spec(
                                s,
                                prefix(window_before(s, parent, key).reverse(), n + 1),
                                false,
                                n,
                                window_after(s, parent, key).len() as int,
                            ),
                        )
                    },
                },
            }
        },
    }
}

impl Store {
    /// Assembles the aggregate entity of one stored row through the real
    /// pipeline: expand its join rows, then fold them back together.
    pub fn assemble_row(&self, row: &StoredCategory) -> (r: Category)
        ensures
            r@ == assemble(self@, row@),
    {
        let mut window: Vec<StoredCategory> = Vec::new();
        window.push(row.clone());
        let ghost w = window@.map_values(|c: StoredCategory| c@);
        let rows = self.expand(&window);
        proof {
            assert(w =~= seq![row@]);
            assert(distinct_aps(w));
            lemma_aggregate_expand(self@, w);
            assert(expand_rows_spec(self@, w) == expand_rows_spec(self@, w.drop_last()) + rows_of(
                self@,
                w.last(),
            )) by {
                assert(w.len() == 1);
            }
            assert(expand_rows_spec(self@, w.drop_last()) == Seq::<CategoryDetailedView>::empty())
                by {
                assert(w.drop_last().len() == 0);
            }
            assert(rows_of(self@, row@).len() >= 1);
            assert(rows@.len() > 0);
            assert(w.map_values(assemble_fn(self@))[0] == assemble(self@, row@));
        }
        match prepare_single_category(rows) {
            Ok(c) => c,
            Err(_) => vstd::pervasive::unreached(),
        }
    }

    /// Looks one category up by its external id, assembling its sub-items,
    /// and returns it exactly when a locally originated row carries the
    /// id.
    pub fn category_by_ap_id(&self, ap_id: &String) -> (r: Option<Category>)
        ensures
            match find_ap(self@, ap_id@) {
                Some(c) => if c.local {
                    r is Some && r->0@ == assemble(self@, c)
                } else {
                    r is None
                },
                None => r is None,
            },
    {
        match self.find_by_ap(ap_id) {
            Some(row) => {
                if row.local {
                    Some(self.assemble_row(row))
                } else {
                    None
                }
            },
            None => None,
        }
    }

    /// The paginated listing of a category's children — or of the
    /// top-level categories when no parent is given. The result is exactly
    /// [`expected_listing`] over the table and the scope.
    pub fn sub_categories(
        &self,
        parent_id: &Option<String>,
        pagination: &PageRequest,
        max_query_results: u32,
    ) -> (r: Result<Connection, CategoryError>)
        requires
            self.wf(),
        ensures
            match expected_listing(self@, opt_view(*parent_id), pagination@, max_query_results) {
                Ok(cv) => r is Ok && r->Ok_0@ == cv,
                Err(e) => r == Err::<Connection, CategoryError>(e),
            },
    {
        let ghost parent_v = opt_view(*parent_id);
        let index = match &pagination.index {
            None => {
                return Err(CategoryError::MissingPaginationIndex);
            },
            Some(ix) => ix,
        };
        let actual_count = query_count(max_query_results, index);
        let fetch: u64 = actual_count as u64 + 1;

        let (window, opposite) = match &pagination.cursor_value {
            None => {
                let window = match index {
                    Index::First(_) => self.scan_forward(None, parent_id, fetch),
                    Index::Last(_) => self.scan_backward(None, parent_id, fetch),
                };
                proof {
                    lemma_filter_table_wf(self@, scope_pred(parent_v));
                }
                (window, 0u64)
            },
            Some(CursorValue::After(tok)) => {
                let (id, created_at) = match decode_cursor(tok.as_str()) {
                    Ok(k) => k,
                    Err(e) => {
                        return Err(e);
                    },
                };
                let key = SortKey { created_at, id };
                let window = self.scan_forward(Some(key), parent_id, fetch);
                let opposite = self.count_before(key, parent_id);
                proof {
                    lemma_filter_table_wf(self@, after_pred(parent_v, key));
                }
                (window, opposite as u64)
            },
            Some(CursorValue::Before(tok)) => {
                let (id, created_at) = match decode_cursor(tok.as_str()) {
                    Ok(k) => k,
                    Err(e) => {
                        return Err(e);
                    },
                };
                let key = SortKey { created_at, id };
                let window = self.scan_backward(Some(key), parent_id, fetch);
                let opposite = self.count_after(key, parent_id);
                proof {
                    lemma_filter_table_wf(self@, before_pred(parent_v, key));
                }
                (window, opposite as u64)
            },
        };

        let ghost arrival = window@.map_values(|c: StoredCategory| c@);
        proof {
            match pagination@.cursor_value {
                None => match pagination@.index->0 {
                    Index::First(_) => lemma_prefix_distinct(
                        eligible(self@, parent_v),
                        fetch as int,
                    ),
                    Index::Last(_) => lemma_prefix_distinct(
                        eligible(self@, parent_v),
                        fetch as int,
                    ),
                },
                Some(CursorValueView::After(tok)) => {
                    let k = decoded_cursor(tok)->0;
                    lemma_prefix_distinct(
                        window_after(self@, parent_v, SortKey { created_at: k.1, id: k.0 }),
                        fetch as int,
                    );
                },
                Some(CursorValueView::Before(tok)) => {
                    let k = decoded_cursor(tok)->0;
                    lemma_prefix_distinct(
                        window_before(self@, parent_v, SortKey { created_at: k.1, id: k.0 }),
                        fetch as int,
                    );
                },
            }
            assert(distinct_aps(arrival));
            lemma_aggregate_expand(self@, arrival);
        }
        let rows = self.expand(&window);
        let cats = prepare_categories(rows);
        proof {
            assert(cats@.map_values(|c: Category| c@) == arrival.map_values(assemble_fn(self@)));
        }
        let conn = parse_categories(opposite, cats, pagination, actual_count);
        Ok(conn)
    }

    /// The paginated listing of the top-level categories: the child
    /// listing of the empty scope.
    pub fn categories(&self, pagination: &PageRequest, max_query_results: u32) -> (r: Result<
        Connection,
        CategoryError,
    >)
        requires
            self.wf(),
        ensures
            match expected_listing(self@, None, pagination@, max_query_results) {
                Ok(cv) => r is Ok && r->Ok_0@ == cv,
                Err(e) => r == Err::<Connection, CategoryError>(e),
            },
    {
        let scope: Option<String> = None;
        self.sub_categories(&scope, pagination, max_query_results)
    }
}


/// The page item of one stored row: its assembled entity and its cursor.
pub open spec fn page_item(s: Seq<StoredCategoryView>) -> spec_fn(StoredCategoryView) -> crate::pagination::NodeView {
    |c: StoredCategoryView| crate::pagination::node_of(assemble(s, c))
}

/// The smaller of two integers.
pub open spec fn min2(a: int, b: int) -> int {
    if a <= b {
        a
    } else {
        b
    }
}

/// The eligible rows cut into consecutive pages of `n`, starting at `i`.
pub open spec fn chunks_from(w: Seq<StoredCategoryView>, i: int, n: int) -> Seq<
    StoredCategoryView,
>
    decreases w.len() - i, (if n >= 1 && 0 <= i { 0int } else { 1int }),
    when n >= 1 && 0 <= i
{
    if i >= w.len() {
        Seq::empty()
    } else {
        w.subrange(i, min2(i + n, w.len() as int)) + chunks_from(w, min2(i + n, w.len() as int), n)
    }
}

/// Consecutive pages of any fixed size concatenate to the whole set: no
/// row is lost and none is repeated.
pub proof fn lemma_chunks_cover(w: Seq<StoredCategoryView>, i: int, n: int)
    requires
        n >= 1,
        0 <= i <= w.len(),
    ensures
        chunks_from(w, i, n) == w.skip(i),
    decreases w.len() - i,
{
    if i >= w.len() {
        assert(w.skip(i) =~= Seq::<StoredCategoryView>::empty());
    } else {
        let next = min2(i + n, w.len() as int);
        lemma_chunks_cover(w, next, n);
        assert(w.subrange(i, next) + w.skip(next) =~= w.skip(i));
    }
}

/// The first forward page lists the first `n` eligible rows in store
/// order, and its end cursor marks the last of them: the position from
/// which the scan continues.
pub proof fn lemma_first_page(
    s: Seq<StoredCategoryView>,
    parent: Option<Seq<char>>,
    n: u32,
    max: u32,
)
    requires
        table_wf(s),
        1 <= n <= max,
    ensures
        ({
            let w = eligible(s, parent);
            let m = min2(n as int, w.len() as int);
            let p = PageRequestView { index: Some(Index::First(n)), cursor_value: None };
            let r = expected_listing(s, parent, p, max);
            &&& r is Ok
            &&& r->Ok_0.edges == w.subrange(0, m).map_values(page_item(s))
            &&& m > 0 ==> r->Ok_0.page_info.end_cursor == Some(
                crate::codec::encoded_cursor(w[m - 1].id, w[m - 1].created_at),
            )
            &&& r->Ok_0.page_info.has_next_page == (w.len() > n as int)
            &&& r->Ok_0.page_info.has_previous_page == false
        }),
{
    let w = eligible(s, parent);
    let m = min2(n as int, w.len() as int);
    let p = PageRequestView { index: Some(Index::First(n)), cursor_value: None };
    let arrival = prefix(w, n as int + 1);
    let cats = arrival.map_values(assemble_fn(s));
    let cv = conn_spec(s, arrival, true, n as int, 0);
    let kept = cats.take(min2(n as int, cats.len() as int));
    assert(cats.len() == arrival.len());
    assert(min2(n as int, cats.len() as int) == m);
    assert(cv.edges =~= w.subrange(0, m).map_values(page_item(s))) by {
        assert forall|k: int| 0 <= k < m implies cv.edges[k] == w.subrange(0, m).map_values(
            page_item(s),
        )[k] by {
            assert(kept[k] == cats[k]);
            assert(cats[k] == assemble_fn(s)(arrival[k]));
            assert(arrival[k] == w[k]);
            assert(w.subrange(0, m)[k] == w[k]);
        }
    }
    if m > 0 {
        assert(kept[m - 1] == assemble_fn(s)(w[m - 1]));
    }
    assert(cats.len() > n as int <==> w.len() > n as int);
}

/// Following the cursor of the row at `i` forward lists exactly the next
/// `n` eligible rows — nothing skipped, nothing repeated — and its end
/// cursor marks the last row of that page, so the scan can be followed
/// further.
pub proof fn lemma_after_cursor_continues(
    s: Seq<StoredCategoryView>,
    parent: Option<Seq<char>>,
    i: int,
    n: u32,
    max: u32,
)
    requires
        table_wf(s),
        1 <= n <= max,
        0 <= i < eligible(s, parent).len(),
    ensures
        ({
            let w = eligible(s, parent);
            let tok = crate::codec::encoded_cursor(w[i].id, w[i].created_at);
            let hi = min2(i + 1 + n as int, w.len() as int);
            let p = PageRequestView {
                index: Some(Index::First(n)),
                cursor_value: Some(CursorValueView::After(tok)),
            };
            let r = expected_listing(s, parent, p, max);
            &&& r is Ok
            &&& r->Ok_0.edges == w.subrange(i + 1, hi).map_values(page_item(s))
            &&& hi > i + 1 ==> r->Ok_0.page_info.end_cursor == Some(
                crate::codec::encoded_cursor(w[hi - 1].id, w[hi - 1].created_at),
            )
            &&& r->Ok_0.page_info.has_next_page == (w.len() > i + 1 + n as int)
        }),
{
    let w = eligible(s, parent);
    lemma_filter_table_wf(s, scope_pred(parent));
    let tok = crate::codec::encoded_cursor(w[i].id, w[i].created_at);
    crate::codec::lemma_cursor_round_trip(w[i].id, w[i].created_at);
    let key = SortKey { created_at: w[i].created_at, id: w[i].id };
    assert(key == crate::store::key_of(w[i]));
    assert(window_after(s, parent, key) == w.filter(crate::store::key_gt_pred(key))) by {
        assert forall|x: StoredCategoryView| #[trigger]
            after_pred(parent, key)(x) == (scope_pred(parent)(x) && crate::store::key_gt_pred(
            key,
        )(x)) by {}
        crate::store::lemma_filter_compose(
            s,
            scope_pred(parent),
            crate::store::key_gt_pred(key),
            after_pred(parent, key),
        );
    }
    crate::store::lemma_sorted_filter_gt(w, i);
    let hi = min2(i + 1 + n as int, w.len() as int);
    let arrival = prefix(w.skip(i + 1), n as int + 1);
    let cats = arrival.map_values(assemble_fn(s));
    let m = min2(n as int, cats.len() as int);
    assert(m == hi - (i + 1));
    let kept = cats.take(m);
    let cv = conn_spec(s, arrival, true, n as int, window_before(s, parent, key).len() as int);
    assert(cv.edges =~= w.subrange(i + 1, hi).map_values(page_item(s))) by {
        assert forall|k: int| 0 <= k < m implies cv.edges[k] == w.subrange(i + 1, hi).map_values(
            page_item(s),
        )[k] by {
            assert(kept[k] == cats[k]);
            assert(cats[k] == assemble_fn(s)(arrival[k]));
            assert(arrival[k] == w.skip(i + 1)[k]);
            assert(w.skip(i + 1)[k] == w[i + 1 + k]);
            assert(w.subrange(i + 1, hi)[k] == w[i + 1 + k]);
        }
    }
    if hi > i + 1 {
        assert(kept[m - 1] == assemble_fn(s)(w[hi - 1])) by {
            assert(arrival[m - 1] == w.skip(i + 1)[m - 1]);
        }
    }
    assert(cats.len() > n as int <==> w.len() > i + 1 + n as int);
}

/// Forward/backward symmetry: paginate `First(k)`, take the end cursor,
/// and paginate `Last(1)` strictly before it — the single returned item is
/// the one immediately preceding the `k`-th eligible row.
pub proof fn lemma_forward_backward_symmetry(
    s: Seq<StoredCategoryView>,
    parent: Option<Seq<char>>,
    k: u32,
    max: u32,
)
    requires
        table_wf(s),
        2 <= k <= max,
        k as int <= eligible(s, parent).len(),
    ensures
        ({
            let w = eligible(s, parent);
            let p1 = PageRequestView { index: Some(Index::First(k)), cursor_value: None };
            let r1 = expected_listing(s, parent, p1, max);
            &&& r1 is Ok
            &&& r1->Ok_0.page_info.end_cursor is Some
            &&& {
                let tok = r1->Ok_0.page_info.end_cursor->0;
                let p2 = PageRequestView {
                    index: Some(Index::Last(1)),
                    cursor_value: Some(CursorValueView::Before(tok)),
                };
                let r2 = expected_listing(s, parent, p2, max);
                &&& r2 is Ok
                &&& r2->Ok_0.edges == seq![page_item(s)(w[k - 2])]
            }
        }),
{
    let w = eligible(s, parent);
    lemma_filter_table_wf(s, scope_pred(parent));
    lemma_first_page(s, parent, k, max);
    let m = min2(k as int, w.len() as int);
    assert(m == k as int);
    let tok = crate::codec::encoded_cursor(w[k - 1].id, w[k - 1].created_at);
    crate::codec::lemma_cursor_round_trip(w[k - 1].id, w[k - 1].created_at);
    let key = SortKey { created_at: w[k - 1].created_at, id: w[k - 1].id };
    assert(key == crate::store::key_of(w[k - 1]));
    assert(window_before(s, parent, key) == w.filter(crate::store::key_lt_pred(key))) by {
        assert forall|x: StoredCategoryView| #[trigger]
            before_pred(parent, key)(x) == (scope_pred(parent)(x) && crate::store::key_lt_pred(
            key,
        )(x)) by {}
        crate::store::lemma_filter_compose(
            s,
            scope_pred(parent),
            crate::store::key_lt_pred(key),
            before_pred(parent, key),
        );
    }
    crate::store::lemma_sorted_filter_lt(w, k - 1);
    let back = w.take(k - 1);
    let arrival = prefix(back.reverse(), 2);
    let cats = arrival.map_values(assemble_fn(s));
    let m2 = min2(1int, cats.len() as int);
    assert(back.len() == k - 1 >= 1);
    assert(arrival.len() >= 1);
    assert(m2 == 1);
    let kept = cats.take(1);
    let cv = conn_spec(s, arrival, false, 1int, window_after(s, parent, key).len() as int);
    assert(arrival[0] == back.reverse()[0]);
    assert(back.reverse()[0] == back[back.len() - 1]);
    assert(back[k - 2] == w[k - 2]);
    assert(kept[0] == assemble_fn(s)(w[k - 2]));
    assert(cv.edges =~= seq![page_item(s)(w[k - 2])]);
}

} // verus!
