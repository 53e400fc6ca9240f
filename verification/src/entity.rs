//! The entities that the pagination core reads and returns.
//!
//! [`CategoryDetailed`] is one raw row of the store's one-to-many join: a
//! category paired with at most one of its sub-items. [`Category`] is the
//! aggregate the row aggregator folds those rows into. [`NewCategory`] is
//! the shape an incoming write carries, before the store assigns an id and
//! timestamps.

use vstd::prelude::*;

verus! {

/// The mathematical value of an optional string.
pub open spec fn opt_view(o: Option<String>) -> Option<Seq<char>> {
    match o {
        Some(s) => Some(s@),
        None => None,
    }
}

/// A read-only projection of a related category: its name and external id.
#[derive(Debug, PartialEq, Eq)]
pub struct SubCategory {
    pub name: String,
    pub ap_id: String,
}

/// The mathematical value of a [`SubCategory`].
pub struct SubCategoryView {
    pub name: Seq<char>,
    pub ap_id: Seq<char>,
}

impl View for SubCategory {
    type V = SubCategoryView;

    open spec fn view(&self) -> SubCategoryView {
        SubCategoryView { name: self.name@, ap_id: self.ap_id@ }
    }
}

impl Clone for SubCategory {
    fn clone(&self) -> (r: Self)
        ensures
            r == *self,
    {
        SubCategory { name: self.name.clone(), ap_id: self.ap_id.clone() }
    }
}

/// One aggregated category entity, with its sub-items resolved.
#[derive(Debug, PartialEq, Eq)]
pub struct Category {
    pub id: u64,
    pub name: String,
    pub sub_categories: Vec<SubCategory>,
    pub image_url: Option<String>,
    pub parent_id: Option<String>,
    pub created_at: u64,
    pub updated_at: u64,
    pub ap_id: String,
    pub local: bool,
}

/// The mathematical value of a [`Category`].
pub struct CategoryView {
    pub id: u64,
    pub name: Seq<char>,
    pub sub_categories: Seq<SubCategoryView>,
    pub image_url: Option<Seq<char>>,
    pub parent_id: Option<Seq<char>>,
    pub created_at: u64,
    pub updated_at: u64,
    pub ap_id: Seq<char>,
    pub local: bool,
}

impl View for Category {
    type V = CategoryView;

    open spec fn view(&self) -> CategoryView {
        CategoryView {
            id: self.id,
            name: self.name@,
            sub_categories: self.sub_categories@.map_values(|s: SubCategory| s@),
            image_url: opt_view(self.image_url),
            parent_id: opt_view(self.parent_id),
            created_at: self.created_at,
            updated_at: self.updated_at,
            ap_id: self.ap_id@,
            local: self.local,
        }
    }
}

/// One raw row of the one-to-many join: a category and at most one
/// sub-item. A category with several sub-items arrives as several rows
/// that repeat the category's own columns.
#[derive(Debug, PartialEq, Eq)]
pub struct CategoryDetailed {
    pub id: u64,
    pub name: String,
    pub sub_category_name: Option<String>,
    pub sub_category_ap_id: Option<String>,
    pub image_url: Option<String>,
    pub parent_id: Option<String>,
    pub created_at: u64,
    pub updated_at: u64,
    pub ap_id: String,
    pub local: bool,
}

/// The mathematical value of a [`CategoryDetailed`] row.
pub struct CategoryDetailedView {
    pub id: u64,
    pub name: Seq<char>,
    pub sub_category_name: Option<Seq<char>>,
    pub sub_category_ap_id: Option<Seq<char>>,
    pub image_url: Option<Seq<char>>,
    pub parent_id: Option<Seq<char>>,
    pub created_at: u64,
    pub updated_at: u64,
    pub ap_id: Seq<char>,
    pub local: bool,
}

impl View for CategoryDetailed {
    type V = CategoryDetailedView;

    open spec fn view(&self) -> CategoryDetailedView {
        CategoryDetailedView {
            id: self.id,
            name: self.name@,
            sub_category_name: opt_view(self.sub_category_name),
            sub_category_ap_id: opt_view(self.sub_category_ap_id),
            image_url: opt_view(self.image_url),
            parent_id: opt_view(self.parent_id),
            created_at: self.created_at,
            updated_at: self.updated_at,
            ap_id: self.ap_id@,
            local: self.local,
        }
    }
}

/// The shape of an incoming create or upsert: everything a stored row
/// holds except the store-assigned id and timestamps. `sub_categories`
/// lists the external ids of the related categories.
#[derive(Debug, PartialEq, Eq)]
pub struct NewCategory {
    pub name: String,
    pub sub_categories: Vec<String>,
    pub image_url: Option<String>,
    pub parent_id: Option<String>,
    pub ap_id: String,
    pub local: bool,
}

/// The mathematical value of a [`NewCategory`].
pub struct NewCategoryView {
    pub name: Seq<char>,
    pub sub_categories: Seq<Seq<char>>,
    pub image_url: Option<Seq<char>>,
    pub parent_id: Option<Seq<char>>,
    pub ap_id: Seq<char>,
    pub local: bool,
}

impl View for NewCategory {
    type V = NewCategoryView;

    open spec fn view(&self) -> NewCategoryView {
        NewCategoryView {
            name: self.name@,
            sub_categories: self.sub_categories@.map_values(|s: String| s@),
            image_url: opt_view(self.image_url),
            parent_id: opt_view(self.parent_id),
            ap_id: self.ap_id@,
            local: self.local,
        }
    }
}

/// Clones an optional string; the clone has the same value.
pub fn clone_opt_string(o: &Option<String>) -> (r: Option<String>)
    ensures
        r == *o,
{
    match o {
        Some(s) => Some(s.clone()),
        None => None,
    }
}

/// Clones a vector of strings; the clone has the same value.
pub fn clone_string_vec(v: &Vec<String>) -> (r: Vec<String>)
    ensures
        r@ == v@,
{
    let mut r: Vec<String> = Vec::new();
    let mut i: usize = 0;
    while i < v.len()
        invariant
            0 <= i <= v.len(),
            r@ == v@.take(i as int),
        decreases v.len() - i,
    {
        r.push(v[i].clone());
        proof {
            assert(r@ =~= v@.take(i + 1));
        }
        i = i + 1;
    }
    proof {
        assert(v@.take(v@.len() as int) =~= v@);
    }
    r
}

} // verus!
