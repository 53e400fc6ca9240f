//! Validation of incoming writes.
//!
//! Every reference an incoming category carries — its image URL, its parent
//! id and each sub-item reference — must be a syntactically valid URL
//! before it may reach the store.

use vstd::prelude::*;

use crate::entity::{NewCategory, NewCategoryView};
use crate::error::CategoryError;

verus! {

/// Whether a string is a syntactically valid absolute URL. The meaning is
/// fixed by `url::Url::parse`, which depends on the string alone.
pub uninterp spec fn is_url(s: Seq<char>) -> bool;

/// Relies on `url::Url::parse`: whether it accepts the string depends on
/// the characters of the string alone.
#[verifier::external_body]
fn url_ok(value: &str) -> (r: bool)
    ensures
        r == is_url(value@),
{
    url::Url::parse(value).is_ok()
}

/// Checks one reference for URL syntax, rejecting it with `InvalidUrl`
/// exactly when it is not a valid URL.
pub fn check_url(value: &str) -> (r: Result<(), CategoryError>)
    ensures
        r is Ok <==> is_url(value@),
        r is Err ==> r == Err::<(), CategoryError>(CategoryError::InvalidUrl),
{
    if url_ok(value) {
        Ok(())
    } else {
        Err(CategoryError::InvalidUrl)
    }
}

/// True when every reference the incoming category carries is a valid URL:
/// its image URL and parent id where present, and each sub-item reference.
pub open spec fn valid_refs(c: NewCategoryView) -> bool {
    &&& (c.image_url is Some ==> is_url(c.image_url->0))
    &&& (c.parent_id is Some ==> is_url(c.parent_id->0))
    &&& (forall|i: int| 0 <= i < c.sub_categories.len() ==> is_url(#[trigger] c.sub_categories[i]))
}

/// Validates an incoming write, accepting it exactly when every reference
/// it carries passes URL syntax validation.
pub fn validate_input(category: &NewCategory) -> (r: Result<(), CategoryError>)
    ensures
        r is Ok <==> valid_refs(category@),
        r is Err ==> r == Err::<(), CategoryError>(CategoryError::InvalidUrl),
{
    if let Some(url) = &category.image_url {
        check_url(url.as_str())?;
    }
    if let Some(url) = &category.parent_id {
        check_url(url.as_str())?;
    }
    let mut i: usize = 0;
    while i < category.sub_categories.len()
        invariant
            0 <= i <= category.sub_categories.len(),
            forall|j: int| 0 <= j < i ==> is_url(#[trigger] category@.sub_categories[j]),
        decreases category.sub_categories.len() - i,
    {
        let checked = check_url(category.sub_categories[i].as_str());
        if checked.is_err() {
            assert(category@.sub_categories[i as int] == category.sub_categories@[i as int]@);
            return Err(CategoryError::InvalidUrl);
        }
        assert(category@.sub_categories[i as int] == category.sub_categories@[i as int]@);
        i = i + 1;
    }
    Ok(())
}

} // verus!
