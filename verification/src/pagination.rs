//! The page window planner and the connection assembler.
//!
//! A request names a page size through an index selector — `First(n)` scans
//! forward, `Last(n)` scans backward — and may add a cursor to resume from.
//! The planner clamps the requested count and fetches one extra row, the
//! sentinel that detects a further page. The assembler trims the sentinel,
//! restores ascending store order for backward scans, stamps each surviving
//! entity with its cursor, and reports the page-existence flags.

use vstd::prelude::*;

use crate::codec::encoded_cursor;
use crate::entity::{Category, CategoryView};

verus! {

/// The index selector of a request: how many items, and from which end of
/// the ordered set the scan starts when no cursor is given.
#[derive(Debug, Clone, Copy, PartialEq, Eq)]
pub enum Index {
    First(u32),
    Last(u32),
}

/// A cursor with its direction: resume strictly after or strictly before
/// the position the token encodes.
#[derive(Debug, PartialEq, Eq)]
pub enum CursorValue {
    After(String),
    Before(String),
}

/// The mathematical value of a [`CursorValue`].
pub enum CursorValueView {
    After(Seq<char>),
    Before(Seq<char>),
}

impl View for CursorValue {
    type V = CursorValueView;

    open spec fn view(&self) -> CursorValueView {
        match self {
            CursorValue::After(s) => CursorValueView::After(s@),
            CursorValue::Before(s) => CursorValueView::Before(s@),
        }
    }
}

/// One pagination request: an index selector and an optional cursor.
/// Absence of both is a caller error.
#[derive(Debug, PartialEq, Eq)]
pub struct PageRequest {
    pub index: Option<Index>,
    pub cursor_value: Option<CursorValue>,
}

/// The mathematical value of a [`PageRequest`].
pub struct PageRequestView {
    pub index: Option<Index>,
    pub cursor_value: Option<CursorValueView>,
}

impl View for PageRequest {
    type V = PageRequestView;

    open spec fn view(&self) -> PageRequestView {
        PageRequestView {
            index: self.index,
            cursor_value: match self.cursor_value {
                Some(ref cv) => Some(cv@),
                None => None,
            },
        }
    }
}

/// The count carried by an index selector.
pub open spec fn index_count(index: Index) -> u32 {
    match index {
        Index::First(c) => c,
        Index::Last(c) => c,
    }
}

/// Clamps the requested count to the configured maximum. A request beyond
/// the maximum is silently capped, not rejected.
pub fn query_count(max: u32, index: &Index) -> (r: u32)
    ensures
        r == if index_count(*index) <= max {
            index_count(*index)
        } else {
            max
        },
{
    let c = match index {
        Index::First(c) => *c,
        Index::Last(c) => *c,
    };
    if c <= max {
        c
    } else {
        max
    }
}

/// True when the request scans forward from a known point: an `after`
/// cursor, or `First` with no cursor. False when it scans backward toward
/// a known point: a `before` cursor, or `Last` with no cursor.
pub open spec fn paginating_from_left(p: PageRequestView) -> bool {
    match p.cursor_value {
        Some(CursorValueView::After(_)) => true,
        Some(CursorValueView::Before(_)) => false,
        None => match p.index {
            Some(Index::First(_)) => true,
            _ => false,
        },
    }
}

/// Which side the request scans from; see [`paginating_from_left`].
pub fn is_paginating_from_left(pagination: &PageRequest) -> (r: bool)
    ensures
        r == paginating_from_left(pagination@),
{
    match &pagination.cursor_value {
        Some(CursorValue::After(_)) => true,
        Some(CursorValue::Before(_)) => false,
        None => match &pagination.index {
            Some(Index::First(_)) => true,
            _ => false,
        },
    }
}

/// One returned page item: the entity and the cursor that resumes the scan
/// at the entity's position.
#[derive(Debug, PartialEq, Eq)]
pub struct Node {
    pub node: Category,
    pub cursor: String,
}

/// The mathematical value of a [`Node`].
pub struct NodeView {
    pub node: CategoryView,
    pub cursor: Seq<char>,
}

impl View for Node {
    type V = NodeView;

    open spec fn view(&self) -> NodeView {
        NodeView { node: self.node@, cursor: self.cursor@ }
    }
}

/// Whether pages exist beyond either end of the returned page, and the
/// cursors of the first and last surviving item in scan-arrival order: the
/// end cursor is the position to resume the same scan from.
#[derive(Debug, PartialEq, Eq)]
pub struct PageInfo {
    pub has_next_page: bool,
    pub has_previous_page: bool,
    pub start_cursor: Option<String>,
    pub end_cursor: Option<String>,
}

/// The mathematical value of a [`PageInfo`].
pub struct PageInfoView {
    pub has_next_page: bool,
    pub has_previous_page: bool,
    pub start_cursor: Option<Seq<char>>,
    pub end_cursor: Option<Seq<char>>,
}

impl View for PageInfo {
    type V = PageInfoView;

    open spec fn view(&self) -> PageInfoView {
        PageInfoView {
            has_next_page: self.has_next_page,
            has_previous_page: self.has_previous_page,
            start_cursor: crate::entity::opt_view(self.start_cursor),
            end_cursor: crate::entity::opt_view(self.end_cursor),
        }
    }
}

/// One assembled page: the ordered items and their page-existence flags.
#[derive(Debug, PartialEq, Eq)]
pub struct Connection {
    pub edges: Vec<Node>,
    pub page_info: PageInfo,
}

/// The mathematical value of a [`Connection`].
pub struct ConnectionView {
    pub edges: Seq<NodeView>,
    pub page_info: PageInfoView,
}

impl View for Connection {
    type V = ConnectionView;

    open spec fn view(&self) -> ConnectionView {
        ConnectionView {
            edges: self.edges@.map_values(|n: Node| n@),
            page_info: self.page_info@,
        }
    }
}

/// The page item for one entity: the entity and the cursor encoding its
/// sort key.
pub open spec fn node_of(c: CategoryView) -> NodeView {
    NodeView { node: c, cursor: encoded_cursor(c.id, c.created_at) }
}

/// The page the assembler owes for `cats`, the aggregated entities in scan
/// arrival order.
///
/// At most `n` entities survive, in arrival order: any extra is the
/// sentinel row fetched beyond the requested count. A backward scan
/// arrives in descending order, so its surviving items are reversed to
/// restore ascending store order. The flag on the scanned side reports the
/// sentinel (`cats.len() > n`); the flag on the opposite side reports
/// `opposite`, the count of rows strictly beyond the cursor on the side
/// the scan turned away from. The start and end cursors mark the first and
/// last surviving item in arrival order, so following the end cursor in
/// the scan's own direction continues the scan.
pub open spec fn assembled_connection(
    cats: Seq<CategoryView>,
    left: bool,
    n: int,
    opposite: int,
) -> ConnectionView {
    let m = if n <= cats.len() {
        n
    } else {
        cats.len() as int
    };
    let kept = cats.take(m);
    let nodes = kept.map_values(|c: CategoryView| node_of(c));
    ConnectionView {
        edges: if left {
            nodes
        } else {
            nodes.reverse()
        },
        page_info: PageInfoView {
            has_next_page: if left {
                cats.len() > n
            } else {
                opposite > 0
            },
            has_previous_page: if left {
                opposite > 0
            } else {
                cats.len() > n
            },
            start_cursor: if m == 0 {
                None
            } else {
                Some(node_of(kept[0]).cursor)
            },
            end_cursor: if m == 0 {
                None
            } else {
                Some(node_of(kept[m - 1]).cursor)
            },
        },
    }
}

/// Assembles the final page from the aggregated entities.
///
/// `categories` is the aggregated row set in scan arrival order (at most
/// the fetch limit, i.e. `actual_count + 1`, entities), and
/// `count_on_other_end` is the count of rows strictly beyond the cursor on
/// the opposite side of the scan — zero when the scan started at an end of
/// the set. The result is exactly [`assembled_connection`].
pub fn parse_categories(
    count_on_other_end: u64,
    categories: Vec<Category>,
    pagination: &PageRequest,
    actual_count: u32,
) -> (r: Connection)
    ensures
        r@ == assembled_connection(
            categories@.map_values(|c: Category| c@),
            paginating_from_left(pagination@),
            actual_count as int,
            count_on_other_end as int,
        ),
{
    let ghost cats = categories@.map_values(|c: Category| c@);
    let left = is_paginating_from_left(pagination);
    let n = actual_count as usize;
    let len = categories.len();
    let m = if n <= len {
        n
    } else {
        len
    };
    let has_more = len > n;
    let has_next_page = if left {
        has_more
    } else {
        count_on_other_end > 0
    };
    let has_previous_page = if left {
        count_on_other_end > 0
    } else {
        has_more
    };
    let start_cursor = if m == 0 {
        None
    } else {
        Some(encode_cursor_of(&categories[0]))
    };
    let end_cursor = if m == 0 {
        None
    } else {
        Some(encode_cursor_of(&categories[m - 1]))
    };

    let ghost kept = cats.take(m as int);

    let mut trimmed = categories;
    trimmed.truncate(m);

    // Pop from the tail so that `rev_nodes` holds the surviving items in
    // reverse arrival order: that is already the backward-scan page.
    let mut rev_nodes: Vec<Node> = Vec::new();
    while trimmed.len() > 0
        invariant
            trimmed@.len() + rev_nodes@.len() == m == kept.len(),
            forall|i: int| 0 <= i < trimmed@.len() ==> #[trigger] trimmed@[i]@ == kept[i],
            forall|i: int| 0 <= i < rev_nodes@.len() ==> #[trigger] rev_nodes@[i]@ == node_of(
                kept[m - 1 - i],
            ),
        decreases trimmed@.len(),
    {
        let c = trimmed.pop().unwrap();
        let cursor = encode_cursor_of(&c);
        rev_nodes.push(Node { node: c, cursor });
    }

    let edges = if left {
        // Restore arrival order for the forward scan.
        let mut forward: Vec<Node> = Vec::new();
        while rev_nodes.len() > 0
            invariant
                rev_nodes@.len() + forward@.len() == m == kept.len(),
                forall|i: int| 0 <= i < rev_nodes@.len() ==> #[trigger] rev_nodes@[i]@ == node_of(
                    kept[m - 1 - i],
                ),
                forall|i: int| 0 <= i < forward@.len() ==> #[trigger] forward@[i]@ == node_of(
                    kept[i],
                ),
            decreases rev_nodes@.len(),
        {
            let nd = rev_nodes.pop().unwrap();
            forward.push(nd);
        }
        forward
    } else {
        rev_nodes
    };

    let r = Connection {
        edges,
        page_info: PageInfo { has_next_page, has_previous_page, start_cursor, end_cursor },
    };
    proof {
        let expected = assembled_connection(
            cats,
            paginating_from_left(pagination@),
            actual_count as int,
            count_on_other_end as int,
        );
        let nodes = kept.map_values(|c: CategoryView| node_of(c));
        assert forall|i: int| 0 <= i < m implies #[trigger] nodes[i] == node_of(kept[i]) by {}
        if paginating_from_left(pagination@) {
            assert(r@.edges =~= expected.edges);
        } else {
            assert forall|i: int| 0 <= i < m implies #[trigger] nodes.reverse()[i] == node_of(
                kept[m - 1 - i],
            ) by {}
            assert(r@.edges =~= expected.edges);
        }
        if m > 0 {
            assert(kept[0] == cats[0]);
            assert(kept[m - 1] == cats[m - 1]);
        }
        assert(r@ == expected);
    }
    r
}

/// Builds the cursor of one entity from its sort key.
fn encode_cursor_of(c: &Category) -> (r: String)
    ensures
        r@ == encoded_cursor(c.id, c.created_at),
{
    crate::codec::encode_cursor(c.id, c.created_at)
}

} // verus!
