//! The filter-and-sort query engine: boolean combinations of tag and
//! index conditions evaluated over the store's rows, results ordered by
//! comparator keys with an ascending document-id tie-break.

use vstd::prelude::*;

use crate::bitmap;
use crate::store::{
    bm_rows_get, spec_bm_row, spec_idx_row, BitmapKey, BitmapKind, IndexEntry, JMAPStore,
};
use crate::types::{AccountId, Collection, DocumentId};

verus! {

/// Comparison of an indexed key against a condition value.
#[derive(Debug, Clone, Copy, PartialEq, Eq, Structural)]
pub enum ComparisonOperator {
    LowerThan,
    LowerEqualThan,
    Equal,
    GreaterThan,
    GreaterEqualThan,
}

#[derive(Debug, Clone, Copy, PartialEq, Eq, Structural)]
pub enum LogicalOperator {
    And,
    Or,
    Not,
}

/// A filter tree: everything, one indexed condition, one tag membership,
/// or a boolean combination of children.
#[derive(Debug)]
pub enum Filter {
    Everything,
    Condition { field: u8, op: ComparisonOperator, value: u64 },
    Tag { field: u8, value: u64 },
    DocumentSet(roaring::RoaringBitmap),
    Operator { op: LogicalOperator, children: Vec<Filter> },
}

/// One sort key: an indexed field, or the document id itself.
#[derive(Debug, Clone, Copy, PartialEq, Eq, Structural)]
pub enum Comparator {
    Field { field: u8, ascending: bool },
    DocumentId,
}

/// Whether `w` stands in the stated relation to `value`.
pub open spec fn spec_op_matches(op: ComparisonOperator, w: u64, value: u64) -> bool {
    match op {
        ComparisonOperator::LowerThan => w < value,
        ComparisonOperator::LowerEqualThan => w <= value,
        ComparisonOperator::Equal => w == value,
        ComparisonOperator::GreaterThan => w > value,
        ComparisonOperator::GreaterEqualThan => w >= value,
    }
}

/// Whether document `d` holds an indexed key for `field` in the stated
/// relation to `value`.
pub open spec fn spec_condition_matches(
    s: &JMAPStore,
    account_id: AccountId,
    collection: Collection,
    field: u8,
    op: ComparisonOperator,
    value: u64,
    d: DocumentId,
) -> bool {
    exists|w: u64|
        spec_idx_row(
            s.indexes@,
            IndexEntry { account_id, collection, field, value: w, document_id: d },
        ) && spec_op_matches(op, w, value)
}

/// Whether document `d` satisfies a filter.
pub open spec fn spec_filter_matches(
    s: &JMAPStore,
    account_id: AccountId,
    collection: Collection,
    f: Filter,
    d: DocumentId,
) -> bool
    decreases f,
{
    match f {
        Filter::Everything => true,
        Filter::Condition { field, op, value } => spec_condition_matches(
            s,
            account_id,
            collection,
            field,
            op,
            value,
            d,
        ),
        Filter::Tag { field, value } => spec_bm_row(
            s.bitmaps@,
            BitmapKey { account_id, collection, kind: BitmapKind::Tag { field, value } },
        ).contains(d),
        Filter::DocumentSet(set) => bitmap::bm(set).contains(d),
        Filter::Operator { op, children } => {
            match op {
                LogicalOperator::And => forall|i: int|
                    0 <= i < children@.len() ==> spec_filter_matches(
                        s,
                        account_id,
                        collection,
                        #[trigger] children@[i],
                        d,
                    ),
                LogicalOperator::Or => exists|i: int|
                    0 <= i < children@.len() && spec_filter_matches(
                        s,
                        account_id,
                        collection,
                        #[trigger] children@[i],
                        d,
                    ),
                LogicalOperator::Not => forall|i: int|
                    0 <= i < children@.len() ==> !spec_filter_matches(
                        s,
                        account_id,
                        collection,
                        #[trigger] children@[i],
                        d,
                    ),
            }
        },
    }
}

/// Whether `w` is the sort key of document `d` for `field`: the least
/// indexed value the document holds there.
pub open spec fn spec_is_sort_key(
    s: &JMAPStore,
    account_id: AccountId,
    collection: Collection,
    field: u8,
    d: DocumentId,
    w: u64,
) -> bool {
    spec_idx_row(s.indexes@, IndexEntry { account_id, collection, field, value: w, document_id: d })
        && forall|u: u64|
        u < w ==> !spec_idx_row(
            s.indexes@,
            IndexEntry { account_id, collection, field, value: u, document_id: d },
        )
}

/// Whether document `d` holds no key for `field` at all.
pub open spec fn spec_has_no_key(
    s: &JMAPStore,
    account_id: AccountId,
    collection: Collection,
    field: u8,
    d: DocumentId,
) -> bool {
    forall|u: u64|
        !spec_idx_row(
            s.indexes@,
            IndexEntry { account_id, collection, field, value: u, document_id: d },
        )
}

/// The strict query order: comparator keys in turn — a document without a
/// key sorting after one with a key — with ascending document id breaking
/// every tie.
pub open spec fn spec_doc_lt(
    s: &JMAPStore,
    account_id: AccountId,
    collection: Collection,
    comps: Seq<Comparator>,
    d1: DocumentId,
    d2: DocumentId,
) -> bool
    decreases comps.len(),
{
    if comps.len() == 0 {
        d1 < d2
    } else {
        match comps[0] {
            Comparator::DocumentId => d1 < d2,
            Comparator::Field { field, ascending } => {
                if spec_has_no_key(s, account_id, collection, field, d1) && spec_has_no_key(
                    s,
                    account_id,
                    collection,
                    field,
                    d2,
                ) {
                    spec_doc_lt(s, account_id, collection, comps.drop_first(), d1, d2)
                } else if spec_has_no_key(s, account_id, collection, field, d1) {
                    false
                } else if spec_has_no_key(s, account_id, collection, field, d2) {
                    true
                } else {
                    exists|w1: u64, w2: u64|
                        #![trigger spec_key_pair(s, account_id, collection, field, d1, d2, w1, w2)]
                        spec_key_pair(s, account_id, collection, field, d1, d2, w1, w2) && (
                        if w1 == w2 {
                            spec_doc_lt(s, account_id, collection, comps.drop_first(), d1, d2)
                        } else if ascending {
                            w1 < w2
                        } else {
                            w1 > w2
                        })
                }
            },
        }
    }
}

/// The set of live documents of a collection: ids ever used, the
/// tombstoned ones taken out.
pub open spec fn spec_query_live(
    s: &JMAPStore,
    account_id: AccountId,
    collection: Collection,
) -> Set<u32> {
    spec_bm_row(
        s.bitmaps@,
        BitmapKey { account_id, collection, kind: BitmapKind::Used },
    ).difference(
        spec_bm_row(s.bitmaps@, BitmapKey { account_id, collection, kind: BitmapKind::Tombstoned }),
    )
}

/// Whether a query returns document `d`: live and matching the filter.
pub open spec fn spec_query_hit(
    s: &JMAPStore,
    account_id: AccountId,
    collection: Collection,
    f: Filter,
    d: DocumentId,
) -> bool {
    spec_query_live(s, account_id, collection).contains(d) && spec_filter_matches(
        s,
        account_id,
        collection,
        f,
        d,
    )
}

/// The sort keys of two documents for one field, named so the order's
/// quantifier has a stable shape.
pub open spec fn spec_key_pair(
    s: &JMAPStore,
    account_id: AccountId,
    collection: Collection,
    field: u8,
    d1: DocumentId,
    d2: DocumentId,
    w1: u64,
    w2: u64,
) -> bool {
    spec_is_sort_key(s, account_id, collection, field, d1, w1) && spec_is_sort_key(
        s,
        account_id,
        collection,
        field,
        d2,
        w2,
    )
}

/// A present index entry occurs in the rows with its flag set.
proof fn lemma_idx_row_member(s: Seq<(IndexEntry, bool)>, k: IndexEntry)
    requires
        spec_idx_row(s, k),
    ensures
        exists|j: int| 0 <= j < s.len() && (#[trigger] s[j]).0 == k && s[j].1,
    decreases s.len(),
{
    if s.len() > 0 && s[0].0 != k {
        lemma_idx_row_member(s.drop_first(), k);
        let j = choose|j: int|
            0 <= j < s.drop_first().len() && (#[trigger] s.drop_first()[j]).0 == k
                && s.drop_first()[j].1;
        assert(s[j + 1] == s.drop_first()[j]);
    }
}

/// Below any present key value for a document there is a least one.
proof fn lemma_sort_key_exists_below(
    s: &JMAPStore,
    account_id: AccountId,
    collection: Collection,
    field: u8,
    d: DocumentId,
    u: u64,
)
    requires
        spec_idx_row(
            s.indexes@,
            IndexEntry { account_id, collection, field, value: u, document_id: d },
        ),
    ensures
        exists|w: u64| #[trigger] spec_is_sort_key(s, account_id, collection, field, d, w),
    decreases u,
{
    if forall|v: u64|
        v < u ==> !spec_idx_row(
            s.indexes@,
            IndexEntry { account_id, collection, field, value: v, document_id: d },
        ) {
        assert(spec_is_sort_key(s, account_id, collection, field, d, u));
    } else {
        let v = choose|v: u64|
            v < u && spec_idx_row(
                s.indexes@,
                IndexEntry { account_id, collection, field, value: v, document_id: d },
            );
        lemma_sort_key_exists_below(s, account_id, collection, field, d, v);
    }
}

/// A document has at most one sort key for a field.
proof fn lemma_sort_key_unique(
    s: &JMAPStore,
    account_id: AccountId,
    collection: Collection,
    field: u8,
    d: DocumentId,
    w1: u64,
    w2: u64,
)
    requires
        spec_is_sort_key(s, account_id, collection, field, d, w1),
        spec_is_sort_key(s, account_id, collection, field, d, w2),
    ensures
        w1 == w2,
{
    if w1 < w2 {
        assert(!spec_idx_row(
            s.indexes@,
            IndexEntry { account_id, collection, field, value: w1, document_id: d },
        ));
    } else if w2 < w1 {
        assert(!spec_idx_row(
            s.indexes@,
            IndexEntry { account_id, collection, field, value: w2, document_id: d },
        ));
    }
}

impl JMAPStore {
    /// Whether any index entry of document `d` for `field` stands in the
    /// stated relation to `value`.
    #[verifier::loop_isolation(false)]
    pub fn condition_matches(
        &self,
        account_id: AccountId,
        collection: Collection,
        field: u8,
        op: ComparisonOperator,
        value: u64,
        d: DocumentId,
    ) -> (r: bool)
        requires
            self.wf(),
        ensures
            r == spec_condition_matches(self, account_id, collection, field, op, value, d),
    {
        let mut j: usize = 0;
        while j < self.indexes.len()
            invariant
                j <= self.indexes@.len(),
                forall|k: int|
                    0 <= k < j ==> !((#[trigger] self.indexes@[k]).0.account_id == account_id
                        && self.indexes@[k].0.collection == collection && self.indexes@[k].0.field
                        == field && self.indexes@[k].0.document_id == d && self.indexes@[k].1
                        && spec_op_matches(op, self.indexes@[k].0.value, value)),
            decreases self.indexes@.len() - j,
        {
            let e = &self.indexes[j];
            if e.0.account_id == account_id && e.0.collection == collection && e.0.field == field
                && e.0.document_id == d && e.1 && op_matches(op, e.0.value, value) {
                proof {
                    crate::store::lemma_idx_row_at(self.indexes@, j as int);
                    assert(spec_idx_row(
                        self.indexes@,
                        IndexEntry {
                            account_id,
                            collection,
                            field,
                            value: self.indexes@[j as int].0.value,
                            document_id: d,
                        },
                    ));
                }
                return true;
            }
            j = j + 1;
        }
        proof {
            assert forall|w: u64|
                !(spec_idx_row(
                    self.indexes@,
                    IndexEntry { account_id, collection, field, value: w, document_id: d },
                ) && spec_op_matches(op, w, value)) by {
                let k = IndexEntry { account_id, collection, field, value: w, document_id: d };
                if spec_idx_row(self.indexes@, k) && spec_op_matches(op, w, value) {
                    lemma_idx_row_member(self.indexes@, k);
                }
            }
        }
        false
    }

    /// The sort key of document `d` for `field`: the least value indexed
    /// for it, or `None` when the document holds no key there.
    #[verifier::loop_isolation(false)]
    pub fn sort_key(
        &self,
        account_id: AccountId,
        collection: Collection,
        field: u8,
        d: DocumentId,
    ) -> (r: Option<u64>)
        requires
            self.wf(),
        ensures
            r matches Some(w) ==> spec_is_sort_key(self, account_id, collection, field, d, w),
            r is None ==> spec_has_no_key(self, account_id, collection, field, d),
    {
        let mut best: Option<u64> = Option::None;
        let mut j: usize = 0;
        while j < self.indexes.len()
            invariant
                j <= self.indexes@.len(),
                match best {
                    Some(w) => spec_idx_row(
                        self.indexes@,
                        IndexEntry { account_id, collection, field, value: w, document_id: d },
                    ) && forall|k: int|
                        0 <= k < j ==> ((#[trigger] self.indexes@[k]).0.account_id == account_id
                            && self.indexes@[k].0.collection == collection
                            && self.indexes@[k].0.field == field && self.indexes@[k].0.document_id
                            == d && self.indexes@[k].1 ==> self.indexes@[k].0.value >= w),
                    Option::None => forall|k: int|
                        0 <= k < j ==> !((#[trigger] self.indexes@[k]).0.account_id == account_id
                            && self.indexes@[k].0.collection == collection
                            && self.indexes@[k].0.field == field && self.indexes@[k].0.document_id
                            == d && self.indexes@[k].1),
                },
            decreases self.indexes@.len() - j,
        {
            let e = &self.indexes[j];
            if e.0.account_id == account_id && e.0.collection == collection && e.0.field == field
                && e.0.document_id == d && e.1 {
                proof {
                    crate::store::lemma_idx_row_at(self.indexes@, j as int);
                }
                best = match best {
                    Some(w) => if e.0.value < w {
                        Some(e.0.value)
                    } else {
                        Some(w)
                    },
                    Option::None => Some(e.0.value),
                };
            }
            j = j + 1;
        }
        proof {
            match best {
                Some(w) => {
                    assert forall|u: u64|
                        u < w implies !spec_idx_row(
                        self.indexes@,
                        IndexEntry { account_id, collection, field, value: u, document_id: d },
                    ) by {
                        let k = IndexEntry {
                            account_id,
                            collection,
                            field,
                            value: u,
                            document_id: d,
                        };
                        if spec_idx_row(self.indexes@, k) {
                            lemma_idx_row_member(self.indexes@, k);
                        }
                    }
                },
                Option::None => {
                    assert forall|u: u64|
                        !spec_idx_row(
                            self.indexes@,
                            IndexEntry { account_id, collection, field, value: u, document_id: d },
                        ) by {
                        let k = IndexEntry {
                            account_id,
                            collection,
                            field,
                            value: u,
                            document_id: d,
                        };
                        if spec_idx_row(self.indexes@, k) {
                            lemma_idx_row_member(self.indexes@, k);
                        }
                    }
                },
            }
        }
        best
    }
}

/// A document with any key for a field has a sort key for it.
proof fn lemma_sort_key_exists(
    s: &JMAPStore,
    account_id: AccountId,
    collection: Collection,
    field: u8,
    d: DocumentId,
)
    requires
        !spec_has_no_key(s, account_id, collection, field, d),
    ensures
        exists|w: u64| #[trigger] spec_is_sort_key(s, account_id, collection, field, d, w),
{
    let u = choose|u: u64|
        spec_idx_row(
            s.indexes@,
            IndexEntry { account_id, collection, field, value: u, document_id: d },
        );
    lemma_sort_key_exists_below(s, account_id, collection, field, d, u);
}

/// The query order never holds of a document against itself.
pub proof fn lemma_doc_lt_irrefl(
    s: &JMAPStore,
    account_id: AccountId,
    collection: Collection,
    comps: Seq<Comparator>,
    d: DocumentId,
)
    ensures
        !spec_doc_lt(s, account_id, collection, comps, d, d),
    decreases comps.len(),
{
    if comps.len() > 0 {
        match comps[0] {
            Comparator::DocumentId => {},
            Comparator::Field { field, ascending } => {
                if spec_has_no_key(s, account_id, collection, field, d) {
                    lemma_doc_lt_irrefl(s, account_id, collection, comps.drop_first(), d);
                } else {
                    lemma_doc_lt_irrefl(s, account_id, collection, comps.drop_first(), d);
                    assert forall|w1: u64, w2: u64|
                        spec_key_pair(
                            s,
                            account_id,
                            collection,
                            field,
                            d,
                            d,
                            w1,
                            w2,
                        ) implies w1 == w2 by {
                        lemma_sort_key_unique(s, account_id, collection, field, d, w1, w2);
                    }
                }
            },
        }
    }
}

/// The query order relates any two distinct documents one way or the
/// other.
pub proof fn lemma_doc_lt_conn(
    s: &JMAPStore,
    account_id: AccountId,
    collection: Collection,
    comps: Seq<Comparator>,
    d1: DocumentId,
    d2: DocumentId,
)
    requires
        d1 != d2,
    ensures
        spec_doc_lt(s, account_id, collection, comps, d1, d2) || spec_doc_lt(
            s,
            account_id,
            collection,
            comps,
            d2,
            d1,
        ),
    decreases comps.len(),
{
    if comps.len() > 0 {
        match comps[0] {
            Comparator::DocumentId => {},
            Comparator::Field { field, ascending } => {
                let nk1 = spec_has_no_key(s, account_id, collection, field, d1);
                let nk2 = spec_has_no_key(s, account_id, collection, field, d2);
                if nk1 && nk2 {
                    lemma_doc_lt_conn(s, account_id, collection, comps.drop_first(), d1, d2);
                } else if !nk1 && !nk2 {
                    lemma_sort_key_exists(s, account_id, collection, field, d1);
                    lemma_sort_key_exists(s, account_id, collection, field, d2);
                    let w1 = choose|w: u64|
                        #[trigger] spec_is_sort_key(s, account_id, collection, field, d1, w);
                    let w2 = choose|w: u64|
                        #[trigger] spec_is_sort_key(s, account_id, collection, field, d2, w);
                    assert(spec_key_pair(s, account_id, collection, field, d1, d2, w1, w2));
                    assert(spec_key_pair(s, account_id, collection, field, d2, d1, w2, w1));
                    if w1 == w2 {
                        lemma_doc_lt_conn(s, account_id, collection, comps.drop_first(), d1, d2);
                    }
                }
            },
        }
    }
}

/// The query order is transitive.
pub proof fn lemma_doc_lt_trans(
    s: &JMAPStore,
    account_id: AccountId,
    collection: Collection,
    comps: Seq<Comparator>,
    d1: DocumentId,
    d2: DocumentId,
    d3: DocumentId,
)
    requires
        spec_doc_lt(s, account_id, collection, comps, d1, d2),
        spec_doc_lt(s, account_id, collection, comps, d2, d3),
    ensures
        spec_doc_lt(s, account_id, collection, comps, d1, d3),
    decreases comps.len(),
{
    if comps.len() > 0 {
        match comps[0] {
            Comparator::DocumentId => {},
            Comparator::Field { field, ascending } => {
                let nk1 = spec_has_no_key(s, account_id, collection, field, d1);
                let nk2 = spec_has_no_key(s, account_id, collection, field, d2);
                let nk3 = spec_has_no_key(s, account_id, collection, field, d3);
                if nk1 && nk2 && nk3 {
                    lemma_doc_lt_trans(s, account_id, collection, comps.drop_first(), d1, d2, d3);
                } else if !nk1 && !nk2 && !nk3 {
                    let (w1, w2) = choose|w1: u64, w2: u64|
                        #![trigger spec_key_pair(s, account_id, collection, field, d1, d2, w1, w2)]
                        spec_key_pair(s, account_id, collection, field, d1, d2, w1, w2) && (
                        if w1 == w2 {
                            spec_doc_lt(s, account_id, collection, comps.drop_first(), d1, d2)
                        } else if ascending {
                            w1 < w2
                        } else {
                            w1 > w2
                        });
                    let (x2, w3) = choose|x2: u64, w3: u64|
                        #![trigger spec_key_pair(s, account_id, collection, field, d2, d3, x2, w3)]
                        spec_key_pair(s, account_id, collection, field, d2, d3, x2, w3) && (
                        if x2 == w3 {
                            spec_doc_lt(s, account_id, collection, comps.drop_first(), d2, d3)
                        } else if ascending {
                            x2 < w3
                        } else {
                            x2 > w3
                        });
                    lemma_sort_key_unique(s, account_id, collection, field, d2, w2, x2);
                    assert(spec_key_pair(s, account_id, collection, field, d1, d3, w1, w3));
                    if w1 == w2 && w2 == w3 {
                        lemma_doc_lt_trans(
                            s,
                            account_id,
                            collection,
                            comps.drop_first(),
                            d1,
                            d2,
                            d3,
                        );
                    }
                }
            },
        }
    }
}

impl JMAPStore {
    /// Whether document `d` satisfies the filter, executable side.
    #[verifier::loop_isolation(false)]
    pub fn filter_matches(
        &self,
        account_id: AccountId,
        collection: Collection,
        f: &Filter,
        d: DocumentId,
    ) -> (r: bool)
        requires
            self.wf(),
        ensures
            r == spec_filter_matches(self, account_id, collection, *f, d),
        decreases f,
    {
        match f {
            Filter::Everything => true,
            Filter::Condition { field, op, value } => self.condition_matches(
                account_id,
                collection,
                *field,
                *op,
                *value,
                d,
            ),
            Filter::Tag { field, value } => {
                let row = bm_rows_get(
                    &self.bitmaps,
                    BitmapKey {
                        account_id,
                        collection,
                        kind: BitmapKind::Tag { field: *field, value: *value },
                    },
                );
                bitmap::bm_contains(&row, d)
            },
            Filter::DocumentSet(set) => bitmap::bm_contains(set, d),
            Filter::Operator { op, children } => {
                match op {
                    LogicalOperator::And => {
                        let mut i: usize = 0;
                        while i < children.len()
                            invariant
                                i <= children@.len(),
                                forall|k: int|
                                    0 <= k < i ==> spec_filter_matches(
                                        self,
                                        account_id,
                                        collection,
                                        #[trigger] children@[k],
                                        d,
                                    ),
                            decreases children@.len() - i,
                        {
                            if !self.filter_matches(account_id, collection, &children[i], d) {
                                return false;
                            }
                            i = i + 1;
                        }
                        true
                    },
                    LogicalOperator::Or => {
                        let mut i: usize = 0;
                        while i < children.len()
                            invariant
                                i <= children@.len(),
                                forall|k: int|
                                    0 <= k < i ==> !spec_filter_matches(
                                        self,
                                        account_id,
                                        collection,
                                        #[trigger] children@[k],
                                        d,
                                    ),
                            decreases children@.len() - i,
                        {
                            if self.filter_matches(account_id, collection, &children[i], d) {
                                return true;
                            }
                            i = i + 1;
                        }
                        false
                    },
                    LogicalOperator::Not => {
                        let mut i: usize = 0;
                        while i < children.len()
                            invariant
                                i <= children@.len(),
                                forall|k: int|
                                    0 <= k < i ==> !spec_filter_matches(
                                        self,
                                        account_id,
                                        collection,
                                        #[trigger] children@[k],
                                        d,
                                    ),
                            decreases children@.len() - i,
                        {
                            if self.filter_matches(account_id, collection, &children[i], d) {
                                return false;
                            }
                            i = i + 1;
                        }
                        true
                    },
                }
            },
        }
    }
}

impl JMAPStore {
    /// Whether `d1` sorts strictly before `d2` under the comparators from
    /// position `ci` on, executable side.
    pub fn doc_lt(
        &self,
        account_id: AccountId,
        collection: Collection,
        comps: &Vec<Comparator>,
        ci: usize,
        d1: DocumentId,
        d2: DocumentId,
    ) -> (r: bool)
        requires
            self.wf(),
            ci <= comps@.len(),
        ensures
            r == spec_doc_lt(self, account_id, collection, comps@.skip(ci as int), d1, d2),
        decreases comps@.len() - ci,
    {
        if ci == comps.len() {
            return d1 < d2;
        }
        proof {
            assert(comps@.skip(ci as int)[0] == comps@[ci as int]);
            assert(comps@.skip(ci as int).drop_first() =~= comps@.skip(ci as int + 1));
        }
        match comps[ci] {
            Comparator::DocumentId => d1 < d2,
            Comparator::Field { field, ascending } => {
                let k1 = self.sort_key(account_id, collection, field, d1);
                let k2 = self.sort_key(account_id, collection, field, d2);
                match (k1, k2) {
                    (Option::None, Option::None) => self.doc_lt(
                        account_id,
                        collection,
                        comps,
                        ci + 1,
                        d1,
                        d2,
                    ),
                    (Option::None, Some(_)) => {
                        proof {
                            assert(!spec_has_no_key(self, account_id, collection, field, d2));
                        }
                        false
                    },
                    (Some(_), Option::None) => {
                        proof {
                            assert(!spec_has_no_key(self, account_id, collection, field, d1));
                        }
                        true
                    },
                    (Some(w1), Some(w2)) => {
                        proof {
                            assert(!spec_has_no_key(self, account_id, collection, field, d1));
                            assert(!spec_has_no_key(self, account_id, collection, field, d2));
                            assert(spec_key_pair(
                                self,
                                account_id,
                                collection,
                                field,
                                d1,
                                d2,
                                w1,
                                w2,
                            ));
                            assert forall|v1: u64, v2: u64|
                                spec_key_pair(
                                    self,
                                    account_id,
                                    collection,
                                    field,
                                    d1,
                                    d2,
                                    v1,
                                    v2,
                                ) implies v1 == w1 && v2 == w2 by {
                                lemma_sort_key_unique(self, account_id, collection, field, d1, v1, w1);
                                lemma_sort_key_unique(self, account_id, collection, field, d2, v2, w2);
                            }
                        }
                        if w1 == w2 {
                            self.doc_lt(account_id, collection, comps, ci + 1, d1, d2)
                        } else if ascending {
                            w1 < w2
                        } else {
                            w1 > w2
                        }
                    },
                }
            },
        }
    }
}

impl JMAPStore {
    /// Evaluate a filter over a collection's live documents and return
    /// every match, sorted by the comparator keys with ascending document
    /// id breaking every tie.
    #[verifier::loop_isolation(false)]
    #[verifier::spinoff_prover]
    #[verifier::rlimit(80)]
    pub fn query_store(
        &self,
        account_id: AccountId,
        collection: Collection,
        filter: &Filter,
        sort: &Vec<Comparator>,
    ) -> (r: Vec<DocumentId>)
        requires
            self.wf(),
        ensures
            forall|d: u32|
                #[trigger] r@.contains(d) == spec_query_hit(self, account_id, collection, *filter, d),
            forall|i: int, j: int|
                0 <= i < j < r@.len() ==> spec_doc_lt(
                    self,
                    account_id,
                    collection,
                    sort@,
                    #[trigger] r@[i],
                    #[trigger] r@[j],
                ),
            forall|i: int, j: int| 0 <= i < j < r@.len() ==> r@[i] != r@[j],
    {
        let mut live = bm_rows_get(
            &self.bitmaps,
            BitmapKey { account_id, collection, kind: BitmapKind::Used },
        );
        let tomb = bm_rows_get(
            &self.bitmaps,
            BitmapKey { account_id, collection, kind: BitmapKind::Tombstoned },
        );
        bitmap::bm_difference_with(&mut live, &tomb);
        proof {
            assert(bitmap::bm(live) =~= spec_query_live(self, account_id, collection));
        }
        let all = bitmap::bm_to_vec(&live);
        let mut cand: Vec<u32> = Vec::new();
        let mut i: usize = 0;
        while i < all.len()
            invariant
                i <= all@.len(),
                forall|a: int|
                    0 <= a < cand@.len() ==> exists|k: int|
                        0 <= k < i && #[trigger] cand@[a] == all@[k],
                forall|d: u32|
                    #[trigger] cand@.contains(d) ==> spec_query_hit(
                        self,
                        account_id,
                        collection,
                        *filter,
                        d,
                    ),
                forall|k: int|
                    0 <= k < i ==> (spec_filter_matches(
                        self,
                        account_id,
                        collection,
                        *filter,
                        #[trigger] all@[k],
                    ) ==> cand@.contains(all@[k])),
                forall|a: int, b: int| 0 <= a < b < cand@.len() ==> cand@[a] != cand@[b],
            decreases all@.len() - i,
        {
            if self.filter_matches(account_id, collection, filter, all[i]) {
                proof {
                    assert forall|a: int|
                        0 <= a < cand@.len() implies cand@[a] != all@[i as int] by {
                        let k = choose|k: int| 0 <= k < i && cand@[a] == all@[k];
                        assert(all@[k] < all@[i as int]);
                    }
                }
                let ghost cand0 = cand@;
                cand.push(all[i]);
                proof {
                    assert forall|d: u32|
                        #[trigger] cand@.contains(d) == (cand0.contains(d) || d == all@[
                        i as int]) by {
                        if cand0.contains(d) {
                            let k = choose|k: int| 0 <= k < cand0.len() && cand0[k] == d;
                            assert(cand@[k] == d);
                        }
                        if d == all@[i as int] {
                            assert(cand@[cand@.len() - 1] == d);
                        }
                        if cand@.contains(d) {
                            let k = choose|k: int| 0 <= k < cand@.len() && cand@[k] == d;
                            if k < cand0.len() {
                                assert(cand0[k] == d);
                            }
                        }
                    }
                    assert(bitmap::bm(live).contains(all@[i as int]));
                }
            }
            i = i + 1;
        }
        proof {
            assert forall|d: u32|
                #[trigger] cand@.contains(d) == spec_query_hit(
                    self,
                    account_id,
                    collection,
                    *filter,
                    d,
                ) by {
                if spec_query_hit(self, account_id, collection, *filter, d) {
                    assert(bitmap::bm(live).contains(d));
                    assert(all@.contains(d));
                    let k = choose|k: int| 0 <= k < all@.len() && all@[k] == d;
                    assert(cand@.contains(all@[k]));
                }
            }
        }
        let mut out: Vec<u32> = Vec::new();
        let mut rest = cand;
        while rest.len() > 0
            invariant
                forall|d: u32|
                    (out@.contains(d) || rest@.contains(d)) == spec_query_hit(
                        self,
                        account_id,
                        collection,
                        *filter,
                        d,
                    ),
                forall|d: u32| !(#[trigger] out@.contains(d) && rest@.contains(d)),
                forall|a: int, b: int| 0 <= a < b < rest@.len() ==> rest@[a] != rest@[b],
                forall|a: int, b: int|
                    0 <= a < b < out@.len() ==> spec_doc_lt(
                        self,
                        account_id,
                        collection,
                        sort@,
                        #[trigger] out@[a],
                        #[trigger] out@[b],
                    ) && out@[a] != out@[b],
                forall|a: int, b: int|
                    0 <= a < out@.len() && 0 <= b < rest@.len() ==> spec_doc_lt(
                        self,
                        account_id,
                        collection,
                        sort@,
                        #[trigger] out@[a],
                        #[trigger] rest@[b],
                    ),
            decreases rest@.len(),
        {
            let ghost rest0 = rest@;
            let mut mi: usize = 0;
            let mut j: usize = 1;
            while j < rest.len()
                invariant
                    mi < j <= rest@.len(),
                    forall|k: int|
                        0 <= k < j && k != mi ==> !spec_doc_lt(
                            self,
                            account_id,
                            collection,
                            sort@,
                            #[trigger] rest@[k],
                            rest@[mi as int],
                        ),
                decreases rest@.len() - j,
            {
                let takes = self.doc_lt(account_id, collection, sort, 0, rest[j], rest[mi]);
                proof {
                    assert(sort@.skip(0) =~= sort@);
                }
                if takes {
                    proof {
                        assert forall|k: int|
                            0 <= k < j + 1 && k != j implies !spec_doc_lt(
                            self,
                            account_id,
                            collection,
                            sort@,
                            #[trigger] rest@[k],
                            rest@[j as int],
                        ) by {
                            if spec_doc_lt(
                                self,
                                account_id,
                                collection,
                                sort@,
                                rest@[k],
                                rest@[j as int],
                            ) {
                                lemma_doc_lt_trans(
                                    self,
                                    account_id,
                                    collection,
                                    sort@,
                                    rest@[k],
                                    rest@[j as int],
                                    rest@[mi as int],
                                );
                                if k == mi {
                                    lemma_doc_lt_irrefl(
                                        self,
                                        account_id,
                                        collection,
                                        sort@,
                                        rest@[mi as int],
                                    );
                                }
                            }
                        }
                    }
                    mi = j;
                }
                j = j + 1;
            }
            let m = rest[mi];
            proof {
                assert forall|b: int|
                    0 <= b < rest@.len() && b != mi implies spec_doc_lt(
                    self,
                    account_id,
                    collection,
                    sort@,
                    m,
                    #[trigger] rest@[b],
                ) by {
                    assert(rest@[b] != rest@[mi as int]);
                    lemma_doc_lt_conn(self, account_id, collection, sort@, m, rest@[b]);
                }
                assert(rest@.contains(m));
            }
            let ghost out0 = out@;
            out.push(m);
            proof {
                assert forall|d: u32|
                    #[trigger] out@.contains(d) == (out0.contains(d) || d == m) by {
                    if out0.contains(d) {
                        let k = choose|k: int| 0 <= k < out0.len() && out0[k] == d;
                        assert(out@[k] == d);
                    }
                    if d == m {
                        assert(out@[out@.len() - 1] == d);
                    }
                    if out@.contains(d) {
                        let k = choose|k: int| 0 <= k < out@.len() && out@[k] == d;
                        if k < out0.len() {
                            assert(out0[k] == d);
                        }
                    }
                }
                assert forall|a: int, b: int|
                    0 <= a < b < out@.len() implies spec_doc_lt(
                    self,
                    account_id,
                    collection,
                    sort@,
                    #[trigger] out@[a],
                    #[trigger] out@[b],
                ) && out@[a] != out@[b] by {
                    if b == out@.len() - 1 {
                        assert(out@[a] == out0[a]);
                        assert(out@[b] == rest0[mi as int]);
                        assert(!out0.contains(m));
                        assert(out0[a] != m);
                    }
                }
            }
            rest.remove(mi);
            proof {
                assert(rest@ =~= rest0.take(mi as int) + rest0.skip(mi as int + 1));
                assert forall|d: u32|
                    #[trigger] rest@.contains(d) == (rest0.contains(d) && d != m) by {
                    if rest0.contains(d) && d != m {
                        let k = choose|k: int| 0 <= k < rest0.len() && rest0[k] == d;
                        if k < mi {
                            assert(rest@[k] == d);
                        } else {
                            assert(k != mi);
                            assert(rest@[k - 1] == d);
                        }
                    }
                    if rest@.contains(d) {
                        let k = choose|k: int| 0 <= k < rest@.len() && rest@[k] == d;
                        if k < mi {
                            assert(rest0[k] == d);
                            assert(d != rest0[mi as int]);
                        } else {
                            assert(rest0[k + 1] == d);
                            assert(d != rest0[mi as int]);
                        }
                    }
                }
                assert forall|a: int, b: int|
                    0 <= a < b < rest@.len() implies rest@[a] != rest@[b] by {
                    let a0: int = if a < mi {
                        a
                    } else {
                        a + 1
                    };
                    let b0: int = if b < mi {
                        b
                    } else {
                        b + 1
                    };
                    assert(rest@[a] == rest0[a0]);
                    assert(rest@[b] == rest0[b0]);
                }
                assert forall|a: int, b: int|
                    0 <= a < out@.len() && 0 <= b < rest@.len() implies spec_doc_lt(
                    self,
                    account_id,
                    collection,
                    sort@,
                    #[trigger] out@[a],
                    #[trigger] rest@[b],
                ) by {
                    let b0: int = if b < mi {
                        b
                    } else {
                        b + 1
                    };
                    assert(rest@[b] == rest0[b0]);
                    assert(b0 != mi);
                }
            }
        }
        out
    }
}

/// Whether `w` stands in the stated relation to `value`, executable side.
pub fn op_matches(op: ComparisonOperator, w: u64, value: u64) -> (r: bool)
    ensures
        r == spec_op_matches(op, w, value),
{
    match op {
        ComparisonOperator::LowerThan => w < value,
        ComparisonOperator::LowerEqualThan => w <= value,
        ComparisonOperator::Equal => w == value,
        ComparisonOperator::GreaterThan => w > value,
        ComparisonOperator::GreaterEqualThan => w >= value,
    }
}

} // verus!
