//! Queries over the documents of a store.

use vstd::prelude::*;
use vstd::utf8::encode_utf8;

use crate::bytes::{bytes_eq, bytes_le, bytes_lt, copy_bytes, lex_le, lex_lt, push_bytes};
use crate::error::{string_of, FlowErrorView, Result};
use crate::jsondb::db::{no_store, DbView, JsonDB};
use crate::jsondb::documents::{
    decode_docs, decode_entries, docs_in, docs_of_entries, entry_range, gives_list, index_stretch,
};
use crate::jsondb::encoding::{
    composite_value, doc_prefix, doc_prefix_of, encode_composite_value, encode_index_value,
    idx_prefix, idx_prefix_of, index_value, prefix_range, SEP,
};
use crate::jsondb::helpers::records_under;
use crate::jsondb::schema::{texts_eq, IndexDef, IndexDefView, StoreDef};
use crate::jsondb::value::{extract_field, field_at, json_equal, json_seq, Json, JsonValue};
use crate::record::{ScanRange, ScanRangeView};

verus! {

/// Sort direction for [`QueryBuilder::order_by`].
#[derive(Debug, Clone, Copy, PartialEq, Eq, Structural)]
pub enum SortDir {
    /// Ascending order (smallest first).
    Asc,
    /// Descending order (largest first).
    Desc,
}

/// A condition on one field of a document.
#[derive(Debug)]
pub enum QueryFilter {
    /// The field is there and equals the value.
    Eq(String, JsonValue),
    /// The field is there, and its value is not before the first and before
    /// the second in the order of index values.
    Range(String, JsonValue, JsonValue),
    /// The field is there and sorts like one of the values.
    In(String, Vec<JsonValue>),
}

/// A condition with its values as they are meant.
pub enum FilterView {
    Eq(Seq<char>, Json),
    Range(Seq<char>, Json, Json),
    In(Seq<char>, Seq<Json>),
}

impl View for QueryFilter {
    type V = FilterView;

    open spec fn view(&self) -> FilterView {
        match self {
            QueryFilter::Eq(f, v) => FilterView::Eq(f@, v@),
            QueryFilter::Range(f, s, e) => FilterView::Range(f@, s@, e@),
            QueryFilter::In(f, vs) => FilterView::In(f@, json_seq(vs@)),
        }
    }
}

/// The conditions of a sequence.
pub open spec fn filters_of(s: Seq<QueryFilter>) -> Seq<FilterView> {
    s.map_values(|f: QueryFilter| f@)
}

impl FilterView {
    /// The field that the condition is on.
    pub open spec fn field(self) -> Seq<char> {
        match self {
            FilterView::Eq(f, _) => f,
            FilterView::Range(f, _, _) => f,
            FilterView::In(f, _) => f,
        }
    }

    /// A document meets the condition.
    pub open spec fn matches(self, doc: Json) -> bool {
        match field_at(doc, encode_utf8(self.field())) {
            None => false,
            Some(v) => match self {
                FilterView::Eq(_, want) => json_equal(v, want),
                FilterView::Range(_, start, end) => lex_le(index_value(start), index_value(v))
                    && lex_lt(index_value(v), index_value(end)),
                FilterView::In(_, values) => exists|i: int|
                    0 <= i < values.len() && index_value(#[trigger] values[i]) == index_value(v),
            },
        }
    }
}

/// A document meets all conditions.
pub open spec fn meets(doc: Json, filters: Seq<FilterView>) -> bool {
    forall|i: int| 0 <= i < filters.len() ==> (#[trigger] filters[i]).matches(doc)
}

impl QueryFilter {
    /// The field that the condition is on.
    fn field(&self) -> (r: &str)
        ensures
            r@ == self@.field(),
    {
        match self {
            QueryFilter::Eq(f, _) => f.as_str(),
            QueryFilter::Range(f, _, _) => f.as_str(),
            QueryFilter::In(f, _) => f.as_str(),
        }
    }
}

/// Checks whether a document matches a single filter.
pub fn filter_matches(doc: &JsonValue, filter: &QueryFilter) -> (r: bool)
    ensures
        r == filter@.matches(doc@),
{
    let v = match extract_field(doc, filter.field()) {
        Some(v) => v,
        None => {
            return false;
        },
    };
    match filter {
        QueryFilter::Eq(_, want) => v.same(want),
        QueryFilter::Range(_, start, end) => {
            let enc = encode_index_value(&v);
            bytes_le(&encode_index_value(start), &enc) && bytes_lt(&enc, &encode_index_value(end))
        },
        QueryFilter::In(_, values) => {
            let enc = encode_index_value(&v);
            let ghost all = json_seq(values@);
            let mut i: usize = 0;
            while i < values.len()
                invariant
                    i <= values.len(),
                    all == json_seq(values@),
                    filter@ == FilterView::In(filter@.field(), all),
                    field_at(doc@, encode_utf8(filter@.field())) == Some(v@),
                    enc@ == index_value(v@),
                    forall|j: int| 0 <= j < i ==> index_value(#[trigger] all[j]) != index_value(v@),
                decreases values.len() - i,
            {
                assert(all[i as int] == values@[i as int]@);
                if bytes_eq(&encode_index_value(&values[i]), &enc) {
                    proof {
                        let values = filter@->In_1;
                        assert(index_value(values[i as int]) == index_value(v@));
                        assert(exists|j: int|
                            0 <= j < values.len() && index_value(#[trigger] values[j])
                                == index_value(v@));
                    }
                    return true;
                }
                i = i + 1;
            }
            false
        },
    }
}

/// The bytes that a document sorts by: those of the value of a field, or of
/// null where it has no such field.
pub open spec fn sort_key(doc: Json, field: Seq<u8>) -> Seq<u8> {
    match field_at(doc, field) {
        Some(v) => index_value(v),
        None => index_value(Json::Null),
    }
}

/// The key `a` has to stand before the key `b`.
pub open spec fn key_before(a: Seq<u8>, b: Seq<u8>, dir: SortDir) -> bool {
    match dir {
        SortDir::Asc => lex_lt(a, b),
        SortDir::Desc => lex_lt(b, a),
    }
}

/// Where a document goes among sorted ones: behind all that it has not to
/// stand before.
pub open spec fn place(sorted: Seq<Json>, doc: Json, field: Seq<u8>, dir: SortDir) -> int
    decreases sorted.len(),
{
    if sorted.len() == 0 || !key_before(
        sort_key(doc, field),
        sort_key(sorted.last(), field),
        dir,
    ) {
        sorted.len() as int
    } else {
        place(sorted.drop_last(), doc, field, dir)
    }
}

/// The documents sorted by a field. Documents with equal keys keep their order.
pub open spec fn ordered(docs: Seq<Json>, field: Seq<u8>, dir: SortDir) -> Seq<Json>
    decreases docs.len(),
{
    if docs.len() == 0 {
        docs
    } else {
        let sorted = ordered(docs.drop_last(), field, dir);
        sorted.insert(place(sorted, docs.last(), field, dir), docs.last())
    }
}

pub proof fn lemma_place(sorted: Seq<Json>, doc: Json, field: Seq<u8>, dir: SortDir)
    ensures
        0 <= place(sorted, doc, field, dir) <= sorted.len(),
        place(sorted, doc, field, dir) > 0 ==> !key_before(
            sort_key(doc, field),
            sort_key(sorted[place(sorted, doc, field, dir) - 1], field),
            dir,
        ),
        forall|i: int|
            place(sorted, doc, field, dir) <= i < sorted.len() ==> key_before(
                sort_key(doc, field),
                sort_key(#[trigger] sorted[i], field),
                dir,
            ),
    decreases sorted.len(),
{
    if sorted.len() > 0 && key_before(
        sort_key(doc, field),
        sort_key(sorted.last(), field),
        dir,
    ) {
        lemma_place(sorted.drop_last(), doc, field, dir);
        assert forall|i: int|
            place(sorted, doc, field, dir) <= i < sorted.len() implies key_before(
            sort_key(doc, field),
            sort_key(#[trigger] sorted[i], field),
            dir,
        ) by {
            if i < sorted.len() - 1 {
                assert(sorted.drop_last()[i] == sorted[i]);
            }
        }
    }
}

/// What a query gives of the documents that it found: as many of them as the
/// limit allows, behind the first few.
pub open spec fn window(docs: Seq<Json>, offset: nat, limit: Option<nat>) -> Seq<Json> {
    let rest = if offset <= docs.len() {
        docs.skip(offset as int)
    } else {
        Seq::empty()
    };
    match limit {
        Some(n) => if n <= rest.len() {
            rest.take(n as int)
        } else {
            rest
        },
        None => rest,
    }
}

/// The first condition on a field.
pub open spec fn first_on(filters: Seq<FilterView>, field: Seq<char>) -> Option<FilterView>
    decreases filters.len(),
{
    if filters.len() == 0 {
        None
    } else if filters.first().field() == field {
        Some(filters.first())
    } else {
        first_on(filters.drop_first(), field)
    }
}

/// How many of an index's fields, from the first on, have a condition.
pub open spec fn score(filters: Seq<FilterView>, paths: Seq<Seq<char>>) -> nat
    decreases paths.len(),
{
    if paths.len() == 0 || first_on(filters, paths.first()) is None {
        0
    } else {
        1 + score(filters, paths.drop_first())
    }
}

/// A value that is no array and no object.
pub open spec fn is_scalar(v: Json) -> bool {
    !(v is Array) && !(v is Object)
}

/// A document that meets the first condition on a field is found under that
/// field in an index: the condition is no equality with an array or an object
/// and, where arrays are entered element by element, it is an equality.
pub open spec fn pins(filters: Seq<FilterView>, field: Seq<char>, by_element: bool) -> bool {
    match first_on(filters, field) {
        None => false,
        Some(FilterView::Eq(_, v)) => is_scalar(v),
        Some(_) => !by_element,
    }
}

/// The index enters every document that meets the conditions, under values that
/// these tell: each of its fields has one.
pub open spec fn usable(filters: Seq<FilterView>, d: IndexDefView) -> bool {
    &&& d.key_paths.len() > 0
    &&& forall|i: int|
        0 <= i < d.key_paths.len() ==> pins(
            filters,
            #[trigger] d.key_paths[i],
            d.multi_entry && d.key_paths.len() == 1,
        )
}

/// How good an index is for a query; 0 where it cannot be used.
pub open spec fn rating(filters: Seq<FilterView>, d: IndexDefView) -> nat {
    if usable(filters, d) {
        score(filters, d.key_paths)
    } else {
        0
    }
}

/// The first of the first `n` indexes with the highest rating, if one has any.
pub open spec fn best_index(filters: Seq<FilterView>, indexes: Seq<IndexDefView>, n: nat) -> Option<
    int,
>
    decreases n,
{
    if n == 0 || n > indexes.len() {
        None
    } else {
        let before = best_index(filters, indexes, (n - 1) as nat);
        let best = match before {
            Some(k) => rating(filters, indexes[k]),
            None => 0,
        };
        if rating(filters, indexes[n - 1]) > best {
            Some(n - 1)
        } else {
            before
        }
    }
}

/// The values that the first fields of an index must have.
pub open spec fn fixed_values(filters: Seq<FilterView>, paths: Seq<Seq<char>>) -> Seq<Json>
    decreases paths.len(),
{
    if paths.len() == 0 {
        Seq::empty()
    } else {
        match first_on(filters, paths.first()) {
            Some(FilterView::Eq(_, v)) => seq![v] + fixed_values(filters, paths.drop_first()),
            _ => Seq::empty(),
        }
    }
}

/// The start of the entries of an index with the fixed values.
pub open spec fn fixed_start(fixed: Seq<Json>) -> Seq<u8> {
    if fixed.len() == 0 {
        Seq::empty()
    } else {
        composite_value(fixed).push(SEP)
    }
}

/// The stretch of an index in which a query looks: the entries with the values
/// that its first fields must have, and the range of the field after them
/// where it has one.
pub open spec fn index_part(filters: Seq<FilterView>, store: Seq<u8>, d: IndexDefView) -> ScanRangeView {
    let fixed = fixed_values(filters, d.key_paths);
    let ib = encode_utf8(d.name);
    let next = if fixed.len() < d.key_paths.len() {
        first_on(filters, d.key_paths[fixed.len() as int])
    } else {
        None
    };
    match next {
        Some(FilterView::Range(_, start, end)) => entry_range(
            store,
            ib,
            fixed_start(fixed) + index_value(start),
            fixed_start(fixed) + index_value(end),
        ),
        _ => ScanRangeView::of_prefix(idx_prefix_of(store, ib) + composite_value(fixed)),
    }
}

impl DbView {
    /// The documents that a query looks at.
    pub open spec fn candidates(self, store: Seq<char>, filters: Seq<FilterView>) -> core::result::Result<
        Seq<Json>,
        FlowErrorView,
    > {
        match self.store(store) {
            None => Err(no_store(store)),
            Some(def) => {
                let sb = encode_utf8(store);
                match best_index(filters, def.indexes, def.indexes.len()) {
                    None => docs_in(records_under(self.engine, doc_prefix_of(sb)), None),
                    Some(k) => docs_of_entries(
                        self.engine,
                        self.records(index_part(filters, sb, def.indexes[k])),
                        sb,
                    ),
                }
            },
        }
    }

    /// What a query gives.
    pub open spec fn queried(self, q: QueryView) -> core::result::Result<Seq<Json>, FlowErrorView> {
        match self.candidates(q.store, q.filters) {
            Err(e) => Err(e),
            Ok(docs) => {
                let found = docs.filter(|d: Json| meets(d, q.filters));
                let sorted = match q.order_field {
                    Some(f) => ordered(found, encode_utf8(f), q.order_dir),
                    None => found,
                };
                Ok(window(sorted, q.offset, q.limit))
            },
        }
    }
}

/// What a query asks.
pub struct QueryView {
    pub store: Seq<char>,
    pub filters: Seq<FilterView>,
    pub order_field: Option<Seq<char>>,
    pub order_dir: SortDir,
    pub limit: Option<nat>,
    pub offset: nat,
}

/// A query builder for object stores.
///
/// Supports single-field and composite indexes, and optional
/// `order_by`/`limit`/`offset`. An index is used where each of its fields has a
/// filter, so that it enters every document that is asked for; otherwise all
/// documents are looked at. The documents that meet all filters are sorted
/// where an order is asked for; then the first few are skipped and the limit
/// is applied.
pub struct QueryBuilder<'a> {
    db: &'a JsonDB,
    store: &'a str,
    filters: Vec<QueryFilter>,
    order_field: Option<String>,
    order_dir: SortDir,
    limit: Option<usize>,
    offset: usize,
}

impl<'a> View for QueryBuilder<'a> {
    type V = QueryView;

    closed spec fn view(&self) -> QueryView {
        QueryView {
            store: self.store@,
            filters: filters_of(self.filters@),
            order_field: match self.order_field {
                Some(f) => Some(f@),
                None => None,
            },
            order_dir: self.order_dir,
            limit: match self.limit {
                Some(n) => Some(n as nat),
                None => None,
            },
            offset: self.offset as nat,
        }
    }
}

/// Where a query looks.
enum ScanPlan {
    Index(ScanRange),
    FullScan,
}

/// Whether the key `a` has to stand before the key `b`.
fn goes_before(a: &[u8], b: &[u8], dir: SortDir) -> (r: bool)
    ensures
        r == key_before(a@, b@, dir),
{
    match dir {
        SortDir::Asc => bytes_lt(a, b),
        SortDir::Desc => bytes_lt(b, a),
    }
}

/// Sorts documents by a field.
pub fn sort_docs(docs: Vec<JsonValue>, field: &str, dir: SortDir) -> (r: Vec<JsonValue>)
    ensures
        json_seq(r@) == ordered(json_seq(docs@), encode_utf8(field@), dir),
{
    let ghost all = json_seq(docs@);
    let ghost fb = encode_utf8(field@);
    let mut out: Vec<JsonValue> = Vec::new();
    let mut keys: Vec<Vec<u8>> = Vec::new();
    let mut i: usize = 0;
    assert(all.subrange(0, 0) =~= Seq::<Json>::empty());
    assert(json_seq(out@) =~= Seq::<Json>::empty());
    while i < docs.len()
        invariant
            i <= docs.len(),
            all == json_seq(docs@),
            fb == encode_utf8(field@),
            out@.len() == keys@.len(),
            json_seq(out@) == ordered(all.subrange(0, i as int), fb, dir),
            forall|j: int|
                0 <= j < keys@.len() ==> (#[trigger] keys@[j])@ == sort_key(json_seq(out@)[j], fb),
        decreases docs.len() - i,
    {
        let ghost before = json_seq(out@);
        let ghost doc = all[i as int];
        let key = match extract_field(&docs[i], field) {
            Some(v) => encode_index_value(&v),
            None => encode_index_value(&JsonValue::Null),
        };
        assert(doc == docs@[i as int]@);
        assert(key@ == sort_key(doc, fb));
        let mut k: usize = keys.len();
        assert(before.take(before.len() as int) =~= before);
        while k > 0 && goes_before(&key, &keys[k - 1], dir)
            invariant
                k <= keys@.len(),
                keys@.len() == before.len(),
                key@ == sort_key(doc, fb),
                place(before, doc, fb, dir) == place(before.take(k as int), doc, fb, dir),
                forall|j: int|
                    0 <= j < keys@.len() ==> (#[trigger] keys@[j])@ == sort_key(before[j], fb),
            decreases k,
        {
            proof {
                let t = before.take(k as int);
                assert(t.last() == before[k - 1]);
                assert(t.drop_last() =~= before.take(k - 1));
                assert(keys@[k - 1]@ == sort_key(before[k - 1], fb));
            }
            k = k - 1;
        }
        proof {
            let t = before.take(k as int);
            if k > 0 {
                assert(t.last() == before[k - 1]);
                assert(keys@[k - 1]@ == sort_key(before[k - 1], fb));
            }
            assert(place(before, doc, fb, dir) == k);
            assert(all.subrange(0, i + 1).drop_last() =~= all.subrange(0, i as int));
            assert(all.subrange(0, i + 1).last() == doc);
        }
        let copy = docs[i].copy();
        let ghost cv = copy@;
        let ghost old_keys = keys@;
        let ghost kv = key;
        out.insert(k, copy);
        keys.insert(k, key);
        proof {
            assert(json_seq(out@) =~= before.insert(k as int, cv));
            assert forall|j: int| 0 <= j < keys@.len() implies (#[trigger] keys@[j])@ == sort_key(
                json_seq(out@)[j],
                fb,
            ) by {
                if j < k {
                    assert(keys@[j] == old_keys[j]);
                } else if j > k {
                    assert(keys@[j] == old_keys[j - 1]);
                } else {
                    assert(keys@[j] == kv);
                }
            }
        }
        i = i + 1;
    }
    assert(all.subrange(0, all.len() as int) =~= all);
    out
}

impl<'a> QueryBuilder<'a> {
    /// The database that is asked.
    pub closed spec fn source(&self) -> JsonDB {
        *self.db
    }

    /// Creates a new query builder for the given store.
    pub fn new(db: &'a JsonDB, store: &'a str) -> (r: QueryBuilder<'a>)
        ensures
            r.source() == *db,
            r@ == (QueryView {
                store: store@,
                filters: Seq::empty(),
                order_field: None,
                order_dir: SortDir::Asc,
                limit: None,
                offset: 0,
            }),
    {
        let filters: Vec<QueryFilter> = Vec::new();
        assert(filters_of(filters@) =~= Seq::<FilterView>::empty());
        QueryBuilder {
            db,
            store,
            filters,
            order_field: None,
            order_dir: SortDir::Asc,
            limit: None,
            offset: 0,
        }
    }

    /// Adds a filter.
    fn with_filter(self, filter: QueryFilter) -> (r: QueryBuilder<'a>)
        ensures
            r.source() == self.source(),
            r@ == (QueryView { filters: self@.filters.push(filter@), ..self@ }),
    {
        let mut q = self;
        let ghost before = filters_of(q.filters@);
        let ghost f = filter@;
        q.filters.push(filter);
        assert(filters_of(q.filters@) =~= before.push(f));
        q
    }

    /// Filter: field == value.
    pub fn where_eq(self, field: &str, value: JsonValue) -> (r: QueryBuilder<'a>)
        ensures
            r.source() == self.source(),
            r@ == (QueryView {
                filters: self@.filters.push(FilterView::Eq(field@, value@)),
                ..self@
            }),
    {
        self.with_filter(QueryFilter::Eq(string_of(field), value))
    }

    /// Filter: `start <= field < end` (exclusive upper bound).
    pub fn where_range(self, field: &str, start: JsonValue, end: JsonValue) -> (r: QueryBuilder<'a>)
        ensures
            r.source() == self.source(),
            r@ == (QueryView {
                filters: self@.filters.push(FilterView::Range(field@, start@, end@)),
                ..self@
            }),
    {
        self.with_filter(QueryFilter::Range(string_of(field), start, end))
    }

    /// Filter: field IN [...values].
    pub fn where_in(self, field: &str, values: Vec<JsonValue>) -> (r: QueryBuilder<'a>)
        ensures
            r.source() == self.source(),
            r@ == (QueryView {
                filters: self@.filters.push(FilterView::In(field@, json_seq(values@))),
                ..self@
            }),
    {
        self.with_filter(QueryFilter::In(string_of(field), values))
    }

    /// Sorts by `field` in ascending or descending order.
    ///
    /// Where the index that is used already gives the documents in this order,
    /// the sort finds nothing to move.
    pub fn order_by(self, field: &str, dir: SortDir) -> (r: QueryBuilder<'a>)
        ensures
            r.source() == self.source(),
            r@ == (QueryView { order_field: Some(field@), order_dir: dir, ..self@ }),
    {
        let mut q = self;
        q.order_field = Some(string_of(field));
        q.order_dir = dir;
        q
    }

    /// Limits results to `n` documents.
    pub fn limit(self, n: usize) -> (r: QueryBuilder<'a>)
        ensures
            r.source() == self.source(),
            r@ == (QueryView { limit: Some(n as nat), ..self@ }),
    {
        let mut q = self;
        q.limit = Some(n);
        q
    }

    /// Skips the first `n` documents.
    pub fn offset(self, n: usize) -> (r: QueryBuilder<'a>)
        ensures
            r.source() == self.source(),
            r@ == (QueryView { offset: n as nat, ..self@ }),
    {
        let mut q = self;
        q.offset = n;
        q
    }

    /// The position of the first filter on a field; the number of filters
    /// where there is none.
    fn find_filter(&self, field: &str) -> (r: usize)
        ensures
            r <= self.filters@.len(),
            match first_on(self@.filters, field@) {
                Some(f) => r < self.filters@.len() && self.filters@[r as int]@ == f,
                None => r == self.filters@.len(),
            },
    {
        let ghost all = self@.filters;
        let mut i: usize = 0;
        assert(all.subrange(0, all.len() as int) =~= all);
        while i < self.filters.len()
            invariant
                i <= self.filters.len(),
                all == self@.filters,
                all == filters_of(self.filters@),
                first_on(all, field@) == first_on(
                    all.subrange(i as int, all.len() as int),
                    field@,
                ),
            decreases self.filters.len() - i,
        {
            let ghost rest = all.subrange(i as int, all.len() as int);
            assert(rest.first() == self.filters@[i as int]@);
            assert(rest.drop_first() =~= all.subrange(i + 1, all.len() as int));
            if texts_eq(self.filters[i].field(), field) {
                return i;
            }
            i = i + 1;
        }
        i
    }

    /// Number of prefix key_paths covered by Eq/Range/In filters.
    fn score_index(&self, idx: &IndexDef) -> (r: usize)
        ensures
            r == score(self@.filters, idx@.key_paths),
    {
        let ghost all = idx@.key_paths;
        let mut i: usize = 0;
        assert(all.subrange(0, all.len() as int) =~= all);
        while i < idx.key_paths.len()
            invariant
                i <= idx.key_paths.len(),
                all == idx@.key_paths,
                all.len() == idx.key_paths@.len(),
                score(self@.filters, all) == i + score(
                    self@.filters,
                    all.subrange(i as int, all.len() as int),
                ),
            decreases idx.key_paths.len() - i,
        {
            let ghost rest = all.subrange(i as int, all.len() as int);
            assert(rest.first() == idx.key_paths@[i as int]@);
            assert(rest.drop_first() =~= all.subrange(i + 1, all.len() as int));
            if self.find_filter(idx.key_paths[i].as_str()) >= self.filters.len() {
                return i;
            }
            i = i + 1;
        }
        i
    }

    /// Whether the index enters every document that meets the filters.
    fn can_use(&self, idx: &IndexDef) -> (r: bool)
        ensures
            r == usable(self@.filters, idx@),
    {
        let ghost fs = self@.filters;
        let ghost all = idx@.key_paths;
        let by_element = idx.multi_entry && idx.key_paths.len() == 1;
        let mut i: usize = 0;
        while i < idx.key_paths.len()
            invariant
                i <= idx.key_paths.len(),
                fs == self@.filters,
                fs == filters_of(self.filters@),
                all == idx@.key_paths,
                all.len() == idx.key_paths@.len(),
                by_element == (idx@.multi_entry && all.len() == 1),
                forall|j: int| 0 <= j < i ==> pins(fs, #[trigger] all[j], by_element),
            decreases idx.key_paths.len() - i,
        {
            assert(all[i as int] == idx.key_paths@[i as int]@);
            let k: usize = self.find_filter(idx.key_paths[i].as_str());
            if k >= self.filters.len() {
                assert(!pins(fs, all[i as int], by_element));
                return false;
            }
            let pinned = match &self.filters[k] {
                QueryFilter::Eq(_, v) => match v {
                    JsonValue::Array(_) => false,
                    JsonValue::Object(_) => false,
                    _ => true,
                },
                _ => !by_element,
            };
            if !pinned {
                assert(!pins(fs, all[i as int], by_element));
                return false;
            }
            i = i + 1;
        }
        idx.key_paths.len() > 0
    }

    /// The stretch of an index in which the query looks.
    fn build_index_scan(&self, idx: &IndexDef) -> (r: ScanRange)
        ensures
            r@ == index_part(self@.filters, encode_utf8(self@.store), idx@),
    {
        let ghost fs = self@.filters;
        let ghost all = idx@.key_paths;
        let ghost whole = fixed_values(fs, all);
        let mut fixed: Vec<JsonValue> = Vec::new();
        let mut i: usize = 0;
        let mut bounds: Option<(&JsonValue, &JsonValue)> = None;
        let mut done = false;
        proof {
            assert(all.subrange(0, all.len() as int) =~= all);
            assert(json_seq(fixed@) + whole =~= whole);
        }
        while i < idx.key_paths.len() && !done
            invariant
                i <= idx.key_paths.len(),
                fs == self@.filters,
                fs == filters_of(self.filters@),
                all == idx@.key_paths,
                all.len() == idx.key_paths@.len(),
                whole == fixed_values(fs, all),
                fixed@.len() == i,
                !done ==> bounds is None && whole == json_seq(fixed@) + fixed_values(
                    fs,
                    all.subrange(i as int, all.len() as int),
                ),
                done ==> {
                    &&& i < all.len()
                    &&& whole == json_seq(fixed@)
                    &&& match first_on(fs, all[i as int]) {
                        Some(FilterView::Range(_, s, e)) => bounds is Some && (bounds->0).0@ == s && (
                        bounds->0).1@ == e,
                        _ => bounds is None,
                    }
                },
            decreases all.len() - i, (if done { 0int } else { 1int }),
        {
            let ghost rest = all.subrange(i as int, all.len() as int);
            let ghost before = json_seq(fixed@);
            proof {
                assert(rest.first() == all[i as int]);
                assert(all[i as int] == idx.key_paths@[i as int]@);
                assert(rest.drop_first() =~= all.subrange(i + 1, all.len() as int));
            }
            let k: usize = self.find_filter(idx.key_paths[i].as_str());
            if k < self.filters.len() {
                match &self.filters[k] {
                    QueryFilter::Eq(_, v) => {
                        let copy = v.copy();
                        let ghost cv = copy@;
                        fixed.push(copy);
                        proof {
                            assert(json_seq(fixed@) =~= before.push(cv));
                            assert(before + (seq![cv] + fixed_values(fs, rest.drop_first()))
                                =~= before.push(cv) + fixed_values(fs, rest.drop_first()));
                        }
                        i = i + 1;
                    },
                    QueryFilter::Range(_, s, e) => {
                        assert(before + Seq::<Json>::empty() =~= before);
                        bounds = Some((s, e));
                        done = true;
                    },
                    QueryFilter::In(_, _) => {
                        assert(before + Seq::<Json>::empty() =~= before);
                        done = true;
                    },
                }
            } else {
                assert(before + Seq::<Json>::empty() =~= before);
                done = true;
            }
        }
        proof {
            if !done {
                assert(all.subrange(i as int, all.len() as int) =~= Seq::<Seq<char>>::empty());
                assert(json_seq(fixed@) + Seq::<Json>::empty() =~= json_seq(fixed@));
            }
        }
        let encoded = encode_composite_value(&fixed);
        match bounds {
            Some((s, e)) => {
                let mut from = encoded;
                if fixed.len() > 0 {
                    from.push(SEP);
                }
                assert(from@ =~= fixed_start(whole));
                let mut to = copy_bytes(&from);
                push_bytes(&mut from, &encode_index_value(s));
                push_bytes(&mut to, &encode_index_value(e));
                index_stretch(self.store, idx.name.as_str(), &from, &to)
            },
            None => {
                let mut prefix = idx_prefix(self.store, idx.name.as_str());
                push_bytes(&mut prefix, &encoded);
                prefix_range(&prefix)
            },
        }
    }

    /// Finds the index that covers most of the filters' fields, of those that
    /// enter every document that meets the filters.
    fn plan_scan(&self, def: &StoreDef) -> (r: ScanPlan)
        ensures
            match best_index(self@.filters, def@.indexes, def@.indexes.len()) {
                None => r is FullScan,
                Some(k) => r is Index && r->Index_0@ == index_part(
                    self@.filters,
                    encode_utf8(self@.store),
                    def@.indexes[k],
                ),
            },
    {
        let ghost fs = self@.filters;
        let ghost all = def@.indexes;
        let mut best: Option<usize> = None;
        let mut best_score: usize = 0;
        let mut i: usize = 0;
        while i < def.indexes.len()
            invariant
                i <= def.indexes.len(),
                fs == self@.filters,
                all == def@.indexes,
                all.len() == def.indexes@.len(),
                match best_index(fs, all, i as nat) {
                    None => best is None && best_score == 0,
                    Some(k) => best is Some && best->0 == k && 0 <= k < i && best_score == rating(
                        fs,
                        all[k],
                    ),
                },
            decreases def.indexes.len() - i,
        {
            assert(all[i as int] == def.indexes@[i as int]@);
            let s: usize = if self.can_use(&def.indexes[i]) {
                self.score_index(&def.indexes[i])
            } else {
                0
            };
            if s > best_score {
                best = Some(i);
                best_score = s;
            }
            i = i + 1;
        }
        match best {
            Some(k) => {
                assert(all[k as int] == def.indexes@[k as int]@);
                ScanPlan::Index(self.build_index_scan(&def.indexes[k]))
            },
            None => ScanPlan::FullScan,
        }
    }

    /// Whether a document meets all filters.
    fn accepts(&self, doc: &JsonValue) -> (r: bool)
        ensures
            r == meets(doc@, self@.filters),
    {
        let ghost fs = self@.filters;
        let mut i: usize = 0;
        while i < self.filters.len()
            invariant
                i <= self.filters.len(),
                fs == self@.filters,
                fs == filters_of(self.filters@),
                forall|j: int| 0 <= j < i ==> (#[trigger] fs[j]).matches(doc@),
            decreases self.filters.len() - i,
        {
            assert(fs[i as int] == self.filters@[i as int]@);
            if !filter_matches(doc, &self.filters[i]) {
                return false;
            }
            i = i + 1;
        }
        true
    }

    /// The documents among those given that meet all filters.
    fn retain(&self, docs: &Vec<JsonValue>) -> (r: Vec<JsonValue>)
        ensures
            json_seq(r@) == json_seq(docs@).filter(|d: Json| meets(d, self@.filters)),
    {
        let ghost all = json_seq(docs@);
        let ghost p = |d: Json| meets(d, self@.filters);
        let mut out: Vec<JsonValue> = Vec::new();
        let mut i: usize = 0;
        proof {
            reveal(Seq::filter);
            assert(json_seq(out@) =~= all.subrange(0, 0).filter(p));
        }
        while i < docs.len()
            invariant
                i <= docs.len(),
                all == json_seq(docs@),
                p == (|d: Json| meets(d, self@.filters)),
                json_seq(out@) == all.subrange(0, i as int).filter(p),
            decreases docs.len() - i,
        {
            let ghost before = json_seq(out@);
            proof {
                reveal(Seq::filter);
                assert(all.subrange(0, i + 1).drop_last() =~= all.subrange(0, i as int));
                assert(all.subrange(0, i + 1).last() == docs@[i as int]@);
            }
            if self.accepts(&docs[i]) {
                let copy = docs[i].copy();
                let ghost cv = copy@;
                out.push(copy);
                assert(json_seq(out@) =~= before.push(cv));
            }
            i = i + 1;
        }
        assert(all.subrange(0, all.len() as int) =~= all);
        out
    }

    /// The part of the documents that the offset and the limit leave.
    fn cut(&self, docs: &Vec<JsonValue>) -> (r: Vec<JsonValue>)
        ensures
            json_seq(r@) == window(json_seq(docs@), self@.offset, self@.limit),
    {
        let ghost all = json_seq(docs@);
        let ghost want = window(all, self@.offset, self@.limit);
        let mut out: Vec<JsonValue> = Vec::new();
        let mut i: usize = self.offset;
        let mut left: usize = match self.limit {
            Some(n) => n,
            None => docs.len(),
        };
        assert(json_seq(out@) =~= want.subrange(0, 0));
        while i < docs.len() && left > 0
            invariant
                all == json_seq(docs@),
                want == window(all, self.offset as nat, self@.limit),
                self@.limit == (match self.limit {
                    Some(n) => Some(n as nat),
                    None => None::<nat>,
                }),
                self.offset <= i,
                i <= docs.len() || i == self.offset,
                left as int == (match self.limit {
                    Some(n) => n as int,
                    None => docs@.len() as int,
                }) - (i - self.offset),
                i - self.offset <= want.len(),
                json_seq(out@) == want.subrange(0, i - self.offset),
            decreases docs.len() - i,
        {
            let ghost before = json_seq(out@);
            let copy = docs[i].copy();
            let ghost cv = copy@;
            out.push(copy);
            proof {
                assert(json_seq(out@) =~= before.push(cv));
                assert(all[i as int] == docs@[i as int]@);
                assert(want[i - self.offset] == all[i as int]);
                assert(json_seq(out@) =~= want.subrange(0, i - self.offset + 1));
            }
            i = i + 1;
            left = left - 1;
        }
        proof {
            assert(want.len() == i - self.offset);
            assert(want.subrange(0, want.len() as int) =~= want);
        }
        out
    }

    /// Executes the query and returns matching documents.
    pub fn collect(self) -> (r: Result<Vec<JsonValue>>)
        requires
            self.source().well_formed(),
        ensures
            gives_list(self.source()@.queried(self@), r),
    {
        let def = match self.db.require_store(self.store) {
            Ok(d) => d,
            Err(e) => {
                return Err(e);
            },
        };
        let read = match self.plan_scan(&def) {
            ScanPlan::Index(range) => decode_entries(
                self.db.engine(),
                &self.db.engine().scan_all(range),
                self.store,
            ),
            ScanPlan::FullScan => decode_docs(
                &self.db.engine().scan_all(prefix_range(&doc_prefix(self.store))),
                None,
            ),
        };
        let docs = match read {
            Ok(docs) => docs,
            Err(e) => {
                return Err(e);
            },
        };
        let found = self.retain(&docs);
        match &self.order_field {
            Some(field) => {
                let sorted = sort_docs(found, field.as_str(), self.order_dir);
                Ok(self.cut(&sorted))
            },
            None => Ok(self.cut(&found)),
        }
    }
}

impl JsonDB {
    /// Creates a [`QueryBuilder`] for the given store.
    pub fn query<'a>(&'a self, store: &'a str) -> (r: QueryBuilder<'a>)
        ensures
            r.source() == *self,
            r@ == (QueryView {
                store: store@,
                filters: Seq::empty(),
                order_field: None,
                order_dir: SortDir::Asc,
                limit: None,
                offset: 0,
            }),
    {
        QueryBuilder::new(self, store)
    }
}

} // verus!
