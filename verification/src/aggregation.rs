//! The pivot grouping engine: builds composite row and column keys from each
//! record, keeps the insertion-ordered key sets and the cell grid, feeds each
//! contributing value to the right accumulator, and renders the finished
//! grid. Key membership is tracked by an `indexmap` set behind trusted
//! wrappers; the grid itself and all grouping logic are verified.

use crate::aggfunc::{Accumulate, OutputValue};
use crate::errors::CsvCliError;
use crate::parsing::{FieldParse, FieldValue, ParsingHelper, ParsingType};
use crate::strutil::{
    is_empty_val, is_empty_value, join_with, lex_le, sorted_lex, sorted_lex_desc, str_views,
};
use indexmap::IndexSet;
use vstd::pervasive::VecAdditionalExecFns;
use vstd::prelude::*;
use vstd::string::StringExecFns;

verus! {

broadcast use vstd::seq_lib::group_to_multiset_ensures, vstd::multiset::group_multiset_axioms;

/// How the rows or the columns of the output are ordered.
#[derive(Debug, PartialEq, Eq, Structural, Clone, Copy)]
pub enum OutputOrder {
    /// First-seen-in-input order.
    IndexOrder,
    /// Ascending lexicographic order of the key string.
    Ascending,
    /// Descending lexicographic order of the key string.
    Descending,
}

/// The general shape of the data being aggregated, used to phrase parse
/// errors.
#[derive(Debug, PartialEq, Eq, Structural, Clone, Copy)]
pub enum ParsingStrategy {
    /// Text (string) data.
    Text,
    /// Numeric data, held as fixed-point decimals.
    Numeric,
    /// Date-time data.
    Date,
}

/// The aggregation function a run computes.
#[derive(Debug, PartialEq, Eq, Structural, Clone, Copy)]
pub enum AggType {
    Count,
    CountUnique,
    Maximum,
    Mean,
    Median,
    Minimum,
    Mode,
    Range,
    StdDev,
    Sum,
}

/// The parsing strategy each aggregation function calls for, given whether
/// the caller asked for numeric or date comparison. Standard deviation works
/// on floating-point data, which this engine does not parse, so it has no
/// strategy here.
pub fn strategy_for(agg: AggType, parse_numeric: bool, parse_date: bool) -> (r: Option<
    ParsingStrategy,
>)
    ensures
        r == spec_strategy_for(agg, parse_numeric, parse_date),
{
    match agg {
        AggType::Count => Some(ParsingStrategy::Text),
        AggType::CountUnique => Some(ParsingStrategy::Text),
        AggType::Mode => Some(ParsingStrategy::Text),
        AggType::Mean => Some(ParsingStrategy::Numeric),
        AggType::Median => Some(ParsingStrategy::Numeric),
        AggType::Sum => Some(ParsingStrategy::Numeric),
        AggType::StdDev => None,
        AggType::Minimum => {
            if parse_numeric {
                Some(ParsingStrategy::Numeric)
            } else if parse_date {
                Some(ParsingStrategy::Date)
            } else {
                Some(ParsingStrategy::Text)
            }
        },
        AggType::Maximum => {
            if parse_numeric {
                Some(ParsingStrategy::Numeric)
            } else if parse_date {
                Some(ParsingStrategy::Date)
            } else {
                Some(ParsingStrategy::Text)
            }
        },
        AggType::Range => {
            if parse_numeric {
                Some(ParsingStrategy::Numeric)
            } else {
                Some(ParsingStrategy::Date)
            }
        },
    }
}

/// What `strategy_for` decides for each aggregation function.
pub open spec fn spec_strategy_for(agg: AggType, parse_numeric: bool, parse_date: bool) -> Option<
    ParsingStrategy,
> {
    match agg {
        AggType::Count => Some(ParsingStrategy::Text),
        AggType::CountUnique => Some(ParsingStrategy::Text),
        AggType::Mode => Some(ParsingStrategy::Text),
        AggType::Mean => Some(ParsingStrategy::Numeric),
        AggType::Median => Some(ParsingStrategy::Numeric),
        AggType::Sum => Some(ParsingStrategy::Numeric),
        AggType::StdDev => None,
        AggType::Minimum => if parse_numeric {
            Some(ParsingStrategy::Numeric)
        } else if parse_date {
            Some(ParsingStrategy::Date)
        } else {
            Some(ParsingStrategy::Text)
        },
        AggType::Maximum => if parse_numeric {
            Some(ParsingStrategy::Numeric)
        } else if parse_date {
            Some(ParsingStrategy::Date)
        } else {
            Some(ParsingStrategy::Text)
        },
        AggType::Range => if parse_numeric {
            Some(ParsingStrategy::Numeric)
        } else {
            Some(ParsingStrategy::Date)
        },
    }
}

#[verifier::external_type_specification]
#[verifier::external_body]
#[verifier::reject_recursive_types(T)]
#[verifier::reject_recursive_types(S)]
pub struct ExIndexSet<T, S>(IndexSet<T, S>);

/// The elements an insertion-ordered string set holds, in insertion order,
/// as character views.
pub uninterp spec fn iset_elems(s: IndexSet<String>) -> Seq<Seq<char>>;

/// Relies on indexmap's `IndexSet::new`: a new set is empty.
#[verifier::external_body]
fn iset_new() -> (r: IndexSet<String>)
    ensures
        iset_elems(r) == Seq::<Seq<char>>::empty(),
{
    IndexSet::new()
}

/// Relies on indexmap's `IndexSet::insert`: inserting an element the set
/// already holds (`String` equality is character equality) keeps the set
/// unchanged and yields false; a new element is appended at the end and
/// yields true.
#[verifier::external_body]
fn iset_insert(s: &mut IndexSet<String>, v: String) -> (r: bool)
    ensures
        r == !iset_elems(*old(s)).contains(v@),
        iset_elems(*final(s)) == if iset_elems(*old(s)).contains(v@) {
            iset_elems(*old(s))
        } else {
            iset_elems(*old(s)).push(v@)
        },
{
    s.insert(v)
}

/// The separator joined between the fields of a composite key, chosen not
/// to collide with ordinary field content.
pub fn field_separator() -> (r: &'static str)
    ensures
        r@ == "_<sep>_"@,
{
    "_<sep>_"
}

/// The sentinel key used when no grouping columns are configured.
pub fn total_key() -> (r: String)
    ensures
        r@ == "total"@,
{
    String::from_str("total")
}

/// The composite key for a record: the configured fields joined with the
/// separator, or the sentinel `"total"` when no columns are configured.
pub open spec fn composite_key(cols: Seq<usize>, fields: Seq<Seq<char>>) -> Seq<char> {
    if cols.len() == 0 {
        "total"@
    } else {
        join_with(cols.map_values(|c: usize| fields[c as int]), "_<sep>_"@)
    }
}

/// Key sequences hold no duplicates.
pub open spec fn distinct_keys(s: Seq<Seq<char>>) -> bool {
    forall|i: int, j: int| 0 <= i < j < s.len() ==> s[i] != s[j]
}

/// Inserting into an ordered key set: already-present keys leave it
/// unchanged, new keys are appended.
pub open spec fn insert_key(ks: Seq<Seq<char>>, k: Seq<char>) -> Seq<Seq<char>> {
    if ks.contains(k) {
        ks
    } else {
        ks.push(k)
    }
}

/// The index of the first occurrence of `k`.
pub open spec fn first_index(ks: Seq<Seq<char>>, k: Seq<char>) -> int
    decreases ks.len(),
{
    if ks.len() == 0 {
        0
    } else if ks[0] == k {
        0
    } else {
        1 + first_index(ks.drop_first(), k)
    }
}

/// For a present key, `first_index` points at its first occurrence.
pub proof fn lemma_first_index(ks: Seq<Seq<char>>, k: Seq<char>)
    requires
        ks.contains(k),
    ensures
        0 <= first_index(ks, k) < ks.len(),
        ks[first_index(ks, k)] == k,
        forall|j: int| 0 <= j < first_index(ks, k) ==> ks[j] != k,
    decreases ks.len(),
{
    if ks.len() > 0 && ks[0] != k {
        let t = ks.drop_first();
        assert(t.contains(k)) by {
            let i = choose|i: int| 0 <= i < ks.len() && ks[i] == k;
            assert(t[i - 1] == k);
        }
        lemma_first_index(t, k);
        assert(forall|j: int| 0 <= j < t.len() ==> t[j] == ks[j + 1]);
        assert forall|j: int| 0 <= j < first_index(ks, k) implies ks[j] != k by {
            if j > 0 {
                assert(t[j - 1] != k);
            }
        }
    }
}

/// An index that holds `k` with nothing equal before it is the first index.
pub proof fn lemma_first_index_unique(ks: Seq<Seq<char>>, k: Seq<char>, i: int)
    requires
        0 <= i < ks.len(),
        ks[i] == k,
        forall|j: int| 0 <= j < i ==> ks[j] != k,
    ensures
        first_index(ks, k) == i,
{
    assert(ks.contains(k));
    lemma_first_index(ks, k);
    let fi = first_index(ks, k);
    if fi < i {
        assert(ks[fi] != k);
    } else if fi > i {
        assert(ks[i] != k);
    }
}

/// Whether `t` presents the keys of `s` in the order a policy asks for.
pub open spec fn ordered_by(policy: OutputOrder, s: Seq<Seq<char>>, t: Seq<Seq<char>>) -> bool {
    match policy {
        OutputOrder::IndexOrder => t == s,
        OutputOrder::Ascending => t.to_multiset() == s.to_multiset() && sorted_lex(t),
        OutputOrder::Descending => t.to_multiset() == s.to_multiset() && sorted_lex_desc(t),
    }
}

/// The message a failed value parse carries, per parsing strategy.
pub open spec fn spec_parse_err_msg(strategy: ParsingStrategy, fmt: Seq<char>) -> Seq<char> {
    match strategy {
        ParsingStrategy::Text => "Failed to parse as text"@,
        ParsingStrategy::Numeric => "Failed to parse as numeric"@,
        ParsingStrategy::Date => "Could not parse as date with "@ + fmt + " format"@,
    }
}

/// The object that computes the aggregation: one accumulator per populated
/// (row key, column key) cell, created on the first contributing record.
pub struct Aggregator<T, I, O> where
    T: Accumulate<I, O>,
    I: FieldParse,
    O: OutputValue,
 {
    /// The cell grid: one row per row key, one slot per column key, in
    /// first-seen order; a slot is `None` until a record contributes to it.
    pub aggregations: Vec<Vec<Option<T>>>,
    /// The distinct row keys, by insertion order (`indexmap` set).
    pub indexes: IndexSet<String>,
    /// The distinct column keys, by insertion order (`indexmap` set).
    pub columns: IndexSet<String>,
    /// Verified mirror of `indexes`, aligned with the grid rows.
    pub index_vec: Vec<String>,
    /// Verified mirror of `columns`, aligned with the grid columns.
    pub column_vec: Vec<String>,
    /// The row keys in output order (sorted by `prepare_write`).
    pub row_out: Vec<String>,
    /// The column keys in output order (sorted by `prepare_write`).
    pub col_out: Vec<String>,
    pub index_cols: Vec<usize>,
    pub column_cols: Vec<usize>,
    pub values_col: usize,
    pub skip_null: bool,
    pub row_order: OutputOrder,
    pub column_order: OutputOrder,
    pub parsing_strategy: ParsingStrategy,
    pub parser: ParsingHelper,
    /// How many records have contributed (bounds every cell's history).
    pub records_added: usize,
    pub input_type: core::marker::PhantomData<I>,
    pub output_type: core::marker::PhantomData<O>,
}

impl<T, I, O> Aggregator<T, I, O> where
    T: Accumulate<I, O>,
    I: FieldParse,
    O: OutputValue,
 {
    /// The distinct row keys, in first-seen order.
    pub open spec fn rows(&self) -> Seq<Seq<char>> {
        str_views(self.index_vec@)
    }

    /// The distinct column keys, in first-seen order.
    pub open spec fn cols(&self) -> Seq<Seq<char>> {
        str_views(self.column_vec@)
    }

    /// The accumulator in the cell at grid position (i, j).
    pub open spec fn cell_at(&self, i: int, j: int) -> Option<T> {
        self.aggregations@[i]@[j]
    }

    /// The observation history of the cell at grid position (i, j).
    pub open spec fn cell_obs(&self, i: int, j: int) -> Option<Seq<I::V>> {
        match self.cell_at(i, j) {
            Some(t) => Some(t.obs()),
            None => None,
        }
    }

    /// How many records have contributed so far.
    pub open spec fn records(&self) -> int {
        self.records_added as int
    }

    /// The row composite key of a record.
    pub open spec fn row_key_of(&self, fields: Seq<Seq<char>>) -> Seq<char> {
        composite_key(self.index_cols@, fields)
    }

    /// The column composite key of a record.
    pub open spec fn col_key_of(&self, fields: Seq<Seq<char>>) -> Seq<char> {
        composite_key(self.column_cols@, fields)
    }

    /// Whether a record is dropped outright: skipping is on and the value
    /// field is in the empty-value vocabulary.
    pub open spec fn skip_this(&self, fields: Seq<Seq<char>>) -> bool {
        self.skip_null && is_empty_value(fields[self.values_col as int])
    }

    /// A configured key column index lies outside the record.
    pub open spec fn keys_out_of_bounds(&self, fields: Seq<Seq<char>>) -> bool {
        ||| exists|k: int|
            0 <= k < self.index_cols@.len() && (#[trigger] self.index_cols@[k]) >= fields.len()
        ||| exists|k: int|
            0 <= k < self.column_cols@.len() && (#[trigger] self.column_cols@[k]) >= fields.len()
    }

    /// Well-formed engine state.
    pub open spec fn wf(&self) -> bool {
        &&& self.rows() == iset_elems(self.indexes)
        &&& self.cols() == iset_elems(self.columns)
        &&& distinct_keys(self.rows())
        &&& distinct_keys(self.cols())
        &&& str_views(self.row_out@).to_multiset() == self.rows().to_multiset()
        &&& str_views(self.col_out@).to_multiset() == self.cols().to_multiset()
        &&& self.aggregations@.len() == self.index_vec@.len()
        &&& forall|i: int|
            0 <= i < self.aggregations@.len() ==> (#[trigger] self.aggregations@[i])@.len()
                == self.column_vec@.len()
        &&& forall|i: int, j: int|
            0 <= i < self.rows().len() && 0 <= j < self.cols().len() ==> match #[trigger] self.cell_at(
                i,
                j,
            ) {
                Some(t) => t.inv() && 1 <= t.obs().len() && t.obs().len() <= self.records_added,
                None => true,
            }
    }

    /// The configuration does not change while records are added.
    pub open spec fn same_config(pre: Self, post: Self) -> bool {
        &&& post.index_cols == pre.index_cols
        &&& post.column_cols == pre.column_cols
        &&& post.values_col == pre.values_col
        &&& post.skip_null == pre.skip_null
        &&& post.row_order == pre.row_order
        &&& post.column_order == pre.column_order
        &&& post.parsing_strategy == pre.parsing_strategy
        &&& post.parser == pre.parser
    }

    /// Every cell of `post` holds what the same cell of `pre` held; cells
    /// beyond `pre`'s grid are empty.
    pub open spec fn cells_preserved_except(pre: Self, post: Self, ri: int, ci: int) -> bool {
        forall|i: int, j: int|
            0 <= i < post.rows().len() && 0 <= j < post.cols().len() && !(i == ri && j == ci)
                ==> #[trigger] post.cell_obs(i, j) == (if i < pre.rows().len() && j
                < pre.cols().len() {
                pre.cell_obs(i, j)
            } else {
                None
            })
    }

    /// The one mutation a contributing record makes: its cell's history
    /// grows by the parsed value (or starts with it), every other cell is
    /// untouched.
    pub open spec fn cell_updated(pre: Self, post: Self, fields: Seq<Seq<char>>, v: I::V) -> bool {
        let rk = pre.row_key_of(fields);
        let ck = pre.col_key_of(fields);
        let ri = first_index(post.rows(), rk);
        let ci = first_index(post.cols(), ck);
        &&& post.cell_obs(ri, ci) == Some(
            match (if ri < pre.rows().len() && ci < pre.cols().len() {
                pre.cell_obs(ri, ci)
            } else {
                None
            }) {
                Some(o) => o.push(v),
                None => seq![v],
            },
        )
        &&& Self::cells_preserved_except(pre, post, ri, ci)
    }

    /// Both composite keys are recorded, in insertion order.
    pub open spec fn keys_inserted(pre: Self, post: Self, fields: Seq<Seq<char>>) -> bool {
        &&& post.rows() == insert_key(pre.rows(), pre.row_key_of(fields))
        &&& post.cols() == insert_key(pre.cols(), pre.col_key_of(fields))
        &&& str_views(post.row_out@) == insert_key(str_views(pre.row_out@), pre.row_key_of(fields))
        &&& str_views(post.col_out@) == insert_key(str_views(pre.col_out@), pre.col_key_of(fields))
    }

    /// A fresh engine: no keys, no cells, no records.
    pub fn new(
        index_cols: Vec<usize>,
        column_cols: Vec<usize>,
        values_col: usize,
        skip_null: bool,
        row_order: OutputOrder,
        column_order: OutputOrder,
        parsing_strategy: ParsingStrategy,
    ) -> (r: Self)
        ensures
            r.wf(),
            r.rows() == Seq::<Seq<char>>::empty(),
            r.cols() == Seq::<Seq<char>>::empty(),
            r.records() == 0,
            r.index_cols == index_cols,
            r.column_cols == column_cols,
            r.values_col == values_col,
            r.skip_null == skip_null,
            r.row_order == row_order,
            r.column_order == column_order,
            r.parsing_strategy == parsing_strategy,
            r.parser.values_type is Text,
            r.parser.parse_empty,
            r.parser.date_format@ == "%Y-%m-%d %H:%M:%S"@,
    {
        let r = Aggregator {
            aggregations: Vec::new(),
            indexes: iset_new(),
            columns: iset_new(),
            index_vec: Vec::new(),
            column_vec: Vec::new(),
            row_out: Vec::new(),
            col_out: Vec::new(),
            index_cols,
            column_cols,
            values_col,
            skip_null,
            row_order,
            column_order,
            parsing_strategy,
            parser: ParsingHelper::from_parsing_type(ParsingType::Text(None)),
            records_added: 0,
            input_type: core::marker::PhantomData,
            output_type: core::marker::PhantomData,
        };
        proof {
            assert(r.rows() =~= Seq::<Seq<char>>::empty());
            assert(r.cols() =~= Seq::<Seq<char>>::empty());
            assert(str_views(r.row_out@) =~= Seq::<Seq<char>>::empty());
            assert(str_views(r.col_out@) =~= Seq::<Seq<char>>::empty());
        }
        r
    }

    /// Replaces the value parser (domain, empty handling, date format).
    pub fn set_parser(&mut self, parser: ParsingHelper)
        requires
            old(self).wf(),
        ensures
            final(self).wf(),
            final(self).parser == parser,
            final(self).aggregations == old(self).aggregations,
            final(self).index_vec == old(self).index_vec,
            final(self).column_vec == old(self).column_vec,
            final(self).row_out == old(self).row_out,
            final(self).col_out == old(self).col_out,
            final(self).indexes == old(self).indexes,
            final(self).columns == old(self).columns,
            final(self).index_cols == old(self).index_cols,
            final(self).column_cols == old(self).column_cols,
            final(self).values_col == old(self).values_col,
            final(self).skip_null == old(self).skip_null,
            final(self).row_order == old(self).row_order,
            final(self).column_order == old(self).column_order,
            final(self).parsing_strategy == old(self).parsing_strategy,
            final(self).records_added == old(self).records_added,
    {
        self.parser = parser;
        proof {
            assert(self.rows() == old(self).rows());
            assert(self.cols() == old(self).cols());
            assert forall|i: int, j: int|
                0 <= i < self.rows().len() && 0 <= j < self.cols().len() implies #[trigger] self.cell_at(
                i,
                j,
            ) == old(self).cell_at(i, j) by {}
        }
    }

    /// The error text for a value that failed to parse in the active
    /// strategy.
    fn describe_err(&self) -> (r: String)
        ensures
            r@ == spec_parse_err_msg(self.parsing_strategy, self.parser.date_format@),
    {
        match self.parsing_strategy {
            ParsingStrategy::Text => {
                let mut s = String::new();
                s.append("Failed to parse as text");
                proof {
                    assert(s@ =~= "Failed to parse as text"@);
                }
                s
            },
            ParsingStrategy::Numeric => crate::parsing::numeric_err_message(),
            ParsingStrategy::Date => crate::parsing::date_err_message(
                self.parser.date_format.as_str(),
            ),
        }
    }

    /// Adds one record: builds the composite keys, reads the value field,
    /// skips empty values when configured, parses the value and feeds it to
    /// the cell's accumulator. A parse failure is fatal and carries the
    /// line number and the offending text.
    pub fn add_record(&mut self, fields: &Vec<String>, line_num: usize) -> (r: Result<
        (),
        CsvCliError,
    >)
        requires
            old(self).wf(),
            old(self).records() < usize::MAX,
        ensures
            final(self).wf(),
            Self::same_config(*old(self), *final(self)),
            ({
                let fv = str_views(fields@);
                if old(self).values_col >= fields@.len() {
                    r matches Err(CsvCliError::InvalidField) && *final(self) == *old(self)
                } else if old(self).skip_this(fv) {
                    r == Result::<(), CsvCliError>::Ok(()) && *final(self) == *old(self)
                } else if old(self).keys_out_of_bounds(fv) {
                    r matches Err(CsvCliError::InvalidField) && *final(self) == *old(self)
                } else {
                    &&& Self::keys_inserted(*old(self), *final(self), fv)
                    &&& final(self).records() == old(self).records() + 1
                    &&& match I::parse_viewed(
                        fv[old(self).values_col as int],
                        old(self).parser.date_format@,
                    ) {
                        Some(v) => r == Result::<(), CsvCliError>::Ok(()) && Self::cell_updated(
                            *old(self),
                            *final(self),
                            fv,
                            v,
                        ),
                        None => {
                            &&& r matches Err(CsvCliError::ParsingError {
                                line_num: l,
                                str_to_parse: s,
                                err: e,
                            }) && l == line_num && s@ == fv[old(self).values_col as int] && e@
                                == spec_parse_err_msg(
                                old(self).parsing_strategy,
                                old(self).parser.date_format@,
                            )
                            &&& Self::cells_preserved_except(*old(self), *final(self), -1, -1)
                        },
                    }
                }
            }),
    {
        let ghost pre = *self;
        let ghost fv = str_views(fields@);
        if self.values_col >= fields.len() {
            return Err(CsvCliError::InvalidField);
        }
        proof {
            assert(fields@[self.values_col as int]@ == fv[self.values_col as int]);
        }
        // the empty-value skip comes before the key fields are even read,
        // so a skipped record needs nothing but its value field
        if self.skip_null && is_empty_val(fields[self.values_col].as_str()) {
            return Ok(());
        }
        // bounds of every configured key index
        let mut k: usize = 0;
        while k < self.index_cols.len()
            invariant
                pre == *old(self),
                pre.wf(),
                pre.records() < usize::MAX,
                fv == str_views(fields@),
                pre.values_col < fields@.len(),
                !pre.skip_this(fv),
                0 <= k <= self.index_cols@.len(),
                *self == pre,
                forall|j: int| 0 <= j < k ==> (#[trigger] self.index_cols@[j]) < fields@.len(),
            decreases self.index_cols@.len() - k,
        {
            if self.index_cols[k] >= fields.len() {
                proof {
                    assert(pre.keys_out_of_bounds(fv));
                }
                return Err(CsvCliError::InvalidField);
            }
            k += 1;
        }
        let mut k2: usize = 0;
        while k2 < self.column_cols.len()
            invariant
                pre == *old(self),
                pre.wf(),
                pre.records() < usize::MAX,
                fv == str_views(fields@),
                pre.values_col < fields@.len(),
                !pre.skip_this(fv),
                0 <= k2 <= self.column_cols@.len(),
                *self == pre,
                forall|j: int| 0 <= j < pre.index_cols@.len() ==> (#[trigger] pre.index_cols@[j])
                    < fields@.len(),
                forall|j: int| 0 <= j < k2 ==> (#[trigger] self.column_cols@[j]) < fields@.len(),
            decreases self.column_cols@.len() - k2,
        {
            if self.column_cols[k2] >= fields.len() {
                proof {
                    assert(pre.keys_out_of_bounds(fv));
                }
                return Err(CsvCliError::InvalidField);
            }
            k2 += 1;
        }
        proof {
            assert(!pre.keys_out_of_bounds(fv));
        }
        self.records_added = self.records_added + 1;
        // row key
        let index_vals = build_key(&self.index_cols, fields);
        let ghost rk = pre.row_key_of(fv);
        let row_new = iset_insert(&mut self.indexes, index_vals.clone());
        if row_new {
            self.index_vec.push(index_vals.clone());
            let blank = new_none_row(self.column_vec.len());
            self.aggregations.push(blank);
            self.row_out.push(index_vals.clone());
            proof {
                assert(self.rows() =~= pre.rows().push(rk));
                assert(str_views(self.row_out@) =~= str_views(pre.row_out@).push(rk));
            }
        }
        proof {
            assert(self.rows() == insert_key(pre.rows(), rk));
            assert(str_views(self.row_out@) == insert_key(str_views(pre.row_out@), rk)) by {
                if !row_new {
                    assert(str_views(pre.row_out@).to_multiset().count(rk) == pre.rows(
                    ).to_multiset().count(rk));
                    assert(pre.rows().contains(rk));
                    assert(str_views(pre.row_out@).contains(rk));
                } else {
                    if str_views(pre.row_out@).contains(rk) {
                        assert(str_views(pre.row_out@).to_multiset().count(rk) > 0);
                        assert(pre.rows().to_multiset().count(rk) > 0);
                        assert(pre.rows().contains(rk));
                    }
                }
            }
            assert(distinct_keys(self.rows())) by {
                if row_new {
                    assert(forall|i: int|
                        0 <= i < pre.rows().len() ==> self.rows()[i] == pre.rows()[i]);
                }
            }
            assert(self.aggregations@.len() == self.index_vec@.len());
            assert forall|i: int| 0 <= i < self.aggregations@.len() implies (
            #[trigger] self.aggregations@[i])@.len() == self.column_vec@.len() by {
                if i < pre.aggregations@.len() {
                    assert(self.aggregations@[i] == pre.aggregations@[i]);
                }
            }
            // cells preserved so far: columns unchanged, new row all empty
            assert forall|i: int, j: int|
                0 <= i < self.rows().len() && 0 <= j < self.cols().len() implies (
            #[trigger] self.cell_at(i, j)) == (if i < pre.rows().len() {
                pre.cell_at(i, j)
            } else {
                Option::<T>::None
            }) by {
                if i < pre.rows().len() {
                    assert(self.aggregations@[i] == pre.aggregations@[i]);
                }
            }
        }
        let ghost m1 = *self;
        // column key
        let column_vals = build_key(&self.column_cols, fields);
        let ghost ck = pre.col_key_of(fv);
        let col_new = iset_insert(&mut self.columns, column_vals.clone());
        if col_new {
            self.column_vec.push(column_vals.clone());
            extend_rows(&mut self.aggregations);
            self.col_out.push(column_vals.clone());
            proof {
                assert(self.cols() =~= pre.cols().push(ck));
                assert(str_views(self.col_out@) =~= str_views(pre.col_out@).push(ck));
            }
        }
        proof {
            assert(self.cols() == insert_key(pre.cols(), ck));
            assert(str_views(self.col_out@) == insert_key(str_views(pre.col_out@), ck)) by {
                if !col_new {
                    assert(str_views(pre.col_out@).to_multiset().count(ck) == pre.cols(
                    ).to_multiset().count(ck));
                    assert(pre.cols().contains(ck));
                    assert(str_views(pre.col_out@).contains(ck));
                } else {
                    if str_views(pre.col_out@).contains(ck) {
                        assert(str_views(pre.col_out@).to_multiset().count(ck) > 0);
                        assert(pre.cols().to_multiset().count(ck) > 0);
                        assert(pre.cols().contains(ck));
                    }
                }
            }
            assert(distinct_keys(self.cols())) by {
                if col_new {
                    assert(forall|i: int|
                        0 <= i < pre.cols().len() ==> self.cols()[i] == pre.cols()[i]);
                }
            }
            assert(self.aggregations@.len() == self.index_vec@.len());
            assert forall|i: int| 0 <= i < self.aggregations@.len() implies (
            #[trigger] self.aggregations@[i])@.len() == self.column_vec@.len() by {
                if col_new {
                    assert(self.aggregations@[i]@ == m1.aggregations@[i]@.push(None));
                }
            }
            // cells preserved vs the state before this record
            assert forall|i: int, j: int|
                0 <= i < self.rows().len() && 0 <= j < self.cols().len() implies (
            #[trigger] self.cell_at(i, j)) == (if i < pre.rows().len() && j < pre.cols().len() {
                pre.cell_at(i, j)
            } else {
                Option::<T>::None
            }) by {
                if col_new {
                    assert(self.aggregations@[i]@ == m1.aggregations@[i]@.push(None));
                    if j < pre.cols().len() {
                        assert(self.cell_at(i, j) == m1.cell_at(i, j));
                    } else {
                        assert(self.cell_at(i, j) is None);
                    }
                } else {
                    assert(self.cell_at(i, j) == m1.cell_at(i, j));
                }
            }
        }
        let ghost mid = *self;
        // locate the cell
        let ri_opt = crate::strutil::index_of_str(&self.index_vec, index_vals.as_str());
        let ri = match ri_opt {
            Some(x) => x,
            None => {
                proof {
                    assert(self.rows().contains(rk)) by {
                        lemma_insert_key_contains(pre.rows(), rk);
                    }
                    let i = choose|i: int| 0 <= i < self.rows().len() && self.rows()[i] == rk;
                    assert(self.index_vec@[i]@ == rk);
                    assert(false);
                }
                return Err(CsvCliError::InvalidField);
            },
        };
        let ci_opt = crate::strutil::index_of_str(&self.column_vec, column_vals.as_str());
        let ci = match ci_opt {
            Some(x) => x,
            None => {
                proof {
                    assert(self.cols().contains(ck)) by {
                        lemma_insert_key_contains(pre.cols(), ck);
                    }
                    let i = choose|i: int| 0 <= i < self.cols().len() && self.cols()[i] == ck;
                    assert(self.column_vec@[i]@ == ck);
                    assert(false);
                }
                return Err(CsvCliError::InvalidField);
            },
        };
        proof {
            lemma_first_index_unique(self.rows(), rk, ri as int);
            lemma_first_index_unique(self.cols(), ck, ci as int);
            // the cell invariant clause, carried over from the untouched cells
            assert forall|i: int, j: int|
                0 <= i < self.rows().len() && 0 <= j < self.cols().len() implies match
            #[trigger] self.cell_at(i, j) {
                Some(t) => t.inv() && 1 <= t.obs().len() && t.obs().len() <= self.records_added,
                None => true,
            } by {
                if i < pre.rows().len() && j < pre.cols().len() {
                    assert(self.cell_at(i, j) == pre.cell_at(i, j));
                    assert(match pre.cell_at(i, j) {
                        Some(t) => t.inv() && 1 <= t.obs().len() && t.obs().len()
                            <= pre.records_added,
                        None => true,
                    });
                }
            }
        }
        // parse the value
        let parsed: Option<I> = I::parse_field(fields[self.values_col].as_str(), &self.parser);
        match parsed {
            None => {
                let msg = self.describe_err();
                proof {
                    assert forall|i: int, j: int|
                        0 <= i < self.rows().len() && 0 <= j < self.cols().len() implies (
                    #[trigger] self.cell_obs(i, j)) == (if i < pre.rows().len() && j
                        < pre.cols().len() {
                        pre.cell_obs(i, j)
                    } else {
                        Option::<Seq<I::V>>::None
                    }) by {
                        if i < pre.rows().len() && j < pre.cols().len() {
                            assert(self.cell_at(i, j) == pre.cell_at(i, j));
                        } else {
                            assert(self.cell_at(i, j) is None);
                        }
                    }
                }
                Err(
                    CsvCliError::ParsingError {
                        line_num,
                        str_to_parse: fields[self.values_col].clone(),
                        err: msg,
                    },
                )
            },
            Some(v) => {
                proof {
                    assert(ri < self.aggregations@.len());
                    assert(ci < self.aggregations@[ri as int]@.len());
                    assert(match self.cell_at(ri as int, ci as int) {
                        Some(t) => t.inv() && t.obs().len() < usize::MAX,
                        None => true,
                    });
                }
                update_grid_cell(&mut self.aggregations, ri, ci, v);
                proof {
                    let post = *self;
                    assert(post.rows() == mid.rows() && post.cols() == mid.cols());
                    assert(post.aggregations@.len() == mid.aggregations@.len());
                    assert forall|i: int| 0 <= i < post.aggregations@.len() implies (
                    #[trigger] post.aggregations@[i])@.len() == post.column_vec@.len() by {
                        if i != ri as int {
                            assert(post.aggregations@[i] == mid.aggregations@[i]);
                        }
                    }
                    // every untouched cell keeps its accumulator
                    assert forall|i: int, j: int|
                        0 <= i < post.rows().len() && 0 <= j < post.cols().len() && !(i
                            == ri as int && j == ci as int) implies (#[trigger] post.cell_at(
                        i,
                        j,
                    )) == mid.cell_at(i, j) by {
                        if i != ri as int {
                            assert(post.aggregations@[i] == mid.aggregations@[i]);
                        } else {
                            assert(post.aggregations@[i]@[j] == mid.aggregations@[i]@[j]);
                        }
                    }
                    assert forall|i: int, j: int|
                        0 <= i < post.rows().len() && 0 <= j < post.cols().len() && !(i
                            == ri as int && j == ci as int) implies (#[trigger] post.cell_obs(
                        i,
                        j,
                    )) == (if i < pre.rows().len() && j < pre.cols().len() {
                        pre.cell_obs(i, j)
                    } else {
                        Option::<Seq<I::V>>::None
                    }) by {
                        assert(post.cell_at(i, j) == mid.cell_at(i, j));
                        if i < pre.rows().len() && j < pre.cols().len() {
                            assert(mid.cell_at(i, j) == pre.cell_at(i, j));
                        } else {
                            assert(mid.cell_at(i, j) is None);
                        }
                    }
                    // the updated cell
                    assert(post.cell_obs(ri as int, ci as int) == Some(
                        match (if (ri as int) < pre.rows().len() && (ci as int)
                            < pre.cols().len() {
                            pre.cell_obs(ri as int, ci as int)
                        } else {
                            Option::<Seq<I::V>>::None
                        }) {
                            Some(o) => o.push(v@),
                            None => seq![v@],
                        },
                    )) by {
                        if (ri as int) < pre.rows().len() && (ci as int) < pre.cols().len() {
                            assert(mid.cell_at(ri as int, ci as int) == pre.cell_at(
                                ri as int,
                                ci as int,
                            ));
                        } else {
                            assert(mid.cell_at(ri as int, ci as int) is None);
                        }
                    }
                    // well-formedness of the cells after the update
                    assert forall|i: int, j: int|
                        0 <= i < post.rows().len() && 0 <= j < post.cols().len() implies match
                    #[trigger] post.cell_at(i, j) {
                        Some(t) => t.inv() && 1 <= t.obs().len() && t.obs().len()
                            <= post.records_added,
                        None => true,
                    } by {
                        if i == ri as int && j == ci as int {
                        } else {
                            assert(post.cell_at(i, j) == mid.cell_at(i, j));
                            assert(match mid.cell_at(i, j) {
                                Some(t) => t.inv() && 1 <= t.obs().len() && t.obs().len()
                                    <= mid.records_added,
                                None => true,
                            });
                        }
                    }
                }
                Ok(())
            },
        }
    }
}

/// `insert_key` always leaves the key present.
proof fn lemma_insert_key_contains(ks: Seq<Seq<char>>, k: Seq<char>)
    ensures
        insert_key(ks, k).contains(k),
{
    if !ks.contains(k) {
        assert(ks.push(k)[ks.len() as int] == k);
    }
}

/// Builds the composite key for the configured columns of one record.
fn build_key(cols: &Vec<usize>, fields: &Vec<String>) -> (r: String)
    requires
        forall|j: int| 0 <= j < cols@.len() ==> (#[trigger] cols@[j]) < fields@.len(),
    ensures
        r@ == composite_key(cols@, str_views(fields@)),
{
    if cols.len() == 0 {
        return total_key();
    }
    let mut parts: Vec<String> = Vec::new();
    let mut k: usize = 0;
    while k < cols.len()
        invariant
            0 <= k <= cols@.len(),
            forall|j: int| 0 <= j < cols@.len() ==> (#[trigger] cols@[j]) < fields@.len(),
            parts@.len() == k,
            forall|j: int| 0 <= j < k ==> (#[trigger] parts@[j])@ == fields@[cols@[j] as int]@,
        decreases cols@.len() - k,
    {
        let c = cols[k];
        parts.push(fields[c].clone());
        k += 1;
    }
    let joined = crate::strutil::join_strings(&parts, field_separator());
    proof {
        assert(str_views(parts@) =~= cols@.map_values(
            |c: usize| str_views(fields@)[c as int],
        ));
    }
    joined
}

/// A grid row of the given width with every cell empty.
fn new_none_row<T>(n: usize) -> (r: Vec<Option<T>>)
    ensures
        r@.len() == n,
        forall|j: int| 0 <= j < n ==> (#[trigger] r@[j]) is None,
{
    let mut row: Vec<Option<T>> = Vec::new();
    let mut j: usize = 0;
    while j < n
        invariant
            0 <= j <= n,
            row@.len() == j,
            forall|l: int| 0 <= l < j ==> (#[trigger] row@[l]) is None,
        decreases n - j,
    {
        row.push(None);
        j += 1;
    }
    row
}

/// Appends one empty cell to every grid row.
fn extend_rows<T>(grid: &mut Vec<Vec<Option<T>>>)
    ensures
        final(grid)@.len() == old(grid)@.len(),
        forall|i: int|
            0 <= i < old(grid)@.len() ==> (#[trigger] final(grid)@[i])@ == old(grid)@[i]@.push(
                None,
            ),
{
    let ghost orig = grid@;
    let mut i: usize = 0;
    while i < grid.len()
        invariant
            0 <= i <= grid@.len(),
            grid@.len() == orig.len(),
            forall|l: int| 0 <= l < i ==> (#[trigger] grid@[l])@ == orig[l]@.push(None),
            forall|l: int| i <= l < orig.len() ==> #[trigger] grid@[l] == orig[l],
        decreases grid@.len() - i,
    {
        let mut row: Vec<Option<T>> = Vec::new();
        grid.set_and_swap(i, &mut row);
        row.push(None);
        grid.set_and_swap(i, &mut row);
        i += 1;
    }
}

/// Feeds one parsed value to the accumulator in a cell, creating it on the
/// first contribution.
fn update_grid_cell<T, I, O>(grid: &mut Vec<Vec<Option<T>>>, ri: usize, ci: usize, v: I) where
    T: Accumulate<I, O>,
    I: FieldParse,
    O: OutputValue,

    requires
        ri < old(grid)@.len(),
        ci < old(grid)@[ri as int]@.len(),
        v.wf(),
        match old(grid)@[ri as int]@[ci as int] {
            Some(t) => t.inv() && t.obs().len() < usize::MAX,
            None => true,
        },
    ensures
        final(grid)@.len() == old(grid)@.len(),
        forall|i: int|
            0 <= i < old(grid)@.len() && i != ri as int ==> #[trigger] final(grid)@[i] == old(
                grid,
            )@[i],
        final(grid)@[ri as int]@.len() == old(grid)@[ri as int]@.len(),
        forall|j: int|
            0 <= j < old(grid)@[ri as int]@.len() && j != ci as int
                ==> #[trigger] final(grid)@[ri as int]@[j] == old(grid)@[ri as int]@[j],
        match final(grid)@[ri as int]@[ci as int] {
            Some(t) => t.inv() && t.obs() == (match old(grid)@[ri as int]@[ci as int] {
                Some(t0) => t0.obs().push(v@),
                None => seq![v@],
            }),
            None => false,
        },
{
    let mut row: Vec<Option<T>> = Vec::new();
    grid.set_and_swap(ri, &mut row);
    let mut slot: Option<T> = None;
    row.set_and_swap(ci, &mut slot);
    let newcell: Option<T> = match slot {
        Some(mut t) => {
            t.update(v);
            Some(t)
        },
        None => Some(T::new(v)),
    };
    row.set(ci, newcell);
    grid.set_and_swap(ri, &mut row);
}

impl<T, I, O> Aggregator<T, I, O> where
    T: Accumulate<I, O>,
    I: FieldParse,
    O: OutputValue,
 {
    /// The text of the output cell for a pair of keys: the accumulator's
    /// computed value rendered, or the empty string where no record
    /// contributed. A cell whose function yields no value — a standard
    /// deviation of one observation, or a decimal sum that overflowed the
    /// 96-bit range — also renders empty, indistinguishable from a cell no
    /// record touched; a caller that must tell them apart reads the cell
    /// with `compute_cell` and `has_cell`.
    pub open spec fn cell_str(&self, rk: Seq<char>, ck: Seq<char>) -> Seq<char> {
        if self.rows().contains(rk) && self.cols().contains(ck) {
            match self.cell_at(first_index(self.rows(), rk), first_index(self.cols(), ck)) {
                Some(t) => match t.computed() {
                    Some(o) => O::out_view(o),
                    None => Seq::empty(),
                },
                None => Seq::empty(),
            }
        } else {
            Seq::empty()
        }
    }

    /// Sorts the output orders per the configured policies; the key sets,
    /// the grid and the configuration stay as they are.
    fn sort_results(&mut self)
        requires
            old(self).wf(),
        ensures
            final(self).wf(),
            Self::same_config(*old(self), *final(self)),
            final(self).rows() == old(self).rows(),
            final(self).cols() == old(self).cols(),
            final(self).aggregations == old(self).aggregations,
            final(self).records_added == old(self).records_added,
            ordered_by(
                old(self).row_order,
                str_views(old(self).row_out@),
                str_views(final(self).row_out@),
            ),
            ordered_by(
                old(self).column_order,
                str_views(old(self).col_out@),
                str_views(final(self).col_out@),
            ),
    {
        match self.column_order {
            OutputOrder::Ascending => {
                let mut tmp: Vec<String> = Vec::new();
                core::mem::swap(&mut tmp, &mut self.col_out);
                let sorted = crate::strutil::sort_strings(tmp);
                self.col_out = sorted;
            },
            OutputOrder::Descending => {
                let mut tmp: Vec<String> = Vec::new();
                core::mem::swap(&mut tmp, &mut self.col_out);
                let ghost before = str_views(tmp@);
                let sorted = crate::strutil::sort_strings(tmp);
                let rev = crate::strutil::reverse_strings(sorted);
                proof {
                    lemma_reversed_sorted(str_views(rev@), before);
                }
                self.col_out = rev;
            },
            OutputOrder::IndexOrder => {},
        }
        match self.row_order {
            OutputOrder::Ascending => {
                let mut tmp: Vec<String> = Vec::new();
                core::mem::swap(&mut tmp, &mut self.row_out);
                let sorted = crate::strutil::sort_strings(tmp);
                self.row_out = sorted;
            },
            OutputOrder::Descending => {
                let mut tmp: Vec<String> = Vec::new();
                core::mem::swap(&mut tmp, &mut self.row_out);
                let ghost before = str_views(tmp@);
                let sorted = crate::strutil::sort_strings(tmp);
                let rev = crate::strutil::reverse_strings(sorted);
                proof {
                    lemma_reversed_sorted(str_views(rev@), before);
                }
                self.row_out = rev;
            },
            OutputOrder::IndexOrder => {},
        }
        proof {
            assert forall|i: int, j: int|
                0 <= i < self.rows().len() && 0 <= j < self.cols().len() implies match
            #[trigger] self.cell_at(i, j) {
                Some(t) => t.inv() && 1 <= t.obs().len() && t.obs().len() <= self.records_added,
                None => true,
            } by {
                assert(self.cell_at(i, j) == old(self).cell_at(i, j));
            }
        }
    }

    /// Prepares the table for output: refuses a pivot that saw no
    /// contributing record at all, and sorts both output orders.
    pub fn prepare_write(&mut self) -> (r: Result<(), CsvCliError>)
        requires
            old(self).wf(),
        ensures
            final(self).wf(),
            Self::same_config(*old(self), *final(self)),
            final(self).rows() == old(self).rows(),
            final(self).cols() == old(self).cols(),
            final(self).aggregations == old(self).aggregations,
            final(self).records_added == old(self).records_added,
            old(self).cols().len() == 0 ==> (r matches Err(CsvCliError::InvalidConfiguration(m))
                && m@ == "Did not parse any lines before finishing"@ && *final(self) == *old(
                self,
            )),
            old(self).cols().len() > 0 ==> r == Result::<(), CsvCliError>::Ok(()) && ordered_by(
                old(self).row_order,
                str_views(old(self).row_out@),
                str_views(final(self).row_out@),
            ) && ordered_by(
                old(self).column_order,
                str_views(old(self).col_out@),
                str_views(final(self).col_out@),
            ),
    {
        if self.column_vec.len() == 0 {
            let mut msg = String::new();
            msg.append("Did not parse any lines before finishing");
            proof {
                assert(msg@ =~= "Did not parse any lines before finishing"@);
            }
            return Err(CsvCliError::InvalidConfiguration(msg));
        }
        self.sort_results();
        Ok(())
    }

    /// Renders the grid: a header row of the column keys behind an empty
    /// cell, then one row per row key in output order, each cell holding
    /// the finalized value or the empty string.
    pub fn to_vec(&self) -> (r: Vec<Vec<String>>)
        requires
            self.wf(),
        ensures
            r@.len() == 1 + self.row_out@.len(),
            r@[0]@.len() == 1 + self.col_out@.len(),
            r@[0]@[0]@ == Seq::<char>::empty(),
            forall|j: int|
                0 <= j < self.col_out@.len() ==> r@[0]@[j + 1]@ == str_views(self.col_out@)[j],
            forall|i: int|
                0 <= i < self.row_out@.len() ==> (#[trigger] r@[i + 1])@.len() == 1
                    + self.col_out@.len(),
            forall|i: int|
                0 <= i < self.row_out@.len() ==> (#[trigger] r@[i + 1])@[0]@ == str_views(
                    self.row_out@,
                )[i],
            forall|i: int, j: int|
                0 <= i < self.row_out@.len() && 0 <= j < self.col_out@.len() ==> (#[trigger] r@[i
                    + 1]@[j + 1])@ == self.cell_str(
                    str_views(self.row_out@)[i],
                    str_views(self.col_out@)[j],
                ),
    {
        let mut out: Vec<Vec<String>> = Vec::new();
        let mut header: Vec<String> = Vec::new();
        header.push(String::new());
        let mut j: usize = 0;
        while j < self.col_out.len()
            invariant
                self.wf(),
                0 <= j <= self.col_out@.len(),
                header@.len() == 1 + j,
                header@[0]@ == Seq::<char>::empty(),
                forall|l: int| 0 <= l < j ==> header@[l + 1]@ == str_views(self.col_out@)[l],
            decreases self.col_out@.len() - j,
        {
            header.push(self.col_out[j].clone());
            j += 1;
        }
        out.push(header);
        let mut i: usize = 0;
        while i < self.row_out.len()
            invariant
                self.wf(),
                0 <= i <= self.row_out@.len(),
                out@.len() == 1 + i,
                out@[0]@.len() == 1 + self.col_out@.len(),
                out@[0]@[0]@ == Seq::<char>::empty(),
                forall|l: int|
                    0 <= l < self.col_out@.len() ==> out@[0]@[l + 1]@ == str_views(
                        self.col_out@,
                    )[l],
                forall|l: int|
                    0 <= l < i ==> (#[trigger] out@[l + 1])@.len() == 1 + self.col_out@.len(),
                forall|l: int|
                    0 <= l < i ==> (#[trigger] out@[l + 1])@[0]@ == str_views(self.row_out@)[l],
                forall|l: int, m: int|
                    0 <= l < i && 0 <= m < self.col_out@.len() ==> (#[trigger] out@[l + 1]@[m
                        + 1])@ == self.cell_str(
                        str_views(self.row_out@)[l],
                        str_views(self.col_out@)[m],
                    ),
            decreases self.row_out@.len() - i,
        {
            let rec = self.render_row(i);
            out.push(rec);
            i += 1;
        }
        out
    }

    /// Renders one output row.
    fn render_row(&self, i: usize) -> (rec: Vec<String>)
        requires
            self.wf(),
            i < self.row_out@.len(),
        ensures
            rec@.len() == 1 + self.col_out@.len(),
            rec@[0]@ == str_views(self.row_out@)[i as int],
            forall|m: int|
                0 <= m < self.col_out@.len() ==> rec@[m + 1]@ == self.cell_str(
                    str_views(self.row_out@)[i as int],
                    str_views(self.col_out@)[m],
                ),
    {
        let ghost rk = str_views(self.row_out@)[i as int];
        let mut rec: Vec<String> = Vec::new();
        rec.push(self.row_out[i].clone());
        proof {
            assert(str_views(self.row_out@).contains(rk)) by {
                assert(str_views(self.row_out@)[i as int] == rk);
            }
            assert(str_views(self.row_out@).to_multiset().count(rk) > 0);
            assert(self.rows().to_multiset().count(rk) > 0);
            assert(self.rows().contains(rk));
        }
        let ri_opt = crate::strutil::index_of_str(&self.index_vec, self.row_out[i].as_str());
        proof {
            match ri_opt {
                Some(x) => {
                    lemma_first_index_unique(self.rows(), rk, x as int);
                },
                None => {
                    let x = choose|x: int| 0 <= x < self.rows().len() && self.rows()[x] == rk;
                    assert(self.index_vec@[x]@ == rk);
                    assert(false);
                },
            }
        }
        let mut m: usize = 0;
        while m < self.col_out.len()
            invariant
                self.wf(),
                i < self.row_out@.len(),
                rk == str_views(self.row_out@)[i as int],
                self.rows().contains(rk),
                match ri_opt {
                    Some(x) => x == first_index(self.rows(), rk),
                    None => false,
                },
                0 <= m <= self.col_out@.len(),
                rec@.len() == 1 + m,
                rec@[0]@ == rk,
                forall|l: int|
                    0 <= l < m ==> rec@[l + 1]@ == self.cell_str(
                        rk,
                        str_views(self.col_out@)[l],
                    ),
            decreases self.col_out@.len() - m,
        {
            let ghost ck = str_views(self.col_out@)[m as int];
            proof {
                assert(str_views(self.col_out@).contains(ck)) by {
                    assert(str_views(self.col_out@)[m as int] == ck);
                }
                assert(str_views(self.col_out@).to_multiset().count(ck) > 0);
                assert(self.cols().to_multiset().count(ck) > 0);
                assert(self.cols().contains(ck));
            }
            let ci_opt = crate::strutil::index_of_str(&self.column_vec, self.col_out[m].as_str());
            let cell_s: String = match ri_opt {
                Some(ri) => match ci_opt {
                    Some(ci) => {
                        proof {
                            lemma_first_index_unique(self.cols(), ck, ci as int);
                            lemma_first_index(self.rows(), rk);
                            lemma_first_index(self.cols(), ck);
                            assert(ri < self.aggregations@.len());
                            assert(ci < self.aggregations@[ri as int]@.len());
                            assert(match self.cell_at(ri as int, ci as int) {
                                Some(t) => t.inv(),
                                None => true,
                            });
                        }
                        match &self.aggregations[ri][ci] {
                            Some(t) => match t.compute() {
                                Some(o) => o.to_output(),
                                None => String::new(),
                            },
                            None => String::new(),
                        }
                    },
                    None => {
                        proof {
                            let x = choose|x: int|
                                0 <= x < self.cols().len() && self.cols()[x] == ck;
                            assert(self.column_vec@[x]@ == ck);
                            assert(false);
                        }
                        String::new()
                    },
                },
                None => {
                    proof {
                        let x = choose|x: int| 0 <= x < self.rows().len() && self.rows()[x] == rk;
                        assert(self.index_vec@[x]@ == rk);
                        assert(false);
                    }
                    String::new()
                },
            };
            rec.push(cell_s);
            m += 1;
        }
        rec
    }

    /// The distinct row keys, in first-seen order.
    pub fn get_index_keys(&self) -> (r: Vec<String>)
        ensures
            str_views(r@) == self.rows(),
    {
        clone_string_vec(&self.index_vec)
    }

    /// The distinct column keys, in first-seen order.
    pub fn get_column_keys(&self) -> (r: Vec<String>)
        ensures
            str_views(r@) == self.cols(),
    {
        clone_string_vec(&self.column_vec)
    }

    /// The row keys in output order.
    pub fn get_row_output_keys(&self) -> (r: Vec<String>)
        ensures
            str_views(r@) == str_views(self.row_out@),
    {
        clone_string_vec(&self.row_out)
    }

    /// The column keys in output order.
    pub fn get_column_output_keys(&self) -> (r: Vec<String>)
        ensures
            str_views(r@) == str_views(self.col_out@),
    {
        clone_string_vec(&self.col_out)
    }

    /// Whether a cell holds an accumulator.
    pub fn has_cell(&self, row: &str, col: &str) -> (r: bool)
        requires
            self.wf(),
        ensures
            r == (self.rows().contains(row@) && self.cols().contains(col@) && self.cell_at(
                first_index(self.rows(), row@),
                first_index(self.cols(), col@),
            ) is Some),
    {
        let ri_opt = crate::strutil::index_of_str(&self.index_vec, row);
        let ci_opt = crate::strutil::index_of_str(&self.column_vec, col);
        match ri_opt {
            Some(ri) => match ci_opt {
                Some(ci) => {
                    proof {
                        lemma_first_index_unique(self.rows(), row@, ri as int);
                        lemma_first_index_unique(self.cols(), col@, ci as int);
                        assert(self.rows()[ri as int] == row@);
                        assert(self.cols()[ci as int] == col@);
                    }
                    self.aggregations[ri][ci].is_some()
                },
                None => {
                    proof {
                        if self.cols().contains(col@) {
                            let x = choose|x: int|
                                0 <= x < self.cols().len() && self.cols()[x] == col@;
                            assert(self.column_vec@[x]@ == col@);
                        }
                    }
                    false
                },
            },
            None => {
                proof {
                    if self.rows().contains(row@) {
                        let x = choose|x: int|
                            0 <= x < self.rows().len() && self.rows()[x] == row@;
                        assert(self.index_vec@[x]@ == row@);
                    }
                }
                false
            },
        }
    }

    /// The finalized value of a cell, if the cell exists and its function
    /// yields one.
    pub fn compute_cell(&self, row: &str, col: &str) -> (r: Option<O>)
        requires
            self.wf(),
        ensures
            ({
                if self.rows().contains(row@) && self.cols().contains(col@) {
                    match self.cell_at(
                        first_index(self.rows(), row@),
                        first_index(self.cols(), col@),
                    ) {
                        Some(t) => match t.computed() {
                            Some(o) => r matches Some(x) && x.wf() && x@ == o,
                            None => r is None,
                        },
                        None => r is None,
                    }
                } else {
                    r is None
                }
            }),
    {
        let ri_opt = crate::strutil::index_of_str(&self.index_vec, row);
        let ci_opt = crate::strutil::index_of_str(&self.column_vec, col);
        match ri_opt {
            Some(ri) => match ci_opt {
                Some(ci) => {
                    proof {
                        lemma_first_index_unique(self.rows(), row@, ri as int);
                        lemma_first_index_unique(self.cols(), col@, ci as int);
                        assert(self.rows()[ri as int] == row@);
                        assert(self.rows().contains(row@));
                        assert(self.cols()[ci as int] == col@);
                        assert(self.cols().contains(col@));
                        assert(ri < self.aggregations@.len());
                        assert(ci < self.aggregations@[ri as int]@.len());
                        assert(match self.cell_at(ri as int, ci as int) {
                            Some(t) => t.inv(),
                            None => true,
                        });
                    }
                    let cell = &self.aggregations[ri][ci];
                    proof {
                        assert(*cell == self.cell_at(ri as int, ci as int));
                    }
                    match cell {
                        Some(t) => t.compute(),
                        None => None,
                    }
                },
                None => {
                    proof {
                        if self.cols().contains(col@) {
                            let x = choose|x: int|
                                0 <= x < self.cols().len() && self.cols()[x] == col@;
                            assert(self.column_vec@[x]@ == col@);
                        }
                    }
                    None
                },
            },
            None => {
                proof {
                    if self.rows().contains(row@) {
                        let x = choose|x: int|
                            0 <= x < self.rows().len() && self.rows()[x] == row@;
                        assert(self.index_vec@[x]@ == row@);
                    }
                }
                None
            },
        }
    }
}

fn clone_string_vec(v: &Vec<String>) -> (r: Vec<String>)
    ensures
        str_views(r@) == str_views(v@),
        r@.len() == v@.len(),
{
    let mut out: Vec<String> = Vec::new();
    let mut i: usize = 0;
    while i < v.len()
        invariant
            0 <= i <= v@.len(),
            out@.len() == i,
            forall|j: int| 0 <= j < i ==> (#[trigger] out@[j])@ == v@[j]@,
        decreases v@.len() - i,
    {
        out.push(v[i].clone());
        i += 1;
    }
    proof {
        assert(str_views(out@) =~= str_views(v@));
    }
    out
}

/// A sequence that reverses a sorted ascending permutation of `s` is a
/// sorted descending permutation of `s`.
proof fn lemma_reversed_sorted(rev: Seq<Seq<char>>, s: Seq<Seq<char>>)
    requires
        exists|asc: Seq<Seq<char>>|
            sorted_lex(asc) && asc.to_multiset() == s.to_multiset() && rev.len() == asc.len() && (
            forall|i: int| 0 <= i < asc.len() ==> rev[i] == asc[asc.len() - 1 - i]),
    ensures
        sorted_lex_desc(rev),
        rev.to_multiset() == s.to_multiset(),
{
    let asc = choose|asc: Seq<Seq<char>>|
        sorted_lex(asc) && asc.to_multiset() == s.to_multiset() && rev.len() == asc.len() && (
        forall|i: int| 0 <= i < asc.len() ==> rev[i] == asc[asc.len() - 1 - i]);
    assert(rev =~= asc.reverse());
    asc.lemma_reverse_to_multiset();
    assert forall|i: int, j: int| 0 <= i < j < rev.len() implies lex_le(rev[j], rev[i]) by {
        assert(rev[i] == asc[asc.len() - 1 - i]);
        assert(rev[j] == asc[asc.len() - 1 - j]);
        assert(lex_le(asc[asc.len() - 1 - j], asc[asc.len() - 1 - i]));
    }
}

/// Two ascending presentations of one key multiset are the same sequence.
pub proof fn lemma_sorted_unique(t1: Seq<Seq<char>>, t2: Seq<Seq<char>>)
    requires
        sorted_lex(t1),
        sorted_lex(t2),
        t1.to_multiset() == t2.to_multiset(),
    ensures
        t1 == t2,
    decreases t1.len(),
{
    if t1.len() == 0 {
        assert(t2.to_multiset().len() == 0);
        assert(t2.len() == 0);
        assert(t1 =~= t2);
    } else {
        assert(t2.to_multiset().len() > 0);
        assert(t2.len() > 0);
        let h1 = t1[0];
        let h2 = t2[0];
        assert(t1.contains(h1));
        assert(t2.to_multiset().count(h1) > 0);
        assert(t2.contains(h1));
        assert(t1.to_multiset().count(h2) > 0);
        assert(t1.contains(h2));
        assert(lex_le(h2, h1)) by {
            let j = choose|j: int| 0 <= j < t2.len() && t2[j] == h1;
            if j > 0 {
                assert(lex_le(t2[0], t2[j]));
            }
        }
        assert(lex_le(h1, h2)) by {
            let j = choose|j: int| 0 <= j < t1.len() && t1[j] == h2;
            if j > 0 {
                assert(lex_le(t1[0], t1[j]));
            }
        }
        assert(h1 == h2) by {
            crate::strutil::lemma_lex_trichotomy(h1, h2);
        }
        let r1 = t1.remove(0);
        let r2 = t2.remove(0);
        assert(r1.to_multiset() =~= t1.to_multiset().remove(h1));
        assert(r2.to_multiset() =~= t2.to_multiset().remove(h1));
        assert(sorted_lex(r1)) by {
            assert(forall|i: int| 0 <= i < r1.len() ==> r1[i] == t1[i + 1]);
        }
        assert(sorted_lex(r2)) by {
            assert(forall|i: int| 0 <= i < r2.len() ==> r2[i] == t2[i + 1]);
        }
        lemma_sorted_unique(r1, r2);
        assert(t1 =~= t2) by {
            assert(forall|i: int| 1 <= i < t1.len() ==> t1[i] == r1[i - 1] && t2[i] == r2[i - 1]);
        }
    }
}

/// Two descending presentations of one key multiset are the same sequence.
pub proof fn lemma_sorted_desc_unique(t1: Seq<Seq<char>>, t2: Seq<Seq<char>>)
    requires
        sorted_lex_desc(t1),
        sorted_lex_desc(t2),
        t1.to_multiset() == t2.to_multiset(),
    ensures
        t1 == t2,
{
    let r1 = t1.reverse();
    let r2 = t2.reverse();
    t1.lemma_reverse_to_multiset();
    t2.lemma_reverse_to_multiset();
    assert(sorted_lex(r1)) by {
        assert(forall|i: int| 0 <= i < t1.len() ==> r1[i] == t1[t1.len() - 1 - i]);
    }
    assert(sorted_lex(r2)) by {
        assert(forall|i: int| 0 <= i < t2.len() ==> r2[i] == t2[t2.len() - 1 - i]);
    }
    lemma_sorted_unique(r1, r2);
    assert(t1 =~= t2) by {
        assert(forall|i: int| 0 <= i < t1.len() ==> t1[i] == r1[t1.len() - 1 - i]);
        assert(forall|i: int| 0 <= i < t2.len() ==> t2[i] == r2[t2.len() - 1 - i]);
    }
}

/// Law: the row ordering and the column ordering are independent. What a
/// policy makes of a key set is a function of that policy and those keys
/// alone: any two sequences a policy accepts for the same keys are equal,
/// so changing the other axis's policy cannot change this axis's order.
pub proof fn lemma_ordering_independent(
    policy: OutputOrder,
    s: Seq<Seq<char>>,
    t1: Seq<Seq<char>>,
    t2: Seq<Seq<char>>,
)
    requires
        ordered_by(policy, s, t1),
        ordered_by(policy, s, t2),
    ensures
        t1 == t2,
{
    match policy {
        OutputOrder::IndexOrder => {},
        OutputOrder::Ascending => {
            lemma_sorted_unique(t1, t2);
        },
        OutputOrder::Descending => {
            lemma_sorted_desc_unique(t1, t2);
        },
    }
}

} // verus!
