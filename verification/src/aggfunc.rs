//! The accumulator family: one streaming state machine per aggregation
//! function, each meeting one uniform contract — `new` seeds the state from
//! the first contributing value, `update` folds in one more, `compute`
//! yields the final value. Every accumulator carries the ghost sequence of
//! values it has observed, and its contract pins the computed result as a
//! function of that sequence.

use crate::dates::CustomDateObject;
use crate::decimal::{
    dec_add_of, dec_div_of, dec_str_of, dec_sub_of, scaled, sum_int, DecimalWrapper, MAX_MANTISSA,
};
use crate::parsing::FieldValue;
use crate::strutil::{dec_digits, lex_lt, str_eq_str, str_lt, u64_to_string};
use vstd::prelude::*;
use vstd::string::StringExecFns;

verus! {

broadcast use vstd::seq_lib::group_to_multiset_ensures, vstd::multiset::group_multiset_axioms;

/// A domain with a strict order the accumulators can compare by.
pub trait OrdValue: FieldValue {
    spec fn spec_lt(a: Self::V, b: Self::V) -> bool;

    fn vlt(&self, other: &Self) -> (r: bool)
        requires
            self.wf(),
            other.wf(),
        ensures
            r == Self::spec_lt(self@, other@),
    ;
}

/// A domain whose values can be tested for equality of views.
pub trait EqValue: FieldValue {
    fn veq(&self, other: &Self) -> (r: bool)
        requires
            self.wf(),
            other.wf(),
        ensures
            r == (self@ == other@),
    ;
}

/// A domain whose values have a decimal difference (a numeric difference,
/// or a date difference in fractional days).
pub trait DiffValue: OrdValue {
    spec fn diff_of(a: Self::V, b: Self::V) -> Option<DecimalWrapper>;

    fn diff(&self, other: &Self) -> (r: Option<DecimalWrapper>)
        requires
            self.wf(),
            other.wf(),
        ensures
            match r {
                Some(d) => d.wf() && Self::diff_of(self@, other@) == Some(d),
                None => Self::diff_of(self@, other@) is None,
            },
    ;
}

/// A value that can be rendered into an output cell.
pub trait OutputValue: FieldValue {
    spec fn out_view(v: Self::V) -> Seq<char>;

    fn to_output(&self) -> (r: String)
        requires
            self.wf(),
        ensures
            r@ == Self::out_view(self@),
    ;
}

impl OrdValue for String {
    /// Lexicographic by code point.
    open spec fn spec_lt(a: Seq<char>, b: Seq<char>) -> bool {
        lex_lt(a, b)
    }

    fn vlt(&self, other: &Self) -> (r: bool) {
        str_lt(self.as_str(), other.as_str())
    }
}

impl EqValue for String {
    fn veq(&self, other: &Self) -> (r: bool) {
        str_eq_str(self.as_str(), other.as_str())
    }
}

impl OutputValue for String {
    open spec fn out_view(v: Seq<char>) -> Seq<char> {
        v
    }

    fn to_output(&self) -> (r: String) {
        self.clone()
    }
}

impl OrdValue for DecimalWrapper {
    /// Numeric order.
    open spec fn spec_lt(a: DecimalWrapper, b: DecimalWrapper) -> bool {
        scaled(a) < scaled(b)
    }

    fn vlt(&self, other: &Self) -> (r: bool) {
        self.lt(other)
    }
}

impl DiffValue for DecimalWrapper {
    /// Exact decimal subtraction.
    open spec fn diff_of(a: DecimalWrapper, b: DecimalWrapper) -> Option<DecimalWrapper> {
        match dec_sub_of(a.mant as int, a.scale as nat, b.mant as int, b.scale as nat) {
            Some((m, sc)) => Some(DecimalWrapper { mant: m as i128, scale: sc as u32 }),
            None => None,
        }
    }

    fn diff(&self, other: &Self) -> (r: Option<DecimalWrapper>) {
        self.checked_sub(other)
    }
}

impl OutputValue for DecimalWrapper {
    open spec fn out_view(v: DecimalWrapper) -> Seq<char> {
        dec_str_of(v.mant as int, v.scale as nat)
    }

    fn to_output(&self) -> (r: String) {
        self.to_display_string()
    }
}

impl OrdValue for CustomDateObject {
    /// Chronological order.
    open spec fn spec_lt(a: CustomDateObject, b: CustomDateObject) -> bool {
        a.ts < b.ts
    }

    fn vlt(&self, other: &Self) -> (r: bool) {
        self.lt(other)
    }
}

impl DiffValue for CustomDateObject {
    /// The difference in fractional days: seconds divided by 86400,
    /// as a decimal.
    open spec fn diff_of(a: CustomDateObject, b: CustomDateObject) -> Option<DecimalWrapper> {
        match dec_div_of(a.ts - b.ts, 0, crate::dates::SECONDS_PER_DAY as int, 0) {
            Some((m, sc)) => Some(DecimalWrapper { mant: m as i128, scale: sc as u32 }),
            None => None,
        }
    }

    fn diff(&self, other: &Self) -> (r: Option<DecimalWrapper>) {
        self.diff_days(other)
    }
}

impl OutputValue for CustomDateObject {
    open spec fn out_view(v: CustomDateObject) -> Seq<char> {
        crate::dates::dt_str_of(v.ts as int)
    }

    fn to_output(&self) -> (r: String) {
        self.to_display_string()
    }
}

impl FieldValue for usize {
    open spec fn wf(&self) -> bool {
        true
    }

    fn dup(&self) -> (r: usize) {
        *self
    }
}

impl OutputValue for usize {
    open spec fn out_view(v: usize) -> Seq<char> {
        dec_digits(v as nat)
    }

    fn to_output(&self) -> (r: String) {
        u64_to_string(*self as u64)
    }
}

/// Accumulates a stream of values, one accumulation function per
/// implementation. `obs` is the (ghost) sequence of observed values;
/// `computed` pins the final value as a function of the state, which the
/// invariant ties to `obs`.
pub trait Accumulate<I: FieldValue, O: FieldValue>: Sized {
    spec fn inv(&self) -> bool;

    spec fn obs(&self) -> Seq<I::V>;

    spec fn computed(&self) -> Option<O::V>;

    /// Seeds the state from the first contributing value.
    fn new(item: I) -> (s: Self)
        requires
            item.wf(),
        ensures
            s.inv(),
            s.obs() == seq![item@],
    ;

    /// Folds one more contributing value into the state.
    fn update(&mut self, item: I)
        requires
            old(self).inv(),
            item.wf(),
            old(self).obs().len() < usize::MAX,
        ensures
            final(self).inv(),
            final(self).obs() == old(self).obs().push(item@),
    ;

    /// The final value; `None` only where the function has none (standard
    /// deviation of fewer than two values, or decimal overflow).
    fn compute(&self) -> (r: Option<O>)
        requires
            self.inv(),
        ensures
            match r {
                Some(o) => o.wf() && self.computed() == Some(o@),
                None => self.computed() is None,
            },
    ;
}

/// The total number of values observed.
pub struct Count<I: FieldValue> {
    pub count: usize,
    pub hist: Ghost<Seq<I::V>>,
}

impl<I: FieldValue> Accumulate<I, usize> for Count<I> {
    open spec fn inv(&self) -> bool {
        self.count == self.hist@.len()
    }

    open spec fn obs(&self) -> Seq<I::V> {
        self.hist@
    }

    /// Exactly the number of observations.
    open spec fn computed(&self) -> Option<usize> {
        Some(self.hist@.len() as usize)
    }

    fn new(item: I) -> (s: Count<I>) {
        let ghost h = seq![item@];
        Count { count: 1, hist: Ghost(h) }
    }

    fn update(&mut self, item: I) {
        self.count = self.count + 1;
        proof {
            self.hist@ = self.hist@.push(item@);
        }
    }

    fn compute(&self) -> (r: Option<usize>) {
        Some(self.count)
    }
}

/// The number of distinct values observed.
pub struct CountUnique<I: EqValue> {
    pub items: Vec<I>,
    pub hist: Ghost<Seq<I::V>>,
}

/// The views of a vector of domain values.
pub open spec fn val_views<I: FieldValue>(s: Seq<I>) -> Seq<I::V> {
    s.map_values(|x: I| x@)
}

impl<I: EqValue> Accumulate<I, usize> for CountUnique<I> {
    open spec fn inv(&self) -> bool {
        &&& forall|k: int| 0 <= k < self.items@.len() ==> (#[trigger] self.items@[k]).wf()
        &&& forall|k: int, l: int|
            0 <= k < l < self.items@.len() ==> self.items@[k]@ != self.items@[l]@
        &&& val_views(self.items@).to_set() == self.hist@.to_set()
    }

    open spec fn obs(&self) -> Seq<I::V> {
        self.hist@
    }

    /// Exactly the number of distinct observed values.
    open spec fn computed(&self) -> Option<usize> {
        Some(self.hist@.to_set().len() as usize)
    }

    fn new(item: I) -> (s: CountUnique<I>) {
        let ghost v = item@;
        let mut items: Vec<I> = Vec::new();
        items.push(item);
        let ghost h = seq![v];
        proof {
            assert(val_views(items@) =~= h);
        }
        CountUnique { items, hist: Ghost(h) }
    }

    fn update(&mut self, item: I) {
        let ghost old_views = val_views(self.items@);
        let mut k: usize = 0;
        let mut found = false;
        while k < self.items.len() && !found
            invariant
                0 <= k <= self.items@.len(),
                forall|j: int| 0 <= j < self.items@.len() ==> (#[trigger] self.items@[j]).wf(),
                item.wf(),
                found ==> k > 0 && self.items@[k - 1]@ == item@,
                !found ==> forall|j: int| 0 <= j < k ==> self.items@[j]@ != item@,
            decreases self.items@.len() - k,
        {
            if self.items[k].veq(&item) {
                found = true;
            }
            k += 1;
        }
        let ghost old_hist = self.hist@;
        proof {
            self.hist@ = self.hist@.push(item@);
            lemma_to_set_push(old_hist, item@);
        }
        if !found {
            self.items.push(item);
            proof {
                assert(val_views(self.items@) =~= old_views.push(item@));
                lemma_to_set_push(old_views, item@);
            }
        } else {
            proof {
                assert(self.items@[k - 1]@ == item@);
                assert(old_views[k - 1] == item@);
                assert(old_views.contains(item@));
                assert(old_views.to_set().insert(item@) =~= old_views.to_set());
            }
        }
    }

    fn compute(&self) -> (r: Option<usize>) {
        proof {
            let vs = val_views(self.items@);
            assert(vs.no_duplicates()) by {
                assert(forall|k: int, l: int|
                    0 <= k < vs.len() && 0 <= l < vs.len() && k != l ==> vs[k] != vs[l]);
            }
            vs.unique_seq_to_set();
        }
        Some(self.items.len())
    }
}

/// Pushing an element inserts its value into the sequence's set.
proof fn lemma_to_set_push<A>(s: Seq<A>, x: A)
    ensures
        s.push(x).to_set() =~= s.to_set().insert(x),
{
    assert forall|a: A| #[trigger] s.push(x).contains(a) implies s.contains(a) || a == x by {
        let i = choose|i: int| 0 <= i < s.push(x).len() && s.push(x)[i] == a;
        if i < s.len() {
            assert(s[i] == a);
        }
    }
    assert forall|a: A| s.contains(a) implies #[trigger] s.push(x).contains(a) by {
        let i = choose|i: int| 0 <= i < s.len() && s[i] == a;
        assert(s.push(x)[i] == a);
    }
    assert(s.push(x)[s.len() as int] == x);
    assert(s.push(x).contains(x));
}

/// The running maximum of a non-empty sequence: the fold of
/// replace-on-strictly-greater.
pub open spec fn seq_max<I: OrdValue>(s: Seq<I::V>) -> I::V
    decreases s.len(),
{
    if s.len() <= 1 {
        s[0]
    } else {
        let m = seq_max::<I>(s.drop_last());
        if I::spec_lt(m, s.last()) {
            s.last()
        } else {
            m
        }
    }
}

/// The running minimum of a non-empty sequence: the fold of
/// replace-on-strictly-smaller.
pub open spec fn seq_min<I: OrdValue>(s: Seq<I::V>) -> I::V
    decreases s.len(),
{
    if s.len() <= 1 {
        s[0]
    } else {
        let m = seq_min::<I>(s.drop_last());
        if I::spec_lt(s.last(), m) {
            s.last()
        } else {
            m
        }
    }
}

/// The largest value observed (the one that would sort last).
pub struct Maximum<I: OrdValue> {
    pub cur: I,
    pub hist: Ghost<Seq<I::V>>,
}

impl<I: OrdValue> Accumulate<I, I> for Maximum<I> {
    open spec fn inv(&self) -> bool {
        &&& self.hist@.len() >= 1
        &&& self.cur.wf()
        &&& self.cur@ == seq_max::<I>(self.hist@)
    }

    open spec fn obs(&self) -> Seq<I::V> {
        self.hist@
    }

    /// Exactly the running maximum of the observations.
    open spec fn computed(&self) -> Option<I::V> {
        Some(seq_max::<I>(self.hist@))
    }

    fn new(item: I) -> (s: Maximum<I>) {
        let ghost h = seq![item@];
        Maximum { cur: item, hist: Ghost(h) }
    }

    fn update(&mut self, item: I) {
        let ghost oldh = self.hist@;
        proof {
            self.hist@ = self.hist@.push(item@);
            assert(self.hist@.drop_last() =~= oldh);
        }
        if self.cur.vlt(&item) {
            self.cur = item;
        }
    }

    fn compute(&self) -> (r: Option<I>) {
        Some(self.cur.dup())
    }
}

/// The smallest value observed (the one that would sort first).
pub struct Minimum<I: OrdValue> {
    pub cur: I,
    pub hist: Ghost<Seq<I::V>>,
}

impl<I: OrdValue> Accumulate<I, I> for Minimum<I> {
    open spec fn inv(&self) -> bool {
        &&& self.hist@.len() >= 1
        &&& self.cur.wf()
        &&& self.cur@ == seq_min::<I>(self.hist@)
    }

    open spec fn obs(&self) -> Seq<I::V> {
        self.hist@
    }

    /// Exactly the running minimum of the observations.
    open spec fn computed(&self) -> Option<I::V> {
        Some(seq_min::<I>(self.hist@))
    }

    fn new(item: I) -> (s: Minimum<I>) {
        let ghost h = seq![item@];
        Minimum { cur: item, hist: Ghost(h) }
    }

    fn update(&mut self, item: I) {
        let ghost oldh = self.hist@;
        proof {
            self.hist@ = self.hist@.push(item@);
            assert(self.hist@.drop_last() =~= oldh);
        }
        if item.vlt(&self.cur) {
            self.cur = item;
        }
    }

    fn compute(&self) -> (r: Option<I>) {
        Some(self.cur.dup())
    }
}

/// The (min, max) pair as the stream folds it: a new value replaces the
/// minimum when strictly below it, otherwise replaces the maximum when
/// strictly above it.
pub open spec fn seq_minmax<I: OrdValue>(s: Seq<I::V>) -> (I::V, I::V)
    decreases s.len(),
{
    if s.len() <= 1 {
        (s[0], s[0])
    } else {
        let p = seq_minmax::<I>(s.drop_last());
        let x = s.last();
        if I::spec_lt(x, p.0) {
            (x, p.1)
        } else if I::spec_lt(p.1, x) {
            (p.0, x)
        } else {
            p
        }
    }
}

/// The minimum and maximum rendered together as `"{min} - {max}"`.
pub struct MinMax<I: OrdValue + OutputValue> {
    pub min_val: I,
    pub max_val: I,
    pub hist: Ghost<Seq<I::V>>,
}

impl<I: OrdValue + OutputValue> Accumulate<I, String> for MinMax<I> {
    open spec fn inv(&self) -> bool {
        &&& self.hist@.len() >= 1
        &&& self.min_val.wf()
        &&& self.max_val.wf()
        &&& self.min_val@ == seq_minmax::<I>(self.hist@).0
        &&& self.max_val@ == seq_minmax::<I>(self.hist@).1
    }

    open spec fn obs(&self) -> Seq<I::V> {
        self.hist@
    }

    /// Exactly the folded minimum, `" - "`, then the folded maximum.
    open spec fn computed(&self) -> Option<Seq<char>> {
        Some(
            I::out_view(seq_minmax::<I>(self.hist@).0) + " - "@ + I::out_view(
                seq_minmax::<I>(self.hist@).1,
            ),
        )
    }

    fn new(item: I) -> (s: MinMax<I>) {
        let ghost h = seq![item@];
        let min_val = item.dup();
        MinMax { min_val, max_val: item, hist: Ghost(h) }
    }

    fn update(&mut self, item: I) {
        let ghost oldh = self.hist@;
        proof {
            self.hist@ = self.hist@.push(item@);
            assert(self.hist@.drop_last() =~= oldh);
        }
        if item.vlt(&self.min_val) {
            self.min_val = item;
        } else if self.max_val.vlt(&item) {
            self.max_val = item;
        }
    }

    fn compute(&self) -> (r: Option<String>) {
        let mut s = self.min_val.to_output();
        s.append(" - ");
        let mx = self.max_val.to_output();
        s.append(mx.as_str());
        Some(s)
    }
}

/// The (min, max) pair with both replacements checked independently.
pub open spec fn seq_range_pair<I: OrdValue>(s: Seq<I::V>) -> (I::V, I::V)
    decreases s.len(),
{
    if s.len() <= 1 {
        (s[0], s[0])
    } else {
        let p = seq_range_pair::<I>(s.drop_last());
        let x = s.last();
        let lo = if I::spec_lt(x, p.0) {
            x
        } else {
            p.0
        };
        let hi = if I::spec_lt(p.1, x) {
            x
        } else {
            p.1
        };
        (lo, hi)
    }
}

/// The spread of the observed values: maximum minus minimum, as a decimal
/// (for dates, in fractional days).
pub struct Range<I: DiffValue> {
    pub min_val: I,
    pub max_val: I,
    pub hist: Ghost<Seq<I::V>>,
}

impl<I: DiffValue> Accumulate<I, DecimalWrapper> for Range<I> {
    open spec fn inv(&self) -> bool {
        &&& self.hist@.len() >= 1
        &&& self.min_val.wf()
        &&& self.max_val.wf()
        &&& self.min_val@ == seq_range_pair::<I>(self.hist@).0
        &&& self.max_val@ == seq_range_pair::<I>(self.hist@).1
    }

    open spec fn obs(&self) -> Seq<I::V> {
        self.hist@
    }

    /// Exactly the difference of the folded maximum and minimum.
    open spec fn computed(&self) -> Option<DecimalWrapper> {
        I::diff_of(seq_range_pair::<I>(self.hist@).1, seq_range_pair::<I>(self.hist@).0)
    }

    fn new(item: I) -> (s: Range<I>) {
        let ghost h = seq![item@];
        let min_val = item.dup();
        Range { min_val, max_val: item, hist: Ghost(h) }
    }

    fn update(&mut self, item: I) {
        let ghost oldh = self.hist@;
        proof {
            self.hist@ = self.hist@.push(item@);
            assert(self.hist@.drop_last() =~= oldh);
        }
        if item.vlt(&self.min_val) {
            let item2 = item.dup();
            self.min_val = item2;
        }
        if self.max_val.vlt(&item) {
            self.max_val = item;
        }
    }

    fn compute(&self) -> (r: Option<DecimalWrapper>) {
        self.max_val.diff(&self.min_val)
    }
}

/// The fold of checked decimal addition over a non-empty run of values,
/// through `rust_decimal`'s addition.
pub open spec fn fold_add(s: Seq<DecimalWrapper>) -> Option<DecimalWrapper>
    decreases s.len(),
{
    if s.len() == 0 {
        None
    } else if s.len() == 1 {
        Some(s[0])
    } else {
        match fold_add(s.drop_last()) {
            Some(a) => match dec_add_of(
                a.mant as int,
                a.scale as nat,
                s.last().mant as int,
                s.last().scale as nat,
            ) {
                Some((m, sc)) => Some(DecimalWrapper { mant: m as i128, scale: sc as u32 }),
                None => None,
            },
            None => None,
        }
    }
}

/// Absolute value.
pub open spec fn abs_int(x: int) -> int {
    if x < 0 {
        -x
    } else {
        x
    }
}

/// The mantissas of a run of decimals.
pub open spec fn mants(s: Seq<DecimalWrapper>) -> Seq<int> {
    s.map_values(|d: DecimalWrapper| d.mant as int)
}

/// The mantissa magnitudes of a run of decimals.
pub open spec fn abs_mants(s: Seq<DecimalWrapper>) -> Seq<int> {
    s.map_values(|d: DecimalWrapper| abs_int(d.mant as int))
}

/// Every decimal in the run carries the scale `sc`.
pub open spec fn all_scale(s: Seq<DecimalWrapper>, sc: int) -> bool {
    forall|i: int| 0 <= i < s.len() ==> (#[trigger] s[i]).scale == sc
}

/// A sum of integers is no larger in magnitude than the sum of their
/// magnitudes.
proof fn lemma_abs_sum(s: Seq<DecimalWrapper>)
    ensures
        abs_int(sum_int(mants(s))) <= sum_int(abs_mants(s)),
    decreases s.len(),
{
    if s.len() > 0 {
        let t = s.drop_last();
        lemma_abs_sum(t);
        assert(mants(s).drop_last() =~= mants(t));
        assert(abs_mants(s).drop_last() =~= abs_mants(t));
        assert(mants(s).last() == s.last().mant as int);
        assert(abs_mants(s).last() == abs_int(s.last().mant as int));
    } else {
        assert(mants(s) =~= Seq::<int>::empty());
        assert(abs_mants(s) =~= Seq::<int>::empty());
    }
}

/// The running sum of a stream of decimals: exact decimal addition, `None`
/// after an overflow.
pub struct Sum {
    pub acc: Option<DecimalWrapper>,
    pub hist: Ghost<Seq<DecimalWrapper>>,
}

impl Accumulate<DecimalWrapper, DecimalWrapper> for Sum {
    open spec fn inv(&self) -> bool {
        &&& self.hist@.len() >= 1
        &&& match self.acc {
            Some(a) => a.wf() && fold_add(self.hist@) == Some(a),
            None => fold_add(self.hist@) is None,
        }
        &&& forall|sc: int|
            #[trigger] all_scale(self.hist@, sc) && sum_int(abs_mants(self.hist@)) <= MAX_MANTISSA
                ==> (self.acc matches Some(a) && a.scale == sc && a.mant == sum_int(
                mants(self.hist@),
            ))
    }

    open spec fn obs(&self) -> Seq<DecimalWrapper> {
        self.hist@
    }

    /// Exactly the fold of decimal addition over the observations.
    open spec fn computed(&self) -> Option<DecimalWrapper> {
        fold_add(self.hist@)
    }

    fn new(item: DecimalWrapper) -> (s: Sum) {
        let ghost h = seq![item];
        proof {
            assert(mants(h) =~= seq![item.mant as int]);
            assert(abs_mants(h) =~= seq![abs_int(item.mant as int)]);
            assert(seq![item.mant as int].drop_last() =~= Seq::<int>::empty());
            assert(sum_int(Seq::<int>::empty()) == 0);
            assert(seq![item.mant as int].last() == item.mant as int);
            assert(sum_int(seq![item.mant as int]) == item.mant as int);
            assert(sum_int(mants(h)) == item.mant as int);
            assert forall|sc: int|
                #[trigger] all_scale(h, sc) && sum_int(abs_mants(h)) <= MAX_MANTISSA implies (Some(
                item,
            ) matches Some(a) && a.scale == sc && a.mant == sum_int(mants(h))) by {
                assert(h[0].scale == sc);
            }
        }
        Sum { acc: Some(item), hist: Ghost(h) }
    }

    fn update(&mut self, item: DecimalWrapper) {
        let ghost oldh = self.hist@;
        proof {
            self.hist@ = self.hist@.push(item);
            assert(self.hist@.drop_last() =~= oldh);
            assert(mants(self.hist@).drop_last() =~= mants(oldh));
            assert(abs_mants(self.hist@).drop_last() =~= abs_mants(oldh));
        }
        let acc = self.acc;
        match acc {
            Some(a) => {
                let r = a.checked_add(&item);
                self.acc = r;
                proof {
                    let newh = self.hist@;
                    assert(mants(newh).last() == item.mant as int);
                    assert(abs_mants(newh).last() == abs_int(item.mant as int));
                    assert(sum_int(mants(newh)) == sum_int(mants(oldh)) + item.mant);
                    assert(sum_int(abs_mants(newh)) == sum_int(abs_mants(oldh)) + abs_int(
                        item.mant as int,
                    ));
                    if r is Some {
                        let c = r->0;
                        assert((c.mant as int) as i128 == c.mant);
                        assert((c.scale as nat) as u32 == c.scale);
                        assert(fold_add(newh) == Some(c));
                    }
                    assert forall|sc: int|
                        #[trigger] all_scale(newh, sc) && sum_int(abs_mants(newh)) <= MAX_MANTISSA
                            implies (self.acc matches Some(c) && c.scale == sc && c.mant == sum_int(
                        mants(newh),
                    )) by {
                        assert(forall|i: int| 0 <= i < oldh.len() ==> oldh[i] == newh[i]);
                        assert(all_scale(oldh, sc));
                        assert(abs_int(item.mant as int) >= 0);
                        assert(sum_int(abs_mants(oldh)) <= MAX_MANTISSA);
                        assert(a.scale == sc && a.mant == sum_int(mants(oldh)));
                        lemma_abs_sum(oldh);
                        assert(item.scale == sc) by {
                            assert(newh[newh.len() - 1] == item);
                        }
                        assert(-MAX_MANTISSA <= a.mant + item.mant <= MAX_MANTISSA);
                    }
                }
            },
            None => {
                proof {
                    let newh = self.hist@;
                    assert forall|sc: int|
                        #[trigger] all_scale(newh, sc) && sum_int(abs_mants(newh)) <= MAX_MANTISSA
                            implies false by {
                        assert(forall|i: int| 0 <= i < oldh.len() ==> oldh[i] == newh[i]);
                        assert(all_scale(oldh, sc));
                        assert(abs_int(item.mant as int) >= 0);
                        assert(sum_int(abs_mants(newh)) == sum_int(abs_mants(oldh)) + abs_int(
                            item.mant as int,
                        ));
                        assert(sum_int(abs_mants(oldh)) <= MAX_MANTISSA);
                    }
                }
            },
        }
    }

    fn compute(&self) -> (r: Option<DecimalWrapper>) {
        self.acc
    }
}

/// The mean of a stream of decimals: an exact running sum, one decimal
/// division at the end.
pub struct Mean {
    pub running_sum: Option<DecimalWrapper>,
    pub running_count: u64,
    pub hist: Ghost<Seq<DecimalWrapper>>,
}

impl Accumulate<DecimalWrapper, DecimalWrapper> for Mean {
    open spec fn inv(&self) -> bool {
        &&& self.hist@.len() >= 1
        &&& self.running_count == self.hist@.len()
        &&& match self.running_sum {
            Some(a) => a.wf() && fold_add(self.hist@) == Some(a),
            None => fold_add(self.hist@) is None,
        }
        &&& forall|sc: int|
            #[trigger] all_scale(self.hist@, sc) && sum_int(abs_mants(self.hist@)) <= MAX_MANTISSA
                ==> (self.running_sum matches Some(a) && a.scale == sc && a.mant == sum_int(
                mants(self.hist@),
            ))
    }

    open spec fn obs(&self) -> Seq<DecimalWrapper> {
        self.hist@
    }

    /// Exactly the folded sum divided by the number of observations.
    open spec fn computed(&self) -> Option<DecimalWrapper> {
        match fold_add(self.hist@) {
            Some(s) => match dec_div_of(
                s.mant as int,
                s.scale as nat,
                self.hist@.len() as int,
                0,
            ) {
                Some((m, sc)) => Some(DecimalWrapper { mant: m as i128, scale: sc as u32 }),
                None => None,
            },
            None => None,
        }
    }

    fn new(item: DecimalWrapper) -> (s: Mean) {
        let ghost h = seq![item];
        proof {
            assert(mants(h) =~= seq![item.mant as int]);
            assert(abs_mants(h) =~= seq![abs_int(item.mant as int)]);
            assert(seq![item.mant as int].drop_last() =~= Seq::<int>::empty());
            assert(sum_int(Seq::<int>::empty()) == 0);
            assert(seq![item.mant as int].last() == item.mant as int);
            assert(sum_int(seq![item.mant as int]) == item.mant as int);
            assert(sum_int(mants(h)) == item.mant as int);
            assert forall|sc: int|
                #[trigger] all_scale(h, sc) && sum_int(abs_mants(h)) <= MAX_MANTISSA implies (Some(
                item,
            ) matches Some(a) && a.scale == sc && a.mant == sum_int(mants(h))) by {
                assert(h[0].scale == sc);
            }
        }
        Mean { running_sum: Some(item), running_count: 1, hist: Ghost(h) }
    }

    fn update(&mut self, item: DecimalWrapper) {
        let ghost oldh = self.hist@;
        proof {
            self.hist@ = self.hist@.push(item);
            assert(self.hist@.drop_last() =~= oldh);
            assert(mants(self.hist@).drop_last() =~= mants(oldh));
            assert(abs_mants(self.hist@).drop_last() =~= abs_mants(oldh));
        }
        self.running_count = self.running_count + 1;
        let acc = self.running_sum;
        match acc {
            Some(a) => {
                let r = a.checked_add(&item);
                self.running_sum = r;
                proof {
                    let newh = self.hist@;
                    assert(mants(newh).last() == item.mant as int);
                    assert(abs_mants(newh).last() == abs_int(item.mant as int));
                    assert(sum_int(mants(newh)) == sum_int(mants(oldh)) + item.mant);
                    assert(sum_int(abs_mants(newh)) == sum_int(abs_mants(oldh)) + abs_int(
                        item.mant as int,
                    ));
                    if r is Some {
                        let c = r->0;
                        assert((c.mant as int) as i128 == c.mant);
                        assert((c.scale as nat) as u32 == c.scale);
                        assert(fold_add(newh) == Some(c));
                    }
                    assert forall|sc: int|
                        #[trigger] all_scale(newh, sc) && sum_int(abs_mants(newh)) <= MAX_MANTISSA
                            implies (self.running_sum matches Some(c) && c.scale == sc && c.mant
                        == sum_int(mants(newh))) by {
                        assert(forall|i: int| 0 <= i < oldh.len() ==> oldh[i] == newh[i]);
                        assert(all_scale(oldh, sc));
                        assert(abs_int(item.mant as int) >= 0);
                        assert(sum_int(abs_mants(oldh)) <= MAX_MANTISSA);
                        assert(a.scale == sc && a.mant == sum_int(mants(oldh)));
                        lemma_abs_sum(oldh);
                        assert(item.scale == sc) by {
                            assert(newh[newh.len() - 1] == item);
                        }
                        assert(-MAX_MANTISSA <= a.mant + item.mant <= MAX_MANTISSA);
                    }
                }
            },
            None => {
                proof {
                    let newh = self.hist@;
                    assert forall|sc: int|
                        #[trigger] all_scale(newh, sc) && sum_int(abs_mants(newh)) <= MAX_MANTISSA
                            implies false by {
                        assert(forall|i: int| 0 <= i < oldh.len() ==> oldh[i] == newh[i]);
                        assert(all_scale(oldh, sc));
                        assert(abs_int(item.mant as int) >= 0);
                        assert(sum_int(abs_mants(newh)) == sum_int(abs_mants(oldh)) + abs_int(
                            item.mant as int,
                        ));
                        assert(sum_int(abs_mants(oldh)) <= MAX_MANTISSA);
                    }
                }
            },
        }
    }

    fn compute(&self) -> (r: Option<DecimalWrapper>) {
        let acc = self.running_sum;
        match acc {
            Some(s) => {
                let cnt = DecimalWrapper::from_count(self.running_count);
                s.checked_div(&cnt)
            },
            None => None,
        }
    }
}

/// How often `v` occurs in `s`.
pub open spec fn count_in<V>(s: Seq<V>, v: V) -> nat
    decreases s.len(),
{
    if s.len() == 0 {
        0
    } else {
        count_in(s.drop_last(), v) + (if s.last() == v {
            1nat
        } else {
            0nat
        })
    }
}

/// Appending an element raises its own count by one and no other.
pub proof fn lemma_count_in_push<V>(s: Seq<V>, x: V, v: V)
    ensures
        count_in(s.push(x), v) == count_in(s, v) + (if x == v {
            1nat
        } else {
            0nat
        }),
{
    assert(s.push(x).drop_last() =~= s);
    assert(s.push(x).last() == x);
}

/// No value occurs more often than the sequence is long.
pub proof fn lemma_count_le_len<V>(s: Seq<V>, v: V)
    ensures
        count_in(s, v) <= s.len(),
    decreases s.len(),
{
    if s.len() > 0 {
        lemma_count_le_len(s.drop_last(), v);
    }
}

/// A value that occurs at all occurs at some index.
pub proof fn lemma_count_pos_contains<V>(s: Seq<V>, v: V)
    requires
        count_in(s, v) > 0,
    ensures
        exists|i: int| 0 <= i < s.len() && s[i] == v,
    decreases s.len(),
{
    if s.len() > 0 {
        if s.last() == v {
            assert(s[s.len() - 1] == v);
        } else {
            lemma_count_pos_contains(s.drop_last(), v);
            let i = choose|i: int| 0 <= i < s.drop_last().len() && s.drop_last()[i] == v;
            assert(s[i] == v);
        }
    }
}

/// The (mode, count) pair after folding a non-empty run: a value becomes
/// the mode only when its occurrence count strictly exceeds the running
/// maximum, so ties keep the earlier mode.
pub open spec fn mode_state<V>(s: Seq<V>) -> (V, nat)
    decreases s.len(),
{
    if s.len() <= 1 {
        (s[0], 1nat)
    } else {
        let p = mode_state(s.drop_last());
        let x = s.last();
        let c = count_in(s, x);
        if c > p.1 {
            (x, c)
        } else {
            p
        }
    }
}

fn find_entry<I: EqValue>(hgram: &Vec<(I, usize)>, item: &I) -> (r: Option<usize>)
    requires
        item.wf(),
        forall|k: int| 0 <= k < hgram@.len() ==> (#[trigger] hgram@[k]).0.wf(),
    ensures
        match r {
            Some(j) => j < hgram@.len() && hgram@[j as int].0@ == item@,
            None => forall|k: int| 0 <= k < hgram@.len() ==> (#[trigger] hgram@[k]).0@ != item@,
        },
{
    let mut k: usize = 0;
    while k < hgram.len()
        invariant
            0 <= k <= hgram@.len(),
            item.wf(),
            forall|j: int| 0 <= j < hgram@.len() ==> (#[trigger] hgram@[j]).0.wf(),
            forall|j: int| 0 <= j < k ==> (#[trigger] hgram@[j]).0@ != item@,
        decreases hgram@.len() - k,
    {
        if hgram[k].0.veq(item) {
            return Some(k);
        }
        k += 1;
    }
    None
}

/// The most commonly observed value; ties go to the value that reached the
/// winning count first.
pub struct Mode<I: EqValue> {
    pub histogram: Vec<(I, usize)>,
    pub max_count: usize,
    pub max_val: I,
    pub hist: Ghost<Seq<I::V>>,
}

impl<I: EqValue> Accumulate<I, I> for Mode<I> {
    open spec fn inv(&self) -> bool {
        &&& self.hist@.len() >= 1
        &&& forall|k: int| 0 <= k < self.histogram@.len() ==> (#[trigger] self.histogram@[k]).0.wf()
        &&& forall|k: int, l: int|
            0 <= k < l < self.histogram@.len() ==> self.histogram@[k].0@ != self.histogram@[l].0@
        &&& forall|k: int|
            0 <= k < self.histogram@.len() ==> (#[trigger] self.histogram@[k]).1 == count_in(
                self.hist@,
                self.histogram@[k].0@,
            )
        &&& forall|i: int|
            0 <= i < self.hist@.len() ==> exists|k: int|
                0 <= k < self.histogram@.len() && (#[trigger] self.histogram@[k]).0@
                    == #[trigger] self.hist@[i]
        &&& self.max_val.wf()
        &&& self.max_val@ == mode_state(self.hist@).0
        &&& self.max_count == mode_state(self.hist@).1
    }

    open spec fn obs(&self) -> Seq<I::V> {
        self.hist@
    }

    /// Exactly the first value to have reached the winning count.
    open spec fn computed(&self) -> Option<I::V> {
        Some(mode_state(self.hist@).0)
    }

    fn new(item: I) -> (s: Mode<I>) {
        let ghost v = item@;
        let ghost h = seq![v];
        let max_val = item.dup();
        let key = item.dup();
        let mut histogram: Vec<(I, usize)> = Vec::new();
        histogram.push((key, 1));
        proof {
            assert(h.drop_last() =~= Seq::<I::V>::empty());
            assert(h.last() == v);
            assert(count_in(Seq::<I::V>::empty(), v) == 0);
            assert(count_in(h, v) == 1);
            assert forall|w: I::V| w != v implies count_in(h, w) == 0 by {
                assert(count_in(Seq::<I::V>::empty(), w) == 0);
            }
            assert(mode_state(h) == (v, 1nat));
            assert(histogram@[0].0@ == h[0]);
        }
        let s = Mode { histogram, max_count: 1, max_val, hist: Ghost(h) };
        proof {
            assert(s.hist@ == h);
            assert(s.histogram@.len() == 1);
            assert(s.histogram@[0].0@ == v);
            assert(s.histogram@[0].1 == count_in(s.hist@, s.histogram@[0].0@));
            assert(forall|k: int|
                0 <= k < s.histogram@.len() ==> (#[trigger] s.histogram@[k]).0.wf());
            assert forall|i: int| 0 <= i < s.hist@.len() implies exists|k: int|
                0 <= k < s.histogram@.len() && (#[trigger] s.histogram@[k]).0@ == #[trigger] s.hist@[i] by {
                assert(0 <= 0 < s.histogram@.len() && s.histogram@[0].0@ == s.hist@[i]);
            }
            assert(s.max_val@ == mode_state(s.hist@).0);
            assert(s.max_count == mode_state(s.hist@).1);
        }
        s
    }

    fn update(&mut self, item: I) {
        let ghost oldh = self.hist@;
        let ghost v = item@;
        let ghost old_hg = self.histogram@;
        let found = find_entry(&self.histogram, &item);
        proof {
            self.hist@ = self.hist@.push(v);
            assert(self.hist@.drop_last() =~= oldh);
            assert(self.hist@.last() == v);
        }
        let ghost newh = self.hist@;
        let new_count: usize;
        match found {
            Some(j) => {
                let c = self.histogram[j].1;
                proof {
                    lemma_count_le_len(oldh, v);
                }
                new_count = c + 1;
            },
            None => {
                proof {
                    if count_in(oldh, v) > 0 {
                        lemma_count_pos_contains(oldh, v);
                        let i = choose|i: int| 0 <= i < oldh.len() && oldh[i] == v;
                        assert(exists|k: int|
                            0 <= k < old_hg.len() && (#[trigger] old_hg[k]).0@ == oldh[i]);
                    }
                    assert(count_in(oldh, v) == 0);
                }
                new_count = 1;
            },
        }
        proof {
            lemma_count_in_push(oldh, v, v);
            assert(count_in(newh, v) == new_count);
            assert(mode_state(newh) == (if count_in(newh, v) > mode_state(oldh).1 {
                (v, count_in(newh, v))
            } else {
                mode_state(oldh)
            }));
        }
        if new_count > self.max_count {
            self.max_count = new_count;
            let m = item.dup();
            self.max_val = m;
        }
        match found {
            Some(j) => {
                self.histogram[j].1 = new_count;
                proof {
                    assert(self.histogram@ =~= old_hg.update(
                        j as int,
                        (old_hg[j as int].0, new_count),
                    ));
                    assert forall|k: int| 0 <= k < self.histogram@.len() implies (
                    #[trigger] self.histogram@[k]).1 == count_in(newh, self.histogram@[k].0@) by {
                        if k == j {
                        } else {
                            assert(old_hg[k].0@ != old_hg[j as int].0@);
                            lemma_count_in_push(oldh, v, old_hg[k].0@);
                        }
                    }
                    assert forall|i: int| 0 <= i < newh.len() implies exists|k: int|
                        0 <= k < self.histogram@.len() && (#[trigger] self.histogram@[k]).0@
                            == #[trigger] newh[i] by {
                        if i < oldh.len() {
                            let k = choose|k: int|
                                0 <= k < old_hg.len() && (#[trigger] old_hg[k]).0@ == oldh[i];
                            assert(self.histogram@[k].0@ == newh[i]);
                        } else {
                            assert(self.histogram@[j as int].0@ == v);
                        }
                    }
                }
            },
            None => {
                self.histogram.push((item, 1));
                proof {
                    let hg = self.histogram@;
                    assert(hg.len() == old_hg.len() + 1);
                    assert(forall|k: int| 0 <= k < old_hg.len() ==> hg[k] == old_hg[k]);
                    assert(hg[old_hg.len() as int].0@ == v);
                    assert(hg[old_hg.len() as int].1 == 1);
                    assert forall|k: int| 0 <= k < hg.len() implies (#[trigger] hg[k]).1
                        == count_in(newh, hg[k].0@) by {
                        if k < old_hg.len() {
                            assert(old_hg[k].0@ != v);
                            lemma_count_in_push(oldh, v, old_hg[k].0@);
                        } else {
                            assert(count_in(newh, v) == 1);
                        }
                    }
                    assert forall|i: int| 0 <= i < newh.len() implies exists|k: int|
                        0 <= k < hg.len() && (#[trigger] hg[k]).0@ == #[trigger] newh[i] by {
                        if i < oldh.len() {
                            let k = choose|k: int|
                                0 <= k < old_hg.len() && (#[trigger] old_hg[k]).0@ == oldh[i];
                            assert(hg[k].0@ == newh[i]);
                        } else {
                            assert(hg[old_hg.len() as int].0@ == v && newh[i] == v);
                        }
                    }
                }
            },
        }
    }

    fn compute(&self) -> (r: Option<I>) {
        Some(self.max_val.dup())
    }
}

/// The number of observations numerically equal to the scaled value `x`.
pub open spec fn count_val(s: Seq<DecimalWrapper>, x: int) -> nat
    decreases s.len(),
{
    if s.len() == 0 {
        0
    } else {
        count_val(s.drop_last(), x) + (if scaled(s.last()) == x {
            1nat
        } else {
            0nat
        })
    }
}

/// The first observation with scaled value `x`.
pub open spec fn first_with(s: Seq<DecimalWrapper>, x: int) -> DecimalWrapper
    decreases s.len(),
{
    if s.len() == 0 {
        DecimalWrapper { mant: 0, scale: 0 }
    } else if scaled(s[0]) == x {
        s[0]
    } else {
        first_with(s.drop_first(), x)
    }
}

/// The total of the per-value counts in an entry table.
pub open spec fn sum_counts(entries: Seq<(DecimalWrapper, usize)>) -> int
    decreases entries.len(),
{
    if entries.len() == 0 {
        0
    } else {
        sum_counts(entries.drop_last()) + entries.last().1
    }
}

proof fn lemma_count_val_push(s: Seq<DecimalWrapper>, x: DecimalWrapper, v: int)
    ensures
        count_val(s.push(x), v) == count_val(s, v) + (if scaled(x) == v {
            1nat
        } else {
            0nat
        }),
{
    assert(s.push(x).drop_last() =~= s);
    assert(s.push(x).last() == x);
}

proof fn lemma_count_val_le_len(s: Seq<DecimalWrapper>, v: int)
    ensures
        count_val(s, v) <= s.len(),
    decreases s.len(),
{
    if s.len() > 0 {
        lemma_count_val_le_len(s.drop_last(), v);
    }
}

proof fn lemma_count_val_pos_contains(s: Seq<DecimalWrapper>, v: int)
    requires
        count_val(s, v) > 0,
    ensures
        exists|i: int| 0 <= i < s.len() && scaled(s[i]) == v,
    decreases s.len(),
{
    if s.len() > 0 {
        if scaled(s.last()) == v {
            assert(scaled(s[s.len() - 1]) == v);
        } else {
            lemma_count_val_pos_contains(s.drop_last(), v);
            let i = choose|i: int| 0 <= i < s.drop_last().len() && scaled(s.drop_last()[i]) == v;
            assert(scaled(s[i]) == v);
        }
    }
}

proof fn lemma_first_with_push(s: Seq<DecimalWrapper>, x: DecimalWrapper, v: int)
    ensures
        (exists|i: int| 0 <= i < s.len() && scaled(s[i]) == v) ==> first_with(s.push(x), v)
            == first_with(s, v),
        ((forall|i: int| 0 <= i < s.len() ==> scaled(s[i]) != v) && scaled(x) == v) ==> first_with(
            s.push(x),
            v,
        ) == x,
    decreases s.len(),
{
    if s.len() == 0 {
        assert(s.push(x)[0] == x);
        if scaled(x) == v {
            assert(first_with(s.push(x), v) == x);
        }
    } else {
        assert(s.push(x)[0] == s[0]);
        if scaled(s[0]) == v {
            assert(first_with(s.push(x), v) == s[0]);
            assert(first_with(s, v) == s[0]);
        } else {
            lemma_first_with_push(s.drop_first(), x, v);
            assert(s.push(x).drop_first() =~= s.drop_first().push(x));
            assert forall|i: int| 0 <= i < s.len() && scaled(s[i]) == v implies exists|j: int|
                0 <= j < s.drop_first().len() && scaled(#[trigger] s.drop_first()[j]) == v by {
                assert(scaled(s.drop_first()[i - 1]) == v);
            }
            assert forall|i: int|
                0 <= i < s.drop_first().len() && scaled(#[trigger] s.drop_first()[i]) == v
                    implies exists|j: int| 0 <= j < s.len() && scaled(s[j]) == v by {
                assert(scaled(s[i + 1]) == v);
            }
        }
    }
}

proof fn lemma_sum_counts_update(
    entries: Seq<(DecimalWrapper, usize)>,
    j: int,
    p: (DecimalWrapper, usize),
)
    requires
        0 <= j < entries.len(),
    ensures
        sum_counts(entries.update(j, p)) == sum_counts(entries) - entries[j].1 + p.1,
    decreases entries.len(),
{
    if j == entries.len() - 1 {
        assert(entries.update(j, p).drop_last() =~= entries.drop_last());
        assert(entries.update(j, p).last() == p);
    } else {
        lemma_sum_counts_update(entries.drop_last(), j, p);
        assert(entries.update(j, p).drop_last() =~= entries.drop_last().update(j, p));
        assert(entries.update(j, p).last() == entries.last());
    }
}

proof fn lemma_sum_counts_insert(
    entries: Seq<(DecimalWrapper, usize)>,
    j: int,
    p: (DecimalWrapper, usize),
)
    requires
        0 <= j <= entries.len(),
    ensures
        sum_counts(entries.insert(j, p)) == sum_counts(entries) + p.1,
    decreases entries.len(),
{
    if j == entries.len() {
        assert(entries.insert(j, p).drop_last() =~= entries);
        assert(entries.insert(j, p).last() == p);
    } else {
        lemma_sum_counts_insert(entries.drop_last(), j, p);
        assert(entries.insert(j, p).drop_last() =~= entries.drop_last().insert(j, p));
        assert(entries.insert(j, p).last() == entries.last());
    }
}

proof fn lemma_sum_counts_take_le(entries: Seq<(DecimalWrapper, usize)>, i: int)
    requires
        0 <= i <= entries.len(),
    ensures
        sum_counts(entries.take(i)) <= sum_counts(entries),
        sum_counts(entries.take(i)) >= 0,
    decreases entries.len() - i,
{
    lemma_sum_counts_nonneg(entries.take(i));
    if i < entries.len() {
        lemma_sum_counts_take_le(entries, i + 1);
        assert(entries.take(i + 1).drop_last() =~= entries.take(i));
        assert(entries.take(i + 1).last() == entries[i]);
    } else {
        assert(entries.take(i) =~= entries);
    }
}

proof fn lemma_sum_counts_nonneg(entries: Seq<(DecimalWrapper, usize)>)
    ensures
        sum_counts(entries) >= 0,
    decreases entries.len(),
{
    if entries.len() > 0 {
        lemma_sum_counts_nonneg(entries.drop_last());
    }
}

/// The average of two decimals: their exact sum divided by two.
pub open spec fn avg_of(a: DecimalWrapper, b: DecimalWrapper) -> Option<DecimalWrapper> {
    match dec_add_of(a.mant as int, a.scale as nat, b.mant as int, b.scale as nat) {
        Some((m, sc)) => match dec_div_of(m, sc, 2, 0) {
            Some((m2, sc2)) => Some(DecimalWrapper { mant: m2 as i128, scale: sc2 as u32 }),
            None => None,
        },
        None => None,
    }
}

/// The walk the median takes over the value table, in ascending value
/// order: accumulate counts until at least half the observations are
/// covered; landing exactly on half with an even total averages the
/// stopping value with the next one.
pub open spec fn med_walk(
    entries: Seq<(DecimalWrapper, usize)>,
    num: int,
    idx: int,
    cum: int,
) -> Option<DecimalWrapper>
    decreases entries.len() - idx,
{
    if idx < 0 || idx >= entries.len() {
        None
    } else {
        let cum2 = cum + entries[idx].1;
        if 2 * cum2 < num {
            med_walk(entries, num, idx + 1, cum2)
        } else if num % 2 == 0 && 2 * cum2 == num {
            if idx + 1 < entries.len() {
                avg_of(entries[idx].0, entries[idx + 1].0)
            } else {
                None
            }
        } else {
            Some(entries[idx].0)
        }
    }
}

fn find_pos(values: &Vec<(DecimalWrapper, usize)>, item: &DecimalWrapper) -> (r: usize)
    requires
        item.wf(),
        forall|k: int| 0 <= k < values@.len() ==> (#[trigger] values@[k]).0.wf(),
        forall|k: int, l: int|
            0 <= k < l < values@.len() ==> scaled(values@[k].0) < scaled(values@[l].0),
    ensures
        r <= values@.len(),
        forall|j: int| 0 <= j < r ==> scaled((#[trigger] values@[j]).0) < scaled(*item),
        r < values@.len() ==> scaled(values@[r as int].0) >= scaled(*item),
{
    let mut pos: usize = 0;
    while pos < values.len()
        invariant
            0 <= pos <= values@.len(),
            item.wf(),
            forall|k: int| 0 <= k < values@.len() ==> (#[trigger] values@[k]).0.wf(),
            forall|j: int| 0 <= j < pos ==> scaled((#[trigger] values@[j]).0) < scaled(*item),
        decreases values@.len() - pos,
    {
        if !values[pos].0.lt(item) {
            return pos;
        }
        pos += 1;
    }
    pos
}

/// The median of a stream of decimals, held as an ordered table of distinct
/// values and occurrence counts (memory grows with distinct values, not
/// records). An even count landing exactly on the midpoint averages the two
/// middle values.
pub struct Median {
    pub values: Vec<(DecimalWrapper, usize)>,
    pub num: usize,
    pub hist: Ghost<Seq<DecimalWrapper>>,
}

impl Accumulate<DecimalWrapper, DecimalWrapper> for Median {
    open spec fn inv(&self) -> bool {
        &&& self.hist@.len() >= 1
        &&& self.num == self.hist@.len()
        &&& forall|k: int| 0 <= k < self.values@.len() ==> (#[trigger] self.values@[k]).0.wf()
        &&& forall|k: int, l: int|
            0 <= k < l < self.values@.len() ==> scaled(self.values@[k].0) < scaled(
                self.values@[l].0,
            )
        &&& forall|k: int|
            0 <= k < self.values@.len() ==> (#[trigger] self.values@[k]).1 == count_val(
                self.hist@,
                scaled(self.values@[k].0),
            ) && (#[trigger] self.values@[k]).1 >= 1
        &&& forall|k: int|
            0 <= k < self.values@.len() ==> (#[trigger] self.values@[k]).0 == first_with(
                self.hist@,
                scaled(self.values@[k].0),
            )
        &&& forall|i: int|
            0 <= i < self.hist@.len() ==> exists|k: int|
                0 <= k < self.values@.len() && scaled((#[trigger] self.values@[k]).0) == scaled(
                    #[trigger] self.hist@[i],
                )
        &&& sum_counts(self.values@) == self.hist@.len()
    }

    open spec fn obs(&self) -> Seq<DecimalWrapper> {
        self.hist@
    }

    /// Exactly what the walk over the ordered value table yields.
    open spec fn computed(&self) -> Option<DecimalWrapper> {
        med_walk(self.values@, self.hist@.len() as int, 0, 0)
    }

    fn new(item: DecimalWrapper) -> (s: Median) {
        let ghost h = seq![item];
        let mut values: Vec<(DecimalWrapper, usize)> = Vec::new();
        values.push((item, 1));
        proof {
            assert(h.drop_last() =~= Seq::<DecimalWrapper>::empty());
            assert(h.last() == item);
            assert(count_val(Seq::<DecimalWrapper>::empty(), scaled(item)) == 0);
            assert(count_val(h, scaled(item)) == 1);
            assert(h[0] == item);
            assert(first_with(h, scaled(item)) == item);
            assert(values@.drop_last() =~= Seq::<(DecimalWrapper, usize)>::empty());
            assert(sum_counts(Seq::<(DecimalWrapper, usize)>::empty()) == 0);
            assert(values@.last() == (item, 1usize));
            assert(sum_counts(values@) == 1);
        }
        let s = Median { values, num: 1, hist: Ghost(h) };
        proof {
            assert forall|i: int| 0 <= i < s.hist@.len() implies exists|k: int|
                0 <= k < s.values@.len() && scaled((#[trigger] s.values@[k]).0) == scaled(
                    #[trigger] s.hist@[i],
                ) by {
                assert(0 <= 0 < s.values@.len() && scaled(s.values@[0].0) == scaled(s.hist@[i]));
            }
        }
        s
    }

    #[verifier::rlimit(100)]
    fn update(&mut self, item: DecimalWrapper) {
        let ghost oldh = self.hist@;
        let ghost oldv = self.values@;
        let ghost x = scaled(item);
        let pos = find_pos(&self.values, &item);
        proof {
            self.hist@ = self.hist@.push(item);
            assert(self.hist@.drop_last() =~= oldh);
            assert(self.hist@.last() == item);
        }
        let ghost newh = self.hist@;
        self.num = self.num + 1;
        let equal_here = pos < self.values.len() && !item.lt(&self.values[pos].0);
        if equal_here {
            proof {
                assert(scaled(oldv[pos as int].0) == x);
                lemma_count_val_le_len(oldh, x);
            }
            let c = self.values[pos].1;
            self.values[pos].1 = c + 1;
            proof {
                let newv = self.values@;
                assert(newv =~= oldv.update(pos as int, (oldv[pos as int].0, (c + 1) as usize)));
                lemma_sum_counts_update(oldv, pos as int, (oldv[pos as int].0, (c + 1) as usize));
                assert forall|k: int| 0 <= k < newv.len() implies (#[trigger] newv[k]).1
                    == count_val(newh, scaled(newv[k].0)) by {
                    lemma_count_val_push(oldh, item, scaled(newv[k].0));
                    if k != pos {
                        if k < pos {
                            assert(scaled(oldv[k].0) < x);
                        } else {
                            assert(scaled(oldv[pos as int].0) < scaled(oldv[k].0));
                        }
                    }
                }
                assert forall|k: int| 0 <= k < newv.len() implies (#[trigger] newv[k]).0
                    == first_with(newh, scaled(newv[k].0)) by {
                    let kv = scaled(newv[k].0);
                    assert(newv[k].0 == oldv[k].0);
                    assert(count_val(oldh, kv) > 0) by {
                        if k != pos {
                            assert(oldv[k].1 == count_val(oldh, kv) && oldv[k].1 >= 1) by {
                                lemma_count_val_pos_absent(oldh, oldv, k);
                            }
                        }
                    }
                    lemma_count_val_pos_contains(oldh, kv);
                    lemma_first_with_push(oldh, item, kv);
                }
                assert forall|i: int| 0 <= i < newh.len() implies exists|k: int|
                    0 <= k < newv.len() && scaled((#[trigger] newv[k]).0) == scaled(
                        #[trigger] newh[i],
                    ) by {
                    if i < oldh.len() {
                        let k = choose|k: int|
                            0 <= k < oldv.len() && scaled((#[trigger] oldv[k]).0) == scaled(
                                oldh[i],
                            );
                        assert(scaled(newv[k].0) == scaled(newh[i]));
                    } else {
                        assert(scaled(newv[pos as int].0) == scaled(newh[i]));
                    }
                }
            }
        } else {
            proof {
                if count_val(oldh, x) > 0 {
                    lemma_count_val_pos_contains(oldh, x);
                    let i = choose|i: int| 0 <= i < oldh.len() && scaled(oldh[i]) == x;
                    let k = choose|k: int|
                        0 <= k < oldv.len() && scaled((#[trigger] oldv[k]).0) == scaled(oldh[i]);
                    if k < pos {
                        assert(scaled(oldv[k].0) < x);
                    } else if k > pos {
                        assert(pos < oldv.len());
                        assert(scaled(oldv[pos as int].0) < scaled(oldv[k].0));
                        assert(scaled(oldv[pos as int].0) >= x);
                    } else {
                        assert(pos < oldv.len());
                        assert(scaled(oldv[pos as int].0) >= x);
                        assert(!(scaled(item) < scaled(oldv[pos as int].0)));
                    }
                    assert(false);
                }
                assert(count_val(oldh, x) == 0);
            }
            self.values.insert(pos, (item, 1));
            proof {
                let newv = self.values@;
                assert(newv =~= oldv.insert(pos as int, (item, 1usize)));
                lemma_sum_counts_insert(oldv, pos as int, (item, 1usize));
                assert(newv[pos as int] == (item, 1usize));
                assert(forall|k: int| 0 <= k < pos ==> newv[k] == oldv[k]);
                assert(forall|k: int| pos < k < newv.len() ==> newv[k] == oldv[k - 1]);
                assert forall|k: int, l: int|
                    0 <= k < l < newv.len() implies scaled(newv[k].0) < scaled(newv[l].0) by {
                    if k == pos {
                        assert(scaled(oldv[l - 1].0) >= x && scaled(oldv[l - 1].0) != x);
                    } else if l == pos {
                        assert(scaled(oldv[k].0) < x);
                    } else if k < pos && l > pos {
                        if k < l - 1 {
                        } else {
                            assert(scaled(newv[k].0) < x);
                            assert(scaled(newv[l].0) >= x);
                        }
                    }
                }
                assert forall|k: int| 0 <= k < newv.len() implies (#[trigger] newv[k]).1
                    == count_val(newh, scaled(newv[k].0)) by {
                    lemma_count_val_push(oldh, item, scaled(newv[k].0));
                    if k < pos {
                        assert(scaled(newv[k].0) < x);
                    } else if k > pos {
                        assert(scaled(newv[k].0) > x) by {
                            assert(scaled(newv[pos as int].0) < scaled(newv[k].0));
                        }
                    }
                }
                assert forall|k: int| 0 <= k < newv.len() implies (#[trigger] newv[k]).0
                    == first_with(newh, scaled(newv[k].0)) by {
                    let kv = scaled(newv[k].0);
                    lemma_first_with_push(oldh, item, kv);
                    if k == pos {
                        assert forall|i: int| 0 <= i < oldh.len() implies scaled(
                            #[trigger] oldh[i],
                        ) != kv by {
                            if scaled(oldh[i]) == kv {
                                lemma_count_val_has(oldh, i);
                            }
                        }
                    } else {
                        let ko = if k < pos {
                            k
                        } else {
                            k - 1
                        };
                        assert(newv[k].0 == oldv[ko].0);
                        assert(oldv[ko].1 == count_val(oldh, kv));
                        assert(count_val(oldh, kv) > 0) by {
                            lemma_count_val_pos_absent(oldh, oldv, ko);
                        }
                        lemma_count_val_pos_contains(oldh, kv);
                    }
                }
                assert forall|i: int| 0 <= i < newh.len() implies exists|k: int|
                    0 <= k < newv.len() && scaled((#[trigger] newv[k]).0) == scaled(
                        #[trigger] newh[i],
                    ) by {
                    if i < oldh.len() {
                        let k = choose|k: int|
                            0 <= k < oldv.len() && scaled((#[trigger] oldv[k]).0) == scaled(
                                oldh[i],
                            );
                        let kn = if k < pos {
                            k
                        } else {
                            k + 1
                        };
                        assert(scaled(newv[kn].0) == scaled(newh[i]));
                    } else {
                        assert(scaled(newv[pos as int].0) == scaled(newh[i]));
                    }
                }
            }
        }
    }

    fn compute(&self) -> (r: Option<DecimalWrapper>) {
        let n = self.num;
        let mut idx: usize = 0;
        let mut cum: usize = 0;
        proof {
            assert(self.values@.take(0) =~= Seq::<(DecimalWrapper, usize)>::empty());
        }
        loop
            invariant
                self.inv(),
                n == self.num,
                0 <= idx <= self.values@.len(),
                cum == sum_counts(self.values@.take(idx as int)),
                med_walk(self.values@, n as int, idx as int, cum as int) == self.computed(),
            decreases self.values@.len() - idx,
        {
            if idx >= self.values.len() {
                return None;
            }
            let c = self.values[idx].1;
            proof {
                lemma_sum_counts_take_le(self.values@, idx as int);
                lemma_sum_counts_take_le(self.values@, idx + 1);
                assert(self.values@.take(idx + 1).drop_last() =~= self.values@.take(idx as int));
                assert(self.values@.take(idx + 1).last() == self.values@[idx as int]);
            }
            let cum2 = cum + c;
            let twice: u128 = (cum2 as u128) * 2;
            if twice < (n as u128) {
                idx = idx + 1;
                cum = cum2;
            } else if n % 2 == 0 && twice == (n as u128) {
                if idx + 1 < self.values.len() {
                    let a = self.values[idx].0;
                    let b = self.values[idx + 1].0;
                    let r = match a.checked_add(&b) {
                        Some(s) => s.checked_div(&DecimalWrapper::from_int(2)),
                        None => None,
                    };
                    return r;
                } else {
                    return None;
                }
            } else {
                return Some(self.values[idx].0);
            }
        }
    }
}

/// An entry with a positive recorded count means its value occurs.
proof fn lemma_count_val_pos_absent(
    h: Seq<DecimalWrapper>,
    v: Seq<(DecimalWrapper, usize)>,
    k: int,
)
    requires
        0 <= k < v.len(),
        v[k].1 == count_val(h, scaled(v[k].0)),
        v[k].1 >= 1,
    ensures
        count_val(h, scaled(v[k].0)) > 0,
{
}

/// Any element of the sequence is counted at least once.
proof fn lemma_count_val_has(s: Seq<DecimalWrapper>, i: int)
    requires
        0 <= i < s.len(),
    ensures
        count_val(s, scaled(s[i])) > 0,
    decreases s.len(),
{
    if i == s.len() - 1 {
        assert(scaled(s.last()) == scaled(s[i]));
    } else {
        lemma_count_val_has(s.drop_last(), i);
        assert(s.drop_last()[i] == s[i]);
    }
}

/// Sequences holding the same decimals have the same mantissa total.
proof fn lemma_sum_mants_perm(s: Seq<DecimalWrapper>, t: Seq<DecimalWrapper>)
    requires
        s.to_multiset() == t.to_multiset(),
    ensures
        sum_int(mants(s)) == sum_int(mants(t)),
    decreases s.len(),
{
    if s.len() == 0 {
        assert(t.to_multiset().len() == 0);
        assert(t.len() == 0);
        assert(mants(s) =~= Seq::<int>::empty());
        assert(mants(t) =~= Seq::<int>::empty());
    } else {
        let x = s.last();
        assert(s =~= s.drop_last().push(x));
        assert(s.to_multiset() =~= s.drop_last().to_multiset().insert(x));
        assert(t.to_multiset().count(x) > 0);
        assert(t.contains(x));
        let i = choose|i: int| 0 <= i < t.len() && t[i] == x;
        assert(t.remove(i).to_multiset() =~= t.to_multiset().remove(x));
        assert(s.drop_last().to_multiset() =~= s.to_multiset().remove(x));
        lemma_sum_mants_perm(s.drop_last(), t.remove(i));
        crate::decimal::lemma_sum_int_remove(mants(t), i);
        assert(mants(t).remove(i) =~= mants(t.remove(i)));
        assert(mants(s).drop_last() =~= mants(s.drop_last()));
        assert(mants(s).last() == x.mant as int);
        assert(mants(t)[i] == x.mant as int);
    }
}

/// Sequences holding the same decimals have the same magnitude total.
proof fn lemma_sum_abs_mants_perm(s: Seq<DecimalWrapper>, t: Seq<DecimalWrapper>)
    requires
        s.to_multiset() == t.to_multiset(),
    ensures
        sum_int(abs_mants(s)) == sum_int(abs_mants(t)),
    decreases s.len(),
{
    if s.len() == 0 {
        assert(t.to_multiset().len() == 0);
        assert(t.len() == 0);
        assert(abs_mants(s) =~= Seq::<int>::empty());
        assert(abs_mants(t) =~= Seq::<int>::empty());
    } else {
        let x = s.last();
        assert(s =~= s.drop_last().push(x));
        assert(s.to_multiset() =~= s.drop_last().to_multiset().insert(x));
        assert(t.to_multiset().count(x) > 0);
        assert(t.contains(x));
        let i = choose|i: int| 0 <= i < t.len() && t[i] == x;
        assert(t.remove(i).to_multiset() =~= t.to_multiset().remove(x));
        assert(s.drop_last().to_multiset() =~= s.to_multiset().remove(x));
        lemma_sum_abs_mants_perm(s.drop_last(), t.remove(i));
        crate::decimal::lemma_sum_int_remove(abs_mants(t), i);
        assert(abs_mants(t).remove(i) =~= abs_mants(t.remove(i)));
        assert(abs_mants(s).drop_last() =~= abs_mants(s.drop_last()));
        assert(abs_mants(s).last() == abs_int(x.mant as int));
        assert(abs_mants(t)[i] == abs_int(x.mant as int));
    }
}

/// Law: counting is order-independent. Two counts whose observations hold
/// the same values, in whatever order, compute the same total.
pub proof fn lemma_count_order_independent<I: FieldValue>(a: Count<I>, b: Count<I>)
    requires
        a.inv(),
        b.inv(),
        a.obs().to_multiset() == b.obs().to_multiset(),
    ensures
        a.computed() == b.computed(),
{
    assert(a.obs().len() == a.obs().to_multiset().len());
    assert(b.obs().len() == b.obs().to_multiset().len());
}

/// Law: summation is order-independent. Over decimals of one scale whose
/// total magnitude stays within the 96-bit mantissa range, two sums whose
/// observations hold the same values, in whatever order, compute the same
/// decimal.
pub proof fn lemma_sum_order_independent(a: Sum, b: Sum, sc: int)
    requires
        a.inv(),
        b.inv(),
        a.obs().to_multiset() == b.obs().to_multiset(),
        a.obs().len() >= 1,
        all_scale(a.obs(), sc),
        sum_int(abs_mants(a.obs())) <= MAX_MANTISSA,
    ensures
        match (a.computed(), b.computed()) {
            (Some(x), Some(y)) => x == y,
            _ => false,
        },
{
    lemma_obs_transfer(a.obs(), b.obs(), sc);
    lemma_sum_mants_perm(a.obs(), b.obs());
    lemma_sum_abs_mants_perm(a.obs(), b.obs());
    assert(all_scale(a.obs(), sc) && sum_int(abs_mants(a.obs())) <= MAX_MANTISSA);
    assert(all_scale(b.obs(), sc) && sum_int(abs_mants(b.obs())) <= MAX_MANTISSA);
    assert(a.acc matches Some(x) && x.scale == sc && x.mant == sum_int(mants(a.obs())));
    assert(b.acc matches Some(y) && y.scale == sc && y.mant == sum_int(mants(b.obs())));
}

/// The scale and magnitude hypotheses carry across a permutation.
proof fn lemma_obs_transfer(s: Seq<DecimalWrapper>, t: Seq<DecimalWrapper>, sc: int)
    requires
        s.to_multiset() == t.to_multiset(),
        s.len() >= 1,
        all_scale(s, sc),
    ensures
        t.len() == s.len(),
        all_scale(t, sc),
{
    assert(s.len() == s.to_multiset().len());
    assert(t.len() == t.to_multiset().len());
    assert forall|i: int| 0 <= i < t.len() implies (#[trigger] t[i]).scale == sc by {
        assert(t.contains(t[i]));
        assert(t.to_multiset().count(t[i]) > 0);
        assert(s.to_multiset().count(t[i]) > 0);
        assert(s.contains(t[i]));
        let j = choose|j: int| 0 <= j < s.len() && s[j] == t[i];
        assert(s[j].scale == sc);
    }
}

/// Law: the mean is order-independent. Over decimals of one scale whose
/// total magnitude stays within the 96-bit mantissa range, two means whose
/// observations hold the same values, in whatever order, compute the same
/// decimal.
pub proof fn lemma_mean_order_independent(a: Mean, b: Mean, sc: int)
    requires
        a.inv(),
        b.inv(),
        a.obs().to_multiset() == b.obs().to_multiset(),
        a.obs().len() >= 1,
        all_scale(a.obs(), sc),
        sum_int(abs_mants(a.obs())) <= MAX_MANTISSA,
    ensures
        a.computed() == b.computed(),
{
    lemma_obs_transfer(a.obs(), b.obs(), sc);
    lemma_sum_mants_perm(a.obs(), b.obs());
    lemma_sum_abs_mants_perm(a.obs(), b.obs());
    assert(a.running_sum matches Some(x) && x.scale == sc && x.mant == sum_int(mants(a.obs())));
    assert(b.running_sum matches Some(y) && y.scale == sc && y.mant == sum_int(mants(b.obs())));
    assert(fold_add(a.obs()) == a.running_sum && fold_add(b.obs()) == b.running_sum);
}

/// The number of records after which `v` has occurred `k` times; -1 if it
/// never does.
pub open spec fn first_reach<V>(s: Seq<V>, v: V, k: nat) -> int
    decreases s.len(),
{
    if s.len() == 0 {
        if k == 0 {
            0
        } else {
            -1
        }
    } else if count_in(s, v) < k {
        -1
    } else if count_in(s.drop_last(), v) >= k {
        first_reach(s.drop_last(), v, k)
    } else {
        s.len() as int
    }
}

/// A reached count is reached within the run.
proof fn lemma_first_reach_le_len<V>(s: Seq<V>, v: V, k: nat)
    requires
        count_in(s, v) >= k,
    ensures
        0 <= first_reach(s, v, k) <= s.len(),
    decreases s.len(),
{
    if s.len() > 0 && count_in(s.drop_last(), v) >= k {
        lemma_first_reach_le_len(s.drop_last(), v, k);
    }
}

/// Law: the mode's tie-break is first-to-reach. Of a non-empty run, the
/// mode's count is maximal, and among the values whose count ties with the
/// maximum, the mode is the one that reached that count first — a value
/// that ties later never displaces it.
pub proof fn lemma_mode_first_to_reach<V>(s: Seq<V>)
    requires
        s.len() >= 1,
    ensures
        count_in(s, mode_state(s).0) == mode_state(s).1,
        forall|v: V| #[trigger] count_in(s, v) <= mode_state(s).1,
        forall|v: V|
            #[trigger] count_in(s, v) == mode_state(s).1 ==> first_reach(
                s,
                mode_state(s).0,
                mode_state(s).1,
            ) <= first_reach(s, v, mode_state(s).1),
    decreases s.len(),
{
    if s.len() == 1 {
        assert(s.drop_last() =~= Seq::<V>::empty());
        assert(count_in(Seq::<V>::empty(), s[0]) == 0);
        assert(s.last() == s[0]);
        assert(count_in(s, s[0]) == 1);
        assert(mode_state(s) == (s[0], 1nat));
        assert forall|v: V| #[trigger] count_in(s, v) <= 1 by {
            lemma_count_le_len(s, v);
        }
    } else {
        let t = s.drop_last();
        let x = s.last();
        lemma_mode_first_to_reach(t);
        let mv = mode_state(t).0;
        let mc = mode_state(t).1;
        let c = count_in(s, x);
        assert(t.push(x) =~= s);
        assert(c == count_in(t, x) + 1) by {
            lemma_count_in_push(t, x, x);
        }
        assert(count_in(t, x) <= mc);
        assert forall|v: V| v != x implies #[trigger] count_in(s, v) == count_in(t, v) by {
            lemma_count_in_push(t, x, v);
        }
        if c > mc {
            assert(mode_state(s) == (x, c));
            assert forall|v: V| #[trigger] count_in(s, v) <= c by {
                if v != x {
                    assert(count_in(s, v) == count_in(t, v));
                }
            }
            assert forall|v: V| #[trigger] count_in(s, v) == c implies first_reach(s, x, c)
                <= first_reach(s, v, c) by {
                if v != x {
                    assert(count_in(t, v) == c);
                    assert(count_in(t, v) <= mc);
                    assert(false);
                }
            }
        } else {
            assert(mode_state(s) == mode_state(t));
            assert(mv != x) by {
                if mv == x {
                    assert(count_in(t, mv) == mc);
                    assert(c == mc + 1);
                }
            }
            assert(count_in(s, mv) == mc);
            assert forall|v: V| #[trigger] count_in(s, v) <= mc by {
                if v != x {
                    assert(count_in(s, v) == count_in(t, v));
                }
            }
            // the mode's first-reach is unchanged by the new record
            assert(first_reach(s, mv, mc) == first_reach(t, mv, mc)) by {
                assert(count_in(t, mv) >= mc);
                assert(count_in(s, mv) >= mc);
            }
            lemma_first_reach_le_len(t, mv, mc);
            assert forall|v: V| #[trigger] count_in(s, v) == mc implies first_reach(s, mv, mc)
                <= first_reach(s, v, mc) by {
                if v == x {
                    assert(count_in(t, x) == mc - 1 < mc);
                    assert(mc >= 1);
                    assert(first_reach(s, x, mc) == s.len() as int);
                } else {
                    assert(count_in(t, v) == mc);
                    assert(first_reach(s, v, mc) == first_reach(t, v, mc));
                }
            }
        }
    }
}

} // verus!
