//! The untyped value tree an external loader hands the pipeline.
//!
//! The loader (outside this library) deserializes each locale document into a
//! [`RawValue`] tree: strings, numbers, booleans and ordered mappings. The
//! parser turns each tree into a `ParsedValue` forest; nothing else ever
//! reads a `RawValue`.

use vstd::prelude::*;

verus! {

/// One raw value of a locale document.
#[derive(Debug)]
pub enum RawValue {
    Str(String),
    /// The numeric value and the exact source text it was written as.
    Num(i64, String),
    Bool(bool),
    /// An ordered mapping, in document order.
    Table(Vec<(String, RawValue)>),
}

/// The spec-level value of a [`RawValue`].
#[verifier::ext_equal]
pub enum RawView {
    Str(Seq<char>),
    Num(int, Seq<char>),
    Bool(bool),
    Table(Seq<(Seq<char>, RawView)>),
}

/// The view of one raw value.
pub open spec fn raw_view(v: &RawValue) -> RawView
    decreases v, 1int,
    via raw_view_decreases
{
    match v {
        RawValue::Str(s) => RawView::Str(s@),
        RawValue::Num(n, t) => RawView::Num(*n as int, t@),
        RawValue::Bool(b) => RawView::Bool(*b),
        RawValue::Table(entries) => RawView::Table(raw_pairs_view(entries@)),
    }
}

/// The views of a list of raw entries.
pub open spec fn raw_pairs_view(s: Seq<(String, RawValue)>) -> Seq<(Seq<char>, RawView)>
    decreases s, 0int,
    via raw_pairs_view_decreases
{
    if s.len() == 0 {
        Seq::empty()
    } else {
        seq![(s[0].0@, raw_view(&s[0].1))] + raw_pairs_view(s.drop_first())
    }
}

#[via_fn]
proof fn raw_view_decreases(v: &RawValue) {
    match v {
        RawValue::Table(entries) => {
            assert(decreases_to!(*v => v->Table_0));
            assert(decreases_to!(v->Table_0 => entries@));
        },
        _ => {},
    }
}

#[via_fn]
proof fn raw_pairs_view_decreases(s: Seq<(String, RawValue)>) {
    if s.len() > 0 {
        assert(decreases_to!(s => s[0]));
        assert(decreases_to!(s[0] => s[0].1));
        assert(decreases_to!(s => s.drop_first()));
    }
}

impl View for RawValue {
    type V = RawView;

    open spec fn view(&self) -> RawView {
        raw_view(self)
    }
}

/// Pointwise reading of [`raw_pairs_view`].
pub proof fn lemma_raw_pairs_view(s: Seq<(String, RawValue)>)
    ensures
        raw_pairs_view(s).len() == s.len(),
        forall|i: int|
            0 <= i < s.len() ==> #[trigger] raw_pairs_view(s)[i] == (s[i].0@, raw_view(&s[i].1)),
    decreases s.len(),
{
    if s.len() > 0 {
        lemma_raw_pairs_view(s.drop_first());
    }
}

} // verus!
