//! The intermediate value tree built from one raw translation value.
//!
//! A [`ParsedValue`] is the AST the pipeline works on: literals,
//! interpolations, plural and range dispatch nodes, foreign-key references,
//! nested key groups and concatenation blocks. Foreign-key nodes exist only
//! between parsing and foreign-key resolution: resolution replaces every one
//! of them, and [`fk_free`] states that invariant at the spec level.

use vstd::prelude::*;

use crate::key::{Key, KeyPath, KeyPathView};

verus! {

/// A literal leaf: text, a number (with its source text), or a boolean.
#[derive(Debug)]
pub enum LiteralValue {
    Str(String),
    /// The numeric value and the exact source text it was written as.
    Num(i64, String),
    Bool(bool),
}

/// The spec-level value of a [`LiteralValue`].
#[verifier::ext_equal]
pub enum LitView {
    Str(Seq<char>),
    Num(int, Seq<char>),
    Bool(bool),
}

impl View for LiteralValue {
    type V = LitView;

    open spec fn view(&self) -> LitView {
        match self {
            LiteralValue::Str(s) => LitView::Str(s@),
            LiteralValue::Num(n, t) => LitView::Num(*n as int, t@),
            LiteralValue::Bool(b) => LitView::Bool(*b),
        }
    }
}

impl LiteralValue {
    /// A copy holding the same value.
    pub fn duplicate(&self) -> (r: LiteralValue)
        ensures
            r@ == self@,
    {
        match self {
            LiteralValue::Str(s) => LiteralValue::Str(s.clone()),
            LiteralValue::Num(n, t) => LiteralValue::Num(*n, t.clone()),
            LiteralValue::Bool(b) => LiteralValue::Bool(*b),
        }
    }
}

/// One piece of an interpolated string: literal text or a variable
/// reference.
#[derive(Debug)]
pub enum Segment {
    Lit(String),
    Var(String),
}

/// The spec-level value of a [`Segment`].
#[verifier::ext_equal]
pub enum SegView {
    Lit(Seq<char>),
    Var(Seq<char>),
}

impl View for Segment {
    type V = SegView;

    open spec fn view(&self) -> SegView {
        match self {
            Segment::Lit(s) => SegView::Lit(s@),
            Segment::Var(s) => SegView::Var(s@),
        }
    }
}

/// The views of a list of segments.
pub open spec fn segs_view(s: Seq<Segment>) -> Seq<SegView> {
    s.map_values(|seg: Segment| seg@)
}

impl Segment {
    /// A copy holding the same piece.
    pub fn duplicate(&self) -> (r: Segment)
        ensures
            r@ == self@,
    {
        match self {
            Segment::Lit(s) => Segment::Lit(s.clone()),
            Segment::Var(s) => Segment::Var(s.clone()),
        }
    }
}

/// Copies a list of segments.
pub fn copy_segments(segs: &Vec<Segment>) -> (r: Vec<Segment>)
    ensures
        segs_view(r@) == segs_view(segs@),
{
    let mut out: Vec<Segment> = Vec::new();
    let mut i: usize = 0;
    while i < segs.len()
        invariant
            i <= segs@.len(),
            out@.len() == i as int,
            forall|j: int| 0 <= j < i ==> #[trigger] out@[j]@ == segs@[j]@,
        decreases segs@.len() - i,
    {
        out.push(segs[i].duplicate());
        i = i + 1;
    }
    proof {
        assert(segs_view(out@) =~= segs_view(segs@));
    }
    out
}

/// The spec-level value of a [`ParsedValue`].
#[verifier::ext_equal]
pub enum PvView {
    Literal(LitView),
    Interpolation(Seq<SegView>),
    Plural { ordinal: bool, count_var: Seq<char>, arms: Seq<(Seq<char>, PvView)> },
    Range { count_var: Seq<char>, arms: Seq<(Seq<char>, PvView)> },
    ForeignKey { path: KeyPathView, overrides: Seq<(Seq<char>, PvView)> },
    Subkeys(Seq<(Seq<char>, PvView)>),
    Block(Seq<PvView>),
}

/// One parsed translation value.
#[derive(Debug)]
pub enum ParsedValue {
    /// A plain literal; stays byte-identical to its source through the whole
    /// pipeline.
    Literal(LiteralValue),
    /// An ordered mix of literal text and variable references.
    Interpolation(Vec<Segment>),
    /// Dispatch on a grammatical plural category of the count variable.
    /// `ordinal` selects the ordinal rule instead of the cardinal one. Arms
    /// are keyed by authored category names, in authored order.
    Plural { ordinal: bool, count_var: String, arms: Vec<(String, ParsedValue)> },
    /// Dispatch on a numeric range of the count variable; arms are kept in
    /// authored order and matched first-match-wins.
    Range { count_var: String, arms: Vec<(String, ParsedValue)> },
    /// A reference to another key's value, with argument overrides; never
    /// survives foreign-key resolution.
    ForeignKey { path: KeyPath, overrides: Vec<(String, ParsedValue)> },
    /// A nested group of keys.
    Subkeys(Vec<(Key, ParsedValue)>),
    /// Concatenation of parts, e.g. text around an inlined foreign key.
    Block(Vec<ParsedValue>),
}

/// The view of one parsed value.
pub open spec fn pv_view(v: &ParsedValue) -> PvView
    decreases v, 3int,
    via pv_view_decreases
{
    match v {
        ParsedValue::Literal(l) => PvView::Literal(l@),
        ParsedValue::Interpolation(segs) => PvView::Interpolation(segs_view(segs@)),
        ParsedValue::Plural { ordinal, count_var, arms } => PvView::Plural {
            ordinal: *ordinal,
            count_var: count_var@,
            arms: pairs_view(arms@),
        },
        ParsedValue::Range { count_var, arms } => PvView::Range {
            count_var: count_var@,
            arms: pairs_view(arms@),
        },
        ParsedValue::ForeignKey { path, overrides } => PvView::ForeignKey {
            path: path@,
            overrides: pairs_view(overrides@),
        },
        ParsedValue::Subkeys(entries) => PvView::Subkeys(key_pairs_view(entries@)),
        ParsedValue::Block(items) => PvView::Block(list_view(items@)),
    }
}

/// The views of a list of name/value pairs.
pub open spec fn pairs_view(s: Seq<(String, ParsedValue)>) -> Seq<(Seq<char>, PvView)>
    decreases s, 0int,
    via pairs_view_decreases
{
    if s.len() == 0 {
        Seq::empty()
    } else {
        seq![(s[0].0@, pv_view(&s[0].1))] + pairs_view(s.drop_first())
    }
}

/// The views of a list of key/value pairs.
pub open spec fn key_pairs_view(s: Seq<(Key, ParsedValue)>) -> Seq<(Seq<char>, PvView)>
    decreases s, 1int,
    via key_pairs_view_decreases
{
    if s.len() == 0 {
        Seq::empty()
    } else {
        seq![(s[0].0@, pv_view(&s[0].1))] + key_pairs_view(s.drop_first())
    }
}

/// The views of a list of values.
pub open spec fn list_view(s: Seq<ParsedValue>) -> Seq<PvView>
    decreases s, 2int,
    via list_view_decreases
{
    if s.len() == 0 {
        Seq::empty()
    } else {
        seq![pv_view(&s[0])] + list_view(s.drop_first())
    }
}

#[via_fn]
proof fn pv_view_decreases(v: &ParsedValue) {
    match v {
        ParsedValue::Plural { ordinal, count_var, arms } => {
            assert(decreases_to!(*v => v->Plural_arms));
            assert(decreases_to!(v->Plural_arms => arms@));
        },
        ParsedValue::Range { count_var, arms } => {
            assert(decreases_to!(*v => v->Range_arms));
            assert(decreases_to!(v->Range_arms => arms@));
        },
        ParsedValue::ForeignKey { path, overrides } => {
            assert(decreases_to!(*v => v->ForeignKey_overrides));
            assert(decreases_to!(v->ForeignKey_overrides => overrides@));
        },
        ParsedValue::Subkeys(entries) => {
            assert(decreases_to!(*v => v->Subkeys_0));
            assert(decreases_to!(v->Subkeys_0 => entries@));
        },
        ParsedValue::Block(items) => {
            assert(decreases_to!(*v => v->Block_0));
            assert(decreases_to!(v->Block_0 => items@));
        },
        _ => {},
    }
}

#[via_fn]
proof fn pairs_view_decreases(s: Seq<(String, ParsedValue)>) {
    if s.len() > 0 {
        assert(decreases_to!(s => s[0]));
        assert(decreases_to!(s[0] => s[0].1));
        assert(decreases_to!(s => s.drop_first()));
    }
}

#[via_fn]
proof fn key_pairs_view_decreases(s: Seq<(Key, ParsedValue)>) {
    if s.len() > 0 {
        assert(decreases_to!(s => s[0]));
        assert(decreases_to!(s[0] => s[0].1));
        assert(decreases_to!(s => s.drop_first()));
    }
}

#[via_fn]
proof fn list_view_decreases(s: Seq<ParsedValue>) {
    if s.len() > 0 {
        assert(decreases_to!(s => s[0]));
        assert(decreases_to!(s => s.drop_first()));
    }
}

impl View for ParsedValue {
    type V = PvView;

    open spec fn view(&self) -> PvView {
        pv_view(self)
    }
}

/// Pointwise reading of [`pairs_view`].
pub proof fn lemma_pairs_view(s: Seq<(String, ParsedValue)>)
    ensures
        pairs_view(s).len() == s.len(),
        forall|i: int|
            0 <= i < s.len() ==> #[trigger] pairs_view(s)[i] == (s[i].0@, pv_view(&s[i].1)),
    decreases s.len(),
{
    if s.len() > 0 {
        lemma_pairs_view(s.drop_first());
    }
}

/// Pointwise reading of [`key_pairs_view`].
pub proof fn lemma_key_pairs_view(s: Seq<(Key, ParsedValue)>)
    ensures
        key_pairs_view(s).len() == s.len(),
        forall|i: int|
            0 <= i < s.len() ==> #[trigger] key_pairs_view(s)[i] == (s[i].0@, pv_view(&s[i].1)),
    decreases s.len(),
{
    if s.len() > 0 {
        lemma_key_pairs_view(s.drop_first());
    }
}

/// Pointwise reading of [`list_view`].
pub proof fn lemma_list_view(s: Seq<ParsedValue>)
    ensures
        list_view(s).len() == s.len(),
        forall|i: int| 0 <= i < s.len() ==> #[trigger] list_view(s)[i] == pv_view(&s[i]),
    decreases s.len(),
{
    if s.len() > 0 {
        lemma_list_view(s.drop_first());
    }
}

impl ParsedValue {
    /// A deep copy: the same value, owned anew. Foreign-key resolution uses
    /// it to inline a referenced value at each reference site.
    pub fn deep_copy(&self) -> (r: Self)
        ensures
            r@ == self@,
        decreases self, 3int,
    {
        match self {
            ParsedValue::Literal(l) => ParsedValue::Literal(l.duplicate()),
            ParsedValue::Interpolation(segs) => ParsedValue::Interpolation(copy_segments(segs)),
            ParsedValue::Plural { ordinal, count_var, arms } => {
                proof {
                    assert(decreases_to!(*self => self->Plural_arms));
                }
                let new_arms = copy_pairs(arms);
                proof {
                    lemma_copied_pairs_view(arms@, new_arms@);
                }
                ParsedValue::Plural {
                    ordinal: *ordinal,
                    count_var: count_var.clone(),
                    arms: new_arms,
                }
            },
            ParsedValue::Range { count_var, arms } => {
                proof {
                    assert(decreases_to!(*self => self->Range_arms));
                }
                let new_arms = copy_pairs(arms);
                proof {
                    lemma_copied_pairs_view(arms@, new_arms@);
                }
                ParsedValue::Range { count_var: count_var.clone(), arms: new_arms }
            },
            ParsedValue::ForeignKey { path, overrides } => {
                proof {
                    assert(decreases_to!(*self => self->ForeignKey_overrides));
                }
                let new_overrides = copy_pairs(overrides);
                proof {
                    lemma_copied_pairs_view(overrides@, new_overrides@);
                }
                ParsedValue::ForeignKey { path: path.duplicate(), overrides: new_overrides }
            },
            ParsedValue::Subkeys(entries) => {
                proof {
                    assert(decreases_to!(*self => self->Subkeys_0));
                }
                let new_entries = copy_key_pairs(entries);
                proof {
                    lemma_copied_key_pairs_view(entries@, new_entries@);
                }
                ParsedValue::Subkeys(new_entries)
            },
            ParsedValue::Block(items) => {
                proof {
                    assert(decreases_to!(*self => self->Block_0));
                }
                let new_items = copy_list(items);
                proof {
                    lemma_copied_list_view(items@, new_items@);
                }
                ParsedValue::Block(new_items)
            },
        }
    }
}

/// Copies a list of name/value pairs.
fn copy_pairs(pairs: &Vec<(String, ParsedValue)>) -> (r: Vec<(String, ParsedValue)>)
    ensures
        r@.len() == pairs@.len(),
        forall|j: int|
            0 <= j < pairs@.len() ==> #[trigger] r@[j].0@ == pairs@[j].0@ && pv_view(&r@[j].1)
                == pv_view(&pairs@[j].1),
    decreases pairs, 0int,
{
    let mut out: Vec<(String, ParsedValue)> = Vec::new();
    let mut i: usize = 0;
    while i < pairs.len()
        invariant
            i <= pairs@.len(),
            out@.len() == i as int,
            forall|j: int|
                0 <= j < i ==> #[trigger] out@[j].0@ == pairs@[j].0@ && pv_view(&out@[j].1)
                    == pv_view(&pairs@[j].1),
        decreases pairs@.len() - i,
    {
        proof {
            assert(decreases_to!(*pairs => pairs@));
            assert(decreases_to!(pairs@ => pairs@[i as int]));
            assert(decreases_to!(pairs@[i as int] => pairs@[i as int].1));
        }
        let name = pairs[i].0.clone();
        let val = pairs[i].1.deep_copy();
        out.push((name, val));
        i = i + 1;
    }
    out
}

/// Copies a list of key/value pairs.
fn copy_key_pairs(pairs: &Vec<(Key, ParsedValue)>) -> (r: Vec<(Key, ParsedValue)>)
    ensures
        r@.len() == pairs@.len(),
        forall|j: int|
            0 <= j < pairs@.len() ==> #[trigger] r@[j].0@ == pairs@[j].0@ && pv_view(&r@[j].1)
                == pv_view(&pairs@[j].1),
    decreases pairs, 1int,
{
    let mut out: Vec<(Key, ParsedValue)> = Vec::new();
    let mut i: usize = 0;
    while i < pairs.len()
        invariant
            i <= pairs@.len(),
            out@.len() == i as int,
            forall|j: int|
                0 <= j < i ==> #[trigger] out@[j].0@ == pairs@[j].0@ && pv_view(&out@[j].1)
                    == pv_view(&pairs@[j].1),
        decreases pairs@.len() - i,
    {
        proof {
            assert(decreases_to!(*pairs => pairs@));
            assert(decreases_to!(pairs@ => pairs@[i as int]));
            assert(decreases_to!(pairs@[i as int] => pairs@[i as int].1));
        }
        let name = pairs[i].0.duplicate();
        let val = pairs[i].1.deep_copy();
        out.push((name, val));
        i = i + 1;
    }
    out
}

/// Copies a list of values.
fn copy_list(items: &Vec<ParsedValue>) -> (r: Vec<ParsedValue>)
    ensures
        r@.len() == items@.len(),
        forall|j: int| 0 <= j < items@.len() ==> #[trigger] pv_view(&r@[j]) == pv_view(&items@[j]),
    decreases items, 2int,
{
    let mut out: Vec<ParsedValue> = Vec::new();
    let mut i: usize = 0;
    while i < items.len()
        invariant
            i <= items@.len(),
            out@.len() == i as int,
            forall|j: int| 0 <= j < i ==> #[trigger] pv_view(&out@[j]) == pv_view(&items@[j]),
        decreases items@.len() - i,
    {
        proof {
            assert(decreases_to!(*items => items@));
            assert(decreases_to!(items@ => items@[i as int]));
        }
        let val = items[i].deep_copy();
        out.push(val);
        i = i + 1;
    }
    out
}

/// Two pair lists whose names and values agree pointwise have one view.
pub proof fn lemma_copied_pairs_view(a: Seq<(String, ParsedValue)>, b: Seq<(String, ParsedValue)>)
    requires
        a.len() == b.len(),
        forall|j: int|
            0 <= j < a.len() ==> #[trigger] b[j].0@ == a[j].0@ && pv_view(&b[j].1) == pv_view(
                &a[j].1,
            ),
    ensures
        pairs_view(b) == pairs_view(a),
{
    lemma_pairs_view(a);
    lemma_pairs_view(b);
    assert(pairs_view(b) =~= pairs_view(a));
}

/// Two key/value lists whose names and values agree pointwise have one view.
pub proof fn lemma_copied_key_pairs_view(a: Seq<(Key, ParsedValue)>, b: Seq<(Key, ParsedValue)>)
    requires
        a.len() == b.len(),
        forall|j: int|
            0 <= j < a.len() ==> #[trigger] b[j].0@ == a[j].0@ && pv_view(&b[j].1) == pv_view(
                &a[j].1,
            ),
    ensures
        key_pairs_view(b) == key_pairs_view(a),
{
    lemma_key_pairs_view(a);
    lemma_key_pairs_view(b);
    assert(key_pairs_view(b) =~= key_pairs_view(a));
}

/// Two value lists that agree pointwise have one view.
pub proof fn lemma_copied_list_view(a: Seq<ParsedValue>, b: Seq<ParsedValue>)
    requires
        a.len() == b.len(),
        forall|j: int| 0 <= j < a.len() ==> #[trigger] pv_view(&b[j]) == pv_view(&a[j]),
    ensures
        list_view(b) == list_view(a),
{
    lemma_list_view(a);
    lemma_list_view(b);
    assert(list_view(b) =~= list_view(a));
}

/// No foreign-key node anywhere in the value: the invariant every value
/// satisfies once foreign-key resolution has finished.
pub open spec fn fk_free(v: PvView) -> bool
    decreases v, 1int,
    via fk_free_decreases
{
    match v {
        PvView::Literal(_) => true,
        PvView::Interpolation(_) => true,
        PvView::Plural { ordinal, count_var, arms } => fk_free_pairs(arms),
        PvView::Range { count_var, arms } => fk_free_pairs(arms),
        PvView::ForeignKey { .. } => false,
        PvView::Subkeys(entries) => fk_free_pairs(entries),
        PvView::Block(items) => fk_free_list(items),
    }
}

/// [`fk_free`] over every value of a pair list.
pub open spec fn fk_free_pairs(s: Seq<(Seq<char>, PvView)>) -> bool
    decreases s, 0int,
    via fk_free_pairs_decreases
{
    if s.len() == 0 {
        true
    } else {
        fk_free(s[0].1) && fk_free_pairs(s.drop_first())
    }
}

/// [`fk_free`] over every value of a list.
pub open spec fn fk_free_list(s: Seq<PvView>) -> bool
    decreases s, 0int,
    via fk_free_list_decreases
{
    if s.len() == 0 {
        true
    } else {
        fk_free(s[0]) && fk_free_list(s.drop_first())
    }
}

#[via_fn]
proof fn fk_free_decreases(v: PvView) {
    match v {
        PvView::Plural { ordinal, count_var, arms } => {
            assert(decreases_to!(v => v->Plural_arms));
        },
        PvView::Range { count_var, arms } => {
            assert(decreases_to!(v => v->Range_arms));
        },
        PvView::Subkeys(entries) => {
            assert(decreases_to!(v => v->Subkeys_0));
        },
        PvView::Block(items) => {
            assert(decreases_to!(v => v->Block_0));
        },
        _ => {},
    }
}

#[via_fn]
proof fn fk_free_pairs_decreases(s: Seq<(Seq<char>, PvView)>) {
    if s.len() > 0 {
        assert(decreases_to!(s => s[0]));
        assert(decreases_to!(s[0] => s[0].1));
        assert(decreases_to!(s => s.drop_first()));
    }
}

#[via_fn]
proof fn fk_free_list_decreases(s: Seq<PvView>) {
    if s.len() > 0 {
        assert(decreases_to!(s => s[0]));
        assert(decreases_to!(s => s.drop_first()));
    }
}

/// Pointwise reading of [`fk_free_pairs`].
pub proof fn lemma_fk_free_pairs(s: Seq<(Seq<char>, PvView)>)
    ensures
        fk_free_pairs(s) <==> (forall|i: int| 0 <= i < s.len() ==> fk_free(#[trigger] s[i].1)),
    decreases s.len(),
{
    if s.len() > 0 {
        lemma_fk_free_pairs(s.drop_first());
        assert forall|i: int| 0 <= i < s.len() && fk_free_pairs(s) implies fk_free(
            #[trigger] s[i].1,
        ) by {
            if i > 0 {
                assert(s.drop_first()[i - 1] == s[i]);
            }
        }
        if (forall|i: int| 0 <= i < s.len() ==> fk_free(#[trigger] s[i].1)) {
            assert forall|i: int| 0 <= i < s.drop_first().len() implies fk_free(
                #[trigger] s.drop_first()[i].1,
            ) by {
                assert(s.drop_first()[i] == s[i + 1]);
            }
        }
    }
}

/// Pointwise reading of [`fk_free_list`].
pub proof fn lemma_fk_free_list(s: Seq<PvView>)
    ensures
        fk_free_list(s) <==> (forall|i: int| 0 <= i < s.len() ==> fk_free(#[trigger] s[i])),
    decreases s.len(),
{
    if s.len() > 0 {
        lemma_fk_free_list(s.drop_first());
        assert forall|i: int| 0 <= i < s.len() && fk_free_list(s) implies fk_free(
            #[trigger] s[i],
        ) by {
            if i > 0 {
                assert(s.drop_first()[i - 1] == s[i]);
            }
        }
        if (forall|i: int| 0 <= i < s.len() ==> fk_free(#[trigger] s[i])) {
            assert forall|i: int| 0 <= i < s.drop_first().len() implies fk_free(
                #[trigger] s.drop_first()[i],
            ) by {
                assert(s.drop_first()[i] == s[i + 1]);
            }
        }
    }
}

/// Whether two literals hold one value.
pub fn lit_eq(a: &LiteralValue, b: &LiteralValue) -> (r: bool)
    ensures
        r == (a@ == b@),
{
    match (a, b) {
        (LiteralValue::Str(x), LiteralValue::Str(y)) => crate::text::str_eq(
            x.as_str(),
            y.as_str(),
        ),
        (LiteralValue::Num(n1, t1), LiteralValue::Num(n2, t2)) => *n1 == *n2
            && crate::text::str_eq(t1.as_str(), t2.as_str()),
        (LiteralValue::Bool(x), LiteralValue::Bool(y)) => *x == *y,
        _ => false,
    }
}

/// Whether two segments hold one piece.
pub fn seg_eq(a: &Segment, b: &Segment) -> (r: bool)
    ensures
        r == (a@ == b@),
{
    match (a, b) {
        (Segment::Lit(x), Segment::Lit(y)) => crate::text::str_eq(x.as_str(), y.as_str()),
        (Segment::Var(x), Segment::Var(y)) => crate::text::str_eq(x.as_str(), y.as_str()),
        _ => false,
    }
}

/// Whether two segment lists hold one sequence of pieces.
fn segs_eq(a: &Vec<Segment>, b: &Vec<Segment>) -> (r: bool)
    ensures
        r == (segs_view(a@) == segs_view(b@)),
{
    if a.len() != b.len() {
        proof {
            assert(segs_view(a@).len() != segs_view(b@).len());
        }
        return false;
    }
    let mut i: usize = 0;
    while i < a.len()
        invariant
            i <= a@.len(),
            a@.len() == b@.len(),
            forall|t: int| 0 <= t < i ==> #[trigger] a@[t]@ == b@[t]@,
        decreases a@.len() - i,
    {
        if !seg_eq(&a[i], &b[i]) {
            proof {
                assert(segs_view(a@)[i as int] != segs_view(b@)[i as int]);
            }
            return false;
        }
        i = i + 1;
    }
    proof {
        assert(segs_view(a@) =~= segs_view(b@));
    }
    true
}

/// Whether two values are one value, view for view: the same structure
/// with the same text everywhere.
pub fn pv_eq(a: &ParsedValue, b: &ParsedValue) -> (r: bool)
    ensures
        r == (a@ == b@),
    decreases a, 3int,
{
    match (a, b) {
        (ParsedValue::Literal(x), ParsedValue::Literal(y)) => lit_eq(x, y),
        (ParsedValue::Interpolation(x), ParsedValue::Interpolation(y)) => segs_eq(x, y),
        (
            ParsedValue::Plural { ordinal: o1, count_var: c1, arms: a1 },
            ParsedValue::Plural { ordinal: o2, count_var: c2, arms: a2 },
        ) => {
            proof {
                assert(decreases_to!(*a => a->Plural_arms));
            }
            *o1 == *o2 && crate::text::str_eq(c1.as_str(), c2.as_str()) && pv_pairs_eq(a1, a2)
        },
        (
            ParsedValue::Range { count_var: c1, arms: a1 },
            ParsedValue::Range { count_var: c2, arms: a2 },
        ) => {
            proof {
                assert(decreases_to!(*a => a->Range_arms));
            }
            crate::text::str_eq(c1.as_str(), c2.as_str()) && pv_pairs_eq(a1, a2)
        },
        (
            ParsedValue::ForeignKey { path: p1, overrides: v1 },
            ParsedValue::ForeignKey { path: p2, overrides: v2 },
        ) => {
            proof {
                assert(decreases_to!(*a => a->ForeignKey_overrides));
            }
            p1.same_path(p2) && pv_pairs_eq(v1, v2)
        },
        (ParsedValue::Subkeys(e1), ParsedValue::Subkeys(e2)) => {
            proof {
                assert(decreases_to!(*a => a->Subkeys_0));
            }
            pv_key_pairs_eq(e1, e2)
        },
        (ParsedValue::Block(i1), ParsedValue::Block(i2)) => {
            proof {
                assert(decreases_to!(*a => a->Block_0));
            }
            pv_list_eq(i1, i2)
        },
        _ => false,
    }
}

/// Whether two name/value lists are one list, view for view.
fn pv_pairs_eq(a: &Vec<(String, ParsedValue)>, b: &Vec<(String, ParsedValue)>) -> (r: bool)
    ensures
        r == (pairs_view(a@) == pairs_view(b@)),
    decreases a, 0int,
{
    proof {
        lemma_pairs_view(a@);
        lemma_pairs_view(b@);
    }
    if a.len() != b.len() {
        return false;
    }
    let mut i: usize = 0;
    while i < a.len()
        invariant
            i <= a@.len(),
            a@.len() == b@.len(),
            forall|t: int| 0 <= t < i ==> #[trigger] a@[t].0@ == b@[t].0@,
            forall|t: int| 0 <= t < i ==> pv_view(&#[trigger] a@[t].1) == pv_view(&b@[t].1),
        decreases a@.len() - i,
    {
        proof {
            assert(decreases_to!(*a => a@));
            assert(decreases_to!(a@ => a@[i as int]));
            assert(decreases_to!(a@[i as int] => a@[i as int].1));
        }
        if !(crate::text::str_eq(a[i].0.as_str(), b[i].0.as_str()) && pv_eq(&a[i].1, &b[i].1)) {
            proof {
                lemma_pairs_view(a@);
                lemma_pairs_view(b@);
                assert(pairs_view(a@)[i as int] != pairs_view(b@)[i as int]);
            }
            return false;
        }
        proof {
            assert(a@[i as int].0@ == b@[i as int].0@);
            assert(pv_view(&a@[i as int].1) == pv_view(&b@[i as int].1));
        }
        i = i + 1;
    }
    proof {
        lemma_pairs_view(a@);
        lemma_pairs_view(b@);
        assert(pairs_view(a@) =~= pairs_view(b@));
    }
    true
}

/// Whether two key/value lists are one list, view for view.
fn pv_key_pairs_eq(a: &Vec<(Key, ParsedValue)>, b: &Vec<(Key, ParsedValue)>) -> (r: bool)
    ensures
        r == (key_pairs_view(a@) == key_pairs_view(b@)),
    decreases a, 1int,
{
    proof {
        lemma_key_pairs_view(a@);
        lemma_key_pairs_view(b@);
    }
    if a.len() != b.len() {
        return false;
    }
    let mut i: usize = 0;
    while i < a.len()
        invariant
            i <= a@.len(),
            a@.len() == b@.len(),
            forall|t: int| 0 <= t < i ==> #[trigger] a@[t].0@ == b@[t].0@,
            forall|t: int| 0 <= t < i ==> pv_view(&#[trigger] a@[t].1) == pv_view(&b@[t].1),
        decreases a@.len() - i,
    {
        proof {
            assert(decreases_to!(*a => a@));
            assert(decreases_to!(a@ => a@[i as int]));
            assert(decreases_to!(a@[i as int] => a@[i as int].1));
        }
        if !(a[i].0.same_name(&b[i].0) && pv_eq(&a[i].1, &b[i].1)) {
            proof {
                lemma_key_pairs_view(a@);
                lemma_key_pairs_view(b@);
                assert(key_pairs_view(a@)[i as int] != key_pairs_view(b@)[i as int]);
            }
            return false;
        }
        proof {
            assert(a@[i as int].0@ == b@[i as int].0@);
            assert(pv_view(&a@[i as int].1) == pv_view(&b@[i as int].1));
        }
        i = i + 1;
    }
    proof {
        lemma_key_pairs_view(a@);
        lemma_key_pairs_view(b@);
        assert(key_pairs_view(a@) =~= key_pairs_view(b@));
    }
    true
}

/// Whether two value lists are one list, view for view.
fn pv_list_eq(a: &Vec<ParsedValue>, b: &Vec<ParsedValue>) -> (r: bool)
    ensures
        r == (list_view(a@) == list_view(b@)),
    decreases a, 2int,
{
    proof {
        lemma_list_view(a@);
        lemma_list_view(b@);
    }
    if a.len() != b.len() {
        return false;
    }
    let mut i: usize = 0;
    while i < a.len()
        invariant
            i <= a@.len(),
            a@.len() == b@.len(),
            forall|t: int| 0 <= t < i ==> pv_view(&#[trigger] a@[t]) == pv_view(&b@[t]),
        decreases a@.len() - i,
    {
        proof {
            assert(decreases_to!(*a => a@));
            assert(decreases_to!(a@ => a@[i as int]));
        }
        if !pv_eq(&a[i], &b[i]) {
            proof {
                lemma_list_view(a@);
                lemma_list_view(b@);
                assert(list_view(a@)[i as int] != list_view(b@)[i as int]);
            }
            return false;
        }
        i = i + 1;
    }
    proof {
        lemma_list_view(a@);
        lemma_list_view(b@);
        assert(list_view(a@) =~= list_view(b@));
    }
    true
}

/// No plural and no range node anywhere in the value: such a value never
/// needs a locale's plural rules or bound checks.
pub open spec fn dispatch_free(v: PvView) -> bool
    decreases v, 1int,
    via dispatch_free_decreases
{
    match v {
        PvView::Literal(_) => true,
        PvView::Interpolation(_) => true,
        PvView::Plural { .. } => false,
        PvView::Range { .. } => false,
        PvView::ForeignKey { path, overrides } => dispatch_free_pairs(overrides),
        PvView::Subkeys(entries) => dispatch_free_pairs(entries),
        PvView::Block(items) => dispatch_free_list(items),
    }
}

/// [`dispatch_free`] over every value of a pair list.
pub open spec fn dispatch_free_pairs(s: Seq<(Seq<char>, PvView)>) -> bool
    decreases s, 0int,
    via dispatch_free_pairs_decreases
{
    if s.len() == 0 {
        true
    } else {
        dispatch_free(s[0].1) && dispatch_free_pairs(s.drop_first())
    }
}

/// [`dispatch_free`] over every value of a list.
pub open spec fn dispatch_free_list(s: Seq<PvView>) -> bool
    decreases s, 0int,
    via dispatch_free_list_decreases
{
    if s.len() == 0 {
        true
    } else {
        dispatch_free(s[0]) && dispatch_free_list(s.drop_first())
    }
}

#[via_fn]
proof fn dispatch_free_decreases(v: PvView) {
    match v {
        PvView::ForeignKey { path, overrides } => {
            assert(decreases_to!(v => v->ForeignKey_overrides));
        },
        PvView::Subkeys(entries) => {
            assert(decreases_to!(v => v->Subkeys_0));
        },
        PvView::Block(items) => {
            assert(decreases_to!(v => v->Block_0));
        },
        _ => {},
    }
}

#[via_fn]
proof fn dispatch_free_pairs_decreases(s: Seq<(Seq<char>, PvView)>) {
    if s.len() > 0 {
        assert(decreases_to!(s => s[0]));
        assert(decreases_to!(s[0] => s[0].1));
        assert(decreases_to!(s => s.drop_first()));
    }
}

#[via_fn]
proof fn dispatch_free_list_decreases(s: Seq<PvView>) {
    if s.len() > 0 {
        assert(decreases_to!(s => s[0]));
        assert(decreases_to!(s => s.drop_first()));
    }
}

/// Pointwise reading of [`dispatch_free_pairs`].
pub proof fn lemma_dispatch_free_pairs(s: Seq<(Seq<char>, PvView)>)
    ensures
        dispatch_free_pairs(s) <==> (forall|i: int|
            0 <= i < s.len() ==> dispatch_free(#[trigger] s[i].1)),
    decreases s.len(),
{
    if s.len() > 0 {
        lemma_dispatch_free_pairs(s.drop_first());
        assert forall|i: int| 0 <= i < s.len() && dispatch_free_pairs(s) implies dispatch_free(
            #[trigger] s[i].1,
        ) by {
            if i > 0 {
                assert(s.drop_first()[i - 1] == s[i]);
            }
        }
        if (forall|i: int| 0 <= i < s.len() ==> dispatch_free(#[trigger] s[i].1)) {
            assert forall|i: int| 0 <= i < s.drop_first().len() implies dispatch_free(
                #[trigger] s.drop_first()[i].1,
            ) by {
                assert(s.drop_first()[i] == s[i + 1]);
            }
        }
    }
}

/// Pointwise reading of [`dispatch_free_list`].
pub proof fn lemma_dispatch_free_list(s: Seq<PvView>)
    ensures
        dispatch_free_list(s) <==> (forall|i: int|
            0 <= i < s.len() ==> dispatch_free(#[trigger] s[i])),
    decreases s.len(),
{
    if s.len() > 0 {
        lemma_dispatch_free_list(s.drop_first());
        assert forall|i: int| 0 <= i < s.len() && dispatch_free_list(s) implies dispatch_free(
            #[trigger] s[i],
        ) by {
            if i > 0 {
                assert(s.drop_first()[i - 1] == s[i]);
            }
        }
        if (forall|i: int| 0 <= i < s.len() ==> dispatch_free(#[trigger] s[i])) {
            assert forall|i: int| 0 <= i < s.drop_first().len() implies dispatch_free(
                #[trigger] s.drop_first()[i],
            ) by {
                assert(s.drop_first()[i] == s[i + 1]);
            }
        }
    }
}

} // verus!
