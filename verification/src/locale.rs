//! Shape derivation and the conformance merge.
//!
//! The default locale is authoritative: one walk over its resolved tree
//! derives, for every key, the shape of its value — a literal of some
//! kind, an interpolation with typed arguments, or nested subkeys
//! ([`LocaleValue`]). Every other locale is then merged against that
//! shape, key by key: a key of both must keep the shape; a key the locale
//! lacks falls back to the default locale's value with a `MissingKey`
//! warning; a key the default lacks is discarded with a `SurplusKey`
//! warning; an interpolation may omit variables of the default but may
//! not introduce new ones.

use vstd::prelude::*;

use crate::error::{Error, Warning, Warnings};
use crate::key::{Key, KeyPath};
use crate::parsed_value::{
    dispatch_free, dispatch_free_list, dispatch_free_pairs, fk_free, fk_free_pairs,
    key_pairs_view, lemma_dispatch_free_list, lemma_dispatch_free_pairs, lemma_fk_free_pairs,
    lemma_key_pairs_view, lemma_list_view, lemma_pairs_view, list_view, pairs_view, pv_view,
    LiteralValue, ParsedValue, PvView, Segment,
};
use crate::text::str_eq;

verus! {

/// The kind of a literal key.
#[derive(Clone, Copy, Debug, PartialEq, Eq, Structural)]
pub enum LiteralType {
    Str,
    Num,
    Bool,
}

/// The type of one interpolation argument.
///
/// `Text` is inferred for a variable used as plain text and `Number` for a
/// plural or range count. `Boolean` and `RenderableContent` complete the
/// fixed set of argument kinds the downstream generator accepts; the
/// structural inference here never produces them on its own.
#[derive(Clone, Copy, Debug, PartialEq, Eq, Structural)]
pub enum ArgType {
    Text,
    Number,
    Boolean,
    RenderableContent,
}

/// The resolved schema of one key, uniform across all locales; computed
/// from the default locale once and never changed afterwards.
#[derive(Debug)]
pub enum LocaleValue {
    /// A plain value of the given kind.
    Literal(LiteralType),
    /// A parameterized value: each argument with its inferred type, in
    /// order of first appearance.
    Interpolation(Vec<(String, ArgType)>),
    /// A nested group of keys.
    Subkeys(Vec<(Key, LocaleValue)>),
}

/// The spec-level value of a [`LocaleValue`].
#[verifier::ext_equal]
pub enum LvView {
    Literal(LiteralType),
    Interpolation(Seq<(Seq<char>, ArgType)>),
    Subkeys(Seq<(Seq<char>, LvView)>),
}

/// The view of one schema value.
pub open spec fn lv_view(v: &LocaleValue) -> LvView
    decreases v, 1int,
    via lv_view_decreases
{
    match v {
        LocaleValue::Literal(t) => LvView::Literal(*t),
        LocaleValue::Interpolation(args) => LvView::Interpolation(
            args@.map_values(|a: (String, ArgType)| (a.0@, a.1)),
        ),
        LocaleValue::Subkeys(entries) => LvView::Subkeys(lv_pairs_view(entries@)),
    }
}

/// The views of a list of key/schema pairs.
pub open spec fn lv_pairs_view(s: Seq<(Key, LocaleValue)>) -> Seq<(Seq<char>, LvView)>
    decreases s, 0int,
    via lv_pairs_view_decreases
{
    if s.len() == 0 {
        Seq::empty()
    } else {
        seq![(s[0].0@, lv_view(&s[0].1))] + lv_pairs_view(s.drop_first())
    }
}

#[via_fn]
proof fn lv_view_decreases(v: &LocaleValue) {
    match v {
        LocaleValue::Subkeys(entries) => {
            assert(decreases_to!(*v => v->Subkeys_0));
            assert(decreases_to!(v->Subkeys_0 => entries@));
        },
        _ => {},
    }
}

#[via_fn]
proof fn lv_pairs_view_decreases(s: Seq<(Key, LocaleValue)>) {
    if s.len() > 0 {
        assert(decreases_to!(s => s[0]));
        assert(decreases_to!(s[0] => s[0].1));
        assert(decreases_to!(s => s.drop_first()));
    }
}

impl View for LocaleValue {
    type V = LvView;

    open spec fn view(&self) -> LvView {
        lv_view(self)
    }
}

/// Pointwise reading of [`lv_pairs_view`].
pub proof fn lemma_lv_pairs_view(s: Seq<(Key, LocaleValue)>)
    ensures
        lv_pairs_view(s).len() == s.len(),
        forall|i: int|
            0 <= i < s.len() ==> #[trigger] lv_pairs_view(s)[i] == (s[i].0@, lv_view(&s[i].1)),
    decreases s.len(),
{
    if s.len() > 0 {
        lemma_lv_pairs_view(s.drop_first());
    }
}

/// Whether a shape carries exactly the keys of a value tree, at every
/// depth, in the same order, with nested groups aligned.
pub open spec fn shape_matches_keys(s: Seq<(Seq<char>, LvView)>, t: Seq<(Seq<char>, PvView)>) -> bool
    decreases t, 0int,
    via shape_matches_keys_decreases
{
    if s.len() != t.len() {
        false
    } else if t.len() == 0 {
        true
    } else {
        s[0].0 == t[0].0 && shape_matches_value(s[0].1, t[0].1) && shape_matches_keys(
            s.drop_first(),
            t.drop_first(),
        )
    }
}

/// Whether one shape aligns with one value: nested groups match nested
/// groups, anything else matches a non-group shape.
pub open spec fn shape_matches_value(sv: LvView, tv: PvView) -> bool
    decreases tv, 1int,
    via shape_matches_value_decreases
{
    match tv {
        PvView::Subkeys(te) => match sv {
            LvView::Subkeys(se) => shape_matches_keys(se, te),
            _ => false,
        },
        _ => !(sv is Subkeys),
    }
}

#[via_fn]
proof fn shape_matches_keys_decreases(s: Seq<(Seq<char>, LvView)>, t: Seq<(Seq<char>, PvView)>) {
    if s.len() == t.len() && t.len() > 0 {
        assert(decreases_to!(t => t[0]));
        assert(decreases_to!(t[0] => t[0].1));
        assert(decreases_to!(t => t.drop_first()));
    }
}

#[via_fn]
proof fn shape_matches_value_decreases(sv: LvView, tv: PvView) {
    match tv {
        PvView::Subkeys(te) => {
            assert(decreases_to!(tv => tv->Subkeys_0));
        },
        _ => {},
    }
}

/// Pointwise reading of [`shape_matches_keys`].
pub proof fn lemma_shape_matches_keys(s: Seq<(Seq<char>, LvView)>, t: Seq<(Seq<char>, PvView)>)
    requires
        shape_matches_keys(s, t),
    ensures
        s.len() == t.len(),
        forall|j: int| 0 <= j < t.len() ==> #[trigger] s[j].0 == t[j].0,
        forall|j: int| 0 <= j < t.len() ==> shape_matches_value(s[j].1, #[trigger] t[j].1),
    decreases t.len(),
{
    if t.len() > 0 {
        lemma_shape_matches_keys(s.drop_first(), t.drop_first());
        assert forall|j: int| 0 <= j < t.len() implies #[trigger] s[j].0 == t[j].0 by {
            if j > 0 {
                assert(s.drop_first()[j - 1] == s[j]);
                assert(t.drop_first()[j - 1] == t[j]);
            }
        }
        assert forall|j: int| 0 <= j < t.len() implies shape_matches_value(
            s[j].1,
            #[trigger] t[j].1,
        ) by {
            if j > 0 {
                assert(s.drop_first()[j - 1] == s[j]);
                assert(t.drop_first()[j - 1] == t[j]);
            }
        }
    }
}

/// Builds [`shape_matches_keys`] from pointwise facts.
pub proof fn lemma_shape_matches_keys_intro(
    s: Seq<(Seq<char>, LvView)>,
    t: Seq<(Seq<char>, PvView)>,
)
    requires
        s.len() == t.len(),
        forall|j: int| 0 <= j < t.len() ==> #[trigger] s[j].0 == t[j].0,
        forall|j: int| 0 <= j < t.len() ==> shape_matches_value(s[j].1, #[trigger] t[j].1),
    ensures
        shape_matches_keys(s, t),
    decreases t.len(),
{
    if t.len() > 0 {
        assert forall|j: int|
            0 <= j < t.drop_first().len() implies #[trigger] s.drop_first()[j].0
            == t.drop_first()[j].0 && shape_matches_value(
            s.drop_first()[j].1,
            t.drop_first()[j].1,
        ) by {
            assert(s.drop_first()[j] == s[j + 1]);
            assert(t.drop_first()[j] == t[j + 1]);
        }
        lemma_shape_matches_keys_intro(s.drop_first(), t.drop_first());
    }
}

/// Whether a name is among the keys of a value-tree view.
pub open spec fn has_pv_key(t: Seq<(Seq<char>, PvView)>, name: Seq<char>) -> bool {
    exists|i: int| 0 <= i < t.len() && #[trigger] t[i].0 == name
}

/// The first entry of `tree` keyed `name`.
pub fn find_key(tree: &Vec<(Key, ParsedValue)>, name: &Key) -> (r: Option<usize>)
    ensures
        r matches Some(i) ==> i < tree@.len() && key_pairs_view(tree@)[i as int].0 == name@,
        r is None ==> !has_pv_key(key_pairs_view(tree@), name@),
{
    proof {
        lemma_key_pairs_view(tree@);
    }
    let mut i: usize = 0;
    while i < tree.len()
        invariant
            i <= tree@.len(),
            forall|j: int| 0 <= j < i ==> #[trigger] key_pairs_view(tree@)[j].0 != name@,
        decreases tree@.len() - i,
    {
        proof {
            lemma_key_pairs_view(tree@);
        }
        if tree[i].0.same_name(name) {
            return Some(i);
        }
        i = i + 1;
    }
    None
}

/// Distinct argument names: no name twice.
pub open spec fn distinct_names(s: Seq<(String, ArgType)>) -> bool {
    forall|i: int, j: int| 0 <= i < j < s.len() ==> (#[trigger] s[i].0)@ != (#[trigger] s[j].0)@
}

/// Every inferred argument so far is plain text.
pub open spec fn all_text_args(s: Seq<(String, ArgType)>) -> bool {
    forall|i: int| 0 <= i < s.len() ==> (#[trigger] s[i]).1 == ArgType::Text
}

/// Every argument type so far is one the structural inference produces:
/// plain text or a number. Any two of these unify, so inference as a
/// whole never fails.
pub open spec fn all_inferred_args(s: Seq<(String, ArgType)>) -> bool {
    forall|i: int|
        0 <= i < s.len() ==> ((#[trigger] s[i]).1 == ArgType::Text || s[i].1 == ArgType::Number)
}

/// Whether the two inferred types fit one argument, and which type the
/// argument then has: plain text and a count unify to a number, since a
/// count renders as text; no other pair of distinct kinds unifies.
fn unify_arg_types(a: ArgType, b: ArgType) -> (r: Option<ArgType>)
    ensures
        a == b ==> r == Some(a),
        (a == ArgType::Text && b == ArgType::Number) || (a == ArgType::Number && b
            == ArgType::Text) ==> r == Some(ArgType::Number),
        a != b && !((a == ArgType::Text && b == ArgType::Number) || (a == ArgType::Number && b
            == ArgType::Text)) ==> r is None,
{
    if a == b {
        Some(a)
    } else if (a == ArgType::Text && b == ArgType::Number) || (a == ArgType::Number && b
        == ArgType::Text) {
        Some(ArgType::Number)
    } else {
        None
    }
}

/// Registers one inferred argument type; types that cannot stand for one
/// argument are the hard error `AmbiguousArgType`.
fn add_constraint(
    locale: &str,
    path: &KeyPath,
    out: &mut Vec<(String, ArgType)>,
    name: String,
    ty: ArgType,
) -> (r: Result<(), Error>)
    ensures
        distinct_names(old(out)@) ==> distinct_names(final(out)@),
        r matches Err(e) ==> e is AmbiguousArgType,
        ty == ArgType::Text && all_text_args(old(out)@) ==> (r is Ok && all_text_args(
            final(out)@,
        )),
        (ty == ArgType::Text || ty == ArgType::Number) && all_inferred_args(old(out)@) ==> (
        r is Ok && all_inferred_args(final(out)@)),
{
    let mut i: usize = 0;
    while i < out.len()
        invariant
            i <= out@.len(),
            out@.len() == old(out)@.len(),
            out@ == old(out)@,
            forall|j: int| 0 <= j < i ==> (#[trigger] out@[j].0)@ != name@,
            forall|j: int| 0 <= j < out@.len() ==> (#[trigger] out@[j].0)@ == old(out)@[j].0@,
            distinct_names(old(out)@) ==> distinct_names(out@),
        decreases out@.len() - i,
    {
        if str_eq(out[i].0.as_str(), name.as_str()) {
            proof {
                if ty == ArgType::Text && all_text_args(old(out)@) {
                    assert(out@[i as int].1 == ArgType::Text);
                }
                if (ty == ArgType::Text || ty == ArgType::Number) && all_inferred_args(
                    old(out)@,
                ) {
                    assert(out@[i as int].1 == ArgType::Text || out@[i as int].1
                        == ArgType::Number);
                }
            }
            let merged: ArgType = match unify_arg_types(out[i].1, ty) {
                Some(m) => m,
                None => {
                    return Err(
                        Error::AmbiguousArgType {
                            locale: locale.to_owned(),
                            path: path.duplicate(),
                            name,
                        },
                    );
                },
            };
            let ghost before = out@;
            let kept = out[i].0.clone();
            out.set(i, (kept, merged));
            proof {
                assert forall|j: int| 0 <= j < out@.len() implies (#[trigger] out@[j].0)@
                    == old(out)@[j].0@ by {
                    if j != i {
                        assert(out@[j] == before[j]);
                    }
                }
                if distinct_names(old(out)@) {
                    assert forall|a: int, b: int| 0 <= a < b < out@.len() implies (
                    #[trigger] out@[a].0)@ != (#[trigger] out@[b].0)@ by {
                        assert(out@[a].0@ == old(out)@[a].0@);
                        assert(out@[b].0@ == old(out)@[b].0@);
                    }
                }
                if ty == ArgType::Text && all_text_args(old(out)@) {
                    assert forall|a: int| 0 <= a < out@.len() implies (#[trigger] out@[a]).1
                        == ArgType::Text by {
                        if a != i {
                            assert(out@[a] == before[a]);
                        }
                    }
                }
                if (ty == ArgType::Text || ty == ArgType::Number) && all_inferred_args(
                    old(out)@,
                ) {
                    assert forall|a: int| 0 <= a < out@.len() implies ((#[trigger] out@[a]).1
                        == ArgType::Text || out@[a].1 == ArgType::Number) by {
                        if a != i {
                            assert(out@[a] == before[a]);
                        }
                    }
                }
            }
            return Ok(());
        }
        i = i + 1;
    }
    let ghost before = out@;
    out.push((name, ty));
    proof {
        if ty == ArgType::Text && all_text_args(old(out)@) {
            assert forall|a: int| 0 <= a < out@.len() implies (#[trigger] out@[a]).1
                == ArgType::Text by {
                if a < before.len() {
                    assert(out@[a] == before[a]);
                }
            }
        }
        if (ty == ArgType::Text || ty == ArgType::Number) && all_inferred_args(old(out)@) {
            assert forall|a: int| 0 <= a < out@.len() implies ((#[trigger] out@[a]).1
                == ArgType::Text || out@[a].1 == ArgType::Number) by {
                if a < before.len() {
                    assert(out@[a] == before[a]);
                }
            }
        }
        if distinct_names(before) {
            assert forall|a: int, b: int| 0 <= a < b < out@.len() implies (
            #[trigger] out@[a].0)@ != (#[trigger] out@[b].0)@ by {
                if b < before.len() {
                    assert(before[a].0@ != before[b].0@);
                } else {
                    assert(out@[b] == out@.last());
                    assert(before[a].0@ != name@);
                }
            }
        }
    }
    Ok(())
}

/// Collects the inferred argument types of one value. A variable used as
/// plain text is `Text`; a plural or range count — and the count
/// variable's occurrences inside its own arms — is `Number`; one name
/// inferred both ways in one key is `AmbiguousArgType`. `scope` carries
/// the count variables of the nodes above.
fn collect_args(
    locale: &str,
    path: &KeyPath,
    v: &ParsedValue,
    scope: &mut Vec<String>,
    out: &mut Vec<(String, ArgType)>,
) -> (r: Result<(), Error>)
    ensures
        final(scope)@ == old(scope)@,
        distinct_names(old(out)@) ==> distinct_names(final(out)@),
        r matches Err(e) ==> e is AmbiguousArgType,
        dispatch_free(v@) && old(scope)@.len() == 0 && all_text_args(
            old(out)@,
        ) ==> (r is Ok && all_text_args(final(out)@)),
        all_inferred_args(old(out)@) ==> (r is Ok && all_inferred_args(final(out)@)),
    decreases v, 3int,
{
    let ghost free = dispatch_free(v@) && old(scope)@.len() == 0 && all_text_args(old(out)@);
    let ghost inferred = all_inferred_args(old(out)@);
    match v {
        ParsedValue::Literal(_) => Ok(()),
        ParsedValue::ForeignKey { .. } => Ok(()),
        ParsedValue::Interpolation(segs) => {
            let mut i: usize = 0;
            while i < segs.len()
                invariant
                    i <= segs@.len(),
                    scope@ == old(scope)@,
                    free == (dispatch_free(v@) && old(scope)@.len() == 0 && all_text_args(
                        old(out)@,
                    )),
                    free ==> all_text_args(out@),
                    inferred == all_inferred_args(old(out)@),
                    inferred ==> all_inferred_args(out@),
                    distinct_names(old(out)@) ==> distinct_names(out@),
                decreases segs@.len() - i,
            {
                match &segs[i] {
                    Segment::Var(x) => {
                        let ty: ArgType = if crate::foreign_key::names_contain(
                            scope,
                            x.as_str(),
                        ) {
                            ArgType::Number
                        } else {
                            ArgType::Text
                        };
                        proof {
                            if free {
                                assert(ty == ArgType::Text);
                            }
                        }
                        match add_constraint(locale, path, out, x.clone(), ty) {
                            Ok(()) => {},
                            Err(e) => {
                                return Err(e);
                            },
                        }
                    },
                    _ => {},
                }
                i = i + 1;
            }
            Ok(())
        },
        ParsedValue::Plural { ordinal, count_var, arms } => {
            proof {
                assert(decreases_to!(*v => v->Plural_arms));
            }
            match add_constraint(locale, path, out, count_var.clone(), ArgType::Number) {
                Ok(()) => {},
                Err(e) => {
                    return Err(e);
                },
            }
            let ghost scope0 = scope@;
            scope.push(count_var.clone());
            let res = collect_args_pairs(locale, path, arms, scope, out);
            let _ = scope.pop();
            proof {
                assert(scope@ =~= scope0);
            }
            res
        },
        ParsedValue::Range { count_var, arms } => {
            proof {
                assert(decreases_to!(*v => v->Range_arms));
            }
            match add_constraint(locale, path, out, count_var.clone(), ArgType::Number) {
                Ok(()) => {},
                Err(e) => {
                    return Err(e);
                },
            }
            let ghost scope0 = scope@;
            scope.push(count_var.clone());
            let res = collect_args_pairs(locale, path, arms, scope, out);
            let _ = scope.pop();
            proof {
                assert(scope@ =~= scope0);
            }
            res
        },
        ParsedValue::Subkeys(entries) => {
            proof {
                assert(decreases_to!(*v => v->Subkeys_0));
            }
            collect_args_key_pairs(locale, path, entries, scope, out)
        },
        ParsedValue::Block(items) => {
            proof {
                assert(decreases_to!(*v => v->Block_0));
            }
            collect_args_list(locale, path, items, scope, out)
        },
    }
}

fn collect_args_pairs(
    locale: &str,
    path: &KeyPath,
    pairs: &Vec<(String, ParsedValue)>,
    scope: &mut Vec<String>,
    out: &mut Vec<(String, ArgType)>,
) -> (r: Result<(), Error>)
    ensures
        final(scope)@ == old(scope)@,
        distinct_names(old(out)@) ==> distinct_names(final(out)@),
        r matches Err(e) ==> e is AmbiguousArgType,
        dispatch_free_pairs(pairs_view(pairs@)) && old(scope)@.len() == 0
            && all_text_args(old(out)@) ==> (r is Ok && all_text_args(final(out)@)),
        all_inferred_args(old(out)@) ==> (r is Ok && all_inferred_args(final(out)@)),
    decreases pairs, 0int,
{
    let ghost free = dispatch_free_pairs(pairs_view(pairs@)) && old(
        scope,
    )@.len() == 0 && all_text_args(old(out)@);
    let ghost inferred = all_inferred_args(old(out)@);
    let mut i: usize = 0;
    while i < pairs.len()
        invariant
            i <= pairs@.len(),
            scope@ == old(scope)@,
            free == (dispatch_free_pairs(pairs_view(pairs@)) && old(
                scope,
            )@.len() == 0 && all_text_args(old(out)@)),
            free ==> all_text_args(out@),
            inferred == all_inferred_args(old(out)@),
            inferred ==> all_inferred_args(out@),
            distinct_names(old(out)@) ==> distinct_names(out@),
        decreases pairs@.len() - i,
    {
        proof {
            assert(decreases_to!(*pairs => pairs@));
            assert(decreases_to!(pairs@ => pairs@[i as int]));
            assert(decreases_to!(pairs@[i as int] => pairs@[i as int].1));
            if free {
                lemma_pairs_view(pairs@);
                lemma_dispatch_free_pairs(pairs_view(pairs@));
                assert(pairs_view(pairs@)[i as int].1 == pv_view(&pairs@[i as int].1));
                assert(dispatch_free(pv_view(&pairs@[i as int].1)));
            }
        }
        match collect_args(locale, path, &pairs[i].1, scope, out) {
            Ok(()) => {},
            Err(e) => {
                return Err(e);
            },
        }
        i = i + 1;
    }
    Ok(())
}

fn collect_args_key_pairs(
    locale: &str,
    path: &KeyPath,
    pairs: &Vec<(Key, ParsedValue)>,
    scope: &mut Vec<String>,
    out: &mut Vec<(String, ArgType)>,
) -> (r: Result<(), Error>)
    ensures
        final(scope)@ == old(scope)@,
        distinct_names(old(out)@) ==> distinct_names(final(out)@),
        r matches Err(e) ==> e is AmbiguousArgType,
        dispatch_free_pairs(key_pairs_view(pairs@)) && old(scope)@.len()
            == 0 && all_text_args(old(out)@) ==> (r is Ok && all_text_args(final(out)@)),
        all_inferred_args(old(out)@) ==> (r is Ok && all_inferred_args(final(out)@)),
    decreases pairs, 1int,
{
    let ghost free = dispatch_free_pairs(key_pairs_view(pairs@)) && old(
        scope,
    )@.len() == 0 && all_text_args(old(out)@);
    let ghost inferred = all_inferred_args(old(out)@);
    let mut i: usize = 0;
    while i < pairs.len()
        invariant
            i <= pairs@.len(),
            scope@ == old(scope)@,
            free == (dispatch_free_pairs(key_pairs_view(pairs@)) && old(
                scope,
            )@.len() == 0 && all_text_args(old(out)@)),
            free ==> all_text_args(out@),
            inferred == all_inferred_args(old(out)@),
            inferred ==> all_inferred_args(out@),
            distinct_names(old(out)@) ==> distinct_names(out@),
        decreases pairs@.len() - i,
    {
        proof {
            assert(decreases_to!(*pairs => pairs@));
            assert(decreases_to!(pairs@ => pairs@[i as int]));
            assert(decreases_to!(pairs@[i as int] => pairs@[i as int].1));
            if free {
                lemma_key_pairs_view(pairs@);
                lemma_dispatch_free_pairs(key_pairs_view(pairs@));
                assert(key_pairs_view(pairs@)[i as int].1 == pv_view(&pairs@[i as int].1));
                assert(dispatch_free(pv_view(&pairs@[i as int].1)));
            }
        }
        match collect_args(locale, path, &pairs[i].1, scope, out) {
            Ok(()) => {},
            Err(e) => {
                return Err(e);
            },
        }
        i = i + 1;
    }
    Ok(())
}

fn collect_args_list(
    locale: &str,
    path: &KeyPath,
    items: &Vec<ParsedValue>,
    scope: &mut Vec<String>,
    out: &mut Vec<(String, ArgType)>,
) -> (r: Result<(), Error>)
    ensures
        final(scope)@ == old(scope)@,
        distinct_names(old(out)@) ==> distinct_names(final(out)@),
        r matches Err(e) ==> e is AmbiguousArgType,
        dispatch_free_list(list_view(items@)) && old(scope)@.len() == 0
            && all_text_args(old(out)@) ==> (r is Ok && all_text_args(final(out)@)),
        all_inferred_args(old(out)@) ==> (r is Ok && all_inferred_args(final(out)@)),
    decreases items, 2int,
{
    let ghost free = dispatch_free_list(list_view(items@)) && old(
        scope,
    )@.len() == 0 && all_text_args(old(out)@);
    let ghost inferred = all_inferred_args(old(out)@);
    let mut i: usize = 0;
    while i < items.len()
        invariant
            i <= items@.len(),
            scope@ == old(scope)@,
            free == (dispatch_free_list(list_view(items@)) && old(
                scope,
            )@.len() == 0 && all_text_args(old(out)@)),
            free ==> all_text_args(out@),
            inferred == all_inferred_args(old(out)@),
            inferred ==> all_inferred_args(out@),
            distinct_names(old(out)@) ==> distinct_names(out@),
        decreases items@.len() - i,
    {
        proof {
            assert(decreases_to!(*items => items@));
            assert(decreases_to!(items@ => items@[i as int]));
            if free {
                lemma_list_view(items@);
                lemma_dispatch_free_list(list_view(items@));
                assert(list_view(items@)[i as int] == pv_view(&items@[i as int]));
                assert(dispatch_free(pv_view(&items@[i as int])));
            }
        }
        match collect_args(locale, path, &items[i], scope, out) {
            Ok(()) => {},
            Err(e) => {
                return Err(e);
            },
        }
        i = i + 1;
    }
    Ok(())
}

/// The kind of one literal.
pub fn literal_type_of(l: &LiteralValue) -> (r: LiteralType)
    ensures
        l is Str ==> r == LiteralType::Str,
        l is Num ==> r == LiteralType::Num,
        l is Bool ==> r == LiteralType::Bool,
{
    match l {
        LiteralValue::Str(_) => LiteralType::Str,
        LiteralValue::Num(_, _) => LiteralType::Num,
        LiteralValue::Bool(_) => LiteralType::Bool,
    }
}

/// The shape of one resolved value of the default locale.
fn shape_of_value(locale: &str, path: &mut KeyPath, v: &ParsedValue) -> (r: Result<
    LocaleValue,
    Error,
>)
    ensures
        final(path)@ == old(path)@,
        r matches Ok(sv) ==> shape_derived_value(sv@, v@),
        fk_free(v@) ==> r is Ok,
    decreases v,
{
    match v {
        ParsedValue::Literal(l) => Ok(LocaleValue::Literal(literal_type_of(l))),
        ParsedValue::Subkeys(entries) => {
            proof {
                assert(decreases_to!(*v => v->Subkeys_0));
            }
            match build_keys(locale, path, entries) {
                Ok(sub) => Ok(LocaleValue::Subkeys(sub)),
                Err(e) => Err(e),
            }
        },
        ParsedValue::ForeignKey { .. } => {
            // Foreign keys never persist past resolution; a leftover one is
            // a malformed input.
            Err(crate::parse::parse_error(locale, path, "$t(".to_owned()))
        },
        _ => {
            let mut scope: Vec<String> = Vec::new();
            let mut args: Vec<(String, ArgType)> = Vec::new();
            match collect_args(locale, path, v, &mut scope, &mut args) {
                Ok(()) => Ok(LocaleValue::Interpolation(args)),
                Err(e) => Err(e),
            }
        },
    }
}

/// Derives the shape of every key of the default locale's resolved tree:
/// the first phase of the merge. The shape lists exactly the tree's keys,
/// at every depth, in document order.
pub fn build_keys(locale: &str, path: &mut KeyPath, tree: &Vec<(Key, ParsedValue)>) -> (r: Result<
    Vec<(Key, LocaleValue)>,
    Error,
>)
    ensures
        final(path)@ == old(path)@,
        r matches Ok(shape) ==> shape_derived_keys(lv_pairs_view(shape@), key_pairs_view(tree@)),
        fk_free_pairs(key_pairs_view(tree@)) ==> r is Ok,
    decreases tree,
{
    let ghost happy = fk_free_pairs(key_pairs_view(tree@));
    let mut out: Vec<(Key, LocaleValue)> = Vec::new();
    let mut i: usize = 0;
    while i < tree.len()
        invariant
            i <= tree@.len(),
            out@.len() == i as int,
            path@ == old(path)@,
            forall|j: int| 0 <= j < i ==> #[trigger] out@[j].0@ == tree@[j].0@,
            happy == fk_free_pairs(key_pairs_view(tree@)),
            forall|j: int|
                0 <= j < i ==> shape_derived_value(lv_view(&out@[j].1), pv_view(&#[trigger] tree@[j].1)),
        decreases tree@.len() - i,
    {
        proof {
            assert(decreases_to!(*tree => tree@));
            assert(decreases_to!(tree@ => tree@[i as int]));
            assert(decreases_to!(tree@[i as int] => tree@[i as int].1));
            if happy {
                lemma_key_pairs_view(tree@);
                lemma_fk_free_pairs(key_pairs_view(tree@));
                assert(key_pairs_view(tree@)[i as int].1 == pv_view(&tree@[i as int].1));
                assert(fk_free(pv_view(&tree@[i as int].1)));
            }
        }
        let ghost before = path@;
        path.push_key(tree[i].0.duplicate());
        let res = shape_of_value(locale, path, &tree[i].1);
        path.pop_key();
        proof {
            assert(path@.keys =~= before.keys);
            assert(path@ == before);
        }
        match res {
            Ok(sv) => {
                out.push((tree[i].0.duplicate(), sv));
            },
            Err(e) => {
                return Err(e);
            },
        }
        i = i + 1;
    }
    proof {
        lemma_lv_pairs_view(out@);
        lemma_key_pairs_view(tree@);
        assert forall|j: int| 0 <= j < key_pairs_view(tree@).len() implies #[trigger] lv_pairs_view(
            out@,
        )[j].0 == key_pairs_view(tree@)[j].0 by {
            assert(lv_pairs_view(out@)[j] == (out@[j].0@, lv_view(&out@[j].1)));
            assert(key_pairs_view(tree@)[j] == (tree@[j].0@, pv_view(&tree@[j].1)));
        }
        assert forall|j: int| 0 <= j < key_pairs_view(tree@).len() implies shape_derived_value(
            lv_pairs_view(out@)[j].1,
            #[trigger] key_pairs_view(tree@)[j].1,
        ) by {
            assert(lv_pairs_view(out@)[j] == (out@[j].0@, lv_view(&out@[j].1)));
            assert(key_pairs_view(tree@)[j] == (tree@[j].0@, pv_view(&tree@[j].1)));
        }
        lemma_shape_derived_keys_intro(lv_pairs_view(out@), key_pairs_view(tree@));
    }
    Ok(out)
}

/// Keys all distinct at one level.
pub open spec fn level_keys_distinct(t: Seq<(Seq<char>, PvView)>) -> bool {
    forall|i: int, j: int| 0 <= i < j < t.len() ==> (#[trigger] t[i].0) != (#[trigger] t[j].0)
}

/// Keys all distinct at every level below each entry.
pub open spec fn pv_entries_distinct(t: Seq<(Seq<char>, PvView)>) -> bool
    decreases t, 0int,
    via pv_entries_distinct_decreases
{
    if t.len() == 0 {
        true
    } else {
        pv_value_keys_distinct(t[0].1) && pv_entries_distinct(t.drop_first())
    }
}

/// Keys all distinct at every level of one value's nested groups.
pub open spec fn pv_value_keys_distinct(v: PvView) -> bool
    decreases v, 1int,
    via pv_value_keys_distinct_decreases
{
    match v {
        PvView::Subkeys(e) => level_keys_distinct(e) && pv_entries_distinct(e),
        _ => true,
    }
}

/// A tree whose keys are unique at every level.
pub open spec fn pv_keys_distinct(t: Seq<(Seq<char>, PvView)>) -> bool {
    level_keys_distinct(t) && pv_entries_distinct(t)
}

#[via_fn]
proof fn pv_entries_distinct_decreases(t: Seq<(Seq<char>, PvView)>) {
    if t.len() > 0 {
        assert(decreases_to!(t => t[0]));
        assert(decreases_to!(t[0] => t[0].1));
        assert(decreases_to!(t => t.drop_first()));
    }
}

#[via_fn]
proof fn pv_value_keys_distinct_decreases(v: PvView) {
    match v {
        PvView::Subkeys(e) => {
            assert(decreases_to!(v => v->Subkeys_0));
        },
        _ => {},
    }
}

/// Pointwise reading of [`pv_entries_distinct`].
pub proof fn lemma_pv_entries_distinct(t: Seq<(Seq<char>, PvView)>)
    requires
        pv_entries_distinct(t),
    ensures
        forall|j: int| 0 <= j < t.len() ==> pv_value_keys_distinct(#[trigger] t[j].1),
    decreases t.len(),
{
    if t.len() > 0 {
        lemma_pv_entries_distinct(t.drop_first());
        assert forall|j: int| 0 <= j < t.len() implies pv_value_keys_distinct(
            #[trigger] t[j].1,
        ) by {
            if j > 0 {
                assert(t.drop_first()[j - 1] == t[j]);
            }
        }
    }
}

/// Whether a shape is exactly the one derived from a value tree: the keys
/// agree at every depth and every shape kind matches its value's kind —
/// a literal shape for a literal, nested groups for nested groups, an
/// interpolation shape for everything else.
pub open spec fn shape_derived_keys(s: Seq<(Seq<char>, LvView)>, t: Seq<(Seq<char>, PvView)>) -> bool
    decreases t, 0int,
    via shape_derived_keys_decreases
{
    if s.len() != t.len() {
        false
    } else if t.len() == 0 {
        true
    } else {
        s[0].0 == t[0].0 && shape_derived_value(s[0].1, t[0].1) && shape_derived_keys(
            s.drop_first(),
            t.drop_first(),
        )
    }
}

/// Whether one shape is the one derived from one value.
pub open spec fn shape_derived_value(sv: LvView, tv: PvView) -> bool
    decreases tv, 1int,
    via shape_derived_value_decreases
{
    match tv {
        PvView::Subkeys(te) => match sv {
            LvView::Subkeys(se) => shape_derived_keys(se, te),
            _ => false,
        },
        PvView::Literal(_) => sv is Literal,
        _ => sv is Interpolation,
    }
}

#[via_fn]
proof fn shape_derived_keys_decreases(s: Seq<(Seq<char>, LvView)>, t: Seq<(Seq<char>, PvView)>) {
    if s.len() == t.len() && t.len() > 0 {
        assert(decreases_to!(t => t[0]));
        assert(decreases_to!(t[0] => t[0].1));
        assert(decreases_to!(t => t.drop_first()));
    }
}

#[via_fn]
proof fn shape_derived_value_decreases(sv: LvView, tv: PvView) {
    match tv {
        PvView::Subkeys(te) => {
            assert(decreases_to!(tv => tv->Subkeys_0));
        },
        _ => {},
    }
}

/// A derived shape also aligns in the looser sense.
pub proof fn lemma_derived_keys_match(s: Seq<(Seq<char>, LvView)>, t: Seq<(Seq<char>, PvView)>)
    requires
        shape_derived_keys(s, t),
    ensures
        shape_matches_keys(s, t),
    decreases t, 0int,
{
    if t.len() > 0 {
        assert(decreases_to!(t => t[0]));
        assert(decreases_to!(t[0] => t[0].1));
        assert(decreases_to!(t => t.drop_first()));
        lemma_derived_value_matches(s[0].1, t[0].1);
        lemma_derived_keys_match(s.drop_first(), t.drop_first());
    }
}

/// A derived shape also aligns with its value in the looser sense.
pub proof fn lemma_derived_value_matches(sv: LvView, tv: PvView)
    requires
        shape_derived_value(sv, tv),
    ensures
        shape_matches_value(sv, tv),
    decreases tv, 1int,
{
    match tv {
        PvView::Subkeys(te) => {
            assert(decreases_to!(tv => tv->Subkeys_0));
            match sv {
                LvView::Subkeys(se) => {
                    lemma_derived_keys_match(se, te);
                },
                _ => {},
            }
        },
        _ => {},
    }
}

/// Pointwise reading of [`shape_derived_keys`].
pub proof fn lemma_shape_derived_keys(s: Seq<(Seq<char>, LvView)>, t: Seq<(Seq<char>, PvView)>)
    requires
        shape_derived_keys(s, t),
    ensures
        s.len() == t.len(),
        forall|j: int| 0 <= j < t.len() ==> #[trigger] s[j].0 == t[j].0,
        forall|j: int| 0 <= j < t.len() ==> shape_derived_value(s[j].1, #[trigger] t[j].1),
    decreases t.len(),
{
    if t.len() > 0 {
        lemma_shape_derived_keys(s.drop_first(), t.drop_first());
        assert forall|j: int| 0 <= j < t.len() implies #[trigger] s[j].0 == t[j].0 by {
            if j > 0 {
                assert(s.drop_first()[j - 1] == s[j]);
                assert(t.drop_first()[j - 1] == t[j]);
            }
        }
        assert forall|j: int| 0 <= j < t.len() implies shape_derived_value(
            s[j].1,
            #[trigger] t[j].1,
        ) by {
            if j > 0 {
                assert(s.drop_first()[j - 1] == s[j]);
                assert(t.drop_first()[j - 1] == t[j]);
            }
        }
    }
}

/// Builds [`shape_derived_keys`] from pointwise facts.
pub proof fn lemma_shape_derived_keys_intro(
    s: Seq<(Seq<char>, LvView)>,
    t: Seq<(Seq<char>, PvView)>,
)
    requires
        s.len() == t.len(),
        forall|j: int| 0 <= j < t.len() ==> #[trigger] s[j].0 == t[j].0,
        forall|j: int| 0 <= j < t.len() ==> shape_derived_value(s[j].1, #[trigger] t[j].1),
    ensures
        shape_derived_keys(s, t),
    decreases t.len(),
{
    if t.len() > 0 {
        assert forall|j: int|
            0 <= j < t.drop_first().len() implies #[trigger] s.drop_first()[j].0
            == t.drop_first()[j].0 && shape_derived_value(
            s.drop_first()[j].1,
            t.drop_first()[j].1,
        ) by {
            assert(s.drop_first()[j] == s[j + 1]);
            assert(t.drop_first()[j] == t[j + 1]);
        }
        lemma_shape_derived_keys_intro(s.drop_first(), t.drop_first());
    }
}

/// The path a warning points at.
pub open spec fn warning_path(w: Warning) -> crate::key::KeyPathView {
    match w {
        Warning::MissingKey { locale, path } => path@,
        Warning::SurplusKey { locale, path } => path@,
        Warning::DeadOverride { locale, path, name } => path@,
        Warning::UnusedPluralCategory { locale, path, category } => path@,
    }
}

/// Whether `w` is a missing-key warning for this locale at this path.
pub open spec fn is_missing_at(w: Warning, loc: Seq<char>, p: crate::key::KeyPathView) -> bool {
    match w {
        Warning::MissingKey { locale, path } => locale@ == loc && path@ == p,
        _ => false,
    }
}

/// How many missing-key warnings for this locale at this path the list
/// holds.
pub open spec fn count_missing_at(
    ws: Seq<Warning>,
    loc: Seq<char>,
    p: crate::key::KeyPathView,
) -> int
    decreases ws.len(),
{
    if ws.len() == 0 {
        0
    } else {
        count_missing_at(ws.drop_last(), loc, p) + if is_missing_at(ws.last(), loc, p) {
            1int
        } else {
            0int
        }
    }
}

/// Counting splits over concatenation.
pub proof fn lemma_count_missing_append(
    a: Seq<Warning>,
    b: Seq<Warning>,
    loc: Seq<char>,
    p: crate::key::KeyPathView,
)
    ensures
        count_missing_at(a + b, loc, p) == count_missing_at(a, loc, p) + count_missing_at(
            b,
            loc,
            p,
        ),
    decreases b.len(),
{
    if b.len() == 0 {
        assert(a + b =~= a);
    } else {
        lemma_count_missing_append(a, b.drop_last(), loc, p);
        assert((a + b).drop_last() =~= a + b.drop_last());
        assert((a + b).last() == b.last());
    }
}

/// One more warning changes the count by its own contribution.
pub proof fn lemma_count_missing_push(
    ws: Seq<Warning>,
    w: Warning,
    loc: Seq<char>,
    p: crate::key::KeyPathView,
)
    ensures
        count_missing_at(ws.push(w), loc, p) == count_missing_at(ws, loc, p) + if is_missing_at(
            w,
            loc,
            p,
        ) {
            1int
        } else {
            0int
        },
{
    assert(ws.push(w).drop_last() =~= ws);
    assert(ws.push(w).last() == w);
}

/// A list whose members all miss the mark counts zero.
pub proof fn lemma_count_missing_zero(ws: Seq<Warning>, loc: Seq<char>, p: crate::key::KeyPathView)
    requires
        forall|i: int| 0 <= i < ws.len() ==> !is_missing_at(#[trigger] ws[i], loc, p),
    ensures
        count_missing_at(ws, loc, p) == 0,
    decreases ws.len(),
{
    if ws.len() > 0 {
        assert forall|i: int| 0 <= i < ws.drop_last().len() implies !is_missing_at(
            #[trigger] ws.drop_last()[i],
            loc,
            p,
        ) by {
            assert(ws.drop_last()[i] == ws[i]);
        }
        lemma_count_missing_zero(ws.drop_last(), loc, p);
        assert(ws.last() == ws[ws.len() - 1]);
    }
}

/// A list with exactly one member on the mark counts one.
pub proof fn lemma_count_missing_single(
    ws: Seq<Warning>,
    k: int,
    loc: Seq<char>,
    p: crate::key::KeyPathView,
)
    requires
        0 <= k < ws.len(),
        is_missing_at(ws[k], loc, p),
        forall|i: int| 0 <= i < ws.len() && i != k ==> !is_missing_at(#[trigger] ws[i], loc, p),
    ensures
        count_missing_at(ws, loc, p) == 1,
    decreases ws.len(),
{
    if k == ws.len() - 1 {
        assert forall|i: int| 0 <= i < ws.drop_last().len() implies !is_missing_at(
            #[trigger] ws.drop_last()[i],
            loc,
            p,
        ) by {
            assert(ws.drop_last()[i] == ws[i]);
        }
        lemma_count_missing_zero(ws.drop_last(), loc, p);
    } else {
        assert forall|i: int|
            0 <= i < ws.drop_last().len() && i != k implies !is_missing_at(
            #[trigger] ws.drop_last()[i],
            loc,
            p,
        ) by {
            assert(ws.drop_last()[i] == ws[i]);
        }
        assert(ws.drop_last()[k] == ws[k]);
        lemma_count_missing_single(ws.drop_last(), k, loc, p);
        assert(ws.last() == ws[ws.len() - 1]);
    }
}

/// The diagnostic path of the key at position `j` of the shape, seen from
/// the path the merge was entered with.
pub open spec fn key_path_at(
    base: crate::key::KeyPathView,
    shape: Seq<(Key, LocaleValue)>,
    j: int,
) -> crate::key::KeyPathView {
    (crate::key::KeyPathView {
        namespace: base.namespace,
        keys: base.keys.push(lv_pairs_view(shape)[j].0),
    })
}

/// Whether a name is among the keys of a shape.
pub open spec fn has_lv_key(s: Seq<(Seq<char>, LvView)>, name: Seq<char>) -> bool {
    exists|i: int| 0 <= i < s.len() && #[trigger] s[i].0 == name
}

/// The first shape entry keyed `name`.
pub fn find_shape_key(shape: &Vec<(Key, LocaleValue)>, name: &Key) -> (r: Option<usize>)
    ensures
        r matches Some(i) ==> i < shape@.len() && lv_pairs_view(shape@)[i as int].0 == name@,
        r is None ==> !has_lv_key(lv_pairs_view(shape@), name@),
{
    proof {
        lemma_lv_pairs_view(shape@);
    }
    let mut i: usize = 0;
    while i < shape.len()
        invariant
            i <= shape@.len(),
            forall|j: int| 0 <= j < i ==> #[trigger] lv_pairs_view(shape@)[j].0 != name@,
        decreases shape@.len() - i,
    {
        proof {
            lemma_lv_pairs_view(shape@);
        }
        if shape[i].0.same_name(name) {
            return Some(i);
        }
        i = i + 1;
    }
    None
}

/// Checks that every argument a locale's value consumes is an argument of
/// the default locale's shape for that key; a new name is the hard error
/// `UnknownVariable`.
fn check_vars_subset(
    locale: &str,
    path: &KeyPath,
    largs: &Vec<(String, ArgType)>,
    sargs: &Vec<(String, ArgType)>,
) -> (r: Result<(), Error>)
    ensures
        r matches Err(e) ==> e is UnknownVariable,
{
    let mut i: usize = 0;
    while i < largs.len()
        invariant
            i <= largs@.len(),
        decreases largs@.len() - i,
    {
        let mut found: bool = false;
        let mut j: usize = 0;
        while j < sargs.len()
            invariant
                j <= sargs@.len(),
                i < largs@.len(),
            decreases sargs@.len() - j,
        {
            if str_eq(sargs[j].0.as_str(), largs[i].0.as_str()) {
                found = true;
            }
            j = j + 1;
        }
        if !found {
            return Err(
                Error::UnknownVariable {
                    locale: locale.to_owned(),
                    path: path.duplicate(),
                    name: largs[i].0.clone(),
                },
            );
        }
        i = i + 1;
    }
    Ok(())
}

/// Merges one locale's tree against the shape derived from the default
/// locale: the second phase of the merge.
///
/// The result lists exactly the shape's keys, in order. A key this locale
/// lacks takes the default locale's value — the generation-time fallback
/// — and leaves one `MissingKey` warning; a key the shape lacks is
/// discarded with a `SurplusKey` warning; a key of both must keep the
/// shape, and an interpolation may not consume variables the default
/// locale does not know. When the default locale's keys are unique at
/// every level, a successful merge leaves exactly one `MissingKey`
/// warning per missing key; merging a tree identical to the default's
/// succeeds, returns it unchanged and leaves the warnings exactly as they
/// were; and merging a tree that only lacks one top-level key succeeds.
pub fn merge_tree(
    locale: &str,
    path: &mut KeyPath,
    shape: &Vec<(Key, LocaleValue)>,
    default_tree: &Vec<(Key, ParsedValue)>,
    locale_tree: &Vec<(Key, ParsedValue)>,
    warnings: &mut Warnings,
) -> (r: Result<Vec<(Key, ParsedValue)>, Error>)
    requires
        shape_derived_keys(lv_pairs_view(shape@), key_pairs_view(default_tree@)),
    ensures
        final(path)@ == old(path)@,
        r matches Ok(out) ==> shape_matches_keys(lv_pairs_view(shape@), key_pairs_view(out@)),
        r matches Ok(out) ==> out@.len() == shape@.len() && (forall|j: int|
            0 <= j < shape@.len() ==> (!has_pv_key(
                key_pairs_view(locale_tree@),
                #[trigger] key_pairs_view(out@)[j].0,
            ) ==> key_pairs_view(out@)[j].1 == key_pairs_view(default_tree@)[j].1)),
        pv_keys_distinct(key_pairs_view(default_tree@)) && key_pairs_view(locale_tree@)
            == key_pairs_view(default_tree@) && r is Ok ==> final(warnings)@ == old(warnings)@,
        final(warnings)@.len() >= old(warnings)@.len() && final(warnings)@.take(
            old(warnings)@.len() as int,
        ) == old(warnings)@,
        forall|i: int|
            old(warnings)@.len() <= i < final(warnings)@.len() ==> warning_path(
                #[trigger] final(warnings)@[i],
            ).keys.len() > old(path)@.keys.len(),
        r matches Ok(out) ==> (fk_free_pairs(key_pairs_view(locale_tree@)) && fk_free_pairs(
            key_pairs_view(default_tree@),
        ) ==> fk_free_pairs(key_pairs_view(out@))),
        pv_keys_distinct(key_pairs_view(default_tree@)) && key_pairs_view(locale_tree@)
            == key_pairs_view(default_tree@) ==> (r matches Ok(out) && key_pairs_view(out@)
            == key_pairs_view(locale_tree@)),
        pv_keys_distinct(key_pairs_view(default_tree@)) && (exists|k: int|
            0 <= k < key_pairs_view(default_tree@).len() && key_pairs_view(locale_tree@)
                == key_pairs_view(default_tree@).subrange(0, k) + #[trigger] key_pairs_view(
                default_tree@,
            ).subrange(k + 1, key_pairs_view(default_tree@).len() as int)) ==> r is Ok,
        r matches Ok(out) ==> (forall|j: int|
            0 <= j < shape@.len() ==> ((!(lv_pairs_view(shape@)[j].1 is Subkeys) && has_pv_key(
                key_pairs_view(locale_tree@),
                #[trigger] lv_pairs_view(shape@)[j].0,
            )) ==> (exists|i: int|
                0 <= i < key_pairs_view(locale_tree@).len() && (#[trigger] key_pairs_view(
                    locale_tree@,
                )[i]).0 == lv_pairs_view(shape@)[j].0 && key_pairs_view(out@)[j].1
                    == key_pairs_view(locale_tree@)[i].1))),
        pv_keys_distinct(key_pairs_view(default_tree@)) && r is Ok ==> (forall|j: int|
            0 <= j < shape@.len() ==> count_missing_at(
                final(warnings)@,
                locale@,
                key_path_at(old(path)@, shape@, j),
            ) == count_missing_at(old(warnings)@, locale@, key_path_at(old(path)@, shape@, j))
                + if has_pv_key(key_pairs_view(locale_tree@), #[trigger] lv_pairs_view(shape@)[j].0) {
                0int
            } else {
                1int
            }),
    decreases default_tree,
{
    let ghost eq = pv_keys_distinct(key_pairs_view(default_tree@)) && key_pairs_view(
        locale_tree@,
    ) == key_pairs_view(default_tree@);
    let ghost inputs_free = fk_free_pairs(key_pairs_view(locale_tree@)) && fk_free_pairs(
        key_pairs_view(default_tree@),
    );
    let ghost minus = pv_keys_distinct(key_pairs_view(default_tree@)) && (exists|k: int|
        0 <= k < key_pairs_view(default_tree@).len() && key_pairs_view(locale_tree@)
            == key_pairs_view(default_tree@).subrange(0, k) + #[trigger] key_pairs_view(
            default_tree@,
        ).subrange(k + 1, key_pairs_view(default_tree@).len() as int));
    proof {
        lemma_derived_keys_match(lv_pairs_view(shape@), key_pairs_view(default_tree@));
        lemma_shape_matches_keys(lv_pairs_view(shape@), key_pairs_view(default_tree@));
        lemma_lv_pairs_view(shape@);
        lemma_key_pairs_view(default_tree@);
        lemma_key_pairs_view(locale_tree@);
    }
    let mut out: Vec<(Key, ParsedValue)> = Vec::new();
    let mut j: usize = 0;
    while j < shape.len()
        invariant
            j <= shape@.len(),
            out@.len() == j as int,
            path@ == old(path)@,
            eq == (pv_keys_distinct(key_pairs_view(default_tree@)) && key_pairs_view(
                locale_tree@,
            ) == key_pairs_view(default_tree@)),
            shape_derived_keys(lv_pairs_view(shape@), key_pairs_view(default_tree@)),
            shape@.len() == default_tree@.len(),
            eq ==> warnings@ == old(warnings)@,
            eq ==> (forall|t: int|
                0 <= t < j ==> pv_view(&#[trigger] out@[t].1) == pv_view(&locale_tree@[t].1)),
            forall|t: int|
                0 <= t < j ==> ((!(lv_view(&shape@[t].1) is Subkeys) && has_pv_key(
                    key_pairs_view(locale_tree@),
                    shape@[t].0@,
                )) ==> (exists|i: int|
                    0 <= i < key_pairs_view(locale_tree@).len() && (#[trigger] key_pairs_view(
                        locale_tree@,
                    )[i]).0 == shape@[t].0@ && pv_view(&#[trigger] out@[t].1)
                        == key_pairs_view(locale_tree@)[i].1)),
            warnings@.len() >= old(warnings)@.len(),
            warnings@.take(old(warnings)@.len() as int) == old(warnings)@,
            forall|i: int|
                old(warnings)@.len() <= i < warnings@.len() ==> warning_path(
                    #[trigger] warnings@[i],
                ).keys.len() > old(path)@.keys.len(),
            pv_keys_distinct(key_pairs_view(default_tree@)) ==> (forall|t: int|
                0 <= t < j ==> count_missing_at(
                    warnings@,
                    locale@,
                    key_path_at(old(path)@, shape@, t),
                ) == count_missing_at(
                    old(warnings)@,
                    locale@,
                    key_path_at(old(path)@, shape@, t),
                ) + if has_pv_key(
                    key_pairs_view(locale_tree@),
                    #[trigger] lv_pairs_view(shape@)[t].0,
                ) {
                    0int
                } else {
                    1int
                }),
            pv_keys_distinct(key_pairs_view(default_tree@)) ==> (forall|t: int|
                j <= t < shape@.len() ==> count_missing_at(
                    warnings@,
                    locale@,
                    #[trigger] key_path_at(old(path)@, shape@, t),
                ) == count_missing_at(
                    old(warnings)@,
                    locale@,
                    key_path_at(old(path)@, shape@, t),
                )),
            forall|t: int| 0 <= t < j ==> #[trigger] out@[t].0@ == shape@[t].0@,
            forall|t: int|
                0 <= t < j ==> shape_matches_value(
                    lv_view(&shape@[t].1),
                    pv_view(&#[trigger] out@[t].1),
                ),
            forall|t: int|
                0 <= t < j ==> (!has_pv_key(key_pairs_view(locale_tree@), #[trigger] out@[t].0@)
                    ==> pv_view(&out@[t].1) == pv_view(&default_tree@[t].1)),
            inputs_free == (fk_free_pairs(key_pairs_view(locale_tree@)) && fk_free_pairs(
                key_pairs_view(default_tree@),
            )),
            inputs_free ==> (forall|t: int|
                0 <= t < j ==> fk_free(pv_view(&#[trigger] out@[t].1))),
            minus == (pv_keys_distinct(key_pairs_view(default_tree@)) && (exists|k: int|
                0 <= k < key_pairs_view(default_tree@).len() && key_pairs_view(locale_tree@)
                    == key_pairs_view(default_tree@).subrange(0, k) + #[trigger] key_pairs_view(
                    default_tree@,
                ).subrange(k + 1, key_pairs_view(default_tree@).len() as int))),
        decreases shape@.len() - j,
    {
        proof {
            lemma_derived_keys_match(lv_pairs_view(shape@), key_pairs_view(default_tree@));
            lemma_shape_matches_keys(lv_pairs_view(shape@), key_pairs_view(default_tree@));
            lemma_shape_derived_keys(lv_pairs_view(shape@), key_pairs_view(default_tree@));
            lemma_lv_pairs_view(shape@);
            lemma_key_pairs_view(default_tree@);
            lemma_key_pairs_view(locale_tree@);
            assert(decreases_to!(*default_tree => default_tree@));
            assert(decreases_to!(default_tree@ => default_tree@[j as int]));
            assert(decreases_to!(default_tree@[j as int] => default_tree@[j as int].1));
            assert(lv_pairs_view(shape@)[j as int] == (
                shape@[j as int].0@,
                lv_view(&shape@[j as int].1),
            ));
            assert(key_pairs_view(default_tree@)[j as int] == (
                default_tree@[j as int].0@,
                pv_view(&default_tree@[j as int].1),
            ));
            assert(lv_pairs_view(shape@)[j as int].0 == key_pairs_view(
                default_tree@,
            )[j as int].0);
            assert(shape_matches_value(
                lv_pairs_view(shape@)[j as int].1,
                key_pairs_view(default_tree@)[j as int].1,
            ));
            assert(shape_derived_value(
                lv_pairs_view(shape@)[j as int].1,
                key_pairs_view(default_tree@)[j as int].1,
            ));
            if inputs_free {
                lemma_fk_free_pairs(key_pairs_view(locale_tree@));
                lemma_fk_free_pairs(key_pairs_view(default_tree@));
                assert(fk_free(pv_view(&default_tree@[j as int].1))) by {
                    assert(key_pairs_view(default_tree@)[j as int].1 == pv_view(
                        &default_tree@[j as int].1,
                    ));
                }
                assert forall|x: int| 0 <= x < locale_tree@.len() implies fk_free(
                    pv_view(&#[trigger] locale_tree@[x].1),
                ) by {
                    assert(key_pairs_view(locale_tree@)[x].1 == pv_view(&locale_tree@[x].1));
                }
            }
        }
        let ghost wpre = warnings@;
        let ghost dist = pv_keys_distinct(key_pairs_view(default_tree@));
        let key: &Key = &shape[j].0;
        let found = find_key(locale_tree, key);
        let ghost before = path@;
        path.push_key(key.duplicate());
        let step: Result<(Key, ParsedValue), Error> = match found {
            None => {
                proof {
                    if eq {
                        // With identical trees every shape key is a locale
                        // key: the default tree holds it at this position.
                        lemma_key_pairs_view(default_tree@);
                        lemma_lv_pairs_view(shape@);
                        assert(key_pairs_view(locale_tree@)[j as int].0 == key@);
                        assert(has_pv_key(key_pairs_view(locale_tree@), key@));
                        assert(false);
                    }
                }
                let missing_warning = Warning::MissingKey {
                    locale: locale.to_owned(),
                    path: path.duplicate(),
                };
                let ghost gw = missing_warning;
                warnings.push(missing_warning);
                proof {
                    assert(warnings@ == wpre.push(gw));
                    assert(warning_path(gw).keys =~= old(path)@.keys.push(key@));
                    if dist {
                        assert forall|t: int| 0 <= t < shape@.len() implies count_missing_at(
                            warnings@,
                            locale@,
                            #[trigger] key_path_at(old(path)@, shape@, t),
                        ) == count_missing_at(wpre, locale@, key_path_at(old(path)@, shape@, t))
                            + if t == j as int {
                            1int
                        } else {
                            0int
                        } by {
                            lemma_count_missing_push(
                                wpre,
                                gw,
                                locale@,
                                key_path_at(old(path)@, shape@, t),
                            );
                            assert(lv_pairs_view(shape@)[j as int].0 == key@);
                            if t == j as int {
                                assert(warning_path(gw) == key_path_at(old(path)@, shape@, t));
                                assert(is_missing_at(gw, locale@, key_path_at(old(path)@, shape@, t)));
                            } else {
                                assert(lv_pairs_view(shape@)[t].0 == key_pairs_view(
                                    default_tree@,
                                )[t].0);
                                assert(lv_pairs_view(shape@)[j as int].0 == key_pairs_view(
                                    default_tree@,
                                )[j as int].0);
                                assert(key_pairs_view(default_tree@)[t].0 != key_pairs_view(
                                    default_tree@,
                                )[j as int].0);
                                assert(key_path_at(old(path)@, shape@, t).keys.last()
                                    != warning_path(gw).keys.last());
                                assert(!is_missing_at(
                                    gw,
                                    locale@,
                                    key_path_at(old(path)@, shape@, t),
                                ));
                            }
                        }
                    }
                }
                Ok((key.duplicate(), default_tree[j].1.deep_copy()))
            },
            Some(i) => {
                proof {
                    assert(key_pairs_view(locale_tree@)[i as int].0 == key@);
                    assert(has_pv_key(key_pairs_view(locale_tree@), key@));
                    assert(lv_pairs_view(shape@)[j as int].0 == key@);
                    assert(key_pairs_view(locale_tree@)[i as int].1 == pv_view(
                        &locale_tree@[i as int].1,
                    ));
                    if eq {
                        // Unique keys force the found index to be this very
                        // position, so the two values coincide.
                        assert(key_pairs_view(locale_tree@)[i as int].0 == key_pairs_view(
                            default_tree@,
                        )[i as int].0);
                        assert(key_pairs_view(default_tree@)[i as int].0 == key_pairs_view(
                            default_tree@,
                        )[j as int].0);
                        assert(i as int == j as int);
                        assert(pv_view(&locale_tree@[i as int].1) == pv_view(
                            &default_tree@[j as int].1,
                        ));
                    }
                    if minus {
                        // The locale tree is the default tree with one key
                        // taken out: a found key still pairs with its own
                        // value, at this position or one later.
                        let dv = key_pairs_view(default_tree@);
                        let lv = key_pairs_view(locale_tree@);
                        let km = choose|k: int|
                            0 <= k < dv.len() && lv == dv.subrange(0, k) + #[trigger] dv.subrange(
                                k + 1,
                                dv.len() as int,
                            );
                        if (i as int) < km {
                            assert(lv[i as int] == dv[i as int]);
                            assert(dv[i as int].0 == dv[j as int].0);
                            assert(i as int == j as int);
                        } else {
                            assert(lv[i as int] == dv[i as int + 1]);
                            assert(dv[i as int + 1].0 == dv[j as int].0);
                            assert(i as int + 1 == j as int);
                        }
                        assert(pv_view(&locale_tree@[i as int].1) == pv_view(
                            &default_tree@[j as int].1,
                        ));
                    }
                }
                match &shape[j].1 {
                    LocaleValue::Literal(_) => {
                        match &locale_tree[i].1 {
                            ParsedValue::Literal(_) => Ok(
                                (key.duplicate(), locale_tree[i].1.deep_copy()),
                            ),
                            _ => {
                                proof {
                                    if eq || minus {
                                        // A literal shape means the default
                                        // value is a literal, so this value,
                                        // equal to it, is one too.
                                        assert(key_pairs_view(default_tree@)[j as int].1
                                            is Literal);
                                        assert(false);
                                    }
                                }
                                Err(
                                    Error::LocaleShapeMismatch {
                                        locale: locale.to_owned(),
                                        path: path.duplicate(),
                                    },
                                )
                            },
                        }
                    },
                    LocaleValue::Interpolation(sargs) => {
                        match &locale_tree[i].1 {
                            ParsedValue::Subkeys(_) => {
                                proof {
                                    if eq || minus {
                                        assert(!(key_pairs_view(default_tree@)[j as int].1
                                            is Subkeys));
                                        assert(false);
                                    }
                                }
                                Err(
                                    Error::LocaleShapeMismatch {
                                        locale: locale.to_owned(),
                                        path: path.duplicate(),
                                    },
                                )
                            },
                            ParsedValue::Literal(_) => Ok(
                                (key.duplicate(), locale_tree[i].1.deep_copy()),
                            ),
                            _ => {
                                if crate::parsed_value::pv_eq(
                                    &locale_tree[i].1,
                                    &default_tree[j].1,
                                ) {
                                    // A value equal to the default's always
                                    // conforms to the shape derived from it.
                                    Ok((key.duplicate(), locale_tree[i].1.deep_copy()))
                                } else {
                                    proof {
                                        if eq || minus {
                                            assert(false);
                                        }
                                    }
                                    let mut scope: Vec<String> = Vec::new();
                                    let mut largs: Vec<(String, ArgType)> = Vec::new();
                                    match collect_args(
                                        locale,
                                        path,
                                        &locale_tree[i].1,
                                        &mut scope,
                                        &mut largs,
                                    ) {
                                        Ok(()) => {
                                            match check_vars_subset(locale, path, &largs, sargs) {
                                                Ok(()) => Ok(
                                                    (
                                                        key.duplicate(),
                                                        locale_tree[i].1.deep_copy(),
                                                    ),
                                                ),
                                                Err(e) => Err(e),
                                            }
                                        },
                                        Err(e) => Err(e),
                                    }
                                }
                            },
                        }
                    },
                    LocaleValue::Subkeys(sub_shape) => {
                        match (&default_tree[j].1, &locale_tree[i].1) {
                            (ParsedValue::Subkeys(dsub), ParsedValue::Subkeys(lsub)) => {
                                proof {
                                    assert(decreases_to!(
                                        default_tree@[j as int].1
                                            => default_tree@[j as int].1->Subkeys_0));
                                    assert(shape_matches_value(
                                        lv_view(&shape@[j as int].1),
                                        pv_view(&default_tree@[j as int].1),
                                    ));
                                    if eq || minus {
                                        // The subtrees coincide, and unique
                                        // keys pass down to them.
                                        assert(key_pairs_view(lsub@) == key_pairs_view(dsub@));
                                        lemma_pv_entries_distinct(key_pairs_view(default_tree@));
                                        assert(pv_value_keys_distinct(
                                            key_pairs_view(default_tree@)[j as int].1,
                                        ));
                                        assert(pv_keys_distinct(key_pairs_view(dsub@)));
                                    }
                                }
                                let sub_result = merge_tree(
                                    locale,
                                    path,
                                    sub_shape,
                                    dsub,
                                    lsub,
                                    warnings,
                                );
                                proof {
                                    let wpost = warnings@;
                                    let delta = wpost.skip(wpre.len() as int);
                                    assert(wpost =~= wpre + delta);
                                    assert forall|x: int| 0 <= x < delta.len() implies
                                        warning_path(#[trigger] delta[x]).keys.len() > old(
                                        path,
                                    )@.keys.len() + 1 by {
                                        assert(delta[x] == wpost[wpre.len() + x]);
                                    }
                                    if dist {
                                        assert forall|t: int|
                                            0 <= t < shape@.len() implies count_missing_at(
                                            warnings@,
                                            locale@,
                                            #[trigger] key_path_at(old(path)@, shape@, t),
                                        ) == count_missing_at(
                                            wpre,
                                            locale@,
                                            key_path_at(old(path)@, shape@, t),
                                        ) by {
                                            let p = key_path_at(old(path)@, shape@, t);
                                            assert(p.keys.len() == old(path)@.keys.len() + 1);
                                            assert forall|x: int|
                                                0 <= x < delta.len() implies !is_missing_at(
                                                #[trigger] delta[x],
                                                locale@,
                                                p,
                                            ) by {
                                                if is_missing_at(delta[x], locale@, p) {
                                                    assert(warning_path(delta[x]) == p);
                                                }
                                            }
                                            lemma_count_missing_append(wpre, delta, locale@, p);
                                            lemma_count_missing_zero(delta, locale@, p);
                                        }
                                    }
                                }
                                match sub_result {
                                    Ok(merged) => {
                                        let nv = ParsedValue::Subkeys(merged);
                                        proof {
                                            if eq {
                                                assert(pv_view(&nv) == pv_view(
                                                    &locale_tree@[i as int].1,
                                                ));
                                            }
                                        }
                                        Ok((key.duplicate(), nv))
                                    },
                                    Err(e) => {
                                        proof {
                                            if eq || minus {
                                                assert(false);
                                            }
                                        }
                                        Err(e)
                                    },
                                }
                            },
                            _ => {
                                proof {
                                    if eq || minus {
                                        assert(key_pairs_view(default_tree@)[j as int].1
                                            is Subkeys);
                                        assert(false);
                                    }
                                }
                                Err(
                                    Error::LocaleShapeMismatch {
                                        locale: locale.to_owned(),
                                        path: path.duplicate(),
                                    },
                                )
                            },
                        }
                    },
                }
            },
        };
        path.pop_key();
        proof {
            assert(path@.keys =~= before.keys);
            assert(path@ == before);
        }
        match step {
            Ok(pair) => {
                out.push(pair);
            },
            Err(e) => {
                return Err(e);
            },
        }
        j = j + 1;
    }
    // Keys of this locale that the shape does not know are discarded with
    // a warning.
    let mut i: usize = 0;
    while i < locale_tree.len()
        invariant
            i <= locale_tree@.len(),
            path@ == old(path)@,
            eq == (pv_keys_distinct(key_pairs_view(default_tree@)) && key_pairs_view(
                locale_tree@,
            ) == key_pairs_view(default_tree@)),
            shape_derived_keys(lv_pairs_view(shape@), key_pairs_view(default_tree@)),
            shape@.len() == default_tree@.len(),
            eq ==> warnings@ == old(warnings)@,
            eq ==> (forall|t: int|
                0 <= t < j ==> pv_view(&#[trigger] out@[t].1) == pv_view(&locale_tree@[t].1)),
            forall|t: int|
                0 <= t < j ==> ((!(lv_view(&shape@[t].1) is Subkeys) && has_pv_key(
                    key_pairs_view(locale_tree@),
                    shape@[t].0@,
                )) ==> (exists|i: int|
                    0 <= i < key_pairs_view(locale_tree@).len() && (#[trigger] key_pairs_view(
                        locale_tree@,
                    )[i]).0 == shape@[t].0@ && pv_view(&#[trigger] out@[t].1)
                        == key_pairs_view(locale_tree@)[i].1)),
            warnings@.len() >= old(warnings)@.len(),
            warnings@.take(old(warnings)@.len() as int) == old(warnings)@,
            forall|x: int|
                old(warnings)@.len() <= x < warnings@.len() ==> warning_path(
                    #[trigger] warnings@[x],
                ).keys.len() > old(path)@.keys.len(),
            pv_keys_distinct(key_pairs_view(default_tree@)) ==> (forall|t: int|
                0 <= t < shape@.len() ==> count_missing_at(
                    warnings@,
                    locale@,
                    key_path_at(old(path)@, shape@, t),
                ) == count_missing_at(
                    old(warnings)@,
                    locale@,
                    key_path_at(old(path)@, shape@, t),
                ) + if has_pv_key(
                    key_pairs_view(locale_tree@),
                    #[trigger] lv_pairs_view(shape@)[t].0,
                ) {
                    0int
                } else {
                    1int
                }),
        decreases locale_tree@.len() - i,
    {
        let ghost wpre = warnings@;
        let ghost dist = pv_keys_distinct(key_pairs_view(default_tree@));
        match find_shape_key(shape, &locale_tree[i].0) {
            Some(_) => {},
            None => {
                proof {
                    if eq {
                        lemma_derived_keys_match(
                            lv_pairs_view(shape@),
                            key_pairs_view(default_tree@),
                        );
                        lemma_shape_matches_keys(
                            lv_pairs_view(shape@),
                            key_pairs_view(default_tree@),
                        );
                        lemma_lv_pairs_view(shape@);
                        lemma_key_pairs_view(default_tree@);
                        lemma_key_pairs_view(locale_tree@);
                        assert(key_pairs_view(locale_tree@)[i as int].0 == locale_tree@[i as int].0@);
                        assert(lv_pairs_view(shape@)[i as int].0 == key_pairs_view(
                            default_tree@,
                        )[i as int].0);
                        assert(lv_pairs_view(shape@)[i as int].0 == locale_tree@[i as int].0@);
                        assert(has_lv_key(lv_pairs_view(shape@), locale_tree@[i as int].0@));
                        assert(false);
                    }
                }
                let ghost before = path@;
                path.push_key(locale_tree[i].0.duplicate());
                let surplus_warning = Warning::SurplusKey {
                    locale: locale.to_owned(),
                    path: path.duplicate(),
                };
                let ghost gw = surplus_warning;
                warnings.push(surplus_warning);
                path.pop_key();
                proof {
                    assert(path@.keys =~= before.keys);
                    assert(path@ == before);
                    assert(warnings@ == wpre.push(gw));
                    assert(warning_path(gw).keys.len() == old(path)@.keys.len() + 1);
                    if dist {
                        assert forall|t: int| 0 <= t < shape@.len() implies count_missing_at(
                            warnings@,
                            locale@,
                            #[trigger] key_path_at(old(path)@, shape@, t),
                        ) == count_missing_at(
                            wpre,
                            locale@,
                            key_path_at(old(path)@, shape@, t),
                        ) by {
                            lemma_count_missing_push(
                                wpre,
                                gw,
                                locale@,
                                key_path_at(old(path)@, shape@, t),
                            );
                            assert(!is_missing_at(
                                gw,
                                locale@,
                                key_path_at(old(path)@, shape@, t),
                            ));
                        }
                    }
                }
            },
        }
        i = i + 1;
    }
    proof {
        lemma_lv_pairs_view(shape@);
        lemma_key_pairs_view(out@);
        lemma_key_pairs_view(default_tree@);
        lemma_key_pairs_view(locale_tree@);
        assert forall|t: int| 0 <= t < key_pairs_view(out@).len() implies #[trigger] lv_pairs_view(
            shape@,
        )[t].0 == key_pairs_view(out@)[t].0 by {
            assert(key_pairs_view(out@)[t] == (out@[t].0@, pv_view(&out@[t].1)));
            assert(lv_pairs_view(shape@)[t] == (shape@[t].0@, lv_view(&shape@[t].1)));
        }
        assert forall|t: int| 0 <= t < key_pairs_view(out@).len() implies shape_matches_value(
            lv_pairs_view(shape@)[t].1,
            #[trigger] key_pairs_view(out@)[t].1,
        ) by {
            assert(key_pairs_view(out@)[t] == (out@[t].0@, pv_view(&out@[t].1)));
            assert(lv_pairs_view(shape@)[t] == (shape@[t].0@, lv_view(&shape@[t].1)));
        }
        lemma_shape_matches_keys_intro(lv_pairs_view(shape@), key_pairs_view(out@));
        if inputs_free {
            lemma_fk_free_pairs(key_pairs_view(out@));
            assert forall|t: int| 0 <= t < key_pairs_view(out@).len() implies fk_free(
                #[trigger] key_pairs_view(out@)[t].1,
            ) by {
                assert(key_pairs_view(out@)[t].1 == pv_view(&out@[t].1));
            }
        }
        assert forall|t: int|
            0 <= t < shape@.len() && !has_pv_key(
                key_pairs_view(locale_tree@),
                #[trigger] key_pairs_view(out@)[t].0,
            ) implies key_pairs_view(out@)[t].1 == key_pairs_view(default_tree@)[t].1 by {
            assert(key_pairs_view(out@)[t] == (out@[t].0@, pv_view(&out@[t].1)));
            assert(key_pairs_view(default_tree@)[t] == (
                default_tree@[t].0@,
                pv_view(&default_tree@[t].1),
            ));
        }
        if eq {
            lemma_shape_derived_keys(lv_pairs_view(shape@), key_pairs_view(default_tree@));
            assert forall|t: int|
                0 <= t < key_pairs_view(out@).len() implies #[trigger] key_pairs_view(out@)[t]
                == key_pairs_view(locale_tree@)[t] by {
                assert(key_pairs_view(out@)[t] == (out@[t].0@, pv_view(&out@[t].1)));
                assert(key_pairs_view(locale_tree@)[t] == (
                    locale_tree@[t].0@,
                    pv_view(&locale_tree@[t].1),
                ));
                assert(lv_pairs_view(shape@)[t].0 == key_pairs_view(default_tree@)[t].0);
                assert(lv_pairs_view(shape@)[t] == (shape@[t].0@, lv_view(&shape@[t].1)));
                assert(key_pairs_view(locale_tree@)[t].0 == key_pairs_view(
                    default_tree@,
                )[t].0);
            }
            assert(key_pairs_view(out@) =~= key_pairs_view(locale_tree@));
        }
        assert forall|t: int|
            0 <= t < shape@.len() && !(lv_pairs_view(shape@)[t].1 is Subkeys) && has_pv_key(
                key_pairs_view(locale_tree@),
                #[trigger] lv_pairs_view(shape@)[t].0,
            ) implies (exists|i2: int|
            0 <= i2 < key_pairs_view(locale_tree@).len() && (#[trigger] key_pairs_view(
                locale_tree@,
            )[i2]).0 == lv_pairs_view(shape@)[t].0 && key_pairs_view(out@)[t].1
                == key_pairs_view(locale_tree@)[i2].1) by {
            assert(key_pairs_view(out@)[t] == (out@[t].0@, pv_view(&out@[t].1)));
            assert(lv_pairs_view(shape@)[t] == (shape@[t].0@, lv_view(&shape@[t].1)));
            let w = choose|i2: int|
                0 <= i2 < key_pairs_view(locale_tree@).len() && (#[trigger] key_pairs_view(
                    locale_tree@,
                )[i2]).0 == shape@[t].0@ && pv_view(&out@[t].1) == key_pairs_view(
                    locale_tree@,
                )[i2].1;
            assert((#[trigger] key_pairs_view(locale_tree@)[w]).0 == lv_pairs_view(
                shape@,
            )[t].0);
            assert(key_pairs_view(out@)[t].1 == key_pairs_view(locale_tree@)[w].1);
        }
    }
    Ok(out)
}

} // verus!
