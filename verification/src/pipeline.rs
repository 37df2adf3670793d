//! The resolution pipeline, end to end.
//!
//! Parsed per-locale trees go through three passes: plural and range
//! validation (every node against its own locale's rules), foreign-key
//! resolution (across namespaces, with the default locale as fallback
//! source), and the two-phase merge against the default locale's shape.
//! The outcome is the final schema — the shape of every key plus the
//! merged concrete tree of every locale, ready for a code generator —
//! and the accumulated warnings.

use vstd::prelude::*;

use crate::error::{Error, Warnings};
use crate::foreign_key::{flatten_into, resolve_value, FlatEntry, ResolveCtx};
use crate::key::{Key, KeyPath};
use crate::locale::{
    build_keys, lv_pairs_view, merge_tree, pv_keys_distinct, shape_derived_keys,
    shape_matches_keys, LocaleValue,
};
use crate::parsed_value::{
    dispatch_free, dispatch_free_pairs, fk_free, fk_free_pairs, key_pairs_view, PvView,
    lemma_dispatch_free_list, lemma_dispatch_free_pairs, lemma_fk_free_pairs,
    lemma_key_pairs_view, lemma_list_view, lemma_pairs_view, list_view, pairs_view, pv_view,
    ParsedValue,
};
use crate::parsed_value::dispatch_free_list;
use crate::plurals::{resolve_plural, spec_category_of_name, PluralRuleTable, PluralRules};
use crate::ranges::resolve_range;

verus! {

/// One locale's tree of parsed values, tagged with the locale's name.
#[derive(Debug)]
pub struct Locale {
    pub name: Key,
    pub tree: Vec<(Key, ParsedValue)>,
}

/// A named group of per-locale documents sharing one key schema.
#[derive(Debug)]
pub struct Namespace {
    pub name: Key,
    pub locales: Vec<Locale>,
}

/// The pipeline's input: one flat key space, or one per namespace.
#[derive(Debug)]
pub enum LocalesOrNamespaces {
    Locales(Vec<Locale>),
    NameSpaces(Vec<Namespace>),
}

/// The schema of one flat key space: each key with its shape, in
/// declaration order.
#[derive(Debug)]
pub struct BuildersKeysInner {
    pub keys: Vec<(Key, LocaleValue)>,
}

/// One resolved key space: its schema and every locale's merged concrete
/// tree (default locale first), each tree carrying exactly the schema's
/// keys.
#[derive(Debug)]
pub struct ResolvedKeySpace {
    pub keys: BuildersKeysInner,
    pub locales: Vec<Locale>,
}

/// The final artifact handed to a code generator.
#[derive(Debug)]
pub enum BuildersKeys {
    Locales(ResolvedKeySpace),
    NameSpaces(Vec<(Key, ResolvedKeySpace)>),
}

/// Every merged tree of the key space carries exactly the schema's keys,
/// at every depth.
pub open spec fn key_space_wf(ks: &ResolvedKeySpace) -> bool {
    forall|i: int|
        0 <= i < ks.locales@.len() ==> shape_matches_keys(
            lv_pairs_view(ks.keys.keys@),
            key_pairs_view((#[trigger] ks.locales@[i]).tree@),
        )
}

/// The errors the validation pass can raise: an illegal or missing plural
/// category, a degenerate range bound, or a malformed bound expression.
pub open spec fn validation_error(e: &Error) -> bool {
    ||| e is InvalidPluralCategory
    ||| e is MissingOtherArm
    ||| e is InvalidBoundEnd
    ||| e is ImpossibleRange
    ||| e is ParseError
}

/// No foreign-key node survives anywhere in the key space: resolution
/// replaced every one before the merge, and the merge only passes resolved
/// values on.
pub open spec fn key_space_resolved(ks: &ResolvedKeySpace) -> bool {
    forall|i: int|
        0 <= i < ks.locales@.len() ==> fk_free_pairs(
            key_pairs_view((#[trigger] ks.locales@[i]).tree@),
        )
}

/// Whether a plural node's arms are acceptable under rule `k`: every arm
/// a category the rule produces, with the mandatory `other` arm present.
pub open spec fn plural_arms_ok(
    k: crate::plurals::PluralRuleKind,
    arms: Seq<(Seq<char>, PvView)>,
) -> bool {
    &&& forall|i: int| 0 <= i < arms.len() ==> crate::plurals::arm_legal(k, (#[trigger] arms[i]).0)
    &&& exists|i: int| 0 <= i < arms.len() && (#[trigger] arms[i]).0 == "other"@
}

/// Whether a range node's arms are acceptable: every bound expression
/// parses and neither degenerate judgement fires.
pub open spec fn range_arms_ok(arms: Seq<(Seq<char>, PvView)>) -> bool {
    forall|i: int|
        0 <= i < arms.len() ==> (crate::ranges::spec_parse_range(
            (#[trigger] arms[i]).0,
        ) matches Some(b) && !crate::ranges::bound_end_invalid(b.1)
            && !crate::ranges::range_impossible(b.0, b.1))
}

/// Whether every plural and range node of the value is acceptable under
/// the locale's rules: exactly what the validation pass checks.
pub open spec fn value_valid(rules: PluralRules, v: PvView) -> bool
    decreases v, 1int,
    via value_valid_decreases
{
    match v {
        PvView::Literal(_) => true,
        PvView::Interpolation(_) => true,
        PvView::Plural { ordinal, count_var, arms } => plural_arms_ok(
            if ordinal {
                rules.ordinal
            } else {
                rules.cardinal
            },
            arms,
        ) && pairs_valid(rules, arms),
        PvView::Range { count_var, arms } => range_arms_ok(arms) && pairs_valid(rules, arms),
        PvView::ForeignKey { path, overrides } => pairs_valid(rules, overrides),
        PvView::Subkeys(entries) => pairs_valid(rules, entries),
        PvView::Block(items) => list_valid(rules, items),
    }
}

/// [`value_valid`] over every value of a pair list.
pub open spec fn pairs_valid(rules: PluralRules, s: Seq<(Seq<char>, PvView)>) -> bool
    decreases s, 0int,
    via pairs_valid_decreases
{
    if s.len() == 0 {
        true
    } else {
        value_valid(rules, s[0].1) && pairs_valid(rules, s.drop_first())
    }
}

/// [`value_valid`] over every value of a list.
pub open spec fn list_valid(rules: PluralRules, s: Seq<PvView>) -> bool
    decreases s, 0int,
    via list_valid_decreases
{
    if s.len() == 0 {
        true
    } else {
        value_valid(rules, s[0]) && list_valid(rules, s.drop_first())
    }
}

#[via_fn]
proof fn value_valid_decreases(rules: PluralRules, v: PvView) {
    match v {
        PvView::Plural { ordinal, count_var, arms } => {
            assert(decreases_to!(v => v->Plural_arms));
        },
        PvView::Range { count_var, arms } => {
            assert(decreases_to!(v => v->Range_arms));
        },
        PvView::ForeignKey { path, overrides } => {
            assert(decreases_to!(v => v->ForeignKey_overrides));
        },
        PvView::Subkeys(entries) => {
            assert(decreases_to!(v => v->Subkeys_0));
        },
        PvView::Block(items) => {
            assert(decreases_to!(v => v->Block_0));
        },
        _ => {},
    }
}

#[via_fn]
proof fn pairs_valid_decreases(rules: PluralRules, s: Seq<(Seq<char>, PvView)>) {
    if s.len() > 0 {
        assert(decreases_to!(s => s[0]));
        assert(decreases_to!(s[0] => s[0].1));
        assert(decreases_to!(s => s.drop_first()));
    }
}

#[via_fn]
proof fn list_valid_decreases(rules: PluralRules, s: Seq<PvView>) {
    if s.len() > 0 {
        assert(decreases_to!(s => s[0]));
        assert(decreases_to!(s => s.drop_first()));
    }
}

/// Pointwise reading of [`pairs_valid`].
pub proof fn lemma_pairs_valid(rules: PluralRules, s: Seq<(Seq<char>, PvView)>)
    ensures
        pairs_valid(rules, s) <==> (forall|i: int|
            0 <= i < s.len() ==> value_valid(rules, (#[trigger] s[i]).1)),
    decreases s.len(),
{
    if s.len() > 0 {
        lemma_pairs_valid(rules, s.drop_first());
        assert forall|i: int| 0 <= i < s.len() && pairs_valid(rules, s) implies value_valid(
            rules,
            (#[trigger] s[i]).1,
        ) by {
            if i > 0 {
                assert(s.drop_first()[i - 1] == s[i]);
            }
        }
        if (forall|i: int| 0 <= i < s.len() ==> value_valid(rules, (#[trigger] s[i]).1)) {
            assert forall|i: int| 0 <= i < s.drop_first().len() implies value_valid(
                rules,
                (#[trigger] s.drop_first()[i]).1,
            ) by {
                assert(s.drop_first()[i] == s[i + 1]);
            }
        }
    }
}

/// Pointwise reading of [`list_valid`].
pub proof fn lemma_list_valid(rules: PluralRules, s: Seq<PvView>)
    ensures
        list_valid(rules, s) <==> (forall|i: int|
            0 <= i < s.len() ==> value_valid(rules, #[trigger] s[i])),
    decreases s.len(),
{
    if s.len() > 0 {
        lemma_list_valid(rules, s.drop_first());
        assert forall|i: int| 0 <= i < s.len() && list_valid(rules, s) implies value_valid(
            rules,
            #[trigger] s[i],
        ) by {
            if i > 0 {
                assert(s.drop_first()[i - 1] == s[i]);
            }
        }
        if (forall|i: int| 0 <= i < s.len() ==> value_valid(rules, #[trigger] s[i])) {
            assert forall|i: int| 0 <= i < s.drop_first().len() implies value_valid(
                rules,
                #[trigger] s.drop_first()[i],
            ) by {
                assert(s.drop_first()[i] == s[i + 1]);
            }
        }
    }
}

/// Whether every locale's tree reads the same, view for view.
pub open spec fn trees_identical(locales: Seq<Locale>) -> bool {
    forall|i: int, j: int|
        0 <= i < locales.len() && 0 <= j < locales.len() ==> key_pairs_view(
            (#[trigger] locales[i]).tree@,
        ) == key_pairs_view((#[trigger] locales[j]).tree@)
}

/// Whether some locale carries the given name.
pub open spec fn default_present(locales: Seq<Locale>, name: Seq<char>) -> bool {
    exists|i: int| 0 <= i < locales.len() && (#[trigger] locales[i]).name@ == name
}

/// Whether every tree is free of references and of plural and range
/// nodes.
pub open spec fn trees_plain(locales: Seq<Locale>) -> bool {
    forall|i: int|
        0 <= i < locales.len() ==> (fk_free_pairs(
            key_pairs_view((#[trigger] locales[i]).tree@),
        ) && dispatch_free_pairs(key_pairs_view(locales[i].tree@)))
}

/// A key space on which success is owed with no warnings at all: the
/// default locale is present, every tree is identical to every other,
/// no tree holds a reference or a plural or range node, and keys are
/// unique at every level.
pub open spec fn key_space_uniform(locales: Seq<Locale>, default_name: Seq<char>) -> bool {
    &&& default_present(locales, default_name)
    &&& trees_identical(locales)
    &&& trees_plain(locales)
    &&& forall|i: int|
        0 <= i < locales.len() ==> pv_keys_distinct(
            key_pairs_view((#[trigger] locales[i]).tree@),
        )
}

/// The position of the first locale carrying the given name.
pub open spec fn first_locale_index(locales: Seq<Locale>, name: Seq<char>) -> Option<int>
    decreases locales.len(),
{
    if locales.len() == 0 {
        None
    } else if locales[0].name@ == name {
        Some(0int)
    } else {
        match first_locale_index(locales.drop_first(), name) {
            Some(k) => Some(k + 1),
            None => None,
        }
    }
}

/// What [`first_locale_index`] means position by position.
pub proof fn lemma_first_locale_index(locales: Seq<Locale>, name: Seq<char>)
    ensures
        first_locale_index(locales, name) matches Some(k) ==> 0 <= k < locales.len()
            && locales[k].name@ == name && (forall|j: int|
            0 <= j < k ==> (#[trigger] locales[j]).name@ != name),
        first_locale_index(locales, name) is None ==> (forall|j: int|
            0 <= j < locales.len() ==> (#[trigger] locales[j]).name@ != name),
    decreases locales.len(),
{
    if locales.len() > 0 && locales[0].name@ != name {
        lemma_first_locale_index(locales.drop_first(), name);
        assert(forall|j: int|
            0 <= j < locales.drop_first().len() ==> #[trigger] locales.drop_first()[j]
                == locales[j + 1]);
        match first_locale_index(locales, name) {
            Some(k) => {
                assert forall|j: int| 0 <= j < k implies (#[trigger] locales[j]).name@
                    != name by {
                    if j > 0 {
                        assert(locales.drop_first()[j - 1] == locales[j]);
                    }
                }
            },
            None => {
                assert forall|j: int| 0 <= j < locales.len() implies (
                #[trigger] locales[j]).name@ != name by {
                    if j > 0 {
                        assert(locales.drop_first()[j - 1] == locales[j]);
                    }
                }
            },
        }
    }
}

/// Whether two trees carry the same keys at the top, in the same order.
pub open spec fn same_top_keys(a: Seq<(Seq<char>, PvView)>, b: Seq<(Seq<char>, PvView)>) -> bool {
    a.len() == b.len() && (forall|t: int| 0 <= t < a.len() ==> (#[trigger] a[t]).0 == b[t].0)
}

/// Validates every plural node against the locale's rule and every range
/// arm's bounds, across a whole value.
fn validate_value(
    locale: &str,
    path: &KeyPath,
    rules: PluralRules,
    v: &ParsedValue,
    warnings: &mut Warnings,
) -> (r: Result<(), Error>)
    ensures
        r matches Err(e) ==> validation_error(&e),
        dispatch_free(v@) ==> (r is Ok && final(warnings)@ == old(warnings)@),
        r is Ok <==> value_valid(rules, v@),
    decreases v, 3int,
{
    match v {
        ParsedValue::Literal(_) => Ok(()),
        ParsedValue::Interpolation(_) => Ok(()),
        ParsedValue::Plural { ordinal, count_var, arms } => {
            proof {
                assert(decreases_to!(*v => v->Plural_arms));
            }
            let k = rules.rule(*ordinal);
            match resolve_plural(locale, path, k, arms, warnings) {
                Ok(_) => {
                    proof {
                        lemma_pairs_view(arms@);
                        assert forall|i: int|
                            0 <= i < pairs_view(arms@).len() implies crate::plurals::arm_legal(
                            k,
                            (#[trigger] pairs_view(arms@)[i]).0,
                        ) by {
                            assert(pairs_view(arms@)[i].0 == arms@[i].0@);
                        }
                        let w = choose|i: int|
                            0 <= i < arms@.len() && (#[trigger] arms@[i].0)@ == "other"@;
                        assert((#[trigger] pairs_view(arms@)[w]).0 == "other"@);
                        assert(plural_arms_ok(k, pairs_view(arms@)));
                    }
                    validate_pairs(locale, path, rules, arms, warnings)
                },
                Err(e) => {
                    proof {
                        lemma_pairs_view(arms@);
                        if plural_arms_ok(k, pairs_view(arms@)) {
                            assert forall|i: int|
                                0 <= i < arms@.len() implies (spec_category_of_name(
                                (#[trigger] arms@[i].0)@,
                            ) matches Some(c) && crate::plurals::rule_produces(k, c)) by {
                                assert(pairs_view(arms@)[i].0 == arms@[i].0@);
                                assert(crate::plurals::arm_legal(k, pairs_view(arms@)[i].0));
                            }
                            let w = choose|i: int|
                                0 <= i < pairs_view(arms@).len() && (#[trigger] pairs_view(
                                    arms@,
                                )[i]).0 == "other"@;
                            assert((#[trigger] arms@[w].0)@ == "other"@);
                            assert(false);
                        }
                    }
                    Err(e)
                },
            }
        },
        ParsedValue::Range { count_var, arms } => {
            proof {
                assert(decreases_to!(*v => v->Range_arms));
            }
            match resolve_range(locale, path, arms) {
                Ok(bounds) => {
                    proof {
                        lemma_pairs_view(arms@);
                        assert forall|i: int|
                            0 <= i < pairs_view(arms@).len() implies (
                        crate::ranges::spec_parse_range(
                            (#[trigger] pairs_view(arms@)[i]).0,
                        ) matches Some(b) && !crate::ranges::bound_end_invalid(b.1)
                            && !crate::ranges::range_impossible(b.0, b.1)) by {
                            assert(pairs_view(arms@)[i].0 == arms@[i].0@);
                            assert(crate::ranges::spec_parse_range(arms@[i].0@) == Some(
                                bounds@[i],
                            ));
                        }
                        assert(range_arms_ok(pairs_view(arms@)));
                    }
                    validate_pairs(locale, path, rules, arms, warnings)
                },
                Err(e) => {
                    proof {
                        lemma_pairs_view(arms@);
                        if range_arms_ok(pairs_view(arms@)) {
                            let w = choose|i: int|
                                0 <= i < arms@.len() && (crate::ranges::spec_parse_range(
                                    (#[trigger] arms@[i].0)@,
                                ) matches Some(b) ==> crate::ranges::bound_end_invalid(b.1)
                                    || crate::ranges::range_impossible(b.0, b.1));
                            assert(pairs_view(arms@)[w].0 == arms@[w].0@);
                            assert(false);
                        }
                    }
                    Err(e)
                },
            }
        },
        ParsedValue::ForeignKey { path: _, overrides } => {
            proof {
                assert(decreases_to!(*v => v->ForeignKey_overrides));
            }
            validate_pairs(locale, path, rules, overrides, warnings)
        },
        ParsedValue::Subkeys(entries) => {
            proof {
                assert(decreases_to!(*v => v->Subkeys_0));
            }
            validate_key_pairs(locale, path, rules, entries, warnings)
        },
        ParsedValue::Block(items) => {
            proof {
                assert(decreases_to!(*v => v->Block_0));
            }
            validate_list(locale, path, rules, items, warnings)
        },
    }
}

fn validate_pairs(
    locale: &str,
    path: &KeyPath,
    rules: PluralRules,
    pairs: &Vec<(String, ParsedValue)>,
    warnings: &mut Warnings,
) -> (r: Result<(), Error>)
    ensures
        r matches Err(e) ==> validation_error(&e),
        dispatch_free_pairs(pairs_view(pairs@)) ==> (r is Ok && final(warnings)@ == old(
            warnings,
        )@),
        r is Ok <==> pairs_valid(rules, pairs_view(pairs@)),
    decreases pairs, 0int,
{
    let ghost free = dispatch_free_pairs(pairs_view(pairs@));
    let mut i: usize = 0;
    while i < pairs.len()
        invariant
            i <= pairs@.len(),
            free == dispatch_free_pairs(pairs_view(pairs@)),
            free ==> warnings@ == old(warnings)@,
            forall|j: int|
                0 <= j < i ==> value_valid(rules, (#[trigger] pairs_view(pairs@)[j]).1),
        decreases pairs@.len() - i,
    {
        proof {
            assert(decreases_to!(*pairs => pairs@));
            assert(decreases_to!(pairs@ => pairs@[i as int]));
            assert(decreases_to!(pairs@[i as int] => pairs@[i as int].1));
            if free {
                lemma_pairs_view(pairs@);
                lemma_dispatch_free_pairs(pairs_view(pairs@));
                assert(pairs_view(pairs@)[i as int].1 == pv_view(&pairs@[i as int].1));
                assert(dispatch_free(pv_view(&pairs@[i as int].1)));
            }
        }
        match validate_value(locale, path, rules, &pairs[i].1, warnings) {
            Ok(()) => {
                proof {
                    lemma_pairs_view(pairs@);
                    assert(pairs_view(pairs@)[i as int].1 == pv_view(&pairs@[i as int].1));
                }
            },
            Err(e) => {
                proof {
                    lemma_pairs_view(pairs@);
                    lemma_pairs_valid(rules, pairs_view(pairs@));
                    assert(pairs_view(pairs@)[i as int].1 == pv_view(&pairs@[i as int].1));
                    assert(!value_valid(rules, (#[trigger] pairs_view(pairs@)[i as int]).1));
                    assert(!pairs_valid(rules, pairs_view(pairs@)));
                }
                return Err(e);
            },
        }
        i = i + 1;
    }
    proof {
        lemma_pairs_view(pairs@);
        lemma_pairs_valid(rules, pairs_view(pairs@));
        assert(pairs_valid(rules, pairs_view(pairs@)));
    }
    Ok(())
}

fn validate_key_pairs(
    locale: &str,
    path: &KeyPath,
    rules: PluralRules,
    pairs: &Vec<(Key, ParsedValue)>,
    warnings: &mut Warnings,
) -> (r: Result<(), Error>)
    ensures
        r matches Err(e) ==> validation_error(&e),
        dispatch_free_pairs(key_pairs_view(pairs@)) ==> (r is Ok && final(warnings)@ == old(
            warnings,
        )@),
        r is Ok <==> pairs_valid(rules, key_pairs_view(pairs@)),
    decreases pairs, 1int,
{
    let ghost free = dispatch_free_pairs(key_pairs_view(pairs@));
    let mut i: usize = 0;
    while i < pairs.len()
        invariant
            i <= pairs@.len(),
            free == dispatch_free_pairs(key_pairs_view(pairs@)),
            free ==> warnings@ == old(warnings)@,
            forall|j: int|
                0 <= j < i ==> value_valid(rules, (#[trigger] key_pairs_view(pairs@)[j]).1),
        decreases pairs@.len() - i,
    {
        proof {
            assert(decreases_to!(*pairs => pairs@));
            assert(decreases_to!(pairs@ => pairs@[i as int]));
            assert(decreases_to!(pairs@[i as int] => pairs@[i as int].1));
            if free {
                lemma_key_pairs_view(pairs@);
                lemma_dispatch_free_pairs(key_pairs_view(pairs@));
                assert(key_pairs_view(pairs@)[i as int].1 == pv_view(&pairs@[i as int].1));
                assert(dispatch_free(pv_view(&pairs@[i as int].1)));
            }
        }
        match validate_value(locale, path, rules, &pairs[i].1, warnings) {
            Ok(()) => {
                proof {
                    lemma_key_pairs_view(pairs@);
                    assert(key_pairs_view(pairs@)[i as int].1 == pv_view(&pairs@[i as int].1));
                }
            },
            Err(e) => {
                proof {
                    lemma_key_pairs_view(pairs@);
                    lemma_pairs_valid(rules, key_pairs_view(pairs@));
                    assert(key_pairs_view(pairs@)[i as int].1 == pv_view(&pairs@[i as int].1));
                    assert(!value_valid(
                        rules,
                        (#[trigger] key_pairs_view(pairs@)[i as int]).1,
                    ));
                    assert(!pairs_valid(rules, key_pairs_view(pairs@)));
                }
                return Err(e);
            },
        }
        i = i + 1;
    }
    proof {
        lemma_key_pairs_view(pairs@);
        lemma_pairs_valid(rules, key_pairs_view(pairs@));
        assert(pairs_valid(rules, key_pairs_view(pairs@)));
    }
    Ok(())
}

fn validate_list(
    locale: &str,
    path: &KeyPath,
    rules: PluralRules,
    items: &Vec<ParsedValue>,
    warnings: &mut Warnings,
) -> (r: Result<(), Error>)
    ensures
        r matches Err(e) ==> validation_error(&e),
        dispatch_free_list(list_view(items@)) ==> (r is Ok && final(warnings)@ == old(
            warnings,
        )@),
        r is Ok <==> list_valid(rules, list_view(items@)),
    decreases items, 2int,
{
    let ghost free = dispatch_free_list(list_view(items@));
    let mut i: usize = 0;
    while i < items.len()
        invariant
            i <= items@.len(),
            free == dispatch_free_list(list_view(items@)),
            free ==> warnings@ == old(warnings)@,
            forall|j: int| 0 <= j < i ==> value_valid(rules, #[trigger] list_view(items@)[j]),
        decreases items@.len() - i,
    {
        proof {
            assert(decreases_to!(*items => items@));
            assert(decreases_to!(items@ => items@[i as int]));
            if free {
                lemma_list_view(items@);
                lemma_dispatch_free_list(list_view(items@));
                assert(list_view(items@)[i as int] == pv_view(&items@[i as int]));
                assert(dispatch_free(pv_view(&items@[i as int])));
            }
        }
        match validate_value(locale, path, rules, &items[i], warnings) {
            Ok(()) => {
                proof {
                    lemma_list_view(items@);
                    assert(list_view(items@)[i as int] == pv_view(&items@[i as int]));
                }
            },
            Err(e) => {
                proof {
                    lemma_list_view(items@);
                    lemma_list_valid(rules, list_view(items@));
                    assert(list_view(items@)[i as int] == pv_view(&items@[i as int]));
                    assert(!value_valid(rules, #[trigger] list_view(items@)[i as int]));
                    assert(!list_valid(rules, list_view(items@)));
                }
                return Err(e);
            },
        }
        i = i + 1;
    }
    proof {
        lemma_list_view(items@);
        lemma_list_valid(rules, list_view(items@));
        assert(list_valid(rules, list_view(items@)));
    }
    Ok(())
}

/// Validates one locale tree: every plural node against the locale's
/// rules, every range arm's bounds.
pub fn validate_tree(
    locale: &str,
    namespace: Option<&Key>,
    rules: PluralRules,
    tree: &Vec<(Key, ParsedValue)>,
    warnings: &mut Warnings,
) -> (r: Result<(), Error>)
    ensures
        r matches Err(e) ==> validation_error(&e),
        dispatch_free_pairs(key_pairs_view(tree@)) ==> (r is Ok && final(warnings)@ == old(
            warnings,
        )@),
        r is Ok <==> pairs_valid(rules, key_pairs_view(tree@)),
{
    let ghost free = dispatch_free_pairs(key_pairs_view(tree@));
    let ns: Option<Key> = match namespace {
        Some(k) => Some(k.duplicate()),
        None => None,
    };
    let mut path = KeyPath::new(ns);
    let mut i: usize = 0;
    while i < tree.len()
        invariant
            i <= tree@.len(),
            free == dispatch_free_pairs(key_pairs_view(tree@)),
            free ==> warnings@ == old(warnings)@,
            forall|j: int|
                0 <= j < i ==> value_valid(rules, (#[trigger] key_pairs_view(tree@)[j]).1),
        decreases tree@.len() - i,
    {
        proof {
            if free {
                lemma_key_pairs_view(tree@);
                lemma_dispatch_free_pairs(key_pairs_view(tree@));
                assert(key_pairs_view(tree@)[i as int].1 == pv_view(&tree@[i as int].1));
                assert(dispatch_free(pv_view(&tree@[i as int].1)));
            }
        }
        path.push_key(tree[i].0.duplicate());
        let res = validate_value(locale, &path, rules, &tree[i].1, warnings);
        path.pop_key();
        match res {
            Ok(()) => {
                proof {
                    lemma_key_pairs_view(tree@);
                    assert(key_pairs_view(tree@)[i as int].1 == pv_view(&tree@[i as int].1));
                }
            },
            Err(e) => {
                proof {
                    lemma_key_pairs_view(tree@);
                    lemma_pairs_valid(rules, key_pairs_view(tree@));
                    assert(key_pairs_view(tree@)[i as int].1 == pv_view(&tree@[i as int].1));
                    assert(!value_valid(rules, (#[trigger] key_pairs_view(tree@)[i as int]).1));
                    assert(!pairs_valid(rules, key_pairs_view(tree@)));
                }
                return Err(e);
            },
        }
        i = i + 1;
    }
    proof {
        lemma_key_pairs_view(tree@);
        lemma_pairs_valid(rules, key_pairs_view(tree@));
        assert(pairs_valid(rules, key_pairs_view(tree@)));
    }
    Ok(())
}

/// Resolves the foreign keys of one locale tree against the known
/// targets; the result tree keeps the keys and holds no foreign-key node
/// anywhere below its top-level values.
pub fn resolve_tree(
    ctx: &ResolveCtx,
    namespace: Option<&Key>,
    tree: &Vec<(Key, ParsedValue)>,
    warnings: &mut Warnings,
) -> (r: Result<Vec<(Key, ParsedValue)>, Error>)
    ensures
        r matches Ok(out) ==> out@.len() == tree@.len() && (forall|j: int|
            0 <= j < tree@.len() ==> #[trigger] out@[j].0@ == tree@[j].0@) && (forall|j: int|
            0 <= j < tree@.len() ==> crate::parsed_value::fk_free(
                #[trigger] pv_view(&out@[j].1),
            )),
        fk_free_pairs(key_pairs_view(tree@)) ==> (r matches Ok(out) && final(warnings)@ == old(
            warnings,
        )@ && key_pairs_view(out@) == key_pairs_view(tree@)),
{
    let ghost free = fk_free_pairs(key_pairs_view(tree@));
    let ns: Option<Key> = match namespace {
        Some(k) => Some(k.duplicate()),
        None => None,
    };
    let mut path = KeyPath::new(ns);
    let mut stack: Vec<KeyPath> = Vec::new();
    proof {
        assert(crate::foreign_key::stack_view(stack@) =~= Seq::<
            crate::key::KeyPathView,
        >::empty());
        assert(crate::foreign_key::stack_ok(stack@, ctx.entries@));
    }
    let mut out: Vec<(Key, ParsedValue)> = Vec::new();
    let mut i: usize = 0;
    while i < tree.len()
        invariant
            i <= tree@.len(),
            out@.len() == i as int,
            crate::foreign_key::stack_ok(stack@, ctx.entries@),
            free == fk_free_pairs(key_pairs_view(tree@)),
            free ==> warnings@ == old(warnings)@,
            free ==> (forall|j: int|
                0 <= j < i ==> pv_view(&#[trigger] out@[j].1) == pv_view(&tree@[j].1)),
            forall|j: int| 0 <= j < i ==> #[trigger] out@[j].0@ == tree@[j].0@,
            forall|j: int|
                0 <= j < i ==> crate::parsed_value::fk_free(#[trigger] pv_view(&out@[j].1)),
        decreases tree@.len() - i,
    {
        proof {
            if free {
                lemma_key_pairs_view(tree@);
                lemma_fk_free_pairs(key_pairs_view(tree@));
                assert(key_pairs_view(tree@)[i as int].1 == pv_view(&tree@[i as int].1));
                assert(fk_free(pv_view(&tree@[i as int].1)));
            }
        }
        path.push_key(tree[i].0.duplicate());
        let res = resolve_value(ctx, &path, &tree[i].1, &mut stack, warnings);
        path.pop_key();
        match res {
            Ok(v) => {
                out.push((tree[i].0.duplicate(), v));
            },
            Err(e) => {
                return Err(e);
            },
        }
        i = i + 1;
    }
    proof {
        if free {
            lemma_key_pairs_view(tree@);
            lemma_key_pairs_view(out@);
            assert forall|t: int|
                0 <= t < key_pairs_view(out@).len() implies #[trigger] key_pairs_view(out@)[t]
                == key_pairs_view(tree@)[t] by {
                assert(key_pairs_view(out@)[t] == (out@[t].0@, pv_view(&out@[t].1)));
                assert(key_pairs_view(tree@)[t] == (tree@[t].0@, pv_view(&tree@[t].1)));
            }
            assert(key_pairs_view(out@) =~= key_pairs_view(tree@));
        }
    }
    Ok(out)
}

/// Builds the known-target list for resolving `locale`: every node of the
/// locale's own trees and of the default locale's trees, across every
/// namespace of the input.
fn build_entries(
    input: &LocalesOrNamespaces,
    locale_name: &Key,
    default_name: &Key,
) -> (r: Vec<FlatEntry>)
{
    let mut entries: Vec<FlatEntry> = Vec::new();
    match input {
        LocalesOrNamespaces::Locales(locales) => {
            let mut i: usize = 0;
            while i < locales.len()
                invariant
                    i <= locales@.len(),
                decreases locales@.len() - i,
            {
                if locales[i].name.same_name(locale_name) {
                    let mut path = KeyPath::new(None);
                    flatten_into(&mut path, true, &locales[i].tree, &mut entries);
                }
                i = i + 1;
            }
            let mut i2: usize = 0;
            while i2 < locales.len()
                invariant
                    i2 <= locales@.len(),
                decreases locales@.len() - i2,
            {
                if locales[i2].name.same_name(default_name) {
                    let mut path = KeyPath::new(None);
                    flatten_into(&mut path, false, &locales[i2].tree, &mut entries);
                }
                i2 = i2 + 1;
            }
        },
        LocalesOrNamespaces::NameSpaces(namespaces) => {
            let mut n: usize = 0;
            while n < namespaces.len()
                invariant
                    n <= namespaces@.len(),
                decreases namespaces@.len() - n,
            {
                let mut i: usize = 0;
                while i < namespaces[n].locales.len()
                    invariant
                        n < namespaces@.len(),
                        i <= namespaces@[n as int].locales@.len(),
                    decreases namespaces@[n as int].locales@.len() - i,
                {
                    if namespaces[n].locales[i].name.same_name(locale_name) {
                        let mut path = KeyPath::new(Some(namespaces[n].name.duplicate()));
                        flatten_into(
                            &mut path,
                            true,
                            &namespaces[n].locales[i].tree,
                            &mut entries,
                        );
                    }
                    i = i + 1;
                }
                let mut i2: usize = 0;
                while i2 < namespaces[n].locales.len()
                    invariant
                        n < namespaces@.len(),
                        i2 <= namespaces@[n as int].locales@.len(),
                    decreases namespaces@[n as int].locales@.len() - i2,
                {
                    if namespaces[n].locales[i2].name.same_name(default_name) {
                        let mut path = KeyPath::new(Some(namespaces[n].name.duplicate()));
                        flatten_into(
                            &mut path,
                            false,
                            &namespaces[n].locales[i2].tree,
                            &mut entries,
                        );
                    }
                    i2 = i2 + 1;
                }
                n = n + 1;
            }
        },
    }
    entries
}

/// Resolves one flat key space: validates and foreign-key-resolves every
/// locale's tree, derives the shape from the default locale, and merges
/// every other locale against it. The default locale must be among the
/// locales.
///
/// The schema always lists exactly the top-level keys of the first locale
/// named as the default, in order; with a reference-free default tree the
/// schema's keys equal that input tree's keys at every depth. On a
/// uniform key space success is owed and no warning is recorded.
pub fn resolve_key_space(
    input: &LocalesOrNamespaces,
    namespace: Option<&Key>,
    locales: &Vec<Locale>,
    default_name: &Key,
    rule_table: &PluralRuleTable,
    warnings: &mut Warnings,
) -> (r: Result<ResolvedKeySpace, Error>)
    ensures
        r matches Ok(ks) ==> key_space_wf(&ks) && key_space_resolved(&ks) && ks.locales@.len()
            == locales@.len(),
        key_space_uniform(locales@, default_name@) ==> (r is Ok && final(warnings)@ == old(
            warnings,
        )@),
        r matches Ok(ks) ==> (first_locale_index(locales@, default_name@) matches Some(d0)
            && lv_pairs_view(ks.keys.keys@).len() == key_pairs_view(
            locales@[d0].tree@,
        ).len() && (forall|t: int|
            0 <= t < lv_pairs_view(ks.keys.keys@).len() ==> (#[trigger] lv_pairs_view(
                ks.keys.keys@,
            )[t]).0 == key_pairs_view(locales@[d0].tree@)[t].0)),
        r matches Ok(ks) ==> (first_locale_index(locales@, default_name@) matches Some(d0)
            ==> (fk_free_pairs(key_pairs_view(locales@[d0].tree@)) ==> shape_derived_keys(
            lv_pairs_view(ks.keys.keys@),
            key_pairs_view(locales@[d0].tree@),
        ))),
{
    let ghost uniform = key_space_uniform(locales@, default_name@);
    // Validate and resolve every locale's tree, remembering which one is
    // the default.
    let mut resolved: Vec<Locale> = Vec::new();
    let mut default_at: Option<usize> = None;
    let mut i: usize = 0;
    while i < locales.len()
        invariant
            i <= locales@.len(),
            resolved@.len() == i as int,
            uniform == key_space_uniform(locales@, default_name@),
            uniform ==> warnings@ == old(warnings)@,
            forall|j: int| 0 <= j < i ==> (#[trigger] resolved@[j]).name@ == locales@[j].name@,
            forall|j: int|
                0 <= j < i ==> same_top_keys(
                    key_pairs_view((#[trigger] resolved@[j]).tree@),
                    key_pairs_view(locales@[j].tree@),
                ),
            forall|j: int|
                0 <= j < i ==> (fk_free_pairs(key_pairs_view(locales@[j].tree@))
                    ==> key_pairs_view((#[trigger] resolved@[j]).tree@) == key_pairs_view(
                    locales@[j].tree@,
                )),
            default_at matches Some(d) ==> d < i && resolved@[d as int].name@ == default_name@
                && (forall|x: int|
                0 <= x < d ==> (#[trigger] locales@[x]).name@ != default_name@),
            default_at is None ==> (forall|x: int|
                0 <= x < i ==> (#[trigger] locales@[x]).name@ != default_name@),
            forall|j: int|
                0 <= j < i ==> fk_free_pairs(key_pairs_view((#[trigger] resolved@[j]).tree@)),
        decreases locales@.len() - i,
    {
        proof {
            if uniform {
                assert(fk_free_pairs(key_pairs_view((#[trigger] locales@[i as int]).tree@))
                    && dispatch_free_pairs(key_pairs_view(locales@[i as int].tree@)));
            }
        }
        let name: &Key = &locales[i].name;
        let rules = rule_table.rules_for(name.as_str());
        match validate_tree(name.as_str(), namespace, rules, &locales[i].tree, warnings) {
            Ok(()) => {},
            Err(e) => {
                return Err(e);
            },
        }
        let entries = build_entries(input, name, default_name);
        let ctx = ResolveCtx { entries, locale: name.as_str().to_owned(), rules };
        let tree = match resolve_tree(&ctx, namespace, &locales[i].tree, warnings) {
            Ok(t) => t,
            Err(e) => {
                return Err(e);
            },
        };
        proof {
            lemma_key_pairs_view(tree@);
            lemma_key_pairs_view(locales@[i as int].tree@);
            lemma_fk_free_pairs(key_pairs_view(tree@));
            assert forall|t: int| 0 <= t < key_pairs_view(tree@).len() implies fk_free(
                #[trigger] key_pairs_view(tree@)[t].1,
            ) by {
                assert(key_pairs_view(tree@)[t].1 == pv_view(&tree@[t].1));
            }
            assert forall|t: int|
                0 <= t < key_pairs_view(tree@).len() implies (#[trigger] key_pairs_view(
                tree@,
            )[t]).0 == key_pairs_view(locales@[i as int].tree@)[t].0 by {
                assert(key_pairs_view(tree@)[t] == (tree@[t].0@, pv_view(&tree@[t].1)));
                assert(key_pairs_view(locales@[i as int].tree@)[t] == (
                    locales@[i as int].tree@[t].0@,
                    pv_view(&locales@[i as int].tree@[t].1),
                ));
            }
            assert(same_top_keys(key_pairs_view(tree@), key_pairs_view(
                locales@[i as int].tree@,
            )));
        }
        if name.same_name(default_name) && default_at.is_none() {
            default_at = Some(i);
        }
        resolved.push(Locale { name: name.duplicate(), tree });
        i = i + 1;
    }
    let d: usize = match default_at {
        Some(d) => d,
        None => {
            proof {
                if uniform {
                    let w = choose|w: int|
                        0 <= w < locales@.len() && (#[trigger] locales@[w]).name@
                            == default_name@;
                    assert(false);
                }
            }
            return Err(Error::ConfigFileDefaultMissing(default_name.as_str().to_owned()));
        },
    };
    proof {
        lemma_first_locale_index(locales@, default_name@);
        match first_locale_index(locales@, default_name@) {
            Some(k) => {
                if k < d as int {
                    assert(locales@[k].name@ != default_name@);
                }
                if k > d as int {
                    assert(locales@[d as int].name@ != default_name@);
                }
                assert(k == d as int);
            },
            None => {
                assert(locales@[d as int].name@ != default_name@);
                assert(false);
            },
        }
        assert(first_locale_index(locales@, default_name@) == Some(d as int));
    }
    // Phase A: the shape, from the default locale's resolved tree.
    let ns: Option<Key> = match namespace {
        Some(k) => Some(k.duplicate()),
        None => None,
    };
    let mut path = KeyPath::new(ns);
    proof {
        if uniform {
            assert(fk_free_pairs(key_pairs_view((#[trigger] locales@[d as int]).tree@))
                && dispatch_free_pairs(key_pairs_view(locales@[d as int].tree@)));
            assert(key_pairs_view(resolved@[d as int].tree@) == key_pairs_view(
                locales@[d as int].tree@,
            ));
        }
    }
    let shape = match build_keys(resolved[d].name.as_str(), &mut path, &resolved[d].tree) {
        Ok(s) => s,
        Err(e) => {
            return Err(e);
        },
    };
    // Phase B: merge every locale against the shape; the default's own
    // merge leaves it as it stands and produces no warnings.
    let mut merged: Vec<Locale> = Vec::new();
    let mut m: usize = 0;
    while m < resolved.len()
        invariant
            m <= resolved@.len(),
            d < resolved@.len(),
            resolved@.len() == locales@.len(),
            merged@.len() == m as int,
            uniform == key_space_uniform(locales@, default_name@),
            uniform ==> warnings@ == old(warnings)@,
            forall|j: int|
                0 <= j < locales@.len() ==> (fk_free_pairs(key_pairs_view(locales@[j].tree@))
                    ==> key_pairs_view((#[trigger] resolved@[j]).tree@) == key_pairs_view(
                    locales@[j].tree@,
                )),
            shape_derived_keys(
                lv_pairs_view(shape@),
                key_pairs_view(resolved@[d as int].tree@),
            ),
            forall|j: int|
                0 <= j < resolved@.len() ==> fk_free_pairs(
                    key_pairs_view((#[trigger] resolved@[j]).tree@),
                ),
            forall|j: int|
                0 <= j < m ==> shape_matches_keys(
                    lv_pairs_view(shape@),
                    key_pairs_view((#[trigger] merged@[j]).tree@),
                ),
            forall|j: int|
                0 <= j < m ==> fk_free_pairs(key_pairs_view((#[trigger] merged@[j]).tree@)),
        decreases resolved@.len() - m,
    {
        proof {
            if uniform {
                assert(fk_free_pairs(key_pairs_view((#[trigger] locales@[m as int]).tree@)));
                assert(fk_free_pairs(key_pairs_view((#[trigger] locales@[d as int]).tree@)));
                assert(key_pairs_view(resolved@[m as int].tree@) == key_pairs_view(
                    locales@[m as int].tree@,
                ));
                assert(key_pairs_view(resolved@[d as int].tree@) == key_pairs_view(
                    locales@[d as int].tree@,
                ));
                assert(key_pairs_view((#[trigger] locales@[m as int]).tree@) == key_pairs_view(
                    (#[trigger] locales@[d as int]).tree@,
                ));
                assert(pv_keys_distinct(key_pairs_view((#[trigger] locales@[d as int]).tree@)));
                assert(pv_keys_distinct(key_pairs_view(resolved@[d as int].tree@)));
                assert(key_pairs_view(resolved@[m as int].tree@) == key_pairs_view(
                    resolved@[d as int].tree@,
                ));
            }
        }
        let tree = match merge_tree(
            resolved[m].name.as_str(),
            &mut path,
            &shape,
            &resolved[d].tree,
            &resolved[m].tree,
            warnings,
        ) {
            Ok(t) => t,
            Err(e) => {
                return Err(e);
            },
        };
        merged.push(Locale { name: resolved[m].name.duplicate(), tree });
        m = m + 1;
    }
    let ks = ResolvedKeySpace { keys: BuildersKeysInner { keys: shape }, locales: merged };
    proof {
        crate::locale::lemma_shape_derived_keys(
            lv_pairs_view(ks.keys.keys@),
            key_pairs_view(resolved@[d as int].tree@),
        );
        assert forall|t: int|
            0 <= t < lv_pairs_view(ks.keys.keys@).len() implies (#[trigger] lv_pairs_view(
            ks.keys.keys@,
        )[t]).0 == key_pairs_view(locales@[d as int].tree@)[t].0 by {
            assert(lv_pairs_view(ks.keys.keys@)[t].0 == key_pairs_view(
                resolved@[d as int].tree@,
            )[t].0);
            assert(same_top_keys(
                key_pairs_view(resolved@[d as int].tree@),
                key_pairs_view(locales@[d as int].tree@),
            ));
        }
        if fk_free_pairs(key_pairs_view(locales@[d as int].tree@)) {
            assert(key_pairs_view(resolved@[d as int].tree@) == key_pairs_view(
                locales@[d as int].tree@,
            ));
        }
    }
    Ok(ks)
}

/// Runs the whole pipeline: every key space of the input is validated,
/// foreign-key-resolved and merged against the default locale named by
/// `default_name`. On success every merged tree carries exactly its
/// schema's keys, at every depth.
pub fn load_locales(
    input: &LocalesOrNamespaces,
    default_name: &Key,
    rule_table: &PluralRuleTable,
    warnings: &mut Warnings,
) -> (r: Result<BuildersKeys, Error>)
    ensures
        r matches Ok(bk) ==> (bk matches BuildersKeys::Locales(ks) ==> key_space_wf(&ks)
            && key_space_resolved(&ks)),
        r matches Ok(bk) ==> (bk matches BuildersKeys::NameSpaces(spaces) ==> forall|n: int|
            0 <= n < spaces@.len() ==> key_space_wf(&(#[trigger] spaces@[n]).1)
                && key_space_resolved(&(#[trigger] spaces@[n]).1)),
        input matches LocalesOrNamespaces::Locales(ls) ==> (key_space_uniform(
            ls@,
            default_name@,
        ) ==> (r is Ok && final(warnings)@ == old(warnings)@)),
        input matches LocalesOrNamespaces::NameSpaces(nss) ==> ((forall|n: int|
            0 <= n < nss@.len() ==> key_space_uniform(
                (#[trigger] nss@[n]).locales@,
                default_name@,
            )) ==> (r is Ok && final(warnings)@ == old(warnings)@)),
        input matches LocalesOrNamespaces::Locales(ls) ==> (r matches Ok(bk) ==> (bk matches
        BuildersKeys::Locales(ks) && (first_locale_index(ls@, default_name@) matches Some(d0)
            && lv_pairs_view(ks.keys.keys@).len() == key_pairs_view(ls@[d0].tree@).len() && (
        forall|t: int|
            0 <= t < lv_pairs_view(ks.keys.keys@).len() ==> (#[trigger] lv_pairs_view(
                ks.keys.keys@,
            )[t]).0 == key_pairs_view(ls@[d0].tree@)[t].0) && (fk_free_pairs(
            key_pairs_view(ls@[d0].tree@),
        ) ==> shape_derived_keys(
            lv_pairs_view(ks.keys.keys@),
            key_pairs_view(ls@[d0].tree@),
        ))))),
{
    match input {
        LocalesOrNamespaces::Locales(locales) => {
            match resolve_key_space(input, None, locales, default_name, rule_table, warnings) {
                Ok(ks) => Ok(BuildersKeys::Locales(ks)),
                Err(e) => Err(e),
            }
        },
        LocalesOrNamespaces::NameSpaces(namespaces) => {
            let ghost all_uniform = forall|t: int|
                0 <= t < namespaces@.len() ==> key_space_uniform(
                    (#[trigger] namespaces@[t]).locales@,
                    default_name@,
                );
            let mut spaces: Vec<(Key, ResolvedKeySpace)> = Vec::new();
            let mut n: usize = 0;
            while n < namespaces.len()
                invariant
                    n <= namespaces@.len(),
                    spaces@.len() == n as int,
                    input matches LocalesOrNamespaces::NameSpaces(nss2) && nss2@
                        == namespaces@,
                    all_uniform == (forall|t: int|
                        0 <= t < namespaces@.len() ==> key_space_uniform(
                            (#[trigger] namespaces@[t]).locales@,
                            default_name@,
                        )),
                    all_uniform ==> warnings@ == old(warnings)@,
                    forall|t: int|
                        0 <= t < n ==> key_space_wf(&(#[trigger] spaces@[t]).1)
                            && key_space_resolved(&(#[trigger] spaces@[t]).1),
                decreases namespaces@.len() - n,
            {
                proof {
                    if all_uniform {
                        assert(key_space_uniform(
                            (#[trigger] namespaces@[n as int]).locales@,
                            default_name@,
                        ));
                    }
                }
                let ks = match resolve_key_space(
                    input,
                    Some(&namespaces[n].name),
                    &namespaces[n].locales,
                    default_name,
                    rule_table,
                    warnings,
                ) {
                    Ok(ks) => ks,
                    Err(e) => {
                        return Err(e);
                    },
                };
                spaces.push((namespaces[n].name.duplicate(), ks));
                n = n + 1;
            }
            Ok(BuildersKeys::NameSpaces(spaces))
        },
    }
}

} // verus!
