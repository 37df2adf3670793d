//! The plural resolver: category names, per-locale rules, validation and
//! selection.
//!
//! A locale's plural rule — cardinal or ordinal — maps a count to one of
//! six grammatical categories. The rules themselves are data: a read-only
//! table keyed by locale name, injected into the pipeline, so locale
//! coverage can grow without touching the resolver. A plural node must
//! supply the `other` arm and may supply only categories its locale's rule
//! can produce; a category the rule can produce but the author left out
//! falls back to the `other` arm at selection time.

use vstd::prelude::*;

use crate::error::{Error, Warning, Warnings};
use crate::key::KeyPath;
use crate::parsed_value::ParsedValue;
use crate::text::str_eq;

verus! {

/// One grammatical plural category.
#[derive(Clone, Copy, Debug, PartialEq, Eq, Structural)]
pub enum PluralCategory {
    Zero,
    One,
    Two,
    Few,
    Many,
    Other,
}

/// The category a name denotes, if any.
pub open spec fn spec_category_of_name(s: Seq<char>) -> Option<PluralCategory> {
    if s == "zero"@ {
        Some(PluralCategory::Zero)
    } else if s == "one"@ {
        Some(PluralCategory::One)
    } else if s == "two"@ {
        Some(PluralCategory::Two)
    } else if s == "few"@ {
        Some(PluralCategory::Few)
    } else if s == "many"@ {
        Some(PluralCategory::Many)
    } else if s == "other"@ {
        Some(PluralCategory::Other)
    } else {
        None
    }
}

/// Executable reading of a category name.
pub fn category_of_name(s: &str) -> (r: Option<PluralCategory>)
    ensures
        r == spec_category_of_name(s@),
{
    if str_eq(s, "zero") {
        Some(PluralCategory::Zero)
    } else if str_eq(s, "one") {
        Some(PluralCategory::One)
    } else if str_eq(s, "two") {
        Some(PluralCategory::Two)
    } else if str_eq(s, "few") {
        Some(PluralCategory::Few)
    } else if str_eq(s, "many") {
        Some(PluralCategory::Many)
    } else if str_eq(s, "other") {
        Some(PluralCategory::Other)
    } else {
        None
    }
}

/// One plural rule: a fixed function from a count to a category. Each
/// variant names the family of locales it serves in the built-in table.
#[derive(Clone, Copy, Debug, PartialEq, Eq, Structural)]
pub enum PluralRuleKind {
    /// `one` exactly for a count of one; English-style cardinals.
    CardinalOneOther,
    /// `one` for zero and one, `many` for positive multiples of a million;
    /// French-style cardinals.
    CardinalFrench,
    /// `one`/`two`/`few` by the last digit as English ordinals go
    /// (1st, 2nd, 3rd, 11th…).
    OrdinalEnglish,
    /// `one` exactly for a count of one; French-style ordinals.
    OrdinalOneOther,
    /// Only `other`; locales without grammatical number distinctions.
    OtherOnly,
}

/// Whether rule `k` can ever produce category `c`.
pub open spec fn rule_produces(k: PluralRuleKind, c: PluralCategory) -> bool {
    match k {
        PluralRuleKind::CardinalOneOther => c == PluralCategory::One || c == PluralCategory::Other,
        PluralRuleKind::CardinalFrench => c == PluralCategory::One || c == PluralCategory::Many
            || c == PluralCategory::Other,
        PluralRuleKind::OrdinalEnglish => c == PluralCategory::One || c == PluralCategory::Two
            || c == PluralCategory::Few || c == PluralCategory::Other,
        PluralRuleKind::OrdinalOneOther => c == PluralCategory::One || c == PluralCategory::Other,
        PluralRuleKind::OtherOnly => c == PluralCategory::Other,
    }
}

/// Executable check matching [`rule_produces`].
pub fn check_rule_produces(k: PluralRuleKind, c: PluralCategory) -> (r: bool)
    ensures
        r == rule_produces(k, c),
{
    match k {
        PluralRuleKind::CardinalOneOther => c == PluralCategory::One || c == PluralCategory::Other,
        PluralRuleKind::CardinalFrench => c == PluralCategory::One || c == PluralCategory::Many
            || c == PluralCategory::Other,
        PluralRuleKind::OrdinalEnglish => c == PluralCategory::One || c == PluralCategory::Two
            || c == PluralCategory::Few || c == PluralCategory::Other,
        PluralRuleKind::OrdinalOneOther => c == PluralCategory::One || c == PluralCategory::Other,
        PluralRuleKind::OtherOnly => c == PluralCategory::Other,
    }
}

/// The category rule `k` assigns to count `n`. Negative counts take
/// `other` except where a rule names them directly.
pub open spec fn spec_category_of(k: PluralRuleKind, n: int) -> PluralCategory {
    match k {
        PluralRuleKind::CardinalOneOther => if n == 1 {
            PluralCategory::One
        } else {
            PluralCategory::Other
        },
        PluralRuleKind::CardinalFrench => if n == 0 || n == 1 {
            PluralCategory::One
        } else if n > 0 && n % 1000000 == 0 {
            PluralCategory::Many
        } else {
            PluralCategory::Other
        },
        PluralRuleKind::OrdinalEnglish => if n > 0 && n % 10 == 1 && n % 100 != 11 {
            PluralCategory::One
        } else if n > 0 && n % 10 == 2 && n % 100 != 12 {
            PluralCategory::Two
        } else if n > 0 && n % 10 == 3 && n % 100 != 13 {
            PluralCategory::Few
        } else {
            PluralCategory::Other
        },
        PluralRuleKind::OrdinalOneOther => if n == 1 {
            PluralCategory::One
        } else {
            PluralCategory::Other
        },
        PluralRuleKind::OtherOnly => PluralCategory::Other,
    }
}

/// Applies rule `k` to count `n`; the result is always one the rule
/// produces.
pub fn category_of(k: PluralRuleKind, n: i64) -> (r: PluralCategory)
    ensures
        r == spec_category_of(k, n as int),
        rule_produces(k, r),
{
    match k {
        PluralRuleKind::CardinalOneOther => {
            if n == 1 {
                PluralCategory::One
            } else {
                PluralCategory::Other
            }
        },
        PluralRuleKind::CardinalFrench => {
            if n == 0 || n == 1 {
                PluralCategory::One
            } else if n > 0 && n % 1000000 == 0 {
                PluralCategory::Many
            } else {
                PluralCategory::Other
            }
        },
        PluralRuleKind::OrdinalEnglish => {
            if n > 0 && n % 10 == 1 && n % 100 != 11 {
                PluralCategory::One
            } else if n > 0 && n % 10 == 2 && n % 100 != 12 {
                PluralCategory::Two
            } else if n > 0 && n % 10 == 3 && n % 100 != 13 {
                PluralCategory::Few
            } else {
                PluralCategory::Other
            }
        },
        PluralRuleKind::OrdinalOneOther => {
            if n == 1 {
                PluralCategory::One
            } else {
                PluralCategory::Other
            }
        },
        PluralRuleKind::OtherOnly => PluralCategory::Other,
    }
}

/// The two rules of one locale.
#[derive(Clone, Copy, Debug, PartialEq, Eq, Structural)]
pub struct PluralRules {
    pub cardinal: PluralRuleKind,
    pub ordinal: PluralRuleKind,
}

impl PluralRules {
    /// The rule for one mode.
    pub fn rule(&self, ordinal: bool) -> (r: PluralRuleKind)
        ensures
            r == if ordinal {
                self.ordinal
            } else {
                self.cardinal
            },
    {
        if ordinal {
            self.ordinal
        } else {
            self.cardinal
        }
    }
}

/// The rules used for a locale the table does not name: English-style
/// cardinals, only `other` for ordinals.
pub open spec fn default_rules() -> PluralRules {
    PluralRules {
        cardinal: PluralRuleKind::CardinalOneOther,
        ordinal: PluralRuleKind::OtherOnly,
    }
}

/// The first entry of `entries` named `name`, or the default rules.
pub open spec fn spec_lookup_rules(
    entries: Seq<(Seq<char>, PluralRules)>,
    name: Seq<char>,
) -> PluralRules
    decreases entries.len(),
{
    if entries.len() == 0 {
        default_rules()
    } else if entries[0].0 == name {
        entries[0].1
    } else {
        spec_lookup_rules(entries.drop_first(), name)
    }
}

/// The injected read-only table of per-locale plural rules.
pub struct PluralRuleTable {
    entries: Vec<(String, PluralRules)>,
}

impl View for PluralRuleTable {
    type V = Seq<(Seq<char>, PluralRules)>;

    closed spec fn view(&self) -> Seq<(Seq<char>, PluralRules)> {
        self.entries@.map_values(|e: (String, PluralRules)| (e.0@, e.1))
    }
}

impl PluralRuleTable {
    /// An empty table: every locale gets the default rules.
    pub fn new() -> (r: PluralRuleTable)
        ensures
            r@ == Seq::<(Seq<char>, PluralRules)>::empty(),
    {
        let r = PluralRuleTable { entries: Vec::new() };
        proof {
            assert(r@ =~= Seq::<(Seq<char>, PluralRules)>::empty());
        }
        r
    }

    /// Adds one locale's rules at the end of the table.
    pub fn insert(&mut self, locale: String, rules: PluralRules)
        ensures
            final(self)@ == old(self)@.push((locale@, rules)),
    {
        let ghost before = self@;
        self.entries.push((locale, rules));
        proof {
            assert(self@ =~= before.push((self.entries@.last().0@, self.entries@.last().1)));
        }
    }

    /// The rules for `locale`: the first entry of that name, or the
    /// default rules when none is named.
    pub fn rules_for(&self, locale: &str) -> (r: PluralRules)
        ensures
            r == spec_lookup_rules(self@, locale@),
    {
        proof {
            assert(self@.skip(0) =~= self@);
        }
        let mut i: usize = 0;
        while i < self.entries.len()
            invariant
                i <= self.entries@.len(),
                self@.len() == self.entries@.len(),
                forall|j: int| 0 <= j < self@.len() ==> #[trigger] self@[j] == (
                    self.entries@[j].0@,
                    self.entries@[j].1,
                ),
                spec_lookup_rules(self@, locale@) == spec_lookup_rules(
                    self@.skip(i as int),
                    locale@,
                ),
            decreases self.entries@.len() - i,
        {
            proof {
                assert(self@.skip(i as int)[0] == self@[i as int]);
            }
            if str_eq(self.entries[i].0.as_str(), locale) {
                return self.entries[i].1;
            }
            proof {
                assert(self@.skip(i as int).drop_first() =~= self@.skip(i as int + 1));
            }
            i = i + 1;
        }
        proof {
            assert(self@.skip(i as int) =~= Seq::<(Seq<char>, PluralRules)>::empty());
        }
        PluralRules {
            cardinal: PluralRuleKind::CardinalOneOther,
            ordinal: PluralRuleKind::OtherOnly,
        }
    }

    /// The built-in table: a handful of common locales. The rules are
    /// data, not logic; a caller may build and inject its own table
    /// instead.
    pub fn builtin() -> (r: PluralRuleTable) {
        let mut t = PluralRuleTable { entries: Vec::new() };
        t.insert(
            "en".to_owned(),
            PluralRules {
                cardinal: PluralRuleKind::CardinalOneOther,
                ordinal: PluralRuleKind::OrdinalEnglish,
            },
        );
        t.insert(
            "fr".to_owned(),
            PluralRules {
                cardinal: PluralRuleKind::CardinalFrench,
                ordinal: PluralRuleKind::OrdinalOneOther,
            },
        );
        t.insert(
            "de".to_owned(),
            PluralRules {
                cardinal: PluralRuleKind::CardinalOneOther,
                ordinal: PluralRuleKind::OtherOnly,
            },
        );
        t.insert(
            "es".to_owned(),
            PluralRules {
                cardinal: PluralRuleKind::CardinalOneOther,
                ordinal: PluralRuleKind::OtherOnly,
            },
        );
        t.insert(
            "it".to_owned(),
            PluralRules {
                cardinal: PluralRuleKind::CardinalOneOther,
                ordinal: PluralRuleKind::OtherOnly,
            },
        );
        t
    }
}

/// Whether some arm of `arms` is named `other`.
pub open spec fn has_other_arm(arms: Seq<(Seq<char>, crate::parsed_value::PvView)>) -> bool {
    exists|i: int| 0 <= i < arms.len() && #[trigger] arms[i].0 == "other"@
}

/// Whether the arm name is a category that rule `k` can produce.
pub open spec fn arm_legal(k: PluralRuleKind, name: Seq<char>) -> bool {
    spec_category_of_name(name) matches Some(c) && rule_produces(k, c)
}

/// Whether some authored arm is named `other`.
pub open spec fn has_other_arm_names(arms: Seq<(String, ParsedValue)>) -> bool {
    exists|i: int| 0 <= i < arms.len() && (#[trigger] arms[i].0)@ == "other"@
}

/// Validates one plural node's arms against rule `k` and builds its
/// dispatch table: each arm's category paired with the arm's index, in
/// authored order, duplicates dropped with a warning.
///
/// Fails with `InvalidPluralCategory` exactly when an arm's name is not a
/// category the rule can produce, and with `MissingOtherArm` exactly when
/// the (otherwise legal) arms lack `other`.
pub fn resolve_plural(
    locale: &str,
    path: &KeyPath,
    k: PluralRuleKind,
    arms: &Vec<(String, ParsedValue)>,
    warnings: &mut Warnings,
) -> (r: Result<Vec<(PluralCategory, usize)>, Error>)
    ensures
        r is Ok ==> (forall|i: int|
            0 <= i < arms@.len() ==> (spec_category_of_name(#[trigger] arms@[i].0@) matches Some(c)
                && rule_produces(k, c))),
        r is Ok ==> (exists|i: int|
            0 <= i < arms@.len() && #[trigger] arms@[i].0@ == "other"@),
        r matches Ok(table) ==> (forall|t: int|
            0 <= t < table@.len() ==> #[trigger] table@[t].1 < arms@.len()
                && spec_category_of_name(arms@[table@[t].1 as int].0@) == Some(table@[t].0)),
        (forall|i: int|
            0 <= i < arms@.len() ==> (spec_category_of_name(#[trigger] arms@[i].0@) matches Some(
                c,
            ) && rule_produces(k, c))) && (exists|i: int|
            0 <= i < arms@.len() && #[trigger] arms@[i].0@ == "other"@) ==> r is Ok,
        r matches Err(e) ==> (e is InvalidPluralCategory || e is MissingOtherArm),
        (exists|i: int| 0 <= i < arms@.len() && !arm_legal(k, #[trigger] arms@[i].0@)) ==> (
        r matches Err(e) && e matches Error::InvalidPluralCategory {
            locale: l,
            path: p,
            category: c,
        } && l@ == locale@ && p@ == path@ && (exists|i: int|
            0 <= i < arms@.len() && #[trigger] arms@[i].0@ == c@ && !arm_legal(k, arms@[i].0@)
                && (forall|t: int| 0 <= t < i ==> arm_legal(k, #[trigger] arms@[t].0@)))),
        (forall|i: int| 0 <= i < arms@.len() ==> arm_legal(k, #[trigger] arms@[i].0@))
            && !has_other_arm_names(arms@) ==> (r matches Err(e)
            && e matches Error::MissingOtherArm { locale: l, path: p } && l@ == locale@ && p@
            == path@),
{
    let mut table: Vec<(PluralCategory, usize)> = Vec::new();
    let mut saw_other: bool = false;
    let mut i: usize = 0;
    while i < arms.len()
        invariant
            i <= arms@.len(),
            forall|j: int|
                0 <= j < i ==> (spec_category_of_name(#[trigger] arms@[j].0@) matches Some(c)
                    && rule_produces(k, c)),
            saw_other <==> (exists|j: int| 0 <= j < i && #[trigger] arms@[j].0@ == "other"@),
            forall|t: int|
                0 <= t < table@.len() ==> #[trigger] table@[t].1 < i
                    && spec_category_of_name(arms@[table@[t].1 as int].0@) == Some(table@[t].0),
        decreases arms@.len() - i,
    {
        let name: &str = arms[i].0.as_str();
        let cat: PluralCategory = match category_of_name(name) {
            Some(c) => c,
            None => {
                return Err(
                    Error::InvalidPluralCategory {
                        locale: locale.to_owned(),
                        path: path.duplicate(),
                        category: name.to_owned(),
                    },
                );
            },
        };
        if !check_rule_produces(k, cat) {
            return Err(
                Error::InvalidPluralCategory {
                    locale: locale.to_owned(),
                    path: path.duplicate(),
                    category: name.to_owned(),
                },
            );
        }
        proof {
            reveal_strlit("zero");
            reveal_strlit("one");
            reveal_strlit("two");
            reveal_strlit("few");
            reveal_strlit("many");
            reveal_strlit("other");
            assert("other"@.len() == 5);
            assert("zero"@.len() == 4);
            if cat == PluralCategory::Other {
                assert(arms@[i as int].0@ == "other"@);
            } else {
                assert(arms@[i as int].0@ != "other"@);
            }
        }
        if cat == PluralCategory::Other {
            saw_other = true;
        }
        // A category already in the table would be shadowed: warn and drop.
        let mut dup: bool = false;
        let mut t: usize = 0;
        while t < table.len()
            invariant
                t <= table@.len(),
            decreases table@.len() - t,
        {
            if table[t].0 == cat {
                dup = true;
            }
            t = t + 1;
        }
        if dup {
            warnings.push(
                Warning::UnusedPluralCategory {
                    locale: locale.to_owned(),
                    path: path.duplicate(),
                    category: name.to_owned(),
                },
            );
        } else {
            table.push((cat, i));
        }
        i = i + 1;
    }
    if !saw_other {
        return Err(
            Error::MissingOtherArm { locale: locale.to_owned(), path: path.duplicate() },
        );
    }
    Ok(table)
}

/// Selects the arm for category `c`: the arm authored for `c`, or the
/// `other` arm when the author left `c` out.
pub fn select_arm(table: &Vec<(PluralCategory, usize)>, c: PluralCategory) -> (r: Option<usize>)
    ensures
        (exists|t: int| 0 <= t < table@.len() && #[trigger] table@[t].0 == c) ==> (r matches Some(
            a,
        ) && (exists|t: int|
            0 <= t < table@.len() && #[trigger] table@[t].0 == c && table@[t].1 == a)),
        (forall|t: int| 0 <= t < table@.len() ==> #[trigger] table@[t].0 != c) && (exists|t: int|
            0 <= t < table@.len() && #[trigger] table@[t].0 == PluralCategory::Other) ==> (
        r matches Some(a) && (exists|t: int|
            0 <= t < table@.len() && #[trigger] table@[t].0 == PluralCategory::Other
                && table@[t].1 == a)),
{
    let mut t: usize = 0;
    while t < table.len()
        invariant
            t <= table@.len(),
            forall|j: int| 0 <= j < t ==> #[trigger] table@[j].0 != c,
        decreases table@.len() - t,
    {
        if table[t].0 == c {
            return Some(table[t].1);
        }
        t = t + 1;
    }
    let mut t2: usize = 0;
    while t2 < table.len()
        invariant
            t2 <= table@.len(),
            forall|j: int| 0 <= j < table@.len() ==> #[trigger] table@[j].0 != c,
            forall|j: int| 0 <= j < t2 ==> #[trigger] table@[j].0 != PluralCategory::Other,
        decreases table@.len() - t2,
    {
        if table[t2].0 == PluralCategory::Other {
            return Some(table[t2].1);
        }
        t2 = t2 + 1;
    }
    None
}

} // verus!
