//! The foreign-key resolver.
//!
//! Every `ForeignKey` node, in every locale, is replaced by a deep copy of
//! the referenced key's resolved value, with its overrides substituted. A
//! reference resolves against the referencing locale's own keys first and
//! falls back to the default locale's keys; a cross-namespace reference
//! resolves against the referenced namespace's keys for the same pair of
//! locales. Cycle detection is explicit state: the stack of targets being
//! resolved travels with the recursion, a repeat aborts with the stack as
//! the reported cycle, and the stack's size — bounded by the number of
//! known targets — is what makes resolution terminate.

use vstd::prelude::*;
use vstd::seq_lib::*;
use vstd::string::{StrSliceExecFns, StringExecFns};
use vstd::set_lib::lemma_len_subset;

use crate::error::{Error, Warning, Warnings};
use crate::key::{Key, KeyPath, KeyPathView};
use crate::parsed_value::{
    fk_free, fk_free_list, fk_free_pairs, key_pairs_view, lemma_fk_free_list,
    lemma_fk_free_pairs, lemma_key_pairs_view, lemma_list_view, lemma_pairs_view, list_view,
    pairs_view, pv_view, LiteralValue, ParsedValue, PvView, Segment,
};
use crate::plurals::PluralRules;

verus! {

/// One known target: a path, which locale tree supplied it, and a copy of
/// its unresolved value.
pub struct FlatEntry {
    /// The full path of the value, namespace included.
    pub target: KeyPath,
    /// Whether the value comes from the locale being resolved (`true`) or
    /// from the default locale (`false`).
    pub own: bool,
    /// The value as parsed.
    pub value: ParsedValue,
}

/// Everything a resolution pass reads: the known targets, the locale's
/// name, and its plural rules (used when an override fixes a count).
pub struct ResolveCtx {
    pub entries: Vec<FlatEntry>,
    pub locale: String,
    pub rules: PluralRules,
}

/// Whether `entries` records, at or after position `lo`, a target with
/// this namespace and path whose value reads as `val`.
pub open spec fn entry_recorded(
    entries: Seq<FlatEntry>,
    lo: int,
    ns: Option<Seq<char>>,
    keys: Seq<Seq<char>>,
    val: PvView,
) -> bool {
    exists|e: int|
        lo <= e < entries.len() && (#[trigger] entries[e]).target@.namespace == ns
            && entries[e].target@.keys == keys && pv_view(&entries[e].value) == val
}

/// Records every node of `tree` (in document order, parents before
/// children) as a known target under `path`: at least one entry per key of
/// this level, each keeping its value's view, appended after what `out`
/// already held.
pub fn flatten_into(
    path: &mut KeyPath,
    own: bool,
    tree: &Vec<(Key, ParsedValue)>,
    out: &mut Vec<FlatEntry>,
)
    ensures
        final(path)@ == old(path)@,
        final(out)@.len() >= old(out)@.len() + tree@.len(),
        final(out)@.take(old(out)@.len() as int) == old(out)@,
        forall|j: int|
            #![trigger tree@[j]]
            0 <= j < tree@.len() ==> entry_recorded(
                final(out)@,
                old(out)@.len() as int,
                old(path)@.namespace,
                old(path)@.keys.push(tree@[j].0@),
                pv_view(&tree@[j].1),
            ),
    decreases tree,
{
    let mut i: usize = 0;
    while i < tree.len()
        invariant
            i <= tree@.len(),
            path@ == old(path)@,
            out@.len() >= old(out)@.len() + i,
            out@.take(old(out)@.len() as int) == old(out)@,
            forall|j: int|
                #![trigger tree@[j]]
                0 <= j < i ==> entry_recorded(
                    out@,
                    old(out)@.len() as int,
                    old(path)@.namespace,
                    old(path)@.keys.push(tree@[j].0@),
                    pv_view(&tree@[j].1),
                ),
        decreases tree@.len() - i,
    {
        proof {
            assert(decreases_to!(*tree => tree@));
            assert(decreases_to!(tree@ => tree@[i as int]));
            assert(decreases_to!(tree@[i as int] => tree@[i as int].1));
        }
        let ghost before = path@;
        let ghost out_pre = out@;
        path.push_key(tree[i].0.duplicate());
        out.push(
            FlatEntry { target: path.duplicate(), own, value: tree[i].1.deep_copy() },
        );
        proof {
            assert((#[trigger] out@[out@.len() - 1]).target@.namespace == old(
                path,
            )@.namespace);
            assert(out@[out@.len() - 1].target@.keys == old(path)@.keys.push(
                tree@[i as int].0@,
            ));
            assert(out@.take(old(out)@.len() as int) =~= out_pre.take(old(out)@.len() as int));
        }
        let ghost out_mid = out@;
        match &tree[i].1 {
            ParsedValue::Subkeys(children) => {
                proof {
                    assert(decreases_to!(tree@[i as int].1 => tree@[i as int].1->Subkeys_0));
                }
                flatten_into(path, own, children, out);
            },
            _ => {
                proof {
                    assert(out@.take(out_mid.len() as int) =~= out_mid);
                }
            },
        }
        path.pop_key();
        proof {
            assert(path@.keys =~= before.keys);
            assert(path@ == before);
            // Everything recorded before this key, and the key's own
            // entry, keep their places: only appends happened since.
            assert(out@.take(out_mid.len() as int) == out_mid);
            assert forall|x: int| 0 <= x < out_mid.len() implies #[trigger] out@[x]
                == out_mid[x] by {
                assert(out@.take(out_mid.len() as int)[x] == out@[x]);
            }
            assert(out@.take(old(out)@.len() as int) =~= old(out)@);
            assert forall|j: int| #![trigger tree@[j]] 0 <= j < i + 1 implies entry_recorded(
                out@,
                old(out)@.len() as int,
                old(path)@.namespace,
                old(path)@.keys.push(tree@[j].0@),
                pv_view(&tree@[j].1),
            ) by {
                if j < i {
                    let e0 = choose|e: int|
                        old(out)@.len() <= e < out_pre.len() && (
                        #[trigger] out_pre[e]).target@.namespace == old(path)@.namespace
                            && out_pre[e].target@.keys == old(path)@.keys.push(tree@[j].0@)
                            && pv_view(&out_pre[e].value) == pv_view(&tree@[j].1);
                    assert(out_mid[e0] == out_pre[e0]);
                    assert(out@[e0] == out_pre[e0]);
                } else {
                    let e1 = out_pre.len() as int;
                    assert(out@[e1] == out_mid[e1]);
                }
            }
        }
        i = i + 1;
    }
}

/// Whether the value holds no foreign-key node, executably.
pub fn check_fk_free(v: &ParsedValue) -> (r: bool)
    ensures
        r == fk_free(v@),
    decreases v, 3int,
{
    match v {
        ParsedValue::Literal(_) => true,
        ParsedValue::Interpolation(_) => true,
        ParsedValue::ForeignKey { .. } => false,
        ParsedValue::Plural { ordinal, count_var, arms } => {
            proof {
                assert(decreases_to!(*v => v->Plural_arms));
            }
            check_fk_free_pairs(arms)
        },
        ParsedValue::Range { count_var, arms } => {
            proof {
                assert(decreases_to!(*v => v->Range_arms));
            }
            check_fk_free_pairs(arms)
        },
        ParsedValue::Subkeys(entries) => {
            proof {
                assert(decreases_to!(*v => v->Subkeys_0));
            }
            check_fk_free_key_pairs(entries)
        },
        ParsedValue::Block(items) => {
            proof {
                assert(decreases_to!(*v => v->Block_0));
            }
            check_fk_free_list(items)
        },
    }
}

/// [`check_fk_free`] over a list of name/value pairs.
fn check_fk_free_pairs(pairs: &Vec<(String, ParsedValue)>) -> (r: bool)
    ensures
        r == fk_free_pairs(pairs_view(pairs@)),
    decreases pairs, 0int,
{
    proof {
        lemma_pairs_view(pairs@);
        lemma_fk_free_pairs(pairs_view(pairs@));
    }
    let mut i: usize = 0;
    while i < pairs.len()
        invariant
            i <= pairs@.len(),
            forall|j: int| 0 <= j < i ==> fk_free(pv_view(&pairs@[j].1)),
        decreases pairs@.len() - i,
    {
        proof {
            assert(decreases_to!(*pairs => pairs@));
            assert(decreases_to!(pairs@ => pairs@[i as int]));
            assert(decreases_to!(pairs@[i as int] => pairs@[i as int].1));
        }
        if !check_fk_free(&pairs[i].1) {
            proof {
                lemma_pairs_view(pairs@);
                lemma_fk_free_pairs(pairs_view(pairs@));
                assert(pairs_view(pairs@)[i as int].1 == pv_view(&pairs@[i as int].1));
            }
            return false;
        }
        i = i + 1;
    }
    proof {
        lemma_pairs_view(pairs@);
        lemma_fk_free_pairs(pairs_view(pairs@));
        assert forall|j: int| 0 <= j < pairs_view(pairs@).len() implies fk_free(
            #[trigger] pairs_view(pairs@)[j].1,
        ) by {
            assert(pairs_view(pairs@)[j].1 == pv_view(&pairs@[j].1));
        }
    }
    true
}

/// [`check_fk_free`] over a list of key/value pairs.
fn check_fk_free_key_pairs(pairs: &Vec<(Key, ParsedValue)>) -> (r: bool)
    ensures
        r == fk_free_pairs(key_pairs_view(pairs@)),
    decreases pairs, 1int,
{
    proof {
        lemma_key_pairs_view(pairs@);
        lemma_fk_free_pairs(key_pairs_view(pairs@));
    }
    let mut i: usize = 0;
    while i < pairs.len()
        invariant
            i <= pairs@.len(),
            forall|j: int| 0 <= j < i ==> fk_free(pv_view(&pairs@[j].1)),
        decreases pairs@.len() - i,
    {
        proof {
            assert(decreases_to!(*pairs => pairs@));
            assert(decreases_to!(pairs@ => pairs@[i as int]));
            assert(decreases_to!(pairs@[i as int] => pairs@[i as int].1));
        }
        if !check_fk_free(&pairs[i].1) {
            proof {
                lemma_key_pairs_view(pairs@);
                lemma_fk_free_pairs(key_pairs_view(pairs@));
                assert(key_pairs_view(pairs@)[i as int].1 == pv_view(&pairs@[i as int].1));
            }
            return false;
        }
        i = i + 1;
    }
    proof {
        lemma_key_pairs_view(pairs@);
        lemma_fk_free_pairs(key_pairs_view(pairs@));
        assert forall|j: int| 0 <= j < key_pairs_view(pairs@).len() implies fk_free(
            #[trigger] key_pairs_view(pairs@)[j].1,
        ) by {
            assert(key_pairs_view(pairs@)[j].1 == pv_view(&pairs@[j].1));
        }
    }
    true
}

/// [`check_fk_free`] over a list of values.
fn check_fk_free_list(items: &Vec<ParsedValue>) -> (r: bool)
    ensures
        r == fk_free_list(list_view(items@)),
    decreases items, 2int,
{
    proof {
        lemma_list_view(items@);
        lemma_fk_free_list(list_view(items@));
    }
    let mut i: usize = 0;
    while i < items.len()
        invariant
            i <= items@.len(),
            forall|j: int| 0 <= j < i ==> fk_free(pv_view(&items@[j])),
        decreases items@.len() - i,
    {
        proof {
            assert(decreases_to!(*items => items@));
            assert(decreases_to!(items@ => items@[i as int]));
        }
        if !check_fk_free(&items[i]) {
            proof {
                lemma_list_view(items@);
                lemma_fk_free_list(list_view(items@));
                assert(list_view(items@)[i as int] == pv_view(&items@[i as int]));
            }
            return false;
        }
        i = i + 1;
    }
    proof {
        lemma_list_view(items@);
        lemma_fk_free_list(list_view(items@));
        assert forall|j: int| 0 <= j < list_view(items@).len() implies fk_free(
            #[trigger] list_view(items@)[j],
        ) by {
            assert(list_view(items@)[j] == pv_view(&items@[j]));
        }
    }
    true
}

/// No known target carries the probed path.
pub open spec fn no_matching_target(
    entries: Seq<FlatEntry>,
    probe: crate::key::KeyPathView,
) -> bool {
    forall|j: int| 0 <= j < entries.len() ==> (#[trigger] entries[j]).target@ != probe
}

/// An unknown-reference error naming exactly the probed path.
pub open spec fn unknown_target_reported(e: &Error, probe: crate::key::KeyPathView) -> bool {
    e matches Error::UnknownForeignKey { target, .. } && target@ == probe
}

/// A sound cycle report: the paths are pairwise distinct known targets of
/// this resolution pass.
pub open spec fn cycle_report_sound(e: &Error, ctx: &ResolveCtx) -> bool {
    e matches Error::CyclicReference { cycle, .. } ==> (stack_view(cycle@).no_duplicates() && (
    forall|k: int|
        0 <= k < cycle@.len() ==> universe_view(ctx.entries@).contains(
            #[trigger] stack_view(cycle@)[k],
        )))
}

/// The path a reference resolves against: the reference's own namespace
/// when it names one, else the namespace the referencing value stands in.
pub open spec fn fk_probe(
    fkp: crate::key::KeyPathView,
    base_ns: Option<Seq<char>>,
) -> crate::key::KeyPathView {
    (crate::key::KeyPathView {
        namespace: if fkp.namespace is Some {
            fkp.namespace
        } else {
            base_ns
        },
        keys: fkp.keys,
    })
}

/// The views of the paths on the resolution stack.
pub open spec fn stack_view(stack: Seq<KeyPath>) -> Seq<KeyPathView> {
    stack.map_values(|p: KeyPath| p@)
}

/// The views of the known targets.
pub open spec fn universe_view(entries: Seq<FlatEntry>) -> Seq<KeyPathView> {
    entries.map_values(|e: FlatEntry| e.target@)
}

/// A well-formed resolution stack: pairwise distinct targets, each of them
/// a known target.
pub open spec fn stack_ok(stack: Seq<KeyPath>, entries: Seq<FlatEntry>) -> bool {
    &&& stack_view(stack).no_duplicates()
    &&& forall|i: int|
        0 <= i < stack.len() ==> universe_view(entries).contains(#[trigger] stack_view(stack)[i])
}

/// Distinct values that all come from a finite universe are no more
/// numerous than the universe.
pub proof fn lemma_distinct_in_universe<A>(s: Seq<A>, u: Seq<A>)
    requires
        s.no_duplicates(),
        forall|i: int| 0 <= i < s.len() ==> u.contains(#[trigger] s[i]),
    ensures
        s.len() <= u.len(),
{
    broadcast use vstd::set::group_set_axioms;
    broadcast use seq_to_set_is_finite;

    s.unique_seq_to_set();
    u.lemma_cardinality_of_set();
    assert forall|x: A| s.to_set().contains(x) implies u.to_set().contains(x) by {
        let i = choose|i: int| 0 <= i < s.len() && s[i] == x;
        assert(u.contains(s[i]));
    }
    lemma_len_subset(s.to_set(), u.to_set());
}

/// A well-formed stack never outgrows the known targets.
pub proof fn lemma_stack_bound(stack: Seq<KeyPath>, entries: Seq<FlatEntry>)
    requires
        stack_ok(stack, entries),
    ensures
        stack.len() <= entries.len(),
{
    lemma_distinct_in_universe(stack_view(stack), universe_view(entries));
}

/// Finds the entry for `probe`: an entry of the locale's own tree when one
/// exists, else one of the default locale's tree. `None` exactly when no
/// entry carries the probed path.
pub fn find_entry(entries: &Vec<FlatEntry>, probe: &KeyPath) -> (r: Option<usize>)
    ensures
        r matches Some(e) ==> e < entries@.len() && entries@[e as int].target@ == probe@,
        r matches Some(e) ==> (entries@[e as int].own || (forall|j: int|
            0 <= j < entries@.len() ==> !((#[trigger] entries@[j]).own && entries@[j].target@
                == probe@))),
        r is None ==> (forall|j: int|
            0 <= j < entries@.len() ==> (#[trigger] entries@[j]).target@ != probe@),
{
    let mut i: usize = 0;
    while i < entries.len()
        invariant
            i <= entries@.len(),
            forall|j: int|
                0 <= j < i ==> !((#[trigger] entries@[j]).own && entries@[j].target@ == probe@),
        decreases entries@.len() - i,
    {
        if entries[i].own && entries[i].target.same_path(probe) {
            return Some(i);
        }
        i = i + 1;
    }
    let mut i2: usize = 0;
    while i2 < entries.len()
        invariant
            i2 <= entries@.len(),
            forall|j: int|
                0 <= j < entries@.len() ==> !((#[trigger] entries@[j]).own && entries@[j].target@
                    == probe@),
            forall|j: int| 0 <= j < i2 ==> (#[trigger] entries@[j]).target@ != probe@,
        decreases entries@.len() - i2,
    {
        if entries[i2].target.same_path(probe) {
            return Some(i2);
        }
        i2 = i2 + 1;
    }
    None
}

/// Whether a target is already being resolved.
fn stack_contains(stack: &Vec<KeyPath>, probe: &KeyPath) -> (r: bool)
    ensures
        r == stack_view(stack@).contains(probe@),
{
    let mut i: usize = 0;
    while i < stack.len()
        invariant
            i <= stack@.len(),
            forall|j: int| 0 <= j < i ==> #[trigger] stack_view(stack@)[j] != probe@,
        decreases stack@.len() - i,
    {
        if stack[i].same_path(probe) {
            proof {
                assert(stack_view(stack@)[i as int] == probe@);
            }
            return true;
        }
        i = i + 1;
    }
    false
}

/// Whether every override value is free of foreign keys.
pub open spec fn overrides_fk_free(s: Seq<(String, ParsedValue)>) -> bool {
    forall|j: int| 0 <= j < s.len() ==> fk_free(pv_view(&s[j].1))
}

/// The text a literal contributes when spliced into surrounding text.
fn lit_text_of(l: &LiteralValue) -> (r: String) {
    match l {
        LiteralValue::Str(t) => t.clone(),
        LiteralValue::Num(_, t) => t.clone(),
        LiteralValue::Bool(b) => {
            if *b {
                "true".to_owned()
            } else {
                "false".to_owned()
            }
        },
    }
}

/// The numeric value of a literal, when it has one: a number, or text that
/// reads as one.
fn lit_num_val(l: &LiteralValue) -> (r: Option<i64>) {
    match l {
        LiteralValue::Str(t) => crate::text::parse_i64_str(t.as_str()),
        LiteralValue::Num(n, _) => Some(*n),
        LiteralValue::Bool(_) => None,
    }
}

/// The first override of that name.
fn find_override(overrides: &Vec<(String, ParsedValue)>, name: &str) -> (r: Option<usize>)
    ensures
        r matches Some(i) ==> i < overrides@.len(),
{
    let mut i: usize = 0;
    while i < overrides.len()
        invariant
            i <= overrides@.len(),
        decreases overrides@.len() - i,
    {
        if crate::text::str_eq(overrides[i].0.as_str(), name) {
            return Some(i);
        }
        i = i + 1;
    }
    None
}

/// Appends one segment, merging adjacent text and dropping empty text.
fn append_segment(out: &mut Vec<Segment>, seg: Segment) {
    match seg {
        Segment::Lit(t) => {
            if t.as_str().unicode_len() == 0 {
                return ;
            }
            let reuse: bool = match out.last() {
                Some(Segment::Lit(_)) => true,
                _ => false,
            };
            if reuse {
                let prev = out.pop().unwrap();
                match prev {
                    Segment::Lit(mut p) => {
                        p.append(t.as_str());
                        out.push(Segment::Lit(p));
                    },
                    Segment::Var(v) => {
                        out.push(Segment::Var(v));
                        out.push(Segment::Lit(t));
                    },
                }
            } else {
                out.push(Segment::Lit(t));
            }
        },
        Segment::Var(x) => {
            out.push(Segment::Var(x));
        },
    }
}

/// Packs merged segments into a value: empty text for none, a literal for
/// plain text, an interpolation otherwise. The result never holds a
/// foreign key.
fn pack_segments(segs: Vec<Segment>) -> (r: ParsedValue)
    ensures
        fk_free(r@),
{
    if segs.len() == 0 {
        return ParsedValue::Literal(LiteralValue::Str(String::new()));
    }
    if segs.len() == 1 {
        let mut segs = segs;
        let only = segs.pop().unwrap();
        match only {
            Segment::Lit(t) => {
                return ParsedValue::Literal(LiteralValue::Str(t));
            },
            Segment::Var(x) => {
                let mut one: Vec<Segment> = Vec::new();
                one.push(Segment::Var(x));
                return ParsedValue::Interpolation(one);
            },
        }
    }
    ParsedValue::Interpolation(segs)
}

/// Collects every variable name the value can consume: interpolation
/// variables and plural or range count variables.
pub fn collect_vars(v: &ParsedValue, out: &mut Vec<String>)
    decreases v, 3int,
{
    match v {
        ParsedValue::Literal(_) => {},
        ParsedValue::Interpolation(segs) => {
            let mut i: usize = 0;
            while i < segs.len()
                invariant
                    i <= segs@.len(),
                decreases segs@.len() - i,
            {
                match &segs[i] {
                    Segment::Var(x) => {
                        out.push(x.clone());
                    },
                    _ => {},
                }
                i = i + 1;
            }
        },
        ParsedValue::Plural { ordinal, count_var, arms } => {
            out.push(count_var.clone());
            proof {
                assert(decreases_to!(*v => v->Plural_arms));
            }
            collect_vars_pairs(arms, out);
        },
        ParsedValue::Range { count_var, arms } => {
            out.push(count_var.clone());
            proof {
                assert(decreases_to!(*v => v->Range_arms));
            }
            collect_vars_pairs(arms, out);
        },
        ParsedValue::ForeignKey { .. } => {},
        ParsedValue::Subkeys(entries) => {
            proof {
                assert(decreases_to!(*v => v->Subkeys_0));
            }
            collect_vars_key_pairs(entries, out);
        },
        ParsedValue::Block(items) => {
            proof {
                assert(decreases_to!(*v => v->Block_0));
            }
            collect_vars_list(items, out);
        },
    }
}

fn collect_vars_pairs(pairs: &Vec<(String, ParsedValue)>, out: &mut Vec<String>)
    decreases pairs, 0int,
{
    let mut i: usize = 0;
    while i < pairs.len()
        invariant
            i <= pairs@.len(),
        decreases pairs@.len() - i,
    {
        proof {
            assert(decreases_to!(*pairs => pairs@));
            assert(decreases_to!(pairs@ => pairs@[i as int]));
            assert(decreases_to!(pairs@[i as int] => pairs@[i as int].1));
        }
        collect_vars(&pairs[i].1, out);
        i = i + 1;
    }
}

fn collect_vars_key_pairs(pairs: &Vec<(Key, ParsedValue)>, out: &mut Vec<String>)
    decreases pairs, 1int,
{
    let mut i: usize = 0;
    while i < pairs.len()
        invariant
            i <= pairs@.len(),
        decreases pairs@.len() - i,
    {
        proof {
            assert(decreases_to!(*pairs => pairs@));
            assert(decreases_to!(pairs@ => pairs@[i as int]));
            assert(decreases_to!(pairs@[i as int] => pairs@[i as int].1));
        }
        collect_vars(&pairs[i].1, out);
        i = i + 1;
    }
}

fn collect_vars_list(items: &Vec<ParsedValue>, out: &mut Vec<String>)
    decreases items, 2int,
{
    let mut i: usize = 0;
    while i < items.len()
        invariant
            i <= items@.len(),
        decreases items@.len() - i,
    {
        proof {
            assert(decreases_to!(*items => items@));
            assert(decreases_to!(items@ => items@[i as int]));
        }
        collect_vars(&items[i], out);
        i = i + 1;
    }
}

/// Whether one of `names` holds the characters of `name`.
pub(crate) fn names_contain(names: &Vec<String>, name: &str) -> (r: bool)
    ensures
        r == (exists|i: int| 0 <= i < names@.len() && (#[trigger] names@[i])@ == name@),
{
    let mut i: usize = 0;
    while i < names.len()
        invariant
            i <= names@.len(),
            forall|j: int| 0 <= j < i ==> (#[trigger] names@[j])@ != name@,
        decreases names@.len() - i,
    {
        if crate::text::str_eq(names[i].as_str(), name) {
            return true;
        }
        i = i + 1;
    }
    false
}

/// Normalizes a value after substitution: adjacent literal text merges,
/// nested blocks splice flat, and a block or interpolation left with plain
/// text only collapses to a single literal. A literal is left exactly as
/// it is.
pub fn reduce(v: &ParsedValue) -> (r: ParsedValue)
    ensures
        fk_free(v@) ==> fk_free(r@),
        v@ matches PvView::Literal(l) ==> r@ == v@,
    decreases v, 3int,
{
    match v {
        ParsedValue::Literal(l) => ParsedValue::Literal(l.duplicate()),
        ParsedValue::Interpolation(segs) => {
            let mut merged: Vec<Segment> = Vec::new();
            let mut i: usize = 0;
            while i < segs.len()
                invariant
                    i <= segs@.len(),
                decreases segs@.len() - i,
            {
                append_segment(&mut merged, segs[i].duplicate());
                i = i + 1;
            }
            pack_segments(merged)
        },
        ParsedValue::Plural { ordinal, count_var, arms } => {
            proof {
                assert(decreases_to!(*v => v->Plural_arms));
            }
            let new_arms = reduce_pairs(arms);
            let r = ParsedValue::Plural {
                ordinal: *ordinal,
                count_var: count_var.clone(),
                arms: new_arms,
            };
            proof {
                lemma_reduced_pairs_fk_free(arms@, r->Plural_arms@);
            }
            r
        },
        ParsedValue::Range { count_var, arms } => {
            proof {
                assert(decreases_to!(*v => v->Range_arms));
            }
            let new_arms = reduce_pairs(arms);
            let r = ParsedValue::Range { count_var: count_var.clone(), arms: new_arms };
            proof {
                lemma_reduced_pairs_fk_free(arms@, r->Range_arms@);
            }
            r
        },
        ParsedValue::ForeignKey { .. } => v.deep_copy(),
        ParsedValue::Subkeys(entries) => {
            proof {
                assert(decreases_to!(*v => v->Subkeys_0));
            }
            let new_entries = reduce_key_pairs(entries);
            let r = ParsedValue::Subkeys(new_entries);
            proof {
                lemma_reduced_key_pairs_fk_free(entries@, r->Subkeys_0@);
            }
            r
        },
        ParsedValue::Block(items) => {
            proof {
                assert(decreases_to!(*v => v->Block_0));
            }
            reduce_block(items)
        },
    }
}

/// Reduces each value of a pair list.
fn reduce_pairs(pairs: &Vec<(String, ParsedValue)>) -> (r: Vec<(String, ParsedValue)>)
    ensures
        r@.len() == pairs@.len(),
        forall|j: int| 0 <= j < pairs@.len() ==> #[trigger] r@[j].0@ == pairs@[j].0@,
        forall|j: int|
            0 <= j < pairs@.len() ==> (fk_free(pv_view(&pairs@[j].1)) ==> fk_free(
                #[trigger] pv_view(&r@[j].1),
            )),
    decreases pairs, 0int,
{
    let mut out: Vec<(String, ParsedValue)> = Vec::new();
    let mut i: usize = 0;
    while i < pairs.len()
        invariant
            i <= pairs@.len(),
            out@.len() == i as int,
            forall|j: int| 0 <= j < i ==> #[trigger] out@[j].0@ == pairs@[j].0@,
            forall|j: int|
                0 <= j < i ==> (fk_free(pv_view(&pairs@[j].1)) ==> fk_free(
                    #[trigger] pv_view(&out@[j].1),
                )),
        decreases pairs@.len() - i,
    {
        proof {
            assert(decreases_to!(*pairs => pairs@));
            assert(decreases_to!(pairs@ => pairs@[i as int]));
            assert(decreases_to!(pairs@[i as int] => pairs@[i as int].1));
        }
        let val = reduce(&pairs[i].1);
        out.push((pairs[i].0.clone(), val));
        i = i + 1;
    }
    out
}

/// Reduces each value of a key/value list.
fn reduce_key_pairs(pairs: &Vec<(Key, ParsedValue)>) -> (r: Vec<(Key, ParsedValue)>)
    ensures
        r@.len() == pairs@.len(),
        forall|j: int| 0 <= j < pairs@.len() ==> #[trigger] r@[j].0@ == pairs@[j].0@,
        forall|j: int|
            0 <= j < pairs@.len() ==> (fk_free(pv_view(&pairs@[j].1)) ==> fk_free(
                #[trigger] pv_view(&r@[j].1),
            )),
    decreases pairs, 1int,
{
    let mut out: Vec<(Key, ParsedValue)> = Vec::new();
    let mut i: usize = 0;
    while i < pairs.len()
        invariant
            i <= pairs@.len(),
            out@.len() == i as int,
            forall|j: int| 0 <= j < i ==> #[trigger] out@[j].0@ == pairs@[j].0@,
            forall|j: int|
                0 <= j < i ==> (fk_free(pv_view(&pairs@[j].1)) ==> fk_free(
                    #[trigger] pv_view(&out@[j].1),
                )),
        decreases pairs@.len() - i,
    {
        proof {
            assert(decreases_to!(*pairs => pairs@));
            assert(decreases_to!(pairs@ => pairs@[i as int]));
            assert(decreases_to!(pairs@[i as int] => pairs@[i as int].1));
        }
        let val = reduce(&pairs[i].1);
        out.push((pairs[i].0.duplicate(), val));
        i = i + 1;
    }
    out
}

/// Reduced pairs of a foreign-key-free pair list are foreign-key-free.
proof fn lemma_reduced_pairs_fk_free(
    a: Seq<(String, ParsedValue)>,
    b: Seq<(String, ParsedValue)>,
)
    requires
        a.len() == b.len(),
        forall|j: int|
            0 <= j < a.len() ==> (fk_free(pv_view(&a[j].1)) ==> fk_free(
                #[trigger] pv_view(&b[j].1),
            )),
    ensures
        fk_free_pairs(pairs_view(a)) ==> fk_free_pairs(pairs_view(b)),
{
    lemma_pairs_view(a);
    lemma_pairs_view(b);
    lemma_fk_free_pairs(pairs_view(a));
    lemma_fk_free_pairs(pairs_view(b));
    if fk_free_pairs(pairs_view(a)) {
        assert forall|j: int| 0 <= j < pairs_view(b).len() implies fk_free(
            #[trigger] pairs_view(b)[j].1,
        ) by {
            assert(pairs_view(a)[j].1 == pv_view(&a[j].1));
            assert(pairs_view(b)[j].1 == pv_view(&b[j].1));
        }
    }
}

/// Reduced pairs of a foreign-key-free key/value list are
/// foreign-key-free.
proof fn lemma_reduced_key_pairs_fk_free(a: Seq<(Key, ParsedValue)>, b: Seq<(Key, ParsedValue)>)
    requires
        a.len() == b.len(),
        forall|j: int|
            0 <= j < a.len() ==> (fk_free(pv_view(&a[j].1)) ==> fk_free(
                #[trigger] pv_view(&b[j].1),
            )),
    ensures
        fk_free_pairs(key_pairs_view(a)) ==> fk_free_pairs(key_pairs_view(b)),
{
    lemma_key_pairs_view(a);
    lemma_key_pairs_view(b);
    lemma_fk_free_pairs(key_pairs_view(a));
    lemma_fk_free_pairs(key_pairs_view(b));
    if fk_free_pairs(key_pairs_view(a)) {
        assert forall|j: int| 0 <= j < key_pairs_view(b).len() implies fk_free(
            #[trigger] key_pairs_view(b)[j].1,
        ) by {
            assert(key_pairs_view(a)[j].1 == pv_view(&a[j].1));
            assert(key_pairs_view(b)[j].1 == pv_view(&b[j].1));
        }
    }
}

/// Reduces a block: items reduce, nested blocks splice flat, and a block
/// of plain text and interpolations merges into one.
fn reduce_block(items: &Vec<ParsedValue>) -> (r: ParsedValue)
    ensures
        fk_free_list(list_view(items@)) ==> fk_free(r@),
    decreases items, 2int,
{
    let ghost items_free = fk_free_list(list_view(items@));
    let mut out: Vec<ParsedValue> = Vec::new();
    let mut i: usize = 0;
    while i < items.len()
        invariant
            i <= items@.len(),
            items_free == fk_free_list(list_view(items@)),
            items_free ==> (forall|j: int| 0 <= j < out@.len() ==> fk_free(
                pv_view(&#[trigger] out@[j]),
            )),
        decreases items@.len() - i,
    {
        proof {
            assert(decreases_to!(*items => items@));
            assert(decreases_to!(items@ => items@[i as int]));
            lemma_list_view(items@);
            lemma_fk_free_list(list_view(items@));
            if items_free {
                assert(list_view(items@)[i as int] == pv_view(&items@[i as int]));
                assert(fk_free(pv_view(&items@[i as int])));
            }
        }
        let ritem = reduce(&items[i]);
        let ghost rv = pv_view(&ritem);
        match ritem {
            ParsedValue::Block(mut sub) => {
                proof {
                    if items_free {
                        assert(fk_free(rv));
                        assert(rv == PvView::Block(list_view(sub@)));
                        lemma_list_view(sub@);
                        lemma_fk_free_list(list_view(sub@));
                        assert forall|j: int| 0 <= j < sub@.len() implies fk_free(
                            pv_view(&#[trigger] sub@[j]),
                        ) by {
                            assert(list_view(sub@)[j] == pv_view(&sub@[j]));
                        }
                    }
                }
                while sub.len() > 0
                    invariant
                        items_free == fk_free_list(list_view(items@)),
                        items_free ==> (forall|j: int| 0 <= j < out@.len() ==> fk_free(
                            pv_view(&#[trigger] out@[j]),
                        )),
                        items_free ==> (forall|j: int| 0 <= j < sub@.len() ==> fk_free(
                            pv_view(&#[trigger] sub@[j]),
                        )),
                    decreases sub@.len(),
                {
                    let ghost before_sub = sub@;
                    let first = sub.remove(0);
                    proof {
                        if items_free {
                            assert(pv_view(&first) == pv_view(&before_sub[0]));
                            assert forall|j: int| 0 <= j < sub@.len() implies fk_free(
                                pv_view(&#[trigger] sub@[j]),
                            ) by {
                                assert(sub@[j] == before_sub[j + 1]);
                            }
                        }
                    }
                    out.push(first);
                }
            },
            other => {
                out.push(other);
            },
        }
        i = i + 1;
    }
    if out.len() == 1 {
        let mut out = out;
        let only = out.pop().unwrap();
        return only;
    }
    // Merge when every piece is plain text or an interpolation.
    let mut mergeable: bool = true;
    let mut m: usize = 0;
    while m < out.len()
        invariant
            m <= out@.len(),
        decreases out@.len() - m,
    {
        match &out[m] {
            ParsedValue::Literal(LiteralValue::Str(_)) => {},
            ParsedValue::Interpolation(_) => {},
            _ => {
                mergeable = false;
            },
        }
        m = m + 1;
    }
    if mergeable {
        let mut segs: Vec<Segment> = Vec::new();
        let mut m2: usize = 0;
        while m2 < out.len()
            invariant
                m2 <= out@.len(),
            decreases out@.len() - m2,
        {
            match &out[m2] {
                ParsedValue::Literal(LiteralValue::Str(t)) => {
                    append_segment(&mut segs, Segment::Lit(t.clone()));
                },
                ParsedValue::Interpolation(isegs) => {
                    let mut q: usize = 0;
                    while q < isegs.len()
                        invariant
                            q <= isegs@.len(),
                        decreases isegs@.len() - q,
                    {
                        append_segment(&mut segs, isegs[q].duplicate());
                        q = q + 1;
                    }
                },
                _ => {},
            }
            m2 = m2 + 1;
        }
        pack_segments(segs)
    } else {
        let r = ParsedValue::Block(out);
        proof {
            if items_free {
                lemma_list_view(r->Block_0@);
                lemma_fk_free_list(list_view(r->Block_0@));
                assert forall|j: int| 0 <= j < list_view(r->Block_0@).len() implies fk_free(
                    #[trigger] list_view(r->Block_0@)[j],
                ) by {
                    assert(list_view(r->Block_0@)[j] == pv_view(&r->Block_0@[j]));
                }
            }
        }
        r
    }
}

/// Substitutes override values into a referenced value's free variables:
/// text and interpolations splice into the surrounding segments, other
/// values stand as pieces of a block, and an override that fixes a plural
/// or range count to a number selects the arm right away, by the locale's
/// rule or by first matching range.
pub fn substitute(
    rules: PluralRules,
    v: &ParsedValue,
    overrides: &Vec<(String, ParsedValue)>,
) -> (r: ParsedValue)
    ensures
        fk_free(v@) && overrides_fk_free(overrides@) ==> fk_free(r@),
    decreases v, 3int,
{
    let ghost ok = fk_free(v@) && overrides_fk_free(overrides@);
    match v {
        ParsedValue::Literal(l) => ParsedValue::Literal(l.duplicate()),
        ParsedValue::ForeignKey { .. } => v.deep_copy(),
        ParsedValue::Interpolation(segs) => {
            let mut pieces: Vec<ParsedValue> = Vec::new();
            let mut cur: Vec<Segment> = Vec::new();
            let mut i: usize = 0;
            while i < segs.len()
                invariant
                    i <= segs@.len(),
                    ok == (fk_free(v@) && overrides_fk_free(overrides@)),
                    ok ==> (forall|j: int| 0 <= j < pieces@.len() ==> fk_free(
                        pv_view(&#[trigger] pieces@[j]),
                    )),
                decreases segs@.len() - i,
            {
                match &segs[i] {
                    Segment::Lit(t) => {
                        append_segment(&mut cur, Segment::Lit(t.clone()));
                    },
                    Segment::Var(x) => {
                        match find_override(overrides, x.as_str()) {
                            None => {
                                append_segment(&mut cur, Segment::Var(x.clone()));
                            },
                            Some(oi) => {
                                match &overrides[oi].1 {
                                    ParsedValue::Literal(l) => {
                                        append_segment(&mut cur, Segment::Lit(lit_text_of(l)));
                                    },
                                    ParsedValue::Interpolation(osegs) => {
                                        let mut q: usize = 0;
                                        while q < osegs.len()
                                            invariant
                                                q <= osegs@.len(),
                                            decreases osegs@.len() - q,
                                        {
                                            append_segment(&mut cur, osegs[q].duplicate());
                                            q = q + 1;
                                        }
                                    },
                                    _ => {
                                        if cur.len() > 0 {
                                            let mut finished: Vec<Segment> = Vec::new();
                                            core::mem::swap(&mut finished, &mut cur);
                                            pieces.push(pack_segments(finished));
                                        }
                                        let copy = overrides[oi].1.deep_copy();
                                        proof {
                                            if ok {
                                                assert(fk_free(pv_view(&overrides@[oi as int].1)));
                                            }
                                        }
                                        pieces.push(copy);
                                    },
                                }
                            },
                        }
                    },
                }
                i = i + 1;
            }
            if pieces.len() == 0 {
                pack_segments(cur)
            } else {
                if cur.len() > 0 {
                    let mut finished: Vec<Segment> = Vec::new();
                    core::mem::swap(&mut finished, &mut cur);
                    pieces.push(pack_segments(finished));
                }
                if pieces.len() == 1 {
                    let mut pieces = pieces;
                    let only = pieces.pop().unwrap();
                    only
                } else {
                    let r = ParsedValue::Block(pieces);
                    proof {
                        if ok {
                            lemma_list_view(r->Block_0@);
                            lemma_fk_free_list(list_view(r->Block_0@));
                            assert forall|j: int|
                                0 <= j < list_view(r->Block_0@).len() implies fk_free(
                                #[trigger] list_view(r->Block_0@)[j],
                            ) by {
                                assert(list_view(r->Block_0@)[j] == pv_view(&r->Block_0@[j]));
                            }
                        }
                    }
                    r
                }
            }
        },
        ParsedValue::Plural { ordinal, count_var, arms } => {
            proof {
                assert(decreases_to!(*v => v->Plural_arms));
            }
            let mut fixed_count: Option<i64> = None;
            let mut renamed: Option<String> = None;
            match find_override(overrides, count_var.as_str()) {
                Some(oi) => {
                    match &overrides[oi].1 {
                        ParsedValue::Literal(l) => {
                            fixed_count = lit_num_val(l);
                        },
                        ParsedValue::Interpolation(osegs) => {
                            if osegs.len() == 1 {
                                match &osegs[0] {
                                    Segment::Var(y) => {
                                        renamed = Some(y.clone());
                                    },
                                    _ => {},
                                }
                            }
                        },
                        _ => {},
                    }
                },
                None => {},
            }
            match fixed_count {
                Some(n) => {
                    let cat = crate::plurals::category_of(rules.rule(*ordinal), n);
                    let mut chosen: Option<usize> = None;
                    let mut a: usize = 0;
                    while a < arms.len()
                        invariant
                            a <= arms@.len(),
                            chosen matches Some(c) ==> c < arms@.len(),
                        decreases arms@.len() - a,
                    {
                        if chosen.is_none() {
                            match crate::plurals::category_of_name(arms[a].0.as_str()) {
                                Some(c) => {
                                    if c == cat {
                                        chosen = Some(a);
                                    }
                                },
                                None => {},
                            }
                        }
                        a = a + 1;
                    }
                    if chosen.is_none() {
                        let mut a2: usize = 0;
                        while a2 < arms.len()
                            invariant
                                a2 <= arms@.len(),
                                chosen matches Some(c) ==> c < arms@.len(),
                            decreases arms@.len() - a2,
                        {
                            if chosen.is_none() && crate::text::str_eq(
                                arms[a2].0.as_str(),
                                "other",
                            ) {
                                chosen = Some(a2);
                            }
                            a2 = a2 + 1;
                        }
                    }
                    match chosen {
                        Some(c) => {
                            proof {
                                assert(decreases_to!(v->Plural_arms => arms@));
                                assert(decreases_to!(arms@ => arms@[c as int]));
                                assert(decreases_to!(arms@[c as int] => arms@[c as int].1));
                                if ok {
                                    lemma_pairs_view(arms@);
                                    lemma_fk_free_pairs(pairs_view(arms@));
                                    assert(pairs_view(arms@)[c as int].1 == pv_view(
                                        &arms@[c as int].1,
                                    ));
                                }
                            }
                            substitute(rules, &arms[c].1, overrides)
                        },
                        None => {
                            subst_plural_default(rules, *ordinal, count_var, arms, overrides)
                        },
                    }
                },
                None => {
                    match renamed {
                        Some(y) => {
                            let new_arms = subst_pairs(rules, arms, overrides);
                            let r = ParsedValue::Plural {
                                ordinal: *ordinal,
                                count_var: y,
                                arms: new_arms,
                            };
                            proof {
                                if ok {
                                    lemma_reduced_pairs_fk_free(arms@, r->Plural_arms@);
                                }
                            }
                            r
                        },
                        None => {
                            subst_plural_default(rules, *ordinal, count_var, arms, overrides)
                        },
                    }
                },
            }
        },
        ParsedValue::Range { count_var, arms } => {
            proof {
                assert(decreases_to!(*v => v->Range_arms));
            }
            let mut fixed_count: Option<i64> = None;
            let mut renamed: Option<String> = None;
            match find_override(overrides, count_var.as_str()) {
                Some(oi) => {
                    match &overrides[oi].1 {
                        ParsedValue::Literal(l) => {
                            fixed_count = lit_num_val(l);
                        },
                        ParsedValue::Interpolation(osegs) => {
                            if osegs.len() == 1 {
                                match &osegs[0] {
                                    Segment::Var(y) => {
                                        renamed = Some(y.clone());
                                    },
                                    _ => {},
                                }
                            }
                        },
                        _ => {},
                    }
                },
                None => {},
            }
            match fixed_count {
                Some(n) => {
                    let mut chosen: Option<usize> = None;
                    let mut a: usize = 0;
                    while a < arms.len()
                        invariant
                            a <= arms@.len(),
                            chosen matches Some(c) ==> c < arms@.len(),
                        decreases arms@.len() - a,
                    {
                        if chosen.is_none() {
                            match crate::ranges::parse_range_arm(arms[a].0.as_str()) {
                                Some((lo, hi)) => {
                                    if crate::ranges::check_bounds_match(lo, hi, n) {
                                        chosen = Some(a);
                                    }
                                },
                                None => {},
                            }
                        }
                        a = a + 1;
                    }
                    match chosen {
                        Some(c) => {
                            proof {
                                assert(decreases_to!(v->Range_arms => arms@));
                                assert(decreases_to!(arms@ => arms@[c as int]));
                                assert(decreases_to!(arms@[c as int] => arms@[c as int].1));
                                if ok {
                                    lemma_pairs_view(arms@);
                                    lemma_fk_free_pairs(pairs_view(arms@));
                                    assert(pairs_view(arms@)[c as int].1 == pv_view(
                                        &arms@[c as int].1,
                                    ));
                                }
                            }
                            substitute(rules, &arms[c].1, overrides)
                        },
                        None => {
                            subst_range_default(rules, count_var, arms, overrides)
                        },
                    }
                },
                None => {
                    match renamed {
                        Some(y) => {
                            let new_arms = subst_pairs(rules, arms, overrides);
                            let r = ParsedValue::Range { count_var: y, arms: new_arms };
                            proof {
                                if ok {
                                    lemma_reduced_pairs_fk_free(arms@, r->Range_arms@);
                                }
                            }
                            r
                        },
                        None => {
                            subst_range_default(rules, count_var, arms, overrides)
                        },
                    }
                },
            }
        },
        ParsedValue::Subkeys(entries) => {
            proof {
                assert(decreases_to!(*v => v->Subkeys_0));
            }
            let new_entries = subst_key_pairs(rules, entries, overrides);
            let r = ParsedValue::Subkeys(new_entries);
            proof {
                if ok {
                    lemma_reduced_key_pairs_fk_free(entries@, r->Subkeys_0@);
                }
            }
            r
        },
        ParsedValue::Block(items) => {
            proof {
                assert(decreases_to!(*v => v->Block_0));
            }
            let new_items = subst_list(rules, items, overrides);
            let r = ParsedValue::Block(new_items);
            proof {
                if ok {
                    lemma_mapped_list_fk_free(items@, r->Block_0@);
                }
            }
            r
        },
    }
}

/// Values mapped pointwise keep freedom from foreign keys.
proof fn lemma_mapped_list_fk_free(a: Seq<ParsedValue>, b: Seq<ParsedValue>)
    requires
        a.len() == b.len(),
        forall|j: int|
            0 <= j < a.len() ==> (fk_free(pv_view(&a[j])) ==> fk_free(#[trigger] pv_view(&b[j]))),
    ensures
        fk_free_list(list_view(a)) ==> fk_free_list(list_view(b)),
{
    lemma_list_view(a);
    lemma_list_view(b);
    lemma_fk_free_list(list_view(a));
    lemma_fk_free_list(list_view(b));
    if fk_free_list(list_view(a)) {
        assert forall|j: int| 0 <= j < list_view(b).len() implies fk_free(
            #[trigger] list_view(b)[j],
        ) by {
            assert(list_view(a)[j] == pv_view(&a[j]));
            assert(list_view(b)[j] == pv_view(&b[j]));
        }
    }
}

/// Rebuilds a plural node with every arm substituted and the count
/// variable as authored.
fn subst_plural_default(
    rules: PluralRules,
    ordinal: bool,
    count_var: &String,
    arms: &Vec<(String, ParsedValue)>,
    overrides: &Vec<(String, ParsedValue)>,
) -> (r: ParsedValue)
    ensures
        fk_free_pairs(pairs_view(arms@)) && overrides_fk_free(overrides@) ==> fk_free(r@),
    decreases arms, 1int,
{
    let new_arms = subst_pairs(rules, arms, overrides);
    let r = ParsedValue::Plural { ordinal, count_var: count_var.clone(), arms: new_arms };
    proof {
        if fk_free_pairs(pairs_view(arms@)) && overrides_fk_free(overrides@) {
            lemma_reduced_pairs_fk_free(arms@, r->Plural_arms@);
        }
    }
    r
}

/// Rebuilds a range node with every arm substituted and the count
/// variable as authored.
fn subst_range_default(
    rules: PluralRules,
    count_var: &String,
    arms: &Vec<(String, ParsedValue)>,
    overrides: &Vec<(String, ParsedValue)>,
) -> (r: ParsedValue)
    ensures
        fk_free_pairs(pairs_view(arms@)) && overrides_fk_free(overrides@) ==> fk_free(r@),
    decreases arms, 1int,
{
    let new_arms = subst_pairs(rules, arms, overrides);
    let r = ParsedValue::Range { count_var: count_var.clone(), arms: new_arms };
    proof {
        if fk_free_pairs(pairs_view(arms@)) && overrides_fk_free(overrides@) {
            lemma_reduced_pairs_fk_free(arms@, r->Range_arms@);
        }
    }
    r
}

/// Substitutes into every value of a pair list.
fn subst_pairs(
    rules: PluralRules,
    pairs: &Vec<(String, ParsedValue)>,
    overrides: &Vec<(String, ParsedValue)>,
) -> (r: Vec<(String, ParsedValue)>)
    ensures
        r@.len() == pairs@.len(),
        forall|j: int| 0 <= j < pairs@.len() ==> #[trigger] r@[j].0@ == pairs@[j].0@,
        forall|j: int|
            0 <= j < pairs@.len() ==> (fk_free(pv_view(&pairs@[j].1)) && overrides_fk_free(
                overrides@,
            ) ==> fk_free(#[trigger] pv_view(&r@[j].1))),
    decreases pairs, 0int,
{
    let mut out: Vec<(String, ParsedValue)> = Vec::new();
    let mut i: usize = 0;
    while i < pairs.len()
        invariant
            i <= pairs@.len(),
            out@.len() == i as int,
            forall|j: int| 0 <= j < i ==> #[trigger] out@[j].0@ == pairs@[j].0@,
            forall|j: int|
                0 <= j < i ==> (fk_free(pv_view(&pairs@[j].1)) && overrides_fk_free(overrides@)
                    ==> fk_free(#[trigger] pv_view(&out@[j].1))),
        decreases pairs@.len() - i,
    {
        proof {
            assert(decreases_to!(*pairs => pairs@));
            assert(decreases_to!(pairs@ => pairs@[i as int]));
            assert(decreases_to!(pairs@[i as int] => pairs@[i as int].1));
        }
        let val = substitute(rules, &pairs[i].1, overrides);
        out.push((pairs[i].0.clone(), val));
        i = i + 1;
    }
    out
}

/// Substitutes into every value of a key/value list.
fn subst_key_pairs(
    rules: PluralRules,
    pairs: &Vec<(Key, ParsedValue)>,
    overrides: &Vec<(String, ParsedValue)>,
) -> (r: Vec<(Key, ParsedValue)>)
    ensures
        r@.len() == pairs@.len(),
        forall|j: int| 0 <= j < pairs@.len() ==> #[trigger] r@[j].0@ == pairs@[j].0@,
        forall|j: int|
            0 <= j < pairs@.len() ==> (fk_free(pv_view(&pairs@[j].1)) && overrides_fk_free(
                overrides@,
            ) ==> fk_free(#[trigger] pv_view(&r@[j].1))),
    decreases pairs, 1int,
{
    let mut out: Vec<(Key, ParsedValue)> = Vec::new();
    let mut i: usize = 0;
    while i < pairs.len()
        invariant
            i <= pairs@.len(),
            out@.len() == i as int,
            forall|j: int| 0 <= j < i ==> #[trigger] out@[j].0@ == pairs@[j].0@,
            forall|j: int|
                0 <= j < i ==> (fk_free(pv_view(&pairs@[j].1)) && overrides_fk_free(overrides@)
                    ==> fk_free(#[trigger] pv_view(&out@[j].1))),
        decreases pairs@.len() - i,
    {
        proof {
            assert(decreases_to!(*pairs => pairs@));
            assert(decreases_to!(pairs@ => pairs@[i as int]));
            assert(decreases_to!(pairs@[i as int] => pairs@[i as int].1));
        }
        let val = substitute(rules, &pairs[i].1, overrides);
        out.push((pairs[i].0.duplicate(), val));
        i = i + 1;
    }
    out
}

/// Substitutes into every value of a list.
fn subst_list(
    rules: PluralRules,
    items: &Vec<ParsedValue>,
    overrides: &Vec<(String, ParsedValue)>,
) -> (r: Vec<ParsedValue>)
    ensures
        r@.len() == items@.len(),
        forall|j: int|
            0 <= j < items@.len() ==> (fk_free(pv_view(&items@[j])) && overrides_fk_free(
                overrides@,
            ) ==> fk_free(#[trigger] pv_view(&r@[j]))),
    decreases items, 2int,
{
    let mut out: Vec<ParsedValue> = Vec::new();
    let mut i: usize = 0;
    while i < items.len()
        invariant
            i <= items@.len(),
            out@.len() == i as int,
            forall|j: int|
                0 <= j < i ==> (fk_free(pv_view(&items@[j])) && overrides_fk_free(overrides@)
                    ==> fk_free(#[trigger] pv_view(&out@[j]))),
        decreases items@.len() - i,
    {
        proof {
            assert(decreases_to!(*items => items@));
            assert(decreases_to!(items@ => items@[i as int]));
        }
        let val = substitute(rules, &items[i], overrides);
        out.push(val);
        i = i + 1;
    }
    out
}

/// A copy of the resolution stack, for a cycle report.
fn copy_stack(stack: &Vec<KeyPath>) -> (r: Vec<KeyPath>)
    ensures
        r@.len() == stack@.len(),
        forall|j: int| 0 <= j < stack@.len() ==> #[trigger] r@[j]@ == stack@[j]@,
{
    let mut out: Vec<KeyPath> = Vec::new();
    let mut i: usize = 0;
    while i < stack.len()
        invariant
            i <= stack@.len(),
            out@.len() == i as int,
            forall|j: int| 0 <= j < i ==> #[trigger] out@[j]@ == stack@[j]@,
        decreases stack@.len() - i,
    {
        out.push(stack[i].duplicate());
        i = i + 1;
    }
    out
}

/// Resolves one value: every foreign-key node inside is replaced by the
/// referenced key's resolved value with overrides substituted. A value
/// already free of foreign keys comes back exactly as it was. The
/// resolution stack is left as it was on every exit.
pub fn resolve_value(
    ctx: &ResolveCtx,
    path: &KeyPath,
    v: &ParsedValue,
    stack: &mut Vec<KeyPath>,
    warnings: &mut Warnings,
) -> (r: Result<ParsedValue, Error>)
    requires
        stack_ok(old(stack)@, ctx.entries@),
    ensures
        final(stack)@ == old(stack)@,
        r matches Ok(out) ==> fk_free(out@),
        fk_free(v@) ==> (r matches Ok(out) && out@ == v@),
        fk_free(v@) ==> final(warnings)@ == old(warnings)@,
        r matches Err(e) ==> cycle_report_sound(&e, ctx),
        v@ matches PvView::ForeignKey { path: fkp, overrides: ov } ==> ((fk_free_pairs(ov)
            && no_matching_target(ctx.entries@, fk_probe(fkp, path@.namespace))) ==> (r matches
        Err(e) && unknown_target_reported(&e, fk_probe(fkp, path@.namespace)))),
    decreases ctx.entries@.len() + 1 - stack@.len(), v, 3int,
{
    if check_fk_free(v) {
        return Ok(v.deep_copy());
    }
    match v {
        ParsedValue::Literal(_) => Ok(v.deep_copy()),
        ParsedValue::Interpolation(_) => Ok(v.deep_copy()),
        ParsedValue::Plural { ordinal, count_var, arms } => {
            proof {
                assert(decreases_to!(*v => v->Plural_arms));
                lemma_stack_bound(stack@, ctx.entries@);
            }
            match resolve_pairs(ctx, path, arms, stack, warnings) {
                Ok(new_arms) => {
                    let r = ParsedValue::Plural {
                        ordinal: *ordinal,
                        count_var: count_var.clone(),
                        arms: new_arms,
                    };
                    proof {
                        lemma_pairs_view(r->Plural_arms@);
                        lemma_fk_free_pairs(pairs_view(r->Plural_arms@));
                        assert forall|j: int|
                            0 <= j < pairs_view(r->Plural_arms@).len() implies fk_free(
                            #[trigger] pairs_view(r->Plural_arms@)[j].1,
                        ) by {
                            assert(pairs_view(r->Plural_arms@)[j].1 == pv_view(
                                &r->Plural_arms@[j].1,
                            ));
                        }
                    }
                    Ok(r)
                },
                Err(e) => Err(e),
            }
        },
        ParsedValue::Range { count_var, arms } => {
            proof {
                assert(decreases_to!(*v => v->Range_arms));
                lemma_stack_bound(stack@, ctx.entries@);
            }
            match resolve_pairs(ctx, path, arms, stack, warnings) {
                Ok(new_arms) => {
                    let r = ParsedValue::Range { count_var: count_var.clone(), arms: new_arms };
                    proof {
                        lemma_pairs_view(r->Range_arms@);
                        lemma_fk_free_pairs(pairs_view(r->Range_arms@));
                        assert forall|j: int|
                            0 <= j < pairs_view(r->Range_arms@).len() implies fk_free(
                            #[trigger] pairs_view(r->Range_arms@)[j].1,
                        ) by {
                            assert(pairs_view(r->Range_arms@)[j].1 == pv_view(
                                &r->Range_arms@[j].1,
                            ));
                        }
                    }
                    Ok(r)
                },
                Err(e) => Err(e),
            }
        },
        ParsedValue::Subkeys(entries) => {
            proof {
                assert(decreases_to!(*v => v->Subkeys_0));
                lemma_stack_bound(stack@, ctx.entries@);
            }
            match resolve_key_pairs(ctx, path, entries, stack, warnings) {
                Ok(new_entries) => {
                    let r = ParsedValue::Subkeys(new_entries);
                    proof {
                        lemma_key_pairs_view(r->Subkeys_0@);
                        lemma_fk_free_pairs(key_pairs_view(r->Subkeys_0@));
                        assert forall|j: int|
                            0 <= j < key_pairs_view(r->Subkeys_0@).len() implies fk_free(
                            #[trigger] key_pairs_view(r->Subkeys_0@)[j].1,
                        ) by {
                            assert(key_pairs_view(r->Subkeys_0@)[j].1 == pv_view(
                                &r->Subkeys_0@[j].1,
                            ));
                        }
                    }
                    Ok(r)
                },
                Err(e) => Err(e),
            }
        },
        ParsedValue::Block(items) => {
            proof {
                assert(decreases_to!(*v => v->Block_0));
                lemma_stack_bound(stack@, ctx.entries@);
            }
            match resolve_list(ctx, path, items, stack, warnings) {
                Ok(new_items) => {
                    let tmp = ParsedValue::Block(new_items);
                    proof {
                        lemma_list_view(tmp->Block_0@);
                        lemma_fk_free_list(list_view(tmp->Block_0@));
                        assert forall|j: int|
                            0 <= j < list_view(tmp->Block_0@).len() implies fk_free(
                            #[trigger] list_view(tmp->Block_0@)[j],
                        ) by {
                            assert(list_view(tmp->Block_0@)[j] == pv_view(&tmp->Block_0@[j]));
                        }
                        assert(fk_free(tmp@));
                    }
                    Ok(reduce(&tmp))
                },
                Err(e) => Err(e),
            }
        },
        ParsedValue::ForeignKey { path: fkpath, overrides } => {
            let ghost spec_probe = fk_probe(fkpath@, path@.namespace);
            let ghost ov_free = fk_free_pairs(pairs_view(overrides@));
            proof {
                assert(decreases_to!(*v => v->ForeignKey_overrides));
                lemma_stack_bound(stack@, ctx.entries@);
                if ov_free {
                    lemma_pairs_view(overrides@);
                    lemma_fk_free_pairs(pairs_view(overrides@));
                    assert forall|j: int| 0 <= j < overrides@.len() implies fk_free(
                        #[trigger] pv_view(&overrides@[j].1),
                    ) by {
                        assert(pairs_view(overrides@)[j].1 == pv_view(&overrides@[j].1));
                    }
                }
            }
            let new_overrides = match resolve_pairs(ctx, path, overrides, stack, warnings) {
                Ok(o) => o,
                Err(e) => {
                    return Err(e);
                },
            };
            let ns: Option<Key> = match fkpath.namespace_dup() {
                Some(k) => Some(k),
                None => path.namespace_dup(),
            };
            proof {
                assert(crate::key::opt_key_view(&ns) == spec_probe.namespace);
            }
            let mut probe = KeyPath::new(ns);
            let mut t: usize = 0;
            while t < fkpath.depth()
                invariant
                    t <= fkpath@.keys.len(),
                    probe@.namespace == spec_probe.namespace,
                    probe@.keys == fkpath@.keys.take(t as int),
                decreases fkpath@.keys.len() - t,
            {
                proof {
                    assert(fkpath@.keys.take(t as int).push(fkpath@.keys[t as int])
                        =~= fkpath@.keys.take(t as int + 1));
                }
                probe.push_key(fkpath.key_at(t).duplicate());
                t = t + 1;
            }
            proof {
                assert(fkpath@.keys.take(fkpath@.keys.len() as int) =~= fkpath@.keys);
                assert(probe@ == spec_probe);
            }
            let e: usize = match find_entry(&ctx.entries, &probe) {
                Some(e) => e,
                None => {
                    return Err(
                        Error::UnknownForeignKey {
                            locale: ctx.locale.clone(),
                            path: path.duplicate(),
                            target: probe,
                        },
                    );
                },
            };
            if stack_contains(stack, &ctx.entries[e].target) {
                let cycle = copy_stack(stack);
                proof {
                    assert(stack_view(cycle@) =~= stack_view(stack@));
                }
                return Err(
                    Error::CyclicReference {
                        locale: ctx.locale.clone(),
                        path: path.duplicate(),
                        cycle,
                    },
                );
            }
            let ghost s0 = stack@;
            stack.push(ctx.entries[e].target.duplicate());
            proof {
                assert(stack_view(stack@) =~= stack_view(s0).push(ctx.entries@[e as int].target@));
                assert(universe_view(ctx.entries@)[e as int] == ctx.entries@[e as int].target@);
                assert(universe_view(ctx.entries@).contains(ctx.entries@[e as int].target@));
                assert forall|i: int, j: int|
                    0 <= i < j < stack_view(stack@).len() implies stack_view(stack@)[i]
                    != stack_view(stack@)[j] by {
                    if j < stack_view(s0).len() {
                        assert(stack_view(s0)[i] != stack_view(s0)[j]);
                    } else {
                        assert(!stack_view(s0).contains(ctx.entries@[e as int].target@));
                        assert(stack_view(s0)[i] != ctx.entries@[e as int].target@);
                    }
                }
                assert(stack_view(stack@).no_duplicates());
                assert forall|i: int| 0 <= i < stack@.len() implies universe_view(
                    ctx.entries@,
                ).contains(#[trigger] stack_view(stack@)[i]) by {
                    if i < stack_view(s0).len() {
                        assert(stack_view(stack@)[i] == stack_view(s0)[i]);
                    }
                }
                assert(stack_ok(stack@, ctx.entries@));
                lemma_stack_bound(stack@, ctx.entries@);
            }
            let res = resolve_value(ctx, path, &ctx.entries[e].value, stack, warnings);
            let _ = stack.pop();
            proof {
                assert(stack@ =~= s0);
            }
            let resolved_target = match res {
                Ok(x) => x,
                Err(err) => {
                    return Err(err);
                },
            };
            // Overrides whose names are not free in the target do nothing:
            // report each one.
            let mut used: Vec<String> = Vec::new();
            collect_vars(&resolved_target, &mut used);
            let mut w: usize = 0;
            while w < new_overrides.len()
                invariant
                    w <= new_overrides@.len(),
                decreases new_overrides@.len() - w,
            {
                if !names_contain(&used, new_overrides[w].0.as_str()) {
                    warnings.push(
                        Warning::DeadOverride {
                            locale: ctx.locale.clone(),
                            path: path.duplicate(),
                            name: new_overrides[w].0.clone(),
                        },
                    );
                }
                w = w + 1;
            }
            let substituted = substitute(ctx.rules, &resolved_target, &new_overrides);
            proof {
                assert(overrides_fk_free(new_overrides@));
                assert(fk_free(substituted@));
            }
            Ok(reduce(&substituted))
        },
    }
}

/// Resolves every value of a pair list; names stay, every resolved value
/// is free of foreign keys.
fn resolve_pairs(
    ctx: &ResolveCtx,
    path: &KeyPath,
    pairs: &Vec<(String, ParsedValue)>,
    stack: &mut Vec<KeyPath>,
    warnings: &mut Warnings,
) -> (r: Result<Vec<(String, ParsedValue)>, Error>)
    requires
        stack_ok(old(stack)@, ctx.entries@),
    ensures
        final(stack)@ == old(stack)@,
        r matches Ok(out) ==> out@.len() == pairs@.len() && (forall|j: int|
            0 <= j < pairs@.len() ==> #[trigger] out@[j].0@ == pairs@[j].0@) && (forall|j: int|
            0 <= j < pairs@.len() ==> fk_free(#[trigger] pv_view(&out@[j].1))),
        (forall|j: int| 0 <= j < pairs@.len() ==> fk_free(#[trigger] pv_view(&pairs@[j].1)))
            ==> (r matches Ok(out) && final(warnings)@ == old(warnings)@ && (forall|j: int|
            0 <= j < pairs@.len() ==> pv_view(&#[trigger] out@[j].1) == pv_view(&pairs@[j].1))),
        r matches Err(e) ==> cycle_report_sound(&e, ctx),
    decreases ctx.entries@.len() + 1 - stack@.len(), pairs, 0int,
{
    let ghost all_free = forall|j: int|
        0 <= j < pairs@.len() ==> fk_free(#[trigger] pv_view(&pairs@[j].1));
    let mut out: Vec<(String, ParsedValue)> = Vec::new();
    let mut i: usize = 0;
    while i < pairs.len()
        invariant
            i <= pairs@.len(),
            out@.len() == i as int,
            stack@ == old(stack)@,
            stack_ok(stack@, ctx.entries@),
            all_free == (forall|j: int|
                0 <= j < pairs@.len() ==> fk_free(#[trigger] pv_view(&pairs@[j].1))),
            all_free ==> warnings@ == old(warnings)@,
            all_free ==> (forall|j: int|
                0 <= j < i ==> pv_view(&#[trigger] out@[j].1) == pv_view(&pairs@[j].1)),
            forall|j: int| 0 <= j < i ==> #[trigger] out@[j].0@ == pairs@[j].0@,
            forall|j: int| 0 <= j < i ==> fk_free(#[trigger] pv_view(&out@[j].1)),
        decreases pairs@.len() - i,
    {
        proof {
            assert(decreases_to!(*pairs => pairs@));
            assert(decreases_to!(pairs@ => pairs@[i as int]));
            assert(decreases_to!(pairs@[i as int] => pairs@[i as int].1));
            lemma_stack_bound(stack@, ctx.entries@);
        }
        let val = match resolve_value(ctx, path, &pairs[i].1, stack, warnings) {
            Ok(x) => x,
            Err(e) => {
                return Err(e);
            },
        };
        out.push((pairs[i].0.clone(), val));
        i = i + 1;
    }
    Ok(out)
}

/// Resolves every value of a key/value list.
fn resolve_key_pairs(
    ctx: &ResolveCtx,
    path: &KeyPath,
    pairs: &Vec<(Key, ParsedValue)>,
    stack: &mut Vec<KeyPath>,
    warnings: &mut Warnings,
) -> (r: Result<Vec<(Key, ParsedValue)>, Error>)
    requires
        stack_ok(old(stack)@, ctx.entries@),
    ensures
        final(stack)@ == old(stack)@,
        r matches Ok(out) ==> out@.len() == pairs@.len() && (forall|j: int|
            0 <= j < pairs@.len() ==> #[trigger] out@[j].0@ == pairs@[j].0@) && (forall|j: int|
            0 <= j < pairs@.len() ==> fk_free(#[trigger] pv_view(&out@[j].1))),
        (forall|j: int| 0 <= j < pairs@.len() ==> fk_free(#[trigger] pv_view(&pairs@[j].1)))
            ==> (r matches Ok(out) && final(warnings)@ == old(warnings)@ && (forall|j: int|
            0 <= j < pairs@.len() ==> pv_view(&#[trigger] out@[j].1) == pv_view(&pairs@[j].1))),
        r matches Err(e) ==> cycle_report_sound(&e, ctx),
    decreases ctx.entries@.len() + 1 - stack@.len(), pairs, 1int,
{
    let ghost all_free = forall|j: int|
        0 <= j < pairs@.len() ==> fk_free(#[trigger] pv_view(&pairs@[j].1));
    let mut out: Vec<(Key, ParsedValue)> = Vec::new();
    let mut i: usize = 0;
    while i < pairs.len()
        invariant
            i <= pairs@.len(),
            out@.len() == i as int,
            stack@ == old(stack)@,
            stack_ok(stack@, ctx.entries@),
            all_free == (forall|j: int|
                0 <= j < pairs@.len() ==> fk_free(#[trigger] pv_view(&pairs@[j].1))),
            all_free ==> warnings@ == old(warnings)@,
            all_free ==> (forall|j: int|
                0 <= j < i ==> pv_view(&#[trigger] out@[j].1) == pv_view(&pairs@[j].1)),
            forall|j: int| 0 <= j < i ==> #[trigger] out@[j].0@ == pairs@[j].0@,
            forall|j: int| 0 <= j < i ==> fk_free(#[trigger] pv_view(&out@[j].1)),
        decreases pairs@.len() - i,
    {
        proof {
            assert(decreases_to!(*pairs => pairs@));
            assert(decreases_to!(pairs@ => pairs@[i as int]));
            assert(decreases_to!(pairs@[i as int] => pairs@[i as int].1));
            lemma_stack_bound(stack@, ctx.entries@);
        }
        let val = match resolve_value(ctx, path, &pairs[i].1, stack, warnings) {
            Ok(x) => x,
            Err(e) => {
                return Err(e);
            },
        };
        out.push((pairs[i].0.duplicate(), val));
        i = i + 1;
    }
    Ok(out)
}

/// Resolves every value of a list.
fn resolve_list(
    ctx: &ResolveCtx,
    path: &KeyPath,
    items: &Vec<ParsedValue>,
    stack: &mut Vec<KeyPath>,
    warnings: &mut Warnings,
) -> (r: Result<Vec<ParsedValue>, Error>)
    requires
        stack_ok(old(stack)@, ctx.entries@),
    ensures
        final(stack)@ == old(stack)@,
        r matches Ok(out) ==> out@.len() == items@.len() && (forall|j: int|
            0 <= j < items@.len() ==> fk_free(#[trigger] pv_view(&out@[j]))),
        r matches Err(e) ==> cycle_report_sound(&e, ctx),
    decreases ctx.entries@.len() + 1 - stack@.len(), items, 2int,
{
    let mut out: Vec<ParsedValue> = Vec::new();
    let mut i: usize = 0;
    while i < items.len()
        invariant
            i <= items@.len(),
            out@.len() == i as int,
            stack@ == old(stack)@,
            stack_ok(stack@, ctx.entries@),
            forall|j: int| 0 <= j < i ==> fk_free(#[trigger] pv_view(&out@[j])),
        decreases items@.len() - i,
    {
        proof {
            assert(decreases_to!(*items => items@));
            assert(decreases_to!(items@ => items@[i as int]));
            lemma_stack_bound(stack@, ctx.entries@);
        }
        let val = match resolve_value(ctx, path, &items[i], stack, warnings) {
            Ok(x) => x,
            Err(e) => {
                return Err(e);
            },
        };
        out.push(val);
        i = i + 1;
    }
    Ok(out)
}

} // verus!
