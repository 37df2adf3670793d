//! Plain-text preview of a resolved value, laid out as the generated
//! components render it: a value of several pieces shows each piece
//! wrapped in a `<span>`, a single-piece value shows bare.
//!
//! Rendering is a preview aid and a test harness, not the product: the
//! schema, not rendered text, is what the pipeline hands on. Plural and
//! range nodes dispatch on the supplied counts with the same rules and
//! the same first-match order the resolvers validate.

use vstd::prelude::*;
use vstd::string::StrSliceExecFns;
use vstd::string::StringExecFns;

use crate::parsed_value::{LiteralValue, LitView, ParsedValue, PvView, Segment};
use crate::plurals::{category_of, category_of_name, PluralRules};
use crate::ranges::{check_bounds_match, parse_range_arm};
use crate::text::str_eq;

verus! {

/// The pieces wrapped in spans, joined: what a fragment of several
/// rendered pieces becomes.
pub open spec fn spans_concat(s: Seq<Seq<char>>) -> Seq<char>
    decreases s.len(),
{
    if s.len() == 0 {
        Seq::empty()
    } else {
        "<span>"@ + s[0] + "</span>"@ + spans_concat(s.drop_first())
    }
}

/// Extending the prefix extends the wrapped text at the end.
proof fn lemma_spans_take(s: Seq<Seq<char>>, i: int)
    requires
        0 <= i < s.len(),
    ensures
        spans_concat(s.take(i + 1)) == spans_concat(s.take(i)) + ("<span>"@ + s[i] + "</span>"@),
    decreases i,
{
    if i == 0 {
        assert(s.take(1).drop_first() =~= Seq::<Seq<char>>::empty());
        assert(s.take(0) =~= Seq::<Seq<char>>::empty());
        assert(s.take(1)[0] == s[0]);
        assert(spans_concat(s.take(1)) =~= spans_concat(s.take(0)) + ("<span>"@ + s[0]
            + "</span>"@));
    } else {
        lemma_spans_take(s.drop_first(), i - 1);
        assert(s.take(i + 1).drop_first() =~= s.drop_first().take(i));
        assert(s.take(i).drop_first() =~= s.drop_first().take(i - 1));
        assert(s.take(i + 1)[0] == s[0]);
        assert(s.take(i)[0] == s[0]);
        assert(s.drop_first()[i - 1] == s[i]);
        assert(spans_concat(s.take(i + 1)) =~= spans_concat(s.take(i)) + ("<span>"@ + s[i]
            + "</span>"@));
    }
}

/// The views of the rendered pieces.
pub open spec fn pieces_view(s: Seq<String>) -> Seq<Seq<char>> {
    s.map_values(|p: String| p@)
}

/// Joins rendered pieces, wrapping each one in a `<span>`.
pub fn collect_into_spans(pieces: Vec<String>) -> (r: String)
    ensures
        r@ == spans_concat(pieces_view(pieces@)),
{
    let ghost pv = pieces_view(pieces@);
    let mut out = String::new();
    let mut i: usize = 0;
    proof {
        assert(pv.take(0) =~= Seq::<Seq<char>>::empty());
    }
    while i < pieces.len()
        invariant
            i <= pieces@.len(),
            pv == pieces_view(pieces@),
            pv.len() == pieces@.len(),
            forall|x: int| 0 <= x < pv.len() ==> #[trigger] pv[x] == pieces@[x]@,
            out@ == spans_concat(pv.take(i as int)),
        decreases pieces@.len() - i,
    {
        out.append("<span>");
        out.append(pieces[i].as_str());
        out.append("</span>");
        proof {
            lemma_spans_take(pv, i as int);
        }
        i = i + 1;
    }
    proof {
        assert(pv.take(pv.len() as int) =~= pv);
    }
    out
}

/// The argument text for `name`, or empty text when the caller supplied
/// none.
fn arg_text(args: &Vec<(String, String)>, name: &str) -> (r: String) {
    let mut i: usize = 0;
    while i < args.len()
        invariant
            i <= args@.len(),
        decreases args@.len() - i,
    {
        if str_eq(args[i].0.as_str(), name) {
            return args[i].1.clone();
        }
        i = i + 1;
    }
    String::new()
}

/// The count for `name`, or zero when the caller supplied none.
fn count_value(counts: &Vec<(String, i64)>, name: &str) -> (r: i64) {
    let mut i: usize = 0;
    while i < counts.len()
        invariant
            i <= counts@.len(),
        decreases counts@.len() - i,
    {
        if str_eq(counts[i].0.as_str(), name) {
            return counts[i].1;
        }
        i = i + 1;
    }
    0
}

/// Renders one resolved value with the given text arguments and counts.
/// A plain text literal renders to exactly its own characters.
pub fn render_value(
    v: &ParsedValue,
    args: &Vec<(String, String)>,
    counts: &Vec<(String, i64)>,
    rules: PluralRules,
) -> (r: String)
    ensures
        v@ matches PvView::Literal(l) ==> (l matches LitView::Str(t) ==> r@ == t),
    decreases v, 3int,
{
    match v {
        ParsedValue::Literal(LiteralValue::Str(t)) => t.clone(),
        ParsedValue::Literal(LiteralValue::Num(_, t)) => t.clone(),
        ParsedValue::Literal(LiteralValue::Bool(b)) => {
            if *b {
                "true".to_owned()
            } else {
                "false".to_owned()
            }
        },
        ParsedValue::Interpolation(segs) => {
            let mut pieces: Vec<String> = Vec::new();
            let mut i: usize = 0;
            while i < segs.len()
                invariant
                    i <= segs@.len(),
                decreases segs@.len() - i,
            {
                match &segs[i] {
                    Segment::Lit(t) => {
                        pieces.push(t.clone());
                    },
                    Segment::Var(x) => {
                        pieces.push(arg_text(args, x.as_str()));
                    },
                }
                i = i + 1;
            }
            if pieces.len() == 1 {
                let mut pieces = pieces;
                pieces.pop().unwrap()
            } else {
                collect_into_spans(pieces)
            }
        },
        ParsedValue::Plural { ordinal, count_var, arms } => {
            proof {
                assert(decreases_to!(*v => v->Plural_arms));
            }
            let n: i64 = count_value(counts, count_var.as_str());
            let cat = category_of(rules.rule(*ordinal), n);
            let mut chosen: Option<usize> = None;
            let mut a: usize = 0;
            while a < arms.len()
                invariant
                    a <= arms@.len(),
                    chosen matches Some(c) ==> c < arms@.len(),
                decreases arms@.len() - a,
            {
                if chosen.is_none() {
                    match category_of_name(arms[a].0.as_str()) {
                        Some(c) => {
                            if c == cat {
                                chosen = Some(a);
                            }
                        },
                        None => {},
                    }
                }
                a = a + 1;
            }
            if chosen.is_none() {
                let mut a2: usize = 0;
                while a2 < arms.len()
                    invariant
                        a2 <= arms@.len(),
                        chosen matches Some(c) ==> c < arms@.len(),
                    decreases arms@.len() - a2,
                {
                    if chosen.is_none() && str_eq(arms[a2].0.as_str(), "other") {
                        chosen = Some(a2);
                    }
                    a2 = a2 + 1;
                }
            }
            match chosen {
                Some(c) => {
                    proof {
                        assert(decreases_to!(v->Plural_arms => arms@));
                        assert(decreases_to!(arms@ => arms@[c as int]));
                        assert(decreases_to!(arms@[c as int] => arms@[c as int].1));
                    }
                    render_value(&arms[c].1, args, counts, rules)
                },
                None => String::new(),
            }
        },
        ParsedValue::Range { count_var, arms } => {
            proof {
                assert(decreases_to!(*v => v->Range_arms));
            }
            let n: i64 = count_value(counts, count_var.as_str());
            let mut chosen: Option<usize> = None;
            let mut a: usize = 0;
            while a < arms.len()
                invariant
                    a <= arms@.len(),
                    chosen matches Some(c) ==> c < arms@.len(),
                decreases arms@.len() - a,
            {
                if chosen.is_none() {
                    match parse_range_arm(arms[a].0.as_str()) {
                        Some((lo, hi)) => {
                            if check_bounds_match(lo, hi, n) {
                                chosen = Some(a);
                            }
                        },
                        None => {},
                    }
                }
                a = a + 1;
            }
            match chosen {
                Some(c) => {
                    proof {
                        assert(decreases_to!(v->Range_arms => arms@));
                        assert(decreases_to!(arms@ => arms@[c as int]));
                        assert(decreases_to!(arms@[c as int] => arms@[c as int].1));
                    }
                    render_value(&arms[c].1, args, counts, rules)
                },
                None => String::new(),
            }
        },
        ParsedValue::ForeignKey { .. } => String::new(),
        ParsedValue::Subkeys(_) => String::new(),
        ParsedValue::Block(items) => {
            proof {
                assert(decreases_to!(*v => v->Block_0));
            }
            let pieces = render_list(items, args, counts, rules);
            if pieces.len() == 1 {
                let mut pieces = pieces;
                pieces.pop().unwrap()
            } else {
                collect_into_spans(pieces)
            }
        },
    }
}

/// Renders each value of a list into its own piece.
fn render_list(
    items: &Vec<ParsedValue>,
    args: &Vec<(String, String)>,
    counts: &Vec<(String, i64)>,
    rules: PluralRules,
) -> (r: Vec<String>)
    decreases items, 2int,
{
    let mut pieces: Vec<String> = Vec::new();
    let mut i: usize = 0;
    while i < items.len()
        invariant
            i <= items@.len(),
        decreases items@.len() - i,
    {
        proof {
            assert(decreases_to!(*items => items@));
            assert(decreases_to!(items@ => items@[i as int]));
        }
        pieces.push(render_value(&items[i], args, counts, rules));
        i = i + 1;
    }
    pieces
}

} // verus!
