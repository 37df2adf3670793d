//! The value parser: one raw value in, one `ParsedValue` out.
//!
//! Strings are scanned for the embedded micro-syntax: `{name}` marks an
//! interpolation variable, and `$t(path)` — with optional overrides
//! `$t(path, name = value)` and an optional namespace `$t(ns:path.to.key)` —
//! marks a foreign-key reference. Ordered mappings become plural blocks when
//! their keys are plural category names (or the `ordinal` marker key is
//! present), range blocks when their keys are range bound expressions, and
//! nested subkeys otherwise. Inside plural and range blocks the reserved key
//! `count` renames the count variable and `ordinal` (a boolean) selects the
//! ordinal rule. Parsing is purely structural: whether a category is legal
//! for a locale, or a bound degenerate, is judged later by the resolvers.

use vstd::prelude::*;
use vstd::string::StrSliceExecFns;

use crate::error::Error;
use crate::key::{Key, KeyPath};
use crate::parsed_value::{segs_view, LitView, LiteralValue, ParsedValue, PvView, Segment};
use crate::raw::RawValue;
use crate::text::{str_eq, substring};

verus! {

/// Whether position `i` of `s` starts embedded syntax: a `{` or the `$t(`
/// marker.
pub open spec fn special_at(s: Seq<char>, i: int) -> bool {
    s[i] == '{' || (s[i] == '$' && i + 2 < s.len() && s[i + 1] == 't' && s[i + 2] == '(')
}

/// Whether `s` holds no embedded syntax at all: such a string parses to a
/// literal with exactly its own characters.
pub open spec fn plain_text(s: Seq<char>) -> bool {
    forall|i: int| 0 <= i < s.len() ==> !special_at(s, i)
}

/// The first index at or after `from` where `s` is not a space.
fn skip_spaces(s: &str, from: usize) -> (r: usize)
    requires
        from <= s@.len(),
    ensures
        from <= r <= s@.len(),
{
    let n: usize = s.unicode_len();
    let mut i: usize = from;
    while i < n && s.get_char(i) == ' '
        invariant
            from <= i <= n,
            n == s@.len(),
        decreases n - i,
    {
        i = i + 1;
    }
    i
}

/// The end of the identifier run starting at `from`.
fn scan_ident(s: &str, from: usize) -> (r: usize)
    requires
        from <= s@.len(),
    ensures
        from <= r <= s@.len(),
{
    let n: usize = s.unicode_len();
    let mut i: usize = from;
    while i < n && crate::key::check_ident_continue(s.get_char(i))
        invariant
            from <= i <= n,
            n == s@.len(),
        decreases n - i,
    {
        i = i + 1;
    }
    i
}

/// A `ParseError` for this locale and path, keeping the malformed fragment.
pub(crate) fn parse_error(locale: &str, path: &KeyPath, fragment: String) -> (r: Error)
    ensures
        r matches Error::ParseError { locale: l, path: p, fragment: f } && l@ == locale@ && p@
            == path@ && f@ == fragment@,
{
    Error::ParseError { locale: locale.to_owned(), path: path.duplicate(), fragment }
}

/// Packs a finished run of segments into one value: `None` for an empty run,
/// a literal for a single text segment, an interpolation otherwise.
fn piece_of_segments(segs: Vec<Segment>) -> (r: Option<ParsedValue>)
    ensures
        segs@.len() == 0 <==> r is None,
        segs@.len() == 1 && segs@[0] is Lit ==> (r matches Some(v) && v@ == PvView::Literal(
            LitView::Str(segs@[0]->Lit_0@),
        )),
        segs@.len() >= 2 || (segs@.len() == 1 && segs@[0] is Var) ==> (r matches Some(v) && v@
            == PvView::Interpolation(segs_view(segs@))),
{
    if segs.len() == 0 {
        return None;
    }
    if segs.len() == 1 {
        let ghost orig = segs@;
        let mut segs = segs;
        let only = segs.pop().unwrap();
        match only {
            Segment::Lit(t) => {
                return Some(ParsedValue::Literal(LiteralValue::Str(t)));
            },
            Segment::Var(name) => {
                let mut one: Vec<Segment> = Vec::new();
                one.push(Segment::Var(name));
                let r = ParsedValue::Interpolation(one);
                proof {
                    assert(segs_view(r->Interpolation_0@) =~= segs_view(orig));
                }
                return Some(r);
            },
        }
    }
    Some(ParsedValue::Interpolation(segs))
}

/// Parses one string value.
///
/// On plain text — no brace, no `$t(` marker — the result is exactly the
/// literal holding the input's characters; resolution later keeps such
/// literals byte-identical.
pub fn parse_string(locale: &str, path: &KeyPath, s: &str) -> (r: Result<ParsedValue, Error>)
    ensures
        plain_text(s@) ==> (r matches Ok(v) && v@ == PvView::Literal(LitView::Str(s@))),
        s@.len() > 0 && s@[0] == '{' ==> (r matches Ok(v) ==> !(v@ is Literal)),
    decreases s@.len(), 1int,
{
    let n: usize = s.unicode_len();
    let mut segs: Vec<Segment> = Vec::new();
    let mut items: Vec<ParsedValue> = Vec::new();
    let mut saw_fk: bool = false;
    let mut run_start: usize = 0;
    let mut i: usize = 0;
    while i < n
        invariant
            run_start <= i <= n,
            n == s@.len(),
            plain_text(s@) ==> (run_start == 0 && segs@.len() == 0 && items@.len() == 0 && !saw_fk),
            s@.len() > 0 && s@[0] == '{' && i > 0 ==> (saw_fk || (exists|k: int|
                0 <= k < segs@.len() && (#[trigger] segs@[k]) is Var)),
            saw_fk ==> (exists|k: int| 0 <= k < items@.len() && (#[trigger] items@[k])
                is ForeignKey),
        decreases n - i,
    {
        let c: char = s.get_char(i);
        if c == '{' {
            proof {
                assert(special_at(s@, i as int));
            }
            if run_start < i {
                segs.push(Segment::Lit(substring(s, run_start, i)));
            }
            let j: usize = scan_ident(s, i + 1);
            if j >= n || j == i + 1 {
                return Err(parse_error(locale, path, substring(s, i, n)));
            }
            if s.get_char(j) != '}' {
                return Err(parse_error(locale, path, substring(s, i, n)));
            }
            let name: String = substring(s, i + 1, j);
            match Key::try_new(name) {
                Some(k) => {
                    segs.push(Segment::Var(k.into_string()));
                    proof {
                        assert((#[trigger] segs@[segs@.len() - 1]) is Var);
                    }
                },
                None => {
                    return Err(parse_error(locale, path, substring(s, i, n)));
                },
            }
            i = j + 1;
            run_start = i;
        } else if c == '$' && n - i > 2 && s.get_char(i + 1) == 't' && s.get_char(i + 2) == '(' {
            proof {
                assert(special_at(s@, i as int));
            }
            if run_start < i {
                segs.push(Segment::Lit(substring(s, run_start, i)));
            }
            let mut finished: Vec<Segment> = Vec::new();
            core::mem::swap(&mut finished, &mut segs);
            match piece_of_segments(finished) {
                Some(piece) => {
                    items.push(piece);
                },
                None => {},
            }
            let (fk, next) = match parse_foreign(locale, path, s, i + 3) {
                Ok(p) => p,
                Err(e) => {
                    return Err(e);
                },
            };
            items.push(fk);
            proof {
                assert((#[trigger] items@[items@.len() - 1]) is ForeignKey);
            }
            saw_fk = true;
            i = next;
            run_start = i;
        } else {
            i = i + 1;
        }
    }
    let ghost braced = s@.len() > 0 && s@[0] == '{';
    let ghost segs_pre = segs@;
    if run_start < n {
        segs.push(Segment::Lit(substring(s, run_start, n)));
    }
    proof {
        if plain_text(s@) {
            if n > 0 {
                assert(s@.subrange(0, n as int) =~= s@);
            }
        }
        if braced && !saw_fk {
            // The leading brace left a variable among the segments, and the
            // final flush only appends.
            let w = choose|k: int| 0 <= k < segs_pre.len() && (#[trigger] segs_pre[k]) is Var;
            assert((#[trigger] segs@[w]) is Var);
        }
    }
    if !saw_fk {
        match piece_of_segments(segs) {
            None => {
                let empty = String::new();
                proof {
                    if plain_text(s@) {
                        assert(s@ =~= Seq::<char>::empty());
                        assert(empty@ =~= s@);
                    }
                }
                Ok(ParsedValue::Literal(LiteralValue::Str(empty)))
            },
            Some(v) => {
                proof {
                    if braced {
                        let w = choose|k: int|
                            0 <= k < segs@.len() && (#[trigger] segs@[k]) is Var;
                        if segs@.len() == 1 {
                            assert(segs@[0] is Var);
                        }
                    }
                }
                Ok(v)
            },
        }
    } else {
        let ghost items_pre = items@;
        match piece_of_segments(segs) {
            Some(piece) => {
                items.push(piece);
            },
            None => {},
        }
        proof {
            let w = choose|k: int|
                0 <= k < items_pre.len() && (#[trigger] items_pre[k]) is ForeignKey;
            assert((#[trigger] items@[w]) is ForeignKey);
        }
        if items.len() == 1 {
            let mut items = items;
            let only = items.pop().unwrap();
            proof {
                assert(only is ForeignKey);
            }
            Ok(only)
        } else {
            Ok(ParsedValue::Block(items))
        }
    }
}

/// Parses a foreign-key reference; `start` stands just after the `$t(`
/// marker. Returns the node and the position just after the closing `)`.
fn parse_foreign(locale: &str, path: &KeyPath, s: &str, start: usize) -> (r: Result<
    (ParsedValue, usize),
    Error,
>)
    requires
        1 <= start <= s@.len(),
    ensures
        r matches Ok((v, next)) ==> start <= next <= s@.len(),
        r matches Ok(p) ==> p.0 is ForeignKey,
    decreases s@.len(), 0int,
{
    let n: usize = s.unicode_len();
    // Namespace or first key.
    let j: usize = scan_ident(s, start);
    if j == start {
        return Err(parse_error(locale, path, substring(s, start, n)));
    }
    let first: String = substring(s, start, j);
    let mut namespace: Option<Key> = None;
    let mut keys: Vec<Key> = Vec::new();
    let mut i: usize = j;
    if i < n && s.get_char(i) == ':' {
        match Key::try_new(first) {
            Some(k) => {
                namespace = Some(k);
            },
            None => {
                return Err(parse_error(locale, path, substring(s, start, n)));
            },
        }
        i = i + 1;
        let j2: usize = scan_ident(s, i);
        if j2 == i {
            return Err(parse_error(locale, path, substring(s, start, n)));
        }
        match Key::try_new(substring(s, i, j2)) {
            Some(k) => {
                keys.push(k);
            },
            None => {
                return Err(parse_error(locale, path, substring(s, start, n)));
            },
        }
        i = j2;
    } else {
        match Key::try_new(first) {
            Some(k) => {
                keys.push(k);
            },
            None => {
                return Err(parse_error(locale, path, substring(s, start, n)));
            },
        }
    }
    // Remaining `.key` components.
    while i < n && s.get_char(i) == '.'
        invariant
            start <= i <= n,
            n == s@.len(),
        decreases n - i,
    {
        let j2: usize = scan_ident(s, i + 1);
        if j2 == i + 1 {
            return Err(parse_error(locale, path, substring(s, start, n)));
        }
        match Key::try_new(substring(s, i + 1, j2)) {
            Some(k) => {
                keys.push(k);
            },
            None => {
                return Err(parse_error(locale, path, substring(s, start, n)));
            },
        }
        i = j2;
    }
    let mut target = KeyPath::new(namespace);
    let mut t: usize = 0;
    while t < keys.len()
        invariant
            t <= keys@.len(),
        decreases keys@.len() - t,
    {
        target.push_key(keys[t].duplicate());
        t = t + 1;
    }
    // Overrides, each introduced by a comma, until the closing parenthesis.
    let mut overrides: Vec<(String, ParsedValue)> = Vec::new();
    loop
        invariant
            start <= i <= n,
            n == s@.len(),
            1 <= start,
        decreases n - i,
    {
        let sp: usize = skip_spaces(s, i);
        if sp >= n {
            return Err(parse_error(locale, path, substring(s, start, n)));
        }
        let c: char = s.get_char(sp);
        if c == ')' {
            return Ok((ParsedValue::ForeignKey { path: target, overrides }, sp + 1));
        }
        if c != ',' {
            return Err(parse_error(locale, path, substring(s, sp, n)));
        }
        let name_start: usize = skip_spaces(s, sp + 1);
        let name_end: usize = scan_ident(s, name_start);
        if name_end == name_start {
            return Err(parse_error(locale, path, substring(s, sp, n)));
        }
        let name: String = match Key::try_new(substring(s, name_start, name_end)) {
            Some(k) => k.into_string(),
            None => {
                return Err(parse_error(locale, path, substring(s, name_start, n)));
            },
        };
        let eq_pos: usize = skip_spaces(s, name_end);
        if eq_pos >= n || s.get_char(eq_pos) != '=' {
            return Err(parse_error(locale, path, substring(s, name_start, n)));
        }
        let vstart: usize = skip_spaces(s, eq_pos + 1);
        let mut vend: usize = vstart;
        let mut depth: usize = 0;
        while vend < n && !(depth == 0 && (s.get_char(vend) == ',' || s.get_char(vend) == ')'))
            invariant
                vstart <= vend <= n,
                depth <= vend,
                n == s@.len(),
            decreases n - vend,
        {
            let vc: char = s.get_char(vend);
            if vc == '(' {
                depth = depth + 1;
            } else if vc == ')' && depth > 0 {
                depth = depth - 1;
            }
            vend = vend + 1;
        }
        if vend == n {
            // Ran off the end without a closing parenthesis.
            return Err(parse_error(locale, path, substring(s, start, n)));
        }
        let mut trimmed: usize = vend;
        while trimmed > vstart && s.get_char(trimmed - 1) == ' '
            invariant
                vstart <= trimmed <= vend <= n,
                n == s@.len(),
            decreases trimmed,
        {
            trimmed = trimmed - 1;
        }
        let value_text: String = substring(s, vstart, trimmed);
        proof {
            assert(value_text@.len() < s@.len());
        }
        let value: ParsedValue = match parse_string(locale, path, value_text.as_str()) {
            Ok(v) => v,
            Err(e) => {
                return Err(e);
            },
        };
        overrides.push((name, value));
        i = vend;
    }
}

/// Whether `s` is one of the six plural category names.
pub open spec fn spec_is_category(s: Seq<char>) -> bool {
    s == "zero"@ || s == "one"@ || s == "two"@ || s == "few"@ || s == "many"@ || s == "other"@
}

/// Executable check matching [`spec_is_category`].
pub fn is_category_name(s: &str) -> (r: bool)
    ensures
        r == spec_is_category(s@),
{
    str_eq(s, "zero") || str_eq(s, "one") || str_eq(s, "two") || str_eq(s, "few") || str_eq(
        s,
        "many",
    ) || str_eq(s, "other")
}

/// Whether `s` holds two adjacent dots somewhere: the mark of a range bound
/// expression.
pub open spec fn has_dotdot(s: Seq<char>) -> bool {
    exists|i: int| 0 <= i && i + 1 < s.len() && #[trigger] s[i] == '.' && s[i + 1] == '.'
}

/// Executable check matching [`has_dotdot`].
pub fn contains_dotdot(s: &str) -> (r: bool)
    ensures
        r == has_dotdot(s@),
{
    let n: usize = s.unicode_len();
    if n < 2 {
        return false;
    }
    let mut i: usize = 0;
    while n - i > 1
        invariant
            i <= n,
            n == s@.len(),
            forall|j: int| 0 <= j && j + 1 < n && j < i ==> !(#[trigger] s@[j] == '.' && s@[j + 1] == '.'),
        decreases n - i,
    {
        if s.get_char(i) == '.' && s.get_char(i + 1) == '.' {
            return true;
        }
        i = i + 1;
    }
    false
}

/// Parses one raw value at `path`.
///
/// Strings go through [`parse_string`]; numbers and booleans become
/// literals; ordered mappings are classified structurally into plural
/// blocks, range blocks or nested subkeys. The path is left as it was on
/// every exit.
pub fn parse_value(locale: &str, path: &mut KeyPath, raw: &RawValue) -> (r: Result<
    ParsedValue,
    Error,
>)
    ensures
        final(path)@ == old(path)@,
        raw matches RawValue::Str(s) ==> (plain_text(s@) ==> (r matches Ok(v) && v@
            == PvView::Literal(LitView::Str(s@)))),
        raw matches RawValue::Str(s) ==> (s@.len() > 0 && s@[0] == '{' ==> (r matches Ok(v)
            ==> !(v@ is Literal))),
        raw matches RawValue::Num(n, t) ==> (r matches Ok(v) && v@ == PvView::Literal(
            LitView::Num(*n as int, t@),
        )),
        raw matches RawValue::Bool(b) ==> (r matches Ok(v) && v@ == PvView::Literal(
            LitView::Bool(*b),
        )),
    decreases raw, 1int,
{
    match raw {
        RawValue::Str(s) => parse_string(locale, path, s.as_str()),
        RawValue::Num(n, t) => Ok(ParsedValue::Literal(LiteralValue::Num(*n, t.clone()))),
        RawValue::Bool(b) => Ok(ParsedValue::Literal(LiteralValue::Bool(*b))),
        RawValue::Table(entries) => {
            proof {
                assert(decreases_to!(*raw => raw->Table_0));
            }
            parse_table(locale, path, entries)
        },
    }
}

/// Whether this entry is a reserved marker inside a plural or range block:
/// `ordinal` set to a boolean, or `count` set to a string.
fn is_reserved_entry(entry: &(String, RawValue)) -> (r: bool)
{
    match &entry.1 {
        RawValue::Bool(_) => str_eq(entry.0.as_str(), "ordinal"),
        RawValue::Str(_) => str_eq(entry.0.as_str(), "count"),
        _ => false,
    }
}

/// Classifies one ordered mapping and parses it.
fn parse_table(locale: &str, path: &mut KeyPath, entries: &Vec<(String, RawValue)>) -> (r: Result<
    ParsedValue,
    Error,
>)
    ensures
        final(path)@ == old(path)@,
    decreases entries, 0int,
{
    // First pass: find the reserved markers and classify the other keys.
    let mut ordinal_marker: Option<bool> = None;
    let mut count_rename: Option<String> = None;
    let mut n_plain: usize = 0;
    let mut all_cats: bool = true;
    let mut all_ranges: bool = true;
    let mut j: usize = 0;
    while j < entries.len()
        invariant
            j <= entries@.len(),
            n_plain <= j,
        decreases entries@.len() - j,
    {
        if is_reserved_entry(&entries[j]) {
            match &entries[j].1 {
                RawValue::Bool(b) => {
                    ordinal_marker = Some(*b);
                },
                RawValue::Str(t) => {
                    count_rename = Some(t.clone());
                },
                _ => {},
            }
        } else {
            n_plain = n_plain + 1;
            if !is_category_name(entries[j].0.as_str()) {
                all_cats = false;
            }
            if !contains_dotdot(entries[j].0.as_str()) {
                all_ranges = false;
            }
        }
        j = j + 1;
    }
    let is_plural: bool = ordinal_marker.is_some() || (n_plain > 0 && all_cats);
    let is_range: bool = !is_plural && n_plain > 0 && all_ranges;
    if is_plural || is_range {
        let count_var: String = match count_rename {
            Some(name) => {
                match Key::try_new(name) {
                    Some(k) => k.into_string(),
                    None => {
                        return Err(parse_error(locale, path, String::new()));
                    },
                }
            },
            None => "count".to_owned(),
        };
        let mut arms: Vec<(String, ParsedValue)> = Vec::new();
        let mut j: usize = 0;
        while j < entries.len()
            invariant
                j <= entries@.len(),
                path@ == old(path)@,
            decreases entries@.len() - j,
        {
            if !is_reserved_entry(&entries[j]) {
                proof {
                    assert(decreases_to!(*entries => entries@));
                    assert(decreases_to!(entries@ => entries@[j as int]));
                    assert(decreases_to!(entries@[j as int] => entries@[j as int].1));
                }
                let parsed = match parse_value(locale, path, &entries[j].1) {
                    Ok(v) => v,
                    Err(e) => {
                        return Err(e);
                    },
                };
                arms.push((entries[j].0.clone(), parsed));
            }
            j = j + 1;
        }
        if is_plural {
            let ordinal: bool = match ordinal_marker {
                Some(b) => b,
                None => false,
            };
            Ok(ParsedValue::Plural { ordinal, count_var, arms })
        } else {
            Ok(ParsedValue::Range { count_var, arms })
        }
    } else {
        // Nested subkeys; every key, reserved spellings included, is an
        // ordinary key here and must be a valid identifier.
        let mut out: Vec<(Key, ParsedValue)> = Vec::new();
        let mut j: usize = 0;
        while j < entries.len()
            invariant
                j <= entries@.len(),
                path@ == old(path)@,
            decreases entries@.len() - j,
        {
            let key: Key = match Key::try_new(entries[j].0.clone()) {
                Some(k) => k,
                None => {
                    return Err(
                        Error::InvalidLocaleKey {
                            locale: locale.to_owned(),
                            path: path.duplicate(),
                            key: entries[j].0.clone(),
                        },
                    );
                },
            };
            proof {
                assert(decreases_to!(*entries => entries@));
                assert(decreases_to!(entries@ => entries@[j as int]));
                assert(decreases_to!(entries@[j as int] => entries@[j as int].1));
            }
            let ghost before = path@;
            path.push_key(key.duplicate());
            let res = parse_value(locale, path, &entries[j].1);
            path.pop_key();
            proof {
                assert(path@.keys =~= before.keys);
                assert(path@ == before);
            }
            match res {
                Ok(v) => {
                    out.push((key, v));
                },
                Err(e) => {
                    return Err(e);
                },
            }
            j = j + 1;
        }
        Ok(ParsedValue::Subkeys(out))
    }
}

} // verus!
