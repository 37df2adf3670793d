//! The build configuration: the default locale, the locale list, the
//! optional namespaces and the locales directory.
//!
//! An external loader reads the manifest text and hands the raw field
//! values over; everything that can be judged without touching the file
//! system is judged here: names must be valid keys, the default locale is
//! moved to the front of the list, and duplicated locale or namespace
//! names are rejected with the full set of offending names.

use vstd::prelude::*;

use crate::error::Error;
use crate::key::{keys_view, valid_key, Key};

verus! {

/// Whether `n` appears twice in `s`.
pub open spec fn name_dup(s: Seq<Seq<char>>, n: Seq<char>) -> bool {
    exists|i: int, j: int| 0 <= i < j < s.len() && (#[trigger] s[i]) == n && (#[trigger] s[j]) == n
}

/// Whether every name of `s` is a valid key.
pub open spec fn all_names_valid(s: Seq<Seq<char>>) -> bool {
    forall|i: int| 0 <= i < s.len() ==> valid_key(#[trigger] s[i])
}

/// The names of a list of strings.
pub open spec fn names_view(s: Seq<String>) -> Seq<Seq<char>> {
    s.map_values(|x: String| x@)
}

/// The validated configuration.
#[derive(Debug)]
pub struct ConfigFile {
    /// The default locale; also the first entry of `locales`.
    pub default: Key,
    /// Every locale, default first, without duplicates.
    pub locales: Vec<Key>,
    /// The declared namespaces, when the configuration groups keys.
    pub name_spaces: Option<Vec<Key>>,
    /// Where the locale documents live, for the loader.
    pub locales_dir: String,
}

impl ConfigFile {
    /// The duplicated names of `locales`, each reported once; `None`
    /// exactly when all names are distinct.
    #[verifier::rlimit(30)]
    pub fn contain_duplicates(locales: &Vec<Key>) -> (r: Option<Vec<String>>)
        ensures
            r is None <==> keys_view(locales@).no_duplicates(),
            r matches Some(d) ==> d@.len() > 0,
            r matches Some(d) ==> (forall|m: int|
                0 <= m < d@.len() ==> name_dup(keys_view(locales@), #[trigger] d@[m]@)),
            r matches Some(d) ==> (forall|a: int, b: int|
                0 <= a < b < d@.len() ==> (#[trigger] d@[a])@ != (#[trigger] d@[b])@),
            r matches Some(d) ==> (forall|a: int, b: int|
                0 <= a < b < keys_view(locales@).len() && (#[trigger] keys_view(locales@)[a])
                    == (#[trigger] keys_view(locales@)[b]) ==> (exists|m: int|
                    0 <= m < d@.len() && #[trigger] d@[m]@ == keys_view(locales@)[b])),
    {
        let ghost kv = keys_view(locales@);
        let mut dups: Vec<String> = Vec::new();
        let mut j: usize = 0;
        while j < locales.len()
            invariant
                j <= locales@.len(),
                kv == keys_view(locales@),
                kv.len() == locales@.len(),
                forall|x: int| 0 <= x < kv.len() ==> #[trigger] kv[x] == locales@[x]@,
                forall|m: int| 0 <= m < dups@.len() ==> name_dup(kv, #[trigger] dups@[m]@),
                forall|a: int, b: int|
                    0 <= a < b < j && (#[trigger] kv[a]) == (#[trigger] kv[b]) ==> (exists|m: int|
                        0 <= m < dups@.len() && #[trigger] dups@[m]@ == kv[b]),
                forall|a: int, b: int|
                    0 <= a < b < dups@.len() ==> (#[trigger] dups@[a])@ != (#[trigger] dups@[b])@,
            decreases locales@.len() - j,
        {
            let ghost dold = dups@;
            // Is this name a repeat of an earlier one?
            let mut seen: bool = false;
            let mut i: usize = 0;
            while i < j
                invariant
                    i <= j <= locales@.len(),
                    j < locales@.len(),
                    kv == keys_view(locales@),
                    kv.len() == locales@.len(),
                    forall|x: int| 0 <= x < kv.len() ==> #[trigger] kv[x] == locales@[x]@,
                    seen <==> (exists|a: int| 0 <= a < i && #[trigger] kv[a] == kv[j as int]),
                decreases j - i,
            {
                proof {
                    assert(kv[i as int] == locales@[i as int]@);
                    assert(kv[j as int] == locales@[j as int]@);
                }
                if locales[i].same_name(&locales[j]) {
                    seen = true;
                }
                i = i + 1;
            }
            if seen {
                // Record it once.
                let mut present: bool = false;
                let mut m: usize = 0;
                while m < dups.len()
                    invariant
                        m <= dups@.len(),
                        j < locales@.len(),
                        kv == keys_view(locales@),
                        kv.len() == locales@.len(),
                        forall|x: int| 0 <= x < kv.len() ==> #[trigger] kv[x] == locales@[x]@,
                        present <==> (exists|a: int|
                            0 <= a < m && #[trigger] dups@[a]@ == kv[j as int]),
                    decreases dups@.len() - m,
                {
                    proof {
                        assert(kv[j as int] == locales@[j as int]@);
                    }
                    if crate::text::str_eq(dups[m].as_str(), locales[j].as_str()) {
                        present = true;
                    }
                    m = m + 1;
                }
                if !present {
                    dups.push(locales[j].as_str().to_owned());
                }
                proof {
                    assert(kv[j as int] == locales@[j as int]@);
                    assert(exists|m: int|
                        0 <= m < dups@.len() && (#[trigger] dups@[m])@ == kv[j as int]) by {
                        if !present {
                            assert((#[trigger] dups@[dups@.len() - 1])@ == kv[j as int]);
                        }
                    }
                    assert(name_dup(kv, kv[j as int])) by {
                        let a = choose|a: int| 0 <= a < i && (#[trigger] kv[a]) == kv[j as int];
                        assert(kv[a] == kv[j as int]);
                    }
                    assert(dups@.len() > dold.len() ==> (forall|a: int|
                        0 <= a < dold.len() ==> (#[trigger] dold[a])@ != kv[j as int]));
                }
            }
            proof {
                assert(kv[j as int] == locales@[j as int]@);
                if dups@.len() == dold.len() {
                    assert(dups@ == dold);
                } else {
                    assert(dups@ == dold.push(dups@.last()));
                }
                assert forall|m: int| 0 <= m < dups@.len() implies name_dup(
                    kv,
                    (#[trigger] dups@[m])@,
                ) by {
                    if m < dold.len() {
                        assert(dups@[m]@ == dold[m]@);
                        assert(name_dup(kv, dold[m]@));
                    }
                }
                assert forall|a: int, b: int|
                    0 <= a < b < j + 1 && (#[trigger] kv[a]) == (#[trigger] kv[b]) implies (
                exists|m: int| 0 <= m < dups@.len() && #[trigger] dups@[m]@ == kv[b]) by {
                    if b < j as int {
                        let m0 = choose|m: int|
                            0 <= m < dold.len() && (#[trigger] dold[m])@ == kv[b];
                        assert(dups@[m0]@ == dold[m0]@);
                        assert(dups@[m0]@ == kv[b]);
                    } else if seen {
                        let m1 = choose|m: int|
                            0 <= m < dups@.len() && (#[trigger] dups@[m])@ == kv[j as int];
                        assert(dups@[m1]@ == kv[b]);
                    }
                }
                assert forall|a: int, b: int|
                    0 <= a < b < dups@.len() implies (#[trigger] dups@[a])@ != (
                #[trigger] dups@[b])@ by {
                    if b < dold.len() {
                        assert(dups@[a]@ == dold[a]@ && dups@[b]@ == dold[b]@);
                        assert(dold[a]@ != dold[b]@);
                    } else if dups@.len() > dold.len() {
                        assert(dups@[a]@ == dold[a]@);
                        assert(dups@[b]@ == kv[j as int]);
                    }
                }
            }
            j = j + 1;
        }
        proof {
            assert forall|n: Seq<char>| name_dup(kv, n) implies (exists|m: int|
                0 <= m < dups@.len() && #[trigger] dups@[m]@ == n) by {
                let (a, b) = choose|a: int, b: int|
                    0 <= a < b < kv.len() && (#[trigger] kv[a]) == n && (#[trigger] kv[b]) == n;
                assert(kv[a] == kv[b]);
            }
        }
        proof {
            assert forall|m: int| 0 <= m < dups@.len() implies name_dup(
                keys_view(locales@),
                (#[trigger] dups@[m])@,
            ) by {
                assert(name_dup(kv, dups@[m]@));
            }
        }
        if dups.len() == 0 {
            proof {
                assert forall|a: int, b: int| 0 <= a < b < kv.len() implies #[trigger] kv[a]
                    != #[trigger] kv[b] by {
                    if kv[a] == kv[b] {
                        assert(name_dup(kv, kv[b]));
                        assert(exists|m: int| 0 <= m < dups@.len() && #[trigger] dups@[m]@ == kv[b]);
                    }
                }
            }
            None
        } else {
            proof {
                assert(!kv.no_duplicates()) by {
                    assert(name_dup(kv, dups@[0]@));
                }
            }
            let r: Option<Vec<String>> = Some(dups);
            proof {
                assert forall|a: int, b: int|
                    0 <= a < b < keys_view(locales@).len() && (#[trigger] keys_view(locales@)[a])
                        == (#[trigger] keys_view(locales@)[b]) implies (exists|m: int|
                    0 <= m < r->0@.len() && #[trigger] r->0@[m]@ == keys_view(locales@)[b]) by {
                    assert(kv[a] == keys_view(locales@)[a]);
                    assert(kv[b] == keys_view(locales@)[b]);
                    assert(kv[a] == kv[b]);
                    let m0 = choose|m: int|
                        0 <= m < r->0@.len() && (#[trigger] r->0@[m])@ == kv[b];
                    assert(r->0@[m0]@ == keys_view(locales@)[b]);
                }
            }
            r
        }
    }

    /// Builds and checks the configuration from its raw field values.
    ///
    /// Every name must be a valid key; the default locale is moved to the
    /// front of the locale list, appended first when the list does not
    /// name it; duplicated locale or namespace names fail with the set of
    /// offenders. Succeeds exactly when all names are valid and the
    /// locale and namespace lists hold no duplicates.
    pub fn new_from_parts(
        default: String,
        locales: Vec<String>,
        name_spaces: Option<Vec<String>>,
        locales_dir: String,
    ) -> (r: Result<ConfigFile, Error>)
        ensures
            r matches Ok(cfg) ==> {
                &&& cfg.default@ == default@
                &&& cfg.locales@.len() > 0
                &&& cfg.locales@[0]@ == default@
                &&& keys_view(cfg.locales@).no_duplicates()
                &&& forall|i: int|
                    0 <= i < locales@.len() ==> keys_view(cfg.locales@).contains(
                        #[trigger] locales@[i]@,
                    )
                &&& forall|i: int|
                    0 <= i < cfg.locales@.len() ==> (#[trigger] cfg.locales@[i]@ == default@
                        || names_view(locales@).contains(cfg.locales@[i]@))
                &&& cfg.locales_dir@ == locales_dir@
            },
            r matches Err(e) ==> (e is InvalidLocaleName || e is InvalidNameSpaceName
                || e is DuplicateLocalesInConfig || e is DuplicateNamespacesInConfig),
            valid_key(default@) && all_names_valid(names_view(locales@)) && names_view(
                locales@,
            ).no_duplicates() && (name_spaces matches Some(nsl) ==> all_names_valid(
                names_view(nsl@),
            ) && names_view(nsl@).no_duplicates()) ==> r is Ok,
            valid_key(default@) && all_names_valid(names_view(locales@)) && !names_view(
                locales@,
            ).no_duplicates() ==> (r matches Err(e) && e is DuplicateLocalesInConfig),
            r matches Err(e) ==> (e matches Error::DuplicateLocalesInConfig(d) ==> (d@.len() > 0
                && (forall|m: int|
                0 <= m < d@.len() ==> name_dup(names_view(locales@), (#[trigger] d@[m])@)) && (
            forall|a: int, b: int|
                0 <= a < b < names_view(locales@).len() && (#[trigger] names_view(locales@)[a])
                    == (#[trigger] names_view(locales@)[b]) ==> (exists|m: int|
                    0 <= m < d@.len() && (#[trigger] d@[m])@ == names_view(locales@)[b])))),
            r matches Err(e) ==> (e matches Error::DuplicateNamespacesInConfig(d2) ==> (
            name_spaces is Some && d2@.len() > 0 && (forall|m: int|
                0 <= m < d2@.len() ==> name_dup(
                    names_view((name_spaces->0)@),
                    (#[trigger] d2@[m])@,
                )))),
    {
        let default_key: Key = match Key::try_new(default.clone()) {
            Some(k) => k,
            None => {
                return Err(Error::InvalidLocaleName(default));
            },
        };
        let mut keys: Vec<Key> = Vec::new();
        let mut i: usize = 0;
        while i < locales.len()
            invariant
                i <= locales@.len(),
                keys@.len() == i as int,
                forall|x: int| 0 <= x < i ==> #[trigger] keys@[x]@ == locales@[x]@,
            decreases locales@.len() - i,
        {
            match Key::try_new(locales[i].clone()) {
                Some(k) => {
                    keys.push(k);
                },
                None => {
                    proof {
                        assert(names_view(locales@)[i as int] == locales@[i as int]@);
                    }
                    return Err(Error::InvalidLocaleName(locales[i].clone()));
                },
            }
            i = i + 1;
        }
        let ghost before_names = keys_view(keys@);
        proof {
            lemma_keys_view_index(keys@);
            assert(before_names =~= names_view(locales@));
        }
        // Put the default locale first: swap it into place when the list
        // names it, append it and swap otherwise.
        let mut at: Option<usize> = None;
        let mut j: usize = 0;
        while j < keys.len()
            invariant
                j <= keys@.len(),
                at matches Some(p) ==> p < keys@.len() && keys@[p as int]@ == default_key@,
                at is None ==> (forall|x: int| 0 <= x < j ==> #[trigger] keys@[x]@
                    != default_key@),
            decreases keys@.len() - j,
        {
            if at.is_none() && keys[j].same_name(&default_key) {
                at = Some(j);
            }
            j = j + 1;
        }
        match at {
            Some(p) => {
                if p > 0 {
                    swap_keys(&mut keys, 0, p);
                }
            },
            None => {
                let n: usize = keys.len();
                keys.push(default_key.duplicate());
                if n > 0 {
                    swap_keys(&mut keys, 0, n);
                }
            },
        }
        proof {
            lemma_keys_view_index(keys@);
            assert(reorder_relation(before_names, keys_view(keys@), at, default_key@));
        }
        let ghost hyp = valid_key(default@) && all_names_valid(names_view(locales@))
            && names_view(locales@).no_duplicates();
        if let Some(d) = Self::contain_duplicates(&keys) {
            proof {
                if hyp {
                    lemma_reorder_distinct(before_names, keys_view(keys@), at, default_key@);
                    let kv2 = keys_view(keys@);
                    assert(kv2.no_duplicates()) by {
                        assert forall|x: int, y: int|
                            x != y && 0 <= x < kv2.len() && 0 <= y < kv2.len() implies kv2[x]
                            != kv2[y] by {
                            if x < y {
                                assert(kv2[x] != kv2[y]);
                            } else {
                                assert(kv2[y] != kv2[x]);
                            }
                        }
                    }
                    assert(false);
                }
                assert forall|m: int| 0 <= m < d@.len() implies name_dup(
                    names_view(locales@),
                    (#[trigger] d@[m])@,
                ) by {
                    assert(name_dup(keys_view(keys@), d@[m]@));
                    lemma_reorder_dup_back(
                        before_names,
                        keys_view(keys@),
                        at,
                        default_key@,
                        d@[m]@,
                    );
                }
                assert forall|a: int, b: int|
                    0 <= a < b < names_view(locales@).len() && (#[trigger] names_view(
                    locales@,
                )[a]) == (#[trigger] names_view(locales@)[b]) implies (exists|m: int|
                    0 <= m < d@.len() && (#[trigger] d@[m])@ == names_view(locales@)[b]) by {
                    assert(before_names[a] == names_view(locales@)[a]);
                    assert(before_names[b] == names_view(locales@)[b]);
                    lemma_reorder_dup_fwd(
                        before_names,
                        keys_view(keys@),
                        at,
                        default_key@,
                        a,
                        b,
                    );
                    let (x, y) = choose|x: int, y: int|
                        0 <= x < y < keys_view(keys@).len() && (#[trigger] keys_view(
                            keys@,
                        )[x]) == before_names[b] && (#[trigger] keys_view(keys@)[y])
                            == before_names[b];
                    assert(keys_view(keys@)[x] == keys_view(keys@)[y]);
                    let m0 = choose|m: int|
                        0 <= m < d@.len() && (#[trigger] d@[m])@ == keys_view(keys@)[y];
                    assert(d@[m0]@ == names_view(locales@)[b]);
                }
            }
            return Err(Error::DuplicateLocalesInConfig(d));
        }
        proof {
            if valid_key(default@) && all_names_valid(names_view(locales@)) && !names_view(
                locales@,
            ).no_duplicates() {
                let (p, q2) = choose|p: int, q2: int|
                    0 <= p < names_view(locales@).len() && 0 <= q2 < names_view(
                        locales@,
                    ).len() && p != q2 && (#[trigger] names_view(locales@)[p]) == (
                    #[trigger] names_view(locales@)[q2]);
                let a2: int = if p < q2 {
                    p
                } else {
                    q2
                };
                let b2: int = if p < q2 {
                    q2
                } else {
                    p
                };
                assert(before_names[a2] == names_view(locales@)[a2]);
                assert(before_names[b2] == names_view(locales@)[b2]);
                lemma_reorder_dup_fwd(
                    before_names,
                    keys_view(keys@),
                    at,
                    default_key@,
                    a2,
                    b2,
                );
                let (x, y) = choose|x: int, y: int|
                    0 <= x < y < keys_view(keys@).len() && (#[trigger] keys_view(keys@)[x])
                        == before_names[b2] && (#[trigger] keys_view(keys@)[y])
                        == before_names[b2];
                assert(keys_view(keys@)[x] == keys_view(keys@)[y]);
                assert(false);
            }
        }
        let ns_keys: Option<Vec<Key>> = if name_spaces.is_some() {
            let names: &Vec<String> = name_spaces.as_ref().unwrap();
            proof {
                assert(name_spaces->0 == *names);
            }
            {
                let mut nk: Vec<Key> = Vec::new();
                let mut t: usize = 0;
                while t < names.len()
                    invariant
                        t <= names@.len(),
                        nk@.len() == t as int,
                        name_spaces is Some && name_spaces->0 == *names,
                        valid_key(default@) && all_names_valid(names_view(locales@))
                            ==> names_view(locales@).no_duplicates(),
                        forall|x: int| 0 <= x < t ==> #[trigger] nk@[x]@ == names@[x]@,
                    decreases names@.len() - t,
                {
                    match Key::try_new(names[t].clone()) {
                        Some(k) => {
                            nk.push(k);
                        },
                        None => {
                            proof {
                                assert(names_view(names@)[t as int] == names@[t as int]@);
                                assert(!valid_key(names_view(names@)[t as int]));
                                assert(!all_names_valid(names_view(names@)));
                                assert(name_spaces->0 == *names);
                                assert(!all_names_valid(names_view((name_spaces->0)@)));
                            }
                            return Err(Error::InvalidNameSpaceName(names[t].clone()));
                        },
                    }
                    t = t + 1;
                }
                if let Some(d) = Self::contain_duplicates(&nk) {
                    proof {
                        lemma_keys_view_index(nk@);
                        assert(keys_view(nk@) =~= names_view(names@));
                        if names_view(names@).no_duplicates() {
                            assert(false);
                        }
                        assert(name_spaces->0 == *names);
                        assert forall|m: int| 0 <= m < d@.len() implies name_dup(
                            names_view((name_spaces->0)@),
                            (#[trigger] d@[m])@,
                        ) by {
                            assert(name_dup(keys_view(nk@), d@[m]@));
                        }
                    }
                    return Err(Error::DuplicateNamespacesInConfig(d));
                }
                Some(nk)
            }
        } else {
            None
        };
        proof {
            lemma_keys_view_index(keys@);
            assert(keys_view(keys@).contains(keys@[0]@)) by {
                assert(keys_view(keys@)[0] == keys@[0]@);
            }
            assert forall|i2: int| 0 <= i2 < locales@.len() implies keys_view(keys@).contains(
                #[trigger] locales@[i2]@,
            ) by {
                lemma_reorder_membership(before_names, keys_view(keys@), at, default_key@);
                assert(before_names[i2] == locales@[i2]@);
                assert(keys_view(keys@).contains(before_names[i2]));
            }
            assert forall|i2: int| 0 <= i2 < keys@.len() implies (#[trigger] keys@[i2]@
                == default@ || names_view(locales@).contains(keys@[i2]@)) by {
                lemma_reorder_membership(before_names, keys_view(keys@), at, default_key@);
                assert(keys_view(keys@)[i2] == keys@[i2]@);
                if keys_view(keys@)[i2] != default_key@ {
                    assert(before_names.contains(keys_view(keys@)[i2]));
                    let w = choose|w: int|
                        0 <= w < before_names.len() && before_names[w] == keys_view(keys@)[i2];
                    assert(names_view(locales@)[w] == before_names[w]);
                }
            }
        }
        Ok(ConfigFile { default: default_key, locales: keys, name_spaces: ns_keys, locales_dir })
    }
}

/// Pointwise reading of the name views.
proof fn lemma_keys_view_index(s: Seq<Key>)
    ensures
        keys_view(s).len() == s.len(),
        forall|i: int| 0 <= i < s.len() ==> #[trigger] keys_view(s)[i] == s[i]@,
{
}

/// After the reorder the names are a permutation of the input names, with
/// the default appended first when it was absent: membership in each
/// direction.
proof fn lemma_reorder_membership(
    before: Seq<Seq<char>>,
    after: Seq<Seq<char>>,
    at: Option<usize>,
    default: Seq<char>,
)
    requires
        reorder_relation(before, after, at, default),
    ensures
        forall|i: int| 0 <= i < before.len() ==> after.contains(#[trigger] before[i]),
        forall|i: int|
            0 <= i < after.len() ==> (#[trigger] after[i] == default || before.contains(after[i])),
{
    match at {
        Some(p) => {
            assert forall|i: int| 0 <= i < before.len() implies after.contains(
                #[trigger] before[i],
            ) by {
                if i == 0 {
                    assert(after[p as int] == before[0]);
                } else if i == p {
                    assert(after[0] == before[p as int]);
                } else {
                    assert(after[i] == before[i]);
                }
            }
            assert forall|i: int| 0 <= i < after.len() implies (#[trigger] after[i] == default
                || before.contains(after[i])) by {
                if i == 0 {
                    assert(before[p as int] == after[0]);
                } else if i == p {
                    assert(before[0] == after[p as int]);
                } else {
                    assert(before[i] == after[i]);
                }
            }
        },
        None => {
            let n = before.len() as int;
            assert forall|i: int| 0 <= i < before.len() implies after.contains(
                #[trigger] before[i],
            ) by {
                if n > 0 && i == 0 {
                    assert(after[n] == before[0]);
                } else {
                    assert(after[i] == before[i]);
                }
            }
            assert forall|i: int| 0 <= i < after.len() implies (#[trigger] after[i] == default
                || before.contains(after[i])) by {
                if i == 0 || i == n {
                } else {
                    assert(after[i] == before[i]);
                }
            }
        },
    }
}

/// How the reordered names relate to the input names.
pub open spec fn reorder_relation(
    before: Seq<Seq<char>>,
    after: Seq<Seq<char>>,
    at: Option<usize>,
    default: Seq<char>,
) -> bool {
    match at {
        Some(p) => {
            &&& 0 <= p < before.len()
            &&& before[p as int] == default
            &&& after.len() == before.len()
            &&& after[0] == before[p as int]
            &&& after[p as int] == before[0]
            &&& forall|x: int| 0 <= x < before.len() && x != 0 && x != p ==> #[trigger] after[x] == before[x]
        },
        None => {
            &&& (forall|x: int| 0 <= x < before.len() ==> #[trigger] before[x] != default)
            &&& after.len() == before.len() + 1
            &&& if before.len() > 0 {
                after[0] == default && after[before.len() as int] == before[0] && (forall|x: int|
                    0 < x < before.len() ==> #[trigger] after[x] == before[x])
            } else {
                after[0] == default
            }
        },
    }
}

/// A reorder of distinct names, appending a fresh default at worst, stays
/// distinct.
proof fn lemma_reorder_distinct(
    before: Seq<Seq<char>>,
    after: Seq<Seq<char>>,
    at: Option<usize>,
    default: Seq<char>,
)
    requires
        reorder_relation(before, after, at, default),
        before.no_duplicates(),
    ensures
        forall|a: int, b: int| 0 <= a < b < after.len() ==> #[trigger] after[a] != #[trigger] after[b],
{
    match at {
        Some(p) => {
            assert forall|a: int, b: int| 0 <= a < b < after.len() implies #[trigger] after[a]
                != #[trigger] after[b] by {
                let sa: int = if a == 0 { p as int } else if a == p { 0int } else { a };
                let sb: int = if b == 0 { p as int } else if b == p { 0int } else { b };
                assert(after[a] == before[sa]);
                assert(after[b] == before[sb]);
            }
        },
        None => {
            let n = before.len() as int;
            assert forall|a: int, b: int| 0 <= a < b < after.len() implies #[trigger] after[a]
                != #[trigger] after[b] by {
                if n > 0 {
                    let sa: int = if a == 0 { -1int } else if a == n { 0int } else { a };
                    let sb: int = if b == 0 { -1int } else if b == n { 0int } else { b };
                    if sa >= 0 {
                        assert(after[a] == before[sa]);
                    } else {
                        assert(after[a] == default);
                    }
                    if sb >= 0 {
                        assert(after[b] == before[sb]);
                    } else {
                        assert(after[b] == default);
                    }
                    if sa >= 0 && sb >= 0 {
                        assert(before[sa] != before[sb]);
                    }
                }
            }
        },
    }
}

/// A duplicated pair of names survives the reorder.
proof fn lemma_reorder_dup_fwd(
    before: Seq<Seq<char>>,
    after: Seq<Seq<char>>,
    at: Option<usize>,
    default: Seq<char>,
    a: int,
    b: int,
)
    requires
        reorder_relation(before, after, at, default),
        0 <= a < b < before.len(),
        before[a] == before[b],
    ensures
        exists|x: int, y: int|
            0 <= x < y < after.len() && (#[trigger] after[x]) == before[b] && (
            #[trigger] after[y]) == before[b],
{
    let fa: int = match at {
        Some(p) => if a == 0 { p as int } else if a == p as int { 0int } else { a },
        None => if before.len() > 0 && a == 0 { before.len() as int } else { a },
    };
    let fb: int = match at {
        Some(p) => if b == 0 { p as int } else if b == p as int { 0int } else { b },
        None => if before.len() > 0 && b == 0 { before.len() as int } else { b },
    };
    assert(after[fa] == before[a]);
    assert(after[fb] == before[b]);
    assert(fa != fb);
    if fa < fb {
        assert((#[trigger] after[fa]) == before[b] && (#[trigger] after[fb]) == before[b]);
    } else {
        assert((#[trigger] after[fb]) == before[b] && (#[trigger] after[fa]) == before[b]);
    }
}

/// A duplicated name of the reordered list was already duplicated in the
/// input names.
proof fn lemma_reorder_dup_back(
    before: Seq<Seq<char>>,
    after: Seq<Seq<char>>,
    at: Option<usize>,
    default: Seq<char>,
    n: Seq<char>,
)
    requires
        reorder_relation(before, after, at, default),
        name_dup(after, n),
    ensures
        name_dup(before, n),
{
    let (x, y) = choose|x: int, y: int|
        0 <= x < y < after.len() && (#[trigger] after[x]) == n && (#[trigger] after[y]) == n;
    match at {
        Some(p) => {
            let gx: int = if x == 0 { p as int } else if x == p as int { 0int } else { x };
            let gy: int = if y == 0 { p as int } else if y == p as int { 0int } else { y };
            assert(before[gx] == after[x]);
            assert(before[gy] == after[y]);
            assert(gx != gy);
            if gx < gy {
                assert((#[trigger] before[gx]) == n && (#[trigger] before[gy]) == n);
            } else {
                assert((#[trigger] before[gy]) == n && (#[trigger] before[gx]) == n);
            }
        },
        None => {
            let len = before.len() as int;
            if len == 0 {
                assert(after.len() == 1);
                assert(false);
            }
            // Position 0 holds the appended default, which no input name
            // matches; both witnesses therefore have input preimages.
            if x == 0 {
                let gy: int = if y == len { 0int } else { y };
                assert(before[gy] == after[y]);
                assert(before[gy] == default);
                assert(false);
            }
            let gx: int = if x == len { 0int } else { x };
            let gy: int = if y == len { 0int } else { y };
            assert(before[gx] == after[x]);
            assert(before[gy] == after[y]);
            assert(gx != gy);
            if gx < gy {
                assert((#[trigger] before[gx]) == n && (#[trigger] before[gy]) == n);
            } else {
                assert((#[trigger] before[gy]) == n && (#[trigger] before[gx]) == n);
            }
        },
    }
}

/// Exchanges two entries of the key list.
fn swap_keys(keys: &mut Vec<Key>, a: usize, b: usize)
    requires
        a < old(keys)@.len(),
        b < old(keys)@.len(),
        a != b,
    ensures
        final(keys)@.len() == old(keys)@.len(),
        final(keys)@[a as int]@ == old(keys)@[b as int]@,
        final(keys)@[b as int]@ == old(keys)@[a as int]@,
        forall|x: int|
            0 <= x < old(keys)@.len() && x != a && x != b ==> #[trigger] final(keys)@[x]@ == old(
                keys,
            )@[x]@,
{
    let ka = keys[a].duplicate();
    let kb = keys[b].duplicate();
    keys.set(a, kb);
    keys.set(b, ka);
}

/// Whether `pat` occurs in `s` starting at position `i`.
pub open spec fn occurs_at(s: Seq<char>, pat: Seq<char>, i: int) -> bool {
    0 <= i && i + pat.len() <= s.len() && s.subrange(i, i + pat.len()) == pat
}

/// How many times `c` occurs in `s`.
pub open spec fn count_char(s: Seq<char>, c: char) -> int
    decreases s.len(),
{
    if s.len() == 0 {
        0
    } else {
        count_char(s.drop_last(), c) + if s.last() == c {
            1int
        } else {
            0int
        }
    }
}

/// Counting one more character extends the count by at most one.
proof fn lemma_count_char_take(s: Seq<char>, c: char, i: int)
    requires
        0 <= i < s.len(),
    ensures
        count_char(s.take(i + 1), c) == count_char(s.take(i), c) + if s[i] == c {
            1int
        } else {
            0int
        },
{
    assert(s.take(i + 1).drop_last() =~= s.take(i));
    assert(s.take(i + 1).last() == s[i]);
}

/// The position of the first occurrence of `pat` in `s`, scanning left to
/// right.
fn find_first(s: &str, pat: &str) -> (r: Option<usize>)
    ensures
        r matches Some(k) ==> occurs_at(s@, pat@, k as int) && (forall|j: int|
            0 <= j < k ==> !occurs_at(s@, pat@, j)),
        r is None ==> (forall|j: int| 0 <= j < s@.len() ==> !occurs_at(s@, pat@, j)),
{
    let n: usize = s.unicode_len();
    let m: usize = pat.unicode_len();
    if m > n {
        return None;
    }
    let mut i: usize = 0;
    while i <= n - m
        invariant
            i <= n - m + 1,
            m <= n,
            n == s@.len(),
            m == pat@.len(),
            forall|j: int| 0 <= j < i ==> !occurs_at(s@, pat@, j),
        decreases n - m + 1 - i,
    {
        let mut t: usize = 0;
        let mut all: bool = true;
        while t < m
            invariant
                t <= m,
                i + m <= n,
                n == s@.len(),
                m == pat@.len(),
                all <==> (forall|x: int| 0 <= x < t ==> #[trigger] s@[i + x] == pat@[x]),
            decreases m - t,
        {
            let a: char = s.get_char(i + t);
            let b: char = pat.get_char(t);
            if a != b {
                proof {
                    assert(s@[i + t] != pat@[t as int]);
                }
                all = false;
            }
            t = t + 1;
        }
        if all {
            proof {
                assert(s@.subrange(i as int, i + m) =~= pat@) by {
                    assert(forall|x: int|
                        0 <= x < m ==> #[trigger] s@.subrange(i as int, i + m)[x] == s@[i + x]);
                }
            }
            return Some(i);
        }
        proof {
            if occurs_at(s@, pat@, i as int) {
                let x = choose|x: int| 0 <= x < m && #[trigger] s@[i + x] != pat@[x];
                assert(s@.subrange(i as int, i + m)[x] == s@[i + x]);
            }
        }
        i = i + 1;
    }
    proof {
        assert forall|j: int| 0 <= j < s@.len() implies !occurs_at(s@, pat@, j) by {
            if j + pat@.len() <= s@.len() {
                assert(j <= n - m);
            }
        }
    }
    None
}

/// Cuts the named section out of a manifest text: everything after the
/// first occurrence of `marker`, preceded by one newline for each newline
/// before the marker, so positions in the section keep their original
/// line numbers. `None` exactly when the text has no such section.
pub fn extract_section(text: &str, marker: &str) -> (r: Option<String>)
    ensures
        r is None ==> (forall|j: int| 0 <= j < text@.len() ==> !occurs_at(text@, marker@, j)),
        r matches Some(out) ==> (exists|k: int|
            {
                &&& #[trigger] occurs_at(text@, marker@, k)
                &&& (forall|j: int| 0 <= j < k ==> !occurs_at(text@, marker@, j))
                &&& out@ =~= Seq::new(
                    count_char(text@.take(k), '\n') as nat,
                    |x: int| '\n',
                ) + text@.skip(k + marker@.len())
            }),
{
    let n: usize = text.unicode_len();
    let k: usize = match find_first(text, marker) {
        Some(k) => k,
        None => {
            return None;
        },
    };
    let mut out = String::new();
    let mut i: usize = 0;
    let ghost prefix_count = count_char(text@.take(k as int), '\n');
    proof {
        assert(text@.take(0) =~= Seq::<char>::empty());
        assert(out@ =~= Seq::new(count_char(text@.take(0), '\n') as nat, |x: int| '\n'));
    }
    while i < k
        invariant
            i <= k,
            k as int + marker@.len() <= text@.len(),
            n == text@.len(),
            count_char(text@.take(i as int), '\n') >= 0,
            out@ =~= Seq::new(count_char(text@.take(i as int), '\n') as nat, |x: int| '\n'),
        decreases k - i,
    {
        proof {
            lemma_count_char_take(text@, '\n', i as int);
        }
        if text.get_char(i) == '\n' {
            let ghost before = out@;
            out.append("\n");
            proof {
                reveal_strlit("\n");
                assert(out@ =~= Seq::new(
                    count_char(text@.take(i as int + 1), '\n') as nat,
                    |x: int| '\n',
                ));
            }
        }
        i = i + 1;
    }
    let tail: &str = text.substring_char(k + marker.unicode_len(), n);
    out.append(tail);
    proof {
        assert(out@ =~= Seq::new(prefix_count as nat, |x: int| '\n') + text@.skip(
            k as int + marker@.len(),
        ));
    }
    Some(out)
}

} // verus!
