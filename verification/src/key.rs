//! Validated identifiers and paths into the nested locale structure.
//!
//! A [`Key`] names a locale, a namespace or a translation key. Only strings
//! that can become an identifier in generated code are accepted. A
//! [`KeyPath`] locates a value inside the nested structure: an optional
//! namespace followed by the chain of keys walked to reach the value; it is
//! carried by every diagnostic.

use vstd::prelude::*;
use vstd::string::StrSliceExecFns;

verus! {

/// Whether `c` may start an identifier: an ASCII letter or an underscore.
pub open spec fn is_ident_start(c: char) -> bool {
    ('a' <= c && c <= 'z') || ('A' <= c && c <= 'Z') || c == '_'
}

/// Whether `c` may continue an identifier: an ASCII letter, digit or
/// underscore.
pub open spec fn is_ident_continue(c: char) -> bool {
    is_ident_start(c) || ('0' <= c && c <= '9')
}

/// A valid key: non-empty, starts like an identifier, and continues with
/// identifier characters or hyphens. A hyphen is legal because the name
/// only has to be convertible to an identifier — the generator's naming
/// rules turn it into an underscore — and region-qualified locale names
/// such as `fr-FR` carry one.
pub open spec fn valid_key(s: Seq<char>) -> bool {
    &&& s.len() > 0
    &&& is_ident_start(s[0])
    &&& forall|i: int| 0 < i < s.len() ==> (is_ident_continue(#[trigger] s[i]) || s[i] == '-')
}

/// Executable check matching [`is_ident_start`].
pub fn check_ident_start(c: char) -> (r: bool)
    ensures
        r == is_ident_start(c),
{
    ('a' <= c && c <= 'z') || ('A' <= c && c <= 'Z') || c == '_'
}

/// Executable check matching [`is_ident_continue`].
pub fn check_ident_continue(c: char) -> (r: bool)
    ensures
        r == is_ident_continue(c),
{
    check_ident_start(c) || ('0' <= c && c <= '9')
}

/// A validated identifier: a locale name, namespace name or translation key.
#[derive(Debug)]
pub struct Key {
    name: String,
}

impl View for Key {
    type V = Seq<char>;

    closed spec fn view(&self) -> Seq<char> {
        self.name@
    }
}

impl Key {
    /// Validates `name`; `None` exactly when it cannot become an identifier.
    pub fn try_new(name: String) -> (r: Option<Key>)
        ensures
            r matches Some(k) ==> k@ == name@ && valid_key(name@),
            r is None ==> !valid_key(name@),
    {
        let s: &str = name.as_str();
        let n: usize = s.unicode_len();
        if n == 0 {
            return None;
        }
        if !check_ident_start(s.get_char(0)) {
            return None;
        }
        let mut i: usize = 1;
        while i < n
            invariant
                1 <= i <= n,
                n == name@.len(),
                s@ == name@,
                forall|j: int|
                    0 < j < i ==> (is_ident_continue(#[trigger] name@[j]) || name@[j] == '-'),
            decreases n - i,
        {
            let c: char = s.get_char(i);
            if !(check_ident_continue(c) || c == '-') {
                return None;
            }
            i = i + 1;
        }
        Some(Key { name })
    }

    /// The key as text.
    pub fn as_str(&self) -> (r: &str)
        ensures
            r@ == self@,
    {
        self.name.as_str()
    }

    /// Gives the underlying name away.
    pub fn into_string(self) -> (r: String)
        ensures
            r@ == self@,
    {
        self.name
    }

    /// A copy holding the same name.
    pub fn duplicate(&self) -> (r: Key)
        ensures
            r@ == self@,
    {
        Key { name: self.name.clone() }
    }

    /// Whether two keys hold the same name.
    pub fn same_name(&self, other: &Key) -> (r: bool)
        ensures
            r == (self@ == other@),
    {
        self.name == other.name
    }
}

/// The spec-level value of a [`KeyPath`].
pub struct KeyPathView {
    pub namespace: Option<Seq<char>>,
    pub keys: Seq<Seq<char>>,
}

/// A path to one value: an optional namespace and the chain of keys from the
/// top of the locale document down to the value.
#[derive(Debug)]
pub struct KeyPath {
    namespace: Option<Key>,
    keys: Vec<Key>,
}

/// The view of an optional key.
pub open spec fn opt_key_view(k: &Option<Key>) -> Option<Seq<char>> {
    match k {
        Some(key) => Some(key@),
        None => None,
    }
}

/// The views of a list of keys.
pub open spec fn keys_view(keys: Seq<Key>) -> Seq<Seq<char>> {
    keys.map_values(|k: Key| k@)
}

impl View for KeyPath {
    type V = KeyPathView;

    closed spec fn view(&self) -> KeyPathView {
        KeyPathView { namespace: opt_key_view(&self.namespace), keys: keys_view(self.keys@) }
    }
}

impl KeyPath {
    /// An empty path under the given namespace.
    pub fn new(namespace: Option<Key>) -> (r: KeyPath)
        ensures
            r@.namespace == opt_key_view(&namespace),
            r@.keys == Seq::<Seq<char>>::empty(),
    {
        let r = KeyPath { namespace, keys: Vec::new() };
        proof {
            assert(keys_view(r.keys@) =~= Seq::<Seq<char>>::empty());
        }
        r
    }

    /// Descends into `key`.
    pub fn push_key(&mut self, key: Key)
        ensures
            final(self)@.namespace == old(self)@.namespace,
            final(self)@.keys == old(self)@.keys.push(key@),
    {
        let ghost before = self.keys@;
        self.keys.push(key);
        proof {
            assert(keys_view(self.keys@) =~= keys_view(before).push(self.keys@.last()@));
        }
    }

    /// Leaves the innermost key. Does nothing on an empty path.
    pub fn pop_key(&mut self)
        ensures
            final(self)@.namespace == old(self)@.namespace,
            old(self)@.keys.len() > 0 ==> final(self)@.keys == old(self)@.keys.drop_last(),
            old(self)@.keys.len() == 0 ==> final(self)@.keys == old(self)@.keys,
    {
        let ghost before = self.keys@;
        if self.keys.len() > 0 {
            let _ = self.keys.pop();
            proof {
                assert(keys_view(self.keys@) =~= keys_view(before).drop_last());
            }
        }
    }

    /// A copy of the namespace key, if one is set.
    pub fn namespace_dup(&self) -> (r: Option<Key>)
        ensures
            opt_key_view(&r) == self@.namespace,
    {
        match &self.namespace {
            Some(k) => Some(k.duplicate()),
            None => None,
        }
    }

    /// The key at position `i` of the path.
    pub fn key_at(&self, i: usize) -> (r: &Key)
        requires
            i < self@.keys.len(),
        ensures
            r@ == self@.keys[i as int],
    {
        &self.keys[i]
    }

    /// How many keys the path holds.
    pub fn depth(&self) -> (r: usize)
        ensures
            r == self@.keys.len(),
    {
        self.keys.len()
    }

    /// A copy holding the same namespace and keys.
    pub fn duplicate(&self) -> (r: KeyPath)
        ensures
            r@ == self@,
    {
        let namespace: Option<Key> = match &self.namespace {
            Some(k) => Some(k.duplicate()),
            None => None,
        };
        let mut keys: Vec<Key> = Vec::new();
        let mut i: usize = 0;
        while i < self.keys.len()
            invariant
                i <= self.keys@.len(),
                keys@.len() == i as int,
                forall|j: int| 0 <= j < i ==> #[trigger] keys@[j]@ == self.keys@[j]@,
            decreases self.keys@.len() - i,
        {
            keys.push(self.keys[i].duplicate());
            i = i + 1;
        }
        let r = KeyPath { namespace, keys };
        proof {
            assert(keys_view(r.keys@) =~= keys_view(self.keys@));
        }
        r
    }

    /// Whether two paths name the same location.
    pub fn same_path(&self, other: &KeyPath) -> (r: bool)
        ensures
            r == (self@ == other@),
    {
        let ns_eq: bool = match (&self.namespace, &other.namespace) {
            (Some(a), Some(b)) => a.same_name(b),
            (None, None) => true,
            _ => false,
        };
        if !ns_eq {
            proof {
                assert(self@.namespace != other@.namespace);
            }
            return false;
        }
        if self.keys.len() != other.keys.len() {
            proof {
                assert(self@.keys.len() != other@.keys.len());
            }
            return false;
        }
        let mut i: usize = 0;
        while i < self.keys.len()
            invariant
                i <= self.keys@.len(),
                self.keys@.len() == other.keys@.len(),
                self@.namespace == other@.namespace,
                forall|j: int| 0 <= j < i ==> #[trigger] self.keys@[j]@ == other.keys@[j]@,
            decreases self.keys@.len() - i,
        {
            if !self.keys[i].same_name(&other.keys[i]) {
                proof {
                    assert(self@.keys[i as int] != other@.keys[i as int]);
                }
                return false;
            }
            i = i + 1;
        }
        proof {
            assert(self@.keys =~= other@.keys);
        }
        true
    }
}

} // verus!
