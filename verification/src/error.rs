//! Diagnostics of the resolution pipeline.
//!
//! Two severities exist. An [`Error`] is fatal: the pass aborts at once and
//! nothing partially resolved escapes. A [`Warning`] never aborts; warnings
//! accumulate in a [`Warnings`] collector across the whole pass and are
//! handed out together at the end, so one run reports every warning. Every
//! diagnostic carries the locale and the [`KeyPath`] that pinpoint the
//! offending source location.

use vstd::prelude::*;

use crate::key::KeyPath;

verus! {

/// A fatal diagnostic: the resolution pass stops on the first one.
#[derive(Debug)]
pub enum Error {
    /// A locale name in the configuration cannot become an identifier.
    InvalidLocaleName(String),
    /// The configured default locale is not among the loaded locales.
    ConfigFileDefaultMissing(String),
    /// A namespace name in the configuration cannot become an identifier.
    InvalidNameSpaceName(String),
    /// The configuration lists the same locale more than once; the names
    /// listed are the duplicated ones, each once.
    DuplicateLocalesInConfig(Vec<String>),
    /// The configuration lists the same namespace more than once.
    DuplicateNamespacesInConfig(Vec<String>),
    /// A key of a locale document cannot be used as an identifier.
    InvalidLocaleKey { locale: String, path: KeyPath, key: String },
    /// A raw value could not be parsed; `fragment` is the malformed part.
    ParseError { locale: String, path: KeyPath, fragment: String },
    /// A foreign key names a key that no locale document declares.
    UnknownForeignKey { locale: String, path: KeyPath, target: KeyPath },
    /// A chain of foreign keys references itself; `cycle` is the chain of
    /// paths that was being resolved when the repetition appeared.
    CyclicReference { locale: String, path: KeyPath, cycle: Vec<KeyPath> },
    /// A plural arm is keyed by a name that is not a category the locale's
    /// rule can produce.
    InvalidPluralCategory { locale: String, path: KeyPath, category: String },
    /// A plural node lacks the mandatory `other` arm.
    MissingOtherArm { locale: String, path: KeyPath },
    /// A range arm ends exclusively at the minimum representable integer:
    /// no value lies strictly below it.
    InvalidBoundEnd { locale: String, path: KeyPath, range: String },
    /// A range arm's upper bound lies before its lower bound.
    ImpossibleRange { locale: String, path: KeyPath, range: String },
    /// A non-default locale gives a key a different shape than the default
    /// locale does.
    LocaleShapeMismatch { locale: String, path: KeyPath },
    /// A non-default locale interpolates a variable the default locale does
    /// not know for that key.
    UnknownVariable { locale: String, path: KeyPath, name: String },
    /// One variable is used in ways that require argument types no single
    /// type can serve, within one key of the default locale. Text and
    /// count uses unify to a number, so the structural inference raises
    /// this only for kinds it cannot reconcile.
    AmbiguousArgType { locale: String, path: KeyPath, name: String },
}

/// A non-fatal diagnostic; collected, never aborting.
#[derive(Debug)]
pub enum Warning {
    /// A key of the default locale is absent from this locale; generation
    /// falls back to the default locale's value.
    MissingKey { locale: String, path: KeyPath },
    /// A key of this locale is absent from the default locale; it is
    /// discarded and never reaches the schema.
    SurplusKey { locale: String, path: KeyPath },
    /// A foreign-key override names a variable that is not free in the
    /// referenced value.
    DeadOverride { locale: String, path: KeyPath, name: String },
    /// A plural arm repeats a category; the later arm is shadowed by the
    /// earlier one and never selected.
    UnusedPluralCategory { locale: String, path: KeyPath, category: String },
}

/// The process-wide accumulator of warnings, flushed once after resolution.
pub struct Warnings {
    list: Vec<Warning>,
}

impl View for Warnings {
    type V = Seq<Warning>;

    closed spec fn view(&self) -> Seq<Warning> {
        self.list@
    }
}

impl Warnings {
    /// An empty collector.
    pub fn new() -> (r: Warnings)
        ensures
            r@ == Seq::<Warning>::empty(),
    {
        Warnings { list: Vec::new() }
    }

    /// Records one warning.
    pub fn push(&mut self, w: Warning)
        ensures
            final(self)@ == old(self)@.push(w),
    {
        self.list.push(w);
    }

    /// How many warnings were recorded.
    pub fn len(&self) -> (r: usize)
        ensures
            r == self@.len(),
    {
        self.list.len()
    }

    /// Flushes the collector: hands out everything recorded and empties it.
    pub fn take_all(&mut self) -> (r: Vec<Warning>)
        ensures
            r@ == old(self)@,
            final(self)@ == Seq::<Warning>::empty(),
    {
        let mut out: Vec<Warning> = Vec::new();
        core::mem::swap(&mut out, &mut self.list);
        out
    }

    /// Reads the warning at `i`.
    pub fn get(&self, i: usize) -> (r: &Warning)
        requires
            i < self@.len(),
        ensures
            *r == self@[i as int],
    {
        &self.list[i]
    }
}

} // verus!
