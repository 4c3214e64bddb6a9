//! Persisted user configuration: the speech rate and the rule table.
use vstd::prelude::*;
use crate::cleaner::Cleaner;

verus! {

/// Speech rate used when nothing else is configured.
pub const DEFAULT_RATE: i32 = 6;

/// The rules applied, in order, when nothing else is configured.
pub open spec fn default_cleaners() -> Seq<Cleaner> {
    seq![
        Cleaner::Whitespace,
        Cleaner::Filler('-'),
        Cleaner::Filler('_'),
        Cleaner::Filler('='),
        Cleaner::Astral,
        Cleaner::Pair,
        Cleaner::Hash,
        Cleaner::Link,
    ]
}

/// User configuration.
pub struct Settings {
    pub rate: i32,
    pub cleaners: Vec<Cleaner>,
}

impl Settings {
    /// The default configuration.
    pub fn new() -> (s: Settings)
        ensures
            s.rate == DEFAULT_RATE,
            s.cleaners@ == default_cleaners(),
    {
        let cleaners = vec![
            Cleaner::Whitespace,
            Cleaner::Filler('-'),
            Cleaner::Filler('_'),
            Cleaner::Filler('='),
            Cleaner::Astral,
            Cleaner::Pair,
            Cleaner::Hash,
            Cleaner::Link,
        ];
        proof {
            assert(cleaners@ =~= default_cleaners());
        }
        Settings { rate: DEFAULT_RATE, cleaners }
    }
}

} // verus!
