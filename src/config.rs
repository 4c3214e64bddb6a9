//! Building a rule table from the names a configuration lists.
use vstd::prelude::*;
use crate::chars::to_chars;
use crate::cleaner::Cleaner;

verus! {

/// A rule table that cannot be built.
#[derive(Clone, Copy, Debug, PartialEq, Eq, Structural)]
pub enum ConfigError {
    /// The entry at this index names no rule.
    UnknownRule(usize),
}

pub open spec fn filler_prefix() -> Seq<char> {
    seq!['f', 'i', 'l', 'l', 'e', 'r', ':']
}

/// The rule that a configuration entry names: `whitespace`, `astral`, `pair`,
/// `hash`, `link`, or `filler:` followed by the one character to shorten runs of.
pub open spec fn rule_named(s: Seq<char>) -> Option<Cleaner> {
    if s == seq!['w', 'h', 'i', 't', 'e', 's', 'p', 'a', 'c', 'e'] {
        Some(Cleaner::Whitespace)
    } else if s == seq!['a', 's', 't', 'r', 'a', 'l'] {
        Some(Cleaner::Astral)
    } else if s == seq!['p', 'a', 'i', 'r'] {
        Some(Cleaner::Pair)
    } else if s == seq!['h', 'a', 's', 'h'] {
        Some(Cleaner::Hash)
    } else if s == seq!['l', 'i', 'n', 'k'] {
        Some(Cleaner::Link)
    } else if s.len() == 8 && s.take(7) == filler_prefix() {
        Some(Cleaner::Filler(s[7]))
    } else {
        None
    }
}

fn same_chars(a: &Vec<char>, b: &Vec<char>) -> (r: bool)
    ensures
        r == (a@ == b@),
{
    if a.len() != b.len() {
        return false;
    }
    let mut i: usize = 0;
    while i < a.len()
        invariant
            a@.len() == b@.len(),
            i <= a@.len(),
            forall|j: int| 0 <= j < i ==> a@[j] == b@[j],
        decreases a@.len() - i,
    {
        if a[i] != b[i] {
            return false;
        }
        i = i + 1;
    }
    proof {
        assert(a@ =~= b@);
    }
    true
}

/// The rule that `name` names, if any.
pub fn parse_rule(name: &str) -> (r: Option<Cleaner>)
    ensures
        r == rule_named(name@),
{
    let s = to_chars(name);
    let whitespace = vec!['w', 'h', 'i', 't', 'e', 's', 'p', 'a', 'c', 'e'];
    let astral = vec!['a', 's', 't', 'r', 'a', 'l'];
    let pair = vec!['p', 'a', 'i', 'r'];
    let hash = vec!['h', 'a', 's', 'h'];
    let link = vec!['l', 'i', 'n', 'k'];
    let filler = vec!['f', 'i', 'l', 'l', 'e', 'r', ':'];
    proof {
        assert(whitespace@ =~= seq!['w', 'h', 'i', 't', 'e', 's', 'p', 'a', 'c', 'e']);
        assert(astral@ =~= seq!['a', 's', 't', 'r', 'a', 'l']);
        assert(pair@ =~= seq!['p', 'a', 'i', 'r']);
        assert(hash@ =~= seq!['h', 'a', 's', 'h']);
        assert(link@ =~= seq!['l', 'i', 'n', 'k']);
        assert(filler@ =~= filler_prefix());
    }
    if same_chars(&s, &whitespace) {
        Some(Cleaner::Whitespace)
    } else if same_chars(&s, &astral) {
        Some(Cleaner::Astral)
    } else if same_chars(&s, &pair) {
        Some(Cleaner::Pair)
    } else if same_chars(&s, &hash) {
        Some(Cleaner::Hash)
    } else if same_chars(&s, &link) {
        Some(Cleaner::Link)
    } else if s.len() == 8 {
        let mut head: Vec<char> = Vec::new();
        let mut i: usize = 0;
        while i < 7
            invariant
                s@.len() == 8,
                i <= 7,
                head@ == s@.take(i as int),
            decreases 7 - i,
        {
            head.push(s[i]);
            i = i + 1;
            proof {
                assert(head@ =~= s@.take(i as int));
            }
        }
        if same_chars(&head, &filler) {
            Some(Cleaner::Filler(s[7]))
        } else {
            None
        }
    } else {
        None
    }
}

/// The rule table that `names` lists, in order; the index of the first entry
/// that names no rule where there is one.
pub fn rule_table(names: &[String]) -> (r: Result<Vec<Cleaner>, ConfigError>)
    ensures
        match r {
            Ok(v) => v@.len() == names@.len() && forall|i: int|
                0 <= i < names@.len() ==> rule_named(#[trigger] names@[i]@) == Some(v@[i]),
            Err(ConfigError::UnknownRule(k)) => k < names@.len() && rule_named(names@[k as int]@)
                is None && forall|i: int|
                0 <= i < k ==> #[trigger] rule_named(names@[i]@) is Some,
        },
{
    let mut v: Vec<Cleaner> = Vec::new();
    let mut i: usize = 0;
    while i < names.len()
        invariant
            i <= names@.len(),
            v@.len() == i,
            forall|j: int| 0 <= j < i ==> rule_named(#[trigger] names@[j]@) == Some(v@[j]),
        decreases names@.len() - i,
    {
        match parse_rule(names[i].as_str()) {
            Some(c) => v.push(c),
            None => {
                return Err(ConfigError::UnknownRule(i));
            },
        }
        i = i + 1;
    }
    Ok(v)
}

} // verus!
