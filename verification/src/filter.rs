//! The selector of the figure by which a report is ranked.

use vstd::prelude::*;
use crate::text::{chars_of, segment_is, trim, trimmed};

verus! {

/// The figure by which the rows of a report are ranked.
#[derive(Clone, Copy, Debug, PartialEq, Eq, Structural)]
pub enum Filter {
    /// By the CPU that is requested.
    Cpu,
    /// By the memory that is requested.
    Mem,
    /// By the storage that is requested.
    Storage,
    /// By the number of pods.
    Pods,
    /// Not at all: the rows keep the order of the records.
    Unsorted,
}

/// A selector that names no figure.
#[derive(Clone, Debug, PartialEq, Eq)]
pub struct ConfigError {
    /// What is wrong, with the selector as it was given.
    pub message: String,
}

/// The figure that the selector `s` names: `cpu`, `mem`, `storage` or `pods`,
/// or nothing at all for no ranking; white space around it does not count.
/// `None` where `s` is no selector.
pub open spec fn filter_of(s: Seq<char>) -> Option<Filter> {
    let word = trim(s);
    if word == Seq::<char>::empty() {
        Some(Filter::Unsorted)
    } else if word == seq!['c', 'p', 'u'] {
        Some(Filter::Cpu)
    } else if word == seq!['m', 'e', 'm'] {
        Some(Filter::Mem)
    } else if word == seq!['s', 't', 'o', 'r', 'a', 'g', 'e'] {
        Some(Filter::Storage)
    } else if word == seq!['p', 'o', 'd', 's'] {
        Some(Filter::Pods)
    } else {
        None
    }
}

/// What is said of the text `s` that is no selector.
pub open spec fn invalid_filter_message(s: Seq<char>) -> Seq<char> {
    seq!['i', 'n', 'v', 'a', 'l', 'i', 'd', ' ', 'f', 'i', 'l', 't', 'e', 'r', ' '] + s
}

impl Filter {
    /// Reads a selector. Fails on a text that names no figure, with a
    /// message that repeats the text.
    pub fn from_str(s: &str) -> (r: Result<Filter, ConfigError>)
        ensures
            match r {
                Ok(filter) => filter_of(s@) == Some(filter),
                Err(e) => filter_of(s@) is None && e.message@ == invalid_filter_message(s@),
            },
    {
        let text: Vec<char> = chars_of(s);
        let (from, to) = trimmed(&text);
        proof {
            reveal_strlit("cpu");
            reveal_strlit("mem");
            reveal_strlit("storage");
            reveal_strlit("pods");
            reveal_strlit("invalid filter ");
            assert("cpu"@ =~= seq!['c', 'p', 'u']);
            assert("mem"@ =~= seq!['m', 'e', 'm']);
            assert("storage"@ =~= seq!['s', 't', 'o', 'r', 'a', 'g', 'e']);
            assert("pods"@ =~= seq!['p', 'o', 'd', 's']);
            assert("invalid filter "@ =~= seq![
                'i',
                'n',
                'v',
                'a',
                'l',
                'i',
                'd',
                ' ',
                'f',
                'i',
                'l',
                't',
                'e',
                'r',
                ' ',
            ]);
        }
        assert(trim(s@).len() == to - from);
        if from == to {
            assert(trim(s@) =~= Seq::<char>::empty());
            Ok(Filter::Unsorted)
        } else if segment_is(&text, from, to, "cpu") {
            Ok(Filter::Cpu)
        } else if segment_is(&text, from, to, "mem") {
            Ok(Filter::Mem)
        } else if segment_is(&text, from, to, "storage") {
            Ok(Filter::Storage)
        } else if segment_is(&text, from, to, "pods") {
            Ok(Filter::Pods)
        } else {
            Err(ConfigError { message: String::from_str("invalid filter ").concat(s) })
        }
    }
}

} // verus!
