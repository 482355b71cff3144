//! The closed choice of search variant.

use std::str::FromStr;
use vstd::prelude::*;

verus! {

/// Which search answers a query.
#[derive(Clone, Copy, Debug, PartialEq, Eq, Structural)]
pub enum ExecutionType {
    Dijkstra,
    BiDijkstra,
    AStar,
    ShortcutAStar,
}

/// What `str::to_lowercase` makes of a text.
pub uninterp spec fn lowercase_of(text: Seq<char>) -> Seq<char>;

/// `str::to_lowercase`: the lowercase form of `text`, which depends on
/// `text` alone.
#[verifier::external_body]
fn lowercase(text: &str) -> (lower: String)
    ensures
        lower@ == lowercase_of(text@),
{
    text.to_lowercase()
}

/// Whether two texts hold the same characters.
fn same_text(a: &str, b: &str) -> (same: bool)
    ensures
        same == (a@ == b@),
{
    a.to_owned() == b.to_owned()
}

impl ExecutionType {
    /// The variant that a lowercase name stands for.
    pub open spec fn named(lower: Seq<char>) -> Option<ExecutionType> {
        if lower == "dijkstra"@ {
            Some(ExecutionType::Dijkstra)
        } else if lower == "bidijkstra"@ {
            Some(ExecutionType::BiDijkstra)
        } else if lower == "astar"@ {
            Some(ExecutionType::AStar)
        } else if lower == "shortcutastar"@ {
            Some(ExecutionType::ShortcutAStar)
        } else {
            None
        }
    }

    /// The names of the four variants, in the order of their declaration.
    pub fn get_strings() -> (names: Vec<&'static str>)
        ensures
            names@.len() == 4,
            names@[0]@ == "Dijkstra"@,
            names@[1]@ == "BiDijkstra"@,
            names@[2]@ == "AStar"@,
            names@[3]@ == "ShortcutAStar"@,
    {
        let mut names: Vec<&'static str> = Vec::new();
        names.push("Dijkstra");
        names.push("BiDijkstra");
        names.push("AStar");
        names.push("ShortcutAStar");
        names
    }

    /// Whether the variant searches the graph with shortcuts.
    pub fn uses_shortcut(&self) -> (b: bool)
        ensures
            b == (*self is ShortcutAStar),
    {
        match self {
            ExecutionType::ShortcutAStar => true,
            _ => false,
        }
    }

    /// Whether the variant adds an estimate to its queue keys.
    pub fn uses_estimate(&self) -> (b: bool)
        ensures
            b == self.needs_estimate(),
    {
        match self {
            ExecutionType::AStar => true,
            ExecutionType::ShortcutAStar => true,
            _ => false,
        }
    }

    /// The variant is one of the two A* searches.
    pub open spec fn needs_estimate(&self) -> bool {
        *self is AStar || *self is ShortcutAStar
    }

    /// The variant that the lowercase name `lower` stands for.
    pub fn from_lowercase(lower: &str) -> (r: Option<ExecutionType>)
        ensures
            r == ExecutionType::named(lower@),
    {
        if same_text(lower, "dijkstra") {
            Some(ExecutionType::Dijkstra)
        } else if same_text(lower, "bidijkstra") {
            Some(ExecutionType::BiDijkstra)
        } else if same_text(lower, "astar") {
            Some(ExecutionType::AStar)
        } else if same_text(lower, "shortcutastar") {
            Some(ExecutionType::ShortcutAStar)
        } else {
            None
        }
    }

    /// The variant that `name` stands for, whatever the case of its letters.
    pub fn parse(name: &str) -> (r: Option<ExecutionType>)
        ensures
            r == ExecutionType::named(lowercase_of(name@)),
    {
        let lower = lowercase(name);
        ExecutionType::from_lowercase(lower.as_str())
    }
}

impl FromStr for ExecutionType {
    type Err = ();

    /// The variant that `s` stands for, whatever the case of its letters;
    /// the empty error where it stands for none.
    fn from_str(s: &str) -> (r: Result<ExecutionType, ()>)
        ensures
            r == match ExecutionType::named(lowercase_of(s@)) {
                Some(variant) => Ok::<ExecutionType, ()>(variant),
                None => Err::<ExecutionType, ()>(()),
            },
    {
        match ExecutionType::parse(s) {
            Some(variant) => Ok(variant),
            None => Err(()),
        }
    }
}

} // verus!
